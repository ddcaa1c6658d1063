//! Ordering of the card pool: for drawing, and for the scroll gesture.
use vstd::prelude::*;

use crate::card::{Card, all_wf};

verus! {

/// `a` may stand before `b`. With `grabbed_first` a grabbed card leads one
/// that is not grabbed; otherwise, and between cards alike in that, the card
/// lower on the surface (larger y) leads.
pub open spec fn goes_before(a: Card, b: Card, grabbed_first: bool) -> bool {
    if grabbed_first && a.grabbing != b.grabbing {
        a.grabbing
    } else {
        a.pos.y >= b.pos.y
    }
}

pub open spec fn sorted_by(s: Seq<Card>, grabbed_first: bool) -> bool {
    forall|p: int, q: int| 0 <= p < q < s.len() ==> goes_before(#[trigger] s[p], #[trigger] s[q], grabbed_first)
}

/// `s` is `t` reordered: `s[k]` is `t[perm[k]]`, each position of `t` used once.
pub open spec fn reorders(s: Seq<Card>, t: Seq<Card>, perm: Seq<int>) -> bool {
    &&& perm.len() == s.len()
    &&& s.len() == t.len()
    &&& forall|k: int| 0 <= k < s.len() ==> 0 <= #[trigger] perm[k] < t.len() && s[k] == t[perm[k]]
    &&& forall|k: int, l: int| 0 <= k < l < s.len() ==> #[trigger] perm[k] != #[trigger] perm[l]
}

/// Cards of `s` that tie under `goes_before` stand in the order that their
/// positions `perm` in the original pool had.
pub open spec fn keeps_ties(s: Seq<Card>, perm: Seq<int>, grabbed_first: bool) -> bool {
    forall|k: int, l: int|
        0 <= k < l < s.len() && goes_before(#[trigger] s[k], #[trigger] s[l], grabbed_first)
            && goes_before(s[l], s[k], grabbed_first) ==> perm[k] < perm[l]
}

/// `s` is the stable sort of `t` by `goes_before`.
pub open spec fn is_stable_sort(s: Seq<Card>, t: Seq<Card>, grabbed_first: bool) -> bool {
    &&& sorted_by(s, grabbed_first)
    &&& exists|perm: Seq<int>| reorders(s, t, perm) && keeps_ties(s, perm, grabbed_first)
}

fn cards_before(a: &Card, b: &Card, grabbed_first: bool) -> (r: bool)
    ensures
        r == goes_before(*a, *b, grabbed_first),
{
    if grabbed_first && a.grabbing != b.grabbing {
        a.grabbing
    } else {
        a.pos.y >= b.pos.y
    }
}

fn swap_down(cards: &mut Vec<Card>, j: usize)
    requires
        0 < j < old(cards)@.len(),
    ensures
        final(cards)@ == old(cards)@.update(j - 1, old(cards)@[j as int]).update(
            j as int,
            old(cards)@[j - 1],
        ),
        final(cards)@.to_multiset() == old(cards)@.to_multiset(),
{
    let a = cards[j - 1];
    let b = cards[j];
    proof {
        let s = cards@;
        let s1 = s.update(j - 1, b);
        broadcast use vstd::seq_lib::to_multiset_update;
        broadcast use vstd::multiset::group_multiset_axioms;

        assert(s1.to_multiset() == s.to_multiset().insert(b).remove(a));
        assert(s1.update(j as int, a).to_multiset() == s1.to_multiset().insert(a).remove(b));
        broadcast use vstd::seq_lib::to_multiset_contains;

        assert(s.contains(a));
        assert(s1.contains(b));
        let m = s.to_multiset();
        assert(m.count(a) > 0);
        assert(m.insert(b).remove(a).insert(a).remove(b) =~= m);
    }
    cards[j - 1] = b;
    cards[j] = a;
}

/// Sorts the pool in place by `goes_before`: with `grabbed_first` into draw
/// order (grabbed cards first, then by descending y), otherwise by descending
/// y alone. Cards that tie keep their order.
pub fn sort_cards(cards: &mut Vec<Card>, grabbed_first: bool)
    ensures
        final(cards)@.len() == old(cards)@.len(),
        is_stable_sort(final(cards)@, old(cards)@, grabbed_first),
        final(cards)@.to_multiset() == old(cards)@.to_multiset(),
        sorted_by(final(cards)@, grabbed_first),
        all_wf(old(cards)@) ==> all_wf(final(cards)@),
{
    let n = cards.len();
    let mut i: usize = 1;
    let ghost mut perm: Seq<int> = Seq::new(n as nat, |k: int| k);
    if n == 0 {
        assert(reorders(cards@, old(cards)@, perm));
        return;
    }
    while i < n
        invariant
            1 <= i <= n,
            n == cards@.len(),
            cards@.to_multiset() == old(cards)@.to_multiset(),
            all_wf(old(cards)@) ==> all_wf(cards@),
            reorders(cards@, old(cards)@, perm),
            keeps_ties(cards@, perm, grabbed_first),
            forall|k: int| i <= k < n ==> #[trigger] perm[k] == k,
            forall|k: int| 0 <= k < i ==> #[trigger] perm[k] < i,
            forall|p: int, q: int|
                0 <= p < q < i ==> goes_before(#[trigger] cards@[p], #[trigger] cards@[q], grabbed_first),
        decreases n - i,
    {
        let mut j: usize = i;
        while j > 0 && !cards_before(&cards[j - 1], &cards[j], grabbed_first)
            invariant
                0 <= j <= i < n,
                n == cards@.len(),
                cards@.to_multiset() == old(cards)@.to_multiset(),
                all_wf(old(cards)@) ==> all_wf(cards@),
                reorders(cards@, old(cards)@, perm),
                perm[j as int] == i,
                forall|k: int| i < k < n ==> #[trigger] perm[k] == k,
                forall|k: int| 0 <= k <= i ==> #[trigger] perm[k] <= i,
                forall|k: int, l: int|
                    0 <= k < l < n && k != j && l != j && goes_before(
                        #[trigger] cards@[k],
                        #[trigger] cards@[l],
                        grabbed_first,
                    ) && goes_before(cards@[l], cards@[k], grabbed_first) ==> perm[k] < perm[l],
                forall|q: int| j < q <= i ==> !goes_before(#[trigger] cards@[q], cards@[j as int], grabbed_first),
                forall|p: int, q: int|
                    0 <= p < q <= i && p != j && q != j ==> goes_before(
                        #[trigger] cards@[p],
                        #[trigger] cards@[q],
                        grabbed_first,
                    ),
                forall|q: int| j < q <= i ==> goes_before(cards@[j as int], #[trigger] cards@[q], grabbed_first),
            decreases j,
        {
            let ghost prev = cards@;
            let ghost prev_perm = perm;
            swap_down(cards, j);
            proof {
                perm = prev_perm.update(j - 1, prev_perm[j as int]).update(j as int, prev_perm[j - 1]);
                assert forall|k: int, l: int| 0 <= k < l < n implies #[trigger] perm[k] != #[trigger] perm[l] by {
                    let pk = if k == j - 1 { j as int } else if k == j { j - 1 } else { k };
                    let pl = if l == j - 1 { j as int } else if l == j { j - 1 } else { l };
                    assert(perm[k] == prev_perm[pk]);
                    assert(perm[l] == prev_perm[pl]);
                    if pk < pl {
                        assert(prev_perm[pk] != prev_perm[pl]);
                    } else {
                        assert(prev_perm[pl] != prev_perm[pk]);
                    }
                }
                assert(reorders(cards@, old(cards)@, perm));
                if all_wf(old(cards)@) {
                    assert forall|k: int| 0 <= k < cards@.len() implies (#[trigger] cards@[k]).wf() by {
                        if k == j - 1 {
                            assert(prev[j as int].wf());
                        } else if k == j {
                            assert(prev[j - 1].wf());
                        } else {
                            assert(prev[k].wf());
                        }
                    }
                }
            }
            j = j - 1;
        }
        assert forall|k: int, l: int|
            0 <= k < l < n && goes_before(#[trigger] cards@[k], #[trigger] cards@[l], grabbed_first)
                && goes_before(cards@[l], cards@[k], grabbed_first) implies perm[k] < perm[l] by {
            if l == j {
                assert(perm[k] <= i);
                assert(perm[k] != perm[l]);
            } else if k == j {
                assert(perm[l] > i || !goes_before(cards@[l], cards@[k], grabbed_first));
            }
        }
        assert forall|p: int, q: int| 0 <= p < q < i + 1 implies goes_before(
            #[trigger] cards@[p],
            #[trigger] cards@[q],
            grabbed_first,
        ) by {
            if q == j && p < j {
                assert(goes_before(cards@[p], cards@[j - 1], grabbed_first) || p == j - 1);
            }
        }
        i = i + 1;
    }
}

} // verus!
