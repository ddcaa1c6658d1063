//! Pointer interaction on the card pool: grabbing, releasing, dragging and
//! scrolling a column of cards.
use vstd::prelude::*;

use crate::card::{Card, all_wf};
use crate::geom::{Vec2, clamp_to_world, clamp_world};
use crate::layout::FUSE_DISTANCE;
use crate::order::{is_stable_sort, reorders, sort_cards};

verus! {

/// Card `i` is the first card of the pool whose rectangle holds `p`.
pub open spec fn is_first_containing(cards: Seq<Card>, p: Vec2, i: int) -> bool {
    &&& 0 <= i < cards.len()
    &&& cards[i].contains(p)
    &&& forall|k: int| 0 <= k < i ==> !(#[trigger] cards[k]).contains(p)
}

/// Card `i` is the first card of the pool that is grabbed.
pub open spec fn is_first_grabbed(cards: Seq<Card>, i: int) -> bool {
    &&& 0 <= i < cards.len()
    &&& cards[i].grabbing
    &&& forall|k: int| 0 <= k < i ==> !(#[trigger] cards[k]).grabbing
}

/// Some card of the pool is grabbed.
pub open spec fn some_grabbed(cards: Seq<Card>) -> bool {
    exists|k: int| 0 <= k < cards.len() && (#[trigger] cards[k]).grabbing
}

/// No two cards of the pool are grabbed at once.
pub open spec fn at_most_one_grabbed(cards: Seq<Card>) -> bool {
    forall|k: int, l: int|
        0 <= k < l < cards.len() && (#[trigger] cards[k]).grabbing ==> !(#[trigger] cards[l]).grabbing
}

/// The pool after a press at `p`: while a card is grabbed nothing changes;
/// otherwise the first card holding `p` is grabbed.
pub open spec fn grabbed_at(cards: Seq<Card>, p: Vec2) -> Seq<Card> {
    if some_grabbed(cards) {
        cards
    } else {
        Seq::new(
        cards.len(),
        |k: int|
            if is_first_containing(cards, p, k) {
                Card { grabbing: true, ..cards[k] }
            } else {
                cards[k]
            },
        )
    }
}

/// The pool after a release: no card is grabbed.
pub open spec fn released(cards: Seq<Card>) -> Seq<Card> {
    Seq::new(cards.len(), |k: int| Card { grabbing: false, ..cards[k] })
}

/// `v` moved by `d`, each coordinate kept inside the world.
pub open spec fn moved_by(v: Vec2, d: Vec2) -> Vec2 {
    Vec2 { x: clamp_world(v.x + d.x) as i64, y: clamp_world(v.y + d.y) as i64 }
}

/// The pool after the pointer moved by `delta`: the first grabbed card follows it.
pub open spec fn dragged(cards: Seq<Card>, delta: Vec2) -> Seq<Card> {
    Seq::new(
        cards.len(),
        |k: int|
            if is_first_grabbed(cards, k) {
                Card { pos: moved_by(cards[k].pos, delta), ..cards[k] }
            } else {
                cards[k]
            },
    )
}

/// `x` lies within the fuse distance of the column at `root`, ends excluded.
pub open spec fn in_column(x: int, root: int) -> bool {
    root - FUSE_DISTANCE < x < root + FUSE_DISTANCE
}

/// The pool after a scroll by `dy` at `p`, taken in its present order: if a
/// card holds `p`, the first such card fixes a column, and every card of that
/// column moves down by `dy`.
pub open spec fn column_shifted(cards: Seq<Card>, p: Vec2, dy: int) -> Seq<Card> {
    if exists|a: int| is_first_containing(cards, p, a) {
        let a = choose|a: int| is_first_containing(cards, p, a);
        Seq::new(
            cards.len(),
            |k: int|
                if in_column(cards[k].pos.x as int, cards[a].pos.x as int) {
                    Card {
                        pos: Vec2 { x: cards[k].pos.x, y: clamp_world(cards[k].pos.y + dy) as i64 },
                        ..cards[k]
                    }
                } else {
                    cards[k]
                },
        )
    } else {
        cards
    }
}

/// The index of the first card whose rectangle holds `p`.
pub fn first_containing(cards: &Vec<Card>, p: &Vec2) -> (r: Option<usize>)
    ensures
        match r {
            Some(i) => is_first_containing(cards@, *p, i as int),
            None => forall|k: int| 0 <= k < cards@.len() ==> !(#[trigger] cards@[k]).contains(*p),
        },
{
    let mut i: usize = 0;
    while i < cards.len()
        invariant
            i <= cards@.len(),
            forall|k: int| 0 <= k < i ==> !(#[trigger] cards@[k]).contains(*p),
        decreases cards@.len() - i,
    {
        if cards[i].is_inside(p) {
            return Some(i);
        }
        i = i + 1;
    }
    None
}

proof fn lemma_first_containing_unique(cards: Seq<Card>, p: Vec2, i: int, j: int)
    requires
        is_first_containing(cards, p, i),
        is_first_containing(cards, p, j),
    ensures
        i == j,
{
    if i < j {
        assert(!cards[i].contains(p));
    }
    if j < i {
        assert(!cards[j].contains(p));
    }
}

/// Whether some card of the pool is grabbed.
pub fn any_grabbed(cards: &Vec<Card>) -> (r: bool)
    ensures
        r == some_grabbed(cards@),
{
    let mut i: usize = 0;
    while i < cards.len()
        invariant
            i <= cards@.len(),
            forall|k: int| 0 <= k < i ==> !(#[trigger] cards@[k]).grabbing,
        decreases cards@.len() - i,
    {
        if cards[i].grabbing {
            return true;
        }
        i = i + 1;
    }
    false
}

/// A press at `point` grabs the first card whose rectangle holds it. While a
/// card is already grabbed, or if no card holds `point`, nothing changes.
pub fn grab_card(cards: &mut Vec<Card>, point: &Vec2)
    ensures
        final(cards)@ == grabbed_at(old(cards)@, *point),
        all_wf(old(cards)@) ==> all_wf(final(cards)@),
        at_most_one_grabbed(old(cards)@) ==> at_most_one_grabbed(final(cards)@),
{
    if any_grabbed(cards) {
        return;
    }
    match first_containing(cards, point) {
        Some(i) => {
            let mut c = cards[i];
            c.grabbing = true;
            cards[i] = c;
            proof {
                assert forall|k: int| 0 <= k < cards@.len() implies #[trigger] cards@[k] == grabbed_at(
                    old(cards)@,
                    *point,
                )[k] by {
                    if is_first_containing(old(cards)@, *point, k) {
                        lemma_first_containing_unique(old(cards)@, *point, k, i as int);
                    }
                }
                assert(cards@ =~= grabbed_at(old(cards)@, *point));
                assert forall|k: int, l: int|
                    0 <= k < l < cards@.len() && (#[trigger] cards@[k]).grabbing implies !(
                    #[trigger] cards@[l]).grabbing by {
                    assert(!old(cards)@[k].grabbing || k == i);
                    assert(!old(cards)@[l].grabbing);
                }
            }
        },
        None => {
            assert(cards@ =~= grabbed_at(old(cards)@, *point));
        },
    }
}

/// A release lets go of every card, wherever the pointer is.
pub fn release_all(cards: &mut Vec<Card>)
    ensures
        final(cards)@ == released(old(cards)@),
        all_wf(old(cards)@) ==> all_wf(final(cards)@),
        at_most_one_grabbed(final(cards)@),
{
    let mut i: usize = 0;
    while i < cards.len()
        invariant
            i <= cards@.len(),
            cards@.len() == old(cards)@.len(),
            forall|k: int| 0 <= k < i ==> #[trigger] cards@[k] == released(old(cards)@)[k],
            forall|k: int| i <= k < cards@.len() ==> #[trigger] cards@[k] == old(cards)@[k],
        decreases cards@.len() - i,
    {
        let mut c = cards[i];
        c.grabbing = false;
        cards[i] = c;
        i = i + 1;
    }
    assert(cards@ =~= released(old(cards)@));
}

/// The first grabbed card, if any, moves by `delta`.
pub fn drag_grabbed(cards: &mut Vec<Card>, delta: &Vec2)
    ensures
        final(cards)@ == dragged(old(cards)@, *delta),
        all_wf(old(cards)@) ==> all_wf(final(cards)@),
        at_most_one_grabbed(old(cards)@) ==> at_most_one_grabbed(final(cards)@),
{
    let mut i: usize = 0;
    while i < cards.len()
        invariant
            i <= cards@.len(),
            cards@ == old(cards)@,
            forall|k: int| 0 <= k < i ==> !(#[trigger] cards@[k]).grabbing,
        decreases cards@.len() - i,
    {
        if cards[i].grabbing {
            let mut c = cards[i];
            c.pos = Vec2 {
                x: clamp_to_world(c.pos.x as i128 + delta.x as i128),
                y: clamp_to_world(c.pos.y as i128 + delta.y as i128),
            };
            cards[i] = c;
            proof {
                assert forall|k: int| 0 <= k < cards@.len() implies #[trigger] cards@[k] == dragged(
                    old(cards)@,
                    *delta,
                )[k] by {
                    if is_first_grabbed(old(cards)@, k) && k > i {
                        assert(!old(cards)@[i as int].grabbing);
                    }
                }
                assert(cards@ =~= dragged(old(cards)@, *delta));
            }
            return;
        }
        i = i + 1;
    }
    assert(cards@ =~= dragged(old(cards)@, *delta));
}

/// Moves every card within the fuse distance of the column of the first
/// card holding `pointer` down by `dy`; if no card holds it, nothing changes.
pub fn shift_column(cards: &mut Vec<Card>, pointer: &Vec2, dy: i64)
    ensures
        final(cards)@ == column_shifted(old(cards)@, *pointer, dy as int),
        all_wf(old(cards)@) ==> all_wf(final(cards)@),
        at_most_one_grabbed(old(cards)@) ==> at_most_one_grabbed(final(cards)@),
{
    match first_containing(cards, pointer) {
        Some(a) => {
            let root = cards[a].pos.x;
            proof {
                let b = choose|b: int| is_first_containing(old(cards)@, *pointer, b);
                lemma_first_containing_unique(old(cards)@, *pointer, a as int, b);
            }
            let ghost target = column_shifted(old(cards)@, *pointer, dy as int);
            let mut i: usize = 0;
            while i < cards.len()
                invariant
                    i <= cards@.len(),
                    cards@.len() == old(cards)@.len(),
                    a < cards@.len(),
                    root == old(cards)@[a as int].pos.x,
                    target == column_shifted(old(cards)@, *pointer, dy as int),
                    target.len() == cards@.len(),
                    forall|k: int|
                        0 <= k < cards@.len() ==> #[trigger] target[k] == (if in_column(
                            old(cards)@[k].pos.x as int,
                            root as int,
                        ) {
                            Card {
                                pos: Vec2 {
                                    x: old(cards)@[k].pos.x,
                                    y: clamp_world(old(cards)@[k].pos.y + dy) as i64,
                                },
                                ..old(cards)@[k]
                            }
                        } else {
                            old(cards)@[k]
                        }),
                    forall|k: int| 0 <= k < i ==> #[trigger] cards@[k] == target[k],
                    forall|k: int| i <= k < cards@.len() ==> #[trigger] cards@[k] == old(cards)@[k],
                decreases cards@.len() - i,
            {
                let x = cards[i].pos.x;
                if root as i128 - (FUSE_DISTANCE as i128) < x as i128 && (x as i128) < root as i128
                    + FUSE_DISTANCE as i128 {
                    let mut c = cards[i];
                    c.pos = Vec2 { x: c.pos.x, y: clamp_to_world(c.pos.y as i128 + dy as i128) };
                    cards[i] = c;
                }
                i = i + 1;
            }
            assert(cards@ =~= target);
        },
        None => {},
    }
}

/// The scroll gesture: the pool is sorted by descending y, so the card lowest
/// on the surface is found first, and then the column under `pointer` moves
/// down by `dy`.
pub fn scroll_group(cards: &mut Vec<Card>, pointer: &Vec2, dy: i64)
    ensures
        exists|s: Seq<Card>|
            #![trigger column_shifted(s, *pointer, dy as int)]
            is_stable_sort(s, old(cards)@, false) && final(cards)@ == column_shifted(
                s,
                *pointer,
                dy as int,
            ),
        all_wf(old(cards)@) ==> all_wf(final(cards)@),
        at_most_one_grabbed(old(cards)@) ==> at_most_one_grabbed(final(cards)@),
{
    sort_cards(cards, false);
    let ghost s = cards@;
    proof {
        if at_most_one_grabbed(old(cards)@) {
            lemma_sort_keeps_one_grabbed(s, old(cards)@, false);
        }
    }
    shift_column(cards, pointer, dy);
    assert(final(cards)@ == column_shifted(s, *pointer, dy as int));
}

/// Sorting the pool keeps at most one card grabbed.
pub proof fn lemma_sort_keeps_one_grabbed(s: Seq<Card>, t: Seq<Card>, grabbed_first: bool)
    requires
        is_stable_sort(s, t, grabbed_first),
        at_most_one_grabbed(t),
    ensures
        at_most_one_grabbed(s),
{
    let perm = choose|perm: Seq<int>| reorders(s, t, perm) && crate::order::keeps_ties(s, perm, grabbed_first);
    assert forall|k: int, l: int|
        0 <= k < l < s.len() && (#[trigger] s[k]).grabbing implies !(#[trigger] s[l]).grabbing by {
        assert(perm[k] != perm[l]);
        assert(s[k] == t[perm[k]]);
        assert(s[l] == t[perm[l]]);
        if perm[k] < perm[l] {
            assert(t[perm[k]].grabbing ==> !t[perm[l]].grabbing);
        } else {
            assert(t[perm[l]].grabbing ==> !t[perm[k]].grabbing);
        }
    }
}

/// With no card grabbed, a press inside a card grabs a card that holds the
/// pointer; a later release lets go of every card, wherever the pointer has
/// gone since.
pub proof fn lemma_grab_then_release(cards: Seq<Card>, p: Vec2, i: int)
    requires
        !some_grabbed(cards),
        0 <= i < cards.len(),
        cards[i].contains(p),
    ensures
        exists|k: int|
            0 <= k < cards.len() && (#[trigger] grabbed_at(cards, p)[k]).grabbing && grabbed_at(
                cards,
                p,
            )[k].contains(p),
        released(grabbed_at(cards, p)).len() == cards.len(),
        forall|k: int| 0 <= k < cards.len() ==> !(#[trigger] released(grabbed_at(cards, p))[k]).grabbing,
{
    lemma_first_containing_exists(cards, p, i);
    let f = choose|f: int| is_first_containing(cards, p, f);
    assert(grabbed_at(cards, p)[f].grabbing);
}

proof fn lemma_first_containing_exists(cards: Seq<Card>, p: Vec2, i: int)
    requires
        0 <= i < cards.len(),
        cards[i].contains(p),
    ensures
        exists|f: int| is_first_containing(cards, p, f),
    decreases i,
{
    if exists|k: int| 0 <= k < i && (#[trigger] cards[k]).contains(p) {
        let k = choose|k: int| 0 <= k < i && (#[trigger] cards[k]).contains(p);
        lemma_first_containing_exists(cards, p, k);
    } else {
        assert(is_first_containing(cards, p, i));
    }
}

} // verus!
