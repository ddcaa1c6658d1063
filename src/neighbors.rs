//! Nearest-neighbour queries over the card pool.
//!
//! The index is a flat scan rebuilt on every call: each query costs
//! O(k * n * k) comparisons, which suits pools of a few hundred cards.
//! Larger pools want a balanced 2-D tree instead.
use vstd::prelude::*;

use crate::card::{Card, all_wf};
use crate::geom::Vec2;

verus! {

/// Squared Euclidean distance between two points.
pub open spec fn sq_dist(a: Vec2, b: Vec2) -> int {
    (a.x - b.x) * (a.x - b.x) + (a.y - b.y) * (a.y - b.y)
}

/// `j` indexes a card of the pool other than card `i`.
pub open spec fn is_other(cards: Seq<Card>, i: int, j: int) -> bool {
    0 <= j < cards.len() && j != i
}

/// Card `a` is nearer to card `i` than card `b` is; at equal distance the
/// lower index counts as nearer, so this orders the pool strictly.
pub open spec fn nearer(cards: Seq<Card>, i: int, a: int, b: int) -> bool {
    let da = sq_dist(cards[a].pos, cards[i].pos);
    let db = sq_dist(cards[b].pos, cards[i].pos);
    da < db || (da == db && a < b)
}

/// `s` lists, nearest first, other cards than `i`, and every other card left
/// out of `s` is farther from `i` than all of them.
pub open spec fn is_nearest_list(cards: Seq<Card>, i: int, s: Seq<usize>) -> bool {
    &&& forall|p: int| 0 <= p < s.len() ==> is_other(cards, i, #[trigger] s[p] as int)
    &&& forall|p: int, q: int|
        0 <= p < q < s.len() ==> nearer(cards, i, #[trigger] s[p] as int, #[trigger] s[q] as int)
    &&& forall|o: int, p: int|
        is_other(cards, i, o) && !s.contains(o as usize) && 0 <= p < s.len()
            ==> #[trigger] nearer(cards, i, s[p] as int, o)
}

/// Squared distance between two points of the world; it cannot overflow.
pub fn squared_distance(a: &Vec2, b: &Vec2) -> (r: i64)
    requires
        a.in_world(),
        b.in_world(),
    ensures
        r == sq_dist(*a, *b),
        r >= 0,
{
    let dx: i64 = a.x - b.x;
    let dy: i64 = a.y - b.y;
    assert(0 <= dx * dx <= 4_000_000_000_000_000_000) by (nonlinear_arith)
        requires
            -2_000_000_000 <= dx <= 2_000_000_000,
    ;
    assert(0 <= dy * dy <= 4_000_000_000_000_000_000) by (nonlinear_arith)
        requires
            -2_000_000_000 <= dy <= 2_000_000_000,
    ;
    dx * dx + dy * dy
}

fn contains_index(v: &Vec<usize>, x: usize) -> (r: bool)
    ensures
        r == v@.contains(x),
{
    let mut p: usize = 0;
    while p < v.len()
        invariant
            p <= v@.len(),
            forall|q: int| 0 <= q < p ==> v@[q] != x,
        decreases v@.len() - p,
    {
        if v[p] == x {
            return true;
        }
        p = p + 1;
    }
    false
}

/// The card nearest to card `i` among those other than `i` and not in `skip`.
fn nearest_other(cards: &Vec<Card>, i: usize, skip: &Vec<usize>) -> (r: Option<usize>)
    requires
        i < cards@.len(),
        all_wf(cards@),
    ensures
        match r {
            Some(j) => {
                &&& is_other(cards@, i as int, j as int)
                &&& !skip@.contains(j)
                &&& forall|o: int|
                    is_other(cards@, i as int, o) && !skip@.contains(o as usize) && o != j
                        ==> #[trigger] nearer(cards@, i as int, j as int, o)
            },
            None => forall|o: int| is_other(cards@, i as int, o) ==> skip@.contains(o as usize),
        },
{
    let here = cards[i].pos;
    assert(cards@[i as int].wf());
    let mut best: Option<usize> = None;
    let mut best_d: i64 = 0;
    let mut k: usize = 0;
    while k < cards.len()
        invariant
            k <= cards@.len(),
            i < cards@.len(),
            all_wf(cards@),
            here == cards@[i as int].pos,
            match best {
                Some(j) => {
                    &&& is_other(cards@, i as int, j as int)
                    &&& j < k
                    &&& !skip@.contains(j)
                    &&& best_d == sq_dist(cards@[j as int].pos, here)
                    &&& forall|o: int|
                        is_other(cards@, i as int, o) && o < k && !skip@.contains(o as usize) && o
                            != j ==> #[trigger] nearer(cards@, i as int, j as int, o)
                },
                None => forall|o: int|
                    is_other(cards@, i as int, o) && o < k ==> skip@.contains(o as usize),
            },
        decreases cards@.len() - k,
    {
        if k != i && !contains_index(skip, k) {
            assert(cards@[k as int].wf());
            let d = squared_distance(&cards[k].pos, &here);
            match best {
                Some(j) => {
                    if d < best_d {
                        assert forall|o: int|
                            is_other(cards@, i as int, o) && o < k + 1 && !skip@.contains(
                                o as usize,
                            ) && o != k implies #[trigger] nearer(cards@, i as int, k as int, o) by {
                            if o != j {
                                assert(nearer(cards@, i as int, j as int, o));
                            }
                        }
                        best = Some(k);
                        best_d = d;
                    }
                },
                None => {
                    best = Some(k);
                    best_d = d;
                },
            }
        }
        k = k + 1;
    }
    best
}

/// The `k` cards nearest to card `i`, nearest first, card `i` itself left out.
/// Fewer come back only when the pool holds fewer other cards.
pub fn k_nearest(cards: &Vec<Card>, i: usize, k: usize) -> (r: Vec<usize>)
    requires
        i < cards@.len(),
        all_wf(cards@),
    ensures
        is_nearest_list(cards@, i as int, r@),
        r@.len() <= k,
        r@.len() < k ==> forall|o: int| is_other(cards@, i as int, o) ==> r@.contains(o as usize),
{
    let mut found: Vec<usize> = Vec::new();
    let mut done = false;
    while found.len() < k && !done
        invariant
            i < cards@.len(),
            all_wf(cards@),
            is_nearest_list(cards@, i as int, found@),
            found@.len() <= k,
            done ==> forall|o: int| is_other(cards@, i as int, o) ==> found@.contains(o as usize),
        decreases 2 * (k - found@.len()) + if done { 0int } else { 1int },
    {
        match nearest_other(cards, i, &found) {
            Some(j) => {
                let ghost before = found@;
                found.push(j);
                assert forall|o: int, p: int|
                    is_other(cards@, i as int, o) && !found@.contains(o as usize) && 0 <= p
                        < found@.len() implies #[trigger] nearer(cards@, i as int, found@[p] as int, o) by {
                    assert(!before.contains(o as usize)) by {
                        if before.contains(o as usize) {
                            let q = choose|q: int| 0 <= q < before.len() && before[q] == o as usize;
                            assert(found@[q] == o as usize);
                        }
                    }
                    if p == before.len() {
                        assert(found@[p] == j);
                        assert(o != j as int);
                    } else {
                        assert(found@[p] == before[p]);
                    }
                }
                assert forall|p: int, q: int| 0 <= p < q < found@.len() implies nearer(
                    cards@,
                    i as int,
                    #[trigger] found@[p] as int,
                    #[trigger] found@[q] as int,
                ) by {
                    if q == before.len() {
                        assert(found@[p] == before[p]);
                    }
                }
            },
            None => {
                done = true;
            },
        }
    }
    found
}

} // verus!
