//! The per-frame stacking rule: each card that is not being dragged moves
//! halfway towards sitting one title strip below (or above) its nearest
//! neighbour that is not below it.
use vstd::prelude::*;

use crate::card::{Card, all_wf};
use crate::geom::{Vec2, WORLD_LIMIT, clamp_to_world, clamp_world};
use crate::neighbors::{is_nearest_list, is_other, k_nearest, nearer, sq_dist, squared_distance};

verus! {

/// Cards nearer than this are adjacent and stack on one another.
pub const FUSE_DISTANCE: i64 = 100;

pub const SQ_FUSE_DISTANCE: i64 = FUSE_DISTANCE * FUSE_DISTANCE;

/// How far a stacked card sits from its neighbour, so its title stays visible.
pub const APPROX_CARD_TITLE_HEIGHT: i64 = 36;

/// How many nearest cards the rule queries around a card, the card itself
/// among them (it comes first, at distance zero): the rule looks at the other two.
pub const NEIGHBOR_COUNT: usize = 3;

/// `j` is one of the two other cards nearest to card `i`: no two distinct
/// other cards are nearer to `i` than `j` is.
pub open spec fn among_nearest(cards: Seq<Card>, i: int, j: int) -> bool {
    &&& is_other(cards, i, j)
    &&& !exists|a: int, b: int|
        #![trigger nearer(cards, i, a, j), nearer(cards, i, b, j)]
        is_other(cards, i, a) && is_other(cards, i, b) && a != b && nearer(cards, i, a, j)
            && nearer(cards, i, b, j)
}

/// Card `j` may anchor card `i`: among its nearest, closer than the fuse
/// distance, and level with or above it on the surface.
pub open spec fn qualifies(cards: Seq<Card>, i: int, j: int) -> bool {
    &&& among_nearest(cards, i, j)
    &&& sq_dist(cards[j].pos, cards[i].pos) < SQ_FUSE_DISTANCE
    &&& cards[j].pos.y <= cards[i].pos.y
}

/// Card `j` is the nearest card that may anchor card `i`.
pub open spec fn is_anchor(cards: Seq<Card>, i: int, j: int) -> bool {
    &&& qualifies(cards, i, j)
    &&& forall|k: int| qualifies(cards, i, k) && k != j ==> #[trigger] nearer(cards, i, j, k)
}

/// The card that card `i` stacks against this frame, if any.
pub open spec fn anchor_of(cards: Seq<Card>, i: int) -> Option<int> {
    if exists|j: int| is_anchor(cards, i, j) {
        Some(choose|j: int| is_anchor(cards, i, j))
    } else {
        None
    }
}

/// The move along one axis that closes half of the gap `e`, rounded away from
/// zero so that the gap shrinks to exactly nothing and never changes sign.
pub open spec fn half_gap(e: int) -> int {
    if e >= 0 {
        (e + 1) / 2
    } else {
        -((-e + 1) / 2)
    }
}

/// Which side of its anchor a card stacks on: the side it already is on, or
/// the side `tie_below` picks when both are level.
pub open spec fn stack_sign(offset_y: int, tie_below: bool) -> int {
    if offset_y > 0 {
        1
    } else if offset_y < 0 {
        -1
    } else if tie_below {
        1
    } else {
        -1
    }
}

/// Where a card at `c` anchored to a card at `n` goes in one frame: halfway
/// towards straight above or below `n`, one title strip away.
pub open spec fn relaxed_pos(c: Vec2, n: Vec2, tie_below: bool) -> Vec2 {
    let ox = c.x - n.x;
    let oy = c.y - n.y;
    let ty = APPROX_CARD_TITLE_HEIGHT * stack_sign(oy, tie_below);
    Vec2 {
        x: clamp_world(c.x + half_gap(0 - ox)) as i64,
        y: clamp_world(c.y + half_gap(ty - oy)) as i64,
    }
}

/// Card `i` after one layout frame over the pool `cards`.
pub open spec fn laid_out(cards: Seq<Card>, i: int, tie_below: bool) -> Card {
    let c = cards[i];
    if c.grabbing {
        c
    } else {
        match anchor_of(cards, i) {
            Some(j) => Card { pos: relaxed_pos(c.pos, cards[j].pos, tie_below), ..c },
            None => c,
        }
    }
}

/// A list of the nearest other cards, of full length or holding every other
/// card, holds exactly the cards that are among the two nearest.
proof fn lemma_nearest_two(cards: Seq<Card>, i: int, s: Seq<usize>)
    requires
        cards.len() <= usize::MAX,
        is_nearest_list(cards, i, s),
        s.len() <= 2,
        s.len() < 2 ==> forall|o: int| is_other(cards, i, o) ==> s.contains(o as usize),
    ensures
        forall|j: int| is_other(cards, i, j) ==> (#[trigger] among_nearest(cards, i, j) <==> s.contains(j as usize)),
{
    assert forall|j: int| is_other(cards, i, j) implies (#[trigger] among_nearest(cards, i, j) <==> s.contains(j as usize)) by {
        if s.contains(j as usize) {
            let p = choose|p: int| 0 <= p < s.len() && s[p] == j as usize;
            // every card nearer than `j` stands before it in `s`
            assert forall|x: int| is_other(cards, i, x) && nearer(cards, i, x, j) implies exists|q: int|
                0 <= q < p && #[trigger] s[q] == x as usize by {
                if !s.contains(x as usize) {
                    assert(nearer(cards, i, s[p] as int, x));
                } else {
                    let q = choose|q: int| 0 <= q < s.len() && s[q] == x as usize;
                    if q > p {
                        assert(nearer(cards, i, s[p] as int, s[q] as int));
                    }
                    assert(q != p);
                    assert(s[q] == x as usize);
                }
            }
            if exists|a: int, b: int|
                #![trigger nearer(cards, i, a, j), nearer(cards, i, b, j)]
                is_other(cards, i, a) && is_other(cards, i, b) && a != b && nearer(cards, i, a, j)
                    && nearer(cards, i, b, j) {
                let (a, b) = choose|a: int, b: int|
                    #![trigger nearer(cards, i, a, j), nearer(cards, i, b, j)]
                    is_other(cards, i, a) && is_other(cards, i, b) && a != b && nearer(cards, i, a, j)
                        && nearer(cards, i, b, j);
                let qa = choose|q: int| 0 <= q < p && #[trigger] s[q] == a as usize;
                let qb = choose|q: int| 0 <= q < p && #[trigger] s[q] == b as usize;
                assert(false);
            }
        } else {
            assert(s.len() == 2);
            assert(nearer(cards, i, s[0] as int, j));
            assert(nearer(cards, i, s[1] as int, j));
            assert(nearer(cards, i, s[0] as int, s[1] as int));
            assert(is_other(cards, i, s[0] as int));
            assert(is_other(cards, i, s[1] as int));
        }
    }
}

/// The card that card `i` stacks against this frame: the nearest of its two
/// nearest neighbours that is closer than the fuse distance and not below it.
pub fn find_anchor(cards: &Vec<Card>, i: usize) -> (r: Option<usize>)
    requires
        i < cards@.len(),
        all_wf(cards@),
    ensures
        match r {
            Some(j) => is_anchor(cards@, i as int, j as int),
            None => forall|j: int| !qualifies(cards@, i as int, j),
        },
        r == (match anchor_of(cards@, i as int) {
            Some(j) => Some(j as usize),
            None => None::<usize>,
        }),
{
    let near = k_nearest(cards, i, NEIGHBOR_COUNT - 1);
    let n = cards.len();
    proof {
        lemma_nearest_two(cards@, i as int, near@);
    }
    let here = cards[i].pos;
    assert(cards@[i as int].wf());
    let mut p: usize = 0;
    while p < near.len()
        invariant
            p <= near@.len(),
            i < cards@.len(),
            n == cards@.len(),
            all_wf(cards@),
            here == cards@[i as int].pos,
            is_nearest_list(cards@, i as int, near@),
            forall|j: int| is_other(cards@, i as int, j) ==> (#[trigger] among_nearest(cards@, i as int, j) <==> near@.contains(j as usize)),
            forall|q: int|
                0 <= q < p ==> !(sq_dist(cards@[#[trigger] near@[q] as int].pos, here) < SQ_FUSE_DISTANCE
                    && cards@[near@[q] as int].pos.y <= here.y),
        decreases near@.len() - p,
    {
        let j = near[p];
        assert(is_other(cards@, i as int, j as int));
        assert(cards@[j as int].wf());
        let d = squared_distance(&cards[j].pos, &here);
        if d < SQ_FUSE_DISTANCE && cards[j].pos.y <= here.y {
            assert(near@.contains(j));
            assert forall|k: int| qualifies(cards@, i as int, k) && k != j implies #[trigger] nearer(
                cards@,
                i as int,
                j as int,
                k,
            ) by {
                assert(near@.contains(k as usize));
                let q = choose|q: int| 0 <= q < near@.len() && near@[q] == k as usize;
                if q < p {
                    assert(near@[q] == k as usize);
                }
                assert(q != p);
                assert(q > p);
            }
            proof {
                lemma_anchor_unique(cards@, i as int, j as int);
            }
            return Some(j);
        }
        p = p + 1;
    }
    assert forall|j: int| !qualifies(cards@, i as int, j) by {
        if qualifies(cards@, i as int, j) {
            let q = choose|q: int| 0 <= q < near@.len() && near@[q] == j as usize;
            assert(near@[q] == j as usize);
        }
    }
    None
}

fn half_gap_of(e: i64) -> (r: i64)
    requires
        -4_000_000_000 <= e <= 4_000_000_000,
    ensures
        r == half_gap(e as int),
        -2_000_000_000 <= r <= 2_000_000_000,
{
    if e >= 0 {
        (e + 1) / 2
    } else {
        -((-e + 1) / 2)
    }
}

/// Where a card at `c` anchored to a card at `n` goes in one frame.
pub fn relax_towards(c: &Vec2, n: &Vec2, tie_below: bool) -> (r: Vec2)
    requires
        c.in_world(),
        n.in_world(),
    ensures
        r == relaxed_pos(*c, *n, tie_below),
        r.in_world(),
{
    let ox: i64 = c.x - n.x;
    let oy: i64 = c.y - n.y;
    let sign: i64 = if oy > 0 {
        1
    } else if oy < 0 {
        -1
    } else if tie_below {
        1
    } else {
        -1
    };
    let ty: i64 = APPROX_CARD_TITLE_HEIGHT * sign;
    let mx = half_gap_of(0 - ox);
    let my = half_gap_of(ty - oy);
    Vec2 { x: clamp_to_world(c.x as i128 + mx as i128), y: clamp_to_world(c.y as i128 + my as i128) }
}

/// One frame of the stacking rule over the whole pool. Every card that is not
/// grabbed and has an anchor moves halfway towards sitting one title strip
/// from it; all neighbours are taken from the positions before the frame.
/// `tie_below[i]` picks the side for card `i` when it is level with its anchor.
pub fn layout(cards: &mut Vec<Card>, tie_below: &Vec<bool>)
    requires
        all_wf(old(cards)@),
        tie_below@.len() == old(cards)@.len(),
    ensures
        final(cards)@.len() == old(cards)@.len(),
        all_wf(final(cards)@),
        forall|i: int|
            0 <= i < old(cards)@.len() ==> #[trigger] final(cards)@[i] == laid_out(
                old(cards)@,
                i,
                tie_below@[i],
            ),
        forall|i: int|
            0 <= i < old(cards)@.len() && old(cards)@[i].grabbing ==> #[trigger] final(cards)@[i]
                == old(cards)@[i],
{
    let n = cards.len();
    let mut moved: Vec<Vec2> = Vec::new();
    let mut i: usize = 0;
    while i < n
        invariant
            n == cards@.len(),
            cards@ == old(cards)@,
            tie_below@.len() == n,
            all_wf(cards@),
            i <= n,
            moved@.len() == i,
            forall|k: int|
                0 <= k < i ==> #[trigger] moved@[k] == laid_out(cards@, k, tie_below@[k]).pos,
            forall|k: int| 0 <= k < i ==> (#[trigger] moved@[k]).in_world(),
        decreases n - i,
    {
        let c = cards[i];
        assert(cards@[i as int].wf());
        let mut p = c.pos;
        if !c.grabbing {
            match find_anchor(cards, i) {
                Some(j) => {
                    assert(cards@[j as int].wf());
                    p = relax_towards(&c.pos, &cards[j].pos, tie_below[i]);
                },
                None => {},
            }
        }
        moved.push(p);
        i = i + 1;
    }
    let ghost before = cards@;
    let mut i: usize = 0;
    while i < n
        invariant
            n == cards@.len(),
            before == old(cards)@,
            n == before.len(),
            tie_below@.len() == n,
            all_wf(before),
            i <= n,
            moved@.len() == n,
            forall|k: int|
                0 <= k < n ==> #[trigger] moved@[k] == laid_out(before, k, tie_below@[k]).pos,
            forall|k: int| 0 <= k < n ==> (#[trigger] moved@[k]).in_world(),
            forall|k: int| 0 <= k < i ==> #[trigger] cards@[k] == laid_out(before, k, tie_below@[k]),
            forall|k: int| i <= k < n ==> #[trigger] cards@[k] == before[k],
        decreases n - i,
    {
        let mut c = cards[i];
        c.pos = moved[i];
        cards[i] = c;
        i = i + 1;
    }
    assert forall|k: int| 0 <= k < n implies (#[trigger] cards@[k]).wf() by {
        assert(before[k].wf());
        assert(moved@[k].in_world());
    }
}

/// Two cards in one column, the lower one closer to the upper one than the
/// fuse distance, the upper one clear of the world's top edge by a title
/// strip: one frame leaves the upper card in place and moves the lower one so
/// that the gap between them halves its distance to one title strip, rounded
/// towards it, and never passes it. Repeated frames thus close the gap to
/// exactly one title strip, monotonically.
pub proof fn lemma_pair_converges(cards: Seq<Card>, tie0: bool, tie1: bool)
    requires
        cards.len() == 2,
        all_wf(cards),
        !cards[0].grabbing,
        !cards[1].grabbing,
        cards[0].pos.x == cards[1].pos.x,
        0 < cards[1].pos.y - cards[0].pos.y < FUSE_DISTANCE,
        cards[0].pos.y + APPROX_CARD_TITLE_HEIGHT <= WORLD_LIMIT,
    ensures
        laid_out(cards, 0, tie0) == cards[0],
        laid_out(cards, 1, tie1).pos.x == cards[1].pos.x,
        ({
            let gap = cards[1].pos.y - cards[0].pos.y;
            let next = laid_out(cards, 1, tie1).pos.y - cards[0].pos.y;
            &&& gap >= APPROX_CARD_TITLE_HEIGHT ==> APPROX_CARD_TITLE_HEIGHT <= next <= gap && next
                - APPROX_CARD_TITLE_HEIGHT == (gap - APPROX_CARD_TITLE_HEIGHT) / 2
            &&& gap < APPROX_CARD_TITLE_HEIGHT ==> gap < next <= APPROX_CARD_TITLE_HEIGHT
                && APPROX_CARD_TITLE_HEIGHT - next == (APPROX_CARD_TITLE_HEIGHT - gap) / 2
        }),
{
    let d = cards[1].pos.y - cards[0].pos.y;
    assert(d * d < SQ_FUSE_DISTANCE) by (nonlinear_arith)
        requires
            0 < d < 100,
    ;
    let (x0, y0, x1, y1) = (
        cards[0].pos.x as int,
        cards[0].pos.y as int,
        cards[1].pos.x as int,
        cards[1].pos.y as int,
    );
    assert((x0 - x1) * (x0 - x1) + (y0 - y1) * (y0 - y1) == d * d) by (nonlinear_arith)
        requires
            x0 == x1,
            d == y1 - y0,
    ;
    assert(among_nearest(cards, 1, 0));
    assert(qualifies(cards, 1, 0));
    assert(is_anchor(cards, 1, 0));
    lemma_anchor_unique(cards, 1, 0);
    assert forall|j: int| !is_anchor(cards, 0, j) by {
        if is_anchor(cards, 0, j) {
            assert(j == 1);
        }
    }
}

/// A card whose one neighbour, not below it, lies at the fuse distance or
/// farther is left in place; one closer than that anchors it.
pub proof fn lemma_fuse_threshold(cards: Seq<Card>, tie: bool)
    requires
        cards.len() == 2,
        all_wf(cards),
        cards[0].pos.y <= cards[1].pos.y,
    ensures
        sq_dist(cards[0].pos, cards[1].pos) >= SQ_FUSE_DISTANCE ==> laid_out(cards, 1, tie)
            == cards[1],
        sq_dist(cards[0].pos, cards[1].pos) < SQ_FUSE_DISTANCE ==> anchor_of(cards, 1) == Some(
            0int,
        ),
{
    assert(among_nearest(cards, 1, 0));
    if sq_dist(cards[0].pos, cards[1].pos) < SQ_FUSE_DISTANCE {
        assert(is_anchor(cards, 1, 0));
        lemma_anchor_unique(cards, 1, 0);
    } else {
        assert forall|j: int| !is_anchor(cards, 1, j) by {
            if is_anchor(cards, 1, j) {
                assert(j == 0);
            }
        }
    }
}

proof fn lemma_anchor_unique(cards: Seq<Card>, i: int, j: int)
    requires
        is_anchor(cards, i, j),
    ensures
        anchor_of(cards, i) == Some(j),
{
    let k = choose|k: int| is_anchor(cards, i, k);
    if k != j {
        assert(nearer(cards, i, j, k));
        assert(nearer(cards, i, k, j));
    }
}

} // verus!
