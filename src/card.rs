use vstd::prelude::*;

use crate::geom::{Vec2, is_within, within};

verus! {

/// One card on the table: a display name, a handle into the image provider's
/// table, its centre `pos`, its size `dim`, and whether the pointer drags it.
#[derive(Clone, Copy, Debug)]
pub struct Card {
    pub name: &'static str,
    pub image: u32,
    pub pos: Vec2,
    pub dim: Vec2,
    pub grabbing: bool,
}

impl Card {
    /// A positive size and a centre inside the world.
    pub open spec fn wf(self) -> bool {
        self.dim.x > 0 && self.dim.y > 0 && self.pos.in_world()
    }

    /// The card's rectangle holds `p`, lower edges included, upper edges excluded.
    pub open spec fn contains(self, p: Vec2) -> bool {
        within(p.x as int, self.pos.x as int, self.dim.x as int) && within(
            p.y as int,
            self.pos.y as int,
            self.dim.y as int,
        )
    }

    pub fn is_inside(&self, point: &Vec2) -> (r: bool)
        ensures
            r == self.contains(*point),
    {
        is_within(point.x, self.pos.x, self.dim.x) && is_within(point.y, self.pos.y, self.dim.y)
    }
}

/// Every card of the pool is well formed.
pub open spec fn all_wf(cards: Seq<Card>) -> bool {
    forall|i: int| 0 <= i < cards.len() ==> (#[trigger] cards[i]).wf()
}

} // verus!
