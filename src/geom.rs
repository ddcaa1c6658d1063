use vstd::prelude::*;

verus! {

/// Half the side of the square world that card and pointer positions live in.
/// Every move saturates at its edge.
pub const WORLD_LIMIT: i64 = 1_000_000_000;

/// A point or a size on the drawing surface, in whole surface units.
#[derive(Clone, Copy, Debug, PartialEq, Eq, Structural)]
pub struct Vec2 {
    pub x: i64,
    pub y: i64,
}

/// `v` lies inside the world along one axis.
pub open spec fn in_world(v: int) -> bool {
    -WORLD_LIMIT <= v <= WORLD_LIMIT
}

/// `v` moved back onto the nearest coordinate inside the world.
pub open spec fn clamp_world(v: int) -> int {
    if v < -WORLD_LIMIT {
        -WORLD_LIMIT as int
    } else if v > WORLD_LIMIT {
        WORLD_LIMIT as int
    } else {
        v
    }
}

impl Vec2 {
    pub open spec fn in_world(self) -> bool {
        in_world(self.x as int) && in_world(self.y as int)
    }

    pub fn new(x: i64, y: i64) -> (r: Vec2)
        ensures
            r.x == x,
            r.y == y,
    {
        Vec2 { x, y }
    }
}

/// `x` lies in the interval of width `width` centred on `mid`, lower end
/// included and upper end excluded. Doubling keeps odd widths exact.
pub open spec fn within(x: int, mid: int, width: int) -> bool {
    2 * mid - width <= 2 * x && 2 * x < 2 * mid + width
}

/// Whether `x` lies in `[range_mid - width/2, range_mid + width/2)`.
pub fn is_within(x: i64, range_mid: i64, width: i64) -> (r: bool)
    ensures
        r == within(x as int, range_mid as int, width as int),
{
    let twice_x: i128 = 2 * (x as i128);
    let twice_mid: i128 = 2 * (range_mid as i128);
    let w: i128 = width as i128;
    twice_mid - w <= twice_x && twice_x < twice_mid + w
}

/// A coordinate moved onto the nearest one inside the world.
pub fn clamp_to_world(v: i128) -> (r: i64)
    ensures
        r as int == clamp_world(v as int),
        in_world(r as int),
{
    if v < -(WORLD_LIMIT as i128) {
        -WORLD_LIMIT
    } else if v > WORLD_LIMIT as i128 {
        WORLD_LIMIT
    } else {
        v as i64
    }
}

/// For a positive width the interval holds its centre and its lower end, and
/// holds neither its upper end nor any point below its lower end.
pub proof fn lemma_within_bounds(mid: int, width: int)
    requires
        width > 0,
    ensures
        within(mid, mid, width),
        forall|x: int| 2 * x == 2 * mid - width ==> #[trigger] within(x, mid, width),
        forall|x: int| 2 * x < 2 * mid - width ==> !#[trigger] within(x, mid, width),
        forall|x: int| 2 * x >= 2 * mid + width ==> !#[trigger] within(x, mid, width),
{
}

} // verus!
