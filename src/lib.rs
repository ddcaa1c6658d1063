//! Card table: geometry, per-frame stacking layout, draw order and pointer
//! interaction for a pool of rectangular cards on a 2-D surface.
//!
//! Positions are integer surface units inside a bounded square world, so every
//! rule below is stated and proved exactly.

pub mod card;
pub mod geom;
pub mod interact;
pub mod layout;
pub mod neighbors;
pub mod order;
pub mod session;
