//! The session: the card pool and the pointer, driven by pointer events and
//! by one `animate` call per frame.
use vstd::prelude::*;

use crate::card::{Card, all_wf};
use crate::geom::{Vec2, clamp_to_world, clamp_world};
use crate::interact::{
    at_most_one_grabbed, column_shifted, lemma_sort_keeps_one_grabbed, dragged, drag_grabbed, grab_card, grabbed_at, release_all, released,
    scroll_group,
};
use crate::layout::{FUSE_DISTANCE, laid_out, layout};
use crate::order::{is_stable_sort, sort_cards};

verus! {

/// How many cards a fresh session holds.
pub const POOL_SIZE: usize = 200;

/// The name every card of a fresh session carries.
pub const PLACEHOLDER_NAME: &'static str = "Omniscience";

/// The pointer button that grabs and releases cards.
pub const PRIMARY_BUTTON: i16 = 0;

/// A pointer event, its coordinates already whole surface units.
#[derive(Clone, Copy, Debug)]
pub enum PointerEvent {
    /// The pointer moved to `client`; the drawing surface's origin is at `origin`.
    Move { client_x: i64, client_y: i64, origin_x: i64, origin_y: i64 },
    Down { button: i16 },
    Up { button: i16 },
    /// A wheel step; each unit of `detail` scrolls by the fuse distance.
    Scroll { detail: i32 },
    /// Any other event, which changes nothing.
    Other,
}

/// Pointer position on the surface for a pointer at `client` over a surface
/// whose origin is at `origin`.
pub open spec fn surface_point(client_x: int, client_y: int, origin_x: int, origin_y: int) -> Vec2 {
    Vec2 { x: clamp_world(client_x - origin_x) as i64, y: clamp_world(client_y - origin_y) as i64 }
}

/// The pool after one layout frame.
pub open spec fn laid_out_all(cards: Seq<Card>, tie_below: Seq<bool>) -> Seq<Card> {
    Seq::new(cards.len(), |i: int| laid_out(cards, i, tie_below[i]))
}

pub struct State {
    pub cards: Vec<Card>,
    pub mouse_pos: Vec2,
    pub prev_mouse_pos: Vec2,
}

impl State {
    /// Every card well formed, at most one card grabbed (the session is idle
    /// or drags exactly one card), and both pointer positions inside the world.
    pub open spec fn wf(&self) -> bool {
        &&& all_wf(self.cards@)
        &&& at_most_one_grabbed(self.cards@)
        &&& self.mouse_pos.in_world()
        &&& self.prev_mouse_pos.in_world()
    }

    /// A fresh session: a pool of placeholder cards, all stacked at one spot
    /// and showing the image `image`, none grabbed, the pointer at the origin.
    pub fn init(image: u32) -> (r: State)
        ensures
            r.wf(),
            r.cards@.len() == POOL_SIZE,
            forall|i: int|
                0 <= i < POOL_SIZE ==> #[trigger] r.cards@[i] == (Card {
                    name: PLACEHOLDER_NAME,
                    image,
                    pos: Vec2 { x: 200, y: 400 },
                    dim: Vec2 { x: 240, y: 340 },
                    grabbing: false,
                }),
            r.mouse_pos == (Vec2 { x: 0, y: 0 }),
            r.prev_mouse_pos == (Vec2 { x: 0, y: 0 }),
    {
        let card = Card {
            name: PLACEHOLDER_NAME,
            image,
            pos: Vec2 { x: 200, y: 400 },
            dim: Vec2 { x: 240, y: 340 },
            grabbing: false,
        };
        let mut cards: Vec<Card> = Vec::new();
        while cards.len() < POOL_SIZE
            invariant
                cards@.len() <= POOL_SIZE,
                forall|i: int| 0 <= i < cards@.len() ==> #[trigger] cards@[i] == card,
            decreases POOL_SIZE - cards@.len(),
        {
            cards.push(card);
        }
        State { cards, mouse_pos: Vec2 { x: 0, y: 0 }, prev_mouse_pos: Vec2 { x: 0, y: 0 } }
    }

    /// Applies one pointer event. A move updates the pointer alone; a primary
    /// press with no card grabbed grabs the first card under the pointer; a primary release lets go
    /// of every card; a wheel step scrolls the column under the pointer.
    pub fn on_document_event(&mut self, event: PointerEvent)
        requires
            old(self).wf(),
        ensures
            final(self).wf(),
            final(self).prev_mouse_pos == old(self).prev_mouse_pos,
            match event {
                PointerEvent::Move { client_x, client_y, origin_x, origin_y } => {
                    &&& final(self).mouse_pos == surface_point(
                        client_x as int,
                        client_y as int,
                        origin_x as int,
                        origin_y as int,
                    )
                    &&& final(self).cards@ == old(self).cards@
                },
                PointerEvent::Down { button } => {
                    &&& final(self).mouse_pos == old(self).mouse_pos
                    &&& final(self).cards@ == if button == PRIMARY_BUTTON {
                        grabbed_at(old(self).cards@, old(self).mouse_pos)
                    } else {
                        old(self).cards@
                    }
                },
                PointerEvent::Up { button } => {
                    &&& final(self).mouse_pos == old(self).mouse_pos
                    &&& final(self).cards@ == if button == PRIMARY_BUTTON {
                        released(old(self).cards@)
                    } else {
                        old(self).cards@
                    }
                },
                PointerEvent::Scroll { detail } => {
                    &&& final(self).mouse_pos == old(self).mouse_pos
                    &&& exists|s: Seq<Card>|
                        #![trigger column_shifted(s, old(self).mouse_pos, detail * FUSE_DISTANCE)]
                        is_stable_sort(s, old(self).cards@, false) && final(self).cards@
                            == column_shifted(s, old(self).mouse_pos, detail * FUSE_DISTANCE)
                },
                PointerEvent::Other => {
                    &&& final(self).mouse_pos == old(self).mouse_pos
                    &&& final(self).cards@ == old(self).cards@
                },
            },
    {
        match event {
            PointerEvent::Move { client_x, client_y, origin_x, origin_y } => {
                self.mouse_pos = Vec2 {
                    x: clamp_to_world(client_x as i128 - origin_x as i128),
                    y: clamp_to_world(client_y as i128 - origin_y as i128),
                };
            },
            PointerEvent::Down { button } => {
                if button == PRIMARY_BUTTON {
                    grab_card(&mut self.cards, &self.mouse_pos);
                }
            },
            PointerEvent::Up { button } => {
                if button == PRIMARY_BUTTON {
                    release_all(&mut self.cards);
                }
            },
            PointerEvent::Scroll { detail } => {
                let dy: i64 = detail as i64 * FUSE_DISTANCE;
                scroll_group(&mut self.cards, &self.mouse_pos, dy);
            },
            PointerEvent::Other => {},
        }
    }

    /// One frame: the layout rule runs, then the grabbed card follows the
    /// pointer's move since the last frame, then the pool is sorted into draw
    /// order (grabbed first, then by descending y). Drawing goes through the
    /// pool from its end, so the grabbed card lands on top.
    pub fn animate(&mut self, tie_below: &Vec<bool>)
        requires
            old(self).wf(),
            tie_below@.len() == old(self).cards@.len(),
        ensures
            final(self).wf(),
            final(self).mouse_pos == old(self).mouse_pos,
            final(self).prev_mouse_pos == old(self).mouse_pos,
            ({
                let delta = Vec2 {
                    x: (old(self).mouse_pos.x - old(self).prev_mouse_pos.x) as i64,
                    y: (old(self).mouse_pos.y - old(self).prev_mouse_pos.y) as i64,
                };
                let moved = dragged(laid_out_all(old(self).cards@, tie_below@), delta);
                is_stable_sort(final(self).cards@, moved, true)
            }),
    {
        layout(&mut self.cards, tie_below);
        let ghost laid = self.cards@;
        assert(laid =~= laid_out_all(old(self).cards@, tie_below@));
        let delta = Vec2 {
            x: self.mouse_pos.x - self.prev_mouse_pos.x,
            y: self.mouse_pos.y - self.prev_mouse_pos.y,
        };
        drag_grabbed(&mut self.cards, &delta);
        self.prev_mouse_pos = self.mouse_pos;
        let ghost moved = self.cards@;
        sort_cards(&mut self.cards, true);
        proof {
            lemma_sort_keeps_one_grabbed(self.cards@, moved, true);
        }
    }
}

} // verus!
