use card_viewer::card::Card;
use card_viewer::geom::Vec2;
use card_viewer::interact::{drag_grabbed, first_containing, grab_card, release_all, scroll_group, shift_column};
use card_viewer::order::sort_cards;
use card_viewer::session::{PointerEvent, State, PLACEHOLDER_NAME, POOL_SIZE};

fn card(image: u32, x: i64, y: i64) -> Card {
    Card { name: "test", image, pos: Vec2 { x, y }, dim: Vec2 { x: 240, y: 340 }, grabbing: false }
}

#[test]
fn draw_order_puts_grabbed_card_on_top() {
    let mut a = card(0, 0, 10);
    a.grabbing = true;
    let b = card(1, 0, 50);
    let c = card(2, 0, 5);
    let mut cards = vec![c, b, a];
    sort_cards(&mut cards, true);
    let painted: Vec<u32> = cards.iter().rev().map(|c| c.image).collect();
    assert_eq!(painted, vec![2, 1, 0]);
}

#[test]
fn sort_by_descending_y() {
    let mut cards = vec![card(0, 0, 1), card(1, 0, 9), card(2, 0, 5), card(3, 0, 9)];
    cards[0].grabbing = true;
    sort_cards(&mut cards, false);
    let ys: Vec<i64> = cards.iter().map(|c| c.pos.y).collect();
    assert_eq!(ys, vec![9, 9, 5, 1]);
}

#[test]
fn scroll_moves_only_the_column() {
    let mut cards = vec![card(0, 0, 0), card(1, 50, 400), card(2, 500, 0)];
    scroll_group(&mut cards, &Vec2 { x: 0, y: 0 }, 20);
    let by_image = |i: u32| cards.iter().find(|c| c.image == i).unwrap().pos;
    assert_eq!(by_image(0), Vec2 { x: 0, y: 20 });
    assert_eq!(by_image(1), Vec2 { x: 50, y: 420 });
    assert_eq!(by_image(2), Vec2 { x: 500, y: 0 });
}

#[test]
fn scroll_without_card_under_pointer_is_noop() {
    let mut cards = vec![card(0, 0, 0), card(1, 50, 400)];
    scroll_group(&mut cards, &Vec2 { x: 5000, y: 5000 }, 20);
    let ys: Vec<i64> = cards.iter().map(|c| c.pos.y).collect();
    assert_eq!(ys, vec![400, 0]);
}

#[test]
fn column_edge_is_excluded() {
    let mut cards = vec![card(0, 0, 0), card(1, 100, 0), card(2, -99, 0)];
    shift_column(&mut cards, &Vec2 { x: 0, y: 0 }, -5);
    assert_eq!(cards[0].pos.y, -5);
    assert_eq!(cards[1].pos.y, 0);
    assert_eq!(cards[2].pos.y, -5);
}

#[test]
fn grab_takes_first_card_under_pointer() {
    let mut cards = vec![card(0, 1000, 1000), card(1, 0, 0), card(2, 10, 10)];
    assert_eq!(first_containing(&cards, &Vec2 { x: 5, y: 5 }), Some(1));
    grab_card(&mut cards, &Vec2 { x: 5, y: 5 });
    assert!(!cards[0].grabbing);
    assert!(cards[1].grabbing);
    assert!(!cards[2].grabbing);
    release_all(&mut cards);
    assert!(cards.iter().all(|c| !c.grabbing));
}

#[test]
fn grab_outside_every_card_changes_nothing() {
    let mut cards = vec![card(0, 0, 0)];
    grab_card(&mut cards, &Vec2 { x: 500, y: 0 });
    assert!(!cards[0].grabbing);
}

#[test]
fn drag_moves_first_grabbed_card() {
    let mut cards = vec![card(0, 0, 0), card(1, 5, 5), card(2, 9, 9)];
    cards[1].grabbing = true;
    cards[2].grabbing = true;
    drag_grabbed(&mut cards, &Vec2 { x: 3, y: -4 });
    assert_eq!(cards[1].pos, Vec2 { x: 8, y: 1 });
    assert_eq!(cards[2].pos, Vec2 { x: 9, y: 9 });
    assert_eq!(cards[0].pos, Vec2 { x: 0, y: 0 });
}

#[test]
fn grab_then_release_through_events() {
    let mut state = State { cards: vec![card(0, 0, 0), card(1, 1000, 0)], mouse_pos: Vec2 { x: 0, y: 0 }, prev_mouse_pos: Vec2 { x: 0, y: 0 } };
    state.on_document_event(PointerEvent::Move { client_x: 1010, client_y: 20, origin_x: 10, origin_y: 20 });
    assert_eq!(state.mouse_pos, Vec2 { x: 1000, y: 0 });
    state.on_document_event(PointerEvent::Down { button: 0 });
    assert!(state.cards[1].grabbing);
    assert!(!state.cards[0].grabbing);
    state.on_document_event(PointerEvent::Move { client_x: 90_000, client_y: 90_000, origin_x: 0, origin_y: 0 });
    state.on_document_event(PointerEvent::Up { button: 0 });
    assert!(state.cards.iter().all(|c| !c.grabbing));
}

#[test]
fn other_buttons_do_not_grab() {
    let mut state = State { cards: vec![card(0, 0, 0)], mouse_pos: Vec2 { x: 0, y: 0 }, prev_mouse_pos: Vec2 { x: 0, y: 0 } };
    state.on_document_event(PointerEvent::Down { button: 2 });
    assert!(!state.cards[0].grabbing);
    state.on_document_event(PointerEvent::Down { button: 0 });
    state.on_document_event(PointerEvent::Up { button: 1 });
    assert!(state.cards[0].grabbing);
    state.on_document_event(PointerEvent::Other);
    assert!(state.cards[0].grabbing);
}

#[test]
fn scroll_event_scales_by_fuse_distance() {
    let mut state = State { cards: vec![card(0, 0, 0), card(1, 600, 0)], mouse_pos: Vec2 { x: 0, y: 0 }, prev_mouse_pos: Vec2 { x: 0, y: 0 } };
    state.on_document_event(PointerEvent::Scroll { detail: -3 });
    let moved = state.cards.iter().find(|c| c.image == 0).unwrap();
    assert_eq!(moved.pos.y, -300);
    let still = state.cards.iter().find(|c| c.image == 1).unwrap();
    assert_eq!(still.pos.y, 0);
}

#[test]
fn animate_drags_and_orders() {
    let mut state = State { cards: vec![card(0, 0, 0), card(1, 1000, 500)], mouse_pos: Vec2 { x: 0, y: 0 }, prev_mouse_pos: Vec2 { x: 0, y: 0 } };
    state.on_document_event(PointerEvent::Down { button: 0 });
    state.on_document_event(PointerEvent::Move { client_x: 7, client_y: 9, origin_x: 0, origin_y: 0 });
    state.animate(&vec![true, true]);
    assert_eq!(state.prev_mouse_pos, Vec2 { x: 7, y: 9 });
    assert!(state.cards[0].grabbing);
    assert_eq!(state.cards[0].pos, Vec2 { x: 7, y: 9 });
    assert_eq!(state.cards[1].pos, Vec2 { x: 1000, y: 500 });
    state.animate(&vec![true, true]);
    assert_eq!(state.cards[0].pos, Vec2 { x: 7, y: 9 });
}

#[test]
fn init_builds_placeholder_pool() {
    let state = State::init(4);
    assert_eq!(state.cards.len(), POOL_SIZE);
    assert_eq!(POOL_SIZE, 200);
    for c in &state.cards {
        assert_eq!(c.name, PLACEHOLDER_NAME);
        assert_eq!(c.image, 4);
        assert_eq!(c.pos, Vec2 { x: 200, y: 400 });
        assert_eq!(c.dim, Vec2 { x: 240, y: 340 });
        assert!(!c.grabbing);
    }
    assert_eq!(state.mouse_pos, Vec2 { x: 0, y: 0 });
}

#[test]
fn sort_keeps_order_of_ties() {
    let mut cards = vec![card(0, 0, 3), card(1, 0, 9), card(2, 0, 3), card(3, 0, 9), card(4, 0, 3)];
    cards[2].grabbing = true;
    sort_cards(&mut cards, false);
    let images: Vec<u32> = cards.iter().map(|c| c.image).collect();
    assert_eq!(images, vec![1, 3, 0, 2, 4]);
    sort_cards(&mut cards, true);
    let images: Vec<u32> = cards.iter().map(|c| c.image).collect();
    assert_eq!(images, vec![2, 1, 3, 0, 4]);
}

#[test]
fn sort_empty_and_single() {
    let mut empty: Vec<Card> = Vec::new();
    sort_cards(&mut empty, true);
    assert!(empty.is_empty());
    let mut one = vec![card(7, 1, 1)];
    sort_cards(&mut one, false);
    assert_eq!(one[0].image, 7);
}

#[test]
fn second_press_while_dragging_changes_nothing() {
    let mut state = State { cards: vec![card(0, 0, 0), card(1, 1000, 1000)], mouse_pos: Vec2 { x: 0, y: 0 }, prev_mouse_pos: Vec2 { x: 0, y: 0 } };
    state.on_document_event(PointerEvent::Down { button: 0 });
    assert!(state.cards[0].grabbing);
    state.on_document_event(PointerEvent::Move { client_x: 1000, client_y: 1000, origin_x: 0, origin_y: 0 });
    state.on_document_event(PointerEvent::Down { button: 0 });
    assert!(state.cards[0].grabbing);
    assert!(!state.cards[1].grabbing);
    assert_eq!(state.cards.iter().filter(|c| c.grabbing).count(), 1);
}

#[test]
fn grab_card_leaves_pool_alone_while_one_is_grabbed() {
    let mut cards = vec![card(0, 0, 0), card(1, 1000, 1000)];
    cards[0].grabbing = true;
    grab_card(&mut cards, &Vec2 { x: 1000, y: 1000 });
    assert!(cards[0].grabbing);
    assert!(!cards[1].grabbing);
}
