use card_viewer::card::Card;
use card_viewer::geom::Vec2;
use card_viewer::layout::{find_anchor, layout, relax_towards};
use card_viewer::neighbors::{k_nearest, squared_distance};

fn card_at(x: i64, y: i64) -> Card {
    Card { name: "test", image: 0, pos: Vec2 { x, y }, dim: Vec2 { x: 240, y: 340 }, grabbing: false }
}

#[test]
fn pair_converges_to_title_strip_from_above() {
    let mut cards = vec![card_at(0, 0), card_at(0, 50)];
    let ties = vec![true, true];
    let mut gaps = vec![50];
    for _ in 0..10 {
        layout(&mut cards, &ties);
        assert_eq!(cards[0].pos, Vec2 { x: 0, y: 0 });
        assert_eq!(cards[1].pos.x, 0);
        gaps.push(cards[1].pos.y - cards[0].pos.y);
    }
    assert_eq!(&gaps[..6], &[50, 43, 39, 37, 36, 36]);
    for w in gaps.windows(2) {
        assert!(w[1] <= w[0]);
        assert!(w[1] >= 36);
    }
}

#[test]
fn pair_converges_to_title_strip_from_below() {
    let mut cards = vec![card_at(0, 0), card_at(0, 10)];
    let ties = vec![false, false];
    let mut gaps = vec![10];
    for _ in 0..8 {
        layout(&mut cards, &ties);
        gaps.push(cards[1].pos.y - cards[0].pos.y);
    }
    assert_eq!(&gaps[..6], &[10, 23, 30, 33, 35, 36]);
    assert_eq!(*gaps.last().unwrap(), 36);
}

#[test]
fn grabbed_card_is_not_moved() {
    let mut cards = vec![card_at(0, 0), card_at(0, 50)];
    cards[1].grabbing = true;
    layout(&mut cards, &vec![true, true]);
    assert_eq!(cards[1].pos, Vec2 { x: 0, y: 50 });
    assert!(cards[1].grabbing);
    assert_eq!(cards[0].pos, Vec2 { x: 0, y: 0 });
}

#[test]
fn neighbour_at_fuse_distance_is_ignored() {
    let mut cards = vec![card_at(0, 0), card_at(0, 100)];
    layout(&mut cards, &vec![true, true]);
    assert_eq!(cards[1].pos, Vec2 { x: 0, y: 100 });
    assert_eq!(find_anchor(&cards, 1), None);
}

#[test]
fn neighbour_one_unit_closer_anchors() {
    let mut cards = vec![card_at(0, 0), card_at(0, 99)];
    assert_eq!(find_anchor(&cards, 1), Some(0));
    layout(&mut cards, &vec![true, true]);
    // gap 99 towards 36: moves up by ceil(63 / 2)
    assert_eq!(cards[1].pos, Vec2 { x: 0, y: 67 });
}

#[test]
fn level_cards_split_by_tie_choice() {
    let mut cards = vec![card_at(0, 0), card_at(0, 0)];
    layout(&mut cards, &vec![true, false]);
    assert_eq!(cards[0].pos, Vec2 { x: 0, y: 18 });
    assert_eq!(cards[1].pos, Vec2 { x: 0, y: -18 });
}

#[test]
fn only_two_nearest_are_considered() {
    // The query takes three cards, the card itself first; its two nearest
    // others are both below it, so the third-nearest card above it, though
    // within the fuse distance, is never reached.
    let mut cards = vec![card_at(0, 50), card_at(0, 60), card_at(0, 70), card_at(0, 20)];
    assert_eq!(find_anchor(&cards, 0), None);
    layout(&mut cards, &vec![true; 4]);
    assert_eq!(cards[0].pos, Vec2 { x: 0, y: 50 });
}

#[test]
fn second_nearest_can_anchor() {
    // The nearest other card is below; the second nearest, above, anchors.
    let cards = vec![card_at(0, 50), card_at(0, 60), card_at(0, 20)];
    assert_eq!(find_anchor(&cards, 0), Some(2));
}

#[test]
fn horizontal_offset_is_halved() {
    let mut cards = vec![card_at(0, 0), card_at(20, 50)];
    layout(&mut cards, &vec![true, true]);
    assert_eq!(cards[1].pos, Vec2 { x: 10, y: 43 });
}

#[test]
fn relax_towards_exact_values() {
    let n = Vec2 { x: 0, y: 0 };
    assert_eq!(relax_towards(&Vec2 { x: 0, y: 50 }, &n, true), Vec2 { x: 0, y: 43 });
    assert_eq!(relax_towards(&Vec2 { x: -7, y: -50 }, &n, true), Vec2 { x: -3, y: -43 });
    assert_eq!(relax_towards(&Vec2 { x: 0, y: 0 }, &n, false), Vec2 { x: 0, y: -18 });
    assert_eq!(relax_towards(&Vec2 { x: 0, y: 37 }, &n, false), Vec2 { x: 0, y: 36 });
}

#[test]
fn k_nearest_orders_by_distance_then_index() {
    let cards = vec![card_at(0, 0), card_at(30, 0), card_at(0, 10), card_at(-10, 0), card_at(5, 5)];
    assert_eq!(k_nearest(&cards, 0, 3), vec![4, 2, 3]);
    assert_eq!(k_nearest(&cards, 0, 10), vec![4, 2, 3, 1]);
    assert_eq!(k_nearest(&cards, 0, 0), Vec::<usize>::new());
    assert_eq!(k_nearest(&vec![card_at(1, 1)], 0, 3), Vec::<usize>::new());
}

#[test]
fn squared_distance_exact() {
    assert_eq!(squared_distance(&Vec2 { x: 3, y: 4 }, &Vec2 { x: 0, y: 0 }), 25);
    assert_eq!(squared_distance(&Vec2 { x: -1, y: -1 }, &Vec2 { x: 2, y: 3 }), 25);
}

#[test]
fn single_card_is_left_alone() {
    let mut cards = vec![card_at(5, 5)];
    layout(&mut cards, &vec![true]);
    assert_eq!(cards[0].pos, Vec2 { x: 5, y: 5 });
    let mut empty: Vec<Card> = Vec::new();
    layout(&mut empty, &Vec::new());
    assert!(empty.is_empty());
}
