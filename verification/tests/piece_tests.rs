use tetris_core::Block;
use tetris_core::Cell;
use tetris_core::Point;

fn shape_points(b: &Block) -> Vec<(u32, u32)> {
    b.getShape().iter().map(|p| (p.row(), p.col())).collect()
}

#[test]
fn kind_count_is_seven() {
    assert_eq!(Block::kindCount(), 7);
}

#[test]
fn catalogue_colors() {
    let expected = [
        Cell::SkyBlue,
        Cell::Blue,
        Cell::Orange,
        Cell::Yellow,
        Cell::Green,
        Cell::Purple,
        Cell::Red,
    ];
    for kind in 0..7u32 {
        let b = Block::new(kind);
        assert_eq!(b.getColor(), expected[kind as usize]);
        assert_eq!(b.getSize(), 4);
        assert_eq!(b.getShape().len(), 4);
    }
}

#[test]
fn catalogue_shapes_in_box() {
    for kind in 0..7u32 {
        let b = Block::new(kind);
        for p in b.getShape() {
            assert!(p.row() < 4);
            assert!(p.col() < 4);
        }
    }
}

#[test]
fn bar_shape_is_vertical() {
    let b = Block::new(0);
    assert_eq!(shape_points(&b), vec![(0, 1), (1, 1), (2, 1), (3, 1)]);
}

#[test]
fn turn_maps_offsets() {
    // (r, c) -> (c, 3 - r): the vertical bar becomes a horizontal bar.
    let b = Block::new(0).turn();
    assert_eq!(shape_points(&b), vec![(1, 3), (1, 2), (1, 1), (1, 0)]);
    assert_eq!(b.getColor(), Cell::SkyBlue);
    assert_eq!(b.getSize(), 4);
}

#[test]
fn four_turns_restore_shape() {
    for kind in 0..7u32 {
        let b = Block::new(kind);
        let t = b.turn().turn().turn().turn();
        assert_eq!(shape_points(&t), shape_points(&b));
        assert_eq!(t.getColor(), b.getColor());
        assert_eq!(t.getSize(), b.getSize());
    }
}

#[test]
fn random_blocks_are_catalogue_entries() {
    let mut seen = std::collections::BTreeSet::new();
    for _ in 0..200 {
        let b = Block::new_rand();
        assert_eq!(b.getSize(), 4);
        assert_eq!(b.getShape().len(), 4);
        let color = b.getColor();
        assert!(color != Cell::Empty && color != Cell::Wall);
        for p in b.getShape() {
            assert!(p.row() < 4 && p.col() < 4);
        }
        seen.insert(format!("{:?}", color));
    }
    // a uniform draw over seven kinds all but surely varies in 200 tries
    assert!(seen.len() >= 2);
}

#[test]
fn point_accessors() {
    let p = Point(3, 9);
    assert_eq!(p.row(), 3);
    assert_eq!(p.col(), 9);
}
