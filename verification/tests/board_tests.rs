use tetris_core::Block;
use tetris_core::Board;
use tetris_core::Cell;
use tetris_core::Dir;

fn occupied(board: &Board) -> usize {
    board
        .getCells()
        .iter()
        .filter(|&&c| c != Cell::Empty && c != Cell::Wall)
        .count()
}

fn move_to_floor(board: &mut Board) {
    let mut steps: u32 = 0;
    while board.moveCurrentBlock(Dir::Down) {
        steps += 1;
        assert!(steps <= 30);
    }
}

#[test]
fn default_board_scenario() {
    let board = Board::new();
    assert_eq!(board.getWidth(), 12);
    assert_eq!(board.getHeight(), 30);
    assert_eq!(board.getCell(0, 0), Cell::Wall);
    assert_eq!(board.getCell(0, 1), Cell::Empty);
    assert_eq!(board.getCell(29, 0), Cell::Wall);
    for col in 0..12 {
        assert_eq!(board.getCell(29, col), Cell::Wall);
    }
    for row in 0..30 {
        assert_eq!(board.getCell(row, 0), Cell::Wall);
        assert_eq!(board.getCell(row, 11), Cell::Wall);
    }
    assert_eq!(occupied(&board), 0);
    assert_eq!(board.getCells().len(), 360);
    assert!(board.getKeepingBlock().is_none());
    let pos = board.getCurrentBlockPos();
    assert_eq!((pos.row(), pos.col()), (0, 4));
}

#[test]
fn landing_tick_locks_and_resets() {
    // a square falls from spawn; after it refuses to move further down, a
    // tick stamps it and resets the origin
    let mut board = Board::new_with(Block::new(3), Block::new(0));
    move_to_floor(&mut board);
    let pos = board.getCurrentBlockPos();
    assert_eq!((pos.row(), pos.col()), (26, 4));
    board.tick();
    assert_eq!(board.getCell(27, 5), Cell::Yellow);
    assert_eq!(board.getCell(27, 6), Cell::Yellow);
    assert_eq!(board.getCell(28, 5), Cell::Yellow);
    assert_eq!(board.getCell(28, 6), Cell::Yellow);
    assert_eq!(occupied(&board), 4);
    let pos = board.getCurrentBlockPos();
    assert_eq!((pos.row(), pos.col()), (0, 4));
    // the queued block was promoted
    assert_eq!(board.getCurrentBlock().getColor(), Cell::SkyBlue);
}

#[test]
fn tick_moves_piece_one_row() {
    let mut board = Board::new_with(Block::new(3), Block::new(0));
    board.tick();
    let pos = board.getCurrentBlockPos();
    assert_eq!((pos.row(), pos.col()), (1, 4));
    assert_eq!(occupied(&board), 0);
}

#[test]
fn failed_moves_change_nothing() {
    let mut board = Board::new_with(Block::new(0), Block::new(1));
    // up from the spawn row leaves the board
    let cells_before = board.getCells().clone();
    let pos_before = board.getCurrentBlockPos();
    assert!(!board.moveCurrentBlock(Dir::Up));
    assert_eq!(board.getCells().clone(), cells_before);
    let pos = board.getCurrentBlockPos();
    assert_eq!(
        (pos.row(), pos.col()),
        (pos_before.row(), pos_before.col())
    );
    // the vertical bar occupies column origin + 1: three moves to the wall
    assert!(board.moveCurrentBlock(Dir::Left));
    assert!(board.moveCurrentBlock(Dir::Left));
    assert!(board.moveCurrentBlock(Dir::Left));
    assert!(board.moveCurrentBlock(Dir::Left));
    assert!(!board.moveCurrentBlock(Dir::Left));
    let pos = board.getCurrentBlockPos();
    assert_eq!((pos.row(), pos.col()), (0, 0));
}

#[test]
fn up_move_succeeds_below_top() {
    let mut board = Board::new_with(Block::new(3), Block::new(0));
    assert!(board.moveCurrentBlock(Dir::Down));
    assert!(board.moveCurrentBlock(Dir::Up));
    let pos = board.getCurrentBlockPos();
    assert_eq!((pos.row(), pos.col()), (0, 4));
}

#[test]
fn blocked_rotation_changes_nothing() {
    let mut board = Board::new_with(Block::new(0), Block::new(0));
    // walk the vertical bar against the left wall; rotating there would put
    // a cell on the wall column
    assert!(board.moveCurrentBlock(Dir::Left));
    assert!(board.moveCurrentBlock(Dir::Left));
    assert!(board.moveCurrentBlock(Dir::Left));
    assert!(board.moveCurrentBlock(Dir::Left));
    let shape_before: Vec<(u32, u32)> = board
        .getCurrentBlock()
        .getShape()
        .iter()
        .map(|p| (p.row(), p.col()))
        .collect();
    assert!(!board.turnCurrentBlock());
    let shape_after: Vec<(u32, u32)> = board
        .getCurrentBlock()
        .getShape()
        .iter()
        .map(|p| (p.row(), p.col()))
        .collect();
    assert_eq!(shape_before, shape_after);
}

#[test]
fn rotation_in_open_space_succeeds() {
    let mut board = Board::new_with(Block::new(0), Block::new(0));
    assert!(board.turnCurrentBlock());
    let shape: Vec<(u32, u32)> = board
        .getCurrentBlock()
        .getShape()
        .iter()
        .map(|p| (p.row(), p.col()))
        .collect();
    assert_eq!(shape, vec![(1, 3), (1, 2), (1, 1), (1, 0)]);
}

#[test]
fn hold_promotes_then_swaps() {
    let mut board = Board::new_with(Block::new(0), Block::new(1));
    assert!(board.getKeepingBlock().is_none());
    board.keepCurrentBlock();
    // the queued blue piece became active, the sky-blue bar is held
    assert_eq!(board.getCurrentBlock().getColor(), Cell::Blue);
    assert_eq!(
        board.getKeepingBlock().unwrap().getColor(),
        Cell::SkyBlue
    );
    board.keepCurrentBlock();
    // a second hold swaps straight back
    assert_eq!(board.getCurrentBlock().getColor(), Cell::SkyBlue);
    assert_eq!(board.getKeepingBlock().unwrap().getColor(), Cell::Blue);
}

#[test]
fn hard_drop_locks_and_advances() {
    let mut board = Board::new_with(Block::new(4), Block::new(2));
    board.dropCurrentBlock();
    assert_eq!(occupied(&board), 4);
    let pos = board.getCurrentBlockPos();
    assert_eq!((pos.row(), pos.col()), (0, 4));
    assert_eq!(board.getCurrentBlock().getColor(), Cell::Orange);
    // the green piece lies on the floor row
    assert_eq!(board.getCell(28, 4), Cell::Green);
    assert_eq!(board.getCell(28, 5), Cell::Green);
    assert_eq!(board.getCell(27, 5), Cell::Green);
    assert_eq!(board.getCell(27, 6), Cell::Green);
}

#[test]
fn reset_returns_origin_to_spawn() {
    let mut board = Board::new_with(Block::new(3), Block::new(0));
    assert!(board.moveCurrentBlock(Dir::Down));
    assert!(board.moveCurrentBlock(Dir::Right));
    board.resetCurrentBlockPos();
    let pos = board.getCurrentBlockPos();
    assert_eq!((pos.row(), pos.col()), (0, 4));
}

#[test]
fn single_line_clear_shifts_rows_down() {
    // fill the bottom playable row with two horizontal bars and one square:
    // row 28 gets columns 1..=10, row 27 only columns 9 and 10
    let mut board = Board::new_with(Block::new(0), Block::new(0));
    // first bar: rotate horizontal, park at columns 1..=4
    assert!(board.turnCurrentBlock());
    assert!(board.moveCurrentBlock(Dir::Left));
    assert!(board.moveCurrentBlock(Dir::Left));
    assert!(board.moveCurrentBlock(Dir::Left));
    move_to_floor(&mut board);
    board.next_with(Block::new(3));
    // second bar: park at columns 5..=8
    assert!(board.turnCurrentBlock());
    assert!(board.moveCurrentBlock(Dir::Right));
    move_to_floor(&mut board);
    board.next_with(Block::new(0));
    assert_eq!(occupied(&board), 8);
    assert_eq!(board.getCell(28, 1), Cell::SkyBlue);
    assert_eq!(board.getCell(28, 8), Cell::SkyBlue);
    // the square: park at columns 9 and 10
    for _ in 0..4 {
        assert!(board.moveCurrentBlock(Dir::Right));
    }
    move_to_floor(&mut board);
    let before = occupied(&board);
    assert_eq!(before, 8);
    board.tick();
    // row 28 was completed by the square and cleared: the square's upper
    // half sinks onto the floor row, everything else is gone
    assert_eq!(occupied(&board), 2);
    assert_eq!(board.getCell(28, 9), Cell::Yellow);
    assert_eq!(board.getCell(28, 10), Cell::Yellow);
    assert_eq!(board.getCell(28, 1), Cell::Empty);
    assert_eq!(board.getCell(28, 8), Cell::Empty);
    assert_eq!(board.getCell(27, 9), Cell::Empty);
    assert_eq!(board.getCell(27, 10), Cell::Empty);
    // the border survives a clear
    for col in 0..12 {
        assert_eq!(board.getCell(29, col), Cell::Wall);
    }
    for row in 0..30 {
        assert_eq!(board.getCell(row, 0), Cell::Wall);
        assert_eq!(board.getCell(row, 11), Cell::Wall);
    }
}

#[test]
fn no_clear_when_row_incomplete() {
    let mut board = Board::new_with(Block::new(3), Block::new(3));
    move_to_floor(&mut board);
    board.next_with(Block::new(3));
    assert_eq!(occupied(&board), 4);
    assert_eq!(board.getCell(28, 5), Cell::Yellow);
}

#[test]
fn two_rows_clear_at_once() {
    // five squares tile the two bottom playable rows completely; locking
    // the fifth clears both rows and leaves the interior empty
    let mut board = Board::new_with(Block::new(3), Block::new(3));
    for target in [0u32, 2, 6, 8, 4] {
        let mut col = board.getCurrentBlockPos().col();
        while col < target {
            assert!(board.moveCurrentBlock(Dir::Right));
            col += 1;
        }
        while col > target {
            assert!(board.moveCurrentBlock(Dir::Left));
            col -= 1;
        }
        move_to_floor(&mut board);
        board.next_with(Block::new(3));
    }
    assert_eq!(occupied(&board), 0);
    for row in 0..29 {
        for col in 1..11 {
            assert_eq!(board.getCell(row, col), Cell::Empty);
        }
    }
}

#[test]
fn stacking_two_squares() {
    let mut board = Board::new_with(Block::new(3), Block::new(3));
    move_to_floor(&mut board);
    board.next_with(Block::new(3));
    move_to_floor(&mut board);
    // the second square rests on the first
    let pos = board.getCurrentBlockPos();
    assert_eq!((pos.row(), pos.col()), (24, 4));
    board.next_with(Block::new(3));
    assert_eq!(occupied(&board), 8);
    assert_eq!(board.getCell(26, 5), Cell::Yellow);
    assert_eq!(board.getCell(25, 6), Cell::Yellow);
}
