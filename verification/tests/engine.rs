use pushfight::board::Universe;
use pushfight::piece::Piece;

fn count_pieces(u: &Universe) -> usize {
    u.cells().iter().filter(|p| **p != Piece::Empty && **p != Piece::Abyss).count()
}

fn cell(u: &Universe, row: u32, col: u32) -> Piece {
    u.cells()[(row * u.width() + col) as usize]
}

#[test]
fn reference_layout_dimensions() {
    let u = Universe::new();
    assert_eq!(u.width(), 10);
    assert_eq!(u.height(), 4);
    assert_eq!(u.cells().len(), 40);
}

#[test]
fn reference_layout_cells() {
    let u = Universe::new();
    assert_eq!(cell(&u, 0, 0), Piece::Abyss);
    assert_eq!(cell(&u, 0, 4), Piece::BlackPusher);
    assert_eq!(cell(&u, 0, 5), Piece::WhiteMover);
    assert_eq!(cell(&u, 1, 4), Piece::BlackMover);
    assert_eq!(cell(&u, 1, 5), Piece::WhitePusher);
    assert_eq!(cell(&u, 2, 2), Piece::BlackPusher);
    assert_eq!(cell(&u, 2, 7), Piece::WhitePusher);
    assert_eq!(cell(&u, 3, 9), Piece::Abyss);
}

#[test]
fn self_move_is_never_legal() {
    let u = Universe::new();
    assert!(!u.can_move(0, 4, 0, 4));
    assert!(!u.can_move(1, 1, 1, 1));
}

#[test]
fn move_through_empty_path_is_legal() {
    let u = Universe::new();
    // the white mover at (0,5) slides right through (0,6) to (0,7)
    assert!(u.can_move(0, 5, 0, 6));
    assert!(u.can_move(0, 5, 0, 7));
    // the black pusher at (0,4) reaches the empty region to its left
    assert!(u.can_move(0, 4, 0, 3));
    assert!(u.can_move(0, 4, 1, 3));
}

#[test]
fn move_onto_occupied_or_out_of_bounds_is_illegal() {
    let u = Universe::new();
    // the target holds a piece
    assert!(!u.can_move(0, 4, 1, 4));
    // the target is abyss terrain
    assert!(!u.can_move(0, 4, 0, 8));
    // out of bounds
    assert!(!u.can_move(0, 4, 9, 9));
    assert!(!u.can_move(7, 7, 0, 3));
    // the source holds no piece
    assert!(!u.can_move(0, 3, 0, 6));
}

#[test]
fn push_into_adjacent_open_cell_is_rejected() {
    let u = Universe::new();
    // the white pusher at (1,5) has an empty cell directly to its right
    assert!(!u.can_push(1, 5, 0, 1));
}

#[test]
fn push_of_one_piece_into_open_cell_is_legal() {
    let u = Universe::new();
    // the black pusher at (0,4) pushes the white mover at (0,5) into (0,6)
    assert!(u.can_push(0, 4, 0, 1));
}

#[test]
fn push_direction_must_be_unit_orthogonal() {
    let u = Universe::new();
    assert!(!u.can_push(0, 4, 1, 1));
    assert!(!u.can_push(0, 4, 0, 0));
    assert!(!u.can_push(0, 4, 0, 2));
    assert!(!u.can_push(0, 4, -1, 1));
}

#[test]
fn push_must_start_from_a_pusher() {
    let u = Universe::new();
    // a mover cannot push
    assert!(!u.can_push(0, 5, 0, 1));
    // an empty cell cannot push
    assert!(!u.can_push(0, 3, 0, 1));
    // out-of-bounds origins cannot push
    assert!(!u.can_push(-1, 4, 0, 1));
    assert!(!u.can_push(0, 40, 0, 1));
}

#[test]
fn reference_push_shifts_chain_and_anchors() {
    let mut u = Universe::new();
    // black pusher at (0,4) pushes rightward into the mover at (0,5)
    u.try_move(0, 4, 0, 5);
    assert_eq!(cell(&u, 0, 4), Piece::Empty);
    assert_eq!(cell(&u, 0, 5), Piece::AnchoredBlackPusher);
    assert_eq!(cell(&u, 0, 6), Piece::WhiteMover);
    // the rest of the row stands
    assert_eq!(cell(&u, 0, 3), Piece::Empty);
    assert_eq!(cell(&u, 0, 7), Piece::Empty);
}

#[test]
fn push_into_open_cell_keeps_piece_count() {
    let mut u = Universe::new();
    let before = count_pieces(&u);
    u.try_move(0, 4, 0, 5);
    assert_eq!(count_pieces(&u), before);
}

#[test]
fn anchored_pusher_cannot_push_and_blocks_pushes() {
    let mut u = Universe::new();
    u.try_move(0, 4, 0, 5);
    assert_eq!(cell(&u, 0, 5), Piece::AnchoredBlackPusher);
    // the anchored pusher cannot initiate a push
    assert!(!u.can_push(0, 5, 0, 1));
    // a line through an anchored pusher is blocked, whatever lies beyond
    let layout = vec![
        Piece::WhitePusher,
        Piece::BlackMover,
        Piece::AnchoredBlackPusher,
        Piece::WhiteMover,
        Piece::Empty,
        Piece::Empty,
    ];
    let b = Universe::from_layout(6, 1, layout).unwrap();
    assert!(!b.can_push(0, 0, 0, 1));
}

#[test]
fn push_into_abyss_removes_one_piece() {
    let layout = vec![Piece::BlackPusher, Piece::WhiteMover, Piece::Abyss, Piece::Empty];
    let mut b = Universe::from_layout(4, 1, layout).unwrap();
    assert_eq!(count_pieces(&b), 2);
    b.try_move(0, 0, 0, 1);
    assert_eq!(b.cells()[0], Piece::Empty);
    assert_eq!(b.cells()[1], Piece::AnchoredBlackPusher);
    assert_eq!(b.cells()[2], Piece::Abyss);
    assert_eq!(count_pieces(&b), 1);
}

#[test]
fn push_running_off_the_board_is_rejected() {
    let layout = vec![Piece::Empty, Piece::WhitePusher, Piece::BlackMover];
    let b = Universe::from_layout(3, 1, layout).unwrap();
    // the chain reaches the right edge without an open or abyss cell
    assert!(!b.can_push(0, 1, 0, 1));
}

#[test]
fn try_move_from_empty_source_is_a_no_op() {
    let mut u = Universe::new();
    let before = u.cells().clone();
    u.try_move(0, 3, 0, 6);
    assert_eq!(u.cells(), &before);
    u.try_move(1, 1, 3, 3);
    assert_eq!(u.cells(), &before);
}

#[test]
fn try_move_with_diagonal_push_is_a_no_op() {
    let mut u = Universe::new();
    let before = u.cells().clone();
    // (1,1) off (0,4): neither a sliding move nor a unit direction
    u.try_move(0, 4, 1, 5);
    assert_eq!(u.cells(), &before);
}

#[test]
fn try_move_relocates_along_a_path() {
    let mut u = Universe::new();
    let before = count_pieces(&u);
    u.try_move(0, 5, 0, 7);
    assert_eq!(cell(&u, 0, 5), Piece::Empty);
    assert_eq!(cell(&u, 0, 7), Piece::WhiteMover);
    assert_eq!(count_pieces(&u), before);
}

#[test]
fn from_layout_rejects_bad_dimensions() {
    assert!(Universe::from_layout(0, 1, vec![]).is_none());
    assert!(Universe::from_layout(1, 0, vec![]).is_none());
    assert!(Universe::from_layout(2, 1, vec![Piece::Empty]).is_none());
    assert!(Universe::from_layout(1, 1, vec![Piece::Empty]).is_some());
}

#[test]
fn chained_push_moves_every_piece_one_step() {
    let layout = vec![
        Piece::BlackPusher,
        Piece::WhiteMover,
        Piece::WhitePusher,
        Piece::BlackMover,
        Piece::Empty,
        Piece::Abyss,
    ];
    let mut b = Universe::from_layout(6, 1, layout).unwrap();
    assert!(b.can_push(0, 0, 0, 1));
    b.try_move(0, 0, 0, 1);
    assert_eq!(b.cells()[0], Piece::Empty);
    assert_eq!(b.cells()[1], Piece::AnchoredBlackPusher);
    assert_eq!(b.cells()[2], Piece::WhiteMover);
    assert_eq!(b.cells()[3], Piece::WhitePusher);
    assert_eq!(b.cells()[4], Piece::BlackMover);
    assert_eq!(b.cells()[5], Piece::Abyss);
}

#[test]
fn blocked_region_is_unreachable() {
    // a mover walled off from the far side cannot reach it
    let layout = vec![
        Piece::WhiteMover,
        Piece::Empty,
        Piece::BlackMover,
        Piece::Empty,
        Piece::Empty,
    ];
    let b = Universe::from_layout(5, 1, layout).unwrap();
    assert!(b.can_move(0, 0, 0, 1));
    assert!(!b.can_move(0, 0, 0, 3));
    assert!(!b.can_move(0, 0, 0, 4));
}

#[test]
fn leftward_push_shifts_and_anchors() {
    let mut u = Universe::new();
    // the white pusher at (1,5) pushes the black mover at (1,4) into (1,3)
    assert!(u.can_push(1, 5, 0, -1));
    u.try_move(1, 5, 1, 4);
    assert_eq!(u.cells()[(1 * 10 + 5) as usize], Piece::Empty);
    assert_eq!(u.cells()[(1 * 10 + 4) as usize], Piece::AnchoredWhitePusher);
    assert_eq!(u.cells()[(1 * 10 + 3) as usize], Piece::BlackMover);
}

#[test]
fn vertical_push_off_the_edge_is_rejected() {
    let u = Universe::new();
    // pushing the mover at (0,5) upward would leave the board
    assert!(!u.can_push(1, 5, -1, 0));
}

#[test]
fn vertical_push_shifts_down_a_column() {
    let layout = vec![Piece::BlackPusher, Piece::WhiteMover, Piece::Empty, Piece::Abyss];
    let mut b = Universe::from_layout(1, 4, layout).unwrap();
    assert!(b.can_push(0, 0, 1, 0));
    b.try_move(0, 0, 1, 0);
    assert_eq!(b.cells()[0], Piece::Empty);
    assert_eq!(b.cells()[1], Piece::AnchoredBlackPusher);
    assert_eq!(b.cells()[2], Piece::WhiteMover);
    assert_eq!(b.cells()[3], Piece::Abyss);
}

#[test]
fn try_move_with_out_of_bounds_start_is_a_no_op() {
    let mut u = Universe::new();
    let before = u.cells().clone();
    u.try_move(9, 9, 0, 3);
    assert_eq!(u.cells(), &before);
    u.try_move(0, 4, 40, 4);
    assert_eq!(u.cells(), &before);
}

#[test]
fn anchored_pusher_cannot_relocate() {
    let mut u = Universe::new();
    u.try_move(0, 4, 0, 5);
    assert_eq!(cell(&u, 0, 5), Piece::AnchoredBlackPusher);
    assert_eq!(cell(&u, 0, 4), Piece::Empty);
    // the freshly anchored pusher sits beside open cells, yet may not slide
    assert!(!u.can_move(0, 5, 0, 4));
    let before = u.cells().clone();
    u.try_move(0, 5, 0, 4);
    assert_eq!(u.cells(), &before);
}
