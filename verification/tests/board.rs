use minesweeper::Board;
use minesweeper::CellResponse;
use minesweeper::CellState;
use minesweeper::CellType;
use minesweeper::Vec2i;

fn v(x: i32, y: i32) -> Vec2i {
    Vec2i { x, y }
}

fn seeded(seed: u64) -> rand::rngs::StdRng {
    <rand::rngs::StdRng as rand::SeedableRng>::seed_from_u64(seed)
}

/// A board with the given size and bombs exactly at `bombs`, adjacency built.
fn board_with_bombs_at(w: i32, h: i32, bombs: &[(i32, i32)]) -> Board {
    let mut b = Board::empty(v(w, h));
    for &(x, y) in bombs {
        b.types.set(v(x, y), CellType::Bomb);
    }
    b.rebuild_adjacency();
    b
}

fn count_cells(b: &Board, pred: impl Fn(CellType) -> bool) -> usize {
    let Vec2i { x: w, y: h } = b.size();
    let mut n = 0;
    for y in 0..h {
        for x in 0..w {
            if pred(b.cell_type(v(x, y)).unwrap()) {
                n += 1;
            }
        }
    }
    n
}

#[test]
fn bomb_and_non_bomb_cells_partition_the_board() {
    let mut rng = seeded(7);
    let b = Board::with_bombs(v(3, 3), 5, &mut rng);
    let bombs = count_cells(&b, |t| t == CellType::Bomb);
    let non_bombs = count_cells(&b, |t| t != CellType::Bomb);
    assert_eq!(bombs + non_bombs, 9);
    assert!(bombs <= 5);
    // A positive request always realizes at least one bomb.
    assert!(bombs >= 1);
}

#[test]
fn generation_leaves_every_cell_unopened() {
    let mut rng = seeded(11);
    let b = Board::with_bombs(v(4, 3), 4, &mut rng);
    for y in 0..3 {
        for x in 0..4 {
            assert_eq!(b.cell_state(v(x, y)).unwrap(), CellState::Unopened);
        }
    }
}

#[test]
fn generation_on_a_single_cell_board_places_the_bomb_there() {
    // rng draws below 1 can only return 0, so the one cell must hold the bomb.
    let mut rng = seeded(3);
    let b = Board::with_bombs(v(1, 1), 1, &mut rng);
    assert_eq!(b.cell_type(v(0, 0)).unwrap(), CellType::Bomb);
}

#[test]
fn generation_with_zero_bombs_places_none() {
    let mut rng = seeded(3);
    let b = Board::with_bombs(v(3, 3), 0, &mut rng);
    assert_eq!(count_cells(&b, |t| t == CellType::Bomb), 0);
}

#[test]
fn adjacency_rebuild_classifies_each_non_bomb_cell() {
    // 3x3 board, bombs at (0,0), (1,2), (2,0), (2,1), (2,2).
    let b = board_with_bombs_at(3, 3, &[(0, 0), (1, 2), (2, 0), (2, 1), (2, 2)]);
    // Bomb cells stay bombs.
    assert_eq!(b.cell_type(v(0, 0)).unwrap(), CellType::Bomb);
    assert_eq!(b.cell_type(v(2, 1)).unwrap(), CellType::Bomb);
    // Each remaining cell holds its 8-neighbour bomb count.
    assert_eq!(b.cell_type(v(0, 1)).unwrap(), CellType::BombAdjacent(2));
    assert_eq!(b.cell_type(v(1, 0)).unwrap(), CellType::BombAdjacent(3));
    assert_eq!(b.cell_type(v(1, 1)).unwrap(), CellType::BombAdjacent(5));
    assert_eq!(b.cell_type(v(0, 2)).unwrap(), CellType::BombAdjacent(1));
}

#[test]
fn adjacency_rebuild_writes_empty_for_isolated_cells() {
    let b = board_with_bombs_at(4, 4, &[(3, 3)]);
    assert_eq!(b.cell_type(v(0, 0)).unwrap(), CellType::Empty);
    assert_eq!(b.cell_type(v(1, 1)).unwrap(), CellType::Empty);
    assert_eq!(b.cell_type(v(2, 2)).unwrap(), CellType::BombAdjacent(1));
    assert_eq!(b.cell_type(v(3, 2)).unwrap(), CellType::BombAdjacent(1));
    assert_eq!(b.cell_type(v(2, 3)).unwrap(), CellType::BombAdjacent(1));
}

fn snapshot_states(b: &Board) -> Vec<CellState> {
    let Vec2i { x: w, y: h } = b.size();
    let mut out = Vec::new();
    for y in 0..h {
        for x in 0..w {
            out.push(b.cell_state(v(x, y)).unwrap());
        }
    }
    out
}

#[test]
fn flood_fill_reveals_region_and_border_but_no_bomb() {
    // One bomb in the corner; every empty cell is connected.
    let mut b = board_with_bombs_at(4, 4, &[(3, 3)]);
    b.states.set(v(0, 0), CellState::Opened);
    b.flood_uncover_empty(v(0, 0));
    for y in 0..4 {
        for x in 0..4 {
            let expected = if (x, y) == (3, 3) {
                CellState::Unopened
            } else {
                CellState::Opened
            };
            assert_eq!(b.cell_state(v(x, y)).unwrap(), expected, "cell ({x},{y})");
        }
    }
}

#[test]
fn flood_fill_twice_changes_nothing_more() {
    let mut b = board_with_bombs_at(4, 4, &[(3, 3)]);
    b.states.set(v(1, 1), CellState::Opened);
    b.flood_uncover_empty(v(1, 1));
    let after_first = snapshot_states(&b);
    b.flood_uncover_empty(v(1, 1));
    assert_eq!(snapshot_states(&b), after_first);
}

#[test]
fn flood_fill_does_not_open_flagged_cells_or_cross_them() {
    // A 1x5 corridor with a flag in the middle blocks propagation.
    let mut b = board_with_bombs_at(5, 1, &[]);
    b.states.set(v(2, 0), CellState::Flagged);
    b.states.set(v(0, 0), CellState::Opened);
    b.flood_uncover_empty(v(0, 0));
    assert_eq!(b.cell_state(v(1, 0)).unwrap(), CellState::Opened);
    assert_eq!(b.cell_state(v(2, 0)).unwrap(), CellState::Flagged);
    assert_eq!(b.cell_state(v(3, 0)).unwrap(), CellState::Unopened);
    assert_eq!(b.cell_state(v(4, 0)).unwrap(), CellState::Unopened);
}

#[test]
fn opening_an_empty_cell_reveals_the_whole_empty_board() {
    // No bombs at all: one open reveals every cell in a single call.
    let mut b = board_with_bombs_at(4, 3, &[]);
    let r = b.open(v(1, 1));
    assert!(matches!(r, Some(CellResponse::OpenSpaceUncovered)));
    for y in 0..3 {
        for x in 0..4 {
            assert_eq!(b.cell_state(v(x, y)).unwrap(), CellState::Opened);
        }
    }
}

#[test]
fn opening_an_adjacent_count_cell_opens_only_that_cell() {
    let mut b = board_with_bombs_at(3, 3, &[(0, 0)]);
    let r = b.open(v(1, 1));
    assert!(matches!(r, Some(CellResponse::UnsafeSpaceUncovered)));
    assert_eq!(b.cell_state(v(1, 1)).unwrap(), CellState::Opened);
    assert_eq!(b.cell_state(v(2, 2)).unwrap(), CellState::Unopened);
    assert_eq!(b.cell_state(v(0, 0)).unwrap(), CellState::Unopened);
}

#[test]
fn opening_a_bomb_reports_the_hit() {
    let mut b = board_with_bombs_at(3, 3, &[(1, 1)]);
    let r = b.open(v(1, 1));
    assert!(matches!(r, Some(CellResponse::BombHit)));
    assert_eq!(b.cell_state(v(1, 1)).unwrap(), CellState::Opened);
}

#[test]
fn opening_out_of_bounds_or_twice_has_no_effect() {
    let mut b = board_with_bombs_at(2, 2, &[]);
    assert!(b.open(v(-1, 0)).is_none());
    assert!(b.open(v(0, 5)).is_none());
    assert!(b.open(v(0, 0)).is_some());
    assert!(b.open(v(0, 0)).is_none());
}

#[test]
fn first_click_bomb_is_relocated_and_no_loss_signalled() {
    // 4x4 with one corner bomb: plenty of empty cells to relocate to.
    let mut b = board_with_bombs_at(4, 4, &[(0, 0)]);
    // The player's first open lands on the bomb.
    let r = b.open(v(0, 0));
    assert!(matches!(r, Some(CellResponse::BombHit)));
    // The caller detects the first click and relocates instead of losing.
    let mut rng = seeded(21);
    b.handle_first_click_bomb(v(0, 0), &mut rng);
    assert_ne!(b.cell_type(v(0, 0)).unwrap(), CellType::Bomb);
    // The bomb moved elsewhere rather than vanishing.
    assert_eq!(count_cells(&b, |t| t == CellType::Bomb), 1);
    // The clicked cell stays opened.
    assert_eq!(b.cell_state(v(0, 0)).unwrap(), CellState::Opened);
}

#[test]
fn relocation_without_a_free_cell_silently_drops_the_bomb() {
    // Every non-bomb cell still holds its stale adjacent count when the
    // retry loop inspects it, so a lone centre bomb on a 3x3 board has
    // nowhere to go: the board keeps one bomb fewer.
    let mut b = board_with_bombs_at(3, 3, &[(1, 1)]);
    let r = b.open(v(1, 1));
    assert!(matches!(r, Some(CellResponse::BombHit)));
    let mut rng = seeded(21);
    b.handle_first_click_bomb(v(1, 1), &mut rng);
    assert_eq!(count_cells(&b, |t| t == CellType::Bomb), 0);
    // With no bombs left the rebuilt board is fully empty, and the clicked
    // cell flood fills the whole board open.
    for y in 0..3 {
        for x in 0..3 {
            assert_eq!(b.cell_type(v(x, y)).unwrap(), CellType::Empty);
            assert_eq!(b.cell_state(v(x, y)).unwrap(), CellState::Opened);
        }
    }
}

#[test]
fn toggling_a_flag_twice_returns_to_unopened() {
    let mut b = board_with_bombs_at(2, 2, &[(0, 1)]);
    let first = b.toggle_flag(v(0, 0));
    assert!(matches!(first, Some(CellResponse::FlagPlaced)));
    assert_eq!(b.cell_state(v(0, 0)).unwrap(), CellState::Flagged);
    let second = b.toggle_flag(v(0, 0));
    assert!(matches!(second, Some(CellResponse::FlagRemoved)));
    assert_eq!(b.cell_state(v(0, 0)).unwrap(), CellState::Unopened);
}

#[test]
fn flagging_an_opened_or_out_of_bounds_cell_has_no_effect() {
    let mut b = board_with_bombs_at(2, 2, &[]);
    assert!(b.toggle_flag(v(7, 7)).is_none());
    b.states.set(v(1, 1), CellState::Opened);
    assert!(b.toggle_flag(v(1, 1)).is_none());
    assert_eq!(b.cell_state(v(1, 1)).unwrap(), CellState::Opened);
}

#[test]
fn win_check_requires_exactly_the_bomb_cells_flagged() {
    let mut b = board_with_bombs_at(3, 3, &[(0, 0), (2, 2)]);
    assert!(!b.are_all_bombs_flagged());
    b.toggle_flag(v(0, 0));
    assert!(!b.are_all_bombs_flagged());
    b.toggle_flag(v(2, 2));
    assert!(b.are_all_bombs_flagged());
    // An extra flag on a safe cell breaks the win condition.
    b.toggle_flag(v(1, 1));
    assert!(!b.are_all_bombs_flagged());
}

#[test]
fn win_check_on_a_zero_bomb_board() {
    let mut b = board_with_bombs_at(2, 2, &[]);
    // Vacuously true while nothing is flagged incorrectly.
    assert!(b.are_all_bombs_flagged());
    b.toggle_flag(v(0, 0));
    assert!(!b.are_all_bombs_flagged());
}

#[test]
fn uncover_all_opens_everything_except_flags() {
    let mut b = board_with_bombs_at(3, 2, &[(2, 1)]);
    b.toggle_flag(v(2, 1));
    b.uncover_all();
    for y in 0..2 {
        for x in 0..3 {
            let expected = if (x, y) == (2, 1) {
                CellState::Flagged
            } else {
                CellState::Opened
            };
            assert_eq!(b.cell_state(v(x, y)).unwrap(), expected);
        }
    }
}

#[test]
fn board_size_and_out_of_bounds_queries() {
    let b = Board::empty(v(5, 4));
    let size = b.size();
    assert_eq!((size.x, size.y), (5, 4));
    assert!(b.cell_type(v(5, 0)).is_none());
    assert!(b.cell_type(v(0, 4)).is_none());
    assert!(b.cell_state(v(-1, -1)).is_none());
    assert_eq!(b.cell_type(v(4, 3)).unwrap(), CellType::Empty);
}
