use minesweeper::Aabb2i;
use minesweeper::Grid;
use minesweeper::Vec2i;
use minesweeper::vec2i_range;

fn v(x: i32, y: i32) -> Vec2i {
    Vec2i { x, y }
}

#[test]
fn new_fills_every_cell_with_the_default() {
    let g: Grid<u8> = Grid::new(v(3, 2), 9);
    for y in 0..2 {
        for x in 0..3 {
            assert_eq!(*g.get(v(x, y)).unwrap(), 9);
        }
    }
}

#[test]
fn get_is_none_exactly_out_of_bounds() {
    let g: Grid<u8> = Grid::new(v(3, 2), 0);
    assert!(g.get(v(-1, 0)).is_none());
    assert!(g.get(v(3, 0)).is_none());
    assert!(g.get(v(0, 2)).is_none());
    assert!(g.get(v(2, 1)).is_some());
}

#[test]
fn set_replaces_one_cell_and_ignores_out_of_bounds() {
    let mut g: Grid<u8> = Grid::new(v(2, 2), 0);
    g.set(v(1, 0), 5);
    g.set(v(9, 9), 7);
    assert_eq!(*g.get(v(1, 0)).unwrap(), 5);
    assert_eq!(*g.get(v(0, 0)).unwrap(), 0);
    assert_eq!(*g.get(v(0, 1)).unwrap(), 0);
    assert_eq!(*g.get(v(1, 1)).unwrap(), 0);
}

#[test]
fn iter_walks_row_major() {
    let mut g: Grid<u8> = Grid::new(v(2, 2), 0);
    g.set(v(0, 0), 1);
    g.set(v(1, 0), 2);
    g.set(v(0, 1), 3);
    g.set(v(1, 1), 4);
    assert_eq!(g.iter().clone(), vec![1, 2, 3, 4]);
}

#[test]
fn new_with_computes_each_cell_from_its_coordinate() {
    let g: Grid<i32> = Grid::new_with(v(3, 2), |p: Vec2i| p.x + 10 * p.y);
    assert_eq!(*g.get(v(0, 0)).unwrap(), 0);
    assert_eq!(*g.get(v(2, 0)).unwrap(), 2);
    assert_eq!(*g.get(v(0, 1)).unwrap(), 10);
    assert_eq!(*g.get(v(2, 1)).unwrap(), 12);
}

#[test]
fn iter_with_positions_pairs_each_value_with_its_coordinate() {
    let g: Grid<i32> = Grid::new_with(v(2, 2), |p: Vec2i| p.x + 10 * p.y);
    let pairs = g.iter_with_positions();
    assert_eq!(pairs.len(), 4);
    assert_eq!(pairs[0], (v(0, 0), 0));
    assert_eq!(pairs[1], (v(1, 0), 1));
    assert_eq!(pairs[2], (v(0, 1), 10));
    assert_eq!(pairs[3], (v(1, 1), 11));
}

#[test]
fn iter_neighbours_yields_in_bounds_neighbours_in_fixed_order() {
    let g: Grid<i32> = Grid::new_with(v(3, 3), |p: Vec2i| p.x + 10 * p.y);
    // Centre cell: all eight, up-left through down-right.
    assert_eq!(g.iter_neighbours(v(1, 1)), vec![0, 1, 2, 10, 12, 20, 21, 22]);
    // Corner cell: only the three in-bounds neighbours.
    assert_eq!(g.iter_neighbours(v(0, 0)), vec![1, 10, 11]);
    // Edge cell: five neighbours.
    assert_eq!(g.iter_neighbours(v(1, 0)), vec![0, 2, 10, 11, 12]);
}

#[test]
fn iter_ortho_neighbours_yields_only_the_four_sides() {
    let g: Grid<i32> = Grid::new_with(v(3, 3), |p: Vec2i| p.x + 10 * p.y);
    // Centre cell: up, down, left, right.
    assert_eq!(g.iter_ortho_neighbours(v(1, 1)), vec![1, 21, 10, 12]);
    // Corner cell: only the two in-bounds sides.
    assert_eq!(g.iter_ortho_neighbours(v(0, 0)), vec![10, 1]);
    // Edge cell: three sides.
    assert_eq!(g.iter_ortho_neighbours(v(2, 1)), vec![2, 22, 11]);
}

#[test]
fn vec2i_range_walks_row_major() {
    let r = vec2i_range(v(2, 2));
    assert_eq!(r, vec![v(0, 0), v(1, 0), v(0, 1), v(1, 1)]);
    assert!(vec2i_range(v(0, 3)).is_empty());
}

#[test]
fn aabb2i_with_size_contains_exactly_the_grid_coordinates() {
    let bb = Aabb2i::with_size(v(3, 2));
    assert!(bb.contains_point(v(0, 0)));
    assert!(bb.contains_point(v(2, 1)));
    assert!(!bb.contains_point(v(3, 0)));
    assert!(!bb.contains_point(v(0, 2)));
    assert!(!bb.contains_point(v(-1, 0)));
}
