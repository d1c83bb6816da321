use gridbot::map::{Grid, Land, LandType, Pos};

fn pos(row: usize, col: usize) -> Pos {
    Pos { row, col }
}

#[test]
fn grid_starts_neutral_and_accessible() {
    let g = Grid::grid(2, 2);
    assert_eq!(g.len_tiles(), 4);
    for r in 0..2 {
        for c in 0..2 {
            let l = g.lookup(pos(r, c));
            assert_eq!(l, Land { kind: LandType::Land, color: 0, amount: 0 });
            assert!(g.accessible(pos(r, c)));
        }
    }
}

#[test]
fn set_tile_changes_only_its_cell() {
    let mut g = Grid::grid(2, 2);
    let city = Land { kind: LandType::City, color: 2, amount: 7 };
    g.set_tile(pos(1, 0), city);
    assert_eq!(g.lookup(pos(1, 0)), city);
    assert_eq!(g.lookup(pos(0, 0)).amount, 0);
    assert_eq!(g.lookup(pos(0, 1)).kind, LandType::Land);
    assert_eq!(g.lookup(pos(1, 1)).color, 0);
}

#[test]
fn accessibility_flag_toggles() {
    let mut g = Grid::grid(2, 1);
    g.set_accessible(pos(0, 1), false);
    assert!(g.accessible(pos(0, 0)));
    assert!(!g.accessible(pos(0, 1)));
    g.set_accessible(pos(0, 1), true);
    assert!(g.accessible(pos(0, 1)));
}

#[test]
fn neighbours_in_fixed_order() {
    let g = Grid::grid(3, 3);
    // up, down, left, right
    assert_eq!(
        g.neighbours(pos(1, 1)),
        vec![pos(0, 1), pos(2, 1), pos(1, 0), pos(1, 2)],
    );
    assert_eq!(g.neighbours(pos(0, 0)), vec![pos(1, 0), pos(0, 1)]);
    assert_eq!(g.neighbours(pos(2, 2)), vec![pos(1, 2), pos(2, 1)]);
}

#[test]
fn positions_index_row_major() {
    let g = Grid::grid(3, 2);
    assert_eq!(g.pos_at(0), pos(0, 0));
    assert_eq!(g.pos_at(2), pos(0, 2));
    assert_eq!(g.pos_at(3), pos(1, 0));
    assert_eq!(g.index_of(pos(1, 2)), 5);
}
