use gridpath::grid::Cell;
use gridpath::grid::Grid;
use gridpath::grid::Position;

fn pos(x: isize, y: isize) -> Position {
    Position { x, y }
}

#[test]
fn new_grid_is_all_free() {
    let g = Grid::new(3, 2);
    for y in 0..2 {
        for x in 0..3 {
            assert!(matches!(g.get_cell(x, y), Some(Cell::Free)));
        }
    }
}

#[test]
fn get_cell_out_of_bounds_is_none() {
    let g = Grid::new(3, 2);
    assert!(g.get_cell(3, 0).is_none());
    assert!(g.get_cell(0, 2).is_none());
    assert!(g.get_cell(100, 100).is_none());
}

#[test]
fn set_then_get_roundtrip() {
    let mut g = Grid::new(4, 4);
    g.set_cell(2, 3, Cell::Wall);
    assert!(matches!(g.get_cell(2, 3), Some(Cell::Wall)));
    assert!(matches!(g.get_cell(3, 2), Some(Cell::Free)));
}

#[test]
fn clear_resets_everything() {
    let mut g = Grid::new(3, 3);
    g.set_cell(0, 0, Cell::Start);
    g.set_cell(1, 1, Cell::Wall);
    g.set_cell(2, 2, Cell::Goal);
    g.clear();
    for y in 0..3 {
        for x in 0..3 {
            assert!(matches!(g.get_cell(x, y), Some(Cell::Free)));
        }
    }
}

#[test]
fn clear_path_keeps_walls_and_endpoints() {
    let mut g = Grid::new(3, 3);
    g.set_cell(0, 0, Cell::Start);
    g.set_cell(1, 0, Cell::Path);
    g.set_cell(1, 1, Cell::Visited);
    g.set_cell(2, 1, Cell::Wall);
    g.set_cell(2, 2, Cell::Goal);
    g.clear_path();
    assert!(matches!(g.get_cell(0, 0), Some(Cell::Start)));
    assert!(matches!(g.get_cell(1, 0), Some(Cell::Free)));
    assert!(matches!(g.get_cell(1, 1), Some(Cell::Free)));
    assert!(matches!(g.get_cell(2, 1), Some(Cell::Wall)));
    assert!(matches!(g.get_cell(2, 2), Some(Cell::Goal)));
}

#[test]
fn missing_endpoint_returns_nothing() {
    let mut g = Grid::new(3, 3);
    let (p, t) = g.solve(None, Some(pos(1, 1)));
    assert!(p.is_none() && t.is_none());
    let (p, t) = g.solve(Some(pos(1, 1)), None);
    assert!(p.is_none() && t.is_none());
    let (p, t) = g.solve(None, None);
    assert!(p.is_none() && t.is_none());
}

#[test]
fn empty_five_by_five_diagonal() {
    let mut g = Grid::new(5, 5);
    let (p, t) = g.solve(Some(pos(0, 0)), Some(pos(4, 4)));
    let p = p.expect("path expected");
    assert_eq!(p.len(), 9);
    assert_eq!(p[0], pos(4, 4));
    assert_eq!(p[p.len() - 1], pos(0, 0));
    assert!(t.is_some());
}

#[test]
fn no_walls_path_is_manhattan_plus_one() {
    let mut g = Grid::new(6, 1);
    let (p, _) = g.solve(Some(pos(0, 0)), Some(pos(5, 0)));
    assert_eq!(p.expect("path expected").len(), 6);
    let mut g = Grid::new(2, 3);
    let (p, _) = g.solve(Some(pos(0, 0)), Some(pos(1, 2)));
    assert_eq!(p.expect("path expected").len(), 4);
}

#[test]
fn start_equals_goal_is_single_cell() {
    let mut g = Grid::new(4, 4);
    let (p, t) = g.solve(Some(pos(2, 1)), Some(pos(2, 1)));
    let p = p.expect("path expected");
    assert_eq!(p.len(), 1);
    assert_eq!(p[0], pos(2, 1));
    assert!(t.is_some());
}

#[test]
fn single_cell_grid() {
    let mut g = Grid::new(1, 1);
    let (p, t) = g.solve(Some(pos(0, 0)), Some(pos(0, 0)));
    assert_eq!(p.expect("path expected"), vec![pos(0, 0)]);
    assert_eq!(t.expect("trace expected").len(), 1);
}

#[test]
fn full_wall_row_blocks() {
    let mut g = Grid::new(3, 3);
    g.set_cell(0, 1, Cell::Wall);
    g.set_cell(1, 1, Cell::Wall);
    g.set_cell(2, 1, Cell::Wall);
    let (p, t) = g.solve(Some(pos(0, 0)), Some(pos(0, 2)));
    assert!(p.is_none() && t.is_none());
}

#[test]
fn enclosed_goal_is_unreachable() {
    let mut g = Grid::new(5, 5);
    g.set_cell(1, 2, Cell::Wall);
    g.set_cell(3, 2, Cell::Wall);
    g.set_cell(2, 1, Cell::Wall);
    g.set_cell(2, 3, Cell::Wall);
    let (p, t) = g.solve(Some(pos(0, 0)), Some(pos(2, 2)));
    assert!(p.is_none() && t.is_none());
}

#[test]
fn path_avoids_walls_and_moves_one_step() {
    let mut g = Grid::new(5, 5);
    g.set_cell(1, 0, Cell::Wall);
    g.set_cell(1, 1, Cell::Wall);
    g.set_cell(1, 2, Cell::Wall);
    g.set_cell(3, 4, Cell::Wall);
    g.set_cell(3, 3, Cell::Wall);
    let (p, _) = g.solve(Some(pos(0, 0)), Some(pos(4, 4)));
    let p = p.expect("path expected");
    for i in 0..p.len() {
        let c = g.get_cell(p[i].x as usize, p[i].y as usize);
        assert!(!matches!(c, Some(Cell::Wall) | None));
        if i + 1 < p.len() {
            let dx = (p[i].x - p[i + 1].x).abs();
            let dy = (p[i].y - p[i + 1].y).abs();
            assert_eq!(dx + dy, 1);
        }
    }
    assert_eq!(p[0], pos(4, 4));
    assert_eq!(p[p.len() - 1], pos(0, 0));
}

#[test]
fn solving_twice_gives_identical_results() {
    let mut g = Grid::new(6, 6);
    g.set_cell(2, 0, Cell::Wall);
    g.set_cell(2, 1, Cell::Wall);
    g.set_cell(2, 2, Cell::Wall);
    g.set_cell(4, 4, Cell::Wall);
    let (p1, t1) = g.solve(Some(pos(0, 0)), Some(pos(5, 5)));
    let (p2, t2) = g.solve(Some(pos(0, 0)), Some(pos(5, 5)));
    assert_eq!(p1.expect("path expected"), p2.expect("path expected"));
    let t1 = t1.expect("trace expected");
    let t2 = t2.expect("trace expected");
    assert_eq!(t1.len(), t2.len());
    for i in 0..t1.len() {
        assert_eq!(t1[i].pos, t2[i].pos);
        assert_eq!(t1[i].g, t2[i].g);
        assert_eq!(t1[i].open, t2[i].open);
    }
}

#[test]
fn goal_on_wall_is_unreachable() {
    let mut g = Grid::new(3, 3);
    g.set_cell(2, 2, Cell::Wall);
    let (p, t) = g.solve(Some(pos(0, 0)), Some(pos(2, 2)));
    assert!(p.is_none() && t.is_none());
}

#[test]
fn trace_nodes_carry_costs_from_start() {
    let mut g = Grid::new(3, 3);
    let (p, t) = g.solve(Some(pos(0, 0)), Some(pos(2, 2)));
    assert_eq!(p.expect("path expected").len(), 5);
    let t = t.expect("trace expected");
    assert_eq!(t[0].pos, pos(0, 0));
    assert_eq!(t[0].g, 0);
    assert!(t[0].parent_index.is_none());
    let last = t[t.len() - 1];
    assert_eq!(last.pos, pos(2, 2));
    assert!(last.parent_index.is_some());
}

#[test]
fn create_path_marks_visited_and_path() {
    let mut g = Grid::new(5, 5);
    g.set_cell(0, 0, Cell::Start);
    g.set_cell(4, 4, Cell::Goal);
    g.create_path(Some(pos(0, 0)), Some(pos(4, 4)));
    let mut path_cells = 0;
    for y in 0..5 {
        for x in 0..5 {
            if matches!(g.get_cell(x, y), Some(Cell::Path)) {
                path_cells += 1;
            }
        }
    }
    // the 9-cell path minus the untouched Start and Goal cells
    assert_eq!(path_cells, 7);
    assert!(matches!(g.get_cell(0, 0), Some(Cell::Start)));
    assert!(matches!(g.get_cell(4, 4), Some(Cell::Goal)));
}

#[test]
fn create_path_missing_endpoint_changes_nothing() {
    let mut g = Grid::new(3, 3);
    g.set_cell(1, 1, Cell::Path);
    g.set_cell(2, 2, Cell::Visited);
    g.create_path(Some(pos(0, 0)), None);
    // the solve short-circuits before clearing, so even stale marks stay
    assert!(matches!(g.get_cell(1, 1), Some(Cell::Path)));
    assert!(matches!(g.get_cell(2, 2), Some(Cell::Visited)));
}

#[test]
fn create_path_enclosed_goal_adds_no_marks() {
    let mut g = Grid::new(5, 5);
    g.set_cell(1, 2, Cell::Wall);
    g.set_cell(3, 2, Cell::Wall);
    g.set_cell(2, 1, Cell::Wall);
    g.set_cell(2, 3, Cell::Wall);
    g.set_cell(4, 0, Cell::Visited);
    g.create_path(Some(pos(0, 0)), Some(pos(2, 2)));
    // the stale mark is erased and no new Visited or Path mark appears
    for y in 0..5 {
        for x in 0..5 {
            assert!(!matches!(
                g.get_cell(x, y),
                Some(Cell::Path) | Some(Cell::Visited) | None
            ));
        }
    }
}

#[test]
fn create_path_twice_leaves_identical_cells() {
    let mut g = Grid::new(6, 6);
    g.set_cell(2, 0, Cell::Wall);
    g.set_cell(2, 1, Cell::Wall);
    g.set_cell(2, 2, Cell::Wall);
    g.set_cell(0, 0, Cell::Start);
    g.set_cell(5, 5, Cell::Goal);
    g.create_path(Some(pos(0, 0)), Some(pos(5, 5)));
    let mut first: Vec<Vec<Cell>> = Vec::new();
    for y in 0..6 {
        let mut row = Vec::new();
        for x in 0..6 {
            row.push(g.get_cell(x, y).unwrap());
        }
        first.push(row);
    }
    g.create_path(Some(pos(0, 0)), Some(pos(5, 5)));
    for y in 0..6 {
        for x in 0..6 {
            assert_eq!(g.get_cell(x, y).unwrap(), first[y][x]);
        }
    }
}
