//! The executable search: scan helpers over the arena, path
//! reconstruction, and the grid-level `solve` and `create_path`
//! operations, each proved to compute exactly what the model in
//! `search` specifies.

use vstd::prelude::*;
use crate::grid::Cell;
use crate::grid::Grid;
use crate::grid::MAX_DIM;
use crate::grid::Position;
use crate::grid::unmark_cell;
use crate::grid::unmarked;
use crate::search::Node;
use crate::search::SearchOutcome;
use crate::search::StepOutcome;
use crate::search::cell_at_pos;
use crate::search::chain;
use crate::search::expand_upto;
use crate::search::f_of;
use crate::search::find_pos_upto;
use crate::search::heuristic_spec;
use crate::search::lemma_area_small;
use crate::search::lemma_close_preserves;
use crate::search::lemma_expand_preserves;
use crate::search::lemma_expand_reached_stable;
use crate::search::lemma_find_pos_extend;
use crate::search::lemma_find_pos_props;
use crate::search::lemma_heuristic_small;
use crate::search::lemma_min_open_props;
use crate::search::lemma_num_open_bounds;
use crate::search::lemma_search_enclosed;
use crate::search::lemma_step_preserves;
use crate::search::min_open_upto;
use crate::search::neighbor_at;
use crate::search::nodes_wf;
use crate::search::num_closed;
use crate::search::offset_for;
use crate::search::parents_ok;
use crate::search::pos_in_bounds;
use crate::search::result_path;
use crate::search::search_from;
use crate::search::search_result;
use crate::search::start_node;
use crate::search::step_neighbor;
use crate::search::touching;

verus! {

/// Squared Euclidean distance between two positions of an admissible
/// grid; the search's heuristic.
pub fn heuristic(a: Position, b: Position) -> (r: usize)
    requires
        0 <= a.x <= MAX_DIM as int,
        0 <= a.y <= MAX_DIM as int,
        0 <= b.x <= MAX_DIM as int,
        0 <= b.y <= MAX_DIM as int,
    ensures
        r == heuristic_spec(a, b),
{
    let dx = a.x - b.x;
    let dy = a.y - b.y;
    proof {
        assert(0 <= dx * dx <= 100000000 && 0 <= dy * dy <= 100000000) by (nonlinear_arith)
            requires
                -10000 <= dx <= 10000,
                -10000 <= dy <= 10000,
        {
        }
    }
    let s = dx * dx + dy * dy;
    s as usize
}

/// The `k`-th movement offset in rotation order: down, right, up, left.
fn offset_of(k: usize) -> (r: (isize, isize))
    requires
        k < 4,
    ensures
        r.0 == offset_for(k as int).0,
        r.1 == offset_for(k as int).1,
{
    if k == 0 {
        (0, 1)
    } else if k == 1 {
        (1, 0)
    } else if k == 2 {
        (0, -1)
    } else {
        (-1, 0)
    }
}

/// Index of the open node of least `f`, earliest index on ties.
fn min_open(nodes: &Vec<Node>) -> (r: Option<usize>)
    requires
        forall|t: int| 0 <= t < nodes@.len() ==> f_of(#[trigger] nodes@[t]) <= 0x7fffffff,
    ensures
        r is None ==> min_open_upto(nodes@, nodes@.len() as int) is None,
        r matches Some(ci) ==> min_open_upto(nodes@, nodes@.len() as int) == Some(ci as int),
{
    let n = nodes.len();
    let mut best: Option<usize> = None;
    let mut i: usize = 0;
    while i < n
        invariant
            i <= n,
            n == nodes@.len(),
            forall|t: int| 0 <= t < nodes@.len() ==> f_of(#[trigger] nodes@[t]) <= 0x7fffffff,
            best is None ==> min_open_upto(nodes@, i as int) is None,
            best matches Some(b) ==> b < n && min_open_upto(nodes@, i as int) == Some(b as int),
        decreases n - i,
    {
        let nd = nodes[i];
        if nd.open {
            match best {
                None => {
                    best = Some(i);
                },
                Some(b) => {
                    let bn = nodes[b];
                    let bf = bn.g + bn.h;
                    let cf = nd.g + nd.h;
                    if cf < bf {
                        best = Some(i);
                    }
                },
            }
        }
        i = i + 1;
    }
    best
}

/// Index of the first arena node sitting at position `p`.
fn find_pos(nodes: &Vec<Node>, p: Position) -> (r: Option<usize>)
    ensures
        r is None ==> find_pos_upto(nodes@, p, nodes@.len() as int) is None,
        r matches Some(j) ==> find_pos_upto(nodes@, p, nodes@.len() as int) == Some(j as int),
{
    let n = nodes.len();
    let mut i: usize = 0;
    while i < n
        invariant
            i <= n,
            n == nodes@.len(),
            find_pos_upto(nodes@, p, i as int) is None,
        decreases n - i,
    {
        if nodes[i].pos == p {
            proof {
                assert(find_pos_upto(nodes@, p, i + 1) == Some(i as int));
                if i + 1 < n {
                    lemma_find_pos_extend(nodes@, p, i as int, n as int);
                }
            }
            return Some(i);
        }
        i = i + 1;
    }
    None
}

/// Walk parent links from node `i` and collect the positions passed,
/// the node itself first.
fn build_path(nodes: &Vec<Node>, i: usize) -> (path: Vec<Position>)
    requires
        parents_ok(nodes@),
        i < nodes@.len(),
    ensures
        path@ == chain(nodes@, i as int),
{
    let mut path: Vec<Position> = Vec::new();
    let mut cur: usize = i;
    path.push(nodes[i].pos);
    proof {
        assert(path@ =~= seq![nodes@[i as int].pos]);
    }
    loop
        invariant
            parents_ok(nodes@),
            i < nodes@.len(),
            cur < nodes@.len(),
            path@.len() >= 1,
            chain(nodes@, i as int) == path@ + (match nodes@[cur as int].parent_index {
                Some(p) => chain(nodes@, p as int),
                None => Seq::<Position>::empty(),
            }),
        ensures
            chain(nodes@, i as int) == path@,
        decreases nodes@[cur as int].g,
    {
        let pi = nodes[cur].parent_index;
        match pi {
            None => {
                proof {
                    assert(path@ + Seq::<Position>::empty() =~= path@);
                }
                break;
            },
            Some(p) => {
                proof {
                    assert(p < nodes@.len() && nodes@[p as int].g < nodes@[cur as int].g);
                }
                let ghost prev = path@;
                path.push(nodes[p].pos);
                proof {
                    assert(prev + chain(nodes@, p as int) == chain(nodes@, i as int));
                    assert(chain(nodes@, p as int) == seq![nodes@[p as int].pos] + (
                    match nodes@[p as int].parent_index {
                        Some(q) => chain(nodes@, q as int),
                        None => Seq::<Position>::empty(),
                    })) by {
                        match nodes@[p as int].parent_index {
                            Some(q) => {
                                assert(q < nodes@.len() && nodes@[q as int].g < nodes@[
                                    p as int].g);
                            },
                            None => {
                                assert(chain(nodes@, p as int) =~= seq![nodes@[p as int].pos]
                                    + Seq::<Position>::empty());
                            },
                        }
                    }
                    assert(path@ =~= prev + seq![nodes@[p as int].pos]);
                    assert(path@ + (match nodes@[p as int].parent_index {
                        Some(q) => chain(nodes@, q as int),
                        None => Seq::<Position>::empty(),
                    }) =~= chain(nodes@, i as int));
                }
                cur = p;
            },
        }
    }
    path
}

/// Process neighbor `k` of the current node: exactly one step of the
/// model's `step_neighbor`, performed on the live arena. Returns the
/// freshly made goal node when the neighbor is the goal.
#[verifier::spinoff_prover]
#[verifier::rlimit(100)]
fn step_exec(
    grid: &Grid,
    goal: Position,
    node_list: &mut Vec<Node>,
    ci: usize,
    k: usize,
    Ghost(start): Ghost<Position>,
) -> (found: Option<Node>)
    requires
        grid.wf(),
        grid.width <= MAX_DIM,
        grid.height <= MAX_DIM,
        nodes_wf(
            grid.cells(),
            grid.width as int,
            grid.height as int,
            start,
            goal,
            old(node_list)@,
        ),
        ci < old(node_list)@.len(),
        k < 4,
        pos_in_bounds(grid.width as int, grid.height as int, goal),
    ensures
        match found {
            Some(gn) => step_neighbor(
                grid.cells(),
                grid.width as int,
                grid.height as int,
                goal,
                old(node_list)@,
                ci as int,
                k as int,
            ) == (StepOutcome::Reached { nodes: old(node_list)@, goal_node: gn }) && final(node_list)@
                == old(node_list)@,
            None => step_neighbor(
                grid.cells(),
                grid.width as int,
                grid.height as int,
                goal,
                old(node_list)@,
                ci as int,
                k as int,
            ) == (StepOutcome::Continue { nodes: final(node_list)@ }),
        },
{
    let ghost gcells = grid.cells();
    let ghost w = grid.width as int;
    let ghost h = grid.height as int;
    let ghost ns = node_list@;
    let cpos = node_list[ci].pos;
    let cg = node_list[ci].g;
    proof {
        lemma_area_small(w, h);
        assert(pos_in_bounds(w, h, ns[ci as int].pos));
    }
    let (dx, dy) = offset_of(k);
    let nx = cpos.x + dx;
    let ny = cpos.y + dy;
    let npos = Position { x: nx, y: ny };
    proof {
        assert(npos == neighbor_at(ns[ci as int].pos, k as int));
    }
    let skip = if nx < 0 || ny < 0 {
        true
    } else {
        match grid.get_cell(nx as usize, ny as usize) {
            None => true,
            Some(Cell::Wall) => true,
            Some(_) => false,
        }
    };
    if skip {
        proof {
            assert(!pos_in_bounds(w, h, npos) || cell_at_pos(gcells, w, npos) is Wall);
            assert(step_neighbor(gcells, w, h, goal, ns, ci as int, k as int)
                == (StepOutcome::Continue { nodes: ns }));
        }
        return None;
    }
    proof {
        assert(pos_in_bounds(w, h, npos));
        assert(!(cell_at_pos(gcells, w, npos) is Wall));
    }
    let hn = heuristic(npos, goal);
    proof {
        lemma_heuristic_small(w, h, npos, goal);
    }
    let cand = Node { pos: npos, parent_index: Some(ci), g: cg + 1, h: hn, open: true };
    if npos == goal {
        proof {
            assert(step_neighbor(gcells, w, h, goal, ns, ci as int, k as int)
                == (StepOutcome::Reached { nodes: ns, goal_node: cand }));
        }
        return Some(cand);
    }
    let fo = find_pos(node_list, npos);
    match fo {
        Some(j) => {
            proof {
                lemma_find_pos_props(ns, npos, ns.len() as int);
            }
            let nj = node_list[j];
            if cg + 1 < nj.g && nj.open {
                let mut upd = nj;
                upd.g = cg + 1;
                upd.parent_index = Some(ci);
                node_list.set(j, upd);
                proof {
                    assert(upd == Node { parent_index: Some(ci), g: cand.g, ..ns[j as int] });
                    assert(step_neighbor(gcells, w, h, goal, ns, ci as int, k as int)
                        == (StepOutcome::Continue { nodes: node_list@ }));
                }
            } else {
                proof {
                    assert(step_neighbor(gcells, w, h, goal, ns, ci as int, k as int)
                        == (StepOutcome::Continue { nodes: ns }));
                }
            }
        },
        None => {
            node_list.push(cand);
            proof {
                assert(step_neighbor(gcells, w, h, goal, ns, ci as int, k as int)
                    == (StepOutcome::Continue { nodes: node_list@ }));
            }
        },
    }
    None
}

/// The trace written onto a cell sequence: each generated node's cell,
/// taken in trace order, becomes `Visited` when it is currently `Free`;
/// walls, endpoints and out-of-bounds positions are left alone.
pub open spec fn mark_visited_upto(
    cells: Seq<Cell>,
    w: int,
    h: int,
    trace: Seq<Node>,
    n: int,
) -> Seq<Cell>
    decreases n,
{
    if n <= 0 {
        cells
    } else {
        let prev = mark_visited_upto(cells, w, h, trace, n - 1);
        let p = trace[n - 1].pos;
        if pos_in_bounds(w, h, p) && cell_at_pos(prev, w, p) is Free {
            prev.update(p.x + p.y * w, Cell::Visited)
        } else {
            prev
        }
    }
}

/// The path written onto a cell sequence: each path position's cell,
/// taken in path order, becomes `Path` when it is currently `Free` or
/// `Visited`; walls, endpoints and out-of-bounds positions are left
/// alone.
pub open spec fn mark_path_upto(
    cells: Seq<Cell>,
    w: int,
    h: int,
    path: Seq<Position>,
    n: int,
) -> Seq<Cell>
    decreases n,
{
    if n <= 0 {
        cells
    } else {
        let prev = mark_path_upto(cells, w, h, path, n - 1);
        let p = path[n - 1];
        if pos_in_bounds(w, h, p) && (cell_at_pos(prev, w, p) is Free || cell_at_pos(
            prev,
            w,
            p,
        ) is Visited) {
            prev.update(p.x + p.y * w, Cell::Path)
        } else {
            prev
        }
    }
}

/// What a grid snapshot becomes once the search has run and its results
/// were written back: on success the trace's cells turn `Visited` and
/// then the path's cells turn `Path`; on failure nothing is written.
pub open spec fn marked_cells(base: Seq<Cell>, w: int, h: int, s: Position, g: Position) -> Seq<
    Cell,
> {
    match search_result(base, w, h, s, g) {
        SearchOutcome::Reached { trace } => mark_path_upto(
            mark_visited_upto(base, w, h, trace, trace.len() as int),
            w,
            h,
            result_path(trace),
            result_path(trace).len() as int,
        ),
        _ => base,
    }
}

impl Grid {
    /// Run the search from `start_pos` to `goal_pos` on this grid.
    ///
    /// With either endpoint absent nothing happens and nothing is
    /// returned. Otherwise stale path and visited markings are erased
    /// first, and the search runs on that snapshot: the result is
    /// exactly what the model `search_result` specifies — on success
    /// the path in goal-to-start order together with the full trace of
    /// generated nodes, on exhaustion nothing.
    ///
    /// An endpoint outside the grid is a caller contract violation,
    /// rejected here by precondition like an out-of-bounds `set_cell`
    /// rather than searched from; dimensions are capped at `MAX_DIM`
    /// so that squared distances and priorities fit `usize`.
    #[verifier::loop_isolation(false)]
    #[verifier::rlimit(100)]
    #[verifier::spinoff_prover]
    pub fn solve(&mut self, start_pos: Option<Position>, goal_pos: Option<Position>) -> (r: (
        Option<Vec<Position>>,
        Option<Vec<Node>>,
    ))
        requires
            old(self).wf(),
            old(self).width <= MAX_DIM,
            old(self).height <= MAX_DIM,
            start_pos matches Some(s) ==> old(self).in_bounds(s.x as int, s.y as int),
            goal_pos matches Some(g) ==> old(self).in_bounds(g.x as int, g.y as int),
        ensures
            final(self).wf(),
            final(self).width == old(self).width,
            final(self).height == old(self).height,
            start_pos is None || goal_pos is None ==> final(self).cells() == old(self).cells()
                && r.0 is None && r.1 is None,
            start_pos matches Some(s) ==> goal_pos matches Some(g) ==> {
                &&& final(self).cells() == unmarked(old(self).cells())
                &&& match search_result(
                    unmarked(old(self).cells()),
                    old(self).width as int,
                    old(self).height as int,
                    s,
                    g,
                ) {
                    SearchOutcome::Reached { trace } => (r.0 matches Some(p) && p@
                        == result_path(trace)) && (r.1 matches Some(t) && t@ == trace),
                    _ => r.0 is None && r.1 is None,
                }
            },
    {
        if start_pos.is_none() || goal_pos.is_none() {
            return (None, None);
        }
        let start = start_pos.unwrap();
        let goal = goal_pos.unwrap();
        self.clear_path();
        let ghost gcells = self.cells();
        let ghost w = self.width as int;
        let ghost h = self.height as int;
        proof {
            lemma_area_small(w, h);
        }

        let mut node_list: Vec<Node> = Vec::new();
        let h0 = heuristic(start, goal);
        proof {
            lemma_heuristic_small(w, h, start, goal);
        }
        node_list.push(Node { pos: start, parent_index: None, g: 0, h: h0, open: true });
        proof {
            assert(node_list@ =~= seq![start_node(start, goal)]);
        }

        if start == goal {
            let mut path: Vec<Position> = Vec::new();
            path.push(start);
            proof {
                let trace = seq![start_node(start, goal)];
                assert(result_path(trace) =~= seq![start]);
                assert(path@ =~= seq![start]);
            }
            return (Some(path), Some(node_list));
        }

        proof {
            assert(1 * 1 <= w * h) by (nonlinear_arith)
                requires
                    1 <= w,
                    1 <= h,
            {
            }
            assert(nodes_wf(gcells, w, h, start, goal, node_list@));
        }
        let ghost fuel0 = (w * h + 1) as nat;
        let ghost target = search_from(gcells, w, h, goal, node_list@, fuel0);
        let ghost mut fuel = fuel0;
        proof {
            assert(node_list@.drop_last() =~= Seq::<Node>::empty());
            assert(crate::search::num_open(Seq::<Node>::empty()) == 0);
            assert(crate::search::num_open(node_list@) == 1);
            assert(num_closed(node_list@) == 0);
        }

        loop
            invariant
                self.wf(),
                self.width == old(self).width,
                self.height == old(self).height,
                self.cells() == gcells,
                nodes_wf(gcells, w, h, start, goal, node_list@),
                search_from(gcells, w, h, goal, node_list@, fuel) == target,
                fuel >= 1 + w * h - num_closed(node_list@),
            decreases fuel,
        {
            let ghost pre = node_list@;
            proof {
                lemma_num_open_bounds(pre);
                assert(fuel > 0);
                crate::search::lemma_f_values_small(gcells, w, h, start, goal, node_list@);
            }
            let mo = min_open(&node_list);
            let ci = match mo {
                None => {
                    proof {
                        assert(search_from(gcells, w, h, goal, pre, fuel)
                            == SearchOutcome::Exhausted);
                    }
                    return (None, None);
                },
                Some(ci) => ci,
            };
            proof {
                lemma_min_open_props(pre, pre.len() as int);
            }
            let mut cn = node_list[ci];
            cn.open = false;
            node_list.set(ci, cn);
            proof {
                assert(cn == Node { open: false, ..pre[ci as int] });
                lemma_close_preserves(gcells, w, h, start, goal, pre, ci as int);
            }
            let ghost closed0 = node_list@;

            let mut found: Option<Node> = None;
            let mut k: usize = 0;
            while k < 4 && found.is_none()
                invariant
                    k <= 4,
                    nodes_wf(gcells, w, h, start, goal, node_list@),
                    num_closed(node_list@) == num_closed(closed0),
                    node_list@.len() >= closed0.len(),
                    node_list@[ci as int] == closed0[ci as int],
                    match found {
                        Some(gn) => expand_upto(gcells, w, h, goal, closed0, ci as int, 4)
                            == (StepOutcome::Reached { nodes: node_list@, goal_node: gn }),
                        None => expand_upto(gcells, w, h, goal, closed0, ci as int, k as int)
                            == (StepOutcome::Continue { nodes: node_list@ }),
                    },
                decreases 4 - k,
            {
                let ghost ns = node_list@;
                found = step_exec(self, goal, &mut node_list, ci, k, Ghost(start));
                proof {
                    lemma_step_preserves(gcells, w, h, start, goal, ns, ci as int, k as int);
                    match found {
                        Some(gn) => {
                            assert(expand_upto(gcells, w, h, goal, closed0, ci as int, k + 1)
                                == (StepOutcome::Reached { nodes: ns, goal_node: gn }));
                            lemma_expand_reached_stable(
                                gcells,
                                w,
                                h,
                                goal,
                                closed0,
                                ci as int,
                                k as int + 1,
                                4,
                            );
                        },
                        None => {
                            assert(expand_upto(gcells, w, h, goal, closed0, ci as int, k + 1)
                                == (StepOutcome::Continue { nodes: node_list@ }));
                        },
                    }
                }
                k = k + 1;
            }

            if let Some(gn) = found {
                let ghost ns = node_list@;
                node_list.push(gn);
                proof {
                    assert(search_from(gcells, w, h, goal, pre, fuel) == (SearchOutcome::Reached {
                        trace: ns.push(gn),
                    }));
                    assert(node_list@ == ns.push(gn));
                    lemma_expand_preserves(gcells, w, h, start, goal, closed0, ci as int, 4);
                    lemma_area_small(w, h);
                    crate::search::lemma_parents_ok_push(gcells, w, h, start, goal, ns, ci as int, gn);
                }
                let gi = node_list.len() - 1;
                let path = build_path(&node_list, gi);
                proof {
                    assert(path@ == result_path(node_list@));
                }
                return (Some(path), Some(node_list));
            }

            proof {
                assert(search_from(gcells, w, h, goal, pre, fuel) == search_from(
                    gcells,
                    w,
                    h,
                    goal,
                    node_list@,
                    (fuel - 1) as nat,
                ));
                fuel = (fuel - 1) as nat;
                assert(num_closed(node_list@) == num_closed(pre) + 1);
            }
        }
    }

    /// Run the search and write its results back onto the grid: every
    /// generated node's cell that is `Free` becomes `Visited`, then
    /// every path cell that is `Free` or `Visited` becomes `Path`. A
    /// failed or skipped search writes nothing; the grid then keeps
    /// only the effect of the stale-marking erasure the search begins
    /// with (or stays untouched entirely when an endpoint is absent).
    ///
    /// An endpoint outside the grid is a caller contract violation,
    /// rejected here by precondition like an out-of-bounds `set_cell`.
    #[verifier::loop_isolation(false)]
    #[verifier::rlimit(100)]
    #[verifier::spinoff_prover]
    pub fn create_path(&mut self, start_pos: Option<Position>, goal_pos: Option<Position>)
        requires
            old(self).wf(),
            old(self).width <= MAX_DIM,
            old(self).height <= MAX_DIM,
            start_pos matches Some(s) ==> old(self).in_bounds(s.x as int, s.y as int),
            goal_pos matches Some(g) ==> old(self).in_bounds(g.x as int, g.y as int),
        ensures
            final(self).wf(),
            final(self).width == old(self).width,
            final(self).height == old(self).height,
            start_pos is None || goal_pos is None ==> final(self).cells() == old(self).cells(),
            start_pos matches Some(s) ==> goal_pos matches Some(g) ==> final(self).cells()
                == marked_cells(
                unmarked(old(self).cells()),
                old(self).width as int,
                old(self).height as int,
                s,
                g,
            ),
    {
        let ghost w = old(self).width as int;
        let ghost h = old(self).height as int;
        let solution = self.solve(start_pos, goal_pos);
        let ghost base = self.cells();
        match solution {
            (Some(path), Some(visited)) => {
                let vn = visited.len();
                let mut i: usize = 0;
                while i < vn
                    invariant
                        i <= vn,
                        self.wf(),
                        self.width == old(self).width,
                        self.height == old(self).height,
                        self.cells() == mark_visited_upto(base, w, h, visited@, i as int),
                    decreases vn - i,
                {
                    let node = visited[i];
                    let px = node.pos.x;
                    let py = node.pos.y;
                    let ghost prev = self.cells();
                    if px >= 0 && py >= 0 {
                        match self.get_cell(px as usize, py as usize) {
                            Some(Cell::Free) => {
                                self.set_cell(px as usize, py as usize, Cell::Visited);
                            },
                            _ => {},
                        }
                    }
                    proof {
                        assert(self.cells() == mark_visited_upto(base, w, h, visited@, i + 1));
                    }
                    i = i + 1;
                }
                let ghost vis = self.cells();
                let pn = path.len();
                let mut j: usize = 0;
                while j < pn
                    invariant
                        j <= pn,
                        self.wf(),
                        self.width == old(self).width,
                        self.height == old(self).height,
                        self.cells() == mark_path_upto(vis, w, h, path@, j as int),
                    decreases pn - j,
                {
                    let p = path[j];
                    let ghost prev = self.cells();
                    if p.x >= 0 && p.y >= 0 {
                        match self.get_cell(p.x as usize, p.y as usize) {
                            Some(Cell::Free) | Some(Cell::Visited) => {
                                self.set_cell(p.x as usize, p.y as usize, Cell::Path);
                            },
                            _ => {},
                        }
                    }
                    proof {
                        assert(self.cells() == mark_path_upto(vis, w, h, path@, j + 1));
                    }
                    j = j + 1;
                }
            },
            _ => {},
        }
    }
}

/// Erasing path and visited markings neither creates nor removes a
/// wall.
proof fn lemma_unmark_preserves_walls(cells: Seq<Cell>, w: int, h: int, p: Position)
    requires
        cells.len() == w * h,
        pos_in_bounds(w, h, p),
    ensures
        cell_at_pos(unmarked(cells), w, p) is Wall <==> cell_at_pos(cells, w, p) is Wall,
{
    crate::grid::lemma_index_in_range(p.x as int, p.y as int, w, h);
}

/// Writing one marking over a cell that erases to the same state
/// leaves the erased sequence unchanged.
proof fn lemma_unmark_update(cells: Seq<Cell>, i: int, v: Cell)
    requires
        0 <= i < cells.len(),
        unmark_cell(v) == unmark_cell(cells[i]),
    ensures
        unmarked(cells.update(i, v)) == unmarked(cells),
{
    assert(unmarked(cells.update(i, v)) =~= unmarked(cells));
}

/// Visited markings vanish again under erasure: marking a trace and
/// then erasing gives the same cells as erasing alone.
proof fn lemma_unmark_mark_visited(cells: Seq<Cell>, w: int, h: int, trace: Seq<Node>, n: int)
    requires
        cells.len() == w * h,
        0 <= n,
    ensures
        mark_visited_upto(cells, w, h, trace, n).len() == cells.len(),
        unmarked(mark_visited_upto(cells, w, h, trace, n)) == unmarked(cells),
    decreases n,
{
    if n > 0 {
        lemma_unmark_mark_visited(cells, w, h, trace, n - 1);
        let prev = mark_visited_upto(cells, w, h, trace, n - 1);
        let p = trace[n - 1].pos;
        if pos_in_bounds(w, h, p) && cell_at_pos(prev, w, p) is Free {
            crate::grid::lemma_index_in_range(p.x as int, p.y as int, w, h);
            lemma_unmark_update(prev, p.x + p.y * w, Cell::Visited);
        }
    }
}

/// Path markings vanish again under erasure, the same way.
proof fn lemma_unmark_mark_path(cells: Seq<Cell>, w: int, h: int, path: Seq<Position>, n: int)
    requires
        cells.len() == w * h,
        0 <= n,
    ensures
        mark_path_upto(cells, w, h, path, n).len() == cells.len(),
        unmarked(mark_path_upto(cells, w, h, path, n)) == unmarked(cells),
    decreases n,
{
    if n > 0 {
        lemma_unmark_mark_path(cells, w, h, path, n - 1);
        let prev = mark_path_upto(cells, w, h, path, n - 1);
        let p = path[n - 1];
        if pos_in_bounds(w, h, p) && (cell_at_pos(prev, w, p) is Free || cell_at_pos(
            prev,
            w,
            p,
        ) is Visited) {
            crate::grid::lemma_index_in_range(p.x as int, p.y as int, w, h);
            lemma_unmark_update(prev, p.x + p.y * w, Cell::Path);
        }
    }
}

/// A goal whose in-bounds neighbors are all walls is never reached,
/// and writing the results back then changes nothing beyond the
/// initial erasure of stale markings: no visited or path marks appear.
pub proof fn lemma_enclosed_goal_adds_no_marks(
    cells: Seq<Cell>,
    w: int,
    h: int,
    s: Position,
    g: Position,
)
    requires
        cells.len() == w * h,
        w <= MAX_DIM as int,
        h <= MAX_DIM as int,
        pos_in_bounds(w, h, s),
        pos_in_bounds(w, h, g),
        s != g,
        !(cell_at_pos(cells, w, s) is Wall),
        forall|p: Position|
            pos_in_bounds(w, h, p) && #[trigger] touching(p, g) ==> cell_at_pos(
                cells,
                w,
                p,
            ) is Wall,
    ensures
        !(search_result(unmarked(cells), w, h, s, g) is Reached),
        marked_cells(unmarked(cells), w, h, s, g) == unmarked(cells),
{
    let base = unmarked(cells);
    assert forall|p: Position| pos_in_bounds(w, h, p) implies (cell_at_pos(
        base,
        w,
        p,
    ) is Wall <==> cell_at_pos(cells, w, p) is Wall) by {
        lemma_unmark_preserves_walls(cells, w, h, p);
    }
    assert(1 * 1 <= w * h) by (nonlinear_arith)
        requires
            1 <= w,
            1 <= h,
    {
    }
    lemma_heuristic_small(w, h, s, g);
    assert(nodes_wf(base, w, h, s, g, seq![start_node(s, g)]));
    lemma_search_enclosed(base, w, h, s, g, seq![start_node(s, g)], (w * h + 1) as nat);
}

/// Writing the search's results back is idempotent: erasing the fresh
/// markings returns the snapshot the search ran on, so a second run
/// searches the same snapshot, finds the same path and trace, and
/// leaves the same cells.
pub proof fn lemma_create_path_idempotent(
    cells: Seq<Cell>,
    w: int,
    h: int,
    s: Position,
    g: Position,
)
    requires
        cells.len() == w * h,
    ensures
        unmarked(marked_cells(unmarked(cells), w, h, s, g)) == unmarked(cells),
        search_result(unmarked(marked_cells(unmarked(cells), w, h, s, g)), w, h, s, g)
            == search_result(unmarked(cells), w, h, s, g),
        marked_cells(unmarked(marked_cells(unmarked(cells), w, h, s, g)), w, h, s, g)
            == marked_cells(unmarked(cells), w, h, s, g),
{
    let base = unmarked(cells);
    assert(unmarked(base) =~= base);
    assert(base.len() == w * h);
    match search_result(base, w, h, s, g) {
        SearchOutcome::Reached { trace } => {
            let vis = mark_visited_upto(base, w, h, trace, trace.len() as int);
            lemma_unmark_mark_visited(base, w, h, trace, trace.len() as int);
            lemma_unmark_mark_path(
                vis,
                w,
                h,
                result_path(trace),
                result_path(trace).len() as int,
            );
        },
        _ => {},
    }
}

} // verus!
