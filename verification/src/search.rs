//! The search model: arena nodes, the specification of one expansion step
//! and of the whole best-first search, and the invariants the arena keeps.
//!
//! The search is A*-style over 4-connected moves with a squared-Euclidean
//! heuristic, selecting the open node of least `f = g + h` (earliest index
//! on ties) and stopping the first time the goal is generated as a
//! neighbor. The exact expansion order is part of the contract: results
//! are a deterministic function of the grid snapshot and the endpoints.

use vstd::prelude::*;
use vstd::math::abs;
use vstd::set_lib::lemma_int_range;
use vstd::set_lib::lemma_len_subset;
use vstd::set_lib::set_int_range;
use crate::grid::Cell;
use crate::grid::MAX_DIM;
use crate::grid::Position;

verus! {

/// One record of the search arena: a cell reached by the search, its
/// parent by index into the arena (none for the start node), the cost
/// from the start, the heuristic estimate to the goal, and whether the
/// node is still open (not yet expanded).
#[derive(Clone, Copy, Debug)]
pub struct Node {
    pub pos: Position,
    pub parent_index: Option<usize>,
    pub g: usize,
    pub h: usize,
    pub open: bool,
}

/// The priority of a node: cost so far plus heuristic estimate.
pub open spec fn f_of(n: Node) -> int {
    n.g + n.h
}

/// Squared Euclidean distance between two positions.
pub open spec fn heuristic_spec(a: Position, b: Position) -> int {
    (a.x - b.x) * (a.x - b.x) + (a.y - b.y) * (a.y - b.y)
}

/// Two positions touch along one axis: `|dx| + |dy| == 1`.
pub open spec fn touching(a: Position, b: Position) -> bool {
    abs(a.x - b.x) + abs(a.y - b.y) == 1
}

pub open spec fn pos_in_bounds(w: int, h: int, p: Position) -> bool {
    0 <= p.x < w && 0 <= p.y < h
}

/// The cell a position refers to, in a row-major cell sequence.
pub open spec fn cell_at_pos(cells: Seq<Cell>, w: int, p: Position) -> Cell {
    cells[p.x + p.y * w]
}

/// The four axis-aligned movement offsets, in the fixed rotation order
/// the expansion uses: down, right, up, left.
pub open spec fn offset_for(k: int) -> (int, int) {
    if k == 0 {
        (0, 1)
    } else if k == 1 {
        (1, 0)
    } else if k == 2 {
        (0, -1)
    } else {
        (-1, 0)
    }
}

pub open spec fn neighbor_at(p: Position, k: int) -> Position {
    Position { x: (p.x + offset_for(k).0) as isize, y: (p.y + offset_for(k).1) as isize }
}

/// Index of the open node of least `f` among the first `n` nodes,
/// earliest index winning ties; `None` when none of them is open.
pub open spec fn min_open_upto(nodes: Seq<Node>, n: int) -> Option<int>
    decreases n,
{
    if n <= 0 {
        None
    } else {
        let prev = min_open_upto(nodes, n - 1);
        if nodes[n - 1].open {
            match prev {
                None => Some(n - 1),
                Some(b) => if f_of(nodes[n - 1]) < f_of(nodes[b]) {
                    Some(n - 1)
                } else {
                    Some(b)
                },
            }
        } else {
            prev
        }
    }
}

/// Index of the first node among the first `n` whose position is `p`.
pub open spec fn find_pos_upto(nodes: Seq<Node>, p: Position, n: int) -> Option<int>
    decreases n,
{
    if n <= 0 {
        None
    } else {
        match find_pos_upto(nodes, p, n - 1) {
            Some(i) => Some(i),
            None => if nodes[n - 1].pos == p {
                Some(n - 1)
            } else {
                None
            },
        }
    }
}

/// How many nodes of the arena are open.
pub open spec fn num_open(nodes: Seq<Node>) -> int
    decreases nodes.len(),
{
    if nodes.len() == 0 {
        0
    } else {
        num_open(nodes.drop_last()) + if nodes.last().open {
            1int
        } else {
            0
        }
    }
}

/// How many nodes of the arena are closed.
pub open spec fn num_closed(nodes: Seq<Node>) -> int {
    nodes.len() - num_open(nodes)
}

/// The positions from node `i` back along parent links to the start
/// node, the node itself first. Parent links of a well-formed arena
/// strictly decrease `g`, which bounds the walk; ill-formed links stop
/// the walk instead.
pub open spec fn chain(nodes: Seq<Node>, i: int) -> Seq<Position>
    decreases (if 0 <= i < nodes.len() { nodes[i].g as int } else { 0 }),
{
    if 0 <= i < nodes.len() {
        match nodes[i].parent_index {
            None => seq![nodes[i].pos],
            Some(p) => if p < nodes.len() && nodes[p as int].g < nodes[i].g {
                seq![nodes[i].pos] + chain(nodes, p as int)
            } else {
                seq![nodes[i].pos]
            },
        }
    } else {
        Seq::empty()
    }
}

/// What processing one neighbor does to the arena: either the neighbor
/// is the goal and the search stops with the freshly made goal node, or
/// the arena continues, possibly extended or with one node improved.
pub enum StepOutcome {
    Reached { nodes: Seq<Node>, goal_node: Node },
    Continue { nodes: Seq<Node> },
}

/// Process neighbor `k` of the current node `ci`: skip it when out of
/// bounds or a wall; stop the search when it is the goal; otherwise
/// improve an existing open node at that position when the new cost is
/// lower, or append a fresh open node when the position is new.
pub open spec fn step_neighbor(
    cells: Seq<Cell>,
    w: int,
    h: int,
    goal: Position,
    nodes: Seq<Node>,
    ci: int,
    k: int,
) -> StepOutcome {
    let npos = neighbor_at(nodes[ci].pos, k);
    let cand = Node {
        pos: npos,
        parent_index: Some(ci as usize),
        g: (nodes[ci].g + 1) as usize,
        h: heuristic_spec(npos, goal) as usize,
        open: true,
    };
    if !pos_in_bounds(w, h, npos) || cell_at_pos(cells, w, npos) is Wall {
        StepOutcome::Continue { nodes }
    } else if npos == goal {
        StepOutcome::Reached { nodes, goal_node: cand }
    } else {
        match find_pos_upto(nodes, npos, nodes.len() as int) {
            Some(j) => if cand.g < nodes[j].g && nodes[j].open {
                StepOutcome::Continue {
                    nodes: nodes.update(
                        j,
                        Node { parent_index: Some(ci as usize), g: cand.g, ..nodes[j] },
                    ),
                }
            } else {
                StepOutcome::Continue { nodes }
            },
            None => StepOutcome::Continue { nodes: nodes.push(cand) },
        }
    }
}

/// Process the first `k` neighbors of `ci` in rotation order, stopping
/// at the first one that turns out to be the goal.
pub open spec fn expand_upto(
    cells: Seq<Cell>,
    w: int,
    h: int,
    goal: Position,
    nodes: Seq<Node>,
    ci: int,
    k: int,
) -> StepOutcome
    decreases k,
{
    if k <= 0 {
        StepOutcome::Continue { nodes }
    } else {
        match expand_upto(cells, w, h, goal, nodes, ci, k - 1) {
            StepOutcome::Reached { nodes, goal_node } => StepOutcome::Reached { nodes, goal_node },
            StepOutcome::Continue { nodes } => step_neighbor(cells, w, h, goal, nodes, ci, k - 1),
        }
    }
}

/// The outcome of a search: the goal was generated and the arena with
/// the final goal node appended is the trace, or the open set was
/// exhausted, or the step budget ran out (which a well-formed arena
/// never does; see the budget reasoning in `Grid::solve`).
pub enum SearchOutcome {
    OutOfFuel,
    Exhausted,
    Reached { trace: Seq<Node> },
}

/// The main search loop: pick the open node of least `f`, close it,
/// expand its four neighbors, and repeat.
pub open spec fn search_from(
    cells: Seq<Cell>,
    w: int,
    h: int,
    goal: Position,
    nodes: Seq<Node>,
    fuel: nat,
) -> SearchOutcome
    decreases fuel,
{
    if fuel == 0 {
        SearchOutcome::OutOfFuel
    } else {
        match min_open_upto(nodes, nodes.len() as int) {
            None => SearchOutcome::Exhausted,
            Some(ci) => {
                let closed = nodes.update(ci, Node { open: false, ..nodes[ci] });
                match expand_upto(cells, w, h, goal, closed, ci, 4) {
                    StepOutcome::Reached { nodes, goal_node } => SearchOutcome::Reached {
                        trace: nodes.push(goal_node),
                    },
                    StepOutcome::Continue { nodes } => search_from(
                        cells,
                        w,
                        h,
                        goal,
                        nodes,
                        (fuel - 1) as nat,
                    ),
                }
            },
        }
    }
}

/// The node every search begins with.
pub open spec fn start_node(start: Position, goal: Position) -> Node {
    Node {
        pos: start,
        parent_index: None,
        g: 0,
        h: heuristic_spec(start, goal) as usize,
        open: true,
    }
}

/// The whole search as a function of the grid snapshot and endpoints.
/// A search whose start equals its goal stops as the start node is
/// generated: the trace is that single node.
pub open spec fn search_result(
    cells: Seq<Cell>,
    w: int,
    h: int,
    start: Position,
    goal: Position,
) -> SearchOutcome {
    if start == goal {
        SearchOutcome::Reached { trace: seq![start_node(start, goal)] }
    } else {
        search_from(cells, w, h, goal, seq![start_node(start, goal)], (w * h + 1) as nat)
    }
}

/// The path a successful search reports: goal first, start last,
/// walking parent links of the final goal node.
pub open spec fn result_path(trace: Seq<Node>) -> Seq<Position> {
    chain(trace, trace.len() - 1)
}

/// Every parent link points into the arena at a node of strictly
/// smaller cost; what the path walk needs.
pub open spec fn parents_ok(nodes: Seq<Node>) -> bool {
    forall|i: int|
        0 <= i < nodes.len() ==> match (#[trigger] nodes[i]).parent_index {
            Some(p) => p < nodes.len() && nodes[p as int].g < nodes[i].g,
            None => true,
        }
}

/// The invariant of the live arena during a search for `goal` from
/// `start` on a `w` by `h` grid: the start node sits at index 0 with
/// cost 0 and no parent; every node lies in bounds at a distinct
/// position, off walls (except possibly the start), never on the goal;
/// parent links are well-founded and join touching cells; costs stay
/// below the arena length; heuristics are the stated function.
pub open spec fn nodes_wf(
    cells: Seq<Cell>,
    w: int,
    h: int,
    start: Position,
    goal: Position,
    nodes: Seq<Node>,
) -> bool {
    &&& cells.len() == w * h
    &&& 1 <= nodes.len() <= w * h
    &&& nodes[0].pos == start
    &&& nodes[0].parent_index is None
    &&& nodes[0].g == 0
    &&& (forall|i: int| 1 <= i < nodes.len() ==> (#[trigger] nodes[i]).parent_index is Some)
    &&& (forall|i: int| 0 <= i < nodes.len() ==> pos_in_bounds(w, h, (#[trigger] nodes[i]).pos))
    &&& (forall|i: int, j: int|
        0 <= i < j < nodes.len() ==> (#[trigger] nodes[i]).pos != (#[trigger] nodes[j]).pos)
    &&& (forall|i: int|
        0 <= i < nodes.len() ==> match (#[trigger] nodes[i]).parent_index {
            Some(p) => p < nodes.len() && nodes[p as int].g < nodes[i].g && touching(
                nodes[p as int].pos,
                nodes[i].pos,
            ),
            None => true,
        })
    &&& (forall|i: int| 0 <= i < nodes.len() ==> (#[trigger] nodes[i]).g < nodes.len())
    &&& (forall|i: int|
        1 <= i < nodes.len() ==> !(cell_at_pos(cells, w, (#[trigger] nodes[i]).pos) is Wall))
    &&& (forall|i: int| 0 <= i < nodes.len() ==> (#[trigger] nodes[i]).pos != goal)
    &&& (forall|i: int|
        0 <= i < nodes.len() ==> (#[trigger] nodes[i]).h == heuristic_spec(nodes[i].pos, goal))
}

/// The minimum scan returns an open node of least `f`, or reports that
/// no node below `n` is open.
pub proof fn lemma_min_open_props(nodes: Seq<Node>, n: int)
    requires
        0 <= n <= nodes.len(),
    ensures
        match min_open_upto(nodes, n) {
            None => forall|j: int| 0 <= j < n ==> !(#[trigger] nodes[j]).open,
            Some(i) => 0 <= i < n && nodes[i].open && forall|j: int|
                0 <= j < n && (#[trigger] nodes[j]).open ==> f_of(nodes[i]) <= f_of(nodes[j]),
        },
    decreases n,
{
    if n > 0 {
        lemma_min_open_props(nodes, n - 1);
    }
}

/// The position scan returns a node at the position, or reports that no
/// node below `n` sits there.
pub proof fn lemma_find_pos_props(nodes: Seq<Node>, p: Position, n: int)
    requires
        0 <= n <= nodes.len(),
    ensures
        match find_pos_upto(nodes, p, n) {
            None => forall|j: int| 0 <= j < n ==> (#[trigger] nodes[j]).pos != p,
            Some(i) => 0 <= i < n && nodes[i].pos == p,
        },
    decreases n,
{
    if n > 0 {
        lemma_find_pos_props(nodes, p, n - 1);
    }
}

/// Once the position scan has found a first match, longer scans return
/// the same index.
pub proof fn lemma_find_pos_extend(nodes: Seq<Node>, p: Position, i: int, n: int)
    requires
        0 <= i < n <= nodes.len(),
        find_pos_upto(nodes, p, i + 1) == Some(i),
    ensures
        find_pos_upto(nodes, p, n) == Some(i),
    decreases n,
{
    if n > i + 1 {
        lemma_find_pos_extend(nodes, p, i, n - 1);
    }
}

pub proof fn lemma_num_open_bounds(nodes: Seq<Node>)
    ensures
        0 <= num_open(nodes) <= nodes.len(),
    decreases nodes.len(),
{
    if nodes.len() > 0 {
        lemma_num_open_bounds(nodes.drop_last());
    }
}

pub proof fn lemma_num_open_push(nodes: Seq<Node>, n2: Node)
    ensures
        num_open(nodes.push(n2)) == num_open(nodes) + if n2.open {
            1int
        } else {
            0int
        },
{
    assert(nodes.push(n2).drop_last() =~= nodes);
    assert(nodes.push(n2).last() == n2);
}

pub proof fn lemma_num_open_update(nodes: Seq<Node>, i: int, n2: Node)
    requires
        0 <= i < nodes.len(),
    ensures
        num_open(nodes.update(i, n2)) == num_open(nodes) - (if nodes[i].open {
            1int
        } else {
            0int
        }) + (if n2.open {
            1int
        } else {
            0int
        }),
    decreases nodes.len(),
{
    let t = nodes.update(i, n2);
    assert(t.len() == nodes.len());
    if i == nodes.len() - 1 {
        assert(t.drop_last() =~= nodes.drop_last());
        assert(t.last() == n2);
    } else {
        assert(t.drop_last() =~= nodes.drop_last().update(i, n2));
        assert(t.last() == nodes.last());
        lemma_num_open_update(nodes.drop_last(), i, n2);
    }
}

/// A sequence of distinct integers all lying in `[0, b)` has at most
/// `b` elements.
pub proof fn lemma_distinct_bounded(keys: Seq<int>, b: int)
    requires
        keys.no_duplicates(),
        forall|i: int| 0 <= i < keys.len() ==> 0 <= #[trigger] keys[i] < b,
        0 <= b,
    ensures
        keys.len() <= b,
{
    keys.unique_seq_to_set();
    assert forall|x: int| keys.to_set().contains(x) implies set_int_range(0, b).contains(x) by {
        let i = choose|i: int| 0 <= i < keys.len() && keys[i] == x;
        assert(0 <= keys[i] < b);
    }
    lemma_int_range(0, b);
    lemma_len_subset(keys.to_set(), set_int_range(0, b));
}

/// Row-major keys of in-bounds positions are injective.
pub proof fn lemma_key_injective(a: Position, b: Position, w: int, h: int)
    requires
        pos_in_bounds(w, h, a),
        pos_in_bounds(w, h, b),
        a.x + a.y * w == b.x + b.y * w,
    ensures
        a == b,
{
    assert(a.x == b.x && a.y == b.y) by (nonlinear_arith)
        requires
            0 <= a.x < w,
            0 <= b.x < w,
            0 <= a.y < h,
            0 <= b.y < h,
            a.x + a.y * w == b.x + b.y * w,
    {
    }
}

/// An arena of distinct in-bounds positions cannot outgrow the grid.
pub proof fn lemma_nodes_capacity(w: int, h: int, nodes: Seq<Node>)
    requires
        0 <= w,
        0 <= h,
        forall|i: int| 0 <= i < nodes.len() ==> pos_in_bounds(w, h, (#[trigger] nodes[i]).pos),
        forall|i: int, j: int|
            0 <= i < j < nodes.len() ==> (#[trigger] nodes[i]).pos != (#[trigger] nodes[j]).pos,
    ensures
        nodes.len() <= w * h,
{
    let keys = Seq::new(nodes.len(), |i: int| nodes[i].pos.x + nodes[i].pos.y * w);
    assert forall|i: int, j: int| 0 <= i < j < keys.len() implies keys[i] != keys[j] by {
        if keys[i] == keys[j] {
            lemma_key_injective(nodes[i].pos, nodes[j].pos, w, h);
        }
    }
    assert(keys.no_duplicates()) by {
        assert forall|i: int, j: int|
            0 <= i < keys.len() && 0 <= j < keys.len() && i != j implies keys[i] != keys[j] by {
            if i < j {
                assert(keys[i] != keys[j]);
            } else {
                assert(keys[j] != keys[i]);
            }
        }
    }
    assert forall|i: int| 0 <= i < keys.len() implies 0 <= #[trigger] keys[i] < w * h by {
        crate::grid::lemma_index_in_range(
            nodes[i].pos.x as int,
            nodes[i].pos.y as int,
            w,
            h,
        );
    }
    assert(0 <= w * h) by (nonlinear_arith)
        requires
            0 <= w,
            0 <= h,
    {
    }
    if nodes.len() > 0 {
        lemma_distinct_bounded(keys, w * h);
    }
}

/// The grid area of admissible dimensions fits comfortably in `usize`.
pub proof fn lemma_area_small(w: int, h: int)
    requires
        0 <= w <= MAX_DIM as int,
        0 <= h <= MAX_DIM as int,
    ensures
        0 <= w * h <= 100000000,
{
    assert(0 <= w * h <= 100000000) by (nonlinear_arith)
        requires
            0 <= w <= 10000,
            0 <= h <= 10000,
    {
    }
}

/// The heuristic between two in-bounds positions of an admissible grid
/// is a small non-negative number.
pub proof fn lemma_heuristic_small(w: int, h: int, a: Position, b: Position)
    requires
        w <= MAX_DIM as int,
        h <= MAX_DIM as int,
        pos_in_bounds(w, h, a),
        pos_in_bounds(w, h, b),
    ensures
        0 <= heuristic_spec(a, b) <= 200000000,
{
    assert(0 <= (a.x - b.x) * (a.x - b.x) + (a.y - b.y) * (a.y - b.y) <= 200000000)
        by (nonlinear_arith)
        requires
            -10000 <= a.x - b.x <= 10000,
            -10000 <= a.y - b.y <= 10000,
    {
    }
}

/// Closing the current node keeps the arena well formed and raises the
/// closed count by one.
pub proof fn lemma_close_preserves(
    cells: Seq<Cell>,
    w: int,
    h: int,
    start: Position,
    goal: Position,
    nodes: Seq<Node>,
    ci: int,
)
    requires
        nodes_wf(cells, w, h, start, goal, nodes),
        0 <= ci < nodes.len(),
        nodes[ci].open,
    ensures
        nodes_wf(cells, w, h, start, goal, nodes.update(ci, Node { open: false, ..nodes[ci] })),
        num_closed(nodes.update(ci, Node { open: false, ..nodes[ci] })) == num_closed(nodes) + 1,
        nodes.update(ci, Node { open: false, ..nodes[ci] }).len() == nodes.len(),
        nodes.update(ci, Node { open: false, ..nodes[ci] })[ci].g == nodes[ci].g,
        nodes.update(ci, Node { open: false, ..nodes[ci] })[ci].pos == nodes[ci].pos,
{
    let closed = nodes.update(ci, Node { open: false, ..nodes[ci] });
    lemma_num_open_update(nodes, ci, Node { open: false, ..nodes[ci] });
    assert(nodes_wf(cells, w, h, start, goal, closed)) by {
        assert(forall|i: int|
            0 <= i < closed.len() ==> (#[trigger] closed[i]).pos == nodes[i].pos
                && closed[i].parent_index == nodes[i].parent_index && closed[i].g == nodes[i].g
                && closed[i].h == nodes[i].h);
    }
}

/// Processing one neighbor keeps the arena well formed, never closes or
/// removes a node, and leaves the current node alone; when it reaches
/// the goal it reports exactly how the goal node was made.
#[verifier::rlimit(100)]
#[verifier::spinoff_prover]
pub proof fn lemma_step_preserves(
    cells: Seq<Cell>,
    w: int,
    h: int,
    start: Position,
    goal: Position,
    nodes: Seq<Node>,
    ci: int,
    k: int,
)
    requires
        nodes_wf(cells, w, h, start, goal, nodes),
        0 <= ci < nodes.len(),
        0 <= k < 4,
        w <= MAX_DIM as int,
        h <= MAX_DIM as int,
        pos_in_bounds(w, h, goal),
    ensures
        match step_neighbor(cells, w, h, goal, nodes, ci, k) {
            StepOutcome::Continue { nodes: ns } => {
                &&& nodes_wf(cells, w, h, start, goal, ns)
                &&& num_closed(ns) == num_closed(nodes)
                &&& ns.len() >= nodes.len()
                &&& ns[ci] == nodes[ci]
            },
            StepOutcome::Reached { nodes: ns, goal_node: gn } => {
                &&& ns == nodes
                &&& gn.pos == goal
                &&& gn.parent_index == Some(ci as usize)
                &&& gn.g == nodes[ci].g + 1
                &&& gn.open
                &&& !(cell_at_pos(cells, w, goal) is Wall)
                &&& touching(nodes[ci].pos, goal)
            },
        },
{
    let npos = neighbor_at(nodes[ci].pos, k);
    let dx = offset_for(k).0;
    let dy = offset_for(k).1;
    assert(pos_in_bounds(w, h, nodes[ci].pos));
    assert(npos.x == nodes[ci].pos.x + dx && npos.y == nodes[ci].pos.y + dy);
    assert(touching(nodes[ci].pos, npos));
    lemma_area_small(w, h);
    assert(nodes[ci].g + 1 <= nodes.len() <= w * h);
    let cand = Node {
        pos: npos,
        parent_index: Some(ci as usize),
        g: (nodes[ci].g + 1) as usize,
        h: heuristic_spec(npos, goal) as usize,
        open: true,
    };
    assert(cand.g == nodes[ci].g + 1);
    if !pos_in_bounds(w, h, npos) || cell_at_pos(cells, w, npos) is Wall {
    } else if npos == goal {
    } else {
        lemma_heuristic_small(w, h, npos, goal);
        assert(cand.h == heuristic_spec(npos, goal));
        lemma_find_pos_props(nodes, npos, nodes.len() as int);
        match find_pos_upto(nodes, npos, nodes.len() as int) {
            Some(j) => {
                if cand.g < nodes[j].g && nodes[j].open {
                    let n2 = Node { parent_index: Some(ci as usize), g: cand.g, ..nodes[j] };
                    let ns = nodes.update(j, n2);
                    assert(j != ci);
                    assert(j != 0) by {
                        assert(nodes[0].g == 0);
                    }
                    lemma_num_open_update(nodes, j, n2);
                    assert(nodes_wf(cells, w, h, start, goal, ns)) by {
                        assert forall|i: int|
                            0 <= i < ns.len() implies match (#[trigger] ns[i]).parent_index {
                            Some(p) => p < ns.len() && ns[p as int].g < ns[i].g && touching(
                                ns[p as int].pos,
                                ns[i].pos,
                            ),
                            None => true,
                        } by {
                            if i == j {
                                assert(ns[ci] == nodes[ci]);
                            } else {
                                match nodes[i].parent_index {
                                    Some(p) => {
                                        if p as int == j {
                                            assert(ns[j].g < nodes[j].g);
                                        }
                                    },
                                    None => {},
                                }
                            }
                        }
                    }
                } else {
                }
            },
            None => {
                let ns = nodes.push(cand);
                lemma_num_open_push(nodes, cand);
                assert forall|i: int|
                    0 <= i < ns.len() implies pos_in_bounds(w, h, (#[trigger] ns[i]).pos) by {}
                assert forall|i: int, j: int|
                    0 <= i < j < ns.len() implies (#[trigger] ns[i]).pos != (
                #[trigger] ns[j]).pos by {
                    if j == nodes.len() {
                        assert(nodes[i].pos != npos);
                    }
                }
                lemma_nodes_capacity(w, h, ns);
                assert(nodes_wf(cells, w, h, start, goal, ns));
            },
        }
    }
}

/// Processing up to four neighbors in order preserves everything one
/// step does.
pub proof fn lemma_expand_preserves(
    cells: Seq<Cell>,
    w: int,
    h: int,
    start: Position,
    goal: Position,
    nodes: Seq<Node>,
    ci: int,
    k: int,
)
    requires
        nodes_wf(cells, w, h, start, goal, nodes),
        0 <= ci < nodes.len(),
        0 <= k <= 4,
        w <= MAX_DIM as int,
        h <= MAX_DIM as int,
        pos_in_bounds(w, h, goal),
    ensures
        match expand_upto(cells, w, h, goal, nodes, ci, k) {
            StepOutcome::Continue { nodes: ns } => {
                &&& nodes_wf(cells, w, h, start, goal, ns)
                &&& num_closed(ns) == num_closed(nodes)
                &&& ns.len() >= nodes.len()
                &&& ns[ci] == nodes[ci]
            },
            StepOutcome::Reached { nodes: ns, goal_node: gn } => {
                &&& nodes_wf(cells, w, h, start, goal, ns)
                &&& num_closed(ns) == num_closed(nodes)
                &&& ns.len() >= nodes.len()
                &&& ns[ci] == nodes[ci]
                &&& gn.pos == goal
                &&& gn.parent_index == Some(ci as usize)
                &&& gn.g == nodes[ci].g + 1
                &&& gn.open
                &&& !(cell_at_pos(cells, w, goal) is Wall)
                &&& touching(nodes[ci].pos, goal)
            },
        },
    decreases k,
{
    if k > 0 {
        lemma_expand_preserves(cells, w, h, start, goal, nodes, ci, k - 1);
        match expand_upto(cells, w, h, goal, nodes, ci, k - 1) {
            StepOutcome::Reached { nodes: ns, goal_node } => {},
            StepOutcome::Continue { nodes: ns } => {
                lemma_step_preserves(cells, w, h, start, goal, ns, ci, k - 1);
            },
        }
    }
}

/// Once some prefix of the neighbor loop has reached the goal, longer
/// prefixes report the same outcome.
pub proof fn lemma_expand_reached_stable(
    cells: Seq<Cell>,
    w: int,
    h: int,
    goal: Position,
    nodes: Seq<Node>,
    ci: int,
    k: int,
    k2: int,
)
    requires
        0 <= k <= k2,
        expand_upto(cells, w, h, goal, nodes, ci, k) is Reached,
    ensures
        expand_upto(cells, w, h, goal, nodes, ci, k2) == expand_upto(cells, w, h, goal, nodes, ci, k),
    decreases k2,
{
    if k2 > k {
        lemma_expand_reached_stable(cells, w, h, goal, nodes, ci, k, k2 - 1);
    }
}

/// What the trace of a finished search guarantees: the start node sits
/// at index 0, parent links are well-founded and join touching
/// in-bounds cells, and no node but possibly the start sits on a wall.
pub open spec fn trace_ok(
    cells: Seq<Cell>,
    w: int,
    h: int,
    start: Position,
    trace: Seq<Node>,
) -> bool {
    &&& 1 <= trace.len()
    &&& trace[0].pos == start
    &&& trace[0].parent_index is None
    &&& (forall|i: int| 1 <= i < trace.len() ==> (#[trigger] trace[i]).parent_index is Some)
    &&& (forall|i: int| 0 <= i < trace.len() ==> pos_in_bounds(w, h, (#[trigger] trace[i]).pos))
    &&& (forall|i: int|
        0 <= i < trace.len() ==> match (#[trigger] trace[i]).parent_index {
            Some(p) => p < trace.len() && trace[p as int].g < trace[i].g && touching(
                trace[p as int].pos,
                trace[i].pos,
            ),
            None => true,
        })
    &&& (forall|i: int|
        1 <= i < trace.len() ==> !(cell_at_pos(cells, w, (#[trigger] trace[i]).pos) is Wall))
}

/// Walking parent links from any node of a well-formed trace yields a
/// non-empty sequence that begins at that node, ends at the start,
/// moves one cell per step, avoids walls everywhere but possibly at
/// the start, and is at least as long as the Manhattan distance covered.
pub proof fn lemma_chain_props(
    cells: Seq<Cell>,
    w: int,
    h: int,
    start: Position,
    trace: Seq<Node>,
    i: int,
)
    requires
        trace_ok(cells, w, h, start, trace),
        0 <= i < trace.len(),
    ensures
        ({
            let p = chain(trace, i);
            &&& 1 <= p.len()
            &&& p[0] == trace[i].pos
            &&& p[p.len() - 1] == start
            &&& (forall|j: int| 0 <= j < p.len() - 1 ==> !(cell_at_pos(cells, w, #[trigger] p[j]) is Wall))
            &&& (forall|j: int| 0 <= j < p.len() - 1 ==> touching(p[j + 1], #[trigger] p[j]))
            &&& (forall|j: int| 0 <= j < p.len() ==> pos_in_bounds(w, h, #[trigger] p[j]))
            &&& p.len() >= abs(trace[i].pos.x - start.x) + abs(trace[i].pos.y - start.y) + 1
        }),
    decreases trace[i].g,
{
    let p = chain(trace, i);
    match trace[i].parent_index {
        None => {
            assert(i == 0) by {
                if i >= 1 {
                    assert(trace[i].parent_index is Some);
                }
            }
            assert(p =~= seq![start]);
        },
        Some(q) => {
            let q = q as int;
            assert(q < trace.len() && trace[q].g < trace[i].g);
            lemma_chain_props(cells, w, h, start, trace, q);
            let rest = chain(trace, q);
            assert(p =~= seq![trace[i].pos] + rest);
            assert(p.len() == 1 + rest.len());
            assert(p[0] == trace[i].pos);
            assert(p[p.len() - 1] == rest[rest.len() - 1]);
            assert(i >= 1) by {
                if i == 0 {
                    assert(trace[0].parent_index is None);
                }
            }
            assert forall|j: int| 0 <= j < p.len() - 1 implies !(cell_at_pos(
                cells,
                w,
                #[trigger] p[j],
            ) is Wall) by {
                if j == 0 {
                    assert(!(cell_at_pos(cells, w, trace[i].pos) is Wall));
                } else {
                    assert(p[j] == rest[j - 1]);
                }
            }
            assert forall|j: int| 0 <= j < p.len() - 1 implies touching(p[j + 1], #[trigger] p[j]) by {
                if j == 0 {
                    assert(p[1] == rest[0]);
                    assert(rest[0] == trace[q].pos);
                    assert(touching(trace[q].pos, trace[i].pos));
                } else {
                    assert(p[j] == rest[j - 1] && p[j + 1] == rest[j]);
                }
            }
            assert(rest.len() >= abs(trace[q].pos.x - start.x) + abs(trace[q].pos.y - start.y) + 1);
            assert(touching(trace[q].pos, trace[i].pos));
        },
    }
}

/// Appending the freshly made goal node to a well-formed arena yields a
/// well-formed trace ending on the goal.
pub proof fn lemma_trace_ok_push(
    cells: Seq<Cell>,
    w: int,
    h: int,
    start: Position,
    goal: Position,
    ns: Seq<Node>,
    ci: int,
    gn: Node,
)
    requires
        nodes_wf(cells, w, h, start, goal, ns),
        ns.len() <= usize::MAX,
        0 <= ci < ns.len(),
        gn.pos == goal,
        gn.parent_index == Some(ci as usize),
        gn.g == ns[ci].g + 1,
        pos_in_bounds(w, h, goal),
        !(cell_at_pos(cells, w, goal) is Wall),
        touching(ns[ci].pos, goal),
    ensures
        trace_ok(cells, w, h, start, ns.push(gn)),
        ns.push(gn).len() >= 2,
        ns.push(gn)[ns.push(gn).len() - 1].pos == goal,
{
    let trace = ns.push(gn);
    assert(trace[trace.len() - 1] == gn);
    assert(trace[0] == ns[0]);
    assert forall|i: int|
        0 <= i < trace.len() implies match (#[trigger] trace[i]).parent_index {
        Some(p) => p < trace.len() && trace[p as int].g < trace[i].g && touching(
            trace[p as int].pos,
            trace[i].pos,
        ),
        None => true,
    } by {
        if i < ns.len() {
            assert(trace[i] == ns[i]);
            match ns[i].parent_index {
                Some(p) => {
                    assert(p < ns.len() && ns[p as int].g < ns[i].g && touching(
                        ns[p as int].pos,
                        ns[i].pos,
                    ));
                    assert(trace[p as int] == ns[p as int]);
                },
                None => {},
            }
        } else {
            assert(trace[i] == gn);
            assert(trace[ci] == ns[ci]);
        }
    }
}

/// A successful search always hands back a well-formed trace whose
/// final node sits on the goal, off a wall.
pub proof fn lemma_search_reached_ok(
    cells: Seq<Cell>,
    w: int,
    h: int,
    start: Position,
    goal: Position,
    nodes: Seq<Node>,
    fuel: nat,
)
    requires
        nodes_wf(cells, w, h, start, goal, nodes),
        w <= MAX_DIM as int,
        h <= MAX_DIM as int,
        pos_in_bounds(w, h, goal),
    ensures
        match search_from(cells, w, h, goal, nodes, fuel) {
            SearchOutcome::Reached { trace } => {
                &&& trace_ok(cells, w, h, start, trace)
                &&& trace.len() >= 2
                &&& trace[trace.len() - 1].pos == goal
                &&& !(cell_at_pos(cells, w, goal) is Wall)
            },
            _ => true,
        },
    decreases fuel,
{
    if fuel > 0 {
        let n = nodes.len() as int;
        lemma_min_open_props(nodes, n);
        match min_open_upto(nodes, n) {
            None => {},
            Some(ci) => {
                lemma_close_preserves(cells, w, h, start, goal, nodes, ci);
                let closed = nodes.update(ci, Node { open: false, ..nodes[ci] });
                lemma_expand_preserves(cells, w, h, start, goal, closed, ci, 4);
                match expand_upto(cells, w, h, goal, closed, ci, 4) {
                    StepOutcome::Reached { nodes: ns, goal_node: gn } => {
                        lemma_area_small(w, h);
                        lemma_trace_ok_push(cells, w, h, start, goal, ns, ci, gn);
                    },
                    StepOutcome::Continue { nodes: ns } => {
                        lemma_search_reached_ok(cells, w, h, start, goal, ns, (fuel - 1) as nat);
                    },
                }
            },
        }
    }
}

/// A goal whose open neighbors are all walls is never reached, as long
/// as the start itself does not sit on a wall.
pub proof fn lemma_search_enclosed(
    cells: Seq<Cell>,
    w: int,
    h: int,
    start: Position,
    goal: Position,
    nodes: Seq<Node>,
    fuel: nat,
)
    requires
        nodes_wf(cells, w, h, start, goal, nodes),
        w <= MAX_DIM as int,
        h <= MAX_DIM as int,
        pos_in_bounds(w, h, goal),
        !(cell_at_pos(cells, w, start) is Wall),
        forall|p: Position|
            pos_in_bounds(w, h, p) && #[trigger] touching(p, goal) ==> cell_at_pos(
                cells,
                w,
                p,
            ) is Wall,
    ensures
        !(search_from(cells, w, h, goal, nodes, fuel) is Reached),
    decreases fuel,
{
    if fuel > 0 {
        let n = nodes.len() as int;
        lemma_min_open_props(nodes, n);
        match min_open_upto(nodes, n) {
            None => {},
            Some(ci) => {
                lemma_close_preserves(cells, w, h, start, goal, nodes, ci);
                let closed = nodes.update(ci, Node { open: false, ..nodes[ci] });
                lemma_expand_preserves(cells, w, h, start, goal, closed, ci, 4);
                match expand_upto(cells, w, h, goal, closed, ci, 4) {
                    StepOutcome::Reached { nodes: ns, goal_node: gn } => {
                        assert(touching(closed[ci].pos, goal));
                        assert(pos_in_bounds(w, h, closed[ci].pos));
                        assert(cell_at_pos(cells, w, closed[ci].pos) is Wall);
                        if ci == 0 {
                            assert(closed[0].pos == start);
                        } else {
                            assert(!(cell_at_pos(cells, w, closed[ci].pos) is Wall));
                        }
                    },
                    StepOutcome::Continue { nodes: ns } => {
                        lemma_search_enclosed(cells, w, h, start, goal, ns, (fuel - 1) as nat);
                    },
                }
            },
        }
    }
}

/// Every priority of a well-formed arena on an admissible grid fits
/// comfortably in 32 bits.
pub proof fn lemma_f_values_small(
    cells: Seq<Cell>,
    w: int,
    h: int,
    start: Position,
    goal: Position,
    nodes: Seq<Node>,
)
    requires
        nodes_wf(cells, w, h, start, goal, nodes),
        w <= MAX_DIM as int,
        h <= MAX_DIM as int,
        pos_in_bounds(w, h, goal),
    ensures
        forall|t: int| 0 <= t < nodes.len() ==> f_of(#[trigger] nodes[t]) <= 0x7fffffff,
{
    lemma_area_small(w, h);
    assert forall|t: int| 0 <= t < nodes.len() implies f_of(#[trigger] nodes[t])
        <= 0x7fffffff by {
        lemma_heuristic_small(w, h, nodes[t].pos, goal);
    }
}

/// Appending the freshly made goal node keeps every parent link
/// well-founded, which the path walk needs.
pub proof fn lemma_parents_ok_push(
    cells: Seq<Cell>,
    w: int,
    h: int,
    start: Position,
    goal: Position,
    nodes: Seq<Node>,
    ci: int,
    gn: Node,
)
    requires
        nodes_wf(cells, w, h, start, goal, nodes),
        nodes.len() <= usize::MAX,
        0 <= ci < nodes.len(),
        gn.parent_index == Some(ci as usize),
        nodes[ci].g < gn.g,
    ensures
        parents_ok(nodes.push(gn)),
{
    let trace = nodes.push(gn);
    assert forall|t: int|
        0 <= t < trace.len() implies match (#[trigger] trace[t]).parent_index {
        Some(p) => p < trace.len() && trace[p as int].g < trace[t].g,
        None => true,
    } by {
        if t < nodes.len() {
            assert(trace[t] == nodes[t]);
            match nodes[t].parent_index {
                Some(p) => {
                    assert(p < nodes.len() && nodes[p as int].g < nodes[t].g);
                    assert(trace[p as int] == nodes[p as int]);
                },
                None => {},
            }
        } else {
            assert(trace[t] == gn);
            assert(trace[ci] == nodes[ci]);
        }
    }
}

} // verus!
