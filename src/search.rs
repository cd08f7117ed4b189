use vstd::prelude::*;

use std::collections::HashMap;

use crate::board::{
    board_wf, code, code_bound, goal, is_move, is_walk, lemma_blank_exists, lemma_code_bound,
    lemma_code_injective, lemma_move_changes, lemma_pow9_nine,
    lemma_swap_wf, neighbor, neighbor_cell, swap_cells, walk_end, Board,
};
use crate::frontier::Frontier;
use crate::heuristic::{heuristic, lemma_heuristic_step, lemma_heuristic_zero_iff_goal, manhatten_cost};

verus! {

/// A search node: a board, how it was reached, and its estimated total cost.
#[derive(Clone, Copy, Debug)]
pub struct State {
    pub board: Board,
    /// Moves from the start board to this board along the parent chain.
    pub cost: usize,
    /// Manhattan-distance estimate of the moves still needed.
    pub heuristic: usize,
    /// `cost + heuristic`; the frontier hands out the least first.
    pub priority: usize,
    /// Index of the node this one was generated from; `None` for the start.
    pub parent: Option<usize>,
}

/// How a search ended.
#[derive(Clone, Debug)]
pub enum Outcome {
    /// The goal was reached; `moves` are the boards after each move, in order.
    Solved { moves: Vec<Board>, expanded: usize },
    /// Every board reachable from the start was expanded without meeting the goal.
    Exhausted { expanded: usize },
    /// The configured number of expansions was used up.
    BudgetExceeded { limit: usize, expanded: usize },
}

/// The boards of a list, as cell sequences.
pub open spec fn boards_view(v: Seq<Board>) -> Seq<Seq<u8>> {
    v.map_values(|b: Board| b@)
}

/// Node `i` of the arena is consistent with its parent link.
pub open spec fn node_ok(nodes: Seq<State>, i: int) -> bool {
    let n = nodes[i];
    &&& board_wf(n.board@)
    &&& n.heuristic == heuristic(n.board@)
    &&& n.priority == n.cost + n.heuristic
    &&& match n.parent {
        None => i == 0 && n.cost == 0,
        Some(j) => 0 <= j < i && is_move(nodes[j as int].board@, n.board@) && n.cost == nodes[j as int].cost + 1,
    }
}

/// Every node of the arena is consistent with its parent link.
pub open spec fn arena_ok(nodes: Seq<State>) -> bool {
    forall|i: int| 0 <= i < nodes.len() ==> #[trigger] node_ok(nodes, i)
}

/// The ancestor of node `i` reached by following parent links while the
/// cost stays above `k`.
pub open spec fn ancestor(nodes: Seq<State>, i: int, k: int) -> int
    decreases i,
{
    if 0 <= i < nodes.len() && nodes[i].cost > k {
        match nodes[i].parent {
            Some(j) => if 0 <= j < i {
                ancestor(nodes, j as int, k)
            } else {
                i
            },
            None => i,
        }
    } else {
        i
    }
}

proof fn lemma_ancestor_step(nodes: Seq<State>, i: int, k: int)
    requires
        arena_ok(nodes),
        0 <= i < nodes.len(),
        1 <= k <= nodes[i].cost,
    ensures
        0 <= ancestor(nodes, i, k) < nodes.len(),
        nodes[ancestor(nodes, i, k)].cost == k,
        ancestor(nodes, i, k - 1) == ancestor(nodes, ancestor(nodes, i, k), k - 1),
    decreases i,
{
    assert(node_ok(nodes, i));
    if nodes[i].cost > k {
        let j = nodes[i].parent.unwrap() as int;
        lemma_ancestor_step(nodes, j, k);
    }
}

/// Every frontier entry names an arena node under that node's priority.
pub open spec fn frontier_ok(frontier: Frontier, nodes: Seq<State>) -> bool {
    &&& frontier.wf()
    &&& forall|p: int, x: usize|
        #[trigger] frontier.has(p, x) ==> x < nodes.len() && p == nodes[x as int].priority
}

/// Some node on the frontier holds board `s` at a cost of at most `c`.
pub open spec fn in_frontier(frontier: Frontier, nodes: Seq<State>, s: Seq<u8>, c: int) -> bool {
    exists|p: int, x: usize|
        #[trigger] frontier.has(p, x) && nodes[x as int].board@ == s && nodes[x as int].cost <= c
}

/// Every move from the board of `nodes[x]` leads to a visited board, or to a
/// board waiting on the frontier at most one move dearer than `nodes[x]`.
pub open spec fn successors_covered(
    visited: Map<u64, usize>,
    frontier: Frontier,
    nodes: Seq<State>,
    x: int,
) -> bool {
    forall|s: Seq<u8>|
        #[trigger] is_move(nodes[x].board@, s) ==> visited.contains_key(code(s) as u64)
            || in_frontier(frontier, nodes, s, nodes[x].cost + 1)
}

/// The board at position `j` of a walk from `start`; position `0` is `start`.
pub open spec fn walk_at(start: Seq<u8>, moves: Seq<Seq<u8>>, j: int) -> Seq<u8> {
    if j == 0 { start } else { moves[j - 1] }
}

/// No walk from `start` reaches `b` in fewer than `c` moves.
pub open spec fn no_shorter_walk(start: Seq<u8>, b: Seq<u8>, c: int) -> bool {
    forall|w: Seq<Seq<u8>>|
        #[trigger] is_walk(start, w) && walk_end(start, w) == b ==> c <= w.len()
}

/// Some walk leads from `start` to the goal.
pub open spec fn goal_reachable(start: Seq<u8>) -> bool {
    exists|w: Seq<Seq<u8>>| #[trigger] is_walk(start, w) && walk_end(start, w) == goal()
}

/// The keys of the boards that some walk from `start` reaches. Keys are
/// one-to-one on boards (`lemma_code_injective`), so this set has one member
/// per reachable board.
pub open spec fn reachable_keys(start: Seq<u8>) -> Set<u64> {
    Set::new(
        |k: u64|
            exists|w: Seq<Seq<u8>>| #[trigger]
                is_walk(start, w) && code(walk_end(start, w)) as u64 == k,
    )
}

/// The keys of the boards that some walk from `start` reaches in no more
/// moves than any walk from `start` to the goal.
pub open spec fn near_keys(start: Seq<u8>) -> Set<u64> {
    Set::new(
        |k: u64|
            exists|w: Seq<Seq<u8>>| #[trigger]
                is_walk(start, w) && code(walk_end(start, w)) as u64 == k && no_shorter_walk(
                    start,
                    goal(),
                    w.len() as int,
                ),
    )
}

/// `n` distinct boards other than the goal, each reachable from `start` in
/// no more moves than the goal, given by their keys.
pub open spec fn expanded_boards(start: Seq<u8>, n: int) -> bool {
    exists|keys: Set<u64>|
        #![trigger keys.len()]
        keys.finite() && keys.len() == n && keys.subset_of(near_keys(start)) && !keys.contains(
            code(goal()) as u64,
        )
}

/// Every move from a member of `s` leads to a member of `s`.
pub open spec fn move_closed(s: Set<Seq<u8>>) -> bool {
    forall|a: Seq<u8>, b: Seq<u8>| s.contains(a) && #[trigger] is_move(a, b) ==> s.contains(b)
}

/// No sequence of moves leads from `start` to the goal.
pub open spec fn goal_unreachable(start: Seq<u8>) -> bool {
    exists|s: Set<Seq<u8>>| s.contains(start) && !s.contains(goal()) && move_closed(s)
}

impl State {
    /// The start node for `board`: no moves made, no parent.
    pub fn new(board: Board) -> (r: State)
        requires
            board_wf(board@),
        ensures
            r.board == board,
            r.cost == 0,
            r.heuristic == heuristic(board@),
            r.priority == r.heuristic,
            r.parent is None,
    {
        let h = manhatten_cost(&board);
        State { board, cost: 0, heuristic: h, priority: h, parent: None }
    }
}

/// Whether the node holds the goal board.
pub fn is_finished(s: &State) -> (r: bool)
    ensures
        r == (s.board@ == goal()),
{
    s.board.is_goal()
}

/// The boards along the parent chain of node `idx`, from the move after the
/// root node's board up to the board of `idx`.
pub fn path(nodes: &Vec<State>, idx: usize) -> (moves: Vec<Board>)
    requires
        arena_ok(nodes@),
        idx < nodes.len(),
    ensures
        moves@.len() == nodes@[idx as int].cost,
        is_walk(nodes@[0].board@, boards_view(moves@)),
        walk_end(nodes@[0].board@, boards_view(moves@)) == nodes@[idx as int].board@,
        forall|m: int|
            0 <= m < moves@.len() ==> #[trigger] moves@[m] == nodes@[ancestor(
                nodes@,
                idx as int,
                m + 1,
            )].board,
{
    let last = nodes[idx].board;
    let total = nodes[idx].cost;
    let mut moves: Vec<Board> = Vec::new();
    while moves.len() < total
        invariant
            moves.len() <= total,
            forall|m: int| 0 <= m < moves.len() ==> #[trigger] moves@[m] == last,
        decreases total - moves.len(),
    {
        moves.push(last);
    }
    let mut cur = idx;
    let mut k = total;
    assert(node_ok(nodes@, idx as int));
    while nodes[cur].parent.is_some()
        invariant
            arena_ok(nodes@),
            cur < nodes.len(),
            k == nodes@[cur as int].cost,
            k <= total,
            moves.len() == total,
            total == nodes@[idx as int].cost,
            last == nodes@[idx as int].board,
            forall|m: int| k <= m < total ==> is_move(
                if m == k { nodes@[cur as int].board@ } else { moves@[m - 1]@ },
                #[trigger] moves@[m]@,
            ),
            k == total ==> cur == idx,
            k < total ==> moves@[total - 1] == last,
            cur == ancestor(nodes@, idx as int, k as int),
            forall|m: int|
                k <= m < total ==> #[trigger] moves@[m] == nodes@[ancestor(
                    nodes@,
                    idx as int,
                    m + 1,
                )].board,
        decreases cur,
    {
        assert(node_ok(nodes@, cur as int));
        let j = nodes[cur].parent.unwrap();
        assert(node_ok(nodes@, j as int));
        proof {
            lemma_ancestor_step(nodes@, idx as int, k as int);
            assert(ancestor(nodes@, j as int, k - 1) == j);
            assert(ancestor(nodes@, cur as int, k - 1) == j);
        }
        let b = nodes[cur].board;
        moves.set(k - 1, b);
        k = k - 1;
        cur = j;
    }
    assert(node_ok(nodes@, cur as int));
    let ghost v = boards_view(moves@);
    assert forall|m: int| 0 <= m < v.len() implies is_move(
        if m == 0 { nodes@[0].board@ } else { v[m - 1] },
        #[trigger] v[m],
    ) by {
        assert(is_move(
            if m == k { nodes@[cur as int].board@ } else { moves@[m - 1]@ },
            moves@[m]@,
        ));
    }
    moves
}

/// Bounds the number of keys of a finite set of keys below `n`.
proof fn lemma_keys_bounded(s: Set<u64>, n: nat)
    requires
        s.finite(),
        n <= u64::MAX,
        forall|x: u64| s.contains(x) ==> (x as nat) < n,
    ensures
        s.len() <= n,
    decreases n,
{
    if n == 0 {
        assert(s =~= Set::empty());
    } else {
        let m = (n - 1) as u64;
        let t = s.remove(m);
        lemma_keys_bounded(t, (n - 1) as nat);
    }
}

/// Moving the blank in two different directions gives two different boards.
proof fn lemma_swaps_differ(b: Seq<u8>, p: int, e: int, d: int)
    requires
        board_wf(b),
        0 <= p < 9,
        b[p] == 0,
        0 <= e < 4,
        0 <= d < 4,
        e != d,
        neighbor(p, e) >= 0,
        neighbor(p, d) >= 0,
    ensures
        swap_cells(b, p, neighbor(p, e)) != swap_cells(b, p, neighbor(p, d)),
{
    let qe = neighbor(p, e);
    let qd = neighbor(p, d);
    assert(qe != qd);
    assert(qd != p);
    if qd < p {
        assert(b[qd] != b[p]);
    } else {
        assert(b[p] != b[qd]);
    }
    assert(swap_cells(b, p, qd)[qd] == 0);
    assert(swap_cells(b, p, qe)[qd] == b[qd]);
}

/// Expands node `curr`: marks its board as visited, then adds a node to the
/// arena and the frontier for each move to a board not yet visited.
pub fn expand(
    nodes: &mut Vec<State>,
    frontier: &mut Frontier,
    visited: &mut HashMap<u64, usize>,
    curr: usize,
)
    requires
        arena_ok(old(nodes)@),
        frontier_ok(*old(frontier), old(nodes)@),
        curr < old(nodes).len(),
        !old(visited)@.contains_key(code(old(nodes)@[curr as int].board@) as u64),
        old(nodes)@[curr as int].cost + 37 <= usize::MAX,
        old(nodes).len() + 4 <= usize::MAX,
        old(frontier).size() + 4 < usize::MAX,
    ensures
        final(visited)@ == old(visited)@.insert(
            code(old(nodes)@[curr as int].board@) as u64,
            curr,
        ),
        final(visited)@.len() == old(visited)@.len() + 1,
        old(nodes).len() <= final(nodes).len() <= old(nodes).len() + 4,
        forall|i: int| 0 <= i < old(nodes).len() ==> final(nodes)@[i] == old(nodes)@[i],
        forall|i: int|
            old(nodes).len() <= i < final(nodes).len() ==> (#[trigger] final(nodes)@[i]).parent
                == Some(curr),
        arena_ok(final(nodes)@),
        frontier_ok(*final(frontier), final(nodes)@),
        final(frontier).size() == old(frontier).size() + final(nodes).len() - old(nodes).len(),
        forall|p: int, x: usize|
            #[trigger] final(frontier).has(p, x) <==> (old(frontier).has(p, x) || (old(nodes).len()
                <= x < final(nodes).len() && p == final(nodes)@[x as int].priority)),
        forall|s: Seq<u8>|
            #[trigger] is_move(old(nodes)@[curr as int].board@, s) ==> final(visited)@.contains_key(
                code(s) as u64,
            ) || exists|i: int|
                old(nodes).len() <= i < final(nodes).len() && final(nodes)@[i].board@ == s,
        forall|i: int|
            old(nodes).len() <= i < final(nodes).len() ==> !old(visited)@.contains_key(
                code((#[trigger] final(nodes)@[i]).board@) as u64,
            ),
        forall|i: int, j: int|
            old(nodes).len() <= i < j < final(nodes).len() ==> (#[trigger] final(nodes)@[i]).board@
                != (#[trigger] final(nodes)@[j]).board@,
{
    let ghost nodes0 = nodes@;
    let ghost frontier0 = *frontier;
    let b = nodes[curr].board;
    let cost = nodes[curr].cost;
    assert(node_ok(nodes@, curr as int));
    let k = b.key();
    visited.insert(k, curr);
    proof {
        lemma_pow9_nine();
    }
    match b.blank() {
        None => {
            assert forall|s: Seq<u8>| !#[trigger] is_move(b@, s) by {}
        },
        Some(p) => {
            let mut d: usize = 0;
            while d < 4
                invariant
                    d <= 4,
                    p < 9,
                    b@[p as int] == 0,
                    b == nodes0[curr as int].board,
                    board_wf(b@),
                    cost == nodes0[curr as int].cost,
                    cost + 37 <= usize::MAX,
                    curr < nodes0.len(),
                    arena_ok(nodes0),
                    frontier_ok(frontier0, nodes0),
                    nodes0.len() + 4 <= usize::MAX,
                    frontier0.size() + 4 < usize::MAX,
                    visited@ == old(visited)@.insert(k, curr),
                    nodes0.len() <= nodes@.len() <= nodes0.len() + d,
                    forall|i: int| 0 <= i < nodes0.len() ==> nodes@[i] == nodes0[i],
                    forall|i: int|
                        nodes0.len() <= i < nodes@.len() ==> (#[trigger] nodes@[i]).parent
                            == Some(curr),
                    arena_ok(nodes@),
                    frontier.wf(),
                    frontier.size() == frontier0.size() + nodes@.len() - nodes0.len(),
                    forall|q: int, x: usize|
                        #[trigger] frontier.has(q, x) <==> (frontier0.has(q, x) || (nodes0.len()
                            <= x < nodes@.len() && q == nodes@[x as int].priority)),
                    forall|e: int|
                        0 <= e < d && neighbor(p as int, e) >= 0 ==> visited@.contains_key(
                            code(#[trigger] swap_cells(b@, p as int, neighbor(p as int, e))) as u64,
                        ) || exists|i: int|
                            nodes0.len() <= i < nodes@.len() && nodes@[i].board@ == swap_cells(
                                b@,
                                p as int,
                                neighbor(p as int, e),
                            ),
                    forall|i: int|
                        nodes0.len() <= i < nodes@.len() ==> !old(visited)@.contains_key(
                            code((#[trigger] nodes@[i]).board@) as u64,
                        ),
                    forall|i: int|
                        nodes0.len() <= i < nodes@.len() ==> exists|e: int|
                            0 <= e < d && neighbor(p as int, e) >= 0 && (#[trigger] nodes@[i]).board@
                                == swap_cells(b@, p as int, neighbor(p as int, e)),
                    forall|i: int, j: int|
                        nodes0.len() <= i < j < nodes@.len() ==> (#[trigger] nodes@[i]).board@
                            != (#[trigger] nodes@[j]).board@,
                decreases 4 - d,
            {
                let ghost nodes_pre = nodes@;
                match neighbor_cell(p, d) {
                    None => {},
                    Some(q) => {
                        let s = b.swapped(p, q);
                        proof {
                            lemma_swap_wf(b@, p as int, q as int);
                            assert(is_move(b@, s@));
                        }
                        let sk = s.key();
                        if !visited.contains_key(&sk) {
                            let h = manhatten_cost(&s);
                            let c = cost + 1;
                            let idx = nodes.len();
                            let node = State {
                                board: s,
                                cost: c,
                                heuristic: h,
                                priority: c + h,
                                parent: Some(curr),
                            };
                            let ghost before = nodes@;
                            nodes.push(node);
                            frontier.push(c + h, idx);
                            proof {
                                assert forall|i: int| 0 <= i < nodes@.len() implies #[trigger] node_ok(
                                    nodes@,
                                    i,
                                ) by {
                                    if i < before.len() {
                                        assert(node_ok(before, i));
                                    }
                                }
                                assert(nodes@[idx as int].board@ == s@);
                                assert forall|i: int| nodes0.len() <= i < idx implies (#[trigger] nodes@[i]).board@
                                    != s@ by {
                                    assert(nodes@[i] == before[i]);
                                    let e = choose|e: int|
                                        0 <= e < d && neighbor(p as int, e) >= 0 && before[i].board@
                                            == swap_cells(b@, p as int, neighbor(p as int, e));
                                    lemma_swaps_differ(b@, p as int, e, d as int);
                                }
                                assert forall|i: int|
                                    nodes0.len() <= i < nodes@.len() implies exists|e: int|
                                        0 <= e < d + 1 && neighbor(p as int, e) >= 0 && (#[trigger] nodes@[i]).board@
                                            == swap_cells(b@, p as int, neighbor(p as int, e)) by {
                                    if i < idx {
                                        assert(nodes@[i] == before[i]);
                                    } else {
                                        assert(nodes@[i].board@ == swap_cells(b@, p as int, neighbor(p as int, d as int)));
                                    }
                                }
                            }
                        }
                        assert(swap_cells(b@, p as int, neighbor(p as int, d as int)) == s@);
                        assert(visited@.contains_key(code(s@) as u64) || exists|i: int|
                            nodes0.len() <= i < nodes@.len() && nodes@[i].board@ == s@);
                    },
                }
                assert forall|e: int|
                    0 <= e < d + 1 && neighbor(p as int, e) >= 0 && !visited@.contains_key(
                        code(#[trigger] swap_cells(b@, p as int, neighbor(p as int, e))) as u64,
                    ) implies exists|i: int|
                    nodes0.len() <= i < nodes@.len() && nodes@[i].board@ == swap_cells(
                        b@,
                        p as int,
                        neighbor(p as int, e),
                    ) by {
                    if e < d {
                        let i = choose|i: int|
                            nodes0.len() <= i < nodes_pre.len() && nodes_pre[i].board@
                                == swap_cells(b@, p as int, neighbor(p as int, e));
                        assert(nodes@[i] == nodes_pre[i]);
                    }
                }
                d = d + 1;
            }
            assert forall|s: Seq<u8>| #[trigger] is_move(b@, s) implies visited@.contains_key(
                code(s) as u64,
            ) || exists|i: int| nodes0.len() <= i < nodes@.len() && nodes@[i].board@ == s by {
                let (pb, e) = choose|pb: int, e: int|
                    0 <= pb < 9 && 0 <= e < 4 && b@[pb] == 0 && neighbor(pb, e) >= 0 && s
                        == swap_cells(b@, pb, neighbor(pb, e));
                if pb != p {
                    if pb < p {
                        assert(b@[pb] != b@[p as int]);
                    } else {
                        assert(b@[p as int] != b@[pb]);
                    }
                }
                assert(swap_cells(b@, p as int, neighbor(p as int, e)) == s);
            }
        },
    }
    assert forall|p: int, x: usize| #[trigger] frontier.has(p, x) implies x < nodes@.len() && p
        == nodes@[x as int].priority by {
        if frontier0.has(p, x) {
            assert(x < nodes0.len());
        }
    }
}

/// Each visited key names the node that expanded that board; its moves are
/// covered and no walk reaches it more cheaply. The start is visited or waiting.
#[verifier::opaque]
pub open spec fn visited_ok(
    start: Seq<u8>,
    nodes: Seq<State>,
    frontier: Frontier,
    visited: Map<u64, usize>,
) -> bool {
    &&& forall|k: u64| #[trigger]
        visited.contains_key(k) ==> {
            &&& (k as nat) < code_bound()
            &&& visited[k] < nodes.len()
            &&& code(nodes[visited[k] as int].board@) == k
            &&& nodes[visited[k] as int].board@ != goal()
            &&& successors_covered(visited, frontier, nodes, visited[k] as int)
            &&& no_shorter_walk(start, nodes[visited[k] as int].board@, nodes[visited[k] as int].cost as int)
            &&& no_shorter_walk(start, goal(), nodes[visited[k] as int].cost as int)
        }
    &&& visited.contains_key(code(start) as u64) || exists|p: int| frontier.has(p, 0)
}

/// The state of a search run between two iterations of its main loop.
pub open spec fn search_ok(
    start: Seq<u8>,
    limit: Option<usize>,
    nodes: Seq<State>,
    frontier: Frontier,
    visited: Map<u64, usize>,
) -> bool {
    &&& nodes.len() >= 1
    &&& nodes[0].board@ == start
    &&& arena_ok(nodes)
    &&& frontier_ok(frontier, nodes)
    &&& visited.dom().finite()
    &&& visited_ok(start, nodes, frontier, visited)
    &&& forall|i: int| 0 <= i < nodes.len() ==> (#[trigger] nodes[i]).cost <= visited.len()
    &&& visited.len() <= code_bound()
    &&& nodes.len() <= 1 + 4 * visited.len()
    &&& frontier.size() <= nodes.len()
    &&& (limit matches Some(l) ==> visited.len() <= l + 1)
    &&& (visited.len() == 0 ==> nodes.len() == 1 && frontier.size() == 1)
}

/// A frontier entry `(p, x)` has left `f0`, and the rest of `f0` is in `f1`.
pub open spec fn popped(f0: Frontier, f1: Frontier, p: int, x: usize) -> bool {
    &&& f1.wf()
    &&& f0.has(p, x)
    &&& f1.size() == f0.size() - 1
    &&& forall|q: int, y: usize| #[trigger] f1.has(q, y) ==> f0.has(q, y)
    &&& forall|q: int, y: usize| f0.has(q, y) && !(q == p && y == x) ==> #[trigger] f1.has(q, y)
}

/// Once the board of a popped node is visited, the frontier entry it came
/// from is no longer needed to cover the moves of visited boards.
proof fn lemma_covered_after_pop(
    nodes0: Seq<State>,
    nodes1: Seq<State>,
    f0: Frontier,
    fpop: Frontier,
    f1: Frontier,
    v0: Map<u64, usize>,
    v1: Map<u64, usize>,
    p: int,
    x: usize,
    i: int,
)
    requires
        popped(f0, fpop, p, x),
        frontier_ok(f0, nodes0),
        nodes0.len() <= nodes1.len(),
        forall|j: int| 0 <= j < nodes0.len() ==> nodes1[j] == nodes0[j],
        forall|q: int, y: usize| #[trigger] fpop.has(q, y) ==> f1.has(q, y),
        forall|k: u64| #[trigger] v0.contains_key(k) ==> v1.contains_key(k),
        v1.contains_key(code(nodes0[x as int].board@) as u64),
        0 <= i < nodes0.len(),
        successors_covered(v0, f0, nodes0, i),
    ensures
        successors_covered(v1, f1, nodes1, i),
{
    assert forall|s: Seq<u8>| #[trigger] is_move(nodes1[i].board@, s) implies v1.contains_key(
        code(s) as u64,
    ) || in_frontier(f1, nodes1, s, nodes1[i].cost + 1) by {
        assert(is_move(nodes0[i].board@, s));
        if !v0.contains_key(code(s) as u64) {
            let (q, y) = choose|q: int, y: usize| #[trigger]
                f0.has(q, y) && nodes0[y as int].board@ == s && nodes0[y as int].cost
                    <= nodes0[i].cost + 1;
            if !(q == p && y == x) {
                assert(fpop.has(q, y));
                assert(f1.has(q, y));
                assert(nodes1[y as int] == nodes0[y as int]);
            }
        }
    }
}

/// A popped node whose board was already visited is simply dropped.
proof fn lemma_skip(
    start: Seq<u8>,
    limit: Option<usize>,
    nodes: Seq<State>,
    f0: Frontier,
    f1: Frontier,
    v: Map<u64, usize>,
    p: int,
    x: usize,
)
    requires
        search_ok(start, limit, nodes, f0, v),
        popped(f0, f1, p, x),
        v.contains_key(code(nodes[x as int].board@) as u64),
    ensures
        search_ok(start, limit, nodes, f1, v),
{
    reveal(visited_ok);
    assert forall|k: u64| #[trigger] v.contains_key(k) implies successors_covered(
        v,
        f1,
        nodes,
        v[k] as int,
    ) by {
        lemma_covered_after_pop(nodes, nodes, f0, f1, f1, v, v, p, x, v[k] as int);
    }
    if !v.contains_key(code(start) as u64) {
        let q = choose|q: int| f0.has(q, 0);
        if q == p && x == 0 {
        } else {
            assert(f1.has(q, 0));
        }
    }
    assert(v.dom().contains(code(nodes[x as int].board@) as u64));
}

/// Expanding a popped node keeps the search state consistent.
proof fn lemma_after_expand(
    start: Seq<u8>,
    limit: Option<usize>,
    nodes0: Seq<State>,
    nodes1: Seq<State>,
    f0: Frontier,
    fpop: Frontier,
    f1: Frontier,
    v0: Map<u64, usize>,
    v1: Map<u64, usize>,
    p: int,
    x: usize,
)
    requires
        search_ok(start, limit, nodes0, f0, v0),
        popped(f0, fpop, p, x),
        nodes0[x as int].board@ != goal(),
        !v0.contains_key(code(nodes0[x as int].board@) as u64),
        no_shorter_walk(start, nodes0[x as int].board@, nodes0[x as int].cost as int),
        no_shorter_walk(start, goal(), nodes0[x as int].cost as int),
        v0.len() < code_bound(),
        limit matches Some(l) ==> v0.len() <= l,
        v1 == v0.insert(code(nodes0[x as int].board@) as u64, x),
        v1.len() == v0.len() + 1,
        nodes0.len() <= nodes1.len() <= nodes0.len() + 4,
        nodes1.len() <= usize::MAX,
        forall|i: int| 0 <= i < nodes0.len() ==> nodes1[i] == nodes0[i],
        forall|i: int|
            nodes0.len() <= i < nodes1.len() ==> (#[trigger] nodes1[i]).parent == Some(x),
        arena_ok(nodes1),
        frontier_ok(f1, nodes1),
        f1.size() == fpop.size() + nodes1.len() - nodes0.len(),
        forall|q: int, y: usize|
            #[trigger] f1.has(q, y) <==> (fpop.has(q, y) || (nodes0.len() <= y < nodes1.len() && q
                == nodes1[y as int].priority)),
        forall|s: Seq<u8>|
            #[trigger] is_move(nodes0[x as int].board@, s) ==> v1.contains_key(code(s) as u64)
                || exists|i: int| nodes0.len() <= i < nodes1.len() && nodes1[i].board@ == s,
    ensures
        search_ok(start, limit, nodes1, f1, v1),
{
    reveal(visited_ok);
    lemma_pow9_nine();
    let k = code(nodes0[x as int].board@) as u64;
    assert(node_ok(nodes0, x as int));
    lemma_code_bound(nodes0[x as int].board@);
    assert forall|kk: u64| #[trigger] v1.contains_key(kk) implies {
        &&& (kk as nat) < code_bound()
        &&& v1[kk] < nodes1.len()
        &&& code(nodes1[v1[kk] as int].board@) == kk
        &&& nodes1[v1[kk] as int].board@ != goal()
        &&& successors_covered(v1, f1, nodes1, v1[kk] as int)
        &&& no_shorter_walk(start, nodes1[v1[kk] as int].board@, nodes1[v1[kk] as int].cost as int)
        &&& no_shorter_walk(start, goal(), nodes1[v1[kk] as int].cost as int)
    } by {
        if kk == k {
            assert(nodes1[x as int] == nodes0[x as int]);
            assert forall|s: Seq<u8>| #[trigger] is_move(nodes1[x as int].board@, s) implies v1.contains_key(
                code(s) as u64,
            ) || in_frontier(f1, nodes1, s, nodes1[x as int].cost + 1) by {
                if !v1.contains_key(code(s) as u64) {
                    let i = choose|i: int| nodes0.len() <= i < nodes1.len() && nodes1[i].board@ == s;
                    let y = i as usize;
                    assert(node_ok(nodes1, i));
                    assert(f1.has(nodes1[i].priority as int, y));
                }
            }
        } else {
            assert(v0.contains_key(kk));
            assert(nodes1[v0[kk] as int] == nodes0[v0[kk] as int]);
            lemma_covered_after_pop(nodes0, nodes1, f0, fpop, f1, v0, v1, p, x, v0[kk] as int);
        }
    }
    if !v0.contains_key(code(start) as u64) {
        let q = choose|q: int| f0.has(q, 0);
        if q == p && x == 0 {
            assert(v1.contains_key(k));
        } else {
            assert(fpop.has(q, 0));
            assert(f1.has(q, 0));
        }
    }
    assert forall|i: int| 0 <= i < nodes1.len() implies (#[trigger] nodes1[i]).cost <= v1.len() by {
        if i >= nodes0.len() {
            assert(node_ok(nodes1, i));
        } else {
            assert(nodes1[i] == nodes0[i]);
        }
    }
    assert(v1.dom() == v0.dom().insert(k));
}

/// With the frontier empty, the visited boards form a set closed under moves
/// that holds the start but not the goal.
proof fn lemma_exhausted(
    start: Seq<u8>,
    limit: Option<usize>,
    nodes: Seq<State>,
    f: Frontier,
    v: Map<u64, usize>,
)
    requires
        board_wf(start),
        search_ok(start, limit, nodes, f, v),
        forall|q: int, y: usize| !(#[trigger] f.has(q, y)),
    ensures
        goal_unreachable(start),
        forall|k: u64| reachable_keys(start).contains(k) ==> v.contains_key(k),
{
    reveal(visited_ok);
    lemma_pow9_nine();
    let set = Set::new(|s: Seq<u8>| board_wf(s) && v.contains_key(code(s) as u64));
    assert(set.contains(start));
    assert forall|a: Seq<u8>| set.contains(a) implies {
        let i = v[code(a) as u64] as int;
        &&& 0 <= i < nodes.len()
        &&& nodes[i].board@ == a
        &&& successors_covered(v, f, nodes, i)
    } by {
        lemma_pow9_nine();
        lemma_code_bound(a);
        let kk = code(a) as u64;
        let i = v[kk] as int;
        assert(node_ok(nodes, i));
        lemma_code_injective(nodes[i].board@, a);
    }
    if set.contains(goal()) {
        assert(false);
    }
    assert forall|a: Seq<u8>, b: Seq<u8>| set.contains(a) && #[trigger] is_move(a, b) implies set.contains(b) by {
        let i = v[code(a) as u64] as int;
        assert(successors_covered(v, f, nodes, i));
        let (p, d) = choose|p: int, d: int|
            0 <= p < 9 && 0 <= d < 4 && a[p] == 0 && neighbor(p, d) >= 0 && b == swap_cells(
                a,
                p,
                neighbor(p, d),
            );
        lemma_swap_wf(a, p, neighbor(p, d));
    }
    assert(move_closed(set));
    assert forall|k: u64| reachable_keys(start).contains(k) implies v.contains_key(k) by {
        let w = choose|w: Seq<Seq<u8>>| #[trigger]
            is_walk(start, w) && code(walk_end(start, w)) as u64 == k;
        lemma_walk_in_closed_set(start, w, set, w.len() as int);
    }
}

proof fn lemma_walk_wf(start: Seq<u8>, w: Seq<Seq<u8>>, j: int)
    requires
        board_wf(start),
        is_walk(start, w),
        0 <= j <= w.len(),
    ensures
        board_wf(walk_at(start, w, j)),
    decreases j,
{
    if j > 0 {
        lemma_walk_wf(start, w, j - 1);
        let a = walk_at(start, w, j - 1);
        assert(is_move(a, w[j - 1]));
        let (p, d) = choose|p: int, d: int|
            0 <= p < 9 && 0 <= d < 4 && a[p] == 0 && neighbor(p, d) >= 0 && w[j - 1] == swap_cells(
                a,
                p,
                neighbor(p, d),
            );
        lemma_swap_wf(a, p, neighbor(p, d));
    }
}

/// Along a walk the heuristic drops by at most one per move.
proof fn lemma_walk_heuristic(start: Seq<u8>, w: Seq<Seq<u8>>, j: int)
    requires
        board_wf(start),
        is_walk(start, w),
        0 <= j <= w.len(),
    ensures
        heuristic(walk_at(start, w, j)) <= heuristic(walk_end(start, w)) + (w.len() - j),
    decreases w.len() - j,
{
    if j < w.len() {
        lemma_walk_heuristic(start, w, j + 1);
        lemma_walk_wf(start, w, j);
        assert(is_move(walk_at(start, w, j), w[j]));
        lemma_heuristic_step(walk_at(start, w, j), w[j]);
        assert(walk_at(start, w, j + 1) == w[j]);
    }
}

proof fn lemma_walk_prefix(start: Seq<u8>, w: Seq<Seq<u8>>, j: int)
    requires
        is_walk(start, w),
        0 <= j <= w.len(),
    ensures
        is_walk(start, w.take(j)),
        walk_end(start, w.take(j)) == walk_at(start, w, j),
        w.take(j).len() == j,
{
    let t = w.take(j);
    assert forall|k: int| 0 <= k < t.len() implies is_move(
        if k == 0 { start } else { t[k - 1] },
        #[trigger] t[k],
    ) by {
        assert(t[k] == w[k]);
        if k > 0 {
            assert(t[k - 1] == w[k - 1]);
        }
        assert(is_move(if k == 0 { start } else { w[k - 1] }, w[k]));
    }
}

/// The first position of a walk whose board is not visited.
proof fn lemma_first_unvisited(start: Seq<u8>, w: Seq<Seq<u8>>, v: Map<u64, usize>, i: int) -> (j:
    int)
    requires
        0 <= i <= w.len(),
        forall|m: int| 0 <= m < i ==> v.contains_key(code(#[trigger] walk_at(start, w, m)) as u64),
        !v.contains_key(code(walk_end(start, w)) as u64),
    ensures
        i <= j <= w.len(),
        !v.contains_key(code(walk_at(start, w, j)) as u64),
        forall|m: int| 0 <= m < j ==> v.contains_key(code(#[trigger] walk_at(start, w, m)) as u64),
    decreases w.len() - i,
{
    if !v.contains_key(code(walk_at(start, w, i)) as u64) {
        i
    } else {
        assert(i < w.len());
        lemma_first_unvisited(start, w, v, i + 1)
    }
}

/// Following the parent links from a node gives a walk from the start.
pub proof fn lemma_node_reachable(start: Seq<u8>, nodes: Seq<State>, i: int)
    requires
        arena_ok(nodes),
        nodes.len() >= 1,
        nodes[0].board@ == start,
        0 <= i < nodes.len(),
    ensures
        exists|w: Seq<Seq<u8>>| #[trigger]
            is_walk(start, w) && walk_end(start, w) == nodes[i].board@ && w.len() == nodes[i].cost,
    decreases i,
{
    assert(node_ok(nodes, i));
    match nodes[i].parent {
        None => {
            let w = Seq::<Seq<u8>>::empty();
            assert(is_walk(start, w));
        },
        Some(j) => {
            lemma_node_reachable(start, nodes, j as int);
            let wj = choose|w: Seq<Seq<u8>>| #[trigger]
                is_walk(start, w) && walk_end(start, w) == nodes[j as int].board@ && w.len()
                    == nodes[j as int].cost;
            let w = wj.push(nodes[i].board@);
            assert forall|k: int| 0 <= k < w.len() implies is_move(
                if k == 0 { start } else { w[k - 1] },
                #[trigger] w[k],
            ) by {
                if k < wj.len() {
                    assert(w[k] == wj[k]);
                    if k > 0 {
                        assert(w[k - 1] == wj[k - 1]);
                    }
                    assert(is_move(if k == 0 { start } else { wj[k - 1] }, wj[k]));
                } else {
                    if k > 0 {
                        assert(w[k - 1] == wj[k - 1]);
                    }
                }
            }
            assert(is_walk(start, w));
        },
    }
}

proof fn lemma_visited_key(
    start: Seq<u8>,
    nodes: Seq<State>,
    f: Frontier,
    v: Map<u64, usize>,
    k: u64,
)
    requires
        visited_ok(start, nodes, f, v),
        v.contains_key(k),
    ensures
        v[k] < nodes.len(),
        code(nodes[v[k] as int].board@) == k,
        nodes[v[k] as int].board@ != goal(),
        no_shorter_walk(start, goal(), nodes[v[k] as int].cost as int),
{
    reveal(visited_ok);
}

/// A visited key is the key of a board reached within the goal distance.
proof fn lemma_key_near(
    start: Seq<u8>,
    nodes: Seq<State>,
    f: Frontier,
    v: Map<u64, usize>,
    k: u64,
)
    requires
        visited_ok(start, nodes, f, v),
        arena_ok(nodes),
        nodes.len() >= 1,
        nodes[0].board@ == start,
        v.contains_key(k),
    ensures
        reachable_keys(start).contains(k),
        near_keys(start).contains(k),
{
    lemma_visited_key(start, nodes, f, v, k);
    let m = v[k] as int;
    lemma_node_reachable(start, nodes, m);
    let w = choose|w: Seq<Seq<u8>>| #[trigger]
        is_walk(start, w) && walk_end(start, w) == nodes[m].board@ && w.len() == nodes[m].cost;
    assert(is_walk(start, w) && code(walk_end(start, w)) as u64 == k);
}

/// The visited keys are keys of reachable boards, and the goal is not among them.
proof fn lemma_visited_reachable(
    start: Seq<u8>,
    limit: Option<usize>,
    nodes: Seq<State>,
    f: Frontier,
    v: Map<u64, usize>,
)
    requires
        search_ok(start, limit, nodes, f, v),
    ensures
        v.dom().subset_of(reachable_keys(start)),
        v.dom().subset_of(near_keys(start)),
        !v.dom().contains(code(goal()) as u64),
{
    assert forall|k: u64| v.dom().contains(k) implies reachable_keys(start).contains(k)
        && near_keys(start).contains(k) by {
        lemma_key_near(start, nodes, f, v, k);
    }
    let g = code(goal()) as u64;
    if v.dom().contains(g) {
        lemma_goal_not_visited(start, nodes, f, v);
    }
}

proof fn lemma_goal_not_visited(
    start: Seq<u8>,
    nodes: Seq<State>,
    f: Frontier,
    v: Map<u64, usize>,
)
    requires
        visited_ok(start, nodes, f, v),
        arena_ok(nodes),
    ensures
        !v.contains_key(code(goal()) as u64),
{
    lemma_pow9_nine();
    let g = code(goal()) as u64;
    if v.contains_key(g) {
        lemma_visited_key(start, nodes, f, v, g);
        let m = v[g] as int;
        assert(node_ok(nodes, m));
        assert forall|i: int| 0 <= i < goal().len() implies #[trigger] goal()[i] < 9 by {}
        lemma_code_bound(goal());
        lemma_code_injective(nodes[m].board@, goal());
    }
}

/// With `p` no more than any frontier priority, `p` is no more than the
/// length of a walk to an unvisited board plus that board's heuristic.
proof fn lemma_pop_bound(
    start: Seq<u8>,
    limit: Option<usize>,
    nodes: Seq<State>,
    f0: Frontier,
    v: Map<u64, usize>,
    p: int,
    w: Seq<Seq<u8>>,
)
    requires
        board_wf(start),
        search_ok(start, limit, nodes, f0, v),
        forall|q: int, y: usize| #[trigger] f0.has(q, y) ==> p <= q,
        is_walk(start, w),
        !v.contains_key(code(walk_end(start, w)) as u64),
    ensures
        p <= w.len() + heuristic(walk_end(start, w)),
{
    reveal(visited_ok);
    lemma_pow9_nine();
    let j = lemma_first_unvisited(start, w, v, 0);
    lemma_walk_heuristic(start, w, j);
    if j == 0 {
        let q = choose|q: int| f0.has(q, 0);
        assert(node_ok(nodes, 0));
    } else {
        let a = walk_at(start, w, j - 1);
        lemma_walk_wf(start, w, j - 1);
        lemma_code_bound(a);
        let kk = code(a) as u64;
        assert(v.contains_key(kk));
        let m = v[kk] as int;
        assert(node_ok(nodes, m));
        lemma_code_injective(nodes[m].board@, a);
        lemma_walk_prefix(start, w, j - 1);
        assert(nodes[m].cost <= j - 1);
        assert(is_move(a, w[j - 1]));
        assert(successors_covered(v, f0, nodes, m));
        let (q, y) = choose|q: int, y: usize| #[trigger]
            f0.has(q, y) && nodes[y as int].board@ == w[j - 1] && nodes[y as int].cost
                <= nodes[m].cost + 1;
        assert(node_ok(nodes, y as int));
    }
}

/// A node popped with least priority, whose board is not yet visited, was
/// reached by a shortest walk: a board is first expanded at its shortest
/// distance from the start, so nothing reached later needs its priority lowered.
/// Its cost is also no more than the length of any walk to the goal.
pub proof fn lemma_pop_optimal(
    start: Seq<u8>,
    limit: Option<usize>,
    nodes: Seq<State>,
    f0: Frontier,
    v: Map<u64, usize>,
    p: int,
    x: usize,
)
    requires
        board_wf(start),
        search_ok(start, limit, nodes, f0, v),
        f0.has(p, x),
        forall|q: int, y: usize| #[trigger] f0.has(q, y) ==> p <= q,
        !v.contains_key(code(nodes[x as int].board@) as u64),
    ensures
        no_shorter_walk(start, nodes[x as int].board@, nodes[x as int].cost as int),
        no_shorter_walk(start, goal(), nodes[x as int].cost as int),
{
    let b = nodes[x as int].board@;
    assert(node_ok(nodes, x as int));
    assert forall|w: Seq<Seq<u8>>| #[trigger]
        is_walk(start, w) && walk_end(start, w) == b implies nodes[x as int].cost <= w.len() by {
        lemma_pop_bound(start, limit, nodes, f0, v, p, w);
    }
    lemma_visited_reachable(start, limit, nodes, f0, v);
    assert forall|i: int| 0 <= i < goal().len() implies #[trigger] goal()[i] < 9 by {}
    assert(board_wf(goal()));
    lemma_heuristic_zero_iff_goal(goal());
    assert forall|w: Seq<Seq<u8>>| #[trigger]
        is_walk(start, w) && walk_end(start, w) == goal() implies nodes[x as int].cost <= w.len() by {
        lemma_pop_bound(start, limit, nodes, f0, v, p, w);
    }
}

proof fn lemma_visited_keys_small(
    start: Seq<u8>,
    nodes: Seq<State>,
    frontier: Frontier,
    visited: Map<u64, usize>,
)
    requires
        visited_ok(start, nodes, frontier, visited),
    ensures
        forall|k: u64| visited.dom().contains(k) ==> (k as nat) < code_bound(),
{
    reveal(visited_ok);
}

/// A goal that some walk reaches is not unreachable.
pub proof fn lemma_reachable_not_unreachable(start: Seq<u8>)
    requires
        goal_reachable(start),
    ensures
        !goal_unreachable(start),
{
    let w = choose|w: Seq<Seq<u8>>| #[trigger] is_walk(start, w) && walk_end(start, w) == goal();
    if goal_unreachable(start) {
        let set = choose|set: Set<Seq<u8>>|
            set.contains(start) && !set.contains(goal()) && move_closed(set);
        lemma_walk_in_closed_set(start, w, set, w.len() as int);
    }
}

proof fn lemma_walk_in_closed_set(start: Seq<u8>, w: Seq<Seq<u8>>, set: Set<Seq<u8>>, j: int)
    requires
        is_walk(start, w),
        set.contains(start),
        move_closed(set),
        0 <= j <= w.len(),
    ensures
        set.contains(walk_at(start, w, j)),
    decreases j,
{
    if j > 0 {
        lemma_walk_in_closed_set(start, w, set, j - 1);
        assert(is_move(walk_at(start, w, j - 1), w[j - 1]));
    }
}

/// With a limit of zero and a start at least two moves from the goal: once
/// the start is expanded, the frontier is not empty and holds only boards one
/// move from the start.
pub open spec fn zero_limit_ok(
    start: Seq<u8>,
    limit: Option<usize>,
    nodes: Seq<State>,
    frontier: Frontier,
    visited: Map<u64, usize>,
) -> bool {
    limit == Some(0usize) && !is_move(start, goal()) && visited.len() == 1 ==> {
        &&& frontier.size() >= 1
        &&& forall|k: u64| visited.contains_key(k) ==> k == code(start) as u64
        &&& forall|q: int, y: usize|
            #[trigger] frontier.has(q, y) ==> is_move(start, nodes[y as int].board@)
    }
}

/// Under a zero limit, the node popped first is the start; the nodes popped
/// after the start's expansion hold unvisited boards other than the goal.
proof fn lemma_zero_limit_pop(
    start: Seq<u8>,
    limit: Option<usize>,
    nodes: Seq<State>,
    f0: Frontier,
    v: Map<u64, usize>,
    p: int,
    x: usize,
)
    requires
        board_wf(start),
        start != goal(),
        search_ok(start, limit, nodes, f0, v),
        zero_limit_ok(start, limit, nodes, f0, v),
        f0.has(p, x),
    ensures
        limit == Some(0usize) && !is_move(start, goal()) ==> {
            &&& v.len() <= 1
            &&& !v.contains_key(code(nodes[x as int].board@) as u64)
            &&& nodes[x as int].board@ != goal()
        },
{
    if limit == Some(0usize) && !is_move(start, goal()) {
        lemma_pow9_nine();
        let b = nodes[x as int].board@;
        assert(node_ok(nodes, x as int));
        if v.len() == 0 {
            assert(x == 0);
            if v.contains_key(code(b) as u64) {
                assert(v.dom().contains(code(b) as u64));
            }
        } else {
            assert(is_move(start, b));
            lemma_move_changes(start, b);
            lemma_code_bound(start);
            lemma_code_bound(b);
            if v.contains_key(code(b) as u64) {
                lemma_code_injective(start, b);
            }
        }
    }
}

/// Under a zero limit, expanding the start leaves a frontier of boards one
/// move from the start, and at least one of them.
proof fn lemma_zero_limit_expand(
    start: Seq<u8>,
    limit: Option<usize>,
    nodes0: Seq<State>,
    nodes1: Seq<State>,
    f0: Frontier,
    fpop: Frontier,
    f1: Frontier,
    v0: Map<u64, usize>,
    v1: Map<u64, usize>,
    p: int,
    x: usize,
)
    requires
        board_wf(start),
        search_ok(start, limit, nodes0, f0, v0),
        limit matches Some(l) ==> v0.len() <= l,
        popped(f0, fpop, p, x),
        v1 == v0.insert(code(nodes0[x as int].board@) as u64, x),
        v1.len() == v0.len() + 1,
        nodes0.len() <= nodes1.len(),
        forall|i: int| 0 <= i < nodes0.len() ==> nodes1[i] == nodes0[i],
        forall|i: int|
            nodes0.len() <= i < nodes1.len() ==> (#[trigger] nodes1[i]).parent == Some(x),
        arena_ok(nodes1),
        f1.size() == fpop.size() + nodes1.len() - nodes0.len(),
        forall|q: int, y: usize|
            #[trigger] f1.has(q, y) <==> (fpop.has(q, y) || (nodes0.len() <= y < nodes1.len() && q
                == nodes1[y as int].priority)),
        forall|s: Seq<u8>|
            #[trigger] is_move(nodes0[x as int].board@, s) ==> v1.contains_key(code(s) as u64)
                || exists|i: int| nodes0.len() <= i < nodes1.len() && nodes1[i].board@ == s,
    ensures
        zero_limit_ok(start, limit, nodes1, f1, v1),
{
    if limit == Some(0usize) && !is_move(start, goal()) && v1.len() == 1 {
        lemma_pow9_nine();
        assert(v0.len() == 0);
        assert(x == 0);
        assert(nodes0[0].board@ == start);
        assert(fpop.size() == 0);
        fpop.lemma_empty();
        assert forall|k: u64| v1.contains_key(k) implies k == code(start) as u64 by {
            if k != code(start) as u64 {
                assert(v0.dom().contains(k));
            }
        }
        assert forall|q: int, y: usize| #[trigger] f1.has(q, y) implies is_move(
            start,
            nodes1[y as int].board@,
        ) by {
            assert(node_ok(nodes1, y as int));
        }
        lemma_blank_exists(start);
        let b = choose|b: int| 0 <= b < 9 && start[b] == 0;
        let d: int = if b % 3 != 2 { 0 } else { 2 };
        let s = swap_cells(start, b, neighbor(b, d));
        assert(is_move(start, s));
        lemma_swap_wf(start, b, neighbor(b, d));
        lemma_move_changes(start, s);
        if v1.contains_key(code(s) as u64) {
            lemma_code_bound(start);
            lemma_code_bound(s);
            lemma_code_injective(start, s);
        }
        assert(nodes1.len() > nodes0.len());
    }
}

/// Searches for a shortest sequence of moves from `start` to the goal.
///
/// Nodes leave the frontier in order of `cost + heuristic`. A board is
/// expanded once, by the first of its nodes to leave the frontier; nodes that
/// reach an expanded board later are dropped, never re-queued, since the
/// heuristic changes by at most one per move and that first expansion is
/// already along a shortest walk. With `limit` set to `Some(l)`, the search
/// stops with `BudgetExceeded` at the first popped board that is not the goal
/// once more than `l` boards have been expanded; so `l + 1` boards are
/// expanded before a budget stop. `expanded` counts the boards expanded, the
/// start included.
pub fn solve(start: &Board, limit: Option<usize>) -> (r: Outcome)
    requires
        board_wf(start@),
    ensures
        r matches Outcome::Solved { moves, expanded } ==> {
            &&& is_walk(start@, boards_view(moves@))
            &&& walk_end(start@, boards_view(moves@)) == goal()
            &&& no_shorter_walk(start@, goal(), moves@.len() as int)
            &&& expanded_boards(start@, expanded as int)
            &&& (limit matches Some(l) ==> expanded <= l + 1)
        },
        r matches Outcome::Exhausted { expanded } ==> {
            &&& goal_unreachable(start@)
            &&& reachable_keys(start@).finite()
            &&& expanded == reachable_keys(start@).len()
            &&& (limit matches Some(l) ==> expanded <= l + 1)
        },
        limit is None && goal_reachable(start@) ==> r is Solved,
        r matches Outcome::BudgetExceeded { limit: l, expanded } ==> limit == Some(l) && expanded
            == l + 1 && expanded_boards(start@, expanded as int),
        start@ == goal() ==> (r matches Outcome::Solved { moves, expanded } && moves@.len() == 0
            && expanded == 0),
        limit == Some(0usize) && start@ != goal() && !is_move(start@, goal()) ==> r == (
        Outcome::BudgetExceeded { limit: 0, expanded: 1 }),
{
    if start.is_goal() {
        let moves: Vec<Board> = Vec::new();
        proof {
            assert(boards_view(moves@) =~= Seq::<Seq<u8>>::empty());
        }
        proof {
            let none = Set::<u64>::empty();
            assert(none.subset_of(near_keys(start@)));
            assert(none.len() == 0);
        }
        return Outcome::Solved { moves, expanded: 0 };
    }
    let root = State::new(*start);
    let mut nodes: Vec<State> = Vec::new();
    nodes.push(root);
    let mut frontier = Frontier::new();
    frontier.push(root.priority, 0);
    let mut visited: HashMap<u64, usize> = HashMap::new();
    proof {
        lemma_pow9_nine();
        assert(node_ok(nodes@, 0));
        assert(frontier.has(root.priority as int, 0));
        reveal(visited_ok);
    }
    loop
        invariant
            board_wf(start@),
            start@ != goal(),
            code_bound() == 387420489,
            search_ok(start@, limit, nodes@, frontier, visited@),
            zero_limit_ok(start@, limit, nodes@, frontier, visited@),
        decreases 5 * (code_bound() - visited@.len()) + frontier.size(),
    {
        let ghost nodes0 = nodes@;
        let ghost frontier0 = frontier;
        let ghost visited0 = visited@;
        match frontier.pop_min() {
            None => {
                proof {
                    lemma_exhausted(start@, limit, nodes@, frontier0, visited@);
                    lemma_visited_reachable(start@, limit, nodes@, frontier0, visited@);
                    assert(visited@.dom() =~= reachable_keys(start@));
                    if goal_reachable(start@) {
                        lemma_reachable_not_unreachable(start@);
                    }
                }
                return Outcome::Exhausted { expanded: visited.len() };
            },
            Some((p, x)) => {
                let b = nodes[x].board;
                proof {
                    assert(node_ok(nodes@, x as int));
                }
                let k = b.key();
                proof {
                    lemma_zero_limit_pop(start@, limit, nodes@, frontier0, visited@, p as int, x);
                }
                if visited.contains_key(&k) {
                    proof {
                        lemma_skip(start@, limit, nodes@, frontier0, frontier, visited@, p as int, x);
                    }
                    continue;
                }
                proof {
                    lemma_pop_optimal(start@, limit, nodes@, frontier0, visited@, p as int, x);
                }
                proof {
                    lemma_visited_reachable(start@, limit, nodes@, frontier0, visited@);
                    assert(visited@.dom().len() == visited@.len());
                }
                if b.is_goal() {
                    let moves = path(&nodes, x);
                    return Outcome::Solved { moves, expanded: visited.len() };
                }
                if let Some(l) = limit {
                    if visited.len() > l {
                        return Outcome::BudgetExceeded { limit: l, expanded: visited.len() };
                    }
                }
                proof {
                    lemma_visited_keys_small(start@, nodes@, frontier0, visited@);
                    lemma_keys_bounded(visited@.dom().insert(k), code_bound());
                    assert(visited@.dom().insert(k).len() == visited@.len() + 1);
                    assert(node_ok(nodes@, x as int));
                    assert forall|q: int, y: usize| #[trigger] frontier.has(q, y) implies y
                        < nodes@.len() && q == nodes@[y as int].priority by {
                        assert(frontier0.has(q, y));
                    }
                }
                let ghost fpop = frontier;
                expand(&mut nodes, &mut frontier, &mut visited, x);
                proof {
                    lemma_after_expand(
                        start@,
                        limit,
                        nodes0,
                        nodes@,
                        frontier0,
                        fpop,
                        frontier,
                        visited0,
                        visited@,
                        p as int,
                        x,
                    );
                    lemma_zero_limit_expand(
                        start@,
                        limit,
                        nodes0,
                        nodes@,
                        frontier0,
                        fpop,
                        frontier,
                        visited0,
                        visited@,
                        p as int,
                        x,
                    );
                }
            },
        }
    }
}

} // verus!
