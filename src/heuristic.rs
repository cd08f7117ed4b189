use vstd::prelude::*;

use crate::board::{board_wf, goal, is_move, neighbor, swap_cells, Board, CELLS};

verus! {

/// The distance between two integers.
pub open spec fn abs_diff(a: int, b: int) -> int {
    if a >= b { a - b } else { b - a }
}

/// Manhattan distance of tile `v` at cell `i` from its goal cell `v - 1`;
/// the blank costs nothing.
pub open spec fn tile_cost(i: int, v: int) -> int {
    if v == 0 {
        0
    } else {
        abs_diff(i / 3, (v - 1) / 3) + abs_diff(i % 3, (v - 1) % 3)
    }
}

/// Sum of the tile costs of the first `n` cells.
pub open spec fn cost_upto(s: Seq<u8>, n: int) -> int
    decreases n,
{
    if n <= 0 {
        0
    } else {
        cost_upto(s, n - 1) + tile_cost(n - 1, s[n - 1] as int)
    }
}

/// The Manhattan-distance estimate of the moves left to the goal.
pub open spec fn heuristic(s: Seq<u8>) -> int {
    cost_upto(s, 9)
}

/// Computes the Manhattan-distance heuristic of a board.
pub fn manhatten_cost(board: &Board) -> (r: usize)
    requires
        board_wf(board@),
    ensures
        r == heuristic(board@),
        r <= 36,
{
    let mut cost: usize = 0;
    let mut i: usize = 0;
    while i < CELLS
        invariant
            i <= 9,
            board_wf(board@),
            cost == cost_upto(board@, i as int),
            cost <= 4 * i,
        decreases 9 - i,
    {
        let v = board.get(i);
        if v != 0 {
            let row = i / 3;
            let col = i % 3;
            let goal_row = ((v - 1) / 3) as usize;
            let goal_col = ((v - 1) % 3) as usize;
            let dr = if row >= goal_row { row - goal_row } else { goal_row - row };
            let dc = if col >= goal_col { col - goal_col } else { goal_col - col };
            cost = cost + dr + dc;
        }
        i = i + 1;
    }
    cost
}

proof fn lemma_cost_upto_zero(s: Seq<u8>, n: int)
    requires
        0 <= n <= s.len(),
    ensures
        cost_upto(s, n) >= 0,
        cost_upto(s, n) == 0 <==> forall|i: int| 0 <= i < n ==> #[trigger] tile_cost(i, s[i] as int) == 0,
    decreases n,
{
    if n > 0 {
        lemma_cost_upto_zero(s, n - 1);
    }
}

/// The heuristic of a well-formed board is zero exactly on the goal board.
pub proof fn lemma_heuristic_zero_iff_goal(s: Seq<u8>)
    requires
        board_wf(s),
    ensures
        heuristic(s) == 0 <==> s == goal(),
{
    lemma_cost_upto_zero(s, 9);
    if heuristic(s) == 0 {
        assert(tile_cost(8, s[8] as int) == 0);
        assert(s[8] == 0);
        assert forall|i: int| 0 <= i < 9 implies s[i] == goal()[i] by {
            assert(tile_cost(i, s[i] as int) == 0);
            if i < 8 {
                assert(s[i] != s[8]);
            }
        }
        assert(s =~= goal());
    }
    if s == goal() {
        assert forall|i: int| 0 <= i < 9 implies #[trigger] tile_cost(i, s[i] as int) == 0 by {
            assert(s[i] == goal()[i]);
        }
    }
}

proof fn lemma_cost_upto_two_changes(s: Seq<u8>, t: Seq<u8>, p: int, q: int, n: int)
    requires
        s.len() == t.len(),
        0 <= n <= s.len(),
        0 <= p < s.len(),
        0 <= q < s.len(),
        p != q,
        forall|i: int| 0 <= i < s.len() && i != p && i != q ==> s[i] == t[i],
    ensures
        cost_upto(t, n) - cost_upto(s, n) == (if p < n {
            tile_cost(p, t[p] as int) - tile_cost(p, s[p] as int)
        } else {
            0
        }) + (if q < n {
            tile_cost(q, t[q] as int) - tile_cost(q, s[q] as int)
        } else {
            0
        }),
    decreases n,
{
    if n > 0 {
        lemma_cost_upto_two_changes(s, t, p, q, n - 1);
    }
}

/// One move changes the heuristic by at most one.
pub proof fn lemma_heuristic_step(a: Seq<u8>, b: Seq<u8>)
    requires
        a.len() == 9,
        is_move(a, b),
    ensures
        -1 <= heuristic(b) - heuristic(a) <= 1,
{
    let (p, d) = choose|p: int, d: int|
        0 <= p < 9 && 0 <= d < 4 && a[p] == 0 && neighbor(p, d) >= 0 && b == swap_cells(
            a,
            p,
            neighbor(p, d),
        );
    let q = neighbor(p, d);
    assert(p != q);
    lemma_cost_upto_two_changes(a, b, p, q, 9);
    let v = a[q] as int;
    assert(b[p] as int == v);
    assert(b[q] == 0);
    assert(-1 <= tile_cost(p, v) - tile_cost(q, v) <= 1);
}

} // verus!
