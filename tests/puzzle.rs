use std::collections::{HashMap, HashSet, VecDeque};

use eight_puzzle::board::{Board, InputError};
use eight_puzzle::frontier::Frontier;
use eight_puzzle::heuristic::manhatten_cost;
use eight_puzzle::search::{expand, is_finished, path, solve, Outcome, State};

fn board(values: [i64; 9]) -> Board {
    Board::from_values(values).unwrap()
}

fn is_legal_move(a: &Board, b: &Board) -> bool {
    let x = a.cells();
    let y = b.cells();
    let diffs: Vec<usize> = (0..9).filter(|&i| x[i] != y[i]).collect();
    if diffs.len() != 2 {
        return false;
    }
    let (p, q) = (diffs[0], diffs[1]);
    let adjacent = (q == p + 1 && p % 3 != 2) || q == p + 3;
    adjacent && x[p] == y[q] && x[q] == y[p] && (x[p] == 0 || x[q] == 0)
}

fn neighbours(b: &Board) -> Vec<Board> {
    let p = b.blank().unwrap();
    let mut out = Vec::new();
    if p % 3 != 2 {
        out.push(b.swapped(p, p + 1));
    }
    if p < 6 {
        out.push(b.swapped(p, p + 3));
    }
    if p % 3 != 0 {
        out.push(b.swapped(p, p - 1));
    }
    if p >= 3 {
        out.push(b.swapped(p, p - 3));
    }
    out
}

fn bfs_distance(start: &Board) -> Option<usize> {
    let goal = Board::goal_board();
    let mut seen: HashSet<[u8; 9]> = HashSet::new();
    let mut queue = VecDeque::new();
    seen.insert(start.cells());
    queue.push_back((*start, 0usize));
    while let Some((b, d)) = queue.pop_front() {
        if b == goal {
            return Some(d);
        }
        for n in neighbours(&b) {
            if seen.insert(n.cells()) {
                queue.push_back((n, d + 1));
            }
        }
    }
    None
}

fn solved_moves(start: &Board, limit: Option<usize>) -> (Vec<Board>, usize) {
    match solve(start, limit) {
        Outcome::Solved { moves, expanded } => (moves, expanded),
        other => panic!("expected a solution, got {:?}", other),
    }
}

#[test]
fn one_move_from_goal() {
    let start = board([1, 2, 3, 4, 5, 6, 7, 0, 8]);
    let (moves, _) = solved_moves(&start, None);
    assert_eq!(moves.len(), 1);
    assert_eq!(moves[0], Board::goal_board());
}

#[test]
fn start_equal_to_goal() {
    let start = board([1, 2, 3, 4, 5, 6, 7, 8, 0]);
    let (moves, expanded) = solved_moves(&start, None);
    assert!(moves.is_empty());
    assert_eq!(expanded, 0);
}

#[test]
fn value_out_of_range() {
    let r = Board::from_values([1, 2, 3, 4, 5, 6, 7, 8, 9]);
    assert_eq!(r, Err(InputError::OutOfRange { index: 8, value: 9 }));
    let r = Board::from_values([1, 2, 3, -1, 5, 6, 7, 8, 0]);
    assert_eq!(r, Err(InputError::OutOfRange { index: 3, value: -1 }));
}

#[test]
fn duplicate_value() {
    let r = Board::from_values([1, 2, 3, 3, 5, 6, 7, 8, 0]);
    assert_eq!(r, Err(InputError::Duplicate { index: 3, value: 3 }));
}

#[test]
fn first_bad_value_is_reported() {
    let r = Board::from_values([1, 1, 3, 4, 5, 6, 7, 8, 9]);
    assert_eq!(r, Err(InputError::Duplicate { index: 1, value: 1 }));
}

#[test]
fn valid_input_is_accepted() {
    let b = board([8, 1, 3, 4, 0, 2, 7, 6, 5]);
    assert_eq!(b.cells(), [8, 1, 3, 4, 0, 2, 7, 6, 5]);
    assert_eq!(b.blank(), Some(4));
}

#[test]
fn zero_limit_exceeds_budget() {
    let start = board([1, 2, 3, 4, 5, 6, 0, 7, 8]);
    match solve(&start, Some(0)) {
        Outcome::BudgetExceeded { limit, expanded } => {
            assert_eq!(limit, 0);
            assert_eq!(expanded, 1);
        }
        other => panic!("unexpected {:?}", other),
    }
}

#[test]
fn zero_limit_still_solves_one_move_board() {
    let start = board([1, 2, 3, 4, 5, 6, 7, 0, 8]);
    let (moves, expanded) = solved_moves(&start, Some(0));
    assert_eq!(moves.len(), 1);
    assert_eq!(expanded, 1);
}

#[test]
fn zero_limit_on_unsolvable_board() {
    let start = board([2, 1, 3, 4, 5, 6, 7, 8, 0]);
    match solve(&start, Some(0)) {
        Outcome::BudgetExceeded { limit, expanded } => {
            assert_eq!(limit, 0);
            assert_eq!(expanded, 1);
        }
        other => panic!("unexpected {:?}", other),
    }
}

#[test]
fn small_limit_exceeds_budget() {
    let start = board([8, 6, 7, 2, 5, 4, 3, 0, 1]);
    match solve(&start, Some(10)) {
        Outcome::BudgetExceeded { limit, expanded } => {
            assert_eq!(limit, 10);
            assert_eq!(expanded, 11);
        }
        other => panic!("unexpected {:?}", other),
    }
}

#[test]
fn unsolvable_board_is_exhausted() {
    let start = board([2, 1, 3, 4, 5, 6, 7, 8, 0]);
    match solve(&start, None) {
        Outcome::Exhausted { expanded } => assert_eq!(expanded, 181440),
        other => panic!("unexpected {:?}", other),
    }
}

#[test]
fn heuristic_of_goal_is_zero() {
    assert_eq!(manhatten_cost(&Board::goal_board()), 0);
}

#[test]
fn heuristic_exact_values() {
    assert_eq!(manhatten_cost(&board([1, 2, 3, 4, 5, 6, 7, 0, 8])), 1);
    // 8 at (0,0) goal (2,1): 3; 1 at (0,1): 1; 3: 0; 4: 0; 2 at (1,2): 2;
    // 7: 0; 6 at (2,1) goal (1,2): 2; 5 at (2,2) goal (1,1): 2.
    assert_eq!(manhatten_cost(&board([8, 1, 3, 4, 0, 2, 7, 6, 5])), 10);
    assert_eq!(manhatten_cost(&board([0, 8, 7, 6, 5, 4, 3, 2, 1])), 20);
}

#[test]
fn heuristic_nonzero_off_goal() {
    for values in [
        [1, 2, 3, 4, 5, 6, 0, 7, 8],
        [2, 1, 3, 4, 5, 6, 7, 8, 0],
        [0, 1, 2, 3, 4, 5, 6, 7, 8],
    ] {
        assert!(manhatten_cost(&board(values)) > 0);
    }
}

#[test]
fn heuristic_changes_by_one_per_move() {
    let b = board([8, 1, 3, 4, 0, 2, 7, 6, 5]);
    let h = manhatten_cost(&b) as i64;
    for n in neighbours(&b) {
        let d = manhatten_cost(&n) as i64 - h;
        assert!(d == 1 || d == -1);
    }
}

#[test]
fn path_replays_to_goal() {
    let start = board([8, 1, 3, 4, 0, 2, 7, 6, 5]);
    let (moves, _) = solved_moves(&start, None);
    let mut prev = start;
    for m in &moves {
        assert!(is_legal_move(&prev, m));
        prev = *m;
    }
    assert_eq!(prev, Board::goal_board());
}

#[test]
fn move_count_is_shortest() {
    for values in [
        [8, 1, 3, 4, 0, 2, 7, 6, 5],
        [4, 1, 3, 7, 2, 6, 0, 5, 8],
        [0, 1, 3, 4, 2, 5, 7, 8, 6],
        [8, 6, 7, 2, 5, 4, 3, 0, 1],
        [6, 4, 7, 8, 5, 0, 3, 2, 1],
    ] {
        let start = board(values);
        let (moves, _) = solved_moves(&start, None);
        assert_eq!(Some(moves.len()), bfs_distance(&start));
    }
}

#[test]
fn expansion_adds_one_visited_board() {
    let start = board([1, 2, 3, 4, 0, 5, 7, 8, 6]);
    let mut nodes = vec![State::new(start)];
    let mut frontier = Frontier::new();
    let mut visited: HashMap<u64, usize> = HashMap::new();
    expand(&mut nodes, &mut frontier, &mut visited, 0);
    assert_eq!(visited.len(), 1);
    assert!(visited.contains_key(&start.key()));
    assert_eq!(nodes.len(), 5);
    for node in &nodes[1..] {
        assert_eq!(node.parent, Some(0));
        assert_eq!(node.cost, 1);
        assert_eq!(node.priority, node.cost + node.heuristic);
        assert!(is_legal_move(&start, &node.board));
    }
}

#[test]
fn expansion_skips_visited_boards() {
    let start = board([1, 2, 3, 4, 5, 6, 7, 0, 8]);
    let mut nodes = vec![State::new(start)];
    let mut frontier = Frontier::new();
    let mut visited: HashMap<u64, usize> = HashMap::new();
    let goal = Board::goal_board();
    visited.insert(goal.key(), 0);
    expand(&mut nodes, &mut frontier, &mut visited, 0);
    assert_eq!(visited.len(), 2);
    assert_eq!(nodes.len(), 3);
    assert!(nodes.iter().skip(1).all(|n| n.board != goal));
}

#[test]
fn frontier_pops_least_priority() {
    let mut f = Frontier::new();
    assert!(f.is_empty());
    f.push(5, 0);
    f.push(2, 1);
    f.push(7, 2);
    f.push(2, 3);
    let (p, _) = f.pop_min().unwrap();
    assert_eq!(p, 2);
    let (p, _) = f.pop_min().unwrap();
    assert_eq!(p, 2);
    assert_eq!(f.pop_min(), Some((5, 0)));
    assert_eq!(f.pop_min(), Some((7, 2)));
    assert_eq!(f.pop_min(), None);
}

#[test]
fn state_new_and_finished() {
    let s = State::new(Board::goal_board());
    assert_eq!(s.cost, 0);
    assert_eq!(s.heuristic, 0);
    assert_eq!(s.parent, None);
    assert!(is_finished(&s));
    let t = State::new(board([1, 2, 3, 4, 5, 6, 7, 0, 8]));
    assert_eq!(t.priority, 1);
    assert!(!is_finished(&t));
}

#[test]
fn path_follows_parent_links() {
    let a = board([1, 2, 3, 4, 5, 6, 0, 7, 8]);
    let b = a.swapped(6, 7);
    let c = b.swapped(7, 8);
    let nodes = vec![
        State::new(a),
        State { board: b, cost: 1, heuristic: 1, priority: 2, parent: Some(0) },
        State { board: c, cost: 2, heuristic: 0, priority: 2, parent: Some(1) },
    ];
    assert_eq!(path(&nodes, 2), vec![b, c]);
    assert_eq!(path(&nodes, 0), Vec::<Board>::new());
    assert!(c.is_goal());
}

#[test]
fn keys_tell_boards_apart() {
    let a = board([1, 2, 3, 4, 5, 6, 7, 8, 0]);
    let b = board([1, 2, 3, 4, 5, 6, 7, 0, 8]);
    assert_ne!(a.key(), b.key());
    assert_eq!(a.key(), Board::goal_board().key());
}

#[test]
fn expansion_of_one_move_board() {
    let start = board([1, 2, 3, 4, 5, 6, 7, 0, 8]);
    let root = State::new(start);
    assert_eq!(root.priority, 1);
    let mut nodes = vec![root];
    let mut frontier = Frontier::new();
    let mut visited: HashMap<u64, usize> = HashMap::new();
    expand(&mut nodes, &mut frontier, &mut visited, 0);
    assert_eq!(visited.len(), 1);
    assert_eq!(nodes.len(), 4);
    let expected = [
        ([1, 2, 3, 4, 5, 6, 7, 8, 0], 1),
        ([1, 2, 3, 4, 5, 6, 0, 7, 8], 3),
        ([1, 2, 3, 4, 0, 6, 7, 5, 8], 3),
    ];
    for (node, (cells, priority)) in nodes[1..].iter().zip(expected.iter()) {
        assert_eq!(node.board.cells(), *cells);
        assert_eq!(node.cost, 1);
        assert_eq!(node.priority, *priority);
        assert_eq!(node.parent, Some(0));
    }
    let (p, x) = frontier.pop_min().unwrap();
    assert_eq!((p, x), (1, 1));
    assert!(nodes[x].board.is_goal());
}
