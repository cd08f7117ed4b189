use vstd::prelude::*;

verus! {

/// Number of cells on the 3x3 board.
pub const CELLS: usize = 9;

/// A 3x3 sliding-tile board stored in row-major order; `0` is the blank.
#[derive(Clone, Copy, Debug, Eq)]
pub struct Board {
    cells: [u8; 9],
}

/// Why a list of nine input values does not describe a board.
#[derive(Clone, Copy, Debug, PartialEq, Eq, Structural)]
pub enum InputError {
    /// The value at `index` lies outside `0..=8`.
    OutOfRange { index: usize, value: i64 },
    /// The value at `index` already occurred at an earlier position.
    Duplicate { index: usize, value: i64 },
}

impl PartialEq for Board {
    fn eq(&self, other: &Board) -> (r: bool) {
        let mut i: usize = 0;
        while i < CELLS
            invariant
                i <= 9,
                self.cells@.len() == 9,
                other.cells@.len() == 9,
                forall|k: int| 0 <= k < i ==> self.cells@[k] == other.cells@[k],
            decreases 9 - i,
        {
            if self.cells[i] != other.cells[i] {
                return false;
            }
            i = i + 1;
        }
        assert(self.cells@ =~= other.cells@);
        true
    }
}

impl vstd::std_specs::cmp::PartialEqSpecImpl for Board {
    open spec fn obeys_eq_spec() -> bool {
        true
    }

    open spec fn eq_spec(&self, other: &Board) -> bool {
        self@ == other@
    }
}

impl View for Board {
    type V = Seq<u8>;

    closed spec fn view(&self) -> Seq<u8> {
        self.cells@
    }
}

/// A well-formed board: nine distinct tiles, each in `0..=8`.
pub open spec fn board_wf(s: Seq<u8>) -> bool {
    &&& s.len() == 9
    &&& forall|i: int| 0 <= i < 9 ==> #[trigger] s[i] < 9
    &&& forall|i: int, j: int| 0 <= i < j < 9 ==> s[i] != s[j]
}

/// The solved configuration `1 2 3 / 4 5 6 / 7 8 0`.
pub open spec fn goal() -> Seq<u8> {
    seq![1u8, 2u8, 3u8, 4u8, 5u8, 6u8, 7u8, 8u8, 0u8]
}

/// The cell next to `p` in direction `d` (right, down, left, up), or `-1`
/// when that direction leaves the grid.
pub open spec fn neighbor(p: int, d: int) -> int {
    if d == 0 {
        if p % 3 != 2 { p + 1 } else { -1 }
    } else if d == 1 {
        if p < 6 { p + 3 } else { -1 }
    } else if d == 2 {
        if p % 3 != 0 { p - 1 } else { -1 }
    } else {
        if p >= 3 { p - 3 } else { -1 }
    }
}

/// The board `s` with the contents of cells `p` and `q` exchanged.
pub open spec fn swap_cells(s: Seq<u8>, p: int, q: int) -> Seq<u8> {
    s.update(p, s[q]).update(q, s[p])
}

/// `b` follows from `a` by sliding one tile next to the blank into it.
pub open spec fn is_move(a: Seq<u8>, b: Seq<u8>) -> bool {
    exists|p: int, d: int|
        0 <= p < 9 && 0 <= d < 4 && a[p] == 0 && neighbor(p, d) >= 0 && b == swap_cells(
            a,
            p,
            neighbor(p, d),
        )
}

/// Replaying `moves` from `start` takes a legal move at every step.
pub open spec fn is_walk(start: Seq<u8>, moves: Seq<Seq<u8>>) -> bool {
    forall|k: int|
        0 <= k < moves.len() ==> is_move(
            if k == 0 { start } else { moves[k - 1] },
            #[trigger] moves[k],
        )
}

/// The board reached after replaying `moves` from `start`.
pub open spec fn walk_end(start: Seq<u8>, moves: Seq<Seq<u8>>) -> Seq<u8> {
    if moves.len() == 0 { start } else { moves.last() }
}

/// A value is acceptable at position `i` when it is in range and new.
pub open spec fn value_ok(vals: Seq<i64>, i: int) -> bool {
    &&& 0 <= vals[i] <= 8
    &&& forall|j: int| 0 <= j < i ==> vals[j] != vals[i]
}

/// Every position before `n` holds an acceptable value.
pub open spec fn prefix_ok(vals: Seq<i64>, n: int) -> bool {
    forall|i: int| 0 <= i < n ==> #[trigger] value_ok(vals, i)
}

/// A digit-per-cell key of a board: cell `0` is the lowest base-9 digit.
pub open spec fn code(s: Seq<u8>) -> nat
    decreases s.len(),
{
    if s.len() == 0 {
        0
    } else {
        s[0] as nat + 9 * code(s.drop_first())
    }
}

/// `9` to the power `n`.
pub open spec fn pow9(n: nat) -> nat
    decreases n,
{
    if n == 0 {
        1
    } else {
        9 * pow9((n - 1) as nat)
    }
}

/// Every key of a board is below this bound.
pub open spec fn code_bound() -> nat {
    pow9(9)
}

/// A key has one base-9 digit per cell.
pub proof fn lemma_code_bound(s: Seq<u8>)
    requires
        forall|i: int| 0 <= i < s.len() ==> #[trigger] s[i] < 9,
    ensures
        code(s) < pow9(s.len()),
    decreases s.len(),
{
    if s.len() > 0 {
        let t = s.drop_first();
        assert forall|i: int| 0 <= i < t.len() implies #[trigger] t[i] < 9 by {
            assert(t[i] == s[i + 1]);
        }
        lemma_code_bound(t);
        let c = code(t);
        let p = pow9(t.len());
        let d = s[0] as nat;
        assert(d + 9 * c < 9 * p) by (nonlinear_arith)
            requires
                d < 9,
                c < p,
        ;
    }
}

/// The key bound, written out.
pub proof fn lemma_pow9_nine()
    ensures
        code_bound() == 387420489,
{
    reveal_with_fuel(pow9, 10);
}

/// Two boards of equal length with small cells have equal keys only when
/// they are equal.
pub proof fn lemma_code_injective(a: Seq<u8>, b: Seq<u8>)
    requires
        a.len() == b.len(),
        forall|i: int| 0 <= i < a.len() ==> #[trigger] a[i] < 9,
        forall|i: int| 0 <= i < b.len() ==> #[trigger] b[i] < 9,
        code(a) == code(b),
    ensures
        a == b,
    decreases a.len(),
{
    if a.len() > 0 {
        let ta = a.drop_first();
        let tb = b.drop_first();
        let x = a[0] as int;
        let y = b[0] as int;
        let ca = code(ta) as int;
        let cb = code(tb) as int;
        assert(x == y && ca == cb) by (nonlinear_arith)
            requires
                0 <= x < 9,
                0 <= y < 9,
                0 <= ca,
                0 <= cb,
                x + 9 * ca == y + 9 * cb,
        ;
        assert forall|i: int| 0 <= i < ta.len() implies #[trigger] ta[i] < 9 by {
            assert(ta[i] == a[i + 1]);
        }
        assert forall|i: int| 0 <= i < tb.len() implies #[trigger] tb[i] < 9 by {
            assert(tb[i] == b[i + 1]);
        }
        lemma_code_injective(ta, tb);
        assert(a =~= b) by {
            assert forall|i: int| 0 <= i < a.len() implies a[i] == b[i] by {
                if i > 0 {
                    assert(a[i] == ta[i - 1]);
                    assert(b[i] == tb[i - 1]);
                }
            }
        }
    }
}

/// A well-formed board has a blank: nine distinct tiles cannot all come
/// from the eight values `1..=8`.
pub proof fn lemma_blank_exists(s: Seq<u8>)
    requires
        board_wf(s),
    ensures
        exists|p: int| 0 <= p < 9 && s[p] == 0,
{
    if forall|p: int| 0 <= p < 9 ==> s[p] != 0 {
        assert forall|i: int, j: int| 0 <= i < s.len() && 0 <= j < s.len() && i != j implies s[i]
            != s[j] by {
            if i < j {
                assert(s[i] != s[j]);
            } else {
                assert(s[j] != s[i]);
            }
        }
        assert(s.no_duplicates());
        s.unique_seq_to_set();
        let tiles = set![1u8, 2u8, 3u8, 4u8, 5u8, 6u8, 7u8, 8u8];
        assert forall|v: u8| s.to_set().contains(v) implies tiles.contains(v) by {
            let i = choose|i: int| 0 <= i < s.len() && s[i] == v;
            assert(s[i] < 9 && s[i] != 0);
        }
        vstd::set_lib::lemma_len_subset(s.to_set(), tiles);
        assert(tiles.len() == 8);
    }
}

/// A legal move changes the board.
pub proof fn lemma_move_changes(a: Seq<u8>, b: Seq<u8>)
    requires
        board_wf(a),
        is_move(a, b),
    ensures
        a != b,
{
    let (p, d) = choose|p: int, d: int|
        0 <= p < 9 && 0 <= d < 4 && a[p] == 0 && neighbor(p, d) >= 0 && b == swap_cells(
            a,
            p,
            neighbor(p, d),
        );
    let q = neighbor(p, d);
    if q < p {
        assert(a[q] != a[p]);
    } else {
        assert(a[p] != a[q]);
    }
    assert(b[p] != a[p]);
}

/// A legal move keeps a board well formed.
pub proof fn lemma_swap_wf(s: Seq<u8>, p: int, q: int)
    requires
        board_wf(s),
        0 <= p < 9,
        0 <= q < 9,
    ensures
        board_wf(swap_cells(s, p, q)),
{
    let t = swap_cells(s, p, q);
    assert forall|i: int, j: int| 0 <= i < j < 9 implies t[i] != t[j] by {
        let si = if i == p { q } else if i == q { p } else { i };
        let sj = if j == p { q } else if j == q { p } else { j };
        assert(t[i] == s[si]);
        assert(t[j] == s[sj]);
        if si < sj {
            assert(s[si] != s[sj]);
        } else {
            assert(s[sj] != s[si]);
        }
    }
}

impl Board {
    /// The goal board.
    pub fn goal_board() -> (r: Board)
        ensures
            r@ == goal(),
    {
        let r = Board { cells: [1, 2, 3, 4, 5, 6, 7, 8, 0] };
        assert(r@ =~= goal());
        r
    }

    /// Builds a board from nine values in row-major order, rejecting the first
    /// value that is out of range or repeats an earlier one.
    pub fn from_values(values: [i64; 9]) -> (r: Result<Board, InputError>)
        ensures
            r is Ok <==> prefix_ok(values@, 9),
            r matches Ok(b) ==> b@.len() == 9 && forall|i: int|
                0 <= i < 9 ==> b@[i] as i64 == values@[i],
            r matches Ok(b) ==> board_wf(b@),
            r matches Err(InputError::OutOfRange { index, value }) ==> {
                &&& index < 9
                &&& prefix_ok(values@, index as int)
                &&& value == values@[index as int]
                &&& !(0 <= value <= 8)
            },
            r matches Err(InputError::Duplicate { index, value }) ==> {
                &&& index < 9
                &&& prefix_ok(values@, index as int)
                &&& value == values@[index as int]
                &&& 0 <= value <= 8
                &&& exists|j: int| 0 <= j < index && values@[j] == value
            },
    {
        let mut cells: [u8; 9] = [0; 9];
        let mut i: usize = 0;
        while i < CELLS
            invariant
                i <= 9,
                prefix_ok(values@, i as int),
                cells@.len() == 9,
                forall|k: int| 0 <= k < i ==> cells@[k] as i64 == values@[k],
            decreases 9 - i,
        {
            let v = values[i];
            if v < 0 || v > 8 {
                assert(!value_ok(values@, i as int));
                return Err(InputError::OutOfRange { index: i, value: v });
            }
            let mut j: usize = 0;
            while j < i
                invariant
                    j <= i < 9,
                    0 <= v <= 8,
                    prefix_ok(values@, i as int),
                    v == values@[i as int],
                    forall|k: int| 0 <= k < j ==> values@[k] != v,
                decreases i - j,
            {
                if values[j] == v {
                    assert(values@[j as int] == v);
                    assert(!value_ok(values@, i as int));
                    return Err(InputError::Duplicate { index: i, value: v });
                }
                j = j + 1;
            }
            cells[i] = v as u8;
            assert(value_ok(values@, i as int));
            i = i + 1;
        }
        let b = Board { cells };
        assert(b@ == cells@);
        assert forall|x: int, y: int| 0 <= x < y < 9 implies b@[x] != b@[y] by {
            assert(value_ok(values@, y));
            assert(b@[x] as i64 == values@[x]);
            assert(b@[y] as i64 == values@[y]);
        }
        assert forall|x: int| 0 <= x < 9 implies #[trigger] b@[x] < 9 by {
            assert(value_ok(values@, x));
        }
        Ok(b)
    }

    /// The nine cells in row-major order.
    pub fn cells(&self) -> (r: [u8; 9])
        ensures
            r@ == self@,
    {
        self.cells
    }

    /// The tile at `index` (row-major).
    pub fn get(&self, index: usize) -> (r: u8)
        requires
            index < 9,
            self@.len() == 9,
        ensures
            r == self@[index as int],
    {
        self.cells[index]
    }

    /// Whether this is the goal board.
    pub fn is_goal(&self) -> (r: bool)
        ensures
            r == (self@ == goal()),
    {
        let goal_cells: [u8; 9] = [1, 2, 3, 4, 5, 6, 7, 8, 0];
        let mut i: usize = 0;
        while i < CELLS
            invariant
                i <= 9,
                goal_cells@ == goal(),
                self@.len() == 9,
                forall|k: int| 0 <= k < i ==> self@[k] == goal()[k],
            decreases 9 - i,
        {
            if self.cells[i] != goal_cells[i] {
                return false;
            }
            i = i + 1;
        }
        assert(self@ =~= goal());
        true
    }

    /// The position of the first blank, if any.
    pub fn blank(&self) -> (r: Option<usize>)
        requires
            self@.len() == 9,
        ensures
            r matches Some(p) ==> p < 9 && self@[p as int] == 0 && forall|k: int|
                0 <= k < p ==> self@[k] != 0,
            r is None ==> forall|k: int| 0 <= k < 9 ==> self@[k] != 0,
    {
        let mut i: usize = 0;
        while i < CELLS
            invariant
                i <= 9,
                self@.len() == 9,
                forall|k: int| 0 <= k < i ==> self@[k] != 0,
            decreases 9 - i,
        {
            if self.cells[i] == 0 {
                return Some(i);
            }
            i = i + 1;
        }
        None
    }

    /// The board with cells `p` and `q` exchanged.
    pub fn swapped(&self, p: usize, q: usize) -> (r: Board)
        requires
            p < 9,
            q < 9,
            self@.len() == 9,
        ensures
            r@ == swap_cells(self@, p as int, q as int),
    {
        let mut cells = self.cells;
        let a = cells[p];
        let b = cells[q];
        cells[p] = b;
        cells[q] = a;
        let r = Board { cells };
        assert(r@ =~= swap_cells(self@, p as int, q as int));
        r
    }

    /// The key of this board: its cells as base-9 digits, cell `0` lowest.
    pub fn key(&self) -> (r: u64)
        requires
            board_wf(self@),
        ensures
            r as nat == code(self@),
            r < code_bound(),
    {
        let s = Ghost(self@);
        let mut c: u64 = 0;
        let mut i: usize = CELLS;
        proof {
            lemma_pow9_nine();
        }
        while i > 0
            invariant
                i <= 9,
                s@ == self@,
                board_wf(s@),
                c as nat == code(s@.subrange(i as int, 9)),
                c < pow9((9 - i) as nat),
                pow9(9) == 387420489,
            decreases i,
        {
            let ghost old_i = i;
            i = i - 1;
            let ghost t = s@.subrange(i as int, 9);
            assert(t.drop_first() =~= s@.subrange(old_i as int, 9));
            proof {
                assert(pow9((9 - old_i) as nat) <= 43046721) by {
                    lemma_pow9_mono((9 - old_i) as nat, 8);
                    reveal_with_fuel(pow9, 9);
                }
            }
            c = (self.cells[i] as u64) + 9 * c;
            proof {
                let u = s@.subrange(i as int, 9);
                assert forall|k: int| 0 <= k < u.len() implies #[trigger] u[k] < 9 by {
                    assert(u[k] == s@[i + k]);
                }
                lemma_code_bound(u);
            }
        }
        assert(s@.subrange(0, 9) =~= s@);
        c
    }
}

/// The cell next to `p` in direction `d`, if it lies on the grid.
pub fn neighbor_cell(p: usize, d: usize) -> (r: Option<usize>)
    requires
        p < 9,
        d < 4,
    ensures
        r matches Some(q) ==> q == neighbor(p as int, d as int) && q < 9,
        r is None ==> neighbor(p as int, d as int) < 0,
{
    if d == 0 {
        if p % 3 != 2 { Some(p + 1) } else { None }
    } else if d == 1 {
        if p < 6 { Some(p + 3) } else { None }
    } else if d == 2 {
        if p % 3 != 0 { Some(p - 1) } else { None }
    } else {
        if p >= 3 { Some(p - 3) } else { None }
    }
}

/// Powers of nine grow with the exponent.
pub proof fn lemma_pow9_mono(a: nat, b: nat)
    requires
        a <= b,
    ensures
        pow9(a) <= pow9(b),
    decreases b,
{
    if a < b {
        lemma_pow9_mono(a, (b - 1) as nat);
    }
}

} // verus!
