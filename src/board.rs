use vstd::prelude::*;

verus! {

/// The value of the cell at row `r` and column `c` of a row-major grid.
pub open spec fn cell(g: Seq<u8>, r: int, c: int) -> u8 {
    g[9 * r + c]
}

/// The nine values of row `i`, left to right.
pub open spec fn row_seq(g: Seq<u8>, i: int) -> Seq<u8> {
    Seq::new(9, |k: int| cell(g, i, k))
}

/// The nine values of column `j`, top to bottom.
pub open spec fn col_seq(g: Seq<u8>, j: int) -> Seq<u8> {
    Seq::new(9, |k: int| cell(g, k, j))
}

/// The nine values of the 3x3 block holding the cell `(i, j)`, row by row.
pub open spec fn square_seq(g: Seq<u8>, i: int, j: int) -> Seq<u8> {
    Seq::new(9, |k: int| cell(g, i / 3 * 3 + k / 3, j / 3 * 3 + k % 3))
}

/// Whether `d` occurs in the row, the column or the block of the cell `(i, j)`.
pub open spec fn in_units(g: Seq<u8>, i: int, j: int, d: u8) -> bool {
    row_seq(g, i).contains(d) || col_seq(g, j).contains(d) || square_seq(g, i, j).contains(d)
}

/// The digits `1..=n` that do not occur in the units of the cell `(i, j)`, ascending.
pub open spec fn candidates_upto(g: Seq<u8>, i: int, j: int, n: nat) -> Seq<u8>
    decreases n,
{
    if n == 0 {
        Seq::empty()
    } else {
        let rest = candidates_upto(g, i, j, (n - 1) as nat);
        if in_units(g, i, j, n as u8) {
            rest
        } else {
            rest.push(n as u8)
        }
    }
}

/// The candidate digits of the cell `(i, j)`, ascending.
pub open spec fn candidates(g: Seq<u8>, i: int, j: int) -> Seq<u8> {
    candidates_upto(g, i, j, 9)
}

/// Two distinct cells that share a row, a column or a block.
pub open spec fn peers(r1: int, c1: int, r2: int, c2: int) -> bool {
    &&& 0 <= r1 < 9 && 0 <= c1 < 9 && 0 <= r2 < 9 && 0 <= c2 < 9
    &&& (r1 != r2 || c1 != c2)
    &&& (r1 == r2 || c1 == c2 || (r1 / 3 == r2 / 3 && c1 / 3 == c2 / 3))
}

/// No digit occurs twice in a row, a column or a block.
#[verifier::opaque]
pub open spec fn no_conflict(g: Seq<u8>) -> bool {
    forall|r1: int, c1: int, r2: int, c2: int|
        peers(r1, c1, r2, c2) && #[trigger] cell(g, r1, c1) != 0 ==> cell(g, r1, c1) != #[trigger] cell(g, r2, c2)
}

/// The set of the digits one to nine.
pub open spec fn digit_set() -> Set<u8> {
    Set::new(|d: u8| 1 <= d <= 9)
}

/// Every row, every column and every block holds exactly the digits one to nine.
#[verifier::opaque]
pub open spec fn is_valid(g: Seq<u8>) -> bool {
    &&& g.len() == 81
    &&& forall|i: int| 0 <= i < 9 ==> (#[trigger] row_seq(g, i)).to_set() == digit_set()
    &&& forall|j: int| 0 <= j < 9 ==> (#[trigger] col_seq(g, j)).to_set() == digit_set()
    &&& forall|i: int, j: int| 0 <= i < 9 && 0 <= j < 9 ==> (#[trigger] square_seq(g, i, j)).to_set() == digit_set()
}

/// `s` keeps every non-empty cell of `g`.
pub open spec fn extends(s: Seq<u8>, g: Seq<u8>) -> bool {
    &&& s.len() == 81
    &&& g.len() == 81
    &&& forall|p: int| 0 <= p < 81 && #[trigger] g[p] != 0 ==> s[p] == g[p]
}

/// A completed grid that satisfies every unit and keeps the given digits of `g`.
pub open spec fn solution_of(s: Seq<u8>, g: Seq<u8>) -> bool {
    is_valid(s) && extends(s, g)
}

/// One row-major pass of propagation from position `p` on: each blank cell with
/// exactly one candidate in the grid as it stands gets that candidate.
pub open spec fn propagate_from(g: Seq<u8>, p: nat) -> Seq<u8>
    decreases 81 - p,
{
    if p >= 81 {
        g
    } else {
        let c = candidates(g, p as int / 9, p as int % 9);
        if g[p as int] == 0 && c.len() == 1 {
            propagate_from(g.update(p as int, c[0]), p + 1)
        } else {
            propagate_from(g, p + 1)
        }
    }
}

/// How many cells the pass of `propagate_from` fills.
pub open spec fn fills_from(g: Seq<u8>, p: nat) -> nat
    decreases 81 - p,
{
    if p >= 81 {
        0
    } else {
        let c = candidates(g, p as int / 9, p as int % 9);
        if g[p as int] == 0 && c.len() == 1 {
            1 + fills_from(g.update(p as int, c[0]), p + 1)
        } else {
            fills_from(g, p + 1)
        }
    }
}

/// The positions of the blank cells, ascending: each is blank, and each blank is listed.
pub open spec fn lists_blanks(g: Seq<u8>, r: Seq<usize>) -> bool {
    &&& forall|k: int| 0 <= k < r.len() ==> #[trigger] r[k] < 81 && g[r[k] as int] == 0
    &&& forall|a: int, b: int| 0 <= a < b < r.len() ==> #[trigger] r[a] < #[trigger] r[b]
    &&& forall|p: int| 0 <= p < 81 && #[trigger] g[p] == 0 ==> r.contains(p as usize)
}

/// Whether the nine values are exactly the digits one to nine.
fn is_digit_set(a: &[u8]) -> (r: bool)
    requires
        a@.len() == 9,
    ensures
        r == (a@.to_set() == digit_set()),
{
    let mut k: usize = 0;
    while k < 9
        invariant
            k <= 9,
            a@.len() == 9,
            forall|m: int| 0 <= m < k ==> 1 <= #[trigger] a@[m] <= 9,
        decreases 9 - k,
    {
        if a[k] < 1 || a[k] > 9 {
            assert(a@.to_set().contains(a@[k as int]));
            assert(!digit_set().contains(a@[k as int]));
            return false;
        }
        k = k + 1;
    }
    let mut d: u8 = 1;
    while d <= 9
        invariant
            1 <= d <= 10,
            a@.len() == 9,
            forall|m: int| 0 <= m < 9 ==> 1 <= #[trigger] a@[m] <= 9,
            forall|e: u8| 1 <= e < d ==> #[trigger] a@.contains(e),
        decreases 10 - d,
    {
        if !contains9(a, d) {
            assert(digit_set().contains(d));
            assert(!a@.to_set().contains(d));
            return false;
        }
        d = d + 1;
    }
    assert(a@.to_set() =~= digit_set()) by {
        assert forall|e: u8| a@.to_set().contains(e) implies digit_set().contains(e) by {
            let m = choose|m: int| 0 <= m < 9 && a@[m] == e;
        }
    }
    true
}

/// Whether `d` occurs among the nine values.
fn contains9(a: &[u8], d: u8) -> (r: bool)
    requires
        a@.len() == 9,
    ensures
        r == a@.contains(d),
{
    let mut k: usize = 0;
    while k < 9
        invariant
            k <= 9,
            a@.len() == 9,
            forall|m: int| 0 <= m < k ==> #[trigger] a@[m] != d,
        decreases 9 - k,
    {
        if a[k] == d {
            return true;
        }
        k = k + 1;
    }
    false
}

/// A 9x9 grid in row-major order; `empty_cell_token` marks a blank cell.
pub struct Sudoku {
    pub init_grid: [u8; 81],
    pub grid: [u8; 81],
    pub empty_cell_token: u8,
}

impl Sudoku {
    /// Every cell holds a value in `0..=9`, and zero marks a blank.
    pub open spec fn wf(&self) -> bool {
        &&& self.empty_cell_token == 0
        &&& forall|p: int| 0 <= p < 81 ==> #[trigger] self.grid@[p] <= 9
    }

    /// A grid holding `grid`, which is also kept as the snapshot of the given digits.
    pub fn new(grid: [u8; 81]) -> (s: Sudoku)
        requires
            forall|p: int| 0 <= p < 81 ==> #[trigger] grid@[p] <= 9,
        ensures
            s.wf(),
            s.grid@ == grid@,
            s.init_grid@ == grid@,
    {
        Sudoku { init_grid: grid, grid, empty_cell_token: 0 }
    }

    /// The nine values of row `i`.
    pub fn get_row(&self, i: usize) -> (r: &[u8])
        requires
            i < 9,
        ensures
            r@ == row_seq(self.grid@, i as int),
    {
        let r = &self.grid[i * 9..(i + 1) * 9];
        assert(r@ =~= row_seq(self.grid@, i as int));
        r
    }

    /// The nine values of column `i`.
    pub fn get_column(&self, i: usize) -> (r: [u8; 9])
        requires
            i < 9,
        ensures
            r@ == col_seq(self.grid@, i as int),
    {
        let mut col: [u8; 9] = [0; 9];
        for k in 0usize..9
            invariant
                i < 9,
                forall|m: int| 0 <= m < k ==> col@[m] == cell(self.grid@, m, i as int),
        {
            col[k] = self.grid[i + k * 9];
        }
        assert(col@ =~= col_seq(self.grid@, i as int));
        col
    }

    /// The nine values of the block that holds the cell at row `i`, column `j`.
    pub fn get_square(&self, i: usize, j: usize) -> (r: [u8; 9])
        requires
            i < 9,
            j < 9,
        ensures
            r@ == square_seq(self.grid@, i as int, j as int),
    {
        let mut square: [u8; 9] = [0; 9];
        for k in 0usize..3
            invariant
                i < 9,
                j < 9,
                forall|m: int| 0 <= m < 3 * k ==> square@[m] == cell(self.grid@, i / 3 * 3 + m / 3, j / 3 * 3 + m % 3),
        {
            for l in 0usize..3
                invariant
                    i < 9,
                    j < 9,
                    k < 3,
                    forall|m: int| 0 <= m < 3 * k + l ==> square@[m] == cell(self.grid@, i / 3 * 3 + m / 3, j / 3 * 3 + m % 3),
            {
                assert((3 * k + l) as int / 3 == k && (3 * k + l) as int % 3 == l) by (nonlinear_arith)
                    requires l < 3;
                square[k * 3 + l] = self.grid[(i / 3 * 3 + k) * 9 + (j / 3 * 3 + l)];
            }
        }
        assert(square@ =~= square_seq(self.grid@, i as int, j as int));
        square
    }

    /// The positions of the blank cells in row-major order.
    pub fn get_empty_cells(&self) -> (r: Vec<usize>)
        requires
            self.wf(),
        ensures
            lists_blanks(self.grid@, r@),
    {
        let mut indexes: Vec<usize> = Vec::new();
        for idx in 0usize..81
            invariant
                self.wf(),
                forall|k: int| 0 <= k < indexes@.len() ==> #[trigger] indexes@[k] < idx && self.grid@[indexes@[k] as int] == 0,
                forall|a: int, b: int| 0 <= a < b < indexes@.len() ==> #[trigger] indexes@[a] < #[trigger] indexes@[b],
                forall|p: int| 0 <= p < idx && #[trigger] self.grid@[p] == 0 ==> indexes@.contains(p as usize),
        {
            let ghost before = indexes@;
            if self.grid[idx] == self.empty_cell_token {
                indexes.push(idx);
                assert(indexes@[indexes@.len() - 1] == idx);
                assert forall|p: int| 0 <= p < idx && #[trigger] self.grid@[p] == 0 implies indexes@.contains(p as usize) by {
                    let k = choose|k: int| 0 <= k < before.len() && before[k] == p as usize;
                    assert(indexes@[k] == p as usize);
                }
            }
        }
        indexes
    }

    /// The digits that the row, the column and the block of the blank cell `(i, j)`
    /// leave open, ascending; an error where none is left.
    pub fn get_valid_digits(&self, i: usize, j: usize) -> (r: Result<Vec<u8>, ()>)
        requires
            self.wf(),
            i < 9,
            j < 9,
            self.grid@[9 * i + j] == 0,
        ensures
            match r {
                Ok(v) => v@ == candidates(self.grid@, i as int, j as int) && v@.len() > 0,
                Err(_) => candidates(self.grid@, i as int, j as int).len() == 0,
            },
    {
        let row = self.get_row(i);
        let column = self.get_column(j);
        let square = self.get_square(i, j);
        let mut possible_digits: Vec<u8> = Vec::new();
        let mut d: u8 = 1;
        while d <= 9
            invariant
                1 <= d <= 10,
                i < 9,
                j < 9,
                row@ == row_seq(self.grid@, i as int),
                column@ == col_seq(self.grid@, j as int),
                square@ == square_seq(self.grid@, i as int, j as int),
                possible_digits@ == candidates_upto(self.grid@, i as int, j as int, (d - 1) as nat),
            decreases 10 - d,
        {
            if !contains9(&row, d) && !contains9(&column, d) && !contains9(&square, d) {
                possible_digits.push(d);
            }
            d = d + 1;
        }
        if possible_digits.len() == 0 {
            Err(())
        } else {
            Ok(possible_digits)
        }
    }

    /// One row-major pass that fills each blank cell with exactly one candidate;
    /// returns how many cells it filled.
    pub fn fill_one_possibility_cells(&mut self) -> (n: u8)
        requires
            old(self).wf(),
        ensures
            final(self).wf(),
            final(self).init_grid == old(self).init_grid,
            final(self).grid@ == propagate_from(old(self).grid@, 0),
            n == fills_from(old(self).grid@, 0),
    {
        let ghost g0 = self.grid@;
        let mut updated_cells: u8 = 0;
        for p in 0usize..81
            invariant
                self.wf(),
                self.init_grid == old(self).init_grid,
                propagate_from(self.grid@, p as nat) == propagate_from(g0, 0),
                updated_cells + fills_from(self.grid@, p as nat) == fills_from(g0, 0),
                updated_cells <= p,
        {
            let i = p / 9;
            let j = p % 9;
            if self.grid[p] == self.empty_cell_token {
                match self.get_valid_digits(i, j) {
                    Ok(digits) => {
                        if digits.len() == 1 {
                            proof {
                                lemma_candidates(self.grid@, i as int, j as int);
                            }
                            self.grid[p] = digits[0];
                            updated_cells += 1;
                        }
                    },
                    Err(_) => {},
                }
            }
        }
        updated_cells
    }

    /// Whether two cells that share a row, a column or a block hold the same digit.
    pub fn has_conflicts(&self) -> (r: bool)
        requires
            self.wf(),
        ensures
            r == !no_conflict(self.grid@),
    {
        let mut p: usize = 0;
        while p < 81
            invariant
                self.wf(),
                p <= 81,
                forall|q: int| 0 <= q < p && #[trigger] self.grid@[q] != 0 ==>
                    !in_units(self.grid@.update(q, 0), q / 9, q % 9, self.grid@[q]),
            decreases 81 - p,
        {
            let d = self.grid[p];
            if d != self.empty_cell_token {
                let mut probe = Sudoku { init_grid: self.init_grid, grid: self.grid, empty_cell_token: 0 };
                probe.grid[p] = 0;
                let row = probe.get_row(p / 9);
                let column = probe.get_column(p % 9);
                let square = probe.get_square(p / 9, p % 9);
                if contains9(&row, d) || contains9(&column, d) || contains9(&square, d) {
                    proof {
                        assert(probe.grid@ == self.grid@.update(p as int, 0));
                        lemma_conflict_iff(self.grid@);
                    }
                    return true;
                }
            }
            p = p + 1;
        }
        proof {
            lemma_conflict_iff(self.grid@);
        }
        false
    }

    /// Whether every row, every column and every block holds exactly the digits one to nine.
    pub fn validate(&self) -> (r: bool)
        requires
            self.wf(),
        ensures
            r == is_valid(self.grid@),
    {
        proof {
            reveal(is_valid);
        }
        let mut i: usize = 0;
        while i < 9
            invariant
                i <= 9,
                forall|m: int| 0 <= m < i ==> (#[trigger] row_seq(self.grid@, m)).to_set() == digit_set(),
                forall|m: int| 0 <= m < i ==> (#[trigger] col_seq(self.grid@, m)).to_set() == digit_set(),
            decreases 9 - i,
        {
            let row = self.get_row(i);
            if !is_digit_set(&row) {
                proof {
                    reveal(is_valid);
                }
                return false;
            }
            let column = self.get_column(i);
            if !is_digit_set(&column) {
                proof {
                    reveal(is_valid);
                }
                return false;
            }
            i = i + 1;
        }
        let mut bi: usize = 0;
        while bi < 3
            invariant
                bi <= 3,
                forall|m: int, n: int| 0 <= m < 3 * bi && 0 <= n < 9 ==>
                    (#[trigger] square_seq(self.grid@, m, n)).to_set() == digit_set(),
            decreases 3 - bi,
        {
            let mut bj: usize = 0;
            while bj < 3
                invariant
                    bi < 3,
                    bj <= 3,
                    forall|m: int, n: int| 0 <= m < 3 * bi && 0 <= n < 9 ==>
                        (#[trigger] square_seq(self.grid@, m, n)).to_set() == digit_set(),
                    forall|m: int, n: int| 3 * bi <= m < 3 * bi + 3 && 0 <= n < 3 * bj ==>
                        (#[trigger] square_seq(self.grid@, m, n)).to_set() == digit_set(),
                decreases 3 - bj,
            {
                let square = self.get_square(bi * 3, bj * 3);
                if !is_digit_set(&square) {
                    proof {
                        reveal(is_valid);
                    }
                    return false;
                }
                assert forall|m: int, n: int| 3 * bi <= m < 3 * bi + 3 && 3 * bj <= n < 3 * bj + 3 implies
                    #[trigger] square_seq(self.grid@, m, n) == square_seq(self.grid@, 3 * bi, 3 * bj) by {
                    assert(square_seq(self.grid@, m, n) =~= square_seq(self.grid@, 3 * bi, 3 * bj));
                }
                bj = bj + 1;
            }
            bi = bi + 1;
        }
        true
    }
}

/// The candidates up to `n` lie in `1..=n`.
proof fn lemma_candidates_upto_bounds(g: Seq<u8>, i: int, j: int, n: nat)
    requires
        n <= 9,
    ensures
        forall|k: int| 0 <= k < candidates_upto(g, i, j, n).len() ==> 1 <= #[trigger] candidates_upto(g, i, j, n)[k] <= n,
    decreases n,
{
    if n > 0 {
        lemma_candidates_upto_bounds(g, i, j, (n - 1) as nat);
        let rest = candidates_upto(g, i, j, (n - 1) as nat);
        assert forall|k: int| 0 <= k < candidates_upto(g, i, j, n).len() implies
            1 <= #[trigger] candidates_upto(g, i, j, n)[k] <= n by {
            if k < rest.len() {
                assert(candidates_upto(g, i, j, n)[k] == rest[k]);
            }
        }
    }
}

/// The candidates up to `n` are exactly the digits `1..=n` left open by the units
/// of the cell, in strictly ascending order.
proof fn lemma_candidates_upto(g: Seq<u8>, i: int, j: int, n: nat)
    requires
        n <= 9,
    ensures
        forall|d: u8| #[trigger] candidates_upto(g, i, j, n).contains(d) <==> (1 <= d <= n && !in_units(g, i, j, d)),
        forall|a: int, b: int| 0 <= a < b < candidates_upto(g, i, j, n).len() ==>
            #[trigger] candidates_upto(g, i, j, n)[a] < #[trigger] candidates_upto(g, i, j, n)[b],
        forall|k: int| 0 <= k < candidates_upto(g, i, j, n).len() ==> 1 <= #[trigger] candidates_upto(g, i, j, n)[k] <= n,
        candidates_upto(g, i, j, n).len() <= n,
    decreases n,
{
    lemma_candidates_upto_bounds(g, i, j, n);
    if n > 0 {
        let rest = candidates_upto(g, i, j, (n - 1) as nat);
        lemma_candidates_upto(g, i, j, (n - 1) as nat);
        let c = candidates_upto(g, i, j, n);
        assert forall|d: u8| #[trigger] c.contains(d) <==> (1 <= d <= n && !in_units(g, i, j, d)) by {
            if c.contains(d) && d != n as u8 {
                let k = choose|k: int| 0 <= k < c.len() && c[k] == d;
                assert(rest[k] == d);
            }
            if rest.contains(d) {
                let k = choose|k: int| 0 <= k < rest.len() && rest[k] == d;
                assert(c[k] == d);
            }
            if d == n as u8 && !in_units(g, i, j, d) {
                assert(c[c.len() - 1] == d);
            }
        }
        assert forall|a: int, b: int| 0 <= a < b < c.len() implies #[trigger] c[a] < #[trigger] c[b] by {
            assert(c[a] == rest[a]);
            if b < rest.len() {
                assert(c[b] == rest[b]);
            }
        }
    }
}

/// Which digits are candidates, and their order.
pub proof fn lemma_candidates(g: Seq<u8>, i: int, j: int)
    ensures
        forall|d: u8| #[trigger] candidates(g, i, j).contains(d) <==> (1 <= d <= 9 && !in_units(g, i, j, d)),
        forall|a: int, b: int| 0 <= a < b < candidates(g, i, j).len() ==>
            #[trigger] candidates(g, i, j)[a] < #[trigger] candidates(g, i, j)[b],
        forall|k: int| 0 <= k < candidates(g, i, j).len() ==> 1 <= #[trigger] candidates(g, i, j)[k] <= 9,
        candidates(g, i, j).len() <= 9,
{
    lemma_candidates_upto(g, i, j, 9);
}

/// The ascending sequence of the nine digits.
pub open spec fn digit_seq() -> Seq<u8> {
    Seq::new(9, |k: int| (k + 1) as u8)
}

/// The digits one to nine form a finite set of nine.
proof fn lemma_digit_set_len()
    ensures
        digit_set().finite(),
        digit_set().len() == 9,
{
    let ds = digit_seq();
    assert(ds.to_set() =~= digit_set()) by {
        assert forall|d: u8| digit_set().contains(d) implies ds.to_set().contains(d) by {
            assert(ds[d - 1] == d);
        }
    }
    ds.unique_seq_to_set();
    vstd::seq_lib::seq_to_set_is_finite(ds);
}

/// Nine values make up the digits one to nine exactly when each is a digit and
/// no two are equal.
pub proof fn lemma_unit_digits(s: Seq<u8>)
    requires
        s.len() == 9,
    ensures
        s.to_set() == digit_set() <==> ((forall|k: int| 0 <= k < 9 ==> 1 <= #[trigger] s[k] <= 9) && s.no_duplicates()),
{
    lemma_digit_set_len();
    if s.to_set() == digit_set() {
        assert forall|k: int| 0 <= k < 9 implies 1 <= #[trigger] s[k] <= 9 by {
            assert(s.to_set().contains(s[k]));
        }
        s.lemma_no_dup_set_cardinality();
    }
    if (forall|k: int| 0 <= k < 9 ==> 1 <= #[trigger] s[k] <= 9) && s.no_duplicates() {
        s.unique_seq_to_set();
        assert(s.to_set().subset_of(digit_set()));
        vstd::set_lib::lemma_subset_equality(s.to_set(), digit_set());
    }
}

/// A cell of the block of row `i`, taken by its index `k` within the block.
proof fn lemma_block_arith(i: int, k: int)
    requires
        0 <= i < 9,
        0 <= k < 9,
    ensures
        0 <= i / 3 * 3 + k / 3 < 9,
        (i / 3 * 3 + k / 3) / 3 == i / 3,
        0 <= k % 3 < 3,
        k == k / 3 * 3 + k % 3,
{
}

/// The index within its block of the cell at row `r`, column `c`.
proof fn lemma_block_index(r: int, c: int)
    requires
        0 <= r < 9,
        0 <= c < 9,
    ensures
        0 <= r % 3 * 3 + c % 3 < 9,
        (r % 3 * 3 + c % 3) / 3 == r % 3,
        (r % 3 * 3 + c % 3) % 3 == c % 3,
        r / 3 * 3 + r % 3 == r,
        c / 3 * 3 + c % 3 == c,
{
}

/// A grid satisfies every unit exactly when each cell holds a digit and no
/// two peers hold the same one.
pub proof fn lemma_valid_iff(g: Seq<u8>)
    requires
        g.len() == 81,
    ensures
        is_valid(g) <==> ((forall|p: int| 0 <= p < 81 ==> 1 <= #[trigger] g[p] <= 9) && no_conflict(g)),
{
    reveal(is_valid);
    reveal(no_conflict);
    assert forall|i: int| 0 <= i < 9 implies (#[trigger] row_seq(g, i)).to_set() == digit_set() <==>
        ((forall|k: int| 0 <= k < 9 ==> 1 <= #[trigger] row_seq(g, i)[k] <= 9) && row_seq(g, i).no_duplicates()) by {
        lemma_unit_digits(row_seq(g, i));
    }
    assert forall|j: int| 0 <= j < 9 implies (#[trigger] col_seq(g, j)).to_set() == digit_set() <==>
        ((forall|k: int| 0 <= k < 9 ==> 1 <= #[trigger] col_seq(g, j)[k] <= 9) && col_seq(g, j).no_duplicates()) by {
        lemma_unit_digits(col_seq(g, j));
    }
    assert forall|i: int, j: int| 0 <= i < 9 && 0 <= j < 9 implies (#[trigger] square_seq(g, i, j)).to_set() == digit_set() <==>
        ((forall|k: int| 0 <= k < 9 ==> 1 <= #[trigger] square_seq(g, i, j)[k] <= 9) && square_seq(g, i, j).no_duplicates()) by {
        lemma_unit_digits(square_seq(g, i, j));
    }
    if is_valid(g) {
        assert forall|p: int| 0 <= p < 81 implies 1 <= #[trigger] g[p] <= 9 by {
            assert(row_seq(g, p / 9)[p % 9] == g[p]);
        }
        assert forall|r1: int, c1: int, r2: int, c2: int|
            peers(r1, c1, r2, c2) && #[trigger] cell(g, r1, c1) != 0 implies cell(g, r1, c1) != #[trigger] cell(g, r2, c2) by {
            if r1 == r2 {
                assert(row_seq(g, r1)[c1] == cell(g, r1, c1));
                assert(row_seq(g, r1)[c2] == cell(g, r2, c2));
            } else if c1 == c2 {
                assert(col_seq(g, c1)[r1] == cell(g, r1, c1));
                assert(col_seq(g, c1)[r2] == cell(g, r2, c2));
            } else {
                lemma_block_index(r1, c1);
                lemma_block_index(r2, c2);
                let sq = square_seq(g, r1, c1);
                let k1 = r1 % 3 * 3 + c1 % 3;
                let k2 = r2 % 3 * 3 + c2 % 3;
                assert(sq[k1] == cell(g, r1, c1));
                assert(sq[k2] == cell(g, r2, c2));
            }
        }
    }
    if (forall|p: int| 0 <= p < 81 ==> 1 <= #[trigger] g[p] <= 9) && no_conflict(g) {
        assert forall|i: int| 0 <= i < 9 implies (#[trigger] row_seq(g, i)).to_set() == digit_set() by {
            let s = row_seq(g, i);
            assert forall|k: int| 0 <= k < 9 implies 1 <= #[trigger] s[k] <= 9 by {
                assert(g[9 * i + k] == s[k]);
            }
            assert forall|a: int, b: int| 0 <= a < s.len() && 0 <= b < s.len() && a != b implies s[a] != s[b] by {
                assert(peers(i, a, i, b));
                assert(g[9 * i + a] == s[a]);
            }
        }
        assert forall|j: int| 0 <= j < 9 implies (#[trigger] col_seq(g, j)).to_set() == digit_set() by {
            let s = col_seq(g, j);
            assert forall|k: int| 0 <= k < 9 implies 1 <= #[trigger] s[k] <= 9 by {
                assert(g[9 * k + j] == s[k]);
            }
            assert forall|a: int, b: int| 0 <= a < s.len() && 0 <= b < s.len() && a != b implies s[a] != s[b] by {
                assert(peers(a, j, b, j));
                assert(g[9 * a + j] == s[a]);
            }
        }
        assert forall|i: int, j: int| 0 <= i < 9 && 0 <= j < 9 implies (#[trigger] square_seq(g, i, j)).to_set() == digit_set() by {
            let s = square_seq(g, i, j);
            assert forall|k: int| 0 <= k < 9 implies 1 <= #[trigger] s[k] <= 9 by {
                lemma_block_arith(i, k);
                lemma_block_arith(j, k);
                assert(g[9 * (i / 3 * 3 + k / 3) + (j / 3 * 3 + k % 3)] == s[k]);
            }
            assert forall|a: int, b: int| 0 <= a < s.len() && 0 <= b < s.len() && a != b implies s[a] != s[b] by {
                lemma_block_arith(i, a);
                lemma_block_arith(j, a);
                lemma_block_arith(i, b);
                lemma_block_arith(j, b);
                assert(peers(i / 3 * 3 + a / 3, j / 3 * 3 + a % 3, i / 3 * 3 + b / 3, j / 3 * 3 + b % 3));
                assert(g[9 * (i / 3 * 3 + a / 3) + (j / 3 * 3 + a % 3)] == s[a]);
            }
        }
    }
}

/// In a solution of `h`, every blank cell of `h` holds one of its candidates.
pub proof fn lemma_solution_digit_is_candidate(s: Seq<u8>, h: Seq<u8>, i: int, j: int)
    requires
        solution_of(s, h),
        0 <= i < 9,
        0 <= j < 9,
        h[9 * i + j] == 0,
    ensures
        candidates(h, i, j).contains(s[9 * i + j]),
{
    reveal(no_conflict);
    lemma_valid_iff(s);
    lemma_candidates(h, i, j);
    let d = s[9 * i + j];
    assert(1 <= d <= 9);
    if row_seq(h, i).contains(d) {
        let k = choose|k: int| 0 <= k < 9 && row_seq(h, i)[k] == d;
        assert(h[9 * i + k] == d);
        assert(peers(i, j, i, k));
        assert(cell(s, i, j) != cell(s, i, k));
    }
    if col_seq(h, j).contains(d) {
        let k = choose|k: int| 0 <= k < 9 && col_seq(h, j)[k] == d;
        assert(h[9 * k + j] == d);
        assert(peers(i, j, k, j));
        assert(cell(s, i, j) != cell(s, k, j));
    }
    if square_seq(h, i, j).contains(d) {
        let k = choose|k: int| 0 <= k < 9 && square_seq(h, i, j)[k] == d;
        lemma_block_arith(i, k);
        lemma_block_arith(j, k);
        let r = i / 3 * 3 + k / 3;
        let c = j / 3 * 3 + k % 3;
        assert(h[9 * r + c] == d);
        assert(peers(i, j, r, c));
        assert(cell(s, i, j) != cell(s, r, c));
    }
}

/// Writing a candidate into a blank cell keeps the grid free of conflicts.
pub proof fn lemma_write_candidate(h: Seq<u8>, i: int, j: int, d: u8)
    requires
        h.len() == 81,
        no_conflict(h),
        0 <= i < 9,
        0 <= j < 9,
        h[9 * i + j] == 0,
        candidates(h, i, j).contains(d),
    ensures
        no_conflict(h.update(9 * i + j, d)),
        1 <= d <= 9,
{
    reveal(no_conflict);
    lemma_candidates(h, i, j);
    let h2 = h.update(9 * i + j, d);
    assert forall|r1: int, c1: int, r2: int, c2: int|
        peers(r1, c1, r2, c2) && #[trigger] cell(h2, r1, c1) != 0 implies cell(h2, r1, c1) != #[trigger] cell(h2, r2, c2) by {
        if r1 == i && c1 == j {
            lemma_peer_value_in_units(h, i, j, r2, c2);
        } else if r2 == i && c2 == j {
            lemma_peer_value_in_units(h, i, j, r1, c1);
        } else {
            assert(cell(h2, r1, c1) == cell(h, r1, c1));
            assert(cell(h2, r2, c2) == cell(h, r2, c2));
        }
    }
}

/// The value of any peer of the cell `(i, j)` occurs in its units.
proof fn lemma_peer_value_in_units(h: Seq<u8>, i: int, j: int, r: int, c: int)
    requires
        h.len() == 81,
        peers(i, j, r, c),
    ensures
        in_units(h, i, j, cell(h, r, c)),
{
    if r == i {
        assert(row_seq(h, i)[c] == cell(h, r, c));
    } else if c == j {
        assert(col_seq(h, j)[r] == cell(h, r, c));
    } else {
        lemma_block_index(r, c);
        let k = r % 3 * 3 + c % 3;
        assert(square_seq(h, i, j)[k] == cell(h, r, c));
    }
}

/// A pass of propagation keeps the grid free of conflicts, keeps every filled
/// cell, and has the same solutions as the grid it started from.
pub proof fn lemma_propagate(g: Seq<u8>, p: nat)
    requires
        g.len() == 81,
        no_conflict(g),
        p <= 81,
    ensures
        propagate_from(g, p).len() == 81,
        no_conflict(propagate_from(g, p)),
        extends(propagate_from(g, p), g),
        forall|s: Seq<u8>| solution_of(s, g) <==> #[trigger] solution_of(s, propagate_from(g, p)),
    decreases 81 - p,
{
    if p < 81 {
        let i = p as int / 9;
        let j = p as int % 9;
        let c = candidates(g, i, j);
        if g[p as int] == 0 && c.len() == 1 {
            let g2 = g.update(p as int, c[0]);
            assert(c.contains(c[0]));
            lemma_write_candidate(g, i, j, c[0]);
            lemma_propagate(g2, p + 1);
            assert(p as int == 9 * i + j);
            assert(extends(g2, g));
            let pg = propagate_from(g, p);
            assert(pg == propagate_from(g2, p + 1));
            assert(extends(pg, g)) by {
                assert forall|q: int| 0 <= q < 81 && #[trigger] g[q] != 0 implies pg[q] == g[q] by {
                    assert(g2[q] == g[q]);
                }
            }
            assert forall|s: Seq<u8>| solution_of(s, g) implies solution_of(s, g2) by {
                lemma_solution_digit_is_candidate(s, g, i, j);
                let k = choose|k: int| 0 <= k < c.len() && c[k] == s[p as int];
            }
            assert forall|s: Seq<u8>| solution_of(s, g2) implies solution_of(s, g) by {
                assert forall|q: int| 0 <= q < 81 && #[trigger] g[q] != 0 implies s[q] == g[q] by {
                    assert(g2[q] == g[q]);
                }
            }
            assert forall|s: Seq<u8>| solution_of(s, g) <==> #[trigger] solution_of(s, pg) by {
                if solution_of(s, g) {
                    assert(solution_of(s, g2));
                }
                if solution_of(s, pg) {
                    assert(solution_of(s, g2));
                }
            }
        } else {
            lemma_propagate(g, p + 1);
        }
    }
}

/// On a grid where no blank cell has a single candidate, a pass of propagation
/// from `p` on writes nothing and fills no cell.
pub proof fn lemma_propagate_without_singles(g: Seq<u8>, p: nat)
    requires
        g.len() == 81,
        forall|q: int| 0 <= q < 81 && g[q] == 0 ==> #[trigger] candidates(g, q / 9, q % 9).len() != 1,
    ensures
        propagate_from(g, p) == g,
        fills_from(g, p) == 0,
    decreases 81 - p,
{
    if p < 81 {
        assert(g[p as int] == 0 ==> candidates(g, p as int / 9, p as int % 9).len() != 1);
        lemma_propagate_without_singles(g, p + 1);
    }
}

/// A digit in the units of a cell that the cell does not hold sits in a peer.
proof fn lemma_in_units_peer(h: Seq<u8>, i: int, j: int, d: u8)
    requires
        h.len() == 81,
        0 <= i < 9,
        0 <= j < 9,
        in_units(h, i, j, d),
        cell(h, i, j) != d,
    ensures
        exists|r: int, c: int| peers(i, j, r, c) && cell(h, r, c) == d,
{
    if row_seq(h, i).contains(d) {
        let k = choose|k: int| 0 <= k < 9 && row_seq(h, i)[k] == d;
        assert(peers(i, j, i, k) && cell(h, i, k) == d);
    } else if col_seq(h, j).contains(d) {
        let k = choose|k: int| 0 <= k < 9 && col_seq(h, j)[k] == d;
        assert(peers(i, j, k, j) && cell(h, k, j) == d);
    } else {
        let k = choose|k: int| 0 <= k < 9 && square_seq(h, i, j)[k] == d;
        lemma_block_arith(i, k);
        lemma_block_arith(j, k);
        let r = i / 3 * 3 + k / 3;
        let c = j / 3 * 3 + k % 3;
        assert(peers(i, j, r, c) && cell(h, r, c) == d);
    }
}

/// A grid is free of conflicts exactly when no filled cell's digit occurs in
/// its units once the cell itself is blanked.
pub proof fn lemma_conflict_iff(g: Seq<u8>)
    requires
        g.len() == 81,
    ensures
        no_conflict(g) <==> forall|q: int| 0 <= q < 81 && #[trigger] g[q] != 0 ==>
            !in_units(g.update(q, 0), q / 9, q % 9, g[q]),
{
    reveal(no_conflict);
    if no_conflict(g) {
        assert forall|q: int| 0 <= q < 81 && #[trigger] g[q] != 0 implies
            !in_units(g.update(q, 0), q / 9, q % 9, g[q]) by {
            let h = g.update(q, 0);
            if in_units(h, q / 9, q % 9, g[q]) {
                lemma_in_units_peer(h, q / 9, q % 9, g[q]);
                let (r, c) = choose|r: int, c: int| peers(q / 9, q % 9, r, c) && cell(h, r, c) == g[q];
                assert(cell(g, r, c) == cell(h, r, c));
                assert(cell(g, q / 9, q % 9) != cell(g, r, c));
            }
        }
    }
    if forall|q: int| 0 <= q < 81 && #[trigger] g[q] != 0 ==> !in_units(g.update(q, 0), q / 9, q % 9, g[q]) {
        assert forall|r1: int, c1: int, r2: int, c2: int|
            peers(r1, c1, r2, c2) && #[trigger] cell(g, r1, c1) != 0 implies cell(g, r1, c1) != #[trigger] cell(g, r2, c2) by {
            let q = 9 * r1 + c1;
            let h = g.update(q, 0);
            assert(q / 9 == r1 && q % 9 == c1);
            assert(cell(h, r2, c2) == cell(g, r2, c2));
            lemma_peer_value_in_units(h, r1, c1, r2, c2);
            assert(g[q] != 0);
        }
    }
}

} // verus!
