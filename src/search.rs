use vstd::prelude::*;
use crate::board::{
    candidates, cell, extends, lemma_candidates, lemma_propagate, lemma_solution_digit_is_candidate,
    lemma_valid_iff, lemma_write_candidate, lists_blanks, no_conflict, peers, propagate_from, solution_of,
    Sudoku,
};

verus! {

/// One open cell of the search: its position, the digits it may take (as they
/// were when the cell was reached) and which of them is placed now.
pub struct PathElement {
    pub idx_cell: usize,
    pub valid_digits: Vec<u8>,
    pub idx_digit: Option<usize>,
}

/// The index of the digit placed now, or `-1` before the first one.
pub open spec fn cursor(f: PathElement) -> int {
    match f.idx_digit {
        Some(k) => k as int,
        None => -1,
    }
}

/// The digit that the frame has placed.
pub open spec fn digit_of(f: PathElement) -> u8 {
    f.valid_digits@[cursor(f)]
}

/// How many digits the frame has not tried yet.
pub open spec fn remaining(f: PathElement) -> int {
    f.valid_digits@.len() - 1 - cursor(f)
}

impl PathElement {
    /// The digit placed now.
    pub fn get_digit(&self) -> (d: u8)
        requires
            0 <= cursor(*self) < self.valid_digits@.len(),
        ensures
            d == digit_of(*self),
    {
        match self.idx_digit {
            Some(k) => self.valid_digits[k],
            None => self.valid_digits[0],
        }
    }

    /// Moves to the next digit; an error, with nothing changed, where none is left.
    pub fn increase_digit(&mut self) -> (r: Result<(), ()>)
        requires
            cursor(*old(self)) < old(self).valid_digits@.len(),
        ensures
            final(self).idx_cell == old(self).idx_cell,
            final(self).valid_digits@ == old(self).valid_digits@,
            r is Ok <==> cursor(*old(self)) + 1 < old(self).valid_digits@.len(),
            r is Ok ==> final(self).idx_digit == Some((cursor(*old(self)) + 1) as usize),
            r is Err ==> final(self).idx_digit == old(self).idx_digit,
    {
        if let Some(idx_digit) = self.idx_digit {
            if self.valid_digits.len() - idx_digit <= 1 {
                Err(())
            } else {
                self.idx_digit = Some(idx_digit + 1);
                Ok(())
            }
        } else if self.valid_digits.len() == 0 {
            Err(())
        } else {
            self.idx_digit = Some(0);
            Ok(())
        }
    }
}

/// The grid reached from `base` by placing the digits of the first `k` frames.
pub open spec fn grid_at(base: Seq<u8>, empties: Seq<usize>, path: Seq<PathElement>, k: nat) -> Seq<u8>
    decreases k,
{
    if k == 0 {
        base
    } else {
        grid_at(base, empties, path, (k - 1) as nat).update(
            empties[k - 1] as int,
            digit_of(path[k - 1]),
        )
    }
}

/// `s` holds the digits of the first `k` frames in their cells.
pub open spec fn agrees(s: Seq<u8>, empties: Seq<usize>, path: Seq<PathElement>, k: int) -> bool {
    forall|j: int| 0 <= j < k ==> s[#[trigger] empties[j] as int] == digit_of(path[j])
}

/// The index of the latest of the first `n` frames with a digit left to try,
/// or `-1` where there is none.
pub open spec fn last_open(path: Seq<PathElement>, n: int) -> int
    decreases n,
{
    if n <= 0 {
        -1
    } else if remaining(path[n - 1]) > 0 {
        n - 1
    } else {
        last_open(path, n - 1)
    }
}

/// Big-endian value of a sequence of decimal digits.
pub open spec fn decimal(s: Seq<int>) -> int
    decreases s.len(),
{
    if s.len() == 0 {
        0
    } else {
        s[0] * pow10((s.len() - 1) as nat) + decimal(s.drop_first())
    }
}

/// Ten to the `n`.
pub open spec fn pow10(n: nat) -> int
    decreases n,
{
    if n == 0 {
        1
    } else {
        10 * pow10((n - 1) as nat)
    }
}

/// The state of a depth-first search: the blank cells in the order they are
/// visited, and one frame for each of the first of them that holds a digit.
pub struct SearchState {
    pub empty_cells: Vec<usize>,
    pub path: Vec<PathElement>,
    pub base: Ghost<Seq<u8>>,
}

impl SearchState {
    /// The untried digits of each frame, then nine for each cell not reached.
    pub open spec fn progress(&self) -> Seq<int> {
        Seq::new(
            self.empty_cells@.len(),
            |k: int| if k < self.path@.len() { remaining(self.path@[k]) } else { 9 },
        )
    }

    /// Decreases with every step of the search.
    pub open spec fn measure(&self) -> int {
        decimal(self.progress())
    }

    /// The grid that the first `k` frames reach from the base.
    pub open spec fn grid_at(&self, k: nat) -> Seq<u8> {
        grid_at(self.base@, self.empty_cells@, self.path@, k)
    }

    /// The search state belongs to `grid`: `grid` is the base with the frames'
    /// digits placed, each frame's digits are the candidates of its cell when it
    /// was reached, and no solution of the base comes before the frames' digits.
    pub open spec fn wf(&self, grid: Seq<u8>) -> bool {
        let base = self.base@;
        let e = self.empty_cells@;
        let path = self.path@;
        &&& base.len() == 81
        &&& forall|p: int| 0 <= p < 81 ==> #[trigger] base[p] <= 9
        &&& no_conflict(base)
        &&& lists_blanks(base, e)
        &&& path.len() <= e.len()
        &&& frames_ok(base, e, path)
        &&& grids_ok(base, e, path)
        &&& none_before(base, e, path)
        &&& grid == self.grid_at(path.len())
    }

    /// No solution of the base holds the digits of all the frames.
    pub open spec fn exhausted(&self) -> bool {
        exhausted_path(self.base@, self.empty_cells@, self.path@)
    }
}

/// Each frame sits on its cell, has a digit placed, and holds the candidates
/// that its cell has in the grid that the frames before it reach.
#[verifier::opaque]
pub open spec fn frames_ok(base: Seq<u8>, e: Seq<usize>, path: Seq<PathElement>) -> bool {
    forall|k: int| 0 <= k < path.len() ==> {
        &&& (#[trigger] path[k]).idx_cell == e[k]
        &&& 0 <= cursor(path[k]) < path[k].valid_digits@.len()
        &&& path[k].valid_digits@ == candidates(grid_at(base, e, path, k as nat), e[k] as int / 9, e[k] as int % 9)
    }
}

/// Every grid along the path is free of conflicts.
#[verifier::opaque]
pub open spec fn grids_ok(base: Seq<u8>, e: Seq<usize>, path: Seq<PathElement>) -> bool {
    forall|k: nat| k <= path.len() ==> no_conflict(#[trigger] grid_at(base, e, path, k))
}

/// No solution of the base is smaller than the frames' digits at the first
/// frame where it departs from them.
#[verifier::opaque]
pub open spec fn none_before(base: Seq<u8>, e: Seq<usize>, path: Seq<PathElement>) -> bool {
    forall|s: Seq<u8>, k: int|
        solution_of(s, base) && 0 <= k < path.len() && agrees(s, e, path, k) ==>
            #[trigger] s[e[k] as int] >= digit_of(#[trigger] path[k])
}

/// No solution of the base holds the digits of all the frames.
#[verifier::opaque]
pub open spec fn exhausted_path(base: Seq<u8>, e: Seq<usize>, path: Seq<PathElement>) -> bool {
    forall|s: Seq<u8>| solution_of(s, base) ==> !agrees(s, e, path, path.len() as int)
}

impl SearchState {
    /// A search over the blank cells of `sudoku`, with no cell visited yet.
    pub fn new(sudoku: &Sudoku) -> (st: SearchState)
        requires
            sudoku.wf(),
            no_conflict(sudoku.grid@),
        ensures
            st.wf(sudoku.grid@),
            st.base@ == sudoku.grid@,
            st.path@.len() == 0,
    {
        let st = SearchState { empty_cells: sudoku.get_empty_cells(), path: Vec::new(), base: Ghost(sudoku.grid@) };
        proof {
            reveal(frames_ok);
            reveal(grids_ok);
            reveal(none_before);
        }
        st
    }
}

impl Sudoku {
    /// One step of the search: reach the next blank cell and place its first
    /// candidate, or, where it has none, back off to the latest cell with an
    /// untried digit and place that. Returns false when no such cell is left,
    /// that is when the base has no solution.
    pub fn search_step(&mut self, state: &mut SearchState) -> (advanced: bool)
        requires
            old(self).wf(),
            old(state).wf(old(self).grid@),
            old(state).path@.len() < old(state).empty_cells@.len(),
        ensures
            final(self).wf(),
            final(self).init_grid == old(self).init_grid,
            final(state).base == old(state).base,
            final(state).empty_cells@ == old(state).empty_cells@,
            final(state).wf(final(self).grid@),
            advanced ==> final(state).measure() < old(state).measure(),
            !advanced ==> final(state).path@.len() == 0,
            !advanced ==> forall|s: Seq<u8>| !solution_of(s, old(state).base@),
            ({
                let l = old(state).path@.len() as int;
                let p = old(state).empty_cells@[l] as int;
                let c = candidates(old(self).grid@, p / 9, p % 9);
                let t = last_open(old(state).path@, l);
                let path = final(state).path@;
                &&& c.len() > 0 ==> {
                    &&& advanced
                    &&& path.len() == l + 1
                    &&& forall|j: int| 0 <= j < l ==> path[j] == old(state).path@[j]
                    &&& path[l].idx_cell == p
                    &&& path[l].valid_digits@ == c
                    &&& path[l].idx_digit == Some(0usize)
                }
                &&& c.len() == 0 ==> {
                    &&& advanced == (t >= 0)
                    &&& path.len() == t + 1
                    &&& forall|j: int| 0 <= j < t ==> path[j] == old(state).path@[j]
                    &&& t >= 0 ==> {
                        &&& path[t].idx_cell == old(state).path@[t].idx_cell
                        &&& path[t].valid_digits@ == old(state).path@[t].valid_digits@
                        &&& cursor(path[t]) == cursor(old(state).path@[t]) + 1
                    }
                }
            }),
    {
        let ghost base = state.base@;
        let ghost e = state.empty_cells@;
        let ghost path0 = state.path@;
        let ghost st0 = *state;
        let ghost g0 = self.grid@;
        let l = state.path.len();
        let idx_cell = state.empty_cells[l];
        proof {
            lemma_next_cell_blank(st0, g0);
            lemma_progress_digits(st0, g0);
        }
        match self.get_valid_digits(idx_cell / 9, idx_cell % 9) {
            Ok(valid_digits) => {
                let mut elt = PathElement { idx_cell, valid_digits, idx_digit: None };
                let _ = elt.increase_digit();
                let d = elt.get_digit();
                self.grid[idx_cell] = d;
                state.path.push(elt);
                proof {
                    lemma_candidates(g0, idx_cell as int / 9, idx_cell as int % 9);
                    assert(1 <= d <= 9);
                    assert(state.path@[l as int] == elt);
                    lemma_push(st0, g0, *state, self.grid@);
                    lemma_progress_digits(*state, self.grid@);
                    lemma_decimal_lex(st0.progress(), state.progress(), l as int);
                }
                return true;
            },
            Err(_) => {},
        }
        proof {
            lemma_dead_end(st0, g0);
        }
        loop
            invariant
                self.wf(),
                self.init_grid == old(self).init_grid,
                state.base == old(state).base,
                st0 == *old(state),
                e == old(state).empty_cells@,
                state.base@ == base,
                state.empty_cells@ == e,
                st0.path@ == path0,
                st0.empty_cells@ == e,
                state.wf(self.grid@),
                state.exhausted(),
                state.path@.len() <= l,
                l == path0.len(),
                l < e.len(),
                forall|j: int| 0 <= j < state.path@.len() ==> state.path@[j] == path0[j],
                last_open(path0, l as int) == last_open(path0, state.path@.len() as int),
                candidates(g0, e[l as int] as int / 9, e[l as int] as int % 9).len() == 0,
                g0 == old(self).grid@,
                forall|k: int| 0 <= k < st0.progress().len() ==> 0 <= #[trigger] st0.progress()[k] <= 9,
            decreases state.path@.len(),
        {
            if state.path.len() == 0 {
                proof {
                    assert forall|s: Seq<u8>| !solution_of(s, base) by {
                        if solution_of(s, base) {
                            reveal(exhausted_path);
                        assert(agrees(s, e, state.path@, 0));
                        }
                    }
                }
                return false;
            }
            let ghost gc = self.grid@;
            let ghost stc = *state;
            let mut last = state.path.pop().unwrap();
            proof {
                assert(last == stc.path@[stc.path@.len() - 1]);
                lemma_last_frame(stc, gc);
                lemma_candidates(
                    grid_at(base, e, stc.path@, state.path@.len()),
                    e[state.path@.len() as int] as int / 9,
                    e[state.path@.len() as int] as int % 9,
                );
            }
            match last.increase_digit() {
                Ok(_) => {
                    let d = last.get_digit();
                    self.grid[last.idx_cell] = d;
                    state.path.push(last);
                    proof {
                        let t = state.path@.len() - 1;
                        assert(state.path@ == stc.path@.update(t, last));
                        assert(remaining(path0[t]) > 0);
                        assert(last_open(path0, t + 1) == t);
                        lemma_advance(stc, gc, *state, self.grid@);
                        lemma_progress_digits(*state, self.grid@);
                        assert forall|k: int| 0 <= k < t implies st0.progress()[k] == state.progress()[k] by {
                            assert(state.path@[k] == path0[k]);
                        }
                        lemma_decimal_lex(st0.progress(), state.progress(), t);
                    }
                    return true;
                },
                Err(_) => {
                    self.grid[last.idx_cell] = self.empty_cell_token;
                    proof {
                        let t = state.path@.len() as int;
                        assert(remaining(path0[t]) <= 0);
                        assert(last_open(path0, t + 1) == last_open(path0, t));
                        lemma_retreat(stc, gc, *state, self.grid@);
                    }
                },
            }
        }
    }
}

/// The next cell to visit is blank in the grid that the frames reach.
proof fn lemma_next_cell_blank(st: SearchState, g: Seq<u8>)
    requires
        st.wf(g),
        st.path@.len() < st.empty_cells@.len(),
    ensures
        g[st.empty_cells@[st.path@.len() as int] as int] == 0,
        forall|j: int| 0 <= j < st.path@.len() ==> #[trigger] st.empty_cells@[j] != st.empty_cells@[st.path@.len() as int],
{
    let e = st.empty_cells@;
    let l = st.path@.len();
    lemma_grid_at(st.base@, e, st.path@, l);
    assert forall|j: int| 0 <= j < l implies #[trigger] e[j] != e[l as int] by {
        assert(e[j] < e[l as int]);
    }
}

/// The facts about frame `k`.
proof fn lemma_frame_at(base: Seq<u8>, e: Seq<usize>, path: Seq<PathElement>, k: int)
    requires
        frames_ok(base, e, path),
        0 <= k < path.len(),
    ensures
        path[k].idx_cell == e[k],
        0 <= cursor(path[k]) < path[k].valid_digits@.len(),
        path[k].valid_digits@ == candidates(grid_at(base, e, path, k as nat), e[k] as int / 9, e[k] as int % 9),
{
    reveal(frames_ok);
    assert(path[k].idx_cell == e[k]);
}

/// The frames before `t` of a well-formed path keep their facts in any path
/// that shares them.
proof fn lemma_keep_prefix(base: Seq<u8>, e: Seq<usize>, p1: Seq<PathElement>, p2: Seq<PathElement>, t: nat)
    requires
        frames_ok(base, e, p1),
        grids_ok(base, e, p1),
        none_before(base, e, p1),
        t <= p1.len(),
        t <= p2.len(),
        forall|j: int| 0 <= j < t ==> p2[j] == p1[j],
    ensures
        forall|k: int| 0 <= k < t ==> {
            &&& (#[trigger] p2[k]).idx_cell == e[k]
            &&& 0 <= cursor(p2[k]) < p2[k].valid_digits@.len()
            &&& p2[k].valid_digits@ == candidates(grid_at(base, e, p2, k as nat), e[k] as int / 9, e[k] as int % 9)
        },
        forall|k: nat| k <= t ==> no_conflict(#[trigger] grid_at(base, e, p2, k)),
        forall|k: nat| k <= t ==> #[trigger] grid_at(base, e, p2, k) == grid_at(base, e, p1, k),
        forall|s: Seq<u8>, k: int|
            solution_of(s, base) && 0 <= k < t && agrees(s, e, p2, k) ==>
                #[trigger] s[e[k] as int] >= digit_of(#[trigger] p2[k]),
        forall|s: Seq<u8>, k: int| 0 <= k <= t ==> (#[trigger] agrees(s, e, p1, k) <==> agrees(s, e, p2, k)),
{
    lemma_same_prefix(base, e, p1, p2, t);
    assert forall|k: int| 0 <= k < t implies {
        &&& (#[trigger] p2[k]).idx_cell == e[k]
        &&& 0 <= cursor(p2[k]) < p2[k].valid_digits@.len()
        &&& p2[k].valid_digits@ == candidates(grid_at(base, e, p2, k as nat), e[k] as int / 9, e[k] as int % 9)
    } by {
        lemma_frame_at(base, e, p1, k);
        assert(p2[k] == p1[k]);
        assert(grid_at(base, e, p2, k as nat) == grid_at(base, e, p1, k as nat));
    }
    assert forall|k: nat| k <= t implies no_conflict(#[trigger] grid_at(base, e, p2, k)) by {
        reveal(grids_ok);
        assert(grid_at(base, e, p2, k) == grid_at(base, e, p1, k));
        assert(no_conflict(grid_at(base, e, p1, k)));
    }
    assert forall|s: Seq<u8>, k: int|
        solution_of(s, base) && 0 <= k < t && agrees(s, e, p2, k) implies
            #[trigger] s[e[k] as int] >= digit_of(#[trigger] p2[k]) by {
        reveal(none_before);
        assert(p2[k] == p1[k]);
        assert(agrees(s, e, p1, k));
        assert(s[e[k] as int] >= digit_of(p1[k]));
    }
}

/// Pushing a frame for the next cell with its first candidate placed keeps the
/// state well formed.
proof fn lemma_push(st0: SearchState, g0: Seq<u8>, st1: SearchState, g1: Seq<u8>)
    requires
        st0.wf(g0),
        st0.path@.len() < st0.empty_cells@.len(),
        st1.base == st0.base,
        st1.empty_cells@ == st0.empty_cells@,
        st1.path@.len() == st0.path@.len() + 1,
        forall|j: int| 0 <= j < st0.path@.len() ==> st1.path@[j] == st0.path@[j],
        ({
            let l = st0.path@.len() as int;
            let f = st1.path@[l];
            let p = st0.empty_cells@[l] as int;
            &&& f.idx_cell == p
            &&& f.idx_digit == Some(0usize)
            &&& f.valid_digits@ == candidates(g0, p / 9, p % 9)
            &&& f.valid_digits@.len() > 0
            &&& g1 == g0.update(p, f.valid_digits@[0])
        }),
    ensures
        st1.wf(g1),
{
    let base = st0.base@;
    let e = st0.empty_cells@;
    let path0 = st0.path@;
    let path1 = st1.path@;
    let l = path0.len();
    let p = e[l as int] as int;
    let ci = p / 9;
    let cj = p % 9;
    let c = candidates(g0, ci, cj);
    let d = c[0];
    lemma_next_cell_blank(st0, g0);
    lemma_grid_at(base, e, path0, l);
    lemma_candidates(g0, ci, cj);
    assert(c.contains(d));
    assert(no_conflict(g0)) by {
        reveal(grids_ok);
        assert(no_conflict(grid_at(base, e, path0, l)));
    }
    lemma_write_candidate(g0, ci, cj, d);
    lemma_keep_prefix(base, e, path0, path1, l);
    assert(grid_at(base, e, path1, l) == g0);
    assert(grid_at(base, e, path1, l + 1) == g0.update(p, digit_of(path1[l as int])));
    assert(grid_at(base, e, path1, l + 1) =~= g1);
    assert(frames_ok(base, e, path1)) by {
        reveal(frames_ok);
    }
    assert(grids_ok(base, e, path1)) by {
        reveal(grids_ok);
    }
    assert(none_before(base, e, path1)) by {
        reveal(none_before);
        assert forall|s: Seq<u8>, k: int|
            solution_of(s, base) && 0 <= k < path1.len() && agrees(s, e, path1, k) implies
                #[trigger] s[e[k] as int] >= digit_of(#[trigger] path1[k]) by {
            if k == l {
                lemma_agrees_extends(base, e, path0, s, l);
                lemma_solution_digit_is_candidate(s, g0, ci, cj);
            }
        }
    }
}

/// Where the next cell has no candidate, no solution holds the frames' digits.
proof fn lemma_dead_end(st: SearchState, g: Seq<u8>)
    requires
        st.wf(g),
        st.path@.len() < st.empty_cells@.len(),
        candidates(g, st.empty_cells@[st.path@.len() as int] as int / 9, st.empty_cells@[st.path@.len() as int] as int % 9).len() == 0,
    ensures
        st.exhausted(),
{
    let base = st.base@;
    let e = st.empty_cells@;
    let l = st.path@.len();
    let p = e[l as int] as int;
    lemma_next_cell_blank(st, g);
    reveal(exhausted_path);
    assert forall|s: Seq<u8>| solution_of(s, base) implies !agrees(s, e, st.path@, l as int) by {
        if agrees(s, e, st.path@, l as int) {
            lemma_agrees_extends(base, e, st.path@, s, l);
            lemma_solution_digit_is_candidate(s, g, p / 9, p % 9);
        }
    }
}

/// Facts about the last frame of a well-formed, exhausted state.
proof fn lemma_last_frame(stc: SearchState, gc: Seq<u8>)
    requires
        stc.wf(gc),
        stc.path@.len() > 0,
    ensures
        ({
            let base = stc.base@;
            let e = stc.empty_cells@;
            let pathc = stc.path@;
            let t = (pathc.len() - 1) as nat;
            let gt = grid_at(base, e, pathc, t);
            &&& gt.len() == 81
            &&& gt[e[t as int] as int] == 0
            &&& no_conflict(gt)
            &&& gc == gt.update(e[t as int] as int, digit_of(pathc[t as int]))
            &&& pathc[t as int].idx_cell == e[t as int]
            &&& 0 <= cursor(pathc[t as int]) < pathc[t as int].valid_digits@.len()
            &&& pathc[t as int].valid_digits@ == candidates(gt, e[t as int] as int / 9, e[t as int] as int % 9)
        }),
{
    let base = stc.base@;
    let e = stc.empty_cells@;
    let pathc = stc.path@;
    let t = (pathc.len() - 1) as nat;
    lemma_grid_at(base, e, pathc, t);
    assert forall|j: int| 0 <= j < t implies #[trigger] e[j] != e[t as int] by {
        assert(e[j] < e[t as int]);
    }
    lemma_frame_at(base, e, pathc, t as int);
    reveal(grids_ok);
    assert(no_conflict(grid_at(base, e, pathc, t)));
}

/// Moving the last frame to its next digit keeps the state well formed.
proof fn lemma_advance(stc: SearchState, gc: Seq<u8>, st2: SearchState, g2: Seq<u8>)
    requires
        stc.wf(gc),
        stc.exhausted(),
        stc.path@.len() > 0,
        st2.base == stc.base,
        st2.empty_cells@ == stc.empty_cells@,
        ({
            let t = stc.path@.len() - 1;
            let f = stc.path@[t];
            let f2 = st2.path@[t];
            &&& st2.path@ == stc.path@.update(t, f2)
            &&& f2.idx_cell == f.idx_cell
            &&& f2.valid_digits@ == f.valid_digits@
            &&& cursor(f2) == cursor(f) + 1
            &&& cursor(f2) < f2.valid_digits@.len()
            &&& g2 == gc.update(f.idx_cell as int, digit_of(f2))
        }),
    ensures
        st2.wf(g2),
{
    let base = stc.base@;
    let e = stc.empty_cells@;
    let pathc = stc.path@;
    let path2 = st2.path@;
    let t = (pathc.len() - 1) as nat;
    let ti = e[t as int] as int / 9;
    let tj = e[t as int] as int % 9;
    let gt = grid_at(base, e, pathc, t);
    let c = pathc[t as int].valid_digits@;
    let old_cursor = cursor(pathc[t as int]);
    let d = digit_of(path2[t as int]);
    lemma_last_frame(stc, gc);
    lemma_candidates(gt, ti, tj);
    assert(c.contains(d));
    lemma_write_candidate(gt, ti, tj, d);
    lemma_keep_prefix(base, e, pathc, path2, t);
    assert(grid_at(base, e, path2, t) == gt);
    assert(grid_at(base, e, path2, t + 1) == gt.update(e[t as int] as int, d));
    assert(g2 =~= gt.update(e[t as int] as int, d));
    assert(frames_ok(base, e, path2)) by {
        reveal(frames_ok);
    }
    assert(grids_ok(base, e, path2)) by {
        reveal(grids_ok);
    }
    assert(none_before(base, e, path2)) by {
        reveal(none_before);
        assert forall|s: Seq<u8>, k: int|
            solution_of(s, base) && 0 <= k < path2.len() && agrees(s, e, path2, k) implies
                #[trigger] s[e[k] as int] >= digit_of(#[trigger] path2[k]) by {
            if k == t {
                assert(agrees(s, e, pathc, k));
                assert(s[e[k] as int] >= digit_of(pathc[k])) by {
                    reveal(none_before);
                    assert(none_before(base, e, pathc));
                }
                assert(s[e[k] as int] != digit_of(pathc[k])) by {
                    reveal(exhausted_path);
                    if s[e[k] as int] == digit_of(pathc[k]) {
                        assert(agrees(s, e, pathc, k + 1));
                    }
                }
                lemma_agrees_extends(base, e, pathc, s, t);
                lemma_solution_digit_is_candidate(s, gt, ti, tj);
                let m = choose|m: int| 0 <= m < c.len() && c[m] == s[e[k] as int];
                if m <= old_cursor {
                    assert(c[m] <= c[old_cursor]);
                }
                if m > old_cursor + 1 {
                    assert(c[old_cursor + 1] < c[m]);
                }
            }
        }
    }
}

/// Dropping a last frame whose digits are all tried, and blanking its cell,
/// keeps the state well formed and exhausted.
proof fn lemma_retreat(stc: SearchState, gc: Seq<u8>, st2: SearchState, g2: Seq<u8>)
    requires
        stc.wf(gc),
        stc.exhausted(),
        stc.path@.len() > 0,
        st2.base == stc.base,
        st2.empty_cells@ == stc.empty_cells@,
        ({
            let t = stc.path@.len() - 1;
            let f = stc.path@[t];
            &&& st2.path@ == stc.path@.subrange(0, t)
            &&& cursor(f) + 1 >= f.valid_digits@.len()
            &&& g2 == gc.update(f.idx_cell as int, 0)
        }),
    ensures
        st2.wf(g2),
        st2.exhausted(),
{
    let base = stc.base@;
    let e = stc.empty_cells@;
    let pathc = stc.path@;
    let path2 = st2.path@;
    let t = (pathc.len() - 1) as nat;
    let gt = grid_at(base, e, pathc, t);
    let c = pathc[t as int].valid_digits@;
    let old_cursor = cursor(pathc[t as int]);
    lemma_last_frame(stc, gc);
    lemma_candidates(gt, e[t as int] as int / 9, e[t as int] as int % 9);
    lemma_keep_prefix(base, e, pathc, path2, t);
    assert(g2 =~= gt);
    assert(frames_ok(base, e, path2)) by {
        reveal(frames_ok);
    }
    assert(grids_ok(base, e, path2)) by {
        reveal(grids_ok);
    }
    assert(none_before(base, e, path2)) by {
        reveal(none_before);
    }
    assert(exhausted_path(base, e, path2)) by {
        reveal(exhausted_path);
        assert forall|s: Seq<u8>| solution_of(s, base) implies !agrees(s, e, path2, t as int) by {
            if agrees(s, e, path2, t as int) {
                assert(agrees(s, e, pathc, t as int));
                lemma_agrees_extends(base, e, pathc, s, t);
                lemma_solution_digit_is_candidate(s, gt, e[t as int] as int / 9, e[t as int] as int % 9);
                let m = choose|m: int| 0 <= m < c.len() && c[m] == s[e[t as int] as int];
                assert(s[e[t as int] as int] >= digit_of(pathc[t as int])) by {
                    reveal(none_before);
                    assert(none_before(base, e, pathc));
                }
                if m < old_cursor {
                    assert(c[m] < c[old_cursor]);
                }
                assert(agrees(s, e, pathc, t as int + 1));
            }
        }
    }
}

/// How a search ended.
#[derive(PartialEq, Eq, Structural, Debug, Clone, Copy)]
pub enum SearchOutcome {
    Solved,
    Unsolvable,
}

/// `a` comes no later than `b` in row-major lexicographic order.
pub open spec fn lex_le(a: Seq<u8>, b: Seq<u8>) -> bool {
    a == b || exists|i: int| 0 <= i < 81 && a[i] < b[i] && forall|q: int| 0 <= q < i ==> a[q] == b[q]
}

/// `r` is the solution of `g` that comes first in row-major lexicographic order.
pub open spec fn first_solution(r: Seq<u8>, g: Seq<u8>) -> bool {
    solution_of(r, g) && forall|s: Seq<u8>| solution_of(s, g) ==> lex_le(r, s)
}

impl Sudoku {
    /// Solves the grid in place: rejects a grid whose given digits conflict, runs
    /// one pass of propagation, then searches depth first, visiting the blank
    /// cells in row-major order and trying the digits in ascending order.
    /// Solved leaves the first solution in row-major lexicographic order;
    /// Unsolvable leaves the grid as the search found it.
    pub fn brute_force(&mut self) -> (outcome: SearchOutcome)
        requires
            old(self).wf(),
        ensures
            final(self).wf(),
            final(self).init_grid == old(self).init_grid,
            outcome == SearchOutcome::Solved <==> exists|s: Seq<u8>| solution_of(s, old(self).grid@),
            outcome == SearchOutcome::Solved ==> first_solution(final(self).grid@, old(self).grid@),
            outcome == SearchOutcome::Unsolvable ==> final(self).grid@ == if no_conflict(old(self).grid@) {
                propagate_from(old(self).grid@, 0)
            } else {
                old(self).grid@
            },
    {
        let ghost g_in = self.grid@;
        if self.has_conflicts() {
            proof {
                assert forall|s: Seq<u8>| !solution_of(s, g_in) by {
                    if solution_of(s, g_in) {
                        lemma_solution_without_conflict(s, g_in);
                    }
                }
            }
            return SearchOutcome::Unsolvable;
        }
        let _ = self.fill_one_possibility_cells();
        let ghost g_p = self.grid@;
        proof {
            lemma_propagate(g_in, 0);
        }
        let mut state = SearchState::new(self);
        while state.path.len() < state.empty_cells.len()
            invariant
                self.wf(),
                self.init_grid == old(self).init_grid,
                state.wf(self.grid@),
                state.base@ == g_p,
                g_p == propagate_from(g_in, 0),
                g_in == old(self).grid@,
                no_conflict(g_in),
                forall|s: Seq<u8>| solution_of(s, g_in) <==> #[trigger] solution_of(s, g_p),
            decreases state.measure(),
        {
            proof {
                lemma_progress_digits(state, self.grid@);
                lemma_decimal_bound(state.progress());
            }
            if !self.search_step(&mut state) {
                proof {
                    assert(self.grid@ == g_p);
                    assert forall|s: Seq<u8>| !solution_of(s, g_in) by {
                        assert(!solution_of(s, g_p));
                    }
                }
                return SearchOutcome::Unsolvable;
            }
            proof {
                lemma_progress_digits(state, self.grid@);
                lemma_decimal_bound(state.progress());
            }
        }
        proof {
            lemma_first_solution(state, self.grid@);
            assert(solution_of(self.grid@, g_in));
        }
        SearchOutcome::Solved
    }
}

/// The grids that solve `g` keep its digits, so `g` is free of conflicts.
pub proof fn lemma_solution_without_conflict(s: Seq<u8>, g: Seq<u8>)
    requires
        solution_of(s, g),
    ensures
        no_conflict(g),
{
    lemma_valid_iff(s);
    reveal(no_conflict);
    assert forall|r1: int, c1: int, r2: int, c2: int|
        peers(r1, c1, r2, c2) && #[trigger] cell(g, r1, c1) != 0 implies cell(g, r1, c1) != #[trigger] cell(g, r2, c2) by {
        assert(g[9 * r1 + c1] != 0);
        assert(cell(s, r1, c1) != cell(s, r2, c2));
        if cell(g, r2, c2) != 0 {
            assert(g[9 * r2 + c2] != 0);
        }
    }
}

/// Once every blank cell holds a frame's digit, the grid is the first solution
/// of the base.
proof fn lemma_first_solution(st: SearchState, g: Seq<u8>)
    requires
        st.wf(g),
        st.path@.len() == st.empty_cells@.len(),
    ensures
        first_solution(g, st.base@),
{
    let base = st.base@;
    let e = st.empty_cells@;
    let path = st.path@;
    let n = path.len();
    lemma_grid_at(base, e, path, n);
    assert forall|q: int| 0 <= q < 81 implies 1 <= #[trigger] g[q] <= 9 by {
        if base[q] == 0 {
            let j = choose|j: int| 0 <= j < e.len() && e[j] == q as usize;
            lemma_frame_at(base, e, path, j);
            lemma_candidates(grid_at(base, e, path, j as nat), e[j] as int / 9, e[j] as int % 9);
            assert(g[e[j] as int] == digit_of(path[j]));
        } else {
            assert forall|j: int| 0 <= j < n implies #[trigger] e[j] != q by {}
        }
    }
    assert(no_conflict(g)) by {
        reveal(grids_ok);
        assert(no_conflict(grid_at(base, e, path, n)));
    }
    lemma_valid_iff(g);
    assert(extends(g, base)) by {
        assert forall|q: int| 0 <= q < 81 && #[trigger] base[q] != 0 implies g[q] == base[q] by {
            assert forall|j: int| 0 <= j < n implies #[trigger] e[j] != q by {}
        }
    }
    assert forall|s: Seq<u8>| solution_of(s, base) implies lex_le(g, s) by {
        lemma_lex_from(st, g, s, 0);
    }
}

/// A solution of the base that holds the first `k` frames' digits comes no
/// earlier than the grid that all the frames reach.
proof fn lemma_lex_from(st: SearchState, g: Seq<u8>, s: Seq<u8>, k: nat)
    requires
        st.wf(g),
        st.path@.len() == st.empty_cells@.len(),
        solution_of(s, st.base@),
        k <= st.path@.len(),
        agrees(s, st.empty_cells@, st.path@, k as int),
    ensures
        lex_le(g, s),
    decreases st.path@.len() - k,
{
    let base = st.base@;
    let e = st.empty_cells@;
    let path = st.path@;
    let n = path.len();
    lemma_grid_at(base, e, path, n);
    if k == n {
        assert forall|q: int| 0 <= q < 81 implies g[q] == s[q] by {
            if base[q] == 0 {
                let j = choose|j: int| 0 <= j < e.len() && e[j] == q as usize;
                assert(g[e[j] as int] == digit_of(path[j]));
            } else {
                assert forall|j: int| 0 <= j < n implies #[trigger] e[j] != q by {}
            }
        }
        assert(g =~= s);
    } else {
        assert(s[e[k as int] as int] >= digit_of(path[k as int])) by {
            reveal(none_before);
        }
        if s[e[k as int] as int] == digit_of(path[k as int]) {
            assert(agrees(s, e, path, k as int + 1));
            lemma_lex_from(st, g, s, k + 1);
        } else {
            let i = e[k as int] as int;
            assert(g[i] == digit_of(path[k as int]));
            assert forall|q: int| 0 <= q < i implies g[q] == s[q] by {
                if base[q] == 0 {
                    let j = choose|j: int| 0 <= j < e.len() && e[j] == q as usize;
                    if j >= k {
                        if j > k {
                            assert(e[k as int] < e[j]);
                        }
                    }
                    assert(g[e[j] as int] == digit_of(path[j]));
                } else {
                    assert forall|j: int| 0 <= j < n implies #[trigger] e[j] != q by {}
                }
            }
        }
    }
}

proof fn lemma_pow10_pos(n: nat)
    ensures
        pow10(n) >= 1,
    decreases n,
{
    if n > 0 {
        lemma_pow10_pos((n - 1) as nat);
    }
}

/// A number of `n` decimal digits is below ten to the `n`.
proof fn lemma_decimal_bound(s: Seq<int>)
    requires
        forall|k: int| 0 <= k < s.len() ==> 0 <= #[trigger] s[k] <= 9,
    ensures
        0 <= decimal(s) < pow10(s.len()),
    decreases s.len(),
{
    if s.len() > 0 {
        let rest = s.drop_first();
        assert forall|k: int| 0 <= k < rest.len() implies 0 <= #[trigger] rest[k] <= 9 by {
            assert(rest[k] == s[k + 1]);
        }
        lemma_decimal_bound(rest);
        let p = pow10((s.len() - 1) as nat);
        lemma_pow10_pos((s.len() - 1) as nat);
        assert(0 <= s[0] * p <= 9 * p) by (nonlinear_arith)
            requires 0 <= s[0] <= 9, p >= 1;
    }
}

/// Of two digit sequences of one length that first differ at `m`, the one
/// with the larger digit there has the larger value.
proof fn lemma_decimal_lex(a: Seq<int>, b: Seq<int>, m: int)
    requires
        a.len() == b.len(),
        0 <= m < a.len(),
        forall|k: int| 0 <= k < a.len() ==> 0 <= #[trigger] a[k] <= 9,
        forall|k: int| 0 <= k < b.len() ==> 0 <= #[trigger] b[k] <= 9,
        forall|k: int| 0 <= k < m ==> a[k] == b[k],
        a[m] > b[m],
    ensures
        decimal(a) > decimal(b),
    decreases m,
{
    let ra = a.drop_first();
    let rb = b.drop_first();
    assert forall|k: int| 0 <= k < ra.len() implies 0 <= #[trigger] ra[k] <= 9 by {
        assert(ra[k] == a[k + 1]);
    }
    assert forall|k: int| 0 <= k < rb.len() implies 0 <= #[trigger] rb[k] <= 9 by {
        assert(rb[k] == b[k + 1]);
    }
    if m == 0 {
        lemma_decimal_bound(ra);
        lemma_decimal_bound(rb);
        let p = pow10((a.len() - 1) as nat);
        assert(a[0] * p >= b[0] * p + p) by (nonlinear_arith)
            requires a[0] >= b[0] + 1, p >= 1;
        lemma_pow10_pos((a.len() - 1) as nat);
    } else {
        assert forall|k: int| 0 <= k < m - 1 implies ra[k] == rb[k] by {
            assert(a[k + 1] == b[k + 1]);
        }
        lemma_decimal_lex(ra, rb, m - 1);
        assert(a[0] == b[0]);
    }
}

/// What `grid_at` holds: the base outside the visited cells, and the frames'
/// digits in them.
proof fn lemma_grid_at(base: Seq<u8>, e: Seq<usize>, path: Seq<PathElement>, k: nat)
    requires
        base.len() == 81,
        k <= e.len(),
        k <= path.len(),
        forall|j: int| 0 <= j < e.len() ==> #[trigger] e[j] < 81,
        forall|a: int, b: int| 0 <= a < b < e.len() ==> #[trigger] e[a] < #[trigger] e[b],
    ensures
        grid_at(base, e, path, k).len() == 81,
        forall|j: int| 0 <= j < k ==> #[trigger] grid_at(base, e, path, k)[e[j] as int] == digit_of(path[j]),
        forall|q: int| 0 <= q < 81 && (forall|j: int| 0 <= j < k ==> #[trigger] e[j] != q) ==>
            #[trigger] grid_at(base, e, path, k)[q] == base[q],
    decreases k,
{
    if k > 0 {
        lemma_grid_at(base, e, path, (k - 1) as nat);
        let g = grid_at(base, e, path, (k - 1) as nat);
        assert forall|j: int| 0 <= j < k implies #[trigger] grid_at(base, e, path, k)[e[j] as int] == digit_of(path[j]) by {
            if j < k - 1 {
                assert(e[j] < e[k - 1]);
            }
        }
        assert forall|q: int| 0 <= q < 81 && (forall|j: int| 0 <= j < k ==> #[trigger] e[j] != q) implies
            #[trigger] grid_at(base, e, path, k)[q] == base[q] by {
            assert(e[k - 1] != q);
        }
    }
}

/// `grid_at` reads only the first `k` frames.
proof fn lemma_grid_at_prefix(base: Seq<u8>, e: Seq<usize>, p1: Seq<PathElement>, p2: Seq<PathElement>, k: nat)
    requires
        forall|j: int| 0 <= j < k ==> p1[j] == p2[j],
    ensures
        grid_at(base, e, p1, k) == grid_at(base, e, p2, k),
    decreases k,
{
    if k > 0 {
        lemma_grid_at_prefix(base, e, p1, p2, (k - 1) as nat);
    }
}

/// Two paths with the same first `t` frames give the same grids and the same
/// agreement up to `t`.
proof fn lemma_same_prefix(base: Seq<u8>, e: Seq<usize>, p1: Seq<PathElement>, p2: Seq<PathElement>, t: nat)
    requires
        forall|j: int| 0 <= j < t ==> p1[j] == p2[j],
    ensures
        forall|k: nat| k <= t ==> #[trigger] grid_at(base, e, p1, k) == grid_at(base, e, p2, k),
        forall|s: Seq<u8>, k: int| 0 <= k <= t ==> (#[trigger] agrees(s, e, p1, k) <==> agrees(s, e, p2, k)),
{
    assert forall|k: nat| k <= t implies #[trigger] grid_at(base, e, p1, k) == grid_at(base, e, p2, k) by {
        lemma_grid_at_prefix(base, e, p1, p2, k);
    }
    assert forall|s: Seq<u8>, k: int| 0 <= k <= t implies (#[trigger] agrees(s, e, p1, k) <==> agrees(s, e, p2, k)) by {
        if agrees(s, e, p1, k) {
            assert forall|j: int| 0 <= j < k implies s[#[trigger] e[j] as int] == digit_of(p2[j]) by {
                assert(p1[j] == p2[j]);
            }
        }
        if agrees(s, e, p2, k) {
            assert forall|j: int| 0 <= j < k implies s[#[trigger] e[j] as int] == digit_of(p1[j]) by {
                assert(p1[j] == p2[j]);
            }
        }
    }
}

/// A solution of the base that holds the digits of the first `k` frames is a
/// solution of the grid those frames reach.
proof fn lemma_agrees_extends(base: Seq<u8>, e: Seq<usize>, path: Seq<PathElement>, s: Seq<u8>, k: nat)
    requires
        base.len() == 81,
        lists_blanks(base, e),
        k <= e.len(),
        k <= path.len(),
        solution_of(s, base),
        agrees(s, e, path, k as int),
    ensures
        solution_of(s, grid_at(base, e, path, k)),
{
    lemma_grid_at(base, e, path, k);
    let g = grid_at(base, e, path, k);
    assert forall|q: int| 0 <= q < 81 && #[trigger] g[q] != 0 implies s[q] == g[q] by {
        if exists|j: int| 0 <= j < k && #[trigger] e[j] == q {
            let j = choose|j: int| 0 <= j < k && #[trigger] e[j] == q;
            assert(s[e[j] as int] == digit_of(path[j]));
        } else {
            assert(g[q] == base[q]);
        }
    }
}

/// Each entry of the progress of a well-formed state is a decimal digit.
proof fn lemma_progress_digits(st: SearchState, grid: Seq<u8>)
    requires
        st.wf(grid),
    ensures
        forall|k: int| 0 <= k < st.progress().len() ==> 0 <= #[trigger] st.progress()[k] <= 9,
{
    assert forall|k: int| 0 <= k < st.progress().len() implies 0 <= #[trigger] st.progress()[k] <= 9 by {
        if k < st.path@.len() {
            let e = st.empty_cells@;
            lemma_frame_at(st.base@, e, st.path@, k);
            lemma_candidates(st.grid_at(k as nat), e[k] as int / 9, e[k] as int % 9);
        }
    }
}

} // verus!
