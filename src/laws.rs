use vstd::prelude::*;
use crate::board::{no_conflict, solution_of};
use crate::search::{first_solution, lex_le, lemma_solution_without_conflict};

verus! {

/// Row-major lexicographic order is antisymmetric.
pub proof fn lemma_lex_antisymmetric(a: Seq<u8>, b: Seq<u8>)
    requires
        a.len() == 81,
        b.len() == 81,
        lex_le(a, b),
        lex_le(b, a),
    ensures
        a == b,
{
    if a != b {
        let i = choose|i: int| 0 <= i < 81 && a[i] < b[i] && forall|q: int| 0 <= q < i ==> a[q] == b[q];
        let k = choose|k: int| 0 <= k < 81 && b[k] < a[k] && forall|q: int| 0 <= q < k ==> b[q] == a[q];
        if i < k {
            assert(b[i] == a[i]);
        } else if k < i {
            assert(a[k] == b[k]);
        }
    }
}

/// The search is deterministic: a grid has at most one first solution, so two
/// solved runs on the same input leave the same grid.
pub proof fn lemma_first_solution_unique(g: Seq<u8>, r1: Seq<u8>, r2: Seq<u8>)
    requires
        first_solution(r1, g),
        first_solution(r2, g),
    ensures
        r1 == r2,
{
    lemma_lex_antisymmetric(r1, r2);
}

/// Where a grid has a single solution, that solution is its first one, so a
/// solved search leaves it, given digits and all.
pub proof fn lemma_unique_solution_found(g: Seq<u8>, s: Seq<u8>, r: Seq<u8>)
    requires
        solution_of(s, g),
        forall|t: Seq<u8>| solution_of(t, g) ==> t == s,
        first_solution(r, g),
    ensures
        r == s,
        first_solution(s, g),
{
}

/// Given digits that clash in a row, a column or a block leave the grid
/// without a solution, so the search reports it unsolvable.
pub proof fn lemma_conflicting_givens_unsolvable(g: Seq<u8>)
    requires
        !no_conflict(g),
    ensures
        forall|s: Seq<u8>| !solution_of(s, g),
{
    assert forall|s: Seq<u8>| !solution_of(s, g) by {
        if solution_of(s, g) {
            lemma_solution_without_conflict(s, g);
        }
    }
}

} // verus!
