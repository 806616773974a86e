//! The mathematical model of a flattened, row-major square matrix of edge
//! weights: spec functions that read and rewrite entries, and the lemmas that
//! relate them.

use vstd::prelude::*;

verus! {

/// The weight stored for the ordered pair `(x, y)` in the flat, row-major
/// square matrix `m` of side `n`.
pub open spec fn edge_at(m: Seq<usize>, n: int, x: int, y: int) -> usize {
    m[x * n + y]
}

/// The matrix `m` of side `n` holds the same weight for `(x, y)` and
/// `(y, x)`: it describes an undirected graph.
pub open spec fn symmetric(m: Seq<usize>, n: int) -> bool {
    forall|x: int, y: int|
        0 <= x < n && 0 <= y < n ==> edge_at(m, n, x, y) == edge_at(m, n, y, x)
}

/// The matrix after writing weight `z` on both directions of the edge
/// `(x, y)`.
pub open spec fn sym_update(m: Seq<usize>, n: int, x: int, y: int, z: usize) -> Seq<usize> {
    m.update(x * n + y, z).update(y * n + x, z)
}

/// In the old matrix of side `n + 1`, the row (or column) that survives as
/// index `i` once index `x` is removed: indices above `x` shift down by one.
pub open spec fn source_index(i: int, x: int) -> int {
    if i < x {
        i
    } else {
        i + 1
    }
}

/// Every entry `(a, b)` of a row `a` below `i` lies strictly before the
/// start of row `i` in row-major order.
pub proof fn lemma_flat_lt(n: int, a: int, b: int, i: int)
    requires
        0 <= b < n,
        0 <= a < i,
    ensures
        0 <= a * n + b < i * n,
{
    assert(0 <= a * n + b < i * n) by (nonlinear_arith)
        requires
            0 <= b < n,
            0 <= a < i,
    ;
}

/// The row-major index of a valid entry lies inside the matrix.
pub proof fn lemma_flat_index_bounds(n: int, x: int, y: int)
    requires
        0 <= x < n,
        0 <= y < n,
    ensures
        0 <= x * n + y < n * n,
{
    lemma_flat_lt(n, x, y, n);
}

/// Distinct valid entries have distinct row-major indices.
pub proof fn lemma_flat_index_injective(n: int, x1: int, y1: int, x2: int, y2: int)
    requires
        0 <= x1 < n,
        0 <= y1 < n,
        0 <= x2 < n,
        0 <= y2 < n,
        x1 != x2 || y1 != y2,
    ensures
        x1 * n + y1 != x2 * n + y2,
{
    if x1 < x2 {
        lemma_flat_lt(n, x1, y1, x2);
    } else if x2 < x1 {
        lemma_flat_lt(n, x2, y2, x1);
    }
}

/// Writing weight `z` on edge `(x, y)` stores `z` in both directions and
/// leaves every other entry of the matrix unchanged.
pub proof fn lemma_sym_update_effect(m: Seq<usize>, n: int, x: int, y: int, z: usize)
    requires
        m.len() == n * n,
        0 <= x < n,
        0 <= y < n,
    ensures
        sym_update(m, n, x, y, z).len() == n * n,
        edge_at(sym_update(m, n, x, y, z), n, x, y) == z,
        edge_at(sym_update(m, n, x, y, z), n, y, x) == z,
        forall|i: int, j: int|
            0 <= i < n && 0 <= j < n && !(i == x && j == y) && !(i == y && j == x)
                ==> edge_at(sym_update(m, n, x, y, z), n, i, j) == edge_at(m, n, i, j),
{
    lemma_flat_index_bounds(n, x, y);
    lemma_flat_index_bounds(n, y, x);
    assert forall|i: int, j: int|
        0 <= i < n && 0 <= j < n && !(i == x && j == y) && !(i == y && j == x)
            implies edge_at(sym_update(m, n, x, y, z), n, i, j) == edge_at(m, n, i, j) by {
        lemma_flat_index_bounds(n, i, j);
        lemma_flat_index_injective(n, i, j, x, y);
        lemma_flat_index_injective(n, i, j, y, x);
    }
}

/// A symmetric write keeps the matrix symmetric: after any sequence of
/// `add_edge` / `remove_edge` writes on a symmetric matrix, entry `(x, y)`
/// still equals entry `(y, x)` for all valid `x`, `y`.
pub proof fn lemma_sym_update_preserves_symmetry(m: Seq<usize>, n: int, x: int, y: int, z: usize)
    requires
        m.len() == n * n,
        0 <= x < n,
        0 <= y < n,
        symmetric(m, n),
    ensures
        symmetric(sym_update(m, n, x, y, z), n),
{
    lemma_sym_update_effect(m, n, x, y, z);
    assert forall|i: int, j: int|
        0 <= i < n && 0 <= j < n
            implies edge_at(sym_update(m, n, x, y, z), n, i, j)
                == edge_at(sym_update(m, n, x, y, z), n, j, i) by {
        if i == x && j == y {
        } else if i == y && j == x {
        } else {
            assert(edge_at(m, n, i, j) == edge_at(m, n, j, i));
        }
    }
}

/// Repeating the same symmetric write changes nothing the second time; in
/// particular, a second `remove_edge` of an already removed edge leaves the
/// matrix exactly as the first left it.
pub proof fn lemma_sym_update_idempotent(m: Seq<usize>, n: int, x: int, y: int, z: usize)
    requires
        m.len() == n * n,
        0 <= x < n,
        0 <= y < n,
    ensures
        sym_update(sym_update(m, n, x, y, z), n, x, y, z) == sym_update(m, n, x, y, z),
{
    lemma_flat_index_bounds(n, x, y);
    lemma_flat_index_bounds(n, y, x);
    let once = sym_update(m, n, x, y, z);
    let twice = sym_update(once, n, x, y, z);
    assert(twice =~= once);
}

} // verus!
