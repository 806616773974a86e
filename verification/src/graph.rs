//! The graph container: a fixed sequence of vertex values paired with a
//! flat, row-major square matrix of edge weights.

use vstd::prelude::*;

use crate::model;

verus! {

/// The identifier of a vertex: its position in the vertex sequence, a dense
/// zero-based index that is not stable across `remove_vertex`.
pub type VertexIndex = usize;

/// The weight of an edge; `0` means "no edge".
pub type EdgeCost = usize;

/// The one recoverable error of the library: the flat matrix handed to
/// `Graph::new` does not have one entry per ordered pair of vertices.
#[derive(Debug, PartialEq, Eq, Structural)]
pub enum GraphError {
    MatrixDimensionMismatch { matrix_len: usize, vertex_count: usize, expected_len: usize },
}

/// An undirected weighted graph over vertices `0 .. vertex_count`, each
/// carrying one `u64` value. Edge weights live in a flat row-major square
/// matrix; entry `(x, y)` sits at flat index `x * vertex_count + y`, `0`
/// means "no edge", and any positive entry is the weight of an edge.
#[derive(Debug)]
pub struct Graph {
    adjacency_matrix: Vec<EdgeCost>,
    vertices: Vec<u64>,
    vertex_count: usize,
}

impl Graph {
    /// The flat edge-weight matrix, in row-major order.
    pub closed spec fn matrix(self) -> Seq<usize> {
        self.adjacency_matrix@
    }

    /// The vertex values, indexed by vertex identifier.
    pub closed spec fn vertex_values(self) -> Seq<u64> {
        self.vertices@
    }

    /// The number of vertices.
    pub closed spec fn count(self) -> nat {
        self.vertex_count as nat
    }

    /// The dimensions agree: one value per vertex, and one matrix entry per
    /// ordered pair of vertices.
    pub open spec fn wf(self) -> bool {
        &&& self.vertex_values().len() == self.count()
        &&& self.matrix().len() == self.count() * self.count()
    }

    /// The weight stored for the ordered pair `(x, y)`.
    pub open spec fn edge_at(self, x: int, y: int) -> usize {
        model::edge_at(self.matrix(), self.count() as int, x, y)
    }

    /// The matrix holds the same weight in both directions of every pair.
    pub open spec fn symmetric(self) -> bool {
        model::symmetric(self.matrix(), self.count() as int)
    }

    /// Validated construction: succeeds exactly when the flat matrix has one
    /// entry per ordered pair of vertices, and otherwise reports the actual
    /// length, the vertex count and the expected length.
    pub fn new(adjacency_matrix: Vec<EdgeCost>, vertices: Vec<u64>) -> (r: Result<Graph, GraphError>)
        requires
            vertices@.len() * vertices@.len() <= usize::MAX,
        ensures
            match r {
                Ok(g) => {
                    &&& adjacency_matrix@.len() == vertices@.len() * vertices@.len()
                    &&& g.wf()
                    &&& g.count() == vertices@.len()
                    &&& g.matrix() == adjacency_matrix@
                    &&& g.vertex_values() == vertices@
                },
                Err(e) => {
                    &&& adjacency_matrix@.len() != vertices@.len() * vertices@.len()
                    &&& e == (GraphError::MatrixDimensionMismatch {
                        matrix_len: adjacency_matrix@.len() as usize,
                        vertex_count: vertices@.len() as usize,
                        expected_len: (vertices@.len() * vertices@.len()) as usize,
                    })
                },
            },
    {
        let vertex_count = vertices.len();
        let expected_len = vertex_count * vertex_count;

        if adjacency_matrix.len() == expected_len {
            Ok(Graph { adjacency_matrix, vertices, vertex_count })
        } else {
            Err(GraphError::MatrixDimensionMismatch {
                matrix_len: adjacency_matrix.len(),
                vertex_count,
                expected_len,
            })
        }
    }

    /// Row-major flat index of entry `(x, y)`, proved in bounds for the
    /// matrix.
    fn flat_index(&self, x: VertexIndex, y: VertexIndex) -> (i: usize)
        requires
            self.wf(),
            x < self.count(),
            y < self.count(),
        ensures
            i == x * self.count() + y,
            i < self.matrix().len(),
    {
        proof {
            assert(self.adjacency_matrix.len() <= usize::MAX);
            model::lemma_flat_index_bounds(self.count() as int, x as int, y as int);
        }
        x * self.vertex_count + y
    }

    /// True exactly when an edge joins `x` and `y`, that is, when the stored
    /// weight for `(x, y)` is positive.
    pub fn adjacent(&self, x: VertexIndex, y: VertexIndex) -> (r: bool)
        requires
            self.wf(),
            x < self.count(),
            y < self.count(),
        ensures
            r == (self.edge_at(x as int, y as int) > 0),
    {
        let i = self.flat_index(x, y);
        self.adjacency_matrix[i] > 0
    }

    /// Every vertex joined to `x` by an edge, in ascending index order; empty
    /// for an isolated vertex.
    pub fn neighbors(&self, x: VertexIndex) -> (r: Vec<VertexIndex>)
        requires
            self.wf(),
            x < self.count(),
        ensures
            forall|k: int, l: int| 0 <= k < l < r@.len() ==> r@[k] < r@[l],
            forall|k: int|
                0 <= k < r@.len()
                    ==> r@[k] < self.count() && self.edge_at(x as int, #[trigger] r@[k] as int) > 0,
            forall|y: int|
                0 <= y < self.count() && self.edge_at(x as int, y) > 0 ==> r@.contains(y as usize),
    {
        let mut r: Vec<VertexIndex> = Vec::new();
        let mut y: usize = 0;
        while y < self.vertex_count
            invariant
                self.wf(),
                x < self.count(),
                y <= self.count(),
                forall|k: int, l: int| 0 <= k < l < r@.len() ==> r@[k] < r@[l],
                forall|k: int|
                    0 <= k < r@.len()
                        ==> r@[k] < y && self.edge_at(x as int, #[trigger] r@[k] as int) > 0,
                forall|z: int|
                    0 <= z < y && self.edge_at(x as int, z) > 0 ==> r@.contains(z as usize),
            decreases self.count() - y,
        {
            let i = self.flat_index(x, y);
            if self.adjacency_matrix[i] > 0 {
                let ghost prev = r@;
                r.push(y);
                proof {
                    assert forall|z: int|
                        0 <= z < y + 1 && self.edge_at(x as int, z) > 0
                            implies r@.contains(z as usize) by {
                        if z < y {
                            let k = choose|k: int| 0 <= k < prev.len() && prev[k] == z as usize;
                            assert(r@[k] == z as usize);
                        } else {
                            assert(r@[r@.len() - 1] == z as usize);
                        }
                    }
                }
            }
            y = y + 1;
        }
        r
    }

    /// The stored weight for `(x, y)`; `0` doubles as "no edge", so this also
    /// decides adjacency.
    pub fn get_edge_value(&self, x: VertexIndex, y: VertexIndex) -> (r: EdgeCost)
        requires
            self.wf(),
            x < self.count(),
            y < self.count(),
        ensures
            r == self.edge_at(x as int, y as int),
    {
        let i = self.flat_index(x, y);
        self.adjacency_matrix[i]
    }

    /// Appends a vertex with value `v` at index `old count`, and grows the
    /// matrix by one row and one column: every old entry keeps its `(row,
    /// col)` coordinates, and every entry touching the new vertex starts at
    /// `0`. Returns the new vertex count — not the new vertex's index, which
    /// is one less.
    pub fn add_vertex(&mut self, v: u64) -> (r: VertexIndex)
        requires
            old(self).wf(),
            (old(self).count() + 1) * (old(self).count() + 1) <= usize::MAX,
        ensures
            final(self).wf(),
            final(self).count() == old(self).count() + 1,
            r == final(self).count(),
            final(self).vertex_values() == old(self).vertex_values().push(v),
            forall|i: int, j: int|
                0 <= i < old(self).count() && 0 <= j < old(self).count()
                    ==> final(self).edge_at(i, j) == old(self).edge_at(i, j),
            forall|i: int|
                0 <= i < final(self).count()
                    ==> final(self).edge_at(i, old(self).count() as int) == 0
                        && final(self).edge_at(old(self).count() as int, i) == 0,
            old(self).symmetric() ==> final(self).symmetric(),
    {
        let old_n = self.vertex_count;
        proof {
            assert(old_n + 1 <= (old_n + 1) * (old_n + 1)) by (nonlinear_arith)
                requires
                    old_n >= 0,
            ;
        }
        let new_n = old_n + 1;
        let new_size = new_n * new_n;
        let ghost m0 = self.adjacency_matrix@;

        let mut new_matrix: Vec<EdgeCost> = Vec::with_capacity(new_size);
        let mut i: usize = 0;
        while i < new_n
            invariant
                self.wf(),
                self.adjacency_matrix@ == m0,
                old_n == self.count(),
                new_n == old_n + 1,
                i <= new_n,
                new_matrix@.len() == i * new_n,
                forall|a: int, b: int|
                    0 <= a < i && 0 <= b < new_n
                        ==> model::edge_at(new_matrix@, new_n as int, a, b)
                            == (if a < old_n && b < old_n {
                                model::edge_at(m0, old_n as int, a, b)
                            } else {
                                0usize
                            }),
            decreases new_n - i,
        {
            let mut j: usize = 0;
            while j < new_n
                invariant
                    self.wf(),
                    self.adjacency_matrix@ == m0,
                    old_n == self.count(),
                    new_n == old_n + 1,
                    i < new_n,
                    j <= new_n,
                    new_matrix@.len() == i * new_n + j,
                    forall|a: int, b: int|
                        0 <= a < i && 0 <= b < new_n
                            ==> model::edge_at(new_matrix@, new_n as int, a, b)
                                == (if a < old_n && b < old_n {
                                    model::edge_at(m0, old_n as int, a, b)
                                } else {
                                    0usize
                                }),
                    forall|b: int|
                        0 <= b < j
                            ==> model::edge_at(new_matrix@, new_n as int, i as int, b)
                                == (if i < old_n && b < old_n {
                                    model::edge_at(m0, old_n as int, i as int, b)
                                } else {
                                    0usize
                                }),
                decreases new_n - j,
            {
                let mut val: usize = 0;
                if i < old_n && j < old_n {
                    proof {
                        assert(self.adjacency_matrix.len() <= usize::MAX);
                        model::lemma_flat_index_bounds(old_n as int, i as int, j as int);
                    }
                    val = self.adjacency_matrix[i * old_n + j];
                }
                let ghost prev = new_matrix@;
                new_matrix.push(val);
                j = j + 1;
                proof {
                    assert(new_matrix@ == prev.push(val));
                    assert forall|a: int, b: int|
                        0 <= a < i && 0 <= b < new_n
                            implies model::edge_at(new_matrix@, new_n as int, a, b)
                                == (if a < old_n && b < old_n {
                                    model::edge_at(m0, old_n as int, a, b)
                                } else {
                                    0usize
                                }) by {
                        model::lemma_flat_lt(new_n as int, a, b, i as int);
                        assert(new_matrix@[a * (new_n as int) + b]
                            == prev[a * (new_n as int) + b]);
                        assert(model::edge_at(prev, new_n as int, a, b)
                            == (if a < old_n && b < old_n {
                                model::edge_at(m0, old_n as int, a, b)
                            } else {
                                0usize
                            }));
                    }
                    assert forall|b: int|
                        0 <= b < j
                            implies model::edge_at(new_matrix@, new_n as int, i as int, b)
                                == (if i < old_n && b < old_n {
                                    model::edge_at(m0, old_n as int, i as int, b)
                                } else {
                                    0usize
                                }) by {
                        model::lemma_flat_lt(new_n as int, i as int, b, i as int + 1);
                        if b < j - 1 {
                            assert(new_matrix@[(i as int) * (new_n as int) + b]
                                == prev[(i as int) * (new_n as int) + b]);
                            assert(model::edge_at(prev, new_n as int, i as int, b)
                                == (if i < old_n && b < old_n {
                                    model::edge_at(m0, old_n as int, i as int, b)
                                } else {
                                    0usize
                                }));
                        } else {
                            assert(new_matrix@[(i as int) * (new_n as int) + b] == val);
                        }
                    }
                }
            }
            proof {
                assert forall|a: int, b: int|
                    0 <= a < i + 1 && 0 <= b < new_n
                        implies model::edge_at(new_matrix@, new_n as int, a, b)
                            == (if a < old_n && b < old_n {
                                model::edge_at(m0, old_n as int, a, b)
                            } else {
                                0usize
                            }) by {
                    if a == i {
                        assert(model::edge_at(new_matrix@, new_n as int, i as int, b)
                            == (if i < old_n && b < old_n {
                                model::edge_at(m0, old_n as int, i as int, b)
                            } else {
                                0usize
                            }));
                    }
                }
                assert((i as int + 1) * (new_n as int)
                    == (i as int) * (new_n as int) + (new_n as int)) by (nonlinear_arith);
            }
            i = i + 1;
        }

        self.adjacency_matrix = new_matrix;
        self.vertices.push(v);
        self.vertex_count = new_n;

        proof {
            assert(self.matrix().len() == new_n * new_n) by (nonlinear_arith)
                requires
                    self.matrix().len() == (new_n as int) * (new_n as int),
            ;
            if old(self).symmetric() {
                assert forall|a: int, b: int|
                    0 <= a < new_n && 0 <= b < new_n
                        implies self.edge_at(a, b) == self.edge_at(b, a) by {
                    if a < old_n && b < old_n {
                        assert(model::edge_at(m0, old_n as int, a, b)
                            == model::edge_at(m0, old_n as int, b, a));
                    }
                }
            }
        }
        new_n
    }

    /// Removes vertex `x`: its value leaves the vertex sequence, and the
    /// matrix shrinks by omitting row `x` and column `x`, so every vertex
    /// with an index above `x` shifts down by one. Entry `(i, j)` of the new
    /// matrix is entry `(source_index(i, x), source_index(j, x))` of the old
    /// one.
    pub fn remove_vertex(&mut self, x: VertexIndex)
        requires
            old(self).wf(),
            x < old(self).count(),
        ensures
            final(self).wf(),
            final(self).count() == old(self).count() - 1,
            final(self).vertex_values() == old(self).vertex_values().remove(x as int),
            forall|i: int, j: int|
                0 <= i < final(self).count() && 0 <= j < final(self).count()
                    ==> final(self).edge_at(i, j) == old(self).edge_at(
                        model::source_index(i, x as int),
                        model::source_index(j, x as int),
                    ),
            old(self).symmetric() ==> final(self).symmetric(),
    {
        let old_n = self.vertex_count;
        let new_n = old_n - 1;
        let ghost m0 = self.adjacency_matrix@;
        proof {
            assert(self.adjacency_matrix.len() <= usize::MAX);
            assert((new_n as int) * (new_n as int) <= (old_n as int) * (old_n as int))
                by (nonlinear_arith)
                requires
                    0 <= new_n <= old_n,
            ;
        }
        let new_size = new_n * new_n;

        let mut new_matrix: Vec<EdgeCost> = Vec::with_capacity(new_size);
        let mut i: usize = 0;
        while i < new_n
            invariant
                self.wf(),
                self.adjacency_matrix@ == m0,
                old_n == self.count(),
                new_n == old_n - 1,
                x < old_n,
                i <= new_n,
                new_matrix@.len() == i * new_n,
                forall|a: int, b: int|
                    0 <= a < i && 0 <= b < new_n
                        ==> model::edge_at(new_matrix@, new_n as int, a, b)
                            == model::edge_at(
                                m0,
                                old_n as int,
                                model::source_index(a, x as int),
                                model::source_index(b, x as int),
                            ),
            decreases new_n - i,
        {
            let src_i = if i < x { i } else { i + 1 };
            let mut j: usize = 0;
            while j < new_n
                invariant
                    self.wf(),
                    self.adjacency_matrix@ == m0,
                    old_n == self.count(),
                    new_n == old_n - 1,
                    x < old_n,
                    i < new_n,
                    src_i == model::source_index(i as int, x as int),
                    src_i < old_n,
                    j <= new_n,
                    new_matrix@.len() == i * new_n + j,
                    forall|a: int, b: int|
                        0 <= a < i && 0 <= b < new_n
                            ==> model::edge_at(new_matrix@, new_n as int, a, b)
                                == model::edge_at(
                                    m0,
                                    old_n as int,
                                    model::source_index(a, x as int),
                                    model::source_index(b, x as int),
                                ),
                    forall|b: int|
                        0 <= b < j
                            ==> model::edge_at(new_matrix@, new_n as int, i as int, b)
                                == model::edge_at(
                                    m0,
                                    old_n as int,
                                    model::source_index(i as int, x as int),
                                    model::source_index(b, x as int),
                                ),
                decreases new_n - j,
            {
                let src_j = if j < x { j } else { j + 1 };
                proof {
                    assert(self.adjacency_matrix.len() <= usize::MAX);
                    model::lemma_flat_index_bounds(old_n as int, src_i as int, src_j as int);
                }
                let val = self.adjacency_matrix[src_i * old_n + src_j];
                let ghost prev = new_matrix@;
                new_matrix.push(val);
                j = j + 1;
                proof {
                    assert(new_matrix@ == prev.push(val));
                    assert forall|a: int, b: int|
                        0 <= a < i && 0 <= b < new_n
                            implies model::edge_at(new_matrix@, new_n as int, a, b)
                                == model::edge_at(
                                    m0,
                                    old_n as int,
                                    model::source_index(a, x as int),
                                    model::source_index(b, x as int),
                                ) by {
                        model::lemma_flat_lt(new_n as int, a, b, i as int);
                        assert(new_matrix@[a * (new_n as int) + b]
                            == prev[a * (new_n as int) + b]);
                        assert(model::edge_at(prev, new_n as int, a, b)
                            == model::edge_at(
                                m0,
                                old_n as int,
                                model::source_index(a, x as int),
                                model::source_index(b, x as int),
                            ));
                    }
                    assert forall|b: int|
                        0 <= b < j
                            implies model::edge_at(new_matrix@, new_n as int, i as int, b)
                                == model::edge_at(
                                    m0,
                                    old_n as int,
                                    model::source_index(i as int, x as int),
                                    model::source_index(b, x as int),
                                ) by {
                        model::lemma_flat_lt(new_n as int, i as int, b, i as int + 1);
                        if b < j - 1 {
                            assert(new_matrix@[(i as int) * (new_n as int) + b]
                                == prev[(i as int) * (new_n as int) + b]);
                            assert(model::edge_at(prev, new_n as int, i as int, b)
                                == model::edge_at(
                                    m0,
                                    old_n as int,
                                    model::source_index(i as int, x as int),
                                    model::source_index(b, x as int),
                                ));
                        } else {
                            assert(new_matrix@[(i as int) * (new_n as int) + b] == val);
                        }
                    }
                }
            }
            proof {
                assert forall|a: int, b: int|
                    0 <= a < i + 1 && 0 <= b < new_n
                        implies model::edge_at(new_matrix@, new_n as int, a, b)
                            == model::edge_at(
                                m0,
                                old_n as int,
                                model::source_index(a, x as int),
                                model::source_index(b, x as int),
                            ) by {
                    if a == i {
                        assert(model::edge_at(new_matrix@, new_n as int, i as int, b)
                            == model::edge_at(
                                m0,
                                old_n as int,
                                model::source_index(i as int, x as int),
                                model::source_index(b, x as int),
                            ));
                    }
                }
                assert((i as int + 1) * (new_n as int)
                    == (i as int) * (new_n as int) + (new_n as int)) by (nonlinear_arith);
            }
            i = i + 1;
        }

        self.adjacency_matrix = new_matrix;
        self.vertices.remove(x);
        self.vertex_count = new_n;

        proof {
            assert(self.matrix().len() == new_n * new_n) by (nonlinear_arith)
                requires
                    self.matrix().len() == (new_n as int) * (new_n as int),
            ;
            if old(self).symmetric() {
                assert forall|a: int, b: int|
                    0 <= a < new_n && 0 <= b < new_n
                        implies self.edge_at(a, b) == self.edge_at(b, a) by {
                    let sa = model::source_index(a, x as int);
                    let sb = model::source_index(b, x as int);
                    assert(model::edge_at(m0, old_n as int, sa, sb)
                        == model::edge_at(m0, old_n as int, sb, sa));
                }
            }
        }
    }

    /// Writes weight `z` on both directions of the edge `(x, y)` and touches
    /// nothing else; a `z` of `0` is equivalent to removing the edge.
    pub fn add_edge(&mut self, x: VertexIndex, y: VertexIndex, z: EdgeCost)
        requires
            old(self).wf(),
            x < old(self).count(),
            y < old(self).count(),
        ensures
            final(self).wf(),
            final(self).count() == old(self).count(),
            final(self).vertex_values() == old(self).vertex_values(),
            final(self).matrix() == model::sym_update(
                old(self).matrix(),
                old(self).count() as int,
                x as int,
                y as int,
                z,
            ),
            final(self).edge_at(x as int, y as int) == z,
            final(self).edge_at(y as int, x as int) == z,
            forall|i: int, j: int|
                0 <= i < old(self).count() && 0 <= j < old(self).count()
                    && !(i == x && j == y) && !(i == y && j == x)
                    ==> final(self).edge_at(i, j) == old(self).edge_at(i, j),
            old(self).symmetric() ==> final(self).symmetric(),
    {
        let i1 = self.flat_index(x, y);
        let i2 = self.flat_index(y, x);
        self.adjacency_matrix[i1] = z;
        self.adjacency_matrix[i2] = z;
        proof {
            let n = old(self).count() as int;
            model::lemma_sym_update_effect(old(self).matrix(), n, x as int, y as int, z);
            if old(self).symmetric() {
                model::lemma_sym_update_preserves_symmetry(
                    old(self).matrix(),
                    n,
                    x as int,
                    y as int,
                    z,
                );
            }
        }
    }

    /// Clears both directions of the edge `(x, y)`: both entries become `0`,
    /// and nothing else changes.
    pub fn remove_edge(&mut self, x: VertexIndex, y: VertexIndex)
        requires
            old(self).wf(),
            x < old(self).count(),
            y < old(self).count(),
        ensures
            final(self).wf(),
            final(self).count() == old(self).count(),
            final(self).vertex_values() == old(self).vertex_values(),
            final(self).matrix() == model::sym_update(
                old(self).matrix(),
                old(self).count() as int,
                x as int,
                y as int,
                0,
            ),
            final(self).edge_at(x as int, y as int) == 0,
            final(self).edge_at(y as int, x as int) == 0,
            forall|i: int, j: int|
                0 <= i < old(self).count() && 0 <= j < old(self).count()
                    && !(i == x && j == y) && !(i == y && j == x)
                    ==> final(self).edge_at(i, j) == old(self).edge_at(i, j),
            old(self).symmetric() ==> final(self).symmetric(),
    {
        let i1 = self.flat_index(x, y);
        let i2 = self.flat_index(y, x);
        self.adjacency_matrix[i1] = 0;
        self.adjacency_matrix[i2] = 0;
        proof {
            let n = old(self).count() as int;
            model::lemma_sym_update_effect(old(self).matrix(), n, x as int, y as int, 0);
            if old(self).symmetric() {
                model::lemma_sym_update_preserves_symmetry(
                    old(self).matrix(),
                    n,
                    x as int,
                    y as int,
                    0,
                );
            }
        }
    }

    /// The number of vertices, which is also the side of the square matrix.
    pub fn vertex_count(&self) -> (r: usize)
        ensures
            r == self.count(),
    {
        self.vertex_count
    }

    /// The value carried by vertex `x`, or `None` when `x` is out of range —
    /// the one bounds-checked accessor of the library.
    pub fn get_vertex_value(&self, x: VertexIndex) -> (r: Option<u64>)
        ensures
            r == (if x < self.vertex_values().len() {
                Some(self.vertex_values()[x as int])
            } else {
                None::<u64>
            }),
    {
        if x < self.vertices.len() {
            Some(self.vertices[x])
        } else {
            None
        }
    }

    /// Overwrites the value carried by vertex `x`; the matrix and every other
    /// vertex value stay as they were.
    pub fn set_vertex_value(&mut self, x: VertexIndex, v: u64)
        requires
            old(self).wf(),
            x < old(self).count(),
        ensures
            final(self).wf(),
            final(self).count() == old(self).count(),
            final(self).matrix() == old(self).matrix(),
            final(self).vertex_values() == old(self).vertex_values().update(x as int, v),
    {
        self.vertices[x] = v;
    }

    /// Raw, directed write: overwrites the single entry `(x, y)` and leaves
    /// every other entry alone, the mirror entry `(y, x)` included. Unlike
    /// `add_edge` / `remove_edge` it can therefore break `symmetric()`; it is
    /// the low-level primitive underneath the undirected-edge operations.
    pub fn set_edge_value(&mut self, x: VertexIndex, y: VertexIndex, v: EdgeCost)
        requires
            old(self).wf(),
            x < old(self).count(),
            y < old(self).count(),
        ensures
            final(self).wf(),
            final(self).count() == old(self).count(),
            final(self).vertex_values() == old(self).vertex_values(),
            final(self).matrix() == old(self).matrix().update(
                x as int * old(self).count() as int + y as int,
                v,
            ),
            final(self).edge_at(x as int, y as int) == v,
            forall|i: int, j: int|
                0 <= i < old(self).count() && 0 <= j < old(self).count()
                    && !(i == x && j == y)
                    ==> final(self).edge_at(i, j) == old(self).edge_at(i, j),
    {
        let i1 = self.flat_index(x, y);
        self.adjacency_matrix[i1] = v;
        proof {
            let n = old(self).count() as int;
            assert forall|i: int, j: int|
                0 <= i < n && 0 <= j < n && !(i == x && j == y)
                    implies final(self).edge_at(i, j) == old(self).edge_at(i, j) by {
                model::lemma_flat_index_bounds(n, i, j);
                model::lemma_flat_index_injective(n, i, j, x as int, y as int);
            }
        }
    }
}

} // verus!
