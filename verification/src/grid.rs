//! Grid model and the grid-to-graph builder.
//!
//! A square matrix of cell markers (`2` start, `1` end, `-1` blocked, `0`
//! free) is turned into a graph: one `Field` per cell in row-major order and
//! an adjacency list holding the legal 4-directional moves between passable
//! cells.

use vstd::arithmetic::div_mod::{
    lemma_div_pos_is_pos, lemma_fundamental_div_mod_converse, lemma_mod_division_less_than_divisor,
    lemma_multiply_divide_lt,
};
use vstd::prelude::*;

use crate::MalformedGridError;

verus! {

/// A lightweight coordinate pair; `None` marks an index that has not been
/// resolved against any grid.
#[derive(Clone, Copy, PartialEq, Eq, Structural, Debug)]
pub struct Point {
    pub x: Option<usize>,
    pub y: Option<usize>,
}

/// A graph node: resolved coordinates, a passability flag and the stable
/// index used for adjacency lookups.
#[derive(Clone, Copy, PartialEq, Eq, Structural, Debug)]
pub struct Field {
    pub x: usize,
    pub y: usize,
    pub passable: bool,
    pub index: usize,
}

/// The field set in row-major order together with the adjacency set.
#[derive(Debug)]
pub struct Graph {
    pub fields: Vec<Field>,
    pub adjacency: Vec<Vec<usize>>,
}

/// The matrix is non-empty and every row is as long as the matrix is tall.
pub open spec fn is_square(m: Seq<Seq<i8>>) -> bool {
    &&& m.len() > 0
    &&& forall|r: int| 0 <= r < m.len() ==> (#[trigger] m[r]).len() == m.len()
}

/// How many cells of one row hold the value `v`.
pub open spec fn count_in_row(row: Seq<i8>, v: i8) -> nat
    decreases row.len(),
{
    if row.len() == 0 {
        0
    } else {
        count_in_row(row.drop_last(), v) + (if row.last() == v {
            1nat
        } else {
            0nat
        })
    }
}

/// How many cells of the whole matrix hold the value `v`.
pub open spec fn count_cells(m: Seq<Seq<i8>>, v: i8) -> nat
    decreases m.len(),
{
    if m.len() == 0 {
        0
    } else {
        count_cells(m.drop_last(), v) + count_in_row(m.last(), v)
    }
}

/// Exactly one start marker and exactly one end marker.
pub open spec fn markers_ok(m: Seq<Seq<i8>>) -> bool {
    count_cells(m, 2) == 1 && count_cells(m, 1) == 1
}

/// A cell is passable unless it is blocked.
pub open spec fn cell_passable(m: Seq<Seq<i8>>, r: int, c: int) -> bool {
    m[r][c] != -1
}

/// The field that the builder creates for flat index `i`.
pub open spec fn field_spec(m: Seq<Seq<i8>>, size: int, i: int) -> Field {
    (Field {
        x: (i / size) as usize,
        y: (i % size) as usize,
        passable: cell_passable(m, i / size, i % size),
        index: i as usize,
    })
}

/// The exact adjacency row of cell `(r, c)`: its passable 4-directional
/// neighbours in the fixed order up, down, left, right; a blocked cell has
/// no outgoing edges.
pub open spec fn adj_expected(m: Seq<Seq<i8>>, size: int, r: int, c: int) -> Seq<usize> {
    if !cell_passable(m, r, c) {
        Seq::<usize>::empty()
    } else {
        (if r > 0 && cell_passable(m, r - 1, c) {
            seq![(((r - 1) * size + c) as usize)]
        } else {
            Seq::<usize>::empty()
        }) + (if r + 1 < size && cell_passable(m, r + 1, c) {
            seq![(((r + 1) * size + c) as usize)]
        } else {
            Seq::<usize>::empty()
        }) + (if c > 0 && cell_passable(m, r, c - 1) {
            seq![((r * size + c - 1) as usize)]
        } else {
            Seq::<usize>::empty()
        }) + (if c + 1 < size && cell_passable(m, r, c + 1) {
            seq![((r * size + c + 1) as usize)]
        } else {
            Seq::<usize>::empty()
        })
    }
}

/// Structural invariant of a built graph for a matrix of side `size`:
/// one field per cell in row-major order, in-bounds adjacency indices, and
/// every edge leaving a passable field and entering a passable field.
pub open spec fn graph_wf(g: Graph, size: int) -> bool {
    &&& size > 0
    &&& g.fields@.len() == size * size
    &&& g.adjacency@.len() == size * size
    &&& forall|i: int|
        0 <= i < size * size ==> (#[trigger] g.fields@[i]).index == i && g.fields@[i].x == i
            / size && g.fields@[i].y == i % size
    &&& forall|i: int, k: int|
        0 <= i < size * size && 0 <= k < g.adjacency@[i]@.len() ==> (#[trigger] g.adjacency@[i]@[k])
            < size * size
    &&& forall|i: int, k: int|
        0 <= i < size * size && 0 <= k < g.adjacency@[i]@.len() ==> g.fields@[i].passable
            && g.fields@[#[trigger] g.adjacency@[i]@[k] as int].passable
}

/// There is an adjacency entry from field `a` to field `b`.
pub open spec fn graph_edge(g: Graph, a: usize, b: usize) -> bool {
    a < g.adjacency@.len() && g.adjacency@[a as int]@.contains(b)
}

/// The resolved point of the field with flat index `i`.
pub open spec fn point_of(size: int, i: int) -> Point {
    (Point { x: Some(((i / size) as usize)), y: Some(((i % size) as usize)) })
}

/// The points of a sequence of field indices.
pub open spec fn points_of(size: int, t: Seq<usize>) -> Seq<Point> {
    t.map_values(|u: usize| point_of(size, u as int))
}

/// A marker count capped at two: enough to tell "exactly one" apart from
/// "none" and "several" without risking overflow while scanning.
pub open spec fn cap_two(x: nat) -> nat {
    if x >= 2 {
        2
    } else {
        x
    }
}

/// Law: in a well-formed graph no adjacency edge leaves or enters a blocked
/// field.
pub proof fn lemma_no_edge_touches_blocked(g: Graph, size: int, a: usize, b: usize)
    requires
        graph_wf(g, size),
        graph_edge(g, a, b),
    ensures
        a < size * size,
        b < size * size,
        g.fields@[a as int].passable,
        g.fields@[b as int].passable,
{
    let row = g.adjacency@[a as int]@;
    assert(row.contains(b));
    let k = choose|k: int| 0 <= k < row.len() && row[k] == b;
    assert(g.adjacency@[a as int]@[k] == b);
}

/// Row-major index arithmetic: `(r, c)` maps to `r * size + c`, which lies
/// inside the field set and decomposes back into `r` and `c`.
pub proof fn lemma_rc_index(size: int, r: int, c: int)
    requires
        0 < size,
        0 <= r < size,
        0 <= c < size,
    ensures
        0 <= r * size + c < size * size,
        (r * size + c) / size == r,
        (r * size + c) % size == c,
{
    assert(0 <= r * size + c < size * size) by (nonlinear_arith)
        requires
            0 <= r < size,
            0 <= c < size,
    ;
    lemma_fundamental_div_mod_converse(r * size + c, size, r, c);
}

/// Flat index arithmetic: an in-range index decomposes into an in-range row
/// and column.
pub proof fn lemma_index_rc(size: int, i: int)
    requires
        0 < size,
        0 <= i < size * size,
    ensures
        0 <= i / size < size,
        0 <= i % size < size,
        (i / size) * size + (i % size) == i,
{
    lemma_div_pos_is_pos(i, size);
    lemma_multiply_divide_lt(i, size, size);
    lemma_mod_division_less_than_divisor(i, size);
    vstd::arithmetic::div_mod::lemma_fundamental_div_mod(i, size);
    assert(size * (i / size) == (i / size) * size) by (nonlinear_arith);
}

proof fn lemma_count_in_row_step(row: Seq<i8>, v: i8, c: int)
    requires
        0 <= c < row.len(),
    ensures
        count_in_row(row.take(c + 1), v) == count_in_row(row.take(c), v) + (if row[c] == v {
            1nat
        } else {
            0nat
        }),
{
    let t = row.take(c + 1);
    assert(t.drop_last() =~= row.take(c));
    assert(t.last() == row[c]);
}

proof fn lemma_count_cells_step(m: Seq<Seq<i8>>, v: i8, r: int)
    requires
        0 <= r < m.len(),
    ensures
        count_cells(m.take(r + 1), v) == count_cells(m.take(r), v) + count_in_row(m[r], v),
{
    let t = m.take(r + 1);
    assert(t.drop_last() =~= m.take(r));
    assert(t.last() == m[r]);
}

/// Builds the adjacency row of one cell: its passable 4-directional
/// neighbours in the fixed order up, down, left, right.
fn cell_neighbors(matrix: &Vec<Vec<i8>>, size: usize, r: usize, c: usize) -> (nbrs: Vec<usize>)
    requires
        is_square(matrix.deep_view()),
        size == matrix.deep_view().len(),
        size * size <= usize::MAX,
        r < size,
        c < size,
    ensures
        ({
            let m = matrix.deep_view();
            let sz = size as int;
            &&& nbrs@ == adj_expected(m, sz, r as int, c as int)
            &&& forall|k: int|
                0 <= k < nbrs@.len() ==> (#[trigger] nbrs@[k]) < size * size && cell_passable(
                    m,
                    nbrs@[k] as int / sz,
                    nbrs@[k] as int % sz,
                ) && cell_passable(m, r as int, c as int)
        }),
{
    let ghost m = matrix.deep_view();
    let ghost sz = size as int;
    let ghost ri = r as int;
    let ghost ci = c as int;
    proof {
        lemma_rc_index(sz, ri, ci);
        assert(m[ri].len() == size);
        if ri > 0 {
            lemma_rc_index(sz, ri - 1, ci);
            assert(m[ri - 1].len() == size);
        }
        if ri + 1 < sz {
            lemma_rc_index(sz, ri + 1, ci);
            assert(m[ri + 1].len() == size);
        }
        if ci > 0 {
            lemma_rc_index(sz, ri, ci - 1);
        }
        if ci + 1 < sz {
            lemma_rc_index(sz, ri, ci + 1);
        }
    }
    let ghost seg_a: Seq<usize> = if ri > 0 && cell_passable(m, ri - 1, ci) {
        seq![(((ri - 1) * sz + ci) as usize)]
    } else {
        Seq::<usize>::empty()
    };
    let ghost seg_b: Seq<usize> = if ri + 1 < sz && cell_passable(m, ri + 1, ci) {
        seq![(((ri + 1) * sz + ci) as usize)]
    } else {
        Seq::<usize>::empty()
    };
    let ghost seg_c: Seq<usize> = if ci > 0 && cell_passable(m, ri, ci - 1) {
        seq![((ri * sz + ci - 1) as usize)]
    } else {
        Seq::<usize>::empty()
    };
    let ghost seg_d: Seq<usize> = if ci + 1 < sz && cell_passable(m, ri, ci + 1) {
        seq![((ri * sz + ci + 1) as usize)]
    } else {
        Seq::<usize>::empty()
    };
    let mut nbrs: Vec<usize> = Vec::new();
    let passable_here = matrix[r][c] != -1;
    if passable_here {
        if r > 0 {
            if matrix[r - 1][c] != -1 {
                nbrs.push((r - 1) * size + c);
            }
        }
        proof {
            assert(nbrs@ =~= seg_a);
        }
        if r + 1 < size {
            if matrix[r + 1][c] != -1 {
                nbrs.push((r + 1) * size + c);
            }
        }
        proof {
            assert(nbrs@ =~= seg_a + seg_b);
        }
        if c > 0 {
            if matrix[r][c - 1] != -1 {
                nbrs.push(r * size + (c - 1));
            }
        }
        proof {
            assert(nbrs@ =~= seg_a + seg_b + seg_c);
        }
        if c + 1 < size {
            if matrix[r][c + 1] != -1 {
                nbrs.push(r * size + (c + 1));
            }
        }
        proof {
            assert(nbrs@ =~= seg_a + seg_b + seg_c + seg_d);
            assert(nbrs@ == adj_expected(m, sz, ri, ci));
        }
    } else {
        proof {
            assert(nbrs@ =~= adj_expected(m, sz, ri, ci));
        }
    }
    nbrs
}

/// Converts a matrix of cell markers into the graph, returning the flat
/// indices of the unique start and end fields alongside it.
///
/// Fails with `MissingOrDuplicateMarker` unless exactly one cell is `2` and
/// exactly one is `1`; then fails with `NonSquareOrEmpty` unless the matrix
/// is non-empty and square. On success the field set, the adjacency set and
/// both marker indices are pinned exactly.
pub fn build_graph(matrix: &Vec<Vec<i8>>) -> (r: Result<(Graph, usize, usize), MalformedGridError>)
    requires
        matrix@.len() * matrix@.len() <= usize::MAX,
    ensures
        ({
            let m = matrix.deep_view();
            let size = m.len() as int;
            match r {
                Err(MalformedGridError::MissingOrDuplicateMarker) => !markers_ok(m),
                Err(MalformedGridError::NonSquareOrEmpty) => markers_ok(m) && !is_square(m),
                Ok((g, s, e)) => {
                    &&& markers_ok(m)
                    &&& is_square(m)
                    &&& graph_wf(g, size)
                    &&& forall|i: int|
                        0 <= i < size * size ==> g.fields@[i] == field_spec(m, size, i)
                    &&& forall|i: int|
                        0 <= i < size * size ==> g.adjacency@[i]@ == adj_expected(
                            m,
                            size,
                            i / size,
                            i % size,
                        )
                    &&& s < size * size
                    &&& e < size * size
                    &&& m[s as int / size][s as int % size] == 2
                    &&& m[e as int / size][e as int % size] == 1
                },
            }
        }),
{
    let ghost m = matrix.deep_view();
    let rows = matrix.len();

    // Scan for the start and end markers, capping the counts at two.
    let mut count2: usize = 0;
    let mut count1: usize = 0;
    let mut p2r: usize = 0;
    let mut p2c: usize = 0;
    let mut p1r: usize = 0;
    let mut p1c: usize = 0;
    let mut r: usize = 0;
    while r < rows
        invariant
            rows == m.len(),
            m == matrix.deep_view(),
            r <= rows,
            count2 == cap_two(count_cells(m.take(r as int), 2)),
            count1 == cap_two(count_cells(m.take(r as int), 1)),
            count2 > 0 ==> p2r < m.len() && p2c < m[p2r as int].len() && m[p2r as int][p2c as int]
                == 2,
            count1 > 0 ==> p1r < m.len() && p1c < m[p1r as int].len() && m[p1r as int][p1c as int]
                == 1,
        decreases rows - r,
    {
        let cols = matrix[r].len();
        let mut c: usize = 0;
        while c < cols
            invariant
                rows == m.len(),
                m == matrix.deep_view(),
                r < rows,
                cols == m[r as int].len(),
                c <= cols,
                count2 == cap_two(
                    count_cells(m.take(r as int), 2) + count_in_row(m[r as int].take(c as int), 2),
                ),
                count1 == cap_two(
                    count_cells(m.take(r as int), 1) + count_in_row(m[r as int].take(c as int), 1),
                ),
                count2 > 0 ==> p2r < m.len() && p2c < m[p2r as int].len() && m[p2r as int][p2c
                    as int] == 2,
                count1 > 0 ==> p1r < m.len() && p1c < m[p1r as int].len() && m[p1r as int][p1c
                    as int] == 1,
            decreases cols - c,
        {
            let v = matrix[r][c];
            proof {
                lemma_count_in_row_step(m[r as int], 2, c as int);
                lemma_count_in_row_step(m[r as int], 1, c as int);
            }
            if v == 2 {
                if count2 < 2 {
                    count2 = count2 + 1;
                }
                p2r = r;
                p2c = c;
            }
            if v == 1 {
                if count1 < 2 {
                    count1 = count1 + 1;
                }
                p1r = r;
                p1c = c;
            }
            c = c + 1;
        }
        proof {
            assert(m[r as int].take(cols as int) =~= m[r as int]);
            lemma_count_cells_step(m, 2, r as int);
            lemma_count_cells_step(m, 1, r as int);
        }
        r = r + 1;
    }
    proof {
        assert(m.take(rows as int) =~= m);
    }
    if count2 != 1 || count1 != 1 {
        return Err(MalformedGridError::MissingOrDuplicateMarker);
    }
    assert(markers_ok(m));

    // Shape validation: non-empty and square.
    let size = rows;
    if size == 0 {
        return Err(MalformedGridError::NonSquareOrEmpty);
    }
    let mut r: usize = 0;
    while r < size
        invariant
            size == m.len(),
            m == matrix.deep_view(),
            r <= size,
            markers_ok(m),
            forall|rr: int| 0 <= rr < r ==> (#[trigger] m[rr]).len() == size,
        decreases size - r,
    {
        if matrix[r].len() != size {
            assert(m[r as int].len() != size);
            assert(!is_square(m));
            return Err(MalformedGridError::NonSquareOrEmpty);
        }
        r = r + 1;
    }
    assert(is_square(m));
    let ghost sz = size as int;
    let n2 = size * size;

    // Field set, one field per cell in row-major order.
    let mut fields: Vec<Field> = Vec::new();
    let mut r: usize = 0;
    while r < size
        invariant
            size == m.len(),
            m == matrix.deep_view(),
            sz == size as int,
            is_square(m),
            size * size <= usize::MAX,
            n2 == size * size,
            r <= size,
            fields@.len() == r * size,
            forall|k: int| 0 <= k < r * size ==> fields@[k] == field_spec(m, sz, k),
        decreases size - r,
    {
        let mut c: usize = 0;
        while c < size
            invariant
                size == m.len(),
                m == matrix.deep_view(),
                sz == size as int,
                is_square(m),
                size * size <= usize::MAX,
                r < size,
                c <= size,
                fields@.len() == r * size + c,
                forall|k: int| 0 <= k < r * size + c ==> fields@[k] == field_spec(m, sz, k),
            decreases size - c,
        {
            proof {
                lemma_rc_index(sz, r as int, c as int);
                assert(m[r as int].len() == size);
            }
            let i = r * size + c;
            let passable = matrix[r][c] != -1;
            fields.push(Field { x: r, y: c, passable: passable, index: i });
            c = c + 1;
        }
        proof {
            assert((r as int + 1) * sz == r as int * sz + sz) by (nonlinear_arith);
        }
        r = r + 1;
    }

    // Adjacency set: passable 4-directional neighbours, in the fixed order
    // up, down, left, right; blocked cells get no outgoing edges.
    let mut adjacency: Vec<Vec<usize>> = Vec::new();
    let mut r: usize = 0;
    while r < size
        invariant
            size == m.len(),
            m == matrix.deep_view(),
            sz == size as int,
            is_square(m),
            size * size <= usize::MAX,
            n2 == size * size,
            r <= size,
            adjacency@.len() == r * size,
            forall|i: int|
                0 <= i < r * size ==> (#[trigger] adjacency@[i])@ == adj_expected(
                    m,
                    sz,
                    i / sz,
                    i % sz,
                ),
            forall|i: int, k: int|
                0 <= i < r * size && 0 <= k < adjacency@[i]@.len() ==> (#[trigger] adjacency@[i]@[k])
                    < size * size && cell_passable(
                    m,
                    adjacency@[i]@[k] as int / sz,
                    adjacency@[i]@[k] as int % sz,
                ) && cell_passable(m, i / sz, i % sz),
        decreases size - r,
    {
        let mut c: usize = 0;
        while c < size
            invariant
                size == m.len(),
                m == matrix.deep_view(),
                sz == size as int,
                is_square(m),
                size * size <= usize::MAX,
                n2 == size * size,
                r < size,
                c <= size,
                adjacency@.len() == r * size + c,
                forall|i: int|
                    0 <= i < r * size + c ==> (#[trigger] adjacency@[i])@ == adj_expected(
                        m,
                        sz,
                        i / sz,
                        i % sz,
                    ),
                forall|i: int, k: int|
                    0 <= i < r * size + c && 0 <= k < adjacency@[i]@.len() ==> (
                    #[trigger] adjacency@[i]@[k]) < size * size && cell_passable(
                        m,
                        adjacency@[i]@[k] as int / sz,
                        adjacency@[i]@[k] as int % sz,
                    ) && cell_passable(m, i / sz, i % sz),
            decreases size - c,
        {
            proof {
                lemma_rc_index(sz, r as int, c as int);
            }
            let nbrs = cell_neighbors(matrix, size, r, c);
            adjacency.push(nbrs);
            c = c + 1;
        }
        proof {
            assert((r as int + 1) * sz == r as int * sz + sz) by (nonlinear_arith);
        }
        r = r + 1;
    }

    // The unique marker positions, as flat indices.
    proof {
        lemma_rc_index(sz, p2r as int, p2c as int);
        lemma_rc_index(sz, p1r as int, p1c as int);
    }
    let s = p2r * size + p2c;
    let e = p1r * size + p1c;
    let graph = Graph { fields, adjacency };
    proof {
        assert forall|i: int| 0 <= i < sz * sz implies (#[trigger] graph.fields@[i]).index == i
            && graph.fields@[i].x == i / sz && graph.fields@[i].y == i % sz by {
            lemma_index_rc(sz, i);
        }
        assert(graph_wf(graph, sz));
    }
    Ok((graph, s, e))
}

} // verus!
