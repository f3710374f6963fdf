//! What the triangle table yields for a cube: one triangle per leading
//! triple of edge numbers in a row.
use vstd::prelude::*;
use crate::cube_table::{row_triangles, is_triple, triangle_at};

verus! {

/// Entries `p`, `p + 1` and `p + 2` of `row` are edge numbers in `0..12`,
/// and `t` is the triangle of the vertices `edge_vertex` gives them.
pub open spec fn triangle_of_entries(row: Seq<i8>, edge_vertex: Seq<usize>, p: int, t: [usize; 3]) -> bool {
    &&& 0 <= p && p + 2 < 16
    &&& 0 <= row[p] < 12 && 0 <= row[p + 1] < 12 && 0 <= row[p + 2] < 12
    &&& t[0] == edge_vertex[row[p] as int]
    &&& t[1] == edge_vertex[row[p + 1] as int]
    &&& t[2] == edge_vertex[row[p + 2] as int]
}

/// Entries `p`, `p + 1` and `p + 2` of `row` are all edge numbers.
pub open spec fn entries_are_edges(row: Seq<i8>, p: int) -> bool {
    0 <= row[p] < 12 && 0 <= row[p + 1] < 12 && 0 <= row[p + 2] < 12
}

/// The triangles listed from position `i`: the `k`-th is made of the three
/// entries at `i + 3k`; and the list ends only where the next three entries
/// are not all edge numbers, or the row has no room for three more.
proof fn lemma_row_triangles_from(row: Seq<i8>, edge_vertex: Seq<usize>, i: int)
    requires
        row.len() == 16,
        0 <= i,
    ensures
        forall|k: int| #![trigger row_triangles(row, edge_vertex, i)[k]] 0 <= k < row_triangles(row, edge_vertex, i).len()
            ==> triangle_of_entries(row, edge_vertex, i + 3 * k, row_triangles(row, edge_vertex, i)[k]),
        i + 3 * row_triangles(row, edge_vertex, i).len() + 2 < 16
            ==> !entries_are_edges(row, i + 3 * row_triangles(row, edge_vertex, i).len()),
    decreases 16 - i,
{
    if is_triple(row, i) {
        lemma_row_triangles_from(row, edge_vertex, i + 3);
        let rest = row_triangles(row, edge_vertex, i + 3);
        assert(row_triangles(row, edge_vertex, i) == seq![triangle_at(row, edge_vertex, i)] + rest);
        assert forall|k: int| #![trigger row_triangles(row, edge_vertex, i)[k]] 0 <= k < row_triangles(row, edge_vertex, i).len()
            implies triangle_of_entries(row, edge_vertex, i + 3 * k, row_triangles(row, edge_vertex, i)[k]) by {
            if k > 0 {
                assert(row_triangles(row, edge_vertex, i)[k] == rest[k - 1]);
                assert(i + 3 * k == (i + 3) + 3 * (k - 1));
            } else {
                assert(row_triangles(row, edge_vertex, i)[0] == triangle_at(row, edge_vertex, i));
            }
        }
    }
}

/// What a triangle-table row yields: the `k`-th triangle is made of the
/// entries `3k`, `3k + 1` and `3k + 2` of the row, each an edge number in
/// `0..12`, mapped through `edge_vertex`; and the triangles stop only at the
/// first triple that is not three edge numbers, or at the end of the row.
/// So every complete leading triple of the row gives its triangle.
pub proof fn lemma_row_triangles_meaning(row: Seq<i8>, edge_vertex: Seq<usize>)
    requires
        row.len() == 16,
    ensures
        forall|k: int| #![trigger row_triangles(row, edge_vertex, 0)[k]] 0 <= k < row_triangles(row, edge_vertex, 0).len()
            ==> triangle_of_entries(row, edge_vertex, 3 * k, row_triangles(row, edge_vertex, 0)[k]),
        3 * row_triangles(row, edge_vertex, 0).len() + 2 < 16
            ==> !entries_are_edges(row, (3 * row_triangles(row, edge_vertex, 0).len()) as int),
{
    lemma_row_triangles_from(row, edge_vertex, 0);
    assert forall|k: int| #![trigger row_triangles(row, edge_vertex, 0)[k]] 0 <= k < row_triangles(row, edge_vertex, 0).len()
        implies triangle_of_entries(row, edge_vertex, 3 * k, row_triangles(row, edge_vertex, 0)[k]) by {
        assert(0 + 3 * k == 3 * k);
    }
}

} // verus!
