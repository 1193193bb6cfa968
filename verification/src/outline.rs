//! Boundary-edge extraction for a triangulated cross-section.
//!
//! The cross-section arrives as a triangle index list. Each triangle
//! contributes its three directed edges; an edge is part of the outline
//! exactly when the opposite directed edge occurs nowhere in that list
//! (on a two-manifold disc, interior edges are shared by two triangles
//! in opposite orientations and cancel, boundary edges survive).

use vstd::prelude::*;
use vstd::seq_lib::*;

verus! {

/// The directed edge opposite to `e`.
pub open spec fn edge_rev(e: (u32, u32)) -> (u32, u32) {
    (e.1, e.0)
}

/// The directed edges of a triangle index list, three per triangle and in
/// source order: triangle `(a, b, c)` contributes `(a, b)`, `(b, c)`, `(c, a)`.
pub open spec fn tri_edges(s: Seq<u32>) -> Seq<(u32, u32)>
    decreases s.len(),
{
    if s.len() < 3 {
        Seq::empty()
    } else {
        seq![(s[0], s[1]), (s[1], s[2]), (s[2], s[0])] + tri_edges(s.skip(3))
    }
}

/// An edge of the list `all` lies on the boundary when its reverse occurs
/// nowhere in `all`.
pub open spec fn is_boundary(all: Seq<(u32, u32)>, e: (u32, u32)) -> bool {
    !all.contains(edge_rev(e))
}

/// The edges of `part` that lie on the boundary of the edge list `all`,
/// in order.
pub open spec fn outline_within(all: Seq<(u32, u32)>, part: Seq<(u32, u32)>) -> Seq<(u32, u32)> {
    part.filter(|e: (u32, u32)| is_boundary(all, e))
}

/// The outline of an edge list: the edges whose reverse never occurs,
/// in source order.
pub open spec fn outline_of(all: Seq<(u32, u32)>) -> Seq<(u32, u32)> {
    outline_within(all, all)
}

/// Does `edges` contain the directed edge `(a, b)`?
pub fn contains_edge(edges: &Vec<(u32, u32)>, a: u32, b: u32) -> (r: bool)
    ensures
        r == edges@.contains((a, b)),
{
    let mut i: usize = 0;
    while i < edges.len()
        invariant
            i <= edges@.len(),
            forall|k: int| 0 <= k < i ==> edges@[k] != (a, b),
        decreases edges@.len() - i,
    {
        if edges[i].0 == a && edges[i].1 == b {
            assert(edges@[i as int] == (a, b));
            return true;
        }
        i += 1;
    }
    false
}

/// Lists the three directed edges of every triangle of `indices`, in order.
pub fn triangle_edges(indices: &Vec<u32>) -> (edges: Vec<(u32, u32)>)
    requires
        indices@.len() % 3 == 0,
    ensures
        edges@ == tri_edges(indices@),
{
    let mut edges: Vec<(u32, u32)> = Vec::new();
    let mut i: usize = 0;
    proof {
        assert(indices@.skip(0) =~= indices@);
        assert(edges@ + tri_edges(indices@) =~= tri_edges(indices@));
    }
    while i < indices.len()
        invariant
            i <= indices@.len(),
            i % 3 == 0,
            indices@.len() % 3 == 0,
            tri_edges(indices@) == edges@ + tri_edges(indices@.skip(i as int)),
        decreases indices@.len() - i,
    {
        assert(i + 3 <= indices@.len());
        let e0 = (indices[i], indices[i + 1]);
        let e1 = (indices[i + 1], indices[i + 2]);
        let e2 = (indices[i + 2], indices[i]);
        proof {
            let rest = indices@.skip(i as int);
            assert(rest.len() >= 3);
            assert(rest[0] == indices@[i as int]);
            assert(rest[1] == indices@[i + 1]);
            assert(rest[2] == indices@[i + 2]);
            assert(rest.skip(3) =~= indices@.skip(i + 3));
            assert(tri_edges(rest) == seq![e0, e1, e2] + tri_edges(indices@.skip(i + 3)));
            assert(edges@ + tri_edges(rest) =~= (edges@ + seq![e0, e1, e2]) + tri_edges(
                indices@.skip(i + 3),
            ));
            assert(edges@.push(e0).push(e1).push(e2) =~= edges@ + seq![e0, e1, e2]);
        }
        edges.push(e0);
        edges.push(e1);
        edges.push(e2);
        i += 3;
    }
    proof {
        assert(indices@.skip(indices@.len() as int) =~= Seq::empty());
        assert(edges@ + Seq::<(u32, u32)>::empty() =~= edges@);
    }
    edges
}

/// Keeps the edges whose reverse occurs nowhere in `edges`: the outline of
/// the triangulation, in source order.
pub fn outline_edges(edges: &Vec<(u32, u32)>) -> (out: Vec<(u32, u32)>)
    ensures
        out@ == outline_of(edges@),
{
    let mut out: Vec<(u32, u32)> = Vec::new();
    let mut i: usize = 0;
    while i < edges.len()
        invariant
            i <= edges@.len(),
            out@ == outline_within(edges@, edges@.take(i as int)),
        decreases edges@.len() - i,
    {
        let e = edges[i];
        let has_rev = contains_edge(edges, e.1, e.0);
        proof {
            reveal(Seq::filter);
            assert(edges@.take(i + 1).drop_last() =~= edges@.take(i as int));
            assert(edges@.take(i + 1).last() == e);
        }
        if !has_rev {
            out.push(e);
        }
        i += 1;
    }
    proof {
        assert(edges@.take(edges@.len() as int) =~= edges@);
    }
    out
}

/// Edge pairs written out flat: `[(a0,b0), (a1,b1), ...]` becomes
/// `[a0, b0, a1, b1, ...]`.
pub open spec fn interleave(pairs: Seq<(u32, u32)>) -> Seq<u32>
    decreases pairs.len(),
{
    if pairs.len() == 0 {
        Seq::empty()
    } else {
        interleave(pairs.drop_last()) + seq![pairs.last().0, pairs.last().1]
    }
}

pub(crate) proof fn lemma_interleave_index(pairs: Seq<(u32, u32)>)
    ensures
        interleave(pairs).len() == 2 * pairs.len(),
        forall|k: int|
            0 <= k < pairs.len() ==> interleave(pairs)[2 * k] == (#[trigger] pairs[k]).0
                && interleave(pairs)[2 * k + 1] == pairs[k].1,
    decreases pairs.len(),
{
    if pairs.len() > 0 {
        lemma_interleave_index(pairs.drop_last());
        assert(forall|k: int|
            0 <= k < pairs.len() - 1 ==> pairs.drop_last()[k] == #[trigger] pairs[k]);
    }
}

/// Flattens an edge-pair list into the `[a0, b0, a1, b1, ...]` form.
pub fn flatten_edges(pairs: &Vec<(u32, u32)>) -> (out: Vec<u32>)
    ensures
        out@ == interleave(pairs@),
{
    let mut out: Vec<u32> = Vec::new();
    let mut i: usize = 0;
    proof {
        assert(pairs@.take(0) =~= Seq::<(u32, u32)>::empty());
    }
    while i < pairs.len()
        invariant
            i <= pairs@.len(),
            out@ == interleave(pairs@.take(i as int)),
        decreases pairs@.len() - i,
    {
        let e = pairs[i];
        proof {
            assert(pairs@.take(i + 1).drop_last() =~= pairs@.take(i as int));
            assert(pairs@.take(i + 1).last() == e);
            assert(out@.push(e.0).push(e.1) =~= interleave(pairs@.take(i as int)) + seq![
                e.0,
                e.1,
            ]);
        }
        out.push(e.0);
        out.push(e.1);
        i += 1;
    }
    proof {
        assert(pairs@.take(pairs@.len() as int) =~= pairs@);
    }
    out
}

/// Extracts the outline of a triangle index list in the flat
/// `[a0, b0, a1, b1, ...]` form: the directed edges of the triangles whose
/// reverse occurs in no triangle, in source order.
pub fn extract_outline(indices: &Vec<u32>) -> (out: Vec<u32>)
    requires
        indices@.len() % 3 == 0,
    ensures
        out@ == interleave(outline_of(tri_edges(indices@))),
        out@.len() == 2 * outline_of(tri_edges(indices@)).len(),
        forall|k: int|
            0 <= k < outline_of(tri_edges(indices@)).len() ==> out@[2 * k] == (
            #[trigger] outline_of(tri_edges(indices@))[k]).0 && out@[2 * k + 1] == outline_of(
                tri_edges(indices@),
            )[k].1,
{
    let edges = triangle_edges(indices);
    let outline = outline_edges(&edges);
    proof {
        lemma_interleave_index(outline@);
    }
    flatten_edges(&outline)
}

/// An interior edge never reaches the outline: if the reverse of `e` occurs
/// anywhere in the edge list, `e` is filtered out.
pub proof fn lemma_interior_edge_absent(all: Seq<(u32, u32)>, e: (u32, u32))
    requires
        all.contains(edge_rev(e)),
    ensures
        !outline_of(all).contains(e),
{
    broadcast use group_filter_ensures;

    if outline_of(all).contains(e) {
        let j = choose|j: int| 0 <= j < outline_of(all).len() && outline_of(all)[j] == e;
        assert(is_boundary(all, outline_of(all)[j]));
    }
}

/// Every element of a filtered sequence occurs in the original.
proof fn lemma_filter_elem_of(s: Seq<(u32, u32)>, pred: spec_fn((u32, u32)) -> bool, j: int)
    requires
        0 <= j < s.filter(pred).len(),
    ensures
        exists|k: int| 0 <= k < s.len() && s[k] == s.filter(pred)[j],
    decreases s.len(),
{
    reveal(Seq::filter);
    if s.len() > 0 {
        let sub = s.drop_last().filter(pred);
        if pred(s.last()) && j == sub.len() {
            assert(s[s.len() - 1] == s.filter(pred)[j]);
        } else {
            lemma_filter_elem_of(s.drop_last(), pred, j);
            let k = choose|k: int|
                0 <= k < s.drop_last().len() && s.drop_last()[k] == s.drop_last().filter(pred)[j];
            assert(s[k] == s.filter(pred)[j]);
        }
    }
}

/// No two positions of `s` hold the same edge.
pub open spec fn distinct_edges(s: Seq<(u32, u32)>) -> bool {
    forall|i: int, j: int| 0 <= i < j < s.len() ==> s[i] != s[j]
}

proof fn lemma_filter_preserves_distinct(s: Seq<(u32, u32)>, pred: spec_fn((u32, u32)) -> bool)
    requires
        distinct_edges(s),
    ensures
        distinct_edges(s.filter(pred)),
    decreases s.len(),
{
    reveal(Seq::filter);
    if s.len() > 0 {
        assert(forall|i: int|
            0 <= i < s.len() - 1 ==> s.drop_last()[i] == #[trigger] s[i]);
        lemma_filter_preserves_distinct(s.drop_last(), pred);
        if pred(s.last()) {
            let sub = s.drop_last().filter(pred);
            assert forall|j: int| 0 <= j < sub.len() implies sub[j] != s.last() by {
                lemma_filter_elem_of(s.drop_last(), pred, j);
            }
        }
    }
}

proof fn lemma_tri_edges_components(s: Seq<u32>)
    ensures
        forall|k: int|
            0 <= k < tri_edges(s).len() ==> s.contains((#[trigger] tri_edges(s)[k]).0)
                && s.contains(tri_edges(s)[k].1),
    decreases s.len(),
{
    if s.len() >= 3 {
        lemma_tri_edges_components(s.skip(3));
        assert forall|k: int| 0 <= k < tri_edges(s).len() implies s.contains(
            (#[trigger] tri_edges(s)[k]).0,
        ) && s.contains(tri_edges(s)[k].1) by {
            let head = seq![(s[0], s[1]), (s[1], s[2]), (s[2], s[0])];
            if k < 3 {
                assert(tri_edges(s)[k] == head[k]);
            } else {
                let rest = s.skip(3);
                assert(tri_edges(s)[k] == tri_edges(rest)[k - 3]);
                assert(rest.contains(tri_edges(rest)[k - 3].0));
                assert(rest.contains(tri_edges(rest)[k - 3].1));
                let i0 = choose|i: int|
                    0 <= i < rest.len() && rest[i] == tri_edges(rest)[k - 3].0;
                assert(s[i0 + 3] == tri_edges(rest)[k - 3].0);
                let i1 = choose|i: int|
                    0 <= i < rest.len() && rest[i] == tri_edges(rest)[k - 3].1;
                assert(s[i1 + 3] == tri_edges(rest)[k - 3].1);
            }
        }
    }
}

/// Every entry of the flat outline occurs in the original triangle index
/// list: the outline names no vertex the triangles do not.
pub proof fn lemma_outline_entries_from_indices(indices: Seq<u32>)
    ensures
        forall|m: int|
            0 <= m < interleave(outline_of(tri_edges(indices))).len() ==> indices.contains(
                #[trigger] interleave(outline_of(tri_edges(indices)))[m],
            ),
{
    let all = tri_edges(indices);
    let outline = outline_of(all);
    let flat = interleave(outline);
    lemma_tri_edges_components(indices);
    lemma_interleave_index(outline);
    assert forall|m: int| 0 <= m < flat.len() implies indices.contains(#[trigger] flat[m]) by {
        let k = m / 2;
        assert(m == 2 * k || m == 2 * k + 1);
        assert(0 <= k < outline.len());
        lemma_filter_elem_of(all, |e: (u32, u32)| is_boundary(all, e), k);
        let i = choose|i: int| 0 <= i < all.len() && all[i] == outline[k];
        assert(indices.contains(all[i].0) && indices.contains(all[i].1));
        if m == 2 * k {
            assert(flat[m] == outline[k].0);
        } else {
            assert(flat[m] == outline[k].1);
        }
    }
}

/// When no directed edge repeats among the triangle edges (as on a
/// two-manifold disc), every outline edge appears at most once.
pub proof fn lemma_outline_no_duplicates(all: Seq<(u32, u32)>)
    requires
        distinct_edges(all),
    ensures
        distinct_edges(outline_of(all)),
{
    lemma_filter_preserves_distinct(all, |e: (u32, u32)| is_boundary(all, e));
}

} // verus!
