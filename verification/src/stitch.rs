//! Triangle index generation for the swept tube.
//!
//! The swept mesh instances the cross-section once per path point, giving one
//! ring of `v` vertices per point; ring `i` starts at vertex slot `i * v`.
//! Between each pair of adjacent rings, every outline edge `(a, b)` of the
//! cross-section spans a quad, split into the two triangles
//! `(a', a, b)` and `(b, b', a')` (primed indices on the farther ring).
//! Cap slots are reserved at the end of the buffer but left zero, and the
//! whole buffer is finally reversed, which flips the winding of every
//! triangle at once so that front faces point outward.

use vstd::prelude::*;

verus! {

/// The six indices that stitch outline edge `(a, b)` across one segment,
/// for rings starting at vertex slot `off` and `off + v`.
pub open spec fn quad(v: int, off: int, a: u32, b: u32) -> Seq<u32> {
    seq![
        (off + a as int + v) as u32,
        (off + a as int) as u32,
        (off + b as int) as u32,
        (off + b as int) as u32,
        (off + b as int + v) as u32,
        (off + a as int + v) as u32,
    ]
}

/// The indices stitching every outline edge of `edges` (flat `[a0, b0, ...]`
/// pairs) across the segment whose near ring starts at slot `off`.
pub open spec fn ring_quads(v: int, off: int, edges: Seq<u32>) -> Seq<u32>
    decreases edges.len(),
{
    if edges.len() < 2 {
        Seq::empty()
    } else {
        quad(v, off, edges[0], edges[1]) + ring_quads(v, off, edges.skip(2))
    }
}

/// The populated part of the index buffer: segments `0 .. segs` stitched in
/// order, segment `i` joining rings `i` and `i + 1`.
pub open spec fn stitched(v: int, edges: Seq<u32>, segs: int) -> Seq<u32>
    decreases segs,
{
    if segs <= 0 {
        Seq::empty()
    } else {
        stitched(v, edges, segs - 1) + ring_quads(v, (segs - 1) * v, edges)
    }
}

/// `n` reserved index slots, all zero.
pub open spec fn zero_slots(n: int) -> Seq<u32> {
    Seq::new(if n >= 0 { n as nat } else { 0 }, |k: int| 0u32)
}

/// The index buffer before the final reversal: the stitched quads of all
/// segments, then `2 * face_count` reserved cap triangles left zero.
pub open spec fn raw_index_buffer(v: int, edges: Seq<u32>, segs: int, face_count: int) -> Seq<u32> {
    stitched(v, edges, segs) + zero_slots(6 * face_count)
}

/// One segment's stitching emits three index slots per flat edge entry
/// (six per edge pair).
pub proof fn lemma_ring_quads_len(v: int, off: int, edges: Seq<u32>)
    requires
        edges.len() % 2 == 0,
    ensures
        ring_quads(v, off, edges).len() == 3 * edges.len(),
    decreases edges.len(),
{
    if edges.len() >= 2 {
        assert(edges.skip(2).len() % 2 == 0);
        lemma_ring_quads_len(v, off, edges.skip(2));
    }
}

/// The populated part of the buffer holds `3 * edges.len() * segs` slots:
/// six per outline edge and segment.
pub proof fn lemma_stitched_len(v: int, edges: Seq<u32>, segs: int)
    requires
        edges.len() % 2 == 0,
        segs >= 0,
    ensures
        stitched(v, edges, segs).len() == 3 * edges.len() * segs,
    decreases segs,
{
    let el = edges.len() as int;
    if segs > 0 {
        lemma_stitched_len(v, edges, segs - 1);
        lemma_ring_quads_len(v, (segs - 1) * v, edges);
        assert(stitched(v, edges, segs).len() == 3 * el * (segs - 1) + 3 * el);
        assert(3 * el * (segs - 1) + 3 * el == 3 * el * segs) by (nonlinear_arith);
    } else {
        assert(3 * el * segs == 0) by (nonlinear_arith)
            requires
                segs == 0,
        ;
    }
}

proof fn lemma_ring_quads_in_range(v: int, off: int, edges: Seq<u32>)
    requires
        0 <= v,
        0 <= off,
        off + 2 * v <= u32::MAX + 1,
        edges.len() % 2 == 0,
        forall|k: int| 0 <= k < edges.len() ==> (#[trigger] edges[k]) < v,
    ensures
        forall|k: int|
            0 <= k < ring_quads(v, off, edges).len() ==> (#[trigger] ring_quads(v, off, edges)[k])
                < off + 2 * v,
    decreases edges.len(),
{
    if edges.len() >= 2 {
        assert(forall|k: int| 0 <= k < edges.skip(2).len() ==> (#[trigger] edges.skip(2)[k]) < v);
        lemma_ring_quads_in_range(v, off, edges.skip(2));
        let q = quad(v, off, edges[0], edges[1]);
        let rest = ring_quads(v, off, edges.skip(2));
        assert forall|k: int| 0 <= k < ring_quads(v, off, edges).len() implies (
        #[trigger] ring_quads(v, off, edges)[k]) < off + 2 * v by {
            if k < q.len() {
                assert(ring_quads(v, off, edges)[k] == q[k]);
            } else {
                assert(ring_quads(v, off, edges)[k] == rest[k - q.len()]);
            }
        }
    }
}

/// Every populated index slot names a real swept vertex: with `segs`
/// segments there are `segs + 1` rings of `v` vertices, and each stitched
/// index is below `(segs + 1) * v`.
pub proof fn lemma_stitched_in_range(v: int, edges: Seq<u32>, segs: int)
    requires
        0 <= v,
        0 <= segs,
        (segs + 1) * v <= u32::MAX + 1,
        edges.len() % 2 == 0,
        forall|k: int| 0 <= k < edges.len() ==> (#[trigger] edges[k]) < v,
    ensures
        forall|k: int|
            0 <= k < stitched(v, edges, segs).len() ==> (#[trigger] stitched(v, edges, segs)[k]) < (
            segs + 1) * v,
    decreases segs,
{
    if segs > 0 {
        assert(segs * v <= (segs + 1) * v && 0 <= (segs - 1) * v && (segs - 1) * v + 2 * v == (segs
            + 1) * v) by (nonlinear_arith)
            requires
                0 <= v,
                0 < segs,
        ;
        lemma_stitched_in_range(v, edges, segs - 1);
        lemma_ring_quads_in_range(v, (segs - 1) * v, edges);
        assert forall|k: int| 0 <= k < stitched(v, edges, segs).len() implies (#[trigger] stitched(
            v,
            edges,
            segs,
        )[k]) < (segs + 1) * v by {
            let pre = stitched(v, edges, segs - 1);
            let ring = ring_quads(v, (segs - 1) * v, edges);
            if k < pre.len() {
                assert(stitched(v, edges, segs)[k] == pre[k]);
                assert(segs * v <= (segs + 1) * v) by (nonlinear_arith)
                    requires
                        0 <= v,
                        0 < segs,
                ;
            } else {
                assert(stitched(v, edges, segs)[k] == ring[k - pre.len()]);
            }
        }
    }
}

/// Returns `buf` with its elements in reverse order.
pub fn reversed(buf: &Vec<u32>) -> (out: Vec<u32>)
    ensures
        out@ == buf@.reverse(),
{
    let mut out: Vec<u32> = Vec::new();
    let mut k: usize = buf.len();
    while k > 0
        invariant
            k <= buf@.len(),
            out@.len() == buf@.len() - k,
            forall|m: int| 0 <= m < out@.len() ==> out@[m] == buf@[buf@.len() - 1 - m],
        decreases k,
    {
        k -= 1;
        out.push(buf[k]);
    }
    proof {
        assert(out@ =~= buf@.reverse());
    }
    out
}

/// Builds the complete index buffer for sweeping a cross-section with
/// `shape_vertex_count` vertices and outline `edges` (flat `[a0, b0, ...]`
/// pairs) along a path of `path_len` points: every segment's quads in order,
/// then `2 * face_index_count` zeroed cap triangles, the whole buffer
/// reversed end to end.
pub fn build_extrusion_indices(
    shape_vertex_count: usize,
    edges: &Vec<u32>,
    face_index_count: usize,
    path_len: usize,
) -> (out: Vec<u32>)
    requires
        path_len >= 2,
        edges@.len() % 2 == 0,
        forall|k: int| 0 <= k < edges@.len() ==> (#[trigger] edges@[k]) < shape_vertex_count,
        path_len * shape_vertex_count <= u32::MAX,
    ensures
        out@ == raw_index_buffer(
            shape_vertex_count as int,
            edges@,
            path_len - 1,
            face_index_count as int,
        ).reverse(),
        out@.len() == 3 * (edges@.len() * (path_len - 1) + 2 * face_index_count),
{
    let v = shape_vertex_count;
    let segments = path_len - 1;
    let mut buf: Vec<u32> = Vec::new();
    let mut i: usize = 0;
    proof {
        assert(buf@ =~= stitched(v as int, edges@, 0));
    }
    while i < segments
        invariant
            v == shape_vertex_count,
            segments == path_len - 1,
            path_len >= 2,
            edges@.len() % 2 == 0,
            forall|k: int| 0 <= k < edges@.len() ==> (#[trigger] edges@[k]) < v,
            path_len * v <= u32::MAX,
            i <= segments,
            buf@ == stitched(v as int, edges@, i as int),
        decreases segments - i,
    {
        proof {
            assert(i * v + v <= path_len * v && 0 <= i * v) by (nonlinear_arith)
                requires
                    i + 1 <= path_len,
                    0 <= i,
                    0 <= v,
            ;
        }
        let off = i * v;
        let mut j: usize = 0;
        proof {
            assert(edges@.skip(0) =~= edges@);
            assert(stitched(v as int, edges@, i + 1) == buf@ + ring_quads(
                v as int,
                off as int,
                edges@.skip(0),
            ));
        }
        while j < edges.len()
            invariant
                v == shape_vertex_count,
                path_len >= 2,
                edges@.len() % 2 == 0,
                forall|k: int| 0 <= k < edges@.len() ==> (#[trigger] edges@[k]) < v,
                path_len * v <= u32::MAX,
                i < path_len - 1,
                off == i * v,
                j <= edges@.len(),
                j % 2 == 0,
                stitched(v as int, edges@, i + 1) == buf@ + ring_quads(
                    v as int,
                    off as int,
                    edges@.skip(j as int),
                ),
            decreases edges@.len() - j,
        {
            assert(j + 2 <= edges@.len());
            let ea = edges[j];
            let eb = edges[j + 1];
            proof {
                assert(off + v + v <= path_len * v) by (nonlinear_arith)
                    requires
                        off == i * v,
                        i + 2 <= path_len,
                        0 <= i,
                        0 <= v,
                ;
            }
            let slot_a = (off + ea as usize + v) as u32;
            let slot_b = (off + ea as usize) as u32;
            let slot_c = (off + eb as usize) as u32;
            let slot_d = (off + eb as usize + v) as u32;
            proof {
                let rest = edges@.skip(j as int);
                assert(rest[0] == ea && rest[1] == eb);
                assert(rest.skip(2) =~= edges@.skip(j + 2));
                assert(ring_quads(v as int, off as int, rest) == quad(
                    v as int,
                    off as int,
                    ea,
                    eb,
                ) + ring_quads(v as int, off as int, edges@.skip(j + 2)));
                assert(buf@.push(slot_a).push(slot_b).push(slot_c).push(slot_c).push(slot_d).push(
                    slot_a,
                ) =~= buf@ + quad(v as int, off as int, ea, eb));
                assert((buf@ + quad(v as int, off as int, ea, eb)) + ring_quads(
                    v as int,
                    off as int,
                    edges@.skip(j + 2),
                ) =~= buf@ + ring_quads(v as int, off as int, edges@.skip(j as int)));
            }
            buf.push(slot_a);
            buf.push(slot_b);
            buf.push(slot_c);
            buf.push(slot_c);
            buf.push(slot_d);
            buf.push(slot_a);
            j += 2;
        }
        proof {
            assert(edges@.skip(edges@.len() as int) =~= Seq::<u32>::empty());
            assert(buf@ + ring_quads(v as int, off as int, Seq::<u32>::empty()) =~= buf@);
        }
        i += 1;
    }
    let mut c: usize = 0;
    proof {
        assert(buf@ + zero_slots(0) =~= buf@);
    }
    while c < face_index_count
        invariant
            c <= face_index_count,
            buf@ == stitched(shape_vertex_count as int, edges@, path_len - 1) + zero_slots(6 * c),
        decreases face_index_count - c,
    {
        proof {
            assert(buf@.push(0u32).push(0u32).push(0u32).push(0u32).push(0u32).push(0u32)
                =~= stitched(shape_vertex_count as int, edges@, path_len - 1) + zero_slots(
                6 * (c + 1),
            ));
        }
        buf.push(0);
        buf.push(0);
        buf.push(0);
        buf.push(0);
        buf.push(0);
        buf.push(0);
        c += 1;
    }
    proof {
        lemma_stitched_len(shape_vertex_count as int, edges@, path_len - 1);
        assert(3 * edges@.len() * (path_len - 1) == 3 * (edges@.len() * (path_len - 1)))
            by (nonlinear_arith);
    }
    reversed(&buf)
}

/// Layout of the finished buffer: after the reversal the `6 * face_count`
/// reserved cap slots lead, all zero, and the `3 * edges.len() * segs`
/// populated slots follow, holding the stitched quads back to front.
pub proof fn lemma_reversed_buffer_layout(v: int, edges: Seq<u32>, segs: int, face_count: int)
    requires
        edges.len() % 2 == 0,
        segs >= 0,
        face_count >= 0,
    ensures
        raw_index_buffer(v, edges, segs, face_count).reverse().len() == 3 * edges.len() * segs + 6
            * face_count,
        forall|k: int|
            0 <= k < 6 * face_count ==> #[trigger] raw_index_buffer(
                v,
                edges,
                segs,
                face_count,
            ).reverse()[k] == 0,
        forall|k: int|
            6 * face_count <= k < 3 * edges.len() * segs + 6 * face_count
                ==> #[trigger] raw_index_buffer(v, edges, segs, face_count).reverse()[k]
                == stitched(v, edges, segs)[3 * edges.len() * segs + 6 * face_count - 1 - k],
{
    lemma_stitched_len(v, edges, segs);
    let raw = raw_index_buffer(v, edges, segs, face_count);
    let n = 3 * edges.len() * segs;
    assert forall|k: int| 0 <= k < 6 * face_count implies #[trigger] raw.reverse()[k] == 0 by {
        assert(raw.reverse()[k] == raw[raw.len() - 1 - k]);
        assert(raw[raw.len() - 1 - k] == zero_slots(6 * face_count)[raw.len() - 1 - k - n]);
    }
    assert forall|k: int| 6 * face_count <= k < n + 6 * face_count implies #[trigger] raw.reverse()[k]
        == stitched(v, edges, segs)[n + 6 * face_count - 1 - k] by {
        assert(raw.reverse()[k] == raw[raw.len() - 1 - k]);
        assert(raw[raw.len() - 1 - k] == stitched(v, edges, segs)[raw.len() - 1 - k]);
    }
}

/// Reversing a triangle-list index buffer maps triangle `t` to triangle
/// `len / 3 - 1 - t` with its three vertices in reverse order, so the
/// winding of every face is flipped uniformly.
pub proof fn lemma_reversal_flips_winding(s: Seq<u32>, t: int)
    requires
        s.len() % 3 == 0,
        0 <= t,
        3 * t < s.len(),
    ensures
        s.reverse().len() == s.len(),
        s.reverse()[3 * t] == s[3 * (s.len() / 3 - 1 - t) + 2],
        s.reverse()[3 * t + 1] == s[3 * (s.len() / 3 - 1 - t) + 1],
        s.reverse()[3 * t + 2] == s[3 * (s.len() / 3 - 1 - t)],
{
    assert(s.len() == 3 * (s.len() / 3));
}

} // verus!
