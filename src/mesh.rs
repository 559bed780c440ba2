use vstd::prelude::*;

verus! {

/// Triangle `t` of the index buffer names three vertices that all exist,
/// for a vertex buffer holding `vertex_count` vertices.
pub open spec fn triple_valid(indices: Seq<u32>, t: int, vertex_count: int) -> bool {
    &&& indices[3 * t] < vertex_count
    &&& indices[3 * t + 1] < vertex_count
    &&& indices[3 * t + 2] < vertex_count
}

/// The valid triples among the first `t` complete triples of `indices`,
/// in index-buffer order.
pub open spec fn kept_triples(indices: Seq<u32>, vertex_count: int, t: int) -> Seq<(u32, u32, u32)>
    decreases t,
{
    if t <= 0 {
        Seq::empty()
    } else {
        let before = kept_triples(indices, vertex_count, t - 1);
        if triple_valid(indices, t - 1, vertex_count) {
            before.push((indices[3 * (t - 1)], indices[3 * (t - 1) + 1], indices[3 * (t - 1) + 2]))
        } else {
            before
        }
    }
}

/// The vertex triples of a mesh, read from a flat position buffer of
/// `position_len` coordinates (three per vertex) and a flat index buffer.
///
/// A trailing incomplete triple is ignored, and so is every triple that names
/// a vertex past the end of the position buffer; the others are kept in order.
pub fn extract_triangles(position_len: usize, indices: &Vec<u32>) -> (r: Vec<(u32, u32, u32)>)
    ensures
        r@ == kept_triples(indices@, position_len as int / 3, indices.len() as int / 3),
{
    let vertex_count: usize = position_len / 3;
    let triples: usize = indices.len() / 3;
    let mut out: Vec<(u32, u32, u32)> = Vec::new();
    let mut t: usize = 0;
    while t < triples
        invariant
            triples == indices.len() / 3,
            vertex_count == position_len / 3,
            t <= triples,
            out@ == kept_triples(indices@, vertex_count as int, t as int),
        decreases triples - t,
    {
        let a = indices[3 * t];
        let b = indices[3 * t + 1];
        let c = indices[3 * t + 2];
        if (a as usize) < vertex_count && (b as usize) < vertex_count && (c as usize) < vertex_count {
            out.push((a, b, c));
        }
        t += 1;
    }
    out
}

} // verus!
