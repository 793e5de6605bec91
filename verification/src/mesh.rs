//! The decidable core of mesh loading.
//!
//! A face record references vertex positions, texture positions and
//! normals by one-based indices into the arrays read so far; loading
//! rejects a record whose index is zero or beyond what has been seen, and
//! otherwise decrements it to the zero-based form the renderer uses.

use vstd::prelude::*;

use crate::error::ErrorKind;

verus! {

/// Resolve one corner of a face record: the three one-based indices must
/// each point into the arrays read so far (`MeshParseFailure` otherwise),
/// and come back decremented to zero-based form.
pub fn resolve_face_vertex(
    pos_index: usize,
    uv_index: usize,
    normal_index: usize,
    vertex_count: usize,
    uv_count: usize,
    normal_count: usize,
) -> (r: Result<(usize, usize, usize), ErrorKind>)
    ensures
        r is Ok <==> (1 <= pos_index <= vertex_count && 1 <= uv_index <= uv_count && 1
            <= normal_index <= normal_count),
        r matches Ok(t) ==> t == (
            (pos_index - 1) as usize,
            (uv_index - 1) as usize,
            (normal_index - 1) as usize,
        ),
        r is Err ==> r == Err::<(usize, usize, usize), ErrorKind>(ErrorKind::MeshParseFailure),
{
    if 1 <= pos_index && pos_index <= vertex_count && 1 <= uv_index && uv_index <= uv_count && 1
        <= normal_index && normal_index <= normal_count {
        Ok((pos_index - 1, uv_index - 1, normal_index - 1))
    } else {
        Err(ErrorKind::MeshParseFailure)
    }
}

} // verus!
