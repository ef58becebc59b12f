use vstd::prelude::*;

verus! {

/// The corners of triangle `k` of a mesh, as positions in its vertex list:
/// read from the index list three at a time, or, for a mesh without
/// indices, vertices `3k`, `3k + 1` and `3k + 2`.
pub open spec fn mesh_triangle(indices: Option<Seq<u32>>, k: int) -> [usize; 3] {
    match indices {
        Some(idx) => [idx[3 * k] as usize, idx[3 * k + 1] as usize, idx[3 * k + 2] as usize],
        None => [(3 * k) as usize, (3 * k + 1) as usize, (3 * k + 2) as usize],
    }
}

/// The triangles of a mesh of `vertex_count` vertices, by the positions of
/// their corners in the vertex list. Indices are read three at a time; a
/// partial group at the end is ignored, and so are trailing vertices of a
/// mesh without indices.
pub fn mesh_triangles(indices: Option<&[u32]>, vertex_count: usize) -> (r: Vec<[usize; 3]>)
    requires
        indices matches Some(idx) ==> forall|i: int| 0 <= i < idx@.len() / 3 * 3 ==> idx@[i] < vertex_count,
    ensures
        r@.len() == match indices {
            Some(idx) => idx@.len() / 3,
            None => (vertex_count / 3) as nat,
        },
        forall|k: int|
            0 <= k < r@.len() ==> (#[trigger] r@[k])@ == mesh_triangle(
                match indices {
                    Some(idx) => Some(idx@),
                    None => None,
                },
                k,
            )@,
        forall|k: int, c: int| 0 <= k < r@.len() && 0 <= c < 3 ==> (#[trigger] r@[k][c]) < vertex_count,
{
    let mut r: Vec<[usize; 3]> = Vec::new();
    match indices {
        Some(idx) => {
            let len: usize = idx.len();
            let n = len / 3;
            let mut k: usize = 0;
            while k < n
                invariant
                    0 <= k <= n,
                    len == idx@.len(),
                    n == idx@.len() / 3,
                    r@.len() == k,
                    forall|i: int| 0 <= i < idx@.len() / 3 * 3 ==> idx@[i] < vertex_count,
                    forall|j: int| 0 <= j < k ==> (#[trigger] r@[j])@ == mesh_triangle(Some(idx@), j)@,
                    forall|j: int, c: int| 0 <= j < k && 0 <= c < 3 ==> (#[trigger] r@[j][c]) < vertex_count,
                decreases n - k,
            {
                assert(3 * k + 3 <= idx@.len() / 3 * 3 && idx@.len() / 3 * 3 <= idx@.len()) by (nonlinear_arith)
                    requires
                        k < idx@.len() / 3,
                ;
                let t = [idx[3 * k] as usize, idx[3 * k + 1] as usize, idx[3 * k + 2] as usize];
                r.push(t);
                k += 1;
            }
        },
        None => {
            let n = vertex_count / 3;
            let mut k: usize = 0;
            while k < n
                invariant
                    0 <= k <= n,
                    n == vertex_count / 3,
                    r@.len() == k,
                    forall|j: int| 0 <= j < k ==> (#[trigger] r@[j])@ == mesh_triangle(None, j)@,
                    forall|j: int, c: int| 0 <= j < k && 0 <= c < 3 ==> (#[trigger] r@[j][c]) < vertex_count,
                decreases n - k,
            {
                assert(3 * k + 3 <= vertex_count) by (nonlinear_arith)
                    requires
                        k < vertex_count / 3,
                ;
                let t = [3 * k, 3 * k + 1, 3 * k + 2];
                r.push(t);
                k += 1;
            }
        },
    }
    r
}

} // verus!
