//! Triangle topology of stroke ribbons.
use vstd::prelude::*;

verus! {

/// Builds triangle meshes for strokes.
pub struct Extruder;

/// The six indices of the two triangles between ribbon points `i` and `i + 1`
/// (vertices `2i`, `2i + 1` on one side, `2i + 2`, `2i + 3` on the next).
pub open spec fn quad_indices(i: int) -> Seq<int> {
    seq![2 * i, 2 * i + 1, 2 * i + 2, 2 * i + 1, 2 * i + 3, 2 * i + 2]
}

impl Extruder {
    /// The index buffer of a ribbon through `n` points, each extruded to a
    /// pair of vertices: two triangles per segment, none for fewer than two points.
    pub fn ribbon_indices(n: usize) -> (r: Vec<u16>)
        requires
            n <= 32768,
        ensures
            r@.len() == if n < 2 { 0 } else { 6 * (n - 1) },
            forall|i: int, k: int| 0 <= i < n - 1 && 0 <= k < 6 ==> r@[6 * i + k] == #[trigger] quad_indices(i)[k],
    {
        let mut indices: Vec<u16> = Vec::new();
        if n < 2 {
            return indices;
        }
        let mut i: usize = 0;
        while i < n - 1
            invariant
                2 <= n <= 32768,
                i <= n - 1,
                indices@.len() == 6 * i,
                forall|p: int, k: int| 0 <= p < i && 0 <= k < 6 ==> indices@[6 * p + k] == #[trigger] quad_indices(p)[k],
            decreases n - 1 - i,
        {
            let base_idx = (i * 2) as u16;
            indices.push(base_idx);
            indices.push(base_idx + 1);
            indices.push(base_idx + 2);
            indices.push(base_idx + 1);
            indices.push(base_idx + 3);
            indices.push(base_idx + 2);
            proof {
                assert forall|p: int, k: int| 0 <= p < i + 1 && 0 <= k < 6 implies indices@[6 * p + k] == #[trigger] quad_indices(p)[k] by {
                    if p == i {
                        assert(6 * p + k == 6 * i + k);
                    }
                }
            }
            i = i + 1;
        }
        indices
    }
}

} // verus!
