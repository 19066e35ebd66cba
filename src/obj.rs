//! Checks on the triangles read from a Wavefront OBJ file.
use vstd::prelude::*;

verus! {

/// Turns the three one-based vertex numbers of a face line into zero-based
/// indices; zero is no vertex number.
pub fn face_indices(values: [u32; 3]) -> (r: Option<[u32; 3]>)
    ensures
        r is None <==> exists|c: int| 0 <= c < 3 && #[trigger] values[c] == 0,
        r matches Some(f) ==> forall|c: int| 0 <= c < 3 ==> #[trigger] f[c] == values[c] - 1,
{
    if values[0] == 0 || values[1] == 0 || values[2] == 0 {
        proof {
            if values[0] == 0 {
                assert(values[0] == 0);
            }
        }
        None
    } else {
        let f: [u32; 3] = [values[0] - 1, values[1] - 1, values[2] - 1];
        proof {
            assert forall|c: int| 0 <= c < 3 implies #[trigger] f[c] == values[c] - 1 by {
                if c == 0 {
                } else if c == 1 {
                } else {
                }
            }
        }
        Some(f)
    }
}

/// Whether every corner of every triangle names one of the `vertex_count`
/// vertices.
pub fn indices_in_range(indices: &Vec<[u32; 3]>, vertex_count: usize) -> (r: bool)
    ensures
        r <==> forall|t: int, c: int|
            0 <= t < indices.len() && 0 <= c < 3 ==> (#[trigger] indices[t][c]) < vertex_count,
{
    let mut t: usize = 0;
    while t < indices.len()
        invariant
            t <= indices.len(),
            forall|s: int, c: int|
                0 <= s < t && 0 <= c < 3 ==> (#[trigger] indices[s][c]) < vertex_count,
        decreases indices.len() - t,
    {
        let triangle = indices[t];
        let highest = if triangle[0] > triangle[1] {
            if triangle[0] > triangle[2] { triangle[0] } else { triangle[2] }
        } else {
            if triangle[1] > triangle[2] { triangle[1] } else { triangle[2] }
        };
        if highest as usize >= vertex_count {
            proof {
                let c: int = if triangle[0] == highest { 0 } else if triangle[1] == highest { 1 } else { 2 };
                assert(indices[t as int][c] >= vertex_count);
            }
            return false;
        }
        proof {
            assert forall|s: int, c: int|
                0 <= s <= t && 0 <= c < 3 implies (#[trigger] indices[s][c]) < vertex_count by {
                if s == t {
                    if c == 0 {
                    } else if c == 1 {
                    } else {
                    }
                }
            }
        }
        t = t + 1;
    }
    true
}

} // verus!
