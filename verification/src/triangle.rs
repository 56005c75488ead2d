//! A triangle of the mesh.

use vstd::prelude::*;
use crate::mesh::PosIn2DArr;

verus! {

/// Three corners, each the place of a point in the grid of the mesh.
pub struct Triangle {
    /// Array of indexes inside list of point in `Mesh`
    vertices: [PosIn2DArr; 3],
}

impl View for Triangle {
    type V = Seq<PosIn2DArr>;

    closed spec fn view(&self) -> Seq<PosIn2DArr> {
        self.vertices@
    }
}

impl Triangle {
    pub fn new(vertices: [PosIn2DArr; 3]) -> (r: Self)
        ensures
            r@ == vertices@,
            r@.len() == 3,
    {
        Self { vertices }
    }

    pub fn vertices(&self) -> (r: &[PosIn2DArr])
        ensures
            r@ == self@,
            r@.len() == 3,
    {
        self.vertices.as_slice()
    }

    /// The three corners are three different places.
    pub open spec fn distinct(&self) -> bool {
        self@[0] != self@[1] && self@[0] != self@[2] && self@[1] != self@[2]
    }

    /// Every corner lies in a grid of `rows` rows and `cols` columns.
    pub open spec fn in_grid(&self, rows: int, cols: int) -> bool {
        forall|k: int| 0 <= k < 3 ==> (#[trigger] self@[k]).row < rows && self@[k].col < cols
    }
}

} // verus!
