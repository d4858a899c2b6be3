use vstd::prelude::*;

verus! {

/// A triangle: three indices into the vertex list, and a material id.
#[derive(Clone, Copy, Debug, PartialEq, Eq)]
pub struct Prim {
    pub indices: [u32; 3],
    pub material: u32,
}

/// A vertex: a grid position and a grid normal.
#[derive(Clone, Copy, Debug, PartialEq, Eq)]
pub struct PrimVertex {
    pub pos: [i32; 3],
    pub normal: [i32; 3],
}

impl PrimVertex {
    pub fn new(pos: [i32; 3], normal: [i32; 3]) -> (r: PrimVertex)
        ensures
            r.pos == pos,
            r.normal == normal,
    {
        PrimVertex { pos, normal }
    }
}

/// Every primitive references vertices that exist.
pub open spec fn prims_valid(prims: Seq<Prim>, vertices: Seq<PrimVertex>) -> bool {
    forall|i: int, k: int|
        0 <= i < prims.len() && 0 <= k < 3 ==> (#[trigger] prims[i].indices[k]) < vertices.len()
}

/// Coordinate `axis` of corner `k` of primitive `p`.
pub open spec fn corner(
    prims: Seq<Prim>,
    vertices: Seq<PrimVertex>,
    p: int,
    k: int,
    axis: int,
) -> int {
    vertices[prims[p].indices[k] as int].pos[axis] as int
}

/// The scene that the hierarchy is built over.
pub enum Scene {
    Unloaded,
    Active { prims: Vec<Prim>, vertices: Vec<PrimVertex> },
}

impl Scene {
    /// Every primitive references existing vertices, and there are few enough
    /// primitives for every record id of the hierarchy to fit 32 bits.
    pub open spec fn valid(&self) -> bool {
        match self {
            Scene::Unloaded => true,
            Scene::Active { prims, vertices } => prims_valid(prims@, vertices@) && prims@.len()
                <= i32::MAX,
        }
    }
}

} // verus!
