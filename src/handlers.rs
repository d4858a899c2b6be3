use vstd::prelude::*;
use vstd::seq_lib::to_multiset_contains;

use crate::codec::{encoding, DecodeError};
use crate::data::{all_indices, AabbUniform, BvhData};
use crate::geom::Scene;
use crate::ray::{is_nearest, lemma_nearest_unique, nearest_of, vertices_in_limit, Hit, Ray};
use crate::traverse::intrs_bvh;

verus! {

/// The primitives `0..n`.
pub open spec fn all_prims(n: nat) -> Set<int> {
    Set::new(|p: int| 0 <= p < n)
}

/// The scene can be queried: it is valid and every vertex lies within the
/// coordinate limit.
pub open spec fn queryable(scene: &Scene) -> bool {
    &&& scene.valid()
    &&& match scene {
        Scene::Active { prims, vertices } => vertices_in_limit(vertices@),
        Scene::Unloaded => true,
    }
}

/// The nearest hit among every primitive of the scene, or `None` for an
/// unloaded scene.
pub open spec fn answers(scene: &Scene, ray: Ray, excl: Option<u32>, r: Option<Hit>) -> bool {
    match scene {
        Scene::Active { prims, vertices } => is_nearest(
            prims@,
            vertices@,
            ray,
            excl,
            all_prims(prims@.len()),
            r,
        ),
        Scene::Unloaded => r is None,
    }
}

/// The brute-force strategy: every primitive is tested, in index order.
pub struct BasicIntrs;

impl BasicIntrs {
    pub fn new() -> (r: BasicIntrs) {
        BasicIntrs
    }

    /// Nearest hit of the ray over the whole scene, skipping `excl`.
    pub fn intrs(&self, scene: &Scene, ray: &Ray, excl: Option<u32>) -> (r: Option<Hit>)
        requires
            queryable(scene),
            ray.in_limit(),
        ensures
            answers(scene, *ray, excl, r),
    {
        match scene {
            Scene::Unloaded => None,
            Scene::Active { prims, vertices } => {
                let n = prims.len();
                let mut all: Vec<u32> = Vec::new();
                let mut i: usize = 0;
                while i < n
                    invariant
                        n == prims@.len(),
                        n <= u32::MAX,
                        i <= n,
                        all@ == all_indices(i as nat),
                    decreases n - i,
                {
                    all.push(i as u32);
                    proof {
                        assert(all@ =~= all_indices((i + 1) as nat));
                    }
                    i = i + 1;
                }
                let r = nearest_of(prims, vertices, ray, excl, all.as_slice(), None, Ghost(Set::empty()));
                proof {
                    let got = Set::<int>::empty().union(
                        Set::new(|p: int| exists|j: int| 0 <= j < all@.len() && all@[j] == p),
                    );
                    assert forall|p: int| #[trigger] all_prims(n as nat).contains(p) implies got.contains(p) by {
                        assert(all@[p] == p);
                    }
                    assert(got =~= all_prims(n as nat));
                }
                r
            },
        }
    }
}

/// The no-op strategy, a baseline for measuring overhead: it reports no hit.
pub struct BlankIntrs;

impl BlankIntrs {
    pub fn new() -> (r: BlankIntrs) {
        BlankIntrs
    }

    pub fn intrs(&self, scene: &Scene, ray: &Ray, excl: Option<u32>) -> (r: Option<Hit>)
        ensures
            r is None,
    {
        None
    }
}

/// The hierarchy strategy: the flattened hierarchy built over the scene,
/// walked with an explicit stack.
pub struct BvhIntrs {
    /// Split granularity and slab-test growth, in grid units.
    pub eps: u32,
    pub data: BvhData,
}

impl BvhIntrs {
    /// The records can answer queries over `scene`: over a non-empty scene
    /// they are well-formed and their indices name exactly its primitives.
    pub open spec fn built_for(&self, scene: &Scene) -> bool {
        match scene {
            Scene::Active { prims, vertices } => prims@.len() > 0 ==> {
                &&& self.data.traversable(prims@, vertices@)
                &&& self.data.item_set() == all_prims(prims@.len())
            },
            Scene::Unloaded => true,
        }
    }

    /// Builds and flattens the hierarchy over the scene.
    pub fn new(eps: u32, scene: &Scene) -> (r: BvhIntrs)
        requires
            scene.valid(),
        ensures
            r.eps == eps,
            r.built_for(scene),
    {
        let data = BvhData::from_scene(eps, scene);
        let r = BvhIntrs { eps, data };
        proof {
            match scene {
                Scene::Active { prims, vertices } => {
                    if prims@.len() > 0 {
                        let n = prims@.len();
                        assert(r.data.item_set() =~= all_prims(n)) by {
                            assert forall|p: int| #[trigger] r.data.item_set().contains(p) implies 0 <= p < n by {
                                let j = choose|j: int| 0 <= j < r.data.indices@.len() && r.data.indices@[j] as int == p;
                                assert(r.data.indices@[j] < n);
                            }
                            assert forall|p: int| 0 <= p < n implies #[trigger] r.data.item_set().contains(p) by {
                                to_multiset_contains(all_indices(n), p as u32);
                                to_multiset_contains(r.data.indices@, p as u32);
                                assert(all_indices(n)[p] == p as u32);
                                assert(r.data.indices@.contains(p as u32));
                                let j = choose|j: int| 0 <= j < r.data.indices@.len() && r.data.indices@[j] == p as u32;
                            }
                        }
                    }
                },
                Scene::Unloaded => {},
            }
        }
        r
    }

    /// Number of records, which bounds the depth of the traversal stack.
    pub fn nodes(&self) -> (r: usize)
        ensures
            r == self.data.uniforms@.len(),
    {
        self.data.uniforms.len()
    }

    /// Nearest hit of the ray over the whole scene, skipping `excl`.
    pub fn intrs(&self, scene: &Scene, ray: &Ray, excl: Option<u32>) -> (r: Option<Hit>)
        requires
            queryable(scene),
            ray.in_limit(),
            self.built_for(scene),
        ensures
            answers(scene, *ray, excl, r),
    {
        match scene {
            Scene::Unloaded => None,
            Scene::Active { prims, vertices } => {
                if prims.len() == 0 {
                    return None;
                }
                intrs_bvh(&self.data, prims, vertices, ray, excl, self.eps)
            },
        }
    }
}

/// Split granularity and slab-test growth used when none is configured, in
/// grid units.
pub const DEFAULT_EPS: u32 = 20;

/// How the hierarchy strategy gets its records.
pub enum BvhConfig {
    /// Records encoded by `BvhData::encode`, loaded instead of built.
    Bytes(Vec<u8>),
    /// Built over the scene with this granularity.
    Runtime { eps: u32 },
    /// Built over the scene with `DEFAULT_EPS`.
    Default,
}

/// Why loaded records cannot serve a scene.
#[derive(Clone, Copy, Debug, PartialEq, Eq)]
pub enum LoadError {
    /// The bytes are not an encoding of records.
    Decode(DecodeError),
    /// The records decode, but cannot be walked over the scene's primitives or
    /// do not name exactly those primitives.
    Mismatch,
}

impl BvhIntrs {
    /// The strategy for `scene` as configured: built over it, or loaded from
    /// bytes and checked against it (with `DEFAULT_EPS` for the slab test).
    pub fn with_config(config: BvhConfig, scene: &Scene) -> (r: Result<BvhIntrs, LoadError>)
        requires
            scene.valid(),
        ensures
            r matches Ok(b) ==> b.built_for(scene),
            match config {
                BvhConfig::Runtime { eps } => r matches Ok(b) && b.eps == eps,
                BvhConfig::Default => r matches Ok(b) && b.eps == DEFAULT_EPS,
                BvhConfig::Bytes(bytes) => match r {
                    Ok(b) => {
                        &&& b.eps == DEFAULT_EPS
                        &&& encoding(b.data.uniforms@, b.data.indices@) == bytes@
                    },
                    Err(LoadError::Decode(_)) => forall|us: Seq<AabbUniform>, is: Seq<u32>|
                        us.len() <= u32::MAX && is.len() <= u32::MAX ==> #[trigger] encoding(us, is)
                            != bytes@,
                    Err(LoadError::Mismatch) => match scene {
                        Scene::Active { prims, vertices } => prims@.len() > 0 && exists|d: BvhData|
                            encoding(d.uniforms@, d.indices@) == bytes@ && !(#[trigger] d.traversable(
                                prims@,
                                vertices@,
                            ) && d.item_set() == all_prims(prims@.len())),
                        Scene::Unloaded => false,
                    },
                },
            },
    {
        match config {
            BvhConfig::Runtime { eps } => Ok(BvhIntrs::new(eps, scene)),
            BvhConfig::Default => Ok(BvhIntrs::new(DEFAULT_EPS, scene)),
            BvhConfig::Bytes(bytes) => {
                let data = match BvhData::decode(&bytes) {
                    Ok(d) => d,
                    Err(e) => {
                        return Err(LoadError::Decode(e));
                    },
                };
                match scene {
                    Scene::Active { prims, vertices } => {
                        if prims.len() > 0 && !data.check_for(prims, vertices) {
                            proof {
                                assert(encoding(data.uniforms@, data.indices@) == bytes@);
                                assert(!(data.traversable(prims@, vertices@) && data.item_set() == all_prims(
                                    prims@.len(),
                                )));
                            }
                            return Err(LoadError::Mismatch);
                        }
                    },
                    Scene::Unloaded => {},
                }
                Ok(BvhIntrs { eps: DEFAULT_EPS, data })
            },
        }
    }
}

/// The brute-force and hierarchy strategies agree: both report the nearest
/// hit over the scene's primitives, and that hit is unique, so on every ray
/// they report the same primitive at the same distance (or both no hit).
pub proof fn lemma_strategies_agree(
    scene: &Scene,
    ray: Ray,
    excl: Option<u32>,
    brute: Option<Hit>,
    tree: Option<Hit>,
)
    requires
        queryable(scene),
        answers(scene, ray, excl, brute),
        answers(scene, ray, excl, tree),
    ensures
        brute == tree,
{
    match scene {
        Scene::Active { prims, vertices } => {
            lemma_nearest_unique(
                prims@,
                vertices@,
                ray,
                excl,
                all_prims(prims@.len()),
                brute,
                tree,
            );
        },
        Scene::Unloaded => {},
    }
}

} // verus!
