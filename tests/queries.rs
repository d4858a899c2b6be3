use bvh::aabb::Bounds;
use bvh::slab::collides;
use bvh::data::BvhData;
use bvh::geom::{Prim, PrimVertex, Scene};
use bvh::codec::DecodeError;
use bvh::handlers::{BasicIntrs, BlankIntrs, BvhConfig, BvhIntrs, LoadError, DEFAULT_EPS};
use bvh::ray::{intrs_tri, Hit, Ray};
use bvh::tree::Aabb;

fn cube(scale: i32) -> Scene {
    let mut vertices = Vec::new();
    for i in 0..8 {
        let pos = [(i & 1) * scale, ((i >> 1) & 1) * scale, ((i >> 2) & 1) * scale];
        vertices.push(PrimVertex::new(pos, [0, 0, 0]));
    }
    let faces: [[u32; 3]; 12] = [
        [0, 1, 3], [0, 3, 2],
        [4, 6, 7], [4, 7, 5],
        [0, 4, 5], [0, 5, 1],
        [2, 3, 7], [2, 7, 6],
        [0, 2, 6], [0, 6, 4],
        [1, 5, 7], [1, 7, 3],
    ];
    let prims = faces.iter().map(|f| Prim { indices: *f, material: 0 }).collect();
    Scene::Active { prims, vertices }
}

fn ray(origin: [i32; 3], dir: [i32; 3]) -> Ray {
    Ray { origin, dir, t_min: 0, t_max: 1_000_000 }
}

fn distance(h: &Hit) -> (i128, i128) {
    (h.num, h.den)
}

// A deterministic soup of small triangles spread over a box.
fn soup(count: u32, seed: u64) -> Scene {
    let mut state = seed;
    let mut next = move |range: i32| -> i32 {
        state = state.wrapping_mul(6364136223846793005).wrapping_add(1442695040888963407);
        ((state >> 33) % (range as u64)) as i32
    };
    let mut vertices = Vec::new();
    let mut prims = Vec::new();
    for i in 0..count {
        let base = [next(2000) - 1000, next(2000) - 1000, next(2000) - 1000];
        for _ in 0..3 {
            let pos = [base[0] + next(200) - 100, base[1] + next(200) - 100, base[2] + next(200) - 100];
            vertices.push(PrimVertex::new(pos, [0, 0, 0]));
        }
        prims.push(Prim { indices: [3 * i, 3 * i + 1, 3 * i + 2], material: 0 });
    }
    Scene::Active { prims, vertices }
}

#[test]
fn cube_top_face_hit() {
    let scene = cube(1000);
    let r = ray([500, 500, 5000], [0, 0, -1]);
    let brute = BasicIntrs::new().intrs(&scene, &r, None).unwrap();
    let tree = BvhIntrs::new(20, &scene).intrs(&scene, &r, None).unwrap();
    // distance 4 in unit-cube terms: 4000 grid units, on the top face (z = 1)
    assert_eq!(brute.num, 4000 * brute.den);
    assert_eq!(brute.prim, 2);
    assert_eq!(brute, tree);
    assert_eq!(distance(&brute), distance(&tree));
}

#[test]
fn excluded_primitive_is_skipped() {
    let scene = cube(1000);
    let r = ray([500, 500, 5000], [0, 0, -1]);
    let brute = BasicIntrs::new().intrs(&scene, &r, Some(2)).unwrap();
    let tree = BvhIntrs::new(20, &scene).intrs(&scene, &r, Some(2)).unwrap();
    assert_eq!(brute.prim, 3);
    assert_eq!(brute.num, 4000 * brute.den);
    assert_eq!(brute, tree);
}

#[test]
fn window_cuts_off_far_hits() {
    let scene = cube(1000);
    let mut r = ray([500, 500, 5000], [0, 0, -1]);
    r.t_max = 3999;
    assert_eq!(BasicIntrs::new().intrs(&scene, &r, None), None);
    assert_eq!(BvhIntrs::new(20, &scene).intrs(&scene, &r, None), None);
    r.t_max = 4000;
    assert!(BasicIntrs::new().intrs(&scene, &r, None).is_some());
    // the window starts past the top face: the bottom face is hit instead
    let mut r = ray([500, 500, 5000], [0, 0, -1]);
    r.t_min = 4001;
    let brute = BasicIntrs::new().intrs(&scene, &r, None).unwrap();
    assert_eq!(brute.num, 5000 * brute.den);
    assert_eq!(BvhIntrs::new(20, &scene).intrs(&scene, &r, None), Some(brute));
}

#[test]
fn ray_missing_everything() {
    let scene = cube(1000);
    let r = ray([5000, 5000, 5000], [0, 0, -1]);
    assert_eq!(BasicIntrs::new().intrs(&scene, &r, None), None);
    assert_eq!(BvhIntrs::new(20, &scene).intrs(&scene, &r, None), None);
}

#[test]
fn blank_strategy_reports_nothing() {
    let scene = cube(1000);
    let r = ray([500, 500, 5000], [0, 0, -1]);
    assert_eq!(BlankIntrs::new().intrs(&scene, &r, None), None);
}

#[test]
fn unloaded_scene_has_no_hits() {
    let r = ray([0, 0, 0], [1, 0, 0]);
    let scene = Scene::Unloaded;
    assert_eq!(BasicIntrs::new().intrs(&scene, &r, None), None);
    let bvh = BvhIntrs::new(20, &scene);
    assert_eq!(bvh.nodes(), 1);
    assert_eq!(bvh.intrs(&scene, &r, None), None);
}

#[test]
fn triangle_test_values() {
    let scene = cube(1000);
    let Scene::Active { prims, vertices } = &scene else { unreachable!() };
    let r = ray([500, 500, 5000], [0, 0, -1]);
    // bottom face, hit at parameter 5000
    let h = intrs_tri(prims, vertices, &r, 0).unwrap();
    assert_eq!(h.prim, 0);
    assert!(h.den > 0);
    assert_eq!(h.num, 5000 * h.den);
    // a side face is parallel to the ray
    assert_eq!(intrs_tri(prims, vertices, &r, 4), None);
    // from inside the cube, looking up
    let up = ray([250, 700, 500], [0, 0, 3]);
    assert_eq!(intrs_tri(prims, vertices, &up, 3), None);
    let h = intrs_tri(prims, vertices, &up, 2).unwrap();
    assert_eq!(h.num * 3, 500 * h.den);
}

#[test]
fn strategies_agree_on_sample_rays() {
    for seed in 1..4u64 {
        let scene = soup(300, seed);
        let bvh = BvhIntrs::new(20, &scene);
        let basic = BasicIntrs::new();
        let mut hits = 0;
        for i in 0..200i32 {
            let origin = [(i * 37) % 2400 - 1200, (i * 91) % 2400 - 1200, -3000];
            let dir = [(i % 7) - 3, (i % 5) - 2, 4 + (i % 3)];
            let r = ray(origin, dir);
            let a = basic.intrs(&scene, &r, None);
            let b = bvh.intrs(&scene, &r, None);
            assert_eq!(a, b);
            if a.is_some() {
                hits += 1;
                let excl = a.unwrap().prim;
                assert_eq!(basic.intrs(&scene, &r, Some(excl)), bvh.intrs(&scene, &r, Some(excl)));
            }
        }
        assert!(hits > 0);
    }
}

#[test]
fn pathological_shared_centroid() {
    // twenty copies of one triangle: every centroid coincides
    let vertices = vec![
        PrimVertex::new([0, 0, 0], [0, 0, 1]),
        PrimVertex::new([90, 0, 0], [0, 0, 1]),
        PrimVertex::new([0, 90, 0], [0, 0, 1]),
    ];
    let prims = (0..20).map(|_| Prim { indices: [0, 1, 2], material: 0 }).collect();
    let scene = Scene::Active { prims, vertices };
    let data = BvhData::from_scene(1, &scene);
    let mut seen = data.indices.clone();
    seen.sort();
    assert_eq!(seen, (0..20).collect::<Vec<u32>>());
    let r = ray([10, 10, 100], [0, 0, -1]);
    let a = BasicIntrs::new().intrs(&scene, &r, None).unwrap();
    assert_eq!(a.prim, 0);
    assert_eq!(BvhIntrs::new(1, &scene).intrs(&scene, &r, None), Some(a));
}

#[test]
fn pathological_degenerate_primitive() {
    let vertices = vec![PrimVertex::new([7, 7, 7], [0, 0, 0])];
    let prims = vec![Prim { indices: [0, 0, 0], material: 0 }];
    let scene = Scene::Active { prims, vertices };
    let aabb = Aabb::from_scene(20, &scene);
    assert!(aabb.fst.is_none() && aabb.snd.is_none());
    assert_eq!(aabb.items, vec![0]);
    assert_eq!(aabb.bounds.min, [7, 7, 7]);
    assert_eq!(aabb.bounds.max, [7, 7, 7]);
    let r = ray([7, 7, 100], [0, 0, -1]);
    assert_eq!(BasicIntrs::new().intrs(&scene, &r, None), None);
}

#[test]
fn slab_test_cases() {
    let b = Bounds { min: [0, 0, 0], max: [10, 10, 10] };
    let r = |origin: [i32; 3], dir: [i32; 3]| Ray { origin, dir, t_min: 0, t_max: 100 };
    // straight through along x
    assert!(collides(&b, &r([-5, 5, 5], [1, 0, 0]), 0));
    // parallel to y, outside the x slab; the grown box takes it in
    assert!(!collides(&b, &r([-5, 5, 5], [0, 1, 0]), 0));
    assert!(collides(&b, &r([-5, 5, 5], [0, 1, 0]), 5));
    // diagonal: the x and y intervals overlap on [10, 15]
    assert!(collides(&b, &r([-5, 20, 5], [1, -1, 0]), 0));
    // diagonal: the intervals [5, 15] and [20, 30] do not meet
    assert!(!collides(&b, &r([-5, 30, 5], [1, -1, 0]), 0));
    // the line meets the box behind the origin too
    assert!(collides(&b, &r([20, 5, 5], [1, 0, 0]), 0));
}

#[test]
fn config_runtime_and_default() {
    let scene = cube(1000);
    let b = BvhIntrs::with_config(BvhConfig::Runtime { eps: 7 }, &scene).ok().unwrap();
    assert_eq!(b.eps, 7);
    let d = BvhIntrs::with_config(BvhConfig::Default, &scene).ok().unwrap();
    assert_eq!(d.eps, DEFAULT_EPS);
    assert_eq!(d.data.uniforms, BvhData::from_scene(DEFAULT_EPS, &scene).uniforms);
}

#[test]
fn config_loads_precomputed_records() {
    let scene = soup(200, 7);
    let bytes = BvhData::from_scene(DEFAULT_EPS, &scene).encode();
    let loaded = BvhIntrs::with_config(BvhConfig::Bytes(bytes), &scene).ok().unwrap();
    let basic = BasicIntrs::new();
    for i in 0..50i32 {
        let r = ray([(i * 53) % 2000 - 1000, (i * 29) % 2000 - 1000, -3000], [i % 3 - 1, i % 5 - 2, 5]);
        assert_eq!(loaded.intrs(&scene, &r, None), basic.intrs(&scene, &r, None));
    }
}

#[test]
fn config_rejects_bad_bytes() {
    let scene = cube(1000);
    let mut bytes = BvhData::from_scene(DEFAULT_EPS, &scene).encode();
    bytes.truncate(10);
    let err = BvhIntrs::with_config(BvhConfig::Bytes(bytes), &scene).err().unwrap();
    assert_eq!(err, LoadError::Decode(DecodeError::Length));
}

#[test]
fn config_rejects_records_of_another_scene() {
    let bytes = BvhData::from_scene(DEFAULT_EPS, &soup(20, 3)).encode();
    let err = BvhIntrs::with_config(BvhConfig::Bytes(bytes), &cube(1000)).err().unwrap();
    assert_eq!(err, LoadError::Mismatch);
}

#[test]
fn check_for_spots_tampering() {
    let scene = cube(1000);
    let Scene::Active { prims, vertices } = &scene else { unreachable!() };
    let data = BvhData::from_scene(DEFAULT_EPS, &scene);
    assert!(data.check_for(prims, vertices));
    // a leaf box that no longer holds its triangles
    let mut shrunk = BvhData { uniforms: data.uniforms.clone(), indices: data.indices.clone() };
    let leaf = shrunk.uniforms.iter().position(|u| u.item_count > 0).unwrap();
    shrunk.uniforms[leaf].bounds.max = shrunk.uniforms[leaf].bounds.min;
    assert!(!shrunk.check_for(prims, vertices));
    // an index past the primitives
    let mut wild = BvhData { uniforms: data.uniforms.clone(), indices: data.indices.clone() };
    wild.indices[0] = 12;
    assert!(!wild.check_for(prims, vertices));
    // a primitive named twice and another not at all
    let mut twice = BvhData { uniforms: data.uniforms.clone(), indices: data.indices.clone() };
    twice.indices[1] = twice.indices[0];
    assert!(!twice.check_for(prims, vertices));
    // a child id pointing back at the root
    let mut cyclic = BvhData { uniforms: data.uniforms.clone(), indices: data.indices.clone() };
    cyclic.uniforms[0].snd = 0;
    assert!(!cyclic.check_for(prims, vertices));
}
