use bvh::compact::RfRecord;
use bvh::aabb::Bounds;
use bvh::codec::DecodeError;
use bvh::data::BvhData;
use bvh::geom::{Prim, PrimVertex, Scene};
use bvh::tree::Aabb;

fn cube(scale: i32) -> Scene {
    let mut vertices = Vec::new();
    for i in 0..8 {
        let pos = [(i & 1) * scale, ((i >> 1) & 1) * scale, ((i >> 2) & 1) * scale];
        vertices.push(PrimVertex::new(pos, [0, 0, 0]));
    }
    let faces: [[u32; 3]; 12] = [
        [0, 1, 3], [0, 3, 2],
        [4, 6, 7], [4, 7, 5],
        [0, 4, 5], [0, 5, 1],
        [2, 3, 7], [2, 7, 6],
        [0, 2, 6], [0, 6, 4],
        [1, 5, 7], [1, 7, 3],
    ];
    let prims = faces.iter().map(|f| Prim { indices: *f, material: 0 }).collect();
    Scene::Active { prims, vertices }
}

#[test]
fn unit_cube_root_box() {
    let scene = cube(1000);
    let aabb = Aabb::from_scene(20, &scene);
    assert_eq!(aabb.bounds, Bounds { min: [0, 0, 0], max: [1000, 1000, 1000] });
    let data = BvhData::from_scene(20, &scene);
    assert_eq!(data.uniforms[0].bounds, Bounds { min: [0, 0, 0], max: [1000, 1000, 1000] });
    let mut seen = data.indices.clone();
    seen.sort();
    assert_eq!(seen, (0..12).collect::<Vec<u32>>());
}

#[test]
fn empty_scene_placeholder() {
    let scene = Scene::Active { prims: Vec::new(), vertices: Vec::new() };
    let data = BvhData::from_scene(20, &scene);
    assert_eq!(data.uniforms.len(), 1);
    assert_eq!(data.indices, vec![0]);
    let u = data.uniforms[0];
    assert_eq!((u.fst, u.snd, u.item_idx, u.item_count), (0, 0, 0, 1));
    assert_eq!(u.bounds.min, [i32::MAX; 3]);
    assert_eq!(u.bounds.max, [i32::MIN; 3]);
    let unloaded = BvhData::from_scene(20, &Scene::Unloaded);
    assert_eq!(unloaded.uniforms, data.uniforms);
}

#[test]
fn round_trip_cube() {
    let data = BvhData::from_scene(20, &cube(1000));
    let bytes = data.encode();
    assert_eq!(bytes.len(), 8 + 48 * data.uniforms.len() + 4 * data.indices.len());
    let back = BvhData::decode(&bytes).unwrap();
    assert_eq!(back.uniforms, data.uniforms);
    assert_eq!(back.indices, data.indices);
}

#[test]
fn decode_rejects_bad_length_and_padding() {
    let data = BvhData::from_scene(20, &cube(1000));
    let mut bytes = data.encode();
    bytes.pop();
    assert_eq!(BvhData::decode(&bytes).unwrap_err(), DecodeError::Length);
    let mut bytes = data.encode();
    bytes[8 + 20] = 1;
    assert_eq!(BvhData::decode(&bytes).unwrap_err(), DecodeError::Padding);
}

#[test]
fn leaves_and_internal_nodes_well_formed() {
    let data = BvhData::from_scene(20, &cube(1000));
    let n = data.uniforms.len();
    assert!(n >= 3);
    for (i, u) in data.uniforms.iter().enumerate() {
        if u.item_count > 0 {
            assert_eq!((u.fst, u.snd), (0, 0));
            assert!((u.item_idx + u.item_count) as usize <= data.indices.len());
            assert!(u.item_count <= 2);
        } else {
            assert!(i < u.fst as usize && (u.fst as usize) < n);
            assert!(i < u.snd as usize && (u.snd as usize) < n);
            let b = u.bounds;
            for c in [data.uniforms[u.fst as usize].bounds, data.uniforms[u.snd as usize].bounds] {
                for k in 0..3 {
                    assert!(b.min[k] <= c.min[k] && c.max[k] <= b.max[k]);
                }
            }
        }
    }
}

#[test]
fn bounds_contains_is_inclusive() {
    let b = Bounds { min: [0, 0, 0], max: [10, 10, 10] };
    assert!(b.contains([0, 10, 5]));
    assert!(!b.contains([0, 11, 5]));
    assert!(!b.contains([-1, 0, 0]));
}

#[test]
fn tree_pre_order_layout() {
    let aabb = Aabb::from_scene(20, &cube(1000));
    let data = BvhData::new(&aabb);
    // the root is record 0, its first child comes right after it
    assert_eq!(data.uniforms[0].bounds, aabb.bounds);
    assert_eq!(data.uniforms[0].item_count, 0);
    assert_eq!(data.uniforms[0].fst, 1);
    assert_eq!(data.uniforms[1].bounds, aabb.fst.as_ref().unwrap().bounds);
}

#[test]
fn compact_layout_of_cube() {
    let data = BvhData::from_scene(20, &cube(1000));
    let recs = data.compact().unwrap();
    let leaves = data.uniforms.iter().filter(|u| u.item_count > 0).count();
    assert_eq!(recs.len(), data.uniforms.len() + leaves);
    let mut pos = Vec::new();
    let mut p = 0u32;
    for u in data.uniforms.iter() {
        pos.push(p);
        p += if u.item_count > 0 { 2 } else { 1 };
    }
    for (i, u) in data.uniforms.iter().enumerate() {
        let at = pos[i] as usize;
        if u.item_count > 0 {
            assert_eq!(recs[at], RfRecord::Node { node: i as u32, tag: 1 << 31 });
            let RfRecord::Items { items } = recs[at + 1] else { panic!("items record expected") };
            for k in 0..8 {
                let want = if k < u.item_count as usize {
                    data.indices[u.item_idx as usize + k] as u16
                } else {
                    0
                };
                assert_eq!(items[k], want);
            }
        } else {
            let tag = (pos[u.fst as usize] << 16) | pos[u.snd as usize];
            assert_eq!(recs[at], RfRecord::Node { node: i as u32, tag });
        }
    }
}

#[test]
fn compact_rejects_large_leaves() {
    // nine copies of one triangle cannot be split: one leaf of nine items
    let vertices = vec![
        PrimVertex::new([0, 0, 0], [0, 0, 1]),
        PrimVertex::new([90, 0, 0], [0, 0, 1]),
        PrimVertex::new([0, 90, 0], [0, 0, 1]),
    ];
    let prims = (0..9).map(|_| Prim { indices: [0, 1, 2], material: 0 }).collect();
    let data = BvhData::from_scene(1, &Scene::Active { prims, vertices });
    assert_eq!(data.uniforms.len(), 1);
    assert_eq!(data.uniforms[0].item_count, 9);
    assert!(data.compact().is_none());
}
