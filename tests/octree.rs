use voxel_chunks::map_3d::Map3D;
use voxel_chunks::octree_texture::{OctreeError, OctreeTexture, NULL_CHILD, OCTUPLE_CAPACITY};

fn pattern(c: [usize; 3]) -> bool {
    (c[0] * 7 + c[1] * 3 + c[2] * 5) % 11 < 3 || (c[0] == c[1] && c[1] == c[2])
}

#[test]
fn empty_tree_has_only_the_root() {
    let tree = OctreeTexture::new(4);
    assert_eq!(tree.total_nodes(), 1);
    assert_eq!(tree.full_slice().len(), 18 * 18 * 18);
    assert!(tree.full_slice().iter().all(|o| o.0 == NULL_CHILD));
    for x in 0..16 {
        assert!(!tree.get([x, 15 - x, x / 2]));
    }
}

#[test]
fn insert_then_get_reproduces_a_volume() {
    for m in 0..6usize {
        let side = 1usize << m;
        let mut tree = OctreeTexture::new(m);
        for z in 0..side {
            for y in 0..side {
                for x in 0..side {
                    if pattern([x, y, z]) {
                        assert_eq!(tree.insert([x, y, z]), Ok(()));
                    }
                }
            }
        }
        for z in 0..side {
            for y in 0..side {
                for x in 0..side {
                    assert_eq!(tree.get([x, y, z]), pattern([x, y, z]));
                }
            }
        }
    }
}

#[test]
fn new_from_map_reproduces_the_map() {
    let mut map = Map3D::new_with_default(8, 255u8);
    map.set_all(&|c: [usize; 3]| if pattern(c) { 1 } else { 255 });
    let tree = OctreeTexture::new_from_map(&map, 3).unwrap();
    for z in 0..8 {
        for y in 0..8 {
            for x in 0..8 {
                assert_eq!(tree.get([x, y, z]), map.get([x, y, z]) != 255);
            }
        }
    }
}

#[test]
fn new_from_map_of_a_smaller_map() {
    let mut map = Map3D::new_with_default(4, 255u8);
    map.set([3, 0, 2], 0);
    let tree = OctreeTexture::new_from_map(&map, 5).unwrap();
    assert!(tree.get([3, 0, 2]));
    assert!(!tree.get([31, 0, 2]));
    assert_eq!(tree.total_nodes(), 4);
}

#[test]
fn node_count_grows_once_per_new_branch() {
    let mut tree = OctreeTexture::new(6);
    assert_eq!(tree.insert([63, 0, 5]), Ok(()));
    assert_eq!(tree.total_nodes(), 5);
    assert_eq!(tree.insert([63, 0, 5]), Ok(()));
    assert_eq!(tree.total_nodes(), 5);
    assert_eq!(tree.insert([62, 1, 4]), Ok(()));
    assert_eq!(tree.total_nodes(), 5);
    assert_eq!(tree.insert([0, 0, 0]), Ok(()));
    assert_eq!(tree.total_nodes(), 9);
    assert!(tree.get([62, 1, 4]));
    assert!(!tree.get([62, 1, 5]));
}

#[test]
fn insert_outside_the_domain_is_refused() {
    let mut tree = OctreeTexture::new(3);
    assert_eq!(tree.insert([8, 0, 0]), Err(OctreeError::OutOfRange));
    assert_eq!(tree.insert([0, 0, 100]), Err(OctreeError::OutOfRange));
    assert_eq!(tree.total_nodes(), 1);
    assert_eq!(tree.insert([7, 7, 7]), Ok(()));
}

#[test]
fn exhausting_the_pool_is_refused() {
    let mut tree = OctreeTexture::new(20);
    let mut refused = None;
    let mut last = tree.total_nodes();
    for k in 0..200usize {
        let c = [(k & 127) << 13, (k * 7919) % (1 << 20), (k * 104729) % (1 << 20)];
        match tree.insert(c) {
            Ok(()) => {
                assert!(tree.get(c));
            }
            Err(e) => {
                refused = Some(e);
                break;
            }
        }
        assert!(tree.total_nodes() >= last);
        last = tree.total_nodes();
        assert!(last <= OCTUPLE_CAPACITY);
    }
    assert_eq!(refused, Some(OctreeError::PoolExhausted));
    assert!(tree.total_nodes() <= OCTUPLE_CAPACITY);
}

#[test]
fn child_index_takes_one_bit_per_axis() {
    assert_eq!(OctreeTexture::infer_child_index([1, 0, 0], 0), 1);
    assert_eq!(OctreeTexture::infer_child_index([0, 1, 0], 0), 2);
    assert_eq!(OctreeTexture::infer_child_index([0, 0, 1], 0), 4);
    assert_eq!(OctreeTexture::infer_child_index([4, 5, 6], 2), 7);
    assert_eq!(OctreeTexture::infer_child_index([4, 5, 6], 1), 4);
    assert_eq!(OctreeTexture::infer_child_index([4, 5, 6], 0), 2);
}

#[test]
fn address_format_has_five_bits_per_axis() {
    assert_eq!(OctreeTexture::u16_format_to_usize_coords(0), [0, 0, 0]);
    assert_eq!(OctreeTexture::u16_format_to_usize_coords(3 | (8 << 5) | (1 << 10)), [3, 8, 1]);
    assert_eq!(OctreeTexture::u16_format_to_usize_coords(u16::MAX), [31, 31, 31]);
}
