use voxel_chunks::displaced_chunks::{ChunkData, DisplacedChunks};
use voxel_chunks::displacement::{displacement_valid, radius_displacement_set, IntVector3};

struct Recorder {
    origin: Option<IntVector3>,
    fills: u32,
}

impl ChunkData for Recorder {
    fn initialize(&mut self, world_chunk_coord: IntVector3) {
        self.origin = Some(world_chunk_coord);
        self.fills += 1;
    }

    fn allocate() -> Self {
        Recorder { origin: None, fills: 0 }
    }
}

fn v(x: i32, y: i32, z: i32) -> IntVector3 {
    IntVector3::new(x, y, z)
}

fn mag2(a: IntVector3, b: IntVector3) -> i64 {
    let d = [(a.x - b.x) as i64, (a.y - b.y) as i64, (a.z - b.z) as i64];
    d[0] * d[0] + d[1] * d[1] + d[2] * d[2]
}

#[test]
fn radius_three_set_size_matches_formula() {
    let mut expected = 0;
    for x in -4i32..4 {
        for y in -4i32..4 {
            for z in -4i32..4 {
                if x * x + y * y + z * z <= 9 {
                    expected += 1;
                }
            }
        }
    }
    let set = radius_displacement_set(v(3, 3, 3));
    assert_eq!(set.len(), expected);
    assert_eq!(set.len(), 123);
}

#[test]
fn displacement_set_is_ellipsoid_without_duplicates() {
    let set = radius_displacement_set(v(15, 5, 15));
    assert_eq!(set.len(), 4631);
    for (i, a) in set.iter().enumerate() {
        assert!(displacement_valid(a.x as i64, a.y as i64, a.z as i64, v(15, 5, 15)));
        for b in set.iter().skip(i + 1) {
            assert_ne!(a, b);
        }
    }
    assert!(set.contains(&v(0, 5, 0)));
    assert!(!set.contains(&v(0, 6, 0)));
    assert!(set.contains(&v(15, 0, 0)));
}

#[test]
fn displacement_validity_on_the_boundary() {
    let r = v(15, 5, 15);
    assert!(displacement_valid(0, 0, 0, r));
    assert!(displacement_valid(9, 0, 12, r));
    assert!(!displacement_valid(9, 1, 12, r));
    assert!(!displacement_valid(16, 0, 0, r));
    assert!(!displacement_valid(-3000, 0, 0, r));
    assert!(displacement_valid(1, 1, 1, v(1, 1, 1)) == false);
    assert!(displacement_valid(1, 0, 0, v(1, 1, 1)));
}

#[test]
fn pool_has_one_slot_per_displacement() {
    let pool: DisplacedChunks<Recorder> = DisplacedChunks::new(v(-121, 0, 412), v(3, 3, 3));
    assert_eq!(pool.len(), radius_displacement_set(v(3, 3, 3)).len());
}

#[test]
fn first_initialization_takes_the_origin() {
    let mut pool: DisplacedChunks<Recorder> = DisplacedChunks::new(v(0, 0, 0), v(3, 3, 3));
    pool.try_initialize();
    let dirty = pool.clean_dirty_chunks();
    assert_eq!(dirty.len(), 1);
    assert_eq!(dirty[0].1.origin, Some(v(0, 0, 0)));
    assert_eq!(dirty[0].1.fills, 1);
}

#[test]
fn first_initialization_is_relative_to_the_anchor() {
    let mut pool: DisplacedChunks<Recorder> = DisplacedChunks::new(v(10, -4, 7), v(2, 1, 2));
    pool.try_initialize();
    let dirty = pool.clean_dirty_chunks();
    assert_eq!(dirty.len(), 1);
    assert_eq!(dirty[0].1.origin, Some(v(10, -4, 7)));
}

#[test]
fn cleaning_twice_returns_nothing_the_second_time() {
    let mut pool: DisplacedChunks<Recorder> = DisplacedChunks::new(v(0, 0, 0), v(3, 3, 3));
    assert_eq!(pool.clean_dirty_chunks().len(), 0);
    pool.try_initialize();
    pool.try_initialize();
    let first: Vec<usize> = pool.clean_dirty_chunks().iter().map(|p| p.0).collect();
    assert_eq!(first.len(), 2);
    assert!(first[0] < first[1]);
    assert_eq!(pool.clean_dirty_chunks().len(), 0);
}

#[test]
fn initialization_visits_every_slot_once_nearest_first() {
    let anchor = v(5, 6, 7);
    let mut pool: DisplacedChunks<Recorder> = DisplacedChunks::new(anchor, v(3, 3, 3));
    let n = pool.len();
    let mut seen: Vec<IntVector3> = Vec::new();
    let mut last = -1i64;
    for _ in 0..n {
        pool.try_initialize();
        let dirty = pool.clean_dirty_chunks();
        assert_eq!(dirty.len(), 1);
        let origin = dirty[0].1.origin.unwrap();
        assert_eq!(dirty[0].1.fills, 1);
        let m = mag2(origin, anchor);
        assert!(m >= last);
        last = m;
        assert!(!seen.contains(&origin));
        seen.push(origin);
    }
    assert_eq!(last, 9);
    pool.try_initialize();
    assert_eq!(pool.clean_dirty_chunks().len(), 0);
}

#[test]
fn index_map_holds_initialized_slots() {
    let mut pool: DisplacedChunks<Recorder> = DisplacedChunks::new(v(0, 0, 0), v(3, 3, 3));
    let empty = pool.get_index_map([7, 7, 7]);
    assert_eq!(empty.len(), 343);
    assert!(empty.iter().all(|&e| e == u16::MAX));
    pool.try_initialize();
    let slot = pool.clean_dirty_chunks()[0].0;
    let map = pool.get_index_map([7, 7, 7]);
    let centre = 3 + 3 * 7 + 3 * 49;
    assert_eq!(map[centre], slot as u16);
    assert_eq!(map.iter().filter(|&&e| e != u16::MAX).count(), 1);
}

#[test]
fn relocation_recycles_exactly_the_slots_that_left() {
    let mut pool: DisplacedChunks<Recorder> = DisplacedChunks::new(v(0, 0, 0), v(3, 3, 3));
    let n = pool.len();
    for _ in 0..n {
        pool.try_initialize();
    }
    assert_eq!(pool.clean_dirty_chunks().len(), n);
    let before = pool.get_index_map([7, 7, 7]);
    assert_eq!(before.iter().filter(|&&e| e != u16::MAX).count(), 123);

    pool.set_view_partition_coords(v(1, 0, 0));
    let after = pool.get_index_map([7, 7, 7]);
    assert_eq!(after.iter().filter(|&&e| e != u16::MAX).count(), 94);
    // A slot that stayed keeps its index: the chunk at relative x + 1 before
    // is at relative x now.
    for z in 0..7usize {
        for y in 0..7usize {
            for x in 0..6usize {
                let now = after[x + y * 7 + z * 49];
                if now != u16::MAX {
                    assert_eq!(before[(x + 1) + y * 7 + z * 49], now);
                }
            }
        }
    }
    // The recycled slots are uninitialized: initializing them all again
    // touches exactly 29 slots, each at a displacement no slot held.
    let mut refilled = 0;
    loop {
        pool.try_initialize();
        let dirty = pool.clean_dirty_chunks();
        if dirty.is_empty() {
            break;
        }
        assert_eq!(dirty.len(), 1);
        assert_eq!(dirty[0].1.fills, 2);
        refilled += 1;
    }
    assert_eq!(refilled, 29);
    let full = pool.get_index_map([7, 7, 7]);
    let mut slots: Vec<u16> = full.iter().copied().filter(|&e| e != u16::MAX).collect();
    assert_eq!(slots.len(), 123);
    slots.sort();
    slots.dedup();
    assert_eq!(slots.len(), 123);
}

#[test]
fn relocation_far_away_recycles_everything() {
    let mut pool: DisplacedChunks<Recorder> = DisplacedChunks::new(v(0, 0, 0), v(2, 1, 2));
    let n = pool.len();
    for _ in 0..n {
        pool.try_initialize();
    }
    pool.clean_dirty_chunks();
    pool.set_view_partition_coords(v(100, 100, 100));
    assert!(pool.get_index_map([5, 3, 5]).iter().all(|&e| e == u16::MAX));
    pool.try_initialize();
    let dirty = pool.clean_dirty_chunks();
    assert_eq!(dirty.len(), 1);
    assert_eq!(dirty[0].1.origin, Some(v(100, 100, 100)));
    assert_eq!(pool.len(), n);
}
