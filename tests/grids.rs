use voxel_chunks::byte_grid::ByteGrid;
use voxel_chunks::map_3d::Map3D;

#[test]
fn index_and_coords_are_inverse() {
    for side in 1..6usize {
        let grid: Map3D<u8> = Map3D::new(side);
        for z in 0..side {
            for y in 0..side {
                for x in 0..side {
                    let i = grid.index([x, y, z]);
                    assert_eq!(i, x + y * side + z * side * side);
                    assert_eq!(Map3D::<u8>::coords(i, side), [x, y, z]);
                }
            }
        }
    }
}

#[test]
fn map_new_uses_the_default_value() {
    let grid: Map3D<u16> = Map3D::new(3);
    assert_eq!(grid.length(), 3);
    assert_eq!(grid.full_slice().len(), 27);
    assert!(grid.full_slice().iter().all(|&v| v == 0));
    let grid = Map3D::new_with_default(2, 7u16);
    assert_eq!(grid.full_slice(), &[7u16; 8][..]);
}

#[test]
fn map_set_changes_one_cell() {
    let mut grid = Map3D::new_with_default(4, 0u32);
    grid.set([1, 2, 3], 99);
    assert_eq!(grid.get([1, 2, 3]), 99);
    assert_eq!(grid.full_slice()[1 + 2 * 4 + 3 * 16], 99);
    assert_eq!(grid.full_slice().iter().filter(|&&v| v != 0).count(), 1);
}

#[test]
fn map_set_all_visits_every_coordinate() {
    let mut grid = Map3D::new_with_default(4, 0usize);
    grid.set_all(&|c: [usize; 3]| c[0] * 100 + c[1] * 10 + c[2]);
    for z in 0..4 {
        for y in 0..4 {
            for x in 0..4 {
                assert_eq!(grid.get([x, y, z]), x * 100 + y * 10 + z);
            }
        }
    }
}

#[test]
fn empty_map_has_no_cells() {
    let grid: Map3D<u8> = Map3D::new(0);
    assert_eq!(grid.length(), 0);
    assert!(grid.full_slice().is_empty());
}

#[test]
fn byte_grid_starts_zeroed_and_stores_bytes() {
    let mut grid = ByteGrid::new(3);
    assert_eq!(grid.length(), 3);
    assert!(grid.full_slice().iter().all(|&b| b == 0));
    grid.set([2, 0, 1], 200);
    assert_eq!(grid.get([2, 0, 1]), 200);
    assert_eq!(grid.index([2, 0, 1]), 11);
    assert_eq!(ByteGrid::coords(11, 3), [2, 0, 1]);
    grid.set_all(&|c: [usize; 3]| (c[0] + c[1] + c[2]) as u8);
    assert_eq!(grid.get([2, 2, 2]), 6);
    assert_eq!(grid.full_slice()[0], 0);
}
