use voxel_chunks::standard_voxel_prefab::{StandardVoxelPrefab, Voxel};
use voxel_chunks::texture_layout::{
    chunk_id_to_chunk_coords, chunk_id_variant_to_id, depth_res, div_ceil, div_ceil_res,
    ChunkIDVariant,
};

#[test]
fn chunk_ids_run_x_then_z_then_y() {
    assert_eq!(chunk_id_to_chunk_coords(0), [0, 0, 0]);
    assert_eq!(chunk_id_to_chunk_coords(31), [31, 0, 0]);
    assert_eq!(chunk_id_to_chunk_coords(32), [0, 0, 1]);
    assert_eq!(chunk_id_to_chunk_coords(1057), [1, 1, 1]);
}

#[test]
fn chunk_id_variants_are_laid_out_in_order() {
    assert_eq!(chunk_id_variant_to_id(ChunkIDVariant::PrefabID(7)), 7);
    assert_eq!(chunk_id_variant_to_id(ChunkIDVariant::LayerID(3)), 2051);
    assert_eq!(chunk_id_variant_to_id(ChunkIDVariant::PartitionID(5)), 2117);
}

#[test]
fn division_rounds_up() {
    assert_eq!(div_ceil(10, 3), 4);
    assert_eq!(div_ceil(9, 3), 3);
    assert_eq!(div_ceil(0, 5), 0);
    assert_eq!(div_ceil_res([1920, 1080], 8), [240, 135]);
}

#[test]
fn depth_texture_adds_rows_for_cone_samples() {
    assert_eq!(depth_res([1920, 1080]), [1920, 1097]);
    assert_eq!(depth_res([8, 8]), [8, 9]);
}

#[test]
fn prefab_paints_voxels_over_an_empty_volume() {
    let voxels = vec![
        Voxel { x: 1, y: 2, z: 3, i: 9 },
        Voxel { x: 31, y: 0, z: 0, i: 4 },
        Voxel { x: 1, y: 2, z: 3, i: 12 },
    ];
    let mut palette = [0u32; 256];
    palette[9] = 0xff00ff;
    let prefab = StandardVoxelPrefab::new([32, 32, 32], &voxels, palette);
    assert_eq!(prefab.palette_volume.get([1, 2, 3]), 12);
    assert_eq!(prefab.palette_volume.get([31, 0, 0]), 4);
    assert_eq!(prefab.palette_volume.get([0, 0, 0]), u16::MAX);
    assert_eq!(prefab.palette[9], 0xff00ff);
    assert_eq!(prefab.dims, [32, 32, 32]);
}
