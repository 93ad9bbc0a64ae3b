//! Where chunks live in texture memory, and the arithmetic of render sizes.
use vstd::prelude::*;

verus! {

/// Number of chunk ids reserved for prefabs.
pub const MAX_PREFAB_IDS: u32 = 2048;

/// Number of chunk ids reserved for layers, after the prefabs.
pub const MAX_LAYER_IDS: u32 = 64;

/// Side, in pixels, of the square of screen that one cone-trace sample covers.
pub const CONE_DEPTH_SCALE: u32 = 8;

/// A unique id for a chunk in texture memory, by kind.
#[derive(Clone, Copy, Debug, PartialEq, Eq, Structural)]
pub enum ChunkIDVariant {
    PrefabID(u32),
    PartitionID(u32),
    LayerID(u32),
}

/// The flat id of a chunk: prefabs first, then layers, then partitions.
pub open spec fn variant_id(v: ChunkIDVariant) -> int {
    match v {
        ChunkIDVariant::PrefabID(id) => id as int,
        ChunkIDVariant::PartitionID(id) => id + MAX_PREFAB_IDS + MAX_LAYER_IDS,
        ChunkIDVariant::LayerID(id) => id + MAX_PREFAB_IDS,
    }
}

/// `ceil(val / divisor)`.
pub open spec fn ceil_div(val: int, divisor: int) -> int {
    (val + divisor - 1) / divisor
}

/// Position of a chunk id in the chunk grid of the texture: the id runs along
/// the first axis, then the third, then the second.
pub fn chunk_id_to_chunk_coords(chunk_id: u32) -> (r: [u32; 3])
    ensures
        r[0] == chunk_id % 32,
        r[1] == chunk_id / 1024,
        r[2] == (chunk_id / 32) % 32,
{
    [chunk_id % 32, chunk_id / (32 * 32), (chunk_id / 32) % 32]
}

/// The flat id of a chunk id variant.
pub fn chunk_id_variant_to_id(chunk_id_variant: ChunkIDVariant) -> (r: u32)
    requires
        variant_id(chunk_id_variant) <= u32::MAX,
    ensures
        r == variant_id(chunk_id_variant),
{
    match chunk_id_variant {
        ChunkIDVariant::PrefabID(id) => id,
        ChunkIDVariant::PartitionID(id) => id + MAX_PREFAB_IDS + MAX_LAYER_IDS,
        ChunkIDVariant::LayerID(id) => id + MAX_PREFAB_IDS,
    }
}

/// `val / divisor`, rounded up.
pub fn div_ceil(val: u32, divisor: u32) -> (r: u32)
    requires
        divisor > 0,
        val + divisor - 1 <= u32::MAX,
    ensures
        r == ceil_div(val as int, divisor as int),
        r * divisor >= val,
        r * divisor < val + divisor,
{
    let r = (val + (divisor - 1)) / divisor;
    assert(r * divisor >= val && r * divisor < val + divisor) by (nonlinear_arith)
        requires
            divisor > 0,
            r == (val + divisor - 1) as int / divisor as int,
    ;
    r
}

/// Both components of a resolution divided by `divisor`, rounded up.
pub fn div_ceil_res(val: [u32; 2], divisor: u32) -> (r: [u32; 2])
    requires
        divisor > 0,
        val[0] + divisor - 1 <= u32::MAX,
        val[1] + divisor - 1 <= u32::MAX,
    ensures
        r[0] == ceil_div(val[0] as int, divisor as int),
        r[1] == ceil_div(val[1] as int, divisor as int),
{
    [div_ceil(val[0], divisor), div_ceil(val[1], divisor)]
}

/// The resolution of the depth texture: the render resolution with enough
/// extra rows below it to hold one sample per `CONE_DEPTH_SCALE`-square of
/// the screen.
pub open spec fn depth_rows(res: [u32; 2]) -> int {
    ceil_div(
        ceil_div(res[0] as int, CONE_DEPTH_SCALE as int) * ceil_div(
            res[1] as int,
            CONE_DEPTH_SCALE as int,
        ),
        res[0] as int,
    )
}

/// Resolutions for which the depth texture's size fits in `u32`.
pub open spec fn depth_res_fits(res: [u32; 2]) -> bool {
    &&& res[0] > 0
    &&& res[0] + 7 <= u32::MAX
    &&& res[1] + 7 <= u32::MAX
    &&& ceil_div(res[0] as int, 8) * ceil_div(res[1] as int, 8) + res[0] - 1 <= u32::MAX
    &&& res[1] + depth_rows(res) <= u32::MAX
}

/// Size of the depth texture for the render resolution `res`.
pub fn depth_res(res: [u32; 2]) -> (r: [u32; 2])
    requires
        depth_res_fits(res),
    ensures
        r[0] == res[0],
        r[1] == res[1] + depth_rows(res),
{
    let cone_res = div_ceil_res(res, CONE_DEPTH_SCALE);
    assert(cone_res[0] * cone_res[1] <= u32::MAX) by (nonlinear_arith)
        requires
            cone_res[0] * cone_res[1] + res[0] - 1 <= u32::MAX,
            res[0] > 0,
    ;
    let pixels = cone_res[0] * cone_res[1];
    let delta_y = div_ceil(pixels, res[0]);
    [res[0], res[1] + delta_y]
}

} // verus!
