//! A 32³ voxel model with its palette, as read from a voxel file.
use crate::index3d::in_cube;
use crate::map_3d::Map3D;
use vstd::prelude::*;

verus! {

/// Side of a prefab model.
pub const PREFAB_SIDE: usize = 32;

/// One voxel of a model: its position and its palette index.
#[derive(Clone, Copy, Debug, PartialEq, Eq, Structural)]
pub struct Voxel {
    pub x: u8,
    pub y: u8,
    pub z: u8,
    pub i: u8,
}

/// Palette index painted at `c` by `voxels`: the last voxel there wins, and
/// a cell that no voxel covers holds `u16::MAX`.
pub open spec fn painted(voxels: Seq<Voxel>, c: [usize; 3]) -> u16
    decreases voxels.len(),
{
    if voxels.len() == 0 {
        u16::MAX
    } else {
        let v = voxels.last();
        if (v.x as usize, v.y as usize, v.z as usize) == (c[0], c[1], c[2]) {
            v.i as u16
        } else {
            painted(voxels.drop_last(), c)
        }
    }
}

/// A voxel model of side `PREFAB_SIDE` and its palette.
pub struct StandardVoxelPrefab {
    pub dims: [usize; 3],
    pub palette_volume: Map3D<u16>,
    pub palette: [u32; 256],
}

impl StandardVoxelPrefab {
    /// A prefab from a model of extents `dims`, its voxels and its palette.
    pub fn new(dims: [usize; 3], voxels: &Vec<Voxel>, palette: [u32; 256]) -> (r: StandardVoxelPrefab)
        requires
            dims[0] == PREFAB_SIDE && dims[1] == PREFAB_SIDE && dims[2] == PREFAB_SIDE,
            forall|k: int|
                0 <= k < voxels@.len() ==> (#[trigger] voxels@[k]).x < PREFAB_SIDE && voxels@[k].y
                    < PREFAB_SIDE && voxels@[k].z < PREFAB_SIDE,
        ensures
            r.dims == dims,
            r.palette == palette,
            r.palette_volume.wf(),
            r.palette_volume.side() == PREFAB_SIDE,
            forall|c: [usize; 3]|
                in_cube(c, PREFAB_SIDE as int) ==> #[trigger] r.palette_volume.cell(c) == painted(
                    voxels@,
                    c,
                ),
    {
        let mut pal_vol = Map3D::new_with_default(PREFAB_SIDE, u16::MAX);
        let mut k: usize = 0;
        while k < voxels.len()
            invariant
                pal_vol.wf(),
                pal_vol.side() == PREFAB_SIDE,
                k <= voxels@.len(),
                forall|j: int|
                    0 <= j < voxels@.len() ==> (#[trigger] voxels@[j]).x < PREFAB_SIDE && voxels@[j].y
                        < PREFAB_SIDE && voxels@[j].z < PREFAB_SIDE,
                forall|c: [usize; 3]|
                    in_cube(c, PREFAB_SIDE as int) ==> #[trigger] pal_vol.cell(c) == painted(
                        voxels@.take(k as int),
                        c,
                    ),
            decreases voxels@.len() - k,
        {
            let voxel = voxels[k];
            pal_vol.set([voxel.x as usize, voxel.y as usize, voxel.z as usize], voxel.i as u16);
            proof {
                let s = voxels@.take(k + 1);
                assert(s.drop_last() =~= voxels@.take(k as int));
                assert(s.last() == voxel);
            }
            k = k + 1;
        }
        assert(voxels@.take(voxels@.len() as int) =~= voxels@);
        StandardVoxelPrefab { dims, palette_volume: pal_vol, palette }
    }
}

} // verus!
