//! A dense cubic grid of bytes.
use crate::index3d::{box_coords, cube, in_cube, index_of, triple};
use crate::map_3d::Map3D;
use vstd::prelude::*;

verus! {

/// A cube of `length`³ bytes, stored with the first axis varying fastest.
pub struct ByteGrid {
    grid: Map3D<u8>,
}

impl View for ByteGrid {
    type V = Seq<u8>;

    /// The bytes in storage order.
    closed spec fn view(&self) -> Seq<u8> {
        self.grid@
    }
}

impl ByteGrid {
    /// Side length of the cube.
    pub closed spec fn side(&self) -> int {
        self.grid.side()
    }

    /// The storage holds exactly one byte per coordinate of the cube.
    pub closed spec fn wf(&self) -> bool {
        self.grid.wf()
    }

    /// The byte stored at coordinate `c`.
    pub open spec fn cell(&self, c: [usize; 3]) -> u8 {
        self@[index_of(c, self.side())]
    }

    pub fn length(&self) -> (r: usize)
        ensures
            r == self.side(),
    {
        self.grid.length()
    }

    /// A cube of side `length` filled with zeros.
    pub fn new(length: usize) -> (r: Self)
        requires
            length * length * length <= usize::MAX,
        ensures
            r.wf(),
            r.side() == length,
            r@.len() == length * length * length,
            forall|i: int| 0 <= i < r@.len() ==> r@[i] == 0,
    {
        ByteGrid { grid: Map3D::new_with_default(length, 0u8) }
    }

    /// Linear offset of `coords` in the storage.
    pub fn index(&self, coords: [usize; 3]) -> (r: usize)
        requires
            self.wf(),
            in_cube(coords, self.side()),
        ensures
            r == index_of(coords, self.side()),
            r < self@.len(),
    {
        self.grid.index(coords)
    }

    /// The coordinate stored at linear offset `index` of a cube of side `length`.
    pub fn coords(index: usize, length: usize) -> (r: [usize; 3])
        requires
            length > 0,
            index < length * length * length,
            length * length * length <= usize::MAX,
        ensures
            triple(r) == box_coords(index as int, cube(length as int)),
            in_cube(r, length as int),
            index_of(r, length as int) == index,
    {
        Map3D::<u8>::coords(index, length)
    }

    /// The byte stored at `coords`.
    pub fn get(&self, coords: [usize; 3]) -> (r: u8)
        requires
            self.wf(),
            in_cube(coords, self.side()),
        ensures
            r == self.cell(coords),
    {
        self.grid.get(coords)
    }

    /// Stores `value` at `coords`; every other byte keeps its value.
    pub fn set(&mut self, coords: [usize; 3], value: u8)
        requires
            old(self).wf(),
            in_cube(coords, old(self).side()),
        ensures
            final(self).wf(),
            final(self).side() == old(self).side(),
            final(self)@ == old(self)@.update(index_of(coords, old(self).side()), value),
    {
        self.grid.set(coords, value)
    }

    /// Replaces every byte with the value that `value_fn` gives for its coordinate.
    pub fn set_all<F: Fn([usize; 3]) -> u8>(&mut self, value_fn: &F)
        requires
            old(self).wf(),
            old(self).side() > 0,
            forall|c: [usize; 3]| in_cube(c, old(self).side()) ==> value_fn.requires((c,)),
        ensures
            final(self).wf(),
            final(self).side() == old(self).side(),
            forall|c: [usize; 3]|
                #![trigger final(self).cell(c)]
                in_cube(c, old(self).side()) ==> value_fn.ensures((c,), final(self).cell(c)),
    {
        self.grid.set_all(value_fn);
        assert(forall|c: [usize; 3]| in_cube(c, self.side()) ==> self.cell(c) == self.grid.cell(c));
    }

    /// All bytes, in storage order.
    pub fn full_slice(&self) -> (r: &[u8])
        ensures
            r@ == self@,
    {
        self.grid.full_slice()
    }
}

} // verus!
