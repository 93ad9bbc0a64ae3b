//! A dense cubic grid of values, addressed by three coordinates.
use crate::index3d::{
    box_coords, cube, in_box, in_cube, index_of, lemma_box_coords_of_index,
    lemma_box_index_of_coords, lemma_cube_round_trip, lemma_linear_index_injective,
    linear_index, triple,
};
use vstd::prelude::*;

verus! {

/// A cube of `length`³ cells, stored with the first axis varying fastest.
pub struct Map3D<T> {
    data: Vec<T>,
    length: usize,
}

impl<T> View for Map3D<T> {
    type V = Seq<T>;

    /// The cells in storage order.
    closed spec fn view(&self) -> Seq<T> {
        self.data@
    }
}

/// Arrays of three coordinates with equal components are equal.
pub proof fn lemma_triple_injective(a: [usize; 3], b: [usize; 3])
    requires
        triple(a) == triple(b),
    ensures
        a == b,
{
    assert(a@ =~= b@);
    broadcast use vstd::array::axiom_array_ext_equal;
    assert(a =~= b);
}

impl<T: Copy + Default> Map3D<T> {
    /// Side length of the cube.
    pub closed spec fn side(&self) -> int {
        self.length as int
    }

    /// The storage holds exactly one cell per coordinate of the cube.
    pub open spec fn wf(&self) -> bool {
        self@.len() == self.side() * self.side() * self.side()
    }

    /// The value stored at coordinate `c`.
    pub open spec fn cell(&self, c: [usize; 3]) -> T {
        self@[index_of(c, self.side())]
    }

    /// The value stored at the coordinate triple `t`.
    pub open spec fn cell_at(&self, t: (int, int, int)) -> T {
        self@[linear_index(t, cube(self.side()))]
    }

    pub fn length(&self) -> (r: usize)
        ensures
            r == self.side(),
    {
        self.length
    }

    /// A cube of side `length` whose cells all hold `T::default()`.
    pub fn new(length: usize) -> (r: Self)
        requires
            length * length * length <= usize::MAX,
        ensures
            r.wf(),
            r.side() == length,
            forall|i: int, j: int| 0 <= i < r@.len() && 0 <= j < r@.len() ==> r@[i] == r@[j],
    {
        Self::new_with_default(length, T::default())
    }

    /// A cube of side `length` whose cells all hold `default_val`.
    pub fn new_with_default(length: usize, default_val: T) -> (r: Self)
        requires
            length * length * length <= usize::MAX,
        ensures
            r.wf(),
            r.side() == length,
            forall|i: int| 0 <= i < r@.len() ==> r@[i] == default_val,
    {
        assert(length * length <= length * length * length) by (nonlinear_arith)
            requires
                length * length * length <= usize::MAX,
        ;
        let volume = length * length * length;
        let mut data: Vec<T> = Vec::with_capacity(volume);
        let mut i: usize = 0;
        while i < volume
            invariant
                i <= volume,
                data@.len() == i,
                forall|j: int| 0 <= j < i ==> data@[j] == default_val,
            decreases volume - i,
        {
            data.push(default_val);
            i = i + 1;
        }
        Self { data, length }
    }

    /// Linear offset of `coords` in the storage.
    pub fn index(&self, coords: [usize; 3]) -> (r: usize)
        requires
            self.wf(),
            in_cube(coords, self.side()),
        ensures
            r == index_of(coords, self.side()),
            r < self@.len(),
    {
        proof {
            lemma_cube_round_trip(coords, self.side());
        }
        let n = self.data.len();
        let length = self.length;
        assert(length * length <= n && coords[2] * (length * length) + coords[1] * length
            + coords[0] < n) by (nonlinear_arith)
            requires
                n == length * length * length,
                coords[0] < length,
                coords[1] < length,
                coords[2] < length,
        ;
        let sq = length * length;
        coords[0] + coords[1] * length + coords[2] * sq
    }

    /// The coordinate stored at linear offset `index` of a cube of side `length`.
    pub fn coords(index: usize, length: usize) -> (r: [usize; 3])
        requires
            length > 0,
            index < length * length * length,
            length * length * length <= usize::MAX,
        ensures
            triple(r) == box_coords(index as int, cube(length as int)),
            in_cube(r, length as int),
            index_of(r, length as int) == index,
    {
        proof {
            lemma_box_index_of_coords(index as int, cube(length as int));
        }
        assert(length * length <= length * length * length) by (nonlinear_arith)
            requires
                length > 0,
        ;
        assert(length * length > 0) by (nonlinear_arith)
            requires
                length > 0,
        ;
        let sq = length * length;
        let r = [index % length, (index / length) % length, index / sq];
        r
    }

    /// The value stored at `coords`.
    pub fn get(&self, coords: [usize; 3]) -> (r: T)
        requires
            self.wf(),
            in_cube(coords, self.side()),
        ensures
            r == self.cell(coords),
    {
        let i = self.index(coords);
        self.data[i]
    }

    /// Stores `value` at `coords`; every other cell keeps its value.
    pub fn set(&mut self, coords: [usize; 3], value: T)
        requires
            old(self).wf(),
            in_cube(coords, old(self).side()),
        ensures
            final(self).wf(),
            final(self).side() == old(self).side(),
            final(self)@ == old(self)@.update(index_of(coords, old(self).side()), value),
            forall|c: [usize; 3]|
                #![trigger final(self).cell(c)]
                in_cube(c, old(self).side()) ==> final(self).cell(c) == if triple(c) == triple(
                    coords,
                ) {
                    value
                } else {
                    old(self).cell(c)
                },
            forall|t: (int, int, int)|
                #![trigger final(self).cell_at(t)]
                in_box(t, cube(old(self).side())) ==> final(self).cell_at(t) == if t == triple(coords) {
                    value
                } else {
                    old(self).cell_at(t)
                },
    {
        let i = self.index(coords);
        self.data.set(i, value);
        proof {
            let side = self.side();
            assert forall|t: (int, int, int)| in_box(t, cube(side)) && t != triple(coords) implies linear_index(
                t,
                cube(side),
            ) != index_of(coords, side) by {
                if linear_index(t, cube(side)) == index_of(coords, side) {
                    lemma_linear_index_injective(t, triple(coords), cube(side));
                }
            }
            assert forall|t: (int, int, int)| in_box(t, cube(side)) implies 0 <= linear_index(t, cube(side)) < self@.len() by {
                lemma_box_coords_of_index(t, cube(side));
            }
            assert forall|c: [usize; 3]| in_cube(c, side) && triple(c) != triple(coords) implies index_of(
                c,
                side,
            ) != index_of(coords, side) by {
                if index_of(c, side) == index_of(coords, side) {
                    lemma_linear_index_injective(triple(c), triple(coords), cube(side));
                }
            }
            assert forall|c: [usize; 3]| in_cube(c, side) implies 0 <= index_of(c, side) < self@.len() by {
                lemma_cube_round_trip(c, side);
            }
        }
    }

    /// Replaces every cell with the value that `value_fn` gives for its coordinate.
    pub fn set_all<F: Fn([usize; 3]) -> T>(&mut self, value_fn: &F)
        requires
            old(self).wf(),
            old(self).side() > 0,
            forall|c: [usize; 3]| in_cube(c, old(self).side()) ==> value_fn.requires((c,)),
        ensures
            final(self).wf(),
            final(self).side() == old(self).side(),
            forall|c: [usize; 3]|
                #![trigger final(self).cell(c)]
                in_cube(c, old(self).side()) ==> value_fn.ensures((c,), final(self).cell(c)),
    {
        let length = self.length;
        let n = self.data.len();
        let mut i: usize = 0;
        while i < n
            invariant
                self.wf(),
                self.side() == length,
                length > 0,
                n == self@.len(),
                n == length * length * length,
                i <= n,
                forall|c: [usize; 3]| in_cube(c, length as int) ==> value_fn.requires((c,)),
                forall|j: int, c: [usize; 3]|
                    #![trigger value_fn.ensures((c,), self@[j])]
                    0 <= j < i && in_cube(c, length as int) && index_of(c, length as int) == j
                        ==> value_fn.ensures((c,), self@[j]),
            decreases n - i,
        {
            let c = Self::coords(i, length);
            let v = value_fn(c);
            let ghost before = self@;
            self.data.set(i, v);
            i = i + 1;
            proof {
                assert forall|j: int, c2: [usize; 3]|
                    0 <= j < i && in_cube(c2, length as int) && index_of(c2, length as int) == j
                    implies #[trigger] value_fn.ensures((c2,), self@[j]) by {
                    if j == i - 1 {
                        lemma_linear_index_injective(triple(c), triple(c2), cube(length as int));
                        lemma_triple_injective(c, c2);
                    } else {
                        assert(self@[j] == before[j]);
                    }
                }
            }
        }
        proof {
            let side = length as int;
            assert forall|c: [usize; 3]| #[trigger]
                in_cube(c, side) implies value_fn.ensures((c,), self.cell(c)) by {
                lemma_cube_round_trip(c, side);
            }
        }
    }

    /// All cells, in storage order.
    pub fn full_slice(&self) -> (r: &[T])
        ensures
            r@ == self@,
    {
        self.data.as_slice()
    }
}

} // verus!
