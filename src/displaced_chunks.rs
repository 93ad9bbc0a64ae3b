//! A fixed pool of chunk slots, each at an integer displacement from a moving
//! anchor.
use crate::displacement::{
    anchor_ok, covered, displacement_valid, in_ellipsoid, is_displacement_set, ivec,
    lemma_ellipsoid_bounds, mag_squared, offset, radius_displacement_set, radius_ok,
    IntVector3,
};
use crate::index3d::{
    box_volume, in_box, lemma_box_coords_of_index, lemma_linear_index_injective, linear_index,
};
use vstd::prelude::*;
use vstd::set_lib::{
    lemma_int_range, lemma_len_subset, lemma_map_size, lemma_set_disjoint_lens,
    lemma_subset_equality, set_int_range,
};

verus! {

/// Content that a slot of the pool holds: allocated once per slot, filled
/// again for each chunk coordinate that the slot stands for.
pub trait ChunkData: Sized {
    /// Fills this instance from the absolute chunk coordinate `world_chunk_coord`.
    fn initialize(&mut self, world_chunk_coord: IntVector3);

    /// A fresh instance, sized for one chunk.
    fn allocate() -> Self;
}

/// One slot of the pool.
pub struct Chunk<T> {
    pub data: T,
    /// Absolute chunk coordinate that the slot stands for.
    pub partition_coords: IntVector3,
    pub initialized: bool,
    pub dirty: bool,
}

/// Number of slots of `s` that are not initialized.
pub open spec fn count_uninitialized<T>(s: Seq<Chunk<T>>) -> nat
    decreases s.len(),
{
    if s.len() == 0 {
        0
    } else {
        count_uninitialized(s.drop_last()) + if s.last().initialized {
            0nat
        } else {
            1nat
        }
    }
}

/// Indices of the dirty slots of `s`, in increasing order.
pub open spec fn dirty_indices<T>(s: Seq<Chunk<T>>) -> Seq<int>
    decreases s.len(),
{
    if s.len() == 0 {
        Seq::empty()
    } else {
        dirty_indices(s.drop_last()) + if s.last().dirty {
            seq![s.len() - 1]
        } else {
            Seq::empty()
        }
    }
}

/// `c` with its dirty flag cleared.
pub open spec fn cleaned<T>(c: Chunk<T>) -> Chunk<T> {
    Chunk { dirty: false, ..c }
}

/// Flipping one uninitialized slot to initialized lowers the count by one.
proof fn lemma_count_update<T>(s: Seq<Chunk<T>>, i: int, c: Chunk<T>)
    requires
        0 <= i < s.len(),
        !s[i].initialized,
        c.initialized,
    ensures
        count_uninitialized(s.update(i, c)) + 1 == count_uninitialized(s),
    decreases s.len(),
{
    if i == s.len() - 1 {
        assert(s.update(i, c).drop_last() =~= s.drop_last());
    } else {
        assert(s.update(i, c).drop_last() =~= s.drop_last().update(i, c));
        lemma_count_update(s.drop_last(), i, c);
    }
}

/// The count is zero exactly when every slot is initialized.
proof fn lemma_count_zero<T>(s: Seq<Chunk<T>>)
    ensures
        count_uninitialized(s) == 0 <==> forall|i: int| 0 <= i < s.len() ==> s[i].initialized,
    decreases s.len(),
{
    if s.len() > 0 {
        lemma_count_zero(s.drop_last());
        if count_uninitialized(s) == 0 {
            assert forall|i: int| 0 <= i < s.len() implies s[i].initialized by {
                if i < s.len() - 1 {
                    assert(s.drop_last()[i] == s[i]);
                }
            }
        }
        if forall|i: int| 0 <= i < s.len() ==> s[i].initialized {
            assert forall|i: int| 0 <= i < s.drop_last().len() implies s.drop_last()[i].initialized by {
                assert(s.drop_last()[i] == s[i]);
            }
        }
    }
}

/// Indices in `dirty_indices(s)` are exactly the dirty slots, in increasing order.
proof fn lemma_dirty_indices<T>(s: Seq<Chunk<T>>)
    ensures
        forall|k: int|
            0 <= k < dirty_indices(s).len() ==> 0 <= #[trigger] dirty_indices(s)[k] < s.len()
                && s[dirty_indices(s)[k]].dirty,
        forall|i: int| 0 <= i < s.len() && s[i].dirty ==> dirty_indices(s).contains(i),
        forall|a: int, b: int|
            0 <= a < b < dirty_indices(s).len() ==> dirty_indices(s)[a] < dirty_indices(s)[b],
    decreases s.len(),
{
    if s.len() > 0 {
        let p = s.drop_last();
        lemma_dirty_indices(p);
        let tail: Seq<int> = if s.last().dirty {
            seq![s.len() - 1]
        } else {
            Seq::empty()
        };
        assert(dirty_indices(s) == dirty_indices(p) + tail);
        assert forall|k: int| 0 <= k < dirty_indices(s).len() implies 0 <= #[trigger] dirty_indices(
            s,
        )[k] < s.len() && s[dirty_indices(s)[k]].dirty by {
            if k < dirty_indices(p).len() {
                assert(dirty_indices(s)[k] == dirty_indices(p)[k]);
                let x = dirty_indices(p)[k];
                assert(0 <= x < p.len());
                assert(p[x] == s[x]);
            }
        }
        assert forall|i: int| 0 <= i < s.len() && s[i].dirty implies dirty_indices(s).contains(i) by {
            if i < s.len() - 1 {
                assert(p[i] == s[i]);
                assert(dirty_indices(p).contains(i));
                let k = choose|k: int| 0 <= k < dirty_indices(p).len() && dirty_indices(p)[k] == i;
                assert(dirty_indices(s)[k] == dirty_indices(p)[k]);
            } else {
                assert(dirty_indices(s)[dirty_indices(p).len() as int] == i);
            }
        }
    }
}

/// Slots that were cleaned have no dirty index left.
proof fn lemma_dirty_indices_cleaned<T>(s: Seq<Chunk<T>>)
    requires
        forall|i: int| 0 <= i < s.len() ==> !s[i].dirty,
    ensures
        dirty_indices(s).len() == 0,
    decreases s.len(),
{
    if s.len() > 0 {
        lemma_dirty_indices_cleaned(s.drop_last());
    }
}

/// Slot `i` of `s` is still inside the ellipsoid of radii `r` around anchor `a`.
pub open spec fn kept<T>(s: Seq<Chunk<T>>, a: IntVector3, r: IntVector3, i: int) -> bool {
    in_ellipsoid(offset(s[i].partition_coords, a), ivec(r))
}

/// Displacements from `a` of the slots of `s` that are still inside the ellipsoid.
pub open spec fn kept_offsets<T>(s: Seq<Chunk<T>>, a: IntVector3, r: IntVector3) -> Set<
    (int, int, int),
> {
    Set::new(
        |t: (int, int, int)|
            exists|i: int|
                0 <= i < s.len() && kept(s, a, r, i) && #[trigger] offset(s[i].partition_coords, a)
                    == t,
    )
}

/// Number of slots among the first `i` of `s` that are still inside the ellipsoid.
pub open spec fn count_kept<T>(s: Seq<Chunk<T>>, a: IntVector3, r: IntVector3, i: int) -> nat
    decreases i,
{
    if i <= 0 {
        0
    } else {
        count_kept(s, a, r, i - 1) + if kept(s, a, r, i - 1) {
            1nat
        } else {
            0nat
        }
    }
}

/// Number of displacements of `ds`, from index `j` on, that are not in `f`.
pub open spec fn count_unfilled(ds: Seq<IntVector3>, f: Set<(int, int, int)>, j: int) -> nat
    decreases ds.len() - j,
{
    if j < 0 || j >= ds.len() {
        0
    } else {
        count_unfilled(ds, f, j + 1) + if f.contains(ivec(ds[j])) {
            0nat
        } else {
            1nat
        }
    }
}

proof fn lemma_count_kept_set<T>(s: Seq<Chunk<T>>, a: IntVector3, r: IntVector3, i: int)
    requires
        0 <= i <= s.len(),
    ensures
        Set::new(|k: int| 0 <= k < i && kept(s, a, r, k)).finite(),
        Set::new(|k: int| 0 <= k < i && kept(s, a, r, k)).len() == count_kept(s, a, r, i),
    decreases i,
{
    let cur = Set::new(|k: int| 0 <= k < i && kept(s, a, r, k));
    if i == 0 {
        assert(cur =~= Set::empty());
    } else {
        lemma_count_kept_set(s, a, r, i - 1);
        let prev = Set::new(|k: int| 0 <= k < i - 1 && kept(s, a, r, k));
        if kept(s, a, r, i - 1) {
            assert(cur =~= prev.insert(i - 1));
        } else {
            assert(cur =~= prev);
        }
    }
}

proof fn lemma_count_unfilled_set(ds: Seq<IntVector3>, f: Set<(int, int, int)>, j: int)
    requires
        0 <= j <= ds.len(),
    ensures
        Set::new(|x: int| j <= x < ds.len() && !f.contains(ivec(ds[x]))).finite(),
        Set::new(|x: int| j <= x < ds.len() && !f.contains(ivec(ds[x]))).len() == count_unfilled(
            ds,
            f,
            j,
        ),
    decreases ds.len() - j,
{
    let cur = Set::new(|x: int| j <= x < ds.len() && !f.contains(ivec(ds[x])));
    if j == ds.len() {
        assert(cur =~= Set::empty());
    } else {
        lemma_count_unfilled_set(ds, f, j + 1);
        let next = Set::new(|x: int| j + 1 <= x < ds.len() && !f.contains(ivec(ds[x])));
        if f.contains(ivec(ds[j])) {
            assert(cur =~= next);
        } else {
            assert(cur =~= next.insert(j));
        }
    }
}

/// When the anchor moves to `a`, the slots that leave the ellipsoid are
/// exactly as many as the displacements that no remaining slot stands at.
proof fn lemma_relocation_balance<T>(
    s: Seq<Chunk<T>>,
    a: IntVector3,
    r: IntVector3,
    ds: Seq<IntVector3>,
)
    requires
        s.len() == ds.len(),
        is_displacement_set(ds, r),
        forall|i: int, j: int|
            0 <= i < s.len() && 0 <= j < s.len() && i != j ==> #[trigger] s[i].partition_coords
                != #[trigger] s[j].partition_coords,
    ensures
        count_kept(s, a, r, s.len() as int) + count_unfilled(ds, kept_offsets(s, a, r), 0)
            == s.len(),
{
    let n = s.len() as int;
    let f = kept_offsets(s, a, r);
    let kset = Set::new(|k: int| 0 <= k < n && kept(s, a, r, k));
    lemma_count_kept_set(s, a, r, n);
    let off = |k: int| offset(s[k].partition_coords, a);
    assert forall|t: (int, int, int)| f.contains(t) implies kset.map(off).contains(t) by {
        let i = choose|i: int|
            0 <= i < s.len() && kept(s, a, r, i) && #[trigger] offset(s[i].partition_coords, a)
                == t;
        assert(kset.contains(i) && off(i) == t);
    }
    assert forall|t: (int, int, int)| kset.map(off).contains(t) implies f.contains(t) by {
        let i = choose|i: int| kset.contains(i) && off(i) == t;
        assert(offset(s[i].partition_coords, a) == t);
    }
    assert(kset.map(off) =~= f);
    assert forall|x1: int, x2: int|
        kset.contains(x1) && kset.contains(x2) && #[trigger] off(x1) == #[trigger] off(x2) implies x1
        == x2 by {
        if x1 != x2 {
            assert(s[x1].partition_coords != s[x2].partition_coords);
        }
    }
    lemma_map_size(kset, f, off);
    let full = set_int_range(0, n);
    lemma_int_range(0, n);
    let dv = |x: int| ivec(ds[x]);
    let sset = full.map(dv);
    assert forall|x1: int, x2: int|
        full.contains(x1) && full.contains(x2) && #[trigger] dv(x1) == #[trigger] dv(x2) implies x1
        == x2 by {
        if x1 != x2 {
            assert(ds[x1] != ds[x2]);
        }
    }
    lemma_map_size(full, sset, dv);
    assert forall|t: (int, int, int)| f.contains(t) implies sset.contains(t) by {
        let i = choose|i: int|
            0 <= i < s.len() && kept(s, a, r, i) && #[trigger] offset(s[i].partition_coords, a)
                == t;
        assert(in_ellipsoid(t, ivec(r)));
        let x = choose|x: int| 0 <= x < ds.len() && #[trigger] ivec(ds[x]) == t;
        assert(full.contains(x) && dv(x) == t);
    }
    let uset = Set::new(|x: int| 0 <= x < n && !f.contains(ivec(ds[x])));
    lemma_count_unfilled_set(ds, f, 0);
    assert forall|t: (int, int, int)| sset.difference(f).contains(t) implies uset.map(dv).contains(
        t,
    ) by {
        let x = choose|x: int| full.contains(x) && dv(x) == t;
        assert(uset.contains(x));
    }
    assert forall|t: (int, int, int)| uset.map(dv).contains(t) implies sset.difference(f).contains(
        t,
    ) by {
        let x = choose|x: int| uset.contains(x) && dv(x) == t;
        assert(full.contains(x));
    }
    assert(uset.map(dv) =~= sset.difference(f));
    lemma_map_size(uset, sset.difference(f), dv);
    lemma_len_subset(f, sset);
    lemma_set_disjoint_lens(sset.difference(f), f);
    assert(sset.difference(f) + f =~= sset);
}

/// Cleaning the dirty flags twice in a row: the second pass finds no dirty
/// slot, and the first finds at least one whenever some slot was dirty.
pub proof fn lemma_clean_dirty_chunks_twice<T>(s: Seq<Chunk<T>>)
    ensures
        dirty_indices(s.map_values(|c: Chunk<T>| cleaned(c))).len() == 0,
        (exists|i: int| 0 <= i < s.len() && #[trigger] s[i].dirty) ==> dirty_indices(s).len() > 0,
{
    let c = s.map_values(|c: Chunk<T>| cleaned(c));
    assert forall|i: int| 0 <= i < c.len() implies !c[i].dirty by {}
    lemma_dirty_indices_cleaned(c);
    lemma_dirty_indices(s);
    if exists|i: int| 0 <= i < s.len() && #[trigger] s[i].dirty {
        let i = choose|i: int| 0 <= i < s.len() && #[trigger] s[i].dirty;
        assert(dirty_indices(s).contains(i));
    }
}

/// The chunk pool: one slot per element of a fixed displacement set.
pub struct DisplacedChunks<T> {
    chunks: Vec<Chunk<T>>,
    view_partition_coords: IntVector3,
    displacement_set: Vec<IntVector3>,
    radius: IntVector3,
}

impl<T: ChunkData> DisplacedChunks<T> {
    /// The slots, by index.
    pub closed spec fn slots(&self) -> Seq<Chunk<T>> {
        self.chunks@
    }

    /// The anchor: the chunk coordinate that displacements are measured from.
    pub closed spec fn anchor(&self) -> IntVector3 {
        self.view_partition_coords
    }

    /// The fixed displacement set.
    pub closed spec fn displacements(&self) -> Seq<IntVector3> {
        self.displacement_set@
    }

    /// Per-axis radii of the ellipsoid that the displacement set fills.
    pub closed spec fn radius(&self) -> IntVector3 {
        self.radius
    }

    /// Displacement of slot `i` from the anchor.
    pub open spec fn displacement_of(&self, i: int) -> (int, int, int) {
        offset(self.slots()[i].partition_coords, self.anchor())
    }

    /// The displacement set is fixed and holds one element per slot; every
    /// slot stands at a displacement inside the ellipsoid, and no two slots
    /// stand for the same chunk coordinate.
    pub open spec fn wf(&self) -> bool {
        &&& radius_ok(self.radius())
        &&& anchor_ok(self.anchor())
        &&& is_displacement_set(self.displacements(), self.radius())
        &&& self.slots().len() == self.displacements().len()
        &&& forall|i: int|
            0 <= i < self.slots().len() ==> in_ellipsoid(
                #[trigger] self.displacement_of(i),
                ivec(self.radius()),
            )
        &&& forall|i: int, j: int|
            0 <= i < self.slots().len() && 0 <= j < self.slots().len() && i != j
                ==> #[trigger] self.slots()[i].partition_coords
                != #[trigger] self.slots()[j].partition_coords
    }

    /// Slot `i` is the uninitialized slot nearest to the anchor, the first
    /// one by index among those equally near.
    pub open spec fn is_closest_uninitialized(&self, i: int) -> bool {
        &&& 0 <= i < self.slots().len()
        &&& !self.slots()[i].initialized
        &&& forall|j: int|
            0 <= j < self.slots().len() && !(#[trigger] self.slots()[j]).initialized ==> {
                &&& mag_squared(self.displacement_of(i)) <= mag_squared(self.displacement_of(j))
                &&& j < i ==> mag_squared(self.displacement_of(i)) < mag_squared(
                    self.displacement_of(j),
                )
            }
    }

    /// A pool around `view_partition_coords` with one uninitialized, clean
    /// slot per displacement inside the ellipsoid of radii `radius`.
    pub fn new(view_partition_coords: IntVector3, radius: IntVector3) -> (r: Self)
        requires
            radius_ok(radius),
            anchor_ok(view_partition_coords),
        ensures
            r.wf(),
            r.anchor() == view_partition_coords,
            r.radius() == radius,
            r.slots().len() == r.displacements().len(),
            forall|i: int|
                0 <= i < r.slots().len() ==> {
                    &&& r.displacement_of(i) == ivec(r.displacements()[i])
                    &&& !(#[trigger] r.slots()[i]).initialized
                    &&& !r.slots()[i].dirty
                },
    {
        let displacement_set = radius_displacement_set(radius);
        let n = displacement_set.len();
        let mut chunks: Vec<Chunk<T>> = Vec::with_capacity(n);
        let mut i: usize = 0;
        while i < n
            invariant
                n == displacement_set@.len(),
                is_displacement_set(displacement_set@, radius),
                radius_ok(radius),
                anchor_ok(view_partition_coords),
                i <= n,
                chunks@.len() == i,
                forall|k: int|
                    0 <= k < i ==> {
                        &&& offset((#[trigger] chunks@[k]).partition_coords, view_partition_coords)
                            == ivec(displacement_set@[k])
                        &&& !chunks@[k].initialized
                        &&& !chunks@[k].dirty
                    },
            decreases n - i,
        {
            let d = displacement_set[i];
            proof {
                lemma_ellipsoid_bounds(ivec(d), ivec(radius));
            }
            let coords = IntVector3 {
                x: d.x + view_partition_coords.x,
                y: d.y + view_partition_coords.y,
                z: d.z + view_partition_coords.z,
            };
            chunks.push(
                Chunk { data: T::allocate(), partition_coords: coords, initialized: false, dirty: false },
            );
            i = i + 1;
        }
        let r = DisplacedChunks { chunks, view_partition_coords, displacement_set, radius };
        proof {
            assert forall|a: int, b: int|
                0 <= a < r.slots().len() && 0 <= b < r.slots().len() && a != b
                    implies #[trigger] r.slots()[a].partition_coords
                != #[trigger] r.slots()[b].partition_coords by {
                assert(r.displacements()[a] != r.displacements()[b]);
            }
            assert forall|a: int| 0 <= a < r.slots().len() implies in_ellipsoid(
                #[trigger] r.displacement_of(a),
                ivec(r.radius()),
            ) by {
                assert(r.displacement_of(a) == ivec(r.displacements()[a]));
            }
        }
        r
    }

    /// Displacement of slot `i` from the anchor, in 64-bit components.
    fn displacement(&self, i: usize) -> (r: (i64, i64, i64))
        requires
            self.wf(),
            i < self.slots().len(),
        ensures
            (r.0 as int, r.1 as int, r.2 as int) == self.displacement_of(i as int),
            -1024 <= r.0 <= 1024,
            -1024 <= r.1 <= 1024,
            -1024 <= r.2 <= 1024,
    {
        proof {
            lemma_ellipsoid_bounds(self.displacement_of(i as int), ivec(self.radius));
        }
        let c = self.chunks[i].partition_coords;
        let a = self.view_partition_coords;
        (c.x as i64 - a.x as i64, c.y as i64 - a.y as i64, c.z as i64 - a.z as i64)
    }

    /// Squared length of a displacement.
    fn mag_squared(d: (i64, i64, i64)) -> (r: i64)
        requires
            -1024 <= d.0 <= 1024,
            -1024 <= d.1 <= 1024,
            -1024 <= d.2 <= 1024,
        ensures
            r == mag_squared((d.0 as int, d.1 as int, d.2 as int)),
    {
        assert(0 <= d.0 * d.0 <= 1048576 && 0 <= d.1 * d.1 <= 1048576 && 0 <= d.2 * d.2 <= 1048576)
            by (nonlinear_arith)
            requires
                -1024 <= d.0 <= 1024,
                -1024 <= d.1 <= 1024,
                -1024 <= d.2 <= 1024,
        ;
        d.0 * d.0 + d.1 * d.1 + d.2 * d.2
    }

    /// The uninitialized slot nearest to the anchor, if any.
    fn closest_uninitialized_chunk_index(&self) -> (r: Option<usize>)
        requires
            self.wf(),
        ensures
            r is None <==> forall|i: int| 0 <= i < self.slots().len() ==> self.slots()[i].initialized,
            r matches Some(i) ==> self.is_closest_uninitialized(i as int),
    {
        let n = self.chunks.len();
        let mut best: Option<usize> = None;
        let mut best_mag: i64 = 0;
        let mut i: usize = 0;
        while i < n
            invariant
                self.wf(),
                n == self.slots().len(),
                i <= n,
                best is None <==> forall|j: int| 0 <= j < i ==> self.slots()[j].initialized,
                best matches Some(b) ==> {
                    &&& b < i
                    &&& !self.slots()[b as int].initialized
                    &&& best_mag == mag_squared(self.displacement_of(b as int))
                    &&& forall|j: int|
                        0 <= j < i && !(#[trigger] self.slots()[j]).initialized ==> {
                            &&& best_mag <= mag_squared(self.displacement_of(j))
                            &&& j < b ==> best_mag < mag_squared(self.displacement_of(j))
                        }
                },
            decreases n - i,
        {
            if !self.chunks[i].initialized {
                let m = Self::mag_squared(self.displacement(i));
                match best {
                    None => {
                        best = Some(i);
                        best_mag = m;
                    },
                    Some(_) => {
                        if m < best_mag {
                            best = Some(i);
                            best_mag = m;
                        }
                    },
                }
            }
            i = i + 1;
        }
        best
    }

    /// `next` is this pool after one call of `try_initialize`: when some
    /// slot is uninitialized, exactly the nearest one (the first by index
    /// among equally near ones) becomes initialized and dirty; otherwise
    /// nothing changes.
    pub open spec fn initialize_step(self, next: Self) -> bool {
        &&& next.wf()
        &&& next.anchor() == self.anchor()
        &&& next.radius() == self.radius()
        &&& next.displacements() == self.displacements()
        &&& next.slots().len() == self.slots().len()
        &&& count_uninitialized(self.slots()) == 0 ==> next.slots() == self.slots()
        &&& count_uninitialized(self.slots()) > 0 ==> {
            &&& count_uninitialized(next.slots()) + 1 == count_uninitialized(self.slots())
            &&& exists|i: int|
                {
                    &&& #[trigger] self.is_closest_uninitialized(i)
                    &&& next.slots()[i].initialized
                    &&& next.slots()[i].dirty
                    &&& next.slots()[i].partition_coords == self.slots()[i].partition_coords
                    &&& forall|j: int|
                        0 <= j < self.slots().len() && j != i ==> next.slots()[j] == self.slots()[j]
                }
        }
    }

    /// Repeated calls of `try_initialize` under a fixed anchor: each call
    /// while some slot is uninitialized initializes one more, no slot loses
    /// its initialization, every slot is initialized after as many calls as
    /// there were uninitialized slots, further calls change nothing, and the
    /// slots are taken in order of distance from the anchor.
    pub proof fn lemma_repeated_initialization(pools: Seq<Self>)
        requires
            pools.len() > 0,
            pools[0].wf(),
            forall|k: int| 0 <= k < pools.len() - 1 ==> #[trigger] pools[k].initialize_step(pools[k + 1]),
        ensures
            forall|k: int|
                0 <= k < pools.len() ==> #[trigger] count_uninitialized(pools[k].slots()) == if k
                    <= count_uninitialized(pools[0].slots()) {
                    count_uninitialized(pools[0].slots()) - k
                } else {
                    0
                },
            forall|k: int, i: int|
                count_uninitialized(pools[0].slots()) <= k < pools.len() && 0 <= i < pools[k].slots().len()
                    ==> (#[trigger] pools[k].slots()[i]).initialized,
            forall|k: int|
                count_uninitialized(pools[0].slots()) <= k < pools.len() - 1 ==> #[trigger] pools[k
                    + 1].slots() == pools[k].slots(),
            forall|k: int, i: int|
                0 <= k < pools.len() - 1 && 0 <= i < pools[k].slots().len() && (
                #[trigger] pools[k].slots()[i]).initialized ==> pools[k + 1].slots()[i].initialized,
            forall|k: int, i0: int, i1: int|
                0 <= k < pools.len() - 1 && #[trigger] pools[k].is_closest_uninitialized(i0)
                    && #[trigger] pools[k + 1].is_closest_uninitialized(i1) && count_uninitialized(
                    pools[k].slots(),
                ) > 0 ==> mag_squared(pools[k].displacement_of(i0)) <= mag_squared(
                    pools[k + 1].displacement_of(i1),
                ),
        decreases pools.len(),
    {
        let n = pools.len() as int;
        let c0 = count_uninitialized(pools[0].slots());
        lemma_count_zero(pools[0].slots());
        if n > 1 {
            let rest = pools.drop_first();
            let first: int = 0;
            assert(pools[first].initialize_step(pools[first + 1]));
            assert(pools[0].initialize_step(pools[1]));
            assert forall|k: int| 0 <= k < rest.len() - 1 implies #[trigger] rest[k].initialize_step(
                rest[k + 1],
            ) by {
                let kk = k + 1;
                assert(pools[kk].initialize_step(pools[kk + 1]));
                assert(rest[k] == pools[kk] && rest[k + 1] == pools[kk + 1]);
            }
            Self::lemma_repeated_initialization(rest);
            lemma_count_zero(pools[0].slots());
            lemma_count_zero(pools[1].slots());
            let c1 = count_uninitialized(pools[1].slots());
            assert(c0 > 0 ==> c1 + 1 == c0);
            assert(c0 == 0 ==> c1 == 0);
            assert forall|k: int| 0 <= k < n implies #[trigger] count_uninitialized(pools[k].slots())
                == if k <= c0 {
                c0 - k
            } else {
                0
            } by {
                if k > 0 {
                    assert(rest[k - 1] == pools[k]);
                }
            }
            assert forall|k: int, i: int| c0 <= k < n && 0 <= i < pools[k].slots().len() implies (
            #[trigger] pools[k].slots()[i]).initialized by {
                lemma_count_zero(pools[k].slots());
            }
            assert forall|k: int| c0 <= k < n - 1 implies #[trigger] pools[k + 1].slots()
                == pools[k].slots() by {
                assert(pools[k].initialize_step(pools[k + 1]));
                lemma_count_zero(pools[k].slots());
            }
            assert forall|k: int, i: int|
                0 <= k < n - 1 && 0 <= i < pools[k].slots().len() && (
                #[trigger] pools[k].slots()[i]).initialized implies pools[k + 1].slots()[i].initialized by {
                assert(pools[k].initialize_step(pools[k + 1]));
                if count_uninitialized(pools[k].slots()) > 0 {
                    let j = choose|j: int|
                        {
                            &&& #[trigger] pools[k].is_closest_uninitialized(j)
                            &&& pools[k + 1].slots()[j].initialized
                            &&& pools[k + 1].slots()[j].dirty
                            &&& pools[k + 1].slots()[j].partition_coords
                                == pools[k].slots()[j].partition_coords
                            &&& forall|jj: int|
                                0 <= jj < pools[k].slots().len() && jj != j ==> pools[k + 1].slots()[jj]
                                    == pools[k].slots()[jj]
                        };
                    if i != j {
                        assert(pools[k + 1].slots()[i] == pools[k].slots()[i]);
                    }
                }
            }
            assert forall|k: int, i0: int, i1: int|
                0 <= k < n - 1 && #[trigger] pools[k].is_closest_uninitialized(i0)
                    && #[trigger] pools[k + 1].is_closest_uninitialized(i1) && count_uninitialized(
                    pools[k].slots(),
                ) > 0 implies mag_squared(pools[k].displacement_of(i0)) <= mag_squared(
                pools[k + 1].displacement_of(i1),
            ) by {
                let a = pools[k];
                let b = pools[k + 1];
                assert(a.initialize_step(b));
                let j = choose|j: int|
                    {
                        &&& #[trigger] a.is_closest_uninitialized(j)
                        &&& b.slots()[j].initialized
                        &&& b.slots()[j].dirty
                        &&& b.slots()[j].partition_coords == a.slots()[j].partition_coords
                        &&& forall|jj: int|
                            0 <= jj < a.slots().len() && jj != j ==> b.slots()[jj] == a.slots()[jj]
                    };
                if i0 != j {
                    assert(mag_squared(a.displacement_of(i0)) <= mag_squared(a.displacement_of(j)));
                    assert(mag_squared(a.displacement_of(j)) <= mag_squared(a.displacement_of(i0)));
                    if j < i0 {
                        assert(mag_squared(a.displacement_of(i0)) < mag_squared(a.displacement_of(j)));
                    } else {
                        assert(mag_squared(a.displacement_of(j)) < mag_squared(a.displacement_of(i0)));
                    }
                }
                assert(i1 != j);
                assert(b.slots()[i1] == a.slots()[i1]);
                assert(!a.slots()[i1].initialized);
                assert(b.displacement_of(i1) == a.displacement_of(i1));
            }
        }
    }

    /// Initializes the uninitialized slot nearest to the anchor (the first by
    /// index among equally near ones) from its chunk coordinate, and marks it
    /// dirty. Does nothing when every slot is initialized.
    pub fn try_initialize(&mut self)
        requires
            old(self).wf(),
        ensures
            old(self).initialize_step(*final(self)),
    {
        proof {
            lemma_count_zero(self.slots());
        }
        match self.closest_uninitialized_chunk_index() {
            None => {},
            Some(index) => {
                let ghost before = self.slots();
                let coords = self.chunks[index].partition_coords;
                self.chunks[index].data.initialize(coords);
                self.chunks[index].initialized = true;
                self.chunks[index].dirty = true;
                proof {
                    assert(self.slots() == before.update(index as int, self.slots()[index as int]));
                    lemma_count_update(before, index as int, self.slots()[index as int]);
                    assert(forall|j: int|
                        0 <= j < before.len() ==> #[trigger] self.slots()[j].partition_coords
                            == before[j].partition_coords);
                    assert(forall|j: int|
                        0 <= j < before.len() ==> #[trigger] self.displacement_of(j) == offset(
                            before[j].partition_coords,
                            self.anchor(),
                        ));
                }
            },
        }
    }

    /// Hands out every dirty slot with its index, in increasing order of
    /// index, and clears their dirty flags.
    pub fn clean_dirty_chunks(&mut self) -> (r: Vec<(usize, &T)>)
        requires
            old(self).wf(),
        ensures
            final(self).wf(),
            final(self).anchor() == old(self).anchor(),
            final(self).radius() == old(self).radius(),
            final(self).displacements() == old(self).displacements(),
            final(self).slots() == old(self).slots().map_values(|c: Chunk<T>| cleaned(c)),
            r@.map_values(|p: (usize, &T)| p.0 as int) == dirty_indices(old(self).slots()),
            forall|k: int|
                0 <= k < r@.len() ==> *(#[trigger] r@[k]).1 == final(self).slots()[r@[k].0 as int].data,
    {
        let ghost orig = self.slots();
        let n = self.chunks.len();
        let mut ids: Vec<usize> = Vec::new();
        let mut i: usize = 0;
        while i < n
            invariant
                n == orig.len(),
                self.chunks@.len() == n,
                self.view_partition_coords == old(self).view_partition_coords,
                self.radius == old(self).radius,
                self.displacement_set == old(self).displacement_set,
                i <= n,
                forall|k: int| 0 <= k < i ==> #[trigger] self.slots()[k] == cleaned(orig[k]),
                forall|k: int| i <= k < n ==> #[trigger] self.slots()[k] == orig[k],
                ids@.map_values(|u: usize| u as int) == dirty_indices(orig.take(i as int)),
            decreases n - i,
        {
            assert(orig.take(i + 1).drop_last() =~= orig.take(i as int));
            let ghost before = self.slots();
            if self.chunks[i].dirty {
                self.chunks[i].dirty = false;
                assert(self.slots() == before.update(i as int, cleaned(orig[i as int])));
                ids.push(i);
                assert(ids@.map_values(|u: usize| u as int) =~= dirty_indices(orig.take(i as int))
                    + seq![i as int]);
            } else {
                assert(self.slots()[i as int] == cleaned(orig[i as int]));
            }
            i = i + 1;
        }
        proof {
            assert(orig.take(n as int) =~= orig);
            assert(self.slots() =~= orig.map_values(|c: Chunk<T>| cleaned(c)));
            assert forall|a: int| 0 <= a < n implies #[trigger] self.displacement_of(a)
                == old(self).displacement_of(a) by {
                assert(self.slots()[a] == cleaned(orig[a]));
            }
            assert forall|a: int, b: int|
                0 <= a < n && 0 <= b < n && a != b implies #[trigger] self.slots()[a].partition_coords
                != #[trigger] self.slots()[b].partition_coords by {
                assert(self.slots()[a] == cleaned(orig[a]));
                assert(self.slots()[b] == cleaned(orig[b]));
            }
            lemma_dirty_indices(orig);
            assert forall|m: int| 0 <= m < ids@.len() implies 0 <= #[trigger] ids@[m] < n by {
                assert(ids@.map_values(|u: usize| u as int)[m] == dirty_indices(orig)[m]);
            }
        }
        let this: &Self = self;
        let mut out: Vec<(usize, &T)> = Vec::with_capacity(ids.len());
        let mut k: usize = 0;
        while k < ids.len()
            invariant
                this.chunks@.len() == n,
                ids@.map_values(|u: usize| u as int) == dirty_indices(orig),
                forall|m: int| 0 <= m < ids@.len() ==> 0 <= #[trigger] ids@[m] < n,
                k <= ids@.len(),
                out@.len() == k,
                forall|m: int| 0 <= m < k ==> (#[trigger] out@[m]).0 == ids@[m],
                forall|m: int|
                    0 <= m < k ==> *(#[trigger] out@[m]).1 == this.slots()[out@[m].0 as int].data,
            decreases ids@.len() - k,
        {
            assert(ids@[k as int] as int == dirty_indices(orig)[k as int]);
            let id = ids[k];
            out.push((id, &this.chunks[id].data));
            k = k + 1;
        }
        assert(out@.map_values(|p: (usize, &T)| p.0 as int) =~= ids@.map_values(|u: usize| u as int));
        out
    }

    /// Extents of the box that holds every displacement inside the ellipsoid.
    spec fn radius_dims(r: IntVector3) -> (int, int, int) {
        (2 * r.x + 1, 2 * r.y + 1, 2 * r.z + 1)
    }

    /// Offset of displacement `t` in the box of `radius_dims(r)`.
    spec fn box_key(t: (int, int, int), r: IntVector3) -> int {
        linear_index((t.0 + r.x, t.1 + r.y, t.2 + r.z), Self::radius_dims(r))
    }

    /// `t` lies in the box of `radius_dims(r)`, centred on the origin.
    spec fn in_radius_box(t: (int, int, int), r: IntVector3) -> bool {
        &&& -r.x <= t.0 <= r.x
        &&& -r.y <= t.1 <= r.y
        &&& -r.z <= t.2 <= r.z
    }

    proof fn lemma_box_key(t: (int, int, int), u: (int, int, int), r: IntVector3)
        requires
            radius_ok(r),
            Self::in_radius_box(t, r),
            Self::in_radius_box(u, r),
        ensures
            0 <= Self::box_key(t, r) < box_volume(Self::radius_dims(r)),
            Self::box_key(t, r) == Self::box_key(u, r) ==> t == u,
    {
        let dims = Self::radius_dims(r);
        lemma_box_coords_of_index((t.0 + r.x, t.1 + r.y, t.2 + r.z), dims);
        if Self::box_key(t, r) == Self::box_key(u, r) {
            lemma_linear_index_injective(
                (t.0 + r.x, t.1 + r.y, t.2 + r.z),
                (u.0 + r.x, u.1 + r.y, u.2 + r.z),
                dims,
            );
        }
    }

    fn key_of(d: (i64, i64, i64), radius: IntVector3) -> (k: usize)
        requires
            radius_ok(radius),
            Self::in_radius_box((d.0 as int, d.1 as int, d.2 as int), radius),
        ensures
            k == Self::box_key((d.0 as int, d.1 as int, d.2 as int), radius),
            k < box_volume(Self::radius_dims(radius)),
    {
        let ghost t = (d.0 as int, d.1 as int, d.2 as int);
        proof {
            Self::lemma_box_key(t, t, radius);
        }
        let ex = (2 * radius.x + 1) as usize;
        let ey = (2 * radius.y + 1) as usize;
        let a = (d.0 + radius.x as i64) as usize;
        let b = (d.1 + radius.y as i64) as usize;
        let c = (d.2 + radius.z as i64) as usize;
        assert(b * ex <= 1025 * 1025 && c * (ex * ey) <= 1025 * 1025 * 1025) by (nonlinear_arith)
            requires
                b <= 1024,
                c <= 1024,
                ex <= 1025,
                ey <= 1025,
        ;
        assert(ex * ey <= 1025 * 1025) by (nonlinear_arith)
            requires
                ex <= 1025,
                ey <= 1025,
        ;
        a + b * ex + c * (ex * ey)
    }

    /// Moves the anchor to `coords`. A slot whose chunk coordinate stays
    /// inside the ellipsoid around the new anchor keeps its coordinate and its
    /// state. Every other slot is invalidated and takes one of the
    /// displacements that no remaining slot stands at, each given to one slot.
    pub fn set_view_partition_coords(&mut self, coords: IntVector3)
        requires
            old(self).wf(),
            anchor_ok(coords),
        ensures
            final(self).wf(),
            final(self).anchor() == coords,
            final(self).radius() == old(self).radius(),
            final(self).displacements() == old(self).displacements(),
            final(self).slots().len() == old(self).slots().len(),
            forall|i: int|
                0 <= i < old(self).slots().len() ==> {
                    &&& (#[trigger] final(self).slots()[i]).data == old(self).slots()[i].data
                    &&& final(self).slots()[i].dirty == old(self).slots()[i].dirty
                    &&& kept(old(self).slots(), coords, old(self).radius(), i) ==> final(self).slots()[i] == old(self).slots()[i]
                    &&& !kept(old(self).slots(), coords, old(self).radius(), i) ==> {
                        &&& !final(self).slots()[i].initialized
                        &&& final(self).slots()[i].partition_coords != old(self).slots()[i].partition_coords
                    }
                },
    {
        let ghost orig = self.slots();
        let ghost ds = self.displacements();
        let ghost f = kept_offsets(orig, coords, self.radius);
        let n = self.chunks.len();
        let radius = self.radius;
        self.view_partition_coords = coords;
        let ex = (2 * radius.x + 1) as usize;
        let ey = (2 * radius.y + 1) as usize;
        let ez = (2 * radius.z + 1) as usize;
        assert(ex * ey <= 1025 * 1025 && ex * ey * ez <= 1025 * 1025 * 1025) by (nonlinear_arith)
            requires
                ex <= 1025,
                ey <= 1025,
                ez <= 1025,
        ;
        let exy = ex * ey;
        let volume = exy * ez;
        let mut filled: Vec<bool> = Vec::with_capacity(volume);
        let mut v: usize = 0;
        while v < volume
            invariant
                v <= volume,
                filled@.len() == v,
                forall|m: int| 0 <= m < v ==> !filled@[m],
            decreases volume - v,
        {
            filled.push(false);
            v = v + 1;
        }
        assert(volume == box_volume(Self::radius_dims(radius)));
        proof {
            assert forall|t: (int, int, int)| #[trigger] Self::in_radius_box(t, radius) implies !filled@[Self::box_key(t, radius)] by {
                Self::lemma_box_key(t, t, radius);
            }
        }
        let mut invalid: Vec<usize> = Vec::new();
        let mut i: usize = 0;
        while i < n
            invariant
                old(self).wf(),
                orig == old(self).slots(),
                n == orig.len(),
                self.chunks@.len() == n,
                self.view_partition_coords == coords,
                self.radius == radius,
                radius == old(self).radius(),
                self.displacement_set == old(self).displacement_set,
                filled@.len() == volume,
                volume == box_volume(Self::radius_dims(radius)),
                i <= n,
                forall|k: int|
                    #![trigger self.slots()[k]]
                    0 <= k < n ==> {
                        &&& self.slots()[k].data == orig[k].data
                        &&& self.slots()[k].dirty == orig[k].dirty
                        &&& self.slots()[k].partition_coords == orig[k].partition_coords
                        &&& (kept(orig, coords, radius, k) || k >= i) ==> self.slots()[k] == orig[k]
                        &&& (!kept(orig, coords, radius, k) && k < i)
                            ==> !self.slots()[k].initialized
                    },
                forall|m: int|
                    0 <= m < invalid@.len() ==> #[trigger] invalid@[m] < i && !kept(
                        orig,
                        coords,
                        radius,
                        invalid@[m] as int,
                    ),
                forall|k: int|
                    0 <= k < i && !kept(orig, coords, radius, k) ==> #[trigger] invalid@.contains(
                        k as usize,
                    ),
                invalid@.no_duplicates(),
                invalid@.len() + count_kept(orig, coords, radius, i as int) == i,
                forall|t: (int, int, int)|
                    #[trigger] Self::in_radius_box(t, radius) ==> (filled@[Self::box_key(t, radius)]
                        <==> exists|k: int|
                        0 <= k < i && kept(orig, coords, radius, k) && #[trigger] offset(
                            orig[k].partition_coords,
                            coords,
                        ) == t),
            decreases n - i,
        {
            assert(self.slots()[i as int] == orig[i as int]);
            let c = self.chunks[i].partition_coords;
            let d = (c.x as i64 - coords.x as i64, c.y as i64 - coords.y as i64, c.z as i64
                - coords.z as i64);
            let ghost t = (d.0 as int, d.1 as int, d.2 as int);
            assert(t == offset(orig[i as int].partition_coords, coords));
            if !displacement_valid(d.0, d.1, d.2, radius) {
                let ghost before_invalid = invalid@;
                self.chunks[i].initialized = false;
                invalid.push(i);
                proof {
                    assert forall|k: int| 0 <= k < i + 1 && !kept(orig, coords, radius, k) implies #[trigger] invalid@.contains(k as usize) by {
                        if k < i {
                            assert(before_invalid.contains(k as usize));
                            let m = choose|m: int| 0 <= m < before_invalid.len() && before_invalid[m] == k as usize;
                            assert(invalid@[m] == k as usize);
                        } else {
                            assert(invalid@[before_invalid.len() as int] == k as usize);
                        }
                    }
                    assert forall|t2: (int, int, int)|
                        #[trigger] Self::in_radius_box(t2, radius) implies (filled@[Self::box_key(
                            t2,
                            radius,
                        )] <==> exists|k: int|
                        0 <= k < i + 1 && kept(orig, coords, radius, k) && #[trigger] offset(
                            orig[k].partition_coords,
                            coords,
                        ) == t2) by {
                        if filled@[Self::box_key(t2, radius)] {
                            let k = choose|k: int|
                                0 <= k < i && kept(orig, coords, radius, k) && #[trigger] offset(
                                    orig[k].partition_coords,
                                    coords,
                                ) == t2;
                            assert(0 <= k < i + 1);
                        }
                    }
                }
            } else {
                proof {
                    lemma_ellipsoid_bounds(t, ivec(radius));
                }
                let key = Self::key_of(d, radius);
                filled.set(key, true);
                proof {
                    assert forall|t2: (int, int, int)|
                        #[trigger] Self::in_radius_box(t2, radius) implies (filled@[Self::box_key(
                            t2,
                            radius,
                        )] <==> exists|k: int|
                        0 <= k < i + 1 && kept(orig, coords, radius, k) && #[trigger] offset(
                            orig[k].partition_coords,
                            coords,
                        ) == t2) by {
                        Self::lemma_box_key(t2, t, radius);
                        if t2 == t {
                            assert(offset(orig[i as int].partition_coords, coords) == t2);
                        } else if filled@[Self::box_key(t2, radius)] {
                            let k = choose|k: int|
                                0 <= k < i && kept(orig, coords, radius, k) && #[trigger] offset(
                                    orig[k].partition_coords,
                                    coords,
                                ) == t2;
                            assert(0 <= k < i + 1);
                        }
                    }
                }
            }
            i = i + 1;
        }
        proof {
            lemma_relocation_balance(orig, coords, radius, ds);
            assert forall|j: int| 0 <= j < n implies #[trigger] filled@[Self::box_key(ivec(ds[j]), radius)]
                == f.contains(ivec(ds[j])) by {
                lemma_ellipsoid_bounds(ivec(ds[j]), ivec(radius));
                assert(Self::in_radius_box(ivec(ds[j]), radius));
            }
        }
        let mut j: usize = 0;
        while j < n
            invariant
                old(self).wf(),
                orig == old(self).slots(),
                ds == old(self).displacements(),
                f == kept_offsets(orig, coords, radius),
                n == orig.len(),
                n == ds.len(),
                self.chunks@.len() == n,
                self.displacement_set@ == ds,
                self.view_partition_coords == coords,
                anchor_ok(coords),
                self.radius == radius,
                radius == old(self).radius(),
                self.displacement_set == old(self).displacement_set,
                filled@.len() == volume,
                volume == box_volume(Self::radius_dims(radius)),
                j <= n,
                forall|x: int| 0 <= x < n ==> #[trigger] filled@[Self::box_key(ivec(ds[x]), radius)]
                    == f.contains(ivec(ds[x])),
                invalid@.len() == count_unfilled(ds, f, j as int),
                invalid@.no_duplicates(),
                forall|m: int|
                    0 <= m < invalid@.len() ==> #[trigger] invalid@[m] < n && !kept(
                        orig,
                        coords,
                        radius,
                        invalid@[m] as int,
                    ),
                forall|k: int|
                    #![trigger self.slots()[k]]
                    0 <= k < n ==> {
                        &&& self.slots()[k].data == orig[k].data
                        &&& self.slots()[k].dirty == orig[k].dirty
                        &&& kept(orig, coords, radius, k) ==> self.slots()[k] == orig[k]
                        &&& !kept(orig, coords, radius, k) ==> !self.slots()[k].initialized
                        &&& (!kept(orig, coords, radius, k) && invalid@.contains(k as usize))
                            ==> self.slots()[k].partition_coords == orig[k].partition_coords
                        &&& (!kept(orig, coords, radius, k) && !invalid@.contains(k as usize))
                            ==> exists|x: int|
                            0 <= x < j && !f.contains(ivec(ds[x])) && offset(
                                self.slots()[k].partition_coords,
                                coords,
                            ) == #[trigger] ivec(ds[x])
                    },
                forall|k1: int, k2: int|
                    0 <= k1 < n && 0 <= k2 < n && k1 != k2 && !invalid@.contains(k1 as usize)
                        && !invalid@.contains(k2 as usize) ==> #[trigger] self.slots()[k1].partition_coords
                        != #[trigger] self.slots()[k2].partition_coords,
            decreases n - j,
        {
            let d = self.displacement_set[j];
            proof {
                lemma_ellipsoid_bounds(ivec(d), ivec(radius));
            }
            let key = Self::key_of((d.x as i64, d.y as i64, d.z as i64), radius);
            assert(filled@[Self::box_key(ivec(ds[j as int]), radius)] == f.contains(ivec(ds[j as int])));
            if !filled[key] {
                let ghost before = self.slots();
                let ghost before_invalid = invalid@;
                match invalid.pop() {
                    Some(id) => {
                        assert(id == before_invalid.last());
                        assert(before_invalid.contains(id));
                        assert(invalid@ =~= before_invalid.drop_last());
                        assert(!invalid@.contains(id));
                        assert(forall|k: usize| #[trigger] invalid@.contains(k) ==> before_invalid.contains(k));
                        assert forall|k: usize| before_invalid.contains(k) && k != id implies #[trigger] invalid@.contains(k) by {
                            let m = choose|m: int| 0 <= m < before_invalid.len() && before_invalid[m] == k;
                            assert(m != before_invalid.len() - 1);
                            assert(invalid@[m] == k);
                        }
                        self.chunks[id].partition_coords = IntVector3 {
                            x: d.x + coords.x,
                            y: d.y + coords.y,
                            z: d.z + coords.z,
                        };
                        proof {
                            let idi = id as int;
                            assert(self.slots() == before.update(idi, self.slots()[idi]));
                            assert(offset(self.slots()[idi].partition_coords, coords) == ivec(ds[j as int]));
                            assert forall|k: int|
                                #![trigger self.slots()[k]]
                                0 <= k < n && !kept(orig, coords, radius, k) && !invalid@.contains(k as usize)
                                implies exists|x: int|
                                    0 <= x < j + 1 && !f.contains(ivec(ds[x])) && offset(
                                        self.slots()[k].partition_coords,
                                        coords,
                                    ) == #[trigger] ivec(ds[x]) by {
                                if k == idi {
                                    assert(ivec(ds[j as int]) == offset(self.slots()[k].partition_coords, coords));
                                } else {
                                    assert(self.slots()[k] == before[k]);
                                    assert(!before_invalid.contains(k as usize));
                                }
                            }
                            assert forall|k1: int, k2: int|
                                0 <= k1 < n && 0 <= k2 < n && k1 != k2 && !invalid@.contains(k1 as usize)
                                    && !invalid@.contains(k2 as usize) implies #[trigger] self.slots()[k1].partition_coords
                                    != #[trigger] self.slots()[k2].partition_coords by {
                                if k1 != idi && k2 != idi {
                                    assert(self.slots()[k1] == before[k1]);
                                    assert(self.slots()[k2] == before[k2]);
                                    assert(!before_invalid.contains(k1 as usize));
                                    assert(!before_invalid.contains(k2 as usize));
                                } else {
                                    let other = if k1 == idi { k2 } else { k1 };
                                    assert(self.slots()[other] == before[other]);
                                    assert(!before_invalid.contains(other as usize));
                                    if kept(orig, coords, radius, other) {
                                        assert(before[other] == orig[other]);
                                        assert(f.contains(offset(orig[other].partition_coords, coords)));
                                    } else {
                                        let x = choose|x: int|
                                            0 <= x < j && !f.contains(ivec(ds[x])) && offset(
                                                before[other].partition_coords,
                                                coords,
                                            ) == #[trigger] ivec(ds[x]);
                                        assert(ds[x] != ds[j as int]);
                                    }
                                }
                            }
                        }
                    },
                    None => {},
                }
            }
            j = j + 1;
        }
        proof {
            assert(invalid@.len() == 0);
            assert forall|k: int| 0 <= k < n implies in_ellipsoid(
                #[trigger] self.displacement_of(k),
                ivec(self.radius()),
            ) by {
                assert(self.slots()[k] == self.slots()[k]);
                if !kept(orig, coords, radius, k) {
                    assert(!invalid@.contains(k as usize));
                }
            }
            assert forall|k: int| 0 <= k < n implies {
                &&& (#[trigger] self.slots()[k]).data == orig[k].data
                &&& self.slots()[k].dirty == orig[k].dirty
                &&& kept(orig, coords, radius, k) ==> self.slots()[k] == orig[k]
                &&& !kept(orig, coords, radius, k) ==> {
                    &&& !self.slots()[k].initialized
                    &&& self.slots()[k].partition_coords != orig[k].partition_coords
                }
            } by {
                if !kept(orig, coords, radius, k) {
                    assert(!invalid@.contains(k as usize));
                    assert(in_ellipsoid(self.displacement_of(k), ivec(self.radius())));
                }
            }
            assert forall|k1: int, k2: int|
                0 <= k1 < n && 0 <= k2 < n && k1 != k2 implies #[trigger] self.slots()[k1].partition_coords
                != #[trigger] self.slots()[k2].partition_coords by {
                assert(!invalid@.contains(k1 as usize));
                assert(!invalid@.contains(k2 as usize));
            }
        }
    }

    /// Offset, in an index map of extents `dims`, of displacement `t`: the
    /// map's origin sits at its centre cell.
    pub open spec fn map_key(t: (int, int, int), dims: [usize; 3]) -> int {
        linear_index(
            (t.0 + dims[0] / 2, t.1 + dims[1] / 2, t.2 + dims[2] / 2),
            (dims[0] as int, dims[1] as int, dims[2] as int),
        )
    }

    /// Displacement `t`, moved by half the extents, lies inside the map.
    spec fn in_map(t: (int, int, int), dims: [usize; 3]) -> bool {
        in_box(
            (t.0 + dims[0] / 2, t.1 + dims[1] / 2, t.2 + dims[2] / 2),
            (dims[0] as int, dims[1] as int, dims[2] as int),
        )
    }

    /// `h + d`, for `d` between `-h` and `h`.
    fn centred(h: usize, d: i64) -> (r: usize)
        requires
            -1024 <= d <= 1024,
            -h <= d <= h,
            2 * h + 1 <= usize::MAX,
        ensures
            r == h + d,
    {
        if d >= 0 {
            h + d as usize
        } else {
            h - (-d) as usize
        }
    }

    /// A dense volume of extents `map_dims`, centred on the anchor, that holds
    /// at each cell the index of the initialized slot standing at that
    /// displacement, and `u16::MAX` where there is none.
    pub fn get_index_map(&self, map_dims: [usize; 3]) -> (r: Vec<u16>)
        requires
            self.wf(),
            map_dims[0] % 2 == 1 && map_dims[1] % 2 == 1 && map_dims[2] % 2 == 1,
            self.radius().x <= map_dims[0] / 2,
            self.radius().y <= map_dims[1] / 2,
            self.radius().z <= map_dims[2] / 2,
            map_dims[0] * map_dims[1] * map_dims[2] <= usize::MAX,
            self.slots().len() < u16::MAX,
        ensures
            r@.len() == map_dims[0] * map_dims[1] * map_dims[2],
            forall|i: int|
                0 <= i < self.slots().len() && (#[trigger] self.slots()[i]).initialized ==> r@[Self::map_key(
                    self.displacement_of(i),
                    map_dims,
                )] == i,
            forall|m: int|
                0 <= m < r@.len() && #[trigger] r@[m] != u16::MAX ==> {
                    &&& r@[m] < self.slots().len()
                    &&& self.slots()[r@[m] as int].initialized
                    &&& Self::map_key(self.displacement_of(r@[m] as int), map_dims) == m
                },
    {
        let ghost dims = (map_dims[0] as int, map_dims[1] as int, map_dims[2] as int);
        assert(map_dims[0] * map_dims[1] <= map_dims[0] * map_dims[1] * map_dims[2]) by (nonlinear_arith)
            requires
                map_dims[2] >= 1,
        ;
        let d01 = map_dims[0] * map_dims[1];
        let volume = d01 * map_dims[2];
        let mut map_vec: Vec<u16> = Vec::with_capacity(volume);
        let mut v: usize = 0;
        while v < volume
            invariant
                v <= volume,
                map_vec@.len() == v,
                forall|m: int| 0 <= m < v ==> map_vec@[m] == u16::MAX,
            decreases volume - v,
        {
            map_vec.push(u16::MAX);
            v = v + 1;
        }
        let half = [map_dims[0] / 2, map_dims[1] / 2, map_dims[2] / 2];
        let n = self.chunks.len();
        let mut i: usize = 0;
        while i < n
            invariant
                self.wf(),
                n == self.slots().len(),
                n < u16::MAX,
                map_vec@.len() == volume,
                volume == map_dims[0] * map_dims[1] * map_dims[2],
                d01 == map_dims[0] * map_dims[1],
                dims == (map_dims[0] as int, map_dims[1] as int, map_dims[2] as int),
                half[0] == map_dims[0] / 2,
                half[1] == map_dims[1] / 2,
                half[2] == map_dims[2] / 2,
                self.radius().x <= map_dims[0] / 2,
                self.radius().y <= map_dims[1] / 2,
                self.radius().z <= map_dims[2] / 2,
                map_dims[0] % 2 == 1 && map_dims[1] % 2 == 1 && map_dims[2] % 2 == 1,
                i <= n,
                forall|k: int|
                    0 <= k < i && (#[trigger] self.slots()[k]).initialized ==> map_vec@[Self::map_key(
                        self.displacement_of(k),
                        map_dims,
                    )] == k,
                forall|m: int|
                    0 <= m < map_vec@.len() && #[trigger] map_vec@[m] != u16::MAX ==> {
                        &&& map_vec@[m] < i
                        &&& self.slots()[map_vec@[m] as int].initialized
                        &&& Self::map_key(self.displacement_of(map_vec@[m] as int), map_dims) == m
                    },
            decreases n - i,
        {
            if self.chunks[i].initialized {
                let d = self.displacement(i);
                proof {
                    lemma_ellipsoid_bounds(self.displacement_of(i as int), ivec(self.radius()));
                }
                let a = Self::centred(half[0], d.0);
                let b = Self::centred(half[1], d.1);
                let c = Self::centred(half[2], d.2);
                let ghost t = (a as int, b as int, c as int);
                proof {
                    assert(Self::in_map(self.displacement_of(i as int), map_dims));
                    lemma_box_coords_of_index(t, dims);
                    assert(linear_index(t, dims) == Self::map_key(self.displacement_of(i as int), map_dims));
                }
                assert(b * map_dims[0] <= linear_index(t, dims) && c * d01 <= linear_index(t, dims)) by (nonlinear_arith)
                    requires
                        t == (a as int, b as int, c as int),
                        linear_index(t, dims) == a + b * dims.0 + c * (dims.0 * dims.1),
                        dims.0 == map_dims[0],
                        dims.1 == map_dims[1],
                        d01 == map_dims[0] * map_dims[1],
                        a >= 0,
                        b >= 0,
                        c >= 0,
                        map_dims[0] >= 0,
                        map_dims[1] >= 0,
                ;
                let key = a + b * map_dims[0] + c * d01;
                let ghost before = map_vec@;
                map_vec.set(key, i as u16);
                proof {
                    assert forall|k: int|
                        0 <= k < i + 1 && (#[trigger] self.slots()[k]).initialized implies map_vec@[Self::map_key(
                            self.displacement_of(k),
                            map_dims,
                        )] == k by {
                        if k < i {
                            lemma_ellipsoid_bounds(self.displacement_of(k), ivec(self.radius()));
                            assert(Self::in_map(self.displacement_of(k), map_dims));
                            let tk = self.displacement_of(k);
                            let uk = (tk.0 + dims.0 / 2, tk.1 + dims.1 / 2, tk.2 + dims.2 / 2);
                            lemma_box_coords_of_index(uk, dims);
                            if Self::map_key(tk, map_dims) == key {
                                lemma_linear_index_injective(uk, t, dims);
                                assert(self.slots()[k].partition_coords == self.slots()[i as int].partition_coords);
                            }
                            assert(map_vec@[Self::map_key(tk, map_dims)] == before[Self::map_key(tk, map_dims)]);
                        } else {
                            assert(Self::map_key(self.displacement_of(k), map_dims) == key);
                        }
                    }
                    assert forall|m: int|
                        0 <= m < map_vec@.len() && #[trigger] map_vec@[m] != u16::MAX implies {
                            &&& map_vec@[m] < i + 1
                            &&& self.slots()[map_vec@[m] as int].initialized
                            &&& Self::map_key(self.displacement_of(map_vec@[m] as int), map_dims) == m
                        } by {
                        if m != key {
                            assert(map_vec@[m] == before[m]);
                        }
                    }
                }
            }
            i = i + 1;
        }
        map_vec
    }

    /// Some slot stands at displacement `t` from the anchor.
    pub open spec fn has_slot_at(&self, t: (int, int, int)) -> bool {
        exists|i: int| 0 <= i < self.slots().len() && #[trigger] self.displacement_of(i) == t
    }

    /// The slots and the displacement set are in one-to-one correspondence:
    /// there are as many slots as displacements, every slot stands at a
    /// displacement of the set, and every displacement of the set is where
    /// exactly one slot stands.
    pub proof fn lemma_slots_match_displacements(&self)
        requires
            self.wf(),
        ensures
            self.slots().len() == self.displacements().len(),
            forall|i: int|
                0 <= i < self.slots().len() ==> covered(self.displacements(), #[trigger] self.displacement_of(i)),
            forall|j: int|
                0 <= j < self.displacements().len() ==> #[trigger] self.has_slot_at(
                    ivec(self.displacements()[j]),
                ),
            forall|i1: int, i2: int|
                0 <= i1 < self.slots().len() && 0 <= i2 < self.slots().len()
                    && #[trigger] self.displacement_of(i1) == #[trigger] self.displacement_of(i2)
                    ==> i1 == i2,
    {
        let n = self.slots().len() as int;
        let ds = self.displacements();
        let full = set_int_range(0, n);
        lemma_int_range(0, n);
        let disp = |i: int| self.displacement_of(i);
        let dv = |j: int| ivec(ds[j]);
        assert forall|i1: int, i2: int|
            0 <= i1 < n && 0 <= i2 < n && #[trigger] self.displacement_of(i1) == #[trigger] self.displacement_of(i2)
                implies i1 == i2 by {
            if i1 != i2 {
                assert(self.slots()[i1].partition_coords != self.slots()[i2].partition_coords);
            }
        }
        assert forall|x1: int, x2: int|
            full.contains(x1) && full.contains(x2) && #[trigger] disp(x1) == #[trigger] disp(x2) implies x1
            == x2 by {
            assert(self.displacement_of(x1) == self.displacement_of(x2));
        }
        assert forall|x1: int, x2: int|
            full.contains(x1) && full.contains(x2) && #[trigger] dv(x1) == #[trigger] dv(x2) implies x1
            == x2 by {
            if x1 != x2 {
                assert(ds[x1] != ds[x2]);
            }
        }
        let a = full.map(disp);
        let b = full.map(dv);
        lemma_map_size(full, a, disp);
        lemma_map_size(full, b, dv);
        assert forall|t: (int, int, int)| a.contains(t) implies b.contains(t) by {
            let i = choose|i: int| full.contains(i) && disp(i) == t;
            assert(in_ellipsoid(self.displacement_of(i), ivec(self.radius())));
            let j = choose|j: int| 0 <= j < ds.len() && #[trigger] ivec(ds[j]) == t;
            assert(full.contains(j) && dv(j) == t);
        }
        lemma_subset_equality(a, b);
        assert forall|j: int|
            0 <= j < self.displacements().len() implies #[trigger] self.has_slot_at(
                ivec(self.displacements()[j]),
            ) by {
            assert(full.contains(j));
            assert(b.contains(dv(j)));
            assert(a.contains(dv(j)));
            let i = choose|i: int| full.contains(i) && disp(i) == dv(j);
            assert(self.displacement_of(i) == ivec(ds[j]));
        }
        assert forall|i: int| 0 <= i < n implies covered(ds, #[trigger] self.displacement_of(i)) by {
            assert(in_ellipsoid(self.displacement_of(i), ivec(self.radius())));
        }
    }

    /// Number of slots.
    pub fn len(&self) -> (r: usize)
        ensures
            r == self.slots().len(),
    {
        self.chunks.len()
    }
}

} // verus!
