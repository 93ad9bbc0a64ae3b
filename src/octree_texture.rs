//! A sparse octree over a cubic boolean volume, stored in a fixed pool of
//! octuples: cubes of 2×2×2 cells inside one `Map3D`.
//!
//! Every level above the lowest two holds, per child, either `NULL_CHILD` or
//! the pool address of the child's octuple. The lowest two levels are packed
//! together: the child index at depth 1 picks a cell of the last octuple, and
//! the child index at depth 0 picks a bit of that cell.
use crate::index3d::{
    box_coords, cube, in_box, in_cube, lemma_box_coords_of_index, lemma_box_index_of_coords,
    lemma_linear_index_injective, linear_index, triple,
};
use crate::map_3d::Map3D;
use vstd::prelude::*;
use vstd::set_lib::{lemma_int_range, lemma_map_size, lemma_set_disjoint_lens, set_int_range};

verus! {

/// Marks a cell with no child.
pub const NULL_CHILD: u16 = 65535;

/// Side of the cell pool.
pub const OCTUPLE_DATA_MAP_SIZE: usize = 18;

/// Side of the pool counted in octuples.
pub const OCTUPLE_SIDE: usize = 9;

/// Number of octuples that the pool holds.
pub const OCTUPLE_CAPACITY: usize = 729;

/// One cell of the pool.
#[derive(Clone, Copy, Debug, PartialEq, Eq, Structural)]
pub struct Octant(pub u16);

impl Default for Octant {
    fn default() -> (r: Self)
        ensures
            r == Octant(NULL_CHILD),
    {
        Octant(NULL_CHILD)
    }
}

/// Why an insertion was refused.
#[derive(Clone, Copy, Debug, PartialEq, Eq, Structural)]
pub enum OctreeError {
    /// The coordinate lies outside the tree's cubic domain.
    OutOfRange,
    /// The insertion needs more octuples than the pool has left.
    PoolExhausted,
}

/// The child index at depth `d`: bit `d` of each coordinate, the first axis
/// in the lowest bit.
pub open spec fn child_at(c: [usize; 3], d: usize) -> usize {
    ((c[0] >> d) & 1usize) | (((c[1] >> d) << 1usize) & 2usize) | (((c[2] >> d) << 2usize) & 4usize)
}

/// Number of branch levels above the two packed ones.
pub open spec fn branch_levels(m: usize) -> int {
    if m >= 2 {
        m - 2
    } else {
        0
    }
}

/// Child indices of `c` down the branch levels of a tree of magnitude `m`,
/// from the root.
pub open spec fn path_of(c: [usize; 3], m: usize) -> Seq<int> {
    Seq::new(branch_levels(m) as nat, |i: int| child_at(c, (m - 1 - i) as usize) as int)
}

/// `c` lies in `[0, 2^m)³`.
pub open spec fn in_domain(c: [usize; 3], m: usize) -> bool {
    &&& c[0] >> m == 0
    &&& c[1] >> m == 0
    &&& c[2] >> m == 0
}

/// Octuple coordinates of octuple number `k`.
pub open spec fn oct_of(k: int) -> (int, int, int) {
    box_coords(k, cube(OCTUPLE_SIDE as int))
}

/// Pool coordinates of child `x` of the octuple at `o`.
pub open spec fn cell_of(o: (int, int, int), x: int) -> (int, int, int) {
    (2 * o.0 + x % 2, 2 * o.1 + (x / 2) % 2, 2 * o.2 + x / 4)
}

/// The 16-bit form of octuple coordinates: five bits per axis.
pub open spec fn encode(o: (int, int, int)) -> int {
    o.0 + 32 * o.1 + 1024 * o.2
}

/// Octuple coordinates read back from their 16-bit form.
pub open spec fn decode(v: usize) -> (int, int, int) {
    ((v & 31usize) as int, ((v >> 5usize) & 31usize) as int, ((v >> 10usize) & 31usize) as int)
}

/// Bit `b` of a packed leaf cell is set.
pub open spec fn bit_set(v: u16, b: usize) -> bool {
    v != NULL_CHILD && (v >> b) & 1u16 == 1u16
}

/// A packed leaf cell after setting bit `b`.
pub open spec fn with_bit(v: u16, b: usize) -> u16 {
    (if v == NULL_CHILD {
        0u16
    } else {
        v
    }) | (1u16 << b)
}

/// Octuple `k` of the pool is numbered below the capacity.
pub open spec fn oct_ok(k: int) -> bool {
    0 <= k < OCTUPLE_CAPACITY
}

proof fn lemma_oct_of(k: int)
    requires
        oct_ok(k),
    ensures
        in_box(oct_of(k), cube(9)),
        linear_index(oct_of(k), cube(9)) == k,
        0 <= encode(oct_of(k)) < NULL_CHILD,
{
    lemma_box_index_of_coords(k, cube(9));
}

proof fn lemma_decode_encode(o: (int, int, int))
    requires
        in_box(o, cube(9)),
    ensures
        decode(encode(o) as usize) == o,
{
    let a = o.0 as usize;
    let b = o.1 as usize;
    let c = o.2 as usize;
    assert(a + 32 * b + 1024 * c == a | (b << 5usize) | (c << 10usize)) by (bit_vector)
        requires
            a < 9,
            b < 9,
            c < 9,
    ;
    let v = a | (b << 5usize) | (c << 10usize);
    assert((v & 31usize) == a && ((v >> 5usize) & 31usize) == b && ((v >> 10usize) & 31usize) == c)
        by (bit_vector)
        requires
            a < 9,
            b < 9,
            c < 9,
            v == a | (b << 5usize) | (c << 10usize),
    ;
}

/// Different (octuple, child) pairs use different cells of the pool.
proof fn lemma_cell_of_injective(k1: int, x1: int, k2: int, x2: int)
    requires
        oct_ok(k1),
        oct_ok(k2),
        0 <= x1 < 8,
        0 <= x2 < 8,
        cell_of(oct_of(k1), x1) == cell_of(oct_of(k2), x2),
    ensures
        k1 == k2,
        x1 == x2,
{
    lemma_oct_of(k1);
    lemma_oct_of(k2);
    lemma_linear_index_injective(oct_of(k1), oct_of(k2), cube(9));
}

proof fn lemma_cell_of_in_pool(k: int, x: int)
    requires
        oct_ok(k),
        0 <= x < 8,
    ensures
        in_box(cell_of(oct_of(k), x), cube(OCTUPLE_DATA_MAP_SIZE as int)),
{
    lemma_oct_of(k);
}

/// Child indices lie below eight.
proof fn lemma_child_at_range(c: [usize; 3], d: usize)
    ensures
        child_at(c, d) < 8,
{
    let a = c[0];
    let b = c[1];
    let e = c[2];
    assert(((a >> d) & 1usize) | (((b >> d) << 1usize) & 2usize) | (((e >> d) << 2usize) & 4usize)
        < 8) by (bit_vector);
}

/// Equal child indices at a depth mean equal bits of each coordinate there.
proof fn lemma_child_at_bits(a: [usize; 3], b: [usize; 3], d: usize)
    requires
        child_at(a, d) == child_at(b, d),
    ensures
        (a[0] >> d) & 1 == (b[0] >> d) & 1,
        (a[1] >> d) & 1 == (b[1] >> d) & 1,
        (a[2] >> d) & 1 == (b[2] >> d) & 1,
{
    let (a0, a1, a2, b0, b1, b2) = (a[0], a[1], a[2], b[0], b[1], b[2]);
    assert(((a0 >> d) & 1usize) | (((a1 >> d) << 1usize) & 2usize) | (((a2 >> d) << 2usize)
        & 4usize) == ((b0 >> d) & 1usize) | (((b1 >> d) << 1usize) & 2usize) | (((b2 >> d)
        << 2usize) & 4usize) ==> (a0 >> d) & 1usize == (b0 >> d) & 1usize && (a1 >> d) & 1usize
        == (b1 >> d) & 1usize && (a2 >> d) & 1usize == (b2 >> d) & 1usize) by (bit_vector);
}

/// Two numbers below `2^m` with the same bits at every depth below `m` are equal.
proof fn lemma_bits_equal(a: usize, b: usize, m: usize)
    requires
        m < 32,
        a >> m == 0,
        b >> m == 0,
        forall|d: usize| d < m ==> #[trigger] ((a >> d) & 1) == (b >> d) & 1,
    ensures
        a == b,
    decreases m,
{
    if m == 0 {
        assert(a >> 0usize == a && b >> 0usize == b) by (bit_vector);
    } else {
        let a1 = a >> 1usize;
        let b1 = b >> 1usize;
        let mm = (m - 1) as usize;
        assert(a1 >> mm == a >> m && b1 >> mm == b >> m) by (bit_vector)
            requires
                a1 == a >> 1usize,
                b1 == b >> 1usize,
                mm + 1 == m,
                m < 32,
        ;
        assert forall|d: usize| d < mm implies #[trigger] ((a1 >> d) & 1) == (b1 >> d) & 1 by {
            let d1 = (d + 1) as usize;
            assert((a >> d1) & 1 == (b >> d1) & 1);
            assert(a1 >> d == a >> d1 && b1 >> d == b >> d1) by (bit_vector)
                requires
                    a1 == a >> 1usize,
                    b1 == b >> 1usize,
                    d1 == d + 1,
                    d < 32,
            ;
        }
        lemma_bits_equal(a1, b1, mm);
        assert((a >> 0usize) & 1 == (b >> 0usize) & 1);
        assert(a == ((a >> 1usize) << 1usize) | (a & 1usize) && b == ((b >> 1usize) << 1usize) | (b
            & 1usize) && (a >> 0usize) & 1 == a & 1 && (b >> 0usize) & 1 == b & 1) by (bit_vector);
    }
}

/// Inside the domain, a coordinate is determined by its path and its child
/// indices at depths 1 and 0.
pub proof fn lemma_path_determines_coords(a: [usize; 3], b: [usize; 3], m: usize)
    requires
        m < 32,
        in_domain(a, m),
        in_domain(b, m),
        path_of(a, m) == path_of(b, m),
        child_at(a, 1) == child_at(b, 1),
        child_at(a, 0) == child_at(b, 0),
    ensures
        triple(a) == triple(b),
{
    assert forall|d: usize| d < m implies child_at(a, d) == child_at(b, d) by {
        if d >= 2 {
            let i: int = m - 1 - d;
            assert(0 <= i < branch_levels(m));
            assert(((m - 1 - i) as usize) == d);
            assert(path_of(a, m)[i] == child_at(a, d) as int);
            assert(path_of(b, m)[i] == child_at(b, d) as int);
        }
    }
    assert forall|d: usize| d < m implies #[trigger] ((a[0] >> d) & 1) == (b[0] >> d) & 1 by {
        lemma_child_at_bits(a, b, d);
    }
    assert forall|d: usize| d < m implies #[trigger] ((a[1] >> d) & 1) == (b[1] >> d) & 1 by {
        lemma_child_at_bits(a, b, d);
    }
    assert forall|d: usize| d < m implies #[trigger] ((a[2] >> d) & 1) == (b[2] >> d) & 1 by {
        lemma_child_at_bits(a, b, d);
    }
    lemma_bits_equal(a[0], b[0], m);
    lemma_bits_equal(a[1], b[1], m);
    lemma_bits_equal(a[2], b[2], m);
}

/// Setting bit `b` of a packed leaf cell leaves it a packed leaf cell, sets
/// bit `b` and keeps every other bit.
proof fn lemma_with_bit(v: u16, b: usize, b2: usize)
    requires
        v == NULL_CHILD || v < 256,
        b < 8,
        b2 < 8,
    ensures
        with_bit(v, b) < 256,
        bit_set(with_bit(v, b), b2) == (b2 == b || bit_set(v, b2)),
{
    let w: u16 = if v == NULL_CHILD {
        0u16
    } else {
        v
    };
    assert(w < 256);
    assert((w | (1u16 << b)) < 256 && (((w | (1u16 << b)) >> b2) & 1u16 == 1u16 <==> (b2 == b || (w
        >> b2) & 1u16 == 1u16))) by (bit_vector)
        requires
            w < 256,
            b < 8,
            b2 < 8,
    ;
    assert((0u16 >> b2) & 1u16 == 0u16) by (bit_vector);
}

/// `p` and all its prefixes, the empty one included.
pub open spec fn prefixes_of(p: Seq<int>) -> Set<Seq<int>> {
    Set::new(|s: Seq<int>| s.len() <= p.len() && s == p.take(s.len() as int))
}

/// How far down the path `p`, from step `i`, the set `dom` keeps recording
/// prefixes.
pub open spec fn reach_from(dom: Set<Seq<int>>, p: Seq<int>, i: int) -> int
    decreases p.len() - i,
{
    if 0 <= i < p.len() && dom.contains(p.take(i + 1)) {
        reach_from(dom, p, i + 1)
    } else {
        i
    }
}

/// A set of paths closed under taking prefixes holds every prefix of each
/// of its paths.
proof fn lemma_prefixes(dom: Set<Seq<int>>, p: Seq<int>, j: int)
    requires
        forall|s: Seq<int>| #[trigger] dom.contains(s) && s.len() > 0 ==> dom.contains(s.drop_last()),
        dom.contains(p),
        0 <= j <= p.len(),
    ensures
        dom.contains(p.take(j)),
    decreases p.len() - j,
{
    if j < p.len() {
        lemma_prefixes(dom, p, j + 1);
        assert(p.take(j + 1).drop_last() =~= p.take(j));
    } else {
        assert(p.take(j) =~= p);
    }
}

/// The prefixes of `p` that a prefix-closed `dom` holds are exactly those up
/// to `reach_from(dom, p, i)`.
proof fn lemma_reach(dom: Set<Seq<int>>, p: Seq<int>, i: int)
    requires
        forall|s: Seq<int>| #[trigger] dom.contains(s) && s.len() > 0 ==> dom.contains(s.drop_last()),
        0 <= i <= p.len(),
        dom.contains(p.take(i)),
    ensures
        i <= reach_from(dom, p, i) <= p.len(),
        forall|j: int| i <= j <= reach_from(dom, p, i) ==> dom.contains(#[trigger] p.take(j)),
        forall|j: int| reach_from(dom, p, i) < j <= p.len() ==> !dom.contains(#[trigger] p.take(j)),
    decreases p.len() - i,
{
    let r = reach_from(dom, p, i);
    if i < p.len() && dom.contains(p.take(i + 1)) {
        lemma_reach(dom, p, i + 1);
    } else {
        assert forall|j: int| r < j <= p.len() implies !dom.contains(#[trigger] p.take(j)) by {
            if dom.contains(p.take(j)) {
                lemma_prefixes(dom, p.take(j), i + 1);
                assert(p.take(j).take(i + 1) =~= p.take(i + 1));
            }
        }
    }
}

/// Adding the prefixes of `p` to a set that holds exactly its first `r0 + 1`
/// prefixes adds `p.len() - r0` paths.
proof fn lemma_union_prefixes(dom: Set<Seq<int>>, p: Seq<int>, r0: int)
    requires
        dom.finite(),
        0 <= r0 <= p.len(),
        forall|j: int| 0 <= j <= r0 ==> dom.contains(#[trigger] p.take(j)),
        forall|j: int| r0 < j <= p.len() ==> !dom.contains(#[trigger] p.take(j)),
    ensures
        (dom + prefixes_of(p)).finite(),
        (dom + prefixes_of(p)).len() == dom.len() + p.len() - r0,
{
    let extra = Set::new(|s: Seq<int>| r0 < s.len() <= p.len() && s == p.take(s.len() as int));
    let range = set_int_range(r0 + 1, p.len() as int + 1);
    lemma_int_range(r0 + 1, p.len() as int + 1);
    let f = |j: int| p.take(j);
    assert forall|s: Seq<int>| extra.contains(s) implies range.map(f).contains(s) by {
        assert(range.contains(s.len() as int) && f(s.len() as int) == s);
    }
    assert forall|s: Seq<int>| range.map(f).contains(s) implies extra.contains(s) by {
        let j = choose|j: int| range.contains(j) && f(j) == s;
        assert(s.len() == j);
    }
    assert(range.map(f) =~= extra);
    assert forall|j1: int, j2: int|
        range.contains(j1) && range.contains(j2) && #[trigger] f(j1) == #[trigger] f(j2) implies j1
        == j2 by {
        assert(f(j1).len() == j1 && f(j2).len() == j2);
    }
    lemma_map_size(range, extra, f);
    assert forall|s: Seq<int>| (dom + prefixes_of(p)).contains(s) implies (dom + extra).contains(s) by {
        if !dom.contains(s) && s.len() <= r0 && prefixes_of(p).contains(s) {
            assert(dom.contains(p.take(s.len() as int)));
        }
    }
    assert(dom + prefixes_of(p) =~= dom + extra);
    assert(dom.disjoint(extra));
    lemma_set_disjoint_lens(dom, extra);
}

/// The voxel at `c` of `map` is occupied: it lies in the map and does not hold 255.
pub open spec fn occupied_in(map: Map3D<u8>, c: [usize; 3]) -> bool {
    in_cube(c, map.side()) && map.cell(c) != 255
}

/// `c` comes before `(x, y, z)` in the order in which a map is scanned: the
/// first axis slowest, the third fastest.
pub open spec fn scanned_before(c: [usize; 3], x: int, y: int, z: int) -> bool {
    c[0] < x || (c[0] == x && c[1] < y) || (c[0] == x && c[1] == y && c[2] < z)
}

/// The empty path, and every prefix of the path of an occupied voxel of `map`
/// scanned before `(x, y, z)`, in a tree of magnitude `m`.
pub open spec fn paths_before(map: Map3D<u8>, m: usize, x: int, y: int, z: int) -> Set<Seq<int>> {
    Set::new(
        |s: Seq<int>|
            s.len() == 0 || exists|c: [usize; 3]|
                occupied_in(map, c) && scanned_before(c, x, y, z) && #[trigger] prefixes_of(
                    path_of(c, m),
                ).contains(s),
    )
}

/// The paths that a tree of magnitude `m` holding the occupied voxels of
/// `map` records: one octuple each.
pub open spec fn map_paths(map: Map3D<u8>, m: usize) -> Set<Seq<int>> {
    paths_before(map, m, map.side(), 0, 0)
}

/// A sparse octree over the cube `[0, 2^magnitude)³`.
pub struct OctreeTexture {
    data: Map3D<Octant>,
    magnitude: usize,
    count: usize,
    /// Which octuple stands for each path of child indices from the root.
    nodes: Ghost<Map<Seq<int>, nat>>,
}

impl OctreeTexture {
    /// Side of the domain is `2^magnitude()`.
    pub closed spec fn magnitude(&self) -> usize {
        self.magnitude
    }

    /// Number of octuples handed out so far, the root included.
    pub closed spec fn node_count(&self) -> nat {
        self.count as nat
    }

    /// Paths of child indices, from the root, that have an octuple of their own.
    pub closed spec fn recorded_paths(&self) -> Set<Seq<int>> {
        self.nodes@.dom()
    }

    /// Cells of the pool, in storage order.
    pub closed spec fn pool(&self) -> Seq<Octant> {
        self.data@
    }

    /// Child `x` of octuple `k`.
    spec fn node_cell(&self, k: int, x: int) -> u16 {
        self.data.cell_at(cell_of(oct_of(k), x)).0
    }

    /// Number of branch levels of this tree.
    spec fn levels(&self) -> int {
        branch_levels(self.magnitude)
    }

    /// The pool holds a tree: each path of child indices that the tree
    /// records has its own octuple, its parent's cell points at it, an
    /// absent child is `NULL_CHILD`, packed leaf cells use eight bits, and
    /// the octuples not yet handed out are empty.
    pub closed spec fn wf(&self) -> bool {
        let nodes = self.nodes@;
        let l = self.levels();
        &&& self.data.wf()
        &&& self.data.side() == OCTUPLE_DATA_MAP_SIZE
        &&& self.magnitude < 32
        &&& 1 <= self.count <= OCTUPLE_CAPACITY
        &&& nodes.contains_key(Seq::empty())
        &&& nodes[Seq::empty()] == 0
        &&& nodes.dom().finite()
        &&& nodes.dom().len() == self.count
        &&& forall|p: Seq<int>|
            #[trigger] nodes.contains_key(p) ==> {
                &&& p.len() <= l
                &&& forall|i: int| 0 <= i < p.len() ==> 0 <= #[trigger] p[i] < 8
                &&& nodes[p] < self.count
            }
        &&& forall|p: Seq<int>, q: Seq<int>|
            #[trigger] nodes.contains_key(p) && #[trigger] nodes.contains_key(q) && nodes[p]
                == nodes[q] ==> p == q
        &&& forall|p: Seq<int>, x: int|
            nodes.contains_key(p) && p.len() < l && 0 <= x < 8 ==> {
                &&& (#[trigger] self.node_cell(nodes[p] as int, x) == NULL_CHILD
                    <==> !nodes.contains_key(p.push(x)))
                &&& nodes.contains_key(p.push(x)) ==> self.node_cell(nodes[p] as int, x) as int
                    == encode(oct_of(nodes[p.push(x)] as int))
            }
        &&& forall|p: Seq<int>, x: int|
            nodes.contains_key(p) && p.len() == l && 0 <= x < 8 ==> (#[trigger] self.node_cell(
                nodes[p] as int,
                x,
            ) == NULL_CHILD || self.node_cell(nodes[p] as int, x) < 256)
        &&& forall|k: int, x: int|
            self.count <= k < OCTUPLE_CAPACITY && 0 <= x < 8 ==> #[trigger] self.node_cell(k, x)
                == NULL_CHILD
        &&& forall|p: Seq<int>|
            #[trigger] nodes.contains_key(p) && p.len() > 0 ==> nodes.contains_key(p.drop_last())
    }

    /// The voxel at `c` is occupied.
    pub closed spec fn contains(&self, c: [usize; 3]) -> bool {
        let p = path_of(c, self.magnitude);
        &&& in_domain(c, self.magnitude)
        &&& self.nodes@.contains_key(p)
        &&& bit_set(
            self.node_cell(self.nodes@[p] as int, child_at(c, 1) as int),
            child_at(c, 0),
        )
    }

    /// After one cell of the pool changes, only the child that the cell
    /// holds reads differently.
    proof fn lemma_node_cell_frame(a: Self, b: Self, k: int, x: int, v: u16)
        requires
            a.data.wf(),
            a.data.side() == OCTUPLE_DATA_MAP_SIZE,
            b.data.side() == OCTUPLE_DATA_MAP_SIZE,
            oct_ok(k),
            0 <= x < 8,
            forall|t: (int, int, int)|
                #![trigger b.data.cell_at(t)]
                in_box(t, cube(OCTUPLE_DATA_MAP_SIZE as int)) ==> b.data.cell_at(t) == if t == cell_of(
                    oct_of(k),
                    x,
                ) {
                    Octant(v)
                } else {
                    a.data.cell_at(t)
                },
        ensures
            forall|k2: int, x2: int|
                oct_ok(k2) && 0 <= x2 < 8 ==> #[trigger] b.node_cell(k2, x2) == if k2 == k && x2 == x {
                    v
                } else {
                    a.node_cell(k2, x2)
                },
    {
        assert forall|k2: int, x2: int| oct_ok(k2) && 0 <= x2 < 8 implies #[trigger] b.node_cell(
            k2,
            x2,
        ) == if k2 == k && x2 == x {
            v
        } else {
            a.node_cell(k2, x2)
        } by {
            lemma_cell_of_in_pool(k2, x2);
            if cell_of(oct_of(k2), x2) == cell_of(oct_of(k), x) {
                lemma_cell_of_injective(k2, x2, k, x);
            }
        }
    }

    /// Handing out a fresh octuple for the absent child `x` of the node at
    /// path `q`, and pointing that child at it, keeps the tree well formed
    /// and the occupied voxels as they were.
    proof fn lemma_alloc_step(a: Self, b: Self, q: Seq<int>, x: int)
        requires
            a.wf(),
            a.nodes@.contains_key(q),
            q.len() < a.levels(),
            0 <= x < 8,
            !a.nodes@.contains_key(q.push(x)),
            a.count < OCTUPLE_CAPACITY,
            b.magnitude == a.magnitude,
            b.count == a.count + 1,
            b.nodes@ == a.nodes@.insert(q.push(x), a.count as nat),
            b.data.wf(),
            b.data.side() == OCTUPLE_DATA_MAP_SIZE,
            forall|t: (int, int, int)|
                #![trigger b.data.cell_at(t)]
                in_box(t, cube(OCTUPLE_DATA_MAP_SIZE as int)) ==> b.data.cell_at(t) == if t == cell_of(
                    oct_of(a.nodes@[q] as int),
                    x,
                ) {
                    Octant(encode(oct_of(a.count as int)) as u16)
                } else {
                    a.data.cell_at(t)
                },
        ensures
            b.wf(),
            forall|c: [usize; 3]| #[trigger] b.contains(c) == a.contains(c),
    {
        let an = a.nodes@;
        let bn = b.nodes@;
        let l = a.levels();
        let kq = an[q] as int;
        let knew = a.count as int;
        let ptr = encode(oct_of(knew)) as u16;
        lemma_oct_of(knew);
        Self::lemma_node_cell_frame(a, b, kq, x, ptr);
        let qx = q.push(x);
        assert(qx.drop_last() =~= q);
        assert(bn.dom() =~= an.dom().insert(qx));
        assert forall|p: Seq<int>| #[trigger] bn.contains_key(p) implies {
            &&& p.len() <= l
            &&& forall|i: int| 0 <= i < p.len() ==> 0 <= #[trigger] p[i] < 8
            &&& bn[p] < b.count
        } by {
            if p == qx {
                assert forall|i: int| 0 <= i < p.len() implies 0 <= #[trigger] p[i] < 8 by {
                    if i < q.len() {
                        assert(p[i] == q[i]);
                    }
                }
            }
        }
        assert forall|p: Seq<int>, s: Seq<int>|
            #[trigger] bn.contains_key(p) && #[trigger] bn.contains_key(s) && bn[p] == bn[s] implies p
            == s by {
            if p != qx && s != qx {
                assert(an.contains_key(p) && an.contains_key(s));
            } else if p != qx {
                assert(an.contains_key(p));
            } else if s != qx {
                assert(an.contains_key(s));
            }
        }
        assert forall|p: Seq<int>, x2: int| bn.contains_key(p) && p.len() < l && 0 <= x2 < 8 implies {
            &&& (#[trigger] b.node_cell(bn[p] as int, x2) == NULL_CHILD <==> !bn.contains_key(
                p.push(x2),
            ))
            &&& bn.contains_key(p.push(x2)) ==> b.node_cell(bn[p] as int, x2) as int == encode(
                oct_of(bn[p.push(x2)] as int),
            )
        } by {
            assert(p.push(x2).drop_last() =~= p);
            if p == qx {
                assert(b.node_cell(knew, x2) == a.node_cell(knew, x2));
                if an.contains_key(p.push(x2)) {
                    assert(an.contains_key(p.push(x2).drop_last()));
                }
                assert(p.push(x2) != qx);
            } else {
                assert(an.contains_key(p));
                if p.push(x2) == qx {
                    assert(p =~= p.push(x2).drop_last());
                    assert(p.push(x2).last() == x2 && qx.last() == x);
                } else {
                    if an[p] as int == kq && x2 == x {
                        assert(p == q);
                    }
                }
            }
        }
        assert forall|p: Seq<int>, x2: int| bn.contains_key(p) && p.len() == l && 0 <= x2 < 8 implies (
        #[trigger] b.node_cell(bn[p] as int, x2) == NULL_CHILD || b.node_cell(bn[p] as int, x2)
            < 256) by {
            if p == qx {
                assert(b.node_cell(knew, x2) == a.node_cell(knew, x2));
            } else {
                assert(an.contains_key(p));
                if an[p] as int == kq {
                    assert(p == q);
                }
            }
        }
        assert forall|k: int, x2: int| b.count <= k < OCTUPLE_CAPACITY && 0 <= x2 < 8 implies #[trigger] b.node_cell(
            k,
            x2,
        ) == NULL_CHILD by {
            assert(b.node_cell(k, x2) == a.node_cell(k, x2));
        }
        assert forall|p: Seq<int>| #[trigger] bn.contains_key(p) && p.len() > 0 implies bn.contains_key(
            p.drop_last(),
        ) by {
            if p != qx {
                assert(an.contains_key(p));
            }
        }
        assert(bn.contains_key(Seq::empty()) && bn[Seq::empty()] == 0) by {
            assert(Seq::<int>::empty() != qx);
        }
        assert forall|c: [usize; 3]| #[trigger] b.contains(c) == a.contains(c) by {
            let pc = path_of(c, a.magnitude);
            lemma_child_at_range(c, 1);
            let x1 = child_at(c, 1) as int;
            if pc == qx {
                assert(b.node_cell(knew, x1) == a.node_cell(knew, x1));
            } else if an.contains_key(pc) {
                if an[pc] as int == kq {
                    assert(pc == q);
                }
                assert(b.node_cell(bn[pc] as int, x1) == a.node_cell(an[pc] as int, x1));
            }
        }
    }

    /// Setting the bit of voxel `c` in its packed leaf cell keeps the tree
    /// well formed and adds exactly `c` to the occupied voxels.
    proof fn lemma_bit_step(a: Self, b: Self, c: [usize; 3])
        requires
            a.wf(),
            in_domain(c, a.magnitude),
            a.nodes@.contains_key(path_of(c, a.magnitude)),
            b.magnitude == a.magnitude,
            b.count == a.count,
            b.nodes == a.nodes,
            b.data.wf(),
            b.data.side() == OCTUPLE_DATA_MAP_SIZE,
            forall|t: (int, int, int)|
                #![trigger b.data.cell_at(t)]
                in_box(t, cube(OCTUPLE_DATA_MAP_SIZE as int)) ==> b.data.cell_at(t) == if t == cell_of(
                    oct_of(a.nodes@[path_of(c, a.magnitude)] as int),
                    child_at(c, 1) as int,
                ) {
                    Octant(with_bit(a.data.cell_at(t).0, child_at(c, 0)))
                } else {
                    a.data.cell_at(t)
                },
        ensures
            b.wf(),
            forall|c2: [usize; 3]| #[trigger] b.contains(c2) == (a.contains(c2) || triple(c2) == triple(c)),
    {
        let n = a.nodes@;
        let l = a.levels();
        let pc = path_of(c, a.magnitude);
        let k = n[pc] as int;
        lemma_child_at_range(c, 1);
        lemma_child_at_range(c, 0);
        let x1 = child_at(c, 1) as int;
        let b0 = child_at(c, 0);
        let old_v = a.node_cell(k, x1);
        let new_v = with_bit(old_v, b0);
        lemma_cell_of_in_pool(k, x1);
        Self::lemma_node_cell_frame(a, b, k, x1, new_v);
        lemma_with_bit(old_v, b0, b0);
        assert forall|p: Seq<int>, x2: int| n.contains_key(p) && p.len() < l && 0 <= x2 < 8 implies {
            &&& (#[trigger] b.node_cell(n[p] as int, x2) == NULL_CHILD <==> !n.contains_key(
                p.push(x2),
            ))
            &&& n.contains_key(p.push(x2)) ==> b.node_cell(n[p] as int, x2) as int == encode(
                oct_of(n[p.push(x2)] as int),
            )
        } by {
            if n[p] as int == k {
                assert(p == pc);
            }
        }
        assert forall|p: Seq<int>, x2: int| n.contains_key(p) && p.len() == l && 0 <= x2 < 8 implies (
        #[trigger] b.node_cell(n[p] as int, x2) == NULL_CHILD || b.node_cell(n[p] as int, x2)
            < 256) by {}
        assert forall|kk: int, x2: int| b.count <= kk < OCTUPLE_CAPACITY && 0 <= x2 < 8 implies #[trigger] b.node_cell(
            kk,
            x2,
        ) == NULL_CHILD by {}
        assert forall|c2: [usize; 3]| #[trigger] b.contains(c2) == (a.contains(c2) || triple(c2)
            == triple(c)) by {
            let path2 = path_of(c2, a.magnitude);
            lemma_child_at_range(c2, 1);
            lemma_child_at_range(c2, 0);
            let y1 = child_at(c2, 1) as int;
            let y0 = child_at(c2, 0);
            if triple(c2) == triple(c) {
                crate::map_3d::lemma_triple_injective(c2, c);
            }
            if in_domain(c2, a.magnitude) && n.contains_key(path2) {
                if n[path2] as int == k && y1 == x1 {
                    assert(path2 == pc);
                    lemma_with_bit(old_v, b0, y0);
                    if y0 == b0 {
                        lemma_path_determines_coords(c2, c, a.magnitude);
                    }
                } else {
                    assert(b.node_cell(n[path2] as int, y1) == a.node_cell(n[path2] as int, y1));
                }
            }
        }
    }

    /// The recorded paths are finite, one per octuple handed out, and hold
    /// the root's empty path.
    pub proof fn lemma_recorded_paths(&self)
        requires
            self.wf(),
        ensures
            self.recorded_paths().finite(),
            self.recorded_paths().len() == self.node_count(),
            self.node_count() <= OCTUPLE_CAPACITY,
            self.recorded_paths().contains(Seq::empty()),
    {
    }

    /// Inserting a voxel hands out at most one octuple per branch level, and
    /// none for a voxel already occupied.
    pub proof fn lemma_missing(&self, c: [usize; 3])
        requires
            self.wf(),
        ensures
            self.missing(c) <= branch_levels(self.magnitude()),
            self.contains(c) ==> self.missing(c) == 0,
    {
        let p = path_of(c, self.magnitude);
        assert(p.take(0) =~= Seq::<int>::empty());
        lemma_reach(self.nodes@.dom(), p, 0);
        if self.contains(c) {
            assert(p.take(p.len() as int) =~= p);
        }
    }

    /// An empty tree over `[0, 2^magnitude)³`: only the root octuple is handed out.
    pub fn new(magnitude: usize) -> (r: Self)
        requires
            magnitude < 32,
        ensures
            r.wf(),
            r.magnitude() == magnitude,
            r.node_count() == 1,
            r.recorded_paths() == Set::<Seq<int>>::empty().insert(Seq::empty()),
            forall|c: [usize; 3]| !r.contains(c),
    {
        let data = Map3D::new_with_default(OCTUPLE_DATA_MAP_SIZE, Octant::default());
        let r = Self {
            data,
            magnitude,
            count: 1,
            nodes: Ghost(Map::empty().insert(Seq::empty(), 0nat)),
        };
        proof {
            assert forall|k: int, x: int| oct_ok(k) && 0 <= x < 8 implies #[trigger] r.node_cell(k, x)
                == NULL_CHILD by {
                lemma_cell_of_in_pool(k, x);
                lemma_box_coords_of_index(cell_of(oct_of(k), x), cube(OCTUPLE_DATA_MAP_SIZE as int));
            }
            assert forall|p: Seq<int>| #[trigger] r.nodes@.contains_key(p) implies p == Seq::<int>::empty() by {}
            assert(r.nodes@.dom() =~= Set::empty().insert(Seq::<int>::empty()));
            assert forall|c: [usize; 3]| !r.contains(c) by {
                lemma_child_at_range(c, 1);
                assert(oct_ok(0));
            }
        }
        r
    }

    /// Number of the path's leading prefixes that the tree already records,
    /// subtracted from the number of branch levels: the octuples that
    /// inserting `c` hands out.
    pub closed spec fn missing(&self, c: [usize; 3]) -> nat {
        (self.levels() - reach_from(self.nodes@.dom(), path_of(c, self.magnitude), 0)) as nat
    }

    /// Whether the voxel at `coords` is occupied.
    pub fn get(&self, coords: [usize; 3]) -> (r: bool)
        requires
            self.wf(),
            in_domain(coords, self.magnitude()),
        ensures
            r == self.contains(coords),
    {
        let ghost m = self.magnitude;
        let ghost p = path_of(coords, m);
        let ghost l = self.levels();
        let ghost n = self.nodes@;
        let mut octuple_coords: [usize; 3] = [0usize, 0usize, 0usize];
        let mut depth = self.magnitude;
        proof {
            assert(p.take(0) =~= Seq::<int>::empty());
            lemma_box_coords_of_index((0, 0, 0), cube(9));
        }
        while depth > 2
            invariant
                self.wf(),
                m == self.magnitude,
                n == self.nodes@,
                in_domain(coords, m),
                p == path_of(coords, m),
                l == branch_levels(m),
                depth <= m,
                m >= 2 ==> depth >= 2,
                m < 2 ==> depth == m,
                n.contains_key(p.take(l - branch_levels(depth))),
                triple(octuple_coords) == oct_of(n[p.take(l - branch_levels(depth))] as int),
            decreases depth,
        {
            let ghost i = l - branch_levels(depth);
            let ghost q = p.take(i);
            proof {
                lemma_oct_of(n[q] as int);
            }
            depth = depth - 1;
            let child_index = Self::infer_child_index(coords, depth);
            assert(p[i] == child_index as int);
            assert(q.push(child_index as int) =~= p.take(i + 1));
            let ghost cell = self.node_cell(n[q] as int, child_index as int);
            assert(cell == NULL_CHILD <==> !n.contains_key(p.take(i + 1)));
            if self.d_is_child_null(octuple_coords, child_index) {
                proof {
                    if n.contains_key(p) {
                        lemma_prefixes(n.dom(), p, i + 1);
                    }
                }
                return false;
            }
            octuple_coords = self.d_get_child_usize(octuple_coords, child_index);
            proof {
                lemma_oct_of(n[p.take(i + 1)] as int);
                lemma_decode_encode(oct_of(n[p.take(i + 1)] as int));
            }
        }
        assert(p.take(l) =~= p);
        proof {
            lemma_oct_of(n[p] as int);
        }
        let child_index = Self::infer_child_index(coords, 1);
        let sub_child_index = Self::infer_child_index(coords, 0);
        self.d_get_child_volume(octuple_coords, child_index, sub_child_index)
    }

    /// Marks the voxel at `coords` occupied, handing out the octuples that
    /// its path still lacks. Refuses a coordinate outside the domain, and an
    /// insertion that needs more octuples than the pool has left; in that
    /// case the octuples handed out before the pool ran dry stay, empty, and
    /// no voxel changes.
    pub fn insert(&mut self, coords: [usize; 3]) -> (r: Result<(), OctreeError>)
        requires
            old(self).wf(),
        ensures
            final(self).wf(),
            final(self).magnitude() == old(self).magnitude(),
            final(self).node_count() >= old(self).node_count(),
            final(self).node_count() <= OCTUPLE_CAPACITY,
            old(self).contains(coords) ==> final(self).node_count() == old(self).node_count(),
            (r == Err::<(), OctreeError>(OctreeError::OutOfRange)) == !in_domain(coords, old(self).magnitude()),
            (r == Err::<(), OctreeError>(OctreeError::PoolExhausted)) == (in_domain(coords, old(self).magnitude())
                && old(self).node_count() + old(self).missing(coords) > OCTUPLE_CAPACITY),
            r is Ok ==> final(self).node_count() == old(self).node_count() + old(self).missing(coords),
            r is Ok ==> forall|c: [usize; 3]|
                #[trigger] final(self).contains(c) == (old(self).contains(c) || triple(c) == triple(coords)),
            r is Err ==> forall|c: [usize; 3]| #[trigger] final(self).contains(c) == old(self).contains(c),
            in_domain(coords, old(self).magnitude()) ==> {
                &&& (old(self).recorded_paths() + prefixes_of(path_of(coords, old(self).magnitude()))).finite()
                &&& (old(self).recorded_paths() + prefixes_of(path_of(coords, old(self).magnitude()))).len()
                    == old(self).node_count() + old(self).missing(coords)
            },
            r is Ok ==> final(self).recorded_paths() == old(self).recorded_paths() + prefixes_of(
                path_of(coords, old(self).magnitude()),
            ),
    {
        if (coords[0] >> self.magnitude) != 0 || (coords[1] >> self.magnitude) != 0 || (coords[2]
            >> self.magnitude) != 0 {
            return Err(OctreeError::OutOfRange);
        }
        let ghost a = *self;
        let ghost m = self.magnitude;
        let ghost p = path_of(coords, m);
        let ghost l = self.levels();
        let ghost n0 = self.nodes@;
        let ghost r0 = reach_from(n0.dom(), p, 0);
        proof {
            assert(p.take(0) =~= Seq::<int>::empty());
            lemma_reach(n0.dom(), p, 0);
            lemma_box_coords_of_index((0, 0, 0), cube(9));
            lemma_union_prefixes(n0.dom(), p, r0);
        }
        let mut octuple_coords: [usize; 3] = [0usize, 0usize, 0usize];
        let mut depth = self.magnitude;
        while depth > 2
            invariant
                self.wf(),
                a.wf(),
                a == *old(self),
                m == self.magnitude,
                m == a.magnitude,
                in_domain(coords, m),
                p == path_of(coords, m),
                l == branch_levels(m),
                l == a.levels(),
                depth <= m,
                m >= 2 ==> depth >= 2,
                m < 2 ==> depth == m,
                n0 == a.nodes@,
                r0 == reach_from(n0.dom(), p, 0),
                0 <= r0 <= l,
                (n0.dom() + prefixes_of(p)).finite(),
                (n0.dom() + prefixes_of(p)).len() == a.count + l - r0,
                forall|j: int| 0 <= j <= r0 ==> n0.contains_key(#[trigger] p.take(j)),
                forall|j: int| r0 < j <= l ==> !n0.contains_key(#[trigger] p.take(j)),
                self.nodes@.contains_key(p.take(l - branch_levels(depth))),
                triple(octuple_coords) == oct_of(self.nodes@[p.take(l - branch_levels(depth))] as int),
                forall|s: Seq<int>|
                    #[trigger] self.nodes@.contains_key(s) <==> (n0.contains_key(s) || (r0 < s.len()
                        <= l - branch_levels(depth) && s == p.take(s.len() as int))),
                self.count == a.count + if l - branch_levels(depth) > r0 {
                    l - branch_levels(depth) - r0
                } else {
                    0
                },
                forall|c: [usize; 3]| #[trigger] self.contains(c) == a.contains(c),
            decreases depth,
        {
            let ghost i = l - branch_levels(depth);
            let ghost q = p.take(i);
            proof {
                lemma_oct_of(self.nodes@[q] as int);
            }
            depth = depth - 1;
            let child_index = Self::infer_child_index(coords, depth);
            assert(p[i] == child_index as int);
            assert(q.push(child_index as int) =~= p.take(i + 1));
            let ghost cell = self.node_cell(self.nodes@[q] as int, child_index as int);
            assert(cell == NULL_CHILD <==> !self.nodes@.contains_key(p.take(i + 1)));
            if self.d_is_child_null(octuple_coords, child_index) {
                assert(!n0.contains_key(p.take(i + 1)));
                if self.count >= OCTUPLE_CAPACITY {
                    return Err(OctreeError::PoolExhausted);
                }
                let ghost before = *self;
                let new_location = self.d_allocate_octuple();
                self.d_set_child(octuple_coords, child_index, new_location);
                self.nodes = Ghost(self.nodes@.insert(p.take(i + 1), before.count as nat));
                proof {
                    Self::lemma_alloc_step(before, *self, q, child_index as int);
                    assert forall|s: Seq<int>|
                        #[trigger] self.nodes@.contains_key(s) <==> (n0.contains_key(s) || (r0
                            < s.len() <= i + 1 && s == p.take(s.len() as int))) by {
                        if s.len() == i + 1 && s == p.take(s.len() as int) {
                            assert(s == p.take(i + 1));
                        }
                    }
                }
            }
            octuple_coords = self.d_get_child_usize(octuple_coords, child_index);
            proof {
                lemma_oct_of(self.nodes@[p.take(i + 1)] as int);
                lemma_decode_encode(oct_of(self.nodes@[p.take(i + 1)] as int));
            }
        }
        assert(p.take(l) =~= p);
        proof {
            lemma_oct_of(self.nodes@[p] as int);
        }
        let child_index = Self::infer_child_index(coords, 1);
        let sub_child_index = Self::infer_child_index(coords, 0);
        let ghost before = *self;
        self.d_set_child_volume(octuple_coords, child_index, sub_child_index);
        proof {
            Self::lemma_bit_step(before, *self, coords);
            if a.contains(coords) {
                assert(n0.contains_key(p.take(l)));
            }
            assert forall|t: Seq<int>| #[trigger] self.nodes@.dom().contains(t) == (n0.dom() + prefixes_of(p)).contains(t) by {
                if prefixes_of(p).contains(t) && t.len() <= r0 {
                    assert(n0.contains_key(p.take(t.len() as int)));
                }
            }
            assert(self.nodes@.dom() =~= n0.dom() + prefixes_of(p));
        }
        Ok(())
    }

    /// A tree over `[0, 2^magnitude)³` in which exactly the voxels of `map`
    /// that do not hold 255 are occupied. It is built when the octuples that
    /// those voxels need, one per path in `map_paths`, fit in the pool.
    pub fn new_from_map(map: &Map3D<u8>, magnitude: usize) -> (r: Result<Self, OctreeError>)
        requires
            map.wf(),
            magnitude < 32,
            forall|c: [usize; 3]| in_cube(c, map.side()) ==> in_domain(c, magnitude),
        ensures
            r matches Ok(t) ==> {
                &&& t.wf()
                &&& t.magnitude() == magnitude
                &&& forall|c: [usize; 3]|
                    #[trigger] t.contains(c) == (in_cube(c, map.side()) && map.cell(c) != 255)
                &&& t.recorded_paths() == map_paths(*map, magnitude)
                &&& t.node_count() == map_paths(*map, magnitude).len()
                &&& map_paths(*map, magnitude).finite()
                &&& map_paths(*map, magnitude).len() <= OCTUPLE_CAPACITY
            },
            r matches Err(e) ==> {
                &&& e == OctreeError::PoolExhausted
                &&& exists|s: Set<Seq<int>>|
                    s.finite() && s.len() > OCTUPLE_CAPACITY && #[trigger] s.subset_of(
                        map_paths(*map, magnitude),
                    )
            },
    {
        let mut oct_text = Self::new(magnitude);
        let ghost mp = *map;
        proof {
            assert forall|t: Seq<int>| #[trigger] paths_before(mp, magnitude, 0, 0, 0).contains(t)
                implies t == Seq::<int>::empty() by {
                assert(t =~= Seq::<int>::empty());
            }
            assert(oct_text.recorded_paths() =~= paths_before(mp, magnitude, 0, 0, 0));
        }
        let length = map.length();
        let mut x: usize = 0;
        while x < length
            invariant
                map.wf(),
                mp == *map,
                length == map.side(),
                x <= length,
                oct_text.wf(),
                oct_text.magnitude() == magnitude,
                forall|c: [usize; 3]| in_cube(c, map.side()) ==> in_domain(c, magnitude),
                forall|c: [usize; 3]|
                    #[trigger] oct_text.contains(c) == (in_cube(c, map.side()) && map.cell(c) != 255
                        && c[0] < x),
                oct_text.recorded_paths() == paths_before(mp, magnitude, x as int, 0, 0),
            decreases length - x,
        {
            let mut y: usize = 0;
            while y < length
                invariant
                    map.wf(),
                    mp == *map,
                    length == map.side(),
                    x < length,
                    y <= length,
                    oct_text.wf(),
                    oct_text.magnitude() == magnitude,
                    forall|c: [usize; 3]| in_cube(c, map.side()) ==> in_domain(c, magnitude),
                    forall|c: [usize; 3]|
                        #[trigger] oct_text.contains(c) == (in_cube(c, map.side()) && map.cell(c) != 255
                            && (c[0] < x || (c[0] == x && c[1] < y))),
                    oct_text.recorded_paths() == paths_before(mp, magnitude, x as int, y as int, 0),
                decreases length - y,
            {
                let mut z: usize = 0;
                while z < length
                    invariant
                        map.wf(),
                        mp == *map,
                        length == map.side(),
                        x < length,
                        y < length,
                        z <= length,
                        oct_text.wf(),
                        oct_text.magnitude() == magnitude,
                        forall|c: [usize; 3]| in_cube(c, map.side()) ==> in_domain(c, magnitude),
                        forall|c: [usize; 3]|
                            #[trigger] oct_text.contains(c) == (in_cube(c, map.side()) && map.cell(c)
                                != 255 && (c[0] < x || (c[0] == x && c[1] < y) || (c[0] == x && c[1]
                                == y && c[2] < z))),
                        oct_text.recorded_paths() == paths_before(
                            mp,
                            magnitude,
                            x as int,
                            y as int,
                            z as int,
                        ),
                    decreases length - z,
                {
                    let coords = [x, y, z];
                    let ghost before = oct_text;
                    let ghost pc = path_of(coords, magnitude);
                    let occupied = map.get(coords) != 255;
                    if occupied {
                        match oct_text.insert(coords) {
                            Ok(()) => {},
                            Err(e) => {
                                proof {
                                    let s = before.recorded_paths() + prefixes_of(pc);
                                    Self::lemma_paths_before_in_map(mp, magnitude, x as int, y as int, z as int);
                                    assert forall|t: Seq<int>| s.contains(t) implies map_paths(mp, magnitude).contains(t) by {
                                        if prefixes_of(pc).contains(t) {
                                            assert(occupied_in(mp, coords) && scanned_before(coords, mp.side(), 0, 0));
                                        }
                                    }
                                    assert(s.subset_of(map_paths(mp, magnitude)));
                                }
                                return Err(e);
                            },
                        }
                    }
                    proof {
                        assert forall|c: [usize; 3]| #[trigger] oct_text.contains(c) == (in_cube(
                            c,
                            map.side(),
                        ) && map.cell(c) != 255 && (c[0] < x || (c[0] == x && c[1] < y) || (c[0]
                            == x && c[1] == y && c[2] < z + 1))) by {
                            if triple(c) == triple(coords) {
                                crate::map_3d::lemma_triple_injective(c, coords);
                            }
                        }
                        let next = paths_before(mp, magnitude, x as int, y as int, z + 1);
                        assert forall|t: Seq<int>| #[trigger] oct_text.recorded_paths().contains(t) == next.contains(t) by {
                            if next.contains(t) && t.len() != 0 {
                                let c = choose|c: [usize; 3]|
                                    occupied_in(mp, c) && scanned_before(c, x as int, y as int, z + 1)
                                        && #[trigger] prefixes_of(path_of(c, magnitude)).contains(t);
                                if !scanned_before(c, x as int, y as int, z as int) {
                                    assert(triple(c) == triple(coords));
                                    crate::map_3d::lemma_triple_injective(c, coords);
                                }
                            }
                            if occupied && prefixes_of(pc).contains(t) {
                                assert(occupied_in(mp, coords) && scanned_before(coords, x as int, y as int, z + 1));
                            }
                        }
                        assert(oct_text.recorded_paths() =~= next);
                    }
                    z = z + 1;
                }
                proof {
                    Self::lemma_paths_before_next_row(mp, magnitude, x as int, y as int);
                }
                y = y + 1;
            }
            proof {
                Self::lemma_paths_before_next_plane(mp, magnitude, x as int);
            }
            x = x + 1;
        }
        proof {
            oct_text.lemma_recorded_paths();
        }
        Ok(oct_text)
    }

    /// Every path recorded before a point of the scan is one of the map's paths.
    proof fn lemma_paths_before_in_map(map: Map3D<u8>, m: usize, x: int, y: int, z: int)
        requires
            map.wf(),
        ensures
            paths_before(map, m, x, y, z).subset_of(map_paths(map, m)),
    {
        assert forall|t: Seq<int>| paths_before(map, m, x, y, z).contains(t) implies map_paths(map, m).contains(t) by {
            if t.len() != 0 {
                let c = choose|c: [usize; 3]|
                    occupied_in(map, c) && scanned_before(c, x, y, z) && #[trigger] prefixes_of(
                        path_of(c, m),
                    ).contains(t);
                assert(scanned_before(c, map.side(), 0, 0));
            }
        }
    }

    /// The end of a row of the scan is the start of the next row.
    proof fn lemma_paths_before_next_row(map: Map3D<u8>, m: usize, x: int, y: int)
        ensures
            paths_before(map, m, x, y, map.side()) == paths_before(map, m, x, y + 1, 0),
    {
        assert forall|t: Seq<int>| #[trigger] paths_before(map, m, x, y, map.side()).contains(t)
            == paths_before(map, m, x, y + 1, 0).contains(t) by {
            if t.len() != 0 {
                if paths_before(map, m, x, y, map.side()).contains(t) {
                    let c = choose|c: [usize; 3]|
                        occupied_in(map, c) && scanned_before(c, x, y, map.side())
                            && #[trigger] prefixes_of(path_of(c, m)).contains(t);
                    assert(scanned_before(c, x, y + 1, 0));
                }
                if paths_before(map, m, x, y + 1, 0).contains(t) {
                    let c = choose|c: [usize; 3]|
                        occupied_in(map, c) && scanned_before(c, x, y + 1, 0) && #[trigger] prefixes_of(
                            path_of(c, m),
                        ).contains(t);
                    assert(scanned_before(c, x, y, map.side()));
                }
            }
        }
        assert(paths_before(map, m, x, y, map.side()) =~= paths_before(map, m, x, y + 1, 0));
    }

    /// The end of a plane of the scan is the start of the next plane.
    proof fn lemma_paths_before_next_plane(map: Map3D<u8>, m: usize, x: int)
        ensures
            paths_before(map, m, x, map.side(), 0) == paths_before(map, m, x + 1, 0, 0),
    {
        assert forall|t: Seq<int>| #[trigger] paths_before(map, m, x, map.side(), 0).contains(t)
            == paths_before(map, m, x + 1, 0, 0).contains(t) by {
            if t.len() != 0 {
                if paths_before(map, m, x, map.side(), 0).contains(t) {
                    let c = choose|c: [usize; 3]|
                        occupied_in(map, c) && scanned_before(c, x, map.side(), 0)
                            && #[trigger] prefixes_of(path_of(c, m)).contains(t);
                    assert(scanned_before(c, x + 1, 0, 0));
                }
                if paths_before(map, m, x + 1, 0, 0).contains(t) {
                    let c = choose|c: [usize; 3]|
                        occupied_in(map, c) && scanned_before(c, x + 1, 0, 0) && #[trigger] prefixes_of(
                            path_of(c, m),
                        ).contains(t);
                    assert(scanned_before(c, x, map.side(), 0));
                }
            }
        }
        assert(paths_before(map, m, x, map.side(), 0) =~= paths_before(map, m, x + 1, 0, 0));
    }

    /// Number of octuples handed out, the root included.
    pub fn total_nodes(&self) -> (r: usize)
        ensures
            r == self.node_count(),
    {
        self.count
    }

    /// All cells of the pool, in storage order.
    pub fn full_slice(&self) -> (r: &[Octant])
        ensures
            r@ == self.pool(),
    {
        self.data.full_slice()
    }

    /// Pool coordinates of child `child_index` of the octuple at `octuple_coords`.
    fn d_coords(&self, octuple_coords: [usize; 3], child_index: usize) -> (r: [usize; 3])
        requires
            in_box(triple(octuple_coords), cube(9)),
            child_index < 8,
        ensures
            triple(r) == cell_of(triple(octuple_coords), child_index as int),
            in_cube(r, OCTUPLE_DATA_MAP_SIZE as int),
    {
        let (o0, o1, o2) = (octuple_coords[0], octuple_coords[1], octuple_coords[2]);
        let x = child_index;
        assert((o0 << 1usize) | ((x >> 0usize) & 1usize) == 2 * o0 + x % 2 && (o1 << 1usize) | ((x
            >> 1usize) & 1usize) == 2 * o1 + (x / 2) % 2 && (o2 << 1usize) | ((x >> 2usize) & 1usize)
            == 2 * o2 + x / 4) by (bit_vector)
            requires
                o0 < 9,
                o1 < 9,
                o2 < 9,
                x < 8,
        ;
        [(o0 << 1) | ((x >> 0) & 1), (o1 << 1) | ((x >> 1) & 1), (o2 << 1) | ((x >> 2) & 1)]
    }

    fn d_get_child(&self, octuple_coords: [usize; 3], child_index: usize) -> (r: u16)
        requires
            self.data.wf(),
            self.data.side() == OCTUPLE_DATA_MAP_SIZE,
            in_box(triple(octuple_coords), cube(9)),
            child_index < 8,
        ensures
            r == self.data.cell_at(cell_of(triple(octuple_coords), child_index as int)).0,
    {
        self.data.get(self.d_coords(octuple_coords, child_index)).0
    }

    fn d_set_child(&mut self, octuple_coords: [usize; 3], child_index: usize, child: u16)
        requires
            old(self).data.wf(),
            old(self).data.side() == OCTUPLE_DATA_MAP_SIZE,
            in_box(triple(octuple_coords), cube(9)),
            child_index < 8,
        ensures
            final(self).data.wf(),
            final(self).data.side() == OCTUPLE_DATA_MAP_SIZE,
            final(self).magnitude == old(self).magnitude,
            final(self).count == old(self).count,
            final(self).nodes == old(self).nodes,
            forall|t: (int, int, int)|
                #![trigger final(self).data.cell_at(t)]
                in_box(t, cube(OCTUPLE_DATA_MAP_SIZE as int)) ==> final(self).data.cell_at(t) == if t
                    == cell_of(triple(octuple_coords), child_index as int) {
                    Octant(child)
                } else {
                    old(self).data.cell_at(t)
                },
    {
        let c = self.d_coords(octuple_coords, child_index);
        self.data.set(c, Octant(child));
    }

    fn d_is_child_null(&self, octuple_coords: [usize; 3], child_index: usize) -> (r: bool)
        requires
            self.data.wf(),
            self.data.side() == OCTUPLE_DATA_MAP_SIZE,
            in_box(triple(octuple_coords), cube(9)),
            child_index < 8,
        ensures
            r == (self.data.cell_at(cell_of(triple(octuple_coords), child_index as int)).0
                == NULL_CHILD),
    {
        self.d_get_child(octuple_coords, child_index) == NULL_CHILD
    }

    fn d_get_child_usize(&self, octuple_coords: [usize; 3], child_index: usize) -> (r: [usize; 3])
        requires
            self.data.wf(),
            self.data.side() == OCTUPLE_DATA_MAP_SIZE,
            in_box(triple(octuple_coords), cube(9)),
            child_index < 8,
        ensures
            triple(r) == decode(
                self.data.cell_at(cell_of(triple(octuple_coords), child_index as int)).0 as usize,
            ),
    {
        Self::u16_format_to_usize_coords(self.d_get_child(octuple_coords, child_index))
    }

    fn d_set_child_volume(&mut self, octuple_coords: [usize; 3], child_index: usize, sub_child_index: usize)
        requires
            old(self).data.wf(),
            old(self).data.side() == OCTUPLE_DATA_MAP_SIZE,
            in_box(triple(octuple_coords), cube(9)),
            child_index < 8,
            sub_child_index < 8,
        ensures
            final(self).data.wf(),
            final(self).data.side() == OCTUPLE_DATA_MAP_SIZE,
            final(self).magnitude == old(self).magnitude,
            final(self).count == old(self).count,
            final(self).nodes == old(self).nodes,
            forall|t: (int, int, int)|
                #![trigger final(self).data.cell_at(t)]
                in_box(t, cube(OCTUPLE_DATA_MAP_SIZE as int)) ==> final(self).data.cell_at(t) == if t
                    == cell_of(triple(octuple_coords), child_index as int) {
                    Octant(with_bit(old(self).data.cell_at(t).0, sub_child_index))
                } else {
                    old(self).data.cell_at(t)
                },
    {
        let mut base_child = self.d_get_child(octuple_coords, child_index);
        if base_child == NULL_CHILD {
            base_child = 0;
        }
        base_child = base_child | (1u16 << sub_child_index);
        self.d_set_child(octuple_coords, child_index, base_child);
    }

    fn d_get_child_volume(&self, octuple_coords: [usize; 3], child_index: usize, sub_child_index: usize) -> (r: bool)
        requires
            self.data.wf(),
            self.data.side() == OCTUPLE_DATA_MAP_SIZE,
            in_box(triple(octuple_coords), cube(9)),
            child_index < 8,
            sub_child_index < 8,
        ensures
            r == bit_set(
                self.data.cell_at(cell_of(triple(octuple_coords), child_index as int)).0,
                sub_child_index,
            ),
    {
        let child = self.d_get_child(octuple_coords, child_index);
        if child == NULL_CHILD {
            return false;
        }
        ((child >> sub_child_index) & 1) == 1
    }

    /// Hands out the next octuple; returns its 16-bit address.
    fn d_allocate_octuple(&mut self) -> (r: u16)
        requires
            old(self).count < OCTUPLE_CAPACITY,
        ensures
            r as int == encode(oct_of(old(self).count as int)),
            final(self).count == old(self).count + 1,
            final(self).data == old(self).data,
            final(self).magnitude == old(self).magnitude,
            final(self).nodes == old(self).nodes,
    {
        proof {
            lemma_oct_of(self.count as int);
        }
        let s = OCTUPLE_DATA_MAP_SIZE / 2;
        let new_location = [self.count % s, (self.count / s) % s, self.count / (s * s)];
        self.count = self.count + 1;
        let (a, b, c) = (new_location[0], new_location[1], new_location[2]);
        assert(a | (b << 5usize) | (c << 10usize) == a + 32 * b + 1024 * c) by (bit_vector)
            requires
                a < 9,
                b < 9,
                c < 9,
        ;
        (a | (b << 5) | (c << 10)) as u16
    }

    /// Octuple coordinates from their 16-bit address: five bits per axis.
    pub fn u16_format_to_usize_coords(format: u16) -> (r: [usize; 3])
        ensures
            triple(r) == decode(format as usize),
    {
        let f_usize = format as usize;
        assert((1usize << 5usize) - 1 == 31usize) by (bit_vector);
        let five_bit_mask: usize = (1usize << 5) - 1;
        [f_usize & five_bit_mask, (f_usize >> 5) & five_bit_mask, (f_usize >> 10) & five_bit_mask]
    }

    /// The child index at depth `depth`: bit `depth` of each coordinate.
    pub fn infer_child_index(coords: [usize; 3], depth: usize) -> (r: usize)
        requires
            depth < 32,
        ensures
            r == child_at(coords, depth),
            r < 8,
    {
        proof {
            lemma_child_at_range(coords, depth);
        }
        ((coords[0] >> depth) & 0b001) | (((coords[1] >> depth) << 1) & 0b010) | (((coords[2]
            >> depth) << 2) & 0b100)
    }
}

} // verus!
