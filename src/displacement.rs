//! Integer displacements and the ellipsoidal set of admissible ones.
use vstd::prelude::*;

verus! {

/// Largest radius, on any axis, that a displacement set may have.
pub const MAX_RADIUS: i32 = 512;

/// Largest absolute value of an anchor component: an anchor plus any
/// admissible displacement still fits in an `i32`.
pub const ANCHOR_LIMIT: i32 = 2147483135;

/// An integer 3-vector: a chunk coordinate, a displacement or a radius.
#[derive(Clone, Copy, Debug, PartialEq, Eq, Structural)]
pub struct IntVector3 {
    pub x: i32,
    pub y: i32,
    pub z: i32,
}

impl IntVector3 {
    pub fn new(x: i32, y: i32, z: i32) -> (r: Self)
        ensures
            r == (IntVector3 { x, y, z }),
    {
        IntVector3 { x, y, z }
    }
}

/// The components of `v` as mathematical integers.
pub open spec fn ivec(v: IntVector3) -> (int, int, int) {
    (v.x as int, v.y as int, v.z as int)
}

/// `a - b`, componentwise.
pub open spec fn offset(a: IntVector3, b: IntVector3) -> (int, int, int) {
    (a.x - b.x, a.y - b.y, a.z - b.z)
}

/// Squared Euclidean length.
pub open spec fn mag_squared(d: (int, int, int)) -> int {
    d.0 * d.0 + d.1 * d.1 + d.2 * d.2
}

/// `(d.0 / r.0)² + (d.1 / r.1)² + (d.2 / r.2)² <= 1`, multiplied through by
/// the positive `(r.0 * r.1 * r.2)²` so that it stays in the integers.
pub open spec fn in_ellipsoid(d: (int, int, int), r: (int, int, int)) -> bool {
    d.0 * d.0 * (r.1 * r.1) * (r.2 * r.2) + d.1 * d.1 * (r.0 * r.0) * (r.2 * r.2) + d.2 * d.2 * (
    r.0 * r.0) * (r.1 * r.1) <= (r.0 * r.0) * (r.1 * r.1) * (r.2 * r.2)
}

/// Radii are positive and at most `MAX_RADIUS` on each axis.
pub open spec fn radius_ok(r: IntVector3) -> bool {
    &&& 1 <= r.x <= MAX_RADIUS
    &&& 1 <= r.y <= MAX_RADIUS
    &&& 1 <= r.z <= MAX_RADIUS
}

/// Each component of the anchor lies within `ANCHOR_LIMIT` of zero.
pub open spec fn anchor_ok(a: IntVector3) -> bool {
    &&& -ANCHOR_LIMIT <= a.x <= ANCHOR_LIMIT
    &&& -ANCHOR_LIMIT <= a.y <= ANCHOR_LIMIT
    &&& -ANCHOR_LIMIT <= a.z <= ANCHOR_LIMIT
}

/// Some element of `s` has the components `t`.
pub open spec fn covered(s: Seq<IntVector3>, t: (int, int, int)) -> bool {
    exists|j: int| 0 <= j < s.len() && #[trigger] ivec(s[j]) == t
}

/// `s` lists every displacement inside the ellipsoid of radii `r` exactly once,
/// and nothing else.
pub open spec fn is_displacement_set(s: Seq<IntVector3>, r: IntVector3) -> bool {
    &&& s.no_duplicates()
    &&& forall|j: int| 0 <= j < s.len() ==> in_ellipsoid(#[trigger] ivec(s[j]), ivec(r))
    &&& forall|t: (int, int, int)| #[trigger] in_ellipsoid(t, ivec(r)) ==> covered(s, t)
}

/// A displacement inside the ellipsoid is no longer, on any axis, than the
/// radius of that axis.
pub proof fn lemma_ellipsoid_bounds(d: (int, int, int), r: (int, int, int))
    requires
        r.0 >= 1,
        r.1 >= 1,
        r.2 >= 1,
        in_ellipsoid(d, r),
    ensures
        -r.0 <= d.0 <= r.0,
        -r.1 <= d.1 <= r.1,
        -r.2 <= d.2 <= r.2,
{
    let a = r.0 * r.0;
    let b = r.1 * r.1;
    let c = r.2 * r.2;
    assert(a >= 1 && b >= 1 && c >= 1) by (nonlinear_arith)
        requires
            r.0 >= 1,
            r.1 >= 1,
            r.2 >= 1,
            a == r.0 * r.0,
            b == r.1 * r.1,
            c == r.2 * r.2,
    ;
    let x = d.0 * d.0;
    let y = d.1 * d.1;
    let z = d.2 * d.2;
    assert(x >= 0 && y >= 0 && z >= 0) by (nonlinear_arith)
        requires
            x == d.0 * d.0,
            y == d.1 * d.1,
            z == d.2 * d.2,
    ;
    assert(x * b * c + y * a * c + z * a * b <= a * b * c);
    assert(x * b * c >= 0 && y * a * c >= 0 && z * a * b >= 0) by (nonlinear_arith)
        requires
            x >= 0,
            y >= 0,
            z >= 0,
            a >= 1,
            b >= 1,
            c >= 1,
    ;
    assert(x <= a && y <= b && z <= c) by (nonlinear_arith)
        requires
            x * b * c <= a * b * c,
            y * a * c <= a * b * c,
            z * a * b <= a * b * c,
            a >= 1,
            b >= 1,
            c >= 1,
    ;
    assert(-r.0 <= d.0 <= r.0) by (nonlinear_arith)
        requires
            d.0 * d.0 <= r.0 * r.0,
            r.0 >= 1,
    ;
    assert(-r.1 <= d.1 <= r.1) by (nonlinear_arith)
        requires
            d.1 * d.1 <= r.1 * r.1,
            r.1 >= 1,
    ;
    assert(-r.2 <= d.2 <= r.2) by (nonlinear_arith)
        requires
            d.2 * d.2 <= r.2 * r.2,
            r.2 >= 1,
    ;
}

/// Whether the displacement `(dx, dy, dz)` lies inside the ellipsoid of radii
/// `radius`.
pub fn displacement_valid(dx: i64, dy: i64, dz: i64, radius: IntVector3) -> (r: bool)
    requires
        radius_ok(radius),
    ensures
        r == in_ellipsoid((dx as int, dy as int, dz as int), ivec(radius)),
{
    let rx = radius.x as i64;
    let ry = radius.y as i64;
    let rz = radius.z as i64;
    if dx < -rx || dx > rx || dy < -ry || dy > ry || dz < -rz || dz > rz {
        proof {
            if in_ellipsoid((dx as int, dy as int, dz as int), ivec(radius)) {
                lemma_ellipsoid_bounds((dx as int, dy as int, dz as int), ivec(radius));
            }
        }
        return false;
    }
    assert(rx * rx <= 1048576 && ry * ry <= 1048576 && rz * rz <= 1048576) by (nonlinear_arith)
        requires
            1 <= rx <= 1024,
            1 <= ry <= 1024,
            1 <= rz <= 1024,
    ;
    assert(0 <= dx * dx <= 1048576) by (nonlinear_arith)
        requires
            -1024 <= dx <= 1024,
    ;
    assert(0 <= dy * dy <= 1048576) by (nonlinear_arith)
        requires
            -1024 <= dy <= 1024,
    ;
    assert(0 <= dz * dz <= 1048576) by (nonlinear_arith)
        requires
            -1024 <= dz <= 1024,
    ;
    let rx2 = rx * rx;
    let ry2 = ry * ry;
    let rz2 = rz * rz;
    let dx2 = dx * dx;
    let dy2 = dy * dy;
    let dz2 = dz * dz;
    assert(0 <= dx2 * ry2 <= 1099511627776 && 0 <= dy2 * rx2 <= 1099511627776 && 0 <= dz2 * rx2
        <= 1099511627776 && 0 <= rx2 * ry2 <= 1099511627776) by (nonlinear_arith)
        requires
            0 <= rx2 <= 1048576,
            0 <= ry2 <= 1048576,
            0 <= rz2 <= 1048576,
            0 <= dx2 <= 1048576,
            0 <= dy2 <= 1048576,
            0 <= dz2 <= 1048576,
    ;
    assert(0 <= dx2 * ry2 * rz2 <= 1152921504606846976 && 0 <= dy2 * rx2 * rz2
        <= 1152921504606846976 && 0 <= dz2 * rx2 * ry2 <= 1152921504606846976 && 0 <= rx2 * ry2
        * rz2 <= 1152921504606846976) by (nonlinear_arith)
        requires
            0 <= rz2 <= 1048576,
            0 <= ry2 <= 1048576,
            0 <= dx2 * ry2 <= 1099511627776,
            0 <= dy2 * rx2 <= 1099511627776,
            0 <= dz2 * rx2 <= 1099511627776,
            0 <= rx2 * ry2 <= 1099511627776,
    ;
    dx2 * ry2 * rz2 + dy2 * rx2 * rz2 + dz2 * rx2 * ry2 <= rx2 * ry2 * rz2
}

/// `s.push(v)` covers whatever `s` covers.
proof fn lemma_covered_push(s: Seq<IntVector3>, v: IntVector3, t: (int, int, int))
    requires
        covered(s, t),
    ensures
        covered(s.push(v), t),
{
    let j = choose|j: int| 0 <= j < s.len() && #[trigger] ivec(s[j]) == t;
    assert(ivec(s.push(v)[j]) == t);
}

/// Lexicographic order on `(x, y, z)`: `v` comes before `(x, y, z)`.
pub open spec fn lex_before(v: (int, int, int), x: int, y: int, z: int) -> bool {
    v.0 < x || (v.0 == x && v.1 < y) || (v.0 == x && v.1 == y && v.2 < z)
}

/// Every displacement inside the ellipsoid of radii `radius`, each once.
pub fn radius_displacement_set(radius: IntVector3) -> (r: Vec<IntVector3>)
    requires
        radius_ok(radius),
    ensures
        is_displacement_set(r@, radius),
{
    let ghost rr = ivec(radius);
    let mut set: Vec<IntVector3> = Vec::new();
    let mut x: i32 = -radius.x;
    proof {
        assert forall|t: (int, int, int)| #[trigger]
            in_ellipsoid(t, rr) && t.0 < x implies covered(set@, t) by {
            lemma_ellipsoid_bounds(t, rr);
        }
    }
    while x <= radius.x
        invariant
            radius_ok(radius),
            rr == ivec(radius),
            -radius.x <= x <= radius.x + 1,
            set@.no_duplicates(),
            forall|j: int|
                0 <= j < set@.len() ==> in_ellipsoid(#[trigger] ivec(set@[j]), rr)
                    && ivec(set@[j]).0 < x,
            forall|t: (int, int, int)|
                #[trigger] in_ellipsoid(t, rr) && t.0 < x ==> covered(set@, t),
        decreases radius.x + 1 - x,
    {
        let mut y: i32 = -radius.y;
        proof {
            assert forall|t: (int, int, int)|
                #[trigger] in_ellipsoid(t, rr) && lex_before(
                    t,
                    x as int,
                    y as int,
                    -radius.z,
                ) implies covered(set@, t) by {
                lemma_ellipsoid_bounds(t, rr);
            }
        }
        while y <= radius.y
            invariant
                radius_ok(radius),
                rr == ivec(radius),
                -radius.x <= x <= radius.x,
                -radius.y <= y <= radius.y + 1,
                set@.no_duplicates(),
                forall|j: int|
                    0 <= j < set@.len() ==> in_ellipsoid(#[trigger] ivec(set@[j]), rr)
                        && lex_before(ivec(set@[j]), x as int, y as int, -radius.z),
                forall|t: (int, int, int)|
                    #[trigger] in_ellipsoid(t, rr) && lex_before(t, x as int, y as int, -radius.z)
                        ==> covered(set@, t),
            decreases radius.y + 1 - y,
        {
            let mut z: i32 = -radius.z;
            while z <= radius.z
                invariant
                    radius_ok(radius),
                    rr == ivec(radius),
                    -radius.x <= x <= radius.x,
                    -radius.y <= y <= radius.y,
                    -radius.z <= z <= radius.z + 1,
                    set@.no_duplicates(),
                    forall|j: int|
                        0 <= j < set@.len() ==> in_ellipsoid(#[trigger] ivec(set@[j]), rr)
                            && lex_before(ivec(set@[j]), x as int, y as int, z as int),
                    forall|t: (int, int, int)|
                        #[trigger] in_ellipsoid(t, rr) && lex_before(t, x as int, y as int, z as int)
                            ==> covered(set@, t),
                decreases radius.z + 1 - z,
            {
                let v = IntVector3 { x, y, z };
                if displacement_valid(x as i64, y as i64, z as i64, radius) {
                    let ghost before = set@;
                    set.push(v);
                    proof {
                        assert forall|a: int, b: int|
                            0 <= a < set@.len() && 0 <= b < set@.len() && a != b implies set@[a]
                            != set@[b] by {
                            if a < before.len() && b < before.len() {
                                assert(before[a] != before[b]);
                            } else if a < before.len() {
                                assert(lex_before(ivec(before[a]), x as int, y as int, z as int));
                            } else {
                                assert(lex_before(ivec(before[b]), x as int, y as int, z as int));
                            }
                        }
                        assert forall|t: (int, int, int)|
                            #[trigger] in_ellipsoid(t, rr) && lex_before(
                                t,
                                x as int,
                                y as int,
                                z + 1,
                            ) implies covered(set@, t) by {
                            if lex_before(t, x as int, y as int, z as int) {
                                lemma_covered_push(before, v, t);
                            } else {
                                assert(ivec(set@[before.len() as int]) == t);
                            }
                        }
                    }
                } else {
                    assert forall|t: (int, int, int)|
                        #[trigger] in_ellipsoid(t, rr) && lex_before(
                            t,
                            x as int,
                            y as int,
                            z + 1,
                        ) implies covered(set@, t) by {
                        if !lex_before(t, x as int, y as int, z as int) {
                            assert(t == (x as int, y as int, z as int));
                        }
                    }
                }
                z = z + 1;
            }
            proof {
                assert forall|t: (int, int, int)|
                    #[trigger] in_ellipsoid(t, rr) && lex_before(
                        t,
                        x as int,
                        y + 1,
                        -radius.z,
                    ) implies covered(set@, t) by {
                    lemma_ellipsoid_bounds(t, rr);
                    assert(lex_before(t, x as int, y as int, z as int));
                }
            }
            y = y + 1;
        }
        proof {
            assert forall|t: (int, int, int)| #[trigger]
                in_ellipsoid(t, rr) && t.0 < x + 1 implies covered(set@, t) by {
                lemma_ellipsoid_bounds(t, rr);
                assert(lex_before(t, x as int, y as int, -radius.z));
            }
        }
        x = x + 1;
    }
    proof {
        assert forall|t: (int, int, int)| #[trigger] in_ellipsoid(t, rr) implies covered(set@, t) by {
            lemma_ellipsoid_bounds(t, rr);
        }
    }
    set
}

} // verus!
