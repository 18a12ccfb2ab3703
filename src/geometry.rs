//! Planes through three points, the point where three planes meet, and the
//! faces of a convex solid rebuilt from its bounding planes. All arithmetic is
//! exact: points have integer coordinates, and a meeting point is given in
//! homogeneous form.
use vstd::prelude::*;
use crate::fields::{Plane, Point};
use crate::num::{lemma_pow10_mono, pow10, pow10_u64, Num, MAX_SCALE};
use crate::vmf::{SideView, Solid};

verus! {

/// The largest magnitude of a coordinate that the geometry accepts.
pub const COORD_LIMIT: i64 = 65536;

/// The largest magnitude of a component of a plane's normal.
pub const NORMAL_LIMIT: i128 = 0x8_0000_0000;

/// The largest magnitude of a plane's offset.
pub const OFFSET_LIMIT: i128 = 0x20_0000_0000_0000;

/// A point with integer coordinates, Y up.
#[derive(Clone, Copy, Debug, PartialEq, Eq)]
pub struct Point3 {
    pub x: i64,
    pub y: i64,
    pub z: i64,
}

impl Point3 {
    pub open spec fn in_range(&self) -> bool {
        -COORD_LIMIT <= self.x <= COORD_LIMIT && -COORD_LIMIT <= self.y <= COORD_LIMIT
            && -COORD_LIMIT <= self.z <= COORD_LIMIT
    }
}

/// The plane of the points `v` with `normal · v == d`.
#[derive(Clone, Copy, Debug, PartialEq, Eq)]
pub struct StandardPlane {
    pub nx: i128,
    pub ny: i128,
    pub nz: i128,
    pub d: i128,
}

/// The point `(x / w, y / w, z / w)`, with `w > 0`.
#[derive(Clone, Copy, Debug, PartialEq, Eq)]
pub struct Vertex {
    pub x: i128,
    pub y: i128,
    pub z: i128,
    pub w: i128,
}

pub open spec fn cross_x(ay: int, az: int, by: int, bz: int) -> int {
    ay * bz - az * by
}

/// The plane through `p`, `q` and `r`: its normal is `(q - p) × (r - p)` and
/// its offset is the normal's dot product with `p`.
pub open spec fn plane_through(p: Point3, q: Point3, r: Point3) -> StandardPlane {
    let (ux, uy, uz) = (q.x - p.x, q.y - p.y, q.z - p.z);
    let (vx, vy, vz) = (r.x - p.x, r.y - p.y, r.z - p.z);
    let nx = cross_x(uy, uz, vy, vz);
    let ny = cross_x(uz, ux, vz, vx);
    let nz = cross_x(ux, uy, vx, vy);
    StandardPlane {
        nx: nx as i128,
        ny: ny as i128,
        nz: nz as i128,
        d: (nx * p.x + ny * p.y + nz * p.z) as i128,
    }
}

impl StandardPlane {
    /// The bounds that planes through points in range keep.
    pub open spec fn bounded(&self) -> bool {
        -NORMAL_LIMIT <= self.nx <= NORMAL_LIMIT && -NORMAL_LIMIT <= self.ny <= NORMAL_LIMIT
            && -NORMAL_LIMIT <= self.nz <= NORMAL_LIMIT && -OFFSET_LIMIT <= self.d <= OFFSET_LIMIT
    }

    pub open spec fn contains(&self, x: int, y: int, z: int) -> bool {
        self.nx * x + self.ny * y + self.nz * z == self.d
    }
}

proof fn lemma_cross_bound(ay: int, az: int, by: int, bz: int)
    requires
        -0x20000 <= ay <= 0x20000,
        -0x20000 <= az <= 0x20000,
        -0x20000 <= by <= 0x20000,
        -0x20000 <= bz <= 0x20000,
    ensures
        -NORMAL_LIMIT <= cross_x(ay, az, by, bz) <= NORMAL_LIMIT,
        -0x4_0000_0000 <= ay * bz <= 0x4_0000_0000,
        -0x4_0000_0000 <= az * by <= 0x4_0000_0000,
{
    assert(-0x4_0000_0000 <= ay * bz <= 0x4_0000_0000) by (nonlinear_arith)
        requires
            -0x20000 <= ay <= 0x20000,
            -0x20000 <= bz <= 0x20000,
    ;
    assert(-0x4_0000_0000 <= az * by <= 0x4_0000_0000) by (nonlinear_arith)
        requires
            -0x20000 <= az <= 0x20000,
            -0x20000 <= by <= 0x20000,
    ;
}

proof fn lemma_dot_bound(nx: int, ny: int, nz: int, x: int, y: int, z: int)
    requires
        -NORMAL_LIMIT <= nx <= NORMAL_LIMIT,
        -NORMAL_LIMIT <= ny <= NORMAL_LIMIT,
        -NORMAL_LIMIT <= nz <= NORMAL_LIMIT,
        -COORD_LIMIT <= x <= COORD_LIMIT,
        -COORD_LIMIT <= y <= COORD_LIMIT,
        -COORD_LIMIT <= z <= COORD_LIMIT,
    ensures
        -OFFSET_LIMIT <= nx * x + ny * y + nz * z <= OFFSET_LIMIT,
        -0x8_0000_0000_0000 <= nx * x <= 0x8_0000_0000_0000,
        -0x8_0000_0000_0000 <= ny * y <= 0x8_0000_0000_0000,
        -0x8_0000_0000_0000 <= nz * z <= 0x8_0000_0000_0000,
{
    assert(-0x8_0000_0000_0000 <= nx * x <= 0x8_0000_0000_0000) by (nonlinear_arith)
        requires
            -NORMAL_LIMIT <= nx <= NORMAL_LIMIT,
            -COORD_LIMIT <= x <= COORD_LIMIT,
    ;
    assert(-0x8_0000_0000_0000 <= ny * y <= 0x8_0000_0000_0000) by (nonlinear_arith)
        requires
            -NORMAL_LIMIT <= ny <= NORMAL_LIMIT,
            -COORD_LIMIT <= y <= COORD_LIMIT,
    ;
    assert(-0x8_0000_0000_0000 <= nz * z <= 0x8_0000_0000_0000) by (nonlinear_arith)
        requires
            -NORMAL_LIMIT <= nz <= NORMAL_LIMIT,
            -COORD_LIMIT <= z <= COORD_LIMIT,
    ;
}

impl StandardPlane {
    /// The plane through three points, oriented by the order of the points.
    pub fn from_points(p: &Point3, q: &Point3, r: &Point3) -> (s: StandardPlane)
        requires
            p.in_range(),
            q.in_range(),
            r.in_range(),
        ensures
            s == plane_through(*p, *q, *r),
            s.bounded(),
    {
        let ux = (q.x - p.x) as i128;
        let uy = (q.y - p.y) as i128;
        let uz = (q.z - p.z) as i128;
        let vx = (r.x - p.x) as i128;
        let vy = (r.y - p.y) as i128;
        let vz = (r.z - p.z) as i128;
        proof {
            lemma_cross_bound(uy as int, uz as int, vy as int, vz as int);
            lemma_cross_bound(uz as int, ux as int, vz as int, vx as int);
            lemma_cross_bound(ux as int, uy as int, vx as int, vy as int);
        }
        let nx = uy * vz - uz * vy;
        let ny = uz * vx - ux * vz;
        let nz = ux * vy - uy * vx;
        proof {
            lemma_dot_bound(nx as int, ny as int, nz as int, p.x as int, p.y as int, p.z as int);
        }
        let d = nx * (p.x as i128) + ny * (p.y as i128) + nz * (p.z as i128);
        StandardPlane { nx, ny, nz, d }
    }
}

proof fn lemma_cross_orthogonal(ux: int, uy: int, uz: int, vx: int, vy: int, vz: int)
    ensures
        cross_x(uy, uz, vy, vz) * ux + cross_x(uz, ux, vz, vx) * uy + cross_x(ux, uy, vx, vy) * uz
            == 0,
        cross_x(uy, uz, vy, vz) * vx + cross_x(uz, ux, vz, vx) * vy + cross_x(ux, uy, vx, vy) * vz
            == 0,
{
    assert((uy * vz - uz * vy) * ux + (uz * vx - ux * vz) * uy + (ux * vy - uy * vx) * uz == 0)
        by (nonlinear_arith);
    assert((uy * vz - uz * vy) * vx + (uz * vx - ux * vz) * vy + (ux * vy - uy * vx) * vz == 0)
        by (nonlinear_arith);
}

/// The plane through three points holds each of them, and its normal is
/// orthogonal to both edges from the first point.
pub proof fn lemma_plane_through_points(p: Point3, q: Point3, r: Point3)
    requires
        p.in_range(),
        q.in_range(),
        r.in_range(),
    ensures
        ({
            let s = plane_through(p, q, r);
            &&& s.nx * (q.x - p.x) + s.ny * (q.y - p.y) + s.nz * (q.z - p.z) == 0
            &&& s.nx * (r.x - p.x) + s.ny * (r.y - p.y) + s.nz * (r.z - p.z) == 0
            &&& s.contains(p.x as int, p.y as int, p.z as int)
            &&& s.contains(q.x as int, q.y as int, q.z as int)
            &&& s.contains(r.x as int, r.y as int, r.z as int)
        }),
{
    let (ux, uy, uz) = (q.x - p.x, q.y - p.y, q.z - p.z);
    let (vx, vy, vz) = (r.x - p.x, r.y - p.y, r.z - p.z);
    lemma_cross_bound(uy, uz, vy, vz);
    lemma_cross_bound(uz, ux, vz, vx);
    lemma_cross_bound(ux, uy, vx, vy);
    let nx = cross_x(uy, uz, vy, vz);
    let ny = cross_x(uz, ux, vz, vx);
    let nz = cross_x(ux, uy, vx, vy);
    lemma_dot_bound(nx, ny, nz, p.x as int, p.y as int, p.z as int);
    lemma_cross_orthogonal(ux, uy, uz, vx, vy, vz);
    assert(nx * q.x + ny * q.y + nz * q.z == nx * p.x + ny * p.y + nz * p.z + (nx * ux + ny * uy
        + nz * uz)) by (nonlinear_arith)
        requires
            ux == q.x - p.x,
            uy == q.y - p.y,
            uz == q.z - p.z,
    ;
    assert(nx * r.x + ny * r.y + nz * r.z == nx * p.x + ny * p.y + nz * p.z + (nx * vx + ny * vy
        + nz * vz)) by (nonlinear_arith)
        requires
            vx == r.x - p.x,
            vy == r.y - p.y,
            vz == r.z - p.z,
    ;
}

pub open spec fn det3(
    a1: int,
    a2: int,
    a3: int,
    b1: int,
    b2: int,
    b3: int,
    c1: int,
    c2: int,
    c3: int,
) -> int {
    a1 * (b2 * c3 - b3 * c2) - a2 * (b1 * c3 - b3 * c1) + a3 * (b1 * c2 - b2 * c1)
}

/// The determinant of the matrix whose rows are the normals of `a`, `b`, `c`.
pub open spec fn normals_det(a: StandardPlane, b: StandardPlane, c: StandardPlane) -> int {
    det3(
        a.nx as int,
        a.ny as int,
        a.nz as int,
        b.nx as int,
        b.ny as int,
        b.nz as int,
        c.nx as int,
        c.ny as int,
        c.nz as int,
    )
}

/// The point where the planes `a`, `b`, `c` meet, by Cramer's rule; none where
/// their normals are linearly dependent.
pub open spec fn meet(a: StandardPlane, b: StandardPlane, c: StandardPlane) -> Option<Vertex> {
    let det = normals_det(a, b, c);
    let dx = det3(
        a.d as int,
        a.ny as int,
        a.nz as int,
        b.d as int,
        b.ny as int,
        b.nz as int,
        c.d as int,
        c.ny as int,
        c.nz as int,
    );
    let dy = det3(
        a.nx as int,
        a.d as int,
        a.nz as int,
        b.nx as int,
        b.d as int,
        b.nz as int,
        c.nx as int,
        c.d as int,
        c.nz as int,
    );
    let dz = det3(
        a.nx as int,
        a.ny as int,
        a.d as int,
        b.nx as int,
        b.ny as int,
        b.d as int,
        c.nx as int,
        c.ny as int,
        c.d as int,
    );
    if det == 0 {
        None
    } else if det > 0 {
        Some(Vertex { x: dx as i128, y: dy as i128, z: dz as i128, w: det as i128 })
    } else {
        Some(Vertex { x: -dx as i128, y: -dy as i128, z: -dz as i128, w: -det as i128 })
    }
}

proof fn lemma_mul_bound(a: int, b: int, ba: int, bb: int)
    requires
        -ba <= a <= ba,
        -bb <= b <= bb,
    ensures
        -(ba * bb) <= a * b <= ba * bb,
{
    assert(-(ba * bb) <= a * b <= ba * bb) by (nonlinear_arith)
        requires
            -ba <= a <= ba,
            -bb <= b <= bb,
    ;
}

/// A determinant whose first column is bounded by `b0` and whose other
/// entries are normal components, computed without overflow.
fn det_with_column(
    a1: i128,
    a2: i128,
    a3: i128,
    b1: i128,
    b2: i128,
    b3: i128,
    c1: i128,
    c2: i128,
    c3: i128,
) -> (r: i128)
    requires
        -OFFSET_LIMIT <= a1 <= OFFSET_LIMIT,
        -OFFSET_LIMIT <= b1 <= OFFSET_LIMIT,
        -OFFSET_LIMIT <= c1 <= OFFSET_LIMIT,
        -NORMAL_LIMIT <= a2 <= NORMAL_LIMIT,
        -NORMAL_LIMIT <= a3 <= NORMAL_LIMIT,
        -NORMAL_LIMIT <= b2 <= NORMAL_LIMIT,
        -NORMAL_LIMIT <= b3 <= NORMAL_LIMIT,
        -NORMAL_LIMIT <= c2 <= NORMAL_LIMIT,
        -NORMAL_LIMIT <= c3 <= NORMAL_LIMIT,
    ensures
        r == det3(
            a1 as int,
            a2 as int,
            a3 as int,
            b1 as int,
            b2 as int,
            b3 as int,
            c1 as int,
            c2 as int,
            c3 as int,
        ),
        -0x4000_0000_0000_0000_0000_0000_0000_0000 <= r <= 0x4000_0000_0000_0000_0000_0000_0000_0000,
{
    proof {
        lemma_mul_bound(b2 as int, c3 as int, NORMAL_LIMIT as int, NORMAL_LIMIT as int);
        lemma_mul_bound(b3 as int, c2 as int, NORMAL_LIMIT as int, NORMAL_LIMIT as int);
        lemma_mul_bound(b1 as int, c3 as int, OFFSET_LIMIT as int, NORMAL_LIMIT as int);
        lemma_mul_bound(b3 as int, c1 as int, NORMAL_LIMIT as int, OFFSET_LIMIT as int);
        lemma_mul_bound(b1 as int, c2 as int, OFFSET_LIMIT as int, NORMAL_LIMIT as int);
        lemma_mul_bound(b2 as int, c1 as int, NORMAL_LIMIT as int, OFFSET_LIMIT as int);
    }
    let m1 = b2 * c3 - b3 * c2;
    let m2 = b1 * c3 - b3 * c1;
    let m3 = b1 * c2 - b2 * c1;
    proof {
        lemma_mul_bound(a1 as int, m1 as int, OFFSET_LIMIT as int, 2 * NORMAL_LIMIT * NORMAL_LIMIT);
        lemma_mul_bound(a2 as int, m2 as int, NORMAL_LIMIT as int, 2 * OFFSET_LIMIT * NORMAL_LIMIT);
        lemma_mul_bound(a3 as int, m3 as int, NORMAL_LIMIT as int, 2 * OFFSET_LIMIT * NORMAL_LIMIT);
    }
    a1 * m1 - a2 * m2 + a3 * m3
}

impl StandardPlane {
    /// Where this plane meets `first` and `second`; none where their normals
    /// are linearly dependent.
    pub fn intersection_point(&self, first: &StandardPlane, second: &StandardPlane) -> (r: Option<Vertex>)
        requires
            self.bounded(),
            first.bounded(),
            second.bounded(),
        ensures
            r == meet(*self, *first, *second),
    {
        let (a, b, c) = (self, first, second);
        let det = det_with_column(a.nx, a.ny, a.nz, b.nx, b.ny, b.nz, c.nx, c.ny, c.nz);
        let dx = det_with_column(a.d, a.ny, a.nz, b.d, b.ny, b.nz, c.d, c.ny, c.nz);
        // Swapping two columns negates a determinant.
        let dy = -det_with_column(a.d, a.nx, a.nz, b.d, b.nx, b.nz, c.d, c.nx, c.nz);
        let dz = det_with_column(a.d, a.nx, a.ny, b.d, b.nx, b.ny, c.d, c.nx, c.ny);
        proof {
            let (a1, a2, a3, b1, b2, b3, c1, c2, c3) = (a.nx as int, a.ny as int, a.nz as int, b.nx as int, b.ny as int, b.nz as int, c.nx as int, c.ny as int, c.nz as int);
            let (ad, bd, cd) = (a.d as int, b.d as int, c.d as int);
            assert(det3(ad, a1, a3, bd, b1, b3, cd, c1, c3) == -det3(a1, ad, a3, b1, bd, b3, c1, cd, c3)) by (nonlinear_arith);
            assert(det3(ad, a1, a2, bd, b1, b2, cd, c1, c2) == det3(a1, a2, ad, b1, b2, bd, c1, c2, cd)) by (nonlinear_arith);
        }
        if det == 0 {
            None
        } else if det > 0 {
            Some(Vertex { x: dx, y: dy, z: dz, w: det })
        } else {
            Some(Vertex { x: -dx, y: -dy, z: -dz, w: -det })
        }
    }
}

/// Three planes with one normal meet nowhere, whatever their offsets.
pub proof fn lemma_parallel_planes(a: StandardPlane, b: StandardPlane, c: StandardPlane)
    requires
        a.nx == b.nx && b.nx == c.nx,
        a.ny == b.ny && b.ny == c.ny,
        a.nz == b.nz && b.nz == c.nz,
    ensures
        meet(a, b, c) is None,
{
    let (x, y, z) = (a.nx as int, a.ny as int, a.nz as int);
    assert(det3(x, y, z, x, y, z, x, y, z) == 0) by (nonlinear_arith);
}

pub open spec fn all_bounded(ps: Seq<StandardPlane>) -> bool {
    forall|i: int| 0 <= i < ps.len() ==> #[trigger] ps[i].bounded()
}

/// The first `k >= from` for which planes `i`, `j`, `k` are distinct and meet.
pub open spec fn seed_col(ps: Seq<StandardPlane>, i: int, j: int, from: int) -> Option<int>
    decreases ps.len() - from,
{
    if from >= ps.len() {
        None
    } else if i != j && j != from && i != from && meet(ps[i], ps[j], ps[from]) is Some {
        Some(from)
    } else {
        seed_col(ps, i, j, from + 1)
    }
}

/// The first pair `(j, k)` with `j >= from`, in order of `j` then `k`, for
/// which planes `i`, `j`, `k` are distinct and meet.
pub open spec fn seed(ps: Seq<StandardPlane>, i: int, from: int) -> Option<(int, int)>
    decreases ps.len() - from,
{
    if from >= ps.len() {
        None
    } else {
        match seed_col(ps, i, from, 0) {
            Some(k) => Some((from, k)),
            None => seed(ps, i, from + 1),
        }
    }
}

/// The first plane `m >= from`, other than `i`, `j` and `k`, that meets planes
/// `i` and `j`.
pub open spec fn next_plane(ps: Seq<StandardPlane>, i: int, j: int, k: int, from: int) -> Option<
    int,
>
    decreases ps.len() - from,
{
    if from >= ps.len() {
        None
    } else if from != i && from != j && from != k && meet(ps[from], ps[i], ps[j]) is Some {
        Some(from)
    } else {
        next_plane(ps, i, j, k, from + 1)
    }
}

/// Whether stepping to neighbour `m` from neighbour `j` comes back to the seed pair.
pub open spec fn closes(m: int, j: int, sj: int, sk: int) -> bool {
    (m == sj && j == sk) || (m == sk && j == sj)
}

/// The vertices that follow on face `i` from the neighbour pair `(j, k)`,
/// taking at most `fuel` steps, up to the step that closes the loop or finds
/// no further neighbour.
pub open spec fn walk(
    ps: Seq<StandardPlane>,
    i: int,
    j: int,
    k: int,
    sj: int,
    sk: int,
    fuel: nat,
) -> Seq<Vertex>
    decreases fuel,
{
    if fuel == 0 {
        Seq::empty()
    } else {
        match next_plane(ps, i, j, k, 0) {
            None => Seq::empty(),
            Some(m) => if closes(m, j, sj, sk) {
                Seq::empty()
            } else {
                seq![meet(ps[m], ps[i], ps[j])->Some_0] + walk(
                    ps,
                    i,
                    m,
                    j,
                    sj,
                    sk,
                    (fuel - 1) as nat,
                )
            },
        }
    }
}

/// The vertex loop of face `i`: none where plane `i` meets no two others.
pub open spec fn face(ps: Seq<StandardPlane>, i: int) -> Option<Seq<Vertex>> {
    match seed(ps, i, 0) {
        None => None,
        Some((j, k)) => Some(
            seq![meet(ps[i], ps[j], ps[k])->Some_0] + walk(ps, i, j, k, j, k, ps.len()),
        ),
    }
}

/// The loops of the faces of the first `n` planes that have one.
pub open spec fn faces(ps: Seq<StandardPlane>, n: int) -> Seq<Seq<Vertex>>
    decreases n,
{
    if n <= 0 {
        Seq::empty()
    } else {
        match face(ps, n - 1) {
            Some(l) => faces(ps, n - 1).push(l),
            None => faces(ps, n - 1),
        }
    }
}

/// The face loops of the solid bounded by `ps`; none for fewer than four planes.
pub open spec fn sides_of(ps: Seq<StandardPlane>) -> Seq<Seq<Vertex>> {
    if ps.len() < 4 {
        Seq::empty()
    } else {
        faces(ps, ps.len() as int)
    }
}

pub open spec fn loops_view(v: Seq<Vec<Vertex>>) -> Seq<Seq<Vertex>> {
    Seq::new(v.len(), |i: int| v[i]@)
}

proof fn lemma_seed_col_range(ps: Seq<StandardPlane>, i: int, j: int, from: int)
    requires
        0 <= from,
    ensures
        seed_col(ps, i, j, from) matches Some(k) ==> from <= k < ps.len(),
    decreases ps.len() - from,
{
    if from < ps.len() {
        lemma_seed_col_range(ps, i, j, from + 1);
    }
}

proof fn lemma_seed_range(ps: Seq<StandardPlane>, i: int, from: int)
    requires
        0 <= from,
    ensures
        seed(ps, i, from) matches Some((j, k)) ==> from <= j < ps.len() && 0 <= k < ps.len(),
    decreases ps.len() - from,
{
    if from < ps.len() {
        lemma_seed_col_range(ps, i, from, 0);
        lemma_seed_range(ps, i, from + 1);
    }
}

proof fn lemma_next_plane_range(ps: Seq<StandardPlane>, i: int, j: int, k: int, from: int)
    requires
        0 <= from,
    ensures
        next_plane(ps, i, j, k, from) matches Some(m) ==> from <= m < ps.len(),
    decreases ps.len() - from,
{
    if from < ps.len() {
        lemma_next_plane_range(ps, i, j, k, from + 1);
    }
}

/// The seed pair of face `i` and the vertex where it meets plane `i`.
fn find_seed(planes: &[StandardPlane], i: usize) -> (r: Option<(usize, usize, Vertex)>)
    requires
        all_bounded(planes@),
        i < planes@.len(),
    ensures
        match seed(planes@, i as int, 0) {
            None => r is None,
            Some((j, k)) => r == Some(
                (j as usize, k as usize, meet(planes@[i as int], planes@[j], planes@[k])->Some_0),
            ),
        },
        r matches Some((j, k, _)) ==> j < planes@.len() && k < planes@.len(),
{
    let ghost ps = planes@;
    proof {
        lemma_seed_range(ps, i as int, 0);
    }
    let mut j: usize = 0;
    while j < planes.len()
        invariant
            ps == planes@,
            all_bounded(ps),
            i < ps.len(),
            j <= ps.len(),
            seed(ps, i as int, 0) == seed(ps, i as int, j as int),
        decreases ps.len() - j,
    {
        let mut k: usize = 0;
        while k < planes.len()
            invariant
                ps == planes@,
                all_bounded(ps),
                i < ps.len(),
                j < ps.len(),
                k <= ps.len(),
                seed(ps, i as int, 0) == seed(ps, i as int, j as int),
                seed_col(ps, i as int, j as int, 0) == seed_col(ps, i as int, j as int, k as int),
            decreases ps.len() - k,
        {
            if i != j && j != k && i != k {
                assert(ps[i as int].bounded() && ps[j as int].bounded() && ps[k as int].bounded());
                if let Some(point) = planes[i].intersection_point(&planes[j], &planes[k]) {
                    return Some((j, k, point));
                }
            }
            k = k + 1;
        }
        j = j + 1;
    }
    None
}

/// The first plane other than `required`, `with` and `without` that meets
/// planes `required` and `with`, and the vertex where they meet.
fn find_with_with_without(planes: &[StandardPlane], required: usize, with: usize, without: usize) -> (r:
    Option<(usize, Vertex)>)
    requires
        all_bounded(planes@),
        required < planes@.len(),
        with < planes@.len(),
    ensures
        match next_plane(planes@, required as int, with as int, without as int, 0) {
            None => r is None,
            Some(m) => r == Some(
                (
                    m as usize,
                    meet(planes@[m], planes@[required as int], planes@[with as int])->Some_0,
                ),
            ),
        },
        r matches Some((m, _)) ==> m < planes@.len(),
{
    let ghost ps = planes@;
    proof {
        lemma_next_plane_range(ps, required as int, with as int, without as int, 0);
    }
    let mut m: usize = 0;
    while m < planes.len()
        invariant
            ps == planes@,
            all_bounded(ps),
            required < ps.len(),
            with < ps.len(),
            m <= ps.len(),
            next_plane(ps, required as int, with as int, without as int, 0) == next_plane(
                ps,
                required as int,
                with as int,
                without as int,
                m as int,
            ),
        decreases ps.len() - m,
    {
        if m != required && m != with && m != without {
            assert(ps[m as int].bounded() && ps[required as int].bounded() && ps[with as int].bounded());
            if let Some(point) = planes[m].intersection_point(&planes[required], &planes[with]) {
                return Some((m, point));
            }
        }
        m = m + 1;
    }
    None
}

/// The vertex loop of each face of the convex solid bounded by `planes`, in
/// the order of the planes. A plane that meets no two others has no face; a
/// walk round a face ends where it comes back to its seed pair, where no
/// further neighbour is found, or after as many steps as there are planes.
/// Fewer than four planes bound no solid and give no faces.
pub fn planes_to_sides(planes: &[StandardPlane]) -> (sides: Vec<Vec<Vertex>>)
    requires
        all_bounded(planes@),
    ensures
        loops_view(sides@) == sides_of(planes@),
        planes@.len() < 4 ==> sides@.len() == 0,
{
    let ghost ps = planes@;
    let mut sides: Vec<Vec<Vertex>> = Vec::new();
    if planes.len() < 4 {
        assert(loops_view(sides@) =~= sides_of(ps));
        return sides;
    }
    let mut i: usize = 0;
    while i < planes.len()
        invariant
            ps == planes@,
            all_bounded(ps),
            i <= ps.len(),
            ps.len() <= usize::MAX,
            loops_view(sides@) == faces(ps, i as int),
        decreases ps.len() - i,
    {
        match find_seed(planes, i) {
            None => {},
            Some((sj, sk, first)) => {
                proof {
                    lemma_seed_range(ps, i as int, 0);
                }
                let ghost whole = face(ps, i as int)->Some_0;
                let mut points: Vec<Vertex> = Vec::new();
                points.push(first);
                let mut j = sj;
                let mut k = sk;
                let mut fuel: usize = planes.len();
                assert(points@ =~= seq![first]);
                loop
                    invariant
                        ps == planes@,
                        all_bounded(ps),
                        i < ps.len(),
                        j < ps.len(),
                        fuel <= ps.len(),
                        ps.len() <= usize::MAX,
                        whole == points@ + walk(
                            ps,
                            i as int,
                            j as int,
                            k as int,
                            sj as int,
                            sk as int,
                            fuel as nat,
                        ),
                    ensures
                        points@ =~= whole,
                    decreases fuel,
                {
                    if fuel == 0 {
                        assert(points@ + Seq::<Vertex>::empty() =~= points@);
                        break;
                    }
                    proof {
                        lemma_next_plane_range(ps, i as int, j as int, k as int, 0);
                    }
                    match find_with_with_without(planes, i, j, k) {
                        None => {
                            assert(points@ + Seq::<Vertex>::empty() =~= points@);
                            break;
                        },
                        Some((m, point)) => {
                            if (m == sj && j == sk) || (m == sk && j == sj) {
                                assert(points@ + Seq::<Vertex>::empty() =~= points@);
                                break;
                            }
                            let ghost before = points@;
                            let ghost rest = walk(ps, i as int, m as int, j as int, sj as int, sk as int, (fuel - 1) as nat);
                            assert(next_plane(ps, i as int, j as int, k as int, 0) == Some(m as int));
                            assert(!closes(m as int, j as int, sj as int, sk as int));
                            assert(point == meet(ps[m as int], ps[i as int], ps[j as int])->Some_0);
                            assert(walk(ps, i as int, j as int, k as int, sj as int, sk as int, fuel as nat)
                                == seq![point] + rest);
                            points.push(point);
                            assert(before + walk(ps, i as int, j as int, k as int, sj as int, sk as int, fuel as nat)
                                =~= points@ + walk(ps, i as int, m as int, j as int, sj as int, sk as int, (fuel - 1) as nat));
                            k = j;
                            j = m;
                            fuel = fuel - 1;
                        },
                    }
                }
                assert(points@ =~= whole);
                sides.push(points);
            },
        }
        proof {
            assert(loops_view(sides@) =~= faces(ps, i + 1));
        }
        i = i + 1;
    }
    sides
}

/// The engine point of a document point: Y and Z swap, since the document has
/// Z up. None unless every coordinate is a whole number within range.
pub open spec fn engine_point(p: Point) -> Option<Point3> {
    if p.x.scale == 0 && p.y.scale == 0 && p.z.scale == 0 && -COORD_LIMIT <= p.x.mantissa
        <= COORD_LIMIT && -COORD_LIMIT <= p.y.mantissa <= COORD_LIMIT && -COORD_LIMIT
        <= p.z.mantissa <= COORD_LIMIT {
        Some(Point3 { x: p.x.mantissa, y: p.z.mantissa, z: p.y.mantissa })
    } else {
        None
    }
}

pub open spec fn max_scale(a: u32, b: u32) -> u32 {
    if a >= b {
        a
    } else {
        b
    }
}

/// The largest scale among the coordinates of three points.
pub open spec fn plane_scale(ps: Seq<Point>) -> u32 {
    max_scale(
        max_scale(
            max_scale(max_scale(ps[0].x.scale, ps[0].y.scale), max_scale(ps[0].z.scale, ps[1].x.scale)),
            max_scale(max_scale(ps[1].y.scale, ps[1].z.scale), max_scale(ps[2].x.scale, ps[2].y.scale)),
        ),
        ps[2].z.scale,
    )
}

/// `n` times `10^e`, for a scale `e` at least the scale of `n`.
pub open spec fn scaled(n: Num, e: u32) -> int {
    n.mantissa * pow10((e - n.scale) as nat)
}

/// The engine point of a document point, in units of `10^-e`: Y and Z swap,
/// since the document has Z up. None unless every coordinate is then a whole
/// number within range.
pub open spec fn engine_point_at(p: Point, e: u32) -> Option<Point3> {
    let (x, y, z) = (scaled(p.x, e), scaled(p.y, e), scaled(p.z, e));
    if -COORD_LIMIT <= x <= COORD_LIMIT && -COORD_LIMIT <= y <= COORD_LIMIT && -COORD_LIMIT <= z
        <= COORD_LIMIT {
        Some(Point3 { x: x as i64, y: z as i64, z: y as i64 })
    } else {
        None
    }
}

/// The plane through three document points. Their coordinates are taken in
/// units of `10^-e`, `e` the largest scale among them, and the normal is
/// multiplied by `10^e`, so that `normal · v == d` for the points `v` of the
/// plane in engine coordinates. None where a scaled coordinate or the normal
/// leaves its range.
pub open spec fn standard_plane_of(ps: Seq<Point>) -> Option<StandardPlane> {
    let e = plane_scale(ps);
    match (engine_point_at(ps[0], e), engine_point_at(ps[1], e), engine_point_at(ps[2], e)) {
        (Some(p), Some(q), Some(r)) => {
            let s = plane_through(p, q, r);
            let k = pow10(e as nat) as int;
            if -NORMAL_LIMIT <= s.nx * k <= NORMAL_LIMIT && -NORMAL_LIMIT <= s.ny * k
                <= NORMAL_LIMIT && -NORMAL_LIMIT <= s.nz * k <= NORMAL_LIMIT {
                Some(
                    StandardPlane {
                        nx: (s.nx * k) as i128,
                        ny: (s.ny * k) as i128,
                        nz: (s.nz * k) as i128,
                        d: s.d,
                    },
                )
            } else {
                None
            }
        },
        _ => None,
    }
}

fn in_range(v: i64) -> (r: bool)
    ensures
        r == (-COORD_LIMIT <= v <= COORD_LIMIT),
{
    -COORD_LIMIT <= v && v <= COORD_LIMIT
}

/// `n` in units of `10^-e`, where that is a whole number within range.
fn scaled_coord(n: Num, e: u32) -> (r: Option<i64>)
    requires
        n.wf(),
        n.scale <= e <= MAX_SCALE,
    ensures
        match r {
            Some(v) => v == scaled(n, e) && -COORD_LIMIT <= v <= COORD_LIMIT,
            None => !(-COORD_LIMIT <= scaled(n, e) <= COORD_LIMIT),
        },
{
    let k = pow10_u64(e - n.scale);
    let ghost kk = pow10((e - n.scale) as nat) as int;
    if n.mantissa == 0 {
        assert(scaled(n, e) == 0) by (nonlinear_arith)
            requires
                n.mantissa == 0,
                scaled(n, e) == n.mantissa * kk,
        ;
        return Some(0);
    }
    if k > 65536 || !in_range(n.mantissa) {
        assert(!(-COORD_LIMIT <= scaled(n, e) <= COORD_LIMIT)) by (nonlinear_arith)
            requires
                n.mantissa != 0,
                kk >= 1,
                kk > 65536 || n.mantissa > 65536 || n.mantissa < -65536,
                scaled(n, e) == n.mantissa * kk,
        ;
        return None;
    }
    assert(-0x1_0000_0000 <= n.mantissa * kk <= 0x1_0000_0000) by (nonlinear_arith)
        requires
            1 <= kk <= 65536,
            -65536 <= n.mantissa <= 65536,
    ;
    let v = n.mantissa * (k as i64);
    if in_range(v) {
        Some(v)
    } else {
        None
    }
}

fn engine_point_exec(p: &Point, e: u32) -> (r: Option<Point3>)
    requires
        p.wf(),
        p.x.scale <= e && p.y.scale <= e && p.z.scale <= e,
        e <= MAX_SCALE,
    ensures
        r == engine_point_at(*p, e),
        r matches Some(q) ==> q.in_range(),
{
    match (scaled_coord(p.x, e), scaled_coord(p.y, e), scaled_coord(p.z, e)) {
        (Some(x), Some(y), Some(z)) => Some(Point3 { x, y: z, z: y }),
        _ => None,
    }
}

fn max_u32(a: u32, b: u32) -> (r: u32)
    ensures
        r == max_scale(a, b),
{
    if a >= b {
        a
    } else {
        b
    }
}

impl Point {
    /// This point in engine coordinates, where it has whole coordinates in range.
    pub fn new_vec3(&self) -> (r: Option<Point3>)
        ensures
            r == engine_point(*self),
            r matches Some(p) ==> p.in_range(),
    {
        if self.x.scale == 0 && self.y.scale == 0 && self.z.scale == 0 && in_range(self.x.mantissa)
            && in_range(self.y.mantissa) && in_range(self.z.mantissa) {
            Some(Point3 { x: self.x.mantissa, y: self.z.mantissa, z: self.y.mantissa })
        } else {
            None
        }
    }
}

impl StandardPlane {
    /// The plane of a side's three points in engine coordinates; decimal
    /// coordinates are taken exactly.
    pub fn new(plane: &Plane) -> (r: Option<StandardPlane>)
        requires
            plane.wf(),
        ensures
            r == standard_plane_of(plane.points@),
            r matches Some(s) ==> s.bounded(),
    {
        let ghost ps = plane.points@;
        assert(ps[0].wf() && ps[1].wf() && ps[2].wf());
        let (a, b, c) = (&plane.points[0], &plane.points[1], &plane.points[2]);
        let e = max_u32(
            max_u32(
                max_u32(max_u32(a.x.scale, a.y.scale), max_u32(a.z.scale, b.x.scale)),
                max_u32(max_u32(b.y.scale, b.z.scale), max_u32(c.x.scale, c.y.scale)),
            ),
            c.z.scale,
        );
        assert(e == plane_scale(ps));
        let (p, q, r) = match (engine_point_exec(a, e), engine_point_exec(b, e), engine_point_exec(c, e)) {
            (Some(p), Some(q), Some(r)) => (p, q, r),
            _ => {
                return None;
            },
        };
        let s = StandardPlane::from_points(&p, &q, &r);
        let k = pow10_u64(e) as i128;
        proof {
            lemma_pow10_mono(0, e as nat);
        }
        let lim = NORMAL_LIMIT / k;
        let fits = -lim <= s.nx && s.nx <= lim && -lim <= s.ny && s.ny <= lim && -lim <= s.nz && s.nz <= lim;
        proof {
            let kk = k as int;
            lemma_limit_div(s.nx as int, kk);
            lemma_limit_div(s.ny as int, kk);
            lemma_limit_div(s.nz as int, kk);
        }
        if !fits {
            return None;
        }
        proof {
            let kk = k as int;
            lemma_mul_bound(s.nx as int, kk, lim as int, kk);
            lemma_mul_bound(s.ny as int, kk, lim as int, kk);
            lemma_mul_bound(s.nz as int, kk, lim as int, kk);
            assert(lim * kk <= NORMAL_LIMIT) by (nonlinear_arith)
                requires
                    lim == NORMAL_LIMIT as int / kk,
                    kk >= 1,
            ;
        }
        Some(StandardPlane { nx: s.nx * k, ny: s.ny * k, nz: s.nz * k, d: s.d })
    }
}

proof fn lemma_limit_div(v: int, k: int)
    requires
        k >= 1,
    ensures
        (-(NORMAL_LIMIT as int / k) <= v <= NORMAL_LIMIT as int / k) <==> (-NORMAL_LIMIT <= v * k
            <= NORMAL_LIMIT),
{
    let l = NORMAL_LIMIT as int / k;
    assert(l * k <= NORMAL_LIMIT && NORMAL_LIMIT < (l + 1) * k) by (nonlinear_arith)
        requires
            k >= 1,
            l == NORMAL_LIMIT as int / k,
    ;
    if v > l {
        assert(v * k > NORMAL_LIMIT) by (nonlinear_arith)
            requires
                v >= l + 1,
                k >= 1,
                NORMAL_LIMIT < (l + 1) * k,
        ;
    } else if v < -l {
        assert(v * k < -NORMAL_LIMIT) by (nonlinear_arith)
            requires
                v <= -(l + 1),
                k >= 1,
                NORMAL_LIMIT < (l + 1) * k,
        ;
    } else {
        assert(-NORMAL_LIMIT <= v * k <= NORMAL_LIMIT) by (nonlinear_arith)
            requires
                -l <= v <= l,
                k >= 1,
                l * k <= NORMAL_LIMIT,
        ;
    }
}

proof fn lemma_scale_dot(a: int, b: int, c: int, k: int, x: int, y: int, z: int)
    ensures
        (a * k) * x + (b * k) * y + (c * k) * z == k * (a * x + b * y + c * z),
{
    lemma_mul_swap(a, k, x);
    lemma_mul_swap(b, k, y);
    lemma_mul_swap(c, k, z);
    lemma_distribute(k, a * x, b * y, c * z);
}

proof fn lemma_mul_swap(a: int, k: int, x: int)
    ensures
        (a * k) * x == k * (a * x),
{
    assert((a * k) * x == k * (a * x)) by (nonlinear_arith);
}

proof fn lemma_distribute(k: int, u: int, v: int, w: int)
    ensures
        k * (u + v + w) == k * u + k * v + k * w,
{
    assert(k * (u + v + w) == k * u + k * v + k * w) by (nonlinear_arith);
}

/// The plane of three document points holds each of them and its normal is
/// orthogonal to both edges from the first. With the points in units of
/// `10^-e` (`e` the largest scale among their coordinates), `normal · v` is
/// `d * 10^e` for each point `v`: in document units, this is the plane with
/// normal `(q - p) × (r - p)` and offset `p · normal`, both multiplied by
/// `10^(3e)`.
pub proof fn lemma_standard_plane_holds_points(ps: Seq<Point>)
    requires
        standard_plane_of(ps) is Some,
    ensures
        ({
            let s = standard_plane_of(ps)->Some_0;
            let e = plane_scale(ps);
            let k = pow10(e as nat) as int;
            let p = engine_point_at(ps[0], e)->Some_0;
            let q = engine_point_at(ps[1], e)->Some_0;
            let r = engine_point_at(ps[2], e)->Some_0;
            &&& s.nx * (q.x - p.x) + s.ny * (q.y - p.y) + s.nz * (q.z - p.z) == 0
            &&& s.nx * (r.x - p.x) + s.ny * (r.y - p.y) + s.nz * (r.z - p.z) == 0
            &&& s.nx * p.x + s.ny * p.y + s.nz * p.z == s.d * k
            &&& s.nx * q.x + s.ny * q.y + s.nz * q.z == s.d * k
            &&& s.nx * r.x + s.ny * r.y + s.nz * r.z == s.d * k
        }),
{
    let s = standard_plane_of(ps)->Some_0;
    let e = plane_scale(ps);
    let k = pow10(e as nat) as int;
    let p = engine_point_at(ps[0], e)->Some_0;
    let q = engine_point_at(ps[1], e)->Some_0;
    let r = engine_point_at(ps[2], e)->Some_0;
    let b = plane_through(p, q, r);
    lemma_plane_through_points(p, q, r);
    let (bx, by, bz, bd) = (b.nx as int, b.ny as int, b.nz as int, b.d as int);
    assert(s.nx == bx * k && s.ny == by * k && s.nz == bz * k && s.d == bd);
    lemma_scale_dot(bx, by, bz, k, q.x - p.x, q.y - p.y, q.z - p.z);
    lemma_scale_dot(bx, by, bz, k, r.x - p.x, r.y - p.y, r.z - p.z);
    lemma_scale_dot(bx, by, bz, k, p.x as int, p.y as int, p.z as int);
    lemma_scale_dot(bx, by, bz, k, q.x as int, q.y as int, q.z as int);
    lemma_scale_dot(bx, by, bz, k, r.x as int, r.y as int, r.z as int);
    assert(bx * (q.x - p.x) + by * (q.y - p.y) + bz * (q.z - p.z) == 0);
    assert(bx * (r.x - p.x) + by * (r.y - p.y) + bz * (r.z - p.z) == 0);
    assert(bx * p.x + by * p.y + bz * p.z == bd);
    assert(bx * q.x + by * q.y + bz * q.z == bd);
    assert(bx * r.x + by * r.y + bz * r.z == bd);
    assert(k * bd == bd * k) by (nonlinear_arith);
    assert(k * 0 == 0);
}

/// The planes of the sides, in order, or the id of the first side whose points
/// give no plane.
pub open spec fn planes_of(sides: Seq<SideView>) -> Result<Seq<StandardPlane>, u32>
    decreases sides.len(),
{
    if sides.len() == 0 {
        Ok(Seq::empty())
    } else {
        match planes_of(sides.drop_last()) {
            Err(id) => Err(id),
            Ok(ps) => match standard_plane_of(sides.last().plane) {
                Some(s) => Ok(ps.push(s)),
                None => Err(sides.last().id),
            },
        }
    }
}

/// The bounding planes of a solid, in the order of its sides; the id of the
/// first side whose points give no plane where there is one.
pub fn solid_planes(solid: &Solid) -> (r: Result<Vec<StandardPlane>, u32>)
    requires
        solid.wf(),
    ensures
        match planes_of(solid@.sides) {
            Ok(ps) => r matches Ok(v) && v@ == ps && all_bounded(v@),
            Err(id) => r == Err::<Vec<StandardPlane>, u32>(id),
        },
{
    let mut r: Vec<StandardPlane> = Vec::new();
    let mut i: usize = 0;
    while i < solid.sides.len()
        invariant
            solid.wf(),
            i <= solid.sides@.len(),
            planes_of(solid@.sides.take(i as int)) == Ok::<Seq<StandardPlane>, u32>(r@),
            all_bounded(r@),
        decreases solid.sides@.len() - i,
    {
        assert(solid@.sides.take(i + 1).drop_last() =~= solid@.sides.take(i as int));
        assert(solid@.sides[i as int] == solid.sides@[i as int]@);
        assert(solid.sides@[i as int].wf());
        match StandardPlane::new(&solid.sides[i].plane) {
            Some(s) => r.push(s),
            None => {
                proof {
                    lemma_planes_err(solid@.sides, i + 1, solid@.sides.len() as int);
                    assert(solid@.sides.take(solid@.sides.len() as int) =~= solid@.sides);
                }
                return Err(solid.sides[i].id);
            },
        }
        i = i + 1;
    }
    assert(solid@.sides.take(i as int) =~= solid@.sides);
    Ok(r)
}

proof fn lemma_planes_err(sides: Seq<SideView>, k: int, m: int)
    requires
        0 <= k <= m <= sides.len(),
        planes_of(sides.take(k)) is Err,
    ensures
        planes_of(sides.take(m)) == planes_of(sides.take(k)),
    decreases m - k,
{
    if m > k {
        lemma_planes_err(sides, k, m - 1);
        assert(sides.take(m).drop_last() =~= sides.take(m - 1));
    }
}

/// The triangles of a fan over a face loop of `n` vertices, anchored at the
/// first vertex: `(t + 2, t + 1, 0)` for each `t < n - 2`.
pub fn side_to_triangles(n: usize) -> (r: Vec<(usize, usize, usize)>)
    ensures
        r@.len() == if n >= 3 {
            n - 2
        } else {
            0
        },
        forall|t: int| 0 <= t < r@.len() ==> #[trigger] r@[t] == ((t + 2) as usize, (t + 1) as usize, 0usize),
{
    let mut r: Vec<(usize, usize, usize)> = Vec::new();
    if n < 3 {
        return r;
    }
    let mut t: usize = 0;
    while t < n - 2
        invariant
            n >= 3,
            t <= n - 2,
            r@.len() == t,
            forall|u: int| 0 <= u < t ==> #[trigger] r@[u] == ((u + 2) as usize, (u + 1) as usize, 0usize),
        decreases n - 2 - t,
    {
        r.push((t + 2, t + 1, 0));
        t = t + 1;
    }
    r
}

} // verus!
