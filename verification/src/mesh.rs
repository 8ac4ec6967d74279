//! The indexed triangle mesh of a designed propeller, as written to the
//! companion PLY document that the headless renderer reads.
//!
//! The mesh here is the topology: which vertices are pushed in which order
//! and which triangles join them.  Vertex positions and texture
//! coordinates are a parameter of the mesh; the host computes them from
//! the blade geometry.  Every triangle only ever refers to vertices that
//! exist.
use vstd::prelude::*;
use crate::ply::{decimal, usize_decimal};
use vstd::arithmetic::div_mod::lemma_fundamental_div_mod_converse;

verus! {

/// A triangle: three vertex indices.
pub type Tri = (usize, usize, usize);

/// Whether every triangle of `tris` refers to one of `n` vertices.
pub open spec fn valid_triangles(tris: Seq<Tri>, n: nat) -> bool {
    forall|t: int| 0 <= t < tris.len() ==> {
        &&& (#[trigger] tris[t]).0 < n
        &&& tris[t].1 < n
        &&& tris[t].2 < n
    }
}

/// A triangle with every index moved up by `base`.
pub open spec fn shifted(t: Tri, base: int) -> Tri {
    ((t.0 + base) as usize, (t.1 + base) as usize, (t.2 + base) as usize)
}

/// An indexed triangle mesh under construction.
pub struct Mesh<V> {
    verts: Vec<V>,
    tris: Vec<Tri>,
}

impl<V> Mesh<V> {
    /// The vertices, in push order.
    pub closed spec fn vertex_seq(&self) -> Seq<V> {
        self.verts@
    }

    /// The triangles, in order.
    pub closed spec fn triangle_seq(&self) -> Seq<Tri> {
        self.tris@
    }

    /// Every triangle refers to an existing vertex.
    pub open spec fn wf(&self) -> bool {
        valid_triangles(self.triangle_seq(), self.vertex_seq().len())
    }

    /// An empty mesh.
    pub fn new() -> (m: Self)
        ensures
            m.wf(),
            m.vertex_seq() == Seq::<V>::empty(),
            m.triangle_seq() == Seq::<Tri>::empty(),
    {
        Mesh { verts: Vec::new(), tris: Vec::new() }
    }

    /// Append a vertex; its index is returned.
    pub fn push(&mut self, v: V) -> (i: usize)
        requires
            old(self).wf(),
        ensures
            final(self).wf(),
            i == old(self).vertex_seq().len(),
            final(self).vertex_seq() == old(self).vertex_seq().push(v),
            final(self).triangle_seq() == old(self).triangle_seq(),
    {
        self.verts.push(v);
        self.verts.len() - 1
    }

    /// Add the triangle `(a, b, c)`.
    pub fn tri(&mut self, a: usize, b: usize, c: usize)
        requires
            old(self).wf(),
            a < old(self).vertex_seq().len(),
            b < old(self).vertex_seq().len(),
            c < old(self).vertex_seq().len(),
        ensures
            final(self).wf(),
            final(self).vertex_seq() == old(self).vertex_seq(),
            final(self).triangle_seq() == old(self).triangle_seq().push((a, b, c)),
    {
        self.tris.push((a, b, c));
    }

    /// Add the quadrilateral `a b c d` as the triangles `(a, b, c)` and
    /// `(a, c, d)`.
    pub fn quad(&mut self, a: usize, b: usize, c: usize, d: usize)
        requires
            old(self).wf(),
            a < old(self).vertex_seq().len(),
            b < old(self).vertex_seq().len(),
            c < old(self).vertex_seq().len(),
            d < old(self).vertex_seq().len(),
        ensures
            final(self).wf(),
            final(self).vertex_seq() == old(self).vertex_seq(),
            final(self).triangle_seq() == old(self).triangle_seq().push((a, b, c)).push((a, c, d)),
    {
        self.tris.push((a, b, c));
        self.tris.push((a, c, d));
    }

    /// The vertices, in push order.
    pub fn vertices(&self) -> (r: &Vec<V>)
        ensures
            r@ == self.vertex_seq(),
    {
        &self.verts
    }

    /// The triangles, in order.
    pub fn triangles(&self) -> (r: &Vec<Tri>)
        ensures
            r@ == self.triangle_seq(),
    {
        &self.tris
    }
}

/// The PLY header of a mesh of `nv` vertices and `nf` triangles, each
/// vertex carrying a position, texture coordinates and a part number: one
/// line per piece, each ending in a newline.
pub open spec fn ply_header_spec(nv: nat, nf: nat) -> Seq<char> {
    "ply\n"@ + "format ascii 1.0\n"@ + ("element vertex "@ + decimal(nv) + "\n"@)
        + "property float x\n"@ + "property float y\n"@ + "property float z\n"@
        + "property float u\n"@ + "property float v\n"@ + "property int part\n"@ + (
    "element face "@ + decimal(nf) + "\n"@) + "property list uchar int vertex_indices\n"@
        + "end_header\n"@
}

/// The PLY header (see [`ply_header_spec`]).
pub fn ply_header(nv: usize, nf: usize) -> (r: String)
    ensures
        r@ == ply_header_spec(nv as nat, nf as nat),
{
    let a = String::from_str("element vertex ").concat(usize_decimal(nv).as_str()).concat("\n");
    let b = String::from_str("element face ").concat(usize_decimal(nf).as_str()).concat("\n");
    String::from_str("ply\n").concat("format ascii 1.0\n").concat(a.as_str()).concat(
        "property float x\n",
    ).concat("property float y\n").concat("property float z\n").concat("property float u\n").concat(
        "property float v\n",
    ).concat("property int part\n").concat(b.as_str()).concat(
        "property list uchar int vertex_indices\n",
    ).concat("end_header\n")
}

/// One face line: `3 a b c`.
pub open spec fn face_line(t: Tri) -> Seq<char> {
    "3 "@ + decimal(t.0 as nat) + " "@ + decimal(t.1 as nat) + " "@ + decimal(t.2 as nat) + "\n"@
}

/// The face lines of `tris`, in order.
pub open spec fn face_lines_spec(tris: Seq<Tri>) -> Seq<char>
    decreases tris.len(),
{
    if tris.len() == 0 {
        Seq::empty()
    } else {
        face_lines_spec(tris.drop_last()) + face_line(tris.last())
    }
}

/// The face section of the PLY document.
pub fn face_lines(tris: &Vec<Tri>) -> (r: String)
    ensures
        r@ == face_lines_spec(tris@),
{
    let mut s = String::new();
    let mut i: usize = 0;
    while i < tris.len()
        invariant
            i <= tris@.len(),
            s@ == face_lines_spec(tris@.take(i as int)),
        decreases tris@.len() - i,
    {
        let (a, b, c) = tris[i];
        let line = String::from_str("3 ").concat(usize_decimal(a).as_str()).concat(" ").concat(
            usize_decimal(b).as_str(),
        ).concat(" ").concat(usize_decimal(c).as_str()).concat("\n");
        assert(tris@.take(i as int + 1).drop_last() =~= tris@.take(i as int));
        s = s.concat(line.as_str());
        i = i + 1;
    }
    assert(tris@.take(i as int) =~= tris@);
    s
}

/// Segments around each hub ring.
pub const HUB_SEGMENTS: usize = 56;

/// Ring gaps along the hub (there are one more rings than gaps).
pub const HUB_RINGS: usize = 12;

/// Vertices the hub adds: every ring, then the two end-cap centres.
pub open spec fn hub_vertex_count() -> int {
    (HUB_RINGS + 1) * HUB_SEGMENTS + 2
}

/// Triangles the hub adds: two per side quad, one per end-cap segment.
pub open spec fn hub_triangle_count() -> int {
    2 * HUB_RINGS * HUB_SEGMENTS + 2 * HUB_SEGMENTS
}

/// Triangle `t` of the hub, by vertex index relative to the hub's first
/// vertex.  Ring `k` holds vertices `k * S .. (k + 1) * S`, the end-cap
/// centres follow the last ring.  Each segment `i` between rings `k` and
/// `k + 1` is the quad `k*S+i, k*S+i', (k+1)*S+i', (k+1)*S+i` with
/// `i' = (i + 1) mod S`; each end ring is closed by a fan of triangles
/// `(ring*S+i, ring*S+i', centre)`.
pub open spec fn hub_tri(t: int) -> Tri {
    let s = HUB_SEGMENTS as int;
    let r = HUB_RINGS as int;
    if t < 2 * r * s {
        let q = t / 2;
        let k = q / s;
        let i = q % s;
        let a = k * s + i;
        let b = k * s + (i + 1) % s;
        let c = (k + 1) * s + (i + 1) % s;
        let d = (k + 1) * s + i;
        if t % 2 == 0 {
            (a as usize, b as usize, c as usize)
        } else {
            (a as usize, c as usize, d as usize)
        }
    } else {
        let u = t - 2 * r * s;
        let e = u / s;
        let i = u % s;
        let ring = e * r;
        ((ring * s + i) as usize, (ring * s + (i + 1) % s) as usize, ((r + 1) * s + e) as usize)
    }
}

/// The hub's side quads join neighbouring rings: with ring `r` of a vertex
/// index `v` being `v / S` and its segment `v % S`, the quad of segment `i`
/// above ring `k` is the triangle (ring `k` at `i`, ring `k` at `i + 1`,
/// ring `k + 1` at `i + 1`) and the triangle (ring `k` at `i`, ring `k + 1`
/// at `i + 1`, ring `k + 1` at `i`), segments counted modulo `S`.
pub proof fn hub_sides_join_neighbouring_rings(k: int, i: int)
    requires
        0 <= k < HUB_RINGS,
        0 <= i < HUB_SEGMENTS,
    ensures
        ({
            let s = HUB_SEGMENTS as int;
            let q = k * s + i;
            let t1 = hub_tri(2 * q);
            let t2 = hub_tri(2 * q + 1);
            let i2 = (i + 1) % s;
            &&& (t1.0 as int) / s == k && (t1.0 as int) % s == i
            &&& (t1.1 as int) / s == k && (t1.1 as int) % s == i2
            &&& (t1.2 as int) / s == k + 1 && (t1.2 as int) % s == i2
            &&& t2.0 == t1.0
            &&& t2.1 == t1.2
            &&& (t2.2 as int) / s == k + 1 && (t2.2 as int) % s == i
        }),
{
    let s = HUB_SEGMENTS as int;
    let q = k * s + i;
    assert((2 * q) / 2 == q && (2 * q) % 2 == 0);
    assert((2 * q + 1) / 2 == q && (2 * q + 1) % 2 == 1);
    assert(q / s == k && q % s == i);
    let i2 = (i + 1) % s;
    assert(0 <= i2 < s);
    assert((k * s + i) / s == k && (k * s + i) % s == i);
    assert((k * s + i2) / s == k && (k * s + i2) % s == i2);
    assert(((k + 1) * s + i2) / s == k + 1 && ((k + 1) * s + i2) % s == i2);
    assert(((k + 1) * s + i) / s == k + 1 && ((k + 1) * s + i) % s == i);
}

/// The hub's end caps fan around their centres: triangle `i` of cap `e`
/// (the first ring's cap, then the last ring's) joins segments `i` and
/// `i + 1` (modulo `S`) of its own ring to that cap's centre, the vertex
/// that follows all rings (the first cap's centre, then the last's).
pub proof fn hub_caps_fan_around_their_centres(e: int, i: int)
    requires
        0 <= e < 2,
        0 <= i < HUB_SEGMENTS,
    ensures
        ({
            let s = HUB_SEGMENTS as int;
            let ring = if e == 0 { 0 } else { HUB_RINGS as int };
            let t = hub_tri(2 * HUB_RINGS * s + e * s + i);
            &&& (t.0 as int) / s == ring && (t.0 as int) % s == i
            &&& (t.1 as int) / s == ring && (t.1 as int) % s == (i + 1) % s
            &&& t.2 == (HUB_RINGS + 1) * s + e
        }),
{
    let s = HUB_SEGMENTS as int;
    let u = e * s + i;
    assert(u / s == e && u % s == i);
    let ring = e * HUB_RINGS;
    let i2 = (i + 1) % s;
    assert(0 <= i2 < s);
    assert((ring * s + i) / s == ring && (ring * s + i) % s == i);
    assert((ring * s + i2) / s == ring && (ring * s + i2) % s == i2);
}

/// Add the hub: its rings of vertices (ring after ring, `HUB_SEGMENTS`
/// each), the quads between neighbouring rings, then each end cap's centre
/// vertex and its fan.
pub fn hub_into<V: Copy>(mesh: &mut Mesh<V>, rings: &Vec<V>, caps: (V, V))
    requires
        old(mesh).wf(),
        rings@.len() == (HUB_RINGS + 1) * HUB_SEGMENTS,
        old(mesh).vertex_seq().len() + hub_vertex_count() <= usize::MAX,
    ensures
        final(mesh).wf(),
        final(mesh).vertex_seq() == old(mesh).vertex_seq() + rings@ + seq![caps.0, caps.1],
        final(mesh).triangle_seq().len() == old(mesh).triangle_seq().len() + hub_triangle_count(),
        final(mesh).triangle_seq().take(old(mesh).triangle_seq().len() as int)
            == old(mesh).triangle_seq(),
        forall|t: int|
            0 <= t < hub_triangle_count() ==> #[trigger] final(mesh).triangle_seq()[old(
                mesh,
            ).triangle_seq().len() + t] == shifted(hub_tri(t), old(mesh).vertex_seq().len() as int),
{
    let ghost v0 = mesh.vertex_seq();
    let ghost t0 = mesh.triangle_seq();
    let base: usize = mesh.vertices().len();
    let seg: usize = HUB_SEGMENTS;
    let mut idx: usize = 0;
    while idx < rings.len()
        invariant
            mesh.wf(),
            idx <= rings@.len(),
            rings@.len() == (HUB_RINGS + 1) * HUB_SEGMENTS,
            base == v0.len(),
            base + hub_vertex_count() <= usize::MAX,
            mesh.vertex_seq() == v0 + rings@.take(idx as int),
            mesh.triangle_seq() == t0,
        decreases rings@.len() - idx,
    {
        mesh.push(rings[idx]);
        assert(rings@.take(idx as int + 1) =~= rings@.take(idx as int).push(rings@[idx as int]));
        idx = idx + 1;
    }
    assert(rings@.take(idx as int) =~= rings@);
    let mut k: usize = 0;
    while k < HUB_RINGS
        invariant
            mesh.wf(),
            k <= HUB_RINGS,
            seg == HUB_SEGMENTS,
            base == v0.len(),
            base + hub_vertex_count() <= usize::MAX,
            mesh.vertex_seq() == v0 + rings@,
            rings@.len() == (HUB_RINGS + 1) * HUB_SEGMENTS,
            mesh.triangle_seq().len() == t0.len() + 2 * k * seg,
            mesh.triangle_seq().take(t0.len() as int) == t0,
            forall|t: int|
                0 <= t < 2 * k * seg ==> #[trigger] mesh.triangle_seq()[t0.len() + t] == shifted(
                    hub_tri(t),
                    base as int,
                ),
        decreases HUB_RINGS - k,
    {
        let mut i: usize = 0;
        while i < seg
            invariant
                mesh.wf(),
                k < HUB_RINGS,
                i <= seg,
                seg == HUB_SEGMENTS,
                base == v0.len(),
                base + hub_vertex_count() <= usize::MAX,
                mesh.vertex_seq() == v0 + rings@,
                rings@.len() == (HUB_RINGS + 1) * HUB_SEGMENTS,
                mesh.triangle_seq().len() == t0.len() + 2 * (k * seg + i),
                mesh.triangle_seq().take(t0.len() as int) == t0,
                forall|t: int|
                    0 <= t < 2 * (k * seg + i) ==> #[trigger] mesh.triangle_seq()[t0.len() + t]
                        == shifted(hub_tri(t), base as int),
            decreases seg - i,
        {
            let j: usize = if i + 1 == seg {
                0
            } else {
                i + 1
            };
            let a: usize = base + k * seg + i;
            let b: usize = base + k * seg + j;
            let c: usize = base + (k + 1) * seg + j;
            let d: usize = base + (k + 1) * seg + i;
            let ghost before = mesh.triangle_seq();
            mesh.quad(a, b, c, d);
            proof {
                let q = (k * seg + i) as int;
                assert((2 * q) / 2 == q);
                assert((2 * q + 1) / 2 == q);
                assert(q / 56 == k as int);
                assert(q % 56 == i as int);
                assert((i as int + 1) % 56 == j as int);
                assert(mesh.triangle_seq()[t0.len() + 2 * q] == shifted(hub_tri(2 * q), base as int));
                assert(mesh.triangle_seq()[t0.len() + 2 * q + 1] == shifted(hub_tri(2 * q + 1), base as int));
                assert forall|t: int|
                    0 <= t < 2 * (q + 1) implies #[trigger] mesh.triangle_seq()[t0.len() + t]
                        == shifted(hub_tri(t), base as int) by {
                    if t < 2 * q {
                        assert(mesh.triangle_seq()[t0.len() + t] == before[t0.len() + t]);
                    }
                }
                assert(mesh.triangle_seq().take(t0.len() as int) =~= t0) by {
                    assert(before.take(t0.len() as int) == t0);
                }
            }
            i = i + 1;
        }
        k = k + 1;
    }
    let mut e: usize = 0;
    while e < 2
        invariant
            mesh.wf(),
            e <= 2,
            seg == HUB_SEGMENTS,
            base == v0.len(),
            base + hub_vertex_count() <= usize::MAX,
            rings@.len() == (HUB_RINGS + 1) * HUB_SEGMENTS,
            mesh.vertex_seq() == v0 + rings@ + (if e == 0 {
                Seq::<V>::empty()
            } else if e == 1 {
                seq![caps.0]
            } else {
                seq![caps.0, caps.1]
            }),
            mesh.triangle_seq().len() == t0.len() + 2 * HUB_RINGS * seg + e * seg,
            mesh.triangle_seq().take(t0.len() as int) == t0,
            forall|t: int|
                0 <= t < 2 * HUB_RINGS * seg + e * seg ==> #[trigger] mesh.triangle_seq()[t0.len()
                    + t] == shifted(hub_tri(t), base as int),
        decreases 2 - e,
    {
        let centre = if e == 0 {
            caps.0
        } else {
            caps.1
        };
        let ghost vb = mesh.vertex_seq();
        let cc: usize = mesh.push(centre);
        proof {
            if e == 0 {
                assert(mesh.vertex_seq() =~= v0 + rings@ + seq![caps.0]);
            } else {
                assert(mesh.vertex_seq() =~= v0 + rings@ + seq![caps.0, caps.1]);
            }
        }
        let ring: usize = e * HUB_RINGS;
        let mut i: usize = 0;
        while i < seg
            invariant
                mesh.wf(),
                e < 2,
                i <= seg,
                seg == HUB_SEGMENTS,
                ring == e * HUB_RINGS,
                base == v0.len(),
                cc == base + (HUB_RINGS + 1) * HUB_SEGMENTS + e,
                base + hub_vertex_count() <= usize::MAX,
                mesh.vertex_seq().len() == base + (HUB_RINGS + 1) * HUB_SEGMENTS + e + 1,
                mesh.vertex_seq() == v0 + rings@ + (if e == 0 {
                    seq![caps.0]
                } else {
                    seq![caps.0, caps.1]
                }),
                mesh.triangle_seq().len() == t0.len() + 2 * HUB_RINGS * seg + e * seg + i,
                mesh.triangle_seq().take(t0.len() as int) == t0,
                forall|t: int|
                    0 <= t < 2 * HUB_RINGS * seg + e * seg + i ==> #[trigger] mesh.triangle_seq()[
                    t0.len() + t] == shifted(hub_tri(t), base as int),
            decreases seg - i,
        {
            let j: usize = if i + 1 == seg {
                0
            } else {
                i + 1
            };
            let ghost before = mesh.triangle_seq();
            mesh.tri(base + ring * seg + i, base + ring * seg + j, cc);
            proof {
                let u = (e * seg + i) as int;
                let t: int = 2 * HUB_RINGS * seg + u;
                assert(u / 56 == e as int);
                assert(u % 56 == i as int);
                assert((i as int + 1) % 56 == j as int);
                assert(mesh.triangle_seq()[t0.len() + t] == shifted(hub_tri(t), base as int));
                assert forall|t2: int|
                    0 <= t2 < t + 1 implies #[trigger] mesh.triangle_seq()[t0.len() + t2]
                        == shifted(hub_tri(t2), base as int) by {
                    if t2 < t {
                        assert(mesh.triangle_seq()[t0.len() + t2] == before[t0.len() + t2]);
                    }
                }
                assert(mesh.triangle_seq().take(t0.len() as int) =~= t0) by {
                    assert(before.take(t0.len() as int) == t0);
                }
            }
            i = i + 1;
        }
        e = e + 1;
    }
}

/// Quads per gap between two blade stations: two per chordwise step (the
/// upper and the lower skin) and one closing the trailing edge.
pub open spec fn quads_per_gap(n: int) -> int {
    2 * n - 1
}

/// Quads of the lofted blade skin over `n_st` stations.
pub open spec fn loft_quads(n_st: int, n: int) -> int {
    (n_st - 1) * quads_per_gap(n)
}

/// Vertices a blade adds: four per loft quad, and per end cap its centre
/// and two per segment of the closed outline (`2n` segments).
pub open spec fn blade_vertex_count(n_st: int, n: int) -> int {
    4 * loft_quads(n_st, n) + 2 * (4 * n + 1)
}

/// Triangles a blade adds: two per loft quad, one per cap segment.
pub open spec fn blade_triangle_count(n_st: int, n: int) -> int {
    2 * loft_quads(n_st, n) + 4 * n
}

/// The rows of a table, as sequences.
pub open spec fn rows<V>(t: Seq<Vec<V>>) -> Seq<Seq<V>> {
    t.map_values(|r: Vec<V>| r@)
}

/// Corner `c` of quad `r` of the gap between stations `i` and `i + 1`.
/// Quad `2j` is the upper skin between chordwise points `j` and `j + 1`
/// (corners `(i, j), (i, j+1), (i+1, j+1), (i+1, j)`), quad `2j + 1` the
/// lower skin (`(i, j), (i+1, j), (i+1, j+1), (i, j+1)`), and the last
/// quad closes the trailing edge (`upper i, upper i+1, lower i+1, lower i`
/// at the last point).
pub open spec fn loft_vertex<V>(up: Seq<Seq<V>>, lo: Seq<Seq<V>>, n: int, i: int, r: int, c: int) -> V {
    if r < 2 * (n - 1) {
        let j = r / 2;
        if r % 2 == 0 {
            let di: int = if c == 2 || c == 3 { 1 } else { 0 };
            let dj: int = if c == 1 || c == 2 { 1 } else { 0 };
            up[i + di][j + dj]
        } else {
            let di: int = if c == 1 || c == 2 { 1 } else { 0 };
            let dj: int = if c == 2 || c == 3 { 1 } else { 0 };
            lo[i + di][j + dj]
        }
    } else {
        let di: int = if c == 1 || c == 2 { 1 } else { 0 };
        if c < 2 {
            up[i + di][n - 1]
        } else {
            lo[i + di][n - 1]
        }
    }
}

/// Point `m` of the closed outline loop of station `st`: the upper outline
/// from leading to trailing edge, then the lower one back.
pub open spec fn loop_point<V>(up: Seq<Seq<V>>, lo: Seq<Seq<V>>, n: int, st: int, m: int) -> V {
    if m < n {
        up[st][m]
    } else {
        lo[st][2 * n - 1 - m]
    }
}

/// Vertex `r` of end cap `e` (the root cap first, then the tip cap): the
/// centre, then for each loop segment `m` its two ends `m` and `m + 1`.
pub open spec fn cap_vertex<V>(
    up: Seq<Seq<V>>,
    lo: Seq<Seq<V>>,
    ce: Seq<V>,
    n_st: int,
    n: int,
    e: int,
    r: int,
) -> V {
    let st = if e == 0 { 0 } else { n_st - 1 };
    if r == 0 {
        ce[st]
    } else {
        let m = (r - 1) / 2;
        let s = (r - 1) % 2;
        loop_point(up, lo, n, st, (m + s) % (2 * n))
    }
}

/// Vertex `k` of a blade, relative to the blade's first vertex: the loft
/// quads' corners, four by four, then the two end caps.
pub open spec fn blade_vertex<V>(
    up: Seq<Seq<V>>,
    lo: Seq<Seq<V>>,
    ce: Seq<V>,
    n_st: int,
    n: int,
    k: int,
) -> V {
    let lv: int = 4 * loft_quads(n_st, n);
    if k < lv {
        let q = k / 4;
        loft_vertex(up, lo, n, q / quads_per_gap(n), q % quads_per_gap(n), k % 4)
    } else {
        let u = k - lv;
        cap_vertex(up, lo, ce, n_st, n, u / (4 * n + 1), u % (4 * n + 1))
    }
}

/// Triangle `t` of a blade, by vertex index relative to the blade's first
/// vertex: loft quad `q` is the triangles `(4q, 4q+1, 4q+2)` and
/// `(4q, 4q+2, 4q+3)`; cap segment `m` joins its two ends through the
/// centre.
pub open spec fn blade_tri(n_st: int, n: int, t: int) -> Tri {
    let lt: int = 2 * loft_quads(n_st, n);
    if t < lt {
        let b: int = 4 * (t / 2);
        if t % 2 == 0 {
            (b as usize, (b + 1) as usize, (b + 2) as usize)
        } else {
            (b as usize, (b + 2) as usize, (b + 3) as usize)
        }
    } else {
        let u = t - lt;
        let e = u / (2 * n);
        let m = u % (2 * n);
        let off: int = 4 * loft_quads(n_st, n) + e * (4 * n + 1);
        ((off + 1 + 2 * m) as usize, off as usize, (off + 2 + 2 * m) as usize)
    }
}

proof fn lemma_loft_index(n_st: int, n: int, i: int, r: int, c: int)
    requires
        n >= 1,
        0 <= i < n_st - 1,
        0 <= r < quads_per_gap(n),
        0 <= c < 4,
    ensures
        0 <= i * quads_per_gap(n) + r,
        4 * (i * quads_per_gap(n) + r) + c < 4 * loft_quads(n_st, n),
        (4 * (i * quads_per_gap(n) + r) + c) / 4 == i * quads_per_gap(n) + r,
        (4 * (i * quads_per_gap(n) + r) + c) % 4 == c,
        (i * quads_per_gap(n) + r) / quads_per_gap(n) == i,
        (i * quads_per_gap(n) + r) % quads_per_gap(n) == r,
{
    let qn = quads_per_gap(n);
    let q = i * qn + r;
    assert(0 <= q && q < (n_st - 1) * qn) by (nonlinear_arith)
        requires
            0 <= i < n_st - 1,
            0 <= r < qn,
            q == i * qn + r,
    ;
    lemma_fundamental_div_mod_converse(q, qn, i, r);
    lemma_fundamental_div_mod_converse(4 * q + c, 4, q, c);
}

proof fn lemma_div_mod(x: int, d: int, q: int, r: int)
    requires
        d > 0,
        0 <= r < d,
        x == q * d + r,
    ensures
        x / d == q,
        x % d == r,
{
    lemma_fundamental_div_mod_converse(x, d, q, r);
}

/// Append four vertices and the quad they form.
fn add_quad<V>(mesh: &mut Mesh<V>, p0: V, p1: V, p2: V, p3: V)
    requires
        old(mesh).wf(),
    ensures
        final(mesh).wf(),
        final(mesh).vertex_seq() == old(mesh).vertex_seq().push(p0).push(p1).push(p2).push(p3),
        final(mesh).triangle_seq() == old(mesh).triangle_seq().push(
            (
                old(mesh).vertex_seq().len() as usize,
                (old(mesh).vertex_seq().len() + 1) as usize,
                (old(mesh).vertex_seq().len() + 2) as usize,
            ),
        ).push(
            (
                old(mesh).vertex_seq().len() as usize,
                (old(mesh).vertex_seq().len() + 2) as usize,
                (old(mesh).vertex_seq().len() + 3) as usize,
            ),
        ),
{
    let a: usize = mesh.push(p0);
    let b: usize = mesh.push(p1);
    let c: usize = mesh.push(p2);
    let d: usize = mesh.push(p3);
    mesh.quad(a, b, c, d);
}

/// Whether `v` is one of the outline points of station `st`.
pub open spec fn on_station<V>(up: Seq<Seq<V>>, lo: Seq<Seq<V>>, n: int, st: int, v: V) -> bool {
    exists|j: int| 0 <= j < n && (v == up[st][j] || v == lo[st][j])
}

/// The blade's end caps close their own stations: every triangle of the
/// root cap (`e == 0`) and of the tip cap (`e == 1`) has the centre of that
/// cap's station (`centres[0]`, respectively `centres[n_st - 1]`) as its
/// middle corner and two outline points of the same station as its other
/// corners.
pub proof fn blade_caps_close_their_stations<V>(
    up: Seq<Seq<V>>,
    lo: Seq<Seq<V>>,
    ce: Seq<V>,
    n_st: int,
    n: int,
    e: int,
    m: int,
)
    requires
        n_st >= 2,
        n >= 1,
        outline_tables(up, lo, ce, n_st, n),
        blade_vertex_count(n_st, n) <= usize::MAX,
        0 <= e < 2,
        0 <= m < 2 * n,
    ensures
        ({
            let st = if e == 0 { 0 } else { n_st - 1 };
            let tr = blade_tri(n_st, n, 2 * loft_quads(n_st, n) + e * (2 * n) + m);
            &&& blade_vertex(up, lo, ce, n_st, n, tr.1 as int) == ce[st]
            &&& on_station(up, lo, n, st, blade_vertex(up, lo, ce, n_st, n, tr.0 as int))
            &&& on_station(up, lo, n, st, blade_vertex(up, lo, ce, n_st, n, tr.2 as int))
        }),
{
    let st = if e == 0 { 0 } else { n_st - 1 };
    let lv = 4 * loft_quads(n_st, n);
    let lt = 2 * loft_quads(n_st, n);
    let off = lv + e * (4 * n + 1);
    assert(loft_quads(n_st, n) >= 0) by (nonlinear_arith)
        requires
            n_st >= 2,
            n >= 1,
            loft_quads(n_st, n) == (n_st - 1) * (2 * n - 1),
    ;
    assert(off + 2 + 2 * m < blade_vertex_count(n_st, n)) by (nonlinear_arith)
        requires
            0 <= e < 2,
            0 <= m < 2 * n,
            off == lv + e * (4 * n + 1),
            blade_vertex_count(n_st, n) == lv + 2 * (4 * n + 1),
    ;
    assert(0 <= e * (4 * n + 1)) by (nonlinear_arith)
        requires
            0 <= e,
            n >= 1,
    ;
    lemma_div_mod(e * (2 * n) + m, 2 * n, e, m);
    let tr = blade_tri(n_st, n, lt + e * (2 * n) + m);
    assert(tr.0 as int == off + 1 + 2 * m);
    assert(tr.1 as int == off);
    assert(tr.2 as int == off + 2 + 2 * m);
    lemma_div_mod(e * (4 * n + 1), 4 * n + 1, e, 0);
    lemma_div_mod(e * (4 * n + 1) + 1 + 2 * m, 4 * n + 1, e, 1 + 2 * m);
    lemma_div_mod(e * (4 * n + 1) + 2 + 2 * m, 4 * n + 1, e, 2 + 2 * m);
    assert((2 * m) / 2 == m && (2 * m) % 2 == 0);
    assert((2 * m + 1) / 2 == m && (2 * m + 1) % 2 == 1);
    lemma_div_mod(m, 2 * n, 0, m);
    let m2 = (m + 1) % (2 * n);
    if m + 1 == 2 * n {
        lemma_div_mod(m + 1, 2 * n, 1, 0);
    } else {
        lemma_div_mod(m + 1, 2 * n, 0, m + 1);
    }
    assert(blade_vertex(up, lo, ce, n_st, n, off) == ce[st]);
    let va = blade_vertex(up, lo, ce, n_st, n, off + 1 + 2 * m);
    assert(va == loop_point(up, lo, n, st, m));
    if m < n {
        assert(va == up[st][m]);
    } else {
        assert(va == lo[st][2 * n - 1 - m]);
    }
    let vb = blade_vertex(up, lo, ce, n_st, n, off + 2 + 2 * m);
    assert(vb == loop_point(up, lo, n, st, m2));
    if m2 < n {
        assert(vb == up[st][m2]);
    } else {
        assert(vb == lo[st][2 * n - 1 - m2]);
    }
}

proof fn lemma_loft_corner_on_stations<V>(
    up: Seq<Seq<V>>,
    lo: Seq<Seq<V>>,
    ce: Seq<V>,
    n_st: int,
    n: int,
    i: int,
    r: int,
    c: int,
)
    requires
        n >= 1,
        0 <= i < n_st - 1,
        0 <= r < quads_per_gap(n),
        0 <= c < 4,
        outline_tables(up, lo, ce, n_st, n),
    ensures
        on_station(up, lo, n, i, loft_vertex(up, lo, n, i, r, c)) || on_station(
            up,
            lo,
            n,
            i + 1,
            loft_vertex(up, lo, n, i, r, c),
        ),
{
    let v = loft_vertex(up, lo, n, i, r, c);
    if r < 2 * (n - 1) {
        let j = r / 2;
        assert(0 <= j && j + 1 < n);
        if r % 2 == 0 {
            let di: int = if c == 2 || c == 3 { 1 } else { 0 };
            let dj: int = if c == 1 || c == 2 { 1 } else { 0 };
            assert(v == up[i + di][j + dj]);
            if di == 0 {
                assert(on_station(up, lo, n, i, v));
            } else {
                assert(on_station(up, lo, n, i + 1, v));
            }
        } else {
            let di: int = if c == 1 || c == 2 { 1 } else { 0 };
            let dj: int = if c == 2 || c == 3 { 1 } else { 0 };
            assert(v == lo[i + di][j + dj]);
            if di == 0 {
                assert(on_station(up, lo, n, i, v));
            } else {
                assert(on_station(up, lo, n, i + 1, v));
            }
        }
    } else {
        let di: int = if c == 1 || c == 2 { 1 } else { 0 };
        if c < 2 {
            assert(v == up[i + di][n - 1]);
        } else {
            assert(v == lo[i + di][n - 1]);
        }
        if di == 0 {
            assert(on_station(up, lo, n, i, v));
        } else {
            assert(on_station(up, lo, n, i + 1, v));
        }
    }
}

/// The blade's skin joins neighbouring stations only: both triangles of
/// loft quad `r` between stations `i` and `i + 1` have every corner on one
/// of those two stations' outlines.
pub proof fn blade_skin_joins_neighbouring_stations<V>(
    up: Seq<Seq<V>>,
    lo: Seq<Seq<V>>,
    ce: Seq<V>,
    n_st: int,
    n: int,
    i: int,
    r: int,
    t: int,
)
    requires
        n_st >= 2,
        n >= 1,
        outline_tables(up, lo, ce, n_st, n),
        blade_vertex_count(n_st, n) <= usize::MAX,
        0 <= i < n_st - 1,
        0 <= r < quads_per_gap(n),
        t == 2 * (i * quads_per_gap(n) + r) || t == 2 * (i * quads_per_gap(n) + r) + 1,
    ensures
        ({
            let tr = blade_tri(n_st, n, t);
            &&& forall|v: int|
                v == tr.0 as int || v == tr.1 as int || v == tr.2 as int ==> (on_station(
                    up,
                    lo,
                    n,
                    i,
                    #[trigger] blade_vertex(up, lo, ce, n_st, n, v),
                ) || on_station(up, lo, n, i + 1, blade_vertex(up, lo, ce, n_st, n, v)))
        }),
{
    let q = i * quads_per_gap(n) + r;
    lemma_loft_index(n_st, n, i, r, 0);
    lemma_loft_index(n_st, n, i, r, 1);
    lemma_loft_index(n_st, n, i, r, 2);
    lemma_loft_index(n_st, n, i, r, 3);
    assert(4 * q + 3 < blade_vertex_count(n_st, n));
    assert(t / 2 == q);
    assert forall|c: int| 0 <= c < 4 implies on_station(
        up,
        lo,
        n,
        i,
        #[trigger] blade_vertex(up, lo, ce, n_st, n, 4 * q + c),
    ) || on_station(up, lo, n, i + 1, blade_vertex(up, lo, ce, n_st, n, 4 * q + c)) by {
        lemma_loft_index(n_st, n, i, r, c);
        lemma_loft_corner_on_stations(up, lo, ce, n_st, n, i, r, c);
    }
    let tr = blade_tri(n_st, n, t);
    if t % 2 == 0 {
        assert(tr.0 as int == 4 * q && tr.1 as int == 4 * q + 1 && tr.2 as int == 4 * q + 2);
    } else {
        assert(tr.0 as int == 4 * q && tr.1 as int == 4 * q + 2 && tr.2 as int == 4 * q + 3);
    }
}

/// The blade so far holds exactly the first `nv` vertices and `nt`
/// triangles of the blade.
pub open spec fn blade_prefix<V>(
    up: Seq<Seq<V>>,
    lo: Seq<Seq<V>>,
    ce: Seq<V>,
    n_st: int,
    n: int,
    v0: Seq<V>,
    t0: Seq<Tri>,
    vs: Seq<V>,
    ts: Seq<Tri>,
    nv: int,
    nt: int,
) -> bool {
    &&& vs.len() == v0.len() + nv
    &&& vs.take(v0.len() as int) == v0
    &&& forall|k: int|
        0 <= k < nv ==> #[trigger] vs[v0.len() + k] == blade_vertex(up, lo, ce, n_st, n, k)
    &&& ts.len() == t0.len() + nt
    &&& ts.take(t0.len() as int) == t0
    &&& forall|t: int|
        0 <= t < nt ==> #[trigger] ts[t0.len() + t] == shifted(blade_tri(n_st, n, t), v0.len() as int)
}

/// One more loft quad keeps the blade a prefix.
proof fn lemma_loft_step<V>(
    up: Seq<Seq<V>>,
    lo: Seq<Seq<V>>,
    ce: Seq<V>,
    n_st: int,
    n: int,
    v0: Seq<V>,
    t0: Seq<Tri>,
    vb: Seq<V>,
    tb: Seq<Tri>,
    va: Seq<V>,
    ta: Seq<Tri>,
    i: int,
    r: int,
)
    requires
        n >= 1,
        0 <= i < n_st - 1,
        0 <= r < quads_per_gap(n),
        v0.len() + blade_vertex_count(n_st, n) <= usize::MAX,
        blade_prefix(up, lo, ce, n_st, n, v0, t0, vb, tb, 4 * (i * quads_per_gap(n) + r), 2 * (i * quads_per_gap(n) + r)),
        va == vb.push(loft_vertex(up, lo, n, i, r, 0)).push(loft_vertex(up, lo, n, i, r, 1)).push(
            loft_vertex(up, lo, n, i, r, 2),
        ).push(loft_vertex(up, lo, n, i, r, 3)),
        ta == tb.push((vb.len() as usize, (vb.len() + 1) as usize, (vb.len() + 2) as usize)).push(
            (vb.len() as usize, (vb.len() + 2) as usize, (vb.len() + 3) as usize),
        ),
    ensures
        blade_prefix(up, lo, ce, n_st, n, v0, t0, va, ta, 4 * (i * quads_per_gap(n) + r + 1), 2 * (i * quads_per_gap(n) + r + 1)),
{
    let q = i * quads_per_gap(n) + r;
    assert forall|c: int| 0 <= c < 4 implies #[trigger] blade_vertex(up, lo, ce, n_st, n, 4 * q + c)
        == loft_vertex(up, lo, n, i, r, c) by {
        lemma_loft_index(n_st, n, i, r, c);
    }
    lemma_loft_index(n_st, n, i, r, 0);
    assert(va.take(v0.len() as int) =~= v0) by {
        assert(vb.take(v0.len() as int) == v0);
    }
    assert forall|k: int| 0 <= k < 4 * (q + 1) implies #[trigger] va[v0.len() + k]
        == blade_vertex(up, lo, ce, n_st, n, k) by {
        if k < 4 * q {
            assert(va[v0.len() + k] == vb[v0.len() + k]);
        } else {
            let c = k - 4 * q;
            assert(blade_vertex(up, lo, ce, n_st, n, 4 * q + c) == loft_vertex(up, lo, n, i, r, c));
        }
    }
    assert(ta.take(t0.len() as int) =~= t0) by {
        assert(tb.take(t0.len() as int) == t0);
    }
    assert((2 * q) / 2 == q);
    assert((2 * q + 1) / 2 == q);
    assert(4 * q + 3 < blade_vertex_count(n_st, n));
    assert(ta[t0.len() + 2 * q] == shifted(blade_tri(n_st, n, 2 * q), v0.len() as int));
    assert(ta[t0.len() + 2 * q + 1] == shifted(blade_tri(n_st, n, 2 * q + 1), v0.len() as int));
    assert forall|t: int| 0 <= t < 2 * (q + 1) implies #[trigger] ta[t0.len() + t] == shifted(
        blade_tri(n_st, n, t),
        v0.len() as int,
    ) by {
        if t < 2 * q {
            assert(ta[t0.len() + t] == tb[t0.len() + t]);
        }
    }
}

/// One more cap vertex pair and its triangle keep the blade a prefix.
proof fn lemma_cap_step<V>(
    up: Seq<Seq<V>>,
    lo: Seq<Seq<V>>,
    ce: Seq<V>,
    n_st: int,
    n: int,
    v0: Seq<V>,
    t0: Seq<Tri>,
    vb: Seq<V>,
    tb: Seq<Tri>,
    va: Seq<V>,
    ta: Seq<Tri>,
    e: int,
    m: int,
)
    requires
        n >= 1,
        n_st >= 2,
        0 <= e < 2,
        0 <= m < 2 * n,
        v0.len() + blade_vertex_count(n_st, n) <= usize::MAX,
        blade_prefix(up, lo, ce, n_st, n, v0, t0, vb, tb, 4 * loft_quads(n_st, n) + e * (4 * n + 1) + 1 + 2 * m, 2 * loft_quads(n_st, n) + e * (2 * n) + m),
        va == vb.push(loop_point(up, lo, n, if e == 0 { 0 } else { n_st - 1 }, m)).push(
            loop_point(up, lo, n, if e == 0 { 0 } else { n_st - 1 }, (m + 1) % (2 * n)),
        ),
        ta == tb.push(
            (
                vb.len() as usize,
                (v0.len() + 4 * loft_quads(n_st, n) + e * (4 * n + 1)) as usize,
                (vb.len() + 1) as usize,
            ),
        ),
    ensures
        blade_prefix(up, lo, ce, n_st, n, v0, t0, va, ta, 4 * loft_quads(n_st, n) + e * (4 * n + 1) + 1 + 2 * (m + 1), 2 * loft_quads(n_st, n) + e * (2 * n) + m + 1),
{
    let lv: int = 4 * loft_quads(n_st, n);
    let lt: int = 2 * loft_quads(n_st, n);
    let st = if e == 0 { 0 } else { n_st - 1 };
    let k1 = lv + e * (4 * n + 1) + 1 + 2 * m;
    lemma_div_mod(e * (4 * n + 1) + 1 + 2 * m, 4 * n + 1, e, 1 + 2 * m);
    lemma_div_mod(e * (4 * n + 1) + 2 + 2 * m, 4 * n + 1, e, 2 + 2 * m);
    lemma_div_mod(m, 2 * n, 0, m);
    assert((2 * m) / 2 == m && (2 * m) % 2 == 0);
    assert((2 * m + 1) / 2 == m && (2 * m + 1) % 2 == 1);
    assert(blade_vertex(up, lo, ce, n_st, n, k1) == loop_point(up, lo, n, st, m));
    assert(blade_vertex(up, lo, ce, n_st, n, k1 + 1) == loop_point(up, lo, n, st, (m + 1) % (2 * n)));
    lemma_div_mod(e * (2 * n) + m, 2 * n, e, m);
    assert(blade_tri(n_st, n, lt + e * (2 * n) + m) == ((lv + e * (4 * n + 1) + 1 + 2 * m) as usize, (lv + e * (4 * n + 1)) as usize, (lv + e * (4 * n + 1) + 2 + 2 * m) as usize));
    assert(k1 + 1 < blade_vertex_count(n_st, n)) by (nonlinear_arith)
        requires
            0 <= e < 2,
            0 <= m < 2 * n,
            k1 == lv + e * (4 * n + 1) + 1 + 2 * m,
            blade_vertex_count(n_st, n) == lv + 2 * (4 * n + 1),
    ;
    assert(ta[t0.len() + lt + e * (2 * n) + m] == shifted(blade_tri(n_st, n, lt + e * (2 * n) + m), v0.len() as int));
    assert(va.take(v0.len() as int) =~= v0) by {
        assert(vb.take(v0.len() as int) == v0);
    }
    assert forall|k: int| 0 <= k < k1 + 2 implies #[trigger] va[v0.len() + k] == blade_vertex(
        up,
        lo,
        ce,
        n_st,
        n,
        k,
    ) by {
        if k < k1 {
            assert(va[v0.len() + k] == vb[v0.len() + k]);
        }
    }
    assert(ta.take(t0.len() as int) =~= t0) by {
        assert(tb.take(t0.len() as int) == t0);
    }
    assert forall|t: int| 0 <= t < lt + e * (2 * n) + m + 1 implies #[trigger] ta[t0.len() + t]
        == shifted(blade_tri(n_st, n, t), v0.len() as int) by {
        if t < lt + e * (2 * n) + m {
            assert(ta[t0.len() + t] == tb[t0.len() + t]);
        }
    }
}

/// Whether `up`, `lo` and `ce` describe `n_st` stations of `n` outline
/// points each.
pub open spec fn outline_tables<V>(up: Seq<Seq<V>>, lo: Seq<Seq<V>>, ce: Seq<V>, n_st: int, n: int) -> bool {
    &&& up.len() == n_st
    &&& lo.len() == n_st
    &&& ce.len() == n_st
    &&& forall|i: int| 0 <= i < n_st ==> (#[trigger] up[i]).len() == n && lo[i].len() == n
}

/// Skin one blade between its station outlines: for each station `i` the
/// upper and lower outline points `upper[i]`, `lower[i]` (leading edge to
/// trailing edge, `n` each) and the outline's centre `centres[i]`.  The
/// blade adds the vertices [`blade_vertex`] and the triangles
/// [`blade_tri`] (shifted past the vertices already in the mesh): the
/// upper and lower skins and the trailing edge between neighbouring
/// stations, then the root and tip caps, each a fan around its centre.
pub fn blade_into<V: Copy>(mesh: &mut Mesh<V>, upper: &Vec<Vec<V>>, lower: &Vec<Vec<V>>, centres: &Vec<V>)
    requires
        old(mesh).wf(),
        upper@.len() >= 2,
        upper@[0]@.len() >= 1,
        outline_tables(rows(upper@), rows(lower@), centres@, upper@.len() as int, upper@[0]@.len() as int),
        old(mesh).vertex_seq().len() + blade_vertex_count(upper@.len() as int, upper@[0]@.len() as int)
            <= usize::MAX,
    ensures
        final(mesh).wf(),
        blade_prefix(
            rows(upper@),
            rows(lower@),
            centres@,
            upper@.len() as int,
            upper@[0]@.len() as int,
            old(mesh).vertex_seq(),
            old(mesh).triangle_seq(),
            final(mesh).vertex_seq(),
            final(mesh).triangle_seq(),
            blade_vertex_count(upper@.len() as int, upper@[0]@.len() as int),
            blade_triangle_count(upper@.len() as int, upper@[0]@.len() as int),
        ),
{
    let ghost v0 = mesh.vertex_seq();
    let ghost t0 = mesh.triangle_seq();
    let ghost up = rows(upper@);
    let ghost lo = rows(lower@);
    let ghost ce = centres@;
    let n_st: usize = upper.len();
    let n: usize = upper[0].len();
    let ghost ns = n_st as int;
    let ghost ni = n as int;
    let ghost qn = quads_per_gap(ni);
    proof {
        assert(up[0].len() == ni);
        assert(v0.take(v0.len() as int) =~= v0);
        assert(t0.take(t0.len() as int) =~= t0);
        assert(0 * qn == 0);
    }
    let mut i: usize = 0;
    while i < n_st - 1
        invariant
            mesh.wf(),
            n_st == upper@.len(),
            ns == n_st,
            ni == n,
            n >= 1,
            n_st >= 2,
            qn == quads_per_gap(ni),
            up == rows(upper@),
            lo == rows(lower@),
            ce == centres@,
            outline_tables(up, lo, ce, ns, ni),
            v0.len() + blade_vertex_count(ns, ni) <= usize::MAX,
            i <= n_st - 1,
            blade_prefix(up, lo, ce, ns, ni, v0, t0, mesh.vertex_seq(), mesh.triangle_seq(), 4 * (i * qn), 2 * (i * qn)),
        decreases n_st - 1 - i,
    {
        let mut j: usize = 0;
        while j < n - 1
            invariant
                mesh.wf(),
                n_st == upper@.len(),
                ns == n_st,
                ni == n,
                n >= 1,
                n_st >= 2,
                qn == quads_per_gap(ni),
                up == rows(upper@),
                lo == rows(lower@),
                ce == centres@,
                outline_tables(up, lo, ce, ns, ni),
                v0.len() + blade_vertex_count(ns, ni) <= usize::MAX,
                i < n_st - 1,
                j <= n - 1,
                blade_prefix(up, lo, ce, ns, ni, v0, t0, mesh.vertex_seq(), mesh.triangle_seq(), 4 * (i * qn + 2 * j), 2 * (i * qn + 2 * j)),
            decreases n - 1 - j,
        {
            let ghost vb = mesh.vertex_seq();
            let ghost tb = mesh.triangle_seq();
            proof {
                assert(upper@[i as int]@ == up[i as int]);
                assert(upper@[i + 1]@ == up[i + 1]);
                assert(lower@[i as int]@ == lo[i as int]);
                assert(lower@[i + 1]@ == lo[i + 1]);
                assert(up[i as int].len() == ni && up[i + 1].len() == ni);
                assert(lo[i as int].len() == ni && lo[i + 1].len() == ni);
                assert((2 * j as int) / 2 == j && (2 * j as int) % 2 == 0);
                assert((2 * j as int + 1) / 2 == j && (2 * j as int + 1) % 2 == 1);
            }
            add_quad(mesh, upper[i][j], upper[i][j + 1], upper[i + 1][j + 1], upper[i + 1][j]);
            proof {
                lemma_loft_step(up, lo, ce, ns, ni, v0, t0, vb, tb, mesh.vertex_seq(), mesh.triangle_seq(), i as int, 2 * j as int);
            }
            let ghost vb2 = mesh.vertex_seq();
            let ghost tb2 = mesh.triangle_seq();
            add_quad(mesh, lower[i][j], lower[i + 1][j], lower[i + 1][j + 1], lower[i][j + 1]);
            proof {
                lemma_loft_step(up, lo, ce, ns, ni, v0, t0, vb2, tb2, mesh.vertex_seq(), mesh.triangle_seq(), i as int, 2 * j + 1);
            }
            j = j + 1;
        }
        let ghost vb = mesh.vertex_seq();
        let ghost tb = mesh.triangle_seq();
        proof {
            assert(upper@[i as int]@ == up[i as int]);
            assert(upper@[i + 1]@ == up[i + 1]);
            assert(lower@[i as int]@ == lo[i as int]);
            assert(lower@[i + 1]@ == lo[i + 1]);
            assert(up[i as int].len() == ni && up[i + 1].len() == ni);
            assert(lo[i as int].len() == ni && lo[i + 1].len() == ni);
        }
        add_quad(mesh, upper[i][n - 1], upper[i + 1][n - 1], lower[i + 1][n - 1], lower[i][n - 1]);
        proof {
            lemma_loft_step(up, lo, ce, ns, ni, v0, t0, vb, tb, mesh.vertex_seq(), mesh.triangle_seq(), i as int, 2 * (ni - 1));
            assert(i * qn + 2 * (ni - 1) + 1 == (i + 1) * qn) by (nonlinear_arith)
                requires
                    qn == 2 * ni - 1,
            ;
        }
        i = i + 1;
    }
    proof {
        assert(i * qn == loft_quads(ns, ni));
        assert(4 * loft_quads(ns, ni) + 0 * (4 * ni + 1) == 4 * loft_quads(ns, ni));
        assert(2 * loft_quads(ns, ni) + 0 * (2 * ni) == 2 * loft_quads(ns, ni));
    }
    let two_n: usize = 2 * n;
    let mut e: usize = 0;
    while e < 2
        invariant
            mesh.wf(),
            n_st == upper@.len(),
            ns == n_st,
            ni == n,
            n >= 1,
            n_st >= 2,
            two_n == 2 * n,
            up == rows(upper@),
            lo == rows(lower@),
            ce == centres@,
            outline_tables(up, lo, ce, ns, ni),
            v0.len() + blade_vertex_count(ns, ni) <= usize::MAX,
            e <= 2,
            blade_prefix(up, lo, ce, ns, ni, v0, t0, mesh.vertex_seq(), mesh.triangle_seq(), 4 * loft_quads(ns, ni) + e * (4 * ni + 1), 2 * loft_quads(ns, ni) + e * (2 * ni)),
        decreases 2 - e,
    {
        let st: usize = if e == 0 {
            0
        } else {
            n_st - 1
        };
        let ghost vb = mesh.vertex_seq();
        let ghost tb = mesh.triangle_seq();
        let ghost k0 = 4 * loft_quads(ns, ni) + e * (4 * ni + 1);
        proof {
            assert(k0 < blade_vertex_count(ns, ni)) by (nonlinear_arith)
                requires
                    0 <= e < 2,
                    ni >= 1,
                    k0 == 4 * loft_quads(ns, ni) + e * (4 * ni + 1),
                    blade_vertex_count(ns, ni) == 4 * loft_quads(ns, ni) + 2 * (4 * ni + 1),
            ;
            lemma_div_mod(e * (4 * ni + 1), 4 * ni + 1, e as int, 0);
            assert(blade_vertex(up, lo, ce, ns, ni, k0) == ce[st as int]);
        }
        let cc: usize = mesh.push(centres[st]);
        proof {
            assert(mesh.vertex_seq().take(v0.len() as int) =~= v0) by {
                assert(vb.take(v0.len() as int) == v0);
            }
            assert forall|k: int| 0 <= k < k0 + 1 implies #[trigger] mesh.vertex_seq()[v0.len() + k]
                == blade_vertex(up, lo, ce, ns, ni, k) by {
                if k < k0 {
                    assert(mesh.vertex_seq()[v0.len() + k] == vb[v0.len() + k]);
                }
            }
            assert(upper@[st as int]@ == up[st as int]);
            assert(lower@[st as int]@ == lo[st as int]);
            assert(up[st as int].len() == ni && lo[st as int].len() == ni);
        }
        let mut m: usize = 0;
        while m < two_n
            invariant
                mesh.wf(),
                n_st == upper@.len(),
                ns == n_st,
                ni == n,
                n >= 1,
                n_st >= 2,
                two_n == 2 * n,
                up == rows(upper@),
                lo == rows(lower@),
                ce == centres@,
                outline_tables(up, lo, ce, ns, ni),
                v0.len() + blade_vertex_count(ns, ni) <= usize::MAX,
                e < 2,
                st == (if e == 0 { 0 } else { n_st - 1 }),
                upper@[st as int]@ == up[st as int],
                lower@[st as int]@ == lo[st as int],
                up[st as int].len() == ni,
                lo[st as int].len() == ni,
                m <= two_n,
                cc == v0.len() + 4 * loft_quads(ns, ni) + e * (4 * ni + 1),
                blade_prefix(up, lo, ce, ns, ni, v0, t0, mesh.vertex_seq(), mesh.triangle_seq(), 4 * loft_quads(ns, ni) + e * (4 * ni + 1) + 1 + 2 * m, 2 * loft_quads(ns, ni) + e * (2 * ni) + m),
            decreases two_n - m,
        {
            let m2: usize = if m + 1 == two_n {
                0
            } else {
                m + 1
            };
            proof {
                if m + 1 == two_n {
                    lemma_div_mod(m + 1, 2 * ni, 1, 0);
                } else {
                    lemma_div_mod(m + 1, 2 * ni, 0, m + 1);
                }
            }
            let pa = if m < n {
                upper[st][m]
            } else {
                lower[st][two_n - 1 - m]
            };
            let pb = if m2 < n {
                upper[st][m2]
            } else {
                lower[st][two_n - 1 - m2]
            };
            let ghost vb = mesh.vertex_seq();
            let ghost tb = mesh.triangle_seq();
            let a: usize = mesh.push(pa);
            let b: usize = mesh.push(pb);
            mesh.tri(a, cc, b);
            proof {
                lemma_cap_step(up, lo, ce, ns, ni, v0, t0, vb, tb, mesh.vertex_seq(), mesh.triangle_seq(), e as int, m as int);
            }
            m = m + 1;
        }
        proof {
            assert(4 * loft_quads(ns, ni) + e * (4 * ni + 1) + 1 + 2 * (2 * ni) == 4 * loft_quads(ns, ni) + (e + 1) * (4 * ni + 1)) by (nonlinear_arith);
            assert(2 * loft_quads(ns, ni) + e * (2 * ni) + 2 * ni == 2 * loft_quads(ns, ni) + (e + 1) * (2 * ni)) by (nonlinear_arith);
        }
        e = e + 1;
    }
}

} // verus!
