//! Reader for the glTF gaussian-splatting extension.
//!
//! The caller parses the glTF file; this module takes the attribute streams and
//! builds a [`SplatCloud`]. One draft revision of the extension is supported, and
//! files that name another are refused.

use crate::splat::attribute;
use crate::splat::cloud;
use crate::splat::cloud::{CloudModel, Harmonics, Quat, SplatCloud, SplatCloudBuilder, Vec3};
use crate::text;
use crate::text::{push_dec, str_debug};
use vstd::prelude::*;
use vstd::string::*;

verus! {

/// The draft revision of the extension that this reader supports.
pub const KHR_GAUSSIAN_SPLATTING_DRAFT_REV: &'static str = "draft-2025-08";

/// Attribute streams of a glTF file, each flattened to floats, by their bits.
#[derive(Debug)]
pub struct GltfAttributes {
    /// Extension revision that the file declares.
    pub revision: String,
    /// Positions, three floats per splat.
    pub positions: Vec<u32>,
    /// Scales (log space), three floats per splat.
    pub scales: Vec<u32>,
    /// Rotations as quaternions, four floats per splat.
    pub rotations: Vec<u32>,
    /// Colors, four floats per splat; the last is the opacity.
    pub colors: Vec<u32>,
    /// Optional spherical-harmonics coefficients, 27 floats per splat.
    pub spherical_harmonics: Option<Vec<u32>>,
}

/// Why the streams do not make a cloud.
#[derive(Clone, Debug, PartialEq, Eq)]
pub enum GltfError {
    /// Extension revision is not [`KHR_GAUSSIAN_SPLATTING_DRAFT_REV`].
    UnsupportedRevision(String),
    /// An attribute stream does not have the length that the splat count asks for.
    AttributeLengthMismatch {
        /// Attribute name.
        attribute: &'static str,
        /// Expected stream length, in floats.
        expected: usize,
        /// Actual stream length, in floats.
        actual: usize,
    },
}

/// Model of a [`GltfError`].
pub enum GltfFault {
    UnsupportedRevision(Seq<char>),
    AttributeLengthMismatch(Seq<char>, int, int),
}

impl View for GltfError {
    type V = GltfFault;

    open spec fn view(&self) -> GltfFault {
        match *self {
            GltfError::UnsupportedRevision(r) => GltfFault::UnsupportedRevision(r@),
            GltfError::AttributeLengthMismatch { attribute, expected, actual } => GltfFault::AttributeLengthMismatch(
                attribute@,
                expected as int,
                actual as int,
            ),
        }
    }
}

impl GltfFault {
    /// The text of the error.
    pub open spec fn text(self) -> Seq<char> {
        match self {
            GltfFault::UnsupportedRevision(r) => "KHR_gaussian_splatting revision mismatch: file says "@
                + text::debug_str(r) + ", reader supports "@ + text::debug_str(KHR_GAUSSIAN_SPLATTING_DRAFT_REV@),
            GltfFault::AttributeLengthMismatch(name, expected, actual) => name + ": expected "@ + text::dec(
                expected as nat,
            ) + " f32 values, got "@ + text::dec(actual as nat),
        }
    }
}

impl GltfError {
    /// The message that describes the error.
    pub fn message(&self) -> (r: String)
        ensures
            r@ == self@.text(),
    {
        match self {
            GltfError::UnsupportedRevision(rev) => {
                let mut out = "KHR_gaussian_splatting revision mismatch: file says ".to_owned();
                out.append(str_debug(rev.as_str()).as_str());
                out.append(", reader supports ");
                out.append(str_debug(KHR_GAUSSIAN_SPLATTING_DRAFT_REV).as_str());
                out
            },
            GltfError::AttributeLengthMismatch { attribute, expected, actual } => {
                let name: &'static str = attribute;
                let mut out = name.to_owned();
                out.append(": expected ");
                push_dec(&mut out, *expected as u64);
                out.append(" f32 values, got ");
                push_dec(&mut out, *actual as u64);
                out
            },
        }
    }
}

/// The first thing that is wrong with some streams.
pub open spec fn fault(a: GltfAttributes) -> Option<GltfFault> {
    let n = a.positions@.len() as int / 3;
    if a.revision@ != KHR_GAUSSIAN_SPLATTING_DRAFT_REV@ {
        Some(GltfFault::UnsupportedRevision(a.revision@))
    } else if a.positions@.len() as int != 3 * n {
        Some(GltfFault::AttributeLengthMismatch(attribute::POSITION@, 3 * n, a.positions@.len() as int))
    } else if a.scales@.len() as int != 3 * n {
        Some(GltfFault::AttributeLengthMismatch(attribute::SCALE@, 3 * n, a.scales@.len() as int))
    } else if a.rotations@.len() as int != 4 * n {
        Some(GltfFault::AttributeLengthMismatch(attribute::ROTATION@, 4 * n, a.rotations@.len() as int))
    } else if a.colors@.len() as int != 4 * n {
        Some(GltfFault::AttributeLengthMismatch(attribute::COLOR_0@, 4 * n, a.colors@.len() as int))
    } else {
        match a.spherical_harmonics {
            Some(sh) => if sh@.len() as int != 27 * n {
                Some(GltfFault::AttributeLengthMismatch(attribute::SPHERICAL_HARMONICS@, 27 * n, sh@.len() as int))
            } else {
                None
            },
            None => None,
        }
    }
}

/// The vector at `at` of a stream.
pub open spec fn vec3_in(s: Seq<u32>, at: int) -> Vec3 {
    Vec3 { x: s[at], y: s[at + 1], z: s[at + 2] }
}

/// The cloud that some streams make.
pub open spec fn cloud_of(a: GltfAttributes) -> CloudModel {
    let n = a.positions@.len() / 3;
    CloudModel {
        position: Seq::new(n, |i: int| vec3_in(a.positions@, 3 * i)),
        scale: Seq::new(n, |i: int| vec3_in(a.scales@, 3 * i)),
        rotation: Seq::new(
            n,
            |i: int|
                Quat {
                    x: a.rotations@[4 * i],
                    y: a.rotations@[4 * i + 1],
                    z: a.rotations@[4 * i + 2],
                    w: a.rotations@[4 * i + 3],
                },
        ),
        color: Seq::new(n, |i: int| vec3_in(a.colors@, 4 * i)),
        opacity: Seq::new(n, |i: int| a.colors@[4 * i + 3]),
        sh: match a.spherical_harmonics {
            Some(sh) => Some(Seq::new(n, |i: int| Seq::new(27, |k: int| sh@[27 * i + k]))),
            None => None,
        },
    }
}

fn mismatch(attribute: &'static str, expected: usize, actual: usize) -> (r: GltfError)
    ensures
        r@ == GltfFault::AttributeLengthMismatch(attribute@, expected as int, actual as int),
{
    GltfError::AttributeLengthMismatch { attribute, expected, actual }
}

fn rows(sh: &Vec<u32>, n: usize) -> (r: Vec<Harmonics>)
    requires
        sh@.len() == 27 * n,
    ensures
        cloud::harmonics(r@) == Seq::new(n as nat, |i: int| Seq::new(27, |k: int| sh@[27 * i + k])),
{
    let size: usize = sh.len();
    let mut out: Vec<Harmonics> = Vec::new();
    let mut i: usize = 0;
    while i < n
        invariant
            size == sh@.len() == 27 * n,
            i <= n,
            out@.len() == i,
            forall|j: int| 0 <= j < i ==> (#[trigger] out@[j])@ =~= Seq::new(27, |k: int| sh@[27 * j + k]),
        decreases n - i,
    {
        let mut row: Harmonics = [0u32; 27];
        let mut k: usize = 0;
        while k < 27
            invariant
                size == sh@.len() == 27 * n,
                i < n,
                k <= 27,
                forall|j: int| 0 <= j < k ==> #[trigger] row@[j] == sh@[27 * i + j],
            decreases 27 - k,
        {
            row[k] = sh[27 * i + k];
            k += 1;
        }
        out.push(row);
        i += 1;
    }
    proof {
        let m = Seq::new(n as nat, |i: int| Seq::new(27, |k: int| sh@[27 * i + k]));
        assert forall|j: int| 0 <= j < n implies cloud::harmonics(out@)[j] == m[j] by {
            assert(out@[j]@ =~= m[j]);
        }
        assert(cloud::harmonics(out@) =~= m);
    }
    out
}

/// Reads the attribute streams into a [`SplatCloud`]. The splat count is a third of
/// the length of the positions; all other streams are measured against it.
pub fn read(attrs: GltfAttributes) -> (r: Result<SplatCloud, GltfError>)
    requires
        9 * attrs.positions@.len() <= usize::MAX,
    ensures
        match r {
            Ok(c) => fault(attrs) is None && c@ == cloud_of(attrs),
            Err(e) => fault(attrs) == Some(e@),
        },
{
    if !attrs.revision.as_str().eq(KHR_GAUSSIAN_SPLATTING_DRAFT_REV) {
        return Err(GltfError::UnsupportedRevision(attrs.revision));
    }
    let n: usize = attrs.positions.len() / 3;
    if attrs.positions.len() % 3 != 0 {
        return Err(mismatch(attribute::POSITION, 3 * n, attrs.positions.len()));
    }
    if attrs.scales.len() != n * 3 {
        return Err(mismatch(attribute::SCALE, n * 3, attrs.scales.len()));
    }
    if attrs.rotations.len() != n * 4 {
        return Err(mismatch(attribute::ROTATION, n * 4, attrs.rotations.len()));
    }
    if attrs.colors.len() != n * 4 {
        return Err(mismatch(attribute::COLOR_0, n * 4, attrs.colors.len()));
    }
    let mut positions: Vec<Vec3> = Vec::new();
    let mut scales: Vec<Vec3> = Vec::new();
    let mut rotations: Vec<Quat> = Vec::new();
    let mut colors: Vec<Vec3> = Vec::new();
    let mut opacities: Vec<u32> = Vec::new();
    let ghost m = cloud_of(attrs);
    let mut i: usize = 0;
    while i < n
        invariant
            i <= n,
            n == attrs.positions@.len() / 3,
            m == cloud_of(attrs),
            attrs.positions@.len() == 3 * n,
            attrs.scales@.len() == 3 * n,
            attrs.rotations@.len() == 4 * n,
            attrs.colors@.len() == 4 * n,
            4 * n <= usize::MAX,
            positions@ =~= m.position.take(i as int),
            scales@ =~= m.scale.take(i as int),
            rotations@ =~= m.rotation.take(i as int),
            colors@ =~= m.color.take(i as int),
            opacities@ =~= m.opacity.take(i as int),
        decreases n - i,
    {
        let p: usize = 3 * i;
        let q: usize = 4 * i;
        positions.push(Vec3 { x: attrs.positions[p], y: attrs.positions[p + 1], z: attrs.positions[p + 2] });
        scales.push(Vec3 { x: attrs.scales[p], y: attrs.scales[p + 1], z: attrs.scales[p + 2] });
        rotations.push(
            Quat {
                x: attrs.rotations[q],
                y: attrs.rotations[q + 1],
                z: attrs.rotations[q + 2],
                w: attrs.rotations[q + 3],
            },
        );
        colors.push(Vec3 { x: attrs.colors[q], y: attrs.colors[q + 1], z: attrs.colors[q + 2] });
        opacities.push(attrs.colors[q + 3]);
        i += 1;
    }
    let builder = SplatCloudBuilder::with_capacity(n).positions(positions).scales(scales).rotations(rotations).colors(
        colors,
    ).opacities(opacities);
    let builder = match &attrs.spherical_harmonics {
        Some(sh) => {
            if sh.len() != n * 27 {
                return Err(mismatch(attribute::SPHERICAL_HARMONICS, n * 27, sh.len()));
            }
            builder.spherical_harmonics(rows(sh, n))
        },
        None => builder,
    };
    assert(builder@ =~= m);
    match builder.build() {
        Ok(c) => Ok(c),
        Err(_) => vstd::pervasive::unreached(),
    }
}

// --- laws -----------------------------------------------------------------------

/// The floats of some vectors, one vector after the other.
pub open spec fn flat3(vs: Seq<Vec3>) -> Seq<u32>
    decreases vs.len(),
{
    if vs.len() == 0 {
        Seq::empty()
    } else {
        flat3(vs.drop_last()) + seq![vs.last().x, vs.last().y, vs.last().z]
    }
}

/// The floats of some rotations.
pub open spec fn flat4(qs: Seq<Quat>) -> Seq<u32>
    decreases qs.len(),
{
    if qs.len() == 0 {
        Seq::empty()
    } else {
        flat4(qs.drop_last()) + seq![qs.last().x, qs.last().y, qs.last().z, qs.last().w]
    }
}

/// The floats of some colors, each with its opacity behind it.
pub open spec fn flat_colors(cs: Seq<Vec3>, os: Seq<u32>) -> Seq<u32>
    decreases cs.len(),
{
    if cs.len() == 0 {
        Seq::empty()
    } else {
        flat_colors(cs.drop_last(), os) + seq![cs.last().x, cs.last().y, cs.last().z, os[cs.len() - 1]]
    }
}

/// The floats of some rows of harmonics.
pub open spec fn flat_rows(rs: Seq<Seq<u32>>) -> Seq<u32>
    decreases rs.len(),
{
    if rs.len() == 0 {
        Seq::empty()
    } else {
        flat_rows(rs.drop_last()) + rs.last()
    }
}

/// Whether the attributes of a cloud are as many as its positions, and its harmonics whole.
pub open spec fn whole(c: CloudModel) -> bool {
    let n = c.position.len();
    &&& c.scale.len() == n
    &&& c.rotation.len() == n
    &&& c.color.len() == n
    &&& c.opacity.len() == n
    &&& c.sh matches Some(rs) ==> rs.len() == n && forall|i: int| 0 <= i < n ==> (#[trigger] rs[i]).len() == 27
}

/// Whether streams list the attributes of a cloud, splat by splat, each in its own stream.
pub open spec fn lists(a: GltfAttributes, c: CloudModel) -> bool {
    &&& a.revision@ == KHR_GAUSSIAN_SPLATTING_DRAFT_REV@
    &&& a.positions@ == flat3(c.position)
    &&& a.scales@ == flat3(c.scale)
    &&& a.rotations@ == flat4(c.rotation)
    &&& a.colors@ == flat_colors(c.color, c.opacity)
    &&& match (a.spherical_harmonics, c.sh) {
        (Some(s), Some(rs)) => s@ == flat_rows(rs),
        (None, None) => true,
        _ => false,
    }
}

proof fn lemma_flat3(vs: Seq<Vec3>)
    ensures
        flat3(vs).len() == 3 * vs.len(),
        forall|i: int| #![trigger vs[i]] 0 <= i < vs.len() ==> vec3_in(flat3(vs), 3 * i) == vs[i],
    decreases vs.len(),
{
    if vs.len() > 0 {
        let ws = vs.drop_last();
        lemma_flat3(ws);
        let f = flat3(ws);
        assert forall|i: int| #![trigger vs[i]] 0 <= i < vs.len() implies vec3_in(flat3(vs), 3 * i) == vs[i] by {
            if i < ws.len() {
                assert(ws[i] == vs[i]);
                assert(vec3_in(f, 3 * i) == ws[i]);
                assert(flat3(vs)[3 * i] == f[3 * i]);
                assert(flat3(vs)[3 * i + 1] == f[3 * i + 1]);
                assert(flat3(vs)[3 * i + 2] == f[3 * i + 2]);
            }
        }
    }
}

spec fn quat_in(s: Seq<u32>, at: int) -> Quat {
    Quat { x: s[at], y: s[at + 1], z: s[at + 2], w: s[at + 3] }
}

proof fn lemma_flat4(qs: Seq<Quat>)
    ensures
        flat4(qs).len() == 4 * qs.len(),
        forall|i: int| #![trigger qs[i]] 0 <= i < qs.len() ==> quat_in(flat4(qs), 4 * i) == qs[i],
    decreases qs.len(),
{
    if qs.len() > 0 {
        let ws = qs.drop_last();
        lemma_flat4(ws);
        let f = flat4(ws);
        assert forall|i: int| #![trigger qs[i]] 0 <= i < qs.len() implies quat_in(flat4(qs), 4 * i) == qs[i] by {
            if i < ws.len() {
                assert(ws[i] == qs[i]);
                assert(quat_in(f, 4 * i) == ws[i]);
                assert(flat4(qs)[4 * i] == f[4 * i]);
                assert(flat4(qs)[4 * i + 1] == f[4 * i + 1]);
                assert(flat4(qs)[4 * i + 2] == f[4 * i + 2]);
                assert(flat4(qs)[4 * i + 3] == f[4 * i + 3]);
            }
        }
    }
}

proof fn lemma_flat_colors(cs: Seq<Vec3>, os: Seq<u32>)
    requires
        cs.len() <= os.len(),
    ensures
        flat_colors(cs, os).len() == 4 * cs.len(),
        forall|i: int| #![trigger cs[i]] 0 <= i < cs.len() ==> vec3_in(flat_colors(cs, os), 4 * i) == cs[i],
        forall|i: int| #![trigger os[i]] 0 <= i < cs.len() ==> flat_colors(cs, os)[4 * i + 3] == os[i],
    decreases cs.len(),
{
    if cs.len() > 0 {
        let ws = cs.drop_last();
        lemma_flat_colors(ws, os);
        let f = flat_colors(ws, os);
        let g = flat_colors(cs, os);
        assert forall|i: int| #![trigger os[i]] 0 <= i < cs.len() implies g[4 * i + 3] == os[i] by {
            if i < ws.len() {
                assert(f[4 * i + 3] == os[i]);
                assert(g[4 * i + 3] == f[4 * i + 3]);
            } else {
                assert(g[f.len() as int + 3] == os[cs.len() - 1]);
            }
        }
        assert forall|i: int| #![trigger cs[i]] 0 <= i < cs.len() implies vec3_in(g, 4 * i) == cs[i] by {
            if i < ws.len() {
                assert(ws[i] == cs[i]);
                assert(vec3_in(f, 4 * i) == ws[i]);
                assert(g[4 * i] == f[4 * i]);
                assert(g[4 * i + 1] == f[4 * i + 1]);
                assert(g[4 * i + 2] == f[4 * i + 2]);
                assert(g[4 * i + 3] == f[4 * i + 3]);
            }
        }
    }
}

proof fn lemma_flat_rows(rs: Seq<Seq<u32>>)
    requires
        forall|i: int| 0 <= i < rs.len() ==> (#[trigger] rs[i]).len() == 27,
    ensures
        flat_rows(rs).len() == 27 * rs.len(),
        forall|i: int, k: int|
            #![trigger rs[i][k]]
            0 <= i < rs.len() && 0 <= k < 27 ==> flat_rows(rs)[27 * i + k] == rs[i][k],
    decreases rs.len(),
{
    if rs.len() > 0 {
        let ws = rs.drop_last();
        assert forall|i: int| 0 <= i < ws.len() implies (#[trigger] ws[i]).len() == 27 by {
            assert(ws[i] == rs[i]);
        }
        lemma_flat_rows(ws);
        let f = flat_rows(ws);
        assert(rs.last() == rs[rs.len() - 1]);
        assert forall|i: int, k: int| #![trigger rs[i][k]] 0 <= i < rs.len() && 0 <= k < 27 implies flat_rows(rs)[27 * i
            + k] == rs[i][k] by {
            if i < ws.len() {
                assert(ws[i][k] == rs[i][k]);
                assert(f[27 * i + k] == ws[i][k]);
                assert(27 * i + k < f.len());
            }
        }
    }
}

/// Reading undoes listing: streams that list the attributes of a cloud are not at fault, and
/// read back as that cloud.
pub proof fn law_reading_undoes_listing(a: GltfAttributes, c: CloudModel)
    requires
        whole(c),
        lists(a, c),
    ensures
        fault(a) is None,
        cloud_of(a) == c,
{
    lemma_flat3(c.position);
    lemma_flat3(c.scale);
    lemma_flat4(c.rotation);
    lemma_flat_colors(c.color, c.opacity);
    let r = cloud_of(a);
    assert(r.position =~= c.position);
    assert(r.scale =~= c.scale);
    assert forall|i: int| 0 <= i < c.rotation.len() implies r.rotation[i] == c.rotation[i] by {
        assert(quat_in(flat4(c.rotation), 4 * i) == c.rotation[i]);
    }
    assert(r.rotation =~= c.rotation);
    assert(r.color =~= c.color);
    assert forall|i: int| 0 <= i < c.opacity.len() implies r.opacity[i] == c.opacity[i] by {
        assert(flat_colors(c.color, c.opacity)[4 * i + 3] == c.opacity[i]);
    }
    assert(r.opacity =~= c.opacity);
    match (a.spherical_harmonics, c.sh) {
        (Some(s), Some(rs)) => {
            lemma_flat_rows(rs);
            let m = r.sh->0;
            assert forall|i: int| 0 <= i < rs.len() implies m[i] == rs[i] by {
                assert forall|k: int| 0 <= k < 27 implies m[i][k] == rs[i][k] by {
                    assert(flat_rows(rs)[27 * i + k] == rs[i][k]);
                }
                assert(m[i] =~= rs[i]);
            }
            assert(m =~= rs);
        },
        _ => {},
    }
}

/// Every stream counts: two inputs without fault that make the same cloud have the same
/// streams.
pub proof fn law_streams_are_told_apart(a: GltfAttributes, b: GltfAttributes)
    requires
        fault(a) is None,
        fault(b) is None,
        cloud_of(a) == cloud_of(b),
    ensures
        a.positions@ == b.positions@,
        a.scales@ == b.scales@,
        a.rotations@ == b.rotations@,
        a.colors@ == b.colors@,
        match (a.spherical_harmonics, b.spherical_harmonics) {
            (Some(x), Some(y)) => x@ == y@,
            (None, None) => true,
            _ => false,
        },
{
    let m = cloud_of(a);
    let w = cloud_of(b);
    let n = a.positions@.len() as int / 3;
    assert(m.position.len() == n);
    assert(w.position.len() == b.positions@.len() as int / 3);
    assert forall|j: int| 0 <= j < 3 * n implies a.positions@[j] == b.positions@[j] && a.scales@[j] == b.scales@[j] by {
        let i = j / 3;
        assert(m.position[i] == w.position[i]);
        assert(m.scale[i] == w.scale[i]);
        assert(j == 3 * i || j == 3 * i + 1 || j == 3 * i + 2);
    }
    assert forall|j: int| 0 <= j < 4 * n implies a.rotations@[j] == b.rotations@[j] && a.colors@[j] == b.colors@[j] by {
        let i = j / 4;
        assert(m.rotation[i] == w.rotation[i]);
        assert(m.color[i] == w.color[i]);
        assert(m.opacity[i] == w.opacity[i]);
        assert(j == 4 * i || j == 4 * i + 1 || j == 4 * i + 2 || j == 4 * i + 3);
    }
    assert(a.positions@ =~= b.positions@);
    assert(a.scales@ =~= b.scales@);
    assert(a.rotations@ =~= b.rotations@);
    assert(a.colors@ =~= b.colors@);
    match (a.spherical_harmonics, b.spherical_harmonics) {
        (Some(x), Some(y)) => {
            assert forall|j: int| 0 <= j < 27 * n implies x@[j] == y@[j] by {
                let i = j / 27;
                let k = j % 27;
                assert(m.sh->0[i][k] == w.sh->0[i][k]);
                assert(j == 27 * i + k);
            }
            assert(x@ =~= y@);
        },
        _ => {},
    }
}

} // verus!
