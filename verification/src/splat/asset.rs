//! The ESPL asset format.
//!
//! ```text
//! Offset Size  Field
//! 0      4     magic = "ESPL"
//! 4      2     version (u16 LE)
//! 6      2     flags (u16 LE; bit 0: spherical harmonics follow)
//! 8      4     splat count (u32 LE)
//! 12     4     payload bytes (u32 LE)
//! 16     8     first 8 bytes of the BLAKE3 digest of the payload
//! 24     ..    payload
//! ```
//!
//! The payload holds the attributes one after the other: positions, scales,
//! rotations, colors, opacities and, where the flag says so, the
//! spherical-harmonics coefficients, each float in 4 bytes, little-endian.

use crate::splat::cloud;
use crate::splat::cloud::{CloudError, CloudModel, Harmonics, Quat, SplatCloud, SplatCloudBuilder, Vec3};
use crate::text;
use crate::text::{push_dec, push_hex};
use crate::wire;
use crate::wire::{push_all, push_le, read_le};
use vstd::prelude::*;
use vstd::string::*;

verus! {

/// On-disk magic of ESPL files: `ESPL`.
pub const MAGIC: [u8; 4] = [0x45, 0x53, 0x50, 0x4C];

/// Current ESPL format version.
pub const VERSION: u16 = 1;

/// On-disk header size.
pub const HEADER_BYTES: usize = 24;

/// Per-splat bytes without spherical harmonics.
pub const BYTES_PER_SPLAT_NO_SH: usize = 56;

/// Per-splat bytes of the spherical-harmonics section.
pub const BYTES_PER_SPLAT_SH: usize = 108;

/// Flag bit: the payload holds spherical harmonics.
pub const FLAG_HAS_SH: u16 = 1;

/// The BLAKE3 digest of some bytes.
pub uninterp spec fn blake3_digest(data: Seq<u8>) -> Seq<u8>;

/// `blake3::hash` of `data`, as the 32 bytes that `Hash::as_bytes` gives: it depends
/// on the bytes alone.
#[verifier::external_body]
fn digest(data: &[u8]) -> (r: [u8; 32])
    ensures
        r@ == blake3_digest(data@),
{
    *blake3::hash(data).as_bytes()
}

/// Why an asset could not be decoded.
#[derive(Clone, Copy, Debug, PartialEq, Eq, Structural)]
pub enum AssetError {
    /// File is too small to hold the header.
    HeaderTruncated,
    /// First 4 bytes are not the magic.
    WrongMagic,
    /// Header version is not [`VERSION`].
    UnsupportedVersion(u16),
    /// The flags have bits set that this version does not know.
    UnknownFlagBit(u16),
    /// The payload does not have the length that the header says.
    PayloadSizeMismatch {
        /// Payload length from the header.
        expected: u32,
        /// Actual payload length.
        actual: u32,
    },
    /// The digest in the header is not that of the payload.
    DigestMismatch,
    /// Payload ran out before all sections were decoded.
    PayloadTruncated,
    /// The decoded attributes do not make a cloud.
    CloudConstruction(CloudError),
}

impl From<CloudError> for AssetError {
    fn from(e: CloudError) -> (r: AssetError) {
        AssetError::CloudConstruction(e)
    }
}

impl vstd::std_specs::convert::FromSpecImpl<CloudError> for AssetError {
    open spec fn obeys_from_spec() -> bool {
        true
    }

    open spec fn from_spec(e: CloudError) -> AssetError {
        AssetError::CloudConstruction(e)
    }
}

impl AssetError {
    /// The text of the error.
    pub open spec fn text(self) -> Seq<char> {
        match self {
            AssetError::HeaderTruncated => "ESPL header truncated (need ≥ 24 bytes)"@,
            AssetError::WrongMagic => "ESPL header has wrong magic (expected \"ESPL\")"@,
            AssetError::UnsupportedVersion(v) => "ESPL unsupported version "@ + text::dec(v as nat),
            AssetError::UnknownFlagBit(flags) => "ESPL header has unknown flag bits: 0x"@ + text::hex(flags as nat),
            AssetError::PayloadSizeMismatch { expected, actual } => "ESPL payload size mismatch: header says "@
                + text::dec(expected as nat) + ", found "@ + text::dec(actual as nat),
            AssetError::DigestMismatch => "ESPL payload digest mismatch"@,
            AssetError::PayloadTruncated => "ESPL payload ran out during decode"@,
            AssetError::CloudConstruction(e) => "ESPL cloud construction: "@ + e.text(),
        }
    }

    /// The message that describes the error.
    pub fn message(&self) -> (r: String)
        ensures
            r@ == self.text(),
    {
        match *self {
            AssetError::HeaderTruncated => "ESPL header truncated (need ≥ 24 bytes)".to_owned(),
            AssetError::WrongMagic => "ESPL header has wrong magic (expected \"ESPL\")".to_owned(),
            AssetError::UnsupportedVersion(v) => {
                let mut out = "ESPL unsupported version ".to_owned();
                push_dec(&mut out, v as u64);
                out
            },
            AssetError::UnknownFlagBit(flags) => {
                let mut out = "ESPL header has unknown flag bits: 0x".to_owned();
                push_hex(&mut out, flags as u64);
                out
            },
            AssetError::PayloadSizeMismatch { expected, actual } => {
                let mut out = "ESPL payload size mismatch: header says ".to_owned();
                push_dec(&mut out, expected as u64);
                out.append(", found ");
                push_dec(&mut out, actual as u64);
                out
            },
            AssetError::DigestMismatch => "ESPL payload digest mismatch".to_owned(),
            AssetError::PayloadTruncated => "ESPL payload ran out during decode".to_owned(),
            AssetError::CloudConstruction(e) => {
                let mut out = "ESPL cloud construction: ".to_owned();
                out.append(e.message().as_str());
                out
            },
        }
    }
}

/// Compact descriptor returned by [`decode_meta`].
#[derive(Clone, Copy, Debug, PartialEq, Eq)]
pub struct SplatCloudMeta {
    /// Number of splats encoded in the file.
    pub splat_count: u32,
    /// Whether the payload holds spherical harmonics.
    pub has_sh: bool,
    /// Full BLAKE3 digest of the payload.
    pub payload_digest: [u8; 32],
}

// --- what is written ------------------------------------------------------------

/// The floats of a list of vectors, in order.
pub open spec fn flat3(v: Seq<Vec3>) -> Seq<u32> {
    Seq::new(
        3 * v.len(),
        |j: int|
            if j % 3 == 0 {
                v[j / 3].x
            } else if j % 3 == 1 {
                v[j / 3].y
            } else {
                v[j / 3].z
            },
    )
}

/// The floats of a list of quaternions, in order.
pub open spec fn flat4(v: Seq<Quat>) -> Seq<u32> {
    Seq::new(
        4 * v.len(),
        |j: int|
            if j % 4 == 0 {
                v[j / 4].x
            } else if j % 4 == 1 {
                v[j / 4].y
            } else if j % 4 == 2 {
                v[j / 4].z
            } else {
                v[j / 4].w
            },
    )
}

/// The coefficients of a list of splats, in order.
pub open spec fn flat27(v: Seq<Seq<u32>>) -> Seq<u32> {
    Seq::new(27 * v.len(), |j: int| v[j / 27][j % 27])
}

/// The floats of a cloud, attribute by attribute.
pub open spec fn words(c: CloudModel) -> Seq<u32> {
    flat3(c.position) + flat3(c.scale) + flat4(c.rotation) + flat3(c.color) + c.opacity + match c.sh {
        Some(sh) => flat27(sh),
        None => Seq::empty(),
    }
}

/// Some floats in 4 bytes each.
pub open spec fn bytes_of(w: Seq<u32>) -> Seq<u8>
    decreases w.len(),
{
    if w.len() == 0 {
        Seq::empty()
    } else {
        bytes_of(w.drop_last()) + wire::le(w.last() as nat, 4)
    }
}

/// The payload of a cloud.
pub open spec fn payload_of(c: CloudModel) -> Seq<u8> {
    bytes_of(words(c))
}

/// The part of a digest that the header holds.
pub open spec fn short_digest(payload: Seq<u8>) -> Seq<u8> {
    Seq::new(8, |i: int| blake3_digest(payload)[i])
}

/// The flags of a cloud.
pub open spec fn flags_of(c: CloudModel) -> nat {
    if c.sh is Some {
        1
    } else {
        0
    }
}

/// The header of a file.
pub open spec fn header_bytes(flags: nat, count: nat, payload: Seq<u8>) -> Seq<u8> {
    MAGIC@ + (wire::le(VERSION as nat, 2) + (wire::le(flags, 2) + (wire::le(count, 4) + (wire::le(payload.len(), 4)
        + short_digest(payload)))))
}

/// The file of a cloud.
pub open spec fn encoded(c: CloudModel) -> Seq<u8> {
    header_bytes(flags_of(c), c.position.len(), payload_of(c)) + payload_of(c)
}

// --- what is read ---------------------------------------------------------------

/// What a header says.
#[verifier::ext_equal]
pub struct HeaderModel {
    pub has_sh: bool,
    pub splat_count: u32,
    pub payload_bytes: u32,
    pub digest: Seq<u8>,
}

/// The header at the start of a file.
pub open spec fn header_of(b: Seq<u8>) -> Result<HeaderModel, AssetError> {
    let version = wire::un_le(b.subrange(4, 6)) as u16;
    let flags = wire::un_le(b.subrange(6, 8)) as u16;
    if b.len() < 24 {
        Err(AssetError::HeaderTruncated)
    } else if b.subrange(0, 4) != MAGIC@ {
        Err(AssetError::WrongMagic)
    } else if version != VERSION {
        Err(AssetError::UnsupportedVersion(version))
    } else if flags > 1 {
        Err(AssetError::UnknownFlagBit(flags))
    } else {
        Ok(
            HeaderModel {
                has_sh: flags == 1,
                splat_count: wire::un_le(b.subrange(8, 12)) as u32,
                payload_bytes: wire::un_le(b.subrange(12, 16)) as u32,
                digest: b.subrange(16, 24),
            },
        )
    }
}

/// The `i`th float of a payload.
pub open spec fn word(p: Seq<u8>, i: int) -> u32 {
    wire::un_le(p.subrange(4 * i, 4 * i + 4)) as u32
}

/// The `i`th vector of a section that starts with the float `base`.
pub open spec fn vec3_at(p: Seq<u8>, base: int, i: int) -> Vec3 {
    Vec3 { x: word(p, base + 3 * i), y: word(p, base + 3 * i + 1), z: word(p, base + 3 * i + 2) }
}

/// The `i`th quaternion of a section that starts with the float `base`.
pub open spec fn quat_at(p: Seq<u8>, base: int, i: int) -> Quat {
    Quat {
        x: word(p, base + 4 * i),
        y: word(p, base + 4 * i + 1),
        z: word(p, base + 4 * i + 2),
        w: word(p, base + 4 * i + 3),
    }
}

/// The floats of one splat, without and with spherical harmonics.
pub open spec fn words_per_splat(has_sh: bool) -> int {
    if has_sh {
        41
    } else {
        14
    }
}

/// The cloud of `n` splats that a payload holds.
pub open spec fn cloud_in(p: Seq<u8>, n: int, has_sh: bool) -> CloudModel {
    CloudModel {
        position: Seq::new(n as nat, |i: int| vec3_at(p, 0, i)),
        scale: Seq::new(n as nat, |i: int| vec3_at(p, 3 * n, i)),
        rotation: Seq::new(n as nat, |i: int| quat_at(p, 6 * n, i)),
        color: Seq::new(n as nat, |i: int| vec3_at(p, 10 * n, i)),
        opacity: Seq::new(n as nat, |i: int| word(p, 13 * n + i)),
        sh: if has_sh {
            Some(Seq::new(n as nat, |i: int| Seq::new(27, |k: int| word(p, 14 * n + 27 * i + k))))
        } else {
            None
        },
    }
}

/// The cloud in a file.
pub open spec fn decoded(b: Seq<u8>) -> Result<CloudModel, AssetError> {
    match header_of(b) {
        Err(e) => Err(e),
        Ok(h) => {
            let p = b.skip(24);
            if p.len() != h.payload_bytes {
                Err(
                    AssetError::PayloadSizeMismatch {
                        expected: h.payload_bytes,
                        actual: (p.len() % 0x1_0000_0000) as u32,
                    },
                )
            } else if short_digest(p) != h.digest {
                Err(AssetError::DigestMismatch)
            } else if p.len() < 4 * (words_per_splat(h.has_sh) * h.splat_count) {
                Err(AssetError::PayloadTruncated)
            } else {
                Ok(cloud_in(p, h.splat_count as int, h.has_sh))
            }
        },
    }
}

/// What [`decode_meta`] says of a file: the splat count, whether there are spherical
/// harmonics, and the digest of the payload. It does not compare digests.
pub open spec fn meta_of(b: Seq<u8>) -> Result<(u32, bool, Seq<u8>), AssetError> {
    match header_of(b) {
        Err(e) => Err(e),
        Ok(h) => if b.len() < 24 + h.payload_bytes {
            Err(
                AssetError::PayloadSizeMismatch {
                    expected: h.payload_bytes,
                    actual: ((b.len() - 24) % 0x1_0000_0000) as u32,
                },
            )
        } else {
            Ok((h.splat_count, h.has_sh, blake3_digest(b.subrange(24, 24 + h.payload_bytes))))
        },
    }
}

// --- laws -----------------------------------------------------------------------

/// Whether every splat has all its coefficients.
pub open spec fn full_harmonics(c: CloudModel) -> bool {
    c.sh matches Some(sh) ==> forall|i: int| 0 <= i < sh.len() ==> (#[trigger] sh[i]).len() == 27
}

proof fn lemma_bytes_len(w: Seq<u32>)
    ensures
        bytes_of(w).len() == 4 * w.len(),
    decreases w.len(),
{
    if w.len() > 0 {
        lemma_bytes_len(w.drop_last());
        wire::lemma_le_len(w.last() as nat, 4);
    }
}

proof fn lemma_bytes_add(v: Seq<u32>, w: Seq<u32>)
    ensures
        bytes_of(v + w) == bytes_of(v) + bytes_of(w),
    decreases w.len(),
{
    if w.len() > 0 {
        lemma_bytes_add(v, w.drop_last());
        assert((v + w).drop_last() =~= v + w.drop_last());
        assert((v + w).last() == w.last());
        assert(bytes_of(v) + (bytes_of(w.drop_last()) + wire::le(w.last() as nat, 4)) =~= bytes_of(v) + bytes_of(
            w.drop_last(),
        ) + wire::le(w.last() as nat, 4));
    } else {
        assert(v + w =~= v);
        assert(bytes_of(v) + bytes_of(w) =~= bytes_of(v));
    }
}

proof fn lemma_word(w: Seq<u32>, i: int)
    requires
        0 <= i < w.len(),
    ensures
        word(bytes_of(w), i) == w[i],
    decreases w.len(),
{
    wire::lemma_ranges();
    let v = w.drop_last();
    lemma_bytes_len(v);
    lemma_bytes_len(w);
    let last = wire::le(w.last() as nat, 4);
    wire::lemma_le_len(w.last() as nat, 4);
    let b = bytes_of(w);
    if i == w.len() - 1 {
        wire::law_le_round_trip(w.last() as nat, 4);
        assert(b.subrange(4 * i, 4 * i + 4) =~= last);
    } else {
        lemma_word(v, i);
        assert(b.subrange(4 * i, 4 * i + 4) =~= bytes_of(v).subrange(4 * i, 4 * i + 4));
    }
}

proof fn lemma_cloud_words(c: CloudModel)
    requires
        c.even(),
        full_harmonics(c),
    ensures
        words(c).len() == words_per_splat(c.sh is Some) * c.position.len(),
        payload_of(c).len() == 4 * words(c).len(),
        cloud_in(payload_of(c), c.position.len() as int, c.sh is Some) == c,
{
    let n = c.position.len() as int;
    let w = words(c);
    let p = payload_of(c);
    let d = cloud_in(p, n, c.sh is Some);
    lemma_bytes_len(w);
    assert forall|i: int| 0 <= i < w.len() implies #[trigger] word(p, i) == w[i] by {
        lemma_word(w, i);
    }
    assert(d.position =~= c.position) by {
        assert forall|i: int| 0 <= i < n implies #[trigger] d.position[i] == c.position[i] by {
            assert(w[3 * i] == flat3(c.position)[3 * i]);
            assert(w[3 * i + 1] == flat3(c.position)[3 * i + 1]);
            assert(w[3 * i + 2] == flat3(c.position)[3 * i + 2]);
        }
    }
    assert(d.scale =~= c.scale) by {
        assert forall|i: int| 0 <= i < n implies #[trigger] d.scale[i] == c.scale[i] by {
            assert(w[3 * n + 3 * i] == flat3(c.scale)[3 * i]);
            assert(w[3 * n + 3 * i + 1] == flat3(c.scale)[3 * i + 1]);
            assert(w[3 * n + 3 * i + 2] == flat3(c.scale)[3 * i + 2]);
        }
    }
    assert(d.rotation =~= c.rotation) by {
        assert forall|i: int| 0 <= i < n implies #[trigger] d.rotation[i] == c.rotation[i] by {
            assert(w[6 * n + 4 * i] == flat4(c.rotation)[4 * i]);
            assert(w[6 * n + 4 * i + 1] == flat4(c.rotation)[4 * i + 1]);
            assert(w[6 * n + 4 * i + 2] == flat4(c.rotation)[4 * i + 2]);
            assert(w[6 * n + 4 * i + 3] == flat4(c.rotation)[4 * i + 3]);
        }
    }
    assert(d.color =~= c.color) by {
        assert forall|i: int| 0 <= i < n implies #[trigger] d.color[i] == c.color[i] by {
            assert(w[10 * n + 3 * i] == flat3(c.color)[3 * i]);
            assert(w[10 * n + 3 * i + 1] == flat3(c.color)[3 * i + 1]);
            assert(w[10 * n + 3 * i + 2] == flat3(c.color)[3 * i + 2]);
        }
    }
    assert(d.opacity =~= c.opacity) by {
        assert forall|i: int| 0 <= i < n implies #[trigger] d.opacity[i] == c.opacity[i] by {
            assert(w[13 * n + i] == c.opacity[i]);
        }
    }
    match c.sh {
        Some(sh) => {
            let ds = d.sh->0;
            assert(ds =~= sh) by {
                assert forall|i: int| 0 <= i < n implies #[trigger] ds[i] == sh[i] by {
                    assert forall|k: int| 0 <= k < 27 implies ds[i][k] == sh[i][k] by {
                        assert(w[14 * n + (27 * i + k)] == flat27(sh)[27 * i + k]);
                        assert((27 * i + k) / 27 == i && (27 * i + k) % 27 == k);
                    }
                    assert(ds[i] =~= sh[i]);
                }
            }
        },
        None => {},
    }
}

proof fn lemma_header(flags: nat, count: nat, payload: Seq<u8>, rest: Seq<u8>)
    requires
        flags <= 1,
        count < 0x1_0000_0000,
        payload.len() < 0x1_0000_0000,
    ensures
        header_bytes(flags, count, payload).len() == 24,
        header_of(header_bytes(flags, count, payload) + rest) == Ok::<HeaderModel, AssetError>(
            HeaderModel {
                has_sh: flags == 1,
                splat_count: count as u32,
                payload_bytes: payload.len() as u32,
                digest: short_digest(payload),
            },
        ),
{
    wire::lemma_ranges();
    let h = header_bytes(flags, count, payload);
    let b = h + rest;
    let s = short_digest(payload);
    let f5 = wire::le(payload.len(), 4) + s;
    let f4 = wire::le(count, 4) + f5;
    let f3 = wire::le(flags, 2) + f4;
    let f2 = wire::le(VERSION as nat, 2) + f3;
    wire::lemma_le_len(VERSION as nat, 2);
    wire::lemma_le_len(flags, 2);
    wire::lemma_le_len(count, 4);
    wire::lemma_le_len(payload.len(), 4);
    wire::law_le_round_trip(VERSION as nat, 2);
    wire::law_le_round_trip(flags, 2);
    wire::law_le_round_trip(count, 4);
    wire::law_le_round_trip(payload.len(), 4);
    assert(b.subrange(0, h.len() as int) =~= h);
    wire::lemma_at_split(b, 0, MAGIC@, f2);
    wire::lemma_at_split(b, 4, wire::le(VERSION as nat, 2), f3);
    wire::lemma_at_split(b, 6, wire::le(flags, 2), f4);
    wire::lemma_at_split(b, 8, wire::le(count, 4), f5);
    wire::lemma_at_split(b, 12, wire::le(payload.len(), 4), s);
}

/// Decoding what a cloud encodes to gives the cloud back, as far as the length of
/// the payload can be told in its field.
pub proof fn law_decode_encode(c: CloudModel)
    requires
        c.even(),
        full_harmonics(c),
        4 * (words_per_splat(c.sh is Some) * c.position.len()) < 0x1_0000_0000,
    ensures
        decoded(encoded(c)) == Ok::<CloudModel, AssetError>(c),
{
    let p = payload_of(c);
    lemma_cloud_words(c);
    lemma_header(flags_of(c), c.position.len(), p, p);
    assert(encoded(c).skip(24) =~= p);
}

/// The descriptor of an encoded cloud tells its splat count, whether it has
/// spherical harmonics, and the digest of its payload.
pub proof fn law_meta_of_encode(c: CloudModel)
    requires
        c.even(),
        full_harmonics(c),
        4 * (words_per_splat(c.sh is Some) * c.position.len()) < 0x1_0000_0000,
    ensures
        meta_of(encoded(c)) == Ok::<(u32, bool, Seq<u8>), AssetError>(
            (c.position.len() as u32, c.sh is Some, blake3_digest(payload_of(c))),
        ),
{
    let p = payload_of(c);
    lemma_cloud_words(c);
    lemma_header(flags_of(c), c.position.len(), p, p);
    assert(encoded(c).subrange(24, 24 + p.len() as int) =~= p);
}

/// A payload that was changed, to one of another digest, is refused.
pub proof fn law_corrupt_payloads_are_refused(c: CloudModel, other: Seq<u8>)
    requires
        c.even(),
        full_harmonics(c),
        4 * (words_per_splat(c.sh is Some) * c.position.len()) < 0x1_0000_0000,
        other.len() == payload_of(c).len(),
        short_digest(other) != short_digest(payload_of(c)),
    ensures
        decoded(encoded(c).take(24) + other) == Err::<CloudModel, AssetError>(AssetError::DigestMismatch),
{
    let p = payload_of(c);
    lemma_cloud_words(c);
    lemma_header(flags_of(c), c.position.len(), p, other);
    let h = header_bytes(flags_of(c), c.position.len(), p);
    assert(encoded(c).take(24) =~= h);
    assert((h + other).skip(24) =~= other);
}

// --- writing --------------------------------------------------------------------

fn push_vec3s(out: &mut Vec<u8>, v: &[Vec3])
    ensures
        final(out)@ == old(out)@ + bytes_of(flat3(v@)),
{
    let mut i: usize = 0;
    assert(flat3(v@.take(0)) =~= Seq::empty());
    assert(out@ =~= old(out)@ + bytes_of(flat3(v@.take(0))));
    while i < v.len()
        invariant
            i <= v@.len(),
            out@ == old(out)@ + bytes_of(flat3(v@.take(i as int))),
        decreases v.len() - i,
    {
        let a = v[i];
        let ghost before = flat3(v@.take(i as int));
        push_le(out, a.x as u64, 4);
        push_le(out, a.y as u64, 4);
        push_le(out, a.z as u64, 4);
        proof {
            let one = seq![a.x, a.y, a.z];
            lemma_bytes_add(before, one);
            assert(flat3(v@.take(i + 1)) =~= before + one);
            reveal_with_fuel(bytes_of, 4);
            assert(one.drop_last() =~= seq![a.x, a.y]);
            assert(seq![a.x, a.y].drop_last() =~= seq![a.x]);
            assert(seq![a.x].drop_last() =~= Seq::empty());
            assert(out@ =~= old(out)@ + (bytes_of(before) + bytes_of(one)));
        }
        i += 1;
    }
    assert(v@.take(i as int) =~= v@);
}

fn push_quats(out: &mut Vec<u8>, v: &[Quat])
    ensures
        final(out)@ == old(out)@ + bytes_of(flat4(v@)),
{
    let mut i: usize = 0;
    assert(flat4(v@.take(0)) =~= Seq::empty());
    assert(out@ =~= old(out)@ + bytes_of(flat4(v@.take(0))));
    while i < v.len()
        invariant
            i <= v@.len(),
            out@ == old(out)@ + bytes_of(flat4(v@.take(i as int))),
        decreases v.len() - i,
    {
        let a = v[i];
        let ghost before = flat4(v@.take(i as int));
        push_le(out, a.x as u64, 4);
        push_le(out, a.y as u64, 4);
        push_le(out, a.z as u64, 4);
        push_le(out, a.w as u64, 4);
        proof {
            let one = seq![a.x, a.y, a.z, a.w];
            lemma_bytes_add(before, one);
            assert(flat4(v@.take(i + 1)) =~= before + one);
            reveal_with_fuel(bytes_of, 5);
            assert(one.drop_last() =~= seq![a.x, a.y, a.z]);
            assert(seq![a.x, a.y, a.z].drop_last() =~= seq![a.x, a.y]);
            assert(seq![a.x, a.y].drop_last() =~= seq![a.x]);
            assert(seq![a.x].drop_last() =~= Seq::empty());
            assert(out@ =~= old(out)@ + (bytes_of(before) + bytes_of(one)));
        }
        i += 1;
    }
    assert(v@.take(i as int) =~= v@);
}

fn push_words(out: &mut Vec<u8>, v: &[u32])
    ensures
        final(out)@ == old(out)@ + bytes_of(v@),
{
    let mut i: usize = 0;
    assert(v@.take(0) =~= Seq::empty());
    assert(out@ =~= old(out)@ + bytes_of(v@.take(0)));
    while i < v.len()
        invariant
            i <= v@.len(),
            out@ == old(out)@ + bytes_of(v@.take(i as int)),
        decreases v.len() - i,
    {
        push_le(out, v[i] as u64, 4);
        proof {
            assert(v@.take(i + 1).drop_last() =~= v@.take(i as int));
            assert(out@ =~= old(out)@ + bytes_of(v@.take(i + 1)));
        }
        i += 1;
    }
    assert(v@.take(i as int) =~= v@);
}

fn push_harmonics(out: &mut Vec<u8>, v: &[Harmonics])
    ensures
        final(out)@ == old(out)@ + bytes_of(flat27(cloud::harmonics(v@))),
{
    let mut i: usize = 0;
    let ghost m = cloud::harmonics(v@);
    assert(flat27(m.take(0)) =~= Seq::empty());
    assert(out@ =~= old(out)@ + bytes_of(flat27(m.take(0))));
    while i < v.len()
        invariant
            i <= v@.len(),
            m == cloud::harmonics(v@),
            out@ == old(out)@ + bytes_of(flat27(m.take(i as int))),
        decreases v.len() - i,
    {
        let ghost before = flat27(m.take(i as int));
        let row = v[i];
        push_words(out, row.as_slice());
        proof {
            let one = row@;
            assert(m[i as int] == one);
            assert(one.len() == 27);
            lemma_bytes_add(before, one);
            let next = m.take(i + 1);
            assert(flat27(next) =~= before + one) by {
                assert forall|j: int| 0 <= j < 27 * (i + 1) implies flat27(next)[j] == (before + one)[j] by {
                    if j < 27 * i {
                        assert(j / 27 < i);
                        assert(next[j / 27] == m.take(i as int)[j / 27]);
                    } else {
                        assert(j / 27 == i && j % 27 == j - 27 * i);
                        assert(next[i as int] == one);
                    }
                }
            }
            assert(out@ =~= old(out)@ + (bytes_of(before) + bytes_of(one)));
        }
        i += 1;
    }
    assert(m.take(i as int) =~= m);
}

fn push_payload(cloud: &SplatCloud) -> (r: Vec<u8>)
    ensures
        r@ == payload_of(cloud@),
{
    let mut p: Vec<u8> = Vec::new();
    let ghost c = cloud@;
    push_vec3s(&mut p, cloud.position());
    assert(p@ =~= bytes_of(flat3(c.position)));
    push_vec3s(&mut p, cloud.scale());
    push_quats(&mut p, cloud.rotation());
    push_vec3s(&mut p, cloud.color());
    push_words(&mut p, cloud.opacity());
    let ghost w1 = flat3(c.position) + flat3(c.scale);
    let ghost w2 = w1 + flat4(c.rotation);
    let ghost w3 = w2 + flat3(c.color);
    let ghost w4 = w3 + c.opacity;
    proof {
        lemma_bytes_add(flat3(c.position), flat3(c.scale));
        lemma_bytes_add(w1, flat4(c.rotation));
        lemma_bytes_add(w2, flat3(c.color));
        lemma_bytes_add(w3, c.opacity);
        assert(p@ == bytes_of(w4));
    }
    match cloud.sh() {
        Some(sh) => {
            push_harmonics(&mut p, sh);
            proof {
                lemma_bytes_add(w4, flat27(cloud::harmonics(sh@)));
            }
        },
        None => {
            proof {
                assert(words(c) =~= w4);
            }
        },
    }
    p
}

/// Encodes a [`SplatCloud`] to its on-disk bytes.
pub fn encode(cloud: &SplatCloud) -> (r: Vec<u8>)
    ensures
        r@ == encoded(cloud@),
{
    let payload = push_payload(cloud);
    let d = digest(payload.as_slice());
    let flags: u64 = if cloud.sh().is_some() {
        1
    } else {
        0
    };
    let mut out: Vec<u8> = Vec::new();
    out.push(0x45);
    out.push(0x53);
    out.push(0x50);
    out.push(0x4C);
    assert(out@ =~= MAGIC@);
    push_le(&mut out, VERSION as u64, 2);
    push_le(&mut out, flags, 2);
    push_le(&mut out, cloud.len() as u64, 4);
    push_le(&mut out, payload.len() as u64, 4);
    let ghost head = out@;
    let mut i: usize = 0;
    assert(short_digest(payload@).take(0) =~= Seq::empty());
    assert(out@ =~= head + short_digest(payload@).take(0));
    while i < 8
        invariant
            i <= 8,
            d@ == blake3_digest(payload@),
            out@ == head + short_digest(payload@).take(i as int),
        decreases 8 - i,
    {
        out.push(d[i]);
        i += 1;
        assert(out@ =~= head + short_digest(payload@).take(i as int));
    }
    assert(short_digest(payload@).take(8) =~= short_digest(payload@));
    push_all(&mut out, payload.as_slice());
    assert(out@ =~= encoded(cloud@));
    out
}

// --- reading --------------------------------------------------------------------

struct Header {
    has_sh: bool,
    splat_count: u32,
    payload_bytes: u32,
}

fn decode_header(b: &[u8]) -> (r: Result<Header, AssetError>)
    ensures
        match r {
            Ok(h) => b@.len() >= 24 && header_of(b@) == Ok::<HeaderModel, AssetError>(
                HeaderModel {
                    has_sh: h.has_sh,
                    splat_count: h.splat_count,
                    payload_bytes: h.payload_bytes,
                    digest: b@.subrange(16, 24),
                },
            ),
            Err(e) => header_of(b@) == Err::<HeaderModel, AssetError>(e),
        },
{
    proof {
        wire::lemma_ranges();
    }
    if b.len() < 24 {
        return Err(AssetError::HeaderTruncated);
    }
    if !(b[0] == 0x45 && b[1] == 0x53 && b[2] == 0x50 && b[3] == 0x4C) {
        proof {
            let m = b@.subrange(0, 4);
            if m == MAGIC@ {
                assert(m[0] == 0x45 && m[1] == 0x53 && m[2] == 0x50 && m[3] == 0x4C);
            }
        }
        return Err(AssetError::WrongMagic);
    }
    assert(b@.subrange(0, 4) =~= MAGIC@);
    let version: u16 = read_le(b, 4, 2) as u16;
    if version != VERSION {
        return Err(AssetError::UnsupportedVersion(version));
    }
    let flags: u16 = read_le(b, 6, 2) as u16;
    if flags > 1 {
        return Err(AssetError::UnknownFlagBit(flags));
    }
    Ok(
        Header {
            has_sh: flags == 1,
            splat_count: read_le(b, 8, 4) as u32,
            payload_bytes: read_le(b, 12, 4) as u32,
        },
    )
}

/// Whether the bytes at `p` are those of a digest's start.
fn same_digest(b: &[u8], d: &[u8; 32], payload: Ghost<Seq<u8>>) -> (r: bool)
    requires
        b@.len() >= 24,
        d@ == blake3_digest(payload@),
    ensures
        r == (short_digest(payload@) == b@.subrange(16, 24)),
{
    let mut i: usize = 0;
    while i < 8
        invariant
            i <= 8,
            b@.len() >= 24,
            d@ == blake3_digest(payload@),
            forall|j: int| 0 <= j < i ==> short_digest(payload@)[j] == #[trigger] b@.subrange(16, 24)[j],
        decreases 8 - i,
    {
        assert(b@.subrange(16, 24)[i as int] == b@[16 + i]);
        assert(short_digest(payload@)[i as int] == d@[i as int]);
        if b[16 + i] != d[i] {
            return false;
        }
        i += 1;
    }
    assert(short_digest(payload@) =~= b@.subrange(16, 24));
    true
}

fn read_word(p: &[u8], i: usize) -> (r: u32)
    requires
        4 * i + 4 <= p@.len(),
    ensures
        r == word(p@, i as int),
{
    proof {
        wire::lemma_ranges();
    }
    let size: usize = p.len();
    read_le(p, 4 * i, 4) as u32
}

fn read_vec3s(p: &[u8], base: usize, n: usize) -> (r: Vec<Vec3>)
    requires
        4 * (base + 3 * n) <= p@.len(),
    ensures
        r@ == Seq::new(n as nat, |i: int| vec3_at(p@, base as int, i)),
{
    let size: usize = p.len();
    let mut out: Vec<Vec3> = Vec::new();
    let mut i: usize = 0;
    while i < n
        invariant
            size == p@.len(),
            4 * (base + 3 * n) <= size,
            i <= n,
            out@ =~= Seq::new(i as nat, |j: int| vec3_at(p@, base as int, j)),
        decreases n - i,
    {
        out.push(
            Vec3 {
                x: read_word(p, base + 3 * i),
                y: read_word(p, base + 3 * i + 1),
                z: read_word(p, base + 3 * i + 2),
            },
        );
        i += 1;
    }
    out
}

fn read_quats(p: &[u8], base: usize, n: usize) -> (r: Vec<Quat>)
    requires
        4 * (base + 4 * n) <= p@.len(),
    ensures
        r@ == Seq::new(n as nat, |i: int| quat_at(p@, base as int, i)),
{
    let size: usize = p.len();
    let mut out: Vec<Quat> = Vec::new();
    let mut i: usize = 0;
    while i < n
        invariant
            size == p@.len(),
            4 * (base + 4 * n) <= size,
            i <= n,
            out@ =~= Seq::new(i as nat, |j: int| quat_at(p@, base as int, j)),
        decreases n - i,
    {
        out.push(
            Quat {
                x: read_word(p, base + 4 * i),
                y: read_word(p, base + 4 * i + 1),
                z: read_word(p, base + 4 * i + 2),
                w: read_word(p, base + 4 * i + 3),
            },
        );
        i += 1;
    }
    out
}

fn read_words(p: &[u8], base: usize, n: usize) -> (r: Vec<u32>)
    requires
        4 * (base + n) <= p@.len(),
    ensures
        r@ == Seq::new(n as nat, |i: int| word(p@, base + i)),
{
    let size: usize = p.len();
    let mut out: Vec<u32> = Vec::new();
    let mut i: usize = 0;
    while i < n
        invariant
            size == p@.len(),
            4 * (base + n) <= size,
            i <= n,
            out@ =~= Seq::new(i as nat, |j: int| word(p@, base + j)),
        decreases n - i,
    {
        out.push(read_word(p, base + i));
        i += 1;
    }
    out
}

fn read_harmonics(p: &[u8], base: usize, n: usize) -> (r: Vec<Harmonics>)
    requires
        4 * (base + 27 * n) <= p@.len(),
    ensures
        cloud::harmonics(r@) == Seq::new(n as nat, |i: int| Seq::new(27, |k: int| word(p@, base + 27 * i + k))),
{
    let size: usize = p.len();
    let mut out: Vec<Harmonics> = Vec::new();
    let mut i: usize = 0;
    while i < n
        invariant
            size == p@.len(),
            4 * (base + 27 * n) <= size,
            i <= n,
            out@.len() == i,
            forall|j: int| 0 <= j < i ==> (#[trigger] out@[j])@ =~= Seq::new(27, |k: int| word(p@, base + 27 * j + k)),
        decreases n - i,
    {
        let mut row: Harmonics = [0u32; 27];
        let mut k: usize = 0;
        while k < 27
            invariant
                size == p@.len(),
                4 * (base + 27 * n) <= size,
                i < n,
                k <= 27,
                forall|j: int| 0 <= j < k ==> #[trigger] row@[j] == word(p@, base + 27 * i + j),
            decreases 27 - k,
        {
            row[k] = read_word(p, base + 27 * i + k);
            k += 1;
        }
        out.push(row);
        i += 1;
    }
    proof {
        let m = Seq::new(n as nat, |i: int| Seq::new(27, |k: int| word(p@, base + 27 * i + k)));
        assert forall|j: int| 0 <= j < n implies cloud::harmonics(out@)[j] == m[j] by {
            assert(out@[j]@ =~= m[j]);
        }
        assert(cloud::harmonics(out@) =~= m);
    }
    out
}

/// Decodes a [`SplatCloud`] from its on-disk bytes.
pub fn decode(bytes: &[u8]) -> (r: Result<SplatCloud, AssetError>)
    ensures
        match r {
            Ok(c) => decoded(bytes@) == Ok::<CloudModel, AssetError>(c@),
            Err(e) => decoded(bytes@) == Err::<CloudModel, AssetError>(e),
        },
{
    let h = match decode_header(bytes) {
        Ok(h) => h,
        Err(e) => {
            return Err(e);
        },
    };
    let p = vstd::slice::slice_subrange(bytes, 24, bytes.len());
    assert(p@ =~= bytes@.skip(24));
    if p.len() as u64 != h.payload_bytes as u64 {
        return Err(
            AssetError::PayloadSizeMismatch {
                expected: h.payload_bytes,
                actual: (p.len() as u64 % 0x1_0000_0000) as u32,
            },
        );
    }
    let d = digest(p);
    if !same_digest(bytes, &d, Ghost(p@)) {
        return Err(AssetError::DigestMismatch);
    }
    let per: u64 = if h.has_sh {
        41
    } else {
        14
    };
    let count: u64 = h.splat_count as u64;
    assert(per * count <= 41 * 0xFFFF_FFFF) by (nonlinear_arith)
        requires
            per <= 41,
            count <= 0xFFFF_FFFF,
    ;
    if (p.len() as u64) < 4 * (per * count) {
        return Err(AssetError::PayloadTruncated);
    }
    let n: usize = h.splat_count as usize;
    let size: usize = p.len();
    let positions = read_vec3s(p, 0, n);
    let scales = read_vec3s(p, 3 * n, n);
    let rotations = read_quats(p, 6 * n, n);
    let colors = read_vec3s(p, 10 * n, n);
    let opacities = read_words(p, 13 * n, n);
    let builder = SplatCloudBuilder::with_capacity(n).positions(positions).scales(scales).rotations(rotations).colors(
        colors,
    ).opacities(opacities);
    let builder = if h.has_sh {
        builder.spherical_harmonics(read_harmonics(p, 14 * n, n))
    } else {
        builder
    };
    assert(builder@ =~= cloud_in(p@, n as int, h.has_sh));
    match builder.build() {
        Ok(c) => Ok(c),
        Err(e) => Err(AssetError::from(e)),
    }
}

/// Decodes the descriptor of a file without its cloud.
pub fn decode_meta(bytes: &[u8]) -> (r: Result<SplatCloudMeta, AssetError>)
    ensures
        match r {
            Ok(m) => meta_of(bytes@) == Ok::<(u32, bool, Seq<u8>), AssetError>(
                (m.splat_count, m.has_sh, m.payload_digest@),
            ),
            Err(e) => meta_of(bytes@) == Err::<(u32, bool, Seq<u8>), AssetError>(e),
        },
{
    let h = match decode_header(bytes) {
        Ok(h) => h,
        Err(e) => {
            return Err(e);
        },
    };
    let rest: usize = bytes.len() - 24;
    if (rest as u64) < h.payload_bytes as u64 {
        return Err(
            AssetError::PayloadSizeMismatch {
                expected: h.payload_bytes,
                actual: (rest as u64 % 0x1_0000_0000) as u32,
            },
        );
    }
    let p = vstd::slice::slice_subrange(bytes, 24, 24 + h.payload_bytes as usize);
    Ok(SplatCloudMeta { splat_count: h.splat_count, has_sh: h.has_sh, payload_digest: digest(p) })
}

} // verus!
