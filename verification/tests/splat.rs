//! Splat clouds: building, encoding, importing and sorting.

use sliced_engine::splat::asset::{
    decode as decode_asset, decode_meta, encode as encode_asset, AssetError, HEADER_BYTES,
};
use sliced_engine::splat::cloud::{CloudError, Quat, SplatCloud, SplatCloudBuilder, Vec3};
use sliced_engine::splat::composite::{PushConstants, SplatCompositePass};
use sliced_engine::splat::gltf_ext::{
    read, GltfAttributes, GltfError, KHR_GAUSSIAN_SPLATTING_DRAFT_REV,
};
use sliced_engine::splat::sort::cpu;

/// The bits of a float.
fn f(x: f32) -> u32 {
    x.to_bits()
}

fn v3(x: f32, y: f32, z: f32) -> Vec3 {
    Vec3 {
        x: f(x),
        y: f(y),
        z: f(z),
    }
}

/// The identity quaternion.
const UNIT: Quat = Quat {
    x: 0,
    y: 0,
    z: 0,
    w: 0x3F80_0000,
};

/// Camera-space depths of some positions, for a camera at the origin.
fn depths(positions: &[Vec3]) -> Vec<u32> {
    positions
        .iter()
        .map(|p| f(-f32::from_bits(p.z)))
        .collect()
}

fn small_cloud(with_sh: bool) -> SplatCloud {
    let n = 3;
    let positions = vec![
        v3(0.0, 1.0, 2.0),
        v3(3.0, 4.0, 5.0),
        v3(6.0, 7.0, 8.0),
    ];
    let scales = vec![v3(0.1, 0.1, 0.1); n];
    let rotations = vec![UNIT; n];
    let colors = vec![
        v3(1.0, 0.0, 0.0),
        v3(0.0, 1.0, 0.0),
        v3(0.0, 0.0, 1.0),
    ];
    let opacities = vec![f(0.5), f(0.6), f(0.7)];
    let b = SplatCloudBuilder::with_capacity(n)
        .positions(positions)
        .scales(scales)
        .rotations(rotations)
        .colors(colors)
        .opacities(opacities);
    let b = if with_sh {
        b.spherical_harmonics(vec![[f(0.25); 27]; n])
    } else {
        b
    };
    b.build().expect("builds")
}

#[test]
fn round_trip_without_sh() {
    let cloud = small_cloud(false);
    let bytes = encode_asset(&cloud);
    let decoded = decode_asset(&bytes).expect("decodes");
    assert_eq!(decoded.len(), cloud.len());
    for i in 0..cloud.len() {
        assert_eq!(decoded.position()[i], cloud.position()[i]);
        assert_eq!(decoded.opacity()[i], cloud.opacity()[i]);
    }
    assert!(decoded.sh().is_none());
}

#[test]
fn asset_round_trip_with_sh() {
    let cloud = small_cloud(true);
    let bytes = encode_asset(&cloud);
    let decoded = decode_asset(&bytes).expect("decodes");
    assert!(decoded.sh().is_some());
    assert_eq!(decoded.sh().unwrap()[0][13], f(0.25));
}

#[test]
fn rejects_wrong_magic() {
    let mut bytes = encode_asset(&small_cloud(false));
    bytes[0] = b'X';
    assert_eq!(decode_asset(&bytes).unwrap_err(), AssetError::WrongMagic);
}

#[test]
fn rejects_corrupt_payload() {
    let mut bytes = encode_asset(&small_cloud(false));
    let last = bytes.len() - 1;
    bytes[last] ^= 0xFF;
    assert_eq!(decode_asset(&bytes).unwrap_err(), AssetError::DigestMismatch);
}

#[test]
fn rejects_unknown_flag_bit() {
    let mut bytes = encode_asset(&small_cloud(false));
    // Set an undocumented flag bit (bit 1, the "compressed" reserved bit).
    bytes[6] |= 0b10;
    assert!(matches!(
        decode_asset(&bytes).unwrap_err(),
        AssetError::UnknownFlagBit(_)
    ));
}

#[test]
fn meta_decode_matches_full_decode() {
    let cloud = small_cloud(true);
    let bytes = encode_asset(&cloud);
    let meta = decode_meta(&bytes).expect("meta decodes");
    assert_eq!(meta.splat_count, cloud.len() as u32);
    assert!(meta.has_sh);
    // Digest is 32 bytes (full BLAKE3); the header stores 8.
    assert_eq!(meta.payload_digest.len(), 32);
}

#[test]
fn header_size_is_24_bytes() {
    let bytes = encode_asset(&small_cloud(false));
    // Header is 24, payload begins at byte 24.
    assert!(bytes.len() > HEADER_BYTES);
    assert_eq!(&bytes[..4], b"ESPL");
}

#[test]
fn from_attributes_validates_lengths() {
    let n = 4;
    let positions = vec![v3(0.0, 0.0, 0.0); n];
    let scales = vec![v3(1.0, 1.0, 1.0); n];
    let rotations = vec![UNIT; n];
    let colors = vec![v3(1.0, 1.0, 1.0); n];
    let opacities = vec![f(1.0); n];
    let cloud =
        SplatCloud::from_attributes(positions, scales, rotations, colors, opacities, None)
            .expect("valid cloud");
    assert_eq!(cloud.len(), n);
    assert!(!cloud.is_empty());
    assert!(cloud.sh().is_none());
}

#[test]
fn from_attributes_rejects_mismatched_lengths() {
    let err = SplatCloud::from_attributes(
        vec![v3(0.0, 0.0, 0.0); 3],
        vec![v3(1.0, 1.0, 1.0); 4],
        vec![UNIT; 3],
        vec![v3(1.0, 1.0, 1.0); 3],
        vec![f(1.0); 3],
        None,
    )
    .expect_err("mismatched lengths");
    assert_eq!(err, CloudError::AttributeLengthMismatch);
}

#[test]
fn builder_round_trip() {
    let n = 2;
    let cloud = SplatCloudBuilder::with_capacity(n)
        .positions(vec![v3(0.0, 0.0, 0.0); n])
        .scales(vec![v3(1.0, 1.0, 1.0); n])
        .rotations(vec![UNIT; n])
        .colors(vec![v3(0.5, 0.5, 0.5); n])
        .opacities(vec![f(0.75); n])
        .build()
        .expect("builds");
    assert_eq!(cloud.len(), n);
    assert_eq!(cloud.opacity()[0], f(0.75));
}

#[test]
fn builder_with_sh_array() {
    let n = 1;
    let sh: Vec<[u32; 27]> = vec![[f(0.0); 27]; n];
    let cloud = SplatCloudBuilder::with_capacity(n)
        .positions(vec![v3(0.0, 0.0, 0.0); n])
        .scales(vec![v3(1.0, 1.0, 1.0); n])
        .rotations(vec![UNIT; n])
        .colors(vec![v3(1.0, 1.0, 1.0); n])
        .opacities(vec![f(1.0); n])
        .spherical_harmonics(sh)
        .build()
        .expect("builds");
    assert!(cloud.sh().is_some());
    assert_eq!(cloud.sh().unwrap()[0].len(), 27);
}

#[test]
fn push_constants_size_is_80_bytes() {
    assert_eq!(core::mem::size_of::<PushConstants>(), 80);
}

#[test]
fn pass_name_is_stable() {
    assert_eq!(SplatCompositePass::name(), "splat.composite");
}

fn smoke_attrs(n: usize) -> GltfAttributes {
    GltfAttributes {
        revision: KHR_GAUSSIAN_SPLATTING_DRAFT_REV.to_string(),
        positions: vec![f(0.0); n * 3],
        scales: vec![f(1.0); n * 3],
        rotations: {
            let mut v = vec![f(0.0); n * 4];
            for i in 0..n {
                v[i * 4 + 3] = f(1.0); // identity quat
            }
            v
        },
        colors: vec![f(0.5); n * 4],
        spherical_harmonics: None,
    }
}

#[test]
fn read_minimal_cloud() {
    let cloud = read(smoke_attrs(2)).expect("reads");
    assert_eq!(cloud.len(), 2);
}

#[test]
fn rejects_wrong_revision() {
    let mut a = smoke_attrs(1);
    a.revision = "draft-1999-12".to_string();
    let err = read(a).unwrap_err();
    assert!(matches!(err, GltfError::UnsupportedRevision(_)));
}

#[test]
fn rejects_mismatched_attribute_length() {
    let mut a = smoke_attrs(2);
    a.scales.pop(); // make scales 5 floats instead of 6
    let err = read(a).unwrap_err();
    assert!(matches!(err, GltfError::AttributeLengthMismatch { .. }));
}

#[test]
fn gltf_ext_round_trip_with_sh() {
    let n = 2;
    let mut a = smoke_attrs(n);
    a.spherical_harmonics = Some(vec![f(0.0); n * 27]);
    let cloud = read(a).expect("reads");
    assert!(cloud.sh().is_some());
    assert_eq!(cloud.sh().unwrap().len(), n);
}

#[test]
fn radix_key_preserves_ordering() {
    // Test the bit-mangling: -Inf < -1 < -0 = 0 < 1 < Inf must
    // produce a monotonic u32 mapping.
    let values = [f32::NEG_INFINITY, -3.5, -1.0, 0.0, 1.0, 3.5, f32::INFINITY];
    let keys: Vec<u32> = values.iter().map(|&v| cpu::float_to_radix_key(v.to_bits())).collect();
    for w in keys.windows(2) {
        assert!(
            w[0] < w[1],
            "radix-key monotonic failure: {:#x} >= {:#x}",
            w[0],
            w[1]
        );
    }
}

#[test]
fn empty_cloud_sorts_to_empty_perm() {
    let perm = cpu::radix_sort_by_depth(&depths(&[]));
    assert!(perm.is_empty());
}

#[test]
fn back_to_front_ordering_by_depth() {
    // 3 splats at camera-space z = +1, +5, +10 (all in front of
    // the camera). Back-to-front = farthest first: z=10, 5, 1.
    let positions = vec![
        v3(0.0, 0.0, -1.0),  // camera-space z=+1
        v3(0.0, 0.0, -5.0),  // z=+5
        v3(0.0, 0.0, -10.0), // z=+10
    ];
    let perm = cpu::radix_sort_by_depth(&depths(&positions));
    // back-to-front: index 2 (z=10), 1 (z=5), 0 (z=1)
    assert_eq!(perm, vec![2, 1, 0]);
}

#[test]
fn deterministic_across_runs() {
    // Same input → same output, across multiple invocations
    // (no worker-count-dependent results).
    let positions: Vec<Vec3> = (0..64).map(|i| v3(0.0, 0.0, -(i as f32))).collect();
    let a = cpu::radix_sort_by_depth(&depths(&positions));
    let b = cpu::radix_sort_by_depth(&depths(&positions));
    let c = cpu::radix_sort_by_depth(&depths(&positions));
    assert_eq!(a, b);
    assert_eq!(b, c);
}

#[test]
fn stable_on_equal_depth() {
    // Equal depth: lower input index wins (i.e. comes later in
    // back-to-front order — farther first; equal depths preserve
    // original order in the front-to-back sense, so reversed they
    // come out as larger-index-first).
    let positions = vec![
        v3(0.0, 0.0, -5.0), // index 0, depth 5
        v3(0.0, 0.0, -5.0), // index 1, depth 5
        v3(0.0, 0.0, -5.0), // index 2, depth 5
    ];
    let perm = cpu::radix_sort_by_depth(&depths(&positions));
    // Stability: equal keys preserve relative order in the
    // ascending pass; reversed for back-to-front. The radix
    // sort's per-pass stable partition + reverse iteration gives
    // [2, 1, 0] for equal keys.
    assert_eq!(perm, vec![2, 1, 0]);
}
