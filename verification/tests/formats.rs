//! Exact bytes and texts of the formats, and what their readers refuse.

use sliced_engine::asset::ScriptModule;
use sliced_engine::breakpoints_toml;
use sliced_engine::breakpoints_toml::Persisted;
use sliced_engine::bytecode::{decode, encode, roundtrip_eq, BytecodeError, ModuleBuilder};
use sliced_engine::debug_proto::{
    decode_event, decode_frame, decode_request, decode_response, encode_event, encode_request,
    Event, ProtoError, Request, StopReason, WireValue,
};
use sliced_engine::splat::asset as espl;
use sliced_engine::splat::cloud::{CloudError, Quat, SplatCloudBuilder, Vec3};
use sliced_engine::splat::gltf_ext::{read, GltfAttributes, GltfError};
use sliced_engine::splat::sort::cpu;
use sliced_engine::{Compiler, Source, SourceMap};

#[test]
fn request_frames_have_this_layout() {
    let bytes = encode_request(&Request::SetFunctionBreakpoint {
        fn_name: "go".to_string(),
    });
    assert_eq!(
        bytes,
        vec![9, 0, 0, 0, 1, 0, 0x02, 2, 0, 0, 0, b'g', b'o']
    );
    let bytes = encode_event(&Event::WatchUpdate {
        id: 1,
        value: WireValue::Int(-2),
    });
    assert_eq!(
        bytes[6..].to_vec(),
        vec![6, 1, 0, 0, 0, 2, 0xFE, 0xFF, 0xFF, 0xFF, 0xFF, 0xFF, 0xFF, 0xFF]
    );
}

#[test]
fn frames_are_taken_one_at_a_time() {
    let mut stream = encode_request(&Request::Continue);
    let first = stream.len();
    stream.extend_from_slice(&encode_request(&Request::Pause));
    let (_, body, used) = decode_frame(&stream).unwrap();
    assert_eq!((decode_request(&body), used), (Ok(Request::Continue), first));
    let (_, body, _) = decode_frame(&stream[used..]).unwrap();
    assert_eq!(decode_request(&body), Ok(Request::Pause));
}

#[test]
fn broken_frames_are_refused() {
    let bytes = encode_request(&Request::Watch {
        expr: "x".to_string(),
    });
    for cut in 0..bytes.len() {
        assert_eq!(decode_frame(&bytes[..cut]), Err(ProtoError::Truncated));
    }
    assert_eq!(decode_frame(&[1, 0, 0, 0, 9]), Err(ProtoError::BadVersion));
    assert_eq!(decode_request(&[]), Err(ProtoError::Truncated));
    assert_eq!(decode_request(&[0x55]), Err(ProtoError::UnknownTag(0x55)));
    assert_eq!(decode_request(&[0x0F, 4, 0, 0, 0, b'x']), Err(ProtoError::Truncated));
    assert_eq!(
        decode_request(&[0x0F, 1, 0, 0, 0, 0xFF]),
        Err(ProtoError::BadUtf8)
    );
    assert_eq!(
        decode_request(&[0x01, 0, 0, 0, 0, 0, 0, 0, 0, 2]),
        Err(ProtoError::BadOptional)
    );
    assert_eq!(decode_response(&[0x03, 9]), Err(ProtoError::UnknownTag(9)));
    assert_eq!(decode_response(&[0x04, 1, 0, 0, 0]), Err(ProtoError::Truncated));
    assert_eq!(
        decode_event(&[0x01, 7, 0, 0, 0, 0, 0, 0, 0, 0]),
        Err(ProtoError::UnknownTag(7))
    );
}

#[test]
fn protocol_errors_have_messages() {
    assert_eq!(ProtoError::Truncated.message(), "truncated frame");
    assert_eq!(ProtoError::BadVersion.message(), "missing protocol version");
    assert_eq!(ProtoError::BadOptional.message(), "bad optional-field tag");
    assert_eq!(ProtoError::BadUtf8.message(), "invalid utf-8 in string field");
    assert_eq!(ProtoError::UnknownTag(0x0A).message(), "unknown wire tag 0x0a");
}

#[test]
fn stop_reasons_survive() {
    for reason in [
        StopReason::Pause,
        StopReason::Step,
        StopReason::Breakpoint,
        StopReason::Exception,
        StopReason::FfiPause,
        StopReason::Cursor,
    ] {
        let event = Event::Stopped {
            reason,
            fiber_id: 3,
            frame_id: 4,
        };
        let (_, body, _) = decode_frame(&encode_event(&event)).unwrap();
        assert_eq!(decode_event(&body), Ok(event));
    }
}

#[test]
fn breakpoint_files_have_this_text() {
    let text = breakpoints_toml::write(&[
        Persisted {
            file: "a \"b\"\\c\nd".to_string(),
            line: 1,
            condition: None,
            hit_count: None,
        },
        Persisted {
            file: "e".to_string(),
            line: 2,
            condition: Some("x # y".to_string()),
            hit_count: Some(7),
        },
    ]);
    assert_eq!(
        text,
        "[[breakpoint]]\nfile = \"a \\\"b\\\"\\\\c\\nd\"\nline = 1\n\n[[breakpoint]]\nfile = \"e\"\nline = 2\ncondition = \"x # y\"\nhit_count = 7\n"
    );
    assert_eq!(breakpoints_toml::read(&text).len(), 2);
    assert_eq!(breakpoints_toml::read(&text)[1].condition, Some("x # y".to_string()));
}

#[test]
fn the_documented_breakpoint_file_is_read() {
    let text = "[[breakpoint]]\nfile = \"game/main.sli\"\nline = 42\ncondition = \"x > 0\"   # optional\nhit_count = 3         # optional\n";
    assert_eq!(
        breakpoints_toml::read(text),
        vec![Persisted {
            file: "game/main.sli".to_string(),
            line: 42,
            condition: Some("x > 0".to_string()),
            hit_count: Some(3),
        }]
    );
}

#[test]
fn lines_outside_the_schema_are_ignored() {
    let text = "line = 9\n[[breakpoint]]\nnonsense\nother = 1\nline = 5000000000\nhit_count = -1\n  line = +8\t\n";
    let points = breakpoints_toml::read(text);
    assert_eq!(points.len(), 1);
    assert_eq!((points[0].line, points[0].hit_count), (8, None));
}

#[test]
fn modules_survive_their_encoding() {
    let mut sm = SourceMap::new();
    let text = "fn main() -> f64 { let s: str = \"hi\"; return 1.5; }";
    let id = sm.add(Source::new("m.sli".to_string(), text.to_string()));
    let module = Compiler::new().compile(id, sm.get(id)).unwrap().bytecode;
    let bytes = encode(&module);
    let back = decode(&bytes).unwrap();
    assert_eq!(back, module);
    assert!(roundtrip_eq(&module));
    assert_eq!(ScriptModule::decode(&bytes).unwrap().module(), &module);
    assert_eq!(decode(&bytes[..7]), Err(BytecodeError::Truncated));
    assert!(ScriptModule::decode(&[0; 8]).is_err());
}

#[test]
fn equal_constants_share_a_slot() {
    let mut builder = ModuleBuilder::new();
    let a = builder.intern(sliced_engine::bytecode::Const::Int(5));
    let b = builder.intern(sliced_engine::bytecode::Const::Int(6));
    let c = builder.intern(sliced_engine::bytecode::Const::Int(5));
    assert_eq!((a, b, c), (0, 1, 0));
    assert_eq!(builder.build().constants.len(), 2);
}

fn cloud() -> sliced_engine::splat::SplatCloud {
    let v = Vec3 { x: 1, y: 2, z: 3 };
    SplatCloudBuilder::new()
        .positions(vec![v])
        .scales(vec![v])
        .rotations(vec![Quat {
            x: 4,
            y: 5,
            z: 6,
            w: 7,
        }])
        .colors(vec![v])
        .opacities(vec![8])
        .build()
        .unwrap()
}

#[test]
fn splat_files_have_this_layout() {
    let bytes = espl::encode(&cloud());
    let payload: Vec<u8> = [1u32, 2, 3, 1, 2, 3, 4, 5, 6, 7, 1, 2, 3, 8]
        .iter()
        .flat_map(|w| w.to_le_bytes())
        .collect();
    let digest = blake3::hash(&payload);
    let mut expected = b"ESPL".to_vec();
    expected.extend_from_slice(&[1, 0, 0, 0, 1, 0, 0, 0, 56, 0, 0, 0]);
    expected.extend_from_slice(&digest.as_bytes()[..8]);
    expected.extend_from_slice(&payload);
    assert_eq!(bytes, expected);
    let meta = espl::decode_meta(&bytes).unwrap();
    assert_eq!(&meta.payload_digest, digest.as_bytes());
    assert_eq!(meta.splat_count, 1);
    assert!(!meta.has_sh);
}

#[test]
fn broken_splat_files_are_refused() {
    let good = espl::encode(&cloud());
    assert_eq!(
        espl::decode(&good[..23]).unwrap_err(),
        espl::AssetError::HeaderTruncated
    );
    let mut bytes = good.clone();
    bytes[4] = 2;
    assert_eq!(
        espl::decode(&bytes).unwrap_err(),
        espl::AssetError::UnsupportedVersion(2)
    );
    let short = espl::AssetError::PayloadSizeMismatch {
        expected: 56,
        actual: 55,
    };
    assert_eq!(espl::decode(&good[..79]).unwrap_err(), short);
    assert_eq!(espl::decode_meta(&good[..79]).unwrap_err(), short);
    let mut bytes = good.clone();
    bytes[8] = 2;
    assert_eq!(
        espl::decode(&bytes).unwrap_err(),
        espl::AssetError::PayloadTruncated
    );
    assert_eq!(
        short.message(),
        "ESPL payload size mismatch: header says 56, found 55"
    );
    assert_eq!(
        espl::AssetError::UnknownFlagBit(0x12).message(),
        "ESPL header has unknown flag bits: 0x12"
    );
    assert_eq!(
        espl::AssetError::from(CloudError::AttributeLengthMismatch).message(),
        "ESPL cloud construction: splat cloud attribute arrays have mismatched lengths"
    );
}

#[test]
fn streams_become_attributes() {
    let attrs = || GltfAttributes {
        revision: "draft-2025-08".to_string(),
        positions: vec![1, 2, 3],
        scales: vec![4, 5, 6],
        rotations: vec![7, 8, 9, 10],
        colors: vec![11, 12, 13, 14],
        spherical_harmonics: Some((0..27).collect()),
    };
    let cloud = read(attrs()).unwrap();
    assert_eq!(cloud.color()[0], Vec3 { x: 11, y: 12, z: 13 });
    assert_eq!(cloud.opacity()[0], 14);
    assert_eq!(cloud.sh().unwrap()[0][26], 26);
    let mut bad = attrs();
    bad.rotations.pop();
    let err = read(bad).unwrap_err();
    assert_eq!(err.message(), "_ROTATION: expected 4 f32 values, got 3");
    let mut bad = attrs();
    bad.revision = "x".to_string();
    let err = read(bad).unwrap_err();
    assert_eq!(err, GltfError::UnsupportedRevision("x".to_string()));
    assert_eq!(
        err.message(),
        "KHR_gaussian_splatting revision mismatch: file says \"x\", reader supports \"draft-2025-08\""
    );
}

#[test]
fn depths_sort_by_all_their_bytes() {
    let depths: Vec<u32> = [0.5f32, -2.0, 1e10, 0.25, -0.0, 1e-10, 70000.0]
        .iter()
        .map(|d| d.to_bits())
        .collect();
    assert_eq!(cpu::radix_sort_by_depth(&depths), vec![2, 6, 0, 3, 5, 4, 1]);
    assert_eq!(cpu::float_to_radix_key(0x3F80_0000), 0xBF80_0000);
    assert_eq!(cpu::float_to_radix_key(0xBF80_0000), 0x407F_FFFF);
}

#[test]
fn modules_cut_short_or_changed_in_front_are_refused() {
    let mut sm = SourceMap::new();
    let id = sm.add(Source::new(
        "t.sli".to_string(),
        "fn main() -> str { let x: f64 = 1.5; let n: i64 = 7; return \"h\u{e9}\"; }".to_string(),
    ));
    let module = Compiler::new().compile(id, sm.get(id)).unwrap().bytecode;
    let bytes = encode(&module);
    for cut in 0..bytes.len() {
        assert_eq!(decode(&bytes[..cut]).err(), Some(BytecodeError::Truncated), "{cut}");
    }
    for at in 0..8 {
        let mut other = bytes.clone();
        other[at] ^= 1;
        assert_eq!(decode(&other).err(), Some(BytecodeError::BadMagic));
    }
    for version in [0u32, 2, 0x0100_0000] {
        let mut other = bytes.clone();
        other[8..12].copy_from_slice(&version.to_le_bytes());
        assert_eq!(decode(&other).err(), Some(BytecodeError::UnsupportedVersion(version)));
    }
    assert!(decode(&bytes).unwrap().same(&module));
}
