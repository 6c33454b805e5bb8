use color_reflection::luma::GrayscaleMode;
use color_reflection::metadata::{
    build_anchors_metadata_json, parse_anchors_from_json, parse_grayscale_from_json,
    parse_reflection_from_json, AnchorMetadata,
};
use color_reflection::quantize::ReflectionMode;

fn snapshot(anchors: Vec<u8>, rm: ReflectionMode, gm: GrayscaleMode) -> AnchorMetadata {
    AnchorMetadata { anchors, reflection_mode: rm, grayscale_mode: gm, has_applied: true }
}

#[test]
fn encode_exact_wire_format() {
    let meta = snapshot(vec![64, 128, 192], ReflectionMode::Partial, GrayscaleMode::Max);
    let json = build_anchors_metadata_json(&meta).unwrap();
    assert_eq!(
        json,
        "{\"anchors\":[64,128,192],\"reflectionMode\":\"Partial\",\"grayscaleMode\":\"Max\"}"
    );
}

#[test]
fn encode_requires_applied_snapshot() {
    let mut meta = snapshot(vec![10], ReflectionMode::Average, GrayscaleMode::Default);
    meta.has_applied = false;
    assert!(build_anchors_metadata_json(&meta).is_none());
}

#[test]
fn metadata_round_trip() {
    let meta = snapshot(vec![64, 128, 192], ReflectionMode::Partial, GrayscaleMode::Max);
    let json = build_anchors_metadata_json(&meta).unwrap();
    assert_eq!(parse_anchors_from_json(&json), Some(vec![64, 128, 192]));
    assert_eq!(parse_reflection_from_json(&json), Some(ReflectionMode::Partial));
    assert_eq!(parse_grayscale_from_json(&json), Some(GrayscaleMode::Max));
}

#[test]
fn round_trip_every_policy_pair() {
    for rm in [ReflectionMode::Average, ReflectionMode::Partial] {
        for gm in [GrayscaleMode::Default, GrayscaleMode::Max, GrayscaleMode::Min] {
            let meta = snapshot(vec![0, 7, 255], rm, gm);
            let json = build_anchors_metadata_json(&meta).unwrap();
            assert_eq!(parse_anchors_from_json(&json), Some(vec![0, 7, 255]));
            assert_eq!(parse_reflection_from_json(&json), Some(rm));
            assert_eq!(parse_grayscale_from_json(&json), Some(gm));
        }
    }
}

#[test]
fn decode_missing_key_is_absent() {
    let json = "{\"reflectionMode\":\"Average\",\"grayscaleMode\":\"Min\"}";
    assert_eq!(parse_anchors_from_json(json), None);
    assert_eq!(parse_reflection_from_json(json), Some(ReflectionMode::Average));
    assert_eq!(parse_grayscale_from_json(json), Some(GrayscaleMode::Min));
}

#[test]
fn decode_skips_malformed_entries() {
    let json = "{\"anchors\":[64,abc,192]}";
    assert_eq!(parse_anchors_from_json(json), Some(vec![64, 192]));
}

#[test]
fn decode_all_entries_malformed_is_absent() {
    assert_eq!(parse_anchors_from_json("{\"anchors\":[abc,,]}"), None);
    assert_eq!(parse_anchors_from_json("{\"anchors\":[]}"), None);
}

#[test]
fn decode_tolerates_whitespace_and_reordering() {
    let json = "{\"grayscaleMode\":\"Max\", \"anchors\": [ 64 , 128 ,  192 ] }";
    assert_eq!(parse_anchors_from_json(json), Some(vec![64, 128, 192]));
    assert_eq!(parse_grayscale_from_json(json), Some(GrayscaleMode::Max));
}

#[test]
fn decode_rejects_out_of_range_entries() {
    let json = "{\"anchors\":[300,12]}";
    assert_eq!(parse_anchors_from_json(json), Some(vec![12]));
}

#[test]
fn decode_unrecognized_policy_is_absent() {
    let json = "{\"reflectionMode\":\"Weird\",\"grayscaleMode\":\"weird\"}";
    assert_eq!(parse_reflection_from_json(json), None);
    assert_eq!(parse_grayscale_from_json(json), None);
}

#[test]
fn round_trip_ten_anchors() {
    let anchors: Vec<u8> = vec![3, 17, 42, 64, 99, 128, 161, 192, 230, 255];
    let meta = snapshot(anchors.clone(), ReflectionMode::Average, GrayscaleMode::Default);
    let json = build_anchors_metadata_json(&meta).unwrap();
    assert_eq!(parse_anchors_from_json(&json), Some(anchors));
    assert_eq!(parse_reflection_from_json(&json), Some(ReflectionMode::Average));
    assert_eq!(parse_grayscale_from_json(&json), Some(GrayscaleMode::Default));
}

#[test]
fn decode_blank_list_is_absent() {
    assert_eq!(parse_anchors_from_json("{\"anchors\":[   ]}"), None);
}

#[test]
fn decode_missing_brackets_is_absent() {
    assert_eq!(parse_anchors_from_json("{\"anchors\":12}"), None);
    assert_eq!(parse_grayscale_from_json("{\"grayscaleMode\":Max}"), None);
}
