use led_strip::color::Color;
use led_strip::segment::Segment;
use led_strip::registry::{Registry, SharedRegistry};
use led_strip::render::compose_frame;
use led_strip::codec::{format_millis, parse_registry, serialize_registry};
use led_strip::handler::{default_registry, prepare_write, startup_registry, WriteError};

fn seg(
    length: u32,
    mirrored: bool,
    start: (u8, u8, u8),
    end: (u8, u8, u8),
    phase_offset: u32,
    period: u32,
    brightness: u8,
) -> Segment {
    Segment::new(
        length,
        mirrored,
        Color::new(start.0, start.1, start.2),
        Color::new(end.0, end.1, end.2),
        phase_offset,
        period,
        brightness,
    )
}

fn entries_of(reg: &Registry) -> Vec<(String, Segment)> {
    reg.entries()
}

#[test]
fn periodicity_concrete() {
    let s = seg(3, false, (255, 0, 0), (0, 0, 255), 123, 1000, 40);
    for now in [0u64, 1, 17, 499, 500, 999, 1000, 123456] {
        assert_eq!(s.color_at(now), s.color_at(now + 1000));
        assert_eq!(s.color_at(now), s.color_at(now + 5000));
    }
    let m = seg(3, true, (255, 0, 0), (0, 0, 255), 7, 250, 40);
    for now in [0u64, 1, 100, 249, 250] {
        assert_eq!(m.color_at(now), m.color_at(now + 250));
    }
}

#[test]
fn endpoints_reached_within_period() {
    let s = seg(1, false, (255, 0, 0), (0, 0, 255), 0, 1000, 40);
    assert_eq!(s.color_at(0), Color::new(255, 0, 0));
    assert_eq!(s.color_at(500), Color::new(0, 0, 255));
    // with a phase offset the same two colors still occur within one period
    let o = seg(1, false, (255, 0, 0), (0, 0, 255), 300, 1000, 40);
    let mut saw_start = false;
    let mut saw_end = false;
    for t in 0..1000u64 {
        let c = o.color_at(t);
        if c == Color::new(255, 0, 0) {
            saw_start = true;
        }
        if c == Color::new(0, 0, 255) {
            saw_end = true;
        }
    }
    assert!(saw_start && saw_end);
    // mirrored traversal also reaches both endpoints
    let m = seg(1, true, (10, 20, 30), (200, 100, 50), 0, 100, 40);
    let mut saw_start = false;
    let mut saw_end = false;
    for t in 0..100u64 {
        let c = m.color_at(t);
        saw_start |= c == Color::new(10, 20, 30);
        saw_end |= c == Color::new(200, 100, 50);
    }
    assert!(saw_start && saw_end);
}

#[test]
fn round_trip_plain() {
    let mut reg = Registry::new();
    reg.insert("alpha".to_string(), seg(2, false, (1, 2, 3), (4, 5, 6), 0, 100, 10));
    reg.insert("beta".to_string(), seg(3, true, (255, 255, 255), (0, 0, 0), 7, 4294967295, 255));
    let blob = serialize_registry(&reg);
    let back = parse_registry(&blob).expect("round trip must parse");
    assert_eq!(entries_of(&reg), entries_of(&back));
}

#[test]
fn round_trip_escaped_and_unicode_ids() {
    let mut reg = Registry::new();
    reg.insert("with\"quote".to_string(), seg(1, false, (0, 0, 0), (1, 1, 1), 0, 1, 0));
    reg.insert("back\\slash".to_string(), seg(1, true, (9, 9, 9), (8, 8, 8), 2, 3, 4));
    reg.insert("grün-ß-日本".to_string(), seg(4, false, (7, 7, 7), (6, 6, 6), 5, 6, 7));
    let blob = serialize_registry(&reg);
    let back = parse_registry(&blob).expect("escaped ids must round trip");
    assert_eq!(entries_of(&reg), entries_of(&back));
}

#[test]
fn round_trip_preserves_order() {
    let mut reg = Registry::new();
    for name in ["zulu", "alpha", "mike", "bravo"] {
        reg.insert(name.to_string(), seg(1, false, (0, 0, 0), (1, 1, 1), 0, 10, 1));
    }
    let back = parse_registry(&serialize_registry(&reg)).unwrap();
    let names: Vec<String> = entries_of(&back).into_iter().map(|e| e.0).collect();
    assert_eq!(names, vec!["zulu", "alpha", "mike", "bravo"]);
}

#[test]
fn serialized_form_is_json() {
    let reg = default_registry();
    let blob = serialize_registry(&reg);
    let v: serde_json::Value = serde_json::from_str(&blob).expect("output must be valid JSON");
    let obj = v.as_object().expect("top level is an object");
    assert_eq!(obj.len(), 4);
    let s0 = obj.get("seg0").expect("seg0 present");
    assert_eq!(s0.get("length").unwrap().as_u64().unwrap(), 1);
    assert_eq!(s0.get("mirrored").unwrap().as_bool().unwrap(), false);
    assert_eq!(s0.get("period").unwrap().as_u64().unwrap(), 100);
    assert_eq!(s0.get("brightness").unwrap().as_u64().unwrap(), 40);
    let sc = s0.get("start_color").unwrap().as_array().unwrap();
    let sc: Vec<u64> = sc.iter().map(|x| x.as_u64().unwrap()).collect();
    assert_eq!(sc, vec![255, 150, 0]);
}

#[test]
fn replace_then_snapshot_returns_replacement() {
    let mut reg = default_registry();
    let mut newreg = Registry::new();
    newreg.insert("only".to_string(), seg(5, false, (255, 0, 0), (0, 0, 255), 0, 1000, 10));
    let expected = entries_of(&newreg);
    reg.replace(newreg);
    let snap = reg.snapshot();
    assert_eq!(entries_of(&snap), expected);
}

#[test]
fn snapshots_are_all_or_nothing() {
    let mut reg = default_registry();
    let before = entries_of(&reg.snapshot());
    let mut newreg = Registry::new();
    newreg.insert("a".to_string(), seg(1, false, (1, 1, 1), (2, 2, 2), 0, 10, 1));
    newreg.insert("b".to_string(), seg(2, false, (3, 3, 3), (4, 4, 4), 0, 10, 1));
    let after_expected = entries_of(&newreg);
    reg.replace(newreg);
    let after = entries_of(&reg.snapshot());
    // each snapshot is exactly one of the two full mappings, never a mixture
    assert_eq!(before, entries_of(&default_registry()));
    assert_eq!(after, after_expected);
}

#[test]
fn frame_ranges_for_lengths_two_and_three() {
    let mut reg = Registry::new();
    let a = seg(2, false, (255, 0, 0), (255, 0, 0), 0, 100, 11);
    let b = seg(3, false, (0, 255, 0), (0, 255, 0), 0, 100, 22);
    reg.insert("a".to_string(), a);
    reg.insert("b".to_string(), b);
    let frame = compose_frame(&reg, 0);
    assert_eq!(frame.len(), 5);
    for p in 0..2 {
        assert_eq!(frame[p], (a.color_at(0), 11));
    }
    for p in 2..5 {
        assert_eq!(frame[p], (b.color_at(0), 22));
    }
}

#[test]
fn empty_storage_seeds_defaults() {
    let (reg, used_stored) = startup_registry(None);
    assert!(!used_stored);
    assert_eq!(entries_of(&reg), entries_of(&default_registry()));
    // GET /data then returns exactly the default set serialized
    assert_eq!(serialize_registry(&reg), serialize_registry(&default_registry()));
}

#[test]
fn corrupt_storage_seeds_defaults() {
    let (reg, used_stored) = startup_registry(Some("not json at all"));
    assert!(!used_stored);
    assert_eq!(entries_of(&reg), entries_of(&default_registry()));
    // an empty stored mapping also falls back to the defaults
    let (reg2, used2) = startup_registry(Some("{}"));
    assert!(!used2);
    assert_eq!(entries_of(&reg2), entries_of(&default_registry()));
}

#[test]
fn stored_configuration_is_used() {
    let mut stored = Registry::new();
    stored.insert("kept".to_string(), seg(9, true, (1, 2, 3), (4, 5, 6), 7, 8, 9));
    let blob = serialize_registry(&stored);
    let (reg, used_stored) = startup_registry(Some(&blob));
    assert!(used_stored);
    assert_eq!(entries_of(&reg), entries_of(&stored));
}

#[test]
fn post_single_segment_scenario() {
    let body = "{\"only\":{\"length\":5,\"mirrored\":false,\"start_color\":[255,0,0],\
                \"end_color\":[0,0,255],\"phase_offset\":0,\"period\":1000,\"brightness\":10}}";
    let body = body.replace(" ", "");
    let mut reg = default_registry();
    let (newreg, blob) = prepare_write(&body).expect("well-formed body is accepted");
    // the blob to persist is the canonical serialization of what was posted
    assert_eq!(blob, body);
    reg.replace(newreg);
    // subsequent read returns exactly that one segment
    assert_eq!(serialize_registry(&reg.snapshot()), body);
    // the next tick writes pixels 0..5 with a color on the red->blue line
    let frame = compose_frame(&reg.snapshot(), 250);
    assert_eq!(frame.len(), 5);
    let (c, bright) = frame[0];
    assert_eq!(bright, 10);
    assert_eq!(c.green, 0);
    assert!(c.red > 0 || c.blue > 0);
    for p in 1..5 {
        assert_eq!(frame[p], frame[0]);
    }
}

#[test]
fn malformed_body_is_rejected_and_state_kept() {
    let mut reg = default_registry();
    let before = entries_of(&reg);
    let r = prepare_write("{\"x\":{\"length\":oops}}");
    assert_eq!(r.err().unwrap(), WriteError::Malformed);
    // nothing was replaced, nothing would be persisted
    assert_eq!(entries_of(&reg), before);
    let snap = reg.snapshot();
    assert_eq!(entries_of(&snap), before);
    // a truncated document is also malformed
    assert!(prepare_write("{\"x\":{\"length\":5").is_err());
    // duplicate identifiers cannot form a registry
    let dup = "{\"a\":{\"length\":1,\"mirrored\":false,\"start_color\":[0,0,0],\"end_color\":[0,0,0],\"phase_offset\":0,\"period\":1,\"brightness\":0},\"a\":{\"length\":1,\"mirrored\":false,\"start_color\":[0,0,0],\"end_color\":[0,0,0],\"phase_offset\":0,\"period\":1,\"brightness\":0}}";
    assert_eq!(prepare_write(dup).err().unwrap(), WriteError::Malformed);
}

#[test]
fn invalid_segment_is_rejected() {
    let zero_len = "{\"x\":{\"length\":0,\"mirrored\":false,\"start_color\":[0,0,0],\"end_color\":[0,0,0],\"phase_offset\":0,\"period\":10,\"brightness\":0}}";
    assert_eq!(prepare_write(zero_len).err().unwrap(), WriteError::Invalid);
    let zero_period = "{\"x\":{\"length\":3,\"mirrored\":false,\"start_color\":[0,0,0],\"end_color\":[0,0,0],\"phase_offset\":0,\"period\":0,\"brightness\":0}}";
    assert_eq!(prepare_write(zero_period).err().unwrap(), WriteError::Invalid);
}

#[test]
fn out_of_range_numbers_are_rejected() {
    let big = "{\"x\":{\"length\":4294967296,\"mirrored\":false,\"start_color\":[0,0,0],\"end_color\":[0,0,0],\"phase_offset\":0,\"period\":10,\"brightness\":0}}";
    assert_eq!(prepare_write(big).err().unwrap(), WriteError::Malformed);
    let chan = "{\"x\":{\"length\":1,\"mirrored\":false,\"start_color\":[256,0,0],\"end_color\":[0,0,0],\"phase_offset\":0,\"period\":10,\"brightness\":0}}";
    assert_eq!(prepare_write(chan).err().unwrap(), WriteError::Malformed);
}

#[test]
fn storage_failure_still_updates_registry() {
    let body = "{\"only\":{\"length\":2,\"mirrored\":false,\"start_color\":[9,9,9],\"end_color\":[1,1,1],\"phase_offset\":0,\"period\":50,\"brightness\":3}}";
    let mut reg = default_registry();
    let (newreg, _blob) = prepare_write(body).expect("accepted");
    // the persistence step failed: the blob is dropped, yet the in-memory
    // registry is still replaced and reads reflect the new value
    reg.replace(newreg);
    assert_eq!(serialize_registry(&reg.snapshot()), body);
}

#[test]
fn insert_keeps_order_and_replaces_in_place() {
    let mut reg = Registry::new();
    let s1 = seg(1, false, (1, 1, 1), (2, 2, 2), 0, 10, 1);
    let s2 = seg(2, false, (3, 3, 3), (4, 4, 4), 0, 20, 2);
    let s3 = seg(3, false, (5, 5, 5), (6, 6, 6), 0, 30, 3);
    reg.insert("b".to_string(), s1);
    reg.insert("a".to_string(), s2);
    reg.insert("b".to_string(), s3);
    let es = entries_of(&reg);
    assert_eq!(es.len(), 2);
    assert_eq!(es[0], ("b".to_string(), s3));
    assert_eq!(es[1], ("a".to_string(), s2));
    assert_eq!(reg.len(), 2);
    assert_eq!(reg.entry_at(0).0, "b");
}

#[test]
fn format_millis_is_decimal() {
    assert_eq!(format_millis(0), "0");
    assert_eq!(format_millis(7), "7");
    assert_eq!(format_millis(12345), "12345");
    assert_eq!(format_millis(u64::MAX), "18446744073709551615");
}

#[test]
fn brightness_scale_is_carried_per_pixel() {
    let mut reg = Registry::new();
    reg.insert("dim".to_string(), seg(1, false, (100, 100, 100), (100, 100, 100), 0, 10, 5));
    reg.insert("full".to_string(), seg(1, false, (100, 100, 100), (100, 100, 100), 0, 10, 255));
    let frame = compose_frame(&reg, 3);
    assert_eq!(frame[0].1, 5);
    assert_eq!(frame[1].1, 255);
}

#[test]
fn shared_registry_replace_then_snapshot() {
    let shared = SharedRegistry::new(default_registry());
    let before = entries_of(&shared.snapshot());
    assert_eq!(before, entries_of(&default_registry()));
    let mut newreg = Registry::new();
    newreg.insert("swap".to_string(), seg(4, false, (8, 8, 8), (9, 9, 9), 0, 20, 2));
    let expected = entries_of(&newreg);
    shared.replace(newreg);
    // a snapshot taken after replace returns the full new mapping
    assert_eq!(entries_of(&shared.snapshot()), expected);
    // the earlier snapshot is an independent copy: still the full old mapping
    assert_eq!(before, entries_of(&default_registry()));
}

#[test]
fn whitespace_is_accepted() {
    let body = "{ \"only\" : {\n  \"length\" : 5 ,\n  \"mirrored\" : false ,\n  \"start_color\" : [ 255 , 0 , 0 ] ,\n  \"end_color\" : [ 0 , 0 , 255 ] ,\n  \"phase_offset\" : 0 ,\n  \"period\" : 1000 ,\n  \"brightness\" : 10\n} }\n";
    let (reg, _blob) = prepare_write(body).expect("whitespace between tokens is fine");
    let es = entries_of(&reg);
    assert_eq!(es.len(), 1);
    assert_eq!(es[0].0, "only");
    assert_eq!(es[0].1, seg(5, false, (255, 0, 0), (0, 0, 255), 0, 1000, 10));
}

#[test]
fn field_order_is_free() {
    let body = "{\"x\":{\"period\":1000,\"brightness\":10,\"mirrored\":true,\"end_color\":[0,0,255],\"length\":5,\"phase_offset\":7,\"start_color\":[255,0,0]}}";
    let (reg, _blob) = prepare_write(body).expect("any field order is fine");
    let es = entries_of(&reg);
    assert_eq!(es[0].1, seg(5, true, (255, 0, 0), (0, 0, 255), 7, 1000, 10));
    // the persisted blob is canonical regardless of the order posted
    let canonical = serialize_registry(&reg);
    let (reg2, _b2) = prepare_write(&canonical).unwrap();
    assert_eq!(entries_of(&reg), entries_of(&reg2));
}

#[test]
fn escapes_are_decoded() {
    let body = "{\"a\\nb\\u0041\\t\\/\":{\"length\":1,\"mirrored\":false,\"start_color\":[0,0,0],\"end_color\":[0,0,0],\"phase_offset\":0,\"period\":1,\"brightness\":0}}";
    let reg = parse_registry(body).expect("standard JSON escapes decode");
    let es = entries_of(&reg);
    assert_eq!(es[0].0, "a\nbA\t/");
}

#[test]
fn bad_escapes_are_rejected() {
    let seg_body = "{\"length\":1,\"mirrored\":false,\"start_color\":[0,0,0],\"end_color\":[0,0,0],\"phase_offset\":0,\"period\":1,\"brightness\":0}";
    let unknown = format!("{{\"a\\qb\":{seg_body}}}");
    assert!(parse_registry(&unknown).is_none());
    let surrogate = format!("{{\"a\\ud800b\":{seg_body}}}");
    assert!(parse_registry(&surrogate).is_none());
    let truncated = format!("{{\"a\\u12\":{seg_body}}}");
    assert!(parse_registry(&truncated).is_none());
}

#[test]
fn control_char_ids_serialize_as_json() {
    let mut reg = Registry::new();
    reg.insert("line\nbreak\u{1}".to_string(), seg(1, false, (0, 0, 0), (1, 1, 1), 0, 1, 0));
    let blob = serialize_registry(&reg);
    // the output is real JSON even with control characters in the identifier
    let v: serde_json::Value = serde_json::from_str(&blob).expect("valid JSON");
    let obj = v.as_object().unwrap();
    assert!(obj.contains_key("line\nbreak\u{1}"));
    // and it round-trips through the crate's own parser
    let back = parse_registry(&blob).expect("round trip");
    assert_eq!(entries_of(&reg), entries_of(&back));
}

#[test]
fn duplicate_or_missing_or_unknown_fields_are_rejected() {
    let dup = "{\"x\":{\"length\":1,\"length\":2,\"mirrored\":false,\"start_color\":[0,0,0],\"end_color\":[0,0,0],\"phase_offset\":0,\"period\":1,\"brightness\":0}}";
    assert!(parse_registry(dup).is_none());
    let missing = "{\"x\":{\"length\":1,\"mirrored\":false,\"start_color\":[0,0,0],\"end_color\":[0,0,0],\"phase_offset\":0,\"period\":1}}";
    assert!(parse_registry(missing).is_none());
    let unknown = "{\"x\":{\"length\":1,\"mirrored\":false,\"start_color\":[0,0,0],\"end_color\":[0,0,0],\"phase_offset\":0,\"period\":1,\"brightness\":0,\"extra\":1}}";
    assert!(parse_registry(unknown).is_none());
}

#[test]
fn invalid_stored_segment_seeds_defaults() {
    // a stored blob whose segment has a zero length must not become the
    // live registry: the strip would launch unrenderable
    let zero_len = "{\"x\":{\"length\":0,\"mirrored\":false,\"start_color\":[0,0,0],\"end_color\":[0,0,0],\"phase_offset\":0,\"period\":10,\"brightness\":0}}";
    let (reg, used_stored) = startup_registry(Some(zero_len));
    assert!(!used_stored);
    assert_eq!(entries_of(&reg), entries_of(&default_registry()));
    let zero_period = "{\"x\":{\"length\":3,\"mirrored\":false,\"start_color\":[0,0,0],\"end_color\":[0,0,0],\"phase_offset\":0,\"period\":0,\"brightness\":0}}";
    let (reg2, used2) = startup_registry(Some(zero_period));
    assert!(!used2);
    assert_eq!(entries_of(&reg2), entries_of(&default_registry()));
}
