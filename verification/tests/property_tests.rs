//! The property system: repair, tags, and the repair guarantees on
//! concrete values.

use oremapper::property::Property;

fn fix(ty: Property, atlases: &[u128], maps: &[u128], value: &str) -> String {
    ty.fix_value(&atlases.to_vec(), &maps.to_vec(), value)
}

#[test]
fn tags_round_trip() {
    let kinds = [
        Property::I8,
        Property::U8,
        Property::I16,
        Property::U16,
        Property::I32,
        Property::U32,
        Property::F32,
        Property::String,
        Property::Atlas,
        Property::MapRef,
    ];
    for k in kinds {
        assert_eq!(Property::from_tag(k.tag()), Some(k));
    }
    assert_eq!(Property::from_tag(10), None);
}

#[test]
fn fix_int_strips_and_canonicalizes() {
    assert_eq!(fix(Property::U8, &[], &[], "12abc"), "12");
    assert_eq!(fix(Property::U8, &[], &[], "007"), "7");
    assert_eq!(fix(Property::U8, &[], &[], ""), "0");
    assert_eq!(fix(Property::U8, &[], &[], "hello"), "0");
    assert_eq!(fix(Property::U8, &[], &[], "999"), "0");
    assert_eq!(fix(Property::I8, &[], &[], "127"), "127");
    assert_eq!(fix(Property::I8, &[], &[], "128"), "0");
    assert_eq!(fix(Property::U16, &[], &[], "65535"), "65535");
    assert_eq!(fix(Property::U16, &[], &[], "65536"), "0");
    assert_eq!(fix(Property::U32, &[], &[], "4294967295"), "4294967295");
    assert_eq!(fix(Property::U32, &[], &[], "4294967296"), "0");
    assert_eq!(fix(Property::I32, &[], &[], "2147483647"), "2147483647");
}

#[test]
fn fix_int_output_parses() {
    for s in ["", "abc", "1x2x3", "00042", "99999999999999999999999"] {
        let r = fix(Property::U16, &[], &[], s);
        let parsed: u16 = r.parse().expect("repaired value must parse");
        let _ = parsed;
    }
}

#[test]
fn fix_float_keeps_digits_and_first_point() {
    assert_eq!(fix(Property::F32, &[], &[], "3.14"), "3.14");
    assert_eq!(fix(Property::F32, &[], &[], "3.1.4"), "3.14");
    assert_eq!(fix(Property::F32, &[], &[], "a1b.c2d"), "1.2");
    assert_eq!(fix(Property::F32, &[], &[], ""), "0");
    assert_eq!(fix(Property::F32, &[], &[], "..."), "0");
}

#[test]
fn fix_float_output_parses_as_float() {
    for s in ["", "3.1.4", "x.5", "1.", "nonsense"] {
        let r = fix(Property::F32, &[], &[], s);
        let parsed: f32 = r.parse().expect("repaired float must parse");
        let _ = parsed;
    }
}

#[test]
fn fix_string_unchanged() {
    assert_eq!(fix(Property::String, &[], &[], "anything at all"), "anything at all");
    assert_eq!(fix(Property::String, &[], &[], ""), "");
}

#[test]
fn fix_ref_keeps_valid_member() {
    let a: u128 = 0xa1a2a3a4_b1b2_c1c2_d1d2_d3d4d5d6d7d8;
    let text = uuid::Uuid::from_u128(a).to_string();
    assert_eq!(fix(Property::Atlas, &[a], &[], &text), text);
}

#[test]
fn fix_ref_replaces_invalid_with_first_member() {
    let a: u128 = 7;
    let expected = uuid::Uuid::from_u128(a).to_string();
    assert_eq!(fix(Property::Atlas, &[a, 9], &[], "not a uuid"), expected);
    let stranger = uuid::Uuid::from_u128(12345).to_string();
    assert_eq!(fix(Property::Atlas, &[a, 9], &[], &stranger), expected);
    assert_eq!(fix(Property::MapRef, &[], &[a], ""), expected);
}

#[test]
fn fix_ref_output_is_member() {
    let ids: Vec<u128> = vec![11, 22, 33];
    for s in ["", "junk", "00000000-0000-0000-0000-000000000000"] {
        let r = fix(Property::Atlas, &ids, &[], s);
        let parsed = uuid::Uuid::parse_str(&r).expect("repaired reference must parse");
        assert!(ids.contains(&parsed.as_u128()));
    }
}

#[test]
fn fix_is_idempotent() {
    let ids: Vec<u128> = vec![5];
    let kinds = [
        Property::I8,
        Property::U8,
        Property::I16,
        Property::U16,
        Property::I32,
        Property::U32,
        Property::F32,
        Property::String,
        Property::Atlas,
        Property::MapRef,
    ];
    for k in kinds {
        for s in ["", "12ab", "3.1.4", "junk", "-7", "   9  "] {
            let once = k.fix_value(&ids, &ids, s);
            let twice = k.fix_value(&ids, &ids, &once);
            assert_eq!(once, twice);
        }
    }
}
