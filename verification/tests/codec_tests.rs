//! The binary codec and the persisted record formats.

use oremapper::atlas::{Atlas, Image};
use oremapper::codec;
use oremapper::errors::AssetLoadError;
use oremapper::property::Property;
use oremapper::schema::Component;
use oremapper::tilemap::Object;
use oremapper::tilemap::TileMap;

#[test]
fn integer_round_trips() {
    let mut out: Vec<u8> = Vec::new();
    codec::push_u16_le(&mut out, 0x1234);
    codec::push_u16_be(&mut out, 0x1234);
    codec::push_u32_le(&mut out, 0xDEADBEEF);
    codec::push_i32_le(&mut out, -2);
    assert_eq!(out[0..2], [0x34, 0x12]);
    assert_eq!(out[2..4], [0x12, 0x34]);
    assert_eq!(out[4..8], [0xEF, 0xBE, 0xAD, 0xDE]);
    assert_eq!(out[8..12], [0xFE, 0xFF, 0xFF, 0xFF]);
    assert_eq!(codec::read_u16_le(&out, 0), Some((0x1234, 2)));
    assert_eq!(codec::read_u32_le(&out, 4), Some((0xDEADBEEF, 8)));
    assert_eq!(codec::read_i32_le(&out, 8), Some((-2, 12)));
    assert_eq!(codec::read_u32_le(&out, 10), None);
}

#[test]
fn identifier_round_trips_as_sixteen_bytes() {
    let id: u128 = 0x00112233_4455_6677_8899_aabbccddeeff;
    let mut out: Vec<u8> = Vec::new();
    codec::push_id(&mut out, id);
    assert_eq!(out.len(), 16);
    assert_eq!(out[0], 0x00);
    assert_eq!(out[1], 0x11);
    assert_eq!(out[15], 0xff);
    assert_eq!(codec::read_id(&out, 0), Some((id, 16)));
    assert_eq!(codec::read_id(&out, 1), None);
}

#[test]
fn string_round_trips_with_length_prefix() {
    let mut out: Vec<u8> = Vec::new();
    codec::push_str32(&mut out, &String::from("héllo"));
    assert_eq!(out[0..4], [6, 0, 0, 0]);
    let (back, pos) = codec::read_str32(&out, 0).expect("read back");
    assert_eq!(back, "héllo");
    assert_eq!(pos, out.len());
    assert_eq!(codec::read_str32(&out, 1), None);
}

#[test]
fn component_record_round_trips() {
    let mut c = Component::new(String::from("thing.cmp"));
    c.add_field(String::from("hp"), Property::U16);
    c.add_field(String::from("label"), Property::String);
    c.add_field(String::from("home"), Property::MapRef);
    let bytes = c.encode().expect("encodable");
    let back = Component::decode(String::from("thing.cmp"), &bytes).expect("decodable");
    assert_eq!(back.properties.len(), 3);
    assert_eq!(back.properties[0].0, "hp");
    assert_eq!(back.properties[0].1, Property::U16);
    assert_eq!(back.properties[1].0, "label");
    assert_eq!(back.properties[1].1, Property::String);
    assert_eq!(back.properties[2].0, "home");
    assert_eq!(back.properties[2].1, Property::MapRef);
    assert!(!back.builtin);
}

#[test]
fn component_record_rejects_bad_tag() {
    let mut bytes: Vec<u8> = Vec::new();
    codec::push_u32_le(&mut bytes, 1);
    codec::push_str32(&mut bytes, &String::from("x"));
    codec::push_u8(&mut bytes, 200);
    assert!(matches!(
        Component::decode(String::from("p"), &bytes),
        Err(AssetLoadError::Malformed)
    ));
}

#[test]
fn component_record_rejects_trailing_bytes_and_duplicates() {
    let c = Component::new(String::from("p"));
    let mut bytes = c.encode().expect("encodable");
    bytes.push(0);
    assert!(matches!(
        Component::decode(String::from("p"), &bytes),
        Err(AssetLoadError::Malformed)
    ));
    let mut d = Vec::new();
    codec::push_u32_le(&mut d, 2);
    codec::push_str32(&mut d, &String::from("x"));
    codec::push_u8(&mut d, 0);
    codec::push_str32(&mut d, &String::from("x"));
    codec::push_u8(&mut d, 1);
    assert!(matches!(
        Component::decode(String::from("p"), &d),
        Err(AssetLoadError::Malformed)
    ));
}

#[test]
fn schema_field_mutation() {
    let mut c = Component::new(String::from("p"));
    c.add_field(String::from("a"), Property::U8);
    c.add_field(String::from("b"), Property::I32);
    c.add_field(String::from("a"), Property::F32);
    assert_eq!(c.properties.len(), 2);
    assert_eq!(c.properties[0].0, "a");
    assert_eq!(c.properties[0].1, Property::F32);
    c.swap_fields(0, 1);
    assert_eq!(c.properties[0].0, "b");
    assert_eq!(c.properties[1].0, "a");
    assert!(c.remove_field(&String::from("b")));
    assert_eq!(c.properties.len(), 1);
    assert_eq!(c.properties[0].0, "a");
    assert!(!c.remove_field(&String::from("b")));
}

#[test]
fn fix_instance_rebuilds_to_schema_shape() {
    let mut c = Component::new(String::from("p"));
    c.add_field(String::from("hp"), Property::U8);
    c.add_field(String::from("name"), Property::String);
    let mut inst: Vec<(String, String)> = vec![
        (String::from("stale"), String::from("zzz")),
        (String::from("hp"), String::from("9x9")),
    ];
    c.fix_instance(&mut inst, &Vec::new(), &Vec::new());
    assert_eq!(inst.len(), 2);
    assert_eq!(inst[0], (String::from("hp"), String::from("99")));
    assert_eq!(inst[1], (String::from("name"), String::from("")));
}

#[test]
fn sidecar_round_trips() {
    let image = Image { width: 4, height: 4, pixels: vec![oremapper::atlas::Rgba { r: 0, g: 0, b: 0, a: 0 }; 16] };
    let a = Atlas { path: String::from("a.png"), image, tile_size: (2, 2) };
    let bytes = a.encode_sidecar();
    assert_eq!(bytes, [2, 0, 2, 0]);
    let image2 = Image { width: 4, height: 4, pixels: vec![oremapper::atlas::Rgba { r: 0, g: 0, b: 0, a: 0 }; 16] };
    let back = Atlas::decode_sidecar(String::from("a.png"), image2, &bytes).expect("decodable");
    assert_eq!(back.tile_size, (2, 2));
    assert_eq!(back.width(), 2);
    assert_eq!(back.height(), 2);
}

#[test]
fn sidecar_rejects_zero_and_trailing() {
    let image = Image { width: 1, height: 1, pixels: vec![oremapper::atlas::Rgba { r: 0, g: 0, b: 0, a: 0 }] };
    let bad = vec![0, 0, 1, 0];
    assert!(Atlas::decode_sidecar(String::from("p"), image, &bad).is_err());
    let image = Image { width: 1, height: 1, pixels: vec![oremapper::atlas::Rgba { r: 0, g: 0, b: 0, a: 0 }] };
    let long = vec![1, 0, 1, 0, 0];
    assert!(Atlas::decode_sidecar(String::from("p"), image, &long).is_err());
}

#[test]
fn map_record_round_trips() {
    let mut m = TileMap::new(String::from("m.map"), (2, 2), 0xABCD);
    m.set_tile((1, 0), (3, 4));
    let inst = vec![(String::from("hp"), String::from("7"))];
    let mut o = Object::new((-5, 9), vec![(0x42, inst)]);
    o.always_on_top = true;
    m.insert_object(0x77, o);
    let bytes = m.encode().expect("encodable");
    let back = TileMap::decode(String::from("m.map"), &bytes).expect("decodable");
    assert_eq!(back.size, (2, 2));
    assert_eq!(back.atlas, 0xABCD);
    assert_eq!(back.get_tile((1, 0)), (3, 4));
    assert_eq!(back.get_tile((0, 1)), (-1, -1));
    assert_eq!(back.objects.len(), 1);
    assert_eq!(back.objects[0].0, 0x77);
    assert_eq!(back.objects[0].1.pos, (-5, 9));
    assert!(back.objects[0].1.always_on_top);
    assert_eq!(back.objects[0].1.components.len(), 1);
    assert_eq!(back.objects[0].1.components[0].0, 0x42);
    assert_eq!(
        back.objects[0].1.components[0].1,
        vec![(String::from("hp"), String::from("7"))]
    );
}

#[test]
fn map_record_rejects_truncation_and_trailing() {
    let m = TileMap::new(String::from("m.map"), (1, 1), 5);
    let mut bytes = m.encode().expect("encodable");
    let last = bytes.pop().unwrap();
    assert!(TileMap::decode(String::from("m.map"), &bytes).is_err());
    bytes.push(last);
    bytes.push(0);
    assert!(TileMap::decode(String::from("m.map"), &bytes).is_err());
}
