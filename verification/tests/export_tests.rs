//! The export pipeline: byte-exact scenarios and the error conditions.

use oremapper::atlas::{Atlas, Image, Rgba};
use oremapper::errors::ExportError;
use oremapper::property::Property;
use oremapper::registry::Assets;
use oremapper::schema::Component;
use oremapper::tilemap::{Object, TileMap};

fn solid(r: u8, g: u8, b: u8, a: u8) -> Rgba {
    Rgba { r, g, b, a }
}

fn atlas_with(path: &str, width: u32, height: u32, pixels: Vec<Rgba>, ts: (u16, u16)) -> Atlas {
    Atlas { path: String::from(path), image: Image { width, height, pixels }, tile_size: ts }
}

#[test]
fn export_atlas_section_is_byte_exact() {
    let mut assets = Assets::new(String::from("proj"));
    let pixels = vec![solid(255, 0, 0, 255), solid(12, 34, 56, 0)];
    assets.register_atlas(1, atlas_with("a.png", 2, 1, pixels, (1, 1)));
    let bytes = assets.export(&Vec::new()).expect("exportable");
    assert_eq!(
        bytes,
        vec![
            0x01, 0x00, // atlas count
            0x01, 0x00, 0x01, 0x00, // tile size
            0x02, 0x00, // frame count
            0xF8, 0x00, // opaque red, big-endian RGB565
            0xF8, 0x1F, // translucent pixel forced to the key colour
            0x00, 0x00, // map count
        ]
    );
}

#[test]
fn export_single_empty_map_cell() {
    let mut assets = Assets::new(String::from("proj"));
    assets.register_atlas(1, atlas_with("a.png", 1, 1, vec![solid(0, 0, 0, 0)], (1, 1)));
    assets.register_map(2, TileMap::new(String::from("m.map"), (1, 1), 1));
    let bytes = assets.export(&Vec::new()).expect("exportable");
    assert_eq!(
        bytes,
        vec![
            0x01, 0x00, // atlas count
            0x01, 0x00, 0x01, 0x00, 0x01, 0x00, // tile size, frame count
            0xF8, 0x1F, // the one (translucent) pixel
            0x01, 0x00, // map count
            0x01, 0x00, 0x01, 0x00, // map size
            0x00, 0x00, // atlas export index
            0xFF, 0xFF, // the empty tile cell
            0x00, 0x00, // object count follows immediately
        ]
    );
}

#[test]
fn export_flattens_tile_coordinates() {
    let mut assets = Assets::new(String::from("proj"));
    let pixels = vec![solid(0, 0, 0, 0); 6];
    assets.register_atlas(1, atlas_with("a.png", 3, 2, pixels, (1, 1)));
    let mut m = TileMap::new(String::from("m.map"), (1, 1), 1);
    m.set_tile((0, 0), (2, 1));
    assets.register_map(2, m);
    let bytes = assets.export(&Vec::new()).expect("exportable");
    let n = bytes.len();
    // the cell is tile (2,1) of a 3-wide grid: 2 + 1*3 = 5
    assert_eq!(bytes[n - 4..n - 2], [0x05, 0x00]);
}

fn assets_with_object(fields: &[(&str, Property)], values: &[(&str, &str)]) -> Assets {
    let mut assets = Assets::new(String::from("proj"));
    assets.register_atlas(1, atlas_with("a.png", 1, 1, vec![solid(0, 0, 0, 0)], (1, 1)));
    let mut c = Component::new(String::from("c.cmp"));
    for (name, ty) in fields {
        c.add_field(String::from(*name), *ty);
    }
    assets.register_component(0x42, c);
    let mut m = TileMap::new(String::from("m.map"), (1, 1), 1);
    let inst: Vec<(String, String)> =
        values.iter().map(|(n, v)| (String::from(*n), String::from(*v))).collect();
    m.insert_object(7, Object::new((3, -4), vec![(0x42, inst)]));
    assets.register_map(2, m);
    assets
}

#[test]
fn export_object_and_values() {
    let mut assets = assets_with_object(
        &[("a", Property::U8), ("b", Property::U8)],
        &[("a", "1"), ("b", "2")],
    );
    let bytes = assets.export(&Vec::new()).expect("exportable");
    let n = bytes.len();
    // ... object: pos x (3), pos y (-4), flag, component count,
    // schema export index, then the two one-byte values in field order
    assert_eq!(bytes[n - 15..n - 11], [0x03, 0x00, 0x00, 0x00]);
    assert_eq!(bytes[n - 11..n - 7], [0xFC, 0xFF, 0xFF, 0xFF]);
    assert_eq!(bytes[n - 7], 0x00);
    assert_eq!(bytes[n - 6..n - 4], [0x01, 0x00]);
    assert_eq!(bytes[n - 2..], [0x01, 0x02]);
}

#[test]
fn schema_reorder_swaps_exactly_the_two_value_segments() {
    let mut assets = assets_with_object(
        &[("a", Property::U8), ("b", Property::U8)],
        &[("a", "1"), ("b", "2")],
    );
    let before = assets.export(&Vec::new()).expect("exportable");
    // find the schema and swap its two fields
    let pos = assets.components.iter().position(|(id, _)| *id == 0x42).unwrap();
    assets.components[pos].1.swap_fields(0, 1);
    let after = assets.export(&Vec::new()).expect("exportable");
    let n = before.len();
    assert_eq!(after.len(), n);
    assert_eq!(before[..n - 2], after[..n - 2]);
    assert_eq!(before[n - 2], after[n - 1]);
    assert_eq!(before[n - 1], after[n - 2]);
}

#[test]
fn export_float_value_uses_supplied_bits() {
    let mut assets = assets_with_object(&[("f", Property::F32)], &[("f", "1.5")]);
    let table = vec![(String::from("1.5"), 1.5f32.to_bits())];
    let bytes = assets.export(&table).expect("exportable");
    let n = bytes.len();
    assert_eq!(bytes[n - 4..], 1.5f32.to_le_bytes());
}

#[test]
fn export_string_value_is_length_prefixed() {
    let mut assets = assets_with_object(&[("s", Property::String)], &[("s", "hi")]);
    let bytes = assets.export(&Vec::new()).expect("exportable");
    let n = bytes.len();
    assert_eq!(bytes[n - 4..], [0x02, 0x00, b'h', b'i']);
}

#[test]
fn export_reference_value_is_export_index() {
    let atlas_ref = uuid::Uuid::from_u128(1).to_string();
    let mut assets = assets_with_object(&[("a", Property::Atlas)], &[("a", &atlas_ref)]);
    let bytes = assets.export(&Vec::new()).expect("exportable");
    let n = bytes.len();
    assert_eq!(bytes[n - 2..], [0x00, 0x00]);
}

#[test]
fn export_fails_on_unknown_atlas() {
    let mut assets = Assets::new(String::from("proj"));
    assets.register_map(2, TileMap::new(String::from("m.map"), (1, 1), 77));
    assert_eq!(assets.export(&Vec::new()), Err(ExportError::UnknownAtlas));
}

#[test]
fn export_fails_on_unknown_component() {
    let mut assets = Assets::new(String::from("proj"));
    assets.register_atlas(1, atlas_with("a.png", 1, 1, vec![solid(0, 0, 0, 0)], (1, 1)));
    let mut m = TileMap::new(String::from("m.map"), (1, 1), 1);
    m.insert_object(7, Object::new((0, 0), vec![(0x999, Vec::new())]));
    assets.register_map(2, m);
    assert_eq!(assets.export(&Vec::new()), Err(ExportError::UnknownComponent));
}

#[test]
fn export_fails_on_missing_float_bits() {
    let mut assets = assets_with_object(&[("f", Property::F32)], &[("f", "2.25")]);
    assert_eq!(assets.export(&Vec::new()), Err(ExportError::MissingFloatBits));
}

#[test]
fn export_fails_on_oversized_string() {
    let long = "x".repeat(70_000);
    let mut assets = assets_with_object(&[("s", Property::String)], &[("s", &long)]);
    assert_eq!(assets.export(&Vec::new()), Err(ExportError::TooLarge));
}

#[test]
fn export_fails_on_malformed_map() {
    let mut assets = Assets::new(String::from("proj"));
    assets.register_atlas(1, atlas_with("a.png", 1, 1, vec![solid(0, 0, 0, 0)], (1, 1)));
    let broken = TileMap {
        path: String::from("m.map"),
        size: (2, 2),
        data: vec![(-1, -1)],
        atlas: 1,
        objects: Vec::new(),
    };
    assets.register_map(2, broken);
    assert_eq!(assets.export(&Vec::new()), Err(ExportError::MalformedAsset));
}

#[test]
fn export_orders_atlases_by_path() {
    let mut assets = Assets::new(String::from("proj"));
    assets.register_atlas(1, atlas_with("z.png", 1, 1, vec![solid(255, 255, 255, 255)], (1, 1)));
    assets.register_atlas(2, atlas_with("a.png", 1, 1, vec![solid(0, 0, 0, 0)], (1, 1)));
    let bytes = assets.export(&Vec::new()).expect("exportable");
    // a.png (translucent pixel) must come before z.png (opaque white)
    assert_eq!(
        bytes,
        vec![
            0x02, 0x00, // atlas count
            0x01, 0x00, 0x01, 0x00, 0x01, 0x00, 0xF8, 0x1F, // a.png
            0x01, 0x00, 0x01, 0x00, 0x01, 0x00, 0xFF, 0xFF, // z.png: white packs to all ones
            0x00, 0x00, // map count
        ]
    );
}
