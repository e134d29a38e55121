//! The registry: built-in schemas, the path cache, pruning, and the index
//! file format on which identifier stability rests.

use oremapper::atlas::{Atlas, Image, Rgba};
use oremapper::errors::ProjectLoadError;
use oremapper::ids::{ATLAS_RENDERER_UUID, SERIALIZE_UUID};
use oremapper::property::Property;
use oremapper::registry::{decode_index, encode_index, Assets};
use oremapper::tilemap::{Object, TileMap};

fn tiny_atlas(path: &str) -> Atlas {
    Atlas {
        path: String::from(path),
        image: Image { width: 1, height: 1, pixels: vec![Rgba { r: 0, g: 0, b: 0, a: 0 }] },
        tile_size: (1, 1),
    }
}

#[test]
fn new_registry_has_builtins() {
    let assets = Assets::new(String::from("proj"));
    assert_eq!(assets.components.len(), 2);
    let renderer = assets.components.iter().find(|(id, _)| *id == ATLAS_RENDERER_UUID);
    let renderer = &renderer.expect("atlas renderer present").1;
    assert!(renderer.builtin);
    assert_eq!(renderer.properties.len(), 1);
    assert_eq!(renderer.properties[0].0, "Atlas");
    assert_eq!(renderer.properties[0].1, Property::Atlas);
    let marker = assets.components.iter().find(|(id, _)| *id == SERIALIZE_UUID);
    let marker = &marker.expect("marker present").1;
    assert!(marker.builtin);
    assert!(marker.properties.is_empty());
}

#[test]
fn builtins_never_reach_the_component_index() {
    let assets = Assets::new(String::from("proj"));
    assert!(assets.component_index_entries().is_empty());
}

#[test]
fn path_cache_keeps_identifiers() {
    let mut assets = Assets::new(String::from("proj"));
    assets.register_atlas(11, tiny_atlas("a.png"));
    assert_eq!(assets.cached_id(&String::from("a.png")), Some(11));
    assert_eq!(assets.cached_id(&String::from("b.png")), None);
}

#[test]
fn index_round_trips() {
    let entries: Vec<(u128, String)> = vec![
        (0xa1a2a3a4_b1b2_c1c2_d1d2_d3d4d5d6d7d8, String::from("tiles/dungeon.png")),
        (7, String::from("a path with spaces.png")),
        (8, String::from("")),
    ];
    let text = encode_index(&entries).expect("encodable");
    let back = decode_index(&text).expect("decodable");
    assert_eq!(back, entries);
}

#[test]
fn index_text_uses_canonical_identifier_form() {
    let id: u128 = 0xa1a2a3a4_b1b2_c1c2_d1d2_d3d4d5d6d7d8;
    let entries = vec![(id, String::from("a.png"))];
    let text = encode_index(&entries).expect("encodable");
    let expected = format!("{} a.png\n", uuid::Uuid::from_u128(id));
    assert_eq!(text, expected);
}

#[test]
fn index_rejects_newline_in_path() {
    let entries = vec![(1u128, String::from("bad\npath"))];
    assert!(encode_index(&entries).is_err());
}

#[test]
fn index_decode_rejects_malformed_lines() {
    assert_eq!(decode_index("no newline"), Err(ProjectLoadError::Malformed));
    assert_eq!(decode_index("short\n"), Err(ProjectLoadError::Malformed));
    let no_space = format!("{}xtail\n", uuid::Uuid::from_u128(5));
    assert_eq!(decode_index(&no_space), Err(ProjectLoadError::Malformed));
    assert_eq!(decode_index(""), Ok(Vec::new()));
}

#[test]
fn prune_removes_maps_whose_atlas_is_gone() {
    let mut assets = Assets::new(String::from("proj"));
    assets.register_atlas(1, tiny_atlas("a.png"));
    assets.register_map(10, TileMap::new(String::from("keep.map"), (1, 1), 1));
    assets.register_map(11, TileMap::new(String::from("orphan.map"), (1, 1), 99));
    let removed = assets.prune_orphan_maps();
    assert_eq!(removed, vec![(11, String::from("orphan.map"))]);
    assert_eq!(assets.maps.len(), 1);
    assert_eq!(assets.maps[0].0, 10);
}

#[test]
fn object_atlas_resolution_self_heals() {
    let mut assets = Assets::new(String::from("proj"));
    assets.register_atlas(1, tiny_atlas("a.png"));

    // a renderer pointing at the live atlas resolves to it
    let good = vec![(String::from("Atlas"), uuid::Uuid::from_u128(1).to_string())];
    let mut o = Object::new((0, 0), vec![(ATLAS_RENDERER_UUID, good)]);
    assert_eq!(o.altas(&assets.atlases), Ok(Some(0)));
    assert_eq!(o.components.len(), 1);

    // one pointing at a vanished atlas is removed: the object degrades
    let stale = vec![(String::from("Atlas"), uuid::Uuid::from_u128(99).to_string())];
    let mut o = Object::new((0, 0), vec![(ATLAS_RENDERER_UUID, stale)]);
    assert_eq!(o.altas(&assets.atlases), Ok(None));
    assert!(o.components.is_empty());

    // an unparseable reference is an internal desynchronisation
    let junk = vec![(String::from("Atlas"), String::from("not an id"))];
    let mut o = Object::new((0, 0), vec![(ATLAS_RENDERER_UUID, junk)]);
    assert!(o.altas(&assets.atlases).is_err());

    // no renderer instance at all simply means no atlas
    let mut o = Object::new((0, 0), Vec::new());
    assert_eq!(o.altas(&assets.atlases), Ok(None));
}
