//! The tile grid: get/set round trips, out-of-bounds behaviour, resize.

use oremapper::tilemap::Object;
use oremapper::tilemap::TileMap;

fn blank(w: u16, h: u16) -> TileMap {
    TileMap::new(String::from("a.map"), (w, h), 1)
}

#[test]
fn new_map_is_empty() {
    let m = blank(3, 2);
    for y in 0..2i16 {
        for x in 0..3i16 {
            assert_eq!(m.get_tile((x, y)), (-1, -1));
        }
    }
}

#[test]
fn set_then_get_round_trips() {
    let mut m = blank(4, 4);
    m.set_tile((2, 3), (7, 8));
    assert_eq!(m.get_tile((2, 3)), (7, 8));
    assert_eq!(m.get_tile((3, 2)), (-1, -1));
}

#[test]
fn out_of_bounds_reads_empty_and_writes_are_ignored() {
    let mut m = blank(2, 2);
    m.set_tile((0, 0), (5, 5));
    assert_eq!(m.get_tile((-1, 0)), (-1, -1));
    assert_eq!(m.get_tile((0, -1)), (-1, -1));
    assert_eq!(m.get_tile((2, 0)), (-1, -1));
    assert_eq!(m.get_tile((0, 2)), (-1, -1));
    m.set_tile((-1, 0), (9, 9));
    m.set_tile((2, 0), (9, 9));
    for y in 0..2i16 {
        for x in 0..2i16 {
            let expected = if (x, y) == (0, 0) { (5, 5) } else { (-1, -1) };
            assert_eq!(m.get_tile((x, y)), expected);
        }
    }
}

#[test]
fn resize_shrink_then_grow_preserves_overlap() {
    let mut m = blank(3, 3);
    for y in 0..3i16 {
        for x in 0..3i16 {
            m.set_tile((x, y), (x, y));
        }
    }
    m.resize((2, 2));
    m.resize((3, 3));
    for y in 0..3i16 {
        for x in 0..3i16 {
            let expected = if x < 2 && y < 2 { (x, y) } else { (-1, -1) };
            assert_eq!(m.get_tile((x, y)), expected);
        }
    }
}

#[test]
fn resize_growth_introduces_empty_cells() {
    let mut m = blank(1, 1);
    m.set_tile((0, 0), (4, 4));
    m.resize((2, 2));
    assert_eq!(m.get_tile((0, 0)), (4, 4));
    assert_eq!(m.get_tile((1, 0)), (-1, -1));
    assert_eq!(m.get_tile((0, 1)), (-1, -1));
    assert_eq!(m.get_tile((1, 1)), (-1, -1));
}

#[test]
fn object_insert_and_remove() {
    let mut m = blank(1, 1);
    let obj = Object::new((3, 4), Vec::new());
    let id = m.place_object(obj);
    assert_eq!(m.objects.len(), 1);
    assert_eq!(m.objects[0].0, id);
    assert_eq!(m.objects[0].1.pos, (3, 4));
    assert!(!m.objects[0].1.always_on_top);
    let removed = m.remove_object(id);
    assert!(removed.is_ok());
    assert_eq!(removed.unwrap().pos, (3, 4));
    assert_eq!(m.objects.len(), 0);
    assert!(m.remove_object(id).is_err());
}
