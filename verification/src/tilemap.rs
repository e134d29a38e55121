//! Maps: a fixed-size grid of tile references into one atlas, plus placed
//! objects.  Out-of-bounds reads yield the empty sentinel and out-of-bounds
//! writes are ignored, so callers never bounds-check.

use vstd::prelude::*;

use crate::atlas::Atlas;
use crate::errors::NotFound;
use crate::ids::{parsed_id, ATLAS_RENDERER_UUID};
use crate::schema::inst_lookup;

verus! {

/// A point or tile-sized entity placed on a map: a position (sub-tile
/// precision allowed), a draw-order flag, and instances of component
/// schemas keyed by schema identifier.
pub struct Object {
    pub pos: (i32, i32),
    pub always_on_top: bool,
    pub components: Vec<(u128, Vec<(String, String)>)>,
}

impl Object {
    /// An object at a position with the given component instances.
    pub fn new(pos: (i32, i32), components: Vec<(u128, Vec<(String, String)>)>) -> (r: Object)
        ensures
            r.pos == pos,
            !r.always_on_top,
            r.components == components,
    {
        Object { pos, always_on_top: false, components }
    }

    /// Resolves the atlas this object is drawn with: the `Atlas` reference
    /// of its built-in atlas-renderer instance, looked up among the live
    /// atlases.  When the referenced atlas no longer exists the instance is
    /// removed and the object degrades to a marker; a renderer instance
    /// whose reference does not even parse is an internal
    /// desynchronisation.
    pub fn altas(&mut self, atlases: &Vec<(u128, Atlas)>) -> (r: Result<Option<usize>, NotFound>)
        ensures
            altas_outcome(*old(self), *final(self), atlases@, r),
    {
        let renderer = comp_position(&self.components, ATLAS_RENDERER_UUID);
        match renderer {
            Some(ci) => {
                let key = String::from_str("Atlas");
                let value = crate::schema::lookup_value(&self.components[ci].1, &key);
                let parsed = crate::ids::parse_id(value.as_str());
                match parsed {
                    Some(n) => {
                        let found = atlas_position(atlases, n);
                        match found {
                            Some(ai) => Ok(Some(ai)),
                            _ => {
                                self.components.remove(ci);
                                Ok(None)
                            },
                        }
                    },
                    _ => Err(NotFound),
                }
            },
            _ => Ok(None),
        }
    }
}

/// What resolving an object's atlas does, for each shape of the object:
/// no renderer instance reads as "no atlas"; a renderer whose reference
/// denotes a live atlas yields that atlas's position and changes nothing; a
/// reference to a vanished atlas removes the renderer instance (the object
/// degrades to a marker); an unparseable reference is reported and changes
/// nothing.
pub open spec fn altas_outcome(
    before: Object,
    after: Object,
    atlases: Seq<(u128, Atlas)>,
    r: Result<Option<usize>, NotFound>,
) -> bool {
    match comp_first_position(before.components@, ATLAS_RENDERER_UUID) {
        Some(ci) => {
            match parsed_id(inst_lookup(before.components@[ci].1@, "Atlas"@)) {
                Some(n) => match id_first_position(atlases, n) {
                    Some(ai) => r == Ok::<Option<usize>, NotFound>(Some(ai as usize)) && after
                        == before,
                    _ => {
                        &&& r == Ok::<Option<usize>, NotFound>(None::<usize>)
                        &&& after.components@ == before.components@.remove(ci)
                        &&& after.pos == before.pos
                        &&& after.always_on_top == before.always_on_top
                    },
                },
                _ => r == Err::<Option<usize>, NotFound>(NotFound) && after == before,
            }
        },
        _ => r == Ok::<Option<usize>, NotFound>(None::<usize>) && after == before,
    }
}

/// The first position of a component instance with that schema identifier.
pub open spec fn comp_first_position(
    cs: Seq<(u128, Vec<(String, String)>)>,
    id: u128,
) -> Option<int>
    decreases cs.len(),
{
    if cs.len() == 0 {
        None
    } else if cs[0].0 == id {
        Some(0)
    } else {
        match comp_first_position(cs.drop_first(), id) {
            Some(i) => Some(i + 1),
            _ => None,
        }
    }
}

proof fn lemma_comp_first_position_found(
    cs: Seq<(u128, Vec<(String, String)>)>,
    id: u128,
    i: int,
)
    requires
        0 <= i < cs.len(),
        cs[i].0 == id,
        forall|j: int| 0 <= j < i ==> (#[trigger] cs[j]).0 != id,
    ensures
        comp_first_position(cs, id) == Some(i),
    decreases cs.len(),
{
    if i > 0 {
        lemma_comp_first_position_found(cs.drop_first(), id, i - 1);
    }
}

proof fn lemma_comp_first_position_none(cs: Seq<(u128, Vec<(String, String)>)>, id: u128)
    requires
        forall|j: int| 0 <= j < cs.len() ==> (#[trigger] cs[j]).0 != id,
    ensures
        comp_first_position(cs, id) is None,
    decreases cs.len(),
{
    if cs.len() > 0 {
        lemma_comp_first_position_none(cs.drop_first(), id);
    }
}

/// The position of the first component instance with that schema
/// identifier.
pub fn comp_position(cs: &Vec<(u128, Vec<(String, String)>)>, id: u128) -> (r: Option<usize>)
    ensures
        match r {
            Some(i) => comp_first_position(cs@, id) == Some(i as int) && i < cs@.len()
                && cs@[i as int].0 == id,
            _ => comp_first_position(cs@, id) is None,
        },
{
    let mut i: usize = 0;
    while i < cs.len()
        invariant
            0 <= i <= cs@.len(),
            forall|j: int| 0 <= j < i ==> (#[trigger] cs@[j]).0 != id,
        decreases cs@.len() - i,
    {
        if cs[i].0 == id {
            proof {
                lemma_comp_first_position_found(cs@, id, i as int);
            }
            return Some(i);
        }
        i = i + 1;
    }
    proof {
        lemma_comp_first_position_none(cs@, id);
    }
    None
}

/// The first position of an atlas with that identifier.
pub open spec fn id_first_position(items: Seq<(u128, Atlas)>, id: u128) -> Option<int>
    decreases items.len(),
{
    if items.len() == 0 {
        None
    } else if items[0].0 == id {
        Some(0)
    } else {
        match id_first_position(items.drop_first(), id) {
            Some(i) => Some(i + 1),
            _ => None,
        }
    }
}

proof fn lemma_id_first_position_found(items: Seq<(u128, Atlas)>, id: u128, i: int)
    requires
        0 <= i < items.len(),
        items[i].0 == id,
        forall|j: int| 0 <= j < i ==> (#[trigger] items[j]).0 != id,
    ensures
        id_first_position(items, id) == Some(i),
    decreases items.len(),
{
    if i > 0 {
        lemma_id_first_position_found(items.drop_first(), id, i - 1);
    }
}

proof fn lemma_id_first_position_none(items: Seq<(u128, Atlas)>, id: u128)
    requires
        forall|j: int| 0 <= j < items.len() ==> (#[trigger] items[j]).0 != id,
    ensures
        id_first_position(items, id) is None,
    decreases items.len(),
{
    if items.len() > 0 {
        lemma_id_first_position_none(items.drop_first(), id);
    }
}

/// The position of the first atlas with that identifier.
pub fn atlas_position(items: &Vec<(u128, Atlas)>, id: u128) -> (r: Option<usize>)
    ensures
        match r {
            Some(i) => id_first_position(items@, id) == Some(i as int) && i < items@.len()
                && items@[i as int].0 == id,
            _ => id_first_position(items@, id) is None,
        },
{
    let mut i: usize = 0;
    while i < items.len()
        invariant
            0 <= i <= items@.len(),
            forall|j: int| 0 <= j < i ==> (#[trigger] items@[j]).0 != id,
        decreases items@.len() - i,
    {
        if items[i].0 == id {
            proof {
                lemma_id_first_position_found(items@, id, i as int);
            }
            return Some(i);
        }
        i = i + 1;
    }
    proof {
        lemma_id_first_position_none(items@, id);
    }
    None
}

/// Whether a position lies in a `w` by `h` rectangle anchored at the
/// origin.
pub open spec fn in_rect(pos: (i16, i16), w: u16, h: u16) -> bool {
    0 <= pos.0 < w && 0 <= pos.1 < h
}

/// The empty-cell sentinel.
pub open spec fn empty_tile() -> (i16, i16) {
    (-1i16, -1i16)
}

/// A fixed-size grid of tile references into one atlas, plus placed
/// objects keyed by identifier.
pub struct TileMap {
    /// The file this map was loaded from and is saved to.
    pub path: String,
    /// Grid width and height in tiles.
    pub size: (u16, u16),
    /// The cells in row-major order: the empty sentinel or an atlas tile
    /// coordinate.
    pub data: Vec<(i16, i16)>,
    /// The one atlas this map references.
    pub atlas: u128,
    /// The placed objects.
    pub objects: Vec<(u128, Object)>,
}

/// A cell index is in range of a `w` by `h` grid.
proof fn lemma_cell_index(x: int, y: int, w: int, h: int)
    by (nonlinear_arith)
    requires
        0 <= x < w,
        0 <= y < h,
    ensures
        0 <= x + y * w < w * h,
        0 <= y * w,
{
}

/// Cell indices are unique per position.
proof fn lemma_cell_index_inj(x1: int, y1: int, x2: int, y2: int, w: int)
    by (nonlinear_arith)
    requires
        0 <= x1 < w,
        0 <= x2 < w,
        0 <= y1,
        0 <= y2,
    ensures
        (x1 != x2 || y1 != y2) ==> x1 + y1 * w != x2 + y2 * w,
{
}

impl TileMap {
    /// Well-formed: one cell per grid position.
    pub open spec fn wf(self) -> bool {
        self.data@.len() == self.size.0 as int * self.size.1 as int
    }

    /// Whether a position lies on the grid.
    pub open spec fn in_bounds(self, pos: (i16, i16)) -> bool {
        in_rect(pos, self.size.0, self.size.1)
    }

    /// The value of a cell: what is stored for an on-grid position, the
    /// empty sentinel for any other.
    pub open spec fn spec_get_tile(self, pos: (i16, i16)) -> (i16, i16) {
        if self.in_bounds(pos) {
            self.data@[pos.0 + pos.1 * self.size.0 as int]
        } else {
            empty_tile()
        }
    }

    /// A map with every cell empty and no objects.
    pub fn new(path: String, size: (u16, u16), atlas: u128) -> (r: TileMap)
        requires
            size.0 as int * size.1 as int <= usize::MAX,
        ensures
            r.path == path,
            r.size == size,
            r.atlas == atlas,
            r.objects@.len() == 0,
            r.wf(),
            forall|q: (i16, i16)| r.spec_get_tile(q) == empty_tile(),
    {
        let n: usize = (size.0 as usize) * (size.1 as usize);
        let mut data: Vec<(i16, i16)> = Vec::new();
        let mut k: usize = 0;
        while k < n
            invariant
                0 <= k <= n,
                data@.len() == k,
                forall|j: int| 0 <= j < k ==> data@[j] == empty_tile(),
            decreases n - k,
        {
            data.push((-1, -1));
            k = k + 1;
        }
        let r = TileMap { path, size, data, atlas, objects: Vec::new() };
        proof {
            assert forall|q: (i16, i16)| r.spec_get_tile(q) == empty_tile() by {
                if r.in_bounds(q) {
                    lemma_cell_index(q.0 as int, q.1 as int, size.0 as int, size.1 as int);
                }
            }
        }
        r
    }

    /// The value of a cell; out-of-bounds positions read as empty, so
    /// callers never bounds-check first.
    pub fn get_tile(&self, pos: (i16, i16)) -> (r: (i16, i16))
        requires
            self.wf(),
        ensures
            r == self.spec_get_tile(pos),
    {
        if pos.0 >= 0 && pos.1 >= 0 && (pos.0 as u16) < self.size.0 && (pos.1 as u16)
            < self.size.1 {
            proof {
                lemma_cell_index(
                    pos.0 as int,
                    pos.1 as int,
                    self.size.0 as int,
                    self.size.1 as int,
                );
            }
            let _len_fits = self.data.len();
            self.data[(pos.0 as usize) + (pos.1 as usize) * (self.size.0 as usize)]
        } else {
            (-1, -1)
        }
    }

    /// Writes a cell; out-of-bounds positions are silently ignored, so
    /// writes are always safe.  Reading any position afterwards sees the
    /// new value exactly at `pos`.
    pub fn set_tile(&mut self, pos: (i16, i16), tile: (i16, i16))
        requires
            old(self).wf(),
        ensures
            final(self).wf(),
            final(self).path == old(self).path,
            final(self).size == old(self).size,
            final(self).atlas == old(self).atlas,
            final(self).objects == old(self).objects,
            forall|q: (i16, i16)| #[trigger]
                final(self).spec_get_tile(q) == if q == pos && old(self).in_bounds(pos) {
                    tile
                } else {
                    old(self).spec_get_tile(q)
                },
    {
        if pos.0 >= 0 && pos.1 >= 0 && (pos.0 as u16) < self.size.0 && (pos.1 as u16)
            < self.size.1 {
            proof {
                lemma_cell_index(
                    pos.0 as int,
                    pos.1 as int,
                    self.size.0 as int,
                    self.size.1 as int,
                );
            }
            let _len_fits = self.data.len();
            let idx: usize = (pos.0 as usize) + (pos.1 as usize) * (self.size.0 as usize);
            self.data.set(idx, tile);
            proof {
                assert forall|q: (i16, i16)| #[trigger]
                    final(self).spec_get_tile(q) == if q == pos && old(self).in_bounds(pos) {
                        tile
                    } else {
                        old(self).spec_get_tile(q)
                    } by {
                    if final(self).in_bounds(q) {
                        lemma_cell_index(
                            q.0 as int,
                            q.1 as int,
                            self.size.0 as int,
                            self.size.1 as int,
                        );
                        if q != pos {
                            lemma_cell_index_inj(
                                q.0 as int,
                                q.1 as int,
                                pos.0 as int,
                                pos.1 as int,
                                self.size.0 as int,
                            );
                        }
                    }
                }
            }
        }
    }

    /// Reallocates the grid: the rectangle where old and new grids overlap
    /// keeps its values, every other new cell is empty.  Objects are never
    /// clipped or moved by a resize.
    pub fn resize(&mut self, new_size: (u16, u16))
        requires
            old(self).wf(),
            new_size.0 as int * new_size.1 as int <= usize::MAX,
        ensures
            final(self).wf(),
            final(self).size == new_size,
            final(self).path == old(self).path,
            final(self).atlas == old(self).atlas,
            final(self).objects == old(self).objects,
            resized(*old(self), *final(self), new_size),
    {
        let nw = new_size.0;
        let nh = new_size.1;
        let onum = self.data.len();
        let mut data: Vec<(i16, i16)> = Vec::new();
        let mut y: u16 = 0;
        while y < nh
            invariant
                0 <= y <= nh,
                nw as int * nh as int <= usize::MAX,
                old(self).wf(),
                self == old(self),
                onum == old(self).data@.len(),
                data@.len() == y as int * nw as int,
                data@.len() <= usize::MAX,
                forall|yy: int, xx: int|
                    0 <= yy < y && 0 <= xx < nw ==> #[trigger] data@[xx + yy * nw as int]
                        == resize_cell(*old(self), xx, yy),
            decreases nh - y,
        {
            let mut x: u16 = 0;
            while x < nw
                invariant
                    0 <= x <= nw,
                    0 <= y < nh,
                    nw as int * nh as int <= usize::MAX,
                    old(self).wf(),
                    self == old(self),
                    onum == old(self).data@.len(),
                    data@.len() == y as int * nw as int + x as int,
                    data@.len() <= usize::MAX,
                    forall|yy: int, xx: int|
                        0 <= yy < y && 0 <= xx < nw ==> #[trigger] data@[xx + yy * nw as int]
                            == resize_cell(*old(self), xx, yy),
                    forall|xx: int|
                        0 <= xx < x ==> #[trigger] data@[xx + y as int * nw as int]
                            == resize_cell(*old(self), xx, y as int),
                decreases nw - x,
            {
                let tile: (i16, i16) = if x < self.size.0 && y < self.size.1 {
                    proof {
                        lemma_cell_index(
                            x as int,
                            y as int,
                            self.size.0 as int,
                            self.size.1 as int,
                        );
                    }
                    self.data[(x as usize) + (y as usize) * (self.size.0 as usize)]
                } else {
                    (-1, -1)
                };
                proof {
                    lemma_cell_index(x as int, y as int, nw as int, nh as int);
                    let dl = data@.len() as int;
                    assert forall|yy: int, xx: int|
                        (0 <= yy < y && 0 <= xx < nw) implies (#[trigger] (xx + yy * (nw as int))
                            < dl) by {
                        lemma_cell_row_bound(xx, yy, nw as int, y as int);
                    }
                    assert(tile == resize_cell(*old(self), x as int, y as int));
                }
                data.push(tile);
                proof {
                    assert forall|yy: int, xx: int|
                        (0 <= yy < y && 0 <= xx < nw) implies (#[trigger] data@[xx + yy
                            * (nw as int)] == resize_cell(*old(self), xx, yy)) by {
                        lemma_cell_row_bound(xx, yy, nw as int, y as int);
                    }
                    assert forall|xx: int|
                        (0 <= xx < x + 1) implies (#[trigger] data@[xx + (y as int) * (nw as int)]
                            == resize_cell(*old(self), xx, y as int)) by {
                        lemma_cell_row_bound(xx, y as int, nw as int, y as int + 1);
                    }
                }
                x = x + 1;
            }
            y = y + 1;
            proof {
                assert forall|yy: int, xx: int|
                    (0 <= yy < y && 0 <= xx < nw) implies (#[trigger] data@[xx + yy * nw as int]
                    == resize_cell(*old(self), xx, yy)) by {
                    lemma_cell_row_bound(xx, yy, nw as int, y as int);
                    if yy < y - 1 {
                    } else {
                        assert(xx + yy * nw as int == xx + (y - 1) * nw as int);
                    }
                }
                assert(data@.len() == (y - 1) as int * nw as int + nw as int);
                assert(y as int * nw as int == (y - 1) as int * nw as int + nw as int)
                    by (nonlinear_arith);
            }
        }
        proof {
            assert(nh as int * nw as int == nw as int * nh as int) by (nonlinear_arith);
        }
        self.data = data;
        self.size = new_size;
        proof {
            assert forall|q: (i16, i16)| #[trigger]
                final(self).spec_get_tile(q) == (if in_rect(q, new_size.0, new_size.1) {
                    cell_after_resize(*old(self), q)
                } else {
                    empty_tile()
                }) by {
                if final(self).in_bounds(q) {
                    lemma_cell_index(q.0 as int, q.1 as int, nw as int, nh as int);
                    assert(final(self).data@[q.0 + q.1 * nw as int] == resize_cell(
                        *old(self),
                        q.0 as int,
                        q.1 as int,
                    ));
                }
            }
        }
    }
}

impl TileMap {
    /// Places an object under the given identifier: an existing object
    /// with that identifier is replaced in place, a new identifier is
    /// appended.
    pub fn insert_object(&mut self, id: u128, object: Object)
        ensures
            final(self).path == old(self).path,
            final(self).size == old(self).size,
            final(self).data == old(self).data,
            final(self).atlas == old(self).atlas,
            match crate::keyed::key_pos(old(self).objects@, id) {
                Some(i) => final(self).objects@ == old(self).objects@.update(i, (id, object)),
                _ => final(self).objects@ == old(self).objects@.push((id, object)),
            },
            crate::keyed::unique_keys(old(self).objects@) ==> crate::keyed::unique_keys(
                final(self).objects@,
            ),
    {
        crate::keyed::store_key(&mut self.objects, id, object);
    }

    /// Places an object under a freshly drawn identifier and returns it.
    /// The identifier is random, so nothing more is promised of it than of
    /// any insert under it.
    pub fn place_object(&mut self, object: Object) -> (r: u128)
        ensures
            final(self).path == old(self).path,
            final(self).size == old(self).size,
            final(self).data == old(self).data,
            final(self).atlas == old(self).atlas,
            match crate::keyed::key_pos(old(self).objects@, r) {
                Some(i) => final(self).objects@ == old(self).objects@.update(i, (r, object)),
                _ => final(self).objects@ == old(self).objects@.push((r, object)),
            },
            crate::keyed::unique_keys(old(self).objects@) ==> crate::keyed::unique_keys(
                final(self).objects@,
            ),
    {
        let id = crate::ids::fresh_id();
        crate::keyed::store_key(&mut self.objects, id, object);
        id
    }

    /// Removes the object with that identifier and returns it; an absent
    /// identifier signals an internal desynchronisation and changes
    /// nothing.
    pub fn remove_object(&mut self, id: u128) -> (r: Result<Object, NotFound>)
        ensures
            final(self).path == old(self).path,
            final(self).size == old(self).size,
            final(self).data == old(self).data,
            final(self).atlas == old(self).atlas,
            match crate::keyed::key_pos(old(self).objects@, id) {
                Some(i) => r == Ok::<Object, NotFound>(old(self).objects@[i].1) && final(self).objects@ == old(self).objects@.remove(i),
                _ => r == Err::<Object, NotFound>(NotFound) && final(self).objects@ == old(self).objects@,
            },
            crate::keyed::unique_keys(old(self).objects@) ==> crate::keyed::unique_keys(
                final(self).objects@,
            ),
    {
        let taken = crate::keyed::take_key(&mut self.objects, id);
        match taken {
            Some(object) => Ok(object),
            _ => Err(NotFound),
        }
    }
}

/// A cell index within a completed row prefix is in range.
proof fn lemma_cell_row_bound(x: int, y: int, w: int, rows: int)
    by (nonlinear_arith)
    requires
        0 <= x < w,
        0 <= y < rows,
    ensures
        0 <= x + y * w,
        x + y * w < rows * w,
        x + y * w < y * w + w,
{
}

/// The raw cell value a resize writes at grid coordinates `(xx, yy)` of the
/// new grid: the old grid's cell where the grids overlap, empty elsewhere.
pub open spec fn resize_cell(before: TileMap, xx: int, yy: int) -> (i16, i16) {
    if xx < before.size.0 && yy < before.size.1 {
        before.data@[xx + yy * before.size.0 as int]
    } else {
        empty_tile()
    }
}

/// What any cell reads after a resize to `new_size`: the old value on the
/// overlap of old and new grid, the empty sentinel everywhere else.
pub open spec fn cell_after_resize(before: TileMap, q: (i16, i16)) -> (i16, i16) {
    if in_rect(q, before.size.0, before.size.1) {
        before.spec_get_tile(q)
    } else {
        empty_tile()
    }
}

/// How a resize relates the map before and after: every position reads the
/// old value on the overlap of the two grids, and empty elsewhere.
pub open spec fn resized(before: TileMap, after: TileMap, new_size: (u16, u16)) -> bool {
    &&& after.size == new_size
    &&& forall|q: (i16, i16)| #[trigger]
        after.spec_get_tile(q) == if in_rect(q, new_size.0, new_size.1) {
            cell_after_resize(before, q)
        } else {
            empty_tile()
        }
}

/// Shrinking and then growing back to the original size preserves every
/// tile inside the overlapping rectangle, and every cell newly introduced
/// by the growth is empty.
pub proof fn lemma_resize_round_trip(m: TileMap, shrunk: TileMap, grown: TileMap, s: (u16, u16))
    requires
        resized(m, shrunk, s),
        resized(shrunk, grown, m.size),
    ensures
        forall|q: (i16, i16)|
            in_rect(q, s.0, s.1) && in_rect(q, m.size.0, m.size.1) ==> #[trigger] grown.spec_get_tile(
                q,
            ) == m.spec_get_tile(q),
        forall|q: (i16, i16)|
            in_rect(q, m.size.0, m.size.1) && !in_rect(q, s.0, s.1)
                ==> #[trigger] grown.spec_get_tile(q) == empty_tile(),
{
    assert forall|q: (i16, i16)|
        in_rect(q, s.0, s.1) && in_rect(q, m.size.0, m.size.1) implies #[trigger] grown.spec_get_tile(
        q,
    ) == m.spec_get_tile(q) by {
        assert(grown.spec_get_tile(q) == cell_after_resize(shrunk, q));
        assert(shrunk.spec_get_tile(q) == cell_after_resize(m, q));
        assert(shrunk.in_bounds(q));
    }
    assert forall|q: (i16, i16)|
        in_rect(q, m.size.0, m.size.1) && !in_rect(q, s.0, s.1) implies #[trigger] grown.spec_get_tile(
        q,
    ) == empty_tile() by {
        assert(grown.spec_get_tile(q) == cell_after_resize(shrunk, q));
        if in_rect(q, shrunk.size.0, shrunk.size.1) {
            assert(shrunk.spec_get_tile(q) == empty_tile());
        }
    }
}

} // verus!
