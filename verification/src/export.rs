//! The export pipeline: deterministic serialization of the whole registry
//! into one binary blob for the runtime.  Two sections in fixed order,
//! atlases then maps, each ordered by ascending source file path; pixel
//! data is big-endian, every other multi-byte field little-endian.

use vstd::prelude::*;

use crate::atlas::{Atlas, Image, Rgba};
use crate::codec::{be16, le16, le32, le32i, push_u16_be, push_u16_le, push_u32_le, push_i32_le,
    push_u8, push_bytes};
use crate::errors::ExportError;
use crate::ids::parsed_id;
use crate::keyed::{has_key, key_lookup, key_pos};
use crate::property::{digits_val, spec_fix_value, spec_parse_decimal, Property};
use crate::registry::Assets;
use crate::schema::{fixed_instance, inst_lookup, Component};
use crate::sorting::{idx_view, keys_view, sort_idx, sorted_order, lemma_sort_idx_take_contains};
use crate::tilemap::{Object, TileMap};
use vstd::utf8::encode_utf8;

verus! {

broadcast use vstd::utf8::encode_utf8_valid_utf8;

// ---------------------------------------------------------------- pixels

/// A pixel packed as RGB565, except that translucent pixels (alpha below
/// the threshold) are forced to the conventional transparent key colour.
pub open spec fn pix565(p: Rgba) -> u16 {
    if p.a < crate::ALPHA_OPAQUE_MIN {
        0xF81F
    } else {
        (((p.r >> 3) as u16) << 11 | ((p.g >> 2) as u16) << 5 | ((p.b >> 3) as u16)) as u16
    }
}

/// The packed pixel value.
pub fn pack565(p: Rgba) -> (r: u16)
    ensures
        r == pix565(p),
{
    if p.a < crate::ALPHA_OPAQUE_MIN {
        0xF81F
    } else {
        ((p.r >> 3) as u16) << 11 | ((p.g >> 2) as u16) << 5 | ((p.b >> 3) as u16)
    }
}

/// The first `k` pixels of one tile row, two big-endian bytes each.
pub open spec fn row_take(img: Image, bx: int, y: int, k: int) -> Seq<u8>
    decreases k,
{
    if k <= 0 {
        Seq::empty()
    } else {
        row_take(img, bx, y, k - 1) + be16(pix565(img.spec_pixel(bx + k - 1, y)))
    }
}

/// The first `k` rows of one tile.
pub open spec fn tile_take(a: Atlas, tx: int, ty: int, k: int) -> Seq<u8>
    decreases k,
{
    if k <= 0 {
        Seq::empty()
    } else {
        tile_take(a, tx, ty, k - 1) + row_take(
            a.image,
            tx * a.tile_size.0 as int,
            ty * a.tile_size.1 as int + k - 1,
            a.tile_size.0 as int,
        )
    }
}

/// The first `k` tiles of one row of tiles.
pub open spec fn tiles_row_take(a: Atlas, ty: int, k: int) -> Seq<u8>
    decreases k,
{
    if k <= 0 {
        Seq::empty()
    } else {
        tiles_row_take(a, ty, k - 1) + tile_take(a, k - 1, ty, a.tile_size.1 as int)
    }
}

/// The first `k` rows of tiles.
pub open spec fn tiles_take(a: Atlas, k: int) -> Seq<u8>
    decreases k,
{
    if k <= 0 {
        Seq::empty()
    } else {
        tiles_take(a, k - 1) + tiles_row_take(a, k - 1, a.spec_tiles_wide())
    }
}

/// The pixel stream of an atlas: every tile in row-major order, every
/// pixel within a tile in row-major order.
pub open spec fn atlas_pixels(a: Atlas) -> Seq<u8> {
    tiles_take(a, a.spec_tiles_high())
}

/// One atlas record: tile size, frame count, then the pixel stream.
pub open spec fn atlas_record(a: Atlas) -> Seq<u8> {
    le16(a.tile_size.0) + le16(a.tile_size.1) + le16(
        (a.spec_tiles_wide() * a.spec_tiles_high()) as u16,
    ) + atlas_pixels(a)
}

/// A pixel coordinate within the tile grid is inside the image.
proof fn lemma_tile_pixel_bound(t: int, p: int, ts: int, dim: int)
    by (nonlinear_arith)
    requires
        ts >= 1,
        0 <= p < ts,
        0 <= t < dim / ts,
    ensures
        0 <= t * ts + p < dim,
{
}

/// Products of 32-bit values fit 64 bits.
proof fn lemma_mul_u32_fits(x: u64, y: u64)
    by (nonlinear_arith)
    requires
        x <= 0xFFFF_FFFF,
        y <= 0xFFFF_FFFF,
    ensures
        x * y <= 0xFFFF_FFFE_0000_0001,
        x * y >= 0,
{
}

/// Appends the pixel stream of an atlas.
fn push_atlas_pixels(out: &mut Vec<u8>, a: &Atlas)
    requires
        a.wf(),
    ensures
        final(out)@ == old(out)@ + atlas_pixels(*a),
{
    let tw: u32 = a.image.width / (a.tile_size.0 as u32);
    let th: u32 = a.image.height / (a.tile_size.1 as u32);
    let tsx: u32 = a.tile_size.0 as u32;
    let tsy: u32 = a.tile_size.1 as u32;
    let mut ty: u32 = 0;
    proof {
        assert(out@ =~= old(out)@ + tiles_take(*a, 0));
    }
    while ty < th
        invariant
            0 <= ty <= th,
            a.wf(),
            tw == a.spec_tiles_wide(),
            th == a.spec_tiles_high(),
            tsx == a.tile_size.0,
            tsy == a.tile_size.1,
            out@ == old(out)@ + tiles_take(*a, ty as int),
        decreases th - ty,
    {
        let mut tx: u32 = 0;
        proof {
            assert(out@ + tiles_row_take(*a, ty as int, 0) =~= out@);
        }
        let ghost row_base = out@;
        while tx < tw
            invariant
                0 <= tx <= tw,
                0 <= ty < th,
                a.wf(),
                tw == a.spec_tiles_wide(),
                th == a.spec_tiles_high(),
                tsx == a.tile_size.0,
                tsy == a.tile_size.1,
                out@ == row_base + tiles_row_take(*a, ty as int, tx as int),
            decreases tw - tx,
        {
            let mut py: u32 = 0;
            let ghost tile_base = out@;
            while py < tsy
                invariant
                    0 <= py <= tsy,
                    0 <= tx < tw,
                    0 <= ty < th,
                    a.wf(),
                    tw == a.spec_tiles_wide(),
                    th == a.spec_tiles_high(),
                    tsx == a.tile_size.0,
                    tsy == a.tile_size.1,
                    out@ == tile_base + tile_take(*a, tx as int, ty as int, py as int),
                decreases tsy - py,
            {
                let mut px: u32 = 0;
                let ghost prow_base = out@;
                while px < tsx
                    invariant
                        0 <= px <= tsx,
                        0 <= py < tsy,
                        0 <= tx < tw,
                        0 <= ty < th,
                        a.wf(),
                        tw == a.spec_tiles_wide(),
                        th == a.spec_tiles_high(),
                        tsx == a.tile_size.0,
                        tsy == a.tile_size.1,
                        out@ == prow_base + row_take(
                            a.image,
                            tx as int * tsx as int,
                            ty as int * tsy as int + py as int,
                            px as int,
                        ),
                    decreases tsx - px,
                {
                    proof {
                        lemma_tile_pixel_bound(
                            tx as int,
                            px as int,
                            tsx as int,
                            a.image.width as int,
                        );
                        lemma_tile_pixel_bound(
                            ty as int,
                            py as int,
                            tsy as int,
                            a.image.height as int,
                        );
                    }
                    let x: u32 = tx * tsx + px;
                    let y: u32 = ty * tsy + py;
                    let pixel = a.image.get_pixel(x, y);
                    push_u16_be(out, pack565(pixel));
                    px = px + 1;
                }
                py = py + 1;
            }
            tx = tx + 1;
        }
        ty = ty + 1;
    }
}

/// Whether an atlas fits the export format.
pub open spec fn atlas_exportable(a: Atlas) -> bool {
    &&& a.wf()
    &&& a.spec_tiles_wide() * a.spec_tiles_high() <= 0xFFFF
    &&& a.spec_tiles_wide() <= 0xFFFF
}

/// Appends one atlas record.
fn push_atlas_record(out: &mut Vec<u8>, a: &Atlas)
    requires
        atlas_exportable(*a),
    ensures
        final(out)@ == old(out)@ + atlas_record(*a),
{
    push_u16_le(out, a.tile_size.0);
    push_u16_le(out, a.tile_size.1);
    let tw: u32 = a.image.width / (a.tile_size.0 as u32);
    let th: u32 = a.image.height / (a.tile_size.1 as u32);
    proof {
        assert(tw * th == a.spec_tiles_wide() * a.spec_tiles_high()) by (nonlinear_arith)
            requires
                tw == a.spec_tiles_wide() && th == a.spec_tiles_high(),
        ;
        assert(tw as int * th as int >= 0) by (nonlinear_arith);
    }
    let frames: u16 = ((tw as u64 * th as u64) as u16);
    push_u16_le(out, frames);
    push_atlas_pixels(out, a);
    assert(final(out)@ =~= old(out)@ + atlas_record(*a));
}

} // verus!

verus! {

// ---------------------------------------------------------------- tables

/// The identifiers of a keyed collection, in registry order: the valid-id
/// sets handed to the repair step.
pub open spec fn ids_of<T>(s: Seq<(u128, T)>) -> Seq<u128> {
    Seq::new(s.len(), |i: int| s[i].0)
}

/// Collects the identifiers of a keyed collection.
pub fn collect_ids<T>(s: &Vec<(u128, T)>) -> (r: Vec<u128>)
    ensures
        r@ == ids_of(s@),
{
    let mut out: Vec<u128> = Vec::new();
    let mut i: usize = 0;
    while i < s.len()
        invariant
            0 <= i <= s@.len(),
            out@.len() == i,
            forall|j: int| 0 <= j < i ==> (#[trigger] out@[j]) == s@[j].0,
        decreases s@.len() - i,
    {
        out.push(s[i].0);
        i = i + 1;
    }
    proof {
        assert(out@ =~= ids_of(s@));
    }
    out
}

/// The export index table over a sorted order: the asset at sorted
/// position `k` maps to index `k`.
pub open spec fn table_from<T>(s: Seq<(u128, T)>, ord: Seq<int>) -> Seq<(u128, u16)> {
    Seq::new(ord.len(), |k: int| (s[ord[k]].0, k as u16))
}

/// Builds the export index table for a sorted order.
pub fn build_table<T>(s: &Vec<(u128, T)>, ord: &Vec<usize>) -> (r: Vec<(u128, u16)>)
    requires
        ord@.len() <= 0xFFFF,
        forall|k: int| 0 <= k < ord@.len() ==> (#[trigger] ord@[k]) < s@.len(),
    ensures
        r@ == table_from(s@, idx_view(ord@)),
{
    let mut out: Vec<(u128, u16)> = Vec::new();
    let mut k: usize = 0;
    while k < ord.len()
        invariant
            0 <= k <= ord@.len(),
            ord@.len() <= 0xFFFF,
            forall|m: int| 0 <= m < ord@.len() ==> (#[trigger] ord@[m]) < s@.len(),
            out@.len() == k,
            forall|m: int|
                0 <= m < k ==> (#[trigger] out@[m]) == (s@[ord@[m] as int].0, m as u16),
        decreases ord@.len() - k,
    {
        out.push((s[ord[k]].0, k as u16));
        k = k + 1;
    }
    proof {
        assert(out@ =~= table_from(s@, idx_view(ord@)));
    }
    out
}

/// Every entry's own key is present.
proof fn lemma_has_key_witness<T>(s: Seq<(u128, T)>, k: int)
    requires
        0 <= k < s.len(),
    ensures
        has_key(s, s[k].0),
{
    crate::keyed::lemma_key_pos_valid(s, s[k].0);
}

/// Every key of the collection is in the table built over its canonical
/// order.
proof fn lemma_table_has<T>(s: Seq<(u128, T)>, keys: Seq<Seq<char>>, id: u128)
    requires
        keys.len() == s.len(),
        has_key(s, id),
    ensures
        has_key(table_from(s, sort_idx(keys)), id),
{
    let ord = sort_idx(keys);
    let tbl = table_from(s, ord);
    crate::keyed::lemma_key_pos_valid(s, id);
    let p = key_pos(s, id)->0;
    lemma_sort_idx_take_contains(keys, keys.len() as int, p);
    assert(ord.contains(p));
    let k = choose|k: int| 0 <= k < ord.len() && ord[k] == p;
    assert(tbl[k].0 == id);
    lemma_has_key_witness(tbl, k);
}

// ------------------------------------------------------------ float table

/// The caller-supplied table of IEEE-754 encodings for repaired float
/// values; the verified core does not compute with floating point, so the
/// conversion comes from outside as plain values.
pub open spec fn ft_view(v: Seq<(String, u32)>) -> Seq<(Seq<char>, u32)> {
    Seq::new(v.len(), |i: int| (v[i].0@, v[i].1))
}

/// The bits the table holds for a value, if any (first match).
pub open spec fn flt_lookup(ft: Seq<(Seq<char>, u32)>, v: Seq<char>) -> Option<u32>
    decreases ft.len(),
{
    if ft.len() == 0 {
        None
    } else if ft[0].0 == v {
        Some(ft[0].1)
    } else {
        flt_lookup(ft.drop_first(), v)
    }
}

/// Looks a repaired float value up in the caller's table.
pub fn find_float(ft: &Vec<(String, u32)>, v: &String) -> (r: Option<u32>)
    ensures
        r == flt_lookup(ft_view(ft@), v@),
{
    let mut i: usize = 0;
    proof {
        assert(ft_view(ft@).skip(0) =~= ft_view(ft@));
    }
    while i < ft.len()
        invariant
            0 <= i <= ft@.len(),
            flt_lookup(ft_view(ft@), v@) == flt_lookup(ft_view(ft@).skip(i as int), v@),
        decreases ft@.len() - i,
    {
        proof {
            assert(ft_view(ft@).skip(i as int)[0] == ft_view(ft@)[i as int]);
            assert(ft_view(ft@).skip(i as int).drop_first() =~= ft_view(ft@).skip(i + 1));
        }
        if ft[i].0 == *v {
            return Some(ft[i].1);
        }
        i = i + 1;
    }
    proof {
        assert(ft_view(ft@).skip(ft@.len() as int) =~= Seq::<(Seq<char>, u32)>::empty());
    }
    None
}

// -------------------------------------------------------------- map spec

/// The static context one export pass works in: the component collection,
/// the valid-id sets, the float table and the three index tables.
pub struct ExportEnv {
    pub components: Seq<(u128, Component)>,
    pub va: Seq<u128>,
    pub vm: Seq<u128>,
    pub ft: Seq<(Seq<char>, u32)>,
    pub atbl: Seq<(u128, u16)>,
    pub mtbl: Seq<(u128, u16)>,
    pub ctbl: Seq<(u128, u16)>,
}

/// The repaired value of field `j` of a schema on a stored instance.
pub open spec fn field_value(
    fields: Seq<(Seq<char>, Property)>,
    inst: Seq<(String, String)>,
    j: int,
    va: Seq<u128>,
    vm: Seq<u128>,
) -> Seq<char> {
    spec_fix_value(fields[j].1, inst_lookup(inst, fields[j].0), va, vm)
}

/// The wire encoding of one repaired property value: integers at their
/// fixed width, floats as their caller-supplied IEEE-754 bits, strings
/// length-prefixed, references as the export index of the referenced
/// asset.
pub open spec fn value_bytes(ty: Property, v: Seq<char>, env: ExportEnv) -> Seq<u8> {
    match ty {
        Property::I8 | Property::U8 => seq![digits_val(v) as u8],
        Property::I16 | Property::U16 => le16(digits_val(v) as u16),
        Property::I32 | Property::U32 => le32(digits_val(v) as u32),
        Property::F32 => le32(flt_lookup(env.ft, v)->0),
        Property::String => le16(encode_utf8(v).len() as u16) + encode_utf8(v),
        Property::Atlas => le16(key_lookup(env.atbl, parsed_id(v)->0)->0),
        Property::MapRef => le16(key_lookup(env.mtbl, parsed_id(v)->0)->0),
    }
}

/// The first `k` field values of one component instance, in schema order.
pub open spec fn comp_values_take(
    fields: Seq<(Seq<char>, Property)>,
    inst: Seq<(String, String)>,
    env: ExportEnv,
    k: int,
) -> Seq<u8>
    decreases k,
{
    if k <= 0 {
        Seq::empty()
    } else {
        comp_values_take(fields, inst, env, k - 1) + value_bytes(
            fields[k - 1].1,
            field_value(fields, inst, k - 1, env.va, env.vm),
            env,
        )
    }
}

/// One attached component: the schema's export index, then each field
/// value in schema field order.
pub open spec fn comp_bytes(cid: u128, inst: Seq<(String, String)>, env: ExportEnv) -> Seq<u8> {
    let fields = key_lookup(env.components, cid)->0.fields();
    le16(key_lookup(env.ctbl, cid)->0) + comp_values_take(fields, inst, env, fields.len() as int)
}

/// The first `k` attached components of one object.
pub open spec fn obj_comps_take(
    cs: Seq<(u128, Vec<(String, String)>)>,
    env: ExportEnv,
    k: int,
) -> Seq<u8>
    decreases k,
{
    if k <= 0 {
        Seq::empty()
    } else {
        obj_comps_take(cs, env, k - 1) + comp_bytes(cs[k - 1].0, cs[k - 1].1@, env)
    }
}

/// One object: position, draw-order flag, component count, components.
pub open spec fn obj_bytes(o: Object, env: ExportEnv) -> Seq<u8> {
    le32i(o.pos.0) + le32i(o.pos.1) + seq![
        if o.always_on_top {
            1u8
        } else {
            0u8
        },
    ] + le16(o.components@.len() as u16) + obj_comps_take(
        o.components@,
        env,
        o.components@.len() as int,
    )
}

/// The first `k` objects of one map.
pub open spec fn objs_take(objs: Seq<(u128, Object)>, env: ExportEnv, k: int) -> Seq<u8>
    decreases k,
{
    if k <= 0 {
        Seq::empty()
    } else {
        objs_take(objs, env, k - 1) + obj_bytes(objs[k - 1].1, env)
    }
}

/// One tile cell: the empty word for an empty cell, else the tile
/// coordinate flattened into the atlas's tile grid.
pub open spec fn cell_word(t: (i16, i16), tw: int) -> u16 {
    if t.0 < 0 || t.1 < 0 {
        0xFFFF
    } else {
        (t.0 + t.1 * tw) as u16
    }
}

/// The first `k` cells of one map, row-major.
pub open spec fn cells_take(data: Seq<(i16, i16)>, tw: int, k: int) -> Seq<u8>
    decreases k,
{
    if k <= 0 {
        Seq::empty()
    } else {
        cells_take(data, tw, k - 1) + le16(cell_word(data[k - 1], tw))
    }
}

/// One map record: size, the atlas's export index, the cells, the object
/// count, the objects.
pub open spec fn map_record(m: TileMap, atlases: Seq<(u128, Atlas)>, env: ExportEnv) -> Seq<u8> {
    let tw = key_lookup(atlases, m.atlas)->0.spec_tiles_wide();
    le16(m.size.0) + le16(m.size.1) + le16(key_lookup(env.atbl, m.atlas)->0) + cells_take(
        m.data@,
        tw,
        m.data@.len() as int,
    ) + le16(m.objects@.len() as u16) + objs_take(m.objects@, env, m.objects@.len() as int)
}

/// The first `k` maps, in canonical order.
pub open spec fn maps_take(
    maps: Seq<(u128, TileMap)>,
    ord: Seq<int>,
    atlases: Seq<(u128, Atlas)>,
    env: ExportEnv,
    k: int,
) -> Seq<u8>
    decreases k,
{
    if k <= 0 {
        Seq::empty()
    } else {
        maps_take(maps, ord, atlases, env, k - 1) + map_record(maps[ord[k - 1]].1, atlases, env)
    }
}

/// The first `k` atlas records, in canonical order.
pub open spec fn atlases_take(atl: Seq<(u128, Atlas)>, ord: Seq<int>, k: int) -> Seq<u8>
    decreases k,
{
    if k <= 0 {
        Seq::empty()
    } else {
        atlases_take(atl, ord, k - 1) + atlas_record(atl[ord[k - 1]].1)
    }
}

/// The path keys of the atlas collection.
pub open spec fn atlas_keys(s: Seq<(u128, Atlas)>) -> Seq<Seq<char>> {
    Seq::new(s.len(), |i: int| s[i].1.path@)
}

/// The path keys of the map collection.
pub open spec fn map_keys(s: Seq<(u128, TileMap)>) -> Seq<Seq<char>> {
    Seq::new(s.len(), |i: int| s[i].1.path@)
}

/// The path keys of the component collection.
pub open spec fn comp_keys(s: Seq<(u128, Component)>) -> Seq<Seq<char>> {
    Seq::new(s.len(), |i: int| s[i].1.path@)
}

/// The context an export of this registry works in.
pub open spec fn spec_env(a: Assets, ft: Seq<(Seq<char>, u32)>) -> ExportEnv {
    ExportEnv {
        components: a.components@,
        va: ids_of(a.atlases@),
        vm: ids_of(a.maps@),
        ft: ft,
        atbl: table_from(a.atlases@, sort_idx(atlas_keys(a.atlases@))),
        mtbl: table_from(a.maps@, sort_idx(map_keys(a.maps@))),
        ctbl: table_from(a.components@, sort_idx(comp_keys(a.components@))),
    }
}

/// The whole export blob: the atlas section, then the map section, each
/// in canonical path order.
pub open spec fn spec_export(a: Assets, ft: Seq<(Seq<char>, u32)>) -> Seq<u8> {
    let env = spec_env(a, ft);
    le16(a.atlases@.len() as u16) + atlases_take(
        a.atlases@,
        sort_idx(atlas_keys(a.atlases@)),
        a.atlases@.len() as int,
    ) + le16(a.maps@.len() as u16) + maps_take(
        a.maps@,
        sort_idx(map_keys(a.maps@)),
        a.atlases@,
        env,
        a.maps@.len() as int,
    )
}

// ------------------------------------------------------------ exportable

/// What must hold of one repaired field value for the wire format to
/// carry it.
pub open spec fn field_need(
    ty: Property,
    v: Seq<char>,
    va: Seq<u128>,
    vm: Seq<u128>,
    ft: Seq<(Seq<char>, u32)>,
) -> bool {
    match ty {
        Property::String => encode_utf8(v).len() <= 0xFFFF,
        Property::F32 => flt_lookup(ft, v) is Some,
        Property::Atlas => va.len() > 0,
        Property::MapRef => vm.len() > 0,
        _ => true,
    }
}

/// Whether one attached component instance can be encoded.
pub open spec fn comp_inst_exportable(
    fields: Seq<(Seq<char>, Property)>,
    inst: Seq<(String, String)>,
    va: Seq<u128>,
    vm: Seq<u128>,
    ft: Seq<(Seq<char>, u32)>,
) -> bool {
    forall|j: int|
        0 <= j < fields.len() ==> field_need(
            (#[trigger] fields[j]).1,
            field_value(fields, inst, j, va, vm),
            va,
            vm,
            ft,
        )
}

/// Whether one object can be encoded: its component count fits, every
/// attached schema exists, and every instance can be encoded.
pub open spec fn obj_exportable(
    o: Object,
    components: Seq<(u128, Component)>,
    va: Seq<u128>,
    vm: Seq<u128>,
    ft: Seq<(Seq<char>, u32)>,
) -> bool {
    &&& o.components@.len() <= 0xFFFF
    &&& forall|ci: int|
        0 <= ci < o.components@.len() ==> has_key(components, (#[trigger] o.components@[ci]).0)
            && comp_inst_exportable(
            key_lookup(components, o.components@[ci].0)->0.fields(),
            o.components@[ci].1@,
            va,
            vm,
            ft,
        )
}

/// Whether one map can be encoded: well-formed, its atlas present, its
/// object count in range, every object encodable.
pub open spec fn map_exportable(
    m: TileMap,
    atlases: Seq<(u128, Atlas)>,
    components: Seq<(u128, Component)>,
    va: Seq<u128>,
    vm: Seq<u128>,
    ft: Seq<(Seq<char>, u32)>,
) -> bool {
    &&& m.wf()
    &&& has_key(atlases, m.atlas)
    &&& m.objects@.len() <= 0xFFFF
    &&& forall|oi: int|
        0 <= oi < m.objects@.len() ==> obj_exportable(
            (#[trigger] m.objects@[oi]).1,
            components,
            va,
            vm,
            ft,
        )
}

/// Whether the registry can be exported with the given float table: every
/// count fits the wire format and every asset is encodable.
pub open spec fn spec_exportable(a: Assets, ft: Seq<(Seq<char>, u32)>) -> bool {
    &&& a.atlases@.len() <= 0xFFFF
    &&& a.maps@.len() <= 0xFFFF
    &&& a.components@.len() <= 0xFFFF
    &&& forall|i: int| 0 <= i < a.atlases@.len() ==> atlas_exportable((#[trigger] a.atlases@[i]).1)
    &&& forall|i: int|
        0 <= i < a.maps@.len() ==> map_exportable(
            (#[trigger] a.maps@[i]).1,
            a.atlases@,
            a.components@,
            ids_of(a.atlases@),
            ids_of(a.maps@),
            ft,
        )
}

} // verus!

verus! {

// ------------------------------------------------------ feasibility scan

impl Assets {
    /// Scans the registry for anything the wire format cannot carry and
    /// names the first problem found; a clean scan means the registry is
    /// exportable with the given float table.
    fn find_export_problem(&self, ft: &Vec<(String, u32)>) -> (r: Option<ExportError>)
        ensures
            r is None <==> spec_exportable(*self, ft_view(ft@)),
            r == Some(ExportError::UnknownAtlas) ==> (exists|i: int|
                0 <= i < self.maps@.len() && !has_key(
                    self.atlases@,
                    (#[trigger] self.maps@[i]).1.atlas,
                )),
            r == Some(ExportError::UnknownComponent) ==> (exists|i: int, oi: int, ci: int|
                0 <= i < self.maps@.len() && 0 <= oi < self.maps@[i].1.objects@.len() && 0 <= ci
                    < self.maps@[i].1.objects@[oi].1.components@.len() && !has_key(
                    self.components@,
                    (#[trigger] self.maps@[i].1.objects@[oi].1.components@[ci]).0,
                )),
            r == Some(ExportError::MalformedAsset) ==> ((exists|i: int|
                0 <= i < self.atlases@.len() && !(#[trigger] self.atlases@[i]).1.wf()) || (
            exists|i: int| 0 <= i < self.maps@.len() && !(#[trigger] self.maps@[i]).1.wf())),
    {
        if self.atlases.len() > 0xFFFF || self.maps.len() > 0xFFFF || self.components.len()
            > 0xFFFF {
            return Some(ExportError::TooLarge);
        }
        let mut i: usize = 0;
        while i < self.atlases.len()
            invariant
                0 <= i <= self.atlases@.len(),
                forall|j: int| 0 <= j < i ==> atlas_exportable((#[trigger] self.atlases@[j]).1),
            decreases self.atlases@.len() - i,
        {
            let a = &self.atlases[i].1;
            let pix_len: usize = a.image.pixels.len();
            proof {
                lemma_mul_u32_fits(a.image.width as u64, a.image.height as u64);
            }
            let wh: u64 = a.image.width as u64 * a.image.height as u64;
            if !(pix_len as u64 == wh && a.tile_size.0 >= 1 && a.tile_size.1 >= 1) {
                proof {
                    assert(!atlas_exportable(self.atlases@[i as int].1));
                    assert(!(#[trigger] self.atlases@[i as int]).1.wf());
                }
                return Some(ExportError::MalformedAsset);
            }
            let tw: u32 = a.image.width / (a.tile_size.0 as u32);
            let th: u32 = a.image.height / (a.tile_size.1 as u32);
            proof {
                lemma_mul_u32_fits(tw as u64, th as u64);
            }
            let frames: u64 = tw as u64 * th as u64;
            if frames > 0xFFFF || tw > 0xFFFF {
                proof {
                    assert(!atlas_exportable(self.atlases@[i as int].1));
                }
                return Some(ExportError::TooLarge);
            }
            proof {
                assert(atlas_exportable(self.atlases@[i as int].1));
            }
            i = i + 1;
        }
        let va = collect_ids(&self.atlases);
        let vm = collect_ids(&self.maps);
        let mut mi: usize = 0;
        while mi < self.maps.len()
            invariant
                0 <= mi <= self.maps@.len(),
                va@ == ids_of(self.atlases@),
                vm@ == ids_of(self.maps@),
                forall|j: int|
                    0 <= j < mi ==> map_exportable(
                        (#[trigger] self.maps@[j]).1,
                        self.atlases@,
                        self.components@,
                        ids_of(self.atlases@),
                        ids_of(self.maps@),
                        ft_view(ft@),
                    ),
            decreases self.maps@.len() - mi,
        {
            let m = &self.maps[mi].1;
            proof {
                lemma_mul_u32_fits(m.size.0 as u64, m.size.1 as u64);
            }
            if !(m.data.len() as u64 == m.size.0 as u64 * m.size.1 as u64) {
                proof {
                    assert(!(#[trigger] self.maps@[mi as int]).1.wf());
                }
                return Some(ExportError::MalformedAsset);
            }
            let apos = crate::keyed::find_key(&self.atlases, m.atlas);
            if apos.is_none() {
                proof {
                    assert(!has_key(self.atlases@, (#[trigger] self.maps@[mi as int]).1.atlas));
                }
                return Some(ExportError::UnknownAtlas);
            }
            if m.objects.len() > 0xFFFF {
                proof {
                    assert(!map_exportable(
                        self.maps@[mi as int].1,
                        self.atlases@,
                        self.components@,
                        ids_of(self.atlases@),
                        ids_of(self.maps@),
                        ft_view(ft@),
                    ));
                }
                return Some(ExportError::TooLarge);
            }
            let mut oi: usize = 0;
            while oi < m.objects.len()
                invariant
                    0 <= oi <= m.objects@.len(),
                    0 <= mi < self.maps@.len(),
                    *m == self.maps@[mi as int].1,
                    va@ == ids_of(self.atlases@),
                    vm@ == ids_of(self.maps@),
                    forall|j: int|
                        0 <= j < oi ==> obj_exportable(
                            (#[trigger] m.objects@[j]).1,
                            self.components@,
                            ids_of(self.atlases@),
                            ids_of(self.maps@),
                            ft_view(ft@),
                        ),
                decreases m.objects@.len() - oi,
            {
                let o = &m.objects[oi].1;
                if o.components.len() > 0xFFFF {
                    proof {
                        assert(!obj_exportable(
                            m.objects@[oi as int].1,
                            self.components@,
                            ids_of(self.atlases@),
                            ids_of(self.maps@),
                            ft_view(ft@),
                        ));
                        assert(!map_exportable(
                            self.maps@[mi as int].1,
                            self.atlases@,
                            self.components@,
                            ids_of(self.atlases@),
                            ids_of(self.maps@),
                            ft_view(ft@),
                        ));
                    }
                    return Some(ExportError::TooLarge);
                }
                let mut ci: usize = 0;
                while ci < o.components.len()
                    invariant
                        0 <= ci <= o.components@.len(),
                        0 <= mi < self.maps@.len(),
                        *m == self.maps@[mi as int].1,
                        0 <= oi < m.objects@.len(),
                        *o == m.objects@[oi as int].1,
                        va@ == ids_of(self.atlases@),
                        vm@ == ids_of(self.maps@),
                        forall|j: int|
                            0 <= j < ci ==> has_key(
                                self.components@,
                                (#[trigger] o.components@[j]).0,
                            ) && comp_inst_exportable(
                                key_lookup(self.components@, o.components@[j].0)->0.fields(),
                                o.components@[j].1@,
                                ids_of(self.atlases@),
                                ids_of(self.maps@),
                                ft_view(ft@),
                            ),
                    decreases o.components@.len() - ci,
                {
                    let cid = o.components[ci].0;
                    let cpos = crate::keyed::find_key(&self.components, cid);
                    match cpos {
                        Some(cp) => {
                            let comp = &self.components[cp].1;
                            proof {
                                assert(key_lookup(self.components@, cid) == Some(
                                    self.components@[cp as int].1,
                                ));
                            }
                            let inst = &o.components[ci].1;
                            let mut fj: usize = 0;
                            while fj < comp.properties.len()
                                invariant
                                    0 <= fj <= comp.properties@.len(),
                                    0 <= mi < self.maps@.len(),
                                    *m == self.maps@[mi as int].1,
                                    0 <= oi < m.objects@.len(),
                                    *o == m.objects@[oi as int].1,
                                    0 <= ci < o.components@.len(),
                                    cid == o.components@[ci as int].0,
                                    *inst == o.components@[ci as int].1,
                                    cp < self.components@.len(),
                                    *comp == self.components@[cp as int].1,
                                    key_lookup(self.components@, cid) == Some(*comp),
                                    va@ == ids_of(self.atlases@),
                                    vm@ == ids_of(self.maps@),
                                    forall|j: int|
                                        0 <= j < fj ==> field_need(
                                            (#[trigger] comp.fields()[j]).1,
                                            field_value(
                                                comp.fields(),
                                                inst@,
                                                j,
                                                ids_of(self.atlases@),
                                                ids_of(self.maps@),
                                            ),
                                            ids_of(self.atlases@),
                                            ids_of(self.maps@),
                                            ft_view(ft@),
                                        ),
                                decreases comp.properties@.len() - fj,
                            {
                                let ty = comp.properties[fj].1;
                                let name = comp.properties[fj].0.clone();
                                proof {
                                    assert((#[trigger] comp.fields()[fj as int]).0 == name@);
                                }
                                let ghost fv = field_value(
                                    comp.fields(),
                                    inst@,
                                    fj as int,
                                    ids_of(self.atlases@),
                                    ids_of(self.maps@),
                                );
                                match ty {
                                    Property::String => {
                                        let v = crate::schema::lookup_value(inst, &name);
                                        proof {
                                            assert(fv == v@);
                                        }
                                        if !crate::codec::str_fits16(&v) {
                                            proof {
                                                field_fail_witness(
                                                    *self,
                                                    ft_view(ft@),
                                                    mi as int,
                                                    oi as int,
                                                    ci as int,
                                                    fj as int,
                                                );
                                            }
                                            return Some(ExportError::TooLarge);
                                        }
                                    },
                                    Property::F32 => {
                                        let stored = crate::schema::lookup_value(inst, &name);
                                        let fixed = ty.fix_value(&va, &vm, stored.as_str());
                                        proof {
                                            assert(fv == fixed@);
                                        }
                                        let bits = find_float(ft, &fixed);
                                        if bits.is_none() {
                                            proof {
                                                field_fail_witness(
                                                    *self,
                                                    ft_view(ft@),
                                                    mi as int,
                                                    oi as int,
                                                    ci as int,
                                                    fj as int,
                                                );
                                            }
                                            return Some(ExportError::MissingFloatBits);
                                        }
                                    },
                                    Property::Atlas => {
                                        if va.len() == 0 {
                                            proof {
                                                field_fail_witness(
                                                    *self,
                                                    ft_view(ft@),
                                                    mi as int,
                                                    oi as int,
                                                    ci as int,
                                                    fj as int,
                                                );
                                            }
                                            return Some(ExportError::NoReferenceTarget);
                                        }
                                    },
                                    Property::MapRef => {
                                        if vm.len() == 0 {
                                            proof {
                                                field_fail_witness(
                                                    *self,
                                                    ft_view(ft@),
                                                    mi as int,
                                                    oi as int,
                                                    ci as int,
                                                    fj as int,
                                                );
                                            }
                                            return Some(ExportError::NoReferenceTarget);
                                        }
                                    },
                                    _ => {},
                                }
                                fj = fj + 1;
                            }
                        },
                        _ => {
                            proof {
                                assert(!obj_exportable(
                                    m.objects@[oi as int].1,
                                    self.components@,
                                    ids_of(self.atlases@),
                                    ids_of(self.maps@),
                                    ft_view(ft@),
                                ));
                                assert(!map_exportable(
                                    self.maps@[mi as int].1,
                                    self.atlases@,
                                    self.components@,
                                    ids_of(self.atlases@),
                                    ids_of(self.maps@),
                                    ft_view(ft@),
                                ));
                                assert(0 <= mi < self.maps@.len() && 0 <= oi < self.maps@[
                                    mi as int
                                ].1.objects@.len() && 0 <= ci < self.maps@[
                                    mi as int
                                ].1.objects@[oi as int].1.components@.len() && !has_key(
                                    self.components@,
                                    (#[trigger] self.maps@[mi as int].1.objects@[
                                        oi as int
                                    ].1.components@[ci as int]).0,
                                ));
                            }
                            return Some(ExportError::UnknownComponent);
                        },
                    }
                    ci = ci + 1;
                }
                oi = oi + 1;
            }
            proof {
                assert(map_exportable(
                    self.maps@[mi as int].1,
                    self.atlases@,
                    self.components@,
                    ids_of(self.atlases@),
                    ids_of(self.maps@),
                    ft_view(ft@),
                ));
            }
            mi = mi + 1;
        }
        None
    }
}

} // verus!

verus! {

/// One field that the wire format cannot carry makes the whole registry
/// unexportable.
proof fn field_fail_witness(a: Assets, ft: Seq<(Seq<char>, u32)>, mi: int, oi: int, ci: int, fj: int)
    requires
        0 <= mi < a.maps@.len(),
        0 <= oi < a.maps@[mi].1.objects@.len(),
        0 <= ci < a.maps@[mi].1.objects@[oi].1.components@.len(),
        ({
            let cid = a.maps@[mi].1.objects@[oi].1.components@[ci].0;
            let fields = key_lookup(a.components@, cid)->0.fields();
            let inst = a.maps@[mi].1.objects@[oi].1.components@[ci].1@;
            0 <= fj < fields.len() && !field_need(
                fields[fj].1,
                field_value(fields, inst, fj, ids_of(a.atlases@), ids_of(a.maps@)),
                ids_of(a.atlases@),
                ids_of(a.maps@),
                ft,
            )
        }),
    ensures
        !spec_exportable(a, ft),
{
    if spec_exportable(a, ft) {
        assert(map_exportable(
            (a.maps@[mi]).1,
            a.atlases@,
            a.components@,
            ids_of(a.atlases@),
            ids_of(a.maps@),
            ft,
        ));
        assert(obj_exportable(
            (a.maps@[mi].1.objects@[oi]).1,
            a.components@,
            ids_of(a.atlases@),
            ids_of(a.maps@),
            ft,
        ));
        let cid = (a.maps@[mi].1.objects@[oi].1.components@[ci]).0;
        assert(comp_inst_exportable(
            key_lookup(a.components@, cid)->0.fields(),
            a.maps@[mi].1.objects@[oi].1.components@[ci].1@,
            ids_of(a.atlases@),
            ids_of(a.maps@),
            ft,
        ));
        let fields = key_lookup(a.components@, cid)->0.fields();
        assert(field_need(
            (fields[fj]).1,
            field_value(
                fields,
                a.maps@[mi].1.objects@[oi].1.components@[ci].1@,
                fj,
                ids_of(a.atlases@),
                ids_of(a.maps@),
            ),
            ids_of(a.atlases@),
            ids_of(a.maps@),
            ft,
        ));
    }
}

} // verus!

verus! {

// --------------------------------------------------------------- builder

/// Collects the atlas paths, the sort keys of the atlas section.
fn atlas_paths(s: &Vec<(u128, Atlas)>) -> (r: Vec<String>)
    ensures
        keys_view(r@) == atlas_keys(s@),
{
    let mut out: Vec<String> = Vec::new();
    let mut i: usize = 0;
    while i < s.len()
        invariant
            0 <= i <= s@.len(),
            out@.len() == i,
            forall|j: int| 0 <= j < i ==> (#[trigger] out@[j])@ == s@[j].1.path@,
        decreases s@.len() - i,
    {
        out.push(s[i].1.path.clone());
        i = i + 1;
    }
    proof {
        assert(keys_view(out@) =~= atlas_keys(s@));
    }
    out
}

/// Collects the map paths.
fn map_paths(s: &Vec<(u128, TileMap)>) -> (r: Vec<String>)
    ensures
        keys_view(r@) == map_keys(s@),
{
    let mut out: Vec<String> = Vec::new();
    let mut i: usize = 0;
    while i < s.len()
        invariant
            0 <= i <= s@.len(),
            out@.len() == i,
            forall|j: int| 0 <= j < i ==> (#[trigger] out@[j])@ == s@[j].1.path@,
        decreases s@.len() - i,
    {
        out.push(s[i].1.path.clone());
        i = i + 1;
    }
    proof {
        assert(keys_view(out@) =~= map_keys(s@));
    }
    out
}

/// Collects the component paths.
fn comp_paths(s: &Vec<(u128, Component)>) -> (r: Vec<String>)
    ensures
        keys_view(r@) == comp_keys(s@),
{
    let mut out: Vec<String> = Vec::new();
    let mut i: usize = 0;
    while i < s.len()
        invariant
            0 <= i <= s@.len(),
            out@.len() == i,
            forall|j: int| 0 <= j < i ==> (#[trigger] out@[j])@ == s@[j].1.path@,
        decreases s@.len() - i,
    {
        out.push(s[i].1.path.clone());
        i = i + 1;
    }
    proof {
        assert(keys_view(out@) =~= comp_keys(s@));
    }
    out
}

/// Appends the wire encoding of one repaired property value.
fn push_value(
    out: &mut Vec<u8>,
    ty: Property,
    v: &String,
    ft: &Vec<(String, u32)>,
    atbl: &Vec<(u128, u16)>,
    mtbl: &Vec<(u128, u16)>,
    env: Ghost<ExportEnv>,
)
    requires
        env@.ft == ft_view(ft@),
        env@.atbl == atbl@,
        env@.mtbl == mtbl@,
        crate::schema::value_ok(ty, v@, env@.va, env@.vm),
        field_need(ty, v@, env@.va, env@.vm, env@.ft),
        forall|id: u128| env@.va.contains(id) ==> has_key(env@.atbl, id),
        forall|id: u128| env@.vm.contains(id) ==> has_key(env@.mtbl, id),
    ensures
        final(out)@ == old(out)@ + value_bytes(ty, v@, env@),
{
    match ty {
        Property::I8 => {
            let p = crate::property::parse_decimal(v.as_str(), 0x7f);
            match p {
                Some(n) => push_u8(out, n as u8),
                _ => {
                    proof {
                        assert(false);
                    }
                },
            }
        },
        Property::U8 => {
            let p = crate::property::parse_decimal(v.as_str(), 0xff);
            match p {
                Some(n) => push_u8(out, n as u8),
                _ => {
                    proof {
                        assert(false);
                    }
                },
            }
        },
        Property::I16 => {
            let p = crate::property::parse_decimal(v.as_str(), 0x7fff);
            match p {
                Some(n) => push_u16_le(out, n as u16),
                _ => {
                    proof {
                        assert(false);
                    }
                },
            }
        },
        Property::U16 => {
            let p = crate::property::parse_decimal(v.as_str(), 0xffff);
            match p {
                Some(n) => push_u16_le(out, n as u16),
                _ => {
                    proof {
                        assert(false);
                    }
                },
            }
        },
        Property::I32 => {
            let p = crate::property::parse_decimal(v.as_str(), 0x7fff_ffff);
            match p {
                Some(n) => push_u32_le(out, n as u32),
                _ => {
                    proof {
                        assert(false);
                    }
                },
            }
        },
        Property::U32 => {
            let p = crate::property::parse_decimal(v.as_str(), 0xffff_ffff);
            match p {
                Some(n) => push_u32_le(out, n as u32),
                _ => {
                    proof {
                        assert(false);
                    }
                },
            }
        },
        Property::F32 => {
            let bits = find_float(ft, v);
            match bits {
                Some(b) => push_u32_le(out, b),
                _ => {
                    proof {
                        assert(false);
                    }
                },
            }
        },
        Property::String => {
            let bytes = v.as_str().as_bytes_vec();
            push_u16_le(out, bytes.len() as u16);
            push_bytes(out, &bytes);
            assert(out@ =~= old(out)@ + value_bytes(ty, v@, env@));
        },
        Property::Atlas => {
            let parsed = crate::ids::parse_id(v.as_str());
            match parsed {
                Some(id) => {
                    let pos = crate::keyed::find_key(atbl, id);
                    match pos {
                        Some(p) => push_u16_le(out, atbl[p].1),
                        _ => {
                            proof {
                                assert(has_key(env@.atbl, id));
                                assert(false);
                            }
                        },
                    }
                },
                _ => {
                    proof {
                        assert(false);
                    }
                },
            }
        },
        Property::MapRef => {
            let parsed = crate::ids::parse_id(v.as_str());
            match parsed {
                Some(id) => {
                    let pos = crate::keyed::find_key(mtbl, id);
                    match pos {
                        Some(p) => push_u16_le(out, mtbl[p].1),
                        _ => {
                            proof {
                                assert(has_key(env@.mtbl, id));
                                assert(false);
                            }
                        },
                    }
                },
                _ => {
                    proof {
                        assert(false);
                    }
                },
            }
        },
    }
}

/// Appends one attached component: schema export index, then the repaired
/// field values in schema order.
fn push_comp(
    out: &mut Vec<u8>,
    cid: u128,
    inst: &Vec<(String, String)>,
    components: &Vec<(u128, Component)>,
    va: &Vec<u128>,
    vm: &Vec<u128>,
    ft: &Vec<(String, u32)>,
    atbl: &Vec<(u128, u16)>,
    mtbl: &Vec<(u128, u16)>,
    ctbl: &Vec<(u128, u16)>,
    env: Ghost<ExportEnv>,
)
    requires
        env@.components == components@,
        env@.va == va@,
        env@.vm == vm@,
        env@.ft == ft_view(ft@),
        env@.atbl == atbl@,
        env@.mtbl == mtbl@,
        env@.ctbl == ctbl@,
        has_key(components@, cid),
        has_key(ctbl@, cid),
        comp_inst_exportable(
            key_lookup(components@, cid)->0.fields(),
            inst@,
            va@,
            vm@,
            env@.ft,
        ),
        forall|id: u128| env@.va.contains(id) ==> has_key(env@.atbl, id),
        forall|id: u128| env@.vm.contains(id) ==> has_key(env@.mtbl, id),
    ensures
        final(out)@ == old(out)@ + comp_bytes(cid, inst@, env@),
{
    let tpos = crate::keyed::find_key(ctbl, cid);
    match tpos {
        Some(tp) => {
            push_u16_le(out, ctbl[tp].1);
        },
        _ => {
            proof {
                assert(false);
            }
        },
    }
    let cpos = crate::keyed::find_key(components, cid);
    match cpos {
        Some(cp) => {
            let comp = &components[cp].1;
            proof {
                assert(key_lookup(components@, cid) == Some(components@[cp as int].1));
                if crate::schema::has_kind(comp.fields(), Property::Atlas) {
                    let w = choose|w: int|
                        0 <= w < comp.fields().len() && (#[trigger] comp.fields()[w]).1
                            == Property::Atlas;
                    assert(field_need(
                        comp.fields()[w].1,
                        field_value(comp.fields(), inst@, w, va@, vm@),
                        va@,
                        vm@,
                        env@.ft,
                    ));
                }
                if crate::schema::has_kind(comp.fields(), Property::MapRef) {
                    let w = choose|w: int|
                        0 <= w < comp.fields().len() && (#[trigger] comp.fields()[w]).1
                            == Property::MapRef;
                    assert(field_need(
                        comp.fields()[w].1,
                        field_value(comp.fields(), inst@, w, va@, vm@),
                        va@,
                        vm@,
                        env@.ft,
                    ));
                }
            }
            let fixed = comp.fixed_copy(inst, va, vm);
            let ghost base = out@;
            let mut j: usize = 0;
            proof {
                assert(out@ =~= base + comp_values_take(comp.fields(), inst@, env@, 0));
            }
            while j < fixed.len()
                invariant
                    0 <= j <= fixed@.len(),
                    cp < components@.len(),
                    *comp == components@[cp as int].1,
                    fixed@.len() == comp.fields().len(),
                    fixed_instance(comp.fields(), inst@, fixed@, va@, vm@),
                    crate::schema::fixed_instance_ok(comp.fields(), fixed@, va@, vm@),
                    comp_inst_exportable(comp.fields(), inst@, va@, vm@, env@.ft),
                    env@.ft == ft_view(ft@),
                    env@.atbl == atbl@,
                    env@.mtbl == mtbl@,
                    env@.va == va@,
                    env@.vm == vm@,
                    forall|id: u128| env@.va.contains(id) ==> has_key(env@.atbl, id),
                    forall|id: u128| env@.vm.contains(id) ==> has_key(env@.mtbl, id),
                    out@ == base + comp_values_take(comp.fields(), inst@, env@, j as int),
                decreases fixed@.len() - j,
            {
                let ty = comp.properties[j].1;
                proof {
                    assert((#[trigger] comp.fields()[j as int]).1 == ty);
                    assert(fixed@[j as int].1@ == field_value(
                        comp.fields(),
                        inst@,
                        j as int,
                        va@,
                        vm@,
                    ));
                }
                push_value(out, ty, &fixed[j].1, ft, atbl, mtbl, env);
                j = j + 1;
            }
            proof {
                assert(out@ =~= old(out)@ + comp_bytes(cid, inst@, env@));
            }
        },
        _ => {
            proof {
                assert(false);
            }
        },
    }
}

/// Appends one object: position, draw-order flag, component count,
/// components.
fn push_obj(
    out: &mut Vec<u8>,
    o: &Object,
    components: &Vec<(u128, Component)>,
    va: &Vec<u128>,
    vm: &Vec<u128>,
    ft: &Vec<(String, u32)>,
    atbl: &Vec<(u128, u16)>,
    mtbl: &Vec<(u128, u16)>,
    ctbl: &Vec<(u128, u16)>,
    env: Ghost<ExportEnv>,
)
    requires
        env@.components == components@,
        env@.va == va@,
        env@.vm == vm@,
        env@.ft == ft_view(ft@),
        env@.atbl == atbl@,
        env@.mtbl == mtbl@,
        env@.ctbl == ctbl@,
        obj_exportable(*o, components@, va@, vm@, env@.ft),
        forall|id: u128| env@.va.contains(id) ==> has_key(env@.atbl, id),
        forall|id: u128| env@.vm.contains(id) ==> has_key(env@.mtbl, id),
        forall|cid: u128| has_key(components@, cid) ==> has_key(env@.ctbl, cid),
    ensures
        final(out)@ == old(out)@ + obj_bytes(*o, env@),
{
    push_i32_le(out, o.pos.0);
    push_i32_le(out, o.pos.1);
    if o.always_on_top {
        push_u8(out, 1);
    } else {
        push_u8(out, 0);
    }
    push_u16_le(out, o.components.len() as u16);
    let ghost base = out@;
    let mut ci: usize = 0;
    proof {
        assert(out@ =~= base + obj_comps_take(o.components@, env@, 0));
    }
    while ci < o.components.len()
        invariant
            0 <= ci <= o.components@.len(),
            env@.components == components@,
            env@.va == va@,
            env@.vm == vm@,
            env@.ft == ft_view(ft@),
            env@.atbl == atbl@,
            env@.mtbl == mtbl@,
            env@.ctbl == ctbl@,
            obj_exportable(*o, components@, va@, vm@, env@.ft),
            forall|id: u128| env@.va.contains(id) ==> has_key(env@.atbl, id),
            forall|id: u128| env@.vm.contains(id) ==> has_key(env@.mtbl, id),
            forall|cid: u128| has_key(components@, cid) ==> has_key(env@.ctbl, cid),
            out@ == base + obj_comps_take(o.components@, env@, ci as int),
        decreases o.components@.len() - ci,
    {
        proof {
            assert(has_key(components@, (#[trigger] o.components@[ci as int]).0));
        }
        push_comp(
            out,
            o.components[ci].0,
            &o.components[ci].1,
            components,
            va,
            vm,
            ft,
            atbl,
            mtbl,
            ctbl,
            env,
        );
        ci = ci + 1;
    }
    proof {
        assert(out@ =~= old(out)@ + obj_bytes(*o, env@));
    }
}

/// The flattened-coordinate bound used by the cell encoding.
proof fn lemma_cell_value_fits(x: int, y: int, tw: int)
    by (nonlinear_arith)
    requires
        0 <= x <= 0x7fff,
        0 <= y <= 0x7fff,
        0 <= tw <= 0xFFFF_FFFF,
    ensures
        0 <= x + y * tw,
        x + y * tw <= 0x7fff + 0x7fff * 0xFFFF_FFFF,
{
}

/// Appends one map record.
fn push_map_record(
    out: &mut Vec<u8>,
    m: &TileMap,
    atlases: &Vec<(u128, Atlas)>,
    components: &Vec<(u128, Component)>,
    va: &Vec<u128>,
    vm: &Vec<u128>,
    ft: &Vec<(String, u32)>,
    atbl: &Vec<(u128, u16)>,
    mtbl: &Vec<(u128, u16)>,
    ctbl: &Vec<(u128, u16)>,
    env: Ghost<ExportEnv>,
)
    requires
        env@.components == components@,
        env@.va == va@,
        env@.vm == vm@,
        env@.ft == ft_view(ft@),
        env@.atbl == atbl@,
        env@.mtbl == mtbl@,
        env@.ctbl == ctbl@,
        map_exportable(*m, atlases@, components@, va@, vm@, env@.ft),
        forall|i: int| 0 <= i < atlases@.len() ==> atlas_exportable((#[trigger] atlases@[i]).1),
        forall|id: u128| env@.va.contains(id) ==> has_key(env@.atbl, id),
        forall|id: u128| env@.vm.contains(id) ==> has_key(env@.mtbl, id),
        forall|cid: u128| has_key(components@, cid) ==> has_key(env@.ctbl, cid),
        forall|id: u128| has_key(atlases@, id) ==> has_key(env@.atbl, id),
    ensures
        final(out)@ == old(out)@ + map_record(*m, atlases@, env@),
{
    push_u16_le(out, m.size.0);
    push_u16_le(out, m.size.1);
    let tpos = crate::keyed::find_key(atbl, m.atlas);
    match tpos {
        Some(tp) => {
            push_u16_le(out, atbl[tp].1);
        },
        _ => {
            proof {
                assert(false);
            }
        },
    }
    let apos = crate::keyed::find_key(atlases, m.atlas);
    let mut tw: u32 = 0;
    match apos {
        Some(ap) => {
            let atl = &atlases[ap].1;
            proof {
                assert(atlas_exportable(atlases@[ap as int].1));
            }
            tw = atl.image.width / (atl.tile_size.0 as u32);
        },
        _ => {
            proof {
                assert(false);
            }
        },
    }
    let ghost stw = key_lookup(atlases@, m.atlas)->0.spec_tiles_wide();
    proof {
        assert(tw == stw);
    }
    let ghost cell_base = out@;
    let mut k: usize = 0;
    proof {
        assert(out@ =~= cell_base + cells_take(m.data@, stw, 0));
    }
    while k < m.data.len()
        invariant
            0 <= k <= m.data@.len(),
            tw == stw,
            out@ == cell_base + cells_take(m.data@, stw, k as int),
        decreases m.data@.len() - k,
    {
        let t = m.data[k];
        let w: u16 = if t.0 < 0 || t.1 < 0 {
            0xFFFF
        } else {
            proof {
                lemma_cell_value_fits(t.0 as int, t.1 as int, tw as int);
            }
            let prod: i64 = t.0 as i64 + (t.1 as i64) * (tw as i64);
            #[verifier::truncate] (prod as u16)
        };
        proof {
            assert(w == cell_word(m.data@[k as int], stw));
        }
        push_u16_le(out, w);
        k = k + 1;
    }
    push_u16_le(out, m.objects.len() as u16);
    let ghost obj_base = out@;
    let mut oi: usize = 0;
    proof {
        assert(out@ =~= obj_base + objs_take(m.objects@, env@, 0));
    }
    while oi < m.objects.len()
        invariant
            0 <= oi <= m.objects@.len(),
            env@.components == components@,
            env@.va == va@,
            env@.vm == vm@,
            env@.ft == ft_view(ft@),
            env@.atbl == atbl@,
            env@.mtbl == mtbl@,
            env@.ctbl == ctbl@,
            map_exportable(*m, atlases@, components@, va@, vm@, env@.ft),
            forall|id: u128| env@.va.contains(id) ==> has_key(env@.atbl, id),
            forall|id: u128| env@.vm.contains(id) ==> has_key(env@.mtbl, id),
            forall|cid: u128| has_key(components@, cid) ==> has_key(env@.ctbl, cid),
            out@ == obj_base + objs_take(m.objects@, env@, oi as int),
        decreases m.objects@.len() - oi,
    {
        proof {
            assert(obj_exportable(
                (#[trigger] m.objects@[oi as int]).1,
                components@,
                va@,
                vm@,
                env@.ft,
            ));
        }
        push_obj(
            out,
            &m.objects[oi].1,
            components,
            va,
            vm,
            ft,
            atbl,
            mtbl,
            ctbl,
            env,
        );
        oi = oi + 1;
    }
    proof {
        assert(out@ =~= old(out)@ + map_record(*m, atlases@, env@));
    }
}

} // verus!

verus! {

impl Assets {
    /// Builds the export blob and the atlas index table; the registry must
    /// be exportable.
    fn build_export(&self, ft: &Vec<(String, u32)>) -> (r: (Vec<u8>, Vec<(u128, u16)>))
        requires
            spec_exportable(*self, ft_view(ft@)),
        ensures
            r.0@ == spec_export(*self, ft_view(ft@)),
            r.1@ == table_from(self.atlases@, sort_idx(atlas_keys(self.atlases@))),
    {
        let apaths = atlas_paths(&self.atlases);
        let mpaths = map_paths(&self.maps);
        let cpaths = comp_paths(&self.components);
        let aord = sorted_order(&apaths);
        let mord = sorted_order(&mpaths);
        let cord = sorted_order(&cpaths);
        let atbl = build_table(&self.atlases, &aord);
        let mtbl = build_table(&self.maps, &mord);
        let ctbl = build_table(&self.components, &cord);
        let va = collect_ids(&self.atlases);
        let vm = collect_ids(&self.maps);
        let ghost env = spec_env(*self, ft_view(ft@));
        proof {
            assert(atbl@ =~= env.atbl);
            assert(mtbl@ =~= env.mtbl);
            assert(ctbl@ =~= env.ctbl);
            assert forall|id: u128| env.va.contains(id) implies has_key(env.atbl, id) by {
                let p = choose|p: int| 0 <= p < env.va.len() && env.va[p] == id;
                assert(self.atlases@[p].0 == id);
                lemma_has_key_witness(self.atlases@, p);
                lemma_table_has(self.atlases@, atlas_keys(self.atlases@), id);
            }
            assert forall|id: u128| env.vm.contains(id) implies has_key(env.mtbl, id) by {
                let p = choose|p: int| 0 <= p < env.vm.len() && env.vm[p] == id;
                assert(self.maps@[p].0 == id);
                lemma_has_key_witness(self.maps@, p);
                lemma_table_has(self.maps@, map_keys(self.maps@), id);
            }
            assert forall|cid: u128| has_key(self.components@, cid) implies has_key(
                env.ctbl,
                cid,
            ) by {
                lemma_table_has(self.components@, comp_keys(self.components@), cid);
            }
            assert forall|id: u128| has_key(self.atlases@, id) implies has_key(env.atbl, id) by {
                lemma_table_has(self.atlases@, atlas_keys(self.atlases@), id);
            }
        }
        let mut out: Vec<u8> = Vec::new();
        push_u16_le(&mut out, self.atlases.len() as u16);
        let ghost asec_base = out@;
        let mut k: usize = 0;
        proof {
            assert(out@ =~= asec_base + atlases_take(
                self.atlases@,
                sort_idx(atlas_keys(self.atlases@)),
                0,
            ));
        }
        while k < aord.len()
            invariant
                0 <= k <= aord@.len(),
                aord@.len() == self.atlases@.len(),
                idx_view(aord@) == sort_idx(atlas_keys(self.atlases@)),
                forall|i: int| 0 <= i < aord@.len() ==> (#[trigger] aord@[i]) < self.atlases@.len(),
                forall|i: int|
                    0 <= i < self.atlases@.len() ==> atlas_exportable(
                        (#[trigger] self.atlases@[i]).1,
                    ),
                out@ == asec_base + atlases_take(
                    self.atlases@,
                    sort_idx(atlas_keys(self.atlases@)),
                    k as int,
                ),
            decreases aord@.len() - k,
        {
            let idx = aord[k];
            proof {
                assert(sort_idx(atlas_keys(self.atlases@))[k as int] == idx as int);
            }
            push_atlas_record(&mut out, &self.atlases[idx].1);
            k = k + 1;
        }
        push_u16_le(&mut out, self.maps.len() as u16);
        let ghost msec_base = out@;
        let mut mk: usize = 0;
        proof {
            assert(out@ =~= msec_base + maps_take(
                self.maps@,
                sort_idx(map_keys(self.maps@)),
                self.atlases@,
                env,
                0,
            ));
        }
        while mk < mord.len()
            invariant
                0 <= mk <= mord@.len(),
                mord@.len() == self.maps@.len(),
                idx_view(mord@) == sort_idx(map_keys(self.maps@)),
                forall|i: int| 0 <= i < mord@.len() ==> (#[trigger] mord@[i]) < self.maps@.len(),
                spec_exportable(*self, ft_view(ft@)),
                env == spec_env(*self, ft_view(ft@)),
                va@ == env.va,
                vm@ == env.vm,
                atbl@ == env.atbl,
                mtbl@ == env.mtbl,
                ctbl@ == env.ctbl,
                forall|id: u128| env.va.contains(id) ==> has_key(env.atbl, id),
                forall|id: u128| env.vm.contains(id) ==> has_key(env.mtbl, id),
                forall|cid: u128| has_key(self.components@, cid) ==> has_key(env.ctbl, cid),
                forall|id: u128| has_key(self.atlases@, id) ==> has_key(env.atbl, id),
                out@ == msec_base + maps_take(
                    self.maps@,
                    sort_idx(map_keys(self.maps@)),
                    self.atlases@,
                    env,
                    mk as int,
                ),
            decreases mord@.len() - mk,
        {
            let idx = mord[mk];
            proof {
                assert(sort_idx(map_keys(self.maps@))[mk as int] == idx as int);
                assert(map_exportable(
                    (#[trigger] self.maps@[idx as int]).1,
                    self.atlases@,
                    self.components@,
                    env.va,
                    env.vm,
                    env.ft,
                ));
            }
            push_map_record(
                &mut out,
                &self.maps[idx].1,
                &self.atlases,
                &self.components,
                &va,
                &vm,
                ft,
                &atbl,
                &mtbl,
                &ctbl,
                Ghost(env),
            );
            mk = mk + 1;
        }
        proof {
            assert(out@ =~= spec_export(*self, ft_view(ft@)));
        }
        (out, atbl)
    }

    /// Exports the whole registry as one binary blob in the runtime's wire
    /// format: the atlas section then the map section, each in canonical
    /// path order.  The caller supplies the IEEE-754 encoding of every
    /// repaired float value, since the verified core does not compute with
    /// floating point.  On success the transient atlas-index table is
    /// refreshed as a side effect; everything else is read, not written.
    pub fn export(&mut self, float_bits: &Vec<(String, u32)>) -> (r: Result<Vec<u8>, ExportError>)
        ensures
            r is Ok <==> spec_exportable(*old(self), ft_view(float_bits@)),
            r is Ok ==> r->Ok_0@ == spec_export(*old(self), ft_view(float_bits@)),
            r == Err::<Vec<u8>, ExportError>(ExportError::UnknownAtlas) ==> (exists|i: int|
                0 <= i < old(self).maps@.len() && !has_key(
                    old(self).atlases@,
                    (#[trigger] old(self).maps@[i]).1.atlas,
                )),
            r == Err::<Vec<u8>, ExportError>(ExportError::MalformedAsset) ==> ((exists|i: int|
                0 <= i < old(self).atlases@.len() && !(#[trigger] old(self).atlases@[i]).1.wf())
                || (exists|i: int|
                0 <= i < old(self).maps@.len() && !(#[trigger] old(self).maps@[i]).1.wf())),
            r is Ok ==> final(self).atlas_indices@ == table_from(
                old(self).atlases@,
                sort_idx(atlas_keys(old(self).atlases@)),
            ),
            final(self).path == old(self).path,
            final(self).content_viewer_path == old(self).content_viewer_path,
            final(self).uuids == old(self).uuids,
            final(self).atlases == old(self).atlases,
            final(self).maps == old(self).maps,
            final(self).components == old(self).components,
            r is Err ==> *final(self) == *old(self),
    {
        let problem = self.find_export_problem(float_bits);
        match problem {
            Some(e) => Err(e),
            _ => {
                let built = self.build_export(float_bits);
                self.atlas_indices = built.1;
                Ok(built.0)
            },
        }
    }
}

} // verus!

verus! {

/// The per-field byte segments of one component instance, in schema field
/// order; their concatenation is what the export writes after the schema's
/// index.
pub open spec fn value_segments(
    fields: Seq<(Seq<char>, Property)>,
    inst: Seq<(String, String)>,
    env: ExportEnv,
) -> Seq<Seq<u8>> {
    Seq::new(
        fields.len(),
        |k: int| value_bytes(fields[k].1, field_value(fields, inst, k, env.va, env.vm), env),
    )
}

/// The encoded values are exactly the concatenation of the per-field
/// segments.
pub proof fn lemma_values_are_segments(
    fields: Seq<(Seq<char>, Property)>,
    inst: Seq<(String, String)>,
    env: ExportEnv,
    k: int,
)
    requires
        0 <= k <= fields.len(),
    ensures
        comp_values_take(fields, inst, env, k) == concat_segs(
            value_segments(fields, inst, env),
            k,
        ),
    decreases k,
{
    if k > 0 {
        lemma_values_are_segments(fields, inst, env, k - 1);
    }
}

/// The first `k` segments, concatenated.
pub open spec fn concat_segs(segs: Seq<Seq<u8>>, k: int) -> Seq<u8>
    decreases k,
{
    if k <= 0 {
        Seq::empty()
    } else {
        concat_segs(segs, k - 1) + segs[k - 1]
    }
}

/// Swapping two field positions of a schema swaps exactly those two byte
/// segments of every instance's encoding and leaves every other segment
/// unchanged: field order is the serialization order.
pub proof fn lemma_swap_fields_swaps_segments(
    fields: Seq<(Seq<char>, Property)>,
    inst: Seq<(String, String)>,
    env: ExportEnv,
    i: int,
    j: int,
)
    requires
        0 <= i < fields.len(),
        0 <= j < fields.len(),
    ensures
        ({
            let swapped = fields.update(i, fields[j]).update(j, fields[i]);
            let before = value_segments(fields, inst, env);
            let after = value_segments(swapped, inst, env);
            after =~= before.update(i, before[j]).update(j, before[i])
        }),
{
    let swapped = fields.update(i, fields[j]).update(j, fields[i]);
    let before = value_segments(fields, inst, env);
    let after = value_segments(swapped, inst, env);
    assert forall|k: int| 0 <= k < after.len() implies after[k] == before.update(
        i,
        before[j],
    ).update(j, before[i])[k] by {
        if k == j {
            assert(swapped[k] == fields[i]);
        } else if k == i {
            assert(swapped[k] == fields[j]);
        } else {
            assert(swapped[k] == fields[k]);
        }
    }
}

} // verus!
