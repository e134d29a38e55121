//! The persisted map record: grid size, atlas reference, the cells, and
//! the placed objects with their component instance data.

use vstd::prelude::*;

use crate::codec::{ide, le16, le32, le32i, push_id, push_i32_le, push_str32, push_u16_le,
    push_u32_le, push_u8, rd_i32_le, rd_id, rd_str32, rd_u16_le, rd_u32_le, rd_u8, read_i32_le,
    read_id, read_str32, read_u16_le, read_u32_le, read_u8, str32, str_fits32};
use crate::errors::AssetLoadError;
use crate::tilemap::{Object, TileMap};
use vstd::utf8::encode_utf8;

verus! {

// ------------------------------------------------------------- the views

/// Instance fields as the contracts speak of them.
pub open spec fn pairs_view(v: Seq<(String, String)>) -> Seq<(Seq<char>, Seq<char>)> {
    Seq::new(v.len(), |i: int| (v[i].0@, v[i].1@))
}

/// Attached component instances as the contracts speak of them.
pub open spec fn insts_view(v: Seq<(u128, Vec<(String, String)>)>) -> Seq<
    (u128, Seq<(Seq<char>, Seq<char>)>),
> {
    Seq::new(v.len(), |i: int| (v[i].0, pairs_view(v[i].1@)))
}

/// One persisted object, as the contracts speak of it.
pub struct ObjRec {
    pub id: u128,
    pub pos: (i32, i32),
    pub top: bool,
    pub comps: Seq<(u128, Seq<(Seq<char>, Seq<char>)>)>,
}

/// The object set as the contracts speak of it.
pub open spec fn objs_view(v: Seq<(u128, Object)>) -> Seq<ObjRec> {
    Seq::new(
        v.len(),
        |i: int| ObjRec {
            id: v[i].0,
            pos: v[i].1.pos,
            top: v[i].1.always_on_top,
            comps: insts_view(v[i].1.components@),
        },
    )
}

/// One decoded map record, as the contracts speak of it.
pub struct MapRec {
    pub size: (u16, u16),
    pub atlas: u128,
    pub cells: Seq<(i16, i16)>,
    pub objs: Seq<ObjRec>,
}

/// The record a map decodes to.
pub open spec fn map_rec(m: TileMap) -> MapRec {
    MapRec { size: m.size, atlas: m.atlas, cells: m.data@, objs: objs_view(m.objects@) }
}

// ---------------------------------------------------------- the encoding

/// The bytes of instance fields: length-prefixed name and value per field.
pub open spec fn enc_pairs(ps: Seq<(Seq<char>, Seq<char>)>) -> Seq<u8>
    decreases ps.len(),
{
    if ps.len() == 0 {
        Seq::empty()
    } else {
        str32(ps[0].0) + str32(ps[0].1) + enc_pairs(ps.drop_first())
    }
}

/// The bytes of attached instances: schema identifier, field count,
/// fields.
pub open spec fn enc_insts(cs: Seq<(u128, Seq<(Seq<char>, Seq<char>)>)>) -> Seq<u8>
    decreases cs.len(),
{
    if cs.len() == 0 {
        Seq::empty()
    } else {
        ide(cs[0].0) + le32(cs[0].1.len() as u32) + enc_pairs(cs[0].1) + enc_insts(
            cs.drop_first(),
        )
    }
}

/// The bytes of one object: identifier, position, draw-order flag,
/// instance count, instances.
pub open spec fn enc_obj(o: ObjRec) -> Seq<u8> {
    ide(o.id) + le32i(o.pos.0) + le32i(o.pos.1) + seq![
        if o.top {
            1u8
        } else {
            0u8
        },
    ] + le32(o.comps.len() as u32) + enc_insts(o.comps)
}

/// The bytes of the object set.
pub open spec fn enc_objs(os: Seq<ObjRec>) -> Seq<u8>
    decreases os.len(),
{
    if os.len() == 0 {
        Seq::empty()
    } else {
        enc_obj(os[0]) + enc_objs(os.drop_first())
    }
}

/// The bytes of the cells: two little-endian pairs each, row-major.
pub open spec fn enc_cells(cells: Seq<(i16, i16)>) -> Seq<u8>
    decreases cells.len(),
{
    if cells.len() == 0 {
        Seq::empty()
    } else {
        le16(cells[0].0 as u16) + le16(cells[0].1 as u16) + enc_cells(cells.drop_first())
    }
}

/// The bytes of a whole map record.
pub open spec fn enc_map(m: TileMap) -> Seq<u8> {
    le16(m.size.0) + le16(m.size.1) + ide(m.atlas) + enc_cells(m.data@) + le32(
        m.objects@.len() as u32,
    ) + enc_objs(objs_view(m.objects@))
}

/// Whether instance fields fit the record format.
pub open spec fn pairs_encodable(ps: Seq<(Seq<char>, Seq<char>)>) -> bool {
    forall|i: int|
        0 <= i < ps.len() ==> encode_utf8((#[trigger] ps[i]).0).len() <= u32::MAX && encode_utf8(
            ps[i].1,
        ).len() <= u32::MAX
}

/// Whether an object fits the record format.
pub open spec fn obj_encodable(o: ObjRec) -> bool {
    &&& o.comps.len() <= u32::MAX
    &&& forall|i: int|
        0 <= i < o.comps.len() ==> (#[trigger] o.comps[i]).1.len() <= u32::MAX && pairs_encodable(
            o.comps[i].1,
        )
}

/// Whether a map fits the record format: well-formed grid, counts and
/// texts within the length prefixes.
pub open spec fn map_encodable(m: TileMap) -> bool {
    &&& m.wf()
    &&& m.objects@.len() <= u32::MAX
    &&& forall|i: int| 0 <= i < m.objects@.len() ==> obj_encodable(objs_view(m.objects@)[i])
}

// ---------------------------------------------------------- the decoding

/// Reads `k` instance fields.
pub open spec fn rd_pairs(b: Seq<u8>, p: int, k: nat) -> Option<
    (Seq<(Seq<char>, Seq<char>)>, int),
>
    decreases k,
{
    if k == 0 {
        Some((Seq::empty(), p))
    } else {
        match rd_str32(b, p) {
            Some((name, p1)) => match rd_str32(b, p1) {
                Some((value, p2)) => match rd_pairs(b, p2, (k - 1) as nat) {
                    Some((rest, p3)) => Some((seq![(name, value)] + rest, p3)),
                    _ => None,
                },
                _ => None,
            },
            _ => None,
        }
    }
}

/// Reads `k` attached instances.
pub open spec fn rd_insts(b: Seq<u8>, p: int, k: nat) -> Option<
    (Seq<(u128, Seq<(Seq<char>, Seq<char>)>)>, int),
>
    decreases k,
{
    if k == 0 {
        Some((Seq::empty(), p))
    } else {
        match rd_id(b, p) {
            Some((cid, p1)) => match rd_u32_le(b, p1) {
                Some((n, p2)) => match rd_pairs(b, p2, n as nat) {
                    Some((ps, p3)) => match rd_insts(b, p3, (k - 1) as nat) {
                        Some((rest, p4)) => Some((seq![(cid, ps)] + rest, p4)),
                        _ => None,
                    },
                    _ => None,
                },
                _ => None,
            },
            _ => None,
        }
    }
}

/// Reads `k` objects.
pub open spec fn rd_objs(b: Seq<u8>, p: int, k: nat) -> Option<(Seq<ObjRec>, int)>
    decreases k,
{
    if k == 0 {
        Some((Seq::empty(), p))
    } else {
        match rd_id(b, p) {
            Some((id, p1)) => match rd_i32_le(b, p1) {
                Some((x, p2)) => match rd_i32_le(b, p2) {
                    Some((y, p3)) => match rd_u8(b, p3) {
                        Some((flag, p4)) => match rd_u32_le(b, p4) {
                            Some((n, p5)) => match rd_insts(b, p5, n as nat) {
                                Some((cs, p6)) => match rd_objs(b, p6, (k - 1) as nat) {
                                    Some((rest, p7)) => Some(
                                        (
                                            seq![
                                                ObjRec {
                                                    id: id,
                                                    pos: (x, y),
                                                    top: flag != 0,
                                                    comps: cs,
                                                },
                                            ] + rest,
                                            p7,
                                        ),
                                    ),
                                    _ => None,
                                },
                                _ => None,
                            },
                            _ => None,
                        },
                        _ => None,
                    },
                    _ => None,
                },
                _ => None,
            },
            _ => None,
        }
    }
}

/// Reads `k` cells.
pub open spec fn rd_cells(b: Seq<u8>, p: int, k: nat) -> Option<(Seq<(i16, i16)>, int)>
    decreases k,
{
    if k == 0 {
        Some((Seq::empty(), p))
    } else {
        match rd_u16_le(b, p) {
            Some((x, p1)) => match rd_u16_le(b, p1) {
                Some((y, p2)) => match rd_cells(b, p2, (k - 1) as nat) {
                    Some((rest, p3)) => Some((seq![(x as i16, y as i16)] + rest, p3)),
                    _ => None,
                },
                _ => None,
            },
            _ => None,
        }
    }
}

/// What a map record decodes to: the grid, the atlas reference and the
/// objects, when the bytes are exactly one record whose cell count matches
/// its size.
pub open spec fn dec_map(b: Seq<u8>) -> Option<MapRec> {
    match rd_u16_le(b, 0) {
        Some((w, p1)) => match rd_u16_le(b, p1) {
            Some((h, p2)) => match rd_id(b, p2) {
                Some((atlas, p3)) => match rd_cells(b, p3, (w as nat) * (h as nat)) {
                    Some((cells, p4)) => match rd_u32_le(b, p4) {
                        Some((n, p5)) => match rd_objs(b, p5, n as nat) {
                            Some((objs, p6)) => {
                                if p6 == b.len() {
                                    Some(MapRec { size: (w, h), atlas, cells, objs })
                                } else {
                                    None
                                }
                            },
                            _ => None,
                        },
                        _ => None,
                    },
                    _ => None,
                },
                _ => None,
            },
            _ => None,
        },
        _ => None,
    }
}

} // verus!


verus! {

// --------------------------------------------------------- exec encoding

/// Products of 16-bit values fit 64 bits.
proof fn lemma_mul_u16_fits(x: u64, y: u64)
    by (nonlinear_arith)
    requires
        x <= 0xFFFF,
        y <= 0xFFFF,
    ensures
        0 <= x * y <= 0xFFFE_0001,
{
}

/// Whether instance fields fit the record format.
fn check_pairs(ps: &Vec<(String, String)>) -> (r: bool)
    ensures
        r == pairs_encodable(pairs_view(ps@)),
{
    let mut i: usize = 0;
    while i < ps.len()
        invariant
            0 <= i <= ps@.len(),
            forall|j: int|
                0 <= j < i ==> encode_utf8((#[trigger] pairs_view(ps@)[j]).0).len() <= u32::MAX
                    && encode_utf8(pairs_view(ps@)[j].1).len() <= u32::MAX,
        decreases ps@.len() - i,
    {
        if !str_fits32(&ps[i].0) || !str_fits32(&ps[i].1) {
            proof {
                assert(!(encode_utf8((#[trigger] pairs_view(ps@)[i as int]).0).len() <= u32::MAX
                    && encode_utf8(pairs_view(ps@)[i as int].1).len() <= u32::MAX));
            }
            return false;
        }
        i = i + 1;
    }
    true
}

/// The encoded fields of one instance.
fn encode_pairs(ps: &Vec<(String, String)>) -> (r: Vec<u8>)
    requires
        pairs_encodable(pairs_view(ps@)),
    ensures
        r@ == enc_pairs(pairs_view(ps@)),
{
    let ghost pv = pairs_view(ps@);
    let mut out: Vec<u8> = Vec::new();
    let mut i: usize = 0;
    proof {
        assert(pv.skip(0) =~= pv);
        assert(out@ + enc_pairs(pv.skip(0)) =~= enc_pairs(pv));
    }
    while i < ps.len()
        invariant
            0 <= i <= ps@.len(),
            pv == pairs_view(ps@),
            pv.len() == ps@.len(),
            pairs_encodable(pv),
            out@ + enc_pairs(pv.skip(i as int)) == enc_pairs(pv),
        decreases ps@.len() - i,
    {
        proof {
            assert(pv.skip(i as int)[0] == pv[i as int]);
            assert(pv.skip(i as int).drop_first() =~= pv.skip(i + 1));
        }
        push_str32(&mut out, &ps[i].0);
        push_str32(&mut out, &ps[i].1);
        proof {
            assert(out@ + enc_pairs(pv.skip(i + 1)) =~= enc_pairs(pv));
        }
        i = i + 1;
    }
    proof {
        assert(pv.skip(ps@.len() as int) =~= Seq::<(Seq<char>, Seq<char>)>::empty());
        assert(out@ + Seq::<u8>::empty() =~= out@);
    }
    out
}

/// The encoded instance list of one object.
fn encode_insts(cs: &Vec<(u128, Vec<(String, String)>)>) -> (r: Vec<u8>)
    requires
        cs@.len() <= u32::MAX,
        forall|i: int|
            0 <= i < cs@.len() ==> (#[trigger] insts_view(cs@)[i]).1.len() <= u32::MAX
                && pairs_encodable(insts_view(cs@)[i].1),
    ensures
        r@ == enc_insts(insts_view(cs@)),
{
    let ghost cv = insts_view(cs@);
    let mut out: Vec<u8> = Vec::new();
    let mut i: usize = 0;
    proof {
        assert(cv.skip(0) =~= cv);
        assert(out@ + enc_insts(cv.skip(0)) =~= enc_insts(cv));
    }
    while i < cs.len()
        invariant
            0 <= i <= cs@.len(),
            cv == insts_view(cs@),
            cv.len() == cs@.len(),
            forall|j: int|
                0 <= j < cs@.len() ==> (#[trigger] cv[j]).1.len() <= u32::MAX && pairs_encodable(
                    cv[j].1,
                ),
            out@ + enc_insts(cv.skip(i as int)) == enc_insts(cv),
        decreases cs@.len() - i,
    {
        proof {
            assert(cv.skip(i as int)[0] == cv[i as int]);
            assert(cv.skip(i as int).drop_first() =~= cv.skip(i + 1));
            assert(pairs_view(cs@[i as int].1@) == cv[i as int].1);
        }
        push_id(&mut out, cs[i].0);
        push_u32_le(&mut out, cs[i].1.len() as u32);
        let fields = encode_pairs(&cs[i].1);
        crate::codec::push_bytes(&mut out, &fields);
        proof {
            assert(out@ + enc_insts(cv.skip(i + 1)) =~= enc_insts(cv));
        }
        i = i + 1;
    }
    proof {
        assert(cv.skip(cs@.len() as int) =~= Seq::<(u128, Seq<(Seq<char>, Seq<char>)>)>::empty());
        assert(out@ + Seq::<u8>::empty() =~= out@);
    }
    out
}

impl TileMap {
    /// Whether this map fits the record format.
    pub fn check_encodable(&self) -> (r: bool)
        ensures
            r == map_encodable(*self),
    {
        let n = self.data.len();
        proof {
            lemma_mul_u16_fits(self.size.0 as u64, self.size.1 as u64);
        }
        if !(n as u64 == self.size.0 as u64 * self.size.1 as u64) {
            return false;
        }
        if self.objects.len() as u64 > u32::MAX as u64 {
            return false;
        }
        let mut i: usize = 0;
        while i < self.objects.len()
            invariant
                0 <= i <= self.objects@.len(),
                forall|j: int| 0 <= j < i ==> obj_encodable(objs_view(self.objects@)[j]),
            decreases self.objects@.len() - i,
        {
            let o = &self.objects[i].1;
            if o.components.len() as u64 > u32::MAX as u64 {
                proof {
                    assert(!obj_encodable(objs_view(self.objects@)[i as int]));
                }
                return false;
            }
            let mut ci: usize = 0;
            while ci < o.components.len()
                invariant
                    0 <= ci <= o.components@.len(),
                    0 <= i < self.objects@.len(),
                    *o == self.objects@[i as int].1,
                    forall|j: int|
                        0 <= j < ci ==> (#[trigger] insts_view(o.components@)[j]).1.len()
                            <= u32::MAX && pairs_encodable(insts_view(o.components@)[j].1),
                decreases o.components@.len() - ci,
            {
                if o.components[ci].1.len() as u64 > u32::MAX as u64 {
                    proof {
                        assert((#[trigger] insts_view(o.components@)[ci as int]).1.len()
                            > u32::MAX);
                        assert(!obj_encodable(objs_view(self.objects@)[i as int]));
                    }
                    return false;
                }
                if !check_pairs(&o.components[ci].1) {
                    proof {
                        assert(!pairs_encodable(
                            (#[trigger] insts_view(o.components@)[ci as int]).1,
                        ));
                        assert(!obj_encodable(objs_view(self.objects@)[i as int]));
                    }
                    return false;
                }
                ci = ci + 1;
            }
            proof {
                assert(obj_encodable(objs_view(self.objects@)[i as int]));
            }
            i = i + 1;
        }
        true
    }

    /// Encodes the map record.  Fails exactly when the grid breaks its
    /// invariant or some count or text exceeds its length prefix.  What
    /// this writes, `decode` reads back unchanged.
    #[verifier::rlimit(60)]
    pub fn encode(&self) -> (r: Result<Vec<u8>, crate::errors::AssetSaveError>)
        ensures
            r is Ok <==> map_encodable(*self),
            r is Ok ==> r->Ok_0@ == enc_map(*self),
            r is Ok ==> dec_map(r->Ok_0@) == Some(map_rec(*self)),
    {
        if !self.check_encodable() {
            return Err(crate::errors::AssetSaveError::TooLarge);
        }
        let mut out: Vec<u8> = Vec::new();
        push_u16_le(&mut out, self.size.0);
        push_u16_le(&mut out, self.size.1);
        push_id(&mut out, self.atlas);
        let ghost cells = self.data@;
        let ghost header = out@;
        let mut k: usize = 0;
        proof {
            assert(cells.skip(0) =~= cells);
            assert(out@ =~= header + Seq::<u8>::empty());
            assert(Seq::<u8>::empty() + enc_cells(cells.skip(0)) =~= enc_cells(cells));
        }
        while k < self.data.len()
            invariant
                0 <= k <= self.data@.len(),
                cells == self.data@,
                out@.len() >= header.len(),
                out@.take(header.len() as int) == header,
                out@.skip(header.len() as int) + enc_cells(cells.skip(k as int)) == enc_cells(
                    cells,
                ),
            decreases self.data@.len() - k,
        {
            proof {
                assert(cells.skip(k as int)[0] == cells[k as int]);
                assert(cells.skip(k as int).drop_first() =~= cells.skip(k + 1));
            }
            let t = self.data[k];
            push_u16_le(&mut out, t.0 as u16);
            push_u16_le(&mut out, t.1 as u16);
            proof {
                assert(out@.take(header.len() as int) =~= header);
                assert(out@.skip(header.len() as int) + enc_cells(cells.skip(k + 1)) =~= enc_cells(
                    cells,
                ));
            }
            k = k + 1;
        }
        proof {
            assert(cells.skip(self.data@.len() as int) =~= Seq::<(i16, i16)>::empty());
            assert(out@.skip(header.len() as int) + Seq::<u8>::empty() =~= out@.skip(
                header.len() as int,
            ));
            assert(out@ =~= header + enc_cells(cells));
        }
        push_u32_le(&mut out, self.objects.len() as u32);
        let ghost ov = objs_view(self.objects@);
        let ghost mid = out@;
        let mut oi: usize = 0;
        proof {
            assert(ov.skip(0) =~= ov);
            assert(Seq::<u8>::empty() + enc_objs(ov.skip(0)) =~= enc_objs(ov));
        }
        while oi < self.objects.len()
            invariant
                0 <= oi <= self.objects@.len(),
                ov == objs_view(self.objects@),
                ov.len() == self.objects@.len(),
                map_encodable(*self),
                out@.len() >= mid.len(),
                out@.take(mid.len() as int) == mid,
                out@.skip(mid.len() as int) + enc_objs(ov.skip(oi as int)) == enc_objs(ov),
            decreases self.objects@.len() - oi,
        {
            proof {
                assert(ov.skip(oi as int)[0] == ov[oi as int]);
                assert(ov.skip(oi as int).drop_first() =~= ov.skip(oi + 1));
                assert(obj_encodable(ov[oi as int]));
                assert(insts_view(self.objects@[oi as int].1.components@) == ov[oi as int].comps);
            }
            let o = &self.objects[oi].1;
            push_id(&mut out, self.objects[oi].0);
            push_i32_le(&mut out, o.pos.0);
            push_i32_le(&mut out, o.pos.1);
            if o.always_on_top {
                push_u8(&mut out, 1);
            } else {
                push_u8(&mut out, 0);
            }
            push_u32_le(&mut out, o.components.len() as u32);
            let insts = encode_insts(&o.components);
            crate::codec::push_bytes(&mut out, &insts);
            proof {
                assert(out@.take(mid.len() as int) =~= mid);
                assert(out@.skip(mid.len() as int) + enc_objs(ov.skip(oi + 1)) =~= enc_objs(ov));
            }
            oi = oi + 1;
        }
        proof {
            assert(ov.skip(self.objects@.len() as int) =~= Seq::<ObjRec>::empty());
            assert(out@.skip(mid.len() as int) + Seq::<u8>::empty() =~= out@.skip(
                mid.len() as int,
            ));
            assert(out@ =~= enc_map(*self));
            lemma_map_round_trip(*self);
        }
        Ok(out)
    }
}

} // verus!

verus! {

// --------------------------------------------------------- round trips

/// Reading instance fields back from where they were written yields them
/// unchanged.
#[verifier::rlimit(100)]
#[verifier::spinoff_prover]
proof fn lemma_rd_pairs(pre: Seq<u8>, ps: Seq<(Seq<char>, Seq<char>)>, rest: Seq<u8>)
    requires
        pairs_encodable(ps),
    ensures
        rd_pairs(pre + enc_pairs(ps) + rest, pre.len() as int, ps.len()) == Some(
            (ps, pre.len() as int + enc_pairs(ps).len()),
        ),
    decreases ps.len(),
{
    if ps.len() == 0 {
        assert(enc_pairs(ps) =~= Seq::<u8>::empty());
        assert(Seq::empty() =~= ps);
    } else {
        let b = pre + enc_pairs(ps) + rest;
        let name = ps[0].0;
        let value = ps[0].1;
        let tail = enc_pairs(ps.drop_first());
        assert(b =~= pre + str32(name) + (str32(value) + tail + rest));
        crate::codec::lemma_rd_str32(pre, name, str32(value) + tail + rest);
        let pre2 = pre + str32(name);
        assert(b =~= pre2 + str32(value) + (tail + rest));
        crate::codec::lemma_rd_str32(pre2, value, tail + rest);
        let pre3 = pre2 + str32(value);
        assert(b =~= pre3 + tail + rest);
        assert(pairs_encodable(ps.drop_first())) by {
            assert(forall|i: int|
                0 <= i < ps.drop_first().len() ==> (#[trigger] ps.drop_first()[i]) == ps[i + 1]);
        }
        lemma_rd_pairs(pre3, ps.drop_first(), rest);
        assert(seq![(name, value)] + ps.drop_first() =~= ps);
        assert(enc_pairs(ps).len() == str32(name).len() + str32(value).len() + tail.len());
    }
}

/// Reading an instance's identifier and field count yields them.
#[verifier::rlimit(60)]
proof fn lemma_rd_inst_header(pre: Seq<u8>, cid: u128, n: u32, after: Seq<u8>)
    ensures
        ({
            let b = pre + ide(cid) + le32(n) + after;
            &&& rd_id(b, pre.len() as int) == Some((cid, pre.len() as int + 16))
            &&& rd_u32_le(b, pre.len() as int + 16) == Some((n, pre.len() as int + 20))
        }),
{
    let b = pre + ide(cid) + le32(n) + after;
    assert(b =~= pre + ide(cid) + (le32(n) + after));
    crate::codec::lemma_rd_id(pre, cid, le32(n) + after);
    let pre2 = pre + ide(cid);
    assert(b =~= pre2 + le32(n) + after);
    crate::codec::lemma_rd_le32(pre2, n, after);
}

/// Reading an instance list back yields it unchanged.
#[verifier::rlimit(100)]
#[verifier::spinoff_prover]
proof fn lemma_rd_insts(pre: Seq<u8>, cs: Seq<(u128, Seq<(Seq<char>, Seq<char>)>)>, rest: Seq<u8>)
    requires
        forall|i: int|
            0 <= i < cs.len() ==> (#[trigger] cs[i]).1.len() <= u32::MAX && pairs_encodable(
                cs[i].1,
            ),
    ensures
        rd_insts(pre + enc_insts(cs) + rest, pre.len() as int, cs.len()) == Some(
            (cs, pre.len() as int + enc_insts(cs).len()),
        ),
    decreases cs.len(),
{
    if cs.len() == 0 {
        assert(enc_insts(cs) =~= Seq::<u8>::empty());
        assert(Seq::empty() =~= cs);
    } else {
        let b = pre + enc_insts(cs) + rest;
        let cid = cs[0].0;
        let ps = cs[0].1;
        let n = ps.len() as u32;
        let tail = enc_insts(cs.drop_first());
        assert(b =~= pre + ide(cid) + le32(n) + (enc_pairs(ps) + tail + rest));
        lemma_rd_inst_header(pre, cid, n, enc_pairs(ps) + tail + rest);
        let pre3 = pre + ide(cid) + le32(n);
        assert(pre3.len() == pre.len() + 20);
        assert(b =~= pre3 + enc_pairs(ps) + (tail + rest));
        lemma_rd_pairs(pre3, ps, tail + rest);
        let pre4 = pre3 + enc_pairs(ps);
        assert(b =~= pre4 + tail + rest);
        assert(forall|i: int|
            0 <= i < cs.drop_first().len() ==> (#[trigger] cs.drop_first()[i]) == cs[i + 1]);
        lemma_rd_insts(pre4, cs.drop_first(), rest);
        assert(seq![(cid, ps)] + cs.drop_first() =~= cs);
        assert(enc_insts(cs).len() == 20 + enc_pairs(ps).len() + tail.len());
    }
}

/// Reading one object's fixed-width header yields its fields.
#[verifier::rlimit(60)]
proof fn lemma_rd_obj_header(pre: Seq<u8>, o: ObjRec, after: Seq<u8>)
    ensures
        ({
            let flag: u8 = if o.top {
                1u8
            } else {
                0u8
            };
            let hdr = ide(o.id) + le32i(o.pos.0) + le32i(o.pos.1) + seq![flag] + le32(
                o.comps.len() as u32,
            );
            let b = pre + hdr + after;
            &&& rd_id(b, pre.len() as int) == Some((o.id, pre.len() as int + 16))
            &&& rd_i32_le(b, pre.len() as int + 16) == Some((o.pos.0, pre.len() as int + 20))
            &&& rd_i32_le(b, pre.len() as int + 20) == Some((o.pos.1, pre.len() as int + 24))
            &&& rd_u8(b, pre.len() as int + 24) == Some((flag, pre.len() as int + 25))
            &&& rd_u32_le(b, pre.len() as int + 25) == Some(
                (o.comps.len() as u32, pre.len() as int + 29),
            )
        }),
{
    let flag: u8 = if o.top {
        1u8
    } else {
        0u8
    };
    let hdr = ide(o.id) + le32i(o.pos.0) + le32i(o.pos.1) + seq![flag] + le32(
        o.comps.len() as u32,
    );
    let b = pre + hdr + after;
    assert(b =~= pre + ide(o.id) + (le32i(o.pos.0) + le32i(o.pos.1) + seq![flag] + le32(
        o.comps.len() as u32,
    ) + after));
    crate::codec::lemma_rd_id(
        pre,
        o.id,
        le32i(o.pos.0) + le32i(o.pos.1) + seq![flag] + le32(o.comps.len() as u32) + after,
    );
    let pre2 = pre + ide(o.id);
    assert(b =~= pre2 + le32i(o.pos.0) + (le32i(o.pos.1) + seq![flag] + le32(
        o.comps.len() as u32,
    ) + after));
    crate::codec::lemma_rd_le32i(
        pre2,
        o.pos.0,
        le32i(o.pos.1) + seq![flag] + le32(o.comps.len() as u32) + after,
    );
    let pre3 = pre2 + le32i(o.pos.0);
    assert(b =~= pre3 + le32i(o.pos.1) + (seq![flag] + le32(o.comps.len() as u32) + after));
    crate::codec::lemma_rd_le32i(pre3, o.pos.1, seq![flag] + le32(o.comps.len() as u32) + after);
    let pre4 = pre3 + le32i(o.pos.1);
    assert(b[pre4.len() as int] == flag);
    let pre5 = pre4 + seq![flag];
    assert(b =~= pre5 + le32(o.comps.len() as u32) + after);
    crate::codec::lemma_rd_le32(pre5, o.comps.len() as u32, after);
}

/// Reading an object list back yields it unchanged.
#[verifier::rlimit(100)]
#[verifier::spinoff_prover]
proof fn lemma_rd_objs(pre: Seq<u8>, os: Seq<ObjRec>, rest: Seq<u8>)
    requires
        forall|i: int| 0 <= i < os.len() ==> obj_encodable(#[trigger] os[i]),
    ensures
        rd_objs(pre + enc_objs(os) + rest, pre.len() as int, os.len()) == Some(
            (os, pre.len() as int + enc_objs(os).len()),
        ),
    decreases os.len(),
{
    if os.len() == 0 {
        assert(enc_objs(os) =~= Seq::<u8>::empty());
        assert(Seq::empty() =~= os);
    } else {
        let b = pre + enc_objs(os) + rest;
        let o = os[0];
        let flag: u8 = if o.top {
            1u8
        } else {
            0u8
        };
        let hdr = ide(o.id) + le32i(o.pos.0) + le32i(o.pos.1) + seq![flag] + le32(
            o.comps.len() as u32,
        );
        let tail = enc_objs(os.drop_first());
        assert(b =~= pre + hdr + (enc_insts(o.comps) + tail + rest));
        lemma_rd_obj_header(pre, o, enc_insts(o.comps) + tail + rest);
        assert(hdr.len() == 29);
        let pre6 = pre + hdr;
        assert(b =~= pre6 + enc_insts(o.comps) + (tail + rest));
        lemma_rd_insts(pre6, o.comps, tail + rest);
        let pre7 = pre6 + enc_insts(o.comps);
        assert(b =~= pre7 + tail + rest);
        assert(forall|i: int|
            0 <= i < os.drop_first().len() ==> (#[trigger] os.drop_first()[i]) == os[i + 1]);
        lemma_rd_objs(pre7, os.drop_first(), rest);
        assert((flag != 0) == o.top);
        assert(ObjRec { id: o.id, pos: (o.pos.0, o.pos.1), top: flag != 0, comps: o.comps } == o);
        assert(seq![o] + os.drop_first() =~= os);
        assert(enc_objs(os).len() == 29 + enc_insts(o.comps).len() + tail.len());
    }
}

/// Reading the cells back yields them unchanged.
#[verifier::rlimit(60)]
proof fn lemma_rd_cells(pre: Seq<u8>, cells: Seq<(i16, i16)>, rest: Seq<u8>)
    ensures
        rd_cells(pre + enc_cells(cells) + rest, pre.len() as int, cells.len()) == Some(
            (cells, pre.len() as int + enc_cells(cells).len()),
        ),
    decreases cells.len(),
{
    if cells.len() == 0 {
        assert(enc_cells(cells) =~= Seq::<u8>::empty());
        assert(Seq::empty() =~= cells);
    } else {
        let b = pre + enc_cells(cells) + rest;
        let x = cells[0].0;
        let y = cells[0].1;
        let tail = enc_cells(cells.drop_first());
        assert(b =~= pre + le16(x as u16) + (le16(y as u16) + tail + rest));
        crate::codec::lemma_rd_le16(pre, x as u16, le16(y as u16) + tail + rest);
        let pre2 = pre + le16(x as u16);
        assert(b =~= pre2 + le16(y as u16) + (tail + rest));
        crate::codec::lemma_rd_le16(pre2, y as u16, tail + rest);
        let pre3 = pre2 + le16(y as u16);
        assert(b =~= pre3 + tail + rest);
        lemma_rd_cells(pre3, cells.drop_first(), rest);
        assert(((x as u16) as i16) == x) by (bit_vector);
        assert(((y as u16) as i16) == y) by (bit_vector);
        assert(seq![(x, y)] + cells.drop_first() =~= cells);
        assert(enc_cells(cells).len() == 4 + tail.len());
    }
}

/// Reading a map record's header yields its fields.
#[verifier::rlimit(60)]
proof fn lemma_rd_map_header(m: TileMap, after: Seq<u8>)
    ensures
        ({
            let hdr = le16(m.size.0) + le16(m.size.1) + ide(m.atlas);
            let b = hdr + after;
            &&& rd_u16_le(b, 0) == Some((m.size.0, 2int))
            &&& rd_u16_le(b, 2) == Some((m.size.1, 4int))
            &&& rd_id(b, 4) == Some((m.atlas, 20int))
        }),
{
    let hdr = le16(m.size.0) + le16(m.size.1) + ide(m.atlas);
    let b = hdr + after;
    assert(b =~= Seq::<u8>::empty() + le16(m.size.0) + (le16(m.size.1) + ide(m.atlas) + after));
    crate::codec::lemma_rd_le16(Seq::empty(), m.size.0, le16(m.size.1) + ide(m.atlas) + after);
    let pre2 = le16(m.size.0);
    assert(b =~= pre2 + le16(m.size.1) + (ide(m.atlas) + after));
    crate::codec::lemma_rd_le16(pre2, m.size.1, ide(m.atlas) + after);
    let pre3 = pre2 + le16(m.size.1);
    assert(b =~= pre3 + ide(m.atlas) + after);
    crate::codec::lemma_rd_id(pre3, m.atlas, after);
}

/// Decoding an encoded map record yields the map's record back.
#[verifier::rlimit(100)]
#[verifier::spinoff_prover]
proof fn lemma_map_round_trip(m: TileMap)
    requires
        map_encodable(m),
    ensures
        dec_map(enc_map(m)) == Some(map_rec(m)),
{
    let b = enc_map(m);
    let ov = objs_view(m.objects@);
    let hdr = le16(m.size.0) + le16(m.size.1) + ide(m.atlas);
    let after = enc_cells(m.data@) + le32(m.objects@.len() as u32) + enc_objs(ov);
    assert(b =~= hdr + after);
    lemma_rd_map_header(m, after);
    let pre4 = hdr;
    assert(pre4.len() == 20);
    assert(b =~= pre4 + enc_cells(m.data@) + (le32(m.objects@.len() as u32) + enc_objs(ov)));
    lemma_rd_cells(pre4, m.data@, le32(m.objects@.len() as u32) + enc_objs(ov));
    assert(m.data@.len() == (m.size.0 as nat) * (m.size.1 as nat));
    let pre5 = pre4 + enc_cells(m.data@);
    assert(b =~= pre5 + le32(m.objects@.len() as u32) + enc_objs(ov));
    crate::codec::lemma_rd_le32(pre5, m.objects@.len() as u32, enc_objs(ov));
    let pre6 = pre5 + le32(m.objects@.len() as u32);
    assert(b =~= pre6 + enc_objs(ov) + Seq::<u8>::empty());
    lemma_rd_objs(pre6, ov, Seq::empty());
    assert(b.len() == pre6.len() + enc_objs(ov).len());
}

} // verus!

verus! {

// --------------------------------------------------------- exec decoding

/// Decodes `k` instance fields.
fn decode_pairs(b: &Vec<u8>, p: usize, k: u32) -> (r: Result<
    (Vec<(String, String)>, usize),
    AssetLoadError,
>)
    ensures
        match r {
            Ok((v, q)) => rd_pairs(b@, p as int, k as nat) == Some((pairs_view(v@), q as int)),
            Err(e) => rd_pairs(b@, p as int, k as nat) is None && e == AssetLoadError::Malformed,
        },
{
    let mut out: Vec<(String, String)> = Vec::new();
    let mut pos: usize = p;
    let mut i: u32 = 0;
    proof {
        match rd_pairs(b@, p as int, k as nat) {
            Some((rest, q)) => {
                assert(pairs_view(out@) + rest =~= rest);
            },
            _ => {},
        }
    }
    while i < k
        invariant
            0 <= i <= k,
            out@.len() == i,
            rd_pairs(b@, p as int, k as nat) == (match rd_pairs(b@, pos as int, (k - i) as nat) {
                Some((rest, q)) => Some((pairs_view(out@) + rest, q)),
                _ => None::<(Seq<(Seq<char>, Seq<char>)>, int)>,
            }),
        decreases k - i,
    {
        let name = read_str32(b, pos);
        match name {
            Some((n, p1)) => {
                let value = read_str32(b, p1);
                match value {
                    Some((v, p2)) => {
                        let ghost done = out@;
                        let ghost f = (n@, v@);
                        out.push((n, v));
                        proof {
                            assert(pairs_view(out@) =~= pairs_view(done).push(f));
                            assert(rd_pairs(b@, pos as int, (k - i) as nat) == (match rd_pairs(
                                b@,
                                p2 as int,
                                (k - i - 1) as nat,
                            ) {
                                Some((rest, q)) => Some((seq![f] + rest, q)),
                                _ => None::<(Seq<(Seq<char>, Seq<char>)>, int)>,
                            }));
                            match rd_pairs(b@, p2 as int, (k - i - 1) as nat) {
                                Some((rest, q)) => {
                                    assert(pairs_view(done) + (seq![f] + rest) =~= pairs_view(
                                        out@,
                                    ) + rest);
                                },
                                _ => {},
                            }
                        }
                        pos = p2;
                    },
                    _ => {
                        proof {
                            assert(rd_pairs(b@, pos as int, (k - i) as nat) is None);
                        }
                        return Err(AssetLoadError::Malformed);
                    },
                }
            },
            _ => {
                proof {
                    assert(rd_pairs(b@, pos as int, (k - i) as nat) is None);
                }
                return Err(AssetLoadError::Malformed);
            },
        }
        i = i + 1;
    }
    proof {
        assert(rd_pairs(b@, pos as int, 0nat) == Some(
            (Seq::<(Seq<char>, Seq<char>)>::empty(), pos as int),
        ));
        assert(pairs_view(out@) + Seq::<(Seq<char>, Seq<char>)>::empty() =~= pairs_view(out@));
    }
    Ok((out, pos))
}

/// Decodes `k` attached instances.
fn decode_insts(b: &Vec<u8>, p: usize, k: u32) -> (r: Result<
    (Vec<(u128, Vec<(String, String)>)>, usize),
    AssetLoadError,
>)
    ensures
        match r {
            Ok((v, q)) => rd_insts(b@, p as int, k as nat) == Some((insts_view(v@), q as int)),
            Err(e) => rd_insts(b@, p as int, k as nat) is None && e == AssetLoadError::Malformed,
        },
{
    let mut out: Vec<(u128, Vec<(String, String)>)> = Vec::new();
    let mut pos: usize = p;
    let mut i: u32 = 0;
    proof {
        match rd_insts(b@, p as int, k as nat) {
            Some((rest, q)) => {
                assert(insts_view(out@) + rest =~= rest);
            },
            _ => {},
        }
    }
    while i < k
        invariant
            0 <= i <= k,
            out@.len() == i,
            rd_insts(b@, p as int, k as nat) == (match rd_insts(b@, pos as int, (k - i) as nat) {
                Some((rest, q)) => Some((insts_view(out@) + rest, q)),
                _ => None::<(Seq<(u128, Seq<(Seq<char>, Seq<char>)>)>, int)>,
            }),
        decreases k - i,
    {
        let cid = read_id(b, pos);
        match cid {
            Some((id, p1)) => {
                let count = read_u32_le(b, p1);
                match count {
                    Some((n, p2)) => {
                        let fields = decode_pairs(b, p2, n);
                        match fields {
                            Ok((ps, p3)) => {
                                let ghost done = out@;
                                let ghost f = (id, pairs_view(ps@));
                                out.push((id, ps));
                                proof {
                                    assert(insts_view(out@) =~= insts_view(done).push(f));
                                    assert(rd_insts(b@, pos as int, (k - i) as nat) == (
                                    match rd_insts(b@, p3 as int, (k - i - 1) as nat) {
                                        Some((rest, q)) => Some((seq![f] + rest, q)),
                                        _ => None::<
                                            (Seq<(u128, Seq<(Seq<char>, Seq<char>)>)>, int),
                                        >,
                                    }));
                                    match rd_insts(b@, p3 as int, (k - i - 1) as nat) {
                                        Some((rest, q)) => {
                                            assert(insts_view(done) + (seq![f] + rest)
                                                =~= insts_view(out@) + rest);
                                        },
                                        _ => {},
                                    }
                                }
                                pos = p3;
                            },
                            _ => {
                                proof {
                                    assert(rd_insts(b@, pos as int, (k - i) as nat) is None);
                                }
                                return Err(AssetLoadError::Malformed);
                            },
                        }
                    },
                    _ => {
                        proof {
                            assert(rd_insts(b@, pos as int, (k - i) as nat) is None);
                        }
                        return Err(AssetLoadError::Malformed);
                    },
                }
            },
            _ => {
                proof {
                    assert(rd_insts(b@, pos as int, (k - i) as nat) is None);
                }
                return Err(AssetLoadError::Malformed);
            },
        }
        i = i + 1;
    }
    proof {
        assert(rd_insts(b@, pos as int, 0nat) == Some(
            (Seq::<(u128, Seq<(Seq<char>, Seq<char>)>)>::empty(), pos as int),
        ));
        assert(insts_view(out@) + Seq::<(u128, Seq<(Seq<char>, Seq<char>)>)>::empty()
            =~= insts_view(out@));
    }
    Ok((out, pos))
}

} // verus!

verus! {

/// Decodes `k` objects.
fn decode_objs(b: &Vec<u8>, p: usize, k: u32) -> (r: Result<
    (Vec<(u128, Object)>, usize),
    AssetLoadError,
>)
    ensures
        match r {
            Ok((v, q)) => rd_objs(b@, p as int, k as nat) == Some((objs_view(v@), q as int)),
            Err(e) => rd_objs(b@, p as int, k as nat) is None && e == AssetLoadError::Malformed,
        },
{
    let mut out: Vec<(u128, Object)> = Vec::new();
    let mut pos: usize = p;
    let mut i: u32 = 0;
    proof {
        match rd_objs(b@, p as int, k as nat) {
            Some((rest, q)) => {
                assert(objs_view(out@) + rest =~= rest);
            },
            _ => {},
        }
    }
    while i < k
        invariant
            0 <= i <= k,
            out@.len() == i,
            rd_objs(b@, p as int, k as nat) == (match rd_objs(b@, pos as int, (k - i) as nat) {
                Some((rest, q)) => Some((objs_view(out@) + rest, q)),
                _ => None::<(Seq<ObjRec>, int)>,
            }),
        decreases k - i,
    {
        let header = read_obj_header(b, pos);
        match header {
            Some((id, x, y, flag, n, p5)) => {
                let insts = decode_insts(b, p5, n);
                match insts {
                    Ok((cs, p6)) => {
                        let ghost done = out@;
                        let mut object = Object::new((x, y), cs);
                        object.always_on_top = flag != 0;
                        let ghost f = ObjRec {
                            id: id,
                            pos: (x, y),
                            top: flag != 0,
                            comps: insts_view(object.components@),
                        };
                        out.push((id, object));
                        proof {
                            assert(objs_view(out@) =~= objs_view(done).push(f));
                            assert(rd_objs(b@, pos as int, (k - i) as nat) == (match rd_objs(
                                b@,
                                p6 as int,
                                (k - i - 1) as nat,
                            ) {
                                Some((rest, q)) => Some((seq![f] + rest, q)),
                                _ => None::<(Seq<ObjRec>, int)>,
                            }));
                            match rd_objs(b@, p6 as int, (k - i - 1) as nat) {
                                Some((rest, q)) => {
                                    assert(objs_view(done) + (seq![f] + rest) =~= objs_view(out@)
                                        + rest);
                                },
                                _ => {},
                            }
                        }
                        pos = p6;
                    },
                    _ => {
                        proof {
                            assert(rd_objs(b@, pos as int, (k - i) as nat) is None);
                        }
                        return Err(AssetLoadError::Malformed);
                    },
                }
            },
            _ => {
                proof {
                    assert(rd_objs(b@, pos as int, (k - i) as nat) is None);
                }
                return Err(AssetLoadError::Malformed);
            },
        }
        i = i + 1;
    }
    proof {
        assert(rd_objs(b@, pos as int, 0nat) == Some((Seq::<ObjRec>::empty(), pos as int)));
        assert(objs_view(out@) + Seq::<ObjRec>::empty() =~= objs_view(out@));
    }
    Ok((out, pos))
}

/// Reads one object's fixed-width header: identifier, position,
/// draw-order flag and instance count.
fn read_obj_header(b: &Vec<u8>, p: usize) -> (r: Option<(u128, i32, i32, u8, u32, usize)>)
    ensures
        match r {
            Some((id, x, y, flag, n, q)) => {
                &&& rd_id(b@, p as int) is Some
                &&& ({
                    let p1 = (rd_id(b@, p as int)->0).1;
                    &&& (rd_id(b@, p as int)->0).0 == id
                    &&& rd_i32_le(b@, p1) == Some((x, p1 + 4))
                    &&& rd_i32_le(b@, p1 + 4) == Some((y, p1 + 8))
                    &&& rd_u8(b@, p1 + 8) == Some((flag, p1 + 9))
                    &&& rd_u32_le(b@, p1 + 9) == Some((n, p1 + 13))
                    &&& q == p1 + 13
                })
            },
            _ => {
                ||| rd_id(b@, p as int) is None
                ||| ({
                    let p1 = (rd_id(b@, p as int)->0).1;
                    ||| rd_i32_le(b@, p1) is None
                    ||| rd_i32_le(b@, p1 + 4) is None
                    ||| rd_u8(b@, p1 + 8) is None
                    ||| rd_u32_le(b@, p1 + 9) is None
                })
            },
        },
{
    match read_id(b, p) {
        Some((id, p1)) => match read_i32_le(b, p1) {
            Some((x, p2)) => match read_i32_le(b, p2) {
                Some((y, p3)) => match read_u8(b, p3) {
                    Some((flag, p4)) => match read_u32_le(b, p4) {
                        Some((n, p5)) => Some((id, x, y, flag, n, p5)),
                        _ => None,
                    },
                    _ => None,
                },
                _ => None,
            },
            _ => None,
        },
        _ => None,
    }
}

impl TileMap {
    /// Decodes a map record persisted at `path`.
    pub fn decode(path: String, bytes: &Vec<u8>) -> (r: Result<TileMap, AssetLoadError>)
        ensures
            match r {
                Ok(m) => {
                    &&& dec_map(bytes@) == Some(map_rec(m))
                    &&& m.path == path
                    &&& m.wf()
                },
                Err(e) => dec_map(bytes@) is None && e == AssetLoadError::Malformed,
            },
    {
        let w = read_u16_le(bytes, 0);
        match w {
            Some((w, p1)) => {
                let h = read_u16_le(bytes, p1);
                match h {
                    Some((h, p2)) => {
                        let atlas = read_id(bytes, p2);
                        match atlas {
                            Some((atlas, p3)) => {
                                proof {
                                    lemma_mul_u16_fits(w as u64, h as u64);
                                }
                                let cell_count: u64 = w as u64 * h as u64;
                                let cells = decode_cells(bytes, p3, cell_count);
                                match cells {
                                    Ok((data, p4)) => {
                                        let count = read_u32_le(bytes, p4);
                                        match count {
                                            Some((n, p5)) => {
                                                let objs = decode_objs(bytes, p5, n);
                                                match objs {
                                                    Ok((objects, p6)) => {
                                                        if p6 != bytes.len() {
                                                            return Err(AssetLoadError::Malformed);
                                                        }
                                                        Ok(TileMap {
                                                            path,
                                                            size: (w, h),
                                                            data,
                                                            atlas,
                                                            objects,
                                                        })
                                                    },
                                                    Err(_) => Err(AssetLoadError::Malformed),
                                                }
                                            },
                                            _ => Err(AssetLoadError::Malformed),
                                        }
                                    },
                                    Err(_) => Err(AssetLoadError::Malformed),
                                }
                            },
                            _ => Err(AssetLoadError::Malformed),
                        }
                    },
                    _ => Err(AssetLoadError::Malformed),
                }
            },
            _ => Err(AssetLoadError::Malformed),
        }
    }
}

/// Decodes `k` cells.
fn decode_cells(b: &Vec<u8>, p: usize, k: u64) -> (r: Result<
    (Vec<(i16, i16)>, usize),
    AssetLoadError,
>)
    ensures
        match r {
            Ok((v, q)) => rd_cells(b@, p as int, k as nat) == Some((v@, q as int)) && v@.len()
                == k,
            Err(e) => rd_cells(b@, p as int, k as nat) is None && e == AssetLoadError::Malformed,
        },
{
    let mut out: Vec<(i16, i16)> = Vec::new();
    let mut pos: usize = p;
    let mut i: u64 = 0;
    proof {
        match rd_cells(b@, p as int, k as nat) {
            Some((rest, q)) => {
                assert(out@ + rest =~= rest);
            },
            _ => {},
        }
    }
    while i < k
        invariant
            0 <= i <= k,
            out@.len() == i,
            rd_cells(b@, p as int, k as nat) == (match rd_cells(b@, pos as int, (k - i) as nat) {
                Some((rest, q)) => Some((out@ + rest, q)),
                _ => None::<(Seq<(i16, i16)>, int)>,
            }),
        decreases k - i,
    {
        let x = read_u16_le(b, pos);
        match x {
            Some((x, p1)) => {
                let y = read_u16_le(b, p1);
                match y {
                    Some((y, p2)) => {
                        let ghost done = out@;
                        let ghost f = (x as i16, y as i16);
                        out.push((x as i16, y as i16));
                        proof {
                            assert(out@ =~= done.push(f));
                            assert(rd_cells(b@, pos as int, (k - i) as nat) == (match rd_cells(
                                b@,
                                p2 as int,
                                (k - i - 1) as nat,
                            ) {
                                Some((rest, q)) => Some((seq![f] + rest, q)),
                                _ => None::<(Seq<(i16, i16)>, int)>,
                            }));
                            match rd_cells(b@, p2 as int, (k - i - 1) as nat) {
                                Some((rest, q)) => {
                                    assert(done + (seq![f] + rest) =~= out@ + rest);
                                },
                                _ => {},
                            }
                        }
                        pos = p2;
                    },
                    _ => {
                        proof {
                            assert(rd_cells(b@, pos as int, (k - i) as nat) is None);
                        }
                        return Err(AssetLoadError::Malformed);
                    },
                }
            },
            _ => {
                proof {
                    assert(rd_cells(b@, pos as int, (k - i) as nat) is None);
                }
                return Err(AssetLoadError::Malformed);
            },
        }
        i = i + 1;
    }
    proof {
        assert(rd_cells(b@, pos as int, 0nat) == Some((Seq::<(i16, i16)>::empty(), pos as int)));
        assert(out@ + Seq::<(i16, i16)>::empty() =~= out@);
    }
    Ok((out, pos))
}

} // verus!
