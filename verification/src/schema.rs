//! Component schemas: ordered mappings from field name to property kind.
//! The order is significant — it is the serialization order of instance
//! data and the order the editor draws fields in.

use vstd::prelude::*;

use crate::codec::{
    push_str32, push_u32_le, push_u8, rd_str32, rd_u32_le, rd_u8, read_str32, read_u8,
    read_u32_le, str32, str_fits32, le32,
};
use crate::errors::{AssetLoadError, AssetSaveError};
use crate::property::{spec_fix_value, Property};
use vstd::utf8::encode_utf8;

verus! {

/// An ordered mapping from field name to property kind.  Built-in schemas
/// carry the reserved marker instead of an origin path and are never
/// persisted.
pub struct Component {
    /// Where the schema was loaded from and is saved to.
    pub path: String,
    /// The reserved built-in marker: such a schema lives only in memory.
    pub builtin: bool,
    /// The fields, in serialization order.
    pub properties: Vec<(String, Property)>,
}

/// The fields as the contracts speak of them: name text and kind.
pub open spec fn props_view(ps: Seq<(String, Property)>) -> Seq<(Seq<char>, Property)> {
    Seq::new(ps.len(), |i: int| (ps[i].0@, ps[i].1))
}

/// No two fields share a name.
pub open spec fn unique_names(fs: Seq<(Seq<char>, Property)>) -> bool {
    forall|i: int, j: int| 0 <= i < j < fs.len() ==> (#[trigger] fs[i]).0 != (#[trigger] fs[j]).0
}

/// An instance of a schema on an object: field name to stored value text.
pub open spec fn inst_lookup(inst: Seq<(String, String)>, name: Seq<char>) -> Seq<char>
    decreases inst.len(),
{
    if inst.len() == 0 {
        Seq::empty()
    } else if inst[0].0@ == name {
        inst[0].1@
    } else {
        inst_lookup(inst.drop_first(), name)
    }
}

/// Whether any field of the given kind occurs.
pub open spec fn has_kind(fs: Seq<(Seq<char>, Property)>, p: Property) -> bool {
    exists|i: int| 0 <= i < fs.len() && (#[trigger] fs[i]).1 == p
}

/// The first position of a field of that name, if any.
pub open spec fn first_position(fs: Seq<(Seq<char>, Property)>, name: Seq<char>) -> Option<int>
    decreases fs.len(),
{
    if fs.len() == 0 {
        None
    } else if fs[0].0 == name {
        Some(0)
    } else {
        match first_position(fs.drop_first(), name) {
            Some(i) => Some(i + 1),
            _ => None,
        }
    }
}

/// The first position is where the scan that skips earlier non-matches
/// stops.
proof fn lemma_first_position_found(fs: Seq<(Seq<char>, Property)>, name: Seq<char>, i: int)
    requires
        0 <= i < fs.len(),
        fs[i].0 == name,
        forall|j: int| 0 <= j < i ==> (#[trigger] fs[j]).0 != name,
    ensures
        first_position(fs, name) == Some(i),
    decreases fs.len(),
{
    if i > 0 {
        lemma_first_position_found(fs.drop_first(), name, i - 1);
    }
}

/// Without a match there is no first position.
proof fn lemma_first_position_none(fs: Seq<(Seq<char>, Property)>, name: Seq<char>)
    requires
        forall|j: int| 0 <= j < fs.len() ==> (#[trigger] fs[j]).0 != name,
    ensures
        first_position(fs, name) is None,
    decreases fs.len(),
{
    if fs.len() > 0 {
        lemma_first_position_none(fs.drop_first(), name);
    }
}

impl Component {
    /// The fields as the contracts speak of them.
    pub open spec fn fields(self) -> Seq<(Seq<char>, Property)> {
        props_view(self.properties@)
    }

    /// Well-formed: no two fields share a name.
    pub open spec fn wf(self) -> bool {
        unique_names(self.fields())
    }

    /// An empty schema persisted at `path`.
    pub fn new(path: String) -> (r: Component)
        ensures
            r.path == path,
            !r.builtin,
            r.fields() =~= Seq::<(Seq<char>, Property)>::empty(),
            r.wf(),
    {
        Component { path, builtin: false, properties: Vec::new() }
    }

    /// The position of the first field of that name, if any.
    pub fn field_position(&self, name: &String) -> (r: Option<usize>)
        ensures
            match r {
                Some(i) => first_position(self.fields(), name@) == Some(i as int) && i
                    < self.fields().len() && self.fields()[i as int].0 == name@,
                _ => first_position(self.fields(), name@) is None && forall|i: int|
                    0 <= i < self.fields().len() ==> (#[trigger] self.fields()[i]).0 != name@,
            },
    {
        let mut i: usize = 0;
        while i < self.properties.len()
            invariant
                0 <= i <= self.properties@.len(),
                forall|j: int| 0 <= j < i ==> (#[trigger] self.fields()[j]).0 != name@,
            decreases self.properties@.len() - i,
        {
            if self.properties[i].0 == *name {
                proof {
                    lemma_first_position_found(self.fields(), name@, i as int);
                }
                return Some(i);
            }
            i = i + 1;
        }
        proof {
            lemma_first_position_none(self.fields(), name@);
        }
        None
    }

    /// Adds a field, with the insert semantics of an ordered mapping: an
    /// existing name keeps its position and takes the new kind, a new name
    /// is appended.
    pub fn add_field(&mut self, name: String, ty: Property)
        ensures
            match first_position(old(self).fields(), name@) {
                Some(i) => final(self).properties@ == old(self).properties@.update(
                    i,
                    (name, ty),
                ),
                _ => final(self).properties@ == old(self).properties@.push((name, ty)),
            },
            final(self).path == old(self).path,
            final(self).builtin == old(self).builtin,
            old(self).wf() ==> final(self).wf(),
    {
        let pos = self.field_position(&name);
        match pos {
            Some(i) => {
                self.properties.set(i, (name, ty));
                proof {
                    assert(final(self).fields() =~= old(self).fields().update(
                        i as int,
                        (name@, ty),
                    ));
                    if old(self).wf() {
                        assert forall|x: int, y: int|
                            0 <= x < y < final(self).fields().len() implies (
                        #[trigger] final(self).fields()[x]).0 != (
                        #[trigger] final(self).fields()[y]).0 by {
                            assert(old(self).fields()[x].0 != old(self).fields()[y].0);
                        }
                    }
                }
            },
            _ => {
                self.properties.push((name, ty));
                proof {
                    assert(final(self).fields() =~= old(self).fields().push((name@, ty)));
                    if old(self).wf() {
                        assert forall|x: int, y: int|
                            0 <= x < y < final(self).fields().len() implies (
                        #[trigger] final(self).fields()[x]).0 != (
                        #[trigger] final(self).fields()[y]).0 by {
                            if y < old(self).fields().len() {
                                assert(old(self).fields()[x].0 != old(self).fields()[y].0);
                            } else {
                                assert(old(self).fields()[x].0 != name@);
                            }
                        }
                    }
                }
            },
        }
    }

    /// Removes the first field of that name, keeping the order of the rest.
    pub fn remove_field(&mut self, name: &String) -> (r: bool)
        ensures
            final(self).path == old(self).path,
            final(self).builtin == old(self).builtin,
            old(self).wf() ==> final(self).wf(),
            match first_position(old(self).fields(), name@) {
                Some(i) => r && final(self).properties@ == old(self).properties@.remove(i),
                _ => !r && *final(self) == *old(self),
            },
    {
        let pos = self.field_position(name);
        match pos {
            Some(i) => {
                self.properties.remove(i);
                proof {
                    assert(final(self).fields() =~= old(self).fields().remove(i as int));
                    if old(self).wf() {
                        assert forall|x: int, y: int|
                            0 <= x < y < final(self).fields().len() implies (
                        #[trigger] final(self).fields()[x]).0 != (
                        #[trigger] final(self).fields()[y]).0 by {
                            let ox = if x < i { x } else { x + 1 };
                            let oy = if y < i { y } else { y + 1 };
                            assert(old(self).fields()[ox].0 != old(self).fields()[oy].0);
                        }
                    }
                }
                true
            },
            _ => false,
        }
    }

    /// Swaps two field positions; export byte order and editor display
    /// order follow.
    pub fn swap_fields(&mut self, i: usize, j: usize)
        requires
            i < old(self).fields().len(),
            j < old(self).fields().len(),
        ensures
            final(self).path == old(self).path,
            final(self).builtin == old(self).builtin,
            final(self).properties@ == old(self).properties@.update(
                i as int,
                old(self).properties@[j as int],
            ).update(j as int, old(self).properties@[i as int]),
            old(self).wf() ==> final(self).wf(),
    {
        let a = self.properties[i].0.clone();
        let ta = self.properties[i].1;
        let b = self.properties[j].0.clone();
        let tb = self.properties[j].1;
        self.properties.set(i, (b, tb));
        self.properties.set(j, (a, ta));
        proof {
            if old(self).wf() {
                assert forall|x: int, y: int|
                    0 <= x < y < final(self).fields().len() implies (
                #[trigger] final(self).fields()[x]).0 != (#[trigger] final(self).fields()[y]).0 by {
                    let ox = if x == i {
                        j as int
                    } else if x == j {
                        i as int
                    } else {
                        x
                    };
                    let oy = if y == i {
                        j as int
                    } else if y == j {
                        i as int
                    } else {
                        y
                    };
                    if ox < oy {
                        assert(old(self).fields()[ox].0 != old(self).fields()[oy].0);
                    } else if oy < ox {
                        assert(old(self).fields()[oy].0 != old(self).fields()[ox].0);
                    }
                }
            }
        }
    }

    /// Rebuilds an instance so it holds exactly this schema's fields in
    /// schema order: stale fields are dropped, missing ones default, and
    /// every value is repaired for its declared kind.  Must run before any
    /// use of an object's component data, since schemas change after
    /// objects were created.
    pub fn fix_instance(
        &self,
        instance: &mut Vec<(String, String)>,
        valid_atlases: &Vec<u128>,
        valid_maps: &Vec<u128>,
    )
        requires
            has_kind(self.fields(), Property::Atlas) ==> valid_atlases@.len() > 0,
            has_kind(self.fields(), Property::MapRef) ==> valid_maps@.len() > 0,
        ensures
            fixed_instance(
                self.fields(),
                old(instance)@,
                final(instance)@,
                valid_atlases@,
                valid_maps@,
            ),
            fixed_instance_ok(self.fields(), final(instance)@, valid_atlases@, valid_maps@),
    {
        let fixed = self.fixed_copy(instance, valid_atlases, valid_maps);
        *instance = fixed;
    }

    /// The repaired form of an instance, leaving the instance itself
    /// untouched: what `fix_instance` would store.
    pub fn fixed_copy(
        &self,
        instance: &Vec<(String, String)>,
        valid_atlases: &Vec<u128>,
        valid_maps: &Vec<u128>,
    ) -> (r: Vec<(String, String)>)
        requires
            has_kind(self.fields(), Property::Atlas) ==> valid_atlases@.len() > 0,
            has_kind(self.fields(), Property::MapRef) ==> valid_maps@.len() > 0,
        ensures
            fixed_instance(self.fields(), instance@, r@, valid_atlases@, valid_maps@),
            fixed_instance_ok(self.fields(), r@, valid_atlases@, valid_maps@),
    {
        let mut fixed: Vec<(String, String)> = Vec::new();
        let mut i: usize = 0;
        while i < self.properties.len()
            invariant
                0 <= i <= self.properties@.len(),
                has_kind(self.fields(), Property::Atlas) ==> valid_atlases@.len() > 0,
                has_kind(self.fields(), Property::MapRef) ==> valid_maps@.len() > 0,
                fixed@.len() == i,
                forall|j: int|
                    0 <= j < i ==> (#[trigger] fixed@[j]).0@ == self.fields()[j].0
                        && fixed@[j].1@ == spec_fix_value(
                        self.fields()[j].1,
                        inst_lookup(instance@, self.fields()[j].0),
                        valid_atlases@,
                        valid_maps@,
                    ),
                forall|j: int|
                    0 <= j < i ==> value_ok(
                        self.fields()[j].1,
                        (#[trigger] fixed@[j]).1@,
                        valid_atlases@,
                        valid_maps@,
                    ),
            decreases self.properties@.len() - i,
        {
            let name = self.properties[i].0.clone();
            let ty = self.properties[i].1;
            let stored = lookup_value(instance, &name);
            proof {
                assert(0 <= i < self.fields().len() && (#[trigger] self.fields()[i as int]).1
                    == ty);
            }
            let value = ty.fix_value(valid_atlases, valid_maps, stored.as_str());
            fixed.push((name, value));
            i = i + 1;
        }
        fixed
    }
}

/// What repair guarantees of one repaired value, by kind: integers parse
/// within range, floats have the valid literal shape, references denote a
/// member of the valid set.
pub open spec fn value_ok(
    ty: Property,
    v: Seq<char>,
    atlases: Seq<u128>,
    maps: Seq<u128>,
) -> bool {
    &&& ty.is_int() ==> crate::property::spec_parse_decimal(v, ty.spec_int_max()) is Some
    &&& ty is F32 ==> crate::property::float_shape(v)
    &&& ty is Atlas ==> crate::ids::parsed_id(v) is Some && atlases.contains(
        crate::ids::parsed_id(v)->0,
    )
    &&& ty is MapRef ==> crate::ids::parsed_id(v) is Some && maps.contains(
        crate::ids::parsed_id(v)->0,
    )
}

/// Every value of a repaired instance satisfies its kind's guarantee.
pub open spec fn fixed_instance_ok(
    fields: Seq<(Seq<char>, Property)>,
    after: Seq<(String, String)>,
    atlases: Seq<u128>,
    maps: Seq<u128>,
) -> bool {
    &&& after.len() == fields.len()
    &&& forall|j: int|
        0 <= j < fields.len() ==> value_ok(fields[j].1, (#[trigger] after[j]).1@, atlases, maps)
}

/// What `fix_instance` leaves behind: exactly the schema's fields in schema
/// order, each value repaired from what the old instance stored under that
/// name (or from empty text when nothing was stored).
pub open spec fn fixed_instance(
    fields: Seq<(Seq<char>, Property)>,
    before: Seq<(String, String)>,
    after: Seq<(String, String)>,
    atlases: Seq<u128>,
    maps: Seq<u128>,
) -> bool {
    &&& after.len() == fields.len()
    &&& forall|j: int|
        0 <= j < fields.len() ==> (#[trigger] after[j]).0@ == fields[j].0 && after[j].1@
            == spec_fix_value(fields[j].1, inst_lookup(before, fields[j].0), atlases, maps)
}

/// The stored value of a field, or empty text when nothing is stored.
pub fn lookup_value(inst: &Vec<(String, String)>, name: &String) -> (r: String)
    ensures
        r@ == inst_lookup(inst@, name@),
{
    let mut i: usize = 0;
    proof {
        assert(inst@.skip(0) =~= inst@);
    }
    while i < inst.len()
        invariant
            0 <= i <= inst@.len(),
            inst_lookup(inst@, name@) == inst_lookup(inst@.skip(i as int), name@),
        decreases inst@.len() - i,
    {
        proof {
            assert(inst@.skip(i as int).drop_first() =~= inst@.skip(i + 1));
            assert(inst@.skip(i as int)[0] == inst@[i as int]);
        }
        if inst[i].0 == *name {
            return inst[i].1.clone();
        }
        i = i + 1;
    }
    proof {
        assert(inst@.skip(inst@.len() as int) =~= Seq::<(String, String)>::empty());
    }
    String::new()
}

// ------------------------------------------------------------ persistence

/// The bytes of a field list: for each field a length-prefixed name and a
/// one-byte kind tag.
pub open spec fn enc_fields(fs: Seq<(Seq<char>, Property)>) -> Seq<u8>
    decreases fs.len(),
{
    if fs.len() == 0 {
        Seq::empty()
    } else {
        str32(fs[0].0) + seq![fs[0].1.spec_tag()] + enc_fields(fs.drop_first())
    }
}

/// The bytes of a schema record: a four-byte field count, then the fields.
pub open spec fn enc_component(fs: Seq<(Seq<char>, Property)>) -> Seq<u8> {
    le32(fs.len() as u32) + enc_fields(fs)
}

/// Whether a field list fits the record format.
pub open spec fn component_encodable(fs: Seq<(Seq<char>, Property)>) -> bool {
    &&& fs.len() <= u32::MAX
    &&& forall|i: int| 0 <= i < fs.len() ==> encode_utf8((#[trigger] fs[i]).0).len() <= u32::MAX
}

/// Reads `k` fields.
pub open spec fn rd_fields(b: Seq<u8>, p: int, k: nat) -> Option<
    (Seq<(Seq<char>, Property)>, int),
>
    decreases k,
{
    if k == 0 {
        Some((Seq::empty(), p))
    } else {
        match rd_str32(b, p) {
            Some((name, p1)) => match rd_u8(b, p1) {
                Some((t, p2)) => match Property::spec_from_tag(t) {
                    Some(ty) => match rd_fields(b, p2, (k - 1) as nat) {
                        Some((rest, p3)) => Some((seq![(name, ty)] + rest, p3)),
                        _ => None,
                    },
                    _ => None,
                },
                _ => None,
            },
            _ => None,
        }
    }
}

/// What a schema record decodes to: the fields, when the bytes are exactly
/// one well-formed record with no duplicate names.
pub open spec fn dec_component(b: Seq<u8>) -> Option<Seq<(Seq<char>, Property)>> {
    match rd_u32_le(b, 0) {
        Some((n, p)) => match rd_fields(b, p, n as nat) {
            Some((fs, q)) => {
                if q == b.len() && unique_names(fs) {
                    Some(fs)
                } else {
                    None
                }
            },
            _ => None,
        },
        _ => None,
    }
}

impl Component {
    /// Encodes the schema record; built-in schemas are never persisted and
    /// the caller must not ask.  Fails only when a field name exceeds the
    /// format's length prefix.
    pub fn encode(&self) -> (r: Result<Vec<u8>, AssetSaveError>)
        ensures
            r is Ok <==> component_encodable(self.fields()),
            r is Ok ==> r->Ok_0@ == enc_component(self.fields()),
            r is Ok && self.wf() ==> dec_component(r->Ok_0@) == Some(self.fields()),
    {
        if self.properties.len() as u64 > u32::MAX as u64 {
            return Err(AssetSaveError::TooLarge);
        }
        let mut out: Vec<u8> = Vec::new();
        push_u32_le(&mut out, self.properties.len() as u32);
        let ghost fs = self.fields();
        let mut i: usize = 0;
        proof {
            assert(enc_fields_take(fs, 0) =~= Seq::<u8>::empty());
            assert(out@ =~= le32(fs.len() as u32) + enc_fields_take(fs, 0));
        }
        while i < self.properties.len()
            invariant
                0 <= i <= self.properties@.len(),
                fs == self.fields(),
                fs.len() == self.properties@.len(),
                out@ == le32(fs.len() as u32) + enc_fields_take(fs, i as int),
                forall|j: int| 0 <= j < i ==> encode_utf8((#[trigger] fs[j]).0).len() <= u32::MAX,
            decreases self.properties@.len() - i,
        {
            if !str_fits32(&self.properties[i].0) {
                proof {
                    assert(encode_utf8(fs[i as int].0).len() > u32::MAX);
                }
                return Err(AssetSaveError::TooLarge);
            }
            push_str32(&mut out, &self.properties[i].0);
            push_u8(&mut out, self.properties[i].1.tag());
            proof {
                lemma_enc_fields_take_step(fs, i as int);
                assert(out@ =~= le32(fs.len() as u32) + enc_fields_take(fs, i + 1));
            }
            i = i + 1;
        }
        proof {
            lemma_enc_fields_take_all(fs);
            assert(out@ =~= enc_component(fs));
            if self.wf() {
                lemma_component_round_trip(fs);
            }
        }
        Ok(out)
    }

    /// Decodes a schema record persisted at `path`.
    pub fn decode(path: String, bytes: &Vec<u8>) -> (r: Result<Component, AssetLoadError>)
        ensures
            match r {
                Ok(c) => {
                    &&& dec_component(bytes@) == Some(c.fields())
                    &&& c.path == path
                    &&& !c.builtin
                    &&& c.wf()
                },
                Err(e) => dec_component(bytes@) is None && e == AssetLoadError::Malformed,
            },
    {
        let header = read_u32_le(bytes, 0);
        match header {
            Some((n, p0)) => {
                let mut props: Vec<(String, Property)> = Vec::new();
                let mut pos: usize = p0;
                let mut i: u32 = 0;
                proof {
                    match rd_fields(bytes@, p0 as int, n as nat) {
                        Some((rest, q)) => {
                            assert(props_view(props@) + rest =~= rest);
                        },
                        _ => {},
                    }
                }
                while i < n
                    invariant
                        0 <= i <= n,
                        props@.len() == i,
                        rd_u32_le(bytes@, 0) == Some((n, p0 as int)),
                        rd_fields(bytes@, p0 as int, n as nat) == (match rd_fields(
                            bytes@,
                            pos as int,
                            (n - i) as nat,
                        ) {
                            Some((rest, q)) => Some((props_view(props@) + rest, q)),
                            _ => None::<(Seq<(Seq<char>, Property)>, int)>,
                        }),
                    decreases n - i,
                {
                    let field = read_str32(bytes, pos);
                    match field {
                        Some((name, p1)) => {
                            let tag_byte = read_u8(bytes, p1);
                            match tag_byte {
                                Some((t, p2)) => {
                                    let ty = Property::from_tag(t);
                                    match ty {
                                        Some(ty) => {
                                            let ghost done = props@;
                                            let ghost f = (name@, ty);
                                            props.push((name, ty));
                                            proof {
                                                assert(props_view(props@) =~= props_view(
                                                    done,
                                                ).push(f));
                                                assert(rd_fields(bytes@, pos as int, (n - i) as nat)
                                                    == (match rd_fields(
                                                    bytes@,
                                                    p2 as int,
                                                    (n - i - 1) as nat,
                                                ) {
                                                    Some((rest, q)) => Some((seq![f] + rest, q)),
                                                    _ => None::<(Seq<(Seq<char>, Property)>, int)>,
                                                }));
                                                match rd_fields(
                                                    bytes@,
                                                    p2 as int,
                                                    (n - i - 1) as nat,
                                                ) {
                                                    Some((rest, q)) => {
                                                        assert(props_view(done) + (seq![f] + rest)
                                                            =~= props_view(props@) + rest);
                                                    },
                                                    _ => {},
                                                }
                                            }
                                            pos = p2;
                                        },
                                        _ => {
                                            proof {
                                                assert(rd_fields(bytes@, pos as int, (n - i) as nat)
                                                    is None);
                                            }
                                            return Err(AssetLoadError::Malformed);
                                        },
                                    }
                                },
                                _ => {
                                    proof {
                                        assert(rd_fields(bytes@, pos as int, (n - i) as nat)
                                            is None);
                                    }
                                    return Err(AssetLoadError::Malformed);
                                },
                            }
                        },
                        _ => {
                            proof {
                                assert(rd_fields(bytes@, pos as int, (n - i) as nat) is None);
                                assert(dec_component(bytes@) is None);
                            }
                            return Err(AssetLoadError::Malformed);
                        },
                    }
                    i = i + 1;
                }
                proof {
                    assert(rd_fields(bytes@, pos as int, 0nat) == Some(
                        (Seq::<(Seq<char>, Property)>::empty(), pos as int),
                    ));
                    assert(props_view(props@) + Seq::<(Seq<char>, Property)>::empty() =~= props_view(
                        props@,
                    ));
                }
                if pos != bytes.len() {
                    return Err(AssetLoadError::Malformed);
                }
                if !check_unique(&props) {
                    return Err(AssetLoadError::Malformed);
                }
                Ok(Component { path, builtin: false, properties: props })
            },
            _ => Err(AssetLoadError::Malformed),
        }
    }
}

/// Whether no two fields of the list share a name.
pub fn check_unique(props: &Vec<(String, Property)>) -> (r: bool)
    ensures
        r == unique_names(props_view(props@)),
{
    let mut i: usize = 0;
    while i < props.len()
        invariant
            0 <= i <= props@.len(),
            forall|x: int, y: int|
                0 <= x < y < i ==> (#[trigger] props_view(props@)[x]).0 != (#[trigger] props_view(
                    props@,
                )[y]).0,
        decreases props@.len() - i,
    {
        let mut j: usize = 0;
        while j < i
            invariant
                0 <= j <= i < props@.len(),
                forall|x: int|
                    0 <= x < j ==> (#[trigger] props_view(props@)[x]).0 != props_view(props@)[
                        i as int
                    ].0,
            decreases i - j,
        {
            if props[j].0 == props[i].0 {
                proof {
                    assert(props_view(props@)[j as int].0 == props_view(props@)[i as int].0);
                }
                return false;
            }
            j = j + 1;
        }
        i = i + 1;
    }
    true
}

/// The bytes of the first `i` fields.
pub open spec fn enc_fields_take(fs: Seq<(Seq<char>, Property)>, i: int) -> Seq<u8>
    decreases i,
{
    if i <= 0 {
        Seq::empty()
    } else {
        enc_fields_take(fs, i - 1) + str32(fs[i - 1].0) + seq![fs[i - 1].1.spec_tag()]
    }
}

proof fn lemma_enc_fields_take_step(fs: Seq<(Seq<char>, Property)>, i: int)
    requires
        0 <= i < fs.len(),
    ensures
        enc_fields_take(fs, i + 1) == enc_fields_take(fs, i) + str32(fs[i].0) + seq![
            fs[i].1.spec_tag(),
        ],
{
}

proof fn lemma_enc_fields_take_all(fs: Seq<(Seq<char>, Property)>)
    ensures
        enc_fields_take(fs, fs.len() as int) == enc_fields(fs),
    decreases fs.len(),
{
    if fs.len() == 0 {
        assert(enc_fields_take(fs, 0) =~= enc_fields(fs));
    } else {
        lemma_enc_fields_take_all(fs.drop_first());
        lemma_enc_fields_take_front(fs, fs.len() as int);
    }
}

/// Bytes of a prefix, counted from the front: the first field's bytes plus
/// the rest's prefix.
proof fn lemma_enc_fields_take_front(fs: Seq<(Seq<char>, Property)>, i: int)
    requires
        1 <= i <= fs.len(),
    ensures
        enc_fields_take(fs, i) == str32(fs[0].0) + seq![fs[0].1.spec_tag()] + enc_fields_take(
            fs.drop_first(),
            i - 1,
        ),
    decreases i,
{
    if i == 1 {
        assert(enc_fields_take(fs, 0) == Seq::<u8>::empty());
        assert(enc_fields_take(fs.drop_first(), 0) == Seq::<u8>::empty());
        assert(enc_fields_take(fs, 1) =~= str32(fs[0].0) + seq![fs[0].1.spec_tag()]
            + enc_fields_take(fs.drop_first(), 0));
    } else {
        lemma_enc_fields_take_front(fs, i - 1);
        assert(fs.drop_first()[i - 2] == fs[i - 1]);
        assert(enc_fields_take(fs, i) =~= str32(fs[0].0) + seq![fs[0].1.spec_tag()]
            + enc_fields_take(fs.drop_first(), i - 1));
    }
}

/// Reading a field list back from where it was written yields the written
/// fields.
pub proof fn lemma_rd_fields(pre: Seq<u8>, fs: Seq<(Seq<char>, Property)>, rest: Seq<u8>)
    requires
        component_encodable(fs),
    ensures
        rd_fields(pre + enc_fields(fs) + rest, pre.len() as int, fs.len()) == Some(
            (fs, pre.len() as int + enc_fields(fs).len()),
        ),
    decreases fs.len(),
{
    if fs.len() == 0 {
        assert(enc_fields(fs) =~= Seq::<u8>::empty());
        assert(Seq::empty() =~= fs);
    } else {
        let b = pre + enc_fields(fs) + rest;
        let name = fs[0].0;
        let tag = fs[0].1.spec_tag();
        let tail = enc_fields(fs.drop_first());
        assert(b =~= pre + str32(name) + (seq![tag] + tail + rest));
        crate::codec::lemma_rd_str32(pre, name, seq![tag] + tail + rest);
        let p1 = pre.len() as int + str32(name).len();
        assert(b[p1] == tag);
        assert(rd_u8(b, p1) == Some((tag, p1 + 1)));
        assert(Property::spec_from_tag(tag) == Some(fs[0].1)) by {
            crate::property::lemma_tag_round_trip(fs[0].1);
        }
        let pre2 = pre + str32(name) + seq![tag];
        assert(b =~= pre2 + tail + rest);
        assert(component_encodable(fs.drop_first())) by {
            assert(forall|i: int|
                0 <= i < fs.drop_first().len() ==> (#[trigger] fs.drop_first()[i]) == fs[i + 1]);
        }
        lemma_rd_fields(pre2, fs.drop_first(), rest);
        assert(p1 + 1 == pre2.len() as int);
        assert(seq![(name, fs[0].1)] + fs.drop_first() =~= fs);
        assert(enc_fields(fs).len() == str32(name).len() + 1 + tail.len());
    }
}

/// Decoding an encoded schema record yields the schema's fields back.
pub proof fn lemma_component_round_trip(fs: Seq<(Seq<char>, Property)>)
    requires
        component_encodable(fs),
        unique_names(fs),
    ensures
        dec_component(enc_component(fs)) == Some(fs),
{
    let b = enc_component(fs);
    let n = fs.len() as u32;
    assert(b =~= Seq::<u8>::empty() + le32(n) + (enc_fields(fs) + Seq::<u8>::empty()));
    crate::codec::lemma_rd_le32(Seq::empty(), n, enc_fields(fs) + Seq::empty());
    assert(rd_u32_le(b, 0) == Some((n, 4int)));
    let pre = le32(n);
    assert(b =~= pre + enc_fields(fs) + Seq::<u8>::empty());
    assert(pre.len() == 4);
    lemma_rd_fields(pre, fs, Seq::empty());
    assert(b.len() == 4 + enc_fields(fs).len());
}

} // verus!
