//! The asset registry: owns every atlas, map and component schema, keyed
//! by stable identifier; keeps the path-to-identifier cache that makes
//! identifiers stable across reloads; and persists the three index files.
//!
//! An index file is plain text: one line per asset, the identifier in its
//! canonical 36-character form, one space, and the asset's relative path.

use vstd::prelude::*;

use crate::atlas::Atlas;
use crate::errors::{AssetSaveError, ProjectLoadError};
use crate::ids::{format_id, id_text, parse_id, parsed_id, is_id_char, ATLAS_RENDERER_UUID,
    SERIALIZE_UUID};
use crate::keyed::{has_key, key_pos, store_key, unique_keys};
use crate::property::Property;
use crate::schema::Component;
use crate::tilemap::TileMap;
use crate::views::{AtlasView, ComponentView, NewMap};

verus! {

// --------------------------------------------------------- index format

/// Index entries as the contracts speak of them: identifier and path text.
pub open spec fn es_view(v: Seq<(u128, String)>) -> Seq<(u128, Seq<char>)> {
    Seq::new(v.len(), |i: int| (v[i].0, v[i].1@))
}

/// No newline occurs in the text.
pub open spec fn no_newline(s: Seq<char>) -> bool {
    forall|i: int| 0 <= i < s.len() ==> (#[trigger] s[i]) != '\n'
}

/// Whether the text has no newline.
pub fn has_no_newline(s: &String) -> (r: bool)
    ensures
        r == no_newline(s@),
{
    let t = s.as_str();
    let n = t.unicode_len();
    let mut i: usize = 0;
    while i < n
        invariant
            0 <= i <= n,
            n == s@.len(),
            t@ == s@,
            forall|j: int| 0 <= j < i ==> (#[trigger] s@[j]) != '\n',
        decreases n - i,
    {
        let c = t.get_char(i);
        if c as u32 == 10 {
            proof {
                assert(s@[i as int] == '\n');
            }
            return false;
        }
        i = i + 1;
    }
    true
}

/// The line an index entry writes: canonical identifier, a space, the
/// path, a newline.
pub open spec fn entry_chars(e: (u128, Seq<char>)) -> Seq<char> {
    id_text(e.0) + seq![' '] + e.1 + seq!['\n']
}

/// The text of an index: one line per entry.
pub open spec fn spec_encode_index(es: Seq<(u128, Seq<char>)>) -> Seq<char>
    decreases es.len(),
{
    if es.len() == 0 {
        Seq::empty()
    } else {
        entry_chars(es[0]) + spec_encode_index(es.drop_first())
    }
}

/// The text of the first `i` entries.
pub open spec fn enc_index_take(es: Seq<(u128, Seq<char>)>, i: int) -> Seq<char>
    decreases i,
{
    if i <= 0 {
        Seq::empty()
    } else {
        enc_index_take(es, i - 1) + entry_chars(es[i - 1])
    }
}

proof fn lemma_enc_index_take_front(es: Seq<(u128, Seq<char>)>, i: int)
    requires
        1 <= i <= es.len(),
    ensures
        enc_index_take(es, i) == entry_chars(es[0]) + enc_index_take(es.drop_first(), i - 1),
    decreases i,
{
    if i == 1 {
        assert(enc_index_take(es, 0) == Seq::<char>::empty());
        assert(enc_index_take(es.drop_first(), 0) == Seq::<char>::empty());
        assert(enc_index_take(es, 1) =~= entry_chars(es[0]) + enc_index_take(
            es.drop_first(),
            0,
        ));
    } else {
        lemma_enc_index_take_front(es, i - 1);
        assert(es.drop_first()[i - 2] == es[i - 1]);
        assert(enc_index_take(es, i) =~= entry_chars(es[0]) + enc_index_take(
            es.drop_first(),
            i - 1,
        ));
    }
}

proof fn lemma_enc_index_take_all(es: Seq<(u128, Seq<char>)>)
    ensures
        enc_index_take(es, es.len() as int) == spec_encode_index(es),
    decreases es.len(),
{
    if es.len() == 0 {
        assert(enc_index_take(es, 0) =~= spec_encode_index(es));
    } else {
        lemma_enc_index_take_all(es.drop_first());
        lemma_enc_index_take_front(es, es.len() as int);
    }
}

/// The position of the first newline, if any.
pub open spec fn first_newline(s: Seq<char>) -> Option<int>
    decreases s.len(),
{
    if s.len() == 0 {
        None
    } else if s[0] == '\n' {
        Some(0)
    } else {
        match first_newline(s.drop_first()) {
            Some(i) => Some(i + 1),
            _ => None,
        }
    }
}

proof fn lemma_first_newline_found(s: Seq<char>, k: int)
    requires
        0 <= k < s.len(),
        s[k] == '\n',
        forall|j: int| 0 <= j < k ==> (#[trigger] s[j]) != '\n',
    ensures
        first_newline(s) == Some(k),
    decreases s.len(),
{
    if k > 0 {
        lemma_first_newline_found(s.drop_first(), k - 1);
    }
}

proof fn lemma_first_newline_none(s: Seq<char>)
    requires
        no_newline(s),
    ensures
        first_newline(s) is None,
    decreases s.len(),
{
    if s.len() > 0 {
        lemma_first_newline_none(s.drop_first());
    }
}

/// What an index text decodes to: the entries, when the text is exactly a
/// sequence of well-formed lines.
pub open spec fn spec_decode_index(s: Seq<char>) -> Option<Seq<(u128, Seq<char>)>>
    decreases s.len(),
{
    if s.len() == 0 {
        Some(Seq::empty())
    } else {
        match first_newline(s) {
            Some(k) => {
                let line = s.take(k);
                if 0 <= k < s.len() && line.len() >= 37 && line[36] == ' ' && parsed_id(
                    line.take(36),
                ) is Some {
                    match spec_decode_index(s.skip(k + 1)) {
                        Some(rest) => Some(
                            seq![(parsed_id(line.take(36))->0, line.skip(37))] + rest,
                        ),
                        _ => None,
                    }
                } else {
                    None
                }
            },
            _ => None,
        }
    }
}

/// The facts the trusted identifier formatter guarantees of one
/// identifier's canonical text.
pub open spec fn id_ok(n: u128) -> bool {
    &&& id_text(n).len() == 36
    &&& forall|i: int| 0 <= i < 36 ==> is_id_char(#[trigger] id_text(n)[i])
    &&& parsed_id(id_text(n)) == Some(n)
}

/// Decoding an encoded index yields the entries back, given what the
/// identifier formatter guarantees and newline-free paths.
proof fn lemma_index_round_trip(es: Seq<(u128, Seq<char>)>)
    requires
        forall|i: int| 0 <= i < es.len() ==> id_ok((#[trigger] es[i]).0),
        forall|i: int| 0 <= i < es.len() ==> no_newline((#[trigger] es[i]).1),
    ensures
        spec_decode_index(spec_encode_index(es)) == Some(es),
    decreases es.len(),
{
    if es.len() == 0 {
    } else {
        let e = es[0];
        let s = spec_encode_index(es);
        let line = id_text(e.0) + seq![' '] + e.1;
        let k = line.len() as int;
        assert(s =~= line + seq!['\n'] + spec_encode_index(es.drop_first()));
        assert(s[k] == '\n');
        assert forall|j: int| 0 <= j < k implies (#[trigger] s[j]) != '\n' by {
            assert(s[j] == line[j]);
            if j < 36 {
                assert(line[j] == id_text(e.0)[j]);
                assert(is_id_char(id_text(e.0)[j]));
                assert('\n' as u32 == 10);
            } else if j == 36 {
                assert(line[j] == ' ');
            } else {
                assert(line[j] == e.1[j - 37]);
            }
        }
        lemma_first_newline_found(s, k);
        assert(s.take(k) =~= line);
        assert(line.take(36) =~= id_text(e.0));
        assert(line.skip(37) =~= e.1);
        assert(s.skip(k + 1) =~= spec_encode_index(es.drop_first()));
        assert(forall|i: int|
            0 <= i < es.drop_first().len() ==> (#[trigger] es.drop_first()[i]) == es[i + 1]);
        lemma_index_round_trip(es.drop_first());
        assert(seq![(e.0, e.1)] + es.drop_first() =~= es);
        assert(s.len() > 0) by {
            assert(s[k] == '\n');
        }
    }
}

/// Encodes an index: one line per entry.  Fails exactly when some path
/// contains a newline, which the line format cannot carry.  What this
/// writes, `decode_index` reads back unchanged: identifiers are stable
/// across a save and a reload.
pub fn encode_index(entries: &Vec<(u128, String)>) -> (r: Result<String, AssetSaveError>)
    ensures
        r is Ok <==> (forall|i: int|
            0 <= i < entries@.len() ==> no_newline((#[trigger] entries@[i]).1@)),
        r is Ok ==> r->Ok_0@ == spec_encode_index(es_view(entries@)),
        r is Ok ==> spec_decode_index(r->Ok_0@) == Some(es_view(entries@)),
{
    let mut i: usize = 0;
    while i < entries.len()
        invariant
            0 <= i <= entries@.len(),
            forall|j: int| 0 <= j < i ==> no_newline((#[trigger] entries@[j]).1@),
        decreases entries@.len() - i,
    {
        if !has_no_newline(&entries[i].1) {
            return Err(AssetSaveError::TooLarge);
        }
        i = i + 1;
    }
    let ghost es = es_view(entries@);
    let mut out = String::new();
    let mut k: usize = 0;
    proof {
        assert(out@ =~= enc_index_take(es, 0));
    }
    while k < entries.len()
        invariant
            0 <= k <= entries@.len(),
            es == es_view(entries@),
            es.len() == entries@.len(),
            forall|j: int| 0 <= j < entries@.len() ==> no_newline((#[trigger] entries@[j]).1@),
            out@ == enc_index_take(es, k as int),
            forall|j: int| 0 <= j < k ==> id_ok((#[trigger] es[j]).0),
        decreases entries@.len() - k,
    {
        let idt = format_id(entries[k].0);
        out.append(idt.as_str());
        out.append(" ");
        out.append(entries[k].1.as_str());
        out.append("\n");
        proof {
            reveal_strlit(" ");
            reveal_strlit("\n");
            assert(" "@ =~= seq![' ']);
            assert("\n"@ =~= seq!['\n']);
            assert(out@ =~= enc_index_take(es, k as int) + entry_chars(es[k as int]));
            assert(out@ =~= enc_index_take(es, k + 1));
        }
        k = k + 1;
    }
    proof {
        lemma_enc_index_take_all(es);
        assert forall|j: int| 0 <= j < es.len() implies no_newline((#[trigger] es[j]).1) by {
            assert(es[j].1 == entries@[j].1@);
        }
        lemma_index_round_trip(es);
    }
    Ok(out)
}

/// Decodes an index text.
pub fn decode_index(text: &str) -> (r: Result<Vec<(u128, String)>, ProjectLoadError>)
    ensures
        match r {
            Ok(v) => spec_decode_index(text@) == Some(es_view(v@)),
            Err(e) => spec_decode_index(text@) is None && e == ProjectLoadError::Malformed,
        },
{
    let n = text.unicode_len();
    let mut out: Vec<(u128, String)> = Vec::new();
    let mut i: usize = 0;
    proof {
        assert(text@.skip(0) =~= text@);
        match spec_decode_index(text@) {
            Some(rest) => {
                assert(es_view(out@) + rest =~= rest);
            },
            _ => {},
        }
    }
    while i < n
        invariant
            0 <= i <= n,
            n == text@.len(),
            spec_decode_index(text@) == (match spec_decode_index(text@.skip(i as int)) {
                Some(rest) => Some(es_view(out@) + rest),
                _ => None::<Seq<(u128, Seq<char>)>>,
            }),
        decreases n - i,
    {
        let mut k: usize = i;
        let mut found: bool = false;
        while k < n && !found
            invariant
                i <= k <= n,
                n == text@.len(),
                forall|j: int| i <= j < k ==> (#[trigger] text@[j]) != '\n',
                found ==> k < n && text@[k as int] == '\n',
            decreases n - k, (if found { 0int } else { 1int }),
        {
            let c = text.get_char(k);
            if c as u32 == 10 {
                proof {
                    assert(text@[k as int] == '\n');
                }
                found = true;
            } else {
                k = k + 1;
            }
        }
        let ghost suffix = text@.skip(i as int);
        if !found {
            proof {
                assert forall|j: int| 0 <= j < suffix.len() implies (#[trigger] suffix[j])
                    != '\n' by {
                    assert(suffix[j] == text@[i + j]);
                }
                lemma_first_newline_none(suffix);
                assert(suffix.len() > 0);
            }
            return Err(ProjectLoadError::Malformed);
        }
        proof {
            assert(text@[k as int] == '\n');
            assert(suffix[k - i] == text@[k as int]);
            assert forall|j: int| 0 <= j < k - i implies (#[trigger] suffix[j]) != '\n' by {
                assert(suffix[j] == text@[i + j]);
            }
            lemma_first_newline_found(suffix, k - i);
            assert(suffix.len() > 0);
        }
        let ghost line = suffix.take(k - i);
        proof {
            assert forall|j: int| 0 <= j < line.len() implies (#[trigger] line[j]) == text@[
                i + j
            ] by {
                assert(line[j] == suffix[j]);
            }
        }
        if k - i < 37 {
            return Err(ProjectLoadError::Malformed);
        }
        let space = text.get_char(i + 36);
        if space as u32 != 32 {
            proof {
                assert(line[36] == text@[i + 36]);
                assert(text@[i + 36] != ' ');
            }
            return Err(ProjectLoadError::Malformed);
        }
        proof {
            assert(line[36] == text@[i + 36]);
            assert(text@[i + 36] == ' ');
        }
        let id_str = text.substring_char(i, i + 36);
        let parsed = parse_id(id_str);
        proof {
            assert(id_str@ =~= line.take(36));
        }
        match parsed {
            Some(id) => {
                let path_str = text.substring_char(i + 37, k);
                let path = String::from_str(path_str);
                proof {
                    assert(path@ =~= line.skip(37));
                }
                let ghost done = out@;
                out.push((id, path));
                proof {
                    assert(es_view(out@) =~= es_view(done).push((id, path@)));
                    assert(suffix.skip(k - i + 1) =~= text@.skip(k + 1));
                    match spec_decode_index(text@.skip(k + 1)) {
                        Some(rest) => {
                            assert(es_view(done) + (seq![(id, path@)] + rest) =~= es_view(out@)
                                + rest);
                        },
                        _ => {},
                    }
                }
                i = k + 1;
            },
            _ => {
                return Err(ProjectLoadError::Malformed);
            },
        }
    }
    proof {
        assert(text@.skip(n as int) =~= Seq::<char>::empty());
        assert(es_view(out@) + Seq::<(u128, Seq<char>)>::empty() =~= es_view(out@));
    }
    Ok(out)
}

// ------------------------------------------------------------- registry

/// The position of the first cache entry with that path.
pub open spec fn path_pos(s: Seq<(String, u128)>, path: Seq<char>) -> Option<int>
    decreases s.len(),
{
    if s.len() == 0 {
        None
    } else if s[0].0@ == path {
        Some(0)
    } else {
        match path_pos(s.drop_first(), path) {
            Some(i) => Some(i + 1),
            _ => None,
        }
    }
}

proof fn lemma_path_pos_found(s: Seq<(String, u128)>, path: Seq<char>, i: int)
    requires
        0 <= i < s.len(),
        s[i].0@ == path,
        forall|j: int| 0 <= j < i ==> (#[trigger] s[j]).0@ != path,
    ensures
        path_pos(s, path) == Some(i),
    decreases s.len(),
{
    if i > 0 {
        lemma_path_pos_found(s.drop_first(), path, i - 1);
    }
}

proof fn lemma_path_pos_none(s: Seq<(String, u128)>, path: Seq<char>)
    requires
        forall|j: int| 0 <= j < s.len() ==> (#[trigger] s[j]).0@ != path,
    ensures
        path_pos(s, path) is None,
    decreases s.len(),
{
    if s.len() > 0 {
        lemma_path_pos_none(s.drop_first(), path);
    }
}

/// The registry: every asset of the open project, the path cache, and
/// transient selection and export state.
pub struct Assets {
    /// The project root directory.
    pub path: String,
    /// Where the content browser currently stands.
    pub content_viewer_path: String,
    /// The "new map" form, while open.
    pub new_map: Option<NewMap>,
    /// The "new component" form, while open.
    pub new_component_name: Option<String>,
    /// Selection state; pan and zoom live with the rendering layer.
    pub atlas_selected: Option<AtlasView>,
    pub map_selected: Option<u128>,
    pub object_selected: Option<u128>,
    pub component_selected: Option<ComponentView>,
    /// The identity cache: a path once loaded keeps its identifier.
    pub uuids: Vec<(String, u128)>,
    pub atlases: Vec<(u128, Atlas)>,
    pub maps: Vec<(u128, TileMap)>,
    pub components: Vec<(u128, Component)>,
    /// Transient, rebuilt by every export: atlas identifier to export
    /// position.
    pub atlas_indices: Vec<(u128, u16)>,
}

/// Whether a map's atlas is present among the given atlases.
pub open spec fn keep_pred(atlases: Seq<(u128, Atlas)>) -> spec_fn((u128, TileMap)) -> bool {
    |e: (u128, TileMap)| has_key(atlases, e.1.atlas)
}

/// Whether a map's atlas is gone.
pub open spec fn drop_pred(atlases: Seq<(u128, Atlas)>) -> spec_fn((u128, TileMap)) -> bool {
    |e: (u128, TileMap)| !has_key(atlases, e.1.atlas)
}

/// A map entry reduced to its identifier and path.
pub open spec fn prune_entry() -> spec_fn((u128, TileMap)) -> (u128, String) {
    |e: (u128, TileMap)| (e.0, e.1.path)
}

impl Assets {
    /// An empty registry over a project root, with the two built-in
    /// schemas already present.
    pub fn new(path: String) -> (r: Assets)
        ensures
            r.path@ == path@,
            r.content_viewer_path@ == path@,
            r.uuids@.len() == 0,
            r.atlases@.len() == 0,
            r.maps@.len() == 0,
            builtins_present(r.components@),
            r.components@.len() == 2,
    {
        let root = path.clone();
        let mut r = Assets {
            path,
            content_viewer_path: root,
            new_map: None,
            new_component_name: None,
            atlas_selected: None,
            map_selected: None,
            object_selected: None,
            component_selected: None,
            uuids: Vec::new(),
            atlases: Vec::new(),
            maps: Vec::new(),
            components: Vec::new(),
            atlas_indices: Vec::new(),
        };
        r.install_builtins();
        r
    }

    /// Injects the two built-in schemas: they are always present and never
    /// persisted, whatever was loaded.
    pub fn install_builtins(&mut self)
        ensures
            builtins_present(final(self).components@),
            old(self).components@.len() == 0 ==> final(self).components@.len() == 2,
            final(self).path == old(self).path,
            final(self).content_viewer_path == old(self).content_viewer_path,
            final(self).atlases == old(self).atlases,
            final(self).maps == old(self).maps,
            final(self).uuids == old(self).uuids,
    {
        let mut renderer_fields: Vec<(String, Property)> = Vec::new();
        renderer_fields.push((String::from_str("Atlas"), Property::Atlas));
        let renderer = Component {
            path: String::from_str("/builtin/0 - AtlasRenderer"),
            builtin: true,
            properties: renderer_fields,
        };
        let ghost rend = renderer;
        proof {
            assert(rend.fields().len() == 1);
            assert(rend.fields()[0].0 == "Atlas"@);
            assert(rend.fields()[0].1 == Property::Atlas);
        }
        store_key(&mut self.components, ATLAS_RENDERER_UUID, renderer);
        let ghost mid = self.components@;
        let marker = Component {
            path: String::from_str("/builtin/1 - Serialize"),
            builtin: true,
            properties: Vec::new(),
        };
        let ghost mark = marker;
        store_key(&mut self.components, SERIALIZE_UUID, marker);
        proof {
            assert(ATLAS_RENDERER_UUID != SERIALIZE_UUID);
            assert(crate::keyed::key_lookup(mid, ATLAS_RENDERER_UUID) == Some(rend));
            assert(crate::keyed::key_lookup(final(self).components@, ATLAS_RENDERER_UUID)
                == Some(rend));
            assert(crate::keyed::key_lookup(final(self).components@, SERIALIZE_UUID) == Some(
                mark,
            ));
            if old(self).components@.len() == 0 {
                assert(crate::keyed::key_pos(old(self).components@, ATLAS_RENDERER_UUID)
                    is None);
                assert(mid =~= old(self).components@.push((ATLAS_RENDERER_UUID, rend)));
                crate::keyed::lemma_key_pos_push(
                    old(self).components@,
                    (ATLAS_RENDERER_UUID, rend),
                    SERIALIZE_UUID,
                );
                assert(crate::keyed::key_pos(mid, SERIALIZE_UUID) is None);
            }
        }
    }

    /// The identifier the cache holds for a path, if any: a file loaded
    /// before keeps the identifier it got then.
    pub fn cached_id(&self, path: &String) -> (r: Option<u128>)
        ensures
            match r {
                Some(id) => path_pos(self.uuids@, path@) is Some && self.uuids@[path_pos(
                    self.uuids@,
                    path@,
                )->0].1 == id,
                _ => path_pos(self.uuids@, path@) is None,
            },
    {
        let mut i: usize = 0;
        while i < self.uuids.len()
            invariant
                0 <= i <= self.uuids@.len(),
                forall|j: int| 0 <= j < i ==> (#[trigger] self.uuids@[j]).0@ != path@,
            decreases self.uuids@.len() - i,
        {
            if self.uuids[i].0 == *path {
                proof {
                    lemma_path_pos_found(self.uuids@, path@, i as int);
                }
                return Some(self.uuids[i].1);
            }
            i = i + 1;
        }
        proof {
            lemma_path_pos_none(self.uuids@, path@);
        }
        None
    }

    /// Remembers the identifier a path was assigned.
    pub fn remember_path(&mut self, path: String, id: u128)
        ensures
            final(self).uuids@ == old(self).uuids@.push((path, id)),
            final(self).path == old(self).path,
            final(self).atlases == old(self).atlases,
            final(self).maps == old(self).maps,
            final(self).components == old(self).components,
    {
        self.uuids.push((path, id));
    }

    /// Registers an atlas under its identifier and caches its path.
    pub fn register_atlas(&mut self, id: u128, atlas: Atlas)
        ensures
            match key_pos(old(self).atlases@, id) {
                Some(i) => final(self).atlases@ == old(self).atlases@.update(
                    i,
                    (id, atlas),
                ),
                _ => final(self).atlases@ == old(self).atlases@.push((id, atlas)),
            },
            final(self).uuids@ == old(self).uuids@.push((atlas.path, id)),
            final(self).maps == old(self).maps,
            final(self).components == old(self).components,
            final(self).path == old(self).path,
    {
        let path = atlas.path.clone();
        proof {
            assert(path@ == atlas.path@);
        }
        store_key(&mut self.atlases, id, atlas);
        self.uuids.push((path, id));
    }

    /// Registers a map under its identifier and caches its path.
    pub fn register_map(&mut self, id: u128, map: TileMap)
        ensures
            match key_pos(old(self).maps@, id) {
                Some(i) => final(self).maps@ == old(self).maps@.update(i, (id, map)),
                _ => final(self).maps@ == old(self).maps@.push((id, map)),
            },
            final(self).uuids@ == old(self).uuids@.push((map.path, id)),
            final(self).atlases == old(self).atlases,
            final(self).components == old(self).components,
            final(self).path == old(self).path,
    {
        let path = map.path.clone();
        proof {
            assert(path@ == map.path@);
        }
        store_key(&mut self.maps, id, map);
        self.uuids.push((path, id));
    }

    /// Registers a component schema under its identifier and caches its
    /// path.
    pub fn register_component(&mut self, id: u128, component: Component)
        ensures
            match key_pos(old(self).components@, id) {
                Some(i) => final(self).components@ == old(self).components@.update(
                    i,
                    (id, component),
                ),
                _ => final(self).components@ == old(self).components@.push((id, component)),
            },
            final(self).uuids@ == old(self).uuids@.push((component.path, id)),
            final(self).atlases == old(self).atlases,
            final(self).maps == old(self).maps,
            final(self).path == old(self).path,
    {
        let path = component.path.clone();
        proof {
            assert(path@ == component.path@);
        }
        store_key(&mut self.components, id, component);
        self.uuids.push((path, id));
    }

    /// Removes every map whose referenced atlas is gone and returns their
    /// identifiers and paths, in order.  The caller deletes the backing
    /// files and reports the loss: this self-healing is destructive and
    /// must not happen silently.
    pub fn prune_orphan_maps(&mut self) -> (r: Vec<(u128, String)>)
        ensures
            final(self).maps@ == old(self).maps@.filter(keep_pred(old(self).atlases@)),
            r@ == old(self).maps@.filter(drop_pred(old(self).atlases@)).map_values(prune_entry()),
            final(self).atlases == old(self).atlases,
            final(self).components == old(self).components,
            final(self).uuids == old(self).uuids,
            final(self).path == old(self).path,
    {
        let ghost keep = keep_pred(old(self).atlases@);
        let ghost dropp = drop_pred(old(self).atlases@);
        let mut pending: Vec<(u128, TileMap)> = Vec::new();
        core::mem::swap(&mut self.maps, &mut pending);
        let mut removed: Vec<(u128, String)> = Vec::new();
        let ghost mut seen: Seq<(u128, TileMap)> = Seq::empty();
        proof {
            reveal(Seq::filter);
            assert(seen.filter(keep) =~= self.maps@);
            assert(seen.filter(dropp).map_values(prune_entry()) =~= removed@);
        }
        while pending.len() > 0
            invariant
                old(self).maps@ == seen + pending@,
                self.maps@ == seen.filter(keep),
                removed@ == seen.filter(dropp).map_values(prune_entry()),
                self.atlases == old(self).atlases,
                self.components == old(self).components,
                self.uuids == old(self).uuids,
                self.path == old(self).path,
                self.content_viewer_path == old(self).content_viewer_path,
                self.new_map == old(self).new_map,
                self.new_component_name == old(self).new_component_name,
                self.atlas_selected == old(self).atlas_selected,
                self.map_selected == old(self).map_selected,
                self.object_selected == old(self).object_selected,
                self.component_selected == old(self).component_selected,
                self.atlas_indices == old(self).atlas_indices,
                keep == keep_pred(old(self).atlases@),
                dropp == drop_pred(old(self).atlases@),
            decreases pending@.len(),
        {
            let ghost pend_old = pending@;
            let ghost seen_old = seen;
            let entry = pending.remove(0);
            let ghost e = pend_old[0];
            let present = crate::keyed::find_key(&self.atlases, entry.1.atlas);
            proof {
                seen = seen_old.push(e);
                assert(pending@ =~= pend_old.drop_first());
                assert(old(self).maps@ =~= seen + pending@);
                assert(seen.drop_last() =~= seen_old);
                assert(seen.last() == e);
            }
            match present {
                Some(_) => {
                    self.maps.push(entry);
                    proof {
                        reveal(Seq::filter);
                        assert(keep(e));
                        assert(seen.filter(keep) =~= seen_old.filter(keep).push(e));
                        assert(self.maps@ =~= seen.filter(keep));
                        assert(seen.filter(dropp) =~= seen_old.filter(dropp));
                        assert(removed@ =~= seen.filter(dropp).map_values(prune_entry()));
                    }
                },
                _ => {
                    removed.push((entry.0, entry.1.path));
                    proof {
                        reveal(Seq::filter);
                        assert(dropp(e));
                        assert(seen.filter(keep) =~= seen_old.filter(keep));
                        assert(self.maps@ =~= seen.filter(keep));
                        assert(seen.filter(dropp) =~= seen_old.filter(dropp).push(e));
                        assert(removed@ =~= seen.filter(dropp).map_values(prune_entry()));
                    }
                },
            }
        }
        proof {
            assert(seen =~= old(self).maps@);
        }
        removed
    }

    /// The index entries of the atlas collection: identifier and path, in
    /// registry order.
    pub fn atlas_index_entries(&self) -> (r: Vec<(u128, String)>)
        ensures
            r@.len() == self.atlases@.len(),
            forall|i: int|
                0 <= i < r@.len() ==> (#[trigger] r@[i]).0 == self.atlases@[i].0 && r@[i].1@
                    == self.atlases@[i].1.path@,
    {
        let mut out: Vec<(u128, String)> = Vec::new();
        let mut i: usize = 0;
        while i < self.atlases.len()
            invariant
                0 <= i <= self.atlases@.len(),
                out@.len() == i,
                forall|j: int|
                    0 <= j < i ==> (#[trigger] out@[j]).0 == self.atlases@[j].0 && out@[j].1@
                        == self.atlases@[j].1.path@,
            decreases self.atlases@.len() - i,
        {
            out.push((self.atlases[i].0, self.atlases[i].1.path.clone()));
            i = i + 1;
        }
        out
    }

    /// The index entries of the map collection.
    pub fn map_index_entries(&self) -> (r: Vec<(u128, String)>)
        ensures
            r@.len() == self.maps@.len(),
            forall|i: int|
                0 <= i < r@.len() ==> (#[trigger] r@[i]).0 == self.maps@[i].0 && r@[i].1@
                    == self.maps@[i].1.path@,
    {
        let mut out: Vec<(u128, String)> = Vec::new();
        let mut i: usize = 0;
        while i < self.maps.len()
            invariant
                0 <= i <= self.maps@.len(),
                out@.len() == i,
                forall|j: int|
                    0 <= j < i ==> (#[trigger] out@[j]).0 == self.maps@[j].0 && out@[j].1@
                        == self.maps@[j].1.path@,
            decreases self.maps@.len() - i,
        {
            out.push((self.maps[i].0, self.maps[i].1.path.clone()));
            i = i + 1;
        }
        out
    }

    /// The index entries of the component collection, excluding the
    /// built-in schemas, which are never persisted.
    pub fn component_index_entries(&self) -> (r: Vec<(u128, String)>)
        ensures
            es_view(r@) == component_entries(self.components@),
    {
        let mut out: Vec<(u128, String)> = Vec::new();
        let mut i: usize = 0;
        proof {
            assert(component_entries(self.components@.take(0)) =~= es_view(out@));
        }
        while i < self.components.len()
            invariant
                0 <= i <= self.components@.len(),
                es_view(out@) == component_entries(self.components@.take(i as int)),
            decreases self.components@.len() - i,
        {
            let ghost done = out@;
            if !self.components[i].1.builtin {
                out.push((self.components[i].0, self.components[i].1.path.clone()));
                proof {
                    assert(es_view(out@) =~= es_view(done).push(
                        (self.components@[i as int].0, self.components@[i as int].1.path@),
                    ));
                }
            }
            proof {
                assert(self.components@.take(i + 1) =~= self.components@.take(i as int).push(
                    self.components@[i as int],
                ));
                lemma_component_entries_snoc(
                    self.components@.take(i as int),
                    self.components@[i as int],
                );
                assert(es_view(out@) =~= component_entries(self.components@.take(i + 1)));
            }
            i = i + 1;
        }
        proof {
            assert(self.components@.take(self.components@.len() as int) =~= self.components@);
        }
        out
    }
}

/// The two built-in schemas stand in the collection: the atlas renderer
/// with its single `Atlas` field, and the zero-field marker.
pub open spec fn builtins_present(cs: Seq<(u128, Component)>) -> bool {
    &&& has_key(cs, ATLAS_RENDERER_UUID)
    &&& has_key(cs, SERIALIZE_UUID)
    &&& {
        let rend = crate::keyed::key_lookup(cs, ATLAS_RENDERER_UUID)->0;
        &&& rend.builtin
        &&& rend.fields().len() == 1
        &&& rend.fields()[0].0 == "Atlas"@
        &&& rend.fields()[0].1 == Property::Atlas
    }
    &&& {
        let mark = crate::keyed::key_lookup(cs, SERIALIZE_UUID)->0;
        &&& mark.builtin
        &&& mark.fields().len() == 0
    }
}

/// The persisted index entries of a component collection: identifier and
/// path of every non-built-in schema, in order.
pub open spec fn component_entries(cs: Seq<(u128, Component)>) -> Seq<(u128, Seq<char>)>
    decreases cs.len(),
{
    if cs.len() == 0 {
        Seq::empty()
    } else if cs.last().1.builtin {
        component_entries(cs.drop_last())
    } else {
        component_entries(cs.drop_last()).push((cs.last().0, cs.last().1.path@))
    }
}

proof fn lemma_component_entries_snoc(cs: Seq<(u128, Component)>, e: (u128, Component))
    ensures
        !e.1.builtin ==> component_entries(cs.push(e)) == component_entries(cs).push(
            (e.0, e.1.path@),
        ),
        e.1.builtin ==> component_entries(cs.push(e)) == component_entries(cs),
{
    assert(cs.push(e).drop_last() =~= cs);
    assert(cs.push(e).last() == e);
}

} // verus!
