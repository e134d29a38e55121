//! The closed set of property kinds and the self-healing repair of stored
//! property values.
//!
//! Every property instance value is stored as text, whatever its declared
//! kind; `Property::fix_value` coerces arbitrary text into a valid value of
//! a given kind and is idempotent.

use vstd::prelude::*;

use crate::ids::{format_id, id_text, parse_id, parsed_id};

verus! {

/// The closed enumeration of property kinds.  `Atlas` and `MapRef` values
/// are foreign keys to an atlas or map identifier, stored in text form.
#[derive(Clone, Copy, PartialEq, Eq, Structural, Debug)]
pub enum Property {
    I8,
    U8,
    I16,
    U16,
    I32,
    U32,
    F32,
    String,
    Atlas,
    MapRef,
}

impl Property {
    /// The stable on-disk tag of each kind.  Reordering the enumeration in
    /// memory must never change this mapping.
    pub open spec fn spec_tag(self) -> u8 {
        match self {
            Property::I8 => 0,
            Property::U8 => 1,
            Property::I16 => 2,
            Property::U16 => 3,
            Property::I32 => 4,
            Property::U32 => 5,
            Property::F32 => 6,
            Property::String => 7,
            Property::Atlas => 8,
            Property::MapRef => 9,
        }
    }

    /// The kind a tag denotes, if any.
    pub open spec fn spec_from_tag(t: u8) -> Option<Property> {
        if t == 0 {
            Some(Property::I8)
        } else if t == 1 {
            Some(Property::U8)
        } else if t == 2 {
            Some(Property::I16)
        } else if t == 3 {
            Some(Property::U16)
        } else if t == 4 {
            Some(Property::I32)
        } else if t == 5 {
            Some(Property::U32)
        } else if t == 6 {
            Some(Property::F32)
        } else if t == 7 {
            Some(Property::String)
        } else if t == 8 {
            Some(Property::Atlas)
        } else if t == 9 {
            Some(Property::MapRef)
        } else {
            None
        }
    }

    /// The stable on-disk tag of this kind.
    pub fn tag(&self) -> (r: u8)
        ensures
            r == self.spec_tag(),
    {
        match self {
            Property::I8 => 0,
            Property::U8 => 1,
            Property::I16 => 2,
            Property::U16 => 3,
            Property::I32 => 4,
            Property::U32 => 5,
            Property::F32 => 6,
            Property::String => 7,
            Property::Atlas => 8,
            Property::MapRef => 9,
        }
    }

    /// The kind a tag denotes, if any.
    pub fn from_tag(t: u8) -> (r: Option<Property>)
        ensures
            r == Property::spec_from_tag(t),
    {
        if t == 0 {
            Some(Property::I8)
        } else if t == 1 {
            Some(Property::U8)
        } else if t == 2 {
            Some(Property::I16)
        } else if t == 3 {
            Some(Property::U16)
        } else if t == 4 {
            Some(Property::I32)
        } else if t == 5 {
            Some(Property::U32)
        } else if t == 6 {
            Some(Property::F32)
        } else if t == 7 {
            Some(Property::String)
        } else if t == 8 {
            Some(Property::Atlas)
        } else if t == 9 {
            Some(Property::MapRef)
        } else {
            None
        }
    }

    /// True of the fixed-width integer kinds.
    pub open spec fn is_int(self) -> bool {
        match self {
            Property::I8 | Property::U8 | Property::I16 | Property::U16 | Property::I32
                | Property::U32 => true,
            _ => false,
        }
    }

    /// The largest value an integer kind can store.  The repair step strips
    /// any sign character, so only 0 and upward can be represented.
    pub open spec fn spec_int_max(self) -> nat {
        match self {
            Property::I8 => 0x7f,
            Property::U8 => 0xff,
            Property::I16 => 0x7fff,
            Property::U16 => 0xffff,
            Property::I32 => 0x7fff_ffff,
            _ => 0xffff_ffff,
        }
    }
}

/// Tags round-trip: decoding the tag of any kind yields that kind back, so
/// persisted tags are stable however the enumeration is laid out in memory.
pub proof fn lemma_tag_round_trip(p: Property)
    ensures
        Property::spec_from_tag(p.spec_tag()) == Some(p),
{
}

// ---------------------------------------------------------------- digits

/// True of the ten decimal digit characters.
pub open spec fn is_digit(c: char) -> bool {
    48 <= c as u32 <= 57
}

/// The numeric value of a digit character.
pub open spec fn digit_val(c: char) -> nat {
    (c as u32 - 48) as nat
}

/// The digit character of a value below ten.
pub open spec fn digit_char(d: nat) -> char {
    ((48 + d) as u8) as char
}

/// The subsequence of decimal digits of a text.
pub open spec fn digits_of(s: Seq<char>) -> Seq<char>
    decreases s.len(),
{
    if s.len() == 0 {
        Seq::empty()
    } else if is_digit(s[0]) {
        seq![s[0]] + digits_of(s.drop_first())
    } else {
        digits_of(s.drop_first())
    }
}

/// The number a digit sequence denotes in decimal.
pub open spec fn digits_val(s: Seq<char>) -> nat
    decreases s.len(),
{
    if s.len() == 0 {
        0
    } else {
        digits_val(s.drop_last()) * 10 + digit_val(s.last())
    }
}

/// The canonical decimal rendering of a number: no sign, no leading zeros
/// except for zero itself.
pub open spec fn dec_str(v: nat) -> Seq<char>
    decreases v,
{
    if v < 10 {
        seq![digit_char(v)]
    } else {
        dec_str(v / 10).push(digit_char(v % 10))
    }
}

/// True when every character of `s` is a decimal digit.
pub open spec fn all_digits(s: Seq<char>) -> bool {
    forall|i: int| 0 <= i < s.len() ==> is_digit(#[trigger] s[i])
}

proof fn lemma_digits_of_all_digits(s: Seq<char>)
    requires
        all_digits(s),
    ensures
        digits_of(s) == s,
    decreases s.len(),
{
    if s.len() == 0 {
        assert(digits_of(s) =~= s);
    } else {
        lemma_digits_of_all_digits(s.drop_first());
        assert(digits_of(s) =~= s);
    }
}

proof fn lemma_dec_str_shape(v: nat)
    ensures
        dec_str(v).len() >= 1,
        all_digits(dec_str(v)),
    decreases v,
{
    if v >= 10 {
        lemma_dec_str_shape(v / 10);
        assert forall|i: int| 0 <= i < dec_str(v).len() implies is_digit(
            #[trigger] dec_str(v)[i],
        ) by {
            if i < dec_str(v / 10).len() {
                assert(dec_str(v)[i] == dec_str(v / 10)[i]);
            }
        }
    }
}

proof fn lemma_digits_val_push(s: Seq<char>, c: char)
    ensures
        digits_val(s.push(c)) == digits_val(s) * 10 + digit_val(c),
{
    assert(s.push(c).drop_last() =~= s);
    assert(s.push(c).last() == c);
}

proof fn lemma_digits_val_dec_str(v: nat)
    ensures
        digits_val(dec_str(v)) == v,
    decreases v,
{
    if v < 10 {
        assert(digits_val(dec_str(v)) == digits_val(Seq::<char>::empty()) * 10 + v) by {
            assert(dec_str(v).drop_last() =~= Seq::<char>::empty());
        }
    } else {
        lemma_digits_val_dec_str(v / 10);
        lemma_digits_val_push(dec_str(v / 10), digit_char(v % 10));
        assert(digit_val(digit_char(v % 10)) == v % 10);
        assert(digits_val(dec_str(v)) == (v / 10) * 10 + v % 10);
        assert((v / 10) * 10 + v % 10 == v) by (nonlinear_arith);
    }
}

/// A digit sequence denotes a number below ten to the power of its length;
/// stated here in the stepwise form the parser needs: a longer prefix never
/// denotes a smaller number.
proof fn lemma_digits_val_prefix_le(s: Seq<char>, i: int)
    requires
        0 <= i <= s.len(),
    ensures
        digits_val(s.take(i)) <= digits_val(s),
    decreases s.len() - i,
{
    if i < s.len() {
        lemma_digits_val_push(s.take(i), s[i]);
        assert(s.take(i + 1) =~= s.take(i).push(s[i]));
        assert(digits_val(s.take(i)) * 10 >= digits_val(s.take(i)));
        lemma_digits_val_prefix_le(s, i + 1);
    } else {
        assert(s.take(i) =~= s);
    }
}

// ------------------------------------------------------------- repair spec

/// Integer repair: keep the decimal digits; no digits, or a value beyond
/// `max`, defaults to zero; otherwise the canonical rendering of the value.
pub open spec fn spec_fix_int(max: nat, s: Seq<char>) -> Seq<char> {
    let d = digits_of(s);
    if d.len() == 0 {
        seq!['0']
    } else if digits_val(d) <= max {
        dec_str(digits_val(d))
    } else {
        seq!['0']
    }
}

/// The characters a float repair keeps: decimal digits, and the first
/// decimal point when `seen_dot` is still false.
pub open spec fn float_keep(s: Seq<char>, seen_dot: bool) -> Seq<char>
    decreases s.len(),
{
    if s.len() == 0 {
        Seq::empty()
    } else if is_digit(s[0]) {
        seq![s[0]] + float_keep(s.drop_first(), seen_dot)
    } else if s[0] == '.' && !seen_dot {
        seq![s[0]] + float_keep(s.drop_first(), true)
    } else {
        float_keep(s.drop_first(), seen_dot)
    }
}

/// Float repair: strip to digits plus a single decimal point, collapsing
/// any extra points; a result without digits defaults to zero.
pub open spec fn spec_fix_float(s: Seq<char>) -> Seq<char> {
    let k = float_keep(s, false);
    if digits_of(k).len() == 0 {
        seq!['0']
    } else {
        k
    }
}

/// The number of decimal points in a text.
pub open spec fn dot_count(s: Seq<char>) -> nat
    decreases s.len(),
{
    if s.len() == 0 {
        0
    } else if s[0] == '.' {
        1 + dot_count(s.drop_first())
    } else {
        dot_count(s.drop_first())
    }
}

/// The shape every repaired float value has: only digits and points, at
/// most one point, at least one digit.  Any such text is a valid decimal
/// float literal.
pub open spec fn float_shape(s: Seq<char>) -> bool {
    &&& forall|i: int| 0 <= i < s.len() ==> (is_digit(#[trigger] s[i]) || s[i] == '.')
    &&& dot_count(s) <= 1
    &&& digits_of(s).len() >= 1
}

/// Reference repair: text that denotes a member of the valid set is kept;
/// anything else becomes the canonical text of the set's first member.
pub open spec fn spec_fix_ref(s: Seq<char>, ids: Seq<u128>) -> Seq<char> {
    if parsed_id(s) is Some && ids.contains(parsed_id(s)->0) {
        s
    } else {
        id_text(ids[0])
    }
}

/// What `Property::fix_value` returns, for every kind.
pub open spec fn spec_fix_value(
    p: Property,
    s: Seq<char>,
    atlases: Seq<u128>,
    maps: Seq<u128>,
) -> Seq<char> {
    match p {
        Property::F32 => spec_fix_float(s),
        Property::String => s,
        Property::Atlas => spec_fix_ref(s, atlases),
        Property::MapRef => spec_fix_ref(s, maps),
        _ => spec_fix_int(p.spec_int_max(), s),
    }
}

// ------------------------------------------------------- repair lemmas

proof fn lemma_float_keep_all_digits(s: Seq<char>, seen: bool)
    requires
        all_digits(s),
    ensures
        float_keep(s, seen) == s,
    decreases s.len(),
{
    if s.len() == 0 {
        assert(float_keep(s, seen) =~= s);
    } else {
        lemma_float_keep_all_digits(s.drop_first(), seen);
        assert(float_keep(s, seen) =~= s);
    }
}

proof fn lemma_float_keep_of_shaped(s: Seq<char>, seen: bool)
    requires
        forall|i: int| 0 <= i < s.len() ==> (is_digit(#[trigger] s[i]) || s[i] == '.'),
        seen ==> dot_count(s) == 0,
        !seen ==> dot_count(s) <= 1,
    ensures
        float_keep(s, seen) == s,
    decreases s.len(),
{
    if s.len() == 0 {
        assert(float_keep(s, seen) =~= s);
    } else if is_digit(s[0]) {
        lemma_float_keep_of_shaped(s.drop_first(), seen);
        assert(float_keep(s, seen) =~= s);
    } else {
        assert(s[0] == '.');
        assert(!seen);
        lemma_float_keep_of_shaped(s.drop_first(), true);
        assert(float_keep(s, seen) =~= s);
    }
}

proof fn lemma_float_keep_shape(s: Seq<char>, seen: bool)
    ensures
        forall|i: int|
            0 <= i < float_keep(s, seen).len() ==> (is_digit(#[trigger] float_keep(s, seen)[i])
                || float_keep(s, seen)[i] == '.'),
        dot_count(float_keep(s, seen)) + (if seen {
            1nat
        } else {
            0nat
        }) <= 1,
        digits_of(float_keep(s, seen)) == digits_of(s),
    decreases s.len(),
{
    if s.len() == 0 {
    } else if is_digit(s[0]) {
        lemma_float_keep_shape(s.drop_first(), seen);
        let k = float_keep(s, seen);
        let k1 = float_keep(s.drop_first(), seen);
        assert(k == seq![s[0]] + k1);
        assert(k.drop_first() =~= k1);
        assert(dot_count(k) == dot_count(k1));
        assert(digits_of(k) =~= seq![s[0]] + digits_of(k1));
        assert(digits_of(s) =~= seq![s[0]] + digits_of(s.drop_first()));
    } else if s[0] == '.' && !seen {
        lemma_float_keep_shape(s.drop_first(), true);
        let k = float_keep(s, seen);
        let k1 = float_keep(s.drop_first(), true);
        assert(k == seq![s[0]] + k1);
        assert(k.drop_first() =~= k1);
        assert(dot_count(k) == 1 + dot_count(k1));
        assert(digits_of(k) =~= digits_of(k1));
    } else {
        lemma_float_keep_shape(s.drop_first(), seen);
    }
}

/// Integer repair is idempotent and always yields a parseable value.
proof fn lemma_fix_int_fix(max: nat, s: Seq<char>)
    ensures
        spec_fix_int(max, spec_fix_int(max, s)) == spec_fix_int(max, s),
        all_digits(spec_fix_int(max, s)),
        spec_fix_int(max, s).len() >= 1,
        digits_val(spec_fix_int(max, s)) <= max,
{
    let r = spec_fix_int(max, s);
    let d = digits_of(s);
    assert(is_digit('0') && digit_val('0') == 0);
    if d.len() == 0 || digits_val(d) > max {
        assert(r =~= seq!['0']);
        assert(r.drop_last() =~= Seq::<char>::empty());
        assert(digits_val(Seq::<char>::empty()) == 0);
        assert(r.last() == '0');
        assert(digits_val(r) == 0);
        lemma_digits_of_all_digits(r);
        assert(digits_of(r).len() == 1);
        assert(dec_str(0) =~= seq!['0']);
    } else {
        let v = digits_val(d);
        assert(r == dec_str(v));
        lemma_dec_str_shape(v);
        lemma_digits_of_all_digits(r);
        lemma_digits_val_dec_str(v);
    }
}

/// Float repair is idempotent and always yields a valid float literal.
proof fn lemma_fix_float_fix(s: Seq<char>)
    ensures
        spec_fix_float(spec_fix_float(s)) == spec_fix_float(s),
        float_shape(spec_fix_float(s)),
{
    let k = float_keep(s, false);
    let r = spec_fix_float(s);
    lemma_float_keep_shape(s, false);
    assert(is_digit('0') && digit_val('0') == 0);
    if digits_of(k).len() == 0 {
        assert(r =~= seq!['0']);
        assert(all_digits(r));
        lemma_digits_of_all_digits(r);
        lemma_float_keep_all_digits(r, false);
        assert(dot_count(r) == 0) by {
            assert(r.drop_first() =~= Seq::<char>::empty());
            assert(dot_count(Seq::<char>::empty()) == 0);
            assert(r[0] == '0');
        }
    } else {
        assert(r == k);
        lemma_float_keep_of_shaped(k, false);
        lemma_float_keep_shape(k, false);
    }
}

// --------------------------------------------------------------- exec

/// Appends the digit character of `d`.
fn push_digit(out: &mut String, d: u8)
    requires
        d < 10,
    ensures
        final(out)@ == old(out)@ + seq![digit_char(d as nat)],
{
    proof {
        reveal_strlit("0");
        reveal_strlit("1");
        reveal_strlit("2");
        reveal_strlit("3");
        reveal_strlit("4");
        reveal_strlit("5");
        reveal_strlit("6");
        reveal_strlit("7");
        reveal_strlit("8");
        reveal_strlit("9");
    }
    match d {
        0 => out.append("0"),
        1 => out.append("1"),
        2 => out.append("2"),
        3 => out.append("3"),
        4 => out.append("4"),
        5 => out.append("5"),
        6 => out.append("6"),
        7 => out.append("7"),
        8 => out.append("8"),
        _ => out.append("9"),
    }
}

/// Appends the canonical decimal rendering of `v`.
fn push_dec_u64(out: &mut String, v: u64)
    ensures
        final(out)@ == old(out)@ + dec_str(v as nat),
    decreases v,
{
    if v < 10 {
        push_digit(out, v as u8);
    } else {
        push_dec_u64(out, v / 10);
        push_digit(out, (v % 10) as u8);
    }
}

/// Whether `ids` holds `x`.
pub fn ids_contain(ids: &Vec<u128>, x: u128) -> (r: bool)
    ensures
        r == ids@.contains(x),
{
    let mut i: usize = 0;
    while i < ids.len()
        invariant
            0 <= i <= ids@.len(),
            forall|j: int| 0 <= j < i ==> ids@[j] != x,
        decreases ids@.len() - i,
    {
        if ids[i] == x {
            return true;
        }
        i = i + 1;
    }
    false
}

/// Parses a text as an unsigned decimal number of at most `max`: every
/// character must be a digit, at least one digit must be present, and the
/// denoted value must not exceed `max`.
pub open spec fn spec_parse_decimal(s: Seq<char>, max: nat) -> Option<u64> {
    if s.len() >= 1 && all_digits(s) && digits_val(s) <= max {
        Some(digits_val(s) as u64)
    } else {
        None
    }
}

/// Decimal parser for repaired integer values.
pub fn parse_decimal(s: &str, max: u64) -> (r: Option<u64>)
    requires
        max <= 0xffff_ffff,
    ensures
        r == spec_parse_decimal(s@, max as nat),
{
    let n = s.unicode_len();
    if n == 0 {
        return None;
    }
    let mut acc: u64 = 0;
    let mut i: usize = 0;
    while i < n
        invariant
            0 <= i <= n,
            n == s@.len(),
            max <= 0xffff_ffff,
            all_digits(s@.take(i as int)),
            acc == digits_val(s@.take(i as int)),
            acc <= max,
        decreases n - i,
    {
        let c = s.get_char(i);
        let u = c as u32;
        if u < 48 || u > 57 {
            return None;
        }
        let d = (u - 48) as u64;
        proof {
            lemma_digits_val_push(s@.take(i as int), s@[i as int]);
            assert(s@.take(i + 1) =~= s@.take(i as int).push(s@[i as int]));
        }
        acc = acc * 10 + d;
        if acc > max {
            proof {
                lemma_digits_val_prefix_le(s@, i + 1);
            }
            return None;
        }
        i = i + 1;
    }
    proof {
        assert(s@.take(n as int) =~= s@);
    }
    Some(acc)
}

impl Property {
    /// Coerces arbitrary text into a valid value of this kind, §4.2 of the
    /// data model: integers strip to digits and default to zero, floats
    /// strip to digits and one point, strings pass unchanged, references
    /// are kept when they denote a member of the valid set and otherwise
    /// become the set's first member.  The repair is idempotent, repaired
    /// integers always parse, and repaired references always denote a
    /// member of the valid set.
    pub fn fix_value(
        &self,
        valid_atlases: &Vec<u128>,
        valid_maps: &Vec<u128>,
        value: &str,
    ) -> (r: String)
        requires
            *self is Atlas ==> valid_atlases@.len() > 0,
            *self is MapRef ==> valid_maps@.len() > 0,
        ensures
            r@ == spec_fix_value(*self, value@, valid_atlases@, valid_maps@),
            spec_fix_value(*self, r@, valid_atlases@, valid_maps@) == r@,
            self.is_int() ==> spec_parse_decimal(r@, self.spec_int_max()) is Some,
            *self is F32 ==> float_shape(r@),
            *self is Atlas ==> parsed_id(r@) is Some && valid_atlases@.contains(parsed_id(r@)->0),
            *self is MapRef ==> parsed_id(r@) is Some && valid_maps@.contains(parsed_id(r@)->0),
    {
        match self {
            Property::String => String::from_str(value),
            Property::Atlas => fix_ref(valid_atlases, value),
            Property::MapRef => fix_ref(valid_maps, value),
            Property::F32 => {
                let r = fix_float(value);
                proof {
                    lemma_fix_float_fix(value@);
                }
                r
            },
            _ => {
                let max: u64 = match self {
                    Property::I8 => 0x7f,
                    Property::U8 => 0xff,
                    Property::I16 => 0x7fff,
                    Property::U16 => 0xffff,
                    Property::I32 => 0x7fff_ffff,
                    _ => 0xffff_ffff,
                };
                let r = fix_int(max, value);
                proof {
                    lemma_fix_int_fix(max as nat, value@);
                }
                r
            },
        }
    }
}

/// Integer repair, computing `spec_fix_int`.
fn fix_int(max: u64, value: &str) -> (r: String)
    requires
        max <= 0xffff_ffff,
    ensures
        r@ == spec_fix_int(max as nat, value@),
{
    let n = value.unicode_len();
    let mut i: usize = 0;
    let ghost mut dseq: Seq<char> = Seq::empty();
    let mut acc: u64 = 0;
    let mut overflow: bool = false;
    let mut any: bool = false;
    proof {
        assert(value@.skip(0) =~= value@);
        assert(dseq + digits_of(value@.skip(0)) =~= digits_of(value@));
    }
    while i < n
        invariant
            0 <= i <= n,
            n == value@.len(),
            max <= 0xffff_ffff,
            digits_of(value@) == dseq + digits_of(value@.skip(i as int)),
            all_digits(dseq),
            any == (dseq.len() > 0),
            !overflow ==> acc == digits_val(dseq) && acc <= max,
            overflow ==> digits_val(dseq) > max,
        decreases n - i,
    {
        let c = value.get_char(i);
        let u = c as u32;
        proof {
            assert(value@.skip(i as int).drop_first() =~= value@.skip(i + 1));
            assert(value@.skip(i as int)[0] == value@[i as int]);
        }
        if 48 <= u && u <= 57 {
            let d = (u - 48) as u64;
            proof {
                lemma_digits_val_push(dseq, value@[i as int]);
                assert(digits_of(value@.skip(i as int)) == seq![value@[i as int]] + digits_of(
                    value@.skip(i + 1),
                ));
                assert(dseq + digits_of(value@.skip(i as int)) =~= dseq.push(value@[i as int])
                    + digits_of(value@.skip(i + 1)));
            }
            if !overflow {
                acc = acc * 10 + d;
                if acc > max {
                    overflow = true;
                }
            } else {
                proof {
                    assert(digits_val(dseq.push(value@[i as int])) >= digits_val(dseq));
                }
            }
            proof {
                dseq = dseq.push(value@[i as int]);
            }
            any = true;
        }
        i = i + 1;
    }
    proof {
        assert(value@.skip(n as int) =~= Seq::<char>::empty());
        assert(dseq + digits_of(value@.skip(n as int)) =~= dseq);
        assert(digits_of(value@) == dseq);
    }
    let mut out = String::new();
    if !any || overflow {
        push_digit(&mut out, 0);
        proof {
            assert(out@ =~= seq!['0']);
            assert(digit_char(0) == '0');
        }
    } else {
        push_dec_u64(&mut out, acc);
        proof {
            assert(out@ =~= dec_str(acc as nat));
        }
    }
    out
}

/// Appends a kept float character: a digit or the decimal point.
fn push_float_char(out: &mut String, u: u32)
    requires
        (48 <= u <= 57) || u == 46,
    ensures
        final(out)@ == old(out)@ + seq![u as char],
{
    if u == 46 {
        proof {
            reveal_strlit(".");
        }
        out.append(".");
    } else {
        push_digit(out, (u - 48) as u8);
        proof {
            assert(digit_char((u - 48) as nat) == u as char);
        }
    }
}

/// Float repair, computing `spec_fix_float`.
fn fix_float(value: &str) -> (r: String)
    ensures
        r@ == spec_fix_float(value@),
{
    let n = value.unicode_len();
    let mut out = String::new();
    let mut seen_dot: bool = false;
    let mut any_digit: bool = false;
    let ghost mut demitted: Seq<char> = Seq::empty();
    let mut i: usize = 0;
    proof {
        assert(value@.skip(0) =~= value@);
        assert(out@ + float_keep(value@.skip(0), seen_dot) =~= float_keep(value@, false));
    }
    while i < n
        invariant
            0 <= i <= n,
            n == value@.len(),
            float_keep(value@, false) == out@ + float_keep(value@.skip(i as int), seen_dot),
            digits_of(out@) == demitted,
            any_digit == (demitted.len() > 0),
        decreases n - i,
    {
        let c = value.get_char(i);
        let u = c as u32;
        proof {
            assert(value@.skip(i as int).drop_first() =~= value@.skip(i + 1));
            assert(value@.skip(i as int)[0] == value@[i as int]);
        }
        if 48 <= u && u <= 57 {
            let ghost pre = out@;
            push_float_char(&mut out, u);
            any_digit = true;
            proof {
                assert(u as char == c);
                assert(out@ =~= pre.push(value@[i as int]));
                lemma_digits_of_snoc(pre, value@[i as int]);
                demitted = demitted.push(value@[i as int]);
                assert(out@ + float_keep(value@.skip(i + 1), seen_dot) =~= float_keep(
                    value@,
                    false,
                ));
            }
        } else if u == 46 && !seen_dot {
            let ghost pre = out@;
            push_float_char(&mut out, u);
            seen_dot = true;
            proof {
                assert(u as char == c);
                assert(value@[i as int] == '.');
                assert(!is_digit('.'));
                assert(out@ =~= pre.push(value@[i as int]));
                lemma_digits_of_snoc(pre, value@[i as int]);
                assert(out@ + float_keep(value@.skip(i + 1), true) =~= float_keep(value@, false));
            }
        } else {
            proof {
                if u == 46 {
                    assert(value@[i as int] == '.');
                }
            }
        }
        i = i + 1;
    }
    proof {
        assert(value@.skip(n as int) =~= Seq::<char>::empty());
        assert(out@ + float_keep(value@.skip(n as int), seen_dot) =~= out@);
        assert(float_keep(value@, false) == out@);
    }
    if !any_digit {
        let mut zero = String::new();
        push_digit(&mut zero, 0);
        proof {
            assert(zero@ =~= seq!['0']);
            assert(digit_char(0) == '0');
        }
        zero
    } else {
        out
    }
}

/// The digits of a text extended by one character.
proof fn lemma_digits_of_snoc(s: Seq<char>, c: char)
    ensures
        is_digit(c) ==> digits_of(s.push(c)) == digits_of(s).push(c),
        !is_digit(c) ==> digits_of(s.push(c)) == digits_of(s),
    decreases s.len(),
{
    if s.len() == 0 {
        assert(s.push(c)[0] == c);
        assert(s.push(c).drop_first() =~= Seq::<char>::empty());
        assert(s =~= Seq::<char>::empty());
        assert(digits_of(Seq::<char>::empty()) == Seq::<char>::empty());
        if is_digit(c) {
            assert(digits_of(s.push(c)) =~= digits_of(s).push(c));
        } else {
            assert(digits_of(s.push(c)) =~= digits_of(s));
        }
    } else {
        lemma_digits_of_snoc(s.drop_first(), c);
        assert(s.push(c).drop_first() =~= s.drop_first().push(c));
        assert(s.push(c)[0] == s[0]);
        if is_digit(s[0]) {
            if is_digit(c) {
                assert(digits_of(s.push(c)) =~= digits_of(s).push(c));
            } else {
                assert(digits_of(s.push(c)) =~= digits_of(s));
            }
        } else {
            if is_digit(c) {
                assert(digits_of(s.push(c)) =~= digits_of(s).push(c));
            } else {
                assert(digits_of(s.push(c)) =~= digits_of(s));
            }
        }
    }
}

/// Reference repair, computing `spec_fix_ref`.
fn fix_ref(ids: &Vec<u128>, value: &str) -> (r: String)
    requires
        ids@.len() > 0,
    ensures
        r@ == spec_fix_ref(value@, ids@),
        spec_fix_ref(r@, ids@) == r@,
        parsed_id(r@) is Some && ids@.contains(parsed_id(r@)->0),
{
    let parsed = parse_id(value);
    let keep = match parsed {
        Some(n) => ids_contain(ids, n),
        _ => false,
    };
    if keep {
        String::from_str(value)
    } else {
        let r = format_id(ids[0]);
        proof {
            assert(ids@.contains(ids@[0]));
        }
        r
    }
}

} // verus!
