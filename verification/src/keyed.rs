//! Association lists keyed by identifier: the registry's collections and a
//! map's object set are lists of `(identifier, value)` pairs looked up by
//! their first occurrence of a key.

use vstd::prelude::*;

verus! {

/// The first position of the entry with that key, if any.
pub open spec fn key_pos<T>(s: Seq<(u128, T)>, id: u128) -> Option<int>
    decreases s.len(),
{
    if s.len() == 0 {
        None
    } else if s[0].0 == id {
        Some(0)
    } else {
        match key_pos(s.drop_first(), id) {
            Some(i) => Some(i + 1),
            _ => None,
        }
    }
}

/// The value stored under a key, if any.
pub open spec fn key_lookup<T>(s: Seq<(u128, T)>, id: u128) -> Option<T> {
    match key_pos(s, id) {
        Some(i) => Some(s[i].1),
        _ => None,
    }
}

/// Whether some entry has that key.
pub open spec fn has_key<T>(s: Seq<(u128, T)>, id: u128) -> bool {
    key_pos(s, id) is Some
}

/// Keys are unique.
pub open spec fn unique_keys<T>(s: Seq<(u128, T)>) -> bool {
    forall|i: int, j: int| 0 <= i < j < s.len() ==> (#[trigger] s[i]).0 != (#[trigger] s[j]).0
}

pub proof fn lemma_key_pos_found<T>(s: Seq<(u128, T)>, id: u128, i: int)
    requires
        0 <= i < s.len(),
        s[i].0 == id,
        forall|j: int| 0 <= j < i ==> (#[trigger] s[j]).0 != id,
    ensures
        key_pos(s, id) == Some(i),
    decreases s.len(),
{
    if i > 0 {
        lemma_key_pos_found(s.drop_first(), id, i - 1);
    }
}

pub proof fn lemma_key_pos_none<T>(s: Seq<(u128, T)>, id: u128)
    requires
        forall|j: int| 0 <= j < s.len() ==> (#[trigger] s[j]).0 != id,
    ensures
        key_pos(s, id) is None,
    decreases s.len(),
{
    if s.len() > 0 {
        lemma_key_pos_none(s.drop_first(), id);
    }
}

/// A found position carries its key and is the first with it.
pub proof fn lemma_key_pos_valid<T>(s: Seq<(u128, T)>, id: u128)
    ensures
        match key_pos(s, id) {
            Some(i) => 0 <= i < s.len() && s[i].0 == id && forall|j: int|
                0 <= j < i ==> (#[trigger] s[j]).0 != id,
            _ => forall|j: int| 0 <= j < s.len() ==> (#[trigger] s[j]).0 != id,
        },
    decreases s.len(),
{
    if s.len() > 0 {
        lemma_key_pos_valid(s.drop_first(), id);
        match key_pos(s, id) {
            Some(i) => {
                if i > 0 {
                    assert(s.drop_first()[i - 1] == s[i]);
                    assert forall|j: int| 0 <= j < i implies (#[trigger] s[j]).0 != id by {
                        if j > 0 {
                            assert(s.drop_first()[j - 1] == s[j]);
                        }
                    }
                }
            },
            _ => {
                assert forall|j: int| 0 <= j < s.len() implies (#[trigger] s[j]).0 != id by {
                    if j > 0 {
                        assert(s.drop_first()[j - 1] == s[j]);
                    }
                }
            },
        }
    }
}

/// How appending one entry moves the first position of a key.
pub proof fn lemma_key_pos_push<T>(s: Seq<(u128, T)>, x: (u128, T), id: u128)
    ensures
        key_pos(s.push(x), id) == (match key_pos(s, id) {
            Some(i) => Some(i),
            _ => if x.0 == id {
                Some(s.len() as int)
            } else {
                None::<int>
            },
        }),
    decreases s.len(),
{
    if s.len() == 0 {
        assert(s.push(x)[0] == x);
        assert(s.push(x).drop_first() =~= Seq::<(u128, T)>::empty());
        assert(key_pos(Seq::<(u128, T)>::empty(), id) is None);
        if x.0 == id {
            assert(key_pos(s.push(x), id) == Some(0int));
        } else {
            assert(key_pos(s.push(x), id) is None);
        }
    } else {
        lemma_key_pos_push(s.drop_first(), x, id);
        assert(s.push(x).drop_first() =~= s.drop_first().push(x));
        assert(s.push(x)[0] == s[0]);
        if s[0].0 == id {
            assert(key_pos(s.push(x), id) == Some(0int));
            assert(key_pos(s, id) == Some(0int));
        } else {
            assert(key_pos(s.push(x).drop_first(), id) == key_pos(s.drop_first().push(x), id));
            assert(s.drop_first().len() == s.len() - 1);
        }
    }
}

/// The first position of a key depends on the keys alone.
pub proof fn lemma_key_pos_same_keys<T>(s1: Seq<(u128, T)>, s2: Seq<(u128, T)>, id: u128)
    requires
        s1.len() == s2.len(),
        forall|i: int| 0 <= i < s1.len() ==> (#[trigger] s1[i]).0 == (#[trigger] s2[i]).0,
    ensures
        key_pos(s1, id) == key_pos(s2, id),
    decreases s1.len(),
{
    if s1.len() > 0 {
        assert forall|i: int|
            0 <= i < s1.drop_first().len() implies (#[trigger] s1.drop_first()[i]).0 == (
        #[trigger] s2.drop_first()[i]).0 by {
            assert(s1.drop_first()[i] == s1[i + 1]);
            assert(s2.drop_first()[i] == s2[i + 1]);
        }
        lemma_key_pos_same_keys(s1.drop_first(), s2.drop_first(), id);
    }
}

/// The position of the first entry with that key.
pub fn find_key<T>(s: &Vec<(u128, T)>, id: u128) -> (r: Option<usize>)
    ensures
        match r {
            Some(i) => key_pos(s@, id) == Some(i as int) && i < s@.len() && s@[i as int].0 == id,
            _ => key_pos(s@, id) is None,
        },
{
    let mut i: usize = 0;
    while i < s.len()
        invariant
            0 <= i <= s@.len(),
            forall|j: int| 0 <= j < i ==> (#[trigger] s@[j]).0 != id,
        decreases s@.len() - i,
    {
        if s[i].0 == id {
            proof {
                lemma_key_pos_found(s@, id, i as int);
            }
            return Some(i);
        }
        i = i + 1;
    }
    proof {
        lemma_key_pos_none(s@, id);
    }
    None
}

/// Stores a value under a key: an existing entry keeps its position and
/// takes the new value, a new key is appended.
pub fn store_key<T>(s: &mut Vec<(u128, T)>, id: u128, value: T)
    ensures
        match key_pos(old(s)@, id) {
            Some(i) => final(s)@ == old(s)@.update(i, (id, value)),
            _ => final(s)@ == old(s)@.push((id, value)),
        },
        unique_keys(old(s)@) ==> unique_keys(final(s)@),
        key_lookup(final(s)@, id) == Some(value),
        forall|other: u128|
            other != id ==> #[trigger] key_lookup(final(s)@, other) == key_lookup(old(s)@, other),
{
    let pos = find_key(s, id);
    match pos {
        Some(i) => {
            s.set(i, (id, value));
            proof {
                lemma_key_pos_valid(old(s)@, id);
                assert forall|j: int| 0 <= j < i implies (#[trigger] final(s)@[j]).0 != id by {
                    assert(final(s)@[j] == old(s)@[j]);
                }
                lemma_key_pos_found(final(s)@, id, i as int);
                assert forall|other: u128| other != id implies #[trigger] key_lookup(
                    final(s)@,
                    other,
                ) == key_lookup(old(s)@, other) by {
                    lemma_key_pos_same_keys(final(s)@, old(s)@, other);
                    lemma_key_pos_valid(old(s)@, other);
                    match key_pos(old(s)@, other) {
                        Some(p) => {
                            assert(p != i);
                            assert(final(s)@[p] == old(s)@[p]);
                        },
                        _ => {},
                    }
                }
                if unique_keys(old(s)@) {
                    assert forall|x: int, y: int|
                        0 <= x < y < final(s)@.len() implies (#[trigger] final(s)@[x]).0 != (
                    #[trigger] final(s)@[y]).0 by {
                        assert(old(s)@[x].0 != old(s)@[y].0);
                        assert(old(s)@[i as int].0 == id);
                    }
                }
            }
        },
        _ => {
            s.push((id, value));
            proof {
                lemma_key_pos_valid(old(s)@, id);
                lemma_key_pos_push(old(s)@, (id, value), id);
                assert forall|other: u128| other != id implies #[trigger] key_lookup(
                    final(s)@,
                    other,
                ) == key_lookup(old(s)@, other) by {
                    lemma_key_pos_push(old(s)@, (id, value), other);
                    lemma_key_pos_valid(old(s)@, other);
                    match key_pos(old(s)@, other) {
                        Some(p) => {
                            assert(final(s)@[p] == old(s)@[p]);
                        },
                        _ => {},
                    }
                }
                if unique_keys(old(s)@) {
                    assert forall|x: int, y: int|
                        0 <= x < y < final(s)@.len() implies (#[trigger] final(s)@[x]).0 != (
                    #[trigger] final(s)@[y]).0 by {
                        if y < old(s)@.len() {
                            assert(old(s)@[x].0 != old(s)@[y].0);
                        } else {
                            assert(old(s)@[x].0 != id);
                        }
                    }
                }
            }
        },
    }
}

/// Removes the first entry with that key and returns its value, keeping
/// the order of the rest; absence is reported unchanged.
pub fn take_key<T>(s: &mut Vec<(u128, T)>, id: u128) -> (r: Option<T>)
    ensures
        match key_pos(old(s)@, id) {
            Some(i) => r == Some(old(s)@[i].1) && final(s)@ == old(s)@.remove(i),
            _ => r is None && final(s)@ == old(s)@,
        },
        unique_keys(old(s)@) ==> unique_keys(final(s)@),
{
    let pos = find_key(s, id);
    match pos {
        Some(i) => {
            let entry = s.remove(i);
            proof {
                if unique_keys(old(s)@) {
                    assert forall|x: int, y: int|
                        0 <= x < y < final(s)@.len() implies (#[trigger] final(s)@[x]).0 != (
                    #[trigger] final(s)@[y]).0 by {
                        let ox = if x < i {
                            x
                        } else {
                            x + 1
                        };
                        let oy = if y < i {
                            y
                        } else {
                            y + 1
                        };
                        assert(old(s)@[ox].0 != old(s)@[oy].0);
                    }
                }
            }
            Some(entry.1)
        },
        _ => None,
    }
}

} // verus!
