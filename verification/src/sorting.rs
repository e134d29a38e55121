//! The canonical export order: assets sort by their source file path, so
//! the export is reproducible run over run as long as paths are unchanged.

use vstd::prelude::*;

verus! {

/// Lexicographic order on texts by code point; a prefix precedes its
/// extensions.
pub open spec fn lex_le(a: Seq<char>, b: Seq<char>) -> bool
    decreases a.len(),
{
    if a.len() == 0 {
        true
    } else if b.len() == 0 {
        false
    } else if a[0] == b[0] {
        lex_le(a.drop_first(), b.drop_first())
    } else {
        (a[0] as u32) < (b[0] as u32)
    }
}

/// Whether `a` precedes or equals `b` in the canonical order.
pub fn str_le(a: &String, b: &String) -> (r: bool)
    ensures
        r == lex_le(a@, b@),
{
    let sa = a.as_str();
    let sb = b.as_str();
    let na = sa.unicode_len();
    let nb = sb.unicode_len();
    let mut i: usize = 0;
    proof {
        assert(a@.skip(0) =~= a@);
        assert(b@.skip(0) =~= b@);
    }
    while i < na && i < nb
        invariant
            0 <= i,
            i <= na,
            i <= nb,
            na == a@.len(),
            nb == b@.len(),
            sa@ == a@,
            sb@ == b@,
            lex_le(a@, b@) == lex_le(a@.skip(i as int), b@.skip(i as int)),
            forall|j: int| 0 <= j < i ==> a@[j] == b@[j],
        decreases na - i,
    {
        let ca = sa.get_char(i);
        let cb = sb.get_char(i);
        proof {
            assert(a@.skip(i as int)[0] == a@[i as int]);
            assert(b@.skip(i as int)[0] == b@[i as int]);
            assert(a@.skip(i as int).drop_first() =~= a@.skip(i + 1));
            assert(b@.skip(i as int).drop_first() =~= b@.skip(i + 1));
        }
        if ca as u32 == cb as u32 {
            proof {
                assert(ca == cb);
            }
            i = i + 1;
        } else {
            return (ca as u32) < (cb as u32);
        }
    }
    proof {
        if i >= na {
            assert(a@.skip(i as int).len() == 0);
        } else {
            assert(b@.skip(i as int).len() == 0);
            assert(a@.skip(i as int).len() > 0);
        }
    }
    na <= nb
}

/// Where a new index lands among sorted indices: after every entry whose
/// key precedes or equals its own, so equal keys keep their original
/// order.
pub open spec fn insert_idx(perm: Seq<int>, keys: Seq<Seq<char>>, idx: int) -> Seq<int>
    decreases perm.len(),
{
    if perm.len() == 0 {
        seq![idx]
    } else if lex_le(keys[perm[0]], keys[idx]) {
        seq![perm[0]] + insert_idx(perm.drop_first(), keys, idx)
    } else {
        seq![idx] + perm
    }
}

/// The indices of the first `i` keys, sorted by key.
pub open spec fn sort_idx_take(keys: Seq<Seq<char>>, i: int) -> Seq<int>
    decreases i,
{
    if i <= 0 {
        Seq::empty()
    } else {
        insert_idx(sort_idx_take(keys, i - 1), keys, i - 1)
    }
}

/// The indices of all keys, sorted by key: the canonical export order.
pub open spec fn sort_idx(keys: Seq<Seq<char>>) -> Seq<int> {
    sort_idx_take(keys, keys.len() as int)
}

/// Inserting at the scan's stopping point is what `insert_idx` does.
proof fn lemma_insert_idx_at(perm: Seq<int>, keys: Seq<Seq<char>>, idx: int, j: int)
    requires
        0 <= j <= perm.len(),
        forall|m: int| 0 <= m < j ==> lex_le(keys[(#[trigger] perm[m])], keys[idx]),
        j < perm.len() ==> !lex_le(keys[perm[j]], keys[idx]),
    ensures
        insert_idx(perm, keys, idx) == perm.take(j) + seq![idx] + perm.skip(j),
    decreases perm.len(),
{
    if perm.len() == 0 {
        assert(insert_idx(perm, keys, idx) =~= perm.take(j) + seq![idx] + perm.skip(j));
    } else if j == 0 {
        assert(insert_idx(perm, keys, idx) =~= perm.take(0) + seq![idx] + perm.skip(0));
    } else {
        assert(lex_le(keys[perm[0]], keys[idx]));
        assert forall|m: int| 0 <= m < j - 1 implies lex_le(
            keys[(#[trigger] perm.drop_first()[m])],
            keys[idx],
        ) by {
            assert(perm.drop_first()[m] == perm[m + 1]);
        }
        assert(j - 1 < perm.drop_first().len() ==> !lex_le(
            keys[perm.drop_first()[j - 1]],
            keys[idx],
        ));
        lemma_insert_idx_at(perm.drop_first(), keys, idx, j - 1);
        assert(insert_idx(perm, keys, idx) =~= perm.take(j) + seq![idx] + perm.skip(j)) by {
            assert(perm.drop_first().take(j - 1) =~= perm.take(j).drop_first());
            assert(perm.drop_first().skip(j - 1) =~= perm.skip(j));
        }
    }
}

/// Computes the canonical order of the given path keys: the permutation
/// `sort_idx` describes.
pub fn sorted_order(keys: &Vec<String>) -> (r: Vec<usize>)
    ensures
        idx_view(r@) == sort_idx(keys_view(keys@)),
        r@.len() == keys@.len(),
        forall|i: int| 0 <= i < r@.len() ==> (#[trigger] r@[i]) < keys@.len(),
{
    let ghost kv = keys_view(keys@);
    let mut perm: Vec<usize> = Vec::new();
    let mut i: usize = 0;
    proof {
        assert(idx_view(perm@) =~= sort_idx_take(kv, 0));
    }
    while i < keys.len()
        invariant
            0 <= i <= keys@.len(),
            kv == keys_view(keys@),
            kv.len() == keys@.len(),
            idx_view(perm@) == sort_idx_take(kv, i as int),
            perm@.len() == i,
            forall|m: int| 0 <= m < perm@.len() ==> (#[trigger] perm@[m]) < keys@.len(),
        decreases keys@.len() - i,
    {
        let mut j: usize = 0;
        while j < perm.len() && str_le(&keys[perm[j]], &keys[i])
            invariant
                0 <= j <= perm@.len(),
                i < keys@.len(),
                kv == keys_view(keys@),
                kv.len() == keys@.len(),
                forall|m: int| 0 <= m < perm@.len() ==> (#[trigger] perm@[m]) < keys@.len(),
                forall|m: int|
                    0 <= m < j ==> lex_le(kv[(#[trigger] perm@[m]) as int], kv[i as int]),
            decreases perm@.len() - j,
        {
            j = j + 1;
        }
        let ghost done = perm@;
        perm.insert(j, i);
        proof {
            lemma_insert_idx_at(idx_view(done), kv, i as int, j as int);
            assert(idx_view(done).take(j as int) =~= idx_view(done.take(j as int)));
            assert(idx_view(done).skip(j as int) =~= idx_view(done.skip(j as int)));
            assert(perm@ =~= done.take(j as int) + seq![i] + done.skip(j as int));
            assert(idx_view(perm@) =~= idx_view(done.take(j as int)) + seq![i as int] + idx_view(
                done.skip(j as int),
            ));
            assert(idx_view(perm@) =~= insert_idx(idx_view(done), kv, i as int));
        }
        i = i + 1;
    }
    perm
}

/// Inserting adds the new index and keeps the others.
pub proof fn lemma_insert_idx_contains(perm: Seq<int>, keys: Seq<Seq<char>>, idx: int, m: int)
    ensures
        insert_idx(perm, keys, idx).len() == perm.len() + 1,
        insert_idx(perm, keys, idx).contains(m) <==> (perm.contains(m) || m == idx),
    decreases perm.len(),
{
    let out = insert_idx(perm, keys, idx);
    if perm.len() == 0 {
        assert(out =~= seq![idx]);
        assert(out.contains(m) <==> m == idx) by {
            if out.contains(m) {
                let w = choose|w: int| 0 <= w < out.len() && out[w] == m;
                assert(out[0] == idx);
            }
            if m == idx {
                assert(out[0] == m);
            }
        }
        assert(!perm.contains(m)) by {
            if perm.contains(m) {
                let w = choose|w: int| 0 <= w < perm.len() && perm[w] == m;
            }
        }
    } else if lex_le(keys[perm[0]], keys[idx]) {
        lemma_insert_idx_contains(perm.drop_first(), keys, idx, m);
        let rest = insert_idx(perm.drop_first(), keys, idx);
        assert(out =~= seq![perm[0]] + rest);
        assert(out.contains(m) <==> (m == perm[0] || rest.contains(m))) by {
            if out.contains(m) {
                let w = choose|w: int| 0 <= w < out.len() && out[w] == m;
                if w > 0 {
                    assert(rest[w - 1] == m);
                }
            }
            if m == perm[0] {
                assert(out[0] == m);
            }
            if rest.contains(m) {
                let w = choose|w: int| 0 <= w < rest.len() && rest[w] == m;
                assert(out[w + 1] == m);
            }
        }
        assert(perm.contains(m) <==> (m == perm[0] || perm.drop_first().contains(m))) by {
            if perm.contains(m) {
                let w = choose|w: int| 0 <= w < perm.len() && perm[w] == m;
                if w > 0 {
                    assert(perm.drop_first()[w - 1] == m);
                }
            }
            if m == perm[0] {
                assert(perm[0] == m);
            }
            if perm.drop_first().contains(m) {
                let w = choose|w: int| 0 <= w < perm.drop_first().len() && perm.drop_first()[w]
                    == m;
                assert(perm[w + 1] == m);
            }
        }
    } else {
        assert(out =~= seq![idx] + perm);
        assert(out.contains(m) <==> (m == idx || perm.contains(m))) by {
            if out.contains(m) {
                let w = choose|w: int| 0 <= w < out.len() && out[w] == m;
                if w > 0 {
                    assert(perm[w - 1] == m);
                }
            }
            if m == idx {
                assert(out[0] == m);
            }
            if perm.contains(m) {
                let w = choose|w: int| 0 <= w < perm.len() && perm[w] == m;
                assert(out[w + 1] == m);
            }
        }
    }
}

/// The canonical order of `i` keys holds exactly the indices below `i`.
pub proof fn lemma_sort_idx_take_contains(keys: Seq<Seq<char>>, i: int, m: int)
    requires
        0 <= i,
    ensures
        sort_idx_take(keys, i).len() == i,
        sort_idx_take(keys, i).contains(m) <==> 0 <= m < i,
    decreases i,
{
    if i == 0 {
        if sort_idx_take(keys, 0).contains(m) {
            let w = choose|w: int|
                0 <= w < sort_idx_take(keys, 0).len() && sort_idx_take(keys, 0)[w] == m;
        }
    } else {
        lemma_sort_idx_take_contains(keys, i - 1, m);
        lemma_insert_idx_contains(sort_idx_take(keys, i - 1), keys, i - 1, m);
    }
}

/// Path keys as the contracts speak of them.
pub open spec fn keys_view(v: Seq<String>) -> Seq<Seq<char>> {
    Seq::new(v.len(), |i: int| v[i]@)
}

/// Exec indices as the contracts speak of them.
pub open spec fn idx_view(v: Seq<usize>) -> Seq<int> {
    Seq::new(v.len(), |i: int| v[i] as int)
}

} // verus!
