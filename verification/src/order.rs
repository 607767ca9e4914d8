//! Lexicographic order on sequences of code units, and sorted sets of
//! keyed entries built from it.

use vstd::prelude::*;

verus! {

/// Strict lexicographic order: the first differing unit decides, and a
/// proper prefix comes first.
pub open spec fn lex_lt(a: Seq<u32>, b: Seq<u32>) -> bool
    decreases a.len(),
{
    if a.len() == 0 {
        b.len() > 0
    } else if b.len() == 0 {
        false
    } else if a[0] < b[0] {
        true
    } else if a[0] > b[0] {
        false
    } else {
        lex_lt(a.drop_first(), b.drop_first())
    }
}

pub proof fn lemma_lex_irreflexive(a: Seq<u32>)
    ensures
        !lex_lt(a, a),
    decreases a.len(),
{
    if a.len() > 0 {
        lemma_lex_irreflexive(a.drop_first());
    }
}

pub proof fn lemma_lex_transitive(a: Seq<u32>, b: Seq<u32>, c: Seq<u32>)
    requires
        lex_lt(a, b),
        lex_lt(b, c),
    ensures
        lex_lt(a, c),
    decreases a.len(),
{
    if a.len() > 0 && b.len() > 0 && c.len() > 0 && a[0] == b[0] && b[0] == c[0] {
        lemma_lex_transitive(a.drop_first(), b.drop_first(), c.drop_first());
    }
}

pub proof fn lemma_lex_total(a: Seq<u32>, b: Seq<u32>)
    ensures
        a == b || lex_lt(a, b) || lex_lt(b, a),
    decreases a.len(),
{
    if a.len() > 0 && b.len() > 0 && a[0] == b[0] {
        lemma_lex_total(a.drop_first(), b.drop_first());
        if a.drop_first() == b.drop_first() {
            assert(a =~= seq![a[0]] + a.drop_first());
            assert(b =~= seq![b[0]] + b.drop_first());
        }
    } else if a.len() == 0 && b.len() == 0 {
        assert(a =~= b);
    }
}

pub proof fn lemma_lex_asymmetric(a: Seq<u32>, b: Seq<u32>)
    requires
        lex_lt(a, b),
    ensures
        !lex_lt(b, a),
{
    if lex_lt(b, a) {
        lemma_lex_transitive(a, b, a);
        lemma_lex_irreflexive(a);
    }
}

/// Keys of equal length that are ordered stay ordered whatever follows
/// each of them.
pub proof fn lemma_lex_append(a: Seq<u32>, b: Seq<u32>, x: Seq<u32>, y: Seq<u32>)
    requires
        a.len() == b.len(),
        lex_lt(a, b),
    ensures
        lex_lt(a + x, b + y),
    decreases a.len(),
{
    assert((a + x)[0] == a[0]);
    assert((b + y)[0] == b[0]);
    if a[0] == b[0] {
        assert((a + x).drop_first() =~= a.drop_first() + x);
        assert((b + y).drop_first() =~= b.drop_first() + y);
        lemma_lex_append(a.drop_first(), b.drop_first(), x, y);
    }
}

/// A common prefix does not change the order.
pub proof fn lemma_lex_common_prefix(p: Seq<u32>, x: Seq<u32>, y: Seq<u32>)
    requires
        lex_lt(x, y),
    ensures
        lex_lt(p + x, p + y),
    decreases p.len(),
{
    if p.len() == 0 {
        assert(p + x =~= x);
        assert(p + y =~= y);
    } else {
        assert((p + x)[0] == p[0]);
        assert((p + y)[0] == p[0]);
        assert((p + x).drop_first() =~= p.drop_first() + x);
        assert((p + y).drop_first() =~= p.drop_first() + y);
        lemma_lex_common_prefix(p.drop_first(), x, y);
    }
}

/// `lex_lt` on exec sequences.
pub fn lex_less(a: &[u32], b: &[u32]) -> (r: bool)
    ensures
        r == lex_lt(a@, b@),
{
    let mut i: usize = 0;
    assert(a@.skip(0) =~= a@);
    assert(b@.skip(0) =~= b@);
    while i < a.len() && i < b.len()
        invariant
            i <= a@.len(),
            i <= b@.len(),
            lex_lt(a@, b@) == lex_lt(a@.skip(i as int), b@.skip(i as int)),
        decreases a@.len() - i,
    {
        if a[i] < b[i] {
            return true;
        }
        if a[i] > b[i] {
            return false;
        }
        assert(a@.skip(i as int).drop_first() =~= a@.skip(i + 1));
        assert(b@.skip(i as int).drop_first() =~= b@.skip(i + 1));
        i += 1;
    }
    i < b.len()
}

/// Whether two exec sequences hold the same units.
pub fn same_key(a: &[u32], b: &[u32]) -> (r: bool)
    ensures
        r == (a@ == b@),
{
    let lt = lex_less(a, b);
    let gt = lex_less(b, a);
    proof {
        lemma_lex_total(a@, b@);
        if a@ == b@ {
            lemma_lex_irreflexive(a@);
        }
    }
    !lt && !gt
}

/// The units of a text, one per character.
pub open spec fn char_key(s: Seq<char>) -> Seq<u32> {
    s.map_values(|c: char| c as u32)
}

pub proof fn lemma_char_key_injective(a: Seq<char>, b: Seq<char>)
    requires
        char_key(a) == char_key(b),
    ensures
        a == b,
{
    assert(a.len() == char_key(a).len());
    assert forall|i: int| 0 <= i < a.len() implies a[i] == b[i] by {
        assert(char_key(a)[i] == char_key(b)[i]);
        assert(char_key(a)[i] == a[i] as u32);
        assert(char_key(b)[i] == b[i] as u32);
        let u = a[i] as u32;
        vstd::utf8::char_u32_cast(a[i], u);
        vstd::utf8::char_u32_cast(b[i], u);
    }
    assert(a =~= b);
}

/// The key of a concatenation is the concatenation of the keys.
pub proof fn lemma_char_key_add(a: Seq<char>, b: Seq<char>)
    ensures
        char_key(a + b) == char_key(a) + char_key(b),
{
    assert(char_key(a + b) =~= char_key(a) + char_key(b));
}

/// Of texts made of a common part, then parts of equal length, then the
/// rest, the one whose middle part comes first comes first; with equal
/// middle parts the rest decides.
pub proof fn lemma_text_block(sep: Seq<char>, b1: Seq<char>, b2: Seq<char>, t1: Seq<char>, t2: Seq<char>)
    requires
        b1.len() == b2.len(),
        lex_lt(char_key(b1), char_key(b2)) || (b1 == b2 && lex_lt(char_key(t1), char_key(t2))),
    ensures
        lex_lt(char_key(sep + b1 + t1), char_key(sep + b2 + t2)),
{
    lemma_char_key_add(sep, b1);
    lemma_char_key_add(sep + b1, t1);
    lemma_char_key_add(sep, b2);
    lemma_char_key_add(sep + b2, t2);
    let ks = char_key(sep);
    let k1 = char_key(b1);
    let k2 = char_key(b2);
    let u1 = char_key(t1);
    let u2 = char_key(t2);
    if lex_lt(k1, k2) {
        lemma_lex_append(k1, k2, u1, u2);
        lemma_lex_common_prefix(ks, k1 + u1, k2 + u2);
        assert(ks + k1 + u1 =~= ks + (k1 + u1));
        assert(ks + k2 + u2 =~= ks + (k2 + u2));
    } else {
        lemma_lex_common_prefix(ks + k1, u1, u2);
    }
}

/// The [`char_key`] of a text.
pub fn char_key_of(s: &str) -> (k: Vec<u32>)
    ensures
        k@ == char_key(s@),
{
    let cs = crate::text::chars_of(s);
    let mut k: Vec<u32> = Vec::new();
    let mut i: usize = 0;
    while i < cs.len()
        invariant
            i <= cs@.len(),
            cs@ == s@,
            k@ == char_key(cs@.take(i as int)),
        decreases cs@.len() - i,
    {
        k.push(cs[i] as u32);
        i += 1;
        assert(k@ =~= char_key(cs@.take(i as int)));
    }
    assert(cs@.take(i as int) =~= cs@);
    k
}

/// Two strictly increasing sequences of keys that hold the same keys are
/// the same sequence.
pub proof fn lemma_sorted_same_keys(a: Seq<Seq<u32>>, b: Seq<Seq<u32>>)
    requires
        forall|i: int, j: int| 0 <= i < j < a.len() ==> lex_lt(#[trigger] a[i], #[trigger] a[j]),
        forall|i: int, j: int| 0 <= i < j < b.len() ==> lex_lt(#[trigger] b[i], #[trigger] b[j]),
        forall|k: Seq<u32>| a.contains(k) <==> b.contains(k),
    ensures
        a == b,
    decreases a.len(),
{
    if a.len() == 0 {
        if b.len() > 0 {
            assert(b.contains(b[0]));
        }
        assert(a =~= b);
    } else {
        assert(a.contains(a[0]));
        let j = choose|j: int| 0 <= j < b.len() && b[j] == a[0];
        assert(b.contains(b[0]));
        let i = choose|i: int| 0 <= i < a.len() && a[i] == b[0];
        if j > 0 {
            assert(lex_lt(b[0], b[j]));
            if i > 0 {
                assert(lex_lt(a[0], a[i]));
                lemma_lex_asymmetric(a[0], b[0]);
            } else {
                lemma_lex_irreflexive(a[0]);
            }
        }
        assert(a[0] == b[0]);
        let a1 = a.drop_first();
        let b1 = b.drop_first();
        assert forall|k: Seq<u32>| a1.contains(k) <==> b1.contains(k) by {
            if a1.contains(k) {
                let x = choose|x: int| 0 <= x < a1.len() && a1[x] == k;
                assert(a[x + 1] == k);
                assert(a.contains(k));
                assert(lex_lt(a[0], a[x + 1]));
                let y = choose|y: int| 0 <= y < b.len() && b[y] == k;
                if y == 0 {
                    lemma_lex_irreflexive(a[0]);
                }
                assert(b1[y - 1] == k);
            }
            if b1.contains(k) {
                let x = choose|x: int| 0 <= x < b1.len() && b1[x] == k;
                assert(b[x + 1] == k);
                assert(b.contains(k));
                assert(lex_lt(b[0], b[x + 1]));
                let y = choose|y: int| 0 <= y < a.len() && a[y] == k;
                if y == 0 {
                    lemma_lex_irreflexive(b[0]);
                }
                assert(a1[y - 1] == k);
            }
        }
        assert forall|i: int, j: int| 0 <= i < j < a1.len() implies lex_lt(#[trigger] a1[i], #[trigger] a1[j]) by {
            assert(lex_lt(a[i + 1], a[j + 1]));
        }
        assert forall|i: int, j: int| 0 <= i < j < b1.len() implies lex_lt(#[trigger] b1[i], #[trigger] b1[j]) by {
            assert(lex_lt(b[i + 1], b[j + 1]));
        }
        lemma_sorted_same_keys(a1, b1);
        assert(a =~= seq![a[0]] + a1);
        assert(b =~= seq![b[0]] + b1);
    }
}

/// Keys that strictly increase along the sequence.
pub open spec fn strictly_sorted<T>(s: Seq<(Vec<u32>, T)>) -> bool {
    forall|i: int, j: int| 0 <= i < j < s.len() ==> lex_lt(#[trigger] s[i].0@, #[trigger] s[j].0@)
}

/// Whether some entry has key `k`.
pub open spec fn has_key<T>(s: Seq<(Vec<u32>, T)>, k: Seq<u32>) -> bool {
    exists|i: int| 0 <= i < s.len() && #[trigger] s[i].0@ == k
}

/// Inserts `val` under `key` into a strictly sorted sequence of entries;
/// an entry with the same key has its value replaced.
pub fn insert_keyed<T>(entries: &mut Vec<(Vec<u32>, T)>, key: Vec<u32>, val: T)
    requires
        strictly_sorted(old(entries)@),
    ensures
        strictly_sorted(final(entries)@),
        forall|k: Seq<u32>| has_key(final(entries)@, k) <==> (k == key@ || has_key(old(entries)@, k)),
        forall|i: int|
            0 <= i < final(entries)@.len() && #[trigger] final(entries)@[i].0@ == key@ ==> final(entries)@[i].1 == val,
        forall|i: int|
            0 <= i < final(entries)@.len() && #[trigger] final(entries)@[i].0@ != key@ ==> exists|j: int|
                0 <= j < old(entries)@.len() && old(entries)@[j] == final(entries)@[i],
{
    let ghost old_entries = entries@;
    let ghost k = key@;
    let mut p: usize = 0;
    while p < entries.len() && lex_less(entries[p].0.as_slice(), key.as_slice())
        invariant
            p <= entries@.len(),
            entries@ == old_entries,
            forall|i: int| 0 <= i < p ==> lex_lt(#[trigger] entries@[i].0@, key@),
        decreases entries@.len() - p,
    {
        p += 1;
    }
    if p < entries.len() && same_key(entries[p].0.as_slice(), key.as_slice()) {
        entries.set(p, (key, val));
        assert forall|i: int, j: int| 0 <= i < j < entries@.len() implies lex_lt(
            #[trigger] entries@[i].0@,
            #[trigger] entries@[j].0@,
        ) by {
            assert(lex_lt(old_entries[i].0@, old_entries[j].0@));
        }
        assert forall|kk: Seq<u32>| has_key(old_entries, kk) implies has_key(entries@, kk) by {
            let j = choose|j: int| 0 <= j < old_entries.len() && #[trigger] old_entries[j].0@ == kk;
            if j == p {
                assert(old_entries[j].0@ == k);
                assert(entries@[j].0@ == kk);
            } else {
                assert(entries@[j] == old_entries[j]);
                assert(entries@[j].0@ == kk);
            }
        }
        assert forall|kk: Seq<u32>| has_key(entries@, kk) && kk != k implies has_key(old_entries, kk) by {
            let j = choose|j: int| 0 <= j < entries@.len() && #[trigger] entries@[j].0@ == kk;
            assert(j != p);
            assert(old_entries[j].0@ == kk);
        }
        assert(entries@[p as int].0@ == k);
        assert(has_key(entries@, k));
    } else {
        proof {
            if p < old_entries.len() {
                lemma_lex_total(old_entries[p as int].0@, key@);
            }
        }
        entries.insert(p, (key, val));
        assert forall|i: int, j: int| 0 <= i < j < entries@.len() implies lex_lt(
            #[trigger] entries@[i].0@,
            #[trigger] entries@[j].0@,
        ) by {
            if i < p && j < p {
                assert(lex_lt(old_entries[i].0@, old_entries[j].0@));
            } else if i < p && j == p {
            } else if i < p {
                assert(lex_lt(old_entries[i].0@, old_entries[j - 1].0@));
            } else if i == p {
                if j - 1 > p {
                    assert(lex_lt(old_entries[p as int].0@, old_entries[j - 1].0@));
                    lemma_lex_transitive(k, old_entries[p as int].0@, old_entries[j - 1].0@);
                }
            } else {
                assert(lex_lt(old_entries[i - 1].0@, old_entries[j - 1].0@));
            }
        }
        assert forall|kk: Seq<u32>| has_key(old_entries, kk) implies has_key(entries@, kk) by {
            let j = choose|j: int| 0 <= j < old_entries.len() && #[trigger] old_entries[j].0@ == kk;
            if j < p {
                assert(entries@[j] == old_entries[j]);
                assert(entries@[j].0@ == kk);
            } else {
                assert(entries@[j + 1] == old_entries[j]);
                assert(entries@[j + 1].0@ == kk);
            }
        }
        assert forall|kk: Seq<u32>| has_key(entries@, kk) && kk != k implies has_key(old_entries, kk) by {
            let j = choose|j: int| 0 <= j < entries@.len() && #[trigger] entries@[j].0@ == kk;
            if j < p {
                assert(old_entries[j].0@ == kk);
            } else {
                assert(j != p);
                assert(old_entries[j - 1].0@ == kk);
            }
        }
        assert(entries@[p as int].0@ == k);
        assert(has_key(entries@, k));
        assert forall|i: int|
            0 <= i < entries@.len() && #[trigger] entries@[i].0@ == k implies entries@[i].1 == val by {
            if i != p {
                if i < p {
                    assert(lex_lt(old_entries[i].0@, k));
                    lemma_lex_irreflexive(k);
                } else {
                    assert(old_entries[i - 1].0@ == k);
                    if i - 1 > p {
                        assert(lex_lt(old_entries[p as int].0@, old_entries[i - 1].0@));
                        lemma_lex_asymmetric(k, old_entries[p as int].0@);
                    } else {
                        lemma_lex_irreflexive(k);
                    }
                }
            }
        }
        assert forall|i: int|
            0 <= i < entries@.len() && #[trigger] entries@[i].0@ != k implies exists|j: int|
                0 <= j < old_entries.len() && old_entries[j] == entries@[i] by {
            if i < p {
                assert(old_entries[i] == entries@[i]);
            } else {
                assert(old_entries[i - 1] == entries@[i]);
            }
        }
    }
}

} // verus!
