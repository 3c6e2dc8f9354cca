//! Byte-sequence utilities shared by the record codec and the snapshot table:
//! splitting on a delimiter, locating a byte, equality, and the raw
//! byte-lexicographic order that fixes the snapshot table's iteration order.

use vstd::prelude::*;

verus! {

/// Split a byte sequence on a delimiter. The result always holds at least
/// one segment; a trailing delimiter yields a trailing empty segment.
pub open spec fn split_on(s: Seq<u8>, d: u8) -> Seq<Seq<u8>>
    decreases s.len(),
{
    if s.len() == 0 {
        seq![Seq::empty()]
    } else {
        let rest = split_on(s.drop_last(), d);
        if s.last() == d {
            rest.push(Seq::empty())
        } else {
            rest.drop_last().push(rest.last().push(s.last()))
        }
    }
}

pub proof fn lemma_split_on_len(s: Seq<u8>, d: u8)
    ensures
        split_on(s, d).len() >= 1,
    decreases s.len(),
{
    if s.len() > 0 {
        lemma_split_on_len(s.drop_last(), d);
    }
}

/// Index of the first occurrence of `d` in `s`, or `s.len()` when absent.
pub open spec fn find(s: Seq<u8>, d: u8) -> int
    decreases s.len(),
{
    if s.len() == 0 {
        0
    } else if s[0] == d {
        0
    } else {
        1 + find(s.drop_first(), d)
    }
}

pub proof fn lemma_find_bounds(s: Seq<u8>, d: u8)
    ensures
        0 <= find(s, d) <= s.len(),
        forall|j: int| 0 <= j < find(s, d) ==> s[j] != d,
        find(s, d) < s.len() ==> s[find(s, d)] == d,
    decreases s.len(),
{
    if s.len() > 0 && s[0] != d {
        lemma_find_bounds(s.drop_first(), d);
        assert forall|j: int| 0 <= j < find(s, d) implies s[j] != d by {
            if j > 0 {
                assert(s.drop_first()[j - 1] == s[j]);
            }
        }
    }
}

/// Locate the first occurrence of a byte in a slice; returns the slice's
/// length when the byte does not occur.
pub fn find_byte(s: &[u8], d: u8) -> (r: usize)
    ensures
        r == find(s@, d),
{
    proof {
        lemma_find_bounds(s@, d);
    }
    let mut i: usize = 0;
    while i < s.len()
        invariant
            0 <= i <= s.len(),
            forall|j: int| 0 <= j < i ==> s@[j] != d,
            0 <= find(s@, d) <= s@.len(),
            forall|j: int| 0 <= j < find(s@, d) ==> s@[j] != d,
            find(s@, d) < s@.len() ==> s@[find(s@, d)] == d,
        decreases s.len() - i,
    {
        if s[i] == d {
            proof {
                if find(s@, d) < i {
                    assert(s@[find(s@, d)] != d);
                }
                if find(s@, d) > i {
                    assert(s@[i as int] != d);
                }
            }
            return i;
        }
        i = i + 1;
    }
    proof {
        if find(s@, d) < s@.len() {
            assert(s@[find(s@, d)] != d);
        }
    }
    i
}

/// A sequence without the delimiter splits into itself alone.
pub proof fn lemma_split_on_no_delim(s: Seq<u8>, d: u8)
    requires
        forall|i: int| 0 <= i < s.len() ==> #[trigger] s[i] != d,
    ensures
        split_on(s, d) == seq![s],
    decreases s.len(),
{
    if s.len() == 0 {
        assert(s =~= Seq::<u8>::empty());
        assert(split_on(s, d) =~= seq![s]);
    } else {
        assert forall|i: int| 0 <= i < s.drop_last().len() implies #[trigger] s.drop_last()[i]
            != d by {
            assert(s.drop_last()[i] == s[i]);
        }
        lemma_split_on_no_delim(s.drop_last(), d);
        assert(s.last() != d);
        assert(s.drop_last().push(s.last()) =~= s);
        assert(split_on(s, d) =~= seq![s]);
    }
}

/// Splitting distributes over a delimiter between two parts, when the first
/// part holds no delimiter of its own.
pub proof fn lemma_split_on_concat(a: Seq<u8>, b: Seq<u8>, d: u8)
    requires
        forall|i: int| 0 <= i < a.len() ==> #[trigger] a[i] != d,
    ensures
        split_on(a + seq![d] + b, d) == seq![a] + split_on(b, d),
    decreases b.len(),
{
    let s = a + seq![d] + b;
    if b.len() == 0 {
        assert(s =~= a + seq![d]);
        assert(s.drop_last() =~= a);
        assert(s.last() == d);
        lemma_split_on_no_delim(a, d);
        assert(split_on(b, d) =~= seq![Seq::<u8>::empty()]);
        assert(split_on(s, d) =~= seq![a] + split_on(b, d));
    } else {
        lemma_split_on_concat(a, b.drop_last(), d);
        assert(s.drop_last() =~= a + seq![d] + b.drop_last());
        assert(s.last() == b.last());
        lemma_split_on_len(b.drop_last(), d);
        let rest = split_on(s.drop_last(), d);
        assert(rest == seq![a] + split_on(b.drop_last(), d));
        if b.last() == d {
            assert(split_on(s, d) == rest.push(Seq::<u8>::empty()));
            assert(split_on(b, d) == split_on(b.drop_last(), d).push(Seq::<u8>::empty()));
            assert(split_on(s, d) =~= seq![a] + split_on(b, d));
        } else {
            assert(rest.drop_last() =~= seq![a] + split_on(b.drop_last(), d).drop_last());
            assert(rest.last() == split_on(b.drop_last(), d).last());
            assert(split_on(s, d) == rest.drop_last().push(rest.last().push(b.last())));
            assert(split_on(b, d) == split_on(b.drop_last(), d).drop_last().push(
                split_on(b.drop_last(), d).last().push(b.last()),
            ));
            assert(split_on(s, d) =~= seq![a] + split_on(b, d));
        }
    }
}

/// Appending a delimiter closes the last segment and opens an empty one.
pub proof fn lemma_split_on_push_delim(u: Seq<u8>, d: u8)
    ensures
        split_on(u + seq![d], d) == split_on(u, d).push(Seq::empty()),
{
    assert((u + seq![d]).drop_last() =~= u);
    assert((u + seq![d]).last() == d);
}

/// Appending delimiter-free bytes extends the last segment.
pub proof fn lemma_split_on_push_tail(u: Seq<u8>, l: Seq<u8>, d: u8)
    requires
        forall|i: int| 0 <= i < l.len() ==> #[trigger] l[i] != d,
    ensures
        split_on(u + l, d) == split_on(u, d).drop_last().push(split_on(u, d).last() + l),
    decreases l.len(),
{
    lemma_split_on_len(u, d);
    let su = split_on(u, d);
    if l.len() == 0 {
        assert(u + l =~= u);
        assert(su.last() + l =~= su.last());
        assert(su.drop_last().push(su.last()) =~= su);
    } else {
        assert forall|i: int| 0 <= i < l.drop_last().len() implies #[trigger] l.drop_last()[i]
            != d by {
            assert(l.drop_last()[i] == l[i]);
        }
        lemma_split_on_push_tail(u, l.drop_last(), d);
        let s = u + l;
        assert(s.drop_last() =~= u + l.drop_last());
        assert(s.last() == l.last());
        assert(l.last() != d);
        let rest = split_on(s.drop_last(), d);
        assert(rest == su.drop_last().push(su.last() + l.drop_last()));
        assert(rest.drop_last() =~= su.drop_last());
        assert(rest.last() == su.last() + l.drop_last());
        assert((su.last() + l.drop_last()).push(l.last()) =~= su.last() + l);
        assert(split_on(s, d) =~= su.drop_last().push(su.last() + l));
    }
}

/// The first delimiter of `a + [d] + b` stands right after `a`, when `a`
/// holds none of its own.
pub proof fn lemma_find_after_prefix(a: Seq<u8>, b: Seq<u8>, d: u8)
    requires
        forall|i: int| 0 <= i < a.len() ==> #[trigger] a[i] != d,
    ensures
        find(a + seq![d] + b, d) == a.len(),
        (a + seq![d] + b).take(a.len() as int) == a,
{
    let s = a + seq![d] + b;
    lemma_find_bounds(s, d);
    let f = find(s, d);
    assert(s[a.len() as int] == d);
    if f < a.len() {
        assert(s[f] == a[f]);
    }
    if f > a.len() {
        assert(s[a.len() as int] != d);
    }
    assert(s.take(a.len() as int) =~= a);
}

/// Split a byte slice on a delimiter into owned segments, one per segment
/// of `split_on`.
pub fn split_bytes(s: &[u8], d: u8) -> (r: Vec<Vec<u8>>)
    ensures
        r@.len() == split_on(s@, d).len(),
        forall|k: int| 0 <= k < r@.len() ==> #[trigger] r@[k]@ == split_on(s@, d)[k],
{
    let mut parts: Vec<Vec<u8>> = Vec::new();
    let mut cur: Vec<u8> = Vec::new();
    let mut i: usize = 0;
    proof {
        assert(s@.take(0) =~= Seq::<u8>::empty());
    }
    while i < s.len()
        invariant
            0 <= i <= s.len(),
            parts@.len() + 1 == split_on(s@.take(i as int), d).len(),
            forall|k: int|
                0 <= k < parts@.len() ==> #[trigger] parts@[k]@ == split_on(s@.take(i as int), d)[k],
            cur@ == split_on(s@.take(i as int), d).last(),
        decreases s.len() - i,
    {
        let ghost pre = split_on(s@.take(i as int), d);
        let c = s[i];
        proof {
            assert(s@.take(i + 1).drop_last() =~= s@.take(i as int));
            assert(s@.take(i + 1).last() == s@[i as int]);
        }
        if c == d {
            parts.push(cur);
            cur = Vec::new();
            proof {
                assert(split_on(s@.take(i + 1), d) == pre.push(Seq::<u8>::empty()));
            }
        } else {
            cur.push(c);
            proof {
                assert(split_on(s@.take(i + 1), d) == pre.drop_last().push(pre.last().push(c)));
                assert(split_on(s@.take(i + 1), d).last() == pre.last().push(c));
                assert forall|k: int| 0 <= k < parts@.len() implies #[trigger] parts@[k]@
                    == split_on(s@.take(i + 1), d)[k] by {
                    assert(split_on(s@.take(i + 1), d)[k] == pre.drop_last()[k]);
                    assert(pre.drop_last()[k] == pre[k]);
                }
            }
        }
        i = i + 1;
    }
    proof {
        assert(s@.take(s@.len() as int) =~= s@);
    }
    parts.push(cur);
    parts
}

/// Byte-for-byte equality of two slices.
pub fn bytes_eq(a: &[u8], b: &[u8]) -> (r: bool)
    ensures
        r == (a@ == b@),
{
    if a.len() != b.len() {
        proof {
            assert(a@.len() != b@.len());
        }
        return false;
    }
    let mut i: usize = 0;
    while i < a.len()
        invariant
            0 <= i <= a.len(),
            a@.len() == b@.len(),
            forall|j: int| 0 <= j < i ==> a@[j] == b@[j],
        decreases a.len() - i,
    {
        if a[i] != b[i] {
            return false;
        }
        i = i + 1;
    }
    proof {
        assert(a@ =~= b@);
    }
    true
}

/// Strict byte-lexicographic order on byte sequences: a proper prefix comes
/// first, otherwise the first differing byte decides by raw value.
pub open spec fn lex_lt(a: Seq<u8>, b: Seq<u8>) -> bool
    decreases a.len(),
{
    if b.len() == 0 {
        false
    } else if a.len() == 0 {
        true
    } else {
        a[0] < b[0] || (a[0] == b[0] && lex_lt(a.drop_first(), b.drop_first()))
    }
}

pub proof fn lemma_lex_irreflexive(a: Seq<u8>)
    ensures
        !lex_lt(a, a),
    decreases a.len(),
{
    if a.len() > 0 {
        lemma_lex_irreflexive(a.drop_first());
    }
}

pub proof fn lemma_lex_trichotomy(a: Seq<u8>, b: Seq<u8>)
    ensures
        lex_lt(a, b) || lex_lt(b, a) || a == b,
    decreases a.len(),
{
    if a.len() == 0 && b.len() == 0 {
        assert(a =~= b);
    } else if a.len() > 0 && b.len() > 0 && a[0] == b[0] {
        lemma_lex_trichotomy(a.drop_first(), b.drop_first());
        if a.drop_first() == b.drop_first() {
            assert(a =~= seq![a[0]] + a.drop_first());
            assert(b =~= seq![b[0]] + b.drop_first());
        }
    }
}

pub proof fn lemma_lex_transitive(a: Seq<u8>, b: Seq<u8>, c: Seq<u8>)
    requires
        lex_lt(a, b),
        lex_lt(b, c),
    ensures
        lex_lt(a, c),
    decreases a.len(),
{
    if a.len() > 0 && b.len() > 0 && c.len() > 0 && a[0] == b[0] && b[0] == c[0] {
        lemma_lex_transitive(a.drop_first(), b.drop_first(), c.drop_first());
    }
}

/// Decide the strict byte-lexicographic order on two slices.
pub fn lex_less(a: &[u8], b: &[u8]) -> (r: bool)
    ensures
        r == lex_lt(a@, b@),
{
    let mut i: usize = 0;
    proof {
        assert(a@.skip(0) =~= a@);
        assert(b@.skip(0) =~= b@);
    }
    loop
        invariant
            0 <= i <= a.len(),
            i <= b.len(),
            forall|j: int| 0 <= j < i ==> a@[j] == b@[j],
            lex_lt(a@, b@) == lex_lt(a@.skip(i as int), b@.skip(i as int)),
        decreases a.len() - i,
    {
        if i >= a.len() || i >= b.len() {
            proof {
                assert(lex_lt(a@.skip(i as int), b@.skip(i as int)) == (i < b.len()));
            }
            return i < b.len() && i >= a.len();
        }
        let ca = a[i];
        let cb = b[i];
        if ca != cb {
            proof {
                assert(a@.skip(i as int)[0] == ca);
                assert(b@.skip(i as int)[0] == cb);
            }
            return ca < cb;
        }
        proof {
            assert(a@.skip(i as int)[0] == ca);
            assert(b@.skip(i as int)[0] == cb);
            assert(a@.skip(i as int).drop_first() =~= a@.skip(i + 1 as int));
            assert(b@.skip(i as int).drop_first() =~= b@.skip(i + 1 as int));
        }
        i = i + 1;
    }
}

} // verus!
