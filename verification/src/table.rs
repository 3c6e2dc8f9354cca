//! The snapshot table: an ordered mapping from path bytes to the original
//! encoded line, with unique keys held in strictly increasing raw byte
//! order. That order fixes the on-disk line order, deterministically and
//! independently of any locale.

use crate::bytes::{
    bytes_eq, lemma_lex_irreflexive, lemma_lex_transitive, lemma_lex_trichotomy, lex_less, lex_lt,
    split_bytes, split_on,
};
use crate::codec::{unescape_ok, unescape_seq};
use crate::error::StatError;
use crate::record::{entry_coherent, extract_name, first_field};
use vstd::prelude::*;

verus! {

/// The mapping that a sequence of (path, line) entries denotes; a later
/// entry with the same path wins.
pub open spec fn map_of(es: Seq<(Seq<u8>, Seq<u8>)>) -> Map<Seq<u8>, Seq<u8>>
    decreases es.len(),
{
    if es.len() == 0 {
        Map::empty()
    } else {
        map_of(es.drop_last()).insert(es.last().0, es.last().1)
    }
}

pub proof fn lemma_map_of_contains(es: Seq<(Seq<u8>, Seq<u8>)>, k: Seq<u8>)
    ensures
        map_of(es).contains_key(k) <==> exists|i: int|
            0 <= i < es.len() && (#[trigger] es[i]).0 == k,
    decreases es.len(),
{
    if es.len() > 0 {
        lemma_map_of_contains(es.drop_last(), k);
        if map_of(es).contains_key(k) {
            if es.last().0 == k {
                assert(es[es.len() - 1].0 == k);
            } else {
                let i = choose|i: int|
                    0 <= i < es.drop_last().len() && (#[trigger] es.drop_last()[i]).0 == k;
                assert(es[i].0 == k);
            }
        }
        if exists|i: int| 0 <= i < es.len() && (#[trigger] es[i]).0 == k {
            let i = choose|i: int| 0 <= i < es.len() && (#[trigger] es[i]).0 == k;
            if i < es.len() - 1 {
                assert(es.drop_last()[i].0 == k);
            }
        }
    }
}

proof fn lemma_map_of_get(es: Seq<(Seq<u8>, Seq<u8>)>, i: int, k: Seq<u8>)
    requires
        0 <= i < es.len(),
        es[i].0 == k,
        forall|j: int| i < j < es.len() ==> (#[trigger] es[j]).0 != k,
    ensures
        map_of(es).contains_key(k),
        map_of(es)[k] == es[i].1,
    decreases es.len(),
{
    if i < es.len() - 1 {
        assert forall|j: int| i < j < es.drop_last().len() implies (#[trigger] es.drop_last()[j]).0 != k by {
            assert(es.drop_last()[j] == es[j]);
        }
        assert(es.drop_last()[i] == es[i]);
        lemma_map_of_get(es.drop_last(), i, k);
        assert(es.last().0 != k);
    }
}

proof fn lemma_map_of_overwrite(es: Seq<(Seq<u8>, Seq<u8>)>, p: int, kv: (Seq<u8>, Seq<u8>))
    requires
        0 <= p < es.len(),
        es[p].0 == kv.0,
        forall|j: int| p < j < es.len() ==> (#[trigger] es[j]).0 != kv.0,
    ensures
        map_of(es.update(p, kv)) == map_of(es).insert(kv.0, kv.1),
    decreases es.len(),
{
    let es2 = es.update(p, kv);
    if p == es.len() - 1 {
        assert(es2.drop_last() =~= es.drop_last());
        assert(es2.last() == kv);
        assert(map_of(es.drop_last()).insert(es.last().0, es.last().1).insert(kv.0, kv.1)
            =~= map_of(es.drop_last()).insert(kv.0, kv.1));
    } else {
        assert forall|j: int| p < j < es.drop_last().len() implies (#[trigger] es.drop_last()[j]).0 != kv.0 by {
            assert(es.drop_last()[j] == es[j]);
        }
        assert(es.drop_last()[p] == es[p]);
        lemma_map_of_overwrite(es.drop_last(), p, kv);
        assert(es2.drop_last() =~= es.drop_last().update(p, kv));
        assert(es2.last() == es.last());
        assert(es.last().0 != kv.0);
        assert(map_of(es.drop_last()).insert(kv.0, kv.1).insert(es.last().0, es.last().1)
            =~= map_of(es.drop_last()).insert(es.last().0, es.last().1).insert(kv.0, kv.1));
    }
}

proof fn lemma_map_of_insert_at(es: Seq<(Seq<u8>, Seq<u8>)>, p: int, kv: (Seq<u8>, Seq<u8>))
    requires
        0 <= p <= es.len(),
        forall|j: int| p <= j < es.len() ==> (#[trigger] es[j]).0 != kv.0,
    ensures
        map_of(es.take(p).push(kv) + es.skip(p)) == map_of(es).insert(kv.0, kv.1),
    decreases es.len(),
{
    let es2 = es.take(p).push(kv) + es.skip(p);
    if p == es.len() {
        assert(es2 =~= es.push(kv));
        assert(es.push(kv).drop_last() =~= es);
        assert(es.push(kv).last() == kv);
    } else {
        assert forall|j: int| p <= j < es.drop_last().len() implies (#[trigger] es.drop_last()[j]).0 != kv.0 by {
            assert(es.drop_last()[j] == es[j]);
        }
        lemma_map_of_insert_at(es.drop_last(), p, kv);
        assert(es2.drop_last() =~= es.drop_last().take(p).push(kv) + es.drop_last().skip(p));
        assert(es2.last() == es.last());
        assert(es.last().0 != kv.0);
        assert(map_of(es.drop_last()).insert(kv.0, kv.1).insert(es.last().0, es.last().1)
            =~= map_of(es.drop_last()).insert(es.last().0, es.last().1).insert(kv.0, kv.1));
    }
}

/// The snapshot table.
#[derive(Debug)]
pub struct StatFile {
    entries: Vec<(Vec<u8>, Vec<u8>)>,
}

impl View for StatFile {
    type V = Map<Seq<u8>, Seq<u8>>;

    open spec fn view(&self) -> Map<Seq<u8>, Seq<u8>> {
        map_of(self.entry_seq())
    }
}

impl StatFile {
    /// The entries as (path bytes, line bytes), in iteration order.
    pub closed spec fn entry_seq(&self) -> Seq<(Seq<u8>, Seq<u8>)> {
        self.entries@.map_values(|e: (Vec<u8>, Vec<u8>)| (e.0@, e.1@))
    }

    /// Iteration order is strictly increasing by raw byte value of the path;
    /// in particular, paths are unique.
    pub open spec fn wf(&self) -> bool {
        forall|i: int, j: int|
            0 <= i < j < self.entry_seq().len() ==> lex_lt(
                #[trigger] self.entry_seq()[i].0,
                #[trigger] self.entry_seq()[j].0,
            )
    }

    /// The empty table.
    pub fn new() -> (r: Self)
        ensures
            r.wf(),
            r@ == Map::<Seq<u8>, Seq<u8>>::empty(),
            r.entry_seq() == Seq::<(Seq<u8>, Seq<u8>)>::empty(),
    {
        let r = StatFile { entries: Vec::new() };
        proof {
            assert(r.entry_seq() =~= Seq::<(Seq<u8>, Seq<u8>)>::empty());
        }
        r
    }

    /// How many entries the table holds.
    pub fn len(&self) -> (r: usize)
        ensures
            r == self.entry_seq().len(),
    {
        self.entries.len()
    }

    /// The entry at one position of the iteration order.
    pub fn entry_at(&self, i: usize) -> (r: (&Vec<u8>, &Vec<u8>))
        requires
            i < self.entry_seq().len(),
        ensures
            r.0@ == self.entry_seq()[i as int].0,
            r.1@ == self.entry_seq()[i as int].1,
    {
        let e = &self.entries[i];
        (&e.0, &e.1)
    }

    /// Whether a path has an entry.
    pub fn contains(&self, name: &[u8]) -> (r: bool)
        requires
            self.wf(),
        ensures
            r == self@.contains_key(name@),
    {
        self.lookup(name).is_some()
    }

    /// The stored line of a path, if any.
    pub fn get(&self, name: &[u8]) -> (r: Option<&Vec<u8>>)
        requires
            self.wf(),
        ensures
            r matches Some(l) ==> self@.contains_key(name@) && l@ == self@[name@],
            r is None ==> !self@.contains_key(name@),
    {
        self.lookup(name)
    }

    fn lookup(&self, name: &[u8]) -> (r: Option<&Vec<u8>>)
        requires
            self.wf(),
        ensures
            r matches Some(l) ==> self@.contains_key(name@) && l@ == self@[name@],
            r is None ==> !self@.contains_key(name@),
    {
        let ghost es = self.entry_seq();
        let mut i: usize = 0;
        while i < self.entries.len()
            invariant
                0 <= i <= es.len(),
                es == self.entry_seq(),
                es.len() == self.entries@.len(),
                self.wf(),
                forall|j: int| 0 <= j < i ==> (#[trigger] es[j]).0 != name@,
            decreases self.entries@.len() - i,
        {
            let e = &self.entries[i];
            proof {
                assert(es[i as int] == (e.0@, e.1@));
            }
            if bytes_eq(e.0.as_slice(), name) {
                proof {
                    assert forall|j: int| i < j < es.len() implies (#[trigger] es[j]).0 != name@ by {
                        assert(lex_lt(es[i as int].0, es[j].0));
                        if es[j].0 == name@ {
                            lemma_lex_irreflexive(name@);
                        }
                    }
                    lemma_map_of_get(es, i as int, name@);
                }
                return Some(&e.1);
            }
            i = i + 1;
        }
        proof {
            lemma_map_of_contains(es, name@);
        }
        None
    }

    /// Insert an entry, overwriting any entry of the same path, and keeping
    /// the iteration order.
    pub fn insert(&mut self, name: Vec<u8>, line: Vec<u8>)
        requires
            old(self).wf(),
        ensures
            final(self).wf(),
            final(self)@ == old(self)@.insert(name@, line@),
    {
        let ghost es = self.entry_seq();
        let mut p: usize = 0;
        while p < self.entries.len() && lex_less(self.entries[p].0.as_slice(), name.as_slice())
            invariant
                0 <= p <= es.len(),
                es == self.entry_seq(),
                es.len() == self.entries@.len(),
                self.wf(),
                forall|j: int| 0 <= j < p ==> lex_lt((#[trigger] es[j]).0, name@),
            decreases self.entries@.len() - p,
        {
            proof {
                assert(es[p as int] == (self.entries@[p as int].0@, self.entries@[p as int].1@));
            }
            p = p + 1;
        }
        proof {
            if p < es.len() {
                assert(es[p as int] == (self.entries@[p as int].0@, self.entries@[p as int].1@));
                assert(!lex_lt(es[p as int].0, name@));
            }
            assert forall|j: int| p <= j < es.len() && (#[trigger] es[j]).0 != name@ implies
                lex_lt(name@, es[j].0) by {
                if j == p {
                    lemma_lex_trichotomy(name@, es[p as int].0);
                } else {
                    lemma_lex_trichotomy(name@, es[p as int].0);
                    if es[p as int].0 == name@ {
                    } else {
                        lemma_lex_transitive(name@, es[p as int].0, es[j].0);
                    }
                }
            }
        }
        let is_same = p < self.entries.len() && bytes_eq(self.entries[p].0.as_slice(),
            name.as_slice());
        if is_same {
            let ghost kv = (name@, line@);
            proof {
                assert(es[p as int].0 == name@);
                assert forall|j: int| p < j < es.len() implies (#[trigger] es[j]).0 != name@ by {
                    if es[j].0 == name@ {
                        lemma_lex_irreflexive(name@);
                    }
                }
                lemma_map_of_overwrite(es, p as int, kv);
            }
            self.entries.remove(p);
            self.entries.insert(p, (name, line));
            proof {
                let es2 = self.entry_seq();
                let target = es.update(p as int, kv);
                assert forall|k: int| 0 <= k < es2.len() implies es2[k] == target[k] by {
                    assert(es2[k] == (self.entries@[k].0@, self.entries@[k].1@));
                    if k != p {
                        assert(self.entries@[k] == old(self).entries@[k]);
                        assert(es[k] == (old(self).entries@[k].0@, old(self).entries@[k].1@));
                    }
                }
                assert(es2 =~= target);
                assert forall|i: int, j: int|
                    0 <= i < j < es2.len() implies lex_lt(
                    (#[trigger] es2[i]).0,
                    (#[trigger] es2[j]).0,
                ) by {
                    assert(es2[i].0 == es[i].0);
                    assert(es2[j].0 == es[j].0);
                }
            }
        } else {
            let ghost kv = (name@, line@);
            proof {
                if p < es.len() {
                    assert(es[p as int].0 != name@);
                }
                assert forall|j: int| p <= j < es.len() implies (#[trigger] es[j]).0 != name@ by {
                    if es[j].0 == name@ {
                        assert(lex_lt(name@, es[j].0));
                        lemma_lex_irreflexive(name@);
                    }
                }
                lemma_map_of_insert_at(es, p as int, kv);
            }
            self.entries.insert(p, (name, line));
            proof {
                let es2 = self.entry_seq();
                let target = es.take(p as int).push(kv) + es.skip(p as int);
                assert forall|k: int| 0 <= k < es2.len() implies es2[k] == target[k] by {
                    assert(es2[k] == (self.entries@[k].0@, self.entries@[k].1@));
                    if k < p {
                        assert(self.entries@[k] == old(self).entries@[k]);
                        assert(es[k] == (old(self).entries@[k].0@, old(self).entries@[k].1@));
                    } else if k > p {
                        assert(self.entries@[k] == old(self).entries@[k - 1]);
                        assert(es[k - 1] == (old(self).entries@[k - 1].0@, old(self).entries@[k
                            - 1].1@));
                    }
                }
                assert(es2 =~= target);
                assert forall|i: int, j: int|
                    0 <= i < j < es2.len() implies lex_lt(
                    (#[trigger] es2[i]).0,
                    (#[trigger] es2[j]).0,
                ) by {
                    if j < p {
                        assert(es2[i].0 == es[i].0 && es2[j].0 == es[j].0);
                    } else if j == p {
                        if i < p {
                            assert(es2[i].0 == es[i].0);
                        }
                    } else {
                        assert(es2[j].0 == es[j - 1].0);
                        assert(lex_lt(name@, es[j - 1].0));
                        if i < p {
                            assert(es2[i].0 == es[i].0);
                            assert(lex_lt(es[i].0, name@));
                            lemma_lex_transitive(es[i].0, name@, es[j - 1].0);
                        } else if i == p {
                        } else {
                            assert(es2[i].0 == es[i - 1].0);
                        }
                    }
                }
            }
        }
    }

    /// Insert on the capture side: a new path is always added; an existing
    /// one is overwritten only when `force` is set.
    pub fn add_entry(&mut self, name: Vec<u8>, line: Vec<u8>, force: bool)
        requires
            old(self).wf(),
        ensures
            final(self).wf(),
            final(self)@ == (if force || !old(self)@.contains_key(name@) {
                old(self)@.insert(name@, line@)
            } else {
                old(self)@
            }),
    {
        if force {
            self.insert(name, line);
        } else {
            let present = self.contains(name.as_slice());
            if !present {
                self.insert(name, line);
            }
        }
    }

    /// The serialized table: every stored line followed by a newline, in
    /// iteration order.
    pub fn serialize(&self) -> (r: Vec<u8>)
        ensures
            r@ == serialize_seq(self.entry_seq()),
    {
        let ghost es = self.entry_seq();
        let mut out: Vec<u8> = Vec::new();
        let mut i: usize = 0;
        proof {
            assert(es.take(0) =~= Seq::<(Seq<u8>, Seq<u8>)>::empty());
            assert(out@ =~= serialize_seq(es.take(0)));
        }
        while i < self.entries.len()
            invariant
                0 <= i <= es.len(),
                es == self.entry_seq(),
                es.len() == self.entries@.len(),
                out@ == serialize_seq(es.take(i as int)),
            decreases self.entries@.len() - i,
        {
            let ghost pre = out@;
            let e = &self.entries[i];
            proof {
                assert(es[i as int] == (e.0@, e.1@));
            }
            out.extend_from_slice(e.1.as_slice());
            out.push(0x0a);
            proof {
                assert(es.take(i + 1).drop_last() =~= es.take(i as int));
                assert(es.take(i + 1).last() == es[i as int]);
                assert(out@ =~= pre + es[i as int].1 + seq![0x0au8]);
            }
            i = i + 1;
        }
        proof {
            assert(es.take(es.len() as int) =~= es);
        }
        out
    }
}

/// The byte rendering of a table's entries, each line and a newline.
pub open spec fn serialize_seq(es: Seq<(Seq<u8>, Seq<u8>)>) -> Seq<u8>
    decreases es.len(),
{
    if es.len() == 0 {
        Seq::empty()
    } else {
        serialize_seq(es.drop_last()) + es.last().1 + seq![0x0au8]
    }
}

/// A stored line parses into a table entry: it is empty and skipped, or its
/// first field unescapes.
pub open spec fn line_ok(l: Seq<u8>) -> bool {
    l.len() == 0 || unescape_ok(first_field(l))
}

pub open spec fn lines_ok(ls: Seq<Seq<u8>>) -> bool {
    forall|i: int| 0 <= i < ls.len() ==> line_ok(#[trigger] ls[i])
}

/// The table that a snapshot file's lines denote: each nonempty line keyed
/// by its decoded first field, kept verbatim; a later duplicate wins.
pub open spec fn table_of(ls: Seq<Seq<u8>>) -> Map<Seq<u8>, Seq<u8>>
    decreases ls.len(),
{
    if ls.len() == 0 {
        Map::empty()
    } else {
        let m = table_of(ls.drop_last());
        let l = ls.last();
        if l.len() == 0 {
            m
        } else {
            m.insert(unescape_seq(first_field(l)), l)
        }
    }
}

proof fn lemma_serialize_parse_seq(es: Seq<(Seq<u8>, Seq<u8>)>)
    requires
        forall|i: int| 0 <= i < es.len() ==> entry_coherent(#[trigger] es[i]),
    ensures
        lines_ok(split_on(serialize_seq(es), 0x0a)),
        split_on(serialize_seq(es), 0x0a).last() == Seq::<u8>::empty(),
        table_of(split_on(serialize_seq(es), 0x0a)) == map_of(es),
    decreases es.len(),
{
    if es.len() == 0 {
        let ls = split_on(serialize_seq(es), 0x0a);
        assert(ls =~= seq![Seq::<u8>::empty()]);
        assert(table_of(ls.drop_last()) == Map::<Seq<u8>, Seq<u8>>::empty());
        assert(table_of(ls) =~= map_of(es));
    } else {
        let dl = es.drop_last();
        let last = es.last();
        assert forall|i: int| 0 <= i < dl.len() implies entry_coherent(#[trigger] dl[i]) by {
            assert(dl[i] == es[i]);
        }
        lemma_serialize_parse_seq(dl);
        let u = serialize_seq(dl);
        let su = split_on(u, 0x0a);
        crate::bytes::lemma_split_on_push_tail(u, last.1, 0x0a);
        crate::bytes::lemma_split_on_push_delim(u + last.1, 0x0a);
        assert(serialize_seq(es) == u + last.1 + seq![0x0au8]);
        let ls = split_on(serialize_seq(es), 0x0a);
        assert(Seq::<u8>::empty() + last.1 =~= last.1);
        assert(ls == su.drop_last().push(last.1).push(Seq::<u8>::empty()));

        crate::bytes::lemma_split_on_len(u, 0x0a);
        assert forall|k: int| 0 <= k < ls.len() implies line_ok(#[trigger] ls[k]) by {
            if k < su.len() - 1 {
                assert(ls[k] == su.drop_last()[k]);
                assert(su.drop_last()[k] == su[k]);
                assert(line_ok(su[k]));
            } else if k == su.len() - 1 {
                assert(ls[k] == last.1);
            } else {
                assert(ls[k] =~= Seq::<u8>::empty());
            }
        }

        // the trailing empty segment and the appended line peel off in turn
        assert(ls.drop_last() =~= su.drop_last().push(last.1));
        assert(table_of(ls) == table_of(su.drop_last().push(last.1)));
        assert(su.drop_last().push(last.1).drop_last() =~= su.drop_last());
        assert(table_of(su.drop_last().push(last.1)) == table_of(su.drop_last()).insert(
            last.0,
            last.1,
        ));
        assert(su.drop_last().push(su.last()) =~= su);
        assert(table_of(su) == table_of(su.drop_last()));
        assert(table_of(ls) == map_of(dl).insert(last.0, last.1));
    }
}

/// Re-reading what the table writes restores the table: for a table whose
/// entries are coherent, the serialized bytes parse without error and denote
/// the same mapping.
pub proof fn lemma_serialize_parse(t: &StatFile)
    requires
        forall|i: int|
            0 <= i < t.entry_seq().len() ==> entry_coherent(#[trigger] t.entry_seq()[i]),
    ensures
        lines_ok(split_on(serialize_seq(t.entry_seq()), 0x0a)),
        table_of(split_on(serialize_seq(t.entry_seq()), 0x0a)) == t@,
{
    lemma_serialize_parse_seq(t.entry_seq());
}

/// Parse a snapshot file's bytes into the table: split on newlines, discard
/// empty lines, key every other line by its decoded first field. The whole
/// parse fails on the first line whose path does not unescape.
pub fn parse_stat_file(data: &[u8]) -> (r: Result<StatFile, StatError>)
    ensures
        r matches Ok(t) ==> t.wf() && lines_ok(split_on(data@, 0x0a)) && t@ == table_of(
            split_on(data@, 0x0a),
        ),
        r matches Err(e) ==> !lines_ok(split_on(data@, 0x0a)) && e == StatError::InvalidEscape,
{
    let ghost ls = split_on(data@, 0x0a);
    let lines = split_bytes(data, 0x0a);
    let mut t = StatFile::new();
    let mut i: usize = 0;
    proof {
        assert(ls.take(0) =~= Seq::<Seq<u8>>::empty());
    }
    while i < lines.len()
        invariant
            0 <= i <= ls.len(),
            ls == split_on(data@, 0x0a),
            lines@.len() == ls.len(),
            forall|k: int| 0 <= k < ls.len() ==> #[trigger] lines@[k]@ == ls[k],
            t.wf(),
            t@ == table_of(ls.take(i as int)),
            forall|k: int| 0 <= k < i ==> line_ok(#[trigger] ls[k]),
        decreases lines@.len() - i,
    {
        let line = &lines[i];
        proof {
            assert(lines@[i as int]@ == ls[i as int]);
            assert(ls.take(i + 1).drop_last() =~= ls.take(i as int));
            assert(ls.take(i + 1).last() == ls[i as int]);
        }
        if line.len() > 0 {
            match extract_name(line.as_slice()) {
                Ok(pair) => {
                    let (name, kept) = pair;
                    t.insert(name, kept);
                },
                Err(_) => {
                    return Err(StatError::InvalidEscape);
                },
            }
        }
        i = i + 1;
    }
    proof {
        assert(ls.take(ls.len() as int) =~= ls);
    }
    Ok(t)
}

} // verus!
