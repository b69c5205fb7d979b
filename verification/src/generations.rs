//! Records form a graph through the links they hold to their parents (files
//! named `.prev/` followed by a parent's name). Listing records goes by
//! generations: a record comes once every parent it links to, among the
//! records present, has come in an earlier generation.

use vstd::prelude::*;
use crate::encoding::Encoding;
use crate::hash::HashingAlgorithm;
use crate::repository::{contains_name, names_contain};

verus! {

/// A link from a record to one of its parents
pub struct ParentLink {
    /// The parent's name
    pub name: String,
    /// Whether the link names a record directory that is present
    pub is_record: bool,
}

/// A candidate record directory found in the records tree
pub struct RecordEntry {
    /// The directory's name: the record's encoded hash
    pub name: String,
    /// Where the record is stored
    pub path: String,
    /// Whether the entry is a directory
    pub is_dir: bool,
    /// The record's links to its parents; `None` when its `.prev` directory
    /// could not be read (no `.prev` directory means no links)
    pub parents: Option<Vec<ParentLink>>,
}

/// A parent link as a value: the parent's name and whether it is present
pub type LinkView = (Seq<char>, bool);

/// A candidate record as a value: name, path, whether it is a directory and
/// its parent links
pub type EntryView = (Seq<char>, Seq<char>, bool, Option<Seq<LinkView>>);

/// The value of a link list
pub open spec fn links_view(ls: Seq<ParentLink>) -> Seq<LinkView> {
    ls.map_values(|l: ParentLink| (l.name@, l.is_record))
}

/// The value of a candidate record
pub open spec fn entry_view(e: RecordEntry) -> EntryView {
    (e.name@, e.path@, e.is_dir, match e.parents {
        None => None,
        Some(ls) => Some(links_view(ls@)),
    })
}

/// The values of candidate records
pub open spec fn entries_view(s: Seq<RecordEntry>) -> Seq<EntryView> {
    s.map_values(|e: RecordEntry| entry_view(e))
}

/// Whether every present parent a record links to is among `processed`
pub open spec fn parents_processed(links: Option<Seq<LinkView>>, processed: Seq<Seq<char>>) -> bool {
    match links {
        None => false,
        Some(ls) => forall|i: int| 0 <= i < ls.len() && (#[trigger] ls[i]).1 ==> processed.contains(ls[i].0),
    }
}

/// Whether a candidate record belongs to the next generation: it is a
/// directory named by a valid encoding and its present parents were listed
pub open spec fn entry_ready(e: EntryView, encoding: Encoding, processed: Seq<Seq<char>>) -> bool {
    &&& e.2
    &&& encoding.spec_decode(e.0) is Some
    &&& parents_processed(e.3, processed)
}

/// The pending records that belong to the next generation, in order
pub open spec fn ready_entries(pending: Seq<EntryView>, encoding: Encoding, done: Seq<Seq<char>>) -> Seq<EntryView> {
    pending.filter(|e: EntryView| entry_ready(e, encoding, done))
}

/// The pending records that wait for a later generation, in order
pub open spec fn waiting_entries(pending: Seq<EntryView>, encoding: Encoding, done: Seq<Seq<char>>) -> Seq<EntryView> {
    pending.filter(|e: EntryView| !entry_ready(e, encoding, done))
}

/// The records in a generation, as (path, hash) values
pub open spec fn generation_view(g: Seq<(String, Vec<u8>)>) -> Seq<(Seq<char>, Seq<u8>)> {
    g.map_values(|p: (String, Vec<u8>)| (p.0@, p.1@))
}

/// How deep record directories lie under the records directory: the digest
/// length times four, divided by the bits of one encoded character, rounded
/// up
pub open spec fn spec_record_depth(alg: HashingAlgorithm, encoding: Encoding) -> nat {
    let n = alg.spec_len() * 4;
    let w = encoding.spec_bit_width();
    if n % w == 0 {
        n / w
    } else {
        n / w + 1
    }
}

/// How deep record directories lie under the records directory
pub fn record_depth(alg: &HashingAlgorithm, encoding: &Encoding) -> (d: usize)
    requires
        alg.spec_len() <= usize::MAX / 4,
    ensures
        d == spec_record_depth(*alg, *encoding),
{
    let n = alg.len() * 4;
    let w = encoding.bit_width();
    if n % w == 0 {
        n / w
    } else {
        n / w + 1
    }
}

/// Lists records by generations over a snapshot of the records tree
pub struct RecordGenerations {
    encoding: Encoding,
    pending: Vec<RecordEntry>,
    processed: Vec<String>,
}

impl RecordGenerations {
    /// Every pending name is short enough to be decoded and encoded again
    pub closed spec fn wf(self) -> bool {
        forall|i: int| 0 <= i < self.pending@.len() ==> vstd::utf8::encode_utf8((#[trigger] self.pending@[i]).name@).len() <= usize::MAX / 512
    }

    /// The encoding of record names
    pub closed spec fn spec_encoding(self) -> Encoding {
        self.encoding
    }

    /// Candidates not listed yet, in their original order
    pub closed spec fn pending(self) -> Seq<EntryView> {
        entries_view(self.pending@)
    }

    /// Names of the records listed so far
    pub closed spec fn processed(self) -> Seq<Seq<char>> {
        self.processed@.map_values(|s: String| s@)
    }

    /// Starts listing `entries`; their names must be at most
    /// `usize::MAX / 512` bytes long
    pub fn new(encoding: Encoding, entries: Vec<RecordEntry>) -> (g: RecordGenerations)
        requires
            forall|i: int| 0 <= i < entries@.len() ==> vstd::utf8::encode_utf8((#[trigger] entries@[i]).name@).len() <= usize::MAX / 512,
        ensures
            g.spec_encoding() == encoding,
            g.pending() == entries_view(entries@),
            g.processed() == Seq::<Seq<char>>::empty(),
            g.wf(),
    {
        let processed: Vec<String> = Vec::new();
        proof {
            assert(processed@.map_values(|s: String| s@) =~= Seq::<Seq<char>>::empty());
        }
        RecordGenerations { encoding, pending: entries, processed }
    }

    /// The next generation: every pending record whose present parents have
    /// been listed, as (path, hash) in their original order. `None` when no
    /// pending record is ready; then nothing changes.
    pub fn next_generation(&mut self) -> (res: Option<Vec<(String, Vec<u8>)>>)
        requires
            old(self).wf(),
        ensures
            final(self).wf(),
            final(self).spec_encoding() == old(self).spec_encoding(),
            ({
                let enc = old(self).spec_encoding();
                let done = old(self).processed();
                let ready = ready_entries(old(self).pending(), enc, done);
                let rest = waiting_entries(old(self).pending(), enc, done);
                &&& res is None <==> ready.len() == 0
                &&& res is None ==> final(self).pending() == old(self).pending()
                    && final(self).processed() == old(self).processed()
                &&& res matches Some(g) ==> {
                    &&& g@.len() == ready.len()
                    &&& forall|i: int| 0 <= i < ready.len() ==> {
                        &&& (#[trigger] generation_view(g@)[i]).0 == ready[i].1
                        &&& enc.spec_decode(ready[i].0) == Some(generation_view(g@)[i].1)
                    }
                    &&& final(self).pending() == rest
                    &&& final(self).processed() == old(self).processed()
                        + generation_view(g@).map_values(|p: (Seq<char>, Seq<u8>)| enc.spec_encode(p.1))
                }
            }),
    {
        let enc = self.encoding;
        let ghost done = self.processed();
        let ghost all = self.pending();
        let ghost rp = |e: EntryView| entry_ready(e, enc, done);
        let ghost np = |e: EntryView| !entry_ready(e, enc, done);
        let ghost raw = self.pending@;
        let mut entries: Vec<RecordEntry> = Vec::new();
        std::mem::swap(&mut entries, &mut self.pending);
        let _ = entries.len();
        let mut ready: Vec<(String, Vec<u8>)> = Vec::new();
        let mut ready_names: Vec<Vec<u8>> = Vec::new();
        let mut rest: Vec<RecordEntry> = Vec::new();
        let mut i: usize = 0;
        proof {
            reveal(Seq::filter);
            assert(raw.skip(0) =~= raw);
            assert(all.skip(0) =~= all);
            assert(all.take(0) =~= Seq::<EntryView>::empty());
            assert(generation_view(ready@) =~= Seq::empty());
            assert(entries_view(rest@) =~= Seq::empty());
        }
        while entries.len() > 0
            invariant
                i <= all.len(),
                all.len() <= usize::MAX,
                entries_view(entries@) == all.skip(i as int),
                entries@ == raw.skip(i as int),
                all == entries_view(raw),
                raw.len() == all.len(),
                forall|k: int| 0 <= k < raw.len() ==> vstd::utf8::encode_utf8((#[trigger] raw[k]).name@).len() <= usize::MAX / 512,
                forall|k: int| 0 <= k < rest@.len() ==> vstd::utf8::encode_utf8((#[trigger] rest@[k]).name@).len() <= usize::MAX / 512,
                forall|k: int| 0 <= k < ready@.len() ==> (#[trigger] ready@[k]).1@.len() <= usize::MAX / 512,
                entries@.len() == all.len() - i,
                rp == (|e: EntryView| entry_ready(e, enc, done)),
                np == (|e: EntryView| !entry_ready(e, enc, done)),
                done == self.processed@.map_values(|s: String| s@),
                enc == self.encoding,
                ready@.len() == all.take(i as int).filter(rp).len(),
                forall|k: int| 0 <= k < ready@.len() ==> {
                    &&& (#[trigger] generation_view(ready@)[k]).0 == all.take(i as int).filter(rp)[k].1
                    &&& enc.spec_decode(all.take(i as int).filter(rp)[k].0) == Some(generation_view(ready@)[k].1)
                },
                entries_view(rest@) == all.take(i as int).filter(np),
                ready@.len() == 0 ==> entries_view(rest@) == all.take(i as int),
            decreases entries@.len(),
        {
            let ghost before = entries@;
            let e = entries.remove(0);
            proof {
                before.remove_ensures(0);
                assert(e == before[0]);
                assert(before[0] == raw.skip(i as int)[0]);
                assert(e == raw[i as int]);
                assert forall|k: int| 0 <= k < entries@.len() implies #[trigger] entries@[k] == raw.skip(i + 1)[k] by {
                    assert(entries@[k] == before[k + 1]);
                    assert(before[k + 1] == raw.skip(i as int)[k + 1]);
                }
                assert(entries@ =~= raw.skip(i + 1));
                assert(entries_view(before)[0] == entry_view(e));
                assert(entry_view(e) == all[i as int]);
                assert forall|k: int| 0 <= k < entries@.len() implies #[trigger] entries_view(entries@)[k] == all.skip(i + 1)[k] by {
                    assert(entries@[k] == before[k + 1]);
                    assert(entries_view(before)[k + 1] == all.skip(i as int)[k + 1]);
                }
                assert(entries_view(entries@) =~= all.skip(i + 1));
                assert(all.take(i + 1).drop_last() == all.take(i as int));
                assert(all.take(i + 1).last() == all[i as int]);
            }
            let decoded = if e.is_dir { enc.decode(e.name.as_str()) } else { None };
            let parents_ok = match &e.parents {
                None => {
                    proof {
                        assert(entry_view(e).3 is None);
                    }
                    false
                },
                Some(links) => {
                    let mut ok = true;
                    let mut j: usize = 0;
                    while j < links.len()
                        invariant
                            j <= links@.len(),
                            done == self.processed@.map_values(|s: String| s@),
                            ok == (forall|k: int| 0 <= k < j && (#[trigger] links@[k]).is_record ==> done.contains(links@[k].name@)),
                        decreases links@.len() - j,
                    {
                        if links[j].is_record {
                            let found = contains_name(&self.processed, links[j].name.as_str());
                            proof {
                                if found {
                                    let w = choose|w: int| 0 <= w < self.processed@.len() && #[trigger] self.processed@[w]@ == links@[j as int].name@;
                                    assert(done[w] == self.processed@[w]@);
                                } else {
                                    assert forall|w: int| 0 <= w < done.len() implies done[w] != links@[j as int].name@ by {
                                        assert(done[w] == self.processed@[w]@);
                                    }
                                }
                            }
                            ok = ok && found;
                        }
                        j = j + 1;
                    }
                    proof {
                        let lv = links_view(links@);
                        if ok {
                            assert forall|k: int| 0 <= k < lv.len() && (#[trigger] lv[k]).1 implies done.contains(lv[k].0) by {
                                assert(lv[k] == (links@[k].name@, links@[k].is_record));
                            }
                        }
                        if !ok {
                            let k = choose|k: int| 0 <= k < links@.len() && (#[trigger] links@[k]).is_record && !done.contains(links@[k].name@);
                            assert(lv[k] == (links@[k].name@, links@[k].is_record));
                        }
                        assert(entry_view(e).3 == Some(lv));
                        assert(ok == parents_processed(entry_view(e).3, done));
                    }
                    ok
                },
            };
            proof {
                assert(parents_ok == parents_processed(entry_view(e).3, done));
                reveal(Seq::filter);
            }
            match decoded {
                Some(hash) => {
                    if parents_ok {
                        proof {
                            assert(rp(all[i as int]));
                            assert(all.take(i + 1).filter(rp) == all.take(i as int).filter(rp).push(all[i as int]));
                            assert(all.take(i + 1).filter(np) == all.take(i as int).filter(np));
                        }
                        let ghost old_ready = ready@;
                        ready.push((e.path, hash));
                        proof {
                            assert forall|k: int| 0 <= k < ready@.len() implies #[trigger] generation_view(ready@)[k] == (ready@[k].0@, ready@[k].1@) by {}
                            assert forall|k: int| 0 <= k < old_ready.len() implies #[trigger] generation_view(ready@)[k] == generation_view(old_ready)[k] by {}
                        }
                    } else {
                        proof {
                            assert(!rp(all[i as int]));
                            assert(all.take(i + 1).filter(rp) == all.take(i as int).filter(rp));
                            assert(all.take(i + 1).filter(np) == all.take(i as int).filter(np).push(all[i as int]));
                        }
                        let ghost old_rest = rest@;
                        rest.push(e);
                        proof {
                            assert(entries_view(rest@) =~= entries_view(old_rest).push(all[i as int]));
                        }
                    }
                },
                None => {
                    proof {
                        assert(!rp(all[i as int]));
                        assert(all.take(i + 1).filter(rp) == all.take(i as int).filter(rp));
                        assert(all.take(i + 1).filter(np) == all.take(i as int).filter(np).push(all[i as int]));
                    }
                    let ghost old_rest = rest@;
                    rest.push(e);
                    proof {
                        assert(entries_view(rest@) =~= entries_view(old_rest).push(all[i as int]));
                    }
                },
            }
            i = i + 1;
        }
        proof {
            assert(all.take(all.len() as int) == all);
        }
        self.pending = rest;
        if ready.len() == 0 {
            return None;
        }
        let mut k: usize = 0;
        let ghost start = self.processed@;
        while k < ready.len()
            invariant
                k <= ready@.len(),
                forall|m: int| 0 <= m < ready@.len() ==> (#[trigger] ready@[m]).1@.len() <= usize::MAX / 512,
                entries_view(self.pending@) == all.filter(np),
                forall|m: int| 0 <= m < self.pending@.len() ==> vstd::utf8::encode_utf8((#[trigger] self.pending@[m]).name@).len() <= usize::MAX / 512,
                self.processed@.map_values(|s: String| s@) == start.map_values(|s: String| s@)
                    + generation_view(ready@).take(k as int).map_values(|p: (Seq<char>, Seq<u8>)| enc.spec_encode(p.1)),
                enc == self.encoding,
            decreases ready@.len() - k,
        {
            let name = enc.encode(ready[k].1.as_slice());
            let ghost before = self.processed@;
            self.processed.push(name);
            proof {
                let gv = generation_view(ready@);
                assert(gv[k as int].1 == ready@[k as int].1@);
                assert(gv.take(k + 1) == gv.take(k as int).push(gv[k as int]));
                assert(self.processed@.map_values(|s: String| s@) =~= before.map_values(|s: String| s@).push(name@));
                assert(gv.take(k + 1).map_values(|p: (Seq<char>, Seq<u8>)| enc.spec_encode(p.1))
                    =~= gv.take(k as int).map_values(|p: (Seq<char>, Seq<u8>)| enc.spec_encode(p.1)).push(enc.spec_encode(gv[k as int].1)));
            }
            k = k + 1;
        }
        proof {
            assert(generation_view(ready@).take(ready@.len() as int) == generation_view(ready@));
        }
        Some(ready)
    }
}

proof fn lemma_filter_partition_len(s: Seq<EntryView>, p: spec_fn(EntryView) -> bool)
    ensures
        s.filter(p).len() + s.filter(|e: EntryView| !p(e)).len() == s.len(),
    decreases s.len(),
{
    reveal(Seq::filter);
    if s.len() > 0 {
        lemma_filter_partition_len(s.drop_last(), p);
    }
}

/// Records come after their parents: every record of a generation links, as
/// present parents, only to records listed before it.
pub proof fn law_parents_listed_first(pending: Seq<EntryView>, encoding: Encoding, done: Seq<Seq<char>>, i: int, k: int)
    requires
        0 <= i < ready_entries(pending, encoding, done).len(),
        ready_entries(pending, encoding, done)[i].3 matches Some(ls) && 0 <= k < ls.len() && ls[k].1,
    ensures
        ready_entries(pending, encoding, done)[i].3 matches Some(ls) && done.contains(ls[k].0),
{
    let p = |e: EntryView| entry_ready(e, encoding, done);
    pending.lemma_filter_pred(p, i);
    let e = pending.filter(p)[i];
    let ls = e.3->0;
    assert(ls[k].1);
}

/// Listing makes progress: a generation that is listed leaves fewer records
/// pending, so listing generations one after another comes to an end; a
/// listed record is never listed again, since it no longer is pending.
pub proof fn law_listing_progresses(pending: Seq<EntryView>, encoding: Encoding, done: Seq<Seq<char>>)
    requires
        ready_entries(pending, encoding, done).len() > 0,
    ensures
        waiting_entries(pending, encoding, done).len() < pending.len(),
        forall|i: int| 0 <= i < waiting_entries(pending, encoding, done).len() ==>
            !entry_ready(#[trigger] waiting_entries(pending, encoding, done)[i], encoding, done),
{
    let p = |e: EntryView| entry_ready(e, encoding, done);
    lemma_filter_partition_len(pending, p);
    let np = |e: EntryView| !entry_ready(e, encoding, done);
    assert((|e: EntryView| !p(e)) == np);
    assert forall|i: int| 0 <= i < pending.filter(np).len() implies !entry_ready(#[trigger] pending.filter(np)[i], encoding, done) by {
        pending.lemma_filter_pred(np, i);
    }
}

} // verus!
