//! The lexicon: dataset entries grouped into lemmas, put in a stable order,
//! and counted for ranking.

pub mod lemma;
pub mod patch;
pub mod phonetics;
pub mod pos;

use vstd::prelude::*;
use std::collections::HashMap;

use self::lemma::{
    entry_ids, has_lemma_fields, is_lemma_of, is_min_of, is_phrase_analysis, merge_conflict,
    pos_failure, same_root, transcription_failure, DatasetEntry, Definition, EntryError, Lemma,
    MergeError, Phrase,
};
use self::lemma::pos_result;
use self::patch::{
    corrected_analysis, is_dropped, is_patch_of, mismatches, patch_entry, patch_mismatch, patch_panics, PatchError,
};
use self::phonetics::caphipp_to_ipa_spec;
use self::pos::{pos_order, pos_rank, PosError, PosErrorV};
use crate::normalized::{nfkc_text, str_eq, NonFoldedNfkcNormalizedString};
use crate::sorting::{
    arrange, is_permutation, lemma_arranged_same_items, sorts_stably, stable_order,
};
use crate::text::{chars_of, find, find_char, string_from_range};
use crate::query::matching::{lemma_bare_term_fields, query_matches, term_matches_searchable, Matches};
use crate::query::{LeafV, Operator, Query, QueryV, TermV};
use crate::tf_idf::{
    key3, lemma_counted_keys_present, lemma_keys, lemma_lemma_keys_cover_fields, lemma_term_keys, query_term_keys, text_keys, trigram_key, DocumentTermFrequencies,
    InverseDocumentFrequencies,
};

verus! {

broadcast use vstd::std_specs::hash::group_hash_axioms;

/// Why the lexicon could not be built.
#[derive(Debug)]
pub enum BuildError {
    /// An entry did not hold what the correction for its id expects.
    Patch(PatchError),
    /// An entry could not be converted.
    Entry(EntryError),
    /// An entry belongs to the lemma of another but disagrees with it.
    Merge { new_id: u32, existing_id: u32, error: MergeError },
    /// A lemma has more trigrams than its count can hold.
    TooManyTerms { lowest_id: u32 },
    /// More documents than the counts can hold.
    TooManyDocuments,
}

/// The part of the ANALYSIS field before its first colon, normalized: the
/// part of speech by which entries are grouped.
pub open spec fn pos_key(analysis: Seq<char>) -> Seq<char> {
    nfkc_text(analysis.subrange(0, find(analysis, 0, ':')))
}

/// The lemma `a` with part of speech `apos` and the lemma `b` with part of
/// speech `bpos` are one lemma: same root, same Buckwalter form, same part
/// of speech.
pub open spec fn same_group(a: Lemma, apos: Seq<char>, b: Lemma, bpos: Seq<char>) -> bool {
    &&& same_root(a.root, b.root)
    &&& a.lemma_bw.searchable@ == b.lemma_bw.searchable@
    &&& apos == bpos
}

pub open spec fn char_or_space(s: Seq<char>, i: int) -> char {
    if 0 <= i < s.len() {
        s[i]
    } else {
        ' '
    }
}

/// The bucket of a lemma in the builder's index, made of a few characters
/// of its Buckwalter form.
pub open spec fn bucket_of(bw: Seq<char>) -> u128 {
    key3(char_or_space(bw, 0), char_or_space(bw, 1), char_or_space(bw, bw.len() - 1))
}

/// `m` is `a` with the definitions and phrases of `b` appended.
pub open spec fn is_merge_of(m: Lemma, a: Lemma, b: Lemma) -> bool {
    &&& m.definitions@ == a.definitions@ + b.definitions@
    &&& m.phrases@ == a.phrases@ + b.phrases@
    &&& is_min_of(m.lowest_id, entry_ids(m.definitions@, m.phrases@))
    &&& m.root == a.root
    &&& m.root_1 == a.root_1
    &&& m.lemma == a.lemma
    &&& m.lemma_search == a.lemma_search
    &&& m.lemma_bw == a.lemma_bw
}

/// One of the groups `gs`, with parts of speech `ps`, is the one that `l`
/// with part of speech `pos` belongs to.
pub open spec fn has_group(gs: Seq<Lemma>, ps: Seq<Seq<char>>, l: Lemma, pos: Seq<char>) -> bool {
    exists|j: int| 0 <= j < gs.len() && #[trigger] same_group(l, pos, gs[j], ps[j])
}

/// The index of the group that `l` with part of speech `pos` belongs to.
pub open spec fn group_of(gs: Seq<Lemma>, ps: Seq<Seq<char>>, l: Lemma, pos: Seq<char>) -> int {
    choose|j: int| 0 <= j < gs.len() && #[trigger] same_group(l, pos, gs[j], ps[j])
}

/// `gs2`, `ps2` are the groups `gs`, `ps` with `l` added: merged into the
/// group it belongs to, or as a new group at the end.
pub open spec fn adds(
    gs: Seq<Lemma>,
    ps: Seq<Seq<char>>,
    gs2: Seq<Lemma>,
    ps2: Seq<Seq<char>>,
    l: Lemma,
    pos: Seq<char>,
) -> bool {
    if has_group(gs, ps, l, pos) {
        let j = group_of(gs, ps, l, pos);
        &&& merge_conflict(gs[j], l) is None
        &&& ps2 == ps
        &&& gs2.len() == gs.len()
        &&& forall|i: int| 0 <= i < gs.len() && i != j ==> #[trigger] gs2[i] == gs[i]
        &&& is_merge_of(gs2[j], gs[j], l)
    } else {
        &&& gs2 == gs.push(l)
        &&& ps2 == ps.push(pos)
    }
}

/// `l` and `fail` are what converting the corrected entry `p` gives.
pub open spec fn entry_lemma(l: Lemma, fail: Option<PosError>, p: DatasetEntry) -> bool {
    &&& caphipp_to_ipa_spec(p.caphipp@) is Ok
    &&& is_lemma_of(l, p)
    &&& (!is_phrase_analysis(p.analysis@) ==> pos_failure(p.analysis@, fail))
    &&& (is_phrase_analysis(p.analysis@) ==> fail is None)
}

/// The record of a failure to parse the part of speech of entry `id`.
pub open spec fn failure_record(id: u32, fail: Option<PosError>) -> Seq<(u32, PosErrorV)> {
    match fail {
        Some(e) => seq![(id, e@)],
        None => Seq::empty(),
    }
}

/// Adding the entry reads a field that it lacks.
pub open spec fn add_panics(e: DatasetEntry) -> bool {
    ||| patch_panics(e)
    ||| (!patch_mismatch(e) && !is_dropped(e) && !has_lemma_fields(e))
}

/// Groups dataset entries into lemmas.
pub struct LexiconBuilder {
    groups: Vec<Lemma>,
    /// The part of speech of each group.
    positions: Vec<NonFoldedNfkcNormalizedString>,
    /// For each bucket, the groups in it.
    buckets: HashMap<u128, Vec<usize>>,
    /// The entries whose part of speech could not be parsed.
    pos_failures: Vec<(u32, PosError)>,
}

impl LexiconBuilder {
    /// The groups so far, in the order they were first seen.
    pub closed spec fn groups(&self) -> Seq<Lemma> {
        self.groups@
    }

    /// The part of speech of each group.
    pub closed spec fn positions(&self) -> Seq<Seq<char>> {
        self.positions@.map_values(|p: NonFoldedNfkcNormalizedString| p@)
    }

    /// The entries whose part of speech could not be parsed, in order.
    pub closed spec fn failures(&self) -> Seq<(u32, PosErrorV)> {
        self.pos_failures@.map_values(|f: (u32, PosError)| (f.0, f.1@))
    }

    /// The groups have distinct keys, none is empty, and each is in the
    /// bucket of its Buckwalter form.
    pub closed spec fn wf(&self) -> bool {
        let n = self.groups@.len();
        &&& self.positions@.len() == n
        &&& forall|j: int|
            0 <= j < n ==> (#[trigger] self.groups@[j]).definitions@.len()
                + self.groups@[j].phrases@.len() > 0
        &&& forall|j: int|
            0 <= j < n ==> {
                let b = bucket_of((#[trigger] self.groups@[j]).lemma_bw.searchable@);
                &&& self.buckets@.contains_key(b)
                &&& self.buckets@[b]@.contains(j as usize)
            }
        &&& forall|b: u128, k: int|
            #![trigger self.buckets@[b]@[k]]
            self.buckets@.contains_key(b) && 0 <= k < self.buckets@[b]@.len()
                ==> self.buckets@[b]@[k] < n
        &&& forall|i: int, j: int|
            #![trigger self.groups@[i], self.groups@[j]]
            0 <= i < n && 0 <= j < n && i != j ==> !same_group(
                self.groups@[i],
                self.positions@[i]@,
                self.groups@[j],
                self.positions@[j]@,
            )
    }

    /// No entries yet.
    pub fn new() -> (b: Self)
        ensures
            b.wf(),
            b.groups() == Seq::<Lemma>::empty(),
            b.positions() == Seq::<Seq<char>>::empty(),
            b.failures() == Seq::<(u32, PosErrorV)>::empty(),
    {
        let b = LexiconBuilder {
            groups: Vec::new(),
            positions: Vec::new(),
            buckets: HashMap::new(),
            pos_failures: Vec::new(),
        };
        assert(b.positions() =~= Seq::<Seq<char>>::empty());
        assert(b.failures() =~= Seq::<(u32, PosErrorV)>::empty());
        b
    }

    /// The entries whose part of speech could not be parsed, with their ids.
    pub fn pos_failures(&self) -> (f: &Vec<(u32, PosError)>)
        ensures
            f@.map_values(|x: (u32, PosError)| (x.0, x.1@)) == self.failures(),
    {
        &self.pos_failures
    }

    /// The group that `l` with part of speech `pos` belongs to, if any.
    fn find_group(&self, l: &Lemma, pos: &NonFoldedNfkcNormalizedString) -> (r: Option<usize>)
        requires
            self.wf(),
        ensures
            match r {
                Some(j) => j < self.groups().len() && same_group(
                    *l,
                    pos@,
                    self.groups()[j as int],
                    self.positions()[j as int],
                ),
                None => !has_group(self.groups(), self.positions(), *l, pos@),
            },
    {
        let b = bucket(l.lemma_bw.searchable.as_str());
        let n = self.groups.len();
        match self.buckets.get(&b) {
            None => {
                proof {
                    assert forall|j: int| 0 <= j < n implies !#[trigger] same_group(
                        *l,
                        pos@,
                        self.groups()[j],
                        self.positions()[j],
                    ) by {
                        if same_group(*l, pos@, self.groups()[j], self.positions()[j]) {
                            assert(self.groups@[j].lemma_bw.searchable@
                                == l.lemma_bw.searchable@);
                            assert(self.buckets@.contains_key(b));
                        }
                    }
                }
                None
            },
            Some(v) => {
                let mut k: usize = 0;
                while k < v.len()
                    invariant
                        self.wf(),
                        n == self.groups@.len(),
                        self.buckets@.contains_key(b),
                        self.buckets@[b] == *v,
                        b == bucket_of(l.lemma_bw.searchable@),
                        k <= v@.len(),
                        forall|m: int|
                            0 <= m < k ==> !#[trigger] same_group(
                                *l,
                                pos@,
                                self.groups()[v@[m] as int],
                                self.positions()[v@[m] as int],
                            ),
                    decreases v@.len() - k,
                {
                    let idx = v[k];
                    assert(self.buckets@[b]@[k as int] < n);
                    let g = &self.groups[idx];
                    if l.root.eq(&g.root) && str_eq(
                        l.lemma_bw.searchable.as_str(),
                        g.lemma_bw.searchable.as_str(),
                    ) && str_eq(pos.as_str(), self.positions[idx].as_str()) {
                        return Some(idx);
                    }
                    k = k + 1;
                }
                proof {
                    assert forall|j: int| 0 <= j < n implies !#[trigger] same_group(
                        *l,
                        pos@,
                        self.groups()[j],
                        self.positions()[j],
                    ) by {
                        if same_group(*l, pos@, self.groups()[j], self.positions()[j]) {
                            assert(self.groups@[j].lemma_bw.searchable@
                                == l.lemma_bw.searchable@);
                            assert(v@.contains(j as usize));
                            let m = choose|m: int| 0 <= m < v@.len() && v@[m] == j as usize;
                            assert(!same_group(
                                *l,
                                pos@,
                                self.groups()[v@[m] as int],
                                self.positions()[v@[m] as int],
                            ));
                        }
                    }
                }
                None
            },
        }
    }
}

/// The two builders hold the same groups and failures.
pub open spec fn unchanged(a: LexiconBuilder, b: LexiconBuilder) -> bool {
    &&& a.groups() == b.groups()
    &&& a.positions() == b.positions()
    &&& a.failures() == b.failures()
}

impl LexiconBuilder {
    /// Adds a dataset entry: corrects it, converts it into a lemma, and
    /// merges that into the lemma of its group or starts a new group.  The
    /// builder is left unchanged where this fails.
    pub fn add_entry(&mut self, entry: DatasetEntry) -> (res: Result<(), BuildError>)
        requires
            old(self).wf(),
            !add_panics(entry),
        ensures
            final(self).wf(),
            match res {
                Ok(()) => {
                    ||| (!patch_mismatch(entry) && is_dropped(entry) && unchanged(
                        *old(self),
                        *final(self),
                    ))
                    ||| exists|p: DatasetEntry, l: Lemma, fail: Option<PosError>|
                        #![trigger is_patch_of(p, entry), entry_lemma(l, fail, p)]
                        {
                            &&& is_patch_of(p, entry)
                            &&& !patch_mismatch(entry)
                            &&& !is_dropped(entry)
                            &&& entry_lemma(l, fail, p)
                            &&& adds(
                                old(self).groups(),
                                old(self).positions(),
                                final(self).groups(),
                                final(self).positions(),
                                l,
                                pos_key(p.analysis@),
                            )
                            &&& final(self).failures() == old(self).failures() + failure_record(
                                p.id,
                                fail,
                            )
                        }
                },
                Err(BuildError::Patch(e)) => {
                    &&& patch_mismatch(entry)
                    &&& e.id == entry.id
                    &&& unchanged(*old(self), *final(self))
                },
                Err(BuildError::Entry(e)) => {
                    &&& !patch_mismatch(entry)
                    &&& !is_dropped(entry)
                    &&& exists|p: DatasetEntry|
                        #[trigger] is_patch_of(p, entry) && transcription_failure(p, e)
                    &&& unchanged(*old(self), *final(self))
                },
                Err(BuildError::Merge { new_id, existing_id, error }) => {
                    &&& exists|p: DatasetEntry, l: Lemma, fail: Option<PosError>|
                        #![trigger is_patch_of(p, entry), entry_lemma(l, fail, p)]
                        {
                            let pos = pos_key(p.analysis@);
                            let j = group_of(old(self).groups(), old(self).positions(), l, pos);
                            &&& is_patch_of(p, entry)
                            &&& !patch_mismatch(entry)
                            &&& !is_dropped(entry)
                            &&& entry_lemma(l, fail, p)
                            &&& has_group(old(self).groups(), old(self).positions(), l, pos)
                            &&& merge_conflict(old(self).groups()[j], l) == Some(error)
                            &&& new_id == l.lowest_id
                            &&& existing_id == old(self).groups()[j].lowest_id
                        }
                    &&& unchanged(*old(self), *final(self))
                },
                Err(_) => false,
            },
    {
        let ghost e0 = entry;
        let p = match patch_entry(entry) {
            Err(e) => return Err(BuildError::Patch(e)),
            Ok(None) => return Ok(()),
            Ok(Some(p)) => p,
        };
        let ghost p0 = p;
        let pos = pos_key_of(p.analysis.as_str());
        let pid = p.id;
        let (l, fail) = match Lemma::try_from(p) {
            Ok(x) => x,
            Err(e) => {
                assert(is_patch_of(p0, e0));
                return Err(BuildError::Entry(e));
            },
        };
        let ghost l0 = l;
        let ghost f0 = fail;
        proof {
            assert(is_patch_of(p0, e0) && entry_lemma(l0, f0, p0));
        }
        match self.find_group(&l, &pos) {
            Some(j) => {
                let existing_id = self.groups[j].lowest_id;
                let new_id = l.lowest_id;
                let ghost before = self.groups@;
                let r = self.groups[j].merge(l);
                match r {
                    Err(error) => {
                        assert(self.groups@ =~= before);
                        return Err(BuildError::Merge { new_id, existing_id, error });
                    },
                    Ok(()) => {},
                }
                proof {
                    let gs = before;
                    let ps = self.positions();
                    assert(self.groups@ == before.update(j as int, self.groups@[j as int]));
                    assert(same_group(l0, pos@, gs[j as int], ps[j as int]));
                    let j2 = group_of(gs, ps, l0, pos@);
                    assert(j2 == j) by {
                        if j2 != j {
                            assert(same_group(gs[j as int], ps[j as int], gs[j2], ps[j2]));
                        }
                    }
                    assert forall|i: int, k: int|
                        #![trigger self.groups@[i], self.groups@[k]]
                        0 <= i < gs.len() && 0 <= k < gs.len() && i != k implies !same_group(
                            self.groups@[i],
                            self.positions@[i]@,
                            self.groups@[k],
                            self.positions@[k]@,
                        ) by {
                        assert(!same_group(gs[i], self.positions@[i]@, gs[k], self.positions@[k]@));
                    }
                    assert forall|i: int| 0 <= i < gs.len() implies {
                        let b = bucket_of((#[trigger] self.groups@[i]).lemma_bw.searchable@);
                        &&& self.buckets@.contains_key(b)
                        &&& self.buckets@[b]@.contains(i as usize)
                    } by {
                        assert(self.groups@[i].lemma_bw == gs[i].lemma_bw);
                    }
                }
            },
            None => {
                let b = bucket(l.lemma_bw.searchable.as_str());
                let n = self.groups.len();
                let ghost old_buckets = self.buckets@;
                let mut v = match self.buckets.remove(&b) {
                    Some(v) => v,
                    None => Vec::new(),
                };
                let ghost old_v = v@;
                proof {
                    assert(old_v == if old_buckets.contains_key(b) {
                        old_buckets[b]@
                    } else {
                        Seq::<usize>::empty()
                    });
                }
                v.push(n);
                self.buckets.insert(b, v);
                let ghost gs = self.groups@;
                let ghost ps = self.positions();
                self.groups.push(l);
                self.positions.push(pos);
                proof {
                    assert(self.positions() =~= ps.push(pos@));
                    assert(self.groups@ == gs.push(l0));
                    assert forall|i: int| 0 <= i < self.groups@.len() implies {
                        let bi = bucket_of((#[trigger] self.groups@[i]).lemma_bw.searchable@);
                        &&& self.buckets@.contains_key(bi)
                        &&& self.buckets@[bi]@.contains(i as usize)
                    } by {
                        let bi = bucket_of(self.groups@[i].lemma_bw.searchable@);
                        if i == n {
                            assert(self.buckets@[b]@[old_v.len() as int] == n);
                        } else {
                            assert(old_buckets.contains_key(bi));
                            assert(old_buckets[bi]@.contains(i as usize));
                            if bi == b {
                                let m = choose|m: int|
                                    0 <= m < old_v.len() && old_v[m] == i as usize;
                                assert(self.buckets@[b]@[m] == i as usize);
                            }
                        }
                    }
                    assert forall|bb: u128, k: int|
                        #![trigger self.buckets@[bb]@[k]]
                        self.buckets@.contains_key(bb) && 0 <= k < self.buckets@[bb]@.len()
                            implies self.buckets@[bb]@[k] < self.groups@.len() by {
                        if bb == b {
                            if k < old_v.len() {
                                assert(old_buckets[b]@[k] < n);
                            }
                        } else {
                            assert(old_buckets[bb]@[k] < n);
                        }
                    }
                    assert forall|i: int, k: int|
                        #![trigger self.groups@[i], self.groups@[k]]
                        0 <= i < self.groups@.len() && 0 <= k < self.groups@.len() && i != k implies !same_group(
                            self.groups@[i],
                            self.positions@[i]@,
                            self.groups@[k],
                            self.positions@[k]@,
                        ) by {
                        if i == n {
                            assert(!same_group(l0, pos@, gs[k], ps[k]));
                        } else if k == n {
                            assert(!same_group(l0, pos@, gs[i], ps[i]));
                        } else {
                            assert(!same_group(gs[i], self.positions@[i]@, gs[k], self.positions@[k]@));
                        }
                    }
                }
            },
        }
        let ghost fs = self.failures();
        match fail {
            Some(f) => {
                self.pos_failures.push((pid, f));
                assert(self.failures() =~= fs + failure_record(pid, f0));
            },
            None => {
                assert(self.failures() =~= fs + failure_record(pid, f0));
            },
        }
        assert(is_patch_of(p0, e0) && entry_lemma(l0, f0, p0));
        Ok(())
    }
}

/// Whether adding the entry would read a field that it lacks.
pub fn add_would_panic(entry: &DatasetEntry) -> (r: bool)
    ensures
        r == add_panics(*entry),
{
    let id = entry.id;
    if id == 2737 && entry.root_ntws.is_none() {
        return true;
    }
    let dropped = id == 29598 || id == 29607 || id == 29614 || id == 31411;
    if dropped && entry.lemma_bw.is_none() {
        return true;
    }
    if dropped || mismatches(entry) {
        return false;
    }
    entry.root.is_none() || entry.lemma.is_none() || entry.lemma_search.is_none()
        || entry.lemma_bw.is_none()
}

/// The sort key of a definition: its part of speech, then its id.
pub open spec fn definition_key(d: Definition) -> u64 {
    (pos_rank(d.pos) * 0x1_0000_0000 + d.id) as u64
}

pub open spec fn definition_keys(ds: Seq<Definition>) -> Seq<u64> {
    ds.map_values(|d: Definition| definition_key(d))
}

pub open spec fn phrase_keys(ps: Seq<Phrase>) -> Seq<u64> {
    ps.map_values(|p: Phrase| p.id as u64)
}

pub open spec fn lowest_ids(ls: Seq<Lemma>) -> Seq<u64> {
    ls.map_values(|l: Lemma| l.lowest_id as u64)
}

/// `out` is `l` with its definitions in a stable order by part of speech
/// and id, and its phrases in a stable order by id.
pub open spec fn entries_ordered(out: Lemma, l: Lemma) -> bool {
    &&& out.lowest_id == l.lowest_id
    &&& out.root == l.root
    &&& out.root_1 == l.root_1
    &&& out.lemma == l.lemma
    &&& out.lemma_search == l.lemma_search
    &&& out.lemma_bw == l.lemma_bw
    &&& exists|order: Seq<usize>|
        #[trigger] sorts_stably(order, definition_keys(l.definitions@)) && out.definitions@
            == order.map_values(|i: usize| l.definitions@[i as int])
    &&& exists|order: Seq<usize>|
        #[trigger] sorts_stably(order, phrase_keys(l.phrases@)) && out.phrases@ == order.map_values(
            |i: usize| l.phrases@[i as int],
        )
}

/// `out` is the groups `gs` in a stable order by lowest id, each with its
/// entries ordered.
pub open spec fn lemmas_ordered(out: Seq<Lemma>, gs: Seq<Lemma>) -> bool {
    exists|order: Seq<usize>|
        #[trigger] sorts_stably(order, lowest_ids(gs)) && out.len() == gs.len() && forall|k: int|
            0 <= k < out.len() ==> entries_ordered(#[trigger] out[k], gs[order[k] as int])
}

/// Puts the definitions and phrases of a lemma in order.
fn order_entries(l: Lemma) -> (out: Lemma)
    ensures
        entries_ordered(out, l),
{
    let ghost l0 = l;
    let Lemma { lowest_id, root, root_1, lemma, lemma_search, lemma_bw, definitions, phrases } = l;
    let mut dkeys: Vec<u64> = Vec::new();
    let mut i: usize = 0;
    while i < definitions.len()
        invariant
            i <= definitions.len(),
            definitions@ == l0.definitions@,
            dkeys@ == definition_keys(definitions@.take(i as int)),
        decreases definitions.len() - i,
    {
        let d = &definitions[i];
        dkeys.push(pos_order(d.pos) * 0x1_0000_0000u64 + d.id as u64);
        assert(definitions@.take(i + 1) =~= definitions@.take(i as int).push(definitions@[i as int]));
        assert(dkeys@ =~= definition_keys(definitions@.take(i + 1)));
        i = i + 1;
    }
    assert(definitions@.take(i as int) =~= definitions@);
    let dorder = stable_order(&dkeys);
    let definitions = arrange(definitions, &dorder);
    assert(definitions@ =~= dorder@.map_values(|i: usize| l0.definitions@[i as int]));
    let mut pkeys: Vec<u64> = Vec::new();
    let mut k: usize = 0;
    while k < phrases.len()
        invariant
            k <= phrases.len(),
            phrases@ == l0.phrases@,
            pkeys@ == phrase_keys(phrases@.take(k as int)),
        decreases phrases.len() - k,
    {
        pkeys.push(phrases[k].id as u64);
        assert(phrases@.take(k + 1) =~= phrases@.take(k as int).push(phrases@[k as int]));
        assert(pkeys@ =~= phrase_keys(phrases@.take(k + 1)));
        k = k + 1;
    }
    assert(phrases@.take(k as int) =~= phrases@);
    let porder = stable_order(&pkeys);
    let phrases = arrange(phrases, &porder);
    assert(phrases@ =~= porder@.map_values(|i: usize| l0.phrases@[i as int]));
    Lemma { lowest_id, root, root_1, lemma, lemma_search, lemma_bw, definitions, phrases }
}

impl LexiconBuilder {
    /// The lemmas in a stable order by lowest id, each with its definitions
    /// ordered by part of speech and id and its phrases by id.
    pub fn into_lemmas(self) -> (out: Vec<Lemma>)
        requires
            self.wf(),
        ensures
            lemmas_ordered(out@, self.groups()),
    {
        let ghost gs = self.groups@;
        let groups = self.groups;
        let mut ids: Vec<u64> = Vec::new();
        let mut i: usize = 0;
        while i < groups.len()
            invariant
                i <= groups.len(),
                groups@ == gs,
                ids@ == lowest_ids(gs.take(i as int)),
            decreases groups.len() - i,
        {
            ids.push(groups[i].lowest_id as u64);
            assert(gs.take(i + 1) =~= gs.take(i as int).push(gs[i as int]));
            assert(ids@ =~= lowest_ids(gs.take(i + 1)));
            i = i + 1;
        }
        assert(gs.take(i as int) =~= gs);
        let order = stable_order(&ids);
        let sorted = arrange(groups, &order);
        let ghost sv = sorted@;
        let n = sorted.len();
        let mut rest = sorted;
        let mut reversed: Vec<Lemma> = Vec::new();
        while rest.len() > 0
            invariant
                rest@.len() + reversed@.len() == n == sv.len(),
                rest@ == sv.take(rest@.len() as int),
                forall|m: int| 0 <= m < reversed@.len() ==> #[trigger] reversed@[m] == sv[n - 1 - m],
            decreases rest@.len(),
        {
            let l = rest.pop().unwrap();
            reversed.push(l);
        }
        let mut out: Vec<Lemma> = Vec::new();
        while reversed.len() > 0
            invariant
                reversed@.len() + out@.len() == n == sv.len(),
                forall|m: int| 0 <= m < reversed@.len() ==> #[trigger] reversed@[m] == sv[n - 1 - m],
                forall|m: int| 0 <= m < out@.len() ==> entries_ordered(#[trigger] out@[m], sv[m]),
            decreases reversed@.len(),
        {
            let l = reversed.pop().unwrap();
            out.push(order_entries(l));
        }
        assert(sorts_stably(order@, lowest_ids(gs)));
        out
    }
}

/// In how many of the lemmas `ls` the trigram `t` occurs.
pub open spec fn docs_containing(ls: Seq<Lemma>, t: u128) -> nat
    decreases ls.len(),
{
    if ls.len() == 0 {
        0
    } else {
        docs_containing(ls.drop_last(), t) + if lemma_keys(ls.last()).contains(t) {
            1nat
        } else {
            0nat
        }
    }
}

/// Counting the lemma `ls[i]` after the ones before it overflows a count:
/// its own number of trigrams, the number of documents, or the number of
/// documents in which one of its trigrams occurs.
pub open spec fn count_overflow(ls: Seq<Lemma>, i: int) -> bool {
    ||| lemma_keys(ls[i]).len() > u16::MAX
    ||| i >= u32::MAX
    ||| exists|t: u128| #[trigger]
        lemma_keys(ls[i]).contains(t) && docs_containing(ls.take(i), t) >= u16::MAX
}

/// None of the lemmas overflows a count.
pub open spec fn fits_counts(ls: Seq<Lemma>) -> bool {
    forall|i: int| 0 <= i < ls.len() ==> !#[trigger] count_overflow(ls, i)
}

/// The lemmas with the frequencies that ranking needs.
pub struct Lexicon {
    pub lemmas: Vec<Lemma>,
    pub inverse_doc_freqs: InverseDocumentFrequencies,
    /// The trigram frequencies of each lemma, by position.
    pub term_freqs: Vec<DocumentTermFrequencies>,
}

/// The frequencies of `lex` are those of its lemmas.
pub open spec fn counts_lemmas(lex: Lexicon) -> bool {
    let n = lex.lemmas@.len();
    &&& lex.term_freqs@.len() == n
    &&& forall|i: int| 0 <= i < n ==> #[trigger] lex.term_freqs@[i].counts(lemma_keys(lex.lemmas@[i]))
    &&& lex.inverse_doc_freqs.docs() == n
    &&& forall|t: u128| #[trigger] lex.inverse_doc_freqs.with(t) == docs_containing(lex.lemmas@, t)
}

proof fn lemma_docs_containing_at(ls: Seq<Lemma>, i: int, t: u128)
    requires
        0 <= i < ls.len(),
        lemma_keys(ls[i]).contains(t),
    ensures
        docs_containing(ls, t) >= 1,
    decreases ls.len(),
{
    if i < ls.len() - 1 {
        lemma_docs_containing_at(ls.drop_last(), i, t);
    }
}

/// In a lexicon whose counts are those of its lemmas, every trigram of the
/// form, the Buckwalter transcription or an English gloss of a definition of
/// a lemma is counted at least once for that lemma, and in at least one
/// document.
pub proof fn lemma_definition_trigrams_counted(lex: Lexicon, i: int, j: int)
    requires
        counts_lemmas(lex),
        0 <= i < lex.lemmas@.len(),
        0 <= j < lex.lemmas@[i].definitions@.len(),
    ensures
        forall|m: int|
            0 <= m < lex.lemmas@[i].definitions@[j].form.searchable@.len() ==> {
                let k = #[trigger] text_keys(lex.lemmas@[i].definitions@[j].form.searchable@)[m];
                &&& lex.term_freqs@[i].freq(k) >= 1
                &&& lex.inverse_doc_freqs.with(k) >= 1
            },
        forall|m: int|
            0 <= m < lex.lemmas@[i].definitions@[j].transcription.bw@.len() ==> {
                let k = #[trigger] text_keys(lex.lemmas@[i].definitions@[j].transcription.bw@)[m];
                &&& lex.term_freqs@[i].freq(k) >= 1
                &&& lex.inverse_doc_freqs.with(k) >= 1
            },
        forall|g: int, m: int|
            0 <= g < lex.lemmas@[i].definitions@[j].glosses_english@.len() && 0 <= m
                < lex.lemmas@[i].definitions@[j].glosses_english@[g].searchable@.len() ==> {
                let k = #[trigger] text_keys(
                    lex.lemmas@[i].definitions@[j].glosses_english@[g].searchable@,
                )[m];
                &&& lex.term_freqs@[i].freq(k) >= 1
                &&& lex.inverse_doc_freqs.with(k) >= 1
            },
{
    let l = lex.lemmas@[i];
    let d = l.definitions@[j];
    lemma_lemma_keys_cover_fields(l);
    assert(lex.term_freqs@[i].counts(lemma_keys(l)));
    assert forall|m: int| 0 <= m < d.form.searchable@.len() implies {
        let k = #[trigger] text_keys(lex.lemmas@[i].definitions@[j].form.searchable@)[m];
        &&& lex.term_freqs@[i].freq(k) >= 1
        &&& lex.inverse_doc_freqs.with(k) >= 1
    } by {
        let k = text_keys(d.form.searchable@)[m];
        assert(lemma_keys(l).contains(k));
        lemma_counted_keys_present(lex.term_freqs@[i], lemma_keys(l), k);
        lemma_docs_containing_at(lex.lemmas@, i, k);
    }
    assert forall|m: int| 0 <= m < d.transcription.bw@.len() implies {
        let k = #[trigger] text_keys(lex.lemmas@[i].definitions@[j].transcription.bw@)[m];
        &&& lex.term_freqs@[i].freq(k) >= 1
        &&& lex.inverse_doc_freqs.with(k) >= 1
    } by {
        let k = text_keys(d.transcription.bw@)[m];
        assert(lemma_keys(l).contains(k));
        lemma_counted_keys_present(lex.term_freqs@[i], lemma_keys(l), k);
        lemma_docs_containing_at(lex.lemmas@, i, k);
    }
    assert forall|g: int, m: int|
        0 <= g < d.glosses_english@.len() && 0 <= m < d.glosses_english@[g].searchable@.len() implies {
        let k = #[trigger] text_keys(
            lex.lemmas@[i].definitions@[j].glosses_english@[g].searchable@,
        )[m];
        &&& lex.term_freqs@[i].freq(k) >= 1
        &&& lex.inverse_doc_freqs.with(k) >= 1
    } by {
        let k = text_keys(d.glosses_english@[g].searchable@)[m];
        assert(lemma_keys(l).contains(k));
        lemma_counted_keys_present(lex.term_freqs@[i], lemma_keys(l), k);
        lemma_docs_containing_at(lex.lemmas@, i, k);
    }
}

impl Lexicon {
    /// Counts the trigrams of each lemma and, for each trigram, the lemmas
    /// in which it occurs.  Fails at the first lemma that would overflow a
    /// count.
    pub fn from_lemmas(lemmas: Vec<Lemma>) -> (res: Result<Lexicon, BuildError>)
        ensures
            match res {
                Ok(lex) => {
                    &&& lex.lemmas@ == lemmas@
                    &&& counts_lemmas(lex)
                    &&& fits_counts(lemmas@)
                },
                Err(BuildError::TooManyTerms { lowest_id }) => exists|i: int|
                    0 <= i < lemmas@.len() && (forall|j: int|
                        0 <= j < i ==> !#[trigger] count_overflow(lemmas@, j)) && lemma_keys(
                        #[trigger] lemmas@[i],
                    ).len() > u16::MAX && lowest_id == lemmas@[i].lowest_id,
                Err(BuildError::TooManyDocuments) => exists|i: int|
                    0 <= i < lemmas@.len() && (forall|j: int|
                        0 <= j < i ==> !#[trigger] count_overflow(lemmas@, j)) && lemma_keys(
                        #[trigger] lemmas@[i],
                    ).len() <= u16::MAX && count_overflow(lemmas@, i),
                Err(_) => false,
            },
    {
        let ghost ls = lemmas@;
        let mut idf = InverseDocumentFrequencies::new();
        let mut term_freqs: Vec<DocumentTermFrequencies> = Vec::new();
        let mut i: usize = 0;
        while i < lemmas.len()
            invariant
                i <= lemmas@.len(),
                ls == lemmas@,
                forall|j: int| 0 <= j < i ==> !#[trigger] count_overflow(ls, j),
                term_freqs@.len() == i,
                forall|j: int| 0 <= j < i ==> #[trigger] term_freqs@[j].counts(lemma_keys(ls[j])),
                idf.docs() == i,
                forall|t: u128| #[trigger] idf.with(t) == docs_containing(ls.take(i as int), t),
            decreases lemmas@.len() - i,
        {
            let keys = lemma_term_keys(&lemmas[i]);
            if keys.len() > 65535 {
                assert(lemma_keys(ls[i as int]).len() > u16::MAX);
                return Err(BuildError::TooManyTerms { lowest_id: lemmas[i].lowest_id });
            }
            let tfs = DocumentTermFrequencies::from_keys(&keys);
            let ghost before = ls.take(i as int);
            let ghost after = ls.take(i + 1);
            proof {
                assert(after.drop_last() =~= before);
                assert(after.last() == ls[i as int]);
                assert forall|t: u128| #[trigger] tfs.freq(t) > 0 <==> keys@.contains(t) by {
                    crate::tf_idf::lemma_occurrences(keys@, t);
                }
            }
            if !idf.fits(&tfs) {
                proof {
                    if i < u32::MAX {
                        let t = choose|t: u128| !(tfs.freq(t) > 0 ==> #[trigger] idf.with(t) < u16::MAX);
                        assert(keys@.contains(t));
                        assert(lemma_keys(ls[i as int]).contains(t) && docs_containing(before, t) >= u16::MAX);
                    }
                    assert(count_overflow(ls, i as int));
                }
                return Err(BuildError::TooManyDocuments);
            }
            proof {
                assert(!count_overflow(ls, i as int)) by {
                    assert forall|t: u128| #[trigger] lemma_keys(ls[i as int]).contains(t) implies docs_containing(before, t) < u16::MAX by {
                        assert(keys@.contains(t));
                        assert(tfs.freq(t) > 0);
                        assert(idf.with(t) < u16::MAX);
                    }
                }
            }
            idf.add_document(&tfs);
            term_freqs.push(tfs);
            i = i + 1;
        }
        assert(ls.take(i as int) =~= ls);
        Ok(Lexicon { lemmas, inverse_doc_freqs: idf, term_freqs })
    }
}

/// The positions of the lemmas of `ls` that the query matches, ascending.
pub open spec fn matching_positions(q: QueryV, ls: Seq<Lemma>) -> Seq<usize>
    decreases ls.len(),
{
    if ls.len() == 0 {
        Seq::empty()
    } else {
        let rest = matching_positions(q, ls.drop_last());
        if query_matches(q, ls.last()) {
            rest.push((ls.len() - 1) as usize)
        } else {
            rest
        }
    }
}

/// A position is in the search result exactly when the query matches the
/// lemma there; the positions ascend, so each comes once.
pub proof fn lemma_matching_positions(q: QueryV, ls: Seq<Lemma>)
    requires
        ls.len() <= usize::MAX,
    ensures
        forall|i: usize|
            #[trigger] matching_positions(q, ls).contains(i) <==> (i < ls.len() && query_matches(
                q,
                ls[i as int],
            )),
        forall|a: int, b: int|
            0 <= a < b < matching_positions(q, ls).len() ==> matching_positions(q, ls)[a]
                < matching_positions(q, ls)[b],
        forall|a: int|
            0 <= a < matching_positions(q, ls).len() ==> matching_positions(q, ls)[a] < ls.len(),
    decreases ls.len(),
{
    if ls.len() > 0 {
        let init = ls.drop_last();
        lemma_matching_positions(q, init);
        let rest = matching_positions(q, init);
        let n = (ls.len() - 1) as usize;
        assert forall|i: usize| #[trigger] matching_positions(q, ls).contains(i) <==> (i < ls.len()
            && query_matches(q, ls[i as int])) by {
            if query_matches(q, ls.last()) {
                if matching_positions(q, ls).contains(i) && i != n {
                    let k = choose|k: int|
                        0 <= k < matching_positions(q, ls).len() && matching_positions(q, ls)[k]
                            == i;
                    assert(rest[k] == i);
                    assert(rest.contains(i));
                }
                if i < ls.len() && query_matches(q, ls[i as int]) {
                    if i == n {
                        assert(matching_positions(q, ls)[rest.len() as int] == i);
                    } else {
                        assert(init[i as int] == ls[i as int]);
                        assert(rest.contains(i));
                        let k = choose|k: int| 0 <= k < rest.len() && rest[k] == i;
                        assert(matching_positions(q, ls)[k] == i);
                    }
                }
            } else {
                if i < ls.len() && query_matches(q, ls[i as int]) {
                    if i == n {
                        assert(ls[i as int] == ls.last());
                    }
                    assert(init[i as int] == ls[i as int]);
                }
                if matching_positions(q, ls).contains(i) {
                    assert(rest.contains(i));
                    assert(init[i as int] == ls[i as int]);
                }
            }
        }
    }
}

/// Searching with `a or b` finds the lemmas that either finds, and with
/// `a and b` those that both find.
pub proof fn lemma_search_or_and(a: QueryV, b: QueryV, ls: Seq<Lemma>, i: usize)
    requires
        ls.len() <= usize::MAX,
    ensures
        matching_positions(QueryV::Operator(Operator::Or, Box::new(a), Box::new(b)), ls).contains(i)
            <==> (matching_positions(a, ls).contains(i) || matching_positions(b, ls).contains(i)),
        matching_positions(QueryV::Operator(Operator::And, Box::new(a), Box::new(b)), ls).contains(
            i,
        ) <==> (matching_positions(a, ls).contains(i) && matching_positions(b, ls).contains(i)),
{
    lemma_matching_positions(QueryV::Operator(Operator::Or, Box::new(a), Box::new(b)), ls);
    lemma_matching_positions(QueryV::Operator(Operator::And, Box::new(a), Box::new(b)), ls);
    lemma_matching_positions(a, ls);
    lemma_matching_positions(b, ls);
}

/// Searching for a bare term finds every lemma that has a definition or a
/// phrase with an English gloss that the term matches.
pub proof fn lemma_search_finds_glosses(t: TermV, ls: Seq<Lemma>, i: int)
    requires
        ls.len() <= usize::MAX,
        0 <= i < ls.len(),
    ensures
        (exists|j: int, k: int|
            0 <= j < ls[i].definitions@.len() && 0 <= k < ls[i].definitions@[j].glosses_english@.len()
                && term_matches_searchable(t, #[trigger] ls[i].definitions@[j].glosses_english@[k]))
            ==> matching_positions(QueryV::Leaf(LeafV::Term(t)), ls).contains(i as usize),
        (exists|j: int, k: int|
            0 <= j < ls[i].phrases@.len() && 0 <= k < ls[i].phrases@[j].glosses_english@.len()
                && term_matches_searchable(t, #[trigger] ls[i].phrases@[j].glosses_english@[k]))
            ==> matching_positions(QueryV::Leaf(LeafV::Term(t)), ls).contains(i as usize),
{
    lemma_bare_term_fields(t, ls[i]);
    lemma_matching_positions(QueryV::Leaf(LeafV::Term(t)), ls);
}

/// The term of a leaf.
pub open spec fn leaf_term(l: LeafV) -> TermV {
    match l {
        LeafV::Term(t) => t,
        LeafV::Qualified(_, t) => t,
    }
}

/// The terms of the leaves of a query, from left to right.
pub open spec fn query_terms(q: QueryV) -> Seq<TermV>
    decreases q,
{
    match q {
        QueryV::Leaf(l) => seq![leaf_term(l)],
        QueryV::Operator(_, a, b) => query_terms(*a) + query_terms(*b),
    }
}

/// The trigram keys of the term of each leaf of the query, from left to
/// right: what the query is ranked by.
pub fn query_term_keys_all(q: &Query) -> (keys: Vec<Vec<u128>>)
    ensures
        keys@.len() == query_terms(q@).len(),
        forall|k: int|
            0 <= k < keys@.len() ==> #[trigger] keys@[k]@ == text_keys(
                query_terms(q@)[k].case_folded,
            ),
    decreases q,
{
    match q {
        Query::Leaf(leaf) => {
            let keys = query_term_keys(leaf.term());
            let v = vec![keys];
            v
        },
        Query::Operator { op: _, lhs, rhs } => {
            let mut a = query_term_keys_all(lhs);
            let mut b = query_term_keys_all(rhs);
            let ghost av = a@;
            let ghost bv = b@;
            a.append(&mut b);
            proof {
                assert forall|k: int| 0 <= k < a@.len() implies #[trigger] a@[k]@ == text_keys(
                    query_terms(q@)[k].case_folded,
                ) by {
                    if k < av.len() {
                        assert(a@[k] == av[k]);
                    } else {
                        assert(a@[k] == bv[k - av.len()]);
                    }
                }
            }
            a
        },
    }
}

/// The counts from which the TF-IDF score of one trigram for one lemma is
/// computed.
#[derive(Debug, Clone, Copy, PartialEq, Eq)]
pub struct TermStats {
    /// How many times the trigram occurs in the lemma.
    pub freq: u16,
    /// How many trigrams the lemma has.
    pub term_count: u16,
    /// How many lemmas there are.
    pub doc_count: u32,
    /// In how many lemmas the trigram occurs.
    pub docs_with: u16,
}

impl Lexicon {
    /// The positions of the lemmas that the query matches, ascending.
    pub fn search(&self, query: &Query) -> (hits: Vec<usize>)
        ensures
            hits@ == matching_positions(query@, self.lemmas@),
    {
        let mut hits: Vec<usize> = Vec::new();
        let mut i: usize = 0;
        while i < self.lemmas.len()
            invariant
                i <= self.lemmas@.len(),
                hits@ == matching_positions(query@, self.lemmas@.take(i as int)),
            decreases self.lemmas@.len() - i,
        {
            assert(self.lemmas@.take(i + 1).drop_last() =~= self.lemmas@.take(i as int));
            if query.matches(&self.lemmas[i]) {
                hits.push(i);
            }
            i = i + 1;
        }
        assert(self.lemmas@.take(i as int) =~= self.lemmas@);
        hits
    }

    /// The counts for the trigram `t` and the lemma at position `i`.
    pub fn term_stats(&self, i: usize, t: u128) -> (s: TermStats)
        requires
            i < self.term_freqs@.len(),
        ensures
            s.freq == self.term_freqs@[i as int].freq(t),
            s.term_count == self.term_freqs@[i as int].count(),
            s.doc_count == self.inverse_doc_freqs.docs(),
            s.docs_with == self.inverse_doc_freqs.with(t),
    {
        let tf = &self.term_freqs[i];
        TermStats {
            freq: tf.frequency(t),
            term_count: tf.term_count(),
            doc_count: self.inverse_doc_freqs.doc_count(),
            docs_with: self.inverse_doc_freqs.docs_with(t),
        }
    }
}

/// No two groups of a builder share a root, a Buckwalter form and a part of
/// speech, and none is empty.
pub proof fn lemma_groups_distinct(b: LexiconBuilder)
    requires
        b.wf(),
    ensures
        b.positions().len() == b.groups().len(),
        forall|i: int, j: int|
            #![trigger b.groups()[i], b.groups()[j]]
            0 <= i < b.groups().len() && 0 <= j < b.groups().len() && i != j ==> !same_group(
                b.groups()[i],
                b.positions()[i],
                b.groups()[j],
                b.positions()[j],
            ),
        forall|i: int|
            0 <= i < b.groups().len() ==> (#[trigger] b.groups()[i]).definitions@.len()
                + b.groups()[i].phrases@.len() > 0,
{
    assert forall|i: int, j: int|
        #![trigger b.groups()[i], b.groups()[j]]
        0 <= i < b.groups().len() && 0 <= j < b.groups().len() && i != j implies !same_group(
            b.groups()[i],
            b.positions()[i],
            b.groups()[j],
            b.positions()[j],
        ) by {
        assert(b.positions()[i] == b.positions@[i]@);
        assert(b.positions()[j] == b.positions@[j]@);
    }
}

proof fn lemma_definition_key_order(a: Definition, b: Definition)
    requires
        definition_key(a) <= definition_key(b),
    ensures
        pos_rank(a.pos) < pos_rank(b.pos) || (pos_rank(a.pos) == pos_rank(b.pos) && a.id <= b.id),
{
    let ra = pos_rank(a.pos);
    let rb = pos_rank(b.pos);
    assert(ra <= 62 && rb <= 62);
    let ia = a.id as int;
    let ib = b.id as int;
    assert(ra * 0x1_0000_0000 + ia < 0x1_0000_0000_0000_0000) by (nonlinear_arith)
        requires
            ra <= 62,
            0 <= ia < 0x1_0000_0000,
    ;
    assert(rb * 0x1_0000_0000 + ib < 0x1_0000_0000_0000_0000) by (nonlinear_arith)
        requires
            rb <= 62,
            0 <= ib < 0x1_0000_0000,
    ;
    assert(ra < rb || (ra == rb && ia <= ib)) by (nonlinear_arith)
        requires
            ra * 0x1_0000_0000 + ia <= rb * 0x1_0000_0000 + ib,
            0 <= ia < 0x1_0000_0000,
            0 <= ib < 0x1_0000_0000,
            ra >= 0,
            rb >= 0,
    ;
}

/// Ordered lemmas come by ascending lowest id; the definitions of each by
/// ascending part of speech and then ascending id; and its phrases by
/// ascending id.
pub proof fn lemma_lemmas_ordered_ascend(out: Seq<Lemma>, gs: Seq<Lemma>)
    requires
        lemmas_ordered(out, gs),
    ensures
        forall|i: int, j: int|
            0 <= i < j < out.len() ==> #[trigger] out[i].lowest_id <= #[trigger] out[j].lowest_id,
        forall|k: int, i: int, j: int|
            0 <= k < out.len() && 0 <= i < j < out[k].definitions@.len() ==> definition_key(
                #[trigger] out[k].definitions@[i],
            ) <= definition_key(#[trigger] out[k].definitions@[j]),
        forall|k: int, i: int, j: int|
            0 <= k < out.len() && 0 <= i < j < out[k].definitions@.len() ==> {
                ||| pos_rank((#[trigger] out[k].definitions@[i]).pos) < pos_rank(
                    (#[trigger] out[k].definitions@[j]).pos,
                )
                ||| (pos_rank(out[k].definitions@[i].pos) == pos_rank(out[k].definitions@[j].pos)
                    && out[k].definitions@[i].id <= out[k].definitions@[j].id)
            },
        forall|k: int, i: int, j: int|
            0 <= k < out.len() && 0 <= i < j < out[k].phrases@.len() ==> (
            #[trigger] out[k].phrases@[i]).id <= (#[trigger] out[k].phrases@[j]).id,
{
    let order = choose|order: Seq<usize>|
        #[trigger] sorts_stably(order, lowest_ids(gs)) && out.len() == gs.len() && forall|k: int|
            0 <= k < out.len() ==> entries_ordered(#[trigger] out[k], gs[order[k] as int]);
    assert forall|i: int, j: int| 0 <= i < j < out.len() implies #[trigger] out[i].lowest_id
        <= #[trigger] out[j].lowest_id by {
        assert(entries_ordered(out[i], gs[order[i] as int]));
        assert(entries_ordered(out[j], gs[order[j] as int]));
        assert(order[i] < gs.len() && order[j] < gs.len());
        assert(lowest_ids(gs)[order[i] as int] == gs[order[i] as int].lowest_id);
        assert(lowest_ids(gs)[order[j] as int] == gs[order[j] as int].lowest_id);
    }
    assert forall|k: int, i: int, j: int|
        0 <= k < out.len() && 0 <= i < j < out[k].definitions@.len() implies definition_key(
            #[trigger] out[k].definitions@[i],
        ) <= definition_key(#[trigger] out[k].definitions@[j]) by {
        let l = gs[order[k] as int];
        assert(entries_ordered(out[k], l));
        let dorder = choose|dorder: Seq<usize>|
            #[trigger] sorts_stably(dorder, definition_keys(l.definitions@))
                && out[k].definitions@ == dorder.map_values(|x: usize| l.definitions@[x as int]);
        assert(dorder[i] < l.definitions@.len() && dorder[j] < l.definitions@.len());
        assert(out[k].definitions@[i] == l.definitions@[dorder[i] as int]);
        assert(out[k].definitions@[j] == l.definitions@[dorder[j] as int]);
        assert(definition_keys(l.definitions@)[dorder[i] as int] == definition_key(
            l.definitions@[dorder[i] as int],
        ));
        assert(definition_keys(l.definitions@)[dorder[j] as int] == definition_key(
            l.definitions@[dorder[j] as int],
        ));
    }
    assert forall|k: int, i: int, j: int|
        0 <= k < out.len() && 0 <= i < j < out[k].definitions@.len() implies {
        ||| pos_rank((#[trigger] out[k].definitions@[i]).pos) < pos_rank(
            (#[trigger] out[k].definitions@[j]).pos,
        )
        ||| (pos_rank(out[k].definitions@[i].pos) == pos_rank(out[k].definitions@[j].pos)
            && out[k].definitions@[i].id <= out[k].definitions@[j].id)
    } by {
        assert(definition_key(out[k].definitions@[i]) <= definition_key(out[k].definitions@[j]));
        lemma_definition_key_order(out[k].definitions@[i], out[k].definitions@[j]);
    }
    assert forall|k: int, i: int, j: int|
        0 <= k < out.len() && 0 <= i < j < out[k].phrases@.len() implies (
        #[trigger] out[k].phrases@[i]).id <= (#[trigger] out[k].phrases@[j]).id by {
        let l = gs[order[k] as int];
        assert(entries_ordered(out[k], l));
        let porder = choose|porder: Seq<usize>|
            #[trigger] sorts_stably(porder, phrase_keys(l.phrases@)) && out[k].phrases@
                == porder.map_values(|x: usize| l.phrases@[x as int]);
        assert(porder[i] < l.phrases@.len() && porder[j] < l.phrases@.len());
        assert(out[k].phrases@[i] == l.phrases@[porder[i] as int]);
        assert(out[k].phrases@[j] == l.phrases@[porder[j] as int]);
        assert(phrase_keys(l.phrases@)[porder[i] as int] == l.phrases@[porder[i] as int].id as u64);
        assert(phrase_keys(l.phrases@)[porder[j] as int] == l.phrases@[porder[j] as int].id as u64);
    }
}

/// The ids of the definitions and phrases of a lemma.
pub open spec fn lemma_ids(l: Lemma) -> Seq<u32> {
    entry_ids(l.definitions@, l.phrases@)
}

/// The ids of the entries of all the lemmas, lemma after lemma.
pub open spec fn all_ids(gs: Seq<Lemma>) -> Seq<u32>
    decreases gs.len(),
{
    if gs.len() == 0 {
        Seq::empty()
    } else {
        all_ids(gs.drop_last()) + lemma_ids(gs.last())
    }
}

proof fn lemma_all_ids_push(gs: Seq<Lemma>, g: Lemma)
    ensures
        all_ids(gs.push(g)).to_multiset() =~= all_ids(gs).to_multiset().add(
            lemma_ids(g).to_multiset(),
        ),
{
    assert(gs.push(g).drop_last() =~= gs);
    vstd::seq_lib::lemma_multiset_commutative(all_ids(gs), lemma_ids(g));
}

proof fn lemma_all_ids_update(gs: Seq<Lemma>, j: int, g: Lemma)
    requires
        0 <= j < gs.len(),
    ensures
        all_ids(gs.update(j, g)).to_multiset().add(lemma_ids(gs[j]).to_multiset())
            =~= all_ids(gs).to_multiset().add(lemma_ids(g).to_multiset()),
    decreases gs.len(),
{
    broadcast use vstd::multiset::group_multiset_axioms;

    let u = gs.update(j, g);
    let init = gs.drop_last();
    let lhs = all_ids(u).to_multiset().add(lemma_ids(gs[j]).to_multiset());
    let rhs = all_ids(gs).to_multiset().add(lemma_ids(g).to_multiset());
    assert(all_ids(gs) == all_ids(init) + lemma_ids(gs.last()));
    vstd::seq_lib::lemma_multiset_commutative(all_ids(init), lemma_ids(gs.last()));
    if j == gs.len() - 1 {
        assert(u.drop_last() =~= init);
        assert(u.last() == g);
        assert(all_ids(u) == all_ids(init) + lemma_ids(g));
        vstd::seq_lib::lemma_multiset_commutative(all_ids(init), lemma_ids(g));
        assert forall|v: u32| lhs.count(v) == rhs.count(v) by {}
    } else {
        let ui = init.update(j, g);
        assert(u.drop_last() =~= ui);
        assert(u.last() == gs.last());
        assert(all_ids(u) == all_ids(ui) + lemma_ids(gs.last()));
        lemma_all_ids_update(init, j, g);
        vstd::seq_lib::lemma_multiset_commutative(all_ids(ui), lemma_ids(gs.last()));
        assert(init[j] == gs[j]);
        let ih_l = all_ids(ui).to_multiset().add(lemma_ids(gs[j]).to_multiset());
        let ih_r = all_ids(init).to_multiset().add(lemma_ids(g).to_multiset());
        assert forall|v: u32| lhs.count(v) == rhs.count(v) by {
            assert(ih_l.count(v) == ih_r.count(v));
        }
    }
    assert(lhs =~= rhs);
}

proof fn lemma_all_ids_insert(gs: Seq<Lemma>, k: int, g: Lemma)
    requires
        0 <= k <= gs.len(),
    ensures
        all_ids(gs.insert(k, g)).to_multiset() =~= all_ids(gs).to_multiset().add(
            lemma_ids(g).to_multiset(),
        ),
    decreases gs.len(),
{
    broadcast use vstd::multiset::group_multiset_axioms;

    if k == gs.len() {
        assert(gs.insert(k, g) =~= gs.push(g));
        lemma_all_ids_push(gs, g);
    } else {
        let init = gs.drop_last();
        assert(gs.insert(k, g).drop_last() =~= init.insert(k, g));
        assert(gs.insert(k, g).last() == gs.last());
        lemma_all_ids_insert(init, k, g);
        vstd::seq_lib::lemma_multiset_commutative(all_ids(init.insert(k, g)), lemma_ids(gs.last()));
        vstd::seq_lib::lemma_multiset_commutative(all_ids(init), lemma_ids(gs.last()));
    }
}

proof fn lemma_merge_ids(m: Lemma, a: Lemma, b: Lemma)
    requires
        is_merge_of(m, a, b),
    ensures
        lemma_ids(m).to_multiset() =~= lemma_ids(a).to_multiset().add(lemma_ids(b).to_multiset()),
{
    broadcast use vstd::multiset::group_multiset_axioms;

    let ad = a.definitions@.map_values(|d: Definition| d.id);
    let bd = b.definitions@.map_values(|d: Definition| d.id);
    let ap = a.phrases@.map_values(|p: Phrase| p.id);
    let bp = b.phrases@.map_values(|p: Phrase| p.id);
    assert(m.definitions@.map_values(|d: Definition| d.id) =~= ad + bd);
    assert(m.phrases@.map_values(|p: Phrase| p.id) =~= ap + bp);
    vstd::seq_lib::lemma_multiset_commutative(ad + bd, ap + bp);
    vstd::seq_lib::lemma_multiset_commutative(ad, bd);
    vstd::seq_lib::lemma_multiset_commutative(ap, bp);
    vstd::seq_lib::lemma_multiset_commutative(ad, ap);
    vstd::seq_lib::lemma_multiset_commutative(bd, bp);
}

/// Adding a lemma to the groups loses no entry and adds none twice: the
/// entry ids of the groups afterwards are those from before and those of
/// the lemma.
pub proof fn lemma_adds_keeps_entries(
    gs: Seq<Lemma>,
    ps: Seq<Seq<char>>,
    gs2: Seq<Lemma>,
    ps2: Seq<Seq<char>>,
    l: Lemma,
    pos: Seq<char>,
)
    requires
        adds(gs, ps, gs2, ps2, l, pos),
    ensures
        all_ids(gs2).to_multiset() =~= all_ids(gs).to_multiset().add(lemma_ids(l).to_multiset()),
{
    broadcast use vstd::multiset::group_multiset_axioms;

    if has_group(gs, ps, l, pos) {
        let j = group_of(gs, ps, l, pos);
        assert(gs2 =~= gs.update(j, gs2[j]));
        lemma_all_ids_update(gs, j, gs2[j]);
        lemma_merge_ids(gs2[j], gs[j], l);
        let a = all_ids(gs2).to_multiset();
        let b = all_ids(gs).to_multiset();
        let mj = lemma_ids(gs[j]).to_multiset();
        let m2 = lemma_ids(gs2[j]).to_multiset();
        let ml = lemma_ids(l).to_multiset();
        assert forall|v: u32| a.count(v) == b.add(ml).count(v) by {
            assert(a.add(mj).count(v) == b.add(m2).count(v));
            assert(m2.count(v) == mj.count(v) + ml.count(v));
        }
        assert(a =~= b.add(ml));
    } else {
        lemma_all_ids_push(gs, l);
    }
}

proof fn lemma_all_ids_pointwise(a: Seq<Lemma>, b: Seq<Lemma>)
    requires
        a.len() == b.len(),
        forall|k: int|
            0 <= k < a.len() ==> #[trigger] lemma_ids(a[k]).to_multiset() =~= lemma_ids(
                b[k],
            ).to_multiset(),
    ensures
        all_ids(a).to_multiset() =~= all_ids(b).to_multiset(),
    decreases a.len(),
{
    broadcast use vstd::multiset::group_multiset_axioms;

    if a.len() > 0 {
        lemma_all_ids_pointwise(a.drop_last(), b.drop_last());
        assert(lemma_ids(a[a.len() - 1]).to_multiset() =~= lemma_ids(b[b.len() - 1]).to_multiset());
        vstd::seq_lib::lemma_multiset_commutative(all_ids(a.drop_last()), lemma_ids(a.last()));
        vstd::seq_lib::lemma_multiset_commutative(all_ids(b.drop_last()), lemma_ids(b.last()));
    }
}

proof fn lemma_all_ids_arranged(gs: Seq<Lemma>, p: Seq<usize>)
    requires
        gs.len() <= usize::MAX,
        is_permutation(p, gs.len()),
    ensures
        all_ids(p.map_values(|i: usize| gs[i as int])).to_multiset() =~= all_ids(gs).to_multiset(),
    decreases gs.len(),
{
    broadcast use vstd::multiset::group_multiset_axioms;

    let n = gs.len();
    let mp = p.map_values(|i: usize| gs[i as int]);
    if n == 0 {
        assert(mp =~= Seq::<Lemma>::empty());
        assert(gs =~= Seq::<Lemma>::empty());
    } else {
        let last = (n - 1) as usize;
        assert(p.contains(last));
        let k = choose|k: int| 0 <= k < p.len() && p[k] == last;
        let q = p.remove(k);
        let t = gs.drop_last();
        assert forall|a: int| 0 <= a < q.len() implies #[trigger] q[a] < t.len() by {
            let b = if a < k {
                a
            } else {
                a + 1
            };
            assert(q[a] == p[b]);
            assert(b != k);
        }
        assert forall|i: usize| i < t.len() implies #[trigger] q.contains(i) by {
            assert(p.contains(i));
            let m = choose|m: int| 0 <= m < p.len() && p[m] == i;
            assert(m != k);
            if m < k {
                assert(q[m] == i);
            } else {
                assert(q[m - 1] == i);
            }
        }
        assert(is_permutation(q, t.len()));
        lemma_all_ids_arranged(t, q);
        let mq = q.map_values(|i: usize| t[i as int]);
        assert(mp =~= mq.insert(k, gs[n - 1]));
        lemma_all_ids_insert(mq, k, gs[n - 1]);
        vstd::seq_lib::lemma_multiset_commutative(all_ids(t), lemma_ids(gs.last()));
    }
}

proof fn lemma_entries_ordered_ids(out: Lemma, l: Lemma)
    requires
        entries_ordered(out, l),
        l.definitions@.len() <= usize::MAX,
        l.phrases@.len() <= usize::MAX,
    ensures
        lemma_ids(out).to_multiset() =~= lemma_ids(l).to_multiset(),
{
    broadcast use vstd::multiset::group_multiset_axioms;

    let dorder = choose|order: Seq<usize>|
        #[trigger] sorts_stably(order, definition_keys(l.definitions@)) && out.definitions@
            == order.map_values(|i: usize| l.definitions@[i as int]);
    let porder = choose|order: Seq<usize>|
        #[trigger] sorts_stably(order, phrase_keys(l.phrases@)) && out.phrases@ == order.map_values(
            |i: usize| l.phrases@[i as int],
        );
    let ld = l.definitions@.map_values(|d: Definition| d.id);
    let lp = l.phrases@.map_values(|p: Phrase| p.id);
    assert(out.definitions@.map_values(|d: Definition| d.id) =~= dorder.map_values(
        |i: usize| ld[i as int],
    ));
    assert(out.phrases@.map_values(|p: Phrase| p.id) =~= porder.map_values(|i: usize| lp[i as int]));
    lemma_arranged_same_items(ld, dorder);
    lemma_arranged_same_items(lp, porder);
    vstd::seq_lib::lemma_multiset_commutative(
        out.definitions@.map_values(|d: Definition| d.id),
        out.phrases@.map_values(|p: Phrase| p.id),
    );
    vstd::seq_lib::lemma_multiset_commutative(ld, lp);
}

/// Ordering the lemmas and their entries loses no entry and adds none: the
/// entry ids are the same, each as many times.
pub proof fn lemma_ordered_keeps_entries(out: Seq<Lemma>, gs: Seq<Lemma>)
    requires
        lemmas_ordered(out, gs),
        gs.len() <= usize::MAX,
        forall|i: int|
            0 <= i < gs.len() ==> (#[trigger] gs[i]).definitions@.len() <= usize::MAX
                && gs[i].phrases@.len() <= usize::MAX,
    ensures
        all_ids(out).to_multiset() =~= all_ids(gs).to_multiset(),
{
    let order = choose|order: Seq<usize>|
        #[trigger] sorts_stably(order, lowest_ids(gs)) && out.len() == gs.len() && forall|k: int|
            0 <= k < out.len() ==> entries_ordered(#[trigger] out[k], gs[order[k] as int]);
    let arranged = order.map_values(|i: usize| gs[i as int]);
    assert forall|k: int| 0 <= k < out.len() implies #[trigger] lemma_ids(out[k]).to_multiset()
        =~= lemma_ids(arranged[k]).to_multiset() by {
        assert(entries_ordered(out[k], gs[order[k] as int]));
        assert(order[k] < gs.len());
        lemma_entries_ordered_ids(out[k], gs[order[k] as int]);
    }
    lemma_all_ids_pointwise(out, arranged);
    lemma_all_ids_arranged(gs, order);
}

/// The ids of the entries that go into the lexicon: all but the dropped
/// ones, in order.
pub open spec fn kept_ids(es: Seq<DatasetEntry>) -> Seq<u32>
    decreases es.len(),
{
    if es.len() == 0 {
        Seq::empty()
    } else {
        let rest = kept_ids(es.drop_last());
        if is_dropped(es.last()) {
            rest
        } else {
            rest.push(es.last().id)
        }
    }
}

/// The parts of speech that fail to parse, with the ids of their entries:
/// one for each kept entry that is not a phrase and whose corrected
/// ANALYSIS field is not a part of speech, in order.
pub open spec fn pos_failures_of(es: Seq<DatasetEntry>) -> Seq<(u32, PosErrorV)>
    decreases es.len(),
{
    if es.len() == 0 {
        Seq::empty()
    } else {
        let rest = pos_failures_of(es.drop_last());
        let e = es.last();
        let a = corrected_analysis(e.analysis@);
        if is_dropped(e) || is_phrase_analysis(a) {
            rest
        } else {
            match pos_result(a) {
                Ok(_) => rest,
                Err(err) => rest.push((e.id, err)),
            }
        }
    }
}

/// `lex` is a lexicon of the entries with ids `ids`: every entry in exactly
/// one lemma, the lemmas by ascending lowest id, the definitions of each by
/// ascending part of speech and then id, its phrases by ascending id, and one
/// counted document per lemma.
pub open spec fn is_lexicon_of(lex: Lexicon, ids: Seq<u32>) -> bool {
    &&& all_ids(lex.lemmas@).to_multiset() =~= ids.to_multiset()
    &&& forall|i: int, j: int|
        0 <= i < j < lex.lemmas@.len() ==> #[trigger] lex.lemmas@[i].lowest_id
            <= #[trigger] lex.lemmas@[j].lowest_id
    &&& forall|k: int, i: int, j: int|
        0 <= k < lex.lemmas@.len() && 0 <= i < j < lex.lemmas@[k].definitions@.len()
            ==> definition_key(#[trigger] lex.lemmas@[k].definitions@[i]) <= definition_key(
            #[trigger] lex.lemmas@[k].definitions@[j],
        )
    &&& forall|k: int, i: int, j: int|
        0 <= k < lex.lemmas@.len() && 0 <= i < j < lex.lemmas@[k].definitions@.len() ==> {
            ||| pos_rank((#[trigger] lex.lemmas@[k].definitions@[i]).pos) < pos_rank(
                (#[trigger] lex.lemmas@[k].definitions@[j]).pos,
            )
            ||| (pos_rank(lex.lemmas@[k].definitions@[i].pos) == pos_rank(
                lex.lemmas@[k].definitions@[j].pos,
            ) && lex.lemmas@[k].definitions@[i].id <= lex.lemmas@[k].definitions@[j].id)
        }
    &&& forall|k: int, i: int, j: int|
        0 <= k < lex.lemmas@.len() && 0 <= i < j < lex.lemmas@[k].phrases@.len() ==> (
        #[trigger] lex.lemmas@[k].phrases@[i]).id <= (#[trigger] lex.lemmas@[k].phrases@[j]).id
    &&& counts_lemmas(lex)
    &&& fits_counts(lex.lemmas@)
}

/// The entries before `i` are all corrected and none would panic.
pub open spec fn accepted_before(es: Seq<DatasetEntry>, i: int) -> bool {
    forall|j: int| 0 <= j < i ==> !add_panics(#[trigger] es[j]) && !patch_mismatch(es[j])
}

proof fn lemma_lemma_of_entry_ids(l: Lemma, fail: Option<PosError>, p: DatasetEntry)
    requires
        entry_lemma(l, fail, p),
    ensures
        lemma_ids(l) =~= seq![p.id],
{
    if is_phrase_analysis(p.analysis@) {
        assert(l.definitions@.map_values(|d: Definition| d.id) =~= Seq::<u32>::empty());
        assert(l.phrases@.map_values(|ph: Phrase| ph.id) =~= seq![p.id]);
    } else {
        assert(l.definitions@.map_values(|d: Definition| d.id) =~= seq![p.id]);
        assert(l.phrases@.map_values(|ph: Phrase| ph.id) =~= Seq::<u32>::empty());
    }
}

impl Lexicon {
    /// Builds the lexicon from the dataset entries, in order: each is
    /// corrected and added, then the lemmas are ordered and counted, and
    /// the entries whose part of speech could not be parsed are returned
    /// with the lexicon.  Stops at the first failure; gives `None` where
    /// adding an entry would read a field that it lacks.
    pub fn from_entries(entries: Vec<DatasetEntry>) -> (res: Option<
        Result<(Lexicon, Vec<(u32, PosError)>), BuildError>,
    >)
        ensures
            match res {
                None => exists|i: int|
                    0 <= i < entries@.len() && accepted_before(entries@, i) && add_panics(
                        #[trigger] entries@[i],
                    ),
                Some(Ok((lex, failures))) => {
                    &&& accepted_before(entries@, entries@.len() as int)
                    &&& is_lexicon_of(lex, kept_ids(entries@))
                    &&& failures@.map_values(|f: (u32, PosError)| (f.0, f.1@)) == pos_failures_of(
                        entries@,
                    )
                },
                Some(Err(BuildError::Patch(e))) => exists|i: int|
                    0 <= i < entries@.len() && accepted_before(entries@, i) && patch_mismatch(
                        #[trigger] entries@[i],
                    ) && e.id == entries@[i].id,
                Some(Err(BuildError::Entry(e))) => exists|i: int, p: DatasetEntry|
                    0 <= i < entries@.len() && accepted_before(entries@, i) && #[trigger] is_patch_of(
                        p,
                        #[trigger] entries@[i],
                    ) && transcription_failure(p, e),
                Some(Err(BuildError::Merge { new_id, existing_id: _, error: _ })) => exists|i: int|
                    0 <= i < entries@.len() && accepted_before(entries@, i) && !is_dropped(
                        #[trigger] entries@[i],
                    ) && entries@[i].id == new_id,
                Some(Err(_)) => accepted_before(entries@, entries@.len() as int),
            },
    {
        let ghost orig = entries@;
        let n = entries.len();
        let mut rest = entries;
        let mut reversed: Vec<DatasetEntry> = Vec::new();
        while rest.len() > 0
            invariant
                orig == entries@,
                rest@.len() + reversed@.len() == n == orig.len(),
                rest@ == orig.take(rest@.len() as int),
                forall|m: int| 0 <= m < reversed@.len() ==> #[trigger] reversed@[m] == orig[n - 1 - m],
            decreases rest@.len(),
        {
            let e = rest.pop().unwrap();
            reversed.push(e);
        }
        let mut b = LexiconBuilder::new();
        proof {
            assert(orig.take(0) =~= Seq::<DatasetEntry>::empty());
            assert(all_ids(b.groups()).to_multiset() =~= kept_ids(orig.take(0)).to_multiset());
            assert(pos_failures_of(orig.take(0)) == Seq::<(u32, PosErrorV)>::empty());
        }
        let mut i: usize = 0;
        while i < n
            invariant
                orig == entries@,
                i <= n == orig.len(),
                reversed@.len() == n - i,
                forall|m: int| 0 <= m < reversed@.len() ==> #[trigger] reversed@[m] == orig[n - 1 - m],
                b.wf(),
                all_ids(b.groups()).to_multiset() =~= kept_ids(orig.take(i as int)).to_multiset(),
                b.failures() == pos_failures_of(orig.take(i as int)),
                accepted_before(orig, i as int),
            decreases n - i,
        {
            let e = reversed.pop().unwrap();
            assert(e == orig[i as int]);
            if add_would_panic(&e) {
                assert(accepted_before(orig, i as int) && add_panics(orig[i as int]));
                return None;
            }
            let ghost old_b = b;
            let ghost e0 = e;
            let ghost before = orig.take(i as int);
            let ghost after = orig.take(i + 1);
            match b.add_entry(e) {
                Err(err) => {
                    let ghost g = err;
                    proof {
                        match g {
                            BuildError::Patch(pe) => {
                                assert(patch_mismatch(orig[i as int]) && pe.id == orig[i as int].id);
                            },
                            BuildError::Entry(ee) => {
                                let p = choose|p: DatasetEntry|
                                    #[trigger] is_patch_of(p, e0) && transcription_failure(p, ee);
                                assert(is_patch_of(p, orig[i as int]));
                            },
                            BuildError::Merge { new_id, existing_id, error } => {
                                let (p, l, fail) = choose|
                                    p: DatasetEntry,
                                    l: Lemma,
                                    fail: Option<PosError>,
                                |
                                    #![trigger is_patch_of(p, e0), entry_lemma(l, fail, p)]
                                    is_patch_of(p, e0) && entry_lemma(l, fail, p) && !is_dropped(e0)
                                        && new_id == l.lowest_id;
                                assert(orig[i as int].id == new_id);
                                assert(!is_dropped(orig[i as int]));
                            },
                            _ => {},
                        }
                    }
                    return Some(Err(err));
                },
                Ok(()) => {},
            }
            proof {
                assert(after.drop_last() =~= before);
                assert(after.last() == e0);
                if is_dropped(e0) {
                    assert(kept_ids(after) == kept_ids(before));
                } else {
                    let (p, l, fail) = choose|p: DatasetEntry, l: Lemma, fail: Option<PosError>|
                        #![trigger is_patch_of(p, e0), entry_lemma(l, fail, p)]
                        {
                            &&& is_patch_of(p, e0)
                            &&& !patch_mismatch(e0)
                            &&& !is_dropped(e0)
                            &&& entry_lemma(l, fail, p)
                            &&& adds(
                                old_b.groups(),
                                old_b.positions(),
                                b.groups(),
                                b.positions(),
                                l,
                                pos_key(p.analysis@),
                            )
                            &&& b.failures() == old_b.failures() + failure_record(p.id, fail)
                        };
                    lemma_adds_keeps_entries(
                        old_b.groups(),
                        old_b.positions(),
                        b.groups(),
                        b.positions(),
                        l,
                        pos_key(p.analysis@),
                    );
                    lemma_lemma_of_entry_ids(l, fail, p);
                    assert(p.analysis@ == corrected_analysis(e0.analysis@));
                    assert(b.failures() == pos_failures_of(after));
                    assert(kept_ids(after) == kept_ids(before).push(e0.id));
                    assert(kept_ids(before).push(e0.id) =~= kept_ids(before) + seq![e0.id]);
                    vstd::seq_lib::lemma_multiset_commutative(kept_ids(before), seq![e0.id]);
                }
                assert(accepted_before(orig, i + 1));
            }
            i = i + 1;
        }
        proof {
            assert(orig.take(n as int) =~= orig);
        }
        let ghost gs = b.groups();
        let mut failures: Vec<(u32, PosError)> = Vec::new();
        std::mem::swap(&mut failures, &mut b.pos_failures);
        let lemmas = b.into_lemmas();
        proof {
            assert(failures@.map_values(|f: (u32, PosError)| (f.0, f.1@)) == pos_failures_of(orig));
            assert(gs.len() == b.groups.len());
            assert forall|k: int| 0 <= k < gs.len() implies (#[trigger] gs[k]).definitions@.len()
                <= usize::MAX && gs[k].phrases@.len() <= usize::MAX by {
                assert(gs[k].definitions.len() == gs[k].definitions@.len());
                assert(gs[k].phrases.len() == gs[k].phrases@.len());
            }
            lemma_ordered_keeps_entries(lemmas@, gs);
            lemma_lemmas_ordered_ascend(lemmas@, gs);
        }
        match Lexicon::from_lemmas(lemmas) {
            Ok(lex) => Some(Ok((lex, failures))),
            Err(err) => Some(Err(err)),
        }
    }
}

/// The bucket of a Buckwalter form.
fn bucket(bw: &str) -> (b: u128)
    ensures
        b == bucket_of(bw@),
{
    let c = chars_of(bw);
    let n = c.len();
    let first = if n > 0 {
        c[0]
    } else {
        ' '
    };
    let second = if n > 1 {
        c[1]
    } else {
        ' '
    };
    let last = if n > 0 {
        c[n - 1]
    } else {
        ' '
    };
    trigram_key(first, second, last)
}

/// The part of speech by which an entry is grouped.
fn pos_key_of(analysis: &str) -> (r: NonFoldedNfkcNormalizedString)
    ensures
        r@ == pos_key(analysis@),
{
    let a = chars_of(analysis);
    let end = find_char(&a, 0, ':');
    let prefix = string_from_range(&a, 0, end);
    NonFoldedNfkcNormalizedString::new(prefix.as_str())
}

} // verus!
