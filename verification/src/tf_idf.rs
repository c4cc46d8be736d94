//! Term and document frequencies for ranking: a document is a lemma, a term
//! is a trigram of its searchable text.

use vstd::prelude::*;
use std::collections::HashMap;

use crate::lexicon::lemma::{Definition, Lemma};
use crate::normalized::SearchableString;
use crate::query::Term as QueryTerm;
use crate::text::chars_of;

verus! {

broadcast use vstd::std_specs::hash::group_hash_axioms;

/// Three consecutive characters.
#[derive(Clone, Copy, PartialEq, Eq, Debug, Hash)]
pub struct Term(pub [char; 3]);

/// The number that stands for the trigram `a b c` in the frequency tables.
pub open spec fn key3(a: char, b: char, c: char) -> u128 {
    (((a as u32) as u128) << 64u128) | (((b as u32) as u128) << 32u128) | ((c as u32) as u128)
}

impl Term {
    pub open spec fn key(&self) -> u128 {
        key3(self.0[0], self.0[1], self.0[2])
    }

    /// The number that stands for the trigram in the frequency tables.
    pub fn to_key(&self) -> (k: u128)
        ensures
            k == self.key(),
    {
        trigram_key(self.0[0], self.0[1], self.0[2])
    }
}

/// The number that stands for the trigram `a b c`.
pub fn trigram_key(a: char, b: char, c: char) -> (k: u128)
    ensures
        k == key3(a, b, c),
{
    (((a as u32) as u128) << 64u128) | (((b as u32) as u128) << 32u128) | ((c as u32) as u128)
}

proof fn lemma_key_parts(a0: u32, a1: u32, a2: u32, b0: u32, b1: u32, b2: u32)
    requires
        ((a0 as u128) << 64u128) | ((a1 as u128) << 32u128) | (a2 as u128) == ((b0 as u128)
            << 64u128) | ((b1 as u128) << 32u128) | (b2 as u128),
    ensures
        a0 == b0 && a1 == b1 && a2 == b2,
{
    assert(a0 == b0 && a1 == b1 && a2 == b2) by (bit_vector)
        requires
            ((a0 as u128) << 64u128) | ((a1 as u128) << 32u128) | (a2 as u128) == ((b0 as u128)
                << 64u128) | ((b1 as u128) << 32u128) | (b2 as u128),
    ;
}

/// Distinct trigrams stand for distinct numbers.
pub proof fn lemma_key_injective(a: Term, b: Term)
    requires
        a.key() == b.key(),
    ensures
        a.0[0] as u32 == b.0[0] as u32,
        a.0[1] as u32 == b.0[1] as u32,
        a.0[2] as u32 == b.0[2] as u32,
{
    lemma_key_parts(
        a.0[0] as u32,
        a.0[1] as u32,
        a.0[2] as u32,
        b.0[0] as u32,
        b.0[1] as u32,
        b.0[2] as u32,
    );
}


/// `s` after the two spaces that make short searches work.
pub open spec fn padded(s: Seq<char>) -> Seq<char> {
    seq![' ', ' '] + s
}

/// The keys of the trigrams of `s`: one per character, the window of three
/// ending at it in the padded text.
pub open spec fn text_keys(s: Seq<char>) -> Seq<u128> {
    Seq::new(
        s.len(),
        |i: int| key3(padded(s)[i], padded(s)[i + 1], padded(s)[i + 2]),
    )
}

/// The keys of the trigrams of each text, one text after the other.
pub open spec fn texts_keys(ts: Seq<Seq<char>>) -> Seq<u128>
    decreases ts.len(),
{
    if ts.len() == 0 {
        Seq::empty()
    } else {
        texts_keys(ts.drop_last()) + text_keys(ts.last())
    }
}

/// The trigrams of a text.
pub fn to_terms(s: &str) -> (terms: Vec<Term>)
    ensures
        terms@.len() == s@.len(),
        forall|i: int|
            0 <= i < s@.len() ==> {
                &&& (#[trigger] terms@[i]).0[0] == padded(s@)[i]
                &&& terms@[i].0[1] == padded(s@)[i + 1]
                &&& terms@[i].0[2] == padded(s@)[i + 2]
            },
{
    let c = chars_of(s);
    let mut terms: Vec<Term> = Vec::new();
    let mut i: usize = 0;
    while i < c.len()
        invariant
            i <= c.len(),
            c@ == s@,
            terms@.len() == i,
            forall|j: int|
                0 <= j < i ==> {
                    &&& (#[trigger] terms@[j]).0[0] == padded(s@)[j]
                    &&& terms@[j].0[1] == padded(s@)[j + 1]
                    &&& terms@[j].0[2] == padded(s@)[j + 2]
                },
        decreases c.len() - i,
    {
        let a = if i >= 2 {
            c[i - 2]
        } else {
            ' '
        };
        let b = if i >= 1 {
            c[i - 1]
        } else {
            ' '
        };
        terms.push(Term([a, b, c[i]]));
        i = i + 1;
    }
    terms
}

fn push_text_keys(keys: &mut Vec<u128>, s: &str)
    ensures
        final(keys)@ == old(keys)@ + text_keys(s@),
{
    let c = chars_of(s);
    let mut i: usize = 0;
    while i < c.len()
        invariant
            i <= c.len(),
            c@ == s@,
            keys@ == old(keys)@ + text_keys(s@).subrange(0, i as int),
        decreases c.len() - i,
    {
        let a = if i >= 2 {
            c[i - 2]
        } else {
            ' '
        };
        let b = if i >= 1 {
            c[i - 1]
        } else {
            ' '
        };
        keys.push(trigram_key(a, b, c[i]));
        assert(text_keys(s@).subrange(0, i + 1) == text_keys(s@).subrange(0, i as int).push(
            text_keys(s@)[i as int],
        ));
        i = i + 1;
    }
    assert(text_keys(s@).subrange(0, c@.len() as int) =~= text_keys(s@));
}

/// The searchable texts of a definition that take part in ranking.
pub open spec fn definition_texts(d: Definition) -> Seq<Seq<char>> {
    seq![d.form.searchable@, d.transcription.bw@] + d.glosses_english@.map_values(
        |g: SearchableString| g.searchable@,
    )
}

pub open spec fn definitions_texts(ds: Seq<Definition>) -> Seq<Seq<char>>
    decreases ds.len(),
{
    if ds.len() == 0 {
        Seq::empty()
    } else {
        definitions_texts(ds.drop_last()) + definition_texts(ds.last())
    }
}

/// The searchable texts of a lemma that take part in ranking: its root and
/// lemma forms, then for each definition its form, Buckwalter
/// transcription and English glosses.  Phrases do not take part.
pub open spec fn lemma_texts(l: Lemma) -> Seq<Seq<char>> {
    seq![
        l.root.text().searchable@,
        l.lemma.searchable@,
        l.lemma_search.searchable@,
        l.lemma_bw.searchable@,
    ] + definitions_texts(l.definitions@)
}

/// The keys of the trigrams of a lemma, in order.
pub open spec fn lemma_keys(l: Lemma) -> Seq<u128> {
    texts_keys(lemma_texts(l))
}

proof fn lemma_texts_keys_push(ts: Seq<Seq<char>>, t: Seq<char>)
    ensures
        texts_keys(ts.push(t)) == texts_keys(ts) + text_keys(t),
{
    assert(ts.push(t).drop_last() =~= ts);
}

/// The keys of the trigrams of a lemma.
pub fn lemma_term_keys(l: &Lemma) -> (keys: Vec<u128>)
    ensures
        keys@ == lemma_keys(*l),
{
    let mut keys: Vec<u128> = Vec::new();
    let ghost mut done: Seq<Seq<char>> = Seq::empty();
    let ghost head = seq![
        l.root.text().searchable@,
        l.lemma.searchable@,
        l.lemma_search.searchable@,
        l.lemma_bw.searchable@,
    ];
    push_text_keys(&mut keys, l.root.as_searchable().searchable.as_str());
    proof {
        lemma_texts_keys_push(done, l.root.text().searchable@);
        done = done.push(l.root.text().searchable@);
    }
    push_text_keys(&mut keys, l.lemma.searchable.as_str());
    proof {
        lemma_texts_keys_push(done, l.lemma.searchable@);
        done = done.push(l.lemma.searchable@);
    }
    push_text_keys(&mut keys, l.lemma_search.searchable.as_str());
    proof {
        lemma_texts_keys_push(done, l.lemma_search.searchable@);
        done = done.push(l.lemma_search.searchable@);
    }
    push_text_keys(&mut keys, l.lemma_bw.searchable.as_str());
    proof {
        lemma_texts_keys_push(done, l.lemma_bw.searchable@);
        done = done.push(l.lemma_bw.searchable@);
        assert(done =~= head);
        assert(head + definitions_texts(l.definitions@.take(0)) =~= head);
    }
    let mut i: usize = 0;
    while i < l.definitions.len()
        invariant
            i <= l.definitions.len(),
            done == head + definitions_texts(l.definitions@.take(i as int)),
            keys@ == texts_keys(done),
        decreases l.definitions.len() - i,
    {
        let d = &l.definitions[i];
        let ghost start = done;
        push_text_keys(&mut keys, d.form.searchable.as_str());
        proof {
            lemma_texts_keys_push(done, d.form.searchable@);
            done = done.push(d.form.searchable@);
        }
        push_text_keys(&mut keys, d.transcription.bw.as_str());
        proof {
            lemma_texts_keys_push(done, d.transcription.bw@);
            done = done.push(d.transcription.bw@);
        }
        let mut g: usize = 0;
        while g < d.glosses_english.len()
            invariant
                g <= d.glosses_english.len(),
                done == start + seq![d.form.searchable@, d.transcription.bw@]
                    + d.glosses_english@.take(g as int).map_values(
                    |x: SearchableString| x.searchable@,
                ),
                keys@ == texts_keys(done),
            decreases d.glosses_english.len() - g,
        {
            let ghost before = done;
            push_text_keys(&mut keys, d.glosses_english[g].searchable.as_str());
            proof {
                lemma_texts_keys_push(done, d.glosses_english@[g as int].searchable@);
                done = done.push(d.glosses_english@[g as int].searchable@);
                assert(d.glosses_english@.take(g + 1).map_values(
                    |x: SearchableString| x.searchable@,
                ) =~= d.glosses_english@.take(g as int).map_values(
                    |x: SearchableString| x.searchable@,
                ).push(d.glosses_english@[g as int].searchable@));
            }
            g = g + 1;
        }
        proof {
            assert(d.glosses_english@.take(g as int) =~= d.glosses_english@);
            assert(l.definitions@.take(i + 1).drop_last() =~= l.definitions@.take(i as int));
            assert(done =~= head + definitions_texts(l.definitions@.take(i + 1)));
        }
        i = i + 1;
    }
    proof {
        assert(l.definitions@.take(i as int) =~= l.definitions@);
    }
    keys
}


proof fn lemma_texts_keys_contain(ts: Seq<Seq<char>>, j: int)
    requires
        0 <= j < ts.len(),
    ensures
        forall|m: int| 0 <= m < ts[j].len() ==> texts_keys(ts).contains(#[trigger] text_keys(ts[j])[m]),
    decreases ts.len(),
{
    let init = ts.drop_last();
    let tail = text_keys(ts.last());
    assert(texts_keys(ts) == texts_keys(init) + tail);
    if j < ts.len() - 1 {
        lemma_texts_keys_contain(init, j);
        assert forall|m: int| 0 <= m < ts[j].len() implies texts_keys(ts).contains(
            #[trigger] text_keys(ts[j])[m],
        ) by {
            assert(init[j] == ts[j]);
            let a = choose|a: int|
                0 <= a < texts_keys(init).len() && texts_keys(init)[a] == text_keys(ts[j])[m];
            assert(texts_keys(ts)[a] == text_keys(ts[j])[m]);
        }
    } else {
        assert forall|m: int| 0 <= m < ts[j].len() implies texts_keys(ts).contains(
            #[trigger] text_keys(ts[j])[m],
        ) by {
            assert(texts_keys(ts)[texts_keys(init).len() + m] == tail[m]);
        }
    }
}

proof fn lemma_definitions_texts_index(ds: Seq<Definition>, i: int)
    requires
        0 <= i < ds.len(),
    ensures
        definitions_texts(ds.take(i)).len() + definition_texts(ds[i]).len()
            <= definitions_texts(ds).len(),
        forall|x: int|
            0 <= x < definition_texts(ds[i]).len() ==> definitions_texts(ds)[definitions_texts(
                ds.take(i),
            ).len() + x] == #[trigger] definition_texts(ds[i])[x],
    decreases ds.len(),
{
    let init = ds.drop_last();
    if i < ds.len() - 1 {
        lemma_definitions_texts_index(init, i);
        assert(init.take(i) =~= ds.take(i));
        assert(init[i] == ds[i]);
    } else {
        assert(ds.take(i) =~= init);
    }
}

/// Every trigram of a lemma's root, lemma form, search form and Buckwalter
/// form, and of the form, Buckwalter transcription and English glosses of
/// each of its definitions, is among the lemma's ranking terms.
pub proof fn lemma_lemma_keys_cover_fields(l: Lemma)
    ensures
        forall|m: int|
            0 <= m < l.root.text().searchable@.len() ==> lemma_keys(l).contains(
                #[trigger] text_keys(l.root.text().searchable@)[m],
            ),
        forall|m: int|
            0 <= m < l.lemma.searchable@.len() ==> lemma_keys(l).contains(
                #[trigger] text_keys(l.lemma.searchable@)[m],
            ),
        forall|m: int|
            0 <= m < l.lemma_search.searchable@.len() ==> lemma_keys(l).contains(
                #[trigger] text_keys(l.lemma_search.searchable@)[m],
            ),
        forall|m: int|
            0 <= m < l.lemma_bw.searchable@.len() ==> lemma_keys(l).contains(
                #[trigger] text_keys(l.lemma_bw.searchable@)[m],
            ),
        forall|i: int, m: int|
            0 <= i < l.definitions@.len() && 0 <= m < l.definitions@[i].form.searchable@.len()
                ==> lemma_keys(l).contains(
                #[trigger] text_keys(l.definitions@[i].form.searchable@)[m],
            ),
        forall|i: int, m: int|
            0 <= i < l.definitions@.len() && 0 <= m < l.definitions@[i].transcription.bw@.len()
                ==> lemma_keys(l).contains(
                #[trigger] text_keys(l.definitions@[i].transcription.bw@)[m],
            ),
        forall|i: int, g: int, m: int|
            0 <= i < l.definitions@.len() && 0 <= g < l.definitions@[i].glosses_english@.len() && 0
                <= m < l.definitions@[i].glosses_english@[g].searchable@.len() ==> lemma_keys(
                l,
            ).contains(#[trigger] text_keys(l.definitions@[i].glosses_english@[g].searchable@)[m]),
{
    let ts = lemma_texts(l);
    assert(ts[0] == l.root.text().searchable@);
    assert(ts[1] == l.lemma.searchable@);
    assert(ts[2] == l.lemma_search.searchable@);
    assert(ts[3] == l.lemma_bw.searchable@);
    lemma_texts_keys_contain(ts, 0);
    lemma_texts_keys_contain(ts, 1);
    lemma_texts_keys_contain(ts, 2);
    lemma_texts_keys_contain(ts, 3);
    let ds = l.definitions@;
    assert forall|i: int, m: int|
        0 <= i < ds.len() && 0 <= m < ds[i].form.searchable@.len() implies lemma_keys(l).contains(
        #[trigger] text_keys(l.definitions@[i].form.searchable@)[m],
    ) by {
        lemma_definitions_texts_index(ds, i);
        let o = definitions_texts(ds.take(i)).len() as int;
        assert(definition_texts(ds[i])[0] == ds[i].form.searchable@);
        assert(ts[4 + o] == ds[i].form.searchable@);
        lemma_texts_keys_contain(ts, 4 + o);
    }
    assert forall|i: int, m: int|
        0 <= i < ds.len() && 0 <= m < ds[i].transcription.bw@.len() implies lemma_keys(l).contains(
        #[trigger] text_keys(l.definitions@[i].transcription.bw@)[m],
    ) by {
        lemma_definitions_texts_index(ds, i);
        let o = definitions_texts(ds.take(i)).len() as int;
        assert(definition_texts(ds[i])[1] == ds[i].transcription.bw@);
        assert(ts[4 + o + 1] == ds[i].transcription.bw@);
        lemma_texts_keys_contain(ts, 4 + o + 1);
    }
    assert forall|i: int, g: int, m: int|
        0 <= i < ds.len() && 0 <= g < ds[i].glosses_english@.len() && 0 <= m
            < ds[i].glosses_english@[g].searchable@.len() implies lemma_keys(l).contains(
        #[trigger] text_keys(l.definitions@[i].glosses_english@[g].searchable@)[m],
    ) by {
        lemma_definitions_texts_index(ds, i);
        let o = definitions_texts(ds.take(i)).len() as int;
        assert(definition_texts(ds[i])[2 + g] == ds[i].glosses_english@[g].searchable@);
        assert(ts[4 + o + 2 + g] == ds[i].glosses_english@[g].searchable@);
        lemma_texts_keys_contain(ts, 4 + o + 2 + g);
    }
}

/// A document that counts the keys `keys` gives each of them a frequency of
/// at least one.
pub proof fn lemma_counted_keys_present(d: DocumentTermFrequencies, keys: Seq<u128>, k: u128)
    requires
        d.counts(keys),
        keys.contains(k),
    ensures
        d.freq(k) >= 1,
{
    lemma_occurrences(keys, k);
}

/// The keys of the trigrams of a search term, taken from its case-folded
/// form.
pub fn query_term_keys(term: &QueryTerm) -> (keys: Vec<u128>)
    ensures
        keys@ == text_keys(term@.case_folded),
{
    let mut keys: Vec<u128> = Vec::new();
    push_text_keys(&mut keys, term.term.case_folded.as_str());
    assert(keys@ =~= text_keys(term@.case_folded));
    keys
}

/// How many times `k` occurs in `s`.
pub open spec fn occurrences(s: Seq<u128>, k: u128) -> nat
    decreases s.len(),
{
    if s.len() == 0 {
        0
    } else {
        occurrences(s.drop_last(), k) + if s.last() == k {
            1nat
        } else {
            0nat
        }
    }
}

/// A key occurs at most as often as `s` is long, and at least once exactly
/// when `s` contains it.
pub proof fn lemma_occurrences(s: Seq<u128>, k: u128)
    ensures
        occurrences(s, k) <= s.len(),
        occurrences(s, k) > 0 <==> s.contains(k),
    decreases s.len(),
{
    if s.len() > 0 {
        lemma_occurrences(s.drop_last(), k);
        if s.drop_last().contains(k) {
            let i = choose|i: int| 0 <= i < s.drop_last().len() && s.drop_last()[i] == k;
            assert(s[i] == k);
        }
        if s.contains(k) && s.last() != k {
            let i = choose|i: int| 0 <= i < s.len() && s[i] == k;
            assert(s.drop_last()[i] == k);
        }
    }
}

proof fn lemma_occurrences_push(s: Seq<u128>, x: u128, k: u128)
    ensures
        occurrences(s.push(x), k) == occurrences(s, k) + if x == k {
            1nat
        } else {
            0nat
        },
{
    assert(s.push(x).drop_last() =~= s);
}

/// How often each trigram occurs in one document.
pub struct DocumentTermFrequencies {
    term_count: u16,
    term_freqs: HashMap<u128, u16>,
    /// Each key of `term_freqs` once, in the order of first occurrence.
    terms: Vec<u128>,
}

impl DocumentTermFrequencies {
    #[verifier::type_invariant]
    spec fn inv(&self) -> bool {
        &&& self.terms@.no_duplicates()
        &&& forall|k: u128| self.term_freqs@.contains_key(k) <==> self.terms@.contains(k)
        &&& forall|k: u128| #[trigger] self.term_freqs@.contains_key(k) ==> self.term_freqs@[k] >= 1
    }

    /// The number of trigrams in the document, repeats included.
    pub closed spec fn count(&self) -> nat {
        self.term_count as nat
    }

    /// How many times the trigram `k` occurs in the document.
    pub closed spec fn freq(&self, k: u128) -> nat {
        if self.term_freqs@.contains_key(k) {
            self.term_freqs@[k] as nat
        } else {
            0
        }
    }

    /// The distinct trigrams of the document, in the order they first occur.
    pub closed spec fn distinct(&self) -> Seq<u128> {
        self.terms@
    }

    /// This value counts the trigrams of `keys`.
    pub open spec fn counts(&self, keys: Seq<u128>) -> bool {
        &&& self.count() == keys.len()
        &&& forall|k: u128| #[trigger] self.freq(k) == occurrences(keys, k)
        &&& forall|k: u128| #[trigger] self.distinct().contains(k) <==> keys.contains(k)
        &&& self.distinct().no_duplicates()
    }

    /// Counts the trigram keys of a document.
    pub fn from_keys(keys: &Vec<u128>) -> (res: Self)
        requires
            keys.len() <= u16::MAX,
        ensures
            res.counts(keys@),
    {
        let mut term_count: u16 = 0;
        let mut term_freqs: HashMap<u128, u16> = HashMap::new();
        let mut terms: Vec<u128> = Vec::new();
        let mut i: usize = 0;
        while i < keys.len()
            invariant
                i <= keys.len() <= u16::MAX,
                term_count == i,
                terms@.no_duplicates(),
                forall|k: u128| term_freqs@.contains_key(k) <==> terms@.contains(k),
                forall|k: u128| #[trigger] terms@.contains(k) <==> keys@.take(i as int).contains(k),
                forall|k: u128|
                    #[trigger] term_freqs@.contains_key(k) ==> term_freqs@[k] == occurrences(
                        keys@.take(i as int),
                        k,
                    ),
                forall|k: u128| #[trigger] term_freqs@.contains_key(k) ==> term_freqs@[k] >= 1,
                forall|k: u128|
                    !(#[trigger] term_freqs@.contains_key(k)) ==> occurrences(
                        keys@.take(i as int),
                        k,
                    ) == 0,
            decreases keys.len() - i,
        {
            let k = keys[i];
            let ghost before = keys@.take(i as int);
            assert(keys@.take(i + 1) =~= before.push(k));
            proof {
                lemma_occurrences(before, k);
                assert forall|x: u128| occurrences(keys@.take(i + 1), x) == occurrences(before, x)
                    + if k == x {
                    1nat
                } else {
                    0nat
                } by {
                    lemma_occurrences_push(before, k, x);
                }
                let after = keys@.take(i + 1);
                assert forall|x: u128| #[trigger] after.contains(x) <==> (before.contains(x) || x == k) by {
                    if after.contains(x) && x != k {
                        let j = choose|j: int| 0 <= j < after.len() && after[j] == x;
                        assert(before[j] == x);
                    }
                    if before.contains(x) {
                        let j = choose|j: int| 0 <= j < before.len() && before[j] == x;
                        assert(after[j] == x);
                    }
                    if x == k {
                        assert(after[i as int] == x);
                    }
                }
            }
            match term_freqs.get(&k) {
                Some(f) => {
                    let f = *f;
                    term_freqs.insert(k, f + 1);
                },
                None => {
                    assert(!terms@.contains(k));
                    term_freqs.insert(k, 1);
                    let ghost old_terms = terms@;
                    terms.push(k);
                    proof {
                        assert forall|x: u128| #[trigger] terms@.contains(x) <==> (old_terms.contains(x) || x == k) by {
                            if terms@.contains(x) && x != k {
                                let j = choose|j: int| 0 <= j < terms@.len() && terms@[j] == x;
                                assert(old_terms[j] == x);
                            }
                            if old_terms.contains(x) {
                                let j = choose|j: int| 0 <= j < old_terms.len() && old_terms[j] == x;
                                assert(terms@[j] == x);
                            }
                            if x == k {
                                assert(terms@[old_terms.len() as int] == x);
                            }
                        }
                        assert forall|a: int, b: int| 0 <= a < terms@.len() && 0 <= b < terms@.len() && a != b implies terms@[a] != terms@[b] by {
                            if b == old_terms.len() {
                                assert(old_terms[a] == terms@[a]);
                                if terms@[a] == terms@[b] {
                                    assert(old_terms.contains(k));
                                }
                            } else if a == old_terms.len() {
                                assert(old_terms[b] == terms@[b]);
                                if terms@[a] == terms@[b] {
                                    assert(old_terms.contains(k));
                                }
                            }
                        }
                    }
                },
            }
            term_count = term_count + 1;
            i = i + 1;
        }
        assert(keys@.take(i as int) =~= keys@);
        let res = DocumentTermFrequencies { term_count, term_freqs, terms };
        assert forall|k: u128| #[trigger] res.freq(k) == occurrences(keys@, k) by {
            if !term_freqs@.contains_key(k) {
            }
        }
        res
    }

    /// Counts the trigrams of a lemma.
    pub fn from_lemma(lemma: &Lemma) -> (res: Self)
        requires
            lemma_keys(*lemma).len() <= u16::MAX,
        ensures
            res.counts(lemma_keys(*lemma)),
    {
        let keys = lemma_term_keys(lemma);
        Self::from_keys(&keys)
    }

    /// How many times the trigram `k` occurs in the document.
    pub fn frequency(&self, k: u128) -> (f: u16)
        ensures
            f == self.freq(k),
    {
        match self.term_freqs.get(&k) {
            Some(f) => *f,
            None => 0,
        }
    }

    /// The number of trigrams in the document, repeats included.
    pub fn term_count(&self) -> (n: u16)
        ensures
            n == self.count(),
    {
        self.term_count
    }

    /// The distinct trigrams of the document, in the order they first occur.
    pub fn distinct_terms(&self) -> (t: &Vec<u128>)
        ensures
            t@ == self.distinct(),
    {
        &self.terms
    }
}

spec fn spec_with(m: Map<u128, u16>, k: u128) -> nat {
    if m.contains_key(k) {
        m[k] as nat
    } else {
        0
    }
}

/// In how many documents each trigram occurs.
pub struct InverseDocumentFrequencies {
    doc_count: u32,
    docs_with_term: HashMap<u128, u16>,
}

impl InverseDocumentFrequencies {
    #[verifier::type_invariant]
    spec fn inv(&self) -> bool {
        forall|k: u128| #[trigger] self.docs_with_term@.contains_key(k) ==> self.docs_with_term@[k] <= self.doc_count
    }

    /// The number of documents added.
    pub closed spec fn docs(&self) -> nat {
        self.doc_count as nat
    }

    /// The number of documents added in which the trigram `k` occurs.
    pub closed spec fn with(&self, k: u128) -> nat {
        spec_with(self.docs_with_term@, k)
    }

    /// Adding the document `d` keeps every count within its integer type.
    pub open spec fn can_add(&self, d: DocumentTermFrequencies) -> bool {
        &&& self.docs() < u32::MAX
        &&& forall|k: u128| d.freq(k) > 0 ==> #[trigger] self.with(k) < u16::MAX
    }

    /// No documents yet.
    pub fn new() -> (res: Self)
        ensures
            res.docs() == 0,
            forall|k: u128| #[trigger] res.with(k) == 0,
    {
        InverseDocumentFrequencies { doc_count: 0, docs_with_term: HashMap::new() }
    }

    /// Whether the document `d` can be added without a count overflowing.
    pub fn fits(&self, d: &DocumentTermFrequencies) -> (b: bool)
        ensures
            b == self.can_add(*d),
    {
        proof {
            use_type_invariant(d);
        }
        if self.doc_count == u32::MAX {
            return false;
        }
        let terms = d.distinct_terms();
        let mut i: usize = 0;
        while i < terms.len()
            invariant
                i <= terms.len(),
                terms@ == d.distinct(),
                forall|k: u128| d.freq(k) > 0 <==> #[trigger] terms@.contains(k),
                forall|j: int| 0 <= j < i ==> #[trigger] self.with(terms@[j]) < u16::MAX,
            decreases terms.len() - i,
        {
            let n = self.docs_with(terms[i]);
            if n == u16::MAX {
                assert(terms@.contains(terms@[i as int]));
                return false;
            }
            i = i + 1;
        }
        assert forall|k: u128| d.freq(k) > 0 implies #[trigger] self.with(k) < u16::MAX by {
            assert(d.distinct().contains(k));
            let j = choose|j: int| 0 <= j < terms@.len() && terms@[j] == k;
            assert(self.with(terms@[j]) < u16::MAX);
        }
        true
    }

    /// Counts one more document, and one more document for each trigram
    /// that occurs in it.
    pub fn add_document(&mut self, d: &DocumentTermFrequencies)
        requires
            old(self).can_add(*d),
        ensures
            final(self).docs() == old(self).docs() + 1,
            forall|k: u128|
                #[trigger] final(self).with(k) == old(self).with(k) + if d.freq(k) > 0 {
                    1nat
                } else {
                    0nat
                },
    {
        proof {
            use_type_invariant(d);
            use_type_invariant(&*self);
        }
        let ghost start = *self;
        let mut map: HashMap<u128, u16> = HashMap::new();
        std::mem::swap(&mut map, &mut self.docs_with_term);
        let terms = d.distinct_terms();
        let mut i: usize = 0;
        while i < terms.len()
            invariant
                i <= terms.len(),
                terms@ == d.distinct(),
                terms@.no_duplicates(),
                forall|k: u128| d.freq(k) > 0 <==> #[trigger] terms@.contains(k),
                start.can_add(*d),
                forall|k: u128| #[trigger] start.docs_with_term@.contains_key(k) ==> start.docs_with_term@[k] <= start.doc_count,
                forall|k: u128|
                    #[trigger] map@.contains_key(k) ==> map@[k] <= start.doc_count + 1,
                forall|k: u128|
                    #[trigger] spec_with(map@, k) == start.with(k) + if terms@.take(i as int).contains(k) {
                        1nat
                    } else {
                        0nat
                    },
            decreases terms.len() - i,
        {
            let t = terms[i];
            let ghost before = terms@.take(i as int);
            let ghost after = terms@.take(i + 1);
            proof {
                assert(after =~= before.push(t));
                assert(!before.contains(t)) by {
                    if before.contains(t) {
                        let j = choose|j: int| 0 <= j < before.len() && before[j] == t;
                        assert(terms@[j] == terms@[i as int]);
                    }
                }
                assert forall|x: u128| #[trigger] after.contains(x) <==> (before.contains(x) || x == t) by {
                    if after.contains(x) && x != t {
                        let j = choose|j: int| 0 <= j < after.len() && after[j] == x;
                        assert(before[j] == x);
                    }
                    if before.contains(x) {
                        let j = choose|j: int| 0 <= j < before.len() && before[j] == x;
                        assert(after[j] == x);
                    }
                    if x == t {
                        assert(after[i as int] == x);
                    }
                }
                assert(terms@.contains(t));
                assert(start.with(t) < u16::MAX);
                assert(spec_with(map@, t) == start.with(t));
            }
            let n: u16 = match map.get(&t) {
                Some(n) => *n,
                None => 0,
            };
            let ghost old_map = map@;
            map.insert(t, n + 1);
            proof {
                assert forall|k: u128| #[trigger] spec_with(map@, k) == start.with(k) + if after.contains(k) {
                    1nat
                } else {
                    0nat
                } by {
                    if k != t {
                        assert(spec_with(map@, k) == spec_with(old_map, k));
                    }
                }
            }
            i = i + 1;
        }
        assert(terms@.take(i as int) =~= terms@);
        self.doc_count = self.doc_count + 1;
        self.docs_with_term = map;
    }

    /// The number of documents added.
    pub fn doc_count(&self) -> (n: u32)
        ensures
            n == self.docs(),
    {
        self.doc_count
    }

    /// The number of documents added in which the trigram `k` occurs: never
    /// more than the number of documents.
    pub fn docs_with(&self, k: u128) -> (n: u16)
        ensures
            n == self.with(k),
            n <= self.docs(),
    {
        proof {
            use_type_invariant(self);
        }
        match self.docs_with_term.get(&k) {
            Some(n) => *n,
            None => 0,
        }
    }
}

} // verus!
