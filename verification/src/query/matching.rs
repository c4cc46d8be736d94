//! Whether a query matches a lemma.
//!
//! A bare term matches a lemma through its root, lemma form or search form,
//! and through the forms, Buckwalter transcriptions and English glosses of
//! its definitions and phrases.  Qualified terms look at one kind of field.

use vstd::prelude::*;

use super::{Leaf, LeafV, Operator, Qualifier, Query, QueryV, Term, TermV};
use crate::lexicon::lemma::{Definition, Lemma, Phrase};
use crate::normalized::{
    CaseFoldedNfkcNormalizedString, NfkcNormalizedString, NonFoldedNfkcNormalizedString,
    SearchableString,
};
use crate::text::{chars_of, contains, contains_exec, ends_with, ends_with_exec, starts_with, starts_with_exec};

verus! {

/// Something that can be tested against a value.
pub trait Matches<T> {
    spec fn matches_spec(&self, value: &T) -> bool;

    fn matches(&self, value: &T) -> (r: bool)
        ensures
            r == self.matches_spec(value),
    ;
}

/// The term matches the text `x`, using its case-folded form when `folded`:
/// without anchors it occurs anywhere, `^` ties it to the start, `$` to the
/// end, and both make it the whole text.
pub open spec fn text_matches(t: TermV, folded: bool, x: Seq<char>) -> bool {
    let needle = if folded {
        t.case_folded
    } else {
        t.non_folded
    };
    if !t.anchor_start && !t.anchor_end {
        contains(x, needle)
    } else if t.anchor_start && !t.anchor_end {
        starts_with(x, needle)
    } else if t.anchor_start && t.anchor_end {
        x == needle
    } else {
        ends_with(x, needle)
    }
}

/// The term matches the search form of `s`, case-folded or not as `s` is.
pub open spec fn term_matches_searchable(t: TermV, s: SearchableString) -> bool {
    match s.searchable {
        NfkcNormalizedString::NonFolded(n) => text_matches(t, false, n@),
        NfkcNormalizedString::CaseFolded(c) => text_matches(t, true, c@),
    }
}

/// The term matches one of the glosses.
pub open spec fn matches_any(t: TermV, glosses: Seq<SearchableString>) -> bool {
    exists|i: int| 0 <= i < glosses.len() && term_matches_searchable(t, #[trigger] glosses[i])
}

pub open spec fn leaf_matches_lemma(leaf: LeafV, l: Lemma) -> bool {
    match leaf {
        LeafV::Term(t) => term_matches_searchable(t, l.root.text()) || term_matches_searchable(
            t,
            l.lemma,
        ) || term_matches_searchable(t, l.lemma_search),
        LeafV::Qualified(q, t) => match q {
            Qualifier::Lemma => term_matches_searchable(t, l.lemma) || term_matches_searchable(
                t,
                l.lemma_search,
            ) || term_matches_searchable(t, l.lemma_bw),
            _ => false,
        },
    }
}

pub open spec fn leaf_matches_definition(leaf: LeafV, d: Definition) -> bool {
    match leaf {
        LeafV::Term(t) => term_matches_searchable(t, d.form) || text_matches(
            t,
            false,
            d.transcription.bw@,
        ) || matches_any(t, d.glosses_english@),
        LeafV::Qualified(q, t) => match q {
            Qualifier::Lemma => term_matches_searchable(t, d.form) || text_matches(
                t,
                false,
                d.transcription.bw@,
            ) || text_matches(t, false, d.transcription.caphipp@),
            Qualifier::Analysis => text_matches(t, true, d.analysis@),
            Qualifier::Gloss => matches_any(t, d.glosses_english@),
        },
    }
}

pub open spec fn leaf_matches_phrase(leaf: LeafV, p: Phrase) -> bool {
    match leaf {
        LeafV::Term(t) => term_matches_searchable(t, p.form) || text_matches(
            t,
            false,
            p.transcription.bw@,
        ) || matches_any(t, p.glosses_english@),
        LeafV::Qualified(q, t) => match q {
            Qualifier::Lemma => term_matches_searchable(t, p.form) || text_matches(
                t,
                false,
                p.transcription.bw@,
            ) || text_matches(t, false, p.transcription.caphipp@),
            Qualifier::Analysis => false,
            Qualifier::Gloss => matches_any(t, p.glosses_english@),
        },
    }
}

/// A query matches a lemma: a leaf through the lemma itself or one of its
/// definitions or phrases; `and` and `or` as in logic.
pub open spec fn query_matches(q: QueryV, l: Lemma) -> bool
    decreases q,
{
    match q {
        QueryV::Leaf(leaf) => leaf_matches_lemma(leaf, l) || (exists|i: int|
            0 <= i < l.definitions@.len() && leaf_matches_definition(
                leaf,
                #[trigger] l.definitions@[i],
            )) || (exists|i: int|
            0 <= i < l.phrases@.len() && leaf_matches_phrase(leaf, #[trigger] l.phrases@[i])),
        QueryV::Operator(op, lhs, rhs) => match op {
            Operator::And => query_matches(*lhs, l) && query_matches(*rhs, l),
            Operator::Or => query_matches(*lhs, l) || query_matches(*rhs, l),
        },
    }
}

/// A term with empty search forms and no anchors matches every lemma: it
/// occurs in the lemma's root.
pub proof fn lemma_empty_term_matches_all(t: TermV, l: Lemma)
    requires
        t.non_folded.len() == 0,
        t.case_folded.len() == 0,
        !t.anchor_start,
        !t.anchor_end,
    ensures
        query_matches(QueryV::Leaf(LeafV::Term(t)), l),
{
    let x = match l.root.text().searchable {
        NfkcNormalizedString::NonFolded(n) => n@,
        NfkcNormalizedString::CaseFolded(c) => c@,
    };
    assert(x.subrange(0int, 0int + Seq::<char>::empty().len()) =~= Seq::<char>::empty());
    assert(t.non_folded =~= Seq::<char>::empty());
    assert(t.case_folded =~= Seq::<char>::empty());
    assert(contains(x, Seq::<char>::empty()));
}

/// A bare term finds a lemma exactly when it matches the lemma's root, its
/// lemma form or search form, or the form, Buckwalter transcription or one of
/// the English glosses of one of its definitions or phrases.
pub proof fn lemma_bare_term_fields(t: TermV, l: Lemma)
    ensures
        query_matches(QueryV::Leaf(LeafV::Term(t)), l) <==> {
            ||| term_matches_searchable(t, l.root.text())
            ||| term_matches_searchable(t, l.lemma)
            ||| term_matches_searchable(t, l.lemma_search)
            ||| exists|i: int|
                0 <= i < l.definitions@.len() && term_matches_searchable(
                    t,
                    #[trigger] l.definitions@[i].form,
                )
            ||| exists|i: int|
                0 <= i < l.definitions@.len() && text_matches(
                    t,
                    false,
                    #[trigger] l.definitions@[i].transcription.bw@,
                )
            ||| exists|i: int, k: int|
                0 <= i < l.definitions@.len() && 0 <= k < l.definitions@[i].glosses_english@.len()
                    && term_matches_searchable(t, #[trigger] l.definitions@[i].glosses_english@[k])
            ||| exists|i: int|
                0 <= i < l.phrases@.len() && term_matches_searchable(t, #[trigger] l.phrases@[i].form)
            ||| exists|i: int|
                0 <= i < l.phrases@.len() && text_matches(
                    t,
                    false,
                    #[trigger] l.phrases@[i].transcription.bw@,
                )
            ||| exists|i: int, k: int|
                0 <= i < l.phrases@.len() && 0 <= k < l.phrases@[i].glosses_english@.len()
                    && term_matches_searchable(t, #[trigger] l.phrases@[i].glosses_english@[k])
        },
{
    let leaf = LeafV::Term(t);
    let defs = l.definitions@;
    let ps = l.phrases@;
    if exists|i: int| 0 <= i < defs.len() && leaf_matches_definition(leaf, #[trigger] defs[i]) {
        let i = choose|i: int| 0 <= i < defs.len() && leaf_matches_definition(leaf, #[trigger] defs[i]);
        if matches_any(t, defs[i].glosses_english@) {
            let k = choose|k: int|
                0 <= k < defs[i].glosses_english@.len() && term_matches_searchable(
                    t,
                    #[trigger] defs[i].glosses_english@[k],
                );
            assert(term_matches_searchable(t, l.definitions@[i].glosses_english@[k]));
        }
        assert(term_matches_searchable(t, l.definitions@[i].form) || text_matches(t, false, l.definitions@[i].transcription.bw@) || matches_any(t, defs[i].glosses_english@));
    }
    if exists|i: int| 0 <= i < ps.len() && leaf_matches_phrase(leaf, #[trigger] ps[i]) {
        let i = choose|i: int| 0 <= i < ps.len() && leaf_matches_phrase(leaf, #[trigger] ps[i]);
        if matches_any(t, ps[i].glosses_english@) {
            let k = choose|k: int|
                0 <= k < ps[i].glosses_english@.len() && term_matches_searchable(
                    t,
                    #[trigger] ps[i].glosses_english@[k],
                );
            assert(term_matches_searchable(t, l.phrases@[i].glosses_english@[k]));
        }
        assert(term_matches_searchable(t, l.phrases@[i].form) || text_matches(t, false, l.phrases@[i].transcription.bw@) || matches_any(t, ps[i].glosses_english@));
    }
    if exists|i: int, k: int|
        0 <= i < defs.len() && 0 <= k < defs[i].glosses_english@.len()
            && term_matches_searchable(t, #[trigger] defs[i].glosses_english@[k]) {
        let (i, k) = choose|i: int, k: int|
            0 <= i < defs.len() && 0 <= k < defs[i].glosses_english@.len()
                && term_matches_searchable(t, #[trigger] defs[i].glosses_english@[k]);
        assert(leaf_matches_definition(leaf, defs[i]));
    }
    if exists|i: int, k: int|
        0 <= i < ps.len() && 0 <= k < ps[i].glosses_english@.len()
            && term_matches_searchable(t, #[trigger] ps[i].glosses_english@[k]) {
        let (i, k) = choose|i: int, k: int|
            0 <= i < ps.len() && 0 <= k < ps[i].glosses_english@.len()
                && term_matches_searchable(t, #[trigger] ps[i].glosses_english@[k]);
        assert(leaf_matches_phrase(leaf, ps[i]));
    }
    if exists|i: int| 0 <= i < defs.len() && term_matches_searchable(t, #[trigger] defs[i].form) {
        let i = choose|i: int| 0 <= i < defs.len() && term_matches_searchable(t, #[trigger] defs[i].form);
        assert(leaf_matches_definition(leaf, defs[i]));
    }
    if exists|i: int| 0 <= i < defs.len() && text_matches(t, false, #[trigger] defs[i].transcription.bw@) {
        let i = choose|i: int| 0 <= i < defs.len() && text_matches(t, false, #[trigger] defs[i].transcription.bw@);
        assert(leaf_matches_definition(leaf, defs[i]));
    }
    if exists|i: int| 0 <= i < ps.len() && term_matches_searchable(t, #[trigger] ps[i].form) {
        let i = choose|i: int| 0 <= i < ps.len() && term_matches_searchable(t, #[trigger] ps[i].form);
        assert(leaf_matches_phrase(leaf, ps[i]));
    }
    if exists|i: int| 0 <= i < ps.len() && text_matches(t, false, #[trigger] ps[i].transcription.bw@) {
        let i = choose|i: int| 0 <= i < ps.len() && text_matches(t, false, #[trigger] ps[i].transcription.bw@);
        assert(leaf_matches_phrase(leaf, ps[i]));
    }
}

/// A term qualified by `lemma` finds a lemma exactly when it matches its lemma
/// form, search form or Buckwalter transcription, or the form, Buckwalter
/// transcription or CAPHI++ transcription of one of its definitions or phrases.
pub proof fn lemma_lemma_qualified_fields(t: TermV, l: Lemma)
    ensures
        query_matches(QueryV::Leaf(LeafV::Qualified(Qualifier::Lemma, t)), l) <==> {
            ||| term_matches_searchable(t, l.lemma)
            ||| term_matches_searchable(t, l.lemma_search)
            ||| term_matches_searchable(t, l.lemma_bw)
            ||| exists|i: int|
                0 <= i < l.definitions@.len() && term_matches_searchable(
                    t,
                    #[trigger] l.definitions@[i].form,
                )
            ||| exists|i: int|
                0 <= i < l.definitions@.len() && text_matches(
                    t,
                    false,
                    #[trigger] l.definitions@[i].transcription.bw@,
                )
            ||| exists|i: int|
                0 <= i < l.definitions@.len() && text_matches(
                    t,
                    false,
                    #[trigger] l.definitions@[i].transcription.caphipp@,
                )
            ||| exists|i: int|
                0 <= i < l.phrases@.len() && term_matches_searchable(t, #[trigger] l.phrases@[i].form)
            ||| exists|i: int|
                0 <= i < l.phrases@.len() && text_matches(
                    t,
                    false,
                    #[trigger] l.phrases@[i].transcription.bw@,
                )
            ||| exists|i: int|
                0 <= i < l.phrases@.len() && text_matches(
                    t,
                    false,
                    #[trigger] l.phrases@[i].transcription.caphipp@,
                )
        },
{
    let leaf = LeafV::Qualified(Qualifier::Lemma, t);
    let defs = l.definitions@;
    let ps = l.phrases@;
    if exists|i: int| 0 <= i < defs.len() && leaf_matches_definition(leaf, #[trigger] defs[i]) {
        let i = choose|i: int| 0 <= i < defs.len() && leaf_matches_definition(leaf, #[trigger] defs[i]);
        assert(term_matches_searchable(t, l.definitions@[i].form) || text_matches(
            t,
            false,
            l.definitions@[i].transcription.bw@,
        ) || text_matches(t, false, l.definitions@[i].transcription.caphipp@));
    }
    if exists|i: int| 0 <= i < ps.len() && leaf_matches_phrase(leaf, #[trigger] ps[i]) {
        let i = choose|i: int| 0 <= i < ps.len() && leaf_matches_phrase(leaf, #[trigger] ps[i]);
        assert(term_matches_searchable(t, l.phrases@[i].form) || text_matches(
            t,
            false,
            l.phrases@[i].transcription.bw@,
        ) || text_matches(t, false, l.phrases@[i].transcription.caphipp@));
    }
    if exists|i: int| 0 <= i < defs.len() && term_matches_searchable(t, #[trigger] defs[i].form) {
        let i = choose|i: int| 0 <= i < defs.len() && term_matches_searchable(t, #[trigger] defs[i].form);
        assert(leaf_matches_definition(leaf, defs[i]));
    }
    if exists|i: int| 0 <= i < defs.len() && text_matches(t, false, #[trigger] defs[i].transcription.bw@) {
        let i = choose|i: int| 0 <= i < defs.len() && text_matches(t, false, #[trigger] defs[i].transcription.bw@);
        assert(leaf_matches_definition(leaf, defs[i]));
    }
    if exists|i: int| 0 <= i < defs.len() && text_matches(t, false, #[trigger] defs[i].transcription.caphipp@) {
        let i = choose|i: int| 0 <= i < defs.len() && text_matches(t, false, #[trigger] defs[i].transcription.caphipp@);
        assert(leaf_matches_definition(leaf, defs[i]));
    }
    if exists|i: int| 0 <= i < ps.len() && term_matches_searchable(t, #[trigger] ps[i].form) {
        let i = choose|i: int| 0 <= i < ps.len() && term_matches_searchable(t, #[trigger] ps[i].form);
        assert(leaf_matches_phrase(leaf, ps[i]));
    }
    if exists|i: int| 0 <= i < ps.len() && text_matches(t, false, #[trigger] ps[i].transcription.bw@) {
        let i = choose|i: int| 0 <= i < ps.len() && text_matches(t, false, #[trigger] ps[i].transcription.bw@);
        assert(leaf_matches_phrase(leaf, ps[i]));
    }
    if exists|i: int| 0 <= i < ps.len() && text_matches(t, false, #[trigger] ps[i].transcription.caphipp@) {
        let i = choose|i: int| 0 <= i < ps.len() && text_matches(t, false, #[trigger] ps[i].transcription.caphipp@);
        assert(leaf_matches_phrase(leaf, ps[i]));
    }
}

/// A term qualified by `analysis` finds a lemma exactly when it matches the
/// case-folded analysis of one of its definitions; phrases and the lemma's
/// own fields play no part.
pub proof fn lemma_analysis_qualified_fields(t: TermV, l: Lemma)
    ensures
        query_matches(QueryV::Leaf(LeafV::Qualified(Qualifier::Analysis, t)), l) <==> exists|i: int|
            0 <= i < l.definitions@.len() && text_matches(
                t,
                true,
                #[trigger] l.definitions@[i].analysis@,
            ),
{
    let leaf = LeafV::Qualified(Qualifier::Analysis, t);
    let defs = l.definitions@;
    if exists|i: int| 0 <= i < defs.len() && leaf_matches_definition(leaf, #[trigger] defs[i]) {
        let i = choose|i: int| 0 <= i < defs.len() && leaf_matches_definition(leaf, #[trigger] defs[i]);
        assert(text_matches(t, true, l.definitions@[i].analysis@));
    }
    if exists|i: int| 0 <= i < defs.len() && text_matches(t, true, #[trigger] defs[i].analysis@) {
        let i = choose|i: int| 0 <= i < defs.len() && text_matches(t, true, #[trigger] defs[i].analysis@);
        assert(leaf_matches_definition(leaf, defs[i]));
    }
}

/// A term qualified by `gloss` finds a lemma exactly when it matches one of
/// the English glosses of one of its definitions or phrases.
pub proof fn lemma_gloss_qualified_fields(t: TermV, l: Lemma)
    ensures
        query_matches(QueryV::Leaf(LeafV::Qualified(Qualifier::Gloss, t)), l) <==> {
            ||| exists|i: int, k: int|
                0 <= i < l.definitions@.len() && 0 <= k < l.definitions@[i].glosses_english@.len()
                    && term_matches_searchable(t, #[trigger] l.definitions@[i].glosses_english@[k])
            ||| exists|i: int, k: int|
                0 <= i < l.phrases@.len() && 0 <= k < l.phrases@[i].glosses_english@.len()
                    && term_matches_searchable(t, #[trigger] l.phrases@[i].glosses_english@[k])
        },
{
    let leaf = LeafV::Qualified(Qualifier::Gloss, t);
    let defs = l.definitions@;
    let ps = l.phrases@;
    if exists|i: int| 0 <= i < defs.len() && leaf_matches_definition(leaf, #[trigger] defs[i]) {
        let i = choose|i: int| 0 <= i < defs.len() && leaf_matches_definition(leaf, #[trigger] defs[i]);
        let k = choose|k: int|
            0 <= k < defs[i].glosses_english@.len() && term_matches_searchable(
                t,
                #[trigger] defs[i].glosses_english@[k],
            );
        assert(term_matches_searchable(t, l.definitions@[i].glosses_english@[k]));
    }
    if exists|i: int| 0 <= i < ps.len() && leaf_matches_phrase(leaf, #[trigger] ps[i]) {
        let i = choose|i: int| 0 <= i < ps.len() && leaf_matches_phrase(leaf, #[trigger] ps[i]);
        let k = choose|k: int|
            0 <= k < ps[i].glosses_english@.len() && term_matches_searchable(
                t,
                #[trigger] ps[i].glosses_english@[k],
            );
        assert(term_matches_searchable(t, l.phrases@[i].glosses_english@[k]));
    }
    if exists|i: int, k: int|
        0 <= i < defs.len() && 0 <= k < defs[i].glosses_english@.len()
            && term_matches_searchable(t, #[trigger] defs[i].glosses_english@[k]) {
        let (i, k) = choose|i: int, k: int|
            0 <= i < defs.len() && 0 <= k < defs[i].glosses_english@.len()
                && term_matches_searchable(t, #[trigger] defs[i].glosses_english@[k]);
        assert(leaf_matches_definition(leaf, defs[i]));
    }
    if exists|i: int, k: int|
        0 <= i < ps.len() && 0 <= k < ps[i].glosses_english@.len()
            && term_matches_searchable(t, #[trigger] ps[i].glosses_english@[k]) {
        let (i, k) = choose|i: int, k: int|
            0 <= i < ps.len() && 0 <= k < ps[i].glosses_english@.len()
                && term_matches_searchable(t, #[trigger] ps[i].glosses_english@[k]);
        assert(leaf_matches_phrase(leaf, ps[i]));
    }
}

fn text_matches_exec(t: &Term, folded: bool, x: &str) -> (r: bool)
    ensures
        r == text_matches(t@, folded, x@),
{
    let hay = chars_of(x);
    let needle = if folded {
        chars_of(t.term.case_folded.as_str())
    } else {
        chars_of(t.term.non_folded.as_str())
    };
    if !t.anchor_start && !t.anchor_end {
        contains_exec(&hay, needle.as_slice())
    } else if t.anchor_start && !t.anchor_end {
        starts_with_exec(&hay, needle.as_slice())
    } else if t.anchor_start && t.anchor_end {
        crate::text::chars_eq(&hay, needle.as_slice())
    } else {
        ends_with_exec(&hay, needle.as_slice())
    }
}

impl Matches<NonFoldedNfkcNormalizedString> for Term {
    open spec fn matches_spec(&self, value: &NonFoldedNfkcNormalizedString) -> bool {
        text_matches(self@, false, value@)
    }

    fn matches(&self, value: &NonFoldedNfkcNormalizedString) -> (r: bool) {
        text_matches_exec(self, false, value.as_str())
    }
}

impl Matches<CaseFoldedNfkcNormalizedString> for Term {
    open spec fn matches_spec(&self, value: &CaseFoldedNfkcNormalizedString) -> bool {
        text_matches(self@, true, value@)
    }

    fn matches(&self, value: &CaseFoldedNfkcNormalizedString) -> (r: bool) {
        text_matches_exec(self, true, value.as_str())
    }
}

impl Matches<SearchableString> for Term {
    open spec fn matches_spec(&self, value: &SearchableString) -> bool {
        term_matches_searchable(self@, *value)
    }

    fn matches(&self, value: &SearchableString) -> (r: bool) {
        match &value.searchable {
            NfkcNormalizedString::NonFolded(inner) => self.matches(inner),
            NfkcNormalizedString::CaseFolded(inner) => self.matches(inner),
        }
    }
}

fn matches_any_exec(t: &Term, glosses: &Vec<SearchableString>) -> (r: bool)
    ensures
        r == matches_any(t@, glosses@),
{
    let mut i: usize = 0;
    while i < glosses.len()
        invariant
            i <= glosses.len(),
            forall|j: int| 0 <= j < i ==> !term_matches_searchable(t@, #[trigger] glosses@[j]),
        decreases glosses.len() - i,
    {
        if t.matches(&glosses[i]) {
            return true;
        }
        i = i + 1;
    }
    false
}

impl Leaf {
    pub fn term(&self) -> (t: &Term)
        ensures
            t@ == match self@ {
                LeafV::Term(t) => t,
                LeafV::Qualified(_, t) => t,
            },
    {
        match self {
            Leaf::Term { term } => term,
            Leaf::Qualified { qualifier: _, term } => term,
        }
    }
}

impl Matches<Lemma> for Leaf {
    open spec fn matches_spec(&self, value: &Lemma) -> bool {
        leaf_matches_lemma(self@, *value)
    }

    fn matches(&self, value: &Lemma) -> (r: bool) {
        match self {
            Leaf::Term { term } => {
                term.matches(value.root.as_searchable()) || term.matches(&value.lemma)
                    || term.matches(&value.lemma_search)
            },
            Leaf::Qualified { qualifier, term } => match qualifier {
                Qualifier::Lemma => {
                    term.matches(&value.lemma) || term.matches(&value.lemma_search)
                        || term.matches(&value.lemma_bw)
                },
                Qualifier::Analysis | Qualifier::Gloss => false,
            },
        }
    }
}

impl Matches<Definition> for Leaf {
    open spec fn matches_spec(&self, value: &Definition) -> bool {
        leaf_matches_definition(self@, *value)
    }

    fn matches(&self, value: &Definition) -> (r: bool) {
        match self {
            Leaf::Term { term } => {
                term.matches(&value.form) || term.matches(&value.transcription.bw)
                    || matches_any_exec(term, &value.glosses_english)
            },
            Leaf::Qualified { qualifier, term } => match qualifier {
                Qualifier::Lemma => {
                    term.matches(&value.form) || term.matches(&value.transcription.bw)
                        || term.matches(&value.transcription.caphipp)
                },
                Qualifier::Analysis => term.matches(&value.analysis),
                Qualifier::Gloss => matches_any_exec(term, &value.glosses_english),
            },
        }
    }
}

impl Matches<Phrase> for Leaf {
    open spec fn matches_spec(&self, value: &Phrase) -> bool {
        leaf_matches_phrase(self@, *value)
    }

    fn matches(&self, value: &Phrase) -> (r: bool) {
        match self {
            Leaf::Term { term } => {
                term.matches(&value.form) || term.matches(&value.transcription.bw)
                    || matches_any_exec(term, &value.glosses_english)
            },
            Leaf::Qualified { qualifier, term } => match qualifier {
                Qualifier::Lemma => {
                    term.matches(&value.form) || term.matches(&value.transcription.bw)
                        || term.matches(&value.transcription.caphipp)
                },
                Qualifier::Analysis => false,
                Qualifier::Gloss => matches_any_exec(term, &value.glosses_english),
            },
        }
    }
}

fn leaf_matches_entries(leaf: &Leaf, value: &Lemma) -> (r: bool)
    ensures
        r == ((exists|i: int|
            0 <= i < value.definitions@.len() && leaf_matches_definition(
                leaf@,
                #[trigger] value.definitions@[i],
            )) || (exists|i: int|
            0 <= i < value.phrases@.len() && leaf_matches_phrase(
                leaf@,
                #[trigger] value.phrases@[i],
            ))),
{
    let mut i: usize = 0;
    while i < value.definitions.len()
        invariant
            i <= value.definitions.len(),
            forall|j: int|
                0 <= j < i ==> !leaf_matches_definition(leaf@, #[trigger] value.definitions@[j]),
        decreases value.definitions.len() - i,
    {
        if leaf.matches(&value.definitions[i]) {
            return true;
        }
        i = i + 1;
    }
    let mut k: usize = 0;
    while k < value.phrases.len()
        invariant
            k <= value.phrases.len(),
            forall|j: int|
                0 <= j < value.definitions@.len() ==> !leaf_matches_definition(
                    leaf@,
                    #[trigger] value.definitions@[j],
                ),
            forall|j: int| 0 <= j < k ==> !leaf_matches_phrase(leaf@, #[trigger] value.phrases@[j]),
        decreases value.phrases.len() - k,
    {
        if leaf.matches(&value.phrases[k]) {
            return true;
        }
        k = k + 1;
    }
    false
}

impl Matches<Lemma> for Query {
    open spec fn matches_spec(&self, value: &Lemma) -> bool {
        query_matches(self@, *value)
    }

    fn matches(&self, value: &Lemma) -> (r: bool)
        decreases self,
    {
        match self {
            Query::Leaf(leaf) => leaf.matches(value) || leaf_matches_entries(leaf, value),
            Query::Operator { op, lhs, rhs } => {
                let l = lhs.matches(value);
                match op {
                    Operator::And => l && rhs.matches(value),
                    Operator::Or => l || rhs.matches(value),
                }
            },
        }
    }
}

} // verus!
