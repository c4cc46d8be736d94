//! The search query language: a lexer, a Pratt parser and the matching rules.

pub mod grammar;
pub mod lexer;
pub mod matching;
pub mod parser;
pub mod prefix;

use vstd::prelude::*;

use crate::normalized::{
    folded_text, nfkc_text, CaseFoldedNfkcNormalizedString, NonFoldedNfkcNormalizedString,
};
use crate::text::chars_of;

verus! {

/// The two search forms of a query term.
pub struct TermString {
    pub non_folded: NonFoldedNfkcNormalizedString,
    pub case_folded: CaseFoldedNfkcNormalizedString,
}

/// A search term with its anchors: `^` at the start ties it to the start of
/// the text, `$` at the end to the end.
pub struct Term {
    pub term: TermString,
    pub anchor_start: bool,
    pub anchor_end: bool,
}

/// The mathematical value of a [`Term`].
pub struct TermV {
    pub non_folded: Seq<char>,
    pub case_folded: Seq<char>,
    pub anchor_start: bool,
    pub anchor_end: bool,
}

impl View for Term {
    type V = TermV;

    open spec fn view(&self) -> TermV {
        TermV {
            non_folded: self.term.non_folded@,
            case_folded: self.term.case_folded@,
            anchor_start: self.anchor_start,
            anchor_end: self.anchor_end,
        }
    }
}

/// `s` with a leading `^` and then a trailing `$` taken off, and whether
/// each was there.
pub open spec fn strip_anchors(s: Seq<char>) -> (Seq<char>, bool, bool) {
    let start = s.len() > 0 && s[0] == '^';
    let t = if start {
        s.drop_first()
    } else {
        s
    };
    let end = t.len() > 0 && t.last() == '$';
    (
        if end {
            t.drop_last()
        } else {
            t
        },
        start,
        end,
    )
}

/// The term that the text `s` denotes.
pub open spec fn term_of(s: Seq<char>) -> TermV {
    let (t, start, end) = strip_anchors(s);
    TermV {
        non_folded: nfkc_text(t),
        case_folded: folded_text(t),
        anchor_start: start,
        anchor_end: end,
    }
}

/// A term written back with its anchors, in its non-folded form.
pub open spec fn written_form(t: TermV) -> Seq<char> {
    (if t.anchor_start {
        seq!['^']
    } else {
        Seq::empty()
    }) + t.non_folded + (if t.anchor_end {
        seq!['$']
    } else {
        Seq::empty()
    })
}

impl Term {
    /// The term written back with its anchors, as debugging output shows it.
    pub fn written(&self) -> (s: String)
        ensures
            s@ == written_form(self@),
    {
        let mut s = String::new();
        if self.anchor_start {
            crate::text::push_char(&mut s, '^');
        }
        let body = chars_of(self.term.non_folded.as_str());
        let mut i: usize = 0;
        let ghost start = s@;
        while i < body.len()
            invariant
                i <= body.len(),
                body@ == self@.non_folded,
                s@ == start + body@.subrange(0, i as int),
            decreases body.len() - i,
        {
            crate::text::push_char(&mut s, body[i]);
            assert(body@.subrange(0, i + 1) =~= body@.subrange(0, i as int).push(body@[i as int]));
            i = i + 1;
        }
        assert(body@.subrange(0, i as int) =~= body@);
        if self.anchor_end {
            crate::text::push_char(&mut s, '$');
        }
        assert(s@ =~= written_form(self@));
        s
    }

    /// The term written as `value`: `^` and `$` anchors are taken off and
    /// the rest is normalized for search.
    pub fn from(value: &str) -> (term: Term)
        ensures
            term@ == term_of(value@),
            value@.len() == 0 ==> term@.non_folded.len() == 0 && term@.case_folded.len() == 0,
    {
        let v = chars_of(value);
        let n = v.len();
        let anchor_start = n > 0 && v[0] == '^';
        let start: usize = if anchor_start {
            1
        } else {
            0
        };
        let anchor_end = n > start && v[n - 1] == '$';
        let end: usize = if anchor_end {
            n - 1
        } else {
            n
        };
        let inner = crate::text::string_from_range(&v, start, end);
        proof {
            let (t, s0, e0) = strip_anchors(value@);
            assert(s0 == anchor_start);
            let t1 = if s0 {
                value@.drop_first()
            } else {
                value@
            };
            assert(t1 =~= value@.subrange(start as int, n as int));
            assert(e0 == anchor_end);
            assert(t =~= value@.subrange(start as int, end as int));
        }
        Term {
            term: TermString {
                non_folded: NonFoldedNfkcNormalizedString::new(inner.as_str()),
                case_folded: CaseFoldedNfkcNormalizedString::new(inner.as_str()),
            },
            anchor_start,
            anchor_end,
        }
    }
}

/// Restricts a term to one part of an entry.
#[derive(Debug, Clone, Copy, PartialEq, Eq)]
pub enum Qualifier {
    Analysis,
    Gloss,
    Lemma,
}

pub open spec fn analysis_word() -> Seq<char> {
    seq!['a', 'n', 'a', 'l', 'y', 's', 'i', 's']
}

pub open spec fn gloss_word() -> Seq<char> {
    seq!['g', 'l', 'o', 's', 's']
}

pub open spec fn lemma_word() -> Seq<char> {
    seq!['l', 'e', 'm', 'm', 'a']
}

/// The qualifier that the name `s` denotes, if any.
pub open spec fn qualifier_of(s: Seq<char>) -> Option<Qualifier> {
    if s == analysis_word() {
        Some(Qualifier::Analysis)
    } else if s == gloss_word() {
        Some(Qualifier::Gloss)
    } else if s == lemma_word() {
        Some(Qualifier::Lemma)
    } else {
        None
    }
}

fn seq_eq(a: &Vec<char>, b: &[char]) -> (r: bool)
    ensures
        r == (a@ == b@),
{
    if a.len() != b.len() {
        return false;
    }
    let mut i: usize = 0;
    while i < a.len()
        invariant
            a.len() == b.len(),
            i <= a.len(),
            forall|j: int| 0 <= j < i ==> a@[j] == b@[j],
        decreases a.len() - i,
    {
        if a[i] != b[i] {
            return false;
        }
        i = i + 1;
    }
    assert(a@ =~= b@);
    true
}

impl Qualifier {
    /// The qualifier named `value`: `analysis`, `gloss` or `lemma`.
    pub fn try_from(value: &Vec<char>) -> (res: Option<Qualifier>)
        ensures
            res == qualifier_of(value@),
    {
        let analysis = ['a', 'n', 'a', 'l', 'y', 's', 'i', 's'];
        let gloss = ['g', 'l', 'o', 's', 's'];
        let lemma = ['l', 'e', 'm', 'm', 'a'];
        assert(analysis@ == analysis_word());
        assert(gloss@ == gloss_word());
        assert(lemma@ == lemma_word());
        if seq_eq(value, &analysis) {
            Some(Qualifier::Analysis)
        } else if seq_eq(value, &gloss) {
            Some(Qualifier::Gloss)
        } else if seq_eq(value, &lemma) {
            Some(Qualifier::Lemma)
        } else {
            None
        }
    }

    /// The name of the qualifier as written in queries.
    pub fn name(&self) -> (s: &'static str)
        ensures
            s@ == match self {
                Qualifier::Analysis => analysis_word(),
                Qualifier::Gloss => gloss_word(),
                Qualifier::Lemma => lemma_word(),
            },
    {
        match self {
            Qualifier::Analysis => {
                proof {
                    reveal_strlit("analysis");
                }
                "analysis"
            },
            Qualifier::Gloss => {
                proof {
                    reveal_strlit("gloss");
                }
                "gloss"
            },
            Qualifier::Lemma => {
                proof {
                    reveal_strlit("lemma");
                }
                "lemma"
            },
        }
    }
}

/// A binary operator of the query language.
#[derive(Debug, Clone, Copy, PartialEq, Eq)]
pub enum Operator {
    And,
    Or,
}

/// A single term, bare or qualified.
pub enum Leaf {
    Term { term: Term },
    Qualified { qualifier: Qualifier, term: Term },
}

/// The mathematical value of a [`Leaf`].
pub enum LeafV {
    Term(TermV),
    Qualified(Qualifier, TermV),
}

impl View for Leaf {
    type V = LeafV;

    open spec fn view(&self) -> LeafV {
        match self {
            Leaf::Term { term } => LeafV::Term(term@),
            Leaf::Qualified { qualifier, term } => LeafV::Qualified(*qualifier, term@),
        }
    }
}

/// A parsed query.
pub enum Query {
    Leaf(Leaf),
    Operator { op: Operator, lhs: Box<Query>, rhs: Box<Query> },
}

/// The mathematical value of a [`Query`].
pub enum QueryV {
    Leaf(LeafV),
    Operator(Operator, Box<QueryV>, Box<QueryV>),
}

impl View for Query {
    type V = QueryV;

    open spec fn view(&self) -> QueryV
        decreases self,
    {
        match self {
            Query::Leaf(leaf) => QueryV::Leaf(leaf@),
            Query::Operator { op, lhs, rhs } => QueryV::Operator(
                *op,
                Box::new((**lhs).view()),
                Box::new((**rhs).view()),
            ),
        }
    }
}

} // verus!
