//! Lemmas, definitions, phrases and transcriptions built from dataset entries.

use vstd::prelude::*;

use super::phonetics::{caphipp_to_ipa, caphipp_to_ipa_spec, texts, PhonError};
use super::pos::{part_of_speech_of, PartOfSpeech, PosError, PosErrorV};
use crate::normalized::{
    folded_text, is_case_folded_of, is_non_folded_of, nfc_text, nfkc_text,
    CaseFoldedNfkcNormalizedString, NfcNormalizedString, NonFoldedNfkcNormalizedString,
    SearchableString,
};
use crate::text::{
    chars_eq, chars_of, ends_with, ends_with_exec, extend_from_range, find, find_char,
    lemma_find, map_char, replace_char, slice_to_vec, starts_with, starts_with_exec,
    string_from_chars, trim, trimmed, skip_ws, lemma_skip_ws, trim_end_at, lemma_trim_end_at, is_ws,
};

verus! {

/// A row of the dataset, as read from its TSV file.
pub struct DatasetEntry {
    pub id: u32,
    pub root: Option<String>,
    pub root_ntws: Option<String>,
    pub root_1: char,
    pub lemma: Option<String>,
    pub lemma_search: Option<String>,
    pub lemma_bw: Option<String>,
    pub form: String,
    pub form_bw: String,
    pub caphipp: String,
    pub analysis: String,
    pub gloss: String,
    pub gloss_msa: String,
    pub example_usage: String,
    pub notes: String,
}

/// Why a dataset entry could not be converted.
#[derive(Debug)]
pub enum EntryError {
    /// The CAPHI++ transcription of the entry could not be converted.
    Transcription { id: u32, error: PhonError },
    /// A phrase entry was converted into a definition.
    PhraseAsDefinition,
    /// A non-phrase entry was converted into a phrase.
    NotAPhrase,
}

/// The root of a lemma, or the stem of a non-templatic word, with its dots
/// shown as middle dots.
#[derive(Debug)]
pub enum Root {
    Root(SearchableString),
    NonTemplaticWordStem(SearchableString),
}

pub open spec fn ntws_word() -> Seq<char> {
    seq!['N', 'T', 'W', 'S']
}

/// `.` shown as `·`.
pub open spec fn middle_dots(s: Seq<char>) -> Seq<char> {
    replace_char(s, '.', '\u{b7}')
}

/// `r` is the root that the ROOT field `root` and the ROOT_NTWS field
/// `ntws` give.
pub open spec fn is_root_of(r: Root, root: Seq<char>, ntws: Seq<char>) -> bool {
    if root == ntws_word() {
        r matches Root::NonTemplaticWordStem(s) && is_case_folded_of(s, middle_dots(ntws))
    } else {
        r matches Root::Root(s) && is_case_folded_of(s, middle_dots(root))
    }
}

impl Root {
    pub open spec fn text(&self) -> SearchableString {
        match self {
            Root::Root(s) => *s,
            Root::NonTemplaticWordStem(s) => *s,
        }
    }

    /// The root `root`, or the word stem `root_ntws` where `root` is `NTWS`.
    pub fn new(root: &str, root_ntws: &str) -> (res: Root)
        ensures
            is_root_of(res, root@, root_ntws@),
    {
        let r = chars_of(root);
        let ntws = ['N', 'T', 'W', 'S'];
        assert(ntws@ =~= ntws_word());
        if chars_eq(&r, &ntws) {
            let stem = string_from_chars(&map_char(&chars_of(root_ntws), '.', '\u{b7}'));
            Root::NonTemplaticWordStem(SearchableString::case_folded(stem.as_str()))
        } else {
            let text = string_from_chars(&map_char(&r, '.', '\u{b7}'));
            Root::Root(SearchableString::case_folded(text.as_str()))
        }
    }

    /// The text of the root or stem.
    pub fn as_searchable(&self) -> (s: &SearchableString)
        ensures
            *s == self.text(),
    {
        match self {
            Root::Root(s) => s,
            Root::NonTemplaticWordStem(s) => s,
        }
    }

    /// Two roots are equal when they are of the same kind and their search
    /// forms are equal.
    pub fn eq(&self, other: &Root) -> (r: bool)
        ensures
            r == same_root(*self, *other),
    {
        match (self, other) {
            (Root::Root(a), Root::Root(b)) => a.eq(b),
            (Root::NonTemplaticWordStem(a), Root::NonTemplaticWordStem(b)) => a.eq(b),
            _ => false,
        }
    }
}

/// Two roots are of the same kind and have equal search forms.
pub open spec fn same_root(a: Root, b: Root) -> bool {
    match (a, b) {
        (Root::Root(x), Root::Root(y)) => x.searchable@ == y.searchable@,
        (Root::NonTemplaticWordStem(x), Root::NonTemplaticWordStem(y)) => x.searchable@
            == y.searchable@,
        _ => false,
    }
}

/// The transcriptions of a form.
#[derive(Debug)]
pub struct Transcription {
    pub caphipp: NonFoldedNfkcNormalizedString,
    pub bw: NonFoldedNfkcNormalizedString,
    /// The IPA transcriptions, derived from the CAPHI++ one.
    pub ipa: Vec<NfcNormalizedString>,
}

/// `t` holds the transcriptions of CAPHI++ `caphipp` and Buckwalter `bw`,
/// with `ipas` the IPA derived from `caphipp`.
pub open spec fn is_transcription_of(
    t: Transcription,
    caphipp: Seq<char>,
    bw: Seq<char>,
    ipas: Seq<Seq<char>>,
) -> bool {
    &&& t.caphipp@ == nfkc_text(caphipp)
    &&& t.bw@ == nfkc_text(bw)
    &&& t.ipa@.len() == ipas.len()
    &&& forall|i: int| 0 <= i < ipas.len() ==> (#[trigger] t.ipa@[i])@ == nfc_text(ipas[i])
}

impl Transcription {
    /// The transcriptions of a form; fails where the CAPHI++ one cannot be
    /// converted to IPA.
    pub fn new(caphipp: &str, bw: &str) -> (res: Result<Transcription, PhonError>)
        ensures
            match res {
                Ok(t) => caphipp_to_ipa_spec(caphipp@) matches Ok(ipas) && is_transcription_of(
                    t,
                    caphipp@,
                    bw@,
                    ipas,
                ),
                Err(e) => caphipp_to_ipa_spec(caphipp@) == Err::<Seq<Seq<char>>, _>(e@),
            },
    {
        let ipas = match caphipp_to_ipa(caphipp) {
            Ok(v) => v,
            Err(e) => return Err(e),
        };
        let mut ipa: Vec<NfcNormalizedString> = Vec::new();
        let mut i: usize = 0;
        while i < ipas.len()
            invariant
                i <= ipas.len(),
                ipa@.len() == i,
                forall|j: int| 0 <= j < i ==> (#[trigger] ipa@[j])@ == nfc_text(ipas@[j]@),
            decreases ipas.len() - i,
        {
            let text = string_from_chars(&ipas[i]);
            ipa.push(NfcNormalizedString::new(text.as_str()));
            i = i + 1;
        }
        Ok(Transcription {
            caphipp: NonFoldedNfkcNormalizedString::new(caphipp),
            bw: NonFoldedNfkcNormalizedString::new(bw),
            ipa,
        })
    }
}


pub open spec fn auto_suffix() -> Seq<char> {
    seq!['[', 'a', 'u', 't', 'o', ']']
}

/// The GLOSS field without the `[auto]` marker of generated entries.
pub open spec fn strip_auto(g: Seq<char>) -> Seq<char> {
    if ends_with(g, auto_suffix()) {
        g.subrange(0, g.len() - 6)
    } else {
        g
    }
}

/// The first index at or after `i` holding `;` or `"`, or the length.
pub open spec fn find_sep(s: Seq<char>, i: int) -> int
    decreases s.len() - i,
{
    if i >= s.len() {
        s.len() as int
    } else if i >= 0 && (s[i] == ';' || s[i] == '"') {
        i
    } else {
        find_sep(s, i + 1)
    }
}

pub proof fn lemma_find_sep(s: Seq<char>, i: int)
    requires
        0 <= i <= s.len(),
    ensures
        i <= find_sep(s, i) <= s.len(),
        find_sep(s, i) < s.len() ==> (s[find_sep(s, i)] == ';' || s[find_sep(s, i)] == '"'),
    decreases s.len() - i,
{
    if i < s.len() && !(s[i] == ';' || s[i] == '"') {
        lemma_find_sep(s, i + 1);
    }
}

/// Splits `s[i..]` at semicolons outside double quotes, `tmp` being the
/// gloss begun before `i`.  A semicolon at the very end starts no gloss.
pub open spec fn gloss_scan(s: Seq<char>, i: int, tmp: Seq<char>) -> Seq<Seq<char>>
    decreases s.len() - i,
{
    if i < 0 || i > s.len() {
        seq![tmp]
    } else {
        let j = find_sep(s, i);
        let tmp2 = tmp + s.subrange(i, j);
        if j >= s.len() {
            seq![tmp2]
        } else if s[j] == ';' {
            if j + 1 >= s.len() {
                seq![tmp2]
            } else {
                proof {
                    lemma_find_sep(s, i);
                }
                seq![tmp2] + gloss_scan(s, j + 1, Seq::empty())
            }
        } else {
            proof {
                lemma_find_sep(s, i);
                lemma_find(s, j + 1, '"');
            }
            let k = find(s, j + 1, '"');
            let e = if k < s.len() {
                k + 1
            } else {
                s.len() as int
            };
            gloss_scan(s, e, tmp2 + seq!['"'] + s.subrange(j + 1, e))
        }
    }
}

/// The English glosses that a GLOSS field holds, underscores read as
/// spaces.
pub open spec fn gloss_texts(g: Seq<char>) -> Seq<Seq<char>> {
    gloss_scan(strip_auto(g), 0, Seq::empty()).map_values(|p: Seq<char>| replace_char(p, '_', ' '))
}

/// The MSA glosses of `s[i..]`: the `#`-separated parts, trimmed, without
/// the empty ones.
pub open spec fn msa_from(s: Seq<char>, i: int) -> Seq<Seq<char>>
    decreases s.len() - i,
{
    if i < 0 || i > s.len() {
        Seq::empty()
    } else {
        let k = find(s, i, '#');
        let t = trim(s.subrange(i, k));
        let rest = if k >= s.len() {
            Seq::empty()
        } else {
            proof {
                lemma_find(s, i, '#');
            }
            msa_from(s, k + 1)
        };
        if t.len() > 0 {
            seq![t] + rest
        } else {
            rest
        }
    }
}

/// The texts `ts` joined with `sep` between each two.
pub open spec fn joined(ts: Seq<Seq<char>>, sep: char) -> Seq<char>
    decreases ts.len(),
{
    if ts.len() == 0 {
        Seq::empty()
    } else if ts.len() == 1 {
        ts[0]
    } else {
        ts[0] + seq![sep] + joined(ts.drop_first(), sep)
    }
}

proof fn lemma_gloss_scan_joined(s: Seq<char>, i: int, tmp: Seq<char>)
    requires
        0 <= i <= s.len(),
    ensures
        gloss_scan(s, i, tmp).len() >= 1,
        joined(gloss_scan(s, i, tmp), ';') == tmp + s.subrange(i, s.len() as int) || joined(
            gloss_scan(s, i, tmp),
            ';',
        ) + seq![';'] == tmp + s.subrange(i, s.len() as int),
    decreases s.len() - i,
{
    lemma_find_sep(s, i);
    let j = find_sep(s, i);
    let tmp2 = tmp + s.subrange(i, j);
    if j >= s.len() {
        assert(tmp2 =~= tmp + s.subrange(i, s.len() as int));
    } else if s[j] == ';' {
        if j + 1 >= s.len() {
            assert(tmp2 + seq![';'] =~= tmp + s.subrange(i, s.len() as int));
        } else {
            let rest = gloss_scan(s, j + 1, Seq::empty());
            lemma_gloss_scan_joined(s, j + 1, Seq::empty());
            let r = seq![tmp2] + rest;
            assert(r.drop_first() =~= rest);
            assert(joined(r, ';') == tmp2 + seq![';'] + joined(rest, ';'));
            let tail = s.subrange(j + 1, s.len() as int);
            assert(Seq::<char>::empty() + tail =~= tail);
            assert(tmp + s.subrange(i, s.len() as int) =~= tmp2 + seq![';'] + tail);
            if joined(rest, ';') == tail {
                assert(joined(r, ';') =~= tmp + s.subrange(i, s.len() as int));
            } else {
                assert(joined(rest, ';') + seq![';'] == tail);
                assert(joined(r, ';') + seq![';'] =~= tmp2 + seq![';'] + (joined(rest, ';') + seq![';']));
                assert(joined(r, ';') + seq![';'] =~= tmp + s.subrange(i, s.len() as int));
            }
        }
    } else {
        lemma_find(s, j + 1, '"');
        let k = find(s, j + 1, '"');
        let e = if k < s.len() {
            k + 1
        } else {
            s.len() as int
        };
        let tmp3 = tmp2 + seq!['"'] + s.subrange(j + 1, e);
        lemma_gloss_scan_joined(s, e, tmp3);
        assert(tmp3 + s.subrange(e, s.len() as int) =~= tmp + s.subrange(i, s.len() as int));
    }
}

/// Splitting a GLOSS field at its semicolons loses nothing: the pieces,
/// joined with `;`, give back the field without its `[auto]` marker, but for
/// a semicolon that ended it.
pub proof fn lemma_gloss_pieces_rejoin(g: Seq<char>)
    ensures
        joined(gloss_scan(strip_auto(g), 0, Seq::empty()), ';') == strip_auto(g) || joined(
            gloss_scan(strip_auto(g), 0, Seq::empty()),
            ';',
        ) + seq![';'] == strip_auto(g),
{
    let s = strip_auto(g);
    if ends_with(g, auto_suffix()) {
        assert(s.len() <= g.len());
    }
    lemma_gloss_scan_joined(s, 0, Seq::empty());
    assert(Seq::<char>::empty() + s.subrange(0, s.len() as int) =~= s);
}

proof fn lemma_msa_from(s: Seq<char>, i: int)
    requires
        0 <= i <= s.len(),
    ensures
        forall|k: int|
            0 <= k < msa_from(s, i).len() ==> {
                let t = #[trigger] msa_from(s, i)[k];
                &&& t.len() > 0
                &&& !t.contains('#')
                &&& !is_ws(t[0])
                &&& !is_ws(t.last())
            },
    decreases s.len() - i,
{
    lemma_find(s, i, '#');
    let k = find(s, i, '#');
    let x = s.subrange(i, k);
    let a = skip_ws(x, 0);
    lemma_skip_ws(x, 0);
    lemma_trim_end_at(x, a, x.len() as int);
    let b = trim_end_at(x, a, x.len() as int);
    let t = trim(x);
    assert(t == x.subrange(a, b));
    if t.len() > 0 {
        assert(t[0] == x[a]);
        assert(t.last() == x[b - 1]);
        assert forall|m: int| 0 <= m < t.len() implies t[m] != '#' by {
            assert(t[m] == x[a + m]);
            assert(x[a + m] == s[i + a + m]);
        }
    }
    if k < s.len() {
        lemma_msa_from(s, k + 1);
    }
    let rest = if k >= s.len() {
        Seq::<Seq<char>>::empty()
    } else {
        msa_from(s, k + 1)
    };
    assert forall|m: int| 0 <= m < msa_from(s, i).len() implies {
        let u = #[trigger] msa_from(s, i)[m];
        &&& u.len() > 0
        &&& !u.contains('#')
        &&& !is_ws(u[0])
        &&& !is_ws(u.last())
    } by {
        if t.len() > 0 {
            if m == 0 {
                assert(msa_from(s, i)[0] == t);
                if t.contains('#') {
                    let w = choose|w: int| 0 <= w < t.len() && t[w] == '#';
                    assert(t[w] != '#');
                }
            } else {
                assert(msa_from(s, i)[m] == rest[m - 1]);
            }
        } else {
            assert(msa_from(s, i)[m] == rest[m]);
        }
    }
}

/// Each MSA gloss is a non-empty stretch of the field without `#`, and
/// begins and ends with a character that is not whitespace.
pub proof fn lemma_msa_glosses(s: Seq<char>)
    ensures
        forall|k: int|
            0 <= k < msa_from(s, 0).len() ==> {
                let t = #[trigger] msa_from(s, 0)[k];
                &&& t.len() > 0
                &&& !t.contains('#')
                &&& !is_ws(t[0])
                &&& !is_ws(t.last())
            },
{
    lemma_msa_from(s, 0);
}

/// `v` holds the texts `t` as case-folded searchable strings.
pub open spec fn folded_all(v: Seq<SearchableString>, t: Seq<Seq<char>>) -> bool {
    &&& v.len() == t.len()
    &&& forall|i: int| 0 <= i < t.len() ==> is_case_folded_of(#[trigger] v[i], t[i])
}

/// `v` holds the texts `t` as searchable strings whose case matters.
pub open spec fn non_folded_all(v: Seq<SearchableString>, t: Seq<Seq<char>>) -> bool {
    &&& v.len() == t.len()
    &&& forall|i: int| 0 <= i < t.len() ==> is_non_folded_of(#[trigger] v[i], t[i])
}

fn find_sep_exec(s: &Vec<char>, i: usize) -> (r: usize)
    requires
        i <= s.len(),
    ensures
        r == find_sep(s@, i as int),
{
    let mut j = i;
    while j < s.len() && !(s[j] == ';' || s[j] == '"')
        invariant
            i <= j <= s.len(),
            find_sep(s@, i as int) == find_sep(s@, j as int),
        decreases s.len() - j,
    {
        j = j + 1;
    }
    j
}

fn folded_gloss(tmp: &Vec<char>) -> (r: SearchableString)
    ensures
        is_case_folded_of(r, replace_char(tmp@, '_', ' ')),
{
    let text = string_from_chars(&map_char(tmp, '_', ' '));
    SearchableString::case_folded(text.as_str())
}

/// The English glosses of a GLOSS field: `;`-separated, where quoted text
/// may hold semicolons, without the `[auto]` marker.
pub fn parse_glosses(gloss: &str) -> (res: Vec<SearchableString>)
    ensures
        folded_all(res@, gloss_texts(gloss@)),
{
    let g = chars_of(gloss);
    let auto = ['[', 'a', 'u', 't', 'o', ']'];
    assert(auto@ =~= auto_suffix());
    let s = if ends_with_exec(&g, &auto) {
        slice_to_vec(&g, 0, g.len() - 6)
    } else {
        g
    };
    assert(s@ == strip_auto(gloss@));
    let mut out: Vec<SearchableString> = Vec::new();
    let ghost mut pieces: Seq<Seq<char>> = Seq::empty();
    let mut tmp: Vec<char> = Vec::new();
    let mut i: usize = 0;
    loop
        invariant
            i <= s.len(),
            s@ == strip_auto(gloss@),
            gloss_scan(s@, 0, Seq::empty()) == pieces + gloss_scan(s@, i as int, tmp@),
            out@.len() == pieces.len(),
            forall|k: int|
                0 <= k < pieces.len() ==> is_case_folded_of(
                    #[trigger] out@[k],
                    replace_char(pieces[k], '_', ' '),
                ),
        decreases s.len() - i,
    {
        proof {
            lemma_find_sep(s@, i as int);
        }
        let j = find_sep_exec(&s, i);
        let ghost tmp0 = tmp@;
        extend_from_range(&mut tmp, &s, i, j);
        if j >= s.len() || s[j] == ';' {
            out.push(folded_gloss(&tmp));
            let ghost before = pieces;
            proof {
                pieces = pieces.push(tmp@);
            }
            if j >= s.len() || j == s.len() - 1 {
                assert(gloss_scan(s@, i as int, tmp0) == seq![tmp@]);
                assert(before + seq![tmp@] == pieces);
                assert(gloss_texts(gloss@) =~= pieces.map_values(
                    |p: Seq<char>| replace_char(p, '_', ' '),
                ));
                return out;
            }
            assert(gloss_scan(s@, i as int, tmp0) == seq![tmp@] + gloss_scan(
                s@,
                j + 1,
                Seq::empty(),
            ));
            assert(before + (seq![tmp@] + gloss_scan(s@, j + 1, Seq::empty())) == pieces
                + gloss_scan(s@, j + 1, Seq::empty()));
            tmp = Vec::new();
            assert(tmp@ =~= Seq::<char>::empty());
            i = j + 1;
        } else {
            proof {
                lemma_find(s@, j + 1, '"');
            }
            let k = find_char(&s, j + 1, '"');
            let e = if k < s.len() {
                k + 1
            } else {
                s.len()
            };
            tmp.push('"');
            extend_from_range(&mut tmp, &s, j + 1, e);
            assert(gloss_scan(s@, i as int, tmp0) == gloss_scan(s@, e as int, tmp@)) by {
                assert(tmp@ =~= tmp0 + s@.subrange(i as int, j as int) + seq!['"']
                    + s@.subrange(j + 1, e as int));
            }
            i = e;
        }
    }
}

/// The MSA glosses of a GLOSS_MSA field: `#`-separated, trimmed, empty
/// parts dropped.
pub fn parse_msa_glosses(gloss_msa: &str) -> (res: Vec<SearchableString>)
    ensures
        non_folded_all(res@, msa_from(gloss_msa@, 0)),
{
    let s = chars_of(gloss_msa);
    let mut out: Vec<SearchableString> = Vec::new();
    let ghost mut done: Seq<Seq<char>> = Seq::empty();
    let mut i: usize = 0;
    loop
        invariant
            i <= s.len(),
            s@ == gloss_msa@,
            msa_from(s@, 0) == done + msa_from(s@, i as int),
            non_folded_all(out@, done),
        decreases s.len() - i,
    {
        proof {
            lemma_find(s@, i as int, '#');
        }
        let k = find_char(&s, i, '#');
        let piece = string_from_chars(&slice_to_vec(&s, i, k));
        let t = trimmed(piece.as_str());
        if !t.as_str().is_empty() {
            out.push(SearchableString::non_folded(t.as_str()));
            proof {
                done = done.push(t@);
            }
        }
        if k >= s.len() {
            assert(msa_from(s@, 0) =~= done);
            return out;
        }
        i = k + 1;
    }
}


pub open spec fn noun_word() -> Seq<char> {
    seq!['N', 'O', 'U', 'N']
}

pub open spec fn verb_word() -> Seq<char> {
    seq!['V', 'E', 'R', 'B']
}

pub open spec fn phrase_suffix() -> Seq<char> {
    seq![':', 'P', 'H', 'R', 'A', 'S', 'E']
}

/// An ANALYSIS field marks a phrase.
pub open spec fn is_phrase_analysis(a: Seq<char>) -> bool {
    ends_with(a, phrase_suffix())
}

/// The part of speech of an ANALYSIS field: only nouns and verbs are parsed
/// so far; anything else has none.
pub open spec fn pos_result(a: Seq<char>) -> Result<Option<PartOfSpeech>, PosErrorV> {
    if !(starts_with(a, noun_word()) || starts_with(a, verb_word())) {
        Ok(None)
    } else {
        match part_of_speech_of(a) {
            Ok(p) => Ok(Some(p)),
            Err(e) => Err(e),
        }
    }
}

/// The part of speech kept for an ANALYSIS field: none where it could not
/// be parsed.
pub open spec fn pos_kept(a: Seq<char>) -> Option<PartOfSpeech> {
    match pos_result(a) {
        Ok(p) => p,
        Err(_) => None,
    }
}

/// The parse failure to report for an ANALYSIS field, if any.
pub open spec fn pos_failure(a: Seq<char>, f: Option<PosError>) -> bool {
    match pos_result(a) {
        Ok(_) => f is None,
        Err(e) => f matches Some(x) && x@ == e,
    }
}

fn analysis_is_phrase(analysis: &str) -> (r: bool)
    ensures
        r == is_phrase_analysis(analysis@),
{
    let lit = [':', 'P', 'H', 'R', 'A', 'S', 'E'];
    assert(lit@ =~= phrase_suffix());
    ends_with_exec(&chars_of(analysis), &lit)
}

/// A definition of a lemma.
#[derive(Debug)]
pub struct Definition {
    pub id: u32,
    pub form: SearchableString,
    pub transcription: Transcription,
    pub analysis: CaseFoldedNfkcNormalizedString,
    /// The parsed form of the analysis.
    pub pos: Option<PartOfSpeech>,
    pub glosses_english: Vec<SearchableString>,
    pub glosses_msa: Vec<SearchableString>,
    pub example_usage: NfcNormalizedString,
    pub notes: NfcNormalizedString,
}

/// A phrase that uses a lemma.
#[derive(Debug)]
pub struct Phrase {
    pub id: u32,
    pub form: SearchableString,
    pub transcription: Transcription,
    pub glosses_english: Vec<SearchableString>,
    pub glosses_msa: Vec<SearchableString>,
    pub example_usage: NfcNormalizedString,
    pub notes: NfcNormalizedString,
}

/// The IPA transcriptions of the entry; none where it cannot be converted.
pub open spec fn entry_ipas(e: DatasetEntry) -> Seq<Seq<char>> {
    match caphipp_to_ipa_spec(e.caphipp@) {
        Ok(v) => v,
        Err(_) => Seq::empty(),
    }
}

/// `d` is the definition that the entry `e` gives.
pub open spec fn is_definition_of(d: Definition, e: DatasetEntry) -> bool {
    &&& d.id == e.id
    &&& is_case_folded_of(d.form, e.form@)
    &&& is_transcription_of(d.transcription, e.caphipp@, e.form_bw@, entry_ipas(e))
    &&& d.analysis@ == folded_text(e.analysis@)
    &&& d.pos == pos_kept(e.analysis@)
    &&& folded_all(d.glosses_english@, gloss_texts(e.gloss@))
    &&& non_folded_all(d.glosses_msa@, msa_from(e.gloss_msa@, 0))
    &&& d.example_usage@ == nfc_text(e.example_usage@)
    &&& d.notes@ == nfc_text(e.notes@)
}

/// `p` is the phrase that the entry `e` gives.
pub open spec fn is_phrase_of(p: Phrase, e: DatasetEntry) -> bool {
    &&& p.id == e.id
    &&& is_case_folded_of(p.form, e.form@)
    &&& is_transcription_of(p.transcription, e.caphipp@, e.form_bw@, entry_ipas(e))
    &&& folded_all(p.glosses_english@, gloss_texts(e.gloss@))
    &&& non_folded_all(p.glosses_msa@, msa_from(e.gloss_msa@, 0))
    &&& p.example_usage@ == nfc_text(e.example_usage@)
    &&& p.notes@ == nfc_text(e.notes@)
}

/// The error that converting the entry gives, where its transcription
/// cannot be converted.
pub open spec fn transcription_failure(e: DatasetEntry, err: EntryError) -> bool {
    caphipp_to_ipa_spec(e.caphipp@) matches Err(pe) && err matches EntryError::Transcription {
        id,
        error,
    } && id == e.id && error@ == pe
}

impl Definition {
    /// The part of speech of an analysis: `None` unless it starts with
    /// `NOUN` or `VERB`.
    pub fn parse_pos(analysis: &str) -> (res: Result<Option<PartOfSpeech>, PosError>)
        ensures
            match res {
                Ok(p) => pos_result(analysis@) == Ok::<Option<PartOfSpeech>, PosErrorV>(p),
                Err(e) => pos_result(analysis@) == Err::<Option<PartOfSpeech>, PosErrorV>(e@),
            },
    {
        let a = chars_of(analysis);
        let noun = ['N', 'O', 'U', 'N'];
        let verb = ['V', 'E', 'R', 'B'];
        assert(noun@ =~= noun_word());
        assert(verb@ =~= verb_word());
        if !(starts_with_exec(&a, &noun) || starts_with_exec(&a, &verb)) {
            return Ok(None);
        }
        match PartOfSpeech::from_str(&a) {
            Ok(p) => Ok(Some(p)),
            Err(e) => Err(e),
        }
    }

    /// The definition that a non-phrase entry gives, and the failure to
    /// parse its part of speech if there was one.
    pub fn try_from(entry: DatasetEntry) -> (res: Result<(Definition, Option<PosError>), EntryError>)
        ensures
            is_phrase_analysis(entry.analysis@) ==> (res matches Err(e)
                && e is PhraseAsDefinition),
            !is_phrase_analysis(entry.analysis@) ==> match res {
                Ok((d, f)) => caphipp_to_ipa_spec(entry.caphipp@) is Ok && is_definition_of(
                    d,
                    entry,
                ) && pos_failure(entry.analysis@, f),
                Err(e) => transcription_failure(entry, e),
            },
    {
        if analysis_is_phrase(entry.analysis.as_str()) {
            return Err(EntryError::PhraseAsDefinition);
        }
        let glosses_english = parse_glosses(entry.gloss.as_str());
        let glosses_msa = parse_msa_glosses(entry.gloss_msa.as_str());
        let (pos, failure) = match Definition::parse_pos(entry.analysis.as_str()) {
            Ok(p) => (p, None),
            Err(e) => (None, Some(e)),
        };
        let transcription = match Transcription::new(
            entry.caphipp.as_str(),
            entry.form_bw.as_str(),
        ) {
            Ok(t) => t,
            Err(error) => return Err(EntryError::Transcription { id: entry.id, error }),
        };
        let d = Definition {
            id: entry.id,
            form: SearchableString::case_folded(entry.form.as_str()),
            transcription,
            analysis: CaseFoldedNfkcNormalizedString::new(entry.analysis.as_str()),
            pos,
            glosses_english,
            glosses_msa,
            example_usage: NfcNormalizedString::new(entry.example_usage.as_str()),
            notes: NfcNormalizedString::new(entry.notes.as_str()),
        };
        Ok((d, failure))
    }
}

impl Phrase {
    /// The phrase that a phrase entry gives.
    pub fn try_from(entry: DatasetEntry) -> (res: Result<Phrase, EntryError>)
        ensures
            !is_phrase_analysis(entry.analysis@) ==> (res matches Err(e) && e is NotAPhrase),
            is_phrase_analysis(entry.analysis@) ==> match res {
                Ok(p) => caphipp_to_ipa_spec(entry.caphipp@) is Ok && is_phrase_of(p, entry),
                Err(e) => transcription_failure(entry, e),
            },
    {
        if !analysis_is_phrase(entry.analysis.as_str()) {
            return Err(EntryError::NotAPhrase);
        }
        let glosses_english = parse_glosses(entry.gloss.as_str());
        let glosses_msa = parse_msa_glosses(entry.gloss_msa.as_str());
        let transcription = match Transcription::new(
            entry.caphipp.as_str(),
            entry.form_bw.as_str(),
        ) {
            Ok(t) => t,
            Err(error) => return Err(EntryError::Transcription { id: entry.id, error }),
        };
        Ok(Phrase {
            id: entry.id,
            form: SearchableString::case_folded(entry.form.as_str()),
            transcription,
            glosses_english,
            glosses_msa,
            example_usage: NfcNormalizedString::new(entry.example_usage.as_str()),
            notes: NfcNormalizedString::new(entry.notes.as_str()),
        })
    }
}


/// Entries that share a root, a lemma and a part of speech.
#[derive(Debug)]
pub struct Lemma {
    /// The lowest id among the definitions and phrases.
    pub lowest_id: u32,
    pub root: Root,
    pub root_1: char,
    pub lemma: SearchableString,
    pub lemma_search: SearchableString,
    pub lemma_bw: SearchableString,
    pub definitions: Vec<Definition>,
    pub phrases: Vec<Phrase>,
}

/// The ROOT_NTWS field, empty where missing.
pub open spec fn ntws_text(e: DatasetEntry) -> Seq<char> {
    match e.root_ntws {
        Some(s) => s@,
        None => Seq::empty(),
    }
}

/// The fields that a lemma needs are present.
pub open spec fn has_lemma_fields(e: DatasetEntry) -> bool {
    &&& e.root is Some
    &&& e.lemma is Some
    &&& e.lemma_search is Some
    &&& e.lemma_bw is Some
}

/// `l` is the lemma that the entry `e` alone gives.
pub open spec fn is_lemma_of(l: Lemma, e: DatasetEntry) -> bool {
    &&& l.lowest_id == e.id
    &&& is_root_of(l.root, e.root->0@, ntws_text(e))
    &&& l.root_1 == e.root_1
    &&& is_case_folded_of(l.lemma, e.lemma->0@)
    &&& is_case_folded_of(l.lemma_search, e.lemma_search->0@)
    &&& is_non_folded_of(l.lemma_bw, e.lemma_bw->0@)
    &&& if is_phrase_analysis(e.analysis@) {
        &&& l.definitions@.len() == 0
        &&& l.phrases@.len() == 1
        &&& is_phrase_of(l.phrases@[0], e)
    } else {
        &&& l.phrases@.len() == 0
        &&& l.definitions@.len() == 1
        &&& is_definition_of(l.definitions@[0], e)
    }
}

/// Which field two lemmas that were to be merged disagree on.
#[derive(Debug, Clone, Copy, PartialEq, Eq)]
pub enum MergeError {
    Root,
    Root1,
    Lemma,
    LemmaSearch,
    LemmaBw,
}

/// The first field on which `a` and `b` disagree, if any.
pub open spec fn merge_conflict(a: Lemma, b: Lemma) -> Option<MergeError> {
    if !same_root(a.root, b.root) {
        Some(MergeError::Root)
    } else if a.root_1 != b.root_1 {
        Some(MergeError::Root1)
    } else if a.lemma.searchable@ != b.lemma.searchable@ {
        Some(MergeError::Lemma)
    } else if a.lemma_search.searchable@ != b.lemma_search.searchable@ {
        Some(MergeError::LemmaSearch)
    } else if a.lemma_bw.searchable@ != b.lemma_bw.searchable@ {
        Some(MergeError::LemmaBw)
    } else {
        None
    }
}

/// Two lemmas merge exactly when their roots are of the same kind with the
/// same text and they agree on the first radical and on the lemma, search
/// and Buckwalter forms; so whether they merge does not depend on which is
/// merged into which.
pub proof fn lemma_merge_agreement(a: Lemma, b: Lemma)
    ensures
        merge_conflict(a, b) is None <==> {
            &&& (a.root is Root) == (b.root is Root)
            &&& a.root.text().searchable@ == b.root.text().searchable@
            &&& a.root_1 == b.root_1
            &&& a.lemma.searchable@ == b.lemma.searchable@
            &&& a.lemma_search.searchable@ == b.lemma_search.searchable@
            &&& a.lemma_bw.searchable@ == b.lemma_bw.searchable@
        },
        merge_conflict(a, b) is None <==> merge_conflict(b, a) is None,
{
}

/// The ids of the definitions and then of the phrases.
pub open spec fn entry_ids(defs: Seq<Definition>, phrases: Seq<Phrase>) -> Seq<u32> {
    defs.map_values(|d: Definition| d.id) + phrases.map_values(|p: Phrase| p.id)
}

/// `m` is the least of `ids`.
pub open spec fn is_min_of(m: u32, ids: Seq<u32>) -> bool {
    &&& ids.contains(m)
    &&& forall|i: int| 0 <= i < ids.len() ==> m <= #[trigger] ids[i]
}

impl Lemma {
    /// The lemma that a single entry gives, and the failure to parse its part
    /// of speech if there was one.
    pub fn try_from(entry: DatasetEntry) -> (res: Result<(Lemma, Option<PosError>), EntryError>)
        requires
            has_lemma_fields(entry),
        ensures
            match res {
                Ok((l, f)) => {
                    &&& caphipp_to_ipa_spec(entry.caphipp@) is Ok
                    &&& is_lemma_of(l, entry)
                    &&& (!is_phrase_analysis(entry.analysis@) ==> pos_failure(
                        entry.analysis@,
                        f,
                    ))
                    &&& (is_phrase_analysis(entry.analysis@) ==> f is None)
                },
                Err(e) => transcription_failure(entry, e),
            },
    {
        let empty = String::new();
        let root_ntws = match &entry.root_ntws {
            Some(s) => s.as_str(),
            None => empty.as_str(),
        };
        let root = match &entry.root {
            Some(s) => Root::new(s.as_str(), root_ntws),
            None => {
                assert(false);
                Root::new(empty.as_str(), empty.as_str())
            },
        };
        let lemma = match &entry.lemma {
            Some(s) => SearchableString::case_folded(s.as_str()),
            None => {
                assert(false);
                SearchableString::case_folded(empty.as_str())
            },
        };
        let lemma_search = match &entry.lemma_search {
            Some(s) => SearchableString::case_folded(s.as_str()),
            None => {
                assert(false);
                SearchableString::case_folded(empty.as_str())
            },
        };
        let lemma_bw = match &entry.lemma_bw {
            Some(s) => SearchableString::non_folded(s.as_str()),
            None => {
                assert(false);
                SearchableString::non_folded(empty.as_str())
            },
        };
        let id = entry.id;
        let root_1 = entry.root_1;
        let ghost e = entry;
        let mut definitions: Vec<Definition> = Vec::new();
        let mut phrases: Vec<Phrase> = Vec::new();
        let mut failure: Option<PosError> = None;
        if analysis_is_phrase(entry.analysis.as_str()) {
            match Phrase::try_from(entry) {
                Ok(p) => phrases.push(p),
                Err(err) => return Err(err),
            }
        } else {
            match Definition::try_from(entry) {
                Ok((d, f)) => {
                    definitions.push(d);
                    failure = f;
                },
                Err(err) => return Err(err),
            }
        }
        let l = Lemma {
            lowest_id: id,
            root,
            root_1,
            lemma,
            lemma_search,
            lemma_bw,
            definitions,
            phrases,
        };
        Ok((l, failure))
    }

    /// Merges a lemma into this one: the definitions and phrases of `lemma`
    /// are appended, and the lowest id is recomputed.  Fails, changing
    /// nothing, when the two disagree on the root, the first radical or the
    /// lemma forms.  Two agreeing lemmas with no entries between them have
    /// no lowest id, so they are left out.
    pub fn merge(&mut self, lemma: Lemma) -> (res: Result<(), MergeError>)
        requires
            merge_conflict(*old(self), lemma) is None ==> old(self).definitions.len()
                + old(self).phrases.len() + lemma.definitions.len() + lemma.phrases.len() > 0,
        ensures
            match merge_conflict(*old(self), lemma) {
                Some(e) => res == Err::<(), MergeError>(e) && *final(self) == *old(self),
                None => {
                    &&& res is Ok
                    &&& final(self).definitions@ == old(self).definitions@ + lemma.definitions@
                    &&& final(self).phrases@ == old(self).phrases@ + lemma.phrases@
                    &&& is_min_of(
                        final(self).lowest_id,
                        entry_ids(final(self).definitions@, final(self).phrases@),
                    )
                    &&& final(self).root == old(self).root
                    &&& final(self).root_1 == old(self).root_1
                    &&& final(self).lemma == old(self).lemma
                    &&& final(self).lemma_search == old(self).lemma_search
                    &&& final(self).lemma_bw == old(self).lemma_bw
                },
            },
    {
        if !self.root.eq(&lemma.root) {
            return Err(MergeError::Root);
        }
        if self.root_1 != lemma.root_1 {
            return Err(MergeError::Root1);
        }
        if !self.lemma.eq(&lemma.lemma) {
            return Err(MergeError::Lemma);
        }
        if !self.lemma_search.eq(&lemma.lemma_search) {
            return Err(MergeError::LemmaSearch);
        }
        if !self.lemma_bw.eq(&lemma.lemma_bw) {
            return Err(MergeError::LemmaBw);
        }
        let mut other = lemma;
        self.definitions.append(&mut other.definitions);
        self.phrases.append(&mut other.phrases);
        self.lowest_id = lowest_entry_id(&self.definitions, &self.phrases);
        Ok(())
    }
}

/// The lowest id among the definitions and phrases.
pub fn lowest_entry_id(defs: &Vec<Definition>, phrases: &Vec<Phrase>) -> (m: u32)
    requires
        defs.len() + phrases.len() > 0,
    ensures
        is_min_of(m, entry_ids(defs@, phrases@)),
{
    let ghost ids = entry_ids(defs@, phrases@);
    let mut m: u32 = if defs.len() > 0 {
        defs[0].id
    } else {
        phrases[0].id
    };
    assert(ids[0] == m);
    let mut i: usize = 0;
    while i < defs.len()
        invariant
            i <= defs.len(),
            ids == entry_ids(defs@, phrases@),
            ids.len() == defs.len() + phrases.len(),
            ids.contains(m),
            forall|j: int| 0 <= j < i ==> m <= #[trigger] ids[j],
        decreases defs.len() - i,
    {
        assert(ids[i as int] == defs@[i as int].id);
        if defs[i].id < m {
            m = defs[i].id;
        }
        i = i + 1;
    }
    let mut k: usize = 0;
    while k < phrases.len()
        invariant
            k <= phrases.len(),
            ids == entry_ids(defs@, phrases@),
            ids.len() == defs.len() + phrases.len(),
            ids.contains(m),
            forall|j: int| 0 <= j < defs.len() + k ==> m <= #[trigger] ids[j],
        decreases phrases.len() - k,
    {
        assert(ids[defs.len() + k] == phrases@[k as int].id);
        if phrases[k].id < m {
            m = phrases[k].id;
        }
        k = k + 1;
    }
    m
}

} // verus!
