//! Normalized string types: NFC for display, NFKC (optionally case-folded)
//! for search.

use vstd::prelude::*;

use caseless::Caseless;
use unicode_normalization::UnicodeNormalization;

use crate::text::{trim, trimmed};

verus! {

/// What `unicode_normalization` gives for the NFC form of a character
/// sequence.
pub uninterp spec fn nfc_of(s: Seq<char>) -> Seq<char>;

/// What `unicode_normalization` gives for the NFKC form of a character
/// sequence.
pub uninterp spec fn nfkc_of(s: Seq<char>) -> Seq<char>;

/// What `caseless` gives for the default case folding of a character
/// sequence.
pub uninterp spec fn case_fold_of(s: Seq<char>) -> Seq<char>;

/// Calls `UnicodeNormalization::nfc` of `unicode_normalization` on the
/// characters of `s` and collects them.  Claimed: the result is `nfc_of` of
/// the input, and the empty input gives the empty output (the iterator
/// yields nothing when its source yields nothing).
#[verifier::external_body]
fn nfc(s: &str) -> (res: String)
    ensures
        res@ == nfc_of(s@),
        s@.len() == 0 ==> res@.len() == 0,
{
    s.nfc().collect()
}

/// Calls `UnicodeNormalization::nfkc` of `unicode_normalization` on the
/// characters of `s` and collects them.  Claimed: the result is `nfkc_of` of
/// the input, and the empty input gives the empty output.
#[verifier::external_body]
fn nfkc(s: &str) -> (res: String)
    ensures
        res@ == nfkc_of(s@),
        s@.len() == 0 ==> res@.len() == 0,
{
    s.nfkc().collect()
}

/// Calls `Caseless::default_case_fold` of `caseless` on the characters of
/// `s` and collects them.  Claimed: the result is `case_fold_of` of the
/// input, and the empty input gives the empty output (`CaseFold::next`
/// yields only what its source yields, one to three characters each).
#[verifier::external_body]
fn default_case_fold(s: &str) -> (res: String)
    ensures
        res@ == case_fold_of(s@),
        s@.len() == 0 ==> res@.len() == 0,
{
    s.chars().default_case_fold().collect()
}

/// The stored form of NFC-normalized text.
pub open spec fn nfc_text(s: Seq<char>) -> Seq<char> {
    trim(nfc_of(s))
}

/// The stored form of NFKC-normalized text.
pub open spec fn nfkc_text(s: Seq<char>) -> Seq<char> {
    trim(nfkc_of(s))
}

/// The stored form of case-folded, NFKC-normalized text.
pub open spec fn folded_text(s: Seq<char>) -> Seq<char> {
    trim(nfkc_of(case_fold_of(s)))
}

/// NFC normalized text, trimmed.
///
/// Every string that is shown to the user is built on this type.  NFC
/// normalization is for rendering only: it does not make semantically equal
/// text compare equal.
#[derive(Clone, Debug)]
pub struct NfcNormalizedString(String);

impl View for NfcNormalizedString {
    type V = Seq<char>;

    closed spec fn view(&self) -> Seq<char> {
        self.0@
    }
}

impl NfcNormalizedString {
    /// Normalizes `string` to NFC and trims it.
    pub fn new(string: &str) -> (res: Self)
        ensures
            res@ == nfc_text(string@),
            string@.len() == 0 ==> res@.len() == 0,
    {
        let n = nfc(string);
        NfcNormalizedString(trimmed(n.as_str()))
    }

    pub fn as_str(&self) -> (s: &str)
        ensures
            s@ == self@,
    {
        self.0.as_str()
    }
}

/// NFKC normalized text without case folding, trimmed.
///
/// For fields where case carries meaning, such as the Buckwalter
/// transliteration.  NFKC is for search only: it can change how text renders.
#[derive(Clone, Debug)]
pub struct NonFoldedNfkcNormalizedString(String);

impl View for NonFoldedNfkcNormalizedString {
    type V = Seq<char>;

    closed spec fn view(&self) -> Seq<char> {
        self.0@
    }
}

impl NonFoldedNfkcNormalizedString {
    /// Normalizes `string` to NFKC and trims it.
    pub fn new(string: &str) -> (res: Self)
        ensures
            res@ == nfkc_text(string@),
            string@.len() == 0 ==> res@.len() == 0,
    {
        let n = nfkc(string);
        NonFoldedNfkcNormalizedString(trimmed(n.as_str()))
    }

    pub fn as_str(&self) -> (s: &str)
        ensures
            s@ == self@,
    {
        self.0.as_str()
    }
}

/// Case-folded NFKC normalized text, trimmed: for case-insensitive search.
#[derive(Clone, Debug)]
pub struct CaseFoldedNfkcNormalizedString(String);

impl View for CaseFoldedNfkcNormalizedString {
    type V = Seq<char>;

    closed spec fn view(&self) -> Seq<char> {
        self.0@
    }
}

impl CaseFoldedNfkcNormalizedString {
    /// Case-folds `string`, normalizes it to NFKC and trims it.
    pub fn new(string: &str) -> (res: Self)
        ensures
            res@ == folded_text(string@),
            string@.len() == 0 ==> res@.len() == 0,
    {
        let f = default_case_fold(string);
        let n = nfkc(f.as_str());
        CaseFoldedNfkcNormalizedString(trimmed(n.as_str()))
    }

    pub fn as_str(&self) -> (s: &str)
        ensures
            s@ == self@,
    {
        self.0.as_str()
    }
}

/// Searchable text, case-folded or not.
#[derive(Clone, Debug)]
pub enum NfkcNormalizedString {
    NonFolded(NonFoldedNfkcNormalizedString),
    CaseFolded(CaseFoldedNfkcNormalizedString),
}

impl View for NfkcNormalizedString {
    type V = Seq<char>;

    open spec fn view(&self) -> Seq<char> {
        match self {
            NfkcNormalizedString::NonFolded(s) => s@,
            NfkcNormalizedString::CaseFolded(s) => s@,
        }
    }
}

impl NfkcNormalizedString {
    pub fn as_str(&self) -> (s: &str)
        ensures
            s@ == self@,
    {
        match self {
            NfkcNormalizedString::NonFolded(inner) => inner.as_str(),
            NfkcNormalizedString::CaseFolded(inner) => inner.as_str(),
        }
    }
}

/// Text with a form for display and a form for search.  Everything but
/// display goes through `searchable`.
#[derive(Clone, Debug)]
pub struct SearchableString {
    pub displayable: NfcNormalizedString,
    pub searchable: NfkcNormalizedString,
}

impl SearchableString {
    /// Searchable text whose case matters.
    pub fn non_folded(string: &str) -> (res: Self)
        ensures
            res.displayable@ == nfc_text(string@),
            res.searchable matches NfkcNormalizedString::NonFolded(s) && s@ == nfkc_text(
                string@,
            ),
    {
        SearchableString {
            displayable: NfcNormalizedString::new(string),
            searchable: NfkcNormalizedString::NonFolded(NonFoldedNfkcNormalizedString::new(string)),
        }
    }

    /// Searchable text compared without case.
    pub fn case_folded(string: &str) -> (res: Self)
        ensures
            res.displayable@ == nfc_text(string@),
            res.searchable matches NfkcNormalizedString::CaseFolded(s) && s@ == folded_text(
                string@,
            ),
    {
        SearchableString {
            displayable: NfcNormalizedString::new(string),
            searchable: NfkcNormalizedString::CaseFolded(
                CaseFoldedNfkcNormalizedString::new(string),
            ),
        }
    }

    /// Two searchable strings are equal when their search forms are.
    pub fn eq(&self, other: &SearchableString) -> (r: bool)
        ensures
            r == (self.searchable@ == other.searchable@),
    {
        str_eq(self.searchable.as_str(), other.searchable.as_str())
    }
}

/// `s` holds `x` as searchable text compared without case.
pub open spec fn is_case_folded_of(s: SearchableString, x: Seq<char>) -> bool {
    &&& s.displayable@ == nfc_text(x)
    &&& s.searchable matches NfkcNormalizedString::CaseFolded(f) && f@ == folded_text(x)
}

/// `s` holds `x` as searchable text whose case matters.
pub open spec fn is_non_folded_of(s: SearchableString, x: Seq<char>) -> bool {
    &&& s.displayable@ == nfc_text(x)
    &&& s.searchable matches NfkcNormalizedString::NonFolded(f) && f@ == nfkc_text(x)
}

/// Compares two string slices character by character.
pub fn str_eq(a: &str, b: &str) -> (r: bool)
    ensures
        r == (a@ == b@),
{
    let x = crate::text::chars_of(a);
    let y = crate::text::chars_of(b);
    if x.len() != y.len() {
        return false;
    }
    let mut i: usize = 0;
    while i < x.len()
        invariant
            x@ == a@,
            y@ == b@,
            x.len() == y.len(),
            i <= x.len(),
            forall|j: int| 0 <= j < i ==> x@[j] == y@[j],
        decreases x.len() - i,
    {
        if x[i] != y[i] {
            return false;
        }
        i = i + 1;
    }
    assert(x@ =~= y@);
    true
}

} // verus!
