//! Corrections to dataset entries with known issues.

use vstd::prelude::*;

use super::lemma::DatasetEntry;
use crate::text::{chars_eq, chars_of, contains, contains_exec, push_char, string_from_chars};

verus! {

/// An entry did not hold what the correction for its id expects, so the
/// correction cannot be applied to it.
#[derive(Debug, Clone, Copy, PartialEq, Eq)]
pub struct PatchError {
    pub id: u32,
}

/// The entry whose ROOT_NTWS field lacks its last radical.
pub open spec fn is_biyr_id(id: u32) -> bool {
    id == 2737
}

/// Duplicates of 29603, 29605 and 29612 with the fatha and the shadda of the
/// lemma in another order.
pub open spec fn is_laqqat_id(id: u32) -> bool {
    id == 29598 || id == 29607 || id == 29614
}

/// An apparent duplicate with "wealth (type)" as the gloss.
pub open spec fn is_maal_id(id: u32) -> bool {
    id == 31411
}

/// Entries whose CAPHI++ field writes `II` for the `||` between alternate
/// phonemes.
pub open spec fn is_caphipp_bars_id(id: u32) -> bool {
    ||| id == 15942
    ||| id == 16642
    ||| id == 16643
    ||| id == 16644
    ||| id == 16658
    ||| id == 16659
    ||| id == 16660
    ||| id == 16661
    ||| id == 17007
    ||| id == 17008
    ||| id == 25633
    ||| id == 25634
    ||| id == 25716
    ||| id == 26050
    ||| id == 26054
    ||| id == 26264
}

/// The entry whose gloss writes `II` for `||`.
pub open spec fn is_gloss_bars_id(id: u32) -> bool {
    id == 18000
}

/// The entry whose notes write `II` for `||`.
pub open spec fn is_notes_bars_id(id: u32) -> bool {
    id == 25861
}

pub open spec fn biyr_text() -> Seq<char> {
    seq!['ب', '.', 'ي', '.', 'ر']
}

pub open spec fn biyru_text() -> Seq<char> {
    seq!['ب', '.', 'ي', '.', 'ر', '.', 'و']
}

pub open spec fn laqqat_text() -> Seq<char> {
    seq!['l', 'a', 'q', '~', 'a', 'T']
}

pub open spec fn maal_text() -> Seq<char> {
    seq!['m', 'a', 'A', 'l']
}

pub open spec fn double_i() -> Seq<char> {
    seq!['I', 'I']
}

/// `s` with each `II`, read from the left, written `||`.
pub open spec fn bars_for_double_i(s: Seq<char>) -> Seq<char>
    decreases s.len(),
{
    if s.len() < 2 {
        s
    } else if s[0] == 'I' && s[1] == 'I' {
        seq!['|', '|'] + bars_for_double_i(s.skip(2))
    } else {
        seq![s[0]] + bars_for_double_i(s.skip(1))
    }
}

proof fn lemma_bars_steps(s: Seq<char>)
    ensures
        bars_for_double_i(s).len() == s.len(),
        forall|i: int|
            0 <= i < s.len() ==> #[trigger] bars_for_double_i(s)[i] == s[i] || (s[i] == 'I'
                && bars_for_double_i(s)[i] == '|'),
        forall|i: int|
            0 <= i < s.len() - 1 ==> !(#[trigger] bars_for_double_i(s)[i] == 'I'
                && bars_for_double_i(s)[i + 1] == 'I'),
        s.len() > 0 && bars_for_double_i(s)[0] != s[0] ==> bars_for_double_i(s)[0] == '|',
        s.len() > 0 && bars_for_double_i(s)[0] == 'I' ==> s.len() < 2 || s[1] != 'I',
        forall|i: int|
            0 <= i < s.len() && #[trigger] bars_for_double_i(s)[i] != s[i] ==> (i + 1 < s.len()
                && s[i + 1] == 'I' && bars_for_double_i(s)[i + 1] == '|') || (i >= 1 && s[i - 1]
                == 'I' && bars_for_double_i(s)[i - 1] == '|'),
    decreases s.len(),
{
    let r = bars_for_double_i(s);
    if s.len() >= 2 {
        if s[0] == 'I' && s[1] == 'I' {
            let t = s.skip(2);
            lemma_bars_steps(t);
            assert(r =~= seq!['|', '|'] + bars_for_double_i(t));
            assert forall|i: int| 0 <= i < s.len() implies #[trigger] r[i] == s[i] || (s[i] == 'I'
                && r[i] == '|') by {
                if i >= 2 {
                    assert(r[i] == bars_for_double_i(t)[i - 2]);
                    assert(t[i - 2] == s[i]);
                }
            }
            assert forall|i: int| 0 <= i < s.len() - 1 implies !(#[trigger] r[i] == 'I' && r[i + 1]
                == 'I') by {
                if i >= 2 {
                    assert(r[i] == bars_for_double_i(t)[i - 2]);
                    assert(r[i + 1] == bars_for_double_i(t)[i - 1]);
                }
            }
            assert forall|i: int| 0 <= i < s.len() && #[trigger] r[i] != s[i] implies (i + 1
                < s.len() && s[i + 1] == 'I' && r[i + 1] == '|') || (i >= 1 && s[i - 1] == 'I'
                && r[i - 1] == '|') by {
                if i >= 2 {
                    assert(r[i] == bars_for_double_i(t)[i - 2]);
                    assert(t[i - 2] == s[i]);
                    assert(r[i - 1] == bars_for_double_i(t)[i - 3] || i == 2);
                    if i + 1 < s.len() {
                        assert(r[i + 1] == bars_for_double_i(t)[i - 1]);
                        assert(t[i - 1] == s[i + 1]);
                    }
                    if i >= 3 {
                        assert(t[i - 3] == s[i - 1]);
                    }
                }
            }
        } else {
            let t = s.skip(1);
            lemma_bars_steps(t);
            assert(r =~= seq![s[0]] + bars_for_double_i(t));
            assert forall|i: int| 0 <= i < s.len() implies #[trigger] r[i] == s[i] || (s[i] == 'I'
                && r[i] == '|') by {
                if i >= 1 {
                    assert(r[i] == bars_for_double_i(t)[i - 1]);
                    assert(t[i - 1] == s[i]);
                }
            }
            assert forall|i: int| 0 <= i < s.len() - 1 implies !(#[trigger] r[i] == 'I' && r[i + 1]
                == 'I') by {
                if i >= 1 {
                    assert(r[i] == bars_for_double_i(t)[i - 1]);
                    assert(r[i + 1] == bars_for_double_i(t)[i]);
                } else {
                    assert(r[1] == bars_for_double_i(t)[0]);
                    assert(t[0] == s[1]);
                    if s[0] == 'I' {
                        assert(s[1] != 'I');
                        if t.len() >= 2 {
                            assert(t[1] == s[2]);
                        }
                    }
                }
            }
            assert forall|i: int| 0 <= i < s.len() && #[trigger] r[i] != s[i] implies (i + 1
                < s.len() && s[i + 1] == 'I' && r[i + 1] == '|') || (i >= 1 && s[i - 1] == 'I'
                && r[i - 1] == '|') by {
                if i >= 1 {
                    assert(r[i] == bars_for_double_i(t)[i - 1]);
                    assert(t[i - 1] == s[i]);
                    if i + 1 < s.len() {
                        assert(r[i + 1] == bars_for_double_i(t)[i]);
                        assert(t[i] == s[i + 1]);
                    }
                    if i >= 2 {
                        assert(r[i - 1] == bars_for_double_i(t)[i - 2]);
                        assert(t[i - 2] == s[i - 1]);
                    }
                }
            }
        }
    }
}

/// Writing `||` for `II` keeps the length, changes only `I`s, each into a
/// `|` beside another `I` turned into `|`, and leaves no `II` behind.
pub proof fn lemma_bars_for_double_i(s: Seq<char>)
    ensures
        bars_for_double_i(s).len() == s.len(),
        forall|i: int|
            0 <= i < s.len() ==> #[trigger] bars_for_double_i(s)[i] == s[i] || (s[i] == 'I'
                && bars_for_double_i(s)[i] == '|'),
        forall|i: int|
            0 <= i < s.len() && #[trigger] bars_for_double_i(s)[i] != s[i] ==> (i + 1 < s.len()
                && s[i + 1] == 'I' && bars_for_double_i(s)[i + 1] == '|') || (i >= 1 && s[i - 1]
                == 'I' && bars_for_double_i(s)[i - 1] == '|'),
        forall|i: int|
            0 <= i < s.len() - 1 ==> !(#[trigger] bars_for_double_i(s)[i] == 'I'
                && bars_for_double_i(s)[i + 1] == 'I'),
{
    lemma_bars_steps(s);
}

/// The ANALYSIS field with the two misspelled noun features corrected:
/// `NOUN:PL` becomes `NOUN:P` and `NOUN:SF` becomes `NOUN:FS`.
pub open spec fn corrected_analysis(a: Seq<char>) -> Seq<char> {
    if a == seq!['N', 'O', 'U', 'N', ':', 'P', 'L'] {
        seq!['N', 'O', 'U', 'N', ':', 'P']
    } else if a == seq!['N', 'O', 'U', 'N', ':', 'S', 'F'] {
        seq!['N', 'O', 'U', 'N', ':', 'F', 'S']
    } else {
        a
    }
}

/// The text of an optional field.
pub open spec fn opt_text(o: Option<String>) -> Option<Seq<char>> {
    match o {
        Some(s) => Some(s@),
        None => None,
    }
}

/// The correction for the entry's id reads a field that the entry lacks.
pub open spec fn patch_panics(e: DatasetEntry) -> bool {
    ||| is_biyr_id(e.id) && e.root_ntws is None
    ||| (is_laqqat_id(e.id) || is_maal_id(e.id)) && e.lemma_bw is None
}

/// The entry does not hold what the correction for its id expects.
pub open spec fn patch_mismatch(e: DatasetEntry) -> bool {
    if is_biyr_id(e.id) {
        opt_text(e.root_ntws) != Some(biyr_text())
    } else if is_laqqat_id(e.id) {
        opt_text(e.lemma_bw) != Some(laqqat_text())
    } else if is_caphipp_bars_id(e.id) {
        !contains(e.caphipp@, double_i())
    } else if is_gloss_bars_id(e.id) {
        !contains(e.gloss@, double_i())
    } else if is_notes_bars_id(e.id) {
        !contains(e.notes@, double_i())
    } else if is_maal_id(e.id) {
        opt_text(e.lemma_bw) != Some(maal_text())
    } else {
        false
    }
}

/// The entry is left out of the lexicon.
pub open spec fn is_dropped(e: DatasetEntry) -> bool {
    is_laqqat_id(e.id) || is_maal_id(e.id)
}

/// `p` is the entry `e` with its corrections applied.
pub open spec fn is_patch_of(p: DatasetEntry, e: DatasetEntry) -> bool {
    &&& p.id == e.id
    &&& p.root == e.root
    &&& if is_biyr_id(e.id) {
        opt_text(p.root_ntws) == Some(biyru_text())
    } else {
        p.root_ntws == e.root_ntws
    }
    &&& p.root_1 == e.root_1
    &&& p.lemma == e.lemma
    &&& p.lemma_search == e.lemma_search
    &&& p.lemma_bw == e.lemma_bw
    &&& p.form == e.form
    &&& p.form_bw == e.form_bw
    &&& p.caphipp@ == if is_caphipp_bars_id(e.id) {
        bars_for_double_i(e.caphipp@)
    } else {
        e.caphipp@
    }
    &&& p.analysis@ == corrected_analysis(e.analysis@)
    &&& p.gloss@ == if is_gloss_bars_id(e.id) {
        bars_for_double_i(e.gloss@)
    } else {
        e.gloss@
    }
    &&& p.gloss_msa == e.gloss_msa
    &&& p.example_usage == e.example_usage
    &&& p.notes@ == if is_notes_bars_id(e.id) {
        bars_for_double_i(e.notes@)
    } else {
        e.notes@
    }
}

/// `s` with each `II`, read from the left, written `||`.
fn replace_double_i(s: &str) -> (r: String)
    ensures
        r@ == bars_for_double_i(s@),
{
    let c = chars_of(s);
    let mut r = String::new();
    let mut i: usize = 0;
    assert(c@.skip(0) =~= c@);
    assert(r@ + bars_for_double_i(c@) =~= bars_for_double_i(c@));
    while i < c.len()
        invariant
            i <= c.len(),
            c@ == s@,
            r@ + bars_for_double_i(c@.skip(i as int)) == bars_for_double_i(c@),
        decreases c.len() - i,
    {
        let ghost rest = c@.skip(i as int);
        if i + 1 < c.len() && c[i] == 'I' && c[i + 1] == 'I' {
            push_char(&mut r, '|');
            push_char(&mut r, '|');
            proof {
                assert(rest.skip(2) =~= c@.skip(i + 2));
                assert(r@ + bars_for_double_i(c@.skip(i + 2)) =~= bars_for_double_i(c@));
            }
            i = i + 2;
        } else {
            push_char(&mut r, c[i]);
            proof {
                assert(rest.skip(1) =~= c@.skip(i + 1));
                if rest.len() < 2 {
                    assert(rest =~= seq![c@[i as int]]);
                    assert(c@.skip(i + 1) =~= Seq::<char>::empty());
                }
                assert(r@ + bars_for_double_i(c@.skip(i + 1)) =~= bars_for_double_i(c@));
            }
            i = i + 1;
        }
    }
    assert(c@.skip(i as int) =~= Seq::<char>::empty());
    assert(r@ + Seq::<char>::empty() =~= r@);
    r
}

fn text_is(s: &Option<String>, t: &[char]) -> (r: bool)
    requires
        s is Some,
    ensures
        r == (opt_text(*s) == Some(t@)),
{
    match s {
        Some(s) => chars_eq(&chars_of(s.as_str()), t),
        None => false,
    }
}

fn has_double_i(s: &String) -> (r: bool)
    ensures
        r == contains(s@, double_i()),
{
    let t = ['I', 'I'];
    assert(t@ =~= double_i());
    contains_exec(&chars_of(s.as_str()), &t)
}

fn corrected(analysis: String) -> (r: String)
    ensures
        r@ == corrected_analysis(analysis@),
{
    let a = chars_of(analysis.as_str());
    let noun_pl = ['N', 'O', 'U', 'N', ':', 'P', 'L'];
    let noun_sf = ['N', 'O', 'U', 'N', ':', 'S', 'F'];
    assert(noun_pl@ =~= seq!['N', 'O', 'U', 'N', ':', 'P', 'L']);
    assert(noun_sf@ =~= seq!['N', 'O', 'U', 'N', ':', 'S', 'F']);
    if chars_eq(&a, &noun_pl) {
        let v = vec!['N', 'O', 'U', 'N', ':', 'P'];
        assert(v@ =~= seq!['N', 'O', 'U', 'N', ':', 'P']);
        string_from_chars(&v)
    } else if chars_eq(&a, &noun_sf) {
        let v = vec!['N', 'O', 'U', 'N', ':', 'F', 'S'];
        assert(v@ =~= seq!['N', 'O', 'U', 'N', ':', 'F', 'S']);
        string_from_chars(&v)
    } else {
        analysis
    }
}

/// Whether the entry does not hold what the correction for its id expects.
pub fn mismatches(e: &DatasetEntry) -> (r: bool)
    requires
        !patch_panics(*e),
    ensures
        r == patch_mismatch(*e),
{
    let id = e.id;
    if id == 2737 {
        let biyr = ['ب', '.', 'ي', '.', 'ر'];
        assert(biyr@ =~= biyr_text());
        !text_is(&e.root_ntws, &biyr)
    } else if id == 29598 || id == 29607 || id == 29614 {
        let laqqat = ['l', 'a', 'q', '~', 'a', 'T'];
        assert(laqqat@ =~= laqqat_text());
        !text_is(&e.lemma_bw, &laqqat)
    } else if id == 15942 || id == 16642 || id == 16643 || id == 16644 || id == 16658 || id
        == 16659 || id == 16660 || id == 16661 || id == 17007 || id == 17008 || id == 25633 || id
        == 25634 || id == 25716 || id == 26050 || id == 26054 || id == 26264 {
        !has_double_i(&e.caphipp)
    } else if id == 18000 {
        !has_double_i(&e.gloss)
    } else if id == 25861 {
        !has_double_i(&e.notes)
    } else if id == 31411 {
        let maal = ['m', 'a', 'A', 'l'];
        assert(maal@ =~= maal_text());
        !text_is(&e.lemma_bw, &maal)
    } else {
        false
    }
}

/// Applies the corrections for entries with known issues: `None` for an
/// entry that is left out, an error where the entry does not hold what its
/// correction expects.
pub fn patch_entry(entry: DatasetEntry) -> (res: Result<Option<DatasetEntry>, PatchError>)
    requires
        !patch_panics(entry),
    ensures
        match res {
            Err(e) => patch_mismatch(entry) && e.id == entry.id,
            Ok(None) => !patch_mismatch(entry) && is_dropped(entry),
            Ok(Some(p)) => !patch_mismatch(entry) && !is_dropped(entry) && is_patch_of(p, entry),
        },
{
    let id = entry.id;
    let DatasetEntry {
        id: _,
        root,
        root_ntws,
        root_1,
        lemma,
        lemma_search,
        lemma_bw,
        form,
        form_bw,
        caphipp,
        analysis,
        gloss,
        gloss_msa,
        example_usage,
        notes,
    } = entry;
    let mut root_ntws = root_ntws;
    let mut caphipp = caphipp;
    let mut gloss = gloss;
    let mut notes = notes;
    if id == 2737 {
        let biyr = ['ب', '.', 'ي', '.', 'ر'];
        assert(biyr@ =~= biyr_text());
        if !text_is(&root_ntws, &biyr) {
            return Err(PatchError { id });
        }
        let v = vec!['ب', '.', 'ي', '.', 'ر', '.', 'و'];
        assert(v@ =~= biyru_text());
        root_ntws = Some(string_from_chars(&v));
    } else if id == 29598 || id == 29607 || id == 29614 {
        let laqqat = ['l', 'a', 'q', '~', 'a', 'T'];
        assert(laqqat@ =~= laqqat_text());
        if !text_is(&lemma_bw, &laqqat) {
            return Err(PatchError { id });
        }
        return Ok(None);
    } else if id == 15942 || id == 16642 || id == 16643 || id == 16644 || id == 16658 || id
        == 16659 || id == 16660 || id == 16661 || id == 17007 || id == 17008 || id == 25633 || id
        == 25634 || id == 25716 || id == 26050 || id == 26054 || id == 26264 {
        if !has_double_i(&caphipp) {
            return Err(PatchError { id });
        }
        caphipp = replace_double_i(caphipp.as_str());
    } else if id == 18000 {
        if !has_double_i(&gloss) {
            return Err(PatchError { id });
        }
        gloss = replace_double_i(gloss.as_str());
    } else if id == 25861 {
        if !has_double_i(&notes) {
            return Err(PatchError { id });
        }
        notes = replace_double_i(notes.as_str());
    } else if id == 31411 {
        let maal = ['m', 'a', 'A', 'l'];
        assert(maal@ =~= maal_text());
        if !text_is(&lemma_bw, &maal) {
            return Err(PatchError { id });
        }
        return Ok(None);
    }
    let analysis = corrected(analysis);
    Ok(
        Some(
            DatasetEntry {
                id,
                root,
                root_ntws,
                root_1,
                lemma,
                lemma_search,
                lemma_bw,
                form,
                form_bw,
                caphipp,
                analysis,
                gloss,
                gloss_msa,
                example_usage,
                notes,
            },
        ),
    )
}

} // verus!
