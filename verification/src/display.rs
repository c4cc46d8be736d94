//! What a search result shows besides the lemma's own text.

use vstd::prelude::*;

use crate::lexicon::lemma::Definition;
use crate::lexicon::pos::{noun_feature, Noun, NounFeature, PartOfSpeech, Verb, VerbFeature};
use crate::normalized::SearchableString;

verus! {

/// Two lists of glosses are equal, gloss by gloss, in their search forms.
pub open spec fn same_glosses(a: Seq<SearchableString>, b: Seq<SearchableString>) -> bool {
    &&& a.len() == b.len()
    &&& forall|k: int| 0 <= k < a.len() ==> #[trigger] a[k].searchable@ == b[k].searchable@
}

fn glosses_equal(a: &Vec<SearchableString>, b: &Vec<SearchableString>) -> (r: bool)
    ensures
        r == same_glosses(a@, b@),
{
    if a.len() != b.len() {
        return false;
    }
    let mut k: usize = 0;
    while k < a.len()
        invariant
            k <= a.len() == b.len(),
            forall|j: int| 0 <= j < k ==> #[trigger] a@[j].searchable@ == b@[j].searchable@,
        decreases a.len() - k,
    {
        if !a[k].eq(&b[k]) {
            return false;
        }
        k = k + 1;
    }
    true
}

/// Which definitions of a lemma show their English glosses: the first, and
/// each whose glosses differ from those of the definition before it.
pub fn glosses_shown(defs: &Vec<Definition>) -> (shown: Vec<bool>)
    ensures
        shown@.len() == defs@.len(),
        forall|i: int|
            0 <= i < defs@.len() ==> #[trigger] shown@[i] == (i == 0 || !same_glosses(
                defs@[i - 1].glosses_english@,
                defs@[i].glosses_english@,
            )),
{
    let mut shown: Vec<bool> = Vec::new();
    let mut i: usize = 0;
    while i < defs.len()
        invariant
            i <= defs@.len(),
            shown@.len() == i,
            forall|j: int|
                0 <= j < i ==> #[trigger] shown@[j] == (j == 0 || !same_glosses(
                    defs@[j - 1].glosses_english@,
                    defs@[j].glosses_english@,
                )),
        decreases defs@.len() - i,
    {
        let s = if i == 0 {
            true
        } else {
            !glosses_equal(&defs[i - 1].glosses_english, &defs[i].glosses_english)
        };
        shown.push(s);
        i = i + 1;
    }
    shown
}

/// How a part of speech is labelled: the kind of word with an optional
/// explanation, and an optional feature with its explanation.
pub struct PosLabel {
    pub kind: &'static str,
    pub kind_tooltip: Option<&'static str>,
    pub feature: Option<(&'static str, &'static str)>,
}

pub open spec fn opt_text(o: Option<&'static str>) -> Option<Seq<char>> {
    match o {
        Some(s) => Some(s@),
        None => None,
    }
}

pub open spec fn opt_pair(o: Option<(&'static str, &'static str)>) -> Option<(Seq<char>, Seq<char>)> {
    match o {
        Some((a, b)) => Some((a@, b@)),
        None => None,
    }
}

/// The label and explanation of a noun feature; phrases have none.
pub open spec fn noun_feature_label(f: NounFeature) -> Option<(Seq<char>, Seq<char>)> {
    match f {
        NounFeature::Singular => Some(("[sg.]"@, "Singular"@)),
        NounFeature::MasculineSingular => Some(("[m.sg.]"@, "Masculine singular"@)),
        NounFeature::FeminineSingular => Some(("[f.pl.]"@, "Feminine plural"@)),
        NounFeature::Dual => Some(("[d.]"@, "Dual"@)),
        NounFeature::Plural => Some(("[pl.]"@, "Plural"@)),
        NounFeature::MasculinePlural => Some(("[m.pl.]"@, "Masculine plural"@)),
        NounFeature::FemininePlural => Some(("[f.pl.]"@, "Feminine plural"@)),
        NounFeature::Phrase => None,
    }
}

/// The label and explanation of a verb feature; phrases have none.
pub open spec fn verb_feature_label(f: VerbFeature) -> Option<(Seq<char>, Seq<char>)> {
    match f {
        VerbFeature::Perfective => Some(("[p.]"@, "Perfective"@)),
        VerbFeature::Command => Some(("[c.]"@, "Command"@)),
        VerbFeature::Imperfective => Some(("[i.]"@, "Imperfective"@)),
        VerbFeature::Phrase => None,
    }
}

/// The kind of word and its explanation.
pub open spec fn kind_label(p: PartOfSpeech) -> (Seq<char>, Option<Seq<char>>) {
    match p {
        PartOfSpeech::Noun(Noun::Plain(_)) => ("Noun"@, None),
        PartOfSpeech::Noun(Noun::Active(_)) => (
            "Noun (act. part.)"@,
            Some("Active participle deverbal noun"@),
        ),
        PartOfSpeech::Noun(Noun::Passive(_)) => (
            "Noun (pass. part.)"@,
            Some("Passive participle deverbal noun"@),
        ),
        PartOfSpeech::Noun(Noun::Proper(_)) => ("Noun (proper)"@, None),
        PartOfSpeech::Noun(Noun::Number(_)) => ("Noun (number)"@, None),
        PartOfSpeech::Noun(Noun::Quantifier(_)) => ("Noun (quantifier)"@, None),
        PartOfSpeech::Verb(Verb::Plain(_)) => ("Verb"@, None),
        PartOfSpeech::Verb(Verb::Nominal(_)) => ("Verb (nominal)"@, None),
        PartOfSpeech::Verb(Verb::Pseudo(_)) => ("Verb (pseudo)"@, None),
    }
}

/// The feature of a part of speech, labelled.
pub open spec fn feature_label(p: PartOfSpeech) -> Option<(Seq<char>, Seq<char>)> {
    match p {
        PartOfSpeech::Noun(Noun::Plain(Some(f))) => noun_feature_label(f),
        PartOfSpeech::Noun(Noun::Active(Some(f))) => noun_feature_label(f),
        PartOfSpeech::Noun(Noun::Passive(Some(f))) => noun_feature_label(f),
        PartOfSpeech::Noun(Noun::Proper(Some(f))) => noun_feature_label(f),
        PartOfSpeech::Noun(Noun::Number(Some(f))) => noun_feature_label(f),
        PartOfSpeech::Noun(Noun::Quantifier(Some(f))) => noun_feature_label(f),
        PartOfSpeech::Verb(Verb::Plain(f)) => verb_feature_label(f),
        _ => None,
    }
}

/// A part of speech shows a feature label exactly when it is a noun with a
/// feature or a plain verb, and that feature is not the phrase marker.
pub proof fn lemma_feature_label_shown(p: PartOfSpeech)
    ensures
        feature_label(p) is Some <==> match p {
            PartOfSpeech::Noun(n) => noun_feature(n) matches Some(f) && f != NounFeature::Phrase,
            PartOfSpeech::Verb(Verb::Plain(f)) => f != VerbFeature::Phrase,
            _ => false,
        },
{
}

fn noun_feature_text(f: NounFeature) -> (r: Option<(&'static str, &'static str)>)
    ensures
        opt_pair(r) == noun_feature_label(f),
{
    match f {
        NounFeature::Singular => Some(("[sg.]", "Singular")),
        NounFeature::MasculineSingular => Some(("[m.sg.]", "Masculine singular")),
        NounFeature::FeminineSingular => Some(("[f.pl.]", "Feminine plural")),
        NounFeature::Dual => Some(("[d.]", "Dual")),
        NounFeature::Plural => Some(("[pl.]", "Plural")),
        NounFeature::MasculinePlural => Some(("[m.pl.]", "Masculine plural")),
        NounFeature::FemininePlural => Some(("[f.pl.]", "Feminine plural")),
        NounFeature::Phrase => None,
    }
}

fn verb_feature_text(f: VerbFeature) -> (r: Option<(&'static str, &'static str)>)
    ensures
        opt_pair(r) == verb_feature_label(f),
{
    match f {
        VerbFeature::Perfective => Some(("[p.]", "Perfective")),
        VerbFeature::Command => Some(("[c.]", "Command")),
        VerbFeature::Imperfective => Some(("[i.]", "Imperfective")),
        VerbFeature::Phrase => None,
    }
}

fn noun_feature_opt(f: Option<NounFeature>) -> (r: Option<(&'static str, &'static str)>)
    ensures
        opt_pair(r) == match f {
            Some(f) => noun_feature_label(f),
            None => None,
        },
{
    match f {
        Some(f) => noun_feature_text(f),
        None => None,
    }
}

/// How a part of speech is shown.
pub fn pos_label(pos: PartOfSpeech) -> (label: PosLabel)
    ensures
        label.kind@ == kind_label(pos).0,
        opt_text(label.kind_tooltip) == kind_label(pos).1,
        opt_pair(label.feature) == feature_label(pos),
{
    match pos {
        PartOfSpeech::Noun(noun) => match noun {
            Noun::Plain(f) => PosLabel { kind: "Noun", kind_tooltip: None, feature: noun_feature_opt(f) },
            Noun::Active(f) => PosLabel {
                kind: "Noun (act. part.)",
                kind_tooltip: Some("Active participle deverbal noun"),
                feature: noun_feature_opt(f),
            },
            Noun::Passive(f) => PosLabel {
                kind: "Noun (pass. part.)",
                kind_tooltip: Some("Passive participle deverbal noun"),
                feature: noun_feature_opt(f),
            },
            Noun::Proper(f) => PosLabel {
                kind: "Noun (proper)",
                kind_tooltip: None,
                feature: noun_feature_opt(f),
            },
            Noun::Number(f) => PosLabel {
                kind: "Noun (number)",
                kind_tooltip: None,
                feature: noun_feature_opt(f),
            },
            Noun::Quantifier(f) => PosLabel {
                kind: "Noun (quantifier)",
                kind_tooltip: None,
                feature: noun_feature_opt(f),
            },
        },
        PartOfSpeech::Verb(verb) => match verb {
            Verb::Plain(f) => PosLabel { kind: "Verb", kind_tooltip: None, feature: verb_feature_text(f) },
            Verb::Nominal(_) => PosLabel { kind: "Verb (nominal)", kind_tooltip: None, feature: None },
            Verb::Pseudo(_) => PosLabel { kind: "Verb (pseudo)", kind_tooltip: None, feature: None },
        },
    }
}

} // verus!
