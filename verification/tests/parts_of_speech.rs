use maknuuner::lexicon::lemma::Definition;
use maknuuner::lexicon::pos::{
    pos_order, Noun, NounFeature, PartOfSpeech, PosError, Verb, VerbFeature, VerbPhrase,
};

fn pos(s: &str) -> Result<PartOfSpeech, PosError> {
    PartOfSpeech::from_str(&s.chars().collect())
}

fn chars(s: &str) -> Vec<char> {
    s.chars().collect()
}

#[test]
fn nouns() {
    assert_eq!(
        pos("NOUN:MS").unwrap(),
        PartOfSpeech::Noun(Noun::Plain(Some(NounFeature::MasculineSingular)))
    );
    assert_eq!(pos("NOUN").unwrap(), PartOfSpeech::Noun(Noun::Plain(None)));
    assert_eq!(pos("NOUN_ACT").unwrap(), PartOfSpeech::Noun(Noun::Active(None)));
    assert_eq!(
        pos("NOUN_QUANT:PHRASE").unwrap(),
        PartOfSpeech::Noun(Noun::Quantifier(Some(NounFeature::Phrase)))
    );
    assert_eq!(
        pos("NOUN_PROP:FP").unwrap(),
        PartOfSpeech::Noun(Noun::Proper(Some(NounFeature::FemininePlural)))
    );
}

#[test]
fn verbs() {
    assert_eq!(pos("VERB:P").unwrap(), PartOfSpeech::Verb(Verb::Plain(VerbFeature::Perfective)));
    assert_eq!(pos("VERB:C").unwrap(), PartOfSpeech::Verb(Verb::Plain(VerbFeature::Command)));
    assert_eq!(pos("VERB_NOM").unwrap(), PartOfSpeech::Verb(Verb::Nominal(None)));
    assert_eq!(
        pos("VERB_PSEUDO:PHRASE").unwrap(),
        PartOfSpeech::Verb(Verb::Pseudo(Some(VerbPhrase)))
    );
}

#[test]
fn part_of_speech_errors() {
    assert!(matches!(pos("VERB"), Err(PosError::VerbFeatureWithoutColon)));
    assert!(matches!(pos("NOUN:X"), Err(PosError::UnknownNounFeature(s)) if s == chars("X")));
    assert!(matches!(pos("NOUN_FOO"), Err(PosError::UnknownNoun(s)) if s == chars("_FOO")));
    assert!(matches!(pos("NOUN/ADJ"), Err(PosError::UnknownNoun(s)) if s == chars("/ADJ")));
    assert!(matches!(pos("VERB_X:P"), Err(PosError::UnknownVerb(s)) if s == chars("_X")));
    assert!(matches!(pos("VERB:Q"), Err(PosError::UnknownVerbFeature(s)) if s == chars("Q")));
    assert!(matches!(pos("VERB_NOM:P"), Err(PosError::UnknownVerbFeature(s)) if s == chars("P")));
    assert!(matches!(pos("ADJ"), Err(PosError::UnknownPartOfSpeech(s)) if s == chars("ADJ")));
}

#[test]
fn only_nouns_and_verbs_are_parsed_in_definitions() {
    assert!(matches!(Definition::parse_pos("ADJ"), Ok(None)));
    assert!(matches!(
        Definition::parse_pos("NOUN:MS"),
        Ok(Some(PartOfSpeech::Noun(Noun::Plain(Some(NounFeature::MasculineSingular)))))
    ));
    assert!(matches!(Definition::parse_pos("NOUN:Q"), Err(PosError::UnknownNounFeature(_))));
}

fn all_parts_of_speech() -> Vec<Option<PartOfSpeech>> {
    let features = [
        None,
        Some(NounFeature::Singular),
        Some(NounFeature::MasculineSingular),
        Some(NounFeature::FeminineSingular),
        Some(NounFeature::Dual),
        Some(NounFeature::Plural),
        Some(NounFeature::MasculinePlural),
        Some(NounFeature::FemininePlural),
        Some(NounFeature::Phrase),
    ];
    let mut out = vec![None];
    for make in [Noun::Plain, Noun::Active, Noun::Passive, Noun::Proper, Noun::Number, Noun::Quantifier] {
        for f in features {
            out.push(Some(PartOfSpeech::Noun(make(f))));
        }
    }
    for f in [VerbFeature::Perfective, VerbFeature::Command, VerbFeature::Imperfective, VerbFeature::Phrase] {
        out.push(Some(PartOfSpeech::Verb(Verb::Plain(f))));
    }
    for p in [None, Some(VerbPhrase)] {
        out.push(Some(PartOfSpeech::Verb(Verb::Nominal(p))));
    }
    for p in [None, Some(VerbPhrase)] {
        out.push(Some(PartOfSpeech::Verb(Verb::Pseudo(p))));
    }
    out
}

#[test]
fn pos_order_follows_the_derived_order() {
    let all = all_parts_of_speech();
    assert_eq!(all.len(), 63);
    for a in &all {
        for b in &all {
            assert_eq!(pos_order(*a).cmp(&pos_order(*b)), a.cmp(b), "{a:?} {b:?}");
        }
    }
}

#[test]
fn features_need_their_colon() {
    assert!(matches!(NounFeature::from_str(&chars("MS")), Err(PosError::NounFeatureWithoutColon)));
    assert!(matches!(VerbFeature::from_str(&chars("P")), Err(PosError::VerbFeatureWithoutColon)));
    assert_eq!(NounFeature::from_str(&chars(":D")).unwrap(), NounFeature::Dual);
    assert_eq!(VerbPhrase::from_str(&chars(":PHRASE")).unwrap(), VerbPhrase);
}
