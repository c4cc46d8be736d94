use maknuuner::display::{glosses_shown, pos_label};
use maknuuner::lexicon::lemma::{DatasetEntry, Definition};
use maknuuner::lexicon::pos::{Noun, NounFeature, PartOfSpeech, Verb, VerbFeature, VerbPhrase};
use maknuuner::title::{page_title, Title};

fn definition(id: u32, gloss: &str) -> Definition {
    let entry = DatasetEntry {
        id,
        root: Some("ك.ت.ب".to_string()),
        root_ntws: None,
        root_1: 'ك',
        lemma: Some("كتب".to_string()),
        lemma_search: Some("كتب".to_string()),
        lemma_bw: Some("katab".to_string()),
        form: "كتب".to_string(),
        form_bw: "katab".to_string(),
        caphipp: "k a t a b".to_string(),
        analysis: "VERB:P".to_string(),
        gloss: gloss.to_string(),
        gloss_msa: "".to_string(),
        example_usage: "".to_string(),
        notes: "".to_string(),
    };
    Definition::try_from(entry).unwrap().0
}

#[test]
fn repeated_glosses_are_shown_once() {
    let defs = vec![
        definition(1, "write"),
        definition(2, "Write"),
        definition(3, "write; note"),
        definition(4, "write"),
    ];
    assert_eq!(glosses_shown(&defs), vec![true, false, true, true]);
    assert!(glosses_shown(&vec![]).is_empty());
}

#[test]
fn part_of_speech_labels() {
    let l = pos_label(PartOfSpeech::Noun(Noun::Active(Some(NounFeature::MasculineSingular))));
    assert_eq!(l.kind, "Noun (act. part.)");
    assert_eq!(l.kind_tooltip, Some("Active participle deverbal noun"));
    assert_eq!(l.feature, Some(("[m.sg.]", "Masculine singular")));
    let l = pos_label(PartOfSpeech::Noun(Noun::Plain(Some(NounFeature::FeminineSingular))));
    assert_eq!(l.feature, Some(("[f.pl.]", "Feminine plural")));
    let l = pos_label(PartOfSpeech::Verb(Verb::Plain(VerbFeature::Imperfective)));
    assert_eq!(l.kind, "Verb");
    assert_eq!(l.feature, Some(("[i.]", "Imperfective")));
    let l = pos_label(PartOfSpeech::Verb(Verb::Pseudo(Some(VerbPhrase))));
    assert_eq!(l.kind, "Verb (pseudo)");
    assert_eq!(l.kind_tooltip, None);
    assert_eq!(l.feature, None);
}

#[test]
fn page_titles() {
    assert_eq!(page_title(None), "Maknuuner");
    let t = Title::new("Search".to_string());
    assert_eq!(page_title(Some(&t)), "Search \u{b7} Maknuuner");
}
