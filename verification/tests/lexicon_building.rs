use maknuuner::lexicon::lemma::{
    lowest_entry_id, parse_glosses, parse_msa_glosses, DatasetEntry, Definition, EntryError,
    Lemma, MergeError, Phrase, Root,
};
use maknuuner::lexicon::patch::{mismatches, patch_entry, PatchError};
use maknuuner::lexicon::pos::{Noun, NounFeature, PartOfSpeech, PosError};
use maknuuner::lexicon::{add_would_panic, query_term_keys_all, BuildError, Lexicon, LexiconBuilder};
use maknuuner::query::Query;
use maknuuner::tf_idf::{lemma_term_keys, trigram_key};

fn entry(id: u32, lemma_bw: &str, analysis: &str, gloss: &str) -> DatasetEntry {
    DatasetEntry {
        id,
        root: Some("ك.ت.ب".to_string()),
        root_ntws: None,
        root_1: 'ك',
        lemma: Some("كتب".to_string()),
        lemma_search: Some("كتب".to_string()),
        lemma_bw: Some(lemma_bw.to_string()),
        form: "كتاب".to_string(),
        form_bw: "ktAb".to_string(),
        caphipp: "k t aa b".to_string(),
        analysis: analysis.to_string(),
        gloss: gloss.to_string(),
        gloss_msa: "".to_string(),
        example_usage: "".to_string(),
        notes: "".to_string(),
    }
}

fn texts(v: &[maknuuner::normalized::SearchableString]) -> Vec<String> {
    v.iter().map(|s| s.searchable.as_str().to_string()).collect()
}

#[test]
fn glosses_split_on_semicolons_outside_quotes() {
    assert_eq!(texts(&parse_glosses("book; \"a;b\"_c;Note_book [auto]")), vec!["book", "\"a;b\" c", "note book"]);
    assert_eq!(texts(&parse_glosses("")), vec![""]);
    assert_eq!(texts(&parse_msa_glosses(" كتاب # # دفتر ")), vec!["كتاب", "دفتر"]);
}

#[test]
fn patch_fixes_the_root_of_biyr() {
    let mut e = entry(2737, "bIr", "NOUN", "well");
    e.root_ntws = Some("ب.ي.ر".to_string());
    let p = patch_entry(e).unwrap().unwrap();
    assert_eq!(p.root_ntws.as_deref(), Some("ب.ي.ر.و"));
    let mut e = entry(2737, "bIr", "NOUN", "well");
    e.root_ntws = Some("ب.ي".to_string());
    assert!(matches!(patch_entry(e), Err(PatchError { id: 2737 })));
}

#[test]
fn patch_drops_duplicates() {
    assert!(matches!(patch_entry(entry(29598, "laq~aT", "NOUN", "x")), Ok(None)));
    assert!(matches!(patch_entry(entry(31411, "maAl", "NOUN", "x")), Ok(None)));
    assert!(matches!(patch_entry(entry(29607, "laqaT", "NOUN", "x")), Err(PatchError { id: 29607 })));
    assert!(mismatches(&entry(31411, "mAl", "NOUN", "x")));
    assert!(!mismatches(&entry(31411, "maAl", "NOUN", "x")));
}

#[test]
fn patch_replaces_double_i_with_bars() {
    let mut e = entry(15942, "ktAb", "NOUN", "x");
    e.caphipp = "k a||i II III t".to_string();
    let p = patch_entry(e).unwrap().unwrap();
    assert_eq!(p.caphipp, "k a||i || ||I t");
    let mut e = entry(18000, "ktAb", "NOUN", "aIIb");
    e.caphipp = "k".to_string();
    assert_eq!(patch_entry(e).unwrap().unwrap().gloss, "a||b");
    let mut e = entry(25861, "ktAb", "NOUN", "x");
    e.notes = "no bars".to_string();
    assert!(matches!(patch_entry(e), Err(PatchError { id: 25861 })));
}

#[test]
fn patch_corrects_noun_features() {
    assert_eq!(patch_entry(entry(1, "a", "NOUN:PL", "x")).unwrap().unwrap().analysis, "NOUN:P");
    assert_eq!(patch_entry(entry(1, "a", "NOUN:SF", "x")).unwrap().unwrap().analysis, "NOUN:FS");
    assert_eq!(patch_entry(entry(1, "a", "NOUN:MS", "x")).unwrap().unwrap().analysis, "NOUN:MS");
}

#[test]
fn entries_that_would_panic() {
    let mut e = entry(2737, "bIr", "NOUN", "x");
    e.root_ntws = None;
    assert!(add_would_panic(&e));
    let mut e = entry(5, "a", "NOUN", "x");
    e.lemma = None;
    assert!(add_would_panic(&e));
    let mut e = entry(31411, "maAl", "NOUN", "x");
    e.root = None;
    assert!(!add_would_panic(&e));
    let mut e = entry(31411, "maAl", "NOUN", "x");
    e.lemma_bw = None;
    assert!(add_would_panic(&e));
    assert!(!add_would_panic(&entry(5, "a", "NOUN", "x")));
}

#[test]
fn root_shows_middle_dots_and_stems() {
    let r = Root::new("ك.ت.ب", "");
    assert!(matches!(&r, Root::Root(s) if s.searchable.as_str() == "ك·ت·ب"));
    let r = Root::new("NTWS", "ب.ا");
    assert!(matches!(&r, Root::NonTemplaticWordStem(s) if s.searchable.as_str() == "ب·ا"));
    assert!(!Root::new("NTWS", "x").eq(&Root::new("x", "")));
}

#[test]
fn lemma_from_entry_and_merge() {
    let (mut a, fa) = Lemma::try_from(entry(7, "kitAb", "NOUN:MS", "book")).unwrap();
    assert!(fa.is_none());
    let (b, _) = Lemma::try_from(entry(3, "kitAb", "NOUN:P", "books")).unwrap();
    assert_eq!(a.lowest_id, 7);
    a.merge(b).unwrap();
    assert_eq!(a.lowest_id, 3);
    assert_eq!(a.definitions.len(), 2);
    assert_eq!(lowest_entry_id(&a.definitions, &a.phrases), 3);
    let mut other = entry(9, "kitAb", "NOUN", "x");
    other.lemma = Some("قلم".to_string());
    let (c, _) = Lemma::try_from(other).unwrap();
    assert!(matches!(a.merge(c), Err(MergeError::Lemma)));
    assert_eq!(a.definitions.len(), 2);
}

#[test]
fn phrases_become_phrases() {
    let (l, f) = Lemma::try_from(entry(11, "kitAb", "NOUN:PHRASE", "a book")).unwrap();
    assert!(f.is_none());
    assert_eq!(l.definitions.len(), 0);
    assert_eq!(l.phrases.len(), 1);
    assert_eq!(l.phrases[0].id, 11);
}

#[test]
fn transcription_errors_stop_the_entry() {
    let mut e = entry(12, "kitAb", "NOUN", "x");
    e.caphipp = "k x".to_string();
    assert!(matches!(Lemma::try_from(e), Err(EntryError::Transcription { id: 12, .. })));
}

fn build(entries: Vec<DatasetEntry>) -> (LexiconBuilder, Result<(), BuildError>) {
    let mut b = LexiconBuilder::new();
    for e in entries {
        assert!(!add_would_panic(&e));
        let r = b.add_entry(e);
        if r.is_err() {
            return (b, r);
        }
    }
    (b, Ok(()))
}

#[test]
fn entries_are_grouped_by_root_form_and_part_of_speech() {
    let (b, r) = build(vec![
        entry(20, "kitAb", "NOUN:MS", "book"),
        entry(10, "katab", "VERB:P", "write"),
        entry(15, "kitAb", "NOUN:P", "books"),
        entry(5, "kitAb", "VERB:P", "x"),
        entry(29598, "laq~aT", "NOUN", "dropped"),
    ]);
    r.unwrap();
    let lemmas = b.into_lemmas();
    let ids: Vec<u32> = lemmas.iter().map(|l| l.lowest_id).collect();
    assert_eq!(ids, vec![5, 10, 15]);
    let noun = &lemmas[2];
    let def_ids: Vec<u32> = noun.definitions.iter().map(|d| d.id).collect();
    assert_eq!(def_ids, vec![20, 15]);
    let mut all: Vec<u32> = lemmas
        .iter()
        .flat_map(|l| l.definitions.iter().map(|d| d.id).chain(l.phrases.iter().map(|p| p.id)))
        .collect();
    all.sort();
    assert_eq!(all, vec![5, 10, 15, 20]);
}

#[test]
fn definitions_are_ordered_by_part_of_speech_then_id() {
    let (b, r) = build(vec![
        entry(30, "kitAb", "NOUN:P", "a"),
        entry(31, "kitAb", "NOUN:MS", "b"),
        entry(32, "kitAb", "NOUN", "c"),
        entry(29, "kitAb", "NOUN:MS", "d"),
    ]);
    r.unwrap();
    let lemmas = b.into_lemmas();
    assert_eq!(lemmas.len(), 1);
    let def_ids: Vec<u32> = lemmas[0].definitions.iter().map(|d| d.id).collect();
    assert_eq!(def_ids, vec![32, 29, 31, 30]);
    assert_eq!(lemmas[0].definitions[0].pos, Some(PartOfSpeech::Noun(Noun::Plain(None))));
    assert_eq!(
        lemmas[0].definitions[3].pos,
        Some(PartOfSpeech::Noun(Noun::Plain(Some(NounFeature::Plural))))
    );
}

#[test]
fn build_errors() {
    let mut conflicting = entry(2, "kitAb", "NOUN", "x");
    conflicting.lemma = Some("قلم".to_string());
    let (b, r) = build(vec![entry(1, "kitAb", "NOUN", "book"), conflicting]);
    assert!(matches!(
        r,
        Err(BuildError::Merge { new_id: 2, existing_id: 1, error: MergeError::Lemma })
    ));
    assert_eq!(b.into_lemmas().len(), 1);

    let mut bad = entry(3, "kitAb", "NOUN", "x");
    bad.caphipp = "q q q zz".to_string();
    let (_, r) = build(vec![bad]);
    assert!(matches!(r, Err(BuildError::Entry(EntryError::Transcription { id: 3, .. }))));

    let (_, r) = build(vec![entry(29614, "laqaT", "NOUN", "x")]);
    assert!(matches!(r, Err(BuildError::Patch(PatchError { id: 29614 }))));
}

#[test]
fn failed_parts_of_speech_are_recorded() {
    let (b, r) = build(vec![entry(40, "kitAb", "NOUN:Q", "x"), entry(41, "kitAb", "ADJ", "y")]);
    r.unwrap();
    let f = b.pos_failures();
    assert_eq!(f.len(), 1);
    assert_eq!(f[0].0, 40);
    assert!(matches!(&f[0].1, PosError::UnknownNounFeature(s) if *s == vec!['Q']));
}

#[test]
fn search_and_counts() {
    let (b, r) = build(vec![
        entry(1, "kitAb", "NOUN", "book"),
        entry(2, "katab", "VERB:P", "write"),
        entry(3, "maktab", "NOUN", "office; desk"),
    ]);
    r.unwrap();
    let lexicon = Lexicon::from_lemmas(b.into_lemmas()).unwrap();
    assert_eq!(lexicon.lemmas.len(), 3);
    let hits = lexicon.search(&Query::parse("gloss:o").unwrap());
    assert_eq!(hits, vec![0, 2]);
    let hits = lexicon.search(&Query::parse("gloss:book or gloss:desk").unwrap());
    assert_eq!(hits, vec![0, 2]);
    let hits = lexicon.search(&Query::parse("gloss:^write$").unwrap());
    assert_eq!(hits, vec![1]);
    let hits = lexicon.search(&Query::parse("").unwrap());
    assert_eq!(hits, vec![0, 1, 2]);
    let hits = lexicon.search(&Query::parse("gloss:book and gloss:desk").unwrap());
    assert!(hits.is_empty());

    let keys = lemma_term_keys(&lexicon.lemmas[0]);
    let k = trigram_key('b', 'o', 'o');
    let s = lexicon.term_stats(0, k);
    assert_eq!(s.freq as usize, keys.iter().filter(|x| **x == k).count());
    assert_eq!(s.freq, 1);
    assert_eq!(s.term_count as usize, keys.len());
    assert_eq!(s.doc_count, 3);
    assert_eq!(s.docs_with, 1);
    let root = trigram_key(' ', ' ', 'ك');
    assert_eq!(lexicon.term_stats(1, root).docs_with, 3);
}

#[test]
fn query_terms_give_their_trigram_keys() {
    let q = Query::parse("ab or lemma:C").unwrap();
    let keys = query_term_keys_all(&q);
    assert_eq!(
        keys,
        vec![
            vec![trigram_key(' ', ' ', 'a'), trigram_key(' ', 'a', 'b')],
            vec![trigram_key(' ', ' ', 'c')],
        ]
    );
}

#[test]
fn entries_of_the_wrong_kind_are_refused() {
    assert!(matches!(
        Definition::try_from(entry(50, "kitAb", "NOUN:PHRASE", "x")),
        Err(EntryError::PhraseAsDefinition)
    ));
    assert!(matches!(
        Phrase::try_from(entry(51, "kitAb", "NOUN", "x")),
        Err(EntryError::NotAPhrase)
    ));
}

#[test]
fn merge_reports_the_first_field_that_differs() {
    let (mut a, _) = Lemma::try_from(entry(60, "kitAb", "NOUN", "x")).unwrap();
    let mut e = entry(61, "kitAb", "NOUN", "x");
    e.root = Some("ق.ل.م".to_string());
    let (b, _) = Lemma::try_from(e).unwrap();
    assert!(matches!(a.merge(b), Err(MergeError::Root)));
    let mut e = entry(62, "kitAb", "NOUN", "x");
    e.root_1 = 'ق';
    let (b, _) = Lemma::try_from(e).unwrap();
    assert!(matches!(a.merge(b), Err(MergeError::Root1)));
    let mut e = entry(63, "kitAb", "NOUN", "x");
    e.lemma_search = Some("قلم".to_string());
    let (b, _) = Lemma::try_from(e).unwrap();
    assert!(matches!(a.merge(b), Err(MergeError::LemmaSearch)));
    let (b, _) = Lemma::try_from(entry(64, "kutub", "NOUN", "x")).unwrap();
    assert!(matches!(a.merge(b), Err(MergeError::LemmaBw)));
    assert_eq!(a.lowest_id, 60);
}

#[test]
fn a_lemma_with_too_many_trigrams_is_refused() {
    let long = "a".repeat(70_000);
    let (b, r) = build(vec![entry(70, "kitAb", "NOUN", &long)]);
    r.unwrap();
    assert!(matches!(
        Lexicon::from_lemmas(b.into_lemmas()),
        Err(BuildError::TooManyTerms { lowest_id: 70 })
    ));
}

#[test]
fn empty_lemmas_that_disagree_do_not_merge() {
    let empty = |root: &str| Lemma {
        lowest_id: 0,
        root: Root::new(root, ""),
        root_1: 'ك',
        lemma: maknuuner::normalized::SearchableString::case_folded("كتب"),
        lemma_search: maknuuner::normalized::SearchableString::case_folded("كتب"),
        lemma_bw: maknuuner::normalized::SearchableString::non_folded("kitAb"),
        definitions: Vec::new(),
        phrases: Vec::new(),
    };
    let mut a = empty("ك.ت.ب");
    assert!(matches!(a.merge(empty("ق.ل.م")), Err(MergeError::Root)));
    assert_eq!(a.lowest_id, 0);
}

#[test]
fn the_whole_lexicon_from_entries() {
    let out = Lexicon::from_entries(vec![
        entry(20, "kitAb", "NOUN:MS", "book"),
        entry(10, "katab", "VERB:P", "write"),
        entry(15, "kitAb", "NOUN:P", "books"),
        entry(29598, "laq~aT", "NOUN", "dropped"),
        entry(40, "qalam", "NOUN:Q", "pen"),
    ]);
    let (lexicon, failures) = out.unwrap().unwrap();
    let ids: Vec<u32> = lexicon.lemmas.iter().map(|l| l.lowest_id).collect();
    assert_eq!(ids, vec![10, 15, 40]);
    assert_eq!(lexicon.term_freqs.len(), 3);
    assert_eq!(lexicon.inverse_doc_freqs.doc_count(), 3);
    let mut all: Vec<u32> = lexicon
        .lemmas
        .iter()
        .flat_map(|l| l.definitions.iter().map(|d| d.id).chain(l.phrases.iter().map(|p| p.id)))
        .collect();
    all.sort();
    assert_eq!(all, vec![10, 15, 20, 40]);
    assert_eq!(failures.len(), 1);
    assert_eq!(failures[0].0, 40);
}

#[test]
fn from_entries_stops_where_an_entry_would_panic_or_fails() {
    let mut missing = entry(2, "kitAb", "NOUN", "x");
    missing.lemma = None;
    assert!(Lexicon::from_entries(vec![entry(1, "kitAb", "NOUN", "a"), missing]).is_none());
    let mut missing = entry(3, "kitAb", "NOUN", "x");
    missing.lemma = None;
    let out = Lexicon::from_entries(vec![entry(29614, "laqaT", "NOUN", "x"), missing]);
    assert!(matches!(out, Some(Err(BuildError::Patch(PatchError { id: 29614 })))));
}
