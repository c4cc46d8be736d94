use maknuuner::tf_idf::{
    to_terms, trigram_key, DocumentTermFrequencies, InverseDocumentFrequencies, Term,
};

#[test]
fn terms_are_padded_trigrams() {
    let terms = to_terms("abc");
    assert_eq!(terms, vec![Term([' ', ' ', 'a']), Term([' ', 'a', 'b']), Term(['a', 'b', 'c'])]);
    assert!(to_terms("").is_empty());
    assert_eq!(to_terms("x"), vec![Term([' ', ' ', 'x'])]);
}

#[test]
fn trigram_keys_tell_trigrams_apart() {
    let a = Term(['a', 'b', 'c']);
    let b = Term(['a', 'c', 'b']);
    assert_ne!(a.to_key(), b.to_key());
    assert_eq!(a.to_key(), trigram_key('a', 'b', 'c'));
    assert_eq!(trigram_key('\u{0}', '\u{0}', '\u{1}'), 1);
    assert_eq!(trigram_key('\u{1}', '\u{0}', '\u{0}'), 1u128 << 64);
}

#[test]
fn document_frequencies_count_occurrences() {
    let d = DocumentTermFrequencies::from_keys(&vec![5, 7, 5, 9, 5]);
    assert_eq!(d.term_count(), 5);
    assert_eq!(d.frequency(5), 3);
    assert_eq!(d.frequency(7), 1);
    assert_eq!(d.frequency(8), 0);
    assert_eq!(d.distinct_terms(), &vec![5, 7, 9]);
    let empty = DocumentTermFrequencies::from_keys(&vec![]);
    assert_eq!(empty.term_count(), 0);
    assert!(empty.distinct_terms().is_empty());
}

#[test]
fn inverse_document_frequencies_count_documents() {
    let mut idf = InverseDocumentFrequencies::new();
    assert_eq!(idf.doc_count(), 0);
    assert_eq!(idf.docs_with(5), 0);
    let a = DocumentTermFrequencies::from_keys(&vec![5, 5, 6]);
    let b = DocumentTermFrequencies::from_keys(&vec![6, 7]);
    assert!(idf.fits(&a));
    idf.add_document(&a);
    idf.add_document(&b);
    assert_eq!(idf.doc_count(), 2);
    assert_eq!(idf.docs_with(5), 1);
    assert_eq!(idf.docs_with(6), 2);
    assert_eq!(idf.docs_with(7), 1);
    assert_eq!(idf.docs_with(8), 0);
}

#[test]
fn a_trigram_in_too_many_documents_does_not_fit() {
    let mut idf = InverseDocumentFrequencies::new();
    let d = DocumentTermFrequencies::from_keys(&vec![1]);
    for _ in 0..u16::MAX {
        assert!(idf.fits(&d));
        idf.add_document(&d);
    }
    assert_eq!(idf.docs_with(1), u16::MAX);
    assert!(!idf.fits(&d));
    assert!(idf.fits(&DocumentTermFrequencies::from_keys(&vec![2])));
}
