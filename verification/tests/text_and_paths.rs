use maknuuner::normalized::{
    CaseFoldedNfkcNormalizedString, NfcNormalizedString, NonFoldedNfkcNormalizedString,
    SearchableString,
};
use maknuuner::paths::{asset_dir, dist_dir, target_dir};
use maknuuner::text::{is_whitespace, trimmed};
use maknuuner::title::Title;

#[test]
fn whitespace_agrees_with_std_for_every_char() {
    for c in (0u32..=0x10FFFF).filter_map(char::from_u32) {
        assert_eq!(is_whitespace(c), c.is_whitespace(), "{c:?}");
    }
}

#[test]
fn trimmed_agrees_with_std() {
    for s in ["", "  a b  ", "\u{3000}x\u{2028}", "\t\n", "abc"] {
        assert_eq!(trimmed(s), s.trim());
    }
}

#[test]
fn nfc_composes() {
    let s = NfcNormalizedString::new(" e\u{301} ");
    assert_eq!(s.as_str(), "\u{e9}");
}

#[test]
fn nfkc_decomposes_compatibility_characters() {
    let s = NonFoldedNfkcNormalizedString::new("\u{fb01}X");
    assert_eq!(s.as_str(), "fiX");
}

#[test]
fn case_folding_lowers_and_expands() {
    let s = CaseFoldedNfkcNormalizedString::new("ABC Straße");
    assert_eq!(s.as_str(), "abc strasse");
}

#[test]
fn searchable_strings_compare_by_search_form() {
    let a = SearchableString::case_folded("House");
    let b = SearchableString::case_folded("HOUSE ");
    let c = SearchableString::non_folded("House");
    assert!(a.eq(&b));
    assert!(!a.eq(&c));
    assert_eq!(a.displayable.as_str(), "House");
    assert_eq!(a.searchable.as_str(), "house");
}

#[test]
fn project_directories() {
    assert_eq!(target_dir("/src/maknuuner"), "/src/maknuuner/target");
    assert_eq!(asset_dir("/src/maknuuner/"), "/src/maknuuner/assets");
    assert_eq!(dist_dir(""), "dist");
}

#[test]
fn title_keeps_its_text() {
    let t = Title::new("Search".to_string());
    assert_eq!(t.as_str(), "Search");
}
