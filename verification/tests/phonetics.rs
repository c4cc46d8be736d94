use maknuuner::lexicon::phonetics::{caphipp_to_ipa, PhonError, Phoneme};

fn chars(s: &str) -> Vec<char> {
    s.chars().collect()
}

fn phonemes() -> Vec<(Phoneme, &'static str, &'static str)> {
    vec![
        (Phoneme::_2, "2", "ʔ"),
        (Phoneme::_3, "3", "ʕ"),
        (Phoneme::_7, "7", "ħ"),
        (Phoneme::a, "a", "a"),
        (Phoneme::aa, "aa", "aː"),
        (Phoneme::b, "b", "b"),
        (Phoneme::b_dot, "b.", "bˤ"),
        (Phoneme::d, "d", "d"),
        (Phoneme::d_dot, "d.", "dˤ"),
        (Phoneme::dh, "dh", "ð"),
        (Phoneme::dh_dot, "dh.", "ðˤ"),
        (Phoneme::dj, "dj", "dʒ"),
        (Phoneme::dz, "dz", "d͡z"),
        (Phoneme::e, "e", "e"),
        (Phoneme::ee, "ee", "eː"),
        (Phoneme::f, "f", "f"),
        (Phoneme::ff, "ff", "fˤ"),
        (Phoneme::g, "g", "ɡ"),
        (Phoneme::gh, "gh", "ɣ"),
        (Phoneme::gy, "gy", "ɡʲ"),
        (Phoneme::h, "h", "h"),
        (Phoneme::i, "i", "i"),
        (Phoneme::ii, "ii", "i."),
        (Phoneme::j, "j", "ʒ"),
        (Phoneme::k, "k", "k"),
        (Phoneme::kh, "kh", "x"),
        (Phoneme::l, "l", "l"),
        (Phoneme::l_dot, "l.", "lˤ"),
        (Phoneme::m, "m", "m"),
        (Phoneme::m_dot, "m.", "mˤ"),
        (Phoneme::n, "n", "n"),
        (Phoneme::n_dot, "n.", "nˤ"),
        (Phoneme::o, "o", "o"),
        (Phoneme::oo, "oo", "oː"),
        (Phoneme::p, "p", "p"),
        (Phoneme::p_dot, "p.", "pˤ"),
        (Phoneme::q, "q", "q"),
        (Phoneme::qh, "qh", "ɢ"),
        (Phoneme::r, "r", "r"),
        (Phoneme::r_dot, "r.", "rˤ"),
        (Phoneme::s, "s", "s"),
        (Phoneme::s_dot, "s.", "sˤ"),
        (Phoneme::sh, "sh", "ʃ"),
        (Phoneme::t, "t", "t"),
        (Phoneme::t_dot, "t.", "tˤ"),
        (Phoneme::th, "th", "θ"),
        (Phoneme::ts, "ts", "ts"),
        (Phoneme::tsh, "tsh", "tʃ"),
        (Phoneme::u, "u", "u"),
        (Phoneme::uu, "uu", "uː"),
        (Phoneme::v, "v", "v"),
        (Phoneme::w, "w", "w"),
        (Phoneme::y, "y", "j"),
        (Phoneme::z, "z", "z"),
        (Phoneme::z_dot, "z.", "zˤ"),
        (Phoneme::hash, "#", " "),
        (Phoneme::D, "D", "(d)"),
        (Phoneme::D_dot, "D.", "(dˤ)"),
        (Phoneme::J, "J", "(dʒ)"),
        (Phoneme::K, "K", "(k)"),
        (Phoneme::Q, "Q", "(q)"),
        (Phoneme::S, "S", "(θ)"),
        (Phoneme::T, "T", "(t)"),
        (Phoneme::Z, "Z", "(ð)"),
        (Phoneme::Z_dot, "Z.", "(ðˤ)"),
        (Phoneme::a_dot, "a.", "ɑ"),
        (Phoneme::aa_dot, "aa.", "ɑː"),
    ]
}

#[test]
fn caphipp_roundtrips() {
    for (phoneme, caphipp, _) in phonemes() {
        assert_eq!(phoneme.to_caphipp(), chars(caphipp));
        assert_eq!(Phoneme::try_from(&chars(caphipp)), Some(phoneme));
    }
}

#[test]
fn ipa_of_every_phoneme() {
    for (phoneme, _, ipa) in phonemes() {
        assert_eq!(phoneme.to_ipa(), chars(ipa));
    }
}

#[test]
fn unknown_symbols_are_not_phonemes() {
    assert_eq!(Phoneme::try_from(&chars("x")), None);
    assert_eq!(Phoneme::try_from(&chars("")), None);
    assert_eq!(Phoneme::try_from(&chars("bb")), None);
}

fn ipa(s: &str) -> Vec<String> {
    caphipp_to_ipa(s).unwrap().into_iter().map(|v| v.into_iter().collect()).collect()
}

#[test]
fn plain_transcription() {
    assert_eq!(ipa("b ee t"), vec!["beːt".to_string()]);
    assert_eq!(ipa("  sh a m s  "), vec!["ʃams".to_string()]);
    assert_eq!(ipa(""), vec!["".to_string()]);
}

#[test]
fn alternations_fork_the_transcription() {
    assert_eq!(ipa("2 a||e l"), vec!["ʔal".to_string(), "ʔel".to_string()]);
    assert_eq!(
        ipa("a||e b a||e"),
        vec!["aba".to_string(), "ebe".to_string()]
    );
}

#[test]
fn comma_separated_variants_are_deduplicated() {
    assert_eq!(ipa("b a,b a,t a"), vec!["ba".to_string(), "ta".to_string()]);
}

#[test]
fn transcription_errors() {
    assert!(matches!(caphipp_to_ipa("b x"), Err(PhonError::UnknownSymbol(s)) if s == chars("x")));
    assert!(matches!(
        caphipp_to_ipa("a||x"),
        Err(PhonError::UnknownSymbolInAlternation(s)) if s == chars("x")
    ));
    assert!(matches!(caphipp_to_ipa("a||e b||d"), Err(PhonError::AlternationMismatch)));
}

#[test]
fn a_single_symbol_gives_its_ipa() {
    for (_, caphipp, ipa_text) in phonemes() {
        assert_eq!(ipa(caphipp), vec![ipa_text.to_string()]);
    }
}
