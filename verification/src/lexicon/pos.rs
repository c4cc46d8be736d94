//! Parts of speech, parsed from the ANALYSIS field of the dataset.

use vstd::prelude::*;

use crate::text::{chars_eq, find, find_char, lemma_find, slice_to_vec};

verus! {

/// Grammatical features of a noun.
#[derive(Debug, Clone, Copy, PartialEq, Eq, PartialOrd, Ord)]
pub enum NounFeature {
    Singular,
    MasculineSingular,
    FeminineSingular,
    Dual,
    Plural,
    MasculinePlural,
    FemininePlural,
    Phrase,
}

/// Kinds of noun.
#[derive(Debug, Clone, Copy, PartialEq, Eq, PartialOrd, Ord)]
pub enum Noun {
    Plain(Option<NounFeature>),
    /// Active participle deverbal noun
    Active(Option<NounFeature>),
    /// Passive participle deverbal noun
    Passive(Option<NounFeature>),
    /// Proper nouns
    Proper(Option<NounFeature>),
    /// Cardinal numbers
    Number(Option<NounFeature>),
    /// Noun quantifier
    Quantifier(Option<NounFeature>),
}

/// Grammatical features of a verb.
#[derive(Debug, Clone, Copy, PartialEq, Eq, PartialOrd, Ord)]
pub enum VerbFeature {
    Perfective,
    Command,
    Imperfective,
    Phrase,
}

/// The `:PHRASE` marker of a verb.
#[derive(Debug, Clone, Copy, PartialEq, Eq, PartialOrd, Ord)]
pub struct VerbPhrase;

/// Kinds of verb.
#[derive(Debug, Clone, Copy, PartialEq, Eq, PartialOrd, Ord)]
pub enum Verb {
    Plain(VerbFeature),
    /// Non-inflectional verb, also called frozen verbs
    Nominal(Option<VerbPhrase>),
    /// Pseudo verb
    Pseudo(Option<VerbPhrase>),
}

#[derive(Debug, Clone, Copy, PartialEq, Eq, PartialOrd, Ord)]
pub enum PartOfSpeech {
    Noun(Noun),
    Verb(Verb),
}

/// Why an analysis string is not a part of speech.  The text carried is the
/// part that was not recognized.
#[derive(Debug)]
pub enum PosError {
    NounFeatureWithoutColon,
    UnknownNounFeature(Vec<char>),
    UnknownNoun(Vec<char>),
    VerbFeatureWithoutColon,
    UnknownVerbFeature(Vec<char>),
    UnknownVerb(Vec<char>),
    UnknownPartOfSpeech(Vec<char>),
}

pub enum PosErrorV {
    NounFeatureWithoutColon,
    UnknownNounFeature(Seq<char>),
    UnknownNoun(Seq<char>),
    VerbFeatureWithoutColon,
    UnknownVerbFeature(Seq<char>),
    UnknownVerb(Seq<char>),
    UnknownPartOfSpeech(Seq<char>),
}

impl View for PosError {
    type V = PosErrorV;

    open spec fn view(&self) -> PosErrorV {
        match self {
            PosError::NounFeatureWithoutColon => PosErrorV::NounFeatureWithoutColon,
            PosError::UnknownNounFeature(s) => PosErrorV::UnknownNounFeature(s@),
            PosError::UnknownNoun(s) => PosErrorV::UnknownNoun(s@),
            PosError::VerbFeatureWithoutColon => PosErrorV::VerbFeatureWithoutColon,
            PosError::UnknownVerbFeature(s) => PosErrorV::UnknownVerbFeature(s@),
            PosError::UnknownVerb(s) => PosErrorV::UnknownVerb(s@),
            PosError::UnknownPartOfSpeech(s) => PosErrorV::UnknownPartOfSpeech(s@),
        }
    }
}

pub open spec fn noun_feature_of(s: Seq<char>) -> Result<NounFeature, PosErrorV> {
    if s.len() == 0 || s[0] != ':' {
        Err(PosErrorV::NounFeatureWithoutColon)
    } else {
        let t = s.drop_first();
        if t == seq!['D'] {
            Ok(NounFeature::Dual)
        } else if t == seq!['F', 'P'] {
            Ok(NounFeature::FemininePlural)
        } else if t == seq!['F', 'S'] {
            Ok(NounFeature::FeminineSingular)
        } else if t == seq!['M', 'P'] {
            Ok(NounFeature::MasculinePlural)
        } else if t == seq!['M', 'S'] {
            Ok(NounFeature::MasculineSingular)
        } else if t == seq!['P'] {
            Ok(NounFeature::Plural)
        } else if t == seq!['P', 'H', 'R', 'A', 'S', 'E'] {
            Ok(NounFeature::Phrase)
        } else if t == seq!['S'] {
            Ok(NounFeature::Singular)
        } else {
            Err(PosErrorV::UnknownNounFeature(t))
        }
    }
}

/// An optional noun feature: none for the empty text.
pub open spec fn opt_noun_feature_of(s: Seq<char>) -> Result<Option<NounFeature>, PosErrorV> {
    if s.len() == 0 {
        Ok(None)
    } else {
        match noun_feature_of(s) {
            Ok(f) => Ok(Some(f)),
            Err(e) => Err(e),
        }
    }
}

/// The noun sub-type that a prefix such as `_ACT` names, numbered in
/// declaration order.
pub open spec fn noun_kind(prefix: Seq<char>) -> Option<u8> {
    if prefix.len() == 0 {
        Some(0)
    } else if prefix == seq!['_', 'A', 'C', 'T'] {
        Some(1)
    } else if prefix == seq!['_', 'P', 'A', 'S', 'S'] {
        Some(2)
    } else if prefix == seq!['_', 'P', 'R', 'O', 'P'] {
        Some(3)
    } else if prefix == seq!['_', 'N', 'U', 'M'] {
        Some(4)
    } else if prefix == seq!['_', 'Q', 'U', 'A', 'N', 'T'] {
        Some(5)
    } else {
        None
    }
}

pub open spec fn make_noun(kind: u8, f: Option<NounFeature>) -> Noun {
    if kind == 0 {
        Noun::Plain(f)
    } else if kind == 1 {
        Noun::Active(f)
    } else if kind == 2 {
        Noun::Passive(f)
    } else if kind == 3 {
        Noun::Proper(f)
    } else if kind == 4 {
        Noun::Number(f)
    } else {
        Noun::Quantifier(f)
    }
}

pub open spec fn noun_of(s: Seq<char>) -> Result<Noun, PosErrorV> {
    let idx = find(s, 0, ':');
    let prefix = s.subrange(0, idx);
    let suffix = s.subrange(idx, s.len() as int);
    match noun_kind(prefix) {
        Some(kind) => match opt_noun_feature_of(suffix) {
            Ok(f) => Ok(make_noun(kind, f)),
            Err(e) => Err(e),
        },
        None => Err(PosErrorV::UnknownNoun(prefix)),
    }
}

pub open spec fn verb_feature_of(s: Seq<char>) -> Result<VerbFeature, PosErrorV> {
    if s.len() == 0 || s[0] != ':' {
        Err(PosErrorV::VerbFeatureWithoutColon)
    } else {
        let t = s.drop_first();
        if t == seq!['C'] {
            Ok(VerbFeature::Command)
        } else if t == seq!['I'] {
            Ok(VerbFeature::Imperfective)
        } else if t == seq!['P'] {
            Ok(VerbFeature::Perfective)
        } else if t == seq!['P', 'H', 'R', 'A', 'S', 'E'] {
            Ok(VerbFeature::Phrase)
        } else {
            Err(PosErrorV::UnknownVerbFeature(t))
        }
    }
}

pub open spec fn verb_phrase_of(s: Seq<char>) -> Result<VerbPhrase, PosErrorV> {
    if s.len() == 0 || s[0] != ':' {
        Err(PosErrorV::VerbFeatureWithoutColon)
    } else {
        let t = s.drop_first();
        if t == seq!['P', 'H', 'R', 'A', 'S', 'E'] {
            Ok(VerbPhrase)
        } else {
            Err(PosErrorV::UnknownVerbFeature(t))
        }
    }
}

pub open spec fn verb_of(s: Seq<char>) -> Result<Verb, PosErrorV> {
    let idx = find(s, 0, ':');
    let prefix = s.subrange(0, idx);
    let suffix = s.subrange(idx, s.len() as int);
    if prefix.len() == 0 {
        match verb_feature_of(suffix) {
            Ok(f) => Ok(Verb::Plain(f)),
            Err(e) => Err(e),
        }
    } else if prefix == seq!['_', 'N', 'O', 'M'] || prefix == seq!['_', 'P', 'S', 'E', 'U', 'D', 'O'] {
        let feature = if suffix.len() == 0 {
            Ok(None)
        } else {
            match verb_phrase_of(suffix) {
                Ok(p) => Ok(Some(p)),
                Err(e) => Err(e),
            }
        };
        match feature {
            Ok(f) => Ok(
                if prefix == seq!['_', 'N', 'O', 'M'] {
                    Verb::Nominal(f)
                } else {
                    Verb::Pseudo(f)
                },
            ),
            Err(e) => Err(e),
        }
    } else {
        Err(PosErrorV::UnknownVerb(prefix))
    }
}

/// The first index of `_`, `/` or `:` at or after `i`, or the length.
pub open spec fn find_pos_split(s: Seq<char>, i: int) -> int
    decreases s.len() - i,
{
    if i >= s.len() {
        s.len() as int
    } else if i >= 0 && (s[i] == '_' || s[i] == '/' || s[i] == ':') {
        i
    } else {
        find_pos_split(s, i + 1)
    }
}

pub open spec fn part_of_speech_of(s: Seq<char>) -> Result<PartOfSpeech, PosErrorV> {
    let idx = find_pos_split(s, 0);
    let prefix = s.subrange(0, idx);
    let suffix = s.subrange(idx, s.len() as int);
    if prefix == seq!['N', 'O', 'U', 'N'] {
        match noun_of(suffix) {
            Ok(n) => Ok(PartOfSpeech::Noun(n)),
            Err(e) => Err(e),
        }
    } else if prefix == seq!['V', 'E', 'R', 'B'] {
        match verb_of(suffix) {
            Ok(v) => Ok(PartOfSpeech::Verb(v)),
            Err(e) => Err(e),
        }
    } else {
        Err(PosErrorV::UnknownPartOfSpeech(prefix))
    }
}

pub open spec fn same_result<T>(r: Result<T, PosError>, s: Result<T, PosErrorV>) -> bool {
    match r {
        Ok(x) => s == Ok::<T, PosErrorV>(x),
        Err(e) => s == Err::<T, PosErrorV>(e@),
    }
}

proof fn lemma_find_pos_split(s: Seq<char>, i: int)
    requires
        0 <= i <= s.len(),
    ensures
        i <= find_pos_split(s, i) <= s.len(),
    decreases s.len() - i,
{
    if i < s.len() && !(s[i] == '_' || s[i] == '/' || s[i] == ':') {
        lemma_find_pos_split(s, i + 1);
    }
}

fn rest_after_colon(s: &Vec<char>, from: usize) -> (r: Option<Vec<char>>)
    requires
        from <= s.len(),
    ensures
        ({
            let t = s@.subrange(from as int, s.len() as int);
            match r {
                None => t.len() == 0 || t[0] != ':',
                Some(v) => t.len() > 0 && t[0] == ':' && v@ == t.drop_first(),
            }
        }),
{
    if from < s.len() && s[from] == ':' {
        let v = slice_to_vec(s, from + 1, s.len());
        assert(v@ =~= s@.subrange(from as int, s.len() as int).drop_first());
        Some(v)
    } else {
        None
    }
}

impl NounFeature {
    /// Parses `s[from..]`, which must be `:` and a feature code.
    pub fn from_str(s: &Vec<char>) -> (res: Result<NounFeature, PosError>)
        ensures
            same_result(res, noun_feature_of(s@)),
    {
        assert(s@.subrange(0, s@.len() as int) =~= s@);
        let t = match rest_after_colon(s, 0) {
            Some(t) => t,
            None => return Err(PosError::NounFeatureWithoutColon),
        };
        let lit_d = ['D'];
        assert(lit_d@ =~= seq!['D']);
        let lit_fp = ['F', 'P'];
        assert(lit_fp@ =~= seq!['F', 'P']);
        let lit_fs = ['F', 'S'];
        assert(lit_fs@ =~= seq!['F', 'S']);
        let lit_mp = ['M', 'P'];
        assert(lit_mp@ =~= seq!['M', 'P']);
        let lit_ms = ['M', 'S'];
        assert(lit_ms@ =~= seq!['M', 'S']);
        let lit_p = ['P'];
        assert(lit_p@ =~= seq!['P']);
        let lit_phrase = ['P', 'H', 'R', 'A', 'S', 'E'];
        assert(lit_phrase@ =~= seq!['P', 'H', 'R', 'A', 'S', 'E']);
        let lit_s = ['S'];
        assert(lit_s@ =~= seq!['S']);
        if chars_eq(&t, &lit_d) {
            Ok(NounFeature::Dual)
        } else if chars_eq(&t, &lit_fp) {
            Ok(NounFeature::FemininePlural)
        } else if chars_eq(&t, &lit_fs) {
            Ok(NounFeature::FeminineSingular)
        } else if chars_eq(&t, &lit_mp) {
            Ok(NounFeature::MasculinePlural)
        } else if chars_eq(&t, &lit_ms) {
            Ok(NounFeature::MasculineSingular)
        } else if chars_eq(&t, &lit_p) {
            Ok(NounFeature::Plural)
        } else if chars_eq(&t, &lit_phrase) {
            Ok(NounFeature::Phrase)
        } else if chars_eq(&t, &lit_s) {
            Ok(NounFeature::Singular)
        } else {
            Err(PosError::UnknownNounFeature(t))
        }
    }
}


impl Noun {
    /// Parses the text after `NOUN`: an optional sub-type such as `_ACT`,
    /// then an optional `:` and feature.
    pub fn from_str(s: &Vec<char>) -> (res: Result<Noun, PosError>)
        ensures
            same_result(res, noun_of(s@)),
    {
        proof {
            lemma_find(s@, 0, ':');
        }
        let idx = find_char(s, 0, ':');
        let prefix = slice_to_vec(s, 0, idx);
        let suffix = slice_to_vec(s, idx, s.len());
        let lit_empty = [' '; 0];
        assert(lit_empty@ =~= seq![' '; 0]);
        let lit_act = ['_', 'A', 'C', 'T'];
        assert(lit_act@ =~= seq!['_', 'A', 'C', 'T']);
        let lit_pass = ['_', 'P', 'A', 'S', 'S'];
        assert(lit_pass@ =~= seq!['_', 'P', 'A', 'S', 'S']);
        let lit_prop = ['_', 'P', 'R', 'O', 'P'];
        assert(lit_prop@ =~= seq!['_', 'P', 'R', 'O', 'P']);
        let lit_num = ['_', 'N', 'U', 'M'];
        assert(lit_num@ =~= seq!['_', 'N', 'U', 'M']);
        let lit_quant = ['_', 'Q', 'U', 'A', 'N', 'T'];
        assert(lit_quant@ =~= seq!['_', 'Q', 'U', 'A', 'N', 'T']);
        let kind: u8 = if prefix.len() == 0 {
            0
        } else if chars_eq(&prefix, &lit_act) {
            1
        } else if chars_eq(&prefix, &lit_pass) {
            2
        } else if chars_eq(&prefix, &lit_prop) {
            3
        } else if chars_eq(&prefix, &lit_num) {
            4
        } else if chars_eq(&prefix, &lit_quant) {
            5
        } else {
            return Err(PosError::UnknownNoun(prefix));
        };
        assert(noun_kind(prefix@) == Some(kind));
        let feature = if suffix.len() == 0 {
            None
        } else {
            match NounFeature::from_str(&suffix) {
                Ok(f) => Some(f),
                Err(e) => return Err(e),
            }
        };
        assert(opt_noun_feature_of(suffix@) == Ok::<Option<NounFeature>, PosErrorV>(feature));
        Ok(
            if kind == 0 {
                Noun::Plain(feature)
            } else if kind == 1 {
                Noun::Active(feature)
            } else if kind == 2 {
                Noun::Passive(feature)
            } else if kind == 3 {
                Noun::Proper(feature)
            } else if kind == 4 {
                Noun::Number(feature)
            } else {
                Noun::Quantifier(feature)
            },
        )
    }
}

impl VerbFeature {
    /// Parses `:` and a verb feature code.
    pub fn from_str(s: &Vec<char>) -> (res: Result<VerbFeature, PosError>)
        ensures
            same_result(res, verb_feature_of(s@)),
    {
        assert(s@.subrange(0, s@.len() as int) =~= s@);
        let t = match rest_after_colon(s, 0) {
            Some(t) => t,
            None => return Err(PosError::VerbFeatureWithoutColon),
        };
        let lit_c = ['C'];
        assert(lit_c@ =~= seq!['C']);
        let lit_i = ['I'];
        assert(lit_i@ =~= seq!['I']);
        let lit_p = ['P'];
        assert(lit_p@ =~= seq!['P']);
        let lit_phrase = ['P', 'H', 'R', 'A', 'S', 'E'];
        assert(lit_phrase@ =~= seq!['P', 'H', 'R', 'A', 'S', 'E']);
        if chars_eq(&t, &lit_c) {
            Ok(VerbFeature::Command)
        } else if chars_eq(&t, &lit_i) {
            Ok(VerbFeature::Imperfective)
        } else if chars_eq(&t, &lit_p) {
            Ok(VerbFeature::Perfective)
        } else if chars_eq(&t, &lit_phrase) {
            Ok(VerbFeature::Phrase)
        } else {
            Err(PosError::UnknownVerbFeature(t))
        }
    }
}

impl VerbPhrase {
    /// Parses `:PHRASE`.
    pub fn from_str(s: &Vec<char>) -> (res: Result<VerbPhrase, PosError>)
        ensures
            same_result(res, verb_phrase_of(s@)),
    {
        assert(s@.subrange(0, s@.len() as int) =~= s@);
        let t = match rest_after_colon(s, 0) {
            Some(t) => t,
            None => return Err(PosError::VerbFeatureWithoutColon),
        };
        let lit_phrase = ['P', 'H', 'R', 'A', 'S', 'E'];
        assert(lit_phrase@ =~= seq!['P', 'H', 'R', 'A', 'S', 'E']);
        if chars_eq(&t, &lit_phrase) {
            Ok(VerbPhrase)
        } else {
            Err(PosError::UnknownVerbFeature(t))
        }
    }
}

impl Verb {
    /// Parses the text after `VERB`: an optional sub-type `_NOM` or
    /// `_PSEUDO`, then `:` and a feature.
    pub fn from_str(s: &Vec<char>) -> (res: Result<Verb, PosError>)
        ensures
            same_result(res, verb_of(s@)),
    {
        proof {
            lemma_find(s@, 0, ':');
        }
        let idx = find_char(s, 0, ':');
        let prefix = slice_to_vec(s, 0, idx);
        let suffix = slice_to_vec(s, idx, s.len());
        let lit_empty = [' '; 0];
        assert(lit_empty@ =~= seq![' '; 0]);
        let lit_nom = ['_', 'N', 'O', 'M'];
        assert(lit_nom@ =~= seq!['_', 'N', 'O', 'M']);
        let lit_pseudo = ['_', 'P', 'S', 'E', 'U', 'D', 'O'];
        assert(lit_pseudo@ =~= seq!['_', 'P', 'S', 'E', 'U', 'D', 'O']);
        if prefix.len() == 0 {
            match VerbFeature::from_str(&suffix) {
                Ok(f) => Ok(Verb::Plain(f)),
                Err(e) => Err(e),
            }
        } else if chars_eq(&prefix, &lit_nom) || chars_eq(&prefix, &lit_pseudo) {
            let feature = if suffix.len() == 0 {
                None
            } else {
                match VerbPhrase::from_str(&suffix) {
                    Ok(p) => Some(p),
                    Err(e) => return Err(e),
                }
            };
            if chars_eq(&prefix, &lit_nom) {
                Ok(Verb::Nominal(feature))
            } else {
                Ok(Verb::Pseudo(feature))
            }
        } else {
            Err(PosError::UnknownVerb(prefix))
        }
    }
}

fn find_pos_split_exec(s: &Vec<char>) -> (r: usize)
    ensures
        r == find_pos_split(s@, 0),
        r <= s.len(),
{
    proof {
        lemma_find_pos_split(s@, 0);
    }
    let mut i: usize = 0;
    while i < s.len() && !(s[i] == '_' || s[i] == '/' || s[i] == ':')
        invariant
            i <= s.len(),
            find_pos_split(s@, 0) == find_pos_split(s@, i as int),
        decreases s.len() - i,
    {
        i = i + 1;
    }
    i
}

impl PartOfSpeech {
    /// Parses an analysis such as `NOUN_ACT:MS` or `VERB:P`.
    pub fn from_str(s: &Vec<char>) -> (res: Result<PartOfSpeech, PosError>)
        ensures
            same_result(res, part_of_speech_of(s@)),
    {
        let idx = find_pos_split_exec(s);
        let prefix = slice_to_vec(s, 0, idx);
        let suffix = slice_to_vec(s, idx, s.len());
        let lit_noun = ['N', 'O', 'U', 'N'];
        assert(lit_noun@ =~= seq!['N', 'O', 'U', 'N']);
        let lit_verb = ['V', 'E', 'R', 'B'];
        assert(lit_verb@ =~= seq!['V', 'E', 'R', 'B']);
        if chars_eq(&prefix, &lit_noun) {
            match Noun::from_str(&suffix) {
                Ok(n) => Ok(PartOfSpeech::Noun(n)),
                Err(e) => Err(e),
            }
        } else if chars_eq(&prefix, &lit_verb) {
            match Verb::from_str(&suffix) {
                Ok(v) => Ok(PartOfSpeech::Verb(v)),
                Err(e) => Err(e),
            }
        } else {
            Err(PosError::UnknownPartOfSpeech(prefix))
        }
    }
}

/// The code that names a noun feature in an analysis, after its colon.
pub open spec fn noun_feature_code(f: NounFeature) -> Seq<char> {
    match f {
        NounFeature::Dual => seq!['D'],
        NounFeature::FemininePlural => seq!['F', 'P'],
        NounFeature::FeminineSingular => seq!['F', 'S'],
        NounFeature::MasculinePlural => seq!['M', 'P'],
        NounFeature::MasculineSingular => seq!['M', 'S'],
        NounFeature::Plural => seq!['P'],
        NounFeature::Phrase => seq!['P', 'H', 'R', 'A', 'S', 'E'],
        NounFeature::Singular => seq!['S'],
    }
}

/// The code that names a verb feature in an analysis, after its colon.
pub open spec fn verb_feature_code(f: VerbFeature) -> Seq<char> {
    match f {
        VerbFeature::Command => seq!['C'],
        VerbFeature::Imperfective => seq!['I'],
        VerbFeature::Perfective => seq!['P'],
        VerbFeature::Phrase => seq!['P', 'H', 'R', 'A', 'S', 'E'],
    }
}

/// The sub-type marker of a noun, empty for a plain noun.
pub open spec fn noun_kind_code(n: Noun) -> Seq<char> {
    match n {
        Noun::Plain(_) => Seq::empty(),
        Noun::Active(_) => seq!['_', 'A', 'C', 'T'],
        Noun::Passive(_) => seq!['_', 'P', 'A', 'S', 'S'],
        Noun::Proper(_) => seq!['_', 'P', 'R', 'O', 'P'],
        Noun::Number(_) => seq!['_', 'N', 'U', 'M'],
        Noun::Quantifier(_) => seq!['_', 'Q', 'U', 'A', 'N', 'T'],
    }
}

/// The feature of a noun, whatever its sub-type.
pub open spec fn noun_feature(n: Noun) -> Option<NounFeature> {
    match n {
        Noun::Plain(f) => f,
        Noun::Active(f) => f,
        Noun::Passive(f) => f,
        Noun::Proper(f) => f,
        Noun::Number(f) => f,
        Noun::Quantifier(f) => f,
    }
}

/// The analysis text of a part of speech, such as `NOUN_ACT:MS` or `VERB:P`.
pub open spec fn analysis_text(p: PartOfSpeech) -> Seq<char> {
    match p {
        PartOfSpeech::Noun(n) => seq!['N', 'O', 'U', 'N'] + noun_kind_code(n) + match noun_feature(
            n,
        ) {
            None => Seq::empty(),
            Some(f) => seq![':'] + noun_feature_code(f),
        },
        PartOfSpeech::Verb(v) => seq!['V', 'E', 'R', 'B'] + match v {
            Verb::Plain(f) => seq![':'] + verb_feature_code(f),
            Verb::Nominal(p) => seq!['_', 'N', 'O', 'M'] + match p {
                None => Seq::empty(),
                Some(_) => seq![':', 'P', 'H', 'R', 'A', 'S', 'E'],
            },
            Verb::Pseudo(p) => seq!['_', 'P', 'S', 'E', 'U', 'D', 'O'] + match p {
                None => Seq::empty(),
                Some(_) => seq![':', 'P', 'H', 'R', 'A', 'S', 'E'],
            },
        },
    }
}

/// Each noun feature code, after a colon, parses to the feature it names;
/// so no two features share a code.
pub proof fn lemma_noun_feature_codes(f: NounFeature)
    ensures
        noun_feature_of(seq![':'] + noun_feature_code(f)) == Ok::<NounFeature, PosErrorV>(f),
{
    let t = (seq![':'] + noun_feature_code(f)).drop_first();
    assert(t =~= noun_feature_code(f));
    match f {
        NounFeature::Dual => assert(t =~= seq!['D']),
        NounFeature::FemininePlural => assert(t =~= seq!['F', 'P']),
        NounFeature::FeminineSingular => {
            assert(t =~= seq!['F', 'S']);
            assert(t != seq!['F', 'P']) by {
                assert(t[1] != seq!['F', 'P'][1]);
            }
        },
        NounFeature::MasculinePlural => {
            assert(t =~= seq!['M', 'P']);
            assert(t != seq!['F', 'P']) by {
                assert(t[0] != seq!['F', 'P'][0]);
            }
            assert(t != seq!['F', 'S']) by {
                assert(t[0] != seq!['F', 'S'][0]);
            }
        },
        NounFeature::MasculineSingular => {
            assert(t =~= seq!['M', 'S']);
            assert(t != seq!['F', 'P']) by {
                assert(t[0] != seq!['F', 'P'][0]);
            }
            assert(t != seq!['F', 'S']) by {
                assert(t[0] != seq!['F', 'S'][0]);
            }
            assert(t != seq!['M', 'P']) by {
                assert(t[1] != seq!['M', 'P'][1]);
            }
        },
        NounFeature::Plural => {
            assert(t =~= seq!['P']);
            assert(t != seq!['D']) by {
                assert(t[0] != seq!['D'][0]);
            }
        },
        NounFeature::Phrase => assert(t =~= seq!['P', 'H', 'R', 'A', 'S', 'E']),
        NounFeature::Singular => {
            assert(t =~= seq!['S']);
            assert(t != seq!['D']) by {
                assert(t[0] != seq!['D'][0]);
            }
            assert(t != seq!['P']) by {
                assert(t[0] != seq!['P'][0]);
            }
        },
    }
}

/// Each verb feature code, after a colon, parses to the feature it names;
/// so no two features share a code.
pub proof fn lemma_verb_feature_codes(f: VerbFeature)
    ensures
        verb_feature_of(seq![':'] + verb_feature_code(f)) == Ok::<VerbFeature, PosErrorV>(f),
{
    let t = (seq![':'] + verb_feature_code(f)).drop_first();
    assert(t =~= verb_feature_code(f));
    match f {
        VerbFeature::Command => assert(t =~= seq!['C']),
        VerbFeature::Imperfective => {
            assert(t =~= seq!['I']);
            assert(t != seq!['C']) by {
                assert(t[0] != seq!['C'][0]);
            }
        },
        VerbFeature::Perfective => {
            assert(t =~= seq!['P']);
            assert(t != seq!['C']) by {
                assert(t[0] != seq!['C'][0]);
            }
            assert(t != seq!['I']) by {
                assert(t[0] != seq!['I'][0]);
            }
        },
        VerbFeature::Phrase => assert(t =~= seq!['P', 'H', 'R', 'A', 'S', 'E']),
    }
}

proof fn lemma_find_pos_split_at(s: Seq<char>, i: int, k: int)
    requires
        0 <= i <= k <= s.len(),
        forall|j: int| i <= j < k ==> !(s[j] == '_' || s[j] == '/' || s[j] == ':'),
        k == s.len() || s[k] == '_' || s[k] == '/' || s[k] == ':',
    ensures
        find_pos_split(s, i) == k,
    decreases k - i,
{
    if i < k {
        lemma_find_pos_split_at(s, i + 1, k);
    }
}

proof fn lemma_find_at(s: Seq<char>, k: int, c: char)
    requires
        0 <= k <= s.len(),
        forall|j: int| 0 <= j < k ==> s[j] != c,
        k == s.len() || s[k] == c,
    ensures
        find(s, 0, c) == k,
{
    lemma_find(s, 0, c);
    if find(s, 0, c) < k {
        assert(s[find(s, 0, c)] == c);
    }
    if find(s, 0, c) > k {
        assert(s[k] != c);
    }
}

/// Every part of speech is parsed back from its analysis text.
pub proof fn lemma_analysis_round_trip(p: PartOfSpeech)
    ensures
        part_of_speech_of(analysis_text(p)) == Ok::<PartOfSpeech, PosErrorV>(p),
{
    let s = analysis_text(p);
    match p {
        PartOfSpeech::Noun(n) => {
            let head = seq!['N', 'O', 'U', 'N'];
            let kind = noun_kind_code(n);
            let feat = match noun_feature(n) {
                None => Seq::empty(),
                Some(f) => seq![':'] + noun_feature_code(f),
            };
            let rest = kind + feat;
            assert(s =~= head + rest);
            lemma_find_pos_split_at(s, 0, 4);
            assert(s.subrange(0, 4) =~= head);
            assert(s.subrange(4, s.len() as int) =~= rest);
            lemma_find_at(rest, kind.len() as int, ':');
            assert(rest.subrange(0, kind.len() as int) =~= kind);
            assert(rest.subrange(kind.len() as int, rest.len() as int) =~= feat);
            match noun_feature(n) {
                Some(f) => {
                    lemma_noun_feature_codes(f);
                },
                None => {},
            }
            match n {
                Noun::Plain(_) => {},
                Noun::Active(_) => {},
                Noun::Passive(_) => {
                    assert(kind != seq!['_', 'A', 'C', 'T']);
                },
                Noun::Proper(_) => {
                    assert(kind != seq!['_', 'A', 'C', 'T']);
                    assert(kind != seq!['_', 'P', 'A', 'S', 'S']) by {
                        assert(kind[2] != seq!['_', 'P', 'A', 'S', 'S'][2]);
                    }
                },
                Noun::Number(_) => {
                    assert(kind != seq!['_', 'A', 'C', 'T']) by {
                        assert(kind[1] != seq!['_', 'A', 'C', 'T'][1]);
                    }
                },
                Noun::Quantifier(_) => {},
            }
            assert(noun_of(rest) == Ok::<Noun, PosErrorV>(n));
        },
        PartOfSpeech::Verb(v) => {
            let head = seq!['V', 'E', 'R', 'B'];
            let rest = match v {
                Verb::Plain(f) => seq![':'] + verb_feature_code(f),
                Verb::Nominal(q) => seq!['_', 'N', 'O', 'M'] + match q {
                    None => Seq::empty(),
                    Some(_) => seq![':', 'P', 'H', 'R', 'A', 'S', 'E'],
                },
                Verb::Pseudo(q) => seq!['_', 'P', 'S', 'E', 'U', 'D', 'O'] + match q {
                    None => Seq::empty(),
                    Some(_) => seq![':', 'P', 'H', 'R', 'A', 'S', 'E'],
                },
            };
            assert(s =~= head + rest);
            lemma_find_pos_split_at(s, 0, 4);
            assert(s.subrange(0, 4) =~= head);
            assert(s.subrange(4, s.len() as int) =~= rest);
            match v {
                Verb::Plain(f) => {
                    lemma_find_at(rest, 0, ':');
                    assert(rest.subrange(0, 0) =~= Seq::<char>::empty());
                    assert(rest.subrange(0, rest.len() as int) =~= rest);
                    lemma_verb_feature_codes(f);
                    assert(verb_of(rest) == Ok::<Verb, PosErrorV>(v));
                },
                Verb::Nominal(q) => {
                    let pre = seq!['_', 'N', 'O', 'M'];
                    let tail = match q {
                        None => Seq::<char>::empty(),
                        Some(_) => seq![':', 'P', 'H', 'R', 'A', 'S', 'E'],
                    };
                    assert(rest =~= pre + tail);
                    lemma_find_at(rest, 4, ':');
                    assert(rest.subrange(0, 4) =~= pre);
                    assert(rest.subrange(4, rest.len() as int) =~= tail);
                    assert(tail.len() > 0 ==> tail.drop_first() =~= seq!['P', 'H', 'R', 'A', 'S', 'E']);
                    assert(find(rest, 0, ':') == pre.len());
                    assert(rest.subrange(0, find(rest, 0, ':')) == pre);
                    assert(rest.subrange(find(rest, 0, ':'), rest.len() as int) == tail);
                    match q {
                        None => assert(tail.len() == 0),
                        Some(x) => {
                            assert(tail[0] == ':');
                            assert(verb_phrase_of(tail) == Ok::<VerbPhrase, PosErrorV>(VerbPhrase));
                            assert(x == VerbPhrase);
                        },
                    }
                    assert(verb_of(rest) == Ok::<Verb, PosErrorV>(v));
                },
                Verb::Pseudo(q) => {
                    let pre = seq!['_', 'P', 'S', 'E', 'U', 'D', 'O'];
                    let tail = match q {
                        None => Seq::<char>::empty(),
                        Some(_) => seq![':', 'P', 'H', 'R', 'A', 'S', 'E'],
                    };
                    assert(rest =~= pre + tail);
                    lemma_find_at(rest, 7, ':');
                    assert(rest.subrange(0, 7) =~= pre);
                    assert(rest.subrange(7, rest.len() as int) =~= tail);
                    assert(tail.len() > 0 ==> tail.drop_first() =~= seq!['P', 'H', 'R', 'A', 'S', 'E']);
                    assert(find(rest, 0, ':') == pre.len());
                    assert(rest.subrange(0, find(rest, 0, ':')) == pre);
                    assert(rest.subrange(find(rest, 0, ':'), rest.len() as int) == tail);
                    match q {
                        None => assert(tail.len() == 0),
                        Some(x) => {
                            assert(tail[0] == ':');
                            assert(verb_phrase_of(tail) == Ok::<VerbPhrase, PosErrorV>(VerbPhrase));
                            assert(x == VerbPhrase);
                        },
                    }
                    assert(verb_of(rest) == Ok::<Verb, PosErrorV>(v));
                },
            }
        },
    }
}

/// The place of a noun feature in the order of the variants.
pub open spec fn noun_feature_rank(f: Option<NounFeature>) -> nat {
    match f {
        None => 0,
        Some(NounFeature::Singular) => 1,
        Some(NounFeature::MasculineSingular) => 2,
        Some(NounFeature::FeminineSingular) => 3,
        Some(NounFeature::Dual) => 4,
        Some(NounFeature::Plural) => 5,
        Some(NounFeature::MasculinePlural) => 6,
        Some(NounFeature::FemininePlural) => 7,
        Some(NounFeature::Phrase) => 8,
    }
}

pub open spec fn noun_rank(n: Noun) -> nat {
    match n {
        Noun::Plain(f) => noun_feature_rank(f),
        Noun::Active(f) => 9 + noun_feature_rank(f),
        Noun::Passive(f) => 18 + noun_feature_rank(f),
        Noun::Proper(f) => 27 + noun_feature_rank(f),
        Noun::Number(f) => 36 + noun_feature_rank(f),
        Noun::Quantifier(f) => 45 + noun_feature_rank(f),
    }
}

pub open spec fn verb_rank(v: Verb) -> nat {
    match v {
        Verb::Plain(VerbFeature::Perfective) => 0,
        Verb::Plain(VerbFeature::Command) => 1,
        Verb::Plain(VerbFeature::Imperfective) => 2,
        Verb::Plain(VerbFeature::Phrase) => 3,
        Verb::Nominal(None) => 4,
        Verb::Nominal(Some(_)) => 5,
        Verb::Pseudo(None) => 6,
        Verb::Pseudo(Some(_)) => 7,
    }
}

/// The place of an optional part of speech in the order that its derived
/// `Ord` gives: no part of speech first, then the nouns, then the verbs,
/// each by variant and then by feature.
pub open spec fn pos_rank(p: Option<PartOfSpeech>) -> nat {
    match p {
        None => 0,
        Some(PartOfSpeech::Noun(n)) => 1 + noun_rank(n),
        Some(PartOfSpeech::Verb(v)) => 55 + verb_rank(v),
    }
}

fn noun_feature_rank_exec(f: Option<NounFeature>) -> (r: u64)
    ensures
        r == noun_feature_rank(f),
{
    match f {
        None => 0,
        Some(NounFeature::Singular) => 1,
        Some(NounFeature::MasculineSingular) => 2,
        Some(NounFeature::FeminineSingular) => 3,
        Some(NounFeature::Dual) => 4,
        Some(NounFeature::Plural) => 5,
        Some(NounFeature::MasculinePlural) => 6,
        Some(NounFeature::FemininePlural) => 7,
        Some(NounFeature::Phrase) => 8,
    }
}

/// The place of an optional part of speech in the order of the derived
/// `Ord`, as a number.
pub fn pos_order(p: Option<PartOfSpeech>) -> (r: u64)
    ensures
        r == pos_rank(p),
        r < 63,
{
    match p {
        None => 0,
        Some(PartOfSpeech::Noun(n)) => 1 + match n {
            Noun::Plain(f) => noun_feature_rank_exec(f),
            Noun::Active(f) => 9 + noun_feature_rank_exec(f),
            Noun::Passive(f) => 18 + noun_feature_rank_exec(f),
            Noun::Proper(f) => 27 + noun_feature_rank_exec(f),
            Noun::Number(f) => 36 + noun_feature_rank_exec(f),
            Noun::Quantifier(f) => 45 + noun_feature_rank_exec(f),
        },
        Some(PartOfSpeech::Verb(v)) => 55 + match v {
            Verb::Plain(VerbFeature::Perfective) => 0,
            Verb::Plain(VerbFeature::Command) => 1,
            Verb::Plain(VerbFeature::Imperfective) => 2,
            Verb::Plain(VerbFeature::Phrase) => 3,
            Verb::Nominal(None) => 4,
            Verb::Nominal(Some(_)) => 5,
            Verb::Pseudo(None) => 6,
            Verb::Pseudo(Some(_)) => 7,
        },
    }
}

} // verus!
