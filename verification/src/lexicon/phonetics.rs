//! CAPHI++ transcriptions and their conversion to IPA.

use vstd::prelude::*;

use crate::text::{chars_eq, extend_from_range, find, find_char, lemma_find, slice_to_vec};

verus! {

/// A CAPHI++ phoneme: standard CAPHI, Maknuune's extensions, and the two
/// symbols `a.` and `aa.` that the dataset uses.
#[allow(non_camel_case_types)]
#[derive(Debug, Clone, Copy, PartialEq, Eq, Structural)]
pub enum Phoneme {
    _2,
    _3,
    _7,
    a,
    aa,
    b,
    b_dot,
    d,
    d_dot,
    dh,
    dh_dot,
    dj,
    dz,
    e,
    ee,
    f,
    ff,
    g,
    gh,
    gy,
    h,
    i,
    ii,
    j,
    k,
    kh,
    l,
    l_dot,
    m,
    m_dot,
    n,
    n_dot,
    o,
    oo,
    p,
    p_dot,
    q,
    qh,
    r,
    r_dot,
    s,
    s_dot,
    sh,
    t,
    t_dot,
    th,
    ts,
    tsh,
    u,
    uu,
    v,
    w,
    y,
    z,
    z_dot,
    hash,
    D,
    D_dot,
    J,
    K,
    Q,
    S,
    T,
    Z,
    Z_dot,
    a_dot,
    aa_dot,
}

/// The CAPHI++ symbol of a phoneme.
pub open spec fn caphipp_of(ph: Phoneme) -> Seq<char> {
    match ph {
        Phoneme::_2 => seq!['2'],
        Phoneme::_3 => seq!['3'],
        Phoneme::_7 => seq!['7'],
        Phoneme::a => seq!['a'],
        Phoneme::aa => seq!['a', 'a'],
        Phoneme::b => seq!['b'],
        Phoneme::b_dot => seq!['b', '.'],
        Phoneme::d => seq!['d'],
        Phoneme::d_dot => seq!['d', '.'],
        Phoneme::dh => seq!['d', 'h'],
        Phoneme::dh_dot => seq!['d', 'h', '.'],
        Phoneme::dj => seq!['d', 'j'],
        Phoneme::dz => seq!['d', 'z'],
        Phoneme::e => seq!['e'],
        Phoneme::ee => seq!['e', 'e'],
        Phoneme::f => seq!['f'],
        Phoneme::ff => seq!['f', 'f'],
        Phoneme::g => seq!['g'],
        Phoneme::gh => seq!['g', 'h'],
        Phoneme::gy => seq!['g', 'y'],
        Phoneme::h => seq!['h'],
        Phoneme::i => seq!['i'],
        Phoneme::ii => seq!['i', 'i'],
        Phoneme::j => seq!['j'],
        Phoneme::k => seq!['k'],
        Phoneme::kh => seq!['k', 'h'],
        Phoneme::l => seq!['l'],
        Phoneme::l_dot => seq!['l', '.'],
        Phoneme::m => seq!['m'],
        Phoneme::m_dot => seq!['m', '.'],
        Phoneme::n => seq!['n'],
        Phoneme::n_dot => seq!['n', '.'],
        Phoneme::o => seq!['o'],
        Phoneme::oo => seq!['o', 'o'],
        Phoneme::p => seq!['p'],
        Phoneme::p_dot => seq!['p', '.'],
        Phoneme::q => seq!['q'],
        Phoneme::qh => seq!['q', 'h'],
        Phoneme::r => seq!['r'],
        Phoneme::r_dot => seq!['r', '.'],
        Phoneme::s => seq!['s'],
        Phoneme::s_dot => seq!['s', '.'],
        Phoneme::sh => seq!['s', 'h'],
        Phoneme::t => seq!['t'],
        Phoneme::t_dot => seq!['t', '.'],
        Phoneme::th => seq!['t', 'h'],
        Phoneme::ts => seq!['t', 's'],
        Phoneme::tsh => seq!['t', 's', 'h'],
        Phoneme::u => seq!['u'],
        Phoneme::uu => seq!['u', 'u'],
        Phoneme::v => seq!['v'],
        Phoneme::w => seq!['w'],
        Phoneme::y => seq!['y'],
        Phoneme::z => seq!['z'],
        Phoneme::z_dot => seq!['z', '.'],
        Phoneme::hash => seq!['#'],
        Phoneme::D => seq!['D'],
        Phoneme::D_dot => seq!['D', '.'],
        Phoneme::J => seq!['J'],
        Phoneme::K => seq!['K'],
        Phoneme::Q => seq!['Q'],
        Phoneme::S => seq!['S'],
        Phoneme::T => seq!['T'],
        Phoneme::Z => seq!['Z'],
        Phoneme::Z_dot => seq!['Z', '.'],
        Phoneme::a_dot => seq!['a', '.'],
        Phoneme::aa_dot => seq!['a', 'a', '.'],
    }
}

/// The IPA rendering of a phoneme.
pub open spec fn ipa_of(ph: Phoneme) -> Seq<char> {
    match ph {
        Phoneme::_2 => seq!['\u{294}'],
        Phoneme::_3 => seq!['\u{295}'],
        Phoneme::_7 => seq!['\u{127}'],
        Phoneme::a => seq!['a'],
        Phoneme::aa => seq!['a', '\u{2d0}'],
        Phoneme::b => seq!['b'],
        Phoneme::b_dot => seq!['b', '\u{2e4}'],
        Phoneme::d => seq!['d'],
        Phoneme::d_dot => seq!['d', '\u{2e4}'],
        Phoneme::dh => seq!['\u{f0}'],
        Phoneme::dh_dot => seq!['\u{f0}', '\u{2e4}'],
        Phoneme::dj => seq!['d', '\u{292}'],
        Phoneme::dz => seq!['d', '\u{361}', 'z'],
        Phoneme::e => seq!['e'],
        Phoneme::ee => seq!['e', '\u{2d0}'],
        Phoneme::f => seq!['f'],
        Phoneme::ff => seq!['f', '\u{2e4}'],
        Phoneme::g => seq!['\u{261}'],
        Phoneme::gh => seq!['\u{263}'],
        Phoneme::gy => seq!['\u{261}', '\u{2b2}'],
        Phoneme::h => seq!['h'],
        Phoneme::i => seq!['i'],
        Phoneme::ii => seq!['i', '.'],
        Phoneme::j => seq!['\u{292}'],
        Phoneme::k => seq!['k'],
        Phoneme::kh => seq!['x'],
        Phoneme::l => seq!['l'],
        Phoneme::l_dot => seq!['l', '\u{2e4}'],
        Phoneme::m => seq!['m'],
        Phoneme::m_dot => seq!['m', '\u{2e4}'],
        Phoneme::n => seq!['n'],
        Phoneme::n_dot => seq!['n', '\u{2e4}'],
        Phoneme::o => seq!['o'],
        Phoneme::oo => seq!['o', '\u{2d0}'],
        Phoneme::p => seq!['p'],
        Phoneme::p_dot => seq!['p', '\u{2e4}'],
        Phoneme::q => seq!['q'],
        Phoneme::qh => seq!['\u{262}'],
        Phoneme::r => seq!['r'],
        Phoneme::r_dot => seq!['r', '\u{2e4}'],
        Phoneme::s => seq!['s'],
        Phoneme::s_dot => seq!['s', '\u{2e4}'],
        Phoneme::sh => seq!['\u{283}'],
        Phoneme::t => seq!['t'],
        Phoneme::t_dot => seq!['t', '\u{2e4}'],
        Phoneme::th => seq!['\u{3b8}'],
        Phoneme::ts => seq!['t', 's'],
        Phoneme::tsh => seq!['t', '\u{283}'],
        Phoneme::u => seq!['u'],
        Phoneme::uu => seq!['u', '\u{2d0}'],
        Phoneme::v => seq!['v'],
        Phoneme::w => seq!['w'],
        Phoneme::y => seq!['j'],
        Phoneme::z => seq!['z'],
        Phoneme::z_dot => seq!['z', '\u{2e4}'],
        Phoneme::hash => seq![' '],
        Phoneme::D => seq!['(', 'd', ')'],
        Phoneme::D_dot => seq!['(', 'd', '\u{2e4}', ')'],
        Phoneme::J => seq!['(', 'd', '\u{292}', ')'],
        Phoneme::K => seq!['(', 'k', ')'],
        Phoneme::Q => seq!['(', 'q', ')'],
        Phoneme::S => seq!['(', '\u{3b8}', ')'],
        Phoneme::T => seq!['(', 't', ')'],
        Phoneme::Z => seq!['(', '\u{f0}', ')'],
        Phoneme::Z_dot => seq!['(', '\u{f0}', '\u{2e4}', ')'],
        Phoneme::a_dot => seq!['\u{251}'],
        Phoneme::aa_dot => seq!['\u{251}', '\u{2d0}'],
    }
}

/// The phoneme that the CAPHI++ symbol `s` denotes, if any: the first in
/// declaration order whose symbol is `s`.
pub open spec fn phoneme_of(s: Seq<char>) -> Option<Phoneme> {
    if s == seq!['2'] {
        Some(Phoneme::_2)
    } else if s == seq!['3'] {
        Some(Phoneme::_3)
    } else if s == seq!['7'] {
        Some(Phoneme::_7)
    } else if s == seq!['a'] {
        Some(Phoneme::a)
    } else if s == seq!['a', 'a'] {
        Some(Phoneme::aa)
    } else if s == seq!['b'] {
        Some(Phoneme::b)
    } else if s == seq!['b', '.'] {
        Some(Phoneme::b_dot)
    } else if s == seq!['d'] {
        Some(Phoneme::d)
    } else if s == seq!['d', '.'] {
        Some(Phoneme::d_dot)
    } else if s == seq!['d', 'h'] {
        Some(Phoneme::dh)
    } else if s == seq!['d', 'h', '.'] {
        Some(Phoneme::dh_dot)
    } else if s == seq!['d', 'j'] {
        Some(Phoneme::dj)
    } else if s == seq!['d', 'z'] {
        Some(Phoneme::dz)
    } else if s == seq!['e'] {
        Some(Phoneme::e)
    } else if s == seq!['e', 'e'] {
        Some(Phoneme::ee)
    } else if s == seq!['f'] {
        Some(Phoneme::f)
    } else if s == seq!['f', 'f'] {
        Some(Phoneme::ff)
    } else if s == seq!['g'] {
        Some(Phoneme::g)
    } else if s == seq!['g', 'h'] {
        Some(Phoneme::gh)
    } else if s == seq!['g', 'y'] {
        Some(Phoneme::gy)
    } else if s == seq!['h'] {
        Some(Phoneme::h)
    } else if s == seq!['i'] {
        Some(Phoneme::i)
    } else if s == seq!['i', 'i'] {
        Some(Phoneme::ii)
    } else if s == seq!['j'] {
        Some(Phoneme::j)
    } else if s == seq!['k'] {
        Some(Phoneme::k)
    } else if s == seq!['k', 'h'] {
        Some(Phoneme::kh)
    } else if s == seq!['l'] {
        Some(Phoneme::l)
    } else if s == seq!['l', '.'] {
        Some(Phoneme::l_dot)
    } else if s == seq!['m'] {
        Some(Phoneme::m)
    } else if s == seq!['m', '.'] {
        Some(Phoneme::m_dot)
    } else if s == seq!['n'] {
        Some(Phoneme::n)
    } else if s == seq!['n', '.'] {
        Some(Phoneme::n_dot)
    } else if s == seq!['o'] {
        Some(Phoneme::o)
    } else if s == seq!['o', 'o'] {
        Some(Phoneme::oo)
    } else if s == seq!['p'] {
        Some(Phoneme::p)
    } else if s == seq!['p', '.'] {
        Some(Phoneme::p_dot)
    } else if s == seq!['q'] {
        Some(Phoneme::q)
    } else if s == seq!['q', 'h'] {
        Some(Phoneme::qh)
    } else if s == seq!['r'] {
        Some(Phoneme::r)
    } else if s == seq!['r', '.'] {
        Some(Phoneme::r_dot)
    } else if s == seq!['s'] {
        Some(Phoneme::s)
    } else if s == seq!['s', '.'] {
        Some(Phoneme::s_dot)
    } else if s == seq!['s', 'h'] {
        Some(Phoneme::sh)
    } else if s == seq!['t'] {
        Some(Phoneme::t)
    } else if s == seq!['t', '.'] {
        Some(Phoneme::t_dot)
    } else if s == seq!['t', 'h'] {
        Some(Phoneme::th)
    } else if s == seq!['t', 's'] {
        Some(Phoneme::ts)
    } else if s == seq!['t', 's', 'h'] {
        Some(Phoneme::tsh)
    } else if s == seq!['u'] {
        Some(Phoneme::u)
    } else if s == seq!['u', 'u'] {
        Some(Phoneme::uu)
    } else if s == seq!['v'] {
        Some(Phoneme::v)
    } else if s == seq!['w'] {
        Some(Phoneme::w)
    } else if s == seq!['y'] {
        Some(Phoneme::y)
    } else if s == seq!['z'] {
        Some(Phoneme::z)
    } else if s == seq!['z', '.'] {
        Some(Phoneme::z_dot)
    } else if s == seq!['#'] {
        Some(Phoneme::hash)
    } else if s == seq!['D'] {
        Some(Phoneme::D)
    } else if s == seq!['D', '.'] {
        Some(Phoneme::D_dot)
    } else if s == seq!['J'] {
        Some(Phoneme::J)
    } else if s == seq!['K'] {
        Some(Phoneme::K)
    } else if s == seq!['Q'] {
        Some(Phoneme::Q)
    } else if s == seq!['S'] {
        Some(Phoneme::S)
    } else if s == seq!['T'] {
        Some(Phoneme::T)
    } else if s == seq!['Z'] {
        Some(Phoneme::Z)
    } else if s == seq!['Z', '.'] {
        Some(Phoneme::Z_dot)
    } else if s == seq!['a', '.'] {
        Some(Phoneme::a_dot)
    } else if s == seq!['a', 'a', '.'] {
        Some(Phoneme::aa_dot)
    } else {
        None
    }
}

impl Phoneme {
    /// The phoneme whose CAPHI++ symbol is `value`.
    pub fn try_from(value: &Vec<char>) -> (res: Option<Phoneme>)
        ensures
            res == phoneme_of(value@),
    {
        let lit_0 = ['2'];
        assert(lit_0@ =~= seq!['2']);
        if chars_eq(value, &lit_0) {
            return Some(Phoneme::_2);
        }
        let lit_1 = ['3'];
        assert(lit_1@ =~= seq!['3']);
        if chars_eq(value, &lit_1) {
            return Some(Phoneme::_3);
        }
        let lit_2 = ['7'];
        assert(lit_2@ =~= seq!['7']);
        if chars_eq(value, &lit_2) {
            return Some(Phoneme::_7);
        }
        let lit_3 = ['a'];
        assert(lit_3@ =~= seq!['a']);
        if chars_eq(value, &lit_3) {
            return Some(Phoneme::a);
        }
        let lit_4 = ['a', 'a'];
        assert(lit_4@ =~= seq!['a', 'a']);
        if chars_eq(value, &lit_4) {
            return Some(Phoneme::aa);
        }
        let lit_5 = ['b'];
        assert(lit_5@ =~= seq!['b']);
        if chars_eq(value, &lit_5) {
            return Some(Phoneme::b);
        }
        let lit_6 = ['b', '.'];
        assert(lit_6@ =~= seq!['b', '.']);
        if chars_eq(value, &lit_6) {
            return Some(Phoneme::b_dot);
        }
        let lit_7 = ['d'];
        assert(lit_7@ =~= seq!['d']);
        if chars_eq(value, &lit_7) {
            return Some(Phoneme::d);
        }
        let lit_8 = ['d', '.'];
        assert(lit_8@ =~= seq!['d', '.']);
        if chars_eq(value, &lit_8) {
            return Some(Phoneme::d_dot);
        }
        let lit_9 = ['d', 'h'];
        assert(lit_9@ =~= seq!['d', 'h']);
        if chars_eq(value, &lit_9) {
            return Some(Phoneme::dh);
        }
        let lit_10 = ['d', 'h', '.'];
        assert(lit_10@ =~= seq!['d', 'h', '.']);
        if chars_eq(value, &lit_10) {
            return Some(Phoneme::dh_dot);
        }
        let lit_11 = ['d', 'j'];
        assert(lit_11@ =~= seq!['d', 'j']);
        if chars_eq(value, &lit_11) {
            return Some(Phoneme::dj);
        }
        let lit_12 = ['d', 'z'];
        assert(lit_12@ =~= seq!['d', 'z']);
        if chars_eq(value, &lit_12) {
            return Some(Phoneme::dz);
        }
        let lit_13 = ['e'];
        assert(lit_13@ =~= seq!['e']);
        if chars_eq(value, &lit_13) {
            return Some(Phoneme::e);
        }
        let lit_14 = ['e', 'e'];
        assert(lit_14@ =~= seq!['e', 'e']);
        if chars_eq(value, &lit_14) {
            return Some(Phoneme::ee);
        }
        let lit_15 = ['f'];
        assert(lit_15@ =~= seq!['f']);
        if chars_eq(value, &lit_15) {
            return Some(Phoneme::f);
        }
        let lit_16 = ['f', 'f'];
        assert(lit_16@ =~= seq!['f', 'f']);
        if chars_eq(value, &lit_16) {
            return Some(Phoneme::ff);
        }
        let lit_17 = ['g'];
        assert(lit_17@ =~= seq!['g']);
        if chars_eq(value, &lit_17) {
            return Some(Phoneme::g);
        }
        let lit_18 = ['g', 'h'];
        assert(lit_18@ =~= seq!['g', 'h']);
        if chars_eq(value, &lit_18) {
            return Some(Phoneme::gh);
        }
        let lit_19 = ['g', 'y'];
        assert(lit_19@ =~= seq!['g', 'y']);
        if chars_eq(value, &lit_19) {
            return Some(Phoneme::gy);
        }
        let lit_20 = ['h'];
        assert(lit_20@ =~= seq!['h']);
        if chars_eq(value, &lit_20) {
            return Some(Phoneme::h);
        }
        let lit_21 = ['i'];
        assert(lit_21@ =~= seq!['i']);
        if chars_eq(value, &lit_21) {
            return Some(Phoneme::i);
        }
        let lit_22 = ['i', 'i'];
        assert(lit_22@ =~= seq!['i', 'i']);
        if chars_eq(value, &lit_22) {
            return Some(Phoneme::ii);
        }
        let lit_23 = ['j'];
        assert(lit_23@ =~= seq!['j']);
        if chars_eq(value, &lit_23) {
            return Some(Phoneme::j);
        }
        let lit_24 = ['k'];
        assert(lit_24@ =~= seq!['k']);
        if chars_eq(value, &lit_24) {
            return Some(Phoneme::k);
        }
        let lit_25 = ['k', 'h'];
        assert(lit_25@ =~= seq!['k', 'h']);
        if chars_eq(value, &lit_25) {
            return Some(Phoneme::kh);
        }
        let lit_26 = ['l'];
        assert(lit_26@ =~= seq!['l']);
        if chars_eq(value, &lit_26) {
            return Some(Phoneme::l);
        }
        let lit_27 = ['l', '.'];
        assert(lit_27@ =~= seq!['l', '.']);
        if chars_eq(value, &lit_27) {
            return Some(Phoneme::l_dot);
        }
        let lit_28 = ['m'];
        assert(lit_28@ =~= seq!['m']);
        if chars_eq(value, &lit_28) {
            return Some(Phoneme::m);
        }
        let lit_29 = ['m', '.'];
        assert(lit_29@ =~= seq!['m', '.']);
        if chars_eq(value, &lit_29) {
            return Some(Phoneme::m_dot);
        }
        let lit_30 = ['n'];
        assert(lit_30@ =~= seq!['n']);
        if chars_eq(value, &lit_30) {
            return Some(Phoneme::n);
        }
        let lit_31 = ['n', '.'];
        assert(lit_31@ =~= seq!['n', '.']);
        if chars_eq(value, &lit_31) {
            return Some(Phoneme::n_dot);
        }
        let lit_32 = ['o'];
        assert(lit_32@ =~= seq!['o']);
        if chars_eq(value, &lit_32) {
            return Some(Phoneme::o);
        }
        let lit_33 = ['o', 'o'];
        assert(lit_33@ =~= seq!['o', 'o']);
        if chars_eq(value, &lit_33) {
            return Some(Phoneme::oo);
        }
        let lit_34 = ['p'];
        assert(lit_34@ =~= seq!['p']);
        if chars_eq(value, &lit_34) {
            return Some(Phoneme::p);
        }
        let lit_35 = ['p', '.'];
        assert(lit_35@ =~= seq!['p', '.']);
        if chars_eq(value, &lit_35) {
            return Some(Phoneme::p_dot);
        }
        let lit_36 = ['q'];
        assert(lit_36@ =~= seq!['q']);
        if chars_eq(value, &lit_36) {
            return Some(Phoneme::q);
        }
        let lit_37 = ['q', 'h'];
        assert(lit_37@ =~= seq!['q', 'h']);
        if chars_eq(value, &lit_37) {
            return Some(Phoneme::qh);
        }
        let lit_38 = ['r'];
        assert(lit_38@ =~= seq!['r']);
        if chars_eq(value, &lit_38) {
            return Some(Phoneme::r);
        }
        let lit_39 = ['r', '.'];
        assert(lit_39@ =~= seq!['r', '.']);
        if chars_eq(value, &lit_39) {
            return Some(Phoneme::r_dot);
        }
        let lit_40 = ['s'];
        assert(lit_40@ =~= seq!['s']);
        if chars_eq(value, &lit_40) {
            return Some(Phoneme::s);
        }
        let lit_41 = ['s', '.'];
        assert(lit_41@ =~= seq!['s', '.']);
        if chars_eq(value, &lit_41) {
            return Some(Phoneme::s_dot);
        }
        let lit_42 = ['s', 'h'];
        assert(lit_42@ =~= seq!['s', 'h']);
        if chars_eq(value, &lit_42) {
            return Some(Phoneme::sh);
        }
        let lit_43 = ['t'];
        assert(lit_43@ =~= seq!['t']);
        if chars_eq(value, &lit_43) {
            return Some(Phoneme::t);
        }
        let lit_44 = ['t', '.'];
        assert(lit_44@ =~= seq!['t', '.']);
        if chars_eq(value, &lit_44) {
            return Some(Phoneme::t_dot);
        }
        let lit_45 = ['t', 'h'];
        assert(lit_45@ =~= seq!['t', 'h']);
        if chars_eq(value, &lit_45) {
            return Some(Phoneme::th);
        }
        let lit_46 = ['t', 's'];
        assert(lit_46@ =~= seq!['t', 's']);
        if chars_eq(value, &lit_46) {
            return Some(Phoneme::ts);
        }
        let lit_47 = ['t', 's', 'h'];
        assert(lit_47@ =~= seq!['t', 's', 'h']);
        if chars_eq(value, &lit_47) {
            return Some(Phoneme::tsh);
        }
        let lit_48 = ['u'];
        assert(lit_48@ =~= seq!['u']);
        if chars_eq(value, &lit_48) {
            return Some(Phoneme::u);
        }
        let lit_49 = ['u', 'u'];
        assert(lit_49@ =~= seq!['u', 'u']);
        if chars_eq(value, &lit_49) {
            return Some(Phoneme::uu);
        }
        let lit_50 = ['v'];
        assert(lit_50@ =~= seq!['v']);
        if chars_eq(value, &lit_50) {
            return Some(Phoneme::v);
        }
        let lit_51 = ['w'];
        assert(lit_51@ =~= seq!['w']);
        if chars_eq(value, &lit_51) {
            return Some(Phoneme::w);
        }
        let lit_52 = ['y'];
        assert(lit_52@ =~= seq!['y']);
        if chars_eq(value, &lit_52) {
            return Some(Phoneme::y);
        }
        let lit_53 = ['z'];
        assert(lit_53@ =~= seq!['z']);
        if chars_eq(value, &lit_53) {
            return Some(Phoneme::z);
        }
        let lit_54 = ['z', '.'];
        assert(lit_54@ =~= seq!['z', '.']);
        if chars_eq(value, &lit_54) {
            return Some(Phoneme::z_dot);
        }
        let lit_55 = ['#'];
        assert(lit_55@ =~= seq!['#']);
        if chars_eq(value, &lit_55) {
            return Some(Phoneme::hash);
        }
        let lit_56 = ['D'];
        assert(lit_56@ =~= seq!['D']);
        if chars_eq(value, &lit_56) {
            return Some(Phoneme::D);
        }
        let lit_57 = ['D', '.'];
        assert(lit_57@ =~= seq!['D', '.']);
        if chars_eq(value, &lit_57) {
            return Some(Phoneme::D_dot);
        }
        let lit_58 = ['J'];
        assert(lit_58@ =~= seq!['J']);
        if chars_eq(value, &lit_58) {
            return Some(Phoneme::J);
        }
        let lit_59 = ['K'];
        assert(lit_59@ =~= seq!['K']);
        if chars_eq(value, &lit_59) {
            return Some(Phoneme::K);
        }
        let lit_60 = ['Q'];
        assert(lit_60@ =~= seq!['Q']);
        if chars_eq(value, &lit_60) {
            return Some(Phoneme::Q);
        }
        let lit_61 = ['S'];
        assert(lit_61@ =~= seq!['S']);
        if chars_eq(value, &lit_61) {
            return Some(Phoneme::S);
        }
        let lit_62 = ['T'];
        assert(lit_62@ =~= seq!['T']);
        if chars_eq(value, &lit_62) {
            return Some(Phoneme::T);
        }
        let lit_63 = ['Z'];
        assert(lit_63@ =~= seq!['Z']);
        if chars_eq(value, &lit_63) {
            return Some(Phoneme::Z);
        }
        let lit_64 = ['Z', '.'];
        assert(lit_64@ =~= seq!['Z', '.']);
        if chars_eq(value, &lit_64) {
            return Some(Phoneme::Z_dot);
        }
        let lit_65 = ['a', '.'];
        assert(lit_65@ =~= seq!['a', '.']);
        if chars_eq(value, &lit_65) {
            return Some(Phoneme::a_dot);
        }
        let lit_66 = ['a', 'a', '.'];
        assert(lit_66@ =~= seq!['a', 'a', '.']);
        if chars_eq(value, &lit_66) {
            return Some(Phoneme::aa_dot);
        }
        None
    }

    /// The CAPHI++ symbol of the phoneme.
    pub fn to_caphipp(self) -> (s: Vec<char>)
        ensures
            s@ == caphipp_of(self),
    {
        match self {
            Phoneme::_2 => vec!['2'],
            Phoneme::_3 => vec!['3'],
            Phoneme::_7 => vec!['7'],
            Phoneme::a => vec!['a'],
            Phoneme::aa => vec!['a', 'a'],
            Phoneme::b => vec!['b'],
            Phoneme::b_dot => vec!['b', '.'],
            Phoneme::d => vec!['d'],
            Phoneme::d_dot => vec!['d', '.'],
            Phoneme::dh => vec!['d', 'h'],
            Phoneme::dh_dot => vec!['d', 'h', '.'],
            Phoneme::dj => vec!['d', 'j'],
            Phoneme::dz => vec!['d', 'z'],
            Phoneme::e => vec!['e'],
            Phoneme::ee => vec!['e', 'e'],
            Phoneme::f => vec!['f'],
            Phoneme::ff => vec!['f', 'f'],
            Phoneme::g => vec!['g'],
            Phoneme::gh => vec!['g', 'h'],
            Phoneme::gy => vec!['g', 'y'],
            Phoneme::h => vec!['h'],
            Phoneme::i => vec!['i'],
            Phoneme::ii => vec!['i', 'i'],
            Phoneme::j => vec!['j'],
            Phoneme::k => vec!['k'],
            Phoneme::kh => vec!['k', 'h'],
            Phoneme::l => vec!['l'],
            Phoneme::l_dot => vec!['l', '.'],
            Phoneme::m => vec!['m'],
            Phoneme::m_dot => vec!['m', '.'],
            Phoneme::n => vec!['n'],
            Phoneme::n_dot => vec!['n', '.'],
            Phoneme::o => vec!['o'],
            Phoneme::oo => vec!['o', 'o'],
            Phoneme::p => vec!['p'],
            Phoneme::p_dot => vec!['p', '.'],
            Phoneme::q => vec!['q'],
            Phoneme::qh => vec!['q', 'h'],
            Phoneme::r => vec!['r'],
            Phoneme::r_dot => vec!['r', '.'],
            Phoneme::s => vec!['s'],
            Phoneme::s_dot => vec!['s', '.'],
            Phoneme::sh => vec!['s', 'h'],
            Phoneme::t => vec!['t'],
            Phoneme::t_dot => vec!['t', '.'],
            Phoneme::th => vec!['t', 'h'],
            Phoneme::ts => vec!['t', 's'],
            Phoneme::tsh => vec!['t', 's', 'h'],
            Phoneme::u => vec!['u'],
            Phoneme::uu => vec!['u', 'u'],
            Phoneme::v => vec!['v'],
            Phoneme::w => vec!['w'],
            Phoneme::y => vec!['y'],
            Phoneme::z => vec!['z'],
            Phoneme::z_dot => vec!['z', '.'],
            Phoneme::hash => vec!['#'],
            Phoneme::D => vec!['D'],
            Phoneme::D_dot => vec!['D', '.'],
            Phoneme::J => vec!['J'],
            Phoneme::K => vec!['K'],
            Phoneme::Q => vec!['Q'],
            Phoneme::S => vec!['S'],
            Phoneme::T => vec!['T'],
            Phoneme::Z => vec!['Z'],
            Phoneme::Z_dot => vec!['Z', '.'],
            Phoneme::a_dot => vec!['a', '.'],
            Phoneme::aa_dot => vec!['a', 'a', '.'],
        }
    }

    /// The IPA rendering of the phoneme.
    pub fn to_ipa(self) -> (s: Vec<char>)
        ensures
            s@ == ipa_of(self),
    {
        match self {
            Phoneme::_2 => vec!['\u{294}'],
            Phoneme::_3 => vec!['\u{295}'],
            Phoneme::_7 => vec!['\u{127}'],
            Phoneme::a => vec!['a'],
            Phoneme::aa => vec!['a', '\u{2d0}'],
            Phoneme::b => vec!['b'],
            Phoneme::b_dot => vec!['b', '\u{2e4}'],
            Phoneme::d => vec!['d'],
            Phoneme::d_dot => vec!['d', '\u{2e4}'],
            Phoneme::dh => vec!['\u{f0}'],
            Phoneme::dh_dot => vec!['\u{f0}', '\u{2e4}'],
            Phoneme::dj => vec!['d', '\u{292}'],
            Phoneme::dz => vec!['d', '\u{361}', 'z'],
            Phoneme::e => vec!['e'],
            Phoneme::ee => vec!['e', '\u{2d0}'],
            Phoneme::f => vec!['f'],
            Phoneme::ff => vec!['f', '\u{2e4}'],
            Phoneme::g => vec!['\u{261}'],
            Phoneme::gh => vec!['\u{263}'],
            Phoneme::gy => vec!['\u{261}', '\u{2b2}'],
            Phoneme::h => vec!['h'],
            Phoneme::i => vec!['i'],
            Phoneme::ii => vec!['i', '.'],
            Phoneme::j => vec!['\u{292}'],
            Phoneme::k => vec!['k'],
            Phoneme::kh => vec!['x'],
            Phoneme::l => vec!['l'],
            Phoneme::l_dot => vec!['l', '\u{2e4}'],
            Phoneme::m => vec!['m'],
            Phoneme::m_dot => vec!['m', '\u{2e4}'],
            Phoneme::n => vec!['n'],
            Phoneme::n_dot => vec!['n', '\u{2e4}'],
            Phoneme::o => vec!['o'],
            Phoneme::oo => vec!['o', '\u{2d0}'],
            Phoneme::p => vec!['p'],
            Phoneme::p_dot => vec!['p', '\u{2e4}'],
            Phoneme::q => vec!['q'],
            Phoneme::qh => vec!['\u{262}'],
            Phoneme::r => vec!['r'],
            Phoneme::r_dot => vec!['r', '\u{2e4}'],
            Phoneme::s => vec!['s'],
            Phoneme::s_dot => vec!['s', '\u{2e4}'],
            Phoneme::sh => vec!['\u{283}'],
            Phoneme::t => vec!['t'],
            Phoneme::t_dot => vec!['t', '\u{2e4}'],
            Phoneme::th => vec!['\u{3b8}'],
            Phoneme::ts => vec!['t', 's'],
            Phoneme::tsh => vec!['t', '\u{283}'],
            Phoneme::u => vec!['u'],
            Phoneme::uu => vec!['u', '\u{2d0}'],
            Phoneme::v => vec!['v'],
            Phoneme::w => vec!['w'],
            Phoneme::y => vec!['j'],
            Phoneme::z => vec!['z'],
            Phoneme::z_dot => vec!['z', '\u{2e4}'],
            Phoneme::hash => vec![' '],
            Phoneme::D => vec!['(', 'd', ')'],
            Phoneme::D_dot => vec!['(', 'd', '\u{2e4}', ')'],
            Phoneme::J => vec!['(', 'd', '\u{292}', ')'],
            Phoneme::K => vec!['(', 'k', ')'],
            Phoneme::Q => vec!['(', 'q', ')'],
            Phoneme::S => vec!['(', '\u{3b8}', ')'],
            Phoneme::T => vec!['(', 't', ')'],
            Phoneme::Z => vec!['(', '\u{f0}', ')'],
            Phoneme::Z_dot => vec!['(', '\u{f0}', '\u{2e4}', ')'],
            Phoneme::a_dot => vec!['\u{251}'],
            Phoneme::aa_dot => vec!['\u{251}', '\u{2d0}'],
        }
    }
}

proof fn lemma_caphipp_roundtrip_0(ph: Phoneme)
    requires
        ph == Phoneme::_2 || ph == Phoneme::_3 || ph == Phoneme::_7 || ph == Phoneme::a || ph == Phoneme::aa || ph == Phoneme::b,
    ensures
        phoneme_of(caphipp_of(ph)) == Some(ph),
{
    let s = caphipp_of(ph);
    if ph == Phoneme::_2 {
        assert(s.len() == 1 && s[0] == '2');
    }
    if ph == Phoneme::_3 {
        assert(s.len() == 1 && s[0] == '3');
    }
    if ph == Phoneme::_7 {
        assert(s.len() == 1 && s[0] == '7');
    }
    if ph == Phoneme::a {
        assert(s.len() == 1 && s[0] == 'a');
    }
    if ph == Phoneme::aa {
        assert(s.len() == 2 && s[0] == 'a' && s[1] == 'a');
    }
    if ph == Phoneme::b {
        assert(s.len() == 1 && s[0] == 'b');
    }
}

proof fn lemma_caphipp_roundtrip_1(ph: Phoneme)
    requires
        ph == Phoneme::b_dot || ph == Phoneme::d || ph == Phoneme::d_dot || ph == Phoneme::dh || ph == Phoneme::dh_dot || ph == Phoneme::dj,
    ensures
        phoneme_of(caphipp_of(ph)) == Some(ph),
{
    let s = caphipp_of(ph);
    if ph == Phoneme::b_dot {
        assert(s.len() == 2 && s[0] == 'b' && s[1] == '.');
    }
    if ph == Phoneme::d {
        assert(s.len() == 1 && s[0] == 'd');
    }
    if ph == Phoneme::d_dot {
        assert(s.len() == 2 && s[0] == 'd' && s[1] == '.');
    }
    if ph == Phoneme::dh {
        assert(s.len() == 2 && s[0] == 'd' && s[1] == 'h');
    }
    if ph == Phoneme::dh_dot {
        assert(s.len() == 3 && s[0] == 'd' && s[1] == 'h' && s[2] == '.');
    }
    if ph == Phoneme::dj {
        assert(s.len() == 2 && s[0] == 'd' && s[1] == 'j');
    }
}

proof fn lemma_caphipp_roundtrip_2(ph: Phoneme)
    requires
        ph == Phoneme::dz || ph == Phoneme::e || ph == Phoneme::ee || ph == Phoneme::f || ph == Phoneme::ff || ph == Phoneme::g,
    ensures
        phoneme_of(caphipp_of(ph)) == Some(ph),
{
    let s = caphipp_of(ph);
    if ph == Phoneme::dz {
        assert(s.len() == 2 && s[0] == 'd' && s[1] == 'z');
    }
    if ph == Phoneme::e {
        assert(s.len() == 1 && s[0] == 'e');
    }
    if ph == Phoneme::ee {
        assert(s.len() == 2 && s[0] == 'e' && s[1] == 'e');
    }
    if ph == Phoneme::f {
        assert(s.len() == 1 && s[0] == 'f');
    }
    if ph == Phoneme::ff {
        assert(s.len() == 2 && s[0] == 'f' && s[1] == 'f');
    }
    if ph == Phoneme::g {
        assert(s.len() == 1 && s[0] == 'g');
    }
}

proof fn lemma_caphipp_roundtrip_3(ph: Phoneme)
    requires
        ph == Phoneme::gh || ph == Phoneme::gy || ph == Phoneme::h || ph == Phoneme::i || ph == Phoneme::ii || ph == Phoneme::j,
    ensures
        phoneme_of(caphipp_of(ph)) == Some(ph),
{
    let s = caphipp_of(ph);
    if ph == Phoneme::gh {
        assert(s.len() == 2 && s[0] == 'g' && s[1] == 'h');
    }
    if ph == Phoneme::gy {
        assert(s.len() == 2 && s[0] == 'g' && s[1] == 'y');
    }
    if ph == Phoneme::h {
        assert(s.len() == 1 && s[0] == 'h');
    }
    if ph == Phoneme::i {
        assert(s.len() == 1 && s[0] == 'i');
    }
    if ph == Phoneme::ii {
        assert(s.len() == 2 && s[0] == 'i' && s[1] == 'i');
    }
    if ph == Phoneme::j {
        assert(s.len() == 1 && s[0] == 'j');
    }
}

proof fn lemma_caphipp_roundtrip_4(ph: Phoneme)
    requires
        ph == Phoneme::k || ph == Phoneme::kh || ph == Phoneme::l || ph == Phoneme::l_dot || ph == Phoneme::m || ph == Phoneme::m_dot,
    ensures
        phoneme_of(caphipp_of(ph)) == Some(ph),
{
    let s = caphipp_of(ph);
    if ph == Phoneme::k {
        assert(s.len() == 1 && s[0] == 'k');
    }
    if ph == Phoneme::kh {
        assert(s.len() == 2 && s[0] == 'k' && s[1] == 'h');
    }
    if ph == Phoneme::l {
        assert(s.len() == 1 && s[0] == 'l');
    }
    if ph == Phoneme::l_dot {
        assert(s.len() == 2 && s[0] == 'l' && s[1] == '.');
    }
    if ph == Phoneme::m {
        assert(s.len() == 1 && s[0] == 'm');
    }
    if ph == Phoneme::m_dot {
        assert(s.len() == 2 && s[0] == 'm' && s[1] == '.');
    }
}

proof fn lemma_caphipp_roundtrip_5(ph: Phoneme)
    requires
        ph == Phoneme::n || ph == Phoneme::n_dot || ph == Phoneme::o || ph == Phoneme::oo || ph == Phoneme::p || ph == Phoneme::p_dot,
    ensures
        phoneme_of(caphipp_of(ph)) == Some(ph),
{
    let s = caphipp_of(ph);
    if ph == Phoneme::n {
        assert(s.len() == 1 && s[0] == 'n');
    }
    if ph == Phoneme::n_dot {
        assert(s.len() == 2 && s[0] == 'n' && s[1] == '.');
    }
    if ph == Phoneme::o {
        assert(s.len() == 1 && s[0] == 'o');
    }
    if ph == Phoneme::oo {
        assert(s.len() == 2 && s[0] == 'o' && s[1] == 'o');
    }
    if ph == Phoneme::p {
        assert(s.len() == 1 && s[0] == 'p');
    }
    if ph == Phoneme::p_dot {
        assert(s.len() == 2 && s[0] == 'p' && s[1] == '.');
    }
}

proof fn lemma_caphipp_roundtrip_6(ph: Phoneme)
    requires
        ph == Phoneme::q || ph == Phoneme::qh || ph == Phoneme::r || ph == Phoneme::r_dot || ph == Phoneme::s || ph == Phoneme::s_dot,
    ensures
        phoneme_of(caphipp_of(ph)) == Some(ph),
{
    let s = caphipp_of(ph);
    if ph == Phoneme::q {
        assert(s.len() == 1 && s[0] == 'q');
    }
    if ph == Phoneme::qh {
        assert(s.len() == 2 && s[0] == 'q' && s[1] == 'h');
    }
    if ph == Phoneme::r {
        assert(s.len() == 1 && s[0] == 'r');
    }
    if ph == Phoneme::r_dot {
        assert(s.len() == 2 && s[0] == 'r' && s[1] == '.');
    }
    if ph == Phoneme::s {
        assert(s.len() == 1 && s[0] == 's');
    }
    if ph == Phoneme::s_dot {
        assert(s.len() == 2 && s[0] == 's' && s[1] == '.');
    }
}

proof fn lemma_caphipp_roundtrip_7(ph: Phoneme)
    requires
        ph == Phoneme::sh || ph == Phoneme::t || ph == Phoneme::t_dot || ph == Phoneme::th || ph == Phoneme::ts || ph == Phoneme::tsh,
    ensures
        phoneme_of(caphipp_of(ph)) == Some(ph),
{
    let s = caphipp_of(ph);
    if ph == Phoneme::sh {
        assert(s.len() == 2 && s[0] == 's' && s[1] == 'h');
    }
    if ph == Phoneme::t {
        assert(s.len() == 1 && s[0] == 't');
    }
    if ph == Phoneme::t_dot {
        assert(s.len() == 2 && s[0] == 't' && s[1] == '.');
    }
    if ph == Phoneme::th {
        assert(s.len() == 2 && s[0] == 't' && s[1] == 'h');
    }
    if ph == Phoneme::ts {
        assert(s.len() == 2 && s[0] == 't' && s[1] == 's');
    }
    if ph == Phoneme::tsh {
        assert(s.len() == 3 && s[0] == 't' && s[1] == 's' && s[2] == 'h');
    }
}

proof fn lemma_caphipp_roundtrip_8(ph: Phoneme)
    requires
        ph == Phoneme::u || ph == Phoneme::uu || ph == Phoneme::v || ph == Phoneme::w || ph == Phoneme::y || ph == Phoneme::z,
    ensures
        phoneme_of(caphipp_of(ph)) == Some(ph),
{
    let s = caphipp_of(ph);
    if ph == Phoneme::u {
        assert(s.len() == 1 && s[0] == 'u');
    }
    if ph == Phoneme::uu {
        assert(s.len() == 2 && s[0] == 'u' && s[1] == 'u');
    }
    if ph == Phoneme::v {
        assert(s.len() == 1 && s[0] == 'v');
    }
    if ph == Phoneme::w {
        assert(s.len() == 1 && s[0] == 'w');
    }
    if ph == Phoneme::y {
        assert(s.len() == 1 && s[0] == 'y');
    }
    if ph == Phoneme::z {
        assert(s.len() == 1 && s[0] == 'z');
    }
}

proof fn lemma_caphipp_roundtrip_9(ph: Phoneme)
    requires
        ph == Phoneme::z_dot || ph == Phoneme::hash || ph == Phoneme::D || ph == Phoneme::D_dot || ph == Phoneme::J || ph == Phoneme::K,
    ensures
        phoneme_of(caphipp_of(ph)) == Some(ph),
{
    let s = caphipp_of(ph);
    if ph == Phoneme::z_dot {
        assert(s.len() == 2 && s[0] == 'z' && s[1] == '.');
    }
    if ph == Phoneme::hash {
        assert(s.len() == 1 && s[0] == '#');
    }
    if ph == Phoneme::D {
        assert(s.len() == 1 && s[0] == 'D');
    }
    if ph == Phoneme::D_dot {
        assert(s.len() == 2 && s[0] == 'D' && s[1] == '.');
    }
    if ph == Phoneme::J {
        assert(s.len() == 1 && s[0] == 'J');
    }
    if ph == Phoneme::K {
        assert(s.len() == 1 && s[0] == 'K');
    }
}

proof fn lemma_caphipp_roundtrip_10(ph: Phoneme)
    requires
        ph == Phoneme::Q || ph == Phoneme::S || ph == Phoneme::T || ph == Phoneme::Z || ph == Phoneme::Z_dot || ph == Phoneme::a_dot,
    ensures
        phoneme_of(caphipp_of(ph)) == Some(ph),
{
    let s = caphipp_of(ph);
    if ph == Phoneme::Q {
        assert(s.len() == 1 && s[0] == 'Q');
    }
    if ph == Phoneme::S {
        assert(s.len() == 1 && s[0] == 'S');
    }
    if ph == Phoneme::T {
        assert(s.len() == 1 && s[0] == 'T');
    }
    if ph == Phoneme::Z {
        assert(s.len() == 1 && s[0] == 'Z');
    }
    if ph == Phoneme::Z_dot {
        assert(s.len() == 2 && s[0] == 'Z' && s[1] == '.');
    }
    if ph == Phoneme::a_dot {
        assert(s.len() == 2 && s[0] == 'a' && s[1] == '.');
    }
}

proof fn lemma_caphipp_roundtrip_11(ph: Phoneme)
    requires
        ph == Phoneme::aa_dot,
    ensures
        phoneme_of(caphipp_of(ph)) == Some(ph),
{
    let s = caphipp_of(ph);
    if ph == Phoneme::aa_dot {
        assert(s.len() == 3 && s[0] == 'a' && s[1] == 'a' && s[2] == '.');
    }
}

/// Each phoneme is read back from its own CAPHI++ symbol: no two phonemes
/// share a symbol.
pub proof fn lemma_caphipp_roundtrip(ph: Phoneme)
    ensures
        phoneme_of(caphipp_of(ph)) == Some(ph),
{
    if ph == Phoneme::_2 || ph == Phoneme::_3 || ph == Phoneme::_7 || ph == Phoneme::a || ph == Phoneme::aa || ph == Phoneme::b {
        lemma_caphipp_roundtrip_0(ph);
    }
    if ph == Phoneme::b_dot || ph == Phoneme::d || ph == Phoneme::d_dot || ph == Phoneme::dh || ph == Phoneme::dh_dot || ph == Phoneme::dj {
        lemma_caphipp_roundtrip_1(ph);
    }
    if ph == Phoneme::dz || ph == Phoneme::e || ph == Phoneme::ee || ph == Phoneme::f || ph == Phoneme::ff || ph == Phoneme::g {
        lemma_caphipp_roundtrip_2(ph);
    }
    if ph == Phoneme::gh || ph == Phoneme::gy || ph == Phoneme::h || ph == Phoneme::i || ph == Phoneme::ii || ph == Phoneme::j {
        lemma_caphipp_roundtrip_3(ph);
    }
    if ph == Phoneme::k || ph == Phoneme::kh || ph == Phoneme::l || ph == Phoneme::l_dot || ph == Phoneme::m || ph == Phoneme::m_dot {
        lemma_caphipp_roundtrip_4(ph);
    }
    if ph == Phoneme::n || ph == Phoneme::n_dot || ph == Phoneme::o || ph == Phoneme::oo || ph == Phoneme::p || ph == Phoneme::p_dot {
        lemma_caphipp_roundtrip_5(ph);
    }
    if ph == Phoneme::q || ph == Phoneme::qh || ph == Phoneme::r || ph == Phoneme::r_dot || ph == Phoneme::s || ph == Phoneme::s_dot {
        lemma_caphipp_roundtrip_6(ph);
    }
    if ph == Phoneme::sh || ph == Phoneme::t || ph == Phoneme::t_dot || ph == Phoneme::th || ph == Phoneme::ts || ph == Phoneme::tsh {
        lemma_caphipp_roundtrip_7(ph);
    }
    if ph == Phoneme::u || ph == Phoneme::uu || ph == Phoneme::v || ph == Phoneme::w || ph == Phoneme::y || ph == Phoneme::z {
        lemma_caphipp_roundtrip_8(ph);
    }
    if ph == Phoneme::z_dot || ph == Phoneme::hash || ph == Phoneme::D || ph == Phoneme::D_dot || ph == Phoneme::J || ph == Phoneme::K {
        lemma_caphipp_roundtrip_9(ph);
    }
    if ph == Phoneme::Q || ph == Phoneme::S || ph == Phoneme::T || ph == Phoneme::Z || ph == Phoneme::Z_dot || ph == Phoneme::a_dot {
        lemma_caphipp_roundtrip_10(ph);
    }
    if ph == Phoneme::aa_dot {
        lemma_caphipp_roundtrip_11(ph);
    }
}


/// Why a CAPHI++ transcription could not be converted.
#[derive(Debug)]
pub enum PhonError {
    /// A segment that is not a CAPHI++ symbol.
    UnknownSymbol(Vec<char>),
    /// A part of an alternation (`a||b`) that is not a CAPHI++ symbol.
    UnknownSymbolInAlternation(Vec<char>),
    /// Two alternation groups that differ.
    AlternationMismatch,
}

pub enum PhonErrorV {
    UnknownSymbol(Seq<char>),
    UnknownSymbolInAlternation(Seq<char>),
    AlternationMismatch,
}

impl View for PhonError {
    type V = PhonErrorV;

    open spec fn view(&self) -> PhonErrorV {
        match self {
            PhonError::UnknownSymbol(s) => PhonErrorV::UnknownSymbol(s@),
            PhonError::UnknownSymbolInAlternation(s) => PhonErrorV::UnknownSymbolInAlternation(
                s@,
            ),
            PhonError::AlternationMismatch => PhonErrorV::AlternationMismatch,
        }
    }
}

/// The text of each vector.
pub open spec fn texts(v: Seq<Vec<char>>) -> Seq<Seq<char>> {
    v.map_values(|x: Vec<char>| x@)
}

/// The first index at or after `i` where `||` starts, or the length.
pub open spec fn find_bars(s: Seq<char>, i: int) -> int
    decreases s.len() - i,
{
    if i < 0 || i + 1 >= s.len() {
        s.len() as int
    } else if s[i] == '|' && s[i + 1] == '|' {
        i
    } else {
        find_bars(s, i + 1)
    }
}

pub proof fn lemma_find_bars(s: Seq<char>, i: int)
    requires
        0 <= i <= s.len(),
    ensures
        i <= find_bars(s, i) <= s.len(),
        find_bars(s, i) < s.len() ==> find_bars(s, i) + 1 < s.len(),
        find_bars(s, i) < s.len() ==> s[find_bars(s, i)] == '|',
    decreases s.len() - i,
{
    if i + 1 < s.len() && !(s[i] == '|' && s[i + 1] == '|') {
        lemma_find_bars(s, i + 1);
    }
}

/// The phonemes of the parts of `seg[i..]` separated by `||`, or the first
/// part that is not a symbol.
pub open spec fn alternation_from(seg: Seq<char>, i: int) -> Result<Seq<Phoneme>, PhonErrorV>
    decreases seg.len() - i,
{
    if i < 0 || i > seg.len() {
        Ok(Seq::empty())
    } else {
        let k = find_bars(seg, i);
        let piece = seg.subrange(i, k);
        match phoneme_of(piece) {
            None => Err(PhonErrorV::UnknownSymbolInAlternation(piece)),
            Some(ph) => if k >= seg.len() {
                Ok(seq![ph])
            } else {
                proof {
                    lemma_find_bars(seg, i);
                }
                match alternation_from(seg, k + 2) {
                    Ok(rest) => Ok(seq![ph] + rest),
                    Err(e) => Err(e),
                }
            },
        }
    }
}

/// The state of a conversion: the transcriptions built so far, and the
/// alternation met so far, which all later ones must equal.
pub struct IpaState {
    pub out: Seq<Seq<char>>,
    pub alternates: Option<Seq<Phoneme>>,
}

/// Appends the IPA of `ps[i]` to `out[i]` for each `i`.
pub open spec fn append_each(out: Seq<Seq<char>>, ps: Seq<Phoneme>) -> Seq<Seq<char>> {
    Seq::new(
        out.len(),
        |i: int|
            if i < ps.len() {
                out[i] + ipa_of(ps[i])
            } else {
                out[i]
            },
    )
}

/// Appends the IPA of `ph` to every transcription.
pub open spec fn append_all(out: Seq<Seq<char>>, ph: Phoneme) -> Seq<Seq<char>> {
    Seq::new(out.len(), |i: int| out[i] + ipa_of(ph))
}

/// Takes one space-separated segment.
pub open spec fn ipa_step(st: IpaState, seg: Seq<char>) -> Result<IpaState, PhonErrorV> {
    if seg.len() == 0 {
        Ok(st)
    } else if find_bars(seg, 0) < seg.len() {
        match alternation_from(seg, 0) {
            Err(e) => Err(e),
            Ok(ps) => match st.alternates {
                Some(a) => if a != ps {
                    Err(PhonErrorV::AlternationMismatch)
                } else {
                    Ok(IpaState { out: append_each(st.out, ps), alternates: Some(a) })
                },
                None => {
                    let copies = Seq::new((ps.len() - 1) as nat, |i: int| st.out[0]);
                    Ok(IpaState { out: append_each(st.out + copies, ps), alternates: Some(ps) })
                },
            },
        }
    } else {
        match phoneme_of(seg) {
            None => Err(PhonErrorV::UnknownSymbol(seg)),
            Some(ph) => Ok(IpaState { out: append_all(st.out, ph), alternates: st.alternates }),
        }
    }
}

/// Takes the space-separated segments of `s` from index `i` on.
pub open spec fn ipa_run(s: Seq<char>, i: int, st: IpaState) -> Result<IpaState, PhonErrorV>
    decreases s.len() - i,
{
    if i < 0 || i > s.len() {
        Ok(st)
    } else {
        let k = find(s, i, ' ');
        match ipa_step(st, s.subrange(i, k)) {
            Err(e) => Err(e),
            Ok(st2) => if k >= s.len() {
                Ok(st2)
            } else {
                proof {
                    lemma_find(s, i, ' ');
                }
                ipa_run(s, k + 1, st2)
            },
        }
    }
}

/// The IPA transcriptions of a CAPHI++ transcription without commas: one
/// per alternate where segments such as `a||e` give alternates.
pub open spec fn plain_to_ipa(s: Seq<char>) -> Result<Seq<Seq<char>>, PhonErrorV> {
    match ipa_run(s, 0, IpaState { out: seq![Seq::empty()], alternates: None }) {
        Ok(st) => Ok(st.out),
        Err(e) => Err(e),
    }
}

/// `out` extended by the items of `rs[j..]` that it does not hold yet.
pub open spec fn dedup_extend(out: Seq<Seq<char>>, rs: Seq<Seq<char>>, j: int) -> Seq<Seq<char>>
    decreases rs.len() - j,
{
    if j < 0 || j >= rs.len() {
        out
    } else {
        dedup_extend(
            if out.contains(rs[j]) {
                out
            } else {
                out.push(rs[j])
            },
            rs,
            j + 1,
        )
    }
}

/// Converts the comma-separated transcriptions of `s[i..]` and collects
/// their results without repeats.
pub open spec fn comma_run(s: Seq<char>, i: int, out: Seq<Seq<char>>) -> Result<
    Seq<Seq<char>>,
    PhonErrorV,
>
    decreases s.len() - i,
{
    if i < 0 || i > s.len() {
        Ok(out)
    } else {
        let k = find(s, i, ',');
        match plain_to_ipa(s.subrange(i, k)) {
            Err(e) => Err(e),
            Ok(rs) => {
                let out2 = dedup_extend(out, rs, 0);
                if k >= s.len() {
                    Ok(out2)
                } else {
                    proof {
                        lemma_find(s, i, ',');
                    }
                    comma_run(s, k + 1, out2)
                }
            },
        }
    }
}

/// The IPA transcriptions that a CAPHI++ transcription gives.
pub open spec fn caphipp_to_ipa_spec(s: Seq<char>) -> Result<Seq<Seq<char>>, PhonErrorV> {
    if find(s, 0, ',') < s.len() {
        comma_run(s, 0, Seq::empty())
    } else {
        plain_to_ipa(s)
    }
}


/// `p` is where one of the comma-separated parts of `s` starts.
pub open spec fn part_start(s: Seq<char>, p: int) -> bool {
    p == 0 || (0 < p <= s.len() && s[p - 1] == ',')
}

/// The IPA transcriptions of the comma-separated part of `s` that starts at
/// `p`.
pub open spec fn part_ipa(s: Seq<char>, p: int) -> Result<Seq<Seq<char>>, PhonErrorV> {
    plain_to_ipa(s.subrange(p, find(s, p, ',')))
}

proof fn lemma_push_new_no_duplicates(out: Seq<Seq<char>>, x: Seq<char>)
    requires
        out.no_duplicates(),
        !out.contains(x),
    ensures
        out.push(x).no_duplicates(),
{
    let o2 = out.push(x);
    assert forall|a: int, b: int| 0 <= a < o2.len() && 0 <= b < o2.len() && a != b implies o2[a]
        != o2[b] by {
        if a == out.len() {
            assert(out[b] == o2[b]);
        } else if b == out.len() {
            assert(out[a] == o2[a]);
        } else {
            assert(out[a] == o2[a] && out[b] == o2[b]);
        }
    }
}

proof fn lemma_dedup_extend(out: Seq<Seq<char>>, rs: Seq<Seq<char>>, j: int)
    requires
        0 <= j,
    ensures
        out.no_duplicates() ==> dedup_extend(out, rs, j).no_duplicates(),
        forall|x: Seq<char>| out.contains(x) ==> #[trigger] dedup_extend(out, rs, j).contains(x),
        forall|m: int| j <= m < rs.len() ==> dedup_extend(out, rs, j).contains(#[trigger] rs[m]),
        forall|x: Seq<char>|
            #[trigger] dedup_extend(out, rs, j).contains(x) ==> out.contains(x) || exists|m: int|
                j <= m < rs.len() && rs[m] == x,
    decreases rs.len() - j,
{
    if j < rs.len() {
        let next = if out.contains(rs[j]) {
            out
        } else {
            out.push(rs[j])
        };
        lemma_dedup_extend(next, rs, j + 1);
        if out.no_duplicates() && !out.contains(rs[j]) {
            lemma_push_new_no_duplicates(out, rs[j]);
        }
        assert forall|x: Seq<char>| out.contains(x) implies next.contains(x) by {
            if !out.contains(rs[j]) {
                let a = choose|a: int| 0 <= a < out.len() && out[a] == x;
                assert(next[a] == x);
            }
        }
        assert(next.contains(rs[j])) by {
            if !out.contains(rs[j]) {
                assert(next[out.len() as int] == rs[j]);
            }
        }
        assert forall|x: Seq<char>| next.contains(x) implies out.contains(x) || x == rs[j] by {
            if !out.contains(rs[j]) {
                let a = choose|a: int| 0 <= a < next.len() && next[a] == x;
                if a < out.len() {
                    assert(out[a] == x);
                }
            }
        }
        assert forall|m: int| j <= m < rs.len() implies dedup_extend(out, rs, j).contains(
            #[trigger] rs[m],
        ) by {
            if m == j {
                assert(next.contains(rs[j]));
            }
        }
        assert forall|x: Seq<char>| #[trigger]
            dedup_extend(out, rs, j).contains(x) implies out.contains(x) || exists|m: int|
            j <= m < rs.len() && rs[m] == x by {
            if !out.contains(x) && next.contains(x) {
                assert(rs[j] == x);
            }
        }
    }
}

proof fn lemma_comma_run(s: Seq<char>, i: int, out: Seq<Seq<char>>)
    requires
        0 <= i <= s.len(),
    ensures
        comma_run(s, i, out) is Ok ==> {
            let v = comma_run(s, i, out)->Ok_0;
            &&& out.no_duplicates() ==> v.no_duplicates()
            &&& forall|x: Seq<char>| out.contains(x) ==> #[trigger] v.contains(x)
            &&& forall|p: int, m: int|
                (p == i || (i < p <= s.len() && s[p - 1] == ',')) && part_ipa(s, p) is Ok && 0 <= m
                    < part_ipa(s, p)->Ok_0.len() ==> v.contains(#[trigger] part_ipa(s, p)->Ok_0[m])
            &&& forall|x: Seq<char>|
                #[trigger] v.contains(x) ==> out.contains(x) || exists|p: int|
                    (p == i || (i < p <= s.len() && s[p - 1] == ',')) && part_ipa(s, p) is Ok
                        && #[trigger] part_ipa(s, p)->Ok_0.contains(x)
        },
    decreases s.len() - i,
{
    let k = find(s, i, ',');
    lemma_find(s, i, ',');
    if let Ok(rs) = plain_to_ipa(s.subrange(i, k)) {
        let out2 = dedup_extend(out, rs, 0);
        lemma_dedup_extend(out, rs, 0);
        assert(part_ipa(s, i) == Ok::<Seq<Seq<char>>, PhonErrorV>(rs));
        if k >= s.len() {
            assert(comma_run(s, i, out) == Ok::<Seq<Seq<char>>, PhonErrorV>(out2));
            assert forall|p: int, m: int|
                (p == i || (i < p <= s.len() && s[p - 1] == ',')) && part_ipa(s, p) is Ok && 0 <= m
                    < part_ipa(s, p)->Ok_0.len() implies out2.contains(
                #[trigger] part_ipa(s, p)->Ok_0[m],
            ) by {
                if p != i {
                    assert(s[p - 1] != ',');
                }
            }
            assert forall|x: Seq<char>| #[trigger]
                out2.contains(x) implies out.contains(x) || exists|p: int|
                (p == i || (i < p <= s.len() && s[p - 1] == ',')) && part_ipa(s, p) is Ok
                    && #[trigger] part_ipa(s, p)->Ok_0.contains(x) by {
                if !out.contains(x) {
                    let m = choose|m: int| 0 <= m < rs.len() && rs[m] == x;
                    assert(rs.contains(x));
                    assert(part_ipa(s, i)->Ok_0.contains(x));
                }
            }
        } else {
            assert(comma_run(s, i, out) == comma_run(s, k + 1, out2));
            lemma_comma_run(s, k + 1, out2);
            if comma_run(s, k + 1, out2) is Ok {
                let v = comma_run(s, k + 1, out2)->Ok_0;
                assert forall|p: int, m: int|
                    (p == i || (i < p <= s.len() && s[p - 1] == ',')) && part_ipa(s, p) is Ok && 0
                        <= m < part_ipa(s, p)->Ok_0.len() implies v.contains(
                    #[trigger] part_ipa(s, p)->Ok_0[m],
                ) by {
                    if p == i {
                        assert(out2.contains(rs[m]));
                    } else {
                        assert(s[p - 1] == ',');
                        assert(p - 1 >= k);
                        assert(p == k + 1 || (k + 1 < p <= s.len() && s[p - 1] == ','));
                    }
                }
                assert forall|x: Seq<char>| #[trigger]
                    v.contains(x) implies out.contains(x) || exists|p: int|
                    (p == i || (i < p <= s.len() && s[p - 1] == ',')) && part_ipa(s, p) is Ok
                        && #[trigger] part_ipa(s, p)->Ok_0.contains(x) by {
                    if !out.contains(x) {
                        if out2.contains(x) {
                            let m = choose|m: int| 0 <= m < rs.len() && rs[m] == x;
                            assert(rs.contains(x));
                            assert(part_ipa(s, i)->Ok_0.contains(x));
                        } else {
                            let p = choose|p: int|
                                (p == k + 1 || (k + 1 < p <= s.len() && s[p - 1] == ','))
                                    && part_ipa(s, p) is Ok && #[trigger] part_ipa(
                                    s,
                                    p,
                                )->Ok_0.contains(x);
                            assert(s[k] == ',');
                            assert(i < p <= s.len() && s[p - 1] == ',');
                        }
                    }
                }
            }
        }
    }
}

/// When a CAPHI++ transcription holds commas, each comma-separated part is
/// converted on its own and the results are gathered without repeats: a
/// successful result holds no transcription twice, holds every transcription
/// of every part, and holds nothing else.
pub proof fn lemma_comma_parts_ipa(s: Seq<char>)
    requires
        find(s, 0, ',') < s.len(),
    ensures
        caphipp_to_ipa_spec(s) is Ok ==> {
            let v = caphipp_to_ipa_spec(s)->Ok_0;
            &&& v.no_duplicates()
            &&& forall|p: int, m: int|
                part_start(s, p) && part_ipa(s, p) is Ok && 0 <= m < part_ipa(s, p)->Ok_0.len()
                    ==> v.contains(#[trigger] part_ipa(s, p)->Ok_0[m])
            &&& forall|x: Seq<char>|
                #[trigger] v.contains(x) ==> exists|p: int|
                    part_start(s, p) && part_ipa(s, p) is Ok && #[trigger] part_ipa(
                        s,
                        p,
                    )->Ok_0.contains(x)
        },
{
    lemma_comma_run(s, 0, Seq::empty());
    assert(Seq::<Seq<char>>::empty().no_duplicates());
}

/// The state invariant of a conversion: one transcription until an
/// alternation is met, then one per alternate.
pub open spec fn ipa_inv(st: IpaState) -> bool {
    match st.alternates {
        None => st.out.len() == 1,
        Some(a) => st.out.len() == a.len() && a.len() >= 1,
    }
}

proof fn lemma_alternation_nonempty(seg: Seq<char>, i: int)
    ensures
        alternation_from(seg, i) matches Ok(ps) ==> (0 <= i <= seg.len() ==> ps.len() >= 1),
    decreases seg.len() - i,
{
}

fn find_bars_exec(s: &Vec<char>, i: usize) -> (r: usize)
    requires
        i <= s.len(),
    ensures
        r == find_bars(s@, i as int),
{
    let mut j = i;
    while j < s.len() && !(j + 1 < s.len() && s[j] == '|' && s[j + 1] == '|')
        invariant
            i <= j <= s.len(),
            find_bars(s@, i as int) == find_bars(s@, j as int),
        decreases s.len() - j,
    {
        j = j + 1;
    }
    j
}

pub open spec fn prepend_phonemes(p: Seq<Phoneme>, r: Result<Seq<Phoneme>, PhonErrorV>) -> Result<
    Seq<Phoneme>,
    PhonErrorV,
> {
    match r {
        Ok(rest) => Ok(p + rest),
        Err(e) => Err(e),
    }
}

fn alternation(seg: &Vec<char>) -> (res: Result<Vec<Phoneme>, PhonError>)
    ensures
        match res {
            Ok(ps) => alternation_from(seg@, 0) == Ok::<Seq<Phoneme>, PhonErrorV>(ps@),
            Err(e) => alternation_from(seg@, 0) == Err::<Seq<Phoneme>, PhonErrorV>(e@),
        },
{
    let mut ps: Vec<Phoneme> = Vec::new();
    let mut i: usize = 0;
    loop
        invariant
            i <= seg.len(),
            alternation_from(seg@, 0) == prepend_phonemes(ps@, alternation_from(seg@, i as int)),
        decreases seg.len() - i,
    {
        proof {
            lemma_find_bars(seg@, i as int);
        }
        let k = find_bars_exec(seg, i);
        let piece = slice_to_vec(seg, i, k);
        let ph = match Phoneme::try_from(&piece) {
            Some(ph) => ph,
            None => return Err(PhonError::UnknownSymbolInAlternation(piece)),
        };
        let ghost before = ps@;
        ps.push(ph);
        if k >= seg.len() {
            assert(before + seq![ph] == ps@);
            return Ok(ps);
        }
        assert(prepend_phonemes(before, alternation_from(seg@, i as int)) == prepend_phonemes(
            ps@,
            alternation_from(seg@, k + 2),
        )) by {
            match alternation_from(seg@, k + 2) {
                Ok(rest) => {
                    assert(before + (seq![ph] + rest) == ps@ + rest);
                },
                Err(_) => {},
            }
        }
        i = k + 2;
    }
}

fn copy_chars(v: &Vec<char>) -> (r: Vec<char>)
    ensures
        r@ == v@,
{
    let r = slice_to_vec(v, 0, v.len());
    assert(v@.subrange(0, v@.len() as int) =~= v@);
    r
}

fn append_ipa(v: &Vec<char>, ph: Phoneme) -> (r: Vec<char>)
    ensures
        r@ == v@ + ipa_of(ph),
{
    let mut r = copy_chars(v);
    let ipa = ph.to_ipa();
    extend_from_range(&mut r, &ipa, 0, ipa.len());
    assert(ipa@.subrange(0, ipa@.len() as int) =~= ipa@);
    r
}

fn append_each_exec(out: &Vec<Vec<char>>, ps: &Vec<Phoneme>) -> (r: Vec<Vec<char>>)
    ensures
        texts(r@) == append_each(texts(out@), ps@),
{
    let mut r: Vec<Vec<char>> = Vec::new();
    let mut i: usize = 0;
    while i < out.len()
        invariant
            i <= out.len(),
            r@.len() == i,
            forall|j: int|
                0 <= j < i ==> (#[trigger] r@[j])@ == append_each(texts(out@), ps@)[j],
        decreases out.len() - i,
    {
        if i < ps.len() {
            r.push(append_ipa(&out[i], ps[i]));
        } else {
            r.push(copy_chars(&out[i]));
        }
        i = i + 1;
    }
    assert(texts(r@) =~= append_each(texts(out@), ps@));
    r
}

fn append_all_exec(out: &Vec<Vec<char>>, ph: Phoneme) -> (r: Vec<Vec<char>>)
    ensures
        texts(r@) == append_all(texts(out@), ph),
{
    let mut r: Vec<Vec<char>> = Vec::new();
    let mut i: usize = 0;
    while i < out.len()
        invariant
            i <= out.len(),
            r@.len() == i,
            forall|j: int| 0 <= j < i ==> (#[trigger] r@[j])@ == append_all(texts(out@), ph)[j],
        decreases out.len() - i,
    {
        r.push(append_ipa(&out[i], ph));
        i = i + 1;
    }
    assert(texts(r@) =~= append_all(texts(out@), ph));
    r
}

fn phonemes_eq(a: &Vec<Phoneme>, b: &Vec<Phoneme>) -> (r: bool)
    ensures
        r == (a@ == b@),
{
    if a.len() != b.len() {
        return false;
    }
    let mut i: usize = 0;
    while i < a.len()
        invariant
            a.len() == b.len(),
            i <= a.len(),
            forall|j: int| 0 <= j < i ==> a@[j] == b@[j],
        decreases a.len() - i,
    {
        if a[i] != b[i] {
            return false;
        }
        i = i + 1;
    }
    assert(a@ =~= b@);
    true
}

fn copy_phonemes(a: &Vec<Phoneme>) -> (r: Vec<Phoneme>)
    ensures
        r@ == a@,
{
    let mut r: Vec<Phoneme> = Vec::new();
    let mut i: usize = 0;
    while i < a.len()
        invariant
            i <= a.len(),
            r@ == a@.subrange(0, i as int),
        decreases a.len() - i,
    {
        r.push(a[i]);
        i = i + 1;
    }
    assert(a@.subrange(0, a@.len() as int) =~= a@);
    r
}

pub open spec fn state_of(out: Seq<Vec<char>>, alternates: Option<Vec<Phoneme>>) -> IpaState {
    IpaState {
        out: texts(out),
        alternates: match alternates {
            Some(a) => Some(a@),
            None => None,
        },
    }
}

fn ipa_step_exec(out: &Vec<Vec<char>>, alternates: &Option<Vec<Phoneme>>, seg: &Vec<char>) -> (res:
    Result<(Vec<Vec<char>>, Option<Vec<Phoneme>>), PhonError>)
    requires
        ipa_inv(state_of(out@, *alternates)),
    ensures
        match res {
            Ok((o, a)) => {
                &&& ipa_step(state_of(out@, *alternates), seg@) == Ok::<IpaState, PhonErrorV>(
                    state_of(o@, a),
                )
                &&& ipa_inv(state_of(o@, a))
            },
            Err(e) => ipa_step(state_of(out@, *alternates), seg@) == Err::<IpaState, PhonErrorV>(
                e@,
            ),
        },
{
    let ghost st = state_of(out@, *alternates);
    if seg.len() == 0 {
        let mut o: Vec<Vec<char>> = Vec::new();
        let mut i: usize = 0;
        while i < out.len()
            invariant
                i <= out.len(),
                o@.len() == i,
                forall|j: int| 0 <= j < i ==> (#[trigger] o@[j])@ == out@[j]@,
            decreases out.len() - i,
        {
            o.push(copy_chars(&out[i]));
            i = i + 1;
        }
        assert(texts(o@) =~= texts(out@));
        let a = match alternates {
            Some(a) => Some(copy_phonemes(a)),
            None => None,
        };
        return Ok((o, a));
    }
    proof {
        lemma_find_bars(seg@, 0);
    }
    if find_bars_exec(seg, 0) < seg.len() {
        let ps = match alternation(seg) {
            Ok(ps) => ps,
            Err(e) => return Err(e),
        };
        proof {
            lemma_alternation_nonempty(seg@, 0);
        }
        match alternates {
            Some(a) => {
                if !phonemes_eq(a, &ps) {
                    return Err(PhonError::AlternationMismatch);
                }
                let o = append_each_exec(out, &ps);
                Ok((o, Some(ps)))
            },
            None => {
                let mut widened: Vec<Vec<char>> = Vec::new();
                widened.push(copy_chars(&out[0]));
                let mut n: usize = 1;
                while n < ps.len()
                    invariant
                        1 <= n <= ps.len(),
                        out@.len() == 1,
                        widened@.len() == n,
                        forall|j: int| 0 <= j < n ==> (#[trigger] widened@[j])@ == out@[0]@,
                    decreases ps.len() - n,
                {
                    widened.push(copy_chars(&out[0]));
                    n = n + 1;
                }
                let ghost copies = Seq::new((ps@.len() - 1) as nat, |i: int| st.out[0]);
                assert(texts(widened@) =~= st.out + copies);
                let o = append_each_exec(&widened, &ps);
                Ok((o, Some(ps)))
            },
        }
    } else {
        match Phoneme::try_from(seg) {
            None => Err(PhonError::UnknownSymbol(copy_chars(seg))),
            Some(ph) => {
                let o = append_all_exec(out, ph);
                let a = match alternates {
                    Some(a) => Some(copy_phonemes(a)),
                    None => None,
                };
                Ok((o, a))
            },
        }
    }
}

fn plain_to_ipa_exec(s: &Vec<char>) -> (res: Result<Vec<Vec<char>>, PhonError>)
    ensures
        match res {
            Ok(v) => plain_to_ipa(s@) == Ok::<Seq<Seq<char>>, PhonErrorV>(texts(v@)),
            Err(e) => plain_to_ipa(s@) == Err::<Seq<Seq<char>>, PhonErrorV>(e@),
        },
{
    let mut out: Vec<Vec<char>> = Vec::new();
    out.push(Vec::new());
    let mut alternates: Option<Vec<Phoneme>> = None;
    let ghost init = IpaState { out: seq![Seq::empty()], alternates: None };
    assert(state_of(out@, alternates) == init) by {
        assert(texts(out@) =~= seq![Seq::<char>::empty()]);
    }
    let mut i: usize = 0;
    loop
        invariant
            i <= s.len(),
            ipa_inv(state_of(out@, alternates)),
            init == (IpaState { out: seq![Seq::empty()], alternates: None }),
            ipa_run(s@, 0, init) == ipa_run(s@, i as int, state_of(out@, alternates)),
        decreases s.len() - i,
    {
        proof {
            lemma_find(s@, i as int, ' ');
        }
        let k = find_char(s, i, ' ');
        let seg = slice_to_vec(s, i, k);
        let ghost st = state_of(out@, alternates);
        assert(ipa_run(s@, i as int, st) == match ipa_step(st, s@.subrange(i as int, k as int)) {
            Err(e) => Err(e),
            Ok(st2) => if k >= s.len() {
                Ok(st2)
            } else {
                ipa_run(s@, k + 1, st2)
            },
        });
        let (o, a) = match ipa_step_exec(&out, &alternates, &seg) {
            Ok(pair) => pair,
            Err(e) => return Err(e),
        };
        out = o;
        alternates = a;
        if k >= s.len() {
            return Ok(out);
        }
        i = k + 1;
    }
}

/// The `out` items and then those of `rs[j..]` not met before.
fn dedup_extend_exec(out: &mut Vec<Vec<char>>, rs: &Vec<Vec<char>>)
    ensures
        texts(final(out)@) == dedup_extend(texts(old(out)@), texts(rs@), 0),
{
    let mut j: usize = 0;
    while j < rs.len()
        invariant
            j <= rs.len(),
            dedup_extend(texts(old(out)@), texts(rs@), 0) == dedup_extend(
                texts(out@),
                texts(rs@),
                j as int,
            ),
        decreases rs.len() - j,
    {
        let mut found = false;
        let mut m: usize = 0;
        while m < out.len()
            invariant
                m <= out.len(),
                j < rs.len(),
                found == exists|x: int| 0 <= x < m && out@[x]@ == rs@[j as int]@,
            decreases out.len() - m,
        {
            if chars_eq(&out[m], rs[j].as_slice()) {
                found = true;
            }
            m = m + 1;
        }
        assert(found == texts(out@).contains(texts(rs@)[j as int])) by {
            if found {
                let x = choose|x: int| 0 <= x < out.len() && out@[x]@ == rs@[j as int]@;
                assert(texts(out@)[x] == texts(rs@)[j as int]);
            }
            if texts(out@).contains(texts(rs@)[j as int]) {
                let x = choose|x: int|
                    0 <= x < texts(out@).len() && texts(out@)[x] == texts(rs@)[j as int];
                assert(out@[x]@ == rs@[j as int]@);
            }
        }
        if !found {
            let ghost before = texts(out@);
            out.push(copy_chars(&rs[j]));
            assert(texts(out@) =~= before.push(texts(rs@)[j as int]));
        }
        j = j + 1;
    }
}

/// Converts a CAPHI++ transcription to IPA.  Segments are separated by
/// spaces; `a||e` gives one transcription per alternate, and all such
/// groups must agree; commas separate whole transcriptions, whose results are
/// collected without repeats.
pub fn caphipp_to_ipa(string: &str) -> (res: Result<Vec<Vec<char>>, PhonError>)
    ensures
        match res {
            Ok(v) => caphipp_to_ipa_spec(string@) == Ok::<Seq<Seq<char>>, PhonErrorV>(texts(v@)),
            Err(e) => caphipp_to_ipa_spec(string@) == Err::<Seq<Seq<char>>, PhonErrorV>(e@),
        },
{
    let s = crate::text::chars_of(string);
    proof {
        lemma_find(s@, 0, ',');
    }
    if find_char(&s, 0, ',') >= s.len() {
        return plain_to_ipa_exec(&s);
    }
    let mut out: Vec<Vec<char>> = Vec::new();
    assert(texts(out@) =~= Seq::<Seq<char>>::empty());
    let mut i: usize = 0;
    loop
        invariant
            i <= s.len(),
            s@ == string@,
            find(s@, 0, ',') < s@.len(),
            comma_run(s@, 0, Seq::empty()) == comma_run(s@, i as int, texts(out@)),
        decreases s.len() - i,
    {
        proof {
            lemma_find(s@, i as int, ',');
        }
        let k = find_char(&s, i, ',');
        let piece = slice_to_vec(&s, i, k);
        let ghost o0 = texts(out@);
        assert(comma_run(s@, i as int, o0) == match plain_to_ipa(s@.subrange(i as int, k as int)) {
            Err(e) => Err(e),
            Ok(rs) => if k >= s.len() {
                Ok(dedup_extend(o0, rs, 0))
            } else {
                comma_run(s@, k + 1, dedup_extend(o0, rs, 0))
            },
        });
        let rs = match plain_to_ipa_exec(&piece) {
            Ok(rs) => rs,
            Err(e) => return Err(e),
        };
        dedup_extend_exec(&mut out, &rs);
        if k >= s.len() {
            return Ok(out);
        }
        i = k + 1;
    }
}


/// The characters a CAPHI++ symbol can hold: none separates segments,
/// transcriptions or alternates.
pub open spec fn symbol_char(c: char) -> bool {
    c != ',' && c != ' ' && c != '|'
}

proof fn lemma_symbol_chars(ph: Phoneme)
    ensures
        caphipp_of(ph).len() > 0,
        forall|j: int| 0 <= j < caphipp_of(ph).len() ==> symbol_char(#[trigger] caphipp_of(ph)[j]),
{
    match ph {
        Phoneme::_2 => {},
        Phoneme::_3 => {},
        Phoneme::_7 => {},
        Phoneme::a => {},
        Phoneme::aa => {},
        Phoneme::b => {},
        Phoneme::b_dot => {},
        Phoneme::d => {},
        Phoneme::d_dot => {},
        Phoneme::dh => {},
        Phoneme::dh_dot => {},
        Phoneme::dj => {},
        Phoneme::dz => {},
        Phoneme::e => {},
        Phoneme::ee => {},
        Phoneme::f => {},
        Phoneme::ff => {},
        Phoneme::g => {},
        Phoneme::gh => {},
        Phoneme::gy => {},
        Phoneme::h => {},
        Phoneme::i => {},
        Phoneme::ii => {},
        Phoneme::j => {},
        Phoneme::k => {},
        Phoneme::kh => {},
        Phoneme::l => {},
        Phoneme::l_dot => {},
        Phoneme::m => {},
        Phoneme::m_dot => {},
        Phoneme::n => {},
        Phoneme::n_dot => {},
        Phoneme::o => {},
        Phoneme::oo => {},
        Phoneme::p => {},
        Phoneme::p_dot => {},
        Phoneme::q => {},
        Phoneme::qh => {},
        Phoneme::r => {},
        Phoneme::r_dot => {},
        Phoneme::s => {},
        Phoneme::s_dot => {},
        Phoneme::sh => {},
        Phoneme::t => {},
        Phoneme::t_dot => {},
        Phoneme::th => {},
        Phoneme::ts => {},
        Phoneme::tsh => {},
        Phoneme::u => {},
        Phoneme::uu => {},
        Phoneme::v => {},
        Phoneme::w => {},
        Phoneme::y => {},
        Phoneme::z => {},
        Phoneme::z_dot => {},
        Phoneme::hash => {},
        Phoneme::D => {},
        Phoneme::D_dot => {},
        Phoneme::J => {},
        Phoneme::K => {},
        Phoneme::Q => {},
        Phoneme::S => {},
        Phoneme::T => {},
        Phoneme::Z => {},
        Phoneme::Z_dot => {},
        Phoneme::a_dot => {},
        Phoneme::aa_dot => {},
    }
}

/// Converting the CAPHI++ symbol of a single phoneme gives exactly one
/// transcription: that phoneme's IPA.
pub proof fn lemma_single_symbol_ipa(ph: Phoneme)
    ensures
        caphipp_to_ipa_spec(caphipp_of(ph)) == Ok::<Seq<Seq<char>>, PhonErrorV>(seq![ipa_of(ph)]),
{
    let sym = caphipp_of(ph);
    lemma_symbol_chars(ph);
    lemma_caphipp_roundtrip(ph);
    lemma_find(sym, 0, ',');
    lemma_find(sym, 0, ' ');
    lemma_find_bars(sym, 0);
    if find(sym, 0, ',') < sym.len() {
        assert(symbol_char(sym[find(sym, 0, ',')]));
    }
    if find(sym, 0, ' ') < sym.len() {
        assert(symbol_char(sym[find(sym, 0, ' ')]));
    }
    if find_bars(sym, 0) < sym.len() {
        assert(symbol_char(sym[find_bars(sym, 0)]));
    }
    assert(sym.subrange(0, sym.len() as int) =~= sym);
    let init = IpaState { out: seq![Seq::<char>::empty()], alternates: None };
    let after = IpaState { out: append_all(init.out, ph), alternates: None };
    assert(find(sym, 0, ' ') == sym.len());
    assert(find_bars(sym, 0) >= sym.len());
    assert(ipa_step(init, sym) == Ok::<IpaState, PhonErrorV>(after));
    assert(ipa_step(init, sym.subrange(0, find(sym, 0, ' '))) == Ok::<IpaState, PhonErrorV>(after));
    assert(ipa_run(sym, 0, init) == Ok::<IpaState, PhonErrorV>(after));
    assert(append_all(init.out, ph) =~= seq![ipa_of(ph)]);
    assert(plain_to_ipa(sym) == Ok::<Seq<Seq<char>>, PhonErrorV>(seq![ipa_of(ph)]));
    assert(find(sym, 0, ',') == sym.len());
}

proof fn lemma_find_bars_at(s: Seq<char>, i: int, k: int)
    requires
        0 <= i <= k,
        k + 1 < s.len(),
        s[k] == '|' && s[k + 1] == '|',
        forall|j: int| i <= j < k ==> s[j] != '|',
    ensures
        find_bars(s, i) == k,
    decreases k - i,
{
    if i < k {
        lemma_find_bars_at(s, i + 1, k);
    }
}

proof fn lemma_symbol_facts(ph: Phoneme)
    ensures
        find(caphipp_of(ph), 0, ',') == caphipp_of(ph).len(),
        find(caphipp_of(ph), 0, ' ') == caphipp_of(ph).len(),
        find_bars(caphipp_of(ph), 0) >= caphipp_of(ph).len(),
        plain_to_ipa(caphipp_of(ph)) == Ok::<Seq<Seq<char>>, PhonErrorV>(seq![ipa_of(ph)]),
{
    let sym = caphipp_of(ph);
    lemma_single_symbol_ipa(ph);
    lemma_symbol_chars(ph);
    lemma_find(sym, 0, ',');
    lemma_find(sym, 0, ' ');
    lemma_find_bars(sym, 0);
    if find(sym, 0, ',') < sym.len() {
        assert(symbol_char(sym[find(sym, 0, ',')]));
    }
    if find(sym, 0, ' ') < sym.len() {
        assert(symbol_char(sym[find(sym, 0, ' ')]));
    }
    if find_bars(sym, 0) < sym.len() {
        assert(symbol_char(sym[find_bars(sym, 0)]));
    }
}

/// Two symbols separated by a space give one transcription: the IPA of the
/// first followed by the IPA of the second.
pub proof fn lemma_two_symbols_ipa(ph1: Phoneme, ph2: Phoneme)
    ensures
        caphipp_to_ipa_spec(caphipp_of(ph1) + seq![' '] + caphipp_of(ph2)) == Ok::<
            Seq<Seq<char>>,
            PhonErrorV,
        >(seq![ipa_of(ph1) + ipa_of(ph2)]),
{
    let a = caphipp_of(ph1);
    let b = caphipp_of(ph2);
    let s = a + seq![' '] + b;
    lemma_symbol_facts(ph1);
    lemma_symbol_facts(ph2);
    lemma_symbol_chars(ph1);
    lemma_symbol_chars(ph2);
    lemma_caphipp_roundtrip(ph1);
    lemma_caphipp_roundtrip(ph2);
    let n = a.len() as int;
    lemma_find(s, 0, ',');
    if find(s, 0, ',') < s.len() {
        let f = find(s, 0, ',');
        if f < n {
            assert(s[f] == a[f]);
        } else if f > n {
            assert(s[f] == b[f - n - 1]);
        }
    }
    assert(find(s, 0, ',') == s.len());
    lemma_find(s, 0, ' ');
    if find(s, 0, ' ') < n {
        assert(s[find(s, 0, ' ')] == a[find(s, 0, ' ')]);
    }
    if find(s, 0, ' ') > n {
        assert(s[n] == ' ');
    }
    assert(find(s, 0, ' ') == n);
    assert(s.subrange(0, n) =~= a);
    lemma_find(s, n + 1, ' ');
    if find(s, n + 1, ' ') < s.len() {
        let f = find(s, n + 1, ' ');
        assert(s[f] == b[f - n - 1]);
    }
    assert(find(s, n + 1, ' ') == s.len());
    assert(s.subrange(n + 1, s.len() as int) =~= b);
    let init = IpaState { out: seq![Seq::<char>::empty()], alternates: None };
    let st1 = IpaState { out: append_all(init.out, ph1), alternates: None };
    let st2 = IpaState { out: append_all(st1.out, ph2), alternates: None };
    assert(ipa_step(init, a) == Ok::<IpaState, PhonErrorV>(st1));
    assert(ipa_step(st1, b) == Ok::<IpaState, PhonErrorV>(st2));
    assert(ipa_run(s, n + 1, st1) == Ok::<IpaState, PhonErrorV>(st2));
    assert(ipa_run(s, 0, init) == Ok::<IpaState, PhonErrorV>(st2));
    assert(st2.out =~= seq![ipa_of(ph1) + ipa_of(ph2)]);
}

/// Two symbols written as alternates, `x||y`, give two transcriptions: the
/// IPA of each, in order.
pub proof fn lemma_alternate_symbols_ipa(ph1: Phoneme, ph2: Phoneme)
    ensures
        caphipp_to_ipa_spec(caphipp_of(ph1) + seq!['|', '|'] + caphipp_of(ph2)) == Ok::<
            Seq<Seq<char>>,
            PhonErrorV,
        >(seq![ipa_of(ph1), ipa_of(ph2)]),
{
    let a = caphipp_of(ph1);
    let b = caphipp_of(ph2);
    let s = a + seq!['|', '|'] + b;
    lemma_symbol_facts(ph1);
    lemma_symbol_facts(ph2);
    lemma_symbol_chars(ph1);
    lemma_symbol_chars(ph2);
    lemma_caphipp_roundtrip(ph1);
    lemma_caphipp_roundtrip(ph2);
    let n = a.len() as int;
    lemma_find(s, 0, ',');
    if find(s, 0, ',') < s.len() {
        let f = find(s, 0, ',');
        if f < n {
            assert(s[f] == a[f]);
        } else if f > n + 1 {
            assert(s[f] == b[f - n - 2]);
        }
    }
    assert(find(s, 0, ',') == s.len());
    lemma_find(s, 0, ' ');
    if find(s, 0, ' ') < s.len() {
        let f = find(s, 0, ' ');
        if f < n {
            assert(s[f] == a[f]);
        } else if f > n + 1 {
            assert(s[f] == b[f - n - 2]);
        }
    }
    assert(find(s, 0, ' ') == s.len());
    assert(s.subrange(0, s.len() as int) =~= s);
    assert forall|j: int| 0 <= j < n implies s[j] != '|' by {
        assert(s[j] == a[j]);
        assert(symbol_char(a[j]));
    }
    lemma_find_bars_at(s, 0, n);
    assert(s.subrange(0, n) =~= a);
    lemma_find_bars(s, n + 2);
    if find_bars(s, n + 2) < s.len() {
        let f = find_bars(s, n + 2);
        assert(s[f] == b[f - n - 2]);
        assert(symbol_char(b[f - n - 2]));
    }
    assert(find_bars(s, n + 2) == s.len());
    assert(s.subrange(n + 2, s.len() as int) =~= b);
    assert(alternation_from(s, n + 2) == Ok::<Seq<Phoneme>, PhonErrorV>(seq![ph2]));
    assert(alternation_from(s, 0) == Ok::<Seq<Phoneme>, PhonErrorV>(seq![ph1] + seq![ph2]));
    let ps = seq![ph1, ph2];
    assert(seq![ph1] + seq![ph2] =~= ps);
    let init = IpaState { out: seq![Seq::<char>::empty()], alternates: None };
    let copies = Seq::new((ps.len() - 1) as nat, |i: int| init.out[0]);
    let st = IpaState { out: append_each(init.out + copies, ps), alternates: Some(ps) };
    assert(ipa_step(init, s) == Ok::<IpaState, PhonErrorV>(st));
    assert(ipa_run(s, 0, init) == Ok::<IpaState, PhonErrorV>(st));
    assert(Seq::<char>::empty() + ipa_of(ph1) =~= ipa_of(ph1));
    assert(Seq::<char>::empty() + ipa_of(ph2) =~= ipa_of(ph2));
    assert(st.out =~= seq![ipa_of(ph1), ipa_of(ph2)]);
}

/// Two symbols separated by a comma give the IPA of each, in order, but the
/// second only where it differs from the first.
pub proof fn lemma_comma_symbols_ipa(ph1: Phoneme, ph2: Phoneme)
    ensures
        caphipp_to_ipa_spec(caphipp_of(ph1) + seq![','] + caphipp_of(ph2)) == Ok::<
            Seq<Seq<char>>,
            PhonErrorV,
        >(
            if ipa_of(ph1) == ipa_of(ph2) {
                seq![ipa_of(ph1)]
            } else {
                seq![ipa_of(ph1), ipa_of(ph2)]
            },
        ),
{
    let a = caphipp_of(ph1);
    let b = caphipp_of(ph2);
    let s = a + seq![','] + b;
    lemma_symbol_facts(ph1);
    lemma_symbol_facts(ph2);
    lemma_symbol_chars(ph1);
    lemma_symbol_chars(ph2);
    let n = a.len() as int;
    lemma_find(s, 0, ',');
    if find(s, 0, ',') < n {
        assert(s[find(s, 0, ',')] == a[find(s, 0, ',')]);
    }
    if find(s, 0, ',') > n {
        assert(s[n] == ',');
    }
    assert(find(s, 0, ',') == n);
    assert(s.subrange(0, n) =~= a);
    lemma_find(s, n + 1, ',');
    if find(s, n + 1, ',') < s.len() {
        let f = find(s, n + 1, ',');
        assert(s[f] == b[f - n - 1]);
    }
    assert(find(s, n + 1, ',') == s.len());
    assert(s.subrange(n + 1, s.len() as int) =~= b);
    let e = Seq::<Seq<char>>::empty();
    let out1 = dedup_extend(e, seq![ipa_of(ph1)], 0);
    assert(dedup_extend(e.push(ipa_of(ph1)), seq![ipa_of(ph1)], 1) == e.push(ipa_of(ph1)));
    assert(out1 == seq![ipa_of(ph1)]);
    let rs = seq![ipa_of(ph2)];
    let out2 = dedup_extend(out1, rs, 0);
    if ipa_of(ph1) == ipa_of(ph2) {
        assert(out1[0] == rs[0]);
        assert(out1.contains(rs[0]));
        assert(dedup_extend(out1, rs, 1) == out1);
        assert(out2 == out1);
    } else {
        assert(!out1.contains(rs[0]));
        assert(dedup_extend(out1.push(rs[0]), rs, 1) == out1.push(rs[0]));
        assert(out2 =~= seq![ipa_of(ph1), ipa_of(ph2)]);
    }
    assert(comma_run(s, n + 1, out1) == Ok::<Seq<Seq<char>>, PhonErrorV>(out2));
    assert(comma_run(s, 0, e) == Ok::<Seq<Seq<char>>, PhonErrorV>(out2));
}

} // verus!
