//! The parser reads nothing after a `)` that closes nothing: what follows it
//! does not change the parse.

use vstd::prelude::*;

use super::lexer::{
    held_back_ok, lemma_lex_at, lemma_next_progress, lemma_peek_progress, lemma_scan_string, lex_at,
    measure, next_of, peek_of, scan_string, state_wf, LexState, TokenV,
};
use super::parser::{
    has_backslash, initial_state, lemma_parse_bp_progress, lemma_parse_bp_stops,
    lemma_parse_loop_progress, lemma_parse_stops, parse_bp_spec, parse_loop_spec, parse_query,
    unescape_from, ParsedV,
};
use super::{qualifier_of, term_of, LeafV, Operator, QueryV};
use crate::text::{find, is_ws, lemma_find, lemma_skip_ws, lemma_trim_end_at, skip_ws, trim, trim_end_at};

verus! {

/// `q1` and `q2` hold the same first `k` characters.
pub open spec fn agree(q1: Seq<char>, q2: Seq<char>, k: int) -> bool {
    &&& 0 <= k <= q1.len()
    &&& k <= q2.len()
    &&& forall|i: int| 0 <= i < k ==> q1[i] == q2[i]
}

/// The state `s` over the text `q`.
pub open spec fn with_query(s: LexState, q: Seq<char>) -> LexState {
    LexState { query: q, pos: s.pos, peeked: s.peeked }
}

pub open spec fn is_word_token(t: TokenV) -> bool {
    t is UnquotedTerm || t is And || t is Or
}

/// A parse that ended in `f` read nothing from position `k` on: it holds
/// back a token other than the end of input, which ends by `k`, and a held
/// word ends before `k`, where the space after it stands.
pub open spec fn ends_before(f: LexState, k: int) -> bool {
    &&& f.peeked matches Some(t) && t != TokenV::Eof
    &&& f.pos <= k
    &&& (f.peeked matches Some(t) && is_word_token(t)) ==> f.pos < k
}

proof fn lemma_find_local(q1: Seq<char>, q2: Seq<char>, k: int, i: int, c: char)
    requires
        agree(q1, q2, k),
        0 <= i <= k,
    ensures
        find(q1, i, c) < k ==> find(q2, i, c) == find(q1, i, c),
        find(q1, i, c) >= k ==> find(q2, i, c) >= k,
    decreases k - i,
{
    lemma_find(q1, i, c);
    lemma_find(q2, i, c);
    if i < k && q1[i] != c {
        lemma_find_local(q1, q2, k, i + 1, c);
    }
}

proof fn lemma_skip_local(q1: Seq<char>, q2: Seq<char>, k: int, i: int)
    requires
        agree(q1, q2, k),
        0 <= i <= k,
        skip_ws(q1, i) < k,
    ensures
        skip_ws(q2, i) == skip_ws(q1, i),
    decreases k - i,
{
    lemma_skip_ws(q1, i);
    if is_ws(q1[i]) {
        lemma_skip_local(q1, q2, k, i + 1);
    }
}

proof fn lemma_scan_local(q1: Seq<char>, q2: Seq<char>, k: int, i: int)
    requires
        agree(q1, q2, k),
        0 <= i,
        scan_string(q1, i) matches Ok(j) && j < k,
    ensures
        scan_string(q2, i) == scan_string(q1, i),
    decreases q1.len() - i,
{
    lemma_scan_string(q1, i);
    if q1[i] != '"' {
        if q1[i] == '\\' {
            lemma_scan_string(q1, i + 2);
            lemma_scan_local(q1, q2, k, i + 2);
        } else {
            lemma_scan_string(q1, i + 1);
            lemma_scan_local(q1, q2, k, i + 1);
        }
    }
}

/// A token that ends by `k`, and a word that ends before it, is read alike
/// from two texts that agree up to `k`.
proof fn lemma_lex_local(q1: Seq<char>, q2: Seq<char>, k: int, p: int)
    requires
        agree(q1, q2, k),
        0 <= p <= k,
        lex_at(q1, p).0 matches Ok(t) && t != TokenV::Eof,
        lex_at(q1, p).1 <= k,
        (lex_at(q1, p).0 matches Ok(t) && is_word_token(t)) ==> lex_at(q1, p).1 < k,
    ensures
        lex_at(q2, p) == lex_at(q1, p),
{
    lemma_lex_at(q1, p);
    lemma_skip_ws(q1, p);
    let a = skip_ws(q1, p);
    assert(a < q1.len());
    assert(!is_ws(q1[a]));
    assert(is_ws(' '));
    lemma_scan_string(q1, a + 1);
    lemma_find(q1, a, ':');
    lemma_find(q1, a, ' ');
    assert(a < lex_at(q1, p).1);
    lemma_skip_local(q1, q2, k, p);
    assert(q2[a] == q1[a]);
    if q1[a] == '"' {
        lemma_scan_string(q1, a + 1);
        lemma_scan_local(q1, q2, k, a + 1);
        let j = scan_string(q1, a + 1)->Ok_0;
        assert(q1.subrange(a + 1, j) =~= q2.subrange(a + 1, j));
    } else if q1[a] == '(' || q1[a] == ')' {
    } else {
        lemma_find_local(q1, q2, k, a, ':');
        lemma_find_local(q1, q2, k, a, ' ');
        lemma_find(q1, a, ':');
        lemma_find(q1, a, ' ');
        let c1 = find(q1, a, ':');
        let w1 = find(q1, a, ' ');
        if c1 < w1 {
            assert(q1.subrange(a, c1) =~= q2.subrange(a, c1));
        } else {
            assert(q1.subrange(a, w1) =~= q2.subrange(a, w1));
        }
    }
}

proof fn lemma_next_local(q2: Seq<char>, k: int, s: LexState)
    requires
        state_wf(s),
        agree(s.query, q2, k),
        s.pos <= k,
        next_of(s).0 matches Ok(t) && t != TokenV::Eof,
        next_of(s).1.pos <= k,
        (s.peeked is None && (next_of(s).0 matches Ok(t) && is_word_token(t))) ==> next_of(
            s,
        ).1.pos < k,
    ensures
        next_of(with_query(s, q2)) == (next_of(s).0, with_query(next_of(s).1, q2)),
{
    if s.peeked is None {
        lemma_lex_local(s.query, q2, k, s.pos);
    }
}

proof fn lemma_peek_local(q2: Seq<char>, k: int, s: LexState)
    requires
        state_wf(s),
        agree(s.query, q2, k),
        s.pos <= k,
        peek_of(s).0 matches Ok(t) && t != TokenV::Eof,
        peek_of(s).1.pos <= k,
        (s.peeked is None && (peek_of(s).0 matches Ok(t) && is_word_token(t))) ==> peek_of(
            s,
        ).1.pos < k,
    ensures
        peek_of(with_query(s, q2)) == (peek_of(s).0, with_query(peek_of(s).1, q2)),
{
    if s.peeked is None {
        lemma_lex_local(s.query, q2, k, s.pos);
    }
}

/// From a held word, the operator loop either stops at once, below the top
/// level, or moves past the word.
proof fn lemma_held_word_moves(lhs: QueryV, s: LexState, m: u8)
    requires
        state_wf(s),
        s.peeked matches Some(t) && is_word_token(t),
    ensures
        ({
            let (r, f) = parse_loop_spec(lhs, s, m);
            (r is Done && (f.peeked matches Some(t) && t != TokenV::Eof)) ==> ((1 < m && f == s)
                || f.pos > s.pos)
        }),
{
    lemma_peek_progress(s);
    let t = s.peeked->Some_0;
    if !(1 < m) {
        lemma_next_progress(s);
        let skip = t is And || t is Or;
        let st2 = if skip {
            next_of(s).1
        } else {
            s
        };
        lemma_parse_bp_progress(st2, 2);
        let (r3, st3) = parse_bp_spec(st2, 2);
        if r3 is Done && state_wf(st3) && measure(st3) < measure(s) {
            let op = if t is Or {
                Operator::Or
            } else {
                Operator::And
            };
            lemma_parse_loop_progress(
                QueryV::Operator(op, Box::new(lhs), Box::new(r3->Done_0)),
                st3,
                m,
            );
        }
    }
}

proof fn lemma_bp_local(s: LexState, m: u8, q2: Seq<char>, k: int)
    requires
        state_wf(s),
        agree(s.query, q2, k),
        s.pos <= k,
        parse_bp_spec(s, m).0 is Done,
        ends_before(parse_bp_spec(s, m).1, k),
    ensures
        parse_bp_spec(with_query(s, q2), m) == (
            parse_bp_spec(s, m).0,
            with_query(parse_bp_spec(s, m).1, q2),
        ),
    decreases measure(s), 0int,
{
    let f = parse_bp_spec(s, m).1;
    lemma_next_progress(s);
    let (r, s1) = next_of(s);
    let s1q = with_query(s1, q2);
    match r {
        Err(e) => {},
        Ok(t) => match t {
            TokenV::String(str) => match unescape_from(str, 0) {
                Some(u) => {
                    let leaf = QueryV::Leaf(LeafV::Term(term_of(u)));
                    lemma_parse_loop_progress(leaf, s1, m);
                    lemma_next_local(q2, k, s);
                    lemma_loop_local(leaf, s1, m, q2, k);
                },
                None => {},
            },
            TokenV::Qualifier(name) => match qualifier_of(name) {
                None => {},
                Some(qu) => {
                    lemma_next_progress(s1);
                    let (r2, s2) = next_of(s1);
                    match r2 {
                        Ok(TokenV::String(str)) => {
                            let leaf = QueryV::Leaf(LeafV::Qualified(qu, term_of(str)));
                            lemma_parse_loop_progress(leaf, s2, m);
                            lemma_next_local(q2, k, s);
                            lemma_next_local(q2, k, s1);
                            lemma_loop_local(leaf, s2, m, q2, k);
                        },
                        Ok(TokenV::UnquotedTerm(str)) => {
                            if !has_backslash(str) {
                                let leaf = QueryV::Leaf(LeafV::Qualified(qu, term_of(str)));
                                lemma_parse_loop_progress(leaf, s2, m);
                                lemma_next_local(q2, k, s);
                                lemma_next_local(q2, k, s1);
                                lemma_loop_local(leaf, s2, m, q2, k);
                            }
                        },
                        _ => {},
                    }
                },
            },
            TokenV::UnquotedTerm(str) => {
                if !has_backslash(str) {
                    let leaf = QueryV::Leaf(LeafV::Term(term_of(str)));
                    lemma_parse_loop_progress(leaf, s1, m);
                    lemma_next_local(q2, k, s);
                    lemma_loop_local(leaf, s1, m, q2, k);
                }
            },
            TokenV::LeftParen => {
                lemma_parse_bp_progress(s1, 0);
                lemma_parse_bp_stops(s1, 0);
                let (r2, st2) = parse_bp_spec(s1, 0);
                if r2 is Done && state_wf(st2) && measure(st2) <= measure(s1) {
                    lemma_next_progress(st2);
                    let (r3, st3) = next_of(st2);
                    if r3 == Ok::<TokenV, super::lexer::LexError>(TokenV::RightParen) {
                        lemma_parse_loop_progress(r2->Done_0, st3, m);
                        lemma_next_local(q2, k, s);
                        lemma_bp_local(s1, 0, q2, k);
                        lemma_loop_local(r2->Done_0, st3, m, q2, k);
                    }
                }
            },
            _ => {},
        },
    }
}

proof fn lemma_loop_local(lhs: QueryV, s: LexState, m: u8, q2: Seq<char>, k: int)
    requires
        state_wf(s),
        agree(s.query, q2, k),
        s.pos <= k,
        parse_loop_spec(lhs, s, m).0 is Done,
        ends_before(parse_loop_spec(lhs, s, m).1, k),
    ensures
        parse_loop_spec(lhs, with_query(s, q2), m) == (
            parse_loop_spec(lhs, s, m).0,
            with_query(parse_loop_spec(lhs, s, m).1, q2),
        ),
    decreases measure(s), 1int,
{
    let f = parse_loop_spec(lhs, s, m).1;
    lemma_peek_progress(s);
    let (r, s1) = peek_of(s);
    match r {
        Err(_) => {},
        Ok(t) => match t {
            TokenV::Eof => {},
            TokenV::RightParen => {
                lemma_peek_local(q2, k, s);
            },
            TokenV::LeftParen => {},
            _ => {
                let op = if t is Or {
                    Operator::Or
                } else {
                    Operator::And
                };
                let skip = t is And || t is Or;
                if 1 < m {
                    lemma_peek_local(q2, k, s);
                } else {
                    lemma_next_progress(s1);
                    let st2 = if skip {
                        next_of(s1).1
                    } else {
                        s1
                    };
                    lemma_parse_bp_progress(st2, 2);
                    lemma_parse_bp_stops(st2, 2);
                    let (r3, st3) = parse_bp_spec(st2, 2);
                    if r3 is Done && state_wf(st3) && measure(st3) < measure(s) {
                        let next_lhs = QueryV::Operator(op, Box::new(lhs), Box::new(r3->Done_0));
                        lemma_parse_loop_progress(next_lhs, st3, m);
                        if st3.peeked matches Some(t3) && is_word_token(t3) {
                            lemma_held_word_moves(next_lhs, st3, m);
                        }
                        lemma_peek_local(q2, k, s);
                        lemma_bp_local(st2, 2, q2, k);
                        lemma_loop_local(next_lhs, st3, m, q2, k);
                    }
                }
            },
        },
    }
}

proof fn lemma_trim_end_above(s: Seq<char>, lo: int, j: int, i: int)
    requires
        0 <= lo <= i < j <= s.len(),
        !is_ws(s[i]),
    ensures
        trim_end_at(s, lo, j) > i,
    decreases j - lo,
{
    if lo < j && is_ws(s[j - 1]) {
        lemma_trim_end_above(s, lo, j - 1, i);
    }
}

proof fn lemma_skip_at_most(s: Seq<char>, p: int, i: int)
    requires
        0 <= p <= i < s.len(),
        !is_ws(s[i]),
    ensures
        skip_ws(s, p) <= i,
    decreases i - p,
{
    if p < i && is_ws(s[p]) {
        lemma_skip_at_most(s, p + 1, i);
    }
}

proof fn lemma_not_blank_at(q: Seq<char>, i: int)
    requires
        0 <= i < q.len(),
        !is_ws(q[i]),
    ensures
        trim(q).len() > 0,
{
    lemma_skip_at_most(q, 0, i);
    lemma_skip_ws(q, 0);
    lemma_trim_end_at(q, skip_ws(q, 0), q.len() as int);
    lemma_trim_end_above(q, skip_ws(q, 0), q.len() as int, i);
}

/// Where a query's parse stops at a `)` that closes nothing, the text after
/// that `)` is never read: putting any other text after it gives the same
/// parse.
pub proof fn lemma_parse_ignores_rest(q: Seq<char>, rest: Seq<char>)
    requires
        parse_bp_spec(initial_state(q), 0).0 is Done,
        parse_bp_spec(initial_state(q), 0).1.peeked == Some(TokenV::RightParen),
    ensures
        ({
            let k = parse_bp_spec(initial_state(q), 0).1.pos;
            parse_query(q.subrange(0, k) + rest) == parse_query(q)
        }),
{
    let f = parse_bp_spec(initial_state(q), 0).1;
    lemma_parse_stops(q);
    lemma_parse_bp_progress(initial_state(q), 0);
    let k = f.pos;
    let q2 = q.subrange(0, k) + rest;
    assert(agree(q, q2, k));
    lemma_bp_local(initial_state(q), 0, q2, k);
    assert(with_query(initial_state(q), q2) == initial_state(q2));
    assert(q[k - 1] == ')');
    assert(q2[k - 1] == ')');
    lemma_not_blank_at(q, k - 1);
    lemma_not_blank_at(q2, k - 1);
}

} // verus!
