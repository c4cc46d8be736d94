//! A Pratt parser for the query language.
//!
//! Juxtaposed terms are joined with `and`; `and` and `or` bind equally tightly
//! and group to the left; parentheses group.

use vstd::prelude::*;

use super::lexer::{
    held_back_ok, lemma_held_back_kept, lemma_next_progress, lemma_peek_progress, measure, next_of,
    peek_of, state_wf, LexError, LexState, Lexer, Token, TokenV,
};
use super::{qualifier_of, term_of, Leaf, LeafV, Operator, Qualifier, Query, QueryV, Term};
use super::matching::{lemma_empty_term_matches_all, query_matches};
use crate::lexicon::lemma::Lemma;
use crate::text::{extend_from_range, find, find_char, lemma_find, string_from_chars, trim, trimmed};

verus! {

/// Why a query could not be parsed.
#[derive(Debug)]
pub enum QueryError {
    Lex(LexError),
    /// A backslash in a quoted string that is not followed by `"`.
    InvalidEscape,
    UnknownQualifier(Vec<char>),
    /// A qualifier not followed by a string or a term.
    ExpectedLiteral(Token),
    /// An unquoted term that holds a backslash.
    EscapeInUnquotedTerm(Vec<char>),
    /// An opening parenthesis without its closing one.
    ExpectedRightParen,
    /// A token that cannot start an operand.
    ExpectedOperand(Token),
}

/// The mathematical value of a [`QueryError`].
pub enum QueryErrorV {
    Lex(LexError),
    InvalidEscape,
    UnknownQualifier(Seq<char>),
    ExpectedLiteral(TokenV),
    EscapeInUnquotedTerm(Seq<char>),
    ExpectedRightParen,
    ExpectedOperand(TokenV),
}

impl View for QueryError {
    type V = QueryErrorV;

    open spec fn view(&self) -> QueryErrorV {
        match self {
            QueryError::Lex(e) => QueryErrorV::Lex(*e),
            QueryError::InvalidEscape => QueryErrorV::InvalidEscape,
            QueryError::UnknownQualifier(s) => QueryErrorV::UnknownQualifier(s@),
            QueryError::ExpectedLiteral(t) => QueryErrorV::ExpectedLiteral(t@),
            QueryError::EscapeInUnquotedTerm(s) => QueryErrorV::EscapeInUnquotedTerm(s@),
            QueryError::ExpectedRightParen => QueryErrorV::ExpectedRightParen,
            QueryError::ExpectedOperand(t) => QueryErrorV::ExpectedOperand(t@),
        }
    }
}

/// The outcome of parsing: a query, an error, or `Stuck` where an opening
/// parenthesis directly follows a complete operand, which the parser does not
/// handle.
pub enum ParsedV {
    Done(QueryV),
    Failed(QueryErrorV),
    Stuck,
}

/// Executable counterpart of [`ParsedV`].
pub enum ParseStep {
    Done(Query),
    Failed(QueryError),
    Stuck,
}

impl View for ParseStep {
    type V = ParsedV;

    open spec fn view(&self) -> ParsedV {
        match self {
            ParseStep::Done(q) => ParsedV::Done(q@),
            ParseStep::Failed(e) => ParsedV::Failed(e@),
            ParseStep::Stuck => ParsedV::Stuck,
        }
    }
}

pub open spec fn has_backslash(s: Seq<char>) -> bool {
    find(s, 0, '\\') < s.len()
}

/// `s[i..]` with each `\"` replaced by `"`; `None` when a backslash is not
/// followed by `"`.
pub open spec fn unescape_from(s: Seq<char>, i: int) -> Option<Seq<char>>
    decreases s.len() - i,
{
    if i < 0 || i > s.len() {
        None
    } else {
        let k = find(s, i, '\\');
        if k >= s.len() {
            Some(s.subrange(i, s.len() as int))
        } else if k + 1 < s.len() && s[k + 1] == '"' {
            proof {
                lemma_find(s, i, '\\');
            }
            match unescape_from(s, k + 1) {
                Some(r) => Some(s.subrange(i, k) + r),
                None => None,
            }
        } else {
            None
        }
    }
}

/// Parses an operand and then the operators that follow it while they bind
/// at least as tightly as `min_bp`.
pub open spec fn parse_bp_spec(st: LexState, min_bp: u8) -> (ParsedV, LexState)
    decreases measure(st), 0int,
{
    if !state_wf(st) {
        (ParsedV::Stuck, st)
    } else {
        proof {
            lemma_next_progress(st);
        }
        let (r, st1) = next_of(st);
        match r {
            Err(e) => (ParsedV::Failed(QueryErrorV::Lex(e)), st1),
            Ok(t) => match t {
                TokenV::String(s) => match unescape_from(s, 0) {
                    Some(u) => parse_loop_spec(
                        QueryV::Leaf(LeafV::Term(term_of(u))),
                        st1,
                        min_bp,
                    ),
                    None => (ParsedV::Failed(QueryErrorV::InvalidEscape), st1),
                },
                TokenV::Qualifier(name) => match qualifier_of(name) {
                    None => (ParsedV::Failed(QueryErrorV::UnknownQualifier(name)), st1),
                    Some(q) => {
                        proof {
                            lemma_next_progress(st1);
                        }
                        let (r2, st2) = next_of(st1);
                        match r2 {
                            Err(e) => (ParsedV::Failed(QueryErrorV::Lex(e)), st2),
                            Ok(TokenV::String(s)) => parse_loop_spec(
                                QueryV::Leaf(LeafV::Qualified(q, term_of(s))),
                                st2,
                                min_bp,
                            ),
                            Ok(TokenV::UnquotedTerm(s)) => if has_backslash(s) {
                                (ParsedV::Failed(QueryErrorV::EscapeInUnquotedTerm(s)), st2)
                            } else {
                                parse_loop_spec(
                                    QueryV::Leaf(LeafV::Qualified(q, term_of(s))),
                                    st2,
                                    min_bp,
                                )
                            },
                            Ok(other) => (ParsedV::Failed(QueryErrorV::ExpectedLiteral(other)), st2),
                        }
                    },
                },
                TokenV::UnquotedTerm(s) => if has_backslash(s) {
                    (ParsedV::Failed(QueryErrorV::EscapeInUnquotedTerm(s)), st1)
                } else {
                    parse_loop_spec(QueryV::Leaf(LeafV::Term(term_of(s))), st1, min_bp)
                },
                TokenV::LeftParen => {
                    let (r2, st2) = parse_bp_spec(st1, 0);
                    match r2 {
                        ParsedV::Done(inner) => {
                            if !state_wf(st2) || measure(st2) > measure(st1) {
                                (ParsedV::Stuck, st2)
                            } else {
                                proof {
                                    lemma_next_progress(st2);
                                }
                                let (r3, st3) = next_of(st2);
                                match r3 {
                                    Err(e) => (ParsedV::Failed(QueryErrorV::Lex(e)), st3),
                                    Ok(TokenV::RightParen) => parse_loop_spec(inner, st3, min_bp),
                                    Ok(_) => (ParsedV::Failed(QueryErrorV::ExpectedRightParen), st3),
                                }
                            }
                        },
                        other => (other, st2),
                    }
                },
                other => (ParsedV::Failed(QueryErrorV::ExpectedOperand(other)), st1),
            },
        }
    }
}

/// Having parsed `lhs`, takes the operators that follow while they bind at
/// least as tightly as `min_bp`.
pub open spec fn parse_loop_spec(lhs: QueryV, st: LexState, min_bp: u8) -> (ParsedV, LexState)
    decreases measure(st), 1int,
{
    if !state_wf(st) {
        (ParsedV::Stuck, st)
    } else {
        proof {
            lemma_peek_progress(st);
        }
        let (r, st1) = peek_of(st);
        match r {
            Err(e) => (ParsedV::Failed(QueryErrorV::Lex(e)), st1),
            Ok(t) => match t {
                TokenV::Eof => (ParsedV::Done(lhs), st1),
                TokenV::RightParen => (ParsedV::Done(lhs), st1),
                TokenV::LeftParen => (ParsedV::Stuck, st1),
                _ => {
                    let op = if t is Or {
                        Operator::Or
                    } else {
                        Operator::And
                    };
                    let skip = t is And || t is Or;
                    if 1 < min_bp {
                        (ParsedV::Done(lhs), st1)
                    } else {
                        proof {
                            lemma_next_progress(st1);
                        }
                        let st2 = if skip {
                            next_of(st1).1
                        } else {
                            st1
                        };
                        let (r3, st3) = parse_bp_spec(st2, 2);
                        match r3 {
                            ParsedV::Done(rhs) => if state_wf(st3) && measure(st3) < measure(st) {
                                parse_loop_spec(
                                    QueryV::Operator(op, Box::new(lhs), Box::new(rhs)),
                                    st3,
                                    min_bp,
                                )
                            } else {
                                (ParsedV::Stuck, st3)
                            },
                            other => (other, st3),
                        }
                    }
                },
            },
        }
    }
}


/// Parsing keeps the lexer state well formed, and an operand moves it forward.
pub proof fn lemma_parse_bp_progress(st: LexState, min_bp: u8)
    requires
        state_wf(st),
    ensures
        ({
            let (r, st2) = parse_bp_spec(st, min_bp);
            &&& state_wf(st2)
            &&& st2.query == st.query
            &&& r is Done ==> measure(st2) < measure(st)
        }),
    decreases measure(st), 0int,
{
    lemma_next_progress(st);
    let (r, st1) = next_of(st);
    match r {
        Err(e) => {},
        Ok(t) => match t {
            TokenV::String(s) => match unescape_from(s, 0) {
                Some(u) => {
                    lemma_parse_loop_progress(QueryV::Leaf(LeafV::Term(term_of(u))), st1, min_bp);
                },
                None => {},
            },
            TokenV::Qualifier(name) => match qualifier_of(name) {
                None => {},
                Some(q) => {
                    lemma_next_progress(st1);
                    let (r2, st2) = next_of(st1);
                    match r2 {
                        Ok(TokenV::String(s)) => {
                            lemma_parse_loop_progress(
                                QueryV::Leaf(LeafV::Qualified(q, term_of(s))),
                                st2,
                                min_bp,
                            );
                        },
                        Ok(TokenV::UnquotedTerm(s)) => {
                            if !has_backslash(s) {
                                lemma_parse_loop_progress(
                                    QueryV::Leaf(LeafV::Qualified(q, term_of(s))),
                                    st2,
                                    min_bp,
                                );
                            }
                        },
                        _ => {},
                    }
                },
            },
            TokenV::UnquotedTerm(s) => {
                if !has_backslash(s) {
                    lemma_parse_loop_progress(QueryV::Leaf(LeafV::Term(term_of(s))), st1, min_bp);
                }
            },
            TokenV::LeftParen => {
                lemma_parse_bp_progress(st1, 0);
                let (r2, st2) = parse_bp_spec(st1, 0);
                match r2 {
                    ParsedV::Done(inner) => {
                        lemma_next_progress(st2);
                        let (r3, st3) = next_of(st2);
                        match r3 {
                            Ok(TokenV::RightParen) => {
                                lemma_parse_loop_progress(inner, st3, min_bp);
                            },
                            _ => {},
                        }
                    },
                    _ => {},
                }
            },
            _ => {},
        },
    }
}

/// The operator loop keeps the lexer state well formed and never moves it
/// back.
pub proof fn lemma_parse_loop_progress(lhs: QueryV, st: LexState, min_bp: u8)
    requires
        state_wf(st),
    ensures
        ({
            let (r, st2) = parse_loop_spec(lhs, st, min_bp);
            &&& state_wf(st2)
            &&& st2.query == st.query
            &&& r is Done ==> measure(st2) <= measure(st)
        }),
    decreases measure(st), 1int,
{
    lemma_peek_progress(st);
    let (r, st1) = peek_of(st);
    match r {
        Ok(t) => match t {
            TokenV::Eof => {},
            TokenV::RightParen => {},
            TokenV::LeftParen => {},
            _ => {
                let op = if t is Or {
                    Operator::Or
                } else {
                    Operator::And
                };
                let skip = t is And || t is Or;
                if !(1 < min_bp) {
                    lemma_next_progress(st1);
                    let st2 = if skip {
                        next_of(st1).1
                    } else {
                        st1
                    };
                    lemma_parse_bp_progress(st2, 2);
                    let (r3, st3) = parse_bp_spec(st2, 2);
                    match r3 {
                        ParsedV::Done(rhs) => {
                            lemma_parse_loop_progress(
                                QueryV::Operator(op, Box::new(lhs), Box::new(rhs)),
                                st3,
                                min_bp,
                            );
                        },
                        _ => {},
                    }
                }
            },
        },
        Err(_) => {},
    }
}


/// After a successful parse at binding power `min_bp` the lexer holds back
/// the token that ended it: the end of input or a `)`, or, below the top
/// level, any token but `(`.
pub open spec fn stops_at(st: LexState, min_bp: u8) -> bool {
    st.peeked matches Some(t) && (t is Eof || t is RightParen || (1 < min_bp && !(t is LeftParen)))
}

/// A successful parse ends with the lexer holding back the token that ended
/// it, as [`stops_at`] says.
pub proof fn lemma_parse_bp_stops(st: LexState, min_bp: u8)
    requires
        state_wf(st),
    ensures
        ({
            let (r, st2) = parse_bp_spec(st, min_bp);
            r is Done ==> stops_at(st2, min_bp) && (held_back_ok(st) ==> held_back_ok(st2))
        }),
    decreases measure(st), 0int,
{
    lemma_next_progress(st);
    if held_back_ok(st) {
        lemma_held_back_kept(st);
    }
    let (r, st1) = next_of(st);
    match r {
        Err(e) => {},
        Ok(t) => match t {
            TokenV::String(s) => match unescape_from(s, 0) {
                Some(u) => {
                    lemma_parse_loop_stops(QueryV::Leaf(LeafV::Term(term_of(u))), st1, min_bp);
                },
                None => {},
            },
            TokenV::Qualifier(name) => match qualifier_of(name) {
                None => {},
                Some(q) => {
                    lemma_next_progress(st1);
                    if held_back_ok(st1) {
        lemma_held_back_kept(st1);
    }
                    let (r2, st2) = next_of(st1);
                    match r2 {
                        Ok(TokenV::String(s)) => {
                            lemma_parse_loop_stops(
                                QueryV::Leaf(LeafV::Qualified(q, term_of(s))),
                                st2,
                                min_bp,
                            );
                        },
                        Ok(TokenV::UnquotedTerm(s)) => {
                            if !has_backslash(s) {
                                lemma_parse_loop_stops(
                                    QueryV::Leaf(LeafV::Qualified(q, term_of(s))),
                                    st2,
                                    min_bp,
                                );
                            }
                        },
                        _ => {},
                    }
                },
            },
            TokenV::UnquotedTerm(s) => {
                if !has_backslash(s) {
                    lemma_parse_loop_stops(QueryV::Leaf(LeafV::Term(term_of(s))), st1, min_bp);
                }
            },
            TokenV::LeftParen => {
                lemma_parse_bp_progress(st1, 0);
                let (r2, st2) = parse_bp_spec(st1, 0);
                match r2 {
                    ParsedV::Done(inner) => {
                        if state_wf(st2) && measure(st2) <= measure(st1) {
                            lemma_next_progress(st2);
                            let (r3, st3) = next_of(st2);
                            match r3 {
                                Ok(TokenV::RightParen) => {
                                    lemma_parse_loop_stops(inner, st3, min_bp);
                                },
                                _ => {},
                            }
                        }
                    },
                    _ => {},
                }
            },
            _ => {},
        },
    }
}

/// The operator loop ends like [`lemma_parse_bp_stops`] says.
pub proof fn lemma_parse_loop_stops(lhs: QueryV, st: LexState, min_bp: u8)
    requires
        state_wf(st),
    ensures
        ({
            let (r, st2) = parse_loop_spec(lhs, st, min_bp);
            r is Done ==> stops_at(st2, min_bp) && (held_back_ok(st) ==> held_back_ok(st2))
        }),
    decreases measure(st), 1int,
{
    lemma_peek_progress(st);
    if held_back_ok(st) {
        lemma_held_back_kept(st);
    }
    let (r, st1) = peek_of(st);
    match r {
        Ok(t) => match t {
            TokenV::Eof => {},
            TokenV::RightParen => {},
            TokenV::LeftParen => {},
            _ => {
                let op = if t is Or {
                    Operator::Or
                } else {
                    Operator::And
                };
                let skip = t is And || t is Or;
                if !(1 < min_bp) {
                    lemma_next_progress(st1);
                    if held_back_ok(st1) {
        lemma_held_back_kept(st1);
    }
                    let st2 = if skip {
                        next_of(st1).1
                    } else {
                        st1
                    };
                    lemma_parse_bp_progress(st2, 2);
                    lemma_parse_bp_stops(st2, 2);
                    let (r3, st3) = parse_bp_spec(st2, 2);
                    match r3 {
                        ParsedV::Done(rhs) => {
                            if state_wf(st3) && measure(st3) < measure(st) {
                                lemma_parse_loop_stops(
                                    QueryV::Operator(op, Box::new(lhs), Box::new(rhs)),
                                    st3,
                                    min_bp,
                                );
                            }
                        },
                        _ => {},
                    }
                }
            },
        },
        Err(_) => {},
    }
}

/// A whole query is parsed up to the end of its input or up to a `)` that
/// closes nothing: after a successful parse the lexer holds back either the
/// end of input, at the end of the text, or that `)`, its position just past
/// it.
pub proof fn lemma_parse_stops(q: Seq<char>)
    ensures
        ({
            let (r, st2) = parse_bp_spec(initial_state(q), 0);
            r is Done ==> {
                ||| st2.peeked == Some(TokenV::Eof) && st2.pos == q.len()
                ||| st2.peeked == Some(TokenV::RightParen) && 1 <= st2.pos <= q.len() && q[st2.pos
                    - 1] == ')'
            }
        }),
{
    lemma_parse_bp_progress(initial_state(q), 0);
    lemma_parse_bp_stops(initial_state(q), 0);
}

pub open spec fn prepend_opt(p: Seq<char>, o: Option<Seq<char>>) -> Option<Seq<char>> {
    match o {
        Some(r) => Some(p + r),
        None => None,
    }
}

/// Replaces each `\"` in `s` by `"`; `None` when a backslash is followed by
/// anything else.
pub fn unescape(s: &Vec<char>) -> (r: Option<Vec<char>>)
    ensures
        match r {
            Some(v) => unescape_from(s@, 0) == Some(v@),
            None => unescape_from(s@, 0) is None,
        },
{
    let mut out: Vec<char> = Vec::new();
    let mut i: usize = 0;
    loop
        invariant
            i <= s.len(),
            unescape_from(s@, 0) == prepend_opt(out@, unescape_from(s@, i as int)),
        decreases s.len() - i,
    {
        proof {
            lemma_find(s@, i as int, '\\');
        }
        let k = find_char(s, i, '\\');
        if k >= s.len() {
            let ghost before = out@;
            extend_from_range(&mut out, s, i, s.len());
            assert(before + s@.subrange(i as int, s.len() as int) == out@);
            return Some(out);
        }
        let ghost before = out@;
        extend_from_range(&mut out, s, i, k);
        if !(k + 1 < s.len() && s[k + 1] == '"') {
            return None;
        }
        assert(prepend_opt(before, unescape_from(s@, i as int)) == prepend_opt(
            out@,
            unescape_from(s@, k + 1),
        )) by {
            match unescape_from(s@, k + 1) {
                Some(r) => {
                    assert(before + (s@.subrange(i as int, k as int) + r) == out@ + r);
                },
                None => {},
            }
        }
        i = k + 1;
    }
}

fn has_backslash_exec(s: &Vec<char>) -> (r: bool)
    ensures
        r == has_backslash(s@),
{
    find_char(s, 0, '\\') < s.len()
}

fn term_from_chars(s: &Vec<char>) -> (t: Term)
    ensures
        t@ == term_of(s@),
{
    let text = string_from_chars(s);
    Term::from(text.as_str())
}

/// Parses an operand and then the operators that follow it while they bind
/// at least as tightly as `min_bp`.
pub fn parse_bp(lexer: &mut Lexer, min_bp: u8) -> (res: ParseStep)
    requires
        old(lexer).wf(),
    ensures
        final(lexer).wf(),
        (res@, final(lexer).state()) == parse_bp_spec(old(lexer).state(), min_bp),
        res is Done ==> stops_at(final(lexer).state(), min_bp),
    decreases measure(old(lexer).state()),
{
    proof {
        lexer.lemma_wf();
        lemma_parse_bp_stops(lexer.state(), min_bp);
    }
    let ghost st0 = lexer.state();
    proof {
        lexer.lemma_wf();
        lemma_next_progress(st0);
    }
    let tok = lexer.next();
    let ghost st1 = lexer.state();
    let lhs: Query = match tok {
        Err(e) => return ParseStep::Failed(QueryError::Lex(e)),
        Ok(Token::String(s)) => {
            match unescape(&s) {
                Some(u) => Query::Leaf(Leaf::Term { term: term_from_chars(&u) }),
                None => return ParseStep::Failed(QueryError::InvalidEscape),
            }
        },
        Ok(Token::Qualifier(name)) => {
            let qualifier = match Qualifier::try_from(&name) {
                Some(q) => q,
                None => return ParseStep::Failed(QueryError::UnknownQualifier(name)),
            };
            proof {
                lexer.lemma_wf();
                lemma_next_progress(st1);
            }
            let tok2 = lexer.next();
            let term = match tok2 {
                Err(e) => return ParseStep::Failed(QueryError::Lex(e)),
                Ok(Token::String(s)) => term_from_chars(&s),
                Ok(Token::UnquotedTerm(s)) => {
                    if has_backslash_exec(&s) {
                        return ParseStep::Failed(QueryError::EscapeInUnquotedTerm(s));
                    }
                    term_from_chars(&s)
                },
                Ok(other) => return ParseStep::Failed(QueryError::ExpectedLiteral(other)),
            };
            Query::Leaf(Leaf::Qualified { qualifier, term })
        },
        Ok(Token::UnquotedTerm(s)) => {
            if has_backslash_exec(&s) {
                return ParseStep::Failed(QueryError::EscapeInUnquotedTerm(s));
            }
            Query::Leaf(Leaf::Term { term: term_from_chars(&s) })
        },
        Ok(Token::LeftParen) => {
            proof {
                lexer.lemma_wf();
                lemma_parse_bp_progress(st1, 0);
            }
            let inner = parse_bp(lexer, 0);
            let ghost st2 = lexer.state();
            match inner {
                ParseStep::Done(q) => {
                    proof {
                        lexer.lemma_wf();
                        lemma_next_progress(st2);
                    }
                    let close = lexer.next();
                    match close {
                        Err(e) => return ParseStep::Failed(QueryError::Lex(e)),
                        Ok(Token::RightParen) => q,
                        Ok(_) => return ParseStep::Failed(QueryError::ExpectedRightParen),
                    }
                },
                other => return other,
            }
        },
        Ok(other) => return ParseStep::Failed(QueryError::ExpectedOperand(other)),
    };
    let mut lhs = lhs;
    loop
        invariant
            lexer.wf(),
            st0 == old(lexer).state(),
            state_wf(st0),
            lexer.state().query == st0.query,
            measure(lexer.state()) < measure(st0),
            parse_loop_spec(lhs@, lexer.state(), min_bp) == parse_bp_spec(st0, min_bp),
        decreases measure(lexer.state()),
    {
        let ghost st = lexer.state();
        proof {
            lexer.lemma_wf();
            lemma_peek_progress(st);
        }
        let (op, skip) = match lexer.peek() {
            Err(e) => return ParseStep::Failed(QueryError::Lex(e)),
            Ok(Token::Eof) => return ParseStep::Done(lhs),
            Ok(Token::RightParen) => return ParseStep::Done(lhs),
            Ok(Token::LeftParen) => return ParseStep::Stuck,
            Ok(Token::And) => (Operator::And, true),
            Ok(Token::Or) => (Operator::Or, true),
            Ok(_) => (Operator::And, false),
        };
        if 1 < min_bp {
            return ParseStep::Done(lhs);
        }
        let ghost sta = lexer.state();
        proof {
            lexer.lemma_wf();
            lemma_next_progress(sta);
        }
        if skip {
            let _ = lexer.next();
        }
        let ghost stb = lexer.state();
        proof {
            lexer.lemma_wf();
            lemma_parse_bp_progress(stb, 2);
        }
        assert(measure(stb) <= measure(sta) <= measure(st) < measure(st0));
        let rhs = parse_bp(lexer, 2);
        match rhs {
            ParseStep::Done(r) => {
                lhs = Query::Operator { op, lhs: Box::new(lhs), rhs: Box::new(r) };
            },
            other => return other,
        }
    }
}


/// The lexer state at the start of `q`.
pub open spec fn initial_state(q: Seq<char>) -> LexState {
    LexState { query: q, pos: 0, peeked: None }
}

/// What parsing the query text `q` gives: a blank query is the empty term,
/// anything else is parsed as a whole expression.
pub open spec fn parse_query(q: Seq<char>) -> ParsedV {
    if trim(q).len() == 0 {
        ParsedV::Done(QueryV::Leaf(LeafV::Term(term_of(Seq::empty()))))
    } else {
        parse_bp_spec(initial_state(q), 0).0
    }
}

fn parse_step(query_string: &str) -> (res: ParseStep)
    ensures
        res@ == parse_query(query_string@),
        trim(query_string@).len() == 0 ==> (res matches ParseStep::Done(q) && forall|l: Lemma|
            query_matches(q@, l)),
{
    let t = trimmed(query_string);
    if t.as_str().is_empty() {
        proof {
            reveal_strlit("");
            assert(""@ =~= Seq::<char>::empty());
        }
        let term = Term::from("");
        proof {
            assert forall|l: Lemma| query_matches(QueryV::Leaf(LeafV::Term(term@)), l) by {
                lemma_empty_term_matches_all(term@, l);
            }
        }
        return ParseStep::Done(Query::Leaf(Leaf::Term { term }));
    }
    let mut lexer = Lexer::new(query_string);
    parse_bp(&mut lexer, 0)
}

impl Query {
    /// Parses a query.  Text after a closing parenthesis that closes nothing
    /// is ignored; a blank query matches every lemma.
    pub fn parse(query_string: &str) -> (res: Result<Query, QueryError>)
        requires
            !(parse_query(query_string@) is Stuck),
        ensures
            match res {
                Ok(q) => parse_query(query_string@) == ParsedV::Done(q@),
                Err(e) => parse_query(query_string@) == ParsedV::Failed(e@),
            },
            trim(query_string@).len() == 0 ==> (res matches Ok(q) && forall|l: Lemma|
                query_matches(q@, l)),
    {
        match parse_step(query_string) {
            ParseStep::Done(q) => Ok(q),
            ParseStep::Failed(e) => Err(e),
            ParseStep::Stuck => {
                assert(false);
                Err(QueryError::ExpectedRightParen)
            },
        }
    }

    /// Parses a query, or gives `None` where an opening parenthesis directly
    /// follows a complete operand, which [`Query::parse`] does not accept.
    pub fn try_parse(query_string: &str) -> (res: Option<Result<Query, QueryError>>)
        ensures
            trim(query_string@).len() == 0 ==> (res matches Some(Ok(q)) && forall|l: Lemma|
                query_matches(q@, l)),
            match res {
                None => parse_query(query_string@) is Stuck,
                Some(Ok(q)) => parse_query(query_string@) == ParsedV::Done(q@),
                Some(Err(e)) => parse_query(query_string@) == ParsedV::Failed(e@),
            },
    {
        match parse_step(query_string) {
            ParseStep::Done(q) => Some(Ok(q)),
            ParseStep::Failed(e) => Some(Err(e)),
            ParseStep::Stuck => None,
        }
    }
}

} // verus!
