//! The grammar that the parser gives, stated on query texts made of plain
//! words: words side by side are joined by `and`, and `and` and `or` bind
//! equally and group to the left.

use vstd::prelude::*;

use super::lexer::{and_word, lex_at, or_word, LexState, TokenV};
use super::parser::{has_backslash, initial_state, parse_bp_spec, parse_loop_spec, parse_query, ParsedV};
use super::{term_of, LeafV, Operator, QueryV};
use crate::text::{eq_ignore_ascii_case, find, is_ws, lemma_trim_end_at, skip_ws, trim, trim_end_at};

verus! {

/// A character that can stand in a plain word.
pub open spec fn word_char(c: char) -> bool {
    &&& !is_ws(c)
    &&& c != '"'
    &&& c != '('
    &&& c != ')'
    &&& c != ':'
    &&& c != '\\'
}

/// A word of word characters, without case `and` or `or`.
pub open spec fn plain_word(w: Seq<char>) -> bool {
    &&& w.len() > 0
    &&& forall|i: int| 0 <= i < w.len() ==> word_char(#[trigger] w[i])
    &&& !eq_ignore_ascii_case(w, and_word())
    &&& !eq_ignore_ascii_case(w, or_word())
}

/// The token that a word of word characters gives.
pub open spec fn word_token(w: Seq<char>) -> TokenV {
    if eq_ignore_ascii_case(w, and_word()) {
        TokenV::And
    } else if eq_ignore_ascii_case(w, or_word()) {
        TokenV::Or
    } else {
        TokenV::UnquotedTerm(w)
    }
}

/// The word that writes an operator.
pub open spec fn op_word(op: Operator) -> Seq<char> {
    match op {
        Operator::And => and_word(),
        Operator::Or => or_word(),
    }
}

/// The leaf that a plain word gives.
pub open spec fn word_leaf(w: Seq<char>) -> QueryV {
    QueryV::Leaf(LeafV::Term(term_of(w)))
}

proof fn lemma_find_past(q: Seq<char>, i: int, j: int, c: char)
    requires
        0 <= i <= j <= q.len(),
        forall|k: int| i <= k < j ==> q[k] != c,
    ensures
        find(q, i, c) == find(q, j, c),
    decreases j - i,
{
    if i < j {
        lemma_find_past(q, i + 1, j, c);
    }
}

proof fn lemma_find_at_least(q: Seq<char>, i: int, c: char)
    requires
        0 <= i <= q.len(),
    ensures
        i <= find(q, i, c),
        find(q, i, c) == i ==> (i == q.len() || q[i] == c),
    decreases q.len() - i,
{
    if i < q.len() && q[i] != c {
        lemma_find_at_least(q, i + 1, c);
    }
}

/// A word of word characters at `p`, followed by a space or the end, is
/// one token.
proof fn lemma_lex_word(q: Seq<char>, p: int, w: Seq<char>)
    requires
        0 <= p,
        p + w.len() <= q.len(),
        q.subrange(p, p + w.len()) == w,
        w.len() > 0,
        forall|i: int| 0 <= i < w.len() ==> word_char(#[trigger] w[i]),
        p + w.len() == q.len() || q[p + w.len()] == ' ',
    ensures
        lex_at(q, p) == (Ok::<TokenV, super::lexer::LexError>(word_token(w)), p + w.len()),
{
    let e = p + w.len();
    assert forall|k: int| p <= k < e implies q[k] != ' ' && q[k] != ':' by {
        assert(q[k] == w[k - p]);
        assert(word_char(w[k - p]));
        assert(is_ws(' '));
    }
    assert(q[p] == w[0]);
    assert(word_char(w[0]));
    assert(skip_ws(q, p) == p);
    lemma_find_past(q, p, e, ' ');
    lemma_find_past(q, p, e, ':');
    lemma_find_at_least(q, e, ':');
    lemma_find_at_least(q, e, ' ');
    assert(find(q, p, ' ') == e);
    assert(q.subrange(p, find(q, p, ' ')) == w);
}

/// A space before a token is skipped.
proof fn lemma_lex_space(q: Seq<char>, p: int)
    requires
        0 <= p,
        p + 1 < q.len(),
        q[p] == ' ',
        !is_ws(q[p + 1]),
    ensures
        lex_at(q, p) == lex_at(q, p + 1),
{
    assert(is_ws(' '));
    assert(skip_ws(q, p + 1) == p + 1);
    assert(skip_ws(q, p) == skip_ws(q, p + 1));
}

proof fn lemma_lex_end(q: Seq<char>)
    ensures
        lex_at(q, q.len() as int) == (Ok::<TokenV, super::lexer::LexError>(TokenV::Eof), q.len() as int),
{
}

proof fn lemma_trim_end_above(s: Seq<char>, lo: int, j: int)
    requires
        0 <= lo < j <= s.len(),
        !is_ws(s[lo]),
    ensures
        trim_end_at(s, lo, j) > lo,
    decreases j - lo,
{
    if lo < j - 1 && is_ws(s[j - 1]) {
        lemma_trim_end_above(s, lo, j - 1);
    }
}

proof fn lemma_not_blank(q: Seq<char>)
    requires
        q.len() > 0,
        !is_ws(q[0]),
    ensures
        trim(q).len() > 0,
{
    assert(skip_ws(q, 0) == 0);
    lemma_trim_end_at(q, 0, q.len() as int);
    lemma_trim_end_above(q, 0, q.len() as int);
}

proof fn lemma_plain_word_facts(w: Seq<char>)
    requires
        plain_word(w),
    ensures
        word_token(w) == TokenV::UnquotedTerm(w),
        !has_backslash(w),
        !is_ws(w[0]),
{
    assert(word_char(w[0]));
    lemma_find_past(w, 0, w.len() as int, '\\');
}

proof fn lemma_op_word_facts(op: Operator)
    ensures
        op_word(op).len() > 0,
        forall|i: int| 0 <= i < op_word(op).len() ==> word_char(#[trigger] op_word(op)[i]),
        word_token(op_word(op)) == (match op {
            Operator::And => TokenV::And,
            Operator::Or => TokenV::Or,
        }),
        !is_ws(op_word(op)[0]),
{
    assert(eq_ignore_ascii_case(and_word(), and_word()));
    assert(eq_ignore_ascii_case(or_word(), or_word()));
}

/// Two words side by side are joined by `and`.
pub proof fn lemma_words_side_by_side(x: Seq<char>, y: Seq<char>)
    requires
        plain_word(x),
        plain_word(y),
    ensures
        parse_query(x + seq![' '] + y) == ParsedV::Done(
            QueryV::Operator(Operator::And, Box::new(word_leaf(x)), Box::new(word_leaf(y))),
        ),
{
    let q = x + seq![' '] + y;
    let a = x.len() as int;
    let n = q.len() as int;
    lemma_plain_word_facts(x);
    lemma_plain_word_facts(y);
    assert(q.subrange(0, a) =~= x);
    assert(q.subrange(a + 1, n) =~= y);
    assert(q[a] == ' ');
    assert(q[a + 1] == y[0]);
    assert(q[0] == x[0]);
    lemma_not_blank(q);
    lemma_lex_word(q, 0, x);
    lemma_lex_word(q, a + 1, y);
    lemma_lex_space(q, a);
    lemma_lex_end(q);
    let lx = word_leaf(x);
    let ly = word_leaf(y);
    let s1 = LexState { query: q, pos: a, peeked: None };
    let s1p = LexState { query: q, pos: n, peeked: Some(TokenV::UnquotedTerm(y)) };
    let s2 = LexState { query: q, pos: n, peeked: None };
    let s3 = LexState { query: q, pos: n, peeked: Some(TokenV::Eof) };
    assert(parse_loop_spec(ly, s2, 2) == (ParsedV::Done(ly), s3));
    assert(parse_bp_spec(s1p, 2) == (ParsedV::Done(ly), s3));
    let both = QueryV::Operator(Operator::And, Box::new(lx), Box::new(ly));
    assert(parse_loop_spec(both, s3, 0) == (ParsedV::Done(both), s3));
    assert(parse_loop_spec(lx, s1, 0) == (ParsedV::Done(both), s3));
    assert(parse_bp_spec(initial_state(q), 0) == (ParsedV::Done(both), s3));
}

/// An operand below the top level: a word, then the token that stops it.
proof fn lemma_operand(q: Seq<char>, p: int, w: Seq<char>, e: int, tok: TokenV, e2: int)
    requires
        0 <= p <= e <= e2 <= q.len(),
        lex_at(q, p) == (Ok::<TokenV, super::lexer::LexError>(TokenV::UnquotedTerm(w)), e),
        !has_backslash(w),
        lex_at(q, e) == (Ok::<TokenV, super::lexer::LexError>(tok), e2),
        tok == TokenV::Eof || tok == TokenV::And || tok == TokenV::Or,
    ensures
        parse_bp_spec(LexState { query: q, pos: p, peeked: None }, 2) == (
            ParsedV::Done(word_leaf(w)),
            LexState { query: q, pos: e2, peeked: Some(tok) },
        ),
{
    let se = LexState { query: q, pos: e, peeked: None };
    assert(parse_loop_spec(word_leaf(w), se, 2) == (
        ParsedV::Done(word_leaf(w)),
        LexState { query: q, pos: e2, peeked: Some(tok) },
    ));
}

/// One step of the top-level loop over an operator.
proof fn lemma_loop_step(
    s: LexState,
    lhs: QueryV,
    p: int,
    op: Operator,
    rhs: QueryV,
    s3: LexState,
    res: (ParsedV, LexState),
)
    requires
        super::lexer::state_wf(s),
        0 <= p <= s.query.len(),
        super::lexer::peek_of(s) == (
            Ok::<TokenV, super::lexer::LexError>(word_token(op_word(op))),
            LexState { query: s.query, pos: p, peeked: Some(word_token(op_word(op))) },
        ),
        parse_bp_spec(LexState { query: s.query, pos: p, peeked: None }, 2) == (
            ParsedV::Done(rhs),
            s3,
        ),
        super::lexer::state_wf(s3),
        super::lexer::measure(s3) < super::lexer::measure(s),
        parse_loop_spec(QueryV::Operator(op, Box::new(lhs), Box::new(rhs)), s3, 0) == res,
    ensures
        parse_loop_spec(lhs, s, 0) == res,
{
    lemma_op_word_facts(op);
}

/// The top-level loop ends at the end of input.
proof fn lemma_loop_eof(lhs: QueryV, q: Seq<char>)
    ensures
        parse_loop_spec(lhs, LexState { query: q, pos: q.len() as int, peeked: Some(TokenV::Eof) }, 0)
            == (
            ParsedV::Done(lhs),
            LexState { query: q, pos: q.len() as int, peeked: Some(TokenV::Eof) },
        ),
{
}

/// A query starting with a plain word is parsed as the loop after it.
proof fn lemma_first_word(q: Seq<char>, x: Seq<char>, a: int, res: (ParsedV, LexState))
    requires
        0 <= a <= q.len(),
        lex_at(q, 0) == (Ok::<TokenV, super::lexer::LexError>(TokenV::UnquotedTerm(x)), a),
        !has_backslash(x),
        parse_loop_spec(word_leaf(x), LexState { query: q, pos: a, peeked: None }, 0) == res,
    ensures
        parse_bp_spec(initial_state(q), 0) == res,
{
}

/// The text `x o1 y o2 z`, with a space between neighbours.
pub open spec fn three_words(x: Seq<char>, o1: Operator, y: Seq<char>, o2: Operator, z: Seq<char>) -> Seq<char> {
    x + seq![' '] + op_word(o1) + seq![' '] + y + seq![' '] + op_word(o2) + seq![' '] + z
}

/// How the lexer reads `x o1 y o2 z`: each word is one token, ending just
/// before the space that follows it.
#[verifier::rlimit(40)]
proof fn lemma_three_words_lex(x: Seq<char>, o1: Operator, y: Seq<char>, o2: Operator, z: Seq<char>)
    requires
        plain_word(x),
        plain_word(y),
        plain_word(z),
    ensures
        ({
            let q = three_words(x, o1, y, o2, z);
            let a = x.len() as int;
            let b0 = a + 1 + op_word(o1).len();
            let c = b0 + 1 + y.len();
            let d0 = c + 1 + op_word(o2).len();
            let n = q.len() as int;
            &&& n == d0 + 1 + z.len()
            &&& trim(q).len() > 0
            &&& lex_at(q, 0) == (Ok::<TokenV, super::lexer::LexError>(TokenV::UnquotedTerm(x)), a)
            &&& lex_at(q, a) == (Ok::<TokenV, super::lexer::LexError>(word_token(op_word(o1))), b0)
            &&& lex_at(q, b0) == (Ok::<TokenV, super::lexer::LexError>(TokenV::UnquotedTerm(y)), c)
            &&& lex_at(q, c) == (Ok::<TokenV, super::lexer::LexError>(word_token(op_word(o2))), d0)
            &&& lex_at(q, d0) == (Ok::<TokenV, super::lexer::LexError>(TokenV::UnquotedTerm(z)), n)
            &&& lex_at(q, n) == (Ok::<TokenV, super::lexer::LexError>(TokenV::Eof), n)
        }),
{
    let w1 = op_word(o1);
    let w2 = op_word(o2);
    let q = three_words(x, o1, y, o2, z);
    let a = x.len() as int;
    let b0 = a + 1 + w1.len();
    let b = b0 + 1;
    let c = b + y.len();
    let d0 = c + 1 + w2.len();
    let d = d0 + 1;
    let n = q.len() as int;
    lemma_plain_word_facts(x);
    lemma_plain_word_facts(y);
    lemma_plain_word_facts(z);
    lemma_op_word_facts(o1);
    lemma_op_word_facts(o2);
    assert(q.subrange(0, a) =~= x);
    assert(q.subrange(a + 1, b0) =~= w1);
    assert(q.subrange(b, c) =~= y);
    assert(q.subrange(c + 1, d0) =~= w2);
    assert(q.subrange(d, n) =~= z);
    assert(q[a] == ' ' && q[b0] == ' ' && q[c] == ' ' && q[d0] == ' ');
    assert(q[0] == x[0] && q[a + 1] == w1[0] && q[b] == y[0] && q[c + 1] == w2[0] && q[d] == z[0]);
    lemma_not_blank(q);
    lemma_lex_word(q, 0, x);
    lemma_lex_word(q, a + 1, w1);
    lemma_lex_word(q, b, y);
    lemma_lex_word(q, c + 1, w2);
    lemma_lex_word(q, d, z);
    lemma_lex_space(q, a);
    lemma_lex_space(q, b0);
    lemma_lex_space(q, c);
    lemma_lex_space(q, d0);
    lemma_lex_end(q);
}

/// `and` and `or` bind equally and group to the left: `x o1 y o2 z` is
/// `(x o1 y) o2 z`, whichever the two operators are.
pub proof fn lemma_operators_group_left(
    x: Seq<char>,
    o1: Operator,
    y: Seq<char>,
    o2: Operator,
    z: Seq<char>,
)
    requires
        plain_word(x),
        plain_word(y),
        plain_word(z),
    ensures
        parse_query(three_words(x, o1, y, o2, z)) == ParsedV::Done(
            QueryV::Operator(
                o2,
                Box::new(QueryV::Operator(o1, Box::new(word_leaf(x)), Box::new(word_leaf(y)))),
                Box::new(word_leaf(z)),
            ),
        ),
{
    let q = three_words(x, o1, y, o2, z);
    let a = x.len() as int;
    let b0 = a + 1 + op_word(o1).len();
    let c = b0 + 1 + y.len();
    let d0 = c + 1 + op_word(o2).len();
    let n = q.len() as int;
    lemma_three_words_lex(x, o1, y, o2, z);
    lemma_plain_word_facts(x);
    lemma_plain_word_facts(y);
    lemma_plain_word_facts(z);
    lemma_op_word_facts(o1);
    lemma_op_word_facts(o2);
    let lx = word_leaf(x);
    let ly = word_leaf(y);
    let lz = word_leaf(z);
    let xy = QueryV::Operator(o1, Box::new(lx), Box::new(ly));
    let all = QueryV::Operator(o2, Box::new(xy), Box::new(lz));
    let se = LexState { query: q, pos: n, peeked: Some(TokenV::Eof) };
    let sp2 = LexState { query: q, pos: d0, peeked: Some(word_token(op_word(o2))) };
    let sa = LexState { query: q, pos: a, peeked: None };
    lemma_operand(q, d0, z, n, TokenV::Eof, n);
    lemma_operand(q, b0, y, c, word_token(op_word(o2)), d0);
    lemma_loop_eof(all, q);
    lemma_loop_step(sp2, xy, d0, o2, lz, se, (ParsedV::Done(all), se));
    lemma_loop_step(sa, lx, b0, o1, ly, sp2, (ParsedV::Done(all), se));
    lemma_first_word(q, x, a, (ParsedV::Done(all), se));
    assert(parse_bp_spec(initial_state(q), 0) == (ParsedV::Done(all), se));
}

} // verus!
