//! Splits a query string into tokens.

use vstd::prelude::*;

use crate::text::{
    eq_ignore_ascii_case, find, find_char, is_ws, lemma_find, lemma_skip_ws,
    range_eq_ignore_ascii_case, skip_whitespace, skip_ws, slice_to_vec, chars_of,
};

verus! {

/// A token of the query language.
#[derive(Debug)]
pub enum Token {
    /// The contents of a quoted string, escape sequences left in place.
    String(Vec<char>),
    /// The name before a colon, as in `gloss:`.
    Qualifier(Vec<char>),
    And,
    Or,
    Eof,
    UnquotedTerm(Vec<char>),
    LeftParen,
    RightParen,
}

/// The mathematical value of a [`Token`].
pub enum TokenV {
    String(Seq<char>),
    Qualifier(Seq<char>),
    And,
    Or,
    Eof,
    UnquotedTerm(Seq<char>),
    LeftParen,
    RightParen,
}

impl View for Token {
    type V = TokenV;

    open spec fn view(&self) -> TokenV {
        match self {
            Token::String(s) => TokenV::String(s@),
            Token::Qualifier(s) => TokenV::Qualifier(s@),
            Token::And => TokenV::And,
            Token::Or => TokenV::Or,
            Token::Eof => TokenV::Eof,
            Token::UnquotedTerm(s) => TokenV::UnquotedTerm(s@),
            Token::LeftParen => TokenV::LeftParen,
            Token::RightParen => TokenV::RightParen,
        }
    }
}

/// Why the lexer stopped.
#[derive(Debug, Clone, Copy, PartialEq, Eq)]
pub enum LexError {
    /// The input ended inside a quoted string.
    UnterminatedString,
    /// The input ended right after a backslash inside a quoted string.
    UnterminatedEscape,
    /// The next character was not the one expected.
    ExpectedChar(char),
}

/// The state of a lexer: the whole query, the position reached and the
/// token that `peek` holds back.
pub struct LexState {
    pub query: Seq<char>,
    pub pos: int,
    pub peeked: Option<TokenV>,
}

/// Lexer over a query string.
pub struct Lexer {
    query: Vec<char>,
    pos: usize,
    peeked: Option<Token>,
}

/// Scans a quoted string whose contents start at `i`; on success gives the
/// index of the closing quote.
pub open spec fn scan_string(q: Seq<char>, i: int) -> Result<int, LexError>
    decreases q.len() - i,
{
    if i < 0 || i >= q.len() {
        Err(LexError::UnterminatedString)
    } else if q[i] == '"' {
        Ok(i)
    } else if q[i] == '\\' {
        if i + 1 >= q.len() {
            Err(LexError::UnterminatedEscape)
        } else {
            scan_string(q, i + 2)
        }
    } else {
        scan_string(q, i + 1)
    }
}

pub open spec fn and_word() -> Seq<char> {
    seq!['a', 'n', 'd']
}

pub open spec fn or_word() -> Seq<char> {
    seq!['o', 'r']
}

/// One step of the lexer on `q` from position `p`, before any whitespace is
/// skipped: the token or error it gives, and the position after it.
pub open spec fn lex_at(q: Seq<char>, p: int) -> (Result<TokenV, LexError>, int) {
    let a = skip_ws(q, p);
    if a >= q.len() {
        (Ok(TokenV::Eof), a)
    } else if q[a] == '"' {
        match scan_string(q, a + 1) {
            Ok(k) => (Ok(TokenV::String(q.subrange(a + 1, k))), k + 1),
            Err(e) => (Err(e), a + 1),
        }
    } else if q[a] == '(' {
        (Ok(TokenV::LeftParen), a + 1)
    } else if q[a] == ')' {
        (Ok(TokenV::RightParen), a + 1)
    } else if find(q, a, ':') < find(q, a, ' ') {
        let k = find(q, a, ':');
        (Ok(TokenV::Qualifier(q.subrange(a, k))), k + 1)
    } else {
        let w = find(q, a, ' ');
        let seg = q.subrange(a, w);
        if eq_ignore_ascii_case(seg, and_word()) {
            (Ok(TokenV::And), w)
        } else if eq_ignore_ascii_case(seg, or_word()) {
            (Ok(TokenV::Or), w)
        } else {
            (Ok(TokenV::UnquotedTerm(seg)), w)
        }
    }
}

/// What `next` gives from a state, and the state after it.
pub open spec fn next_of(st: LexState) -> (Result<TokenV, LexError>, LexState) {
    match st.peeked {
        Some(t) => (Ok(t), LexState { peeked: None, ..st }),
        None => {
            let (r, p) = lex_at(st.query, st.pos);
            (r, LexState { pos: p, ..st })
        },
    }
}

/// What `peek` gives from a state, and the state after it.
pub open spec fn peek_of(st: LexState) -> (Result<TokenV, LexError>, LexState) {
    match st.peeked {
        Some(t) => (Ok(t), st),
        None => {
            let (r, p) = lex_at(st.query, st.pos);
            match r {
                Ok(t) => (Ok(t), LexState { pos: p, peeked: Some(t), ..st }),
                Err(e) => (Err(e), LexState { pos: p, ..st }),
            }
        },
    }
}

/// Peeking consumes nothing: after a successful peek, peeking again gives
/// the same token, and the next token is the peeked one, taken from the
/// same state that taking it directly would leave.
pub proof fn lemma_peek_then_next(st: LexState)
    requires
        peek_of(st).0 is Ok,
    ensures
        peek_of(peek_of(st).1) == peek_of(st),
        next_of(peek_of(st).1).0 == peek_of(st).0,
        next_of(peek_of(st).1).1 == next_of(st).1,
        next_of(st).0 == peek_of(st).0,
{
}

/// Twice the input left plus one for a held-back token other than `Eof`:
/// every token but `Eof` lowers it, and nothing raises it.
pub open spec fn measure(st: LexState) -> int {
    2 * (st.query.len() - st.pos) + match st.peeked {
        Some(TokenV::Eof) => 0int,
        Some(_) => 1int,
        None => 0int,
    }
}

pub open spec fn state_wf(st: LexState) -> bool {
    0 <= st.pos <= st.query.len()
}

pub proof fn lemma_scan_string(q: Seq<char>, i: int)
    requires
        0 <= i,
    ensures
        scan_string(q, i) matches Ok(k) ==> i <= k < q.len() && q[k] == '"',
    decreases q.len() - i,
{
    if 0 <= i < q.len() && q[i] != '"' {
        if q[i] == '\\' {
            if i + 1 < q.len() {
                lemma_scan_string(q, i + 2);
            }
        } else {
            lemma_scan_string(q, i + 1);
        }
    }
}

/// Every token but `Eof`, and every error, moves the lexer forward.
pub proof fn lemma_lex_at(q: Seq<char>, p: int)
    requires
        0 <= p <= q.len(),
    ensures
        ({
            let (r, p2) = lex_at(q, p);
            &&& p <= p2 <= q.len()
            &&& (r matches Ok(t) && t is Eof) ==> p2 == q.len()
            &&& !(r matches Ok(t) && t is Eof) ==> p < p2
        }),
{
    let a = skip_ws(q, p);
    lemma_skip_ws(q, p);
    if a < q.len() {
        lemma_scan_string(q, a + 1);
        lemma_find(q, a, ':');
        lemma_find(q, a, ' ');
        assert(is_ws(' '));
    }
}

pub proof fn lemma_next_progress(st: LexState)
    requires
        state_wf(st),
    ensures
        ({
            let (r, st2) = next_of(st);
            &&& state_wf(st2)
            &&& st2.query == st.query
            &&& st2.peeked is None
            &&& measure(st2) <= measure(st)
            &&& !(r matches Ok(t) && t is Eof) ==> measure(st2) < measure(st)
        }),
{
    if st.peeked is None {
        lemma_lex_at(st.query, st.pos);
    }
}

pub proof fn lemma_peek_progress(st: LexState)
    requires
        state_wf(st),
    ensures
        ({
            let (r, st2) = peek_of(st);
            &&& state_wf(st2)
            &&& st2.query == st.query
            &&& measure(st2) <= measure(st)
            &&& (r matches Ok(t) ==> st2.peeked == Some(t))
        }),
{
    if st.peeked is None {
        lemma_lex_at(st.query, st.pos);
    }
}

/// The lexer has stopped: it gave an error or the end of input.
pub open spec fn ends(r: Result<TokenV, LexError>) -> bool {
    r is Err || r == Ok::<TokenV, LexError>(TokenV::Eof)
}

/// One of the next `n` calls of `next` from `st` stops the lexer.
pub open spec fn ends_within(st: LexState, n: nat) -> bool
    decreases n,
{
    if n == 0 {
        false
    } else {
        ends(next_of(st).0) || ends_within(next_of(st).1, (n - 1) as nat)
    }
}

/// The number of calls of `next` within which the lexer stops: one per
/// character left, one for a held-back token other than `Eof`, and one
/// for the end.
pub open spec fn call_bound(st: LexState) -> nat {
    ((st.query.len() - st.pos) + 1 + if st.peeked is Some && st.peeked != Some(TokenV::Eof) {
        1int
    } else {
        0int
    }) as nat
}

proof fn lemma_ends_within_more(st: LexState, m: nat, n: nat)
    requires
        ends_within(st, m),
        m <= n,
    ensures
        ends_within(st, n),
    decreases m,
{
    if m > 0 && !ends(next_of(st).0) {
        lemma_ends_within_more(next_of(st).1, (m - 1) as nat, (n - 1) as nat);
    }
}

/// The lexer stops, with the end of input or an error, within
/// [`call_bound`] calls of `next`: from a fresh lexer on `q`, within
/// `q.len() + 1` calls.
pub proof fn lemma_lexer_ends(st: LexState)
    requires
        state_wf(st),
    ensures
        ends_within(st, call_bound(st)),
        st.pos == 0 && st.peeked is None ==> ends_within(st, st.query.len() + 1),
    decreases call_bound(st),
{
    let (r, st2) = next_of(st);
    if !ends(r) {
        if st.peeked is None {
            lemma_lex_at(st.query, st.pos);
        }
        lemma_lexer_ends(st2);
        lemma_ends_within_more(st2, call_bound(st2), (call_bound(st) - 1) as nat);
    }
}

/// With no token held back, `next` gives the end of input exactly when only
/// whitespace is left.
pub proof fn lemma_eof_iff_blank(st: LexState)
    requires
        state_wf(st),
        st.peeked is None,
    ensures
        next_of(st).0 == Ok::<TokenV, LexError>(TokenV::Eof) <==> forall|j: int|
            st.pos <= j < st.query.len() ==> is_ws(#[trigger] st.query[j]),
{
    lemma_skip_ws(st.query, st.pos);
    lemma_lex_at(st.query, st.pos);
    let a = skip_ws(st.query, st.pos);
    if a < st.query.len() {
        assert(!is_ws(st.query[a]));
        lemma_scan_string(st.query, a + 1);
    }
}

/// The lexer holds back an `Eof` only at the end of its input, as `peek`
/// leaves it.
pub open spec fn eof_at_end(st: LexState) -> bool {
    st.peeked == Some(TokenV::Eof) ==> st.pos == st.query.len()
}

/// `next` and `peek` keep [`eof_at_end`].
pub proof fn lemma_eof_at_end_kept(st: LexState)
    requires
        state_wf(st),
        eof_at_end(st),
    ensures
        eof_at_end(next_of(st).1),
        eof_at_end(peek_of(st).1),
{
    if st.peeked is None {
        lemma_lex_at(st.query, st.pos);
    }
}

/// Once `next` has given the end of input, every later call gives it again
/// and leaves the lexer as it is.
pub proof fn lemma_eof_repeats(st: LexState)
    requires
        state_wf(st),
        eof_at_end(st),
        next_of(st).0 == Ok::<TokenV, LexError>(TokenV::Eof),
    ensures
        next_of(next_of(st).1) == (Ok::<TokenV, LexError>(TokenV::Eof), next_of(st).1),
{
    let st2 = next_of(st).1;
    if st.peeked is None {
        lemma_lex_at(st.query, st.pos);
    }
    lemma_skip_ws(st2.query, st2.pos);
}

/// A held-back end of input sits at the end, and a held-back `)` just
/// before the position.
pub open spec fn held_back_ok(st: LexState) -> bool {
    &&& (st.peeked == Some(TokenV::Eof) ==> st.pos == st.query.len())
    &&& (st.peeked == Some(TokenV::RightParen) ==> 1 <= st.pos <= st.query.len() && st.query[st.pos
        - 1] == ')')
}

/// `next` and `peek` keep [`held_back_ok`].
pub proof fn lemma_held_back_kept(st: LexState)
    requires
        state_wf(st),
        held_back_ok(st),
    ensures
        held_back_ok(next_of(st).1),
        held_back_ok(peek_of(st).1),
{
    if st.peeked is None {
        lemma_lex_at(st.query, st.pos);
        let a = skip_ws(st.query, st.pos);
        lemma_skip_ws(st.query, st.pos);
        if a < st.query.len() {
            lemma_scan_string(st.query, a + 1);
            lemma_find(st.query, a, ':');
            lemma_find(st.query, a, ' ');
        }
    }
}

impl Lexer {
    pub closed spec fn state(&self) -> LexState {
        LexState {
            query: self.query@,
            pos: self.pos as int,
            peeked: match self.peeked {
                Some(t) => Some(t@),
                None => None,
            },
        }
    }

    pub closed spec fn wf(&self) -> bool {
        self.pos <= self.query.len()
    }

    pub proof fn lemma_wf(&self)
        requires
            self.wf(),
        ensures
            state_wf(self.state()),
    {
    }

    /// A lexer positioned at the start of `query`.
    pub fn new(query: &str) -> (lexer: Lexer)
        ensures
            lexer.wf(),
            lexer.state() == (LexState { query: query@, pos: 0, peeked: None }),
    {
        Lexer { query: chars_of(query), pos: 0, peeked: None }
    }

    /// Gives the next token, or the one held back by `peek`.
    pub fn next(&mut self) -> (res: Result<Token, LexError>)
        requires
            old(self).wf(),
        ensures
            final(self).wf(),
            ({
                let (r, st) = next_of(old(self).state());
                &&& final(self).state() == st
                &&& match res {
                    Ok(t) => r == Ok::<TokenV, LexError>(t@),
                    Err(e) => r == Err::<TokenV, LexError>(e),
                }
            }),
    {
        if self.peeked.is_some() {
            let t = self.peeked.take();
            match t {
                Some(t) => return Ok(t),
                None => {
                    assert(false);
                    return Ok(Token::Eof);
                },
            }
        }
        let ghost q = self.query@;
        let ghost p = self.pos as int;
        proof {
            lemma_skip_ws(q, p);
        }
        self.pos = skip_whitespace(&self.query, self.pos);
        let a = self.pos;
        if a >= self.query.len() {
            return Ok(Token::Eof);
        }
        if self.query[a] == '"' {
            return self.string();
        }
        if self.eat_char('(').is_ok() {
            return Ok(Token::LeftParen);
        }
        if self.eat_char(')').is_ok() {
            return Ok(Token::RightParen);
        }
        let qual = self.qualifier();
        match qual {
            Ok(Some(t)) => return Ok(t),
            _ => {},
        }
        let op = self.operator();
        match op {
            Ok(Some(t)) => return Ok(t),
            _ => {},
        }
        proof {
            lemma_find(q, a as int, ' ');
        }
        let w = find_char(&self.query, self.pos, ' ');
        let seg = slice_to_vec(&self.query, self.pos, w);
        self.pos = w;
        Ok(Token::UnquotedTerm(seg))
    }

    /// Gives the next token without consuming it.
    pub fn peek(&mut self) -> (res: Result<&Token, LexError>)
        requires
            old(self).wf(),
        ensures
            final(self).wf(),
            ({
                let (r, st) = peek_of(old(self).state());
                &&& final(self).state() == st
                &&& match res {
                    Ok(t) => r == Ok::<TokenV, LexError>(t@),
                    Err(e) => r == Err::<TokenV, LexError>(e),
                }
            }),
    {
        if self.peeked.is_none() {
            let t = self.next();
            match t {
                Ok(t) => {
                    self.peeked = Some(t);
                },
                Err(e) => return Err(e),
            }
        }
        match &self.peeked {
            Some(t) => Ok(t),
            None => {
                assert(false);
                Err(LexError::UnterminatedString)
            },
        }
    }

    /// Consumes `c` if it is the next character.
    pub fn eat_char(&mut self, c: char) -> (res: Result<(), LexError>)
        requires
            old(self).wf(),
        ensures
            final(self).wf(),
            final(self).state().query == old(self).state().query,
            final(self).state().peeked == old(self).state().peeked,
            ({
                let q = old(self).state().query;
                let p = old(self).state().pos;
                if p < q.len() && q[p] == c {
                    res is Ok && final(self).state().pos == p + 1
                } else {
                    res == Err::<(), LexError>(LexError::ExpectedChar(c)) && final(self).state().pos == p
                }
            }),
    {
        if self.pos < self.query.len() && self.query[self.pos] == c {
            self.pos = self.pos + 1;
            Ok(())
        } else {
            Err(LexError::ExpectedChar(c))
        }
    }

    /// Lexes a quoted string that starts at the current position.
    pub fn string(&mut self) -> (res: Result<Token, LexError>)
        requires
            old(self).wf(),
        ensures
            final(self).wf(),
            final(self).state().query == old(self).state().query,
            final(self).state().peeked == old(self).state().peeked,
            ({
                let q = old(self).state().query;
                let p = old(self).state().pos;
                if !(p < q.len() && q[p] == '"') {
                    res == Err::<Token, LexError>(LexError::ExpectedChar('"'))
                        && final(self).state().pos == p
                } else {
                    match scan_string(q, p + 1) {
                        Ok(k) => {
                            &&& res matches Ok(t) && t@ == TokenV::String(q.subrange(p + 1, k))
                            &&& final(self).state().pos == k + 1
                        },
                        Err(e) => res == Err::<Token, LexError>(e) && final(self).state().pos == p + 1,
                    }
                }
            }),
    {
        match self.eat_char('"') {
            Ok(()) => {},
            Err(e) => return Err(e),
        }
        let start = self.pos;
        let mut i = start;
        let ghost q = self.query@;
        while i < self.query.len() && self.query[i] != '"'
            invariant
                start <= i <= q.len(),
                q == self.query@,
                self.wf(),
                self.pos == start,
                start == old(self).state().pos + 1,
                old(self).state().pos < q.len(),
                q[old(self).state().pos] == '"',
                self.state().peeked == old(self).state().peeked,
                self.state().query == old(self).state().query,
                scan_string(q, start as int) == scan_string(q, i as int),
            decreases q.len() - i,
        {
            if self.query[i] == '\\' {
                if i + 1 >= self.query.len() {
                    assert(scan_string(q, i as int) == Err::<int, LexError>(LexError::UnterminatedEscape));
                    return Err(LexError::UnterminatedEscape);
                }
                i = i + 2;
            } else {
                i = i + 1;
            }
        }
        if i >= self.query.len() {
            return Err(LexError::UnterminatedString);
        }
        let s = slice_to_vec(&self.query, start, i);
        self.pos = i + 1;
        Ok(Token::String(s))
    }

    /// Lexes `name:` when a colon comes before any space.
    pub fn qualifier(&mut self) -> (res: Result<Option<Token>, LexError>)
        requires
            old(self).wf(),
        ensures
            final(self).wf(),
            final(self).state().query == old(self).state().query,
            final(self).state().peeked == old(self).state().peeked,
            res is Ok,
            ({
                let q = old(self).state().query;
                let p = old(self).state().pos;
                if find(q, p, ':') < find(q, p, ' ') {
                    &&& res matches Ok(Some(t)) && t@ == TokenV::Qualifier(
                        q.subrange(p, find(q, p, ':')),
                    )
                    &&& final(self).state().pos == find(q, p, ':') + 1
                } else {
                    res matches Ok(None) && final(self).state().pos == p
                }
            }),
    {
        let k = find_char(&self.query, self.pos, ':');
        let sp = find_char(&self.query, self.pos, ' ');
        if k >= self.query.len() {
            return Ok(None);
        }
        if sp < k {
            return Ok(None);
        }
        proof {
            lemma_find(self.query@, self.pos as int, ':');
            lemma_find(self.query@, self.pos as int, ' ');
        }
        let prefix = slice_to_vec(&self.query, self.pos, k);
        self.pos = k;
        let eaten = self.eat_char(':');
        Ok(Some(Token::Qualifier(prefix)))
    }

    /// Lexes the word up to the next space as `and` or `or`, ignoring ASCII
    /// case.
    pub fn operator(&mut self) -> (res: Result<Option<Token>, LexError>)
        requires
            old(self).wf(),
        ensures
            final(self).wf(),
            final(self).state().query == old(self).state().query,
            final(self).state().peeked == old(self).state().peeked,
            res is Ok,
            ({
                let q = old(self).state().query;
                let p = old(self).state().pos;
                let w = find(q, p, ' ');
                let seg = q.subrange(p, w);
                if eq_ignore_ascii_case(seg, and_word()) {
                    res matches Ok(Some(t)) && t@ == TokenV::And && final(self).state().pos == w
                } else if eq_ignore_ascii_case(seg, or_word()) {
                    res matches Ok(Some(t)) && t@ == TokenV::Or && final(self).state().pos == w
                } else {
                    res matches Ok(None) && final(self).state().pos == p
                }
            }),
    {
        let w = find_char(&self.query, self.pos, ' ');
        let and_w = ['a', 'n', 'd'];
        let or_w = ['o', 'r'];
        assert(and_w@ == and_word());
        assert(or_w@ == or_word());
        if range_eq_ignore_ascii_case(&self.query, self.pos, w, &and_w) {
            self.pos = w;
            Ok(Some(Token::And))
        } else if range_eq_ignore_ascii_case(&self.query, self.pos, w, &or_w) {
            self.pos = w;
            Ok(Some(Token::Or))
        } else {
            Ok(None)
        }
    }
}

} // verus!
