use maknuuner::query::lexer::{LexError, Lexer, Token};
use maknuuner::query::parser::QueryError;
use maknuuner::query::{Leaf, Operator, Qualifier, Query, Term};

fn chars(s: &str) -> Vec<char> {
    s.chars().collect()
}

fn tokens(query: &str) -> Vec<String> {
    let mut lexer = Lexer::new(query);
    let mut out = Vec::new();
    loop {
        let token = lexer.next().unwrap();
        let done = matches!(token, Token::Eof);
        out.push(format!("{token:?}"));
        if done {
            return out;
        }
    }
}

fn term_text(term: &Term) -> String {
    term.written()
}

fn show(query: &Query) -> String {
    match query {
        Query::Leaf(Leaf::Term { term }) => term_text(term),
        Query::Leaf(Leaf::Qualified { qualifier, term }) => {
            format!("{}:{}", qualifier.name(), term_text(term))
        }
        Query::Operator { op, lhs, rhs } => {
            let op = match op {
                Operator::And => "AND",
                Operator::Or => "OR",
            };
            format!("({} {} {})", show(lhs), op, show(rhs))
        }
    }
}

#[test]
fn lexer_splits_terms_on_spaces() {
    assert_eq!(
        tokens("  foo bar"),
        vec![
            format!("{:?}", Token::UnquotedTerm(chars("foo"))),
            format!("{:?}", Token::UnquotedTerm(chars("bar"))),
            format!("{:?}", Token::Eof),
        ]
    );
}

#[test]
fn lexer_reads_operators_without_case() {
    assert_eq!(
        tokens("a AND b oR c"),
        vec![
            format!("{:?}", Token::UnquotedTerm(chars("a"))),
            format!("{:?}", Token::And),
            format!("{:?}", Token::UnquotedTerm(chars("b"))),
            format!("{:?}", Token::Or),
            format!("{:?}", Token::UnquotedTerm(chars("c"))),
            format!("{:?}", Token::Eof),
        ]
    );
}

#[test]
fn lexer_reads_strings_qualifiers_and_parens() {
    assert_eq!(
        tokens("gloss:\"a \\\" b\" (x)"),
        vec![
            format!("{:?}", Token::Qualifier(chars("gloss"))),
            format!("{:?}", Token::String(chars("a \\\" b"))),
            format!("{:?}", Token::LeftParen),
            format!("{:?}", Token::UnquotedTerm(chars("x)"))),
            format!("{:?}", Token::Eof),
        ]
    );
}

#[test]
fn lexer_reports_unterminated_strings() {
    let mut lexer = Lexer::new("\"abc");
    assert!(matches!(lexer.next(), Err(LexError::UnterminatedString)));
    let mut lexer = Lexer::new("\"abc\\");
    assert!(matches!(lexer.next(), Err(LexError::UnterminatedEscape)));
}

#[test]
fn lexer_peek_does_not_consume() {
    let mut lexer = Lexer::new("one two");
    assert!(matches!(lexer.peek(), Ok(Token::UnquotedTerm(t)) if *t == chars("one")));
    assert!(matches!(lexer.peek(), Ok(Token::UnquotedTerm(t)) if *t == chars("one")));
    assert!(matches!(lexer.next(), Ok(Token::UnquotedTerm(t)) if t == chars("one")));
    assert!(matches!(lexer.next(), Ok(Token::UnquotedTerm(t)) if t == chars("two")));
    assert!(matches!(lexer.next(), Ok(Token::Eof)));
}

#[test]
fn lexer_eat_char_checks_the_next_character() {
    let mut lexer = Lexer::new("(x");
    assert!(matches!(lexer.eat_char(')'), Err(LexError::ExpectedChar(')'))));
    assert!(lexer.eat_char('(').is_ok());
    assert!(matches!(lexer.next(), Ok(Token::UnquotedTerm(t)) if t == chars("x")));
}

#[test]
fn lexer_qualifier_needs_a_colon_before_any_space() {
    let mut lexer = Lexer::new("a b:c");
    assert!(matches!(lexer.qualifier(), Ok(None)));
    let mut lexer = Lexer::new("lemma:x");
    assert!(matches!(lexer.qualifier(), Ok(Some(Token::Qualifier(q))) if q == chars("lemma")));
    let mut lexer = Lexer::new("ORANGE");
    assert!(matches!(lexer.operator(), Ok(None)));
    let mut lexer = Lexer::new("Or x");
    assert!(matches!(lexer.operator(), Ok(Some(Token::Or))));
    let mut lexer = Lexer::new("\"q\" rest");
    assert!(matches!(lexer.string(), Ok(Token::String(s)) if s == chars("q")));
}

#[test]
fn adjacent_terms_are_joined_by_and() {
    let q = Query::parse("foo bar").unwrap();
    assert_eq!(show(&q), "(foo AND bar)");
}

#[test]
fn operators_associate_to_the_left() {
    let q = Query::parse("a or b and c").unwrap();
    assert_eq!(show(&q), "((a OR b) AND c)");
    let q = Query::parse("a or (b and c )").unwrap();
    assert_eq!(show(&q), "(a OR (b AND c))");
    // A closing parenthesis right after a term is part of the term.
    assert!(matches!(Query::parse("a or (b and c)"), Err(QueryError::ExpectedRightParen)));
}

#[test]
fn qualifiers_and_anchors() {
    let q = Query::parse("gloss:^house$ lemma:\"bayt\"").unwrap();
    assert_eq!(show(&q), "(gloss:^house$ AND lemma:bayt)");
    let q = Query::parse("analysis:NOUN").unwrap();
    assert!(matches!(q, Query::Leaf(Leaf::Qualified { qualifier: Qualifier::Analysis, .. })));
}

#[test]
fn escaped_quotes_in_strings() {
    let q = Query::parse("\"say \\\"hi\\\"\"").unwrap();
    assert_eq!(show(&q), "say \"hi\"");
    assert!(matches!(Query::parse("\"a\\b\""), Err(QueryError::InvalidEscape)));
}

#[test]
fn query_errors() {
    assert!(matches!(Query::parse("colour:red"), Err(QueryError::UnknownQualifier(q)) if q == chars("colour")));
    assert!(matches!(Query::parse("a\\b"), Err(QueryError::EscapeInUnquotedTerm(_))));
    assert!(matches!(Query::parse("gloss:("), Err(QueryError::ExpectedLiteral(Token::LeftParen))));
    assert!(matches!(Query::parse("(a"), Err(QueryError::ExpectedRightParen)));
    assert!(matches!(Query::parse("and"), Err(QueryError::ExpectedOperand(Token::And))));
    assert!(matches!(Query::parse("\"open"), Err(QueryError::Lex(LexError::UnterminatedString))));
}

#[test]
fn paren_after_operand_is_not_accepted() {
    assert!(Query::try_parse("a (b)").is_none());
    assert!(Query::try_parse("a and (b)").is_some());
}

#[test]
fn blank_query_is_an_empty_term() {
    let q = Query::parse("   ").unwrap();
    assert_eq!(show(&q), "");
}

#[test]
fn term_from_strips_anchors_and_normalizes() {
    let t = Term::from("^ＡBC$");
    assert!(t.anchor_start);
    assert!(t.anchor_end);
    assert_eq!(t.term.non_folded.as_str(), "ABC");
    assert_eq!(t.term.case_folded.as_str(), "abc");
    assert_eq!(t.written(), "^ABC$");
    let t = Term::from("$");
    assert!(!t.anchor_start);
    assert!(t.anchor_end);
    assert_eq!(t.term.non_folded.as_str(), "");
}

#[test]
fn qualifier_names() {
    assert_eq!(Qualifier::try_from(&chars("gloss")), Some(Qualifier::Gloss));
    assert_eq!(Qualifier::try_from(&chars("Gloss")), None);
    assert_eq!(Qualifier::Lemma.name(), "lemma");
    assert_eq!(Qualifier::Analysis.name(), "analysis");
}

#[test]
fn text_after_a_stray_paren_is_ignored() {
    let q = Query::parse("a or b ) c").unwrap();
    assert_eq!(show(&q), "(a OR b)");
    let q = Query::parse("a or b ) and (( \"open").unwrap();
    assert_eq!(show(&q), "(a OR b)");
    assert!(matches!(Query::parse(") anything"), Err(QueryError::ExpectedOperand(Token::RightParen))));
}

#[test]
fn lexer_reaches_the_end_and_stays_there() {
    for text in ["", "  ", "a b", "gloss:\"x\" ( y ) or z", "\"unterminated", "a\"b"] {
        let mut lexer = Lexer::new(text);
        let mut calls = 0;
        loop {
            calls += 1;
            match lexer.next() {
                Ok(Token::Eof) | Err(_) => break,
                Ok(_) => {}
            }
        }
        assert!(calls <= text.chars().count() + 1, "{text:?}");
        if text != "\"unterminated" {
            for _ in 0..3 {
                assert!(matches!(lexer.next(), Ok(Token::Eof)));
            }
        }
    }
}

#[test]
fn operators_bind_equally() {
    let q = Query::parse("a and b or c").unwrap();
    assert_eq!(show(&q), "((a AND b) OR c)");
    let q = Query::parse("a b or c").unwrap();
    assert_eq!(show(&q), "((a AND b) OR c)");
}
