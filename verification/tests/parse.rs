use mlatu::parse::{rules, terms, ParseError, ParseErrorKind, MAX_DEPTH};
use mlatu::print::{render, render_rules};
use mlatu::term::{Rule, Term};

fn add(a: Term, b: Term) -> Term {
    Term::compound(b"add", vec![a, b])
}

#[test]
fn parses_a_rule() {
    let parsed = rules(b"add(zero, Y) -> Y ;").unwrap();
    assert_eq!(parsed, vec![Rule::new(add(Term::atom(b"zero"), Term::var(b"Y")), Term::var(b"Y"))]);
}

#[test]
fn parses_several_rules_with_comments() {
    let text = b"% addition\nadd(zero, Y) -> Y;\n  add(s(X), Y) -> s(add(X, Y)); % done";
    let parsed = rules(text).unwrap();
    assert_eq!(parsed.len(), 2);
    assert_eq!(
        parsed[1],
        Rule::new(
            add(Term::compound(b"s", vec![Term::var(b"X")]), Term::var(b"Y")),
            Term::compound(b"s", vec![add(Term::var(b"X"), Term::var(b"Y"))]),
        )
    );
}

#[test]
fn parses_terms_in_sequence() {
    let parsed = terms(b" add(zero, atom_x)\tfoo  _G1 g ( ) ").unwrap();
    assert_eq!(
        parsed,
        vec![
            add(Term::atom(b"zero"), Term::atom(b"atom_x")),
            Term::atom(b"foo"),
            Term::var(b"_G1"),
            Term::compound(b"g", vec![]),
        ]
    );
}

#[test]
fn empty_text_holds_nothing() {
    assert_eq!(terms(b""), Ok(vec![]));
    assert_eq!(rules(b""), Ok(vec![]));
    assert_eq!(rules(b"  % only a comment"), Ok(vec![]));
}

#[test]
fn missing_semicolon_is_located_at_the_end() {
    let text = b"f(X) -> g(X)";
    assert_eq!(
        rules(text),
        Err(ParseError { kind: ParseErrorKind::ExpectedSemicolon, offset: 12, line: 0, column: 12 })
    );
}

#[test]
fn missing_arrow_is_located() {
    assert_eq!(
        rules(b"a;\nb c"),
        Err(ParseError { kind: ParseErrorKind::ExpectedArrow, offset: 1, line: 0, column: 1 })
    );
    assert_eq!(
        rules(b"a -> b;\nb - c;"),
        Err(ParseError { kind: ParseErrorKind::ExpectedArrow, offset: 10, line: 1, column: 2 })
    );
}

#[test]
fn bad_argument_list_is_located() {
    assert_eq!(
        terms(b"f(a b)"),
        Err(ParseError { kind: ParseErrorKind::ExpectedSeparator, offset: 4, line: 0, column: 4 })
    );
    assert_eq!(
        terms(b"f(a,)"),
        Err(ParseError { kind: ParseErrorKind::ExpectedTerm, offset: 4, line: 0, column: 4 })
    );
    assert_eq!(
        terms(b"f(a"),
        Err(ParseError { kind: ParseErrorKind::ExpectedSeparator, offset: 3, line: 0, column: 3 })
    );
}

#[test]
fn a_variable_takes_no_arguments() {
    assert_eq!(
        terms(b"X(a)"),
        Err(ParseError { kind: ParseErrorKind::ExpectedTerm, offset: 1, line: 0, column: 1 })
    );
}

#[test]
fn bytes_outside_the_grammar_are_errors() {
    assert_eq!(
        terms(b"a\n\xff"),
        Err(ParseError { kind: ParseErrorKind::ExpectedTerm, offset: 2, line: 1, column: 0 })
    );
    assert_eq!(
        terms(b"42"),
        Err(ParseError { kind: ParseErrorKind::ExpectedTerm, offset: 0, line: 0, column: 0 })
    );
    assert!(rules(&[0u8, 255, 10, 40, 41, 59, 45, 62]).is_err());
}

#[test]
fn nesting_is_bounded() {
    let mut deep = Vec::new();
    for _ in 0..MAX_DEPTH {
        deep.extend_from_slice(b"f(");
    }
    deep.extend_from_slice(b"a");
    for _ in 0..MAX_DEPTH {
        deep.push(b')');
    }
    assert_eq!(terms(&deep).unwrap().len(), 1);

    let mut deeper = b"f(".to_vec();
    deeper.extend_from_slice(&deep);
    deeper.push(b')');
    assert_eq!(
        terms(&deeper),
        Err(ParseError {
            kind: ParseErrorKind::TooDeep,
            offset: 2 * MAX_DEPTH + 1,
            line: 0,
            column: 2 * MAX_DEPTH + 1
        })
    );
}

#[test]
fn very_deep_text_is_refused_not_fatal() {
    let mut text = Vec::new();
    for _ in 0..200_000 {
        text.extend_from_slice(b"f(");
    }
    assert!(matches!(terms(&text), Err(ParseError { kind: ParseErrorKind::TooDeep, .. })));
    assert!(matches!(rules(&text), Err(ParseError { kind: ParseErrorKind::TooDeep, .. })));
}

#[test]
fn every_short_text_gets_an_answer() {
    let alphabet = [b'a', b'X', b'(', b')', b',', b'-', b'>', b';', b' ', b'%', b'\n', 0xc3];
    let mut text = Vec::new();
    for a in alphabet {
        for b in alphabet {
            for c in alphabet {
                for d in alphabet {
                    text.clear();
                    text.extend_from_slice(&[a, b, c, d]);
                    if let Err(e) = terms(&text) {
                        assert!(e.offset <= text.len());
                    }
                    if let Err(e) = rules(&text) {
                        assert!(e.offset <= text.len());
                    }
                }
            }
        }
    }
}

#[test]
fn rendering_gives_the_text_syntax() {
    let t = add(Term::atom(b"zero"), Term::compound(b"s", vec![Term::var(b"X")]));
    assert_eq!(render(&t), b"add(zero, s(X))".to_vec());
    assert_eq!(render(&Term::compound(b"g", vec![])), b"g()".to_vec());
    assert_eq!(render(&Term::var(b"Y").rename(120)), b"Y_120".to_vec());
}

#[test]
fn rendered_rules_parse_back() {
    let text = b"add(zero, Y) -> Y;\nadd(s(X), Y) -> s(add(X, Y));\n";
    let parsed = rules(text).unwrap();
    assert_eq!(render_rules(&parsed), text.to_vec());
    assert_eq!(rules(&render_rules(&parsed)), Ok(parsed));
}
