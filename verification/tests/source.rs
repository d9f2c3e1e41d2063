use mlatu::binary::{deserialize_rules, serialize_rules};
use mlatu::parse::{rules, ParseErrorKind};
use mlatu::source::{file_kind, load, FileKind, LoadError};
use mlatu::term::{Rule, Term};

#[test]
fn extensions_name_the_two_kinds() {
    assert_eq!(file_kind(b"mlt"), Some(FileKind::Text));
    assert_eq!(file_kind(b"mlb"), Some(FileKind::Binary));
    assert_eq!(file_kind(b"txt"), None);
    assert_eq!(file_kind(b""), None);
    assert_eq!(file_kind(b"mlt2"), None);
    assert_eq!(file_kind(b"MLT"), None);
}

#[test]
fn text_files_are_decoded_then_parsed() {
    let text = "% caf\u{e9}\nadd(zero, Y) -> Y;".as_bytes();
    assert_eq!(load(FileKind::Text, text), Ok(rules(b"add(zero, Y) -> Y;").unwrap()));
}

#[test]
fn text_that_is_not_utf8_is_refused_before_parsing() {
    assert_eq!(load(FileKind::Text, b"% caf\xe9\nadd(zero, Y) -> Y;"), Err(LoadError::Encoding));
    assert_eq!(load(FileKind::Text, b"a -> b; \xff"), Err(LoadError::Encoding));
    assert!(rules(b"% caf\xe9\nadd(zero, Y) -> Y;").is_ok());
}

#[test]
fn syntax_errors_of_text_files_are_located() {
    match load(FileKind::Text, b"a -> b;\nc ->") {
        Err(LoadError::Syntax(e)) => {
            assert_eq!(e.kind, ParseErrorKind::ExpectedTerm);
            assert_eq!((e.offset, e.line, e.column), (12, 1, 4));
        }
        other => panic!("{:?}", other),
    }
}

#[test]
fn binary_round_trip() {
    let set = rules(b"add(zero, Y) -> Y; add(s(X), Y) -> s(add(X, Y)); k() -> k;").unwrap();
    let bytes = serialize_rules(&set);
    assert_eq!(deserialize_rules(&bytes), Some(set.clone()));
    assert_eq!(load(FileKind::Binary, &bytes), Ok(set));
    assert_eq!(deserialize_rules(&serialize_rules(&vec![])), Some(vec![]));
}

#[test]
fn binary_keeps_generations() {
    let set = vec![Rule::new(Term::var(b"X").rename(77), Term::var(b"X").rename(u64::MAX))];
    assert_eq!(deserialize_rules(&serialize_rules(&set)), Some(set));
}

#[test]
fn binary_layout_is_as_documented() {
    let set = vec![Rule::new(Term::compound(b"f", vec![Term::var(b"X")]), Term::atom(b"a"))];
    let mut expected: Vec<u8> = vec![1, 0, 0, 0, 0, 0, 0, 0];
    expected.extend_from_slice(&[2, 1, 0, 0, 0, 0, 0, 0, 0, b'f', 1, 0, 0, 0, 0, 0, 0, 0]);
    expected.extend_from_slice(&[1, 1, 0, 0, 0, 0, 0, 0, 0, b'X', 0, 0, 0, 0, 0, 0, 0, 0]);
    expected.extend_from_slice(&[0, 1, 0, 0, 0, 0, 0, 0, 0, b'a']);
    assert_eq!(serialize_rules(&set), expected);
}

#[test]
fn malformed_binary_is_refused() {
    let bytes = serialize_rules(&rules(b"f(a) -> b;").unwrap());
    assert_eq!(deserialize_rules(&[]), None);
    assert_eq!(deserialize_rules(&bytes[..bytes.len() - 1]), None);
    let mut longer = bytes.clone();
    longer.push(0);
    assert_eq!(deserialize_rules(&longer), None);
    let mut bad_tag = bytes.clone();
    bad_tag[8] = 3;
    assert_eq!(deserialize_rules(&bad_tag), None);
    let mut bad_count = bytes.clone();
    bad_count[0] = 2;
    assert_eq!(deserialize_rules(&bad_count), None);
    let mut huge_name = bytes.clone();
    for b in &mut huge_name[9..17] {
        *b = 0xff;
    }
    assert_eq!(deserialize_rules(&huge_name), None);
    assert_eq!(load(FileKind::Binary, &longer), Err(LoadError::Payload));
    assert_eq!(load(FileKind::Binary, b"a -> b;"), Err(LoadError::Payload));
}

#[test]
fn binary_nesting_is_bounded() {
    let mut deep = Term::atom(b"a");
    for _ in 0..mlatu::parse::MAX_DEPTH {
        deep = Term::compound(b"f", vec![deep]);
    }
    let fits = vec![Rule::new(deep.duplicate(), Term::atom(b"a"))];
    assert_eq!(deserialize_rules(&serialize_rules(&fits)), Some(fits));
    let over = vec![Rule::new(Term::compound(b"f", vec![deep]), Term::atom(b"a"))];
    assert_eq!(deserialize_rules(&serialize_rules(&over)), None);
}
