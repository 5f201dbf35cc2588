use pyproject_fmt::{
    contains_char, escape_quotes, normalize_array_entry, rewrite_string, splice_value, token_payload,
    Kind, NormalizeError, Normalizer, SyntaxElement, SyntaxNode, SyntaxToken,
};

const WHITESPACE: u16 = 0;
const NEWLINE: u16 = 1;
const COMMENT: u16 = 2;
const BRACKET: u16 = 30;
const COMMA: u16 = 31;
const INLINE_TABLE: u16 = 40;
const ENTRY: u16 = 41;
const KEY: u16 = 42;
const EQ: u16 = 43;

/// A normalizer that knows a fixed set of requirement strings.
struct Table;

impl Normalizer for Table {
    fn normalize(&self, payload: &str, keep_full_version: bool) -> Result<String, NormalizeError> {
        let out = match (payload, keep_full_version) {
            ("maturin >= 1.5.0", false) | ("maturin>=1.5.0", false) => "maturin>=1.5",
            ("maturin >= 1.5.0", true) | ("maturin>=1.5.0", true) => "maturin>=1.5.0",
            ("maturin>=1.5", _) => "maturin>=1.5",
            ("maturin>=1.5.3", _) => "maturin>=1.5.3",
            ("importlib-metadata>=7.0.0;python_version<\"3.8\"", false) => {
                "importlib-metadata>=7; python_version < \"3.8\""
            }
            ("pytest >= 8", _) => "pytest>=8",
            ("pytest>=8", _) => "pytest>=8",
            ("it's", _) => "its",
            (p, _) => {
                return Err(NormalizeError { message: format!("invalid requirement: {p}") });
            }
        };
        Ok(out.to_string())
    }
}

fn tok(kind: Kind, text: &str) -> SyntaxElement {
    SyntaxElement::Token(SyntaxToken { kind, text: text.to_string() })
}

fn node(kind: Kind, children: Vec<SyntaxElement>) -> SyntaxElement {
    SyntaxElement::Node(SyntaxNode { kind, children })
}

fn entry_value(kind: Kind, text: &str) -> SyntaxElement {
    node(Kind::Value, vec![tok(kind, text)])
}

/// A value node that holds the array with the given children.
fn array_value(children: Vec<SyntaxElement>) -> SyntaxNode {
    SyntaxNode { kind: Kind::Value, children: vec![node(Kind::Array, children)] }
}

fn single(kind: Kind, text: &str) -> SyntaxNode {
    array_value(vec![
        tok(Kind::Other(BRACKET), "["),
        entry_value(kind, text),
        tok(Kind::Other(BRACKET), "]"),
    ])
}

fn render_into(e: &SyntaxElement, out: &mut String) {
    match e {
        SyntaxElement::Token(t) => out.push_str(&t.text),
        SyntaxElement::Node(n) => {
            for c in &n.children {
                render_into(c, out);
            }
        }
    }
}

fn render(n: &SyntaxNode) -> String {
    let mut out = String::new();
    for c in &n.children {
        render_into(c, &mut out);
    }
    out
}

fn first_string(n: &SyntaxNode) -> (Kind, String) {
    let SyntaxElement::Node(array) = &n.children[0] else { panic!("no array") };
    let SyntaxElement::Node(value) = &array.children[1] else { panic!("no entry") };
    let SyntaxElement::Token(t) = &value.children[0] else { panic!("no token") };
    (t.kind, t.text.clone())
}

#[test]
fn strip_micro_no_keep() {
    let mut n = single(Kind::BasicString, "\"maturin >= 1.5.0\"");
    assert!(normalize_array_entry(&mut n, false, &Table).is_ok());
    assert_eq!(render(&n), "[\"maturin>=1.5\"]");
}

#[test]
fn strip_micro_keep() {
    let mut n = single(Kind::BasicString, "\"maturin >= 1.5.0\"");
    assert!(normalize_array_entry(&mut n, true, &Table).is_ok());
    assert_eq!(render(&n), "[\"maturin>=1.5.0\"]");
}

fn commented() -> SyntaxNode {
    array_value(vec![
        tok(Kind::Other(BRACKET), "["),
        tok(Kind::Other(NEWLINE), "\n"),
        entry_value(Kind::BasicString, "\"maturin>=1.5.3\""),
        tok(Kind::Other(COMMA), ","),
        tok(Kind::Other(COMMENT), "# comment here"),
        tok(Kind::Other(NEWLINE), "\n"),
        tok(Kind::Other(COMMENT), "# a comment afterwards"),
        tok(Kind::Other(NEWLINE), "\n"),
        tok(Kind::Other(BRACKET), "]"),
    ])
}

#[test]
fn no_change() {
    let mut n = commented();
    let before = render(&n);
    assert!(normalize_array_entry(&mut n, false, &Table).is_ok());
    assert_eq!(render(&n), before);
    assert_eq!(before, "[\n\"maturin>=1.5.3\",# comment here\n# a comment afterwards\n]");
}

fn inline_table() -> SyntaxNode {
    let table = node(
        Kind::Other(INLINE_TABLE),
        vec![
            tok(Kind::Other(BRACKET), "{"),
            node(
                Kind::Other(ENTRY),
                vec![
                    node(Kind::Other(KEY), vec![tok(Kind::Other(3), "key")]),
                    tok(Kind::Other(EQ), "="),
                    entry_value(Kind::BasicString, "\"maturin>=1.5.0\""),
                ],
            ),
            tok(Kind::Other(BRACKET), "}"),
        ],
    );
    array_value(vec![
        tok(Kind::Other(BRACKET), "["),
        node(Kind::Value, vec![table]),
        tok(Kind::Other(BRACKET), "]"),
    ])
}

#[test]
fn ignore_non_string() {
    let mut n = inline_table();
    assert!(normalize_array_entry(&mut n, false, &Table).is_ok());
    assert_eq!(render(&n), "[{key=\"maturin>=1.5.0\"}]");
}

#[test]
fn has_double_quote() {
    let mut n = single(Kind::LiteralString, "'importlib-metadata>=7.0.0;python_version<\"3.8\"'");
    assert!(normalize_array_entry(&mut n, false, &Table).is_ok());
    assert_eq!(render(&n), "[\"importlib-metadata>=7; python_version < \\\"3.8\\\"\"]");
    assert_eq!(first_string(&n).0, Kind::BasicString);
}

#[test]
fn second_run_changes_nothing() {
    let mut n = single(Kind::BasicString, "\"maturin >= 1.5.0\"");
    assert!(normalize_array_entry(&mut n, false, &Table).is_ok());
    let once = render(&n);
    assert!(normalize_array_entry(&mut n, false, &Table).is_ok());
    assert_eq!(render(&n), once);
}

#[test]
fn mixed_entries_only_strings_change() {
    let mut n = array_value(vec![
        tok(Kind::Other(BRACKET), "["),
        entry_value(Kind::BasicString, "\"pytest >= 8\""),
        tok(Kind::Other(COMMA), ","),
        tok(Kind::Other(WHITESPACE), " "),
        entry_value(Kind::Other(20), "3"),
        tok(Kind::Other(COMMA), ","),
        tok(Kind::Other(WHITESPACE), " "),
        node(Kind::Value, vec![node(Kind::Other(INLINE_TABLE), vec![tok(Kind::Other(BRACKET), "{}")])]),
        tok(Kind::Other(BRACKET), "]"),
    ]);
    assert!(normalize_array_entry(&mut n, false, &Table).is_ok());
    assert_eq!(render(&n), "[\"pytest>=8\", 3, {}]");
}

#[test]
fn literal_string_keeps_its_quotes() {
    let mut n = single(Kind::LiteralString, "'maturin >= 1.5.0'");
    assert!(normalize_array_entry(&mut n, false, &Table).is_ok());
    assert_eq!(first_string(&n), (Kind::LiteralString, "'maturin>=1.5'".to_string()));
}

#[test]
fn literal_string_with_apostrophe_payload_is_requoted() {
    let t = SyntaxToken { kind: Kind::LiteralString, text: "'x'".to_string() };
    let r = rewrite_string(&t, "it's").unwrap();
    assert_eq!(r.kind, Kind::BasicString);
    assert_eq!(r.text, "\"it's\"");
}

#[test]
fn error_is_returned() {
    let mut n = array_value(vec![
        tok(Kind::Other(BRACKET), "["),
        entry_value(Kind::BasicString, "\"pytest >= 8\""),
        tok(Kind::Other(COMMA), ","),
        entry_value(Kind::BasicString, "\"???\""),
        tok(Kind::Other(COMMA), ","),
        entry_value(Kind::BasicString, "\"maturin >= 1.5.0\""),
        tok(Kind::Other(BRACKET), "]"),
    ]);
    let err = normalize_array_entry(&mut n, false, &Table).unwrap_err();
    assert_eq!(err.message, "invalid requirement: ???");
    assert_eq!(render(&n), "[\"pytest>=8\",\"???\",\"maturin >= 1.5.0\"]");
}

#[test]
fn non_array_children_are_left_alone() {
    let mut n = SyntaxNode {
        kind: Kind::Value,
        children: vec![tok(Kind::BasicString, "\"maturin >= 1.5.0\"")],
    };
    assert!(normalize_array_entry(&mut n, false, &Table).is_ok());
    assert_eq!(render(&n), "\"maturin >= 1.5.0\"");
}

#[test]
fn empty_array() {
    let mut n = array_value(vec![tok(Kind::Other(BRACKET), "["), tok(Kind::Other(BRACKET), "]")]);
    assert!(normalize_array_entry(&mut n, true, &Table).is_ok());
    assert_eq!(render(&n), "[]");
}

#[test]
fn equal_normalization_builds_no_token() {
    let t = SyntaxToken { kind: Kind::BasicString, text: "\"maturin>=1.5\"".to_string() };
    assert!(rewrite_string(&t, "maturin>=1.5").is_none());
}

#[test]
fn non_string_token_is_not_rewritten() {
    let t = SyntaxToken { kind: Kind::Other(20), text: "12".to_string() };
    assert!(rewrite_string(&t, "3").is_none());
}

#[test]
fn rewrite_keeps_double_quotes() {
    let t = SyntaxToken { kind: Kind::BasicString, text: "\"a >= 1\"".to_string() };
    let r = rewrite_string(&t, "a>=1").unwrap();
    assert_eq!((r.kind, r.text.as_str()), (Kind::BasicString, "\"a>=1\""));
}

#[test]
fn splice_value_rewrites_the_string_child() {
    let mut v = SyntaxNode {
        kind: Kind::Value,
        children: vec![tok(Kind::BasicString, "\"maturin >= 1.5.0\"")],
    };
    assert!(splice_value(&mut v, true, &Table).is_ok());
    let SyntaxElement::Token(t) = &v.children[0] else { panic!("no token") };
    assert_eq!(t.text, "\"maturin>=1.5.0\"");
}

#[test]
fn payload_strips_delimiters() {
    let t = SyntaxToken { kind: Kind::LiteralString, text: "'a\"b'".to_string() };
    assert_eq!(token_payload(&t), "a\"b");
    let e = SyntaxToken { kind: Kind::BasicString, text: "\"\"".to_string() };
    assert_eq!(token_payload(&e), "");
}

#[test]
fn quotes_are_escaped() {
    assert_eq!(escape_quotes("a\"b\"c"), "a\\\"b\\\"c");
    assert_eq!(escape_quotes(""), "");
    assert_eq!(escape_quotes("plain"), "plain");
}

#[test]
fn char_search() {
    assert!(contains_char("ab'c", '\''));
    assert!(!contains_char("abc", '"'));
    assert!(!contains_char("", 'a'));
}
