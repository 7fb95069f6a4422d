use std::collections::HashSet;

use azsync::{DotenvFile, ParseError, VarMap};

const SIMPLE: &str = "A=123\nB=\"four five six\"\nC='seven 8 nine'\n";
const SIMPLE_REPLACED: &str = "A=456\nB=\"four five six\"\nC=seven eighty nine\nD=new value\n";

const EXPORT: &str = "  A=123\nexport B=\"four five six\"\nexport        C='seven 8 nine'\n";

const COMMENTS: &str =
    "# comment line 1\nA=123#456 # c\n B=\"123#456\"\n    C='123#456'  # trailing\n";

const EXPANSION: &str = "A=123\n\nB=$A 456\nC='$A 456'\nD=\"$A 456\"\n\nE=\"${A}$A\"\n#single\nF='${A}${A}'\n#double\nG=\"${A}${A}\"\n\n#change\nA=456\n\nH=aa$A${A}aa\nI='aa$A${A}aa'\nJ=\"aa$A${A}aa\"\n";

const EXPANSION_REPLACED: &str = "A=123\n\nB=$A 456\nC='$A 456'\nD=\"d\\${e}e\"\n\nE=\"\\\"eee\\\"\"\n#single\nF='${A}${A}'\n#double\nG=\"${A}${A}\"\n\n#change\nA=456\n\nH=aa$A${A}aa\nI=\"\\'aii\\'\"\nJ=\"aa$A${A}aa\"\nA=\"\\$789\"\n";

fn vars(pairs: &[(&str, &str)]) -> VarMap {
    let mut m = VarMap::new();
    for (k, v) in pairs {
        m.insert(k.to_string(), v.to_string());
    }
    m
}

fn value(doc: &DotenvFile, name: &str) -> Option<String> {
    doc.parameters().get(&name.to_string()).cloned()
}

fn check_values(doc: &DotenvFile, expected: &[(&str, &str)]) {
    for (k, v) in expected {
        assert_eq!(value(doc, k).as_deref(), Some(*v), "for parameter {k:?}");
    }
    assert_eq!(doc.parameters().len(), expected.len());
}

#[test]
fn replace_simple() {
    let dotenv = DotenvFile::parse(SIMPLE).unwrap();
    let replacements = vars(&[("A", "456"), ("C", "seven eighty nine"), ("D", "new value")]);

    let replaced = dotenv.replace(replacements);

    assert_eq!(SIMPLE_REPLACED, replaced);
}

#[test]
fn replace_expansion() {
    let dotenv = DotenvFile::parse(EXPANSION).unwrap();
    let replacements = vars(&[
        ("A", "$789"),
        ("D", "d${e}e"),
        ("E", "\"eee\""),
        ("I", "'aii'"),
    ]);

    let replaced = dotenv.replace(replacements);

    assert_eq!(EXPANSION_REPLACED, replaced);
}

#[test]
fn replace_empty() {
    let dotenv = DotenvFile::default();
    let replacements = vars(&[("A", "aaa"), ("B", "bbb"), ("C", "ccc")]);
    let expected: HashSet<_> = ["A=aaa", "B=bbb", "C=ccc"].into_iter().collect();

    let replaced = dotenv.replace(replacements);

    let lines: HashSet<_> = replaced.lines().collect();
    assert_eq!(lines, expected);
}

#[test]
fn values_simple() {
    let doc = DotenvFile::parse(SIMPLE).unwrap();
    check_values(&doc, &[("A", "123"), ("B", "four five six"), ("C", "seven 8 nine")]);
}

#[test]
fn values_export() {
    let doc = DotenvFile::parse(EXPORT).unwrap();
    check_values(&doc, &[("A", "123"), ("B", "four five six"), ("C", "seven 8 nine")]);
}

#[test]
fn values_comments() {
    let doc = DotenvFile::parse(COMMENTS).unwrap();
    check_values(&doc, &[("A", "123#456"), ("B", "123#456"), ("C", "123#456")]);
}

#[test]
fn values_expansion() {
    let doc = DotenvFile::parse(EXPANSION).unwrap();
    check_values(
        &doc,
        &[
            ("A", "456"),
            ("B", "123 456"),
            ("C", "$A 456"),
            ("D", "123 456"),
            ("E", "123123"),
            ("F", "${A}${A}"),
            ("G", "123123"),
            ("H", "aa456456aa"),
            ("I", "aa$A${A}aa"),
            ("J", "aa456456aa"),
        ],
    );
}

fn span(doc: &DotenvFile, name: &str) -> Option<(usize, usize)> {
    doc.value_span(&name.to_string())
}

#[test]
fn spans_simple() {
    let doc = DotenvFile::parse(SIMPLE).unwrap();
    assert_eq!(span(&doc, "A"), Some((2, 5)));
    assert_eq!(span(&doc, "B"), Some((8, 23)));
    assert_eq!(span(&doc, "C"), Some((26, 40)));
}

#[test]
fn spans_export() {
    let doc = DotenvFile::parse(EXPORT).unwrap();
    assert_eq!(span(&doc, "A"), Some((4, 7)));
    assert_eq!(span(&doc, "B"), Some((17, 32)));
    assert_eq!(span(&doc, "C"), Some((49, 63)));
}

#[test]
fn spans_comments() {
    let doc = DotenvFile::parse(COMMENTS).unwrap();
    assert_eq!(span(&doc, "A"), Some((19, 26)));
    assert_eq!(span(&doc, "B"), Some((34, 43)));
    assert_eq!(span(&doc, "C"), Some((50, 59)));
}

#[test]
fn spans_expansion() {
    let doc = DotenvFile::parse(EXPANSION).unwrap();
    // A is expanded after its last definition: it is not replaced in place.
    assert_eq!(span(&doc, "A"), None);
    assert!(doc.is_referenced(&"A".to_string()));
    let expected = [
        ("B", (9, 15)),
        ("C", (18, 26)),
        ("D", (29, 37)),
        ("E", (41, 49)),
        ("F", (60, 70)),
        ("G", (81, 91)),
        ("H", (110, 120)),
        ("I", (123, 135)),
        ("J", (138, 150)),
    ];
    for (k, s) in expected {
        assert_eq!(span(&doc, k), Some(s), "for parameter {k:?}");
    }
}

#[test]
fn empty_documents() {
    for s in ["", "\n", "# foo\n# bar", "# foo\n# bar\n"] {
        let doc = DotenvFile::parse(s).unwrap();
        assert_eq!(doc.parameters().len(), 0);
    }
}

#[test]
fn forward_reference_detected() {
    let doc = DotenvFile::parse("A=$B\nB=2").unwrap();
    check_values(&doc, &[("A", ""), ("B", "2")]);
    assert!(doc.is_referenced(&"A".to_string()));
    assert_eq!(span(&doc, "A"), None);
    assert_eq!(span(&doc, "B"), Some((7, 8)));
}

#[test]
fn redefinition_wins() {
    let doc = DotenvFile::parse("A=1\nB=$A\nA=2\n").unwrap();
    check_values(&doc, &[("A", "2"), ("B", "1")]);
    assert!(!doc.is_referenced(&"A".to_string()));
    assert_eq!(span(&doc, "A"), Some((11, 12)));
}

#[test]
fn self_reference_is_fresh_definition() {
    let doc = DotenvFile::parse("A=x\nA=${A}y\n").unwrap();
    check_values(&doc, &[("A", "xy")]);
    assert!(!doc.is_referenced(&"A".to_string()));
}

#[test]
fn backward_reference_appends() {
    let doc = DotenvFile::parse("A=1\nB=$A\n").unwrap();
    let out = doc.replace(vars(&[("A", "2"), ("B", "3")]));
    assert_eq!(out, "A=1\nB=3\nA=2\n");
}

#[test]
fn unterminated_quotes_fail() {
    assert_eq!(DotenvFile::parse("A=1\nB=\"abc\n").err(), Some(ParseError { line: 1 }));
    assert_eq!(DotenvFile::parse("A='abc").err(), Some(ParseError { line: 0 }));
}

#[test]
fn malformed_definitions_fail() {
    assert_eq!(DotenvFile::parse("1A=3").err(), Some(ParseError { line: 0 }));
    assert_eq!(DotenvFile::parse("A 3").err(), Some(ParseError { line: 0 }));
    assert_eq!(DotenvFile::parse("A=\"x\" y").err(), Some(ParseError { line: 0 }));
    assert_eq!(DotenvFile::parse("\n\nA=x\\").err(), Some(ParseError { line: 2 }));
}

#[test]
fn append_adds_missing_newline() {
    let doc = DotenvFile::parse("A=1").unwrap();
    let out = doc.replace(vars(&[("B", "2")]));
    assert_eq!(out, "A=1\nB=2\n");
}

#[test]
fn untouched_names_keep_their_text() {
    let src = "X='keep me'  # note\nY=old\n";
    let doc = DotenvFile::parse(src).unwrap();
    let out = doc.replace(vars(&[("Y", "new")]));
    assert_eq!(out, "X='keep me'  # note\nY=new\n");
}

#[test]
fn round_trip_in_place_edit() {
    let doc = DotenvFile::parse(SIMPLE).unwrap();
    let out = doc.replace(vars(&[("B", " padded "), ("C", "a$b")]));
    let again = DotenvFile::parse(&out).unwrap();
    check_values(&again, &[("A", "123"), ("B", " padded "), ("C", "a$b")]);
}

#[test]
fn writing_twice_is_writing_once() {
    let doc = DotenvFile::parse(SIMPLE).unwrap();
    let edits = [("A", "9"), ("D", "new")];
    let once = doc.replace(vars(&edits));
    let twice = DotenvFile::parse(&once).unwrap().replace(vars(&edits));
    let a = DotenvFile::parse(&once).unwrap();
    let b = DotenvFile::parse(&twice).unwrap();
    check_values(&b, &[("A", "9"), ("B", "four five six"), ("C", "seven 8 nine"), ("D", "new")]);
    check_values(&a, &[("A", "9"), ("B", "four five six"), ("C", "seven 8 nine"), ("D", "new")]);
}
