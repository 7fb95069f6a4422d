use azsync::{escape, expand, unescape, VarMap};

fn vars(pairs: &[(&str, &str)]) -> VarMap {
    let mut m = VarMap::new();
    for (k, v) in pairs {
        m.insert(k.to_string(), v.to_string());
    }
    m
}

fn run(s: &str, params: &VarMap) -> String {
    let mut e = expand(s.chars().collect(), params);
    e.remaining().into_iter().collect()
}

fn unesc(s: &str) -> String {
    unescape(s.chars().collect()).remaining().into_iter().collect()
}

fn unbraced_params() -> VarMap {
    vars(&[("abc", "a"), ("def2", "b"), ("_ghi", "c"), ("_j3k_l3_", "d")])
}

fn braced_params() -> VarMap {
    vars(&[("abc", "a"), ("def2", "b"), ("_ghi", "c"), ("_j3k_l3_", "d"), ("_", "e")])
}

#[test]
fn no_expansion() {
    let p = VarMap::new();
    assert_eq!(run("abc def", &p), "abc def");
    assert_eq!(run(r"ghi \$jkl", &p), r"ghi \$jkl");
}

#[test]
fn unbraced_expansion() {
    let p = unbraced_params();
    assert_eq!(run("$abc $abc", &p), "a a");
    assert_eq!(run("$def2 $3abc", &p), "b $3abc");
    assert_eq!(run("$_ghi$_ghi", &p), "cc");
    assert_eq!(run("$_j3k_l3_ $_aaa", &p), "d ");
    assert_eq!(run(r"\$abc \\$def2", &p), r"\$abc \\b");
}

#[test]
fn braced_expansion() {
    let p = braced_params();
    assert_eq!(run("${abc} ${abc}", &p), "a a");
    assert_eq!(run("${def2} ${3abc}", &p), "b ");
    assert_eq!(run("${_ghi}${_ghi}", &p), "cc");
    assert_eq!(run("${_j3k_l3_} ${_aaa}", &p), "d ");
    assert_eq!(run(r"\${abc} \\${def2}", &p), r"\${abc} \\b");
    assert_eq!(run(r"}}{abc}{{abc${abc{}}$}", &p), r"}}{abc}{{abc}$}");
}

#[test]
fn expansion_examples() {
    assert_eq!(run("$A$A", &vars(&[("A", "x")])), "xx");
    assert_eq!(run("${A}", &VarMap::new()), "");
    assert_eq!(run("$", &VarMap::new()), "$");
    assert_eq!(run("${A", &vars(&[("A", "x")])), "${A");
}

#[test]
fn unterminated_brace_keeps_name_characters() {
    assert_eq!(run("${A-B", &vars(&[("AB", "x")])), "${AB");
}

#[test]
fn spoiled_braced_name_is_dropped() {
    assert_eq!(run("x${A-B}y", &vars(&[("AB", "x"), ("B", "z")])), "xy");
}

#[test]
fn substituted_values_are_not_rescanned() {
    assert_eq!(run("$A", &vars(&[("A", "$B"), ("B", "no")])), "$B");
}

#[test]
fn expansion_records_names() {
    let p = vars(&[("A", "1")]);
    let mut e = expand("$A ${B} $A".chars().collect(), &p);
    let out: String = e.remaining().into_iter().collect();
    assert_eq!(out, "1  1");
    let (expanded, unresolved) = e.into_names();
    assert_eq!(expanded, vec!["A".to_string(), "A".to_string()]);
    assert_eq!(unresolved, vec!["B".to_string()]);
}

#[test]
fn unescapes_correctly() {
    assert_eq!(unesc("abc def$!#$^!*$%!@ "), "abc def$!#$^!*$%!@ ");
    assert_eq!(unesc(r#"a\b\c \"de\ f\""#), r#"abc "de f""#);
    assert_eq!(unesc(r"abc\d \"), r"abcd ");
    assert_eq!(unesc(""), "");
}

#[test]
fn escape_bare_values() {
    assert_eq!(escape("plain"), "plain");
    assert_eq!(escape("inner space"), "inner space");
    assert_eq!(escape(""), "");
}

#[test]
fn escape_quotes_special_values() {
    assert_eq!(escape("$789"), "\"\\$789\"");
    assert_eq!(escape("a\\b"), "\"a\\\\b\"");
    assert_eq!(escape("'q'"), "\"\\'q\\'\"");
    assert_eq!(escape(" lead"), "\" lead\"");
    assert_eq!(escape("trail\t"), "\"trail\t\"");
}

#[test]
fn escaped_values_unescape_to_themselves() {
    for v in ["$x", "a\"b", "\\", "it's", "${A}"] {
        let w = escape(v);
        assert!(w.starts_with('"') && w.ends_with('"'));
        assert_eq!(unesc(&w[1..w.len() - 1]), v);
    }
}
