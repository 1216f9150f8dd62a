use json_str::error::{MissingReplacement, ParseError};
use json_str::parse::{parse_fragments, parse_literal, sanitize, JsonFragment, JsonFragments};

fn clean(j: &str) -> String {
    sanitize(j.as_bytes()).unwrap()
}

fn fill(template: &str, repls: &[(&'static str, &str)]) -> Result<String, MissingReplacement> {
    let mut fragments = Vec::new();
    parse_fragments(template.as_bytes(), &mut fragments).unwrap();
    let mut frags = JsonFragments::new(fragments);
    for (name, value) in repls {
        frags.insert(name, value);
    }
    frags.to_string()
}

#[test]
fn scenario_unquoted_keys() {
    assert_eq!(clean("{ a : \"stuff\", \"b\":{  c:[ 0, 1 ] },d:14 }"), "{\"a\":\"stuff\",\"b\":{\"c\":[0,1]},\"d\":14}");
}

#[test]
fn scenario_single_quotes() {
    assert_eq!(clean("{ 'a' : \"stuff\", \"b\":{ \"c\":[ '0', 1 ] },\"d\":14 }"), "{\"a\":\"stuff\",\"b\":{\"c\":[\"0\",1]},\"d\":14}");
}

#[test]
fn scenario_reserved_words() {
    assert_eq!(clean("{\"a\": true, \"b\": false, \"c\": null}"), "{\"a\":true,\"b\":false,\"c\":null}");
}

#[test]
fn scenario_empty_string() {
    assert_eq!(clean("{\"a\": \"\"}"), "{\"a\":\"\"}");
}

#[test]
fn scenario_placeholder() {
    assert_eq!(fill("{ \"q\": $val }", &[("val", "\"*\"")]).unwrap(), "{\"q\":\"*\"}");
}

#[test]
fn minified_text_is_a_fixed_point() {
    let once = clean("{ a : 'x y', b: [ 1.5e-3, true ], c: null }");
    assert_eq!(once, "{\"a\":\"x y\",\"b\":[1.5e-3,true],\"c\":null}");
    assert_eq!(clean(&once), once);
}

#[test]
fn blanks_vanish_outside_strings_only() {
    assert_eq!(clean(" \t\r\n[ 1 ,\n2 ]\t"), "[1,2]");
    assert_eq!(clean("[ ' a\tb ' ]"), "[\" a\tb \"]");
}

#[test]
fn quotes_become_double_quotes() {
    assert_eq!(clean("'it\\'s'"), "\"it\\'s\"");
    assert_eq!(clean("{'k':'v'}"), "{\"k\":\"v\"}");
}

#[test]
fn bare_words_other_than_reserved_are_quoted() {
    assert_eq!(clean("[true, True, nulls, false_, abc, a.b, x1]"), "[true,\"True\",\"nulls\",\"false_\",\"abc\",\"a.b\",\"x1\"]");
}

#[test]
fn escapes_never_close_a_string() {
    assert_eq!(clean(r#"["a\"b", "c\\", 'd\'e']"#), r#"["a\"b","c\\","d\'e"]"#);
}

#[test]
fn numbers_pass_unchanged() {
    assert_eq!(clean("[ -122.41, 37.776, 3.14e+11, 2E5 ]"), "[-122.41,37.776,3.14e+11,2E5]");
}

#[test]
fn empty_input_gives_empty_output() {
    assert_eq!(clean(""), "");
    assert_eq!(clean(" \n "), "");
}

#[test]
fn non_ascii_text_is_kept() {
    assert_eq!(clean("{ k: \"色は匂へど\" }"), "{\"k\":\"色は匂へど\"}");
}

#[test]
fn unterminated_string_is_an_error() {
    let mut json = String::from("kept");
    assert_eq!(parse_literal("{ \"a\": \"open".as_bytes(), &mut json), Err(ParseError::UnterminatedString));
    assert_eq!(json, "kept");
    assert_eq!(sanitize("'a\\".as_bytes()), Err(ParseError::UnterminatedString));
}

#[test]
fn invalid_utf8_is_an_error() {
    let mut json = String::new();
    assert_eq!(parse_literal(&[0x5b, 0xff, 0x5d], &mut json), Err(ParseError::InvalidUtf8));
    assert_eq!(json, "");
}

#[test]
fn parse_literal_appends() {
    let mut json = String::from("x=");
    parse_literal("{ a : 1 }".as_bytes(), &mut json).unwrap();
    assert_eq!(json, "x={\"a\":1}");
}

#[test]
fn marker_without_name_is_an_error() {
    let mut fragments = Vec::new();
    assert_eq!(parse_fragments("{ a: $ }".as_bytes(), &mut fragments), Err(ParseError::MissingPlaceholderName));
    assert!(fragments.is_empty());
    assert_eq!(parse_fragments("{ a: 'x }".as_bytes(), &mut fragments), Err(ParseError::UnterminatedString));
}

#[test]
fn fragments_split_at_markers() {
    let mut fragments = Vec::new();
    parse_fragments("{ a: $  first, b: [$second] }".as_bytes(), &mut fragments).unwrap();
    assert_eq!(fragments.len(), 5);
    assert!(matches!(&fragments[0], JsonFragment::Literal(l) if l == "{\"a\":"));
    assert!(matches!(&fragments[1], JsonFragment::Repl(n) if *n == "first"));
    assert!(matches!(&fragments[2], JsonFragment::Literal(l) if l == ",\"b\":["));
    assert!(matches!(&fragments[3], JsonFragment::Repl(n) if *n == "second"));
    assert!(matches!(&fragments[4], JsonFragment::Literal(l) if l == "]}"));
}

#[test]
fn assembling_without_markers_equals_sanitizing() {
    let input = "{ a : 'x', b: [1, true] }";
    assert_eq!(fill(input, &[]).unwrap(), clean(input));
    assert_eq!(fill("", &[]).unwrap(), "");
}

#[test]
fn missing_replacement_fails() {
    let err = fill("[ $a, $b ]", &[("a", "1")]).unwrap_err();
    assert_eq!(err.name, "b");
    let err = fill("[ $a ]", &[]).unwrap_err();
    assert_eq!(err.name, "a");
}

#[test]
fn later_insert_wins() {
    assert_eq!(fill("[ $a ]", &[("a", "1"), ("a", "2")]).unwrap(), "[2]");
}

#[test]
fn replacements_are_inserted_verbatim() {
    assert_eq!(fill("{ a: $v }", &[("v", "[1, 2, 'x']")]).unwrap(), "{\"a\":[1, 2, 'x']}");
}
