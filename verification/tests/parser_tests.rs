//! Tests of the text recognizers and the document parser.

use tot::num::Decimal;
use tot::parser::{
    all_ignored, block_comment, boolean, dict, float, integer, key, key_value, line_comment, list,
    parse, scalar, string, token, unit, whitespace, TotValue,
};

/// The numeric value a decimal stands for, for comparing against
/// binary-float expectations.
fn dec_to_f64(d: Decimal) -> f64 {
    let v = (d.mantissa as f64) * 10f64.powi(d.exp);
    if d.neg {
        -v
    } else {
        v
    }
}

/// Look a key up in a parsed dictionary, last occurrence winning.
fn dict_get<'a>(v: &'a TotValue, key: &str) -> Option<&'a TotValue> {
    match v {
        TotValue::Dict(entries) => entries
            .iter()
            .rev()
            .find(|(k, _)| k == key)
            .map(|(_, v)| v),
        _ => None,
    }
}

fn dec(neg: bool, mantissa: u64, exp: i32) -> TotValue {
    TotValue::Float(Decimal { neg, mantissa, exp })
}

#[test]
fn test_parse() {
    let v = parse("test 1").unwrap();
    assert_eq!(dict_get(&v, "test").unwrap(), &TotValue::Integer(1));

    let v = parse("test 1 blah true").unwrap();
    assert_eq!(dict_get(&v, "test").unwrap(), &TotValue::Integer(1));
    assert_eq!(dict_get(&v, "blah").unwrap(), &TotValue::Boolean(true));

    let v = parse(
        "\
test 1
blah true
dict {
    hello \"world\"
}
",
    )
    .unwrap();
    assert_eq!(dict_get(&v, "test").unwrap(), &TotValue::Integer(1));
    assert_eq!(dict_get(&v, "blah").unwrap(), &TotValue::Boolean(true));
    assert_eq!(
        dict_get(&v, "dict").unwrap(),
        &TotValue::Dict(vec![(
            "hello".to_string(),
            TotValue::String("world".to_string())
        )])
    );
}

#[test]
fn parser_test_unit() {
    let (rem, _) = unit("null// hello").unwrap();
    assert_eq!(rem, "// hello");
}

#[test]
fn test_token() {
    let (rem, par) = token("my-key 2").unwrap();
    assert_eq!(rem, " 2");
    assert_eq!(par, "my-key");

    assert!(token("").is_err());
}

#[test]
fn parser_test_boolean() {
    let (_, par) = boolean("true").unwrap();
    assert_eq!(par, true);

    let (_, par) = boolean("false").unwrap();
    assert_eq!(par, false);

    assert!(boolean("True").is_err());
    assert!(boolean("False").is_err());
    assert!(boolean("").is_err());
}

#[test]
fn test_integer() {
    let (_, par) = integer("10").unwrap();
    assert_eq!(par, i64::from(10));

    let (_, par) = integer("0").unwrap();
    assert_eq!(par, i64::from(0));

    let (_, par) = integer("10]").unwrap();
    assert_eq!(par, i64::from(10));

    assert!(integer("one").is_err());
    assert!(integer("").is_err());
}

#[test]
fn test_float() {
    let (_, par) = float("10.").unwrap();
    assert_eq!(dec_to_f64(par), f64::from(10));

    let (_, par) = float("10.0").unwrap();
    assert_eq!(dec_to_f64(par), f64::from(10));

    let (_, par) = float("0.1").unwrap();
    assert_eq!(dec_to_f64(par), f64::from(0.1));

    let (_, par) = float(".1").unwrap();
    assert_eq!(dec_to_f64(par), f64::from(0.1));

    assert!(float("one").is_err());
    assert!(float("").is_err());
}

#[test]
fn parser_test_string() {
    let (rem, par) = string("\"hello world\"foo").unwrap();
    assert_eq!(rem, "foo");
    assert_eq!(par, "hello world");

    assert!(string("hello world").is_err());
    assert!(string("1").is_err());
}

#[test]
fn parser_test_whitespace() {
    let (rem, _) = whitespace(" hello").unwrap();
    assert_eq!(rem, "hello");

    let (rem, _) = whitespace(" ").unwrap();
    assert_eq!(rem, "");

    assert!(whitespace("hello").is_err());
}

#[test]
fn test_line_comment() {
    let (rem, _) = line_comment("// blah").unwrap();
    assert_eq!(rem, "");

    let (rem, _) = line_comment("// this is a comment\ntext").unwrap();
    assert_eq!(rem, "\ntext");
}

#[test]
fn test_block_comment() {
    let (rem, _) = block_comment("/* moo */\nhello world").unwrap();
    assert_eq!(rem, "\nhello world");

    let (rem, _) = block_comment("/* moo\n\n\t\r */\nhello world").unwrap();
    assert_eq!(rem, "\nhello world");
}

#[test]
fn test_all_ignored() {
    let (rem, _) = all_ignored("/* hello world *///hello").unwrap();
    assert_eq!(rem, "");

    let (rem, _) = all_ignored("/* hello world */    //hello").unwrap();
    assert_eq!(rem, "");

    let (rem, _) = all_ignored("//hello /* hello world */").unwrap();
    assert_eq!(rem, "");

    let (rem, _) = all_ignored("/* hello world */ woot").unwrap();
    assert_eq!(rem, "woot");
}

#[test]
fn test_list() {
    let (rem, par) = list("[]").unwrap();
    assert_eq!(rem, "");
    assert_eq!(par, TotValue::List(vec![]));

    let (rem, par) = list("[1]").unwrap();
    assert_eq!(rem, "");
    assert_eq!(par, TotValue::List(vec![TotValue::Integer(1)]));

    let (rem, par) = list("[] blah []").unwrap();
    assert_eq!(rem, " blah []");
    assert_eq!(par, TotValue::List(vec![]));

    let (rem, par) = list("[1] blah []").unwrap();
    assert_eq!(rem, " blah []");
    assert_eq!(par, TotValue::List(vec![TotValue::Integer(1)]));

    let (rem, par) = list("[1, 2\n , /* inner comment */ 3.1 4] blah []").unwrap();
    assert_eq!(rem, " blah []");
    assert_eq!(
        par,
        TotValue::List(vec![
            TotValue::Integer(1),
            TotValue::Integer(2),
            dec(false, 31, -1),
            TotValue::Integer(4)
        ])
    );

    assert!(list("").is_err());
    // Not a list
    assert!(list("hello").is_err());
    // Invalid identifier
    assert!(list("[hello]").is_err());
    // Unterminated list
    assert!(list("[").is_err());
    assert!(list("[ 1 ").is_err());
}

#[test]
fn test_dict() {
    let (rem, par) = dict("{}").unwrap();
    assert_eq!(rem, "");
    assert_eq!(par, TotValue::Dict(vec![]));

    let (_, par) = dict("{hello \"world\"}").unwrap();
    assert_eq!(
        par,
        TotValue::Dict(vec![(
            "hello".to_string(),
            TotValue::String("world".to_string())
        )])
    );

    let (_, par) = dict("{hello \"world\" inner-list [true 10]}").unwrap();
    assert_eq!(
        par,
        TotValue::Dict(vec![
            (
                "hello".to_string(),
                TotValue::String("world".to_string())
            ),
            (
                "inner-list".to_string(),
                TotValue::List(vec![TotValue::Boolean(true), TotValue::Integer(10)])
            ),
        ])
    );
}

#[test]
fn test_key() {
    let (rem, par) = key("my-key").unwrap();
    assert_eq!(rem, "");
    assert_eq!(par, "my-key");

    let (rem, par) = key("my-key 2").unwrap();
    assert_eq!(rem, " 2");
    assert_eq!(par, "my-key");

    let (rem, par) = key("\"my-key\" 2").unwrap();
    assert_eq!(rem, " 2");
    assert_eq!(par, "my-key");

    let (rem, par) = key("\"my key\" 2").unwrap();
    assert_eq!(rem, " 2");
    assert_eq!(par, "my key");
}

#[test]
fn test_scalar() {
    let (_, par) = scalar("true").unwrap();
    assert_eq!(par, TotValue::Boolean(true));

    let (_, par) = scalar("1").unwrap();
    assert_eq!(par, TotValue::Integer(1));

    let (_, par) = scalar("\"hello\"").unwrap();
    assert_eq!(par, TotValue::String("hello".to_string()));

    let (_, par) = scalar("[false]").unwrap();
    assert_eq!(par, TotValue::List(vec![TotValue::Boolean(false)]));
}

#[test]
fn test_key_value() {
    let (_, par) = key_value("hello true").unwrap();
    assert_eq!(par.0, "hello");
    assert_eq!(par.1, TotValue::Boolean(true));

    let (_, par) = key_value("\"hello world\" false").unwrap();
    assert_eq!(par.0, "hello world");
    assert_eq!(par.1, TotValue::Boolean(false));

    let (_, par) = key_value("hello 10").unwrap();
    assert_eq!(par.0, "hello");
    assert_eq!(par.1, TotValue::Integer(10));

    let (_, par) = key_value("hello \"world\"").unwrap();
    assert_eq!(par.0, "hello");
    assert_eq!(par.1, TotValue::String("world".to_string()));

    let (_, par) = key_value("hello [0 true [\"hello\"]]").unwrap();
    assert_eq!(par.0, "hello");
    assert_eq!(
        par.1,
        TotValue::List(vec![
            TotValue::Integer(0),
            TotValue::Boolean(true),
            TotValue::List(vec![TotValue::String("hello".to_string())])
        ])
    );
}

#[test]
fn parse_string() {
    let (_, par) = tot::parser::parse_string("\"this is a test\"").unwrap();
    assert_eq!(par, "this is a test");

    let (_, par) = tot::parser::parse_string("\"\n\n\n\n\"").unwrap();
    assert_eq!(par, "\n\n\n\n");

    let (_, par) = tot::parser::parse_string("\"     \"").unwrap();
    assert_eq!(par, "     ");
}

#[test]
fn test_string_escapes() {
    let (_, par) = tot::parser::parse_string("\"a\\nb\\t\\\"q\\\\d\"").unwrap();
    assert_eq!(par, "a\nb\t\"q\\d");

    let (_, par) = tot::parser::parse_string("\"\\u{1F602}\"").unwrap();
    assert_eq!(par, "\u{1F602}");

    // escaped whitespace is elided entirely
    let (_, par) = tot::parser::parse_string("\"ab\\   \n  cd\"").unwrap();
    assert_eq!(par, "abcd");

    // a surrogate code point is not a scalar value
    assert!(tot::parser::parse_string("\"\\u{D800}\"").is_err());
    // unterminated
    assert!(tot::parser::parse_string("\"abc").is_err());
    // unknown escape
    assert!(tot::parser::parse_string("\"\\q\"").is_err());
}
