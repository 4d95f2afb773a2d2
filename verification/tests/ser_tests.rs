//! Tests of the serializer and of text round trips through the
//! parser.

use tot::num::Decimal;
use tot::parser::{parse, TotValue};
use tot::ser::{encode, encode_compact};

fn dict(entries: Vec<(&str, TotValue)>) -> TotValue {
    TotValue::Dict(
        entries
            .into_iter()
            .map(|(k, v)| (k.to_string(), v))
            .collect(),
    )
}

fn s(v: &str) -> TotValue {
    TotValue::String(v.to_string())
}

fn dec(neg: bool, mantissa: u64, exp: i32) -> TotValue {
    TotValue::Float(Decimal { neg, mantissa, exp })
}

#[test]
fn test_encode_root_list() {
    let data = TotValue::List(vec![s("hello"), s("world"), TotValue::Boolean(true)]);

    let output = encode(&data).unwrap();

    assert_eq!(
        output,
        "\
[
    \"hello\"
    \"world\"
    true
]
"
    )
}

#[test]
fn test_encode_nested_list() {
    let data = TotValue::List(vec![
        s("hello"),
        TotValue::Boolean(true),
        TotValue::List(vec![TotValue::Boolean(false), dec(false, 123, 0)]),
        dict(vec![]),
    ]);

    let output = encode(&data).unwrap();

    assert_eq!(
        output,
        "\
[
    \"hello\"
    true
    [
        false
        123.0
    ]
    {
    }
]
"
    )
}

#[test]
fn test_encode_root_dict() {
    let data = dict(vec![
        ("hello", dec(false, 123, 0)),
        ("world", dec(false, 0, 0)),
    ]);

    let output = encode(&data).unwrap();

    assert_eq!(
        output,
        "\
hello 123.0
world 0.0
"
    )
}

#[test]
fn test_encode_nested_dict() {
    let data = dict(vec![
        ("inner1", dict(vec![("my-key", s("my-value"))])),
        ("inner2", dict(vec![("other", s("val"))])),
    ]);

    let output = encode(&data).unwrap();

    assert_eq!(
        output,
        "\
inner1 {
    my-key \"my-value\"
}
inner2 {
    other \"val\"
}
"
    )
}

#[test]
fn test_encode_scalars() {
    assert_eq!(encode(&TotValue::Unit).unwrap(), "null\n");
    assert_eq!(encode(&TotValue::Boolean(true)).unwrap(), "true\n");
    assert_eq!(encode(&TotValue::Integer(100)).unwrap(), "100.0\n");
    assert_eq!(encode(&TotValue::Integer(-7)).unwrap(), "-7.0\n");
    assert_eq!(encode(&s("hello world")).unwrap(), "\"hello world\"\n");
    assert_eq!(encode(&dict(vec![])).unwrap(), "\n");
}

#[test]
fn test_encode_numbers() {
    assert_eq!(encode(&dec(false, 101, -1)).unwrap(), "10.1\n");
    assert_eq!(encode(&dec(false, 1, -3)).unwrap(), "0.001\n");
    assert_eq!(encode(&dec(true, 31, -1)).unwrap(), "-3.1\n");
    assert_eq!(encode(&dec(false, 5, 3)).unwrap(), "5000.0\n");
    assert_eq!(encode(&dec(false, 0, 0)).unwrap(), "0.0\n");
    // a mantissa with trailing zeros is not in normal form
    assert!(encode(&dec(false, 10, 0)).is_err());
    // work-in-progress forms cannot be written
    assert!(encode(&TotValue::Missing).is_err());
    assert!(encode(&TotValue::Generator {
        name: "g".to_string()
    })
    .is_err());
}

#[test]
fn test_encode_escapes() {
    assert_eq!(
        encode(&s("a\"b\\c\nd\te")).unwrap(),
        "\"a\\\"b\\\\c\\nd\\te\"\n"
    );
    assert_eq!(encode(&s("\u{01}\u{1f}")).unwrap(), "\"\\u{1}\\u{1f}\"\n");
}

#[test]
fn test_encode_compact_forms() {
    let data = dict(vec![
        ("a", TotValue::Integer(1)),
        ("b", TotValue::List(vec![TotValue::Integer(1), TotValue::Integer(2)])),
        ("c", dict(vec![("x", TotValue::Boolean(true))])),
    ]);

    let output = encode_compact(&data).unwrap();

    assert_eq!(output, "a 1.0,b [1.0,2.0,],c {x true,},");
}

// ---------------------------------------------------------------------
// Round trips: parsing what the serializer wrote gives the value
// back, with exact integers read back as decimals.
// ---------------------------------------------------------------------
/// The number-blurred form of a value: what a text round trip
/// preserves, integers coming back as decimals.
fn blur(v: &TotValue) -> TotValue {
    match v {
        TotValue::Integer(x) => {
            let neg = *x < 0;
            let mut m = x.unsigned_abs();
            let mut e: i32 = 0;
            while m > 0 && m % 10 == 0 {
                m /= 10;
                e += 1;
            }
            TotValue::Float(Decimal {
                neg,
                mantissa: m,
                exp: e,
            })
        }
        TotValue::List(items) => TotValue::List(items.iter().map(blur).collect()),
        TotValue::Dict(entries) => TotValue::Dict(
            entries
                .iter()
                .map(|(k, v)| (k.clone(), blur(v)))
                .collect(),
        ),
        TotValue::Unit => TotValue::Unit,
        TotValue::Boolean(b) => TotValue::Boolean(*b),
        TotValue::String(t) => TotValue::String(t.clone()),
        TotValue::Float(d) => TotValue::Float(*d),
        TotValue::Generator { name } => TotValue::Generator { name: name.clone() },
        TotValue::Missing => TotValue::Missing,
    }
}

fn roundtrip(v: TotValue) {
    let text = encode(&v).unwrap();
    let back = parse(&text).unwrap();
    assert_eq!(back, blur(&v));

    // encoding is idempotent across a round trip
    let text2 = encode(&back).unwrap();
    assert_eq!(text2, text);

    let ctext = encode_compact(&v).unwrap();
    let cback = parse(&ctext).unwrap();
    assert_eq!(cback, blur(&v));
}

#[test]
fn test_roundtrip_flat_record() {
    roundtrip(dict(vec![
        ("boolean", TotValue::Boolean(true)),
        ("integer", TotValue::Integer(22)),
        ("string", s("hello world")),
    ]));
}

#[test]
fn test_roundtrip_nested_record() {
    roundtrip(dict(vec![
        ("boolean", TotValue::Boolean(true)),
        (
            "fields",
            dict(vec![
                ("key1", s("hello")),
                ("key2", s("world")),
                ("key3", s("goodbye")),
            ]),
        ),
    ]));
}

#[test]
fn test_roundtrip_lists_and_numbers() {
    roundtrip(TotValue::List(vec![
        TotValue::Unit,
        TotValue::Boolean(false),
        TotValue::Integer(-12030),
        dec(false, 31, -1),
        dec(true, 7, -4),
        s("tricky \"text\"\n"),
        TotValue::List(vec![]),
        dict(vec![("k", TotValue::List(vec![TotValue::Integer(1)]))]),
    ]));
}

#[test]
fn test_roundtrip_duplicate_keys() {
    // duplicate keys survive a round trip in order; lookup semantics
    // take the last occurrence
    roundtrip(dict(vec![
        ("k", TotValue::Integer(1)),
        ("k", TotValue::Integer(2)),
    ]));
}

// ---------------------------------------------------------------------
// The flat-record scenario, end to end at the text level.
// ---------------------------------------------------------------------
#[test]
fn test_scenario_flat_record() {
    let text = "\
boolean true
integer 22.0
string \"hello world\"
";
    let v = parse(text).unwrap();
    assert_eq!(
        v,
        dict(vec![
            ("boolean", TotValue::Boolean(true)),
            ("integer", dec(false, 22, 0)),
            ("string", s("hello world")),
        ])
    );
    assert_eq!(encode(&v).unwrap(), text);
}

#[test]
fn test_scenario_nested_record() {
    let text = "\
boolean true
fields {
    key1 \"hello\"
    key2 \"world\"
    key3 \"goodbye\"
}
";
    let v = parse(text).unwrap();
    assert_eq!(encode(&v).unwrap(), text);
}

#[test]
fn test_scenario_list_of_booleans() {
    let text = "xs [\n    true\n    false\n    true\n]\n";
    let v = parse(text).unwrap();
    assert_eq!(
        v,
        dict(vec![(
            "xs",
            TotValue::List(vec![
                TotValue::Boolean(true),
                TotValue::Boolean(false),
                TotValue::Boolean(true),
            ])
        )])
    );
    assert_eq!(encode(&v).unwrap(), text);
}

#[test]
fn test_scenario_variant_forms() {
    // a bare quoted string names a unit variant
    assert_eq!(tot::de::decode_string("\"Unit\"").unwrap(), "Unit");

    // a one-entry dictionary binds a variant name to its payload; at
    // the root the braces are elided
    let v = parse("Bool true").unwrap();
    assert_eq!(v, dict(vec![("Bool", TotValue::Boolean(true))]));

    let v = parse("Tuple [\n    100.0\n    false\n]\n").unwrap();
    assert_eq!(
        v,
        dict(vec![(
            "Tuple",
            TotValue::List(vec![dec(false, 1, 2), TotValue::Boolean(false)])
        )])
    );

    let v = parse("Struct {\n    string \"hello\"\n    integer 10.0\n}\n").unwrap();
    assert_eq!(
        v,
        dict(vec![(
            "Struct",
            dict(vec![("string", s("hello")), ("integer", dec(false, 1, 1))])
        )])
    );
}

#[test]
fn test_scenario_comment_insensitivity() {
    // skipping ignored input in front of a scalar
    let (rem, _) = tot::parser::all_ignored("/*c*/ ").unwrap();
    assert_eq!(rem, "");
    let (rem, v) = tot::parser::scalar("true //t").unwrap();
    assert_eq!(v, TotValue::Boolean(true));
    assert_eq!(rem, " //t");

    // commas, whitespace and comments between elements are equivalent
    let a = tot::parser::list("[1, 2, 3]").unwrap().1;
    let b = tot::parser::list("[1 2 3]").unwrap().1;
    let c = tot::parser::list("[/* inner */ 1 2\n,3]").unwrap().1;
    assert_eq!(a, b);
    assert_eq!(b, c);

    // inserting comments into a document keeps its value
    let plain = parse("a 1\nb true\n").unwrap();
    let noisy = parse("// head\na /*x*/ 1\n/* mid */ b true // tail\n").unwrap();
    assert_eq!(plain, noisy);
}

#[test]
fn test_bracket_imbalance_rejected() {
    assert!(parse("a [1 2\n").is_err());
    assert!(parse("a {x 1\n").is_err());
    assert!(parse("a [1]]\n").is_err());
    assert!(parse("a 1}\n").is_err());
    assert!(tot::parser::list("[ [1] ").is_err());
    assert!(tot::parser::dict("{x [1 }").is_err());
}

#[test]
fn test_error_kinds() {
    // a key with no value following it
    assert!(matches!(parse("key"), Err(tot::parser::Error::ParseError)));
    // a number past the finite decimal range
    assert!(matches!(
        tot::parser::float("1e9999"),
        Err(tot::parser::Error::FloatError(_))
    ));
    // a malformed string body
    assert!(matches!(
        tot::parser::string("\"ab"),
        Err(tot::parser::Error::StringError(_))
    ));
    // missing whitespace where it is demanded
    assert!(matches!(
        tot::parser::whitespace("x"),
        Err(tot::parser::Error::WhitespaceError(_))
    ));
    // an integer form that is really a decimal
    assert!(matches!(
        tot::parser::integer("1.5"),
        Err(tot::parser::Error::IntegerError(_))
    ));
}

#[test]
fn test_number_edge_values() {
    // underflow of the decimal range collapses to zero
    let (_, d) = tot::parser::float("1e-999").unwrap();
    assert_eq!(
        d,
        Decimal {
            neg: false,
            mantissa: 0,
            exp: 0
        }
    );
    // exponent clauses are accepted on input
    let (_, d) = tot::parser::float("25e-1").unwrap();
    assert_eq!(
        d,
        Decimal {
            neg: false,
            mantissa: 25,
            exp: -1
        }
    );
    // and rendered in plain decimal notation
    assert_eq!(encode(&dec(false, 25, -1)).unwrap(), "2.5\n");
}
