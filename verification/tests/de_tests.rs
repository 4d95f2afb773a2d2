//! Tests of the pull decoder: scalars, integer coercion with its
//! saturation rules, strings, containers and options.

use tot::de::{self, Deserializer};
use tot::Error;

// ---------------------------------------------------------------------
// Helpers that drive the pull interface the way a framework adapter
// does: sequences and maps element by element.
// ---------------------------------------------------------------------
fn de_vec_bool(s: &str) -> Result<Vec<bool>, Error> {
    let mut d = Deserializer::from_str(s);
    d.seq_begin()?;
    let mut out = Vec::new();
    while !d.seq_is_end()? {
        out.push(d.parse_bool()?);
    }
    d.seq_end()?;
    d.parse_ws()?;
    if d.at_end() {
        Ok(out)
    } else {
        Err(Error::SerdeError("Input not empty".to_string()))
    }
}

fn de_vec_i8(s: &str) -> Result<Vec<i8>, Error> {
    let mut d = Deserializer::from_str(s);
    d.seq_begin()?;
    let mut out = Vec::new();
    while !d.seq_is_end()? {
        out.push(d.parse_i8()?);
    }
    d.seq_end()?;
    d.parse_ws()?;
    if d.at_end() {
        Ok(out)
    } else {
        Err(Error::SerdeError("Input not empty".to_string()))
    }
}

fn de_vec_u8(s: &str) -> Result<Vec<u8>, Error> {
    let mut d = Deserializer::from_str(s);
    d.seq_begin()?;
    let mut out = Vec::new();
    while !d.seq_is_end()? {
        out.push(d.parse_u8()?);
    }
    d.seq_end()?;
    d.parse_ws()?;
    if d.at_end() {
        Ok(out)
    } else {
        Err(Error::SerdeError("Input not empty".to_string()))
    }
}

fn de_pairs_i32(s: &str) -> Result<Vec<(i32, i32)>, Error> {
    let mut d = Deserializer::from_str(s);
    let braced = d.map_begin()?;
    let mut out = Vec::new();
    while d.map_has_key()? {
        let k = d.parse_i32()?;
        d.parse_ws()?;
        let v = d.parse_i32()?;
        d.parse_ws()?;
        out.push((k, v));
    }
    d.map_end(braced)?;
    d.parse_ws()?;
    if d.at_end() {
        Ok(out)
    } else {
        Err(Error::SerdeError("Input not empty".to_string()))
    }
}

fn de_f64(s: &str) -> Result<f64, Error> {
    let mut d = Deserializer::from_str(s);
    let t = d.parse_number_text()?;
    d.parse_ws()?;
    if !d.at_end() {
        return Err(Error::SerdeError("Input not empty".to_string()));
    }
    t.parse::<f64>()
        .map_err(|e| Error::SerdeError(e.to_string()))
}

fn de_f32(s: &str) -> Result<f32, Error> {
    de_f64(s).map(|v| v as f32)
}

fn de_option_bool(s: &str) -> Result<Option<bool>, Error> {
    let mut d = Deserializer::from_str(s);
    let r = if d.parse_none()? {
        None
    } else {
        Some(d.parse_bool()?)
    };
    d.parse_ws()?;
    if d.at_end() {
        Ok(r)
    } else {
        Err(Error::SerdeError("Input not empty".to_string()))
    }
}

fn de_option_string(s: &str) -> Result<Option<String>, Error> {
    let mut d = Deserializer::from_str(s);
    let r = if d.parse_none()? {
        None
    } else {
        Some(d.parse_string()?)
    };
    d.parse_ws()?;
    if d.at_end() {
        Ok(r)
    } else {
        Err(Error::SerdeError("Input not empty".to_string()))
    }
}

// ---------------------------------------------------------------------
// The decoder's own primitives.
// ---------------------------------------------------------------------
#[test]
fn de_test_whitespace() {
    let input = "/*comment */ true //asdf";

    let mut de = Deserializer::from_str(input);

    assert!(de.parse_bool().is_err());

    de.parse_ws().unwrap();

    assert_eq!(de.parse_bool().unwrap(), true);
}

#[test]
fn de_test_unit() {
    let mut de = Deserializer::from_str("null");
    assert!(de.parse_unit().is_ok());
}

#[test]
fn de_test_boolean() {
    let mut de = Deserializer::from_str("true");
    assert_eq!(de.parse_bool().unwrap(), true);
}

#[test]
fn test_number_float() {
    let mut de = Deserializer::from_str("1.0");
    let n = de.parse_number().unwrap();
    assert_eq!(
        n,
        tot::num::Number::Dec(tot::num::Decimal {
            neg: false,
            mantissa: 1,
            exp: 0
        })
    );
}

#[test]
fn de_test_string() {
    let mut de = Deserializer::from_str("\"hello world\"");
    assert_eq!(de.parse_string().unwrap(), "hello world");
}

// ---------------------------------------------------------------------
// Whole-document decoding.
// ---------------------------------------------------------------------
#[test]
fn test_de_unit() {
    assert!(de::decode_unit("null").is_ok());
    assert!(de::decode_unit("\"null\"").is_err());
}

#[test]
fn test_de_bool() {
    assert_eq!(de::decode_bool("true").unwrap(), true);
    assert_eq!(de::decode_bool("false").unwrap(), false);

    assert!(de::decode_bool("1.0").is_err());
}

#[test]
fn test_de_i8() {
    assert_eq!(de::decode_i8("-1").unwrap(), -1);
    assert_eq!(de::decode_i8("0").unwrap(), 0);
    assert_eq!(de::decode_i8("1").unwrap(), 1);

    assert_eq!(de::decode_i8("127").unwrap(), 127);
    assert_eq!(de::decode_i8("-128").unwrap(), -128);

    assert!(de::decode_i8("true").is_err());
    assert!(de::decode_i8("128").is_err());
    assert!(de::decode_i8("-129").is_err());
}

#[test]
fn test_de_i16() {
    assert_eq!(de::decode_i16("-1").unwrap(), -1);
    assert_eq!(de::decode_i16("0").unwrap(), 0);
    assert_eq!(de::decode_i16("1").unwrap(), 1);

    assert_eq!(de::decode_i16("32767").unwrap(), 32767);
    assert_eq!(de::decode_i16("-32768").unwrap(), -32768);

    assert!(de::decode_i16("true").is_err());
    assert!(de::decode_i16("32768").is_err());
    assert!(de::decode_i16("-32769").is_err());
}

#[test]
fn test_de_i32() {
    assert_eq!(de::decode_i32("-1").unwrap(), -1);
    assert_eq!(de::decode_i32("0").unwrap(), 0);
    assert_eq!(de::decode_i32("1").unwrap(), 1);

    assert_eq!(de::decode_i32("2147483647").unwrap(), 2147483647);
    assert_eq!(de::decode_i32("-2147483648").unwrap(), -2147483648);

    assert!(de::decode_i32("true").is_err());
    assert!(de::decode_i32("2147483648").is_err());
    assert!(de::decode_i32("-2147483649").is_err())
}

#[test]
fn test_de_i64() {
    assert_eq!(de::decode_i64("-1").unwrap(), -1);
    assert_eq!(de::decode_i64("0").unwrap(), 0);
    assert_eq!(de::decode_i64("1").unwrap(), 1);

    assert_eq!(
        de::decode_i64("9223372036854775807").unwrap(),
        9223372036854775807
    );
    assert_eq!(
        de::decode_i64("-9223372036854775808").unwrap(),
        -9223372036854775808
    );

    assert!(de::decode_i64("true").is_err());
}

#[test]
fn test_de_i64_truncate() {
    assert_eq!(
        de::decode_i64("9223372036854775809").unwrap(),
        9223372036854775807
    );
}

#[test]
fn test_de_u8() {
    assert_eq!(de::decode_u8("0").unwrap(), 0);
    assert_eq!(de::decode_u8("1").unwrap(), 1);

    assert_eq!(de::decode_u8("255").unwrap(), 255);

    assert!(de::decode_u8("true").is_err());
    assert!(de::decode_u8("256").is_err());
}

#[test]
fn test_de_u16() {
    assert_eq!(de::decode_u16("0").unwrap(), 0);
    assert_eq!(de::decode_u16("1").unwrap(), 1);

    assert_eq!(de::decode_u16("65535").unwrap(), 65535);

    assert!(de::decode_u16("true").is_err());
    assert!(de::decode_u16("65536").is_err());
}

#[test]
fn test_de_u32() {
    assert_eq!(de::decode_u32("0").unwrap(), 0);
    assert_eq!(de::decode_u32("1").unwrap(), 1);

    assert_eq!(de::decode_u32("4294967295").unwrap(), 4294967295);

    assert!(de::decode_u32("true").is_err());
    assert!(de::decode_u32("4294967296").is_err());
}

#[test]
fn test_de_u64() {
    assert_eq!(de::decode_u64("0").unwrap(), 0);
    assert_eq!(de::decode_u64("1").unwrap(), 1);

    assert_eq!(
        de::decode_u64("18446744073709551615").unwrap(),
        18446744073709551615
    );

    assert!(de::decode_u64("true").is_err());
}

#[test]
fn test_de_u64_truncate() {
    assert_eq!(
        de::decode_u64("18446744073709551616").unwrap(),
        18446744073709551615
    );
}

#[test]
fn test_de_unsigned_truncate() {
    assert_eq!(de::decode_u8("-3").unwrap(), 0);
    assert_eq!(de::decode_u16("-3").unwrap(), 0);
    assert_eq!(de::decode_u32("-3").unwrap(), 0);
    assert_eq!(de::decode_u64("-3").unwrap(), 0);
}

#[test]
fn test_de_f32() {
    assert_eq!(de_f32("-1").unwrap(), -1.0);
    assert_eq!(de_f32("0").unwrap(), 0.0);
    assert_eq!(de_f32("1").unwrap(), 1.0);

    assert_eq!(de_f32("2147483647").unwrap(), 2147483647.0);
    assert_eq!(de_f32("-2147483648").unwrap(), -2147483648.0);

    assert!(de_f32("true").is_err());
}

#[test]
fn test_de_f64() {
    assert_eq!(de_f64("-1").unwrap(), -1.0);
    assert_eq!(de_f64("0").unwrap(), 0.0);
    assert_eq!(de_f64("1").unwrap(), 1.0);

    assert_eq!(de_f64("9223372036854775807").unwrap(), 9223372036854775807.0);
    assert_eq!(
        de_f64("-9223372036854775808").unwrap(),
        -9223372036854775808.0
    );

    assert!(de_f64("true").is_err());
}

#[test]
fn test_de_float_truncate() {
    assert!(de_f32("123819023801928309128301231234218309812408210").is_ok());
    assert!(de_f64("123819023801928309128301231234218309812408210").is_ok());
}

#[test]
fn test_de_char() {
    assert_eq!(de::decode_char("\"a\"").unwrap(), 'a');
    assert_eq!(de::decode_char("\"0\"").unwrap(), '0');

    assert!(de::decode_char("\"abc\"").is_err());
}

#[test]
fn test_de_string() {
    assert_eq!(de::decode_string("\"hello world\"").unwrap(), "hello world");
}

#[test]
fn test_de_bytes() {
    assert_eq!(
        de_vec_u8(
            "\
[
    1.0
    2.0
    3.0
]
"
        )
        .unwrap(),
        [1, 2, 3]
    );
}

#[test]
fn test_de_list() {
    assert_eq!(de_vec_bool("[\ntrue\n]").unwrap(), vec![true]);
    assert_eq!(
        de_vec_bool(
            "\
[
    true
    false
    true
]
"
        )
        .unwrap(),
        vec![true, false, true]
    );
    assert_eq!(
        de_vec_i8(
            "\
[
    -2
    64
    0
]
"
        )
        .unwrap(),
        vec![-2, 64, 0]
    );
}

#[test]
fn test_de_tuple() {
    let mut d = Deserializer::from_str(
        "\
[
    true
    22
    \"hello\"
]
",
    );
    d.seq_begin().unwrap();
    assert!(!d.seq_is_end().unwrap());
    let b = d.parse_bool().unwrap();
    assert!(!d.seq_is_end().unwrap());
    let i = d.parse_i8().unwrap();
    assert!(!d.seq_is_end().unwrap());
    let s = d.parse_string().unwrap();
    assert!(d.seq_is_end().unwrap());
    d.seq_end().unwrap();
    assert!(d.at_end());
    assert_eq!((b, i, s), (true, 22, "hello".to_string()));
}

#[test]
fn test_de_map_string_integer() {
    let mut d = Deserializer::from_str(
        "\
hello 101
\"world\" -2
\"hello world\" 1
",
    );
    let braced = d.map_begin().unwrap();
    let mut pairs: Vec<(String, i8)> = Vec::new();
    while d.map_has_key().unwrap() {
        let k = d.parse_key().unwrap();
        d.parse_ws().unwrap();
        let v = d.parse_i8().unwrap();
        d.parse_ws().unwrap();
        pairs.push((k, v));
    }
    d.map_end(braced).unwrap();
    assert!(d.at_end());

    assert_eq!(
        pairs,
        vec![
            ("hello".to_string(), 101),
            ("world".to_string(), -2),
            ("hello world".to_string(), 1),
        ]
    );
}

#[test]
fn test_de_map_integer_integer() {
    let pairs = de_pairs_i32(
        "\
1 2
3 4
",
    )
    .unwrap();

    assert_eq!(pairs, vec![(1, 2), (3, 4)]);
}

#[test]
fn test_de_option() {
    let r = de_option_bool("true").unwrap();
    assert_eq!(r.unwrap(), true);

    let r = de_option_string("\"hello world\"").unwrap();
    assert_eq!(r.unwrap(), "hello world");

    let r = de_option_string("null").unwrap();
    assert!(r.is_none());
}

#[test]
fn test_decode_trailing_ignored() {
    // trailing whitespace and comments are ignored input, not errors
    assert_eq!(de::decode_bool("true ").unwrap(), true);
    assert_eq!(de::decode_bool("true // tail").unwrap(), true);
    assert_eq!(de::decode_i64("5 /* c */ ,").unwrap(), 5);
    assert!(de::decode_unit("null\n").is_ok());
    assert_eq!(de::decode_string("\"hi\"\t").unwrap(), "hi");
    assert_eq!(de_vec_bool("[true] ").unwrap(), vec![true]);

    // anything that is not ignored still fails
    assert!(de::decode_bool("true x").is_err());
    assert!(de::decode_i64("5 6").is_err());
    assert!(de::decode_bool("true /* open").is_err());
}
