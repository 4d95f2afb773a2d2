//! The Tot text parser: recognizers for the lexical forms and the
//! value grammar, and the untyped value tree they produce.
//!
//! Every recognizer consumes a prefix of its input and returns the
//! parsed value together with the remaining input.  The contracts
//! relate each recognizer to the specification grammar in
//! [`crate::grammar`].

use vstd::prelude::*;
use crate::chars::{str_to_chars, chars_to_string, ws_char, digit_char, hex_digit_char,
    digit_value, hex_digit_value, char_from_u32};
use crate::chars::{is_ws, is_digit, is_hex_digit};
use crate::grammar::{TotV, skip_ign, find_eol, find_close, p_unit, p_bool, p_number, p_string,
    p_strbody, p_token, p_key, p_scalar, p_list_items, p_dict_items, p_root, p_root_list,
    p_key_value, dec_form,
    count_digits, count_hex, count_ws, count_non_ws, cons_str, num_rep, hex_acc, acc_dec,
    pow16, lemma_hex_acc_bound, lemma_pow16_six,
    acc_frac, acc_exp, exp_lex_len, exp_clause_val, mk_dec, is_scalar_val, max_exp, min_exp};
use crate::grammar::{lemma_count_digits, lemma_count_hex, lemma_count_ws, lemma_count_non_ws,
    lemma_find_eol, lemma_find_close, lemma_skip_ign_len, lemma_acc_dec_snoc,
    lemma_acc_frac_snoc, lemma_acc_exp_snoc, lemma_hex_acc_snoc};
use crate::num::{Decimal, Number, norm, pow10, lemma_norm_keeps_value};

verus! {

broadcast use vstd::seq_lib::lemma_seq_skip_of_skip;

/// Failures of the text parser.
///
/// `ParseError` reports a document whose root matches neither the
/// implicit dictionary form nor a bracketed list; the other variants
/// carry the lexical or structural form that failed.
#[derive(Debug)]
pub enum Error {
    ParseError,
    WhitespaceError(String),
    UnitError(String),
    BoolError(String),
    IntegerError(String),
    FloatError(String),
    StringError(String),
    ExpressionError(String),
    DictError(String),
    ListError(String),
}

/// An untyped Tot value.
///
/// Numbers keep an exact integer track: a literal with no fractional
/// part and no exponent that fits a signed 64-bit integer parses as
/// `Integer`; every other numeric literal parses as `Float`, held
/// exactly as a decimal mantissa and exponent.  `Dict` keeps its
/// entries in source order; key uniqueness is not enforced and lookup
/// takes the last occurrence.  `Generator` and `Missing` stand for
/// work-in-progress expression forms and are never produced by the
/// parser.
#[derive(Debug, PartialEq)]
pub enum TotValue {
    Unit,
    Boolean(bool),
    String(String),
    Integer(i64),
    Float(Decimal),
    List(Vec<TotValue>),
    Dict(Vec<(String, TotValue)>),
    Generator { name: String },
    Missing,
}

/// A parsed expression form.  Expressions are a work-in-progress part
/// of the language: the grammar reserves `( ... )` for them, and the
/// parser does not yet produce them.
#[derive(Debug, PartialEq)]
pub enum TotExpression {
    Unit,
    Ref { name: String, accessors: Vec<String> },
    Add,
    Sub,
    Mul,
    Div,
    For,
}

/// The mathematical tree a value stands for.
pub open spec fn tv(v: TotValue) -> TotV
    decreases v,
{
    match v {
        TotValue::Unit => TotV::UnitV,
        TotValue::Boolean(b) => TotV::BoolV(b),
        TotValue::String(t) => TotV::StrV(t@),
        TotValue::Integer(n) => TotV::IntV(n as int),
        TotValue::Float(d) => TotV::DecV { neg: d.neg, m: d.mantissa as nat, e: d.exp as int },
        TotValue::List(l) => TotV::ListV(tv_list(l@)),
        TotValue::Dict(entries) => TotV::DictV(tv_dict(entries@)),
        TotValue::Generator { name } => TotV::GenV(name@),
        TotValue::Missing => TotV::MissingV,
    }
}

/// The trees of a sequence of values.
pub open spec fn tv_list(l: Seq<TotValue>) -> Seq<TotV>
    decreases l,
{
    if l.len() == 0 {
        Seq::empty()
    } else {
        seq![tv(l[0])] + tv_list(l.skip(1))
    }
}

/// The trees of a sequence of entries.
pub open spec fn tv_dict(l: Seq<(String, TotValue)>) -> Seq<(Seq<char>, TotV)>
    decreases l,
{
    if l.len() == 0 {
        Seq::empty()
    } else {
        seq![(l[0].0@, tv(l[0].1))] + tv_dict(l.skip(1))
    }
}

pub proof fn lemma_tv_list(l: Seq<TotValue>)
    ensures
        tv_list(l).len() == l.len(),
        forall|k: int| 0 <= k < l.len() ==> tv_list(l)[k] == tv(#[trigger] l[k]),
    decreases l.len(),
{
    if l.len() > 0 {
        lemma_tv_list(l.skip(1));
        assert forall|k: int| 0 <= k < l.len() implies tv_list(l)[k] == tv(#[trigger] l[k]) by {
            if k > 0 {
                assert(l.skip(1)[k - 1] == l[k]);
            }
        }
    }
}

pub proof fn lemma_tv_list_push(l: Seq<TotValue>, v: TotValue)
    ensures
        tv_list(l.push(v)) == tv_list(l) + seq![tv(v)],
    decreases l.len(),
{
    if l.len() == 0 {
        assert(l.push(v)[0] == v);
        assert(l.push(v).skip(1) =~= Seq::<TotValue>::empty());
        assert(tv_list(l.push(v)) == seq![tv(v)] + tv_list(l.push(v).skip(1)));
        assert(tv_list(l.push(v).skip(1)) == Seq::<TotV>::empty());
        assert(seq![tv(v)] + Seq::<TotV>::empty() =~= tv_list(l) + seq![tv(v)]);
    } else {
        assert(l.push(v)[0] == l[0]);
        assert(l.push(v).skip(1) =~= l.skip(1).push(v));
        lemma_tv_list_push(l.skip(1), v);
        assert(tv_list(l.push(v)) == seq![tv(l[0])] + tv_list(l.skip(1).push(v)));
        assert(seq![tv(l[0])] + (tv_list(l.skip(1)) + seq![tv(v)]) =~= (seq![tv(l[0])]
            + tv_list(l.skip(1))) + seq![tv(v)]);
    }
}

pub proof fn lemma_tv_dict_push(l: Seq<(String, TotValue)>, k: String, v: TotValue)
    ensures
        tv_dict(l.push((k, v))) == tv_dict(l) + seq![(k@, tv(v))],
    decreases l.len(),
{
    let kv = (k, v);
    if l.len() == 0 {
        assert(l.push(kv)[0] == kv);
        assert(l.push(kv).skip(1) =~= Seq::<(String, TotValue)>::empty());
        assert(tv_dict(l.push(kv)) == seq![(k@, tv(v))] + tv_dict(l.push(kv).skip(1)));
        assert(tv_dict(l.push(kv).skip(1)) == Seq::<(Seq<char>, TotV)>::empty());
        assert(seq![(k@, tv(v))] + Seq::<(Seq<char>, TotV)>::empty() =~= tv_dict(l) + seq![
            (k@, tv(v)),
        ]);
    } else {
        assert(l.push(kv)[0] == l[0]);
        assert(l.push(kv).skip(1) =~= l.skip(1).push(kv));
        lemma_tv_dict_push(l.skip(1), k, v);
        assert(tv_dict(l.push(kv)) == seq![(l[0].0@, tv(l[0].1))] + tv_dict(l.skip(1).push(kv)));
        assert(seq![(l[0].0@, tv(l[0].1))] + (tv_dict(l.skip(1)) + seq![(k@, tv(v))]) =~= (seq![
            (l[0].0@, tv(l[0].1)),
        ] + tv_dict(l.skip(1))) + seq![(k@, tv(v))]);
    }
}

// ---------------------------------------------------------------------
// Recognizers over a shared char buffer and a position.
// ---------------------------------------------------------------------
/// Advance past the run of ignored input (whitespace, commas,
/// comments) starting at `i`.
pub fn all_ignored_at(inp: &Vec<char>, i: usize) -> (j: usize)
    requires
        i <= inp.len(),
    ensures
        i <= j <= inp.len(),
        inp@.skip(j as int) == skip_ign(inp@.skip(i as int)),
{
    let mut cur = i;
    loop
        invariant
            i <= cur <= inp.len(),
            skip_ign(inp@.skip(i as int)) == skip_ign(inp@.skip(cur as int)),
        ensures
            i <= cur <= inp.len(),
            inp@.skip(cur as int) == skip_ign(inp@.skip(i as int)),
        decreases inp.len() - cur,
    {
        let ghost s = inp@.skip(cur as int);
        if cur >= inp.len() {
            proof {
                assert(s.len() == 0);
                assert(skip_ign(s) == s);
            }
            break;
        }
        let c = inp[cur];
        proof {
            assert(s[0] == inp@[cur as int]);
        }
        if ws_char(c) || c == ',' {
            proof {
                assert(s.skip(1) == inp@.skip(cur as int + 1));
                assert(skip_ign(s) == skip_ign(s.skip(1)));
            }
            cur = cur + 1;
        } else if c == '/' && inp.len() - cur >= 2 && inp[cur + 1] == '/' {
            proof {
                assert(s.len() >= 2 && s[1] == inp@[cur as int + 1]);
            }
            let mut p = cur + 2;
            proof {
                assert(inp@.skip(cur as int + 2) == s.skip(2));
            }
            while p < inp.len() && inp[p] != '\n' && inp[p] != '\r'
                invariant
                    cur + 2 <= p <= inp.len(),
                    cur + 2 <= inp.len(),
                    find_eol(inp@.skip(cur as int + 2)) == (p - cur - 2) + find_eol(
                        inp@.skip(p as int),
                    ),
                decreases inp.len() - p,
            {
                proof {
                    let sp = inp@.skip(p as int);
                    assert(sp[0] == inp@[p as int]);
                    assert(sp.skip(1) == inp@.skip(p as int + 1));
                    assert(find_eol(sp) == 1 + find_eol(sp.skip(1)));
                }
                p = p + 1;
            }
            proof {
                let sp = inp@.skip(p as int);
                if p < inp.len() {
                    assert(sp[0] == inp@[p as int]);
                }
                assert(find_eol(sp) == 0);
                let e = find_eol(s.skip(2));
                assert(e == p - cur - 2);
                assert(s.skip(2 + e) == inp@.skip(cur as int + 2 + e));
                assert(skip_ign(s) == skip_ign(s.skip(2 + e)));
            }
            cur = p;
        } else if c == '/' && inp.len() - cur >= 2 && inp[cur + 1] == '*' {
            proof {
                assert(s.len() >= 2 && s[1] == inp@[cur as int + 1]);
            }
            let mut p = cur + 2;
            proof {
                assert(inp@.skip(cur as int + 2) == s.skip(2));
            }
            while inp.len() - p >= 2 && !(inp[p] == '*' && inp[p + 1] == '/')
                invariant
                    cur + 2 <= p <= inp.len(),
                    cur + 2 <= inp.len(),
                    find_close(inp@.skip(cur as int + 2)) == match find_close(
                        inp@.skip(p as int),
                    ) {
                        Some(j) => Some((p - cur - 2) + j),
                        None => None,
                    },
                decreases inp.len() - p,
            {
                proof {
                    let sp = inp@.skip(p as int);
                    assert(sp[0] == inp@[p as int] && sp[1] == inp@[p as int + 1]);
                    assert(sp.skip(1) == inp@.skip(p as int + 1));
                    assert(find_close(sp) == match find_close(sp.skip(1)) {
                        Some(j) => Some(1 + j),
                        None => None,
                    });
                }
                p = p + 1;
            }
            if inp.len() - p >= 2 {
                proof {
                    let sp = inp@.skip(p as int);
                    assert(sp[0] == inp@[p as int] && sp[1] == inp@[p as int + 1]);
                    assert(find_close(sp) == Some(0int));
                    let j = (p - cur - 2) as int;
                    assert(find_close(s.skip(2)) == Some(j));
                    assert(s.skip(4 + j) == inp@.skip(cur as int + 4 + j));
                    assert(skip_ign(s) == skip_ign(s.skip(4 + j)));
                }
                cur = p + 2;
            } else {
                proof {
                    let sp = inp@.skip(p as int);
                    assert(sp.len() < 2);
                    assert(find_close(sp) is None);
                    assert(find_close(s.skip(2)) is None);
                    assert(skip_ign(s) == s);
                }
                break;
            }
        } else {
            proof {
                if s.len() >= 2 {
                    assert(s[1] == inp@[cur as int + 1]);
                }
                assert(skip_ign(s) == s);
            }
            break;
        }
    }
    cur
}

/// Recognize the literal `null` at `i`.
pub fn unit_at(inp: &Vec<char>, i: usize) -> (r: core::result::Result<usize, Error>)
    requires
        i <= inp.len(),
    ensures
        match r {
            Ok(j) => i <= j <= inp.len() && p_unit(inp@.skip(i as int)) == Some(
                inp@.skip(j as int),
            ),
            Err(_) => p_unit(inp@.skip(i as int)) is None,
        },
{
    let ghost s = inp@.skip(i as int);
    if inp.len() - i >= 4 && inp[i] == 'n' && inp[i + 1] == 'u' && inp[i + 2] == 'l' && inp[i
        + 3] == 'l' {
        proof {
            assert(s[0] == inp@[i as int] && s[1] == inp@[i as int + 1] && s[2] == inp@[
                i as int + 2] && s[3] == inp@[i as int + 3]);
            assert(s.skip(4) == inp@.skip(i as int + 4));
        }
        Ok(i + 4)
    } else {
        proof {
            if s.len() >= 4 {
                assert(s[0] == inp@[i as int] && s[1] == inp@[i as int + 1] && s[2] == inp@[
                    i as int + 2] && s[3] == inp@[i as int + 3]);
            }
        }
        Err(Error::UnitError(String::from_str("expected null")))
    }
}

/// Recognize `true` or `false` at `i`.
pub fn boolean_at(inp: &Vec<char>, i: usize) -> (r: core::result::Result<(usize, bool), Error>)
    requires
        i <= inp.len(),
    ensures
        match r {
            Ok((j, b)) => i <= j <= inp.len() && p_bool(inp@.skip(i as int)) == Some(
                (b, inp@.skip(j as int)),
            ),
            Err(_) => p_bool(inp@.skip(i as int)) is None,
        },
{
    let ghost s = inp@.skip(i as int);
    proof {
        if s.len() >= 4 {
            assert(s[0] == inp@[i as int] && s[1] == inp@[i as int + 1] && s[2] == inp@[
                i as int + 2] && s[3] == inp@[i as int + 3]);
        }
        if s.len() >= 5 {
            assert(s[4] == inp@[i as int + 4]);
        }
    }
    if inp.len() - i >= 4 && inp[i] == 't' && inp[i + 1] == 'r' && inp[i + 2] == 'u' && inp[i
        + 3] == 'e' {
        proof {
            assert(s.skip(4) == inp@.skip(i as int + 4));
        }
        Ok((i + 4, true))
    } else if inp.len() - i >= 5 && inp[i] == 'f' && inp[i + 1] == 'a' && inp[i + 2] == 'l'
        && inp[i + 3] == 's' && inp[i + 4] == 'e' {
        proof {
            assert(s.skip(5) == inp@.skip(i as int + 5));
        }
        Ok((i + 5, false))
    } else {
        Err(Error::BoolError(String::from_str("expected true or false")))
    }
}

/// Recognize a bare token at `i`: a maximal nonempty run of
/// non-whitespace characters.
pub fn token_at(inp: &Vec<char>, i: usize) -> (r: core::result::Result<(usize, Vec<char>), Error>)
    requires
        i <= inp.len(),
    ensures
        match r {
            Ok((j, t)) => i < j <= inp.len() && p_token(inp@.skip(i as int)) == Some(
                (t@, inp@.skip(j as int)),
            ),
            Err(_) => p_token(inp@.skip(i as int)) is None,
        },
{
    let ghost s = inp@.skip(i as int);
    let mut p = i;
    let mut out: Vec<char> = Vec::new();
    while p < inp.len() && !ws_char(inp[p])
        invariant
            i <= p <= inp.len(),
            count_non_ws(inp@.skip(i as int)) == (p - i) + count_non_ws(inp@.skip(p as int)),
            out@ == inp@.skip(i as int).take(p - i),
        decreases inp.len() - p,
    {
        proof {
            let sp = inp@.skip(p as int);
            assert(sp[0] == inp@[p as int]);
            assert(sp.skip(1) == inp@.skip(p as int + 1));
            assert(count_non_ws(sp) == 1 + count_non_ws(sp.skip(1)));
        }
        out.push(inp[p]);
        p = p + 1;
        proof {
            assert(out@ =~= inp@.skip(i as int).take(p - i));
        }
    }
    proof {
        let sp = inp@.skip(p as int);
        if p < inp.len() {
            assert(sp[0] == inp@[p as int]);
        }
        assert(count_non_ws(sp) == 0);
        assert(count_non_ws(s) == p - i);
        assert(s.skip(p - i) == inp@.skip(p as int));
    }
    if p == i {
        Err(Error::StringError(String::from_str("expected a token")))
    } else {
        Ok((p, out))
    }
}

/// Scan the run of digits at `i`, accumulating an integer-part
/// mantissa: digits that no longer fit shift the exponent up instead.
fn int_digits_at(inp: &Vec<char>, i: usize) -> (r: (usize, u64, i64))
    requires
        i <= inp.len(),
    ensures
        ({
            let (j, acc, sh) = r;
            &&& i <= j <= inp.len()
            &&& j - i == count_digits(inp@.skip(i as int))
            &&& acc_dec(inp@.skip(i as int).take(j - i), 0, 0) == (acc as nat, sh as int)
            &&& 0 <= sh <= 1000000
        }),
{
    let mut p = i;
    let mut acc: u64 = 0;
    let mut sh: i64 = 0;
    proof {
        assert(inp@.skip(i as int).take(0) =~= Seq::<char>::empty());
        assert(acc_dec(Seq::<char>::empty(), 0, 0) == (0nat, 0int));
    }
    while p < inp.len() && digit_char(inp[p])
        invariant
            i <= p <= inp.len(),
            count_digits(inp@.skip(i as int)) == (p - i) + count_digits(inp@.skip(p as int)),
            acc_dec(inp@.skip(i as int).take(p - i), 0, 0) == (acc as nat, sh as int),
            0 <= sh <= 1000000,
        decreases inp.len() - p,
    {
        let c = inp[p];
        proof {
            let sp = inp@.skip(p as int);
            assert(sp[0] == inp@[p as int]);
            assert(sp.skip(1) == inp@.skip(p as int + 1));
            assert(count_digits(sp) == 1 + count_digits(sp.skip(1)));
            assert(inp@.skip(i as int).take(p + 1 - i) =~= inp@.skip(i as int).take(
                p - i,
            ).push(inp@[p as int]));
            lemma_acc_dec_snoc(inp@.skip(i as int).take(p - i), inp@[p as int], 0, 0);
        }
        let d = digit_value(c) as u64;
        if acc <= (u64::MAX - d) / 10 {
            proof {
                assert(acc * 10 + d <= u64::MAX);
            }
            acc = acc * 10 + d;
        } else {
            proof {
                assert(acc * 10 + d > u64::MAX);
            }
            if sh == 0 && d >= 5 && acc < u64::MAX {
                acc = acc + 1;
            }
            if sh < 1000000 {
                sh = sh + 1;
            }
        }
        p = p + 1;
    }
    proof {
        let sp = inp@.skip(p as int);
        if p < inp.len() {
            assert(sp[0] == inp@[p as int]);
        }
        assert(count_digits(sp) == 0);
    }
    (p, acc, sh)
}

/// Scan the run of fraction digits at `i`: each digit taken lowers the
/// exponent; digits that no longer fit are dropped.
fn frac_digits_at(inp: &Vec<char>, i: usize, acc0: u64) -> (r: (usize, u64, i64))
    requires
        i <= inp.len(),
    ensures
        ({
            let (j, acc, fe) = r;
            &&& i <= j <= inp.len()
            &&& j - i == count_digits(inp@.skip(i as int))
            &&& acc_frac(inp@.skip(i as int).take(j - i), acc0 as nat, 0) == (
                acc as nat,
                fe as int,
            )
            &&& -1000000 <= fe <= 0
        }),
{
    let mut p = i;
    let mut acc: u64 = acc0;
    let mut fe: i64 = 0;
    proof {
        assert(inp@.skip(i as int).take(0) =~= Seq::<char>::empty());
        assert(acc_frac(Seq::<char>::empty(), acc0 as nat, 0) == (acc0 as nat, 0int));
    }
    while p < inp.len() && digit_char(inp[p])
        invariant
            i <= p <= inp.len(),
            count_digits(inp@.skip(i as int)) == (p - i) + count_digits(inp@.skip(p as int)),
            acc_frac(inp@.skip(i as int).take(p - i), acc0 as nat, 0) == (
                acc as nat,
                fe as int,
            ),
            -1000000 <= fe <= 0,
        decreases inp.len() - p,
    {
        let c = inp[p];
        proof {
            let sp = inp@.skip(p as int);
            assert(sp[0] == inp@[p as int]);
            assert(sp.skip(1) == inp@.skip(p as int + 1));
            assert(count_digits(sp) == 1 + count_digits(sp.skip(1)));
            assert(inp@.skip(i as int).take(p + 1 - i) =~= inp@.skip(i as int).take(
                p - i,
            ).push(inp@[p as int]));
            lemma_acc_frac_snoc(inp@.skip(i as int).take(p - i), inp@[p as int], acc0 as nat, 0);
        }
        let d = digit_value(c) as u64;
        if acc <= (u64::MAX - d) / 10 {
            proof {
                assert(acc * 10 + d <= u64::MAX);
            }
            acc = acc * 10 + d;
            if fe > -1000000 {
                fe = fe - 1;
            }
        } else {
            proof {
                assert(acc * 10 + d > u64::MAX);
            }
        }
        p = p + 1;
    }
    proof {
        let sp = inp@.skip(p as int);
        if p < inp.len() {
            assert(sp[0] == inp@[p as int]);
        }
        assert(count_digits(sp) == 0);
    }
    (p, acc, fe)
}

/// Scan the run of exponent digits at `i`, clamped just above one
/// million.
fn exp_digits_at(inp: &Vec<char>, i: usize) -> (r: (usize, i64))
    requires
        i <= inp.len(),
    ensures
        ({
            let (j, v) = r;
            &&& i <= j <= inp.len()
            &&& j - i == count_digits(inp@.skip(i as int))
            &&& acc_exp(inp@.skip(i as int).take(j - i), 0) == v as int
            &&& 0 <= v <= 1000001
        }),
{
    let mut p = i;
    let mut v: i64 = 0;
    proof {
        assert(inp@.skip(i as int).take(0) =~= Seq::<char>::empty());
        assert(acc_exp(Seq::<char>::empty(), 0) == 0int);
    }
    while p < inp.len() && digit_char(inp[p])
        invariant
            i <= p <= inp.len(),
            count_digits(inp@.skip(i as int)) == (p - i) + count_digits(inp@.skip(p as int)),
            acc_exp(inp@.skip(i as int).take(p - i), 0) == v as int,
            0 <= v <= 1000001,
        decreases inp.len() - p,
    {
        let c = inp[p];
        proof {
            let sp = inp@.skip(p as int);
            assert(sp[0] == inp@[p as int]);
            assert(sp.skip(1) == inp@.skip(p as int + 1));
            assert(count_digits(sp) == 1 + count_digits(sp.skip(1)));
            assert(inp@.skip(i as int).take(p + 1 - i) =~= inp@.skip(i as int).take(
                p - i,
            ).push(inp@[p as int]));
            lemma_acc_exp_snoc(inp@.skip(i as int).take(p - i), inp@[p as int], 0);
        }
        let d = digit_value(c) as i64;
        let w = v * 10 + d;
        if w > 1000000 {
            v = 1000001;
        } else {
            v = w;
        }
        p = p + 1;
    }
    proof {
        let sp = inp@.skip(p as int);
        if p < inp.len() {
            assert(sp[0] == inp@[p as int]);
        }
        assert(count_digits(sp) == 0);
    }
    (p, v)
}


/// Recognize an exponent clause at `i` (`e`/`E`, optional sign, at
/// least one digit), yielding its length and clamped signed value;
/// length zero when there is none.
fn exp_clause_at(inp: &Vec<char>, i: usize) -> (r: (usize, i64))
    requires
        i <= inp.len(),
    ensures
        ({
            let (el, ev) = r;
            &&& i + el <= inp.len()
            &&& el as int == exp_lex_len(inp@.skip(i as int))
            &&& el > 0 ==> ev as int == exp_clause_val(inp@.skip(i as int).take(el as int))
            &&& el == 0 ==> ev == 0
            &&& -1000001 <= ev <= 1000001
        }),
{
    let ghost s4 = inp@.skip(i as int);
    proof {
        if s4.len() > 0 {
            assert(s4[0] == inp@[i as int]);
        }
        if s4.len() > 1 {
            assert(s4[1] == inp@[i as int + 1]);
        }
        if s4.len() > 2 {
            assert(s4[2] == inp@[i as int + 2]);
        }
    }
    if inp.len() - i >= 2 && (inp[i] == 'e' || inp[i] == 'E') {
        if digit_char(inp[i + 1]) {
            let (pe, v) = exp_digits_at(inp, i + 1);
            let el = pe - i;
            proof {
                assert(inp@.skip(i as int + 1) == s4.skip(1));
                lemma_count_digits(s4.skip(1));
                assert(count_digits(s4.skip(1)) >= 1) by {
                    assert(s4.skip(1)[0] == inp@[i as int + 1]);
                    lemma_count_digits(s4.skip(1).skip(1));
                }
                assert(exp_lex_len(s4) == 1 + count_digits(s4.skip(1)));
                assert(el as int == exp_lex_len(s4));
                let clause = s4.take(el as int);
                assert(clause.len() == el >= 2);
                assert(clause[1] == s4[1]);
                assert(clause[1] != '-' && clause[1] != '+');
                assert(clause.skip(1) =~= s4.skip(1).take(el as int - 1));
                assert(exp_clause_val(clause) == acc_exp(s4.skip(1).take(el as int - 1), 0));
            }
            (el, v)
        } else if (inp[i + 1] == '+' || inp[i + 1] == '-') && inp.len() - i >= 3 && digit_char(
            inp[i + 2],
        ) {
            let eneg = inp[i + 1] == '-';
            let (pe, v) = exp_digits_at(inp, i + 2);
            let el = pe - i;
            let ev = if eneg {
                -v
            } else {
                v
            };
            proof {
                assert(inp@.skip(i as int + 2) == s4.skip(2));
                lemma_count_digits(s4.skip(2));
                assert(count_digits(s4.skip(2)) >= 1) by {
                    assert(s4.skip(2)[0] == inp@[i as int + 2]);
                    lemma_count_digits(s4.skip(2).skip(1));
                }
                assert(exp_lex_len(s4) == 2 + count_digits(s4.skip(2)));
                assert(el as int == exp_lex_len(s4));
                let clause = s4.take(el as int);
                assert(clause.len() == el >= 3);
                assert(clause[1] == s4[1]);
                assert(clause.skip(2) =~= s4.skip(2).take(el as int - 2));
                assert(exp_clause_val(clause) == if clause[1] == '-' {
                    -acc_exp(s4.skip(2).take(el as int - 2), 0)
                } else {
                    acc_exp(s4.skip(2).take(el as int - 2), 0)
                });
            }
            (el, ev)
        } else {
            proof {
                assert(exp_lex_len(s4) == 0);
            }
            (0, 0)
        }
    } else {
        proof {
            assert(exp_lex_len(s4) == 0);
        }
        (0, 0)
    }
}

/// Strip trailing decimal zeros from a mantissa into the exponent.
fn normalize_dec(m0: u64, e0: i64) -> (r: (u64, i64))
    requires
        -3000000 <= e0 <= 3000000,
    ensures
        ({
            let (m, e) = r;
            &&& (m as nat, e as int) == norm(m0 as nat, e0 as int)
            &&& e0 <= e <= e0 + 20 || (m == 0 && e == 0)
            &&& m > 0 ==> m % 10 != 0
            &&& m == 0 ==> e == 0
        }),
{
    let mut m: u64 = m0;
    let mut e: i64 = e0;
    proof {
        assert(pow10(0) == 1);
        assert(m0 as nat * 1 == m0 as nat);
    }
    while m > 0 && m % 10 == 0
        invariant
            -3000000 <= e0 <= 3000000,
            norm(m0 as nat, e0 as int) == norm(m as nat, e as int),
            m as nat * pow10((e - e0) as nat) == m0 as nat,
            e0 <= e,
            m > 0 ==> e <= e0 + 19,
        decreases m,
    {
        proof {
            vstd::arithmetic::div_mod::lemma_fundamental_div_mod(m as int, 10);
            assert(m == 10 * (m / 10));
            assert(m / 10 > 0);
            let k = (e - e0) as nat;
            assert(pow10(k + 1) == 10 * pow10(k));
            vstd::arithmetic::mul::lemma_mul_is_associative((m / 10) as int, 10, pow10(k) as int);
            vstd::arithmetic::mul::lemma_mul_is_associative(10, (m / 10) as int, pow10(k) as int);
            assert((m / 10) as nat * pow10(k + 1) == m0 as nat) by {
                assert(m as int * pow10(k) == (10 * (m / 10)) as int * pow10(k));
                assert((10 * (m / 10) as int) * pow10(k) == 10 * ((m / 10) as int * pow10(k)));
                assert((m / 10) as int * pow10(k + 1) == (m / 10) as int * (10 * pow10(k)));
                assert((m / 10) as int * (10 * pow10(k)) == 10 * ((m / 10) as int * pow10(k)));
            }
            crate::num::lemma_pow10_key_values();
            if k + 1 >= 20 {
                crate::num::lemma_pow10_mono(20, k + 1);
                vstd::arithmetic::mul::lemma_mul_inequality(
                    1,
                    (m / 10) as int,
                    pow10(k + 1) as int,
                );
                assert(false);
            }
        }
        m = m / 10;
        e = e + 1;
    }
    if m == 0 {
        proof {
            assert(norm(0nat, e as int) == (0nat, 0int));
        }
        (0, 0)
    } else {
        proof {
            assert(norm(m as nat, e as int) == (m as nat, e as int));
        }
        (m, e)
    }
}


/// Evaluate `p_number` once all its intermediate quantities are known.
pub proof fn lemma_p_number_eval(
    s: Seq<char>,
    neg: bool,
    s1: Seq<char>,
    nd: int,
    s2: Seq<char>,
    has_dot: bool,
    s3: Seq<char>,
    nf: int,
    s4: Seq<char>,
    el: int,
    m1: nat,
    iz: int,
    m2: nat,
    fe: int,
    ev: int,
)
    requires
        neg == (s.len() > 0 && s[0] == '-'),
        s1 == if neg {
            s.skip(1)
        } else {
            s
        },
        nd == count_digits(s1),
        s2 == s1.skip(nd),
        has_dot == (s2.len() > 0 && s2[0] == '.'),
        s3 == if has_dot {
            s2.skip(1)
        } else {
            s2
        },
        nf == if has_dot {
            count_digits(s3)
        } else {
            0
        },
        s4 == s3.skip(nf),
        el == exp_lex_len(s4),
        (m1, iz) == acc_dec(s1.take(nd), 0nat, 0int),
        (m2, fe) == acc_frac(s3.take(nf), m1, 0int),
        ev == if el > 0 {
            exp_clause_val(s4.take(el))
        } else {
            0int
        },
    ensures
        p_number(s) == ({
            let rest = s4.skip(el);
            let etot = iz + fe + ev;
            if nd == 0 && nf == 0 {
                None
            } else if !has_dot && el == 0 {
                if iz == 0 && !neg && m1 <= i64::MAX {
                    Some((TotV::IntV(m1 as int), rest))
                } else if iz == 0 && neg && m1 <= 0x8000_0000_0000_0000 {
                    Some((TotV::IntV(-(m1 as int)), rest))
                } else {
                    mk_dec(neg, m2, etot, rest)
                }
            } else {
                mk_dec(neg, m2, etot, rest)
            }
        }),
{
}

/// Recognize a numeric literal at `i`.
#[verifier::rlimit(100)]
pub fn number_at(inp: &Vec<char>, i: usize) -> (r: core::result::Result<(usize, Number), Error>)
    requires
        i <= inp.len(),
    ensures
        match r {
            Ok((j, n)) => {
                &&& i < j <= inp.len()
                &&& p_number(inp@.skip(i as int)) == Some((num_rep(n), inp@.skip(j as int)))
                &&& (n matches Number::Dec(d) ==> crate::num::dec_normal(d) && min_exp()
                    <= d.exp <= max_exp())
            },
            Err(_) => p_number(inp@.skip(i as int)) is None,
        },
{
    let ghost s = inp@.skip(i as int);
    let neg = i < inp.len() && inp[i] == '-';
    let pstart = if neg {
        i + 1
    } else {
        i
    };
    proof {
        if s.len() > 0 {
            assert(s[0] == inp@[i as int]);
        }
        assert(inp@.skip(pstart as int) == if neg {
            s.skip(1)
        } else {
            s
        });
    }
    let ghost s1 = inp@.skip(pstart as int);
    let (p1, m1, iz) = int_digits_at(inp, pstart);
    let ghost nd = count_digits(s1);
    proof {
        assert(inp@.skip(p1 as int) == s1.skip(nd));
        assert(s1.take(nd) == inp@.skip(pstart as int).take(p1 - pstart));
    }
    let ghost s2 = s1.skip(nd);
    let has_dot = p1 < inp.len() && inp[p1] == '.';
    proof {
        if p1 < inp.len() {
            assert(s2[0] == inp@[p1 as int]);
        }
    }
    let pf = if has_dot {
        p1 + 1
    } else {
        p1
    };
    proof {
        assert(inp@.skip(pf as int) == if has_dot {
            s2.skip(1)
        } else {
            s2
        });
    }
    let ghost s3 = if has_dot {
        s2.skip(1)
    } else {
        s2
    };
    let (p2, m2, fe) = if has_dot {
        frac_digits_at(inp, pf, m1)
    } else {
        proof {
            assert(acc_frac(Seq::<char>::empty(), m1 as nat, 0) == (m1 as nat, 0int));
            assert(s3.take(0) =~= Seq::<char>::empty());
        }
        (pf, m1, 0i64)
    };
    let ghost nf: int = if has_dot {
        count_digits(s3)
    } else {
        0
    };
    proof {
        assert(inp@.skip(p2 as int) == s3.skip(nf));
        if has_dot {
            assert(s3.take(nf) == inp@.skip(pf as int).take(p2 - pf));
        }
    }
    let ghost s4 = s3.skip(nf);
    if p1 == pstart && !(has_dot && p2 > pf) {
        // no digits at all
        proof {
            assert(nd == 0 && nf == 0);
        }
        return Err(Error::FloatError(String::from_str("expected a number")));
    }
    // exponent clause
    let (el, ev) = exp_clause_at(inp, p2);
    let j = p2 + el;
    proof {
        assert(inp@.skip(j as int) == s4.skip(el as int));
        lemma_p_number_eval(
            s,
            neg,
            s1,
            nd,
            s2,
            has_dot,
            s3,
            nf,
            s4,
            el as int,
            m1 as nat,
            iz as int,
            m2 as nat,
            fe as int,
            ev as int,
        );
    }
    // integer track
    if !has_dot && el == 0 {
        if iz == 0 && !neg && m1 <= i64::MAX as u64 {
            proof {
                assert(p_number(s) == Some((TotV::IntV(m1 as int), s4.skip(el as int))));
            }
            return Ok((j, Number::Int(m1 as i64)));
        }
        if iz == 0 && neg && m1 <= 9_223_372_036_854_775_808u64 {
            let n = if m1 == 9_223_372_036_854_775_808u64 {
                i64::MIN
            } else {
                -(m1 as i64)
            };
            proof {
                assert(p_number(s) == Some((TotV::IntV(-(m1 as int)), s4.skip(el as int))));
            }
            return Ok((j, Number::Int(n)));
        }
    }
    // decimal track: normalize and range-check
    let etot: i64 = iz + fe + ev;
    let (m, e) = normalize_dec(m2, etot);
    proof {
        assert(!(nd == 0 && nf == 0));
        assert(etot as int == iz + fe + ev);
        assert(p_number(s) == mk_dec(neg, m2 as nat, etot as int, s4.skip(el as int)));
        assert((m as nat, e as int) == norm(m2 as nat, etot as int));
    }
    if m == 0 {
        proof {
            assert(mk_dec(neg, m2 as nat, etot as int, s4.skip(el as int)) == Some((
                TotV::DecV { neg, m: 0, e: 0 },
                s4.skip(el as int),
            )));
        }
        let d = Decimal { neg, mantissa: 0, exp: 0 };
        proof {
            assert(num_rep(Number::Dec(d)) == TotV::DecV { neg, m: 0nat, e: 0int });
            assert(p_number(s) == Some((num_rep(Number::Dec(d)), inp@.skip(j as int))));
        }
        return Ok((j, Number::Dec(d)));
    }
    if e > 350 {
        proof {
            assert(mk_dec(neg, m2 as nat, etot as int, s4.skip(el as int)) is None);
            assert(p_number(s) is None);
        }
        return Err(Error::FloatError(String::from_str("number out of range")));
    }
    if e < -400 {
        let d = Decimal { neg, mantissa: 0, exp: 0 };
        proof {
            assert(p_number(s) == Some((num_rep(Number::Dec(d)), inp@.skip(j as int))));
        }
        return Ok((j, Number::Dec(d)));
    }
    let d = Decimal { neg, mantissa: m, exp: e as i32 };
    proof {
        assert(p_number(s) == Some((num_rep(Number::Dec(d)), inp@.skip(j as int))));
    }
    Ok((j, Number::Dec(d)))
}

/// Decode the body of a string literal at `i` (the opening quote
/// already consumed), through the closing quote.
#[verifier::rlimit(100)]
pub fn strbody_at(inp: &Vec<char>, i: usize) -> (r: core::result::Result<(usize, Vec<char>), Error>)
    requires
        i <= inp.len(),
    ensures
        match r {
            Ok((j, t)) => i < j <= inp.len() && p_strbody(inp@.skip(i as int)) == Some(
                (t@, inp@.skip(j as int)),
            ),
            Err(_) => p_strbody(inp@.skip(i as int)) is None,
        },
{
    let mut cur = i;
    let mut out: Vec<char> = Vec::new();
    loop
        invariant
            i <= cur <= inp.len(),
            p_strbody(inp@.skip(i as int)) == (match p_strbody(inp@.skip(cur as int)) {
                Some((t, rest)) => Some((out@ + t, rest)),
                None => None::<(Seq<char>, Seq<char>)>,
            }),
        decreases inp.len() - cur,
    {
        let ghost sp = inp@.skip(cur as int);
        if cur >= inp.len() {
            proof {
                assert(p_strbody(sp) is None);
            }
            return Err(Error::StringError(String::from_str("unterminated string")));
        }
        let c = inp[cur];
        proof {
            assert(sp[0] == inp@[cur as int]);
        }
        if c == '"' {
            proof {
                assert(p_strbody(sp) == Some((Seq::<char>::empty(), inp@.skip(cur as int + 1))));
                assert(out@ + Seq::<char>::empty() =~= out@);
            }
            return Ok((cur + 1, out));
        }
        if c == '\\' {
            if inp.len() - cur < 2 {
                proof {
                    assert(p_strbody(sp) is None);
                }
                return Err(Error::StringError(String::from_str("bad escape")));
            }
            let e = inp[cur + 1];
            proof {
                assert(sp[1] == inp@[cur as int + 1]);
                assert(sp.skip(2) == inp@.skip(cur as int + 2));
            }
            if e == 'u' {
                if inp.len() - cur < 4 || inp[cur + 2] != '{' {
                    proof {
                        if sp.len() >= 3 {
                            assert(sp[2] == inp@[cur as int + 2]);
                        }
                        assert(p_strbody(sp) is None);
                    }
                    return Err(Error::StringError(String::from_str("bad unicode escape")));
                }
                proof {
                    assert(sp[2] == inp@[cur as int + 2]);
                    assert(sp.skip(3) == inp@.skip(cur as int + 3));
                }
                let mut hp = cur + 3;
                let mut hv: u32 = 0;
                proof {
                    assert(inp@.skip(cur as int + 3).take(0) =~= Seq::<char>::empty());
                    assert(hex_acc(Seq::<char>::empty(), 0) == 0nat);
                    lemma_pow16_six();
                    assert(pow16(0) == 1);
                }
                while hp < inp.len() && hp - cur - 3 < 6 && hex_digit_char(inp[hp])
                    invariant
                        cur + 3 <= hp <= inp.len(),
                        hp - cur - 3 <= 6,
                        cur + 3 <= inp.len(),
                        count_hex(inp@.skip(cur as int + 3)) == (hp - cur - 3) + count_hex(
                            inp@.skip(hp as int),
                        ),
                        hv as nat == hex_acc(
                            inp@.skip(cur as int + 3).take(hp - cur - 3),
                            0,
                        ),
                        forall|k: int|
                            0 <= k < hp - cur - 3 ==> is_hex_digit(
                                #[trigger] inp@.skip(cur as int + 3)[k],
                            ),
                        hv < pow16((hp - cur - 3) as nat),
                    decreases inp.len() - hp,
                {
                    proof {
                        let sh = inp@.skip(hp as int);
                        assert(sh[0] == inp@[hp as int]);
                        assert(sh.skip(1) == inp@.skip(hp as int + 1));
                        assert(count_hex(sh) == 1 + count_hex(sh.skip(1)));
                        assert(inp@.skip(cur as int + 3).take(hp + 1 - cur - 3) =~= inp@.skip(
                            cur as int + 3,
                        ).take(hp - cur - 3).push(inp@[hp as int]));
                        lemma_hex_acc_snoc(
                            inp@.skip(cur as int + 3).take(hp - cur - 3),
                            inp@[hp as int],
                            0,
                        );
                        lemma_pow16_six();
                        assert(pow16((hp - cur - 3) as nat + 1) == 16 * pow16(
                            (hp - cur - 3) as nat,
                        ));
                        assert(inp@.skip(cur as int + 3)[hp - cur - 3] == inp@[hp as int]);
                    }
                    hv = hv * 16 + hex_digit_value(inp[hp]);
                    hp = hp + 1;
                    proof {
                        assert forall|k: int|
                            0 <= k < hp - cur - 3 implies is_hex_digit(
                            #[trigger] inp@.skip(cur as int + 3)[k],
                        ) by {}
                    }
                }
                let hcnt = hp - cur - 3;
                proof {
                    let s3v = inp@.skip(cur as int + 3);
                    if hp < inp.len() && hcnt < 6 {
                        assert(inp@.skip(hp as int)[0] == inp@[hp as int]);
                        assert(count_hex(inp@.skip(hp as int)) == 0);
                    }
                    lemma_count_hex(inp@.skip(hp as int));
                    let h = count_hex(s3v);
                    let hn = if h > 6 { 6int } else { h };
                    assert(hn == hcnt as int);
                }
                if hcnt == 0 {
                    proof {
                        assert(p_strbody(sp) is None);
                    }
                    return Err(Error::StringError(String::from_str("bad unicode escape")));
                }
                if hp >= inp.len() || inp[hp] != '}' {
                    proof {
                        if hp < inp.len() {
                            assert(sp[3 + hcnt] == inp@[hp as int]);
                        }
                        assert(p_strbody(sp) is None);
                    }
                    return Err(Error::StringError(String::from_str("bad unicode escape")));
                }
                proof {
                    assert(sp[3 + hcnt] == inp@[hp as int]);
                    assert(sp.skip(3).take(hcnt as int) =~= inp@.skip(cur as int + 3).take(
                        hcnt as int,
                    ));
                }
                if hv < 0xD800 || (0xE000 <= hv && hv <= 0x10FFFF) {
                    let copt = char_from_u32(hv);
                    proof {
                        assert(copt is Some);
                    }
                    let cch = match copt {
                        Some(cc) => cc,
                        None => ' ',
                    };
                    proof {
                        vstd::utf8::char_u32_cast(cch, hv);
                        let u = hex_acc(sp.skip(3).take(hcnt as int), 0);
                        assert(u == hv as nat);
                        assert(is_scalar_val(u));
                        assert((u as u32) as char == cch);
                        assert(sp.skip(4 + hcnt) == inp@.skip(cur as int + 4 + hcnt));
                        assert(p_strbody(sp) == cons_str(
                            cch,
                            p_strbody(inp@.skip(cur as int + 4 + hcnt)),
                        ));
                        match p_strbody(inp@.skip(cur as int + 4 + hcnt)) {
                            Some((t, rest)) => {
                                assert(out@ + (seq![cch] + t) =~= out@.push(cch) + t);
                            },
                            None => {},
                        }
                    }
                    out.push(cch);
                    cur = hp + 1;
                } else {
                    proof {
                        let u = hex_acc(sp.skip(3).take(hcnt as int), 0);
                        assert(u == hv as nat);
                        assert(!is_scalar_val(u));
                        assert(p_strbody(sp) is None);
                    }
                    return Err(Error::StringError(String::from_str("bad unicode escape")));
                }
            } else if e == 'n' || e == 'r' || e == 't' || e == 'b' || e == 'f' || e == '\\'
                || e == '/' || e == '"' {
                let dec = if e == 'n' {
                    '\n'
                } else if e == 'r' {
                    '\r'
                } else if e == 't' {
                    '\t'
                } else if e == 'b' {
                    '\u{08}'
                } else if e == 'f' {
                    '\u{0C}'
                } else {
                    e
                };
                proof {
                    assert(p_strbody(sp) == cons_str(dec, p_strbody(inp@.skip(cur as int + 2))));
                    match p_strbody(inp@.skip(cur as int + 2)) {
                        Some((t, rest)) => {
                            assert(out@ + (seq![dec] + t) =~= out@.push(dec) + t);
                        },
                        None => {},
                    }
                }
                out.push(dec);
                cur = cur + 2;
            } else if ws_char(e) {
                // an escaped whitespace run is elided
                let mut wp = cur + 2;
                proof {
                    assert(inp@.skip(cur as int + 1)[0] == inp@[cur as int + 1]);
                    assert(inp@.skip(cur as int + 1).skip(1) == inp@.skip(cur as int + 2));
                    assert(count_ws(inp@.skip(cur as int + 1)) == 1 + count_ws(
                        inp@.skip(cur as int + 2),
                    ));
                }
                while wp < inp.len() && ws_char(inp[wp])
                    invariant
                        cur + 2 <= wp <= inp.len(),
                        cur + 2 <= inp.len(),
                        count_ws(inp@.skip(cur as int + 1)) == (wp - cur - 1) + count_ws(
                            inp@.skip(wp as int),
                        ),
                    decreases inp.len() - wp,
                {
                    proof {
                        let sw = inp@.skip(wp as int);
                        assert(sw[0] == inp@[wp as int]);
                        assert(sw.skip(1) == inp@.skip(wp as int + 1));
                        assert(count_ws(sw) == 1 + count_ws(sw.skip(1)));
                    }
                    wp = wp + 1;
                }
                proof {
                    if wp < inp.len() {
                        assert(inp@.skip(wp as int)[0] == inp@[wp as int]);
                    }
                    assert(count_ws(inp@.skip(wp as int)) == 0);
                    let w = count_ws(sp.skip(1));
                    assert(sp.skip(1) == inp@.skip(cur as int + 1));
                    assert(w == wp - cur - 1);
                    assert(w >= 1);
                    assert(sp.skip(1 + w) == inp@.skip(wp as int));
                    assert(p_strbody(sp) == p_strbody(inp@.skip(wp as int)));
                }
                cur = wp;
            } else {
                proof {
                    assert(p_strbody(sp) is None);
                }
                return Err(Error::StringError(String::from_str("bad escape")));
            }
        } else {
            proof {
                assert(sp.skip(1) == inp@.skip(cur as int + 1));
                assert(p_strbody(sp) == cons_str(c, p_strbody(inp@.skip(cur as int + 1))));
                match p_strbody(inp@.skip(cur as int + 1)) {
                    Some((t, rest)) => {
                        assert(out@ + (seq![c] + t) =~= out@.push(c) + t);
                    },
                    None => {},
                }
            }
            out.push(c);
            cur = cur + 1;
        }
    }
}

/// Recognize a quoted string literal at `i`, escapes decoded.
pub fn string_at(inp: &Vec<char>, i: usize) -> (r: core::result::Result<(usize, Vec<char>), Error>)
    requires
        i <= inp.len(),
    ensures
        match r {
            Ok((j, t)) => i < j <= inp.len() && p_string(inp@.skip(i as int)) == Some(
                (t@, inp@.skip(j as int)),
            ),
            Err(_) => p_string(inp@.skip(i as int)) is None,
        },
{
    let ghost s = inp@.skip(i as int);
    if i < inp.len() && inp[i] == '"' {
        proof {
            assert(s[0] == inp@[i as int]);
            assert(s.skip(1) == inp@.skip(i as int + 1));
        }
        strbody_at(inp, i + 1)
    } else {
        proof {
            if s.len() > 0 {
                assert(s[0] == inp@[i as int]);
            }
        }
        Err(Error::StringError(String::from_str("expected a string")))
    }
}

/// Recognize a dictionary key at `i`: a quoted string, or failing
/// that a bare token.
pub fn key_at(inp: &Vec<char>, i: usize) -> (r: core::result::Result<(usize, Vec<char>), Error>)
    requires
        i <= inp.len(),
    ensures
        match r {
            Ok((j, t)) => i < j <= inp.len() && p_key(inp@.skip(i as int)) == Some(
                (t@, inp@.skip(j as int)),
            ),
            Err(_) => p_key(inp@.skip(i as int)) is None,
        },
{
    match string_at(inp, i) {
        Ok((j, t)) => Ok((j, t)),
        Err(_) => token_at(inp, i),
    }
}

/// Recognize a scalar at `i`: `null`, a boolean, a number, a string,
/// a list or a dictionary.
pub fn scalar_at(inp: &Vec<char>, i: usize) -> (r: core::result::Result<(usize, TotValue), Error>)
    requires
        i <= inp.len(),
    ensures
        match r {
            Ok((j, v)) => i < j <= inp.len() && p_scalar(inp@.skip(i as int)) == Some(
                (tv(v), inp@.skip(j as int)),
            ),
            Err(_) => p_scalar(inp@.skip(i as int)) is None,
        },
    decreases inp@.len() - i, 1int,
{
    let ghost s = inp@.skip(i as int);
    if let Ok(j) = unit_at(inp, i) {
        return Ok((j, TotValue::Unit));
    }
    if let Ok((j, b)) = boolean_at(inp, i) {
        return Ok((j, TotValue::Boolean(b)));
    }
    match number_at(inp, i) {
        Ok((j, n)) => {
            let v = match n {
                Number::Int(x) => TotValue::Integer(x),
                Number::Dec(d) => TotValue::Float(d),
            };
            proof {
                assert(tv(v) == num_rep(n));
            }
            return Ok((j, v));
        },
        Err(_) => {},
    }
    match string_at(inp, i) {
        Ok((j, t)) => {
            let st = chars_to_string(&t);
            proof {
                assert(tv(TotValue::String(st)) == TotV::StrV(t@));
            }
            return Ok((j, TotValue::String(st)));
        },
        Err(_) => {},
    }
    if i < inp.len() && inp[i] == '[' {
        proof {
            assert(s[0] == inp@[i as int]);
            assert(s.skip(1) == inp@.skip(i as int + 1));
        }
        match list_items_at(inp, i + 1) {
            Ok((j, items)) => {
                if j < inp.len() && inp[j] == ']' {
                    proof {
                        let r0 = inp@.skip(j as int);
                        assert(r0[0] == inp@[j as int]);
                        assert(r0.skip(1) == inp@.skip(j as int + 1));
                        assert(tv(TotValue::List(items)) == TotV::ListV(tv_list(items@)));
                    }
                    return Ok((j + 1, TotValue::List(items)));
                } else {
                    proof {
                        let r0 = inp@.skip(j as int);
                        if j < inp.len() {
                            assert(r0[0] == inp@[j as int]);
                        }
                        assert(p_scalar(s) is None);
                    }
                    return Err(Error::ListError(String::from_str("expected list end")));
                }
            },
            Err(e) => {
                return Err(e);
            },
        }
    }
    if i < inp.len() && inp[i] == '{' {
        proof {
            assert(s[0] == inp@[i as int]);
            assert(s.skip(1) == inp@.skip(i as int + 1));
        }
        match dict_items_at(inp, i + 1) {
            Ok((j, entries)) => {
                if j < inp.len() && inp[j] == '}' {
                    proof {
                        let r0 = inp@.skip(j as int);
                        assert(r0[0] == inp@[j as int]);
                        assert(r0.skip(1) == inp@.skip(j as int + 1));
                        assert(tv(TotValue::Dict(entries)) == TotV::DictV(tv_dict(entries@)));
                    }
                    return Ok((j + 1, TotValue::Dict(entries)));
                } else {
                    proof {
                        let r0 = inp@.skip(j as int);
                        if j < inp.len() {
                            assert(r0[0] == inp@[j as int]);
                        }
                        assert(p_scalar(s) is None);
                    }
                    return Err(Error::DictError(String::from_str("expected dict end")));
                }
            },
            Err(e) => {
                return Err(e);
            },
        }
    }
    proof {
        if s.len() > 0 {
            assert(s[0] == inp@[i as int]);
        }
        assert(p_scalar(s) is None);
    }
    Err(Error::ParseError)
}

/// Recognize the items of a list at `i` (after the opening bracket),
/// stopping in front of the closing bracket.
pub fn list_items_at(inp: &Vec<char>, i: usize) -> (r: core::result::Result<
    (usize, Vec<TotValue>),
    Error,
>)
    requires
        i <= inp.len(),
    ensures
        match r {
            Ok((j, items)) => i <= j <= inp.len() && p_list_items(inp@.skip(i as int)) == Some(
                (tv_list(items@), inp@.skip(j as int)),
            ),
            Err(_) => p_list_items(inp@.skip(i as int)) is None,
        },
    decreases inp@.len() - i, 2int,
{
    let mut cur = i;
    let mut items: Vec<TotValue> = Vec::new();
    proof {
        assert(tv_list(items@) == Seq::<TotV>::empty());
    }
    loop
        invariant
            i <= cur <= inp.len(),
            match p_list_items(inp@.skip(cur as int)) {
                Some((xs, r)) => p_list_items(inp@.skip(i as int)) == Some(
                    (tv_list(items@) + xs, r),
                ),
                None => p_list_items(inp@.skip(i as int)) is None,
            },
        decreases inp@.len() - cur,
    {
        let ghost sc = inp@.skip(cur as int);
        let s1pos = all_ignored_at(inp, cur);
        let ghost s1 = inp@.skip(s1pos as int);
        proof {
            assert(s1 == skip_ign(sc));
            assert(s1.len() <= sc.len());
        }
        if s1pos >= inp.len() {
            proof {
                assert(s1.len() == 0);
                assert(p_list_items(sc) is None);
            }
            return Err(Error::ListError(String::from_str("unterminated list")));
        }
        proof {
            assert(s1[0] == inp@[s1pos as int]);
        }
        if inp[s1pos] == ']' {
            proof {
                assert(p_list_items(sc) == Some((Seq::<TotV>::empty(), s1)));
                assert(tv_list(items@) + Seq::<TotV>::empty() =~= tv_list(items@));
            }
            return Ok((s1pos, items));
        }
        match scalar_at(inp, s1pos) {
            Err(e) => {
                proof {
                    assert(p_list_items(sc) is None);
                }
                return Err(e);
            },
            Ok((j2, v)) => {
                proof {
                    assert(p_scalar(s1) == Some((tv(v), inp@.skip(j2 as int))));
                    assert(inp@.skip(j2 as int).len() < sc.len());
                    assert(p_list_items(sc) == match p_list_items(inp@.skip(j2 as int)) {
                        Some((xs2, rr)) => Some((seq![tv(v)] + xs2, rr)),
                        None => None::<(Seq<TotV>, Seq<char>)>,
                    });
                    lemma_tv_list_push(items@, v);
                    match p_list_items(inp@.skip(j2 as int)) {
                        Some((xs2, rr)) => {
                            assert(tv_list(items@) + (seq![tv(v)] + xs2) =~= (tv_list(items@)
                                + seq![tv(v)]) + xs2);
                        },
                        None => {},
                    }
                }
                items.push(v);
                cur = j2;
            },
        }
    }
}

/// Recognize the entries of a dictionary body at `i`: ignored runs
/// around each key and value.  Stops in front of a closing brace or at
/// the end of input; a key without a value is an error.
pub fn dict_items_at(inp: &Vec<char>, i: usize) -> (r: core::result::Result<
    (usize, Vec<(String, TotValue)>),
    Error,
>)
    requires
        i <= inp.len(),
    ensures
        match r {
            Ok((j, entries)) => i <= j <= inp.len() && p_dict_items(inp@.skip(i as int)) == Some(
                (tv_dict(entries@), inp@.skip(j as int)),
            ),
            Err(_) => p_dict_items(inp@.skip(i as int)) is None,
        },
    decreases inp@.len() - i, 2int,
{
    let mut cur = i;
    let mut entries: Vec<(String, TotValue)> = Vec::new();
    proof {
        assert(tv_dict(entries@) == Seq::<(Seq<char>, TotV)>::empty());
    }
    loop
        invariant
            i <= cur <= inp.len(),
            match p_dict_items(inp@.skip(cur as int)) {
                Some((xs, r)) => p_dict_items(inp@.skip(i as int)) == Some(
                    (tv_dict(entries@) + xs, r),
                ),
                None => p_dict_items(inp@.skip(i as int)) is None,
            },
        decreases inp@.len() - cur,
    {
        let ghost sc = inp@.skip(cur as int);
        let s1pos = all_ignored_at(inp, cur);
        let ghost s1 = inp@.skip(s1pos as int);
        proof {
            assert(s1 == skip_ign(sc));
            assert(s1.len() <= sc.len());
            if s1pos < inp.len() {
                assert(s1[0] == inp@[s1pos as int]);
            }
        }
        if s1pos >= inp.len() || inp[s1pos] == '}' {
            proof {
                assert(p_dict_items(sc) == Some((Seq::<(Seq<char>, TotV)>::empty(), s1)));
                assert(tv_dict(entries@) + Seq::<(Seq<char>, TotV)>::empty() =~= tv_dict(
                    entries@,
                ));
            }
            return Ok((s1pos, entries));
        }
        match key_at(inp, s1pos) {
            Err(e) => {
                proof {
                    assert(p_dict_items(sc) is None);
                }
                return Err(e);
            },
            Ok((kend, kchars)) => {
                let s3pos = all_ignored_at(inp, kend);
                let ghost s3 = inp@.skip(s3pos as int);
                proof {
                    assert(p_key(s1) == Some((kchars@, inp@.skip(kend as int))));
                    assert(s3 == skip_ign(inp@.skip(kend as int)));
                    assert(s3.len() < sc.len());
                }
                match scalar_at(inp, s3pos) {
                    Err(e) => {
                        proof {
                            assert(p_dict_items(sc) is None);
                        }
                        return Err(e);
                    },
                    Ok((j2, v)) => {
                        let key = chars_to_string(&kchars);
                        proof {
                            assert(p_scalar(s3) == Some((tv(v), inp@.skip(j2 as int))));
                            assert(inp@.skip(j2 as int).len() < sc.len());
                            assert(p_dict_items(sc) == match p_dict_items(
                                inp@.skip(j2 as int),
                            ) {
                                Some((xs2, rr)) => Some((seq![(kchars@, tv(v))] + xs2, rr)),
                                None => None::<(Seq<(Seq<char>, TotV)>, Seq<char>)>,
                            });
                            lemma_tv_dict_push(entries@, key, v);
                            assert(key@ == kchars@);
                            match p_dict_items(inp@.skip(j2 as int)) {
                                Some((xs2, rr)) => {
                                    assert(tv_dict(entries@) + (seq![(kchars@, tv(v))] + xs2)
                                        =~= (tv_dict(entries@) + seq![(kchars@, tv(v))]) + xs2);
                                },
                                None => {},
                            }
                        }
                        entries.push((key, v));
                        cur = j2;
                    },
                }
            },
        }
    }
}

/// Parse a whole document: the root is an implicit dictionary body; a
/// document that is not one may instead be a single bracketed list,
/// with trailing ignored input allowed after it.
pub fn parse(i: &str) -> (r: core::result::Result<TotValue, Error>)
    ensures
        match r {
            Ok(v) => p_root(i@) == Some(tv(v)),
            Err(_) => p_root(i@) is None,
        },
{
    let inp = str_to_chars(i);
    proof {
        assert(inp@.skip(0) =~= i@);
    }
    match dict_items_at(&inp, 0) {
        Ok((j, entries)) => {
            if j == inp.len() {
                proof {
                    assert(inp@.skip(j as int).len() == 0);
                    assert(tv(TotValue::Dict(entries)) == TotV::DictV(tv_dict(entries@)));
                }
                return Ok(TotValue::Dict(entries));
            }
            proof {
                assert(inp@.skip(j as int).len() != 0);
            }
            root_list(&inp)
        },
        Err(_) => root_list(&inp),
    }
}

/// The list fallback of the document rule.
fn root_list(inp: &Vec<char>) -> (r: core::result::Result<TotValue, Error>)
    ensures
        match r {
            Ok(v) => p_root_list(inp@) == Some(tv(v)),
            Err(_) => p_root_list(inp@) is None,
        },
{
    proof {
        assert(inp@.skip(0) =~= inp@);
    }
    if inp.len() > 0 && inp[0] == '[' {
        match scalar_at(inp, 0) {
            Ok((j, v)) => {
                let j2 = all_ignored_at(inp, j);
                proof {
                    assert(inp@.skip(j2 as int) == skip_ign(inp@.skip(j as int)));
                }
                if j2 == inp.len() {
                    proof {
                        assert(skip_ign(inp@.skip(j as int)).len() == 0);
                    }
                    Ok(v)
                } else {
                    proof {
                        assert(skip_ign(inp@.skip(j as int)).len() != 0);
                    }
                    Err(Error::ParseError)
                }
            },
            Err(_) => Err(Error::ParseError),
        }
    } else {
        Err(Error::ParseError)
    }
}

/// The remaining input from `j` on, as an owned string.
fn suffix_string(inp: &Vec<char>, j: usize) -> (s: String)
    requires
        j <= inp.len(),
    ensures
        s@ == inp@.skip(j as int),
{
    let mut out: Vec<char> = Vec::new();
    let mut p = j;
    while p < inp.len()
        invariant
            j <= p <= inp.len(),
            out@ == inp@.skip(j as int).take(p - j),
        decreases inp.len() - p,
    {
        out.push(inp[p]);
        p = p + 1;
        proof {
            assert(out@ =~= inp@.skip(j as int).take(p - j));
        }
    }
    proof {
        assert(inp@.skip(j as int).take(inp@.len() - j) =~= inp@.skip(j as int));
    }
    chars_to_string(&out)
}

/// Recognize the literal `null` at the front of the input, returning
/// the remaining input.
pub fn unit(i: &str) -> (r: core::result::Result<(String, ()), Error>)
    ensures
        match r {
            Ok((rem, _)) => p_unit(i@) == Some(rem@),
            Err(_) => p_unit(i@) is None,
        },
{
    let inp = str_to_chars(i);
    proof {
        assert(inp@.skip(0) =~= i@);
    }
    match unit_at(&inp, 0) {
        Ok(j) => Ok((suffix_string(&inp, j), ())),
        Err(e) => Err(e),
    }
}

/// Recognize `true` or `false` at the front of the input.
pub fn boolean(i: &str) -> (r: core::result::Result<(String, bool), Error>)
    ensures
        match r {
            Ok((rem, b)) => p_bool(i@) == Some((b, rem@)),
            Err(_) => p_bool(i@) is None,
        },
{
    let inp = str_to_chars(i);
    proof {
        assert(inp@.skip(0) =~= i@);
    }
    match boolean_at(&inp, 0) {
        Ok((j, b)) => Ok((suffix_string(&inp, j), b)),
        Err(e) => Err(e),
    }
}

/// Recognize a numeric literal whose exact value is a signed 64-bit
/// integer: no fractional part, no exponent, in range.
pub fn integer(i: &str) -> (r: core::result::Result<(String, i64), Error>)
    ensures
        match r {
            Ok((rem, x)) => p_number(i@) == Some((TotV::IntV(x as int), rem@)),
            Err(_) => !(p_number(i@) matches Some((TotV::IntV(_), _))),
        },
{
    let inp = str_to_chars(i);
    proof {
        assert(inp@.skip(0) =~= i@);
    }
    match number_at(&inp, 0) {
        Ok((j, Number::Int(x))) => Ok((suffix_string(&inp, j), x)),
        Ok((_, Number::Dec(_))) => Err(
            Error::IntegerError(String::from_str("not an integer literal")),
        ),
        Err(_) => Err(Error::IntegerError(String::from_str("expected an integer"))),
    }
}

/// Recognize any numeric literal, as a normalized decimal.
pub fn float(i: &str) -> (r: core::result::Result<(String, Decimal), Error>)
    ensures
        match r {
            Ok((rem, d)) => match p_number(i@) {
                Some((n, rest)) => rem@ == rest && dec_form(n) == (TotV::DecV {
                    neg: d.neg,
                    m: d.mantissa as nat,
                    e: d.exp as int,
                }),
                None => false,
            },
            Err(_) => p_number(i@) is None,
        },
{
    let inp = str_to_chars(i);
    proof {
        assert(inp@.skip(0) =~= i@);
    }
    match number_at(&inp, 0) {
        Ok((j, Number::Dec(d))) => Ok((suffix_string(&inp, j), d)),
        Ok((j, Number::Int(x))) => {
            let neg = x < 0;
            let mag: u64 = if x == i64::MIN {
                9_223_372_036_854_775_808u64
            } else if x < 0 {
                (-x) as u64
            } else {
                x as u64
            };
            let (m, e) = normalize_dec(mag, 0);
            proof {
                lemma_norm_keeps_value(mag as nat, 0);
            }
            Ok((suffix_string(&inp, j), Decimal { neg, mantissa: m, exp: e as i32 }))
        },
        Err(e) => Err(e),
    }
}

/// Recognize a quoted string literal, escapes decoded.
pub fn string(i: &str) -> (r: core::result::Result<(String, String), Error>)
    ensures
        match r {
            Ok((rem, t)) => p_string(i@) == Some((t@, rem@)),
            Err(_) => p_string(i@) is None,
        },
{
    let inp = str_to_chars(i);
    proof {
        assert(inp@.skip(0) =~= i@);
    }
    match string_at(&inp, 0) {
        Ok((j, t)) => Ok((suffix_string(&inp, j), chars_to_string(&t))),
        Err(e) => Err(e),
    }
}

/// Recognize a quoted string literal, escapes decoded.
pub fn parse_string(i: &str) -> (r: core::result::Result<(String, String), Error>)
    ensures
        match r {
            Ok((rem, t)) => p_string(i@) == Some((t@, rem@)),
            Err(_) => p_string(i@) is None,
        },
{
    string(i)
}

/// Recognize a bare token: a maximal nonempty run of non-whitespace.
pub fn token(i: &str) -> (r: core::result::Result<(String, String), Error>)
    ensures
        match r {
            Ok((rem, t)) => p_token(i@) == Some((t@, rem@)),
            Err(_) => p_token(i@) is None,
        },
{
    let inp = str_to_chars(i);
    proof {
        assert(inp@.skip(0) =~= i@);
    }
    match token_at(&inp, 0) {
        Ok((j, t)) => Ok((suffix_string(&inp, j), chars_to_string(&t))),
        Err(e) => Err(e),
    }
}

/// Recognize a dictionary key: a quoted string, or a bare token.
pub fn key(i: &str) -> (r: core::result::Result<(String, String), Error>)
    ensures
        match r {
            Ok((rem, t)) => p_key(i@) == Some((t@, rem@)),
            Err(_) => p_key(i@) is None,
        },
{
    let inp = str_to_chars(i);
    proof {
        assert(inp@.skip(0) =~= i@);
    }
    match key_at(&inp, 0) {
        Ok((j, t)) => Ok((suffix_string(&inp, j), chars_to_string(&t))),
        Err(e) => Err(e),
    }
}

/// Recognize a nonempty run of whitespace.
pub fn whitespace(i: &str) -> (r: core::result::Result<(String, ()), Error>)
    ensures
        match r {
            Ok((rem, _)) => count_ws(i@) >= 1 && rem@ == i@.skip(count_ws(i@)),
            Err(_) => count_ws(i@) == 0,
        },
{
    let inp = str_to_chars(i);
    proof {
        assert(inp@.skip(0) =~= i@);
    }
    let mut p: usize = 0;
    while p < inp.len() && ws_char(inp[p])
        invariant
            0 <= p <= inp.len(),
            inp@ == i@,
            count_ws(i@) == p + count_ws(inp@.skip(p as int)),
        decreases inp.len() - p,
    {
        proof {
            let sp = inp@.skip(p as int);
            assert(sp[0] == inp@[p as int]);
            assert(sp.skip(1) == inp@.skip(p as int + 1));
            assert(count_ws(sp) == 1 + count_ws(sp.skip(1)));
        }
        p = p + 1;
    }
    proof {
        if p < inp.len() {
            assert(inp@.skip(p as int)[0] == inp@[p as int]);
        }
        assert(count_ws(inp@.skip(p as int)) == 0);
    }
    if p == 0 {
        Err(Error::WhitespaceError(String::from_str("expected whitespace")))
    } else {
        Ok((suffix_string(&inp, p), ()))
    }
}

/// Recognize a single comma.
pub fn comma(i: &str) -> (r: core::result::Result<(String, ()), Error>)
    ensures
        match r {
            Ok((rem, _)) => i@.len() > 0 && i@[0] == ',' && rem@ == i@.skip(1),
            Err(_) => !(i@.len() > 0 && i@[0] == ','),
        },
{
    let inp = str_to_chars(i);
    proof {
        assert(inp@.skip(0) =~= i@);
    }
    if inp.len() > 0 && inp[0] == ',' {
        Ok((suffix_string(&inp, 1), ()))
    } else {
        Err(Error::WhitespaceError(String::from_str("expected a comma")))
    }
}

/// Recognize a line comment: `//` through the end of the line, the
/// line break itself not consumed.
pub fn line_comment(i: &str) -> (r: core::result::Result<(String, ()), Error>)
    ensures
        match r {
            Ok((rem, _)) => i@.len() >= 2 && i@[0] == '/' && i@[1] == '/' && rem@ == i@.skip(
                2 + find_eol(i@.skip(2)),
            ),
            Err(_) => !(i@.len() >= 2 && i@[0] == '/' && i@[1] == '/'),
        },
{
    let inp = str_to_chars(i);
    proof {
        assert(inp@.skip(0) =~= i@);
    }
    if inp.len() >= 2 && inp[0] == '/' && inp[1] == '/' {
        let mut p: usize = 2;
        while p < inp.len() && inp[p] != '\n' && inp[p] != '\r'
            invariant
                2 <= p <= inp.len(),
                inp@ == i@,
                inp.len() >= 2,
                find_eol(i@.skip(2)) == (p - 2) + find_eol(inp@.skip(p as int)),
            decreases inp.len() - p,
        {
            proof {
                let sp = inp@.skip(p as int);
                assert(sp[0] == inp@[p as int]);
                assert(sp.skip(1) == inp@.skip(p as int + 1));
                assert(find_eol(sp) == 1 + find_eol(sp.skip(1)));
            }
            p = p + 1;
        }
        proof {
            if p < inp.len() {
                assert(inp@.skip(p as int)[0] == inp@[p as int]);
            }
            assert(find_eol(inp@.skip(p as int)) == 0);
        }
        Ok((suffix_string(&inp, p), ()))
    } else {
        Err(Error::WhitespaceError(String::from_str("expected a line comment")))
    }
}

/// Recognize a closed block comment `/* ... */`.
pub fn block_comment(i: &str) -> (r: core::result::Result<(String, ()), Error>)
    ensures
        match r {
            Ok((rem, _)) => i@.len() >= 2 && i@[0] == '/' && i@[1] == '*' && match find_close(
                i@.skip(2),
            ) {
                Some(j) => rem@ == i@.skip(4 + j),
                None => false,
            },
            Err(_) => !(i@.len() >= 2 && i@[0] == '/' && i@[1] == '*') || find_close(
                i@.skip(2),
            ) is None,
        },
{
    let inp = str_to_chars(i);
    proof {
        assert(inp@.skip(0) =~= i@);
    }
    if inp.len() >= 2 && inp[0] == '/' && inp[1] == '*' {
        let mut p: usize = 2;
        while inp.len() - p >= 2 && !(inp[p] == '*' && inp[p + 1] == '/')
            invariant
                2 <= p <= inp.len(),
                inp@ == i@,
                inp.len() >= 2,
                find_close(i@.skip(2)) == match find_close(inp@.skip(p as int)) {
                    Some(j) => Some((p - 2) + j),
                    None => None::<int>,
                },
            decreases inp.len() - p,
        {
            proof {
                let sp = inp@.skip(p as int);
                assert(sp[0] == inp@[p as int] && sp[1] == inp@[p as int + 1]);
                assert(sp.skip(1) == inp@.skip(p as int + 1));
                assert(find_close(sp) == match find_close(sp.skip(1)) {
                    Some(j) => Some(1 + j),
                    None => None::<int>,
                });
            }
            p = p + 1;
        }
        if inp.len() - p >= 2 {
            proof {
                let sp = inp@.skip(p as int);
                assert(sp[0] == inp@[p as int] && sp[1] == inp@[p as int + 1]);
                assert(find_close(sp) == Some(0int));
                assert(find_close(i@.skip(2)) == Some((p - 2) as int));
            }
            Ok((suffix_string(&inp, p + 2), ()))
        } else {
            proof {
                let sp = inp@.skip(p as int);
                assert(sp.len() < 2);
                assert(find_close(sp) is None);
            }
            Err(Error::WhitespaceError(String::from_str("unterminated block comment")))
        }
    } else {
        Err(Error::WhitespaceError(String::from_str("expected a block comment")))
    }
}

/// Consume the run of ignored input at the front: whitespace, commas,
/// comments.  Never fails; the run may be empty.
pub fn all_ignored(i: &str) -> (r: core::result::Result<(String, ()), Error>)
    ensures
        match r {
            Ok((rem, _)) => rem@ == skip_ign(i@),
            Err(_) => false,
        },
{
    let inp = str_to_chars(i);
    proof {
        assert(inp@.skip(0) =~= i@);
    }
    let j = all_ignored_at(&inp, 0);
    Ok((suffix_string(&inp, j), ()))
}

/// Consume a nonempty run of ignored input at the front.
pub fn all_ignored1(i: &str) -> (r: core::result::Result<(String, ()), Error>)
    ensures
        match r {
            Ok((rem, _)) => rem@ == skip_ign(i@) && skip_ign(i@).len() < i@.len(),
            Err(_) => skip_ign(i@) == i@,
        },
{
    let inp = str_to_chars(i);
    proof {
        assert(inp@.skip(0) =~= i@);
    }
    let j = all_ignored_at(&inp, 0);
    if j == 0 {
        proof {
            assert(inp@.skip(0) =~= inp@);
        }
        Err(Error::WhitespaceError(String::from_str("expected ignored input")))
    } else {
        proof {
            crate::grammar::lemma_skip_ign_len(i@);
        }
        Ok((suffix_string(&inp, j), ()))
    }
}

/// Recognize a bracketed list.
pub fn list(i: &str) -> (r: core::result::Result<(String, TotValue), Error>)
    ensures
        match r {
            Ok((rem, v)) => i@.len() > 0 && i@[0] == '[' && p_scalar(i@) == Some((tv(v), rem@)),
            Err(_) => !(i@.len() > 0 && i@[0] == '[') || p_scalar(i@) is None,
        },
{
    let inp = str_to_chars(i);
    proof {
        assert(inp@.skip(0) =~= i@);
    }
    if inp.len() > 0 && inp[0] == '[' {
        match scalar_at(&inp, 0) {
            Ok((j, v)) => Ok((suffix_string(&inp, j), v)),
            Err(e) => Err(e),
        }
    } else {
        Err(Error::ListError(String::from_str("expected a list")))
    }
}

/// Recognize a braced dictionary.
pub fn dict(i: &str) -> (r: core::result::Result<(String, TotValue), Error>)
    ensures
        match r {
            Ok((rem, v)) => i@.len() > 0 && i@[0] == '{' && p_scalar(i@) == Some((tv(v), rem@)),
            Err(_) => !(i@.len() > 0 && i@[0] == '{') || p_scalar(i@) is None,
        },
{
    let inp = str_to_chars(i);
    proof {
        assert(inp@.skip(0) =~= i@);
    }
    if inp.len() > 0 && inp[0] == '{' {
        match scalar_at(&inp, 0) {
            Ok((j, v)) => Ok((suffix_string(&inp, j), v)),
            Err(e) => Err(e),
        }
    } else {
        Err(Error::DictError(String::from_str("expected a dict")))
    }
}

/// Recognize any scalar.
pub fn scalar(i: &str) -> (r: core::result::Result<(String, TotValue), Error>)
    ensures
        match r {
            Ok((rem, v)) => p_scalar(i@) == Some((tv(v), rem@)),
            Err(_) => p_scalar(i@) is None,
        },
{
    let inp = str_to_chars(i);
    proof {
        assert(inp@.skip(0) =~= i@);
    }
    match scalar_at(&inp, 0) {
        Ok((j, v)) => Ok((suffix_string(&inp, j), v)),
        Err(e) => Err(e),
    }
}

/// Recognize one dictionary entry with its surrounding ignored runs.
pub fn key_value(i: &str) -> (r: core::result::Result<(String, (String, TotValue)), Error>)
    ensures
        match r {
            Ok((rem, (k, v))) => p_key_value(i@) == Some(((k@, tv(v)), rem@)),
            Err(_) => p_key_value(i@) is None,
        },
{
    let inp = str_to_chars(i);
    proof {
        assert(inp@.skip(0) =~= i@);
    }
    let s1pos = all_ignored_at(&inp, 0);
    match key_at(&inp, s1pos) {
        Err(e) => Err(e),
        Ok((kend, kchars)) => {
            let s3pos = all_ignored_at(&inp, kend);
            match scalar_at(&inp, s3pos) {
                Err(e) => Err(e),
                Ok((vend, v)) => {
                    let rpos = all_ignored_at(&inp, vend);
                    Ok((suffix_string(&inp, rpos), (chars_to_string(&kchars), v)))
                },
            }
        },
    }
}

} // verus!
