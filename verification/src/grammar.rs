//! The specification grammar of Tot.
//!
//! Every function here is specification-level: a mathematical
//! description of what the text parser recognizes and what value each
//! form denotes.  The executable recognizers in [`crate::parser`] and
//! the decoder in [`crate::de`] carry contracts stated in terms of
//! these functions.
//!
//! A parse function takes the remaining input as a sequence of chars
//! and yields the parsed value together with the suffix it did not
//! consume, or nothing when the form does not match.

use vstd::prelude::*;
use crate::chars::{is_ws, is_digit, is_hex_digit, digit_val, hex_val};
use crate::num::{norm, Number};

verus! {

broadcast use vstd::seq_lib::lemma_seq_skip_of_skip;

/// The mathematical value tree of a parsed document.  `GenV` and
/// `MissingV` mirror the work-in-progress expression forms of the
/// value type; the grammar never produces them.
pub enum TotV {
    UnitV,
    BoolV(bool),
    StrV(Seq<char>),
    IntV(int),
    DecV { neg: bool, m: nat, e: int },
    ListV(Seq<TotV>),
    DictV(Seq<(Seq<char>, TotV)>),
    GenV(Seq<char>),
    MissingV,
}

/// The tree form of a parsed numeric literal.
pub open spec fn num_rep(n: Number) -> TotV {
    match n {
        Number::Int(i) => TotV::IntV(i as int),
        Number::Dec(d) => TotV::DecV { neg: d.neg, m: d.mantissa as nat, e: d.exp as int },
    }
}

// ---------------------------------------------------------------------
// Counting runs of characters.
// ---------------------------------------------------------------------
/// Length of the run of decimal digits at the front.
pub open spec fn count_digits(s: Seq<char>) -> int
    decreases s.len(),
{
    if s.len() > 0 && is_digit(s[0]) {
        1 + count_digits(s.skip(1))
    } else {
        0
    }
}

/// Length of the run of hexadecimal digits at the front.
pub open spec fn count_hex(s: Seq<char>) -> int
    decreases s.len(),
{
    if s.len() > 0 && is_hex_digit(s[0]) {
        1 + count_hex(s.skip(1))
    } else {
        0
    }
}

/// Length of the run of whitespace at the front.
pub open spec fn count_ws(s: Seq<char>) -> int
    decreases s.len(),
{
    if s.len() > 0 && is_ws(s[0]) {
        1 + count_ws(s.skip(1))
    } else {
        0
    }
}

/// Length of the run of non-whitespace at the front.
pub open spec fn count_non_ws(s: Seq<char>) -> int
    decreases s.len(),
{
    if s.len() > 0 && !is_ws(s[0]) {
        1 + count_non_ws(s.skip(1))
    } else {
        0
    }
}

pub proof fn lemma_count_digits(s: Seq<char>)
    ensures
        0 <= count_digits(s) <= s.len(),
        forall|i: int| 0 <= i < count_digits(s) ==> is_digit(#[trigger] s[i]),
        count_digits(s) < s.len() ==> !is_digit(s[count_digits(s)]),
    decreases s.len(),
{
    if s.len() > 0 && is_digit(s[0]) {
        lemma_count_digits(s.skip(1));
        assert forall|i: int| 0 <= i < count_digits(s) implies is_digit(#[trigger] s[i]) by {
            if i > 0 {
                assert(s[i] == s.skip(1)[i - 1]);
            }
        }
        if count_digits(s) < s.len() {
            assert(s[count_digits(s)] == s.skip(1)[count_digits(s) - 1]);
        }
    }
}

pub proof fn lemma_count_hex(s: Seq<char>)
    ensures
        0 <= count_hex(s) <= s.len(),
        forall|i: int| 0 <= i < count_hex(s) ==> is_hex_digit(#[trigger] s[i]),
        count_hex(s) < s.len() ==> !is_hex_digit(s[count_hex(s)]),
    decreases s.len(),
{
    if s.len() > 0 && is_hex_digit(s[0]) {
        lemma_count_hex(s.skip(1));
        assert forall|i: int| 0 <= i < count_hex(s) implies is_hex_digit(#[trigger] s[i]) by {
            if i > 0 {
                assert(s[i] == s.skip(1)[i - 1]);
            }
        }
        if count_hex(s) < s.len() {
            assert(s[count_hex(s)] == s.skip(1)[count_hex(s) - 1]);
        }
    }
}

pub proof fn lemma_count_ws(s: Seq<char>)
    ensures
        0 <= count_ws(s) <= s.len(),
        forall|i: int| 0 <= i < count_ws(s) ==> is_ws(#[trigger] s[i]),
        count_ws(s) < s.len() ==> !is_ws(s[count_ws(s)]),
    decreases s.len(),
{
    if s.len() > 0 && is_ws(s[0]) {
        lemma_count_ws(s.skip(1));
        assert forall|i: int| 0 <= i < count_ws(s) implies is_ws(#[trigger] s[i]) by {
            if i > 0 {
                assert(s[i] == s.skip(1)[i - 1]);
            }
        }
        if count_ws(s) < s.len() {
            assert(s[count_ws(s)] == s.skip(1)[count_ws(s) - 1]);
        }
    }
}

pub proof fn lemma_count_non_ws(s: Seq<char>)
    ensures
        0 <= count_non_ws(s) <= s.len(),
        forall|i: int| 0 <= i < count_non_ws(s) ==> !is_ws(#[trigger] s[i]),
        count_non_ws(s) < s.len() ==> is_ws(s[count_non_ws(s)]),
    decreases s.len(),
{
    if s.len() > 0 && !is_ws(s[0]) {
        lemma_count_non_ws(s.skip(1));
        assert forall|i: int| 0 <= i < count_non_ws(s) implies !is_ws(#[trigger] s[i]) by {
            if i > 0 {
                assert(s[i] == s.skip(1)[i - 1]);
            }
        }
        if count_non_ws(s) < s.len() {
            assert(s[count_non_ws(s)] == s.skip(1)[count_non_ws(s) - 1]);
        }
    }
}

// ---------------------------------------------------------------------
// Ignored input: whitespace, commas, comments.
// ---------------------------------------------------------------------
/// Index of the first line break, or the length when there is none.
pub open spec fn find_eol(s: Seq<char>) -> int
    decreases s.len(),
{
    if s.len() == 0 {
        0
    } else if s[0] == '\n' || s[0] == '\r' {
        0
    } else {
        1 + find_eol(s.skip(1))
    }
}

pub proof fn lemma_find_eol(s: Seq<char>)
    ensures
        0 <= find_eol(s) <= s.len(),
        forall|i: int|
            0 <= i < find_eol(s) ==> #[trigger] s[i] != '\n' && s[i] != '\r',
        find_eol(s) < s.len() ==> s[find_eol(s)] == '\n' || s[find_eol(s)] == '\r',
    decreases s.len(),
{
    if s.len() > 0 && s[0] != '\n' && s[0] != '\r' {
        lemma_find_eol(s.skip(1));
        assert forall|i: int|
            0 <= i < find_eol(s) implies #[trigger] s[i] != '\n' && s[i] != '\r' by {
            if i > 0 {
                assert(s[i] == s.skip(1)[i - 1]);
            }
        }
        if find_eol(s) < s.len() {
            assert(s[find_eol(s)] == s.skip(1)[find_eol(s) - 1]);
        }
    }
}

/// Index of the first `*/`, if any.
pub open spec fn find_close(s: Seq<char>) -> Option<int>
    decreases s.len(),
{
    if s.len() < 2 {
        None
    } else if s[0] == '*' && s[1] == '/' {
        Some(0)
    } else {
        match find_close(s.skip(1)) {
            Some(j) => Some(1 + j),
            None => None,
        }
    }
}

pub proof fn lemma_find_close(s: Seq<char>)
    ensures
        match find_close(s) {
            Some(j) => {
                &&& 0 <= j <= s.len() - 2
                &&& s[j] == '*' && s[j + 1] == '/'
                &&& forall|i: int| 0 <= i < j ==> !(#[trigger] s[i] == '*' && s[i + 1] == '/')
            },
            None => forall|i: int|
                0 <= i <= s.len() - 2 ==> !(#[trigger] s[i] == '*' && s[i + 1] == '/'),
        },
    decreases s.len(),
{
    if s.len() < 2 {
    } else if s[0] == '*' && s[1] == '/' {
    } else {
        lemma_find_close(s.skip(1));
        assert(forall|i: int| 1 <= i < s.len() ==> #[trigger] s[i] == s.skip(1)[i - 1]);
        match find_close(s) {
            Some(j) => {
                assert(s[j] == s.skip(1)[j - 1] && s[j + 1] == s.skip(1)[j]);
                assert forall|i: int| 0 <= i < j implies !(#[trigger] s[i] == '*' && s[i + 1]
                    == '/') by {
                    if i > 0 {
                        assert(s[i] == s.skip(1)[i - 1] && s[i + 1] == s.skip(1)[i]);
                    }
                }
            },
            None => {
                assert forall|i: int| 0 <= i <= s.len() - 2 implies !(#[trigger] s[i] == '*'
                    && s[i + 1] == '/') by {
                    if i > 0 {
                        assert(s[i] == s.skip(1)[i - 1] && s[i + 1] == s.skip(1)[i]);
                    }
                }
            },
        }
    }
}

/// The suffix left after the run of ignored input at the front: any mix
/// of whitespace, commas, line comments and closed block comments.
///
/// An unterminated block comment is not ignored input; the run stops in
/// front of it.
pub open spec fn skip_ign(s: Seq<char>) -> Seq<char>
    decreases s.len(),
{
    if s.len() == 0 {
        s
    } else if is_ws(s[0]) || s[0] == ',' {
        skip_ign(s.skip(1))
    } else if s.len() >= 2 && s[0] == '/' && s[1] == '/' {
        let e = find_eol(s.skip(2));
        if 0 <= e && 2 + e <= s.len() {
            skip_ign(s.skip(2 + e))
        } else {
            s
        }
    } else if s.len() >= 2 && s[0] == '/' && s[1] == '*' {
        match find_close(s.skip(2)) {
            Some(j) => if 0 <= j && 4 + j <= s.len() {
                skip_ign(s.skip(4 + j))
            } else {
                s
            },
            None => s,
        }
    } else {
        s
    }
}

pub proof fn lemma_skip_ign_len(s: Seq<char>)
    ensures
        skip_ign(s).len() <= s.len(),
        skip_ign(s).len() > 0 ==> !is_ws(skip_ign(s)[0]) && skip_ign(s)[0] != ',',
    decreases s.len(),
{
    if s.len() == 0 {
    } else if is_ws(s[0]) || s[0] == ',' {
        lemma_skip_ign_len(s.skip(1));
    } else if s.len() >= 2 && s[0] == '/' && s[1] == '/' {
        lemma_find_eol(s.skip(2));
        let e = find_eol(s.skip(2));
        if 0 <= e && 2 + e <= s.len() {
            lemma_skip_ign_len(s.skip(2 + e));
        }
    } else if s.len() >= 2 && s[0] == '/' && s[1] == '*' {
        lemma_find_close(s.skip(2));
        match find_close(s.skip(2)) {
            Some(j) => {
                if 0 <= j && 4 + j <= s.len() {
                    lemma_skip_ign_len(s.skip(4 + j));
                }
            },
            None => {},
        }
    }
}

// ---------------------------------------------------------------------
// Literals.
// ---------------------------------------------------------------------
/// `null`.
pub open spec fn p_unit(s: Seq<char>) -> Option<Seq<char>> {
    if s.len() >= 4 && s[0] == 'n' && s[1] == 'u' && s[2] == 'l' && s[3] == 'l' {
        Some(s.skip(4))
    } else {
        None
    }
}

/// `true` or `false`, case-sensitive.
pub open spec fn p_bool(s: Seq<char>) -> Option<(bool, Seq<char>)> {
    if s.len() >= 4 && s[0] == 't' && s[1] == 'r' && s[2] == 'u' && s[3] == 'e' {
        Some((true, s.skip(4)))
    } else if s.len() >= 5 && s[0] == 'f' && s[1] == 'a' && s[2] == 'l' && s[3] == 's'
        && s[4] == 'e' {
        Some((false, s.skip(5)))
    } else {
        None
    }
}

// ---------------------------------------------------------------------
// Numbers.
// ---------------------------------------------------------------------
/// Accumulate the digits of an integer part into a mantissa, capped at
/// `u64::MAX`.  A digit that does not fit shifts the exponent up
/// instead, and the first such digit rounds the mantissa to nearest;
/// the shift count saturates at one million, far beyond any exponent
/// the grammar accepts as finite.
pub open spec fn acc_dec(s: Seq<char>, acc: nat, sh: int) -> (nat, int)
    decreases s.len(),
{
    if s.len() == 0 {
        (acc, sh)
    } else {
        let d = digit_val(s[0]);
        if acc * 10 + d <= u64::MAX {
            acc_dec(s.skip(1), acc * 10 + d, sh)
        } else {
            let acc2 = if sh == 0 && d >= 5 && acc < u64::MAX {
                acc + 1
            } else {
                acc
            };
            acc_dec(s.skip(1), acc2, if sh < 1000000 { sh + 1 } else { sh })
        }
    }
}

/// Accumulate fraction digits: each digit taken lowers the exponent by
/// one (saturating); a digit that does not fit is dropped.
pub open spec fn acc_frac(s: Seq<char>, acc: nat, fe: int) -> (nat, int)
    decreases s.len(),
{
    if s.len() == 0 {
        (acc, fe)
    } else {
        let d = digit_val(s[0]);
        if acc * 10 + d <= u64::MAX {
            acc_frac(s.skip(1), acc * 10 + d, if fe > -1000000 { fe - 1 } else { fe })
        } else {
            acc_frac(s.skip(1), acc, fe)
        }
    }
}

/// Value of an explicit exponent's digit run, clamped just above one
/// million so that absurd exponents still compare correctly against
/// the finite range.
pub open spec fn acc_exp(s: Seq<char>, acc: int) -> int
    decreases s.len(),
{
    if s.len() == 0 {
        acc
    } else {
        let v = acc * 10 + digit_val(s[0]);
        acc_exp(s.skip(1), if v > 1000000 { 1000001 } else { v })
    }
}

/// Length of an exponent clause (`e`/`E`, optional sign, digits) at the
/// front, or zero when there is none.
pub open spec fn exp_lex_len(s: Seq<char>) -> int {
    if s.len() >= 2 && (s[0] == 'e' || s[0] == 'E') {
        if is_digit(s[1]) {
            1 + count_digits(s.skip(1))
        } else if (s[1] == '+' || s[1] == '-') && s.len() >= 3 && is_digit(s[2]) {
            2 + count_digits(s.skip(2))
        } else {
            0
        }
    } else {
        0
    }
}

/// Signed value of an exponent clause of length `exp_lex_len`.
pub open spec fn exp_clause_val(s: Seq<char>) -> int {
    if s.len() >= 2 && s[1] == '-' {
        -acc_exp(s.skip(2), 0)
    } else if s.len() >= 2 && s[1] == '+' {
        acc_exp(s.skip(2), 0)
    } else {
        acc_exp(s.skip(1), 0)
    }
}

/// Largest exponent (after normalization) the codec accepts as finite.
pub open spec fn max_exp() -> int {
    350
}

/// Smallest exponent; anything smaller collapses to zero.
pub open spec fn min_exp() -> int {
    -400
}

/// A numeric literal: optional minus sign, digits with an optional
/// point and fraction (at least one digit in total), and an optional
/// exponent clause.
///
/// A literal with no point and no exponent whose exact value fits a
/// signed 64-bit integer is an `IntV`; every other literal is a
/// `DecV` in normal form.  A finite overflow of the decimal range is
/// not a number; a value too small for the range collapses to zero.
pub open spec fn p_number(s: Seq<char>) -> Option<(TotV, Seq<char>)> {
    let neg = s.len() > 0 && s[0] == '-';
    let s1 = if neg { s.skip(1) } else { s };
    let nd = count_digits(s1);
    let s2 = s1.skip(nd);
    let has_dot = s2.len() > 0 && s2[0] == '.';
    let s3 = if has_dot { s2.skip(1) } else { s2 };
    let nf = if has_dot { count_digits(s3) } else { 0 };
    let s4 = s3.skip(nf);
    if nd == 0 && nf == 0 {
        None
    } else {
        let el = exp_lex_len(s4);
        let rest = s4.skip(el);
        let (m1, iz) = acc_dec(s1.take(nd), 0, 0);
        let (m2, fe) = acc_frac(s3.take(nf), m1, 0);
        let ev = if el > 0 {
            exp_clause_val(s4.take(el))
        } else {
            0
        };
        let etot = iz + fe + ev;
        if !has_dot && el == 0 {
            if iz == 0 && !neg && m1 <= i64::MAX {
                Some((TotV::IntV(m1 as int), rest))
            } else if iz == 0 && neg && m1 <= 0x8000_0000_0000_0000 {
                Some((TotV::IntV(-(m1 as int)), rest))
            } else {
                mk_dec(neg, m2, etot, rest)
            }
        } else {
            mk_dec(neg, m2, etot, rest)
        }
    }
}

/// Build a normalized decimal result, rejecting a finite overflow and
/// collapsing an underflow to zero.
pub open spec fn mk_dec(neg: bool, m: nat, e: int, rest: Seq<char>) -> Option<(TotV, Seq<char>)> {
    let (mn, en) = norm(m, e);
    if mn > 0 && en > max_exp() {
        None
    } else if mn > 0 && en < min_exp() {
        Some((TotV::DecV { neg, m: 0, e: 0 }, rest))
    } else {
        Some((TotV::DecV { neg, m: mn, e: en }, rest))
    }
}

// ---------------------------------------------------------------------
// Strings.
// ---------------------------------------------------------------------
/// Prepend a char to the content of a string-body result.
pub open spec fn cons_str(c: char, r: Option<(Seq<char>, Seq<char>)>) -> Option<
    (Seq<char>, Seq<char>),
> {
    match r {
        Some((t, rest)) => Some((seq![c] + t, rest)),
        None => None,
    }
}

/// Accumulate hexadecimal digits into a code value.
pub open spec fn hex_acc(s: Seq<char>, acc: nat) -> nat
    decreases s.len(),
{
    if s.len() == 0 {
        acc
    } else {
        hex_acc(s.skip(1), acc * 16 + hex_val(s[0]))
    }
}

/// Whether a code value is a Unicode scalar value.
pub open spec fn is_scalar_val(u: nat) -> bool {
    u < 0xD800 || (0xE000 <= u && u <= 0x10FFFF)
}

/// The body of a string literal, after the opening quote: literal
/// chars, escapes `\" \\ \/ \n \r \t \b \f`, `\u{H..H}` with one to
/// six hex digits naming a scalar value, and `\` before whitespace,
/// which elides that whitespace run.  Stops after the closing quote.
pub open spec fn p_strbody(s: Seq<char>) -> Option<(Seq<char>, Seq<char>)>
    decreases s.len(),
{
    if s.len() == 0 {
        None
    } else if s[0] == '"' {
        Some((Seq::empty(), s.skip(1)))
    } else if s[0] == '\\' {
        if s.len() < 2 {
            None
        } else {
            let c = s[1];
            if c == 'u' {
                if s.len() >= 4 && s[2] == '{' {
                    let h = count_hex(s.skip(3));
                    let hn = if h > 6 {
                        6
                    } else {
                        h
                    };
                    if hn >= 1 && 3 + hn < s.len() && s[3 + hn] == '}' {
                        let u = hex_acc(s.skip(3).take(hn), 0);
                        if is_scalar_val(u) {
                            cons_str((u as u32) as char, p_strbody(s.skip(4 + hn)))
                        } else {
                            None
                        }
                    } else {
                        None
                    }
                } else {
                    None
                }
            } else if c == 'n' {
                cons_str('\n', p_strbody(s.skip(2)))
            } else if c == 'r' {
                cons_str('\r', p_strbody(s.skip(2)))
            } else if c == 't' {
                cons_str('\t', p_strbody(s.skip(2)))
            } else if c == 'b' {
                cons_str('\u{08}', p_strbody(s.skip(2)))
            } else if c == 'f' {
                cons_str('\u{0C}', p_strbody(s.skip(2)))
            } else if c == '\\' || c == '/' || c == '"' {
                cons_str(c, p_strbody(s.skip(2)))
            } else if is_ws(c) {
                let w = count_ws(s.skip(1));
                if w >= 1 && 1 + w <= s.len() {
                    p_strbody(s.skip(1 + w))
                } else {
                    None
                }
            } else {
                None
            }
        }
    } else {
        cons_str(s[0], p_strbody(s.skip(1)))
    }
}

/// A quoted string literal.
pub open spec fn p_string(s: Seq<char>) -> Option<(Seq<char>, Seq<char>)> {
    if s.len() > 0 && s[0] == '"' {
        p_strbody(s.skip(1))
    } else {
        None
    }
}

/// A bare token: a maximal nonempty run of non-whitespace.
pub open spec fn p_token(s: Seq<char>) -> Option<(Seq<char>, Seq<char>)> {
    let n = count_non_ws(s);
    if n >= 1 {
        Some((s.take(n), s.skip(n)))
    } else {
        None
    }
}

/// A dictionary key: a quoted string, or failing that a bare token.
pub open spec fn p_key(s: Seq<char>) -> Option<(Seq<char>, Seq<char>)> {
    match p_string(s) {
        Some(r) => Some(r),
        None => p_token(s),
    }
}

// ---------------------------------------------------------------------
// Values.
// ---------------------------------------------------------------------
/// A scalar: `null`, a boolean, a number, a string, a list or a
/// dictionary.
pub open spec fn p_scalar(s: Seq<char>) -> Option<(TotV, Seq<char>)>
    decreases s.len(), 1int,
{
    if p_unit(s) is Some {
        Some((TotV::UnitV, p_unit(s)->0))
    } else if p_bool(s) is Some {
        let (b, r) = p_bool(s)->0;
        Some((TotV::BoolV(b), r))
    } else if p_number(s) is Some {
        p_number(s)
    } else if p_string(s) is Some {
        let (t, r) = p_string(s)->0;
        Some((TotV::StrV(t), r))
    } else if s.len() > 0 && s[0] == '[' {
        match p_list_items(s.skip(1)) {
            Some((items, r)) => if r.len() > 0 && r[0] == ']' {
                Some((TotV::ListV(items), r.skip(1)))
            } else {
                None
            },
            None => None,
        }
    } else if s.len() > 0 && s[0] == '{' {
        match p_dict_items(s.skip(1)) {
            Some((kvs, r)) => if r.len() > 0 && r[0] == '}' {
                Some((TotV::DictV(kvs), r.skip(1)))
            } else {
                None
            },
            None => None,
        }
    } else {
        None
    }
}

/// The items of a list, between the brackets.  Stops in front of the
/// closing bracket; fails on end of input or on a malformed item.
pub open spec fn p_list_items(s: Seq<char>) -> Option<(Seq<TotV>, Seq<char>)>
    decreases s.len(), 2int,
{
    let s1 = skip_ign(s);
    if s1.len() > s.len() {
        None
    } else if s1.len() == 0 {
        None
    } else if s1[0] == ']' {
        Some((Seq::empty(), s1))
    } else {
        match p_scalar(s1) {
            Some((v, r)) => if r.len() < s.len() {
                match p_list_items(r) {
                    Some((items, rr)) => Some((seq![v] + items, rr)),
                    None => None,
                }
            } else {
                None
            },
            None => None,
        }
    }
}

/// The entries of a dictionary body: ignored runs around each key and
/// value.  Stops in front of a closing brace or at end of input; a key
/// without a value is a failure.
pub open spec fn p_dict_items(s: Seq<char>) -> Option<(Seq<(Seq<char>, TotV)>, Seq<char>)>
    decreases s.len(), 2int,
{
    let s1 = skip_ign(s);
    if s1.len() > s.len() {
        None
    } else if s1.len() == 0 || s1[0] == '}' {
        Some((Seq::empty(), s1))
    } else {
        match p_key(s1) {
            Some((k, s2)) => {
                let s3 = skip_ign(s2);
                if s3.len() < s.len() {
                    match p_scalar(s3) {
                        Some((v, r)) => if r.len() < s.len() {
                            match p_dict_items(r) {
                                Some((kvs, rr)) => Some((seq![(k, v)] + kvs, rr)),
                                None => None,
                            }
                        } else {
                            None
                        },
                        None => None,
                    }
                } else {
                    None
                }
            },
            None => None,
        }
    }
}

/// A whole document.  The root is an implicit dictionary body; a
/// document that is not one may instead be a single bracketed list,
/// with trailing ignored input allowed after it.
pub open spec fn p_root(s: Seq<char>) -> Option<TotV> {
    match p_dict_items(s) {
        Some((kvs, rest)) => if rest.len() == 0 {
            Some(TotV::DictV(kvs))
        } else {
            p_root_list(s)
        },
        None => p_root_list(s),
    }
}

// ---------------------------------------------------------------------
// Folding one more character into an accumulator.
// ---------------------------------------------------------------------
pub proof fn lemma_acc_dec_snoc(s: Seq<char>, c: char, acc: nat, sh: int)
    requires
        sh >= 0,
    ensures
        acc_dec(s.push(c), acc, sh) == ({
            let (a2, s2) = acc_dec(s, acc, sh);
            let d = digit_val(c);
            if a2 * 10 + d <= u64::MAX {
                (a2 * 10 + d, s2)
            } else {
                let a3 = if s2 == 0 && d >= 5 && a2 < u64::MAX {
                    a2 + 1
                } else {
                    a2
                };
                (a3, if s2 < 1000000 { s2 + 1 } else { s2 })
            }
        }),
        acc_dec(s, acc, sh).1 >= sh,
    decreases s.len(),
{
    let t = s.push(c);
    if s.len() == 0 {
        assert(t[0] == c);
        assert(t.skip(1) =~= Seq::<char>::empty());
        let d = digit_val(c);
        if acc * 10 + d <= u64::MAX {
            assert(acc_dec(t, acc, sh) == acc_dec(t.skip(1), acc * 10 + d, sh));
            assert(acc_dec(t.skip(1), acc * 10 + d, sh) == (acc * 10 + d, sh));
        } else {
            let acc2 = if sh == 0 && d >= 5 && acc < u64::MAX {
                acc + 1
            } else {
                acc
            };
            let sh2 = if sh < 1000000 { sh + 1 } else { sh };
            assert(acc_dec(t, acc, sh) == acc_dec(t.skip(1), acc2, sh2));
            assert(acc_dec(t.skip(1), acc2, sh2) == (acc2, sh2));
        }
        assert(acc_dec(s, acc, sh) == (acc, sh));
    } else {
        assert(t[0] == s[0]);
        assert(t.skip(1) =~= s.skip(1).push(c));
        let d0 = digit_val(s[0]);
        if acc * 10 + d0 <= u64::MAX {
            assert(acc_dec(t, acc, sh) == acc_dec(s.skip(1).push(c), acc * 10 + d0, sh));
            assert(acc_dec(s, acc, sh) == acc_dec(s.skip(1), acc * 10 + d0, sh));
            lemma_acc_dec_snoc(s.skip(1), c, acc * 10 + d0, sh);
        } else {
            let acc2 = if sh == 0 && d0 >= 5 && acc < u64::MAX {
                acc + 1
            } else {
                acc
            };
            let sh2 = if sh < 1000000 { sh + 1 } else { sh };
            assert(acc_dec(t, acc, sh) == acc_dec(s.skip(1).push(c), acc2, sh2));
            assert(acc_dec(s, acc, sh) == acc_dec(s.skip(1), acc2, sh2));
            lemma_acc_dec_snoc(s.skip(1), c, acc2, sh2);
        }
    }
}

pub proof fn lemma_acc_frac_snoc(s: Seq<char>, c: char, acc: nat, fe: int)
    ensures
        acc_frac(s.push(c), acc, fe) == ({
            let (a2, f2) = acc_frac(s, acc, fe);
            let d = digit_val(c);
            if a2 * 10 + d <= u64::MAX {
                (a2 * 10 + d, if f2 > -1000000 { f2 - 1 } else { f2 })
            } else {
                (a2, f2)
            }
        }),
    decreases s.len(),
{
    let t = s.push(c);
    if s.len() == 0 {
        assert(t[0] == c);
        assert(t.skip(1) =~= Seq::<char>::empty());
        let d = digit_val(c);
        if acc * 10 + d <= u64::MAX {
            let fe2 = if fe > -1000000 { fe - 1 } else { fe };
            assert(acc_frac(t, acc, fe) == acc_frac(t.skip(1), acc * 10 + d, fe2));
            assert(acc_frac(t.skip(1), acc * 10 + d, fe2) == (acc * 10 + d, fe2));
        } else {
            assert(acc_frac(t, acc, fe) == acc_frac(t.skip(1), acc, fe));
            assert(acc_frac(t.skip(1), acc, fe) == (acc, fe));
        }
        assert(acc_frac(s, acc, fe) == (acc, fe));
    } else {
        assert(t[0] == s[0]);
        assert(t.skip(1) =~= s.skip(1).push(c));
        let d0 = digit_val(s[0]);
        if acc * 10 + d0 <= u64::MAX {
            let fe2 = if fe > -1000000 { fe - 1 } else { fe };
            assert(acc_frac(t, acc, fe) == acc_frac(s.skip(1).push(c), acc * 10 + d0, fe2));
            assert(acc_frac(s, acc, fe) == acc_frac(s.skip(1), acc * 10 + d0, fe2));
            lemma_acc_frac_snoc(s.skip(1), c, acc * 10 + d0, fe2);
        } else {
            assert(acc_frac(t, acc, fe) == acc_frac(s.skip(1).push(c), acc, fe));
            assert(acc_frac(s, acc, fe) == acc_frac(s.skip(1), acc, fe));
            lemma_acc_frac_snoc(s.skip(1), c, acc, fe);
        }
    }
}

pub proof fn lemma_acc_exp_snoc(s: Seq<char>, c: char, acc: int)
    ensures
        acc_exp(s.push(c), acc) == ({
            let a2 = acc_exp(s, acc);
            let v = a2 * 10 + digit_val(c);
            if v > 1000000 {
                1000001int
            } else {
                v
            }
        }),
    decreases s.len(),
{
    let t = s.push(c);
    if s.len() == 0 {
        assert(t[0] == c);
        assert(t.skip(1) =~= Seq::<char>::empty());
        let v = acc * 10 + digit_val(c);
        let v2 = if v > 1000000 { 1000001int } else { v };
        assert(acc_exp(t, acc) == acc_exp(t.skip(1), v2));
        assert(acc_exp(t.skip(1), v2) == v2);
        assert(acc_exp(s, acc) == acc);
    } else {
        assert(t[0] == s[0]);
        assert(t.skip(1) =~= s.skip(1).push(c));
        let v0 = acc * 10 + digit_val(s[0]);
        let v02 = if v0 > 1000000 { 1000001int } else { v0 };
        assert(acc_exp(t, acc) == acc_exp(s.skip(1).push(c), v02));
        assert(acc_exp(s, acc) == acc_exp(s.skip(1), v02));
        lemma_acc_exp_snoc(s.skip(1), c, v02);
    }
}

pub proof fn lemma_hex_acc_snoc(s: Seq<char>, c: char, acc: nat)
    ensures
        hex_acc(s.push(c), acc) == hex_acc(s, acc) * 16 + hex_val(c),
    decreases s.len(),
{
    let t = s.push(c);
    if s.len() == 0 {
        assert(t[0] == c);
        assert(t.skip(1) =~= Seq::<char>::empty());
        assert(hex_acc(t, acc) == hex_acc(t.skip(1), acc * 16 + hex_val(c)));
        assert(hex_acc(t.skip(1), acc * 16 + hex_val(c)) == acc * 16 + hex_val(c));
        assert(hex_acc(s, acc) == acc);
    } else {
        assert(t[0] == s[0]);
        assert(t.skip(1) =~= s.skip(1).push(c));
        assert(hex_acc(t, acc) == hex_acc(s.skip(1).push(c), acc * 16 + hex_val(s[0])));
        assert(hex_acc(s, acc) == hex_acc(s.skip(1), acc * 16 + hex_val(s[0])));
        lemma_hex_acc_snoc(s.skip(1), c, acc * 16 + hex_val(s[0]));
    }
}


/// 16 to the power `n`.
pub open spec fn pow16(n: nat) -> nat
    decreases n,
{
    if n == 0 {
        1
    } else {
        16 * pow16((n - 1) as nat)
    }
}

/// A hex accumulation stays below `(acc + 1) * 16^len` when every char
/// is a hex digit.
pub proof fn lemma_hex_acc_bound(s: Seq<char>, acc: nat)
    requires
        forall|i: int| 0 <= i < s.len() ==> is_hex_digit(#[trigger] s[i]),
    ensures
        hex_acc(s, acc) < (acc + 1) * pow16(s.len()),
    decreases s.len(),
{
    if s.len() == 0 {
        assert(pow16(0) == 1);
        assert((acc + 1) * 1 == acc + 1);
    } else {
        let d = hex_val(s[0]);
        assert(is_hex_digit(s[0]));
        assert(d <= 15);
        assert(forall|i: int|
            0 <= i < s.skip(1).len() ==> is_hex_digit(#[trigger] s.skip(1)[i]));
        lemma_hex_acc_bound(s.skip(1), acc * 16 + d);
        let p = pow16((s.len() - 1) as nat);
        assert(hex_acc(s, acc) == hex_acc(s.skip(1), acc * 16 + d));
        assert(hex_acc(s.skip(1), acc * 16 + d) < (acc * 16 + d + 1) * p);
        vstd::arithmetic::mul::lemma_mul_inequality(
            (acc * 16 + d + 1) as int,
            ((acc + 1) * 16) as int,
            p as int,
        );
        vstd::arithmetic::mul::lemma_mul_is_associative((acc + 1) as int, 16, p as int);
        assert(pow16(s.len()) == 16 * p);
        assert((acc + 1) * (16 * p) == (acc + 1) * pow16(s.len()));
    }
}

pub proof fn lemma_pow16_six()
    ensures
        pow16(6) == 0x1000000,
        pow16(5) == 0x100000,
        pow16(4) == 0x10000,
        pow16(3) == 0x1000,
        pow16(2) == 0x100,
        pow16(1) == 16,
        pow16(0) == 1,
{
    assert(pow16(0) == 1);
    assert(pow16(1) == 16);
    assert(pow16(2) == 0x100);
    assert(pow16(3) == 0x1000);
    assert(pow16(4) == 0x10000);
    assert(pow16(5) == 0x100000);
    assert(pow16(6) == 0x1000000);
}


/// One dictionary entry with its surrounding ignored runs: ignored,
/// key, ignored, scalar, ignored.
pub open spec fn p_key_value(s: Seq<char>) -> Option<((Seq<char>, TotV), Seq<char>)> {
    let s1 = skip_ign(s);
    match p_key(s1) {
        Some((k, s2)) => match p_scalar(skip_ign(s2)) {
            Some((v, s4)) => Some(((k, v), skip_ign(s4))),
            None => None,
        },
        None => None,
    }
}

/// The decimal form of a numeric tree: an exact integer is recast as a
/// normalized decimal; a decimal stays as it is.
pub open spec fn dec_form(n: TotV) -> TotV {
    match n {
        TotV::IntV(x) => {
            let a = if x < 0 {
                (-x) as nat
            } else {
                x as nat
            };
            let (m, e) = norm(a, 0);
            TotV::DecV { neg: x < 0, m, e }
        },
        _ => n,
    }
}

/// The list fallback of the root rule.
pub open spec fn p_root_list(s: Seq<char>) -> Option<TotV> {
    if s.len() > 0 && s[0] == '[' {
        match p_scalar(s) {
            Some((v, r)) => if skip_ign(r).len() == 0 {
                Some(v)
            } else {
                None
            },
            None => None,
        }
    } else {
        None
    }
}

} // verus!
