//! The laws of the codec: what parsing gives back of what the
//! serializer wrote, and what ignored input may be inserted.
//!
//! Numbers blur across a text round trip: the text has a single
//! numeric form, so an exact integer comes back as the normalized
//! decimal of the same value.  [`blur`] is that reading; the round
//! trip laws are stated up to it.

use vstd::prelude::*;
use crate::chars::{is_ws, is_digit, is_hex_digit, digit_val, hex_val};
use crate::grammar::{TotV, skip_ign, find_eol, find_close, p_unit, p_bool, p_number, p_string,
    p_strbody, p_key, p_scalar, p_list_items, p_dict_items, p_root, p_root_list, count_digits,
    count_hex, count_ws, count_non_ws, cons_str, hex_acc, acc_dec, acc_frac, exp_lex_len,
    mk_dec, lemma_count_digits, lemma_count_ws, lemma_count_non_ws, lemma_count_hex,
    lemma_find_eol, lemma_find_close, lemma_skip_ign_len, lemma_acc_dec_snoc,
    lemma_acc_frac_snoc, lemma_hex_acc_snoc};
use crate::num::{norm, pow10, lemma_norm_keeps_value, lemma_pow10_key_values, lemma_pow10_mono};
use crate::ser::{spaces, zeros, dec_digits, hex_digits, digit_ch, hex_ch, enc_int, enc_dec,
    esc_str, esc_char, needs_esc, enc_str, enc_value, enc_list_items, enc_dict_entries,
    enc_doc, enc_value_c, enc_list_items_c, enc_dict_entries_c, enc_doc_c, lemma_spaces_snoc,
    lemma_zeros_snoc, lemma_esc_append};

verus! {

broadcast use vstd::seq_lib::lemma_seq_skip_of_skip;

// ---------------------------------------------------------------------
// The blurred reading of a value, and which values round-trip.
// ---------------------------------------------------------------------
/// What a text round trip preserves of a value: exact integers come
/// back as the normalized decimal of the same value; everything else
/// is unchanged.
pub open spec fn blur(v: TotV) -> TotV
    decreases v,
{
    match v {
        TotV::IntV(x) => {
            let a = if x < 0 {
                (-x) as nat
            } else {
                x as nat
            };
            let (m, e) = norm(a, 0);
            TotV::DecV { neg: x < 0, m, e }
        },
        TotV::ListV(items) => TotV::ListV(blur_list(items)),
        TotV::DictV(kvs) => TotV::DictV(blur_dict(kvs)),
        _ => v,
    }
}

pub open spec fn blur_list(items: Seq<TotV>) -> Seq<TotV>
    decreases items,
{
    if items.len() == 0 {
        Seq::empty()
    } else {
        seq![blur(items[0])] + blur_list(items.skip(1))
    }
}

pub open spec fn blur_dict(kvs: Seq<(Seq<char>, TotV)>) -> Seq<(Seq<char>, TotV)>
    decreases kvs,
{
    if kvs.len() == 0 {
        Seq::empty()
    } else {
        seq![(kvs[0].0, blur(kvs[0].1))] + blur_dict(kvs.skip(1))
    }
}

/// A dictionary key the serializer writes bare and the parser reads
/// back as the same token: nonempty, no whitespace, no comma, no
/// slash, not opening like a string and not closing like a brace.
pub open spec fn key_ok(k: Seq<char>) -> bool {
    &&& k.len() >= 1
    &&& k[0] != '"'
    &&& k[0] != '}'
    &&& forall|i: int|
        0 <= i < k.len() ==> !is_ws(#[trigger] k[i]) && k[i] != ',' && k[i] != '/'
}

/// The values whose pretty text parses back to their blurred form:
/// no work-in-progress forms, integers within the mantissa range,
/// decimals normalized and within the finite exponent range, keys
/// writable bare, and nesting within the serializer's depth cap.
pub open spec fn rt_ok(v: TotV, ind: nat) -> bool
    decreases v,
{
    match v {
        TotV::UnitV => true,
        TotV::BoolV(_) => true,
        TotV::IntV(x) => -0x8000_0000_0000_0000 <= x <= u64::MAX,
        TotV::DecV { neg, m, e } => (m == 0 ==> e == 0) && (m > 0 ==> m % 10 != 0) && m
            <= u64::MAX && -400 <= e <= 350,
        TotV::StrV(_) => true,
        TotV::ListV(items) => ind < crate::ser::depth_cap() && rt_ok_list(items, if ind == 0 {
            2
        } else {
            (ind + 1) as nat
        }),
        TotV::DictV(kvs) => ind < crate::ser::depth_cap() && rt_ok_dict(kvs, (ind + 1) as nat),
        TotV::GenV(_) => false,
        TotV::MissingV => false,
    }
}

pub open spec fn rt_ok_list(items: Seq<TotV>, ind: nat) -> bool
    decreases items,
{
    if items.len() == 0 {
        true
    } else {
        rt_ok(items[0], ind) && rt_ok_list(items.skip(1), ind)
    }
}

pub open spec fn rt_ok_dict(kvs: Seq<(Seq<char>, TotV)>, ind: nat) -> bool
    decreases kvs,
{
    if kvs.len() == 0 {
        true
    } else {
        key_ok(kvs[0].0) && rt_ok(kvs[0].1, ind) && rt_ok_dict(kvs.skip(1), ind)
    }
}

// ---------------------------------------------------------------------
// Ignored runs around encoded tokens.
// ---------------------------------------------------------------------
/// A run of plain whitespace in front of anything is skipped.
pub proof fn lemma_skip_ws_prefix(w: Seq<char>, s: Seq<char>)
    requires
        forall|i: int| 0 <= i < w.len() ==> is_ws(#[trigger] w[i]),
    ensures
        skip_ign(w + s) == skip_ign(s),
    decreases w.len(),
{
    if w.len() == 0 {
        assert(w + s =~= s);
    } else {
        assert((w + s)[0] == w[0]);
        assert((w + s).skip(1) =~= w.skip(1) + s);
        assert(forall|i: int|
            0 <= i < w.skip(1).len() ==> is_ws(#[trigger] w.skip(1)[i]));
        lemma_skip_ws_prefix(w.skip(1), s);
        assert(skip_ign(w + s) == skip_ign((w + s).skip(1)));
    }
}

/// Spaces are whitespace.
pub proof fn lemma_spaces_ws(n: nat)
    ensures
        spaces(n).len() == n,
        forall|i: int| 0 <= i < n ==> is_ws(#[trigger] spaces(n)[i]),
    decreases n,
{
    if n > 0 {
        lemma_spaces_ws((n - 1) as nat);
        assert forall|i: int| 0 <= i < n implies is_ws(#[trigger] spaces(n)[i]) by {
            if i > 0 {
                assert(spaces(n)[i] == spaces((n - 1) as nat)[i - 1]);
            } else {
                assert(spaces(n)[0] == ' ');
            }
        }
    }
}

/// The skip stops in front of anything that opens a token.
pub proof fn lemma_skip_ign_stop(s: Seq<char>)
    requires
        s.len() > 0,
        !is_ws(s[0]),
        s[0] != ',',
        s[0] != '/',
    ensures
        skip_ign(s) == s,
{
}

/// Every character the encoder may start a value with opens a token.
pub open spec fn opens_value(c: char) -> bool {
    c == 'n' || c == 't' || c == 'f' || c == '-' || is_digit(c) || c == '"' || c == '['
        || c == '{'
}

/// The first character of any encodable value's text.
pub proof fn lemma_enc_value_head(v: TotV, ind: nat)
    requires
        rt_ok(v, ind),
        ind >= 1,
    ensures
        enc_value(v, ind).len() > 0,
        opens_value(enc_value(v, ind)[0]),
        v is IntV || v is DecV ==> enc_value(v, ind)[0] == '-' || is_digit(
            enc_value(v, ind)[0],
        ),
        v is UnitV ==> enc_value(v, ind)[0] == 'n',
        v is BoolV ==> enc_value(v, ind)[0] == 't' || enc_value(v, ind)[0] == 'f',
        v is StrV ==> enc_value(v, ind)[0] == '"',
        v is ListV ==> enc_value(v, ind)[0] == '[',
        v is DictV ==> enc_value(v, ind)[0] == '{',
{
    match v {
        TotV::UnitV => {
            assert(enc_value(v, ind)[0] == 'n');
        },
        TotV::BoolV(b) => {
            if b {
                assert(enc_value(v, ind)[0] == 't');
            } else {
                assert(enc_value(v, ind)[0] == 'f');
            }
        },
        TotV::IntV(x) => {
            lemma_dec_digits_digits((if x < 0 {
                (-x) as nat
            } else {
                x as nat
            }));
            if x < 0 {
                assert(enc_value(v, ind)[0] == '-');
            } else {
                assert(enc_value(v, ind)[0] == dec_digits(x as nat)[0]);
            }
        },
        TotV::DecV { neg, m, e } => {
            lemma_dec_digits_digits(m);
            if neg {
                assert(enc_value(v, ind)[0] == '-');
            } else if m == 0 {
                assert(enc_value(v, ind)[0] == '0');
            } else {
                let dd = dec_digits(m);
                if e >= 0 {
                    assert(enc_value(v, ind)[0] == dd[0]);
                } else if -e < dd.len() {
                    assert(dd.take(dd.len() + e).len() > 0);
                    assert(enc_value(v, ind)[0] == dd.take(dd.len() + e)[0]);
                    assert(dd.take(dd.len() + e)[0] == dd[0]);
                } else {
                    assert(enc_value(v, ind)[0] == '0');
                }
            }
        },
        TotV::StrV(t) => {
            assert(enc_value(v, ind)[0] == '"');
        },
        TotV::ListV(_) => {
            assert(enc_value(v, ind)[0] == '[');
        },
        TotV::DictV(kvs) => {
            if ind == 0 {
            } else {
                assert(enc_value(v, ind)[0] == '{');
            }
        },
        TotV::GenV(_) => {},
        TotV::MissingV => {},
    }
}

// ---------------------------------------------------------------------
// Digit strings.
// ---------------------------------------------------------------------
/// The decimal digits of a number are digits, and a nonzero number
/// does not start with a zero digit.
pub proof fn lemma_dec_digits_digits(m: nat)
    ensures
        dec_digits(m).len() >= 1,
        forall|i: int| 0 <= i < dec_digits(m).len() ==> is_digit(#[trigger] dec_digits(m)[i]),
    decreases m,
{
    if m < 10 {
        assert(dec_digits(m) == seq![digit_ch(m)]);
        assert(is_digit(digit_ch(m))) by {
            vstd::utf8::char_u32_cast(digit_ch(m), ('0' as u32 + m) as u32);
            assert(digit_ch(m) as u32 == '0' as u32 + m);
        }
    } else {
        lemma_dec_digits_digits(m / 10);
        assert(is_digit(digit_ch(m % 10))) by {
            vstd::utf8::char_u32_cast(digit_ch((m % 10) as nat), ('0' as u32 + m % 10) as u32);
        }
        assert forall|i: int|
            0 <= i < dec_digits(m).len() implies is_digit(#[trigger] dec_digits(m)[i]) by {
            if i < dec_digits(m / 10).len() {
                assert(dec_digits(m)[i] == dec_digits(m / 10)[i]);
            } else {
                assert(dec_digits(m)[i] == digit_ch((m % 10) as nat));
            }
        }
    }
}

/// The value of a digit character is its digit.
pub proof fn lemma_digit_ch_val(d: nat)
    requires
        d < 10,
    ensures
        is_digit(digit_ch(d)),
        digit_val(digit_ch(d)) == d,
{
    vstd::utf8::char_u32_cast(digit_ch(d), ('0' as u32 + d) as u32);
    assert(digit_ch(d) as u32 == '0' as u32 + d);
}

/// Reading the digits of `m` back accumulates exactly `m`.
pub proof fn lemma_acc_dec_digits(m: nat)
    requires
        m <= u64::MAX,
    ensures
        acc_dec(dec_digits(m), 0, 0) == (m, 0int),
    decreases m,
{
    if m < 10 {
        lemma_digit_ch_val(m);
        assert(dec_digits(m) == seq![digit_ch(m)]);
        assert(seq![digit_ch(m)].skip(1) =~= Seq::<char>::empty());
        assert(acc_dec(seq![digit_ch(m)], 0, 0) == acc_dec(Seq::<char>::empty(), m, 0));
    } else {
        lemma_acc_dec_digits(m / 10);
        lemma_digit_ch_val((m % 10) as nat);
        lemma_acc_dec_snoc(dec_digits(m / 10), digit_ch((m % 10) as nat), 0, 0);
        vstd::arithmetic::div_mod::lemma_fundamental_div_mod(m as int, 10);
        assert((m / 10) * 10 + (m % 10) == m);
    }
}

/// Reading hexadecimal digits back accumulates the value.
pub proof fn lemma_hex_acc_digits(u: nat)
    ensures
        hex_digits(u).len() >= 1,
        forall|i: int|
            0 <= i < hex_digits(u).len() ==> is_hex_digit(#[trigger] hex_digits(u)[i]),
        hex_acc(hex_digits(u), 0) == u,
    decreases u,
{
    if u < 16 {
        lemma_hex_ch_val(u);
        assert(hex_digits(u) == seq![hex_ch(u)]);
        assert(seq![hex_ch(u)].skip(1) =~= Seq::<char>::empty());
        assert(hex_acc(seq![hex_ch(u)], 0) == hex_acc(Seq::<char>::empty(), u));
    } else {
        lemma_hex_acc_digits(u / 16);
        lemma_hex_ch_val((u % 16) as nat);
        lemma_hex_acc_snoc(hex_digits(u / 16), hex_ch((u % 16) as nat), 0);
        vstd::arithmetic::div_mod::lemma_fundamental_div_mod(u as int, 16);
        assert((u / 16) * 16 + (u % 16) == u);
        assert forall|i: int|
            0 <= i < hex_digits(u).len() implies is_hex_digit(#[trigger] hex_digits(u)[i]) by {
            if i < hex_digits(u / 16).len() {
                assert(hex_digits(u)[i] == hex_digits(u / 16)[i]);
            } else {
                assert(hex_digits(u)[i] == hex_ch((u % 16) as nat));
            }
        }
    }
}

pub proof fn lemma_hex_ch_val(d: nat)
    requires
        d < 16,
    ensures
        is_hex_digit(hex_ch(d)),
        hex_val(hex_ch(d)) == d,
{
    if d < 10 {
        vstd::utf8::char_u32_cast(hex_ch(d), ('0' as u32 + d) as u32);
        assert(hex_ch(d) as u32 == '0' as u32 + d);
    } else {
        vstd::utf8::char_u32_cast(hex_ch(d), ('a' as u32 + d - 10) as u32);
        assert(hex_ch(d) as u32 == 'a' as u32 + d - 10);
    }
}

/// Counting digits stops where the digits stop.
pub proof fn lemma_count_digits_concat(dg: Seq<char>, rest: Seq<char>)
    requires
        forall|i: int| 0 <= i < dg.len() ==> is_digit(#[trigger] dg[i]),
        rest.len() == 0 || !is_digit(rest[0]),
    ensures
        count_digits(dg + rest) == dg.len(),
    decreases dg.len(),
{
    if dg.len() == 0 {
        assert(dg + rest =~= rest);
        if rest.len() > 0 {
            assert(count_digits(rest) == 0);
        }
    } else {
        assert((dg + rest)[0] == dg[0]);
        assert((dg + rest).skip(1) =~= dg.skip(1) + rest);
        assert(forall|i: int|
            0 <= i < dg.skip(1).len() ==> is_digit(#[trigger] dg.skip(1)[i]));
        lemma_count_digits_concat(dg.skip(1), rest);
    }
}

// ---------------------------------------------------------------------
// Accumulation over concatenations.
// ---------------------------------------------------------------------
pub proof fn lemma_acc_dec_concat(a: Seq<char>, b: Seq<char>, acc: nat, sh: int)
    ensures
        acc_dec(a + b, acc, sh) == ({
            let (a2, s2) = acc_dec(a, acc, sh);
            acc_dec(b, a2, s2)
        }),
    decreases a.len(),
{
    if a.len() == 0 {
        assert(a + b =~= b);
        assert(acc_dec(a, acc, sh) == (acc, sh));
    } else {
        assert((a + b)[0] == a[0]);
        assert((a + b).skip(1) =~= a.skip(1) + b);
        let d = digit_val(a[0]);
        if acc * 10 + d <= u64::MAX {
            lemma_acc_dec_concat(a.skip(1), b, acc * 10 + d, sh);
        } else {
            let acc2 = if sh == 0 && d >= 5 && acc < u64::MAX {
                acc + 1
            } else {
                acc
            };
            lemma_acc_dec_concat(a.skip(1), b, acc2, if sh < 1000000 {
                sh + 1
            } else {
                sh
            });
        }
    }
}

pub proof fn lemma_acc_frac_concat(a: Seq<char>, b: Seq<char>, acc: nat, fe: int)
    ensures
        acc_frac(a + b, acc, fe) == ({
            let (a2, f2) = acc_frac(a, acc, fe);
            acc_frac(b, a2, f2)
        }),
    decreases a.len(),
{
    if a.len() == 0 {
        assert(a + b =~= b);
        assert(acc_frac(a, acc, fe) == (acc, fe));
    } else {
        assert((a + b)[0] == a[0]);
        assert((a + b).skip(1) =~= a.skip(1) + b);
        let d = digit_val(a[0]);
        if acc * 10 + d <= u64::MAX {
            lemma_acc_frac_concat(a.skip(1), b, acc * 10 + d, if fe > -1000000 {
                fe - 1
            } else {
                fe
            });
        } else {
            lemma_acc_frac_concat(a.skip(1), b, acc, fe);
        }
    }
}

/// Folding a nonzero mantissa ten times bigger into a normal form
/// lands in the same place.
pub proof fn lemma_norm_shift(a: nat, e: int)
    requires
        a * 10 <= u64::MAX + 10,
    ensures
        norm(a * 10, e) == norm(a, e + 1),
{
    if a == 0 {
        assert(norm(0nat, e) == (0nat, 0int));
        assert(norm(0nat, e + 1) == (0nat, 0int));
    } else {
        assert((a * 10) % 10 == 0 && (a * 10) / 10 == a) by {
            vstd::arithmetic::div_mod::lemma_fundamental_div_mod_converse(
                (a * 10) as int,
                10,
                a as int,
                0,
            );
        }
        assert(norm(a * 10, e) == norm((a * 10) / 10, e + 1));
    }
}

/// Accumulating zeros after a value shifts its exponent account, up
/// to normal form.
pub proof fn lemma_acc_dec_zeros(m: nat, k: nat)
    requires
        m <= u64::MAX,
        k <= 1000,
    ensures
        ({
            let (a, s) = acc_dec(zeros(k), m, 0);
            &&& a <= u64::MAX
            &&& 0 <= s <= k
            &&& forall|x: int| #![trigger norm(a, x + s)] norm(a, x + s) == norm(m, x + k)
        }),
    decreases k,
{
    lemma_digit_ch_val(0);
    assert(digit_ch(0) == '0');
    if k == 0 {
        assert(acc_dec(zeros(0), m, 0) == (m, 0int));
    } else {
        // zeros(k) == seq!['0'] + zeros(k - 1)
        assert(zeros(k) == seq!['0'] + zeros((k - 1) as nat));
        assert(zeros(k)[0] == '0');
        assert(zeros(k).skip(1) =~= zeros((k - 1) as nat));
        assert(digit_val('0') == 0);
        if m * 10 <= u64::MAX {
            assert(acc_dec(zeros(k), m, 0) == acc_dec(zeros((k - 1) as nat), m * 10, 0));
            lemma_acc_dec_zeros_from(m * 10, (k - 1) as nat, 0);
            let (a, s) = acc_dec(zeros((k - 1) as nat), m * 10, 0);
            assert forall|x: int| #![trigger norm(a, x + s)] norm(a, x + s) == norm(
                m,
                x + k,
            ) by {
                assert(norm(a, x + s) == norm(m * 10, x + (k - 1)));
                lemma_norm_shift(m, x + (k - 1));
            }
        } else {
            assert(acc_dec(zeros(k), m, 0) == acc_dec(zeros((k - 1) as nat), m, 1));
            lemma_acc_dec_zeros_from(m, (k - 1) as nat, 1);
            let (a, s) = acc_dec(zeros((k - 1) as nat), m, 1);
            assert forall|x: int| #![trigger norm(a, x + s)] norm(a, x + s) == norm(
                m,
                x + k,
            ) by {
                assert(norm(a, x + s) == norm(m, x + 1 + (k - 1)));
            }
        }
    }
}

/// The generalization over a starting shift.
pub proof fn lemma_acc_dec_zeros_from(m: nat, k: nat, sh0: int)
    requires
        m <= u64::MAX,
        k <= 1000,
        0 <= sh0,
        sh0 + k <= 2000,
    ensures
        ({
            let (a, s) = acc_dec(zeros(k), m, sh0);
            &&& a <= u64::MAX
            &&& sh0 <= s <= sh0 + k
            &&& forall|x: int| #![trigger norm(a, x + s)] norm(a, x + s) == norm(
                m,
                x + sh0 + k,
            )
        }),
    decreases k,
{
    lemma_digit_ch_val(0);
    assert(digit_ch(0) == '0');
    if k == 0 {
        assert(acc_dec(zeros(0), m, sh0) == (m, sh0));
    } else {
        assert(zeros(k) == seq!['0'] + zeros((k - 1) as nat));
        assert(zeros(k)[0] == '0');
        assert(zeros(k).skip(1) =~= zeros((k - 1) as nat));
        assert(digit_val('0') == 0);
        if m * 10 <= u64::MAX {
            assert(acc_dec(zeros(k), m, sh0) == acc_dec(zeros((k - 1) as nat), m * 10, sh0));
            lemma_acc_dec_zeros_from(m * 10, (k - 1) as nat, sh0);
            let (a, s) = acc_dec(zeros((k - 1) as nat), m * 10, sh0);
            assert forall|x: int| #![trigger norm(a, x + s)] norm(a, x + s) == norm(
                m,
                x + sh0 + k,
            ) by {
                assert(norm(a, x + s) == norm(m * 10, x + sh0 + (k - 1)));
                lemma_norm_shift(m, x + sh0 + (k - 1));
            }
        } else {
            // the digit is zero, so no rounding happens on a skip
            assert(acc_dec(zeros(k), m, sh0) == acc_dec(zeros((k - 1) as nat), m, sh0 + 1));
            lemma_acc_dec_zeros_from(m, (k - 1) as nat, sh0 + 1);
            let (a, s) = acc_dec(zeros((k - 1) as nat), m, sh0 + 1);
            assert forall|x: int| #![trigger norm(a, x + s)] norm(a, x + s) == norm(
                m,
                x + sh0 + k,
            ) by {
                assert(norm(a, x + s) == norm(m, x + sh0 + 1 + (k - 1)));
            }
        }
    }
}

/// Reading a digit string back through a split: the prefix
/// accumulates without shifts, and the suffix read as fraction digits
/// recovers the whole value with one exponent step per digit.
pub proof fn lemma_digits_split(m: nat, cut: int)
    requires
        m <= u64::MAX,
        0 <= cut <= dec_digits(m).len(),
    ensures
        ({
            let dd = dec_digits(m);
            let (a, s) = acc_dec(dd.take(cut), 0, 0);
            &&& s == 0
            &&& a <= u64::MAX
            &&& forall|fe: int|
                -900000 + (dd.len() - cut) <= fe <= 0 ==> #[trigger] acc_frac(
                    dd.skip(cut),
                    a,
                    fe,
                ) == (m, fe - (dd.len() - cut))
        }),
    decreases dec_digits(m).len() - cut,
{
    let dd = dec_digits(m);
    lemma_dec_digits_digits(m);
    assert(dd.len() <= 21) by {
        lemma_dec_digits_len(m);
    }
    if cut == dd.len() {
        assert(dd.take(cut) =~= dd);
        lemma_acc_dec_digits(m);
        assert(dd.skip(cut) =~= Seq::<char>::empty());
        assert forall|fe: int|
            -900000 + (dd.len() - cut) <= fe <= 0 implies #[trigger] acc_frac(
            dd.skip(cut),
            m,
            fe,
        ) == (m, fe - (dd.len() - cut)) by {
            assert(acc_frac(Seq::<char>::empty(), m, fe) == (m, fe));
        }
    } else {
        lemma_digits_split(m, cut + 1);
        let (a1, s1) = acc_dec(dd.take(cut + 1), 0, 0);
        let (a, s) = acc_dec(dd.take(cut), 0, 0);
        let d = digit_val(dd[cut]);
        assert(dd.take(cut + 1) =~= dd.take(cut).push(dd[cut]));
        lemma_acc_dec_snoc(dd.take(cut), dd[cut], 0, 0);
        assert(s >= 0);
        // the later digits all fitted, so this one did too
        assert(s1 == 0);
        if !(a * 10 + d <= u64::MAX) {
            assert(s1 >= s + 1);
            assert(false);
        }
        assert(a1 == a * 10 + d && s == 0);
        assert(a <= a * 10 + d);
        assert forall|fe: int|
            -900000 + (dd.len() - cut) <= fe <= 0 implies #[trigger] acc_frac(
            dd.skip(cut),
            a,
            fe,
        ) == (m, fe - (dd.len() - cut)) by {
            assert(dd.skip(cut)[0] == dd[cut]);
            assert(dd.skip(cut).skip(1) =~= dd.skip(cut + 1));
            assert(acc_frac(dd.skip(cut), a, fe) == acc_frac(dd.skip(cut + 1), a * 10 + d, fe
                - 1));
            assert(acc_frac(dd.skip(cut + 1), a1, fe - 1) == (m, fe - 1 - (dd.len() - cut
                - 1)));
        }
    }
}

/// A 64-bit value has at most twenty digits.
pub proof fn lemma_dec_digits_len(m: nat)
    requires
        m <= u64::MAX,
    ensures
        1 <= dec_digits(m).len() <= 20,
{
    lemma_dec_digits_len_rec(m);
}

proof fn lemma_dec_digits_len_rec(m: nat)
    ensures
        dec_digits(m).len() >= 1,
        m < pow10(dec_digits(m).len()),
        m >= pow10((dec_digits(m).len() - 1) as nat) || m == 0,
        m <= u64::MAX ==> dec_digits(m).len() <= 20,
    decreases m,
{
    lemma_pow10_key_values();
    if m < 10 {
        assert(dec_digits(m).len() == 1);
        assert(pow10(0) == 1);
        assert(pow10(1) == 10 * pow10(0));
    } else {
        lemma_dec_digits_len_rec(m / 10);
        let n = dec_digits(m / 10).len();
        assert(dec_digits(m).len() == n + 1);
        vstd::arithmetic::div_mod::lemma_fundamental_div_mod(m as int, 10);
        assert(m == 10 * (m / 10) + m % 10);
        assert(m / 10 < pow10(n));
        assert(pow10(n + 1) == 10 * pow10(n));
        assert(m < pow10(n + 1)) by {
            assert(m / 10 + 1 <= pow10(n));
            vstd::arithmetic::mul::lemma_mul_inequality(
                (m / 10 + 1) as int,
                pow10(n) as int,
                10,
            );
        }
        assert(m / 10 >= pow10((n - 1) as nat));
        assert(m >= pow10(n)) by {
            vstd::arithmetic::mul::lemma_mul_inequality(
                pow10((n - 1) as nat) as int,
                (m / 10) as int,
                10,
            );
            assert(pow10(n) == 10 * pow10((n - 1) as nat));
        }
        if m <= u64::MAX {
            if n + 1 > 20 {
                lemma_pow10_mono(20, n);
                assert(m >= pow10(n) >= pow10(20));
                assert(false);
            }
        }
    }
}

/// Zeros are zero digits.
pub proof fn lemma_zeros_digits(k: nat)
    ensures
        zeros(k).len() == k,
        forall|i: int| 0 <= i < k ==> #[trigger] zeros(k)[i] == '0',
    decreases k,
{
    if k > 0 {
        lemma_zeros_digits((k - 1) as nat);
        assert forall|i: int| 0 <= i < k implies #[trigger] zeros(k)[i] == '0' by {
            if i > 0 {
                assert(zeros(k)[i] == zeros((k - 1) as nat)[i - 1]);
            } else {
                assert(zeros(k)[0] == '0');
            }
        }
    }
}

/// Fraction zeros from a zero value only lower the exponent.
pub proof fn lemma_acc_frac_zeros(z: nat, fe0: int)
    requires
        fe0 - z > -1000000,
        fe0 <= 0,
    ensures
        acc_frac(zeros(z), 0, fe0) == (0nat, fe0 - z),
    decreases z,
{
    lemma_digit_ch_val(0);
    if z > 0 {
        assert(zeros(z) == seq!['0'] + zeros((z - 1) as nat));
        assert(zeros(z)[0] == '0');
        assert(zeros(z).skip(1) =~= zeros((z - 1) as nat));
        assert(digit_val('0') == 0);
        assert(acc_frac(zeros(z), 0, fe0) == acc_frac(zeros((z - 1) as nat), 0, fe0 - 1));
        lemma_acc_frac_zeros((z - 1) as nat, fe0 - 1);
    }
}

/// Normalizing a 64-bit mantissa raises the exponent by at most the
/// digit count.
pub proof fn lemma_norm_exp_bound(a: nat, k: int)
    requires
        a <= u64::MAX,
        k >= 0,
    ensures
        k <= norm(a, k).1 <= k + 19 || a == 0,
        norm(a, k).0 <= a,
        a == 0 ==> norm(a, k) == (0nat, 0int),
    decreases a,
{
    lemma_norm_keeps_value(a, k);
    if a > 0 {
        let (n0, n1) = norm(a, k);
        lemma_pow10_key_values();
        if n1 - k >= 20 {
            lemma_pow10_mono(20, (n1 - k) as nat);
            vstd::arithmetic::mul::lemma_mul_inequality(
                1,
                n0 as int,
                pow10((n1 - k) as nat) as int,
            );
            assert(a >= pow10((n1 - k) as nat));
            assert(false);
        }
        vstd::arithmetic::mul::lemma_mul_inequality(1, pow10((n1 - k) as nat) as int, n0 as int);
        crate::num::lemma_pow10_pos((n1 - k) as nat);
        assert(n0 * 1 <= n0 * pow10((n1 - k) as nat)) by {
            vstd::arithmetic::mul::lemma_mul_inequality(
                1,
                pow10((n1 - k) as nat) as int,
                n0 as int,
            );
            vstd::arithmetic::mul::lemma_mul_is_commutative(n0 as int, 1);
            vstd::arithmetic::mul::lemma_mul_is_commutative(
                n0 as int,
                pow10((n1 - k) as nat) as int,
            );
        }
    }
}

/// What follows a number's text so that the number ends there.
pub open spec fn delim_follows(rest: Seq<char>) -> bool {
    rest.len() == 0 || (!is_digit(rest[0]) && rest[0] != 'e' && rest[0] != 'E' && rest[0]
        != '.')
}

/// Parsing `sign digits zeros . 0` back gives the normalized decimal
/// of the written value.
#[verifier::rlimit(100)]
pub proof fn lemma_parse_plain_number(neg: bool, a: nat, k: nat, rest: Seq<char>)
    requires
        a <= u64::MAX,
        k <= 350,
        norm(a, k as int).1 <= 350,
        delim_follows(rest),
    ensures
        ({
            let sign: Seq<char> = if neg {
                seq!['-']
            } else {
                Seq::empty()
            };
            let text = sign + dec_digits(a) + zeros(k) + seq!['.', '0'] + rest;
            p_number(text) == Some(
                (
                    TotV::DecV { neg, m: norm(a, k as int).0, e: norm(a, k as int).1 },
                    rest,
                ),
            )
        }),
{
    let sign: Seq<char> = if neg {
        seq!['-']
    } else {
        Seq::empty()
    };
    let dd = dec_digits(a);
    let dg = dd + zeros(k);
    let text = sign + dd + zeros(k) + seq!['.', '0'] + rest;
    lemma_dec_digits_digits(a);
    lemma_zeros_digits(k);
    lemma_digit_ch_val(0);

    // the sign
    if neg {
        assert(text[0] == '-');
    } else {
        assert(text[0] == dd[0]);
        assert(is_digit(text[0]));
    }
    let s1 = if neg {
        text.skip(1)
    } else {
        text
    };
    assert(s1 =~= dg + (seq!['.', '0'] + rest));

    // the digit run
    assert(forall|i: int|
        0 <= i < dg.len() ==> is_digit(#[trigger] dg[i])) by {
        assert forall|i: int| 0 <= i < dg.len() implies is_digit(#[trigger] dg[i]) by {
            if i < dd.len() {
                assert(dg[i] == dd[i]);
            } else {
                assert(dg[i] == zeros(k)[i - dd.len()]);
                assert(dg[i] == '0');
            }
        }
    }
    lemma_count_digits_concat(dg, seq!['.', '0'] + rest);
    assert((seq!['.', '0'] + rest)[0] == '.');
    let nd = count_digits(s1);
    assert(nd == dg.len());
    assert(s1.take(nd) =~= dg);
    let s2 = s1.skip(nd);
    assert(s2 =~= seq!['.', '0'] + rest);
    assert(s2[0] == '.');

    // the fraction
    let s3 = s2.skip(1);
    assert(s3 =~= seq!['0'] + rest);
    lemma_count_digits_concat(seq!['0'], rest);
    assert(count_digits(s3) == 1);
    assert(s3.take(1) =~= seq!['0']);
    let s4 = s3.skip(1);
    assert(s4 =~= rest);

    // no exponent clause
    assert(exp_lex_len(s4) == 0);

    // the accumulated value
    lemma_acc_dec_concat(dd, zeros(k), 0, 0);
    lemma_acc_dec_digits(a);
    lemma_acc_dec_zeros(a, k);
    let (av, sv) = acc_dec(zeros(k), a, 0);
    assert(acc_dec(s1.take(nd), 0, 0) == (av, sv));
    assert(norm(av, 0 + sv) == norm(a, 0 + k as int));

    assert(seq!['0'][0] == '0' && digit_val('0') == 0);
    assert(seq!['0'].skip(1) =~= Seq::<char>::empty());
    let (m2, fe) = acc_frac(seq!['0'], av, 0);
    if av * 10 <= u64::MAX {
        assert(acc_frac(seq!['0'], av, 0) == acc_frac(seq!['0'].skip(1), av * 10, -1));
        assert(acc_frac(Seq::<char>::empty(), av * 10, -1) == (av * 10, -1int));
        assert((m2, fe) == (av * 10, -1int));
        lemma_norm_shift(av, sv - 1);
        assert(norm(m2, sv + fe) == norm(av, sv));
    } else {
        assert(acc_frac(seq!['0'], av, 0) == acc_frac(seq!['0'].skip(1), av, 0));
        assert(acc_frac(Seq::<char>::empty(), av, 0) == (av, 0int));
        assert((m2, fe) == (av, 0int));
    }
    assert(norm(m2, sv + fe + 0) == norm(a, k as int));

    crate::parser::lemma_p_number_eval(
        text,
        neg,
        s1,
        nd,
        s2,
        true,
        s3,
        1,
        s4,
        0,
        av,
        sv,
        m2,
        fe,
        0,
    );
    // the decimal is within range, so the build succeeds
    let (mn, en) = norm(a, k as int);
    lemma_norm_exp_bound(a, k as int);
    assert(mk_dec(neg, m2, sv + fe + 0, s4) == Some(
        (TotV::DecV { neg, m: mn, e: en }, s4),
    ));
}

/// Parsing the text of an integer value back gives its blurred form.
pub proof fn lemma_parse_enc_int(x: int, rest: Seq<char>)
    requires
        -0x8000_0000_0000_0000 <= x <= u64::MAX,
        delim_follows(rest),
    ensures
        p_number(enc_int(x) + rest) == Some((blur(TotV::IntV(x)), rest)),
{
    let a = if x < 0 {
        (-x) as nat
    } else {
        x as nat
    };
    lemma_norm_exp_bound(a, 0);
    lemma_parse_plain_number(x < 0, a, 0, rest);
    assert(enc_int(x) + rest =~= (if x < 0 {
        seq!['-']
    } else {
        Seq::<char>::empty()
    }) + dec_digits(a) + zeros(0) + seq!['.', '0'] + rest);
}

/// Parsing the text of a normalized decimal back gives it unchanged.
#[verifier::rlimit(100)]
pub proof fn lemma_parse_enc_dec(neg: bool, m: nat, e: int, rest: Seq<char>)
    requires
        m == 0 ==> e == 0,
        m > 0 ==> m % 10 != 0,
        m <= u64::MAX,
        -400 <= e <= 350,
        delim_follows(rest),
    ensures
        p_number(enc_dec(neg, m, e) + rest) == Some((TotV::DecV { neg, m, e }, rest)),
{
    let dd = dec_digits(m);
    lemma_dec_digits_digits(m);
    lemma_dec_digits_len(m);
    if m > 0 && e < 0 && -e < dd.len() {
        lemma_parse_enc_dec_mid(neg, m, e, rest);
    } else if m > 0 && e < 0 {
        lemma_parse_enc_dec_deep(neg, m, e, rest);
    } else {
        lemma_parse_enc_dec_plain(neg, m, e, rest);
    }
}

/// The zero and nonnegative-exponent forms.
#[verifier::rlimit(100)]
proof fn lemma_parse_enc_dec_plain(neg: bool, m: nat, e: int, rest: Seq<char>)
    requires
        m == 0 ==> e == 0,
        m > 0 ==> m % 10 != 0,
        m <= u64::MAX,
        0 <= e <= 350,
        delim_follows(rest),
    ensures
        p_number(enc_dec(neg, m, e) + rest) == Some((TotV::DecV { neg, m, e }, rest)),
{
    let sign: Seq<char> = if neg {
        seq!['-']
    } else {
        Seq::empty()
    };
    let dd = dec_digits(m);
    lemma_dec_digits_digits(m);
    lemma_dec_digits_len(m);
    if m == 0 {
        assert(dec_digits(0) == seq![digit_ch(0)]);
        lemma_digit_ch_val(0);
        assert(enc_dec(neg, m, e) + rest =~= sign + dec_digits(0) + zeros(0) + seq!['.', '0']
            + rest);
        lemma_parse_plain_number(neg, 0, 0, rest);
        assert(norm(0nat, 0int) == (0nat, 0int));
    } else {
        assert(enc_dec(neg, m, e) + rest =~= sign + dd + zeros(e as nat) + seq!['.', '0']
            + rest);
        lemma_parse_plain_number(neg, m, e as nat, rest);
        assert(norm(m, e) == (m, e));
    }
}

/// The form with the point inside the digits.
#[verifier::rlimit(100)]
proof fn lemma_parse_enc_dec_mid(neg: bool, m: nat, e: int, rest: Seq<char>)
    requires
        m > 0,
        m % 10 != 0,
        m <= u64::MAX,
        -400 <= e < 0,
        -e < dec_digits(m).len(),
        delim_follows(rest),
    ensures
        p_number(enc_dec(neg, m, e) + rest) == Some((TotV::DecV { neg, m, e }, rest)),
{
    let sign: Seq<char> = if neg {
        seq!['-']
    } else {
        Seq::empty()
    };
    let dd = dec_digits(m);
    lemma_dec_digits_digits(m);
    lemma_dec_digits_len(m);
    {
        // the point sits inside the digits
        let cut = dd.len() + e;
        let text = enc_dec(neg, m, e) + rest;
        assert(text =~= sign + (dd.take(cut) + (seq!['.'] + (dd.skip(cut) + rest))));
        if neg {
            assert(text[0] == '-');
        } else {
            assert(text[0] == dd.take(cut)[0]);
            assert(dd.take(cut)[0] == dd[0]);
            assert(is_digit(text[0]));
        }
        let s1 = if neg {
            text.skip(1)
        } else {
            text
        };
        assert(s1 =~= dd.take(cut) + (seq!['.'] + (dd.skip(cut) + rest)));
        assert(forall|i: int|
            0 <= i < dd.take(cut).len() ==> is_digit(#[trigger] dd.take(cut)[i]));
        lemma_count_digits_concat(dd.take(cut), seq!['.'] + (dd.skip(cut) + rest));
        let nd = count_digits(s1);
        assert(nd == cut);
        assert(s1.take(nd) =~= dd.take(cut));
        let s2 = s1.skip(nd);
        assert(s2 =~= seq!['.'] + (dd.skip(cut) + rest));
        assert(s2[0] == '.');
        let s3 = s2.skip(1);
        assert(s3 =~= dd.skip(cut) + rest);
        assert(forall|i: int|
            0 <= i < dd.skip(cut).len() ==> is_digit(#[trigger] dd.skip(cut)[i]));
        lemma_count_digits_concat(dd.skip(cut), rest);
        let nf = count_digits(s3);
        assert(nf == dd.len() - cut);
        assert(s3.take(nf) =~= dd.skip(cut));
        let s4 = s3.skip(nf);
        assert(s4 =~= rest);
        assert(exp_lex_len(s4) == 0);
        lemma_digits_split(m, cut);
        let (a, sv) = acc_dec(dd.take(cut), 0, 0);
        assert(sv == 0);
        assert(acc_frac(dd.skip(cut), a, 0) == (m, 0 - (dd.len() - cut)));
        crate::parser::lemma_p_number_eval(
            text,
            neg,
            s1,
            nd,
            s2,
            true,
            s3,
            nf,
            s4,
            0,
            a,
            0,
            m,
            e,
            0,
        );
        assert(norm(m, e) == (m, e));
        assert(mk_dec(neg, m, 0 + e + 0, s4) == Some((TotV::DecV { neg, m, e }, s4)));
    }
}

/// The form below one: a leading zero, the point, padding zeros, the
/// digits.
#[verifier::rlimit(100)]
proof fn lemma_parse_enc_dec_deep(neg: bool, m: nat, e: int, rest: Seq<char>)
    requires
        m > 0,
        m % 10 != 0,
        m <= u64::MAX,
        -400 <= e < 0,
        -e >= dec_digits(m).len(),
        delim_follows(rest),
    ensures
        p_number(enc_dec(neg, m, e) + rest) == Some((TotV::DecV { neg, m, e }, rest)),
{
    let sign: Seq<char> = if neg {
        seq!['-']
    } else {
        Seq::empty()
    };
    let dd = dec_digits(m);
    lemma_dec_digits_digits(m);
    lemma_dec_digits_len(m);
    {
        // a leading zero, the point, padding zeros, then the digits
        let z = (-e - dd.len()) as nat;
        let text = enc_dec(neg, m, e) + rest;
        lemma_zeros_digits(z);
        lemma_digit_ch_val(0);
        assert(text =~= sign + (seq!['0'] + (seq!['.'] + ((zeros(z) + dd) + rest))));
        if neg {
            assert(text[0] == '-');
        } else {
            assert(text[0] == '0');
        }
        let s1 = if neg {
            text.skip(1)
        } else {
            text
        };
        assert(s1 =~= seq!['0'] + (seq!['.'] + ((zeros(z) + dd) + rest)));
        lemma_count_digits_concat(seq!['0'], seq!['.'] + ((zeros(z) + dd) + rest));
        let nd = count_digits(s1);
        assert(nd == 1);
        assert(s1.take(1) =~= seq!['0']);
        let s2 = s1.skip(1);
        assert(s2 =~= seq!['.'] + ((zeros(z) + dd) + rest));
        assert(s2[0] == '.');
        let s3 = s2.skip(1);
        assert(s3 =~= (zeros(z) + dd) + rest);
        assert(forall|i: int|
            0 <= i < (zeros(z) + dd).len() ==> is_digit(#[trigger] (zeros(z) + dd)[i]))
            by {
            assert forall|i: int|
                0 <= i < (zeros(z) + dd).len() implies is_digit(
                #[trigger] (zeros(z) + dd)[i],
            ) by {
                if i < zeros(z).len() {
                    assert((zeros(z) + dd)[i] == zeros(z)[i]);
                    assert(zeros(z)[i] == '0');
                } else {
                    assert((zeros(z) + dd)[i] == dd[i - zeros(z).len()]);
                }
            }
        }
        lemma_count_digits_concat(zeros(z) + dd, rest);
        let nf = count_digits(s3);
        assert(nf == z + dd.len());
        assert(s3.take(nf) =~= zeros(z) + dd);
        let s4 = s3.skip(nf);
        assert(s4 =~= rest);
        assert(exp_lex_len(s4) == 0);
        assert(seq!['0'].skip(1) =~= Seq::<char>::empty());
        assert(acc_dec(seq!['0'], 0, 0) == (0nat, 0int)) by {
            assert(digit_val('0') == 0);
            assert(acc_dec(seq!['0'], 0, 0) == acc_dec(seq!['0'].skip(1), 0, 0));
        }
        lemma_acc_frac_concat(zeros(z), dd, 0, 0);
        lemma_acc_frac_zeros(z, 0);
        lemma_digits_split(m, 0);
        assert(dd.take(0) =~= Seq::<char>::empty());
        assert(acc_dec(dd.take(0), 0, 0) == (0nat, 0int));
        assert(dd.skip(0) =~= dd);
        assert(-900000 + dd.len() <= -(z as int) <= 0);
        assert(acc_frac(dd, 0, -(z as int)) == (m, -(z as int) - dd.len()));
        assert(acc_frac(zeros(z) + dd, 0, 0) == (m, e));
        crate::parser::lemma_p_number_eval(
            text,
            neg,
            s1,
            1,
            s2,
            true,
            s3,
            nf,
            s4,
            0,
            0,
            0,
            m,
            e,
            0,
        );
        assert(norm(m, e) == (m, e));
        assert(mk_dec(neg, m, 0 + e + 0, s4) == Some((TotV::DecV { neg, m, e }, s4)));
    }
}

/// Counting hex digits stops where they stop.
pub proof fn lemma_count_hex_concat(dg: Seq<char>, rest: Seq<char>)
    requires
        forall|i: int| 0 <= i < dg.len() ==> is_hex_digit(#[trigger] dg[i]),
        rest.len() == 0 || !is_hex_digit(rest[0]),
    ensures
        count_hex(dg + rest) == dg.len(),
    decreases dg.len(),
{
    if dg.len() == 0 {
        assert(dg + rest =~= rest);
        if rest.len() > 0 {
            assert(count_hex(rest) == 0);
        }
    } else {
        assert((dg + rest)[0] == dg[0]);
        assert((dg + rest).skip(1) =~= dg.skip(1) + rest);
        assert(forall|i: int|
            0 <= i < dg.skip(1).len() ==> is_hex_digit(#[trigger] dg.skip(1)[i]));
        lemma_count_hex_concat(dg.skip(1), rest);
    }
}

/// Counting non-whitespace stops at the first whitespace.
pub proof fn lemma_count_non_ws_concat(a: Seq<char>, rest: Seq<char>)
    requires
        forall|i: int| 0 <= i < a.len() ==> !is_ws(#[trigger] a[i]),
        rest.len() > 0 && is_ws(rest[0]),
    ensures
        count_non_ws(a + rest) == a.len(),
    decreases a.len(),
{
    if a.len() == 0 {
        assert(a + rest =~= rest);
        assert(count_non_ws(rest) == 0);
    } else {
        assert((a + rest)[0] == a[0]);
        assert((a + rest).skip(1) =~= a.skip(1) + rest);
        assert(forall|i: int|
            0 <= i < a.skip(1).len() ==> !is_ws(#[trigger] a.skip(1)[i]));
        lemma_count_non_ws_concat(a.skip(1), rest);
    }
}

/// Decoding an escaped string body gives the original content back.
#[verifier::rlimit(100)]
pub proof fn lemma_parse_esc(t: Seq<char>, rest: Seq<char>)
    ensures
        p_strbody(esc_str(t) + seq!['"'] + rest) == Some((t, rest)),
    decreases t.len(),
{
    let s = esc_str(t) + seq!['"'] + rest;
    if t.len() == 0 {
        assert(esc_str(t) == Seq::<char>::empty());
        assert(s =~= seq!['"'] + rest);
        assert(s[0] == '"');
        assert(s.skip(1) =~= rest);
        assert(p_strbody(s) == Some((Seq::<char>::empty(), rest)));
        assert(t =~= Seq::<char>::empty());
    } else {
        let c = t[0];
        let head: Seq<char> = if needs_esc(c) {
            esc_char(c)
        } else {
            seq![c]
        };
        assert(esc_str(t) == head + esc_str(t.skip(1)));
        let srest = esc_str(t.skip(1)) + seq!['"'] + rest;
        assert(s =~= head + srest);
        lemma_parse_esc(t.skip(1), rest);
        if !needs_esc(c) {
            assert(s[0] == c);
            assert(c != '"' && c != '\\');
            assert(s.skip(1) =~= srest);
            assert(p_strbody(s) == cons_str(c, p_strbody(s.skip(1))));
            assert(seq![c] + t.skip(1) =~= t);
        } else if c == '"' || c == '\\' || c == '\n' || c == '\r' || c == '\t' || c
            == '\u{08}' || c == '\u{0C}' {
            assert(s[0] == '\\');
            assert(s[1] == head[1]);
            assert(s.skip(2) =~= srest);
            assert(p_strbody(s) == cons_str(c, p_strbody(s.skip(2))));
            assert(seq![c] + t.skip(1) =~= t);
        } else {
            // a control character written as a unicode escape
            let u = (c as u32) as nat;
            let hd = hex_digits(u);
            lemma_hex_acc_digits(u);
            assert(head =~= seq!['\\', 'u', '{'] + hd + seq!['}']);
            assert(hd.len() <= 2) by {
                if u >= 16 {
                    assert(u / 16 == 1);
                    assert(hex_digits(u) == hex_digits(1).push(hex_ch((u % 16) as nat)));
                    assert(hex_digits(1) == seq![hex_ch(1)]);
                }
            }
            assert(s[0] == '\\' && s[1] == 'u' && s[2] == '{');
            assert(s.skip(3) =~= hd + (seq!['}'] + srest));
            assert(!is_hex_digit('}'));
            lemma_count_hex_concat(hd, seq!['}'] + srest);
            let h = count_hex(s.skip(3));
            assert(h == hd.len());
            let hn = if h > 6 {
                6int
            } else {
                h
            };
            assert(hn == hd.len());
            assert(s.len() > 3 + hn);
            assert(s[3 + hn] == (seq!['}'] + srest)[0]);
            assert(s[3 + hn] == '}');
            assert(s.skip(3).take(hn) =~= hd);
            assert(hex_acc(s.skip(3).take(hn), 0) == u);
            assert(u < 0x20);
            vstd::utf8::char_u32_cast(c, c as u32);
            assert((u as u32) as char == c);
            assert(s.skip(4 + hn) =~= srest);
            assert(p_strbody(s) == cons_str(c, p_strbody(s.skip(4 + hn))));
            assert(seq![c] + t.skip(1) =~= t);
        }
    }
}

/// Parsing an encoded string literal gives the content back.
pub proof fn lemma_parse_enc_str(t: Seq<char>, rest: Seq<char>)
    ensures
        p_string(enc_str(t) + rest) == Some((t, rest)),
{
    let s = enc_str(t) + rest;
    assert(s =~= seq!['"'] + (esc_str(t) + seq!['"'] + rest));
    assert(s[0] == '"');
    assert(s.skip(1) =~= esc_str(t) + seq!['"'] + rest);
    lemma_parse_esc(t, rest);
}

/// A bare key followed by whitespace reads back as itself.
pub proof fn lemma_parse_key_bare(k: Seq<char>, rest: Seq<char>)
    requires
        key_ok(k),
        rest.len() > 0 && is_ws(rest[0]),
    ensures
        p_key(k + rest) == Some((k, rest)),
{
    let s = k + rest;
    assert(s[0] == k[0]);
    assert(s[0] != '"');
    assert(p_string(s) is None);
    assert(forall|i: int| 0 <= i < k.len() ==> !is_ws(#[trigger] k[i]));
    lemma_count_non_ws_concat(k, rest);
    assert(count_non_ws(s) == k.len());
    assert(s.take(k.len() as int) =~= k);
    assert(s.skip(k.len() as int) =~= rest);
}

/// A value-opening character is not ignored input and closes nothing.
pub proof fn lemma_opens_value_stops(c: char)
    requires
        opens_value(c),
    ensures
        !is_ws(c),
        c != ',',
        c != '/',
        c != ']',
        c != '}',
{
}

/// Parsing the pretty text of a value written inside a document gives
/// its blurred form, consuming exactly that text.
#[verifier::rlimit(100)]
pub proof fn lemma_scalar_round_trip(v: TotV, ind: nat, rest: Seq<char>)
    requires
        rt_ok(v, ind),
        ind >= 1,
        rest.len() > 0 && is_ws(rest[0]),
    ensures
        p_scalar(enc_value(v, ind) + rest) == Some((blur(v), rest)),
    decreases v, 0int,
{
    let s = enc_value(v, ind) + rest;
    lemma_enc_value_head(v, ind);
    assert(s[0] == enc_value(v, ind)[0]);
    match v {
        TotV::UnitV => {
            assert(s =~= seq!['n', 'u', 'l', 'l'] + rest);
            assert(s[0] == 'n' && s[1] == 'u' && s[2] == 'l' && s[3] == 'l');
            assert(s.skip(4) =~= rest);
            assert(p_unit(s) == Some(rest));
        },
        TotV::BoolV(b) => {
            if b {
                assert(s =~= seq!['t', 'r', 'u', 'e'] + rest);
                assert(s[0] == 't' && s[1] == 'r' && s[2] == 'u' && s[3] == 'e');
                assert(s.skip(4) =~= rest);
                assert(p_bool(s) == Some((true, rest)));
            } else {
                assert(s =~= seq!['f', 'a', 'l', 's', 'e'] + rest);
                assert(s[0] == 'f' && s[1] == 'a' && s[2] == 'l' && s[3] == 's' && s[4]
                    == 'e');
                assert(s.skip(5) =~= rest);
                assert(p_bool(s) == Some((false, rest)));
            }
            assert(p_unit(s) is None);
        },
        TotV::IntV(x) => {
            assert(s[0] == '-' || is_digit(s[0]));
            assert(s[0] != 'n' && s[0] != 't' && s[0] != 'f');
            assert(p_unit(s) is None && p_bool(s) is None);
            lemma_parse_enc_int(x, rest);
            assert(s == enc_int(x) + rest);
        },
        TotV::DecV { neg, m, e } => {
            assert(s[0] == '-' || is_digit(s[0]));
            assert(s[0] != 'n' && s[0] != 't' && s[0] != 'f');
            assert(p_unit(s) is None && p_bool(s) is None);
            lemma_parse_enc_dec(neg, m, e, rest);
            assert(s == enc_dec(neg, m, e) + rest);
            assert(blur(v) == v);
        },
        TotV::StrV(t) => {
            assert(s[0] == '"');
            assert(s[0] != 'n' && s[0] != 't' && s[0] != 'f');
            assert(p_unit(s) is None && p_bool(s) is None);
            assert(p_number(s) is None) by {
                assert(s.skip(0) =~= s);
                assert(count_digits(s) == 0);
                assert(s[0] != '.');
            }
            lemma_parse_enc_str(t, rest);
            assert(s == enc_str(t) + rest);
        },
        TotV::ListV(items) => {
            assert(s[0] == '[');
            assert(s[0] != 'n' && s[0] != 't' && s[0] != 'f');
            assert(p_unit(s) is None && p_bool(s) is None);
            assert(p_number(s) is None) by {
                assert(s.skip(0) =~= s);
                assert(count_digits(s) == 0);
                assert(s[0] != '.');
            }
            assert(p_string(s) is None);
            let inner = (ind + 1) as nat;
            let pad: nat = if ind <= 1 {
                0
            } else {
                4 * ((ind - 1) as nat)
            };
            let close: Seq<char> = if ind <= 1 {
                Seq::empty()
            } else {
                spaces(4 * ((ind - 1) as nat))
            };
            assert(close =~= spaces(pad)) by {
                if ind <= 1 {
                    assert(spaces(0) =~= Seq::<char>::empty());
                }
            }
            assert(s.skip(1) =~= seq!['\n'] + enc_list_items(items, inner) + spaces(pad)
                + seq![']'] + rest);
            assert(decreases_to!(v => v->ListV_0));
            lemma_list_items_round_trip(items, inner, seq!['\n'], pad, rest);
            let r = seq![']'] + rest;
            assert(p_list_items(s.skip(1)) == Some((blur_list(items), r)));
            assert(r[0] == ']');
            assert(r.skip(1) =~= rest);
            assert(p_scalar(s) == Some((TotV::ListV(blur_list(items)), rest)));
        },
        TotV::DictV(kvs) => {
            assert(s[0] == '{');
            assert(s[0] != 'n' && s[0] != 't' && s[0] != 'f');
            assert(p_unit(s) is None && p_bool(s) is None);
            assert(p_number(s) is None) by {
                assert(s.skip(0) =~= s);
                assert(count_digits(s) == 0);
                assert(s[0] != '.');
            }
            assert(p_string(s) is None);
            let inner = (ind + 1) as nat;
            let pad: nat = if ind <= 1 {
                0
            } else {
                4 * ((ind - 1) as nat)
            };
            let close: Seq<char> = if ind <= 1 {
                Seq::empty()
            } else {
                spaces(4 * ((ind - 1) as nat))
            };
            assert(close =~= spaces(pad)) by {
                if ind <= 1 {
                    assert(spaces(0) =~= Seq::<char>::empty());
                }
            }
            let tail = spaces(pad) + seq!['}'] + rest;
            assert(s.skip(1) =~= seq!['\n'] + enc_dict_entries(kvs, inner) + tail);
            assert(skip_ign(tail) == seq!['}'] + rest) by {
                lemma_spaces_ws(pad);
                lemma_skip_ws_prefix(spaces(pad), seq!['}'] + rest);
                assert(tail =~= spaces(pad) + (seq!['}'] + rest));
                assert((seq!['}'] + rest)[0] == '}');
                lemma_skip_ign_stop(seq!['}'] + rest);
            }
            assert(decreases_to!(v => v->DictV_0));
            lemma_dict_items_round_trip(kvs, inner, seq!['\n'], tail);
            let r = seq!['}'] + rest;
            assert(p_dict_items(s.skip(1)) == Some((blur_dict(kvs), r)));
            assert(r[0] == '}');
            assert(r.skip(1) =~= rest);
            assert(p_scalar(s) == Some((TotV::DictV(blur_dict(kvs)), rest)));
        },
        TotV::GenV(_) => {},
        TotV::MissingV => {},
    }
}

/// Parsing the lines of an encoded list gives the blurred items,
/// stopping in front of the closing bracket.
#[verifier::rlimit(100)]
pub proof fn lemma_list_items_round_trip(
    items: Seq<TotV>,
    ind2: nat,
    lead: Seq<char>,
    pad: nat,
    rest2: Seq<char>,
)
    requires
        rt_ok_list(items, ind2),
        ind2 >= 1,
        forall|i: int| 0 <= i < lead.len() ==> is_ws(#[trigger] lead[i]),
    ensures
        p_list_items(lead + enc_list_items(items, ind2) + spaces(pad) + seq![']'] + rest2)
            == Some((blur_list(items), seq![']'] + rest2)),
    decreases items, 1int,
{
    let text = lead + enc_list_items(items, ind2) + spaces(pad) + seq![']'] + rest2;
    lemma_spaces_ws(pad);
    if items.len() == 0 {
        assert(enc_list_items(items, ind2) == Seq::<char>::empty());
        let w = lead + spaces(pad);
        assert(forall|i: int| 0 <= i < w.len() ==> is_ws(#[trigger] w[i])) by {
            assert forall|i: int| 0 <= i < w.len() implies is_ws(#[trigger] w[i]) by {
                if i < lead.len() {
                    assert(w[i] == lead[i]);
                } else {
                    assert(w[i] == spaces(pad)[i - lead.len()]);
                }
            }
        }
        assert(text =~= w + (seq![']'] + rest2));
        lemma_skip_ws_prefix(w, seq![']'] + rest2);
        assert((seq![']'] + rest2)[0] == ']');
        lemma_skip_ign_stop(seq![']'] + rest2);
        let s1 = skip_ign(text);
        assert(s1 == seq![']'] + rest2);
        lemma_skip_ign_len(text);
        assert(s1[0] == ']');
        assert(blur_list(items) == Seq::<TotV>::empty());
        assert(p_list_items(text) == Some((blur_list(items), s1)));
    } else {
        let head = items[0];
        let env = enc_value(head, ind2);
        let w = lead + spaces(4 * ((ind2 - 1) as nat));
        let tail_items = enc_list_items(items.skip(1), ind2) + spaces(pad) + seq![']']
            + rest2;
        let rr = seq!['\n'] + tail_items;
        assert(text =~= w + (env + rr));
        assert(forall|i: int| 0 <= i < w.len() ==> is_ws(#[trigger] w[i])) by {
            lemma_spaces_ws(4 * ((ind2 - 1) as nat));
            assert forall|i: int| 0 <= i < w.len() implies is_ws(#[trigger] w[i]) by {
                if i < lead.len() {
                    assert(w[i] == lead[i]);
                } else {
                    assert(w[i] == spaces(4 * ((ind2 - 1) as nat))[i - lead.len()]);
                }
            }
        }
        lemma_skip_ws_prefix(w, env + rr);
        lemma_enc_value_head(head, ind2);
        assert((env + rr)[0] == env[0]);
        lemma_opens_value_stops(env[0]);
        lemma_skip_ign_stop(env + rr);
        let s1 = skip_ign(text);
        assert(s1 == env + rr);
        lemma_skip_ign_len(text);
        assert(s1.len() > 0 && s1[0] != ']');
        assert(rr[0] == '\n' && is_ws('\n'));
        assert(decreases_to!(items => items[0]));
        lemma_scalar_round_trip(head, ind2, rr);
        assert(p_scalar(s1) == Some((blur(head), rr)));
        assert(rr.len() < text.len());
        lemma_list_items_round_trip(items.skip(1), ind2, seq!['\n'], pad, rest2);
        assert(seq!['\n'] + enc_list_items(items.skip(1), ind2) + spaces(pad) + seq![']']
            + rest2 =~= rr);
        assert(p_list_items(rr) == Some((blur_list(items.skip(1)), seq![']'] + rest2)));
        assert(blur_list(items) == seq![blur(head)] + blur_list(items.skip(1)));
        assert(p_list_items(text) == Some((blur_list(items), seq![']'] + rest2)));
    }
}

/// Parsing the lines of an encoded dictionary body gives the blurred
/// entries, stopping at the tail.
#[verifier::rlimit(100)]
pub proof fn lemma_dict_items_round_trip(
    kvs: Seq<(Seq<char>, TotV)>,
    ind2: nat,
    lead: Seq<char>,
    tail: Seq<char>,
)
    requires
        rt_ok_dict(kvs, ind2),
        ind2 >= 1,
        forall|i: int| 0 <= i < lead.len() ==> is_ws(#[trigger] lead[i]),
        skip_ign(tail).len() == 0 || skip_ign(tail)[0] == '}',
    ensures
        p_dict_items(lead + enc_dict_entries(kvs, ind2) + tail) == Some(
            (blur_dict(kvs), skip_ign(tail)),
        ),
    decreases kvs, 1int,
{
    let text = lead + enc_dict_entries(kvs, ind2) + tail;
    if kvs.len() == 0 {
        assert(enc_dict_entries(kvs, ind2) == Seq::<char>::empty());
        assert(text =~= lead + tail);
        lemma_skip_ws_prefix(lead, tail);
        let s1 = skip_ign(text);
        assert(s1 == skip_ign(tail));
        lemma_skip_ign_len(text);
        assert(blur_dict(kvs) == Seq::<(Seq<char>, TotV)>::empty());
        assert(p_dict_items(text) == Some((blur_dict(kvs), s1)));
    } else {
        let k = kvs[0].0;
        let v0 = kvs[0].1;
        let env = enc_value(v0, ind2);
        let w = lead + spaces(4 * ((ind2 - 1) as nat));
        let after_key = seq![' '] + (env + (seq!['\n'] + (enc_dict_entries(
            kvs.skip(1),
            ind2,
        ) + tail)));
        let rr = seq!['\n'] + (enc_dict_entries(kvs.skip(1), ind2) + tail);
        assert(text =~= w + (k + after_key));
        assert(forall|i: int| 0 <= i < w.len() ==> is_ws(#[trigger] w[i])) by {
            lemma_spaces_ws(4 * ((ind2 - 1) as nat));
            assert forall|i: int| 0 <= i < w.len() implies is_ws(#[trigger] w[i]) by {
                if i < lead.len() {
                    assert(w[i] == lead[i]);
                } else {
                    assert(w[i] == spaces(4 * ((ind2 - 1) as nat))[i - lead.len()]);
                }
            }
        }
        lemma_skip_ws_prefix(w, k + after_key);
        assert((k + after_key)[0] == k[0]);
        lemma_skip_ign_stop(k + after_key);
        let s1 = skip_ign(text);
        assert(s1 == k + after_key);
        lemma_skip_ign_len(text);
        assert(s1.len() > 0 && s1[0] == k[0] && k[0] != '}');
        assert(after_key[0] == ' ' && is_ws(' '));
        lemma_parse_key_bare(k, after_key);
        assert(p_key(s1) == Some((k, after_key)));
        lemma_skip_ws_prefix(seq![' '], env + rr);
        assert(after_key =~= seq![' '] + (env + rr));
        lemma_enc_value_head(v0, ind2);
        assert((env + rr)[0] == env[0]);
        lemma_opens_value_stops(env[0]);
        lemma_skip_ign_stop(env + rr);
        let s3 = skip_ign(after_key);
        assert(s3 == env + rr);
        assert(s3.len() < text.len());
        assert(rr[0] == '\n' && is_ws('\n'));
        assert(decreases_to!(kvs => kvs[0]));
        assert(decreases_to!(kvs[0] => kvs[0].1));
        lemma_scalar_round_trip(v0, ind2, rr);
        assert(p_scalar(s3) == Some((blur(v0), rr)));
        assert(rr.len() < text.len());
        lemma_dict_items_round_trip(kvs.skip(1), ind2, seq!['\n'], tail);
        assert(seq!['\n'] + enc_dict_entries(kvs.skip(1), ind2) + tail =~= rr);
        assert(p_dict_items(rr) == Some((blur_dict(kvs.skip(1)), skip_ign(tail))));
        assert(blur_dict(kvs) == seq![(k, blur(v0))] + blur_dict(kvs.skip(1)));
        assert(p_dict_items(text) == Some((blur_dict(kvs), skip_ign(tail))));
    }
}

/// A nonempty run of encoded entries ends with a newline.
pub proof fn lemma_entries_end_newline(kvs: Seq<(Seq<char>, TotV)>, ind: nat)
    requires
        kvs.len() > 0,
    ensures
        enc_dict_entries(kvs, ind).len() > 0,
        enc_dict_entries(kvs, ind)[enc_dict_entries(kvs, ind).len() - 1] == '\n',
    decreases kvs,
{
    let body = enc_dict_entries(kvs, ind);
    let line = spaces(4 * ((ind - 1) as nat)) + kvs[0].0 + seq![' '] + enc_value(
        kvs[0].1,
        ind,
    ) + seq!['\n'];
    if kvs.len() == 1 {
        assert(enc_dict_entries(kvs.skip(1), ind) == Seq::<char>::empty());
        assert(body =~= line);
        assert(line[line.len() - 1] == '\n');
    } else {
        lemma_entries_end_newline(kvs.skip(1), ind);
        let rec = enc_dict_entries(kvs.skip(1), ind);
        assert(body == line + rec);
        assert(body[body.len() - 1] == rec[rec.len() - 1]);
    }
}

/// Round trip on the document: parsing the pretty text of a
/// dictionary-rooted value tree gives the tree back, up to the
/// blurred reading of numbers.  Dictionary entries come back in
/// order, so key order is preserved exactly.
pub proof fn lemma_document_round_trip(v: TotV)
    requires
        rt_ok(v, 0),
        v is DictV,
    ensures
        p_root(enc_doc(v)) == Some(blur(v)),
{
    let kvs = v->DictV_0;
    let body = enc_dict_entries(kvs, 1);
    assert(enc_value(v, 0) == body);
    if kvs.len() == 0 {
        assert(body == Seq::<char>::empty());
        assert(enc_doc(v) =~= seq!['\n']);
        lemma_dict_items_round_trip(kvs, 1, Seq::empty(), seq!['\n']);
        assert(Seq::<char>::empty() + enc_dict_entries(kvs, 1) + seq!['\n'] =~= seq!['\n']);
        assert(skip_ign(seq!['\n']) == Seq::<char>::empty()) by {
            lemma_skip_ws_prefix(seq!['\n'], Seq::empty());
            assert(seq!['\n'] + Seq::<char>::empty() =~= seq!['\n']);
            assert(skip_ign(Seq::<char>::empty()) == Seq::<char>::empty());
        }
        assert(p_dict_items(enc_doc(v)) == Some((blur_dict(kvs), Seq::<char>::empty())));
        assert(blur(v) == TotV::DictV(blur_dict(kvs)));
    } else {
        lemma_entries_end_newline(kvs, 1);
        assert(enc_doc(v) == body);
        lemma_dict_items_round_trip(kvs, 1, Seq::empty(), Seq::empty());
        assert(Seq::<char>::empty() + enc_dict_entries(kvs, 1) + Seq::<char>::empty() =~= body);
        assert(skip_ign(Seq::<char>::empty()) == Seq::<char>::empty());
        assert(p_dict_items(body) == Some((blur_dict(kvs), Seq::<char>::empty())));
        assert(blur(v) == TotV::DictV(blur_dict(kvs)));
    }
}

// ---------------------------------------------------------------------
// Idempotence: re-encoding what a round trip gave back writes the
// same text.
// ---------------------------------------------------------------------
/// Appending a zero digit multiplies the written value by ten.
pub proof fn lemma_dec_digits_mul10(a: nat, k: nat)
    requires
        a >= 1,
    ensures
        dec_digits(a * pow10(k)) == dec_digits(a) + zeros(k),
    decreases k,
{
    if k == 0 {
        assert(pow10(0) == 1);
        assert(a * 1 == a);
        assert(dec_digits(a) + zeros(0) =~= dec_digits(a));
    } else {
        lemma_dec_digits_mul10(a, (k - 1) as nat);
        let b = a * pow10((k - 1) as nat);
        crate::num::lemma_pow10_pos((k - 1) as nat);
        assert(b >= 1) by {
            vstd::arithmetic::mul::lemma_mul_inequality(1, a as int, pow10((k - 1) as nat) as int);
        }
        assert(pow10(k) == 10 * pow10((k - 1) as nat));
        assert(a * pow10(k) == b * 10) by {
            vstd::arithmetic::mul::lemma_mul_is_associative(a as int, pow10(
                (k - 1) as nat,
            ) as int, 10);
            vstd::arithmetic::mul::lemma_mul_is_associative(a as int, 10, pow10(
                (k - 1) as nat,
            ) as int);
            assert(a * (10 * pow10((k - 1) as nat)) == a * (pow10((k - 1) as nat) * 10));
        }
        assert(b * 10 >= 10) by {
            vstd::arithmetic::mul::lemma_mul_inequality(1, b as int, 10);
        }
        assert((b * 10) / 10 == b && (b * 10) % 10 == 0) by {
            vstd::arithmetic::div_mod::lemma_fundamental_div_mod_converse(
                (b * 10) as int,
                10,
                b as int,
                0,
            );
        }
        assert(dec_digits(b * 10) == dec_digits(b).push(digit_ch(0)));
        lemma_digit_ch_val(0);
        lemma_zeros_snoc((k - 1) as nat);
        assert((dec_digits(a) + zeros((k - 1) as nat)).push('0') =~= dec_digits(a) + zeros(k));
    }
}

/// Encoding does not see the difference between an integer and its
/// blurred decimal: both write the same text.
#[verifier::rlimit(100)]
pub proof fn lemma_encode_blur(v: TotV, ind: nat)
    requires
        rt_ok(v, ind),
    ensures
        enc_value(blur(v), ind) == enc_value(v, ind),
    decreases v, 0int,
{
    match v {
        TotV::IntV(x) => {
            let a = if x < 0 {
                (-x) as nat
            } else {
                x as nat
            };
            let (mn, en) = norm(a, 0);
            lemma_norm_keeps_value(a, 0);
            lemma_norm_exp_bound(a, 0);
            if a == 0 {
                assert((mn, en) == (0nat, 0int));
                assert(!(x < 0));
                assert(enc_dec(false, 0, 0) =~= seq!['0', '.', '0']);
                assert(dec_digits(0) == seq![digit_ch(0)]);
                lemma_digit_ch_val(0);
                assert(enc_int(x) =~= seq!['0', '.', '0']);
            } else {
                assert(mn >= 1 && en >= 0);
                assert(a == mn * pow10((en - 0) as nat));
                lemma_dec_digits_mul10(mn, en as nat);
                assert(dec_digits(a) == dec_digits(mn) + zeros(en as nat));
                let sign: Seq<char> = if x < 0 {
                    seq!['-']
                } else {
                    Seq::empty()
                };
                assert(enc_dec(x < 0, mn, en) == sign + dec_digits(mn) + zeros(en as nat)
                    + seq!['.', '0']);
                assert(sign + dec_digits(mn) + zeros(en as nat) + seq!['.', '0'] =~= sign
                    + dec_digits(a) + seq!['.', '0']);
            }
        },
        TotV::ListV(items) => {
            assert(decreases_to!(v => v->ListV_0));
            lemma_encode_blur_list(items, if ind == 0 {
                2nat
            } else {
                (ind + 1) as nat
            });
            assert(blur(v) == TotV::ListV(blur_list(items)));
        },
        TotV::DictV(kvs) => {
            assert(decreases_to!(v => v->DictV_0));
            lemma_encode_blur_dict(kvs, (ind + 1) as nat);
            assert(blur(v) == TotV::DictV(blur_dict(kvs)));
            if ind == 0 {
                assert(enc_value(blur(v), 0) == enc_dict_entries(blur_dict(kvs), 1));
            }
        },
        _ => {
            assert(blur(v) == v);
        },
    }
}

pub proof fn lemma_encode_blur_list(items: Seq<TotV>, ind: nat)
    requires
        rt_ok_list(items, ind),
    ensures
        enc_list_items(blur_list(items), ind) == enc_list_items(items, ind),
        blur_list(items).len() == items.len(),
    decreases items, 1int,
{
    if items.len() > 0 {
        assert(decreases_to!(items => items[0]));
        lemma_encode_blur(items[0], ind);
        lemma_encode_blur_list(items.skip(1), ind);
        let b = blur_list(items);
        assert(b == seq![blur(items[0])] + blur_list(items.skip(1)));
        assert(b[0] == blur(items[0]));
        assert(b.skip(1) =~= blur_list(items.skip(1)));
        assert(enc_list_items(b, ind) == spaces(4 * ((ind - 1) as nat)) + enc_value(
            b[0],
            ind,
        ) + seq!['\n'] + enc_list_items(b.skip(1), ind));
    }
}

pub proof fn lemma_encode_blur_dict(kvs: Seq<(Seq<char>, TotV)>, ind: nat)
    requires
        rt_ok_dict(kvs, ind),
    ensures
        enc_dict_entries(blur_dict(kvs), ind) == enc_dict_entries(kvs, ind),
        blur_dict(kvs).len() == kvs.len(),
    decreases kvs, 1int,
{
    if kvs.len() > 0 {
        assert(decreases_to!(kvs => kvs[0]));
        assert(decreases_to!(kvs[0] => kvs[0].1));
        lemma_encode_blur(kvs[0].1, ind);
        lemma_encode_blur_dict(kvs.skip(1), ind);
        let b = blur_dict(kvs);
        assert(b == seq![(kvs[0].0, blur(kvs[0].1))] + blur_dict(kvs.skip(1)));
        assert(b[0] == (kvs[0].0, blur(kvs[0].1)));
        assert(b.skip(1) =~= blur_dict(kvs.skip(1)));
        assert(enc_dict_entries(b, ind) == spaces(4 * ((ind - 1) as nat)) + b[0].0 + seq![' ']
            + enc_value(b[0].1, ind) + seq!['\n'] + enc_dict_entries(b.skip(1), ind));
    }
}

/// Idempotence of encoding: re-encoding what parsing the text gave
/// back yields the same text, byte for byte.
pub proof fn lemma_encode_idempotent(v: TotV)
    requires
        rt_ok(v, 0),
        v is DictV,
    ensures
        p_root(enc_doc(v)) matches Some(w) && enc_doc(w) == enc_doc(v),
{
    lemma_document_round_trip(v);
    lemma_encode_blur(v, 0);
    assert(enc_value(blur(v), 0) == enc_value(v, 0));
}

// ---------------------------------------------------------------------
// Whitespace and comment insensitivity.
// ---------------------------------------------------------------------
/// A closed run of ignored input: whitespace, commas, block comments
/// with their closer, and line comments whose line break is inside
/// the run.  Such a run can stand in front of any text without
/// changing what the skip leaves.
pub open spec fn ign_run(w: Seq<char>) -> bool
    decreases w.len(),
{
    if w.len() == 0 {
        true
    } else if is_ws(w[0]) || w[0] == ',' {
        ign_run(w.skip(1))
    } else if w.len() >= 2 && w[0] == '/' && w[1] == '/' {
        let e = find_eol(w.skip(2));
        &&& 2 + e < w.len()
        &&& if 0 <= e && 2 + e <= w.len() {
            ign_run(w.skip(2 + e))
        } else {
            false
        }
    } else if w.len() >= 2 && w[0] == '/' && w[1] == '*' {
        match find_close(w.skip(2)) {
            Some(j) => if 0 <= j && 4 + j <= w.len() {
                ign_run(w.skip(4 + j))
            } else {
                false
            },
            None => false,
        }
    } else {
        false
    }
}

/// A line break found inside a prefix is still the first one after
/// concatenation.
pub proof fn lemma_find_eol_concat(a: Seq<char>, s: Seq<char>)
    requires
        find_eol(a) < a.len(),
    ensures
        find_eol(a + s) == find_eol(a),
    decreases a.len(),
{
    lemma_find_eol(a);
    if a.len() > 0 {
        assert((a + s)[0] == a[0]);
        if a[0] == '\n' || a[0] == '\r' {
        } else {
            assert((a + s).skip(1) =~= a.skip(1) + s);
            lemma_find_eol_concat(a.skip(1), s);
        }
    }
}

/// A comment closer found in a prefix is still the first one after
/// concatenation.
pub proof fn lemma_find_close_concat(a: Seq<char>, s: Seq<char>)
    requires
        find_close(a) is Some,
    ensures
        find_close(a + s) == find_close(a),
    decreases a.len(),
{
    lemma_find_close(a);
    if a.len() >= 2 {
        assert((a + s)[0] == a[0] && (a + s)[1] == a[1]);
        if a[0] == '*' && a[1] == '/' {
            assert(find_close(a + s) == Some(0int));
        } else {
            assert((a + s).skip(1) =~= a.skip(1) + s);
            assert(find_close(a) == match find_close(a.skip(1)) {
                Some(j) => Some(1 + j),
                None => None::<int>,
            });
            lemma_find_close_concat(a.skip(1), s);
        }
    }
}

/// Inserting a closed ignored run in front of any text leaves the
/// skip of that text unchanged.  Every production of the grammar
/// passes over ignored input through this same skip, so a document
/// keeps its reading when such runs are inserted where the grammar
/// ignores them.
pub proof fn lemma_insert_ignored(w: Seq<char>, s: Seq<char>)
    requires
        ign_run(w),
    ensures
        skip_ign(w + s) == skip_ign(s),
    decreases w.len(),
{
    if w.len() == 0 {
        assert(w + s =~= s);
    } else if is_ws(w[0]) || w[0] == ',' {
        assert((w + s)[0] == w[0]);
        assert((w + s).skip(1) =~= w.skip(1) + s);
        lemma_insert_ignored(w.skip(1), s);
    } else if w.len() >= 2 && w[0] == '/' && w[1] == '/' {
        assert((w + s)[0] == '/' && (w + s)[1] == '/');
        let e = find_eol(w.skip(2));
        lemma_find_eol(w.skip(2));
        assert((w + s).skip(2) =~= w.skip(2) + s);
        lemma_find_eol_concat(w.skip(2), s);
        assert(find_eol((w + s).skip(2)) == e);
        assert((w + s).skip(2 + e) =~= w.skip(2 + e) + s);
        lemma_insert_ignored(w.skip(2 + e), s);
        assert(skip_ign(w + s) == skip_ign((w + s).skip(2 + e)));
    } else {
        assert(w.len() >= 2 && w[0] == '/' && w[1] == '*');
        assert((w + s)[0] == '/' && (w + s)[1] == '*');
        let j = find_close(w.skip(2))->0;
        lemma_find_close(w.skip(2));
        assert((w + s).skip(2) =~= w.skip(2) + s);
        lemma_find_close_concat(w.skip(2), s);
        assert(find_close((w + s).skip(2)) == Some(j));
        assert((w + s).skip(4 + j) =~= w.skip(4 + j) + s);
        lemma_insert_ignored(w.skip(4 + j), s);
        assert(skip_ign(w + s) == skip_ign((w + s).skip(4 + j)));
    }
}

// ---------------------------------------------------------------------
// The bracketed-list document.
// ---------------------------------------------------------------------
/// Round trip through the list fallback of the document rule: the
/// pretty text of a list-rooted value tree reads back as the blurred
/// tree.
pub proof fn lemma_document_list_round_trip(v: TotV)
    requires
        rt_ok(v, 0),
        v is ListV,
    ensures
        p_root_list(enc_doc(v)) == Some(blur(v)),
{
    let items = v->ListV_0;
    let body = enc_value(v, 0);
    assert(enc_value(v, 1) == body);
    assert(rt_ok(v, 1));
    assert(enc_doc(v) == body + seq!['\n']) by {
        assert(body[body.len() - 1] == ']');
    }
    lemma_scalar_round_trip(v, 1, seq!['\n']);
    assert(enc_doc(v)[0] == body[0]);
    assert(body[0] == '[');
    assert(p_scalar(enc_doc(v)) == Some((blur(v), seq!['\n'])));
    assert(skip_ign(seq!['\n']) == Seq::<char>::empty()) by {
        lemma_skip_ws_prefix(seq!['\n'], Seq::empty());
        assert(seq!['\n'] + Seq::<char>::empty() =~= seq!['\n']);
        assert(skip_ign(Seq::<char>::empty()) == Seq::<char>::empty());
    }
}

// ---------------------------------------------------------------------
// Consumption: a successful parse always moves forward.
// ---------------------------------------------------------------------
pub proof fn lemma_p_strbody_consumes(s: Seq<char>)
    ensures
        p_strbody(s) matches Some((t, r)) ==> r.len() < s.len(),
    decreases s.len(),
{
    if s.len() == 0 {
    } else if s[0] == '"' {
    } else if s[0] == '\\' {
        if s.len() < 2 {
        } else {
            let c = s[1];
            if c == 'u' {
                if s.len() >= 4 && s[2] == '{' {
                    let h = count_hex(s.skip(3));
                    let hn = if h > 6 {
                        6int
                    } else {
                        h
                    };
                    lemma_count_hex(s.skip(3));
                    if hn >= 1 && 3 + hn < s.len() && s[3 + hn] == '}' {
                        lemma_p_strbody_consumes(s.skip(4 + hn));
                    }
                }
            } else if c == 'n' || c == 'r' || c == 't' || c == 'b' || c == 'f' || c == '\\'
                || c == '/' || c == '"' {
                lemma_p_strbody_consumes(s.skip(2));
            } else if is_ws(c) {
                let w = count_ws(s.skip(1));
                lemma_count_ws(s.skip(1));
                if w >= 1 && 1 + w <= s.len() {
                    lemma_p_strbody_consumes(s.skip(1 + w));
                }
            }
        }
    } else {
        lemma_p_strbody_consumes(s.skip(1));
    }
}

pub proof fn lemma_p_key_consumes(s: Seq<char>)
    ensures
        p_key(s) matches Some((k, r)) ==> r.len() < s.len(),
{
    if s.len() > 0 && s[0] == '"' {
        lemma_p_strbody_consumes(s.skip(1));
    }
    lemma_count_non_ws(s);
}

pub proof fn lemma_exp_lex_len_bounds(s: Seq<char>)
    ensures
        0 <= exp_lex_len(s) <= s.len(),
{
    if s.len() >= 2 && (s[0] == 'e' || s[0] == 'E') {
        if is_digit(s[1]) {
            lemma_count_digits(s.skip(1));
        } else if (s[1] == '+' || s[1] == '-') && s.len() >= 3 && is_digit(s[2]) {
            lemma_count_digits(s.skip(2));
        }
    }
}

pub proof fn lemma_p_number_consumes(s: Seq<char>)
    ensures
        p_number(s) matches Some((n, r)) ==> r.len() < s.len(),
{
    let neg = s.len() > 0 && s[0] == '-';
    let s1 = if neg {
        s.skip(1)
    } else {
        s
    };
    lemma_count_digits(s1);
    let nd = count_digits(s1);
    let s2 = s1.skip(nd);
    let has_dot = s2.len() > 0 && s2[0] == '.';
    let s3 = if has_dot {
        s2.skip(1)
    } else {
        s2
    };
    lemma_count_digits(s3);
    let nf = if has_dot {
        count_digits(s3)
    } else {
        0
    };
    let s4 = s3.skip(nf);
    lemma_exp_lex_len_bounds(s4);
}

/// The rest of any successful parse of a scalar is strictly shorter.
pub proof fn lemma_p_scalar_consumes(s: Seq<char>)
    ensures
        p_scalar(s) matches Some((v, r)) ==> r.len() < s.len(),
    decreases s.len(), 1int,
{
    lemma_p_number_consumes(s);
    if s.len() > 0 && s[0] == '"' {
        lemma_p_strbody_consumes(s.skip(1));
    }
    if s.len() > 0 && (s[0] == '[' || s[0] == '{') {
        lemma_p_list_items_rest(s.skip(1));
        lemma_p_dict_items_rest(s.skip(1));
    }
}

pub proof fn lemma_p_list_items_rest(s: Seq<char>)
    ensures
        p_list_items(s) matches Some((xs, r)) ==> r.len() <= s.len(),
    decreases s.len(), 2int,
{
    let s1 = skip_ign(s);
    lemma_skip_ign_len(s);
    if s1.len() <= s.len() && s1.len() > 0 && s1[0] != ']' {
        lemma_p_scalar_consumes(s1);
        match p_scalar(s1) {
            Some((v, r)) => {
                if r.len() < s.len() {
                    lemma_p_list_items_rest(r);
                }
            },
            None => {},
        }
    }
}

pub proof fn lemma_p_dict_items_rest(s: Seq<char>)
    ensures
        p_dict_items(s) matches Some((kvs, r)) ==> r.len() <= s.len(),
    decreases s.len(), 2int,
{
    let s1 = skip_ign(s);
    lemma_skip_ign_len(s);
    if s1.len() <= s.len() && !(s1.len() == 0 || s1[0] == '}') {
        lemma_p_key_consumes(s1);
        match p_key(s1) {
            Some((k, s2)) => {
                let s3 = skip_ign(s2);
                lemma_skip_ign_len(s2);
                if s3.len() < s.len() {
                    lemma_p_scalar_consumes(s3);
                    match p_scalar(s3) {
                        Some((v, r)) => {
                            if r.len() < s.len() {
                                lemma_p_dict_items_rest(r);
                            }
                        },
                        None => {},
                    }
                }
            },
            None => {},
        }
    }
}

/// Inserting a closed ignored run at the front of a dictionary body
/// does not change how it reads.
#[verifier::rlimit(100)]
pub proof fn lemma_insert_ignored_entries(w: Seq<char>, s: Seq<char>)
    requires
        ign_run(w),
    ensures
        p_dict_items(w + s) == p_dict_items(s),
{
    lemma_insert_ignored(w, s);
    let s1 = skip_ign(s);
    assert(skip_ign(w + s) == s1);
    lemma_skip_ign_len(s);
    lemma_skip_ign_len(w + s);
    assert(s1.len() <= s.len() && s1.len() <= (w + s).len());
    if s1.len() == 0 || s1[0] == '}' {
    } else {
        lemma_p_key_consumes(s1);
        match p_key(s1) {
            Some((k, s2)) => {
                let s3 = skip_ign(s2);
                lemma_skip_ign_len(s2);
                assert(s3.len() <= s2.len() < s1.len() <= s.len());
                assert(s3.len() < (w + s).len());
                lemma_p_scalar_consumes(s3);
                match p_scalar(s3) {
                    Some((v, r)) => {
                        assert(r.len() < s3.len() < s.len());
                        assert(r.len() < (w + s).len());
                    },
                    None => {},
                }
            },
            None => {},
        }
    }
}

/// Whitespace and comment insensitivity at the document level:
/// inserting a closed ignored run in front of an implicit-dictionary
/// document leaves its reading unchanged.
pub proof fn lemma_insert_ignored_document(w: Seq<char>, s: Seq<char>)
    requires
        ign_run(w),
        p_dict_items(s) matches Some((kvs, rest)) && rest.len() == 0,
    ensures
        p_root(w + s) == p_root(s),
{
    lemma_insert_ignored_entries(w, s);
}

// ---------------------------------------------------------------------
// The compact formatter round-trips to the same values.
// ---------------------------------------------------------------------
/// The first character of any encodable value's compact text.
pub proof fn lemma_enc_value_c_head(v: TotV, ind: nat)
    requires
        rt_ok(v, ind),
    ensures
        enc_value_c(v, false).len() > 0,
        opens_value(enc_value_c(v, false)[0]),
{
    match v {
        TotV::UnitV => {
            assert(enc_value_c(v, false)[0] == 'n');
        },
        TotV::BoolV(b) => {
            if b {
                assert(enc_value_c(v, false)[0] == 't');
            } else {
                assert(enc_value_c(v, false)[0] == 'f');
            }
        },
        TotV::IntV(x) => {
            lemma_dec_digits_digits((if x < 0 {
                (-x) as nat
            } else {
                x as nat
            }));
            if x < 0 {
                assert(enc_value_c(v, false)[0] == '-');
            } else {
                assert(enc_value_c(v, false)[0] == dec_digits(x as nat)[0]);
            }
        },
        TotV::DecV { neg, m, e } => {
            lemma_dec_digits_digits(m);
            if neg {
                assert(enc_value_c(v, false)[0] == '-');
            } else if m == 0 {
                assert(enc_value_c(v, false)[0] == '0');
            } else {
                let dd = dec_digits(m);
                if e >= 0 {
                    assert(enc_value_c(v, false)[0] == dd[0]);
                } else if -e < dd.len() {
                    assert(dd.take(dd.len() + e).len() > 0);
                    assert(enc_value_c(v, false)[0] == dd.take(dd.len() + e)[0]);
                    assert(dd.take(dd.len() + e)[0] == dd[0]);
                } else {
                    assert(enc_value_c(v, false)[0] == '0');
                }
            }
        },
        TotV::StrV(t) => {
            assert(enc_value_c(v, false)[0] == '"');
        },
        TotV::ListV(_) => {
            assert(enc_value_c(v, false)[0] == '[');
        },
        TotV::DictV(kvs) => {
            assert(enc_value_c(v, false)[0] == '{');
        },
        TotV::GenV(_) => {},
        TotV::MissingV => {},
    }
}

/// Parsing the compact text of a value gives its blurred form.
#[verifier::rlimit(100)]
pub proof fn lemma_scalar_round_trip_compact(v: TotV, ind: nat, rest: Seq<char>)
    requires
        rt_ok(v, ind),
        ind >= 1,
        delim_follows(rest),
        rest.len() == 0 || rest[0] == ',' || rest[0] == ']' || rest[0] == '}',
    ensures
        p_scalar(enc_value_c(v, false) + rest) == Some((blur(v), rest)),
    decreases v, 0int,
{
    let s = enc_value_c(v, false) + rest;
    lemma_enc_value_c_head(v, ind);
    assert(s[0] == enc_value_c(v, false)[0]);
    match v {
        TotV::UnitV => {
            assert(s =~= seq!['n', 'u', 'l', 'l'] + rest);
            assert(s[0] == 'n' && s[1] == 'u' && s[2] == 'l' && s[3] == 'l');
            assert(s.skip(4) =~= rest);
            assert(p_unit(s) == Some(rest));
        },
        TotV::BoolV(b) => {
            if b {
                assert(s =~= seq!['t', 'r', 'u', 'e'] + rest);
                assert(s[0] == 't' && s[1] == 'r' && s[2] == 'u' && s[3] == 'e');
                assert(s.skip(4) =~= rest);
                assert(p_bool(s) == Some((true, rest)));
            } else {
                assert(s =~= seq!['f', 'a', 'l', 's', 'e'] + rest);
                assert(s[0] == 'f' && s[1] == 'a' && s[2] == 'l' && s[3] == 's' && s[4]
                    == 'e');
                assert(s.skip(5) =~= rest);
                assert(p_bool(s) == Some((false, rest)));
            }
            assert(p_unit(s) is None);
        },
        TotV::IntV(x) => {
            lemma_dec_digits_digits((if x < 0 {
                (-x) as nat
            } else {
                x as nat
            }));
            assert(s[0] == '-' || is_digit(s[0])) by {
                if x >= 0 {
                    assert(s[0] == dec_digits(x as nat)[0]);
                }
            }
            assert(s[0] != 'n' && s[0] != 't' && s[0] != 'f');
            assert(p_unit(s) is None && p_bool(s) is None);
            lemma_parse_enc_int(x, rest);
            assert(s == enc_int(x) + rest);
        },
        TotV::DecV { neg, m, e } => {
            lemma_dec_digits_digits(m);
            assert(s[0] == '-' || is_digit(s[0])) by {
                lemma_enc_value_head(v, 1);
                assert(enc_value(v, 1) == enc_dec(neg, m, e));
                assert(enc_value_c(v, false) == enc_dec(neg, m, e));
            }
            assert(s[0] != 'n' && s[0] != 't' && s[0] != 'f');
            assert(p_unit(s) is None && p_bool(s) is None);
            lemma_parse_enc_dec(neg, m, e, rest);
            assert(s == enc_dec(neg, m, e) + rest);
            assert(blur(v) == v);
        },
        TotV::StrV(t) => {
            assert(s[0] == '"');
            assert(s[0] != 'n' && s[0] != 't' && s[0] != 'f');
            assert(p_unit(s) is None && p_bool(s) is None);
            assert(p_number(s) is None) by {
                assert(s.skip(0) =~= s);
                assert(count_digits(s) == 0);
                assert(s[0] != '.');
            }
            lemma_parse_enc_str(t, rest);
            assert(s == enc_str(t) + rest);
        },
        TotV::ListV(items) => {
            assert(s[0] == '[');
            assert(s[0] != 'n' && s[0] != 't' && s[0] != 'f');
            assert(p_unit(s) is None && p_bool(s) is None);
            assert(p_number(s) is None) by {
                assert(s.skip(0) =~= s);
                assert(count_digits(s) == 0);
                assert(s[0] != '.');
            }
            assert(p_string(s) is None);
            let inner = (ind + 1) as nat;
            assert(s.skip(1) =~= enc_list_items_c(items) + seq![']'] + rest);
            assert(decreases_to!(v => v->ListV_0));
            lemma_list_items_round_trip_compact(items, inner, Seq::empty(), rest);
            assert(Seq::<char>::empty() + enc_list_items_c(items) + seq![']'] + rest =~= s.skip(
                1,
            ));
            let r = seq![']'] + rest;
            assert(p_list_items(s.skip(1)) == Some((blur_list(items), r)));
            assert(r[0] == ']');
            assert(r.skip(1) =~= rest);
            assert(p_scalar(s) == Some((TotV::ListV(blur_list(items)), rest)));
        },
        TotV::DictV(kvs) => {
            assert(s[0] == '{');
            assert(s[0] != 'n' && s[0] != 't' && s[0] != 'f');
            assert(p_unit(s) is None && p_bool(s) is None);
            assert(p_number(s) is None) by {
                assert(s.skip(0) =~= s);
                assert(count_digits(s) == 0);
                assert(s[0] != '.');
            }
            assert(p_string(s) is None);
            let inner = (ind + 1) as nat;
            let tail = seq!['}'] + rest;
            assert(s.skip(1) =~= enc_dict_entries_c(kvs) + tail);
            assert(skip_ign(tail) == tail) by {
                lemma_skip_ign_stop(tail);
            }
            assert(decreases_to!(v => v->DictV_0));
            lemma_dict_items_round_trip_compact(kvs, inner, Seq::empty(), tail);
            assert(Seq::<char>::empty() + enc_dict_entries_c(kvs) + tail =~= s.skip(1));
            assert(p_dict_items(s.skip(1)) == Some((blur_dict(kvs), tail)));
            assert(tail[0] == '}');
            assert(tail.skip(1) =~= rest);
            assert(p_scalar(s) == Some((TotV::DictV(blur_dict(kvs)), rest)));
        },
        TotV::GenV(_) => {},
        TotV::MissingV => {},
    }
}


/// A single comma is a closed ignored run.
pub proof fn lemma_comma_ign()
    ensures
        ign_run(seq![',']),
{
    assert(seq![','][0] == ',');
    assert(seq![','].skip(1) =~= Seq::<char>::empty());
    assert(ign_run(Seq::<char>::empty()));
}

/// Parsing compact list items, each followed by a comma, gives the
/// blurred items.
#[verifier::rlimit(100)]
pub proof fn lemma_list_items_round_trip_compact(
    items: Seq<TotV>,
    ind2: nat,
    lead: Seq<char>,
    rest2: Seq<char>,
)
    requires
        rt_ok_list(items, ind2),
        ind2 >= 1,
        ign_run(lead),
    ensures
        p_list_items(lead + enc_list_items_c(items) + seq![']'] + rest2) == Some(
            (blur_list(items), seq![']'] + rest2),
        ),
    decreases items, 1int,
{
    let text = lead + enc_list_items_c(items) + seq![']'] + rest2;
    if items.len() == 0 {
        assert(enc_list_items_c(items) == Seq::<char>::empty());
        assert(text =~= lead + (seq![']'] + rest2));
        lemma_insert_ignored(lead, seq![']'] + rest2);
        assert((seq![']'] + rest2)[0] == ']');
        lemma_skip_ign_stop(seq![']'] + rest2);
        let s1 = skip_ign(text);
        assert(s1 == seq![']'] + rest2);
        lemma_skip_ign_len(text);
        assert(s1[0] == ']');
        assert(blur_list(items) == Seq::<TotV>::empty());
        assert(p_list_items(text) == Some((blur_list(items), s1)));
    } else {
        let head = items[0];
        let env = enc_value_c(head, false);
        let rr = seq![','] + (enc_list_items_c(items.skip(1)) + seq![']'] + rest2);
        assert(text =~= lead + (env + rr));
        lemma_insert_ignored(lead, env + rr);
        lemma_enc_value_c_head(head, ind2);
        assert((env + rr)[0] == env[0]);
        lemma_opens_value_stops(env[0]);
        lemma_skip_ign_stop(env + rr);
        let s1 = skip_ign(text);
        assert(s1 == env + rr);
        lemma_skip_ign_len(text);
        assert(s1.len() > 0 && s1[0] != ']');
        assert(rr[0] == ',');
        assert(decreases_to!(items => items[0]));
        lemma_scalar_round_trip_compact(head, ind2, rr);
        assert(p_scalar(s1) == Some((blur(head), rr)));
        assert(rr.len() < text.len());
        lemma_comma_ign();
        lemma_list_items_round_trip_compact(items.skip(1), ind2, seq![','], rest2);
        assert(seq![','] + enc_list_items_c(items.skip(1)) + seq![']'] + rest2 =~= rr);
        assert(p_list_items(rr) == Some((blur_list(items.skip(1)), seq![']'] + rest2)));
        assert(blur_list(items) == seq![blur(head)] + blur_list(items.skip(1)));
        assert(p_list_items(text) == Some((blur_list(items), seq![']'] + rest2)));
    }
}

/// Parsing compact dictionary entries gives the blurred entries.
#[verifier::rlimit(100)]
pub proof fn lemma_dict_items_round_trip_compact(
    kvs: Seq<(Seq<char>, TotV)>,
    ind2: nat,
    lead: Seq<char>,
    tail: Seq<char>,
)
    requires
        rt_ok_dict(kvs, ind2),
        ind2 >= 1,
        ign_run(lead),
        skip_ign(tail).len() == 0 || skip_ign(tail)[0] == '}',
    ensures
        p_dict_items(lead + enc_dict_entries_c(kvs) + tail) == Some(
            (blur_dict(kvs), skip_ign(tail)),
        ),
    decreases kvs, 1int,
{
    let text = lead + enc_dict_entries_c(kvs) + tail;
    if kvs.len() == 0 {
        assert(enc_dict_entries_c(kvs) == Seq::<char>::empty());
        assert(text =~= lead + tail);
        lemma_insert_ignored(lead, tail);
        let s1 = skip_ign(text);
        assert(s1 == skip_ign(tail));
        lemma_skip_ign_len(text);
        assert(blur_dict(kvs) == Seq::<(Seq<char>, TotV)>::empty());
        assert(p_dict_items(text) == Some((blur_dict(kvs), s1)));
    } else {
        let k = kvs[0].0;
        let v0 = kvs[0].1;
        let env = enc_value_c(v0, false);
        let rr = seq![','] + (enc_dict_entries_c(kvs.skip(1)) + tail);
        let after_key = seq![' '] + (env + rr);
        assert(text =~= lead + (k + after_key));
        lemma_insert_ignored(lead, k + after_key);
        assert((k + after_key)[0] == k[0]);
        lemma_skip_ign_stop(k + after_key);
        let s1 = skip_ign(text);
        assert(s1 == k + after_key);
        lemma_skip_ign_len(text);
        assert(s1.len() > 0 && s1[0] == k[0] && k[0] != '}');
        assert(after_key[0] == ' ' && is_ws(' '));
        lemma_parse_key_bare(k, after_key);
        assert(p_key(s1) == Some((k, after_key)));
        lemma_skip_ws_prefix(seq![' '], env + rr);
        lemma_enc_value_c_head(v0, ind2);
        assert((env + rr)[0] == env[0]);
        lemma_opens_value_stops(env[0]);
        lemma_skip_ign_stop(env + rr);
        let s3 = skip_ign(after_key);
        assert(s3 == env + rr);
        assert(s3.len() < text.len());
        assert(rr[0] == ',');
        assert(decreases_to!(kvs => kvs[0]));
        assert(decreases_to!(kvs[0] => kvs[0].1));
        lemma_scalar_round_trip_compact(v0, ind2, rr);
        assert(p_scalar(s3) == Some((blur(v0), rr)));
        assert(rr.len() < text.len());
        lemma_comma_ign();
        lemma_dict_items_round_trip_compact(kvs.skip(1), ind2, seq![','], tail);
        assert(seq![','] + enc_dict_entries_c(kvs.skip(1)) + tail =~= rr);
        assert(p_dict_items(rr) == Some((blur_dict(kvs.skip(1)), skip_ign(tail))));
        assert(blur_dict(kvs) == seq![(k, blur(v0))] + blur_dict(kvs.skip(1)));
        assert(p_dict_items(text) == Some((blur_dict(kvs), skip_ign(tail))));
    }
}

/// Round trip of the compact document form: an implicit-dictionary
/// document written compactly reads back as the same blurred tree.
pub proof fn lemma_document_round_trip_compact(v: TotV)
    requires
        rt_ok(v, 0),
        v is DictV,
    ensures
        p_root(enc_doc_c(v)) == Some(blur(v)),
{
    let kvs = v->DictV_0;
    assert(enc_doc_c(v) == enc_dict_entries_c(kvs));
    assert(skip_ign(Seq::<char>::empty()) == Seq::<char>::empty());
    lemma_dict_items_round_trip_compact(kvs, 1, Seq::empty(), Seq::empty());
    assert(Seq::<char>::empty() + enc_dict_entries_c(kvs) + Seq::<char>::empty() =~= enc_doc_c(
        v,
    ));
    assert(p_dict_items(enc_doc_c(v)) == Some((blur_dict(kvs), Seq::<char>::empty())));
    assert(blur(v) == TotV::DictV(blur_dict(kvs)));
}

/// Inserting a closed ignored run in front of the items of a list
/// body does not change how it reads.  Together with
/// [`lemma_insert_ignored_entries`] this states insertion in front
/// of a document, an entry, a key, an element and a closing
/// delimiter; the one seam not stated as a law of its own — between
/// a key and its value — also passes over ignored input only through
/// the skip that [`lemma_insert_ignored`] proves insensitive.
#[verifier::rlimit(100)]
pub proof fn lemma_insert_ignored_items(w: Seq<char>, s: Seq<char>)
    requires
        ign_run(w),
    ensures
        p_list_items(w + s) == p_list_items(s),
{
    lemma_insert_ignored(w, s);
    let s1 = skip_ign(s);
    assert(skip_ign(w + s) == s1);
    lemma_skip_ign_len(s);
    lemma_skip_ign_len(w + s);
    assert(s1.len() <= s.len() && s1.len() <= (w + s).len());
    if s1.len() == 0 || s1[0] == ']' {
    } else {
        lemma_p_scalar_consumes(s1);
        match p_scalar(s1) {
            Some((v, r)) => {
                assert(r.len() < s1.len() <= s.len());
                assert(r.len() < (w + s).len());
            },
            None => {},
        }
    }
}

// ---------------------------------------------------------------------
// Depth-matched brackets.
// ---------------------------------------------------------------------
/// Depth-matched brackets: the items of a list are accepted only up
/// to a closing bracket — an unmatched `[` runs into the end of the
/// input and is rejected — and a dictionary body stops only at a
/// closing brace or at the end of the document, where `p_scalar`
/// consumes exactly the matching closer it opened with.  Conversely a
/// stray closer can never begin a value, and a document with one left
/// over fails the emptiness check of the root rule.
pub proof fn lemma_brackets_matched(s: Seq<char>)
    ensures
        p_list_items(s) matches Some((items, r)) ==> r.len() > 0 && r[0] == ']',
        p_dict_items(s) matches Some((kvs, r)) ==> r.len() == 0 || r[0] == '}',
        s.len() > 0 && (s[0] == ']' || s[0] == '}') ==> p_scalar(s) is None,
    decreases s.len(),
{
    let s1 = skip_ign(s);
    lemma_skip_ign_len(s);
    if s1.len() <= s.len() {
        if !(s1.len() == 0) && s1[0] != ']' {
            match p_scalar(s1) {
                Some((v, r)) => {
                    if r.len() < s.len() {
                        lemma_brackets_matched(r);
                    }
                },
                None => {},
            }
        }
        if !(s1.len() == 0 || s1[0] == '}') {
            match p_key(s1) {
                Some((k, s2)) => {
                    let s3 = skip_ign(s2);
                    if s3.len() < s.len() {
                        match p_scalar(s3) {
                            Some((v, r)) => {
                                if r.len() < s.len() {
                                    lemma_brackets_matched(r);
                                }
                            },
                            None => {},
                        }
                    }
                },
                None => {},
            }
        }
    }
    if s.len() > 0 && (s[0] == ']' || s[0] == '}') {
        assert(p_unit(s) is None && p_bool(s) is None);
        assert(p_number(s) is None) by {
            assert(s.skip(0) =~= s);
            assert(count_digits(s) == 0);
            assert(s[0] != '.');
        }
        assert(p_string(s) is None);
        assert(p_scalar(s) is None);
    }
}

} // verus!
