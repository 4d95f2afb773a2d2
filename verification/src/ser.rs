//! The serializer.
//!
//! A [`Serializer`] owns the text being written and a formatter: the
//! pretty formatter indents four spaces per depth level and puts one
//! entry or element per line; the compact formatter writes no
//! newlines and separates entries with commas.  At depth zero the
//! outermost braces of a dictionary are elided, so the document root
//! stays an implicit dictionary.
//!
//! Numbers are rendered exactly from the decimal form, and integers
//! end in `.0`, matching the document model in which every number is
//! a decimal.  Strings are emitted quoted, with the quote, the
//! backslash and control characters escaped.

use vstd::prelude::*;
use crate::chars::{chars_to_string, is_ws};
use crate::error::{Error, Result};
use crate::grammar::TotV;
use crate::num::{Decimal, dec_normal};
use crate::parser::{TotValue, tv, tv_list, tv_dict, lemma_tv_list};

verus! {

broadcast use vstd::seq_lib::lemma_seq_skip_of_skip;

// ---------------------------------------------------------------------
// The text each value denotes.
// ---------------------------------------------------------------------
/// `n` spaces.
pub open spec fn spaces(n: nat) -> Seq<char>
    decreases n,
{
    if n == 0 {
        Seq::empty()
    } else {
        seq![' '] + spaces((n - 1) as nat)
    }
}

/// `n` zero digits.
pub open spec fn zeros(n: nat) -> Seq<char>
    decreases n,
{
    if n == 0 {
        Seq::empty()
    } else {
        seq!['0'] + zeros((n - 1) as nat)
    }
}

/// The decimal digit character for a value below ten.
pub open spec fn digit_ch(d: nat) -> char {
    (('0' as u32 + d) as u32) as char
}

/// The decimal digits of a natural number, no leading zeros.
pub open spec fn dec_digits(m: nat) -> Seq<char>
    decreases m,
{
    if m < 10 {
        seq![digit_ch(m)]
    } else {
        dec_digits(m / 10).push(digit_ch(m % 10))
    }
}

/// The lower-case hexadecimal digit character for a value below
/// sixteen.
pub open spec fn hex_ch(d: nat) -> char {
    if d < 10 {
        (('0' as u32 + d) as u32) as char
    } else {
        (('a' as u32 + d - 10) as u32) as char
    }
}

/// The lower-case hexadecimal digits of a natural number.
pub open spec fn hex_digits(m: nat) -> Seq<char>
    decreases m,
{
    if m < 16 {
        seq![hex_ch(m)]
    } else {
        hex_digits(m / 16).push(hex_ch(m % 16))
    }
}

/// The text of an integer value: sign, digits, and a `.0` tail, since
/// every Tot number is a decimal.
pub open spec fn enc_int(x: int) -> Seq<char> {
    let sign: Seq<char> = if x < 0 {
        seq!['-']
    } else {
        Seq::empty()
    };
    let a = if x < 0 {
        (-x) as nat
    } else {
        x as nat
    };
    sign + dec_digits(a) + seq!['.', '0']
}

/// The text of a normalized decimal `(-1)^neg * m * 10^e` within the
/// finite exponent range: plain decimal notation, never an exponent
/// clause, always with a point.
pub open spec fn enc_dec(neg: bool, m: nat, e: int) -> Seq<char> {
    let sign: Seq<char> = if neg {
        seq!['-']
    } else {
        Seq::empty()
    };
    if m == 0 {
        sign + seq!['0', '.', '0']
    } else {
        let dd = dec_digits(m);
        if e >= 0 {
            sign + dd + zeros(e as nat) + seq!['.', '0']
        } else if -e < dd.len() {
            sign + dd.take(dd.len() + e) + seq!['.'] + dd.skip(dd.len() + e)
        } else {
            sign + seq!['0', '.'] + zeros((-e - dd.len()) as nat) + dd
        }
    }
}

/// Whether a character must be written escaped inside a string.
pub open spec fn needs_esc(c: char) -> bool {
    c == '"' || c == '\\' || (c as u32) < 0x20
}

/// The escaped form of one character that needs it.
pub open spec fn esc_char(c: char) -> Seq<char> {
    if c == '"' {
        seq!['\\', '"']
    } else if c == '\\' {
        seq!['\\', '\\']
    } else if c == '\n' {
        seq!['\\', 'n']
    } else if c == '\r' {
        seq!['\\', 'r']
    } else if c == '\t' {
        seq!['\\', 't']
    } else if c == '\u{08}' {
        seq!['\\', 'b']
    } else if c == '\u{0C}' {
        seq!['\\', 'f']
    } else {
        seq!['\\', 'u', '{'] + hex_digits(c as u32 as nat) + seq!['}']
    }
}

/// The escaped content of a string.
pub open spec fn esc_str(t: Seq<char>) -> Seq<char>
    decreases t.len(),
{
    if t.len() == 0 {
        Seq::empty()
    } else {
        let head: Seq<char> = if needs_esc(t[0]) {
            esc_char(t[0])
        } else {
            seq![t[0]]
        };
        head + esc_str(t.skip(1))
    }
}

/// The text of a string value: quoted, escaped.
pub open spec fn enc_str(t: Seq<char>) -> Seq<char> {
    seq!['"'] + esc_str(t) + seq!['"']
}

/// Pretty text of a value written while `ind` containers' worth of
/// indentation is current.  `ind == 0` is the document root: a
/// dictionary there elides its braces, and a list indents once extra
/// so its items sit one level in.
pub open spec fn enc_value(v: TotV, ind: nat) -> Seq<char>
    decreases v,
{
    match v {
        TotV::UnitV => seq!['n', 'u', 'l', 'l'],
        TotV::BoolV(b) => if b {
            seq!['t', 'r', 'u', 'e']
        } else {
            seq!['f', 'a', 'l', 's', 'e']
        },
        TotV::IntV(x) => enc_int(x),
        TotV::DecV { neg, m, e } => enc_dec(neg, m, e),
        TotV::StrV(t) => enc_str(t),
        TotV::ListV(items) => {
            let inner = if ind == 0 {
                2
            } else {
                (ind + 1) as nat
            };
            let close: Seq<char> = if ind <= 1 {
                Seq::empty()
            } else {
                spaces(4 * ((ind - 1) as nat))
            };
            seq!['[', '\n'] + enc_list_items(items, inner) + close + seq![']']
        },
        TotV::DictV(kvs) => {
            if ind == 0 {
                enc_dict_entries(kvs, 1)
            } else {
                let close: Seq<char> = if ind <= 1 {
                    Seq::empty()
                } else {
                    spaces(4 * ((ind - 1) as nat))
                };
                seq!['{', '\n'] + enc_dict_entries(kvs, (ind + 1) as nat) + close + seq!['}']
            }
        },
        TotV::GenV(_) => Seq::empty(),
        TotV::MissingV => Seq::empty(),
    }
}

/// Pretty text of list items at indentation level `ind`: one element
/// per line.
pub open spec fn enc_list_items(items: Seq<TotV>, ind: nat) -> Seq<char>
    decreases items,
{
    if items.len() == 0 {
        Seq::empty()
    } else {
        spaces(4 * ((ind - 1) as nat)) + enc_value(items[0], ind) + seq!['\n']
            + enc_list_items(items.skip(1), ind)
    }
}

/// Pretty text of dictionary entries at indentation level `ind`: one
/// `key value` pair per line, the key written bare.
pub open spec fn enc_dict_entries(kvs: Seq<(Seq<char>, TotV)>, ind: nat) -> Seq<char>
    decreases kvs,
{
    if kvs.len() == 0 {
        Seq::empty()
    } else {
        spaces(4 * ((ind - 1) as nat)) + kvs[0].0 + seq![' '] + enc_value(kvs[0].1, ind)
            + seq!['\n'] + enc_dict_entries(kvs.skip(1), ind)
    }
}

/// Pretty text of a whole document: the value at the root, and a
/// single terminating newline.
pub open spec fn enc_doc(v: TotV) -> Seq<char> {
    let body = enc_value(v, 0);
    if body.len() == 0 || body[body.len() - 1] != '\n' {
        body + seq!['\n']
    } else {
        body
    }
}

/// Compact text of a value: no newlines or indentation, entries and
/// elements each followed by a comma, key and value separated by one
/// space.
pub open spec fn enc_value_c(v: TotV, root: bool) -> Seq<char>
    decreases v,
{
    match v {
        TotV::UnitV => seq!['n', 'u', 'l', 'l'],
        TotV::BoolV(b) => if b {
            seq!['t', 'r', 'u', 'e']
        } else {
            seq!['f', 'a', 'l', 's', 'e']
        },
        TotV::IntV(x) => enc_int(x),
        TotV::DecV { neg, m, e } => enc_dec(neg, m, e),
        TotV::StrV(t) => enc_str(t),
        TotV::ListV(items) => seq!['['] + enc_list_items_c(items) + seq![']'],
        TotV::DictV(kvs) => {
            if root {
                enc_dict_entries_c(kvs)
            } else {
                seq!['{'] + enc_dict_entries_c(kvs) + seq!['}']
            }
        },
        TotV::GenV(_) => Seq::empty(),
        TotV::MissingV => Seq::empty(),
    }
}

/// Compact text of list items, each followed by a comma.
pub open spec fn enc_list_items_c(items: Seq<TotV>) -> Seq<char>
    decreases items,
{
    if items.len() == 0 {
        Seq::empty()
    } else {
        enc_value_c(items[0], false) + seq![','] + enc_list_items_c(items.skip(1))
    }
}

/// Compact text of dictionary entries, each followed by a comma.
pub open spec fn enc_dict_entries_c(kvs: Seq<(Seq<char>, TotV)>) -> Seq<char>
    decreases kvs,
{
    if kvs.len() == 0 {
        Seq::empty()
    } else {
        kvs[0].0 + seq![' '] + enc_value_c(kvs[0].1, false) + seq![','] + enc_dict_entries_c(
            kvs.skip(1),
        )
    }
}

/// Compact text of a whole document, no terminating newline.
pub open spec fn enc_doc_c(v: TotV) -> Seq<char> {
    enc_value_c(v, true)
}

/// How deep containers may nest below a value written while `ind`
/// levels are open.
pub open spec fn depth_cap() -> nat {
    1000000
}

/// Whether the serializer can write a value at indentation level
/// `ind`: no work-in-progress forms, decimals normalized and within
/// the finite exponent range, nesting within the depth cap.
pub open spec fn enc_ok_at(v: TotV, ind: nat) -> bool
    decreases v,
{
    match v {
        TotV::UnitV => true,
        TotV::BoolV(_) => true,
        TotV::IntV(_) => true,
        TotV::DecV { neg, m, e } => (m == 0 ==> e == 0) && (m > 0 ==> m % 10 != 0) && m
            <= u64::MAX && -400 <= e <= 350,
        TotV::StrV(_) => true,
        TotV::ListV(items) => ind < depth_cap() && enc_ok_list(items, if ind == 0 {
            2
        } else {
            (ind + 1) as nat
        }),
        TotV::DictV(kvs) => ind < depth_cap() && enc_ok_dict(kvs, (ind + 1) as nat),
        TotV::GenV(_) => false,
        TotV::MissingV => false,
    }
}

pub open spec fn enc_ok_list(items: Seq<TotV>, ind: nat) -> bool
    decreases items,
{
    if items.len() == 0 {
        true
    } else {
        enc_ok_at(items[0], ind) && enc_ok_list(items.skip(1), ind)
    }
}

pub open spec fn enc_ok_dict(kvs: Seq<(Seq<char>, TotV)>, ind: nat) -> bool
    decreases kvs,
{
    if kvs.len() == 0 {
        true
    } else {
        enc_ok_at(kvs[0].1, ind) && enc_ok_dict(kvs.skip(1), ind)
    }
}

// ---------------------------------------------------------------------
// Text-building lemmas and helpers.
// ---------------------------------------------------------------------
pub proof fn lemma_spaces_snoc(n: nat)
    ensures
        spaces(n + 1) == spaces(n).push(' '),
    decreases n,
{
    if n == 0 {
        assert(spaces(1) == seq![' '] + spaces(0));
        assert(seq![' '] + Seq::<char>::empty() =~= Seq::<char>::empty().push(' '));
    } else {
        lemma_spaces_snoc((n - 1) as nat);
        assert(spaces(n + 1) == seq![' '] + spaces(n));
        assert(spaces(n) == seq![' '] + spaces((n - 1) as nat));
        assert(seq![' '] + spaces((n - 1) as nat).push(' ') =~= (seq![' '] + spaces(
            (n - 1) as nat,
        )).push(' '));
    }
}

pub proof fn lemma_zeros_snoc(n: nat)
    ensures
        zeros(n + 1) == zeros(n).push('0'),
    decreases n,
{
    if n == 0 {
        assert(zeros(1) == seq!['0'] + zeros(0));
        assert(seq!['0'] + Seq::<char>::empty() =~= Seq::<char>::empty().push('0'));
    } else {
        lemma_zeros_snoc((n - 1) as nat);
        assert(zeros(n + 1) == seq!['0'] + zeros(n));
        assert(zeros(n) == seq!['0'] + zeros((n - 1) as nat));
        assert(seq!['0'] + zeros((n - 1) as nat).push('0') =~= (seq!['0'] + zeros(
            (n - 1) as nat,
        )).push('0'));
    }
}

/// Escaping distributes over concatenation.
pub proof fn lemma_esc_append(a: Seq<char>, b: Seq<char>)
    ensures
        esc_str(a + b) == esc_str(a) + esc_str(b),
    decreases a.len(),
{
    if a.len() == 0 {
        assert(a + b =~= b);
        assert(esc_str(a) == Seq::<char>::empty());
        assert(Seq::<char>::empty() + esc_str(b) =~= esc_str(b));
    } else {
        assert((a + b)[0] == a[0]);
        assert((a + b).skip(1) =~= a.skip(1) + b);
        lemma_esc_append(a.skip(1), b);
        let head: Seq<char> = if needs_esc(a[0]) {
            esc_char(a[0])
        } else {
            seq![a[0]]
        };
        assert(esc_str(a + b) == head + esc_str(a.skip(1) + b));
        assert(esc_str(a) == head + esc_str(a.skip(1)));
        assert(head + (esc_str(a.skip(1)) + esc_str(b)) =~= (head + esc_str(a.skip(1)))
            + esc_str(b));
    }
}

/// Append `n` spaces.
fn push_spaces(out: &mut Vec<char>, n: u64)
    ensures
        final(out)@ == old(out)@ + spaces(n as nat),
{
    let mut k: u64 = 0;
    proof {
        assert(out@ =~= out@ + spaces(0));
    }
    while k < n
        invariant
            k <= n,
            out@ == old(out)@ + spaces(k as nat),
        decreases n - k,
    {
        proof {
            lemma_spaces_snoc(k as nat);
        }
        out.push(' ');
        k = k + 1;
    }
}

/// Append `n` zero digits.
fn push_zeros(out: &mut Vec<char>, n: u64)
    ensures
        final(out)@ == old(out)@ + zeros(n as nat),
{
    let mut k: u64 = 0;
    proof {
        assert(out@ =~= out@ + zeros(0));
    }
    while k < n
        invariant
            k <= n,
            out@ == old(out)@ + zeros(k as nat),
        decreases n - k,
    {
        proof {
            lemma_zeros_snoc(k as nat);
        }
        out.push('0');
        k = k + 1;
    }
}

/// The character of a decimal digit.
fn digit_char_of(d: u64) -> (c: char)
    requires
        d <= 9,
    ensures
        c == digit_ch(d as nat),
{
    let c = match d {
        0u64 => '0',
        1u64 => '1',
        2u64 => '2',
        3u64 => '3',
        4u64 => '4',
        5u64 => '5',
        6u64 => '6',
        7u64 => '7',
        8u64 => '8',
        _ => '9',
    };
    proof {
        vstd::utf8::char_u32_cast(c, ('0' as u32 + d as u32) as u32);
    }
    c
}

/// The lower-case character of a hexadecimal digit.
fn hex_char_of(d: u32) -> (c: char)
    requires
        d <= 15,
    ensures
        c == hex_ch(d as nat),
{
    let c = match d {
        0u32 => '0',
        1u32 => '1',
        2u32 => '2',
        3u32 => '3',
        4u32 => '4',
        5u32 => '5',
        6u32 => '6',
        7u32 => '7',
        8u32 => '8',
        9u32 => '9',
        10u32 => 'a',
        11u32 => 'b',
        12u32 => 'c',
        13u32 => 'd',
        14u32 => 'e',
        _ => 'f',
    };
    proof {
        if d < 10 {
            vstd::utf8::char_u32_cast(c, ('0' as u32 + d) as u32);
        } else {
            vstd::utf8::char_u32_cast(c, ('a' as u32 + d - 10) as u32);
        }
    }
    c
}

/// The sequence read back to front.
pub open spec fn rev_seq(s: Seq<char>) -> Seq<char> {
    Seq::new(s.len(), |k: int| s[s.len() - 1 - k])
}

/// Append the decimal digits of `m`, most significant first.
fn push_dec_digits(out: &mut Vec<char>, m: u64)
    ensures
        final(out)@ == old(out)@ + dec_digits(m as nat),
{
    let mut tmp: Vec<char> = Vec::new();
    let mut x: u64 = m;
    while x >= 10
        invariant
            dec_digits(m as nat) == dec_digits(x as nat) + rev_seq(tmp@),
        decreases x,
    {
        let d = digit_char_of(x % 10);
        proof {
            assert(dec_digits(x as nat) == dec_digits((x as nat) / 10).push(
                digit_ch((x as nat) % 10),
            ));
            assert(rev_seq(tmp@.push(d)) =~= seq![d] + rev_seq(tmp@));
            assert(dec_digits((x as nat) / 10).push(d) + rev_seq(tmp@) =~= dec_digits(
                (x as nat) / 10,
            ) + (seq![d] + rev_seq(tmp@)));
        }
        tmp.push(d);
        x = x / 10;
    }
    let d0 = digit_char_of(x);
    proof {
        assert(dec_digits(x as nat) == seq![digit_ch(x as nat)]);
    }
    out.push(d0);
    let mut k: usize = tmp.len();
    proof {
        assert(rev_seq(tmp@).skip(tmp@.len() - k) =~= rev_seq(tmp@).skip(0));
        assert(rev_seq(tmp@).skip(0) =~= rev_seq(tmp@));
        assert(out@ =~= old(out)@ + (seq![digit_ch(x as nat)] + rev_seq(tmp@)).take(
            1 + (tmp@.len() - k),
        ));
    }
    while k > 0
        invariant
            k <= tmp.len(),
            out@ == old(out)@ + (seq![digit_ch(x as nat)] + rev_seq(tmp@)).take(
                1 + (tmp@.len() - k),
            ),
            dec_digits(m as nat) == seq![digit_ch(x as nat)] + rev_seq(tmp@),
        decreases k,
    {
        let c = tmp[k - 1];
        proof {
            let full = seq![digit_ch(x as nat)] + rev_seq(tmp@);
            assert(rev_seq(tmp@)[tmp@.len() - k] == tmp@[k - 1]);
            assert(full[1 + (tmp@.len() - k)] == tmp@[k - 1]);
            assert(full.take(1 + (tmp@.len() - k) + 1) =~= full.take(1 + (tmp@.len() - k)).push(
                tmp@[k - 1],
            ));
        }
        out.push(c);
        k = k - 1;
    }
    proof {
        let full = seq![digit_ch(x as nat)] + rev_seq(tmp@);
        assert(full.take(1 + tmp@.len() as int) =~= full);
    }
}

/// The decimal digits of `m` as a buffer.
fn dec_digits_vec(m: u64) -> (v: Vec<char>)
    ensures
        v@ == dec_digits(m as nat),
{
    let mut v: Vec<char> = Vec::new();
    push_dec_digits(&mut v, m);
    proof {
        assert(Seq::<char>::empty() + dec_digits(m as nat) =~= dec_digits(m as nat));
    }
    v
}

/// Append the text of an integer value.
fn push_int(out: &mut Vec<char>, x: i64)
    ensures
        final(out)@ == old(out)@ + enc_int(x as int),
{
    let mag: u64 = if x == i64::MIN {
        9_223_372_036_854_775_808u64
    } else if x < 0 {
        (-x) as u64
    } else {
        x as u64
    };
    if x < 0 {
        out.push('-');
    }
    push_dec_digits(out, mag);
    out.push('.');
    out.push('0');
    proof {
        let sign: Seq<char> = if x < 0 {
            seq!['-']
        } else {
            Seq::<char>::empty()
        };
        assert(out@ =~= old(out)@ + (sign + dec_digits(mag as nat) + seq!['.', '0']));
    }
}

/// Append the text of a decimal value within the finite range.
#[verifier::rlimit(60)]
fn push_dec(out: &mut Vec<char>, d: &Decimal)
    requires
        d.mantissa == 0 ==> d.exp == 0,
        -400 <= d.exp <= 350,
    ensures
        final(out)@ == old(out)@ + enc_dec(d.neg, d.mantissa as nat, d.exp as int),
{
    if d.neg {
        out.push('-');
    }
    let ghost sign: Seq<char> = if d.neg {
        seq!['-']
    } else {
        Seq::<char>::empty()
    };
    if d.mantissa == 0 {
        out.push('0');
        out.push('.');
        out.push('0');
        proof {
            assert(out@ =~= old(out)@ + (sign + seq!['0', '.', '0']));
        }
        return ;
    }
    let dv = dec_digits_vec(d.mantissa);
    let dlen = dv.len();
    proof {
        assert(dlen == dec_digits(d.mantissa as nat).len());
    }
    if d.exp >= 0 {
        push_dec_digits(out, d.mantissa);
        push_zeros(out, d.exp as u64);
        out.push('.');
        out.push('0');
        proof {
            assert(out@ =~= old(out)@ + (sign + dec_digits(d.mantissa as nat) + zeros(
                d.exp as nat,
            ) + seq!['.', '0']));
        }
    } else if ((-d.exp) as usize) < dlen {
        let cut = dlen - ((-d.exp) as usize);
        let mut k: usize = 0;
        proof {
            assert(out@ =~= old(out)@ + sign + dv@.take(0));
        }
        while k < cut
            invariant
                k <= cut <= dlen == dv.len(),
                out@ == old(out)@ + sign + dv@.take(k as int),
            decreases cut - k,
        {
            proof {
                assert(dv@.take(k as int + 1) =~= dv@.take(k as int).push(dv@[k as int]));
            }
            out.push(dv[k]);
            k = k + 1;
        }
        out.push('.');
        let mut k2: usize = cut;
        proof {
            assert(dv@.skip(cut as int).take(0) =~= Seq::<char>::empty());
            assert(out@ =~= old(out)@ + sign + dv@.take(cut as int) + seq!['.'] + dv@.skip(
                cut as int,
            ).take(0));
        }
        while k2 < dlen
            invariant
                cut <= k2 <= dlen == dv.len(),
                out@ == old(out)@ + sign + dv@.take(cut as int) + seq!['.'] + dv@.skip(
                    cut as int,
                ).take(k2 - cut),
            decreases dlen - k2,
        {
            proof {
                assert(dv@.skip(cut as int).take(k2 - cut + 1) =~= dv@.skip(cut as int).take(
                    k2 - cut,
                ).push(dv@[k2 as int]));
                assert(dv@.skip(cut as int)[k2 - cut] == dv@[k2 as int]);
            }
            out.push(dv[k2]);
            k2 = k2 + 1;
        }
        proof {
            assert(dv@.skip(cut as int).take(dlen - cut) =~= dv@.skip(cut as int));
            let dd = dec_digits(d.mantissa as nat);
            assert(cut as int == dd.len() + d.exp);
            assert(out@ =~= old(out)@ + (sign + dd.take(dd.len() + d.exp) + seq!['.'] + dd.skip(
                dd.len() + d.exp,
            )));
        }
    } else {
        out.push('0');
        out.push('.');
        push_zeros(out, ((-d.exp) as u64) - (dlen as u64));
        push_dec_digits(out, d.mantissa);
        proof {
            let dd = dec_digits(d.mantissa as nat);
            assert(out@ =~= old(out)@ + (sign + seq!['0', '.'] + zeros(
                (-d.exp - dd.len()) as nat,
            ) + dd));
        }
    }
}

/// Append the escaped content of a string.
fn push_esc(out: &mut Vec<char>, t: &Vec<char>)
    ensures
        final(out)@ == old(out)@ + esc_str(t@),
{
    let mut k: usize = 0;
    proof {
        assert(t@.take(0) =~= Seq::<char>::empty());
        assert(out@ =~= old(out)@ + esc_str(t@.take(0)));
    }
    while k < t.len()
        invariant
            k <= t.len(),
            out@ == old(out)@ + esc_str(t@.take(k as int)),
        decreases t.len() - k,
    {
        let c = t[k];
        proof {
            assert(t@.take(k as int + 1) =~= t@.take(k as int) + seq![c]);
            lemma_esc_append(t@.take(k as int), seq![c]);
            assert(seq![c].skip(1) =~= Seq::<char>::empty());
            assert(esc_str(seq![c]) == (if needs_esc(c) {
                esc_char(c)
            } else {
                seq![c]
            }) + esc_str(seq![c].skip(1)));
            assert(esc_str(seq![c]) =~= if needs_esc(c) {
                esc_char(c)
            } else {
                seq![c]
            });
        }
        if c == '"' {
            out.push('\\');
            out.push('"');
            proof {
                assert(out@ =~= old(out)@ + esc_str(t@.take(k as int)) + esc_char(c));
            }
        } else if c == '\\' {
            out.push('\\');
            out.push('\\');
            proof {
                assert(out@ =~= old(out)@ + esc_str(t@.take(k as int)) + esc_char(c));
            }
        } else if c == '\n' {
            out.push('\\');
            out.push('n');
            proof {
                assert(out@ =~= old(out)@ + esc_str(t@.take(k as int)) + esc_char(c));
            }
        } else if c == '\r' {
            out.push('\\');
            out.push('r');
            proof {
                assert(out@ =~= old(out)@ + esc_str(t@.take(k as int)) + esc_char(c));
            }
        } else if c == '\t' {
            out.push('\\');
            out.push('t');
            proof {
                assert(out@ =~= old(out)@ + esc_str(t@.take(k as int)) + esc_char(c));
            }
        } else if c == '\u{08}' {
            out.push('\\');
            out.push('b');
            proof {
                assert(out@ =~= old(out)@ + esc_str(t@.take(k as int)) + esc_char(c));
            }
        } else if c == '\u{0C}' {
            out.push('\\');
            out.push('f');
            proof {
                assert(out@ =~= old(out)@ + esc_str(t@.take(k as int)) + esc_char(c));
            }
        } else if (c as u32) < 0x20 {
            out.push('\\');
            out.push('u');
            out.push('{');
            let u = c as u32;
            if u < 16 {
                let h = hex_char_of(u);
                out.push(h);
                proof {
                    assert(hex_digits(u as nat) == seq![hex_ch(u as nat)]);
                }
            } else {
                let h = hex_char_of(u % 16);
                out.push('1');
                out.push(h);
                proof {
                    assert(u / 16 == 1);
                    assert(hex_digits(u as nat) == hex_digits((u as nat) / 16).push(
                        hex_ch((u as nat) % 16),
                    ));
                    assert(hex_digits(1) == seq![hex_ch(1)]);
                    assert(hex_ch(1) == '1') by {
                        vstd::utf8::char_u32_cast('1', ('0' as u32 + 1) as u32);
                    }
                    assert(seq![hex_ch(1nat)].push(hex_ch((u as nat) % 16)) =~= seq![
                        '1',
                        hex_ch((u as nat) % 16),
                    ]);
                }
            }
            out.push('}');
            proof {
                assert(esc_char(c) =~= seq!['\\', 'u', '{'] + hex_digits(c as u32 as nat)
                    + seq!['}']);
                assert(out@ =~= old(out)@ + esc_str(t@.take(k as int)) + esc_char(c));
            }
        } else {
            out.push(c);
            proof {
                assert(out@ =~= old(out)@ + esc_str(t@.take(k as int)) + seq![c]);
            }
        }
        k = k + 1;
    }
    proof {
        assert(t@.take(t@.len() as int) =~= t@);
    }
}

// ---------------------------------------------------------------------
// Homomorphism lemmas for building container text item by item.
// ---------------------------------------------------------------------
pub proof fn lemma_enc_list_snoc(items: Seq<TotV>, x: TotV, ind: nat)
    ensures
        enc_list_items(items.push(x), ind) == enc_list_items(items, ind) + spaces(
            4 * ((ind - 1) as nat),
        ) + enc_value(x, ind) + seq!['\n'],
    decreases items.len(),
{
    let line = spaces(4 * ((ind - 1) as nat)) + enc_value(x, ind) + seq!['\n'];
    if items.len() == 0 {
        assert(items.push(x)[0] == x);
        assert(items.push(x).skip(1) =~= Seq::<TotV>::empty());
        assert(enc_list_items(items.push(x), ind) == spaces(4 * ((ind - 1) as nat))
            + enc_value(x, ind) + seq!['\n'] + enc_list_items(items.push(x).skip(1), ind));
        assert(enc_list_items(items.push(x).skip(1), ind) == Seq::<char>::empty());
        assert(enc_list_items(items, ind) == Seq::<char>::empty());
        assert(enc_list_items(items.push(x), ind) =~= enc_list_items(items, ind) + spaces(
            4 * ((ind - 1) as nat),
        ) + enc_value(x, ind) + seq!['\n']);
    } else {
        assert(items.push(x)[0] == items[0]);
        assert(items.push(x).skip(1) =~= items.skip(1).push(x));
        lemma_enc_list_snoc(items.skip(1), x, ind);
        let head = spaces(4 * ((ind - 1) as nat)) + enc_value(items[0], ind) + seq!['\n'];
        assert(enc_list_items(items.push(x), ind) == head + enc_list_items(
            items.skip(1).push(x),
            ind,
        ));
        assert(enc_list_items(items.skip(1).push(x), ind) == enc_list_items(items.skip(1), ind)
            + spaces(4 * ((ind - 1) as nat)) + enc_value(x, ind) + seq!['\n']);
        assert(head + (enc_list_items(items.skip(1), ind) + spaces(4 * ((ind - 1) as nat))
            + enc_value(x, ind) + seq!['\n']) =~= (head + enc_list_items(items.skip(1), ind))
            + spaces(4 * ((ind - 1) as nat)) + enc_value(x, ind) + seq!['\n']);
    }
}

pub proof fn lemma_enc_dict_snoc(kvs: Seq<(Seq<char>, TotV)>, k: Seq<char>, x: TotV, ind: nat)
    ensures
        enc_dict_entries(kvs.push((k, x)), ind) == enc_dict_entries(kvs, ind) + spaces(
            4 * ((ind - 1) as nat),
        ) + k + seq![' '] + enc_value(x, ind) + seq!['\n'],
    decreases kvs.len(),
{
    let kv = (k, x);
    if kvs.len() == 0 {
        assert(kvs.push(kv)[0] == kv);
        assert(kvs.push(kv).skip(1) =~= Seq::<(Seq<char>, TotV)>::empty());
        assert(enc_dict_entries(kvs.push(kv), ind) == spaces(4 * ((ind - 1) as nat)) + k
            + seq![' '] + enc_value(x, ind) + seq!['\n'] + enc_dict_entries(
            kvs.push(kv).skip(1),
            ind,
        ));
        assert(enc_dict_entries(kvs.push(kv).skip(1), ind) == Seq::<char>::empty());
        assert(enc_dict_entries(kvs, ind) == Seq::<char>::empty());
        assert(enc_dict_entries(kvs.push(kv), ind) =~= enc_dict_entries(kvs, ind) + spaces(
            4 * ((ind - 1) as nat),
        ) + k + seq![' '] + enc_value(x, ind) + seq!['\n']);
    } else {
        assert(kvs.push(kv)[0] == kvs[0]);
        assert(kvs.push(kv).skip(1) =~= kvs.skip(1).push(kv));
        lemma_enc_dict_snoc(kvs.skip(1), k, x, ind);
        let head = spaces(4 * ((ind - 1) as nat)) + kvs[0].0 + seq![' '] + enc_value(
            kvs[0].1,
            ind,
        ) + seq!['\n'];
        assert(enc_dict_entries(kvs.push(kv), ind) == head + enc_dict_entries(
            kvs.skip(1).push(kv),
            ind,
        ));
        assert(head + (enc_dict_entries(kvs.skip(1), ind) + spaces(4 * ((ind - 1) as nat)) + k
            + seq![' '] + enc_value(x, ind) + seq!['\n']) =~= (head + enc_dict_entries(
            kvs.skip(1),
            ind,
        )) + spaces(4 * ((ind - 1) as nat)) + k + seq![' '] + enc_value(x, ind) + seq!['\n']);
    }
}

pub proof fn lemma_enc_list_c_snoc(items: Seq<TotV>, x: TotV)
    ensures
        enc_list_items_c(items.push(x)) == enc_list_items_c(items) + enc_value_c(x, false)
            + seq![','],
    decreases items.len(),
{
    if items.len() == 0 {
        assert(items.push(x)[0] == x);
        assert(items.push(x).skip(1) =~= Seq::<TotV>::empty());
        assert(enc_list_items_c(items.push(x).skip(1)) == Seq::<char>::empty());
        assert(enc_list_items_c(items) == Seq::<char>::empty());
        assert(enc_list_items_c(items.push(x)) =~= enc_list_items_c(items) + enc_value_c(
            x,
            false,
        ) + seq![',']);
    } else {
        assert(items.push(x)[0] == items[0]);
        assert(items.push(x).skip(1) =~= items.skip(1).push(x));
        lemma_enc_list_c_snoc(items.skip(1), x);
        let head = enc_value_c(items[0], false) + seq![','];
        assert(enc_list_items_c(items.push(x)) == head + enc_list_items_c(
            items.skip(1).push(x),
        ));
        assert(head + (enc_list_items_c(items.skip(1)) + enc_value_c(x, false) + seq![','])
            =~= (head + enc_list_items_c(items.skip(1))) + enc_value_c(x, false) + seq![',']);
    }
}

pub proof fn lemma_enc_dict_c_snoc(kvs: Seq<(Seq<char>, TotV)>, k: Seq<char>, x: TotV)
    ensures
        enc_dict_entries_c(kvs.push((k, x))) == enc_dict_entries_c(kvs) + k + seq![' ']
            + enc_value_c(x, false) + seq![','],
    decreases kvs.len(),
{
    let kv = (k, x);
    if kvs.len() == 0 {
        assert(kvs.push(kv)[0] == kv);
        assert(kvs.push(kv).skip(1) =~= Seq::<(Seq<char>, TotV)>::empty());
        assert(enc_dict_entries_c(kvs.push(kv).skip(1)) == Seq::<char>::empty());
        assert(enc_dict_entries_c(kvs) == Seq::<char>::empty());
        assert(enc_dict_entries_c(kvs.push(kv)) =~= enc_dict_entries_c(kvs) + k + seq![' ']
            + enc_value_c(x, false) + seq![',']);
    } else {
        assert(kvs.push(kv)[0] == kvs[0]);
        assert(kvs.push(kv).skip(1) =~= kvs.skip(1).push(kv));
        lemma_enc_dict_c_snoc(kvs.skip(1), k, x);
        let head = kvs[0].0 + seq![' '] + enc_value_c(kvs[0].1, false) + seq![','];
        assert(enc_dict_entries_c(kvs.push(kv)) == head + enc_dict_entries_c(
            kvs.skip(1).push(kv),
        ));
        assert(head + (enc_dict_entries_c(kvs.skip(1)) + k + seq![' '] + enc_value_c(x, false)
            + seq![',']) =~= (head + enc_dict_entries_c(kvs.skip(1))) + k + seq![' ']
            + enc_value_c(x, false) + seq![',']);
    }
}

pub proof fn lemma_enc_ok_list_iff(items: Seq<TotV>, ind: nat)
    ensures
        enc_ok_list(items, ind) <==> (forall|k: int|
            0 <= k < items.len() ==> enc_ok_at(#[trigger] items[k], ind)),
    decreases items.len(),
{
    if items.len() > 0 {
        lemma_enc_ok_list_iff(items.skip(1), ind);
        assert forall|k: int|
            1 <= k < items.len() implies items.skip(1)[k - 1] == items[k] by {}
        if enc_ok_at(items[0], ind) && enc_ok_list(items.skip(1), ind) {
            assert forall|k: int|
                0 <= k < items.len() implies enc_ok_at(#[trigger] items[k], ind) by {
                if k > 0 {
                    assert(items[k] == items.skip(1)[k - 1]);
                }
            }
        }
    }
}

pub proof fn lemma_enc_ok_dict_iff(kvs: Seq<(Seq<char>, TotV)>, ind: nat)
    ensures
        enc_ok_dict(kvs, ind) <==> (forall|k: int|
            0 <= k < kvs.len() ==> enc_ok_at((#[trigger] kvs[k]).1, ind)),
    decreases kvs.len(),
{
    if kvs.len() > 0 {
        lemma_enc_ok_dict_iff(kvs.skip(1), ind);
        assert forall|k: int| 1 <= k < kvs.len() implies kvs.skip(1)[k - 1] == kvs[k] by {}
        if enc_ok_at(kvs[0].1, ind) && enc_ok_dict(kvs.skip(1), ind) {
            assert forall|k: int|
                0 <= k < kvs.len() implies enc_ok_at((#[trigger] kvs[k]).1, ind) by {
                if k > 0 {
                    assert(kvs[k] == kvs.skip(1)[k - 1]);
                }
            }
        }
    }
}

pub proof fn lemma_tv_dict_len(l: Seq<(String, TotValue)>)
    ensures
        tv_dict(l).len() == l.len(),
        forall|k: int|
            0 <= k < l.len() ==> tv_dict(l)[k] == ((#[trigger] l[k]).0@, tv(l[k].1)),
    decreases l.len(),
{
    if l.len() > 0 {
        lemma_tv_dict_len(l.skip(1));
        assert forall|k: int|
            0 <= k < l.len() implies tv_dict(l)[k] == ((#[trigger] l[k]).0@, tv(l[k].1)) by {
            if k > 0 {
                assert(l.skip(1)[k - 1] == l[k]);
            }
        }
    }
}

// ---------------------------------------------------------------------
// The serializer and its formatters.
// ---------------------------------------------------------------------
/// What kind of value stands at the document root; fixed by the first
/// container that begins.
#[derive(Clone, Copy, Debug, PartialEq, Eq, Structural)]
pub enum RootType {
    Unset,
    Dict,
    List,
}

/// The pretty formatter: four spaces of indentation per open
/// container, one entry or element per line.
pub struct DefaultFormatter {
    pub indents: u64,
    pub root_type: RootType,
}

/// The compact formatter: no newlines or indentation; entries and
/// elements are separated by commas.  It tracks the open-container
/// depth so the root braces can be elided like the pretty formatter
/// does.
pub struct CompactFormatter {
    pub depth: u64,
    pub root_type: RootType,
}

/// The formatter a serializer writes through.
pub enum FormatterKind {
    Pretty(DefaultFormatter),
    Compact(CompactFormatter),
}

/// A serializer: the text written so far and the formatter state.
pub struct Serializer {
    out: Vec<char>,
    fmt: FormatterKind,
}

impl Serializer {
    /// The text written so far.
    pub closed spec fn buf(&self) -> Seq<char> {
        self.out@
    }

    /// The current indentation / open-container depth.
    pub closed spec fn ind(&self) -> u64 {
        match self.fmt {
            FormatterKind::Pretty(f) => f.indents,
            FormatterKind::Compact(f) => f.depth,
        }
    }

    /// Whether the root container kind has been fixed.
    pub closed spec fn rooted(&self) -> bool {
        match self.fmt {
            FormatterKind::Pretty(f) => !(f.root_type is Unset),
            FormatterKind::Compact(f) => !(f.root_type is Unset),
        }
    }

    /// Whether this serializer writes compact text.
    pub closed spec fn compact(&self) -> bool {
        self.fmt is Compact
    }

    /// A fresh pretty serializer.
    pub fn new() -> (s: Self)
        ensures
            s.buf() == Seq::<char>::empty(),
            s.ind() == 0,
            !s.rooted(),
            !s.compact(),
    {
        Serializer {
            out: Vec::new(),
            fmt: FormatterKind::Pretty(
                DefaultFormatter { indents: 0, root_type: RootType::Unset },
            ),
        }
    }

    /// A fresh compact serializer.
    pub fn new_compact() -> (s: Self)
        ensures
            s.buf() == Seq::<char>::empty(),
            s.ind() == 0,
            !s.rooted(),
            s.compact(),
    {
        Serializer {
            out: Vec::new(),
            fmt: FormatterKind::Compact(CompactFormatter { depth: 0, root_type: RootType::Unset }),
        }
    }

    /// Write `null`.
    pub fn write_null(&mut self)
        ensures
            final(self).buf() == old(self).buf() + seq!['n', 'u', 'l', 'l'],
            final(self).ind() == old(self).ind(),
            final(self).rooted() == old(self).rooted(),
            final(self).compact() == old(self).compact(),
    {
        self.out.push('n');
        self.out.push('u');
        self.out.push('l');
        self.out.push('l');
        proof {
            assert(self.out@ =~= old(self).out@ + seq!['n', 'u', 'l', 'l']);
        }
    }

    /// Write `true` or `false`.
    pub fn write_bool(&mut self, b: bool)
        ensures
            final(self).buf() == old(self).buf() + (if b {
                seq!['t', 'r', 'u', 'e']
            } else {
                seq!['f', 'a', 'l', 's', 'e']
            }),
            final(self).ind() == old(self).ind(),
            final(self).rooted() == old(self).rooted(),
            final(self).compact() == old(self).compact(),
    {
        if b {
            self.out.push('t');
            self.out.push('r');
            self.out.push('u');
            self.out.push('e');
            proof {
                assert(self.out@ =~= old(self).out@ + seq!['t', 'r', 'u', 'e']);
            }
        } else {
            self.out.push('f');
            self.out.push('a');
            self.out.push('l');
            self.out.push('s');
            self.out.push('e');
            proof {
                assert(self.out@ =~= old(self).out@ + seq!['f', 'a', 'l', 's', 'e']);
            }
        }
    }

    /// Write an integer as a number: digits and a `.0` tail.
    pub fn write_int(&mut self, x: i64)
        ensures
            final(self).buf() == old(self).buf() + enc_int(x as int),
            final(self).ind() == old(self).ind(),
            final(self).rooted() == old(self).rooted(),
            final(self).compact() == old(self).compact(),
    {
        push_int(&mut self.out, x);
    }

    /// Write a decimal number in plain decimal notation.
    pub fn write_number(&mut self, d: &Decimal)
        requires
            d.mantissa == 0 ==> d.exp == 0,
            -400 <= d.exp <= 350,
        ensures
            final(self).buf() == old(self).buf() + enc_dec(d.neg, d.mantissa as nat, d.exp as int),
            final(self).ind() == old(self).ind(),
            final(self).rooted() == old(self).rooted(),
            final(self).compact() == old(self).compact(),
    {
        push_dec(&mut self.out, d);
    }

    /// Write a string value: quoted, escaped.
    pub fn write_str(&mut self, t: &str)
        ensures
            final(self).buf() == old(self).buf() + enc_str(t@),
            final(self).ind() == old(self).ind(),
            final(self).rooted() == old(self).rooted(),
            final(self).compact() == old(self).compact(),
    {
        let chars = crate::chars::str_to_chars(t);
        self.out.push('"');
        push_esc(&mut self.out, &chars);
        self.out.push('"');
        proof {
            assert(self.out@ =~= old(self).out@ + (seq!['"'] + esc_str(t@) + seq!['"']));
        }
    }

    /// Write text exactly as given.  This carries a caller's own
    /// rendering (for instance of a binary float) into the output.
    pub fn write_text(&mut self, t: &str)
        ensures
            final(self).buf() == old(self).buf() + t@,
            final(self).ind() == old(self).ind(),
            final(self).rooted() == old(self).rooted(),
            final(self).compact() == old(self).compact(),
    {
        let chars = crate::chars::str_to_chars(t);
        let mut k: usize = 0;
        proof {
            assert(self.out@ =~= old(self).out@ + t@.take(0));
        }
        while k < chars.len()
            invariant
                k <= chars.len(),
                chars@ == t@,
                self.out@ == old(self).out@ + t@.take(k as int),
                self.fmt == old(self).fmt,
            decreases chars.len() - k,
        {
            proof {
                assert(t@.take(k as int + 1) =~= t@.take(k as int).push(t@[k as int]));
            }
            self.out.push(chars[k]);
            k = k + 1;
        }
        proof {
            assert(t@.take(t@.len() as int) =~= t@);
        }
    }

    /// Write a single space.
    pub fn write_space(&mut self)
        ensures
            final(self).buf() == old(self).buf() + seq![' '],
            final(self).ind() == old(self).ind(),
            final(self).rooted() == old(self).rooted(),
            final(self).compact() == old(self).compact(),
    {
        self.out.push(' ');
        proof {
            assert(self.out@ =~= old(self).out@ + seq![' ']);
        }
    }

    /// End an entry or element: a newline when pretty, a comma when
    /// compact.
    pub fn write_newline(&mut self)
        ensures
            final(self).buf() == old(self).buf() + (if old(self).compact() {
                seq![',']
            } else {
                seq!['\n']
            }),
            final(self).ind() == old(self).ind(),
            final(self).rooted() == old(self).rooted(),
            final(self).compact() == old(self).compact(),
    {
        match &self.fmt {
            FormatterKind::Pretty(_) => {
                self.out.push('\n');
                proof {
                    assert(self.out@ =~= old(self).out@ + seq!['\n']);
                }
            },
            FormatterKind::Compact(_) => {
                self.out.push(',');
                proof {
                    assert(self.out@ =~= old(self).out@ + seq![',']);
                }
            },
        }
    }

    /// Write the current indentation (nothing when compact or at the
    /// root).
    pub fn write_indent(&mut self)
        requires
            old(self).ind() <= 1000001,
        ensures
            final(self).buf() == old(self).buf() + (if !old(self).compact() && old(self).ind()
                >= 1 {
                spaces(4 * ((old(self).ind() - 1) as nat))
            } else {
                Seq::<char>::empty()
            }),
            final(self).ind() == old(self).ind(),
            final(self).rooted() == old(self).rooted(),
            final(self).compact() == old(self).compact(),
    {
        let k = match &self.fmt {
            FormatterKind::Pretty(f) => f.indents,
            FormatterKind::Compact(_) => 0,
        };
        if k >= 1 {
            push_spaces(&mut self.out, 4 * (k - 1));
        } else {
            proof {
                assert(self.out@ =~= old(self).out@ + Seq::<char>::empty());
            }
        }
    }

    /// Write a key: current indentation, the key text bare, one
    /// space.
    pub fn write_key(&mut self, k: &str)
        requires
            old(self).ind() <= 1000001,
        ensures
            final(self).buf() == old(self).buf() + (if !old(self).compact() && old(self).ind()
                >= 1 {
                spaces(4 * ((old(self).ind() - 1) as nat))
            } else {
                Seq::<char>::empty()
            }) + k@ + seq![' '],
            final(self).ind() == old(self).ind(),
            final(self).rooted() == old(self).rooted(),
            final(self).compact() == old(self).compact(),
    {
        self.write_indent();
        self.write_text(k);
        self.write_space();
    }

    /// Begin a list.  The first container fixes the root kind; a root
    /// list takes an extra level so its items sit one level in.  The
    /// opening bracket is written whenever a level is already open.
    pub fn begin_list(&mut self)
        requires
            old(self).ind() < 1000000,
        ensures
            final(self).ind() == old(self).ind() + (if old(self).rooted() {
                1int
            } else {
                2int
            }),
            final(self).rooted(),
            final(self).compact() == old(self).compact(),
            final(self).buf() == old(self).buf() + ({
                let at = old(self).ind() + (if old(self).rooted() {
                    0int
                } else {
                    1int
                });
                if at > 0 {
                    if old(self).compact() {
                        seq!['[']
                    } else {
                        seq!['[', '\n']
                    }
                } else {
                    Seq::<char>::empty()
                }
            }),
    {
        match &mut self.fmt {
            FormatterKind::Pretty(f) => {
                if f.root_type == RootType::Unset {
                    f.root_type = RootType::List;
                    f.indents = f.indents + 1;
                }
                if f.indents > 0 {
                    self.out.push('[');
                    self.out.push('\n');
                    proof {
                        assert(self.out@ =~= old(self).out@ + seq!['[', '\n']);
                    }
                } else {
                    proof {
                        assert(self.out@ =~= old(self).out@ + Seq::<char>::empty());
                    }
                }
                f.indents = f.indents + 1;
            },
            FormatterKind::Compact(f) => {
                if f.root_type == RootType::Unset {
                    f.root_type = RootType::List;
                    f.depth = f.depth + 1;
                }
                if f.depth > 0 {
                    self.out.push('[');
                    proof {
                        assert(self.out@ =~= old(self).out@ + seq!['[']);
                    }
                } else {
                    proof {
                        assert(self.out@ =~= old(self).out@ + Seq::<char>::empty());
                    }
                }
                f.depth = f.depth + 1;
            },
        }
    }

    /// End a list: drop one level; while a level stays open, write the
    /// closing indentation and the bracket.
    pub fn end_list(&mut self)
        requires
            1 <= old(self).ind() <= 1000001,
        ensures
            final(self).ind() == old(self).ind() - 1,
            final(self).rooted() == old(self).rooted(),
            final(self).compact() == old(self).compact(),
            final(self).buf() == old(self).buf() + (if old(self).ind() >= 2 {
                if old(self).compact() {
                    seq![']']
                } else {
                    spaces(4 * ((old(self).ind() - 2) as nat)) + seq![']']
                }
            } else {
                Seq::<char>::empty()
            }),
    {
        match &mut self.fmt {
            FormatterKind::Pretty(f) => {
                f.indents = f.indents - 1;
                if f.indents > 0 {
                    push_spaces(&mut self.out, 4 * (f.indents - 1));
                    self.out.push(']');
                    proof {
                        assert(self.out@ =~= old(self).out@ + (spaces(
                            4 * ((old(self).ind() - 2) as nat),
                        ) + seq![']']));
                    }
                } else {
                    proof {
                        assert(self.out@ =~= old(self).out@ + Seq::<char>::empty());
                    }
                }
            },
            FormatterKind::Compact(f) => {
                f.depth = f.depth - 1;
                if f.depth > 0 {
                    self.out.push(']');
                    proof {
                        assert(self.out@ =~= old(self).out@ + seq![']']);
                    }
                } else {
                    proof {
                        assert(self.out@ =~= old(self).out@ + Seq::<char>::empty());
                    }
                }
            },
        }
    }

    /// Begin a dictionary.  The first container fixes the root kind;
    /// at the root no brace is written, so the document keeps its
    /// implicit outer dictionary.
    pub fn begin_dict(&mut self)
        requires
            old(self).ind() < 1000000,
        ensures
            final(self).ind() == old(self).ind() + 1,
            final(self).rooted(),
            final(self).compact() == old(self).compact(),
            final(self).buf() == old(self).buf() + (if old(self).ind() > 0 {
                if old(self).compact() {
                    seq!['{']
                } else {
                    seq!['{', '\n']
                }
            } else {
                Seq::<char>::empty()
            }),
    {
        match &mut self.fmt {
            FormatterKind::Pretty(f) => {
                if f.root_type == RootType::Unset {
                    f.root_type = RootType::Dict;
                }
                if f.indents > 0 {
                    self.out.push('{');
                    self.out.push('\n');
                    proof {
                        assert(self.out@ =~= old(self).out@ + seq!['{', '\n']);
                    }
                } else {
                    proof {
                        assert(self.out@ =~= old(self).out@ + Seq::<char>::empty());
                    }
                }
                f.indents = f.indents + 1;
            },
            FormatterKind::Compact(f) => {
                if f.root_type == RootType::Unset {
                    f.root_type = RootType::Dict;
                }
                if f.depth > 0 {
                    self.out.push('{');
                    proof {
                        assert(self.out@ =~= old(self).out@ + seq!['{']);
                    }
                } else {
                    proof {
                        assert(self.out@ =~= old(self).out@ + Seq::<char>::empty());
                    }
                }
                f.depth = f.depth + 1;
            },
        }
    }

    /// End a dictionary: drop one level; while a level stays open,
    /// write the closing indentation and the brace.
    pub fn end_dict(&mut self)
        requires
            1 <= old(self).ind() <= 1000001,
        ensures
            final(self).ind() == old(self).ind() - 1,
            final(self).rooted() == old(self).rooted(),
            final(self).compact() == old(self).compact(),
            final(self).buf() == old(self).buf() + (if old(self).ind() >= 2 {
                if old(self).compact() {
                    seq!['}']
                } else {
                    spaces(4 * ((old(self).ind() - 2) as nat)) + seq!['}']
                }
            } else {
                Seq::<char>::empty()
            }),
    {
        match &mut self.fmt {
            FormatterKind::Pretty(f) => {
                f.indents = f.indents - 1;
                if f.indents > 0 {
                    push_spaces(&mut self.out, 4 * (f.indents - 1));
                    self.out.push('}');
                    proof {
                        assert(self.out@ =~= old(self).out@ + (spaces(
                            4 * ((old(self).ind() - 2) as nat),
                        ) + seq!['}']));
                    }
                } else {
                    proof {
                        assert(self.out@ =~= old(self).out@ + Seq::<char>::empty());
                    }
                }
            },
            FormatterKind::Compact(f) => {
                f.depth = f.depth - 1;
                if f.depth > 0 {
                    self.out.push('}');
                    proof {
                        assert(self.out@ =~= old(self).out@ + seq!['}']);
                    }
                } else {
                    proof {
                        assert(self.out@ =~= old(self).out@ + Seq::<char>::empty());
                    }
                }
            },
        }
    }

    /// Take the finished text.  Pretty output gets a single
    /// terminating newline if the stream did not already end with one.
    pub fn finish(self) -> (s: String)
        ensures
            s@ == if self.compact() {
                self.buf()
            } else {
                if self.buf().len() == 0 || self.buf()[self.buf().len() - 1] != '\n' {
                    self.buf() + seq!['\n']
                } else {
                    self.buf()
                }
            },
    {
        let mut out = self.out;
        match &self.fmt {
            FormatterKind::Pretty(_) => {
                let n = out.len();
                if n == 0 || out[n - 1] != '\n' {
                    out.push('\n');
                }
            },
            FormatterKind::Compact(_) => {},
        }
        chars_to_string(&out)
    }
}

impl Serializer {
    /// The current indentation / open-container depth, for callers.
    pub fn get_indent(&self) -> (k: u64)
        ensures
            k == self.ind(),
    {
        match &self.fmt {
            FormatterKind::Pretty(f) => f.indents,
            FormatterKind::Compact(f) => f.depth,
        }
    }

    /// Write a whole value, pretty.  Fails on a work-in-progress
    /// form, a decimal outside the finite range, or nesting past the
    /// depth cap, possibly leaving partial output behind.
    #[verifier::rlimit(100)]
    #[verifier::loop_isolation(false)]
    pub fn encode_value(&mut self, v: &TotValue) -> (r: Result<()>)
        requires
            !old(self).compact(),
            old(self).ind() == 0 && !old(self).rooted() || old(self).ind() >= 1 && old(
                self,
            ).rooted(),
            old(self).ind() <= 1000000,
        ensures
            final(self).compact() == old(self).compact(),
            match r {
                Ok(_) => {
                    &&& enc_ok_at(tv(*v), old(self).ind() as nat)
                    &&& final(self).buf() == old(self).buf() + enc_value(
                        tv(*v),
                        old(self).ind() as nat,
                    )
                    &&& (old(self).ind() >= 1 ==> final(self).ind() == old(self).ind()
                        && final(self).rooted())
                },
                Err(_) => !enc_ok_at(tv(*v), old(self).ind() as nat),
            },
        decreases v,
    {
        let ghost ind0 = old(self).ind() as nat;
        match v {
            TotValue::Unit => {
                self.write_null();
                Ok(())
            },
            TotValue::Boolean(b) => {
                self.write_bool(*b);
                Ok(())
            },
            TotValue::Integer(x) => {
                self.write_int(*x);
                Ok(())
            },
            TotValue::Float(d) => {
                if (d.mantissa == 0 && d.exp != 0) || (d.mantissa > 0 && d.mantissa % 10 == 0)
                    || d.exp < -400 || d.exp > 350 {
                    Err(Error::SerdeError(String::from_str("number not representable")))
                } else {
                    self.write_number(d);
                    Ok(())
                }
            },
            TotValue::String(t) => {
                self.write_str(t.as_str());
                Ok(())
            },
            TotValue::Generator { .. } => Err(
                Error::SerdeError(String::from_str("unsupported value")),
            ),
            TotValue::Missing => Err(Error::SerdeError(String::from_str("unsupported value"))),
            TotValue::List(l) => {
                proof {
                    assert(*v == TotValue::List(*l));
                    assert(decreases_to!(*v => v->List_0));
                }
                self.encode_list(l)
            },
            TotValue::Dict(entries) => {
                proof {
                    assert(*v == TotValue::Dict(*entries));
                    assert(decreases_to!(*v => v->Dict_0));
                }
                self.encode_dict(entries)
            },
        }
    }

    /// Write a list, pretty.
    #[verifier::rlimit(100)]
    #[verifier::loop_isolation(false)]
    fn encode_list(&mut self, l: &Vec<TotValue>) -> (r: Result<()>)
        requires
            !old(self).compact(),
            old(self).ind() == 0 && !old(self).rooted() || old(self).ind() >= 1 && old(
                self,
            ).rooted(),
            old(self).ind() <= 1000000,
        ensures
            final(self).compact() == old(self).compact(),
            match r {
                Ok(_) => {
                    &&& enc_ok_at(TotV::ListV(tv_list(l@)), old(self).ind() as nat)
                    &&& final(self).buf() == old(self).buf() + enc_value(
                        TotV::ListV(tv_list(l@)),
                        old(self).ind() as nat,
                    )
                    &&& (old(self).ind() >= 1 ==> final(self).ind() == old(self).ind()
                        && final(self).rooted())
                },
                Err(_) => !enc_ok_at(TotV::ListV(tv_list(l@)), old(self).ind() as nat),
            },
        decreases l,
    {
        let ghost ind0 = old(self).ind() as nat;
        let ghost vv = TotV::ListV(tv_list(l@));

                let cur = self.get_indent();
                if cur >= 1000000 {
                    proof {
                        assert(!enc_ok_at(vv, ind0));
                    }
                    return Err(Error::SerdeError(String::from_str("nesting too deep")));
                }
                self.begin_list();
                let ghost inner = self.ind() as nat;
                let ghost b1 = self.buf();
                proof {
                    assert(inner == if ind0 == 0 {
                        2nat
                    } else {
                        (ind0 + 1) as nat
                    });
                    lemma_tv_list(l@);
                    assert(tv_list(l@).take(0) =~= Seq::<TotV>::empty());
                    assert(b1 =~= old(self).buf() + seq!['[', '\n'] + enc_list_items(
                        tv_list(l@).take(0),
                        inner,
                    ));
                }
                let mut k: usize = 0;
                while k < l.len()
                    invariant
                        k <= l.len(),
                        !self.compact(),
                        self.rooted(),
                        self.ind() == inner,
                        1 <= inner <= 1000000,
                        ind0 < 1000000,
                        inner == if ind0 == 0 {
                            2nat
                        } else {
                            (ind0 + 1) as nat
                        },
                        tv_list(l@).len() == l@.len(),
                        forall|j: int| 0 <= j < l@.len() ==> tv_list(l@)[j] == tv(l@[j]),
                        self.buf() == old(self).buf() + seq!['[', '\n'] + enc_list_items(
                            tv_list(l@).take(k as int),
                            inner,
                        ),
                        forall|j: int| 0 <= j < k ==> enc_ok_at(tv_list(l@)[j], inner),
                    decreases l.len() - k,
                {
                    self.write_indent();
                    proof {
                        assert(decreases_to!(*l => l@));
                        assert(decreases_to!(l@ => l@[k as int]));
                    }
                    match self.encode_value(&l[k]) {
                        Ok(_) => {},
                        Err(e) => {
                            proof {
                                lemma_enc_ok_list_iff(tv_list(l@), inner);
                                assert(tv_list(l@)[k as int] == tv(l@[k as int]));
                                assert(!enc_ok_at(tv_list(l@)[k as int], inner));
                                assert(!enc_ok_list(tv_list(l@), inner));
                                assert(vv == TotV::ListV(tv_list(l@)));
                                assert(!enc_ok_at(vv, ind0));
                            }
                            return Err(e);
                        },
                    }
                    self.write_newline();
                    proof {
                        assert(tv_list(l@).take(k + 1) =~= tv_list(l@).take(k as int).push(
                            tv(l@[k as int]),
                        ));
                        lemma_enc_list_snoc(tv_list(l@).take(k as int), tv(l@[k as int]), inner);
                        assert(self.buf() =~= old(self).buf() + seq!['[', '\n']
                            + enc_list_items(tv_list(l@).take(k + 1), inner));
                    }
                    k = k + 1;
                }
                proof {
                    assert(tv_list(l@).take(l@.len() as int) =~= tv_list(l@));
                }
                self.end_list();
                proof {
                    lemma_enc_ok_list_iff(tv_list(l@), inner);
                    assert(enc_ok_at(vv, ind0));
                    let close: Seq<char> = if ind0 <= 1 {
                        Seq::<char>::empty()
                    } else {
                        spaces(4 * ((ind0 - 1) as nat))
                    };
                    assert(4 * ((inner - 2) as nat) == 4 * ((ind0 - 1) as nat) || ind0 <= 1);
                    if ind0 <= 1 {
                        assert(spaces(4 * ((inner - 2) as nat)) =~= Seq::<char>::empty());
                    }
                    assert(self.buf() =~= old(self).buf() + enc_value(vv, ind0));
                }
                Ok(())
    }

    /// Write a dictionary, pretty.
    #[verifier::rlimit(100)]
    #[verifier::loop_isolation(false)]
    fn encode_dict(&mut self, entries: &Vec<(String, TotValue)>) -> (r: Result<()>)
        requires
            !old(self).compact(),
            old(self).ind() == 0 && !old(self).rooted() || old(self).ind() >= 1 && old(
                self,
            ).rooted(),
            old(self).ind() <= 1000000,
        ensures
            final(self).compact() == old(self).compact(),
            match r {
                Ok(_) => {
                    &&& enc_ok_at(TotV::DictV(tv_dict(entries@)), old(self).ind() as nat)
                    &&& final(self).buf() == old(self).buf() + enc_value(
                        TotV::DictV(tv_dict(entries@)),
                        old(self).ind() as nat,
                    )
                    &&& (old(self).ind() >= 1 ==> final(self).ind() == old(self).ind()
                        && final(self).rooted())
                },
                Err(_) => !enc_ok_at(TotV::DictV(tv_dict(entries@)), old(self).ind() as nat),
            },
        decreases entries,
    {
        let ghost ind0 = old(self).ind() as nat;
        let ghost vv = TotV::DictV(tv_dict(entries@));

                let cur = self.get_indent();
                if cur >= 1000000 {
                    proof {
                        assert(!enc_ok_at(vv, ind0));
                    }
                    return Err(Error::SerdeError(String::from_str("nesting too deep")));
                }
                self.begin_dict();
                let ghost inner = self.ind() as nat;
                proof {
                    assert(inner == (ind0 + 1) as nat);
                    lemma_tv_dict_len(entries@);
                    assert(tv_dict(entries@).take(0) =~= Seq::<(Seq<char>, TotV)>::empty());
                    assert(self.buf() =~= old(self).buf() + (if ind0 > 0 {
                        seq!['{', '\n']
                    } else {
                        Seq::<char>::empty()
                    }) + enc_dict_entries(tv_dict(entries@).take(0), inner));
                }
                let mut k: usize = 0;
                while k < entries.len()
                    invariant
                        k <= entries.len(),
                        !self.compact(),
                        self.rooted(),
                        self.ind() == inner,
                        1 <= inner <= 1000000,
                        ind0 < 1000000,
                        inner == (ind0 + 1) as nat,
                        tv_dict(entries@).len() == entries@.len(),
                        forall|j: int|
                            0 <= j < entries@.len() ==> tv_dict(entries@)[j] == ((
                            #[trigger] entries@[j]).0@, tv(entries@[j].1)),
                        self.buf() == old(self).buf() + (if ind0 > 0 {
                            seq!['{', '\n']
                        } else {
                            Seq::<char>::empty()
                        }) + enc_dict_entries(tv_dict(entries@).take(k as int), inner),
                        forall|j: int|
                            0 <= j < k ==> enc_ok_at((#[trigger] tv_dict(entries@)[j]).1, inner),
                    decreases entries.len() - k,
                {
                    self.write_key(entries[k].0.as_str());
                    proof {
                        assert(decreases_to!(*entries => entries@));
                        assert(decreases_to!(entries@ => entries@[k as int]));
                        assert(decreases_to!(entries@[k as int] => entries@[k as int].1));
                    }
                    match self.encode_value(&entries[k].1) {
                        Ok(_) => {},
                        Err(e) => {
                            proof {
                                lemma_enc_ok_dict_iff(tv_dict(entries@), inner);
                                assert(tv_dict(entries@)[k as int].1 == tv(
                                    entries@[k as int].1,
                                ));
                                assert(!enc_ok_at(tv_dict(entries@)[k as int].1, inner));
                                assert(!enc_ok_dict(tv_dict(entries@), inner));
                                assert(vv == TotV::DictV(tv_dict(entries@)));
                                assert(!enc_ok_at(vv, ind0));
                            }
                            return Err(e);
                        },
                    }
                    self.write_newline();
                    proof {
                        assert(tv_dict(entries@).take(k + 1) =~= tv_dict(entries@).take(
                            k as int,
                        ).push((entries@[k as int].0@, tv(entries@[k as int].1))));
                        lemma_enc_dict_snoc(
                            tv_dict(entries@).take(k as int),
                            entries@[k as int].0@,
                            tv(entries@[k as int].1),
                            inner,
                        );
                        assert(self.buf() =~= old(self).buf() + (if ind0 > 0 {
                            seq!['{', '\n']
                        } else {
                            Seq::<char>::empty()
                        }) + enc_dict_entries(tv_dict(entries@).take(k + 1), inner));
                    }
                    k = k + 1;
                }
                proof {
                    assert(tv_dict(entries@).take(entries@.len() as int) =~= tv_dict(entries@));
                }
                self.end_dict();
                proof {
                    lemma_enc_ok_dict_iff(tv_dict(entries@), inner);
                    assert(enc_ok_at(vv, ind0));
                    if ind0 == 0 {
                        assert(self.buf() =~= old(self).buf() + enc_value(vv, ind0));
                    } else {
                        if ind0 <= 1 {
                            assert(spaces(4 * ((inner - 2) as nat)) =~= Seq::<char>::empty());
                        }
                        assert(self.buf() =~= old(self).buf() + enc_value(vv, ind0));
                    }
                }
                Ok(())
    }

    /// Write a whole value, compact.  Fails on the same inputs as the
    /// pretty form.
    #[verifier::rlimit(100)]
    #[verifier::loop_isolation(false)]
    pub fn encode_value_compact(&mut self, v: &TotValue) -> (r: Result<()>)
        requires
            old(self).compact(),
            old(self).ind() == 0 && !old(self).rooted() || old(self).ind() >= 1 && old(
                self,
            ).rooted(),
            old(self).ind() <= 1000000,
        ensures
            final(self).compact() == old(self).compact(),
            match r {
                Ok(_) => {
                    &&& enc_ok_at(tv(*v), old(self).ind() as nat)
                    &&& final(self).buf() == old(self).buf() + enc_value_c(
                        tv(*v),
                        old(self).ind() == 0,
                    )
                    &&& (old(self).ind() >= 1 ==> final(self).ind() == old(self).ind()
                        && final(self).rooted())
                },
                Err(_) => !enc_ok_at(tv(*v), old(self).ind() as nat),
            },
        decreases v,
    {
        let ghost ind0 = old(self).ind() as nat;
        match v {
            TotValue::Unit => {
                self.write_null();
                Ok(())
            },
            TotValue::Boolean(b) => {
                self.write_bool(*b);
                Ok(())
            },
            TotValue::Integer(x) => {
                self.write_int(*x);
                Ok(())
            },
            TotValue::Float(d) => {
                if (d.mantissa == 0 && d.exp != 0) || (d.mantissa > 0 && d.mantissa % 10 == 0)
                    || d.exp < -400 || d.exp > 350 {
                    Err(Error::SerdeError(String::from_str("number not representable")))
                } else {
                    self.write_number(d);
                    Ok(())
                }
            },
            TotValue::String(t) => {
                self.write_str(t.as_str());
                Ok(())
            },
            TotValue::Generator { .. } => Err(
                Error::SerdeError(String::from_str("unsupported value")),
            ),
            TotValue::Missing => Err(Error::SerdeError(String::from_str("unsupported value"))),
            TotValue::List(l) => {
                let cur = self.get_indent();
                if cur >= 1000000 {
                    proof {
                        assert(!enc_ok_at(tv(*v), ind0));
                    }
                    return Err(Error::SerdeError(String::from_str("nesting too deep")));
                }
                self.begin_list();
                let ghost inner = self.ind() as nat;
                proof {
                    assert(inner == if ind0 == 0 {
                        2nat
                    } else {
                        (ind0 + 1) as nat
                    });
                    lemma_tv_list(l@);
                    assert(tv_list(l@).take(0) =~= Seq::<TotV>::empty());
                    assert(self.buf() =~= old(self).buf() + seq!['['] + enc_list_items_c(
                        tv_list(l@).take(0),
                    ));
                }
                let mut k: usize = 0;
                while k < l.len()
                    invariant
                        k <= l.len(),
                        self.compact(),
                        self.rooted(),
                        self.ind() == inner,
                        1 <= inner <= 1000000,
                        ind0 < 1000000,
                        inner == if ind0 == 0 {
                            2nat
                        } else {
                            (ind0 + 1) as nat
                        },
                        tv_list(l@).len() == l@.len(),
                        forall|j: int| 0 <= j < l@.len() ==> tv_list(l@)[j] == tv(l@[j]),
                        self.buf() == old(self).buf() + seq!['['] + enc_list_items_c(
                            tv_list(l@).take(k as int),
                        ),
                        forall|j: int| 0 <= j < k ==> enc_ok_at(tv_list(l@)[j], inner),
                    decreases l.len() - k,
                {
                    proof {
                        assert(*v == TotValue::List(*l));
                        assert(decreases_to!(*v => v->List_0));
                        assert(decreases_to!(v->List_0 => v->List_0@));
                        assert(decreases_to!(v->List_0@ => v->List_0@[k as int]));
                        assert(l@[k as int] == v->List_0@[k as int]);
                    }
                    match self.encode_value_compact(&l[k]) {
                        Ok(_) => {},
                        Err(e) => {
                            proof {
                                lemma_enc_ok_list_iff(tv_list(l@), inner);
                                assert(tv_list(l@)[k as int] == tv(l@[k as int]));
                                assert(!enc_ok_at(tv_list(l@)[k as int], inner));
                                assert(!enc_ok_list(tv_list(l@), inner));
                                assert(tv(*v) == TotV::ListV(tv_list(l@)));
                                assert(!enc_ok_at(tv(*v), ind0));
                            }
                            return Err(e);
                        },
                    }
                    self.write_newline();
                    proof {
                        assert(tv_list(l@).take(k + 1) =~= tv_list(l@).take(k as int).push(
                            tv(l@[k as int]),
                        ));
                        lemma_enc_list_c_snoc(tv_list(l@).take(k as int), tv(l@[k as int]));
                        assert(self.buf() =~= old(self).buf() + seq!['['] + enc_list_items_c(
                            tv_list(l@).take(k + 1),
                        ));
                    }
                    k = k + 1;
                }
                proof {
                    assert(tv_list(l@).take(l@.len() as int) =~= tv_list(l@));
                }
                self.end_list();
                proof {
                    lemma_enc_ok_list_iff(tv_list(l@), inner);
                    assert(enc_ok_at(tv(*v), ind0));
                    assert(self.buf() =~= old(self).buf() + enc_value_c(tv(*v), ind0 == 0));
                }
                Ok(())
            },
            TotValue::Dict(entries) => {
                let cur = self.get_indent();
                if cur >= 1000000 {
                    proof {
                        assert(!enc_ok_at(tv(*v), ind0));
                    }
                    return Err(Error::SerdeError(String::from_str("nesting too deep")));
                }
                self.begin_dict();
                let ghost inner = self.ind() as nat;
                proof {
                    assert(inner == (ind0 + 1) as nat);
                    lemma_tv_dict_len(entries@);
                    assert(tv_dict(entries@).take(0) =~= Seq::<(Seq<char>, TotV)>::empty());
                    assert(self.buf() =~= old(self).buf() + (if ind0 > 0 {
                        seq!['{']
                    } else {
                        Seq::<char>::empty()
                    }) + enc_dict_entries_c(tv_dict(entries@).take(0)));
                }
                let mut k: usize = 0;
                while k < entries.len()
                    invariant
                        k <= entries.len(),
                        self.compact(),
                        self.rooted(),
                        self.ind() == inner,
                        1 <= inner <= 1000000,
                        ind0 < 1000000,
                        inner == (ind0 + 1) as nat,
                        tv_dict(entries@).len() == entries@.len(),
                        forall|j: int|
                            0 <= j < entries@.len() ==> tv_dict(entries@)[j] == ((
                            #[trigger] entries@[j]).0@, tv(entries@[j].1)),
                        self.buf() == old(self).buf() + (if ind0 > 0 {
                            seq!['{']
                        } else {
                            Seq::<char>::empty()
                        }) + enc_dict_entries_c(tv_dict(entries@).take(k as int)),
                        forall|j: int|
                            0 <= j < k ==> enc_ok_at((#[trigger] tv_dict(entries@)[j]).1, inner),
                    decreases entries.len() - k,
                {
                    self.write_key(entries[k].0.as_str());
                    proof {
                        assert(*v == TotValue::Dict(*entries));
                        assert(decreases_to!(*v => v->Dict_0));
                        assert(decreases_to!(v->Dict_0 => v->Dict_0@));
                        assert(decreases_to!(v->Dict_0@ => v->Dict_0@[k as int]));
                        assert(decreases_to!(v->Dict_0@[k as int] => v->Dict_0@[k as int].1));
                        assert(entries@[k as int].1 == v->Dict_0@[k as int].1);
                    }
                    match self.encode_value_compact(&entries[k].1) {
                        Ok(_) => {},
                        Err(e) => {
                            proof {
                                lemma_enc_ok_dict_iff(tv_dict(entries@), inner);
                                assert(tv_dict(entries@)[k as int].1 == tv(
                                    entries@[k as int].1,
                                ));
                                assert(!enc_ok_at(tv_dict(entries@)[k as int].1, inner));
                                assert(!enc_ok_dict(tv_dict(entries@), inner));
                                assert(tv(*v) == TotV::DictV(tv_dict(entries@)));
                                assert(!enc_ok_at(tv(*v), ind0));
                            }
                            return Err(e);
                        },
                    }
                    self.write_newline();
                    proof {
                        assert(tv_dict(entries@).take(k + 1) =~= tv_dict(entries@).take(
                            k as int,
                        ).push((entries@[k as int].0@, tv(entries@[k as int].1))));
                        lemma_enc_dict_c_snoc(
                            tv_dict(entries@).take(k as int),
                            entries@[k as int].0@,
                            tv(entries@[k as int].1),
                        );
                        assert(self.buf() =~= old(self).buf() + (if ind0 > 0 {
                            seq!['{']
                        } else {
                            Seq::<char>::empty()
                        }) + enc_dict_entries_c(tv_dict(entries@).take(k + 1)));
                    }
                    k = k + 1;
                }
                proof {
                    assert(tv_dict(entries@).take(entries@.len() as int) =~= tv_dict(entries@));
                }
                self.end_dict();
                proof {
                    lemma_enc_ok_dict_iff(tv_dict(entries@), inner);
                    assert(enc_ok_at(tv(*v), ind0));
                    assert(self.buf() =~= old(self).buf() + enc_value_c(tv(*v), ind0 == 0));
                }
                Ok(())
            },
        }
    }
}

/// Serialize a value into pretty Tot: four-space indentation, one
/// entry or element per line, a single terminating newline.
pub fn encode(v: &TotValue) -> (r: Result<String>)
    ensures
        match r {
            Ok(t) => enc_ok_at(tv(*v), 0) && t@ == enc_doc(tv(*v)),
            Err(_) => !enc_ok_at(tv(*v), 0),
        },
{
    let mut s = Serializer::new();
    s.encode_value(v)?;
    proof {
        assert(Seq::<char>::empty() + enc_value(tv(*v), 0) =~= enc_value(tv(*v), 0));
    }
    Ok(s.finish())
}

/// Serialize a value into compact Tot: no newlines or indentation,
/// entries and elements separated by commas.
pub fn encode_compact(v: &TotValue) -> (r: Result<String>)
    ensures
        match r {
            Ok(t) => enc_ok_at(tv(*v), 0) && t@ == enc_doc_c(tv(*v)),
            Err(_) => !enc_ok_at(tv(*v), 0),
        },
{
    let mut s = Serializer::new_compact();
    s.encode_value_compact(v)?;
    proof {
        assert(Seq::<char>::empty() + enc_value_c(tv(*v), true) =~= enc_value_c(tv(*v), true));
    }
    Ok(s.finish())
}

} // verus!
