//! The pull decoder.
//!
//! A [`Deserializer`] owns a cursor over the document text and a depth
//! counter.  The counter records how many explicit containers (`[` or
//! `{`) are open around the cursor; the document root is an implicit
//! dictionary, entered at depth zero without consuming a brace.  Every
//! begin must be paired with the matching end, which restores the
//! depth; closing delimiters and end of input are interpreted relative
//! to the depth.
//!
//! Numbers carry no type tag in the text: the typed accessors round
//! the parsed decimal to the nearest integer, ties away from zero,
//! then coerce: widths below 64 bits reject out-of-range values,
//! 64-bit widths saturate to the nearest bound, and unsigned widths
//! saturate negative values to zero.

use vstd::prelude::*;
use crate::chars::str_to_chars;
use crate::error::{Error, Result};
use crate::grammar::{skip_ign, p_unit, p_bool, p_number, p_string, p_key, num_rep, TotV};
use crate::num::{Number, Decimal, round_mag, clamp_i64, clamp_u64, coerce_i64, coerce_u64,
    num_round, dec_normal};
use crate::parser;

verus! {

broadcast use vstd::seq_lib::lemma_seq_skip_of_skip;

/// The signed integer a numeric tree rounds to, ties away from zero.
pub open spec fn tv_round(n: TotV) -> int {
    match n {
        TotV::IntV(x) => x,
        TotV::DecV { neg, m, e } => if neg {
            -(round_mag(m, e) as int)
        } else {
            round_mag(m, e) as int
        },
        _ => 0,
    }
}

/// A pull decoder over a document.
pub struct Deserializer {
    input: Vec<char>,
    pos: usize,
    depth: u64,
}

impl Deserializer {
    /// The text not yet consumed.
    pub closed spec fn rem(&self) -> Seq<char> {
        self.input@.skip(self.pos as int)
    }

    /// How many explicit containers are open around the cursor.
    pub closed spec fn level(&self) -> u64 {
        self.depth
    }

    /// The cursor never leaves the text.
    pub closed spec fn wf(&self) -> bool {
        self.pos <= self.input.len()
    }

    /// Start decoding a document.
    pub fn from_str(input: &str) -> (d: Self)
        ensures
            d.wf(),
            d.rem() == input@,
            d.level() == 0,
    {
        let v = str_to_chars(input);
        proof {
            assert(v@.skip(0) =~= input@);
        }
        Deserializer { input: v, pos: 0, depth: 0 }
    }

    /// The next character, not consumed.
    pub fn peek(&self) -> (r: Result<char>)
        requires
            self.wf(),
        ensures
            match r {
                Ok(c) => self.rem().len() > 0 && c == self.rem()[0],
                Err(_) => self.rem().len() == 0,
            },
    {
        if self.pos < self.input.len() {
            proof {
                assert(self.rem()[0] == self.input@[self.pos as int]);
            }
            Ok(self.input[self.pos])
        } else {
            Err(Error::SerdeError(String::from_str("eof")))
        }
    }

    /// The next character, consumed.
    pub fn take(&mut self) -> (r: Result<char>)
        requires
            old(self).wf(),
        ensures
            final(self).wf(),
            match r {
                Ok(c) => {
                    &&& old(self).rem().len() > 0
                    &&& c == old(self).rem()[0]
                    &&& final(self).rem() == old(self).rem().skip(1)
                    &&& final(self).level() == old(self).level()
                },
                Err(_) => old(self).rem().len() == 0 && *final(self) == *old(self),
            },
    {
        if self.pos < self.input.len() {
            proof {
                assert(self.rem()[0] == self.input@[self.pos as int]);
                assert(self.input@.skip(self.pos as int + 1) == self.rem().skip(1));
            }
            let c = self.input[self.pos];
            self.pos = self.pos + 1;
            Ok(c)
        } else {
            Err(Error::SerdeError(String::from_str("eof")))
        }
    }

    /// Consume the run of ignored input at the cursor.  Never fails.
    pub fn parse_ws(&mut self) -> (r: Result<()>)
        requires
            old(self).wf(),
        ensures
            final(self).wf(),
            r is Ok,
            final(self).rem() == skip_ign(old(self).rem()),
            final(self).level() == old(self).level(),
    {
        let j = parser::all_ignored_at(&self.input, self.pos);
        self.pos = j;
        Ok(())
    }

    /// Consume the literal `null`.
    pub fn parse_unit(&mut self) -> (r: Result<()>)
        requires
            old(self).wf(),
        ensures
            final(self).wf(),
            match r {
                Ok(_) => p_unit(old(self).rem()) == Some(final(self).rem()) && final(self).level() == old(self).level(),
                Err(_) => p_unit(old(self).rem()) is None && *final(self) == *old(self),
            },
    {
        match parser::unit_at(&self.input, self.pos) {
            Ok(j) => {
                self.pos = j;
                Ok(())
            },
            Err(e) => Err(Error::ParserError(e)),
        }
    }

    /// Consume `true` or `false`.
    pub fn parse_bool(&mut self) -> (r: Result<bool>)
        requires
            old(self).wf(),
        ensures
            final(self).wf(),
            match r {
                Ok(b) => p_bool(old(self).rem()) == Some((b, final(self).rem())) && final(self).level() == old(self).level(),
                Err(_) => p_bool(old(self).rem()) is None && *final(self) == *old(self),
            },
    {
        match parser::boolean_at(&self.input, self.pos) {
            Ok((j, b)) => {
                self.pos = j;
                Ok(b)
            },
            Err(e) => Err(Error::ParserError(e)),
        }
    }

    /// Consume a numeric literal, kept exactly.
    pub fn parse_number(&mut self) -> (r: Result<Number>)
        requires
            old(self).wf(),
        ensures
            final(self).wf(),
            match r {
                Ok(n) => {
                    &&& p_number(old(self).rem()) == Some((num_rep(n), final(self).rem()))
                    &&& final(self).level() == old(self).level()
                    &&& (n matches Number::Dec(d) ==> dec_normal(d))
                },
                Err(_) => p_number(old(self).rem()) is None && *final(self) == *old(self),
            },
    {
        match parser::number_at(&self.input, self.pos) {
            Ok((j, n)) => {
                self.pos = j;
                Ok(n)
            },
            Err(e) => Err(Error::ParserError(e)),
        }
    }

    /// Consume a numeric literal and hand back the text it occupied,
    /// for callers that feed it to another number representation.
    pub fn parse_number_text(&mut self) -> (r: Result<String>)
        requires
            old(self).wf(),
        ensures
            final(self).wf(),
            match r {
                Ok(t) => {
                    &&& p_number(old(self).rem()) is Some
                    &&& old(self).rem() == t@ + final(self).rem()
                    &&& final(self).rem() == (p_number(old(self).rem())->0).1
                    &&& final(self).level() == old(self).level()
                },
                Err(_) => p_number(old(self).rem()) is None && *final(self) == *old(self),
            },
    {
        match parser::number_at(&self.input, self.pos) {
            Ok((j, _)) => {
                let ghost p0 = self.pos as int;
                let mut t: Vec<char> = Vec::new();
                let mut p = self.pos;
                while p < j
                    invariant
                        *self == *old(self),
                        p0 == self.pos as int,
                        p0 <= p <= j <= self.input.len(),
                        t@ == self.input@.subrange(p0, p as int),
                    decreases j - p,
                {
                    t.push(self.input[p]);
                    p = p + 1;
                    proof {
                        assert(t@ =~= self.input@.subrange(p0, p as int));
                    }
                }
                proof {
                    assert(self.input@.skip(p0) =~= self.input@.subrange(p0, j as int)
                        + self.input@.skip(j as int));
                }
                self.pos = j;
                Ok(crate::chars::chars_to_string(&t))
            },
            Err(e) => Err(Error::ParserError(e)),
        }
    }

    /// Consume a quoted string literal, escapes decoded.
    pub fn parse_string(&mut self) -> (r: Result<String>)
        requires
            old(self).wf(),
        ensures
            final(self).wf(),
            match r {
                Ok(t) => p_string(old(self).rem()) == Some((t@, final(self).rem())) && final(self).level() == old(self).level(),
                Err(_) => p_string(old(self).rem()) is None && *final(self) == *old(self),
            },
    {
        match parser::string_at(&self.input, self.pos) {
            Ok((j, t)) => {
                self.pos = j;
                Ok(crate::chars::chars_to_string(&t))
            },
            Err(e) => Err(Error::ParserError(e)),
        }
    }

    /// Consume a dictionary key: a quoted string or a bare token.
    pub fn parse_key(&mut self) -> (r: Result<String>)
        requires
            old(self).wf(),
        ensures
            final(self).wf(),
            match r {
                Ok(t) => p_key(old(self).rem()) == Some((t@, final(self).rem())) && final(self).level() == old(self).level(),
                Err(_) => p_key(old(self).rem()) is None && *final(self) == *old(self),
            },
    {
        match parser::key_at(&self.input, self.pos) {
            Ok((j, t)) => {
                self.pos = j;
                Ok(crate::chars::chars_to_string(&t))
            },
            Err(e) => Err(Error::ParserError(e)),
        }
    }

    /// Consume a string literal that must hold exactly one character.
    pub fn parse_char(&mut self) -> (r: Result<char>)
        requires
            old(self).wf(),
        ensures
            final(self).wf(),
            match r {
                Ok(c) => p_string(old(self).rem()) == Some((seq![c], final(self).rem()))
                    && final(self).level() == old(self).level(),
                Err(_) => match p_string(old(self).rem()) {
                    Some((t, rest)) => t.len() != 1 && final(self).rem() == rest && final(self).level() == old(self).level(),
                    None => *final(self) == *old(self),
                },
            },
    {
        match parser::string_at(&self.input, self.pos) {
            Ok((j, t)) => {
                self.pos = j;
                if t.len() == 1 {
                    proof {
                        assert(t@ =~= seq![t@[0]]);
                    }
                    Ok(t[0])
                } else {
                    Err(Error::SerdeError(String::from_str("expected one character")))
                }
            },
            Err(e) => Err(Error::ParserError(e)),
        }
    }

    /// Look for `null` standing for an absent optional value: consume
    /// it and report `true`, or leave anything else in place.
    pub fn parse_none(&mut self) -> (r: Result<bool>)
        requires
            old(self).wf(),
        ensures
            final(self).wf(),
            match r {
                Ok(b) => if b {
                    &&& old(self).rem().len() > 0 && old(self).rem()[0] == 'n'
                    &&& p_unit(old(self).rem()) == Some(final(self).rem())
                    &&& final(self).level() == old(self).level()
                } else {
                    old(self).rem().len() > 0 && old(self).rem()[0] != 'n' && *final(self)
                        == *old(self)
                },
                Err(_) => *final(self) == *old(self) && (old(self).rem().len() == 0 || (old(self).rem()[0] == 'n' && p_unit(old(self).rem()) is None)),
            },
    {
        let c = self.peek()?;
        if c == 'n' {
            self.parse_unit()?;
            Ok(true)
        } else {
            Ok(false)
        }
    }

    // -----------------------------------------------------------------
    // Integer coercions.
    // -----------------------------------------------------------------
    /// Consume a number and saturate it to the signed 64-bit range.
    pub fn parse_i64(&mut self) -> (r: Result<i64>)
        requires
            old(self).wf(),
        ensures
            final(self).wf(),
            match r {
                Ok(x) => match p_number(old(self).rem()) {
                    Some((n, rest)) => final(self).rem() == rest && final(self).level() == old(self).level() && x as int == clamp_i64(tv_round(n)),
                    None => false,
                },
                Err(_) => p_number(old(self).rem()) is None && *final(self) == *old(self),
            },
    {
        let n = self.parse_number()?;
        proof {
            assert(tv_round(num_rep(n)) == num_round(n));
        }
        Ok(coerce_i64(&n))
    }

    /// Consume a number and saturate it to the unsigned 64-bit range;
    /// negative values saturate to zero.
    pub fn parse_u64(&mut self) -> (r: Result<u64>)
        requires
            old(self).wf(),
        ensures
            final(self).wf(),
            match r {
                Ok(x) => match p_number(old(self).rem()) {
                    Some((n, rest)) => final(self).rem() == rest && final(self).level() == old(self).level() && x as int == clamp_u64(tv_round(n)),
                    None => false,
                },
                Err(_) => p_number(old(self).rem()) is None && *final(self) == *old(self),
            },
    {
        let n = self.parse_number()?;
        proof {
            assert(tv_round(num_rep(n)) == num_round(n));
        }
        Ok(coerce_u64(&n))
    }

    /// Consume a number rounding to a signed 8-bit value; a value
    /// outside the range is an error.
    pub fn parse_i8(&mut self) -> (r: Result<i8>)
        requires
            old(self).wf(),
        ensures
            final(self).wf(),
            match r {
                Ok(x) => match p_number(old(self).rem()) {
                    Some((n, rest)) => final(self).rem() == rest && final(self).level() == old(self).level() && x as int == tv_round(n) && -128 <= tv_round(n) <= 127,
                    None => false,
                },
                Err(_) => match p_number(old(self).rem()) {
                    Some((n, rest)) => !(-128 <= tv_round(n) <= 127) && final(self).rem()
                        == rest && final(self).level() == old(self).level(),
                    None => *final(self) == *old(self),
                },
            },
    {
        let x = self.parse_i64()?;
        if -128 <= x && x <= 127 {
            Ok(x as i8)
        } else {
            Err(Error::SerdeError(String::from_str("integer out of range")))
        }
    }

    /// Consume a number rounding to a signed 16-bit value; a value
    /// outside the range is an error.
    pub fn parse_i16(&mut self) -> (r: Result<i16>)
        requires
            old(self).wf(),
        ensures
            final(self).wf(),
            match r {
                Ok(x) => match p_number(old(self).rem()) {
                    Some((n, rest)) => final(self).rem() == rest && final(self).level() == old(self).level() && x as int == tv_round(n) && -32768 <= tv_round(n) <= 32767,
                    None => false,
                },
                Err(_) => match p_number(old(self).rem()) {
                    Some((n, rest)) => !(-32768 <= tv_round(n) <= 32767) && final(self).rem()
                        == rest && final(self).level() == old(self).level(),
                    None => *final(self) == *old(self),
                },
            },
    {
        let x = self.parse_i64()?;
        if -32768 <= x && x <= 32767 {
            Ok(x as i16)
        } else {
            Err(Error::SerdeError(String::from_str("integer out of range")))
        }
    }

    /// Consume a number rounding to a signed 32-bit value; a value
    /// outside the range is an error.
    pub fn parse_i32(&mut self) -> (r: Result<i32>)
        requires
            old(self).wf(),
        ensures
            final(self).wf(),
            match r {
                Ok(x) => match p_number(old(self).rem()) {
                    Some((n, rest)) => final(self).rem() == rest && final(self).level() == old(self).level() && x as int == tv_round(n) && i32::MIN <= tv_round(n)
                        <= i32::MAX,
                    None => false,
                },
                Err(_) => match p_number(old(self).rem()) {
                    Some((n, rest)) => !(i32::MIN <= tv_round(n) <= i32::MAX) && final(self).rem() == rest && final(self).level() == old(self).level(),
                    None => *final(self) == *old(self),
                },
            },
    {
        let x = self.parse_i64()?;
        if -2147483648 <= x && x <= 2147483647 {
            Ok(x as i32)
        } else {
            Err(Error::SerdeError(String::from_str("integer out of range")))
        }
    }

    /// Consume a number rounding to an unsigned 8-bit value; negative
    /// values saturate to zero, values above the range are an error.
    pub fn parse_u8(&mut self) -> (r: Result<u8>)
        requires
            old(self).wf(),
        ensures
            final(self).wf(),
            match r {
                Ok(x) => match p_number(old(self).rem()) {
                    Some((n, rest)) => final(self).rem() == rest && final(self).level() == old(self).level() && x as int == clamp_u64(tv_round(n)) && tv_round(n) <= 255,
                    None => false,
                },
                Err(_) => match p_number(old(self).rem()) {
                    Some((n, rest)) => tv_round(n) > 255 && final(self).rem() == rest && final(self).level() == old(self).level(),
                    None => *final(self) == *old(self),
                },
            },
    {
        let x = self.parse_u64()?;
        if x <= 255 {
            Ok(x as u8)
        } else {
            Err(Error::SerdeError(String::from_str("integer out of range")))
        }
    }

    /// Consume a number rounding to an unsigned 16-bit value; negative
    /// values saturate to zero, values above the range are an error.
    pub fn parse_u16(&mut self) -> (r: Result<u16>)
        requires
            old(self).wf(),
        ensures
            final(self).wf(),
            match r {
                Ok(x) => match p_number(old(self).rem()) {
                    Some((n, rest)) => final(self).rem() == rest && final(self).level() == old(self).level() && x as int == clamp_u64(tv_round(n)) && tv_round(n) <= 65535,
                    None => false,
                },
                Err(_) => match p_number(old(self).rem()) {
                    Some((n, rest)) => tv_round(n) > 65535 && final(self).rem() == rest
                        && final(self).level() == old(self).level(),
                    None => *final(self) == *old(self),
                },
            },
    {
        let x = self.parse_u64()?;
        if x <= 65535 {
            Ok(x as u16)
        } else {
            Err(Error::SerdeError(String::from_str("integer out of range")))
        }
    }

    /// Consume a number rounding to an unsigned 32-bit value; negative
    /// values saturate to zero, values above the range are an error.
    pub fn parse_u32(&mut self) -> (r: Result<u32>)
        requires
            old(self).wf(),
        ensures
            final(self).wf(),
            match r {
                Ok(x) => match p_number(old(self).rem()) {
                    Some((n, rest)) => final(self).rem() == rest && final(self).level() == old(self).level() && x as int == clamp_u64(tv_round(n)) && tv_round(n)
                        <= u32::MAX,
                    None => false,
                },
                Err(_) => match p_number(old(self).rem()) {
                    Some((n, rest)) => tv_round(n) > u32::MAX && final(self).rem() == rest
                        && final(self).level() == old(self).level(),
                    None => *final(self) == *old(self),
                },
            },
    {
        let x = self.parse_u64()?;
        if x <= 4294967295 {
            Ok(x as u32)
        } else {
            Err(Error::SerdeError(String::from_str("integer out of range")))
        }
    }

    // -----------------------------------------------------------------
    // Containers: every begin pairs with the matching end, and the
    // depth returns to its old value.
    // -----------------------------------------------------------------
    /// Enter a sequence: consume `[` and raise the depth.
    pub fn seq_begin(&mut self) -> (r: Result<()>)
        requires
            old(self).wf(),
            old(self).level() < u64::MAX,
        ensures
            final(self).wf(),
            match r {
                Ok(_) => {
                    &&& old(self).rem().len() > 0 && old(self).rem()[0] == '['
                    &&& final(self).rem() == old(self).rem().skip(1)
                    &&& final(self).level() == old(self).level() + 1
                },
                Err(_) => final(self).level() == old(self).level() && (old(self).rem().len()
                    == 0 && *final(self) == *old(self) || old(self).rem().len() > 0 && old(self).rem()[0] != '[' && final(self).rem() == old(self).rem().skip(1)),
            },
    {
        let c = self.take()?;
        if c == '[' {
            self.depth = self.depth + 1;
            Ok(())
        } else {
            Err(Error::SerdeError(String::from_str("expected array open")))
        }
    }

    /// Between elements: consume ignored input and report whether the
    /// closing bracket is next.  End of input is an error.
    pub fn seq_is_end(&mut self) -> (r: Result<bool>)
        requires
            old(self).wf(),
        ensures
            final(self).wf(),
            final(self).rem() == skip_ign(old(self).rem()),
            final(self).level() == old(self).level(),
            match r {
                Ok(b) => final(self).rem().len() > 0 && b == (final(self).rem()[0] == ']'),
                Err(_) => final(self).rem().len() == 0,
            },
    {
        self.parse_ws()?;
        let c = self.peek()?;
        Ok(c == ']')
    }

    /// Leave a sequence: consume `]`, consume trailing ignored input,
    /// lower the depth.
    pub fn seq_end(&mut self) -> (r: Result<()>)
        requires
            old(self).wf(),
            old(self).level() >= 1,
        ensures
            final(self).wf(),
            match r {
                Ok(_) => {
                    &&& old(self).rem().len() > 0 && old(self).rem()[0] == ']'
                    &&& final(self).rem() == skip_ign(old(self).rem().skip(1))
                    &&& final(self).level() == old(self).level() - 1
                },
                Err(_) => final(self).level() == old(self).level() - 1 && (old(self).rem().len() == 0 && final(self).rem() == old(self).rem() || old(self).rem().len() > 0 && old(self).rem()[0] != ']' && final(self).rem() == old(self).rem().skip(1)),
            },
    {
        self.depth = self.depth - 1;
        let c = self.take()?;
        if c == ']' {
            self.parse_ws()?;
            Ok(())
        } else {
            Err(Error::SerdeError(String::from_str("expected array end")))
        }
    }

    /// Enter a map.  At depth zero this is the implicit root: no brace
    /// is consumed and the result is `false`; inside a document a `{`
    /// is consumed and the result is `true`.  Either way the depth
    /// rises by one.
    pub fn map_begin(&mut self) -> (r: Result<bool>)
        requires
            old(self).wf(),
            old(self).level() < u64::MAX,
        ensures
            final(self).wf(),
            match r {
                Ok(braced) => {
                    &&& braced == (old(self).level() >= 1)
                    &&& final(self).level() == old(self).level() + 1
                    &&& if braced {
                        old(self).rem().len() > 0 && old(self).rem()[0] == '{' && final(self).rem() == old(self).rem().skip(1)
                    } else {
                        final(self).rem() == old(self).rem()
                    }
                },
                Err(_) => old(self).level() >= 1 && final(self).level() == old(self).level()
                    && (old(self).rem().len() == 0 && *final(self) == *old(self) || old(self).rem().len() > 0 && old(self).rem()[0] != '{' && final(self).rem() == old(self).rem().skip(1)),
            },
    {
        if self.depth < 1 {
            self.depth = self.depth + 1;
            Ok(false)
        } else {
            let c = self.take()?;
            if c == '{' {
                self.depth = self.depth + 1;
                Ok(true)
            } else {
                Err(Error::SerdeError(String::from_str("expected dict open")))
            }
        }
    }

    /// Leave a map entered with [`Self::map_begin`]: lower the depth,
    /// and for a braced map consume `}` and trailing ignored input.
    pub fn map_end(&mut self, braced: bool) -> (r: Result<()>)
        requires
            old(self).wf(),
            old(self).level() >= 1,
        ensures
            final(self).wf(),
            final(self).level() == old(self).level() - 1,
            match r {
                Ok(_) => if braced {
                    old(self).rem().len() > 0 && old(self).rem()[0] == '}' && final(self).rem() == skip_ign(old(self).rem().skip(1))
                } else {
                    final(self).rem() == old(self).rem()
                },
                Err(_) => braced && (old(self).rem().len() == 0 && final(self).rem() == old(self).rem() || old(self).rem().len() > 0 && old(self).rem()[0] != '}' && final(self).rem() == old(self).rem().skip(1)),
            },
    {
        self.depth = self.depth - 1;
        if braced {
            let c = self.take()?;
            if c == '}' {
                self.parse_ws()?;
                Ok(())
            } else {
                Err(Error::SerdeError(String::from_str("expected dict end")))
            }
        } else {
            Ok(())
        }
    }

    /// Before a key: consume ignored input and report whether another
    /// key follows.  Inside a braced map the keys end at `}` (end of
    /// input is an error there); at the implicit root they end with
    /// the input.
    pub fn map_has_key(&mut self) -> (r: Result<bool>)
        requires
            old(self).wf(),
        ensures
            final(self).wf(),
            final(self).rem() == skip_ign(old(self).rem()),
            final(self).level() == old(self).level(),
            match r {
                Ok(b) => if old(self).level() > 1 {
                    final(self).rem().len() > 0 && b == (final(self).rem()[0] != '}')
                } else {
                    b == (final(self).rem().len() > 0)
                },
                Err(_) => old(self).level() > 1 && final(self).rem().len() == 0,
            },
    {
        self.parse_ws()?;
        if self.depth > 1 {
            let c = self.peek()?;
            Ok(c != '}')
        } else {
            Ok(self.pos < self.input.len())
        }
    }

    /// Enter a variant form.  Works as [`Self::map_begin`]: the root
    /// elides its braces.
    pub fn enum_begin(&mut self) -> (r: Result<bool>)
        requires
            old(self).wf(),
            old(self).level() < u64::MAX,
        ensures
            final(self).wf(),
            match r {
                Ok(braced) => {
                    &&& braced == (old(self).level() >= 1)
                    &&& final(self).level() == old(self).level() + 1
                    &&& if braced {
                        old(self).rem().len() > 0 && old(self).rem()[0] == '{' && final(self).rem() == old(self).rem().skip(1)
                    } else {
                        final(self).rem() == old(self).rem()
                    }
                },
                Err(_) => old(self).level() >= 1 && final(self).level() == old(self).level()
                    && (old(self).rem().len() == 0 && *final(self) == *old(self) || old(self).rem().len() > 0 && old(self).rem()[0] != '{' && final(self).rem() == old(self).rem().skip(1)),
            },
    {
        self.map_begin()
    }

    /// Leave a variant form: lower the depth, and for a braced form
    /// consume `}` (no trailing ignored input, unlike a map).
    pub fn enum_end(&mut self, braced: bool) -> (r: Result<()>)
        requires
            old(self).wf(),
            old(self).level() >= 1,
        ensures
            final(self).wf(),
            final(self).level() == old(self).level() - 1,
            match r {
                Ok(_) => if braced {
                    old(self).rem().len() > 0 && old(self).rem()[0] == '}' && final(self).rem() == old(self).rem().skip(1)
                } else {
                    final(self).rem() == old(self).rem()
                },
                Err(_) => braced && (old(self).rem().len() == 0 && final(self).rem() == old(self).rem() || old(self).rem().len() > 0 && old(self).rem()[0] != '}' && final(self).rem() == old(self).rem().skip(1)),
            },
    {
        self.depth = self.depth - 1;
        if braced {
            let c = self.take()?;
            if c == '}' {
                Ok(())
            } else {
                Err(Error::SerdeError(String::from_str("expected enum end")))
            }
        } else {
            Ok(())
        }
    }

    /// Leave a container on a failure path: the depth falls back by
    /// one without consuming input.  Every begin must be undone even
    /// when reading the body failed, so the counter stays paired.
    pub fn abort_container(&mut self)
        requires
            old(self).wf(),
            old(self).level() >= 1,
        ensures
            final(self).wf(),
            final(self).rem() == old(self).rem(),
            final(self).level() == old(self).level() - 1,
    {
        self.depth = self.depth - 1;
    }

    /// The depth counter, for callers pairing their begins and ends.
    pub fn depth(&self) -> (k: u64)
        ensures
            k == self.level(),
    {
        self.depth
    }

    /// Whether all input has been consumed.
    pub fn at_end(&self) -> (r: bool)
        requires
            self.wf(),
        ensures
            r == (self.rem().len() == 0),
    {
        self.pos >= self.input.len()
    }
}

// ---------------------------------------------------------------------
// Whole-document decoders for scalar shapes: the value must be the
// entire document, though trailing ignored input is allowed.
// ---------------------------------------------------------------------
/// Decode a whole document as `null`.  Only trailing non-ignored
/// input fails.
pub fn decode_unit(s: &str) -> (r: Result<()>)
    ensures
        match r {
            Ok(_) => p_unit(s@) matches Some(rest) && skip_ign(rest).len() == 0,
            Err(_) => !(p_unit(s@) matches Some(rest) && skip_ign(rest).len() == 0),
        },
{
    let mut d = Deserializer::from_str(s);
    d.parse_unit()?;
    d.parse_ws()?;
    if d.at_end() {
        Ok(())
    } else {
        Err(Error::SerdeError(String::from_str("trailing input")))
    }
}

/// Decode a whole document as a boolean.  Only trailing non-ignored
/// input fails.
pub fn decode_bool(s: &str) -> (r: Result<bool>)
    ensures
        match r {
            Ok(b) => p_bool(s@) matches Some((bb, rest)) && b == bb && skip_ign(rest).len()
                == 0,
            Err(_) => !(p_bool(s@) matches Some((_, rest)) && skip_ign(rest).len() == 0),
        },
{
    let mut d = Deserializer::from_str(s);
    let b = d.parse_bool()?;
    d.parse_ws()?;
    if d.at_end() {
        Ok(b)
    } else {
        Err(Error::SerdeError(String::from_str("trailing input")))
    }
}

/// Decode a whole document as a string.  Only trailing non-ignored
/// input fails.
pub fn decode_string(s: &str) -> (r: Result<String>)
    ensures
        match r {
            Ok(t) => p_string(s@) matches Some((tt, rest)) && t@ == tt && skip_ign(
                rest,
            ).len() == 0,
            Err(_) => !(p_string(s@) matches Some((_, rest)) && skip_ign(rest).len() == 0),
        },
{
    let mut d = Deserializer::from_str(s);
    let t = d.parse_string()?;
    d.parse_ws()?;
    if d.at_end() {
        Ok(t)
    } else {
        Err(Error::SerdeError(String::from_str("trailing input")))
    }
}

/// Decode a whole document as a single character.  Only trailing
/// non-ignored input fails.
pub fn decode_char(s: &str) -> (r: Result<char>)
    ensures
        match r {
            Ok(c) => p_string(s@) matches Some((t, rest)) && t == seq![c] && skip_ign(
                rest,
            ).len() == 0,
            Err(_) => !(p_string(s@) matches Some((t, rest)) && t.len() == 1 && skip_ign(
                rest,
            ).len() == 0),
        },
{
    let mut d = Deserializer::from_str(s);
    let c = d.parse_char()?;
    d.parse_ws()?;
    if d.at_end() {
        Ok(c)
    } else {
        Err(Error::SerdeError(String::from_str("trailing input")))
    }
}

/// Decode a whole document as a saturated signed 64-bit integer.
/// Only trailing non-ignored input fails.
pub fn decode_i64(s: &str) -> (r: Result<i64>)
    ensures
        match r {
            Ok(x) => match p_number(s@) {
                Some((n, rest)) => skip_ign(rest).len() == 0 && x as int == clamp_i64(
                    tv_round(n),
                ),
                None => false,
            },
            Err(_) => !(p_number(s@) matches Some((_, rest)) && skip_ign(rest).len() == 0),
        },
{
    let mut d = Deserializer::from_str(s);
    let x = d.parse_i64()?;
    d.parse_ws()?;
    if d.at_end() {
        Ok(x)
    } else {
        Err(Error::SerdeError(String::from_str("trailing input")))
    }
}

/// Decode a whole document as a saturated unsigned 64-bit integer.
/// Only trailing non-ignored input fails.
pub fn decode_u64(s: &str) -> (r: Result<u64>)
    ensures
        match r {
            Ok(x) => match p_number(s@) {
                Some((n, rest)) => skip_ign(rest).len() == 0 && x as int == clamp_u64(
                    tv_round(n),
                ),
                None => false,
            },
            Err(_) => !(p_number(s@) matches Some((_, rest)) && skip_ign(rest).len() == 0),
        },
{
    let mut d = Deserializer::from_str(s);
    let x = d.parse_u64()?;
    d.parse_ws()?;
    if d.at_end() {
        Ok(x)
    } else {
        Err(Error::SerdeError(String::from_str("trailing input")))
    }
}

/// Decode a whole document as a signed 8-bit integer; out-of-range
/// values and trailing non-ignored input are rejected.
pub fn decode_i8(s: &str) -> (r: Result<i8>)
    ensures
        match r {
            Ok(x) => match p_number(s@) {
                Some((n, rest)) => skip_ign(rest).len() == 0 && x as int == tv_round(n)
                    && -128 <= tv_round(n) <= 127,
                None => false,
            },
            Err(_) => !(p_number(s@) matches Some((n, rest)) && skip_ign(rest).len() == 0
                && -128 <= tv_round(n) <= 127),
        },
{
    let mut d = Deserializer::from_str(s);
    let x = d.parse_i8()?;
    d.parse_ws()?;
    if d.at_end() {
        Ok(x)
    } else {
        Err(Error::SerdeError(String::from_str("trailing input")))
    }
}

/// Decode a whole document as a signed 16-bit integer; out-of-range
/// values and trailing non-ignored input are rejected.
pub fn decode_i16(s: &str) -> (r: Result<i16>)
    ensures
        match r {
            Ok(x) => match p_number(s@) {
                Some((n, rest)) => skip_ign(rest).len() == 0 && x as int == tv_round(n)
                    && -32768 <= tv_round(n) <= 32767,
                None => false,
            },
            Err(_) => !(p_number(s@) matches Some((n, rest)) && skip_ign(rest).len() == 0
                && -32768 <= tv_round(n) <= 32767),
        },
{
    let mut d = Deserializer::from_str(s);
    let x = d.parse_i16()?;
    d.parse_ws()?;
    if d.at_end() {
        Ok(x)
    } else {
        Err(Error::SerdeError(String::from_str("trailing input")))
    }
}

/// Decode a whole document as a signed 32-bit integer; out-of-range
/// values and trailing non-ignored input are rejected.
pub fn decode_i32(s: &str) -> (r: Result<i32>)
    ensures
        match r {
            Ok(x) => match p_number(s@) {
                Some((n, rest)) => skip_ign(rest).len() == 0 && x as int == tv_round(n)
                    && i32::MIN <= tv_round(n) <= i32::MAX,
                None => false,
            },
            Err(_) => !(p_number(s@) matches Some((n, rest)) && skip_ign(rest).len() == 0
                && i32::MIN <= tv_round(n) <= i32::MAX),
        },
{
    let mut d = Deserializer::from_str(s);
    let x = d.parse_i32()?;
    d.parse_ws()?;
    if d.at_end() {
        Ok(x)
    } else {
        Err(Error::SerdeError(String::from_str("trailing input")))
    }
}

/// Decode a whole document as an unsigned 8-bit integer; negative
/// values saturate to zero; values above the range and trailing
/// non-ignored input are rejected.
pub fn decode_u8(s: &str) -> (r: Result<u8>)
    ensures
        match r {
            Ok(x) => match p_number(s@) {
                Some((n, rest)) => skip_ign(rest).len() == 0 && x as int == clamp_u64(
                    tv_round(n),
                ) && tv_round(n) <= 255,
                None => false,
            },
            Err(_) => !(p_number(s@) matches Some((n, rest)) && skip_ign(rest).len() == 0
                && tv_round(n) <= 255),
        },
{
    let mut d = Deserializer::from_str(s);
    let x = d.parse_u8()?;
    d.parse_ws()?;
    if d.at_end() {
        Ok(x)
    } else {
        Err(Error::SerdeError(String::from_str("trailing input")))
    }
}

/// Decode a whole document as an unsigned 16-bit integer; negative
/// values saturate to zero; values above the range and trailing
/// non-ignored input are rejected.
pub fn decode_u16(s: &str) -> (r: Result<u16>)
    ensures
        match r {
            Ok(x) => match p_number(s@) {
                Some((n, rest)) => skip_ign(rest).len() == 0 && x as int == clamp_u64(
                    tv_round(n),
                ) && tv_round(n) <= 65535,
                None => false,
            },
            Err(_) => !(p_number(s@) matches Some((n, rest)) && skip_ign(rest).len() == 0
                && tv_round(n) <= 65535),
        },
{
    let mut d = Deserializer::from_str(s);
    let x = d.parse_u16()?;
    d.parse_ws()?;
    if d.at_end() {
        Ok(x)
    } else {
        Err(Error::SerdeError(String::from_str("trailing input")))
    }
}

/// Decode a whole document as an unsigned 32-bit integer; negative
/// values saturate to zero; values above the range and trailing
/// non-ignored input are rejected.
pub fn decode_u32(s: &str) -> (r: Result<u32>)
    ensures
        match r {
            Ok(x) => match p_number(s@) {
                Some((n, rest)) => skip_ign(rest).len() == 0 && x as int == clamp_u64(
                    tv_round(n),
                ) && tv_round(n) <= u32::MAX,
                None => false,
            },
            Err(_) => !(p_number(s@) matches Some((n, rest)) && skip_ign(rest).len() == 0
                && tv_round(n) <= u32::MAX),
        },
{
    let mut d = Deserializer::from_str(s);
    let x = d.parse_u32()?;
    d.parse_ws()?;
    if d.at_end() {
        Ok(x)
    } else {
        Err(Error::SerdeError(String::from_str("trailing input")))
    }
}

} // verus!
