//! The deserialiser: a cursor over the remaining input and the parsers of
//! every Goff grammar, scalar and composite.

use vstd::prelude::*;

use crate::error::Error;
use crate::grammar::{
    digit_len, digit_val, digits_val, fold_ident, has_prefix, ident_len, is_digit, is_ident_cont,
    is_ident_start, is_space, is_ws, no_token, nothing_token, scan_string, seq_rest_len,
    nats_to_u64s, seq_u64_rest, seq_u64_values, skip_value_len, space_len, struct_rest_len,
    u64_elem, unescape, ws_len, yes_token,
};
use crate::grammar::{
    lemma_digit_len, lemma_digits_val_mono, lemma_digits_val_step, lemma_ident_cont_len,
    lemma_scan_string_bounds, lemma_space_len, lemma_space_len_bounds, lemma_ws_len,
    lemma_ws_len_bounds,
};

verus! {

/// Whitespace test on one character, as [`is_ws`] has it.
fn is_ws_char(c: char) -> (b: bool)
    ensures
        b == is_ws(c),
{
    c == ' ' || c == '\t' || c == '\r' || c == '\n'
}

/// Within-line whitespace test on one character, as [`is_space`] has it.
fn is_space_char(c: char) -> (b: bool)
    ensures
        b == is_space(c),
{
    c == ' ' || c == '\t' || c == '\r'
}

/// Digit test on one character, as [`is_digit`] has it.
fn is_digit_char(c: char) -> (b: bool)
    ensures
        b == is_digit(c),
{
    '0' <= c && c <= '9'
}

/// Identifier-start test on one character, as [`is_ident_start`] has it.
fn is_ident_start_char(c: char) -> (b: bool)
    ensures
        b == is_ident_start(c),
{
    ('a' <= c && c <= 'z') || ('A' <= c && c <= 'Z') || c == '_'
}

/// Identifier-continuation test on one character, as [`is_ident_cont`] has
/// it.
fn is_ident_cont_char(c: char) -> (b: bool)
    ensures
        b == is_ident_cont(c),
{
    is_ident_start_char(c) || is_digit_char(c) || c == '-'
}

/// Relies on String::push: appends exactly the given character to the
/// buffer. Keeps string accumulation linear in the content's length.
#[verifier::external_body]
fn push_char(buf: &mut String, c: char)
    ensures
        final(buf)@ == old(buf)@.push(c),
{
    buf.push(c);
}

/// What a successful unsigned-integer parse means: the input begins with a
/// digit, the value is that of the whole leading digit run, it fits the
/// bound, and the run is consumed.
pub open spec fn unsigned_parse_ok(s: Seq<char>, max: nat, v: nat, rest: Seq<char>) -> bool {
    &&& s.len() > 0
    &&& is_digit(s[0])
    &&& 0 < digit_len(s) <= s.len()
    &&& v == digits_val(s.take(digit_len(s)))
    &&& v <= max
    &&& rest == s.skip(digit_len(s))
}

/// When an unsigned-integer parse fails, and with which kind: `Eof` on
/// empty input, `ExpectedInteger` when no digit begins the input (both
/// leave the cursor untouched), and `IntegerOverflow` when the leading
/// digit run's value passes the bound (the run is still consumed).
pub open spec fn unsigned_parse_err(s: Seq<char>, max: nat, e: Error, rest: Seq<char>) -> bool {
    if s.len() == 0 {
        e == Error::Eof && rest == s
    } else if !is_digit(s[0]) {
        e == Error::ExpectedInteger && rest == s
    } else {
        e == Error::IntegerOverflow && 0 < digit_len(s) <= s.len() && digits_val(
            s.take(digit_len(s)),
        ) > max && rest == s.skip(digit_len(s))
    }
}

/// What a successful signed-integer parse means: an optional leading `-`,
/// then a digit run; the value is the run's value under the sign, within
/// the magnitude bound for that sign.
pub open spec fn signed_parse_ok(
    s: Seq<char>,
    neg_mag: nat,
    pos_mag: nat,
    v: int,
    rest: Seq<char>,
) -> bool {
    if s.len() > 0 && s[0] == '-' {
        let b = s.skip(1);
        &&& b.len() > 0
        &&& is_digit(b[0])
        &&& digits_val(b.take(digit_len(b))) <= neg_mag
        &&& v == -(digits_val(b.take(digit_len(b))) as int)
        &&& rest == b.skip(digit_len(b))
    } else {
        &&& s.len() > 0
        &&& is_digit(s[0])
        &&& digits_val(s.take(digit_len(s))) <= pos_mag
        &&& v == digits_val(s.take(digit_len(s))) as int
        &&& rest == s.skip(digit_len(s))
    }
}

/// When a signed-integer parse fails, and with which kind: a redundant
/// leading `+` is `ExpectedSign`; after an optional `-` the digit run is
/// required and bounded as in the unsigned grammar.
pub open spec fn signed_parse_err(
    s: Seq<char>,
    neg_mag: nat,
    pos_mag: nat,
    e: Error,
    rest: Seq<char>,
) -> bool {
    if s.len() == 0 {
        e == Error::Eof && rest == s
    } else if s[0] == '+' {
        e == Error::ExpectedSign && rest == s
    } else if s[0] == '-' {
        unsigned_parse_err(s.skip(1), neg_mag, e, rest)
    } else {
        unsigned_parse_err(s, pos_mag, e, rest)
    }
}

/// The ordered list of expected field identifiers for one structure
/// decode. The engine does not own it: the caller supplies it when a
/// structure decode starts, and it defines which keys are accepted.
pub struct FieldSpec {
    /// The expected identifiers, hyphens already folded to underscores.
    names: Vec<String>,
}

impl View for FieldSpec {
    type V = Seq<Seq<char>>;

    /// The expected names, as sequences of characters.
    closed spec fn view(&self) -> Seq<Seq<char>> {
        self.names@.map_values(|n: String| n@)
    }
}

impl FieldSpec {
    /// No two expected fields share a name.
    pub open spec fn distinct(&self) -> bool {
        forall|i: int, j: int| 0 <= i < j < self@.len() ==> self@[i] != self@[j]
    }

    /// Build a field list, refusing one that repeats a name.
    pub fn from_names(names: Vec<String>) -> (r: Option<FieldSpec>)
        ensures
            match r {
                Some(f) => f@ == names@.map_values(|n: String| n@) && f.distinct(),
                None => exists|i: int, j: int|
                    0 <= i < j < names@.len() && names@[i]@ == names@[j]@,
            },
    {
        let n = names.len();
        let mut i: usize = 0;
        while i < n
            invariant
                n == names@.len(),
                i <= n,
                forall|a: int, b: int| 0 <= a < b < i ==> names@[a]@ != names@[b]@,
            decreases n - i,
        {
            let mut j: usize = 0;
            while j < i
                invariant
                    n == names@.len(),
                    j <= i < n,
                    forall|b: int| 0 <= b < j ==> names@[b]@ != names@[i as int]@,
                decreases i - j,
            {
                if names[j] == names[i] {
                    proof {
                        assert(0 <= j < i < names@.len() && names@[j as int]@ == names@[
                            i as int
                        ]@);
                    }
                    return None;
                }
                j += 1;
            }
            i += 1;
        }
        let f = FieldSpec { names };
        proof {
            assert(f@ =~= f.names@.map_values(|n: String| n@));
            assert(forall|a: int| 0 <= a < f@.len() ==> f@[a] == f.names@.map_values(
                |n: String| n@,
            )[a]);
        }
        Some(f)
    }

    /// A structure is map-like: under a distinct field list a key names at
    /// most one field, so which field an assignment binds to depends only
    /// on its folded key — never on where the assignment stands or on
    /// which fields came before it. Together with the key-driven contract
    /// of [`Deserializer::struct_next_key`] this is why permuting a
    /// structure's assignments cannot change what each one binds to.
    pub proof fn lemma_binding_by_key(&self, i: int, j: int)
        requires
            self.distinct(),
            0 <= i < self@.len(),
            0 <= j < self@.len(),
            self@[i] == self@[j],
        ensures
            i == j,
    {
    }

    /// How many fields are expected.
    pub fn field_count(&self) -> (n: usize)
        ensures
            n == self@.len(),
    {
        self.names.len()
    }

    /// The name of the field at one index.
    pub fn name_at(&self, i: usize) -> (r: &String)
        requires
            i < self@.len(),
        ensures
            r@ == self@[i as int],
    {
        &self.names[i]
    }

    /// The index of the expected field with the given, already folded,
    /// name.
    pub fn find(&self, name: &String) -> (r: Option<usize>)
        ensures
            match r {
                Some(i) => i < self@.len() && self@[i as int] == name@,
                None => forall|j: int| 0 <= j < self@.len() ==> self@[j] != name@,
            },
    {
        let n = self.names.len();
        let mut i: usize = 0;
        while i < n
            invariant
                n == self@.len(),
                n == self.names@.len(),
                i <= n,
                forall|j: int| 0 <= j < i ==> self@[j] != name@,
            decreases n - i,
        {
            if self.names[i] == *name {
                return Some(i);
            }
            i += 1;
        }
        None
    }

    /// The first expected field that was never assigned, if any: what a
    /// caller without a default for that field reports as missing.
    pub fn first_missing(&self, seen: &Vec<bool>) -> (r: Option<usize>)
        requires
            seen@.len() == self@.len(),
        ensures
            match r {
                Some(i) => i < self@.len() && !seen@[i as int] && forall|j: int|
                    0 <= j < i ==> seen@[j],
                None => forall|j: int| 0 <= j < self@.len() ==> seen@[j],
            },
    {
        let n = self.names.len();
        let mut i: usize = 0;
        while i < n
            invariant
                n == self@.len(),
                n == seen@.len(),
                i <= n,
                forall|j: int| 0 <= j < i ==> seen@[j],
            decreases n - i,
        {
            if !seen[i] {
                return Some(i);
            }
            i += 1;
        }
        None
    }
}

/// The decoding engine over one input.
///
/// It holds the input as the sequence of its characters together with the
/// position reached, so a character is always consumed whole — the cursor
/// can never stop inside a multi-byte encoding. The view of a
/// `Deserializer` is the remaining, not yet consumed input; the position
/// only ever moves forward.
pub struct Deserializer {
    /// Every character of the input, in order.
    chars: Vec<char>,
    /// How many characters have been consumed.
    pos: usize,
}

impl View for Deserializer {
    type V = Seq<char>;

    /// The remaining input.
    closed spec fn view(&self) -> Seq<char> {
        self.chars@.skip(self.pos as int)
    }
}

impl Deserializer {
    /// The position never passes the end of the input.
    pub closed spec fn wf(&self) -> bool {
        self.pos <= self.chars@.len()
    }

    /// Turns a string into a `Deserializer` positioned at its start.
    pub fn from_str(input: &str) -> (d: Deserializer)
        ensures
            d.wf(),
            d@ == input@,
    {
        let n = input.unicode_len();
        let mut chars: Vec<char> = Vec::new();
        let mut i: usize = 0;
        while i < n
            invariant
                i <= n,
                n == input@.len(),
                chars@ =~= input@.take(i as int),
            decreases n - i,
        {
            let c = input.get_char(i);
            chars.push(c);
            i += 1;
        }
        assert(chars@ =~= input@);
        let d = Deserializer { chars, pos: 0 };
        assert(d@ =~= d.chars@);
        d
    }

    /// Consume `lit` and return true iff the remaining input starts with
    /// `lit`; otherwise leave the cursor untouched and return false.
    pub fn match_literal(&mut self, lit: &str) -> (b: bool)
        requires
            old(self).wf(),
        ensures
            final(self).wf(),
            b == has_prefix(old(self)@, lit@),
            b ==> final(self)@ == old(self)@.skip(lit@.len() as int),
            !b ==> final(self)@ == old(self)@,
    {
        let n = lit.unicode_len();
        let clen = self.chars.len();
        if n > clen - self.pos {
            return false;
        }
        let mut i: usize = 0;
        while i < n
            invariant
                old(self).wf(),
                *self == *old(self),
                i <= n,
                n == lit@.len(),
                clen == self.chars@.len(),
                self.pos + n <= clen,
                forall|j: int| 0 <= j < i ==> old(self)@[j] == lit@[j],
            decreases n - i,
        {
            let c = self.chars[self.pos + i];
            let lc = lit.get_char(i);
            if c != lc {
                proof {
                    assert(old(self)@[i as int] == self.chars@[self.pos + i]);
                    assert(old(self)@.take(n as int)[i as int] != lit@[i as int]);
                }
                return false;
            }
            i += 1;
        }
        proof {
            assert(old(self)@.take(n as int) =~= lit@);
        }
        self.pos += n;
        proof {
            assert(self@ =~= old(self)@.skip(n as int));
        }
        true
    }

    /// Consume the longest prefix of whitespace, line breaks included.
    pub fn skip_ws(&mut self)
        requires
            old(self).wf(),
        ensures
            final(self).wf(),
            0 <= ws_len(old(self)@) <= old(self)@.len(),
            final(self)@ == old(self)@.skip(ws_len(old(self)@)),
            final(self)@.len() > 0 ==> !is_ws(final(self)@[0]),
    {
        while self.pos < self.chars.len() && is_ws_char(self.chars[self.pos])
            invariant
                old(self).wf(),
                self.chars@ == old(self).chars@,
                old(self).pos <= self.pos <= self.chars@.len(),
                forall|j: int| old(self).pos <= j < self.pos ==> is_ws(self.chars@[j]),
            decreases self.chars@.len() - self.pos,
        {
            self.pos += 1;
        }
        proof {
            let s = old(self)@;
            let k = self.pos - old(self).pos;
            assert(forall|i: int| 0 <= i < k ==> is_ws(#[trigger] s[i]));
            lemma_ws_len(s, k);
            assert(self@ =~= s.skip(k));
        }
    }

    /// Consume the longest prefix of within-line whitespace; a line break
    /// stays, since it separates assignments in a structure body.
    pub fn skip_space(&mut self)
        requires
            old(self).wf(),
        ensures
            final(self).wf(),
            0 <= space_len(old(self)@) <= old(self)@.len(),
            final(self)@ == old(self)@.skip(space_len(old(self)@)),
            final(self)@.len() > 0 ==> !is_space(final(self)@[0]),
    {
        while self.pos < self.chars.len() && is_space_char(self.chars[self.pos])
            invariant
                old(self).wf(),
                self.chars@ == old(self).chars@,
                old(self).pos <= self.pos <= self.chars@.len(),
                forall|j: int| old(self).pos <= j < self.pos ==> is_space(self.chars@[j]),
            decreases self.chars@.len() - self.pos,
        {
            self.pos += 1;
        }
        proof {
            let s = old(self)@;
            let k = self.pos - old(self).pos;
            assert(forall|i: int| 0 <= i < k ==> is_space(#[trigger] s[i]));
            lemma_space_len(s, k);
            assert(self@ =~= s.skip(k));
        }
    }

    /// Parse a boolean: the token `yes` gives true, `no` gives false, and
    /// anything else is `ExpectedBoolean` with the cursor untouched.
    pub fn parse_bool(&mut self) -> (r: Result<bool, Error>)
        requires
            old(self).wf(),
        ensures
            final(self).wf(),
            ({
                let s = old(self)@;
                match r {
                    Ok(b) => if b {
                        has_prefix(s, yes_token()) && final(self)@ == s.skip(3)
                    } else {
                        has_prefix(s, no_token()) && final(self)@ == s.skip(2)
                    },
                    Err(e) => e == Error::ExpectedBoolean && !has_prefix(s, yes_token())
                        && !has_prefix(s, no_token()) && final(self)@ == s,
                }
            }),
    {
        proof {
            reveal_strlit("yes");
            reveal_strlit("no");
            assert("yes"@ =~= yes_token());
            assert("no"@ =~= no_token());
        }
        if self.match_literal("yes") {
            Ok(true)
        } else if self.match_literal("no") {
            Ok(false)
        } else {
            Err(Error::ExpectedBoolean)
        }
    }

    /// Look at the next character without consuming it.
    pub fn peek_char(&self) -> (r: Result<char, Error>)
        requires
            self.wf(),
        ensures
            match r {
                Ok(c) => self@.len() > 0 && c == self@[0],
                Err(e) => e == Error::Eof && self@.len() == 0,
            },
    {
        if self.pos < self.chars.len() {
            Ok(self.chars[self.pos])
        } else {
            Err(Error::Eof)
        }
    }

    /// Return the next character and consume it.
    pub fn next_char(&mut self) -> (r: Result<char, Error>)
        requires
            old(self).wf(),
        ensures
            final(self).wf(),
            match r {
                Ok(c) => old(self)@.len() > 0 && c == old(self)@[0] && final(self)@ == old(
                    self,
                )@.skip(1),
                Err(e) => e == Error::Eof && old(self)@.len() == 0 && final(self)@ == old(self)@,
            },
    {
        if self.pos < self.chars.len() {
            let c = self.chars[self.pos];
            self.pos += 1;
            assert(self@ =~= old(self)@.skip(1));
            Ok(c)
        } else {
            Err(Error::Eof)
        }
    }

    /// Parse an unsigned integer: one or more digits, accumulated in
    /// decimal, refused with `IntegerOverflow` when the literal's value
    /// passes `max`. The one accumulation routine behind every unsigned
    /// destination width.
    pub fn parse_unsigned(&mut self, max: u64) -> (r: Result<u64, Error>)
        requires
            old(self).wf(),
        ensures
            final(self).wf(),
            ({
                let s = old(self)@;
                match r {
                    Ok(v) => unsigned_parse_ok(s, max as nat, v as nat, final(self)@),
                    Err(e) => unsigned_parse_err(s, max as nat, e, final(self)@),
                }
            }),
    {
        let ghost s = self@;
        if self.pos == self.chars.len() {
            return Err(Error::Eof);
        }
        if !is_digit_char(self.chars[self.pos]) {
            return Err(Error::ExpectedInteger);
        }
        let start = self.pos;
        while self.pos < self.chars.len() && is_digit_char(self.chars[self.pos])
            invariant
                old(self).wf(),
                self.chars@ == old(self).chars@,
                start == old(self).pos,
                start <= self.pos <= self.chars@.len(),
                forall|j: int| start <= j < self.pos ==> is_digit(self.chars@[j]),
            decreases self.chars@.len() - self.pos,
        {
            self.pos += 1;
        }
        let end = self.pos;
        let ghost k = end - start;
        proof {
            assert(forall|i: int| 0 <= i < k ==> is_digit(#[trigger] s[i]));
            lemma_digit_len(s, k);
            assert(self@ =~= s.skip(k));
        }
        let mut acc: u64 = 0;
        let mut i = start;
        while i < end
            invariant
                old(self).wf(),
                self.chars@ == old(self).chars@,
                start == old(self).pos,
                start <= i <= end == self.pos <= self.chars@.len(),
                s == old(self)@,
                k == end - start,
                digit_len(s) == k,
                forall|j: int| start <= j < end ==> is_digit(self.chars@[j]),
                acc as nat == digits_val(s.take(i - start)),
                acc <= max,
            decreases end - i,
        {
            let c = self.chars[i];
            let d: u64 = ((c as u32) - 48) as u64;
            proof {
                assert(is_digit(s[i - start]));
                assert(d as nat == digit_val(s[i - start]));
                lemma_digits_val_step(s, i - start);
            }
            let ghost part = digits_val(s.take(i - start + 1));
            let widened = match acc.checked_mul(10) {
                Some(t) => t.checked_add(d),
                None => None,
            };
            match widened {
                Some(v) => {
                    if v > max {
                        proof {
                            assert(part == acc * 10 + d);
                            lemma_digits_val_mono(s, i - start + 1, k);
                            assert(self@ =~= s.skip(k));
                        }
                        return Err(Error::IntegerOverflow);
                    }
                    acc = v;
                },
                None => {
                    proof {
                        assert(part == acc * 10 + d);
                        lemma_digits_val_mono(s, i - start + 1, k);
                        assert(self@ =~= s.skip(k));
                    }
                    return Err(Error::IntegerOverflow);
                },
            }
            i += 1;
        }
        proof {
            assert(s.take(k) == s.take(i - start));
        }
        Ok(acc)
    }

    /// Parse an integer that may carry a leading `-`. A leading `+` is
    /// always redundant by format convention and is refused with
    /// `ExpectedSign`. The sign picks which magnitude bound applies, so one
    /// routine serves every signed destination width.
    pub fn parse_signed(&mut self, neg_mag: u64, pos_mag: u64) -> (r: Result<i64, Error>)
        requires
            old(self).wf(),
            neg_mag <= 9223372036854775808u64,
            pos_mag <= 9223372036854775807u64,
        ensures
            final(self).wf(),
            ({
                let s = old(self)@;
                match r {
                    Ok(v) => signed_parse_ok(s, neg_mag as nat, pos_mag as nat, v as int, final(self)@),
                    Err(e) => signed_parse_err(s, neg_mag as nat, pos_mag as nat, e, final(self)@),
                }
            }),
    {
        if self.pos == self.chars.len() {
            return Err(Error::Eof);
        }
        let c0 = self.chars[self.pos];
        if c0 == '+' {
            return Err(Error::ExpectedSign);
        }
        let negative = c0 == '-';
        if negative {
            self.pos += 1;
            proof {
                assert(self@ =~= old(self)@.skip(1));
            }
        }
        let bound = if negative {
            neg_mag
        } else {
            pos_mag
        };
        match self.parse_unsigned(bound) {
            Err(e) => Err(e),
            Ok(m) => if negative {
                if m == 0 {
                    Ok(0i64)
                } else {
                    Ok(-((m - 1) as i64) - 1)
                }
            } else {
                Ok(m as i64)
            },
        }
    }

    /// Parse an unsigned integer into eight bits.
    pub fn parse_u8(&mut self) -> (r: Result<u8, Error>)
        requires
            old(self).wf(),
        ensures
            final(self).wf(),
            ({
                let s = old(self)@;
                match r {
                    Ok(v) => unsigned_parse_ok(s, u8::MAX as nat, v as nat, final(self)@),
                    Err(e) => unsigned_parse_err(s, u8::MAX as nat, e, final(self)@),
                }
            }),
    {
        match self.parse_unsigned(255) {
            Ok(v) => Ok(v as u8),
            Err(e) => Err(e),
        }
    }

    /// Parse an unsigned integer into sixteen bits.
    pub fn parse_u16(&mut self) -> (r: Result<u16, Error>)
        requires
            old(self).wf(),
        ensures
            final(self).wf(),
            ({
                let s = old(self)@;
                match r {
                    Ok(v) => unsigned_parse_ok(s, u16::MAX as nat, v as nat, final(self)@),
                    Err(e) => unsigned_parse_err(s, u16::MAX as nat, e, final(self)@),
                }
            }),
    {
        match self.parse_unsigned(65535) {
            Ok(v) => Ok(v as u16),
            Err(e) => Err(e),
        }
    }

    /// Parse an unsigned integer into thirty-two bits.
    pub fn parse_u32(&mut self) -> (r: Result<u32, Error>)
        requires
            old(self).wf(),
        ensures
            final(self).wf(),
            ({
                let s = old(self)@;
                match r {
                    Ok(v) => unsigned_parse_ok(s, u32::MAX as nat, v as nat, final(self)@),
                    Err(e) => unsigned_parse_err(s, u32::MAX as nat, e, final(self)@),
                }
            }),
    {
        match self.parse_unsigned(4294967295) {
            Ok(v) => Ok(v as u32),
            Err(e) => Err(e),
        }
    }

    /// Parse an unsigned integer into sixty-four bits.
    pub fn parse_u64(&mut self) -> (r: Result<u64, Error>)
        requires
            old(self).wf(),
        ensures
            final(self).wf(),
            ({
                let s = old(self)@;
                match r {
                    Ok(v) => unsigned_parse_ok(s, u64::MAX as nat, v as nat, final(self)@),
                    Err(e) => unsigned_parse_err(s, u64::MAX as nat, e, final(self)@),
                }
            }),
    {
        self.parse_unsigned(18446744073709551615)
    }

    /// Parse a signed integer into eight bits.
    pub fn parse_i8(&mut self) -> (r: Result<i8, Error>)
        requires
            old(self).wf(),
        ensures
            final(self).wf(),
            ({
                let s = old(self)@;
                match r {
                    Ok(v) => signed_parse_ok(s, 128, 127, v as int, final(self)@),
                    Err(e) => signed_parse_err(s, 128, 127, e, final(self)@),
                }
            }),
    {
        match self.parse_signed(128, 127) {
            Ok(v) => Ok(v as i8),
            Err(e) => Err(e),
        }
    }

    /// Parse a signed integer into sixteen bits.
    pub fn parse_i16(&mut self) -> (r: Result<i16, Error>)
        requires
            old(self).wf(),
        ensures
            final(self).wf(),
            ({
                let s = old(self)@;
                match r {
                    Ok(v) => signed_parse_ok(s, 32768, 32767, v as int, final(self)@),
                    Err(e) => signed_parse_err(s, 32768, 32767, e, final(self)@),
                }
            }),
    {
        match self.parse_signed(32768, 32767) {
            Ok(v) => Ok(v as i16),
            Err(e) => Err(e),
        }
    }

    /// Parse a signed integer into thirty-two bits.
    pub fn parse_i32(&mut self) -> (r: Result<i32, Error>)
        requires
            old(self).wf(),
        ensures
            final(self).wf(),
            ({
                let s = old(self)@;
                match r {
                    Ok(v) => signed_parse_ok(s, 2147483648, 2147483647, v as int, final(self)@),
                    Err(e) => signed_parse_err(s, 2147483648, 2147483647, e, final(self)@),
                }
            }),
    {
        match self.parse_signed(2147483648, 2147483647) {
            Ok(v) => Ok(v as i32),
            Err(e) => Err(e),
        }
    }

    /// Parse a signed integer into sixty-four bits.
    pub fn parse_i64(&mut self) -> (r: Result<i64, Error>)
        requires
            old(self).wf(),
        ensures
            final(self).wf(),
            ({
                let s = old(self)@;
                match r {
                    Ok(v) => signed_parse_ok(
                        s,
                        9223372036854775808,
                        9223372036854775807,
                        v as int,
                        final(self)@,
                    ),
                    Err(e) => signed_parse_err(
                        s,
                        9223372036854775808,
                        9223372036854775807,
                        e,
                        final(self)@,
                    ),
                }
            }),
    {
        self.parse_signed(9223372036854775808, 9223372036854775807)
    }

    /// Parse the character after a backslash: `n`, `r` and `t` stand for
    /// the named control characters; any other character stands for itself
    /// with the backslash dropped.
    pub fn parse_escape(&mut self) -> (r: Result<char, Error>)
        requires
            old(self).wf(),
        ensures
            final(self).wf(),
            ({
                let s = old(self)@;
                if s.len() == 0 {
                    r == Err::<char, Error>(Error::Eof) && final(self)@ == s
                } else {
                    r == Ok::<char, Error>(unescape(s[0])) && final(self)@ == s.skip(1)
                }
            }),
    {
        match self.next_char() {
            Err(e) => Err(e),
            Ok(c) => {
                if c == 'n' {
                    Ok('\n')
                } else if c == 'r' {
                    Ok('\r')
                } else if c == 't' {
                    Ok('\t')
                } else {
                    Ok(c)
                }
            },
        }
    }

    /// Parse a quoted string. The content is everything between the
    /// opening and the closing `'`, with escapes decoded by
    /// [`Deserializer::parse_escape`] and literal line breaks preserved;
    /// it accumulates in one growing buffer. Input that ends before the
    /// closing quote is `NoEndQuote`.
    pub fn parse_string(&mut self) -> (r: Result<String, Error>)
        requires
            old(self).wf(),
        ensures
            final(self).wf(),
            final(self)@.len() <= old(self)@.len(),
            r is Ok ==> final(self)@.len() < old(self)@.len(),
            ({
                let s = old(self)@;
                if s.len() == 0 {
                    r == Err::<String, Error>(Error::Eof) && final(self)@ == s
                } else if s[0] != '\'' {
                    r == Err::<String, Error>(Error::ExpectedString) && final(self)@ == s
                } else {
                    match scan_string(s.skip(1)) {
                        None => r == Err::<String, Error>(Error::NoEndQuote)
                            && final(self)@.len() == 0,
                        Some(p) => r matches Ok(v) && v@ == p.0 && final(self)@ == s.skip(1 + p.1),
                    }
                }
            }),
    {
        if self.pos == self.chars.len() {
            return Err(Error::Eof);
        }
        if self.chars[self.pos] != '\'' {
            return Err(Error::ExpectedString);
        }
        self.pos += 1;
        let ghost s1 = self@;
        let ghost base = self.pos as int;
        proof {
            assert(s1 =~= old(self)@.skip(1));
        }
        let mut buf = String::new();
        loop
            invariant
                old(self).wf(),
                self.chars@ == old(self).chars@,
                old(self)@.len() > 0,
                old(self)@[0] == '\'',
                s1 == old(self)@.skip(1),
                base == old(self).pos + 1,
                base <= self.pos <= self.chars@.len(),
                s1 == self.chars@.skip(base),
                self@ == s1.skip(self.pos - base),
                match scan_string(self@) {
                    None => scan_string(s1) is None,
                    Some(p) => scan_string(s1) == Some(
                        (buf@ + p.0, (self.pos - base) + p.1),
                    ),
                },
            decreases self.chars@.len() - self.pos,
        {
            let ghost rem = self@;
            if self.pos == self.chars.len() {
                proof {
                    assert(rem =~= Seq::<char>::empty());
                }
                return Err(Error::NoEndQuote);
            }
            let c = self.chars[self.pos];
            self.pos += 1;
            proof {
                assert(self@ =~= rem.skip(1));
            }
            if c == '\'' {
                proof {
                    assert(scan_string(rem) == Some((Seq::<char>::empty(), 1int)));
                    assert(buf@ + Seq::<char>::empty() =~= buf@);
                    let done = self.pos - base;
                    assert(scan_string(s1) == Some((buf@, done as int)));
                    assert(self@ =~= old(self)@.skip(1 + done));
                }
                return Ok(buf);
            }
            if c == '\\' {
                let ghost rem1 = self@;
                if self.pos == self.chars.len() {
                    proof {
                        assert(rem1 =~= Seq::<char>::empty());
                        assert(rem.len() == 1);
                        assert(scan_string(rem) is None);
                    }
                    return Err(Error::NoEndQuote);
                }
                let e = self.chars[self.pos];
                self.pos += 1;
                let u = if e == 'n' {
                    '\n'
                } else if e == 'r' {
                    '\r'
                } else if e == 't' {
                    '\t'
                } else {
                    e
                };
                let ghost oldbuf = buf@;
                push_char(&mut buf, u);
                proof {
                    assert(u == unescape(e));
                    assert(rem[0] == '\\' && rem[1] == e);
                    assert(self@ =~= rem.skip(2));
                    match scan_string(self@) {
                        None => {
                            assert(scan_string(rem) is None);
                        },
                        Some(p) => {
                            assert(scan_string(rem) == Some(
                                (seq![unescape(e)] + p.0, 2 + p.1),
                            ));
                            assert(oldbuf + (seq![unescape(e)] + p.0) =~= buf@ + p.0);
                        },
                    }
                }
            } else {
                let ghost oldbuf = buf@;
                push_char(&mut buf, c);
                proof {
                    assert(rem[0] == c && c != '\'' && c != '\\');
                    assert(self@ =~= rem.skip(1));
                    match scan_string(self@) {
                        None => {
                            assert(scan_string(rem) is None);
                        },
                        Some(p) => {
                            assert(scan_string(rem) == Some((seq![c] + p.0, 1 + p.1)));
                            assert(oldbuf + (seq![c] + p.0) =~= buf@ + p.0);
                        },
                    }
                }
            }
        }
    }

    /// Parse a bare identifier, `[A-Za-z_][A-Za-z0-9_-]*`, and fold every
    /// hyphen to an underscore, the form in which keys are compared
    /// against expected field names.
    pub fn parse_identifier(&mut self) -> (r: Result<String, Error>)
        requires
            old(self).wf(),
        ensures
            final(self).wf(),
            ({
                let s = old(self)@;
                let k = ident_len(s);
                if s.len() == 0 {
                    r == Err::<String, Error>(Error::Eof) && final(self)@ == s
                } else if k == 0 {
                    r == Err::<String, Error>(Error::ExpectedStruct) && final(self)@ == s
                } else {
                    r matches Ok(v) && v@ == fold_ident(s.take(k)) && 0 < k <= s.len()
                        && final(self)@ == s.skip(k)
                }
            }),
    {
        let ghost s = self@;
        if self.pos == self.chars.len() {
            return Err(Error::Eof);
        }
        if !is_ident_start_char(self.chars[self.pos]) {
            return Err(Error::ExpectedStruct);
        }
        let start = self.pos;
        let mut buf = String::new();
        let c0 = self.chars[self.pos];
        push_char(&mut buf, if c0 == '-' {
            '_'
        } else {
            c0
        });
        self.pos += 1;
        while self.pos < self.chars.len() && is_ident_cont_char(self.chars[self.pos])
            invariant
                old(self).wf(),
                self.chars@ == old(self).chars@,
                start == old(self).pos,
                start < self.pos <= self.chars@.len(),
                s == old(self)@,
                is_ident_start(s[0]),
                forall|j: int| start + 1 <= j < self.pos ==> is_ident_cont(self.chars@[j]),
                buf@ =~= fold_ident(s.take(self.pos - start)),
            decreases self.chars@.len() - self.pos,
        {
            let c = self.chars[self.pos];
            push_char(&mut buf, if c == '-' {
                '_'
            } else {
                c
            });
            self.pos += 1;
            proof {
                assert(buf@ =~= fold_ident(s.take(self.pos - start)));
            }
        }
        proof {
            let k = self.pos - start;
            let t = s.skip(1);
            assert(forall|i: int| 0 <= i < k - 1 ==> is_ident_cont(#[trigger] t[i]));
            lemma_ident_cont_len(t, k - 1);
            assert(s.drop_first() =~= t);
            assert(ident_len(s) == k);
            assert(self@ =~= s.skip(k));
        }
        Ok(buf)
    }

    /// Try the `nothing` marker for an absent optional value: consume it
    /// and return true when it is next, else leave the cursor untouched.
    pub fn parse_nothing(&mut self) -> (b: bool)
        requires
            old(self).wf(),
        ensures
            final(self).wf(),
            b == has_prefix(old(self)@, nothing_token()),
            b ==> final(self)@ == old(self)@.skip(7),
            !b ==> final(self)@ == old(self)@,
    {
        proof {
            reveal_strlit("nothing");
            assert("nothing"@ =~= nothing_token());
        }
        self.match_literal("nothing")
    }

    /// Decide what an optional decode reports when the underlying value
    /// failed: when the input looks like a misspelt `nothing` marker (it
    /// starts with `n`), that intent wins and the report is
    /// `ExpectedNothing`; otherwise the underlying error stands.
    pub fn option_error(&self, underlying: Error) -> (r: Error)
        requires
            self.wf(),
        ensures
            r == if self@.len() > 0 && self@[0] == 'n' {
                Error::ExpectedNothing
            } else {
                underlying
            },
    {
        if self.pos < self.chars.len() && self.chars[self.pos] == 'n' {
            Error::ExpectedNothing
        } else {
            underlying
        }
    }

    /// Open a nested structure: after any whitespace, its `(` is required.
    pub fn struct_begin(&mut self) -> (r: Result<(), Error>)
        requires
            old(self).wf(),
        ensures
            final(self).wf(),
            final(self)@.len() <= old(self)@.len(),
            ({
                let t = old(self)@.skip(ws_len(old(self)@));
                match r {
                    Ok(_) => t.len() > 0 && t[0] == '(' && final(self)@ == t.skip(1),
                    Err(e) => final(self)@ == t && if t.len() == 0 {
                        e == Error::Eof
                    } else {
                        t[0] != '(' && e == Error::ExpectedStruct
                    },
                }
            }),
    {
        self.skip_ws();
        if self.pos == self.chars.len() {
            return Err(Error::Eof);
        }
        if self.chars[self.pos] != '(' {
            return Err(Error::ExpectedStruct);
        }
        let ghost t = self@;
        self.pos += 1;
        proof {
            assert(self@ =~= t.skip(1));
        }
        Ok(())
    }

    /// Open a sequence: after any whitespace, its `[` is required.
    pub fn seq_begin(&mut self) -> (r: Result<(), Error>)
        requires
            old(self).wf(),
        ensures
            final(self).wf(),
            final(self)@.len() <= old(self)@.len(),
            ({
                let t = old(self)@.skip(ws_len(old(self)@));
                match r {
                    Ok(_) => t.len() > 0 && t[0] == '[' && final(self)@ == t.skip(1),
                    Err(e) => final(self)@ == t && if t.len() == 0 {
                        e == Error::Eof
                    } else {
                        t[0] != '[' && e == Error::ExpectedSeq
                    },
                }
            }),
    {
        self.skip_ws();
        if self.pos == self.chars.len() {
            return Err(Error::Eof);
        }
        if self.chars[self.pos] != '[' {
            return Err(Error::ExpectedSeq);
        }
        let ghost t = self@;
        self.pos += 1;
        proof {
            assert(self@ =~= t.skip(1));
        }
        Ok(())
    }

    /// Step a sequence at an element boundary and say whether another
    /// element follows. The closing `]` ends the sequence, also right
    /// after a separating comma (a trailing comma is accepted); between
    /// elements a comma is required. `first` says that no element has
    /// been decoded yet. Input that ends before `]` is `Eof`.
    pub fn seq_next(&mut self, first: bool) -> (r: Result<bool, Error>)
        requires
            old(self).wf(),
        ensures
            final(self).wf(),
            final(self)@.len() <= old(self)@.len(),
            ({
                let t = old(self)@.skip(ws_len(old(self)@));
                match r {
                    Ok(more) => if t.len() > 0 && t[0] == ']' {
                        more == false && final(self)@ == t.skip(1)
                    } else if first {
                        more == true && t.len() > 0 && t[0] != ']' && final(self)@ == t
                    } else {
                        t.len() > 0 && t[0] == ',' && ({
                            let u = t.skip(1);
                            let v = u.skip(ws_len(u));
                            if v.len() > 0 && v[0] == ']' {
                                more == false && final(self)@ == v.skip(1)
                            } else {
                                more == true && v.len() > 0 && final(self)@ == v
                            }
                        })
                    },
                    Err(e) => if t.len() == 0 {
                        e == Error::Eof && final(self)@ == t
                    } else if t[0] != ',' {
                        !first && t[0] != ']' && e == Error::ExpectedSeq && final(self)@ == t
                    } else {
                        !first && ({
                            let u = t.skip(1);
                            let v = u.skip(ws_len(u));
                            v.len() == 0 && e == Error::Eof && final(self)@ == v
                        })
                    },
                }
            }),
    {
        self.skip_ws();
        if self.pos == self.chars.len() {
            return Err(Error::Eof);
        }
        let ghost t = self@;
        if self.chars[self.pos] == ']' {
            self.pos += 1;
            proof {
                assert(self@ =~= t.skip(1));
            }
            return Ok(false);
        }
        if first {
            return Ok(true);
        }
        if self.chars[self.pos] != ',' {
            return Err(Error::ExpectedSeq);
        }
        self.pos += 1;
        proof {
            assert(self@ =~= t.skip(1));
        }
        self.skip_ws();
        if self.pos == self.chars.len() {
            return Err(Error::Eof);
        }
        let ghost v = self@;
        if self.chars[self.pos] == ']' {
            self.pos += 1;
            proof {
                assert(self@ =~= v.skip(1));
            }
            return Ok(false);
        }
        Ok(true)
    }

    /// Step a structure at a key position. `Ok(Some(i))` binds the next
    /// assignment to field `i` of `fields`: the key is parsed, folded,
    /// looked up, checked against `seen` and marked there, and the `=`
    /// with surrounding spaces is consumed, leaving the cursor on the
    /// value. `Ok(None)` ends the structure: at `)` when `nested`, at the
    /// input's end otherwise. A key outside `fields` is `UnknownField`; a
    /// key already marked is `DuplicateField`.
    pub fn struct_next_key(
        &mut self,
        fields: &FieldSpec,
        seen: &mut Vec<bool>,
        nested: bool,
    ) -> (r: Result<Option<usize>, Error>)
        requires
            old(self).wf(),
            fields.distinct(),
            old(seen)@.len() == fields@.len(),
        ensures
            final(self).wf(),
            final(self)@.len() <= old(self)@.len(),
            final(seen)@.len() == old(seen)@.len(),
            ({
                let t = old(self)@.skip(ws_len(old(self)@));
                let k = ident_len(t);
                let name = fold_ident(t.take(k));
                let u = t.skip(k);
                let u2 = u.skip(space_len(u));
                match r {
                    Ok(opt) => match opt {
                        None => final(seen)@ == old(seen)@ && if nested {
                            t.len() > 0 && t[0] == ')' && final(self)@ == t.skip(1)
                        } else {
                            t.len() == 0 && final(self)@ == t
                        },
                        Some(i) => {
                            &&& t.len() > 0
                            &&& k > 0
                            &&& i < fields@.len()
                            &&& fields@[i as int] == name
                            &&& !old(seen)@[i as int]
                            &&& final(seen)@ == old(seen)@.update(i as int, true)
                            &&& u2.len() > 0 && u2[0] == '='
                            &&& ({
                                let v = u2.skip(1);
                                final(self)@ == v.skip(space_len(v))
                            })
                        },
                    },
                    Err(e) => final(seen)@ == old(seen)@ && if t.len() == 0 {
                        nested && e == Error::Eof && final(self)@ == t
                    } else if k == 0 {
                        (nested ==> t[0] != ')') && e == Error::ExpectedStruct && final(self)@
                            == t
                    } else if forall|j: int| 0 <= j < fields@.len() ==> fields@[j] != name {
                        e matches Error::UnknownField(n) && n@ == name && final(self)@ == u
                    } else if exists|j: int|
                        0 <= j < fields@.len() && fields@[j] == name && old(seen)@[j] {
                        e matches Error::DuplicateField(n) && n@ == name && final(self)@ == u
                    } else {
                        (u2.len() == 0 || u2[0] != '=') && e == Error::ExpectedStruct
                            && final(self)@ == u2
                    },
                }
            }),
    {
        self.skip_ws();
        if self.pos == self.chars.len() {
            if nested {
                return Err(Error::Eof);
            } else {
                return Ok(None);
            }
        }
        let ghost t = self@;
        if nested && self.chars[self.pos] == ')' {
            self.pos += 1;
            proof {
                assert(self@ =~= t.skip(1));
            }
            return Ok(None);
        }
        let name = match self.parse_identifier() {
            Err(e) => return Err(e),
            Ok(nm) => nm,
        };
        let i = match fields.find(&name) {
            None => return Err(Error::UnknownField(name)),
            Some(i) => i,
        };
        if seen[i] {
            proof {
                assert(0 <= i < fields@.len() && fields@[i as int] == fold_ident(
                    t.take(ident_len(t)),
                ) && old(seen)@[i as int]);
            }
            return Err(Error::DuplicateField(name));
        }
        self.skip_space();
        if self.pos == self.chars.len() {
            return Err(Error::ExpectedStruct);
        }
        if self.chars[self.pos] != '=' {
            return Err(Error::ExpectedStruct);
        }
        let ghost u2 = self@;
        self.pos += 1;
        proof {
            assert(self@ =~= u2.skip(1));
        }
        self.skip_space();
        seen.set(i, true);
        Ok(Some(i))
    }

    /// Step a structure after a decoded value: consume the separating
    /// comma or line break. The closing `)` and, at the top level, the
    /// input's end also stand as boundaries and stay for
    /// [`Deserializer::struct_next_key`] to take.
    pub fn struct_after_value(&mut self, nested: bool) -> (r: Result<(), Error>)
        requires
            old(self).wf(),
        ensures
            final(self).wf(),
            final(self)@.len() <= old(self)@.len(),
            ({
                let t = old(self)@.skip(space_len(old(self)@));
                match r {
                    Ok(_) => if t.len() == 0 {
                        !nested && final(self)@ == t
                    } else if t[0] == ')' {
                        final(self)@ == t
                    } else {
                        (t[0] == ',' || t[0] == '\n') && final(self)@ == t.skip(1)
                    },
                    Err(e) => if t.len() == 0 {
                        nested && e == Error::Eof && final(self)@ == t
                    } else {
                        t[0] != ')' && t[0] != ',' && t[0] != '\n' && e == Error::ExpectedStruct
                            && final(self)@ == t
                    },
                }
            }),
    {
        self.skip_space();
        if self.pos == self.chars.len() {
            if nested {
                return Err(Error::Eof);
            } else {
                return Ok(());
            }
        }
        let ghost t = self@;
        let c = self.chars[self.pos];
        if c == ')' {
            return Ok(());
        }
        if c == ',' || c == '\n' {
            self.pos += 1;
            proof {
                assert(self@ =~= t.skip(1));
            }
            return Ok(());
        }
        Err(Error::ExpectedStruct)
    }

    /// Consume exactly one well-formed value, of whatever shape comes
    /// next, without handing it to anyone — what skipping an unexpected
    /// position takes so that later parsing stays in step. Every value
    /// grammar is recognized: strings, integers, `yes`, `no`, `nothing`,
    /// sequences and structures (the latter with any well-formed keys).
    /// What is consumed is exactly the one leading value that
    /// [`skip_value_len`] measures, and the call succeeds exactly when
    /// that measure exists; `depth` bounds the structural nesting that may
    /// still be entered, and input nested beyond it is refused
    /// (`NestingTooDeep`).
    pub fn parse_ignored_any(&mut self, depth: u64) -> (r: Result<(), Error>)
        requires
            old(self).wf(),
        ensures
            final(self).wf(),
            final(self)@.len() <= old(self)@.len(),
            ({
                let s = old(self)@;
                match r {
                    Ok(_) => skip_value_len(s, depth as nat) matches Some(n) && 1 <= n <= s.len()
                        && final(self)@ == s.skip(n),
                    Err(_) => skip_value_len(s, depth as nat) is None,
                }
            }),
        decreases depth, old(self)@.len(), 0int,
    {
        let ghost s0 = self@;
        self.skip_ws();
        let ghost w = ws_len(s0);
        let ghost t = s0.skip(w);
        proof {
            assert(self.wf());
            assert(self@.len() <= s0.len());
        }
        if self.pos == self.chars.len() {
            return Err(Error::Eof);
        }
        proof {
            assert(self.pos < self.chars@.len());
            assert(self@.len() >= 1);
        }
        let c = self.chars[self.pos];
        if c == '\'' {
            let ghost t1 = t.skip(1);
            match self.parse_string() {
                Ok(_) => {
                    proof {
                        lemma_scan_string_bounds(t1);
                        let p = scan_string(t1)->Some_0;
                        assert(self@ =~= s0.skip(w + 1 + p.1));
                    }
                    Ok(())
                },
                Err(e) => Err(e),
            }
        } else if c == '-' || is_digit_char(c) {
            let negative = c == '-';
            if negative {
                self.pos += 1;
            }
            let ghost b = if negative {
                t.skip(1)
            } else {
                t
            };
            proof {
                assert(self@ =~= b);
            }
            if self.pos == self.chars.len() {
                return Err(Error::Eof);
            }
            if !is_digit_char(self.chars[self.pos]) {
                return Err(Error::ExpectedInteger);
            }
            let ghost cs = self.chars@;
            let start = self.pos;
            while self.pos < self.chars.len() && is_digit_char(self.chars[self.pos])
                invariant
                    self.chars@ == cs,
                    start <= self.pos <= cs.len(),
                    b == cs.skip(start as int),
                    forall|j: int| start <= j < self.pos ==> is_digit(cs[j]),
                decreases cs.len() - self.pos,
            {
                self.pos += 1;
            }
            proof {
                let k = self.pos - start;
                assert(forall|i: int| 0 <= i < k ==> is_digit(#[trigger] b[i]));
                lemma_digit_len(b, k);
                assert(self@ =~= b.skip(k));
                if negative {
                    assert(self@ =~= s0.skip(w + 1 + k));
                } else {
                    assert(self@ =~= s0.skip(w + k));
                }
            }
            Ok(())
        } else if c == '[' {
            if depth == 0 {
                return Err(Error::NestingTooDeep);
            }
            self.pos += 1;
            proof {
                assert(self@ =~= t.skip(1));
            }
            match self.skip_seq_rest(depth - 1, true) {
                Ok(_) => {
                    proof {
                        let m = seq_rest_len(t.skip(1), (depth - 1) as nat, true)->Some_0;
                        assert(self@ =~= s0.skip(w + 1 + m));
                    }
                    Ok(())
                },
                Err(e) => Err(e),
            }
        } else if c == '(' {
            if depth == 0 {
                return Err(Error::NestingTooDeep);
            }
            self.pos += 1;
            proof {
                assert(self@ =~= t.skip(1));
            }
            match self.skip_struct_rest(depth - 1) {
                Ok(_) => {
                    proof {
                        let m = struct_rest_len(t.skip(1), (depth - 1) as nat)->Some_0;
                        assert(self@ =~= s0.skip(w + 1 + m));
                    }
                    Ok(())
                },
                Err(e) => Err(e),
            }
        } else if c == 'y' || c == 'n' {
            if self.parse_nothing() {
                proof {
                    assert(self@ =~= s0.skip(w + 7));
                }
                return Ok(());
            }
            match self.parse_bool() {
                Ok(v) => {
                    proof {
                        if v {
                            assert(self@ =~= s0.skip(w + 3));
                        } else {
                            assert(self@ =~= s0.skip(w + 2));
                        }
                    }
                    Ok(())
                },
                Err(e) => Err(e),
            }
        } else {
            proof {
                assert(!has_prefix(t, nothing_token())) by {
                    if has_prefix(t, nothing_token()) {
                        assert(t.take(7)[0] == 'n');
                    }
                }
                assert(!has_prefix(t, yes_token())) by {
                    if has_prefix(t, yes_token()) {
                        assert(t.take(3)[0] == 'y');
                    }
                }
                assert(!has_prefix(t, no_token())) by {
                    if has_prefix(t, no_token()) {
                        assert(t.take(2)[0] == 'n');
                    }
                }
            }
            Err(Error::UnexpectedEnd)
        }
    }

    /// The remainder of a sequence in ignore-mode, from an element
    /// boundary to just past the closing `]`: exactly the prefix that
    /// [`seq_rest_len`] measures, and success exactly when that measure
    /// exists. `d` is the nesting budget for the elements.
    fn skip_seq_rest(&mut self, d: u64, first: bool) -> (r: Result<(), Error>)
        requires
            old(self).wf(),
        ensures
            final(self).wf(),
            final(self)@.len() <= old(self)@.len(),
            ({
                let s = old(self)@;
                match r {
                    Ok(_) => seq_rest_len(s, d as nat, first) matches Some(m) && 1 <= m <= s.len()
                        && final(self)@ == s.skip(m),
                    Err(_) => seq_rest_len(s, d as nat, first) is None,
                }
            }),
        decreases d, old(self)@.len(), 1int,
    {
        let ghost s0 = self@;
        let ghost w = ws_len(s0);
        let ghost t = s0.skip(w);
        let ghost u = t.skip(1);
        let ghost w2 = ws_len(u);
        let ghost v = u.skip(w2);
        proof {
            lemma_ws_len_bounds(s0);
            lemma_ws_len_bounds(u);
            if t.len() > 0 {
                assert(u =~= s0.skip(w + 1));
                assert(v =~= s0.skip(w + 1 + w2));
            }
        }
        match self.seq_next(first) {
            Err(e) => Err(e),
            Ok(false) => {
                proof {
                    if t.len() > 0 && t[0] == ']' {
                        assert(t.skip(1) =~= s0.skip(w + 1));
                    } else {
                        assert(v.skip(1) =~= s0.skip(w + 1 + w2 + 1));
                    }
                }
                Ok(())
            },
            Ok(true) => {
                let ghost elem = self@;
                proof {
                    if first {
                        assert(elem == t);
                    } else {
                        assert(elem == v);
                    }
                }
                match self.parse_ignored_any(d) {
                    Err(e) => Err(e),
                    Ok(_) => {
                        let ghost n = skip_value_len(elem, d as nat)->Some_0;
                        let ghost after = self@;
                        proof {
                            assert(after == elem.skip(n));
                        }
                        match self.skip_seq_rest(d, false) {
                            Err(e) => Err(e),
                            Ok(_) => {
                                proof {
                                    let m = seq_rest_len(after, d as nat, false)->Some_0;
                                    assert(elem.skip(n).skip(m) =~= elem.skip(n + m));
                                    if first {
                                        assert(t.skip(n + m) =~= s0.skip(w + n + m));
                                    } else {
                                        assert(v.skip(n + m) =~= s0.skip(w + 1 + w2 + n + m));
                                    }
                                }
                                Ok(())
                            },
                        }
                    },
                }
            },
        }
    }

    /// The remainder of a structure in ignore-mode, from a key boundary to
    /// just past the closing `)`: exactly the prefix that
    /// [`struct_rest_len`] measures, and success exactly when that measure
    /// exists. Keys are parsed but checked against no field list. `d` is
    /// the nesting budget for the values.
    #[verifier::rlimit(80)]
    fn skip_struct_rest(&mut self, d: u64) -> (r: Result<(), Error>)
        requires
            old(self).wf(),
        ensures
            final(self).wf(),
            final(self)@.len() <= old(self)@.len(),
            ({
                let s = old(self)@;
                match r {
                    Ok(_) => struct_rest_len(s, d as nat) matches Some(m) && 1 <= m <= s.len()
                        && final(self)@ == s.skip(m),
                    Err(_) => struct_rest_len(s, d as nat) is None,
                }
            }),
        decreases d, old(self)@.len(), 1int,
    {
        let ghost s0 = self@;
        self.skip_ws();
        let ghost w = ws_len(s0);
        let ghost t = s0.skip(w);
        if self.pos == self.chars.len() {
            return Err(Error::Eof);
        }
        proof {
            assert(self.pos < self.chars@.len());
            assert(self@.len() >= 1);
        }
        let ghost t_here = self@;
        if self.chars[self.pos] == ')' {
            self.pos += 1;
            proof {
                assert(self@ =~= t_here.skip(1));
                assert(t.skip(1) =~= s0.skip(w + 1));
            }
            return Ok(());
        }
        let ghost k = ident_len(t);
        match self.parse_identifier() {
            Err(e) => return Err(e),
            Ok(_) => {},
        }
        let ghost u = t.skip(k);
        self.skip_space();
        let ghost a = space_len(u);
        let ghost u2 = u.skip(a);
        if self.pos == self.chars.len() {
            return Err(Error::ExpectedStruct);
        }
        if self.chars[self.pos] != '=' {
            return Err(Error::ExpectedStruct);
        }
        proof {
            assert(self.pos < self.chars@.len());
            assert(self@.len() >= 1);
        }
        let ghost u2_here = self@;
        self.pos += 1;
        let ghost v = u2.skip(1);
        proof {
            assert(self@ =~= u2_here.skip(1));
            assert(self@ == v);
        }
        self.skip_space();
        let ghost b = space_len(v);
        let ghost v2 = v.skip(b);
        proof {
            assert(u =~= s0.skip(w + k));
            assert(u2 =~= s0.skip(w + k + a));
            assert(v =~= s0.skip(w + k + a + 1));
            assert(v2 =~= s0.skip(w + k + a + 1 + b));
            assert(self@.len() < s0.len());
        }
        match self.parse_ignored_any(d) {
            Err(e) => return Err(e),
            Ok(_) => {},
        }
        let ghost n = skip_value_len(v2, d as nat)->Some_0;
        let ghost r2 = v2.skip(n);
        match self.struct_after_value(true) {
            Err(e) => return Err(e),
            Ok(_) => {},
        }
        let ghost cdl = space_len(r2);
        let ghost t3 = r2.skip(cdl);
        let ghost sep = t3.len() > 0 && (t3[0] == ',' || t3[0] == '\n');
        let ghost rest = if sep {
            t3.skip(1)
        } else {
            t3
        };
        proof {
            lemma_space_len_bounds(r2);
            assert(r2 =~= s0.skip(w + k + a + 1 + b + n));
            assert(t3 =~= s0.skip(w + k + a + 1 + b + n + cdl));
            assert(self@ == rest);
        }
        match self.skip_struct_rest(d) {
            Err(e) => Err(e),
            Ok(_) => {
                proof {
                    let m = struct_rest_len(rest, d as nat)->Some_0;
                    if sep {
                        assert(t3.skip(1).skip(m) =~= t3.skip(1 + m));
                        assert(t3.skip(1 + m) =~= s0.skip(w + k + a + 1 + b + n + cdl + 1 + m));
                    } else {
                        assert(t3.skip(m) =~= s0.skip(w + k + a + 1 + b + n + cdl + m));
                    }
                }
                Ok(())
            },
        }
    }

    /// The tail of a sequence of unsigned integers, from an element
    /// boundary to just past the closing `]`: appends to `out` exactly the
    /// values that [`seq_u64_rest`] lists, in input order, consuming
    /// exactly its measure; success exactly when that measure exists.
    fn parse_u64_seq_rest(&mut self, out: &mut Vec<u64>, first: bool) -> (r: Result<(), Error>)
        requires
            old(self).wf(),
        ensures
            final(self).wf(),
            final(self)@.len() <= old(self)@.len(),
            ({
                let s = old(self)@;
                match r {
                    Ok(_) => seq_u64_rest(s, first) matches Some(p) && 1 <= p.1 <= s.len()
                        && final(self)@ == s.skip(p.1) && final(out)@ == old(out)@
                        + nats_to_u64s(p.0),
                    Err(_) => seq_u64_rest(s, first) is None,
                }
            }),
        decreases old(self)@.len(),
    {
        let ghost s0 = self@;
        let ghost w = ws_len(s0);
        let ghost t = s0.skip(w);
        let ghost u = t.skip(1);
        let ghost w2 = ws_len(u);
        let ghost v = u.skip(w2);
        proof {
            lemma_ws_len_bounds(s0);
            lemma_ws_len_bounds(u);
            if t.len() > 0 {
                assert(u =~= s0.skip(w + 1));
                assert(v =~= s0.skip(w + 1 + w2));
            }
            assert(nats_to_u64s(Seq::<nat>::empty()) =~= Seq::<u64>::empty());
        }
        match self.seq_next(first) {
            Err(e) => Err(e),
            Ok(false) => {
                proof {
                    if t.len() > 0 && t[0] == ']' {
                        assert(t.skip(1) =~= s0.skip(w + 1));
                    } else {
                        assert(v.skip(1) =~= s0.skip(w + 1 + w2 + 1));
                    }
                    assert(out@ + Seq::<u64>::empty() =~= out@);
                }
                Ok(())
            },
            Ok(true) => {
                let ghost elem = self@;
                proof {
                    if first {
                        assert(elem == t);
                    } else {
                        assert(elem == v);
                    }
                }
                match self.parse_u64() {
                    Err(e) => Err(e),
                    Ok(val) => {
                        let ghost k = digit_len(elem);
                        proof {
                            assert(u64_elem(elem) == Some((val as nat, k)));
                        }
                        out.push(val);
                        let ghost after = self@;
                        let ghost mid = out@;
                        proof {
                            assert(after == elem.skip(k));
                            assert(mid == old(out)@.push(val));
                        }
                        match self.parse_u64_seq_rest(out, false) {
                            Err(e) => Err(e),
                            Ok(_) => {
                                proof {
                                    let p = seq_u64_rest(after, false)->Some_0;
                                    assert(elem.skip(k).skip(p.1) =~= elem.skip(k + p.1));
                                    if first {
                                        assert(t.skip(k + p.1) =~= s0.skip(w + k + p.1));
                                    } else {
                                        assert(v.skip(k + p.1) =~= s0.skip(
                                            w + 1 + w2 + k + p.1,
                                        ));
                                    }
                                    assert(nats_to_u64s(seq![val as nat] + p.0) =~= seq![val]
                                        + nats_to_u64s(p.0));
                                    assert(old(out)@ + (seq![val] + nats_to_u64s(p.0)) =~= (
                                    old(out)@.push(val)) + nats_to_u64s(p.0));
                                }
                                Ok(())
                            },
                        }
                    },
                }
            },
        }
    }

    /// Decode a whole sequence of unsigned integers — the sequence grammar
    /// stated as one item: `[`, zero or more comma-separated integers, a
    /// trailing comma accepted, `]`. The result holds exactly the values
    /// of [`seq_u64_values`], in input order; an empty `[]` gives an empty
    /// vector.
    pub fn parse_u64_seq(&mut self) -> (r: Result<Vec<u64>, Error>)
        requires
            old(self).wf(),
        ensures
            final(self).wf(),
            final(self)@.len() <= old(self)@.len(),
            ({
                let s = old(self)@;
                match r {
                    Ok(vs) => seq_u64_values(s) matches Some(p) && vs@ == nats_to_u64s(p.0)
                        && final(self)@ == s.skip(p.1),
                    Err(_) => seq_u64_values(s) is None,
                }
            }),
    {
        let ghost s0 = self@;
        let ghost w = ws_len(s0);
        let ghost t = s0.skip(w);
        match self.seq_begin() {
            Err(e) => return Err(e),
            Ok(_) => {},
        }
        let mut out: Vec<u64> = Vec::new();
        match self.parse_u64_seq_rest(&mut out, true) {
            Err(e) => Err(e),
            Ok(_) => {
                proof {
                    let p = seq_u64_rest(t.skip(1), true)->Some_0;
                    lemma_ws_len_bounds(s0);
                    assert(t.skip(1).skip(p.1) =~= s0.skip(w + 1 + p.1));
                    assert(Seq::<u64>::empty() + nats_to_u64s(p.0) =~= nats_to_u64s(p.0));
                }
                Ok(out)
            },
        }
    }

    /// After a complete top-level value: only whitespace may remain, and
    /// anything more is `UnexpectedEnd`.
    pub fn expect_end(&mut self) -> (r: Result<(), Error>)
        requires
            old(self).wf(),
        ensures
            final(self).wf(),
            final(self)@.len() <= old(self)@.len(),
            ({
                let t = old(self)@.skip(ws_len(old(self)@));
                match r {
                    Ok(_) => t.len() == 0 && final(self)@ == t,
                    Err(e) => t.len() > 0 && e == Error::UnexpectedEnd && final(self)@ == t,
                }
            }),
    {
        self.skip_ws();
        if self.pos == self.chars.len() {
            Ok(())
        } else {
            Err(Error::UnexpectedEnd)
        }
    }
}

} // verus!
