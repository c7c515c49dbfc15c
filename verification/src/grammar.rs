//! The mathematical description of the Goff textual grammar.
//!
//! Every parser in [`crate::serialize`] is specified against the functions
//! here: character classes, the value of a digit run, the longest prefix
//! matched by each token class, and the escape grammar of quoted strings.
//! The round-trip laws at the end state that formatting an integer or
//! escaping a string and decoding the result gives the original value back.

use vstd::prelude::*;

verus! {

// ---------------------------------------------------------------------------
// Character classes
// ---------------------------------------------------------------------------

/// An ASCII decimal digit.
pub open spec fn is_digit(c: char) -> bool {
    '0' <= c && c <= '9'
}

/// The numeric value of a digit character.
pub open spec fn digit_val(c: char) -> nat {
    ((c as int) - ('0' as int)) as nat
}

/// Whitespace between tokens: spaces, tabs and line breaks.
pub open spec fn is_ws(c: char) -> bool {
    c == ' ' || c == '\t' || c == '\r' || c == '\n'
}

/// Whitespace within a line of a structure body; a line break is a
/// separator there, not blank space.
pub open spec fn is_space(c: char) -> bool {
    c == ' ' || c == '\t' || c == '\r'
}

/// The first character of an identifier.
pub open spec fn is_ident_start(c: char) -> bool {
    ('a' <= c && c <= 'z') || ('A' <= c && c <= 'Z') || c == '_'
}

/// Any later character of an identifier.
pub open spec fn is_ident_cont(c: char) -> bool {
    is_ident_start(c) || is_digit(c) || c == '-'
}

/// Hyphens in identifiers are folded to underscores before field names are
/// compared.
pub open spec fn fold_char(c: char) -> char {
    if c == '-' {
        '_'
    } else {
        c
    }
}

/// An identifier with every hyphen folded to an underscore.
pub open spec fn fold_ident(s: Seq<char>) -> Seq<char> {
    s.map_values(|c: char| fold_char(c))
}

// ---------------------------------------------------------------------------
// Longest prefixes
// ---------------------------------------------------------------------------

/// The length of the longest prefix of digits.
pub open spec fn digit_len(s: Seq<char>) -> int
    decreases s.len(),
{
    if s.len() == 0 || !is_digit(s[0]) {
        0
    } else {
        1 + digit_len(s.drop_first())
    }
}

/// The length of the longest prefix of whitespace.
pub open spec fn ws_len(s: Seq<char>) -> int
    decreases s.len(),
{
    if s.len() == 0 || !is_ws(s[0]) {
        0
    } else {
        1 + ws_len(s.drop_first())
    }
}

/// The length of the longest prefix of within-line whitespace.
pub open spec fn space_len(s: Seq<char>) -> int
    decreases s.len(),
{
    if s.len() == 0 || !is_space(s[0]) {
        0
    } else {
        1 + space_len(s.drop_first())
    }
}

/// The length of the longest prefix of identifier-continuation characters.
pub open spec fn ident_cont_len(s: Seq<char>) -> int
    decreases s.len(),
{
    if s.len() == 0 || !is_ident_cont(s[0]) {
        0
    } else {
        1 + ident_cont_len(s.drop_first())
    }
}

/// The length of the longest prefix that is an identifier: an
/// identifier-start character followed by identifier-continuation
/// characters. Zero when no identifier begins here.
pub open spec fn ident_len(s: Seq<char>) -> int {
    if s.len() == 0 || !is_ident_start(s[0]) {
        0
    } else {
        1 + ident_cont_len(s.drop_first())
    }
}

/// `p` is what `s` begins with.
pub open spec fn has_prefix(s: Seq<char>, p: Seq<char>) -> bool {
    p.len() <= s.len() && s.take(p.len() as int) == p
}

// ---------------------------------------------------------------------------
// Keyword tokens
// ---------------------------------------------------------------------------

/// The boolean token for `true`.
pub open spec fn yes_token() -> Seq<char> {
    seq!['y', 'e', 's']
}

/// The boolean token for `false`.
pub open spec fn no_token() -> Seq<char> {
    seq!['n', 'o']
}

/// The token for an absent optional value.
pub open spec fn nothing_token() -> Seq<char> {
    seq!['n', 'o', 't', 'h', 'i', 'n', 'g']
}

// ---------------------------------------------------------------------------
// Integers
// ---------------------------------------------------------------------------

/// The value of a run of digits, most significant first.
pub open spec fn digits_val(s: Seq<char>) -> nat
    decreases s.len(),
{
    if s.len() == 0 {
        0
    } else {
        digits_val(s.drop_last()) * 10 + digit_val(s.last())
    }
}

/// Appending one digit multiplies the value by ten and adds the digit.
pub proof fn lemma_digits_val_step(s: Seq<char>, i: int)
    requires
        0 <= i < s.len(),
    ensures
        digits_val(s.take(i + 1)) == digits_val(s.take(i)) * 10 + digit_val(s[i]),
{
    assert(s.take(i + 1).drop_last() =~= s.take(i));
    assert(s.take(i + 1).last() == s[i]);
}

/// The value of a digit run never shrinks as the run grows.
pub proof fn lemma_digits_val_mono(s: Seq<char>, i: int, j: int)
    requires
        0 <= i <= j <= s.len(),
    ensures
        digits_val(s.take(i)) <= digits_val(s.take(j)),
    decreases j - i,
{
    if i < j {
        lemma_digits_val_mono(s, i, j - 1);
        lemma_digits_val_step(s, j - 1);
    }
}

/// A run that consists of digits and stops at a non-digit is the longest
/// digit prefix.
pub proof fn lemma_digit_len(s: Seq<char>, k: int)
    requires
        0 <= k <= s.len(),
        forall|i: int| 0 <= i < k ==> is_digit(s[i]),
        k == s.len() || !is_digit(s[k]),
    ensures
        digit_len(s) == k,
    decreases s.len(),
{
    if s.len() == 0 || !is_digit(s[0]) {
        assert(k == 0);
    } else {
        assert(forall|i: int| 0 <= i < k - 1 ==> is_digit(#[trigger] s.drop_first()[i]));
        lemma_digit_len(s.drop_first(), k - 1);
    }
}

/// A run of whitespace that stops at non-whitespace is the longest
/// whitespace prefix.
pub proof fn lemma_ws_len(s: Seq<char>, k: int)
    requires
        0 <= k <= s.len(),
        forall|i: int| 0 <= i < k ==> is_ws(s[i]),
        k == s.len() || !is_ws(s[k]),
    ensures
        ws_len(s) == k,
    decreases s.len(),
{
    if s.len() == 0 || !is_ws(s[0]) {
        assert(k == 0);
    } else {
        assert(forall|i: int| 0 <= i < k - 1 ==> is_ws(#[trigger] s.drop_first()[i]));
        lemma_ws_len(s.drop_first(), k - 1);
    }
}

/// A run of within-line whitespace that stops elsewhere is the longest such
/// prefix.
pub proof fn lemma_space_len(s: Seq<char>, k: int)
    requires
        0 <= k <= s.len(),
        forall|i: int| 0 <= i < k ==> is_space(s[i]),
        k == s.len() || !is_space(s[k]),
    ensures
        space_len(s) == k,
    decreases s.len(),
{
    if s.len() == 0 || !is_space(s[0]) {
        assert(k == 0);
    } else {
        assert(forall|i: int| 0 <= i < k - 1 ==> is_space(#[trigger] s.drop_first()[i]));
        lemma_space_len(s.drop_first(), k - 1);
    }
}

/// A run of continuation characters that stops elsewhere is the longest
/// such prefix.
pub proof fn lemma_ident_cont_len(s: Seq<char>, k: int)
    requires
        0 <= k <= s.len(),
        forall|i: int| 0 <= i < k ==> is_ident_cont(s[i]),
        k == s.len() || !is_ident_cont(s[k]),
    ensures
        ident_cont_len(s) == k,
    decreases s.len(),
{
    if s.len() == 0 || !is_ident_cont(s[0]) {
        assert(k == 0);
    } else {
        assert(forall|i: int| 0 <= i < k - 1 ==> is_ident_cont(#[trigger] s.drop_first()[i]));
        lemma_ident_cont_len(s.drop_first(), k - 1);
    }
}

// ---------------------------------------------------------------------------
// Strings
// ---------------------------------------------------------------------------

/// What the character after a backslash stands for. Unrecognized escapes
/// pass the character through with the backslash dropped.
pub open spec fn unescape(c: char) -> char {
    if c == 'n' {
        '\n'
    } else if c == 'r' {
        '\r'
    } else if c == 't' {
        '\t'
    } else {
        c
    }
}

/// The string grammar after its opening quote: `None` when the input ends
/// before an unescaped closing quote; otherwise the decoded content and the
/// number of characters consumed, closing quote included.
pub open spec fn scan_string(s: Seq<char>) -> Option<(Seq<char>, int)>
    decreases s.len(),
{
    if s.len() == 0 {
        None
    } else if s[0] == '\'' {
        Some((Seq::empty(), 1))
    } else if s[0] == '\\' {
        if s.len() == 1 {
            None
        } else {
            match scan_string(s.skip(2)) {
                None => None,
                Some(r) => Some((seq![unescape(s[1])] + r.0, 2 + r.1)),
            }
        }
    } else {
        match scan_string(s.skip(1)) {
            None => None,
            Some(r) => Some((seq![s[0]] + r.0, 1 + r.1)),
        }
    }
}

/// The whitespace prefix lies within the input.
pub proof fn lemma_ws_len_bounds(s: Seq<char>)
    ensures
        0 <= ws_len(s) <= s.len(),
    decreases s.len(),
{
    if s.len() != 0 && is_ws(s[0]) {
        lemma_ws_len_bounds(s.drop_first());
    }
}

/// The within-line whitespace prefix lies within the input.
pub proof fn lemma_space_len_bounds(s: Seq<char>)
    ensures
        0 <= space_len(s) <= s.len(),
    decreases s.len(),
{
    if s.len() != 0 && is_space(s[0]) {
        lemma_space_len_bounds(s.drop_first());
    }
}

/// A successful string scan consumes at least the closing quote and at
/// most the whole input.
pub proof fn lemma_scan_string_bounds(s: Seq<char>)
    ensures
        scan_string(s) matches Some(p) ==> 1 <= p.1 <= s.len(),
    decreases s.len(),
{
    if s.len() == 0 {
    } else if s[0] == '\'' {
    } else if s[0] == '\\' {
        if s.len() > 1 {
            lemma_scan_string_bounds(s.skip(2));
        }
    } else {
        lemma_scan_string_bounds(s.skip(1));
    }
}

// ---------------------------------------------------------------------------
// Whole values
// ---------------------------------------------------------------------------

/// The length of the one well-formed value that `s` begins with, leading
/// whitespace included, or `None` when no value grammar accepts the input
/// here within a nesting budget of `depth` further composites. This is the
/// measure of what ignore-mode consumes: strings by [`scan_string`],
/// integers by their digit run, the keyword tokens, and sequences and
/// structures element by element through [`seq_rest_len`] and
/// [`struct_rest_len`].
///
/// The range tests on the prefix lengths can never fail — each length lies
/// within the input — but stating them here keeps the recursion visibly
/// well-founded.
pub open spec fn skip_value_len(s: Seq<char>, depth: nat) -> Option<int>
    decreases depth, s.len(), 0int,
{
    let w = ws_len(s);
    if w < 0 || w > s.len() {
        None
    } else {
        let t = s.skip(w);
        if t.len() == 0 {
            None
        } else if t[0] == '\'' {
            match scan_string(t.skip(1)) {
                None => None,
                Some(p) => Some(w + 1 + p.1),
            }
        } else if t[0] == '-' {
            let b = t.skip(1);
            if b.len() == 0 || !is_digit(b[0]) {
                None
            } else {
                Some(w + 1 + digit_len(b))
            }
        } else if is_digit(t[0]) {
            Some(w + digit_len(t))
        } else if t[0] == '[' {
            if depth == 0 {
                None
            } else {
                match seq_rest_len(t.skip(1), (depth - 1) as nat, true) {
                    None => None,
                    Some(m) => Some(w + 1 + m),
                }
            }
        } else if t[0] == '(' {
            if depth == 0 {
                None
            } else {
                match struct_rest_len(t.skip(1), (depth - 1) as nat) {
                    None => None,
                    Some(m) => Some(w + 1 + m),
                }
            }
        } else if has_prefix(t, nothing_token()) {
            Some(w + 7)
        } else if has_prefix(t, yes_token()) {
            Some(w + 3)
        } else if has_prefix(t, no_token()) {
            Some(w + 2)
        } else {
            None
        }
    }
}

/// The length of a sequence's remainder after its `[`, up to and including
/// the closing `]`: at an element boundary either the sequence closes, or
/// (after a separating comma, unless no element has come yet) one value of
/// [`skip_value_len`] follows and the remainder recurses. `None` when the
/// sequence grammar rejects the input.
pub open spec fn seq_rest_len(r: Seq<char>, d: nat, first: bool) -> Option<int>
    decreases d, r.len(), 1int,
{
    let w = ws_len(r);
    if w < 0 || w > r.len() {
        None
    } else {
        let t = r.skip(w);
        if t.len() == 0 {
            None
        } else if t[0] == ']' {
            Some(w + 1)
        } else if first {
            match skip_value_len(t, d) {
                None => None,
                Some(n) => if n < 1 || n > t.len() {
                    None
                } else {
                    match seq_rest_len(t.skip(n), d, false) {
                        None => None,
                        Some(m) => Some(w + n + m),
                    }
                },
            }
        } else if t[0] == ',' {
            let u = t.skip(1);
            let w2 = ws_len(u);
            if w2 < 0 || w2 > u.len() {
                None
            } else {
                let v = u.skip(w2);
                if v.len() == 0 {
                    None
                } else if v[0] == ']' {
                    Some(w + 1 + w2 + 1)
                } else {
                    match skip_value_len(v, d) {
                        None => None,
                        Some(n) => if n < 1 || n > v.len() {
                            None
                        } else {
                            match seq_rest_len(v.skip(n), d, false) {
                                None => None,
                                Some(m) => Some(w + 1 + w2 + n + m),
                            }
                        },
                    }
                }
            }
        } else {
            None
        }
    }
}

/// The length of a structure's remainder after its `(`, up to and
/// including the closing `)`: at a key boundary either the structure
/// closes, or a well-formed key, `=`, one value of [`skip_value_len`] and
/// a separator (or the closing parenthesis) follow and the remainder
/// recurses. Keys are only required to be well-formed identifiers here —
/// ignore-mode checks them against no field list. `None` when the
/// structure grammar rejects the input.
pub open spec fn struct_rest_len(r: Seq<char>, d: nat) -> Option<int>
    decreases d, r.len(), 1int,
{
    let w = ws_len(r);
    if w < 0 || w > r.len() {
        None
    } else {
        let t = r.skip(w);
        if t.len() == 0 {
            None
        } else if t[0] == ')' {
            Some(w + 1)
        } else {
            let k = ident_len(t);
            if k < 1 || k > t.len() {
                None
            } else {
                let u = t.skip(k);
                let a = space_len(u);
                if a < 0 || a > u.len() {
                    None
                } else {
                    let u2 = u.skip(a);
                    if u2.len() == 0 || u2[0] != '=' {
                        None
                    } else {
                        let v = u2.skip(1);
                        let b = space_len(v);
                        if b < 0 || b > v.len() {
                            None
                        } else {
                            let v2 = v.skip(b);
                            match skip_value_len(v2, d) {
                                None => None,
                                Some(n) => if n < 1 || n > v2.len() {
                                    None
                                } else {
                                    let r2 = v2.skip(n);
                                    let c = space_len(r2);
                                    if c < 0 || c > r2.len() {
                                        None
                                    } else {
                                        let t3 = r2.skip(c);
                                        if t3.len() == 0 {
                                            None
                                        } else if t3[0] == ')' {
                                            match struct_rest_len(t3, d) {
                                                None => None,
                                                Some(m) => Some(w + k + a + 1 + b + n + c + m),
                                            }
                                        } else if t3[0] == ',' || t3[0] == '\n' {
                                            match struct_rest_len(t3.skip(1), d) {
                                                None => None,
                                                Some(m) => Some(
                                                    w + k + a + 1 + b + n + c + 1 + m,
                                                ),
                                            }
                                        } else {
                                            None
                                        }
                                    }
                                },
                            }
                        }
                    }
                }
            }
        }
    }
}

/// One unsigned-integer sequence element: the value of the leading digit
/// run, if there is one and it fits sixty-four bits, and its length.
pub open spec fn u64_elem(t: Seq<char>) -> Option<(nat, int)> {
    if t.len() == 0 || !is_digit(t[0]) {
        None
    } else {
        let k = digit_len(t);
        if k < 1 || k > t.len() {
            None
        } else {
            let v = digits_val(t.take(k));
            if v > 18446744073709551615 {
                None
            } else {
                Some((v, k))
            }
        }
    }
}

/// The remainder of a sequence of unsigned integers after its `[`: the
/// element values in input order and the length consumed up to and
/// including the closing `]`, under the same boundary rules as
/// [`seq_rest_len`] — a trailing comma is accepted, a comma is required
/// between elements. `None` when the grammar rejects the input or an
/// element does not fit.
pub open spec fn seq_u64_rest(r: Seq<char>, first: bool) -> Option<(Seq<nat>, int)>
    decreases r.len(),
{
    let w = ws_len(r);
    if w < 0 || w > r.len() {
        None
    } else {
        let t = r.skip(w);
        if t.len() == 0 {
            None
        } else if t[0] == ']' {
            Some((Seq::empty(), w + 1))
        } else if first {
            match u64_elem(t) {
                None => None,
                Some(e) => if e.1 < 1 || e.1 > t.len() {
                    None
                } else {
                    match seq_u64_rest(t.skip(e.1), false) {
                        None => None,
                        Some(p) => Some((seq![e.0] + p.0, w + e.1 + p.1)),
                    }
                },
            }
        } else if t[0] == ',' {
            let u = t.skip(1);
            let w2 = ws_len(u);
            if w2 < 0 || w2 > u.len() {
                None
            } else {
                let v = u.skip(w2);
                if v.len() == 0 {
                    None
                } else if v[0] == ']' {
                    Some((Seq::empty(), w + 1 + w2 + 1))
                } else {
                    match u64_elem(v) {
                        None => None,
                        Some(e) => if e.1 < 1 || e.1 > v.len() {
                            None
                        } else {
                            match seq_u64_rest(v.skip(e.1), false) {
                                None => None,
                                Some(p) => Some((seq![e.0] + p.0, w + 1 + w2 + e.1 + p.1)),
                            }
                        },
                    }
                }
            }
        } else {
            None
        }
    }
}

/// Sequence values as machine words; every value listed fits, so the cast
/// is faithful.
pub open spec fn nats_to_u64s(vals: Seq<nat>) -> Seq<u64> {
    vals.map_values(|v: nat| v as u64)
}

/// A whole sequence of unsigned integers: `[`, the elements of
/// [`seq_u64_rest`], `]`. The values in input order and the total length
/// consumed.
pub open spec fn seq_u64_values(s: Seq<char>) -> Option<(Seq<nat>, int)> {
    let w = ws_len(s);
    if w < 0 || w > s.len() {
        None
    } else {
        let t = s.skip(w);
        if t.len() == 0 || t[0] != '[' {
            None
        } else {
            match seq_u64_rest(t.skip(1), true) {
                None => None,
                Some(p) => Some((p.0, w + 1 + p.1)),
            }
        }
    }
}

// ---------------------------------------------------------------------------
// Round-trip laws
// ---------------------------------------------------------------------------

/// The digit character of a value below ten.
pub open spec fn digit_char(d: nat) -> char {
    if d == 0 {
        '0'
    } else if d == 1 {
        '1'
    } else if d == 2 {
        '2'
    } else if d == 3 {
        '3'
    } else if d == 4 {
        '4'
    } else if d == 5 {
        '5'
    } else if d == 6 {
        '6'
    } else if d == 7 {
        '7'
    } else if d == 8 {
        '8'
    } else {
        '9'
    }
}

/// The decimal digits of `n`, most significant first.
pub open spec fn format_u(n: nat) -> Seq<char>
    decreases n,
{
    if n < 10 {
        seq![digit_char(n)]
    } else {
        format_u(n / 10).push(digit_char(n % 10))
    }
}

/// The decimal form of a signed value: a `-` before the digits of the
/// magnitude when the value is negative.
pub open spec fn format_i(n: int) -> Seq<char> {
    if n < 0 {
        seq!['-'] + format_u((-n) as nat)
    } else {
        format_u(n as nat)
    }
}

/// Integer round trip: the decimal form of `n` is all digits, and decoding
/// it by the digit-run grammar gives `n` back. Together with the contract
/// of the unsigned parser this says that decoding `format_u(n)` yields
/// `n` for every `n` within the destination width.
pub proof fn lemma_unsigned_round_trip(n: nat)
    ensures
        format_u(n).len() >= 1,
        forall|i: int| 0 <= i < format_u(n).len() ==> is_digit(#[trigger] format_u(n)[i]),
        digits_val(format_u(n)) == n,
        digit_len(format_u(n)) == format_u(n).len(),
    decreases n,
{
    if n < 10 {
        let s = format_u(n);
        assert(s.drop_last() =~= Seq::<char>::empty());
        assert(s.last() == digit_char(n));
        assert(digit_val(digit_char(n)) == n);
        assert(digits_val(s) == digits_val(Seq::<char>::empty()) * 10 + digit_val(digit_char(n)));
    } else {
        lemma_unsigned_round_trip(n / 10);
        let s = format_u(n / 10);
        assert(format_u(n).drop_last() =~= s);
        assert(forall|i: int| 0 <= i < s.len() ==> format_u(n)[i] == #[trigger] s[i]);
    }
    lemma_digit_len_all(format_u(n));
}

/// A sequence of digits is its own longest digit prefix.
pub proof fn lemma_digit_len_all(s: Seq<char>)
    requires
        forall|i: int| 0 <= i < s.len() ==> is_digit(#[trigger] s[i]),
    ensures
        digit_len(s) == s.len(),
{
    lemma_digit_len(s, s.len() as int);
}

/// Signed round trip: the decimal form of a negative value is a `-`
/// followed by the digits of the magnitude, and the magnitude decodes back
/// by the digit-run grammar. Together with the contract of the signed
/// parser this says that decoding `format_i(n)` yields `n` for every `n`
/// within the destination width.
pub proof fn lemma_signed_round_trip(n: int)
    ensures
        n >= 0 ==> format_i(n) == format_u(n as nat),
        n < 0 ==> format_i(n).len() >= 2 && format_i(n)[0] == '-' && format_i(n).skip(1)
            =~= format_u((-n) as nat),
        digits_val(format_u(if n < 0 {
            (-n) as nat
        } else {
            n as nat
        })) == if n < 0 {
            -n
        } else {
            n
        },
{
    if n < 0 {
        lemma_unsigned_round_trip((-n) as nat);
        assert(format_i(n).skip(1) =~= format_u((-n) as nat));
    } else {
        lemma_unsigned_round_trip(n as nat);
    }
}

/// The escaped form of one character: backslashes, quotes and the named
/// control characters get a backslash escape; everything else stands for
/// itself.
pub open spec fn escape_char(c: char) -> Seq<char> {
    if c == '\\' {
        seq!['\\', '\\']
    } else if c == '\'' {
        seq!['\\', '\'']
    } else if c == '\n' {
        seq!['\\', 'n']
    } else if c == '\r' {
        seq!['\\', 'r']
    } else if c == '\t' {
        seq!['\\', 't']
    } else {
        seq![c]
    }
}

/// The escaped form of a string's content, character by character.
pub open spec fn escape_str(s: Seq<char>) -> Seq<char>
    decreases s.len(),
{
    if s.len() == 0 {
        Seq::empty()
    } else {
        escape_char(s[0]) + escape_str(s.drop_first())
    }
}

/// String round trip: escaping any content and closing it with a quote
/// decodes, by the string grammar, back to exactly that content, consuming
/// the whole literal. Together with the contract of the string parser this
/// says that decoding `'` + `escape_str(s)` + `'` yields `s` for every `s`.
pub proof fn lemma_string_round_trip(s: Seq<char>)
    ensures
        scan_string(escape_str(s).push('\'')) == Some((s, escape_str(s).len() + 1 as int)),
    decreases s.len(),
{
    let full = escape_str(s).push('\'');
    if s.len() == 0 {
        assert(full =~= seq!['\'']);
        assert(scan_string(full) == Some((Seq::<char>::empty(), 1int)));
        assert(s =~= Seq::<char>::empty());
    } else {
        let c = s[0];
        let rest = s.drop_first();
        lemma_string_round_trip(rest);
        let tail = escape_str(rest).push('\'');
        assert(full =~= escape_char(c) + tail);
        if c == '\\' || c == '\'' || c == '\n' || c == '\r' || c == '\t' {
            assert(full[0] == '\\');
            assert(full.skip(2) =~= tail);
            let code = escape_char(c)[1];
            assert(unescape(code) == c);
            assert(scan_string(full) == Some(
                (seq![c] + rest, 2 + escape_str(rest).len() + 1 as int),
            ));
            assert(seq![c] + rest =~= s);
        } else {
            assert(full[0] == c && c != '\'' && c != '\\');
            assert(full.skip(1) =~= tail);
            assert(scan_string(full) == Some(
                (seq![c] + rest, 1 + escape_str(rest).len() + 1 as int),
            ));
            assert(seq![c] + rest =~= s);
        }
    }
}

} // verus!
