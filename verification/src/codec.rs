//! The wire codec: decoding of inbound tagged messages and encoding of
//! outbound control requests.
//!
//! The wire format is a small JSON object shape: an object of members whose
//! values are strings or non-negative decimal numbers.  Inbound objects are
//! dispatched on their `T` member; outbound requests carry an `action`
//! member plus their own fields.  The grammar accepted and produced here is
//! defined by the spec functions of this module.

use vstd::prelude::*;

use crate::wire::ApiError;
use crate::wire::Bar;
use crate::wire::DataMessage;
use crate::wire::DecodeError;
use crate::wire::Price;
use crate::wire::Timestamp;
use crate::wire::days_in_month;
use crate::wire::valid_timestamp;
use crate::symbols::str_eq;
use crate::symbols::views;
use crate::symbols::Normalized;
use crate::symbols::MarketData;
use crate::symbols::Symbol;

verus! {

/// Relies on `String::push`: appending one character to a string appends it
/// to the string's characters.
#[verifier::external_body]
pub fn push_char(s: &mut String, c: char)
    ensures
        final(s)@ == old(s)@.push(c),
{
    s.push(c);
}

/// Relies on `String::from_iter` over characters: the resulting string
/// holds exactly the characters of the vector, in order.
#[verifier::external_body]
fn chars_to_string(v: &Vec<char>) -> (r: String)
    ensures
        r@ == v@,
{
    v.iter().collect()
}

/// The whitespace accepted between tokens.
pub open spec fn is_ws(c: char) -> bool {
    c == ' ' || c == '\t' || c == '\n' || c == '\r'
}

/// Whether `c` is a decimal digit.
pub open spec fn is_digit_c(c: char) -> bool {
    48 <= (c as u32) <= 57
}

/// The value of a decimal digit.
pub open spec fn digit_of(c: char) -> int {
    (c as u32) - 48
}

/// The first position at or after `i` that does not hold whitespace.
pub open spec fn skip_ws(s: Seq<char>, i: int) -> int
    decreases s.len() - i,
{
    if 0 <= i < s.len() && is_ws(s[i]) {
        skip_ws(s, i + 1)
    } else {
        i
    }
}

proof fn lemma_skip_ws(s: Seq<char>, i: int)
    requires
        0 <= i <= s.len(),
    ensures
        i <= skip_ws(s, i) <= s.len(),
    decreases s.len() - i,
{
    if i < s.len() && is_ws(s[i]) {
        lemma_skip_ws(s, i + 1);
    }
}

fn skip_ws_exec(s: &str, i: usize) -> (r: usize)
    requires
        i <= s@.len(),
    ensures
        r == skip_ws(s@, i as int),
        i <= r <= s@.len(),
    decreases s@.len() - i,
{
    proof {
        lemma_skip_ws(s@, i as int);
    }
    let n = s.unicode_len();
    if i < n {
        let c = s.get_char(i);
        if c == ' ' || c == '\t' || c == '\n' || c == '\r' {
            return skip_ws_exec(s, i + 1);
        }
    }
    i
}

/// The first position at or after `i` that does not hold a digit.
pub open spec fn end_digits(s: Seq<char>, i: int) -> int
    decreases s.len() - i,
{
    if 0 <= i < s.len() && is_digit_c(s[i]) {
        end_digits(s, i + 1)
    } else {
        i
    }
}

proof fn lemma_end_digits(s: Seq<char>, i: int)
    requires
        0 <= i <= s.len(),
    ensures
        i <= end_digits(s, i) <= s.len(),
        forall|k: int| i <= k < end_digits(s, i) ==> is_digit_c(#[trigger] s[k]),
    decreases s.len() - i,
{
    if i < s.len() && is_digit_c(s[i]) {
        lemma_end_digits(s, i + 1);
    }
}

fn end_digits_exec(s: &str, i: usize) -> (r: usize)
    requires
        i <= s@.len(),
    ensures
        r == end_digits(s@, i as int),
        i <= r <= s@.len(),
    decreases s@.len() - i,
{
    proof {
        lemma_end_digits(s@, i as int);
    }
    let n = s.unicode_len();
    if i < n {
        let u = s.get_char(i) as u32;
        if 48 <= u && u <= 57 {
            return end_digits_exec(s, i + 1);
        }
    }
    i
}

/// The value of the decimal digits `s[i..j]`.
pub open spec fn digits_val(s: Seq<char>, i: int, j: int) -> int
    decreases j - i,
{
    if j <= i {
        0
    } else {
        digits_val(s, i, j - 1) * 10 + digit_of(s[j - 1])
    }
}

proof fn lemma_digits_val_bounds(s: Seq<char>, i: int, j: int)
    requires
        i <= j,
        forall|k: int| i <= k < j ==> is_digit_c(#[trigger] s[k]),
    ensures
        0 <= digits_val(s, i, j) < pow10(j - i),
    decreases j - i,
{
    if j > i {
        lemma_digits_val_bounds(s, i, j - 1);
        assert(digits_val(s, i, j - 1) <= pow10(j - 1 - i) - 1);
        assert(digit_of(s[j - 1]) <= 9);
        assert(digits_val(s, i, j - 1) * 10 <= (pow10(j - 1 - i) - 1) * 10) by (nonlinear_arith)
            requires
                digits_val(s, i, j - 1) <= pow10(j - 1 - i) - 1,
        ;
        assert(pow10(j - i) == pow10(j - 1 - i) * 10);
    }
}

proof fn lemma_digits_val_mono(s: Seq<char>, i: int, k: int, j: int)
    requires
        i <= k <= j,
        forall|m: int| i <= m < j ==> is_digit_c(#[trigger] s[m]),
    ensures
        digits_val(s, i, k) <= digits_val(s, i, j),
    decreases j - k,
{
    if k < j {
        lemma_digits_val_mono(s, i, k, j - 1);
        lemma_digits_val_bounds(s, i, j - 1);
        assert(digits_val(s, i, j - 1) * 10 >= digits_val(s, i, j - 1)) by (nonlinear_arith)
            requires
                digits_val(s, i, j - 1) >= 0,
        ;
    }
}

/// Ten to the power `n`.
pub open spec fn pow10(n: int) -> int
    decreases n,
{
    if n <= 0 {
        1
    } else {
        pow10(n - 1) * 10
    }
}

proof fn lemma_pow10_pos(n: int)
    ensures
        pow10(n) >= 1,
    decreases n,
{
    if n > 0 {
        lemma_pow10_pos(n - 1);
        assert(pow10(n - 1) * 10 >= 1) by (nonlinear_arith)
            requires
                pow10(n - 1) >= 1,
        ;
    }
}

proof fn lemma_pow10_mono(k: int, n: int)
    requires
        k <= n,
    ensures
        pow10(k) <= pow10(n),
        pow10(k) >= 1,
    decreases n - k,
{
    lemma_pow10_pos(k);
    if k < n {
        lemma_pow10_mono(k, n - 1);
        lemma_pow10_pos(n - 1);
        assert(pow10(n - 1) * 10 >= pow10(n - 1)) by (nonlinear_arith)
            requires
                pow10(n - 1) >= 1,
        ;
    }
}

proof fn lemma_pow10_add(a: int, b: int)
    requires
        0 <= a,
        0 <= b,
    ensures
        pow10(a + b) == pow10(a) * pow10(b),
    decreases b,
{
    if b == 0 {
    } else {
        lemma_pow10_add(a, b - 1);
        assert(pow10(a + b) == pow10(a + b - 1) * 10);
        assert(pow10(a) * pow10(b - 1) * 10 == pow10(a) * (pow10(b - 1) * 10)) by (nonlinear_arith);
    }
}

fn pow10_exec(n: usize) -> (r: Option<u64>)
    ensures
        match r {
            Some(v) => v == pow10(n as int),
            None => pow10(n as int) > u64::MAX,
        },
    decreases n,
{
    if n == 0 {
        Some(1)
    } else {
        match pow10_exec(n - 1) {
            Some(v) => {
                let r = v.checked_mul(10);
                proof {
                    if r is None {
                        assert(pow10(n as int) == pow10(n as int - 1) * 10);
                    }
                }
                r
            },
            None => {
                proof {
                    lemma_pow10_mono(n as int - 1, n as int);
                    assert(pow10(n as int) >= pow10(n as int - 1));
                }
                None
            },
        }
    }
}

fn digits_val_exec(s: &str, i: usize, j: usize) -> (r: Option<u64>)
    requires
        i <= j <= s@.len(),
        forall|k: int| i <= k < j ==> is_digit_c(#[trigger] s@[k]),
    ensures
        match r {
            Some(v) => v == digits_val(s@, i as int, j as int),
            None => digits_val(s@, i as int, j as int) > u64::MAX,
        },
{
    let mut acc: u64 = 0;
    let mut k: usize = i;
    while k < j
        invariant
            i <= k <= j <= s@.len(),
            forall|m: int| i <= m < j ==> is_digit_c(#[trigger] s@[m]),
            acc == digits_val(s@, i as int, k as int),
        decreases j - k,
    {
        let u = s.get_char(k) as u32;
        proof {
            assert(is_digit_c(s@[k as int]));
        }
        let d = (u - 48) as u64;
        let next = match acc.checked_mul(10) {
            Some(t) => t.checked_add(d),
            None => None,
        };
        match next {
            Some(v) => {
                acc = v;
            },
            None => {
                proof {
                    lemma_digits_val_mono(s@, i as int, k as int + 1, j as int);
                    assert(digits_val(s@, i as int, k as int + 1) == acc * 10 + digit_of(
                        s@[k as int],
                    ));
                }
                return None;
            },
        }
        k += 1;
    }
    Some(acc)
}

/// Parse a non-negative decimal number `digits [ "." digits ]` at `i`: the
/// value is returned as a scaled integer over a power-of-ten denominator.
/// A value that does not fit the machine range is an overflow error.
pub open spec fn parse_number(s: Seq<char>, i: int) -> Result<((u64, u64), int), DecodeError> {
    let j = end_digits(s, i);
    if j == i {
        Err(DecodeError::Syntax)
    } else {
        let m = digits_val(s, i, j);
        if j < s.len() && s[j] == '.' {
            let k = end_digits(s, j + 1);
            if k == j + 1 {
                Err(DecodeError::Syntax)
            } else {
                let den = pow10(k - j - 1);
                let f = digits_val(s, j + 1, k);
                if den > u64::MAX || m * den + f > u64::MAX {
                    Err(DecodeError::Overflow)
                } else {
                    Ok((((m * den + f) as u64, den as u64), k))
                }
            }
        } else {
            if m > u64::MAX {
                Err(DecodeError::Overflow)
            } else {
                Ok(((m as u64, 1u64), j))
            }
        }
    }
}

fn parse_number_exec(s: &str, i: usize) -> (r: Result<((u64, u64), usize), DecodeError>)
    requires
        i <= s@.len(),
    ensures
        match (r, parse_number(s@, i as int)) {
            (Ok(((n1, d1), j1)), Ok(((n2, d2), j2))) => n1 == n2 && d1 == d2 && j1 == j2 && j1
                <= s@.len(),
            (Err(e1), Err(e2)) => e1 == e2,
            _ => false,
        },
{
    proof {
        lemma_end_digits(s@, i as int);
    }
    let j = end_digits_exec(s, i);
    if j == i {
        return Err(DecodeError::Syntax);
    }
    let n = s.unicode_len();
    let has_frac = if j < n {
        s.get_char(j) == '.'
    } else {
        false
    };
    if has_frac {
        proof {
            lemma_end_digits(s@, j as int + 1);
        }
        let k = end_digits_exec(s, j + 1);
        if k == j + 1 {
            return Err(DecodeError::Syntax);
        }
        let ghost fl = k as int - j as int - 1;
        let ghost mv = digits_val(s@, i as int, j as int);
        let ghost fv = digits_val(s@, j as int + 1, k as int);
        let m = match digits_val_exec(s, i, j) {
            Some(m) => m,
            None => {
                proof {
                    lemma_pow10_pos(fl);
                    lemma_digits_val_bounds(s@, j as int + 1, k as int);
                    assert(mv * pow10(fl) >= mv) by (nonlinear_arith)
                        requires
                            mv >= 0,
                            pow10(fl) >= 1,
                    ;
                }
                return Err(DecodeError::Overflow);
            },
        };
        let den = match pow10_exec(k - (j + 1)) {
            Some(den) => den,
            None => {
                return Err(DecodeError::Overflow);
            },
        };
        let f = match digits_val_exec(s, j + 1, k) {
            Some(f) => f,
            None => {
                proof {
                    lemma_pow10_pos(fl);
                    lemma_digits_val_bounds(s@, i as int, j as int);
                    assert(mv * pow10(fl) >= 0) by (nonlinear_arith)
                        requires
                            mv >= 0,
                            pow10(fl) >= 1,
                    ;
                }
                return Err(DecodeError::Overflow);
            },
        };
        let numer = match m.checked_mul(den) {
            Some(t) => match t.checked_add(f) {
                Some(v) => v,
                None => {
                    return Err(DecodeError::Overflow);
                },
            },
            None => {
                proof {
                    lemma_digits_val_bounds(s@, j as int + 1, k as int);
                    assert(mv * pow10(fl) + fv > u64::MAX);
                }
                return Err(DecodeError::Overflow);
            },
        };
        Ok(((numer, den), k))
    } else {
        match digits_val_exec(s, i, j) {
            Some(m) => Ok(((m, 1), j)),
            None => Err(DecodeError::Overflow),
        }
    }
}

/// The decoded form of one member value: a piece of text, or a number as a
/// scaled integer over a power-of-ten denominator.
pub enum JsonValueV {
    /// A string value.
    Text(Seq<char>),
    /// A numeric value `numer / denom`.
    Number { numer: u64, denom: u64 },
}

/// One member value of a wire object.
#[derive(Debug)]
pub enum JsonValue {
    /// A string value.
    Text(String),
    /// A numeric value `numer / denom`.
    Number { numer: u64, denom: u64 },
}

impl View for JsonValue {
    type V = JsonValueV;

    closed spec fn view(&self) -> JsonValueV {
        match self {
            JsonValue::Text(s) => JsonValueV::Text(s@),
            JsonValue::Number { numer, denom } => JsonValueV::Number {
                numer: *numer,
                denom: *denom,
            },
        }
    }
}

/// The decoded form of one object member.
pub struct MemberV {
    /// The member's key.
    pub key: Seq<char>,
    /// The member's value.
    pub value: JsonValueV,
}

/// One key/value member of a wire object.
#[derive(Debug)]
pub struct Member {
    /// The member's key.
    pub key: String,
    /// The member's value.
    pub value: JsonValue,
}

impl View for Member {
    type V = MemberV;

    closed spec fn view(&self) -> MemberV {
        MemberV { key: self.key@, value: self.value@ }
    }
}

/// The views of a list of members, in order.
pub open spec fn member_views(ms: Seq<Member>) -> Seq<MemberV> {
    ms.map_values(|m: Member| m@)
}

/// Parse the remaining characters of a string literal, after its opening
/// quote: plain characters and the simple escapes, up to the closing quote.
/// `acc` holds the characters read so far.
pub open spec fn parse_string_body(s: Seq<char>, i: int, acc: Seq<char>) -> Result<
    (Seq<char>, int),
    DecodeError,
>
    decreases s.len() - i,
{
    if i < 0 || i >= s.len() {
        Err(DecodeError::Syntax)
    } else if s[i] == '"' {
        Ok((acc, i + 1))
    } else if s[i] == '\\' {
        if i + 1 >= s.len() {
            Err(DecodeError::Syntax)
        } else {
            let e = s[i + 1];
            if e == '"' || e == '\\' || e == '/' {
                parse_string_body(s, i + 2, acc.push(e))
            } else if e == 'n' {
                parse_string_body(s, i + 2, acc.push('\n'))
            } else if e == 'r' {
                parse_string_body(s, i + 2, acc.push('\r'))
            } else if e == 't' {
                parse_string_body(s, i + 2, acc.push('\t'))
            } else if e == 'b' {
                parse_string_body(s, i + 2, acc.push('\u{0008}'))
            } else if e == 'f' {
                parse_string_body(s, i + 2, acc.push('\u{000C}'))
            } else {
                Err(DecodeError::Syntax)
            }
        }
    } else if (s[i] as u32) < 32 {
        Err(DecodeError::Syntax)
    } else {
        parse_string_body(s, i + 1, acc.push(s[i]))
    }
}

proof fn lemma_parse_string_body(s: Seq<char>, i: int, acc: Seq<char>)
    requires
        0 <= i <= s.len(),
    ensures
        parse_string_body(s, i, acc) matches Ok((t, j)) ==> i < j <= s.len(),
    decreases s.len() - i,
{
    if i < s.len() {
        if s[i] == '\\' && i + 2 <= s.len() {
            let e = s[i + 1];
            lemma_parse_string_body(s, i + 2, acc.push(e));
            lemma_parse_string_body(s, i + 2, acc.push('\n'));
            lemma_parse_string_body(s, i + 2, acc.push('\r'));
            lemma_parse_string_body(s, i + 2, acc.push('\t'));
            lemma_parse_string_body(s, i + 2, acc.push('\u{0008}'));
            lemma_parse_string_body(s, i + 2, acc.push('\u{000C}'));
        } else {
            lemma_parse_string_body(s, i + 1, acc.push(s[i]));
        }
    }
}

fn parse_string_body_exec(s: &str, i: usize, acc: &mut Vec<char>) -> (r: Result<
    usize,
    DecodeError,
>)
    requires
        i <= s@.len(),
    ensures
        match parse_string_body(s@, i as int, old(acc)@) {
            Ok((t, j)) => r matches Ok(j1) && j1 == j && final(acc)@ == t,
            Err(e) => r matches Err(e1) && e1 == e,
        },
    decreases s@.len() - i,
{
    let n = s.unicode_len();
    if i >= n {
        return Err(DecodeError::Syntax);
    }
    let c = s.get_char(i);
    if c == '"' {
        Ok(i + 1)
    } else if c == '\\' {
        if i + 1 >= n {
            return Err(DecodeError::Syntax);
        }
        let e = s.get_char(i + 1);
        if e == '"' || e == '\\' || e == '/' {
            acc.push(e);
            parse_string_body_exec(s, i + 2, acc)
        } else if e == 'n' {
            acc.push('\n');
            parse_string_body_exec(s, i + 2, acc)
        } else if e == 'r' {
            acc.push('\r');
            parse_string_body_exec(s, i + 2, acc)
        } else if e == 't' {
            acc.push('\t');
            parse_string_body_exec(s, i + 2, acc)
        } else if e == 'b' {
            acc.push('\u{0008}');
            parse_string_body_exec(s, i + 2, acc)
        } else if e == 'f' {
            acc.push('\u{000C}');
            parse_string_body_exec(s, i + 2, acc)
        } else {
            Err(DecodeError::Syntax)
        }
    } else if (c as u32) < 32 {
        Err(DecodeError::Syntax)
    } else {
        acc.push(c);
        parse_string_body_exec(s, i + 1, acc)
    }
}

fn parse_string_exec(s: &str, i: usize) -> (r: Result<(String, usize), DecodeError>)
    requires
        i <= s@.len(),
    ensures
        match parse_string_body(s@, i as int, Seq::empty()) {
            Ok((t, j)) => r matches Ok((t1, j1)) && t1@ == t && j1 == j && j1 <= s@.len(),
            Err(e) => r matches Err(e1) && e1 == e,
        },
{
    proof {
        lemma_parse_string_body(s@, i as int, Seq::empty());
    }
    let mut acc: Vec<char> = Vec::new();
    match parse_string_body_exec(s, i, &mut acc) {
        Ok(j) => Ok((chars_to_string(&acc), j)),
        Err(e) => Err(e),
    }
}

/// Parse one member value at `i`: a string literal or a number.
pub open spec fn parse_value(s: Seq<char>, i: int) -> Result<(JsonValueV, int), DecodeError> {
    if i < 0 || i >= s.len() {
        Err(DecodeError::Syntax)
    } else if s[i] == '"' {
        match parse_string_body(s, i + 1, Seq::empty()) {
            Ok((t, j)) => Ok((JsonValueV::Text(t), j)),
            Err(e) => Err(e),
        }
    } else if is_digit_c(s[i]) {
        match parse_number(s, i) {
            Ok(((numer, denom), j)) => Ok((JsonValueV::Number { numer, denom }, j)),
            Err(e) => Err(e),
        }
    } else {
        Err(DecodeError::Syntax)
    }
}

fn parse_value_exec(s: &str, i: usize) -> (r: Result<(JsonValue, usize), DecodeError>)
    requires
        i <= s@.len(),
    ensures
        match parse_value(s@, i as int) {
            Ok((v, j)) => r matches Ok((v1, j1)) && v1@ == v && j1 == j && j1 <= s@.len(),
            Err(e) => r matches Err(e1) && e1 == e,
        },
{
    let n = s.unicode_len();
    if i >= n {
        return Err(DecodeError::Syntax);
    }
    let c = s.get_char(i);
    if c == '"' {
        match parse_string_exec(s, i + 1) {
            Ok((t, j)) => Ok((JsonValue::Text(t), j)),
            Err(e) => Err(e),
        }
    } else {
        let u = c as u32;
        if 48 <= u && u <= 57 {
            match parse_number_exec(s, i) {
                Ok(((numer, denom), j)) => Ok((JsonValue::Number { numer, denom }, j)),
                Err(e) => Err(e),
            }
        } else {
            Err(DecodeError::Syntax)
        }
    }
}

/// Parse the members of an object after its opening brace: key/value pairs
/// separated by commas, up to the closing brace.  The closing brace may
/// follow immediately only when `allow_close` holds (it does not after a
/// comma).  `fuel` bounds the recursion; every member costs several
/// characters of the text, so fuel of the text's whole length is always
/// ample.
pub open spec fn parse_members(s: Seq<char>, i: int, fuel: nat, allow_close: bool) -> Result<
    (Seq<MemberV>, int),
    DecodeError,
>
    decreases fuel,
{
    if fuel == 0 {
        Err(DecodeError::Syntax)
    } else {
        let i1 = skip_ws(s, i);
        if i1 >= s.len() {
            Err(DecodeError::Syntax)
        } else if s[i1] == '}' && allow_close {
            Ok((Seq::empty(), i1 + 1))
        } else if s[i1] == '"' {
            match parse_string_body(s, i1 + 1, Seq::empty()) {
                Err(e) => Err(e),
                Ok((key, j)) => {
                    let j1 = skip_ws(s, j);
                    if j1 >= s.len() || s[j1] != ':' {
                        Err(DecodeError::Syntax)
                    } else {
                        let j2 = skip_ws(s, j1 + 1);
                        match parse_value(s, j2) {
                            Err(e) => Err(e),
                            Ok((value, k)) => {
                                let k1 = skip_ws(s, k);
                                if k1 >= s.len() {
                                    Err(DecodeError::Syntax)
                                } else if s[k1] == '}' {
                                    Ok((seq![MemberV { key, value }], k1 + 1))
                                } else if s[k1] == ',' {
                                    match parse_members(s, k1 + 1, (fuel - 1) as nat, false) {
                                        Err(e) => Err(e),
                                        Ok((rest, e2)) => Ok(
                                            (seq![MemberV { key, value }] + rest, e2),
                                        ),
                                    }
                                } else {
                                    Err(DecodeError::Syntax)
                                }
                            },
                        }
                    }
                },
            }
        } else {
            Err(DecodeError::Syntax)
        }
    }
}

fn parse_members_exec(s: &str, i: usize, fuel: usize, allow_close: bool) -> (r: Result<
    (Vec<Member>, usize),
    DecodeError,
>)
    requires
        i <= s@.len(),
    ensures
        match parse_members(s@, i as int, fuel as nat, allow_close) {
            Ok((ms, j)) => r matches Ok((ms1, j1)) && member_views(ms1@) == ms && j1 == j && j1
                <= s@.len(),
            Err(e) => r matches Err(e1) && e1 == e,
        },
    decreases fuel,
{
    if fuel == 0 {
        return Err(DecodeError::Syntax);
    }
    let n = s.unicode_len();
    let i1 = skip_ws_exec(s, i);
    if i1 >= n {
        return Err(DecodeError::Syntax);
    }
    let c = s.get_char(i1);
    if c == '}' && allow_close {
        proof {
            assert(member_views(Seq::<Member>::empty()) =~= Seq::<MemberV>::empty());
        }
        let ms: Vec<Member> = Vec::new();
        proof {
            assert(member_views(ms@) =~= Seq::<MemberV>::empty());
        }
        return Ok((ms, i1 + 1));
    }
    if c != '"' {
        return Err(DecodeError::Syntax);
    }
    proof {
        lemma_parse_string_body(s@, i1 as int + 1, Seq::empty());
    }
    let (key, j) = match parse_string_exec(s, i1 + 1) {
        Ok(kj) => kj,
        Err(e) => {
            return Err(e);
        },
    };
    let j1 = skip_ws_exec(s, j);
    let colon = if j1 < n {
        s.get_char(j1) == ':'
    } else {
        false
    };
    if !colon {
        return Err(DecodeError::Syntax);
    }
    let j2 = skip_ws_exec(s, j1 + 1);
    let (value, k) = match parse_value_exec(s, j2) {
        Ok(vk) => vk,
        Err(e) => {
            return Err(e);
        },
    };
    let k1 = skip_ws_exec(s, k);
    if k1 >= n {
        return Err(DecodeError::Syntax);
    }
    let c1 = s.get_char(k1);
    if c1 == '}' {
        let mut ms: Vec<Member> = Vec::new();
        ms.push(Member { key, value });
        proof {
            assert(member_views(ms@) =~= seq![ms@[0]@]);
        }
        Ok((ms, k1 + 1))
    } else if c1 == ',' {
        match parse_members_exec(s, k1 + 1, fuel - 1, false) {
            Err(e) => Err(e),
            Ok((rest, e2)) => {
                let mut ms: Vec<Member> = Vec::new();
                ms.push(Member { key, value });
                let ghost head = ms@[0]@;
                let ghost rest_views = member_views(rest@);
                let ghost rest_seq = rest@;
                let mut rest = rest;
                ms.append(&mut rest);
                proof {
                    assert forall|m: int| 0 <= m < ms@.len() implies member_views(ms@)[m] == (
                    seq![head] + rest_views)[m] by {
                        if m > 0 {
                            assert(ms@[m] == rest_seq[m - 1]);
                            assert(rest_views[m - 1] == rest_seq[m - 1]@);
                        }
                    }
                    assert(member_views(ms@) =~= seq![head] + rest_views);
                }
                Ok((ms, e2))
            },
        }
    } else {
        Err(DecodeError::Syntax)
    }
}

/// The value of the first member named `key`, if any.
pub open spec fn find_member(ms: Seq<MemberV>, key: Seq<char>) -> Option<JsonValueV>
    decreases ms.len(),
{
    if ms.len() == 0 {
        None
    } else if ms[0].key == key {
        Some(ms[0].value)
    } else {
        find_member(ms.drop_first(), key)
    }
}

fn find_member_exec<'a>(ms: &'a Vec<Member>, key: &str) -> (r: Option<&'a JsonValue>)
    ensures
        match find_member(member_views(ms@), key@) {
            Some(v) => r matches Some(v1) && v1@ == v,
            None => r is None,
        },
{
    let n = ms.len();
    let mut i: usize = 0;
    proof {
        assert(member_views(ms@).skip(0) =~= member_views(ms@));
    }
    while i < n
        invariant
            n == ms@.len(),
            i <= n,
            find_member(member_views(ms@), key@) == find_member(
                member_views(ms@).skip(i as int),
                key@,
            ),
        decreases n - i,
    {
        let ghost mv = member_views(ms@);
        proof {
            assert(mv.skip(i as int)[0] == mv[i as int]);
            assert(mv.skip(i as int).drop_first() =~= mv.skip(i as int + 1));
        }
        if str_eq(ms[i].key.as_str(), key) {
            return Some(&ms[i].value);
        }
        i += 1;
    }
    proof {
        assert(member_views(ms@).skip(n as int) =~= Seq::<MemberV>::empty());
    }
    None
}

/// Read an ISO-8601 UTC timestamp `YYYY-MM-DDThh:mm:ss[.f]Z` from `t`, with
/// up to nine fraction digits; the result must name a real calendar
/// instant.
pub open spec fn parse_timestamp(t: Seq<char>) -> Option<Timestamp> {
    if t.len() < 20 {
        None
    } else if !(is_digit_c(t[0]) && is_digit_c(t[1]) && is_digit_c(t[2]) && is_digit_c(t[3]) && t[4]
        == '-' && is_digit_c(t[5]) && is_digit_c(t[6]) && t[7] == '-' && is_digit_c(t[8])
        && is_digit_c(t[9]) && t[10] == 'T' && is_digit_c(t[11]) && is_digit_c(t[12]) && t[13]
        == ':' && is_digit_c(t[14]) && is_digit_c(t[15]) && t[16] == ':' && is_digit_c(t[17])
        && is_digit_c(t[18])) {
        None
    } else {
        let nanos = if t[19] == 'Z' && t.len() == 20 {
            Some(0int)
        } else if t[19] == '.' && t.len() >= 22 && t.len() <= 30 && t[t.len() - 1] == 'Z' && (
        forall|k: int| 20 <= k < t.len() - 1 ==> is_digit_c(#[trigger] t[k])) {
            Some(digits_val(t, 20, t.len() - 1) * pow10(9 - (t.len() - 21)))
        } else {
            None
        };
        match nanos {
            None => None,
            Some(ns) => {
                let ts = Timestamp {
                    year: digits_val(t, 0, 4) as u32,
                    month: digits_val(t, 5, 7) as u32,
                    day: digits_val(t, 8, 10) as u32,
                    hour: digits_val(t, 11, 13) as u32,
                    minute: digits_val(t, 14, 16) as u32,
                    second: digits_val(t, 17, 19) as u32,
                    nanosecond: ns as u32,
                };
                if valid_timestamp(ts) {
                    Some(ts)
                } else {
                    None
                }
            },
        }
    }
}

fn days_in_month_exec(year: u32, month: u32) -> (r: u32)
    ensures
        r == days_in_month(year, month),
{
    if month == 1 || month == 3 || month == 5 || month == 7 || month == 8 || month == 10 || month
        == 12 {
        31
    } else if month == 4 || month == 6 || month == 9 || month == 11 {
        30
    } else if year % 4 == 0 && (year % 100 != 0 || year % 400 == 0) {
        29
    } else {
        28
    }
}

fn read_fixed_digits(t: &str, i: usize, j: usize) -> (r: Option<u64>)
    requires
        i <= j <= t@.len(),
        j - i <= 9,
    ensures
        match r {
            Some(v) => (forall|k: int| i <= k < j ==> is_digit_c(#[trigger] t@[k])) && v
                == digits_val(t@, i as int, j as int) && v < pow10(j - i as int),
            None => !(forall|k: int| i <= k < j ==> is_digit_c(#[trigger] t@[k])),
        },
{
    let mut k: usize = i;
    while k < j
        invariant
            i <= k <= j <= t@.len(),
            forall|m: int| i <= m < k ==> is_digit_c(#[trigger] t@[m]),
        decreases j - k,
    {
        let u = t.get_char(k) as u32;
        if !(48 <= u && u <= 57) {
            return None;
        }
        k += 1;
    }
    proof {
        lemma_digits_val_bounds(t@, i as int, j as int);
        lemma_pow10_mono(j - i as int, 9);
        reveal_with_fuel(pow10, 11);
        assert(pow10(9) == 1000000000);
    }
    match digits_val_exec(t, i, j) {
        Some(v) => Some(v),
        None => {
            proof {
                assert(false);
            }
            None
        },
    }
}

fn char_at_is(t: &str, i: usize, c: char) -> (r: bool)
    requires
        i < t@.len(),
    ensures
        r == (t@[i as int] == c),
{
    t.get_char(i) == c
}

fn parse_timestamp_exec(t: &str) -> (r: Option<Timestamp>)
    ensures
        r == parse_timestamp(t@),
{
    let n = t.unicode_len();
    if n < 20 {
        return None;
    }
    let y = read_fixed_digits(t, 0, 4);
    let mo = read_fixed_digits(t, 5, 7);
    let d = read_fixed_digits(t, 8, 10);
    let h = read_fixed_digits(t, 11, 13);
    let mi = read_fixed_digits(t, 14, 16);
    let se = read_fixed_digits(t, 17, 19);
    let seps = char_at_is(t, 4, '-') && char_at_is(t, 7, '-') && char_at_is(t, 10, 'T')
        && char_at_is(t, 13, ':') && char_at_is(t, 16, ':');
    match (y, mo, d, h, mi, se) {
        (Some(y), Some(mo), Some(d), Some(h), Some(mi), Some(se)) => {
            if !seps {
                return None;
            }
            let nanos: Option<u64> = if char_at_is(t, 19, 'Z') && n == 20 {
                Some(0)
            } else if char_at_is(t, 19, '.') && n >= 22 && n <= 30 && char_at_is(t, n - 1, 'Z') {
                match read_fixed_digits(t, 20, n - 1) {
                    Some(f) => {
                        let fl = n - 21;
                        let scale = match pow10_exec(9 - fl) {
                            Some(p) => p,
                            None => {
                                proof {
                                    lemma_pow10_mono(9 - fl as int, 9);
                                    reveal_with_fuel(pow10, 11);
                                    assert(false);
                                }
                                0
                            },
                        };
                        proof {
                            lemma_pow10_add(fl as int, 9 - fl as int);
                            lemma_pow10_pos(9 - fl as int);
                            assert(f * scale < pow10(fl as int) * scale) by (nonlinear_arith)
                                requires
                                    0 <= f < pow10(fl as int),
                                    scale >= 1,
                            ;
                            reveal_with_fuel(pow10, 11);
                            assert(pow10(fl as int) * scale == pow10(9));
                        }
                        Some(f * scale)
                    },
                    None => None,
                }
            } else {
                None
            };
            match nanos {
                None => None,
                Some(ns) => {
                    proof {
                        reveal_with_fuel(pow10, 11);
                    }
                    let ts = Timestamp {
                        year: y as u32,
                        month: mo as u32,
                        day: d as u32,
                        hour: h as u32,
                        minute: mi as u32,
                        second: se as u32,
                        nanosecond: ns as u32,
                    };
                    let valid = 1 <= ts.month && ts.month <= 12 && 1 <= ts.day && ts.day
                        <= days_in_month_exec(ts.year, ts.month) && ts.hour < 24 && ts.minute < 60
                        && ts.second < 60 && ts.nanosecond < 1000000000;
                    if valid {
                        Some(ts)
                    } else {
                        None
                    }
                },
            }
        },
        _ => None,
    }
}

/// The price a member value names: any number, kept exactly as its scaled
/// integer over its power-of-ten denominator.
pub open spec fn price_of(v: JsonValueV) -> Option<Price> {
    match v {
        JsonValueV::Number { numer, denom } => Some(Price { numer, denom }),
        JsonValueV::Text(_) => None,
    }
}

/// The unsigned integer a member value names: a number with no fraction.
pub open spec fn uint_of(v: JsonValueV) -> Option<u64> {
    match v {
        JsonValueV::Number { numer, denom } => if denom == 1 {
            Some(numer)
        } else {
            None
        },
        JsonValueV::Text(_) => None,
    }
}

/// Read one required price field.
pub open spec fn bar_price(ms: Seq<MemberV>, key: Seq<char>) -> Result<Price, DecodeError> {
    match find_member(ms, key) {
        None => Err(DecodeError::MissingField),
        Some(v) => match price_of(v) {
            None => Err(DecodeError::InvalidField),
            Some(p) => Ok(p),
        },
    }
}

/// The meaning of a bar message's members: every field of the bar shape is
/// required, prices are exact decimals, the volume is an integer and the
/// timestamp a valid ISO-8601 UTC instant.
pub open spec fn interpret_bar(ms: Seq<MemberV>) -> Result<crate::wire::BarV, DecodeError> {
    match find_member(ms, "S"@) {
        None => Err(DecodeError::MissingField),
        Some(JsonValueV::Number { .. }) => Err(DecodeError::InvalidField),
        Some(JsonValueV::Text(sym)) => match (
            bar_price(ms, "o"@),
            bar_price(ms, "h"@),
            bar_price(ms, "l"@),
            bar_price(ms, "c"@),
        ) {
            (Ok(o), Ok(h), Ok(l), Ok(c)) => match find_member(ms, "v"@) {
                None => Err(DecodeError::MissingField),
                Some(vv) => match uint_of(vv) {
                    None => Err(DecodeError::InvalidField),
                    Some(volume) => match find_member(ms, "t"@) {
                        None => Err(DecodeError::MissingField),
                        Some(JsonValueV::Number { .. }) => Err(DecodeError::InvalidField),
                        Some(JsonValueV::Text(ts)) => match parse_timestamp(ts) {
                            None => Err(DecodeError::InvalidField),
                            Some(timestamp) => Ok(
                                crate::wire::BarV {
                                    symbol: sym,
                                    open_price: o,
                                    high_price: h,
                                    low_price: l,
                                    close_price: c,
                                    volume,
                                    timestamp,
                                },
                            ),
                        },
                    },
                },
            },
            (Err(e), _, _, _) => Err(e),
            (_, Err(e), _, _) => Err(e),
            (_, _, Err(e), _) => Err(e),
            (_, _, _, Err(e)) => Err(e),
        },
    }
}

/// The meaning of an error message's members: a required integer `code` and
/// a required text `msg`.
pub open spec fn interpret_error(ms: Seq<MemberV>) -> Result<crate::wire::ApiErrorV, DecodeError> {
    match find_member(ms, "code"@) {
        None => Err(DecodeError::MissingField),
        Some(cv) => match uint_of(cv) {
            None => Err(DecodeError::InvalidField),
            Some(code) => match find_member(ms, "msg"@) {
                None => Err(DecodeError::MissingField),
                Some(JsonValueV::Number { .. }) => Err(DecodeError::InvalidField),
                Some(JsonValueV::Text(message)) => Ok(crate::wire::ApiErrorV { code, message }),
            },
        },
    }
}

/// The meaning of a decoded object: dispatch on the `T` member.  The tag
/// `b` is a bar, `success` an acknowledgement whose other members are
/// informational only, `error` a structured service error.
pub open spec fn interpret(ms: Seq<MemberV>) -> Result<crate::wire::DataMessageV, DecodeError> {
    match find_member(ms, "T"@) {
        None => Err(DecodeError::MissingField),
        Some(JsonValueV::Number { .. }) => Err(DecodeError::InvalidField),
        Some(JsonValueV::Text(tag)) => if tag == "b"@ {
            match interpret_bar(ms) {
                Ok(bar) => Ok(crate::wire::DataMessageV::Bar(bar)),
                Err(e) => Err(e),
            }
        } else if tag == "success"@ {
            Ok(crate::wire::DataMessageV::Success)
        } else if tag == "error"@ {
            match interpret_error(ms) {
                Ok(e) => Ok(crate::wire::DataMessageV::Error(e)),
                Err(e) => Err(e),
            }
        } else {
            Err(DecodeError::UnknownTag)
        },
    }
}

fn get_price(ms: &Vec<Member>, key: &str) -> (r: Result<Price, DecodeError>)
    ensures
        match bar_price(member_views(ms@), key@) {
            Ok(p) => r matches Ok(p1) && p1 == p,
            Err(e) => r matches Err(e1) && e1 == e,
        },
{
    match find_member_exec(ms, key) {
        None => Err(DecodeError::MissingField),
        Some(JsonValue::Text(_)) => Err(DecodeError::InvalidField),
        Some(JsonValue::Number { numer, denom }) => Ok(Price::new(*numer, *denom)),
    }
}

fn get_uint(ms: &Vec<Member>, key: &str) -> (r: Result<u64, DecodeError>)
    ensures
        ({
            let found = find_member(member_views(ms@), key@);
            match found {
                None => r matches Err(e) && e == DecodeError::MissingField,
                Some(v) => match uint_of(v) {
                    None => r matches Err(e) && e == DecodeError::InvalidField,
                    Some(u) => r matches Ok(u1) && u1 == u,
                },
            }
        }),
{
    match find_member_exec(ms, key) {
        None => Err(DecodeError::MissingField),
        Some(JsonValue::Text(_)) => Err(DecodeError::InvalidField),
        Some(JsonValue::Number { numer, denom }) => {
            if *denom == 1 {
                Ok(*numer)
            } else {
                Err(DecodeError::InvalidField)
            }
        },
    }
}

fn get_text(ms: &Vec<Member>, key: &str) -> (r: Result<String, DecodeError>)
    ensures
        ({
            let found = find_member(member_views(ms@), key@);
            match found {
                None => r matches Err(e) && e == DecodeError::MissingField,
                Some(JsonValueV::Number { .. }) => r matches Err(e) && e
                    == DecodeError::InvalidField,
                Some(JsonValueV::Text(t)) => r matches Ok(t1) && t1@ == t,
            }
        }),
{
    match find_member_exec(ms, key) {
        None => Err(DecodeError::MissingField),
        Some(JsonValue::Number { .. }) => Err(DecodeError::InvalidField),
        Some(JsonValue::Text(t)) => Ok(String::from_str(t.as_str())),
    }
}

fn interpret_exec(ms: &Vec<Member>) -> (r: Result<DataMessage, DecodeError>)
    ensures
        match interpret(member_views(ms@)) {
            Ok(m) => r matches Ok(m1) && m1@ == m,
            Err(e) => r matches Err(e1) && e1 == e,
        },
{
    let tag = match get_text(ms, "T") {
        Ok(tag) => tag,
        Err(_) => {
            return match find_member_exec(ms, "T") {
                None => Err(DecodeError::MissingField),
                Some(_) => Err(DecodeError::InvalidField),
            };
        },
    };
    if str_eq(tag.as_str(), "b") {
        let symbol = match get_text(ms, "S") {
            Ok(s) => s,
            Err(e) => {
                return Err(e);
            },
        };
        let open_price = match get_price(ms, "o") {
            Ok(p) => p,
            Err(e) => {
                return Err(e);
            },
        };
        let high_price = match get_price(ms, "h") {
            Ok(p) => p,
            Err(e) => {
                return Err(e);
            },
        };
        let low_price = match get_price(ms, "l") {
            Ok(p) => p,
            Err(e) => {
                return Err(e);
            },
        };
        let close_price = match get_price(ms, "c") {
            Ok(p) => p,
            Err(e) => {
                return Err(e);
            },
        };
        let volume = match get_uint(ms, "v") {
            Ok(v) => v,
            Err(e) => {
                return Err(e);
            },
        };
        let ts_text = match get_text(ms, "t") {
            Ok(t) => t,
            Err(e) => {
                return Err(e);
            },
        };
        let timestamp = match parse_timestamp_exec(ts_text.as_str()) {
            Some(ts) => ts,
            None => {
                return Err(DecodeError::InvalidField);
            },
        };
        Ok(
            DataMessage::Bar(
                Bar { symbol, open_price, high_price, low_price, close_price, volume, timestamp },
            ),
        )
    } else if str_eq(tag.as_str(), "success") {
        Ok(DataMessage::Success)
    } else if str_eq(tag.as_str(), "error") {
        let code = match get_uint(ms, "code") {
            Ok(c) => c,
            Err(e) => {
                return Err(e);
            },
        };
        let message = match get_text(ms, "msg") {
            Ok(m) => m,
            Err(e) => {
                return Err(e);
            },
        };
        Ok(DataMessage::Error(ApiError { code, message }))
    } else {
        Err(DecodeError::UnknownTag)
    }
}

/// The meaning of a full message text: optional whitespace around one
/// object holding string or number members, dispatched on its `T` member.
pub open spec fn decode_spec(s: Seq<char>) -> Result<crate::wire::DataMessageV, DecodeError> {
    let i = skip_ws(s, 0);
    if i >= s.len() || s[i] != '{' {
        Err(DecodeError::Syntax)
    } else {
        match parse_members(s, i + 1, s.len() as nat, true) {
            Err(e) => Err(e),
            Ok((ms, j)) => {
                let j1 = skip_ws(s, j);
                if j1 != s.len() {
                    Err(DecodeError::Syntax)
                } else {
                    interpret(ms)
                }
            },
        }
    }
}

/// Decode one inbound message text.  The result is exactly what
/// [`decode_spec`] assigns to the text: the decoded tagged message, or the
/// decode error that the text earns.
pub fn decode_data_message(s: &str) -> (r: Result<DataMessage, DecodeError>)
    ensures
        match decode_spec(s@) {
            Ok(m) => r matches Ok(m1) && m1@ == m,
            Err(e) => r matches Err(e1) && e1 == e,
        },
{
    let n = s.unicode_len();
    let i = skip_ws_exec(s, 0);
    if i >= n {
        return Err(DecodeError::Syntax);
    }
    if s.get_char(i) != '{' {
        return Err(DecodeError::Syntax);
    }
    match parse_members_exec(s, i + 1, n, true) {
        Err(e) => Err(e),
        Ok((ms, j)) => {
            let j1 = skip_ws_exec(s, j);
            if j1 != n {
                Err(DecodeError::Syntax)
            } else {
                interpret_exec(&ms)
            }
        },
    }
}

/// The hexadecimal digit character for `d`.
pub open spec fn hex_digit(d: u32) -> char {
    if d == 0 {
        '0'
    } else if d == 1 {
        '1'
    } else if d == 2 {
        '2'
    } else if d == 3 {
        '3'
    } else if d == 4 {
        '4'
    } else if d == 5 {
        '5'
    } else if d == 6 {
        '6'
    } else if d == 7 {
        '7'
    } else if d == 8 {
        '8'
    } else if d == 9 {
        '9'
    } else if d == 10 {
        'a'
    } else if d == 11 {
        'b'
    } else if d == 12 {
        'c'
    } else if d == 13 {
        'd'
    } else if d == 14 {
        'e'
    } else {
        'f'
    }
}

fn hex_digit_exec(d: u32) -> (r: char)
    requires
        d < 16,
    ensures
        r == hex_digit(d),
{
    if d == 0 {
        '0'
    } else if d == 1 {
        '1'
    } else if d == 2 {
        '2'
    } else if d == 3 {
        '3'
    } else if d == 4 {
        '4'
    } else if d == 5 {
        '5'
    } else if d == 6 {
        '6'
    } else if d == 7 {
        '7'
    } else if d == 8 {
        '8'
    } else if d == 9 {
        '9'
    } else if d == 10 {
        'a'
    } else if d == 11 {
        'b'
    } else if d == 12 {
        'c'
    } else if d == 13 {
        'd'
    } else if d == 14 {
        'e'
    } else {
        'f'
    }
}

/// How one character of a string value is written: quote, backslash and the
/// named control characters as two-character escapes, any other control
/// character as a `\u00..` escape, everything else as itself.
pub open spec fn esc_char(c: char) -> Seq<char> {
    if c == '"' {
        seq!['\\', '"']
    } else if c == '\\' {
        seq!['\\', '\\']
    } else if c == '\n' {
        seq!['\\', 'n']
    } else if c == '\r' {
        seq!['\\', 'r']
    } else if c == '\t' {
        seq!['\\', 't']
    } else if c == '\u{0008}' {
        seq!['\\', 'b']
    } else if c == '\u{000C}' {
        seq!['\\', 'f']
    } else if (c as u32) < 32 {
        seq!['\\', 'u', '0', '0', hex_digit((c as u32) / 16), hex_digit((c as u32) % 16)]
    } else {
        seq![c]
    }
}

/// The written form of the characters of `s` from position `i` on.
pub open spec fn esc(s: Seq<char>, i: int) -> Seq<char>
    decreases s.len() - i,
{
    if i < 0 || i >= s.len() {
        Seq::empty()
    } else {
        esc_char(s[i]) + esc(s, i + 1)
    }
}

/// A string literal: a quote, the escaped characters, a quote.
pub open spec fn quoted(s: Seq<char>) -> Seq<char> {
    seq!['"'] + esc(s, 0) + seq!['"']
}

fn append_escaped_from(out: &mut String, s: &str, i: usize)
    requires
        i <= s@.len(),
    ensures
        final(out)@ == old(out)@ + esc(s@, i as int),
    decreases s@.len() - i,
{
    let n = s.unicode_len();
    if i >= n {
        proof {
            assert(old(out)@ + esc(s@, i as int) =~= old(out)@);
        }
        return ;
    }
    let c = s.get_char(i);
    let ghost mid = old(out)@ + esc_char(c);
    if c == '"' {
        push_char(out, '\\');
        push_char(out, '"');
    } else if c == '\\' {
        push_char(out, '\\');
        push_char(out, '\\');
    } else if c == '\n' {
        push_char(out, '\\');
        push_char(out, 'n');
    } else if c == '\r' {
        push_char(out, '\\');
        push_char(out, 'r');
    } else if c == '\t' {
        push_char(out, '\\');
        push_char(out, 't');
    } else if c == '\u{0008}' {
        push_char(out, '\\');
        push_char(out, 'b');
    } else if c == '\u{000C}' {
        push_char(out, '\\');
        push_char(out, 'f');
    } else {
        let u = c as u32;
        if u < 32 {
            push_char(out, '\\');
            push_char(out, 'u');
            push_char(out, '0');
            push_char(out, '0');
            push_char(out, hex_digit_exec(u / 16));
            push_char(out, hex_digit_exec(u % 16));
        } else {
            push_char(out, c);
        }
    }
    proof {
        assert(out@ =~= mid);
    }
    append_escaped_from(out, s, i + 1);
    proof {
        assert(mid + esc(s@, i as int + 1) =~= old(out)@ + esc(s@, i as int));
    }
}

fn append_quoted(out: &mut String, s: &str)
    ensures
        final(out)@ == old(out)@ + quoted(s@),
{
    push_char(out, '"');
    append_escaped_from(out, s, 0);
    push_char(out, '"');
    proof {
        assert(out@ =~= old(out)@ + quoted(s@));
    }
}

/// Authentication request: the `auth` action with the key and the secret.
pub open spec fn encode_auth_spec(key: Seq<char>, secret: Seq<char>) -> Seq<char> {
    "{\"action\":\"auth\",\"key\":"@ + quoted(key) + ",\"secret\":"@ + quoted(secret) + "}"@
}

/// Encode an authentication request carrying the given credentials.
pub fn encode_authenticate(key: &str, secret: &str) -> (r: String)
    ensures
        r@ == encode_auth_spec(key@, secret@),
{
    let mut out = String::new();
    out.append("{\"action\":\"auth\",\"key\":");
    append_quoted(&mut out, key);
    out.append(",\"secret\":");
    append_quoted(&mut out, secret);
    out.append("}");
    proof {
        assert(out@ =~= encode_auth_spec(key@, secret@));
    }
    out
}

/// How one symbol is written in a request: its identifier as a string
/// literal, or the literal `"*"` for the wildcard.
pub open spec fn encode_symbol_spec(v: crate::symbols::SymbolView) -> Seq<char> {
    match v {
        crate::symbols::SymbolView::Symbol(t) => quoted(t),
        crate::symbols::SymbolView::All => seq!['"', '*', '"'],
    }
}

/// The written forms of the symbols from position `i` on, each preceded by
/// a comma, then the closing bracket.
pub open spec fn encode_bars_from(l: Seq<crate::symbols::SymbolView>, i: int) -> Seq<char>
    decreases l.len() - i,
{
    if i < 0 || i >= l.len() {
        seq![']']
    } else {
        seq![','] + encode_symbol_spec(l[i]) + encode_bars_from(l, i + 1)
    }
}

/// A symbol array: the written symbols, comma-separated, in brackets.
pub open spec fn encode_bars(l: Seq<crate::symbols::SymbolView>) -> Seq<char> {
    if l.len() == 0 {
        seq!['[', ']']
    } else {
        seq!['['] + encode_symbol_spec(l[0]) + encode_bars_from(l, 1)
    }
}

fn append_symbol(out: &mut String, sym: &Symbol)
    ensures
        final(out)@ == old(out)@ + encode_symbol_spec(sym@),
{
    match sym {
        Symbol::Symbol(t) => {
            append_quoted(out, t.as_str());
        },
        Symbol::All => {
            push_char(out, '"');
            push_char(out, '*');
            push_char(out, '"');
            proof {
                assert(out@ =~= old(out)@ + encode_symbol_spec(sym@));
            }
        },
    }
}

fn append_bars_from(out: &mut String, symbols: &Vec<Symbol>, i: usize)
    requires
        i <= symbols@.len(),
    ensures
        final(out)@ == old(out)@ + encode_bars_from(views(symbols@), i as int),
    decreases symbols@.len() - i,
{
    let n = symbols.len();
    if i >= n {
        push_char(out, ']');
        proof {
            assert(out@ =~= old(out)@ + encode_bars_from(views(symbols@), i as int));
        }
        return ;
    }
    push_char(out, ',');
    let ghost mid0 = out@;
    append_symbol(out, &symbols[i]);
    let ghost mid = out@;
    append_bars_from(out, symbols, i + 1);
    proof {
        assert(views(symbols@)[i as int] == symbols@[i as int]@);
        assert(out@ =~= old(out)@ + encode_bars_from(views(symbols@), i as int));
    }
}

fn append_bars(out: &mut String, bars: &Normalized)
    ensures
        final(out)@ == old(out)@ + encode_bars(bars@),
{
    let symbols = bars.symbols();
    let n = symbols.len();
    if n == 0 {
        push_char(out, '[');
        push_char(out, ']');
        proof {
            assert(out@ =~= old(out)@ + encode_bars(bars@));
        }
        return ;
    }
    push_char(out, '[');
    append_symbol(out, &symbols[0]);
    append_bars_from(out, symbols, 1);
    proof {
        assert(views(symbols@)[0] == symbols@[0]@);
        assert(out@ =~= old(out)@ + encode_bars(bars@));
    }
}

/// Subscription request: the `subscribe` action with the symbol array of
/// each category.
pub open spec fn encode_subscribe_spec(bars: Seq<crate::symbols::SymbolView>) -> Seq<char> {
    "{\"action\":\"subscribe\",\"bars\":"@ + encode_bars(bars) + "}"@
}

/// Unsubscription request: the `unsubscribe` action with the symbol array
/// of each category.
pub open spec fn encode_unsubscribe_spec(bars: Seq<crate::symbols::SymbolView>) -> Seq<char> {
    "{\"action\":\"unsubscribe\",\"bars\":"@ + encode_bars(bars) + "}"@
}

/// Encode a subscription request carrying exactly the categories and
/// symbols of `data`.
pub fn encode_subscribe(data: &MarketData) -> (r: String)
    ensures
        r@ == encode_subscribe_spec(data.bars@),
{
    let mut out = String::new();
    out.append("{\"action\":\"subscribe\",\"bars\":");
    append_bars(&mut out, &data.bars);
    out.append("}");
    proof {
        assert(out@ =~= encode_subscribe_spec(data.bars@));
    }
    out
}

/// Encode an unsubscription request carrying exactly the categories and
/// symbols of `data`.
pub fn encode_unsubscribe(data: &MarketData) -> (r: String)
    ensures
        r@ == encode_unsubscribe_spec(data.bars@),
{
    let mut out = String::new();
    out.append("{\"action\":\"unsubscribe\",\"bars\":");
    append_bars(&mut out, &data.bars);
    out.append("}");
    proof {
        assert(out@ =~= encode_unsubscribe_spec(data.bars@));
    }
    out
}

/// The decimal digit character for `d`.
pub open spec fn digit_char(d: int) -> char {
    hex_digit(d as u32)
}

/// The decimal digits of the non-negative number `n`, most significant
/// first.
pub open spec fn dec_str(n: int) -> Seq<char>
    decreases n,
{
    if n < 10 {
        seq![digit_char(n)]
    } else {
        dec_str(n / 10).push(digit_char(n % 10))
    }
}

/// Write a number as its decimal digits.
pub fn u64_to_string(n: u64) -> (r: String)
    ensures
        r@ == dec_str(n as int),
    decreases n,
{
    if n < 10 {
        let mut out = String::new();
        push_char(&mut out, hex_digit_exec(n as u32));
        proof {
            assert(out@ =~= dec_str(n as int));
        }
        out
    } else {
        let mut out = u64_to_string(n / 10);
        push_char(&mut out, hex_digit_exec((n % 10) as u32));
        out
    }
}

} // verus!
