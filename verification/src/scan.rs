use vstd::prelude::*;

use crate::page::positional;
use crate::text::{byte_len, has_at, lemma_byte_len_prefix_le, lemma_byte_len_push, push_char, starts_with_at, str_chars, utf8_char_len};
use vstd::string::StrSliceExecFns;

verus! {

/// Why a style (`ist`) text was refused.
#[derive(Debug, Clone, Copy, PartialEq, Eq, Structural)]
pub enum IstError {
    /// Nothing left where a value was expected.
    Empty,
    /// A number without digits.
    ExpectedDigits,
    /// A `_` at the start of a number or right after another `_`.
    BadUnderscore,
    /// A number that ends with `_`.
    TrailingUnderscore,
    /// A number that does not fit in `i64`.
    IntegerOverflow,
    /// The empty character `''`.
    InvalidCharacter,
    /// A character without its closing `'`.
    UnclosedCharacter,
    /// A backslash before an ASCII letter or digit that is not a known escape.
    EscapedAlphanumeric,
    /// `\x` or `\u` without enough characters after it.
    IncompleteEscape,
    /// An escaped code point that is not a Unicode scalar value.
    InvalidEscapedCharacter,
    /// The digits of an escaped code point do not form a hexadecimal `u32`.
    InvalidHexNumber,
    /// A value that does not start like a string.
    NotAString,
    /// A string without its closing delimiter.
    UnclosedString,
    /// The text ends (or a slice would cut a character) where more was needed.
    OutOfBounds,
    /// A value that is not followed by white space.
    NoSpaceAfterValue,
    /// An unknown key whose value is of no known form.
    InvalidValue,
}

// ---------------------------------------------------------------------------
// Character classes

/// The white space that `trim_ascii` removes: space, tab, line feed, form feed, carriage return.
pub open spec fn is_ascii_ws(c: char) -> bool {
    c == ' ' || c == '\t' || c == '\n' || c == '\x0C' || c == '\r'
}

pub fn is_ascii_ws_exec(c: char) -> (r: bool)
    ensures
        r == is_ascii_ws(c),
{
    c == ' ' || c == '\t' || c == '\n' || c == '\x0C' || c == '\r'
}

pub open spec fn is_ascii(c: char) -> bool {
    (c as u32) < 0x80
}

pub open spec fn is_ascii_alnum(c: char) -> bool {
    ('0' <= c <= '9') || ('a' <= c <= 'z') || ('A' <= c <= 'Z')
}

/// The value of an ASCII hexadecimal digit.
pub open spec fn hex_value(c: char) -> Option<int> {
    if '0' <= c <= '9' {
        Some(c as int - '0' as int)
    } else if 'a' <= c <= 'f' {
        Some(c as int - 'a' as int + 10)
    } else if 'A' <= c <= 'F' {
        Some(c as int - 'A' as int + 10)
    } else {
        None
    }
}

pub(crate) fn hex_value_exec(c: char) -> (r: Option<u32>)
    ensures
        r matches Some(v) ==> hex_value(c) == Some(v as int) && v < 16,
        r is None <==> hex_value(c) is None,
{
    if c >= '0' && c <= '9' {
        Some(c as u32 - '0' as u32)
    } else if c >= 'a' && c <= 'f' {
        Some(c as u32 - 'a' as u32 + 10)
    } else if c >= 'A' && c <= 'F' {
        Some(c as u32 - 'A' as u32 + 10)
    } else {
        None
    }
}

/// The digit values of a run of hexadecimal digits.
pub open spec fn hex_digits(s: Seq<char>) -> Seq<int> {
    Seq::new(s.len(), |i: int| hex_value(s[i])->0)
}

/// The character that a one-letter escape such as `\n` stands for.
pub open spec fn simple_escape(c: char) -> Option<char> {
    if c == 'a' {
        Some('\x07')
    } else if c == 'b' {
        Some('\x08')
    } else if c == 'f' {
        Some('\x0C')
    } else if c == 'n' {
        Some('\n')
    } else if c == 'r' {
        Some('\r')
    } else if c == 't' {
        Some('\t')
    } else if c == 'v' {
        Some('\x0B')
    } else if c == '0' {
        Some('\0')
    } else {
        None
    }
}

fn simple_escape_exec(c: char) -> (r: Option<char>)
    ensures
        r == simple_escape(c),
{
    if c == 'a' {
        Some('\x07')
    } else if c == 'b' {
        Some('\x08')
    } else if c == 'f' {
        Some('\x0C')
    } else if c == 'n' {
        Some('\n')
    } else if c == 'r' {
        Some('\r')
    } else if c == 't' {
        Some('\t')
    } else if c == 'v' {
        Some('\x0B')
    } else if c == '0' {
        Some('\0')
    } else {
        None
    }
}

/// Calls `char::from_u32`: the character with code point `n`, if `n` is a Unicode scalar value.
#[verifier::external_body]
pub(crate) fn char_from_u32(n: u32) -> (r: Option<char>)
    ensures
        r is Some <==> vstd::utf8::is_scalar(n),
        r matches Some(c) ==> c as u32 == n && c == n as char,
{
    char::from_u32(n)
}

// ---------------------------------------------------------------------------
// Scanning helpers

/// The end of the run of ASCII hexadecimal digits at `i`.
pub open spec fn hex_run_end(cs: Seq<char>, i: int) -> int
    decreases cs.len() - i,
{
    if 0 <= i < cs.len() && hex_value(cs[i]) is Some {
        hex_run_end(cs, i + 1)
    } else {
        i
    }
}

/// The first position at or after `i` that holds `c`.
pub open spec fn find_char_from(cs: Seq<char>, i: int, c: char) -> Option<int>
    decreases cs.len() - i,
{
    if i < 0 || i >= cs.len() {
        None
    } else if cs[i] == c {
        Some(i)
    } else {
        find_char_from(cs, i + 1, c)
    }
}

/// The first position at or after `i` where `pat` occurs.
pub open spec fn find_pat_from(cs: Seq<char>, i: int, pat: Seq<char>) -> Option<int>
    decreases cs.len() + 1 - i,
{
    if i < 0 || i + pat.len() > cs.len() {
        None
    } else if has_at(cs, i, pat) {
        Some(i)
    } else {
        find_pat_from(cs, i + 1, pat)
    }
}

/// The first position at or after `i` that is not ASCII white space.
pub open spec fn skip_ws(cs: Seq<char>, i: int) -> int
    decreases cs.len() - i,
{
    if 0 <= i < cs.len() && is_ascii_ws(cs[i]) {
        skip_ws(cs, i + 1)
    } else {
        i
    }
}

proof fn lemma_hex_run_end_bounds(cs: Seq<char>, i: int)
    requires
        0 <= i <= cs.len(),
    ensures
        i <= hex_run_end(cs, i) <= cs.len(),
        forall|j: int| i <= j < hex_run_end(cs, i) ==> hex_value(#[trigger] cs[j]) is Some,
    decreases cs.len() - i,
{
    if i < cs.len() && hex_value(cs[i]) is Some {
        lemma_hex_run_end_bounds(cs, i + 1);
    }
}

pub proof fn lemma_skip_ws_bounds(cs: Seq<char>, i: int)
    requires
        0 <= i <= cs.len(),
    ensures
        i <= skip_ws(cs, i) <= cs.len(),
        skip_ws(cs, i) < cs.len() ==> !is_ascii_ws(cs[skip_ws(cs, i)]),
    decreases cs.len() - i,
{
    if i < cs.len() && is_ascii_ws(cs[i]) {
        lemma_skip_ws_bounds(cs, i + 1);
    }
}

/// A white-space character is skipped: reading on from it moves past it.
pub proof fn lemma_skip_ws_past(cs: Seq<char>, i: int)
    requires
        0 <= i < cs.len(),
        is_ascii_ws(cs[i]),
    ensures
        i < skip_ws(cs, i) <= cs.len(),
{
    lemma_skip_ws_bounds(cs, i + 1);
}

pub proof fn lemma_find_char_from_bounds(cs: Seq<char>, i: int, c: char)
    requires
        0 <= i,
    ensures
        find_char_from(cs, i, c) matches Some(j) ==> i <= j < cs.len() && cs[j] == c,
    decreases cs.len() - i,
{
    if i < cs.len() && cs[i] != c {
        lemma_find_char_from_bounds(cs, i + 1, c);
    }
}

pub proof fn lemma_find_pat_from_bounds(cs: Seq<char>, i: int, pat: Seq<char>)
    requires
        0 <= i,
    ensures
        find_pat_from(cs, i, pat) matches Some(j) ==> i <= j && j + pat.len() <= cs.len(),
    decreases cs.len() + 1 - i,
{
    if i + pat.len() <= cs.len() && !has_at(cs, i, pat) {
        lemma_find_pat_from_bounds(cs, i + 1, pat);
    }
}

/// Skips ASCII white space from `i`.
pub fn skip_ws_exec(cs: &[char], i: usize) -> (r: usize)
    requires
        i <= cs@.len(),
    ensures
        r == skip_ws(cs@, i as int),
        i <= r <= cs@.len(),
{
    let mut j = i;
    while j < cs.len() && is_ascii_ws_exec(cs[j])
        invariant
            i <= j <= cs@.len(),
            skip_ws(cs@, i as int) == skip_ws(cs@, j as int),
        decreases cs@.len() - j,
    {
        j = j + 1;
    }
    j
}

/// Finds `c` at or after `i`.
pub fn find_char_from_exec(cs: &[char], i: usize, c: char) -> (r: Option<usize>)
    requires
        i <= cs@.len(),
    ensures
        r is None <==> find_char_from(cs@, i as int, c) is None,
        r matches Some(j) ==> find_char_from(cs@, i as int, c) == Some(j as int),
        r matches Some(j) ==> i <= j < cs@.len() && cs@[j as int] == c,
{
    let mut j = i;
    while j < cs.len()
        invariant
            i <= j <= cs@.len(),
            find_char_from(cs@, i as int, c) == find_char_from(cs@, j as int, c),
        decreases cs@.len() - j,
    {
        if cs[j] == c {
            return Some(j);
        }
        j = j + 1;
    }
    None
}

/// Finds `pat` at or after `i`.
pub(crate) fn find_pat_from_exec(cs: &[char], i: usize, pat: &[char]) -> (r: Option<usize>)
    requires
        i <= cs@.len(),
    ensures
        r is None <==> find_pat_from(cs@, i as int, pat@) is None,
        r matches Some(j) ==> find_pat_from(cs@, i as int, pat@) == Some(j as int),
        r matches Some(j) ==> i <= j && j + pat@.len() <= cs@.len(),
{
    let mut j = i;
    while j <= cs.len()
        invariant
            i <= j,
            j <= cs@.len() + 1,
            find_pat_from(cs@, i as int, pat@) == find_pat_from(cs@, j as int, pat@),
        decreases cs@.len() + 1 - j,
    {
        if pat.len() > cs.len() - j {
            return None;
        }
        if j == cs.len() {
            assert(cs@.subrange(j as int, j as int) =~= pat@);
            return Some(j);
        }
        if starts_with_at(cs, j, pat) {
            return Some(j);
        }
        j = j + 1;
    }
    None
}

/// Whether the characters from `p` on take at least `k` bytes in UTF-8.
fn bytes_at_least(cs: &[char], p: usize, k: usize) -> (r: bool)
    requires
        p <= cs@.len(),
        k <= 5,
    ensures
        r == (byte_len(cs@.subrange(p as int, cs@.len() as int)) >= k),
{
    let ghost rest = cs@.subrange(p as int, cs@.len() as int);
    let mut sum: usize = 0;
    let mut i: usize = 0;
    proof {
        assert(rest.take(0) =~= Seq::<char>::empty());
        lemma_byte_len_prefix_le(rest, 0);
    }
    while sum < k && i < cs.len() - p
        invariant
            p <= cs@.len(),
            rest == cs@.subrange(p as int, cs@.len() as int),
            i <= rest.len(),
            sum == byte_len(rest.take(i as int)),
            k <= 5,
            sum <= k + 4,
        decreases rest.len() - i,
    {
        proof {
            lemma_byte_len_push(rest, i as int);
        }
        let n = utf8_char_len(cs[p + i]);
        assert(n <= 4);
        sum = sum + n;
        i = i + 1;
    }
    proof {
        lemma_byte_len_prefix_le(rest, i as int);
        if i == rest.len() {
            assert(rest.take(i as int) =~= rest);
        }
    }
    sum >= k
}

// ---------------------------------------------------------------------------
// Numbers

/// The value of an ASCII digit in base `radix` (2, 10 or 16).
pub open spec fn radix_digit(c: char, radix: int) -> Option<int> {
    if radix == 2 {
        if c == '0' || c == '1' {
            Some(c as int - '0' as int)
        } else {
            None
        }
    } else if radix == 10 {
        if '0' <= c <= '9' {
            Some(c as int - '0' as int)
        } else {
            None
        }
    } else {
        hex_value(c)
    }
}

/// Reads digits and `_` separators from `i` on, given the value so far, whether the last
/// thing read was a separator and whether any digit was read. Stops before the first other
/// character, giving (value, position, last was a separator, a digit was read).
pub open spec fn scan_digits(
    cs: Seq<char>,
    i: int,
    radix: int,
    v: int,
    prev_sep: bool,
    has_digit: bool,
) -> Result<(int, int, bool, bool), IstError>
    decreases cs.len() - i,
{
    if i < 0 || i >= cs.len() {
        Ok((v, i, prev_sep, has_digit))
    } else if cs[i] == '_' {
        if !has_digit || prev_sep {
            Err(IstError::BadUnderscore)
        } else {
            scan_digits(cs, i + 1, radix, v, true, has_digit)
        }
    } else {
        match radix_digit(cs[i], radix) {
            None => Ok((v, i, prev_sep, has_digit)),
            Some(d) => if v * radix + d > i64::MAX {
                Err(IstError::IntegerOverflow)
            } else {
                scan_digits(cs, i + 1, radix, v * radix + d, false, true)
            },
        }
    }
}

/// An integer at `pos`: an optional sign, an optional `0x`/`0X` or `0b`/`0B` prefix, then
/// digits with single `_` separators between them. Gives the value and the position after it.
pub open spec fn spec_scan_number(cs: Seq<char>, pos: int) -> Result<(i64, int), IstError> {
    if pos >= cs.len() {
        Err(IstError::Empty)
    } else {
        let neg = cs[pos] == '-';
        let i = if cs[pos] == '+' || cs[pos] == '-' {
            pos + 1
        } else {
            pos
        };
        if i == cs.len() {
            Err(IstError::ExpectedDigits)
        } else {
            let hex = i + 1 < cs.len() && cs[i] == '0' && (cs[i + 1] == 'x' || cs[i + 1] == 'X');
            let bin = i + 1 < cs.len() && cs[i] == '0' && (cs[i + 1] == 'b' || cs[i + 1] == 'B');
            let radix = if hex {
                16
            } else if bin {
                2
            } else {
                10
            };
            let start = if hex || bin {
                i + 2
            } else {
                i
            };
            match scan_digits(cs, start, radix, 0, false, false) {
                Err(e) => Err(e),
                Ok((v, end, prev_sep, has_digit)) => if !has_digit {
                    Err(IstError::ExpectedDigits)
                } else if prev_sep {
                    Err(IstError::TrailingUnderscore)
                } else {
                    Ok(
                        (
                            if neg {
                                (-v) as i64
                            } else {
                                v as i64
                            },
                            end,
                        ),
                    )
                },
            }
        }
    }
}

proof fn lemma_scan_digits_bounds(
    cs: Seq<char>,
    i: int,
    radix: int,
    v: int,
    prev_sep: bool,
    has_digit: bool,
)
    requires
        0 <= i <= cs.len(),
    ensures
        scan_digits(cs, i, radix, v, prev_sep, has_digit) matches Ok((_v, end, _s, d)) ==> i <= end
            <= cs.len() && (d ==> has_digit || end > i),
    decreases cs.len() - i,
{
    if i < cs.len() {
        lemma_scan_digits_bounds(cs, i + 1, radix, v, true, has_digit);
        match radix_digit(cs[i], radix) {
            Some(d) => lemma_scan_digits_bounds(cs, i + 1, radix, v * radix + d, false, true),
            None => {},
        }
    }
}

/// A number that is read ends after where it starts, within the text.
pub proof fn lemma_scan_number_progress(cs: Seq<char>, pos: int)
    requires
        0 <= pos,
    ensures
        spec_scan_number(cs, pos) matches Ok((_v, q)) ==> pos < q <= cs.len(),
{
    if pos < cs.len() {
        let i = if cs[pos] == '+' || cs[pos] == '-' {
            pos + 1
        } else {
            pos
        };
        if i < cs.len() {
            let hex = i + 1 < cs.len() && cs[i] == '0' && (cs[i + 1] == 'x' || cs[i + 1] == 'X');
            let bin = i + 1 < cs.len() && cs[i] == '0' && (cs[i + 1] == 'b' || cs[i + 1] == 'B');
            let radix = if hex {
                16
            } else if bin {
                2
            } else {
                10
            };
            let start = if hex || bin {
                i + 2
            } else {
                i
            };
            lemma_scan_digits_bounds(cs, start, radix, 0, false, false);
        }
    }
}

fn radix_digit_exec(c: char, radix: u32) -> (r: Option<i64>)
    requires
        radix == 2 || radix == 10 || radix == 16,
    ensures
        r matches Some(d) ==> radix_digit(c, radix as int) == Some(d as int) && 0 <= d < 16,
        r is None <==> radix_digit(c, radix as int) is None,
{
    if radix == 2 {
        if c == '0' || c == '1' {
            Some((c as u32 - '0' as u32) as i64)
        } else {
            None
        }
    } else if radix == 10 {
        if c >= '0' && c <= '9' {
            Some((c as u32 - '0' as u32) as i64)
        } else {
            None
        }
    } else {
        match hex_value_exec(c) {
            Some(v) => Some(v as i64),
            None => None,
        }
    }
}

/// Scans an integer at `pos` (see `spec_scan_number`).
#[verifier::loop_isolation(false)]
pub fn scan_number_at(cs: &[char], pos: usize) -> (r: Result<(i64, usize), IstError>)
    requires
        pos <= cs@.len(),
    ensures
        match spec_scan_number(cs@, pos as int) {
            Ok((v, e)) => r == Ok::<(i64, usize), IstError>((v, e as usize)) && pos < e
                <= cs@.len(),
            Err(err) => r == Err::<(i64, usize), IstError>(err),
        },
{
    if pos >= cs.len() {
        return Err(IstError::Empty);
    }
    let neg = cs[pos] == '-';
    let i = if cs[pos] == '+' || cs[pos] == '-' {
        pos + 1
    } else {
        pos
    };
    if i == cs.len() {
        return Err(IstError::ExpectedDigits);
    }
    let two = cs.len() - i >= 2;
    let hex = two && cs[i] == '0' && (cs[i + 1] == 'x' || cs[i + 1] == 'X');
    let bin = two && cs[i] == '0' && (cs[i + 1] == 'b' || cs[i + 1] == 'B');
    let radix: u32 = if hex {
        16
    } else if bin {
        2
    } else {
        10
    };
    let start = if hex || bin {
        i + 2
    } else {
        i
    };
    let mut j = start;
    let mut value: i64 = 0;
    let mut prev_sep = false;
    let mut has_digit = false;
    while j < cs.len()
        invariant
            start <= j <= cs@.len(),
            radix == 2 || radix == 10 || radix == 16,
            0 <= value,
            has_digit ==> j > start,
            scan_digits(cs@, start as int, radix as int, 0, false, false) == scan_digits(
                cs@,
                j as int,
                radix as int,
                value as int,
                prev_sep,
                has_digit,
            ),
        decreases cs@.len() - j,
    {
        let c = cs[j];
        if c == '_' {
            if !has_digit || prev_sep {
                assert(scan_digits(cs@, j as int, radix as int, value as int, prev_sep, has_digit)
                    == Err::<(int, int, bool, bool), IstError>(IstError::BadUnderscore));
                return Err(IstError::BadUnderscore);
            }
            prev_sep = true;
            j = j + 1;
        } else {
            match radix_digit_exec(c, radix) {
                None => {
                    break;
                },
                Some(d) => {
                    let m = match value.checked_mul(radix as i64) {
                        Some(m) => m,
                        None => {
                            assert(value * radix + d > i64::MAX);
                            assert(scan_digits(cs@, j as int, radix as int, value as int, prev_sep, has_digit)
                                == Err::<(int, int, bool, bool), IstError>(IstError::IntegerOverflow));
                            return Err(IstError::IntegerOverflow);
                        },
                    };
                    let v = match m.checked_add(d) {
                        Some(v) => v,
                        None => {
                            assert(scan_digits(cs@, j as int, radix as int, value as int, prev_sep, has_digit)
                                == Err::<(int, int, bool, bool), IstError>(IstError::IntegerOverflow));
                            return Err(IstError::IntegerOverflow);
                        },
                    };
                    assert(v >= 0) by (nonlinear_arith)
                        requires
                            v == value * radix + d,
                            value >= 0,
                            radix >= 2,
                            d >= 0,
                    ;
                    value = v;
                    has_digit = true;
                    prev_sep = false;
                    j = j + 1;
                },
            }
        }
    }
    if !has_digit {
        return Err(IstError::ExpectedDigits);
    }
    if prev_sep {
        return Err(IstError::TrailingUnderscore);
    }
    if neg {
        Ok((-value, j))
    } else {
        Ok((value, j))
    }
}

// ---------------------------------------------------------------------------
// Escaped characters

/// Whether every character of `s` is ASCII.
pub open spec fn all_ascii(s: Seq<char>) -> bool {
    forall|i: int| 0 <= i < s.len() ==> is_ascii(#[trigger] s[i])
}

pub open spec fn all_hex(s: Seq<char>) -> bool {
    forall|i: int| 0 <= i < s.len() ==> hex_value(#[trigger] s[i]) is Some
}

/// The value of a hexadecimal string as a code point, if it is a Unicode scalar value.
pub open spec fn hex_char(digits: Seq<char>) -> Result<char, IstError> {
    let n = positional(hex_digits(digits), 16);
    if n > u32::MAX {
        Err(IstError::InvalidHexNumber)
    } else if !vstd::utf8::is_scalar(n as u32) {
        Err(IstError::InvalidEscapedCharacter)
    } else {
        Ok((n as u32) as char)
    }
}

/// The escape `\x..` or `\u....` whose letter is at `p`: the hexadecimal digits after `x`
/// (as many as there are), or the four characters after `u` (the form `\u{..}` is refused).
/// Gives the character and the position after the escape.
pub open spec fn spec_scan_escaped(cs: Seq<char>, p: int) -> Result<(char, int), IstError> {
    if cs[p] == 'x' {
        if p + 1 >= cs.len() {
            Err(IstError::IncompleteEscape)
        } else {
            let q = hex_run_end(cs, p + 1);
            if q == p + 1 {
                Err(IstError::InvalidHexNumber)
            } else {
                match hex_char(cs.subrange(p + 1, q)) {
                    Ok(c) => Ok((c, q)),
                    Err(e) => Err(e),
                }
            }
        }
    } else {
        let rest = byte_len(cs.subrange(p, cs.len() as int));
        if rest < 4 {
            Err(IstError::IncompleteEscape)
        } else if cs[p + 1] == '{' {
            if find_char_from(cs, p, '}') is None {
                Err(IstError::IncompleteEscape)
            } else {
                Err(IstError::InvalidHexNumber)
            }
        } else if rest < 5 {
            Err(IstError::IncompleteEscape)
        } else if !(p + 4 < cs.len() && all_ascii(cs.subrange(p + 1, p + 5))) {
            Err(IstError::InvalidHexNumber)
        } else {
            let w = cs.subrange(p + 1, p + 5);
            let digits = if w[0] == '+' {
                w.drop_first()
            } else {
                w
            };
            if !all_hex(digits) {
                Err(IstError::InvalidHexNumber)
            } else {
                match hex_char(digits) {
                    Ok(c) => Ok((c, p + 5)),
                    Err(e) => Err(e),
                }
            }
        }
    }
}

/// An escape that is read ends after its letter, within the text.
pub proof fn lemma_scan_escaped_progress(cs: Seq<char>, p: int)
    requires
        0 <= p < cs.len(),
    ensures
        spec_scan_escaped(cs, p) matches Ok((_c, r)) ==> p < r <= cs.len(),
{
    if cs[p] == 'x' && p + 1 < cs.len() {
        lemma_hex_run_end_bounds(cs, p + 1);
    }
}

pub proof fn lemma_byte_len_ge_len(s: Seq<char>)
    ensures
        byte_len(s) >= s.len(),
    decreases s.len(),
{
    if s.len() > 0 {
        assert(s.take(s.len() - 1 + 1) =~= s);
        lemma_byte_len_push(s, s.len() - 1);
        lemma_byte_len_ge_len(s.take(s.len() - 1));
    }
}

/// Reads the hexadecimal digits `digits` as a code point.
fn hex_char_exec(cs: &[char], from: usize, to: usize) -> (r: Result<char, IstError>)
    requires
        from <= to <= cs@.len(),
        all_hex(cs@.subrange(from as int, to as int)),
    ensures
        r == hex_char(cs@.subrange(from as int, to as int)),
{
    let ghost digits = cs@.subrange(from as int, to as int);
    let ghost ds = hex_digits(digits);
    let mut value: u32 = 0;
    let mut i = from;
    proof {
        assert(ds.take(0) =~= Seq::<int>::empty());
    }
    while i < to
        invariant
            from <= i <= to <= cs@.len(),
            digits == cs@.subrange(from as int, to as int),
            ds == hex_digits(digits),
            all_hex(digits),
            value == positional(ds.take((i - from) as int), 16),
            forall|j: int| 0 <= j < ds.len() ==> ds[j] >= 0,
        decreases to - i,
    {
        proof {
            crate::page::lemma_positional_step(ds, 16, (i - from) as int);
            crate::page::lemma_positional_prefix_le(ds, 16, (i - from) as int + 1);
        }
        assert(hex_value(digits[(i - from) as int]) is Some);
        assert(digits[(i - from) as int] == cs@[i as int]);
        let d = match hex_value_exec(cs[i]) {
            Some(d) => d,
            None => {
                return Err(IstError::InvalidHexNumber);
            },
        };
        let m = match value.checked_mul(16) {
            Some(m) => m,
            None => {
                return Err(IstError::InvalidHexNumber);
            },
        };
        value = match m.checked_add(d) {
            Some(v) => v,
            None => {
                return Err(IstError::InvalidHexNumber);
            },
        };
        i = i + 1;
    }
    assert(ds.take(ds.len() as int) =~= ds);
    match char_from_u32(value) {
        Some(c) => {
            proof {
                vstd::utf8::char_u32_cast(c, value);
            }
            Ok(c)
        },
        None => Err(IstError::InvalidEscapedCharacter),
    }
}

/// Scans the escape whose letter (`x` or `u`) is at `p` (see `spec_scan_escaped`).
#[verifier::loop_isolation(false)]
fn scan_escaped_at(cs: &[char], p: usize) -> (r: Result<(char, usize), IstError>)
    requires
        p < cs@.len(),
        cs@[p as int] == 'x' || cs@[p as int] == 'u',
    ensures
        match spec_scan_escaped(cs@, p as int) {
            Ok((c, e)) => r == Ok::<(char, usize), IstError>((c, e as usize)) && p < e
                <= cs@.len(),
            Err(err) => r == Err::<(char, usize), IstError>(err),
        },
{
    if cs[p] == 'x' {
        if p + 1 >= cs.len() {
            return Err(IstError::IncompleteEscape);
        }
        let mut q = p + 1;
        proof {
            lemma_hex_run_end_bounds(cs@, p as int + 1);
        }
        while q < cs.len() && hex_value_exec(cs[q]).is_some()
            invariant
                p + 1 <= q <= cs@.len(),
                hex_run_end(cs@, p as int + 1) == hex_run_end(cs@, q as int),
            decreases cs@.len() - q,
        {
            q = q + 1;
        }
        if q == p + 1 {
            return Err(IstError::InvalidHexNumber);
        }
        proof {
            lemma_hex_run_end_bounds(cs@, p as int + 1);
            let d = cs@.subrange(p + 1, q as int);
            assert forall|i: int| 0 <= i < d.len() implies hex_value(#[trigger] d[i]) is Some by {
                assert(d[i] == cs@[p + 1 + i]);
            }
        }
        match hex_char_exec(cs, p + 1, q) {
            Ok(c) => Ok((c, q)),
            Err(e) => Err(e),
        }
    } else {
        if !bytes_at_least(cs, p, 4) {
            return Err(IstError::IncompleteEscape);
        }
        proof {
            lemma_byte_len_ge_len(cs@.subrange(p as int, cs@.len() as int));
            let rest = cs@.subrange(p as int, cs@.len() as int);
            if rest.len() == 1 {
                assert(rest =~= seq![cs@[p as int]]);
                crate::text::lemma_char_encoding_len(cs@[p as int]);
            }
        }
        if cs[p + 1] == '{' {
            return match find_char_from_exec(cs, p, '}') {
                None => Err(IstError::IncompleteEscape),
                Some(_) => Err(IstError::InvalidHexNumber),
            };
        }
        if !bytes_at_least(cs, p, 5) {
            return Err(IstError::IncompleteEscape);
        }
        if !(cs.len() - p > 4 && (cs[p + 1] as u32) < 0x80 && (cs[p + 2] as u32) < 0x80 && (cs[p
            + 3] as u32) < 0x80 && (cs[p + 4] as u32) < 0x80) {
            proof {
                if p + 4 < cs@.len() {
                    let w = cs@.subrange(p + 1, p + 5);
                    if all_ascii(w) {
                        assert(w[0] == cs@[p + 1]);
                        assert(w[1] == cs@[p + 2]);
                        assert(w[2] == cs@[p + 3]);
                        assert(w[3] == cs@[p + 4]);
                    }
                }
            }
            return Err(IstError::InvalidHexNumber);
        }
        let from = if cs[p + 1] == '+' {
            p + 2
        } else {
            p + 1
        };
        proof {
            let w = cs@.subrange(p + 1, p + 5);
            assert forall|i: int| 0 <= i < w.len() implies is_ascii(#[trigger] w[i]) by {
                assert(w[i] == cs@[p + 1 + i]);
            }
            let digits = if w[0] == '+' {
                w.drop_first()
            } else {
                w
            };
            assert(digits =~= cs@.subrange(from as int, p + 5));
        }
        let mut k = from;
        while k < p + 5
            invariant
                from <= k <= p + 5,
                p + 5 <= cs@.len(),
                forall|j: int| from <= j < k ==> hex_value(#[trigger] cs@[j]) is Some,
            decreases p + 5 - k,
        {
            if hex_value_exec(cs[k]).is_none() {
                proof {
                    let w = cs@.subrange(p + 1, p + 5);
                    let digits = if w[0] == '+' {
                        w.drop_first()
                    } else {
                        w
                    };
                    assert(digits[k - from] == cs@[k as int]);
                }
                return Err(IstError::InvalidHexNumber);
            }
            k = k + 1;
        }
        proof {
            let w = cs@.subrange(p + 1, p + 5);
            assert forall|i: int| 0 <= i < w.len() implies is_ascii(#[trigger] w[i]) by {
                assert(w[i] == cs@[p + 1 + i]);
            }
            let digits = if w[0] == '+' {
                w.drop_first()
            } else {
                w
            };
            assert(digits =~= cs@.subrange(from as int, p + 5));
            assert forall|i: int| 0 <= i < digits.len() implies hex_value(
                #[trigger] digits[i],
            ) is Some by {
                assert(digits[i] == cs@[from + i]);
            }
        }
        match hex_char_exec(cs, from, p + 5) {
            Ok(c) => Ok((c, p + 5)),
            Err(e) => Err(e),
        }
    }
}


// ---------------------------------------------------------------------------
// Characters

/// A character value at `pos`: one character that opens it (normally `'`), then either a
/// plain character or a backslash escape, then `'`. Gives the character and the position
/// after the closing `'`.
pub open spec fn spec_scan_char(cs: Seq<char>, pos: int) -> Result<(char, int), IstError> {
    if pos < 0 || pos >= cs.len() {
        Err(IstError::Empty)
    } else if !is_ascii(cs[pos]) {
        Err(IstError::OutOfBounds)
    } else {
        let p = pos + 1;
        if p == cs.len() - 1 && cs[p] == '\'' {
            Err(IstError::InvalidCharacter)
        } else if p >= cs.len() {
            Err(IstError::OutOfBounds)
        } else {
            let body: Result<(char, int), IstError> = if cs[p] == '\\' {
                let q = p + 1;
                if cs.len() - q < 2 {
                    Err(IstError::UnclosedCharacter)
                } else {
                    let e = cs[q];
                    match simple_escape(e) {
                        Some(c) => Ok((c, q + 1)),
                        None => if e == 'u' || e == 'x' {
                            spec_scan_escaped(cs, q)
                        } else if is_ascii_alnum(e) {
                            Err(IstError::EscapedAlphanumeric)
                        } else {
                            Ok((e, q + 1))
                        },
                    }
                }
            } else {
                Ok((cs[p], p + 1))
            };
            match body {
                Err(e) => Err(e),
                Ok((c, q)) => if q < cs.len() && cs[q] == '\'' {
                    Ok((c, q + 1))
                } else {
                    Err(IstError::UnclosedCharacter)
                },
            }
        }
    }
}

/// A character value that is read ends after where it starts, within the text.
pub proof fn lemma_scan_char_progress(cs: Seq<char>, pos: int)
    requires
        0 <= pos,
    ensures
        spec_scan_char(cs, pos) matches Ok((_c, q)) ==> pos < q <= cs.len(),
{
    if pos + 2 < cs.len() && cs[pos + 1] == '\\' {
        lemma_scan_escaped_progress(cs, pos + 2);
    }
}

fn is_ascii_alnum_exec(c: char) -> (r: bool)
    ensures
        r == is_ascii_alnum(c),
{
    (c >= '0' && c <= '9') || (c >= 'a' && c <= 'z') || (c >= 'A' && c <= 'Z')
}

/// Scans a character value at `pos` (see `spec_scan_char`).
pub fn scan_char_at(cs: &[char], pos: usize) -> (r: Result<(char, usize), IstError>)
    requires
        pos <= cs@.len(),
    ensures
        match spec_scan_char(cs@, pos as int) {
            Ok((c, e)) => r == Ok::<(char, usize), IstError>((c, e as usize)) && pos < e
                <= cs@.len(),
            Err(err) => r == Err::<(char, usize), IstError>(err),
        },
{
    if pos >= cs.len() {
        return Err(IstError::Empty);
    }
    if !((cs[pos] as u32) < 0x80) {
        return Err(IstError::OutOfBounds);
    }
    let p = pos + 1;
    if p == cs.len() - 1 && cs[p] == '\'' {
        return Err(IstError::InvalidCharacter);
    }
    if p >= cs.len() {
        return Err(IstError::OutOfBounds);
    }
    let (c, q) = if cs[p] == '\\' {
        let q = p + 1;
        if cs.len() - q < 2 {
            return Err(IstError::UnclosedCharacter);
        }
        let e = cs[q];
        match simple_escape_exec(e) {
            Some(c) => (c, q + 1),
            None => if e == 'u' || e == 'x' {
                match scan_escaped_at(cs, q) {
                    Ok(x) => x,
                    Err(err) => {
                        return Err(err);
                    },
                }
            } else if is_ascii_alnum_exec(e) {
                return Err(IstError::EscapedAlphanumeric);
            } else {
                (e, q + 1)
            },
        }
    } else {
        (cs[p], p + 1)
    };
    if q < cs.len() && cs[q] == '\'' {
        Ok((c, q + 1))
    } else {
        Err(IstError::UnclosedCharacter)
    }
}

// ---------------------------------------------------------------------------
// Strings

/// The rest of a `"` string from `p`, with `acc` read so far: backslash escapes are decoded
/// and the first unescaped `"` ends it. Gives the text and the position after the `"`.
pub open spec fn string_body(cs: Seq<char>, p: int, acc: Seq<char>) -> Result<
    (Seq<char>, int),
    IstError,
>
    decreases cs.len() - p,
{
    if p < 0 || p >= cs.len() {
        Err(IstError::UnclosedString)
    } else if cs[p] == '"' {
        Ok((acc, p + 1))
    } else if cs[p] == '\\' {
        let q = p + 1;
        if q >= cs.len() {
            Err(IstError::UnclosedString)
        } else {
            let e = cs[q];
            match simple_escape(e) {
                Some(c) => string_body(cs, q + 1, acc.push(c)),
                None => if e == 'u' || e == 'x' {
                    match spec_scan_escaped(cs, q) {
                        Ok((c, r)) => {
                            proof {
                                lemma_scan_escaped_progress(cs, q);
                            }
                            string_body(cs, r, acc.push(c))
                        },
                        Err(err) => Err(err),
                    }
                } else if is_ascii_alnum(e) {
                    Err(IstError::EscapedAlphanumeric)
                } else {
                    string_body(cs, q + 1, acc.push(e))
                },
            }
        }
    } else {
        string_body(cs, p + 1, acc.push(cs[p]))
    }
}

/// A raw string from `p` up to the first `ends`. Gives the text and the position after `ends`.
pub open spec fn raw_string(cs: Seq<char>, p: int, ends: Seq<char>) -> Result<
    (Seq<char>, int),
    IstError,
> {
    match find_pat_from(cs, p, ends) {
        None => Err(IstError::UnclosedString),
        Some(j) => Ok((cs.subrange(p, j), j + ends.len())),
    }
}

/// The number of `#` at `i` and after.
pub open spec fn hash_run(cs: Seq<char>, i: int) -> nat
    decreases cs.len() - i,
{
    if 0 <= i < cs.len() && cs[i] == '#' {
        1 + hash_run(cs, i + 1)
    } else {
        0
    }
}

/// A string value at `pos`: `"..."` with escapes, `` `...` `` raw, or `r"..."`, `r#"..."#`
/// and so on, raw up to a `"` followed by as many `#` as opened it.
/// Gives the text and the position after the string.
pub open spec fn spec_scan_string(cs: Seq<char>, pos: int) -> Result<(Seq<char>, int), IstError> {
    if pos < 0 || pos >= cs.len() {
        Err(IstError::Empty)
    } else if cs[pos] == '"' {
        string_body(cs, pos + 1, Seq::empty())
    } else if cs[pos] == '`' {
        raw_string(cs, pos + 1, seq!['`'])
    } else if cs[pos] == 'r' {
        let h = hash_run(cs, pos + 1);
        let q = pos + 1 + h;
        if !(q < cs.len() && cs[q] == '"') {
            Err(IstError::NotAString)
        } else {
            raw_string(cs, q + 1, seq!['"'] + Seq::new(h, |i: int| '#'))
        }
    } else {
        Err(IstError::NotAString)
    }
}

proof fn lemma_hash_run_bound(cs: Seq<char>, i: int)
    requires
        0 <= i <= cs.len(),
    ensures
        i + hash_run(cs, i) <= cs.len(),
    decreases cs.len() - i,
{
    if i < cs.len() && cs[i] == '#' {
        lemma_hash_run_bound(cs, i + 1);
    }
}

proof fn lemma_string_body_progress(cs: Seq<char>, p: int, acc: Seq<char>)
    requires
        0 <= p,
    ensures
        string_body(cs, p, acc) matches Ok((_t, r)) ==> p < r <= cs.len(),
    decreases cs.len() - p,
{
    if p < cs.len() && cs[p] != '"' {
        if cs[p] == '\\' {
            let q = p + 1;
            if q < cs.len() {
                let e = cs[q];
                match simple_escape(e) {
                    Some(c) => lemma_string_body_progress(cs, q + 1, acc.push(c)),
                    None => if e == 'u' || e == 'x' {
                        lemma_scan_escaped_progress(cs, q);
                        match spec_scan_escaped(cs, q) {
                            Ok((c, r)) => lemma_string_body_progress(cs, r, acc.push(c)),
                            Err(_) => {},
                        }
                    } else if !is_ascii_alnum(e) {
                        lemma_string_body_progress(cs, q + 1, acc.push(e));
                    },
                }
            }
        } else {
            lemma_string_body_progress(cs, p + 1, acc.push(cs[p]));
        }
    }
}

/// A string value that is read ends after where it starts, within the text.
pub proof fn lemma_scan_string_progress(cs: Seq<char>, pos: int)
    requires
        0 <= pos,
    ensures
        spec_scan_string(cs, pos) matches Ok((_t, q)) ==> pos < q <= cs.len(),
{
    if pos < cs.len() {
        if cs[pos] == '"' {
            lemma_string_body_progress(cs, pos + 1, Seq::empty());
        } else if cs[pos] == '`' {
            lemma_find_pat_from_bounds(cs, pos + 1, seq!['`']);
        } else if cs[pos] == 'r' {
            let h = hash_run(cs, pos + 1);
            let q = pos + 1 + h;
            lemma_find_pat_from_bounds(cs, q + 1, seq!['"'] + Seq::new(h, |i: int| '#'));
        }
    }
}

fn scan_raw_at(cs: &[char], p: usize, ends: &[char]) -> (r: Result<(String, usize), IstError>)
    requires
        p <= cs@.len(),
        ends@.len() > 0,
    ensures
        match raw_string(cs@, p as int, ends@) {
            Ok((s, e)) => r matches Ok((t, f)) && t@ == s && f == e && p < e <= cs@.len(),
            Err(err) => r == Err::<(String, usize), IstError>(err),
        },
{
    let n = cs.len();
    match find_pat_from_exec(cs, p, ends) {
        None => Err(IstError::UnclosedString),
        Some(j) => {
            assert(j + ends@.len() <= n);
            Ok((crate::text::string_from_range(cs, p, j), j + ends.len()))
        },
    }
}

/// Scans a string value at `pos` (see `spec_scan_string`).
#[verifier::loop_isolation(false)]
pub fn scan_string_at(cs: &[char], pos: usize) -> (r: Result<(String, usize), IstError>)
    requires
        pos <= cs@.len(),
    ensures
        match spec_scan_string(cs@, pos as int) {
            Ok((s, e)) => r matches Ok((t, f)) && t@ == s && f == e && pos < e <= cs@.len(),
            Err(err) => r == Err::<(String, usize), IstError>(err),
        },
{
    if pos >= cs.len() {
        return Err(IstError::Empty);
    }
    if cs[pos] == '`' {
        let ends: [char; 1] = ['`'];
        assert(ends@ =~= seq!['`']);
        return scan_raw_at(cs, pos + 1, &ends);
    }
    if cs[pos] == 'r' {
        let mut q = pos + 1;
        proof {
            lemma_hash_run_bound(cs@, pos + 1);
        }
        while q < cs.len() && cs[q] == '#'
            invariant
                pos + 1 <= q <= cs@.len(),
                hash_run(cs@, pos + 1) == (q - pos - 1) + hash_run(cs@, q as int),
            decreases cs@.len() - q,
        {
            q = q + 1;
        }
        if !(q < cs.len() && cs[q] == '"') {
            return Err(IstError::NotAString);
        }
        let mut ends: Vec<char> = Vec::new();
        ends.push('"');
        let mut k = pos + 1;
        while k < q
            invariant
                pos + 1 <= k <= q,
                ends@ =~= seq!['"'] + Seq::new((k - pos - 1) as nat, |i: int| '#'),
            decreases q - k,
        {
            ends.push('#');
            k = k + 1;
        }
        return scan_raw_at(cs, q + 1, ends.as_slice());
    }
    if cs[pos] != '"' {
        return Err(IstError::NotAString);
    }
    let mut res = String::new();
    let mut p = pos + 1;
    while p < cs.len()
        invariant
            pos < p <= cs@.len(),
            string_body(cs@, pos + 1, Seq::empty()) == string_body(cs@, p as int, res@),
        decreases cs@.len() - p,
    {
        let c = cs[p];
        if c == '"' {
            return Ok((res, p + 1));
        }
        if c == '\\' {
            let q = p + 1;
            if q >= cs.len() {
                return Err(IstError::UnclosedString);
            }
            let e = cs[q];
            match simple_escape_exec(e) {
                Some(x) => {
                    push_char(&mut res, x);
                    p = q + 1;
                },
                None => {
                    if e == 'u' || e == 'x' {
                        match scan_escaped_at(cs, q) {
                            Ok((x, r)) => {
                                push_char(&mut res, x);
                                p = r;
                            },
                            Err(err) => {
                                return Err(err);
                            },
                        }
                    } else if is_ascii_alnum_exec(e) {
                        return Err(IstError::EscapedAlphanumeric);
                    } else {
                        push_char(&mut res, e);
                        p = q + 1;
                    }
                },
            }
        } else {
            push_char(&mut res, c);
            p = p + 1;
        }
    }
    Err(IstError::UnclosedString)
}

// ---------------------------------------------------------------------------
// The scanners on `&mut &str`: on success the input is advanced past the value,
// on failure it is left as it was.

/// Scans an integer (see `spec_scan_number`).
pub fn scan_number(input: &mut &str) -> (r: Result<i64, IstError>)
    ensures
        match spec_scan_number(old(input)@, 0) {
            Ok((v, e)) => r == Ok::<i64, IstError>(v) && final(input)@ == old(input)@.skip(e),
            Err(err) => r == Err::<i64, IstError>(err) && final(input)@ == old(input)@,
        },
{
    let cs = str_chars(*input);
    match scan_number_at(cs.as_slice(), 0) {
        Ok((v, e)) => {
            *input = (*input).substring_char(e, cs.len());
            assert(old(input)@.subrange(e as int, cs@.len() as int) =~= old(input)@.skip(e as int));
            Ok(v)
        },
        Err(err) => Err(err),
    }
}

/// Scans a character value (see `spec_scan_char`).
pub fn scan_char(input: &mut &str) -> (r: Result<char, IstError>)
    ensures
        match spec_scan_char(old(input)@, 0) {
            Ok((c, e)) => r == Ok::<char, IstError>(c) && final(input)@ == old(input)@.skip(e),
            Err(err) => r == Err::<char, IstError>(err) && final(input)@ == old(input)@,
        },
{
    let cs = str_chars(*input);
    match scan_char_at(cs.as_slice(), 0) {
        Ok((c, e)) => {
            *input = (*input).substring_char(e, cs.len());
            assert(old(input)@.subrange(e as int, cs@.len() as int) =~= old(input)@.skip(e as int));
            Ok(c)
        },
        Err(err) => Err(err),
    }
}

/// Scans a string value (see `spec_scan_string`).
pub fn scan_string(input: &mut &str) -> (r: Result<String, IstError>)
    ensures
        match spec_scan_string(old(input)@, 0) {
            Ok((s, e)) => r matches Ok(t) && t@ == s && final(input)@ == old(input)@.skip(e),
            Err(err) => r == Err::<String, IstError>(err) && final(input)@ == old(input)@,
        },
{
    let cs = str_chars(*input);
    match scan_string_at(cs.as_slice(), 0) {
        Ok((s, e)) => {
            *input = (*input).substring_char(e, cs.len());
            assert(old(input)@.subrange(e as int, cs@.len() as int) =~= old(input)@.skip(e as int));
            Ok(s)
        },
        Err(err) => Err(err),
    }
}

proof fn lemma_scan_digits_value(cs: Seq<char>, i: int, radix: int, v: int, prev_sep: bool, has_digit: bool)
    requires
        0 <= v <= i64::MAX,
        radix == 2 || radix == 10 || radix == 16,
    ensures
        scan_digits(cs, i, radix, v, prev_sep, has_digit) matches Ok((w, _e, _s, _d)) ==> 0 <= w <= i64::MAX,
    decreases cs.len() - i,
{
    if 0 <= i < cs.len() {
        if cs[i] == '_' {
            lemma_scan_digits_value(cs, i + 1, radix, v, true, has_digit);
        } else {
            match radix_digit(cs[i], radix) {
                Some(d) => {
                    assert(d >= 0);
                    assert(v * radix >= 0) by (nonlinear_arith)
                        requires
                            v >= 0,
                            radix >= 0,
                    ;
                    if v * radix + d <= i64::MAX {
                        lemma_scan_digits_value(cs, i + 1, radix, v * radix + d, false, true);
                    }
                },
                None => {},
            }
        }
    }
}

/// A sign before a number: `-` gives the number negated, `+` the number itself, with the
/// same end; and where the number cannot be read, the same error.
pub proof fn law_scan_number_sign(cs: Seq<char>, pos: int)
    requires
        1 <= pos < cs.len(),
        cs[pos - 1] == '-' || cs[pos - 1] == '+',
        cs[pos] != '-' && cs[pos] != '+',
    ensures
        spec_scan_number(cs, pos - 1) == match spec_scan_number(cs, pos) {
            Ok((v, e)) => Ok((
                (if cs[pos - 1] == '-' {
                    -(v as int)
                } else {
                    v as int
                }) as i64,
                e,
            )),
            Err(err) => Err(err),
        },
{
    let i = pos;
    let hex = i + 1 < cs.len() && cs[i] == '0' && (cs[i + 1] == 'x' || cs[i + 1] == 'X');
    let bin = i + 1 < cs.len() && cs[i] == '0' && (cs[i + 1] == 'b' || cs[i + 1] == 'B');
    let radix = if hex { 16int } else if bin { 2int } else { 10int };
    let start = if hex || bin { i + 2 } else { i };
    lemma_scan_digits_value(cs, start, radix, 0, false, false);
}

/// A plain character in quotes reads as itself: an ASCII opener, any character but a
/// backslash, then `'`, whatever follows.
pub proof fn law_quoted_char_reads_itself(open: char, c: char, rest: Seq<char>)
    requires
        is_ascii(open),
        c != '\\',
    ensures
        spec_scan_char(seq![open, c, '\''] + rest, 0) == Ok::<(char, int), IstError>((c, 3)),
{
    let cs = seq![open, c, '\''] + rest;
    assert(cs[0] == open && cs[1] == c && cs[2] == '\'');
}

proof fn lemma_string_body_plain(w: Seq<char>, rest: Seq<char>, i: int)
    requires
        0 <= i <= w.len(),
        forall|j: int| 0 <= j < w.len() ==> #[trigger] w[j] != '"' && w[j] != '\\',
    ensures
        string_body(seq!['"'] + w + seq!['"'] + rest, 1 + i, w.take(i)) == Ok::<(Seq<char>, int), IstError>(
            (w, w.len() + 2int),
        ),
    decreases w.len() - i,
{
    let cs = seq!['"'] + w + seq!['"'] + rest;
    if i == w.len() {
        assert(cs[1 + i] == '"');
        assert(w.take(i) =~= w);
    } else {
        assert(cs[1 + i] == w[i]);
        assert(w.take(i).push(w[i]) =~= w.take(i + 1));
        lemma_string_body_plain(w, rest, i + 1);
    }
}

/// A string in double quotes with no quote and no backslash inside reads as the text
/// between the quotes, whatever follows.
pub proof fn law_plain_string_reads_itself(w: Seq<char>, rest: Seq<char>)
    requires
        forall|j: int| 0 <= j < w.len() ==> #[trigger] w[j] != '"' && w[j] != '\\',
    ensures
        spec_scan_string(seq!['"'] + w + seq!['"'] + rest, 0) == Ok::<(Seq<char>, int), IstError>(
            (w, w.len() + 2int),
        ),
{
    let cs = seq!['"'] + w + seq!['"'] + rest;
    assert(cs[0] == '"');
    assert(w.take(0) =~= Seq::<char>::empty());
    lemma_string_body_plain(w, rest, 0);
}

} // verus!
