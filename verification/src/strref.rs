use vstd::prelude::*;

use crate::scan::{char_from_u32, find_char_from, find_char_from_exec, find_pat_from, find_pat_from_exec};
use crate::text::{str_chars, utf8_char_len};
use unicode_segmentation::UnicodeSegmentation;

verus! {

// ---------------------------------------------------------------------------
// Byte strings read as NUL-terminated buffers.
//
// Scripts hand strings over as byte views that are followed in memory by a NUL
// byte; the functions below read a position at or past the end of the view as 0.

/// `b` followed by the NUL terminator (and enough zero bytes to read a whole
/// UTF-8 sequence past the end).
pub open spec fn nul_padded(b: Seq<u8>) -> Seq<u8> {
    b + seq![0u8, 0u8, 0u8, 0u8]
}

/// The byte at `i`, or 0 at or past the end.
fn byte_or_nul(b: &[u8], i: usize) -> (r: u8)
    requires
        i < b@.len() + 4,
    ensures
        r == nul_padded(b@)[i as int],
{
    if i < b.len() {
        b[i]
    } else {
        0
    }
}

/// Position of the first zero byte: the length of the NUL-terminated string that
/// starts the buffer.
pub fn strlen(bytes: &[u8]) -> (n: usize)
    requires
        exists|i: int| 0 <= i < bytes@.len() && bytes@[i] == 0,
    ensures
        n < bytes@.len(),
        bytes@[n as int] == 0,
        forall|i: int| 0 <= i < n ==> bytes@[i] != 0,
{
    let mut n: usize = 0;
    while n < bytes.len() && bytes[n] != 0
        invariant
            n <= bytes@.len(),
            exists|i: int| n <= i < bytes@.len() && bytes@[i] == 0,
            forall|i: int| 0 <= i < n ==> bytes@[i] != 0,
        decreases bytes@.len() - n,
    {
        n = n + 1;
    }
    n
}

// ---------------------------------------------------------------------------
// Byte order

/// Lexicographic order of `a` and `b` from position `i` on: -1, 0 or 1.
pub open spec fn byte_order_from(a: Seq<u8>, b: Seq<u8>, i: int) -> int
    decreases a.len() - i,
{
    if i >= a.len() {
        if i >= b.len() {
            0
        } else {
            -1
        }
    } else if i >= b.len() {
        1
    } else if a[i] < b[i] {
        -1
    } else if a[i] > b[i] {
        1
    } else {
        byte_order_from(a, b, i + 1)
    }
}

/// Lexicographic order of two byte strings: -1, 0 or 1.
pub open spec fn byte_order(a: Seq<u8>, b: Seq<u8>) -> int {
    byte_order_from(a, b, 0)
}

/// Walks `a` and `b` together to their first difference.
fn byte_order_exec(a: &[u8], b: &[u8]) -> (r: i64)
    ensures
        r == byte_order(a@, b@),
{
    let mut i: usize = 0;
    loop
        invariant
            0 <= i <= a@.len(),
            i <= b@.len(),
            byte_order(a@, b@) == byte_order_from(a@, b@, i as int),
        decreases a@.len() - i,
    {
        if i == a.len() {
            if i == b.len() {
                return 0;
            } else {
                return -1;
            }
        }
        if i == b.len() {
            return 1;
        }
        if a[i] < b[i] {
            return -1;
        }
        if a[i] > b[i] {
            return 1;
        }
        i = i + 1;
    }
}

/// Compares two byte strings lexicographically: -1, 0 or 1, and -2 where either
/// is missing.
pub fn cmp(lhs: Option<&[u8]>, rhs: Option<&[u8]>) -> (r: i64)
    ensures
        r == (match (lhs, rhs) {
            (Some(a), Some(b)) => byte_order(a@, b@),
            _ => -2,
        }),
{
    match (lhs, rhs) {
        (Some(a), Some(b)) => byte_order_exec(a, b),
        _ => -2,
    }
}

proof fn lemma_byte_order_from_flip(a: Seq<u8>, b: Seq<u8>, i: int)
    requires
        0 <= i,
    ensures
        byte_order_from(a, b, i) == -byte_order_from(b, a, i),
    decreases a.len() - i,
{
    if i < a.len() && i < b.len() && a[i] == b[i] {
        lemma_byte_order_from_flip(a, b, i + 1);
    }
}

proof fn lemma_byte_order_from_zero(a: Seq<u8>, b: Seq<u8>, i: int)
    requires
        0 <= i <= a.len(),
        a.subrange(0, i) == b.subrange(0, i),
        i <= b.len(),
    ensures
        byte_order_from(a, b, i) == 0 <==> a == b,
    decreases a.len() - i,
{
    if i < a.len() && i < b.len() && a[i] == b[i] {
        assert(a.subrange(0, i + 1) =~= a.subrange(0, i).push(a[i]));
        assert(b.subrange(0, i + 1) =~= b.subrange(0, i).push(b[i]));
        lemma_byte_order_from_zero(a, b, i + 1);
    } else if i == a.len() && i == b.len() {
        assert(a =~= a.subrange(0, i));
        assert(b =~= b.subrange(0, i));
    } else if i < a.len() && i < b.len() {
        assert(a[i] != b[i]);
    } else {
        assert(a.len() != b.len());
    }
}

/// Swapping the two strings negates their order.
pub proof fn law_byte_order_antisymmetric(a: Seq<u8>, b: Seq<u8>)
    ensures
        byte_order(a, b) == -byte_order(b, a),
{
    lemma_byte_order_from_flip(a, b, 0);
}

/// Two byte strings compare equal exactly when they are the same.
pub proof fn law_byte_order_equal(a: Seq<u8>, b: Seq<u8>)
    ensures
        byte_order(a, b) == 0 <==> a == b,
{
    assert(a.subrange(0, 0) =~= b.subrange(0, 0));
    lemma_byte_order_from_zero(a, b, 0);
}

// ---------------------------------------------------------------------------
// Slicing at character boundaries

/// A byte that begins a character (is not a UTF-8 continuation byte).
pub open spec fn starts_char(b: u8) -> bool {
    b < 0x80 || b >= 0xC0
}

/// The byte range that `slice` gives for `start..end` of `s`, or `None` where it
/// refuses: the start must lie within the string and begin a character, and the
/// end is cut to the string's length or must begin a character.
pub open spec fn slice_range(s: Seq<u8>, start: int, end: int) -> Option<(int, int)> {
    if start > end || start > s.len() {
        None
    } else if !starts_char(nul_padded(s)[start]) {
        None
    } else if end >= s.len() {
        Some((start, s.len() as int))
    } else if starts_char(s[end]) {
        Some((start, end))
    } else {
        None
    }
}

/// The part `start..end` of `s`, cut at character boundaries (see `slice_range`).
pub fn slice(s: &[u8], start: usize, end: usize) -> (r: Option<&[u8]>)
    ensures
        match slice_range(s@, start as int, end as int) {
            Some((a, b)) => r matches Some(t) && t@ == s@.subrange(a, b),
            None => r is None,
        },
{
    if start > end || start > s.len() {
        return None;
    }
    let b0 = byte_or_nul(s, start);
    if !(b0 < 0x80 || b0 >= 0xC0) {
        return None;
    }
    if end >= s.len() {
        Some(vstd::slice::slice_subrange(s, start, s.len()))
    } else if s[end] < 0x80 || s[end] >= 0xC0 {
        Some(vstd::slice::slice_subrange(s, start, end))
    } else {
        None
    }
}

// ---------------------------------------------------------------------------
// The first character of a NUL-terminated buffer

/// The code point that starts `bytes` (read as a NUL-terminated buffer), or
/// `u32::MAX` where they do not start with a well-formed UTF-8 scalar.
pub open spec fn spec_head(bytes: Seq<u8>) -> u32 {
    let p = nul_padded(bytes);
    if vstd::utf8::valid_first_scalar(p) {
        vstd::utf8::decode_first_scalar(p)
    } else {
        u32::MAX
    }
}

/// Decodes the first character of `bytes` (see `spec_head`).
pub fn head(bytes: &[u8]) -> (c: u32)
    ensures
        c == spec_head(bytes@),
{
    let b0 = byte_or_nul(bytes, 0);
    if b0 <= 0x7F {
        return (b0 & 0x7F) as u32;
    }
    let b1 = byte_or_nul(bytes, 1);
    if b0 >= 0xC0 && b0 <= 0xDF {
        if !(b1 >= 0x80 && b1 <= 0xBF) {
            return u32::MAX;
        }
        let code: u32 = (((b0 & 0x1F) as u32) << 6) | ((b1 & 0x3F) as u32);
        if code < 0x80 || (code >= 0xD800 && code <= 0xDFFF) {
            return u32::MAX;
        }
        return code;
    }
    let b2 = byte_or_nul(bytes, 2);
    if b0 >= 0xE0 && b0 <= 0xEF {
        if !(b1 >= 0x80 && b1 <= 0xBF && b2 >= 0x80 && b2 <= 0xBF) {
            return u32::MAX;
        }
        let code: u32 = (((b0 & 0x0F) as u32) << 12) | (((b1 & 0x3F) as u32) << 6) | ((b2
            & 0x3F) as u32);
        if code < 0x800 || (code >= 0xD800 && code <= 0xDFFF) {
            return u32::MAX;
        }
        return code;
    }
    let b3 = byte_or_nul(bytes, 3);
    if b0 >= 0xF0 && b0 <= 0xF7 {
        if !(b1 >= 0x80 && b1 <= 0xBF && b2 >= 0x80 && b2 <= 0xBF && b3 >= 0x80 && b3 <= 0xBF) {
            return u32::MAX;
        }
        let code: u32 = (((b0 & 0x07) as u32) << 18) | (((b1 & 0x3F) as u32) << 12) | (((b2
            & 0x3F) as u32) << 6) | ((b3 & 0x3F) as u32);
        if code < 0x10000 || code > 0x10FFFF || (code >= 0xD800 && code <= 0xDFFF) {
            return u32::MAX;
        }
        return code;
    }
    u32::MAX
}

proof fn lemma_first_scalar_padded(b: Seq<u8>, x: Seq<u8>)
    requires
        vstd::utf8::valid_first_scalar(b),
    ensures
        vstd::utf8::valid_first_scalar(b + x),
        vstd::utf8::decode_first_scalar(b + x) == vstd::utf8::decode_first_scalar(b),
{
    let y = b + x;
    assert(forall|i: int| 0 <= i < b.len() ==> y[i] == b[i]);
    if b.len() >= 4 {
        assert(y[0] == b[0] && y[1] == b[1] && y[2] == b[2] && y[3] == b[3]);
    } else if b.len() == 3 {
        assert(y[0] == b[0] && y[1] == b[1] && y[2] == b[2]);
    } else if b.len() == 2 {
        assert(y[0] == b[0] && y[1] == b[1]);
    } else {
        assert(y[0] == b[0]);
    }
}

/// Read from the UTF-8 encoding of a string, `head` gives back its first character;
/// from an empty string it gives the terminator, 0.
pub proof fn law_head_decodes_first_char(s: Seq<char>)
    ensures
        s.len() > 0 ==> spec_head(vstd::utf8::encode_utf8(s)) == s[0] as u32,
        s.len() == 0 ==> spec_head(vstd::utf8::encode_utf8(s)) == 0,
{
    if s.len() > 0 {
        vstd::utf8::encode_utf8_first_scalar(s);
        lemma_first_scalar_padded(vstd::utf8::encode_utf8(s), seq![0u8, 0u8, 0u8, 0u8]);
    } else {
        assert(vstd::utf8::encode_utf8(s) =~= Seq::<u8>::empty());
        let p = nul_padded(vstd::utf8::encode_utf8(s));
        assert(p[0] == 0);
        assert((0u8 & 0x7Fu8) == 0u8) by (bit_vector);
        assert(vstd::utf8::codepoint_width_1(p[0]) == 0);
    }
}

// ---------------------------------------------------------------------------
// Cursors: each `*_next` takes one piece off the front of a string slice and
// leaves the rest in it.

/// Takes the first character off `s`: its code point, or `u32::MAX` (with `s`
/// unchanged) where `s` is empty.
pub fn char_next(s: &mut &str) -> (c: u32)
    ensures
        old(s)@.len() == 0 ==> c == u32::MAX && final(s)@ == old(s)@,
        old(s)@.len() > 0 ==> c == old(s)@[0] as u32 && final(s)@ == old(s)@.skip(1),
{
    let n = (*s).unicode_len();
    if n == 0 {
        return u32::MAX;
    }
    let ch = (*s).get_char(0);
    *s = (*s).substring_char(1, n);
    assert(old(s)@.subrange(1, n as int) =~= old(s)@.skip(1));
    ch as u32
}

/// The first position at or after `i` that holds the byte `x`.
pub open spec fn find_byte_from(s: Seq<u8>, i: int, x: u8) -> Option<int>
    decreases s.len() - i,
{
    if i < 0 || i >= s.len() {
        None
    } else if s[i] == x {
        Some(i)
    } else {
        find_byte_from(s, i + 1, x)
    }
}

proof fn lemma_find_byte_from(s: Seq<u8>, i: int, x: u8)
    requires
        0 <= i,
    ensures
        find_byte_from(s, i, x) matches Some(j) ==> i <= j < s.len() && s[j] == x,
    decreases s.len() - i,
{
    if i < s.len() && s[i] != x {
        lemma_find_byte_from(s, i + 1, x);
    }
}

fn find_byte_from_exec(s: &[u8], i: usize, x: u8) -> (r: Option<usize>)
    requires
        i <= s@.len(),
    ensures
        r is None <==> find_byte_from(s@, i as int, x) is None,
        r matches Some(j) ==> find_byte_from(s@, i as int, x) == Some(j as int),
        r matches Some(j) ==> i <= j < s@.len() && s@[j as int] == x,
{
    let mut j = i;
    while j < s.len()
        invariant
            i <= j <= s@.len(),
            find_byte_from(s@, i as int, x) == find_byte_from(s@, j as int, x),
        decreases s@.len() - j,
    {
        if s[j] == x {
            return Some(j);
        }
        j = j + 1;
    }
    None
}

/// A line without its terminator: the line feed, and a carriage return before it.
pub open spec fn line_body(s: Seq<u8>, nl: int) -> Seq<u8> {
    if nl > 0 && s[nl - 1] == 0x0Du8 {
        s.subrange(0, nl - 1)
    } else {
        s.subrange(0, nl)
    }
}

/// The first line of `s` and what follows it, as byte-string line splitting gives
/// them: lines end at a line feed, which is dropped with a carriage return before
/// it; the last line needs no line feed. `None` for an empty string.
pub open spec fn spec_line_next(s: Seq<u8>) -> Option<(Seq<u8>, Seq<u8>)> {
    if s.len() == 0 {
        None
    } else {
        match find_byte_from(s, 0, 0x0Au8) {
            Some(nl) => Some((line_body(s, nl), s.subrange(nl + 1, s.len() as int))),
            None => Some((s, Seq::<u8>::empty())),
        }
    }
}

/// Takes the first line off `s` (see `spec_line_next`); at the end `s` is left empty.
pub fn line_next<'a>(s: &mut &'a [u8]) -> (r: Option<&'a [u8]>)
    ensures
        match spec_line_next(old(s)@) {
            Some((line, rest)) => r matches Some(l) && l@ == line && final(s)@ == rest,
            None => r is None && final(s)@.len() == 0,
        },
{
    let t: &'a [u8] = *s;
    if t.len() == 0 {
        return None;
    }
    proof {
        lemma_find_byte_from(t@, 0, 0x0Au8);
    }
    match find_byte_from_exec(t, 0, 0x0A) {
        Some(nl) => {
            let end = if nl > 0 && t[nl - 1] == 0x0D {
                nl - 1
            } else {
                nl
            };
            let line = vstd::slice::slice_subrange(t, 0, end);
            *s = vstd::slice::slice_subrange(t, nl + 1, t.len());
            Some(line)
        },
        None => {
            *s = vstd::slice::slice_subrange(t, t.len(), t.len());
            assert(t@.subrange(0, t@.len() as int) =~= t@);
            Some(vstd::slice::slice_subrange(t, 0, t.len()))
        },
    }
}

/// The piece of `s` before the first `c`, and what follows that `c` (nothing where
/// `c` does not occur). `None` for an empty string, or where `c` is no Unicode
/// scalar value.
pub open spec fn spec_split_char_next(s: Seq<char>, c: u32) -> Option<(Seq<char>, Seq<char>)> {
    if s.len() == 0 || !vstd::utf8::is_scalar(c) {
        None
    } else {
        match find_char_from(s, 0, c as char) {
            Some(i) => Some((s.take(i), s.skip(i + 1))),
            None => Some((s, Seq::<char>::empty())),
        }
    }
}

/// Takes the piece before the next `c` off `s` (see `spec_split_char_next`); where
/// there is none, `s` is left as it was.
pub fn split_char_next<'a>(s: &mut &'a str, c: u32) -> (r: Option<&'a str>)
    ensures
        match spec_split_char_next(old(s)@, c) {
            Some((piece, rest)) => r matches Some(p) && p@ == piece && final(s)@ == rest,
            None => r is None && final(s)@ == old(s)@,
        },
{
    let t: &'a str = *s;
    let n = t.unicode_len();
    if n == 0 {
        return None;
    }
    let ch = match char_from_u32(c) {
        Some(ch) => ch,
        None => {
            return None;
        },
    };
    let cs = str_chars(t);
    match find_char_from_exec(cs.as_slice(), 0, ch) {
        Some(i) => {
            let piece = t.substring_char(0, i);
            *s = t.substring_char(i + 1, n);
            assert(t@.subrange(0, i as int) =~= t@.take(i as int));
            assert(t@.subrange(i + 1, n as int) =~= t@.skip(i + 1));
            Some(piece)
        },
        None => {
            *s = t.substring_char(n, n);
            assert(t@.subrange(n as int, n as int) =~= Seq::<char>::empty());
            assert(t@.subrange(0, n as int) =~= t@);
            Some(t.substring_char(0, n))
        },
    }
}

/// The piece of `s` before the first occurrence of `pat`, and what follows that
/// occurrence (nothing where `pat` does not occur; an empty pattern occurs at the
/// start). `None` for an empty string.
pub open spec fn spec_split_str_next(s: Seq<char>, pat: Seq<char>) -> Option<(Seq<char>, Seq<char>)> {
    if s.len() == 0 {
        None
    } else {
        match find_pat_from(s, 0, pat) {
            Some(i) => Some((s.take(i), s.skip(i + pat.len()))),
            None => Some((s, Seq::<char>::empty())),
        }
    }
}

/// Takes the piece before the next `pat` off `s` (see `spec_split_str_next`); where
/// there is none, `s` is left as it was.
pub fn split_str_next<'a>(s: &mut &'a str, pat: &str) -> (r: Option<&'a str>)
    ensures
        match spec_split_str_next(old(s)@, pat@) {
            Some((piece, rest)) => r matches Some(p) && p@ == piece && final(s)@ == rest,
            None => r is None && final(s)@ == old(s)@,
        },
{
    let t: &'a str = *s;
    let n = t.unicode_len();
    if n == 0 {
        return None;
    }
    let cs = str_chars(t);
    let ps = str_chars(pat);
    match find_pat_from_exec(cs.as_slice(), 0, ps.as_slice()) {
        Some(i) => {
            let piece = t.substring_char(0, i);
            *s = t.substring_char(i + ps.len(), n);
            assert(t@.subrange(0, i as int) =~= t@.take(i as int));
            assert(t@.subrange(i + ps@.len(), n as int) =~= t@.skip(i + pat@.len()));
            Some(piece)
        },
        None => {
            *s = t.substring_char(n, n);
            assert(t@.subrange(n as int, n as int) =~= Seq::<char>::empty());
            assert(t@.subrange(0, n as int) =~= t@);
            Some(t.substring_char(0, n))
        },
    }
}

/// The number of characters in the first extended grapheme cluster of `s`, as the
/// `unicode-segmentation` crate finds it.
pub uninterp spec fn grapheme_len(s: Seq<char>) -> nat;

/// The number of characters in the first piece of `s` between word boundaries, as the
/// `unicode-segmentation` crate finds it.
pub uninterp spec fn word_bound_len(s: Seq<char>) -> nat;

/// Takes the first extended grapheme cluster of `s` with `unicode-segmentation`
/// (`graphemes(true)`, its first item, and `Graphemes::as_str` for what is left).
/// Claimed: there is a cluster exactly when `s` is not empty, it is not empty, and it
/// and what is left make up `s`. Where the clusters end is only named.
#[verifier::external_body]
fn first_grapheme<'a>(s: &'a str) -> (r: (Option<&'a str>, &'a str))
    ensures
        r.0 is None <==> s@.len() == 0,
        r.0 is None ==> r.1@.len() == 0,
        r.0 matches Some(g) ==> g@.len() > 0 && g@.len() == grapheme_len(s@) && s@ == g@ + r.1@,
{
    let mut it = s.graphemes(true);
    let g = it.next();
    (g, it.as_str())
}

/// Takes the first piece of `s` between word boundaries with `unicode-segmentation`
/// (`split_word_bounds`, its first item, and `UWordBounds::as_str` for what is left).
/// Claimed: there is a piece exactly when `s` is not empty, it is not empty, and it and
/// what is left make up `s`. Where the pieces end is only named.
#[verifier::external_body]
fn first_word_bound<'a>(s: &'a str) -> (r: (Option<&'a str>, &'a str))
    ensures
        r.0 is None <==> s@.len() == 0,
        r.0 is None ==> r.1@.len() == 0,
        r.0 matches Some(w) ==> w@.len() > 0 && w@.len() == word_bound_len(s@) && s@ == w@ + r.1@,
{
    let mut it = s.split_word_bounds();
    let w = it.next();
    (w, it.as_str())
}

/// Start and length, in characters, of the first word of `s` that the
/// `unicode-segmentation` crate gives (`unicode_words`: a piece between word boundaries
/// that holds a letter or a digit), or `None` where there is none.
pub uninterp spec fn first_word_span(s: Seq<char>) -> Option<(nat, nat)>;

/// Finds the first word of `s` with `unicode-segmentation` (`unicode_word_indices`, its
/// first item) and gives it with what follows it (by `str::split_at` at the word's byte
/// offset and length). Claimed: the word is a non-empty piece of `s` and what follows
/// it is the rest of `s`. Where words lie is only named.
#[verifier::external_body]
fn first_unicode_word<'a>(s: &'a str) -> (r: Option<(&'a str, &'a str)>)
    ensures
        match first_word_span(s@) {
            None => r is None,
            Some((a, n)) => r matches Some((w, rest)) && n > 0 && a + n <= s@.len() && w@
                == s@.subrange(a as int, (a + n) as int) && rest@ == s@.skip((a + n) as int),
        },
{
    match s.unicode_word_indices().next() {
        Some((off, w)) => {
            let (_, tail) = s.split_at(off);
            let (_, rest) = tail.split_at(w.len());
            Some((w, rest))
        },
        None => None,
    }
}

/// Takes the next word off `s`, with whatever comes before it (see `first_word_span`);
/// where there is none, `s` is left empty.
pub fn unicode_words_next<'a>(s: &mut &'a str) -> (r: Option<&'a str>)
    ensures
        first_word_span(old(s)@) is None ==> r is None && final(s)@.len() == 0,
        first_word_span(old(s)@) matches Some((a, n)) ==> (r matches Some(w) && w@ == old(s)@.subrange(
            a as int,
            (a + n) as int,
        )) && final(s)@ == old(s)@.skip((a + n) as int),
{
    let t: &'a str = *s;
    match first_unicode_word(t) {
        Some((w, rest)) => {
            *s = rest;
            Some(w)
        },
        None => {
            let n = t.unicode_len();
            *s = t.substring_char(n, n);
            None
        },
    }
}

/// Takes the first extended grapheme cluster off `s` (see `grapheme_len`); at the end
/// `s` is left empty.
pub fn graphemes_next<'a>(s: &mut &'a str) -> (r: Option<&'a str>)
    ensures
        old(s)@.len() == 0 ==> r is None && final(s)@.len() == 0,
        old(s)@.len() > 0 ==> 0 < grapheme_len(old(s)@) <= old(s)@.len() && (r matches Some(g) && g@
            == old(s)@.take(grapheme_len(old(s)@) as int)) && final(s)@ == old(s)@.skip(
            grapheme_len(old(s)@) as int,
        ),
{
    let (g, rest) = first_grapheme(*s);
    proof {
        if let Some(x) = g {
            assert(old(s)@.take(x@.len() as int) =~= x@);
            assert(old(s)@.skip(x@.len() as int) =~= rest@);
        }
    }
    *s = rest;
    g
}

/// Takes the first piece between word boundaries off `s` (see `word_bound_len`); at the
/// end `s` is left empty.
pub fn split_word_bounds_next<'a>(s: &mut &'a str) -> (r: Option<&'a str>)
    ensures
        old(s)@.len() == 0 ==> r is None && final(s)@.len() == 0,
        old(s)@.len() > 0 ==> 0 < word_bound_len(old(s)@) <= old(s)@.len() && (r matches Some(w)
            && w@ == old(s)@.take(word_bound_len(old(s)@) as int)) && final(s)@ == old(s)@.skip(
            word_bound_len(old(s)@) as int,
        ),
{
    let (w, rest) = first_word_bound(*s);
    proof {
        if let Some(x) = w {
            assert(old(s)@.take(x@.len() as int) =~= x@);
            assert(old(s)@.skip(x@.len() as int) =~= rest@);
        }
    }
    *s = rest;
    w
}

/// The bytes that ASCII white-space splitting and trimming treat as space: space,
/// tab, line feed, form feed, carriage return.
pub open spec fn is_space_byte(b: u8) -> bool {
    b == 0x20 || b == 0x09 || b == 0x0A || b == 0x0C || b == 0x0D
}

fn is_space_byte_exec(b: u8) -> (r: bool)
    ensures
        r == is_space_byte(b),
{
    b == 0x20 || b == 0x09 || b == 0x0A || b == 0x0C || b == 0x0D
}

/// The first position at or after `i` that is not a space byte (or the end).
pub open spec fn skip_spaces(s: Seq<u8>, i: int) -> int
    decreases s.len() - i,
{
    if 0 <= i < s.len() && is_space_byte(s[i]) {
        skip_spaces(s, i + 1)
    } else {
        i
    }
}

/// The first position at or after `i` that is a space byte (or the end).
pub open spec fn skip_word(s: Seq<u8>, i: int) -> int
    decreases s.len() - i,
{
    if 0 <= i < s.len() && !is_space_byte(s[i]) {
        skip_word(s, i + 1)
    } else {
        i
    }
}

proof fn lemma_skip_bounds(s: Seq<u8>, i: int)
    requires
        0 <= i <= s.len(),
    ensures
        i <= skip_spaces(s, i) <= s.len(),
        i <= skip_word(s, i) <= s.len(),
        skip_spaces(s, i) < s.len() ==> !is_space_byte(s[skip_spaces(s, i)]),
    decreases s.len() - i,
{
    if i < s.len() {
        lemma_skip_bounds(s, i + 1);
    }
}

fn skip_spaces_exec(s: &[u8], i: usize) -> (r: usize)
    requires
        i <= s@.len(),
    ensures
        r == skip_spaces(s@, i as int),
{
    let mut j = i;
    while j < s.len() && is_space_byte_exec(s[j])
        invariant
            i <= j <= s@.len(),
            skip_spaces(s@, i as int) == skip_spaces(s@, j as int),
        decreases s@.len() - j,
    {
        j = j + 1;
    }
    j
}

fn skip_word_exec(s: &[u8], i: usize) -> (r: usize)
    requires
        i <= s@.len(),
    ensures
        r == skip_word(s@, i as int),
{
    let mut j = i;
    while j < s.len() && !is_space_byte_exec(s[j])
        invariant
            i <= j <= s@.len(),
            skip_word(s@, i as int) == skip_word(s@, j as int),
        decreases s@.len() - j,
    {
        j = j + 1;
    }
    j
}

/// The first word of `s` (a run of bytes other than space bytes, after any leading
/// ones) and what is left after the step that `split_spaces_next` takes: the distance
/// from the word's start to the next word's start, counted from the start of `s`,
/// or the whole of `s` where no word follows. `None` where `s` has no word.
pub open spec fn spec_split_spaces_next(s: Seq<u8>) -> Option<(Seq<u8>, Seq<u8>)> {
    let k = skip_spaces(s, 0);
    if k >= s.len() {
        None
    } else {
        let e = skip_word(s, k);
        let m = skip_spaces(s, e);
        let step = if m < s.len() {
            m - k
        } else {
            s.len() as int
        };
        Some((s.subrange(k, e), s.subrange(step, s.len() as int)))
    }
}

/// Takes the next word off `s` (see `spec_split_spaces_next`); where there is none,
/// `s` is left empty.
pub fn split_spaces_next<'a>(s: &mut &'a [u8]) -> (r: Option<&'a [u8]>)
    ensures
        match spec_split_spaces_next(old(s)@) {
            Some((word, rest)) => r matches Some(w) && w@ == word && final(s)@ == rest,
            None => r is None && final(s)@.len() == 0,
        },
{
    let t: &'a [u8] = *s;
    proof {
        lemma_skip_bounds(t@, 0);
    }
    let k = skip_spaces_exec(t, 0);
    if k >= t.len() {
        *s = vstd::slice::slice_subrange(t, t.len(), t.len());
        return None;
    }
    proof {
        lemma_skip_bounds(t@, k as int);
    }
    let e = skip_word_exec(t, k);
    proof {
        lemma_skip_bounds(t@, e as int);
    }
    let m = skip_spaces_exec(t, e);
    let step = if m < t.len() {
        m - k
    } else {
        t.len()
    };
    let word = vstd::slice::slice_subrange(t, k, e);
    *s = vstd::slice::slice_subrange(t, step, t.len());
    Some(word)
}

/// The end of `s` once the space bytes before `j` (and after `a`) are dropped.
pub open spec fn trim_end_from(s: Seq<u8>, a: int, j: int) -> int
    decreases j - a,
{
    if j > a && is_space_byte(s[j - 1]) {
        trim_end_from(s, a, j - 1)
    } else {
        j
    }
}

/// The byte range that `trim_ascii_spaces` keeps: leading space bytes dropped
/// where `left` is set, then trailing ones where `right` is set.
pub open spec fn trim_range(s: Seq<u8>, left: bool, right: bool) -> (int, int) {
    let a = if left {
        skip_spaces(s, 0)
    } else {
        0
    };
    let b = if right {
        trim_end_from(s, a, s.len() as int)
    } else {
        s.len() as int
    };
    (a, b)
}

/// `s` with ASCII white space trimmed on the sides asked for (see `trim_range`).
pub fn trim_ascii_spaces(s: &[u8], left: bool, right: bool) -> (r: &[u8])
    ensures
        r@ == s@.subrange(trim_range(s@, left, right).0, trim_range(s@, left, right).1),
{
    proof {
        lemma_skip_bounds(s@, 0);
    }
    let a = if left {
        skip_spaces_exec(s, 0)
    } else {
        0
    };
    let mut b = s.len();
    if right {
        while b > a && is_space_byte_exec(s[b - 1])
            invariant
                a <= b <= s@.len(),
                trim_end_from(s@, a as int, s@.len() as int) == trim_end_from(s@, a as int, b as int),
            decreases b - a,
        {
            b = b - 1;
        }
    }
    vstd::slice::slice_subrange(s, a, b)
}

/// Every piece that a cursor takes off leaves a shorter string, so taking pieces
/// until none is left comes to an end.
pub proof fn law_cursors_consume(b: Seq<u8>, s: Seq<char>, c: u32)
    ensures
        spec_line_next(b) matches Some((_l, rest)) ==> rest.len() < b.len(),
        spec_split_spaces_next(b) matches Some((_w, rest)) ==> rest.len() < b.len(),
        spec_split_char_next(s, c) matches Some((_p, rest)) ==> rest.len() < s.len(),
{
    lemma_find_byte_from(b, 0, 0x0Au8);
    lemma_skip_bounds(b, 0);
    let k = skip_spaces(b, 0);
    if k < b.len() {
        lemma_skip_bounds(b, k + 1);
        assert(skip_word(b, k) == skip_word(b, k + 1));
        lemma_skip_bounds(b, skip_word(b, k));
    }
    crate::scan::lemma_find_char_from_bounds(s, 0, c as char);
}

/// With a non-empty pattern, `split_str_next` leaves a shorter string too; with an
/// empty one it takes an empty piece and leaves the string as it was.
pub proof fn law_split_str_consumes(s: Seq<char>, pat: Seq<char>)
    ensures
        pat.len() > 0 ==> (spec_split_str_next(s, pat) matches Some((_p, rest)) ==> rest.len()
            < s.len()),
        pat.len() == 0 && s.len() > 0 ==> spec_split_str_next(s, pat) == Some(
            (Seq::<char>::empty(), s),
        ),
{
    crate::scan::lemma_find_pat_from_bounds(s, 0, pat);
    if pat.len() == 0 && s.len() > 0 {
        assert(s.subrange(0, 0) =~= pat);
        assert(crate::text::has_at(s, 0, pat));
        assert(s.take(0) =~= Seq::<char>::empty());
        assert(s.skip(0) =~= s);
    }
}

// ---------------------------------------------------------------------------
// Code points

/// A script's integer taken as a code point: clamped into the range of `u32`.
pub fn from_i64(n: i64) -> (r: u32)
    ensures
        r == (if n < 0 {
            0
        } else if n > u32::MAX {
            u32::MAX as int
        } else {
            n as int
        }),
{
    if n < 0 {
        0
    } else if n > 0xFFFF_FFFF {
        u32::MAX
    } else {
        let u = n as u32;
        match char_from_u32(u) {
            Some(c) => c as u32,
            None => u,
        }
    }
}

/// Whether `n` is a Unicode scalar value.
pub fn is_valid(n: u32) -> (r: bool)
    ensures
        r == vstd::utf8::is_scalar(n),
{
    char_from_u32(n).is_some()
}

/// Whether `c` has the Unicode property Alphabetic, as `char::is_alphabetic` reports it.
pub uninterp spec fn alphabetic(c: char) -> bool;

/// Whether `c` has a numeric general category (Nd, Nl or No), as `char::is_numeric`
/// reports it.
pub uninterp spec fn numeric(c: char) -> bool;

/// Calls `char::is_alphabetic`, whose answer comes from the Unicode tables of the
/// standard library; the contract names it and states no more.
#[verifier::external_body]
fn char_is_alphabetic(c: char) -> (b: bool)
    ensures
        b == alphabetic(c),
{
    c.is_alphabetic()
}

/// Calls `char::is_numeric`, whose answer comes from the Unicode tables of the
/// standard library; the contract names it and states no more.
#[verifier::external_body]
fn char_is_numeric(c: char) -> (b: bool)
    ensures
        b == numeric(c),
{
    c.is_numeric()
}

/// Whether `n` is a Unicode scalar value of an alphabetic character.
pub fn is_alphabetic(n: u32) -> (r: bool)
    ensures
        r == (vstd::utf8::is_scalar(n) && alphabetic(n as char)),
{
    match char_from_u32(n) {
        Some(c) => char_is_alphabetic(c),
        None => false,
    }
}

/// Whether `n` is a Unicode scalar value of a numeric character.
pub fn is_numeric(n: u32) -> (r: bool)
    ensures
        r == (vstd::utf8::is_scalar(n) && numeric(n as char)),
{
    match char_from_u32(n) {
        Some(c) => char_is_numeric(c),
        None => false,
    }
}

/// The number of bytes that the UTF-8 encoding of `n` takes, 0 where `n` is no
/// Unicode scalar value.
pub fn len_utf8(n: u32) -> (r: usize)
    ensures
        vstd::utf8::is_scalar(n) ==> r == vstd::utf8::encode_scalar(n).len(),
        !vstd::utf8::is_scalar(n) ==> r == 0,
{
    match char_from_u32(n) {
        Some(c) => {
            proof {
                crate::text::lemma_char_encoding_len(c);
            }
            utf8_char_len(c)
        },
        None => 0,
    }
}

/// Writes the UTF-8 encoding of `n` at the start of `buf` and returns `true`; where
/// `n` is no Unicode scalar value, leaves `buf` as it was and returns `false`.
pub fn encode_utf8(n: u32, buf: &mut [u8; 5]) -> (r: bool)
    ensures
        r == vstd::utf8::is_scalar(n),
        r ==> final(buf)@ == vstd::utf8::encode_scalar(n) + old(buf)@.skip(
            vstd::utf8::encode_scalar(n).len() as int,
        ),
        !r ==> final(buf)@ == old(buf)@,
{
    if char_from_u32(n).is_none() {
        return false;
    }
    let ghost old_buf = buf@;
    if n <= 0x7F {
        buf[0] = (n & 0x7F) as u8;
        assert(buf@ =~= vstd::utf8::encode_scalar(n) + old_buf.skip(1));
    } else if n <= 0x7FF {
        buf[0] = 0xC0 | ((n >> 6) & 0x1F) as u8;
        buf[1] = 0x80 | (n & 0x3F) as u8;
        assert(buf@ =~= vstd::utf8::encode_scalar(n) + old_buf.skip(2));
    } else if n <= 0xFFFF {
        buf[0] = 0xE0 | ((n >> 12) & 0x0F) as u8;
        buf[1] = 0x80 | ((n >> 6) & 0x3F) as u8;
        buf[2] = 0x80 | (n & 0x3F) as u8;
        assert(buf@ =~= vstd::utf8::encode_scalar(n) + old_buf.skip(3));
    } else {
        buf[0] = 0xF0 | ((n >> 18) & 0x7) as u8;
        buf[1] = 0x80 | ((n >> 12) & 0x3F) as u8;
        buf[2] = 0x80 | ((n >> 6) & 0x3F) as u8;
        buf[3] = 0x80 | (n & 0x3F) as u8;
        assert(buf@ =~= vstd::utf8::encode_scalar(n) + old_buf.skip(4));
    }
    true
}

} // verus!
