use vstd::prelude::*;

use crate::page::{lemma_positional_prefix_le, lemma_positional_step, positional};
use crate::scan::{
    char_from_u32, find_char_from, find_char_from_exec, find_pat_from, find_pat_from_exec, hex_value,
    hex_value_exec, lemma_byte_len_ge_len,
};
use crate::text::{byte_len, lemma_byte_len_push, str_chars, string_from_chars, utf8_char_len};

verus! {

/// Why a text with `\u` escapes was refused.
#[derive(Debug, Clone, Copy, PartialEq, Eq, Structural)]
pub enum EscapeError {
    /// The digits after `\u` are not a hexadecimal number that fits in `u32`.
    InvalidNumber,
    /// The number is not the code of a character.
    InvalidChar,
}

/// The digits of a hexadecimal number: without a leading `+`.
pub open spec fn hex_body(t: Seq<char>) -> Seq<char> {
    if t.len() > 0 && t[0] == '+' {
        t.drop_first()
    } else {
        t
    }
}

/// The value of a hexadecimal number as `u32::from_str_radix` reads it: an optional `+`,
/// then hexadecimal digits, of a value that fits in `u32`.
pub open spec fn hex_u32(t: Seq<char>) -> Option<u32> {
    let d = hex_body(t);
    if d.len() == 0 || exists|i: int| 0 <= i < d.len() && #[trigger] hex_value(d[i]) is None {
        None
    } else {
        let v = positional(Seq::new(d.len(), |i: int| hex_value(d[i])->0), 16);
        if v > u32::MAX {
            None
        } else {
            Some(v as u32)
        }
    }
}

/// The number after `\u` without braces: four characters, or all that remain where they
/// take fewer than four bytes; with the number of characters it takes.
pub open spec fn short_escape(rest: Seq<char>) -> Option<(u32, int)> {
    if rest.len() >= 4 && hex_u32(rest.take(4)) is Some {
        Some((hex_u32(rest.take(4))->0, 4))
    } else if byte_len(rest) < 4 && hex_u32(rest) is Some {
        Some((hex_u32(rest)->0, rest.len() as int))
    } else {
        None
    }
}

/// The character with code `n`, if any.
pub open spec fn char_of(n: u32) -> Option<char> {
    if vstd::utf8::is_scalar(n) {
        Some(n as char)
    } else {
        None
    }
}

/// `s` after `acc`, with each `\u{X}` and `\uXXXX` replaced by the character with the
/// hexadecimal code X; a `\u` at the end, or a `\u{` without a closing brace, stays.
pub open spec fn unescape(s: Seq<char>, acc: Seq<char>) -> Result<Seq<char>, EscapeError>
    decreases s.len(),
{
    match find_pat_from(s, 0, seq!['\\', 'u']) {
        None => Ok(acc + s),
        Some(idx) => {
            let head = acc + s.take(idx);
            let rest = s.skip(idx + 2);
            if idx < 0 || idx + 2 > s.len() {
                Ok(acc + s)
            } else if rest.len() == 0 {
                Ok(head + seq!['\\', 'u'])
            } else if rest[0] == '{' {
                match find_char_from(rest, 0, '}') {
                    None => Ok(head + seq!['\\', 'u'] + rest),
                    Some(j) => if j < 1 || j >= rest.len() {
                        Ok(head + seq!['\\', 'u'] + rest)
                    } else {
                        match hex_u32(rest.subrange(1, j)) {
                            None => Err(EscapeError::InvalidNumber),
                            Some(n) => match char_of(n) {
                                None => Err(EscapeError::InvalidChar),
                                Some(c) => unescape(rest.skip(j + 1), head.push(c)),
                            },
                        }
                    },
                }
            } else {
                match short_escape(rest) {
                    None => Err(EscapeError::InvalidNumber),
                    Some((n, used)) => match char_of(n) {
                        None => Err(EscapeError::InvalidChar),
                        Some(c) => if used < 1 || used > rest.len() {
                            Err(EscapeError::InvalidNumber)
                        } else {
                            unescape(rest.skip(used), head.push(c))
                        },
                    },
                }
            }
        },
    }
}

fn hex_u32_exec(t: &Vec<char>, from: usize, to: usize) -> (r: Option<u32>)
    requires
        from <= to <= t@.len(),
    ensures
        r == hex_u32(t@.subrange(from as int, to as int)),
{
    let ghost tt = t@.subrange(from as int, to as int);
    let start = if from < to && t[from] == '+' {
        from + 1
    } else {
        from
    };
    let ghost d = hex_body(tt);
    assert(d =~= t@.subrange(start as int, to as int));
    if start >= to {
        return None;
    }
    let ghost ds = Seq::new(d.len(), |i: int| hex_value(d[i])->0);
    let mut value: u32 = 0;
    let mut i: usize = start;
    assert(ds.take(0) =~= Seq::<int>::empty());
    while i < to
        invariant
            start <= i <= to <= t@.len(),
            d == t@.subrange(start as int, to as int),
            d == hex_body(tt),
            tt == t@.subrange(from as int, to as int),
            d.len() > 0,
            ds == Seq::new(d.len(), |i: int| hex_value(d[i])->0),
            forall|k: int| 0 <= k < i - start ==> #[trigger] hex_value(d[k]) is Some,
            value == positional(ds.take(i - start), 16),
        decreases to - i,
    {
        let h = hex_value_exec(t[i]);
        assert(d[i - start] == t@[i as int]);
        match h {
            None => {
                return None;
            },
            Some(v) => {
                let ghost k = i - start;
                assert(hex_value(d[k]) is Some);
                proof {
                    assert(forall|q: int| 0 <= q < k + 1 ==> #[trigger] hex_value(d[q]) is Some);
                    lemma_positional_step(ds, 16, k);
                    assert(ds[k] == v);
                }
                match value.checked_mul(16) {
                    None => {
                        proof {
                            lemma_hex_prefix_bound(d, ds, k + 1);
                        }
                        return None;
                    },
                    Some(m) => match m.checked_add(v) {
                        None => {
                            proof {
                                lemma_hex_prefix_bound(d, ds, k + 1);
                            }
                            return None;
                        },
                        Some(w) => {
                            value = w;
                        },
                    },
                }
            },
        }
        i = i + 1;
    }
    assert(ds.take(d.len() as int) =~= ds);
    Some(value)
}

proof fn lemma_hex_prefix_bound(d: Seq<char>, ds: Seq<int>, k: int)
    requires
        0 <= k <= d.len(),
        ds == Seq::new(d.len(), |i: int| hex_value(d[i])->0),
    ensures
        (forall|i: int| 0 <= i < d.len() ==> #[trigger] hex_value(d[i]) is Some) ==> positional(ds.take(k), 16)
            <= positional(ds, 16),
{
    if forall|i: int| 0 <= i < d.len() ==> #[trigger] hex_value(d[i]) is Some {
        assert forall|j: int| 0 <= j < ds.len() implies ds[j] >= 0 by {
            assert(hex_value(d[j]) is Some);
        }
        lemma_positional_prefix_le(ds, 16, k);
    }
}

fn char_of_exec(n: u32) -> (r: Option<char>)
    ensures
        r == char_of(n),
{
    let r = char_from_u32(n);
    r
}

proof fn lemma_find_pat_shift(cs: Seq<char>, p: int, pat: Seq<char>, i: int)
    requires
        0 <= p <= i,
        p <= cs.len(),
    ensures
        find_pat_from(cs.skip(p), i - p, pat) == (match find_pat_from(cs, i, pat) {
            Some(x) => Some(x - p),
            None => None,
        }),
    decreases cs.len() + 1 - i,
{
    let r = cs.skip(p);
    if i + pat.len() <= cs.len() {
        assert(r.subrange(i - p, i - p + pat.len()) =~= cs.subrange(i, i + pat.len()));
        if !crate::text::has_at(cs, i, pat) {
            lemma_find_pat_shift(cs, p, pat, i + 1);
        }
    }
}

proof fn lemma_find_char_shift(cs: Seq<char>, p: int, c: char, i: int)
    requires
        0 <= p <= i,
        p <= cs.len(),
    ensures
        find_char_from(cs.skip(p), i - p, c) == (match find_char_from(cs, i, c) {
            Some(x) => Some(x - p),
            None => None,
        }),
    decreases cs.len() - i,
{
    if i < cs.len() && cs[i] != c {
        lemma_find_char_shift(cs, p, c, i + 1);
    }
}

fn push_range(out: &mut Vec<char>, cs: &Vec<char>, from: usize, to: usize)
    requires
        from <= to <= cs@.len(),
    ensures
        final(out)@ == old(out)@ + cs@.subrange(from as int, to as int),
{
    let ghost start = out@;
    let mut k = from;
    while k < to
        invariant
            from <= k <= to <= cs@.len(),
            out@ == start + cs@.subrange(from as int, k as int),
        decreases to - k,
    {
        out.push(cs[k]);
        k = k + 1;
        assert(out@ =~= start + cs@.subrange(from as int, k as int));
    }
}

/// Replaces the `\u{X}` and `\uXXXX` escapes of `s` by the characters with those hexadecimal
/// codes (see `unescape`); a text without `\u` comes back unchanged.
pub fn normalize_unicode_escape(s: &str) -> (r: Result<String, EscapeError>)
    ensures
        match unescape(s@, Seq::empty()) {
            Ok(t) => r matches Ok(u) && u@ == t,
            Err(e) => r == Err::<String, EscapeError>(e),
        },
{
    let cs = str_chars(s);
    let n = cs.len();
    let mut pat: Vec<char> = Vec::new();
    pat.push('\\');
    pat.push('u');
    assert(pat@ =~= seq!['\\', 'u']);
    let mut out: Vec<char> = Vec::new();
    let mut pos: usize = 0;
    assert(cs@.skip(0) =~= cs@);
    assert(out@ =~= Seq::<char>::empty());
    loop
        invariant
            cs@ == s@,
            n == cs@.len(),
            pat@ == seq!['\\', 'u'],
            pos <= n,
            unescape(s@, Seq::empty()) == unescape(cs@.skip(pos as int), out@),
        decreases n - pos,
    {
        let ghost rem = cs@.skip(pos as int);
        let ghost acc = out@;
        proof {
            lemma_find_pat_shift(cs@, pos as int, pat@, pos as int);
        }
        let j = match find_pat_from_exec(cs.as_slice(), pos, pat.as_slice()) {
            None => {
                push_range(&mut out, &cs, pos, n);
                assert(cs@.subrange(pos as int, n as int) =~= rem);
                return Ok(string_from_chars(out.as_slice()));
            },
            Some(j) => j,
        };
        let ghost idx = j - pos;
        push_range(&mut out, &cs, pos, j);
        assert(rem.take(idx) =~= cs@.subrange(pos as int, j as int));
        let ghost rest = rem.skip(idx + 2);
        assert(rest =~= cs@.skip(j + 2));
        if j + 2 == n {
            out.push('\\');
            out.push('u');
            assert(out@ =~= acc + rem.take(idx) + seq!['\\', 'u']);
            return Ok(string_from_chars(out.as_slice()));
        }
        let b = j + 2;
        assert(rest[0] == cs@[b as int]);
        if cs[b] == '{' {
            proof {
                lemma_find_char_shift(cs@, b as int, '}', b as int);
            }
            match find_char_from_exec(cs.as_slice(), b, '}') {
                None => {
                    out.push('\\');
                    out.push('u');
                    let ghost mid = out@;
                    push_range(&mut out, &cs, b, n);
                    assert(cs@.subrange(b as int, n as int) =~= rest);
                    assert(out@ =~= acc + rem.take(idx) + seq!['\\', 'u'] + rest);
                    return Ok(string_from_chars(out.as_slice()));
                },
                Some(k) => {
                    assert(k > b);
                    assert(rest.subrange(1, k - b) =~= cs@.subrange(b + 1, k as int));
                    match hex_u32_exec(&cs, b + 1, k) {
                        None => {
                            return Err(EscapeError::InvalidNumber);
                        },
                        Some(v) => match char_of_exec(v) {
                            None => {
                                return Err(EscapeError::InvalidChar);
                            },
                            Some(c) => {
                                out.push(c);
                                assert(rest.skip(k - b + 1) =~= cs@.skip(k + 1));
                                assert(out@ =~= (acc + rem.take(idx)).push(c));
                                pos = k + 1;
                            },
                        },
                    }
                },
            }
        } else {
            let mut used: usize = 0;
            let mut value: u32 = 0;
            if n - b >= 4 {
                assert(rest.take(4) =~= cs@.subrange(b as int, b + 4));
                match hex_u32_exec(&cs, b, b + 4) {
                    Some(v) => {
                        used = 4;
                        value = v;
                    },
                    None => {},
                }
            }
            if used == 0 {
                let mut bytes: usize = 0;
                let mut q = b;
                let short = n - b < 4;
                if short {
                    while q < n
                        invariant
                            b <= q <= n,
                            n - b < 4,
                            n == cs@.len(),
                            bytes <= 4 * (q - b),
                            bytes == byte_len(cs@.subrange(b as int, q as int)),
                        decreases n - q,
                    {
                        proof {
                            let t = cs@.subrange(b as int, n as int);
                            lemma_byte_len_push(t, q - b);
                            assert(t.take(q - b) =~= cs@.subrange(b as int, q as int));
                            assert(t.take(q - b + 1) =~= cs@.subrange(b as int, q + 1));
                        }
                        bytes = bytes + utf8_char_len(cs[q]);
                        q = q + 1;
                    }
                    assert(cs@.subrange(b as int, n as int) =~= rest);
                } else {
                    proof {
                        lemma_byte_len_ge_len(rest);
                    }
                }
                if short && bytes < 4 {
                    assert(cs@.subrange(b as int, n as int) =~= rest);
                    match hex_u32_exec(&cs, b, n) {
                        Some(v) => {
                            used = n - b;
                            value = v;
                        },
                        None => {},
                    }
                }
            }
            if used == 0 {
                return Err(EscapeError::InvalidNumber);
            }
            match char_of_exec(value) {
                None => {
                    return Err(EscapeError::InvalidChar);
                },
                Some(c) => {
                    out.push(c);
                    assert(rest.skip(used as int) =~= cs@.skip(b + used));
                    assert(out@ =~= (acc + rem.take(idx)).push(c));
                    pos = b + used;
                },
            }
        }
    }
}

/// A text without `\u` comes back unchanged.
pub proof fn law_unescape_plain_text(s: Seq<char>)
    requires
        find_pat_from(s, 0, seq!['\\', 'u']) is None,
    ensures
        unescape(s, Seq::empty()) == Ok::<Seq<char>, EscapeError>(s),
{
    assert(Seq::<char>::empty() + s =~= s);
}

} // verus!
