use vstd::prelude::*;

use crate::text::str_chars;

verus! {

/// The numbering system of a page number.
#[allow(non_camel_case_types)]
#[derive(Debug, Clone, Copy, PartialEq, Eq, Structural)]
pub enum IndexPageKind {
    /// Arabic number, 0~9.
    Arabic,
    /// Lowercase roman number, i=1,v=5,x=10,l=50,c=100,d=500,m=1000.
    roman,
    /// Uppercase roman number, I=1,V=5,X=10,L=50,C=100,D=500,M=1000.
    Roman,
    /// Lowercase latin number, a-z.
    alpha,
    /// Uppercase latin number, A-Z.
    Alpha,
    /// Chinese digit string, such as 一零五 or 一〇五.
    ZhDigits,
    /// Chinese number, such as 一百零五.
    ZhNumber,
}

/// One component of a page number: its numbering system and its value.
#[derive(Debug, Clone, Copy, PartialEq, Eq, Structural)]
pub struct IndexPage {
    pub kind: IndexPageKind,
    pub value: u64,
}

/// Why a page number was refused.
#[derive(Debug, Clone, Copy, PartialEq, Eq, Structural)]
pub enum PageError {
    /// The page string is empty.
    Empty,
    /// An arabic number that does not fit in `u64`.
    ArabicOverflow,
    /// Letters of both cases.
    MixedCase,
    /// More than three `C` in a row in a roman number.
    RomanTooManyC,
    /// More than three `X` in a row in a roman number.
    RomanTooManyX,
    /// More than three `I` in a row in a roman number.
    RomanTooManyI,
    /// Roman letters in an order that is not a roman number.
    RomanInvalid,
    /// A roman number that does not fit in `u64`.
    RomanOverflow,
    /// A letter sequence whose value does not fit in `u64`.
    AlphaOverflow,
    /// A chinese digit string whose value does not fit in `u64`.
    ZhDigitsOverflow,
    /// Characters that form no known kind of page number.
    Invalid,
}

impl IndexPage {
    #[allow(non_snake_case)]
    pub fn Arabic(value: u64) -> (p: Self)
        ensures
            p == (IndexPage { kind: IndexPageKind::Arabic, value }),
    {
        IndexPage { kind: IndexPageKind::Arabic, value }
    }

    #[allow(non_snake_case)]
    pub fn roman(value: u64) -> (p: Self)
        ensures
            p == (IndexPage { kind: IndexPageKind::roman, value }),
    {
        IndexPage { kind: IndexPageKind::roman, value }
    }

    #[allow(non_snake_case)]
    pub fn Roman(value: u64) -> (p: Self)
        ensures
            p == (IndexPage { kind: IndexPageKind::Roman, value }),
    {
        IndexPage { kind: IndexPageKind::Roman, value }
    }

    #[allow(non_snake_case)]
    pub fn alpha(value: u64) -> (p: Self)
        ensures
            p == (IndexPage { kind: IndexPageKind::alpha, value }),
    {
        IndexPage { kind: IndexPageKind::alpha, value }
    }

    #[allow(non_snake_case)]
    pub fn Alpha(value: u64) -> (p: Self)
        ensures
            p == (IndexPage { kind: IndexPageKind::Alpha, value }),
    {
        IndexPage { kind: IndexPageKind::Alpha, value }
    }

    #[allow(non_snake_case)]
    pub fn ZhDigits(value: u64) -> (p: Self)
        ensures
            p == (IndexPage { kind: IndexPageKind::ZhDigits, value }),
    {
        IndexPage { kind: IndexPageKind::ZhDigits, value }
    }

    #[allow(non_snake_case)]
    pub fn ZhNumber(value: u64) -> (p: Self)
        ensures
            p == (IndexPage { kind: IndexPageKind::ZhNumber, value }),
    {
        IndexPage { kind: IndexPageKind::ZhNumber, value }
    }

    /// The value of the page number.
    pub fn as_u64(&self) -> (v: u64)
        ensures
            v == self.value,
    {
        self.value
    }

    /// The name of the kind and the value.
    pub fn as_kind(&self) -> (r: (&'static str, u64))
        ensures
            r.0@ == kind_name(self.kind),
            r.1 == self.value,
    {
        match self.kind {
            IndexPageKind::Arabic => ("Arabic", self.value),
            IndexPageKind::roman => ("roman", self.value),
            IndexPageKind::Roman => ("Roman", self.value),
            IndexPageKind::alpha => ("alpha", self.value),
            IndexPageKind::Alpha => ("Alpha", self.value),
            IndexPageKind::ZhDigits => ("ZhDigits", self.value),
            IndexPageKind::ZhNumber => ("ZhNumber", self.value),
        }
    }

    /// Parses a page number (the `FromStr` of the page type).
    pub fn parse(s: &str) -> (r: Result<IndexPage, PageError>)
        ensures
            r == spec_parse_page(s@),
    {
        let cs = str_chars(s);
        parse_page_chars(&cs)
    }
}

impl core::str::FromStr for IndexPage {
    type Err = PageError;

    fn from_str(s: &str) -> (r: Result<IndexPage, PageError>)
        ensures
            r == spec_parse_page(s@),
    {
        IndexPage::parse(s)
    }
}

/// The name of a kind of page number.
pub open spec fn kind_name(k: IndexPageKind) -> Seq<char> {
    match k {
        IndexPageKind::Arabic => "Arabic"@,
        IndexPageKind::roman => "roman"@,
        IndexPageKind::Roman => "Roman"@,
        IndexPageKind::alpha => "alpha"@,
        IndexPageKind::Alpha => "Alpha"@,
        IndexPageKind::ZhDigits => "ZhDigits"@,
        IndexPageKind::ZhNumber => "ZhNumber"@,
    }
}

// ---------------------------------------------------------------------------
// Character classes

pub open spec fn is_digit(c: char) -> bool {
    '0' <= c <= '9'
}

pub open spec fn is_lower(c: char) -> bool {
    'a' <= c <= 'z'
}

pub open spec fn is_upper(c: char) -> bool {
    'A' <= c <= 'Z'
}

pub open spec fn is_letter(c: char) -> bool {
    is_lower(c) || is_upper(c)
}

pub open spec fn is_roman_lower(c: char) -> bool {
    c == 'i' || c == 'v' || c == 'x' || c == 'l' || c == 'c' || c == 'd' || c == 'm'
}

pub open spec fn is_roman_upper(c: char) -> bool {
    c == 'I' || c == 'V' || c == 'X' || c == 'L' || c == 'C' || c == 'D' || c == 'M'
}

/// 零 〇 一 二 三 四 五 六 七 八 九
pub open spec fn spec_is_zh_digit(c: char) -> bool {
    c == '\u{96f6}' || c == '\u{3007}' || c == '\u{4e00}' || c == '\u{4e8c}' || c == '\u{4e09}'
        || c == '\u{56db}' || c == '\u{4e94}' || c == '\u{516d}' || c == '\u{4e03}' || c
        == '\u{516b}' || c == '\u{4e5d}'
}

pub open spec fn zh_digit_value(c: char) -> int {
    if c == '\u{4e00}' {
        1
    } else if c == '\u{4e8c}' {
        2
    } else if c == '\u{4e09}' {
        3
    } else if c == '\u{56db}' {
        4
    } else if c == '\u{4e94}' {
        5
    } else if c == '\u{516d}' {
        6
    } else if c == '\u{4e03}' {
        7
    } else if c == '\u{516b}' {
        8
    } else if c == '\u{4e5d}' {
        9
    } else {
        0
    }
}

pub open spec fn all_digits(s: Seq<char>) -> bool {
    forall|i: int| 0 <= i < s.len() ==> is_digit(#[trigger] s[i])
}

pub open spec fn all_letters(s: Seq<char>) -> bool {
    forall|i: int| 0 <= i < s.len() ==> is_letter(#[trigger] s[i])
}

pub open spec fn all_lower(s: Seq<char>) -> bool {
    forall|i: int| 0 <= i < s.len() ==> is_lower(#[trigger] s[i])
}

pub open spec fn all_upper(s: Seq<char>) -> bool {
    forall|i: int| 0 <= i < s.len() ==> is_upper(#[trigger] s[i])
}

pub open spec fn all_roman_lower(s: Seq<char>) -> bool {
    forall|i: int| 0 <= i < s.len() ==> is_roman_lower(#[trigger] s[i])
}

pub open spec fn all_roman_upper(s: Seq<char>) -> bool {
    forall|i: int| 0 <= i < s.len() ==> is_roman_upper(#[trigger] s[i])
}

pub open spec fn all_zh_digits(s: Seq<char>) -> bool {
    forall|i: int| 0 <= i < s.len() ==> spec_is_zh_digit(#[trigger] s[i])
}

// ---------------------------------------------------------------------------
// Positional numbers

/// The value of the digit sequence `ds` read in base `base`, most significant first.
pub open spec fn positional(ds: Seq<int>, base: int) -> int
    decreases ds.len(),
{
    if ds.len() == 0 {
        0
    } else {
        positional(ds.drop_last(), base) * base + ds.last()
    }
}

pub open spec fn decimal_digits(s: Seq<char>) -> Seq<int> {
    Seq::new(s.len(), |i: int| (s[i] as int) - ('0' as int))
}

pub open spec fn letter_digit(c: char) -> int {
    if is_lower(c) {
        (c as int) - ('a' as int) + 1
    } else {
        (c as int) - ('A' as int) + 1
    }
}

pub open spec fn letter_digits(s: Seq<char>) -> Seq<int> {
    Seq::new(s.len(), |i: int| letter_digit(s[i]))
}

pub open spec fn zh_digits(s: Seq<char>) -> Seq<int> {
    Seq::new(s.len(), |i: int| zh_digit_value(s[i]))
}

/// Reading one more digit extends the value.
pub proof fn lemma_positional_step(ds: Seq<int>, base: int, i: int)
    requires
        0 <= i < ds.len(),
    ensures
        positional(ds.take(i + 1), base) == positional(ds.take(i), base) * base + ds[i],
{
    assert(ds.take(i + 1).drop_last() =~= ds.take(i));
}

/// With non-negative digits and a base of at least one, a prefix is worth no more than the whole.
pub proof fn lemma_positional_prefix_le(ds: Seq<int>, base: int, i: int)
    requires
        0 <= i <= ds.len(),
        base >= 1,
        forall|j: int| 0 <= j < ds.len() ==> ds[j] >= 0,
    ensures
        0 <= positional(ds.take(i), base) <= positional(ds, base),
    decreases ds.len() - i,
{
    if i == ds.len() {
        assert(ds.take(i) =~= ds);
        lemma_positional_nonneg(ds, base);
    } else {
        lemma_positional_prefix_le(ds, base, i + 1);
        lemma_positional_step(ds, base, i);
        lemma_positional_nonneg(ds.take(i), base);
        let p = positional(ds.take(i), base);
        assert(p * base >= p) by (nonlinear_arith)
            requires
                p >= 0,
                base >= 1,
        ;
    }
}

pub proof fn lemma_positional_nonneg(ds: Seq<int>, base: int)
    requires
        base >= 1,
        forall|j: int| 0 <= j < ds.len() ==> ds[j] >= 0,
    ensures
        positional(ds, base) >= 0,
    decreases ds.len(),
{
    if ds.len() > 0 {
        lemma_positional_nonneg(ds.drop_last(), base);
        let p = positional(ds.drop_last(), base);
        assert(p * base >= 0) by (nonlinear_arith)
            requires
                p >= 0,
                base >= 1,
        ;
    }
}

/// The value of `s` when it fits in `u64`, else `err`.
pub open spec fn checked_positional(ds: Seq<int>, base: int, err: PageError) -> Result<
    u64,
    PageError,
> {
    let v = positional(ds, base);
    if v <= u64::MAX {
        Ok(v as u64)
    } else {
        Err(err)
    }
}

/// Reads the digits `ds` (each below `base`) in base `base`, failing with `err` on overflow.
fn read_positional(ds: &Vec<u64>, base: u64, err: PageError) -> (r: Result<u64, PageError>)
    requires
        base >= 1,
    ensures
        r == checked_positional(ds@.map_values(|d: u64| d as int), base as int, err),
{
    let ghost ids = ds@.map_values(|d: u64| d as int);
    let mut value: u64 = 0;
    let mut i: usize = 0;
    assert(ids.take(0) =~= Seq::<int>::empty());
    while i < ds.len()
        invariant
            i <= ds@.len(),
            ids == ds@.map_values(|d: u64| d as int),
            ids.len() == ds@.len(),
            base >= 1,
            value == positional(ids.take(i as int), base as int),
            forall|j: int| 0 <= j < ids.len() ==> ids[j] >= 0,
        decreases ds@.len() - i,
    {
        proof {
            lemma_positional_step(ids, base as int, i as int);
            lemma_positional_prefix_le(ids, base as int, i + 1);
        }
        match value.checked_mul(base) {
            None => {
                proof {
                    assert(positional(ids.take(i + 1), base as int) >= value * base);
                }
                return Err(err);
            },
            Some(m) => match m.checked_add(ds[i]) {
                None => {
                    return Err(err);
                },
                Some(v) => {
                    value = v;
                },
            },
        }
        i = i + 1;
    }
    assert(ids.take(ids.len() as int) =~= ids);
    Ok(value)
}

/// The value of a decimal digit string.
pub open spec fn arabic_value(s: Seq<char>) -> Result<u64, PageError> {
    checked_positional(decimal_digits(s), 10, PageError::ArabicOverflow)
}

/// The value of a letter string, a=1 .. z=26 and aa=27 (bijective base 26).
pub open spec fn alpha_value(s: Seq<char>) -> Result<u64, PageError> {
    checked_positional(letter_digits(s), 26, PageError::AlphaOverflow)
}

/// The value of a chinese digit string.
pub open spec fn zh_digits_value(s: Seq<char>) -> Result<u64, PageError> {
    checked_positional(zh_digits(s), 10, PageError::ZhDigitsOverflow)
}

fn parse_arabic(cs: &Vec<char>) -> (r: Result<u64, PageError>)
    requires
        all_digits(cs@),
    ensures
        r == arabic_value(cs@),
{
    let mut ds: Vec<u64> = Vec::new();
    let mut i: usize = 0;
    while i < cs.len()
        invariant
            i <= cs@.len(),
            all_digits(cs@),
            ds@.len() == i,
            forall|j: int| 0 <= j < i ==> ds@[j] == (cs@[j] as int) - ('0' as int),
            forall|j: int| 0 <= j < i ==> ds@[j] < 10,
        decreases cs@.len() - i,
    {
        assert(is_digit(cs@[i as int]));
        ds.push((cs[i] as u32 - '0' as u32) as u64);
        i = i + 1;
    }
    assert(ds@.map_values(|d: u64| d as int) =~= decimal_digits(cs@));
    read_positional(&ds, 10, PageError::ArabicOverflow)
}

/// What reading `s` as a page of letters gives: an empty string, a character other than
/// an ASCII letter, and letters of both cases are refused; otherwise the value of the
/// letters (see `alpha_value`), or `AlphaOverflow` where it does not fit.
pub open spec fn alpha_page(s: Seq<char>) -> Result<u64, PageError> {
    if s.len() == 0 {
        Err(PageError::Empty)
    } else if !all_letters(s) {
        Err(PageError::Invalid)
    } else if !all_lower(s) && !all_upper(s) {
        Err(PageError::MixedCase)
    } else {
        alpha_value(s)
    }
}

fn parse_alpha(cs: &Vec<char>) -> (r: Result<u64, PageError>)
    ensures
        r == alpha_page(cs@),
{
    if cs.len() == 0 {
        return Err(PageError::Empty);
    }
    let mut ds: Vec<u64> = Vec::new();
    let mut lower = true;
    let mut upper = true;
    let mut i: usize = 0;
    while i < cs.len()
        invariant
            i <= cs@.len(),
            ds@.len() == i,
            forall|j: int| 0 <= j < i ==> is_letter(#[trigger] cs@[j]),
            forall|j: int| 0 <= j < i ==> ds@[j] == letter_digit(#[trigger] cs@[j]),
            forall|j: int| 0 <= j < i ==> ds@[j] < 27,
            lower == (forall|j: int| 0 <= j < i ==> is_lower(#[trigger] cs@[j])),
            upper == (forall|j: int| 0 <= j < i ==> is_upper(#[trigger] cs@[j])),
        decreases cs@.len() - i,
    {
        let c = cs[i];
        if c >= 'a' && c <= 'z' {
            ds.push((c as u32 - 'a' as u32 + 1) as u64);
            upper = false;
        } else if c >= 'A' && c <= 'Z' {
            ds.push((c as u32 - 'A' as u32 + 1) as u64);
            lower = false;
        } else {
            assert(!is_letter(cs@[i as int]));
            return Err(PageError::Invalid);
        }
        i = i + 1;
    }
    if !lower && !upper {
        return Err(PageError::MixedCase);
    }
    assert(ds@.map_values(|d: u64| d as int) =~= letter_digits(cs@));
    read_positional(&ds, 26, PageError::AlphaOverflow)
}

/// Whether `c` is one of the chinese digits 零 〇 一 二 三 四 五 六 七 八 九.
pub fn is_zh_digit(c: char) -> (r: bool)
    ensures
        r == spec_is_zh_digit(c),
{
    c == '\u{96f6}' || c == '\u{3007}' || c == '\u{4e00}' || c == '\u{4e8c}' || c == '\u{4e09}'
        || c == '\u{56db}' || c == '\u{4e94}' || c == '\u{516d}' || c == '\u{4e03}' || c
        == '\u{516b}' || c == '\u{4e5d}'
}

fn zh_digit(c: char) -> (d: u64)
    ensures
        d == zh_digit_value(c),
        d < 10,
{
    if c == '\u{4e00}' {
        1
    } else if c == '\u{4e8c}' {
        2
    } else if c == '\u{4e09}' {
        3
    } else if c == '\u{56db}' {
        4
    } else if c == '\u{4e94}' {
        5
    } else if c == '\u{516d}' {
        6
    } else if c == '\u{4e03}' {
        7
    } else if c == '\u{516b}' {
        8
    } else if c == '\u{4e5d}' {
        9
    } else {
        0
    }
}

fn parse_zh_digits(cs: &Vec<char>) -> (r: Result<u64, PageError>)
    ensures
        r == zh_digits_value(cs@),
{
    let mut ds: Vec<u64> = Vec::new();
    let mut i: usize = 0;
    while i < cs.len()
        invariant
            i <= cs@.len(),
            ds@.len() == i,
            forall|j: int| 0 <= j < i ==> ds@[j] == zh_digit_value(cs@[j]),
            forall|j: int| 0 <= j < i ==> ds@[j] < 10,
        decreases cs@.len() - i,
    {
        ds.push(zh_digit(cs[i]));
        i = i + 1;
    }
    assert(ds@.map_values(|d: u64| d as int) =~= zh_digits(cs@));
    read_positional(&ds, 10, PageError::ZhDigitsOverflow)
}

// ---------------------------------------------------------------------------
// Roman numbers

/// Number of consecutive `ch` in `s` from `pos` on, counting at most `max`.
pub open spec fn run_len(s: Seq<char>, pos: int, ch: char, max: nat) -> nat
    decreases max,
{
    if max == 0 || pos < 0 || pos >= s.len() || s[pos] != ch {
        0
    } else {
        1 + run_len(s, pos + 1, ch, (max - 1) as nat)
    }
}

/// One decimal place of a roman number (hundreds, tens or ones): `one`, `five` and `ten`
/// are its letters and `unit` its weight. Gives the value read and the next position.
pub open spec fn roman_place(
    s: Seq<char>,
    pos: int,
    one: char,
    five: char,
    ten: char,
    unit: int,
    too_many: PageError,
) -> Result<(int, int), PageError> {
    if pos + 1 < s.len() && s[pos] == one && s[pos + 1] == ten {
        Ok((9 * unit, pos + 2))
    } else if pos + 1 < s.len() && s[pos] == one && s[pos + 1] == five {
        Ok((4 * unit, pos + 2))
    } else {
        let has_five = 0 <= pos < s.len() && s[pos] == five;
        let p1 = if has_five {
            pos + 1
        } else {
            pos
        };
        let n = run_len(s, p1, one, 3);
        let p2 = p1 + n;
        if 0 <= p2 < s.len() && s[p2] == one {
            Err(too_many)
        } else {
            Ok(
                (
                    if has_five {
                        5 * unit
                    } else {
                        0
                    } + n * unit,
                    p2,
                ),
            )
        }
    }
}

/// The value of an uppercase roman number.
pub open spec fn roman_value_upper(s: Seq<char>) -> Result<u64, PageError> {
    let m = run_len(s, 0, 'M', s.len());
    if 1000 * m > u64::MAX {
        Err(PageError::RomanOverflow)
    } else {
        match roman_place(s, m as int, 'C', 'D', 'M', 100, PageError::RomanTooManyC) {
            Err(e) => Err(e),
            Ok((h, p1)) => match roman_place(s, p1, 'X', 'L', 'C', 10, PageError::RomanTooManyX) {
                Err(e) => Err(e),
                Ok((t, p2)) => match roman_place(
                    s,
                    p2,
                    'I',
                    'V',
                    'X',
                    1,
                    PageError::RomanTooManyI,
                ) {
                    Err(e) => Err(e),
                    Ok((o, p3)) => if p3 != s.len() {
                        Err(PageError::RomanInvalid)
                    } else if 1000 * m + h + t + o > u64::MAX {
                        Err(PageError::RomanOverflow)
                    } else {
                        Ok((1000 * m + h + t + o) as u64)
                    },
                },
            },
        }
    }
}

pub open spec fn upper_char(c: char) -> char {
    if is_lower(c) {
        ((c as u32) - 32) as char
    } else {
        c
    }
}

pub open spec fn to_upper(s: Seq<char>) -> Seq<char> {
    Seq::new(s.len(), |i: int| upper_char(s[i]))
}

/// The value of a roman number; a lowercase first letter makes the whole string read as uppercase.
pub open spec fn roman_value(s: Seq<char>) -> Result<u64, PageError> {
    if s.len() > 0 && is_lower(s[0]) {
        roman_value_upper(to_upper(s))
    } else {
        roman_value_upper(s)
    }
}

proof fn lemma_run_len_bound(s: Seq<char>, pos: int, ch: char, max: nat)
    ensures
        run_len(s, pos, ch, max) <= max,
        0 <= pos ==> pos + run_len(s, pos, ch, max) <= s.len() || run_len(s, pos, ch, max) == 0,
    decreases max,
{
    if !(max == 0 || pos < 0 || pos >= s.len() || s[pos] != ch) {
        lemma_run_len_bound(s, pos + 1, ch, (max - 1) as nat);
    }
}

/// Counts the `ch` at `pos`, at most `max` of them.
fn count_run(s: &Vec<char>, pos: usize, ch: char, max: usize) -> (n: usize)
    requires
        pos <= s@.len(),
    ensures
        n == run_len(s@, pos as int, ch, max as nat),
        pos + n <= s@.len(),
        n <= max,
{
    let mut n: usize = 0;
    while n < max && n < s.len() - pos && s[pos + n] == ch
        invariant
            pos <= s@.len(),
            n <= max,
            pos + n <= s@.len(),
            run_len(s@, pos as int, ch, max as nat) == n + run_len(
                s@,
                (pos + n) as int,
                ch,
                (max - n) as nat,
            ),
        decreases max - n,
    {
        n = n + 1;
    }
    n
}

/// Reads one decimal place of a roman number.
fn read_roman_place(
    s: &Vec<char>,
    pos: usize,
    one: char,
    five: char,
    ten: char,
    unit: u64,
    too_many: PageError,
) -> (r: Result<(u64, usize), PageError>)
    requires
        pos <= s@.len(),
        unit <= 100,
    ensures
        match roman_place(s@, pos as int, one, five, ten, unit as int, too_many) {
            Ok((v, p)) => r == Ok::<(u64, usize), PageError>((v as u64, p as usize)) && 0 <= v
                <= 9 * unit && pos <= p <= s@.len(),
            Err(e) => r == Err::<(u64, usize), PageError>(e),
        },
{
    let two_left = pos < s.len() && s.len() - pos > 1;
    if two_left && s[pos] == one && s[pos + 1] == ten {
        Ok((9 * unit, pos + 2))
    } else if two_left && s[pos] == one && s[pos + 1] == five {
        Ok((4 * unit, pos + 2))
    } else {
        let has_five = pos < s.len() && s[pos] == five;
        let p1 = if has_five {
            pos + 1
        } else {
            pos
        };
        let n = count_run(s, p1, one, 3);
        let p2 = p1 + n;
        if p2 < s.len() && s[p2] == one {
            Err(too_many)
        } else {
            let v5 = if has_five {
                5 * unit
            } else {
                0
            };
            let nu = n as u64;
            assert(nu * unit <= 300) by (nonlinear_arith)
                requires
                    nu <= 3,
                    unit <= 100,
            ;
            Ok((v5 + nu * unit, p2))
        }
    }
}

fn parse_roman_upper(s: &Vec<char>) -> (r: Result<u64, PageError>)
    ensures
        r == roman_value_upper(s@),
{
    let mut pos: usize = 0;
    let mut thousands: u64 = 0;
    while pos < s.len() && s[pos] == 'M'
        invariant
            pos <= s@.len(),
            thousands == 1000 * pos,
            run_len(s@, 0, 'M', s@.len()) == pos + run_len(
                s@,
                pos as int,
                'M',
                (s@.len() - pos) as nat,
            ),
        decreases s@.len() - pos,
    {
        match thousands.checked_add(1000) {
            None => {
                proof {
                    lemma_run_len_bound(s@, pos + 1, 'M', (s@.len() - pos - 1) as nat);
                }
                return Err(PageError::RomanOverflow);
            },
            Some(t) => {
                thousands = t;
            },
        }
        pos = pos + 1;
    }
    let r1 = read_roman_place(s, pos, 'C', 'D', 'M', 100, PageError::RomanTooManyC);
    let (h, p1) = match r1 {
        Err(e) => {
            return Err(e);
        },
        Ok(x) => x,
    };
    let r2 = read_roman_place(s, p1, 'X', 'L', 'C', 10, PageError::RomanTooManyX);
    let (t, p2) = match r2 {
        Err(e) => {
            return Err(e);
        },
        Ok(x) => x,
    };
    let r3 = read_roman_place(s, p2, 'I', 'V', 'X', 1, PageError::RomanTooManyI);
    let (o, p3) = match r3 {
        Err(e) => {
            return Err(e);
        },
        Ok(x) => x,
    };
    if p3 != s.len() {
        return Err(PageError::RomanInvalid);
    }
    match thousands.checked_add(h + t + o) {
        None => Err(PageError::RomanOverflow),
        Some(v) => Ok(v),
    }
}

fn upper_char_exec(c: char) -> (u: char)
    ensures
        u == upper_char(c),
{
    if c >= 'a' && c <= 'z' {
        let n: u8 = (c as u32 - 32) as u8;
        n as char
    } else {
        c
    }
}

fn parse_roman(s: &Vec<char>) -> (r: Result<u64, PageError>)
    ensures
        r == roman_value(s@),
{
    if s.len() > 0 && s[0] >= 'a' && s[0] <= 'z' {
        let mut u: Vec<char> = Vec::new();
        let mut i: usize = 0;
        while i < s.len()
            invariant
                i <= s@.len(),
                u@ == to_upper(s@).take(i as int),
            decreases s@.len() - i,
        {
            u.push(upper_char_exec(s[i]));
            i = i + 1;
            assert(u@ =~= to_upper(s@).take(i as int));
        }
        assert(u@ =~= to_upper(s@));
        parse_roman_upper(&u)
    } else {
        parse_roman_upper(s)
    }
}

// ---------------------------------------------------------------------------
// Page numbers

/// What a page string means: the first matching rule decides.
pub open spec fn spec_parse_page(s: Seq<char>) -> Result<IndexPage, PageError> {
    if s.len() == 0 {
        Err(PageError::Empty)
    } else if all_digits(s) {
        match arabic_value(s) {
            Ok(v) => Ok(IndexPage { kind: IndexPageKind::Arabic, value: v }),
            Err(e) => Err(e),
        }
    } else if all_letters(s) {
        if !all_lower(s) && !all_upper(s) {
            Err(PageError::MixedCase)
        } else if all_lower(s) && all_roman_lower(s) {
            match roman_value(s) {
                Ok(v) => Ok(IndexPage { kind: IndexPageKind::roman, value: v }),
                Err(e) => Err(e),
            }
        } else if !all_lower(s) && all_roman_upper(s) {
            match roman_value(s) {
                Ok(v) => Ok(IndexPage { kind: IndexPageKind::Roman, value: v }),
                Err(e) => Err(e),
            }
        } else if all_lower(s) {
            match alpha_value(s) {
                Ok(v) => Ok(IndexPage { kind: IndexPageKind::alpha, value: v }),
                Err(e) => Err(e),
            }
        } else {
            match alpha_value(s) {
                Ok(v) => Ok(IndexPage { kind: IndexPageKind::Alpha, value: v }),
                Err(e) => Err(e),
            }
        }
    } else if all_zh_digits(s) {
        match zh_digits_value(s) {
            Ok(v) => Ok(IndexPage { kind: IndexPageKind::ZhDigits, value: v }),
            Err(e) => Err(e),
        }
    } else {
        Err(PageError::Invalid)
    }
}

/// Which of the character classes every character of `s` is in.
struct Classes {
    digits: bool,
    letters: bool,
    lower: bool,
    upper: bool,
    roman_lower: bool,
    roman_upper: bool,
    zh: bool,
}

fn classify(s: &Vec<char>) -> (c: Classes)
    ensures
        c.digits == all_digits(s@),
        c.letters == all_letters(s@),
        c.lower == all_lower(s@),
        c.upper == all_upper(s@),
        c.roman_lower == all_roman_lower(s@),
        c.roman_upper == all_roman_upper(s@),
        c.zh == all_zh_digits(s@),
{
    let mut c = Classes {
        digits: true,
        letters: true,
        lower: true,
        upper: true,
        roman_lower: true,
        roman_upper: true,
        zh: true,
    };
    let mut i: usize = 0;
    while i < s.len()
        invariant
            i <= s@.len(),
            c.digits == all_digits(s@.take(i as int)),
            c.letters == all_letters(s@.take(i as int)),
            c.lower == all_lower(s@.take(i as int)),
            c.upper == all_upper(s@.take(i as int)),
            c.roman_lower == all_roman_lower(s@.take(i as int)),
            c.roman_upper == all_roman_upper(s@.take(i as int)),
            c.zh == all_zh_digits(s@.take(i as int)),
        decreases s@.len() - i,
    {
        let ch = s[i];
        let ghost t0 = s@.take(i as int);
        let ghost t1 = s@.take(i + 1);
        assert(t1 =~= t0.push(ch));
        let d = ch >= '0' && ch <= '9';
        let lo = ch >= 'a' && ch <= 'z';
        let up = ch >= 'A' && ch <= 'Z';
        let rl = ch == 'i' || ch == 'v' || ch == 'x' || ch == 'l' || ch == 'c' || ch == 'd' || ch
            == 'm';
        let ru = ch == 'I' || ch == 'V' || ch == 'X' || ch == 'L' || ch == 'C' || ch == 'D' || ch
            == 'M';
        let z = is_zh_digit(ch);
        proof {
            assert(all_digits(t1) == (all_digits(t0) && is_digit(ch))) by {
                if all_digits(t0) && is_digit(ch) {
                    assert forall|j: int| 0 <= j < t1.len() implies is_digit(#[trigger] t1[j]) by {
                        if j < t0.len() {
                            assert(t1[j] == t0[j]);
                        }
                    }
                }
                if all_digits(t1) {
                    assert(is_digit(t1[t0.len() as int]));
                    assert forall|j: int| 0 <= j < t0.len() implies is_digit(#[trigger] t0[j]) by {
                        assert(t1[j] == t0[j]);
                    }
                }
            }
            assert(all_letters(t1) == (all_letters(t0) && is_letter(ch))) by {
                if all_letters(t0) && is_letter(ch) {
                    assert forall|j: int| 0 <= j < t1.len() implies is_letter(#[trigger] t1[j]) by {
                        if j < t0.len() {
                            assert(t1[j] == t0[j]);
                        }
                    }
                }
                if all_letters(t1) {
                    assert(is_letter(t1[t0.len() as int]));
                    assert forall|j: int| 0 <= j < t0.len() implies is_letter(
                        #[trigger] t0[j],
                    ) by {
                        assert(t1[j] == t0[j]);
                    }
                }
            }
            assert(all_lower(t1) == (all_lower(t0) && is_lower(ch))) by {
                if all_lower(t0) && is_lower(ch) {
                    assert forall|j: int| 0 <= j < t1.len() implies is_lower(#[trigger] t1[j]) by {
                        if j < t0.len() {
                            assert(t1[j] == t0[j]);
                        }
                    }
                }
                if all_lower(t1) {
                    assert(is_lower(t1[t0.len() as int]));
                    assert forall|j: int| 0 <= j < t0.len() implies is_lower(#[trigger] t0[j]) by {
                        assert(t1[j] == t0[j]);
                    }
                }
            }
            assert(all_upper(t1) == (all_upper(t0) && is_upper(ch))) by {
                if all_upper(t0) && is_upper(ch) {
                    assert forall|j: int| 0 <= j < t1.len() implies is_upper(#[trigger] t1[j]) by {
                        if j < t0.len() {
                            assert(t1[j] == t0[j]);
                        }
                    }
                }
                if all_upper(t1) {
                    assert(is_upper(t1[t0.len() as int]));
                    assert forall|j: int| 0 <= j < t0.len() implies is_upper(#[trigger] t0[j]) by {
                        assert(t1[j] == t0[j]);
                    }
                }
            }
            assert(all_roman_lower(t1) == (all_roman_lower(t0) && is_roman_lower(ch))) by {
                if all_roman_lower(t0) && is_roman_lower(ch) {
                    assert forall|j: int| 0 <= j < t1.len() implies is_roman_lower(
                        #[trigger] t1[j],
                    ) by {
                        if j < t0.len() {
                            assert(t1[j] == t0[j]);
                        }
                    }
                }
                if all_roman_lower(t1) {
                    assert(is_roman_lower(t1[t0.len() as int]));
                    assert forall|j: int| 0 <= j < t0.len() implies is_roman_lower(
                        #[trigger] t0[j],
                    ) by {
                        assert(t1[j] == t0[j]);
                    }
                }
            }
            assert(all_roman_upper(t1) == (all_roman_upper(t0) && is_roman_upper(ch))) by {
                if all_roman_upper(t0) && is_roman_upper(ch) {
                    assert forall|j: int| 0 <= j < t1.len() implies is_roman_upper(
                        #[trigger] t1[j],
                    ) by {
                        if j < t0.len() {
                            assert(t1[j] == t0[j]);
                        }
                    }
                }
                if all_roman_upper(t1) {
                    assert(is_roman_upper(t1[t0.len() as int]));
                    assert forall|j: int| 0 <= j < t0.len() implies is_roman_upper(
                        #[trigger] t0[j],
                    ) by {
                        assert(t1[j] == t0[j]);
                    }
                }
            }
            assert(all_zh_digits(t1) == (all_zh_digits(t0) && spec_is_zh_digit(ch))) by {
                if all_zh_digits(t0) && spec_is_zh_digit(ch) {
                    assert forall|j: int| 0 <= j < t1.len() implies spec_is_zh_digit(
                        #[trigger] t1[j],
                    ) by {
                        if j < t0.len() {
                            assert(t1[j] == t0[j]);
                        }
                    }
                }
                if all_zh_digits(t1) {
                    assert(spec_is_zh_digit(t1[t0.len() as int]));
                    assert forall|j: int| 0 <= j < t0.len() implies spec_is_zh_digit(
                        #[trigger] t0[j],
                    ) by {
                        assert(t1[j] == t0[j]);
                    }
                }
            }
        }
        c.digits = c.digits && d;
        c.letters = c.letters && (lo || up);
        c.lower = c.lower && lo;
        c.upper = c.upper && up;
        c.roman_lower = c.roman_lower && rl;
        c.roman_upper = c.roman_upper && ru;
        c.zh = c.zh && z;
        i = i + 1;
    }
    assert(s@.take(s@.len() as int) =~= s@);
    c
}

/// Parses a page number given as characters.
pub fn parse_page_chars(s: &Vec<char>) -> (r: Result<IndexPage, PageError>)
    ensures
        r == spec_parse_page(s@),
{
    if s.len() == 0 {
        return Err(PageError::Empty);
    }
    let c = classify(s);
    if c.digits {
        return match parse_arabic(s) {
            Ok(v) => Ok(IndexPage { kind: IndexPageKind::Arabic, value: v }),
            Err(e) => Err(e),
        };
    }
    if c.letters {
        if !c.lower && !c.upper {
            return Err(PageError::MixedCase);
        }
        let is_roman = if c.lower {
            c.roman_lower
        } else {
            c.roman_upper
        };
        if is_roman {
            let v = match parse_roman(s) {
                Ok(v) => v,
                Err(e) => {
                    return Err(e);
                },
            };
            return if c.lower {
                Ok(IndexPage { kind: IndexPageKind::roman, value: v })
            } else {
                Ok(IndexPage { kind: IndexPageKind::Roman, value: v })
            };
        }
        let v = match parse_alpha(s) {
            Ok(v) => v,
            Err(e) => {
                return Err(e);
            },
        };
        return if c.lower {
            Ok(IndexPage { kind: IndexPageKind::alpha, value: v })
        } else {
            Ok(IndexPage { kind: IndexPageKind::Alpha, value: v })
        };
    }
    if c.zh {
        return match parse_zh_digits(s) {
            Ok(v) => Ok(IndexPage { kind: IndexPageKind::ZhDigits, value: v }),
            Err(e) => Err(e),
        };
    }
    Err(PageError::Invalid)
}

// ---------------------------------------------------------------------------
// Laws of roman numbers

/// A roman number in lowercase letters has the value of the same number in uppercase.
pub proof fn law_roman_case_does_not_matter(s: Seq<char>)
    requires
        s.len() > 0,
        is_lower(s[0]),
    ensures
        roman_value(s) == roman_value(to_upper(s)),
{
    let u = to_upper(s);
    assert(!is_lower(u[0]));
    assert(to_upper(u) =~= u);
}

proof fn lemma_run_len_shift(s: Seq<char>, x: char, pos: int, ch: char, max: nat)
    requires
        0 <= pos,
    ensures
        run_len(seq![x] + s, pos + 1, ch, max) == run_len(s, pos, ch, max),
    decreases max,
{
    let t = seq![x] + s;
    if pos < s.len() {
        assert(t[pos + 1] == s[pos]);
    }
    if max > 0 && pos < s.len() && s[pos] == ch {
        lemma_run_len_shift(s, x, pos + 1, ch, (max - 1) as nat);
    }
}

proof fn lemma_roman_place_shift(
    s: Seq<char>,
    x: char,
    pos: int,
    one: char,
    five: char,
    ten: char,
    unit: int,
    too_many: PageError,
)
    requires
        0 <= pos,
    ensures
        roman_place(seq![x] + s, pos + 1, one, five, ten, unit, too_many) == match roman_place(
            s,
            pos,
            one,
            five,
            ten,
            unit,
            too_many,
        ) {
            Ok((v, p)) => Ok((v, p + 1)),
            Err(e) => Err(e),
        },
{
    let t = seq![x] + s;
    assert forall|i: int| 0 <= i < s.len() implies t[i + 1] == s[i] by {}
    let has_five = pos < s.len() && s[pos] == five;
    let p1 = if has_five { pos + 1 } else { pos };
    lemma_run_len_shift(s, x, p1, one, 3);
}

/// Each leading `M` counts a thousand: putting an `M` before a roman number that has a value
/// adds a thousand to it, where the sum fits.
pub proof fn law_roman_leading_m_adds_a_thousand(s: Seq<char>, v: u64)
    requires
        roman_value_upper(s) == Ok::<u64, PageError>(v),
        v + 1000 <= u64::MAX,
    ensures
        roman_value_upper(seq!['M'] + s) == Ok::<u64, PageError>((v + 1000) as u64),
{
    let t = seq!['M'] + s;
    let m = run_len(s, 0, 'M', s.len());
    lemma_run_len_shift(s, 'M', 0, 'M', s.len());
    assert(run_len(t, 0, 'M', t.len()) == 1 + run_len(t, 1, 'M', s.len()));
    lemma_run_len_bound(s, 0, 'M', s.len());
    // the other letters of `s` come after its run of `M`, one place on
    lemma_roman_place_shift(s, 'M', m as int, 'C', 'D', 'M', 100, PageError::RomanTooManyC);
    match roman_place(s, m as int, 'C', 'D', 'M', 100, PageError::RomanTooManyC) {
        Ok((h, p1)) => {
            lemma_roman_place_shift(s, 'M', p1, 'X', 'L', 'C', 10, PageError::RomanTooManyX);
            match roman_place(s, p1, 'X', 'L', 'C', 10, PageError::RomanTooManyX) {
                Ok((tn, p2)) => {
                    lemma_roman_place_shift(s, 'M', p2, 'I', 'V', 'X', 1, PageError::RomanTooManyI);
                },
                Err(_) => {},
            }
        },
        Err(_) => {},
    }
}

// ---------------------------------------------------------------------------
// Laws of chinese digits

/// The chinese digits in counting order: 〇 一 二 三 四 五 六 七 八 九.
pub open spec fn zh_numerals() -> Seq<char> {
    seq![
        '\u{3007}',
        '\u{4e00}',
        '\u{4e8c}',
        '\u{4e09}',
        '\u{56db}',
        '\u{4e94}',
        '\u{516d}',
        '\u{4e03}',
        '\u{516b}',
        '\u{4e5d}',
    ]
}

/// The chinese digit that stands for the arabic digit `a`: 〇 or 零 for `0`.
pub open spec fn zh_for_arabic(z: char, a: char) -> bool {
    &&& is_digit(a)
    &&& (z == zh_numerals()[a as int - '0' as int] || (a == '0' && z == '\u{96f6}'))
}

/// The digits in counting order have the values 0 to 9, 零 is zero as 〇 is, and no other
/// two chinese digits share a value.
pub proof fn law_zh_digits_count_in_order()
    ensures
        forall|i: int| 0 <= i < 10 ==> spec_is_zh_digit(#[trigger] zh_numerals()[i]) && zh_digit_value(zh_numerals()[i]) == i,
        spec_is_zh_digit('\u{96f6}') && zh_digit_value('\u{96f6}') == 0,
        forall|c: char, d: char|
            spec_is_zh_digit(c) && spec_is_zh_digit(d) && #[trigger] zh_digit_value(c) == #[trigger] zh_digit_value(d)
                ==> c == d || zh_digit_value(c) == 0,
{
    let z = zh_numerals();
    assert(z[0] == '\u{3007}' && z[1] == '\u{4e00}' && z[2] == '\u{4e8c}' && z[3] == '\u{4e09}' && z[4]
        == '\u{56db}' && z[5] == '\u{4e94}' && z[6] == '\u{516d}' && z[7] == '\u{4e03}' && z[8] == '\u{516b}'
        && z[9] == '\u{4e5d}');
}

/// A page in chinese digits reads like the same page in arabic digits: where each character
/// of `z` is the chinese digit of the character at the same place in `a`, `z` is read exactly
/// where `a` is, as a chinese-digit page of the same value.
pub proof fn law_zh_page_reads_like_arabic(z: Seq<char>, a: Seq<char>)
    requires
        z.len() == a.len(),
        z.len() > 0,
        forall|i: int| 0 <= i < z.len() ==> zh_for_arabic(#[trigger] z[i], a[i]),
    ensures
        spec_parse_page(a) is Ok <==> spec_parse_page(z) is Ok,
        spec_parse_page(a) matches Ok(p) ==> spec_parse_page(z) == Ok::<IndexPage, PageError>(
            IndexPage { kind: IndexPageKind::ZhDigits, value: p.value },
        ),
{
    law_zh_digits_count_in_order();
    let n = zh_numerals();
    assert(all_digits(a)) by {
        assert forall|i: int| 0 <= i < a.len() implies is_digit(#[trigger] a[i]) by {
            assert(zh_for_arabic(z[i], a[i]));
        }
    }
    assert forall|i: int| 0 <= i < z.len() implies spec_is_zh_digit(#[trigger] z[i]) && zh_digit_value(z[i]) == a[i] as int
        - '0' as int by {
        assert(zh_for_arabic(z[i], a[i]));
        let k = a[i] as int - '0' as int;
        assert(0 <= k < 10);
        if z[i] != '\u{96f6}' {
            assert(z[i] == n[k]);
        }
    }
    assert(all_zh_digits(z));
    assert(z[0] as int >= 0x3007) by {
        assert(spec_is_zh_digit(z[0]));
    }
    assert(!all_digits(z));
    assert(!all_letters(z));
    assert(zh_digits(z) =~= decimal_digits(a));
}

} // verus!
