use vstd::prelude::*;

verus! {

/// A stroke of a Han character.
#[derive(Debug, Clone, Copy, PartialEq, Eq, Structural)]
pub enum Stroke {
    /// 横 (horizontal), digit 1.
    S1,
    /// 竖 (vertical), digit 2.
    S2,
    /// 撇 (left-falling), digit 3.
    S3,
    /// 点 (dot), digit 4.
    S4,
    /// 折 (turning), digit 5.
    S5,
}

/// The stroke with digit `d` (1 to 5).
pub open spec fn stroke_of(d: int) -> Stroke {
    if d == 1 {
        Stroke::S1
    } else if d == 2 {
        Stroke::S2
    } else if d == 3 {
        Stroke::S3
    } else if d == 4 {
        Stroke::S4
    } else {
        Stroke::S5
    }
}

/// The digit of a stroke, 1 to 5.
pub open spec fn stroke_digit(s: Stroke) -> u8 {
    match s {
        Stroke::S1 => 1,
        Stroke::S2 => 2,
        Stroke::S3 => 3,
        Stroke::S4 => 4,
        Stroke::S5 => 5,
    }
}

impl Stroke {
    /// The digit of the stroke, 1 to 5.
    pub fn as_u8(self) -> (d: u8)
        ensures
            d == stroke_digit(self),
            1 <= d <= 5,
    {
        match self {
            Stroke::S1 => 1,
            Stroke::S2 => 2,
            Stroke::S3 => 3,
            Stroke::S4 => 4,
            Stroke::S5 => 5,
        }
    }
}

/// The high nibble of a byte.
pub open spec fn high(b: u8) -> int {
    b as int / 16
}

/// The low nibble of a byte.
pub open spec fn low(b: u8) -> int {
    b as int % 16
}

/// Stroke data: two strokes per byte, high nibble first; a low nibble of zero pads the
/// last byte.
pub open spec fn valid_strokes(bytes: Seq<u8>) -> bool {
    forall|i: int|
        0 <= i < bytes.len() ==> {
            &&& 1 <= #[trigger] high(bytes[i]) <= 5
            &&& low(bytes[i]) <= 5
            &&& (low(bytes[i]) == 0 ==> i == bytes.len() - 1)
        }
}

/// How many strokes the data holds.
pub open spec fn strokes_len(bytes: Seq<u8>) -> nat {
    if bytes.len() == 0 {
        0
    } else if low(bytes.last()) % 8 != 0 {
        2 * bytes.len()
    } else {
        (2 * bytes.len() - 1) as nat
    }
}

/// The digit of stroke number `i`.
pub open spec fn digit_at(bytes: Seq<u8>, i: int) -> int {
    if i % 2 != 0 {
        low(bytes[i / 2])
    } else {
        high(bytes[i / 2])
    }
}

/// The strokes the data holds.
pub open spec fn strokes_seq(bytes: Seq<u8>) -> Seq<Stroke> {
    Seq::new(strokes_len(bytes), |i: int| stroke_of(digit_at(bytes, i)))
}

/// The ordered strokes of a Han character, packed two per byte.
#[derive(Debug, Clone, Copy, PartialEq)]
pub struct RawStrokes(pub(crate) &'static [u8]);

impl RawStrokes {
    #[verifier::type_invariant]
    spec fn inv(self) -> bool {
        &&& valid_strokes(self.0@)
        &&& self.0@.len() <= isize::MAX
    }

    /// The packed bytes.
    pub closed spec fn bytes(self) -> Seq<u8> {
        self.0@
    }

    /// The strokes.
    pub open spec fn spec_strokes(self) -> Seq<Stroke> {
        strokes_seq(self.bytes())
    }

    /// Packed stroke data, if it is valid.
    pub fn from_strokes(bytes: &'static [u8]) -> (r: Option<Self>)
        requires
            bytes@.len() <= isize::MAX,
        ensures
            r is Some <==> valid_strokes(bytes@),
            r matches Some(s) ==> s.bytes() == bytes@,
    {
        let mut idx: usize = 0;
        while idx < bytes.len()
            invariant
                idx <= bytes@.len(),
                forall|i: int|
                    0 <= i < idx ==> {
                        &&& 1 <= #[trigger] high(bytes@[i]) <= 5
                        &&& low(bytes@[i]) <= 5
                        &&& (low(bytes@[i]) == 0 ==> i == bytes@.len() - 1)
                    },
            decreases bytes@.len() - idx,
        {
            let byte = bytes[idx];
            let lo = byte & 0x0F;
            let hi = byte >> 4;
            assert((byte & 0x0F) == byte % 16 && (byte >> 4) == byte / 16) by (bit_vector);
            if lo > 5 || hi == 0 || hi > 5 {
                assert(!(1 <= high(bytes@[idx as int]) <= 5 && low(bytes@[idx as int]) <= 5));
                return None;
            }
            if lo == 0 && idx + 1 < bytes.len() {
                assert(1 <= high(bytes@[idx as int]) <= 5);
                return None;
            }
            idx = idx + 1;
        }
        Some(RawStrokes(bytes))
    }

    pub fn is_empty(&self) -> (r: bool)
        ensures
            r == (self.bytes().len() == 0),
    {
        self.0.len() == 0
    }

    /// The number of strokes.
    pub fn len(&self) -> (n: usize)
        ensures
            n == strokes_len(self.bytes()),
            n == self.spec_strokes().len(),
    {
        proof {
            use_type_invariant(self);
        }
        let n = self.0.len();
        if n == 0 {
            0
        } else {
            let last = self.0[n - 1];
            assert((last & 0x07) == 0 <==> low(last) % 8 == 0) by (bit_vector);
            if last & 0x07 != 0 {
                n * 2
            } else {
                n * 2 - 1
            }
        }
    }

    /// Stroke number `index`, if there is one.
    pub fn get(&self, index: usize) -> (r: Option<Stroke>)
        ensures
            index < self.spec_strokes().len() ==> r == Some(self.spec_strokes()[index as int]),
            index >= self.spec_strokes().len() ==> r is None,
    {
        if index >= self.len() {
            return None;
        }
        proof {
            use_type_invariant(self);
        }
        let byte = self.0[index / 2];
        let d = nibble(byte, index % 2 != 0);
        proof {
            let k = index as int / 2;
            assert(1 <= high(self.0@[k]) <= 5);
            if index % 2 != 0 && low(self.0@[k]) == 0 {
                assert(k == self.0@.len() - 1);
                assert(self.0@.last() == self.0@[k]);
                assert(false);
            }
        }
        Some(decode_stroke(d))
    }

    /// A double-ended cursor over the strokes.
    pub fn strokes(&self) -> (it: RawStrokesIter)
        ensures
            it.remaining() == self.spec_strokes(),
    {
        let n = self.len();
        proof {
            use_type_invariant(self);
        }
        RawStrokesIter { raw: self.0, front_cursor: 0, back_cursor: n }
    }
}

/// The nibble of `byte`: the low one if `is_low`, else the high one.
fn nibble(byte: u8, is_low: bool) -> (d: u8)
    ensures
        is_low ==> d == low(byte),
        !is_low ==> d == high(byte),
{
    assert((byte & 0x0F) == byte % 16 && (byte >> 4) == byte / 16) by (bit_vector);
    if is_low {
        byte & 0x0F
    } else {
        byte >> 4
    }
}

/// The stroke with digit `d`.
fn decode_stroke(d: u8) -> (s: Stroke)
    requires
        1 <= d <= 5,
    ensures
        s == stroke_of(d as int),
{
    if d == 1 {
        Stroke::S1
    } else if d == 2 {
        Stroke::S2
    } else if d == 3 {
        Stroke::S3
    } else if d == 4 {
        Stroke::S4
    } else {
        Stroke::S5
    }
}

/// A cursor over stroke data that can take strokes from both ends.
pub struct RawStrokesIter {
    raw: &'static [u8],
    front_cursor: usize,
    back_cursor: usize,
}

impl RawStrokesIter {
    #[verifier::type_invariant]
    spec fn inv(self) -> bool {
        &&& valid_strokes(self.raw@)
        &&& self.front_cursor <= self.back_cursor <= strokes_len(self.raw@)
    }

    /// The strokes not taken yet, front first.
    pub closed spec fn remaining(self) -> Seq<Stroke> {
        if self.front_cursor <= self.back_cursor <= strokes_len(self.raw@) {
            strokes_seq(self.raw@).subrange(self.front_cursor as int, self.back_cursor as int)
        } else {
            Seq::empty()
        }
    }

    /// The digit of stroke number `cursor`.
    fn get_raw_stroke_at(&self, cursor: usize) -> (d: u8)
        requires
            cursor < strokes_len(self.raw@),
            valid_strokes(self.raw@),
        ensures
            d == digit_at(self.raw@, cursor as int),
            1 <= d <= 5,
    {
        let byte = self.raw[cursor / 2];
        proof {
            let k = cursor as int / 2;
            assert(1 <= high(self.raw@[k]) <= 5);
            if cursor % 2 != 0 && low(self.raw@[k]) == 0 {
                assert(k == self.raw@.len() - 1);
                assert(self.raw@.last() == self.raw@[k]);
                assert(false);
            }
        }
        nibble(byte, cursor % 2 != 0)
    }

    /// Takes the first remaining stroke.
    pub fn next(&mut self) -> (r: Option<Stroke>)
        ensures
            old(self).remaining().len() == 0 ==> r is None && final(self).remaining() == old(
                self,
            ).remaining(),
            old(self).remaining().len() > 0 ==> r == Some(old(self).remaining()[0])
                && final(self).remaining() == old(self).remaining().drop_first(),
    {
        proof {
            use_type_invariant(&*self);
        }
        if self.front_cursor >= self.back_cursor {
            return None;
        }
        let d = self.get_raw_stroke_at(self.front_cursor);
        self.front_cursor = self.front_cursor + 1;
        let r = decode_stroke(d);
        assert(final(self).remaining() =~= old(self).remaining().drop_first());
        Some(r)
    }

    /// Takes the last remaining stroke.
    pub fn next_back(&mut self) -> (r: Option<Stroke>)
        ensures
            old(self).remaining().len() == 0 ==> r is None && final(self).remaining() == old(
                self,
            ).remaining(),
            old(self).remaining().len() > 0 ==> r == Some(old(self).remaining().last())
                && final(self).remaining() == old(self).remaining().drop_last(),
    {
        proof {
            use_type_invariant(&*self);
        }
        if self.front_cursor >= self.back_cursor {
            return None;
        }
        self.back_cursor = self.back_cursor - 1;
        let d = self.get_raw_stroke_at(self.back_cursor);
        let r = decode_stroke(d);
        assert(final(self).remaining() =~= old(self).remaining().drop_last());
        Some(r)
    }

    /// How many strokes remain.
    pub fn len(&self) -> (n: usize)
        ensures
            n == self.remaining().len(),
    {
        proof {
            use_type_invariant(self);
        }
        self.back_cursor - self.front_cursor
    }
    /// Takes all the remaining strokes front to back, as collecting the cursor does.
    pub fn to_vec(self) -> (v: Vec<Stroke>)
        ensures
            v@ == self.remaining(),
    {
        let mut it = self;
        let mut v: Vec<Stroke> = Vec::new();
        loop
            invariant
                v@ + it.remaining() == self.remaining(),
            decreases it.remaining().len(),
        {
            let ghost before = it.remaining();
            match it.next() {
                Some(st) => {
                    v.push(st);
                    assert(v@ + it.remaining() =~= self.remaining()) by {
                        assert(before =~= seq![st] + before.drop_first());
                    }
                },
                None => {
                    assert(v@ =~= self.remaining());
                    return v;
                },
            }
        }
    }

    /// Takes all the remaining strokes back to front, as collecting the reversed cursor
    /// does.
    pub fn to_vec_rev(self) -> (v: Vec<Stroke>)
        ensures
            v@ == self.remaining().reverse(),
    {
        let mut it = self;
        let mut v: Vec<Stroke> = Vec::new();
        loop
            invariant
                it.remaining() + v@.reverse() == self.remaining(),
            decreases it.remaining().len(),
        {
            let ghost before = it.remaining();
            let ghost vb = v@;
            match it.next_back() {
                Some(st) => {
                    v.push(st);
                    assert(v@.reverse() =~= seq![st] + vb.reverse());
                    assert(it.remaining() + v@.reverse() =~= self.remaining()) by {
                        assert(before =~= before.drop_last().push(st));
                    }
                },
                None => {
                    assert(v@.reverse().reverse() =~= v@);
                    assert(v@.reverse() =~= self.remaining());
                    assert(v@ =~= self.remaining().reverse());
                    return v;
                },
            }
        }
    }
}

/// Collecting the strokes of `r` front to back gives, at each position `i`, the stroke
/// that `get(i)` gives; collecting them back to front gives the same strokes reversed.
pub proof fn law_strokes_in_order(r: RawStrokes, front: Seq<Stroke>, back: Seq<Stroke>)
    requires
        front == r.spec_strokes(),
        back == r.spec_strokes().reverse(),
    ensures
        front.len() == r.spec_strokes().len(),
        forall|i: int| 0 <= i < front.len() ==> #[trigger] front[i] == r.spec_strokes()[i],
        back.len() == front.len(),
        forall|i: int| 0 <= i < back.len() ==> #[trigger] back[i] == front[front.len() - 1 - i],
{
}

/// Every character of `d` is a stroke digit, `1` to `5`.
pub open spec fn all_stroke_digits(d: Seq<char>) -> bool {
    forall|i: int| 0 <= i < d.len() ==> '1' <= #[trigger] d[i] <= '5'
}

/// How the strokes `st` compare with the stroke digits `d` from position `i` on: by the
/// digits in turn, then by length; -1, 0 or 1.
pub open spec fn digits_order(st: Seq<Stroke>, d: Seq<char>, i: int) -> int
    decreases st.len() - i,
{
    if 0 <= i && i < st.len() && i < d.len() {
        let a = stroke_digit(st[i]) as int;
        let b = d[i] as int - '0' as int;
        if a < b {
            -1
        } else if a > b {
            1
        } else {
            digits_order(st, d, i + 1)
        }
    } else if st.len() < d.len() {
        -1
    } else if st.len() == d.len() {
        0
    } else {
        1
    }
}

impl RawStrokes {
    /// Compares the strokes with a string of stroke digits, such as `"1234"`: -2 where the
    /// string holds another character; otherwise -1, 0 or 1, by the digits in turn and then
    /// by length.
    pub fn compare_digits(&self, s: &str) -> (r: i64)
        ensures
            r == if !all_stroke_digits(s@) {
                -2
            } else {
                digits_order(self.spec_strokes(), s@, 0)
            },
    {
        let d = crate::text::str_chars(s);
        let mut k: usize = 0;
        while k < d.len()
            invariant
                d@ == s@,
                k <= d@.len(),
                forall|j: int| 0 <= j < k ==> '1' <= #[trigger] d@[j] <= '5',
            decreases d@.len() - k,
        {
            if !(d[k] >= '1' && d[k] <= '5') {
                return -2;
            }
            k = k + 1;
        }
        let n = self.len();
        let mut i: usize = 0;
        while i < n && i < d.len()
            invariant
                d@ == s@,
                all_stroke_digits(d@),
                n == self.spec_strokes().len(),
                i <= n,
                digits_order(self.spec_strokes(), d@, 0) == digits_order(self.spec_strokes(), d@, i as int),
            decreases n - i,
        {
            let a = match self.get(i) {
                Some(st) => st.as_u8(),
                None => 0,
            };
            assert('1' <= d@[i as int] <= '5');
            let b = (d[i] as u32 - '0' as u32) as u8;
            if a < b {
                return -1;
            } else if a > b {
                return 1;
            }
            i = i + 1;
        }
        if n < d.len() {
            -1
        } else if n == d.len() {
            0
        } else {
            1
        }
    }
}

/// Decoding a stroke digit and taking the digit of the stroke give the digit back, and every
/// stroke is the decoding of its own digit: the five strokes and the digits 1 to 5 are in one
/// to one correspondence.
pub proof fn law_stroke_digits_round_trip()
    ensures
        forall|d: int| 1 <= d <= 5 ==> stroke_digit(#[trigger] stroke_of(d)) as int == d,
        forall|s: Stroke| stroke_of(#[trigger] stroke_digit(s) as int) == s,
{
}

/// The strokes are the digits stored in the data: stroke `i` has the digit of nibble `i`
/// (high nibble first), and the data compares equal to the string of those digits.
pub proof fn law_strokes_are_the_stored_digits(bytes: Seq<u8>, d: Seq<char>)
    requires
        valid_strokes(bytes),
        d.len() == strokes_len(bytes),
        forall|i: int| 0 <= i < d.len() ==> #[trigger] d[i] as int == '0' as int + digit_at(bytes, i),
    ensures
        forall|i: int|
            0 <= i < strokes_len(bytes) ==> stroke_digit(#[trigger] strokes_seq(bytes)[i]) as int == digit_at(
                bytes,
                i,
            ),
        all_stroke_digits(d),
        digits_order(strokes_seq(bytes), d, 0) == 0,
{
    let st = strokes_seq(bytes);
    assert forall|i: int| 0 <= i < strokes_len(bytes) implies 1 <= #[trigger] digit_at(bytes, i) <= 5 by {
        let b = bytes[i / 2];
        assert(1 <= high(b) <= 5 && low(b) <= 5);
        if i % 2 != 0 {
            if low(b) == 0 {
                assert(i / 2 == bytes.len() - 1);
                assert(low(bytes.last()) % 8 == 0);
            }
        }
    }
    assert forall|i: int| 0 <= i < d.len() implies '1' <= #[trigger] d[i] <= '5' by {
        assert(1 <= digit_at(bytes, i) <= 5);
    }
    lemma_digits_order_equal(st, d, bytes, 0);
}

proof fn lemma_digits_order_equal(st: Seq<Stroke>, d: Seq<char>, bytes: Seq<u8>, i: int)
    requires
        st == strokes_seq(bytes),
        d.len() == st.len(),
        0 <= i <= d.len(),
        forall|j: int| 0 <= j < d.len() ==> #[trigger] d[j] as int == '0' as int + digit_at(bytes, j),
        forall|j: int| 0 <= j < st.len() ==> 1 <= #[trigger] digit_at(bytes, j) <= 5,
    ensures
        digits_order(st, d, i) == 0,
    decreases d.len() - i,
{
    if i < d.len() {
        assert(1 <= digit_at(bytes, i) <= 5);
        assert(stroke_digit(st[i]) as int == digit_at(bytes, i));
        lemma_digits_order_equal(st, d, bytes, i + 1);
    }
}

} // verus!
