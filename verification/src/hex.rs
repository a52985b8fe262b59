//! Hexadecimal numbers as text: reading a `u32` from hexadecimal digits and
//! writing one in upper case.

use crate::text::to_chars;
use vstd::prelude::*;

verus! {

/// The value of the hexadecimal digit `c`, in either case, or `None` where `c`
/// is no such digit.
pub open spec fn hex_digit_value(c: char) -> Option<int> {
    let n = c as int;
    if 0x30 <= n <= 0x39 {
        Some(n - 0x30)
    } else if 0x41 <= n <= 0x46 {
        Some(n - 0x41 + 10)
    } else if 0x61 <= n <= 0x66 {
        Some(n - 0x61 + 10)
    } else {
        None
    }
}

/// Whether `s` is one or more hexadecimal digits and nothing else.
pub open spec fn is_hex_number(s: Seq<char>) -> bool {
    &&& s.len() > 0
    &&& forall|i: int| 0 <= i < s.len() ==> (#[trigger] hex_digit_value(s[i])) is Some
}

/// The number that the hexadecimal digits `s` denote, most significant digit
/// first. A character that is no digit counts as zero.
pub open spec fn hex_value(s: Seq<char>) -> int
    decreases s.len(),
{
    if s.len() == 0 {
        0
    } else {
        16 * hex_value(s.drop_last()) + match hex_digit_value(s.last()) {
            Some(d) => d,
            None => 0,
        }
    }
}

/// `s` without one leading plus sign, if it has one.
pub open spec fn without_plus(s: Seq<char>) -> Seq<char> {
    if s.len() > 0 && s.first() == '+' {
        s.drop_first()
    } else {
        s
    }
}

/// The `u32` written in `s`: an optional plus sign, then at least one
/// hexadecimal digit in either case, and a value that fits in 32 bits. Any
/// other text, the empty one included, is no number.
pub open spec fn parse_hex_u32(s: Seq<char>) -> Option<u32> {
    let digits = without_plus(s);
    if is_hex_number(digits) && hex_value(digits) <= u32::MAX {
        Some(hex_value(digits) as u32)
    } else {
        None
    }
}

/// The upper-case hexadecimal digit for `d`, which is below 16.
pub open spec fn hex_char(d: int) -> char
    recommends
        0 <= d < 16,
{
    if d < 10 {
        (0x30 + d) as char
    } else {
        (0x41 + d - 10) as char
    }
}

/// `n` in upper-case hexadecimal, without leading zeros; zero is `"0"`.
pub open spec fn hex_upper(n: nat) -> Seq<char>
    decreases n,
{
    if n < 16 {
        seq![hex_char(n as int)]
    } else {
        hex_upper(n / 16).push(hex_char((n % 16) as int))
    }
}

/// `s` with zeros put in front until it is `width` characters long; a longer
/// `s` is left as it is.
pub open spec fn zero_padded(s: Seq<char>, width: nat) -> Seq<char> {
    if s.len() >= width {
        s
    } else {
        Seq::new((width - s.len()) as nat, |i: int| '0') + s
    }
}

proof fn lemma_hex_value_nonnegative(s: Seq<char>)
    ensures
        hex_value(s) >= 0,
    decreases s.len(),
{
    if s.len() > 0 {
        lemma_hex_value_nonnegative(s.drop_last());
    }
}

/// More digits never denote less: the value of a prefix is at most the value
/// of the whole.
proof fn lemma_hex_value_prefix(s: Seq<char>, k: int)
    requires
        0 <= k <= s.len(),
    ensures
        hex_value(s.take(k)) <= hex_value(s),
    decreases s.len(),
{
    if k == s.len() {
        assert(s.take(k) =~= s);
    } else {
        let init = s.drop_last();
        lemma_hex_value_prefix(init, k);
        assert(init.take(k) =~= s.take(k));
        lemma_hex_value_nonnegative(init);
    }
}

proof fn lemma_hex_upper_value(n: nat)
    ensures
        is_hex_number(hex_upper(n)),
        hex_value(hex_upper(n)) == n,
        hex_upper(n).first() != '+',
    decreases n,
{
    let s = hex_upper(n);
    if n < 16 {
        assert(s.drop_last() =~= Seq::<char>::empty());
        assert(hex_value(s.drop_last()) == 0);
    } else {
        let hi = hex_upper(n / 16);
        lemma_hex_upper_value(n / 16);
        assert(s.drop_last() =~= hi);
        assert(s.first() == hi.first());
        assert forall|i: int| 0 <= i < s.len() implies (#[trigger] hex_digit_value(s[i])) is Some by {
            if i < hi.len() {
                assert(s[i] == hi[i]);
            }
        }
    }
}

proof fn lemma_zero_padded_value(s: Seq<char>, width: nat)
    requires
        is_hex_number(s),
    ensures
        is_hex_number(zero_padded(s, width)),
        hex_value(zero_padded(s, width)) == hex_value(s),
        s.first() != '+' ==> zero_padded(s, width).first() != '+',
    decreases s.len(),
{
    if s.len() < width {
        let zeros = Seq::new((width - s.len()) as nat, |i: int| '0');
        let p = zeros + s;
        assert forall|i: int| 0 <= i < p.len() implies (#[trigger] hex_digit_value(p[i])) is Some by {
            if i >= zeros.len() {
                assert(p[i] == s[i - zeros.len()]);
            }
        }
        lemma_zeros_then_digits(zeros, s);
    }
}

proof fn lemma_zeros_then_digits(zeros: Seq<char>, s: Seq<char>)
    requires
        forall|i: int| 0 <= i < zeros.len() ==> zeros[i] == '0',
    ensures
        hex_value(zeros + s) == hex_value(s),
    decreases s.len(),
{
    if s.len() == 0 {
        assert(zeros + s =~= zeros);
        lemma_all_zeros(zeros);
    } else {
        lemma_zeros_then_digits(zeros, s.drop_last());
        assert((zeros + s).drop_last() =~= zeros + s.drop_last());
    }
}

proof fn lemma_all_zeros(zeros: Seq<char>)
    requires
        forall|i: int| 0 <= i < zeros.len() ==> zeros[i] == '0',
    ensures
        hex_value(zeros) == 0,
    decreases zeros.len(),
{
    if zeros.len() > 0 {
        lemma_all_zeros(zeros.drop_last());
    }
}

/// What is written can be read back: the upper-case hexadecimal form of a
/// `u32`, padded with zeros to any width, parses to that same number.
pub proof fn lemma_hex_round_trip(n: u32, width: nat)
    ensures
        parse_hex_u32(zero_padded(hex_upper(n as nat), width)) == Some(n),
{
    lemma_hex_upper_value(n as nat);
    lemma_zero_padded_value(hex_upper(n as nat), width);
}

/// The value of `c` as a hexadecimal digit, if it is one.
pub fn hex_digit(c: char) -> (r: Option<u32>)
    ensures
        match r {
            Some(d) => hex_digit_value(c) == Some(d as int),
            None => hex_digit_value(c) is None,
        },
{
    let n: u32 = c as u32;
    if 0x30 <= n && n <= 0x39 {
        Some(n - 0x30)
    } else if 0x41 <= n && n <= 0x46 {
        Some(n - 0x41 + 10)
    } else if 0x61 <= n && n <= 0x66 {
        Some(n - 0x61 + 10)
    } else {
        None
    }
}

/// The upper-case hexadecimal digit for `d`.
pub(crate) fn upper_digit(d: u32) -> (c: char)
    requires
        d < 16,
    ensures
        c == hex_char(d as int),
{
    if d < 10 {
        ((0x30 + d) as u8) as char
    } else {
        ((0x41 + d - 10) as u8) as char
    }
}

/// Reads the `u32` written in hexadecimal in `chars[lo..hi]`.
pub(crate) fn parse_hex_range(chars: &[char], lo: usize, hi: usize) -> (r: Option<u32>)
    requires
        lo <= hi <= chars@.len(),
    ensures
        r == parse_hex_u32(chars@.subrange(lo as int, hi as int)),
{
    let ghost whole = chars@.subrange(lo as int, hi as int);
    let mut i: usize = lo;
    if i < hi && chars[i] == '+' {
        i += 1;
        assert(whole.drop_first() =~= chars@.subrange(i as int, hi as int));
    }
    let start: usize = i;
    let ghost digits = chars@.subrange(start as int, hi as int);
    assert(digits == without_plus(whole));
    if i == hi {
        return None;
    }
    let mut acc: u32 = 0;
    assert(digits.take(0) =~= Seq::<char>::empty());
    while i < hi
        invariant
            start <= i <= hi <= chars@.len(),
            digits == chars@.subrange(start as int, hi as int),
            digits == without_plus(chars@.subrange(lo as int, hi as int)),
            forall|k: int| 0 <= k < i - start ==> (#[trigger] hex_digit_value(digits[k])) is Some,
            acc == hex_value(digits.take(i - start)),
        decreases hi - i,
    {
        let ghost seen = digits.take(i - start);
        let ghost next = digits.take(i - start + 1);
        assert(next.drop_last() =~= seen);
        assert(next.last() == chars@[i as int]);
        match hex_digit(chars[i]) {
            None => {
                assert(hex_digit_value(digits[i - start]) is None);
                return None;
            },
            Some(d) => {
                let wide: u64 = (acc as u64) * 16 + (d as u64);
                if wide > u32::MAX as u64 {
                    proof {
                        lemma_hex_value_prefix(digits, i - start + 1);
                    }
                    return None;
                }
                acc = wide as u32;
            },
        }
        i += 1;
    }
    assert(digits.take(hi - start) =~= digits);
    Some(acc)
}

/// Reads a `u32` written in hexadecimal: an optional plus sign and then one or
/// more digits in either case. Text that is no such number, or whose value
/// does not fit in 32 bits, gives `None`.
pub fn parse_hex(s: &str) -> (r: Option<u32>)
    ensures
        r == parse_hex_u32(s@),
{
    let chars = to_chars(s);
    assert(chars@.subrange(0, chars@.len() as int) =~= chars@);
    parse_hex_range(chars.as_slice(), 0, chars.len())
}

/// Appends `n` in upper-case hexadecimal, padded with zeros to at least
/// `width` digits, to `out`.
pub(crate) fn push_hex(out: &mut String, n: u32, width: usize)
    ensures
        final(out)@ == old(out)@ + zero_padded(hex_upper(n as nat), width as nat),
{
    let mut low_first: Vec<char> = Vec::new();
    let mut rest: u32 = n;
    assert(hex_upper(n as nat) + low_first@.reverse() =~= hex_upper(rest as nat));
    while rest >= 16
        invariant
            hex_upper(n as nat) == hex_upper(rest as nat) + low_first@.reverse(),
        decreases rest,
    {
        let ghost before = low_first@;
        low_first.push(upper_digit(rest % 16));
        assert(hex_upper(rest as nat) == hex_upper((rest / 16) as nat).push(
            hex_char((rest % 16) as int),
        ));
        assert(hex_upper((rest / 16) as nat).push(hex_char((rest % 16) as int)) + before.reverse()
            =~= hex_upper((rest / 16) as nat) + low_first@.reverse());
        rest = rest / 16;
    }
    let ghost before = low_first@;
    low_first.push(upper_digit(rest));
    assert(hex_upper(n as nat) =~= low_first@.reverse()) by {
        assert(hex_upper(rest as nat) + before.reverse() =~= low_first@.reverse());
    }
    let count: usize = low_first.len();
    let mut pad: usize = 0;
    let ghost start = out@;
    while pad < width && width - pad > count
        invariant
            count == low_first@.len(),
            pad <= width,
            pad > 0 ==> pad + count <= width,
            out@ == start + Seq::new(pad as nat, |i: int| '0'),
        decreases width - pad,
    {
        out.push('0');
        pad += 1;
        assert(out@ =~= start + Seq::new(pad as nat, |i: int| '0'));
    }
    let ghost zeros = Seq::new(pad as nat, |i: int| '0');
    let mut left: usize = count;
    assert(low_first@.reverse().take(0) =~= Seq::<char>::empty());
    while left > 0
        invariant
            left <= count == low_first@.len(),
            out@ == start + zeros + low_first@.reverse().take(count - left),
        decreases left,
    {
        left -= 1;
        out.push(low_first[left]);
        assert(low_first@.reverse().take(count - left) =~= low_first@.reverse().take(
            count - left - 1,
        ).push(low_first@[left as int]));
    }
    assert(low_first@.reverse().take(count as int) =~= low_first@.reverse());
    assert(zeros + hex_upper(n as nat) =~= zero_padded(hex_upper(n as nat), width as nat));
    assert(out@ =~= start + zero_padded(hex_upper(n as nat), width as nat));
}

} // verus!
