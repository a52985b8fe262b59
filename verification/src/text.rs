//! Character-level text handling: strings as sequences of `char`, whitespace
//! trimming and splitting on a separator.
//!
//! Positions are counted in characters, never in bytes, so every function here
//! works on a buffer of `char` and on half-open ranges `lo..hi` into it.

use vstd::prelude::*;

verus! {

/// `String::push` of the standard library: the string afterwards is the string
/// before with `c` appended as its last character.
pub assume_specification[ String::push ](s: &mut String, c: char)
    ensures
        final(s)@ == old(s)@.push(c),
;

/// `String::pop` of the standard library: an empty string stays empty and
/// yields `None`; otherwise the last character is removed and returned.
pub assume_specification[ String::pop ](s: &mut String) -> (r: Option<char>)
    ensures
        old(s)@.len() == 0 ==> r is None && final(s)@ == old(s)@,
        old(s)@.len() > 0 ==> r == Some(old(s)@.last()) && final(s)@ == old(s)@.drop_last(),
;

/// The characters that count as whitespace when a line is trimmed: the code
/// points that Unicode marks as `White_Space`.
pub open spec fn is_whitespace_spec(c: char) -> bool {
    let n = c as u32;
    ||| 0x09 <= n <= 0x0D
    ||| n == 0x20
    ||| n == 0x85
    ||| n == 0xA0
    ||| n == 0x1680
    ||| 0x2000 <= n <= 0x200A
    ||| n == 0x2028
    ||| n == 0x2029
    ||| n == 0x202F
    ||| n == 0x205F
    ||| n == 0x3000
}

/// `s` without its leading whitespace.
pub open spec fn trim_start(s: Seq<char>) -> Seq<char>
    decreases s.len(),
{
    if s.len() > 0 && is_whitespace_spec(s.first()) {
        trim_start(s.drop_first())
    } else {
        s
    }
}

/// `s` without its trailing whitespace.
pub open spec fn trim_end(s: Seq<char>) -> Seq<char>
    decreases s.len(),
{
    if s.len() > 0 && is_whitespace_spec(s.last()) {
        trim_end(s.drop_last())
    } else {
        s
    }
}

/// `s` without leading and trailing whitespace.
pub open spec fn trim(s: Seq<char>) -> Seq<char> {
    trim_end(trim_start(s))
}

/// The fields of `s` between occurrences of `sep`. There is always at least one
/// field; two adjacent separators enclose an empty field, and a separator at
/// either end borders an empty field.
pub open spec fn split(s: Seq<char>, sep: char) -> Seq<Seq<char>>
    decreases s.len(),
{
    if s.len() == 0 {
        seq![Seq::<char>::empty()]
    } else {
        let before = split(s.drop_last(), sep);
        if s.last() == sep {
            before.push(Seq::<char>::empty())
        } else {
            before.update(before.len() - 1, before.last().push(s.last()))
        }
    }
}

/// `fields` joined back together with `sep` between neighbours.
pub open spec fn join(fields: Seq<Seq<char>>, sep: char) -> Seq<char>
    decreases fields.len(),
{
    if fields.len() == 0 {
        Seq::<char>::empty()
    } else if fields.len() == 1 {
        fields[0]
    } else {
        join(fields.drop_last(), sep).push(sep) + fields.last()
    }
}

/// Splitting loses nothing and leaves no separator inside a field: joining the
/// fields of `s` gives `s` back, and no field contains `sep`.
pub proof fn lemma_split_join(s: Seq<char>, sep: char)
    ensures
        split(s, sep).len() >= 1,
        join(split(s, sep), sep) == s,
        forall|k: int| 0 <= k < split(s, sep).len() ==> !(#[trigger] split(s, sep)[k]).contains(sep),
    decreases s.len(),
{
    if s.len() == 0 {
        assert(split(s, sep)[0] =~= Seq::<char>::empty());
        assert(join(split(s, sep), sep) =~= s);
    } else {
        let init = s.drop_last();
        let before = split(init, sep);
        lemma_split_join(init, sep);
        if s.last() == sep {
            let now = before.push(Seq::<char>::empty());
            assert(now.drop_last() =~= before);
            assert(join(now, sep) =~= init.push(sep));
            assert(init.push(sep) =~= s);
        } else {
            let grown = before.last().push(s.last());
            let now = before.update(before.len() - 1, grown);
            if before.len() == 1 {
                assert(join(now, sep) =~= init.push(s.last()));
            } else {
                assert(now.drop_last() =~= before.drop_last());
                assert(join(before, sep) == join(before.drop_last(), sep).push(sep) + before.last());
                assert(join(now, sep) =~= (join(before.drop_last(), sep).push(sep) + before.last()).push(
                    s.last(),
                ));
            }
            assert(init.push(s.last()) =~= s);
            assert forall|k: int| 0 <= k < now.len() implies !(#[trigger] now[k]).contains(sep) by {
                if k == before.len() - 1 {
                    assert(!before[k].contains(sep));
                    if grown.contains(sep) {
                        let j = choose|j: int| 0 <= j < grown.len() && grown[j] == sep;
                        if j < before[k].len() {
                            assert(before[k][j] == sep);
                        }
                    }
                } else {
                    assert(now[k] == before[k]);
                }
            }
        }
    }
}

/// Trimming removes only whitespace, and only at the two ends: `trim(s)` is a
/// stretch `a..b` of `s` with nothing but whitespace before `a` and from `b`
/// on, and it neither begins nor ends with whitespace.
pub proof fn lemma_trim_bounds(s: Seq<char>) -> (bounds: (int, int))
    ensures
        0 <= bounds.0 <= bounds.1 <= s.len(),
        trim(s) == s.subrange(bounds.0, bounds.1),
        forall|k: int| 0 <= k < bounds.0 ==> is_whitespace_spec(#[trigger] s[k]),
        forall|k: int| bounds.1 <= k < s.len() ==> is_whitespace_spec(#[trigger] s[k]),
        trim(s).len() > 0 ==> !is_whitespace_spec(trim(s).first()) && !is_whitespace_spec(
            trim(s).last(),
        ),
{
    let a = lemma_trim_start_bound(s);
    let t = s.subrange(a, s.len() as int);
    let n = lemma_trim_end_bound(t);
    assert(t.subrange(0, n) =~= s.subrange(a, a + n));
    assert forall|k: int| a + n <= k < s.len() implies is_whitespace_spec(#[trigger] s[k]) by {
        assert(s[k] == t[k - a]);
    }
    if trim(s).len() > 0 {
        assert(trim(s).first() == t[0]);
    }
    (a, a + n)
}

proof fn lemma_trim_start_bound(s: Seq<char>) -> (a: int)
    ensures
        0 <= a <= s.len(),
        trim_start(s) == s.subrange(a, s.len() as int),
        forall|k: int| 0 <= k < a ==> is_whitespace_spec(#[trigger] s[k]),
        a < s.len() ==> !is_whitespace_spec(s[a]),
    decreases s.len(),
{
    if s.len() > 0 && is_whitespace_spec(s.first()) {
        let rest = s.drop_first();
        let a = lemma_trim_start_bound(rest);
        assert(rest.subrange(a, rest.len() as int) =~= s.subrange(a + 1, s.len() as int));
        assert forall|k: int| 0 <= k < a + 1 implies is_whitespace_spec(#[trigger] s[k]) by {
            if k > 0 {
                assert(s[k] == rest[k - 1]);
            }
        }
        a + 1
    } else {
        assert(s.subrange(0, s.len() as int) =~= s);
        0
    }
}

proof fn lemma_trim_end_bound(s: Seq<char>) -> (b: int)
    ensures
        0 <= b <= s.len(),
        trim_end(s) == s.subrange(0, b),
        forall|k: int| b <= k < s.len() ==> is_whitespace_spec(#[trigger] s[k]),
        b > 0 ==> !is_whitespace_spec(s[b - 1]),
    decreases s.len(),
{
    if s.len() > 0 && is_whitespace_spec(s.last()) {
        let init = s.drop_last();
        let b = lemma_trim_end_bound(init);
        assert(init.subrange(0, b) =~= s.subrange(0, b));
        assert forall|k: int| b <= k < s.len() implies is_whitespace_spec(#[trigger] s[k]) by {
            if k < init.len() {
                assert(s[k] == init[k]);
            }
        }
        b
    } else {
        assert(s.subrange(0, s.len() as int) =~= s);
        s.len() as int
    }
}

/// Whether `c` is whitespace.
#[verifier::when_used_as_spec(is_whitespace_spec)]
pub fn is_whitespace(c: char) -> (r: bool)
    ensures
        r == is_whitespace_spec(c),
{
    let n: u32 = c as u32;
    (0x09 <= n && n <= 0x0D) || n == 0x20 || n == 0x85 || n == 0xA0 || n == 0x1680 || (0x2000 <= n
        && n <= 0x200A) || n == 0x2028 || n == 0x2029 || n == 0x202F || n == 0x205F || n == 0x3000
}

/// The characters of `s`, in order.
pub fn to_chars(s: &str) -> (chars: Vec<char>)
    ensures
        chars@ == s@,
{
    let mut chars: Vec<char> = Vec::new();
    for c in it: s.chars()
        invariant
            chars@ == it.seq().take(it.index()),
    {
        chars.push(c);
    }
    chars
}

/// The string made of `chars[lo..hi]`.
pub(crate) fn string_of(chars: &[char], lo: usize, hi: usize) -> (s: String)
    requires
        lo <= hi <= chars@.len(),
    ensures
        s@ == chars@.subrange(lo as int, hi as int),
{
    let mut s = String::new();
    let mut i: usize = lo;
    while i < hi
        invariant
            lo <= i <= hi <= chars@.len(),
            s@ == chars@.subrange(lo as int, i as int),
        decreases hi - i,
    {
        s.push(chars[i]);
        i += 1;
    }
    s
}

/// Where `chars[lo..hi]` begins and ends once leading and trailing whitespace
/// is left off.
pub(crate) fn trim_range(chars: &[char], lo: usize, hi: usize) -> (r: (usize, usize))
    requires
        lo <= hi <= chars@.len(),
    ensures
        lo <= r.0 <= r.1 <= hi,
        chars@.subrange(r.0 as int, r.1 as int) == trim(chars@.subrange(lo as int, hi as int)),
{
    let mut a: usize = lo;
    while a < hi && is_whitespace(chars[a])
        invariant
            lo <= a <= hi <= chars@.len(),
            trim_start(chars@.subrange(lo as int, hi as int)) == trim_start(
                chars@.subrange(a as int, hi as int),
            ),
        decreases hi - a,
    {
        assert(chars@.subrange(a as int, hi as int).drop_first() =~= chars@.subrange(
            a + 1,
            hi as int,
        ));
        a += 1;
    }
    let mut b: usize = hi;
    while b > a && is_whitespace(chars[b - 1])
        invariant
            a <= b <= hi <= chars@.len(),
            trim_end(chars@.subrange(a as int, hi as int)) == trim_end(
                chars@.subrange(a as int, b as int),
            ),
        decreases b,
    {
        assert(chars@.subrange(a as int, b as int).drop_last() =~= chars@.subrange(
            a as int,
            b - 1,
        ));
        b -= 1;
    }
    (a, b)
}

/// The ranges of the fields of `chars[lo..hi]` between occurrences of `sep`.
pub(crate) fn split_ranges(chars: &[char], lo: usize, hi: usize, sep: char) -> (fields: Vec<
    (usize, usize),
>)
    requires
        lo <= hi <= chars@.len(),
    ensures
        fields@.len() == split(chars@.subrange(lo as int, hi as int), sep).len(),
        forall|k: int|
            0 <= k < fields@.len() ==> {
                &&& lo <= (#[trigger] fields@[k]).0 <= fields@[k].1 <= hi
                &&& chars@.subrange(fields@[k].0 as int, fields@[k].1 as int) == split(
                    chars@.subrange(lo as int, hi as int),
                    sep,
                )[k]
            },
{
    let mut fields: Vec<(usize, usize)> = Vec::new();
    let mut start: usize = lo;
    let mut i: usize = lo;
    assert(chars@.subrange(lo as int, lo as int) =~= Seq::<char>::empty());
    while i < hi
        invariant
            lo <= start <= i <= hi <= chars@.len(),
            split(chars@.subrange(lo as int, i as int), sep).len() == fields@.len() + 1,
            split(chars@.subrange(lo as int, i as int), sep).last() == chars@.subrange(
                start as int,
                i as int,
            ),
            forall|k: int|
                0 <= k < fields@.len() ==> {
                    &&& lo <= (#[trigger] fields@[k]).0 <= fields@[k].1 <= i
                    &&& chars@.subrange(fields@[k].0 as int, fields@[k].1 as int) == split(
                        chars@.subrange(lo as int, i as int),
                        sep,
                    )[k]
                },
        decreases hi - i,
    {
        let ghost seen = chars@.subrange(lo as int, i as int);
        let ghost next = chars@.subrange(lo as int, i + 1);
        assert(next.drop_last() =~= seen);
        assert(next.last() == chars@[i as int]);
        if chars[i] == sep {
            fields.push((start, i));
            start = i + 1;
            assert(chars@.subrange(start as int, start as int) =~= Seq::<char>::empty());
        } else {
            assert(chars@.subrange(start as int, i as int).push(chars@[i as int])
                =~= chars@.subrange(start as int, i + 1));
        }
        i += 1;
    }
    fields.push((start, hi));
    fields
}

} // verus!
