use vstd::prelude::*;
use vstd::string::StringExecFns;

verus! {

/// Relies on `String::push`: the character is appended at the end.
#[verifier::external_body]
pub(crate) fn push_char(s: &mut String, c: char)
    ensures
        final(s)@ == old(s)@.push(c),
{
    s.push(c);
}

/// Appends every character of `t`.
pub fn push_str(s: &mut String, t: &str)
    ensures
        final(s)@ == old(s)@ + t@,
{
    s.append(t);
}

/// The decimal digits of `n`, most significant first, with no leading zero.
pub open spec fn decimal(n: nat) -> Seq<char>
    decreases n,
{
    if n < 10 {
        seq![digit_char(n)]
    } else {
        decimal(n / 10).push(digit_char(n % 10))
    }
}

pub open spec fn digit_char(d: nat) -> char {
    ((d + 48) as u32) as char
}

/// Appends the decimal form of `n` to `s`.
pub fn push_decimal(s: &mut String, n: u64)
    ensures
        final(s)@ == old(s)@ + decimal(n as nat),
    decreases n,
{
    if n >= 10 {
        push_decimal(s, n / 10);
    }
    let d = (n % 10) as u8;
    let c = (48u8 + d) as char;
    push_char(s, c);
    proof {
        if n >= 10 {
            assert(decimal(n as nat) == decimal((n / 10) as nat).push(digit_char((n % 10) as nat)));
        }
    }
}

/// The decimal form of a signed number, with a leading `-` when negative.
pub open spec fn signed_decimal(n: int) -> Seq<char> {
    if n < 0 {
        seq!['-'] + decimal((-n) as nat)
    } else {
        decimal(n as nat)
    }
}

/// Appends the decimal form of `n`, with a leading `-` when negative.
pub fn push_signed(s: &mut String, n: i32)
    ensures
        final(s)@ == old(s)@ + signed_decimal(n as int),
{
    if n < 0 {
        push_char(s, '-');
        let m: u64 = (-(n as i64)) as u64;
        push_decimal(s, m);
    } else {
        push_decimal(s, n as u64);
    }
    proof {
        assert(final(s)@ =~= old(s)@ + signed_decimal(n as int));
    }
}

/// The value of a run of decimal digits, read most significant first.
pub open spec fn digits_value(b: Seq<u8>) -> nat
    decreases b.len(),
{
    if b.len() == 0 {
        0
    } else {
        digits_value(b.drop_last()) * 10 + (b.last() - 48) as nat
    }
}

pub open spec fn is_digit(c: u8) -> bool {
    48 <= c <= 57
}

pub open spec fn all_digits(b: Seq<u8>) -> bool {
    forall|i: int| 0 <= i < b.len() ==> is_digit(#[trigger] b[i])
}

/// What `str::parse::<u32>` accepts that this crate writes: a non-empty run of
/// digits, optionally after one `+`, whose value fits in 32 bits.
pub open spec fn parse_u32_spec(b: Seq<u8>) -> Option<u32> {
    let d = if b.len() > 0 && b[0] == 43u8 {
        b.drop_first()
    } else {
        b
    };
    if d.len() > 0 && all_digits(d) && digits_value(d) <= u32::MAX {
        Some(digits_value(d) as u32)
    } else {
        None
    }
}

/// Reads a decimal number from `b[start..end]`, as `str::parse::<u32>` does.
pub fn parse_u32(b: &[u8], start: usize, end: usize) -> (r: Option<u32>)
    requires
        start <= end <= b@.len(),
    ensures
        r == parse_u32_spec(b@.subrange(start as int, end as int)),
{
    let ghost whole = b@.subrange(start as int, end as int);
    let mut i = start;
    if i < end && b[i] == 43u8 {
        i = i + 1;
    }
    let ghost d = b@.subrange(i as int, end as int);
    proof {
        if whole.len() > 0 && whole[0] == 43u8 {
            assert(d =~= whole.drop_first());
        } else {
            assert(d =~= whole);
        }
        assert(parse_u32_spec(whole) == (if d.len() > 0 && all_digits(d) && digits_value(d)
            <= u32::MAX {
            Some(digits_value(d) as u32)
        } else {
            None::<u32>
        }));
    }
    if i == end {
        return None;
    }
    let mut v: u64 = 0;
    let mut j = i;
    while j < end
        invariant
            start <= i <= j <= end <= b@.len(),
            d == b@.subrange(i as int, end as int),
            d.len() > 0,
            parse_u32_spec(b@.subrange(start as int, end as int)) == (if all_digits(d)
                && digits_value(d) <= u32::MAX {
                Some(digits_value(d) as u32)
            } else {
                None::<u32>
            }),
            all_digits(b@.subrange(i as int, j as int)),
            v == digits_value(b@.subrange(i as int, j as int)),
            v <= u32::MAX,
        decreases end - j,
    {
        let c = b[j];
        let ghost pre = b@.subrange(i as int, j as int);
        let ghost next = b@.subrange(i as int, j as int + 1);
        assert(next.drop_last() =~= pre);
        if c < 48 || c > 57 {
            proof {
                assert(d[j - i] == c);
                assert(!all_digits(d));
            }
            return None;
        }
        let nv = v * 10 + (c - 48) as u64;
        if nv > 0xffff_ffff {
            proof {
                assert(next.last() == c);
                assert(digits_value(next) == nv);
                if all_digits(d) {
                    lemma_digits_prefix_le(d, (j - i + 1) as nat);
                    assert(d.subrange(0, (j - i + 1) as int) =~= next);
                }
            }
            return None;
        }
        proof {
            assert(next.last() == c);
            assert(all_digits(next));
        }
        v = nv;
        j = j + 1;
    }
    proof {
        assert(b@.subrange(i as int, j as int) =~= d);
    }
    Some(v as u32)
}

/// What `str::parse::<u64>` accepts that this crate writes: a non-empty run of
/// digits, optionally after one `+`, whose value fits in 64 bits.
pub open spec fn parse_u64_spec(b: Seq<u8>) -> Option<u64> {
    let d = if b.len() > 0 && b[0] == 43u8 {
        b.drop_first()
    } else {
        b
    };
    if d.len() > 0 && all_digits(d) && digits_value(d) <= u64::MAX {
        Some(digits_value(d) as u64)
    } else {
        None
    }
}

/// Reads a decimal number from `b[start..end]`, as `str::parse::<u64>` does.
pub fn parse_u64(b: &[u8], start: usize, end: usize) -> (r: Option<u64>)
    requires
        start <= end <= b@.len(),
    ensures
        r == parse_u64_spec(b@.subrange(start as int, end as int)),
{
    let ghost whole = b@.subrange(start as int, end as int);
    let mut i = start;
    if i < end && b[i] == 43u8 {
        i = i + 1;
    }
    let ghost d = b@.subrange(i as int, end as int);
    proof {
        if whole.len() > 0 && whole[0] == 43u8 {
            assert(d =~= whole.drop_first());
        } else {
            assert(d =~= whole);
        }
        assert(parse_u64_spec(whole) == (if d.len() > 0 && all_digits(d) && digits_value(d)
            <= u64::MAX {
            Some(digits_value(d) as u64)
        } else {
            None::<u64>
        }));
    }
    if i == end {
        return None;
    }
    let mut v: u128 = 0;
    let mut j = i;
    while j < end
        invariant
            start <= i <= j <= end <= b@.len(),
            d == b@.subrange(i as int, end as int),
            d.len() > 0,
            parse_u64_spec(b@.subrange(start as int, end as int)) == (if all_digits(d)
                && digits_value(d) <= u64::MAX {
                Some(digits_value(d) as u64)
            } else {
                None::<u64>
            }),
            all_digits(b@.subrange(i as int, j as int)),
            v == digits_value(b@.subrange(i as int, j as int)),
            v <= u64::MAX,
        decreases end - j,
    {
        let c = b[j];
        let ghost pre = b@.subrange(i as int, j as int);
        let ghost next = b@.subrange(i as int, j as int + 1);
        assert(next.drop_last() =~= pre);
        if c < 48 || c > 57 {
            proof {
                assert(d[j - i] == c);
                assert(!all_digits(d));
            }
            return None;
        }
        let nv = v * 10 + (c - 48) as u128;
        if nv > 0xffff_ffff_ffff_ffff {
            proof {
                assert(next.last() == c);
                assert(digits_value(next) == nv);
                if all_digits(d) {
                    lemma_digits_prefix_le(d, (j - i + 1) as nat);
                    assert(d.subrange(0, (j - i + 1) as int) =~= next);
                }
            }
            return None;
        }
        proof {
            assert(next.last() == c);
            assert(all_digits(next));
        }
        v = nv;
        j = j + 1;
    }
    proof {
        assert(b@.subrange(i as int, j as int) =~= d);
    }
    Some(v as u64)
}

/// The value of a run of digits is at least that of any of its prefixes.
pub proof fn lemma_digits_prefix_le(d: Seq<u8>, n: nat)
    requires
        n <= d.len(),
        all_digits(d),
    ensures
        digits_value(d.subrange(0, n as int)) <= digits_value(d),
    decreases d.len() - n,
{
    if n < d.len() {
        lemma_digits_prefix_le(d, n + 1);
        let p = d.subrange(0, n as int + 1);
        assert(p.drop_last() =~= d.subrange(0, n as int));
        assert(is_digit(d[n as int]));
    } else {
        assert(d.subrange(0, n as int) =~= d);
    }
}

/// Space, tab, line feed, vertical tab, form feed and carriage return.
pub open spec fn is_space(c: u8) -> bool {
    c == 32 || (9 <= c <= 13)
}

/// The spans of the maximal runs of non-space bytes of `b` from position `i`
/// on, when a run began at `open` (if any) and has not ended before `i`.
pub open spec fn spans_from(b: Seq<u8>, i: int, open: Option<int>) -> Seq<(int, int)>
    decreases b.len() - i,
{
    if i >= b.len() {
        match open {
            Some(s) => seq![(s, b.len() as int)],
            None => Seq::empty(),
        }
    } else if is_space(b[i]) {
        match open {
            Some(s) => seq![(s, i)] + spans_from(b, i + 1, None),
            None => spans_from(b, i + 1, None),
        }
    } else {
        spans_from(
            b,
            i + 1,
            match open {
                Some(s) => Some(s),
                None => Some(i),
            },
        )
    }
}

/// The spans of the whitespace-separated fields of `b`, in order.
pub open spec fn fields(b: Seq<u8>) -> Seq<(int, int)> {
    spans_from(b, 0, None)
}

pub open spec fn as_spans(v: Seq<(usize, usize)>) -> Seq<(int, int)> {
    v.map_values(|p: (usize, usize)| (p.0 as int, p.1 as int))
}

/// The spans of the maximal runs of non-space bytes of `b`, in order.
pub fn split_fields(b: &[u8]) -> (r: Vec<(usize, usize)>)
    ensures
        as_spans(r@) == fields(b@),
        forall|k: int|
            #![trigger r@[k]]
            0 <= k < r@.len() ==> r@[k].0 < r@[k].1 && r@[k].1 <= b@.len(),
{
    let mut out: Vec<(usize, usize)> = Vec::new();
    let mut open: Option<usize> = None;
    let mut i: usize = 0;
    while i < b.len()
        invariant
            i <= b@.len(),
            as_spans(out@) + spans_from(
                b@,
                i as int,
                match open {
                    Some(s) => Some(s as int),
                    None => None,
                },
            ) == fields(b@),
            forall|k: int|
                #![trigger out@[k]]
                0 <= k < out@.len() ==> out@[k].0 < out@[k].1 && out@[k].1 <= i,
            open matches Some(s) ==> s < i,
        decreases b@.len() - i,
    {
        let c = b[i];
        let ghost before = out@;
        if c == 32 || (9 <= c && c <= 13) {
            if let Some(s) = open {
                out.push((s, i));
                open = None;
                proof {
                    assert(as_spans(out@) =~= as_spans(before).push((s as int, i as int)));
                    assert(as_spans(out@) + spans_from(b@, i + 1, None) =~= as_spans(before) + (seq![(s as int, i as int)] + spans_from(b@, i + 1, None)));
                }
            }
        } else if open.is_none() {
            open = Some(i);
        }
        i = i + 1;
    }
    let ghost before = out@;
    if let Some(s) = open {
        out.push((s, i));
        proof {
            assert(as_spans(out@) =~= as_spans(before).push((s as int, i as int)));
        }
    }
    proof {
        assert(as_spans(out@) =~= fields(b@));
    }
    out
}

/// The bytes of an ASCII text.
pub open spec fn ascii_bytes(s: Seq<char>) -> Seq<u8> {
    Seq::new(s.len(), |i: int| s[i] as u8)
}

/// `s` is ASCII text with no space in it.
pub open spec fn word_chars(s: Seq<char>) -> bool {
    forall|i: int| #![trigger s[i]] 0 <= i < s.len() ==> '\0' <= s[i] <= '\u{7f}' && !is_space(s[i] as u8)
}

/// The decimal form of a number is a run of digits that reads back as the number.
pub proof fn lemma_decimal_digits(n: nat)
    ensures
        decimal(n).len() > 0,
        word_chars(decimal(n)),
        all_digits(ascii_bytes(decimal(n))),
        digits_value(ascii_bytes(decimal(n))) == n,
    decreases n,
{
    let b = ascii_bytes(decimal(n));
    if n < 10 {
        assert(b =~= seq![(n + 48) as u8]);
        assert(b.drop_last() =~= Seq::<u8>::empty());
        assert(digits_value(b.drop_last()) == 0);
    } else {
        lemma_decimal_digits(n / 10);
        let d = decimal(n / 10);
        let bd = ascii_bytes(d);
        assert(decimal(n) == d.push(digit_char(n % 10)));
        assert(b.drop_last() =~= bd);
        assert(b.last() == (n % 10 + 48) as u8);
        assert forall|i: int| 0 <= i < b.len() implies is_digit(#[trigger] b[i]) by {
            if i < bd.len() {
                assert(b[i] == bd[i]);
            }
        }
        assert(digits_value(b) == digits_value(bd) * 10 + (b.last() - 48) as nat);
        assert(n == (n / 10) * 10 + n % 10);
    }
}

/// The decimal form of a 32-bit number reads back as that number.
pub proof fn lemma_decimal_parses(n: u32)
    ensures
        parse_u32_spec(ascii_bytes(decimal(n as nat))) == Some(n),
{
    lemma_decimal_digits(n as nat);
    let b = ascii_bytes(decimal(n as nat));
    assert(is_digit(b[0]));
}

/// A run of non-space bytes from `j` to `e`, begun at `start`, is one field.
pub proof fn lemma_spans_run(s: Seq<u8>, j: int, start: int, e: int)
    requires
        0 <= start <= j <= e <= s.len(),
        forall|k: int| j <= k < e ==> !is_space(#[trigger] s[k]),
        e == s.len() || is_space(s[e]),
    ensures
        spans_from(s, j, Some(start)) == if e == s.len() {
            seq![(start, e)]
        } else {
            seq![(start, e)] + spans_from(s, e + 1, None)
        },
    decreases e - j,
{
    if j < e {
        lemma_spans_run(s, j + 1, start, e);
    }
}

/// A field `w` followed by a space (or by the end) at position `j`.
pub proof fn lemma_spans_word(s: Seq<u8>, j: int, w: Seq<char>)
    requires
        0 <= j,
        j + w.len() <= s.len(),
        w.len() > 0,
        word_chars(w),
        s.subrange(j, j + w.len()) == ascii_bytes(w),
        j + w.len() == s.len() || is_space(s[j + w.len()]),
    ensures
        spans_from(s, j, None) == if j + w.len() == s.len() {
            seq![(j, j + w.len())]
        } else {
            seq![(j, j + w.len())] + spans_from(s, j + w.len() + 1, None)
        },
{
    let e = j + w.len();
    assert forall|k: int| j <= k < e implies !is_space(#[trigger] s[k]) by {
        assert(s.subrange(j, e)[k - j] == s[k]);
        assert(ascii_bytes(w)[k - j] == w[k - j] as u8);
    }
    assert(s.subrange(j, e)[0] == s[j]);
    assert(!is_space(s[j]));
    lemma_spans_run(s, j + 1, j, e);
}

} // verus!
