//! Byte-level text helpers shared by the puzzle solvers.

use vstd::prelude::*;

verus! {

/// ASCII whitespace: space, tab, line feed, vertical tab, form feed, carriage return.
pub open spec fn is_space(b: u8) -> bool {
    b == 32 || (9 <= b && b <= 13)
}

/// `[lo, hi)` is what remains of `s` once leading and trailing whitespace is
/// removed; for a blank `s` it is the empty range at its end.
pub open spec fn is_trim_range(s: Seq<u8>, lo: int, hi: int) -> bool {
    &&& 0 <= lo <= hi <= s.len()
    &&& forall|i: int| 0 <= i < lo ==> is_space(#[trigger] s[i])
    &&& forall|i: int| hi <= i < s.len() ==> is_space(#[trigger] s[i])
    &&& lo < hi ==> !is_space(s[lo]) && !is_space(s[hi - 1])
    &&& lo == hi ==> lo == s.len()
}

/// `s` without its leading and trailing whitespace.
pub open spec fn trimmed(s: Seq<u8>) -> Seq<u8> {
    let (lo, hi) = choose|lo: int, hi: int| is_trim_range(s, lo, hi);
    s.subrange(lo, hi)
}

/// The trim range of a sequence is unique.
pub proof fn lemma_trim_range_unique(s: Seq<u8>, lo1: int, hi1: int, lo2: int, hi2: int)
    requires
        is_trim_range(s, lo1, hi1),
        is_trim_range(s, lo2, hi2),
    ensures
        lo1 == lo2 && hi1 == hi2,
        s.subrange(lo1, hi1) == s.subrange(lo2, hi2),
{
    if lo1 < hi1 {
        if lo2 < lo1 {
            assert(is_space(s[lo2]));
        }
        if lo1 < lo2 {
            assert(is_space(s[lo1]));
        }
        if hi2 > hi1 {
            assert(is_space(s[hi2 - 1]));
        }
        if hi1 > hi2 {
            assert(is_space(s[hi1 - 1]));
        }
    } else if lo2 < hi2 {
        assert(is_space(s[lo2]));
    }
    assert(s.subrange(lo1, hi1) =~= s.subrange(lo2, hi2));
}

/// Whether `b` is ASCII whitespace.
pub fn is_ascii_space(b: u8) -> (r: bool)
    ensures
        r == is_space(b),
{
    b == 32 || (9 <= b && b <= 13)
}

/// The bounds of `s` without its leading and trailing whitespace.
pub fn trim_bounds(s: &[u8]) -> (r: (usize, usize))
    ensures
        is_trim_range(s@, r.0 as int, r.1 as int),
        s@.subrange(r.0 as int, r.1 as int) == trimmed(s@),
{
    let mut lo: usize = 0;
    while lo < s.len() && is_ascii_space(s[lo])
        invariant
            lo <= s.len(),
            forall|i: int| 0 <= i < lo ==> is_space(#[trigger] s@[i]),
        decreases s.len() - lo,
    {
        lo = lo + 1;
    }
    let mut hi: usize = s.len();
    while hi > lo && is_ascii_space(s[hi - 1])
        invariant
            lo <= hi <= s.len(),
            lo < s.len() ==> !is_space(s@[lo as int]),
            forall|i: int| 0 <= i < lo ==> is_space(#[trigger] s@[i]),
            forall|i: int| hi <= i < s.len() ==> is_space(#[trigger] s@[i]),
        decreases hi - lo,
    {
        hi = hi - 1;
    }
    proof {
        assert(is_trim_range(s@, lo as int, hi as int));
        let (lo2, hi2) = choose|lo2: int, hi2: int| is_trim_range(s@, lo2, hi2);
        lemma_trim_range_unique(s@, lo as int, hi as int, lo2, hi2);
    }
    (lo, hi)
}


/// An ASCII decimal digit.
pub open spec fn is_digit(b: u8) -> bool {
    48 <= b && b <= 57
}

/// The number written by the decimal digits `d`.
pub open spec fn digits_value(d: Seq<u8>) -> nat
    decreases d.len(),
{
    if d.len() == 0 {
        0
    } else {
        digits_value(d.drop_last()) * 10 + (d.last() - 48) as nat
    }
}

/// `d` is one or more decimal digits.
pub open spec fn all_digits(d: Seq<u8>) -> bool {
    d.len() > 0 && forall|i: int| 0 <= i < d.len() ==> is_digit(#[trigger] d[i])
}

/// `l` without a leading `+`.
pub open spec fn without_plus(l: Seq<u8>) -> Seq<u8> {
    if l.len() > 0 && l[0] == 43 {
        l.drop_first()
    } else {
        l
    }
}

/// The number an unsigned decimal text `l` (digits, optionally after a `+`)
/// stands for, if it is one that fits in a `u64`.
pub open spec fn unsigned_text_value(l: Seq<u8>) -> Option<u64> {
    let d = without_plus(l);
    if all_digits(d) && digits_value(d) <= u64::MAX {
        Some(digits_value(d) as u64)
    } else {
        None
    }
}

/// The number a signed decimal text `l` (digits, optionally after a `+` or
/// a `-`) stands for, if it is one that fits in an `i64`.
pub open spec fn signed_text_value(l: Seq<u8>) -> Option<i64> {
    if l.len() > 0 && l[0] == 45 {
        let d = l.drop_first();
        if all_digits(d) && digits_value(d) <= i64::MAX + 1 {
            Some((-digits_value(d)) as i64)
        } else {
            None
        }
    } else {
        let d = without_plus(l);
        if all_digits(d) && digits_value(d) <= i64::MAX {
            Some(digits_value(d) as i64)
        } else {
            None
        }
    }
}

proof fn lemma_digits_value_grows(d: Seq<u8>, i: int, j: int)
    requires
        0 <= i <= j <= d.len(),
    ensures
        digits_value(d.take(i)) <= digits_value(d.take(j)),
    decreases j - i,
{
    if i < j {
        lemma_digits_value_grows(d, i, j - 1);
        assert(d.take(j).drop_last() =~= d.take(j - 1));
    }
}

/// The value of the decimal digits `l[from..]`, or `None` when one of them
/// is no digit, there are none, or the value exceeds `limit`.
fn digits_up_to(l: &[u8], from: usize, limit: u64) -> (r: Option<u64>)
    requires
        from <= l.len(),
    ensures
        ({
            let d = l@.skip(from as int);
            match r {
                Some(v) => all_digits(d) && digits_value(d) <= limit && v == digits_value(d),
                None => !all_digits(d) || digits_value(d) > limit,
            }
        }),
{
    let ghost d = l@.skip(from as int);
    if from == l.len() {
        return None;
    }
    let mut value: u64 = 0;
    let mut i = from;
    while i < l.len()
        invariant
            from <= i <= l.len(),
            d == l@.skip(from as int),
            forall|k: int| 0 <= k < i - from ==> is_digit(#[trigger] d[k]),
            value == digits_value(d.take(i - from)),
            value <= limit,
        decreases l.len() - i,
    {
        let b = l[i];
        if b < 48 || b > 57 {
            proof {
                assert(d[i - from] == b);
            }
            return None;
        }
        let digit = (b - 48) as u64;
        proof {
            assert(d.take(i - from + 1).drop_last() =~= d.take(i - from));
            assert(d.take(i - from + 1).last() == b);
        }
        if digit > limit || value > (limit - digit) / 10 {
            proof {
                assert(digits_value(d.take(i - from + 1)) > limit) by (nonlinear_arith)
                    requires
                        digits_value(d.take(i - from + 1)) == value * 10 + digit,
                        digit > limit || value > (limit - digit) / 10,
                        value >= 0,
                ;
                lemma_digits_value_grows(d, i - from + 1, d.len() as int);
                assert(d.take(d.len() as int) =~= d);
            }
            return None;
        }
        value = value * 10 + digit;
        i = i + 1;
    }
    proof {
        assert(d.take(d.len() as int) =~= d);
    }
    Some(value)
}

/// The unsigned number written in `line`, as `str::parse::<u64>` reads it.
pub fn parse_unsigned(line: &[u8]) -> (r: Option<u64>)
    ensures
        r == unsigned_text_value(line@),
{
    let from: usize = if line.len() > 0 && line[0] == 43 {
        1
    } else {
        0
    };
    proof {
        assert(line@.skip(from as int) =~= without_plus(line@));
    }
    digits_up_to(line, from, u64::MAX)
}

/// The signed number written in `line`, as `str::parse::<i64>` reads it.
pub fn parse_integer(line: &[u8]) -> (r: Option<i64>)
    ensures
        r == signed_text_value(line@),
{
    if line.len() > 0 && line[0] == 45 {
        proof {
            assert(line@.skip(1) =~= line@.drop_first());
        }
        match digits_up_to(line, 1, 0x8000_0000_0000_0000) {
            Some(v) => {
                if v == 0x8000_0000_0000_0000 {
                    Some(i64::MIN)
                } else {
                    Some(-(v as i64))
                }
            },
            None => None,
        }
    } else {
        let from: usize = if line.len() > 0 && line[0] == 43 {
            1
        } else {
            0
        };
        proof {
            assert(line@.skip(from as int) =~= without_plus(line@));
        }
        match digits_up_to(line, from, 0x7fff_ffff_ffff_ffff) {
            Some(v) => Some(v as i64),
            None => None,
        }
    }
}

/// The index of the first `b` in `s`, or the length of `s` when there is none.
pub open spec fn index_of(s: Seq<u8>, b: u8) -> nat
    decreases s.len(),
{
    if s.len() == 0 {
        0
    } else if s[0] == b {
        0
    } else {
        1 + index_of(s.drop_first(), b)
    }
}

/// The fields of `s` between the separators `sep`, as `str::split` gives
/// them: one more field than there are separators.
pub open spec fn fields(s: Seq<u8>, sep: u8) -> Seq<Seq<u8>>
    decreases s.len(),
{
    let p = index_of(s, sep);
    if p >= s.len() {
        seq![s]
    } else {
        seq![s.take(p as int)] + fields(s.skip(p + 1 as int), sep)
    }
}

/// The fields of `s` as sequences of bytes.
pub open spec fn fields_view(v: Seq<Vec<u8>>) -> Seq<Seq<u8>> {
    v.map_values(|f: Vec<u8>| f@)
}

proof fn lemma_index_of(s: Seq<u8>, b: u8, k: int)
    requires
        0 <= k <= s.len(),
        forall|i: int| 0 <= i < k ==> #[trigger] s[i] != b,
        k == s.len() || s[k] == b,
    ensures
        index_of(s, b) == k,
    decreases k,
{
    if k > 0 {
        assert forall|i: int| 0 <= i < k - 1 implies #[trigger] s.drop_first()[i] != b by {
            assert(s.drop_first()[i] == s[i + 1]);
        }
        lemma_index_of(s.drop_first(), b, k - 1);
    }
}

/// A copy of `s` without its leading and trailing whitespace.
pub fn trimmed_copy(s: &[u8]) -> (r: Vec<u8>)
    ensures
        r@ == trimmed(s@),
{
    let (lo, hi) = trim_bounds(s);
    copy_range(s, lo, hi)
}

/// The bytes `s[from..to]`.
fn copy_range(s: &[u8], from: usize, to: usize) -> (r: Vec<u8>)
    requires
        from <= to <= s.len(),
    ensures
        r@ == s@.subrange(from as int, to as int),
{
    let mut r: Vec<u8> = Vec::new();
    let mut i = from;
    while i < to
        invariant
            from <= i <= to <= s.len(),
            r@ == s@.subrange(from as int, i as int),
        decreases to - i,
    {
        r.push(s[i]);
        i = i + 1;
        proof {
            assert(r@ =~= s@.subrange(from as int, i as int));
        }
    }
    r
}

/// The fields of `s` between the separators `sep`.
pub fn split_fields(s: &[u8], sep: u8) -> (r: Vec<Vec<u8>>)
    ensures
        fields_view(r@) == fields(s@, sep),
{
    let mut out: Vec<Vec<u8>> = Vec::new();
    let mut start: usize = 0;
    let mut i: usize = 0;
    proof {
        assert(s@.skip(0) =~= s@);
    }
    while i < s.len()
        invariant
            start <= i <= s.len(),
            forall|k: int| start <= k < i ==> #[trigger] s@[k] != sep,
            fields_view(out@) + fields(s@.skip(start as int), sep) == fields(s@, sep),
        decreases s.len() - i,
    {
        if s[i] == sep {
            let ghost rest = s@.skip(start as int);
            proof {
                assert forall|k: int| 0 <= k < i - start implies #[trigger] rest[k] != sep by {
                    assert(rest[k] == s@[start + k]);
                }
                lemma_index_of(rest, sep, i - start);
                assert(rest.take(i - start) =~= s@.subrange(start as int, i as int));
                assert(rest.skip(i - start + 1) =~= s@.skip(i + 1));
            }
            let field = copy_range(s, start, i);
            let ghost before = out@;
            out.push(field);
            proof {
                assert(fields_view(out@) =~= fields_view(before).push(field@));
                assert(fields(rest, sep) == seq![rest.take(i - start)] + fields(
                    s@.skip(i + 1),
                    sep,
                ));
                assert(fields_view(out@) + fields(s@.skip(i + 1), sep) =~= fields_view(before)
                    + fields(rest, sep));
            }
            start = i + 1;
        }
        i = i + 1;
    }
    let ghost rest = s@.skip(start as int);
    proof {
        assert forall|k: int| 0 <= k < rest.len() implies #[trigger] rest[k] != sep by {
            assert(rest[k] == s@[start + k]);
        }
        lemma_index_of(rest, sep, rest.len() as int);
        assert(rest =~= s@.subrange(start as int, s.len() as int));
    }
    let last = copy_range(s, start, s.len());
    let ghost before = out@;
    out.push(last);
    proof {
        assert(fields_view(out@) =~= fields_view(before).push(last@));
        assert(fields_view(out@) =~= fields_view(before) + fields(rest, sep));
    }
    out
}

/// The words of `s`, a word `cur` having been begun before it: the maximal
/// runs of bytes that are not whitespace.
pub open spec fn words_after(s: Seq<u8>, cur: Seq<u8>) -> Seq<Seq<u8>>
    decreases s.len(),
{
    if s.len() == 0 {
        if cur.len() > 0 {
            seq![cur]
        } else {
            Seq::empty()
        }
    } else if is_space(s[0]) {
        (if cur.len() > 0 {
            seq![cur]
        } else {
            Seq::empty()
        }) + words_after(s.drop_first(), Seq::empty())
    } else {
        words_after(s.drop_first(), cur.push(s[0]))
    }
}

/// The words of `s`, as `str::split_whitespace` gives them for ASCII
/// whitespace.
pub open spec fn words(s: Seq<u8>) -> Seq<Seq<u8>> {
    words_after(s, Seq::empty())
}

/// The words of `s` between runs of ASCII whitespace.
pub fn split_whitespace(s: &[u8]) -> (r: Vec<Vec<u8>>)
    ensures
        fields_view(r@) == words(s@),
{
    let mut out: Vec<Vec<u8>> = Vec::new();
    let mut start: usize = 0;
    let mut i: usize = 0;
    proof {
        assert(s@.skip(0) =~= s@);
        assert(s@.subrange(0, 0) =~= Seq::<u8>::empty());
    }
    while i < s.len()
        invariant
            start <= i <= s.len(),
            fields_view(out@) + words_after(s@.skip(i as int), s@.subrange(start as int, i as int))
                == words(s@),
        decreases s.len() - i,
    {
        let ghost rest = s@.skip(i as int);
        let ghost cur = s@.subrange(start as int, i as int);
        proof {
            assert(rest.drop_first() =~= s@.skip(i + 1));
            assert(rest[0] == s@[i as int]);
        }
        if is_ascii_space(s[i]) {
            if start < i {
                let word = copy_range(s, start, i);
                let ghost before = out@;
                out.push(word);
                proof {
                    assert(fields_view(out@) =~= fields_view(before) + seq![cur]);
                }
            } else {
                proof {
                    assert(cur.len() == 0);
                }
            }
            proof {
                assert(s@.subrange(i + 1, i + 1) =~= Seq::<u8>::empty());
                assert(fields_view(out@) + words_after(s@.skip(i + 1), Seq::empty()) =~= words(s@));
            }
            start = i + 1;
        } else {
            proof {
                assert(cur.push(s@[i as int]) =~= s@.subrange(start as int, i + 1));
            }
        }
        i = i + 1;
    }
    proof {
        assert(s@.skip(i as int).len() == 0);
    }
    if start < i {
        let word = copy_range(s, start, i);
        let ghost before = out@;
        out.push(word);
        proof {
            assert(fields_view(out@) =~= fields_view(before) + seq![s@.subrange(start as int, i as int)]);
        }
    }
    proof {
        assert(fields_view(out@) =~= words(s@));
    }
    out
}

} // verus!
