//! Decimal digit runs, as they appear in links and in archive file names.
use vstd::prelude::*;
use vstd::string::StrSliceExecFns;

verus! {

pub open spec fn is_digit(c: char) -> bool {
    '0' <= c && c <= '9'
}

pub open spec fn all_digits(s: Seq<char>) -> bool {
    forall|i: int| 0 <= i < s.len() ==> is_digit(#[trigger] s[i])
}

/// The number written by a run of decimal digits (most significant first).
pub open spec fn digits_value(s: Seq<char>) -> nat
    decreases s.len(),
{
    if s.len() == 0 {
        0
    } else {
        digits_value(s.drop_last()) * 10 + (s.last() as nat - '0' as nat) as nat
    }
}

/// How many decimal digits end `s`.
pub open spec fn trailing_digit_count(s: Seq<char>) -> nat
    decreases s.len(),
{
    if s.len() > 0 && is_digit(s.last()) {
        1 + trailing_digit_count(s.drop_last())
    } else {
        0
    }
}

/// The maximal run of digits at the end of `s`.
pub open spec fn trailing_digits(s: Seq<char>) -> Seq<char> {
    s.subrange(s.len() - trailing_digit_count(s), s.len() as int)
}

proof fn lemma_trailing_digits(s: Seq<char>)
    ensures
        trailing_digit_count(s) <= s.len(),
        all_digits(trailing_digits(s)),
        trailing_digit_count(s) < s.len() ==> !is_digit(s[s.len() - trailing_digit_count(s) - 1]),
    decreases s.len(),
{
    if s.len() > 0 && is_digit(s.last()) {
        lemma_trailing_digits(s.drop_last());
        let t = s.drop_last();
        assert(trailing_digits(s) =~= trailing_digits(t).push(s.last()));
    } else {
        assert(trailing_digits(s) =~= Seq::<char>::empty());
    }
}

/// Reads the digits `s[from..to]` as a number; `None` when it does not fit a `usize`.
pub fn parse_decimal(s: &str, from: usize, to: usize) -> (r: Option<usize>)
    requires
        from <= to <= s@.len(),
        all_digits(s@.subrange(from as int, to as int)),
    ensures
        r == (if digits_value(s@.subrange(from as int, to as int)) <= usize::MAX {
            Some(digits_value(s@.subrange(from as int, to as int)) as usize)
        } else {
            None::<usize>
        }),
{
    let mut acc: usize = 0;
    let mut i: usize = from;
    while i < to
        invariant
            from <= i <= to <= s@.len(),
            all_digits(s@.subrange(from as int, to as int)),
            acc as nat == digits_value(s@.subrange(from as int, i as int)),
        decreases to - i,
    {
        let c = s.get_char(i);
        assert(s@.subrange(from as int, i + 1).drop_last() =~= s@.subrange(from as int, i as int));
        assert(s@.subrange(from as int, to as int)[i - from] == c);
        let d = (c as u32 - '0' as u32) as usize;
        if acc > (usize::MAX - d) / 10 {
            proof {
                lemma_digits_grow(s@.subrange(from as int, to as int), (i - from + 1) as int);
                assert(s@.subrange(from as int, to as int).subrange(0, i - from + 1)
                    =~= s@.subrange(from as int, i + 1));
            }
            return None;
        }
        acc = acc * 10 + d;
        i += 1;
    }
    Some(acc)
}

/// A longer prefix of a digit run never reads as a smaller number.
proof fn lemma_digits_grow(s: Seq<char>, k: int)
    requires
        0 <= k <= s.len(),
        all_digits(s),
    ensures
        digits_value(s.subrange(0, k)) <= digits_value(s),
    decreases s.len() - k,
{
    if k < s.len() {
        lemma_digits_grow(s, k + 1);
        let t = s.subrange(0, k + 1);
        assert(t.drop_last() =~= s.subrange(0, k));
        assert(is_digit(s[k]));
    } else {
        assert(s.subrange(0, k) =~= s);
    }
}

/// The number at the end of `s`: `None` when `s` does not end in a digit or
/// the number does not fit a `usize`.
pub open spec fn trailing_number(s: Seq<char>) -> Option<usize> {
    if trailing_digit_count(s) > 0 && digits_value(trailing_digits(s)) <= usize::MAX {
        Some(digits_value(trailing_digits(s)) as usize)
    } else {
        None
    }
}

pub fn parse_trailing_number(s: &str) -> (r: Option<usize>)
    ensures
        r == trailing_number(s@),
{
    let n = s.unicode_len();
    let mut start: usize = n;
    proof { lemma_trailing_digits(s@); }
    while start > 0 && is_ascii_digit(s.get_char(start - 1))
        invariant
            start <= n == s@.len(),
            all_digits(s@.subrange(start as int, n as int)),
            n - start <= trailing_digit_count(s@),
        decreases start,
    {
        assert(s@.subrange(start - 1, n as int) =~= seq![s@[start - 1]] + s@.subrange(start as int, n as int));
        start -= 1;
        proof { lemma_trailing_count_bound(s@, (n - start) as nat); }
    }
    proof {
        lemma_trailing_count_bound(s@, (n - start) as nat);
    }
    assert(s@.subrange(start as int, n as int) =~= trailing_digits(s@));
    if start == n {
        None
    } else {
        parse_decimal(s, start, n)
    }
}

proof fn lemma_trailing_count_bound(s: Seq<char>, k: nat)
    requires
        k <= s.len(),
        all_digits(s.subrange(s.len() - k, s.len() as int)),
    ensures
        k <= trailing_digit_count(s),
        k == trailing_digit_count(s) <== (k == s.len() || !is_digit(s[s.len() - k - 1])),
    decreases k,
{
    if k > 0 {
        let t = s.drop_last();
        assert(s.subrange(s.len() - k, s.len() as int)[k - 1] == s.last());
        assert(t.subrange(t.len() - (k - 1), t.len() as int) =~= s.subrange(s.len() - k, s.len() - 1));
        assert forall|i: int| 0 <= i < k - 1 implies is_digit(#[trigger] t.subrange(t.len() - (k - 1), t.len() as int)[i]) by {
            assert(s.subrange(s.len() - k, s.len() as int)[i] == t.subrange(t.len() - (k - 1), t.len() as int)[i]);
        }
        lemma_trailing_count_bound(t, (k - 1) as nat);
    } else {
        if s.len() > 0 && is_digit(s.last()) {
            assert(s[s.len() - 0 - 1] == s.last());
        }
    }
}

pub fn is_ascii_digit(c: char) -> (r: bool)
    ensures
        r == is_digit(c),
{
    '0' <= c && c <= '9'
}

} // verus!
