//! Which IDs a directory listing already holds, from the file names alone.
use vstd::prelude::*;
use vstd::string::StrSliceExecFns;
use crate::digits::{all_digits, digits_value, is_ascii_digit, is_digit, parse_decimal};

verus! {

/// The ID an archive file of this name holds: the name must be
/// `<digits>.<ext>` with at least one digit.
pub open spec fn archive_id(name: Seq<char>, ext: Seq<char>) -> Option<nat> {
    let stem = name.len() - ext.len() - 1;
    if stem > 0 && name[stem] == '.' && name.subrange(stem + 1, name.len() as int) == ext
        && all_digits(name.subrange(0, stem)) {
        Some(digits_value(name.subrange(0, stem)))
    } else {
        None
    }
}

/// The ID of a name, where it fits a `usize`.
pub open spec fn archive_usize(name: Seq<char>, ext: Seq<char>) -> Option<usize> {
    match archive_id(name, ext) {
        Some(v) => if v <= usize::MAX { Some(v as usize) } else { None },
        None => None,
    }
}

/// The IDs of the archive files among `names`, in listing order.
pub open spec fn listing_ids(names: Seq<String>, ext: Seq<char>) -> Seq<usize>
    decreases names.len(),
{
    if names.len() == 0 {
        Seq::empty()
    } else {
        match archive_usize(names.last()@, ext) {
            Some(id) => listing_ids(names.drop_last(), ext).push(id),
            None => listing_ids(names.drop_last(), ext),
        }
    }
}

/// Whether `s[from..to]` is all decimal digits.
fn digits_between(s: &str, from: usize, to: usize) -> (r: bool)
    requires
        from <= to <= s@.len(),
    ensures
        r == all_digits(s@.subrange(from as int, to as int)),
{
    let mut i: usize = from;
    while i < to
        invariant
            from <= i <= to <= s@.len(),
            all_digits(s@.subrange(from as int, i as int)),
        decreases to - i,
    {
        if !is_ascii_digit(s.get_char(i)) {
            assert(s@.subrange(from as int, to as int)[i - from] == s@[i as int]);
            return false;
        }
        assert forall|j: int| 0 <= j < i + 1 - from implies is_digit(#[trigger] s@.subrange(from as int, i + 1)[j]) by {
            if j < i - from {
                assert(s@.subrange(from as int, i + 1)[j] == s@.subrange(from as int, i as int)[j]);
            }
        }
        i += 1;
    }
    true
}

/// The ID an archive file of this name holds, if it is one and the ID fits a `usize`.
pub fn archive_name_id(name: &str, ext: &str) -> (r: Option<usize>)
    ensures
        r == archive_usize(name@, ext@),
{
    let n = name.unicode_len();
    let e = ext.unicode_len();
    if n <= e || n - e <= 1 {
        return None;
    }
    let stem = n - e - 1;
    if name.get_char(stem) != '.' {
        return None;
    }
    let mut j: usize = 0;
    while j < e
        invariant
            j <= e == ext@.len(),
            n == name@.len(),
            stem == n - e - 1,
            forall|t: int| 0 <= t < j ==> name@[stem + 1 + t] == #[trigger] ext@[t],
        decreases e - j,
    {
        if name.get_char(stem + 1 + j) != ext.get_char(j) {
            assert(name@.subrange(stem + 1, n as int)[j as int] != ext@[j as int]);
            return None;
        }
        j += 1;
    }
    assert(name@.subrange(stem + 1, n as int) =~= ext@);
    if !digits_between(name, 0, stem) {
        return None;
    }
    parse_decimal(name, 0, stem)
}

/// The IDs already archived, read from the names of a directory's entries.
/// Names that are not `<digits>.<ext>`, or whose number does not fit a
/// `usize`, are skipped.
pub fn present_ids(names: &Vec<String>, ext: &str) -> (r: Vec<usize>)
    ensures
        r@ == listing_ids(names@, ext@),
{
    let mut ids: Vec<usize> = Vec::new();
    let mut i: usize = 0;
    while i < names.len()
        invariant
            i <= names@.len(),
            ids@ == listing_ids(names@.subrange(0, i as int), ext@),
        decreases names@.len() - i,
    {
        let ghost next = names@.subrange(0, i + 1);
        assert(next.drop_last() =~= names@.subrange(0, i as int));
        match archive_name_id(names[i].as_str(), ext) {
            Some(id) => ids.push(id),
            None => {},
        }
        i += 1;
    }
    assert(names@.subrange(0, i as int) =~= names@);
    ids
}

} // verus!
