use vstd::prelude::*;
use vstd::string::StringSliceAdditionalSpecFns;
use crate::errors::{Errors, Result};

verus! {

/// The suffix of a data file's name, `.data`.
pub open spec fn data_suffix() -> Seq<u8> {
    seq![46u8, 100u8, 97u8, 116u8, 97u8]
}

pub open spec fn is_digit(b: u8) -> bool {
    48 <= b <= 57
}

/// The number that the decimal digits `s` spell.
pub open spec fn digits_value(s: Seq<u8>) -> nat
    decreases s.len(),
{
    if s.len() == 0 {
        0
    } else {
        digits_value(s.drop_last()) * 10 + (s.last() - 48) as nat
    }
}

/// The digits of a stem: the stem without a leading `+`, if it has one.
pub open spec fn stem_digits(stem: Seq<u8>) -> Seq<u8> {
    if stem.len() > 0 && stem[0] == 43 {
        stem.drop_first()
    } else {
        stem
    }
}

/// What the name of a directory entry says: nothing where it is not a data
/// file's name; the file's number where its stem is a decimal `u32`, with an
/// optional leading `+`; and otherwise that the directory is corrupted.
pub open spec fn file_id_of_name(name: Seq<u8>) -> Option<Result<u32>> {
    if name.len() >= 5 && name.subrange(name.len() - 5, name.len() as int) == data_suffix() {
        let stem = stem_digits(name.subrange(0, name.len() - 5));
        if stem.len() > 0 && (forall|i: int| 0 <= i < stem.len() ==> is_digit(#[trigger] stem[i]))
            && digits_value(stem) <= u32::MAX {
            Some(Ok(digits_value(stem) as u32))
        } else {
            Some(Err(Errors::DataDirectoryCorrupted))
        }
    } else {
        None
    }
}

/// Appending digits never makes the number smaller.
proof fn lemma_digits_value_grows(s: Seq<u8>, i: int)
    requires
        0 <= i <= s.len(),
        forall|j: int| 0 <= j < s.len() ==> is_digit(#[trigger] s[j]),
    ensures
        digits_value(s.subrange(0, i)) <= digits_value(s),
    decreases s.len(),
{
    if i < s.len() {
        assert(s.drop_last() =~= s.subrange(0, s.len() - 1));
        lemma_digits_value_grows(s.drop_last(), i);
        assert(s.drop_last().subrange(0, i) =~= s.subrange(0, i));
    } else {
        assert(s.subrange(0, i) =~= s);
    }
}

/// Reads what the name of a directory entry says of the data file it may be.
pub fn data_file_id(name: &str) -> (r: Option<Result<u32>>)
    ensures
        r == file_id_of_name(name.spec_bytes()),
{
    let b = name.as_bytes();
    let len = b.len();
    if len < 5 || b[len - 5] != 46 || b[len - 4] != 100 || b[len - 3] != 97 || b[len - 2] != 116
        || b[len - 1] != 97 {
        proof {
            if len >= 5 {
                let tail = b@.subrange(len - 5, len as int);
                assert(tail == data_suffix() ==> tail[0] == 46 && tail[1] == 100 && tail[2] == 97
                    && tail[3] == 116 && tail[4] == 97);
            }
        }
        return None;
    }
    proof {
        assert(b@.subrange(len - 5, len as int) =~= data_suffix());
    }
    let stem_len = len - 5;
    let start: usize = if stem_len > 0 && b[0] == 43 {
        1
    } else {
        0
    };
    let ghost stem = b@.subrange(start as int, stem_len as int);
    proof {
        let full = name.spec_bytes().subrange(0, name.spec_bytes().len() - 5);
        assert(full == b@.subrange(0, stem_len as int));
        if start == 1 {
            assert(full.drop_first() =~= stem);
        } else {
            assert(full =~= stem);
        }
        assert(stem_digits(full) == stem);
    }
    if stem_len == start {
        assert(stem.len() == 0);
        return Some(Err(Errors::DataDirectoryCorrupted));
    }
    let mut i: usize = start;
    while i < stem_len
        invariant
            start <= i <= stem_len,
            start <= 1,
            stem_len + 5 == len == b@.len(),
            stem == b@.subrange(start as int, stem_len as int),
            b@ == name.spec_bytes(),
            b@.subrange(len - 5, len as int) == data_suffix(),
            stem_digits(name.spec_bytes().subrange(0, name.spec_bytes().len() - 5)) == stem,
            forall|j: int| 0 <= j < i - start ==> is_digit(#[trigger] stem[j]),
        decreases stem_len - i,
    {
        assert(stem[i - start] == b@[i as int]);
        if b[i] < 48 || b[i] > 57 {
            assert(!is_digit(stem[i - start]));
            return Some(Err(Errors::DataDirectoryCorrupted));
        }
        i = i + 1;
    }
    let mut value: u64 = 0;
    let mut i: usize = start;
    while i < stem_len
        invariant
            start <= i <= stem_len,
            start <= 1,
            stem_len + 5 == len == b@.len(),
            stem == b@.subrange(start as int, stem_len as int),
            b@ == name.spec_bytes(),
            b@.subrange(len - 5, len as int) == data_suffix(),
            stem_digits(name.spec_bytes().subrange(0, name.spec_bytes().len() - 5)) == stem,
            stem.len() > 0,
            forall|j: int| 0 <= j < stem.len() ==> is_digit(#[trigger] stem[j]),
            value == digits_value(stem.subrange(0, i - start)),
            value <= u32::MAX,
        decreases stem_len - i,
    {
        assert(stem[i - start] == b@[i as int]);
        assert(is_digit(stem[i - start]));
        let d = (b[i] - 48) as u64;
        value = value * 10 + d;
        proof {
            let p = stem.subrange(0, i - start + 1);
            assert(p.drop_last() =~= stem.subrange(0, i - start));
            assert(p.last() == b@[i as int]);
            assert(value == digits_value(p));
        }
        if value > u32::MAX as u64 {
            proof {
                lemma_digits_value_grows(stem, i - start + 1);
            }
            return Some(Err(Errors::DataDirectoryCorrupted));
        }
        i = i + 1;
    }
    proof {
        assert(stem.subrange(0, stem_len - start) =~= stem);
    }
    Some(Ok(value as u32))
}

/// Puts `x` into the strictly increasing `ids`, unless it is there already.
pub fn insert_sorted(ids: &mut Vec<u32>, x: u32)
    requires
        forall|i: int, j: int| 0 <= i < j < old(ids)@.len() ==> old(ids)@[i] < old(ids)@[j],
    ensures
        forall|i: int, j: int| 0 <= i < j < final(ids)@.len() ==> final(ids)@[i] < final(ids)@[j],
        final(ids)@.to_set() == old(ids)@.to_set().insert(x),
{
    let mut i: usize = 0;
    while i < ids.len() && ids[i] < x
        invariant
            i <= ids@.len(),
            ids@ == old(ids)@,
            forall|j: int| 0 <= j < i ==> ids@[j] < x,
        decreases ids@.len() - i,
    {
        i = i + 1;
    }
    if i < ids.len() && ids[i] == x {
        proof {
            assert(ids@.to_set().insert(x) =~= ids@.to_set());
        }
        return;
    }
    let ghost before = ids@;
    ids.insert(i, x);
    proof {
        assert forall|a: int, c: int| 0 <= a < c < ids@.len() implies ids@[a] < ids@[c] by {
            if c < i {
            } else if c == i {
            } else if a < i {
                assert(before[c - 1] > x || before[c - 1] == x || before[c - 1] < x);
                if i < before.len() {
                    assert(before[i as int] > x);
                    assert(before[i as int] <= before[c - 1]);
                }
            } else if a == i {
                assert(before[i as int] > x);
                assert(before[i as int] <= before[c - 1]);
            }
        }
        assert forall|y: u32| ids@.to_set().contains(y) <==> before.to_set().insert(x).contains(y) by {
            if ids@.to_set().contains(y) {
                let k = choose|k: int| 0 <= k < ids@.len() && ids@[k] == y;
                if k < i {
                    assert(before[k] == y);
                } else if k > i {
                    assert(before[k - 1] == y);
                }
            }
            if before.to_set().contains(y) {
                let k = choose|k: int| 0 <= k < before.len() && before[k] == y;
                if k < i {
                    assert(ids@[k] == y);
                } else {
                    assert(ids@[k + 1] == y);
                }
            }
            if y == x {
                assert(ids@[i as int] == x);
            }
        }
        assert(ids@.to_set() =~= before.to_set().insert(x));
    }
}

} // verus!
