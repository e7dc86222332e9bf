//! Decimal digit strings: what they denote and how they are read.
//!
//! Everything here is stated over `Seq<char>`: `digits_val` gives the value
//! of a digit string, and the executable readers are proved to agree with it.

use vstd::prelude::*;

verus! {

/// `c` is a decimal digit `'0'..='9'`.
pub open spec fn is_digit(c: char) -> bool {
    48 <= c as u32 <= 57
}

/// The value of one decimal digit.
pub open spec fn digit_val(c: char) -> int {
    c as u32 - 48
}

/// `s` is a non-empty string of decimal digits.
pub open spec fn is_digits(s: Seq<char>) -> bool {
    s.len() > 0 && forall|i: int| 0 <= i < s.len() ==> is_digit(#[trigger] s[i])
}

/// The value of `s` read as a decimal numeral (0 for the empty string).
pub open spec fn digits_val(s: Seq<char>) -> int
    decreases s.len(),
{
    if s.len() == 0 {
        0
    } else {
        digits_val(s.drop_last()) * 10 + digit_val(s.last())
    }
}

pub proof fn lemma_digits_val_nonneg(s: Seq<char>)
    requires
        forall|i: int| 0 <= i < s.len() ==> is_digit(#[trigger] s[i]),
    ensures
        digits_val(s) >= 0,
    decreases s.len(),
{
    if s.len() > 0 {
        lemma_digits_val_nonneg(s.drop_last());
    }
}

/// Reading one more digit multiplies the value by ten and adds the digit.
pub proof fn lemma_digits_val_push(s: Seq<char>, c: char)
    ensures
        digits_val(s.push(c)) == digits_val(s) * 10 + digit_val(c),
{
    assert(s.push(c).drop_last() =~= s);
}

/// A prefix of a digit string never denotes more than the whole string.
pub proof fn lemma_digits_val_prefix_le(s: Seq<char>, j: int)
    requires
        0 <= j <= s.len(),
        forall|i: int| 0 <= i < s.len() ==> is_digit(#[trigger] s[i]),
    ensures
        digits_val(s.take(j)) <= digits_val(s),
    decreases s.len() - j,
{
    if j < s.len() {
        lemma_digits_val_nonneg(s.take(j));
        lemma_digits_val_push(s.take(j), s[j]);
        assert(s.take(j).push(s[j]) =~= s.take(j + 1));
        lemma_digits_val_prefix_le(s, j + 1);
    } else {
        assert(s.take(j) =~= s);
    }
}

fn char_to_digit(c: char) -> (d: u32)
    requires
        is_digit(c),
    ensures
        d == digit_val(c),
{
    c as u32 - 48
}

/// Every character of `s` at position `from` or later is a decimal digit.
pub(crate) fn all_digits_from(s: &str, from: usize) -> (r: bool)
    requires
        from as int <= s@.len(),
    ensures
        r == forall|i: int| from <= i < s@.len() ==> is_digit(#[trigger] s@[i]),
{
    let len = s.unicode_len();
    let mut i: usize = from;
    while i < len
        invariant
            from <= i <= len,
            len as int == s@.len(),
            forall|k: int| from <= k < i ==> is_digit(#[trigger] s@[k]),
        decreases len - i,
    {
        let u = s.get_char(i) as u32;
        if u < 48 || u > 57 {
            return false;
        }
        i = i + 1;
    }
    true
}

/// The value of the digit string `s[from..]`, or `None` when it does not
/// fit in `usize`.
pub(crate) fn digits_value_from(s: &str, from: usize) -> (r: Option<usize>)
    requires
        (from as int) < s@.len(),
        forall|i: int| from <= i < s@.len() ==> is_digit(#[trigger] s@[i]),
    ensures
        match r {
            Some(v) => v as int == digits_val(s@.skip(from as int)),
            None => digits_val(s@.skip(from as int)) > usize::MAX,
        },
{
    let len = s.unicode_len();
    let mut i: usize = from;
    let mut val: usize = 0;
    proof {
        assert(s@.subrange(from as int, from as int) =~= Seq::<char>::empty());
    }
    while i < len
        invariant
            from <= i <= len,
            len as int == s@.len(),
            forall|k: int| from <= k < s@.len() ==> is_digit(#[trigger] s@[k]),
            val as int == digits_val(s@.subrange(from as int, i as int)),
        decreases len - i,
    {
        let c = s.get_char(i);
        let d = char_to_digit(c);
        let big: u128 = (val as u128) * 10 + (d as u128);
        proof {
            lemma_digits_val_push(s@.subrange(from as int, i as int), s@[i as int]);
            assert(s@.subrange(from as int, i as int).push(s@[i as int]) =~= s@.subrange(
                from as int,
                i as int + 1,
            ));
        }
        if big > usize::MAX as u128 {
            proof {
                let whole = s@.skip(from as int);
                assert(whole.take(i as int + 1 - from) =~= s@.subrange(from as int, i as int + 1));
                lemma_digits_val_prefix_le(whole, i as int + 1 - from);
            }
            return None;
        }
        val = big as usize;
        i = i + 1;
    }
    proof {
        assert(s@.subrange(from as int, len as int) =~= s@.skip(from as int));
    }
    Some(val)
}

/// The value of `s` read as `usize` decimal syntax: an optional leading
/// `'+'`, then one or more digits, denoting a value that fits in `usize`.
pub open spec fn usize_decimal(s: Seq<char>) -> Option<int> {
    let ds = if s.len() > 0 && s[0] == '+' {
        s.skip(1)
    } else {
        s
    };
    if is_digits(ds) && digits_val(ds) <= usize::MAX {
        Some(digits_val(ds))
    } else {
        None
    }
}

/// What `parse_positive_int` accepts: a `usize` numeral whose value is
/// at least one.
pub open spec fn spec_positive_int(s: Seq<char>) -> Option<int> {
    match usize_decimal(s) {
        Some(v) => if v > 0 {
            Some(v)
        } else {
            None
        },
        None => None,
    }
}

/// Reads a strictly positive decimal `usize`, allowing a leading `'+'`;
/// any rejected input is handed back unchanged as the error.
pub fn parse_positive_int(val: &str) -> (r: Result<usize, String>)
    ensures
        match r {
            Ok(n) => spec_positive_int(val@) == Some(n as int),
            Err(e) => spec_positive_int(val@) is None && e@ == val@,
        },
{
    let len = val.unicode_len();
    let from: usize = if len > 0 && val.get_char(0) == '+' {
        1
    } else {
        0
    };
    let ghost ds: Seq<char> = if val@.len() > 0 && val@[0] == '+' {
        val@.skip(1)
    } else {
        val@
    };
    proof {
        assert(ds =~= val@.skip(from as int));
    }
    if from >= len {
        assert(ds.len() == 0);
        return Err(val.to_owned());
    }
    if !all_digits_from(val, from) {
        proof {
            let i = choose|i: int| from <= i < val@.len() && !is_digit(val@[i]);
            assert(!is_digit(ds[i - from]));
        }
        return Err(val.to_owned());
    }
    match digits_value_from(val, from) {
        None => Err(val.to_owned()),
        Some(v) => if v > 0 {
            Ok(v)
        } else {
            Err(val.to_owned())
        },
    }
}

} // verus!
