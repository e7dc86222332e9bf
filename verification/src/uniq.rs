//! The grouping decision of the duplicate-line filter: two consecutive
//! lines belong to the same group exactly when they are equal once
//! trailing whitespace (the newline included) is dropped.

use crate::count::is_space;
use vstd::prelude::*;

verus! {

/// `s` with every trailing whitespace character dropped.
pub open spec fn trimmed_end(s: Seq<char>) -> Seq<char>
    decreases s.len(),
{
    if s.len() > 0 && is_space(s.last()) {
        trimmed_end(s.drop_last())
    } else {
        s
    }
}

fn is_space_char(c: char) -> (r: bool)
    ensures
        r == is_space(c),
{
    let u = c as u32;
    (9 <= u && u <= 13) || u == 32 || u == 0x85 || u == 0xA0 || u == 0x1680 || (0x2000 <= u && u
        <= 0x200A) || u == 0x2028 || u == 0x2029 || u == 0x202F || u == 0x205F || u == 0x3000
}

/// How many characters of `s` remain once trailing whitespace is
/// dropped.
fn trimmed_len(s: &str) -> (k: usize)
    ensures
        k as int <= s@.len(),
        trimmed_end(s@) == s@.take(k as int),
{
    let len = s.unicode_len();
    let mut k: usize = len;
    proof {
        assert(s@.take(len as int) =~= s@);
    }
    while k > 0 && is_space_char(s.get_char(k - 1))
        invariant
            0 <= k <= len,
            len as int == s@.len(),
            trimmed_end(s@) == trimmed_end(s@.take(k as int)),
        decreases k,
    {
        proof {
            assert(s@.take(k as int).last() == s@[k as int - 1]);
            assert(s@.take(k as int).drop_last() =~= s@.take(k as int - 1));
        }
        k = k - 1;
    }
    proof {
        if k > 0 {
            assert(s@.take(k as int).last() == s@[k as int - 1]);
        } else {
            assert(s@.take(0) =~= Seq::<char>::empty());
        }
    }
    k
}

/// Whether two lines belong to the same group: equal after trailing
/// whitespace is dropped from each.
pub fn lines_match(a: &str, b: &str) -> (r: bool)
    ensures
        r == (trimmed_end(a@) == trimmed_end(b@)),
{
    let ka = trimmed_len(a);
    let kb = trimmed_len(b);
    if ka != kb {
        proof {
            assert(trimmed_end(a@).len() != trimmed_end(b@).len());
        }
        return false;
    }
    let mut i: usize = 0;
    while i < ka
        invariant
            0 <= i <= ka,
            ka == kb,
            ka as int <= a@.len(),
            kb as int <= b@.len(),
            trimmed_end(a@) == a@.take(ka as int),
            trimmed_end(b@) == b@.take(kb as int),
            forall|j: int| 0 <= j < i ==> a@[j] == b@[j],
        decreases ka - i,
    {
        if a.get_char(i) != b.get_char(i) {
            proof {
                assert(trimmed_end(a@)[i as int] != trimmed_end(b@)[i as int]);
            }
            return false;
        }
        i = i + 1;
    }
    proof {
        assert(trimmed_end(a@) =~= trimmed_end(b@));
    }
    true
}

} // verus!
