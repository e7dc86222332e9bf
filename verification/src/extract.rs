//! The line extractor: applies parsed ranges to one line of input in one
//! of three modes — raw bytes, Unicode scalar values, or
//! delimiter-separated fields.
//!
//! Positions beyond the end of the line never fail: each range is clipped
//! to the line, and a range that lies wholly outside it contributes
//! nothing.

use crate::fields::{fields_of, join_fields, lemma_join_push, split_fields, views_of};
use crate::parse::ranges_view;
use core::ops::Range;
use vstd::prelude::*;
use vstd::string::StringSliceAdditionalSpecFns;
use vstd::utf8::{decode_utf8, valid_utf8};

verus! {

/// `i`, clipped to at most `len`.
pub open spec fn clip(i: int, len: int) -> int {
    if i <= len {
        i
    } else {
        len
    }
}

/// What one range selects from a sequence: the sub-slice between its
/// endpoints, both clipped to the sequence's length; nothing when the
/// clipped endpoints are out of order.
pub open spec fn sel_slice<T>(line: Seq<T>, r: (int, int)) -> Seq<T>
    recommends
        0 <= r.0,
        0 <= r.1,
{
    let s = clip(r.0, line.len() as int);
    let e = clip(r.1, line.len() as int);
    if s <= e {
        line.subrange(s, e)
    } else {
        Seq::empty()
    }
}

/// What a list of ranges selects: each range's slice, concatenated in
/// declaration order.  Overlapping or repeated ranges each contribute.
pub open spec fn sel_concat<T>(line: Seq<T>, rs: Seq<(int, int)>) -> Seq<T>
    decreases rs.len(),
{
    if rs.len() == 0 {
        Seq::empty()
    } else {
        sel_concat(line, rs.drop_last()) + sel_slice(line, rs.last())
    }
}

/// Bytes-mode extraction: the chosen byte ranges of `line`, clipped to
/// its length, concatenated in declaration order.
pub fn extract_bytes(line: &[u8], ranges: &Vec<Range<usize>>) -> (out: Vec<u8>)
    ensures
        out@ == sel_concat(line@, ranges_view(ranges@)),
{
    let len = line.len();
    let ghost rv = ranges_view(ranges@);
    let mut out: Vec<u8> = Vec::new();
    proof {
        assert(rv.take(0) =~= Seq::<(int, int)>::empty());
    }
    let n = ranges.len();
    let mut i: usize = 0;
    while i < n
        invariant
            0 <= i <= n,
            n == ranges@.len(),
            len == line@.len(),
            rv == ranges_view(ranges@),
            out@ == sel_concat(line@, rv.take(i as int)),
        decreases n - i,
    {
        let start = ranges[i].start;
        let end = ranges[i].end;
        proof {
            assert(rv[i as int] == (start as int, end as int));
        }
        let s = if start < len {
            start
        } else {
            len
        };
        let e = if end < len {
            end
        } else {
            len
        };
        proof {
            assert(out@ =~= sel_concat(line@, rv.take(i as int)) + line@.subrange(
                s as int,
                s as int,
            ));
        }
        let mut j: usize = s;
        while j < e
            invariant
                s <= j <= len,
                j <= e || j == s,
                e <= len,
                len == line@.len(),
                out@ == sel_concat(line@, rv.take(i as int)) + line@.subrange(s as int, j as int),
            decreases e - j,
        {
            out.push(line[j]);
            proof {
                assert(line@.subrange(s as int, j as int).push(line@[j as int]) =~= line@.subrange(
                    s as int,
                    j as int + 1,
                ));
            }
            j = j + 1;
        }
        proof {
            assert(rv.take(i as int + 1).drop_last() =~= rv.take(i as int));
            assert(rv.take(i as int + 1).last() == rv[i as int]);
            if s <= e {
                assert(j == e);
                assert(sel_slice(line@, rv[i as int]) == line@.subrange(s as int, e as int));
            } else {
                assert(j == s);
                assert(sel_slice(line@, rv[i as int]) =~= line@.subrange(s as int, s as int));
            }
            assert(out@ =~= sel_concat(line@, rv.take(i as int + 1)));
        }
        i = i + 1;
    }
    proof {
        assert(rv.take(n as int) =~= rv);
    }
    out
}

/// Relies on `String::push`: it appends exactly the given character.
#[verifier::external_body]
fn push_char(s: &mut String, c: char)
    ensures
        final(s)@ == old(s)@.push(c),
{
    s.push(c);
}

/// Chars-mode extraction: as bytes mode, but positions index Unicode
/// scalar values, so a range boundary can never split a character.
pub fn extract_chars(line: &str, ranges: &Vec<Range<usize>>) -> (out: String)
    ensures
        out@ == sel_concat(line@, ranges_view(ranges@)),
{
    let len = line.unicode_len();
    let ghost rv = ranges_view(ranges@);
    let mut out = String::new();
    proof {
        assert(rv.take(0) =~= Seq::<(int, int)>::empty());
    }
    let n = ranges.len();
    let mut i: usize = 0;
    while i < n
        invariant
            0 <= i <= n,
            n == ranges@.len(),
            len as int == line@.len(),
            rv == ranges_view(ranges@),
            out@ == sel_concat(line@, rv.take(i as int)),
        decreases n - i,
    {
        let start = ranges[i].start;
        let end = ranges[i].end;
        proof {
            assert(rv[i as int] == (start as int, end as int));
        }
        let s = if start < len {
            start
        } else {
            len
        };
        let e = if end < len {
            end
        } else {
            len
        };
        proof {
            assert(out@ =~= sel_concat(line@, rv.take(i as int)) + line@.subrange(
                s as int,
                s as int,
            ));
        }
        let mut j: usize = s;
        while j < e
            invariant
                s <= j <= len,
                j <= e || j == s,
                e <= len,
                len as int == line@.len(),
                out@ == sel_concat(line@, rv.take(i as int)) + line@.subrange(s as int, j as int),
            decreases e - j,
        {
            let c = line.get_char(j);
            push_char(&mut out, c);
            proof {
                assert(line@.subrange(s as int, j as int).push(line@[j as int]) =~= line@.subrange(
                    s as int,
                    j as int + 1,
                ));
            }
            j = j + 1;
        }
        proof {
            assert(rv.take(i as int + 1).drop_last() =~= rv.take(i as int));
            assert(rv.take(i as int + 1).last() == rv[i as int]);
            if s <= e {
                assert(j == e);
                assert(sel_slice(line@, rv[i as int]) == line@.subrange(s as int, e as int));
            } else {
                assert(j == s);
                assert(sel_slice(line@, rv[i as int]) =~= line@.subrange(s as int, s as int));
            }
            assert(out@ =~= sel_concat(line@, rv.take(i as int + 1)));
        }
        i = i + 1;
    }
    proof {
        assert(rv.take(n as int) =~= rv);
    }
    out
}

/// Fields-mode extraction: `line` is split at every occurrence of the
/// delimiter; the chosen field ranges, clipped to the field count, are
/// joined back with the delimiter, in declaration order.  A range wholly
/// beyond the field count contributes nothing.
pub fn extract_fields(line: &[u8], delim: u8, ranges: &Vec<Range<usize>>) -> (out: Vec<u8>)
    ensures
        out@ == join_fields(
            sel_concat(fields_of(line@, delim), ranges_view(ranges@)),
            delim,
        ),
{
    let fields = split_fields(line, delim);
    let flen = fields.len();
    let ghost fv = fields_of(line@, delim);
    let ghost rv = ranges_view(ranges@);
    let mut out: Vec<u8> = Vec::new();
    let mut first: bool = true;
    proof {
        assert(rv.take(0) =~= Seq::<(int, int)>::empty());
    }
    let n = ranges.len();
    let mut i: usize = 0;
    while i < n
        invariant
            0 <= i <= n,
            n == ranges@.len(),
            flen == fields@.len(),
            views_of(fields@) == fv,
            fv == fields_of(line@, delim),
            rv == ranges_view(ranges@),
            out@ == join_fields(sel_concat(fv, rv.take(i as int)), delim),
            first == (sel_concat(fv, rv.take(i as int)).len() == 0),
        decreases n - i,
    {
        let start = ranges[i].start;
        let end = ranges[i].end;
        proof {
            assert(rv[i as int] == (start as int, end as int));
        }
        let s = if start < flen {
            start
        } else {
            flen
        };
        let e = if end < flen {
            end
        } else {
            flen
        };
        let ghost base = sel_concat(fv, rv.take(i as int));
        proof {
            assert(base + fv.subrange(s as int, s as int) =~= base);
        }
        let mut j: usize = s;
        while j < e
            invariant
                s <= j <= flen,
                j <= e || j == s,
                e <= flen,
                flen == fields@.len(),
                views_of(fields@) == fv,
                base == sel_concat(fv, rv.take(i as int)),
                out@ == join_fields(base + fv.subrange(s as int, j as int), delim),
                first == ((base + fv.subrange(s as int, j as int)).len() == 0),
            decreases e - j,
        {
            let ghost cursel = base + fv.subrange(s as int, j as int);
            proof {
                assert(fv[j as int] == fields@[j as int]@);
                assert(cursel.push(fv[j as int]) =~= base + fv.subrange(s as int, j as int + 1));
                lemma_join_push(cursel, fv[j as int], delim);
            }
            if first {
                first = false;
            } else {
                out.push(delim);
            }
            let ghost pre = out@;
            let fj = &fields[j];
            let m = fj.len();
            let mut k: usize = 0;
            proof {
                assert(pre + fj@.take(0) =~= pre);
            }
            while k < m
                invariant
                    0 <= k <= m,
                    m == fj@.len(),
                    out@ == pre + fj@.take(k as int),
                decreases m - k,
            {
                out.push(fj[k]);
                proof {
                    assert(fj@.take(k as int).push(fj@[k as int]) =~= fj@.take(k as int + 1));
                }
                k = k + 1;
            }
            proof {
                assert(fj@.take(m as int) =~= fj@);
                if cursel.len() == 0 {
                    assert(out@ =~= join_fields(cursel.push(fv[j as int]), delim));
                } else {
                    assert(out@ =~= join_fields(cursel, delim) + seq![delim] + fv[j as int]);
                    assert(out@ =~= join_fields(cursel.push(fv[j as int]), delim));
                }
            }
            j = j + 1;
        }
        proof {
            assert(rv.take(i as int + 1).drop_last() =~= rv.take(i as int));
            assert(rv.take(i as int + 1).last() == rv[i as int]);
            if s <= e {
                assert(j == e);
                assert(sel_slice(fv, rv[i as int]) == fv.subrange(s as int, e as int));
            } else {
                assert(j == s);
                assert(sel_slice(fv, rv[i as int]) =~= fv.subrange(s as int, s as int));
            }
            assert(base + fv.subrange(s as int, j as int) =~= sel_concat(fv, rv.take(i as int + 1)));
        }
        i = i + 1;
    }
    proof {
        assert(rv.take(n as int) =~= rv);
    }
    out
}

/// The active selection mode, carrying the parsed ranges it is applied
/// with: delimiter-separated fields, raw bytes, or Unicode scalar
/// values.  Exactly one is chosen per run.
#[derive(Debug)]
pub enum Extract {
    Fields(Vec<Range<usize>>),
    Bytes(Vec<Range<usize>>),
    Chars(Vec<Range<usize>>),
}

/// Relies on `String::from_utf8_lossy`: bytes that are valid UTF-8 come
/// back decoded unchanged.
#[verifier::external_body]
fn bytes_to_string_lossy(v: &Vec<u8>) -> (r: String)
    ensures
        valid_utf8(v@) ==> r@ == decode_utf8(v@),
{
    String::from_utf8_lossy(v).into_owned()
}

/// One line's extracted output under the active mode.  Chars mode is
/// pinned exactly.  Bytes and fields modes select over the line's UTF-8
/// encoding, so their output is exactly the decoding of the selected
/// bytes whenever those bytes are valid UTF-8; a selection that cuts
/// into the middle of an encoded character is shown with replacement
/// characters instead of failing.
pub fn extract(line: &str, delim: u8, ex: &Extract) -> (out: String)
    ensures
        match ex {
            Extract::Chars(rs) => out@ == sel_concat(line@, ranges_view(rs@)),
            Extract::Bytes(rs) => valid_utf8(sel_concat(line.spec_bytes(), ranges_view(rs@)))
                ==> out@ == decode_utf8(sel_concat(line.spec_bytes(), ranges_view(rs@))),
            Extract::Fields(rs) => valid_utf8(
                join_fields(
                    sel_concat(fields_of(line.spec_bytes(), delim), ranges_view(rs@)),
                    delim,
                ),
            ) ==> out@ == decode_utf8(
                join_fields(
                    sel_concat(fields_of(line.spec_bytes(), delim), ranges_view(rs@)),
                    delim,
                ),
            ),
        },
{
    match ex {
        Extract::Chars(rs) => extract_chars(line, rs),
        Extract::Bytes(rs) => {
            let picked = extract_bytes(line.as_bytes(), rs);
            bytes_to_string_lossy(&picked)
        },
        Extract::Fields(rs) => {
            let picked = extract_fields(line.as_bytes(), delim, rs);
            bytes_to_string_lossy(&picked)
        },
    }
}

/// Chars-mode extraction emits only whole characters of the line: every
/// character of the output occurs in the input, so no multi-byte-encoded
/// character is ever cut apart.
pub proof fn lemma_chars_extraction_whole_chars(line: Seq<char>, rs: Seq<(int, int)>)
    requires
        forall|i: int| 0 <= i < rs.len() ==> 0 <= (#[trigger] rs[i]).0 && 0 <= rs[i].1,
    ensures
        forall|j: int|
            0 <= j < sel_concat(line, rs).len() ==> line.contains(#[trigger] sel_concat(line, rs)[j]),
    decreases rs.len(),
{
    if rs.len() > 0 {
        lemma_chars_extraction_whole_chars(line, rs.drop_last());
        let prev = sel_concat(line, rs.drop_last());
        let tail = sel_slice(line, rs.last());
        assert forall|j: int|
            0 <= j < sel_concat(line, rs).len() implies line.contains(
            #[trigger] sel_concat(line, rs)[j],
        ) by {
            if j < prev.len() {
                assert(sel_concat(line, rs)[j] == prev[j]);
            } else {
                let s = clip(rs.last().0, line.len() as int);
                let e = clip(rs.last().1, line.len() as int);
                if s <= e {
                    let k = j - prev.len();
                    assert(tail[k] == line[s + k]);
                    assert(line.contains(line[s + k]));
                }
            }
        }
    }
}

} // verus!
