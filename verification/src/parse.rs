//! The selection-list parser: a string such as `"1,3-5,8"` becomes an
//! ordered list of half-open, 0-based `Range<usize>` values.
//!
//! The grammar is `spec := token (',' token)*` with
//! `token := INDEX | INDEX '-' INDEX`, where `INDEX` is one or more decimal
//! digits (leading zeros allowed, a leading `'+'` rejected) denoting a
//! 1-based position of at least one.  A bare index `n` denotes `[n-1, n)`;
//! a pair `a-b` with `a <= b` denotes `[a-1, b)`.  Declaration order is
//! kept: ranges are neither sorted, merged nor de-duplicated.
//!
//! The whole outcome, errors included, is pinned by the specification
//! function `spec_parse`.

use crate::digits::{
    all_digits_from, digits_val, digits_value_from, is_digits, lemma_digits_val_nonneg,
};
use core::ops::Range;
use vstd::prelude::*;

verus! {

/// Why a selection list was rejected.  Each payload is the offending
/// fragment of the input: the whole token for a syntax error, the index
/// text for an index error, and the two 1-based endpoints for a pair
/// whose endpoints are out of order.
#[derive(Debug)]
pub enum ParseError {
    InvalidSyntax(String),
    InvalidIndex(String),
    InvalidRange(usize, usize),
}

/// The outcome of reading one index, at the specification level.
/// `Val(n)` is the 1-based position, at least one and at most
/// `usize::MAX`.
pub ghost enum SpecIndex {
    Val(int),
    BadSyntax,
    BadIndex,
}

/// The outcome of reading one token: a pair of 1-based endpoints
/// `a <= b`, or an error carrying the offending fragment.
pub ghost enum SpecToken {
    Rng(int, int),
    BadSyntax(Seq<char>),
    BadIndex(Seq<char>),
    BadRange(int, int),
}

/// The outcome of parsing a whole selection list: the 0-based half-open
/// ranges in declaration order, or the first error.
pub ghost enum SpecParsed {
    Ranges(Seq<(int, int)>),
    BadSyntax(Seq<char>),
    BadIndex(Seq<char>),
    BadRange(int, int),
}

/// Position of the first occurrence of `sep` in `s`, or `s.len()` if
/// there is none.
pub open spec fn first_sep(s: Seq<char>, sep: char) -> int
    decreases s.len(),
{
    if s.len() == 0 {
        0
    } else if s[0] == sep {
        0
    } else {
        1 + first_sep(s.skip(1), sep)
    }
}

pub proof fn lemma_first_sep(s: Seq<char>, sep: char)
    ensures
        0 <= first_sep(s, sep) <= s.len(),
        forall|i: int| 0 <= i < first_sep(s, sep) ==> s[i] != sep,
        first_sep(s, sep) < s.len() ==> s[first_sep(s, sep)] == sep,
    decreases s.len(),
{
    if s.len() > 0 && s[0] != sep {
        lemma_first_sep(s.skip(1), sep);
        assert forall|i: int| 0 <= i < first_sep(s, sep) implies s[i] != sep by {
            if i > 0 {
                assert(s.skip(1)[i - 1] == s[i]);
            }
        }
    }
}

/// A scan that saw no `sep` before `k`, and `sep` or the end at `k`,
/// found `first_sep`.
pub proof fn lemma_first_sep_at(s: Seq<char>, sep: char, k: int)
    requires
        0 <= k <= s.len(),
        forall|i: int| 0 <= i < k ==> s[i] != sep,
        k < s.len() ==> s[k] == sep,
    ensures
        first_sep(s, sep) == k,
    decreases s.len(),
{
    if k == 0 {
        if s.len() > 0 {
            assert(s[0] == sep);
        }
    } else {
        assert(s[0] != sep);
        assert forall|i: int| 0 <= i < k - 1 implies s.skip(1)[i] != sep by {
            assert(s.skip(1)[i] == s[i + 1]);
        }
        lemma_first_sep_at(s.skip(1), sep, k - 1);
    }
}

/// One index token: one or more digits, no leading `'+'`, denoting a
/// 1-based position that is nonzero and fits in `usize`.
pub open spec fn spec_index(t: Seq<char>) -> SpecIndex {
    if t.len() == 0 {
        SpecIndex::BadSyntax
    } else if t[0] == '+' {
        SpecIndex::BadIndex
    } else if !is_digits(t) {
        SpecIndex::BadSyntax
    } else if digits_val(t) == 0 || digits_val(t) > usize::MAX {
        SpecIndex::BadIndex
    } else {
        SpecIndex::Val(digits_val(t))
    }
}

/// One token, split at its first `'-'` if any: a single index `n` stands
/// for the pair `n,n`; a pair keeps its endpoints when they are in order.
pub open spec fn spec_token(t: Seq<char>) -> SpecToken {
    let d = first_sep(t, '-');
    if d == t.len() {
        match spec_index(t) {
            SpecIndex::Val(n) => SpecToken::Rng(n, n),
            SpecIndex::BadSyntax => SpecToken::BadSyntax(t),
            SpecIndex::BadIndex => SpecToken::BadIndex(t),
        }
    } else {
        let a = t.take(d);
        let b = t.skip(d + 1);
        match spec_index(a) {
            SpecIndex::BadSyntax => SpecToken::BadSyntax(t),
            SpecIndex::BadIndex => SpecToken::BadIndex(a),
            SpecIndex::Val(va) => match spec_index(b) {
                SpecIndex::BadSyntax => SpecToken::BadSyntax(t),
                SpecIndex::BadIndex => SpecToken::BadIndex(b),
                SpecIndex::Val(vb) => if va <= vb {
                    SpecToken::Rng(va, vb)
                } else {
                    SpecToken::BadRange(va, vb)
                },
            },
        }
    }
}

/// The 0-based half-open range that a token's 1-based endpoints denote.
pub open spec fn spec_token_range(a: int, b: int) -> (int, int) {
    (a - 1, b)
}

pub open spec fn spec_parse_one(head: SpecToken) -> SpecParsed {
    match head {
        SpecToken::Rng(a, b) => SpecParsed::Ranges(seq![spec_token_range(a, b)]),
        SpecToken::BadSyntax(t) => SpecParsed::BadSyntax(t),
        SpecToken::BadIndex(t) => SpecParsed::BadIndex(t),
        SpecToken::BadRange(a, b) => SpecParsed::BadRange(a, b),
    }
}

/// Parsing a whole selection list: tokens are read left to right and the
/// first offending token decides the error.
pub open spec fn spec_parse(s: Seq<char>) -> SpecParsed
    decreases s.len(),
    via spec_parse_dec
{
    let k = first_sep(s, ',');
    if k == s.len() {
        spec_parse_one(spec_token(s))
    } else {
        match spec_token(s.take(k)) {
            SpecToken::Rng(a, b) => match spec_parse(s.skip(k + 1)) {
                SpecParsed::Ranges(rest) => SpecParsed::Ranges(
                    seq![spec_token_range(a, b)] + rest,
                ),
                e => e,
            },
            SpecToken::BadSyntax(t) => SpecParsed::BadSyntax(t),
            SpecToken::BadIndex(t) => SpecParsed::BadIndex(t),
            SpecToken::BadRange(a, b) => SpecParsed::BadRange(a, b),
        }
    }
}

#[via_fn]
proof fn spec_parse_dec(s: Seq<char>) {
    lemma_first_sep(s, ',');
}

/// The endpoints of a list of ranges, as mathematical integers.
pub open spec fn ranges_view(v: Seq<Range<usize>>) -> Seq<(int, int)> {
    v.map_values(|r: Range<usize>| (r.start as int, r.end as int))
}

/// Reads one 1-based index and returns it 0-based, the way a bare
/// token denotes the single position it selects.
pub fn parse_index(input: &str) -> (r: Result<usize, ParseError>)
    ensures
        match r {
            Ok(i) => spec_index(input@) == SpecIndex::Val(i as int + 1),
            Err(ParseError::InvalidSyntax(t)) => spec_index(input@) is BadSyntax && t@ == input@,
            Err(ParseError::InvalidIndex(t)) => spec_index(input@) is BadIndex && t@ == input@,
            Err(ParseError::InvalidRange(a, b)) => false,
        },
{
    match parse_to_int(input, input) {
        Ok(v) => Ok(v - 1),
        Err(e) => Err(e),
    }
}

/// Reads the 1-based index `val`; `input` is the whole token it came
/// from, reported on a syntax error.
pub fn parse_to_int(val: &str, input: &str) -> (r: Result<usize, ParseError>)
    ensures
        match r {
            Ok(v) => spec_index(val@) == SpecIndex::Val(v as int) && v >= 1,
            Err(ParseError::InvalidSyntax(t)) => spec_index(val@) is BadSyntax && t@ == input@,
            Err(ParseError::InvalidIndex(t)) => spec_index(val@) is BadIndex && t@ == val@,
            Err(ParseError::InvalidRange(a, b)) => false,
        },
{
    let len = val.unicode_len();
    if len == 0 {
        return Err(ParseError::InvalidSyntax(input.to_owned()));
    }
    if val.get_char(0) == '+' {
        return Err(ParseError::InvalidIndex(val.to_owned()));
    }
    if !all_digits_from(val, 0) {
        return Err(ParseError::InvalidSyntax(input.to_owned()));
    }
    proof {
        assert(val@.skip(0) =~= val@);
        lemma_digits_val_nonneg(val@);
    }
    match digits_value_from(val, 0) {
        None => Err(ParseError::InvalidIndex(val.to_owned())),
        Some(v) => if v == 0 {
            Err(ParseError::InvalidIndex(val.to_owned()))
        } else {
            Ok(v)
        },
    }
}

/// Reads one token (everything between two commas) into its range.
fn parse_token(tok: &str) -> (r: Result<Range<usize>, ParseError>)
    ensures
        match r {
            Ok(rg) => spec_token(tok@) == SpecToken::Rng(rg.start as int + 1, rg.end as int)
                && rg.start < rg.end,
            Err(ParseError::InvalidSyntax(t)) => spec_token(tok@) == SpecToken::BadSyntax(t@),
            Err(ParseError::InvalidIndex(t)) => spec_token(tok@) == SpecToken::BadIndex(t@),
            Err(ParseError::InvalidRange(a, b)) => spec_token(tok@) == SpecToken::BadRange(
                a as int,
                b as int,
            ),
        },
{
    let len = tok.unicode_len();
    let mut d: usize = 0;
    while d < len && tok.get_char(d) != '-'
        invariant
            0 <= d <= len,
            len as int == tok@.len(),
            forall|j: int| 0 <= j < d ==> tok@[j] != '-',
        decreases len - d,
    {
        d = d + 1;
    }
    proof {
        lemma_first_sep_at(tok@, '-', d as int);
    }
    if d == len {
        // A bare index: `n` selects the single position `n`.
        match parse_index(tok) {
            Ok(i) => {
                proof {
                    lemma_digits_val_nonneg(tok@);
                }
                Ok(Range { start: i, end: i + 1 })
            },
            Err(e) => Err(e),
        }
    } else {
        let a_str = tok.substring_char(0, d);
        let b_str = tok.substring_char(d + 1, len);
        proof {
            assert(a_str@ =~= tok@.take(d as int));
            assert(b_str@ =~= tok@.skip(d as int + 1));
        }
        let va = match parse_to_int(a_str, tok) {
            Ok(v) => v,
            Err(e) => { return Err(e) },
        };
        let vb = match parse_to_int(b_str, tok) {
            Ok(v) => v,
            Err(e) => { return Err(e) },
        };
        if va <= vb {
            Ok(Range { start: va - 1, end: vb })
        } else {
            Err(ParseError::InvalidRange(va, vb))
        }
    }
}

/// Prepending already-parsed ranges to the outcome of the rest of the
/// list.
pub open spec fn spec_prepend(rs: Seq<(int, int)>, p: SpecParsed) -> SpecParsed {
    match p {
        SpecParsed::Ranges(rest) => SpecParsed::Ranges(rs + rest),
        e => e,
    }
}

/// Parses a whole selection list such as `"1,3-5,8"` into its ranges,
/// in declaration order, or reports the first offending token.
pub fn parse_pos(list: &str) -> (r: Result<Vec<Range<usize>>, ParseError>)
    ensures
        match r {
            Ok(v) => spec_parse(list@) == SpecParsed::Ranges(ranges_view(v@)),
            Err(ParseError::InvalidSyntax(t)) => spec_parse(list@) == SpecParsed::BadSyntax(t@),
            Err(ParseError::InvalidIndex(t)) => spec_parse(list@) == SpecParsed::BadIndex(t@),
            Err(ParseError::InvalidRange(a, b)) => spec_parse(list@) == SpecParsed::BadRange(
                a as int,
                b as int,
            ),
        },
{
    let len = list.unicode_len();
    let mut pos: usize = 0;
    let mut out: Vec<Range<usize>> = Vec::new();
    proof {
        assert(list@.skip(0) =~= list@);
        match spec_parse(list@) {
            SpecParsed::Ranges(x) => {
                assert(ranges_view(out@) + x =~= x);
            },
            _ => {},
        }
    }
    loop
        invariant
            0 <= pos <= len,
            len as int == list@.len(),
            spec_parse(list@) == spec_prepend(
                ranges_view(out@),
                spec_parse(list@.skip(pos as int)),
            ),
        decreases len - pos,
    {
        let ghost u: Seq<char> = list@.skip(pos as int);
        let mut i: usize = pos;
        while i < len && list.get_char(i) != ','
            invariant
                pos <= i <= len,
                len as int == list@.len(),
                forall|j: int| pos <= j < i ==> list@[j] != ',',
            decreases len - i,
        {
            i = i + 1;
        }
        proof {
            assert forall|j: int| 0 <= j < i - pos implies u[j] != ',' by {
                assert(u[j] == list@[pos + j]);
            }
            lemma_first_sep_at(u, ',', i - pos as int);
        }
        let tok = list.substring_char(pos, i);
        proof {
            assert(tok@ =~= u.take(i - pos as int));
        }
        let rg = match parse_token(tok) {
            Ok(rg) => rg,
            Err(e) => {
                proof {
                    if i == len {
                        assert(u.take(i - pos as int) =~= u);
                    }
                }
                return Err(e);
            },
        };
        let ghost old_out = out@;
        out.push(rg);
        proof {
            assert(ranges_view(out@) =~= ranges_view(old_out) + seq![
                (rg.start as int, rg.end as int),
            ]);
        }
        if i == len {
            proof {
                assert(u.take(i - pos as int) =~= u);
                assert(ranges_view(old_out) + seq![(rg.start as int, rg.end as int)]
                    =~= ranges_view(out@));
            }
            return Ok(out);
        }
        proof {
            let rest = u.skip(i - pos as int + 1);
            assert(rest =~= list@.skip(i as int + 1));
            match spec_parse(rest) {
                SpecParsed::Ranges(rs) => {
                    assert(ranges_view(old_out) + (seq![(rg.start as int, rg.end as int)] + rs)
                        =~= ranges_view(out@) + rs);
                },
                _ => {},
            }
        }
        pos = i + 1;
    }
}

/// Parsing is a pure function of the selection string: two successful
/// parses of the same string yield the same range list.
pub proof fn lemma_parse_deterministic(
    s: Seq<char>,
    v1: Seq<Range<usize>>,
    v2: Seq<Range<usize>>,
)
    requires
        spec_parse(s) == SpecParsed::Ranges(ranges_view(v1)),
        spec_parse(s) == SpecParsed::Ranges(ranges_view(v2)),
    ensures
        v1 =~= v2,
{
    assert(ranges_view(v1) =~= ranges_view(v2));
    assert(ranges_view(v1).len() == v1.len());
    assert(ranges_view(v2).len() == v2.len());
    assert forall|i: int| 0 <= i < v1.len() implies v1[i] == v2[i] by {
        assert(ranges_view(v1)[i] == ranges_view(v2)[i]);
        assert(ranges_view(v1)[i] == (v1[i].start as int, v1[i].end as int));
        assert(ranges_view(v2)[i] == (v2[i].start as int, v2[i].end as int));
        assert(v1[i].start as int == v2[i].start as int);
        assert(v1[i].end as int == v2[i].end as int);
        assert(v1[i].start == v2[i].start);
        assert(v1[i].end == v2[i].end);
    }
}

pub proof fn lemma_spec_index_bounds(t: Seq<char>)
    ensures
        spec_index(t) matches SpecIndex::Val(n) ==> 1 <= n <= usize::MAX,
{
    if spec_index(t) is Val {
        lemma_digits_val_nonneg(t);
    }
}

pub proof fn lemma_spec_token_bounds(t: Seq<char>)
    ensures
        spec_token(t) matches SpecToken::Rng(a, b) ==> 1 <= a <= b <= usize::MAX,
{
    let d = first_sep(t, '-');
    lemma_spec_index_bounds(t);
    lemma_spec_index_bounds(t.take(d));
    lemma_spec_index_bounds(t.skip(d + 1));
}

/// Every range that parsing yields is well-formed: its 0-based start
/// lies strictly below its end, so no parsed range is empty.
pub proof fn lemma_parsed_ranges_valid(s: Seq<char>, rs: Seq<(int, int)>)
    requires
        spec_parse(s) == SpecParsed::Ranges(rs),
    ensures
        forall|i: int| 0 <= i < rs.len() ==> 0 <= #[trigger] rs[i].0 < rs[i].1,
    decreases s.len(),
{
    lemma_first_sep(s, ',');
    let k = first_sep(s, ',');
    if k == s.len() {
        lemma_spec_token_bounds(s);
    } else {
        lemma_spec_token_bounds(s.take(k));
        let rest = spec_parse(s.skip(k + 1))->Ranges_0;
        lemma_parsed_ranges_valid(s.skip(k + 1), rest);
        let head = spec_token(s.take(k));
        assert forall|i: int| 0 <= i < rs.len() implies 0 <= #[trigger] rs[i].0 < rs[i].1 by {
            if i > 0 {
                assert(rs[i] == rest[i - 1]);
            }
        }
    }
}

} // verus!

