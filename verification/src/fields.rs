//! Splitting a line into delimiter-separated fields and joining fields
//! back together.
//!
//! A line is split at every occurrence of the single delimiter byte:
//! consecutive delimiters give empty fields, and a line without any
//! delimiter is one field, so a split always yields at least one field.

use vstd::prelude::*;

verus! {

/// Position of the last occurrence of `d` in `s`, or -1 if there is
/// none.
pub open spec fn last_sep(s: Seq<u8>, d: u8) -> int
    decreases s.len(),
{
    if s.len() == 0 {
        -1
    } else if s.last() == d {
        s.len() - 1
    } else {
        last_sep(s.drop_last(), d)
    }
}

pub proof fn lemma_last_sep(s: Seq<u8>, d: u8)
    ensures
        -1 <= last_sep(s, d) < s.len(),
        last_sep(s, d) >= 0 ==> s[last_sep(s, d)] == d,
        forall|i: int| last_sep(s, d) < i < s.len() ==> s[i] != d,
    decreases s.len(),
{
    if s.len() > 0 && s.last() != d {
        lemma_last_sep(s.drop_last(), d);
        assert forall|i: int| last_sep(s, d) < i < s.len() implies s[i] != d by {
            if i < s.len() - 1 {
                assert(s.drop_last()[i] == s[i]);
            }
        }
    }
}

/// The fields of `s`: the sub-slices between consecutive occurrences of
/// the delimiter, in order.
pub open spec fn fields_of(s: Seq<u8>, d: u8) -> Seq<Seq<u8>>
    decreases s.len(),
    via fields_of_dec
{
    let k = last_sep(s, d);
    if k < 0 {
        seq![s]
    } else {
        fields_of(s.take(k), d).push(s.skip(k + 1))
    }
}

#[via_fn]
proof fn fields_of_dec(s: Seq<u8>, d: u8) {
    lemma_last_sep(s, d);
}

/// A split yields at least one field.
pub proof fn lemma_fields_of_len(s: Seq<u8>, d: u8)
    ensures
        fields_of(s, d).len() >= 1,
{
    lemma_last_sep(s, d);
}

/// Reading a delimiter opens a new, empty field.
proof fn lemma_fields_push_sep(s: Seq<u8>, d: u8)
    ensures
        fields_of(s.push(d), d) == fields_of(s, d).push(Seq::<u8>::empty()),
{
    let t = s.push(d);
    assert(t.last() == d);
    assert(last_sep(t, d) == s.len());
    assert(t.take(s.len() as int) =~= s);
    assert(t.skip(s.len() as int + 1) =~= Seq::<u8>::empty());
}

/// Reading any other byte extends the last field.
proof fn lemma_fields_push_other(s: Seq<u8>, d: u8, c: u8)
    requires
        c != d,
    ensures
        fields_of(s.push(c), d) == fields_of(s, d).drop_last().push(
            fields_of(s, d).last().push(c),
        ),
{
    let t = s.push(c);
    assert(t.drop_last() =~= s);
    assert(last_sep(t, d) == last_sep(s, d));
    let k = last_sep(s, d);
    lemma_last_sep(s, d);
    if k < 0 {
        assert(fields_of(t, d) == seq![t]);
        assert(fields_of(s, d) == seq![s]);
        assert(fields_of(s, d).drop_last().push(fields_of(s, d).last().push(c)) =~= seq![t]);
    } else {
        assert(t.take(k) =~= s.take(k));
        assert(t.skip(k + 1) =~= s.skip(k + 1).push(c));
        assert(fields_of(t, d) == fields_of(s.take(k), d).push(s.skip(k + 1).push(c)));
        assert(fields_of(s, d) == fields_of(s.take(k), d).push(s.skip(k + 1)));
        assert(fields_of(s, d).drop_last() =~= fields_of(s.take(k), d));
    }
}

/// The views of a list of byte vectors.
pub open spec fn views_of(fs: Seq<Vec<u8>>) -> Seq<Seq<u8>> {
    fs.map_values(|f: Vec<u8>| f@)
}

/// Splits `line` at every occurrence of the delimiter.
pub fn split_fields(line: &[u8], delim: u8) -> (fields: Vec<Vec<u8>>)
    ensures
        views_of(fields@) == fields_of(line@, delim),
        fields@.len() >= 1,
{
    let len = line.len();
    let mut fields: Vec<Vec<u8>> = Vec::new();
    let mut cur: Vec<u8> = Vec::new();
    proof {
        assert(line@.take(0) =~= Seq::<u8>::empty());
        assert(views_of(fields@).push(cur@) =~= fields_of(line@.take(0), delim));
    }
    let mut i: usize = 0;
    while i < len
        invariant
            0 <= i <= len,
            len == line@.len(),
            views_of(fields@).push(cur@) == fields_of(line@.take(i as int), delim),
        decreases len - i,
    {
        let ghost prefix = line@.take(i as int);
        proof {
            assert(prefix.push(line@[i as int]) =~= line@.take(i as int + 1));
        }
        let b = line[i];
        if b == delim {
            proof {
                lemma_fields_push_sep(prefix, delim);
            }
            fields.push(cur);
            cur = Vec::new();
            proof {
                assert(views_of(fields@).push(cur@) =~= fields_of(
                    prefix,
                    delim,
                ).push(Seq::<u8>::empty()));
            }
        } else {
            proof {
                lemma_fields_push_other(prefix, delim, line@[i as int]);
                lemma_fields_of_len(prefix, delim);
                assert(fields_of(prefix, delim).drop_last() =~= views_of(fields@));
                assert(fields_of(prefix, delim).last() == cur@);
            }
            cur.push(b);
            proof {
                assert(views_of(fields@).push(cur@) =~= fields_of(prefix, delim).drop_last().push(
                    fields_of(prefix, delim).last().push(line@[i as int]),
                ));
            }
        }
        i = i + 1;
    }
    proof {
        assert(line@.take(len as int) =~= line@);
    }
    fields.push(cur);
    proof {
        assert(views_of(fields@) =~= fields_of(line@, delim));
    }
    fields
}

/// Fields joined back together with the delimiter between consecutive
/// fields; no delimiter is added before the first or after the last.
pub open spec fn join_fields(fs: Seq<Seq<u8>>, d: u8) -> Seq<u8>
    decreases fs.len(),
{
    if fs.len() == 0 {
        Seq::empty()
    } else if fs.len() == 1 {
        fs[0]
    } else {
        join_fields(fs.drop_last(), d) + seq![d] + fs.last()
    }
}

/// Joining one more field appends a delimiter and the field, except to
/// an empty join.
pub proof fn lemma_join_push(fs: Seq<Seq<u8>>, f: Seq<u8>, d: u8)
    ensures
        fs.len() == 0 ==> join_fields(fs.push(f), d) == f,
        fs.len() > 0 ==> join_fields(fs.push(f), d) == join_fields(fs, d) + seq![d] + f,
{
    assert(fs.push(f).drop_last() =~= fs);
    assert(fs.push(f).last() == f);
    if fs.len() == 0 {
        assert(fs.push(f)[0] == f);
    }
}

} // verus!
