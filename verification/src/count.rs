//! Counting lines, words, bytes and characters of a text, as the
//! word-count tool does over everything its reader hands it.
//!
//! A line is a maximal newline-terminated segment; text after the last
//! newline still counts as one line.  A word is a maximal run of
//! non-whitespace characters.  Bytes are counted over the UTF-8
//! encoding, characters over Unicode scalar values.

use vstd::prelude::*;
use vstd::string::StringSliceAdditionalSpecFns;

verus! {

/// The per-input counts.
#[derive(Debug, PartialEq, Eq, Structural)]
pub struct FileInfo {
    pub num_lines: usize,
    pub num_bytes: usize,
    pub num_chars: usize,
    pub num_words: usize,
}

/// A Unicode whitespace character, as word splitting understands it:
/// the characters with the White_Space property.
pub open spec fn is_space(c: char) -> bool {
    let u = c as u32;
    (9 <= u && u <= 13) || u == 32 || u == 0x85 || u == 0xA0 || u == 0x1680 || (0x2000 <= u && u
        <= 0x200A) || u == 0x2028 || u == 0x2029 || u == 0x202F || u == 0x205F || u == 0x3000
}

fn is_space_char(c: char) -> (r: bool)
    ensures
        r == is_space(c),
{
    let u = c as u32;
    (9 <= u && u <= 13) || u == 32 || u == 0x85 || u == 0xA0 || u == 0x1680 || (0x2000 <= u && u
        <= 0x200A) || u == 0x2028 || u == 0x2029 || u == 0x202F || u == 0x205F || u == 0x3000
}

/// How many newlines `s` holds.
pub open spec fn newline_count(s: Seq<char>) -> int
    decreases s.len(),
{
    if s.len() == 0 {
        0
    } else {
        newline_count(s.drop_last()) + if s.last() == '\n' {
            1int
        } else {
            0int
        }
    }
}

pub proof fn lemma_newline_count_le(s: Seq<char>)
    ensures
        0 <= newline_count(s) <= s.len(),
    decreases s.len(),
{
    if s.len() > 0 {
        lemma_newline_count_le(s.drop_last());
    }
}

/// How many lines `s` holds: one per newline, and one more for a final
/// unterminated segment.
pub open spec fn line_count(s: Seq<char>) -> int {
    newline_count(s) + if s.len() > 0 && s.last() != '\n' {
        1int
    } else {
        0int
    }
}

/// How many words `s` holds: a word begins at every non-whitespace
/// character that starts the text or follows a whitespace character.
pub open spec fn word_count(s: Seq<char>) -> int
    decreases s.len(),
{
    if s.len() == 0 {
        0
    } else {
        word_count(s.drop_last()) + if !is_space(s.last()) && (s.len() == 1 || is_space(
            s[s.len() - 2],
        )) {
            1int
        } else {
            0int
        }
    }
}

pub proof fn lemma_word_count_le(s: Seq<char>)
    ensures
        0 <= word_count(s) <= s.len(),
    decreases s.len(),
{
    if s.len() > 0 {
        lemma_word_count_le(s.drop_last());
    }
}

/// The line, word, byte and character counts of `text`, as the counting
/// loop of the word-count tool accumulates them over its whole input.
pub fn count(text: &str) -> (info: FileInfo)
    ensures
        info.num_lines as int == line_count(text@),
        info.num_words as int == word_count(text@),
        info.num_chars as int == text@.len(),
        info.num_bytes as int == text.spec_bytes().len(),
{
    let len = text.unicode_len();
    let num_bytes = text.as_bytes().len();
    let mut nl: usize = 0;
    let mut words: usize = 0;
    let mut i: usize = 0;
    proof {
        assert(text@.take(0) =~= Seq::<char>::empty());
    }
    while i < len
        invariant
            0 <= i <= len,
            len as int == text@.len(),
            nl as int == newline_count(text@.take(i as int)),
            words as int == word_count(text@.take(i as int)),
            nl <= i,
            words <= i,
        decreases len - i,
    {
        let ghost prefix = text@.take(i as int);
        proof {
            assert(text@.take(i as int + 1).drop_last() =~= prefix);
            assert(text@.take(i as int + 1).last() == text@[i as int]);
            lemma_newline_count_le(text@.take(i as int + 1));
            lemma_word_count_le(text@.take(i as int + 1));
        }
        let c = text.get_char(i);
        if c == '\n' {
            nl = nl + 1;
        }
        if !is_space_char(c) {
            let at_word_start = if i == 0 {
                true
            } else {
                is_space_char(text.get_char(i - 1))
            };
            if at_word_start {
                words = words + 1;
            }
        }
        i = i + 1;
    }
    proof {
        assert(text@.take(len as int) =~= text@);
    }
    let num_lines = if len > 0 && text.get_char(len - 1) != '\n' {
        proof {
            lemma_newline_count_le(text@.drop_last());
            assert(newline_count(text@) == newline_count(text@.drop_last()));
        }
        nl + 1
    } else {
        nl
    };
    FileInfo { num_lines, num_bytes, num_chars: len, num_words: words }
}

} // verus!
