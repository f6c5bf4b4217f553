//! Line, word, byte and character counting over one complete text.

use vstd::prelude::*;
use vstd::string::StrSliceExecFns;
use vstd::utf8::encode_utf8;

verus! {

broadcast use vstd::slice::axiom_spec_len;

/// The counts of one input: lines, whitespace-separated words, bytes and
/// characters.
#[derive(Clone, Copy, PartialEq, Eq, Structural, Debug)]
pub struct FileInfo {
    pub num_lines: usize,
    pub num_words: usize,
    pub num_bytes: usize,
    pub num_chars: usize,
}

/// Whether `c` has the Unicode White_Space property: what
/// `char::is_whitespace` holds of the character alone.
pub uninterp spec fn is_space(c: char) -> bool;

/// Relies on char::is_whitespace: whether `c` has the Unicode White_Space
/// property, a function of the character alone.
#[verifier::external_body]
fn char_is_space(c: char) -> (r: bool)
    ensures
        r == is_space(c),
{
    c.is_whitespace()
}

/// The number of newline characters in `s`.
pub open spec fn newline_count(s: Seq<char>) -> int
    decreases s.len(),
{
    if s.len() == 0 {
        0
    } else {
        newline_count(s.drop_last()) + if s.last() == '\n' {
            1int
        } else {
            0
        }
    }
}

/// The number of lines of `s`: one per newline character, and one more for
/// a final line left unterminated.
pub open spec fn line_count(s: Seq<char>) -> int {
    newline_count(s) + if s.len() > 0 && s.last() != '\n' {
        1int
    } else {
        0
    }
}

/// The number of words in `s` when the character just before it is known
/// to be whitespace (`prev_space`): a word begins at each non-whitespace
/// character that follows whitespace or the start of the text.
pub open spec fn word_count_from(s: Seq<char>, prev_space: bool) -> int
    decreases s.len(),
{
    if s.len() == 0 {
        0
    } else {
        (if prev_space && !is_space(s[0]) {
            1int
        } else {
            0
        }) + word_count_from(s.skip(1), is_space(s[0]))
    }
}

/// The number of maximal runs of non-whitespace characters in `s`.
pub open spec fn word_count(s: Seq<char>) -> int {
    word_count_from(s, true)
}

/// There are no more newline characters than characters.
proof fn lemma_newline_count_le_len(s: Seq<char>)
    ensures
        0 <= newline_count(s) <= s.len(),
    decreases s.len(),
{
    if s.len() > 0 {
        lemma_newline_count_le_len(s.drop_last());
    }
}

/// Counts the lines, whitespace-separated words, bytes and characters of
/// `text`, taken as one complete input.
pub fn count(text: &str) -> (r: FileInfo)
    ensures
        r.num_lines == line_count(text@),
        r.num_words == word_count(text@),
        r.num_bytes == encode_utf8(text@).len(),
        r.num_chars == text@.len(),
{
    let n: usize = text.unicode_len();
    let bytes: &[u8] = text.as_bytes();
    let num_bytes: usize = bytes.len();
    let mut lines: usize = 0;
    let mut words: usize = 0;
    let mut prev_space = true;
    let mut i: usize = 0;
    proof {
        assert(text@.skip(0) =~= text@);
    }
    while i < n
        invariant
            i <= n,
            n == text@.len(),
            lines as int == newline_count(text@.take(i as int)),
            lines <= i,
            words as int + word_count_from(text@.skip(i as int), prev_space) == word_count(
                text@,
            ),
            words <= i,
        decreases n - i,
    {
        let c = text.get_char(i);
        proof {
            assert(text@.take(i + 1).drop_last() =~= text@.take(i as int));
            assert(text@.take(i + 1).last() == text@[i as int]);
            assert(text@.skip(i as int)[0] == text@[i as int]);
            assert(text@.skip(i as int).skip(1) =~= text@.skip(i + 1));
        }
        if c == '\n' {
            lines += 1;
        }
        let sp = char_is_space(c);
        if !sp && prev_space {
            words += 1;
        }
        prev_space = sp;
        i += 1;
    }
    proof {
        assert(text@.take(n as int) =~= text@);
        assert(text@.skip(n as int) =~= Seq::<char>::empty());
    }
    let num_lines: usize = if n > 0 {
        let last = text.get_char(n - 1);
        if last != '\n' {
            proof {
                assert(text@.drop_last() =~= text@.take(n - 1));
                lemma_newline_count_le_len(text@.drop_last());
            }
            lines + 1
        } else {
            lines
        }
    } else {
        0
    };
    FileInfo { num_lines, num_words: words, num_bytes, num_chars: n }
}

} // verus!
