//! Parsing of position lists: comma-separated 1-based numbers and dashed
//! ranges, turned into zero-based half-open index ranges.

use vstd::prelude::*;
use vstd::string::StrSliceExecFns;

verus! {

/// A zero-based, half-open index interval `[start, end)` over a sequence.
#[derive(Clone, Copy, PartialEq, Eq, Structural, Debug)]
pub struct PosRange {
    pub start: usize,
    pub end: usize,
}

/// The ordered list of ranges produced by `parse_pos`, applied in order by
/// the extractors.
pub type PositionList = Vec<PosRange>;

impl PosRange {
    /// A well-formed range selects at least one index.
    pub open spec fn wf(self) -> bool {
        self.start < self.end
    }
}

/// Every range of a parsed list is well-formed.
pub open spec fn wf_ranges(rs: Seq<PosRange>) -> bool {
    forall|i: int| 0 <= i < rs.len() ==> (#[trigger] rs[i]).wf()
}

/// `c` is a decimal digit.
pub open spec fn is_digit(c: char) -> bool {
    48 <= c as u32 <= 57
}

/// Every character of `s` is a decimal digit; vacuously true of the empty
/// sequence.
pub open spec fn all_digits(s: Seq<char>) -> bool {
    forall|i: int| 0 <= i < s.len() ==> is_digit(#[trigger] s[i])
}

/// The numeric value of the digit character `c`.
pub open spec fn digit_val(c: char) -> int {
    c as u32 - 48
}

/// The value of `s` read as a decimal numeral; 0 for the empty sequence.
/// Leading zeros are ordinary digits, so `"007"` has value 7.
pub open spec fn digits_val(s: Seq<char>) -> int
    decreases s.len(),
{
    if s.len() == 0 {
        0
    } else {
        digits_val(s.drop_last()) * 10 + digit_val(s.last())
    }
}

/// The index of the first occurrence of `sep` in `s`, or `s.len()` if `sep`
/// does not occur.
pub open spec fn sep_index(s: Seq<char>, sep: char) -> int
    decreases s.len(),
{
    if s.len() == 0 {
        0
    } else if s[0] == sep {
        0
    } else {
        1 + sep_index(s.skip(1), sep)
    }
}

/// The first occurrence lies within the sequence, holds `sep`, and nothing
/// before it does.
pub proof fn lemma_sep_index_bounds(s: Seq<char>, sep: char)
    ensures
        0 <= sep_index(s, sep) <= s.len(),
        sep_index(s, sep) < s.len() ==> s[sep_index(s, sep)] == sep,
        forall|k: int| 0 <= k < sep_index(s, sep) ==> s[k] != sep,
    decreases s.len(),
{
    if s.len() == 0 {
    } else if s[0] == sep {
    } else {
        lemma_sep_index_bounds(s.skip(1), sep);
        assert forall|k: int| 0 <= k < sep_index(s, sep) implies s[k] != sep by {
            if k >= 1 {
                assert(s.skip(1)[k - 1] != sep);
            }
        }
    }
}

/// If the first `d` characters of `s` are not `sep` and either `d` is the
/// length of `s` or `s[d]` is `sep`, then `d` is the first occurrence.
pub proof fn lemma_sep_index_is(s: Seq<char>, sep: char, d: int)
    requires
        0 <= d <= s.len(),
        forall|k: int| 0 <= k < d ==> s[k] != sep,
        d < s.len() ==> s[d] == sep,
    ensures
        sep_index(s, sep) == d,
    decreases s.len(),
{
    if s.len() == 0 {
    } else if s[0] == sep {
        assert(d == 0);
    } else {
        assert(d >= 1) by {
            assert(0 < s.len() ==> (d < s.len() ==> s[d] == sep));
        }
        lemma_sep_index_is(s.skip(1), sep, d - 1);
    }
}

/// `s` split on `sep`: the list of (possibly empty) pieces between
/// occurrences of `sep`, in order. The empty sequence splits into one empty
/// piece.
pub open spec fn split_on(s: Seq<char>, sep: char) -> Seq<Seq<char>>
    decreases s.len(),
    via split_on_decreases
{
    let i = sep_index(s, sep);
    if i == s.len() {
        seq![s]
    } else {
        seq![s.take(i)] + split_on(s.skip(i + 1), sep)
    }
}

#[via_fn]
proof fn split_on_decreases(s: Seq<char>, sep: char) {
    lemma_sep_index_bounds(s, sep);
}

/// The position of the first dash in a segment, or the segment's length.
pub open spec fn seg_dash(seg: Seq<char>) -> int {
    sep_index(seg, '-')
}

/// Whether the segment holds a dash, i.e. is written as a pair `"N-M"`.
pub open spec fn seg_has_dash(seg: Seq<char>) -> bool {
    seg_dash(seg) < seg.len()
}

/// The start token of a segment: everything before the first dash, or the
/// whole segment if there is none.
pub open spec fn seg_first(seg: Seq<char>) -> Seq<char> {
    seg.take(seg_dash(seg))
}

/// The end token of a segment: everything after the first dash; empty if
/// there is no dash.
pub open spec fn seg_second(seg: Seq<char>) -> Seq<char> {
    if seg_has_dash(seg) {
        seg.skip(seg_dash(seg) + 1)
    } else {
        Seq::empty()
    }
}

/// A segment is acceptable: its start token is a non-empty run of digits
/// with value at least 1 that fits the machine word, and, if a dash is
/// present, so is its end token, with the start value strictly below the end
/// value.
pub open spec fn seg_ok(seg: Seq<char>) -> bool {
    let a = seg_first(seg);
    let b = seg_second(seg);
    &&& all_digits(a)
    &&& a.len() > 0
    &&& 1 <= digits_val(a) <= usize::MAX
    &&& seg_has_dash(seg) ==> {
        &&& b.len() > 0
        &&& all_digits(b)
        &&& 1 <= digits_val(b) <= usize::MAX
        &&& digits_val(a) < digits_val(b)
    }
}

/// The zero-based half-open range denoted by an acceptable segment: a bare
/// number `N` stands for `[N-1, N)`, a pair `N-M` for `[N-1, M)`.
pub open spec fn seg_range(seg: Seq<char>) -> PosRange {
    PosRange {
        start: (digits_val(seg_first(seg)) - 1) as usize,
        end: (if seg_has_dash(seg) {
            digits_val(seg_second(seg))
        } else {
            digits_val(seg_first(seg))
        }) as usize,
    }
}

/// The digit character with value `d`.
pub open spec fn digit_char(d: nat) -> char {
    ((48 + d) as u8) as char
}

/// The decimal numeral of `n`, without a sign and without leading zeros.
pub open spec fn decimal_of(n: nat) -> Seq<char>
    decreases n,
    via decimal_of_decreases
{
    if n < 10 {
        seq![digit_char(n)]
    } else {
        decimal_of(n / 10).push(digit_char(n % 10))
    }
}

#[via_fn]
proof fn decimal_of_decreases(n: nat) {
    if n >= 10 {
        assert(n / 10 < n) by (nonlinear_arith)
            requires n >= 10,
        ;
    }
}

/// Why a position list was rejected.
#[derive(Debug)]
pub enum ParseError {
    /// A segment, or one of its number tokens, is not an acceptable
    /// position; carries the offending text.
    IllegalListValue(String),
    /// A dashed pair whose first number is not strictly below its second;
    /// carries both numbers.
    NotAscending { first: usize, second: usize },
}

impl ParseError {
    /// The text of the message that `message` returns.
    pub open spec fn spec_message(&self) -> Seq<char> {
        match self {
            ParseError::IllegalListValue(tok) => "illegal list value: \""@ + tok@ + "\""@,
            ParseError::NotAscending { first, second } => "First number in range ("@
                + decimal_of(*first as nat) + ") must be lower than the second number ("@
                + decimal_of(*second as nat) + ")"@,
        }
    }

    /// The human-readable message for this error, as the command-line tool
    /// prints it.
    pub fn message(&self) -> (r: String)
        ensures
            r@ == self.spec_message(),
    {
        match self {
            ParseError::IllegalListValue(tok) => {
                let mut s = String::from_str("illegal list value: \"");
                s.append(tok.as_str());
                s.append("\"");
                s
            },
            ParseError::NotAscending { first, second } => {
                let mut s = String::from_str("First number in range (");
                let f = format_usize(*first);
                s.append(f.as_str());
                s.append(") must be lower than the second number (");
                let g = format_usize(*second);
                s.append(g.as_str());
                s.append(")");
                s
            },
        }
    }
}

/// Appends the digit character of `d` to `out`.
fn append_digit(out: &mut String, d: usize)
    requires
        d < 10,
    ensures
        final(out)@ == old(out)@.push(digit_char(d as nat)),
{
    let digits = "0123456789";
    proof {
        reveal_strlit("0123456789");
    }
    let piece = digits.substring_char(d, d + 1);
    assert(piece@ =~= seq![digit_char(d as nat)]);
    out.append(piece);
    assert(out@ =~= old(out)@.push(digit_char(d as nat)));
}

/// Renders `n` as its decimal numeral.
pub fn format_usize(n: usize) -> (r: String)
    ensures
        r@ == decimal_of(n as nat),
    decreases n,
{
    if n < 10 {
        let mut s = String::new();
        append_digit(&mut s, n);
        assert(s@ =~= seq![digit_char(n as nat)]);
        s
    } else {
        proof {
            assert(n / 10 < n) by (nonlinear_arith)
                requires n >= 10,
            ;
        }
        let mut s = format_usize(n / 10);
        append_digit(&mut s, n % 10);
        s
    }
}

/// `e` is the "illegal list value" error citing exactly `tok`.
pub open spec fn is_illegal_for(e: ParseError, tok: Seq<char>) -> bool {
    e matches ParseError::IllegalListValue(t) && t@ == tok
}

/// The error an unacceptable segment produces: malformed tokens are
/// reported first, citing the whole segment (an empty start token among
/// them — it leaves no token to cite); then a start that is zero or does
/// not fit the machine word, then such an end, each citing the offending
/// token; last a pair out of order, citing both numbers.
pub open spec fn matches_seg_error(e: ParseError, seg: Seq<char>) -> bool {
    let a = seg_first(seg);
    let b = seg_second(seg);
    if !all_digits(a) || (b.len() != 0 && !all_digits(b)) || (seg_has_dash(seg) && b.len()
        == 0) {
        is_illegal_for(e, seg)
    } else if a.len() == 0 {
        is_illegal_for(e, seg)
    } else if digits_val(a) == 0 || digits_val(a) > usize::MAX {
        is_illegal_for(e, a)
    } else if seg_has_dash(seg) && (digits_val(b) == 0 || digits_val(b) > usize::MAX) {
        is_illegal_for(e, b)
    } else if seg_has_dash(seg) && digits_val(a) >= digits_val(b) {
        e matches ParseError::NotAscending { first, second } && first == digits_val(a)
            && second == digits_val(b)
    } else {
        false
    }
}

/// A run of digits has a non-negative value.
pub proof fn lemma_digits_val_nonneg(s: Seq<char>)
    requires
        all_digits(s),
    ensures
        digits_val(s) >= 0,
    decreases s.len(),
{
    if s.len() > 0 {
        assert(all_digits(s.drop_last())) by {
            assert(forall|i: int| 0 <= i < s.len() - 1 ==> s.drop_last()[i] == s[i]);
        }
        lemma_digits_val_nonneg(s.drop_last());
        assert(is_digit(s.last()));
    }
}

/// Extending a run of digits to the right cannot lower its value.
pub proof fn lemma_digits_val_prefix(s: Seq<char>, i: int)
    requires
        all_digits(s),
        0 <= i <= s.len(),
    ensures
        digits_val(s.take(i)) <= digits_val(s),
    decreases s.len() - i,
{
    if i < s.len() {
        assert(all_digits(s.take(i + 1))) by {
            assert(forall|k: int| 0 <= k < i + 1 ==> s.take(i + 1)[k] == s[k]);
        }
        assert(s.take(i + 1).drop_last() =~= s.take(i));
        lemma_digits_val_nonneg(s.take(i));
        assert(digits_val(s.take(i)) <= digits_val(s.take(i + 1)));
        lemma_digits_val_prefix(s, i + 1);
    } else {
        assert(s.take(i) =~= s);
    }
}

/// Parses the digit run `s[lo..hi)` as a decimal number; `None` when the
/// run is empty or its value does not fit in `usize`.
pub(crate) fn parse_decimal(s: &str, lo: usize, hi: usize) -> (r: Option<usize>)
    requires
        lo <= hi <= s@.len(),
        all_digits(s@.subrange(lo as int, hi as int)),
    ensures
        ({
            let t = s@.subrange(lo as int, hi as int);
            match r {
                Some(n) => t.len() > 0 && n == digits_val(t),
                None => t.len() == 0 || digits_val(t) > usize::MAX,
            }
        }),
{
    let ghost t = s@.subrange(lo as int, hi as int);
    if lo == hi {
        return None;
    }
    let mut acc: usize = 0;
    let mut i: usize = lo;
    while i < hi
        invariant
            lo <= i <= hi <= s@.len(),
            all_digits(t),
            t == s@.subrange(lo as int, hi as int),
            acc == digits_val(t.take(i - lo)),
        decreases hi - i,
    {
        let c = s.get_char(i);
        assert(c == t[i - lo]);
        assert(is_digit(c));
        let u: u32 = c as u32;
        let d: usize = (u - 48) as usize;
        let wide: u128 = acc as u128 * 10 + d as u128;
        proof {
            assert(t.take(i + 1 - lo).drop_last() =~= t.take(i - lo));
            assert(t.take(i + 1 - lo).last() == t[i - lo]);
            assert(digits_val(t.take(i + 1 - lo)) == acc * 10 + d);
        }
        if wide > usize::MAX as u128 {
            proof {
                assert(all_digits(t.take(i + 1 - lo))) by {
                    assert(forall|k: int|
                        0 <= k < i + 1 - lo ==> t.take(i + 1 - lo)[k] == t[k]);
                }
                lemma_digits_val_prefix(t, i + 1 - lo);
            }
            return None;
        }
        acc = (acc * 10) + d;
        i += 1;
    }
    assert(t.take(hi - lo) =~= t);
    Some(acc)
}

/// Finds the first occurrence of `sep` in `s[lo..hi)` as an absolute index,
/// or `hi` when `sep` does not occur there.
fn find_sep(s: &str, lo: usize, hi: usize, sep: char) -> (k: usize)
    requires
        lo <= hi <= s@.len(),
    ensures
        lo <= k <= hi,
        k - lo == sep_index(s@.subrange(lo as int, hi as int), sep),
{
    let ghost t = s@.subrange(lo as int, hi as int);
    let mut j: usize = lo;
    while j < hi
        invariant
            lo <= j <= hi <= s@.len(),
            t == s@.subrange(lo as int, hi as int),
            forall|m: int| 0 <= m < j - lo ==> t[m] != sep,
        decreases hi - j,
    {
        let c = s.get_char(j);
        assert(c == t[j - lo]);
        if c == sep {
            proof {
                lemma_sep_index_is(t, sep, j - lo);
            }
            return j;
        }
        j += 1;
    }
    proof {
        lemma_sep_index_is(t, sep, hi - lo);
    }
    hi
}

/// Reports whether `s[lo..hi)` consists of decimal digits only; an empty
/// run counts as digits-only.
pub(crate) fn digits_only(s: &str, lo: usize, hi: usize) -> (r: bool)
    requires
        lo <= hi <= s@.len(),
    ensures
        r == all_digits(s@.subrange(lo as int, hi as int)),
{
    let ghost t = s@.subrange(lo as int, hi as int);
    let mut j: usize = lo;
    while j < hi
        invariant
            lo <= j <= hi <= s@.len(),
            t == s@.subrange(lo as int, hi as int),
            forall|m: int| 0 <= m < j - lo ==> is_digit(#[trigger] t[m]),
        decreases hi - j,
    {
        let c = s.get_char(j);
        assert(c == t[j - lo]);
        let u: u32 = c as u32;
        if !(48 <= u && u <= 57) {
            assert(!is_digit(t[j - lo]));
            return false;
        }
        j += 1;
    }
    true
}

/// Parses one comma-separated segment, `s[lo..hi)`, into its range, or into
/// the error that the original precedence assigns to it.
fn parse_one_segment(s: &str, lo: usize, hi: usize) -> (r: Result<PosRange, ParseError>)
    requires
        lo <= hi <= s@.len(),
    ensures
        ({
            let seg = s@.subrange(lo as int, hi as int);
            match r {
                Ok(pr) => seg_ok(seg) && pr == seg_range(seg),
                Err(e) => !seg_ok(seg) && matches_seg_error(e, seg),
            }
        }),
{
    let ghost seg = s@.subrange(lo as int, hi as int);
    let d: usize = find_sep(s, lo, hi, '-');
    let has_dash = d < hi;
    proof {
        assert(seg_dash(seg) == d - lo);
        assert(seg_first(seg) =~= s@.subrange(lo as int, d as int));
        if has_dash {
            assert(seg_second(seg) =~= s@.subrange(d + 1, hi as int));
        }
    }
    let a_ok = digits_only(s, lo, d);
    let bad_b = if has_dash {
        d + 1 == hi || !digits_only(s, d + 1, hi)
    } else {
        false
    };
    if !a_ok || bad_b {
        return Err(ParseError::IllegalListValue(String::from_str(s.substring_char(lo, hi))));
    }
    let start_num: usize = match parse_decimal(s, lo, d) {
        Some(n) => n,
        None => {
            // An empty start token leaves nothing to cite, so the whole
            // segment is; an oversized one is cited itself.
            if lo == d {
                return Err(
                    ParseError::IllegalListValue(String::from_str(s.substring_char(lo, hi))),
                );
            } else {
                return Err(
                    ParseError::IllegalListValue(String::from_str(s.substring_char(lo, d))),
                );
            }
        },
    };
    if start_num == 0 {
        return Err(ParseError::IllegalListValue(String::from_str(s.substring_char(lo, d))));
    }
    if has_dash {
        let end_num: usize = match parse_decimal(s, d + 1, hi) {
            Some(n) => n,
            None => {
                // The end token is known non-empty here, so only an
                // oversized value fails this parse; cite the token.
                return Err(
                    ParseError::IllegalListValue(String::from_str(s.substring_char(d + 1, hi))),
                );
            },
        };
        if end_num == 0 {
            return Err(ParseError::IllegalListValue(String::from_str(s.substring_char(d + 1, hi))));
        }
        if start_num >= end_num {
            return Err(ParseError::NotAscending { first: start_num, second: end_num });
        }
        Ok(PosRange { start: start_num - 1, end: end_num })
    } else {
        Ok(PosRange { start: start_num - 1, end: start_num })
    }
}

/// `list` is exactly the range list that the position spec `s` denotes:
/// every comma-separated segment is acceptable, and the ranges stand in the
/// order of their segments.
pub open spec fn parse_pos_ok(s: Seq<char>, list: Seq<PosRange>) -> bool {
    let segs = split_on(s, ',');
    &&& forall|i: int| 0 <= i < segs.len() ==> seg_ok(#[trigger] segs[i])
    &&& list.len() == segs.len()
    &&& forall|i: int| 0 <= i < segs.len() ==> #[trigger] list[i] == seg_range(segs[i])
}

/// `e` is the error for the first unacceptable segment of `s`, every
/// segment before it being acceptable.
pub open spec fn parse_pos_err(s: Seq<char>, e: ParseError) -> bool {
    let segs = split_on(s, ',');
    exists|j: int|
        {
            &&& 0 <= j < segs.len()
            &&& !seg_ok(#[trigger] segs[j])
            &&& (forall|k: int| 0 <= k < j ==> seg_ok(#[trigger] segs[k]))
            &&& matches_seg_error(e, segs[j])
        }
}

/// Parses a comma-separated list of 1-based positions (`"N"`) and ranges
/// (`"N-M"`, requiring `N < M`) into zero-based half-open ranges, in input
/// order, without merging or deduplication. A single malformed segment
/// rejects the whole list.
pub fn parse_pos(range: &str) -> (r: Result<PositionList, ParseError>)
    ensures
        match r {
            Ok(list) => parse_pos_ok(range@, list@) && wf_ranges(list@),
            Err(e) => parse_pos_err(range@, e),
        },
{
    let n: usize = range.unicode_len();
    let ghost segs = split_on(range@, ',');
    let mut list: Vec<PosRange> = Vec::new();
    let mut pos: usize = 0;
    let ghost mut done: int = 0;
    proof {
        assert(range@.skip(0) =~= range@);
        assert(segs.take(0) + split_on(range@.skip(0), ',') =~= segs);
    }
    loop
        invariant
            pos <= n,
            n == range@.len(),
            segs == split_on(range@, ','),
            0 <= done <= segs.len(),
            list@.len() == done,
            forall|i: int| 0 <= i < done ==> seg_ok(#[trigger] segs[i]),
            forall|i: int| 0 <= i < done ==> #[trigger] list@[i] == seg_range(segs[i]),
            wf_ranges(list@),
            segs == segs.take(done) + split_on(range@.skip(pos as int), ','),
        decreases n - pos,
    {
        let k: usize = find_sep(range, pos, n, ',');
        let ghost rem = range@.skip(pos as int);
        let ghost head = range@.subrange(pos as int, k as int);
        proof {
            assert(rem =~= range@.subrange(pos as int, n as int));
            assert(sep_index(rem, ',') == k - pos);
            lemma_sep_index_bounds(rem, ',');
            assert(rem.take(k - pos) =~= head);
            if k < n {
                assert(split_on(rem, ',') == seq![head] + split_on(rem.skip(k - pos + 1), ','));
                assert(rem.skip(k - pos + 1) =~= range@.skip(k + 1));
            } else {
                assert(split_on(rem, ',') == seq![rem]);
                assert(rem =~= head);
            }
            assert(segs.len() == done + split_on(rem, ',').len());
            assert(segs[done] == split_on(rem, ',')[0]);
            assert(segs[done] == head);
        }
        match parse_one_segment(range, pos, k) {
            Ok(pr) => {
                list.push(pr);
                proof {
                    assert(pr.wf());
                    done = done + 1;
                }
            },
            Err(e) => {
                proof {
                    assert({
                        &&& 0 <= done < segs.len()
                        &&& !seg_ok(segs[done])
                        &&& (forall|k2: int| 0 <= k2 < done ==> seg_ok(#[trigger] segs[k2]))
                        &&& matches_seg_error(e, segs[done])
                    });
                }
                return Err(e);
            },
        }
        if k == n {
            proof {
                assert(done == segs.len());
            }
            return Ok(list);
        }
        proof {
            assert(segs.take(done) =~= segs.take(done - 1) + seq![segs[done - 1]]);
            assert(segs == segs.take(done) + split_on(range@.skip(k + 1), ','));
        }
        pos = k + 1;
    }
}

/// Law: parsing a position spec is deterministic and order-preserving. Any
/// two range lists that the same spec string denotes are identical, and each
/// holds its segments' ranges in input order.
pub proof fn lemma_parse_pos_deterministic(s: Seq<char>, l1: Seq<PosRange>, l2: Seq<PosRange>)
    requires
        parse_pos_ok(s, l1),
        parse_pos_ok(s, l2),
    ensures
        l1 == l2,
{
    assert(l1 =~= l2);
}

/// Reports whether `s` consists of decimal digits only; the empty string
/// counts as numeric.
pub fn is_numeric(s: &str) -> (r: bool)
    ensures
        r == all_digits(s@),
{
    let n: usize = s.unicode_len();
    let mut i: usize = 0;
    while i < n
        invariant
            i <= n,
            n == s@.len(),
            forall|k: int| 0 <= k < i ==> is_digit(#[trigger] s@[k]),
        decreases n - i,
    {
        let c = s.get_char(i);
        let u: u32 = c as u32;
        if !(48 <= u && u <= 57) {
            assert(!is_digit(s@[i as int]));
            return false;
        }
        i += 1;
    }
    true
}

} // verus!
