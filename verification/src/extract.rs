//! The three extraction modes: applying a parsed range list to a line's
//! bytes, to its characters, or to a delimited record's fields, with
//! clamping at the unit's length.

use crate::ranges::wf_ranges;
use crate::ranges::PosRange;
use crate::ranges::PositionList;
use vstd::prelude::*;
use vstd::string::StrSliceExecFns;
use vstd::utf8::decode_utf8;
use vstd::utf8::encode_utf8;
use vstd::utf8::valid_utf8;

verus! {

/// Which view of the input a configured extraction applies its ranges to:
/// delimited fields, raw bytes, or characters.
#[derive(Debug)]
pub enum Extract {
    Fields(PositionList),
    Bytes(PositionList),
    Chars(PositionList),
}

/// What one range selects from a unit of length `s.len()`: nothing when its
/// start lies at or past the end, otherwise the slice up to the smaller of
/// its end and the unit's length.
pub open spec fn clamp_select<T>(s: Seq<T>, r: PosRange) -> Seq<T> {
    if r.start >= s.len() {
        Seq::empty()
    } else if r.end <= s.len() {
        s.subrange(r.start as int, r.end as int)
    } else {
        s.subrange(r.start as int, s.len() as int)
    }
}

/// What a range list selects: the concatenation of each range's clamped
/// slice, in range-list order. Ranges are applied independently, so
/// overlapping or out-of-order ranges repeat or reorder content.
pub open spec fn select_ranges<T>(s: Seq<T>, rs: Seq<PosRange>) -> Seq<T>
    decreases rs.len(),
{
    if rs.len() == 0 {
        Seq::empty()
    } else {
        clamp_select(s, rs[0]) + select_ranges(s, rs.skip(1))
    }
}

/// Selection distributes over appending a range at the back of the list.
pub proof fn lemma_select_push<T>(s: Seq<T>, rs: Seq<PosRange>, r: PosRange)
    ensures
        select_ranges(s, rs.push(r)) == select_ranges(s, rs) + clamp_select(s, r),
    decreases rs.len(),
{
    if rs.len() == 0 {
        assert(rs.push(r)[0] == r);
        assert(rs.push(r).skip(1) =~= Seq::<PosRange>::empty());
        assert(select_ranges(s, rs.push(r).skip(1)) == Seq::<T>::empty());
        assert(select_ranges(s, rs.push(r)) =~= select_ranges(s, rs) + clamp_select(s, r));
    } else {
        lemma_select_push(s, rs.skip(1), r);
        assert(rs.push(r).skip(1) =~= rs.skip(1).push(r));
        assert(rs.push(r)[0] == rs[0]);
        assert(select_ranges(s, rs.push(r)) =~= select_ranges(s, rs) + clamp_select(s, r));
    }
}

/// Law: a range list holding exactly the full cover `[0, len)` reproduces
/// the unit. Extraction over characters or fields with such a list returns
/// the input unchanged.
pub proof fn lemma_select_full_cover<T>(s: Seq<T>)
    requires
        s.len() <= usize::MAX,
    ensures
        select_ranges(s, seq![PosRange { start: 0, end: s.len() as usize }]) == s,
{
    let rs = seq![PosRange { start: 0, end: s.len() as usize }];
    assert(rs.len() == 1);
    assert(rs[0] == PosRange { start: 0, end: s.len() as usize });
    assert(rs.skip(1) =~= Seq::<PosRange>::empty());
    assert(select_ranges(s, rs.skip(1)) == Seq::<T>::empty());
    if s.len() == 0 {
        assert(select_ranges(s, rs) =~= s);
    } else {
        assert(clamp_select(s, rs[0]) =~= s);
        assert(select_ranges(s, rs) =~= s);
    }
}

/// Law: extraction selects whole elements of the unit only — every element
/// of the selection occurs in the input at some index.
pub proof fn lemma_select_from_input<T>(s: Seq<T>, rs: Seq<PosRange>, i: int)
    requires
        wf_ranges(rs),
        0 <= i < select_ranges(s, rs).len(),
    ensures
        exists|j: int| 0 <= j < s.len() && select_ranges(s, rs)[i] == s[j],
    decreases rs.len(),
{
    let head = clamp_select(s, rs[0]);
    if i < head.len() {
        assert(select_ranges(s, rs)[i] == head[i]);
        assert(head[i] == s[rs[0].start + i]);
    } else {
        assert(wf_ranges(rs.skip(1))) by {
            assert(forall|k: int| 0 <= k < rs.skip(1).len() ==> rs.skip(1)[k] == rs[k + 1]);
        }
        lemma_select_from_input(s, rs.skip(1), i - head.len());
        let j = choose|j: int|
            0 <= j < s.len() && select_ranges(s, rs.skip(1))[i - head.len()] == s[j];
        assert(select_ranges(s, rs)[i] == s[j]);
    }
}

/// Law: with the single range covering a line's bytes exactly, byte-mode
/// selection returns the line's whole encoding, which is valid UTF-8 and
/// decodes back to the line — so extraction reproduces the line whenever no
/// range boundary splits a character, the full cover splitting none.
pub proof fn lemma_bytes_full_cover_round_trip(s: Seq<char>)
    requires
        encode_utf8(s).len() <= usize::MAX,
    ensures
        select_ranges(
            encode_utf8(s),
            seq![PosRange { start: 0, end: encode_utf8(s).len() as usize }],
        ) == encode_utf8(s),
        valid_utf8(encode_utf8(s)),
        decode_utf8(encode_utf8(s)) == s,
{
    lemma_select_full_cover(encode_utf8(s));
    vstd::utf8::encode_utf8_valid_utf8(s);
    vstd::utf8::encode_utf8_decode_utf8(s);
}

/// Extracts the characters that `char_pos` selects from `line`, in range
/// order, clamping each range at the line's character count. Whole
/// characters are selected, so a multi-byte character is never split.
pub fn extract_chars(line: &str, char_pos: &[PosRange]) -> (r: String)
    requires
        wf_ranges(char_pos@),
    ensures
        r@ == select_ranges(line@, char_pos@),
{
    let n: usize = line.unicode_len();
    let mut ret = String::new();
    let mut i: usize = 0;
    while i < char_pos.len()
        invariant
            i <= char_pos@.len(),
            n == line@.len(),
            wf_ranges(char_pos@),
            ret@ == select_ranges(line@, char_pos@.take(i as int)),
        decreases char_pos@.len() - i,
    {
        let r = char_pos[i];
        proof {
            lemma_select_push(line@, char_pos@.take(i as int), r);
            assert(char_pos@.take(i + 1) =~= char_pos@.take(i as int).push(r));
        }
        if r.start < n {
            let end: usize = if r.end < n {
                r.end
            } else {
                n
            };
            assert(r.wf());
            let piece = line.substring_char(r.start, end);
            assert(piece@ == clamp_select(line@, r));
            ret.append(piece);
        } else {
            assert(clamp_select(line@, r) =~= Seq::<char>::empty());
            assert(ret@ =~= select_ranges(line@, char_pos@.take(i + 1)));
        }
        i += 1;
    }
    proof {
        assert(char_pos@.take(char_pos@.len() as int) =~= char_pos@);
    }
    ret
}

/// What `String::from_utf8_lossy` makes of a byte sequence: the decoded
/// text, with substitution markers standing for invalid runs.
pub uninterp spec fn lossy_of(bytes: Seq<u8>) -> Seq<char>;

/// Relies on String::from_utf8_lossy: the result is a function of the bytes
/// alone, and bytes that are valid UTF-8 decode to exactly the text that
/// encodes them.
#[verifier::external_body]
fn lossy_decode(bytes: &[u8]) -> (r: String)
    ensures
        r@ == lossy_of(bytes@),
        valid_utf8(bytes@) ==> r@ == decode_utf8(bytes@),
{
    String::from_utf8_lossy(bytes).into_owned()
}

/// Extracts the bytes that `byte_pos` selects from `line`, in range order,
/// clamping each range at the line's byte count, and decodes the selected
/// bytes as text, with a substitution marker for every invalid run — as
/// when a range boundary splits a multi-byte character.
pub fn extract_bytes(line: &str, byte_pos: &[PosRange]) -> (r: String)
    requires
        wf_ranges(byte_pos@),
    ensures
        r@ == lossy_of(select_ranges(encode_utf8(line@), byte_pos@)),
        valid_utf8(select_ranges(encode_utf8(line@), byte_pos@)) ==> r@ == decode_utf8(
            select_ranges(encode_utf8(line@), byte_pos@),
        ),
{
    let bytes: &[u8] = line.as_bytes();
    let n: usize = bytes.len();
    let mut sel: Vec<u8> = Vec::new();
    let mut i: usize = 0;
    while i < byte_pos.len()
        invariant
            i <= byte_pos@.len(),
            bytes@ == encode_utf8(line@),
            n == bytes@.len(),
            wf_ranges(byte_pos@),
            sel@ == select_ranges(bytes@, byte_pos@.take(i as int)),
        decreases byte_pos@.len() - i,
    {
        let r = byte_pos[i];
        proof {
            lemma_select_push(bytes@, byte_pos@.take(i as int), r);
            assert(byte_pos@.take(i + 1) =~= byte_pos@.take(i as int).push(r));
        }
        if r.start < n {
            let end: usize = if r.end < n {
                r.end
            } else {
                n
            };
            assert(r.wf());
            let mut j: usize = r.start;
            while j < end
                invariant
                    r.start <= j <= end <= n,
                    n == bytes@.len(),
                    sel@ == select_ranges(bytes@, byte_pos@.take(i as int)) + bytes@.subrange(
                        r.start as int,
                        j as int,
                    ),
                decreases end - j,
            {
                let b = bytes[j];
                sel.push(b);
                proof {
                    assert(bytes@.subrange(r.start as int, j + 1) =~= bytes@.subrange(
                        r.start as int,
                        j as int,
                    ).push(bytes@[j as int]));
                    assert(sel@ =~= select_ranges(bytes@, byte_pos@.take(i as int))
                        + bytes@.subrange(r.start as int, j + 1));
                }
                j += 1;
            }
            assert(bytes@.subrange(r.start as int, end as int) == clamp_select(bytes@, r));
        } else {
            assert(clamp_select(bytes@, r) =~= Seq::<u8>::empty());
            assert(sel@ =~= select_ranges(bytes@, byte_pos@.take(i + 1)));
        }
        i += 1;
    }
    proof {
        assert(byte_pos@.take(byte_pos@.len() as int) =~= byte_pos@);
    }
    lossy_decode(sel.as_slice())
}

/// Declares csv::StringRecord, the delimited record handed in by the
/// record source; its contents are reached only through `fields_of`.
#[verifier::external_type_specification]
#[verifier::external_body]
pub struct ExStringRecord(csv::StringRecord);

/// The fields a delimited record holds, as character sequences, in order.
pub uninterp spec fn fields_of(rec: csv::StringRecord) -> Seq<Seq<char>>;

/// Relies on csv::StringRecord::len: the number of fields in the record.
#[verifier::external_body]
fn record_len(rec: &csv::StringRecord) -> (n: usize)
    ensures
        n == fields_of(*rec).len(),
{
    rec.len()
}

/// Relies on csv::StringRecord::get: the field at index `i`, or `None` at
/// or past the record's field count.
#[verifier::external_body]
fn record_get<'a>(rec: &'a csv::StringRecord, i: usize) -> (r: Option<&'a str>)
    ensures
        match r {
            Some(f) => i < fields_of(*rec).len() && f@ == fields_of(*rec)[i as int],
            None => i >= fields_of(*rec).len(),
        },
{
    rec.get(i)
}

/// Extracts the whole fields that `field_pos` selects from `record`, in
/// range order, clamping each range at the record's field count.
pub fn extract_fields(record: &csv::StringRecord, field_pos: &[PosRange]) -> (r: Vec<String>)
    requires
        wf_ranges(field_pos@),
    ensures
        r.deep_view() == select_ranges(fields_of(*record), field_pos@),
{
    let ghost fields = fields_of(*record);
    let n: usize = record_len(record);
    let mut ret: Vec<String> = Vec::new();
    let mut i: usize = 0;
    while i < field_pos.len()
        invariant
            i <= field_pos@.len(),
            fields == fields_of(*record),
            n == fields.len(),
            wf_ranges(field_pos@),
            ret.deep_view() == select_ranges(fields, field_pos@.take(i as int)),
        decreases field_pos@.len() - i,
    {
        let r = field_pos[i];
        proof {
            lemma_select_push(fields, field_pos@.take(i as int), r);
            assert(field_pos@.take(i + 1) =~= field_pos@.take(i as int).push(r));
        }
        if r.start < n {
            let end: usize = if r.end < n {
                r.end
            } else {
                n
            };
            assert(r.wf());
            let mut j: usize = r.start;
            while j < end
                invariant
                    r.start <= j <= end <= n,
                    fields == fields_of(*record),
                    n == fields.len(),
                    ret.deep_view() == select_ranges(fields, field_pos@.take(i as int))
                        + fields.subrange(r.start as int, j as int),
                decreases end - j,
            {
                let f = match record_get(record, j) {
                    Some(f) => f,
                    None => {
                        proof {
                            assert(false);
                        }
                        ""
                    },
                };
                let ghost pre = ret.deep_view();
                ret.push(String::from_str(f));
                proof {
                    assert(ret.deep_view() =~= pre.push(f@)) by {
                        assert(forall|m: int|
                            0 <= m < pre.len() ==> ret.deep_view()[m] == pre[m]);
                        assert(ret.deep_view()[pre.len() as int] == f@);
                    }
                    assert(fields.subrange(r.start as int, j + 1) =~= fields.subrange(
                        r.start as int,
                        j as int,
                    ).push(fields[j as int]));
                    assert(ret.deep_view() =~= select_ranges(fields, field_pos@.take(i as int))
                        + fields.subrange(r.start as int, j + 1));
                }
                j += 1;
            }
            assert(fields.subrange(r.start as int, end as int) == clamp_select(fields, r));
        } else {
            assert(clamp_select(fields, r) =~= Seq::<Seq<char>>::empty());
            assert(ret.deep_view() =~= select_ranges(fields, field_pos@.take(i + 1)));
        }
        i += 1;
    }
    proof {
        assert(field_pos@.take(field_pos@.len() as int) =~= field_pos@);
    }
    ret
}

} // verus!
