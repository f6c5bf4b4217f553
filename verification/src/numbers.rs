//! Parsing of strictly positive integers, as the line- and byte-count
//! options of the head utility accept them.

use crate::ranges::all_digits;
use crate::ranges::digits_only;
use crate::ranges::digits_val;
use crate::ranges::parse_decimal;
use vstd::prelude::*;
use vstd::string::StrSliceExecFns;

verus! {

/// The digit run of a positive-integer literal: the whole string, or what
/// follows a single leading plus sign.
pub open spec fn pos_int_digits(s: Seq<char>) -> Seq<char> {
    if s.len() > 0 && s[0] == '+' {
        s.skip(1)
    } else {
        s
    }
}

/// `s` is an acceptable positive integer: an optional leading plus sign,
/// then one or more digits, with a value between 1 and `usize::MAX`.
pub open spec fn valid_positive_int(s: Seq<char>) -> bool {
    &&& pos_int_digits(s).len() > 0
    &&& all_digits(pos_int_digits(s))
    &&& 1 <= digits_val(pos_int_digits(s)) <= usize::MAX
}

/// Parses a strictly positive integer, accepting an optional leading plus
/// sign and rejecting zero; on failure the offending text itself is
/// returned as the error.
pub fn parse_positive_int(val: &str) -> (r: Result<usize, String>)
    ensures
        match r {
            Ok(n) => valid_positive_int(val@) && n == digits_val(pos_int_digits(val@)),
            Err(e) => !valid_positive_int(val@) && e@ == val@,
        },
{
    let n: usize = val.unicode_len();
    let lo: usize = if n > 0 && val.get_char(0) == '+' {
        1
    } else {
        0
    };
    proof {
        if lo == 1 {
            assert(pos_int_digits(val@) =~= val@.subrange(1, n as int));
        } else {
            assert(pos_int_digits(val@) =~= val@.subrange(0, n as int));
        }
    }
    if !digits_only(val, lo, n) {
        return Err(String::from_str(val));
    }
    match parse_decimal(val, lo, n) {
        Some(num) => {
            if num > 0 {
                Ok(num)
            } else {
                Err(String::from_str(val))
            }
        },
        None => Err(String::from_str(val)),
    }
}

} // verus!
