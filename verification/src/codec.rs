//! The time index codec: parsing `"HH:MM"` into a half-hour slot index
//! and `"HH:MM-HH:MM"` into a pair of slot indices.
//!
//! A time of day is valid when it splits on `':'` into exactly two
//! parts and the hour part reads as a non-negative decimal numeral. The
//! minute part is not validated: exactly the literal `"30"` selects the
//! second half of the hour, and any other minute string is treated as
//! `:00`. A range is valid when it splits on `'-'` into exactly two
//! valid times of day; there is no check that the range runs forward.

use vstd::prelude::*;

use crate::text::{
    all_digits, digits_val, find_char, find_char_in, has_exactly_one, is_digit_char,
    lemma_digits_val_prefix,
};

verus! {

/// Largest hour value whose slot index `2 * hour + 1` still fits in `u32`.
pub const HOUR_VAL_MAX: u32 = 0x7fff_ffff;

#[derive(Clone, Copy, Debug, PartialEq, Eq, Structural)]
pub enum CodecError {
    InvalidTimeOfDay,
    InvalidTimeRange,
}

/// The two parts of `s` around the first occurrence of `sep`.
pub open spec fn split2_parts(s: Seq<char>, sep: char) -> (Seq<char>, Seq<char>) {
    let f = find_char(s, sep);
    (s.subrange(0, f), s.subrange(f + 1, s.len() as int))
}

/// The digits of a decimal numeral as `str::parse` reads it: an
/// optional leading `'+'` followed by the digits themselves.
pub open spec fn numeral_digits(s: Seq<char>) -> Seq<char> {
    if s.len() > 0 && s[0] == '+' {
        s.drop_first()
    } else {
        s
    }
}

/// `s` is a decimal numeral for an hour whose slot index fits in `u32`.
pub open spec fn is_hour_numeral(s: Seq<char>) -> bool {
    let d = numeral_digits(s);
    &&& d.len() >= 1
    &&& all_digits(d)
    &&& digits_val(d) <= HOUR_VAL_MAX
}

/// Numeric value of an hour numeral.
pub open spec fn hour_val(s: Seq<char>) -> int {
    digits_val(numeral_digits(s))
}

/// `s` is exactly the literal `"30"`.
pub open spec fn is_thirty(s: Seq<char>) -> bool {
    s.len() == 2 && s[0] == '3' && s[1] == '0'
}

/// `s` parses as a time of day: one `':'`, and an hour numeral before it.
pub open spec fn time_of_day_valid(s: Seq<char>) -> bool {
    &&& has_exactly_one(s, ':')
    &&& is_hour_numeral(split2_parts(s, ':').0)
}

/// The slot index a valid time of day denotes.
pub open spec fn time_index_of(s: Seq<char>) -> int {
    let (hh, mm) = split2_parts(s, ':');
    hour_val(hh) * 2 + if is_thirty(mm) {
        1int
    } else {
        0int
    }
}

/// `s` parses as a time range: one `'-'` with a valid time of day on
/// each side.
pub open spec fn time_range_valid(s: Seq<char>) -> bool {
    &&& has_exactly_one(s, '-')
    &&& time_of_day_valid(split2_parts(s, '-').0)
    &&& time_of_day_valid(split2_parts(s, '-').1)
}

pub open spec fn time_range_begin(s: Seq<char>) -> int {
    time_index_of(split2_parts(s, '-').0)
}

pub open spec fn time_range_end(s: Seq<char>) -> int {
    time_index_of(split2_parts(s, '-').1)
}

/// Parses `"HH:MM"` into a half-hour slot index: `2 * HH`, plus one
/// when the minute part is exactly `"30"`. Any other minute part, valid
/// or not, counts as `:00`. Fails only when the string does not split
/// on `':'` into exactly two parts or the hour does not read as a
/// decimal numeral.
pub fn hhmm_to_time_index(hhmm: &str) -> (r: Result<u32, CodecError>)
    ensures
        r is Ok <==> time_of_day_valid(hhmm@),
        r is Ok ==> r->Ok_0 == time_index_of(hhmm@),
        r is Err ==> r == Err::<u32, CodecError>(CodecError::InvalidTimeOfDay),
{
    let n = hhmm.unicode_len();
    let f = find_char_in(hhmm, ':');
    if f == n {
        return Err(CodecError::InvalidTimeOfDay);
    }
    let rest = hhmm.substring_char(f + 1, n);
    let g = find_char_in(rest, ':');
    if g < n - f - 1 {
        return Err(CodecError::InvalidTimeOfDay);
    }
    let hh = hhmm.substring_char(0, f);
    let mm = rest;
    proof {
        assert(has_exactly_one(hhmm@, ':'));
        assert(split2_parts(hhmm@, ':') == (hh@, mm@));
    }

    // Read the hour as `str::parse` would: an optional `'+'`, then digits.
    let hlen = hh.unicode_len();
    let start: usize = if hlen > 0 && hh.get_char(0) == '+' {
        1
    } else {
        0
    };
    proof {
        assert(numeral_digits(hh@) =~= hh@.subrange(start as int, hlen as int));
    }
    if start == hlen {
        return Err(CodecError::InvalidTimeOfDay);
    }
    let ghost nd = numeral_digits(hh@);
    let mut v: u32 = 0;
    let mut k = start;
    proof {
        assert(hh@.subrange(start as int, start as int) =~= Seq::<char>::empty());
    }
    while k < hlen
        invariant
            start <= k <= hlen,
            hlen == hh@.len(),
            split2_parts(hhmm@, ':').0 == hh@,
            nd == numeral_digits(hh@),
            nd =~= hh@.subrange(start as int, hlen as int),
            all_digits(hh@.subrange(start as int, k as int)),
            v == digits_val(hh@.subrange(start as int, k as int)),
            v <= HOUR_VAL_MAX,
        decreases hlen - k,
    {
        let c = hh.get_char(k);
        if (c as u32) < 48 || (c as u32) > 57 {
            proof {
                assert(nd[k - start] == hh@[k as int]);
                assert(!is_digit_char(nd[k - start]));
            }
            return Err(CodecError::InvalidTimeOfDay);
        }
        let d: u32 = (c as u32) - 48;
        let w: u64 = (v as u64) * 10 + (d as u64);
        proof {
            assert(hh@.subrange(start as int, k + 1).drop_last() =~= hh@.subrange(
                start as int,
                k as int,
            ));
            assert(digits_val(hh@.subrange(start as int, k + 1)) == w);
        }
        if w > HOUR_VAL_MAX as u64 {
            proof {
                if all_digits(nd) {
                    assert(nd.subrange(0, k + 1 - start) =~= hh@.subrange(start as int, k + 1));
                    lemma_digits_val_prefix(nd, k + 1 - start);
                }
            }
            return Err(CodecError::InvalidTimeOfDay);
        }
        v = w as u32;
        k = k + 1;
        proof {
            assert(all_digits(hh@.subrange(start as int, k as int)));
        }
    }
    proof {
        assert(hh@.subrange(start as int, k as int) =~= nd);
        assert(is_hour_numeral(hh@));
    }

    // The minute part selects the half hour only when it is exactly "30".
    let mlen = mm.unicode_len();
    let thirty = mlen == 2 && mm.get_char(0) == '3' && mm.get_char(1) == '0';
    proof {
        assert(thirty == is_thirty(mm@));
    }
    if thirty {
        Ok(2 * v + 1)
    } else {
        Ok(2 * v)
    }
}

/// Parses `"HH:MM-HH:MM"` into the pair of slot indices of its two
/// sides. Fails only when the string does not split on `'-'` into
/// exactly two parts or either side is not a valid time of day. A
/// reversed or empty range is accepted; expansion later yields no
/// records for it.
pub fn hhmmhhmm_to_time_index_range(hhmmhhmm: &str) -> (r: Result<(u32, u32), CodecError>)
    ensures
        r is Ok <==> time_range_valid(hhmmhhmm@),
        r is Ok ==> r->Ok_0.0 == time_range_begin(hhmmhhmm@) && r->Ok_0.1 == time_range_end(
            hhmmhhmm@,
        ),
        r is Err ==> r == Err::<(u32, u32), CodecError>(CodecError::InvalidTimeRange),
{
    let n = hhmmhhmm.unicode_len();
    let f = find_char_in(hhmmhhmm, '-');
    if f == n {
        return Err(CodecError::InvalidTimeRange);
    }
    let second = hhmmhhmm.substring_char(f + 1, n);
    let g = find_char_in(second, '-');
    if g < n - f - 1 {
        return Err(CodecError::InvalidTimeRange);
    }
    let first = hhmmhhmm.substring_char(0, f);
    proof {
        assert(has_exactly_one(hhmmhhmm@, '-'));
        assert(split2_parts(hhmmhhmm@, '-') == (first@, second@));
    }
    let begin = match hhmm_to_time_index(first) {
        Ok(b) => b,
        Err(_) => {
            return Err(CodecError::InvalidTimeRange);
        },
    };
    let end = match hhmm_to_time_index(second) {
        Ok(e) => e,
        Err(_) => {
            return Err(CodecError::InvalidTimeRange);
        },
    };
    Ok((begin, end))
}

} // verus!

