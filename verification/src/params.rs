use vstd::prelude::*;
use vstd::string::StrSliceExecFns;

use crate::error::Error;

verus! {

/// True of a decimal digit.
pub open spec fn is_digit(c: char) -> bool {
    48 <= c as int <= 57
}

/// A non-empty string of decimal digits.
pub open spec fn is_digit_string(s: Seq<char>) -> bool {
    s.len() > 0 && forall|j: int| 0 <= j < s.len() ==> is_digit(#[trigger] s[j])
}

/// The numeric value of a digit string, most significant digit first.
pub open spec fn digits_value(s: Seq<char>) -> int
    decreases s.len(),
{
    if s.len() == 0 {
        0
    } else {
        digits_value(s.drop_last()) * 10 + (s.last() as int - 48)
    }
}

/// A digit string never has a negative value.
proof fn lemma_digits_value_nonneg(s: Seq<char>)
    requires
        forall|j: int| 0 <= j < s.len() ==> is_digit(#[trigger] s[j]),
    ensures
        digits_value(s) >= 0,
    decreases s.len(),
{
    if s.len() > 0 {
        assert forall|j: int| 0 <= j < s.drop_last().len() implies is_digit(
            #[trigger] s.drop_last()[j],
        ) by {
            assert(s.drop_last()[j] == s[j]);
        }
        lemma_digits_value_nonneg(s.drop_last());
        assert(is_digit(s.last()));
    }
}

/// Each prefix of a digit string has a value no larger than the whole.
proof fn lemma_digits_value_prefix(s: Seq<char>, i: int)
    requires
        forall|j: int| 0 <= j < s.len() ==> is_digit(#[trigger] s[j]),
        0 <= i <= s.len(),
    ensures
        digits_value(s.subrange(0, i)) <= digits_value(s),
    decreases s.len() - i,
{
    if i == s.len() {
        assert(s.subrange(0, i) =~= s);
    } else {
        let shorter = s.subrange(0, i);
        let longer = s.subrange(0, i + 1);
        assert(longer.drop_last() =~= shorter);
        assert(longer.last() == s[i]);
        assert forall|j: int| 0 <= j < shorter.len() implies is_digit(#[trigger] shorter[j]) by {
            assert(shorter[j] == s[j]);
        }
        lemma_digits_value_nonneg(shorter);
        assert(is_digit(s[i]));
        assert(digits_value(longer) == digits_value(shorter) * 10 + (s[i] as int - 48));
        lemma_digits_value_prefix(s, i + 1);
    }
}

/// Reads a non-negative decimal integer from `s`, exactly: at least one
/// character, every character a digit, and the value within `usize`;
/// anything else is rejected.
pub fn parse_usize(s: &str) -> (parsed: Option<usize>)
    ensures
        match parsed {
            Some(v) => is_digit_string(s@) && v == digits_value(s@),
            None => !is_digit_string(s@) || digits_value(s@) > usize::MAX,
        },
{
    let len = s.unicode_len();
    if len == 0 {
        return None;
    }
    let mut value: usize = 0;
    let mut i: usize = 0;
    while i < len
        invariant
            0 < len == s@.len(),
            i <= len,
            forall|j: int| 0 <= j < i ==> is_digit(#[trigger] s@[j]),
            value == digits_value(s@.subrange(0, i as int)),
        decreases len - i,
    {
        let c = s.get_char(i);
        let code = c as u32;
        if code < 48 || code > 57 {
            return None;
        }
        let digit = (code - 48) as usize;
        proof {
            let shorter = s@.subrange(0, i as int);
            let longer = s@.subrange(0, i + 1 as int);
            assert(longer.drop_last() =~= shorter);
            assert(longer.last() == s@[i as int]);
            assert(digits_value(longer) == value * 10 + digit);
        }
        let next = match value.checked_mul(10) {
            Some(m) => m.checked_add(digit),
            None => None,
        };
        match next {
            Some(n) => {
                value = n;
            },
            None => {
                proof {
                    if is_digit_string(s@) {
                        lemma_digits_value_prefix(s@, i + 1);
                    }
                }
                return None;
            },
        }
        i = i + 1;
    }
    proof {
        assert(s@.subrange(0, len as int) =~= s@);
    }
    Some(value)
}

/// The text of an optional query parameter, as a mathematical value.
pub open spec fn opt_view(text: Option<&str>) -> Option<Seq<char>> {
    match text {
        Some(t) => Some(t@),
        None => None,
    }
}

/// True when an optional query parameter is present and holds a decimal
/// number that fits in `usize`.
pub open spec fn bound_ok(text: Option<Seq<char>>) -> bool {
    match text {
        Some(t) => is_digit_string(t) && digits_value(t) <= usize::MAX,
        None => false,
    }
}

/// Interprets the pagination query of a listing request, as the boundary
/// layer hands it over: whether any query parameter was supplied at all,
/// and the raw `start` and `end` texts if present. Fails with
/// `MissingParameters` when the query was empty, and with `InvalidRange`
/// when either bound is absent or is not a decimal number within `usize`.
pub fn parse_range(has_params: bool, start: Option<&str>, end: Option<&str>) -> (result: Result<
    (usize, usize),
    Error,
>)
    ensures
        match result {
            Ok(bounds) => {
                &&& has_params
                &&& start matches Some(st) && is_digit_string(st@) && bounds.0 == digits_value(st@)
                &&& end matches Some(et) && is_digit_string(et@) && bounds.1 == digits_value(et@)
            },
            Err(e) => {
                &&& (!has_params ==> e == Error::MissingParameters)
                &&& (has_params ==> e == Error::InvalidRange && (!bound_ok(opt_view(start))
                    || !bound_ok(opt_view(end))))
            },
        },
{
    if !has_params {
        return Err(Error::MissingParameters);
    }
    let start_value = match start {
        Some(text) => match parse_usize(text) {
            Some(v) => v,
            None => {
                return Err(Error::InvalidRange);
            },
        },
        None => {
            return Err(Error::InvalidRange);
        },
    };
    let end_value = match end {
        Some(text) => match parse_usize(text) {
            Some(v) => v,
            None => {
                return Err(Error::InvalidRange);
            },
        },
        None => {
            return Err(Error::InvalidRange);
        },
    };
    Ok((start_value, end_value))
}

} // verus!
