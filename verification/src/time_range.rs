//! Parsing of the time-window argument: `START`, `START:END`, `:END` or
//! `START:`, each side a decimal number of time units.

use vstd::prelude::*;

use crate::text::{count_char, first_ix, lemma_first_ix_at, lemma_first_ix_none};

verus! {

/// Whether `c` is a decimal digit.
pub open spec fn is_digit(c: char) -> bool {
    '0' <= c && c <= '9'
}

/// Whether `s` consists of decimal digits only.
pub open spec fn all_digits(s: Seq<char>) -> bool {
    forall|i: int| 0 <= i < s.len() ==> is_digit(s[i])
}

/// The value of a digit string, most significant digit first.
pub open spec fn digits_val(s: Seq<char>) -> int
    decreases s.len(),
{
    if s.len() == 0 {
        0
    } else {
        digits_val(s.drop_last()) * 10 + (s.last() as int - '0' as int)
    }
}

/// A digit string's value is never negative.
proof fn lemma_digits_val_nonneg(s: Seq<char>)
    requires
        all_digits(s),
    ensures
        digits_val(s) >= 0,
    decreases s.len(),
{
    if s.len() > 0 {
        assert(all_digits(s.drop_last()));
        lemma_digits_val_nonneg(s.drop_last());
    }
}

/// A prefix of a digit string never has a larger value than the whole.
proof fn lemma_digits_val_prefix(s: Seq<char>, i: int)
    requires
        all_digits(s),
        0 <= i <= s.len(),
    ensures
        digits_val(s.take(i)) <= digits_val(s),
    decreases s.len(),
{
    if i < s.len() {
        assert(all_digits(s.drop_last()));
        assert(s.drop_last().take(i) =~= s.take(i));
        lemma_digits_val_prefix(s.drop_last(), i);
        lemma_digits_val_nonneg(s.drop_last());
    } else {
        assert(s.take(i) =~= s);
    }
}

/// What parsing a decimal number yields: its value, or the message of the
/// first reason it cannot be one (empty, a non-digit, too large).
pub open spec fn parse_u64_spec(s: Seq<char>) -> Result<u64, Seq<char>> {
    if s.len() == 0 {
        Err("cannot parse integer from empty string"@)
    } else if !all_digits(s) {
        Err("invalid digit found in string"@)
    } else if digits_val(s) > u64::MAX {
        Err("number too large to fit in target type"@)
    } else {
        Ok(digits_val(s) as u64)
    }
}

/// Parses a decimal number.
pub fn parse_u64(s: &str) -> (r: Result<u64, String>)
    ensures
        match r {
            Ok(v) => parse_u64_spec(s@) == Ok::<u64, Seq<char>>(v),
            Err(m) => parse_u64_spec(s@) == Err::<u64, Seq<char>>(m@),
        },
{
    let n = s.unicode_len();
    if n == 0 {
        return Err(String::from_str("cannot parse integer from empty string"));
    }
    let mut i: usize = 0;
    while i < n
        invariant
            i <= n,
            n == s@.len(),
            forall|j: int| 0 <= j < i ==> is_digit(s@[j]),
        decreases n - i,
    {
        let c = s.get_char(i);
        if c < '0' || c > '9' {
            return Err(String::from_str("invalid digit found in string"));
        }
        i = i + 1;
    }
    let mut val: u64 = 0;
    let mut k: usize = 0;
    while k < n
        invariant
            k <= n,
            n == s@.len(),
            all_digits(s@),
            val == digits_val(s@.take(k as int)),
        decreases n - k,
    {
        let c = s.get_char(k);
        let d: u64 = (c as u32 as u64) - 48;
        proof {
            assert(s@.take(k + 1).drop_last() =~= s@.take(k as int));
            assert(s@.take(k + 1).last() == s@[k as int]);
        }
        let scaled = match val.checked_mul(10) {
            Some(x) => x,
            None => {
                proof {
                    lemma_digits_val_prefix(s@, k + 1);
                    lemma_digits_val_nonneg(s@.take(k + 1));
                }
                return Err(String::from_str("number too large to fit in target type"));
            }
        };
        let next = match scaled.checked_add(d) {
            Some(x) => x,
            None => {
                proof {
                    lemma_digits_val_prefix(s@, k + 1);
                }
                return Err(String::from_str("number too large to fit in target type"));
            }
        };
        val = next;
        k = k + 1;
    }
    proof {
        assert(s@.take(n as int) =~= s@);
    }
    Ok(val)
}

/// What an optional side of the window yields: nothing where it is empty,
/// else its parsed value.
pub open spec fn opt_time_spec(p: Seq<char>) -> Result<Option<u64>, Seq<char>> {
    if p.len() == 0 {
        Ok(None)
    } else {
        match parse_u64_spec(p) {
            Ok(v) => Ok(Some(v)),
            Err(m) => Err(m),
        }
    }
}

/// What parsing a time-range argument yields: the optional start and end of
/// the window, or the message of the first failing check. At most one `:` is
/// accepted; an empty side is an absent bound; a present start must lie
/// strictly below a present end.
pub open spec fn parse_time_range_spec(s: Seq<char>) -> Result<
    (Option<u64>, Option<u64>),
    Seq<char>,
> {
    if s.len() == 0 {
        Err("empty time range"@)
    } else if count_char(s, ':') >= 2 {
        Err("invalid time range format"@)
    } else {
        let i = first_ix(s, ':');
        let sp = if count_char(s, ':') == 0 {
            s
        } else {
            s.take(i)
        };
        let ep = if count_char(s, ':') == 0 {
            Seq::empty()
        } else {
            s.skip(i + 1)
        };
        match opt_time_spec(sp) {
            Err(m) => Err(m),
            Ok(st) => match opt_time_spec(ep) {
                Err(m) => Err(m),
                Ok(en) => match (st, en) {
                    (Some(a), Some(b)) => if a >= b {
                        Err("invalid time range: start time must be less than end time"@)
                    } else {
                        Ok((st, en))
                    },
                    _ => Ok((st, en)),
                },
            },
        }
    }
}

/// Parses a time-range argument into the window's optional bounds.
pub fn parse_time_range(value: &str) -> (r: Result<(Option<u64>, Option<u64>), String>)
    ensures
        match r {
            Ok(range) => parse_time_range_spec(value@) == Ok::<(Option<u64>, Option<u64>), Seq<
                char,
            >>(range),
            Err(m) => parse_time_range_spec(value@) == Err::<(Option<u64>, Option<u64>), Seq<
                char,
            >>(m@),
        },
{
    let n = value.unicode_len();
    if n == 0 {
        return Err(String::from_str("empty time range"));
    }
    let mut i: usize = 0;
    let mut count: usize = 0;
    let mut first: usize = n;
    while i < n
        invariant
            i <= n,
            n == value@.len(),
            count <= i,
            count == count_char(value@.take(i as int), ':'),
            count == 0 ==> first == n && forall|j: int| 0 <= j < i ==> value@[j] != ':',
            count > 0 ==> first < i && value@[first as int] == ':' && forall|j: int|
                0 <= j < first ==> value@[j] != ':',
        decreases n - i,
    {
        proof {
            assert(value@.take(i + 1).drop_last() =~= value@.take(i as int));
            assert(value@.take(i + 1).last() == value@[i as int]);
        }
        if value.get_char(i) == ':' {
            if count == 0 {
                first = i;
            }
            count = count + 1;
        }
        i = i + 1;
    }
    proof {
        assert(value@.take(n as int) =~= value@);
        if count == 0 {
            lemma_first_ix_none(value@, ':');
        } else {
            lemma_first_ix_at(value@, ':', first as int);
        }
    }
    if count >= 2 {
        return Err(String::from_str("invalid time range format"));
    }
    let start_part = if count == 0 {
        value
    } else {
        value.substring_char(0, first)
    };
    let end_part = if count == 0 {
        value.substring_char(n, n)
    } else {
        value.substring_char(first + 1, n)
    };
    proof {
        if count == 0 {
            assert(end_part@ =~= Seq::<char>::empty());
        } else {
            assert(start_part@ =~= value@.take(first as int));
            assert(end_part@ =~= value@.skip(first as int + 1));
        }
    }
    let start_time = if start_part.unicode_len() == 0 {
        None
    } else {
        match parse_u64(start_part) {
            Ok(v) => Some(v),
            Err(m) => {
                return Err(m);
            }
        }
    };
    let end_time = if end_part.unicode_len() == 0 {
        None
    } else {
        match parse_u64(end_part) {
            Ok(v) => Some(v),
            Err(m) => {
                return Err(m);
            }
        }
    };
    if let (Some(a), Some(b)) = (start_time, end_time) {
        if a >= b {
            return Err(
                String::from_str("invalid time range: start time must be less than end time"),
            );
        }
    }
    Ok((start_time, end_time))
}

} // verus!
