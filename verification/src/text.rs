//! Text building blocks: hierarchical-name sanitization and decimal
//! formatting of unsigned times, both specified over sequences of characters.

use vstd::prelude::*;

verus! {

/// Relies on `String::push`: appends the given character to the end of the
/// string.
#[verifier::external_body]
pub(crate) fn push_char(s: &mut String, c: char)
    ensures
        final(s)@ == old(s)@.push(c),
{
    s.push(c);
}

/// A hierarchical name with every `.` replaced by `_`, character for
/// character.
pub open spec fn sanitize(s: Seq<char>) -> Seq<char> {
    s.map_values(|c: char| if c == '.' { '_' } else { c })
}

/// Replaces every `.` in `s` with `_`, leaving all other characters as they
/// are.
pub fn sanitize_name(s: &str) -> (r: String)
    ensures
        r@ == sanitize(s@),
{
    let n = s.unicode_len();
    let mut out = String::new();
    let mut i: usize = 0;
    while i < n
        invariant
            i <= n,
            n == s@.len(),
            out@ == sanitize(s@.take(i as int)),
        decreases n - i,
    {
        let c = s.get_char(i);
        if c == '.' {
            push_char(&mut out, '_');
        } else {
            push_char(&mut out, c);
        }
        proof {
            assert(s@.take(i + 1) =~= s@.take(i as int).push(s@[i as int]));
            assert(out@ =~= sanitize(s@.take(i + 1)));
        }
        i = i + 1;
    }
    proof {
        assert(s@.take(n as int) =~= s@);
    }
    out
}

/// Compares two strings character by character.
pub fn str_eq(a: &str, b: &str) -> (r: bool)
    ensures
        r == (a@ == b@),
{
    let na = a.unicode_len();
    let nb = b.unicode_len();
    if na != nb {
        return false;
    }
    let mut i: usize = 0;
    while i < na
        invariant
            i <= na,
            na == a@.len(),
            nb == b@.len(),
            na == nb,
            forall|j: int| 0 <= j < i ==> a@[j] == b@[j],
        decreases na - i,
    {
        if a.get_char(i) != b.get_char(i) {
            return false;
        }
        i = i + 1;
    }
    proof {
        assert(a@ =~= b@);
    }
    true
}

/// The position of the first occurrence of `c` in `s`, or a negative value
/// if there is none.
pub open spec fn first_ix(s: Seq<char>, c: char) -> int
    decreases s.len(),
{
    if s.len() == 0 {
        -1
    } else if s[0] == c {
        0
    } else {
        let r = first_ix(s.drop_first(), c);
        if r < 0 {
            -1
        } else {
            r + 1
        }
    }
}

/// How many occurrences of `c` the string `s` holds.
pub open spec fn count_char(s: Seq<char>, c: char) -> nat
    decreases s.len(),
{
    if s.len() == 0 {
        0
    } else {
        count_char(s.drop_last(), c) + if s.last() == c {
            1nat
        } else {
            0nat
        }
    }
}

/// `s` split on `.`: the dot-free pieces between the dots, in order. A
/// string without dots is one piece; every dot separates two pieces, so
/// empty pieces can occur.
pub open spec fn split_dot(s: Seq<char>) -> Seq<Seq<char>>
    decreases s.len(),
{
    let i = first_ix(s, '.');
    if 0 <= i < s.len() {
        seq![s.take(i)] + split_dot(s.skip(i + 1))
    } else {
        seq![s]
    }
}

/// If some position holds the first occurrence of `c` in `s`, `first_ix`
/// finds exactly that position.
pub proof fn lemma_first_ix_at(s: Seq<char>, c: char, k: int)
    requires
        0 <= k < s.len(),
        s[k] == c,
        forall|j: int| 0 <= j < k ==> s[j] != c,
    ensures
        first_ix(s, c) == k,
    decreases s.len(),
{
    if k > 0 {
        lemma_first_ix_at(s.drop_first(), c, k - 1);
    }
}

/// A string without `c` has no first occurrence of it.
pub proof fn lemma_first_ix_none(s: Seq<char>, c: char)
    requires
        forall|j: int| 0 <= j < s.len() ==> s[j] != c,
    ensures
        first_ix(s, c) < 0,
    decreases s.len(),
{
    if s.len() > 0 {
        lemma_first_ix_none(s.drop_first(), c);
    }
}

/// Splits `s` on `.` into its pieces, in order.
pub fn split_path<'a>(s: &'a str) -> (r: Vec<&'a str>)
    ensures
        r@.map_values(|t: &str| t@) =~= split_dot(s@),
{
    let n = s.unicode_len();
    let mut parts: Vec<&str> = Vec::new();
    let mut start: usize = 0;
    let mut i: usize = 0;
    proof {
        assert(s@.skip(0) =~= s@);
        assert(parts@.map_values(|t: &str| t@) + split_dot(s@) =~= split_dot(s@));
    }
    while i < n
        invariant
            start <= i <= n,
            n == s@.len(),
            forall|j: int| start <= j < i ==> s@[j] != '.',
            split_dot(s@) =~= parts@.map_values(|t: &str| t@) + split_dot(s@.skip(start as int)),
        decreases n - i,
    {
        if s.get_char(i) == '.' {
            let piece = s.substring_char(start, i);
            proof {
                let rest = s@.skip(start as int);
                assert(forall|j: int| 0 <= j < i - start ==> rest[j] == s@[start + j] && rest[j]
                    != '.');
                assert(rest[i - start] == '.');
                lemma_first_ix_at(rest, '.', i - start);
                assert(rest.take(i - start) =~= s@.subrange(start as int, i as int));
                assert(rest.skip(i - start + 1) =~= s@.skip(i + 1));
                assert(parts@.push(piece).map_values(|t: &str| t@) =~= parts@.map_values(
                    |t: &str| t@).push(piece@));
                assert(split_dot(rest) =~= seq![piece@] + split_dot(s@.skip(i + 1)));
            }
            parts.push(piece);
            start = i + 1;
        }
        i = i + 1;
    }
    let last = s.substring_char(start, n);
    proof {
        let rest = s@.skip(start as int);
        assert(forall|j: int| 0 <= j < rest.len() ==> rest[j] == s@[start + j] && rest[j] != '.');
        lemma_first_ix_none(rest, '.');
        assert(rest =~= s@.subrange(start as int, n as int));
        assert(parts@.push(last).map_values(|t: &str| t@) =~= parts@.map_values(|t: &str| t@).push(
            last@));
    }
    parts.push(last);
    parts
}

/// The character for one decimal digit.
pub open spec fn dec_digit(d: nat) -> char {
    if d == 0 {
        '0'
    } else if d == 1 {
        '1'
    } else if d == 2 {
        '2'
    } else if d == 3 {
        '3'
    } else if d == 4 {
        '4'
    } else if d == 5 {
        '5'
    } else if d == 6 {
        '6'
    } else if d == 7 {
        '7'
    } else if d == 8 {
        '8'
    } else {
        '9'
    }
}

/// The decimal representation of `n`, most significant digit first, with no
/// leading zeros (a single `0` for zero itself).
pub open spec fn dec_str(n: nat) -> Seq<char>
    decreases n,
{
    if n < 10 {
        seq![dec_digit(n)]
    } else {
        dec_str(n / 10).push(dec_digit(n % 10))
    }
}

fn dec_digit_char(d: u64) -> (c: char)
    requires
        d < 10,
    ensures
        c == dec_digit(d as nat),
{
    if d == 0 {
        '0'
    } else if d == 1 {
        '1'
    } else if d == 2 {
        '2'
    } else if d == 3 {
        '3'
    } else if d == 4 {
        '4'
    } else if d == 5 {
        '5'
    } else if d == 6 {
        '6'
    } else if d == 7 {
        '7'
    } else if d == 8 {
        '8'
    } else {
        '9'
    }
}

/// Formats `n` in decimal.
pub fn u64_to_dec(n: u64) -> (r: String)
    ensures
        r@ == dec_str(n as nat),
    decreases n,
{
    if n < 10 {
        let mut s = String::new();
        push_char(&mut s, dec_digit_char(n));
        proof {
            assert(s@ =~= seq![dec_digit(n as nat)]);
        }
        s
    } else {
        let mut s = u64_to_dec(n / 10);
        push_char(&mut s, dec_digit_char(n % 10));
        s
    }
}

} // verus!
