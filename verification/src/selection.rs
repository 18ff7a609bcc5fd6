//! Parsing of one selection string: `path`, or `alias=path` with exactly one
//! `=` and both sides non-empty.

use vstd::prelude::*;

use crate::text::{count_char, first_ix, lemma_first_ix_at, lemma_first_ix_none};

verus! {

/// What parsing a selection string yields: no `=` gives the path alone, a
/// single well-placed `=` gives the alias and the path, anything else the
/// error message of the rejected selection.
pub open spec fn parse_selection_spec(s: Seq<char>) -> Result<
    (Option<Seq<char>>, Seq<char>),
    Seq<char>,
> {
    let i = first_ix(s, '=');
    if s.len() == 0 {
        Err("empty signal selection"@)
    } else if count_char(s, '=') == 0 {
        Ok((None, s))
    } else if count_char(s, '=') == 1 && 0 < i < s.len() - 1 {
        Ok((Some(s.take(i)), s.skip(i + 1)))
    } else {
        Err("invalid signal selection: "@ + s)
    }
}

/// Splits a selection string into an optional alias and a dotted path.
///
/// An empty string, more than one `=`, or an `=` with an empty side is
/// rejected; one `=` yields the alias and the path, none yields the path
/// alone.
pub fn parse_selection<'a>(s: &'a str) -> (r: Result<(Option<&'a str>, &'a str), String>)
    ensures
        match r {
            Ok(parts) => parse_selection_spec(s@) == Ok::<(Option<Seq<char>>, Seq<char>), Seq<
                char,
            >>((
                match parts.0 {
                    None => None,
                    Some(alias) => Some(alias@),
                },
                parts.1@,
            )),
            Err(m) => parse_selection_spec(s@) == Err::<(Option<Seq<char>>, Seq<char>), Seq<
                char,
            >>(m@),
        },
{
    let n = s.unicode_len();
    if n == 0 {
        return Err(String::from_str("empty signal selection"));
    }
    let mut i: usize = 0;
    let mut count: usize = 0;
    let mut first: usize = n;
    while i < n
        invariant
            i <= n,
            n == s@.len(),
            count <= i,
            count == count_char(s@.take(i as int), '='),
            count == 0 ==> first == n && forall|j: int| 0 <= j < i ==> s@[j] != '=',
            count > 0 ==> first < i && s@[first as int] == '=' && forall|j: int|
                0 <= j < first ==> s@[j] != '=',
        decreases n - i,
    {
        proof {
            assert(s@.take(i + 1).drop_last() =~= s@.take(i as int));
            assert(s@.take(i + 1).last() == s@[i as int]);
        }
        if s.get_char(i) == '=' {
            if count == 0 {
                first = i;
            }
            count = count + 1;
        }
        i = i + 1;
    }
    proof {
        assert(s@.take(n as int) =~= s@);
        if count == 0 {
            lemma_first_ix_none(s@, '=');
        } else {
            lemma_first_ix_at(s@, '=', first as int);
        }
    }
    if count == 0 {
        Ok((None, s))
    } else if count == 1 && first > 0 && first < n - 1 {
        let alias = s.substring_char(0, first);
        let path = s.substring_char(first + 1, n);
        proof {
            assert(alias@ =~= s@.take(first as int));
            assert(path@ =~= s@.skip(first as int + 1));
        }
        Ok((Some(alias), path))
    } else {
        let mut m = String::from_str("invalid signal selection: ");
        m.append(s);
        Err(m)
    }
}

/// How one trimmed line of a signal-map file is treated.
#[derive(Clone, Copy, PartialEq, Eq, Structural, Debug)]
pub enum LineClass {
    /// A blank line or a comment line: skipped.
    Skip,
    /// A line carrying an `=`: handed on as a selection string.
    Keep,
    /// Any other line: the whole file is rejected.
    Invalid,
}

/// Classifies one already-trimmed line of a signal-map file: blank lines and
/// `#`-comment lines are skipped, a line without an `=` rejects the file,
/// anything else is kept as a selection string.
pub fn classify_map_line(line: &str) -> (r: LineClass)
    ensures
        r == LineClass::Skip <==> (line@.len() == 0 || line@[0] == '#'),
        r == LineClass::Keep <==> (line@.len() > 0 && line@[0] != '#' && count_char(line@, '=')
            > 0),
        r == LineClass::Invalid <==> (line@.len() > 0 && line@[0] != '#' && count_char(line@, '=')
            == 0),
{
    let n = line.unicode_len();
    if n == 0 {
        return LineClass::Skip;
    }
    if line.get_char(0) == '#' {
        return LineClass::Skip;
    }
    let mut i: usize = 0;
    while i < n
        invariant
            i <= n,
            0 < n,
            n == line@.len(),
            line@[0] != '#',
            count_char(line@.take(i as int), '=') == 0,
        decreases n - i,
    {
        proof {
            assert(line@.take(i + 1).drop_last() =~= line@.take(i as int));
            assert(line@.take(i + 1).last() == line@[i as int]);
        }
        if line.get_char(i) == '=' {
            proof {
                lemma_count_char_at(line@, '=', i as int);
            }
            return LineClass::Keep;
        }
        i = i + 1;
    }
    proof {
        assert(line@.take(n as int) =~= line@);
    }
    LineClass::Invalid
}

/// A string holding `c` somewhere has a positive count of it.
proof fn lemma_count_char_at(s: Seq<char>, c: char, i: int)
    requires
        0 <= i < s.len(),
        s[i] == c,
    ensures
        count_char(s, c) > 0,
    decreases s.len(),
{
    if i == s.len() - 1 {
    } else {
        assert(s.drop_last()[i] == c);
        lemma_count_char_at(s.drop_last(), c, i);
    }
}

} // verus!
