//! Presentation form of names: dotted text such as `www.example.com`.
use vstd::prelude::*;
use vstd::string::StrSliceExecFns;

use crate::error::DecodeError;

verus! {

/// An ASCII letter or digit.
pub open spec fn is_alnum(c: char) -> bool {
    ('a' <= c && c <= 'z') || ('A' <= c && c <= 'Z') || ('0' <= c && c <= '9')
}

/// The end of the run of letters and digits that starts at `i`.
pub open spec fn alnum_run_end(s: Seq<char>, i: int) -> int
    decreases s.len() - i,
{
    if 0 <= i < s.len() && is_alnum(s[i]) {
        alnum_run_end(s, i + 1)
    } else {
        i
    }
}

/// The labels of the dotted name that starts at `i`, and the offset where it
/// ends: a label is a non-empty run of letters and digits, and a dot goes on
/// to a next label only when one follows it.
pub open spec fn dotted_from(s: Seq<char>, i: int) -> (int, Seq<Seq<char>>)
    decreases s.len() - i,
{
    let j = alnum_run_end(s, i);
    if i < j && j + 1 < s.len() && s[j] == '.' && is_alnum(s[j + 1]) {
        let (end, rest) = dotted_from(s, j + 1);
        (end, seq![s.subrange(i, j)] + rest)
    } else {
        (j, seq![s.subrange(i, j)])
    }
}

/// The longest dotted name at the start of `s`, and where it ends; text that
/// does not start with a letter or digit holds none.
pub open spec fn dotted_name(s: Seq<char>) -> Result<(int, Seq<Seq<char>>), DecodeError> {
    if s.len() > 0 && is_alnum(s[0]) {
        Ok(dotted_from(s, 0))
    } else {
        Err(DecodeError::MalformedName)
    }
}

pub open spec fn str_views(v: Seq<&str>) -> Seq<Seq<char>> {
    v.map_values(|s: &str| s@)
}

fn is_alnum_char(c: char) -> (r: bool)
    ensures
        r == is_alnum(c),
{
    ('a' <= c && c <= 'z') || ('A' <= c && c <= 'Z') || ('0' <= c && c <= '9')
}

/// Splits the dotted name at the start of `input` into its labels, and
/// returns the text after it.
pub fn decode_domain_name_inner<'a>(input: &'a str) -> (r: Result<
    (&'a str, Vec<&'a str>),
    DecodeError,
>)
    ensures
        match dotted_name(input@) {
            Ok((end, labels)) => r matches Ok((rest, v)) && str_views(v@) == labels && rest@
                == input@.subrange(end, input@.len() as int),
            Err(e) => r == Err::<(&'a str, Vec<&'a str>), DecodeError>(e),
        },
{
    let n = input.unicode_len();
    if n == 0 || !is_alnum_char(input.get_char(0)) {
        return Err(DecodeError::MalformedName);
    }
    let ghost s = input@;
    let mut labels: Vec<&'a str> = Vec::new();
    let mut i: usize = 0;
    proof {
        assert(str_views(labels@) =~= Seq::<Seq<char>>::empty());
        assert(dotted_from(s, 0).1 =~= str_views(labels@) + dotted_from(s, 0).1);
    }
    loop
        invariant
            s == input@,
            n == s.len(),
            i < n,
            is_alnum(s[i as int]),
            dotted_from(s, 0).0 == dotted_from(s, i as int).0,
            dotted_from(s, 0).1 == str_views(labels@) + dotted_from(s, i as int).1,
        decreases n - i,
    {
        let mut j: usize = i;
        while j < n && is_alnum_char(input.get_char(j))
            invariant
                s == input@,
                n == s.len(),
                i <= j <= n,
                alnum_run_end(s, i as int) == alnum_run_end(s, j as int),
            decreases n - j,
        {
            j = j + 1;
        }
        assert(alnum_run_end(s, j as int) == j);
        let ghost before = str_views(labels@);
        let label = input.substring_char(i, j);
        labels.push(label);
        proof {
            assert(str_views(labels@) =~= before.push(s.subrange(i as int, j as int)));
        }
        if j < n - 1 && input.get_char(j) == '.' && is_alnum_char(input.get_char(j + 1)) {
            proof {
                let rest = dotted_from(s, j + 1).1;
                assert(before + (seq![s.subrange(i as int, j as int)] + rest) =~= str_views(labels@)
                    + rest);
            }
            i = j + 1;
        } else {
            proof {
                assert(before + seq![s.subrange(i as int, j as int)] =~= str_views(labels@));
            }
            return Ok((input.substring_char(j, n), labels));
        }
    }
}

/// The labels of the dotted name at the start of `input`; any text after it
/// is left unread.
pub fn decode_domain_name<'a>(input: &'a str) -> (r: Result<Vec<&'a str>, DecodeError>)
    ensures
        match dotted_name(input@) {
            Ok((_, labels)) => r matches Ok(v) && str_views(v@) == labels,
            Err(e) => r == Err::<Vec<&'a str>, DecodeError>(e),
        },
{
    let (_, parts) = decode_domain_name_inner(input)?;
    Ok(parts)
}

} // verus!
