//! Splitting template source into lines that keep their terminators.
//!
//! A line slice is exactly one line of the input including its original
//! terminator bytes (`"\n"`, `"\r\n"`, or nothing for a final unterminated
//! line); concatenating the slices gives the input back unchanged.

use vstd::prelude::*;
use vstd::string::StrSliceExecFns;
use crate::text::str_views;

verus! {

/// Length of the first line of `s`, terminator included: one past the
/// first `'\n'`, or all of `s` if it holds none.
pub open spec fn first_line_len(s: Seq<char>) -> nat
    decreases s.len(),
{
    if s.len() == 0 {
        0
    } else if s[0] == '\n' {
        1
    } else {
        1 + first_line_len(s.drop_first())
    }
}

/// A non-empty text has a first line of at least one character.
pub proof fn lemma_first_line_len_bounds(s: Seq<char>)
    requires
        s.len() > 0,
    ensures
        1 <= first_line_len(s) <= s.len(),
    decreases s.len(),
{
    if s[0] != '\n' {
        if s.len() > 1 {
            lemma_first_line_len_bounds(s.drop_first());
        } else {
            assert(first_line_len(s.drop_first()) == 0);
        }
    }
}

/// The input split into its lines, each keeping its terminator.
pub open spec fn spec_lines(s: Seq<char>) -> Seq<Seq<char>>
    decreases s.len(),
    via spec_lines_dec
{
    if s.len() == 0 {
        Seq::empty()
    } else {
        let n = first_line_len(s) as int;
        seq![s.take(n)] + spec_lines(s.skip(n))
    }
}

#[via_fn]
proof fn spec_lines_dec(s: Seq<char>) {
    if s.len() > 0 {
        lemma_first_line_len_bounds(s);
    }
}

/// Concatenation of a sequence of lines.
pub open spec fn concat_all(ls: Seq<Seq<char>>) -> Seq<char>
    decreases ls.len(),
{
    if ls.len() == 0 {
        Seq::empty()
    } else {
        ls[0] + concat_all(ls.drop_first())
    }
}

/// The line splitter loses nothing: concatenating the lines of `s`
/// yields `s` itself.
pub proof fn lemma_lines_concat(s: Seq<char>)
    ensures
        concat_all(spec_lines(s)) == s,
    decreases s.len(),
{
    if s.len() == 0 {
        assert(concat_all(spec_lines(s)) =~= s);
    } else {
        lemma_first_line_len_bounds(s);
        let n = first_line_len(s) as int;
        lemma_lines_concat(s.skip(n));
        let ls = spec_lines(s);
        assert(ls[0] == s.take(n));
        assert(ls.drop_first() =~= spec_lines(s.skip(n)));
        assert(s.take(n) + s.skip(n) =~= s);
    }
}

/// Number of characters taken by the first line, located by scanning.
proof fn lemma_first_line_len_at(s: Seq<char>, m: int)
    requires
        0 <= m <= s.len(),
        forall|j: int| 0 <= j < m ==> s[j] != '\n',
        m == s.len() || s[m] == '\n',
    ensures
        first_line_len(s) == if m < s.len() {
            m + 1
        } else {
            m as int
        },
    decreases m,
{
    if m == 0 {
    } else {
        let t = s.drop_first();
        assert(forall|j: int| 0 <= j < m - 1 ==> t[j] == s[j + 1]);
        lemma_first_line_len_at(t, m - 1);
    }
}

/// Split `src` into its lines, each slice keeping its original terminator.
/// Empty input yields no lines; the final line may lack a terminator.
pub fn iterate_with_endings<'a>(src: &'a str) -> (v: Vec<&'a str>)
    ensures
        str_views(v@) == spec_lines(src@),
{
    let len = src.unicode_len();
    let mut res: Vec<&'a str> = Vec::new();
    let mut pos: usize = 0;
    proof {
        assert(src@.skip(0) =~= src@);
        assert(str_views(res@) =~= Seq::<Seq<char>>::empty());
        assert(str_views(res@) + spec_lines(src@) =~= spec_lines(src@));
    }
    while pos < len
        invariant
            len == src@.len(),
            pos <= len,
            spec_lines(src@) == str_views(res@) + spec_lines(src@.skip(pos as int)),
        decreases len - pos,
    {
        let mut e: usize = pos;
        while e < len && src.get_char(e) != '\n'
            invariant
                len == src@.len(),
                pos <= e <= len,
                forall|j: int| pos <= j < e ==> src@[j] != '\n',
            decreases len - e,
        {
            e += 1;
        }
        let end = if e < len {
            e + 1
        } else {
            len
        };
        let line = src.substring_char(pos, end);
        proof {
            let t = src@.skip(pos as int);
            assert(forall|j: int| 0 <= j < t.len() ==> t[j] == src@[j + pos]);
            lemma_first_line_len_at(t, e - pos);
            assert(first_line_len(t) == end - pos);
            assert(t.take(end - pos) =~= src@.subrange(pos as int, end as int));
            assert(t.skip(end - pos) =~= src@.skip(end as int));
            let old_views = str_views(res@);
            assert(str_views(res@.push(line)) =~= old_views.push(line@));
            assert(old_views.push(line@) + spec_lines(src@.skip(end as int)) =~= old_views + (seq![
                line@,
            ] + spec_lines(src@.skip(end as int))));
            assert(seq![line@] + spec_lines(src@.skip(end as int)) == spec_lines(t));
        }
        res.push(line);
        pos = end;
    }
    proof {
        assert(src@.skip(len as int) =~= Seq::<char>::empty());
        assert(str_views(res@) + spec_lines(src@.skip(pos as int)) =~= str_views(res@));
    }
    res
}

/// Length of the terminator at the end of `l`: 2 for `"\r\n"`, 1 for a
/// bare `"\n"`, 0 otherwise.
pub open spec fn ending_len(l: Seq<char>) -> int {
    if l.len() >= 2 && l[l.len() - 2] == '\r' && l[l.len() - 1] == '\n' {
        2
    } else if l.len() >= 1 && l[l.len() - 1] == '\n' {
        1
    } else {
        0
    }
}

/// The terminator at the end of `l`, possibly empty.
pub open spec fn spec_ending(l: Seq<char>) -> Seq<char> {
    l.subrange(l.len() - ending_len(l), l.len() as int)
}

/// The line terminator of `line`: `"\r\n"`, `"\n"`, or the empty string.
pub fn get_ending<'a>(line: &'a str) -> (r: &'a str)
    ensures
        r@ == spec_ending(line@),
{
    let len = line.unicode_len();
    if len >= 2 && line.get_char(len - 2) == '\r' && line.get_char(len - 1) == '\n' {
        line.substring_char(len - 2, len)
    } else if len >= 1 && line.get_char(len - 1) == '\n' {
        line.substring_char(len - 1, len)
    } else {
        line.substring_char(len, len)
    }
}

} // verus!
