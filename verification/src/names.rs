//! Fragment names: validation, whitespace-splitting of the name list in a
//! start tag, duplicate removal, and the sorted comma-joined rendering used
//! in error payloads.

use vstd::prelude::*;
use vstd::string::StrSliceExecFns;
use vstd::string::StringExecFns;
use crate::chars::{char_is_alphanumeric, char_is_whitespace, is_alphanumeric_char,
    is_whitespace_char};
use crate::text::{lex_lt, str_eq, str_lt, str_views};

verus! {

/// A character allowed in a fragment name: alphanumeric, `-` or `_`.
pub open spec fn valid_name_char(c: char) -> bool {
    is_alphanumeric_char(c) || c == '-' || c == '_'
}

/// A valid fragment name: not the reserved word `block`, and made of
/// allowed characters only.  The empty sequence passes both conditions;
/// the tokenizer never produces it.
pub open spec fn spec_valid_name(s: Seq<char>) -> bool {
    s != "block"@ && forall|i: int| 0 <= i < s.len() ==> valid_name_char(s[i])
}

/// Whether `name` may be used as a fragment name.
pub fn is_valid_fragment_name(name: &str) -> (r: bool)
    ensures
        r == spec_valid_name(name@),
{
    if str_eq(name, "block") {
        return false;
    }
    let len = name.unicode_len();
    let mut i: usize = 0;
    while i < len
        invariant
            len == name@.len(),
            i <= len,
            forall|j: int| 0 <= j < i ==> valid_name_char(name@[j]),
        decreases len - i,
    {
        let c = name.get_char(i);
        if !char_is_alphanumeric(c) && c != '-' && c != '_' {
            return false;
        }
        i += 1;
    }
    true
}

/// Length of the leading run of non-whitespace characters.
pub open spec fn run_len(s: Seq<char>) -> nat
    decreases s.len(),
{
    if s.len() == 0 {
        0
    } else if is_whitespace_char(s[0]) {
        0
    } else {
        1 + run_len(s.drop_first())
    }
}

/// The leading non-whitespace run never reaches past the end of `s`.
pub proof fn lemma_run_len_bounds(s: Seq<char>)
    ensures
        run_len(s) <= s.len(),
    decreases s.len(),
{
    if s.len() > 0 && !is_whitespace_char(s[0]) {
        lemma_run_len_bounds(s.drop_first());
    }
}

/// The maximal whitespace-separated words of `s`, in order.
pub open spec fn spec_tokens(s: Seq<char>) -> Seq<Seq<char>>
    decreases s.len(),
    via spec_tokens_dec
{
    if s.len() == 0 {
        Seq::empty()
    } else if is_whitespace_char(s[0]) {
        spec_tokens(s.drop_first())
    } else {
        let n = run_len(s) as int;
        seq![s.take(n)] + spec_tokens(s.skip(n))
    }
}

#[via_fn]
proof fn spec_tokens_dec(s: Seq<char>) {
    lemma_run_len_bounds(s);
}

/// Length of the run found by scanning for the first whitespace character.
proof fn lemma_run_len_at(s: Seq<char>, m: int)
    requires
        0 <= m <= s.len(),
        forall|j: int| 0 <= j < m ==> !is_whitespace_char(s[j]),
        m == s.len() || is_whitespace_char(s[m]),
    ensures
        run_len(s) == m,
    decreases m,
{
    if m > 0 {
        let t = s.drop_first();
        assert(forall|j: int| 0 <= j < m - 1 ==> t[j] == s[j + 1]);
        lemma_run_len_at(t, m - 1);
    }
}

/// Split `s` on whitespace into its maximal words.
pub fn split_whitespace<'a>(s: &'a str) -> (v: Vec<&'a str>)
    ensures
        str_views(v@) == spec_tokens(s@),
{
    let len = s.unicode_len();
    let mut res: Vec<&'a str> = Vec::new();
    let mut pos: usize = 0;
    proof {
        assert(s@.skip(0) =~= s@);
        assert(str_views(res@) =~= Seq::<Seq<char>>::empty());
        assert(str_views(res@) + spec_tokens(s@) =~= spec_tokens(s@));
    }
    while pos < len
        invariant
            len == s@.len(),
            pos <= len,
            spec_tokens(s@) == str_views(res@) + spec_tokens(s@.skip(pos as int)),
        decreases len - pos,
    {
        if char_is_whitespace(s.get_char(pos)) {
            proof {
                let t = s@.skip(pos as int);
                assert(t[0] == s@[pos as int]);
                assert(t.drop_first() =~= s@.skip(pos + 1));
            }
            pos += 1;
        } else {
            let mut e: usize = pos;
            while e < len && !char_is_whitespace(s.get_char(e))
                invariant
                    len == s@.len(),
                    pos <= e <= len,
                    forall|j: int| pos <= j < e ==> !is_whitespace_char(s@[j]),
                decreases len - e,
            {
                e += 1;
            }
            let tok = s.substring_char(pos, e);
            proof {
                let t = s@.skip(pos as int);
                assert(forall|j: int| 0 <= j < t.len() ==> t[j] == s@[j + pos]);
                lemma_run_len_at(t, e - pos);
                assert(t.take(e - pos) =~= s@.subrange(pos as int, e as int));
                assert(t.skip(e - pos) =~= s@.skip(e as int));
                let old_views = str_views(res@);
                assert(str_views(res@.push(tok)) =~= old_views.push(tok@));
                assert(old_views.push(tok@) + spec_tokens(s@.skip(e as int)) =~= old_views + (seq![
                    tok@,
                ] + spec_tokens(s@.skip(e as int))));
                assert(seq![tok@] + spec_tokens(s@.skip(e as int)) == spec_tokens(t));
            }
            res.push(tok);
            pos = e;
        }
    }
    proof {
        assert(s@.skip(pos as int) =~= Seq::<char>::empty());
        assert(str_views(res@) + spec_tokens(s@.skip(pos as int)) =~= str_views(res@));
    }
    res
}

/// `s` with later repetitions of a value removed, keeping first
/// occurrences in order.
pub open spec fn dedup_keep_first(s: Seq<Seq<char>>) -> Seq<Seq<char>>
    decreases s.len(),
{
    if s.len() == 0 {
        Seq::empty()
    } else {
        let d = dedup_keep_first(s.drop_last());
        if d.contains(s.last()) {
            d
        } else {
            d.push(s.last())
        }
    }
}

/// After duplicate removal, no name repeats.
pub proof fn lemma_dedup_distinct(s: Seq<Seq<char>>)
    ensures
        forall|i: int, j: int|
            0 <= i < j < dedup_keep_first(s).len() ==> dedup_keep_first(s)[i]
                != dedup_keep_first(s)[j],
    decreases s.len(),
{
    if s.len() > 0 {
        lemma_dedup_distinct(s.drop_last());
        let d = dedup_keep_first(s.drop_last());
        let r = dedup_keep_first(s);
        if !d.contains(s.last()) {
            assert forall|i: int, j: int| 0 <= i < j < r.len() implies r[i] != r[j] by {
                if j == r.len() - 1 {
                    assert(r[i] == d[i]);
                    assert(d.contains(d[i]));
                }
            }
        }
    }
}

/// Whether some element of `v` views to `name`.
pub fn contains_str(v: &Vec<&str>, name: &str) -> (r: bool)
    ensures
        r == str_views(v@).contains(name@),
{
    let mut i: usize = 0;
    while i < v.len()
        invariant
            i <= v@.len(),
            forall|j: int| 0 <= j < i ==> str_views(v@)[j] != name@,
        decreases v@.len() - i,
    {
        if str_eq(v[i], name) {
            assert(str_views(v@)[i as int] == name@);
            return true;
        }
        i += 1;
    }
    proof {
        if str_views(v@).contains(name@) {
            let k = choose|k: int| 0 <= k < str_views(v@).len() && str_views(v@)[k] == name@;
            assert(str_views(v@)[k] != name@);
        }
    }
    false
}

/// Remove duplicate names, keeping the first occurrence of each.
pub fn dedup_names<'a>(v: &Vec<&'a str>) -> (r: Vec<&'a str>)
    ensures
        str_views(r@) == dedup_keep_first(str_views(v@)),
{
    let mut res: Vec<&'a str> = Vec::new();
    let mut i: usize = 0;
    proof {
        assert(str_views(v@).take(0) =~= Seq::<Seq<char>>::empty());
        assert(str_views(res@) =~= dedup_keep_first(str_views(v@).take(0)));
    }
    while i < v.len()
        invariant
            i <= v@.len(),
            str_views(res@) == dedup_keep_first(str_views(v@).take(i as int)),
        decreases v@.len() - i,
    {
        let x = v[i];
        proof {
            let tv = str_views(v@);
            assert(tv.take(i + 1).drop_last() =~= tv.take(i as int));
            assert(tv.take(i + 1).last() == x@);
        }
        if !contains_str(&res, x) {
            proof {
                assert(str_views(res@.push(x)) =~= str_views(res@).push(x@));
            }
            res.push(x);
        }
        i += 1;
    }
    proof {
        assert(str_views(v@).take(v@.len() as int) =~= str_views(v@));
    }
    res
}

/// Insert `x` into the sorted sequence `s`, before the first element it
/// precedes in `lex_lt` order.
pub open spec fn sort_insert(x: Seq<char>, s: Seq<Seq<char>>) -> Seq<Seq<char>>
    decreases s.len(),
{
    if s.len() == 0 {
        seq![x]
    } else if lex_lt(x, s[0]) {
        seq![x] + s
    } else {
        seq![s[0]] + sort_insert(x, s.drop_first())
    }
}

/// Sort names lexicographically by repeated insertion.
pub open spec fn spec_sort(s: Seq<Seq<char>>) -> Seq<Seq<char>>
    decreases s.len(),
{
    if s.len() == 0 {
        Seq::empty()
    } else {
        sort_insert(s.last(), spec_sort(s.drop_last()))
    }
}

/// `sort_insert` places `x` exactly at the scanned position `p`.
proof fn lemma_sort_insert_at(x: Seq<char>, s: Seq<Seq<char>>, p: int)
    requires
        0 <= p <= s.len(),
        forall|j: int| 0 <= j < p ==> !lex_lt(x, s[j]),
        p == s.len() || lex_lt(x, s[p]),
    ensures
        sort_insert(x, s) == s.take(p) + seq![x] + s.skip(p),
    decreases p,
{
    if p == 0 {
        if s.len() == 0 {
            assert(sort_insert(x, s) =~= s.take(0) + seq![x] + s.skip(0));
        } else {
            assert(s.take(0) + seq![x] + s.skip(0) =~= seq![x] + s);
        }
    } else {
        let t = s.drop_first();
        assert(forall|j: int| 0 <= j < p - 1 ==> t[j] == s[j + 1]);
        lemma_sort_insert_at(x, t, p - 1);
        assert(seq![s[0]] + (t.take(p - 1) + seq![x] + t.skip(p - 1)) =~= s.take(p) + seq![x]
            + s.skip(p));
    }
}

/// Sort a list of names into `lex_lt` order.
pub fn sort_names<'a>(v: &Vec<&'a str>) -> (r: Vec<&'a str>)
    ensures
        str_views(r@) == spec_sort(str_views(v@)),
{
    let mut res: Vec<&'a str> = Vec::new();
    let mut i: usize = 0;
    proof {
        assert(str_views(v@).take(0) =~= Seq::<Seq<char>>::empty());
        assert(str_views(res@) =~= spec_sort(str_views(v@).take(0)));
    }
    while i < v.len()
        invariant
            i <= v@.len(),
            str_views(res@) == spec_sort(str_views(v@).take(i as int)),
        decreases v@.len() - i,
    {
        let x = v[i];
        let mut p: usize = 0;
        while p < res.len() && !str_lt(x, res[p])
            invariant
                p <= res@.len(),
                forall|j: int| 0 <= j < p ==> !lex_lt(x@, str_views(res@)[j]),
            decreases res@.len() - p,
        {
            proof {
                assert(str_views(res@)[p as int] == res@[p as int]@);
            }
            p += 1;
        }
        proof {
            let rv = str_views(res@);
            if p < res.len() {
                assert(rv[p as int] == res@[p as int]@);
            }
            lemma_sort_insert_at(x@, rv, p as int);
            assert(str_views(res@.insert(p as int, x)) =~= rv.take(p as int) + seq![x@] + rv.skip(
                p as int,
            ));
            let tv = str_views(v@);
            assert(tv.take(i + 1).drop_last() =~= tv.take(i as int));
            assert(tv.take(i + 1).last() == x@);
        }
        res.insert(p, x);
        i += 1;
    }
    proof {
        assert(str_views(v@).take(v@.len() as int) =~= str_views(v@));
    }
    res
}

/// One step of comma-joining: append `t`, separated by `", "` unless the
/// accumulator is still empty.
pub open spec fn join_step(acc: Seq<char>, t: Seq<char>) -> Seq<char> {
    if acc.len() == 0 {
        t
    } else {
        acc + ", "@ + t
    }
}

/// Names joined with `", "` between them.
pub open spec fn spec_join(s: Seq<Seq<char>>) -> Seq<char>
    decreases s.len(),
{
    if s.len() == 0 {
        Seq::empty()
    } else {
        join_step(spec_join(s.drop_last()), s.last())
    }
}

/// Names sorted and comma-joined, as rendered into error payloads.
pub open spec fn spec_sorted_join(s: Seq<Seq<char>>) -> Seq<char> {
    spec_join(spec_sort(s))
}

/// Append `t` to `s`, preceded by `", "` unless `s` is still empty.
pub fn push_join(s: &mut String, t: &str)
    ensures
        final(s)@ == join_step(old(s)@, t@),
{
    if s.as_str().unicode_len() != 0 {
        s.append(", ");
    } else {
        proof {
            assert(s@ + t@ =~= t@);
        }
    }
    s.append(t);
}

/// Render a list of names sorted and comma-joined.
pub fn sorted_fragments(names: &Vec<&str>) -> (r: String)
    ensures
        r@ == spec_sorted_join(str_views(names@)),
{
    let sorted = sort_names(names);
    let mut res = String::new();
    let mut i: usize = 0;
    proof {
        assert(str_views(sorted@).take(0) =~= Seq::<Seq<char>>::empty());
    }
    while i < sorted.len()
        invariant
            i <= sorted@.len(),
            res@ == spec_join(str_views(sorted@).take(i as int)),
        decreases sorted@.len() - i,
    {
        proof {
            let sv = str_views(sorted@);
            assert(sv.take(i + 1).drop_last() =~= sv.take(i as int));
            assert(sv.take(i + 1).last() == sorted@[i as int]@);
        }
        push_join(&mut res, sorted[i]);
        i += 1;
    }
    proof {
        assert(str_views(sorted@).take(sorted@.len() as int) =~= str_views(sorted@));
    }
    res
}

} // verus!
