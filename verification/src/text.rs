//! Verified helpers over `&str` and their sequence-level models: equality,
//! lexicographic order, substring search, and whitespace trimming.

use vstd::prelude::*;
use vstd::string::StrSliceExecFns;
use crate::chars::{char_is_whitespace, is_whitespace_char};

verus! {

/// The views of a sequence of string slices.
pub open spec fn str_views(v: Seq<&str>) -> Seq<Seq<char>> {
    v.map_values(|l: &str| l@)
}

/// The views of a sequence of owned strings.
pub open spec fn string_views(v: Seq<String>) -> Seq<Seq<char>> {
    v.map_values(|l: String| l@)
}

/// First index at which `pat` occurs as a contiguous subsequence of `s`,
/// if it occurs at all.
pub open spec fn spec_find(s: Seq<char>, pat: Seq<char>) -> Option<int>
    decreases s.len(),
{
    if pat.len() == 0 {
        Some(0)
    } else if s.len() < pat.len() {
        None
    } else if s.take(pat.len() as int) == pat {
        Some(0)
    } else {
        match spec_find(s.drop_first(), pat) {
            Some(i) => Some(i + 1),
            None => None,
        }
    }
}

/// `s` with leading whitespace removed.
pub open spec fn trim_start_seq(s: Seq<char>) -> Seq<char>
    decreases s.len(),
{
    if s.len() > 0 && is_whitespace_char(s[0]) {
        trim_start_seq(s.drop_first())
    } else {
        s
    }
}

/// `s` with trailing whitespace removed.
pub open spec fn trim_end_seq(s: Seq<char>) -> Seq<char>
    decreases s.len(),
{
    if s.len() > 0 && is_whitespace_char(s.last()) {
        trim_end_seq(s.drop_last())
    } else {
        s
    }
}

/// `s` with both leading and trailing whitespace removed.
pub open spec fn trim_seq(s: Seq<char>) -> Seq<char> {
    trim_end_seq(trim_start_seq(s))
}

/// Strict lexicographic order on character sequences, comparing scalar
/// values position by position; a proper prefix sorts first.
pub open spec fn lex_lt(a: Seq<char>, b: Seq<char>) -> bool
    decreases a.len(),
{
    if b.len() == 0 {
        false
    } else if a.len() == 0 {
        true
    } else if (a[0] as u32) < (b[0] as u32) {
        true
    } else if (b[0] as u32) < (a[0] as u32) {
        false
    } else {
        lex_lt(a.drop_first(), b.drop_first())
    }
}

/// Character-for-character string equality.
pub fn str_eq(a: &str, b: &str) -> (r: bool)
    ensures
        r == (a@ == b@),
{
    let alen = a.unicode_len();
    let blen = b.unicode_len();
    if alen != blen {
        return false;
    }
    let mut i: usize = 0;
    while i < alen
        invariant
            alen == a@.len(),
            alen == b@.len(),
            i <= alen,
            forall|j: int| 0 <= j < i ==> a@[j] == b@[j],
        decreases alen - i,
    {
        if a.get_char(i) != b.get_char(i) {
            return false;
        }
        i += 1;
    }
    proof {
        assert(a@ =~= b@);
    }
    true
}

/// Whether `pre` is a prefix of `s`.
pub open spec fn spec_starts_with(s: Seq<char>, pre: Seq<char>) -> bool {
    pre.len() <= s.len() && s.take(pre.len() as int) == pre
}

/// Decides `spec_starts_with` on the views of two strings.
pub fn str_starts_with(s: &str, pat: &str) -> (r: bool)
    ensures
        r == spec_starts_with(s@, pat@),
{
    let slen = s.unicode_len();
    let plen = pat.unicode_len();
    if plen > slen {
        return false;
    }
    let r = matches_at(s, 0, pat);
    proof {
        assert(s@.subrange(0, pat@.len() as int) =~= s@.take(pat@.len() as int));
    }
    r
}

/// Characters equal up to position `i` leave `lex_lt` decided by the
/// remainders.
proof fn lemma_lex_lt_skip(a: Seq<char>, b: Seq<char>, i: int)
    requires
        0 <= i <= a.len(),
        i <= b.len(),
        forall|j: int| 0 <= j < i ==> a[j] == b[j],
    ensures
        lex_lt(a, b) == lex_lt(a.skip(i), b.skip(i)),
    decreases i,
{
    if i == 0 {
        assert(a.skip(0) =~= a);
        assert(b.skip(0) =~= b);
    } else {
        assert(a[0] == b[0]);
        let ad = a.drop_first();
        let bd = b.drop_first();
        assert(forall|j: int| 0 <= j < i - 1 ==> ad[j] == bd[j]);
        lemma_lex_lt_skip(ad, bd, i - 1);
        assert(ad.skip(i - 1) =~= a.skip(i));
        assert(bd.skip(i - 1) =~= b.skip(i));
    }
}

/// Decides `lex_lt` on the views of two strings.
pub fn str_lt(a: &str, b: &str) -> (r: bool)
    ensures
        r == lex_lt(a@, b@),
{
    let alen = a.unicode_len();
    let blen = b.unicode_len();
    let mut i: usize = 0;
    loop
        invariant
            alen == a@.len(),
            blen == b@.len(),
            i <= alen,
            i <= blen,
            forall|j: int| 0 <= j < i ==> a@[j] == b@[j],
        decreases alen - i,
    {
        proof {
            lemma_lex_lt_skip(a@, b@, i as int);
        }
        if i == blen {
            return false;
        }
        if i == alen {
            return true;
        }
        let ca = a.get_char(i) as u32;
        let cb = b.get_char(i) as u32;
        proof {
            assert(a@.skip(i as int)[0] == a@[i as int]);
            assert(b@.skip(i as int)[0] == b@[i as int]);
        }
        if ca < cb {
            return true;
        }
        if cb < ca {
            return false;
        }
        i += 1;
    }
}

/// Whether `pat` occurs in `s` starting at position `pos`.
pub fn matches_at(s: &str, pos: usize, pat: &str) -> (r: bool)
    requires
        pos + pat@.len() <= s@.len(),
    ensures
        r == (s@.subrange(pos as int, pos + pat@.len()) == pat@),
{
    let plen = pat.unicode_len();
    let slen = s.unicode_len();
    let mut k: usize = 0;
    while k < plen
        invariant
            plen == pat@.len(),
            slen == s@.len(),
            pos + plen <= s@.len(),
            k <= plen,
            forall|j: int| 0 <= j < k ==> s@[pos + j] == pat@[j],
        decreases plen - k,
    {
        if s.get_char(pos + k) != pat.get_char(k) {
            proof {
                let sub = s@.subrange(pos as int, pos + pat@.len());
                assert(sub[k as int] != pat@[k as int]);
            }
            return false;
        }
        k += 1;
    }
    proof {
        assert(s@.subrange(pos as int, pos + pat@.len()) =~= pat@);
    }
    true
}

/// Relates the recursive definition of `spec_find` to a direct
/// characterization: a found index is the least position where `pat`
/// occurs, and `None` means `pat` occurs nowhere.
pub proof fn lemma_find_characterization(s: Seq<char>, pat: Seq<char>)
    ensures
        match spec_find(s, pat) {
            Some(i) => 0 <= i && i + pat.len() <= s.len() && s.subrange(i, i + pat.len()) == pat
                && forall|j: int| 0 <= j < i ==> #[trigger] s.subrange(j, j + pat.len()) != pat,
            None => forall|j: int|
                0 <= j && j + pat.len() <= s.len() ==> #[trigger] s.subrange(j, j + pat.len())
                    != pat,
        },
    decreases s.len(),
{
    if pat.len() == 0 {
        assert(s.subrange(0, 0) =~= pat);
    } else if s.len() < pat.len() {
    } else if s.take(pat.len() as int) == pat {
        assert(s.subrange(0, pat.len() as int) =~= s.take(pat.len() as int));
    } else {
        let t = s.drop_first();
        lemma_find_characterization(t, pat);
        assert(s.subrange(0, pat.len() as int) =~= s.take(pat.len() as int));
        match spec_find(t, pat) {
            Some(i) => {
                assert(t.subrange(i, i + pat.len()) =~= s.subrange(i + 1, i + 1 + pat.len()));
                assert(s.subrange(i + 1, i + 1 + pat.len()) == pat);
                assert forall|j: int| 0 <= j < i + 1 implies #[trigger] s.subrange(
                    j,
                    j + pat.len(),
                ) != pat by {
                    if j > 0 {
                        assert(t.subrange(j - 1, j - 1 + pat.len()) != pat);
                        assert(t.subrange(j - 1, j - 1 + pat.len()) =~= s.subrange(
                            j,
                            j + pat.len(),
                        ));
                    }
                }
            },
            None => {
                assert forall|j: int| 0 <= j && j + pat.len() <= s.len() implies #[trigger] s.subrange(
                    j,
                    j + pat.len(),
                ) != pat by {
                    if j > 0 {
                        assert(t.subrange(j - 1, j - 1 + pat.len()) != pat);
                        assert(t.subrange(j - 1, j - 1 + pat.len()) =~= s.subrange(
                            j,
                            j + pat.len(),
                        ));
                    }
                }
            },
        }
    }
}

/// First occurrence of `pat` in `s`, as decided by `spec_find`.
pub fn find_first(s: &str, pat: &str) -> (r: Option<usize>)
    ensures
        match r {
            Some(i) => spec_find(s@, pat@) == Some(i as int),
            None => spec_find(s@, pat@) is None,
        },
{
    let slen = s.unicode_len();
    let plen = pat.unicode_len();
    proof {
        lemma_find_characterization(s@, pat@);
    }
    if plen == 0 {
        return Some(0);
    }
    if plen > slen {
        return None;
    }
    let mut i: usize = 0;
    while i <= slen - plen
        invariant
            slen == s@.len(),
            plen == pat@.len(),
            0 < plen <= slen,
            i <= slen - plen + 1,
            forall|j: int| 0 <= j < i ==> #[trigger] s@.subrange(j, j + pat@.len()) != pat@,
        decreases slen - plen - i + 1,
    {
        if matches_at(s, i, pat) {
            proof {
                lemma_find_characterization(s@, pat@);
                match spec_find(s@, pat@) {
                    Some(k) => {
                        assert(!(k < i) && !(i < k));
                    },
                    None => {
                        assert(s@.subrange(i as int, i + pat@.len()) == pat@);
                    },
                }
            }
            return Some(i);
        }
        i += 1;
    }
    proof {
        lemma_find_characterization(s@, pat@);
        if let Some(k) = spec_find(s@, pat@) {
            assert(s@.subrange(k, k + pat@.len()) == pat@);
        }
    }
    None
}

/// `trim_start_seq` removes exactly the maximal whitespace prefix.
proof fn lemma_trim_start_skip(s: Seq<char>, a: int)
    requires
        0 <= a <= s.len(),
        forall|j: int| 0 <= j < a ==> is_whitespace_char(s[j]),
        a == s.len() || !is_whitespace_char(s[a]),
    ensures
        trim_start_seq(s) == s.skip(a),
    decreases a,
{
    if a == 0 {
        assert(s.skip(0) =~= s);
    } else {
        let t = s.drop_first();
        assert(forall|j: int| 0 <= j < a - 1 ==> t[j] == s[j + 1]);
        lemma_trim_start_skip(t, a - 1);
        assert(t.skip(a - 1) =~= s.skip(a));
    }
}

/// `trim_end_seq` removes exactly the maximal whitespace suffix.
proof fn lemma_trim_end_take(s: Seq<char>, b: int)
    requires
        0 <= b <= s.len(),
        forall|j: int| b <= j < s.len() ==> is_whitespace_char(s[j]),
        b == 0 || !is_whitespace_char(s[b - 1]),
    ensures
        trim_end_seq(s) == s.take(b),
    decreases s.len() - b,
{
    if b == s.len() {
        assert(s.take(b) =~= s);
        if s.len() > 0 && is_whitespace_char(s.last()) {
            assert(false);
        }
    } else {
        let t = s.drop_last();
        lemma_trim_end_take(t, b);
        assert(t.take(b) =~= s.take(b));
    }
}

/// `trim_seq(s)` is the subrange of `s` between the maximal whitespace
/// prefix and suffix.
pub proof fn lemma_trim_subrange(s: Seq<char>, a: int, b: int)
    requires
        0 <= a <= b <= s.len(),
        forall|j: int| 0 <= j < a ==> is_whitespace_char(s[j]),
        forall|j: int| b <= j < s.len() ==> is_whitespace_char(s[j]),
        a == b || (!is_whitespace_char(s[a]) && !is_whitespace_char(s[b - 1])),
    ensures
        trim_seq(s) == s.subrange(a, b),
{
    if a == b {
        if a == s.len() {
            lemma_trim_start_skip(s, a);
            assert(s.skip(a) =~= Seq::<char>::empty());
            assert(s.subrange(a, b) =~= Seq::<char>::empty());
        } else {
            // every character is whitespace
            lemma_trim_start_skip(s, s.len() as int);
            assert(s.skip(s.len() as int) =~= Seq::<char>::empty());
            assert(s.subrange(a, b) =~= Seq::<char>::empty());
        }
    } else {
        lemma_trim_start_skip(s, a);
        let t = s.skip(a);
        assert(forall|j: int| 0 <= j < t.len() ==> t[j] == s[j + a]);
        lemma_trim_end_take(t, b - a);
        assert(t.take(b - a) =~= s.subrange(a, b));
    }
}

/// `s` with surrounding whitespace removed, as a slice of `s`.
pub fn trim_str(s: &str) -> (r: &str)
    ensures
        r@ == trim_seq(s@),
{
    let len = s.unicode_len();
    let mut a: usize = 0;
    while a < len && char_is_whitespace(s.get_char(a))
        invariant
            len == s@.len(),
            a <= len,
            forall|j: int| 0 <= j < a ==> is_whitespace_char(s@[j]),
        decreases len - a,
    {
        a += 1;
    }
    if a == len {
        proof {
            lemma_trim_subrange(s@, a as int, a as int);
        }
        return s.substring_char(a, a);
    }
    let mut b: usize = len;
    while char_is_whitespace(s.get_char(b - 1))
        invariant
            len == s@.len(),
            a < b <= len,
            !is_whitespace_char(s@[a as int]),
            forall|j: int| b <= j < len ==> is_whitespace_char(s@[j]),
        decreases b,
    {
        b -= 1;
    }
    proof {
        lemma_trim_subrange(s@, a as int, b as int);
    }
    s.substring_char(a, b)
}

} // verus!
