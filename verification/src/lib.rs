//! Pre-process template source text annotated with fragment tags.
//!
//! A template may mark named regions with `{% fragment NAME... %}` /
//! `{% endfragment %}` pairs, or with `{% fragment-block NAME %}` /
//! `{% endfragment-block %}` pairs that additionally rewrite their boundary
//! lines into `{% block NAME %}` / `{% endblock %}`.  [`filter_template`]
//! extracts the text belonging to one named fragment, and
//! [`split_templates`] partitions a template into every fragment it
//! declares, the whole document being the fragment with the empty name.

use vstd::prelude::*;
use vstd::string::StrSliceExecFns;
use vstd::string::StringExecFns;

pub mod chars;
pub mod error;
pub mod laws;
pub mod lines;
pub mod model;
pub mod names;
pub mod stack;
pub mod tag;
pub mod text;
pub mod tmap;

pub use crate::error::{Error, ErrorWithLine};
pub use crate::tmap::TemplateMap;

use crate::error::SpecError;
use crate::lines::{get_ending, iterate_with_endings, spec_lines};
use crate::model::{block_close_line, block_open_line, filter_from, last_line_index, spec_filter,
    spec_split, split_from};
use crate::names::contains_str;
use crate::stack::FragmentStack;
use crate::tag::{lemma_classify_start_distinct, parse_fragment_tag, Tag};
use crate::text::{str_views, trim_seq, trim_str};
use crate::tmap::push_line_all;

verus! {

/// Index of the last `'#'` in `s`, if any.
pub open spec fn last_hash_index(s: Seq<char>) -> Option<int>
    decreases s.len(),
{
    if s.len() == 0 {
        None
    } else if s.last() == '#' {
        Some(s.len() - 1)
    } else {
        last_hash_index(s.drop_last())
    }
}

/// What `split_path` returns: the halves around the last `'#'`, both
/// trimmed; without a `'#'` the whole trimmed path and an empty
/// fragment.
pub open spec fn spec_split_path(s: Seq<char>) -> (Seq<char>, Seq<char>) {
    match last_hash_index(s) {
        Some(i) => (trim_seq(s.take(i)), trim_seq(s.skip(i + 1))),
        None => (trim_seq(s), Seq::<char>::empty()),
    }
}

/// The last `'#'` is wherever backward scanning found it.
proof fn lemma_last_hash_at(s: Seq<char>, i: int)
    requires
        0 <= i < s.len(),
        s[i] == '#',
        forall|j: int| i < j < s.len() ==> s[j] != '#',
    ensures
        last_hash_index(s) == Some(i),
    decreases s.len(),
{
    if i < s.len() - 1 {
        let d = s.drop_last();
        assert(forall|j: int| 0 <= j < d.len() ==> d[j] == s[j]);
        lemma_last_hash_at(d, i);
    }
}

/// Without any `'#'`, backward scanning finds nothing.
proof fn lemma_last_hash_none(s: Seq<char>)
    requires
        forall|j: int| 0 <= j < s.len() ==> s[j] != '#',
    ensures
        last_hash_index(s) is None,
    decreases s.len(),
{
    if s.len() > 0 {
        let d = s.drop_last();
        assert(forall|j: int| 0 <= j < d.len() ==> d[j] == s[j]);
        lemma_last_hash_none(d);
    }
}

/// Split a template path with optional fragment into the path and fragment.
///
/// The split is on the last `'#'`; both halves are whitespace-trimmed.  If
/// no `'#'` is found, the fragment is the empty string.
pub fn split_path(path: &str) -> (r: (&str, &str))
    ensures
        (r.0@, r.1@) == spec_split_path(path@),
{
    let len = path.unicode_len();
    let mut i: usize = len;
    while i > 0
        invariant
            len == path@.len(),
            i <= len,
            forall|j: int| i <= j < len ==> path@[j] != '#',
        decreases i,
    {
        if path.get_char(i - 1) == '#' {
            proof {
                lemma_last_hash_at(path@, i - 1);
            }
            let base = trim_str(path.substring_char(0, i - 1));
            let frag = trim_str(path.substring_char(i, len));
            proof {
                assert(path@.subrange(0, i - 1) =~= path@.take(i - 1));
                assert(path@.subrange(i as int, len as int) =~= path@.skip(i as int));
            }
            return (base, frag);
        }
        i -= 1;
    }
    proof {
        lemma_last_hash_none(path@);
        assert(path@.subrange(len as int, len as int) =~= Seq::<char>::empty());
        assert(trim_seq(path@.subrange(len as int, len as int)) =~= Seq::<char>::empty());
    }
    let base = trim_str(path);
    let frag = path.substring_char(len, len);
    (base, frag)
}

/// What `join_path` returns: the trimmed path, plus `#` and the trimmed
/// fragment unless the fragment trims to nothing.
pub open spec fn spec_join_path(p: Seq<char>, f: Seq<char>) -> Seq<char> {
    if trim_seq(f).len() == 0 {
        trim_seq(p)
    } else {
        trim_seq(p) + "#"@ + trim_seq(f)
    }
}

/// Join a path with a fragment, omitting empty fragments.
///
/// Both inputs are whitespace-trimmed; an empty (or all-whitespace)
/// fragment yields the trimmed path alone.
pub fn join_path(path: &str, fragment: &str) -> (r: String)
    ensures
        r@ == spec_join_path(path@, fragment@),
{
    let p = trim_str(path);
    let f = trim_str(fragment);
    if f.unicode_len() == 0 {
        String::from_str(p)
    } else {
        let mut s = String::new();
        s.append(p);
        s.append("#");
        s.append(f);
        proof {
            assert(s@ =~= p@ + "#"@ + f@);
        }
        s
    }
}

/// The rewritten block-open line, built from the original line's pieces.
fn build_block_open(prefix: &str, name: &str, ending: &str) -> (r: String)
    ensures
        r@ == block_open_line(prefix@, name@, ending@),
{
    let mut s = String::new();
    s.append(prefix);
    s.append("{% block ");
    s.append(name);
    s.append(" %}");
    s.append(ending);
    proof {
        assert(s@ =~= prefix@ + "{% block "@ + name@ + " %}"@ + ending@);
    }
    s
}

/// The rewritten block-close line.
fn build_block_close(prefix: &str, ending: &str) -> (r: String)
    ensures
        r@ == block_close_line(prefix@, ending@),
{
    let mut s = String::new();
    s.append(prefix);
    s.append("{% endblock %}");
    s.append(ending);
    proof {
        assert(s@ =~= prefix@ + "{% endblock %}"@ + ending@);
    }
    s
}

/// Process the template and return all parts belonging to the given
/// fragment.
///
/// The whole document (with fragment tags removed and block tag lines
/// rewritten) is the fragment with the empty name.  The result is
/// exactly what `spec_filter` assigns to the input; on a malformed
/// template the specific error and its 0-based line index are returned.
pub fn filter_template(src: &str, fragment: &str) -> (r: Result<String, ErrorWithLine>)
    ensures
        match r {
            Ok(out) => spec_filter(src@, fragment@) == Ok::<_, (int, SpecError)>(out@),
            Err(e) => spec_filter(src@, fragment@) == Err::<Seq<char>, _>((e.0 as int, e.1@)),
        },
{
    let lines = iterate_with_endings(src);
    let mut stack = FragmentStack::new();
    let mut res = String::new();
    let ghost lv = str_views(lines@);
    proof {
        assert(res@ =~= Seq::<char>::empty());
    }
    let nlines = lines.len();
    let mut idx: usize = 0;
    while idx < nlines
        invariant
            nlines == lines@.len(),
            lv == str_views(lines@),
            lv == spec_lines(src@),
            idx <= nlines,
            stack.wf(),
            spec_filter(src@, fragment@) == filter_from(
                lv,
                idx as int,
                stack.frames_view(),
                res@,
                fragment@,
            ),
        decreases nlines - idx,
    {
        let line = lines[idx];
        proof {
            assert(lv[idx as int] == line@);
        }
        match parse_fragment_tag(line, ("{%", "%}")) {
            Err(err) => {
                return Err(err.at(idx));
            },
            Ok(Some(Tag::Start(t))) => {
                proof {
                    lemma_classify_start_distinct(line@, "{%"@, "%}"@);
                }
                match stack.push(t.fragments) {
                    Err(err) => {
                        return Err(err.at(idx));
                    },
                    Ok(_) => {},
                }
            },
            Ok(Some(Tag::End(_))) => {
                match stack.pop() {
                    Err(err) => {
                        return Err(err.at(idx));
                    },
                    Ok(_) => {},
                }
            },
            Ok(Some(Tag::StartBlock(t))) => {
                let mut frame: Vec<&str> = Vec::new();
                frame.push(t.fragment);
                proof {
                    assert(str_views(frame@) =~= seq![t.fragment@]);
                }
                match stack.push(frame) {
                    Err(err) => {
                        return Err(err.at(idx));
                    },
                    Ok(_) => {
                        let out_line = build_block_open(t.prefix, t.fragment, get_ending(line));
                        if stack.is_active(fragment) {
                            res.append(out_line.as_str());
                        } else {
                            proof {
                                assert(res@ + Seq::<char>::empty() =~= res@);
                            }
                        }
                    },
                }
            },
            Ok(Some(Tag::EndBlock(t))) => {
                match stack.pop() {
                    Err(err) => {
                        return Err(err.at(idx));
                    },
                    Ok(act_names) => {
                        let out_line = build_block_close(t.prefix, get_ending(line));
                        if contains_str(&act_names, fragment) {
                            res.append(out_line.as_str());
                        } else {
                            proof {
                                assert(res@ + Seq::<char>::empty() =~= res@);
                            }
                        }
                    },
                }
            },
            Ok(None) => {
                if stack.is_active(fragment) {
                    res.append(line);
                } else {
                    proof {
                        assert(res@ + Seq::<char>::empty() =~= res@);
                    }
                }
            },
        }
        idx += 1;
    }
    match stack.done() {
        Err(err) => {
            let last = if nlines == 0 {
                0
            } else {
                nlines - 1
            };
            proof {
                assert(last as int == last_line_index(lv));
            }
            Err(err.at(last))
        },
        Ok(_) => Ok(res),
    }
}

/// Split the template into all fragments it declares.
///
/// The whole document is included under the empty name, provided at
/// least one line belongs to it; every other name maps to the text
/// accumulated while it was active.  The result is exactly what
/// `spec_split` assigns to the input.
pub fn split_templates(src: &str) -> (r: Result<TemplateMap, ErrorWithLine>)
    ensures
        match r {
            Ok(m) => m.wf() && spec_split(src@) == Ok::<_, (int, SpecError)>(m@),
            Err(e) => spec_split(src@) == Err::<Map<Seq<char>, Seq<char>>, _>(
                (e.0 as int, e.1@),
            ),
        },
{
    let lines = iterate_with_endings(src);
    let mut stack = FragmentStack::new();
    let mut res = TemplateMap::new();
    let ghost lv = str_views(lines@);
    let nlines = lines.len();
    let mut idx: usize = 0;
    while idx < nlines
        invariant
            nlines == lines@.len(),
            lv == str_views(lines@),
            lv == spec_lines(src@),
            idx <= nlines,
            stack.wf(),
            res.wf(),
            spec_split(src@) == split_from(lv, idx as int, stack.frames_view(), res@),
        decreases nlines - idx,
    {
        let line = lines[idx];
        proof {
            assert(lv[idx as int] == line@);
        }
        match parse_fragment_tag(line, ("{%", "%}")) {
            Err(err) => {
                return Err(err.at(idx));
            },
            Ok(Some(Tag::Start(t))) => {
                proof {
                    lemma_classify_start_distinct(line@, "{%"@, "%}"@);
                }
                match stack.push(t.fragments) {
                    Err(err) => {
                        return Err(err.at(idx));
                    },
                    Ok(_) => {},
                }
            },
            Ok(Some(Tag::End(_))) => {
                match stack.pop() {
                    Err(err) => {
                        return Err(err.at(idx));
                    },
                    Ok(_) => {},
                }
            },
            Ok(Some(Tag::StartBlock(t))) => {
                let mut frame: Vec<&str> = Vec::new();
                frame.push(t.fragment);
                proof {
                    assert(str_views(frame@) =~= seq![t.fragment@]);
                }
                match stack.push(frame) {
                    Err(err) => {
                        return Err(err.at(idx));
                    },
                    Ok(_) => {
                        let out_line = build_block_open(t.prefix, t.fragment, get_ending(line));
                        let names = stack.active_names();
                        push_line_all(&mut res, names, out_line.as_str());
                    },
                }
            },
            Ok(Some(Tag::EndBlock(t))) => {
                match stack.pop() {
                    Err(err) => {
                        return Err(err.at(idx));
                    },
                    Ok(act_names) => {
                        let out_line = build_block_close(t.prefix, get_ending(line));
                        push_line_all(&mut res, &act_names, out_line.as_str());
                    },
                }
            },
            Ok(None) => {
                let names = stack.active_names();
                push_line_all(&mut res, names, line);
            },
        }
        idx += 1;
    }
    match stack.done() {
        Err(err) => {
            let last = if nlines == 0 {
                0
            } else {
                nlines - 1
            };
            proof {
                assert(last as int == last_line_index(lv));
            }
            Err(err.at(last))
        },
        Ok(_) => Ok(res),
    }
}

} // verus!
