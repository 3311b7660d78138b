//! The traversal model: what filtering one fragment and splitting into
//! all fragments compute, line by line, as recursive spec functions.
//! The public drivers are proved against these, and the laws relating
//! the two traversals are stated over them.

use vstd::prelude::*;
use crate::error::SpecError;
use crate::lines::{spec_ending, spec_lines};
use crate::stack::{active_of, spec_done, spec_pop, spec_push};
use crate::tag::{spec_classify, SpecLineClass, SpecTag};
use crate::tmap::{get_or_empty, multi_append};

verus! {

/// The rewritten text of a `fragment-block` open line: the original
/// indentation, a block-open tag with the fragment's name, and the
/// original line terminator.
pub open spec fn block_open_line(head: Seq<char>, name: Seq<char>, ending: Seq<char>) -> Seq<
    char,
> {
    head + "{% block "@ + name + " %}"@ + ending
}

/// The rewritten text of an `endfragment-block` line.
pub open spec fn block_close_line(head: Seq<char>, ending: Seq<char>) -> Seq<char> {
    head + "{% endblock %}"@ + ending
}

/// The line index reported when end of input finds unclosed frames.
pub open spec fn last_line_index(lines: Seq<Seq<char>>) -> int {
    if lines.len() == 0 {
        0
    } else {
        lines.len() - 1
    }
}

/// Filtering for `target`, from line `i` onward, with the frames opened
/// so far and the text emitted so far.
pub open spec fn filter_from(
    lines: Seq<Seq<char>>,
    i: int,
    frames: Seq<Seq<Seq<char>>>,
    acc: Seq<char>,
    target: Seq<char>,
) -> Result<Seq<char>, (int, SpecError)>
    decreases lines.len() - i,
{
    if i < 0 || i >= lines.len() {
        match spec_done(frames) {
            Ok(_) => Ok(acc),
            Err(e) => Err((last_line_index(lines), e)),
        }
    } else {
        let line = lines[i];
        match spec_classify(line, "{%"@, "%}"@) {
            SpecLineClass::Fail(e) => Err((i, e)),
            SpecLineClass::Content => {
                let add = if active_of(frames).contains(target) {
                    line
                } else {
                    Seq::empty()
                };
                filter_from(lines, i + 1, frames, acc + add, target)
            },
            SpecLineClass::Tagged(tag) => match tag {
                SpecTag::Start(names) => match spec_push(frames, names) {
                    Err(e) => Err((i, e)),
                    Ok(fr) => filter_from(lines, i + 1, fr, acc, target),
                },
                SpecTag::End => match spec_pop(frames) {
                    Err(e) => Err((i, e)),
                    Ok((fr, _)) => filter_from(lines, i + 1, fr, acc, target),
                },
                SpecTag::StartBlock(head, name) => match spec_push(frames, seq![name]) {
                    Err(e) => Err((i, e)),
                    Ok(fr) => {
                        let out = block_open_line(head, name, spec_ending(line));
                        let add = if active_of(fr).contains(target) {
                            out
                        } else {
                            Seq::empty()
                        };
                        filter_from(lines, i + 1, fr, acc + add, target)
                    },
                },
                SpecTag::EndBlock(head) => match spec_pop(frames) {
                    Err(e) => Err((i, e)),
                    Ok((fr, act)) => {
                        let out = block_close_line(head, spec_ending(line));
                        let add = if act.contains(target) {
                            out
                        } else {
                            Seq::empty()
                        };
                        filter_from(lines, i + 1, fr, acc + add, target)
                    },
                },
            },
        }
    }
}

/// What `filter_template` computes: the lines of `src` traversed from an
/// empty stack, keeping what belongs to `target`.
pub open spec fn spec_filter(src: Seq<char>, target: Seq<char>) -> Result<
    Seq<char>,
    (int, SpecError),
> {
    filter_from(spec_lines(src), 0, Seq::empty(), Seq::empty(), target)
}

/// Splitting, from line `i` onward, with the frames opened so far and
/// the per-fragment texts accumulated so far.
pub open spec fn split_from(
    lines: Seq<Seq<char>>,
    i: int,
    frames: Seq<Seq<Seq<char>>>,
    m: Map<Seq<char>, Seq<char>>,
) -> Result<Map<Seq<char>, Seq<char>>, (int, SpecError)>
    decreases lines.len() - i,
{
    if i < 0 || i >= lines.len() {
        match spec_done(frames) {
            Ok(_) => Ok(m),
            Err(e) => Err((last_line_index(lines), e)),
        }
    } else {
        let line = lines[i];
        match spec_classify(line, "{%"@, "%}"@) {
            SpecLineClass::Fail(e) => Err((i, e)),
            SpecLineClass::Content => split_from(
                lines,
                i + 1,
                frames,
                multi_append(m, active_of(frames), line),
            ),
            SpecLineClass::Tagged(tag) => match tag {
                SpecTag::Start(names) => match spec_push(frames, names) {
                    Err(e) => Err((i, e)),
                    Ok(fr) => split_from(lines, i + 1, fr, m),
                },
                SpecTag::End => match spec_pop(frames) {
                    Err(e) => Err((i, e)),
                    Ok((fr, _)) => split_from(lines, i + 1, fr, m),
                },
                SpecTag::StartBlock(head, name) => match spec_push(frames, seq![name]) {
                    Err(e) => Err((i, e)),
                    Ok(fr) => {
                        let out = block_open_line(head, name, spec_ending(line));
                        split_from(lines, i + 1, fr, multi_append(m, active_of(fr), out))
                    },
                },
                SpecTag::EndBlock(head) => match spec_pop(frames) {
                    Err(e) => Err((i, e)),
                    Ok((fr, act)) => {
                        let out = block_close_line(head, spec_ending(line));
                        split_from(lines, i + 1, fr, multi_append(m, act, out))
                    },
                },
            },
        }
    }
}

/// What `split_templates` computes.
pub open spec fn spec_split(src: Seq<char>) -> Result<Map<Seq<char>, Seq<char>>, (int, SpecError)> {
    split_from(spec_lines(src), 0, Seq::empty(), Map::empty())
}

} // verus!
