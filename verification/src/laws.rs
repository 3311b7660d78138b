//! Laws relating the two traversals.
//!
//! These public proof functions state, over the spec-level model that the
//! drivers' contracts are phrased in, that splitting agrees with
//! filtering fragment by fragment, that filtering for the root renders
//! every line's image in order, and that both computations are pure
//! functions of the input text.

use vstd::prelude::*;
use crate::error::SpecError;
use crate::lines::{spec_ending, spec_lines};
use crate::model::{block_close_line, block_open_line, filter_from, spec_filter, spec_split,
    split_from};
use crate::stack::{active_of, lemma_active_root, spec_done, spec_pop, spec_push};
use crate::tag::{spec_classify, SpecLineClass, SpecTag};
use crate::tmap::{get_or_empty, multi_append};

verus! {

/// One induction step and onward: filtering for `f` with the text
/// accumulated so far tracks the entry for `f` in the split's
/// accumulator, and both traversals fail identically.
proof fn lemma_split_filter_from(
    lines: Seq<Seq<char>>,
    i: int,
    frames: Seq<Seq<Seq<char>>>,
    m: Map<Seq<char>, Seq<char>>,
    f: Seq<char>,
)
    requires
        0 <= i <= lines.len(),
    ensures
        match (split_from(lines, i, frames, m), filter_from(
            lines,
            i,
            frames,
            get_or_empty(m, f),
            f,
        )) {
            (Ok(m2), Ok(out)) => out == get_or_empty(m2, f),
            (Err(e1), Err(e2)) => e1 == e2,
            _ => false,
        },
    decreases lines.len() - i,
{
    if i >= lines.len() {
    } else {
        let line = lines[i];
        let acc = get_or_empty(m, f);
        match spec_classify(line, "{%"@, "%}"@) {
            SpecLineClass::Fail(_) => {},
            SpecLineClass::Content => {
                let s = active_of(frames);
                let m2 = multi_append(m, s, line);
                if s.contains(f) {
                    assert(get_or_empty(m2, f) == acc + line);
                } else {
                    assert(get_or_empty(m2, f) == acc);
                    assert(acc + Seq::<char>::empty() =~= acc);
                }
                lemma_split_filter_from(lines, i + 1, frames, m2, f);
            },
            SpecLineClass::Tagged(tag) => match tag {
                SpecTag::Start(names) => match spec_push(frames, names) {
                    Err(_) => {},
                    Ok(fr) => {
                        lemma_split_filter_from(lines, i + 1, fr, m, f);
                    },
                },
                SpecTag::End => match spec_pop(frames) {
                    Err(_) => {},
                    Ok((fr, _)) => {
                        lemma_split_filter_from(lines, i + 1, fr, m, f);
                    },
                },
                SpecTag::StartBlock(head, name) => match spec_push(frames, seq![name]) {
                    Err(_) => {},
                    Ok(fr) => {
                        let out = block_open_line(head, name, spec_ending(line));
                        let s = active_of(fr);
                        let m2 = multi_append(m, s, out);
                        if s.contains(f) {
                            assert(get_or_empty(m2, f) == acc + out);
                        } else {
                            assert(get_or_empty(m2, f) == acc);
                            assert(acc + Seq::<char>::empty() =~= acc);
                        }
                        lemma_split_filter_from(lines, i + 1, fr, m2, f);
                    },
                },
                SpecTag::EndBlock(head) => match spec_pop(frames) {
                    Err(_) => {},
                    Ok((fr, act)) => {
                        let out = block_close_line(head, spec_ending(line));
                        let m2 = multi_append(m, act, out);
                        if act.contains(f) {
                            assert(get_or_empty(m2, f) == acc + out);
                        } else {
                            assert(get_or_empty(m2, f) == acc);
                            assert(acc + Seq::<char>::empty() =~= acc);
                        }
                        lemma_split_filter_from(lines, i + 1, fr, m2, f);
                    },
                },
            },
        }
    }
}

/// Splitting agrees with filtering, fragment by fragment: on any input
/// the two either fail with the same error at the same line, or both
/// succeed with the split assigning to every name exactly what filtering
/// for that name returns — names without an entry filter to the empty
/// text.
pub proof fn lemma_split_matches_filter(src: Seq<char>, fragment: Seq<char>)
    ensures
        match (spec_split(src), spec_filter(src, fragment)) {
            (Ok(m), Ok(out)) => (m.dom().contains(fragment) ==> m[fragment] == out) && (
            !m.dom().contains(fragment) ==> out == Seq::<char>::empty()),
            (Err(e1), Err(e2)) => e1 == e2,
            _ => false,
        },
{
    let m0 = Map::<Seq<char>, Seq<char>>::empty();
    assert(get_or_empty(m0, fragment) == Seq::<char>::empty());
    lemma_split_filter_from(spec_lines(src), 0, Seq::empty(), m0, fragment);
}

/// The text a line contributes to the root fragment: content lines
/// verbatim, fragment tag lines nothing, block tag lines their
/// rewriting.
pub open spec fn line_image(line: Seq<char>) -> Seq<char> {
    match spec_classify(line, "{%"@, "%}"@) {
        SpecLineClass::Content => line,
        SpecLineClass::Tagged(tag) => match tag {
            SpecTag::Start(_) => Seq::empty(),
            SpecTag::End => Seq::empty(),
            SpecTag::StartBlock(head, name) => block_open_line(head, name, spec_ending(line)),
            SpecTag::EndBlock(head) => block_close_line(head, spec_ending(line)),
        },
        SpecLineClass::Fail(_) => Seq::empty(),
    }
}

/// The images of the lines from `i` onward, concatenated in order.
pub open spec fn root_render(lines: Seq<Seq<char>>, i: int) -> Seq<char>
    decreases lines.len() - i,
{
    if i < 0 || i >= lines.len() {
        Seq::empty()
    } else {
        line_image(lines[i]) + root_render(lines, i + 1)
    }
}

/// Filtering for the root emits every line's image, whatever the stack
/// holds: the root name is always active.
proof fn lemma_filter_root_from(
    lines: Seq<Seq<char>>,
    i: int,
    frames: Seq<Seq<Seq<char>>>,
    acc: Seq<char>,
)
    requires
        0 <= i <= lines.len(),
    ensures
        filter_from(lines, i, frames, acc, Seq::<char>::empty()) matches Ok(out) ==> out == acc
            + root_render(lines, i),
    decreases lines.len() - i,
{
    let root = Seq::<char>::empty();
    if i >= lines.len() {
        assert(acc + Seq::<char>::empty() =~= acc);
    } else {
        let line = lines[i];
        lemma_active_root(frames);
        match spec_classify(line, "{%"@, "%}"@) {
            SpecLineClass::Fail(_) => {},
            SpecLineClass::Content => {
                lemma_filter_root_from(lines, i + 1, frames, acc + line);
                assert((acc + line) + root_render(lines, i + 1) =~= acc + (line + root_render(
                    lines,
                    i + 1,
                )));
            },
            SpecLineClass::Tagged(tag) => match tag {
                SpecTag::Start(names) => {
                    if let Ok(fr) = spec_push(frames, names) {
                        lemma_filter_root_from(lines, i + 1, fr, acc);
                        assert(acc + (Seq::<char>::empty() + root_render(lines, i + 1)) =~= acc
                            + root_render(lines, i + 1));
                    }
                },
                SpecTag::End => {
                    if let Ok((fr, _)) = spec_pop(frames) {
                        lemma_filter_root_from(lines, i + 1, fr, acc);
                        assert(acc + (Seq::<char>::empty() + root_render(lines, i + 1)) =~= acc
                            + root_render(lines, i + 1));
                    }
                },
                SpecTag::StartBlock(head, name) => {
                    if let Ok(fr) = spec_push(frames, seq![name]) {
                        let out = block_open_line(head, name, spec_ending(line));
                        lemma_active_root(fr);
                        lemma_filter_root_from(lines, i + 1, fr, acc + out);
                        assert((acc + out) + root_render(lines, i + 1) =~= acc + (out
                            + root_render(lines, i + 1)));
                    }
                },
                SpecTag::EndBlock(head) => {
                    if let Ok((fr, act)) = spec_pop(frames) {
                        let out = block_close_line(head, spec_ending(line));
                        lemma_filter_root_from(lines, i + 1, fr, acc + out);
                        assert((acc + out) + root_render(lines, i + 1) =~= acc + (out
                            + root_render(lines, i + 1)));
                    }
                },
            },
        }
    }
}

/// The round-trip shape of the root fragment: when filtering for the
/// root succeeds, its output is the in-order concatenation of every
/// line's image — content lines byte for byte with their original
/// terminators, fragment tag lines removed, block tag lines rewritten
/// and never removed.  Together with `lines::lemma_lines_concat`, which
/// recombines the line slices into the original input, this pins the
/// round trip down to the exact bytes.
pub proof fn lemma_root_filter_renders_all(src: Seq<char>)
    ensures
        spec_filter(src, Seq::<char>::empty()) matches Ok(out) ==> out == root_render(
            spec_lines(src),
            0,
        ),
{
    lemma_filter_root_from(spec_lines(src), 0, Seq::empty(), Seq::empty());
    if spec_filter(src, Seq::<char>::empty()) is Ok {
        assert(Seq::<char>::empty() + root_render(spec_lines(src), 0) =~= root_render(
            spec_lines(src),
            0,
        ));
    }
}

/// Filtering is pure: its result is a function of the input text and
/// fragment name alone, so repeated runs yield identical output, as the
/// contract of `filter_template` ties every run to `spec_filter`.
pub proof fn lemma_filter_pure(
    src: Seq<char>,
    fragment: Seq<char>,
    r1: Result<Seq<char>, (int, SpecError)>,
    r2: Result<Seq<char>, (int, SpecError)>,
)
    requires
        r1 == spec_filter(src, fragment),
        r2 == spec_filter(src, fragment),
    ensures
        r1 == r2,
{
}

/// Splitting is pure in the same way, through the contract of
/// `split_templates`.
pub proof fn lemma_split_pure(
    src: Seq<char>,
    r1: Result<Map<Seq<char>, Seq<char>>, (int, SpecError)>,
    r2: Result<Map<Seq<char>, Seq<char>>, (int, SpecError)>,
)
    requires
        r1 == spec_split(src),
        r2 == spec_split(src),
    ensures
        r1 == r2,
{
}

} // verus!
