//! The tag lexer and validator: recognize at most one fragment tag on a
//! line and classify it, or reject the line with a typed error.

use vstd::prelude::*;
use vstd::string::StrSliceExecFns;
use crate::chars::{char_is_whitespace, is_whitespace_char};
use crate::error::{Error, SpecError};
use crate::names::{dedup_keep_first, dedup_names, is_valid_fragment_name, sorted_fragments,
    spec_sorted_join, spec_tokens, spec_valid_name, split_whitespace};
use crate::text::{find_first, lemma_find_characterization, spec_find, spec_starts_with,
    str_starts_with, str_views, trim_seq, trim_str};

verus! {

/// The four kinds of fragment tag keyword.
#[derive(Debug, Clone, Copy, PartialEq, Eq)]
pub enum FragmentType {
    Start,
    End,
    BlockStart,
    BlockEnd,
}

/// The pieces of a line holding a fragment tag, as slices of that line:
/// text before the open marker, the keyword kind, the text between keyword
/// and close marker, and the text after the close marker.
#[derive(Debug, Clone, PartialEq, Eq)]
pub struct LineParts<'a> {
    pub head: &'a str,
    pub fragment_type: FragmentType,
    pub data: &'a str,
    pub tail: &'a str,
}

/// Spec-level image of [`LineParts`].
pub struct SpecLineParts {
    pub head: Seq<char>,
    pub fragment_type: FragmentType,
    pub data: Seq<char>,
    pub tail: Seq<char>,
}

impl<'a> View for LineParts<'a> {
    type V = SpecLineParts;

    open spec fn view(&self) -> SpecLineParts {
        SpecLineParts {
            head: self.head@,
            fragment_type: self.fragment_type,
            data: self.data@,
            tail: self.tail@,
        }
    }
}

/// A classified fragment tag.  Start tags carry their names with
/// duplicates removed, in order of first occurrence; block tags carry the
/// head prefix so rewritten lines keep the original indentation.
#[derive(Debug, Clone, PartialEq, Eq)]
pub enum Tag<'a> {
    Start(StartTag<'a>),
    End(EndTag),
    StartBlock(StartBlockTag<'a>),
    EndBlock(EndBlockTag<'a>),
}

/// Opens one or more fragments at once.
#[derive(Debug, Clone, PartialEq, Eq)]
pub struct StartTag<'a> {
    pub fragments: Vec<&'a str>,
}

/// Closes the innermost open frame.
#[derive(Debug, Clone, PartialEq, Eq)]
pub struct EndTag;

/// Opens one fragment and rewrites the line to a block-open tag.
#[derive(Debug, Clone, PartialEq, Eq)]
pub struct StartBlockTag<'a> {
    pub prefix: &'a str,
    pub fragment: &'a str,
}

/// Closes the innermost open frame and rewrites the line to a block-close
/// tag.
#[derive(Debug, Clone, PartialEq, Eq)]
pub struct EndBlockTag<'a> {
    pub prefix: &'a str,
}

/// Spec-level image of [`Tag`].
pub enum SpecTag {
    Start(Seq<Seq<char>>),
    End,
    StartBlock(Seq<char>, Seq<char>),
    EndBlock(Seq<char>),
}

impl<'a> View for Tag<'a> {
    type V = SpecTag;

    open spec fn view(&self) -> SpecTag {
        match self {
            Tag::Start(t) => SpecTag::Start(str_views(t.fragments@)),
            Tag::End(_) => SpecTag::End,
            Tag::StartBlock(t) => SpecTag::StartBlock(t.prefix@, t.fragment@),
            Tag::EndBlock(t) => SpecTag::EndBlock(t.prefix@),
        }
    }
}

/// What the lexer and validator make of one line: ordinary content, a
/// valid tag, or a violation.
pub enum SpecLineClass {
    Content,
    Tagged(SpecTag),
    Fail(SpecError),
}

/// The keyword at the start of `s`, tried longest first so that
/// `fragment-block` wins over its prefix `fragment`, with the length
/// consumed.
pub open spec fn spec_keyword(s: Seq<char>) -> Option<(FragmentType, int)> {
    if spec_starts_with(s, "fragment-block"@) {
        Some((FragmentType::BlockStart, "fragment-block"@.len() as int))
    } else if spec_starts_with(s, "endfragment-block"@) {
        Some((FragmentType::BlockEnd, "endfragment-block"@.len() as int))
    } else if spec_starts_with(s, "fragment"@) {
        Some((FragmentType::Start, "fragment"@.len() as int))
    } else if spec_starts_with(s, "endfragment"@) {
        Some((FragmentType::End, "endfragment"@.len() as int))
    } else {
        None
    }
}

/// The lexer: split `line` at the first open marker, require one
/// whitespace character, a keyword, one more whitespace character, and a
/// close marker; anything else makes the line ordinary content.
pub open spec fn spec_parse_base(line: Seq<char>, open: Seq<char>, close: Seq<char>) -> Option<
    SpecLineParts,
> {
    match spec_find(line, open) {
        None => None,
        Some(oi) => {
            let head = line.take(oi);
            let rest = line.skip(oi + open.len());
            if rest.len() == 0 || !is_whitespace_char(rest[0]) {
                None
            } else {
                let rest1 = rest.skip(1);
                match spec_keyword(rest1) {
                    None => None,
                    Some((ft, klen)) => {
                        let rest2 = rest1.skip(klen);
                        if rest2.len() == 0 || !is_whitespace_char(rest2[0]) {
                            None
                        } else {
                            let rest3 = rest2.skip(1);
                            match spec_find(rest3, close) {
                                None => None,
                                Some(ci) => Some(
                                    SpecLineParts {
                                        head,
                                        fragment_type: ft,
                                        data: rest3.take(ci),
                                        tail: rest3.skip(ci + close.len()),
                                    },
                                ),
                            }
                        }
                    },
                }
            }
        },
    }
}

/// The names of `data` that are not valid fragment names, in order.
pub open spec fn invalid_names_of(names: Seq<Seq<char>>) -> Seq<Seq<char>>
    decreases names.len(),
{
    if names.len() == 0 {
        Seq::empty()
    } else {
        let d = invalid_names_of(names.drop_last());
        if !spec_valid_name(names.last()) {
            d.push(names.last())
        } else {
            d
        }
    }
}

/// The validator on top of the lexer: a tag must occupy its line alone,
/// start tags need at least one valid name, block-start tags exactly one,
/// and end tags none.
pub open spec fn spec_classify(line: Seq<char>, open: Seq<char>, close: Seq<char>) -> SpecLineClass {
    match spec_parse_base(line, open, close) {
        None => SpecLineClass::Content,
        Some(p) => {
            if trim_seq(p.head).len() != 0 {
                SpecLineClass::Fail(SpecError::LeadingContent(p.head))
            } else if trim_seq(p.tail).len() != 0 {
                SpecLineClass::Fail(SpecError::TrailingContent(p.tail))
            } else if p.fragment_type is Start || p.fragment_type is BlockStart {
                if trim_seq(p.data).len() == 0 {
                    SpecLineClass::Fail(SpecError::StartTagWithoutData)
                } else {
                    let names = dedup_keep_first(spec_tokens(p.data));
                    let invalid = invalid_names_of(names);
                    if invalid.len() > 0 {
                        SpecLineClass::Fail(
                            SpecError::InvalidFragmentName(spec_sorted_join(invalid)),
                        )
                    } else if p.fragment_type is Start {
                        SpecLineClass::Tagged(SpecTag::Start(names))
                    } else if names.len() > 1 {
                        SpecLineClass::Fail(SpecError::MultipleNamesBlock(spec_sorted_join(names)))
                    } else if names.len() == 0 {
                        SpecLineClass::Fail(SpecError::UnnamedBlock)
                    } else {
                        SpecLineClass::Tagged(SpecTag::StartBlock(p.head, names[0]))
                    }
                }
            } else if trim_seq(p.data).len() != 0 {
                SpecLineClass::Fail(SpecError::EndTagWithData(p.data))
            } else if p.fragment_type is End {
                SpecLineClass::Tagged(SpecTag::End)
            } else {
                SpecLineClass::Tagged(SpecTag::EndBlock(p.head))
            }
        },
    }
}

/// The names carried by a start tag never repeat.
pub proof fn lemma_classify_start_distinct(line: Seq<char>, open: Seq<char>, close: Seq<char>)
    ensures
        match spec_classify(line, open, close) {
            SpecLineClass::Tagged(SpecTag::Start(names)) => forall|i: int, j: int|
                0 <= i < j < names.len() ==> names[i] != names[j],
            _ => true,
        },
{
    if let Some(p) = spec_parse_base(line, open, close) {
        crate::names::lemma_dedup_distinct(spec_tokens(p.data));
    }
}

/// The names among `names` that are not valid fragment names.
fn collect_invalid<'a>(names: &Vec<&'a str>) -> (r: Vec<&'a str>)
    ensures
        str_views(r@) == invalid_names_of(str_views(names@)),
{
    let mut res: Vec<&'a str> = Vec::new();
    let mut i: usize = 0;
    proof {
        assert(str_views(names@).take(0) =~= Seq::<Seq<char>>::empty());
        assert(str_views(res@) =~= invalid_names_of(str_views(names@).take(0)));
    }
    while i < names.len()
        invariant
            i <= names@.len(),
            str_views(res@) == invalid_names_of(str_views(names@).take(i as int)),
        decreases names@.len() - i,
    {
        let x = names[i];
        proof {
            let tv = str_views(names@);
            assert(tv.take(i + 1).drop_last() =~= tv.take(i as int));
            assert(tv.take(i + 1).last() == x@);
        }
        if !is_valid_fragment_name(x) {
            proof {
                assert(str_views(res@.push(x)) =~= str_views(res@).push(x@));
            }
            res.push(x);
        }
        i += 1;
    }
    proof {
        assert(str_views(names@).take(names@.len() as int) =~= str_views(names@));
    }
    res
}

/// Recognize the fragment tag on `line`, if any, against the given
/// open/close marker pair.  Ordinary content lines yield `Ok(None)`.
pub fn parse_base<'l>(line: &'l str, tag_markers: (&str, &str)) -> (r: Option<LineParts<'l>>)
    ensures
        match r {
            Some(p) => spec_parse_base(line@, tag_markers.0@, tag_markers.1@) == Some(p@),
            None => spec_parse_base(line@, tag_markers.0@, tag_markers.1@) is None,
        },
{
    let (open, close) = tag_markers;
    let llen = line.unicode_len();
    let olen = open.unicode_len();
    let oi = match find_first(line, open) {
        Some(i) => i,
        None => {
            return None;
        },
    };
    proof {
        lemma_find_characterization(line@, open@);
    }
    let head = line.substring_char(0, oi);
    let rest = line.substring_char(oi + olen, llen);
    proof {
        assert(head@ =~= line@.take(oi as int));
        assert(rest@ =~= line@.skip(oi + open@.len()));
    }
    let rlen = rest.unicode_len();
    if rlen == 0 || !char_is_whitespace(rest.get_char(0)) {
        return None;
    }
    let rest1 = rest.substring_char(1, rlen);
    proof {
        assert(rest1@ =~= rest@.skip(1));
    }
    let (ft, klen) = if str_starts_with(rest1, "fragment-block") {
        (FragmentType::BlockStart, "fragment-block".unicode_len())
    } else if str_starts_with(rest1, "endfragment-block") {
        (FragmentType::BlockEnd, "endfragment-block".unicode_len())
    } else if str_starts_with(rest1, "fragment") {
        (FragmentType::Start, "fragment".unicode_len())
    } else if str_starts_with(rest1, "endfragment") {
        (FragmentType::End, "endfragment".unicode_len())
    } else {
        return None;
    };
    proof {
        assert(spec_keyword(rest1@) == Some((ft, klen as int)));
    }
    let r1len = rest1.unicode_len();
    let rest2 = rest1.substring_char(klen, r1len);
    proof {
        assert(rest2@ =~= rest1@.skip(klen as int));
    }
    let r2len = rest2.unicode_len();
    if r2len == 0 || !char_is_whitespace(rest2.get_char(0)) {
        return None;
    }
    let rest3 = rest2.substring_char(1, r2len);
    proof {
        assert(rest3@ =~= rest2@.skip(1));
    }
    let ci = match find_first(rest3, close) {
        Some(i) => i,
        None => {
            return None;
        },
    };
    proof {
        lemma_find_characterization(rest3@, close@);
    }
    let r3len = rest3.unicode_len();
    let clen = close.unicode_len();
    let data = rest3.substring_char(0, ci);
    let tail = rest3.substring_char(ci + clen, r3len);
    proof {
        assert(data@ =~= rest3@.take(ci as int));
        assert(tail@ =~= rest3@.skip(ci + close@.len()));
    }
    Some(LineParts { head, fragment_type: ft, data, tail })
}

/// Recognize and validate the fragment tag on `line`: `Ok(None)` for an
/// ordinary content line, `Ok(Some(tag))` for a well-formed tag standing
/// alone on its line, and the specific violation otherwise.
pub fn parse_fragment_tag<'l>(line: &'l str, tag_markers: (&str, &str)) -> (r: Result<
    Option<Tag<'l>>,
    Error,
>)
    ensures
        match r {
            Ok(None) => spec_classify(line@, tag_markers.0@, tag_markers.1@)
                is Content,
            Ok(Some(tag)) => spec_classify(line@, tag_markers.0@, tag_markers.1@)
                == SpecLineClass::Tagged(tag@),
            Err(e) => spec_classify(line@, tag_markers.0@, tag_markers.1@)
                == SpecLineClass::Fail(e@),
        },
{
    let parts = match parse_base(line, tag_markers) {
        Some(p) => p,
        None => {
            return Ok(None);
        },
    };
    if trim_str(parts.head).unicode_len() != 0 {
        return Err(Error::LeadingContent(parts.head.to_owned()));
    }
    if trim_str(parts.tail).unicode_len() != 0 {
        return Err(Error::TrailingContent(parts.tail.to_owned()));
    }
    match parts.fragment_type {
        FragmentType::Start | FragmentType::BlockStart => {
            if trim_str(parts.data).unicode_len() == 0 {
                return Err(Error::StartTagWithoutData);
            }
            let toks = split_whitespace(parts.data);
            let names = dedup_names(&toks);
            let invalid = collect_invalid(&names);
            if invalid.len() > 0 {
                return Err(Error::InvalidFragmentName(sorted_fragments(&invalid)));
            }
            match parts.fragment_type {
                FragmentType::Start => Ok(Some(Tag::Start(StartTag { fragments: names }))),
                _ => {
                    if names.len() > 1 {
                        Err(Error::MultipleNamesBlock(sorted_fragments(&names)))
                    } else if names.len() == 0 {
                        Err(Error::UnnamedBlock)
                    } else {
                        let fragment = names[0];
                        Ok(
                            Some(
                                Tag::StartBlock(StartBlockTag { prefix: parts.head, fragment }),
                            ),
                        )
                    }
                },
            }
        },
        FragmentType::End => {
            if trim_str(parts.data).unicode_len() != 0 {
                return Err(Error::EndTagWithData(parts.data.to_owned()));
            }
            Ok(Some(Tag::End(EndTag)))
        },
        FragmentType::BlockEnd => {
            if trim_str(parts.data).unicode_len() != 0 {
                return Err(Error::EndTagWithData(parts.data.to_owned()));
            }
            Ok(Some(Tag::EndBlock(EndBlockTag { prefix: parts.head })))
        },
    }
}

} // verus!
