//! This module provides an extension trait for [`str`] to add a version of [`str::lines()`] that
//! also includes the byte offset of the start of the line, similar to [`str::char_indices()`].
use vstd::prelude::*;

use crate::lines;
use crate::span_str;
use crate::span_str::SpanText;
use crate::text;

verus! {

/// Strings that can be read line by line.
pub trait StrLines {
    /// The characters of the string.
    spec fn chars_of(&self) -> Seq<char>;

    /// The lines of the string, each with the byte offset of its start.
    fn line_indices(&self) -> (r: IndexedLines<'_>)
        ensures
            r@ == (SpanText { text: self.chars_of(), start: 0 }),
            r@.fits(),
    ;
}

impl StrLines for str {
    open spec fn chars_of(&self) -> Seq<char> {
        self@
    }

    fn line_indices(&self) -> (r: IndexedLines<'_>) {
        let len = text::text_len(self);
        IndexedLines { str: self, offset: 0 }
    }
}

/// A line, and the byte offset of its start.
#[derive(Debug, Clone, Copy, PartialEq, Eq)]
pub struct Line<'s> {
    offset: usize,
    line: &'s str,
}

impl<'s> View for Line<'s> {
    type V = SpanText;

    closed spec fn view(&self) -> SpanText {
        SpanText { text: self.line@, start: self.offset as int }
    }
}

impl<'s> Line<'s> {
    /// The byte offset of the start of the line.
    pub fn offset(self) -> (r: usize)
        ensures
            r == self@.start,
    {
        self.offset
    }
}

impl AsRef<str> for Line<'_> {
    fn as_ref(&self) -> (r: &str)
        ensures r@ == self@.text,
    {
        self.line
    }
}

impl std::ops::Deref for Line<'_> {
    type Target = str;

    fn deref(&self) -> (r: &str)
        ensures r@ == self@.text,
    {
        self.line
    }
}

/// The lines of a string that have not been handed out yet.
#[derive(Debug, Clone, Copy, PartialEq, Eq)]
pub struct IndexedLines<'s> {
    str: &'s str,
    offset: usize,
}

impl<'s> View for IndexedLines<'s> {
    type V = SpanText;

    closed spec fn view(&self) -> SpanText {
        SpanText { text: self.str@, start: self.offset as int }
    }
}

impl<'s> IndexedLines<'s> {
    /// Takes the first line.
    pub fn next(&mut self) -> (r: Option<Line<'s>>)
        requires
            old(self)@.fits(),
        ensures
            final(self)@.fits(),
            old(self)@.text.len() == 0 ==> r is None && *final(self) == *old(self),
            old(self)@.text.len() > 0 ==> {
                &&& r is Some
                &&& r->0@ == span_str::span_lines(old(self)@)[0]
                &&& r->0@.fits()
                &&& span_str::span_lines(final(self)@) == span_str::span_lines(
                    old(self)@,
                ).drop_first()
                &&& final(self)@ == span_str::first_line(old(self)@).1
                &&& final(self)@.text.len() < old(self)@.text.len()
            },
    {
        if self.str.is_empty() {
            None
        } else {
            let ghost s = self@;
            let ghost n = lines::line_len(s.text) as int;
            let lines::FirstLine { line, width, ended, rest } = lines::split_first_line(self.str);
            let found = Line { line, offset: self.offset };
            proof {
                text::lemma_leading_bound(s.text, text::not_newline());
                if ended {
                    text::lemma_byte_len_step(s.text, n);
                    span_str::law_cut_keeps_place(s, n + 1);
                    let whole = s.text.take(n);
                    text::lemma_byte_len_split(s.text, n);
                    if whole.len() > 0 && whole.last() == '\r' {
                        text::lemma_byte_len_split(whole, n - 1);
                        assert(whole.drop_last() =~= whole.take(n - 1));
                    }
                } else {
                    span_str::law_cut_keeps_place(s, n);
                    assert(rest@ =~= s.text.skip(n));
                }
                assert((seq![span_str::first_line(s).0] + span_str::span_lines(
                    span_str::first_line(s).1,
                )).drop_first() =~= span_str::span_lines(span_str::first_line(s).1));
            }
            let advance: usize = if ended {
                width + 1
            } else {
                width
            };
            self.str = rest;
            self.offset = self.offset + advance;
            Some(found)
        }
    }

    /// How many lines are left at least, and at most.
    pub fn size_hint(&self) -> (r: (usize, Option<usize>))
        ensures
            r.0 == (if self@.text.len() == 0 {
                0int
            } else {
                1
            }),
            r.1 is None,
    {
        let min: usize = if self.str.is_empty() {
            0
        } else {
            1
        };
        (min, None)
    }

    /// The last line.
    pub fn last(self) -> (r: Option<Line<'s>>)
        requires
            self@.fits(),
        ensures
            r is Some == (self@.text.len() > 0),
            r is Some ==> r->0@ == span_str::span_lines(self@).last(),
    {
        let mut lines = self;
        lines.next_back()
    }

    /// Takes the last line.
    pub fn next_back(&mut self) -> (r: Option<Line<'s>>)
        requires
            old(self)@.fits(),
        ensures
            final(self)@.fits(),
            old(self)@.text.len() == 0 ==> r is None && *final(self) == *old(self),
            old(self)@.text.len() > 0 ==> {
                &&& r is Some
                &&& r->0@ == span_str::span_lines(old(self)@).last()
                &&& span_str::span_lines(final(self)@) == span_str::span_lines(
                    old(self)@,
                ).drop_last()
                &&& final(self)@ == span_str::final_line(old(self)@).1
                &&& final(self)@.text.len() < old(self)@.text.len()
            },
    {
        if self.str.is_empty() {
            return None;
        }
        let ghost s = self@;
        let (prev, line) = lines::split_last_line(self.str);
        let idx = text::text_len(prev);
        self.str = prev;
        proof {
            lines::law_last_line(s.text);
            span_str::law_both_ends_agree(s);
            assert(span_str::span_lines(s).drop_last() =~= span_str::span_lines(
                span_str::final_line(s).1,
            ));
        }
        Some(Line { line, offset: self.offset + idx })
    }
}

} // verus!
