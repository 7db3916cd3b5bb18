//! Strings that know where they stand in the text that they were cut from.
use std::ops::Range;

use vstd::prelude::*;
use vstd::utf8::*;

use crate::lines;
use crate::text;

verus! {

/// A byte position.
pub type Offset = usize;

/// A range of byte positions.
pub type Span = Range<Offset>;

/// The span from `start` to `end`.
pub open spec fn span_of(start: int, end: int) -> Span {
    Range { start: start as usize, end: end as usize }
}

/// The same span once more.
pub fn copy_span(span: &Span) -> (r: Span)
    ensures
        r == *span,
{
    Range { start: span.start, end: span.end }
}

/// One end of a range of byte positions inside a string.
#[derive(Clone, Copy, Debug, PartialEq, Eq)]
pub enum Bound {
    Included(usize),
    Excluded(usize),
    Unbounded,
}

impl Bound {
    /// The first position in a range that starts here.
    pub open spec fn first(self) -> int {
        match self {
            Bound::Included(n) => n as int,
            Bound::Excluded(n) => n + 1,
            Bound::Unbounded => 0,
        }
    }

    /// The position behind a range that ends here, in a string of `len` bytes.
    pub open spec fn end(self, len: nat) -> int {
        match self {
            Bound::Included(n) => n + 1,
            Bound::Excluded(n) => n as int,
            Bound::Unbounded => len as int,
        }
    }
}

/// Characters together with the byte position at which they start.
pub struct SpanText {
    pub text: Seq<char>,
    pub start: int,
}

impl SpanText {
    /// The byte position behind the characters.
    pub open spec fn end(self) -> int {
        self.start + text::byte_len(self.text)
    }

    /// The byte positions can be counted by a `usize`.
    pub open spec fn fits(self) -> bool {
        0 <= self.start && self.end() <= usize::MAX
    }

    /// The bytes from the first to behind the last character.
    pub open spec fn span(self) -> Span {
        span_of(self.start, self.end())
    }

    /// The first `k` characters.
    pub open spec fn take(self, k: int) -> SpanText {
        SpanText { text: self.text.take(k), start: self.start }
    }

    /// All but the first `k` characters.
    pub open spec fn skip(self, k: int) -> SpanText {
        SpanText {
            text: self.text.skip(k),
            start: self.start + text::byte_len(self.text.take(k)),
        }
    }

    /// What is left without leading white space.
    pub open spec fn trim_start(self) -> SpanText {
        self.skip(text::leading(self.text, text::spaces()) as int)
    }

    /// What is left without white space on either side.
    pub open spec fn trim(self) -> SpanText {
        SpanText { text: text::trim_end(self.trim_start().text), start: self.trim_start().start }
    }
}

/// A part of a text keeps its place in it: cutting characters off the front leaves the end where
/// it was, and cutting them off the back leaves the start where it was.
pub proof fn law_cut_keeps_place(s: SpanText, k: int)
    requires
        0 <= k <= s.text.len(),
    ensures
        s.skip(k).end() == s.end(),
        s.take(k).start == s.start,
        s.take(k).end() == s.skip(k).start,
        s.fits() ==> s.take(k).fits() && s.skip(k).fits(),
{
    text::lemma_byte_len_split(s.text, k);
}

/// Trimming leaves no white space on either side, takes nothing but white space away, and what is
/// left keeps its place.
pub proof fn law_trim(s: SpanText)
    ensures
        ({
            let t = s.trim();
            &&& t.text.len() > 0 ==> !text::white_space(t.text[0]) && !text::white_space(
                t.text.last(),
            )
            &&& exists|a: int, b: int|
                {
                    &&& 0 <= a <= b <= s.text.len()
                    &&& t.text == #[trigger] s.text.subrange(a, b)
                    &&& t.start == s.start + text::byte_len(s.text.take(a))
                    &&& forall|j: int|
                        0 <= j < a || b <= j < s.text.len() ==> text::white_space(
                            #[trigger] s.text[j],
                        )
                }
            &&& s.fits() ==> t.fits()
        }),
{
    let a = text::leading(s.text, text::spaces()) as int;
    text::lemma_leading_bound(s.text, text::spaces());
    let u = s.trim_start();
    text::lemma_trailing_bound(u.text, text::spaces());
    let n = u.text.len() - text::trailing(u.text, text::spaces());
    let b = a + n;
    let t = s.trim();
    assert(t.text =~= s.text.subrange(a, b));
    assert forall|j: int| 0 <= j < a || b <= j < s.text.len() implies text::white_space(
        #[trigger] s.text[j],
    ) by {
        if j < a {
            assert(text::spaces()(s.text[j]));
        } else {
            assert(s.text[j] == u.text[j - a]);
            assert(text::spaces()(u.text[j - a]));
        }
    }
    if t.text.len() > 0 {
        assert(a < s.text.len());
        assert(t.text[0] == s.text[a]);
        assert(!text::spaces()(s.text[a]));
        assert(t.text.last() == u.text[n - 1]);
        assert(!text::spaces()(u.text[n - 1]));
    }
    law_cut_keeps_place(s, a);
    text::lemma_byte_len_split(u.text, n);
}

/// A string together with the byte position at which it starts.
#[derive(Clone, Copy)]
pub struct SpanStr<'s> {
    str: &'s str,
    offset: Offset,
}

impl<'s> View for SpanStr<'s> {
    type V = SpanText;

    closed spec fn view(&self) -> SpanText {
        SpanText { text: self.str@, start: self.offset as int }
    }
}

impl<'s> SpanStr<'s> {
    /// Returns a string with its span starting at byte position zero.
    pub fn new(str: &'s str) -> (r: Self)
        ensures
            r@ == (SpanText { text: str@, start: 0 }),
            r@.fits(),
    {
        let len = text::text_len(str);
        Self { str, offset: 0 }
    }

    /// Returns a string with its span starting at the given byte position.
    pub fn with_offset(str: &'s str, offset: Offset) -> (r: Self)
        ensures
            r@ == (SpanText { text: str@, start: offset as int }),
    {
        Self { str, offset }
    }

    /// The byte positions that the string covers.
    pub fn span(self) -> (r: Span)
        requires
            self@.fits(),
        ensures
            r == self@.span(),
            r.start == self@.start,
            r.end == self@.end(),
    {
        let len = text::text_len(self.str);
        Range { start: self.offset, end: self.offset + len }
    }

    /// The string itself.
    pub fn as_str(self) -> (r: &'s str)
        ensures
            r@ == self@.text,
    {
        self.str
    }

    /// The string in a buffer of its own.
    pub fn to_string(self) -> (r: String)
        ensures
            r@ == self@.text,
    {
        self.str.to_owned()
    }

    /// Whether the string is empty.
    pub fn is_empty(self) -> (r: bool)
        ensures
            r == (self@.text.len() == 0),
    {
        self.str.is_empty()
    }

    /// The length of the string in bytes.
    pub fn len(self) -> (r: usize)
        ensures
            r == text::byte_len(self@.text),
    {
        text::text_len(self.str)
    }

    /// Cuts off leading white space. A string of nothing but white space leaves the empty string
    /// at its end.
    pub fn trim_start(self) -> (r: Self)
        requires
            self@.fits(),
        ensures
            r@ == self@.trim_start(),
            r@.fits(),
    {
        let ghost s = self@.text;
        match text::find(
            self.str,
            |c: char| -> (b: bool)
                ensures
                    b == !text::white_space(c)
                { !text::is_white_space(c) },
        ) {
            Some((idx, k)) => {
                proof {
                    text::lemma_leading(s, text::spaces(), k@);
                    law_cut_keeps_place(self@, k@);
                }
                let (_, trimmed) = self.split_at(idx, k);
                trimmed
            },
            None => {
                proof {
                    text::lemma_leading(s, text::spaces(), s.len() as int);
                    law_cut_keeps_place(self@, s.len() as int);
                    assert(s.take(s.len() as int) =~= s);
                }
                let len = text::text_len(self.str);
                let (_, trimmed) = self.split_at(len, Ghost(s.len() as int));
                trimmed
            },
        }
    }

    /// Cuts off leading and trailing white space.
    pub fn trim(self) -> (r: Self)
        requires
            self@.fits(),
        ensures
            r@ == self@.trim(),
            r@.fits(),
    {
        let SpanStr { str, offset } = self.trim_start();
        proof {
            law_trim(self@);
        }
        match text::find_last(
            str,
            |c: char| -> (b: bool)
                ensures
                    b == !text::white_space(c)
                { !text::is_white_space(c) },
        ) {
            Some((end, k)) => {
                proof {
                    text::lemma_trailing(str@, text::spaces(), k@);
                }
                let (trimmed, _) = text::split_text(str, end, k);
                SpanStr { str: trimmed, offset }
            },
            None => {
                proof {
                    text::lemma_trailing(str@, text::spaces(), 0);
                    text::lemma_byte_len_empty(str@.take(0));
                }
                let (trimmed, _) = text::split_text(str, 0, Ghost(0int));
                SpanStr { str: trimmed, offset }
            },
        }
    }

    /// What follows `prefix`, if the string begins with it.
    pub fn strip_prefix(self, prefix: &str) -> (r: Option<Self>)
        requires
            self@.fits(),
        ensures
            match r {
                Some(rest) => {
                    &&& text::begins_with(self@.text, prefix@)
                    &&& rest@ == self@.skip(prefix@.len() as int)
                    &&& rest@.fits()
                },
                None => !text::begins_with(self@.text, prefix@),
            },
    {
        let len = text::text_len(prefix);
        match text::strip_text(self.str, prefix) {
            Some(rest) => {
                proof {
                    law_cut_keeps_place(self@, prefix@.len() as int);
                }
                Some(SpanStr { str: rest, offset: self.offset + len })
            },
            None => None,
        }
    }

    /// Splits the string before the first character that `predicate` accepts.
    pub fn split_once<F: Fn(char) -> bool>(self, predicate: F) -> (r: Option<(Self, Self)>)
        requires
            self@.fits(),
            forall|c: char| call_requires(predicate, (c,)),
        ensures
            match r {
                Some((a, b)) => exists|k: int|
                    {
                        &&& 0 <= k < self@.text.len()
                        &&& a@ == #[trigger] self@.take(k)
                        &&& b@ == self@.skip(k)
                        &&& a@.fits()
                        &&& b@.fits()
                        &&& call_ensures(predicate, (self@.text[k],), true)
                        &&& forall|j: int|
                            0 <= j < k ==> call_ensures(
                                predicate,
                                (#[trigger] self@.text[j],),
                                false,
                            )
                    },
                None => forall|j: int|
                    0 <= j < self@.text.len() ==> call_ensures(
                        predicate,
                        (#[trigger] self@.text[j],),
                        false,
                    ),
            },
    {
        match text::find(self.str, predicate) {
            Some((index, k)) => {
                proof {
                    law_cut_keeps_place(self@, k@);
                }
                Some(self.split_at(index, k))
            },
            None => None,
        }
    }

    /// Splits the string after its first `k` characters, which take `index` bytes.
    fn split_at(self, index: usize, Ghost(k): Ghost<int>) -> (r: (Self, Self))
        requires
            self@.fits(),
            0 <= k <= self@.text.len(),
            index == text::byte_len(self@.text.take(k)),
        ensures
            r.0@ == self@.take(k),
            r.1@ == self@.skip(k),
    {
        proof {
            law_cut_keeps_place(self@, k);
        }
        let (str_a, str_b) = text::split_text(self.str, index, Ghost(k));
        let a = SpanStr { str: str_a, offset: self.offset };
        let b = SpanStr { str: str_b, offset: self.offset + index };
        (a, b)
    }

    /// The part of the string between two byte positions inside it.
    pub fn get(self, start: Bound, end: Bound) -> (r: Self)
        requires
            self@.fits(),
            0 <= start.first() <= end.end(text::byte_len(self@.text)) <= text::byte_len(
                self@.text,
            ),
            is_char_boundary(encode_utf8(self@.text), start.first()),
            is_char_boundary(encode_utf8(self@.text), end.end(text::byte_len(self@.text))),
        ensures
            encode_utf8(r@.text) == encode_utf8(self@.text).subrange(
                start.first(),
                end.end(text::byte_len(self@.text)),
            ),
            r@.start == self@.start + start.first(),
            r@.fits(),
    {
        let len = text::text_len(self.str);
        let first: usize = match start {
            Bound::Included(n) => n,
            Bound::Excluded(n) => n + 1,
            Bound::Unbounded => 0,
        };
        let behind: usize = match end {
            Bound::Included(n) => n + 1,
            Bound::Excluded(n) => n,
            Bound::Unbounded => len,
        };
        let ghost bytes = encode_utf8(self.str@);
        let (front, _) = self.str.split_at(behind);
        proof {
            let cut = encode_utf8(front@);
            encode_utf8_valid_utf8(self.str@);
            encode_utf8_valid_utf8(front@);
            if first < behind {
                is_char_boundary_iff_not_is_continuation_byte(bytes, first as int);
                is_char_boundary_iff_not_is_continuation_byte(cut, first as int);
                assert(cut[first as int] == bytes[first as int]);
            } else {
                is_char_boundary_start_end_of_seq(cut);
            }
        }
        let (_, part) = front.split_at(first);
        assert(encode_utf8(part@) =~= bytes.subrange(first as int, behind as int));
        self.mk_offset_slice(start, part)
    }

    /// `str` placed where a range of this string with the given start is.
    fn mk_offset_slice<'a>(self, start: Bound, str: &'a str) -> (r: SpanStr<'a>)
        requires
            self@.start + start.first() <= usize::MAX,
        ensures
            r@ == (SpanText { text: str@, start: self@.start + start.first() }),
    {
        let offset: usize = match start {
            Bound::Included(n) => self.offset + n,
            Bound::Excluded(n) => self.offset + n + 1,
            Bound::Unbounded => self.offset,
        };
        SpanStr { str, offset }
    }

    /// The lines of the string.
    pub fn lines(self) -> (r: Lines<'s>)
        ensures
            r@ == self@,
    {
        Lines(self)
    }
}

impl<'s> AsRef<str> for SpanStr<'s> {
    fn as_ref(&self) -> (r: &str)
        ensures
            r@ == self@.text,
    {
        self.str
    }
}

/// The lines of a string that have not been handed out yet.
#[derive(Clone, Copy)]
pub struct Lines<'s>(SpanStr<'s>);

impl<'s> View for Lines<'s> {
    type V = SpanText;

    closed spec fn view(&self) -> SpanText {
        self.0@
    }
}

/// The first of the lines in `s`, and what is left behind it.
pub open spec fn first_line(s: SpanText) -> (SpanText, SpanText) {
    let n = lines::line_len(s.text) as int;
    if n < s.text.len() {
        (
            SpanText { text: lines::strip_return(s.text.take(n)), start: s.start },
            s.skip(n + 1),
        )
    } else {
        (s, s.skip(s.text.len() as int))
    }
}

/// The last of the lines in `s`, and what is left in front of it.
pub open spec fn final_line(s: SpanText) -> (SpanText, SpanText) {
    let before = lines::before_last_line(s.text);
    (
        SpanText { text: lines::last_line(s.text), start: s.start + text::byte_len(before) },
        SpanText { text: before, start: s.start },
    )
}

/// All the lines in `s`, first to last, each with the byte position of its start.
pub open spec fn span_lines(s: SpanText) -> Seq<SpanText>
    decreases s.text.len(),
{
    if s.text.len() == 0 {
        Seq::empty()
    } else {
        let (line, rest) = first_line(s);
        seq![line] + span_lines(rest)
    }
}

/// What `Lines` keeps of `s` when it hands out the first line. The position counts the bytes before
/// the line feed, and not the line feed; it stays where there is no line feed.
pub open spec fn left_behind(s: SpanText) -> SpanText {
    let n = lines::line_len(s.text) as int;
    SpanText {
        text: first_line(s).1.text,
        start: if n < s.text.len() {
            s.start + text::byte_len(s.text.take(n))
        } else {
            s.start
        },
    }
}

/// All the lines in `s` with the positions with which `Lines` hands them out first to last.
pub open spec fn handed_out(s: SpanText) -> Seq<SpanText>
    decreases s.text.len(),
{
    if s.text.len() == 0 {
        Seq::empty()
    } else {
        seq![first_line(s).0] + handed_out(left_behind(s))
    }
}

impl<'s> Lines<'s> {
    /// Takes the first line. The positions of the lines behind it do not count its line feed.
    pub fn next(&mut self) -> (r: Option<SpanStr<'s>>)
        requires
            old(self)@.fits(),
        ensures
            final(self)@.fits(),
            old(self)@.text.len() == 0 ==> r is None && *final(self) == *old(self),
            old(self)@.text.len() > 0 ==> {
                &&& r is Some
                &&& r->0@ == first_line(old(self)@).0
                &&& r->0@.fits()
                &&& final(self)@ == left_behind(old(self)@)
                &&& final(self)@.text.len() < old(self)@.text.len()
            },
    {
        let Lines(s) = *self;
        if s.is_empty() {
            None
        } else {
            let lines::FirstLine { line, width, ended, rest } = lines::split_first_line(s.str);
            proof {
                let n = lines::line_len(s.str@) as int;
                text::lemma_leading_bound(s.str@, text::not_newline());
                if ended {
                    let whole = s.str@.take(n);
                    if whole.len() > 0 && whole.last() == '\r' {
                        text::lemma_byte_len_split(whole, n - 1);
                        assert(whole.drop_last() =~= whole.take(n - 1));
                    }
                } else {
                    assert(rest@ =~= s.str@.skip(n));
                    text::lemma_byte_len_empty(rest@);
                }
            }
            let offset: usize = if ended {
                s.offset + width
            } else {
                s.offset
            };
            *self = Lines(SpanStr { str: rest, offset });
            Some(SpanStr { str: line, offset: s.offset })
        }
    }

    /// How many lines are left at least, and at most.
    pub fn size_hint(&self) -> (r: (usize, Option<usize>))
        ensures
            r.0 == (if self@.text.len() == 0 {
                0int
            } else {
                1
            }),
            r.1 is None,
    {
        let min: usize = if self.0.is_empty() {
            0
        } else {
            1
        };
        (min, None)
    }

    /// The last line.
    pub fn last(self) -> (r: Option<SpanStr<'s>>)
        requires
            self@.fits(),
        ensures
            r is Some == (self@.text.len() > 0),
            r is Some ==> r->0@ == final_line(self@).0 && r->0@.fits(),
    {
        let mut lines = self;
        lines.next_back()
    }

    /// Takes the last line.
    pub fn next_back(&mut self) -> (r: Option<SpanStr<'s>>)
        requires
            old(self)@.fits(),
        ensures
            final(self)@.fits(),
            old(self)@.text.len() == 0 ==> r is None && *final(self) == *old(self),
            old(self)@.text.len() > 0 ==> {
                &&& r is Some
                &&& r->0@ == final_line(old(self)@).0
                &&& r->0@.fits()
                &&& final(self)@ == final_line(old(self)@).1
                &&& final(self)@.text.len() < old(self)@.text.len()
            },
    {
        let Lines(SpanStr { str, offset }) = *self;
        if str.is_empty() {
            return None;
        }
        let (prev, line) = lines::split_last_line(str);
        proof {
            lines::law_last_line(str@);
        }
        let width = text::text_len(prev);
        *self = Lines(SpanStr { str: prev, offset });
        Some(SpanStr { str: line, offset: offset + width })
    }
}

/// Reading the lines forwards meets exactly the lines of the text.
pub proof fn law_lines_forwards(s: SpanText)
    requires
        s.text.len() > 0,
    ensures
        lines::lines_of(s.text) == seq![first_line(s).0.text] + lines::lines_of(
            first_line(s).1.text,
        ),
{
    text::lemma_leading_bound(s.text, text::not_newline());
    if lines::line_len(s.text) == s.text.len() {
        assert(lines::lines_of(Seq::<char>::empty()) =~= Seq::<Seq<char>>::empty());
        assert(seq![s.text] + Seq::<Seq<char>>::empty() =~= seq![s.text]);
    }
}

/// Whether the characters `line` stand in `s` at the byte position `at`.
pub open spec fn stands_at(s: SpanText, line: Seq<char>, at: int) -> bool {
    exists|k: int|
        {
            &&& 0 <= k <= s.text.len()
            &&& at == s.start + text::byte_len(#[trigger] s.text.take(k))
            &&& text::begins_with(s.text.skip(k), line)
        }
}

/// The lines in a text are all its lines, each with the position at which it stands.
pub proof fn law_forward_positions(s: SpanText)
    ensures
        span_lines(s).len() == lines::lines_of(s.text).len(),
        forall|i: int|
            0 <= i < span_lines(s).len() ==> {
                &&& (#[trigger] span_lines(s)[i]).text == lines::lines_of(s.text)[i]
                &&& stands_at(s, span_lines(s)[i].text, span_lines(s)[i].start)
            },
    decreases s.text.len(),
{
    if s.text.len() > 0 {
        let (line, rest) = first_line(s);
        let n = lines::line_len(s.text) as int;
        text::lemma_leading_bound(s.text, text::not_newline());
        law_lines_forwards(s);
        law_forward_positions(rest);
        assert forall|i: int| 0 <= i < span_lines(s).len() implies {
            &&& (#[trigger] span_lines(s)[i]).text == lines::lines_of(s.text)[i]
            &&& stands_at(s, span_lines(s)[i].text, span_lines(s)[i].start)
        } by {
            if i == 0 {
                assert(s.text.skip(0) =~= s.text);
                assert(s.text.take(line.text.len() as int) =~= line.text);
                text::lemma_byte_len_empty(s.text.take(0));
            } else {
                assert(span_lines(s)[i] == span_lines(rest)[i - 1]);
                let part = span_lines(rest)[i - 1];
                let k = choose|k: int|
                    {
                        &&& 0 <= k <= rest.text.len()
                        &&& part.start == rest.start + text::byte_len(
                            #[trigger] rest.text.take(k),
                        )
                        &&& text::begins_with(rest.text.skip(k), part.text)
                    };
                assert(n < s.text.len());
                let at = n + 1 + k;
                assert(s.text.take(at) =~= s.text.take(n + 1) + rest.text.take(k));
                text::lemma_encode_concat(s.text.take(n + 1), rest.text.take(k));
                assert(s.text.skip(at) =~= rest.text.skip(k));
            }
        }
    }
}

/// Reading backwards meets the lines that reading forwards meets, with the same positions.
pub proof fn law_both_ends_agree(s: SpanText)
    requires
        s.text.len() > 0,
    ensures
        span_lines(s) == span_lines(final_line(s).1).push(final_line(s).0),
    decreases s.text.len(),
{
    let m = lines::line_len(s.text) as int;
    let p = final_line(s).1;
    let l = final_line(s).0;
    let rest = first_line(s).1;
    text::lemma_leading_bound(s.text, text::not_newline());
    lines::lemma_last_line_cases(s.text);
    if m >= s.text.len() - 1 {
        assert(rest.text.len() == 0);
        assert(span_lines(rest) =~= Seq::<SpanText>::empty());
        assert(p.text =~= Seq::<char>::empty());
        text::lemma_byte_len_empty(p.text);
        assert(span_lines(s) =~= span_lines(p).push(l));
    } else {
        law_both_ends_agree(rest);
        let q = final_line(rest).1;
        assert(p.text =~= s.text.take(m + 1) + q.text);
        assert(p.text.take(m) =~= s.text.take(m));
        assert(p.text.take(m + 1) =~= s.text.take(m + 1));
        assert(p.text.skip(m + 1) =~= q.text);
        assert(first_line(p).1 == q);
        text::lemma_encode_concat(s.text.take(m + 1), q.text);
        assert(span_lines(s) =~= span_lines(p).push(l));
    }
}

/// Handing out the lines of `s`, which are those of `t` but for their place.
proof fn lemma_handed_out(s: SpanText, t: SpanText)
    requires
        s.text == t.text,
    ensures
        handed_out(s).len() == span_lines(t).len(),
        forall|i: int|
            0 <= i < handed_out(s).len() ==> {
                &&& (#[trigger] handed_out(s)[i]).text == span_lines(t)[i].text
                &&& handed_out(s)[i].start - s.start + i == span_lines(t)[i].start - t.start
            },
    decreases s.text.len(),
{
    if s.text.len() > 0 {
        let n = lines::line_len(s.text) as int;
        let next = left_behind(s);
        let rest = first_line(t).1;
        text::lemma_leading_bound(s.text, text::not_newline());
        lemma_handed_out(next, rest);
        if n < s.text.len() {
            text::lemma_byte_len_step(s.text, n);
        }
        assert forall|i: int| 0 <= i < handed_out(s).len() implies {
            &&& (#[trigger] handed_out(s)[i]).text == span_lines(t)[i].text
            &&& handed_out(s)[i].start - s.start + i == span_lines(t)[i].start - t.start
        } by {
            if i > 0 {
                assert(handed_out(s)[i] == handed_out(next)[i - 1]);
                assert(span_lines(t)[i] == span_lines(rest)[i - 1]);
            }
        }
    }
}

/// `Lines` hands out all lines. First to last, each line stands behind the position that it is
/// given by as many bytes as there are lines before it.
pub proof fn law_handed_out(s: SpanText)
    ensures
        handed_out(s).len() == span_lines(s).len(),
        forall|i: int|
            0 <= i < handed_out(s).len() ==> {
                &&& (#[trigger] handed_out(s)[i]).text == span_lines(s)[i].text
                &&& handed_out(s)[i].start + i == span_lines(s)[i].start
            },
{
    lemma_handed_out(s, s);
}

/// Reading the lines backwards meets exactly the lines of the text, last first, and gives each
/// line the position at which it stands.
pub proof fn law_lines_backwards(s: SpanText)
    requires
        s.text.len() > 0,
    ensures
        lines::lines_of(s.text) == lines::lines_of(final_line(s).1.text).push(
            final_line(s).0.text,
        ),
        stands_at(s, final_line(s).0.text, final_line(s).0.start),
{
    lines::law_last_line(s.text);
    let t = lines::unterminated(s.text);
    text::lemma_trailing_bound(t, text::not_newline());
    let n = lines::last_line_start(s.text);
    assert(t.take(n) =~= s.text.take(n));
    assert(s.text.skip(n).take(t.len() - n) =~= t.skip(n));
}

/// The lines of a text with their places: the first line stands where the text starts, and what
/// follows a line feed stands behind it.
pub proof fn law_span_lines(line: Seq<char>, rest: Seq<char>, start: int)
    requires
        forall|k: int| 0 <= k < line.len() ==> #[trigger] line[k] != '\n',
    ensures
        span_lines(SpanText { text: Seq::empty(), start }).len() == 0,
        line.len() > 0 ==> span_lines(SpanText { text: line, start }) == seq![
            SpanText { text: line, start },
        ],
        !(line.len() > 0 && line.last() == '\r') ==> span_lines(
            SpanText { text: line + seq!['\n'] + rest, start },
        ) == seq![SpanText { text: line, start }] + span_lines(
            SpanText { text: rest, start: start + text::byte_len(line) + 1 },
        ),
        span_lines(SpanText { text: line + seq!['\r', '\n'] + rest, start }) == seq![
            SpanText { text: line, start },
        ] + span_lines(SpanText { text: rest, start: start + text::byte_len(line) + 2 }),
{
    let n = line.len() as int;
    assert forall|k: int| 0 <= k < n implies text::not_newline()(#[trigger] line[k]) by {}
    text::lemma_leading(line, text::not_newline(), n);
    let one = SpanText { text: line, start };
    if n > 0 {
        assert(one.skip(n).text =~= Seq::<char>::empty());
        assert(span_lines(one.skip(n)) =~= Seq::<SpanText>::empty());
        assert(span_lines(one) =~= seq![one]);
    }
    let s = line + seq!['\n'] + rest;
    assert forall|k: int| 0 <= k < n implies text::not_newline()(#[trigger] s[k]) by {
        assert(s[k] == line[k]);
    }
    text::lemma_leading(s, text::not_newline(), n);
    assert(s.take(n) =~= line);
    assert(s.skip(n + 1) =~= rest);
    text::lemma_byte_len_step(s, n);
    let r = line + seq!['\r', '\n'] + rest;
    assert forall|k: int| 0 <= k < n + 1 implies text::not_newline()(#[trigger] r[k]) by {
        if k < n {
            assert(r[k] == line[k]);
        }
    }
    text::lemma_leading(r, text::not_newline(), n + 1);
    assert(r.take(n) =~= line);
    assert(r.take(n + 1) =~= line.push('\r'));
    assert(r.take(n + 1).drop_last() =~= line);
    assert(r.skip(n + 2) =~= rest);
    text::lemma_byte_len_step(r, n);
    text::lemma_byte_len_step(r, n + 1);
}

/// Cutting a text after `k` characters gives its first `k` characters and the others, which
/// together are the text, and the others start behind the bytes of the first.
pub proof fn law_cut(s: SpanText, k: int)
    requires
        0 <= k <= s.text.len(),
    ensures
        s.take(k).text.len() == k,
        s.take(k).text + s.skip(k).text == s.text,
        s.take(k).start == s.start,
        s.skip(k).start == s.start + text::byte_len(s.take(k).text),
{
    assert(s.take(k).text + s.skip(k).text =~= s.text);
}

/// The span of a text goes from the byte where it starts over as many bytes as its characters take.
pub proof fn law_span(s: SpanText)
    requires
        s.fits(),
    ensures
        s.span().start == s.start,
        s.span().end - s.span().start == text::byte_len(s.text),
{
}

/// Where a range begins that starts at a bound, and where one ends that ends at a bound.
pub proof fn law_bound(n: usize, len: nat)
    ensures
        Bound::Included(n).first() == n && Bound::Included(n).end(len) == n + 1,
        Bound::Excluded(n).first() == n + 1 && Bound::Excluded(n).end(len) == n,
        Bound::Unbounded.first() == 0 && Bound::Unbounded.end(len) == len,
{
}

/// Taking the first line off a text: the line without what ends it, and what follows that.
pub proof fn law_first_line(line: Seq<char>, rest: Seq<char>, start: int)
    requires
        forall|k: int| 0 <= k < line.len() ==> #[trigger] line[k] != '\n',
    ensures
        first_line(SpanText { text: line, start }) == (
            SpanText { text: line, start },
            SpanText { text: Seq::empty(), start: start + text::byte_len(line) },
        ),
        left_behind(SpanText { text: line, start }) == (SpanText { text: Seq::empty(), start }),
        !(line.len() > 0 && line.last() == '\r') ==> {
            let s = SpanText { text: line + seq!['\n'] + rest, start };
            &&& first_line(s) == (
                SpanText { text: line, start },
                SpanText { text: rest, start: start + text::byte_len(line) + 1 },
            )
            &&& left_behind(s) == (SpanText { text: rest, start: start + text::byte_len(line) })
        },
        ({
            let s = SpanText { text: line + seq!['\r', '\n'] + rest, start };
            &&& first_line(s) == (
                SpanText { text: line, start },
                SpanText { text: rest, start: start + text::byte_len(line) + 2 },
            )
            &&& left_behind(s) == (SpanText { text: rest, start: start + text::byte_len(line) + 1 })
        }),
{
    let n = line.len() as int;
    assert forall|k: int| 0 <= k < n implies text::not_newline()(#[trigger] line[k]) by {}
    text::lemma_leading(line, text::not_newline(), n);
    assert(line.skip(n) =~= Seq::<char>::empty());
    assert(line.take(n) =~= line);
    let s = line + seq!['\n'] + rest;
    assert forall|k: int| 0 <= k < n implies text::not_newline()(#[trigger] s[k]) by {
        assert(s[k] == line[k]);
    }
    text::lemma_leading(s, text::not_newline(), n);
    assert(s.take(n) =~= line);
    assert(s.skip(n + 1) =~= rest);
    text::lemma_byte_len_step(s, n);
    let r = line + seq!['\r', '\n'] + rest;
    assert forall|k: int| 0 <= k < n + 1 implies text::not_newline()(#[trigger] r[k]) by {
        if k < n {
            assert(r[k] == line[k]);
        }
    }
    text::lemma_leading(r, text::not_newline(), n + 1);
    assert(r.take(n) =~= line);
    assert(r.take(n + 1) =~= line.push('\r'));
    assert(r.take(n + 1).drop_last() =~= line);
    assert(r.skip(n + 2) =~= rest);
    text::lemma_byte_len_step(r, n);
    text::lemma_byte_len_step(r, n + 1);
}

/// Taking the last line off a text leaves what stands before it, and gives the line its place
/// behind that.
pub proof fn law_final_line(front: Seq<char>, line: Seq<char>, start: int)
    requires
        front.len() > 0 ==> front.last() == '\n',
        forall|k: int| 0 <= k < line.len() ==> #[trigger] line[k] != '\n',
    ensures
        ({
            let outcome = (
                SpanText { text: line, start: start + text::byte_len(front) },
                SpanText { text: front, start },
            );
            &&& line.len() > 0 ==> final_line(SpanText { text: front + line, start }) == outcome
            &&& !(line.len() > 0 && line.last() == '\r') ==> final_line(
                SpanText { text: front + line + seq!['\n'], start },
            ) == outcome
            &&& final_line(SpanText { text: front + line + seq!['\r', '\n'], start }) == outcome
        }),
{
    lines::law_last_of_lines(front, line);
}

/// Cutting off leading white space in front of a text that starts with none leaves that text,
/// behind the bytes of the white space.
pub proof fn law_trim_start(space: Seq<char>, rest: Seq<char>, start: int)
    requires
        forall|k: int| 0 <= k < space.len() ==> text::white_space(#[trigger] space[k]),
        rest.len() > 0 ==> !text::white_space(rest[0]),
    ensures
        (SpanText { text: space + rest, start }).trim_start() == (SpanText {
            text: rest,
            start: start + text::byte_len(space),
        }),
{
    let s = space + rest;
    let n = space.len() as int;
    assert forall|k: int| 0 <= k < n implies text::spaces()(#[trigger] s[k]) by {
        assert(s[k] == space[k]);
    }
    if n < s.len() {
        assert(s[n] == rest[0]);
    }
    text::lemma_leading(s, text::spaces(), n);
    assert(s.skip(n) =~= rest);
    assert(s.take(n) =~= space);
}

} // verus!
