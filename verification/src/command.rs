//! The annotations in an Agda source: comments of one line that start with `--!`.
use std::ops::Range;

use vstd::prelude::*;
use vstd::utf8::*;

use crate::span_str;
use crate::span_str::{Bound, Span, SpanStr, SpanText};
use crate::text;

verus! {

/// An annotation.
pub enum Command<'a> {
    /// The definition of a macro begins.
    MacroStart { name: SpanStr<'a>, auto_close: bool, inline: bool, span: Span },
    /// The definition of a macro ends.
    MacroEnd(Span),
    /// The names of macros get a further prefix.
    NamespaceOpen { name: SpanStr<'a>, span: Span },
    /// The names of macros lose their last prefix.
    NamespaceClose(Span),
    /// A part that is not to be typeset begins.
    HideStart(Span),
    /// A part that is not to be typeset ends.
    HideEnd(Span),
}

/// An annotation, with names as plain text.
pub enum CommandText {
    MacroStart { name: SpanText, auto_close: bool, inline: bool, span: Span },
    MacroEnd(Span),
    NamespaceOpen { name: SpanText, span: Span },
    NamespaceClose(Span),
    HideStart(Span),
    HideEnd(Span),
}

impl<'a> View for Command<'a> {
    type V = CommandText;

    open spec fn view(&self) -> CommandText {
        match *self {
            Command::MacroStart { name, auto_close, inline, span } => CommandText::MacroStart {
                name: name@,
                auto_close,
                inline,
                span,
            },
            Command::MacroEnd(span) => CommandText::MacroEnd(span),
            Command::NamespaceOpen { name, span } => CommandText::NamespaceOpen {
                name: name@,
                span,
            },
            Command::NamespaceClose(span) => CommandText::NamespaceClose(span),
            Command::HideStart(span) => CommandText::HideStart(span),
            Command::HideEnd(span) => CommandText::HideEnd(span),
        }
    }
}

impl<'a> Clone for Command<'a> {
    fn clone(&self) -> (r: Self)
        ensures
            r == *self,
    {
        match self {
            Command::MacroStart { name, auto_close, inline, span } => Command::MacroStart {
                name: *name,
                auto_close: *auto_close,
                inline: *inline,
                span: span_str::copy_span(span),
            },
            Command::MacroEnd(span) => Command::MacroEnd(span_str::copy_span(span)),
            Command::NamespaceOpen { name, span } => Command::NamespaceOpen {
                name: *name,
                span: span_str::copy_span(span),
            },
            Command::NamespaceClose(span) => Command::NamespaceClose(span_str::copy_span(span)),
            Command::HideStart(span) => Command::HideStart(span_str::copy_span(span)),
            Command::HideEnd(span) => Command::HideEnd(span_str::copy_span(span)),
        }
    }
}

impl CommandText {
    /// The bytes of the annotation.
    pub open spec fn span(self) -> Span {
        match self {
            CommandText::MacroStart { span, .. } => span,
            CommandText::MacroEnd(span) => span,
            CommandText::NamespaceOpen { span, .. } => span,
            CommandText::NamespaceClose(span) => span,
            CommandText::HideStart(span) => span,
            CommandText::HideEnd(span) => span,
        }
    }
}

/// What a line was found to be.
pub enum CommandParseResult<'a> {
    /// No annotation.
    NotACommand,
    /// Marked as an annotation, and none.
    InvalidCommand,
    /// An annotation.
    Command {
        command: Command<'a>,
        /// What stands behind the annotation.
        trailing_chars: Option<SpanStr<'a>>,
        /// The mark of an inline macro on an annotation that does not start a macro.
        invalid_inline_annot: Option<SpanStr<'a>>,
    },
}

/// What a line was found to be, with its parts as plain text.
pub enum ParsedText {
    NotACommand,
    InvalidCommand,
    Command {
        command: CommandText,
        trailing_chars: Option<SpanText>,
        invalid_inline_annot: Option<SpanText>,
    },
}

/// The text of an optional string.
pub open spec fn option_view(s: Option<SpanStr<'_>>) -> Option<SpanText> {
    match s {
        Some(s) => Some(s@),
        None => None,
    }
}

impl<'a> View for CommandParseResult<'a> {
    type V = ParsedText;

    open spec fn view(&self) -> ParsedText {
        match *self {
            CommandParseResult::NotACommand => ParsedText::NotACommand,
            CommandParseResult::InvalidCommand => ParsedText::InvalidCommand,
            CommandParseResult::Command { command, trailing_chars, invalid_inline_annot } => {
                ParsedText::Command {
                    command: command@,
                    trailing_chars: option_view(trailing_chars),
                    invalid_inline_annot: option_view(invalid_inline_annot),
                }
            },
        }
    }
}

/// The parts of a line that is marked as an annotation.
pub struct Marked {
    /// Whether it has the mark of an inline macro.
    pub inline: bool,
    /// The letters behind the marks.
    pub name: SpanText,
    /// The sign behind the name.
    pub sign: Option<char>,
    /// What stands behind the sign.
    pub remainder: SpanText,
}

/// Takes a line apart that starts with `--!`. The mark of an inline macro is a second `!`. White
/// space may stand before the name, and between the name and the sign.
#[verifier::opaque]
pub open spec fn marked(line: SpanText) -> Marked {
    let inline = text::begins_with(line.skip(3).text, "!"@);
    let body = line.skip(if inline {
        4
    } else {
        3
    }).trim_start();
    let n = text::leading(body.text, text::letters()) as int;
    let rest = body.skip(n).trim_start();
    if rest.text.len() > 0 {
        Marked { inline, name: body.take(n), sign: Some(rest.text[0]), remainder: rest.skip(1) }
    } else {
        Marked { inline, name: body.take(n), sign: None, remainder: rest }
    }
}

/// The annotation that a name and a sign make, if they make one.
pub open spec fn signed(
    name: SpanText,
    sign: Option<char>,
    inline: bool,
    span: Span,
) -> Option<CommandText> {
    if name.text.len() > 0 {
        match sign {
            None => Some(CommandText::MacroStart { name, auto_close: true, inline, span }),
            Some('{') => Some(CommandText::MacroStart { name, auto_close: false, inline, span }),
            Some('>') => Some(CommandText::NamespaceOpen { name, span }),
            _ => None,
        }
    } else {
        match sign {
            Some('}') => Some(CommandText::MacroEnd(span)),
            Some('<') => Some(CommandText::NamespaceClose(span)),
            Some('[') => Some(CommandText::HideStart(span)),
            Some(']') => Some(CommandText::HideEnd(span)),
            _ => None,
        }
    }
}

/// What `line` is.
pub open spec fn parsed(line: SpanText) -> ParsedText {
    if !text::begins_with(line.text, "--!"@) {
        ParsedText::NotACommand
    } else {
        let m = marked(line);
        match signed(m.name, m.sign, m.inline, span_str::span_of(line.start, m.remainder.start)) {
            None => ParsedText::InvalidCommand,
            Some(command) => ParsedText::Command {
                command,
                trailing_chars: if m.remainder.text.len() > 0 {
                    Some(m.remainder)
                } else {
                    None
                },
                invalid_inline_annot: if m.inline && !(command is MacroStart) {
                    Some(line.take(4))
                } else {
                    None
                },
            },
        }
    }
}

/// Skipping twice is skipping once.
proof fn lemma_skip_skip(s: SpanText, a: int, b: int)
    requires
        0 <= a,
        0 <= b,
        a + b <= s.text.len(),
    ensures
        s.skip(a).skip(b) == s.skip(a + b),
{
    assert(s.text.skip(a).skip(b) =~= s.text.skip(a + b));
    assert(s.text.take(a + b) =~= s.text.take(a) + s.text.skip(a).take(b));
    text::lemma_encode_concat(s.text.take(a), s.text.skip(a).take(b));
}

/// Behind a text of nothing but letters, nothing is left.
proof fn lemma_only_name(body: SpanText)
    requires
        forall|j: int| 0 <= j < body.text.len() ==> text::ascii_alphabetic(#[trigger] body.text[j]),
    ensures
        text::leading(body.text, text::letters()) == body.text.len(),
        body.take(body.text.len() as int) == body,
        body.skip(body.text.len() as int).trim_start() == (SpanText {
            text: Seq::empty(),
            start: body.end(),
        }),
{
    let n = body.text.len() as int;
    text::lemma_leading(body.text, text::letters(), n);
    assert(body.text.take(n) =~= body.text);
    let rest = body.skip(n);
    assert(rest.text =~= Seq::<char>::empty());
    text::lemma_byte_len_empty(rest.text.take(0));
    assert(rest.text.skip(0) =~= Seq::<char>::empty());
}

/// A name that can be part of the name of a LaTeX macro.
pub open spec fn well_named(name: Seq<char>) -> bool {
    &&& name.len() > 0
    &&& forall|i: int| 0 <= i < name.len() ==> text::ascii_alphabetic(#[trigger] name[i])
}

/// The bytes of an annotation are those that it was found with, whatever it is.
pub proof fn law_command_span(name: SpanText, auto_close: bool, inline: bool, span: Span)
    ensures
        (CommandText::MacroStart { name, auto_close, inline, span }).span() == span,
        CommandText::MacroEnd(span).span() == span,
        (CommandText::NamespaceOpen { name, span }).span() == span,
        CommandText::NamespaceClose(span).span() == span,
        CommandText::HideStart(span).span() == span,
        CommandText::HideEnd(span).span() == span,
{
}

/// What stands behind the sign of an annotation ends where the line ends.
proof fn lemma_remainder(line: SpanText)
    requires
        text::begins_with(line.text, "--!"@),
    ensures
        marked(line).remainder.end() == line.end(),
        line.start <= marked(line).remainder.start,
{
    reveal_strlit("--!");
    reveal_strlit("!");
    reveal(marked);
    let inline = text::begins_with(line.skip(3).text, "!"@);
    let marks: int = if inline {
        4
    } else {
        3
    };
    span_str::law_cut_keeps_place(line, marks);
    let behind = line.skip(marks);
    let a = text::leading(behind.text, text::spaces()) as int;
    text::lemma_leading_bound(behind.text, text::spaces());
    span_str::law_cut_keeps_place(behind, a);
    let body = behind.trim_start();
    let n = text::leading(body.text, text::letters()) as int;
    text::lemma_leading_bound(body.text, text::letters());
    span_str::law_cut_keeps_place(body, n);
    let b = text::leading(body.skip(n).text, text::spaces()) as int;
    text::lemma_leading_bound(body.skip(n).text, text::spaces());
    span_str::law_cut_keeps_place(body.skip(n), b);
    let rest = body.skip(n).trim_start();
    if rest.text.len() > 0 {
        span_str::law_cut_keeps_place(rest, 1);
    }
}

/// An annotation covers its line from the start up to the characters that trail it, or up to the
/// end where nothing trails it. A mark that does not belong there covers the first characters.
pub proof fn law_command_place(line: SpanText)
    requires
        line.fits(),
    ensures
        parsed(line) matches ParsedText::Command { command, trailing_chars, invalid_inline_annot }
            ==> {
            &&& command.span().start == line.start
            &&& trailing_chars is None ==> command.span().end == line.end()
            &&& trailing_chars matches Some(trail) ==> {
                &&& trail.text.len() > 0
                &&& command.span().end == trail.start
                &&& trail.end() == line.end()
                &&& trail.fits()
            }
            &&& invalid_inline_annot matches Some(annot) ==> annot == line.take(4) && annot.fits()
        },
{
    if text::begins_with(line.text, "--!"@) {
        let m = marked(line);
        lemma_remainder(line);
        if m.remainder.text.len() == 0 {
            text::lemma_byte_len_empty(m.remainder.text);
        }
        if m.inline {
            reveal(marked);
            reveal_strlit("--!");
            reveal_strlit("!");
            span_str::law_cut_keeps_place(line, 4);
        }
    }
}

/// The name in an annotation is not empty, and nothing but letters.
pub proof fn law_command_name(line: SpanText)
    ensures
        parsed(line) matches ParsedText::Command {
            command: CommandText::MacroStart { name, .. },
            ..
        } ==> well_named(name.text),
        parsed(line) matches ParsedText::Command {
            command: CommandText::NamespaceOpen { name, .. },
            ..
        } ==> well_named(name.text),
{
    if text::begins_with(line.text, "--!"@) {
        reveal(marked);
        let inline = text::begins_with(line.skip(3).text, "!"@);
        let body = line.skip(if inline {
            4
        } else {
            3
        }).trim_start();
        let n = text::leading(body.text, text::letters()) as int;
        text::lemma_leading_bound(body.text, text::letters());
        assert forall|i: int| 0 <= i < n implies text::ascii_alphabetic(
            #[trigger] body.text.take(n)[i],
        ) by {
            assert(text::letters()(body.text[i]));
        }
    }
}

/// The signs that annotations can have.
pub open spec fn is_sign(c: char) -> bool {
    c == '{' || c == '}' || c == '>' || c == '<' || c == '[' || c == ']'
}

/// An annotation in its shortest form: the marks, the name and the sign.
pub open spec fn shortest_form(inline: bool, name: Seq<char>, sign: Option<char>) -> Seq<char> {
    "--!"@ + (if inline {
        "!"@
    } else {
        Seq::empty()
    }) + name + (match sign {
        Some(c) => seq![c],
        None => Seq::empty(),
    })
}

/// White space is cut off where there is none.
proof fn lemma_no_space(s: SpanText)
    requires
        s.text.len() > 0 ==> !text::white_space(s.text[0]),
    ensures
        s.trim_start() == s,
{
    text::lemma_leading(s.text, text::spaces(), 0);
    text::lemma_byte_len_empty(s.text.take(0));
    assert(s.text.skip(0) =~= s.text);
}

/// A line in the shortest form of an annotation is taken apart into the marks, the name and the
/// sign that it was put together from. It is the annotation that they make, and nothing trails it.
#[verifier::rlimit(60)]
pub proof fn law_shortest_form(line: SpanText, inline: bool, name: Seq<char>, sign: Option<char>)
    requires
        line.text == shortest_form(inline, name, sign),
        forall|i: int| 0 <= i < name.len() ==> text::ascii_alphabetic(#[trigger] name[i]),
        sign matches Some(c) ==> is_sign(c),
    ensures
        marked(line).inline == inline,
        marked(line).name.text == name,
        marked(line).sign == sign,
        marked(line).remainder == (SpanText { text: Seq::empty(), start: line.end() }),
        match signed(marked(line).name, sign, inline, line.span()) {
            None => parsed(line) is InvalidCommand,
            Some(c) => parsed(line) matches ParsedText::Command {
                command,
                trailing_chars,
                invalid_inline_annot,
            } && command == c && trailing_chars is None && (invalid_inline_annot is Some) == (inline
                && !(c is MacroStart)),
        },
        name.len() > 0 && (sign is None || sign == Some('{')) ==> (parsed(
            line,
        ) matches ParsedText::Command {
            command: CommandText::MacroStart { name: found, auto_close, inline: marked_inline, .. },
            trailing_chars,
            invalid_inline_annot,
        } && found.text == name && marked_inline == inline && auto_close == (sign is None)
            && trailing_chars is None && invalid_inline_annot is None),
{
    reveal_strlit("--!");
    reveal_strlit("!");
    reveal(marked);
    let marks: int = if inline {
        4
    } else {
        3
    };
    let n = name.len() as int;
    assert(line.text.take(3) =~= "--!"@);
    let behind = line.skip(marks);
    if inline {
        assert(line.skip(3).text.take(1) =~= "!"@);
    } else if line.text.len() > 3 {
        if n > 0 {
            assert(line.text[3] == name[0]);
        }
        assert(line.skip(3).text.take(1)[0] != '!');
    }
    assert forall|i: int| 0 <= i < n implies behind.text[i] == #[trigger] name[i] by {
        assert(behind.text[i] == line.text[marks + i]);
    }
    if n > 0 {
        assert(text::ascii_alphabetic(name[0]));
        assert(behind.text[0] == name[0]);
    }
    lemma_no_space(behind);
    assert forall|i: int| 0 <= i < n implies text::letters()(#[trigger] behind.text[i]) by {
        assert(text::ascii_alphabetic(name[i]));
    }
    text::lemma_leading(behind.text, text::letters(), n);
    let rest = behind.skip(n);
    assert(behind.text.take(n) =~= name);
    lemma_no_space(rest);
    if let Some(c) = sign {
        assert(rest.text[0] == c);
        assert(rest.text.skip(1) =~= Seq::<char>::empty());
    } else {
        assert(rest.text =~= Seq::<char>::empty());
    }
    lemma_remainder(line);
    assert(marked(line).remainder.text =~= Seq::<char>::empty());
    text::lemma_byte_len_empty(marked(line).remainder.text);
}

/// The marks, the white space, the name and what follows it, one behind the other.
pub open spec fn put_together(
    inline: bool,
    gap: Seq<char>,
    name: Seq<char>,
    space: Seq<char>,
    tail: Seq<char>,
) -> Seq<char> {
    (if inline {
        "--!!"@
    } else {
        "--!"@
    }) + gap + name + space + tail
}

/// The parts are as long as they can be: `gap` and `space` are all the white space before and
/// behind the letters in `name`, and the mark of an inline macro is not left to `tail`.
pub open spec fn in_parts(
    inline: bool,
    gap: Seq<char>,
    name: Seq<char>,
    space: Seq<char>,
    tail: Seq<char>,
) -> bool {
    &&& forall|k: int| 0 <= k < gap.len() ==> text::white_space(#[trigger] gap[k])
    &&& forall|k: int| 0 <= k < name.len() ==> text::ascii_alphabetic(#[trigger] name[k])
    &&& forall|k: int| 0 <= k < space.len() ==> text::white_space(#[trigger] space[k])
    &&& name.len() == 0 ==> space.len() == 0
    &&& tail.len() > 0 ==> {
        &&& !text::white_space(tail[0])
        &&& space.len() == 0 ==> !text::ascii_alphabetic(tail[0])
        &&& !inline && gap.len() == 0 && name.len() == 0 ==> tail[0] != '!'
    }
}

/// White space is cut off in front of a text that starts with none.
proof fn lemma_cut_space(s: SpanText, space: Seq<char>, rest: Seq<char>)
    requires
        s.text == space + rest,
        forall|k: int| 0 <= k < space.len() ==> text::white_space(#[trigger] space[k]),
        rest.len() > 0 ==> !text::white_space(rest[0]),
    ensures
        s.trim_start() == s.skip(space.len() as int),
        s.trim_start().text == rest,
{
    let n = space.len() as int;
    assert forall|k: int| 0 <= k < n implies text::spaces()(#[trigger] s.text[k]) by {
        assert(s.text[k] == space[k]);
    }
    if n < s.text.len() {
        assert(s.text[n] == rest[0]);
    }
    text::lemma_leading(s.text, text::spaces(), n);
    assert(s.text.skip(n) =~= rest);
}

/// A name is cut off in front of a text that starts with no letter.
proof fn lemma_cut_name(s: SpanText, name: Seq<char>, rest: Seq<char>)
    requires
        s.text == name + rest,
        forall|k: int| 0 <= k < name.len() ==> text::ascii_alphabetic(#[trigger] name[k]),
        rest.len() > 0 ==> !text::ascii_alphabetic(rest[0]),
    ensures
        text::leading(s.text, text::letters()) == name.len(),
        s.take(name.len() as int) == (SpanText { text: name, start: s.start }),
        s.skip(name.len() as int).text == rest,
{
    let n = name.len() as int;
    assert forall|k: int| 0 <= k < n implies text::letters()(#[trigger] s.text[k]) by {
        assert(s.text[k] == name[k]);
    }
    if n < s.text.len() {
        assert(s.text[n] == rest[0]);
    }
    text::lemma_leading(s.text, text::letters(), n);
    assert(s.text.take(n) =~= name);
    assert(s.text.skip(n) =~= rest);
}

/// The marks take one byte each.
proof fn lemma_mark_bytes(t: Seq<char>, inline: bool, rest: Seq<char>)
    requires
        t == (if inline {
            "--!!"@
        } else {
            "--!"@
        }) + rest,
        !inline && rest.len() > 0 ==> rest[0] != '!',
    ensures
        text::begins_with(t, "--!"@),
        text::begins_with(t.skip(3), "!"@) == inline,
        inline ==> t.take(4) == "--!!"@,
        ({
            let marks: int = if inline {
                4
            } else {
                3
            };
            &&& marks <= t.len()
            &&& t.skip(marks) == rest
            &&& text::byte_len(t.take(marks)) == marks
        }),
{
    reveal_strlit("--!");
    reveal_strlit("--!!");
    reveal_strlit("!");
    assert(t.take(3) =~= "--!"@);
    text::lemma_byte_len_empty(t.take(0));
    text::lemma_byte_len_step(t, 0);
    text::lemma_byte_len_step(t, 1);
    text::lemma_byte_len_step(t, 2);
    if inline {
        text::lemma_byte_len_step(t, 3);
        assert(t.take(4) =~= "--!!"@);
        assert(t.skip(3).take(1) =~= "!"@);
        assert(t.skip(4) =~= rest);
    } else {
        assert(t.skip(3) =~= rest);
        if rest.len() > 0 {
            assert(t.skip(3).take(1)[0] == rest[0]);
        }
    }
}

/// What the parts start with, each with the others behind it.
proof fn lemma_first_of_parts(
    inline: bool,
    gap: Seq<char>,
    name: Seq<char>,
    space: Seq<char>,
    tail: Seq<char>,
)
    requires
        in_parts(inline, gap, name, space, tail),
    ensures
        put_together(inline, gap, name, space, tail) == (if inline {
            "--!!"@
        } else {
            "--!"@
        }) + (gap + (name + (space + tail))),
        ({
            let c = space + tail;
            let b = name + c;
            let a = gap + b;
            &&& c.len() > 0 ==> !text::ascii_alphabetic(c[0])
            &&& b.len() > 0 ==> !text::white_space(b[0])
            &&& !inline && a.len() > 0 ==> a[0] != '!'
        }),
{
    let c = space + tail;
    let b = name + c;
    let a = gap + b;
    assert(put_together(inline, gap, name, space, tail) =~= (if inline {
        "--!!"@
    } else {
        "--!"@
    }) + a);
    if space.len() > 0 {
        assert(c[0] == space[0]);
        assert(text::white_space(space[0]));
    } else if tail.len() > 0 {
        assert(c[0] == tail[0]);
    }
    if name.len() > 0 {
        assert(b[0] == name[0]);
        assert(text::ascii_alphabetic(name[0]));
    } else if c.len() > 0 {
        assert(b[0] == c[0]);
    }
    if gap.len() > 0 {
        assert(a[0] == gap[0]);
        assert(text::white_space(gap[0]));
    } else if b.len() > 0 {
        assert(a[0] == b[0]);
    }
}

/// How a line is taken apart that was put together from parts.
#[verifier::rlimit(40)]
proof fn lemma_parts(
    line: SpanText,
    inline: bool,
    gap: Seq<char>,
    name: Seq<char>,
    space: Seq<char>,
    tail: Seq<char>,
)
    requires
        line.text == put_together(inline, gap, name, space, tail),
        in_parts(inline, gap, name, space, tail),
    ensures
        text::begins_with(line.text, "--!"@),
        inline ==> line.text.take(4) == "--!!"@,
        ({
            let m = marked(line);
            let marks: int = if inline {
                4
            } else {
                3
            };
            &&& m.inline == inline
            &&& m.name == (SpanText {
                text: name,
                start: line.start + marks + text::byte_len(gap),
            })
            &&& m.sign == (if tail.len() > 0 {
                Some(tail[0])
            } else {
                None
            })
            &&& m.remainder == (if tail.len() > 0 {
                SpanText { text: tail.skip(1), start: line.end() - text::byte_len(tail.skip(1)) }
            } else {
                SpanText { text: Seq::empty(), start: line.end() }
            })
        }),
{
    reveal(marked);
    let marks: int = if inline {
        4
    } else {
        3
    };
    let c = space + tail;
    let b = name + c;
    let a = gap + b;
    lemma_first_of_parts(inline, gap, name, space, tail);
    lemma_mark_bytes(line.text, inline, a);
    let behind = line.skip(marks);
    lemma_cut_space(behind, gap, b);
    let body = behind.trim_start();
    lemma_cut_name(body, name, c);
    let rest = body.skip(name.len() as int);
    lemma_cut_space(rest, space, tail);
    assert(gap + b == behind.text);
    assert(behind.text.take(gap.len() as int) =~= gap);
    lemma_remainder(line);
    if tail.len() == 0 {
        assert(marked(line).remainder.text =~= Seq::<char>::empty());
        text::lemma_byte_len_empty(marked(line).remainder.text);
    }
}

/// What a line is that is put together from the marks, a name and what follows it.
///
/// With a name, the sign `{` makes it the start of a macro, and so does the lack of any sign, by
/// which the macro ends at the next blank line; the macro is inline just if a second `!` stands
/// there. The sign `>` opens a namespace. Without a name, the signs `}`, `<`, `[` and `]` end a
/// macro, close a namespace, start a hidden part and end one. Anything else makes no annotation.
/// What stands behind the sign trails the annotation, and a second `!` that does not belong to the
/// start of a macro is out of place.
#[verifier::rlimit(60)]
pub proof fn law_annotation(
    line: SpanText,
    inline: bool,
    gap: Seq<char>,
    name: Seq<char>,
    space: Seq<char>,
    tail: Seq<char>,
)
    requires
        line.text == put_together(inline, gap, name, space, tail),
        in_parts(inline, gap, name, space, tail),
    ensures
        ({
            let named = SpanText {
                text: name,
                start: line.start + (if inline {
                    4int
                } else {
                    3int
                }) + text::byte_len(gap),
            };
            let trail = SpanText {
                text: tail.skip(1),
                start: line.end() - text::byte_len(tail.skip(1)),
            };
            let trailing_chars = if tail.len() > 1 {
                Some(trail)
            } else {
                None
            };
            let invalid_inline_annot = if inline {
                Some(SpanText { text: "--!!"@, start: line.start })
            } else {
                None
            };
            let span = span_str::span_of(line.start, trail.start);
            &&& name.len() > 0 && tail.len() == 0 ==> parsed(line) == (ParsedText::Command {
                command: CommandText::MacroStart {
                    name: named,
                    auto_close: true,
                    inline,
                    span: span_str::span_of(line.start, line.end()),
                },
                trailing_chars: None,
                invalid_inline_annot: None,
            })
            &&& name.len() > 0 && tail.len() > 0 && tail[0] == '{' ==> parsed(line) == (
            ParsedText::Command {
                command: CommandText::MacroStart { name: named, auto_close: false, inline, span },
                trailing_chars,
                invalid_inline_annot: None,
            })
            &&& name.len() > 0 && tail.len() > 0 && tail[0] == '>' ==> parsed(line) == (
            ParsedText::Command {
                command: CommandText::NamespaceOpen { name: named, span },
                trailing_chars,
                invalid_inline_annot,
            })
            &&& name.len() == 0 && tail.len() > 0 && tail[0] == '}' ==> parsed(line) == (
            ParsedText::Command {
                command: CommandText::MacroEnd(span),
                trailing_chars,
                invalid_inline_annot,
            })
            &&& name.len() == 0 && tail.len() > 0 && tail[0] == '<' ==> parsed(line) == (
            ParsedText::Command {
                command: CommandText::NamespaceClose(span),
                trailing_chars,
                invalid_inline_annot,
            })
            &&& name.len() == 0 && tail.len() > 0 && tail[0] == '[' ==> parsed(line) == (
            ParsedText::Command {
                command: CommandText::HideStart(span),
                trailing_chars,
                invalid_inline_annot,
            })
            &&& name.len() == 0 && tail.len() > 0 && tail[0] == ']' ==> parsed(line) == (
            ParsedText::Command {
                command: CommandText::HideEnd(span),
                trailing_chars,
                invalid_inline_annot,
            })
            &&& name.len() > 0 && tail.len() > 0 && tail[0] != '{' && tail[0] != '>' ==> parsed(
                line,
            ) is InvalidCommand
            &&& name.len() == 0 && (tail.len() == 0 || (tail[0] != '}' && tail[0] != '<' && tail[0]
                != '[' && tail[0] != ']')) ==> parsed(line) is InvalidCommand
        }),
{
    lemma_parts(line, inline, gap, name, space, tail);
}

/// A line is no annotation, and not marked as one, just if it does not begin with the characters
/// `-`, `-` and `!`.
pub proof fn law_unmarked(line: SpanText)
    ensures
        parsed(line) is NotACommand <==> !(line.text.len() >= 3 && line.text[0] == '-'
            && line.text[1] == '-' && line.text[2] == '!'),
{
    reveal_strlit("--!");
    if line.text.len() >= 3 {
        let front = line.text.take(3);
        assert(front[0] == line.text[0] && front[1] == line.text[1] && front[2] == line.text[2]);
        if line.text[0] == '-' && line.text[1] == '-' && line.text[2] == '!' {
            assert(front =~= "--!"@);
        }
    }
}

/// Every line that begins with the marks is put together from such parts.
#[verifier::rlimit(60)]
pub proof fn law_marked_parts(line: SpanText) -> (parts: (
    bool,
    Seq<char>,
    Seq<char>,
    Seq<char>,
    Seq<char>,
))
    requires
        !(parsed(line) is NotACommand),
    ensures
        line.text == put_together(parts.0, parts.1, parts.2, parts.3, parts.4),
        in_parts(parts.0, parts.1, parts.2, parts.3, parts.4),
{
    reveal_strlit("--!");
    reveal_strlit("--!!");
    let t = line.text;
    law_unmarked(line);
    let inline = t.len() > 3 && t[3] == '!';
    let marks: int = if inline {
        4
    } else {
        3
    };
    let a = t.skip(marks);
    let g = text::leading(a, text::spaces()) as int;
    text::lemma_leading_bound(a, text::spaces());
    let gap = a.take(g);
    assert forall|k: int| 0 <= k < gap.len() implies text::white_space(#[trigger] gap[k]) by {
        assert(text::spaces()(a[k]));
    }
    let b = a.skip(g);
    let n = text::leading(b, text::letters()) as int;
    text::lemma_leading_bound(b, text::letters());
    let name = b.take(n);
    assert forall|k: int| 0 <= k < name.len() implies text::ascii_alphabetic(
        #[trigger] name[k],
    ) by {
        assert(text::letters()(b[k]));
    }
    let c = b.skip(n);
    let w = text::leading(c, text::spaces()) as int;
    text::lemma_leading_bound(c, text::spaces());
    let space = c.take(w);
    assert forall|k: int| 0 <= k < space.len() implies text::white_space(#[trigger] space[k]) by {
        assert(text::spaces()(c[k]));
    }
    let tail = c.skip(w);
    if b.len() > 0 {
        assert(b[0] == a[g]);
        assert(!text::spaces()(a[g]));
    }
    if n == 0 {
        assert(c =~= b);
        assert(w == 0) by {
            if w > 0 {
                assert(text::spaces()(c[0]));
            }
        }
    }
    if tail.len() > 0 {
        assert(tail[0] == c[w]);
        assert(!text::spaces()(c[w]));
        if w == 0 {
            assert(c[0] == b[n]);
            assert(!text::letters()(b[n]));
        }
        if !inline && g == 0 && n == 0 {
            assert(tail[0] == t[3]);
        }
    }
    assert(t =~= put_together(inline, gap, name, space, tail));
    (inline, gap, name, space, tail)
}

/// The four bytes of the marks of an inline macro.
proof fn lemma_marks(line: Seq<char>)
    requires
        text::begins_with(line, "--!"@),
        text::begins_with(line.skip(3), "!"@),
    ensures
        text::byte_len(line.take(4)) == 4,
        is_char_boundary(encode_utf8(line), 0),
        is_char_boundary(encode_utf8(line), 4),
        encode_utf8(line).subrange(0, 4) == encode_utf8(line.take(4)),
{
    reveal_strlit("--!");
    reveal_strlit("!");
    assert(line.take(3)[0] == '-');
    assert(line.take(3)[1] == '-');
    assert(line.take(3)[2] == '!');
    assert(line.skip(3).take(1)[0] == '!');
    text::lemma_byte_len_empty(line.take(0));
    text::lemma_byte_len_step(line, 0);
    text::lemma_byte_len_step(line, 1);
    text::lemma_byte_len_step(line, 2);
    text::lemma_byte_len_step(line, 3);
    text::lemma_boundary(line, 0);
    text::lemma_boundary(line, 4);
    text::lemma_byte_len_split(line, 4);
    assert(encode_utf8(line).subrange(0, 4) =~= encode_utf8(line.take(4)));
}

impl<'a> Command<'a> {
    /// The bytes of the annotation.
    pub fn span(&self) -> (r: &Span)
        ensures
            *r == self@.span(),
    {
        match self {
            Command::MacroStart { span, .. } => span,
            Command::MacroEnd(span) => span,
            Command::NamespaceOpen { span, .. } => span,
            Command::NamespaceClose(span) => span,
            Command::HideStart(span) => span,
            Command::HideEnd(span) => span,
        }
    }

    /// Finds out what a line without white space around it is.
    #[verifier::rlimit(60)]
    pub fn try_parse(str: SpanStr<'a>) -> (r: CommandParseResult<'a>)
        requires
            str@.fits(),
        ensures
            r@ == parsed(str@),
    {
        let whole_span = str.span();
        let ghost line = str@;
        let s = match str.strip_prefix("--!") {
            Some(s) => s,
            None => {
                return CommandParseResult::NotACommand;
            },
        };
        proof {
            reveal_strlit("--!");
            reveal_strlit("!");
        }
        let (s, inline) = match s.strip_prefix("!") {
            Some(s) => (s, true),
            None => (s, false),
        };
        let ghost marks: int = if inline {
            4
        } else {
            3
        };
        proof {
            span_str::law_cut_keeps_place(line, marks);
            if inline {
                lemma_skip_skip(line, 3, 1);
            }
        }
        let s = s.trim_start();
        let ghost body = s@;
        let ghost n = text::leading(body.text, text::letters()) as int;
        let stop = |c: char| -> (b: bool)
            ensures
                b == !text::ascii_alphabetic(c)
            { !text::is_ascii_alphabetic(c) };
        let (name, rest) = match s.split_once(stop) {
            Some((name, rest)) => {
                proof {
                    let k = name@.text.len() as int;
                    assert(name@ == body.take(k));
                    assert forall|j: int| 0 <= j < k implies text::letters()(
                        #[trigger] body.text[j],
                    ) by {
                        assert(call_ensures(stop, (body.text[j],), false));
                    }
                    text::lemma_leading(body.text, text::letters(), k);
                }
                (name, rest.trim_start())
            },
            None => {
                proof {
                    assert forall|j: int| 0 <= j < body.text.len() implies text::ascii_alphabetic(
                        #[trigger] body.text[j],
                    ) by {
                        assert(call_ensures(stop, (body.text[j],), false));
                    }
                    lemma_only_name(body);
                    reveal_strlit("");
                    assert(""@ =~= Seq::<char>::empty());
                }
                (s, SpanStr::with_offset("", s.span().end))
            },
        };
        assert(name@ == body.take(n));
        assert(rest@ == body.skip(n).trim_start());
        let ghost m = marked(line);
        proof {
            reveal(marked);
            lemma_remainder(line);
        }
        let rest_str = rest.as_str();
        let next_char = rest_str.chars().next();
        let remainder = match next_char {
            Some(c) => {
                proof {
                    assert(c == rest_str@[0]);
                    text::lemma_byte_len_empty(rest_str@.take(0));
                    text::lemma_byte_len_step(rest_str@, 0);
                }
                let (_, remainder) = text::split_text(rest_str, text::char_width(c), Ghost(1int));
                remainder
            },
            None => rest_str,
        };
        let remainder_start = whole_span.end - text::text_len(remainder);
        assert(m.remainder.text == remainder@ && m.remainder.start == remainder_start);
        let command_span = Range { start: whole_span.start, end: remainder_start };
        assert(command_span == span_str::span_of(line.start, m.remainder.start));

        let command = match next_char {
            None if !name.is_empty() => Command::MacroStart {
                name,
                inline,
                auto_close: true,
                span: command_span,
            },
            Some('{') if !name.is_empty() => Command::MacroStart {
                name,
                inline,
                auto_close: false,
                span: command_span,
            },
            Some('}') if name.is_empty() => Command::MacroEnd(command_span),
            Some('>') if !name.is_empty() => Command::NamespaceOpen { name, span: command_span },
            Some('<') if name.is_empty() => Command::NamespaceClose(command_span),
            Some('[') if name.is_empty() => Command::HideStart(command_span),
            Some(']') if name.is_empty() => Command::HideEnd(command_span),
            _ => {
                return CommandParseResult::InvalidCommand;
            },
        };

        let trailing_chars = if remainder.is_empty() {
            None
        } else {
            Some(SpanStr::with_offset(remainder, remainder_start))
        };
        let starts_macro = matches!(command, Command::MacroStart { .. });
        let invalid_inline_annot = if inline && !starts_macro {
            proof {
                lemma_marks(line.text);
            }
            let annot = str.get(Bound::Unbounded, Bound::Excluded(4));
            proof {
                text::lemma_encode_injective(annot@.text, line.text.take(4));
            }
            Some(annot)
        } else {
            None
        };
        CommandParseResult::Command { command, trailing_chars, invalid_inline_annot }
    }
}

} // verus!
