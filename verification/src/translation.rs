//! The translation of an annotated Agda source into Literate Agda.
//!
//! Every annotated part becomes the definition of a LaTeX macro that typesets it; everything else
//! goes into hidden code environments.
use std::ops::Range;

use vstd::prelude::*;

use crate::command;
use crate::command::{Command, CommandParseResult, CommandText, ParsedText};
use crate::diagnostic;
use crate::diagnostic::Diagnostic;
use crate::ltx_write;
use crate::ltx_write::{Add2, Add3, Add5, Group, Ltx, Nat, Z};
use crate::span_str;
use crate::span_str::{Span, SpanStr, SpanText};
use crate::str_lines::StrLines;
use crate::string_stack::StringStack;
use crate::text;
use crate::text::Text;

verus! {

/// A macro that a source defines.
#[derive(Debug, Copy)]
pub struct Macro<S> {
    pub name: S,
    /// The number of lines before the definition.
    pub line: u32,
    /// Whether the macro typesets inside of a paragraph.
    pub inline: bool,
}

impl<S: Clone> Clone for Macro<S> {
    fn clone(&self) -> (r: Self)
        ensures
            cloned(self.name, r.name),
            r.line == self.line,
            r.inline == self.inline,
    {
        Macro { name: self.name.clone(), line: self.line, inline: self.inline }
    }
}

/// A macro, with its name as plain text.
pub struct MacroText {
    pub name: Seq<char>,
    pub line: u32,
    pub inline: bool,
}

impl<S: Text> View for Macro<S> {
    type V = MacroText;

    open spec fn view(&self) -> MacroText {
        MacroText { name: self.name.text(), line: self.line, inline: self.inline }
    }
}

/// What stands behind the name of a macro in the comment on it.
pub open spec fn inline_mark(inline: bool) -> Seq<char> {
    if inline {
        " [inline]"@
    } else {
        ""@
    }
}

/// `code` with a comment on a macro behind it.
pub open spec fn with_macro_comment(
    code: Seq<Seq<char>>,
    name: Seq<char>,
    inline: bool,
) -> Seq<Seq<char>> {
    ltx_write::with_command(code.push("% "@), name).push(inline_mark(inline)).push("\n"@)
}

/// The comment on a macro.
pub open spec fn comment_text(name: Seq<char>, inline: bool) -> Seq<char> {
    "% "@ + ltx_write::command_text(name) + inline_mark(inline) + "\n"@
}

/// The text of a comment on a macro behind other code.
#[verifier::rlimit(60)]
proof fn lemma_comment_text(code: Seq<Seq<char>>, name: Seq<char>, inline: bool)
    ensures
        text::joined(with_macro_comment(code, name, inline)) == text::joined(code) + comment_text(
            name,
            inline,
        ),
{
    let a = code.push("% "@);
    let b = ltx_write::with_command(a, name);
    let c = b.push(inline_mark(inline));
    ltx_write::law_text(code, "% "@);
    ltx_write::law_text(a, name);
    ltx_write::law_text(b, inline_mark(inline));
    ltx_write::law_text(c, "\n"@);
    assert(text::joined(with_macro_comment(code, name, inline)) =~= text::joined(code)
        + comment_text(name, inline));
}

impl<S: Text> Macro<S> {
    /// A comment on the macro.
    pub fn to_ltx_comment(&self) -> (r: Ltx<'_, Add5<Z>>)
        ensures
            r@ == with_macro_comment(Seq::empty(), self@.name, self@.inline),
            text::joined(r@) == comment_text(self@.name, self@.inline),
    {
        proof {
            lemma_comment_text(Seq::empty(), self@.name, self@.inline);
            assert(text::joined(Seq::<Seq<char>>::empty()) + comment_text(self@.name, self@.inline)
                =~= comment_text(self@.name, self@.inline));
        }
        self.push_ltx_comment(Ltx::new())
    }

    /// Appends a comment on the macro.
    pub fn push_ltx_comment<'a, N: Nat>(&'a self, ltx: Ltx<'a, N>) -> (r: Ltx<'a, Add5<N>>)
        ensures
            r@ == with_macro_comment(ltx@, self@.name, self@.inline),
    {
        let name = self.name.as_text();
        let mark = if self.inline {
            " [inline]"
        } else {
            ""
        };
        ltx.with_comment(
            |l: Ltx<'a, ltx_write::S<N>>| -> (m: Ltx<'a, Add2<Add2<N>>>)
                ensures
                    m@ == ltx_write::with_command(l@, name@).push(mark@)
                { l.command(name).push(mark) },
        )
    }

    /// The macro with a name of its own.
    pub fn to_owned(&self) -> (r: Macro<String>)
        ensures
            r@ == self@,
    {
        Macro { name: self.name.as_text().to_owned(), line: self.line, inline: self.inline }
    }

    /// The comment on the macro as a string.
    pub fn to_string(&self) -> (r: String)
        ensures
            r@ == comment_text(self@.name, self@.inline),
    {
        self.to_ltx_comment().to_string()
    }
}

/// The context in which a line of the source is read.
#[derive(Debug)]
pub enum Mode<M> {
    /// No open `code` environment.
    Outside,
    /// Inside of a `code` environment with option `[hide]`.
    Hide,
    /// Inside of a macro definition; of the code in a macro: inside of a `code` environment that
    /// is to be typeset.
    Macro(M),
}

/// What is known of the macro whose definition is being read.
#[derive(Debug)]
pub struct MacroMode {
    /// The span of the annotation that started the definition.
    pub start: Span,
    /// The lines since the start of the definition.
    pub body: Option<Span>,
    /// Whether the macro typesets inside of a paragraph.
    pub inline: bool,
    /// Whether the first empty line ends the definition.
    pub auto_close: bool,
    /// Which kind of `code` environment is open, if any.
    pub inner_mode: Mode<()>,
}

/// A piece of the Literate Agda that a source becomes.
pub enum Piece {
    /// The start of a hidden environment outside of macros.
    OpenHidden,
    /// Its end.
    CloseHidden,
    /// A line of the source.
    SourceLine(Seq<char>),
    /// The start of the definition of a macro.
    OpenMacro { name: Seq<char>, inline: bool },
    /// The start of an environment inside of a macro.
    OpenCode { hide: bool, inline: bool },
    /// The end of an environment inside of a macro, and the start of one of another kind.
    SwitchCode { hide: bool, inline: bool },
    /// The end of the definition of a macro, and before it that of the environment inside of it
    /// if there is one.
    CloseMacro { inline: bool, code: bool },
}

/// The option of a `code` environment inside of a macro.
pub open spec fn code_option(hide: bool, inline: bool) -> Seq<char> {
    if hide {
        "hide"@
    } else if inline {
        "\\IfBooleanTF{#1}{inline*}{inline}"@
    } else {
        ""@
    }
}

/// The text that starts a `code` environment.
pub open spec fn open_code_text(option: Seq<char>) -> Seq<char> {
    ltx_write::begin_text("code"@) + ltx_write::option_text(option) + "\n"@
}

/// `inner`, for where a macro is used without a star.
pub open spec fn unstarred_text(inner: Seq<char>) -> Seq<char> {
    ltx_write::command_text("IfBooleanF"@) + ltx_write::argument_text("#1"@)
        + ltx_write::argument_text(inner)
}

impl Piece {
    /// The text of the piece.
    pub open spec fn text(self) -> Seq<char> {
        match self {
            Piece::OpenHidden => open_code_text("hide"@),
            Piece::CloseHidden => ltx_write::end_text("code"@) + "\n"@ + "\n"@,
            Piece::SourceLine(line) => line + "\n"@,
            Piece::OpenMacro { name, inline } => comment_text(name, inline)
                + ltx_write::command_text("NewDocumentCommand"@) + ltx_write::command_text(name)
                + ltx_write::argument_text("s"@) + "{"@ + "%\n"@ + (if inline {
                Seq::empty()
            } else {
                unstarred_text(ltx_write::begin_text("AgdaMultiCode"@)) + "%\n"@
            }),
            Piece::OpenCode { hide, inline } => open_code_text(code_option(hide, inline)),
            Piece::SwitchCode { hide, inline } => ltx_write::end_text("code"@) + "%\n"@
                + open_code_text(code_option(hide, inline)),
            Piece::CloseMacro { inline, code } => (if !code {
                Seq::empty()
            } else if inline {
                ltx_write::end_text("code"@)
            } else {
                ltx_write::end_text("code"@) + "%\n"@ + unstarred_text(
                    ltx_write::end_text("AgdaMultiCode"@),
                )
            }) + "}"@ + "\n"@ + "\n"@,
        }
    }
}

/// Something that the translation of a source brings about.
pub enum Effect {
    /// A piece of text is written.
    Output(Piece),
    /// Something wrong is found.
    Diagnosed(Diagnostic),
    /// A macro is found.
    Defined(MacroText),
}

/// Something that the translation of a source asks for.
pub enum Event {
    /// A piece of text is to be written.
    Output(String),
    /// Something wrong is to be reported.
    Diagnosed(Diagnostic),
    /// A macro is to be recorded.
    Defined(Macro<String>),
}

impl Event {
    /// Whether this event asks for `effect`.
    pub open spec fn shows(self, effect: Effect) -> bool {
        match (self, effect) {
            (Event::Output(s), Effect::Output(piece)) => s@ == piece.text(),
            (Event::Diagnosed(a), Effect::Diagnosed(b)) => a == b,
            (Event::Defined(a), Effect::Defined(b)) => a@ == b,
            _ => false,
        }
    }
}

/// Whether the events ask for just these effects, in this order.
pub open spec fn show(events: Seq<Event>, effects: Seq<Effect>) -> bool {
    &&& events.len() == effects.len()
    &&& forall|i: int| 0 <= i < events.len() ==> (#[trigger] events[i]).shows(effects[i])
}

/// The span that covers `old` and `span`.
pub open spec fn covering(old: Option<Span>, span: Span) -> Span {
    match old {
        Some(s) => Range {
            start: if s.start <= span.start {
                s.start
            } else {
                span.start
            },
            end: if s.end >= span.end {
                s.end
            } else {
                span.end
            },
        },
        None => span,
    }
}

/// How far a translation has got.
#[verifier::ext_equal]
pub struct Progress {
    pub mode: Mode<MacroMode>,
    /// The open namespaces, outermost first.
    pub namespaces: Seq<Seq<char>>,
    /// The annotations that started the open hidden parts, outermost first.
    pub hides: Seq<Span>,
    /// Where the last macro was that an empty line could close, if no other came after it.
    pub prev_autoclose_macro: Option<Span>,
    /// What has been brought about so far.
    pub effects: Seq<Effect>,
}

impl Progress {
    /// The start of a translation.
    pub open spec fn start() -> Progress {
        Progress {
            mode: Mode::Outside,
            namespaces: Seq::empty(),
            hides: Seq::empty(),
            prev_autoclose_macro: None,
            effects: Seq::empty(),
        }
    }

    /// One effect more.
    pub open spec fn effect(self, effect: Effect) -> Progress {
        Progress { effects: self.effects.push(effect), ..self }
    }

    /// One piece of output more.
    pub open spec fn output(self, piece: Piece) -> Progress {
        self.effect(Effect::Output(piece))
    }

    /// One diagnostic more.
    pub open spec fn diagnosed(self, diagnostic: Diagnostic) -> Progress {
        self.effect(Effect::Diagnosed(diagnostic))
    }

    /// Inside of a macro, the right kind of environment is open.
    pub open spec fn in_code(self) -> Progress {
        match self.mode {
            Mode::Macro(m) => {
                let hide = self.hides.len() > 0;
                let right = if hide {
                    m.inner_mode is Hide
                } else {
                    m.inner_mode is Macro
                };
                if right {
                    self
                } else {
                    let inner_mode = if hide {
                        Mode::Hide
                    } else {
                        Mode::Macro(())
                    };
                    let next = Progress {
                        mode: Mode::Macro(MacroMode { inner_mode, ..m }),
                        ..self
                    };
                    if m.inner_mode is Outside {
                        next.output(Piece::OpenCode { hide, inline: m.inline })
                    } else {
                        next.output(Piece::SwitchCode { hide, inline: m.inline })
                    }
                }
            },
            _ => self,
        }
    }

    /// A line is added that is no annotation. Outside of macros it goes into a hidden environment
    /// if `need_hide` says so.
    pub open spec fn verbatim(self, line: Seq<char>, span: Span, need_hide: bool) -> Progress {
        let ready = match self.mode {
            Mode::Outside => if need_hide {
                Progress { mode: Mode::Hide, ..self }.output(Piece::OpenHidden)
            } else {
                self
            },
            Mode::Hide => self,
            Mode::Macro(m) => Progress {
                mode: Mode::Macro(MacroMode { body: Some(covering(m.body, span)), ..m }),
                ..self
            },
        };
        ready.in_code().output(Piece::SourceLine(line))
    }

    /// An empty line is added.
    pub open spec fn empty_line(self, span: Span) -> Progress {
        if self.mode is Macro && self.mode->Macro_0.auto_close {
            self.closed(false, span)
        } else {
            self.verbatim(Seq::empty(), span, false)
        }
    }

    /// The end of a macro.
    pub open spec fn macro_closed(self, m: MacroMode) -> Progress {
        self.output(Piece::CloseMacro { inline: m.inline, code: !(m.inner_mode is Outside) })
    }

    /// The open macro is closed, by an annotation if `explicit`. Where no macro is open, that is
    /// diagnosed, and nothing else changes.
    pub open spec fn closed(self, explicit: bool, span: Span) -> Progress {
        let left = Progress { mode: Mode::Outside, ..self };
        match self.mode {
            Mode::Macro(m) => {
                let a = if explicit && m.auto_close {
                    left.diagnosed(
                        Diagnostic::MacroCloseExplicit {
                            macro_start: m.start,
                            macro_end: span,
                            macro_body: m.body,
                        },
                    )
                } else {
                    left
                };
                let b = if self.hides.len() > 0 {
                    a.diagnosed(
                        Diagnostic::MacroCloseHideStack {
                            macro_start: m.start,
                            macro_end: span,
                            open_hide: self.hides.last(),
                        },
                    )
                } else {
                    a
                };
                let prev_autoclose_macro = if m.auto_close {
                    Some(Range { start: m.start.start, end: span.end })
                } else {
                    None
                };
                Progress { prev_autoclose_macro, ..b }.macro_closed(m)
            },
            _ => self.diagnosed(
                Diagnostic::NoMacroToClose {
                    end_span: span,
                    prev_autoclose_macro: self.prev_autoclose_macro,
                },
            ),
        }
    }

    /// Whatever is open is closed, at the end of the source if `file_end`.
    pub open spec fn outside(self, span: Span, file_end: bool) -> Progress {
        let left = Progress { mode: Mode::Outside, ..self };
        match self.mode {
            Mode::Outside => self,
            Mode::Hide => left.output(Piece::CloseHidden),
            Mode::Macro(m) => {
                let a = if m.auto_close && file_end {
                    left
                } else if file_end {
                    left.diagnosed(
                        Diagnostic::UnfinishedMacro {
                            cur_start_span: m.start,
                            cur_macro_span: m.body,
                            file_end_span: span,
                        },
                    )
                } else {
                    left.diagnosed(
                        Diagnostic::OpenMacro {
                            cur_start_span: m.start,
                            cur_macro_span: m.body,
                            new_start_span: span,
                        },
                    )
                };
                Progress { prev_autoclose_macro: None, hides: Seq::empty(), ..a }.macro_closed(m)
            },
        }
    }

    /// A macro is started. Its full name is its own behind those of the open namespaces.
    pub open spec fn macro_started(self, name: Seq<char>, line: u32, m: MacroMode) -> Progress {
        let left = self.outside(m.start, false);
        let full = text::joined(left.namespaces) + name;
        let named = left.effect(
            Effect::Defined(MacroText { name: full, line, inline: m.inline }),
        ).output(Piece::OpenMacro { name: full, inline: m.inline });
        Progress { mode: Mode::Macro(m), ..named }
    }

    /// An annotation is followed.
    pub open spec fn command(self, command: CommandText, line: u32) -> Progress {
        match command {
            CommandText::MacroStart { name, auto_close, inline, span } => self.macro_started(
                name.text,
                line,
                MacroMode {
                    start: span,
                    body: None,
                    inline,
                    auto_close,
                    inner_mode: Mode::Outside,
                },
            ),
            CommandText::MacroEnd(span) => self.closed(true, span),
            CommandText::NamespaceOpen { name, .. } => Progress {
                namespaces: self.namespaces.push(name.text),
                ..self
            },
            CommandText::NamespaceClose(span) => if self.namespaces.len() > 0 {
                Progress { namespaces: self.namespaces.drop_last(), ..self }
            } else {
                self.diagnosed(Diagnostic::NoNamespaceToClose { close_span: span })
            },
            CommandText::HideStart(span) => Progress { hides: self.hides.push(span), ..self },
            CommandText::HideEnd(span) => if self.hides.len() > 0 {
                Progress { hides: self.hides.drop_last(), ..self }
            } else {
                self.diagnosed(Diagnostic::NoHideToClose { close_span: span })
            },
        }
    }

    /// The line with the number `line_no` is read.
    pub open spec fn line(self, line_no: nat, line: SpanText) -> Progress {
        let trimmed = line.trim();
        if trimmed.text.len() == 0 {
            self.empty_line(line.span())
        } else {
            match command::parsed(trimmed) {
                ParsedText::NotACommand => self.verbatim(line.text, line.span(), true),
                ParsedText::InvalidCommand => self.diagnosed(
                    Diagnostic::InvalidCommand { command_span: trimmed.span() },
                ).verbatim(line.text, line.span(), true),
                ParsedText::Command { command, trailing_chars, invalid_inline_annot } => {
                    let a = match trailing_chars {
                        Some(trail) => self.diagnosed(
                            Diagnostic::CommandTrailingChars {
                                command_span: command.span(),
                                trail_span: trail.span(),
                            },
                        ),
                        None => self,
                    };
                    let b = match invalid_inline_annot {
                        Some(inline) => a.diagnosed(
                            Diagnostic::CommandInvalidInline {
                                command_span: command.span(),
                                inline_span: inline.span(),
                            },
                        ),
                        None => a,
                    };
                    b.command(command, line_no as u32)
                },
            }
        }
    }

    /// The lines of `src` are read, the first of which has the number `line_no`.
    pub open spec fn lines(self, line_no: nat, src: SpanText) -> Progress
        decreases src.text.len(),
    {
        if src.text.len() == 0 {
            self
        } else {
            let (line, rest) = span_str::first_line(src);
            self.line(line_no, line).lines(line_no + 1, rest)
        }
    }
}

/// The text of a whole source.
pub open spec fn source(src: Seq<char>) -> SpanText {
    SpanText { text: src, start: 0 }
}

/// The translation of a whole source.
pub open spec fn translated(src: Seq<char>) -> Progress {
    let end = source(src).end();
    Progress::start().lines(0, source(src)).outside(span_str::span_of(end, end), true)
}

/// The numbers of the lines with annotations fit into 32 bits, where the first line of `src` has
/// the number `line_no`.
pub open spec fn numbers_fit(line_no: nat, src: SpanText) -> bool
    decreases src.text.len(),
{
    src.text.len() > 0 ==> {
        let (line, rest) = span_str::first_line(src);
        &&& command::parsed(line.trim()) is Command ==> line_no <= u32::MAX
        &&& numbers_fit(line_no + 1, rest)
    }
}

/// What `numbers_fit` says of the first line and of the others.
proof fn lemma_numbers_fit(line_no: nat, src: SpanText)
    requires
        src.text.len() > 0,
    ensures
        numbers_fit(line_no, src) == {
            &&& command::parsed(span_str::first_line(src).0.trim()) is Command ==> line_no
                <= u32::MAX
            &&& numbers_fit(line_no + 1, span_str::first_line(src).1)
        },
{
}

/// The text of the start of a `code` environment behind other code.
#[verifier::rlimit(60)]
proof fn lemma_open_code(code: Seq<Seq<char>>, option: Seq<char>)
    ensures
        text::joined(
            ltx_write::with_option(ltx_write::with_begin(code, "code"@), option).push("\n"@),
        ) == text::joined(code) + open_code_text(option),
{
    let a = ltx_write::with_begin(code, "code"@);
    let b = ltx_write::with_option(a, option);
    ltx_write::law_text(code, "code"@);
    ltx_write::law_text(a, option);
    ltx_write::law_text(b, "\n"@);
    assert(text::joined(b.push("\n"@)) =~= text::joined(code) + open_code_text(option));
}

/// The text of what stands behind `IfBooleanF`, up to the brace that opens its second argument.
#[verifier::rlimit(60)]
proof fn lemma_unstarred(code: Seq<Seq<char>>, inner: Seq<char>)
    ensures
        ({
            let a = ltx_write::with_argument(
                ltx_write::with_command(code, "IfBooleanF"@),
                "#1"@,
            );
            &&& text::joined(ltx_write::with_begin(a.push("{"@), inner).push("}"@)) == text::joined(
                code,
            ) + unstarred_text(ltx_write::begin_text(inner))
            &&& text::joined(ltx_write::with_end(a.push("{"@), inner).push("}"@)) == text::joined(
                code,
            ) + unstarred_text(ltx_write::end_text(inner))
        }),
{
    let c = ltx_write::with_command(code, "IfBooleanF"@);
    let a = ltx_write::with_argument(c, "#1"@);
    let b = a.push("{"@);
    ltx_write::law_text(code, "IfBooleanF"@);
    ltx_write::law_text(c, "#1"@);
    ltx_write::law_text(a, "{"@);
    ltx_write::law_text(b, inner);
    let x = ltx_write::with_begin(b, inner);
    let y = ltx_write::with_end(b, inner);
    ltx_write::law_text(x, "}"@);
    ltx_write::law_text(y, "}"@);
    assert(text::joined(x.push("}"@)) =~= text::joined(code) + unstarred_text(
        ltx_write::begin_text(inner),
    ));
    assert(text::joined(y.push("}"@)) =~= text::joined(code) + unstarred_text(
        ltx_write::end_text(inner),
    ));
}

/// The text that starts the definition of a macro.
#[verifier::rlimit(60)]
proof fn lemma_macro_head(name: Seq<char>, inline: bool)
    ensures
        ({
            let a = with_macro_comment(Seq::empty(), name, inline);
            let b = ltx_write::with_command(a, "NewDocumentCommand"@);
            let c = ltx_write::with_argument(ltx_write::with_command(b, name), "s"@);
            let d = c.push("{"@).push("%\n"@);
            let e = ltx_write::with_argument(ltx_write::with_command(d, "IfBooleanF"@), "#1"@);
            let f = ltx_write::with_begin(e.push("{"@), "AgdaMultiCode"@).push("}"@);
            text::joined(if inline {
                d
            } else {
                f.push("%\n"@)
            }) == (Piece::OpenMacro { name, inline }).text()
        }),
{
    let none = Seq::<Seq<char>>::empty();
    let a = with_macro_comment(none, name, inline);
    let b = ltx_write::with_command(a, "NewDocumentCommand"@);
    let b2 = ltx_write::with_command(b, name);
    let c = ltx_write::with_argument(b2, "s"@);
    let c2 = c.push("{"@);
    let d = c2.push("%\n"@);
    let e = ltx_write::with_argument(ltx_write::with_command(d, "IfBooleanF"@), "#1"@);
    let f = ltx_write::with_begin(e.push("{"@), "AgdaMultiCode"@).push("}"@);
    lemma_comment_text(none, name, inline);
    ltx_write::law_text(a, "NewDocumentCommand"@);
    ltx_write::law_text(b, name);
    ltx_write::law_text(b2, "s"@);
    ltx_write::law_text(c, "{"@);
    ltx_write::law_text(c2, "%\n"@);
    lemma_unstarred(d, "AgdaMultiCode"@);
    ltx_write::law_text(f, "%\n"@);
    assert(text::joined(d) =~= comment_text(name, inline) + ltx_write::command_text(
        "NewDocumentCommand"@,
    ) + ltx_write::command_text(name) + ltx_write::argument_text("s"@) + "{"@ + "%\n"@);
    assert(text::joined(if inline {
        d
    } else {
        f.push("%\n"@)
    }) =~= (Piece::OpenMacro { name, inline }).text());
}

/// The text that ends the definition of a macro behind other code.
proof fn lemma_macro_end(code: Seq<Seq<char>>)
    ensures
        text::joined(code.push("}"@).push("\n"@).push("\n"@)) == text::joined(code) + "}"@ + "\n"@
            + "\n"@,
{
    ltx_write::law_text(code, "}"@);
    ltx_write::law_text(code.push("}"@), "\n"@);
    ltx_write::law_text(code.push("}"@).push("\n"@), "\n"@);
}

/// Appends the start of a `code` environment.
fn push_code_begin<'a, N: Nat>(ltx: Ltx<'a, N>, code_arg: &'static str) -> (r: Ltx<
    'a,
    ltx_write::S<Add3<Add5<N>>>,
>)
    ensures
        r@ == ltx_write::with_option(ltx_write::with_begin(ltx@, "code"@), code_arg@).push("\n"@),
{
    ltx.begin("code", code_arg).ln()
}

/// Appends what starts the code of a macro that is not inline.
fn push_macro_prefix<'a, N: Nat>(ltx: Ltx<'a, N>) -> (r: Ltx<'a, Add3<Add5<Add5<N>>>>)
    ensures
        ({
            let a = ltx_write::with_argument(
                ltx_write::with_command(ltx@, "IfBooleanF"@),
                "#1"@,
            );
            r@ == ltx_write::with_begin(a.push("{"@), "AgdaMultiCode"@).push("}"@).push("%\n"@)
        }),
{
    ltx.command("IfBooleanF").group("#1").with_group(
        Group::tex(),
        |l: Ltx<'a, ltx_write::S<Add5<N>>>| -> (m: Ltx<'a, ltx_write::S<Add5<Add5<N>>>>)
            ensures
                m@ == ltx_write::with_begin(l@, "AgdaMultiCode"@)
            { l.begin_("AgdaMultiCode") },
    ).pctln()
}

/// Appends what ends the code of a macro that is not inline.
fn push_macro_suffix<'a, N: Nat>(ltx: Ltx<'a, N>) -> (r: Ltx<'a, Add3<Add5<Add5<N>>>>)
    ensures
        ({
            let a = ltx_write::with_argument(
                ltx_write::with_command(ltx@.push("%\n"@), "IfBooleanF"@),
                "#1"@,
            );
            r@ == ltx_write::with_end(a.push("{"@), "AgdaMultiCode"@).push("}"@)
        }),
{
    ltx.pctln().command("IfBooleanF").group("#1").with_group(
        Group::tex(),
        |l: Ltx<'a, Add2<Add5<N>>>| -> (m: Ltx<'a, Add2<Add5<Add5<N>>>>)
            ensures
                m@ == ltx_write::with_end(l@, "AgdaMultiCode"@)
            { l.end("AgdaMultiCode") },
    )
}

/// Appends what ends the definition of a macro.
fn push_macro_close<'a, N: Nat>(ltx: Ltx<'a, N>) -> (r: Ltx<'a, Add3<N>>)
    ensures
        r@ == ltx@.push("}"@).push("\n"@).push("\n"@),
{
    ltx.push(Group::tex().close).ln().ln()
}

/// Widens `dst` so that it covers `span` too.
pub fn union_span(dst: &mut Option<Span>, span: Span)
    ensures
        *final(dst) == Some(covering(*old(dst), span)),
{
    let start: usize;
    let end: usize;
    match dst {
        Some(s) => {
            start = if s.start <= span.start {
                s.start
            } else {
                span.start
            };
            end = if s.end >= span.end {
                s.end
            } else {
                span.end
            };
        },
        None => {
            start = span.start;
            end = span.end;
        },
    }
    *dst = Some(Range { start, end });
}

/// A translation that is under way.
struct Translation {
    events: Vec<Event>,
    effects: Ghost<Seq<Effect>>,
    mode: Mode<MacroMode>,
    namespaces: StringStack,
    hide_stack: Vec<Span>,
    prev_autoclose_macro: Option<Span>,
}

impl View for Translation {
    type V = Progress;

    closed spec fn view(&self) -> Progress {
        Progress {
            mode: self.mode,
            namespaces: self.namespaces@,
            hides: self.hide_stack@,
            prev_autoclose_macro: self.prev_autoclose_macro,
            effects: self.effects@,
        }
    }
}

impl Translation {
    /// The events ask for the effects, and the namespaces are in order.
    spec fn wf(&self) -> bool {
        show(self.events@, self.effects@) && self.namespaces.wf()
    }

    /// Starts a translation that uses the given stacks.
    fn new(namespaces: StringStack, hide_stack: Vec<Span>) -> (r: Translation)
        ensures
            r.wf(),
            r@ == Progress::start(),
    {
        let mut namespaces = namespaces;
        let mut hide_stack = hide_stack;
        namespaces.clear();
        hide_stack.clear();
        let r = Translation {
            events: Vec::new(),
            effects: Ghost(Seq::empty()),
            mode: Mode::Outside,
            namespaces,
            hide_stack,
            prev_autoclose_macro: None,
        };
        assert(r@ =~= Progress::start());
        r
    }

    /// Asks for an effect.
    fn ask(&mut self, event: Event, Ghost(effect): Ghost<Effect>)
        requires
            old(self).wf(),
            event.shows(effect),
        ensures
            final(self).wf(),
            final(self)@ == old(self)@.effect(effect),
            final(self).mode == old(self).mode,
    {
        self.events.push(event);
        proof {
            self.effects@ = self.effects@.push(effect);
        }
        assert(self@ =~= old(self)@.effect(effect));
    }

    /// Asks for a piece of output.
    fn write(&mut self, text: String, Ghost(piece): Ghost<Piece>)
        requires
            old(self).wf(),
            text@ == piece.text(),
        ensures
            final(self).wf(),
            final(self)@ == old(self)@.output(piece),
    {
        self.ask(Event::Output(text), Ghost(Effect::Output(piece)));
    }

    /// Reports something wrong.
    fn diagnose(&mut self, diagnostic: Diagnostic)
        requires
            old(self).wf(),
        ensures
            final(self).wf(),
            final(self)@ == old(self)@.diagnosed(diagnostic),
    {
        self.ask(Event::Diagnosed(diagnostic), Ghost(Effect::Diagnosed(diagnostic)));
    }

    /// Reads the line with the number `line_no`.
    fn add_line(&mut self, line: SpanStr<'_>, line_no: usize)
        requires
            old(self).wf(),
            line@.fits(),
            command::parsed(line@.trim()) is Command ==> line_no <= u32::MAX,
        ensures
            final(self).wf(),
            final(self)@ == old(self)@.line(line_no as nat, line@),
    {
        let line_span = line.span();
        let trimmed = line.trim();
        if trimmed.is_empty() {
            self.add_empty_line(line_span);
            return;
        }
        match Command::try_parse(trimmed) {
            CommandParseResult::NotACommand => {
                self.add_verbatim(line.as_str(), line_span, true);
            },
            CommandParseResult::InvalidCommand => {
                self.diagnose(Diagnostic::InvalidCommand { command_span: trimmed.span() });
                self.add_verbatim(line.as_str(), line_span, true);
            },
            CommandParseResult::Command { command, trailing_chars, invalid_inline_annot } => {
                proof {
                    command::law_command_place(trimmed@);
                }
                if let Some(trailing_chars) = trailing_chars {
                    self.diagnose(
                        Diagnostic::CommandTrailingChars {
                            command_span: span_str::copy_span(command.span()),
                            trail_span: trailing_chars.span(),
                        },
                    );
                }
                if let Some(inline_annot) = invalid_inline_annot {
                    self.diagnose(
                        Diagnostic::CommandInvalidInline {
                            command_span: span_str::copy_span(command.span()),
                            inline_span: inline_annot.span(),
                        },
                    );
                }
                self.add_command(command, line_no as u32);
            },
        }
    }

    /// Adds an empty line.
    fn add_empty_line(&mut self, line_span: Span)
        requires
            old(self).wf(),
        ensures
            final(self).wf(),
            final(self)@ == old(self)@.empty_line(line_span),
    {
        let closes = match &self.mode {
            Mode::Macro(macro_mode) => macro_mode.auto_close,
            _ => false,
        };
        if closes {
            self.close_macro(false, line_span);
        } else {
            proof {
                reveal_strlit("");
                assert(""@ =~= Seq::<char>::empty());
            }
            self.add_verbatim("", line_span, false);
        }
    }

    /// Adds a line that is no annotation.
    fn add_verbatim(&mut self, line: &str, line_span: Span, need_hide: bool)
        requires
            old(self).wf(),
        ensures
            final(self).wf(),
            final(self)@ == old(self)@.verbatim(line@, line_span, need_hide),
    {
        match &mut self.mode {
            Mode::Outside => {
                if need_hide {
                    self.mode = Mode::Hide;
                    let text = Ltx::new().begin("code", "hide").ln().to_string();
                    proof {
                        lemma_open_code(Seq::empty(), "hide"@);
                        assert(text@ =~= Piece::OpenHidden.text());
                    }
                    self.write(text, Ghost(Piece::OpenHidden));
                }
            },
            Mode::Macro(macro_mode) => {
                union_span(&mut macro_mode.body, line_span);
            },
            Mode::Hide => {},
        }

        self.ensure_correct_macro_mode();
        let text = Ltx::new().push(line).ln().to_string();
        proof {
            let none = Seq::<Seq<char>>::empty();
            ltx_write::law_text(none, line@);
            ltx_write::law_text(none.push(line@), "\n"@);
            assert(text@ =~= Piece::SourceLine(line@).text());
        }
        self.write(text, Ghost(Piece::SourceLine(line@)));
    }

    /// Inside of a macro, opens the kind of environment that the next line is to stand in.
    #[verifier::rlimit(60)]
    fn ensure_correct_macro_mode(&mut self)
        requires
            old(self).wf(),
        ensures
            final(self).wf(),
            final(self)@ == old(self)@.in_code(),
    {
        let hide = !self.hide_stack.is_empty();
        let (inline, opened) = match &mut self.mode {
            Mode::Macro(macro_mode) => {
                let (right, opened) = match &macro_mode.inner_mode {
                    Mode::Outside => (false, false),
                    Mode::Hide => (hide, true),
                    Mode::Macro(()) => (!hide, true),
                };
                if right {
                    return;
                }
                macro_mode.inner_mode = if hide {
                    Mode::Hide
                } else {
                    Mode::Macro(())
                };
                (macro_mode.inline, opened)
            },
            _ => {
                return;
            },
        };
        let code_arg = if hide {
            "hide"
        } else if inline {
            "\\IfBooleanTF{#1}{inline*}{inline}"
        } else {
            ""
        };
        let ghost none = Seq::<Seq<char>>::empty();
        if opened {
            let text = push_code_begin(Ltx::new().end("code").pctln(), code_arg).to_string();
            let ghost piece = Piece::SwitchCode { hide, inline };
            proof {
                let a = ltx_write::with_end(none, "code"@);
                ltx_write::law_text(none, "code"@);
                ltx_write::law_text(a, "%\n"@);
                lemma_open_code(a.push("%\n"@), code_arg@);
                assert(text@ =~= piece.text());
            }
            self.write(text, Ghost(piece));
        } else {
            let text = push_code_begin(Ltx::new(), code_arg).to_string();
            let ghost piece = Piece::OpenCode { hide, inline };
            proof {
                lemma_open_code(none, code_arg@);
                assert(text@ =~= piece.text());
            }
            self.write(text, Ghost(piece));
        }
    }

    /// Follows an annotation.
    fn add_command(&mut self, command: Command<'_>, line: u32)
        requires
            old(self).wf(),
        ensures
            final(self).wf(),
            final(self)@ == old(self)@.command(command@, line),
    {
        match command {
            Command::MacroStart { name, auto_close, inline, span } => {
                self.start_macro(
                    name.as_str(),
                    line,
                    MacroMode {
                        start: span,
                        body: None,
                        inline,
                        auto_close,
                        inner_mode: Mode::Outside,
                    },
                );
            },
            Command::MacroEnd(span) => {
                self.close_macro(true, span);
            },
            Command::NamespaceOpen { name, .. } => {
                self.namespaces.push(name.as_str());
            },
            Command::NamespaceClose(span) => {
                if self.namespaces.try_pop().is_none() {
                    self.diagnose(Diagnostic::NoNamespaceToClose { close_span: span });
                }
            },
            Command::HideStart(span) => {
                self.hide_stack.push(span);
            },
            Command::HideEnd(span) => {
                if self.hide_stack.pop().is_none() {
                    self.diagnose(Diagnostic::NoHideToClose { close_span: span });
                }
            },
        }
    }

    /// Starts a macro.
    #[verifier::rlimit(60)]
    fn start_macro(&mut self, name: &str, line: u32, macro_mode: MacroMode)
        requires
            old(self).wf(),
            macro_mode.inner_mode is Outside,
        ensures
            final(self).wf(),
            final(self)@ == old(self)@.macro_started(name@, line, macro_mode),
    {
        // Another macro may be open, or a hidden environment.
        self.transition_to_none_mode(span_str::copy_span(&macro_mode.start), false);

        // The full name is in the stack while the name lies on top of it.
        let ghost left = self@;
        let inline = macro_mode.inline;
        self.namespaces.push(name);
        let macro_ = Macro { name: self.namespaces.as_str(), line, inline };
        let ghost full = text::joined(left.namespaces) + name@;
        proof {
            text::lemma_joined_push(left.namespaces, name@);
        }
        let record = macro_.to_owned();
        let ltx = macro_.to_ltx_comment().command("NewDocumentCommand").command(
            macro_.name,
        ).group("s").push(Group::tex().open).pctln();
        let ghost code = ltx@;
        proof {
            lemma_macro_head(full, inline);
        }
        let text = if inline {
            ltx.to_string()
        } else {
            push_macro_prefix(ltx).to_string()
        };
        let _ = self.namespaces.pop();
        assert(left.namespaces.push(name@).drop_last() =~= left.namespaces);
        let ghost piece = Piece::OpenMacro { name: full, inline };
        self.ask(Event::Defined(record), Ghost(Effect::Defined(record@)));
        self.write(text, Ghost(piece));
        self.mode = Mode::Macro(macro_mode);
    }

    /// Closes whatever is open.
    fn transition_to_none_mode(&mut self, span: Span, file_end: bool)
        requires
            old(self).wf(),
        ensures
            final(self).wf(),
            final(self)@ == old(self)@.outside(span, file_end),
    {
        let mut mode = Mode::Outside;
        std::mem::swap(&mut mode, &mut self.mode);
        match mode {
            // Nothing to do.
            Mode::Outside => {},
            // End the hidden environment.
            Mode::Hide => {
                let text = Ltx::new().end("code").ln().ln().to_string();
                proof {
                    let none = Seq::<Seq<char>>::empty();
                    let a = ltx_write::with_end(none, "code"@);
                    ltx_write::law_text(none, "code"@);
                    ltx_write::law_text(a, "\n"@);
                    ltx_write::law_text(a.push("\n"@), "\n"@);
                    assert(text@ =~= Piece::CloseHidden.text());
                }
                self.write(text, Ghost(Piece::CloseHidden));
            },
            // Report the open macro and close it.
            Mode::Macro(macro_mode) => {
                // At the end of the source nothing else could close a macro that closes by itself.
                let auto_at_end = macro_mode.auto_close && file_end;
                if !auto_at_end {
                    let cur_start_span = span_str::copy_span(&macro_mode.start);
                    let cur_macro_span = diagnostic::copy_optional(&macro_mode.body);
                    let dia = if file_end {
                        Diagnostic::UnfinishedMacro {
                            cur_start_span,
                            cur_macro_span,
                            file_end_span: span,
                        }
                    } else {
                        Diagnostic::OpenMacro {
                            cur_start_span,
                            cur_macro_span,
                            new_start_span: span,
                        }
                    };
                    self.diagnose(dia);
                }
                self.prev_autoclose_macro = None;
                // Open hidden parts end with the macro.
                self.hide_stack.clear();
                self.emit_macro_close(macro_mode);
            },
        }
    }

    /// Closes the open macro, where an annotation asks for it or an empty line.
    fn close_macro(&mut self, explicit: bool, span: Span)
        requires
            old(self).wf(),
        ensures
            final(self).wf(),
            final(self)@ == old(self)@.closed(explicit, span),
    {
        let mut mode = Mode::Outside;
        std::mem::swap(&mut mode, &mut self.mode);
        match mode {
            Mode::Macro(macro_) => {
                // An empty line should have closed the macro.
                if explicit && macro_.auto_close {
                    self.diagnose(
                        Diagnostic::MacroCloseExplicit {
                            macro_start: span_str::copy_span(&macro_.start),
                            macro_end: span_str::copy_span(&span),
                            macro_body: diagnostic::copy_optional(&macro_.body),
                        },
                    );
                }
                // A hidden part should have ended.
                let n = self.hide_stack.len();
                if n > 0 {
                    let open_hide = span_str::copy_span(&self.hide_stack[n - 1]);
                    self.diagnose(
                        Diagnostic::MacroCloseHideStack {
                            macro_start: span_str::copy_span(&macro_.start),
                            macro_end: span_str::copy_span(&span),
                            open_hide,
                        },
                    );
                }
                // This is for the message on an annotation that closes the macro again.
                self.prev_autoclose_macro = if macro_.auto_close {
                    Some(Range { start: macro_.start.start, end: span.end })
                } else {
                    None
                };
                self.emit_macro_close(macro_);
            },
            // There is no macro to close: whatever is open stays open.
            Mode::Outside | Mode::Hide => {
                self.mode = mode;
                let prev_autoclose_macro = diagnostic::copy_optional(&self.prev_autoclose_macro);
                self.diagnose(
                    Diagnostic::NoMacroToClose { end_span: span, prev_autoclose_macro },
                );
            },
        }
    }

    /// Ends the definition of a macro.
    #[verifier::rlimit(60)]
    fn emit_macro_close(&mut self, macro_mode: MacroMode)
        requires
            old(self).wf(),
        ensures
            final(self).wf(),
            final(self)@ == old(self)@.macro_closed(macro_mode),
    {
        let code = match &macro_mode.inner_mode {
            Mode::Outside => false,
            Mode::Hide | Mode::Macro(_) => true,
        };
        let inline = macro_mode.inline;
        let ghost none = Seq::<Seq<char>>::empty();
        let ghost end = ltx_write::with_end(none, "code"@);
        let ghost piece = Piece::CloseMacro { inline, code };
        proof {
            ltx_write::law_text(none, "code"@);
        }
        let text = if !code {
            let text = push_macro_close(Ltx::new()).to_string();
            proof {
                lemma_macro_end(none);
                assert(text@ =~= piece.text());
            }
            text
        } else if inline {
            let text = push_macro_close(Ltx::new().end("code")).to_string();
            proof {
                lemma_macro_end(end);
                assert(text@ =~= piece.text());
            }
            text
        } else {
            let ltx = push_macro_suffix(Ltx::new().end("code"));
            proof {
                ltx_write::law_text(end, "%\n"@);
                lemma_unstarred(end.push("%\n"@), "AgdaMultiCode"@);
                lemma_macro_end(ltx@);
            }
            let text = push_macro_close(ltx).to_string();
            assert(text@ =~= piece.text());
            text
        };
        self.write(text, Ghost(piece));
    }
}

/// Translates sources one after the other.
pub struct Translator {
    namespaces: StringStack,
    hide_stack: Vec<Span>,
}

/// What a translator keeps.
pub struct Leftover {
    /// The namespaces that the last source left open.
    pub namespaces: Seq<Seq<char>>,
    /// The annotations that started the hidden parts that it left open.
    pub hides: Seq<Span>,
}

/// What the translation of `src` leaves open.
pub open spec fn leftover(src: Seq<char>) -> Leftover {
    Leftover { namespaces: translated(src).namespaces, hides: translated(src).hides }
}

impl View for Translator {
    type V = Leftover;

    closed spec fn view(&self) -> Leftover {
        Leftover { namespaces: self.namespaces@, hides: self.hide_stack@ }
    }
}

impl Default for Translator {
    fn default() -> (r: Self)
        ensures
            r@.namespaces == Seq::<Seq<char>>::empty(),
            r@.hides == Seq::<Span>::empty(),
    {
        Translator { namespaces: StringStack::new(), hide_stack: Vec::new() }
    }
}

impl Translator {
    /// Translates `src`. What comes out does not depend on sources before it.
    pub fn run(&mut self, src: &str) -> (events: Vec<Event>)
        requires
            numbers_fit(0, source(src@)),
        ensures
            show(events@, translated(src@).effects),
            final(self)@ == leftover(src@),
    {
        let mut namespaces = StringStack::new();
        let mut hide_stack: Vec<Span> = Vec::new();
        std::mem::swap(&mut namespaces, &mut self.namespaces);
        std::mem::swap(&mut hide_stack, &mut self.hide_stack);
        let mut translation = Translation::new(namespaces, hide_stack);
        let src = SpanStr::new(src);
        let ghost all = src@;
        let len = src.len();
        proof {
            text::lemma_len_bound(all.text);
        }
        let mut lines = src.as_str().line_indices();
        let mut line_no: usize = 0;
        loop
            invariant
                translation.wf(),
                lines@.fits(),
                line_no + lines@.text.len() <= len,
                numbers_fit(line_no as nat, lines@),
                translation@.lines(line_no as nat, lines@) == Progress::start().lines(0, all),
            ensures
                translation.wf(),
                translation@ == Progress::start().lines(0, all),
            decreases lines@.text.len(),
        {
            let line = match lines.next() {
                Some(line) => line,
                None => {
                    break;
                },
            };
            translation.add_line(SpanStr::with_offset(line.as_ref(), line.offset()), line_no);
            line_no = line_no + 1;
        }
        let end = src.span().end;
        translation.transition_to_none_mode(end..end, true);
        let Translation { events, namespaces, hide_stack, .. } = translation;
        self.namespaces = namespaces;
        self.hide_stack = hide_stack;
        events
    }
}

/// Whether the numbers of the lines with annotations fit into 32 bits.
pub fn line_numbers_fit(src: &str) -> (r: bool)
    ensures
        r == numbers_fit(0, source(src@)),
{
    let whole = SpanStr::new(src);
    let ghost all = whole@;
    let len = whole.len();
    proof {
        text::lemma_len_bound(all.text);
    }
    let mut lines = whole.as_str().line_indices();
    let mut line_no: usize = 0;
    loop
        invariant
            all == source(src@),
            lines@.fits(),
            line_no + lines@.text.len() <= len,
            numbers_fit(line_no as nat, lines@) == numbers_fit(0, all),
        ensures
            numbers_fit(0, all),
        decreases lines@.text.len(),
    {
        let ghost before = lines@;
        let line = match lines.next() {
            Some(line) => line,
            None => {
                break;
            },
        };
        proof {
            lemma_numbers_fit(line_no as nat, before);
        }
        if line_no > u32::MAX as usize {
            if let CommandParseResult::Command { .. } = Command::try_parse(
                SpanStr::with_offset(line.as_ref(), line.offset()).trim(),
            ) {
                return false;
            }
        }
        line_no = line_no + 1;
    }
    true
}

/// A comment on a macro behind other code: the sign `%`, the macro, a mark if it is inline, and the
/// end of the line, in five slices.
pub proof fn law_macro_comment(code: Seq<Seq<char>>, name: Seq<char>, inline: bool)
    ensures
        with_macro_comment(code, name, inline).len() == code.len() + 5,
        text::joined(with_macro_comment(code, name, inline)) == text::joined(code) + seq![
            '%',
            ' ',
            '\\',
        ] + name + (if inline {
            " [inline]"@
        } else {
            Seq::empty()
        }) + seq!['\n'],
{
    reveal_strlit("% ");
    reveal_strlit("\\");
    reveal_strlit("");
    reveal_strlit("\n");
    lemma_comment_text(code, name, inline);
    assert("% "@ + "\\"@ =~= seq!['%', ' ', '\\']);
    assert(""@ =~= Seq::<char>::empty());
    assert("\n"@ =~= seq!['\n']);
    assert(text::joined(code) + comment_text(name, inline) =~= text::joined(code) + ("% "@ + "\\"@)
        + name + inline_mark(inline) + seq!['\n']);
}

} // verus!
