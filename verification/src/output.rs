//! What a translation writes, reports and records for each line of a source.
//!
//! All is said in terms of the lines of the source and of the text that is written.
use vstd::prelude::*;

use crate::command;
use crate::command::{CommandText, ParsedText};
use crate::diagnostic::Diagnostic;
use crate::document;
use crate::driver;
use crate::ltx_write;
use crate::outline;
use crate::span_str;
use crate::span_str::{Span, SpanText};
use crate::text;
use crate::translation;
use crate::translation::{
    Effect, Event, MacroMode, MacroText, Mode, Piece, Progress, Translator,
};

verus! {

/// The text that starts an environment inside of a macro.
#[verifier::rlimit(60)]
proof fn lemma_open_code_text()
    ensures
        (Piece::OpenHidden).text() == "\\begin{code}[hide]\n"@,
        forall|inline: bool|
            #[trigger] (Piece::OpenCode { hide: true, inline }).text() == "\\begin{code}[hide]\n"@,
        (Piece::OpenCode { hide: false, inline: true }).text()
            == "\\begin{code}[\\IfBooleanTF{#1}{inline*}{inline}]\n"@,
        (Piece::OpenCode { hide: false, inline: false }).text() == "\\begin{code}[]\n"@,
{
    reveal_strlit("\\begin{code}[hide]\n");
    reveal_strlit("\\begin{code}[\\IfBooleanTF{#1}{inline*}{inline}]\n");
    reveal_strlit("\\begin{code}[]\n");
    reveal_strlit("\\IfBooleanTF{#1}{inline*}{inline}");
    reveal_strlit("\\");
    reveal_strlit("begin");
    reveal_strlit("{");
    reveal_strlit("code");
    reveal_strlit("}");
    reveal_strlit("[");
    reveal_strlit("]");
    reveal_strlit("hide");
    reveal_strlit("\n");
    reveal_strlit("");
    assert((Piece::OpenHidden).text() =~= "\\begin{code}[hide]\n"@);
    assert((Piece::OpenCode { hide: true, inline: true }).text() =~= "\\begin{code}[hide]\n"@);
    assert((Piece::OpenCode { hide: true, inline: false }).text() =~= "\\begin{code}[hide]\n"@);
    assert((Piece::OpenCode { hide: false, inline: true }).text()
        =~= "\\begin{code}[\\IfBooleanTF{#1}{inline*}{inline}]\n"@);
    assert((Piece::OpenCode { hide: false, inline: false }).text() =~= "\\begin{code}[]\n"@);
}

/// The text that ends an environment and starts another.
#[verifier::rlimit(60)]
proof fn lemma_switch_code_text()
    ensures
        (Piece::CloseHidden).text() == "\\end{code}\n\n"@,
        forall|hide: bool, inline: bool|
            #[trigger] (Piece::SwitchCode { hide, inline }).text() == "\\end{code}%\n"@
                + (Piece::OpenCode { hide, inline }).text(),
{
    reveal_strlit("\\end{code}\n\n");
    reveal_strlit("\\end{code}%\n");
    reveal_strlit("\\");
    reveal_strlit("end");
    reveal_strlit("{");
    reveal_strlit("code");
    reveal_strlit("}");
    reveal_strlit("%\n");
    reveal_strlit("\n");
    assert((Piece::CloseHidden).text() =~= "\\end{code}\n\n"@);
    assert(ltx_write::end_text("code"@) + "%\n"@ =~= "\\end{code}%\n"@);
}

/// The text that starts the definition of a macro.
#[verifier::rlimit(60)]
proof fn lemma_open_macro_text(name: Seq<char>)
    ensures
        (Piece::OpenMacro { name, inline: true }).text() == "% \\"@ + name
            + " [inline]\n\\NewDocumentCommand\\"@ + name + "{s}{%\n"@,
        (Piece::OpenMacro { name, inline: false }).text() == "% \\"@ + name
            + "\n\\NewDocumentCommand\\"@ + name
            + "{s}{%\n\\IfBooleanF{#1}{\\begin{AgdaMultiCode}}%\n"@,
{
    lemma_open_macro_glue();
    assert((Piece::OpenMacro { name, inline: true }).text() =~= ("% "@ + "\\"@) + name + (
    " [inline]"@ + "\n"@ + ("\\"@ + "NewDocumentCommand"@) + "\\"@) + name + ("{"@ + "s"@ + "}"@
        + "{"@ + "%\n"@));
    assert((Piece::OpenMacro { name, inline: false }).text() =~= ("% "@ + "\\"@) + name + (""@
        + "\n"@ + ("\\"@ + "NewDocumentCommand"@) + "\\"@) + name + ("{"@ + "s"@ + "}"@ + "{"@
        + "%\n"@ + ("\\"@ + "IfBooleanF"@) + ("{"@ + "#1"@ + "}"@) + ("{"@ + ("\\"@ + "begin"@
        + ("{"@ + "AgdaMultiCode"@ + "}"@)) + "}"@) + "%\n"@));
}

/// The texts between the names at the start of a definition.
#[verifier::rlimit(60)]
proof fn lemma_open_macro_glue()
    ensures
        "% "@ + "\\"@ == "% \\"@,
        " [inline]"@ + "\n"@ + ("\\"@ + "NewDocumentCommand"@) + "\\"@
            == " [inline]\n\\NewDocumentCommand\\"@,
        ""@ + "\n"@ + ("\\"@ + "NewDocumentCommand"@) + "\\"@ == "\n\\NewDocumentCommand\\"@,
        "{"@ + "s"@ + "}"@ + "{"@ + "%\n"@ == "{s}{%\n"@,
        "{"@ + "s"@ + "}"@ + "{"@ + "%\n"@ + ("\\"@ + "IfBooleanF"@) + ("{"@ + "#1"@ + "}"@) + ("{"@
            + ("\\"@ + "begin"@ + ("{"@ + "AgdaMultiCode"@ + "}"@)) + "}"@) + "%\n"@
            == "{s}{%\n\\IfBooleanF{#1}{\\begin{AgdaMultiCode}}%\n"@,
{
    reveal_strlit("% \\");
    reveal_strlit(" [inline]\n\\NewDocumentCommand\\");
    reveal_strlit("\n\\NewDocumentCommand\\");
    reveal_strlit("{s}{%\n");
    reveal_strlit("{s}{%\n\\IfBooleanF{#1}{\\begin{AgdaMultiCode}}%\n");
    reveal_strlit("% ");
    reveal_strlit("\\");
    reveal_strlit(" [inline]");
    reveal_strlit("");
    reveal_strlit("\n");
    reveal_strlit("NewDocumentCommand");
    reveal_strlit("{");
    reveal_strlit("s");
    reveal_strlit("}");
    reveal_strlit("%\n");
    reveal_strlit("IfBooleanF");
    reveal_strlit("#1");
    reveal_strlit("begin");
    reveal_strlit("AgdaMultiCode");
    assert("% "@ + "\\"@ =~= "% \\"@);
    assert(" [inline]"@ + "\n"@ + ("\\"@ + "NewDocumentCommand"@) + "\\"@
        =~= " [inline]\n\\NewDocumentCommand\\"@);
    assert(""@ + "\n"@ + ("\\"@ + "NewDocumentCommand"@) + "\\"@ =~= "\n\\NewDocumentCommand\\"@);
    assert("{"@ + "s"@ + "}"@ + "{"@ + "%\n"@ =~= "{s}{%\n"@);
    assert("{"@ + "s"@ + "}"@ + "{"@ + "%\n"@ + ("\\"@ + "IfBooleanF"@) + ("{"@ + "#1"@ + "}"@) + (
    "{"@ + ("\\"@ + "begin"@ + ("{"@ + "AgdaMultiCode"@ + "}"@)) + "}"@) + "%\n"@
        =~= "{s}{%\n\\IfBooleanF{#1}{\\begin{AgdaMultiCode}}%\n"@);
}

/// The text that ends the definition of a macro.
#[verifier::rlimit(60)]
proof fn lemma_close_macro_text()
    ensures
        forall|inline: bool|
            #[trigger] (Piece::CloseMacro { inline, code: false }).text() == "}\n\n"@,
        (Piece::CloseMacro { inline: true, code: true }).text() == "\\end{code}}\n\n"@,
        (Piece::CloseMacro { inline: false, code: true }).text()
            == "\\end{code}%\n\\IfBooleanF{#1}{\\end{AgdaMultiCode}}}\n\n"@,
{
    reveal_strlit("}\n\n");
    reveal_strlit("\\end{code}}\n\n");
    reveal_strlit("\\end{code}%\n\\IfBooleanF{#1}{\\end{AgdaMultiCode}}}\n\n");
    reveal_strlit("\\");
    reveal_strlit("end");
    reveal_strlit("{");
    reveal_strlit("code");
    reveal_strlit("}");
    reveal_strlit("%\n");
    reveal_strlit("\n");
    reveal_strlit("IfBooleanF");
    reveal_strlit("#1");
    reveal_strlit("AgdaMultiCode");
    assert((Piece::CloseMacro { inline: true, code: false }).text() =~= "}\n\n"@);
    assert((Piece::CloseMacro { inline: false, code: false }).text() =~= "}\n\n"@);
    assert((Piece::CloseMacro { inline: true, code: true }).text() =~= "\\end{code}}\n\n"@);
    assert((Piece::CloseMacro { inline: false, code: true }).text()
        =~= "\\end{code}%\n\\IfBooleanF{#1}{\\end{AgdaMultiCode}}}\n\n"@);
}

/// The texts of all pieces.
pub proof fn law_piece_text(name: Seq<char>, line: Seq<char>, hide: bool, inline: bool)
    ensures
        (Piece::OpenHidden).text() == "\\begin{code}[hide]\n"@,
        (Piece::CloseHidden).text() == "\\end{code}\n\n"@,
        Piece::SourceLine(line).text() == line + seq!['\n'],
        (Piece::OpenCode { hide, inline }).text() == (if hide {
            "\\begin{code}[hide]\n"@
        } else if inline {
            "\\begin{code}[\\IfBooleanTF{#1}{inline*}{inline}]\n"@
        } else {
            "\\begin{code}[]\n"@
        }),
        (Piece::SwitchCode { hide, inline }).text() == "\\end{code}%\n"@ + (if hide {
            "\\begin{code}[hide]\n"@
        } else if inline {
            "\\begin{code}[\\IfBooleanTF{#1}{inline*}{inline}]\n"@
        } else {
            "\\begin{code}[]\n"@
        }),
        (Piece::OpenMacro { name, inline: true }).text() == "% \\"@ + name
            + " [inline]\n\\NewDocumentCommand\\"@ + name + "{s}{%\n"@,
        (Piece::OpenMacro { name, inline: false }).text() == "% \\"@ + name
            + "\n\\NewDocumentCommand\\"@ + name
            + "{s}{%\n\\IfBooleanF{#1}{\\begin{AgdaMultiCode}}%\n"@,
        (Piece::CloseMacro { inline, code: false }).text() == "}\n\n"@,
        (Piece::CloseMacro { inline: true, code: true }).text() == "\\end{code}}\n\n"@,
        (Piece::CloseMacro { inline: false, code: true }).text()
            == "\\end{code}%\n\\IfBooleanF{#1}{\\end{AgdaMultiCode}}}\n\n"@,
{
    lemma_open_code_text();
    lemma_switch_code_text();
    lemma_open_macro_text(name);
    lemma_close_macro_text();
    reveal_strlit("\n");
    assert("\n"@ =~= seq!['\n']);
}

/// The text that starts a `code` environment inside of a macro.
pub open spec fn begin(hide: bool, inline: bool) -> Seq<char> {
    if hide {
        "\\begin{code}[hide]\n"@
    } else if inline {
        "\\begin{code}[\\IfBooleanTF{#1}{inline*}{inline}]\n"@
    } else {
        "\\begin{code}[]\n"@
    }
}

/// The text that makes the right kind of environment open inside of a macro, where `open` says
/// whether the one that is open, if any, is hidden.
pub open spec fn switch(open: Option<bool>, hide: bool, inline: bool) -> Seq<char> {
    if open == Some(hide) {
        Seq::empty()
    } else if open is None {
        begin(hide, inline)
    } else {
        "\\end{code}%\n"@ + begin(hide, inline)
    }
}

/// The text that starts the definition of a macro.
pub open spec fn head(name: Seq<char>, inline: bool) -> Seq<char> {
    if inline {
        "% \\"@ + name + " [inline]\n\\NewDocumentCommand\\"@ + name + "{s}{%\n"@
    } else {
        "% \\"@ + name + "\n\\NewDocumentCommand\\"@ + name
            + "{s}{%\n\\IfBooleanF{#1}{\\begin{AgdaMultiCode}}%\n"@
    }
}

/// The text that ends the definition of a macro, and before that the environment inside of it if
/// one is open.
pub open spec fn tail(inline: bool, code: bool) -> Seq<char> {
    if !code {
        "}\n\n"@
    } else if inline {
        "\\end{code}}\n\n"@
    } else {
        "\\end{code}%\n\\IfBooleanF{#1}{\\end{AgdaMultiCode}}}\n\n"@
    }
}

/// What is wrong among `effects`.
pub open spec fn diagnostics_in(effects: Seq<Effect>) -> Seq<Diagnostic>
    decreases effects.len(),
{
    if effects.len() == 0 {
        Seq::empty()
    } else {
        let before = diagnostics_in(effects.drop_last());
        match effects.last() {
            Effect::Diagnosed(d) => before.push(d),
            _ => before,
        }
    }
}

/// What has been written so far.
pub open spec fn written(p: Progress) -> Seq<char> {
    driver::text_of(p.effects)
}

/// What has been found wrong so far.
pub open spec fn found(p: Progress) -> Seq<Diagnostic> {
    diagnostics_in(p.effects)
}

/// The macros that have been recorded so far.
pub open spec fn recorded(p: Progress) -> Seq<MacroText> {
    document::macros_in(p.effects)
}

/// What one piece of output more adds.
proof fn lemma_output(p: Progress, piece: Piece)
    ensures
        written(p.output(piece)) == written(p) + piece.text(),
        found(p.output(piece)) == found(p),
        recorded(p.output(piece)) == recorded(p),
{
    let after = p.effects.push(Effect::Output(piece));
    assert(after.drop_last() =~= p.effects);
}

/// What one diagnostic more adds.
proof fn lemma_diagnosed(p: Progress, d: Diagnostic)
    ensures
        written(p.diagnosed(d)) == written(p),
        found(p.diagnosed(d)) == found(p).push(d),
        recorded(p.diagnosed(d)) == recorded(p),
{
    let after = p.effects.push(Effect::Diagnosed(d));
    assert(after.drop_last() =~= p.effects);
    assert(written(p.diagnosed(d)) =~= written(p));
}

/// What one macro more adds.
proof fn lemma_defined(p: Progress, m: MacroText)
    ensures
        written(p.effect(Effect::Defined(m))) == written(p),
        found(p.effect(Effect::Defined(m))) == found(p),
        recorded(p.effect(Effect::Defined(m))) == recorded(p).push(m),
{
    let after = p.effects.push(Effect::Defined(m));
    assert(after.drop_last() =~= p.effects);
    assert(written(p.effect(Effect::Defined(m))) =~= written(p));
}

/// Whether the environment inside of a macro is hidden, if one is open.
spec fn environment(inner: Mode<()>) -> Option<bool> {
    match inner {
        Mode::Outside => None,
        Mode::Hide => Some(true),
        Mode::Macro(_) => Some(false),
    }
}

/// `q` differs from `p` in nothing but the mode and the effects.
spec fn same_stacks(p: Progress, q: Progress) -> bool {
    &&& q.namespaces == p.namespaces
    &&& q.hides == p.hides
    &&& q.prev_autoclose_macro == p.prev_autoclose_macro
}

#[verifier::rlimit(60)]
proof fn lemma_verbatim(p: Progress, line: Seq<char>, span: Span, need_hide: bool)
    ensures
        ({
            let q = p.verbatim(line, span, need_hide);
            &&& same_stacks(p, q)
            &&& found(q) == found(p)
            &&& recorded(q) == recorded(p)
            &&& match p.mode {
                Mode::Outside => {
                    &&& q.mode is Hide == need_hide
                    &&& q.mode is Outside == !need_hide
                    &&& written(q) == written(p) + (if need_hide {
                        "\\begin{code}[hide]\n"@
                    } else {
                        Seq::empty()
                    }) + line + seq!['\n']
                },
                Mode::Hide => {
                    &&& q.mode is Hide
                    &&& written(q) == written(p) + line + seq!['\n']
                },
                Mode::Macro(m) => {
                    let hide = p.hides.len() > 0;
                    &&& q.mode matches Mode::Macro(n) && {
                        &&& n.start == m.start
                        &&& n.inline == m.inline
                        &&& n.auto_close == m.auto_close
                        &&& n.body == Some(translation::covering(m.body, span))
                        &&& environment(n.inner_mode) == Some(hide)
                    }
                    &&& written(q) == written(p) + switch(
                        environment(m.inner_mode),
                        hide,
                        m.inline,
                    ) + line + seq!['\n']
                },
            }
        }),
{
    let ready = match p.mode {
        Mode::Outside => if need_hide {
            Progress { mode: Mode::Hide, ..p }.output(Piece::OpenHidden)
        } else {
            p
        },
        Mode::Hide => p,
        Mode::Macro(m) => Progress {
            mode: Mode::Macro(MacroMode { body: Some(translation::covering(m.body, span)), ..m }),
            ..p
        },
    };
    lemma_output(Progress { mode: Mode::Hide, ..p }, Piece::OpenHidden);
    law_piece_text(Seq::empty(), line, p.hides.len() > 0, false);
    law_piece_text(Seq::empty(), line, p.hides.len() > 0, true);
    let inside = ready.in_code();
    let q = p.verbatim(line, span, need_hide);
    lemma_output(inside, Piece::SourceLine(line));
    match p.mode {
        Mode::Outside => {
            assert(written(q) =~= written(p) + (if need_hide {
                "\\begin{code}[hide]\n"@
            } else {
                Seq::empty()
            }) + line + seq!['\n']);
        },
        Mode::Hide => {
            assert(written(q) =~= written(p) + line + seq!['\n']);
        },
        Mode::Macro(m) => {
            let hide = p.hides.len() > 0;
            let next = Progress { mode: inside.mode, ..ready };
            lemma_output(next, Piece::OpenCode { hide, inline: m.inline });
            lemma_output(next, Piece::SwitchCode { hide, inline: m.inline });
            assert(written(q) =~= written(p) + switch(environment(m.inner_mode), hide, m.inline)
                + line + seq!['\n']);
        },
    }
}

#[verifier::rlimit(60)]
proof fn lemma_closed(p: Progress, explicit: bool, span: Span)
    ensures
        ({
            let q = p.closed(explicit, span);
            &&& q.namespaces == p.namespaces
            &&& q.hides == p.hides
            &&& recorded(q) == recorded(p)
            &&& match p.mode {
                Mode::Macro(m) => {
                    &&& q.mode is Outside
                    &&& q.prev_autoclose_macro == (if m.auto_close {
                        Some(span_str::span_of(m.start.start as int, span.end as int))
                    } else {
                        None
                    })
                    &&& written(q) == written(p) + tail(m.inline, environment(m.inner_mode) is Some)
                    &&& found(q) == found(p) + (if explicit && m.auto_close {
                        seq![
                            Diagnostic::MacroCloseExplicit {
                                macro_start: m.start,
                                macro_end: span,
                                macro_body: m.body,
                            },
                        ]
                    } else {
                        Seq::empty()
                    }) + (if p.hides.len() > 0 {
                        seq![
                            Diagnostic::MacroCloseHideStack {
                                macro_start: m.start,
                                macro_end: span,
                                open_hide: p.hides.last(),
                            },
                        ]
                    } else {
                        Seq::empty()
                    })
                },
                _ => {
                    &&& q.mode == p.mode
                    &&& q.prev_autoclose_macro == p.prev_autoclose_macro
                    &&& written(q) == written(p)
                    &&& found(q) == found(p).push(
                        Diagnostic::NoMacroToClose {
                            end_span: span,
                            prev_autoclose_macro: p.prev_autoclose_macro,
                        },
                    )
                },
            }
        }),
{
    let q = p.closed(explicit, span);
    if let Mode::Macro(m) = p.mode {
        let left = Progress { mode: Mode::Outside, ..p };
        let d = Diagnostic::MacroCloseExplicit {
            macro_start: m.start,
            macro_end: span,
            macro_body: m.body,
        };
        lemma_diagnosed(left, d);
        let a = if explicit && m.auto_close {
            left.diagnosed(d)
        } else {
            left
        };
        let e = Diagnostic::MacroCloseHideStack {
            macro_start: m.start,
            macro_end: span,
            open_hide: p.hides.last(),
        };
        lemma_diagnosed(a, e);
        let b = if p.hides.len() > 0 {
            a.diagnosed(e)
        } else {
            a
        };
        let c = Progress { prev_autoclose_macro: q.prev_autoclose_macro, ..b };
        let code = !(m.inner_mode is Outside);
        lemma_output(c, Piece::CloseMacro { inline: m.inline, code });
        law_piece_text(Seq::empty(), Seq::empty(), false, m.inline);
        assert(found(q) =~= found(p) + (if explicit && m.auto_close {
            seq![d]
        } else {
            Seq::empty()
        }) + (if p.hides.len() > 0 {
            seq![e]
        } else {
            Seq::empty()
        }));
    } else {
        lemma_diagnosed(
            p,
            Diagnostic::NoMacroToClose {
                end_span: span,
                prev_autoclose_macro: p.prev_autoclose_macro,
            },
        );
    }
}

#[verifier::rlimit(60)]
proof fn lemma_outside(p: Progress, span: Span, file_end: bool)
    ensures
        ({
            let q = p.outside(span, file_end);
            &&& q.namespaces == p.namespaces
            &&& q.mode is Outside
            &&& recorded(q) == recorded(p)
            &&& match p.mode {
                Mode::Outside => q == p,
                Mode::Hide => {
                    &&& same_stacks(p, q)
                    &&& found(q) == found(p)
                    &&& written(q) == written(p) + "\\end{code}\n\n"@
                },
                Mode::Macro(m) => {
                    &&& q.hides.len() == 0
                    &&& q.prev_autoclose_macro is None
                    &&& written(q) == written(p) + tail(m.inline, environment(m.inner_mode) is Some)
                    &&& found(q) == (if !file_end {
                        found(p).push(
                            Diagnostic::OpenMacro {
                                cur_start_span: m.start,
                                cur_macro_span: m.body,
                                new_start_span: span,
                            },
                        )
                    } else if !m.auto_close {
                        found(p).push(
                            Diagnostic::UnfinishedMacro {
                                cur_start_span: m.start,
                                cur_macro_span: m.body,
                                file_end_span: span,
                            },
                        )
                    } else {
                        found(p)
                    })
                },
            }
        }),
{
    let q = p.outside(span, file_end);
    let left = Progress { mode: Mode::Outside, ..p };
    match p.mode {
        Mode::Outside => {},
        Mode::Hide => {
            lemma_output(left, Piece::CloseHidden);
            law_piece_text(Seq::empty(), Seq::empty(), false, false);
        },
        Mode::Macro(m) => {
            let d = Diagnostic::UnfinishedMacro {
                cur_start_span: m.start,
                cur_macro_span: m.body,
                file_end_span: span,
            };
            let e = Diagnostic::OpenMacro {
                cur_start_span: m.start,
                cur_macro_span: m.body,
                new_start_span: span,
            };
            lemma_diagnosed(left, d);
            lemma_diagnosed(left, e);
            let a = if m.auto_close && file_end {
                left
            } else if file_end {
                left.diagnosed(d)
            } else {
                left.diagnosed(e)
            };
            let b = Progress { prev_autoclose_macro: None, hides: Seq::empty(), ..a };
            let code = !(m.inner_mode is Outside);
            lemma_output(b, Piece::CloseMacro { inline: m.inline, code });
            law_piece_text(Seq::empty(), Seq::empty(), false, m.inline);
        },
    }
}

proof fn lemma_started(p: Progress, name: Seq<char>, line: u32, m: MacroMode)
    ensures
        ({
            let q = p.macro_started(name, line, m);
            let left = p.outside(m.start, false);
            let full = text::joined(p.namespaces) + name;
            &&& q.mode == Mode::Macro(m)
            &&& same_stacks(left, q)
            &&& written(q) == written(left) + head(full, m.inline)
            &&& found(q) == found(left)
            &&& recorded(q) == recorded(p).push(MacroText { name: full, line, inline: m.inline })
        }),
{
    let left = p.outside(m.start, false);
    lemma_outside(p, m.start, false);
    let full = text::joined(p.namespaces) + name;
    let found = MacroText { name: full, line, inline: m.inline };
    lemma_defined(left, found);
    let named = left.effect(Effect::Defined(found));
    lemma_output(named, Piece::OpenMacro { name: full, inline: m.inline });
    law_piece_text(full, Seq::empty(), false, m.inline);
}

/// How far the translation has got in front of line `i`.
pub open spec fn progress_at(lines: Seq<SpanText>, i: int) -> Progress
    decreases i,
{
    if i <= 0 {
        Progress::start()
    } else {
        progress_at(lines, i - 1).line((i - 1) as nat, lines[i - 1])
    }
}

/// Reading what is left behind `k` lines goes on from there.
proof fn lemma_progress(lines: Seq<SpanText>, k: int, rest: SpanText)
    requires
        0 <= k <= lines.len(),
        lines.skip(k) == span_str::span_lines(rest),
    ensures
        progress_at(lines, k).lines(k as nat, rest) == progress_at(lines, lines.len() as int),
    decreases rest.text.len(),
{
    if rest.text.len() > 0 {
        let (line, after) = span_str::first_line(rest);
        text::lemma_leading_bound(rest.text, text::not_newline());
        assert(lines.skip(k)[0] == line);
        assert(lines.skip(k + 1) =~= lines.skip(k).skip(1));
        assert(span_str::span_lines(rest).skip(1) =~= span_str::span_lines(after));
        lemma_progress(lines, k + 1, after);
    } else {
        assert(lines.skip(k).len() == 0);
    }
}

/// A translation reads all lines of the source one after the other, and then closes what is open.
pub proof fn law_line_by_line(src: Seq<char>)
    ensures
        ({
            let lines = outline::source_lines(src);
            let end = translation::source(src).end();
            translation::translated(src) == progress_at(lines, lines.len() as int).outside(
                span_str::span_of(end, end),
                true,
            )
        }),
{
    let lines = outline::source_lines(src);
    assert(lines.skip(0) =~= lines);
    lemma_progress(lines, 0, translation::source(src));
}

/// What is known of the macro that line `j` starts, in front of line `i`.
spec fn macro_agrees(lines: Seq<SpanText>, j: int, i: int, m: MacroMode) -> bool {
    &&& outline::open_macro(lines, j, i)
    &&& m.start == outline::command_span(lines[j])
    &&& m.auto_close == outline::starts_unbraced(lines[j])
    &&& m.inline == outline::starts_inline(lines[j])
    &&& environment(m.inner_mode) == outline::environment_at(lines, j, i)
    &&& outline::in_order(lines) && i <= lines.len() ==> m.body == outline::body_at(lines, j, i)
}

/// The mode in front of line `i` is what the lines before it say.
spec fn mode_agrees(lines: Seq<SpanText>, i: int, mode: Mode<MacroMode>) -> bool {
    match mode {
        Mode::Outside => !outline::in_macro(lines, i) && !outline::in_hidden(lines, i),
        Mode::Hide => !outline::in_macro(lines, i) && outline::in_hidden(lines, i),
        Mode::Macro(m) => {
            &&& !outline::in_hidden(lines, i)
            &&& exists|j: int| #[trigger] macro_agrees(lines, j, i, m)
        },
    }
}

/// The annotations that started the parts that are hidden at line `i`.
pub open spec fn hidden_spans(lines: Seq<SpanText>, i: int) -> Seq<Span> {
    outline::hidden_parts(lines, i).map_values(|k: int| outline::command_span(lines[k]))
}

/// What the translation keeps in front of line `i` is what the lines before it say.
spec fn agrees(lines: Seq<SpanText>, i: int) -> bool {
    let p = progress_at(lines, i);
    &&& p.namespaces == outline::namespaces_at(lines, i)
    &&& p.hides == hidden_spans(lines, i)
    &&& p.prev_autoclose_macro == outline::last_unbraced(lines, i)
    &&& mode_agrees(lines, i, p.mode)
}

/// The lines of a macro stand in front of the lines behind them.
proof fn lemma_body(lines: Seq<SpanText>, j: int, i: int)
    requires
        outline::in_order(lines),
        0 <= j < i <= lines.len(),
    ensures
        outline::body_at(lines, j, i) matches Some(body) ==> {
            &&& exists|a: int| j < a < i && body.start == (#[trigger] lines[a]).start
            &&& exists|b: int| j < b < i && body.end == (#[trigger] lines[b]).end()
        },
    decreases i - j,
{
    if i > j + 1 {
        lemma_body(lines, j, i - 1);
        assert(lines[i - 1].fits());
    }
}

/// One line more of a macro.
proof fn lemma_covering(lines: Seq<SpanText>, j: int, i: int)
    requires
        outline::in_order(lines),
        0 <= j < i < lines.len(),
        outline::command_in(lines[i]) is None,
    ensures
        outline::body_at(lines, j, i + 1) == Some(
            translation::covering(outline::body_at(lines, j, i), lines[i].span()),
        ),
{
    lemma_body(lines, j, i);
    assert(lines[i].fits());
    let span = lines[i].span();
    if let Some(body) = outline::body_at(lines, j, i) {
        let a = choose|a: int| j < a < i && body.start == (#[trigger] lines[a]).start;
        let b = choose|b: int| j < b < i && body.end == (#[trigger] lines[b]).end();
        assert(lines[a].end() <= lines[i].start);
        assert(lines[b].end() <= lines[i].start);
    }
}

/// Nothing is open in front of the first line.
proof fn lemma_agrees_start(lines: Seq<SpanText>)
    ensures
        agrees(lines, 0),
{
    assert(hidden_spans(lines, 0) =~= Seq::<Span>::empty());
    if outline::in_macro(lines, 0) {
        let j = choose|j: int| outline::open_macro(lines, j, 0);
        assert(0 <= j < 0);
    }
    if outline::in_hidden(lines, 0) {
        let k = choose|k: int| #[trigger] outline::hidden_from(lines, k, 0);
        assert(0 <= k < 0);
    }
}

/// The one macro that is open in front of line `i`.
proof fn lemma_opener(lines: Seq<SpanText>, i: int, m: MacroMode) -> (j: int)
    requires
        agrees(lines, i),
        progress_at(lines, i).mode == Mode::Macro(m),
    ensures
        macro_agrees(lines, j, i, m),
        outline::in_macro(lines, i),
        forall|k: int| #[trigger] outline::open_macro(lines, k, i) ==> k == j,
{
    let j = choose|j: int| #[trigger] macro_agrees(lines, j, i, m);
    assert forall|k: int| #[trigger] outline::open_macro(lines, k, i) implies k == j by {
        outline::law_one_macro(lines, k, j, i);
    }
    j
}

/// The stack of hidden parts behind line `i`.
proof fn lemma_hidden_spans(lines: Seq<SpanText>, i: int)
    requires
        0 <= i,
    ensures
        hidden_spans(lines, i + 1) == match outline::command_in(lines[i]) {
            Some(CommandText::HideStart(span)) => hidden_spans(lines, i).push(span),
            Some(CommandText::HideEnd(_)) => if hidden_spans(lines, i).len() > 0 {
                hidden_spans(lines, i).drop_last()
            } else {
                hidden_spans(lines, i)
            },
            Some(CommandText::MacroStart { .. }) => if outline::in_macro(lines, i) {
                Seq::empty()
            } else {
                hidden_spans(lines, i)
            },
            _ => hidden_spans(lines, i),
        },
        hidden_spans(lines, i).len() == outline::hidden_parts(lines, i).len(),
{
    let after = match outline::command_in(lines[i]) {
        Some(CommandText::HideStart(span)) => hidden_spans(lines, i).push(span),
        Some(CommandText::HideEnd(_)) => if hidden_spans(lines, i).len() > 0 {
            hidden_spans(lines, i).drop_last()
        } else {
            hidden_spans(lines, i)
        },
        Some(CommandText::MacroStart { .. }) => if outline::in_macro(lines, i) {
            Seq::empty()
        } else {
            hidden_spans(lines, i)
        },
        _ => hidden_spans(lines, i),
    };
    assert(hidden_spans(lines, i + 1) =~= after);
}

/// Which macro was last closed that had been started without a brace, behind line `i`: one that the
/// line closes, as an end of a macro or as a blank line, from its start to what closed it; none, if
/// the line closes any other or starts a macro inside of one; and else the same as before.
#[verifier::rlimit(60)]
pub proof fn law_last_unbraced(lines: Seq<SpanText>, i: int)
    requires
        0 <= i,
    ensures
        !outline::in_macro(lines, i) ==> outline::last_unbraced(lines, i + 1)
            == outline::last_unbraced(lines, i),
        forall|j: int| #[trigger]
            outline::open_macro(lines, j, i) ==> outline::last_unbraced(lines, i + 1) == (
            if outline::starts_macro(lines[i]) {
                None
            } else if outline::ends_macro(lines[i]) {
                if outline::starts_unbraced(lines[j]) {
                    Some(
                        span_str::span_of(
                            outline::command_span(lines[j]).start as int,
                            outline::command_span(lines[i]).end as int,
                        ),
                    )
                } else {
                    None
                }
            } else if outline::starts_unbraced(lines[j]) && outline::blank(lines[i]) {
                Some(
                    span_str::span_of(
                        outline::command_span(lines[j]).start as int,
                        lines[i].span().end as int,
                    ),
                )
            } else {
                outline::last_unbraced(lines, i)
            }),
{
    let before = outline::last_unbraced(lines, i);
    assert(outline::last_unbraced(lines, i + 1) == outline::unbraced_behind(lines, i, before));
    if !outline::in_macro(lines, i) {
        if exists|j: int| outline::closes(lines, j, i) {
            let j = choose|j: int| outline::closes(lines, j, i);
            assert(outline::open_macro(lines, j, i));
        }
    }
    assert forall|j: int| #[trigger] outline::open_macro(lines, j, i) implies
        outline::last_unbraced(lines, i + 1) == (if outline::starts_macro(lines[i]) {
        None
    } else if outline::ends_macro(lines[i]) {
        if outline::starts_unbraced(lines[j]) {
            Some(
                span_str::span_of(
                    outline::command_span(lines[j]).start as int,
                    outline::command_span(lines[i]).end as int,
                ),
            )
        } else {
            None
        }
    } else if outline::starts_unbraced(lines[j]) && outline::blank(lines[i]) {
        Some(
            span_str::span_of(
                outline::command_span(lines[j]).start as int,
                lines[i].span().end as int,
            ),
        )
    } else {
        before
    }) by {
        if exists|k: int| outline::closes(lines, k, i) {
            let k = choose|k: int| outline::closes(lines, k, i);
            outline::law_one_macro(lines, j, k, i);
        } else {
            assert(!outline::closes(lines, j, i));
        }
    }
}

/// What is wrong with a line by itself: it is marked as an annotation and is none, something stands
/// behind the annotation, or an annotation that starts no macro has the mark of an inline macro.
pub open spec fn faults(line: SpanText) -> Seq<Diagnostic> {
    match command::parsed(line.trim()) {
        ParsedText::NotACommand => Seq::empty(),
        ParsedText::InvalidCommand => seq![
            Diagnostic::InvalidCommand { command_span: line.trim().span() },
        ],
        ParsedText::Command { command, trailing_chars, invalid_inline_annot } => (
        match trailing_chars {
            Some(trail) => seq![
                Diagnostic::CommandTrailingChars {
                    command_span: command.span(),
                    trail_span: trail.span(),
                },
            ],
            None => Seq::empty(),
        }) + (match invalid_inline_annot {
            Some(mark) => seq![
                Diagnostic::CommandInvalidInline {
                    command_span: command.span(),
                    inline_span: mark.span(),
                },
            ],
            None => Seq::empty(),
        }),
    }
}

/// `p`, with what is wrong with `line` by itself.
spec fn noted(p: Progress, line: SpanText) -> Progress {
    match command::parsed(line.trim()) {
        ParsedText::NotACommand => p,
        ParsedText::InvalidCommand => p.diagnosed(
            Diagnostic::InvalidCommand { command_span: line.trim().span() },
        ),
        ParsedText::Command { command, trailing_chars, invalid_inline_annot } => {
            let a = match trailing_chars {
                Some(trail) => p.diagnosed(
                    Diagnostic::CommandTrailingChars {
                        command_span: command.span(),
                        trail_span: trail.span(),
                    },
                ),
                None => p,
            };
            match invalid_inline_annot {
                Some(mark) => a.diagnosed(
                    Diagnostic::CommandInvalidInline {
                        command_span: command.span(),
                        inline_span: mark.span(),
                    },
                ),
                None => a,
            }
        },
    }
}

proof fn lemma_noted(p: Progress, line: SpanText)
    ensures
        ({
            let q = noted(p, line);
            &&& same_stacks(p, q)
            &&& q.mode == p.mode
            &&& written(q) == written(p)
            &&& recorded(q) == recorded(p)
            &&& found(q) == found(p) + faults(line)
        }),
{
    let q = noted(p, line);
    match command::parsed(line.trim()) {
        ParsedText::NotACommand => {},
        ParsedText::InvalidCommand => {
            lemma_diagnosed(p, Diagnostic::InvalidCommand { command_span: line.trim().span() });
        },
        ParsedText::Command { command, trailing_chars, invalid_inline_annot } => {
            let mut a = p;
            if let Some(trail) = trailing_chars {
                let d = Diagnostic::CommandTrailingChars {
                    command_span: command.span(),
                    trail_span: trail.span(),
                };
                lemma_diagnosed(p, d);
                a = p.diagnosed(d);
            }
            if let Some(mark) = invalid_inline_annot {
                lemma_diagnosed(
                    a,
                    Diagnostic::CommandInvalidInline {
                        command_span: command.span(),
                        inline_span: mark.span(),
                    },
                );
            }
        },
    }
    assert(found(q) =~= found(p) + faults(line));
}

/// How a line is read.
proof fn lemma_line(p: Progress, n: nat, line: SpanText)
    ensures
        outline::blank(line) ==> {
            &&& outline::command_in(line) is None
            &&& noted(p, line) == p
            &&& faults(line).len() == 0
            &&& p.line(n, line) == p.empty_line(line.span())
        },
        outline::is_code(line) ==> p.line(n, line) == noted(p, line).verbatim(
            line.text,
            line.span(),
            true,
        ),
        outline::command_in(line) matches Some(command) ==> {
            &&& !outline::blank(line)
            &&& p.line(n, line) == noted(p, line).command(command, n as u32)
        },
{
    outline::law_blank(line);
    if outline::blank(line) {
        reveal_strlit("--!");
    }
}

/// What the translation keeps behind a line is what the lines say, where the line is no annotation.
#[verifier::rlimit(40)]
proof fn lemma_agrees_text(lines: Seq<SpanText>, i: int)
    requires
        0 <= i,
        agrees(lines, i),
        outline::command_in(lines[i]) is None,
    ensures
        agrees(lines, i + 1),
{
    let p = progress_at(lines, i);
    let line = lines[i];
    lemma_line(p, i as nat, line);
    lemma_noted(p, line);
    let r = noted(p, line);
    outline::lemma_open_step(lines, i);
    outline::lemma_hidden_step(lines, i);
    lemma_hidden_spans(lines, i);
    law_last_unbraced(lines, i);
    let blank = outline::blank(line);
    let text = if blank {
        Seq::empty()
    } else {
        line.text
    };
    lemma_verbatim(r, text, line.span(), !blank);
    lemma_closed(r, false, line.span());
    let q = progress_at(lines, i + 1);
    match p.mode {
        Mode::Macro(m) => {
            let j = lemma_opener(lines, i, m);
            if m.auto_close && blank {
                assert(!outline::in_macro(lines, i + 1));
            } else {
                assert(outline::open_macro(lines, j, i + 1));
                let n = q.mode->Macro_0;
                if outline::in_order(lines) && i + 1 <= lines.len() {
                    lemma_covering(lines, j, i);
                }
                assert(macro_agrees(lines, j, i + 1, n));
            }
        },
        _ => {
            assert(!outline::in_macro(lines, i + 1));
        },
    }
}

/// What the translation keeps behind a line is what the lines say, where the line is an annotation.
#[verifier::rlimit(40)]
proof fn lemma_agrees_command(lines: Seq<SpanText>, i: int)
    requires
        0 <= i,
        agrees(lines, i),
        outline::command_in(lines[i]) is Some,
    ensures
        agrees(lines, i + 1),
{
    let p = progress_at(lines, i);
    let line = lines[i];
    let command = outline::command_in(line)->0;
    lemma_line(p, i as nat, line);
    lemma_noted(p, line);
    let r = noted(p, line);
    outline::lemma_open_step(lines, i);
    outline::lemma_hidden_step(lines, i);
    lemma_hidden_spans(lines, i);
    law_last_unbraced(lines, i);
    let q = progress_at(lines, i + 1);
    assert(q == r.command(command, i as nat as u32));
    if let Mode::Macro(m) = p.mode {
        let j = lemma_opener(lines, i, m);
    }
    match command {
        CommandText::MacroStart { name, auto_close, inline, span } => {
            let m = MacroMode {
                start: span,
                body: None,
                inline,
                auto_close,
                inner_mode: Mode::Outside,
            };
            lemma_outside(r, span, false);
            lemma_started(r, name.text, i as nat as u32, m);
            assert(outline::open_macro(lines, i, i + 1));
            assert(macro_agrees(lines, i, i + 1, m));
            assert(q.hides =~= hidden_spans(lines, i + 1));
        },
        CommandText::MacroEnd(span) => {
            lemma_closed(r, true, span);
            assert(!outline::in_macro(lines, i + 1));
        },
        _ => {
            if let CommandText::NamespaceClose(span) = command {
                lemma_diagnosed(r, Diagnostic::NoNamespaceToClose { close_span: span });
            }
            if let CommandText::HideEnd(span) = command {
                lemma_diagnosed(r, Diagnostic::NoHideToClose { close_span: span });
            }
            assert(q.mode == p.mode);
            if let Mode::Macro(m) = p.mode {
                let j = lemma_opener(lines, i, m);
                assert(outline::open_macro(lines, j, i + 1));
                assert(macro_agrees(lines, j, i + 1, m));
            } else {
                assert(!outline::in_macro(lines, i + 1));
            }
        },
    }
}

/// What the translation keeps is always what the lines say.
proof fn lemma_agrees(lines: Seq<SpanText>, i: int)
    requires
        0 <= i,
    ensures
        agrees(lines, i),
    decreases i,
{
    if i == 0 {
        lemma_agrees_start(lines);
    } else {
        lemma_agrees(lines, i - 1);
        if outline::command_in(lines[i - 1]) is None {
            lemma_agrees_text(lines, i - 1);
        } else {
            lemma_agrees_command(lines, i - 1);
        }
    }
}

/// The start of a definition behind other text.
proof fn lemma_head(before: Seq<char>, full: Seq<char>, inline: bool)
    ensures
        before + head(full, inline) == before + "% \\"@ + full + (if inline {
            " [inline]\n\\NewDocumentCommand\\"@
        } else {
            "\n\\NewDocumentCommand\\"@
        }) + full + (if inline {
            "{s}{%\n"@
        } else {
            "{s}{%\n\\IfBooleanF{#1}{\\begin{AgdaMultiCode}}%\n"@
        }),
{
}

/// A macro is open in front of a line just if an annotation before the line starts it, and between
/// the two stands no start of another macro, no end of a macro and, where the macro was started
/// without a brace, no blank line.
pub proof fn law_open(lines: Seq<SpanText>, i: int)
    requires
        0 <= i,
    ensures
        progress_at(lines, i).mode is Macro <==> exists|j: int|
            {
                &&& 0 <= j < i
                &&& #[trigger] outline::starts_macro(lines[j])
                &&& forall|k: int|
                    j < k < i ==> {
                        &&& !outline::starts_macro(#[trigger] lines[k])
                        &&& !outline::ends_macro(lines[k])
                        &&& outline::starts_unbraced(lines[j]) ==> !outline::blank(lines[k])
                    }
            },
        progress_at(lines, i).mode is Hide <==> outline::in_hidden(lines, i),
        progress_at(lines, i).namespaces == outline::namespaces_at(lines, i),
        progress_at(lines, i).hides.len() > 0 <==> outline::in_hidden_part(lines, i),
{
    lemma_agrees(lines, i);
    let p = progress_at(lines, i);
    if let Mode::Macro(m) = p.mode {
        let j = lemma_opener(lines, i, m);
        assert(outline::starts_macro(lines[j]));
    }
    if exists|j: int|
        {
            &&& 0 <= j < i
            &&& #[trigger] outline::starts_macro(lines[j])
            &&& forall|k: int|
                j < k < i ==> {
                    &&& !outline::starts_macro(#[trigger] lines[k])
                    &&& !outline::ends_macro(lines[k])
                    &&& outline::starts_unbraced(lines[j]) ==> !outline::blank(lines[k])
                }
        } {
        let j = choose|j: int|
            {
                &&& 0 <= j < i
                &&& #[trigger] outline::starts_macro(lines[j])
                &&& forall|k: int|
                    j < k < i ==> {
                        &&& !outline::starts_macro(#[trigger] lines[k])
                        &&& !outline::ends_macro(lines[k])
                        &&& outline::starts_unbraced(lines[j]) ==> !outline::blank(lines[k])
                    }
            };
        assert(outline::open_macro(lines, j, i));
    }
}

/// What is written for a line outside of macros. A blank line becomes an empty one. A line of code
/// is written as it is, and a hidden environment is opened for it where none is open. Of the
/// annotations, only one that starts a macro writes anything: it ends the hidden environment if one
/// is open, and starts the definition of the macro, whose name stands behind the names of the open
/// namespaces.
#[verifier::rlimit(40)]
pub proof fn law_outside_text(lines: Seq<SpanText>, i: int)
    requires
        0 <= i,
        !outline::in_macro(lines, i),
    ensures
        ({
            let before = written(progress_at(lines, i));
            let after = written(progress_at(lines, i + 1));
            let left = if outline::in_hidden(lines, i) {
                before + "\\end{code}\n\n"@
            } else {
                before
            };
            &&& outline::blank(lines[i]) ==> after == before + seq!['\n']
            &&& outline::is_code(lines[i]) && outline::in_hidden(lines, i) ==> after == before
                + lines[i].text + seq!['\n']
            &&& outline::is_code(lines[i]) && !outline::in_hidden(lines, i) ==> after == before
                + "\\begin{code}[hide]\n"@ + lines[i].text + seq!['\n']
            &&& match outline::command_in(lines[i]) {
                Some(CommandText::MacroStart { name, inline, .. }) => {
                    let full = text::joined(outline::namespaces_at(lines, i)) + name.text;
                    after == left + "% \\"@ + full + (if inline {
                        " [inline]\n\\NewDocumentCommand\\"@
                    } else {
                        "\n\\NewDocumentCommand\\"@
                    }) + full + (if inline {
                        "{s}{%\n"@
                    } else {
                        "{s}{%\n\\IfBooleanF{#1}{\\begin{AgdaMultiCode}}%\n"@
                    })
                },
                Some(_) => after == before,
                None => true,
            }
        }),
{
    lemma_agrees(lines, i);
    let p = progress_at(lines, i);
    let line = lines[i];
    let r = noted(p, line);
    lemma_line(p, i as nat, line);
    lemma_noted(p, line);
    if let Mode::Macro(m) = p.mode {
        let j = lemma_opener(lines, i, m);
    }
    let before = written(p);
    let after = written(progress_at(lines, i + 1));
    if outline::blank(line) {
        lemma_verbatim(r, Seq::empty(), line.span(), false);
        assert(after =~= before + seq!['\n']);
    } else if outline::is_code(line) {
        lemma_verbatim(r, line.text, line.span(), true);
    } else {
        lemma_command_text(r, outline::command_in(line)->0, i as nat as u32);
        if let Some(CommandText::MacroEnd(span)) = outline::command_in(line) {
            lemma_closed(r, true, span);
        }
        if let Some(CommandText::MacroStart { name, span, inline, .. }) = outline::command_in(
            line,
        ) {
            lemma_outside(r, span, false);
            let full = text::joined(outline::namespaces_at(lines, i)) + name.text;
            let left = if outline::in_hidden(lines, i) {
                before + "\\end{code}\n\n"@
            } else {
                before
            };
            lemma_head(left, full, inline);
        }
    }
}

/// What an annotation writes.
#[verifier::rlimit(60)]
proof fn lemma_command_text(p: Progress, command: CommandText, n: u32)
    ensures
        match command {
            CommandText::MacroStart { name, inline, span, .. } => {
                &&& written(p.command(command, n)) == written(p.outside(span, false)) + head(
                    text::joined(p.namespaces) + name.text,
                    inline,
                )
                &&& found(p.command(command, n)) == found(p.outside(span, false))
                &&& recorded(p.command(command, n)) == recorded(p).push(
                    MacroText {
                        name: text::joined(p.namespaces) + name.text,
                        line: n,
                        inline,
                    },
                )
            },
            CommandText::MacroEnd(span) => {
                &&& p.command(command, n) == p.closed(true, span)
                &&& recorded(p.command(command, n)) == recorded(p)
            },
            _ => {
                &&& written(p.command(command, n)) == written(p)
                &&& recorded(p.command(command, n)) == recorded(p)
                &&& found(p.command(command, n)) == found(p) + (match command {
                    CommandText::NamespaceClose(span) => if p.namespaces.len() == 0 {
                        seq![Diagnostic::NoNamespaceToClose { close_span: span }]
                    } else {
                        Seq::empty()
                    },
                    CommandText::HideEnd(span) => if p.hides.len() == 0 {
                        seq![Diagnostic::NoHideToClose { close_span: span }]
                    } else {
                        Seq::empty()
                    },
                    _ => Seq::empty(),
                })
            },
        },
{
    match command {
        CommandText::MacroStart { name, auto_close, inline, span } => {
            lemma_started(
                p,
                name.text,
                n,
                MacroMode { start: span, body: None, inline, auto_close, inner_mode: Mode::Outside },
            );
        },
        CommandText::MacroEnd(span) => {
            lemma_closed(p, true, span);
        },
        CommandText::NamespaceClose(span) => {
            let d = Diagnostic::NoNamespaceToClose { close_span: span };
            lemma_diagnosed(p, d);
            assert(found(p) + seq![d] =~= found(p).push(d));
            assert(found(p) + Seq::<Diagnostic>::empty() =~= found(p));
        },
        CommandText::HideEnd(span) => {
            let d = Diagnostic::NoHideToClose { close_span: span };
            lemma_diagnosed(p, d);
            assert(found(p) + seq![d] =~= found(p).push(d));
            assert(found(p) + Seq::<Diagnostic>::empty() =~= found(p));
        },
        _ => {
            assert(found(p) + Seq::<Diagnostic>::empty() =~= found(p));
        },
    }
}

/// What is written for a line inside of the macro that line `j` starts.
///
/// A blank line ends the definition if the macro was started without a brace; so does an annotation
/// that ends a macro, and one that starts another, which then starts that other definition. Any
/// other annotation writes nothing. Any other line is written as it is, or as an empty line if it
/// is blank, in an environment that is hidden just if a hidden part is open at the line; where
/// another kind of environment is open, that is ended first.
#[verifier::rlimit(40)]
pub proof fn law_inside_text(lines: Seq<SpanText>, j: int, i: int)
    requires
        outline::open_macro(lines, j, i),
    ensures
        ({
            let before = written(progress_at(lines, i));
            let after = written(progress_at(lines, i + 1));
            let inline = outline::starts_inline(lines[j]);
            let environment = outline::environment_at(lines, j, i);
            let hide = outline::in_hidden_part(lines, i);
            let ended = before + (if environment is None {
                "}\n\n"@
            } else if inline {
                "\\end{code}}\n\n"@
            } else {
                "\\end{code}%\n\\IfBooleanF{#1}{\\end{AgdaMultiCode}}}\n\n"@
            });
            let ready = before + (if environment is None || environment == Some(hide) {
                Seq::empty()
            } else {
                "\\end{code}%\n"@
            }) + (if environment == Some(hide) {
                Seq::empty()
            } else if hide {
                "\\begin{code}[hide]\n"@
            } else if inline {
                "\\begin{code}[\\IfBooleanTF{#1}{inline*}{inline}]\n"@
            } else {
                "\\begin{code}[]\n"@
            });
            &&& outline::blank(lines[i]) && outline::starts_unbraced(lines[j]) ==> after == ended
            &&& outline::blank(lines[i]) && !outline::starts_unbraced(lines[j]) ==> after == ready
                + seq!['\n']
            &&& outline::is_code(lines[i]) ==> after == ready + lines[i].text + seq!['\n']
            &&& match outline::command_in(lines[i]) {
                Some(CommandText::MacroStart { name, inline, .. }) => {
                    let full = text::joined(outline::namespaces_at(lines, i)) + name.text;
                    after == ended + "% \\"@ + full + (if inline {
                        " [inline]\n\\NewDocumentCommand\\"@
                    } else {
                        "\n\\NewDocumentCommand\\"@
                    }) + full + (if inline {
                        "{s}{%\n"@
                    } else {
                        "{s}{%\n\\IfBooleanF{#1}{\\begin{AgdaMultiCode}}%\n"@
                    })
                },
                Some(CommandText::MacroEnd(_)) => after == ended,
                Some(_) => after == before,
                None => true,
            }
        }),
{
    lemma_agrees(lines, i);
    let p = progress_at(lines, i);
    let line = lines[i];
    let r = noted(p, line);
    lemma_line(p, i as nat, line);
    lemma_noted(p, line);
    assert(outline::in_macro(lines, i));
    assert(p.mode is Macro);
    let m = p.mode->Macro_0;
    let o = lemma_opener(lines, i, m);
    assert(o == j);
    lemma_hidden_spans(lines, i);
    let before = written(p);
    let after = written(progress_at(lines, i + 1));
    let environment = outline::environment_at(lines, j, i);
    let hide = outline::in_hidden_part(lines, i);
    let ended = before + tail(m.inline, environment is Some);
    let ready = before + (if environment is None || environment == Some(hide) {
        Seq::empty()
    } else {
        "\\end{code}%\n"@
    }) + (if environment == Some(hide) {
        Seq::empty()
    } else {
        begin(hide, m.inline)
    });
    assert(ready =~= before + switch(environment, hide, m.inline));
    if outline::blank(line) {
        lemma_verbatim(r, Seq::empty(), line.span(), false);
        lemma_closed(r, false, line.span());
        if !m.auto_close {
            assert(after =~= ready + seq!['\n']);
        }
    } else if outline::is_code(line) {
        lemma_verbatim(r, line.text, line.span(), true);
    } else {
        let command = outline::command_in(line)->0;
        lemma_command_text(r, command, i as nat as u32);
        match command {
            CommandText::MacroStart { name, span, inline, .. } => {
                lemma_outside(r, span, false);
                let full = text::joined(outline::namespaces_at(lines, i)) + name.text;
                lemma_head(ended, full, inline);
            },
            CommandText::MacroEnd(span) => {
                lemma_closed(r, true, span);
            },
            _ => {},
        }
    }
}

/// What is written at the end of a source: a macro that is open is ended, and so is a hidden
/// environment outside of macros.
pub proof fn law_end_text(src: Seq<char>)
    ensures
        ({
            let lines = outline::source_lines(src);
            let n = lines.len() as int;
            let before = written(progress_at(lines, n));
            let after = written(translation::translated(src));
            &&& outline::in_hidden(lines, n) ==> after == before + "\\end{code}\n\n"@
            &&& !outline::in_hidden(lines, n) && !outline::in_macro(lines, n) ==> after == before
            &&& forall|j: int| #[trigger]
                outline::open_macro(lines, j, n) ==> after == before + (
                if outline::environment_at(lines, j, n) is None {
                    "}\n\n"@
                } else if outline::starts_inline(lines[j]) {
                    "\\end{code}}\n\n"@
                } else {
                    "\\end{code}%\n\\IfBooleanF{#1}{\\end{AgdaMultiCode}}}\n\n"@
                })
        }),
{
    let lines = outline::source_lines(src);
    let n = lines.len() as int;
    let end = translation::source(src).end();
    let p = progress_at(lines, n);
    law_line_by_line(src);
    lemma_agrees(lines, n);
    lemma_outside(p, span_str::span_of(end, end), true);
    if let Mode::Macro(m) = p.mode {
        let o = lemma_opener(lines, n, m);
    } else {
        assert forall|j: int| #[trigger] outline::open_macro(lines, j, n) implies false by {
            assert(outline::in_macro(lines, n));
        }
    }
}

/// What is found wrong at a line outside of macros: what is wrong with the line by itself, and an
/// annotation that ends a macro, a namespace or a hidden part where none is open.
#[verifier::rlimit(40)]
pub proof fn law_outside_errors(lines: Seq<SpanText>, i: int)
    requires
        0 <= i,
        !outline::in_macro(lines, i),
    ensures
        found(progress_at(lines, i + 1)) == found(progress_at(lines, i)) + faults(lines[i]) + (
        match outline::command_in(lines[i]) {
            Some(CommandText::MacroEnd(span)) => seq![
                Diagnostic::NoMacroToClose {
                    end_span: span,
                    prev_autoclose_macro: outline::last_unbraced(lines, i),
                },
            ],
            Some(CommandText::NamespaceClose(span)) => if outline::namespaces_at(lines, i).len()
                == 0 {
                seq![Diagnostic::NoNamespaceToClose { close_span: span }]
            } else {
                Seq::empty()
            },
            Some(CommandText::HideEnd(span)) => if !outline::in_hidden_part(lines, i) {
                seq![Diagnostic::NoHideToClose { close_span: span }]
            } else {
                Seq::empty()
            },
            _ => Seq::empty(),
        }),
{
    lemma_agrees(lines, i);
    let p = progress_at(lines, i);
    let line = lines[i];
    let r = noted(p, line);
    lemma_line(p, i as nat, line);
    lemma_noted(p, line);
    lemma_hidden_spans(lines, i);
    if let Mode::Macro(m) = p.mode {
        let j = lemma_opener(lines, i, m);
    }
    let before = found(p) + faults(line);
    assert(before + Seq::<Diagnostic>::empty() =~= before);
    match outline::command_in(line) {
        None => {
            lemma_verbatim(r, Seq::empty(), line.span(), false);
            lemma_verbatim(r, line.text, line.span(), true);
        },
        Some(command) => {
            lemma_command_text(r, command, i as nat as u32);
            if let CommandText::MacroStart { span, .. } = command {
                lemma_outside(r, span, false);
            }
            if let CommandText::MacroEnd(span) = command {
                lemma_closed(r, true, span);
            }
        },
    }
}

/// What is found wrong at a line inside of the macro that line `j` starts: what is wrong with the
/// line by itself, an annotation that starts another macro, always, one that ends a macro that was
/// started without a brace, and the end of the macro while a part of it is hidden; and an
/// annotation that ends a namespace or a hidden part where none is open.
#[verifier::rlimit(40)]
pub proof fn law_inside_errors(lines: Seq<SpanText>, j: int, i: int)
    requires
        outline::in_order(lines),
        i < lines.len(),
        outline::open_macro(lines, j, i),
    ensures
        ({
            let start = outline::command_span(lines[j]);
            let body = outline::body_at(lines, j, i);
            let unbraced = outline::starts_unbraced(lines[j]);
            let hide = outline::in_hidden_part(lines, i);
            let open_hide = outline::command_span(lines[outline::hidden_parts(lines, i).last()]);
            let before = found(progress_at(lines, i)) + faults(lines[i]);
            let after = found(progress_at(lines, i + 1));
            match outline::command_in(lines[i]) {
                Some(CommandText::MacroStart { span, .. }) => after == before + seq![
                    Diagnostic::OpenMacro {
                        cur_start_span: start,
                        cur_macro_span: body,
                        new_start_span: span,
                    },
                ],
                Some(CommandText::MacroEnd(span)) => after == before + (if unbraced {
                    seq![
                        Diagnostic::MacroCloseExplicit {
                            macro_start: start,
                            macro_end: span,
                            macro_body: body,
                        },
                    ]
                } else {
                    Seq::empty()
                }) + (if hide {
                    seq![
                        Diagnostic::MacroCloseHideStack {
                            macro_start: start,
                            macro_end: span,
                            open_hide,
                        },
                    ]
                } else {
                    Seq::empty()
                }),
                Some(CommandText::NamespaceClose(span)) => after == before + (
                if outline::namespaces_at(lines, i).len() == 0 {
                    seq![Diagnostic::NoNamespaceToClose { close_span: span }]
                } else {
                    Seq::empty()
                }),
                Some(CommandText::HideEnd(span)) => after == before + (if !hide {
                    seq![Diagnostic::NoHideToClose { close_span: span }]
                } else {
                    Seq::empty()
                }),
                Some(_) => after == before,
                None => after == before + (if unbraced && hide && outline::blank(lines[i]) {
                    seq![
                        Diagnostic::MacroCloseHideStack {
                            macro_start: start,
                            macro_end: lines[i].span(),
                            open_hide,
                        },
                    ]
                } else {
                    Seq::empty()
                }),
            }
        }),
{
    lemma_agrees(lines, i);
    let p = progress_at(lines, i);
    let line = lines[i];
    let r = noted(p, line);
    lemma_line(p, i as nat, line);
    lemma_noted(p, line);
    lemma_hidden_spans(lines, i);
    assert(outline::in_macro(lines, i));
    assert(p.mode is Macro);
    let m = p.mode->Macro_0;
    let o = lemma_opener(lines, i, m);
    assert(o == j);
    let before = found(p) + faults(line);
    assert(before + Seq::<Diagnostic>::empty() =~= before);
    match outline::command_in(line) {
        None => {
            lemma_verbatim(r, Seq::empty(), line.span(), false);
            lemma_verbatim(r, line.text, line.span(), true);
            lemma_closed(r, false, line.span());
        },
        Some(command) => {
            lemma_command_text(r, command, i as nat as u32);
            if let CommandText::MacroStart { span, .. } = command {
                lemma_outside(r, span, false);
            }
            if let CommandText::MacroEnd(span) = command {
                lemma_closed(r, true, span);
            }
        },
    }
}

/// What is found wrong at the end of a source: a macro that was started with a brace is still open.
pub proof fn law_end_errors(src: Seq<char>)
    requires
        translation::source(src).fits(),
    ensures
        ({
            let lines = outline::source_lines(src);
            let n = lines.len() as int;
            let end = translation::source(src).end();
            let before = found(progress_at(lines, n));
            let after = found(translation::translated(src));
            &&& !outline::in_macro(lines, n) ==> after == before
            &&& forall|j: int| #[trigger]
                outline::open_macro(lines, j, n) ==> after == before + (
                if outline::starts_unbraced(lines[j]) {
                    Seq::empty()
                } else {
                    seq![
                        Diagnostic::UnfinishedMacro {
                            cur_start_span: outline::command_span(lines[j]),
                            cur_macro_span: outline::body_at(lines, j, n),
                            file_end_span: span_str::span_of(end, end),
                        },
                    ]
                })
        }),
{
    let lines = outline::source_lines(src);
    let n = lines.len() as int;
    let end = translation::source(src).end();
    let p = progress_at(lines, n);
    law_line_by_line(src);
    outline::law_in_order(src);
    lemma_agrees(lines, n);
    lemma_outside(p, span_str::span_of(end, end), true);
    assert(found(p) + Seq::<Diagnostic>::empty() =~= found(p));
    if let Mode::Macro(m) = p.mode {
        let o = lemma_opener(lines, n, m);
    } else {
        assert forall|j: int| #[trigger] outline::open_macro(lines, j, n) implies false by {
            assert(outline::in_macro(lines, n));
        }
    }
}

/// A macro is recorded for each annotation that starts one, and for nothing else: with its name
/// behind those of the open namespaces, the number of lines before it, and whether it is inline.
pub proof fn law_recorded(lines: Seq<SpanText>, i: int)
    requires
        0 <= i,
    ensures
        recorded(progress_at(lines, i + 1)) == match outline::command_in(lines[i]) {
            Some(CommandText::MacroStart { name, inline, .. }) => recorded(
                progress_at(lines, i),
            ).push(
                MacroText {
                    name: text::joined(outline::namespaces_at(lines, i)) + name.text,
                    line: i as u32,
                    inline,
                },
            ),
            _ => recorded(progress_at(lines, i)),
        },
{
    lemma_agrees(lines, i);
    let p = progress_at(lines, i);
    let line = lines[i];
    let r = noted(p, line);
    lemma_line(p, i as nat, line);
    lemma_noted(p, line);
    match outline::command_in(line) {
        None => {
            lemma_verbatim(r, Seq::empty(), line.span(), false);
            lemma_verbatim(r, line.text, line.span(), true);
            lemma_closed(r, false, line.span());
        },
        Some(command) => {
            lemma_command_text(r, command, i as nat as u32);
        },
    }
}

/// Nothing is recorded before the first line, nor at the end of a source.
pub proof fn law_recorded_ends(src: Seq<char>)
    ensures
        ({
            let lines = outline::source_lines(src);
            &&& recorded(translation::translated(src)) == recorded(
                progress_at(lines, lines.len() as int),
            )
            &&& recorded(progress_at(lines, 0)).len() == 0
            &&& found(progress_at(lines, 0)).len() == 0
            &&& written(progress_at(lines, 0)).len() == 0
        }),
{
    let lines = outline::source_lines(src);
    let end = translation::source(src).end();
    law_line_by_line(src);
    lemma_outside(progress_at(lines, lines.len() as int), span_str::span_of(end, end), true);
}

/// Nothing is wrong with line `i` where it stands: it is not marked in vain, nothing trails it and
/// no mark is out of place; it starts no macro inside of another; it ends no macro but one that was
/// started with a brace and has no hidden part open; it is no blank line that ends a macro with a
/// hidden part open; and it ends no hidden part and no namespace where none is open.
pub open spec fn proper(lines: Seq<SpanText>, i: int) -> bool {
    &&& match command::parsed(lines[i].trim()) {
        ParsedText::NotACommand => true,
        ParsedText::InvalidCommand => false,
        ParsedText::Command { trailing_chars, invalid_inline_annot, .. } => trailing_chars is None
            && invalid_inline_annot is None,
    }
    &&& outline::starts_macro(lines[i]) ==> !outline::in_macro(lines, i)
    &&& outline::ends_macro(lines[i]) ==> !outline::in_hidden_part(lines, i) && exists|j: int|
        #[trigger] outline::open_macro(lines, j, i) && !outline::starts_unbraced(lines[j])
    &&& outline::blank(lines[i]) && outline::in_hidden_part(lines, i) ==> !exists|j: int|
        #[trigger] outline::open_macro(lines, j, i) && outline::starts_unbraced(lines[j])
    &&& outline::command_in(lines[i]) matches Some(CommandText::HideEnd(_)) ==>
        outline::in_hidden_part(lines, i)
    &&& outline::command_in(lines[i]) matches Some(CommandText::NamespaceClose(_)) ==>
        outline::namespaces_at(lines, i).len() > 0
}

/// Effects are clean just if nothing wrong is among them.
proof fn lemma_clean(effects: Seq<Effect>)
    ensures
        document::is_clean(effects) <==> diagnostics_in(effects).len() == 0,
    decreases effects.len(),
{
    if effects.len() > 0 {
        let before = effects.drop_last();
        lemma_clean(before);
        assert(effects[effects.len() - 1] == effects.last());
        if document::is_clean(before) && !(effects.last() is Diagnosed) {
            assert forall|i: int| 0 <= i < effects.len() implies !(
            #[trigger] effects[i] is Diagnosed) by {
                if i < before.len() {
                    assert(before[i] == effects[i]);
                }
            }
        }
        if document::is_clean(effects) {
            assert forall|i: int| 0 <= i < before.len() implies !(
            #[trigger] before[i] is Diagnosed) by {
                assert(before[i] == effects[i]);
            }
        }
    }
}

/// Something is found wrong at a line just if something is wrong with it.
proof fn lemma_proper(lines: Seq<SpanText>, i: int)
    requires
        outline::in_order(lines),
        0 <= i < lines.len(),
    ensures
        found(progress_at(lines, i + 1)).len() >= found(progress_at(lines, i)).len(),
        found(progress_at(lines, i + 1)).len() == found(progress_at(lines, i)).len() <==> proper(
            lines,
            i,
        ),
{
    outline::law_blank(lines[i]);
    if outline::in_macro(lines, i) {
        let j = choose|j: int| outline::open_macro(lines, j, i);
        law_inside_errors(lines, j, i);
        assert forall|k: int| #[trigger] outline::open_macro(lines, k, i) implies k == j by {
            outline::law_one_macro(lines, k, j, i);
        }
    } else {
        law_outside_errors(lines, i);
        assert forall|k: int| #[trigger] outline::open_macro(lines, k, i) implies false by {
            assert(outline::in_macro(lines, i));
        }
    }
}

/// Nothing is found wrong up to line `i` just if nothing is wrong with the lines up to there.
proof fn lemma_all_proper(lines: Seq<SpanText>, i: int)
    requires
        outline::in_order(lines),
        0 <= i <= lines.len(),
    ensures
        found(progress_at(lines, i)).len() == 0 <==> forall|k: int|
            0 <= k < i ==> #[trigger] proper(lines, k),
    decreases i,
{
    if i > 0 {
        lemma_all_proper(lines, i - 1);
        lemma_proper(lines, i - 1);
    }
}

/// A source is clean just if nothing is wrong with any of its lines, and every macro that is
/// started with a brace is ended.
pub proof fn law_clean(src: Seq<char>)
    requires
        translation::source(src).fits(),
    ensures
        ({
            let lines = outline::source_lines(src);
            document::is_clean(translation::translated(src).effects) <==> {
                &&& forall|i: int| 0 <= i < lines.len() ==> #[trigger] proper(lines, i)
                &&& forall|j: int| #[trigger]
                    outline::open_macro(lines, j, lines.len() as int) ==> outline::starts_unbraced(
                        lines[j],
                    )
            }
        }),
{
    let lines = outline::source_lines(src);
    let n = lines.len() as int;
    outline::law_in_order(src);
    lemma_all_proper(lines, n);
    law_end_errors(src);
    lemma_clean(translation::translated(src).effects);
    if outline::in_macro(lines, n) {
        let j = choose|j: int| outline::open_macro(lines, j, n);
        assert forall|k: int| #[trigger] outline::open_macro(lines, k, n) implies k == j by {
            outline::law_one_macro(lines, k, j, n);
        }
    } else {
        assert forall|k: int| #[trigger] outline::open_macro(lines, k, n) implies false by {
            assert(outline::in_macro(lines, n));
        }
    }
}

/// A blank line ends a macro that was started without a brace, whatever the macro holds: nothing is
/// open behind it, and the last that is written is the end of the definition.
pub proof fn law_blank_line(p: Progress, n: nat, line: SpanText)
    requires
        outline::blank(line),
        p.mode matches Mode::Macro(m) && m.auto_close,
    ensures
        p.line(n, line).mode is Outside,
        ({
            let m = p.mode->Macro_0;
            written(p.line(n, line)) == written(p) + (if m.inner_mode is Outside {
                "}\n\n"@
            } else if m.inline {
                "\\end{code}}\n\n"@
            } else {
                "\\end{code}%\n\\IfBooleanF{#1}{\\end{AgdaMultiCode}}}\n\n"@
            })
        }),
{
    lemma_line(p, n, line);
    lemma_closed(p, false, line.span());
}

/// An annotation that starts a macro inside of another is wrong, however the other was started, and
/// ends the other.
pub proof fn law_start_inside(p: Progress, n: u32, command: CommandText)
    requires
        p.mode is Macro,
        command is MacroStart,
    ensures
        ({
            let m = p.mode->Macro_0;
            let q = p.command(command, n);
            &&& found(q) == found(p).push(
                Diagnostic::OpenMacro {
                    cur_start_span: m.start,
                    cur_macro_span: m.body,
                    new_start_span: command.span(),
                },
            )
            &&& q.mode matches Mode::Macro(o) && o.start == command.span() && o.body is None
                && o.inner_mode is Outside && o.inline == command->inline && o.auto_close
                == command->auto_close
        }),
{
    lemma_command_text(p, command, n);
    lemma_outside(p, command.span(), false);
}

/// Lines of nothing but LaTeX: each of them is empty, or starts with a command, a comment or the
/// end of a group.
pub open spec fn latex(t: Seq<char>) -> bool {
    &&& t.len() > 0 ==> t.last() == '\n'
    &&& forall|k: int|
        0 <= k < t.len() && (k == 0 || t[k - 1] == '\n') ==> {
            ||| #[trigger] t[k] == '\n'
            ||| t[k] == '\\'
            ||| t[k] == '%'
            ||| t[k] == '}'
        }
}

/// The text consists of the given lines, in this order, each with one line feed behind it, and of
/// lines of nothing but LaTeX before, between and behind them.
pub open spec fn interleaved(t: Seq<char>, lines: Seq<Seq<char>>) -> bool
    decreases lines.len(),
{
    if lines.len() == 0 {
        latex(t)
    } else {
        exists|front: Seq<char>, back: Seq<char>|
            {
                &&& t == #[trigger] (front + lines.last() + seq!['\n'] + back)
                &&& latex(back)
                &&& interleaved(front, lines.drop_last())
            }
    }
}

proof fn lemma_latex_concat(a: Seq<char>, b: Seq<char>)
    requires
        latex(a),
        latex(b),
    ensures
        latex(a + b),
{
    let t = a + b;
    assert forall|k: int| 0 <= k < t.len() && (k == 0 || t[k - 1] == '\n') implies {
        ||| #[trigger] t[k] == '\n'
        ||| t[k] == '\\'
        ||| t[k] == '%'
        ||| t[k] == '}'
    } by {
        if k < a.len() {
            assert(t[k] == a[k]);
            if k > 0 {
                assert(t[k - 1] == a[k - 1]);
            }
        } else {
            let l = k - a.len();
            assert(t[k] == b[l]);
            if l > 0 {
                assert(t[k - 1] == b[l - 1]);
            }
        }
    }
}

/// LaTeX behind such a text.
proof fn lemma_more_latex(t: Seq<char>, lines: Seq<Seq<char>>, b: Seq<char>)
    requires
        interleaved(t, lines),
        latex(b),
    ensures
        interleaved(t + b, lines),
{
    if lines.len() == 0 {
        lemma_latex_concat(t, b);
    } else {
        let (front, back) = choose|front: Seq<char>, back: Seq<char>|
            {
                &&& t == #[trigger] (front + lines.last() + seq!['\n'] + back)
                &&& latex(back)
                &&& interleaved(front, lines.drop_last())
            };
        lemma_latex_concat(back, b);
        assert(t + b =~= front + lines.last() + seq!['\n'] + (back + b));
    }
}

/// One line more behind such a text.
proof fn lemma_more_lines(t: Seq<char>, lines: Seq<Seq<char>>, line: Seq<char>)
    requires
        interleaved(t, lines),
    ensures
        interleaved(t + line + seq!['\n'], lines.push(line)),
{
    let none = Seq::<char>::empty();
    let more = lines.push(line);
    assert(more.drop_last() =~= lines);
    assert(t + line + seq!['\n'] =~= t + more.last() + seq!['\n'] + none);
}

/// The fixed texts are LaTeX.
#[verifier::rlimit(60)]
proof fn lemma_latex_code()
    ensures
        latex(Seq::empty()),
        latex(seq!['\n']),
        latex("\\begin{code}[hide]\n"@),
        latex("\\begin{code}[]\n"@),
        latex("\\end{code}\n\n"@),
        latex("\\end{code}%\n"@),
        latex("}\n\n"@),
        latex("\\end{code}}\n\n"@),
{
    reveal_strlit("\\begin{code}[hide]\n");
    reveal_strlit("\\begin{code}[]\n");
    reveal_strlit("\\end{code}\n\n");
    reveal_strlit("\\end{code}%\n");
    reveal_strlit("}\n\n");
    reveal_strlit("\\end{code}}\n\n");
}

/// The longer ones are LaTeX too.
#[verifier::rlimit(60)]
proof fn lemma_latex_long()
    ensures
        latex("\\begin{code}[\\IfBooleanTF{#1}{inline*}{inline}]\n"@),
        latex("\\end{code}%\n\\IfBooleanF{#1}{\\end{AgdaMultiCode}}}\n\n"@),
{
    reveal_strlit("\\begin{code}[\\IfBooleanTF{#1}{inline*}{inline}]\n");
    reveal_strlit("\\end{code}%\n\\IfBooleanF{#1}{\\end{AgdaMultiCode}}}\n\n");
}

/// A text without line feeds.
#[verifier::opaque]
spec fn unbroken(t: Seq<char>) -> bool {
    forall|k: int| 0 <= k < t.len() ==> #[trigger] t[k] != '\n'
}

proof fn lemma_unbroken_concat(a: Seq<char>, b: Seq<char>)
    requires
        unbroken(a),
        unbroken(b),
    ensures
        unbroken(a + b),
{
    reveal(unbroken);
    let t = a + b;
    assert forall|k: int| 0 <= k < t.len() implies #[trigger] t[k] != '\n' by {
        if k < a.len() {
            assert(t[k] == a[k]);
        } else {
            assert(t[k] == b[k - a.len()]);
        }
    }
}

/// One line of LaTeX.
proof fn lemma_latex_line(t: Seq<char>)
    requires
        unbroken(t),
        t.len() > 0,
        t[0] == '\\' || t[0] == '%' || t[0] == '}',
    ensures
        latex(t + seq!['\n']),
{
    reveal(unbroken);
    let u = t + seq!['\n'];
    assert forall|k: int| 0 <= k < u.len() && (k == 0 || u[k - 1] == '\n') implies {
        ||| #[trigger] u[k] == '\n'
        ||| u[k] == '\\'
        ||| u[k] == '%'
        ||| u[k] == '}'
    } by {
        if k > 0 {
            assert(u[k - 1] == t[k - 1]);
        }
    }
}

/// How the texts at the start of a definition fall into lines.
#[verifier::rlimit(60)]
proof fn lemma_head_lines()
    ensures
        " [inline]\n\\NewDocumentCommand\\"@ == " [inline]"@ + seq!['\n']
            + "\\NewDocumentCommand\\"@,
        "\n\\NewDocumentCommand\\"@ == seq!['\n'] + "\\NewDocumentCommand\\"@,
        "{s}{%\n"@ == "{s}{%"@ + seq!['\n'],
        "{s}{%\n\\IfBooleanF{#1}{\\begin{AgdaMultiCode}}%\n"@ == "{s}{%"@ + seq!['\n']
            + "\\IfBooleanF{#1}{\\begin{AgdaMultiCode}}%"@ + seq!['\n'],
{
    reveal_strlit(" [inline]");
    reveal_strlit("\\NewDocumentCommand\\");
    reveal_strlit("{s}{%");
    reveal_strlit("\\IfBooleanF{#1}{\\begin{AgdaMultiCode}}%");
    reveal_strlit(" [inline]\n\\NewDocumentCommand\\");
    reveal_strlit("\n\\NewDocumentCommand\\");
    reveal_strlit("{s}{%\n");
    reveal_strlit("{s}{%\n\\IfBooleanF{#1}{\\begin{AgdaMultiCode}}%\n");
}

/// The lines at the start of a definition.
#[verifier::rlimit(60)]
proof fn lemma_head_split(full: Seq<char>, inline: bool)
    ensures
        ({
            let nl = seq!['\n'];
            let mark = if inline {
                " [inline]"@
            } else {
                Seq::empty()
            };
            let a = "% \\"@ + full + mark;
            let b = "\\NewDocumentCommand\\"@ + full + "{s}{%"@;
            let c = "\\IfBooleanF{#1}{\\begin{AgdaMultiCode}}%"@;
            head(full, inline) == (if inline {
                a + nl + (b + nl)
            } else {
                a + nl + (b + nl) + (c + nl)
            })
        }),
{
    lemma_head_lines();
}

/// What these lines hold.
proof fn lemma_head_unbroken()
    ensures
        unbroken("% \\"@),
        "% \\"@.len() > 0 && "% \\"@[0] == '%',
        unbroken(" [inline]"@),
        unbroken("\\NewDocumentCommand\\"@),
        "\\NewDocumentCommand\\"@.len() > 0 && "\\NewDocumentCommand\\"@[0] == '\\',
        unbroken("{s}{%"@),
        unbroken("\\IfBooleanF{#1}{\\begin{AgdaMultiCode}}%"@),
        "\\IfBooleanF{#1}{\\begin{AgdaMultiCode}}%"@.len() > 0,
        "\\IfBooleanF{#1}{\\begin{AgdaMultiCode}}%"@[0] == '\\',
{
    reveal(unbroken);
    reveal_strlit("% \\");
    reveal_strlit(" [inline]");
    reveal_strlit("\\NewDocumentCommand\\");
    reveal_strlit("{s}{%");
    reveal_strlit("\\IfBooleanF{#1}{\\begin{AgdaMultiCode}}%");
}

/// The start of a definition is LaTeX.
#[verifier::rlimit(60)]
proof fn lemma_latex_head(full: Seq<char>, inline: bool)
    requires
        unbroken(full),
    ensures
        latex(head(full, inline)),
{
    let nl = seq!['\n'];
    let mark = if inline {
        " [inline]"@
    } else {
        Seq::empty()
    };
    lemma_head_unbroken();
    assert(unbroken(Seq::empty())) by {
        reveal(unbroken);
    }
    lemma_unbroken_concat("% \\"@, full);
    lemma_unbroken_concat("% \\"@ + full, mark);
    let a = "% \\"@ + full + mark;
    lemma_latex_line(a);
    lemma_unbroken_concat("\\NewDocumentCommand\\"@, full);
    lemma_unbroken_concat("\\NewDocumentCommand\\"@ + full, "{s}{%"@);
    let b = "\\NewDocumentCommand\\"@ + full + "{s}{%"@;
    lemma_latex_line(b);
    let c = "\\IfBooleanF{#1}{\\begin{AgdaMultiCode}}%"@;
    lemma_latex_line(c);
    lemma_latex_concat(a + nl, b + nl);
    lemma_latex_concat(a + nl + (b + nl), c + nl);
    lemma_head_split(full, inline);
}

/// A name of letters holds no line feed.
proof fn lemma_unbroken_name(name: Seq<char>)
    requires
        command::well_named(name),
    ensures
        unbroken(name),
{
    reveal(unbroken);
    assert forall|k: int| 0 <= k < name.len() implies #[trigger] name[k] != '\n' by {
        assert(text::ascii_alphabetic(name[k]));
    }
}

/// Names hold no line feed.
proof fn lemma_unbroken_names(lines: Seq<SpanText>, i: int)
    ensures
        forall|k: int|
            0 <= k < outline::namespaces_at(lines, i).len() ==> unbroken(
                #[trigger] outline::namespaces_at(lines, i)[k],
            ),
    decreases i,
{
    if i > 0 {
        lemma_unbroken_names(lines, i - 1);
        command::law_command_name(lines[i - 1].trim());
        if let Some(CommandText::NamespaceOpen { name, .. }) = outline::command_in(lines[i - 1]) {
            lemma_unbroken_name(name.text);
        }
        let before = outline::namespaces_at(lines, i - 1);
        let after = outline::namespaces_at(lines, i);
        assert forall|k: int| 0 <= k < after.len() implies unbroken(#[trigger] after[k]) by {
            if k < before.len() {
                assert(unbroken(before[k]));
            }
        }
    }
}

proof fn lemma_unbroken_joined(parts: Seq<Seq<char>>)
    requires
        forall|k: int| 0 <= k < parts.len() ==> unbroken(#[trigger] parts[k]),
    ensures
        unbroken(text::joined(parts)),
    decreases parts.len(),
{
    if parts.len() > 0 {
        lemma_unbroken_joined(parts.drop_last());
        lemma_unbroken_concat(text::joined(parts.drop_last()), parts.last());
    } else {
        reveal(unbroken);
    }
}

/// What an annotation that starts a macro writes is LaTeX.
proof fn lemma_latex_start(lines: Seq<SpanText>, i: int)
    ensures
        outline::command_in(lines[i]) matches Some(CommandText::MacroStart { name, inline, .. })
            ==> latex(head(text::joined(outline::namespaces_at(lines, i)) + name.text, inline)),
{
    if let Some(CommandText::MacroStart { name, inline, .. }) = outline::command_in(lines[i]) {
        command::law_command_name(lines[i].trim());
        lemma_unbroken_name(name.text);
        lemma_unbroken_names(lines, i);
        lemma_unbroken_joined(outline::namespaces_at(lines, i));
        lemma_unbroken_concat(text::joined(outline::namespaces_at(lines, i)), name.text);
        lemma_latex_head(text::joined(outline::namespaces_at(lines, i)) + name.text, inline);
    }
}

/// The lines of code before line `i`.
pub open spec fn code_before(lines: Seq<SpanText>, i: int) -> Seq<Seq<char>>
    decreases i,
{
    if i <= 0 {
        Seq::empty()
    } else if outline::is_code(lines[i - 1]) {
        code_before(lines, i - 1).push(lines[i - 1].text)
    } else {
        code_before(lines, i - 1)
    }
}

/// What is written up to a line are the lines of code before it, and LaTeX.
#[verifier::rlimit(40)]
proof fn lemma_kept_step(lines: Seq<SpanText>, i: int)
    requires
        0 <= i,
        interleaved(written(progress_at(lines, i)), code_before(lines, i)),
    ensures
        interleaved(written(progress_at(lines, i + 1)), code_before(lines, i + 1)),
{
    let before = written(progress_at(lines, i));
    let after = written(progress_at(lines, i + 1));
    let code = code_before(lines, i);
    let line = lines[i];
    lemma_latex_code();
    lemma_latex_long();
    lemma_latex_start(lines, i);
    outline::law_blank(line);
    let inside = outline::in_macro(lines, i);
    let j = choose|j: int| outline::open_macro(lines, j, i);
    let hidden = outline::in_hidden(lines, i);
    let inline = outline::starts_inline(lines[j]);
    let environment = outline::environment_at(lines, j, i);
    let hide = outline::in_hidden_part(lines, i);
    // What closes what is open.
    let close = if inside {
        tail(inline, environment is Some)
    } else if hidden {
        "\\end{code}\n\n"@
    } else {
        Seq::empty()
    };
    // What opens what a line of code is to stand in.
    let open = if inside {
        switch(environment, hide, inline)
    } else if hidden {
        Seq::empty()
    } else {
        "\\begin{code}[hide]\n"@
    };
    if inside && environment is Some && environment != Some(hide) {
        lemma_latex_concat("\\end{code}%\n"@, begin(hide, inline));
    }
    if inside {
        law_inside_text(lines, j, i);
    } else {
        law_outside_text(lines, i);
    }
    lemma_more_latex(before, code, close);
    lemma_more_latex(before, code, open);
    match outline::command_in(line) {
        None => {
            if outline::is_code(line) {
                assert(after =~= before + open + line.text + seq!['\n']);
                lemma_more_lines(before + open, code, line.text);
            } else if inside && outline::starts_unbraced(lines[j]) {
                assert(after =~= before + close);
            } else if inside {
                assert(after =~= before + open + seq!['\n']);
                lemma_more_latex(before + open, code, seq!['\n']);
            } else {
                lemma_more_latex(before, code, seq!['\n']);
            }
        },
        Some(CommandText::MacroStart { name, inline: inline_start, .. }) => {
            let full = text::joined(outline::namespaces_at(lines, i)) + name.text;
            lemma_head(before + close, full, inline_start);
            assert(before + Seq::<char>::empty() =~= before);
            lemma_more_latex(before + close, code, head(full, inline_start));
        },
        Some(CommandText::MacroEnd(_)) => {
            assert(before + Seq::<char>::empty() =~= before);
        },
        Some(_) => {},
    }
}

proof fn lemma_kept(lines: Seq<SpanText>, i: int)
    requires
        0 <= i,
    ensures
        interleaved(written(progress_at(lines, i)), code_before(lines, i)),
    decreases i,
{
    if i == 0 {
        lemma_latex_code();
        assert(written(progress_at(lines, 0)) =~= Seq::<char>::empty());
    } else {
        lemma_kept(lines, i - 1);
        lemma_kept_step(lines, i - 1);
    }
}

/// The text that is written for a source consists of its lines that are neither blank nor
/// annotations, as they are and in their order, each with one line feed behind it, and of lines of
/// LaTeX before, between and behind them.
pub proof fn law_lines_written(src: Seq<char>)
    ensures
        ({
            let lines = outline::source_lines(src);
            interleaved(
                driver::text_of(translation::translated(src).effects),
                code_before(lines, lines.len() as int),
            )
        }),
{
    let lines = outline::source_lines(src);
    let n = lines.len() as int;
    let before = written(progress_at(lines, n));
    let code = code_before(lines, n);
    lemma_kept(lines, n);
    lemma_latex_code();
    lemma_latex_long();
    law_end_text(src);
    if outline::in_hidden(lines, n) {
        lemma_more_latex(before, code, "\\end{code}\n\n"@);
    } else if outline::in_macro(lines, n) {
        let j = choose|j: int| outline::open_macro(lines, j, n);
        let code_open = outline::environment_at(lines, j, n) is Some;
        lemma_more_latex(before, code, tail(outline::starts_inline(lines[j]), code_open));
    }
}

/// The lines from `k` up to `i` that are no annotations, each with one line feed behind it; those
/// that are blank as empty lines.
pub open spec fn lines_between(lines: Seq<SpanText>, k: int, i: int) -> Seq<char>
    decreases i - k,
{
    if i <= k {
        Seq::empty()
    } else {
        lines_between(lines, k, i - 1) + (if outline::is_code(lines[i - 1]) {
            lines[i - 1].text + seq!['\n']
        } else if outline::blank(lines[i - 1]) {
            seq!['\n']
        } else {
            Seq::empty()
        })
    }
}

/// What is written up to line `i` and for it ends with the text `start`, and behind that with
/// nothing but the lines from `k` on, as they are.
pub open spec fn stands_behind(lines: Seq<SpanText>, k: int, i: int, start: Seq<char>) -> bool {
    exists|front: Seq<char>|
        written(progress_at(lines, i + 1)) == #[trigger] (front + start + lines_between(
            lines,
            k,
            i + 1,
        ))
}

/// The environment that is open inside of a macro.
#[verifier::rlimit(40)]
proof fn lemma_environment(lines: Seq<SpanText>, j: int, i: int) -> (k: int)
    requires
        outline::open_macro(lines, j, i),
        outline::environment_at(lines, j, i) is Some,
    ensures
        j < k < i,
        stands_behind(
            lines,
            k,
            i - 1,
            begin(outline::environment_at(lines, j, i)->0, outline::starts_inline(lines[j])),
        ),
    decreases i - j,
{
    let e = i - 1;
    let inline = outline::starts_inline(lines[j]);
    assert(outline::open_macro(lines, j, e)) by {
        outline::lemma_open_step(lines, e);
        assert(outline::open_macro(lines, j, e + 1));
        assert(!outline::starts_macro(lines[e]) || j == e);
    }
    law_inside_text(lines, j, e);
    outline::law_blank(lines[e]);
    assert(!outline::starts_macro(lines[e]) && !outline::ends_macro(lines[e]));
    assert(!(outline::starts_unbraced(lines[j]) && outline::blank(lines[e])));
    let before = written(progress_at(lines, e));
    let after = written(progress_at(lines, i));
    let old_env = outline::environment_at(lines, j, e);
    let hide = outline::environment_at(lines, j, i)->0;
    let start = begin(hide, inline);
    if outline::command_in(lines[e]) is Some || old_env == Some(hide) {
        let k = lemma_environment(lines, j, e);
        let front = choose|front: Seq<char>|
            before == #[trigger] (front + start + lines_between(lines, k, e - 1 + 1));
        assert(after =~= front + start + lines_between(lines, k, i));
        k
    } else {
        let front = before + (if old_env is None {
            Seq::empty()
        } else {
            "\\end{code}%\n"@
        });
        assert(lines_between(lines, e, e) =~= Seq::<char>::empty());
        assert(after =~= front + start + lines_between(lines, e, i));
        e
    }
}

/// A line inside of a macro that does not end it stands behind the start of a `code` environment,
/// with nothing but lines of the source between. The environment has the option `hide` just if a
/// hidden part is open at the line, also where it is the first of the macro.
pub proof fn law_hidden_text(lines: Seq<SpanText>, j: int, i: int) -> (k: int)
    requires
        outline::open_macro(lines, j, i),
        outline::command_in(lines[i]) is None,
        !(outline::starts_unbraced(lines[j]) && outline::blank(lines[i])),
    ensures
        j < k <= i,
        outline::in_hidden_part(lines, i) ==> stands_behind(
            lines,
            k,
            i,
            "\\begin{code}[hide]\n"@,
        ),
        !outline::in_hidden_part(lines, i) && outline::starts_inline(lines[j]) ==> stands_behind(
            lines,
            k,
            i,
            "\\begin{code}[\\IfBooleanTF{#1}{inline*}{inline}]\n"@,
        ),
        !outline::in_hidden_part(lines, i) && !outline::starts_inline(lines[j]) ==> stands_behind(
            lines,
            k,
            i,
            "\\begin{code}[]\n"@,
        ),
{
    outline::lemma_open_step(lines, i);
    assert(outline::open_macro(lines, j, i + 1));
    lemma_environment(lines, j, i + 1)
}

/// Events that show effects ask for them one by one: for the same text, the same diagnostic, or a
/// macro of the same name, line and kind.
pub proof fn law_shown(events: Seq<Event>, effects: Seq<Effect>, i: int)
    requires
        translation::show(events, effects),
        0 <= i < effects.len(),
    ensures
        events.len() == effects.len(),
        match effects[i] {
            Effect::Output(piece) => events[i] matches Event::Output(s) && s@ == piece.text(),
            Effect::Diagnosed(d) => events[i] matches Event::Diagnosed(e) && e == d,
            Effect::Defined(m) => events[i] matches Event::Defined(n) && n.name@ == m.name
                && n.line == m.line && n.inline == m.inline,
        },
{
    assert(events[i].shows(effects[i]));
}

/// What the events that show effects say.
proof fn lemma_events(events: Seq<Event>, effects: Seq<Effect>)
    requires
        translation::show(events, effects),
    ensures
        driver::output_of(events) == driver::text_of(effects),
        driver::errors_of(events) == diagnostics_in(effects),
        driver::comments_of(events).len() == document::macros_in(effects).len(),
        forall|k: int|
            0 <= k < document::macros_in(effects).len() ==> #[trigger] driver::comments_of(
                events,
            )[k] == translation::comment_text(
                document::macros_in(effects)[k].name,
                document::macros_in(effects)[k].inline,
            ),
    decreases events.len(),
{
    if events.len() > 0 {
        let n = events.len() - 1;
        let before = events.drop_last();
        let after = effects.drop_last();
        assert forall|i: int| 0 <= i < before.len() implies (#[trigger] before[i]).shows(
            after[i],
        ) by {
            assert(events[i].shows(effects[i]));
        }
        lemma_events(before, after);
        assert(events[n].shows(effects[n]));
        let comments = driver::comments_of(events);
        let macros = document::macros_in(effects);
        assert forall|k: int| 0 <= k < macros.len() implies #[trigger] comments[k]
            == translation::comment_text(macros[k].name, macros[k].inline) by {
            if k < document::macros_in(after).len() {
                assert(driver::comments_of(before)[k] == comments[k]);
                assert(macros[k] == document::macros_in(after)[k]);
            }
        }
    }
}

/// What translating a source asks for in all: to write what is written for it, to report what is
/// found wrong with it, in its order, and a comment on each macro that it defines, with the name of
/// the macro, and behind it ` [inline]` just if the macro is inline.
pub proof fn law_events(src: Seq<char>, events: Seq<Event>)
    requires
        translation::show(events, translation::translated(src).effects),
    ensures
        driver::output_of(events) == written(translation::translated(src)),
        driver::errors_of(events) == found(translation::translated(src)),
        driver::comments_of(events).len() == recorded(translation::translated(src)).len(),
        forall|k: int|
            0 <= k < driver::comments_of(events).len() ==> #[trigger] driver::comments_of(events)[k]
                == "% \\"@ + recorded(translation::translated(src))[k].name + (if recorded(
                translation::translated(src),
            )[k].inline {
                " [inline]\n"@
            } else {
                "\n"@
            }),
{
    let effects = translation::translated(src).effects;
    lemma_events(events, effects);
    assert forall|k: int| 0 <= k < driver::comments_of(events).len() implies
        #[trigger] driver::comments_of(events)[k] == "% \\"@ + recorded(
        translation::translated(src),
    )[k].name + (if recorded(translation::translated(src))[k].inline {
        " [inline]\n"@
    } else {
        "\n"@
    }) by {
        let m = recorded(translation::translated(src))[k];
        law_comment(m.name, m.inline);
    }
}

/// The comment on a macro.
pub proof fn law_comment(name: Seq<char>, inline: bool)
    ensures
        translation::comment_text(name, inline) == "% \\"@ + name + (if inline {
            " [inline]\n"@
        } else {
            "\n"@
        }),
{
    reveal_strlit("% ");
    reveal_strlit("\\");
    reveal_strlit("% \\");
    reveal_strlit(" [inline]");
    reveal_strlit("");
    reveal_strlit("\n");
    reveal_strlit(" [inline]\n");
    assert("% \\"@ =~= "% "@ + "\\"@);
    assert(" [inline]\n"@ =~= " [inline]"@ + "\n"@);
    assert(translation::comment_text(name, inline) =~= "% \\"@ + name + (if inline {
        " [inline]\n"@
    } else {
        "\n"@
    }));
}

/// What a translator keeps of a source: the namespaces that are open at its end, and the hidden
/// parts that are open there, but for those of a macro that the end of the source closes.
pub proof fn law_leftover(src: Seq<char>)
    ensures
        ({
            let lines = outline::source_lines(src);
            let n = lines.len() as int;
            &&& translation::leftover(src).namespaces == outline::namespaces_at(lines, n)
            &&& translation::leftover(src).hides == (if outline::in_macro(lines, n) {
                Seq::empty()
            } else {
                hidden_spans(lines, n)
            })
        }),
{
    let lines = outline::source_lines(src);
    let n = lines.len() as int;
    let end = translation::source(src).end();
    let p = progress_at(lines, n);
    law_line_by_line(src);
    lemma_agrees(lines, n);
    lemma_outside(p, span_str::span_of(end, end), true);
    if let Mode::Macro(m) = p.mode {
        let o = lemma_opener(lines, n, m);
        assert(translation::leftover(src).hides =~= Seq::<Span>::empty());
    }
}

/// The numbers of the lines fit.
proof fn lemma_numbers(lines: Seq<SpanText>, k: int, rest: SpanText)
    requires
        0 <= k <= lines.len(),
        lines.skip(k) == span_str::span_lines(rest),
    ensures
        translation::numbers_fit(k as nat, rest) <==> forall|i: int|
            k <= i < lines.len() && outline::command_in(#[trigger] lines[i]) is Some ==> i
                <= u32::MAX,
    decreases rest.text.len(),
{
    if rest.text.len() > 0 {
        let (line, after) = span_str::first_line(rest);
        text::lemma_leading_bound(rest.text, text::not_newline());
        assert(lines.skip(k)[0] == line);
        assert(lines.skip(k).len() == lines.len() - k);
        assert(lines[k] == line);
        assert(lines.skip(k + 1) =~= lines.skip(k).skip(1));
        assert(span_str::span_lines(rest).skip(1) =~= span_str::span_lines(after));
        lemma_numbers(lines, k + 1, after);
    } else {
        assert(lines.skip(k).len() == 0);
    }
}

/// The numbers of lines fit into 32 bits just if each line that is an annotation has at most so
/// many lines before it as 32 bits can count.
pub proof fn law_numbers_fit(src: Seq<char>)
    ensures
        translation::numbers_fit(0, translation::source(src)) <==> forall|i: int|
            0 <= i < outline::source_lines(src).len() && outline::command_in(
                #[trigger] outline::source_lines(src)[i],
            ) is Some ==> i <= 0xffff_ffff,
{
    let lines = outline::source_lines(src);
    assert(lines.skip(0) =~= lines);
    lemma_numbers(lines, 0, translation::source(src));
}

/// The span that covers two others starts where the first of them starts, and ends where the last
/// of them ends.
pub proof fn law_covering(old: Option<Span>, span: Span)
    ensures
        ({
            let both = translation::covering(old, span);
            &&& old is None ==> both == span
            &&& old matches Some(s) ==> {
                &&& both.start <= s.start && both.start <= span.start
                &&& both.start == s.start || both.start == span.start
                &&& both.end >= s.end && both.end >= span.end
                &&& both.end == s.end || both.end == span.end
            }
        }),
{
}

/// `after` goes on from `before` with nothing but what is wrong.
spec fn notes(before: Seq<Effect>, after: Seq<Effect>) -> bool {
    &&& before.len() <= after.len()
    &&& forall|i: int| 0 <= i < before.len() ==> #[trigger] after[i] == before[i]
    &&& forall|i: int| before.len() <= i < after.len() ==> #[trigger] after[i] is Diagnosed
}

/// `after` goes on from `before` with what is wrong, and then with output.
spec fn writes(before: Seq<Effect>, after: Seq<Effect>) -> bool {
    &&& before.len() <= after.len()
    &&& forall|i: int| 0 <= i < before.len() ==> #[trigger] after[i] == before[i]
    &&& forall|i: int|
        before.len() <= i < after.len() ==> #[trigger] after[i] is Diagnosed || after[i] is Output
    &&& forall|i: int, k: int|
        before.len() <= i < k < after.len() && #[trigger] after[k] is Diagnosed ==> (
        #[trigger] after[i]) is Diagnosed
}

proof fn lemma_notes(before: Seq<Effect>, p: Progress, d: Diagnostic)
    requires
        notes(before, p.effects),
    ensures
        notes(before, p.diagnosed(d).effects),
        writes(before, p.effects),
{
}

proof fn lemma_writes(before: Seq<Effect>, p: Progress, piece: Piece)
    requires
        writes(before, p.effects),
    ensures
        writes(before, p.output(piece).effects),
{
}

/// Lines that are written come behind what is wrong.
proof fn lemma_order_verbatim(
    before: Seq<Effect>,
    p: Progress,
    line: Seq<char>,
    span: Span,
    need_hide: bool,
)
    requires
        writes(before, p.effects),
    ensures
        writes(before, p.verbatim(line, span, need_hide).effects),
{
    let hidden = Progress { mode: Mode::Hide, ..p };
    lemma_writes(before, hidden, Piece::OpenHidden);
    let ready = match p.mode {
        Mode::Outside => if need_hide {
            hidden.output(Piece::OpenHidden)
        } else {
            p
        },
        Mode::Hide => p,
        Mode::Macro(m) => Progress {
            mode: Mode::Macro(MacroMode { body: Some(translation::covering(m.body, span)), ..m }),
            ..p
        },
    };
    if let Mode::Macro(m) = ready.mode {
        let hide = ready.hides.len() > 0;
        lemma_writes(before, ready, Piece::OpenCode { hide, inline: m.inline });
        lemma_writes(before, ready, Piece::SwitchCode { hide, inline: m.inline });
    }
    lemma_writes(before, ready.in_code(), Piece::SourceLine(line));
}

/// So does the end of a macro.
proof fn lemma_order_closed(before: Seq<Effect>, p: Progress, explicit: bool, span: Span)
    requires
        notes(before, p.effects),
    ensures
        writes(before, p.closed(explicit, span).effects),
{
    if let Mode::Macro(m) = p.mode {
        let d = Diagnostic::MacroCloseExplicit {
            macro_start: m.start,
            macro_end: span,
            macro_body: m.body,
        };
        lemma_notes(before, p, d);
        let a = if explicit && m.auto_close {
            p.diagnosed(d)
        } else {
            p
        };
        let e = Diagnostic::MacroCloseHideStack {
            macro_start: m.start,
            macro_end: span,
            open_hide: p.hides.last(),
        };
        lemma_notes(before, a, e);
        let b = if p.hides.len() > 0 {
            a.diagnosed(e)
        } else {
            a
        };
        lemma_notes(before, b, e);
        let code = !(m.inner_mode is Outside);
        lemma_writes(before, b, Piece::CloseMacro { inline: m.inline, code });
    } else {
        let d = Diagnostic::NoMacroToClose {
            end_span: span,
            prev_autoclose_macro: p.prev_autoclose_macro,
        };
        lemma_notes(before, p, d);
        lemma_notes(before, p.diagnosed(d), d);
    }
}

/// And whatever is closed.
proof fn lemma_order_outside(before: Seq<Effect>, p: Progress, span: Span)
    requires
        notes(before, p.effects),
    ensures
        writes(before, p.outside(span, false).effects),
{
    let d = Diagnostic::NoHideToClose { close_span: span };
    lemma_notes(before, p, d);
    lemma_writes(before, p, Piece::CloseHidden);
    if let Mode::Macro(m) = p.mode {
        let e = Diagnostic::OpenMacro {
            cur_start_span: m.start,
            cur_macro_span: m.body,
            new_start_span: span,
        };
        lemma_notes(before, p, e);
        lemma_notes(before, p.diagnosed(e), e);
        let code = !(m.inner_mode is Outside);
        lemma_writes(before, p.diagnosed(e), Piece::CloseMacro { inline: m.inline, code });
    }
}

/// Of what one line brings about, what is wrong comes first. A macro is recorded directly before
/// its definition starts, under the same name, and nothing else is written for the line behind
/// that. What was brought about before stays.
#[verifier::rlimit(40)]
pub proof fn law_order(p: Progress, n: nat, line: SpanText)
    ensures
        ({
            let q = p.line(n, line);
            let a = p.effects.len() as int;
            let b = q.effects.len() as int;
            &&& a <= b
            &&& forall|i: int| 0 <= i < a ==> #[trigger] q.effects[i] == p.effects[i]
            &&& forall|i: int, k: int|
                a <= i < k < b && #[trigger] q.effects[k] is Diagnosed ==> (#[trigger] q.effects[i])
                    is Diagnosed
            &&& forall|i: int|
                a <= i < b && #[trigger] q.effects[i] is Defined ==> i == b - 2 && (q.effects[b - 1]
                    == Effect::Output(
                    Piece::OpenMacro {
                        name: q.effects[i]->Defined_0.name,
                        inline: q.effects[i]->Defined_0.inline,
                    },
                ))
        }),
{
    let before = p.effects;
    let r = noted(p, line);
    let d = Diagnostic::InvalidCommand { command_span: line.trim().span() };
    lemma_line(p, n, line);
    assert(notes(before, r.effects));
    lemma_notes(before, r, d);
    let q = p.line(n, line);
    match outline::command_in(line) {
        None => {
            lemma_order_verbatim(before, r, Seq::empty(), line.span(), false);
            lemma_order_verbatim(before, r, line.text, line.span(), true);
            lemma_order_closed(before, r, false, line.span());
            assert(writes(before, q.effects));
        },
        Some(CommandText::MacroStart { name, auto_close, inline, span }) => {
            lemma_order_outside(before, r, span);
            let left = r.outside(span, false);
            let full = text::joined(left.namespaces) + name.text;
            assert(q.effects == left.effects.push(
                Effect::Defined(MacroText { name: full, line: n as u32, inline }),
            ).push(Effect::Output(Piece::OpenMacro { name: full, inline })));
        },
        Some(CommandText::MacroEnd(span)) => {
            lemma_order_closed(before, r, true, span);
            assert(writes(before, q.effects));
        },
        Some(CommandText::NamespaceClose(span)) => {
            let e = Diagnostic::NoNamespaceToClose { close_span: span };
            lemma_notes(before, r, e);
            lemma_notes(before, r.diagnosed(e), e);
            assert(writes(before, q.effects));
        },
        Some(CommandText::HideEnd(span)) => {
            let e = Diagnostic::NoHideToClose { close_span: span };
            lemma_notes(before, r, e);
            lemma_notes(before, r.diagnosed(e), e);
            assert(writes(before, q.effects));
        },
        Some(_) => {
            assert(writes(before, q.effects));
        },
    }
}

/// What one effect more adds to what is written, found wrong and recorded.
pub proof fn law_effect(effects: Seq<Effect>, effect: Effect)
    ensures
        driver::text_of(Seq::empty()) == Seq::<char>::empty(),
        diagnostics_in(Seq::empty()) == Seq::<Diagnostic>::empty(),
        document::macros_in(Seq::empty()) == Seq::<MacroText>::empty(),
        driver::text_of(effects.push(effect)) == (match effect {
            Effect::Output(piece) => driver::text_of(effects) + piece.text(),
            _ => driver::text_of(effects),
        }),
        diagnostics_in(effects.push(effect)) == (match effect {
            Effect::Diagnosed(d) => diagnostics_in(effects).push(d),
            _ => diagnostics_in(effects),
        }),
        document::macros_in(effects.push(effect)) == (match effect {
            Effect::Defined(m) => document::macros_in(effects).push(m),
            _ => document::macros_in(effects),
        }),
        document::is_clean(effects) <==> diagnostics_in(effects).len() == 0,
{
    assert(effects.push(effect).drop_last() =~= effects);
    assert(driver::text_of(effects) + Seq::<char>::empty() =~= driver::text_of(effects));
    lemma_clean(effects);
}

/// What comes of a source on the standard input: all that is wrong with it is reported, in its
/// order, and its translation is written just if nothing is, with a comment on each of its macros.
pub proof fn law_standard_input(src: Seq<char>, events: Vec<Event>, plan: driver::StdinPlan)
    requires
        translation::show(events@, translation::translated(src).effects),
        call_ensures(driver::plan_stdin, (events,), plan),
    ensures
        plan.errors@ == found(translation::translated(src)),
        plan.translated is Some <==> found(translation::translated(src)).len() == 0,
        plan.translated matches Some((output, comments)) ==> {
            &&& output@ == written(translation::translated(src))
            &&& comments@.len() == recorded(translation::translated(src)).len()
            &&& forall|k: int|
                0 <= k < comments@.len() ==> (#[trigger] comments@[k])@ == "% \\"@ + recorded(
                    translation::translated(src),
                )[k].name + (if recorded(translation::translated(src))[k].inline {
                    " [inline]\n"@
                } else {
                    "\n"@
                })
        },
{
    law_events(src, events@);
    driver::law_kinds(events@);
    if let Some((output, comments)) = plan.translated {
        let said = comments@.map_values(|s: String| s@);
        assert forall|k: int| 0 <= k < comments@.len() implies (#[trigger] comments@[k])@ == "% \\"@
            + recorded(translation::translated(src))[k].name + (if recorded(
            translation::translated(src),
        )[k].inline {
            " [inline]\n"@
        } else {
            "\n"@
        }) by {
            assert(said[k] == comments@[k]@);
            assert(said[k] == driver::comments_of(events@)[k]);
        }
        assert(said.len() == comments@.len());
    }
}

/// What comes of a source file: all of its translation is written, and all that is wrong with it is
/// reported. It has to be compiled just if one of its lines starts a macro. Where files are put
/// together, there is a comment for each of its macros, and behind them the compiled file is put in
/// if there is a macro.
pub proof fn law_source_file(
    src: Seq<char>,
    events: Vec<Event>,
    assembling: bool,
    tex_path: &str,
    plan: driver::FilePlan,
)
    requires
        translation::show(events@, translation::translated(src).effects),
        call_ensures(driver::plan_file, (events, assembling, tex_path), plan),
    ensures
        ({
            let actions = plan.actions@.map_values(|a: driver::Action| a@);
            let lines = outline::source_lines(src);
            &&& driver::written_by(actions) == written(translation::translated(src))
            &&& driver::reported_by(actions) == found(translation::translated(src))
            &&& plan.should_compile <==> exists|i: int|
                0 <= i < lines.len() && outline::starts_macro(#[trigger] lines[i])
            &&& driver::assembled_by(actions).len() == (if !assembling {
                0
            } else if plan.should_compile {
                recorded(translation::translated(src)).len() + 1
            } else {
                0
            })
            &&& assembling && plan.should_compile ==> driver::assembled_by(actions).last()
                == "\\input{"@ + tex_path@ + "}\n\n"@
        }),
{
    let lines = outline::source_lines(src);
    let n = lines.len() as int;
    law_events(src, events@);
    driver::law_kinds(events@);
    driver::law_plan(plan, events@, assembling, tex_path@);
    law_recorded_ends(src);
    lemma_any_macro(lines, n);
}

/// A macro is recorded just if a line starts one.
proof fn lemma_any_macro(lines: Seq<SpanText>, i: int)
    requires
        0 <= i <= lines.len(),
    ensures
        recorded(progress_at(lines, i)).len() > 0 <==> exists|k: int|
            0 <= k < i && outline::starts_macro(#[trigger] lines[k]),
    decreases i,
{
    if i > 0 {
        lemma_any_macro(lines, i - 1);
        law_recorded(lines, i - 1);
        if exists|k: int| 0 <= k < i - 1 && outline::starts_macro(#[trigger] lines[k]) {
            let k = choose|k: int| 0 <= k < i - 1 && outline::starts_macro(#[trigger] lines[k]);
            assert(0 <= k < i && outline::starts_macro(lines[k]));
        }
        if outline::starts_macro(lines[i - 1]) {
            assert(0 <= i - 1 < i);
        }
    }
}

/// What a translator makes of a source, whatever it has translated before.
///
/// What it asks to write are the lines of the source that are neither blank nor annotations, as they
/// are and in their order, each with one line feed behind it, and lines of LaTeX. It reports
/// something just if something is wrong with a line, or a macro that was started with a brace is not
/// ended. It records a macro for each line that starts one.
pub proof fn law_run(translator: &mut Translator, src: &str, events: Vec<Event>)
    requires
        translation::source(src@).fits(),
        call_ensures(Translator::run, (translator, src), events),
    ensures
        ({
            let lines = outline::source_lines(src@);
            let n = lines.len() as int;
            &&& interleaved(driver::output_of(events@), code_before(lines, n))
            &&& driver::errors_of(events@).len() == 0 <==> {
                &&& forall|i: int| 0 <= i < n ==> #[trigger] proper(lines, i)
                &&& forall|j: int| #[trigger]
                    outline::open_macro(lines, j, n) ==> outline::starts_unbraced(lines[j])
            }
            &&& driver::comments_of(events@).len() > 0 <==> exists|i: int|
                0 <= i < n && outline::starts_macro(#[trigger] lines[i])
            &&& final(translator)@.namespaces == outline::namespaces_at(lines, n)
        }),
{
    let lines = outline::source_lines(src@);
    let n = lines.len() as int;
    law_events(src@, events@);
    law_lines_written(src@);
    law_clean(src@);
    lemma_clean(translation::translated(src@).effects);
    law_recorded_ends(src@);
    lemma_any_macro(lines, n);
    law_leftover(src@);
}

} // verus!
