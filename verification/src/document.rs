//! What holds of the Literate Agda that a source becomes, as a whole.
use vstd::prelude::*;

use crate::command;
use crate::command::{CommandText, ParsedText};
use crate::diagnostic::Diagnostic;
use crate::span_str;
use crate::span_str::{Span, SpanText};
use crate::text;
use crate::translation;
use crate::translation::{Effect, MacroMode, MacroText, Mode, Piece, Progress};

verus! {

/// What is open at some point of a document.
pub enum Nesting {
    /// Nothing.
    Outside,
    /// A hidden environment outside of macros.
    Hidden,
    /// The definition of a macro, and inside of it a `code` environment if `code` is there, which
    /// says whether it is hidden.
    Macro { inline: bool, code: Option<bool> },
}

/// What is open behind `piece`, if `piece` may stand where `nesting` is open.
///
/// A `code` environment is ended before another starts, and before the macro around it is ended.
/// Lines of the source stand in `code` environments; only empty lines may stand outside.
pub open spec fn behind(nesting: Nesting, piece: Piece) -> Option<Nesting> {
    match (nesting, piece) {
        (Nesting::Outside, Piece::OpenHidden) => Some(Nesting::Hidden),
        (Nesting::Hidden, Piece::CloseHidden) => Some(Nesting::Outside),
        (Nesting::Outside, Piece::SourceLine(line)) => if line.len() == 0 {
            Some(nesting)
        } else {
            None
        },
        (Nesting::Hidden, Piece::SourceLine(_)) => Some(nesting),
        (Nesting::Macro { code: Some(_), .. }, Piece::SourceLine(_)) => Some(nesting),
        (Nesting::Outside, Piece::OpenMacro { inline, .. }) => Some(
            Nesting::Macro { inline, code: None },
        ),
        (
            Nesting::Macro { inline, code: None },
            Piece::OpenCode { hide, inline: same },
        ) => if same == inline {
            Some(Nesting::Macro { inline, code: Some(hide) })
        } else {
            None
        },
        (
            Nesting::Macro { inline, code: Some(hidden) },
            Piece::SwitchCode { hide, inline: same },
        ) => if same == inline && hide != hidden {
            Some(Nesting::Macro { inline, code: Some(hide) })
        } else {
            None
        },
        (
            Nesting::Macro { inline, code },
            Piece::CloseMacro { inline: same, code: in_code },
        ) => if same == inline && in_code == (code is Some) {
            Some(Nesting::Outside)
        } else {
            None
        },
        _ => None,
    }
}

/// What is open behind the output among `effects`, if every piece of it may stand where it stands.
pub open spec fn nesting(effects: Seq<Effect>) -> Option<Nesting>
    decreases effects.len(),
{
    if effects.len() == 0 {
        Some(Nesting::Outside)
    } else {
        match (nesting(effects.drop_last()), effects.last()) {
            (Some(open), Effect::Output(piece)) => behind(open, piece),
            (open, _) => open,
        }
    }
}

/// The output among `effects` is a document: every `code` environment and every definition that
/// starts in it ends in it, and no piece stands where it may not.
pub open spec fn is_document(effects: Seq<Effect>) -> bool {
    nesting(effects) == Some(Nesting::Outside)
}

/// The lines of the source in the output among `effects` that are not empty.
pub open spec fn lines_in(effects: Seq<Effect>) -> Seq<Seq<char>>
    decreases effects.len(),
{
    if effects.len() == 0 {
        Seq::empty()
    } else {
        let before = lines_in(effects.drop_last());
        match effects.last() {
            Effect::Output(Piece::SourceLine(line)) => if line.len() > 0 {
                before.push(line)
            } else {
                before
            },
            _ => before,
        }
    }
}

/// The macros that are recorded among `effects`.
pub open spec fn macros_in(effects: Seq<Effect>) -> Seq<MacroText>
    decreases effects.len(),
{
    if effects.len() == 0 {
        Seq::empty()
    } else {
        let before = macros_in(effects.drop_last());
        match effects.last() {
            Effect::Defined(found) => before.push(found),
            _ => before,
        }
    }
}

/// The names of the macros that the output among `effects` defines.
pub open spec fn names_in(effects: Seq<Effect>) -> Seq<Seq<char>>
    decreases effects.len(),
{
    if effects.len() == 0 {
        Seq::empty()
    } else {
        let before = names_in(effects.drop_last());
        match effects.last() {
            Effect::Output(Piece::OpenMacro { name, .. }) => before.push(name),
            _ => before,
        }
    }
}

/// Nothing wrong is found among `effects`.
pub open spec fn is_clean(effects: Seq<Effect>) -> bool {
    forall|i: int| 0 <= i < effects.len() ==> !(#[trigger] effects[i] is Diagnosed)
}

/// What one effect more adds.
proof fn lemma_effect(effects: Seq<Effect>, effect: Effect)
    ensures
        nesting(effects.push(effect)) == match (nesting(effects), effect) {
            (Some(open), Effect::Output(piece)) => behind(open, piece),
            (open, _) => open,
        },
        lines_in(effects.push(effect)) == match effect {
            Effect::Output(Piece::SourceLine(line)) => if line.len() > 0 {
                lines_in(effects).push(line)
            } else {
                lines_in(effects)
            },
            _ => lines_in(effects),
        },
        macros_in(effects.push(effect)) == match effect {
            Effect::Defined(found) => macros_in(effects).push(found),
            _ => macros_in(effects),
        },
        names_in(effects.push(effect)) == match effect {
            Effect::Output(Piece::OpenMacro { name, .. }) => names_in(effects).push(name),
            _ => names_in(effects),
        },
        is_clean(effects.push(effect)) == (is_clean(effects) && !(effect is Diagnosed)),
{
    let after = effects.push(effect);
    assert(after.drop_last() =~= effects);
    assert(after.last() == effect);
    if is_clean(after) {
        assert forall|i: int| 0 <= i < effects.len() implies !(
        #[trigger] effects[i] is Diagnosed) by {
            assert(after[i] == effects[i]);
        }
    }
}

/// What is open in a mode.
pub open spec fn open_in(mode: Mode<MacroMode>) -> Nesting {
    match mode {
        Mode::Outside => Nesting::Outside,
        Mode::Hide => Nesting::Hidden,
        Mode::Macro(m) => Nesting::Macro {
            inline: m.inline,
            code: match m.inner_mode {
                Mode::Outside => None,
                Mode::Hide => Some(true),
                Mode::Macro(_) => Some(false),
            },
        },
    }
}

/// The mode says what is open.
spec fn in_step(p: Progress) -> bool {
    nesting(p.effects) == Some(open_in(p.mode))
}

/// Nothing but the output, the mode and the place of the last macro change from `p` to `q`, and no
/// macro is recorded or defined.
spec fn same_names(p: Progress, q: Progress) -> bool {
    &&& q.namespaces == p.namespaces
    &&& macros_in(q.effects) == macros_in(p.effects)
    &&& names_in(q.effects) == names_in(p.effects)
}

proof fn lemma_diagnosed(p: Progress, d: Diagnostic)
    ensures
        same_names(p, p.diagnosed(d)),
        lines_in(p.diagnosed(d).effects) == lines_in(p.effects),
        nesting(p.diagnosed(d).effects) == nesting(p.effects),
{
    lemma_effect(p.effects, Effect::Diagnosed(d));
}

proof fn lemma_verbatim(p: Progress, line: Seq<char>, span: Span, need_hide: bool)
    requires
        line.len() > 0 ==> need_hide,
    ensures
        same_names(p, p.verbatim(line, span, need_hide)),
        lines_in(p.verbatim(line, span, need_hide).effects) == (if line.len() > 0 {
            lines_in(p.effects).push(line)
        } else {
            lines_in(p.effects)
        }),
        in_step(p) ==> in_step(p.verbatim(line, span, need_hide)),
{
    let ready = match p.mode {
        Mode::Outside => if need_hide {
            Progress { mode: Mode::Hide, ..p }.output(Piece::OpenHidden)
        } else {
            p
        },
        Mode::Hide => p,
        Mode::Macro(m) => Progress {
            mode: Mode::Macro(MacroMode { body: Some(translation::covering(m.body, span)), ..m }),
            ..p
        },
    };
    lemma_effect(p.effects, Effect::Output(Piece::OpenHidden));
    let inside = ready.in_code();
    if let Mode::Macro(m) = ready.mode {
        let hide = ready.hides.len() > 0;
        lemma_effect(ready.effects, Effect::Output(Piece::OpenCode { hide, inline: m.inline }));
        lemma_effect(ready.effects, Effect::Output(Piece::SwitchCode { hide, inline: m.inline }));
    }
    lemma_effect(inside.effects, Effect::Output(Piece::SourceLine(line)));
}

proof fn lemma_closed(p: Progress, explicit: bool, span: Span)
    ensures
        same_names(p, p.closed(explicit, span)),
        lines_in(p.closed(explicit, span).effects) == lines_in(p.effects),
        in_step(p) ==> in_step(p.closed(explicit, span)),
{
    if let Mode::Macro(m) = p.mode {
        let left = Progress { mode: Mode::Outside, ..p };
        let d = Diagnostic::MacroCloseExplicit {
            macro_start: m.start,
            macro_end: span,
            macro_body: m.body,
        };
        lemma_diagnosed(left, d);
        let a = if explicit && m.auto_close {
            left.diagnosed(d)
        } else {
            left
        };
        let e = Diagnostic::MacroCloseHideStack {
            macro_start: m.start,
            macro_end: span,
            open_hide: p.hides.last(),
        };
        lemma_diagnosed(a, e);
        let b = if p.hides.len() > 0 {
            a.diagnosed(e)
        } else {
            a
        };
        lemma_effect(
            b.effects,
            Effect::Output(
                Piece::CloseMacro { inline: m.inline, code: !(m.inner_mode is Outside) },
            ),
        );
    } else {
        lemma_diagnosed(
            p,
            Diagnostic::NoMacroToClose {
                end_span: span,
                prev_autoclose_macro: p.prev_autoclose_macro,
            },
        );
    }
}

proof fn lemma_outside(p: Progress, span: Span, file_end: bool)
    ensures
        same_names(p, p.outside(span, file_end)),
        lines_in(p.outside(span, file_end).effects) == lines_in(p.effects),
        p.outside(span, file_end).mode is Outside,
        in_step(p) ==> in_step(p.outside(span, file_end)),
{
    let left = Progress { mode: Mode::Outside, ..p };
    lemma_effect(p.effects, Effect::Output(Piece::CloseHidden));
    if let Mode::Macro(m) = p.mode {
        let d = Diagnostic::UnfinishedMacro {
            cur_start_span: m.start,
            cur_macro_span: m.body,
            file_end_span: span,
        };
        let e = Diagnostic::OpenMacro {
            cur_start_span: m.start,
            cur_macro_span: m.body,
            new_start_span: span,
        };
        lemma_diagnosed(left, d);
        lemma_diagnosed(left, e);
        let a = if m.auto_close && file_end {
            left
        } else if file_end {
            left.diagnosed(d)
        } else {
            left.diagnosed(e)
        };
        lemma_effect(
            a.effects,
            Effect::Output(
                Piece::CloseMacro { inline: m.inline, code: !(m.inner_mode is Outside) },
            ),
        );
    }
}

/// The lines of `src` that are neither blank nor annotations.
pub open spec fn prose(src: SpanText) -> Seq<Seq<char>>
    decreases src.text.len(),
{
    if src.text.len() == 0 {
        Seq::empty()
    } else {
        let (line, rest) = span_str::first_line(src);
        if line.trim().text.len() > 0 && !(command::parsed(line.trim()) is Command) {
            seq![line.text] + prose(rest)
        } else {
            prose(rest)
        }
    }
}

/// The open namespaces behind `line`, where those in `open` are open before it.
pub open spec fn namespaces_behind(open: Seq<Seq<char>>, line: SpanText) -> Seq<Seq<char>> {
    match command::parsed(line.trim()) {
        ParsedText::Command {
            command: CommandText::NamespaceOpen { name, .. },
            ..
        } => open.push(name.text),
        ParsedText::Command { command: CommandText::NamespaceClose(_), .. } => if open.len() > 0 {
            open.drop_last()
        } else {
            open
        },
        _ => open,
    }
}

/// The macros that `src` defines, where its first line has the number `line_no` and the
/// namespaces in `open` are open before it.
pub open spec fn macros_of(line_no: nat, src: SpanText, open: Seq<Seq<char>>) -> Seq<MacroText>
    decreases src.text.len(),
{
    if src.text.len() == 0 {
        Seq::empty()
    } else {
        let (line, rest) = span_str::first_line(src);
        let others = macros_of(line_no + 1, rest, namespaces_behind(open, line));
        match command::parsed(line.trim()) {
            ParsedText::Command {
                command: CommandText::MacroStart { name, inline, .. },
                ..
            } => seq![
                MacroText { name: text::joined(open) + name.text, line: line_no as u32, inline },
            ] + others,
            _ => others,
        }
    }
}

/// What the line with the number `line_no` adds to the macros.
spec fn macro_of(line_no: nat, line: SpanText, open: Seq<Seq<char>>) -> Seq<MacroText> {
    match command::parsed(line.trim()) {
        ParsedText::Command {
            command: CommandText::MacroStart { name, inline, .. },
            ..
        } => seq![
            MacroText { name: text::joined(open) + name.text, line: line_no as u32, inline },
        ],
        _ => Seq::empty(),
    }
}

/// The names of `macros`.
pub open spec fn names_of(macros: Seq<MacroText>) -> Seq<Seq<char>> {
    macros.map_values(|m: MacroText| m.name)
}

proof fn lemma_command(p: Progress, c: CommandText, line: u32)
    ensures
        ({
            let q = p.command(c, line);
            &&& lines_in(q.effects) == lines_in(p.effects)
            &&& q.namespaces == match c {
                CommandText::NamespaceOpen { name, .. } => p.namespaces.push(name.text),
                CommandText::NamespaceClose(_) => if p.namespaces.len() > 0 {
                    p.namespaces.drop_last()
                } else {
                    p.namespaces
                },
                _ => p.namespaces,
            }
            &&& macros_in(q.effects) == match c {
                CommandText::MacroStart { name, inline, .. } => macros_in(p.effects).push(
                    MacroText { name: text::joined(p.namespaces) + name.text, line, inline },
                ),
                _ => macros_in(p.effects),
            }
            &&& names_in(q.effects) == match c {
                CommandText::MacroStart { name, inline, .. } => names_in(p.effects).push(
                    text::joined(p.namespaces) + name.text,
                ),
                _ => names_in(p.effects),
            }
            &&& in_step(p) ==> in_step(q)
        }),
{
    match c {
        CommandText::MacroStart { name, auto_close, inline, span } => {
            let left = p.outside(span, false);
            lemma_outside(p, span, false);
            let full = text::joined(left.namespaces) + name.text;
            let found = Effect::Defined(MacroText { name: full, line, inline });
            lemma_effect(left.effects, found);
            lemma_effect(
                left.effects.push(found),
                Effect::Output(Piece::OpenMacro { name: full, inline }),
            );
        },
        CommandText::MacroEnd(span) => {
            lemma_closed(p, true, span);
        },
        CommandText::NamespaceOpen { .. } => {},
        CommandText::NamespaceClose(span) => {
            lemma_diagnosed(p, Diagnostic::NoNamespaceToClose { close_span: span });
        },
        CommandText::HideStart(_) => {},
        CommandText::HideEnd(span) => {
            lemma_diagnosed(p, Diagnostic::NoHideToClose { close_span: span });
        },
    }
}

/// A line that is blank is no annotation.
proof fn lemma_blank(line: SpanText)
    requires
        line.text.len() == 0,
    ensures
        command::parsed(line) is NotACommand,
{
    reveal_strlit("--!");
}

/// A line without characters is blank.
proof fn lemma_no_line(line: SpanText)
    requires
        line.text.len() == 0,
    ensures
        line.trim().text.len() == 0,
{
    text::lemma_leading_bound(line.text, text::spaces());
    text::lemma_trailing_bound(line.trim_start().text, text::spaces());
}

proof fn lemma_line(p: Progress, line_no: nat, line: SpanText)
    ensures
        ({
            let q = p.line(line_no, line);
            &&& lines_in(q.effects) == (if line.trim().text.len() > 0 && !(command::parsed(
                line.trim(),
            ) is Command) {
                lines_in(p.effects).push(line.text)
            } else {
                lines_in(p.effects)
            })
            &&& q.namespaces == namespaces_behind(p.namespaces, line)
            &&& macros_in(q.effects) == macros_in(p.effects) + macro_of(line_no, line, p.namespaces)
            &&& names_in(q.effects) == names_in(p.effects) + names_of(
                macro_of(line_no, line, p.namespaces),
            )
            &&& in_step(p) ==> in_step(q)
        }),
{
    let trimmed = line.trim();
    let added = macro_of(line_no, line, p.namespaces);
    if trimmed.text.len() == 0 {
        lemma_blank(trimmed);
        lemma_closed(p, false, line.span());
        lemma_verbatim(p, Seq::empty(), line.span(), false);
    } else {
        match command::parsed(trimmed) {
            ParsedText::NotACommand => {
                lemma_verbatim(p, line.text, line.span(), true);
            },
            ParsedText::InvalidCommand => {
                let d = Diagnostic::InvalidCommand { command_span: trimmed.span() };
                lemma_diagnosed(p, d);
                lemma_verbatim(p.diagnosed(d), line.text, line.span(), true);
            },
            ParsedText::Command { command, trailing_chars, invalid_inline_annot } => {
                let a = match trailing_chars {
                    Some(trail) => p.diagnosed(
                        Diagnostic::CommandTrailingChars {
                            command_span: command.span(),
                            trail_span: trail.span(),
                        },
                    ),
                    None => p,
                };
                if let Some(trail) = trailing_chars {
                    lemma_diagnosed(
                        p,
                        Diagnostic::CommandTrailingChars {
                            command_span: command.span(),
                            trail_span: trail.span(),
                        },
                    );
                }
                let b = match invalid_inline_annot {
                    Some(inline) => a.diagnosed(
                        Diagnostic::CommandInvalidInline {
                            command_span: command.span(),
                            inline_span: inline.span(),
                        },
                    ),
                    None => a,
                };
                if let Some(inline) = invalid_inline_annot {
                    lemma_diagnosed(
                        a,
                        Diagnostic::CommandInvalidInline {
                            command_span: command.span(),
                            inline_span: inline.span(),
                        },
                    );
                }
                lemma_command(b, command, line_no as u32);
            },
        }
        if line.text.len() == 0 {
            lemma_no_line(line);
        }
    }
    let q = p.line(line_no, line);
    if added.len() == 0 {
        assert(macros_in(p.effects) + added =~= macros_in(p.effects));
        assert(names_in(p.effects) + names_of(added) =~= names_in(p.effects));
    } else {
        assert(macros_in(p.effects) + added =~= macros_in(p.effects).push(added[0]));
        assert(names_in(p.effects) + names_of(added) =~= names_in(p.effects).push(added[0].name));
    }
}

proof fn lemma_lines(p: Progress, line_no: nat, src: SpanText)
    ensures
        ({
            let q = p.lines(line_no, src);
            &&& lines_in(q.effects) == lines_in(p.effects) + prose(src)
            &&& macros_in(q.effects) == macros_in(p.effects) + macros_of(
                line_no,
                src,
                p.namespaces,
            )
            &&& names_in(q.effects) == names_in(p.effects) + names_of(
                macros_of(line_no, src, p.namespaces),
            )
            &&& in_step(p) ==> in_step(q)
        }),
    decreases src.text.len(),
{
    let q = p.lines(line_no, src);
    if src.text.len() == 0 {
        assert(lines_in(p.effects) + prose(src) =~= lines_in(p.effects));
        assert(macros_in(p.effects) + macros_of(line_no, src, p.namespaces) =~= macros_in(
            p.effects,
        ));
        assert(names_in(p.effects) + names_of(macros_of(line_no, src, p.namespaces))
            =~= names_in(p.effects));
    } else {
        let (line, rest) = span_str::first_line(src);
        let r = p.line(line_no, line);
        lemma_line(p, line_no, line);
        lemma_lines(r, line_no + 1, rest);
        let added = macro_of(line_no, line, p.namespaces);
        let others = macros_of(line_no + 1, rest, r.namespaces);
        assert(lines_in(q.effects) =~= lines_in(p.effects) + prose(src));
        assert(macros_of(line_no, src, p.namespaces) =~= added + others);
        assert(macros_in(q.effects) =~= macros_in(p.effects) + (added + others));
        assert(names_in(q.effects) =~= names_in(p.effects) + names_of(added + others));
    }
}

/// Wherever the translation is, its mode says what is open in its output.
pub proof fn law_mode(src: SpanText)
    ensures
        ({
            let p = Progress::start().lines(0, src);
            nesting(p.effects) == Some(open_in(p.mode))
        }),
{
    lemma_lines(Progress::start(), 0, src);
}

/// Every source becomes a document, whatever is wrong with it.
pub proof fn law_document(src: Seq<char>)
    ensures
        is_document(translation::translated(src).effects),
{
    let all = translation::source(src);
    let p = Progress::start();
    lemma_lines(p, 0, all);
    lemma_outside(p.lines(0, all), span_str::span_of(all.end(), all.end()), true);
}

/// An annotation that ends a macro where none is open is diagnosed and ignored: all that is open
/// stays open, and nothing is written.
pub proof fn law_nothing_to_close(p: Progress, explicit: bool, span: Span)
    requires
        !(p.mode is Macro),
    ensures
        p.closed(explicit, span) == (Progress {
            effects: p.effects.push(
                Effect::Diagnosed(
                    Diagnostic::NoMacroToClose {
                        end_span: span,
                        prev_autoclose_macro: p.prev_autoclose_macro,
                    },
                ),
            ),
            ..p
        }),
{
}

/// Making the right kind of environment open once is enough: it changes nothing outside of macros,
/// opens what the hidden parts call for inside of them, ends an environment only if one is open,
/// and does nothing when done again.
pub proof fn law_in_code(p: Progress)
    ensures
        p.in_code().in_code() == p.in_code(),
        !(p.mode is Macro) ==> p.in_code() == p,
        p.mode matches Mode::Macro(m) ==> {
            let hide = p.hides.len() > 0;
            let right = if hide {
                m.inner_mode is Hide
            } else {
                m.inner_mode is Macro
            };
            &&& p.in_code().mode matches Mode::Macro(after) && (if hide {
                after.inner_mode is Hide
            } else {
                after.inner_mode is Macro
            })
            &&& right ==> p.in_code() == p
            &&& !right && m.inner_mode is Outside ==> p.in_code().effects == p.effects.push(
                Effect::Output(Piece::OpenCode { hide, inline: m.inline }),
            )
            &&& !right && !(m.inner_mode is Outside) ==> p.in_code().effects == p.effects.push(
                Effect::Output(Piece::SwitchCode { hide, inline: m.inline }),
            )
        },
{
}

/// The translation keeps the lines of the source: those that are neither blank nor annotations
/// stand in the output as they are and in their order, and no other line does but empty ones.
pub proof fn law_lines_kept(src: Seq<char>)
    ensures
        lines_in(translation::translated(src).effects) == prose(translation::source(src)),
{
    let all = translation::source(src);
    let p = Progress::start();
    lemma_lines(p, 0, all);
    lemma_outside(p.lines(0, all), span_str::span_of(all.end(), all.end()), true);
    assert(lines_in(p.effects) + prose(all) =~= prose(all));
}

/// The translation records a macro for every annotation that starts one, in their order. Its name
/// is that of the annotation behind those of the open namespaces, and the output defines a macro
/// of that name.
pub proof fn law_macros(src: Seq<char>)
    ensures
        macros_in(translation::translated(src).effects) == macros_of(
            0,
            translation::source(src),
            Seq::empty(),
        ),
        names_in(translation::translated(src).effects) == names_of(
            macros_in(translation::translated(src).effects),
        ),
{
    let all = translation::source(src);
    let p = Progress::start();
    lemma_lines(p, 0, all);
    lemma_outside(p.lines(0, all), span_str::span_of(all.end(), all.end()), true);
    let macros = macros_of(0, all, Seq::empty());
    assert(macros_in(p.effects) + macros =~= macros);
    assert(names_in(p.effects) + names_of(macros) =~= names_of(macros));
}

/// Whether no line of `src` is marked as an annotation.
pub open spec fn is_plain(src: SpanText) -> bool
    decreases src.text.len(),
{
    src.text.len() > 0 ==> {
        let (line, rest) = span_str::first_line(src);
        &&& command::parsed(line.trim()) is NotACommand
        &&& is_plain(rest)
    }
}

/// Plain lines change nothing but the output.
proof fn lemma_plain(p: Progress, line_no: nat, src: SpanText)
    requires
        is_plain(src),
        !(p.mode is Macro),
        is_clean(p.effects),
        in_step(p),
    ensures
        !(p.lines(line_no, src).mode is Macro),
        is_clean(p.lines(line_no, src).effects),
        in_step(p.lines(line_no, src)),
        macros_in(p.lines(line_no, src).effects) == macros_in(p.effects),
    decreases src.text.len(),
{
    if src.text.len() > 0 {
        let (line, rest) = span_str::first_line(src);
        let q = p.line(line_no, line);
        lemma_line(p, line_no, line);
        let added = macro_of(line_no, line, p.namespaces);
        assert(macros_in(p.effects) + added =~= macros_in(p.effects));
        let text = if line.trim().text.len() == 0 {
            Seq::empty()
        } else {
            line.text
        };
        lemma_effect(p.effects, Effect::Output(Piece::OpenHidden));
        lemma_effect(
            p.effects.push(Effect::Output(Piece::OpenHidden)),
            Effect::Output(Piece::SourceLine(text)),
        );
        lemma_effect(p.effects, Effect::Output(Piece::SourceLine(text)));
        lemma_plain(q, line_no + 1, rest);
    }
}

/// A source without annotations becomes a document without macros, and nothing is wrong with it.
pub proof fn law_plain_source(src: Seq<char>)
    requires
        is_plain(translation::source(src)),
    ensures
        is_clean(translation::translated(src).effects),
        is_document(translation::translated(src).effects),
        macros_in(translation::translated(src).effects).len() == 0,
{
    let all = translation::source(src);
    let p = Progress::start();
    lemma_plain(p, 0, all);
    let q = p.lines(0, all);
    lemma_outside(q, span_str::span_of(all.end(), all.end()), true);
    lemma_effect(q.effects, Effect::Output(Piece::CloseHidden));
}

/// How many `AgdaMultiCode` environments the output among `effects` starts.
pub open spec fn multi_codes_started(effects: Seq<Effect>) -> nat
    decreases effects.len(),
{
    if effects.len() == 0 {
        0
    } else {
        multi_codes_started(effects.drop_last()) + match effects.last() {
            Effect::Output(Piece::OpenMacro { inline: false, .. }) => 1nat,
            _ => 0nat,
        }
    }
}

/// How many `AgdaMultiCode` environments the output among `effects` ends.
pub open spec fn multi_codes_ended(effects: Seq<Effect>) -> nat
    decreases effects.len(),
{
    if effects.len() == 0 {
        0
    } else {
        multi_codes_ended(effects.drop_last()) + match effects.last() {
            Effect::Output(Piece::CloseMacro { inline: false, code: true }) => 1nat,
            _ => 0nat,
        }
    }
}

/// How many definitions of macros in the output among `effects` are not inline and hold no line of
/// the source.
pub open spec fn empty_definitions(effects: Seq<Effect>) -> nat
    decreases effects.len(),
{
    if effects.len() == 0 {
        0
    } else {
        empty_definitions(effects.drop_last()) + match effects.last() {
            Effect::Output(Piece::CloseMacro { inline: false, code: false }) => 1nat,
            _ => 0nat,
        }
    }
}

/// A document ends the `AgdaMultiCode` environments that it starts, but for those in definitions
/// that hold no line of the source.
pub proof fn law_multi_code(effects: Seq<Effect>)
    ensures
        nesting(effects) matches Some(open) ==> multi_codes_started(effects) == multi_codes_ended(
            effects,
        ) + empty_definitions(effects) + (if open is Macro && !open->inline {
            1nat
        } else {
            0nat
        }),
        is_document(effects) ==> multi_codes_started(effects) == multi_codes_ended(effects)
            + empty_definitions(effects),
    decreases effects.len(),
{
    if effects.len() > 0 {
        law_multi_code(effects.drop_last());
    }
}

/// Inside of a macro, a line of the source stands in a hidden environment just where a hidden part
/// is open, and in one that is typeset everywhere else.
pub proof fn law_hidden_part(p: Progress, line: Seq<char>, span: Span, need_hide: bool)
    requires
        p.mode is Macro,
    ensures
        p.verbatim(line, span, need_hide).mode matches Mode::Macro(m) && (if p.hides.len() > 0 {
            m.inner_mode is Hide
        } else {
            m.inner_mode is Macro
        }),
{
}

/// Names that are put together from names of letters are names of letters.
proof fn lemma_well_named(open: Seq<Seq<char>>, name: Seq<char>)
    requires
        forall|i: int| 0 <= i < open.len() ==> command::well_named(#[trigger] open[i]),
        command::well_named(name),
    ensures
        command::well_named(text::joined(open) + name),
    decreases open.len(),
{
    if open.len() > 0 {
        lemma_well_named(open.drop_last(), open.last());
        let front = text::joined(open);
        assert(front =~= text::joined(open.drop_last()) + open.last());
        let whole = front + name;
        assert forall|i: int| 0 <= i < whole.len() implies text::ascii_alphabetic(
            #[trigger] whole[i],
        ) by {
            if i < front.len() {
                assert(text::ascii_alphabetic(front[i]));
            } else {
                assert(text::ascii_alphabetic(name[i - front.len()]));
            }
        }
    } else {
        assert(text::joined(open) + name =~= name);
    }
}

/// The name of every macro is not empty, and nothing but letters, as the names of LaTeX macros
/// have to be, if the names of the open namespaces are so.
pub proof fn law_names(line_no: nat, src: SpanText, open: Seq<Seq<char>>)
    requires
        forall|i: int| 0 <= i < open.len() ==> command::well_named(#[trigger] open[i]),
    ensures
        forall|i: int|
            0 <= i < macros_of(line_no, src, open).len() ==> command::well_named(
                (#[trigger] macros_of(line_no, src, open)[i]).name,
            ),
    decreases src.text.len(),
{
    if src.text.len() > 0 {
        let (line, rest) = span_str::first_line(src);
        let next = namespaces_behind(open, line);
        command::law_command_name(line.trim());
        law_names(line_no + 1, rest, next);
        if let ParsedText::Command {
            command: CommandText::MacroStart { name, .. },
            ..
        } = command::parsed(line.trim()) {
            lemma_well_named(open, name.text);
        }
        let macros = macros_of(line_no, src, open);
        let others = macros_of(line_no + 1, rest, next);
        assert forall|i: int| 0 <= i < macros.len() implies command::well_named(
            (#[trigger] macros[i]).name,
        ) by {
            if macros.len() == others.len() {
                assert(macros[i] == others[i]);
            } else if i > 0 {
                assert(macros[i] == others[i - 1]);
            }
        }
    }
}

} // verus!
