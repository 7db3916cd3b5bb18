//! What can be wrong with the annotations in a source.
use vstd::prelude::*;

use crate::span_str;
use crate::span_str::Span;

verus! {

/// Something that is wrong with the annotations.
#[derive(Debug)]
pub enum Diagnostic {
    /// A macro starts inside of another.
    OpenMacro { cur_start_span: Span, cur_macro_span: Option<Span>, new_start_span: Span },
    /// The source ends inside of a macro.
    UnfinishedMacro { cur_start_span: Span, cur_macro_span: Option<Span>, file_end_span: Span },
    /// A macro that an empty line closes is closed by an annotation.
    MacroCloseExplicit { macro_start: Span, macro_end: Span, macro_body: Option<Span> },
    /// A macro is closed while a part of it is hidden.
    MacroCloseHideStack { macro_start: Span, macro_end: Span, open_hide: Span },
    /// An annotation closes a macro where there is none.
    NoMacroToClose { end_span: Span, prev_autoclose_macro: Option<Span> },
    /// An annotation closes a namespace where there is none.
    NoNamespaceToClose { close_span: Span },
    /// An annotation ends a hidden part where there is none.
    NoHideToClose { close_span: Span },
    /// A line is marked as an annotation and is none.
    InvalidCommand { command_span: Span },
    /// Something stands behind an annotation.
    CommandTrailingChars { command_span: Span, trail_span: Span },
    /// An annotation that starts no macro has the mark of an inline macro.
    CommandInvalidInline { command_span: Span, inline_span: Span },
}

/// The same span once more, if there is one.
pub fn copy_optional(span: &Option<Span>) -> (r: Option<Span>)
    ensures
        r == *span,
{
    match span {
        Some(span) => Some(span_str::copy_span(span)),
        None => None,
    }
}

impl Clone for Diagnostic {
    fn clone(&self) -> (r: Self)
        ensures
            r == *self,
    {
        match self {
            Diagnostic::OpenMacro { cur_start_span, cur_macro_span, new_start_span } => {
                Diagnostic::OpenMacro {
                    cur_start_span: span_str::copy_span(cur_start_span),
                    cur_macro_span: copy_optional(cur_macro_span),
                    new_start_span: span_str::copy_span(new_start_span),
                }
            },
            Diagnostic::UnfinishedMacro { cur_start_span, cur_macro_span, file_end_span } => {
                Diagnostic::UnfinishedMacro {
                    cur_start_span: span_str::copy_span(cur_start_span),
                    cur_macro_span: copy_optional(cur_macro_span),
                    file_end_span: span_str::copy_span(file_end_span),
                }
            },
            Diagnostic::MacroCloseExplicit { macro_start, macro_end, macro_body } => {
                Diagnostic::MacroCloseExplicit {
                    macro_start: span_str::copy_span(macro_start),
                    macro_end: span_str::copy_span(macro_end),
                    macro_body: copy_optional(macro_body),
                }
            },
            Diagnostic::MacroCloseHideStack { macro_start, macro_end, open_hide } => {
                Diagnostic::MacroCloseHideStack {
                    macro_start: span_str::copy_span(macro_start),
                    macro_end: span_str::copy_span(macro_end),
                    open_hide: span_str::copy_span(open_hide),
                }
            },
            Diagnostic::NoMacroToClose { end_span, prev_autoclose_macro } => {
                Diagnostic::NoMacroToClose {
                    end_span: span_str::copy_span(end_span),
                    prev_autoclose_macro: copy_optional(prev_autoclose_macro),
                }
            },
            Diagnostic::NoNamespaceToClose { close_span } => Diagnostic::NoNamespaceToClose {
                close_span: span_str::copy_span(close_span),
            },
            Diagnostic::NoHideToClose { close_span } => Diagnostic::NoHideToClose {
                close_span: span_str::copy_span(close_span),
            },
            Diagnostic::InvalidCommand { command_span } => Diagnostic::InvalidCommand {
                command_span: span_str::copy_span(command_span),
            },
            Diagnostic::CommandTrailingChars { command_span, trail_span } => {
                Diagnostic::CommandTrailingChars {
                    command_span: span_str::copy_span(command_span),
                    trail_span: span_str::copy_span(trail_span),
                }
            },
            Diagnostic::CommandInvalidInline { command_span, inline_span } => {
                Diagnostic::CommandInvalidInline {
                    command_span: span_str::copy_span(command_span),
                    inline_span: span_str::copy_span(inline_span),
                }
            },
        }
    }
}

/// A remark on a part of a source.
#[derive(Debug)]
pub struct Label {
    pub span: Span,
    pub message: &'static str,
    /// Where labels cover the same text, the one with the higher priority is shown on it.
    pub priority: i32,
}

/// A remark, with its message as plain text.
pub struct LabelText {
    pub span: Span,
    pub message: Seq<char>,
    pub priority: i32,
}

impl View for Label {
    type V = LabelText;

    open spec fn view(&self) -> LabelText {
        LabelText { span: self.span, message: self.message@, priority: self.priority }
    }
}

/// An error message on a source.
#[derive(Debug)]
pub struct Report {
    /// The place that the message is about.
    pub span: Span,
    pub message: &'static str,
    pub labels: Vec<Label>,
}

/// An error message, with everything as plain text.
pub struct ReportText {
    pub span: Span,
    pub message: Seq<char>,
    pub labels: Seq<LabelText>,
}

impl View for Report {
    type V = ReportText;

    open spec fn view(&self) -> ReportText {
        ReportText {
            span: self.span,
            message: self.message@,
            labels: self.labels@.map_values(|label: Label| label@),
        }
    }
}

/// A remark of ordinary priority.
pub open spec fn remark(span: Span, message: Seq<char>) -> Seq<LabelText> {
    seq![LabelText { span, message, priority: 0 }]
}

/// A remark on a span that there may be.
pub open spec fn optional_remark(span: Option<Span>, message: Seq<char>, priority: i32) -> Seq<
    LabelText,
> {
    match span {
        Some(span) => seq![LabelText { span, message, priority }],
        None => Seq::empty(),
    }
}

impl Diagnostic {
    /// The error message that tells of this.
    pub open spec fn report(self) -> ReportText {
        match self {
            Diagnostic::OpenMacro { cur_start_span, cur_macro_span, new_start_span } => ReportText {
                span: new_start_span,
                message: "starting new macro without closing previous macro"@,
                labels: remark(
                    new_start_span,
                    "new macro started here"@,
                ) + remark(
                    cur_start_span,
                    "previous macro started here"@,
                ) + optional_remark(
                    cur_macro_span,
                    "previous macro body"@,
                    -1i32,
                ),
            },
            Diagnostic::UnfinishedMacro {
                cur_start_span,
                cur_macro_span,
                file_end_span,
            } => ReportText {
                span: file_end_span,
                message: "unfinished macro"@,
                labels: remark(
                    cur_start_span,
                    "macro started here"@,
                ) + optional_remark(
                    cur_macro_span,
                    "macro body"@,
                    -1i32,
                ),
            },
            Diagnostic::MacroCloseExplicit { macro_start, macro_end, macro_body } => ReportText {
                span: macro_end,
                message: "unexpected macro closure"@,
                labels: remark(
                    macro_start,
                    "auto-closing macro started here"@,
                ) + remark(
                    macro_end,
                    "closed explicitly here"@,
                ) + optional_remark(
                    macro_body,
                    "macro body"@,
                    -1i32,
                ),
            },
            Diagnostic::MacroCloseHideStack { macro_start, macro_end, open_hide } => ReportText {
                span: macro_end,
                message: "closing macro while hide-block is open"@,
                labels: remark(
                    span_str::span_of(macro_start.start as int, macro_end.end as int),
                    "macro started here"@,
                ) + remark(
                    open_hide,
                    "the hidden section started here is incomplete"@,
                ),
            },
            Diagnostic::NoMacroToClose { end_span, prev_autoclose_macro } => ReportText {
                span: end_span,
                message: "unexpected macro closure"@,
                labels: remark(
                    end_span,
                    "there is no macro to close at this point"@,
                ) + optional_remark(
                    prev_autoclose_macro,
                    "previous auto-closing macro"@,
                    0i32,
                ),
            },
            Diagnostic::NoNamespaceToClose { close_span } => ReportText {
                span: close_span,
                message: "unexpected namespace closure"@,
                labels: remark(
                    close_span,
                    "there is no open namespace to close at this point"@,
                ),
            },
            Diagnostic::NoHideToClose { close_span } => ReportText {
                span: close_span,
                message: "unexpected hide-segment closure"@,
                labels: remark(
                    close_span,
                    "there is no open hide-segment at this point"@,
                ),
            },
            Diagnostic::InvalidCommand { command_span } => ReportText {
                span: command_span,
                message: "invalid agdatex command"@,
                labels: remark(
                    command_span,
                    "I do not understand this command"@,
                ),
            },
            Diagnostic::CommandTrailingChars { command_span, trail_span } => ReportText {
                span: trail_span,
                message: "trailing characters in command"@,
                labels: remark(
                    command_span,
                    "I can parse this as a valid command..."@,
                ) + remark(
                    trail_span,
                    "...but I do not know what to do with these characters"@,
                ),
            },
            Diagnostic::CommandInvalidInline { command_span, inline_span } => ReportText {
                span: inline_span,
                message: "invalid inline marker in command"@,
                labels: remark(
                    inline_span,
                    "this inline marker is invalid"@,
                ) + remark(
                    command_span,
                    "in this non-macro start command"@,
                ),
            },
        }
    }

    /// Makes the error message that tells of this.
    pub fn to_report(&self) -> (r: Report)
        ensures
            r@ == self.report(),
    {
        match self {
            Diagnostic::OpenMacro { cur_start_span, cur_macro_span, new_start_span } => {
                let report = Report::build(
                    new_start_span,
                    "starting new macro without closing previous macro",
                );
                let report = report.with_label(new_start_span, "new macro started here");
                let report = report.with_label(cur_start_span, "previous macro started here");
                report.with_optional_label(cur_macro_span, "previous macro body", -1)
            },
            Diagnostic::UnfinishedMacro { cur_start_span, cur_macro_span, file_end_span } => {
                let report = Report::build(file_end_span, "unfinished macro");
                let report = report.with_label(cur_start_span, "macro started here");
                report.with_optional_label(cur_macro_span, "macro body", -1)
            },
            Diagnostic::MacroCloseExplicit { macro_start, macro_end, macro_body } => {
                let report = Report::build(macro_end, "unexpected macro closure");
                let report = report.with_label(macro_start, "auto-closing macro started here");
                let report = report.with_label(macro_end, "closed explicitly here");
                report.with_optional_label(macro_body, "macro body", -1)
            },
            Diagnostic::MacroCloseHideStack { macro_start, macro_end, open_hide } => {
                let report = Report::build(macro_end, "closing macro while hide-block is open");
                let report = report.with_label(
                    &(macro_start.start..macro_end.end),
                    "macro started here",
                );
                report.with_label(open_hide, "the hidden section started here is incomplete")
            },
            Diagnostic::NoMacroToClose { end_span, prev_autoclose_macro } => {
                let report = Report::build(end_span, "unexpected macro closure");
                let report = report.with_label(
                    end_span,
                    "there is no macro to close at this point",
                );
                report.with_optional_label(prev_autoclose_macro, "previous auto-closing macro", 0)
            },
            Diagnostic::NoNamespaceToClose { close_span } => {
                let report = Report::build(close_span, "unexpected namespace closure");
                report.with_label(close_span, "there is no open namespace to close at this point")
            },
            Diagnostic::NoHideToClose { close_span } => {
                let report = Report::build(close_span, "unexpected hide-segment closure");
                report.with_label(close_span, "there is no open hide-segment at this point")
            },
            Diagnostic::InvalidCommand { command_span } => {
                let report = Report::build(command_span, "invalid agdatex command");
                report.with_label(command_span, "I do not understand this command")
            },
            Diagnostic::CommandTrailingChars { command_span, trail_span } => {
                let report = Report::build(trail_span, "trailing characters in command");
                let report = report.with_label(
                    command_span,
                    "I can parse this as a valid command...",
                );
                report.with_label(
                    trail_span,
                    "...but I do not know what to do with these characters",
                )
            },
            Diagnostic::CommandInvalidInline { command_span, inline_span } => {
                let report = Report::build(inline_span, "invalid inline marker in command");
                let report = report.with_label(inline_span, "this inline marker is invalid");
                report.with_label(command_span, "in this non-macro start command")
            },
        }
    }
}

impl Report {
    /// A message without remarks.
    fn build(span: &Span, message: &'static str) -> (r: Report)
        ensures
            r@ == (ReportText { span: *span, message: message@, labels: Seq::empty() }),
    {
        let r = Report { span: span_str::copy_span(span), message, labels: Vec::new() };
        assert(r@.labels =~= Seq::empty());
        r
    }

    /// Adds a remark.
    fn push_label(self, span: &Span, message: &'static str, priority: i32) -> (r: Report)
        ensures
            r@ == (ReportText {
                labels: self@.labels + seq![LabelText { span: *span, message: message@, priority }],
                ..self@
            }),
    {
        let mut r = self;
        r.labels.push(Label { span: span_str::copy_span(span), message, priority });
        assert(r@.labels =~= self@.labels + seq![
            LabelText { span: *span, message: message@, priority },
        ]);
        r
    }

    /// Adds a remark of ordinary priority.
    fn with_label(self, span: &Span, message: &'static str) -> (r: Report)
        ensures
            r@ == (ReportText { labels: self@.labels + remark(*span, message@), ..self@ }),
    {
        self.push_label(span, message, 0)
    }

    /// Adds a remark if there is something to remark on.
    fn with_optional_label(self, span: &Option<Span>, message: &'static str, priority: i32) -> (r:
        Report)
        ensures
            r@ == (ReportText {
                labels: self@.labels + optional_remark(*span, message@, priority),
                ..self@
            }),
    {
        match span {
            Some(span) => self.push_label(span, message, priority),
            None => {
                assert(self@.labels + Seq::<LabelText>::empty() =~= self@.labels);
                self
            },
        }
    }
}

/// What is reported: where the message stands, the message, and the remarks on the places that
/// belong to it, one after the other. A place that is not known gets no remark, and the remark on
/// the body of a macro gives way to others.
pub proof fn law_report(d: Diagnostic)
    ensures
        ({
            let r = d.report();
            let label = |span: Span, message: Seq<char>| LabelText { span, message, priority: 0 };
            let body = |span: Span, message: Seq<char>|
                LabelText { span, message, priority: -1i32 };
            match d {
                Diagnostic::OpenMacro { cur_start_span, cur_macro_span, new_start_span } => {
                    &&& r.span == new_start_span
                    &&& r.message == "starting new macro without closing previous macro"@
                    &&& r.labels.len() == (if cur_macro_span is Some {
                        3int
                    } else {
                        2int
                    })
                    &&& r.labels[0] == label(new_start_span, "new macro started here"@)
                    &&& r.labels[1] == label(cur_start_span, "previous macro started here"@)
                    &&& cur_macro_span matches Some(s) ==> r.labels[2] == body(
                        s,
                        "previous macro body"@,
                    )
                },
                Diagnostic::UnfinishedMacro { cur_start_span, cur_macro_span, file_end_span } => {
                    &&& r.span == file_end_span
                    &&& r.message == "unfinished macro"@
                    &&& r.labels.len() == (if cur_macro_span is Some {
                        2int
                    } else {
                        1int
                    })
                    &&& r.labels[0] == label(cur_start_span, "macro started here"@)
                    &&& cur_macro_span matches Some(s) ==> r.labels[1] == body(s, "macro body"@)
                },
                Diagnostic::MacroCloseExplicit { macro_start, macro_end, macro_body } => {
                    &&& r.span == macro_end
                    &&& r.message == "unexpected macro closure"@
                    &&& r.labels.len() == (if macro_body is Some {
                        3int
                    } else {
                        2int
                    })
                    &&& r.labels[0] == label(macro_start, "auto-closing macro started here"@)
                    &&& r.labels[1] == label(macro_end, "closed explicitly here"@)
                    &&& macro_body matches Some(s) ==> r.labels[2] == body(s, "macro body"@)
                },
                Diagnostic::MacroCloseHideStack { macro_start, macro_end, open_hide } => {
                    &&& r.span == macro_end
                    &&& r.message == "closing macro while hide-block is open"@
                    &&& r.labels.len() == 2
                    &&& r.labels[0].span.start == macro_start.start
                    &&& r.labels[0].span.end == macro_end.end
                    &&& r.labels[0].message == "macro started here"@
                    &&& r.labels[0].priority == 0
                    &&& r.labels[1] == label(
                        open_hide,
                        "the hidden section started here is incomplete"@,
                    )
                },
                Diagnostic::NoMacroToClose { end_span, prev_autoclose_macro } => {
                    &&& r.span == end_span
                    &&& r.message == "unexpected macro closure"@
                    &&& r.labels.len() == (if prev_autoclose_macro is Some {
                        2int
                    } else {
                        1int
                    })
                    &&& r.labels[0] == label(end_span, "there is no macro to close at this point"@)
                    &&& prev_autoclose_macro matches Some(s) ==> r.labels[1] == label(
                        s,
                        "previous auto-closing macro"@,
                    )
                },
                Diagnostic::NoNamespaceToClose { close_span } => {
                    &&& r.span == close_span
                    &&& r.message == "unexpected namespace closure"@
                    &&& r.labels == seq![
                        label(close_span, "there is no open namespace to close at this point"@),
                    ]
                },
                Diagnostic::NoHideToClose { close_span } => {
                    &&& r.span == close_span
                    &&& r.message == "unexpected hide-segment closure"@
                    &&& r.labels == seq![
                        label(close_span, "there is no open hide-segment at this point"@),
                    ]
                },
                Diagnostic::InvalidCommand { command_span } => {
                    &&& r.span == command_span
                    &&& r.message == "invalid agdatex command"@
                    &&& r.labels == seq![label(command_span, "I do not understand this command"@)]
                },
                Diagnostic::CommandTrailingChars { command_span, trail_span } => {
                    &&& r.span == trail_span
                    &&& r.message == "trailing characters in command"@
                    &&& r.labels == seq![
                        label(command_span, "I can parse this as a valid command..."@),
                        label(
                            trail_span,
                            "...but I do not know what to do with these characters"@,
                        ),
                    ]
                },
                Diagnostic::CommandInvalidInline { command_span, inline_span } => {
                    &&& r.span == inline_span
                    &&& r.message == "invalid inline marker in command"@
                    &&& r.labels == seq![
                        label(inline_span, "this inline marker is invalid"@),
                        label(command_span, "in this non-macro start command"@),
                    ]
                },
            }
        }),
{
}

} // verus!
