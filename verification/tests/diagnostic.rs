use agdatex::diagnostic::Diagnostic;

type Labels = Vec<(std::ops::Range<usize>, &'static str, i32)>;

fn report(d: Diagnostic) -> (std::ops::Range<usize>, &'static str, Labels) {
    let r = d.clone().to_report();
    let labels = r
        .labels
        .into_iter()
        .map(|label| (label.span, label.message, label.priority))
        .collect();
    (r.span, r.message, labels)
}

#[test]
fn open_macro() {
    assert_eq!(
        report(Diagnostic::OpenMacro {
            cur_start_span: 1..2,
            cur_macro_span: Some(3..4),
            new_start_span: 5..6,
        }),
        (
            5..6,
            "starting new macro without closing previous macro",
            vec![
                (5..6, "new macro started here", 0),
                (1..2, "previous macro started here", 0),
                (3..4, "previous macro body", -1),
            ]
        )
    );
}

#[test]
fn unfinished_macro() {
    assert_eq!(
        report(Diagnostic::UnfinishedMacro {
            cur_start_span: 1..2,
            cur_macro_span: None,
            file_end_span: 9..9,
        }),
        (9..9, "unfinished macro", vec![(1..2, "macro started here", 0)])
    );
}

#[test]
fn macro_closed_explicitly() {
    assert_eq!(
        report(Diagnostic::MacroCloseExplicit {
            macro_start: 1..2,
            macro_end: 5..6,
            macro_body: Some(3..4),
        }),
        (
            5..6,
            "unexpected macro closure",
            vec![
                (1..2, "auto-closing macro started here", 0),
                (5..6, "closed explicitly here", 0),
                (3..4, "macro body", -1),
            ]
        )
    );
}

#[test]
fn macro_closed_while_hidden() {
    assert_eq!(
        report(Diagnostic::MacroCloseHideStack {
            macro_start: 1..2,
            macro_end: 5..6,
            open_hide: 3..4,
        }),
        (
            5..6,
            "closing macro while hide-block is open",
            vec![
                (1..6, "macro started here", 0),
                (3..4, "the hidden section started here is incomplete", 0),
            ]
        )
    );
}

#[test]
fn nothing_to_close() {
    assert_eq!(
        report(Diagnostic::NoMacroToClose {
            end_span: 5..6,
            prev_autoclose_macro: Some(1..2),
        }),
        (
            5..6,
            "unexpected macro closure",
            vec![
                (5..6, "there is no macro to close at this point", 0),
                (1..2, "previous auto-closing macro", 0),
            ]
        )
    );
    assert_eq!(
        report(Diagnostic::NoNamespaceToClose { close_span: 5..6 }),
        (
            5..6,
            "unexpected namespace closure",
            vec![(5..6, "there is no open namespace to close at this point", 0)]
        )
    );
    assert_eq!(
        report(Diagnostic::NoHideToClose { close_span: 5..6 }),
        (
            5..6,
            "unexpected hide-segment closure",
            vec![(5..6, "there is no open hide-segment at this point", 0)]
        )
    );
}

#[test]
fn bad_commands() {
    assert_eq!(
        report(Diagnostic::InvalidCommand { command_span: 5..6 }),
        (
            5..6,
            "invalid agdatex command",
            vec![(5..6, "I do not understand this command", 0)]
        )
    );
    assert_eq!(
        report(Diagnostic::CommandTrailingChars {
            command_span: 1..2,
            trail_span: 3..4,
        }),
        (
            3..4,
            "trailing characters in command",
            vec![
                (1..2, "I can parse this as a valid command...", 0),
                (3..4, "...but I do not know what to do with these characters", 0),
            ]
        )
    );
    assert_eq!(
        report(Diagnostic::CommandInvalidInline {
            command_span: 1..2,
            inline_span: 3..4,
        }),
        (
            3..4,
            "invalid inline marker in command",
            vec![
                (3..4, "this inline marker is invalid", 0),
                (1..2, "in this non-macro start command", 0),
            ]
        )
    );
}
