use agdatex::diagnostic::Diagnostic;
use agdatex::translation::{line_numbers_fit, union_span, Event, Macro, Translator};

struct Outcome {
    output: String,
    macros: Vec<(String, u32, bool)>,
    diagnostics: Vec<String>,
}

fn collect(events: Vec<Event>) -> Outcome {
    let mut outcome = Outcome {
        output: String::new(),
        macros: Vec::new(),
        diagnostics: Vec::new(),
    };
    for event in events {
        match event {
            Event::Output(text) => outcome.output.push_str(&text),
            Event::Diagnosed(d) => outcome.diagnostics.push(format!("{d:?}")),
            Event::Defined(m) => outcome.macros.push((m.name, m.line, m.inline)),
        }
    }
    outcome
}

fn run(src: &str) -> Outcome {
    assert!(line_numbers_fit(src));
    collect(Translator::default().run(src))
}

fn diagnostics(src: &str) -> Vec<String> {
    run(src).diagnostics
}

fn debug(d: Diagnostic) -> String {
    format!("{d:?}")
}

#[test]
fn a_whole_source() {
    let src = "module A where\n--! Ns>\n--! Foo\nx : Nat\nx = 0\n\n--! Bar {\ny\n--! [\nhidden\n--! ]\nz\n--! }\n--! <\n";
    let outcome = run(src);
    let expected = [
        r"\begin{code}[hide]",
        r"module A where",
        r"\end{code}",
        r"",
        r"% \NsFoo",
        r"\NewDocumentCommand\NsFoo{s}{%",
        r"\IfBooleanF{#1}{\begin{AgdaMultiCode}}%",
        r"\begin{code}[]",
        r"x : Nat",
        r"x = 0",
        r"\end{code}%",
        r"\IfBooleanF{#1}{\end{AgdaMultiCode}}}",
        r"",
        r"% \NsBar",
        r"\NewDocumentCommand\NsBar{s}{%",
        r"\IfBooleanF{#1}{\begin{AgdaMultiCode}}%",
        r"\begin{code}[]",
        r"y",
        r"\end{code}%",
        r"\begin{code}[hide]",
        r"hidden",
        r"\end{code}%",
        r"\begin{code}[]",
        r"z",
        r"\end{code}%",
        r"\IfBooleanF{#1}{\end{AgdaMultiCode}}}",
        r"",
        r"",
    ];
    assert_eq!(outcome.output, expected.join("\n"));
    assert_eq!(
        outcome.macros,
        [("NsFoo".to_owned(), 2, false), ("NsBar".to_owned(), 6, false)]
    );
    assert!(outcome.diagnostics.is_empty());
}

#[test]
fn inline_macros() {
    let outcome = run("--!! Foo\nx\n\ny");
    let expected = [
        r"% \Foo [inline]",
        r"\NewDocumentCommand\Foo{s}{%",
        r"\begin{code}[\IfBooleanTF{#1}{inline*}{inline}]",
        r"x",
        r"\end{code}}",
        r"",
        r"\begin{code}[hide]",
        r"y",
        r"\end{code}",
        r"",
        r"",
    ];
    assert_eq!(outcome.output, expected.join("\n"));
    assert_eq!(outcome.macros, [("Foo".to_owned(), 0, true)]);
}

#[test]
fn macros_without_lines() {
    let outcome = run("--!! Foo\n");
    assert_eq!(
        outcome.output,
        "% \\Foo [inline]\n\\NewDocumentCommand\\Foo{s}{%\n}\n\n"
    );
    let outcome = run("--! Foo {\n--! }");
    assert_eq!(
        outcome.output,
        "% \\Foo\n\\NewDocumentCommand\\Foo{s}{%\n\\IfBooleanF{#1}{\\begin{AgdaMultiCode}}%\n}\n\n"
    );
}

#[test]
fn macros_at_the_end() {
    let outcome = run("--! Foo\nx");
    assert!(outcome.diagnostics.is_empty());
    assert!(outcome.output.ends_with("x\n\\end{code}%\n\\IfBooleanF{#1}{\\end{AgdaMultiCode}}}\n\n"));
}

#[test]
fn blank_lines() {
    assert_eq!(run("").output, "");
    assert_eq!(run("\n \t\n").output, "\n\n");
    assert_eq!(
        run("x \n  \r\n\ty").output,
        "\\begin{code}[hide]\nx \n\n\ty\n\\end{code}\n\n"
    );
    // Only a macro that closes by itself is closed by a blank line.
    let outcome = run("--! Foo {\nx\n\ny\n--! }\n");
    assert!(outcome.output.contains("\\begin{code}[]\nx\n\ny\n\\end{code}%"));
    assert!(outcome.diagnostics.is_empty());
}

#[test]
fn lines_are_kept() {
    let src = "a\n--! Foo {\n b \n--! 1\n--! [\nc\n--! ]\n--! }\n\nd";
    let outcome = run(src);
    let kept: Vec<_> = outcome
        .output
        .lines()
        .filter(|line| src.lines().any(|l| l == *line) && !line.is_empty())
        .collect();
    assert_eq!(kept, ["a", " b ", "--! 1", "c", "d"]);
    assert_eq!(
        outcome.diagnostics.len(),
        1,
        "the fourth line is no command"
    );
}

#[test]
fn starts_and_ends_match() {
    let src = "a\n--! Foo {\nb\n--! [\nc\n--! Bar\nd\n\ne\n--!! Q {\nf";
    let outcome = run(src);
    let count = |pattern: &str| outcome.output.matches(pattern).count();
    assert_eq!(count("\\begin{code}"), count("\\end{code}"));
    assert_eq!(count("\\begin{AgdaMultiCode}"), count("\\end{AgdaMultiCode}"));
    assert_eq!(count("\\NewDocumentCommand"), 3);
}

#[test]
fn an_end_without_a_macro_is_ignored() {
    let outcome = run("a\n--! }\nb");
    assert_eq!(
        outcome.output,
        "\\begin{code}[hide]\na\nb\n\\end{code}\n\n"
    );
    assert_eq!(
        outcome.diagnostics,
        [debug(Diagnostic::NoMacroToClose {
            end_span: 2..7,
            prev_autoclose_macro: None,
        })]
    );
    assert_eq!(run("a\n--! }\n").output, run("a\n").output);
    assert_eq!(run("--! }\n").output, "");
}

#[test]
fn runs_do_not_depend_on_each_other() {
    let mut translator = Translator::default();
    let src = "--! Ns>\n--! [\n--! Foo {\nx\n";
    let first = collect(translator.run(src));
    let second = collect(translator.run(src));
    assert_eq!(first.output, second.output);
    assert_eq!(first.macros, second.macros);
    assert_eq!(first.diagnostics, second.diagnostics);
    assert_eq!(second.macros, [("NsFoo".to_owned(), 2, false)]);
}

#[test]
fn nested_namespaces() {
    let outcome = run("--! A>\n--! B>\n--! X\nx\n\n--! <\n--! Y\ny\n\n--! <\n--! Z\nz\n\n--! <\n");
    let names: Vec<_> = outcome.macros.iter().map(|m| m.0.as_str()).collect();
    assert_eq!(names, ["ABX", "AY", "Z"]);
    assert_eq!(
        outcome.diagnostics,
        [debug(Diagnostic::NoNamespaceToClose { close_span: 53..58 })]
    );
}

#[test]
fn macros_inside_of_macros() {
    assert_eq!(
        diagnostics("--! Foo\nx\ny\n--! Bar\nz"),
        [debug(Diagnostic::OpenMacro {
            cur_start_span: 0..7,
            cur_macro_span: Some(8..11),
            new_start_span: 12..19,
        })]
    );
}

#[test]
fn unfinished_macros() {
    assert_eq!(
        diagnostics("--! Foo {\n"),
        [debug(Diagnostic::UnfinishedMacro {
            cur_start_span: 0..9,
            cur_macro_span: None,
            file_end_span: 10..10,
        })]
    );
}

#[test]
fn macros_that_are_closed_wrongly() {
    assert_eq!(
        diagnostics("--! Foo\nx\n--! }\n--! }"),
        [
            debug(Diagnostic::MacroCloseExplicit {
                macro_start: 0..7,
                macro_end: 10..15,
                macro_body: Some(8..9),
            }),
            debug(Diagnostic::NoMacroToClose {
                end_span: 16..21,
                prev_autoclose_macro: Some(0..15),
            }),
        ]
    );
    assert_eq!(
        diagnostics("--! [\n--! Foo {\n--! }\n"),
        [debug(Diagnostic::MacroCloseHideStack {
            macro_start: 6..15,
            macro_end: 16..21,
            open_hide: 0..5,
        })]
    );
    assert_eq!(
        diagnostics("--! Foo {\n--! }\n--! }"),
        [debug(Diagnostic::NoMacroToClose {
            end_span: 16..21,
            prev_autoclose_macro: None,
        })]
    );
}

#[test]
fn spans_are_those_of_the_source() {
    let src = "\u{3bb}\r\n--! Foo {\n a\r\n\n \u{3bb} b\n--! Bar {";
    for event in Translator::default().run(src) {
        match event {
            Event::Diagnosed(Diagnostic::OpenMacro {
                cur_start_span,
                cur_macro_span,
                new_start_span,
            }) => {
                assert_eq!(&src[cur_start_span], "--! Foo {");
                assert_eq!(&src[cur_macro_span.unwrap()], " a\r\n\n \u{3bb} b");
                assert_eq!(&src[new_start_span], "--! Bar {");
            }
            Event::Diagnosed(Diagnostic::UnfinishedMacro {
                cur_start_span,
                file_end_span,
                ..
            }) => {
                assert_eq!(&src[cur_start_span], "--! Bar {");
                assert_eq!(file_end_span, src.len()..src.len());
            }
            Event::Diagnosed(d) => panic!("{d:?}"),
            _ => {}
        }
    }
}

#[test]
fn hidden_parts_without_a_start() {
    assert_eq!(
        diagnostics("--! ]\n"),
        [debug(Diagnostic::NoHideToClose { close_span: 0..5 })]
    );
}

#[test]
fn wrong_annotations() {
    assert_eq!(
        diagnostics(" --! 1\n"),
        [debug(Diagnostic::InvalidCommand { command_span: 1..6 })]
    );
    assert_eq!(
        diagnostics("--!! [ x\n"),
        [
            debug(Diagnostic::CommandTrailingChars {
                command_span: 0..6,
                trail_span: 6..8,
            }),
            debug(Diagnostic::CommandInvalidInline {
                command_span: 0..6,
                inline_span: 0..4,
            }),
        ]
    );
}

#[test]
fn comments_on_macros() {
    let m = Macro {
        name: "Foo",
        line: 3,
        inline: true,
    };
    assert_eq!(m.to_string(), "% \\Foo [inline]\n");
    let owned = m.to_owned();
    assert_eq!((owned.name.as_str(), owned.line, owned.inline), ("Foo", 3, true));
    let plain = Macro {
        inline: false,
        ..owned
    };
    assert_eq!(plain.to_ltx_comment().to_string(), "% \\Foo\n");
    let ltx = plain.push_ltx_comment(agdatex::ltx_write::Ltx::new().push("x"));
    assert_eq!(ltx.to_string(), "x% \\Foo\n");
    let copy = m.clone();
    assert_eq!((copy.name, copy.line, copy.inline), ("Foo", 3, true));
}

#[test]
fn spans_are_widened() {
    let mut span = None;
    union_span(&mut span, 5..7);
    assert_eq!(span, Some(5..7));
    union_span(&mut span, 6..9);
    assert_eq!(span, Some(5..9));
    union_span(&mut span, 1..2);
    assert_eq!(span, Some(1..9));
}

#[test]
fn short_sources_have_small_line_numbers() {
    assert!(line_numbers_fit(""));
    assert!(line_numbers_fit("x\n--! Foo\n\n--! }"));
}
