use agdatex::command::{Command, CommandParseResult};
use agdatex::span_str::SpanStr;

fn parse(line: &str) -> CommandParseResult<'_> {
    Command::try_parse(SpanStr::with_offset(line, 100))
}

fn command(line: &str) -> Command<'_> {
    match parse(line) {
        CommandParseResult::Command {
            command,
            trailing_chars: None,
            invalid_inline_annot: None,
        } => command,
        _ => panic!("no plain command: {line}"),
    }
}

#[test]
fn macros_that_close_by_themselves() {
    for (line, start, is_inline) in [
        ("--!Foo", 103, false),
        ("--! \t Foo", 106, false),
        ("--!!Foo", 104, true),
        ("--!! Foo", 105, true),
    ] {
        match command(line) {
            Command::MacroStart {
                name,
                auto_close,
                inline,
                span,
            } => {
                assert_eq!(name.as_str(), "Foo");
                assert_eq!(name.span(), start..start + 3);
                assert!(auto_close);
                assert_eq!(inline, is_inline);
                assert_eq!(span, 100..100 + line.len());
            }
            _ => panic!("no macro: {line}"),
        }
    }
}

#[test]
fn macros_that_are_closed() {
    match command("--! Foo {") {
        Command::MacroStart {
            name,
            auto_close,
            inline,
            span,
        } => {
            assert_eq!(name.span(), 104..107);
            assert!(!auto_close);
            assert!(!inline);
            assert_eq!(span, 100..109);
        }
        _ => panic!("no macro"),
    }
    assert!(matches!(command("--!}"), Command::MacroEnd(span) if span == (100..104)));
    assert!(matches!(command("--!  }"), Command::MacroEnd(_)));
}

#[test]
fn other_commands() {
    match command("--! Data>") {
        Command::NamespaceOpen { name, span } => {
            assert_eq!(name.as_str(), "Data");
            assert_eq!(span, 100..109);
        }
        _ => panic!("no namespace"),
    }
    assert!(matches!(command("--! <"), Command::NamespaceClose(_)));
    assert!(matches!(command("--! ["), Command::HideStart(_)));
    assert!(matches!(command("--! ]"), Command::HideEnd(_)));
    assert_eq!(*command("--! ]").clone().span(), 100..105);
    assert_eq!(*command("--! Foo").span(), 100..107);
    assert_eq!(*command("--! <").span(), 100..105);
    assert_eq!(*command("--! [").span(), 100..105);
    assert_eq!(*command("--! }").span(), 100..105);
    assert_eq!(*command("--! A>").span(), 100..106);
}

#[test]
fn lines_without_a_mark() {
    for line in ["", "-- Foo", "--", "x --! Foo", "{--! Foo", "-!- Foo"] {
        assert!(matches!(parse(line), CommandParseResult::NotACommand), "{line}");
    }
}

#[test]
fn lines_with_a_mark_alone() {
    for line in [
        "--!", "--!!", "--! {", "--! >", "--! Foo }", "--! Foo <", "--! Foo [", "--! Foo ]",
        "--! Foo bar", "--! 1", "--! \u{3bb}", "--! Foo2", "--! !Foo",
    ] {
        assert!(matches!(parse(line), CommandParseResult::InvalidCommand), "{line}");
    }
}

#[test]
fn trailing_characters() {
    match parse("--! Foo { bar") {
        CommandParseResult::Command {
            command,
            trailing_chars: Some(trail),
            invalid_inline_annot: None,
        } => {
            assert_eq!(*command.span(), 100..109);
            assert_eq!(trail.as_str(), " bar");
            assert_eq!(trail.span(), 109..113);
        }
        _ => panic!("no trailing characters"),
    }
}

#[test]
fn marks_that_do_not_belong() {
    match parse("--!! } }") {
        CommandParseResult::Command {
            command: Command::MacroEnd(span),
            trailing_chars: Some(trail),
            invalid_inline_annot: Some(mark),
        } => {
            assert_eq!(span, 100..106);
            assert_eq!(trail.span(), 106..108);
            assert_eq!(mark.as_str(), "--!!");
            assert_eq!(mark.span(), 100..104);
        }
        _ => panic!("no mark"),
    }
}
