use agdatex::bytes::{eq_ignore_case, has_prefix, trim_end};
use agdatex::diagnostic::Diagnostic;
use agdatex::driver::{
    agda_options, entry_opened, is_hidden, plan_file, plan_stdin, skip_loop, translate_source,
    Action, FileAction, EXT_COMPILED, EXT_TRANSLATED,
};
use agdatex::escape::{show, PseudoEscape};
use agdatex::source_hash::SourceHash;
use agdatex::translation::Translator;

fn actions(src: &str, assembling: bool) -> (Vec<String>, bool) {
    let plan = plan_file(Translator::default().run(src), assembling, "dir/A.tex");
    let actions = plan
        .actions
        .into_iter()
        .map(|action| match action {
            Action::Write(text) => format!("W {text}"),
            Action::Report(d) => format!("R {d:?}"),
            Action::Assemble(text) => format!("A {text}"),
        })
        .collect();
    (actions, plan.should_compile)
}

#[test]
fn actions_by_name() {
    for (name, action) in [
        ("A.agda", Some(FileAction::Translate)),
        ("A.AGDA", Some(FileAction::Translate)),
        ("A.lagda.agda", Some(FileAction::Translate)),
        ("A.lagda", Some(FileAction::Copy)),
        ("A.lagda.md", Some(FileAction::Copy)),
        ("A.LagDa.tex", Some(FileAction::Copy)),
        ("A.lagda.x.md", None),
        ("A.tex", None),
        ("A", None),
        ("", None),
        (".agda", None),
        (".lagda.tex", None),
        ("..agda", Some(FileAction::Translate)),
        ("..", None),
        ("A.", None),
        ("A.agda.", None),
        ("agda", None),
        ("A.agdaa", None),
    ] {
        assert_eq!(FileAction::for_name(name.as_bytes()), action, "{name}");
        assert!(matches!(
            FileAction::for_file(Some(name.as_bytes()), false),
            Ok(found) if found == action
        ));
        match FileAction::for_file(Some(name.as_bytes()), true) {
            Ok(found) => assert!(found == action && action.is_some()),
            Err(_) => assert!(action.is_none()),
        }
    }
    assert!(matches!(FileAction::for_file(None, false), Ok(None)));
    assert!(FileAction::for_file(None, true).is_err());
}

#[test]
fn actions_and_targets() {
    assert_eq!(FileAction::Translate.description(), "TRANS");
    assert_eq!(FileAction::Copy.description(), "COPY");
    assert_eq!(FileAction::Translate.target_extension(), Some("lagda.tex"));
    assert_eq!(FileAction::Copy.target_extension(), None);
    assert_eq!(EXT_COMPILED, "tex");
    assert_eq!(EXT_TRANSLATED, "lagda.tex");
}

#[test]
fn hidden_entries() {
    assert!(is_hidden(b".git"));
    assert!(is_hidden(b"."));
    assert!(!is_hidden(b"A.agda"));
    assert!(!is_hidden(b""));
}

#[test]
fn entries_that_are_links() {
    let eloop = nix::errno::Errno::ELOOP as i32;
    let enoent = nix::errno::Errno::ENOENT as i32;
    assert_eq!(entry_opened(Ok::<_, ()>(1), None), Ok(Some(1)));
    assert_eq!(entry_opened(Err::<u8, _>("loop"), Some(eloop)), Ok(None));
    assert_eq!(entry_opened(Err::<u8, _>("none"), Some(enoent)), Err("none"));
    assert_eq!(entry_opened(Err::<u8, _>("odd"), None), Err("odd"));
    assert_eq!(skip_loop(Err::<u8, _>("loop"), true), Ok(None));
    assert_eq!(skip_loop(Err::<u8, _>("other"), false), Err("other"));
    assert_eq!(skip_loop(Ok::<_, ()>(1), true), Ok(Some(1)));
}

#[test]
fn options_of_agda() {
    assert_eq!(agda_options(false), ["--latex"]);
    assert_eq!(agda_options(true), ["--only-scope-checking", "--latex"]);
}

#[test]
fn files_without_macros() {
    let (done, compile) = actions("x\n", true);
    assert_eq!(
        done,
        ["W \\begin{code}[hide]\n", "W x\n", "W \\end{code}\n\n"]
    );
    assert!(!compile);
}

#[test]
fn files_with_macros() {
    let src = "--!! Foo\n--! ]\n";
    let (done, compile) = actions(src, true);
    assert_eq!(
        done,
        [
            "A % \\Foo [inline]\n",
            "W % \\Foo [inline]\n\\NewDocumentCommand\\Foo{s}{%\n",
            "R NoHideToClose { close_span: 9..14 }",
            "W }\n\n",
            "A \\input{dir/A.tex}\n\n",
        ]
    );
    assert!(compile);
    let (alone, compile) = actions(src, false);
    assert_eq!(alone, done[1..4]);
    assert!(compile);
}

#[test]
fn source_files() {
    let mut translator = Translator::default();
    let src = "--!! Foo\n";
    let translated = translate_source(&mut translator, src, true, "A.tex");
    let mut header = Vec::new();
    SourceHash::new(src).write(&mut header);
    assert!(translated.source_hash == SourceHash::new(src));
    assert_eq!(translated.header, header);
    assert!(translated.plan.should_compile);
    assert_eq!(translated.plan.actions.len(), 4);
    let plain = translate_source(&mut translator, "x", true, "A.tex");
    assert!(!plain.plan.should_compile);
    assert_eq!(plain.plan.actions.len(), 3);
}

#[test]
fn standard_input() {
    let plan = plan_stdin(Translator::default().run("--! Foo\nx\n\n--!! Bar\n"));
    assert!(plan.errors.is_empty());
    let (output, comments) = plan.translated.unwrap();
    assert!(output.starts_with("% \\Foo\n\\NewDocumentCommand\\Foo{s}{%\n"));
    assert!(output.ends_with("% \\Bar [inline]\n\\NewDocumentCommand\\Bar{s}{%\n}\n\n"));
    assert_eq!(comments, ["% \\Foo\n", "% \\Bar [inline]\n"]);
}

#[test]
fn standard_input_with_errors() {
    let plan = plan_stdin(Translator::default().run("--! Foo\n--! <\n--! x y\n"));
    assert!(plan.translated.is_none());
    assert_eq!(plan.errors.len(), 2);
    assert!(matches!(
        plan.errors[0],
        Diagnostic::NoNamespaceToClose { .. }
    ));
    assert!(matches!(plan.errors[1], Diagnostic::InvalidCommand { .. }));
}

#[test]
fn strings_in_messages() {
    assert_eq!(PseudoEscape("agda").to_string(), "agda");
    assert_eq!(PseudoEscape("").to_string(), "");
    assert_eq!(PseudoEscape("a\\b").to_string(), "a\\b");
    assert_eq!(PseudoEscape("my agda").to_string(), "\"my agda\"");
    assert_eq!(PseudoEscape("a\tb\"c").to_string(), "\"a\\tb\\\"c\"");
    assert_eq!(PseudoEscape("it's".to_owned()).to_string(), "\"it\\'s\"");
    assert_eq!(PseudoEscape("\u{85}").to_string(), "\"\\u{85}\"");
    assert_eq!(show("a b", "other"), "\"other\"");
    assert_eq!(show("ab", "other"), "ab");
}

#[test]
fn byte_strings() {
    assert!(has_prefix(b"abc", b"ab"));
    assert!(has_prefix(b"abc", b""));
    assert!(!has_prefix(b"ab", b"abc"));
    assert!(!has_prefix(b"xbc", b"ab"));
    assert_eq!(trim_end(b" a \t\r\n\x0c"), b" a");
    assert_eq!(trim_end(b"\x0b"), b"\x0b");
    assert_eq!(trim_end(b" "), b"");
    assert!(eq_ignore_case(b"aZ[", b"Az["));
    assert!(!eq_ignore_case(b"@", b"`"));
    assert!(!eq_ignore_case(b"ab", b"a"));
}
