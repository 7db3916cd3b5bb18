use agdatex::ltx_write::{Add2, Add5, Group, Ltx, Nat, S, Z};

#[test]
fn write() {
    let expected_lines = [
        r"\documentclass[ngerman]{scrartcl}",
        r"\usepackage{blindtext}",
        r"",
        r"\begin{document}",
        r"Hi!",
        r"",
        r"\blindtext",
        r"\end{document}",
    ];
    let ltx = Ltx::new()
        .command("documentclass")
        .opt("ngerman")
        .group("scrartcl")
        .ln()
        .command("usepackage")
        .group("blindtext")
        .par()
        .with_env("document", |ltx| {
            ltx.ln().push("Hi!").par().command("blindtext").ln()
        })
        .ln();
    let actual = ltx.to_string();
    let actual_lines = actual.lines().collect::<Vec<_>>();

    assert_eq!(expected_lines.len(), actual_lines.len());
    for (i, (expected, actual)) in expected_lines.into_iter().zip(actual_lines).enumerate() {
        assert_eq!(expected, actual, "mismatch in line #{}", i + 1);
    }
}

#[test]
fn numbers_of_slices() {
    assert_eq!(Z::VALUE, 0);
    assert_eq!(<S<Z> as Nat>::VALUE, 1);
    assert_eq!(<Add5<Add2<Z>> as Nat>::VALUE, 7);
}

#[test]
fn bytes_are_appended() {
    let mut out = b"before ".to_vec();
    Ltx::new().begin("code", "hide").ln().write(&mut out);
    assert_eq!(out, b"before \\begin{code}[hide]\n");
    Ltx::default().push("\u{3bb}").pctln().write(&mut out);
    assert_eq!(out, "before \\begin{code}[hide]\n\u{3bb}%\n".as_bytes());
}

#[test]
fn text_is_appended() {
    let mut out = String::from("a");
    Ltx::new().begin_("x").end("x").write_fmt(&mut out);
    assert_eq!(out, r"a\begin{x}\end{x}");
}

#[test]
fn groups_and_comments() {
    let ltx = Ltx::new().with_group(Group::tex(), |l| l.command("bf").push(" x"));
    assert_eq!(ltx.to_string(), r"{\bf x}");
    let ltx = Ltx::new().with_group(Group::opt(), |l| l);
    assert_eq!(ltx.to_string(), "[]");
    let ltx = Ltx::new().with_comment(|l| l.push("remark"));
    assert_eq!(ltx.clone().to_string(), "% remark\n");
    assert_eq!(ltx.to_string(), "% remark\n");
    assert_eq!(Ltx::new().to_string(), "");
}
