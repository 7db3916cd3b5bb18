//! What is to be done with files, and with what comes of translating them.
use vstd::prelude::*;
use vstd::utf8::*;

use crate::bytes;
use crate::diagnostic::Diagnostic;
use crate::document;
use crate::ltx_write;
use crate::ltx_write::Ltx;
use crate::source_hash;
use crate::source_hash::SourceHash;
use crate::translation;
use crate::translation::{Effect, Event, MacroText, Translator};

verus! {

/// What is to be done with a source file.
#[derive(Debug, Clone, Copy, PartialEq, Eq, Structural)]
pub enum FileAction {
    /// Its annotations are translated.
    Translate,
    /// It is used as it is.
    Copy,
}

/// The extension of files that Agda has compiled.
pub const EXT_COMPILED: &'static str = "tex";

/// The extension of files that have been translated.
pub const EXT_TRANSLATED: &'static str = "lagda.tex";

/// How many bytes of `name` stand before its last dot, if it has one.
pub open spec fn last_dot(name: Seq<u8>) -> Option<int>
    decreases name.len(),
{
    if name.len() == 0 {
        None
    } else if name.last() == 0x2e {
        Some(name.len() - 1)
    } else {
        last_dot(name.drop_last())
    }
}

/// A file name as its stem and its extension, if it has an extension: that is what follows the
/// last dot, unless that dot comes first, and unless the name is `..`.
pub open spec fn split_name(name: Seq<u8>) -> Option<(Seq<u8>, Seq<u8>)> {
    match last_dot(name) {
        Some(at) => if at == 0 || name == seq![0x2eu8, 0x2eu8] {
            None
        } else {
            Some((name.take(at), name.skip(at + 1)))
        },
        None => None,
    }
}

/// What is to be done with a file of the given name: a file `x.agda` is translated, a file
/// `x.lagda` or `x.lagda.y` is copied.
pub open spec fn action_for(name: Seq<u8>) -> Option<FileAction> {
    match split_name(name) {
        None => None,
        Some((stem, ext)) => if bytes::same_letters(ext, agda()) {
            Some(FileAction::Translate)
        } else if bytes::same_letters(ext, lagda()) {
            Some(FileAction::Copy)
        } else {
            match split_name(stem) {
                Some((_, second)) => if bytes::same_letters(second, lagda()) {
                    Some(FileAction::Copy)
                } else {
                    None
                },
                None => None,
            }
        },
    }
}

/// The extension of Agda sources.
pub open spec fn agda() -> Seq<u8> {
    seq![0x61u8, 0x67, 0x64, 0x61]
}

/// The extension of Literate Agda sources.
pub open spec fn lagda() -> Seq<u8> {
    seq![0x6cu8, 0x61, 0x67, 0x64, 0x61]
}

/// Splits a file name into its stem and its extension.
fn split_file_name(name: &[u8]) -> (r: Option<(&[u8], &[u8])>)
    ensures
        match r {
            Some((stem, ext)) => split_name(name@) == Some((stem@, ext@)),
            None => split_name(name@) is None,
        },
{
    let mut n = name.len();
    assert(name@.take(n as int) =~= name@);
    while n > 0
        invariant
            n <= name@.len(),
            last_dot(name@) == last_dot(name@.take(n as int)),
        decreases n,
    {
        assert(name@.take(n as int).last() == name@[n - 1]);
        if name[n - 1] == 0x2e {
            if n == 1 {
                return None;
            }
            if name.len() == 2 && name[0] == 0x2e && name[1] == 0x2e {
                assert(name@ =~= seq![0x2eu8, 0x2eu8]);
                return None;
            }
            let (stem, rest) = name.split_at(n - 1);
            let (_, ext) = rest.split_at(1);
            assert(stem@ =~= name@.take(n - 1));
            assert(ext@ =~= name@.skip(n as int));
            return Some((stem, ext));
        }
        assert(name@.take(n as int).drop_last() =~= name@.take(n - 1));
        n = n - 1;
    }
    None
}

/// The name of a file does not say what is to be done with it.
#[derive(Debug)]
pub struct UnknownFile;

impl FileAction {
    /// What is to be done with a file of the given name.
    pub fn for_name(name: &[u8]) -> (r: Option<FileAction>)
        ensures
            r == action_for(name@),
    {
        let ext_agda: [u8; 4] = [0x61, 0x67, 0x64, 0x61];
        let ext_lagda: [u8; 5] = [0x6c, 0x61, 0x67, 0x64, 0x61];
        assert(ext_agda@ =~= agda());
        assert(ext_lagda@ =~= lagda());
        match split_file_name(name) {
            None => None,
            Some((stem, ext)) => if bytes::eq_ignore_case(ext, ext_agda.as_slice()) {
                Some(FileAction::Translate)
            } else if bytes::eq_ignore_case(ext, ext_lagda.as_slice()) {
                Some(FileAction::Copy)
            } else {
                match split_file_name(stem) {
                    Some((_, second)) => if bytes::eq_ignore_case(second, ext_lagda.as_slice()) {
                        Some(FileAction::Copy)
                    } else {
                        None
                    },
                    None => None,
                }
            },
        }
    }

    /// What is to be done with a file, if it has a name. A file that was asked for has to be one
    /// that something can be done with; one that was found is else left alone.
    pub fn for_file(name: Option<&[u8]>, asked_for: bool) -> (r: Result<
        Option<FileAction>,
        UnknownFile,
    >)
        ensures
            ({
                let action = match name {
                    Some(name) => action_for(name@),
                    None => None,
                };
                match r {
                    Ok(found) => found == action && (action is Some || !asked_for),
                    Err(_) => action is None && asked_for,
                }
            }),
    {
        let action = match name {
            Some(name) => FileAction::for_name(name),
            None => None,
        };
        if action.is_none() && asked_for {
            Err(UnknownFile)
        } else {
            Ok(action)
        }
    }

    /// A word for the action.
    pub fn description(self) -> (r: &'static str)
        ensures
            r@ == match self {
                FileAction::Translate => "TRANS"@,
                FileAction::Copy => "COPY"@,
            },
    {
        match self {
            FileAction::Translate => "TRANS",
            FileAction::Copy => "COPY",
        }
    }

    /// The extension that the file gets, if it does not keep its own.
    pub fn target_extension(self) -> (r: Option<&'static str>)
        ensures
            match r {
                Some(ext) => self is Translate && ext@ == "lagda.tex"@,
                None => self is Copy,
            },
    {
        match self {
            FileAction::Translate => Some(EXT_TRANSLATED),
            FileAction::Copy => None,
        }
    }
}

/// `nix::errno::Errno::from_raw`, held against `nix::errno::Errno::ELOOP`. The claim: zero does not
/// stand for that error. Which number does depends on the operating system, and is left open.
#[verifier::external_body]
fn is_symlink_loop(raw_os_error: i32) -> (r: bool)
    ensures
        raw_os_error == 0 ==> !r,
{
    nix::errno::Errno::from_raw(raw_os_error) == nix::errno::Errno::ELOOP
}

/// What comes of opening an entry of a directory without following symbolic links: an entry that
/// is one is left alone, and any other error is one.
pub fn entry_opened<F, E>(result: Result<F, E>, raw_os_error: Option<i32>) -> (r: Result<
    Option<F>,
    E,
>)
    ensures
        match result {
            Ok(file) => r == Ok::<Option<F>, E>(Some(file)),
            Err(e) => {
                ||| r == Err::<Option<F>, E>(e)
                ||| r == Ok::<Option<F>, E>(None) && raw_os_error is Some && raw_os_error != Some(
                    0i32,
                )
            },
        },
{
    let is_loop = match raw_os_error {
        Some(raw) => is_symlink_loop(raw),
        None => false,
    };
    skip_loop(result, is_loop)
}

/// What comes of opening an entry of a directory, where `is_loop` says whether an error is due to
/// a symbolic link.
pub fn skip_loop<F, E>(result: Result<F, E>, is_loop: bool) -> (r: Result<Option<F>, E>)
    ensures
        r == match result {
            Ok(file) => Ok::<Option<F>, E>(Some(file)),
            Err(e) => if is_loop {
                Ok(None)
            } else {
                Err(e)
            },
        },
{
    match result {
        Ok(file) => Ok(Some(file)),
        Err(e) => if is_loop {
            Ok(None)
        } else {
            Err(e)
        },
    }
}

/// Whether an entry of a directory is hidden.
pub fn is_hidden(name: &[u8]) -> (r: bool)
    ensures
        r == bytes::begins_with(name@, seq![0x2eu8]),
{
    let dot: [u8; 1] = [0x2e];
    assert(dot@ =~= seq![0x2eu8]);
    bytes::has_prefix(name, dot.as_slice())
}

/// The options with which Agda is called, but for the directory that it writes to.
pub fn agda_options(fast: bool) -> (r: Vec<&'static str>)
    ensures
        r@.map_values(|s: &'static str| s@) == (if fast {
            seq!["--only-scope-checking"@, "--latex"@]
        } else {
            seq!["--latex"@]
        }),
{
    let mut r: Vec<&'static str> = Vec::new();
    if fast {
        r.push("--only-scope-checking");
    }
    r.push("--latex");
    assert(r@.map_values(|s: &'static str| s@) =~= (if fast {
        seq!["--only-scope-checking"@, "--latex"@]
    } else {
        seq!["--latex"@]
    }));
    r
}

/// The text that puts a compiled file into a document.
pub open spec fn input_text(path: Seq<char>) -> Seq<char> {
    ltx_write::command_text("input"@) + ltx_write::argument_text(path) + "\n"@ + "\n"@
}

/// The text that puts a compiled file into a document.
fn input_line(path: &str) -> (r: String)
    ensures
        r@ == input_text(path@),
{
    let r = Ltx::new().command("input").group(path).ln().ln().to_string();
    proof {
        let none = Seq::<Seq<char>>::empty();
        let a = ltx_write::with_command(none, "input"@);
        let b = ltx_write::with_argument(a, path@);
        ltx_write::law_text(none, "input"@);
        ltx_write::law_text(a, path@);
        ltx_write::law_text(b, "\n"@);
        ltx_write::law_text(b.push("\n"@), "\n"@);
        assert(r@ =~= input_text(path@));
    }
    r
}

/// Something that is to be done for a translated file.
pub enum Action {
    /// Write to the translated file.
    Write(String),
    /// Report something wrong.
    Report(Diagnostic),
    /// Write to the file that puts the files of a directory together.
    Assemble(String),
}

/// Something that is to be done, with everything as plain text.
pub enum ActionText {
    Write(Seq<char>),
    Report(Diagnostic),
    Assemble(Seq<char>),
}

impl View for Action {
    type V = ActionText;

    open spec fn view(&self) -> ActionText {
        match *self {
            Action::Write(s) => ActionText::Write(s@),
            Action::Report(d) => ActionText::Report(d),
            Action::Assemble(s) => ActionText::Assemble(s@),
        }
    }
}

/// What is to be done for an event, where `assembling` says whether there is a file that puts the
/// files of a directory together.
pub open spec fn actions_for(event: Event, assembling: bool) -> Seq<ActionText> {
    match event {
        Event::Output(s) => seq![ActionText::Write(s@)],
        Event::Diagnosed(d) => seq![ActionText::Report(d)],
        Event::Defined(m) => if assembling {
            seq![ActionText::Assemble(translation::comment_text(m@.name, m@.inline))]
        } else {
            Seq::empty()
        },
    }
}

/// What is to be done for all of `events`.
pub open spec fn all_actions(events: Seq<Event>, assembling: bool) -> Seq<ActionText>
    decreases events.len(),
{
    if events.len() == 0 {
        Seq::empty()
    } else {
        all_actions(events.drop_last(), assembling) + actions_for(events.last(), assembling)
    }
}

/// What is to be done for all of `effects`, in their order: pieces of output are written to the
/// translated file, what is wrong is reported, and macros are listed where files are put together.
pub open spec fn actions_of(effects: Seq<Effect>, assembling: bool) -> Seq<ActionText>
    decreases effects.len(),
{
    if effects.len() == 0 {
        Seq::empty()
    } else {
        actions_of(effects.drop_last(), assembling) + match effects.last() {
            Effect::Output(piece) => seq![ActionText::Write(piece.text())],
            Effect::Diagnosed(d) => seq![ActionText::Report(d)],
            Effect::Defined(m) => if assembling {
                seq![ActionText::Assemble(translation::comment_text(m.name, m.inline))]
            } else {
                Seq::empty()
            },
        }
    }
}

/// Events call for the same as the effects that they ask for.
proof fn lemma_actions(events: Seq<Event>, effects: Seq<Effect>, assembling: bool)
    requires
        translation::show(events, effects),
    ensures
        all_actions(events, assembling) == actions_of(effects, assembling),
    decreases events.len(),
{
    if events.len() > 0 {
        let before = events.drop_last();
        let after = effects.drop_last();
        assert forall|i: int| 0 <= i < before.len() implies (#[trigger] before[i]).shows(
            after[i],
        ) by {
            assert(events[i].shows(effects[i]));
        }
        lemma_actions(before, after, assembling);
        assert(events[events.len() - 1].shows(effects[events.len() - 1]));
    }
}

/// Whether a macro is among `events`.
pub open spec fn has_macro(events: Seq<Event>) -> bool {
    exists|i: int| 0 <= i < events.len() && #[trigger] events[i] is Defined
}

/// Whether something wrong is among `events`.
pub open spec fn has_error(events: Seq<Event>) -> bool {
    exists|i: int| 0 <= i < events.len() && #[trigger] events[i] is Diagnosed
}

/// What is to be done for a translated file.
pub struct FilePlan {
    pub actions: Vec<Action>,
    /// Whether the file has to be compiled.
    pub should_compile: bool,
}

/// What comes of a source file.
pub struct Translated {
    /// The hash of the source.
    pub source_hash: SourceHash,
    /// What the translated file starts with.
    pub header: Vec<u8>,
    /// What is to be done after that.
    pub plan: FilePlan,
}

/// Translates a source file. The translated file starts with the hash of the source, which can be
/// read back from there.
pub fn translate_source(
    translator: &mut Translator,
    src: &str,
    assembling: bool,
    tex_path: &str,
) -> (r: Translated)
    requires
        translation::numbers_fit(0, translation::source(src@)),
    ensures
        r.source_hash@ == source_hash::sha256_digest(encode_utf8(src@)),
        r.header@ == source_hash::header(source_hash::base64_encoded(r.source_hash@)),
        forall|rest: Seq<u8>|
            #[trigger] source_hash::hash_of(r.header@ + rest) == Ok::<
                Seq<u8>,
                source_hash::Unreadable,
            >(r.source_hash@),
        r.plan.should_compile == (document::macros_of(
            0,
            translation::source(src@),
            Seq::empty(),
        ).len() > 0),
        r.plan.actions@.map_values(|a: Action| a@) == actions_of(
            translation::translated(src@).effects,
            assembling,
        ) + (if r.plan.should_compile && assembling {
            seq![ActionText::Assemble(input_text(tex_path@))]
        } else {
            Seq::empty()
        }),
        final(translator)@ == translation::leftover(src@),
{
    let source_hash = SourceHash::new(src);
    let mut header: Vec<u8> = Vec::new();
    source_hash.write(&mut header);
    proof {
        assert(header@ =~= source_hash::header(source_hash::base64_encoded(source_hash@)));
        assert(header@.skip(0) =~= header@);
    }
    let events = translator.run(src);
    let ghost all = events@;
    let plan = plan_file(events, assembling, tex_path);
    proof {
        law_compiled(src@, all);
        lemma_actions(all, translation::translated(src@).effects, assembling);
    }
    Translated { source_hash, header, plan }
}

impl FilePlan {
    /// Whether this is what is to be done for a file that was translated with `events`.
    pub open spec fn follows(
        self,
        events: Seq<Event>,
        assembling: bool,
        tex_path: Seq<char>,
    ) -> bool {
        &&& self.should_compile == has_macro(events)
        &&& self.actions@.map_values(|a: Action| a@) == all_actions(events, assembling) + (
        if has_macro(events) && assembling {
            seq![ActionText::Assemble(input_text(tex_path))]
        } else {
            Seq::empty()
        })
    }
}

/// What is to be done for a file that was translated with `events`, and that is compiled to
/// `tex_path`. Only a file with macros has to be compiled, and only such a file is put together
/// with others.
pub fn plan_file(events: Vec<Event>, assembling: bool, tex_path: &str) -> (r: FilePlan)
    ensures
        r.follows(events@, assembling, tex_path@),
{
    let ghost all = events@;
    let mut actions: Vec<Action> = Vec::new();
    let mut found = false;
    let mut i: usize = 0;
    assert(actions@.map_values(|a: Action| a@) =~= all_actions(all.take(0), assembling));
    while i < events.len()
        invariant
            i <= events@.len(),
            all == events@,
            found == has_macro(all.take(i as int)),
            actions@.map_values(|a: Action| a@) == all_actions(all.take(i as int), assembling),
        decreases events@.len() - i,
    {
        let ghost done = actions@.map_values(|a: Action| a@);
        let ghost part = all.take(i + 1);
        assert(part.drop_last() =~= all.take(i as int));
        match &events[i] {
            Event::Output(s) => {
                actions.push(Action::Write(s.clone()));
            },
            Event::Diagnosed(d) => {
                actions.push(Action::Report(d.clone()));
            },
            Event::Defined(m) => {
                found = true;
                if assembling {
                    actions.push(Action::Assemble(m.to_string()));
                }
            },
        }
        proof {
            lemma_has_macro(all, i as int);
            assert(actions@.map_values(|a: Action| a@) =~= done + actions_for(
                all[i as int],
                assembling,
            ));
        }
        i = i + 1;
    }
    assert(all.take(i as int) =~= all);
    let ghost done = actions@.map_values(|a: Action| a@);
    if found && assembling {
        actions.push(Action::Assemble(input_line(tex_path)));
        assert(actions@.map_values(|a: Action| a@) =~= done + seq![
            ActionText::Assemble(input_text(tex_path@)),
        ]);
    } else {
        assert(done + Seq::<ActionText>::empty() =~= done);
    }
    FilePlan { actions, should_compile: found }
}

/// Whether a macro is among one event more.
proof fn lemma_has_macro(events: Seq<Event>, i: int)
    requires
        0 <= i < events.len(),
    ensures
        has_macro(events.take(i + 1)) == (has_macro(events.take(i)) || events[i] is Defined),
        has_error(events.take(i + 1)) == (has_error(events.take(i)) || events[i] is Diagnosed),
{
    let a = events.take(i);
    let b = events.take(i + 1);
    assert(b[i] == events[i]);
    assert forall|j: int| 0 <= j < i implies a[j] == #[trigger] b[j] by {}
    if has_macro(a) {
        let j = choose|j: int| 0 <= j < a.len() && #[trigger] a[j] is Defined;
        assert(b[j] is Defined);
    }
    if has_error(a) {
        let j = choose|j: int| 0 <= j < a.len() && #[trigger] a[j] is Diagnosed;
        assert(b[j] is Diagnosed);
    }
}

/// The output among `events`.
pub open spec fn output_of(events: Seq<Event>) -> Seq<char>
    decreases events.len(),
{
    if events.len() == 0 {
        Seq::empty()
    } else {
        output_of(events.drop_last()) + match events.last() {
            Event::Output(s) => s@,
            _ => Seq::empty(),
        }
    }
}

/// The comments on the macros among `events`.
pub open spec fn comments_of(events: Seq<Event>) -> Seq<Seq<char>>
    decreases events.len(),
{
    if events.len() == 0 {
        Seq::empty()
    } else {
        let before = comments_of(events.drop_last());
        match events.last() {
            Event::Defined(m) => before.push(translation::comment_text(m@.name, m@.inline)),
            _ => before,
        }
    }
}

/// What is wrong among `events`.
pub open spec fn errors_of(events: Seq<Event>) -> Seq<Diagnostic>
    decreases events.len(),
{
    if events.len() == 0 {
        Seq::empty()
    } else {
        let before = errors_of(events.drop_last());
        match events.last() {
            Event::Diagnosed(d) => before.push(d),
            _ => before,
        }
    }
}

/// What comes of translating the standard input.
pub struct StdinPlan {
    /// What is to be reported.
    pub errors: Vec<Diagnostic>,
    /// What is to be written to the standard output, and the comments on macros that are to be
    /// written to the standard error output after that. There is nothing if something is wrong.
    pub translated: Option<(String, Vec<String>)>,
}

/// What is to be done with the standard input after it was translated with `events`.
pub fn plan_stdin(events: Vec<Event>) -> (r: StdinPlan)
    ensures
        r.errors@ == errors_of(events@),
        match r.translated {
            Some((output, comments)) => {
                &&& !has_error(events@)
                &&& output@ == output_of(events@)
                &&& comments@.map_values(|s: String| s@) == comments_of(events@)
            },
            None => has_error(events@),
        },
{
    let ghost all = events@;
    let mut errors: Vec<Diagnostic> = Vec::new();
    let mut output = String::new();
    let mut comments: Vec<String> = Vec::new();
    let mut failed = false;
    let mut i: usize = 0;
    assert(output@ =~= output_of(all.take(0)));
    assert(errors@ =~= errors_of(all.take(0)));
    assert(comments@.map_values(|s: String| s@) =~= comments_of(all.take(0)));
    while i < events.len()
        invariant
            i <= events@.len(),
            all == events@,
            failed == has_error(all.take(i as int)),
            errors@ == errors_of(all.take(i as int)),
            output@ == output_of(all.take(i as int)),
            comments@.map_values(|s: String| s@) == comments_of(all.take(i as int)),
        decreases events@.len() - i,
    {
        let ghost part = all.take(i + 1);
        let ghost said = comments@.map_values(|s: String| s@);
        let ghost written = output@;
        assert(part.drop_last() =~= all.take(i as int));
        match &events[i] {
            Event::Output(s) => {
                output.append(s.as_str());
            },
            Event::Diagnosed(d) => {
                failed = true;
                errors.push(d.clone());
            },
            Event::Defined(m) => {
                comments.push(m.to_string());
            },
        }
        proof {
            lemma_has_macro(all, i as int);
            assert(output@ =~= output_of(part));
            assert(comments@.map_values(|s: String| s@) =~= comments_of(part));
        }
        i = i + 1;
    }
    assert(all.take(i as int) =~= all);
    let translated = if failed {
        None
    } else {
        Some((output, comments))
    };
    StdinPlan { errors, translated }
}

/// The text of the output among `effects`.
pub open spec fn text_of(effects: Seq<Effect>) -> Seq<char>
    decreases effects.len(),
{
    if effects.len() == 0 {
        Seq::empty()
    } else {
        text_of(effects.drop_last()) + match effects.last() {
            Effect::Output(piece) => piece.text(),
            _ => Seq::empty(),
        }
    }
}

/// The comments on `macros`.
pub open spec fn comments_on(macros: Seq<MacroText>) -> Seq<Seq<char>> {
    macros.map_values(|m: MacroText| translation::comment_text(m.name, m.inline))
}

/// What events say, the effects say that they ask for.
proof fn lemma_shown(events: Seq<Event>, effects: Seq<Effect>)
    requires
        translation::show(events, effects),
    ensures
        output_of(events) == text_of(effects),
        comments_of(events) == comments_on(document::macros_in(effects)),
        has_error(events) == !document::is_clean(effects),
        has_macro(events) == (document::macros_in(effects).len() > 0),
    decreases events.len(),
{
    if events.len() > 0 {
        let n = events.len() - 1;
        let before = events.drop_last();
        let after = effects.drop_last();
        assert forall|i: int| 0 <= i < before.len() implies (#[trigger] before[i]).shows(
            after[i],
        ) by {
            assert(events[i].shows(effects[i]));
        }
        lemma_shown(before, after);
        assert(events[n].shows(effects[n]));
        assert(events.take(n) =~= before);
        assert(events.take(n + 1) =~= events);
        lemma_has_macro(events, n);
        assert(comments_of(events) =~= comments_on(document::macros_in(effects)));
        if document::is_clean(effects) {
            assert forall|i: int| 0 <= i < after.len() implies !(
            #[trigger] after[i] is Diagnosed) by {
                assert(!(effects[i] is Diagnosed));
            }
        } else {
            let i = choose|i: int| 0 <= i < effects.len() && #[trigger] effects[i] is Diagnosed;
            if i < n {
                assert(after[i] is Diagnosed);
            }
        }
    } else {
        assert(comments_of(events) =~= comments_on(document::macros_in(effects)));
    }
}

/// Something is written of a source to the standard output just if nothing is wrong with it. What
/// is written is a document, and together with it goes a comment on each of the macros that the
/// source defines.
pub proof fn law_standard_output(src: Seq<char>, events: Seq<Event>)
    requires
        translation::show(events, translation::translated(src).effects),
    ensures
        has_error(events) == !document::is_clean(translation::translated(src).effects),
        document::is_document(translation::translated(src).effects),
        output_of(events) == text_of(translation::translated(src).effects),
        comments_of(events) == comments_on(
            document::macros_of(0, translation::source(src), Seq::empty()),
        ),
{
    lemma_shown(events, translation::translated(src).effects);
    document::law_document(src);
    document::law_macros(src);
}

/// A source has to be compiled if and only if it defines a macro.
pub proof fn law_compiled(src: Seq<char>, events: Seq<Event>)
    requires
        translation::show(events, translation::translated(src).effects),
    ensures
        has_macro(events) <==> document::macros_of(
            0,
            translation::source(src),
            Seq::empty(),
        ).len() > 0,
{
    lemma_shown(events, translation::translated(src).effects);
    document::law_macros(src);
}

/// The letters `agda`, each of them small or a capital.
pub open spec fn spells_agda(ext: Seq<u8>) -> bool {
    &&& ext.len() == 4
    &&& ext[0] == 97 || ext[0] == 65
    &&& ext[1] == 103 || ext[1] == 71
    &&& ext[2] == 100 || ext[2] == 68
    &&& ext[3] == 97 || ext[3] == 65
}

/// The letters `lagda`, each of them small or a capital.
pub open spec fn spells_lagda(ext: Seq<u8>) -> bool {
    &&& ext.len() == 5
    &&& ext[0] == 108 || ext[0] == 76
    &&& ext[1] == 97 || ext[1] == 65
    &&& ext[2] == 103 || ext[2] == 71
    &&& ext[3] == 100 || ext[3] == 68
    &&& ext[4] == 97 || ext[4] == 65
}

/// What the extensions are held against.
proof fn lemma_spelling(ext: Seq<u8>)
    ensures
        bytes::same_letters(ext, agda()) <==> spells_agda(ext),
        bytes::same_letters(ext, lagda()) <==> spells_lagda(ext),
{
    bytes::law_same_letters(ext, agda());
    bytes::law_same_letters(ext, lagda());
}

/// Where the last dot of a name is.
proof fn lemma_last_dot(name: Seq<u8>, at: int)
    requires
        -1 <= at < name.len(),
        at >= 0 ==> name[at] == 46,
        forall|k: int| at < k < name.len() ==> #[trigger] name[k] != 46,
    ensures
        last_dot(name) == (if at >= 0 {
            Some(at)
        } else {
            None
        }),
    decreases name.len(),
{
    if name.len() > 0 && at < name.len() - 1 {
        assert(name[name.len() - 1] != 46);
        let less = name.drop_last();
        assert forall|k: int| at < k < less.len() implies #[trigger] less[k] != 46 by {
            assert(less[k] == name[k]);
        }
        lemma_last_dot(less, at);
    }
}

/// A file name falls apart at its last dot: what follows it is the extension. A name without a dot
/// has none, nor one whose only dot comes first, nor the name `..`.
pub proof fn law_split_name(stem: Seq<u8>, ext: Seq<u8>)
    requires
        forall|k: int| 0 <= k < ext.len() ==> #[trigger] ext[k] != 46,
    ensures
        split_name(ext) is None,
        split_name(stem + seq![46u8] + ext) == (if stem.len() == 0 || (stem == seq![46u8]
            && ext.len() == 0) {
            None
        } else {
            Some((stem, ext))
        }),
{
    lemma_last_dot(ext, -1);
    let name = stem + seq![46u8] + ext;
    let at = stem.len() as int;
    assert forall|k: int| at < k < name.len() implies #[trigger] name[k] != 46 by {
        assert(name[k] == ext[k - at - 1]);
    }
    lemma_last_dot(name, at);
    assert(name.take(at) =~= stem);
    assert(name.skip(at + 1) =~= ext);
    let dots = seq![46u8, 46u8];
    if name == dots {
        assert(stem =~= seq![46u8]);
    }
    if stem == seq![46u8] && ext.len() == 0 {
        assert(name =~= dots);
    }
}

/// What is to be done with a file: one whose extension spells `agda` is translated. One whose
/// extension spells `lagda` is copied, and so is any other whose extension but one spells `lagda`.
/// Nothing is to be done with any other, nor with one without an extension. A dot that comes first
/// starts no extension.
#[verifier::rlimit(60)]
pub proof fn law_action(stem: Seq<u8>, second: Seq<u8>, ext: Seq<u8>)
    requires
        forall|k: int| 0 <= k < second.len() ==> #[trigger] second[k] != 46,
        forall|k: int| 0 <= k < ext.len() ==> #[trigger] ext[k] != 46,
    ensures
        action_for(ext) is None,
        action_for(seq![46u8] + ext) is None,
        action_for(second + seq![46u8] + ext) == (if second.len() == 0 {
            None
        } else if spells_agda(ext) {
            Some(FileAction::Translate)
        } else if spells_lagda(ext) {
            Some(FileAction::Copy)
        } else {
            None
        }),
        action_for(stem + seq![46u8] + second + seq![46u8] + ext) == (if spells_agda(ext) {
            Some(FileAction::Translate)
        } else if spells_lagda(ext) || (stem.len() > 0 && spells_lagda(second)) {
            Some(FileAction::Copy)
        } else {
            None
        }),
{
    let none = Seq::<u8>::empty();
    let front = stem + seq![46u8] + second;
    law_split_name(none, ext);
    assert(none + seq![46u8] + ext =~= seq![46u8] + ext);
    law_split_name(second, ext);
    law_split_name(none, second);
    law_split_name(front, ext);
    law_split_name(stem, second);
    assert(front + seq![46u8] + ext =~= stem + seq![46u8] + second + seq![46u8] + ext);
    lemma_spelling(ext);
    lemma_spelling(second);
    if second.len() > 0 {
        assert(second[0] != 46);
        assert(second != seq![46u8]);
    }
    if front == seq![46u8] {
        assert(front.len() == 1);
    }
}

/// The text that puts a compiled file into a document.
pub proof fn law_input_text(path: Seq<char>)
    ensures
        input_text(path) == "\\input{"@ + path + "}\n\n"@,
{
    reveal_strlit("\\");
    reveal_strlit("input");
    reveal_strlit("{");
    reveal_strlit("}");
    reveal_strlit("\n");
    reveal_strlit("\\input{");
    reveal_strlit("}\n\n");
    assert("\\input{"@ =~= "\\"@ + "input"@ + "{"@);
    assert("}\n\n"@ =~= "}"@ + "\n"@ + "\n"@);
    assert(input_text(path) =~= "\\input{"@ + path + "}\n\n"@);
}

/// What events say, one by one: what is written, what is wrong and the comments on macros all stand
/// in the order of the events.
pub proof fn law_event(events: Seq<Event>, event: Event)
    ensures
        output_of(Seq::empty()) == Seq::<char>::empty(),
        errors_of(Seq::empty()) == Seq::<Diagnostic>::empty(),
        comments_of(Seq::empty()) == Seq::<Seq<char>>::empty(),
        output_of(events.push(event)) == (match event {
            Event::Output(s) => output_of(events) + s@,
            _ => output_of(events),
        }),
        errors_of(events.push(event)) == (match event {
            Event::Diagnosed(d) => errors_of(events).push(d),
            _ => errors_of(events),
        }),
        comments_of(events.push(event)) == (match event {
            Event::Defined(m) => comments_of(events).push(
                translation::comment_text(m.name@, m.inline),
            ),
            _ => comments_of(events),
        }),
{
    assert(events.push(event).drop_last() =~= events);
    assert(output_of(events) + Seq::<char>::empty() =~= output_of(events));
}

/// What `actions` write to the translated file.
pub open spec fn written_by(actions: Seq<ActionText>) -> Seq<char>
    decreases actions.len(),
{
    if actions.len() == 0 {
        Seq::empty()
    } else {
        written_by(actions.drop_last()) + match actions.last() {
            ActionText::Write(s) => s,
            _ => Seq::empty(),
        }
    }
}

/// What `actions` report.
pub open spec fn reported_by(actions: Seq<ActionText>) -> Seq<Diagnostic>
    decreases actions.len(),
{
    if actions.len() == 0 {
        Seq::empty()
    } else {
        let before = reported_by(actions.drop_last());
        match actions.last() {
            ActionText::Report(d) => before.push(d),
            _ => before,
        }
    }
}

/// What `actions` write to the file that puts the files of a directory together.
pub open spec fn assembled_by(actions: Seq<ActionText>) -> Seq<Seq<char>>
    decreases actions.len(),
{
    if actions.len() == 0 {
        Seq::empty()
    } else {
        let before = assembled_by(actions.drop_last());
        match actions.last() {
            ActionText::Assemble(s) => before.push(s),
            _ => before,
        }
    }
}

/// One action more.
proof fn lemma_one_action(actions: Seq<ActionText>, action: ActionText)
    ensures
        written_by(actions + seq![action]) == (match action {
            ActionText::Write(s) => written_by(actions) + s,
            _ => written_by(actions),
        }),
        reported_by(actions + seq![action]) == (match action {
            ActionText::Report(d) => reported_by(actions).push(d),
            _ => reported_by(actions),
        }),
        assembled_by(actions + seq![action]) == (match action {
            ActionText::Assemble(s) => assembled_by(actions).push(s),
            _ => assembled_by(actions),
        }),
{
    let more = actions + seq![action];
    assert(more.drop_last() =~= actions);
    assert(more.last() == action);
    assert(written_by(actions) + Seq::<char>::empty() =~= written_by(actions));
}

/// What is done for events.
proof fn lemma_done(events: Seq<Event>, assembling: bool)
    ensures
        written_by(all_actions(events, assembling)) == output_of(events),
        reported_by(all_actions(events, assembling)) == errors_of(events),
        assembled_by(all_actions(events, assembling)) == (if assembling {
            comments_of(events)
        } else {
            Seq::empty()
        }),
    decreases events.len(),
{
    if events.len() > 0 {
        lemma_done(events.drop_last(), assembling);
        let before = all_actions(events.drop_last(), assembling);
        assert(before + Seq::<ActionText>::empty() =~= before);
        let said = output_of(events.drop_last());
        assert(said + Seq::<char>::empty() =~= said);
        match events.last() {
            Event::Output(s) => {
                lemma_one_action(before, ActionText::Write(s@));
            },
            Event::Diagnosed(d) => {
                lemma_one_action(before, ActionText::Report(d));
            },
            Event::Defined(m) => {
                lemma_one_action(
                    before,
                    ActionText::Assemble(translation::comment_text(m@.name, m@.inline)),
                );
            },
        }
    }
}

/// A plan for a translated file writes all output of its translation, and reports all that is
/// wrong. It asks for the file to be compiled just if a macro is defined. Where files are put
/// together, it lists the comments on the macros, and behind them puts in the compiled file if a
/// macro is defined; else it does nothing there.
#[verifier::rlimit(60)]
pub proof fn law_plan(plan: FilePlan, events: Seq<Event>, assembling: bool, tex_path: Seq<char>)
    requires
        plan.follows(events, assembling, tex_path),
    ensures
        ({
            let actions = plan.actions@.map_values(|a: Action| a@);
            let defines = exists|i: int| 0 <= i < events.len() && #[trigger] events[i] is Defined;
            &&& plan.should_compile <==> defines
            &&& written_by(actions) == output_of(events)
            &&& reported_by(actions) == errors_of(events)
            &&& assembled_by(actions) == (if !assembling {
                Seq::empty()
            } else if defines {
                comments_of(events).push("\\input{"@ + tex_path + "}\n\n"@)
            } else {
                comments_of(events)
            })
        }),
{
    let done = all_actions(events, assembling);
    lemma_done(events, assembling);
    law_input_text(tex_path);
    lemma_one_action(done, ActionText::Assemble(input_text(tex_path)));
    assert(done + Seq::<ActionText>::empty() =~= done);
}

/// What is to be done for the effects of a translation is what is to be done for any events that
/// ask for them.
pub proof fn law_actions(events: Seq<Event>, effects: Seq<Effect>, assembling: bool)
    requires
        translation::show(events, effects),
    ensures
        actions_of(effects, assembling) == all_actions(events, assembling),
        written_by(actions_of(effects, assembling)) == output_of(events),
        reported_by(actions_of(effects, assembling)) == errors_of(events),
        assembled_by(actions_of(effects, assembling)) == (if assembling {
            comments_of(events)
        } else {
            Seq::empty()
        }),
{
    lemma_actions(events, effects, assembling);
    lemma_done(events, assembling);
}

/// Something is wrong, or a macro is defined, just if an event says so.
pub proof fn law_kinds(events: Seq<Event>)
    ensures
        has_error(events) <==> errors_of(events).len() > 0,
        has_macro(events) <==> comments_of(events).len() > 0,
    decreases events.len(),
{
    if events.len() > 0 {
        let n = events.len() - 1;
        law_kinds(events.drop_last());
        lemma_has_macro(events, n);
        assert(events.take(n) =~= events.drop_last());
        assert(events.take(n + 1) =~= events);
    }
}

/// A file that was asked for and that nothing can be done with is an error, and nothing else is.
/// One that something can be done with is treated alike whether it was asked for or found.
pub proof fn law_asked_for(
    name: Option<&[u8]>,
    asked: Result<Option<FileAction>, UnknownFile>,
    found: Result<Option<FileAction>, UnknownFile>,
)
    requires
        call_ensures(FileAction::for_file, (name, true), asked),
        call_ensures(FileAction::for_file, (name, false), found),
    ensures
        found is Ok,
        asked is Err <==> found->Ok_0 is None,
        asked is Ok ==> asked->Ok_0 == found->Ok_0,
        name is None ==> found->Ok_0 is None,
        name matches Some(bytes) ==> found->Ok_0 == action_for(bytes@),
{
}

/// A file that is translated gets the extension `lagda.tex`, and one that is copied keeps its own.
/// The words for the two differ.
pub proof fn law_target(action: FileAction, ext: Option<&'static str>, word: &'static str)
    requires
        call_ensures(FileAction::target_extension, (action,), ext),
        call_ensures(FileAction::description, (action,), word),
    ensures
        ext is Some <==> action is Translate,
        ext matches Some(s) ==> s@ == "lagda.tex"@,
        word@ == (if ext is Some {
            "TRANS"@
        } else {
            "COPY"@
        }),
{
}

/// Agda is always asked for LaTeX, and last. To be fast, it is first asked to check nothing but the
/// scopes, and the options are otherwise the same.
pub proof fn law_options(slow: Vec<&'static str>, fast: Vec<&'static str>)
    requires
        call_ensures(agda_options, (false,), slow),
        call_ensures(agda_options, (true,), fast),
    ensures
        slow@.map_values(|s: &'static str| s@) == seq!["--latex"@],
        fast@.map_values(|s: &'static str| s@) == seq!["--only-scope-checking"@] + slow@.map_values(
            |s: &'static str| s@,
        ),
{
    assert(seq!["--only-scope-checking"@, "--latex"@] =~= seq!["--only-scope-checking"@] + seq![
        "--latex"@,
    ]);
}

/// An entry is hidden just if its name starts with a dot.
pub proof fn law_hidden_entry(name: &[u8], r: bool)
    requires
        call_ensures(is_hidden, (name,), r),
    ensures
        r <==> name@.len() > 0 && name@[0] == 46,
{
    if name@.len() > 0 {
        let front = name@.take(1);
        assert(front[0] == name@[0]);
        if name@[0] == 46 {
            assert(front =~= seq![46u8]);
        }
    }
}

/// An entry that was opened is kept, whatever is said of an error. An error is passed on unless it
/// is due to a symbolic link, and then the entry is left alone.
pub proof fn law_entry<F, E>(
    opened: Result<F, E>,
    is_loop: bool,
    r: Result<Option<F>, E>,
    raw: Option<i32>,
    s: Result<Option<F>, E>,
)
    requires
        call_ensures(skip_loop::<F, E>, (opened, is_loop), r),
        call_ensures(entry_opened::<F, E>, (opened, raw), s),
    ensures
        opened matches Ok(file) ==> r == Ok::<Option<F>, E>(Some(file)) && s == Ok::<Option<F>, E>(
            Some(file),
        ),
        opened matches Err(e) ==> {
            &&& r is Err <==> !is_loop
            &&& r is Err ==> r == Err::<Option<F>, E>(e)
            &&& r is Ok ==> r == Ok::<Option<F>, E>(None)
            &&& s is Err ==> s == Err::<Option<F>, E>(e)
            &&& s is Ok ==> s == Ok::<Option<F>, E>(None)
            &&& raw is None || raw == Some(0i32) ==> s is Err
        },
{
}

} // verus!
