//! LaTeX code put together from string slices.
//!
//! The number of slices is part of the type, so that a piece of LaTeX code needs no allocation
//! until it is written.
use std::marker::PhantomData;

use vstd::prelude::*;
use vstd::utf8::*;

use crate::text;

verus! {

/// One slice behind others.
pub struct SliceArray<'s, Init> {
    init: Init,
    last: &'s str,
}

/// A natural number, as the number of slices in a piece of LaTeX code.
pub trait Nat: Sized {
    /// The number.
    const VALUE: usize;

    /// That many slices.
    type Bufs<'s>;

    /// What the slices hold, first to last.
    spec fn texts<'s>(bufs: Self::Bufs<'s>) -> Seq<Seq<char>>;

    /// The slices in a vector.
    fn mk_bufs<'a, 's>(bufs: &'a Self::Bufs<'s>) -> (r: Vec<&'s str>)
        ensures
            r@.map_values(|s: &'s str| s@) == Self::texts(*bufs),
    ;

    /// The same slices once more.
    fn clone_bufs<'a, 's>(bufs: &'a Self::Bufs<'s>) -> (r: Self::Bufs<'s>)
        ensures
            Self::texts(r) == Self::texts(*bufs),
    ;

    /// There are as many slices as the number says.
    proof fn law_value<'s>(bufs: Self::Bufs<'s>)
        requires
            Self::texts(bufs).len() <= usize::MAX,
        ensures
            Self::texts(bufs).len() == Self::VALUE,
    ;
}

/// Zero.
pub struct Z;

/// The number behind `N`.
pub struct S<N>(PhantomData<N>);

impl Nat for Z {
    const VALUE: usize = 0;

    type Bufs<'s> = ();

    closed spec fn texts<'s>(bufs: Self::Bufs<'s>) -> Seq<Seq<char>> {
        Seq::empty()
    }

    fn mk_bufs<'a, 's>(bufs: &'a Self::Bufs<'s>) -> (r: Vec<&'s str>) {
        let r: Vec<&'s str> = Vec::new();
        assert(r@.map_values(|s: &'s str| s@) =~= Self::texts(*bufs));
        r
    }

    fn clone_bufs<'a, 's>(bufs: &'a Self::Bufs<'s>) -> (r: Self::Bufs<'s>) {
        ()
    }

    proof fn law_value<'s>(bufs: Self::Bufs<'s>) {
    }
}

impl<N: Nat> Nat for S<N> {
    const VALUE: usize = N::VALUE + 1;

    type Bufs<'s> = SliceArray<'s, N::Bufs<'s>>;

    closed spec fn texts<'s>(bufs: Self::Bufs<'s>) -> Seq<Seq<char>> {
        N::texts(bufs.init).push(bufs.last@)
    }

    fn mk_bufs<'a, 's>(bufs: &'a Self::Bufs<'s>) -> (r: Vec<&'s str>) {
        let mut r = N::mk_bufs(&bufs.init);
        r.push(bufs.last);
        assert(r@.map_values(|s: &'s str| s@) =~= Self::texts(*bufs));
        r
    }

    fn clone_bufs<'a, 's>(bufs: &'a Self::Bufs<'s>) -> (r: Self::Bufs<'s>) {
        SliceArray { init: N::clone_bufs(&bufs.init), last: bufs.last }
    }

    proof fn law_value<'s>(bufs: Self::Bufs<'s>) {
        N::law_value(bufs.init);
    }
}

/// Two more than `N`.
pub type Add2<N> = S<S<N>>;

/// Three more than `N`.
pub type Add3<N> = S<Add2<N>>;

/// Five more than `N`.
pub type Add5<N> = Add2<Add3<N>>;

/// A pair of brackets.
pub struct Group {
    pub open: &'static str,
    pub close: &'static str,
}

impl Group {
    /// The brackets around what belongs together.
    pub fn tex() -> (r: Group)
        ensures
            r.open@ == "{"@,
            r.close@ == "}"@,
    {
        Group { open: "{", close: "}" }
    }

    /// The brackets around an optional argument.
    pub fn opt() -> (r: Group)
        ensures
            r.open@ == "["@,
            r.close@ == "]"@,
    {
        Group { open: "[", close: "]" }
    }
}

/// A piece of LaTeX code made of `N` slices.
pub struct Ltx<'s, N: Nat> {
    slices: N::Bufs<'s>,
}

impl<'s, N: Nat> View for Ltx<'s, N> {
    type V = Seq<Seq<char>>;

    /// What the slices hold, first to last.
    closed spec fn view(&self) -> Seq<Seq<char>> {
        N::texts(self.slices)
    }
}

impl<'s> Ltx<'s, Z> {
    /// No code.
    pub fn new() -> (r: Self)
        ensures
            r@ == Seq::<Seq<char>>::empty(),
    {
        Ltx { slices: () }
    }
}

impl<'s> Default for Ltx<'s, Z> {
    fn default() -> (r: Self)
        ensures
            r@ == Seq::<Seq<char>>::empty(),
    {
        Self::new()
    }
}

impl<'s, N: Nat> Clone for Ltx<'s, N> {
    fn clone(&self) -> (r: Self)
        ensures
            r@ == self@,
    {
        Ltx { slices: N::clone_bufs(&self.slices) }
    }
}

/// `code` with a LaTeX command behind it.
pub open spec fn with_command(code: Seq<Seq<char>>, cmd: Seq<char>) -> Seq<Seq<char>> {
    code.push("\\"@).push(cmd)
}

/// `code` with an argument in braces behind it.
pub open spec fn with_argument(code: Seq<Seq<char>>, inner: Seq<char>) -> Seq<Seq<char>> {
    code.push("{"@).push(inner).push("}"@)
}

/// `code` with an optional argument behind it.
pub open spec fn with_option(code: Seq<Seq<char>>, inner: Seq<char>) -> Seq<Seq<char>> {
    code.push("["@).push(inner).push("]"@)
}

/// `code` with the start of an environment behind it.
pub open spec fn with_begin(code: Seq<Seq<char>>, env: Seq<char>) -> Seq<Seq<char>> {
    with_argument(with_command(code, "begin"@), env)
}

/// `code` with the end of an environment behind it.
pub open spec fn with_end(code: Seq<Seq<char>>, env: Seq<char>) -> Seq<Seq<char>> {
    with_argument(with_command(code, "end"@), env)
}

/// The text of a LaTeX command.
pub open spec fn command_text(cmd: Seq<char>) -> Seq<char> {
    "\\"@ + cmd
}

/// The text of an argument in braces.
pub open spec fn argument_text(inner: Seq<char>) -> Seq<char> {
    "{"@ + inner + "}"@
}

/// The text of an optional argument.
pub open spec fn option_text(inner: Seq<char>) -> Seq<char> {
    "["@ + inner + "]"@
}

/// The text that starts an environment.
pub open spec fn begin_text(env: Seq<char>) -> Seq<char> {
    command_text("begin"@) + argument_text(env)
}

/// The text that ends an environment.
pub open spec fn end_text(env: Seq<char>) -> Seq<char> {
    command_text("end"@) + argument_text(env)
}

/// What is appended to a piece of LaTeX code is appended to its text.
#[verifier::rlimit(60)]
pub proof fn law_text(code: Seq<Seq<char>>, s: Seq<char>)
    ensures
        text::joined(code.push(s)) == text::joined(code) + s,
        text::joined(with_command(code, s)) == text::joined(code) + command_text(s),
        text::joined(with_argument(code, s)) == text::joined(code) + argument_text(s),
        text::joined(with_option(code, s)) == text::joined(code) + option_text(s),
        text::joined(with_begin(code, s)) == text::joined(code) + begin_text(s),
        text::joined(with_end(code, s)) == text::joined(code) + end_text(s),
{
    text::lemma_joined_push(code, s);
    lemma_command_text(code, s);
    lemma_group_text(code, "{"@, s, "}"@);
    lemma_group_text(code, "["@, s, "]"@);
    lemma_command_text(code, "begin"@);
    lemma_group_text(with_command(code, "begin"@), "{"@, s, "}"@);
    lemma_command_text(code, "end"@);
    lemma_group_text(with_command(code, "end"@), "{"@, s, "}"@);
    assert(text::joined(with_begin(code, s)) =~= text::joined(code) + begin_text(s));
    assert(text::joined(with_end(code, s)) =~= text::joined(code) + end_text(s));
}

/// The text of a command behind other code.
proof fn lemma_command_text(code: Seq<Seq<char>>, cmd: Seq<char>)
    ensures
        text::joined(with_command(code, cmd)) == text::joined(code) + command_text(cmd),
{
    text::lemma_joined_push(code, "\\"@);
    text::lemma_joined_push(code.push("\\"@), cmd);
    assert(text::joined(with_command(code, cmd)) =~= text::joined(code) + command_text(cmd));
}

/// The text of something in brackets behind other code.
proof fn lemma_group_text(
    code: Seq<Seq<char>>,
    open: Seq<char>,
    inner: Seq<char>,
    close: Seq<char>,
)
    ensures
        text::joined(code.push(open).push(inner).push(close)) == text::joined(code) + (open + inner
            + close),
{
    text::lemma_joined_push(code, open);
    text::lemma_joined_push(code.push(open), inner);
    text::lemma_joined_push(code.push(open).push(inner), close);
    assert(text::joined(code) + open + inner + close =~= text::joined(code) + (open + inner
        + close));
}

impl<'s, N: Nat> Ltx<'s, N> {
    /// Appends `s`.
    pub fn push(self, s: &'s str) -> (r: Ltx<'s, S<N>>)
        ensures
            r@ == self@.push(s@),
    {
        Ltx { slices: SliceArray { init: self.slices, last: s } }
    }

    /// Ends the line.
    pub fn ln(self) -> (r: Ltx<'s, S<N>>)
        ensures
            r@ == self@.push("\n"@),
    {
        self.push("\n")
    }

    /// Ends the line so that LaTeX sees no space there.
    pub fn pctln(self) -> (r: Ltx<'s, S<N>>)
        ensures
            r@ == self@.push("%\n"@),
    {
        self.push("%\n")
    }

    /// Ends the paragraph.
    pub fn par(self) -> (r: Ltx<'s, Add2<N>>)
        ensures
            r@ == self@.push("\n"@).push("\n"@),
    {
        self.ln().ln()
    }

    /// Appends a command.
    pub fn command(self, cmd: &'s str) -> (r: Ltx<'s, Add2<N>>)
        ensures
            r@ == with_command(self@, cmd@),
    {
        self.push("\\").push(cmd)
    }

    /// Appends an argument in braces.
    pub fn group(self, inner: &'s str) -> (r: Ltx<'s, Add3<N>>)
        ensures
            r@ == with_argument(self@, inner@),
    {
        self.with_group(
            Group::tex(),
            |ltx: Ltx<'s, S<N>>| -> (m: Ltx<'s, Add2<N>>)
                ensures
                    m@ == ltx@.push(inner@)
                { ltx.push(inner) },
        )
    }

    /// Appends an optional argument.
    pub fn opt(self, inner: &'s str) -> (r: Ltx<'s, Add3<N>>)
        ensures
            r@ == with_option(self@, inner@),
    {
        self.with_group(
            Group::opt(),
            |ltx: Ltx<'s, S<N>>| -> (m: Ltx<'s, Add2<N>>)
                ensures
                    m@ == ltx@.push(inner@)
                { ltx.push(inner) },
        )
    }

    /// Appends what `f` makes, between the brackets of `group`.
    pub fn with_group<M: Nat, F: FnOnce(Ltx<'s, S<N>>) -> Ltx<'s, M>>(
        self,
        group: Group,
        f: F,
    ) -> (r: Ltx<'s, S<M>>)
        requires
            forall|ltx: Ltx<'s, S<N>>|
                ltx@ == self@.push(group.open@) ==> call_requires(f, (ltx,)),
        ensures
            exists|ltx: Ltx<'s, S<N>>, inner: Ltx<'s, M>|
                {
                    &&& ltx@ == self@.push(group.open@)
                    &&& #[trigger] call_ensures(f, (ltx,), inner)
                    &&& r@ == inner@.push(group.close@)
                },
    {
        f(self.push(group.open)).push(group.close)
    }

    /// Starts an environment with an optional argument.
    pub fn begin(self, env: &'s str, arg: &'s str) -> (r: Ltx<'s, Add3<Add5<N>>>)
        ensures
            r@ == with_option(with_begin(self@, env@), arg@),
    {
        self.command("begin").group(env).opt(arg)
    }

    /// Starts an environment.
    pub fn begin_(self, env: &'s str) -> (r: Ltx<'s, Add5<N>>)
        ensures
            r@ == with_begin(self@, env@),
    {
        self.command("begin").group(env)
    }

    /// Ends an environment.
    pub fn end(self, env: &'s str) -> (r: Ltx<'s, Add5<N>>)
        ensures
            r@ == with_end(self@, env@),
    {
        self.command("end").group(env)
    }

    /// Appends an environment around what `f` makes.
    pub fn with_env<M: Nat, F: FnOnce(Ltx<'s, Add5<N>>) -> Ltx<'s, M>>(
        self,
        env: &'s str,
        f: F,
    ) -> (r: Ltx<'s, Add5<M>>)
        requires
            forall|ltx: Ltx<'s, Add5<N>>|
                ltx@ == with_begin(self@, env@) ==> call_requires(f, (ltx,)),
        ensures
            exists|ltx: Ltx<'s, Add5<N>>, inner: Ltx<'s, M>|
                {
                    &&& ltx@ == with_begin(self@, env@)
                    &&& #[trigger] call_ensures(f, (ltx,), inner)
                    &&& r@ == with_end(inner@, env@)
                },
    {
        f(self.begin_(env)).end(env)
    }

    /// Appends a line with a comment that `f` makes.
    pub fn with_comment<M: Nat, F: FnOnce(Ltx<'s, S<N>>) -> Ltx<'s, M>>(
        self,
        f: F,
    ) -> (r: Ltx<'s, S<M>>)
        requires
            forall|ltx: Ltx<'s, S<N>>| ltx@ == self@.push("% "@) ==> call_requires(f, (ltx,)),
        ensures
            exists|ltx: Ltx<'s, S<N>>, inner: Ltx<'s, M>|
                {
                    &&& ltx@ == self@.push("% "@)
                    &&& #[trigger] call_ensures(f, (ltx,), inner)
                    &&& r@ == inner@.push("\n"@)
                },
    {
        f(self.push("% ")).ln()
    }

    /// The slices, first to last.
    fn iter(&self) -> (r: Vec<&'s str>)
        ensures
            r@.map_values(|s: &'s str| s@) == self@,
    {
        N::mk_bufs(&self.slices)
    }

    /// Appends the bytes of the code to `writer`.
    pub fn write(self, writer: &mut Vec<u8>)
        ensures
            final(writer)@ == old(writer)@ + encode_utf8(text::joined(self@)),
    {
        let bufs = self.iter();
        let ghost texts = bufs@.map_values(|s: &'s str| s@);
        let mut i: usize = 0;
        assert(text::joined(texts.take(0)) =~= Seq::<char>::empty());
        assert(writer@ =~= old(writer)@ + encode_utf8(text::joined(texts.take(0))));
        while i < bufs.len()
            invariant
                i <= bufs@.len(),
                texts == bufs@.map_values(|s: &'s str| s@),
                texts == self@,
                writer@ == old(writer)@ + encode_utf8(text::joined(texts.take(i as int))),
            decreases bufs@.len() - i,
        {
            let bytes = bufs[i].as_bytes();
            writer.extend_from_slice(bytes);
            proof {
                let part = texts.take(i + 1);
                assert(part.drop_last() =~= texts.take(i as int));
                assert(part.last() == bufs@[i as int]@);
                text::lemma_encode_concat(text::joined(texts.take(i as int)), part.last());
                assert(writer@ =~= old(writer)@ + encode_utf8(text::joined(part)));
            }
            i = i + 1;
        }
        assert(texts.take(i as int) =~= texts);
    }

    /// Appends the code to `writer`.
    pub fn write_fmt(self, writer: &mut String)
        ensures
            final(writer)@ == old(writer)@ + text::joined(self@),
    {
        let bufs = self.iter();
        let ghost texts = bufs@.map_values(|s: &'s str| s@);
        let mut i: usize = 0;
        assert(writer@ =~= old(writer)@ + text::joined(texts.take(0)));
        while i < bufs.len()
            invariant
                i <= bufs@.len(),
                texts == bufs@.map_values(|s: &'s str| s@),
                texts == self@,
                writer@ == old(writer)@ + text::joined(texts.take(i as int)),
            decreases bufs@.len() - i,
        {
            writer.append(bufs[i]);
            proof {
                let part = texts.take(i + 1);
                assert(part.drop_last() =~= texts.take(i as int));
                assert(writer@ =~= old(writer)@ + text::joined(part));
            }
            i = i + 1;
        }
        assert(texts.take(i as int) =~= texts);
    }

    /// The code as a string.
    pub fn to_string(self) -> (r: String)
        ensures
            r@ == text::joined(self@),
    {
        let mut r = String::new();
        self.write_fmt(&mut r);
        assert(r@ =~= text::joined(self@));
        r
    }
}

/// The text of LaTeX code: a command is a backslash and its name, an argument stands in braces, an
/// option in brackets, and an environment is started and ended by `\\begin` and `\\end`.
#[verifier::rlimit(60)]
pub proof fn law_latex(code: Seq<Seq<char>>, s: Seq<char>)
    ensures
        text::joined(with_command(code, s)) == text::joined(code) + seq!['\\'] + s,
        text::joined(with_argument(code, s)) == text::joined(code) + seq!['{'] + s + seq!['}'],
        text::joined(with_option(code, s)) == text::joined(code) + seq!['['] + s + seq![']'],
        text::joined(with_begin(code, s)) == text::joined(code) + seq![
            '\\',
            'b',
            'e',
            'g',
            'i',
            'n',
            '{',
        ] + s + seq!['}'],
        text::joined(with_end(code, s)) == text::joined(code) + seq!['\\', 'e', 'n', 'd', '{'] + s
            + seq!['}'],
        with_command(code, s).len() == code.len() + 2,
        with_argument(code, s).len() == code.len() + 3,
        with_option(code, s).len() == code.len() + 3,
        with_begin(code, s).len() == code.len() + 5,
        with_end(code, s).len() == code.len() + 5,
{
    reveal_strlit("\\");
    reveal_strlit("{");
    reveal_strlit("}");
    reveal_strlit("[");
    reveal_strlit("]");
    reveal_strlit("begin");
    reveal_strlit("end");
    law_text(code, s);
    assert("\\"@ =~= seq!['\\']);
    assert("{"@ =~= seq!['{']);
    assert("}"@ =~= seq!['}']);
    assert("["@ =~= seq!['[']);
    assert("]"@ =~= seq![']']);
    let before = text::joined(code);
    assert(text::joined(with_command(code, s)) =~= before + seq!['\\'] + s);
    assert(text::joined(with_argument(code, s)) =~= before + seq!['{'] + s + seq!['}']);
    assert(text::joined(with_option(code, s)) =~= before + seq!['['] + s + seq![']']);
    assert("\\"@ + "begin"@ + "{"@ =~= seq!['\\', 'b', 'e', 'g', 'i', 'n', '{']);
    assert("\\"@ + "end"@ + "{"@ =~= seq!['\\', 'e', 'n', 'd', '{']);
    assert(text::joined(with_begin(code, s)) =~= before + ("\\"@ + "begin"@ + "{"@) + s + seq!['}']);
    assert(text::joined(with_end(code, s)) =~= before + ("\\"@ + "end"@ + "{"@) + s + seq!['}']);
}

/// What is appended to LaTeX code stands behind its text, and the text is what is written.
#[verifier::rlimit(60)]
pub proof fn law_append<'s, N: Nat>(
    code: Ltx<'s, N>,
    s: &'s str,
    pushed: Ltx<'s, S<N>>,
    ended: Ltx<'s, S<N>>,
    joined_up: Ltx<'s, S<N>>,
    paragraph: Ltx<'s, Add2<N>>,
    out: String,
)
    requires
        call_ensures(Ltx::<'s, N>::push, (code, s), pushed),
        call_ensures(Ltx::<'s, N>::ln, (code,), ended),
        call_ensures(Ltx::<'s, N>::pctln, (code,), joined_up),
        call_ensures(Ltx::<'s, N>::par, (code,), paragraph),
        call_ensures(Ltx::<'s, S<N>>::to_string, (pushed,), out),
    ensures
        out@ == text::joined(code@) + s@,
        text::joined(pushed@) == text::joined(code@) + s@,
        text::joined(ended@) == text::joined(code@) + seq!['\n'],
        text::joined(joined_up@) == text::joined(code@) + seq!['%', '\n'],
        text::joined(paragraph@) == text::joined(code@) + seq!['\n', '\n'],
{
    reveal_strlit("\n");
    reveal_strlit("%\n");
    law_text(code@, s@);
    law_text(code@, "\n"@);
    law_text(code@, "%\n"@);
    law_text(code@.push("\n"@), "\n"@);
    assert("\n"@ =~= seq!['\n']);
    assert("%\n"@ =~= seq!['%', '\n']);
    assert(text::joined(paragraph@) =~= text::joined(code@) + seq!['\n', '\n']);
}

/// The text of commands, arguments and environments that are appended.
#[verifier::rlimit(60)]
pub proof fn law_append_command<'s, N: Nat>(
    code: Ltx<'s, N>,
    s: &'s str,
    arg: &'s str,
    command: Ltx<'s, Add2<N>>,
    group: Ltx<'s, Add3<N>>,
    opt: Ltx<'s, Add3<N>>,
    begin: Ltx<'s, Add3<Add5<N>>>,
    end: Ltx<'s, Add5<N>>,
)
    requires
        call_ensures(Ltx::<'s, N>::command, (code, s), command),
        call_ensures(Ltx::<'s, N>::group, (code, s), group),
        call_ensures(Ltx::<'s, N>::opt, (code, s), opt),
        call_ensures(Ltx::<'s, N>::begin, (code, s, arg), begin),
        call_ensures(Ltx::<'s, N>::end, (code, s), end),
    ensures
        text::joined(command@) == text::joined(code@) + seq!['\\'] + s@,
        text::joined(group@) == text::joined(code@) + seq!['{'] + s@ + seq!['}'],
        text::joined(opt@) == text::joined(code@) + seq!['['] + s@ + seq![']'],
        text::joined(begin@) == text::joined(code@) + seq!['\\', 'b', 'e', 'g', 'i', 'n', '{'] + s@
            + seq!['}'] + seq!['['] + arg@ + seq![']'],
        text::joined(end@) == text::joined(code@) + seq!['\\', 'e', 'n', 'd', '{'] + s@ + seq!['}'],
{
    law_latex(code@, s@);
    law_latex(with_begin(code@, s@), arg@);
}

} // verus!
