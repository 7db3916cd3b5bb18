//! The outline of a source: what its lines are, and what is open in front of each of them.
//!
//! This is told by the lines alone, without going through a translation.
use vstd::prelude::*;

use crate::command;
use crate::command::{CommandText, ParsedText};
use crate::lines;
use crate::span_str;
use crate::span_str::{Span, SpanText};
use crate::text;
use crate::translation;

verus! {

/// The lines of a source.
pub open spec fn source_lines(src: Seq<char>) -> Seq<SpanText> {
    span_str::span_lines(translation::source(src))
}

/// A line of nothing but white space.
pub open spec fn blank(line: SpanText) -> bool {
    forall|k: int| 0 <= k < line.text.len() ==> text::white_space(#[trigger] line.text[k])
}

/// The annotation that a line is, if it is one.
pub open spec fn command_in(line: SpanText) -> Option<CommandText> {
    match command::parsed(line.trim()) {
        ParsedText::Command { command, .. } => Some(command),
        _ => None,
    }
}

/// A line of code: neither blank nor an annotation.
pub open spec fn is_code(line: SpanText) -> bool {
    !blank(line) && command_in(line) is None
}

/// An annotation that starts a macro.
pub open spec fn starts_macro(line: SpanText) -> bool {
    command_in(line) matches Some(CommandText::MacroStart { .. })
}

/// An annotation that starts a macro without a brace.
pub open spec fn starts_unbraced(line: SpanText) -> bool {
    command_in(line) matches Some(CommandText::MacroStart { auto_close, .. }) && auto_close
}

/// An annotation that starts an inline macro.
pub open spec fn starts_inline(line: SpanText) -> bool {
    command_in(line) matches Some(CommandText::MacroStart { inline, .. }) && inline
}

/// An annotation that ends a macro.
pub open spec fn ends_macro(line: SpanText) -> bool {
    command_in(line) matches Some(CommandText::MacroEnd(_))
}

/// The bytes of the annotation that a line is.
pub open spec fn command_span(line: SpanText) -> Span {
    command_in(line)->0.span()
}

/// The macro that line `j` starts is open in front of line `i`: between them stands no start of
/// another macro, no end of a macro and, where the macro was started without a brace, no blank
/// line.
pub open spec fn open_macro(lines: Seq<SpanText>, j: int, i: int) -> bool {
    &&& 0 <= j < i
    &&& starts_macro(lines[j])
    &&& forall|k: int|
        j < k < i ==> {
            &&& !starts_macro(#[trigger] lines[k])
            &&& !ends_macro(lines[k])
            &&& !(starts_unbraced(lines[j]) && blank(lines[k]))
        }
}

/// A macro is open in front of line `i`.
pub open spec fn in_macro(lines: Seq<SpanText>, i: int) -> bool {
    exists|j: int| open_macro(lines, j, i)
}

/// A hidden environment outside of macros is open in front of line `i`: some line of code outside
/// of macros comes before, and no macro starts behind it.
pub open spec fn in_hidden(lines: Seq<SpanText>, i: int) -> bool {
    exists|k: int| #[trigger] hidden_from(lines, k, i)
}

/// Line `k` is a line of code outside of macros, and no macro starts between it and line `i`.
pub open spec fn hidden_from(lines: Seq<SpanText>, k: int, i: int) -> bool {
    &&& 0 <= k < i
    &&& is_code(lines[k])
    &&& !in_macro(lines, k)
    &&& forall|l: int| k < l < i ==> !starts_macro(#[trigger] lines[l])
}

/// The numbers of the lines that started the parts that are hidden at line `i`, outermost first. A
/// macro that starts inside of another ends all of them.
pub open spec fn hidden_parts(lines: Seq<SpanText>, i: int) -> Seq<int>
    decreases i,
{
    if i <= 0 {
        Seq::empty()
    } else {
        let before = hidden_parts(lines, i - 1);
        match command_in(lines[i - 1]) {
            Some(CommandText::HideStart(_)) => before.push(i - 1),
            Some(CommandText::HideEnd(_)) => if before.len() > 0 {
                before.drop_last()
            } else {
                before
            },
            Some(CommandText::MacroStart { .. }) => if in_macro(lines, i - 1) {
                Seq::empty()
            } else {
                before
            },
            _ => before,
        }
    }
}

/// A part that is hidden is open at line `i`.
pub open spec fn in_hidden_part(lines: Seq<SpanText>, i: int) -> bool {
    hidden_parts(lines, i).len() > 0
}

/// The names of the namespaces that are open at line `i`, outermost first.
pub open spec fn namespaces_at(lines: Seq<SpanText>, i: int) -> Seq<Seq<char>>
    decreases i,
{
    if i <= 0 {
        Seq::empty()
    } else {
        let before = namespaces_at(lines, i - 1);
        match command_in(lines[i - 1]) {
            Some(CommandText::NamespaceOpen { name, .. }) => before.push(name.text),
            Some(CommandText::NamespaceClose(_)) => if before.len() > 0 {
                before.drop_last()
            } else {
                before
            },
            _ => before,
        }
    }
}

/// Whether the environment is hidden that is open in front of line `i` in the macro that line `j`
/// starts, if one is: it was opened for the last line before `i` that is no annotation.
pub open spec fn environment_at(lines: Seq<SpanText>, j: int, i: int) -> Option<bool>
    decreases i - j,
{
    if i <= j + 1 {
        None
    } else if command_in(lines[i - 1]) is None {
        Some(in_hidden_part(lines, i - 1))
    } else {
        environment_at(lines, j, i - 1)
    }
}

/// Where the lines stand that belong to the macro that line `j` starts, up to line `i`: from the
/// first to the last of those that are no annotations.
pub open spec fn body_at(lines: Seq<SpanText>, j: int, i: int) -> Option<Span>
    decreases i - j,
{
    if i <= j + 1 {
        None
    } else {
        let before = body_at(lines, j, i - 1);
        if command_in(lines[i - 1]) is Some {
            before
        } else {
            let span = lines[i - 1].span();
            match before {
                None => Some(span),
                Some(body) => Some(span_str::span_of(body.start as int, span.end as int)),
            }
        }
    }
}

/// Line `k` closes the macro that line `j` starts, as a start of another macro, as an end of a
/// macro or as a blank line.
pub open spec fn closes(lines: Seq<SpanText>, j: int, k: int) -> bool {
    &&& open_macro(lines, j, k)
    &&& {
        ||| starts_macro(lines[k])
        ||| ends_macro(lines[k])
        ||| starts_unbraced(lines[j]) && blank(lines[k])
    }
}

/// The last macro that was closed before line `i`, if it was started without a brace and closed by
/// an end or a blank line: from its start to what closed it.
pub open spec fn last_unbraced(lines: Seq<SpanText>, i: int) -> Option<Span>
    decreases i,
{
    if i <= 0 {
        None
    } else {
        unbraced_behind(lines, i - 1, last_unbraced(lines, i - 1))
    }
}

/// What the last such macro is behind line `k`, where it is `before` in front of it.
pub open spec fn unbraced_behind(
    lines: Seq<SpanText>,
    k: int,
    before: Option<Span>,
) -> Option<Span> {
    if exists|j: int| closes(lines, j, k) {
        let j = choose|j: int| closes(lines, j, k);
        if starts_macro(lines[k]) || !starts_unbraced(lines[j]) {
            None
        } else {
            let end = if ends_macro(lines[k]) {
                command_span(lines[k]).end
            } else {
                lines[k].span().end
            };
            Some(span_str::span_of(command_span(lines[j]).start as int, end as int))
        }
    } else {
        before
    }
}

/// At most one macro is open.
pub proof fn law_one_macro(lines: Seq<SpanText>, a: int, b: int, i: int)
    requires
        open_macro(lines, a, i),
        open_macro(lines, b, i),
    ensures
        a == b,
{
    if a < b {
        assert(!starts_macro(lines[b]));
    } else if b < a {
        assert(!starts_macro(lines[a]));
    }
}

/// A line is blank just if nothing is left of it without the white space around it.
pub proof fn law_blank(line: SpanText)
    ensures
        blank(line) <==> line.trim().text.len() == 0,
        blank(line) ==> command_in(line) is None,
{
    span_str::law_trim(line);
    let t = line.trim();
    let (a, b) = choose|a: int, b: int|
        {
            &&& 0 <= a <= b <= line.text.len()
            &&& t.text == #[trigger] line.text.subrange(a, b)
            &&& t.start == line.start + text::byte_len(line.text.take(a))
            &&& forall|j: int|
                0 <= j < a || b <= j < line.text.len() ==> text::white_space(
                    #[trigger] line.text[j],
                )
        };
    if t.text.len() == 0 {
        assert(a == b);
        reveal_strlit("--!");
    } else {
        assert(t.text[0] == line.text[a]);
    }
}

/// What a macro that is open in front of a line becomes behind it.
pub(crate) proof fn lemma_open_step(lines: Seq<SpanText>, i: int)
    requires
        0 <= i,
    ensures
        forall|j: int|
            #[trigger] open_macro(lines, j, i + 1) <==> if starts_macro(lines[i]) {
                j == i
            } else {
                &&& open_macro(lines, j, i)
                &&& !ends_macro(lines[i])
                &&& !(starts_unbraced(lines[j]) && blank(lines[i]))
            },
{
    assert forall|j: int| true implies #[trigger] open_macro(lines, j, i + 1) == (if starts_macro(
        lines[i],
    ) {
        j == i
    } else {
        &&& open_macro(lines, j, i)
        &&& !ends_macro(lines[i])
        &&& !(starts_unbraced(lines[j]) && blank(lines[i]))
    }) by {
        if open_macro(lines, j, i + 1) {
            if j < i {
                assert(!starts_macro(lines[i]));
                assert(open_macro(lines, j, i));
            }
        } else if j == i && starts_macro(lines[i]) {
            assert(open_macro(lines, j, i + 1));
        } else if open_macro(lines, j, i) && !starts_macro(lines[i]) && !ends_macro(lines[i])
            && !(starts_unbraced(lines[j]) && blank(lines[i])) {
            assert(open_macro(lines, j, i + 1));
        }
    }
}

/// What an open hidden environment becomes behind a line.
pub(crate) proof fn lemma_hidden_step(lines: Seq<SpanText>, i: int)
    requires
        0 <= i,
    ensures
        in_hidden(lines, i + 1) <==> !starts_macro(lines[i]) && (in_hidden(lines, i) || (is_code(
            lines[i],
        ) && !in_macro(lines, i))),
{
    if in_hidden(lines, i + 1) {
        let k = choose|k: int| #[trigger] hidden_from(lines, k, i + 1);
        if k < i {
            assert(!starts_macro(lines[i]));
            assert(hidden_from(lines, k, i));
        }
    }
    if !starts_macro(lines[i]) && in_hidden(lines, i) {
        let k = choose|k: int| #[trigger] hidden_from(lines, k, i);
        assert(hidden_from(lines, k, i + 1));
    }
    if is_code(lines[i]) && !in_macro(lines, i) {
        assert(hidden_from(lines, i, i + 1));
    }
}

/// A macro and a hidden environment outside of macros are not open at once.
pub proof fn law_hidden_outside(lines: Seq<SpanText>, i: int)
    requires
        0 <= i,
    ensures
        !(in_macro(lines, i) && in_hidden(lines, i)),
    decreases i,
{
    if i == 0 {
        assert(!in_macro(lines, 0)) by {
            if in_macro(lines, 0) {
                let j = choose|j: int| open_macro(lines, j, 0);
                assert(0 <= j < 0);
            }
        }
    } else {
        law_hidden_outside(lines, i - 1);
        lemma_open_step(lines, i - 1);
        lemma_hidden_step(lines, i - 1);
        if in_macro(lines, i) && in_hidden(lines, i) {
            let j = choose|j: int| open_macro(lines, j, i);
            assert(open_macro(lines, j, i - 1 + 1));
            assert(open_macro(lines, j, i - 1));
        }
    }
}

/// The lines stand one behind the other, at places that can be counted.
pub open spec fn in_order(lines: Seq<SpanText>) -> bool {
    &&& forall|a: int| 0 <= a < lines.len() ==> (#[trigger] lines[a]).fits()
    &&& forall|a: int, b: int|
        0 <= a < b < lines.len() ==> (#[trigger] lines[a]).end() <= (#[trigger] lines[b]).start
}

/// The lines of a text stand inside of it, one behind the other.
proof fn lemma_in_order(s: SpanText)
    requires
        s.fits(),
    ensures
        in_order(span_str::span_lines(s)),
        forall|a: int|
            0 <= a < span_str::span_lines(s).len() ==> s.start <= (#[trigger] span_str::span_lines(
                s,
            )[a]).start && span_str::span_lines(s)[a].end() <= s.end(),
    decreases s.text.len(),
{
    let all = span_str::span_lines(s);
    if s.text.len() > 0 {
        let (line, rest) = span_str::first_line(s);
        let n = lines::line_len(s.text) as int;
        text::lemma_leading_bound(s.text, text::not_newline());
        if n < s.text.len() {
            span_str::law_cut_keeps_place(s, n);
            span_str::law_cut_keeps_place(s, n + 1);
            text::lemma_byte_len_step(s.text, n);
            let whole = s.text.take(n);
            if whole.len() > 0 && whole.last() == '\r' {
                text::lemma_byte_len_split(whole, n - 1);
                assert(whole.drop_last() =~= whole.take(n - 1));
            }
        } else {
            span_str::law_cut_keeps_place(s, s.text.len() as int);
        }
        assert(line.start == s.start && line.end() <= rest.start && rest.end() == s.end());
        lemma_in_order(rest);
        let others = span_str::span_lines(rest);
        assert forall|a: int| 0 <= a < all.len() implies (#[trigger] all[a]).fits() && s.start
            <= all[a].start && all[a].end() <= s.end() by {
            if a > 0 {
                assert(all[a] == others[a - 1]);
            }
        }
        assert forall|a: int, b: int| 0 <= a < b < all.len() implies (#[trigger] all[a]).end() <= (
        #[trigger] all[b]).start by {
            assert(all[b] == others[b - 1]);
            if a > 0 {
                assert(all[a] == others[a - 1]);
            }
        }
    }
}

/// The lines of a source stand one behind the other.
pub proof fn law_in_order(src: Seq<char>)
    requires
        translation::source(src).fits(),
    ensures
        in_order(source_lines(src)),
{
    lemma_in_order(translation::source(src));
}

/// What a line does to the hidden parts and to the namespaces: an annotation that starts a hidden
/// part or opens a namespace adds it, one that ends it takes the last one away if there is one, and
/// the start of a macro inside of another ends all hidden parts. Nothing else changes them.
pub proof fn law_stacks(lines: Seq<SpanText>, i: int)
    requires
        0 <= i,
    ensures
        hidden_parts(lines, 0).len() == 0,
        namespaces_at(lines, 0).len() == 0,
        hidden_parts(lines, i + 1) == match command_in(lines[i]) {
            Some(CommandText::HideStart(_)) => hidden_parts(lines, i) + seq![i],
            Some(CommandText::HideEnd(_)) => if hidden_parts(lines, i).len() == 0 {
                Seq::empty()
            } else {
                hidden_parts(lines, i).take(hidden_parts(lines, i).len() - 1)
            },
            Some(CommandText::MacroStart { .. }) => if exists|j: int| open_macro(lines, j, i) {
                Seq::empty()
            } else {
                hidden_parts(lines, i)
            },
            _ => hidden_parts(lines, i),
        },
        namespaces_at(lines, i + 1) == match command_in(lines[i]) {
            Some(CommandText::NamespaceOpen { name, .. }) => namespaces_at(lines, i) + seq![
                name.text,
            ],
            Some(CommandText::NamespaceClose(_)) => if namespaces_at(lines, i).len() == 0 {
                Seq::empty()
            } else {
                namespaces_at(lines, i).take(namespaces_at(lines, i).len() - 1)
            },
            _ => namespaces_at(lines, i),
        },
{
    let parts = hidden_parts(lines, i);
    let names = namespaces_at(lines, i);
    assert(parts + seq![i] =~= parts.push(i));
    if parts.len() == 0 {
        assert(parts =~= Seq::<int>::empty());
    } else {
        assert(parts.take(parts.len() - 1) =~= parts.drop_last());
    }
    if let Some(CommandText::NamespaceOpen { name, .. }) = command_in(lines[i]) {
        assert(names + seq![name.text] =~= names.push(name.text));
    }
    if names.len() == 0 {
        assert(names =~= Seq::<Seq<char>>::empty());
    } else {
        assert(names.take(names.len() - 1) =~= names.drop_last());
    }
}

/// Lines without such annotations leave the namespaces alone.
proof fn lemma_same_namespaces(lines: Seq<SpanText>, a: int, b: int)
    requires
        0 <= a <= b,
        forall|k: int|
            a <= k < b ==> !(command_in(#[trigger] lines[k]) matches Some(
                CommandText::NamespaceOpen { .. },
            )) && !(command_in(lines[k]) matches Some(CommandText::NamespaceClose(_))),
    ensures
        namespaces_at(lines, b) == namespaces_at(lines, a),
    decreases b - a,
{
    if a < b {
        lemma_same_namespaces(lines, a, b - 1);
        assert(lines[b - 1] == lines[b - 1]);
    }
}

/// Closing a namespace undoes opening it: what was open before is open behind.
pub proof fn law_namespace_pair(lines: Seq<SpanText>, a: int, b: int)
    requires
        0 <= a < b,
        command_in(lines[a]) matches Some(CommandText::NamespaceOpen { .. }),
        command_in(lines[b]) matches Some(CommandText::NamespaceClose(_)),
        forall|k: int|
            a < k < b ==> !(command_in(#[trigger] lines[k]) matches Some(
                CommandText::NamespaceOpen { .. },
            )) && !(command_in(lines[k]) matches Some(CommandText::NamespaceClose(_))),
    ensures
        namespaces_at(lines, b + 1) == namespaces_at(lines, a),
{
    lemma_same_namespaces(lines, a + 1, b);
    assert(namespaces_at(lines, b + 1) =~= namespaces_at(lines, a));
}

/// Lines without such annotations leave the hidden parts alone.
proof fn lemma_same_hidden_parts(lines: Seq<SpanText>, a: int, b: int)
    requires
        0 <= a <= b,
        forall|k: int|
            a <= k < b ==> !starts_macro(#[trigger] lines[k]) && !(command_in(lines[k]) matches Some(
                CommandText::HideStart(_),
            )) && !(command_in(lines[k]) matches Some(CommandText::HideEnd(_))),
    ensures
        hidden_parts(lines, b) == hidden_parts(lines, a),
    decreases b - a,
{
    if a < b {
        lemma_same_hidden_parts(lines, a, b - 1);
        assert(!starts_macro(lines[b - 1]));
    }
}

/// Ending a hidden part undoes starting it: what was hidden before is hidden behind, and all lines
/// between are hidden.
pub proof fn law_hidden_pair(lines: Seq<SpanText>, a: int, b: int)
    requires
        0 <= a < b,
        command_in(lines[a]) matches Some(CommandText::HideStart(_)),
        command_in(lines[b]) matches Some(CommandText::HideEnd(_)),
        forall|k: int|
            a < k < b ==> !starts_macro(#[trigger] lines[k]) && !(command_in(lines[k]) matches Some(
                CommandText::HideStart(_),
            )) && !(command_in(lines[k]) matches Some(CommandText::HideEnd(_))),
    ensures
        hidden_parts(lines, b + 1) == hidden_parts(lines, a),
        forall|i: int| a < i <= b ==> #[trigger] in_hidden_part(lines, i),
{
    assert forall|i: int| a < i <= b implies #[trigger] in_hidden_part(lines, i) by {
        lemma_same_hidden_parts(lines, a + 1, i);
    }
    lemma_same_hidden_parts(lines, a + 1, b);
    assert(hidden_parts(lines, b + 1) =~= hidden_parts(lines, a));
}

/// What a line inside of a macro adds to it: a line that is no annotation opens the environment
/// that it is to stand in, and the body ends with it.
pub proof fn law_macro_line(lines: Seq<SpanText>, j: int, i: int)
    requires
        0 <= j < i,
    ensures
        environment_at(lines, j, j + 1) is None,
        body_at(lines, j, j + 1) is None,
        command_in(lines[i]) is Some ==> environment_at(lines, j, i + 1) == environment_at(
            lines,
            j,
            i,
        ) && body_at(lines, j, i + 1) == body_at(lines, j, i),
        command_in(lines[i]) is None ==> {
            &&& environment_at(lines, j, i + 1) == Some(hidden_parts(lines, i).len() > 0)
            &&& body_at(lines, j, i + 1) == Some(
                match body_at(lines, j, i) {
                    None => lines[i].span(),
                    Some(body) => span_str::span_of(
                        body.start as int,
                        lines[i].span().end as int,
                    ),
                },
            )
        },
{
}

/// The lines of a source are the lines of its text, and stand in it from its first byte on.
pub proof fn law_source(src: Seq<char>)
    ensures
        translation::source(src).text == src,
        translation::source(src).start == 0,
        source_lines(src).len() == lines::lines_of(src).len(),
        forall|i: int|
            0 <= i < source_lines(src).len() ==> (#[trigger] source_lines(src)[i]).text
                == lines::lines_of(src)[i],
{
    span_str::law_forward_positions(translation::source(src));
}

} // verus!
