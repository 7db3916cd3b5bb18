//! How a text falls into lines.
//!
//! A line ends with a line feed, which may follow a carriage return; neither belongs to the line.
//! The last line need not end so, and a text that ends with a line feed has no empty line behind
//! it.
use vstd::prelude::*;

use crate::text;

verus! {

/// How many characters stand before the first line feed of `s`, all of them if it has none.
pub open spec fn line_len(s: Seq<char>) -> nat {
    text::leading(s, text::not_newline())
}

/// `s` without the carriage return at its end, if there is one.
pub open spec fn strip_return(s: Seq<char>) -> Seq<char> {
    if s.len() > 0 && s.last() == '\r' {
        s.drop_last()
    } else {
        s
    }
}

/// The lines of `s`, first to last.
pub open spec fn lines_of(s: Seq<char>) -> Seq<Seq<char>>
    decreases s.len(),
{
    if s.len() == 0 {
        Seq::empty()
    } else if line_len(s) < s.len() {
        seq![strip_return(s.take(line_len(s) as int))] + lines_of(s.skip(line_len(s) as int + 1))
    } else {
        seq![s]
    }
}

/// `s` without the line ending behind its last line, if there is one.
pub open spec fn unterminated(s: Seq<char>) -> Seq<char> {
    if s.len() > 0 && s.last() == '\n' {
        strip_return(s.drop_last())
    } else {
        s
    }
}

/// Where the last line of `s` begins.
pub open spec fn last_line_start(s: Seq<char>) -> int {
    unterminated(s).len() - text::trailing(unterminated(s), text::not_newline())
}

/// The last line of `s`.
pub open spec fn last_line(s: Seq<char>) -> Seq<char> {
    unterminated(s).skip(last_line_start(s))
}

/// What stands before the last line of `s`.
pub open spec fn before_last_line(s: Seq<char>) -> Seq<char> {
    unterminated(s).take(last_line_start(s))
}

/// Where the last line begins behind a line feed that ends an earlier line.
proof fn lemma_last_line_behind(s: Seq<char>, m: int)
    requires
        0 <= m < s.len() - 1,
        s[m] == '\n',
    ensures
        unterminated(s) == s.take(m + 1) + unterminated(s.skip(m + 1)),
        last_line_start(s) == m + 1 + last_line_start(s.skip(m + 1)),
        0 <= last_line_start(s.skip(m + 1)) <= unterminated(s.skip(m + 1)).len(),
{
    let rest = s.skip(m + 1);
    let t = unterminated(s);
    let u = unterminated(rest);
    let k = last_line_start(rest);
    text::lemma_trailing_bound(u, text::not_newline());
    assert(rest.last() == s.last());
    assert(s.drop_last() =~= s.take(m + 1) + rest.drop_last());
    assert(t =~= s.take(m + 1) + u);
    assert forall|j: int| m + 1 + k <= j < t.len() implies text::not_newline()(#[trigger] t[j]) by {
        assert(t[j] == u[j - m - 1]);
    }
    assert(!text::not_newline()(t[m + k])) by {
        if k > 0 {
            assert(t[m + k] == u[k - 1]);
        }
    }
    text::lemma_trailing(t, text::not_newline(), m + 1 + k);
}

/// Where the last line is: in a text of one line it is the whole of it, else it is the last line
/// of what follows the first line.
pub(crate) proof fn lemma_last_line_cases(s: Seq<char>)
    requires
        s.len() > 0,
    ensures
        line_len(s) <= s.len(),
        line_len(s) >= s.len() - 1 ==> {
            &&& before_last_line(s).len() == 0
            &&& last_line(s) == (if line_len(s) < s.len() {
                strip_return(s.take(line_len(s) as int))
            } else {
                s
            })
        },
        line_len(s) < s.len() - 1 ==> {
            let rest = s.skip(line_len(s) as int + 1);
            &&& before_last_line(s) == s.take(line_len(s) as int + 1) + before_last_line(rest)
            &&& last_line(s) == last_line(rest)
            &&& line_len(before_last_line(s)) == line_len(s)
        },
{
    let t = unterminated(s);
    let m = line_len(s) as int;
    text::lemma_leading_bound(s, text::not_newline());
    if m == s.len() {
        assert(s[s.len() - 1] != '\n');
        text::lemma_trailing(s, text::not_newline(), 0);
        assert(last_line(s) =~= s);
    } else if m + 1 == s.len() {
        assert(s.drop_last() =~= s.take(m));
        assert forall|j: int| 0 <= j < t.len() implies text::not_newline()(#[trigger] t[j]) by {
            assert(t[j] == s[j]);
        }
        text::lemma_trailing(t, text::not_newline(), 0);
        assert(last_line(s) =~= t);
    } else {
        let rest = s.skip(m + 1);
        lemma_last_line_behind(s, m);
        let p = before_last_line(s);
        assert(p =~= s.take(m + 1) + before_last_line(rest));
        assert(last_line(s) =~= last_line(rest));
        text::lemma_leading(p, text::not_newline(), m);
    }
}

/// Reading a text from its end meets the same lines as reading it from its start: the last line is
/// the last of the lines, and the text before it has the others.
pub proof fn law_last_line(s: Seq<char>)
    requires
        s.len() > 0,
    ensures
        lines_of(s) == lines_of(before_last_line(s)).push(last_line(s)),
        before_last_line(s).len() < s.len(),
    decreases s.len(),
{
    let m = line_len(s) as int;
    let p = before_last_line(s);
    text::lemma_leading_bound(s, text::not_newline());
    lemma_last_line_cases(s);
    if m >= s.len() - 1 {
        assert(p =~= Seq::<char>::empty());
        if m < s.len() {
            assert(lines_of(s.skip(m + 1)) =~= Seq::<Seq<char>>::empty());
        }
        assert(lines_of(s) =~= lines_of(p).push(last_line(s)));
    } else {
        let rest = s.skip(m + 1);
        let q = before_last_line(rest);
        law_last_line(rest);
        assert(p.take(m) =~= s.take(m));
        assert(p.skip(m + 1) =~= q);
        assert(lines_of(s) =~= lines_of(p).push(last_line(s)));
    }
}

/// The first line of a text, and what follows it.
pub(crate) struct FirstLine<'a> {
    pub line: &'a str,
    /// The bytes before the line feed, or in the whole text if it has none.
    pub width: usize,
    /// Whether a line feed follows.
    pub ended: bool,
    pub rest: &'a str,
}

/// `s` without the ASCII character `end` at its end, where it has that there.
fn strip_end<'a>(s: &'a str, end: char) -> (r: Option<&'a str>)
    requires
        end <= '\u{7f}',
    ensures
        match r {
            Some(front) => s@.len() > 0 && s@.last() == end && front@ == s@.drop_last(),
            None => !(s@.len() > 0 && s@.last() == end),
        },
{
    let len = text::text_len(s);
    match text::find_last(
        s,
        |c: char| -> (b: bool)
            ensures
                b == (c == end)
            { c == end },
    ) {
        None => {
            assert(s@.len() > 0 ==> s@[s@.len() - 1] != end);
            None
        },
        Some((at, k)) => {
            proof {
                text::lemma_byte_len_split(s@, k@);
                text::lemma_byte_len_empty(s@.skip(k@));
            }
            if at < len {
                assert(s@[s@.len() - 1] != end);
                return None;
            }
            proof {
                text::lemma_byte_len_step(s@, k@ - 1);
            }
            let (front, _) = text::split_text(s, at - 1, Ghost(k@ - 1));
            assert(front@ =~= s@.drop_last());
            Some(front)
        },
    }
}

/// Takes the first line off `s`.
pub(crate) fn split_first_line<'a>(s: &'a str) -> (r: FirstLine<'a>)
    requires
        s@.len() > 0,
    ensures
        r.width == text::byte_len(s@.take(line_len(s@) as int)),
        r.ended == (line_len(s@) < s@.len()),
        r.ended ==> {
            &&& r.line@ == strip_return(s@.take(line_len(s@) as int))
            &&& r.rest@ == s@.skip(line_len(s@) as int + 1)
            &&& r.width + 1 + text::byte_len(r.rest@) == text::byte_len(s@)
        },
        !r.ended ==> r.line@ == s@ && r.rest@.len() == 0,
        r.width <= text::byte_len(s@),
{
    let len = text::text_len(s);
    match text::find(
        s,
        |c: char| -> (b: bool)
            ensures
                b == (c == '\n')
            { c == '\n' },
    ) {
        None => {
            proof {
                text::lemma_leading(s@, text::not_newline(), s@.len() as int);
                assert(s@.take(s@.len() as int) =~= s@);
            }
            let (line, rest) = text::split_text(s, len, Ghost(s@.len() as int));
            FirstLine { line, width: len, ended: false, rest }
        },
        Some((at, k)) => {
            proof {
                text::lemma_leading(s@, text::not_newline(), k@);
                text::lemma_byte_len_step(s@, k@);
                text::lemma_byte_len_split(s@, k@ + 1);
            }
            let (line, _) = text::split_text(s, at, k);
            let (_, rest) = text::split_text(s, at + 1, Ghost(k@ + 1));
            let line = match strip_end(line, '\r') {
                Some(stripped) => stripped,
                None => line,
            };
            FirstLine { line, width: at, ended: true, rest }
        },
    }
}

/// Takes the last line off `s`; returns what stands before it, and the line.
pub(crate) fn split_last_line<'a>(s: &'a str) -> (r: (&'a str, &'a str))
    requires
        s@.len() > 0,
    ensures
        r.0@ == before_last_line(s@),
        r.1@ == last_line(s@),
        text::byte_len(r.0@) + text::byte_len(r.1@) <= text::byte_len(s@),
{
    let t = match strip_end(s, '\n') {
        Some(front) => {
            proof {
                assert(front@ =~= s@.take(s@.len() - 1));
                text::lemma_byte_len_split(s@, s@.len() - 1);
            }
            match strip_end(front, '\r') {
                Some(stripped) => {
                    proof {
                        assert(stripped@ =~= front@.take(front@.len() - 1));
                        text::lemma_byte_len_split(front@, front@.len() - 1);
                    }
                    stripped
                },
                None => front,
            }
        },
        None => s,
    };
    assert(t@ == unterminated(s@));
    match text::find_last(
        t,
        |c: char| -> (b: bool)
            ensures
                b == (c == '\n')
            { c == '\n' },
    ) {
        None => {
            proof {
                text::lemma_trailing(t@, text::not_newline(), 0);
                text::lemma_byte_len_split(t@, 0);
                text::lemma_byte_len_empty(t@.take(0));
            }
            text::split_text(t, 0, Ghost(0int))
        },
        Some((at, k)) => {
            proof {
                text::lemma_trailing(t@, text::not_newline(), k@);
                text::lemma_byte_len_split(t@, k@);
            }
            text::split_text(t, at, k)
        },
    }
}

/// How a text falls into lines: a line feed ends a line, with a carriage return before it or
/// without one, and neither belongs to the line; what is left at the end is a line if it holds
/// anything.
pub proof fn law_lines(line: Seq<char>, rest: Seq<char>)
    requires
        forall|k: int| 0 <= k < line.len() ==> #[trigger] line[k] != '\n',
    ensures
        lines_of(Seq::empty()).len() == 0,
        line.len() > 0 ==> lines_of(line) == seq![line],
        !(line.len() > 0 && line.last() == '\r') ==> lines_of(line + seq!['\n'] + rest) == seq![line]
            + lines_of(rest),
        lines_of(line + seq!['\r', '\n'] + rest) == seq![line] + lines_of(rest),
{
    let n = line.len() as int;
    assert forall|k: int| 0 <= k < n implies text::not_newline()(#[trigger] line[k]) by {}
    text::lemma_leading(line, text::not_newline(), n);
    let s = line + seq!['\n'] + rest;
    assert forall|k: int| 0 <= k < n implies text::not_newline()(#[trigger] s[k]) by {
        assert(s[k] == line[k]);
    }
    text::lemma_leading(s, text::not_newline(), n);
    assert(s.take(n) =~= line);
    assert(s.skip(n + 1) =~= rest);
    let r = line + seq!['\r', '\n'] + rest;
    assert forall|k: int| 0 <= k < n + 1 implies text::not_newline()(#[trigger] r[k]) by {
        if k < n {
            assert(r[k] == line[k]);
        }
    }
    text::lemma_leading(r, text::not_newline(), n + 1);
    assert(r.take(n + 1) =~= line.push('\r'));
    assert(r.take(n + 1).drop_last() =~= line);
    assert(r.skip(n + 2) =~= rest);
}

/// The last line of a text whose earlier lines are `front`: it is `line` without what ends it, be
/// that nothing, a line feed, or a carriage return and a line feed, and `front` stands before it.
pub proof fn law_last_of_lines(front: Seq<char>, line: Seq<char>)
    requires
        front.len() > 0 ==> front.last() == '\n',
        forall|k: int| 0 <= k < line.len() ==> #[trigger] line[k] != '\n',
    ensures
        line.len() > 0 ==> last_line(front + line) == line && before_last_line(front + line)
            == front,
        !(line.len() > 0 && line.last() == '\r') ==> last_line(front + line + seq!['\n']) == line
            && before_last_line(front + line + seq!['\n']) == front,
        last_line(front + line + seq!['\r', '\n']) == line,
        before_last_line(front + line + seq!['\r', '\n']) == front,
{
    let t = front + line;
    let a = front + line + seq!['\n'];
    let b = front + line + seq!['\r', '\n'];
    let n = front.len() as int;
    assert forall|k: int| n <= k < t.len() implies text::not_newline()(#[trigger] t[k]) by {
        assert(t[k] == line[k - n]);
    }
    if n > 0 {
        assert(t[n - 1] == front.last());
    }
    text::lemma_trailing(t, text::not_newline(), n);
    assert(t.take(n) =~= front);
    assert(t.skip(n) =~= line);
    if line.len() > 0 {
        assert(t.last() == line[line.len() - 1]);
        assert(unterminated(t) == t);
    }
    assert(a.drop_last() =~= t);
    if !(line.len() > 0 && line.last() == '\r') {
        if t.len() > 0 {
            assert(t.last() == if line.len() > 0 {
                line.last()
            } else {
                front.last()
            });
        }
        assert(unterminated(a) == t);
    }
    assert(b.drop_last() =~= t.push('\r'));
    assert(b.drop_last().drop_last() =~= t);
    assert(unterminated(b) == t);
}

} // verus!
