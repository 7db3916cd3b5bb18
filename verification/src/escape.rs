//! Strings that are shown in messages.
use vstd::prelude::*;

use crate::text;
use crate::text::Text;

verus! {

/// What `str::escape_debug` makes of a string.
pub uninterp spec fn debug_escaped(s: Seq<char>) -> Seq<char>;

/// `str::escape_debug`. The claim: what it makes of a string depends on the string alone.
#[verifier::external_body]
fn escape_debug(s: &str) -> (r: String)
    ensures
        r@ == debug_escaped(s@),
{
    s.escape_debug().to_string()
}

/// The characters that may not stand in a message as they are: quotation marks, control
/// characters and white space.
pub open spec fn confusing(c: char) -> bool {
    c == '"' || c == '\'' || text::control(c) || text::white_space(c)
}

/// Whether a string has to be escaped in messages.
pub open spec fn needs_escape(s: Seq<char>) -> bool {
    exists|i: int| 0 <= i < s.len() && confusing(#[trigger] s[i])
}

/// How a string is shown, where `escaped` is its escaped form.
pub open spec fn shown(s: Seq<char>, escaped: Seq<char>) -> Seq<char> {
    if needs_escape(s) {
        "\""@ + escaped + "\""@
    } else {
        s
    }
}

/// Shows a string, where `escaped` is its escaped form.
pub fn show(s: &str, escaped: &str) -> (r: String)
    ensures
        r@ == shown(s@, escaped@),
{
    let is_confusing = |c: char| -> (b: bool)
        ensures
            b == confusing(c)
        { c == '"' || c == '\'' || text::is_control(c) || text::is_white_space(c) };
    match text::find(s, is_confusing) {
        Some((_, k)) => {
            assert(confusing(s@[k@]));
            let mut r = String::new();
            r.append("\"");
            r.append(escaped);
            r.append("\"");
            assert(r@ =~= shown(s@, escaped@));
            r
        },
        None => {
            assert forall|i: int| 0 <= i < s@.len() implies !confusing(#[trigger] s@[i]) by {
                assert(call_ensures(is_confusing, (s@[i],), false));
            }
            s.to_owned()
        },
    }
}

/// A string that is escaped only if it has to be.
pub struct PseudoEscape<T>(pub T);

impl<T: Text> PseudoEscape<T> {
    /// Shows the string.
    pub fn to_string(&self) -> (r: String)
        ensures
            r@ == shown(self.0.text(), debug_escaped(self.0.text())),
    {
        let s = self.0.as_text();
        let escaped = escape_debug(s);
        show(s, escaped.as_str())
    }
}

/// A string is shown as it is just if none of its characters is a quotation mark, a control
/// character or white space; else its escaped form is shown between quotation marks.
pub proof fn law_shown(s: Seq<char>, escaped: Seq<char>)
    ensures
        (forall|k: int|
            0 <= k < s.len() ==> {
                &&& #[trigger] s[k] != '"'
                &&& s[k] != '\''
                &&& !(s[k] <= '\u{20}' || '\u{7f}' <= s[k] <= '\u{a0}')
                &&& !text::white_space(s[k])
            }) ==> shown(s, escaped) == s,
        (exists|k: int|
            0 <= k < s.len() && {
                ||| #[trigger] s[k] == '"'
                ||| s[k] == '\''
                ||| s[k] <= '\u{20}' || '\u{7f}' <= s[k] <= '\u{a0}'
                ||| text::white_space(s[k])
            }) ==> shown(s, escaped) == seq!['"'] + escaped + seq!['"'],
{
    reveal_strlit("\"");
    assert("\""@ =~= seq!['"']);
    if exists|k: int|
        0 <= k < s.len() && {
            ||| #[trigger] s[k] == '"'
            ||| s[k] == '\''
            ||| s[k] <= '\u{20}' || '\u{7f}' <= s[k] <= '\u{a0}'
            ||| text::white_space(s[k])
        } {
        let k = choose|k: int|
            0 <= k < s.len() && {
                ||| #[trigger] s[k] == '"'
                ||| s[k] == '\''
                ||| s[k] <= '\u{20}' || '\u{7f}' <= s[k] <= '\u{a0}'
                ||| text::white_space(s[k])
            };
        assert(confusing(s[k]));
    }
}

} // verus!
