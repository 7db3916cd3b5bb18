//! Text as sequences of characters: character classes, trimming, and slicing `str` values at
//! byte positions that are known by their character index.
use vstd::prelude::*;
use vstd::utf8::*;

verus! {

/// The number of bytes that the characters `s` take in UTF-8.
pub open spec fn byte_len(s: Seq<char>) -> nat {
    encode_utf8(s).len()
}

/// The characters with the Unicode property `White_Space`.
pub open spec fn white_space(c: char) -> bool {
    ||| '\u{9}' <= c <= '\u{d}'
    ||| c == '\u{20}'
    ||| c == '\u{85}'
    ||| c == '\u{a0}'
    ||| c == '\u{1680}'
    ||| '\u{2000}' <= c <= '\u{200a}'
    ||| c == '\u{2028}'
    ||| c == '\u{2029}'
    ||| c == '\u{202f}'
    ||| c == '\u{205f}'
    ||| c == '\u{3000}'
}

/// The ASCII letters.
pub open spec fn ascii_alphabetic(c: char) -> bool {
    'a' <= c <= 'z' || 'A' <= c <= 'Z'
}

/// The characters with the Unicode general category `Cc`.
pub open spec fn control(c: char) -> bool {
    c <= '\u{1f}' || '\u{7f}' <= c <= '\u{9f}'
}

/// How many characters at the start of `s` belong to `class`.
pub open spec fn leading(s: Seq<char>, class: spec_fn(char) -> bool) -> nat
    decreases s.len(),
{
    if s.len() > 0 && class(s[0]) {
        1 + leading(s.skip(1), class)
    } else {
        0
    }
}

/// How many characters at the end of `s` belong to `class`.
pub open spec fn trailing(s: Seq<char>, class: spec_fn(char) -> bool) -> nat
    decreases s.len(),
{
    if s.len() > 0 && class(s.last()) {
        1 + trailing(s.drop_last(), class)
    } else {
        0
    }
}

/// The class of white space.
pub open spec fn spaces() -> spec_fn(char) -> bool {
    |c: char| white_space(c)
}

/// The class of ASCII letters.
pub open spec fn letters() -> spec_fn(char) -> bool {
    |c: char| ascii_alphabetic(c)
}

/// The class of everything that may stand inside a line.
pub open spec fn not_newline() -> spec_fn(char) -> bool {
    |c: char| c != '\n'
}

/// `s` without its leading white space.
pub open spec fn trim_start(s: Seq<char>) -> Seq<char> {
    s.skip(leading(s, spaces()) as int)
}

/// `s` without its trailing white space.
pub open spec fn trim_end(s: Seq<char>) -> Seq<char> {
    s.take(s.len() - trailing(s, spaces()))
}

/// `s` without the white space around it.
pub open spec fn trim(s: Seq<char>) -> Seq<char> {
    trim_end(trim_start(s))
}

/// Whether `s` begins with `prefix`.
pub open spec fn begins_with(s: Seq<char>, prefix: Seq<char>) -> bool {
    prefix.len() <= s.len() && s.take(prefix.len() as int) == prefix
}

/// The texts `parts` one behind the other.
pub open spec fn joined(parts: Seq<Seq<char>>) -> Seq<char>
    decreases parts.len(),
{
    if parts.len() == 0 {
        Seq::empty()
    } else {
        joined(parts.drop_last()) + parts.last()
    }
}

/// Something that holds a string.
pub trait Text {
    /// The characters of the string.
    spec fn text(&self) -> Seq<char>;

    /// The string.
    fn as_text(&self) -> (r: &str)
        ensures
            r@ == self.text(),
    ;
}

impl<'s> Text for &'s str {
    open spec fn text(&self) -> Seq<char> {
        self@
    }

    fn as_text(&self) -> (r: &str) {
        *self
    }
}

impl Text for String {
    open spec fn text(&self) -> Seq<char> {
        self@
    }

    fn as_text(&self) -> (r: &str) {
        self.as_str()
    }
}

/// Joining distributes over concatenation.
pub proof fn lemma_joined_concat(a: Seq<Seq<char>>, b: Seq<Seq<char>>)
    ensures
        joined(a + b) == joined(a) + joined(b),
    decreases b.len(),
{
    if b.len() == 0 {
        assert(a + b =~= a);
        assert(joined(a) + joined(b) =~= joined(a));
    } else {
        assert((a + b).drop_last() =~= a + b.drop_last());
        lemma_joined_concat(a, b.drop_last());
        assert(joined(a + b) =~= joined(a) + joined(b));
    }
}

/// Joining one text more appends it.
pub proof fn lemma_joined_push(parts: Seq<Seq<char>>, last: Seq<char>)
    ensures
        joined(parts.push(last)) == joined(parts) + last,
{
    assert(parts.push(last).drop_last() =~= parts);
}

/// Encoding distributes over concatenation.
pub proof fn lemma_encode_concat(a: Seq<char>, b: Seq<char>)
    ensures
        encode_utf8(a + b) == encode_utf8(a) + encode_utf8(b),
        byte_len(a + b) == byte_len(a) + byte_len(b),
    decreases a.len(),
{
    if a.len() == 0 {
        assert(a + b =~= b);
        assert(encode_utf8(a) + encode_utf8(b) =~= encode_utf8(b));
    } else {
        assert((a + b).drop_first() =~= a.drop_first() + b);
        lemma_encode_concat(a.drop_first(), b);
        assert(encode_utf8(a + b) =~= encode_utf8(a) + encode_utf8(b));
    }
}

/// Splitting `s` after `k` characters splits its bytes.
pub proof fn lemma_byte_len_split(s: Seq<char>, k: int)
    requires
        0 <= k <= s.len(),
    ensures
        encode_utf8(s) == encode_utf8(s.take(k)) + encode_utf8(s.skip(k)),
        byte_len(s) == byte_len(s.take(k)) + byte_len(s.skip(k)),
{
    lemma_encode_concat(s.take(k), s.skip(k));
    assert(s.take(k) + s.skip(k) =~= s);
}

/// One character more takes the bytes of that character more.
pub proof fn lemma_byte_len_step(s: Seq<char>, k: int)
    requires
        0 <= k < s.len(),
    ensures
        byte_len(s.take(k + 1)) == byte_len(s.take(k)) + encode_scalar(s[k] as u32).len(),
        byte_len(s.take(k + 1)) <= byte_len(s),
{
    lemma_encode_concat(s.take(k), seq![s[k]]);
    assert(s.take(k) + seq![s[k]] =~= s.take(k + 1));
    let one = seq![s[k]];
    assert(one.drop_first() =~= Seq::<char>::empty());
    assert(encode_utf8(one) == encode_scalar(one[0] as u32) + encode_utf8(one.drop_first()));
    assert(encode_utf8(one.drop_first()).len() == 0);
    lemma_byte_len_split(s, k + 1);
}

/// The empty text takes no bytes, and no other text does so.
pub proof fn lemma_byte_len_empty(s: Seq<char>)
    ensures
        byte_len(s) == 0 <==> s.len() == 0,
{
}

/// A text has no more characters than bytes.
pub proof fn lemma_len_bound(s: Seq<char>)
    ensures
        s.len() <= byte_len(s),
    decreases s.len(),
{
    if s.len() > 0 {
        lemma_len_bound(s.drop_first());
        lemma_byte_len_split(s, 1);
        lemma_byte_len_empty(s.take(1));
        assert(s.skip(1) =~= s.drop_first());
    }
}

/// Texts with the same bytes are the same.
pub proof fn lemma_encode_injective(a: Seq<char>, b: Seq<char>)
    requires
        encode_utf8(a) == encode_utf8(b),
    ensures
        a == b,
{
    encode_utf8_decode_utf8(a);
    encode_utf8_decode_utf8(b);
}

/// The byte position after any number of characters is a character boundary.
pub proof fn lemma_boundary(s: Seq<char>, k: int)
    requires
        0 <= k <= s.len(),
    ensures
        is_char_boundary(encode_utf8(s), byte_len(s.take(k)) as int),
    decreases k,
{
    encode_utf8_valid_utf8(s);
    if k == 0 {
        assert(s.take(0).len() == 0);
    } else {
        let rest = s.drop_first();
        lemma_boundary(rest, k - 1);
        encode_utf8_first_scalar(s);
        let head = encode_scalar(s[0] as u32);
        assert(pop_first_scalar(encode_utf8(s)) =~= encode_utf8(rest));
        assert(s.take(k).drop_first() =~= rest.take(k - 1));
        assert(byte_len(s.take(k)) == head.len() + byte_len(rest.take(k - 1)));
        lemma_byte_len_split(s, k);
    }
}

/// `leading` counts to the first character outside the class.
pub proof fn lemma_leading(s: Seq<char>, class: spec_fn(char) -> bool, k: int)
    requires
        0 <= k <= s.len(),
        forall|j: int| 0 <= j < k ==> class(#[trigger] s[j]),
        k < s.len() ==> !class(s[k]),
    ensures
        leading(s, class) == k,
    decreases s.len(),
{
    if k > 0 {
        let rest = s.skip(1);
        assert forall|j: int| 0 <= j < k - 1 implies class(#[trigger] rest[j]) by {
            assert(rest[j] == s[j + 1]);
        }
        lemma_leading(rest, class, k - 1);
    }
}

/// What `leading` says of the characters of `s`.
pub proof fn lemma_leading_bound(s: Seq<char>, class: spec_fn(char) -> bool)
    ensures
        leading(s, class) <= s.len(),
        forall|j: int| 0 <= j < leading(s, class) ==> class(#[trigger] s[j]),
        leading(s, class) < s.len() ==> !class(s[leading(s, class) as int]),
    decreases s.len(),
{
    if s.len() > 0 && class(s[0]) {
        let rest = s.skip(1);
        lemma_leading_bound(rest, class);
        assert forall|j: int| 0 <= j < leading(s, class) implies class(#[trigger] s[j]) by {
            if j > 0 {
                assert(rest[j - 1] == s[j]);
            }
        }
    }
}

/// `trailing` counts back to the last character outside the class.
pub proof fn lemma_trailing(s: Seq<char>, class: spec_fn(char) -> bool, k: int)
    requires
        0 <= k <= s.len(),
        forall|j: int| k <= j < s.len() ==> class(#[trigger] s[j]),
        k > 0 ==> !class(s[k - 1]),
    ensures
        trailing(s, class) == s.len() - k,
    decreases s.len(),
{
    if k < s.len() {
        assert(class(s[s.len() - 1]));
        lemma_trailing(s.drop_last(), class, k);
    }
}

/// What `trailing` says of the characters of `s`.
pub proof fn lemma_trailing_bound(s: Seq<char>, class: spec_fn(char) -> bool)
    ensures
        trailing(s, class) <= s.len(),
        forall|j: int| s.len() - trailing(s, class) <= j < s.len() ==> class(#[trigger] s[j]),
        trailing(s, class) < s.len() ==> !class(s[s.len() - trailing(s, class) - 1]),
    decreases s.len(),
{
    if s.len() > 0 && class(s.last()) {
        lemma_trailing_bound(s.drop_last(), class);
        let rest = s.drop_last();
        assert forall|j: int| s.len() - trailing(s, class) <= j < s.len() implies class(
            #[trigger] s[j],
        ) by {
            if j < s.len() - 1 {
                assert(rest[j] == s[j]);
            }
        }
    }
}

/// Whether `c` is white space.
pub fn is_white_space(c: char) -> (r: bool)
    ensures
        r == white_space(c),
{
    ('\u{9}' <= c && c <= '\u{d}') || c == '\u{20}' || c == '\u{85}' || c == '\u{a0}' || c
        == '\u{1680}' || ('\u{2000}' <= c && c <= '\u{200a}') || c == '\u{2028}' || c == '\u{2029}'
        || c == '\u{202f}' || c == '\u{205f}' || c == '\u{3000}'
}

/// Whether `c` is an ASCII letter.
pub fn is_ascii_alphabetic(c: char) -> (r: bool)
    ensures
        r == ascii_alphabetic(c),
{
    ('a' <= c && c <= 'z') || ('A' <= c && c <= 'Z')
}

/// Whether `c` is a control character.
pub fn is_control(c: char) -> (r: bool)
    ensures
        r == control(c),
{
    c <= '\u{1f}' || ('\u{7f}' <= c && c <= '\u{9f}')
}

/// The number of bytes that `c` takes in UTF-8.
pub fn char_width(c: char) -> (n: usize)
    ensures
        n == encode_scalar(c as u32).len(),
        1 <= n <= 4,
{
    if c <= '\u{7f}' {
        1
    } else if c <= '\u{7ff}' {
        2
    } else if c <= '\u{ffff}' {
        3
    } else {
        4
    }
}

/// The bytes of a string are as many as a `usize` can count.
pub(crate) fn text_len(s: &str) -> (n: usize)
    ensures
        n == byte_len(s@),
{
    s.as_bytes().len()
}

/// Splits `s` after its first `k` characters, which take `mid` bytes.
pub(crate) fn split_text<'a>(s: &'a str, mid: usize, Ghost(k): Ghost<int>) -> (r: (
    &'a str,
    &'a str,
))
    requires
        0 <= k <= s@.len(),
        mid == byte_len(s@.take(k)),
    ensures
        r.0@ == s@.take(k),
        r.1@ == s@.skip(k),
{
    proof {
        lemma_boundary(s@, k);
        lemma_byte_len_split(s@, k);
    }
    let r = s.split_at(mid);
    proof {
        assert(encode_utf8(r.0@) =~= encode_utf8(s@.take(k)));
        assert(encode_utf8(r.1@) =~= encode_utf8(s@.skip(k)));
        lemma_encode_injective(r.0@, s@.take(k));
        lemma_encode_injective(r.1@, s@.skip(k));
    }
    r
}

/// The byte position of the first character that `found` accepts, with its character index.
pub(crate) fn find<F: Fn(char) -> bool>(s: &str, found: F) -> (r: Option<(usize, Ghost<int>)>)
    requires
        forall|c: char| call_requires(found, (c,)),
    ensures
        match r {
            Some((at, k)) => {
                &&& 0 <= k@ < s@.len()
                &&& at == byte_len(s@.take(k@))
                &&& call_ensures(found, (s@[k@],), true)
                &&& forall|j: int|
                    0 <= j < k@ ==> call_ensures(found, (#[trigger] s@[j],), false)
            },
            None => forall|j: int|
                0 <= j < s@.len() ==> call_ensures(found, (#[trigger] s@[j],), false),
        },
{
    let len = text_len(s);
    let mut at: usize = 0;
    let ghost mut k: int = 0;
    let mut rest = s.chars();
    assert(s@.take(0) =~= Seq::<char>::empty());
    loop
        invariant
            0 <= k <= s@.len(),
            vstd::std_specs::iter::IteratorSpec::remaining(&rest) == s@.skip(k),
            at == byte_len(s@.take(k)),
            len == byte_len(s@),
            forall|c: char| call_requires(found, (c,)),
            forall|j: int| 0 <= j < k ==> call_ensures(found, (#[trigger] s@[j],), false),
        decreases s@.len() - k,
    {
        match rest.next() {
            None => {
                return None;
            },
            Some(c) => {
                assert(c == s@[k]);
                if found(c) {
                    return Some((at, Ghost(k)));
                }
                proof {
                    lemma_byte_len_step(s@, k);
                    assert(s@.skip(k).drop_first() =~= s@.skip(k + 1));
                    k = k + 1;
                }
                at = at + char_width(c);
            },
        }
    }
}

/// The byte position behind the last character that `found` accepts, with the number of
/// characters up to and including it.
pub(crate) fn find_last<F: Fn(char) -> bool>(s: &str, found: F) -> (r: Option<(usize, Ghost<int>)>)
    requires
        forall|c: char| call_requires(found, (c,)),
    ensures
        match r {
            Some((at, k)) => {
                &&& 0 < k@ <= s@.len()
                &&& at == byte_len(s@.take(k@))
                &&& call_ensures(found, (s@[k@ - 1],), true)
                &&& forall|j: int|
                    k@ <= j < s@.len() ==> call_ensures(found, (#[trigger] s@[j],), false)
            },
            None => forall|j: int|
                0 <= j < s@.len() ==> call_ensures(found, (#[trigger] s@[j],), false),
        },
{
    let len = text_len(s);
    let mut last: Option<(usize, Ghost<int>)> = None;
    let mut at: usize = 0;
    let ghost mut k: int = 0;
    let mut rest = s.chars();
    assert(s@.take(0) =~= Seq::<char>::empty());
    loop
        invariant
            0 <= k <= s@.len(),
            vstd::std_specs::iter::IteratorSpec::remaining(&rest) == s@.skip(k),
            at == byte_len(s@.take(k)),
            len == byte_len(s@),
            forall|c: char| call_requires(found, (c,)),
            match last {
                Some((at, i)) => {
                    &&& 0 < i@ <= k
                    &&& at == byte_len(s@.take(i@))
                    &&& call_ensures(found, (s@[i@ - 1],), true)
                    &&& forall|j: int|
                        i@ <= j < k ==> call_ensures(found, (#[trigger] s@[j],), false)
                },
                None => forall|j: int|
                    0 <= j < k ==> call_ensures(found, (#[trigger] s@[j],), false),
            },
        decreases s@.len() - k,
    {
        match rest.next() {
            None => {
                return last;
            },
            Some(c) => {
                assert(c == s@[k]);
                proof {
                    lemma_byte_len_step(s@, k);
                    assert(s@.skip(k).drop_first() =~= s@.skip(k + 1));
                    k = k + 1;
                }
                at = at + char_width(c);
                if found(c) {
                    last = Some((at, Ghost(k)));
                }
            },
        }
    }
}

/// Whether the two strings are equal.
pub(crate) fn text_eq(a: &str, b: &str) -> (r: bool)
    ensures
        r == (a@ == b@),
{
    let x = a.as_bytes();
    let y = b.as_bytes();
    if x.len() != y.len() {
        return false;
    }
    let mut i: usize = 0;
    while i < x.len()
        invariant
            i <= x@.len(),
            x@.len() == y@.len(),
            x@ == encode_utf8(a@),
            y@ == encode_utf8(b@),
            forall|j: int| 0 <= j < i ==> x@[j] == y@[j],
        decreases x@.len() - i,
    {
        if x[i] != y[i] {
            return false;
        }
        i = i + 1;
    }
    proof {
        assert(x@ =~= y@);
        lemma_encode_injective(a@, b@);
    }
    true
}

/// What follows `prefix` in `s`, where `s` begins with it.
pub(crate) fn strip_text<'a>(s: &'a str, prefix: &str) -> (r: Option<&'a str>)
    ensures
        match r {
            Some(rest) => begins_with(s@, prefix@) && rest@ == s@.skip(prefix@.len() as int),
            None => !begins_with(s@, prefix@),
        },
{
    let mut at: usize = 0;
    let ghost mut k: int = 0;
    let len = text_len(s);
    let mut rest = s.chars();
    let mut wanted = prefix.chars();
    assert(s@.take(0) =~= Seq::<char>::empty());
    loop
        invariant
            0 <= k <= s@.len(),
            k <= prefix@.len(),
            vstd::std_specs::iter::IteratorSpec::remaining(&rest) == s@.skip(k),
            vstd::std_specs::iter::IteratorSpec::remaining(&wanted) == prefix@.skip(k),
            at == byte_len(s@.take(k)),
            len == byte_len(s@),
            forall|j: int| 0 <= j < k ==> #[trigger] s@[j] == prefix@[j],
        decreases s@.len() - k,
    {
        match wanted.next() {
            None => {
                assert(s@.take(k) =~= prefix@);
                let (_, rest) = split_text(s, at, Ghost(k));
                return Some(rest);
            },
            Some(w) => {
                assert(w == prefix@[k]);
                match rest.next() {
                    None => {
                        return None;
                    },
                    Some(c) => {
                        assert(c == s@[k]);
                        if c != w {
                            assert(prefix@.len() <= s@.len() ==> s@.take(prefix@.len() as int)[k]
                                != prefix@[k]);
                            return None;
                        }
                        proof {
                            lemma_byte_len_step(s@, k);
                            assert(s@.skip(k).drop_first() =~= s@.skip(k + 1));
                            assert(prefix@.skip(k).drop_first() =~= prefix@.skip(k + 1));
                            k = k + 1;
                        }
                        at = at + char_width(c);
                    },
                }
            },
        }
    }
}

/// White space are the characters at these places: tabulator, line feed, vertical tabulator, form
/// feed, carriage return, space, next line, no-break space, and the spaces and separators of the
/// scripts.
pub proof fn law_white_space(c: char)
    ensures
        white_space(c) <==> {
            ||| c as u32 == 0x9 || c as u32 == 0xa || c as u32 == 0xb || c as u32 == 0xc
            ||| c as u32 == 0xd || c as u32 == 0x20 || c as u32 == 0x85 || c as u32 == 0xa0
            ||| c as u32 == 0x1680 || 0x2000 <= c as u32 <= 0x200a || c as u32 == 0x2028
            ||| c as u32 == 0x2029 || c as u32 == 0x202f || c as u32 == 0x205f || c as u32 == 0x3000
        },
{
}

/// The letters are the 26 small and the 26 capital ones of ASCII, and control characters the 32
/// first and those from 0x7f to 0x9f. No letter is white space, and white space and control
/// characters have in common those up to 0x85 but the space.
pub proof fn law_classes(c: char)
    ensures
        ascii_alphabetic(c) <==> 0x41 <= c as u32 <= 0x5a || 0x61 <= c as u32 <= 0x7a,
        control(c) <==> (c as u32) < 0x20 || 0x7f <= c as u32 <= 0x9f,
        !(ascii_alphabetic(c) && white_space(c)),
        !(ascii_alphabetic(c) && control(c)),
        white_space(c) && control(c) <==> white_space(c) && c as u32 <= 0x85 && c != ' ',
{
}

/// A text begins with another just if it is that other with something behind it.
pub proof fn law_begins_with(s: Seq<char>, prefix: Seq<char>)
    ensures
        begins_with(s, prefix) <==> exists|rest: Seq<char>| s == #[trigger] (prefix + rest),
{
    if begins_with(s, prefix) {
        assert(s =~= prefix + s.skip(prefix.len() as int));
    }
    if exists|rest: Seq<char>| s == #[trigger] (prefix + rest) {
        let rest = choose|rest: Seq<char>| s == #[trigger] (prefix + rest);
        assert(s.take(prefix.len() as int) =~= prefix);
    }
}

/// Trimming a text that is put together from white space, a text that neither starts nor ends with
/// white space, and white space again, gives back the text in the middle.
pub proof fn law_trim(before: Seq<char>, middle: Seq<char>, behind: Seq<char>)
    requires
        forall|k: int| 0 <= k < before.len() ==> white_space(#[trigger] before[k]),
        forall|k: int| 0 <= k < behind.len() ==> white_space(#[trigger] behind[k]),
        middle.len() > 0,
        !white_space(middle[0]),
        !white_space(middle.last()),
    ensures
        trim_start(before + middle + behind) == middle + behind,
        trim_end(before + middle + behind) == before + middle,
        trim(before + middle + behind) == middle,
{
    let s = before + middle + behind;
    let a = before.len() as int;
    let b = a + middle.len();
    assert forall|j: int| 0 <= j < a implies spaces()(#[trigger] s[j]) by {
        assert(s[j] == before[j]);
    }
    assert(s[a] == middle[0]);
    lemma_leading(s, spaces(), a);
    assert(s.skip(a) =~= middle + behind);
    assert forall|j: int| b <= j < s.len() implies spaces()(#[trigger] s[j]) by {
        assert(s[j] == behind[j - b]);
    }
    assert(s[b - 1] == middle.last());
    lemma_trailing(s, spaces(), b);
    assert(s.take(b) =~= before + middle);
    let t = middle + behind;
    let n = middle.len() as int;
    assert forall|j: int| n <= j < t.len() implies spaces()(#[trigger] t[j]) by {
        assert(t[j] == behind[j - n]);
    }
    assert(t[n - 1] == middle.last());
    lemma_trailing(t, spaces(), n);
    assert(t.take(n) =~= middle);
}

/// Texts one behind the other.
pub proof fn law_joined(a: Seq<Seq<char>>, s: Seq<char>, b: Seq<Seq<char>>)
    ensures
        joined(Seq::empty()) == Seq::<char>::empty(),
        joined(seq![s]) == s,
        joined(a + seq![s] + b) == joined(a) + s + joined(b),
{
    lemma_joined_push(Seq::empty(), s);
    assert(Seq::<Seq<char>>::empty().push(s) =~= seq![s]);
    assert(joined(seq![s]) =~= s);
    lemma_joined_concat(a, seq![s]);
    lemma_joined_concat(a + seq![s], b);
}

} // verus!
