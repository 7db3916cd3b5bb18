//! A stack of strings that lie one behind the other in a single buffer.
use vstd::prelude::*;
use vstd::utf8::*;

use crate::text;

verus! {

/// A stack of strings.
///
/// The strings stand in `data`, lowest first; `lens` holds for each of them how many bytes stand
/// below it.
pub struct StringStack {
    data: String,
    lens: Vec<usize>,
}

/// The strings in `data`, where `lens` says how far apart they start.
pub closed spec fn strings_in(data: Seq<char>, lens: Seq<usize>) -> Seq<Seq<char>> {
    Seq::new(
        lens.len(),
        |i: int|
            {
                let bytes = encode_utf8(data);
                let end = if i + 1 < lens.len() {
                    lens[i + 1] - lens[0]
                } else {
                    bytes.len() as int
                };
                decode_utf8(bytes.subrange(lens[i] - lens[0], end))
            },
    )
}

/// `lens` says where each of `strings` starts when they stand one behind the other.
spec fn measures(lens: Seq<usize>, strings: Seq<Seq<char>>) -> bool {
    &&& lens.len() == strings.len()
    &&& forall|i: int|
        0 <= i < strings.len() ==> #[trigger] lens[i] == lens[0] + text::byte_len(
            text::joined(strings.take(i)),
        )
}

/// Strings that are laid one behind the other are found again.
proof fn lemma_strings_in(data: Seq<char>, lens: Seq<usize>, strings: Seq<Seq<char>>)
    requires
        measures(lens, strings),
        strings.len() > 0 ==> data == text::joined(strings),
    ensures
        strings_in(data, lens) == strings,
{
    let bytes = encode_utf8(data);
    assert forall|i: int| 0 <= i < strings.len() implies #[trigger] strings_in(data, lens)[i]
        == strings[i] by {
        let below = text::joined(strings.take(i));
        let above = text::joined(strings.skip(i + 1));
        let upto = text::joined(strings.take(i + 1));
        assert(strings.take(i + 1).drop_last() =~= strings.take(i));
        assert(upto == below + strings[i]);
        assert(strings.take(i + 1) + strings.skip(i + 1) =~= strings);
        text::lemma_joined_concat(strings.take(i + 1), strings.skip(i + 1));
        text::lemma_encode_concat(below, strings[i]);
        text::lemma_encode_concat(upto, above);
        let start = lens[i] - lens[0];
        let end = if i + 1 < lens.len() {
            lens[i + 1] - lens[0]
        } else {
            bytes.len() as int
        };
        if i + 1 == lens.len() {
            assert(strings.take(i + 1) =~= strings);
        }
        assert(end == text::byte_len(upto));
        assert(bytes.subrange(start, end) =~= encode_utf8(strings[i]));
        encode_utf8_decode_utf8(strings[i]);
    }
    assert(strings_in(data, lens) =~= strings);
}

impl View for StringStack {
    type V = Seq<Seq<char>>;

    /// The strings, lowest first.
    closed spec fn view(&self) -> Seq<Seq<char>> {
        strings_in(self.data@, self.lens@)
    }
}

/// The part of `s` behind the byte position `at`, to be changed in place.
///
/// This is `IndexMut<RangeFrom<usize>>` of `String`, which panics where `at` is no character
/// boundary. The claim: the part holds the bytes from `at` on, and whatever it holds in the end
/// stands in the string behind the bytes before `at`, which stay.
#[verifier::external_body]
fn tail_mut(s: &mut String, at: usize) -> (r: &mut str)
    requires
        is_char_boundary(encode_utf8(old(s)@), at as int),
    ensures
        encode_utf8(r@) == encode_utf8(old(s)@).subrange(
            at as int,
            encode_utf8(old(s)@).len() as int,
        ),
        encode_utf8(final(s)@) == encode_utf8(old(s)@).subrange(0, at as int) + encode_utf8(
            final(r)@,
        ),
{
    &mut s[at..]
}

impl StringStack {
    /// The buffer holds the strings, and `lens` says where each starts.
    pub closed spec fn wf(&self) -> bool {
        &&& self.data@ == text::joined(self@)
        &&& measures(self.lens@, self@)
        &&& self@.len() > 0 ==> self.lens@[0] == 0
    }

    /// Makes an empty stack.
    pub fn new() -> (r: Self)
        ensures
            r.wf(),
            r@ == Seq::<Seq<char>>::empty(),
    {
        let r = StringStack { data: String::new(), lens: Vec::new() };
        assert(r@ =~= Seq::<Seq<char>>::empty());
        r
    }

    /// How many strings there are.
    pub fn len(&self) -> (r: usize)
        requires
            self.wf(),
        ensures
            r == self@.len(),
    {
        self.lens.len()
    }

    /// Whether there is no string.
    pub fn is_empty(&self) -> (r: bool)
        requires
            self.wf(),
        ensures
            r == (self@.len() == 0),
    {
        self.lens.is_empty()
    }

    /// Removes all strings.
    pub fn clear(&mut self)
        ensures
            final(self).wf(),
            final(self)@ == Seq::<Seq<char>>::empty(),
    {
        self.data = String::new();
        self.lens.clear();
        assert(self@ =~= Seq::<Seq<char>>::empty());
    }

    /// Puts `s` on top.
    pub fn push(&mut self, s: &str)
        requires
            old(self).wf(),
        ensures
            final(self).wf(),
            final(self)@ == old(self)@.push(s@),
    {
        let len = text::text_len(self.data.as_str());
        self.lens.push(len);
        self.data.append(s);
        proof {
            let before = old(self)@;
            let after = before.push(s@);
            text::lemma_joined_push(before, s@);
            text::lemma_byte_len_empty(text::joined(before.take(0)));
            assert(after.take(before.len() as int) =~= before);
            assert forall|i: int| 0 <= i < after.len() implies #[trigger] self.lens@[i]
                == self.lens@[0] + text::byte_len(text::joined(after.take(i))) by {
                if i < before.len() {
                    assert(after.take(i) =~= before.take(i));
                    assert(self.lens@[i] == old(self).lens@[i]);
                } else if i == 0 {
                    assert(before =~= before.take(0));
                }
            }
            lemma_strings_in(self.data@, self.lens@, after);
        }
    }

    /// The string on top.
    pub fn top(&self) -> (r: Option<&str>)
        requires
            self.wf(),
        ensures
            match r {
                Some(s) => self@.len() > 0 && s@ == self@.last(),
                None => self@.len() == 0,
            },
    {
        let n = self.lens.len();
        if n == 0 {
            return None;
        }
        let len = self.lens[n - 1];
        proof {
            self.lemma_top();
        }
        let (_, top) = text::split_text(
            self.data.as_str(),
            len,
            Ghost(text::joined(self@.drop_last()).len() as int),
        );
        Some(top)
    }

    /// The string on top, to be changed in place.
    pub fn top_mut(&mut self) -> (r: Option<&mut str>)
        requires
            old(self).wf(),
        ensures
            match r {
                Some(s) => {
                    &&& old(self)@.len() > 0
                    &&& s@ == old(self)@.last()
                    &&& final(self).wf()
                    &&& final(self)@ == old(self)@.drop_last().push(final(s)@)
                },
                None => old(self)@.len() == 0 && *final(self) == *old(self),
            },
    {
        let n = self.lens.len();
        if n == 0 {
            return None;
        }
        let len = self.lens[n - 1];
        proof {
            self.lemma_top();
            text::lemma_boundary(self.data@, text::joined(self@.drop_last()).len() as int);
            self.lemma_new_top();
        }
        let r = tail_mut(&mut self.data, len);
        Some(r)
    }

    /// Where the string on top stands in the buffer.
    proof fn lemma_top(&self)
        requires
            self.wf(),
            self@.len() > 0,
        ensures
            self.data@ == text::joined(self@.drop_last()) + self@.last(),
            self.lens@.last() == text::byte_len(text::joined(self@.drop_last())),
            self.data@.take(text::joined(self@.drop_last()).len() as int) == text::joined(
                self@.drop_last(),
            ),
            self.data@.skip(text::joined(self@.drop_last()).len() as int) == self@.last(),
    {
        let below = text::joined(self@.drop_last());
        assert(self@.take(self@.len() - 1) =~= self@.drop_last());
        assert(self.lens@[self@.len() - 1] == text::byte_len(below));
        assert(self.data@.take(below.len() as int) =~= below);
        assert(self.data@.skip(below.len() as int) =~= self@.last());
    }

    /// What stands on top can be replaced in the buffer.
    proof fn lemma_new_top(&self)
        requires
            self.wf(),
            self@.len() > 0,
        ensures
            text::byte_len(self.data@) >= self.lens@.last(),
            forall|tail: Seq<char>|
                #[trigger] encode_utf8(tail) == encode_utf8(self.data@).subrange(
                    self.lens@.last() as int,
                    encode_utf8(self.data@).len() as int,
                ) ==> tail == self@.last(),
            forall|data: Seq<char>, tail: Seq<char>|
                #![trigger strings_in(data, self.lens@), encode_utf8(tail)]
                encode_utf8(data) == encode_utf8(self.data@).subrange(
                    0,
                    self.lens@.last() as int,
                ) + encode_utf8(tail) ==> {
                    &&& strings_in(data, self.lens@) == self@.drop_last().push(tail)
                    &&& data == text::joined(self@.drop_last().push(tail))
                    &&& measures(self.lens@, self@.drop_last().push(tail))
                },
    {
        let below = text::joined(self@.drop_last());
        self.lemma_top();
        text::lemma_encode_concat(below, self@.last());
        let bytes = encode_utf8(self.data@);
        assert(bytes.subrange(0, self.lens@.last() as int) =~= encode_utf8(below));
        assert(bytes.subrange(self.lens@.last() as int, bytes.len() as int) =~= encode_utf8(
            self@.last(),
        ));
        assert forall|tail: Seq<char>|
            #[trigger] encode_utf8(tail) == bytes.subrange(
                self.lens@.last() as int,
                bytes.len() as int,
            ) implies tail == self@.last() by {
            text::lemma_encode_injective(tail, self@.last());
        }
        assert forall|data: Seq<char>, tail: Seq<char>|
            #![trigger strings_in(data, self.lens@), encode_utf8(tail)]
            encode_utf8(data) == bytes.subrange(0, self.lens@.last() as int) + encode_utf8(
                tail,
            ) implies {
            &&& strings_in(data, self.lens@) == self@.drop_last().push(tail)
            &&& data == text::joined(self@.drop_last().push(tail))
            &&& measures(self.lens@, self@.drop_last().push(tail))
        } by {
            let after = self@.drop_last().push(tail);
            text::lemma_joined_push(self@.drop_last(), tail);
            text::lemma_encode_concat(below, tail);
            text::lemma_encode_injective(data, below + tail);
            assert forall|i: int| 0 <= i < after.len() implies #[trigger] self.lens@[i]
                == self.lens@[0] + text::byte_len(text::joined(after.take(i))) by {
                assert(after.take(i) =~= self@.take(i));
            }
            lemma_strings_in(data, self.lens@, after);
        }
    }

    /// Takes the string on top off the stack, if there is one.
    pub fn try_pop(&mut self) -> (r: Option<PoppedStr>)
        requires
            old(self).wf(),
        ensures
            final(self).wf(),
            match r {
                Some(s) => {
                    &&& old(self)@.len() > 0
                    &&& s@ == old(self)@.last()
                    &&& final(self)@ == old(self)@.drop_last()
                },
                None => old(self)@.len() == 0 && final(self)@ == old(self)@,
            },
    {
        proof {
            if self@.len() > 0 {
                self.lemma_top();
            }
        }
        match self.lens.pop() {
            Some(len) => {
                let ghost before = old(self)@;
                let (below, top) = text::split_text(
                    self.data.as_str(),
                    len,
                    Ghost(text::joined(before.drop_last()).len() as int),
                );
                let popped = PoppedStr { text: top.to_owned() };
                let below = below.to_owned();
                self.data = below;
                proof {
                    let after = before.drop_last();
                    assert forall|i: int| 0 <= i < after.len() implies #[trigger] self.lens@[i]
                        == self.lens@[0] + text::byte_len(text::joined(after.take(i))) by {
                        assert(after.take(i) =~= before.take(i));
                        assert(self.lens@[i] == old(self).lens@[i]);
                    }
                    lemma_strings_in(self.data@, self.lens@, after);
                }
                Some(popped)
            },
            None => None,
        }
    }

    /// Takes the string on top off a stack that has one.
    pub fn pop(&mut self) -> (r: PoppedStr)
        requires
            old(self).wf(),
            old(self)@.len() > 0,
        ensures
            final(self).wf(),
            r@ == old(self)@.last(),
            final(self)@ == old(self)@.drop_last(),
    {
        self.try_pop().expect("StringStack not empty")
    }

    /// All the strings one behind the other, lowest first.
    pub fn as_str(&self) -> (r: &str)
        requires
            self.wf(),
        ensures
            r@ == text::joined(self@),
    {
        self.data.as_str()
    }

    /// The strings from the top down.
    pub fn iter(&self) -> (r: Iter<'_>)
        requires
            self.wf(),
        ensures
            r.wf(),
            r@ == self@,
    {
        Iter { data: self.data.as_str(), lens: self.lens.as_slice() }
    }

    /// Puts all of `items` on the stack, the first one first.
    pub fn extend(&mut self, items: &[&str])
        requires
            old(self).wf(),
        ensures
            final(self).wf(),
            final(self)@ == old(self)@ + items@.map_values(|s: &str| s@),
    {
        let mut i: usize = 0;
        let ghost texts = items@.map_values(|s: &str| s@);
        assert(self@ =~= old(self)@ + texts.take(0));
        while i < items.len()
            invariant
                i <= items@.len(),
                texts == items@.map_values(|s: &str| s@),
                self.wf(),
                self@ == old(self)@ + texts.take(i as int),
            decreases items@.len() - i,
        {
            self.push(items[i]);
            assert(self@ =~= old(self)@ + texts.take(i + 1));
            i = i + 1;
        }
        assert(texts.take(i as int) =~= texts);
    }

    /// Makes a stack of `items`, the first one lowest.
    pub fn from_iter(items: &[&str]) -> (r: Self)
        ensures
            r.wf(),
            r@ == items@.map_values(|s: &str| s@),
    {
        let mut stack = Self::new();
        stack.extend(items);
        assert(stack@ =~= items@.map_values(|s: &str| s@));
        stack
    }
}

impl Default for StringStack {
    fn default() -> (r: Self)
        ensures
            r.wf(),
            r@ == Seq::<Seq<char>>::empty(),
    {
        StringStack::new()
    }
}

impl Clone for StringStack {
    fn clone(&self) -> (r: Self)
        ensures
            r@ == self@,
            self.wf() ==> r.wf(),
    {
        let r = StringStack { data: self.data.clone(), lens: self.lens.clone() };
        assert(r.lens@ =~= self.lens@);
        r
    }
}

/// The strings of a stack that have not been handed out yet.
pub struct Iter<'a> {
    data: &'a str,
    lens: &'a [usize],
}

impl<'a> View for Iter<'a> {
    type V = Seq<Seq<char>>;

    /// The strings that are left, lowest first.
    closed spec fn view(&self) -> Seq<Seq<char>> {
        strings_in(self.data@, self.lens@)
    }
}

impl<'a> Iter<'a> {
    /// The data holds the strings that are left, and `lens` says how far apart they start.
    pub closed spec fn wf(&self) -> bool {
        &&& self@.len() > 0 ==> self.data@ == text::joined(self@)
        &&& measures(self.lens@, self@)
    }

    /// Takes the highest of the strings.
    pub fn next(&mut self) -> (r: Option<&'a str>)
        requires
            old(self).wf(),
        ensures
            final(self).wf(),
            match r {
                Some(s) => {
                    &&& old(self)@.len() > 0
                    &&& s@ == old(self)@.last()
                    &&& final(self)@ == old(self)@.drop_last()
                },
                None => old(self)@.len() == 0 && *final(self) == *old(self),
            },
    {
        let n = self.lens.len();
        if n == 0 {
            return None;
        }
        let ghost before = self@;
        let ghost below = text::joined(before.drop_last());
        let segment_start = self.lens[n - 1];
        let (init, _) = self.lens.split_at(n - 1);
        proof {
            assert(before.take(n - 1) =~= before.drop_last());
            assert(self.data@.take(below.len() as int) =~= below);
            assert(self.data@.skip(below.len() as int) =~= before.last());
            assert forall|i: int| 0 <= i < n - 1 implies #[trigger] init@[i] == init@[0]
                + text::byte_len(text::joined(before.drop_last().take(i))) by {
                assert(before.drop_last().take(i) =~= before.take(i));
                assert(init@[i] == self.lens@[i]);
            }
        }
        self.lens = init;
        if init.len() > 0 {
            let start = segment_start - init[0];
            let (rest, segment) = text::split_text(self.data, start, Ghost(below.len() as int));
            self.data = rest;
            proof {
                lemma_strings_in(self.data@, self.lens@, before.drop_last());
            }
            Some(segment)
        } else {
            assert(self.data@ =~= before.last());
            assert(self@ =~= before.drop_last());
            Some(self.data)
        }
    }

    /// Takes the lowest of the strings.
    pub fn next_back(&mut self) -> (r: Option<&'a str>)
        requires
            old(self).wf(),
        ensures
            final(self).wf(),
            match r {
                Some(s) => {
                    &&& old(self)@.len() > 0
                    &&& s@ == old(self)@.first()
                    &&& final(self)@ == old(self)@.drop_first()
                },
                None => old(self)@.len() == 0 && *final(self) == *old(self),
            },
    {
        let n = self.lens.len();
        if n == 0 {
            return None;
        }
        let ghost before = self@;
        let ghost above = text::joined(before.drop_first());
        let ghost first = before.first();
        let offset = self.lens[0];
        let (_, tail) = self.lens.split_at(1);
        proof {
            assert(before.take(1) =~= seq![first]);
            assert(text::joined(seq![first]) =~= first) by {
                text::lemma_joined_push(Seq::empty(), first);
                assert(Seq::<Seq<char>>::empty().push(first) =~= seq![first]);
            }
            text::lemma_joined_concat(seq![first], before.drop_first());
            assert(seq![first] + before.drop_first() =~= before);
            assert(self.data@.take(first.len() as int) =~= first);
            assert(self.data@.skip(first.len() as int) =~= above);
            assert forall|i: int| 0 <= i < n - 1 implies #[trigger] tail@[i] == tail@[0]
                + text::byte_len(text::joined(before.drop_first().take(i))) by {
                assert(tail@[i] == self.lens@[i + 1]);
                assert(tail@[0] == self.lens@[1]);
                let part = before.drop_first().take(i);
                assert(before.take(i + 1) =~= seq![first] + part);
                text::lemma_joined_concat(seq![first], part);
                text::lemma_encode_concat(first, text::joined(part));
            }
        }
        self.lens = tail;
        if tail.len() > 0 {
            assert(tail@[0] == old(self).lens@[1]);
            let end = tail[0] - offset;
            let (segment, rest) = text::split_text(self.data, end, Ghost(first.len() as int));
            self.data = rest;
            proof {
                lemma_strings_in(self.data@, self.lens@, before.drop_first());
            }
            Some(segment)
        } else {
            assert(above =~= Seq::<char>::empty());
            assert(self.data@ =~= first);
            assert(self@ =~= before.drop_first());
            Some(self.data)
        }
    }

    /// How many strings are left at least, and at most.
    pub fn size_hint(&self) -> (r: (usize, Option<usize>))
        requires
            self.wf(),
        ensures
            r.0 == self@.len(),
            r.1 == Some(r.0),
    {
        let n = self.lens.len();
        (n, Some(n))
    }

    /// How many strings are left.
    pub fn count(self) -> (r: usize)
        requires
            self.wf(),
        ensures
            r == self@.len(),
    {
        self.lens.len()
    }

    /// The lowest of the strings.
    pub fn last(self) -> (r: Option<&'a str>)
        requires
            self.wf(),
        ensures
            match r {
                Some(s) => self@.len() > 0 && s@ == self@.first(),
                None => self@.len() == 0,
            },
    {
        let mut iter = self;
        iter.next_back()
    }

    /// How many strings are left.
    pub fn len(&self) -> (r: usize)
        requires
            self.wf(),
        ensures
            r == self@.len(),
    {
        self.lens.len()
    }
}

impl<'a> Clone for Iter<'a> {
    fn clone(&self) -> (r: Self)
        ensures
            r == *self,
    {
        Iter { data: self.data, lens: self.lens }
    }
}

/// A string that was taken off a stack.
pub struct PoppedStr {
    text: String,
}

impl View for PoppedStr {
    type V = Seq<char>;

    closed spec fn view(&self) -> Seq<char> {
        self.text@
    }
}

impl PoppedStr {
    /// The string.
    pub fn as_str(&self) -> (r: &str)
        ensures
            r@ == self@,
    {
        self.text.as_str()
    }

    /// The string, to be changed in place.
    pub fn as_str_mut(&mut self) -> (r: &mut str)
        ensures
            r@ == old(self)@,
            final(self)@ == final(r)@,
    {
        proof {
            text::lemma_boundary(self.text@, 0);
            text::lemma_byte_len_empty(self.text@.take(0));
        }
        let ghost before = self.text@;
        let r = tail_mut(&mut self.text, 0);
        proof {
            assert(encode_utf8(r@) =~= encode_utf8(before));
            text::lemma_encode_injective(r@, before);
            assert forall|whole: Seq<char>, part: Seq<char>|
                #[trigger] encode_utf8(whole) == encode_utf8(before).subrange(0, 0)
                    + #[trigger] encode_utf8(part) implies whole == part by {
                assert(encode_utf8(whole) =~= encode_utf8(part));
                text::lemma_encode_injective(whole, part);
            }
        }
        r
    }
}

impl AsRef<str> for PoppedStr {
    fn as_ref(&self) -> (r: &str)
        ensures
            r@ == self@,
    {
        self.as_str()
    }
}

impl std::ops::Deref for PoppedStr {
    type Target = str;

    fn deref(&self) -> (r: &str)
        ensures
            r@ == self@,
    {
        self.as_str()
    }
}

impl AsMut<str> for PoppedStr {
    fn as_mut(&mut self) -> (r: &mut str)
        ensures
            r@ == old(self)@,
            final(self)@ == final(r)@,
    {
        self.as_str_mut()
    }
}

impl std::ops::DerefMut for PoppedStr {
    fn deref_mut(&mut self) -> (r: &mut str)
        ensures
            r@ == old(self)@,
            final(self)@ == final(r)@,
    {
        self.as_str_mut()
    }
}

/// What was pushed is on top, and popping it leaves the stack as it was.
pub proof fn law_push_pop(stack: Seq<Seq<char>>, s: Seq<char>)
    ensures
        stack.push(s).last() == s,
        stack.push(s).drop_last() == stack,
        text::joined(stack.push(s)) == text::joined(stack) + s,
{
    text::lemma_joined_push(stack, s);
    assert(stack.push(s).drop_last() =~= stack);
}

/// Reading a stack from both ends at once: with `low` strings taken from below and `high` from the
/// top, the next one from below and the next one from the top are the outermost of what is left,
/// and each string is handed out once.
pub proof fn law_iter_both_ends(strings: Seq<Seq<char>>, low: int, high: int)
    requires
        0 <= low,
        0 <= high,
        low + high < strings.len(),
    ensures
        ({
            let left = strings.subrange(low, strings.len() - high);
            &&& left.first() == strings[low]
            &&& left.drop_first() == strings.subrange(low + 1, strings.len() - high)
            &&& left.last() == strings[strings.len() - high - 1]
            &&& left.drop_last() == strings.subrange(low, strings.len() - high - 1)
        }),
{
    let left = strings.subrange(low, strings.len() - high);
    assert(left.drop_first() =~= strings.subrange(low + 1, strings.len() - high));
    assert(left.drop_last() =~= strings.subrange(low, strings.len() - high - 1));
}

/// Popping behind a push gives back the string that was pushed, and the stack as it was.
pub proof fn law_popped_back(
    pushed: &mut StringStack,
    popped: &mut StringStack,
    s: &str,
    r: Option<PoppedStr>,
)
    requires
        call_ensures(StringStack::push, (pushed, s), ()),
        *old(popped) == *final(pushed),
        call_ensures(StringStack::try_pop, (popped,), r),
    ensures
        r matches Some(top) && top@ == s@,
        final(popped)@ == old(pushed)@,
{
    law_push_pop(old(pushed)@, s@);
}

} // verus!
