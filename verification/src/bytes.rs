//! Byte strings.
use vstd::prelude::*;

verus! {

/// Whether `s` begins with `prefix`.
pub open spec fn begins_with(s: Seq<u8>, prefix: Seq<u8>) -> bool {
    prefix.len() <= s.len() && s.take(prefix.len() as int) == prefix
}

/// The bytes that ASCII counts as white space.
pub open spec fn ascii_white_space(b: u8) -> bool {
    b == 0x20 || b == 0x09 || b == 0x0a || b == 0x0c || b == 0x0d
}

/// `s` without the ASCII white space at its end.
pub open spec fn trim_ascii_end(s: Seq<u8>) -> Seq<u8>
    decreases s.len(),
{
    if s.len() > 0 && ascii_white_space(s.last()) {
        trim_ascii_end(s.drop_last())
    } else {
        s
    }
}

/// `b` with ASCII capitals made small.
pub open spec fn lower_case(b: u8) -> u8 {
    if 0x41 <= b <= 0x5a {
        (b + 0x20) as u8
    } else {
        b
    }
}

/// Whether `a` and `b` differ at most between ASCII capitals and small letters.
pub open spec fn same_letters(a: Seq<u8>, b: Seq<u8>) -> bool {
    a.map_values(|x: u8| lower_case(x)) == b.map_values(|x: u8| lower_case(x))
}

/// The byte strings `parts` one behind the other.
pub open spec fn concatenated(parts: Seq<Seq<u8>>) -> Seq<u8>
    decreases parts.len(),
{
    if parts.len() == 0 {
        Seq::empty()
    } else {
        parts[0] + concatenated(parts.skip(1))
    }
}

/// What slices hold.
pub open spec fn contents(slices: Seq<&[u8]>) -> Seq<Seq<u8>> {
    slices.map_values(|s: &[u8]| s@)
}

/// Whether `s` begins with `prefix`.
pub fn has_prefix(s: &[u8], prefix: &[u8]) -> (r: bool)
    ensures
        r == begins_with(s@, prefix@),
{
    if s.len() < prefix.len() {
        return false;
    }
    let mut i: usize = 0;
    while i < prefix.len()
        invariant
            i <= prefix@.len() <= s@.len(),
            forall|j: int| 0 <= j < i ==> s@[j] == prefix@[j],
        decreases prefix@.len() - i,
    {
        if s[i] != prefix[i] {
            assert(s@.take(prefix@.len() as int)[i as int] != prefix@[i as int]);
            return false;
        }
        i = i + 1;
    }
    assert(s@.take(prefix@.len() as int) =~= prefix@);
    true
}

/// Cuts off the ASCII white space at the end of `s`.
pub fn trim_end(s: &[u8]) -> (r: &[u8])
    ensures
        r@ == trim_ascii_end(s@),
{
    let mut n = s.len();
    assert(s@.take(n as int) =~= s@);
    while n > 0
        invariant
            n <= s@.len(),
            trim_ascii_end(s@.take(n as int)) == trim_ascii_end(s@),
        ensures
            n <= s@.len(),
            s@.take(n as int) == trim_ascii_end(s@),
        decreases n,
    {
        let b = s[n - 1];
        if b != 0x20 && b != 0x09 && b != 0x0a && b != 0x0c && b != 0x0d {
            break;
        }
        assert(s@.take(n as int).drop_last() =~= s@.take(n - 1));
        n = n - 1;
    }
    let (front, _) = s.split_at(n);
    assert(front@ =~= s@.take(n as int));
    front
}

/// `b` with ASCII capitals made small.
fn to_lower_case(b: u8) -> (r: u8)
    ensures
        r == lower_case(b),
{
    if 0x41 <= b && b <= 0x5a {
        b + 0x20
    } else {
        b
    }
}

/// Whether `a` and `b` differ at most between ASCII capitals and small letters.
pub fn eq_ignore_case(a: &[u8], b: &[u8]) -> (r: bool)
    ensures
        r == same_letters(a@, b@),
{
    let ghost x = a@.map_values(|x: u8| lower_case(x));
    let ghost y = b@.map_values(|x: u8| lower_case(x));
    if a.len() != b.len() {
        assert(x.len() != y.len());
        return false;
    }
    let mut i: usize = 0;
    while i < a.len()
        invariant
            i <= a@.len() == b@.len(),
            x == a@.map_values(|x: u8| lower_case(x)),
            y == b@.map_values(|x: u8| lower_case(x)),
            forall|j: int| 0 <= j < i ==> x[j] == y[j],
        decreases a@.len() - i,
    {
        if to_lower_case(a[i]) != to_lower_case(b[i]) {
            assert(x[i as int] != y[i as int]);
            return false;
        }
        i = i + 1;
    }
    assert(x =~= y);
    true
}

/// A byte string begins with another just if it is that other with something behind it.
pub proof fn law_begins_with(s: Seq<u8>, prefix: Seq<u8>)
    ensures
        begins_with(s, prefix) <==> exists|rest: Seq<u8>| s == #[trigger] (prefix + rest),
{
    if begins_with(s, prefix) {
        assert(s =~= prefix + s.skip(prefix.len() as int));
    }
    if exists|rest: Seq<u8>| s == #[trigger] (prefix + rest) {
        let rest = choose|rest: Seq<u8>| s == #[trigger] (prefix + rest);
        assert(s.take(prefix.len() as int) =~= prefix);
    }
}

/// Cutting off the white space behind a byte string that does not end with white space gives back
/// that byte string. White space are tabulator, line feed, form feed, carriage return and space.
pub proof fn law_trim_end(front: Seq<u8>, space: Seq<u8>)
    requires
        front.len() > 0 ==> front.last() != 9 && front.last() != 10 && front.last() != 12
            && front.last() != 13 && front.last() != 32,
        forall|k: int|
            0 <= k < space.len() ==> #[trigger] space[k] == 9 || space[k] == 10 || space[k] == 12
                || space[k] == 13 || space[k] == 32,
    ensures
        trim_ascii_end(front + space) == front,
    decreases space.len(),
{
    let s = front + space;
    if space.len() > 0 {
        let less = space.drop_last();
        assert(s.last() == space[space.len() - 1]);
        assert(s.drop_last() =~= front + less);
        assert forall|k: int| 0 <= k < less.len() implies #[trigger] less[k] == 9 || less[k] == 10
            || less[k] == 12 || less[k] == 13 || less[k] == 32 by {
            assert(less[k] == space[k]);
        }
        law_trim_end(front, less);
    } else {
        assert(s =~= front);
    }
}

/// Two byte strings have the same letters just if they are as long as each other, and each two
/// bytes in the same place are the same, or a capital of ASCII and the small letter 32 places
/// behind it.
pub proof fn law_same_letters(a: Seq<u8>, b: Seq<u8>)
    ensures
        same_letters(a, b) <==> a.len() == b.len() && forall|k: int|
            0 <= k < a.len() ==> {
                ||| #[trigger] a[k] == b[k]
                ||| 65 <= a[k] <= 90 && b[k] == a[k] + 32
                ||| 65 <= b[k] <= 90 && a[k] == b[k] + 32
            },
{
    let x = a.map_values(|c: u8| lower_case(c));
    let y = b.map_values(|c: u8| lower_case(c));
    if same_letters(a, b) {
        assert(x.len() == y.len());
        assert forall|k: int| 0 <= k < a.len() implies {
            ||| #[trigger] a[k] == b[k]
            ||| 65 <= a[k] <= 90 && b[k] == a[k] + 32
            ||| 65 <= b[k] <= 90 && a[k] == b[k] + 32
        } by {
            assert(x[k] == y[k]);
        }
    }
    if a.len() == b.len() && forall|k: int|
        0 <= k < a.len() ==> {
            ||| #[trigger] a[k] == b[k]
            ||| 65 <= a[k] <= 90 && b[k] == a[k] + 32
            ||| 65 <= b[k] <= 90 && a[k] == b[k] + 32
        } {
        assert forall|k: int| 0 <= k < x.len() implies #[trigger] x[k] == y[k] by {
            assert(a[k] == a[k]);
        }
        assert(x =~= y);
    }
}

/// Byte strings one behind the other.
pub proof fn law_concatenated(a: Seq<Seq<u8>>, s: Seq<u8>, b: Seq<Seq<u8>>)
    ensures
        concatenated(Seq::empty()) == Seq::<u8>::empty(),
        concatenated(a + seq![s] + b) == concatenated(a) + s + concatenated(b),
    decreases a.len(),
{
    let all = a + seq![s] + b;
    if a.len() == 0 {
        assert(all.skip(1) =~= b);
        assert(all[0] == s);
        assert(concatenated(all) =~= concatenated(a) + s + concatenated(b));
    } else {
        law_concatenated(a.skip(1), s, b);
        assert(all.skip(1) =~= a.skip(1) + seq![s] + b);
        assert(all[0] == a[0]);
        assert(concatenated(all) =~= concatenated(a) + s + concatenated(b));
    }
}

} // verus!
