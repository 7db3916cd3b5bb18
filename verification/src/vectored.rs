//! Writing several byte strings to something that takes as many bytes at once as it likes.
use vstd::prelude::*;

use crate::bytes;

verus! {

/// What is left of `slices` without their first `n` bytes; slices without bytes at the front are
/// left out.
pub open spec fn advanced(slices: Seq<Seq<u8>>, n: nat) -> Seq<Seq<u8>>
    decreases slices.len(),
{
    if slices.len() == 0 {
        slices
    } else if slices[0].len() <= n {
        advanced(slices.skip(1), (n - slices[0].len()) as nat)
    } else {
        seq![slices[0].skip(n as int)] + slices.skip(1)
    }
}

/// Leaving out bytes leaves the others, and a slice without bytes does not come first.
pub proof fn law_advanced(slices: Seq<Seq<u8>>, n: nat)
    requires
        n <= bytes::concatenated(slices).len(),
    ensures
        bytes::concatenated(advanced(slices, n)) == bytes::concatenated(slices).skip(n as int),
        advanced(slices, n).len() > 0 ==> advanced(slices, n)[0].len() > 0,
        advanced(slices, n).len() == 0 <==> n == bytes::concatenated(slices).len(),
    decreases slices.len(),
{
    let all = bytes::concatenated(slices);
    if slices.len() == 0 {
        assert(all.skip(n as int) =~= all);
    } else if slices[0].len() <= n {
        let m = (n - slices[0].len()) as nat;
        law_advanced(slices.skip(1), m);
        assert(all.skip(n as int) =~= bytes::concatenated(slices.skip(1)).skip(m as int));
    } else {
        let rest = advanced(slices, n);
        assert(rest.skip(1) =~= slices.skip(1));
        assert(bytes::concatenated(rest) =~= all.skip(n as int));
    }
}

/// The bytes that a writer has taken that took `counts[0]` of the bytes in `slices` first, then
/// `counts[1]` of the others, and so on.
pub open spec fn taken(slices: Seq<Seq<u8>>, counts: Seq<nat>) -> Seq<u8>
    decreases counts.len(),
{
    if counts.len() == 0 {
        Seq::empty()
    } else {
        bytes::concatenated(slices).take(counts[0] as int) + taken(
            advanced(slices, counts[0]),
            counts.skip(1),
        )
    }
}

/// What is left behind those bytes.
pub open spec fn left(slices: Seq<Seq<u8>>, counts: Seq<nat>) -> Seq<Seq<u8>>
    decreases counts.len(),
{
    if counts.len() == 0 {
        slices
    } else {
        left(advanced(slices, counts[0]), counts.skip(1))
    }
}

/// A writer never takes more bytes than it is offered.
pub open spec fn possible(slices: Seq<Seq<u8>>, counts: Seq<nat>) -> bool
    decreases counts.len(),
{
    counts.len() > 0 ==> {
        &&& counts[0] <= bytes::concatenated(slices).len()
        &&& possible(advanced(slices, counts[0]), counts.skip(1))
    }
}

/// However many bytes a writer takes at once, it gets all bytes in their order, and each once.
pub proof fn law_write_all(slices: Seq<Seq<u8>>, counts: Seq<nat>)
    requires
        possible(slices, counts),
    ensures
        taken(slices, counts) + bytes::concatenated(left(slices, counts)) == bytes::concatenated(
            slices,
        ),
        left(slices, counts).len() == 0 ==> taken(slices, counts) == bytes::concatenated(slices),
    decreases counts.len(),
{
    let all = bytes::concatenated(slices);
    if counts.len() > 0 {
        let n = counts[0];
        let rest = advanced(slices, n);
        law_advanced(slices, n);
        law_write_all(rest, counts.skip(1));
        let tail = bytes::concatenated(left(rest, counts.skip(1)));
        assert(taken(slices, counts) + tail =~= all.take(n as int) + (taken(rest, counts.skip(1))
            + tail));
        assert(all.take(n as int) + all.skip(n as int) =~= all);
    }
    assert(taken(slices, counts) + bytes::concatenated(left(slices, counts)) =~= all);
    if left(slices, counts).len() == 0 {
        assert(taken(slices, counts) =~= all);
    }
}

/// What came of offering bytes to a writer.
pub enum Written<E> {
    /// It took that many of them.
    Count(usize),
    /// It was interrupted, and took none.
    Interrupted,
    /// It failed.
    Failed(E),
}

/// Why not all bytes could be written.
#[derive(Debug)]
pub enum WriteError<E> {
    /// The writer takes no more bytes.
    WriteZero,
    /// The writer failed.
    Failed(E),
}

/// Byte strings that are being written.
pub struct VectoredWrite<'a> {
    bufs: Vec<&'a [u8]>,
}

impl<'a> View for VectoredWrite<'a> {
    type V = Seq<Seq<u8>>;

    /// What is still to be written.
    closed spec fn view(&self) -> Seq<Seq<u8>> {
        bytes::contents(self.bufs@)
    }
}

/// Starts to write the bytes of `bufs`.
pub fn write_all_vectored<'a>(bufs: Vec<&'a [u8]>) -> (r: VectoredWrite<'a>)
    ensures
        r.wf(),
        r@ == advanced(bytes::contents(bufs@), 0),
{
    let mut r = VectoredWrite { bufs };
    // This skips empty slices at the start.
    r.advance_slices(0);
    r
}

impl<'a> VectoredWrite<'a> {
    /// The first slice holds something.
    pub open spec fn wf(&self) -> bool {
        self@.len() > 0 ==> self@[0].len() > 0
    }

    /// Leaves out the first `n` bytes, and empty slices behind them.
    fn advance_slices(&mut self, n: usize)
        requires
            n <= bytes::concatenated(old(self)@).len(),
        ensures
            final(self).wf(),
            final(self)@ == advanced(old(self)@, n as nat),
    {
        proof {
            law_advanced(self@, n as nat);
        }
        let mut rest: Vec<&'a [u8]> = Vec::new();
        let mut left = n;
        let mut i: usize = 0;
        let ghost all = self@;
        assert(all.skip(0) =~= all);
        while i < self.bufs.len() && self.bufs[i].len() <= left
            invariant
                i <= self.bufs@.len(),
                self.bufs@ == old(self).bufs@,
                all == bytes::contents(self.bufs@),
                advanced(all, n as nat) == advanced(all.skip(i as int), left as nat),
            decreases self.bufs@.len() - i,
        {
            assert(all.skip(i as int)[0] == self.bufs@[i as int]@);
            assert(all.skip(i as int).skip(1) =~= all.skip(i + 1));
            left = left - self.bufs[i].len();
            i = i + 1;
        }
        if i < self.bufs.len() {
            let (_, tail) = self.bufs[i].split_at(left);
            rest.push(tail);
            assert(all.skip(i as int)[0] == self.bufs@[i as int]@);
            assert(all.skip(i as int).skip(1) =~= all.skip(i + 1));
            assert(tail@ =~= all[i as int].skip(left as int));
            let ghost wanted = seq![tail@] + all.skip(i + 1);
            i = i + 1;
            assert(bytes::contents(rest@) =~= wanted.take(1));
            while i < self.bufs.len()
                invariant
                    rest@.len() == wanted.len() - (self.bufs@.len() - i),
                    0 < i <= self.bufs@.len(),
                    self.bufs@ == old(self).bufs@,
                    all == bytes::contents(self.bufs@),
                    wanted.len() <= self.bufs@.len(),
                    forall|j: int| #![auto]
                        rest@.len() <= j < wanted.len() ==> wanted[j] == all[j + i - rest@.len()],
                    bytes::contents(rest@) == wanted.take(rest@.len() as int),
                decreases self.bufs@.len() - i,
            {
                rest.push(self.bufs[i]);
                assert(bytes::contents(rest@) =~= wanted.take(rest@.len() as int));
                i = i + 1;
            }
            assert(bytes::contents(rest@) =~= wanted);
        } else {
            assert(all.skip(i as int) =~= Seq::<Seq<u8>>::empty());
            assert(bytes::contents(rest@) =~= Seq::<Seq<u8>>::empty());
        }
        self.bufs = rest;
    }

    /// Whether nothing is left to be written.
    pub fn is_done(&self) -> (r: bool)
        requires
            self.wf(),
        ensures
            r == (self@.len() == 0),
            r == (bytes::concatenated(self@).len() == 0),
    {
        self.bufs.is_empty()
    }

    /// What is to be offered to the writer next.
    pub fn pending(&self) -> (r: &[&'a [u8]])
        ensures
            bytes::contents(r@) == self@,
    {
        self.bufs.as_slice()
    }

    /// Takes notice of what came of offering everything that is left.
    pub fn wrote<E>(&mut self, written: Written<E>) -> (r: Result<(), WriteError<E>>)
        requires
            old(self).wf(),
            written matches Written::Count(n) ==> n <= bytes::concatenated(old(self)@).len(),
        ensures
            final(self).wf(),
            match written {
                Written::Count(n) => {
                    if n == 0 {
                        r == Err::<(), _>(WriteError::<E>::WriteZero) && final(self)@ == old(self)@
                    } else {
                        r is Ok && final(self)@ == advanced(old(self)@, n as nat)
                    }
                },
                Written::Interrupted => r is Ok && final(self)@ == old(self)@,
                Written::Failed(e) => {
                    r == Err::<(), _>(WriteError::Failed(e)) && final(self)@ == old(self)@
                },
            },
    {
        match written {
            Written::Count(n) => {
                if n == 0 {
                    return Err(WriteError::WriteZero);
                }
                self.advance_slices(n);
                Ok(())
            },
            Written::Interrupted => Ok(()),
            Written::Failed(e) => Err(WriteError::Failed(e)),
        }
    }
}

/// Leaving out the bytes of the first `k` slices and `m` bytes of the next leaves the rest of that
/// slice, and the slices behind it as they are. Leaving out all bytes leaves no slice.
pub proof fn law_advanced_parts(slices: Seq<Seq<u8>>, k: int, m: nat)
    requires
        0 <= k < slices.len(),
        m < slices[k].len(),
    ensures
        advanced(slices, bytes::concatenated(slices.take(k)).len() + m) == seq![
            slices[k].skip(m as int),
        ] + slices.skip(k + 1),
        advanced(slices, bytes::concatenated(slices).len()) == Seq::<Seq<u8>>::empty(),
    decreases k,
{
    law_advanced(slices, bytes::concatenated(slices).len());
    if k == 0 {
        assert(bytes::concatenated(slices.take(0)).len() == 0);
    } else {
        let rest = slices.skip(1);
        law_advanced_parts(rest, k - 1, m);
        assert(slices.take(k).skip(1) =~= rest.take(k - 1));
        assert(slices.take(k)[0] == slices[0]);
        assert(rest.skip(k) =~= slices.skip(k + 1));
    }
}

/// After the writer took some bytes, just the others are left, in their order; and after it took none
/// or failed, all of them are.
pub proof fn law_wrote<'a, E>(
    left: &mut VectoredWrite<'a>,
    written: Written<E>,
    r: Result<(), WriteError<E>>,
)
    requires
        written matches Written::Count(n) ==> n <= bytes::concatenated(old(left)@).len(),
        call_ensures(VectoredWrite::<'a>::wrote::<E>, (left, written), r),
    ensures
        bytes::concatenated(final(left)@) == (match written {
            Written::Count(n) => bytes::concatenated(old(left)@).skip(n as int),
            _ => bytes::concatenated(old(left)@),
        }),
        r is Ok <==> match written {
            Written::Count(n) => n > 0,
            Written::Interrupted => true,
            Written::Failed(_) => false,
        },
        written matches Written::Failed(e) ==> r == Err::<(), WriteError<E>>(WriteError::Failed(e)),
        written matches Written::Count(n) && n == 0 ==> r == Err::<(), WriteError<E>>(
            WriteError::WriteZero,
        ),
{
    let all = bytes::concatenated(old(left)@);
    if let Written::Count(n) = written {
        law_advanced(old(left)@, n as nat);
        if n == 0 {
            assert(all.skip(0) =~= all);
        }
    }
}

} // verus!
