//! Hashing what is written.
use vstd::prelude::*;

use crate::bytes;
use crate::source_hash;

verus! {

/// A hash function that takes its input in pieces.
pub trait Digest: Sized {
    /// The digest of `input`.
    spec fn digest_of(input: Seq<u8>) -> Seq<u8>;

    /// The input so far.
    spec fn input(&self) -> Seq<u8>;

    /// Starts without input.
    fn start() -> (r: Self)
        ensures
            r.input() == Seq::<u8>::empty(),
    ;

    /// Takes further input.
    fn update(&mut self, data: &[u8])
        ensures
            final(self).input() == old(self).input() + data@,
    ;

    /// The digest of the whole input.
    fn finalize_fixed(self) -> (r: Vec<u8>)
        ensures
            r@ == Self::digest_of(self.input()),
    ;
}

/// The streaming hasher `sha2::Sha256`.
#[verifier::external_body]
pub struct Sha256 {
    hasher: sha2::Sha256,
}

/// The bytes that a hasher has been given.
pub uninterp spec fn hashed_input(hasher: Sha256) -> Seq<u8>;

/// `new` of `sha2::Sha256`. The claim: the hasher has been given nothing.
#[verifier::external_body]
fn sha256_new() -> (r: Sha256)
    ensures
        hashed_input(r) == Seq::<u8>::empty(),
{
    Sha256 { hasher: <sha2::Sha256 as sha2::Digest>::new() }
}

/// `update` of `sha2::Sha256`. The claim: the hasher has been given `data` behind what it had been
/// given before.
#[verifier::external_body]
fn sha256_update(hasher: &mut Sha256, data: &[u8])
    ensures
        hashed_input(*final(hasher)) == hashed_input(*old(hasher)) + data@,
{
    sha2::Digest::update(&mut hasher.hasher, data)
}

/// `finalize` of `sha2::Sha256`. The claim: it gives what `sha2::Sha256::digest` gives of all bytes
/// that the hasher has been given.
#[verifier::external_body]
fn sha256_finalize(hasher: Sha256) -> (r: [u8; 32])
    ensures
        r@ == source_hash::sha256_digest(hashed_input(hasher)),
{
    sha2::Digest::finalize(hasher.hasher).into()
}

impl Digest for Sha256 {
    open spec fn digest_of(input: Seq<u8>) -> Seq<u8> {
        source_hash::sha256_digest(input)
    }

    open spec fn input(&self) -> Seq<u8> {
        hashed_input(*self)
    }

    fn start() -> (r: Self) {
        sha256_new()
    }

    fn update(&mut self, data: &[u8]) {
        sha256_update(self, data);
    }

    fn finalize_fixed(self) -> (r: Vec<u8>) {
        let digest = sha256_finalize(self);
        let mut r: Vec<u8> = Vec::new();
        r.extend_from_slice(digest.as_slice());
        assert(r@ =~= digest@);
        r
    }
}

/// A writer together with the digest of the bytes that it took.
///
/// The calls of the writer are made outside; what came of each is told to `write`, `write_all` or
/// `write_vectored`.
pub struct HashWriter<D, W> {
    writer: W,
    digest: D,
}

/// A writer, and the bytes that it took.
pub struct Accepted<W> {
    pub writer: W,
    pub bytes: Seq<u8>,
}

impl<D: Digest, W> View for HashWriter<D, W> {
    type V = Accepted<W>;

    closed spec fn view(&self) -> Accepted<W> {
        Accepted { writer: self.writer, bytes: self.digest.input() }
    }
}

impl<D: Digest, W> HashWriter<D, W> {
    /// Starts to hash what `writer` takes.
    pub fn new(writer: W) -> (r: Self)
        ensures
            r@ == (Accepted { writer, bytes: Seq::empty() }),
    {
        HashWriter { writer, digest: D::start() }
    }

    /// The writer, to be written to.
    pub fn writer_mut(&mut self) -> (r: &mut W)
        ensures
            *r == old(self)@.writer,
            final(self)@ == (Accepted { writer: *final(r), bytes: old(self)@.bytes }),
    {
        &mut self.writer
    }

    /// The writer took the first `n` bytes of `buf`.
    pub fn write(&mut self, buf: &[u8], n: usize)
        requires
            n <= buf@.len(),
        ensures
            final(self)@ == (Accepted {
                bytes: old(self)@.bytes + buf@.take(n as int),
                ..old(self)@
            }),
    {
        let (front, _) = buf.split_at(n);
        self.digest.update(front);
        assert(self@.bytes =~= old(self)@.bytes + buf@.take(n as int));
    }

    /// The writer took all of `buf`.
    pub fn write_all(&mut self, buf: &[u8])
        ensures
            final(self)@ == (Accepted { bytes: old(self)@.bytes + buf@, ..old(self)@ }),
    {
        self.digest.update(buf);
        assert(self@.bytes =~= old(self)@.bytes + buf@);
    }

    /// The writer took the first `n` bytes of `bufs`, or all of them where there are no more.
    pub fn write_vectored(&mut self, bufs: &[&[u8]], n: usize)
        ensures
            ({
                let all = bytes::concatenated(bytes::contents(bufs@));
                final(self)@ == (Accepted {
                    bytes: old(self)@.bytes + all.take(if n <= all.len() {
                        n as int
                    } else {
                        all.len() as int
                    }),
                    ..old(self)@
                })
            }),
    {
        let ghost parts = bytes::contents(bufs@);
        let ghost all = bytes::concatenated(parts);
        let mut d_rem = n;
        let mut i: usize = 0;
        assert(parts.skip(0) =~= parts);
        assert(self.digest.input() + all.take(upto(n, all)) =~= old(self)@.bytes + all.take(
            upto(n, all),
        ));
        while i < bufs.len()
            invariant
                i <= bufs@.len(),
                parts == bytes::contents(bufs@),
                all == bytes::concatenated(parts),
                self@.writer == old(self)@.writer,
                ({
                    let rest = bytes::concatenated(parts.skip(i as int));
                    self.digest.input() + rest.take(upto(d_rem, rest)) == old(self)@.bytes
                        + all.take(upto(n, all))
                }),
            decreases bufs@.len() - i,
        {
            let slice = bufs[i];
            let ghost rest = bytes::concatenated(parts.skip(i as int));
            let ghost behind = bytes::concatenated(parts.skip(i + 1));
            let ghost before = self.digest.input();
            assert(parts.skip(i as int)[0] == slice@);
            assert(parts.skip(i as int).skip(1) =~= parts.skip(i + 1));
            assert(rest == slice@ + behind);
            if d_rem <= slice.len() {
                let (front, _) = slice.split_at(d_rem);
                self.digest.update(front);
                assert(rest.take(upto(d_rem, rest)) =~= front@);
                assert(self@.bytes =~= old(self)@.bytes + all.take(upto(n, all)));
                return;
            }
            self.digest.update(slice);
            let ghost left = (d_rem - slice@.len()) as usize;
            assert(self.digest.input() + behind.take(upto(left, behind)) =~= before + rest.take(
                upto(d_rem, rest),
            ));
            d_rem = d_rem - slice.len();
            i = i + 1;
        }
        assert(parts.skip(i as int) =~= Seq::<Seq<u8>>::empty());
        let ghost rest = bytes::concatenated(parts.skip(i as int));
        assert(self.digest.input() + rest.take(upto(d_rem, rest)) =~= self.digest.input());
    }

    /// The digest of just the bytes that the writer took, and the writer.
    pub fn finalize(self) -> (r: (Vec<u8>, W))
        ensures
            r.0@ == D::digest_of(self@.bytes),
            r.1 == self@.writer,
    {
        (self.digest.finalize_fixed(), self.writer)
    }
}

/// `n`, or the length of `s` where that is less.
spec fn upto(n: usize, s: Seq<u8>) -> int {
    if n <= s.len() {
        n as int
    } else {
        s.len() as int
    }
}

impl<D: Digest, W> From<W> for HashWriter<D, W> {
    fn from(value: W) -> (r: Self)
        ensures
            r@ == (Accepted { writer: value, bytes: Seq::empty() }),
    {
        Self::new(value)
    }
}

/// What `from` returns is said in its own contract.
impl<D: Digest, W> vstd::std_specs::convert::FromSpecImpl<W> for HashWriter<D, W> {
    open spec fn obeys_from_spec() -> bool {
        false
    }

    open spec fn from_spec(value: W) -> Self {
        arbitrary()
    }
}

/// What is hashed is what the writer took: the first `n` bytes of one buffer, and all of the next.
pub proof fn law_hashed<D: Digest, W>(
    first: &mut HashWriter<D, W>,
    second: &mut HashWriter<D, W>,
    a: &[u8],
    n: usize,
    b: &[u8],
    r: (Vec<u8>, W),
)
    requires
        n <= a@.len(),
        call_ensures(HashWriter::<D, W>::write, (first, a, n), ()),
        *old(second) == *final(first),
        call_ensures(HashWriter::<D, W>::write_all, (second, b), ()),
        call_ensures(HashWriter::<D, W>::finalize, (*final(second),), r),
    ensures
        r.0@ == D::digest_of(old(first)@.bytes + a@.take(n as int) + b@),
        r.1 == old(first)@.writer,
{
}

} // verus!
