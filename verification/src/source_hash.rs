//! The hash of a source, which the translation of the source starts with.
//!
//! A compiled file that starts with the hash of its source need not be compiled again.
use vstd::prelude::*;
use vstd::utf8::*;

use crate::bytes;

verus! {

/// `memchr::memchr` finds the first place of a byte.
pub assume_specification[ memchr::memchr ](needle: u8, haystack: &[u8]) -> (r: Option<usize>)
    ensures
        match r {
            Some(i) => {
                &&& i < haystack@.len()
                &&& haystack@[i as int] == needle
                &&& forall|j: int| 0 <= j < i ==> haystack@[j] != needle
            },
            None => forall|j: int| 0 <= j < haystack@.len() ==> haystack@[j] != needle,
        },
;

/// The SHA-256 digest of `data`.
pub uninterp spec fn sha256_digest(data: Seq<u8>) -> Seq<u8>;

/// `sha2::Sha256::digest`. The claim: the digest depends on the bytes alone.
#[verifier::external_body]
fn sha256(data: &[u8]) -> (r: [u8; 32])
    ensures
        r@ == sha256_digest(data@),
{
    <sha2::Sha256 as sha2::Digest>::digest(data).into()
}

/// The Base64 encoding of `data` with the standard alphabet, without padding.
pub uninterp spec fn base64_encoded(data: Seq<u8>) -> Seq<u8>;

/// What becomes of `data` as Base64 with the standard alphabet, without padding, where there is
/// room for `capacity` bytes.
pub uninterp spec fn base64_decoded(data: Seq<u8>, capacity: nat) -> Result<
    Seq<u8>,
    DecodeSliceError,
>;

/// How many bytes `n` bytes take in Base64 without padding.
pub open spec fn encoded_len(n: nat) -> nat {
    n / 3 * 4 + (if n % 3 == 0 {
        0nat
    } else {
        n % 3 + 1
    })
}

/// The bytes of the standard Base64 alphabet.
pub open spec fn base64_symbol(b: u8) -> bool {
    ||| 0x41 <= b <= 0x5a
    ||| 0x61 <= b <= 0x7a
    ||| 0x30 <= b <= 0x39
    ||| b == 0x2b
    ||| b == 0x2f
}

/// What can be wrong with Base64.
#[derive(Debug, Clone, Copy)]
pub enum DecodeError {
    /// A byte that is no symbol, behind that many bytes.
    InvalidByte(usize, u8),
    /// That many symbols cannot be.
    InvalidLength(usize),
    /// A last symbol, behind that many bytes, that holds more bits than it may.
    InvalidLastSymbol(usize, u8),
    /// Padding where there should be none.
    InvalidPadding,
}

/// Why Base64 could not be decoded.
#[derive(Debug, Clone, Copy)]
pub enum DecodeSliceError {
    DecodeError(DecodeError),
    /// There is no room for what comes out.
    OutputSliceTooSmall,
}

/// `encode_slice` of the engine `base64::prelude::BASE64_STANDARD_NO_PAD`. The claims: it puts the
/// encoding at the start of `output` and leaves the rest, or fails and leaves everything where
/// there is too little room; the encoding has the length that it says, and no bytes but symbols;
/// decoding it with enough room gives back what was encoded. It would panic where the length of
/// the encoding could not be counted.
#[verifier::external_body]
fn encode_slice(input: &[u8], output: &mut [u8]) -> (r: Option<usize>)
    requires
        encoded_len(input@.len()) <= usize::MAX,
    ensures
        match r {
            Some(n) => {
                &&& n == encoded_len(input@.len())
                &&& n <= old(output)@.len()
                &&& base64_encoded(input@).len() == n
                &&& final(output)@ == base64_encoded(input@) + old(output)@.skip(n as int)
                &&& forall|i: int| 0 <= i < n ==> base64_symbol(#[trigger] final(output)@[i])
                &&& forall|capacity: nat|
                    capacity >= input@.len() ==> #[trigger] base64_decoded(
                        final(output)@.take(n as int),
                        capacity,
                    ) == Ok::<Seq<u8>, DecodeSliceError>(input@)
            },
            None => {
                &&& encoded_len(input@.len()) > old(output)@.len()
                &&& final(output)@ == old(output)@
            },
        },
{
    base64::Engine::encode_slice(&base64::prelude::BASE64_STANDARD_NO_PAD, input, output).ok()
}

/// `decode_slice` of the engine `base64::prelude::BASE64_STANDARD_NO_PAD`. The claim: what it does
/// depends on the input and on the room for the output; it puts what it decodes at the start of
/// `output`, and says how much that is.
#[verifier::external_body]
fn decode_slice(input: &[u8], output: &mut [u8]) -> (r: Result<usize, DecodeSliceError>)
    ensures
        final(output)@.len() == old(output)@.len(),
        match base64_decoded(input@, old(output)@.len()) {
            Ok(decoded) => {
                &&& decoded.len() <= old(output)@.len()
                &&& r == Ok::<usize, DecodeSliceError>(decoded.len() as usize)
                &&& final(output)@.take(decoded.len() as int) == decoded
            },
            Err(e) => r == Err::<usize, DecodeSliceError>(e),
        },
{
    base64::Engine::decode_slice(&base64::prelude::BASE64_STANDARD_NO_PAD, input, output).map_err(
        |e| match e {
            base64::DecodeSliceError::OutputSliceTooSmall => DecodeSliceError::OutputSliceTooSmall,
            base64::DecodeSliceError::DecodeError(e) => DecodeSliceError::DecodeError(match e {
                base64::DecodeError::InvalidByte(i, b) => DecodeError::InvalidByte(i, b),
                base64::DecodeError::InvalidLength(n) => DecodeError::InvalidLength(n),
                base64::DecodeError::InvalidLastSymbol(i, b) => DecodeError::InvalidLastSymbol(i, b),
                base64::DecodeError::InvalidPadding => DecodeError::InvalidPadding,
            }),
        },
    )
}

/// `String::from_utf8_lossy`. The claim: bytes that are valid UTF-8 become the characters that
/// they stand for. What becomes of other bytes is left open.
#[verifier::external_body]
fn from_utf8_lossy(data: &[u8]) -> (r: String)
    ensures
        valid_utf8(data@) ==> encode_utf8(r@) == data@,
{
    String::from_utf8_lossy(data).into_owned()
}

/// A SHA-256 digest.
#[derive(Debug, Clone, Copy)]
pub struct Sha256Digest([u8; 32]);

impl View for Sha256Digest {
    type V = Seq<u8>;

    closed spec fn view(&self) -> Seq<u8> {
        self.0@
    }
}

/// Why something is no encoded digest.
#[derive(Debug, Clone, Copy)]
pub enum Sha256DecodeError {
    /// It encodes too many bytes, or too few.
    InvalidDigestLength,
    /// It encodes nothing.
    DecodeError(DecodeError),
}

/// The digest among what was decoded, where there was room for a digest.
pub open spec fn digest_in(decoded: Result<Seq<u8>, DecodeSliceError>) -> Result<
    Seq<u8>,
    Sha256DecodeError,
> {
    match decoded {
        Ok(digest) => if digest.len() == 32 {
            Ok(digest)
        } else {
            Err(Sha256DecodeError::InvalidDigestLength)
        },
        Err(DecodeSliceError::DecodeError(e)) => Err(Sha256DecodeError::DecodeError(e)),
        Err(DecodeSliceError::OutputSliceTooSmall) => Err(Sha256DecodeError::InvalidDigestLength),
    }
}

/// What was decoded to the start of `buf`.
pub open spec fn decoded_to(buf: Seq<u8>, decoded: Result<usize, DecodeSliceError>) -> Result<
    Seq<u8>,
    DecodeSliceError,
> {
    match decoded {
        Ok(n) => Ok(buf.take(n as int)),
        Err(e) => Err(e),
    }
}

impl Sha256Digest {
    /// How many bytes are enough to encode a digest.
    pub const SHA256_ENCODED_SIZE: usize = 44;

    /// The digest of `data`.
    pub fn of(data: &[u8]) -> (r: Self)
        ensures
            r@ == sha256_digest(data@),
    {
        Sha256Digest(sha256(data))
    }

    /// The bytes of the digest.
    pub fn to_bytes(&self) -> (r: Vec<u8>)
        ensures
            r@ == self@,
            r@.len() == 32,
    {
        let mut r: Vec<u8> = Vec::new();
        r.extend_from_slice(self.0.as_slice());
        assert(r@ =~= self@);
        r
    }

    /// A digest has 32 bytes.
    proof fn lemma_len(&self)
        ensures
            self@.len() == 32,
    {
    }

    /// The encoding of the digest.
    pub fn encoding(&self) -> (r: Vec<u8>)
        ensures
            r@ == base64_encoded(self@),
            r@.len() == 43,
            forall|i: int| 0 <= i < r@.len() ==> base64_symbol(#[trigger] r@[i]),
            base64_decoded(r@, 32) == Ok::<Seq<u8>, DecodeSliceError>(self@),
    {
        let mut buf = [0u8;Self::SHA256_ENCODED_SIZE];
        let n = encode_slice(self.0.as_slice(), &mut buf).expect("miscalculated buffer size");
        let (front, _) = buf.as_slice().split_at(n);
        let mut r: Vec<u8> = Vec::new();
        r.extend_from_slice(front);
        assert(front@ =~= buf@.take(n as int));
        assert(r@ =~= buf@.take(n as int));
        assert(r@ =~= base64_encoded(self@));
        r
    }

    /// Decodes the encoding of a digest.
    pub fn decode(base64_bytes: &[u8]) -> (r: Result<Self, Sha256DecodeError>)
        ensures
            digest_result(r) == digest_in(base64_decoded(base64_bytes@, 32)),
    {
        let mut buf = [0u8;32];
        let decoded = decode_slice(base64_bytes, &mut buf);
        Self::from_decoded(buf, decoded)
    }

    /// The digest in `buf`, where `decoded` says what was decoded to its start.
    pub fn from_decoded(buf: [u8; 32], decoded: Result<usize, DecodeSliceError>) -> (r: Result<
        Self,
        Sha256DecodeError,
    >)
        requires
            decoded matches Ok(n) ==> n <= 32,
        ensures
            digest_result(r) == digest_in(decoded_to(buf@, decoded)),
    {
        match decoded {
            Ok(n) => if n == buf.as_slice().len() {
                assert(buf@.take(32) =~= buf@);
                Ok(Sha256Digest(buf))
            } else {
                Err(Sha256DecodeError::InvalidDigestLength)
            },
            Err(DecodeSliceError::DecodeError(e)) => Err(Sha256DecodeError::DecodeError(e)),
            Err(DecodeSliceError::OutputSliceTooSmall) => {
                Err(Sha256DecodeError::InvalidDigestLength)
            },
        }
    }
}

/// The digest or the error in `r`.
pub open spec fn digest_result<E>(r: Result<Sha256Digest, E>) -> Result<Seq<u8>, E> {
    match r {
        Ok(digest) => Ok(digest@),
        Err(e) => Err(e),
    }
}

impl PartialEq for Sha256Digest {
    fn eq(&self, other: &Self) -> (r: bool) {
        let mut i: usize = 0;
        while i < 32
            invariant
                i <= 32,
                forall|j: int| 0 <= j < i ==> self.0@[j] == other.0@[j],
            decreases 32 - i,
        {
            if self.0[i] != other.0[i] {
                return false;
            }
            i = i + 1;
        }
        assert(self.0@ =~= other.0@);
        true
    }
}

impl vstd::std_specs::cmp::PartialEqSpecImpl for Sha256Digest {
    open spec fn obeys_eq_spec() -> bool {
        true
    }

    open spec fn eq_spec(&self, other: &Self) -> bool {
        self@ == other@
    }
}

impl Eq for Sha256Digest {

}

/// The hash of a source.
#[derive(Debug, Clone, Copy)]
pub struct SourceHash {
    pub digest: Sha256Digest,
}

impl View for SourceHash {
    type V = Seq<u8>;

    open spec fn view(&self) -> Seq<u8> {
        self.digest@
    }
}

impl PartialEq for SourceHash {
    fn eq(&self, other: &Self) -> (r: bool) {
        self.digest == other.digest
    }
}

impl vstd::std_specs::cmp::PartialEqSpecImpl for SourceHash {
    open spec fn obeys_eq_spec() -> bool {
        true
    }

    open spec fn eq_spec(&self, other: &Self) -> bool {
        self@ == other@
    }
}

impl Eq for SourceHash {

}

/// Why no hash could be read.
#[derive(Debug)]
pub enum SourceHashReadError<E> {
    /// There is no line with a hash.
    CantParse,
    /// Reading failed.
    IOError(E),
    /// The line does not encode a digest.
    DigestDecodeError(Sha256DecodeError),
}

/// The line feed.
pub const NEWLINE: u8 = 0x0a;

/// The first bytes of the line with the hash.
pub open spec fn prefix() -> Seq<u8> {
    encode_utf8("% SOURCE-HASH="@)
}

/// The line with a hash that has the given encoding, and the empty line behind it.
pub open spec fn header(encoding: Seq<u8>) -> Seq<u8> {
    prefix() + encoding + seq![NEWLINE, NEWLINE]
}

/// How many bytes of `s` stand before its first line feed, all of them if it has none.
pub open spec fn before_newline(s: Seq<u8>) -> nat
    decreases s.len(),
{
    if s.len() > 0 && s[0] != NEWLINE {
        1 + before_newline(s.skip(1))
    } else {
        0
    }
}

/// The encoded hash in a line, if there is one.
pub open spec fn hash_in(line: Seq<u8>) -> Option<Seq<u8>> {
    if bytes::begins_with(line, prefix()) {
        let encoded = bytes::trim_ascii_end(line.skip(prefix().len() as int));
        if encoded.len() > 0 {
            Some(encoded)
        } else {
            None
        }
    } else {
        None
    }
}

/// Why bytes do not start with a hash.
pub enum Unreadable {
    /// There is no line with a hash.
    CantParse,
    /// The line does not encode a digest.
    DigestDecodeError(Sha256DecodeError),
}

/// The hash that a line holds.
pub open spec fn hash_of_line(line: Seq<u8>) -> Result<Seq<u8>, Unreadable> {
    match hash_in(line) {
        Some(encoded) => match digest_in(base64_decoded(encoded, 32)) {
            Ok(digest) => Ok(digest),
            Err(e) => Err(Unreadable::DigestDecodeError(e)),
        },
        None => Err(Unreadable::CantParse),
    }
}

/// The hash that `input` starts with. It has to stand in the first line, and that line has to end
/// within the first `HASH_LINE_CAP` bytes.
pub open spec fn hash_of(input: Seq<u8>) -> Result<Seq<u8>, Unreadable> {
    let n = before_newline(input);
    if n < input.len() && n < SourceHash::HASH_LINE_CAP {
        hash_of_line(input.take(n as int))
    } else {
        Err(Unreadable::CantParse)
    }
}

/// The hash or the error in `r`, where reading did not fail.
pub open spec fn is_read<E>(
    r: Result<SourceHash, SourceHashReadError<E>>,
    outcome: Result<Seq<u8>, Unreadable>,
) -> bool {
    match outcome {
        Ok(digest) => r matches Ok(hash) && hash@ == digest,
        Err(Unreadable::CantParse) => r matches Err(SourceHashReadError::CantParse),
        Err(Unreadable::DigestDecodeError(e)) => r matches Err(
            SourceHashReadError::DigestDecodeError(x),
        ) && x == e,
    }
}

/// `before_newline` counts to the first line feed.
proof fn lemma_before_newline(s: Seq<u8>, k: int)
    requires
        0 <= k <= s.len(),
        forall|j: int| 0 <= j < k ==> #[trigger] s[j] != NEWLINE,
        k < s.len() ==> s[k] == NEWLINE,
    ensures
        before_newline(s) == k,
    decreases s.len(),
{
    if k > 0 {
        let rest = s.skip(1);
        assert forall|j: int| 0 <= j < k - 1 implies #[trigger] rest[j] != NEWLINE by {
            assert(rest[j] == s[j + 1]);
        }
        lemma_before_newline(rest, k - 1);
    }
}

/// What `before_newline` says of the bytes of `s`.
proof fn lemma_before_newline_bound(s: Seq<u8>)
    ensures
        before_newline(s) <= s.len(),
        forall|j: int| 0 <= j < before_newline(s) ==> #[trigger] s[j] != NEWLINE,
        before_newline(s) < s.len() ==> s[before_newline(s) as int] == NEWLINE,
    decreases s.len(),
{
    if s.len() > 0 && s[0] != NEWLINE {
        let rest = s.skip(1);
        lemma_before_newline_bound(rest);
        assert forall|j: int| 0 <= j < before_newline(s) implies #[trigger] s[j] != NEWLINE by {
            if j > 0 {
                assert(rest[j - 1] == s[j]);
            }
        }
    }
}

/// The bytes of the prefix.
proof fn lemma_prefix()
    ensures
        prefix().len() == 14,
        forall|i: int| 0 <= i < 14 ==> #[trigger] prefix()[i] != NEWLINE,
{
    reveal_strlit("% SOURCE-HASH=");
    is_ascii_chars_encode_utf8("% SOURCE-HASH="@);
}

/// Symbols are characters of one byte each.
proof fn lemma_symbols_utf8(symbols: Seq<u8>)
    requires
        forall|i: int| 0 <= i < symbols.len() ==> base64_symbol(#[trigger] symbols[i]),
    ensures
        valid_utf8(symbols),
{
    let chars = symbols.map_values(|b: u8| b as char);
    assert(is_ascii_chars(chars)) by {
        assert forall|i: int| 0 <= i < chars.len() implies '\0' <= #[trigger] chars[i]
            <= '\u{7f}' by {
            assert(base64_symbol(symbols[i]));
        }
    }
    is_ascii_chars_encode_utf8(chars);
    assert(encode_utf8(chars) =~= symbols);
    encode_utf8_valid_utf8(chars);
}

/// A header is read back: whatever follows it, the bytes start with the hash that it encodes.
proof fn lemma_read_back(digest: Seq<u8>, encoding: Seq<u8>, rest: Seq<u8>)
    requires
        digest.len() == 32,
        encoding.len() == 43,
        forall|i: int| 0 <= i < encoding.len() ==> base64_symbol(#[trigger] encoding[i]),
        base64_decoded(encoding, 32) == Ok::<Seq<u8>, DecodeSliceError>(digest),
    ensures
        hash_of(header(encoding) + rest) == Ok::<Seq<u8>, Unreadable>(digest),
{
    lemma_prefix();
    let input = header(encoding) + rest;
    let line = prefix() + encoding;
    assert forall|j: int| 0 <= j < line.len() implies #[trigger] input[j] != NEWLINE by {
        if j < 14 {
            assert(input[j] == prefix()[j]);
        } else {
            assert(input[j] == encoding[j - 14]);
        }
    }
    lemma_before_newline(input, line.len() as int);
    assert(input.take(line.len() as int) =~= line);
    assert(line.take(14) =~= prefix());
    assert(line.skip(14) =~= encoding);
    assert(base64_symbol(encoding[encoding.len() - 1]));
    assert(bytes::trim_ascii_end(encoding) == encoding);
}

impl SourceHash {
    /// What the line with the hash starts with.
    pub const PREFIX: &'static str = "% SOURCE-HASH=";

    /// How far the end of the line with the hash is looked for: the least power of two that is
    /// enough for the prefix, an encoded digest and the line feed.
    pub const HASH_LINE_CAP: usize = 64;

    /// Hashes a source.
    pub fn new(s: &str) -> (r: Self)
        ensures
            r@ == sha256_digest(encode_utf8(s@)),
    {
        SourceHash { digest: Sha256Digest::of(s.as_bytes()) }
    }

    /// Appends the line with the hash, and an empty line, to `writer`. The hash can be read back
    /// from there.
    pub fn write(&self, writer: &mut Vec<u8>)
        ensures
            final(writer)@ == old(writer)@ + header(base64_encoded(self@)),
            forall|rest: Seq<u8>|
                #[trigger] hash_of(final(writer)@.skip(old(writer)@.len() as int) + rest) == Ok::<
                    Seq<u8>,
                    Unreadable,
                >(self@),
    {
        let ascii_digest = self.digest.encoding();
        Self::write_encoded(ascii_digest.as_slice(), writer);
        proof {
            self.digest.lemma_len();
            let written = header(ascii_digest@);
            assert(writer@.skip(old(writer)@.len() as int) =~= written);
            assert forall|rest: Seq<u8>|
                #[trigger] hash_of(writer@.skip(old(writer)@.len() as int) + rest) == Ok::<
                    Seq<u8>,
                    Unreadable,
                >(self@) by {
                lemma_read_back(self@, ascii_digest@, rest);
            }
        }
    }

    /// Appends the line with the hash whose encoding is given, and an empty line.
    pub fn write_encoded(ascii_digest: &[u8], writer: &mut Vec<u8>)
        ensures
            final(writer)@ == old(writer)@ + header(ascii_digest@),
    {
        writer.extend_from_slice(Self::PREFIX.as_bytes());
        writer.extend_from_slice(ascii_digest);
        writer.push(NEWLINE);
        writer.push(NEWLINE);
        assert(writer@ =~= old(writer)@ + header(ascii_digest@));
    }

    /// The encoding of the hash as a string.
    pub fn to_string(&self) -> (r: String)
        ensures
            encode_utf8(r@) == base64_encoded(self@),
    {
        let base64_digest = self.digest.encoding();
        proof {
            lemma_symbols_utf8(base64_digest@);
        }
        from_utf8_lossy(base64_digest.as_slice())
    }
}

/// How far reading a hash has got.
pub enum Reading {
    /// These bytes have been read, and more are needed.
    More(Seq<u8>),
    /// The hash has been read, or will not be.
    Done(Result<Seq<u8>, Unreadable>),
}

/// What comes of reading `data` behind `buffered`. No data is the end of the input. What does not
/// fit behind `buffered` is not looked at.
pub open spec fn fed(buffered: Seq<u8>, data: Seq<u8>) -> Reading {
    let room = SourceHash::HASH_LINE_CAP - buffered.len();
    let more = buffered + data.take(if data.len() <= room {
        data.len() as int
    } else {
        room
    });
    let n = before_newline(more);
    if data.len() == 0 {
        Reading::Done(Err(Unreadable::CantParse))
    } else if n < more.len() {
        Reading::Done(hash_of_line(more.take(n as int)))
    } else if more.len() == SourceHash::HASH_LINE_CAP {
        Reading::Done(Err(Unreadable::CantParse))
    } else {
        Reading::More(more)
    }
}

/// What comes of reading all of `chunks` and then the end of the input behind `buffered`.
pub open spec fn fed_all(buffered: Seq<u8>, chunks: Seq<Seq<u8>>) -> Result<Seq<u8>, Unreadable>
    decreases chunks.len(),
{
    let chunk = if chunks.len() == 0 {
        Seq::empty()
    } else {
        chunks[0]
    };
    match fed(buffered, chunk) {
        Reading::More(more) => if chunks.len() == 0 {
            Err(Unreadable::CantParse)
        } else {
            fed_all(more, chunks.skip(1))
        },
        Reading::Done(r) => r,
    }
}

/// Bytes that may be the start of a line with a hash.
pub open spec fn unfinished(buffered: Seq<u8>) -> bool {
    buffered.len() < SourceHash::HASH_LINE_CAP && before_newline(buffered) == buffered.len()
}

/// Reading a hash does not depend on the chunks in which its bytes come.
pub proof fn law_chunks(buffered: Seq<u8>, chunks: Seq<Seq<u8>>)
    requires
        unfinished(buffered),
        forall|i: int| 0 <= i < chunks.len() ==> (#[trigger] chunks[i]).len() > 0,
    ensures
        fed_all(buffered, chunks) == hash_of(buffered + bytes::concatenated(chunks)),
    decreases chunks.len(),
{
    let all = buffered + bytes::concatenated(chunks);
    if chunks.len() == 0 {
        assert(all =~= buffered);
    } else {
        let chunk = chunks[0];
        let room = SourceHash::HASH_LINE_CAP - buffered.len();
        let more = buffered + chunk.take(if chunk.len() <= room {
            chunk.len() as int
        } else {
            room
        });
        let n = before_newline(more);
        lemma_before_newline_bound(more);
        assert(all.take(more.len() as int) =~= more);
        if n < more.len() {
            assert forall|j: int| 0 <= j < n implies #[trigger] all[j] != NEWLINE by {
                assert(all[j] == more[j]);
            }
            assert(all[n as int] == more[n as int]);
            lemma_before_newline(all, n as int);
            assert(all.take(n as int) =~= more.take(n as int));
        } else if more.len() == SourceHash::HASH_LINE_CAP {
            lemma_before_newline_bound(all);
            let m = before_newline(all) as int;
            if m < more.len() {
                assert(all[m] == more[m]);
            }
        } else {
            let rest = chunks.skip(1);
            assert forall|i: int| 0 <= i < rest.len() implies (#[trigger] rest[i]).len() > 0 by {
                assert(rest[i] == chunks[i + 1]);
            }
            law_chunks(more, rest);
            assert(chunk.take(chunk.len() as int) =~= chunk);
            assert(more + bytes::concatenated(rest) =~= all);
        }
    }
}

/// What came of reading.
pub enum ReadEvent<'a, E> {
    /// These bytes came, or the end of the input if there are none.
    Data(&'a [u8]),
    /// Reading was interrupted.
    Interrupted,
    /// Reading failed.
    Failed(E),
}

/// A hash that is being read.
pub struct HashReader {
    buffer: Vec<u8>,
}

impl View for HashReader {
    type V = Seq<u8>;

    /// The bytes that have been read.
    closed spec fn view(&self) -> Seq<u8> {
        self.buffer@
    }
}

impl SourceHash {
    /// Starts to read a hash.
    pub fn try_read() -> (r: HashReader)
        ensures
            unfinished(r@),
            r@ == Seq::<u8>::empty(),
    {
        HashReader { buffer: Vec::new() }
    }

    /// The encoded hash in a line, if there is one.
    pub fn encoded_in(line: &[u8]) -> (r: Option<&[u8]>)
        ensures
            match r {
                Some(encoded) => hash_in(line@) == Some(encoded@),
                None => hash_in(line@) is None,
            },
    {
        let prefix = Self::PREFIX.as_bytes();
        if !bytes::has_prefix(line, prefix) {
            return None;
        }
        let (_, encoded) = line.split_at(prefix.len());
        assert(encoded@ =~= line@.skip(prefix@.len() as int));
        let extracted = bytes::trim_end(encoded);
        if extracted.is_empty() {
            None
        } else {
            Some(extracted)
        }
    }

    /// The hash that a line holds.
    pub fn from_line<E>(line: &[u8]) -> (r: Result<Self, SourceHashReadError<E>>)
        ensures
            is_read(r, hash_of_line(line@)),
    {
        match Self::encoded_in(line) {
            Some(encoded) => match Sha256Digest::decode(encoded) {
                Ok(digest) => Ok(SourceHash { digest }),
                Err(e) => Err(SourceHashReadError::DigestDecodeError(e)),
            },
            None => Err(SourceHashReadError::CantParse),
        }
    }
}

impl HashReader {
    /// How many bytes are to be read next at most.
    pub fn room(&self) -> (r: usize)
        requires
            unfinished(self@),
        ensures
            r == SourceHash::HASH_LINE_CAP - self@.len(),
            r > 0,
    {
        SourceHash::HASH_LINE_CAP - self.buffer.len()
    }

    /// Takes notice of what came of reading. Returns the hash or why there is none, or nothing if
    /// more has to be read.
    pub fn read<E>(&mut self, event: ReadEvent<'_, E>) -> (r: Option<
        Result<SourceHash, SourceHashReadError<E>>,
    >)
        requires
            unfinished(old(self)@),
        ensures
            unfinished(final(self)@),
            match event {
                ReadEvent::Data(data) => match fed(old(self)@, data@) {
                    Reading::More(more) => r is None && final(self)@ == more,
                    Reading::Done(outcome) => {
                        r matches Some(result) && is_read(result, outcome) && final(self)@ == old(
                            self,
                        )@
                    },
                },
                ReadEvent::Interrupted => r is None && final(self)@ == old(self)@,
                ReadEvent::Failed(e) => {
                    r matches Some(Err(SourceHashReadError::IOError(x))) && x == e && final(self)@
                        == old(self)@
                },
            },
    {
        let data = match event {
            ReadEvent::Data(data) => data,
            ReadEvent::Interrupted => {
                return None;
            },
            ReadEvent::Failed(e) => {
                return Some(Err(SourceHashReadError::IOError(e)));
            },
        };
        // The input ended before the line did.
        if data.len() == 0 {
            return Some(Err(SourceHashReadError::CantParse));
        }
        let room = self.room();
        let bytes_read = if data.len() <= room {
            data.len()
        } else {
            room
        };
        let (additional_bytes, _) = data.split_at(bytes_read);
        assert(additional_bytes@ =~= data@.take(bytes_read as int));
        let filled = self.buffer.len();
        let mut buffer = self.buffer.clone();
        buffer.extend_from_slice(additional_bytes);
        let ghost more = self@ + data@.take(bytes_read as int);
        assert(buffer@ =~= more);
        proof {
            lemma_before_newline_bound(self@);
            assert forall|j: int| 0 <= j < filled implies #[trigger] more[j] != NEWLINE by {
                assert(more[j] == self@[j]);
            }
        }
        // Only the additional bytes can hold a line feed.
        match memchr::memchr(NEWLINE, additional_bytes) {
            Some(nl_idx) => {
                proof {
                    assert forall|j: int| 0 <= j < filled + nl_idx implies #[trigger] more[j]
                        != NEWLINE by {
                        if j >= filled {
                            assert(more[j] == additional_bytes@[j - filled]);
                        }
                    }
                    assert(more[filled + nl_idx] == additional_bytes@[nl_idx as int]);
                    lemma_before_newline(more, filled + nl_idx);
                }
                let (first_line, _) = buffer.as_slice().split_at(filled + nl_idx);
                assert(first_line@ =~= more.take(filled + nl_idx));
                return Some(SourceHash::from_line(first_line));
            },
            None => {},
        }
        proof {
            assert forall|j: int| 0 <= j < more.len() implies #[trigger] more[j] != NEWLINE by {
                if j >= filled {
                    assert(more[j] == additional_bytes@[j - filled]);
                }
            }
            lemma_before_newline(more, more.len() as int);
        }
        // The line is too long.
        if buffer.len() == SourceHash::HASH_LINE_CAP {
            return Some(Err(SourceHashReadError::CantParse));
        }
        self.buffer = buffer;
        None
    }
}

/// What the hash in a compiled file says.
#[derive(Debug)]
pub enum CacheState<E> {
    /// The file was compiled from the same source.
    Hit,
    /// The file was compiled from another source.
    Mismatch(SourceHash),
    /// The file holds no hash.
    Unknown(SourceHashReadError<E>),
}

impl SourceHash {
    /// Holds the hash of a source against the one that was read from a compiled file.
    pub fn check_compiled<E>(&self, compiled: Result<SourceHash, SourceHashReadError<E>>) -> (r:
        CacheState<E>)
        ensures
            match compiled {
                Ok(hash) => if hash@ == self@ {
                    r is Hit
                } else {
                    r == CacheState::<E>::Mismatch(hash)
                },
                Err(e) => r == CacheState::Unknown(e),
            },
    {
        match compiled {
            Ok(hash) => if *self == hash {
                CacheState::Hit
            } else {
                CacheState::Mismatch(hash)
            },
            Err(e) => CacheState::Unknown(e),
        }
    }
}

impl<E> CacheState<E> {
    /// Whether the source has to be compiled, where `clear` says whether all sources have to be.
    pub fn needs_compilation(&self, clear: bool) -> (r: bool)
        ensures
            r == (clear || !(self is Hit)),
    {
        match self {
            CacheState::Hit => clear,
            CacheState::Mismatch(_) | CacheState::Unknown(_) => true,
        }
    }
}

/// The line with a hash: the characters `% SOURCE-HASH=`, the encoding, a line feed, and an empty
/// line.
pub proof fn law_header(encoding: Seq<u8>)
    ensures
        prefix() == seq![
            0x25u8,
            0x20,
            0x53,
            0x4f,
            0x55,
            0x52,
            0x43,
            0x45,
            0x2d,
            0x48,
            0x41,
            0x53,
            0x48,
            0x3d,
        ],
        header(encoding) == prefix() + encoding + seq![0x0au8, 0x0a],
{
    reveal_strlit("% SOURCE-HASH=");
    is_ascii_chars_encode_utf8("% SOURCE-HASH="@);
}

/// No hash is read from bytes without a line feed among the first 64 of them.
pub proof fn law_no_line(input: Seq<u8>)
    requires
        forall|k: int| 0 <= k < input.len() && k < 64 ==> #[trigger] input[k] != 0x0a,
    ensures
        hash_of(input) == Err::<Seq<u8>, Unreadable>(Unreadable::CantParse),
{
    lemma_before_newline_bound(input);
    let n = before_newline(input) as int;
    if n < input.len() && n < 64 {
        assert(input[n] == 0x0a);
    }
}

/// No hash is read from a first line that does not start with the prefix.
pub proof fn law_other_line(line: Seq<u8>, rest: Seq<u8>)
    requires
        forall|k: int| 0 <= k < line.len() ==> #[trigger] line[k] != 0x0a,
        forall|behind: Seq<u8>| line != #[trigger] (prefix() + behind),
    ensures
        hash_of(line + seq![0x0au8] + rest) == Err::<Seq<u8>, Unreadable>(Unreadable::CantParse),
{
    lemma_first_line(line, rest);
    bytes::law_begins_with(line, prefix());
}

/// What is read from a first line of at most 63 bytes that starts with the prefix: the digest that
/// the bytes behind the prefix encode, without the white space behind them. A digest has 32 bytes.
pub proof fn law_hash_line(encoded: Seq<u8>, space: Seq<u8>, rest: Seq<u8>)
    requires
        forall|k: int| 0 <= k < encoded.len() ==> #[trigger] encoded[k] != 0x0a,
        encoded.len() > 0 ==> encoded.last() != 9 && encoded.last() != 12 && encoded.last() != 13
            && encoded.last() != 32,
        forall|k: int|
            0 <= k < space.len() ==> #[trigger] space[k] == 9 || space[k] == 12 || space[k] == 13
                || space[k] == 32,
    ensures
        ({
            let r = hash_of(prefix() + encoded + space + seq![0x0au8] + rest);
            if encoded.len() == 0 || 14 + encoded.len() + space.len() >= 64 {
                r == Err::<Seq<u8>, Unreadable>(Unreadable::CantParse)
            } else {
                match base64_decoded(encoded, 32) {
                    Ok(digest) => if digest.len() == 32 {
                        r == Ok::<Seq<u8>, Unreadable>(digest)
                    } else {
                        r == Err::<Seq<u8>, Unreadable>(
                            Unreadable::DigestDecodeError(Sha256DecodeError::InvalidDigestLength),
                        )
                    },
                    Err(DecodeSliceError::OutputSliceTooSmall) => r == Err::<Seq<u8>, Unreadable>(
                        Unreadable::DigestDecodeError(Sha256DecodeError::InvalidDigestLength),
                    ),
                    Err(DecodeSliceError::DecodeError(e)) => r == Err::<Seq<u8>, Unreadable>(
                        Unreadable::DigestDecodeError(Sha256DecodeError::DecodeError(e)),
                    ),
                }
            }
        }),
{
    lemma_prefix();
    let line = prefix() + encoded + space;
    assert forall|k: int| 0 <= k < line.len() implies #[trigger] line[k] != 0x0a by {
        if k < 14 {
            assert(line[k] == prefix()[k]);
        } else if k < 14 + encoded.len() {
            assert(line[k] == encoded[k - 14]);
        } else {
            assert(line[k] == space[k - 14 - encoded.len()]);
        }
    }
    lemma_first_line(line, rest);
    assert(line.take(14) =~= prefix());
    assert(line.skip(14) =~= encoded + space);
    if encoded.len() > 0 {
        assert(encoded[encoded.len() - 1] != 0x0a);
    }
    bytes::law_trim_end(encoded, space);
}

/// The first line of bytes.
proof fn lemma_first_line(line: Seq<u8>, rest: Seq<u8>)
    requires
        forall|k: int| 0 <= k < line.len() ==> #[trigger] line[k] != 0x0a,
    ensures
        hash_of(line + seq![0x0au8] + rest) == (if line.len() < 64 {
            hash_of_line(line)
        } else {
            Err::<Seq<u8>, Unreadable>(Unreadable::CantParse)
        }),
{
    let input = line + seq![0x0au8] + rest;
    assert forall|k: int| 0 <= k < line.len() implies #[trigger] input[k] != NEWLINE by {
        assert(input[k] == line[k]);
    }
    lemma_before_newline(input, line.len() as int);
    assert(input.take(line.len() as int) =~= line);
}

/// What is read is the hash, or the same reason why there is none.
pub proof fn law_is_read<E>(
    r: Result<SourceHash, SourceHashReadError<E>>,
    outcome: Result<Seq<u8>, Unreadable>,
)
    ensures
        is_read(r, outcome) <==> match r {
            Ok(hash) => outcome == Ok::<Seq<u8>, Unreadable>(hash@),
            Err(SourceHashReadError::CantParse) => outcome == Err::<Seq<u8>, Unreadable>(
                Unreadable::CantParse,
            ),
            Err(SourceHashReadError::DigestDecodeError(e)) => outcome == Err::<
                Seq<u8>,
                Unreadable,
            >(Unreadable::DigestDecodeError(e)),
            Err(SourceHashReadError::IOError(_)) => false,
        },
{
}

/// The digest in a buffer is the whole buffer if all of its 32 bytes were decoded, and there is
/// none if fewer were, or if there would have been more.
pub proof fn law_digest(buf: Seq<u8>, n: usize, e: DecodeError)
    requires
        buf.len() == 32,
        n <= 32,
    ensures
        digest_in(decoded_to(buf, Ok(n))) == (if n == 32 {
            Ok::<Seq<u8>, Sha256DecodeError>(buf)
        } else {
            Err(Sha256DecodeError::InvalidDigestLength)
        }),
        digest_in(decoded_to(buf, Err(DecodeSliceError::OutputSliceTooSmall))) == Err::<
            Seq<u8>,
            Sha256DecodeError,
        >(Sha256DecodeError::InvalidDigestLength),
        digest_in(decoded_to(buf, Err(DecodeSliceError::DecodeError(e)))) == Err::<
            Seq<u8>,
            Sha256DecodeError,
        >(Sha256DecodeError::DecodeError(e)),
{
    assert(buf.take(32) =~= buf);
}

/// A source is compiled again unless a hash was read from the compiled file that is the hash of the
/// source, and then too if all sources have to be compiled.
pub proof fn law_compiled_again<E>(
    source: SourceHash,
    compiled: Result<SourceHash, SourceHashReadError<E>>,
    clear: bool,
    state: CacheState<E>,
    again: bool,
)
    requires
        call_ensures(SourceHash::check_compiled::<E>, (&source, compiled), state),
        call_ensures(CacheState::<E>::needs_compilation, (&state, clear), again),
    ensures
        again <==> clear || !(compiled matches Ok(hash) && hash@ == source@),
        state matches CacheState::Mismatch(hash) ==> compiled == Ok::<
            SourceHash,
            SourceHashReadError<E>,
        >(hash) && hash@ != source@,
        state matches CacheState::Unknown(e) ==> compiled == Err::<
            SourceHash,
            SourceHashReadError<E>,
        >(e),
{
}

/// Reading goes on after an interruption, fails with the error where reading fails, and finds no hash
/// where the input ends before the line does.
pub proof fn law_read<'a, E>(
    reader: &mut HashReader,
    event: ReadEvent<'a, E>,
    r: Option<Result<SourceHash, SourceHashReadError<E>>>,
)
    requires
        unfinished(old(reader)@),
        call_ensures(HashReader::read::<E>, (reader, event), r),
    ensures
        event is Interrupted ==> r is None && final(reader)@ == old(reader)@,
        event matches ReadEvent::Failed(e) ==> r == Some(
            Err::<SourceHash, SourceHashReadError<E>>(SourceHashReadError::IOError(e)),
        ),
        event matches ReadEvent::Data(data) && data@.len() == 0 ==> (r matches Some(
            Err(SourceHashReadError::CantParse),
        )),
        event matches ReadEvent::Data(data) ==> (data@.len() > 0 && r is None ==> final(reader)@
            == old(reader)@ + data@),
{
    if let ReadEvent::Data(data) = event {
        assert(data@.take(data@.len() as int) =~= data@);
    }
}

} // verus!
