use agdatex::hash_writer::{HashWriter, Sha256};
use agdatex::source_hash::{
    CacheState, DecodeError, DecodeSliceError, HashReader, ReadEvent, Sha256DecodeError,
    Sha256Digest, SourceHash, SourceHashReadError,
};

const EMPTY: &str = "47DEQpj8HBSa+/TImW+5JCeuQeRkm5NMpJWZG3hSuFU";
const ABC: &str = "ungWv48Bz+pBQUDeXa4iI7ADYaOWF3qctBD/YfIAFa0";

type Outcome = Result<SourceHash, SourceHashReadError<&'static str>>;

/// Reads `input` in chunks of `size` bytes.
fn read(input: &[u8], size: usize) -> Outcome {
    let mut reader: HashReader = SourceHash::try_read();
    let mut rest = input;
    loop {
        let n = size.min(reader.room()).min(rest.len());
        let (chunk, behind) = rest.split_at(n);
        rest = behind;
        assert!(reader.read::<&str>(ReadEvent::Interrupted).is_none());
        if let Some(outcome) = reader.read(ReadEvent::Data(chunk)) {
            return outcome;
        }
    }
}

fn error(input: &str) -> String {
    let whole = format!("{:?}", read(input.as_bytes(), 64).err());
    assert_eq!(whole, format!("{:?}", read(input.as_bytes(), 1).err()));
    whole
}

fn line(encoded: &str) -> String {
    format!("% SOURCE-HASH={encoded}\n")
}

#[test]
fn known_digests() {
    assert_eq!(SourceHash::new("").to_string(), EMPTY);
    assert_eq!(SourceHash::new("abc").to_string(), ABC);
    assert_eq!(Sha256Digest::of(b"abc").encoding(), ABC.as_bytes());
    assert!(SourceHash::new("abc") == SourceHash::new("abc"));
    assert!(SourceHash::new("abc") != SourceHash::new("abd"));
}

#[test]
fn headers_are_written() {
    let mut out = b"x".to_vec();
    SourceHash::new("abc").write(&mut out);
    assert_eq!(out, format!("x% SOURCE-HASH={ABC}\n\n").as_bytes());
    let mut out = Vec::new();
    SourceHash::write_encoded(b"abc", &mut out);
    assert_eq!(out, b"% SOURCE-HASH=abc\n\n");
}

#[test]
fn headers_are_read_back() {
    let hash = SourceHash::new("module A where\n");
    let mut out = Vec::new();
    hash.write(&mut out);
    out.extend_from_slice(b"\\begin{code}\nx\n\\end{code}\n");
    for size in 1..=100 {
        assert!(read(&out, size).unwrap() == hash, "{size}");
    }
}

#[test]
fn white_space_behind_a_hash() {
    let hash = SourceHash::new("abc");
    for end in ["\n", "\r\n", " \t\n", "\x0c \nrest"] {
        let input = format!("% SOURCE-HASH={ABC}{end}");
        assert!(read(input.as_bytes(), 7).unwrap() == hash, "{end:?}");
    }
}

#[test]
fn what_is_no_line_with_a_hash() {
    for input in [
        "",
        "% SOURCE-HASH=",
        "% SOURCE-HASH=\n",
        "% SOURCE-HASH= \t\n",
        "\n",
        "x\n",
        " % SOURCE-HASH=abcd\n",
        "% SOURCE-HASHabcd\n",
    ] {
        assert_eq!(error(input), "Some(CantParse)", "{input:?}");
    }
    // The line feed has to be among the first 64 bytes.
    let long = format!("% SOURCE-HASH={ABC}{}", " ".repeat(7));
    assert_eq!(error(&long), "Some(CantParse)");
    assert_eq!(error(&format!("{long}\n")), "Some(CantParse)");
    assert!(read(format!("{}\n", &long[..63]).as_bytes(), 64).is_ok());
}

#[test]
fn what_is_no_digest() {
    assert_eq!(
        error(&line("abcd")),
        "Some(DigestDecodeError(InvalidDigestLength))"
    );
    assert_eq!(
        error(&line(&format!("{ABC}AAA"))),
        "Some(DigestDecodeError(InvalidDigestLength))"
    );
    assert_eq!(
        error(&line("ab!d")),
        "Some(DigestDecodeError(DecodeError(InvalidByte(2, 33))))"
    );
    assert_eq!(
        error(&line("abcde")),
        "Some(DigestDecodeError(DecodeError(InvalidLength(5))))"
    );
    assert_eq!(
        error(&line("ab")),
        "Some(DigestDecodeError(DecodeError(InvalidLastSymbol(1, 98))))"
    );
    assert_eq!(
        error(&line(&format!("{ABC}="))),
        "Some(DigestDecodeError(DecodeError(InvalidPadding)))"
    );
}

#[test]
fn failures_while_reading() {
    let mut reader = SourceHash::try_read();
    assert_eq!(reader.room(), 64);
    assert!(reader.read::<&str>(ReadEvent::Data(b"% SOURCE")).is_none());
    assert_eq!(reader.room(), 56);
    assert!(matches!(
        reader.read(ReadEvent::Failed("broken")),
        Some(Err(SourceHashReadError::IOError("broken")))
    ));
}

#[test]
fn more_data_than_there_is_room_for() {
    let mut reader = SourceHash::try_read();
    let data = [b' '; 100];
    assert!(matches!(
        reader.read::<()>(ReadEvent::Data(&data)),
        Some(Err(SourceHashReadError::CantParse))
    ));
    let mut data = line(ABC).into_bytes();
    data.resize(200, b'x');
    let mut reader = SourceHash::try_read();
    assert!(reader.read::<()>(ReadEvent::Data(&data)).unwrap().unwrap() == SourceHash::new("abc"));
}

#[test]
fn hashes_in_lines() {
    assert_eq!(SourceHash::encoded_in(b"% SOURCE-HASH=ab \t"), Some(&b"ab"[..]));
    assert_eq!(SourceHash::encoded_in(b"% SOURCE-HASH=  "), None);
    assert_eq!(SourceHash::encoded_in(b"SOURCE-HASH=ab"), None);
}

#[test]
fn decoded_digests() {
    let buf = [7; 32];
    assert!(Sha256Digest::from_decoded(buf, Ok(32)).is_ok());
    assert!(matches!(
        Sha256Digest::from_decoded(buf, Ok(31)),
        Err(Sha256DecodeError::InvalidDigestLength)
    ));
    assert!(matches!(
        Sha256Digest::from_decoded(buf, Err(DecodeSliceError::OutputSliceTooSmall)),
        Err(Sha256DecodeError::InvalidDigestLength)
    ));
    assert!(matches!(
        Sha256Digest::from_decoded(
            buf,
            Err(DecodeSliceError::DecodeError(DecodeError::InvalidPadding))
        ),
        Err(Sha256DecodeError::DecodeError(DecodeError::InvalidPadding))
    ));
    let digest = Sha256Digest::of(b"abc");
    assert!(Sha256Digest::decode(ABC.as_bytes()).unwrap() == digest);
    assert!(Sha256Digest::decode(EMPTY.as_bytes()).unwrap() != digest);
}

#[test]
fn compiled_files() {
    let hash = SourceHash::new("abc");
    let same: Outcome = Ok(SourceHash::new("abc"));
    let state = hash.check_compiled(same);
    assert!(matches!(state, CacheState::Hit));
    assert!(!state.needs_compilation(false));
    assert!(state.needs_compilation(true));
    let other: Outcome = Ok(SourceHash::new(""));
    let state = hash.check_compiled(other);
    assert!(matches!(state, CacheState::Mismatch(old) if old == SourceHash::new("")));
    assert!(state.needs_compilation(false));
    assert!(state.needs_compilation(true));
    let state = hash.check_compiled(Outcome::Err(SourceHashReadError::CantParse));
    assert!(matches!(
        state,
        CacheState::Unknown(SourceHashReadError::CantParse)
    ));
    assert!(state.needs_compilation(false));
    assert!(state.needs_compilation(true));
}

#[test]
fn accepted_bytes_are_hashed() {
    let mut writer = HashWriter::<Sha256, _>::new(Vec::new());
    writer.writer_mut().extend_from_slice(b"a");
    writer.write(b"axyz", 1);
    writer.writer_mut().extend_from_slice(b"bc");
    writer.write_all(b"bc");
    let (digest, sink) = writer.finalize();
    assert_eq!(digest, Sha256Digest::of(b"abc").to_bytes());
    assert_eq!(digest[..4], [0xba, 0x78, 0x16, 0xbf]);
    assert_eq!(digest.len(), 32);
    assert_eq!(sink, b"abc");
}

#[test]
fn accepted_slices_are_hashed() {
    for (n, expected) in [
        (0, ""),
        (1, "a"),
        (2, "ab"),
        (3, "abc"),
        (4, "abcd"),
        (9, "abcd"),
    ] {
        let mut writer: HashWriter<Sha256, u8> = 5.into();
        writer.write_vectored(&[b"", b"ab", b"", b"cd"], n);
        let (digest, sink) = writer.finalize();
        assert_eq!(digest, Sha256Digest::of(expected.as_bytes()).to_bytes(), "{n}");
        assert_eq!(sink, 5);
    }
}
