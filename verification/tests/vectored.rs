use agdatex::vectored::{write_all_vectored, WriteError, Written};

/// Writes `bufs` to a writer that takes `counts` bytes at a time.
fn write_in_steps(bufs: &[&[u8]], counts: &[usize]) -> Vec<u8> {
    let mut write = write_all_vectored(bufs.to_vec());
    let mut sink = Vec::new();
    let mut steps = counts.iter().cycle();
    while !write.is_done() {
        assert!(write.wrote::<()>(Written::Interrupted).is_ok());
        let offered = write.pending().concat();
        assert!(!write.pending()[0].is_empty());
        let n = offered.len().min(*steps.next().unwrap());
        sink.extend_from_slice(&offered[..n]);
        assert!(write.wrote::<()>(Written::Count(n)).is_ok());
    }
    assert!(write.pending().is_empty());
    sink
}

#[test]
fn everything_is_written_once() {
    let bufs: [&[u8]; 6] = [b"", b"ab", b"", b"", b"cdef", b""];
    for counts in [&[1][..], &[2], &[3], &[1, 4], &[100]] {
        assert_eq!(write_in_steps(&bufs, counts), b"abcdef");
    }
    assert_eq!(write_in_steps(&[], &[1]), b"");
    assert_eq!(write_in_steps(&[b"", b""], &[1]), b"");
}

#[test]
fn slices_that_are_left() {
    let mut write = write_all_vectored(vec![&b""[..], b"ab", b"", b"cd", b""]);
    assert_eq!(write.pending(), [&b"ab"[..], b"", b"cd", b""]);
    assert!(write.wrote::<()>(Written::Count(1)).is_ok());
    assert_eq!(write.pending(), [&b"b"[..], b"", b"cd", b""]);
    assert!(write.wrote::<()>(Written::Count(1)).is_ok());
    assert_eq!(write.pending(), [&b"cd"[..], b""]);
}

#[test]
fn writers_that_fail() {
    let mut write = write_all_vectored(vec![&b"ab"[..]]);
    assert!(matches!(
        write.wrote::<()>(Written::Count(0)),
        Err(WriteError::WriteZero)
    ));
    assert!(matches!(
        write.wrote(Written::Failed("full")),
        Err(WriteError::Failed("full"))
    ));
    assert_eq!(write.pending(), [&b"ab"[..]]);
}
