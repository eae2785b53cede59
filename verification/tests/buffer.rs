use sparsebuf::Error;
use sparsebuf::MemSource;
use sparsebuf::Source;
use sparsebuf::SparseBuf;

fn buf_over(data: &[u8], chunk_size: usize, scan_size: usize) -> SparseBuf<MemSource> {
    let src = MemSource::new(data.to_vec());
    let len = src.len() as u64;
    SparseBuf::with_geometry(src, len, chunk_size, scan_size)
}

#[test]
fn ranged_read_matches_source() {
    // Every in-bounds range comes back identical to a direct read of the
    // same range from the source.
    let data: Vec<u8> = (0u8..=49).collect();
    let mut buf = buf_over(&data, 7, 3);
    for a in 0..data.len() {
        for n in 0..(data.len() - a + 2) {
            let got = buf.read_range(a as u64, n).unwrap();
            let hi = (a + n).min(data.len());
            assert_eq!(&got[..], &data[a..hi]);
        }
    }
}

#[test]
fn chunk_boundary_read_fetches_twice() {
    // A 10-byte source with 4-byte chunks: reading [3, 7) needs exactly
    // the chunks at offsets 0 and 4, and the bytes span the boundary.
    let data: Vec<u8> = vec![10, 11, 12, 13, 14, 15, 16, 17, 18, 19];
    let mut buf = buf_over(&data, 4, 4);
    let got = buf.read_range(3, 4).unwrap();
    assert_eq!(got, vec![13, 14, 15, 16]);
    assert_eq!(buf.source_ref().reads(), 2);
    // Both chunks are resident now: re-reading inside their span
    // consults the source no further.
    let again = buf.read_range(0, 7).unwrap();
    assert_eq!(&again[..], &data[0..7]);
    assert_eq!(buf.source_ref().reads(), 2);
    // The chunk at offset 8 was never needed so far; touching it is one
    // more fetch.
    let tail = buf.read_range(8, 2).unwrap();
    assert_eq!(&tail[..], &data[8..10]);
    assert_eq!(buf.source_ref().reads(), 3);
}

#[test]
fn chunks_never_refetched() {
    // Overlapping ranged reads, repeated: each aligned chunk offset is
    // fetched at most once.
    let data: Vec<u8> = (0u8..=99).collect();
    let mut buf = buf_over(&data, 8, 4);
    for _ in 0..5 {
        for a in [0u64, 3, 17, 42, 90, 5] {
            let _ = buf.read_range(a, 20).unwrap();
        }
    }
    // Offsets 0..110 touch chunks 0, 8, ..., 104: at most 14 fetches, and
    // a second pass adds none.
    let first_pass = buf.source_ref().reads();
    assert!(first_pass <= 14);
    for a in 0..data.len() {
        let _ = buf.read_range(a as u64, 25).unwrap();
    }
    assert_eq!(buf.source_ref().reads(), 13);
}

#[test]
fn read_at_end_returns_nothing() {
    // A read with the cursor at or past the end copies 0 bytes, with no
    // error and no source traffic.
    let data: Vec<u8> = vec![1, 2, 3];
    let mut buf = buf_over(&data, 2, 2);
    buf.seek(3);
    let got = buf.read(5).unwrap();
    assert_eq!(got.len(), 0);
    assert_eq!(buf.position(), 3);
    assert_eq!(buf.source_ref().reads(), 0);
}

#[test]
fn read_advances_cursor() {
    let data: Vec<u8> = vec![1, 2, 3, 4, 5, 6];
    let mut buf = buf_over(&data, 4, 4);
    let a = buf.read(4).unwrap();
    assert_eq!(a, vec![1, 2, 3, 4]);
    assert_eq!(buf.position(), 4);
    // The last read is short: the source is exhausted.
    let b = buf.read(4).unwrap();
    assert_eq!(b, vec![5, 6]);
    assert_eq!(buf.position(), 6);
}

#[test]
fn seek_repositions_reads() {
    let data: Vec<u8> = vec![9, 8, 7, 6, 5];
    let mut buf = buf_over(&data, 2, 2);
    buf.seek(2);
    let got = buf.read(2).unwrap();
    assert_eq!(got, vec![7, 6]);
    buf.seek(0);
    let got = buf.read(1).unwrap();
    assert_eq!(got, vec![9]);
}

#[test]
fn read_until_count_and_cursor() {
    // The returned count excludes the delimiter; the cursor lands one
    // byte past the delimiter; the delimiter is appended.
    let data = b"abc\ndef";
    let mut buf = buf_over(data, 3, 2);
    let mut line: Vec<u8> = Vec::new();
    let n = buf.read_until(b'\n', &mut line).unwrap();
    assert_eq!(n, 3);
    assert_eq!(line, b"abc\n".to_vec());
    assert_eq!(buf.position(), 4);
}

#[test]
fn read_until_without_delimiter_stops_at_end() {
    // No delimiter before end-of-source: the remaining bytes are
    // appended, the count is their number, and the cursor lands at the
    // end of the source (not one byte past it).
    let data = b"tail";
    let mut buf = buf_over(data, 8, 2);
    let mut line: Vec<u8> = Vec::new();
    let n = buf.read_until(b'\n', &mut line).unwrap();
    assert_eq!(n, 4);
    assert_eq!(line, b"tail".to_vec());
    assert_eq!(buf.position(), 4);
    // A further scan finds nothing and moves nothing.
    let mut rest: Vec<u8> = Vec::new();
    let n = buf.read_until(b'\n', &mut rest).unwrap();
    assert_eq!(n, 0);
    assert!(rest.is_empty());
    assert_eq!(buf.position(), 4);
}

#[test]
fn read_until_appends_after_existing_bytes() {
    let data = b"xy\n";
    let mut buf = buf_over(data, 4, 4);
    let mut acc: Vec<u8> = vec![0u8];
    let n = buf.read_until(b'\n', &mut acc).unwrap();
    assert_eq!(n, 2);
    assert_eq!(acc, vec![0u8, b'x', b'y', b'\n']);
}

#[test]
fn three_lines_without_trailing_newline() {
    // Source "a\nbb\nccc": three lines, the last one unterminated; a
    // further request yields nothing more.
    let data = b"a\nbb\nccc";
    let mut buf = buf_over(data, 4, 2);
    let lines = buf.read_lines(3).unwrap();
    assert_eq!(lines, vec!["a\n".to_string(), "bb\n".to_string(), "ccc".to_string()]);
    let more = buf.read_lines(1).unwrap();
    assert!(more.is_empty());
}

#[test]
fn lines_in_order_and_none_omitted() {
    // Empty lines are lines too: order is kept and nothing is dropped,
    // and fewer lines than requested come back only at end-of-source.
    let data = b"a\n\nb\n";
    let mut buf = buf_over(data, 2, 2);
    let lines = buf.read_lines(10).unwrap();
    assert_eq!(lines, vec!["a\n".to_string(), "\n".to_string(), "b\n".to_string()]);
    assert_eq!(buf.position(), 5);
}

#[test]
fn lines_stop_early_only_at_end() {
    let data = b"one\ntwo\nthree\nfour\n";
    let mut buf = buf_over(data, 4, 4);
    let first = buf.read_lines(2).unwrap();
    assert_eq!(first.len(), 2);
    assert_eq!(first[0], "one\n");
    assert_eq!(first[1], "two\n");
    let rest = buf.read_lines(5).unwrap();
    assert_eq!(rest, vec!["three\n".to_string(), "four\n".to_string()]);
}

#[test]
fn lines_across_chunks_and_windows() {
    // A line far longer than both the chunk size and the scan window.
    let mut data: Vec<u8> = Vec::new();
    for i in 0..100u8 {
        data.push(b'a' + (i % 26));
    }
    data.push(b'\n');
    data.extend_from_slice(b"z");
    let mut buf = buf_over(&data, 7, 3);
    let lines = buf.read_lines(2).unwrap();
    assert_eq!(lines.len(), 2);
    assert_eq!(lines[0].len(), 101);
    assert_eq!(lines[0].as_bytes(), &data[0..101]);
    assert_eq!(lines[1], "z");
}

#[test]
fn invalid_utf8_line_is_an_encoding_error() {
    // 0xff can begin no UTF-8 sequence: the line fails to decode, the
    // error is recoverable and the cursor is restored.
    let data = vec![b'o', b'k', b'\n', 0xff, b'\n'];
    let mut buf = buf_over(&data, 4, 4);
    let r = buf.read_lines(2);
    assert_eq!(r, Err(Error::Encoding));
    assert_eq!(buf.position(), 0);
    // One line at a time still recovers the valid first line.
    let one = buf.read_lines(1).unwrap();
    assert_eq!(one, vec!["ok\n".to_string()]);
}

#[test]
fn defaults_handle_plain_sources() {
    let data = b"hello\nworld\n";
    let src = MemSource::new(data.to_vec());
    let mut buf = SparseBuf::new(src, data.len() as u64);
    let lines = buf.read_lines(2).unwrap();
    assert_eq!(lines, vec!["hello\n".to_string(), "world\n".to_string()]);
    assert_eq!(buf.source_len(), 12);
    // One default-size chunk covers the whole source.
    assert_eq!(buf.source_ref().reads(), 1);
}

struct FailingSource;

impl Source for FailingSource {
    fn bytes(&self) -> sparsebuf::SourceBytes {
        unreachable!()
    }

    fn read_at(&mut self, _offset: u64, _len: usize) -> Result<Vec<u8>, Error> {
        Err(Error::SourceIo)
    }
}

#[test]
fn source_failure_is_an_io_error() {
    // Every fetch fails: the error propagates as the I/O kind and the
    // cursor stays put.
    let mut buf = SparseBuf::with_geometry(FailingSource, 8, 4, 4);
    let r = buf.read(4);
    assert_eq!(r, Err(Error::SourceIo));
    assert_eq!(buf.position(), 0);
    let r = buf.read_lines(1);
    assert_eq!(r, Err(Error::SourceIo));
    assert_eq!(buf.position(), 0);
}
