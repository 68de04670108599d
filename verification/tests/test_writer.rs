use std::io::SeekFrom;

#[derive(Clone, Copy, Debug, PartialEq, Eq)]
enum TestError {
    OutOfBounds,
}

/// An in-memory seekable writer with a logical length, a write limit, and
/// a count of I/O calls.
#[derive(Debug)]
struct TestWriter {
    storage: Vec<u8>,
    len: usize,
    cursor: usize,
    io_calls: usize,
    write_limit: usize,
    zero_writes: bool,
    accepted_bytes: usize,
}

impl TestWriter {
    fn new(capacity: usize) -> Self {
        Self {
            storage: vec![0x80; capacity],
            len: 0,
            cursor: 0,
            io_calls: 0,
            write_limit: capacity,
            zero_writes: false,
            accepted_bytes: 0,
        }
    }

    fn bytes(&self) -> &[u8] {
        &self.storage[..self.len]
    }

    fn storage(&self) -> &[u8] {
        &self.storage
    }

    fn position(&self) -> u64 {
        self.cursor as u64
    }

    fn set_position(&mut self, position: u64) {
        let cursor = usize::try_from(position).expect("position does not fit usize");
        assert!(cursor <= self.storage.len(), "position exceeds capacity");
        self.cursor = cursor;
    }

    fn io_calls(&self) -> usize {
        self.io_calls
    }

    fn set_write_limit(&mut self, limit: usize) {
        assert!(limit <= self.storage.len(), "write limit exceeds capacity");
        self.write_limit = limit;
    }

    fn set_zero_writes(&mut self, zero: bool) {
        self.zero_writes = zero;
    }

    fn write_bytes(&mut self, bytes: &[u8]) -> Result<usize, TestError> {
        self.io_calls += 1;
        if bytes.is_empty() || self.zero_writes {
            return Ok(0);
        }
        self.write_ready(bytes)
    }

    fn seek_to(&mut self, from: SeekFrom) -> Result<u64, TestError> {
        self.io_calls += 1;
        let (base, offset) = match from {
            SeekFrom::Start(position) => (0, i128::from(position)),
            SeekFrom::End(offset) => (self.len as i128, i128::from(offset)),
            SeekFrom::Current(offset) => (self.cursor as i128, i128::from(offset)),
        };
        let position = base
            .checked_add(offset)
            .filter(|&position| position >= 0 && position <= self.storage.len() as i128)
            .ok_or(TestError::OutOfBounds)?;
        self.cursor = position as usize;
        Ok(self.position())
    }

    fn write_ready(&mut self, bytes: &[u8]) -> Result<usize, TestError> {
        let end = self
            .cursor
            .checked_add(bytes.len())
            .ok_or(TestError::OutOfBounds)?;
        if end > self.storage.len() || end > self.write_limit {
            return Err(TestError::OutOfBounds);
        }
        let accepted_bytes = self
            .accepted_bytes
            .checked_add(bytes.len())
            .expect("test writer accepted byte count overflow");
        self.storage[self.cursor..end].copy_from_slice(bytes);
        self.cursor = end;
        self.len = self.len.max(end);
        self.accepted_bytes = accepted_bytes;
        Ok(bytes.len())
    }
}

#[test]
fn writes_preserve_logical_length_and_spare_capacity() {
    let mut writer = TestWriter::new(8);
    assert!(writer.bytes().is_empty());
    assert_eq!(writer.storage(), &[0x80; 8]);
    assert_eq!(writer.position(), 0);
    assert_eq!(writer.io_calls(), 0);
    writer.set_position(2);
    assert!(writer.bytes().is_empty());
    assert_eq!(writer.io_calls(), 0);
    assert_eq!(writer.write_bytes(b"abcd"), Ok(4));
    writer.set_position(3);
    assert_eq!(writer.write_bytes(b"ZZ"), Ok(2));
    assert_eq!(writer.position(), 5);
    assert_eq!(writer.bytes(), &[0x80, 0x80, b'a', b'Z', b'Z', b'd']);
    assert_eq!(&writer.storage()[6..], &[0x80; 2]);
    assert_eq!(writer.io_calls(), 2);
}

#[test]
fn failed_writes_leave_storage_and_cursor_unchanged() {
    let mut writer = TestWriter::new(8);
    writer.write_bytes(b"abcd").unwrap();
    writer.set_write_limit(5);
    let before = writer.storage().to_vec();
    assert_eq!(writer.write_bytes(b"XY"), Err(TestError::OutOfBounds));
    assert_eq!(writer.storage(), before.as_slice());
    assert_eq!(writer.bytes(), b"abcd");
    assert_eq!(writer.position(), 4);
    assert_eq!(writer.write_bytes(b"e"), Ok(1));
    assert_eq!(writer.write_bytes(b"f"), Err(TestError::OutOfBounds));
    assert_eq!(writer.position(), 5);
    assert_eq!(writer.bytes(), b"abcde");
    writer.set_write_limit(8);
    assert_eq!(writer.write_bytes(b"f"), Ok(1));
    assert_eq!(writer.bytes(), b"abcdef");
    writer.set_position(8);
    assert_eq!(writer.write_bytes(b"x"), Err(TestError::OutOfBounds));
    assert_eq!(writer.position(), 8);
    assert_eq!(writer.bytes(), b"abcdef");
}

#[test]
fn empty_and_zero_writes_have_no_storage_effect() {
    let mut writer = TestWriter::new(4);
    writer.set_position(3);
    writer.set_write_limit(0);
    assert_eq!(writer.write_bytes(b""), Ok(0));
    writer.set_zero_writes(true);
    assert_eq!(writer.write_bytes(b"too long"), Ok(0));
    writer.set_zero_writes(false);
    assert_eq!(writer.write_bytes(b"x"), Err(TestError::OutOfBounds));
    assert!(writer.bytes().is_empty());
    assert_eq!(writer.storage(), &[0x80; 4]);
    assert_eq!(writer.position(), 3);
    assert_eq!(writer.io_calls(), 3);
}

#[test]
fn seeks_are_checked_and_do_not_extend_length() {
    let mut writer = TestWriter::new(8);
    writer.write_bytes(b"abcd").unwrap();
    assert_eq!(writer.seek_to(SeekFrom::End(2)), Ok(6));
    assert_eq!(writer.bytes(), b"abcd");
    assert_eq!(writer.seek_to(SeekFrom::Current(-5)), Ok(1));
    let before = writer.storage().to_vec();
    for from in [
        SeekFrom::Start(9),
        SeekFrom::Start(u64::MAX),
        SeekFrom::Current(-2),
        SeekFrom::Current(i64::MIN),
        SeekFrom::Current(i64::MAX),
        SeekFrom::End(-5),
        SeekFrom::End(i64::MIN),
        SeekFrom::End(i64::MAX),
    ] {
        let calls = writer.io_calls();
        assert_eq!(writer.seek_to(from), Err(TestError::OutOfBounds));
        assert_eq!(writer.position(), 1);
        assert_eq!(writer.bytes(), b"abcd");
        assert_eq!(writer.storage(), before.as_slice());
        assert_eq!(writer.io_calls(), calls + 1);
    }
    assert_eq!(writer.seek_to(SeekFrom::End(-4)), Ok(0));
    assert_eq!(writer.seek_to(SeekFrom::Start(8)), Ok(8));
    assert_eq!(writer.seek_to(SeekFrom::End(0)), Ok(4));
    assert_eq!(writer.bytes(), b"abcd");
}
