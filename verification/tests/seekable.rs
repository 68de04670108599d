use cobs_io_async::seekable::{InputSeekable, OutputSeekable, SeekFrom};
use cobs_io_async::SeekableError;

#[test]
fn input_reads_and_seeks() {
    let data = [1u8, 2, 3, 4, 5];
    let mut input = InputSeekable::new(&data);
    let mut out = [0u8; 2];
    assert_eq!(input.read(&mut out), 2);
    assert_eq!(out, [1, 2]);
    assert_eq!(input.read_byte(), Some(3));
    assert_eq!(input.seek(SeekFrom::Current(-1)), Ok(2));
    let mut out = [9u8; 8];
    assert_eq!(input.read(&mut out), 3);
    assert_eq!(out, [3, 4, 5, 9, 9, 9, 9, 9]);
    assert_eq!(input.read(&mut out), 0);
    assert_eq!(input.read_byte(), None);
    assert_eq!(input.seek(SeekFrom::End(-5)), Ok(0));
    assert_eq!(input.seek(SeekFrom::Start(6)), Err(SeekableError::OutOfBounds));
    assert_eq!(input.seek(SeekFrom::Current(-1)), Err(SeekableError::OutOfBounds));
    assert_eq!(input.seek(SeekFrom::End(1)), Err(SeekableError::OutOfBounds));
    assert_eq!(input.seek(SeekFrom::End(i64::MIN)), Err(SeekableError::OutOfBounds));
    assert_eq!(input.seek(SeekFrom::Current(i64::MAX)), Err(SeekableError::OutOfBounds));
    assert_eq!(input.pos(), 0);
    assert_eq!(input.seek(SeekFrom::Start(5)), Ok(5));
}

#[test]
fn output_writes_are_all_or_nothing() {
    let mut buf = [0x80u8; 4];
    {
        let mut output = OutputSeekable::new(&mut buf);
        assert_eq!(output.write(&[1, 2]), Ok(2));
        assert_eq!(output.write(&[3, 4, 5]), Err(SeekableError::OutOfBounds));
        assert_eq!(output.pos(), 2);
        assert_eq!(output.as_slice(), &[1, 2, 0x80, 0x80]);
        assert_eq!(output.seek(SeekFrom::Start(1)), Ok(1));
        assert_eq!(output.write(&[7]), Ok(1));
        assert_eq!(output.seek(SeekFrom::End(0)), Ok(4));
        assert_eq!(output.write(&[]), Ok(0));
        assert_eq!(output.write(&[1]), Err(SeekableError::OutOfBounds));
        assert_eq!(output.seek(SeekFrom::End(1)), Err(SeekableError::OutOfBounds));
        assert_eq!(output.seek(SeekFrom::Current(-5)), Err(SeekableError::OutOfBounds));
        assert_eq!(output.pos(), 4);
    }
    assert_eq!(buf, [1, 7, 0x80, 0x80]);
}
