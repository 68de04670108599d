/// A fixed-size test buffer over borrowed storage, with a cursor and a
/// logical length.
pub struct TestBuffer<'a, const N: usize> {
    pub buf: &'a mut [u8; N],
    idx: usize,
    len: usize,
}

impl<'a, const N: usize> TestBuffer<'a, N> {
    fn from_buf(buf: &'a mut [u8; N]) -> TestBuffer<'a, N> {
        TestBuffer { buf, idx: 0, len: 0 }
    }
}

impl<const N: usize> TestBuffer<'_, N> {
    fn mangle(&mut self) {
        self.buf.iter_mut().for_each(|i| *i = 0x80);
    }
}

#[test]
fn test_buffer_constructor_borrows_input_and_resets_state() {
    let mut source = [0x11, 0x22, 0x33];
    let buffer = TestBuffer::from_buf(&mut source);
    assert_eq!(buffer.buf, &[0x11, 0x22, 0x33]);
    assert_eq!(buffer.idx, 0);
    assert_eq!(buffer.len, 0);
    buffer.buf[0] = 0xFF;
    assert_eq!(source, [0xFF, 0x22, 0x33]);
}

#[test]
fn test_buffer_mangle_replaces_backing_bytes() {
    let mut raw = [0x11, 0x22, 0x33];
    let mut buffer = TestBuffer::from_buf(&mut raw);
    buffer.idx = 2;
    buffer.len = 2;

    buffer.mangle();

    assert_eq!(buffer.buf, &[0x80, 0x80, 0x80]);
    assert_eq!(buffer.idx, 2);
    assert_eq!(buffer.len, 2);
}
