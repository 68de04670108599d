use cobs_io_async::decode::{DecodeAction, DecoderCore, PushStep, SliceDecoder, WriteNext, write_next};
use cobs_io_async::{CompletionError, DecodeError, DecodeProgress, SeekableError};

#[test]
fn reset_works() {
    let mut core = DecoderCore::new();
    assert!(core.begin_push());
    for byte in [3, 1, 2, 4, 4, 5] {
        match core.accept_byte(byte) {
            DecodeAction::Skip => {}
            DecodeAction::Write(_) => core.acknowledge_write(),
            _ => panic!("unexpected frame boundary"),
        }
    }
    core.finish_push();
    assert!(core.frame_started);
    assert_eq!(
        core.check_complete(),
        Err(CompletionError::IncompleteFrame(5))
    );
    let prev_written = core.reset_frame();
    assert_eq!(prev_written, 5);
    assert_eq!(core.written, 0);
    assert!(!core.frame_started);
    assert_eq!(core.state.next_sentinel_idx, 0);
    assert!(core.state.next_byte_is_sentinel_or_sentinel_index);
    assert!(!core.state.current_block_is_full);
    assert_eq!(core.check_complete(), Ok(()));
    assert_eq!(core.finish_frame(), Err(CompletionError::NoFrame));
    assert_eq!(core.reset_frame(), 0);
    assert!(core.begin_push());
    assert!(matches!(core.accept_byte(2), DecodeAction::Skip));
    assert!(matches!(core.accept_byte(9), DecodeAction::Write(9)));
    core.acknowledge_write();
    assert!(matches!(
        core.accept_byte(0),
        DecodeAction::FrameComplete(1)
    ));
    core.finish_push();
    assert_eq!(core.written, 0);
    assert_eq!(core.finish_frame(), Err(CompletionError::NoFrame));
}

#[test]
fn discard_counts_only_acknowledged_output() {
    let mut core = DecoderCore::new();
    assert!(core.begin_push());
    assert!(matches!(core.accept_byte(3), DecodeAction::Skip));
    assert!(matches!(core.accept_byte(7), DecodeAction::Write(7)));
    core.acknowledge_write();
    assert!(matches!(core.accept_byte(8), DecodeAction::Write(8)));
    assert_eq!(core.check_complete(), Err(CompletionError::InvalidState));
    core.begin_discard();
    assert_eq!(core.finish_discard(), 1);
    assert_eq!(core.check_complete(), Ok(()));
    assert_eq!(core.finish_frame(), Err(CompletionError::NoFrame));
}

type Failure = DecodeError<SeekableError, SeekableError>;

/// Runs one incremental push over `source` into `out`, the way a driver does.
fn push(core: &mut DecoderCore, source: &[u8], out: &mut Vec<u8>) -> Result<DecodeProgress, Failure> {
    let mut progress = core.start_push::<SeekableError, SeekableError>()?;
    for &byte in source {
        match core.process_byte::<SeekableError, SeekableError>(byte, &mut progress)? {
            PushStep::Continue => {}
            PushStep::Write(value) => {
                out.push(value);
                core.acknowledge_output(&mut progress);
            }
            PushStep::Complete => return Ok(progress),
        }
    }
    core.finish_push();
    Ok(progress)
}

#[test]
fn push_stops_at_the_completing_delimiter() {
    let mut core = DecoderCore::new();
    let mut out = Vec::new();
    let source = [0, 0, 2, 7, 2, 8, 0, 3, 1, 2, 0];
    let progress = push(&mut core, &source, &mut out).unwrap();
    assert_eq!(
        progress,
        DecodeProgress { consumed: 7, written: 3, frame_len: Some(3) }
    );
    assert_eq!(out, vec![7, 0, 8]);
    let progress = push(&mut core, &source[7..], &mut out).unwrap();
    assert_eq!(progress.frame_len, Some(2));
    assert_eq!(out, vec![7, 0, 8, 1, 2]);
    assert!(!core.poisoned);
}

#[test]
fn frame_length_spans_pushes() {
    let mut core = DecoderCore::new();
    let mut out = Vec::new();
    let first = push(&mut core, &[3, 10, 11], &mut out).unwrap();
    assert_eq!(first, DecodeProgress { consumed: 3, written: 2, frame_len: None });
    assert_eq!(core.check_complete(), Ok(()));
    let second = push(&mut core, &[2, 12, 0], &mut out).unwrap();
    assert_eq!(second, DecodeProgress { consumed: 3, written: 2, frame_len: Some(4) });
    assert_eq!(out, vec![10, 11, 0, 12]);
}

#[test]
fn empty_frame_and_padding() {
    let mut core = DecoderCore::new();
    let mut out = Vec::new();
    let progress = push(&mut core, &[0], &mut out).unwrap();
    assert_eq!(progress, DecodeProgress { consumed: 1, written: 0, frame_len: None });
    assert_eq!(core.finish_frame(), Err(CompletionError::NoFrame));
    let progress = push(&mut core, &[1, 0], &mut out).unwrap();
    assert_eq!(progress, DecodeProgress { consumed: 2, written: 0, frame_len: Some(0) });
    assert!(out.is_empty());
}

#[test]
fn invalid_frame_reports_progress_and_resets() {
    let mut core = DecoderCore::new();
    let mut out = Vec::new();
    let r = push(&mut core, &[5, 1, 2, 0, 2, 9, 0], &mut out);
    assert_eq!(
        r,
        Err(DecodeError::InvalidFrame(DecodeProgress { consumed: 4, written: 2, frame_len: None }))
    );
    assert!(!core.poisoned);
    assert!(!core.frame_started);
    assert_eq!(core.written, 0);
    let progress = push(&mut core, &[2, 9, 0], &mut out).unwrap();
    assert_eq!(progress.frame_len, Some(1));
    assert_eq!(out, vec![1, 2, 9]);
}

#[test]
fn poisoned_decoder_rejects_push() {
    let mut core = DecoderCore::new();
    assert!(core.begin_push());
    let mut out = Vec::new();
    assert_eq!(push(&mut core, &[2, 1], &mut out), Err(DecodeError::Poisoned));
    assert!(out.is_empty());
    assert_eq!(core.check_complete(), Err(CompletionError::InvalidState));
    assert_eq!(core.finish_frame(), Err(CompletionError::InvalidState));
}

#[test]
fn incomplete_block_cannot_be_finished() {
    let mut core = DecoderCore::new();
    let mut out = Vec::new();
    push(&mut core, &[4, 1, 2], &mut out).unwrap();
    assert_eq!(core.check_complete(), Err(CompletionError::IncompleteFrame(2)));
    assert_eq!(core.finish_frame(), Err(CompletionError::IncompleteFrame(2)));
    assert_eq!(core.written, 2);
    push(&mut core, &[3], &mut out).unwrap();
    assert_eq!(core.finish_frame(), Ok(3));
    assert_eq!(out, vec![1, 2, 3]);
}

#[test]
fn full_block_inserts_no_zero() {
    let mut encoded = vec![0xFF];
    encoded.extend(std::iter::repeat(1u8).take(254));
    encoded.extend([2, 5]);
    let mut core = DecoderCore::new();
    let mut out = Vec::new();
    push(&mut core, &encoded, &mut out).unwrap();
    assert_eq!(core.finish_frame(), Ok(255));
    let mut expected = vec![1u8; 254];
    expected.push(5);
    assert_eq!(out, expected);
}

#[test]
fn discard_byte_recovers_at_a_zero() {
    let mut core = DecoderCore::new();
    let mut out = Vec::new();
    push(&mut core, &[5, 1, 2], &mut out).unwrap();
    core.begin_discard();
    assert_eq!(core.discard_byte(7), None);
    assert!(core.poisoned);
    assert_eq!(core.discard_byte(0), Some(2));
    assert!(!core.poisoned);
    assert!(!core.frame_started);
    assert_eq!(core.written, 0);
}

#[test]
fn write_next_decisions() {
    let p = |consumed, written, frame_len| DecodeProgress { consumed, written, frame_len };
    assert!(matches!(
        write_next::<SeekableError, SeekableError>(5, 0, Ok(p(3, 2, Some(9)))),
        WriteNext::Return(Ok(3))
    ));
    assert!(matches!(
        write_next::<SeekableError, SeekableError>(5, 1, Ok(p(2, 0, Some(4)))),
        WriteNext::Return(Ok(3))
    ));
    assert!(matches!(
        write_next::<SeekableError, SeekableError>(5, 0, Ok(p(3, 2, None))),
        WriteNext::Push(3)
    ));
    assert!(matches!(
        write_next::<SeekableError, SeekableError>(5, 2, Ok(p(3, 2, None))),
        WriteNext::Return(Ok(5))
    ));
    assert!(matches!(
        write_next::<SeekableError, SeekableError>(5, 1, Err(DecodeError::InvalidFrame(p(2, 0, None)))),
        WriteNext::Push(3)
    ));
    assert!(matches!(
        write_next::<SeekableError, SeekableError>(5, 3, Err(DecodeError::InvalidFrame(p(2, 1, None)))),
        WriteNext::Return(Err(DecodeError::InvalidFrame(DecodeProgress { consumed: 2, written: 1, frame_len: None })))
    ));
    assert!(matches!(
        write_next::<SeekableError, SeekableError>(5, 0, Err(DecodeError::Destination(SeekableError::OutOfBounds))),
        WriteNext::Return(Err(DecodeError::Destination(SeekableError::OutOfBounds)))
    ));
}

/// Writes `buf` through a decoder the way its byte-sink adapter does.
fn decoder_write(core: &mut DecoderCore, buf: &[u8], out: &mut Vec<u8>) -> Result<usize, Failure> {
    if buf.is_empty() {
        return Ok(0);
    }
    let mut offset = 0;
    loop {
        let result = push(core, &buf[offset..], out);
        match write_next(buf.len(), offset, result) {
            WriteNext::Push(next) => offset = next,
            WriteNext::Return(r) => return r,
        }
    }
}

#[test]
fn decoder_write_counts_processed_input() {
    let mut core = DecoderCore::new();
    let mut out = Vec::new();
    // An empty frame: both bytes processed, not its decoded length.
    assert_eq!(decoder_write(&mut core, &[1, 0], &mut out), Ok(2));
    // An unfinished block: the whole chunk is processed.
    assert_eq!(decoder_write(&mut core, &[5], &mut out), Ok(1));
    assert_eq!(decoder_write(&mut core, &[1, 2, 3, 4, 0, 9], &mut out), Ok(5));
    assert_eq!(out, vec![1, 2, 3, 4]);
    // A frame begun earlier does not count beyond this chunk.
    assert_eq!(decoder_write(&mut core, &[4, 7, 7, 7], &mut out), Ok(4));
    assert_eq!(decoder_write(&mut core, &[0], &mut out), Ok(1));
    // An invalid frame is skipped before the next one completes.
    assert_eq!(decoder_write(&mut core, &[5, 1, 0, 2, 8, 0, 3], &mut out), Ok(6));
    assert_eq!(out, vec![1, 2, 3, 4, 7, 7, 7, 1, 8]);
    assert_eq!(
        decoder_write(&mut core, &[4, 1, 0], &mut out),
        Err(DecodeError::InvalidFrame(DecodeProgress { consumed: 3, written: 1, frame_len: None }))
    );
}

#[test]
fn one_shot_decoding_skips_padding_and_leaves_the_rest() {
    let mut dest = [0x80u8; 5];
    let (r, consumed) = decode_to_slice(&[0, 0, 0, 2, 7, 2, 8, 0, 3, 1, 1], &mut dest);
    assert_eq!(r, Ok(3));
    assert_eq!(consumed, 8);
    assert_eq!(dest, [7, 0, 8, 0x80, 0x80]);
    let mut dest = [0x80u8; 3];
    assert_eq!(decode_to_slice(&[0, 0, 2, 7, 2, 8], &mut dest), (Ok(3), 6));
    assert_eq!(dest, [7, 0, 8]);
}

/// Decodes one frame from `source` into `dest`, the way a one-shot driver does.
fn decode_to_slice(source: &[u8], dest: &mut [u8]) -> (Result<u64, Failure>, usize) {
    let mut decoder = SliceDecoder::new();
    for (i, &byte) in source.iter().enumerate() {
        match decoder.feed::<SeekableError>(byte, dest) {
            Ok(None) => {}
            Ok(Some(len)) => return (Ok(len), i + 1),
            Err(e) => return (Err(e), i + 1),
        }
    }
    (decoder.finish::<SeekableError>(), source.len())
}

#[test]
fn one_shot_decoding_of_the_documented_frame() {
    let mut output = [0u8; 3];
    let (r, consumed) = decode_to_slice(&[2, 7, 2, 8, 0], &mut output);
    assert_eq!(r, Ok(3));
    assert_eq!(consumed, 5);
    assert_eq!(output, [7, 0, 8]);
}

#[test]
fn one_shot_decoding_vectors() {
    let cases: [(&[u8], &[u8]); 7] = [
        (&[], &[1]),
        (&[10, 11, 0, 12], &[3, 10, 11, 2, 12]),
        (&[10, 11, 1, 12], &[5, 10, 11, 1, 12]),
        (&[0, 0, 1, 0], &[1, 1, 2, 1, 1]),
        (&[255, 0], &[2, 255, 1]),
        (&[1], &[2, 1]),
        (&[10, 11, 0, 12, 0, 0, 3], &[3, 10, 11, 2, 12, 1, 2, 3]),
    ];
    for (decoded, encoded) in cases {
        let mut dest = vec![0x80u8; decoded.len()];
        let (r, consumed) = decode_to_slice(encoded, &mut dest);
        assert_eq!(r, Ok(decoded.len() as u64));
        assert_eq!(consumed, encoded.len());
        assert_eq!(dest, decoded);
        let mut framed = encoded.to_vec();
        framed.push(0);
        framed.extend([9, 9]);
        let mut dest = vec![0x80u8; decoded.len() + 2];
        let (r, consumed) = decode_to_slice(&framed, &mut dest);
        assert_eq!(r, Ok(decoded.len() as u64));
        assert_eq!(consumed, encoded.len() + 1);
        assert_eq!(&dest[..decoded.len()], decoded);
        assert_eq!(&dest[decoded.len()..], &[0x80, 0x80]);
    }
}

#[test]
fn one_shot_decoding_errors() {
    let mut dest = [0x80u8; 2];
    assert_eq!(
        decode_to_slice(&[4, 1, 2, 3, 0], &mut dest),
        (Err(DecodeError::Destination(SeekableError::OutOfBounds)), 4)
    );
    assert_eq!(dest, [1, 2]);
    let mut dest = [0u8; 4];
    assert_eq!(
        decode_to_slice(&[0, 4, 1, 0], &mut dest),
        (Err(DecodeError::InvalidFrame(DecodeProgress { consumed: 4, written: 1, frame_len: None })), 4)
    );
    assert_eq!(decode_to_slice(&[4, 1, 2], &mut dest).0, Err(DecodeError::UnexpectedSourceEof));
    assert_eq!(decode_to_slice(&[0, 0], &mut dest).0, Err(DecodeError::EmptyFrame));
    assert_eq!(decode_to_slice(&[], &mut dest).0, Err(DecodeError::EmptyFrame));
    assert_eq!(decode_to_slice(&[0, 1, 0], &mut dest), (Ok(0), 3));
}
