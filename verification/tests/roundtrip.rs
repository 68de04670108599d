use cobs_io_async::decode::{DecoderCore, PushStep, SliceDecoder};
use cobs_io_async::encode::{DestOp, EncoderCore, SliceEncoder};
use cobs_io_async::{max_encoding_length, DecodeError, SeekableError};

/// A small deterministic generator for test payloads.
struct Lcg(u64);

impl Lcg {
    fn next(&mut self) -> u64 {
        self.0 = self.0.wrapping_mul(6364136223846793005).wrapping_add(1442695040888963407);
        self.0 >> 33
    }

    fn payload(&mut self, len: usize, zero_every: u64) -> Vec<u8> {
        (0..len)
            .map(|_| {
                let r = self.next();
                if zero_every > 0 && r % zero_every == 0 { 0 } else { (r % 255 + 1) as u8 }
            })
            .collect()
    }
}

fn one_shot(src: &[u8]) -> Vec<u8> {
    let mut encoder = SliceEncoder::new(src);
    let mut out = Vec::new();
    while let Some(block) = encoder.next_block() {
        out.push(block.code);
        out.extend_from_slice(&src[block.start..block.start + block.len]);
    }
    out
}

fn incremental(chunks: &[&[u8]]) -> Vec<u8> {
    let mut core = EncoderCore::new();
    let mut dest: Vec<u8> = Vec::new();
    let mut cursor = 0usize;
    let mut run = |core: &mut EncoderCore, dest: &mut Vec<u8>| -> Option<u64> {
        loop {
            match core.next_op::<SeekableError, SeekableError>().unwrap() {
                DestOp::Idle => return None,
                DestOp::QueryPosition => core.position_known(cursor as u64),
                DestOp::WriteByte { target, byte } => {
                    cursor = target as usize;
                    if dest.len() <= cursor {
                        dest.resize(cursor + 1, 0x80);
                    }
                    dest[cursor] = byte;
                    cursor += 1;
                    core.write_done::<SeekableError, SeekableError>(1).unwrap();
                }
                DestOp::SeekTo(end) => {
                    cursor = end as usize;
                    return Some(core.seek_done());
                }
            }
        }
    };
    for chunk in chunks {
        core.begin_push::<SeekableError, SeekableError>().unwrap();
        run(&mut core, &mut dest);
        for &byte in chunk.iter() {
            core.push_byte(byte);
            run(&mut core, &mut dest);
        }
        core.end_push();
    }
    assert_eq!(core.begin_finalize::<SeekableError, SeekableError>(), Ok(None));
    let len = run(&mut core, &mut dest).unwrap();
    assert_eq!(len as usize, dest.len());
    dest
}

fn decode_one_shot(encoded: &[u8], capacity: usize) -> Result<(u64, Vec<u8>), DecodeError<SeekableError, SeekableError>> {
    let mut dest = vec![0x80u8; capacity];
    let mut decoder = SliceDecoder::new();
    for &byte in encoded {
        if let Some(len) = decoder.feed::<SeekableError>(byte, &mut dest)? {
            return Ok((len, dest));
        }
    }
    let len = decoder.finish::<SeekableError>()?;
    Ok((len, dest))
}

fn decode_in_chunks(encoded: &[u8], rng: &mut Lcg) -> (Vec<u8>, Option<u64>) {
    let mut core = DecoderCore::new();
    let mut out = Vec::new();
    let mut rest = encoded;
    while !rest.is_empty() {
        let take = (rng.next() as usize % 40 + 1).min(rest.len());
        let (chunk, tail) = rest.split_at(take);
        rest = tail;
        let mut progress = core.start_push::<SeekableError, SeekableError>().unwrap();
        let mut done = false;
        for &byte in chunk {
            match core.process_byte::<SeekableError, SeekableError>(byte, &mut progress).unwrap() {
                PushStep::Continue => {}
                PushStep::Write(v) => {
                    out.push(v);
                    core.acknowledge_output(&mut progress);
                }
                PushStep::Complete => {
                    done = true;
                    break;
                }
            }
        }
        if done {
            assert!(rest.is_empty());
            return (out, progress.frame_len);
        }
        core.finish_push();
    }
    (out, None)
}

#[test]
fn encodings_round_trip() {
    let mut rng = Lcg(7);
    for (len, zero_every) in [(0, 0), (1, 0), (253, 0), (254, 0), (255, 0), (508, 0), (509, 0), (600, 3), (700, 50), (1000, 300), (17, 1)] {
        let payload = rng.payload(len, zero_every);
        let encoded = one_shot(&payload);
        assert!(!encoded.contains(&0));
        assert!(encoded.len() > payload.len());
        assert!(encoded.len() <= max_encoding_length(payload.len()));

        let (decoded_len, dest) = decode_one_shot(&encoded, payload.len()).unwrap();
        assert_eq!(decoded_len, payload.len() as u64);
        assert_eq!(dest, payload);

        let mut framed = encoded.clone();
        framed.push(0);
        let (decoded_len, dest) = decode_one_shot(&framed, payload.len() + 3).unwrap();
        assert_eq!(decoded_len, payload.len() as u64);
        assert_eq!(&dest[..payload.len()], &payload[..]);
        assert_eq!(&dest[payload.len()..], &[0x80, 0x80, 0x80]);

        let (out, frame_len) = decode_in_chunks(&framed, &mut rng);
        assert_eq!(out, payload);
        assert_eq!(frame_len, Some(payload.len() as u64));
    }
}

#[test]
fn incremental_encoding_matches_one_shot() {
    let mut rng = Lcg(11);
    for (len, zero_every) in [(0, 0), (5, 2), (254, 0), (255, 0), (300, 0), (600, 7), (1000, 0)] {
        let payload = rng.payload(len, zero_every);
        let mut chunks: Vec<&[u8]> = Vec::new();
        let mut rest = &payload[..];
        while !rest.is_empty() {
            let take = (rng.next() as usize % 300).min(rest.len());
            let (chunk, tail) = rest.split_at(take);
            chunks.push(chunk);
            rest = tail;
        }
        assert_eq!(incremental(&chunks), one_shot(&payload));
        assert_eq!(incremental(&[&payload[..]]), one_shot(&payload));
    }
}

#[test]
fn truncation_at_a_block_boundary_is_not_detected() {
    // A frame cut right after a block still decodes at the end of input.
    let encoded = one_shot(&[1, 2, 0, 3]);
    assert_eq!(encoded, vec![3, 1, 2, 2, 3]);
    let (len, dest) = decode_one_shot(&encoded[..3], 4).unwrap();
    assert_eq!(len, 2);
    assert_eq!(&dest[..2], &[1, 2]);
    assert_eq!(
        decode_one_shot(&encoded[..2], 4),
        Err(DecodeError::UnexpectedSourceEof)
    );
}
