//! Decoding: the byte-level state machine, the frame-level decoder core and
//! the decisions of incremental and one-shot decoding.
use vstd::prelude::*;

use crate::error::{CompletionError, DecodeError, SeekableError};
use crate::format::{block_len, cobs_encode, inside_block, zero_free};

verus! {

/// Progress from a successful decoder push or an invalid-frame error.
///
/// `consumed` and `written` describe the current call. `frame_len`, when
/// present, is the cumulative decoded length of a frame completed by a
/// delimiter during this call.
#[derive(Debug, Clone, Copy, Hash, PartialEq, Eq)]
pub struct DecodeProgress {
    /// Number of encoded bytes processed during this call, including code
    /// bytes, ignored zero padding and a delimiter that completed or
    /// invalidated a frame.
    pub consumed: u64,
    /// Number of decoded bytes acknowledged as written during this call.
    pub written: u64,
    /// Cumulative decoded length of a frame completed by a delimiter during
    /// this call.
    pub frame_len: Option<u64>,
}

impl DecodeProgress {
    /// Zero counts and no completed frame.
    pub open spec fn zero() -> DecodeProgress {
        DecodeProgress { consumed: 0, written: 0, frame_len: None }
    }
}

impl Default for DecodeProgress {
    fn default() -> (r: Self)
        ensures
            r == DecodeProgress::zero(),
    {
        DecodeProgress { consumed: 0, written: 0, frame_len: None }
    }
}

/// State of the byte-level COBS decoder.
///
/// `next_sentinel_idx` counts down the bytes of the current block: a code
/// byte `c` sets it to `c`, each data byte decrements it. When it reaches 1
/// (or a code byte of 1 arrives), the next byte is again a code byte.
#[derive(Clone, Copy, Debug)]
pub struct DecoderState {
    pub next_sentinel_idx: u8,
    pub next_byte_is_sentinel_or_sentinel_index: bool,
    pub current_block_is_full: bool,
}

/// What the byte-level decoder does with one encoded byte.
#[derive(Clone, Copy, Debug, PartialEq, Eq)]
pub enum PushResult {
    /// The byte is decoded data.
    AddSingle,
    /// The byte is a code byte that follows a short block: a zero is decoded.
    WriteSentinel,
    /// A delimiter arrived inside an incomplete block.
    InvalidFrame,
    /// A delimiter arrived at a block boundary.
    EndOfFrame,
    /// The byte is a code byte that produces no output.
    Skip,
}

impl DecoderState {
    /// A data byte is only expected while at least two bytes of the block remain.
    pub open spec fn wf(self) -> bool {
        !self.next_byte_is_sentinel_or_sentinel_index ==> self.next_sentinel_idx >= 2
    }

    /// The state at the start of a frame.
    pub open spec fn initial() -> DecoderState {
        DecoderState {
            next_sentinel_idx: 0,
            next_byte_is_sentinel_or_sentinel_index: true,
            current_block_is_full: false,
        }
    }

    /// The state after one encoded byte, and what that byte produced.
    pub open spec fn spec_push(self, byte: u8) -> (DecoderState, PushResult) {
        if byte == 0 {
            (
                DecoderState {
                    next_sentinel_idx: 0,
                    next_byte_is_sentinel_or_sentinel_index: true,
                    current_block_is_full: self.current_block_is_full,
                },
                if self.next_sentinel_idx > 1 {
                    PushResult::InvalidFrame
                } else {
                    PushResult::EndOfFrame
                },
            )
        } else if self.next_byte_is_sentinel_or_sentinel_index {
            (
                DecoderState {
                    next_sentinel_idx: byte,
                    next_byte_is_sentinel_or_sentinel_index: byte <= 1,
                    current_block_is_full: byte == 0xFF,
                },
                if self.next_sentinel_idx == 0 || self.current_block_is_full {
                    PushResult::Skip
                } else {
                    PushResult::WriteSentinel
                },
            )
        } else {
            let idx = (self.next_sentinel_idx - 1) as u8;
            (
                DecoderState {
                    next_sentinel_idx: idx,
                    next_byte_is_sentinel_or_sentinel_index: idx <= 1,
                    current_block_is_full: self.current_block_is_full,
                },
                PushResult::AddSingle,
            )
        }
    }

    /// Creates the state at the start of a frame.
    pub fn new() -> (s: Self)
        ensures
            s == DecoderState::initial(),
    {
        DecoderState {
            next_sentinel_idx: 0,
            next_byte_is_sentinel_or_sentinel_index: true,
            current_block_is_full: false,
        }
    }

    /// Processes one encoded byte.
    pub fn push(&mut self, byte: u8) -> (r: PushResult)
        requires
            old(self).wf(),
        ensures
            final(self).wf(),
            (*final(self), r) == old(self).spec_push(byte),
    {
        if byte == 0 {
            self.next_byte_is_sentinel_or_sentinel_index = true;
            if self.next_sentinel_idx > 1 {
                self.next_sentinel_idx = 0;
                return PushResult::InvalidFrame;
            }
            self.next_sentinel_idx = 0;
            return PushResult::EndOfFrame;
        }
        if self.next_byte_is_sentinel_or_sentinel_index {
            let ret = if self.next_sentinel_idx == 0 || self.current_block_is_full {
                PushResult::Skip
            } else {
                PushResult::WriteSentinel
            };
            self.current_block_is_full = byte == 0xFF;
            self.next_sentinel_idx = byte;
            self.next_byte_is_sentinel_or_sentinel_index = byte <= 1;
            ret
        } else {
            self.next_sentinel_idx -= 1;
            if self.next_sentinel_idx <= 1 {
                self.next_byte_is_sentinel_or_sentinel_index = true;
            }
            PushResult::AddSingle
        }
    }
}

/// The decoded bytes a push result produces for an encoded byte.
pub open spec fn push_output(r: PushResult, byte: u8) -> Seq<u8> {
    match r {
        PushResult::AddSingle => seq![byte],
        PushResult::WriteSentinel => seq![0u8],
        _ => seq![],
    }
}

impl DecoderState {
    /// The state after a sequence of encoded bytes, and the decoded bytes.
    pub open spec fn run(self, bytes: Seq<u8>) -> (DecoderState, Seq<u8>)
        decreases bytes.len(),
    {
        if bytes.len() == 0 {
            (self, seq![])
        } else {
            let (s1, r) = self.spec_push(bytes[0]);
            let (s2, out) = s1.run(bytes.drop_first());
            (s2, push_output(r, bytes[0]) + out)
        }
    }

    /// The zero that a short block implies before the next block's data.
    pub open spec fn pending_zero(self) -> Seq<u8> {
        if self.next_sentinel_idx == 1 && !self.current_block_is_full {
            seq![0u8]
        } else {
            seq![]
        }
    }

    /// The state is at a block boundary: the next byte is a code byte.
    pub open spec fn at_boundary(self) -> bool {
        &&& self.next_byte_is_sentinel_or_sentinel_index
        &&& self.next_sentinel_idx <= 1
    }
}

/// What the frame-level decoder does with one encoded byte.
#[derive(Clone, Copy, Debug, PartialEq, Eq)]
pub enum DecodeAction {
    /// The byte produces no output.
    Skip,
    /// The byte produces this decoded byte.
    Write(u8),
    /// A delimiter completed a frame of this decoded length.
    FrameComplete(u64),
    /// A delimiter invalidated the frame.
    InvalidFrame,
}

/// Frame-level decoder state: the byte-level state, the decoded bytes
/// acknowledged for the current frame, whether a frame is active, and
/// whether an interrupted operation poisoned the decoder.
#[derive(Clone, Copy, Debug)]
pub struct DecoderCore {
    pub state: DecoderState,
    pub written: u64,
    pub frame_started: bool,
    pub poisoned: bool,
}

/// The decoded bytes a decode action produces.
pub open spec fn action_output(a: DecodeAction) -> Seq<u8> {
    match a {
        DecodeAction::Write(v) => seq![v],
        _ => seq![],
    }
}

impl DecoderCore {
    pub open spec fn wf(self) -> bool {
        self.state.wf()
    }

    /// An idle, unpoisoned decoder.
    pub open spec fn initial() -> DecoderCore {
        DecoderCore {
            state: DecoderState::initial(),
            written: 0,
            frame_started: false,
            poisoned: false,
        }
    }

    /// The decoder with framing and frame accounting reset.
    pub open spec fn reset_spec(self) -> DecoderCore {
        DecoderCore {
            state: DecoderState::initial(),
            written: 0,
            frame_started: false,
            poisoned: self.poisoned,
        }
    }

    /// The decoder after one encoded byte, and what that byte means.
    pub open spec fn spec_accept(self, byte: u8) -> (DecoderCore, DecodeAction) {
        if !self.frame_started && byte == 0 {
            (self, DecodeAction::Skip)
        } else {
            let (st, r) = self.state.spec_push(byte);
            let c = DecoderCore { state: st, frame_started: true, ..self };
            match r {
                PushResult::AddSingle => (c, DecodeAction::Write(byte)),
                PushResult::WriteSentinel => (c, DecodeAction::Write(0)),
                PushResult::Skip => (c, DecodeAction::Skip),
                PushResult::InvalidFrame => (c.reset_spec(), DecodeAction::InvalidFrame),
                PushResult::EndOfFrame => (c.reset_spec(), DecodeAction::FrameComplete(c.written)),
            }
        }
    }

    /// The decoder after acknowledging one written byte.
    pub open spec fn acknowledged(self) -> DecoderCore {
        DecoderCore { written: (self.written + 1) as u64, ..self }
    }

    /// The decoder after a sequence of encoded bytes, every decoded byte
    /// being written and acknowledged, and the decoded bytes.
    pub open spec fn run(self, bytes: Seq<u8>) -> (DecoderCore, Seq<u8>)
        decreases bytes.len(),
    {
        if bytes.len() == 0 {
            (self, seq![])
        } else {
            let (c1, a) = self.spec_accept(bytes[0]);
            let c2 = if a is Write {
                c1.acknowledged()
            } else {
                c1
            };
            let (c3, out) = c2.run(bytes.drop_first());
            (c3, action_output(a) + out)
        }
    }

    /// What `check_complete` reports.
    pub open spec fn completion(self) -> Result<(), CompletionError> {
        if self.poisoned {
            Err(CompletionError::InvalidState)
        } else if self.state.next_sentinel_idx > 1 {
            Err(CompletionError::IncompleteFrame(self.written))
        } else {
            Ok(())
        }
    }

    /// Creates an idle decoder.
    pub fn new() -> (c: Self)
        ensures
            c == DecoderCore::initial(),
    {
        DecoderCore { state: DecoderState::new(), written: 0, frame_started: false, poisoned: false }
    }

    /// Starts a push: fails when poisoned, otherwise marks the decoder
    /// poisoned until the push finishes.
    pub fn begin_push(&mut self) -> (started: bool)
        ensures
            started == !old(self).poisoned,
            *final(self) == (DecoderCore { poisoned: true, ..*old(self) }),
    {
        if self.poisoned {
            return false;
        }
        self.poisoned = true;
        true
    }

    /// Ends a push successfully.
    pub fn finish_push(&mut self)
        ensures
            *final(self) == (DecoderCore { poisoned: false, ..*old(self) }),
    {
        self.poisoned = false;
    }

    /// Processes one encoded byte. Zeros while no frame is active are
    /// padding; any other byte starts or continues a frame.
    pub fn accept_byte(&mut self, byte: u8) -> (a: DecodeAction)
        requires
            old(self).wf(),
        ensures
            final(self).wf(),
            (*final(self), a) == old(self).spec_accept(byte),
    {
        if !self.frame_started && byte == 0 {
            return DecodeAction::Skip;
        }
        self.frame_started = true;
        match self.state.push(byte) {
            PushResult::AddSingle => DecodeAction::Write(byte),
            PushResult::WriteSentinel => DecodeAction::Write(0),
            PushResult::Skip => DecodeAction::Skip,
            PushResult::InvalidFrame => {
                self.reset_frame();
                DecodeAction::InvalidFrame
            },
            PushResult::EndOfFrame => DecodeAction::FrameComplete(self.reset_frame()),
        }
    }

    /// Records that one decoded byte was written.
    pub fn acknowledge_write(&mut self)
        requires
            old(self).written < u64::MAX,
        ensures
            *final(self) == old(self).acknowledged(),
    {
        self.written += 1;
    }

    /// Resets framing and frame accounting; returns the decoded bytes
    /// acknowledged for the abandoned frame.
    pub fn reset_frame(&mut self) -> (written: u64)
        ensures
            written == old(self).written,
            *final(self) == old(self).reset_spec(),
    {
        self.state = DecoderState::new();
        self.frame_started = false;
        let written = self.written;
        self.written = 0;
        written
    }

    /// Checks whether the current block is structurally complete, without
    /// changing state.
    pub fn check_complete(&self) -> (r: Result<(), CompletionError>)
        ensures
            r == self.completion(),
    {
        if self.poisoned {
            return Err(CompletionError::InvalidState);
        }
        if self.state.next_sentinel_idx > 1 {
            return Err(CompletionError::IncompleteFrame(self.written));
        }
        Ok(())
    }

    /// Declares the end of the current undelimited frame. On success returns
    /// its decoded length and resets framing; errors leave state unchanged.
    pub fn finish_frame(&mut self) -> (r: Result<u64, CompletionError>)
        ensures
            match old(self).completion() {
                Err(e) => r == Err::<u64, CompletionError>(e) && *final(self) == *old(self),
                Ok(_) => if !old(self).frame_started {
                    r == Err::<u64, CompletionError>(CompletionError::NoFrame) && *final(self)
                        == *old(self)
                } else {
                    r == Ok::<u64, CompletionError>(old(self).written) && *final(self)
                        == old(self).reset_spec()
                },
            },
    {
        match self.check_complete() {
            Err(e) => return Err(e),
            Ok(()) => {},
        }
        if !self.frame_started {
            return Err(CompletionError::NoFrame);
        }
        Ok(self.reset_frame())
    }

    /// Starts delimiter-based recovery: the decoder stays poisoned until
    /// the recovery succeeds.
    pub fn begin_discard(&mut self)
        ensures
            *final(self) == (DecoderCore { poisoned: true, ..*old(self) }),
    {
        self.poisoned = true;
    }

    /// Completes recovery after a delimiter: resets framing and accounting,
    /// clears poisoning, and returns the abandoned frame's acknowledged output.
    pub fn finish_discard(&mut self) -> (written: u64)
        ensures
            written == old(self).written,
            *final(self) == DecoderCore::initial(),
    {
        let written = self.reset_frame();
        self.poisoned = false;
        written
    }
}

/// What an incremental push does after one encoded byte.
#[derive(Clone, Copy, Debug, PartialEq, Eq)]
pub enum PushStep {
    /// Nothing to write; go on with the next encoded byte.
    Continue,
    /// Write this decoded byte to the destination, then acknowledge it with
    /// [`DecoderCore::acknowledge_output`].
    Write(u8),
    /// A delimiter completed the frame; the push is over.
    Complete,
}

impl DecoderCore {
    /// Starts an incremental push: a poisoned decoder rejects it before any
    /// I/O; otherwise the decoder stays poisoned until the push ends, and the
    /// push's progress starts at zero.
    pub fn start_push<S, D>(&mut self) -> (r: Result<DecodeProgress, DecodeError<S, D>>)
        ensures
            old(self).poisoned ==> (r matches Err(DecodeError::Poisoned)),
            old(self).poisoned ==> *final(self) == *old(self),
            !old(self).poisoned ==> r == Ok::<DecodeProgress, DecodeError<S, D>>(
                DecodeProgress::zero(),
            ) && *final(self) == (DecoderCore { poisoned: true, ..*old(self) }),
    {
        if !self.begin_push() {
            return Err(DecodeError::Poisoned);
        }
        Ok(DecodeProgress::default())
    }

    /// Processes one encoded byte of an incremental push and counts it as
    /// consumed. A completed frame records its length in the progress and
    /// ends the push; an invalidated frame ends the push with an
    /// `InvalidFrame` error carrying the progress, the delimiter included.
    pub fn process_byte<S, D>(&mut self, byte: u8, progress: &mut DecodeProgress) -> (r: Result<
        PushStep,
        DecodeError<S, D>,
    >)
        requires
            old(self).wf(),
            old(progress).consumed < u64::MAX,
        ensures
            final(self).wf(),
            ({
                let (c, a) = old(self).spec_accept(byte);
                let p = DecodeProgress { consumed: (old(progress).consumed + 1) as u64, ..*old(progress) };
                match a {
                    DecodeAction::Skip => {
                        &&& r == Ok::<PushStep, DecodeError<S, D>>(PushStep::Continue)
                        &&& *final(self) == c
                        &&& *final(progress) == p
                    },
                    DecodeAction::Write(v) => {
                        &&& r == Ok::<PushStep, DecodeError<S, D>>(PushStep::Write(v))
                        &&& *final(self) == c
                        &&& *final(progress) == p
                    },
                    DecodeAction::FrameComplete(n) => {
                        &&& r == Ok::<PushStep, DecodeError<S, D>>(PushStep::Complete)
                        &&& *final(self) == (DecoderCore { poisoned: false, ..c })
                        &&& *final(progress) == (DecodeProgress { frame_len: Some(n), ..p })
                    },
                    DecodeAction::InvalidFrame => {
                        &&& r == Err::<PushStep, DecodeError<S, D>>(DecodeError::InvalidFrame(p))
                        &&& *final(self) == (DecoderCore { poisoned: false, ..c })
                        &&& *final(progress) == p
                    },
                }
            }),
    {
        progress.consumed = progress.consumed + 1;
        match self.accept_byte(byte) {
            DecodeAction::Skip => Ok(PushStep::Continue),
            DecodeAction::Write(value) => Ok(PushStep::Write(value)),
            DecodeAction::FrameComplete(len) => {
                progress.frame_len = Some(len);
                self.finish_push();
                Ok(PushStep::Complete)
            },
            DecodeAction::InvalidFrame => {
                self.finish_push();
                Err(DecodeError::InvalidFrame(*progress))
            },
        }
    }

    /// Delimiter-based recovery, one input byte at a time: a zero completes
    /// the recovery (as [`finish_discard`](Self::finish_discard) does) and
    /// returns the abandoned frame's acknowledged output; any other byte is
    /// skipped.
    pub fn discard_byte(&mut self, byte: u8) -> (r: Option<u64>)
        ensures
            byte == 0 ==> r == Some(old(self).written) && *final(self) == DecoderCore::initial(),
            byte != 0 ==> r is None && *final(self) == *old(self),
    {
        if byte == 0 {
            Some(self.finish_discard())
        } else {
            None
        }
    }

    /// Records that the byte of a [`PushStep::Write`] reached the destination.
    pub fn acknowledge_output(&mut self, progress: &mut DecodeProgress)
        requires
            old(self).written < u64::MAX,
            old(progress).written < u64::MAX,
        ensures
            *final(self) == old(self).acknowledged(),
            *final(progress) == (DecodeProgress { written: (old(progress).written + 1) as u64, ..*old(progress) }),
    {
        self.acknowledge_write();
        progress.written = progress.written + 1;
    }
}

/// What the decoder's byte-sink adapter does after pushing the unread part
/// of a chunk.
#[derive(Debug)]
pub enum WriteNext<S, D> {
    /// Push again, from this offset of the chunk.
    Push(usize),
    /// The write is over, with this result.
    Return(Result<usize, DecodeError<S, D>>),
}

/// Decides how a chunk write continues after a push of `chunk[offset..]`
/// returned `result`, counting the chunk bytes the write processed: a
/// completed frame ends the write with the bytes consumed through its
/// delimiter; an invalid frame is skipped, and ends the write with its error
/// only when it used up the chunk; a chunk used up otherwise ends the write
/// with the whole chunk; other errors end it at once. A successful write
/// processes at least one byte and at most the chunk.
pub fn write_next<S, D>(len: usize, offset: usize, result: Result<DecodeProgress, DecodeError<S, D>>) -> (n: WriteNext<S, D>)
    requires
        offset < len,
        result matches Ok(p) ==> 1 <= p.consumed && offset + p.consumed <= len,
        result matches Err(DecodeError::InvalidFrame(p)) ==> 1 <= p.consumed && offset + p.consumed <= len,
    ensures
        match result {
            Ok(p) => match p.frame_len {
                Some(_) => n == WriteNext::<S, D>::Return(Ok((offset + p.consumed) as usize)),
                None => if offset + p.consumed == len {
                    n == WriteNext::<S, D>::Return(Ok(len))
                } else {
                    n == WriteNext::<S, D>::Push((offset + p.consumed) as usize)
                },
            },
            Err(DecodeError::InvalidFrame(p)) => if offset + p.consumed == len {
                n == WriteNext::<S, D>::Return(Err(DecodeError::InvalidFrame(p)))
            } else {
                n == WriteNext::<S, D>::Push((offset + p.consumed) as usize)
            },
            Err(e) => n == WriteNext::<S, D>::Return(Err(e)),
        },
        n matches WriteNext::Return(Ok(k)) ==> 1 <= k <= len,
        n matches WriteNext::Push(next) ==> offset < next < len,
{
    match result {
        Ok(p) => {
            let next = offset + p.consumed as usize;
            if p.frame_len.is_some() {
                WriteNext::Return(Ok(next))
            } else if next == len {
                WriteNext::Return(Ok(len))
            } else {
                WriteNext::Push(next)
            }
        },
        Err(DecodeError::InvalidFrame(p)) => {
            let next = offset + p.consumed as usize;
            if next == len {
                WriteNext::Return(Err(DecodeError::InvalidFrame(p)))
            } else {
                WriteNext::Push(next)
            }
        },
        Err(e) => WriteNext::Return(Err(e)),
    }
}

/// One-shot decoding of a single frame into a slice, fed one encoded byte
/// at a time: the decoder core, the progress so far, and the next free slot
/// of the output.
#[derive(Clone, Copy, Debug)]
pub struct SliceDecoder {
    pub core: DecoderCore,
    pub progress: DecodeProgress,
    pub out_pos: usize,
}

impl SliceDecoder {
    /// Nothing decoded yet.
    pub open spec fn initial() -> SliceDecoder {
        SliceDecoder { core: DecoderCore::initial(), progress: DecodeProgress::zero(), out_pos: 0 }
    }

    /// Every decoded byte sits in the output and has been counted.
    pub open spec fn wf(self) -> bool {
        &&& self.core.wf()
        &&& !self.core.poisoned
        &&& self.core.written == self.progress.written
        &&& self.progress.written == self.out_pos
    }

    /// The decoder and output after one encoded byte, and its result:
    /// `Ok(None)` to go on, `Ok(Some(len))` when a delimiter completed the
    /// frame, or the error that ends decoding.
    pub open spec fn spec_feed<S>(self, byte: u8, out: Seq<u8>) -> (SliceDecoder, Seq<u8>, Result<
        Option<u64>,
        DecodeError<S, SeekableError>,
    >) {
        let (c, a) = self.core.spec_accept(byte);
        let p = DecodeProgress { consumed: (self.progress.consumed + 1) as u64, ..self.progress };
        let d = SliceDecoder { core: c, progress: p, ..self };
        match a {
            DecodeAction::Skip => (d, out, Ok(None)),
            DecodeAction::Write(v) => if self.out_pos < out.len() {
                (
                    SliceDecoder {
                        core: c.acknowledged(),
                        progress: DecodeProgress { written: (p.written + 1) as u64, ..p },
                        out_pos: (self.out_pos + 1) as usize,
                    },
                    out.update(self.out_pos as int, v),
                    Ok(None),
                )
            } else {
                (d, out, Err(DecodeError::Destination(SeekableError::OutOfBounds)))
            },
            DecodeAction::FrameComplete(n) => (d, out, Ok(Some(n))),
            DecodeAction::InvalidFrame => (d, out, Err(DecodeError::InvalidFrame(p))),
        }
    }

    /// Feeds `bytes` in order until one of them ends decoding: the decoder,
    /// the output and the last result (`Ok(None)` when all were fed).
    pub open spec fn spec_run<S>(self, bytes: Seq<u8>, out: Seq<u8>) -> (SliceDecoder, Seq<u8>, Result<
        Option<u64>,
        DecodeError<S, SeekableError>,
    >)
        decreases bytes.len(),
    {
        if bytes.len() == 0 {
            (self, out, Ok(None))
        } else {
            let (d, o, r) = self.spec_feed::<S>(bytes[0], out);
            if r == Ok::<Option<u64>, DecodeError<S, SeekableError>>(None) {
                d.spec_run::<S>(bytes.drop_first(), o)
            } else {
                (d, o, r)
            }
        }
    }

    /// The result when the source ends: a structurally complete frame that
    /// has started is accepted with its decoded length.
    pub open spec fn spec_finish<S>(self) -> Result<u64, DecodeError<S, SeekableError>> {
        match self.core.completion() {
            Err(CompletionError::IncompleteFrame(_)) => Err(DecodeError::UnexpectedSourceEof),
            Err(CompletionError::InvalidState) => Err(DecodeError::Poisoned),
            Err(CompletionError::NoFrame) => Err(DecodeError::EmptyFrame),
            Ok(()) => if !self.core.frame_started {
                Err(DecodeError::EmptyFrame)
            } else {
                Ok(self.core.written)
            },
        }
    }

    /// Starts decoding a frame.
    pub fn new() -> (d: Self)
        ensures
            d == SliceDecoder::initial(),
    {
        SliceDecoder { core: DecoderCore::new(), progress: DecodeProgress::default(), out_pos: 0 }
    }

    /// Feeds one encoded byte; a decoded byte goes to the next free slot of
    /// `dest`, and fails with an out-of-bounds destination error when `dest`
    /// is full.
    pub fn feed<S>(&mut self, byte: u8, dest: &mut [u8]) -> (r: Result<Option<u64>, DecodeError<S, SeekableError>>)
        requires
            old(self).wf(),
            old(self).progress.consumed < u64::MAX,
            old(self).out_pos <= old(dest)@.len(),
        ensures
            (*final(self), final(dest)@, r) == old(self).spec_feed::<S>(byte, old(dest)@),
            r == Ok::<Option<u64>, DecodeError<S, SeekableError>>(None) ==> final(self).wf(),
            r == Ok::<Option<u64>, DecodeError<S, SeekableError>>(None) ==> final(self).out_pos <= final(dest)@.len(),
    {
        self.progress.consumed = self.progress.consumed + 1;
        match self.core.accept_byte(byte) {
            DecodeAction::Skip => Ok(None),
            DecodeAction::Write(value) => {
                if self.out_pos >= dest.len() {
                    return Err(DecodeError::Destination(SeekableError::OutOfBounds));
                }
                dest[self.out_pos] = value;
                self.out_pos = self.out_pos + 1;
                self.core.acknowledge_write();
                self.progress.written = self.progress.written + 1;
                Ok(None)
            },
            DecodeAction::FrameComplete(len) => Ok(Some(len)),
            DecodeAction::InvalidFrame => Err(DecodeError::InvalidFrame(self.progress)),
        }
    }

    /// Ends decoding at the end of the source.
    pub fn finish<S>(&mut self) -> (r: Result<u64, DecodeError<S, SeekableError>>)
        ensures
            r == old(self).spec_finish::<S>(),
    {
        match self.core.finish_frame() {
            Ok(len) => Ok(len),
            Err(CompletionError::IncompleteFrame(_)) => Err(DecodeError::UnexpectedSourceEof),
            Err(CompletionError::InvalidState) => Err(DecodeError::Poisoned),
            Err(CompletionError::NoFrame) => Err(DecodeError::EmptyFrame),
        }
    }
}

impl DecoderState {
    proof fn lemma_run_append(self, a: Seq<u8>, b: Seq<u8>)
        ensures
            self.run(a + b) == (self.run(a).0.run(b).0, self.run(a).1 + self.run(a).0.run(b).1),
        decreases a.len(),
    {
        if a.len() == 0 {
            assert(a + b =~= b);
            assert(self.run(a).1 + self.run(b).1 =~= self.run(b).1);
        } else {
            let (s1, r) = self.spec_push(a[0]);
            assert((a + b)[0] == a[0]);
            assert((a + b).drop_first() =~= a.drop_first() + b);
            s1.lemma_run_append(a.drop_first(), b);
            assert(self.run(a + b).1 =~= self.run(a).1 + self.run(a).0.run(b).1);
        }
    }

    proof fn lemma_run_data(self, d: Seq<u8>)
        requires
            !self.next_byte_is_sentinel_or_sentinel_index,
            self.next_sentinel_idx == d.len() + 1,
            d.len() >= 1,
            zero_free(d),
        ensures
            self.run(d) == (
            DecoderState {
                next_sentinel_idx: 1,
                next_byte_is_sentinel_or_sentinel_index: true,
                current_block_is_full: self.current_block_is_full,
            },
            d,
            ),
        decreases d.len(),
    {
        let (s1, r) = self.spec_push(d[0]);
        assert(d[0] != 0);
        if d.len() == 1 {
            assert(d.drop_first() =~= Seq::<u8>::empty());
            assert(s1.run(d.drop_first()) == (s1, Seq::<u8>::empty()));
            assert(push_output(r, d[0]) + Seq::<u8>::empty() =~= d);
        } else {
            let rest = d.drop_first();
            assert(zero_free(rest));
            s1.lemma_run_data(rest);
            assert(push_output(r, d[0]) + rest =~= d);
        }
    }

    proof fn lemma_run_block(self, c: u8, d: Seq<u8>)
        requires
            self.at_boundary(),
            c == d.len() + 1,
            zero_free(d),
        ensures
            self.run(seq![c] + d) == (
            DecoderState {
                next_sentinel_idx: 1,
                next_byte_is_sentinel_or_sentinel_index: true,
                current_block_is_full: c == 255,
            },
            self.pending_zero() + d,
            ),
    {
        self.lemma_run_append(seq![c], d);
        let (s1, r) = self.spec_push(c);
        assert(seq![c].drop_first() =~= Seq::<u8>::empty());
        assert(seq![c][0] == c);
        assert(s1.run(Seq::<u8>::empty()) == (s1, Seq::<u8>::empty()));
        assert(self.run(seq![c]) == (s1, push_output(r, c) + Seq::<u8>::empty()));
        assert(push_output(r, c) =~= self.pending_zero());
        if c == 1 {
            assert(d =~= Seq::<u8>::empty());
            assert(self.pending_zero() + Seq::<u8>::empty() =~= self.pending_zero() + d);
        } else {
            s1.lemma_run_data(d);
        }
    }

    /// From a block boundary, the byte-level decoder turns an encoding back
    /// into its payload, preceded by the zero a previous short block implies.
    pub proof fn lemma_run_encode(self, s: Seq<u8>)
        requires
            self.at_boundary(),
        ensures
            self.run(cobs_encode(s)).1 == self.pending_zero() + s,
            self.run(cobs_encode(s)).0.at_boundary(),
            self.run(cobs_encode(s)).0.next_sentinel_idx == 1,
        decreases s.len(),
    {
        crate::format::lemma_block_len(s);
        let k = crate::format::block_len(s);
        if k >= 254 {
            if s.len() <= 254 {
                self.lemma_run_block(255u8, s);
            } else {
                let a = seq![255u8] + s.take(254);
                let r = s.skip(254);
                assert(zero_free(s.take(254)));
                self.lemma_run_block(255u8, s.take(254));
                self.lemma_run_append(a, cobs_encode(r));
                let s1 = self.run(a).0;
                s1.lemma_run_encode(r);
                assert(s1.pending_zero() =~= Seq::<u8>::empty());
                assert(self.pending_zero() + s.take(254) + (s1.pending_zero() + r) =~= self.pending_zero() + s);
            }
        } else if k >= s.len() {
            self.lemma_run_block((k + 1) as u8, s);
        } else {
            let a = seq![(k + 1) as u8] + s.take(k as int);
            let r = s.skip(k + 1int);
            assert(zero_free(s.take(k as int)));
            self.lemma_run_block((k + 1) as u8, s.take(k as int));
            self.lemma_run_append(a, cobs_encode(r));
            let s1 = self.run(a).0;
            s1.lemma_run_encode(r);
            assert(s1.pending_zero() =~= seq![0u8]);
            assert(self.pending_zero() + s.take(k as int) + (s1.pending_zero() + r) =~= self.pending_zero() + s);
        }
    }

    proof fn lemma_run_len(self, bytes: Seq<u8>)
        ensures
            self.run(bytes).1.len() <= bytes.len(),
        decreases bytes.len(),
    {
        if bytes.len() > 0 {
            let (s1, r) = self.spec_push(bytes[0]);
            s1.lemma_run_len(bytes.drop_first());
        }
    }
}

impl DecoderState {
    /// Inside a block, data bytes that leave at least one expected byte
    /// missing are decoded as themselves and keep the block open.
    proof fn lemma_run_partial(self, d: Seq<u8>)
        requires
            !self.next_byte_is_sentinel_or_sentinel_index,
            zero_free(d),
            self.next_sentinel_idx >= d.len() + 2,
        ensures
            self.run(d) == (
            DecoderState {
                next_sentinel_idx: (self.next_sentinel_idx - d.len()) as u8,
                next_byte_is_sentinel_or_sentinel_index: false,
                current_block_is_full: self.current_block_is_full,
            },
            d,
            ),
        decreases d.len(),
    {
        if d.len() == 0 {
            assert(self.run(d).1 =~= d);
        } else {
            let (s1, r) = self.spec_push(d[0]);
            assert(d[0] != 0);
            let rest = d.drop_first();
            assert(zero_free(rest));
            s1.lemma_run_partial(rest);
            assert(push_output(r, d[0]) + rest =~= d);
        }
    }

    /// From a block boundary, a prefix of an encoding that ends strictly
    /// inside a block leaves the decoder inside that block, still expecting
    /// data, having decoded a prefix of the payload (after the zero a
    /// previous short block implies).
    proof fn lemma_run_inside(self, s: Seq<u8>, k: int)
        requires
            self.at_boundary(),
            inside_block(s, k),
        ensures
            0 < k < cobs_encode(s).len(),
            ({
                let (st, out) = self.run(cobs_encode(s).take(k));
                &&& !st.next_byte_is_sentinel_or_sentinel_index
                &&& st.next_sentinel_idx >= 2
                &&& out.len() <= self.pending_zero().len() + s.len()
                &&& out == (self.pending_zero() + s).take(out.len() as int)
            }),
        decreases s.len(),
    {
        crate::format::lemma_block_len(s);
        let b = block_len(s) as int;
        let e = cobs_encode(s);
        let pz = self.pending_zero();
        let code: u8 = if b >= 254 { 255 } else { (b + 1) as u8 };
        assert(e[0] == code);
        if 1 <= k <= b {
            let d = s.take(k - 1);
            assert(e.take(k) =~= seq![code] + d) by {
                assert forall|i: int| 1 <= i < k implies e[i] == s[i - 1] by {
                    if b >= 254 {
                        if s.len() <= 254 {
                        } else {
                            assert(e == seq![255u8] + s.take(254) + cobs_encode(s.skip(254)));
                        }
                    } else if b >= s.len() {
                    } else {
                        assert(e == seq![code] + s.take(b) + cobs_encode(s.skip(b + 1int)));
                    }
                }
            }
            self.lemma_run_append(seq![code], d);
            let (s1, r) = self.spec_push(code);
            assert(seq![code].drop_first() =~= Seq::<u8>::empty());
            assert(seq![code][0] == code);
            assert(s1.run(Seq::<u8>::empty()) == (s1, Seq::<u8>::empty()));
            assert(zero_free(d));
            s1.lemma_run_partial(d);
            assert(push_output(r, code) =~= pz);
            assert(pz + d =~= (pz + s).take(pz.len() + k - 1int));
        } else if b >= 254 {
            let rest = s.skip(254);
            let a = seq![255u8] + s.take(254);
            assert(e == a + cobs_encode(rest));
            self.lemma_run_block(255u8, s.take(254));
            let s1 = self.run(a).0;
            s1.lemma_run_inside(rest, k - 255);
            assert(e.take(k) =~= a + cobs_encode(rest).take(k - 255));
            self.lemma_run_append(a, cobs_encode(rest).take(k - 255));
            let out1 = s1.run(cobs_encode(rest).take(k - 255)).1;
            assert(s1.pending_zero() =~= Seq::<u8>::empty());
            assert(Seq::<u8>::empty() + rest =~= rest);
            assert(pz + s.take(254) + out1 =~= (pz + s).take(pz.len() + 254int + out1.len())) by {
                assert(s =~= s.take(254) + rest);
            }
        } else {
            let rest = s.skip(b + 1int);
            let a = seq![code] + s.take(b);
            assert(e == a + cobs_encode(rest));
            self.lemma_run_block(code, s.take(b));
            let s1 = self.run(a).0;
            s1.lemma_run_inside(rest, k - b - 1);
            assert(e.take(k) =~= a + cobs_encode(rest).take(k - b - 1));
            self.lemma_run_append(a, cobs_encode(rest).take(k - b - 1));
            let out1 = s1.run(cobs_encode(rest).take(k - b - 1)).1;
            assert(s1.pending_zero() =~= seq![0u8]);
            assert(s[b] == 0);
            assert(pz + s.take(b) + out1 =~= (pz + s).take(pz.len() + b + out1.len() as int)) by {
                assert(s =~= s.take(b) + seq![0u8] + rest);
            }
        }
    }
}

impl DecoderCore {
    /// Within a frame, the decoder core follows the byte-level decoder and
    /// counts each decoded byte.
    proof fn lemma_run_zero_free(self, bytes: Seq<u8>)
        requires
            zero_free(bytes),
            self.written + self.state.run(bytes).1.len() <= u64::MAX,
        ensures
            self.run(bytes) == (
            DecoderCore {
                state: self.state.run(bytes).0,
                written: (self.written + self.state.run(bytes).1.len()) as u64,
                frame_started: self.frame_started || bytes.len() > 0,
                poisoned: self.poisoned,
            },
            self.state.run(bytes).1,
            ),
        decreases bytes.len(),
    {
        if bytes.len() > 0 {
            let b = bytes[0];
            let (st1, r) = self.state.spec_push(b);
            let (c1, a) = self.spec_accept(b);
            assert(b != 0);
            let c2 = if a is Write {
                c1.acknowledged()
            } else {
                c1
            };
            let rest = bytes.drop_first();
            assert(zero_free(rest));
            assert(action_output(a) == push_output(r, b));
            c2.lemma_run_zero_free(rest);
        }
    }

    /// Decoding in chunks is decoding their concatenation: the decoder after
    /// `a + b` is the decoder after `a` then `b`, and the decoded bytes are
    /// those of `a` followed by those of `b`.
    pub proof fn lemma_run_append(self, a: Seq<u8>, b: Seq<u8>)
        ensures
            self.run(a + b) == (self.run(a).0.run(b).0, self.run(a).1 + self.run(a).0.run(b).1),
        decreases a.len(),
    {
        if a.len() == 0 {
            assert(a + b =~= b);
            assert(self.run(a).1 + self.run(b).1 =~= self.run(b).1);
        } else {
            let (c1, act) = self.spec_accept(a[0]);
            let c2 = if act is Write {
                c1.acknowledged()
            } else {
                c1
            };
            assert((a + b)[0] == a[0]);
            assert((a + b).drop_first() =~= a.drop_first() + b);
            c2.lemma_run_append(a.drop_first(), b);
            assert(self.run(a + b).1 =~= self.run(a).1 + self.run(a).0.run(b).1);
        }
    }

    /// Padding: zeros that arrive while no frame is active are skipped
    /// without changing the decoder.
    pub proof fn lemma_idle_zero_is_padding(self)
        requires
            !self.frame_started,
        ensures
            self.spec_accept(0) == (self, DecodeAction::Skip),
    {
    }

    /// Decoding the encoding of a payload gives back the payload. After the
    /// encoding the frame is active and structurally complete, with the
    /// payload's length acknowledged; a following delimiter completes it with
    /// that length and leaves an idle decoder.
    pub proof fn lemma_decode_encode(x: Seq<u8>)
        requires
            x.len() <= u64::MAX,
        ensures
            ({
                let (c, out) = DecoderCore::initial().run(cobs_encode(x));
                &&& out == x
                &&& c.frame_started
                &&& c.completion() == Ok::<(), CompletionError>(())
                &&& c.written == x.len()
                &&& c.spec_accept(0) == (
                DecoderCore::initial(),
                DecodeAction::FrameComplete(x.len() as u64),
                )
            }),
    {
        let c0 = DecoderCore::initial();
        let e = cobs_encode(x);
        crate::format::lemma_encode_zero_free(x);
        c0.state.lemma_run_encode(x);
        assert(c0.state.pending_zero() =~= Seq::<u8>::empty());
        assert(c0.state.run(e).1 =~= x);
        c0.lemma_run_zero_free(e);
    }
}


impl SliceDecoder {
    /// Within a frame, feeding zero-free bytes with room for what they
    /// decode to follows the decoder core and writes the decoded bytes in
    /// order at the free slot.
    proof fn lemma_run_zero_free<S>(self, bytes: Seq<u8>, out: Seq<u8>)
        requires
            self.wf(),
            zero_free(bytes),
            self.out_pos + self.core.state.run(bytes).1.len() <= out.len(),
            out.len() <= usize::MAX,
            self.progress.consumed + bytes.len() <= u64::MAX,
        ensures
            ({
                let dec = self.core.state.run(bytes).1;
                let (d, o, r) = self.spec_run::<S>(bytes, out);
                &&& r == Ok::<Option<u64>, DecodeError<S, SeekableError>>(None)
                &&& d.wf()
                &&& d.core == self.core.run(bytes).0
                &&& d.out_pos == self.out_pos + dec.len()
                &&& d.progress.consumed == self.progress.consumed + bytes.len()
                &&& o == out.take(self.out_pos as int) + dec + out.skip(self.out_pos + dec.len())
            }),
        decreases bytes.len(),
    {
        if bytes.len() == 0 {
            assert(out.take(self.out_pos as int) + Seq::<u8>::empty() + out.skip(self.out_pos as int) =~= out);
        } else {
            let b = bytes[0];
            let rest = bytes.drop_first();
            assert(b != 0);
            assert(zero_free(rest));
            let (st1, pr) = self.core.state.spec_push(b);
            let (c1, a) = self.core.spec_accept(b);
            let (d, o, r) = self.spec_feed::<S>(b, out);
            assert(action_output(a) == push_output(pr, b));
            let c2 = if a is Write {
                c1.acknowledged()
            } else {
                c1
            };
            assert(d.core == c2);
            let dec_rest = st1.run(rest).1;
            self.core.state.lemma_run_len(bytes);
            d.lemma_run_zero_free::<S>(rest, o);
            let (d3, o3, r3) = d.spec_run::<S>(rest, o);
            if a is Write {
                let v = a->Write_0;
                assert(o3 =~= out.take(self.out_pos as int) + (seq![v] + dec_rest) + out.skip(
                    self.out_pos + 1 + dec_rest.len(),
                ));
            } else {
                assert(action_output(a) =~= Seq::<u8>::empty());
                assert(push_output(pr, b) + dec_rest =~= dec_rest);
            }
        }
    }

    /// From an idle decoder with nothing written, the encoding of `x` (and a
    /// delimiter) decodes to `x`.
    proof fn lemma_decode_encode_from<S>(self, x: Seq<u8>, out: Seq<u8>)
        requires
            self.core == DecoderCore::initial(),
            self.progress.written == 0,
            self.out_pos == 0,
            x.len() <= out.len() <= usize::MAX,
            self.progress.consumed + cobs_encode(x).len() + 1 <= u64::MAX,
        ensures
            ({
                let e = cobs_encode(x);
                let (d, o, r) = self.spec_run::<S>(e.push(0), out);
                &&& r == Ok::<Option<u64>, DecodeError<S, SeekableError>>(Some(x.len() as u64))
                &&& d.progress.consumed == self.progress.consumed + e.len() + 1
                &&& o == x + out.skip(x.len() as int)
            }),
            ({
                let (d, o, r) = self.spec_run::<S>(cobs_encode(x), out);
                &&& r == Ok::<Option<u64>, DecodeError<S, SeekableError>>(None)
                &&& o == x + out.skip(x.len() as int)
                &&& d.spec_finish::<S>() == Ok::<u64, DecodeError<S, SeekableError>>(x.len() as u64)
            }),
    {
        let e = cobs_encode(x);
        crate::format::lemma_encode_zero_free(x);
        DecoderCore::lemma_decode_encode(x);
        self.core.state.lemma_run_encode(x);
        assert(self.core.state.pending_zero() =~= Seq::<u8>::empty());
        assert(self.core.state.run(e).1 =~= x);
        self.lemma_run_zero_free::<S>(e, out);
        let (d1, o1, r1) = self.spec_run::<S>(e, out);
        assert(o1 =~= x + out.skip(x.len() as int));
        // Feeding the delimiter after the encoding.
        let z = e.push(0);
        assert(z.drop_first() =~= e.drop_first().push(0));
        self.lemma_run_append_last::<S>(e, 0, out);
    }

    /// One-shot decoding gives back the payload: fed the encoding of `x`
    /// and a delimiter, into an output with room for `x`, the decoder
    /// completes the frame with length `|x|` once it has consumed every byte;
    /// the output then starts with `x` and is otherwise unchanged. Fed the
    /// encoding alone, the end of the source accepts the frame with the same
    /// length and output.
    pub proof fn lemma_decode_encode<S>(x: Seq<u8>, out: Seq<u8>)
        requires
            x.len() <= out.len() <= isize::MAX,
        ensures
            ({
                let e = cobs_encode(x);
                let (d, o, r) = SliceDecoder::initial().spec_run::<S>(e.push(0), out);
                &&& r == Ok::<Option<u64>, DecodeError<S, SeekableError>>(Some(x.len() as u64))
                &&& d.progress.consumed == e.len() + 1
                &&& o == x + out.skip(x.len() as int)
            }),
            ({
                let (d, o, r) = SliceDecoder::initial().spec_run::<S>(cobs_encode(x), out);
                &&& r == Ok::<Option<u64>, DecodeError<S, SeekableError>>(None)
                &&& o == x + out.skip(x.len() as int)
                &&& d.spec_finish::<S>() == Ok::<u64, DecodeError<S, SeekableError>>(x.len() as u64)
            }),
    {
        crate::format::lemma_encode_len(x);
        assert(cobs_encode(x).len() + 1 <= u64::MAX) by {
            vstd::arithmetic::div_mod::lemma_div_is_ordered(x.len() as int + 253, isize::MAX + 253, 254);
        }
        SliceDecoder::initial().lemma_decode_encode_from::<S>(x, out);
    }

    /// Zeros fed while no frame is active are consumed as padding and change
    /// nothing else.
    proof fn lemma_run_padding<S>(self, z: Seq<u8>, b: Seq<u8>, out: Seq<u8>)
        requires
            !self.core.frame_started,
            forall|i: int| 0 <= i < z.len() ==> z[i] == 0,
            self.progress.consumed + z.len() <= u64::MAX,
        ensures
            self.spec_run::<S>(z + b, out) == (SliceDecoder {
                progress: DecodeProgress { consumed: (self.progress.consumed + z.len()) as u64, ..self.progress },
                ..self
            }).spec_run::<S>(b, out),
        decreases z.len(),
    {
        if z.len() == 0 {
            assert(z + b =~= b);
            assert(self == (SliceDecoder {
                progress: DecodeProgress { consumed: (self.progress.consumed + z.len()) as u64, ..self.progress },
                ..self
            }));
        } else {
            assert((z + b)[0] == 0);
            assert((z + b).drop_first() =~= z.drop_first() + b);
            let (d, o, r) = self.spec_feed::<S>(0, out);
            assert(o == out);
            d.lemma_run_padding::<S>(z.drop_first(), b, out);
        }
    }

    /// One-shot decoding skips leading padding and stops at the delimiter:
    /// fed zeros `z`, the encoding of `x`, a delimiter and any further bytes
    /// `rest`, into an output with room for `x`, the decoder completes the
    /// frame with length `|x|` having consumed exactly the padding, the
    /// encoding and the delimiter, so `rest` stays unread; the output starts
    /// with `x` and is otherwise unchanged. Fed the padding and the encoding
    /// alone, the end of the source accepts the frame with the same length and
    /// output.
    pub proof fn lemma_decode_padded<S>(z: Seq<u8>, x: Seq<u8>, rest: Seq<u8>, out: Seq<u8>)
        requires
            forall|i: int| 0 <= i < z.len() ==> z[i] == 0,
            x.len() <= out.len() <= usize::MAX,
            z.len() + cobs_encode(x).len() + 1 <= u64::MAX,
        ensures
            ({
                let e = cobs_encode(x);
                let (d, o, r) = SliceDecoder::initial().spec_run::<S>(z + e + seq![0u8] + rest, out);
                &&& r == Ok::<Option<u64>, DecodeError<S, SeekableError>>(Some(x.len() as u64))
                &&& d.progress.consumed == z.len() + e.len() + 1
                &&& o == x + out.skip(x.len() as int)
            }),
            ({
                let (d, o, r) = SliceDecoder::initial().spec_run::<S>(z + cobs_encode(x), out);
                &&& r == Ok::<Option<u64>, DecodeError<S, SeekableError>>(None)
                &&& o == x + out.skip(x.len() as int)
                &&& d.spec_finish::<S>() == Ok::<u64, DecodeError<S, SeekableError>>(x.len() as u64)
            }),
    {
        let d0 = SliceDecoder::initial();
        let e = cobs_encode(x);
        let d1 = SliceDecoder {
            progress: DecodeProgress { consumed: (d0.progress.consumed + z.len()) as u64, ..d0.progress },
            ..d0
        };
        d1.lemma_decode_encode_from::<S>(x, out);
        assert(e.push(0) =~= e + seq![0u8]);
        d0.lemma_run_padding::<S>(z, e + seq![0u8] + rest, out);
        assert(z + e + seq![0u8] + rest =~= z + (e + seq![0u8] + rest));
        d1.lemma_run_stops::<S>(e + seq![0u8], rest, out);
        d0.lemma_run_padding::<S>(z, e, out);
    }

    /// Feeding `bytes` and then one more byte, when `bytes` alone does not end
    /// decoding, is feeding the last byte to the decoder `bytes` leaves.
    proof fn lemma_run_append_last<S>(self, bytes: Seq<u8>, b: u8, out: Seq<u8>)
        requires
            self.spec_run::<S>(bytes, out).2 == Ok::<Option<u64>, DecodeError<S, SeekableError>>(None),
        ensures
            ({
                let (d, o, _) = self.spec_run::<S>(bytes, out);
                self.spec_run::<S>(bytes.push(b), out) == d.spec_run::<S>(seq![b], o)
            }),
        decreases bytes.len(),
    {
        if bytes.len() == 0 {
            assert(bytes.push(b) =~= seq![b]);
        } else {
            let (d, o, r) = self.spec_feed::<S>(bytes[0], out);
            assert(bytes.push(b)[0] == bytes[0]);
            assert(bytes.push(b).drop_first() =~= bytes.drop_first().push(b));
            d.lemma_run_append_last::<S>(bytes.drop_first(), b, o);
        }
    }
}


impl SliceDecoder {
    /// One-shot decoding writes only at the free slot: whatever it is fed,
    /// the output past the final free slot is unchanged, and a completed
    /// frame's reported length is the number of bytes written, which is also
    /// what the end of the source reports when it accepts the frame.
    pub proof fn lemma_run_tail_unchanged<S>(self, bytes: Seq<u8>, out: Seq<u8>)
        requires
            self.wf(),
            self.out_pos <= out.len() <= usize::MAX,
            self.progress.consumed + bytes.len() <= u64::MAX,
        ensures
            ({
                let (d, o, r) = self.spec_run::<S>(bytes, out);
                &&& o.len() == out.len()
                &&& self.out_pos <= d.out_pos <= out.len()
                &&& o.take(self.out_pos as int) == out.take(self.out_pos as int)
                &&& o.skip(d.out_pos as int) == out.skip(d.out_pos as int)
                &&& (r matches Ok(Some(n)) ==> n == d.out_pos)
                &&& (r == Ok::<Option<u64>, DecodeError<S, SeekableError>>(None) ==> d.wf())
                &&& (r == Ok::<Option<u64>, DecodeError<S, SeekableError>>(None) ==> (d.spec_finish::<S>() matches Ok(n) ==> n == d.out_pos))
            }),
        decreases bytes.len(),
    {
        if bytes.len() > 0 {
            let (d, o, r) = self.spec_feed::<S>(bytes[0], out);
            if r == Ok::<Option<u64>, DecodeError<S, SeekableError>>(None) {
                d.lemma_run_tail_unchanged::<S>(bytes.drop_first(), o);
                let (d2, o2, r2) = d.spec_run::<S>(bytes.drop_first(), o);
                assert(o2.take(self.out_pos as int) =~= out.take(self.out_pos as int)) by {
                    assert(o2.take(d.out_pos as int).take(self.out_pos as int) =~= o2.take(self.out_pos as int));
                    assert(o.take(d.out_pos as int).take(self.out_pos as int) =~= o.take(self.out_pos as int));
                    assert(o.take(self.out_pos as int) =~= out.take(self.out_pos as int));
                }
                assert(o2.skip(d2.out_pos as int) =~= out.skip(d2.out_pos as int)) by {
                    assert(o.skip(d2.out_pos as int) =~= o.skip(d.out_pos as int).skip(d2.out_pos - d.out_pos));
                    assert(out.skip(d2.out_pos as int) =~= out.skip(self.out_pos as int).skip(d2.out_pos - self.out_pos));
                    assert(forall|i: int| d2.out_pos <= i < o.len() ==> o[i] == out[i]);
                }
            } else {
                assert(o =~= out);
            }
        } else {
        }
    }
}


impl SliceDecoder {
    /// Within a frame, zero-free bytes that decode to more than the output
    /// has room for end decoding with an out-of-bounds destination error.
    proof fn lemma_run_no_room<S>(self, bytes: Seq<u8>, out: Seq<u8>)
        requires
            self.wf(),
            zero_free(bytes),
            self.out_pos <= out.len() <= usize::MAX,
            self.out_pos + self.core.state.run(bytes).1.len() > out.len(),
            self.progress.consumed + bytes.len() <= u64::MAX,
        ensures
            self.spec_run::<S>(bytes, out).2 == Err::<Option<u64>, DecodeError<S, SeekableError>>(
                DecodeError::Destination(SeekableError::OutOfBounds),
            ),
        decreases bytes.len(),
    {
        let b = bytes[0];
        let rest = bytes.drop_first();
        assert(b != 0);
        assert(zero_free(rest));
        let (st1, pr) = self.core.state.spec_push(b);
        let (c1, a) = self.core.spec_accept(b);
        assert(action_output(a) == push_output(pr, b));
        let (d, o, r) = self.spec_feed::<S>(b, out);
        if r == Ok::<Option<u64>, DecodeError<S, SeekableError>>(None) {
            d.lemma_run_no_room::<S>(rest, o);
        }
    }

    /// Once a run of bytes ends decoding, further bytes change nothing.
    proof fn lemma_run_stops<S>(self, a: Seq<u8>, b: Seq<u8>, out: Seq<u8>)
        requires
            self.spec_run::<S>(a, out).2 != Ok::<Option<u64>, DecodeError<S, SeekableError>>(None),
        ensures
            self.spec_run::<S>(a + b, out) == self.spec_run::<S>(a, out),
        decreases a.len(),
    {
        assert((a + b)[0] == a[0]);
        let (d, o, r) = self.spec_feed::<S>(a[0], out);
        if r == Ok::<Option<u64>, DecodeError<S, SeekableError>>(None) {
            assert((a + b).drop_first() =~= a.drop_first() + b);
            d.lemma_run_stops::<S>(a.drop_first(), b, o);
        }
    }

    /// One-shot decoding of the delimited encoding of `x` into an output
    /// with room for fewer than `|x|` bytes fails with an out-of-bounds
    /// destination error.
    pub proof fn lemma_decode_encode_no_room<S>(x: Seq<u8>, out: Seq<u8>)
        requires
            out.len() < x.len() <= isize::MAX,
        ensures
            SliceDecoder::initial().spec_run::<S>(cobs_encode(x).push(0), out).2 == Err::<
                Option<u64>,
                DecodeError<S, SeekableError>,
            >(DecodeError::Destination(SeekableError::OutOfBounds)),
    {
        let d0 = SliceDecoder::initial();
        let e = cobs_encode(x);
        crate::format::lemma_encode_zero_free(x);
        crate::format::lemma_encode_len(x);
        assert(e.len() + 1 <= u64::MAX) by {
            vstd::arithmetic::div_mod::lemma_div_is_ordered(x.len() as int + 253, isize::MAX + 253, 254);
        }
        d0.core.state.lemma_run_encode(x);
        assert(d0.core.state.pending_zero() =~= Seq::<u8>::empty());
        assert(d0.core.state.run(e).1 =~= x);
        d0.lemma_run_no_room::<S>(e, out);
        assert(e.push(0) =~= e + seq![0u8]);
        d0.lemma_run_stops::<S>(e, seq![0u8], out);
    }
}


impl DecoderCore {
    /// A frame cut off inside a block is never accepted. An idle decoder fed
    /// the first `k` bytes of the encoding of `x`, ending strictly inside a
    /// block, has decoded a prefix of `x` and counts it as written; checking
    /// completion reports the frame incomplete with that count (so
    /// `finish_frame` fails with it too, changing nothing), and a delimiter
    /// then invalidates the frame and leaves the decoder idle.
    pub proof fn lemma_truncated_frame(x: Seq<u8>, k: int)
        requires
            inside_block(x, k),
            x.len() <= u64::MAX,
        ensures
            ({
                let (c, out) = DecoderCore::initial().run(cobs_encode(x).take(k));
                &&& out.len() <= x.len()
                &&& out == x.take(out.len() as int)
                &&& c.frame_started
                &&& c.written == out.len()
                &&& c.completion() == Err::<(), CompletionError>(
                    CompletionError::IncompleteFrame(out.len() as u64),
                )
                &&& c.spec_accept(0) == (DecoderCore::initial(), DecodeAction::InvalidFrame)
            }),
    {
        let c0 = DecoderCore::initial();
        let e = cobs_encode(x);
        c0.state.lemma_run_inside(x, k);
        assert(c0.state.pending_zero() =~= Seq::<u8>::empty());
        assert(Seq::<u8>::empty() + x =~= x);
        let p = e.take(k);
        crate::format::lemma_encode_zero_free(x);
        assert(zero_free(p));
        c0.lemma_run_zero_free(p);
    }
}

impl SliceDecoder {
    /// One-shot decoding never accepts a frame cut off inside a block: fed
    /// the first `k` bytes of the encoding of `x`, ending strictly inside a
    /// block, into an output with room for `x`, the decoder takes every byte
    /// without a result; the end of the source then gives
    /// `UnexpectedSourceEof`, and a delimiter instead invalidates the frame,
    /// with all `k + 1` bytes consumed.
    pub proof fn lemma_decode_truncated<S>(x: Seq<u8>, k: int, out: Seq<u8>)
        requires
            inside_block(x, k),
            x.len() <= out.len() <= usize::MAX,
            k < u64::MAX,
        ensures
            ({
                let (d, o, r) = SliceDecoder::initial().spec_run::<S>(cobs_encode(x).take(k), out);
                &&& r == Ok::<Option<u64>, DecodeError<S, SeekableError>>(None)
                &&& d.spec_finish::<S>() == Err::<u64, DecodeError<S, SeekableError>>(
                    DecodeError::UnexpectedSourceEof,
                )
            }),
            ({
                let (d, o, r) = SliceDecoder::initial().spec_run::<S>(cobs_encode(x).take(k).push(0), out);
                &&& r matches Err(DecodeError::InvalidFrame(p))
                &&& d.progress.consumed == k + 1
            }),
    {
        let d0 = SliceDecoder::initial();
        let e = cobs_encode(x);
        let p = e.take(k);
        DecoderCore::lemma_truncated_frame(x, k);
        d0.core.state.lemma_run_inside(x, k);
        assert(d0.core.state.pending_zero() =~= Seq::<u8>::empty());
        assert(Seq::<u8>::empty() + x =~= x);
        crate::format::lemma_encode_zero_free(x);
        assert(zero_free(p));
        d0.core.lemma_run_zero_free(p);
        d0.lemma_run_zero_free::<S>(p, out);
        d0.lemma_run_append_last::<S>(p, 0, out);
        let (d1, o1, r1) = d0.spec_run::<S>(p, out);
        assert(seq![0u8].drop_first() =~= Seq::<u8>::empty());
        assert(seq![0u8][0] == 0);
    }
}

} // verus!
