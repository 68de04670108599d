//! Encoding: one-shot encoding of a slice, and the decisions of the
//! incremental encoder, which writes code-byte placeholders and patches them
//! once a block is complete.
use vstd::prelude::*;

use crate::error::EncodeError;
use crate::format::{block_len, cobs_encode, encoding_parts, is_block_len, EncodingParts};
use crate::seekable::{InputSeekable, SeekFrom};

verus! {

/// What follows a block in the source.
#[derive(Clone, Copy, Debug, PartialEq, Eq)]
pub enum Following {
    /// The input ended immediately after this block.
    Eof,
    /// A zero follows this block.
    Sentinel,
    /// This was a full 254-byte block and at least one more input byte exists.
    MoreInput,
}

/// A block found by scanning the source: its number of payload bytes and
/// what follows it.
#[derive(Clone, Copy, Debug)]
pub struct Block {
    pub payload_len: u64,
    pub following: Following,
}

/// The code byte of a block with `payload_len` nonzero bytes.
pub open spec fn block_code(payload_len: int) -> u8 {
    if payload_len == 254 {
        0xFF
    } else {
        (payload_len + 1) as u8
    }
}

impl Block {
    /// The block's code byte: one more than its payload length, `0xFF` for a
    /// full block.
    pub fn code(&self) -> (c: u8)
        requires
            self.payload_len <= 254,
        ensures
            c == block_code(self.payload_len as int),
            c == self.payload_len + 1,
    {
        if self.payload_len == 254 {
            0xFF
        } else {
            self.payload_len as u8 + 1
        }
    }
}

/// `b` describes the first block of `t`.
pub open spec fn describes_block(b: Block, t: Seq<u8>) -> bool {
    &&& b.payload_len == block_len(t)
    &&& b.following == (if block_len(t) == t.len() {
        Following::Eof
    } else if block_len(t) < 254 {
        Following::Sentinel
    } else {
        Following::MoreInput
    })
}

/// Scans the first block of the unread source, then moves the source back
/// to where the scan started.
pub fn scan_block(source: &mut InputSeekable) -> (b: Block)
    requires
        old(source).wf(),
    ensures
        final(source).wf(),
        final(source).contents() == old(source).contents(),
        final(source).position() == old(source).position(),
        describes_block(b, old(source).contents().skip(old(source).position())),
{
    let ghost t = source.contents().skip(source.position());
    proof {
        source.lemma_position();
        crate::format::lemma_block_len(t);
    }
    let start = source.pos();
    let mut payload_len: u64 = 0;
    let following;
    loop
        invariant_except_break
            source.wf(),
            source.contents() == old(source).contents(),
            start == old(source).position(),
            source.position() == start + payload_len,
            payload_len < 254,
            payload_len <= t.len(),
            forall|j: int| 0 <= j < payload_len ==> t[j] != 0,
            t == source.contents().skip(start as int),
            start <= source.contents().len(),
        ensures
            source.wf(),
            start <= source.contents().len(),
            source.contents() == old(source).contents(),
            describes_block(Block { payload_len, following }, t),
        decreases t.len() - payload_len,
    {
        proof {
            source.lemma_position();
            crate::format::lemma_block_len(t);
        }
        match source.read_byte() {
            None => {
                proof {
                    assert(is_block_len(t, payload_len as nat));
                }
                following = Following::Eof;
                break;
            },
            Some(byte) => {
                if byte == 0 {
                    proof {
                        assert(t[payload_len as int] == 0);
                        assert(is_block_len(t, payload_len as nat));
                    }
                    following = Following::Sentinel;
                    break;
                }
                payload_len += 1;
                if payload_len == 254 {
                    proof {
                        assert(is_block_len(t, 254));
                    }
                    following = match source.read_byte() {
                        None => Following::Eof,
                        Some(_) => Following::MoreInput,
                    };
                    break;
                }
            },
        }
    }
    let _ = source.seek(SeekFrom::Start(start as u64));
    Block { payload_len, following }
}

/// One block of a one-shot encoding: its code byte, followed by the source
/// bytes `start..start + len`.
#[derive(Clone, Copy, Debug, PartialEq, Eq)]
pub struct EncodedBlock {
    pub code: u8,
    pub start: usize,
    pub len: usize,
}

/// Encodes a complete slice block by block, sequentially: each step yields
/// the next code byte and the payload bytes that follow it. The bytes
/// yielded over all steps form the COBS encoding of the slice.
pub struct SliceEncoder<'a> {
    source: InputSeekable<'a>,
    finished: bool,
    encoded_len: u64,
    emitted: Ghost<Seq<u8>>,
}

impl<'a> SliceEncoder<'a> {
    /// The slice being encoded.
    pub closed spec fn payload(&self) -> Seq<u8> {
        self.source.contents()
    }

    /// The encoded bytes yielded so far.
    pub closed spec fn emitted(&self) -> Seq<u8> {
        self.emitted@
    }

    /// All blocks have been yielded.
    pub closed spec fn is_finished(&self) -> bool {
        self.finished
    }

    pub closed spec fn wf(&self) -> bool {
        &&& self.source.wf()
        &&& self.encoded_len == self.emitted@.len()
        &&& self.source.contents().len() <= isize::MAX
        &&& if self.finished {
            self.emitted@ == cobs_encode(self.source.contents())
        } else {
            self.emitted@ + cobs_encode(self.source.contents().skip(self.source.position()))
                == cobs_encode(self.source.contents())
        }
    }

    /// Starts encoding `source`. Slices hold at most `isize::MAX` bytes.
    pub fn new(source: &'a [u8]) -> (e: Self)
        requires
            source@.len() <= isize::MAX,
        ensures
            e.wf(),
            e.payload() == source@,
            e.emitted() == Seq::<u8>::empty(),
            !e.is_finished(),
    {
        let e = SliceEncoder {
            source: InputSeekable::new(source),
            finished: false,
            encoded_len: 0,
            emitted: Ghost(Seq::empty()),
        };
        proof {
            assert(source@.skip(0) =~= source@);
            assert(Seq::<u8>::empty() + cobs_encode(source@) =~= cobs_encode(source@));
        }
        e
    }

    /// The number of encoded bytes yielded so far.
    pub fn encoded_len(&self) -> (n: u64)
        requires
            self.wf(),
        ensures
            n == self.emitted().len(),
    {
        self.encoded_len
    }

    /// Yields the next block, or `None` once the encoding is complete.
    pub fn next_block(&mut self) -> (r: Option<EncodedBlock>)
        requires
            old(self).wf(),
        ensures
            final(self).wf(),
            final(self).payload() == old(self).payload(),
            match r {
                None => old(self).is_finished() && *final(self) == *old(self),
                Some(b) => {
                    &&& !old(self).is_finished()
                    &&& b.start + b.len <= old(self).payload().len()
                    &&& b.code == b.len + 1
                    &&& final(self).emitted() == old(self).emitted() + seq![b.code]
                        + old(self).payload().subrange(b.start as int, b.start + b.len)
                },
            },
            final(self).emitted() == cobs_encode(final(self).payload()).take(final(self).emitted().len() as int),
            final(self).is_finished() ==> final(self).emitted() == cobs_encode(final(self).payload()),
    {
        if self.finished {
            return None;
        }
        let ghost s = self.source.contents();
        let ghost t = s.skip(self.source.position());
        proof {
            self.source.lemma_position();
        }
        let block = scan_block(&mut self.source);
        proof {
            crate::format::lemma_block_len(t);
        }
        let code = block.code();
        let start = self.source.pos();
        let len = block.payload_len as usize;
        proof {
            crate::format::lemma_block_len(t);
            crate::format::lemma_encode_len(s);
            vstd::arithmetic::div_mod::lemma_div_is_ordered(s.len() as int + 253, isize::MAX + 253, 254);
        }
        // The payload bytes are yielded as a range; move past them.
        let _ = self.source.seek(SeekFrom::Start((start + len) as u64));
        let following = block.following;
        match following {
            Following::Eof => {
                self.finished = true;
            },
            Following::Sentinel => {
                let _ = self.source.read_byte();
            },
            Following::MoreInput => {},
        }
        proof {
            let k = block_len(t) as int;
            assert(t.take(k) =~= s.subrange(start as int, start + len));
            let rest = s.skip(self.source.position());
            if block_len(t) == t.len() {
                assert(t =~= t.take(k));
                assert(cobs_encode(t) == seq![code] + t);
            } else if block_len(t) < 254 {
                assert(rest =~= t.skip(k + 1));
            } else {
                assert(rest =~= t.skip(254));
            }
            assert(self.emitted@ + seq![code] + s.subrange(start as int, start + len)
                + (if self.finished { Seq::<u8>::empty() } else { cobs_encode(rest) })
                =~= self.emitted@ + cobs_encode(t));
        }
        self.emitted = Ghost(self.emitted@ + seq![code] + s.subrange(start as int, start + len));
        proof {
            assert(self.emitted@.len() <= cobs_encode(s).len());
        }
        self.encoded_len = self.encoded_len + 1 + len as u64;
        Some(EncodedBlock { code, start, len })
    }
}

/// State of the incremental encoder's current block: the offset of its code
/// byte and the code it will receive.
#[derive(Clone, Copy, Debug)]
pub struct EncoderState {
    pub code_idx: u64,
    pub code: u8,
}

/// What the incremental encoder does with one payload byte.
#[derive(Clone, Copy, Debug, PartialEq, Eq)]
pub enum PushResult {
    /// Append the byte to the current block.
    AddSingle(u8),
    /// A zero closes the block: write its code at the given offset, and
    /// start a new block.
    ModifyFromStartAndSkip((u64, u8)),
    /// A 254th nonzero byte fills the block: write its code at the given
    /// offset, append the byte, and defer the next block's code byte.
    ModifyFromStartAndPushAndSkip((u64, u8, u8)),
}

impl EncoderState {
    /// A block with no payload yet, whose code byte sits at offset zero.
    pub open spec fn initial() -> EncoderState {
        EncoderState { code_idx: 0, code: 1 }
    }

    pub open spec fn wf(self) -> bool {
        1 <= self.code <= 254
    }

    /// The state after one payload byte, and what to do with it (`None` when
    /// the next block's offset would exceed `u64::MAX`).
    pub open spec fn spec_push(self, data: u8) -> (EncoderState, Option<PushResult>) {
        if data == 0 {
            if self.code_idx + self.code > u64::MAX {
                (self, None)
            } else {
                (
                    EncoderState { code_idx: (self.code_idx + self.code) as u64, code: 1 },
                    Some(PushResult::ModifyFromStartAndSkip((self.code_idx, self.code))),
                )
            }
        } else if self.code + 1 == 255 {
            if self.code_idx + 255 > u64::MAX {
                (EncoderState { code: 255, ..self }, None)
            } else {
                (
                    EncoderState { code_idx: (self.code_idx + 255) as u64, code: 1 },
                    Some(PushResult::ModifyFromStartAndPushAndSkip((self.code_idx, 255, data))),
                )
            }
        } else {
            (EncoderState { code: (self.code + 1) as u8, ..self }, Some(PushResult::AddSingle(data)))
        }
    }

    /// Processes one payload byte. The code must leave room for one more
    /// byte.
    pub fn push(&mut self, data: u8) -> (r: Option<PushResult>)
        requires
            old(self).code < 255,
        ensures
            (*final(self), r) == old(self).spec_push(data),
    {
        let result = if data == 0 {
            PushResult::ModifyFromStartAndSkip((self.code_idx, self.code))
        } else {
            self.code += 1;
            if self.code == u8::MAX {
                PushResult::ModifyFromStartAndPushAndSkip((self.code_idx, self.code, data))
            } else {
                return Some(PushResult::AddSingle(data));
            }
        };
        self.code_idx = self.code_idx.checked_add(self.code as u64)?;
        self.code = 1;
        Some(result)
    }

    /// The offset and value of the current block's code byte.
    pub fn finalize(&self) -> (r: (u64, u8))
        ensures
            r == (self.code_idx, self.code),
    {
        (self.code_idx, self.code)
    }
}

impl Default for EncoderState {
    fn default() -> (s: Self)
        ensures
            s == EncoderState::initial(),
    {
        EncoderState { code_idx: 0, code: 1 }
    }
}

/// Lifecycle of the incremental encoder.
#[derive(Clone, Copy, Debug, PartialEq, Eq, Structural)]
pub enum Phase {
    /// No code-byte placeholder has been reserved yet.
    New,
    /// Between operations, with the body open.
    Ready,
    /// An operation is in progress or failed.
    Poisoned,
    /// The body is complete.
    Finished,
}

/// A primitive destination action that an encoder operation still has to
/// perform.
#[derive(Clone, Copy, Debug, PartialEq, Eq)]
pub enum Step {
    /// Capture the destination's current position as the body's start.
    QueryStart,
    /// Write this byte at the end of the body.
    Append(u8),
    /// Write this byte at this body offset.
    Patch(u64, u8),
    /// Position the destination right after the body; completes finalization.
    SeekEnd,
    /// Write a zero right after the acknowledged body; completes a reset.
    Boundary,
    /// A block offset exceeded `u64::MAX`.
    Overflow,
}

/// What the destination driver must do next.
#[derive(Clone, Copy, Debug, PartialEq, Eq)]
pub enum DestOp {
    /// Nothing: the current operation's destination work is done.
    Idle,
    /// Query the destination's current position and report it.
    QueryPosition,
    /// Seek to the absolute position `target` and write `byte` there.
    WriteByte { target: u64, byte: u8 },
    /// Seek to the absolute position `target`.
    SeekTo(u64),
}

/// The kind of operation in progress, if any.
pub enum Operation {
    Idle,
    Pushing,
    Finalizing,
    Resetting,
}

/// The body image after a step.
pub open spec fn apply_step(image: Seq<u8>, step: Step) -> Seq<u8> {
    match step {
        Step::Append(b) => image.push(b),
        Step::Patch(i, b) => if i < image.len() {
            image.update(i as int, b)
        } else {
            image
        },
        Step::Boundary => Seq::empty(),
        _ => image,
    }
}

/// Dropping a step that is not an overflow keeps a sequence blocked or not.
proof fn lemma_blocked_drop_first(steps: Seq<Step>)
    requires
        steps.len() > 0,
        !(steps[0] is Overflow),
    ensures
        blocked(steps.drop_first()) == blocked(steps),
        forall|i: int| 0 <= i < steps.len() - 1 ==> #[trigger] steps.drop_first()[i] == steps[i + 1],
{
    if blocked(steps) {
        let i = choose|i: int| 0 <= i < steps.len() && steps[i] is Overflow;
        assert(steps.drop_first()[i - 1] is Overflow);
    }
    if blocked(steps.drop_first()) {
        let i = choose|i: int| 0 <= i < steps.drop_first().len() && steps.drop_first()[i] is Overflow;
        assert(steps[i + 1] is Overflow);
    }
}

/// The body image after a sequence of steps.
pub open spec fn apply_steps(image: Seq<u8>, steps: Seq<Step>) -> Seq<u8>
    decreases steps.len(),
{
    if steps.len() == 0 {
        image
    } else {
        apply_steps(apply_step(image, steps[0]), steps.drop_first())
    }
}

/// Every patch of `steps`, applied in order from `image`, rewrites a byte
/// that is already part of the body.
pub open spec fn patches_in_range(image: Seq<u8>, steps: Seq<Step>) -> bool
    decreases steps.len(),
{
    steps.len() == 0 || ((steps[0] matches Step::Patch(i, _) ==> i < image.len())
        && patches_in_range(apply_step(image, steps[0]), steps.drop_first()))
}

/// Some step overflows, so the sequence cannot complete.
pub open spec fn blocked(steps: Seq<Step>) -> bool {
    exists|i: int| 0 <= i < steps.len() && steps[i] is Overflow
}

/// `image` is the body written so far for `payload`: the closed blocks,
/// then, unless the next block's code byte is deferred, a zero placeholder
/// for the open block's code followed by its bytes; `state` points at that
/// placeholder and holds its code.
pub open spec fn settled(image: Seq<u8>, payload: Seq<u8>, state: EncoderState, needs: bool) -> bool {
    let p = encoding_parts(payload);
    &&& p.deferred == needs
    &&& if needs {
        &&& image == p.head
        &&& state.code == 1
        &&& state.code_idx == image.len()
    } else {
        &&& image.len() == p.head.len() + 1 + p.run.len()
        &&& image.take(p.head.len() as int) == p.head
        &&& image[p.head.len() as int] == 0
        &&& image.skip(p.head.len() + 1int) == p.run
        &&& state.code_idx == p.head.len()
        &&& state.code == p.run.len() + 1
    }
}

/// The incremental encoder's bookkeeping. It decides every destination
/// action (as [`DestOp`]s, one at a time) and tracks, as a model, the body it
/// has written relative to the body's start.
pub struct EncoderCore {
    /// Encoded body bytes acknowledged by successful append writes.
    pub dest_idx: u64,
    /// Absolute destination position of the body's first byte.
    pub start_idx: u64,
    pub state: EncoderState,
    /// The next block's code byte has not been reserved yet.
    pub needs_code_placeholder: bool,
    pub phase: Phase,
    pub start_known: bool,
    /// Pending steps of the current operation: `steps[steps_pos..steps_len]`.
    pub steps: [Step; 4],
    pub steps_len: usize,
    pub steps_pos: usize,
    /// Payload bytes pushed into the current body.
    pub payload: Ghost<Seq<u8>>,
    /// Body bytes written so far, relative to the body's start.
    pub image: Ghost<Seq<u8>>,
    pub op: Ghost<Operation>,
}

impl EncoderCore {
    /// The steps the current operation still has to perform.
    pub open spec fn remaining(self) -> Seq<Step> {
        self.steps@.subrange(self.steps_pos as int, self.steps_len as int)
    }

    pub open spec fn inv(self) -> bool {
        &&& self.steps_pos <= self.steps_len <= 4
        &&& (self.phase != Phase::Poisoned || self.op@ is Finalizing || (self.op@ is Pushing
            && !blocked(self.remaining()))) ==> self.state.wf()
        &&& self.image@.len() == self.dest_idx
        &&& patches_in_range(self.image@, self.remaining())
        &&& self.phase != Phase::Poisoned ==> self.op@ is Idle
        &&& self.op@ is Idle ==> self.steps_pos == self.steps_len
        &&& self.phase == Phase::New ==> {
            &&& self.payload@ == Seq::<u8>::empty()
            &&& self.image@ == Seq::<u8>::empty()
            &&& self.state == EncoderState::initial()
            &&& !self.needs_code_placeholder
        }
        &&& self.phase == Phase::Ready ==> settled(
            self.image@,
            self.payload@,
            self.state,
            self.needs_code_placeholder,
        )
        &&& self.phase == Phase::Finished ==> self.image@ == cobs_encode(self.payload@)
        &&& self.op@ is Pushing ==> (!blocked(self.remaining()) ==> settled(
            apply_steps(self.image@, self.remaining()),
            self.payload@,
            self.state,
            self.needs_code_placeholder,
        ))
        &&& self.op@ is Finalizing ==> {
            &&& apply_steps(self.image@, self.remaining()) == cobs_encode(self.payload@)
            &&& self.remaining().len() > 0
            &&& self.remaining().last() is SeekEnd
            &&& forall|i: int|
                0 <= i < self.remaining().len() - 1 ==> {
                    &&& !(#[trigger] self.remaining()[i] is SeekEnd)
                    &&& !(self.remaining()[i] is Boundary)
                    &&& !(self.remaining()[i] is Overflow)
                }
        }
        &&& self.op@ is Resetting ==> {
            &&& self.remaining().len() > 0
            &&& self.remaining().last() is Boundary
            &&& forall|i: int| 0 <= i < self.remaining().len() - 1 ==> #[trigger] self.remaining()[i] is QueryStart
        }
        &&& self.op@ is Pushing ==> forall|i: int| 0 <= i < self.remaining().len() ==> !(#[trigger] self.remaining()[i] is SeekEnd) && !(self.remaining()[i] is Boundary)
    }

    /// Payload bytes pushed into the current body.
    pub open spec fn spec_payload(self) -> Seq<u8> {
        self.payload@
    }

    /// Body bytes written so far, relative to the body's start.
    pub open spec fn spec_image(self) -> Seq<u8> {
        self.image@
    }

    /// The next destination action, or `None` when an offset or position
    /// would exceed `u64::MAX`.
    pub open spec fn spec_next_op(self) -> Option<DestOp> {
        if self.steps_pos >= self.steps_len {
            Some(DestOp::Idle)
        } else {
            match self.steps[self.steps_pos as int] {
                Step::QueryStart => Some(DestOp::QueryPosition),
                Step::Append(b) => if self.start_idx + self.dest_idx + 1 > u64::MAX {
                    None
                } else {
                    Some(DestOp::WriteByte { target: (self.start_idx + self.dest_idx) as u64, byte: b })
                },
                Step::Patch(i, b) => if self.start_idx + i + 1 > u64::MAX {
                    None
                } else {
                    Some(DestOp::WriteByte { target: (self.start_idx + i) as u64, byte: b })
                },
                Step::SeekEnd => if self.start_idx + self.dest_idx > u64::MAX {
                    None
                } else {
                    Some(DestOp::SeekTo((self.start_idx + self.dest_idx) as u64))
                },
                Step::Boundary => if self.start_idx + self.dest_idx + 1 > u64::MAX {
                    None
                } else {
                    Some(DestOp::WriteByte { target: (self.start_idx + self.dest_idx) as u64, byte: 0 })
                },
                Step::Overflow => None,
            }
        }
    }

    /// A fresh encoder: no position captured, nothing written.
    pub fn new() -> (c: Self)
        ensures
            c.inv(),
            c.phase == Phase::New,
            !c.start_known,
            c.start_idx == 0,
            c.dest_idx == 0,
            c.state == EncoderState::initial(),
            !c.needs_code_placeholder,
            c.spec_payload() == Seq::<u8>::empty(),
            c.spec_image() == Seq::<u8>::empty(),
            c.spec_next_op() == Some(DestOp::Idle),
    {
        EncoderCore {
            dest_idx: 0,
            start_idx: 0,
            state: EncoderState::default(),
            needs_code_placeholder: false,
            phase: Phase::New,
            start_known: false,
            steps: [Step::QueryStart; 4],
            steps_len: 0,
            steps_pos: 0,
            payload: Ghost(Seq::empty()),
            image: Ghost(Seq::empty()),
            op: Ghost(Operation::Idle),
        }
    }

    /// Checks that an encoding operation may start: a new encoder must first
    /// reserve its code byte (`Ok(true)`), a ready one continues
    /// (`Ok(false)`). The encoder is poisoned until the operation completes.
    pub fn begin_operation<S, D>(&mut self) -> (r: Result<bool, EncodeError<S, D>>)
        ensures
            match old(self).phase {
                Phase::New => r == Ok::<bool, EncodeError<S, D>>(true),
                Phase::Ready => r == Ok::<bool, EncodeError<S, D>>(false),
                Phase::Poisoned => r matches Err(EncodeError::Poisoned),
                Phase::Finished => r matches Err(EncodeError::AlreadyFinalized),
            },
            r is Ok ==> *final(self) == (EncoderCore { phase: Phase::Poisoned, ..*old(self) }),
            r is Err ==> *final(self) == *old(self),
    {
        let initialize = match self.phase {
            Phase::New => true,
            Phase::Ready => false,
            Phase::Poisoned => return Err(EncodeError::Poisoned),
            Phase::Finished => return Err(EncodeError::AlreadyFinalized),
        };
        self.phase = Phase::Poisoned;
        Ok(initialize)
    }
}

impl EncoderCore {
    /// Starts a push. A new encoder first captures its start position (if
    /// not yet known) and reserves the first code byte.
    pub fn begin_push<S, D>(&mut self) -> (r: Result<(), EncodeError<S, D>>)
        requires
            old(self).inv(),
        ensures
            final(self).inv(),
            match old(self).phase {
                Phase::New | Phase::Ready => r is Ok,
                Phase::Poisoned => r matches Err(EncodeError::Poisoned),
                Phase::Finished => r matches Err(EncodeError::AlreadyFinalized),
            },
            r is Err ==> *final(self) == *old(self),
            r is Ok ==> {
                &&& final(self).phase == Phase::Poisoned
                &&& final(self).op@ is Pushing
                &&& final(self).remaining() == if old(self).phase == Phase::Ready {
                    Seq::<Step>::empty()
                } else if old(self).start_known {
                    seq![Step::Append(0)]
                } else {
                    seq![Step::QueryStart, Step::Append(0)]
                }
                &&& final(self).spec_payload() == old(self).spec_payload()
                &&& final(self).spec_image() == old(self).spec_image()
                &&& final(self).dest_idx == old(self).dest_idx
                &&& final(self).start_idx == old(self).start_idx
                &&& final(self).start_known == old(self).start_known
            },
    {
        let initialize = self.begin_operation::<S, D>()?;
        let fill = Step::QueryStart;
        if !initialize {
            self.steps_len = 0;
        } else if self.start_known {
            self.steps = [Step::Append(0), fill, fill, fill];
            self.steps_len = 1;
        } else {
            self.steps = [Step::QueryStart, Step::Append(0), fill, fill];
            self.steps_len = 2;
        }
        self.steps_pos = 0;
        self.op = Ghost(Operation::Pushing);
        proof {
            reveal_with_fuel(apply_steps, 3);
            reveal_with_fuel(patches_in_range, 3);
            let rem = self.remaining();
            if initialize {
                crate::format::lemma_block_len(Seq::<u8>::empty());
                if self.start_known {
                    assert(rem =~= seq![Step::Append(0)]);
                } else {
                    assert(rem =~= seq![Step::QueryStart, Step::Append(0)]);
                }
                assert(apply_steps(self.image@, rem) =~= seq![0u8]);
                assert(seq![0u8].skip(1) =~= Seq::<u8>::empty());
                assert(seq![0u8].take(0) =~= Seq::<u8>::empty());
            } else {
                assert(rem =~= Seq::<Step>::empty());
            }
        }
        Ok(())
    }

    /// Ends a push whose steps all completed: the body stays open.
    pub fn end_push(&mut self)
        requires
            old(self).inv(),
            old(self).op@ is Pushing,
            old(self).steps_pos == old(self).steps_len,
        ensures
            final(self).inv(),
            final(self).phase == Phase::Ready,
            final(self).op@ is Idle,
            final(self).spec_payload() == old(self).spec_payload(),
            final(self).spec_image() == old(self).spec_image(),
            final(self).dest_idx == old(self).dest_idx,
            final(self).start_idx == old(self).start_idx,
            final(self).start_known == old(self).start_known,
    {
        self.phase = Phase::Ready;
        self.op = Ghost(Operation::Idle);
        proof {
            assert(old(self).remaining() =~= Seq::<Step>::empty());
        }
    }
}

impl EncoderCore {
    /// Plans the destination steps for one payload byte: reserve a deferred
    /// code byte if needed, then append the byte, or close the current block
    /// by writing its code at its placeholder.
    ///
    /// Once the planned steps complete, the written body is again the
    /// encoding of the payload (now including `byte`) with the open block's
    /// code still to be written. The steps are blocked by an overflow exactly
    /// when the next block's offset would exceed `u64::MAX`.
    pub fn push_byte(&mut self, byte: u8)
        requires
            old(self).inv(),
            old(self).op@ is Pushing,
            old(self).steps_pos == old(self).steps_len,
        ensures
            final(self).inv(),
            final(self).op@ is Pushing,
            final(self).phase == old(self).phase,
            final(self).spec_payload() == old(self).spec_payload().push(byte),
            final(self).spec_image() == old(self).spec_image(),
            final(self).dest_idx == old(self).dest_idx,
            final(self).start_idx == old(self).start_idx,
            final(self).start_known == old(self).start_known,
            blocked(final(self).remaining()) <==> old(self).state.spec_push(byte).1 is None,
            !blocked(final(self).remaining()) ==> settled(
                apply_steps(final(self).spec_image(), final(self).remaining()),
                final(self).spec_payload(),
                final(self).state,
                final(self).needs_code_placeholder,
            ),
    {
        let ghost old_image = self.image@;
        let ghost old_payload = self.payload@;
        let ghost old_state = self.state;
        let ghost deferred = self.needs_code_placeholder;
        proof {
            assert(old(self).remaining() =~= Seq::<Step>::empty());
            crate::format::lemma_parts_push(old_payload, byte);
            crate::format::lemma_parts_finish(old_payload);
        }
        let fill = Step::QueryStart;
        let placeholder = self.needs_code_placeholder;
        self.needs_code_placeholder = false;
        let (first, second, count) = match self.state.push(byte) {
            None => (Step::Overflow, fill, 1usize),
            Some(PushResult::AddSingle(b)) => (Step::Append(b), fill, 1usize),
            Some(PushResult::ModifyFromStartAndSkip((idx, code))) => (
                Step::Patch(idx, code),
                Step::Append(0),
                2usize,
            ),
            Some(PushResult::ModifyFromStartAndPushAndSkip((idx, code, b))) => {
                self.needs_code_placeholder = true;
                (Step::Patch(idx, code), Step::Append(b), 2usize)
            },
        };
        if placeholder {
            self.steps = [Step::Append(0), first, second, fill];
            self.steps_len = count + 1;
        } else {
            self.steps = [first, second, fill, fill];
            self.steps_len = count;
        }
        self.steps_pos = 0;
        self.payload = Ghost(old_payload.push(byte));
        proof {
            reveal_with_fuel(apply_steps, 4);
            reveal_with_fuel(patches_in_range, 4);
            let rem = self.remaining();
            let p = encoding_parts(old_payload);
            let q = encoding_parts(old_payload.push(byte));
            if placeholder {
                if count == 1 {
                    assert(rem =~= seq![Step::Append(0), first]);
                } else {
                    assert(rem =~= seq![Step::Append(0), first, second]);
                }
            } else {
                if count == 1 {
                    assert(rem =~= seq![first]);
                } else {
                    assert(rem =~= seq![first, second]);
                }
            }
            let img = apply_steps(old_image, rem);
            if old_state.spec_push(byte).1 is None {
                assert(rem[rem.len() - 1] is Overflow);
            } else {
                assert(!blocked(rem));
                if deferred {
                    // The payload ended with a full block: old_image is the
                    // closed blocks and the new block starts at its end.
                    if byte == 0 {
                        assert(img =~= old_image.push(0).update(old_image.len() as int, 1u8).push(0));
                        assert(img =~= q.head.push(0));
                        assert(img.take(q.head.len() as int) =~= q.head);
                        assert(img.skip(q.head.len() + 1int) =~= q.run);
                    } else {
                        assert(img =~= old_image.push(0).push(byte));
                        assert(img.take(q.head.len() as int) =~= q.head);
                        assert(img.skip(q.head.len() + 1int) =~= q.run);
                    }
                } else {
                    let h = p.head.len() as int;
                    assert(old_image =~= old_image.take(h) + seq![old_image[h]] + old_image.skip(h + 1));
                    if byte == 0 {
                        assert(img =~= old_image.update(h, old_state.code).push(0));
                        assert(img.take(q.head.len() as int) =~= q.head);
                        assert(img.skip(q.head.len() + 1int) =~= q.run);
                    } else if old_state.code + 1 < 255 {
                        assert(img =~= old_image.push(byte));
                        assert(img.take(q.head.len() as int) =~= q.head);
                        assert(img.skip(q.head.len() + 1int) =~= q.run);
                    } else {
                        assert(img =~= old_image.update(h, 255u8).push(byte));
                        assert(img =~= q.head);
                    }
                }
            }
        }
    }
}

impl EncoderCore {
    /// Starts finalization. A finished encoder reports its body length
    /// again without any destination action (`Ok(Some(len))`). Otherwise the
    /// planned steps write the open block's code byte (reserving the first
    /// one on a new encoder) and position the destination after the body;
    /// once they complete, the body is the encoding of the payload.
    pub fn begin_finalize<S, D>(&mut self) -> (r: Result<Option<u64>, EncodeError<S, D>>)
        requires
            old(self).inv(),
        ensures
            final(self).inv(),
            match old(self).phase {
                Phase::Finished => r == Ok::<Option<u64>, EncodeError<S, D>>(Some(old(self).dest_idx))
                    && *final(self) == *old(self),
                Phase::Poisoned => (r matches Err(EncodeError::Poisoned) && *final(self) == *old(self)),
                _ => {
                    &&& r == Ok::<Option<u64>, EncodeError<S, D>>(None)
                    &&& final(self).phase == Phase::Poisoned
                    &&& final(self).op@ is Finalizing
                    &&& final(self).spec_payload() == old(self).spec_payload()
                    &&& final(self).spec_image() == old(self).spec_image()
                    &&& final(self).dest_idx == old(self).dest_idx
                    &&& final(self).start_idx == old(self).start_idx
                    &&& final(self).start_known == old(self).start_known
                    &&& apply_steps(final(self).spec_image(), final(self).remaining()) == cobs_encode(
                        final(self).spec_payload(),
                    )
                },
            },
    {
        if self.phase == Phase::Finished {
            return Ok(Some(self.dest_idx));
        }
        let ghost old_image = self.image@;
        let ghost payload = self.payload@;
        proof {
            crate::format::lemma_parts_finish(payload);
            crate::format::lemma_block_len(Seq::<u8>::empty());
        }
        let initialize = self.begin_operation::<S, D>()?;
        let (code_idx, code) = self.state.finalize();
        let fill = Step::QueryStart;
        let patch = Step::Patch(code_idx, code);
        let write_code = !self.needs_code_placeholder;
        if initialize {
            if self.start_known {
                self.steps = [Step::Append(0), patch, Step::SeekEnd, fill];
                self.steps_len = 3;
            } else {
                self.steps = [Step::QueryStart, Step::Append(0), patch, Step::SeekEnd];
                self.steps_len = 4;
            }
        } else if write_code {
            self.steps = [patch, Step::SeekEnd, fill, fill];
            self.steps_len = 2;
        } else {
            self.steps = [Step::SeekEnd, fill, fill, fill];
            self.steps_len = 1;
        }
        self.steps_pos = 0;
        self.op = Ghost(Operation::Finalizing);
        proof {
            reveal_with_fuel(apply_steps, 5);
            reveal_with_fuel(patches_in_range, 5);
            let rem = self.remaining();
            let p = encoding_parts(payload);
            if initialize {
                if self.start_known {
                    assert(rem =~= seq![Step::Append(0), patch, Step::SeekEnd]);
                } else {
                    assert(rem =~= seq![Step::QueryStart, Step::Append(0), patch, Step::SeekEnd]);
                }
                assert(apply_steps(old_image, rem) =~= seq![1u8]);
                assert(p.finish() =~= seq![1u8]);
            } else if write_code {
                assert(rem =~= seq![patch, Step::SeekEnd]);
                let h = p.head.len() as int;
                assert(old_image =~= old_image.take(h) + seq![old_image[h]] + old_image.skip(h + 1));
                assert(apply_steps(old_image, rem) =~= p.finish());
            } else {
                assert(rem =~= seq![Step::SeekEnd]);
                assert(apply_steps(old_image, rem) =~= p.finish());
            }
        }
        Ok(None)
    }

    /// Starts a reset: the planned steps capture the start position if it is
    /// not yet known, then write a zero right after the acknowledged body and
    /// start a fresh body after it. Allowed in every phase.
    pub fn begin_reset(&mut self)
        requires
            old(self).inv(),
        ensures
            final(self).inv(),
            final(self).phase == Phase::Poisoned,
            final(self).op@ is Resetting,
            final(self).remaining() == if old(self).start_known {
                seq![Step::Boundary]
            } else {
                seq![Step::QueryStart, Step::Boundary]
            },
            final(self).dest_idx == old(self).dest_idx,
            final(self).start_idx == old(self).start_idx,
            final(self).start_known == old(self).start_known,
            final(self).spec_image() == old(self).spec_image(),
            final(self).spec_payload() == old(self).spec_payload(),
    {
        self.phase = Phase::Poisoned;
        let fill = Step::QueryStart;
        if self.start_known {
            self.steps = [Step::Boundary, fill, fill, fill];
            self.steps_len = 1;
        } else {
            self.steps = [Step::QueryStart, Step::Boundary, fill, fill];
            self.steps_len = 2;
        }
        self.steps_pos = 0;
        self.op = Ghost(Operation::Resetting);
        proof {
            reveal_with_fuel(patches_in_range, 3);
            if self.start_known {
                assert(self.remaining() =~= seq![Step::Boundary]);
            } else {
                assert(self.remaining() =~= seq![Step::QueryStart, Step::Boundary]);
            }
        }
    }

    /// Starts a fresh body at `next_start`: new phase, nothing written.
    pub fn complete_reset(&mut self, next_start: u64)
        ensures
            final(self).inv(),
            final(self).phase == Phase::New,
            final(self).start_idx == next_start,
            final(self).start_known,
            final(self).dest_idx == 0,
            final(self).spec_payload() == Seq::<u8>::empty(),
            final(self).spec_image() == Seq::<u8>::empty(),
            final(self).steps_pos == final(self).steps_len,
    {
        *self = EncoderCore::new();
        self.start_idx = next_start;
        self.start_known = true;
    }

    /// The next destination action of the current operation.
    pub fn next_op<S, D>(&self) -> (r: Result<DestOp, EncodeError<S, D>>)
        requires
            self.inv(),
        ensures
            match self.spec_next_op() {
                Some(op) => r == Ok::<DestOp, EncodeError<S, D>>(op),
                None => r matches Err(EncodeError::PositionOverflow),
            },
    {
        if self.steps_pos >= self.steps_len {
            return Ok(DestOp::Idle);
        }
        match self.steps[self.steps_pos] {
            Step::QueryStart => Ok(DestOp::QueryPosition),
            Step::Append(byte) => {
                let target = self.write_target(self.dest_idx)?;
                Ok(DestOp::WriteByte { target, byte })
            },
            Step::Patch(idx, byte) => {
                let target = self.write_target(idx)?;
                Ok(DestOp::WriteByte { target, byte })
            },
            Step::SeekEnd => match self.start_idx.checked_add(self.dest_idx) {
                Some(end) => Ok(DestOp::SeekTo(end)),
                None => Err(EncodeError::PositionOverflow),
            },
            Step::Boundary => {
                let target = self.write_target(self.dest_idx)?;
                Ok(DestOp::WriteByte { target, byte: 0 })
            },
            Step::Overflow => Err(EncodeError::PositionOverflow),
        }
    }

    /// The absolute position of body offset `idx`, when it and the position
    /// after it are representable.
    fn write_target<S, D>(&self, idx: u64) -> (r: Result<u64, EncodeError<S, D>>)
        ensures
            self.start_idx + idx + 1 <= u64::MAX ==> r == Ok::<u64, EncodeError<S, D>>(
                (self.start_idx + idx) as u64,
            ),
            self.start_idx + idx + 1 > u64::MAX ==> r matches Err(EncodeError::PositionOverflow),
    {
        let target = match self.start_idx.checked_add(idx) {
            Some(t) => t,
            None => return Err(EncodeError::PositionOverflow),
        };
        match target.checked_add(1) {
            Some(_) => Ok(target),
            None => Err(EncodeError::PositionOverflow),
        }
    }

    /// Records the destination position captured for the body's start.
    pub fn position_known(&mut self, position: u64)
        requires
            old(self).inv(),
            old(self).spec_next_op() == Some(DestOp::QueryPosition),
        ensures
            final(self).inv(),
            final(self).start_idx == position,
            final(self).start_known,
            final(self).remaining() == old(self).remaining().drop_first(),
            final(self).dest_idx == old(self).dest_idx,
            final(self).spec_image() == old(self).spec_image(),
            final(self).spec_payload() == old(self).spec_payload(),
            final(self).phase == old(self).phase,
    {
        self.start_idx = position;
        self.start_known = true;
        self.steps_pos = self.steps_pos + 1;
        proof {
            let rem = old(self).remaining();
            assert(self.remaining() =~= rem.drop_first());
            assert(rem[0] is QueryStart);
            assert(apply_steps(self.image@, rem) == apply_steps(self.image@, rem.drop_first()));
            lemma_blocked_drop_first(rem);
            if old(self).op@ is Finalizing || old(self).op@ is Resetting {
                assert(rem.len() > 1);
                assert(self.remaining().last() == rem.last());
            }
        }
    }

    /// Records that the destination accepted `written` bytes of the write
    /// that [`next_op`](Self::next_op) asked for. Zero is an error that leaves
    /// the encoder unchanged (and poisoned). A completed append extends the
    /// body; a completed reset boundary starts a fresh body after it.
    pub fn write_done<S, D>(&mut self, written: usize) -> (r: Result<(), EncodeError<S, D>>)
        requires
            old(self).inv(),
            old(self).spec_next_op() matches Some(DestOp::WriteByte { .. }),
        ensures
            final(self).inv(),
            written == 0 ==> (r matches Err(EncodeError::WriteZero) && *final(self) == *old(self)),
            written != 0 ==> (r is Ok) && match old(self).steps[old(self).steps_pos as int] {
                Step::Boundary => {
                    &&& final(self).phase == Phase::New
                    &&& final(self).start_idx == old(self).start_idx + old(self).dest_idx + 1
                    &&& final(self).start_known
                    &&& final(self).dest_idx == 0
                    &&& final(self).spec_payload() == Seq::<u8>::empty()
                    &&& final(self).spec_image() == Seq::<u8>::empty()
                },
                step => {
                    &&& final(self).remaining() == old(self).remaining().drop_first()
                    &&& final(self).spec_image() == apply_step(old(self).spec_image(), step)
                    &&& final(self).dest_idx == apply_step(old(self).spec_image(), step).len()
                    &&& final(self).spec_payload() == old(self).spec_payload()
                    &&& final(self).phase == old(self).phase
                    &&& final(self).start_idx == old(self).start_idx
                },
            },
    {
        if written == 0 {
            return Err(EncodeError::WriteZero);
        }
        let ghost rem = self.remaining();
        let step = self.steps[self.steps_pos];
        match step {
            Step::Append(b) => {
                self.dest_idx = self.dest_idx + 1;
                self.image = Ghost(self.image@.push(b));
            },
            Step::Patch(idx, b) => {
                self.image = Ghost(apply_step(self.image@, step));
            },
            Step::Boundary => {
                let next_start = self.start_idx + self.dest_idx + 1;
                self.complete_reset(next_start);
                return Ok(());
            },
            _ => {},
        }
        self.steps_pos = self.steps_pos + 1;
        proof {
            assert(self.remaining() =~= rem.drop_first());
            assert(apply_steps(self.image@, self.remaining()) == apply_steps(old(self).image@, rem));
            lemma_blocked_drop_first(rem);
            if old(self).op@ is Finalizing {
                assert(rem.len() > 1);
                assert(self.remaining().last() == rem.last());
            }
            if old(self).op@ is Resetting {
                assert(rem.len() - 1 == 0 || rem[0] is QueryStart);
                assert(false);
            }
        }
        Ok(())
    }

    /// Records that the destination was positioned after the body: the body
    /// is finished, and is the encoding of the payload. Returns its length.
    pub fn seek_done(&mut self) -> (len: u64)
        requires
            old(self).inv(),
            old(self).spec_next_op() matches Some(DestOp::SeekTo(_)),
        ensures
            final(self).inv(),
            final(self).phase == Phase::Finished,
            len == final(self).dest_idx,
            final(self).dest_idx == old(self).dest_idx,
            final(self).spec_image() == old(self).spec_image(),
            final(self).spec_payload() == old(self).spec_payload(),
            final(self).spec_image() == cobs_encode(final(self).spec_payload()),
    {
        proof {
            let rem = self.remaining();
            assert(rem[0] is SeekEnd);
            if !(self.op@ is Finalizing) {
                if self.op@ is Resetting {
                    assert(rem.len() - 1 == 0 || rem[0] is QueryStart);
                }
                assert(false);
            }
            assert(rem.len() == 1);
            assert(rem =~= seq![Step::SeekEnd]);
            reveal_with_fuel(apply_steps, 2);
        }
        self.steps_pos = self.steps_len;
        self.phase = Phase::Finished;
        self.op = Ghost(Operation::Idle);
        self.dest_idx
    }
}


/// The incremental encoder and the one-shot encoder agree: once both have
/// finished on the same payload, the incremental encoder's body is exactly
/// the bytes the one-shot encoder yielded.
pub proof fn lemma_incremental_matches_one_shot<'a>(core: EncoderCore, one_shot: SliceEncoder<'a>)
    requires
        core.inv(),
        core.phase == Phase::Finished,
        one_shot.wf(),
        one_shot.is_finished(),
        core.spec_payload() == one_shot.payload(),
    ensures
        core.spec_image() == one_shot.emitted(),
{
    one_shot.lemma_finished();
}

impl<'a> SliceEncoder<'a> {
    /// A finished one-shot encoder has yielded the encoding of its payload.
    pub proof fn lemma_finished(&self)
        requires
            self.wf(),
            self.is_finished(),
        ensures
            self.emitted() == cobs_encode(self.payload()),
    {
    }
}


/// `s` with `b` written at index `i`: in place inside `s`, appended at its
/// end.
pub open spec fn write_at(s: Seq<u8>, i: int, b: u8) -> Seq<u8> {
    if i < s.len() {
        s.update(i, b)
    } else {
        s.push(b)
    }
}

impl EncoderCore {
    /// The destination follows the encoder's model of the body: a
    /// destination that holds the body written so far at the body's start
    /// still does after the write that [`next_op`](Self::next_op) asks for
    /// (other than a reset's boundary), with the body as
    /// [`write_done`](Self::write_done) then records it. That write lands
    /// inside the body or right after it.
    pub proof fn lemma_write_keeps_destination(self, dest: Seq<u8>)
        requires
            self.inv(),
            self.spec_next_op() matches Some(DestOp::WriteByte { .. }),
            !(self.steps[self.steps_pos as int] is Boundary),
            self.start_idx + self.spec_image().len() <= dest.len(),
            dest.subrange(self.start_idx as int, self.start_idx + self.spec_image().len())
                == self.spec_image(),
        ensures
            ({
                let op = self.spec_next_op()->Some_0;
                let image = apply_step(self.spec_image(), self.steps[self.steps_pos as int]);
                let d = write_at(dest, op->target as int, op->byte);
                &&& self.start_idx <= op->target <= self.start_idx + self.spec_image().len()
                &&& d.subrange(self.start_idx as int, self.start_idx + image.len()) == image
            }),
    {
        let rem = self.remaining();
        let step = self.steps[self.steps_pos as int];
        assert(rem[0] == step);
        let img = self.spec_image();
        let start = self.start_idx as int;
        let op = self.spec_next_op()->Some_0;
        let d = write_at(dest, op->target as int, op->byte);
        match step {
            Step::Append(b) => {
                assert(op->target == start + img.len());
                assert(d.subrange(start, start + img.len() + 1) =~= img.push(b));
            },
            Step::Patch(i, b) => {
                assert(i < img.len());
                assert(d.subrange(start, start + img.len()) =~= img.update(i as int, b));
            },
            _ => {},
        }
    }
}


impl EncoderCore {
    /// A reset's boundary lands right after the body: a destination that
    /// holds the body written so far at the body's start holds, after the
    /// write that [`next_op`](Self::next_op) asks for, that body immediately
    /// followed by a zero, and nothing else of it changes. (Once
    /// [`write_done`](Self::write_done) records that write, the next body
    /// starts right after the zero.)
    pub proof fn lemma_boundary_follows_body(self, dest: Seq<u8>)
        requires
            self.inv(),
            self.spec_next_op() matches Some(DestOp::WriteByte { .. }),
            self.steps[self.steps_pos as int] is Boundary,
            self.start_idx + self.spec_image().len() <= dest.len(),
            dest.subrange(self.start_idx as int, self.start_idx + self.spec_image().len())
                == self.spec_image(),
        ensures
            ({
                let op = self.spec_next_op()->Some_0;
                let d = write_at(dest, op->target as int, op->byte);
                let end = self.start_idx + self.spec_image().len();
                &&& d.len() >= end + 1
                &&& d.subrange(self.start_idx as int, end + 1) == self.spec_image().push(0)
                &&& forall|i: int| 0 <= i < dest.len() && i != end ==> #[trigger] d[i] == dest[i]
            }),
    {
        let img = self.spec_image();
        let start = self.start_idx as int;
        let op = self.spec_next_op()->Some_0;
        let d = write_at(dest, op->target as int, op->byte);
        assert(op->target == start + img.len());
        assert(d.subrange(start, start + img.len() + 1) =~= img.push(0));
    }
}

} // verus!
