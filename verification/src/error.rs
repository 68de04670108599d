//! Errors shared by the encoder, the decoder and the slice-backed buffers.
use vstd::prelude::*;

use crate::decode::DecodeProgress;

verus! {

/// A decoding or delimiter-recovery failure.
///
/// The generic parameters preserve the source and destination error types.
/// Errors do not roll back input consumption or partial output; only
/// [`InvalidFrame`](Self::InvalidFrame) carries progress information.
#[derive(Debug, Clone, Copy, Hash, PartialEq, Eq)]
pub enum DecodeError<SourceError, DestinationError> {
    /// Reading the source failed. Stateful decoding remains poisoned.
    Source(SourceError),
    /// Writing decoded output failed. Stateful decoding remains poisoned.
    Destination(DestinationError),
    /// EOF occurred before the current COBS block was complete, or before
    /// delimiter-based discard encountered a zero.
    UnexpectedSourceEof,
    /// One-shot decoding reached EOF without starting an encoded frame.
    EmptyFrame,
    /// A zero delimiter arrived before the current COBS block had enough data.
    /// Progress is local to the failing call and includes the delimiter.
    InvalidFrame(DecodeProgress),
    /// A push was attempted after a failed or interrupted operation.
    Poisoned,
}

/// Failure to validate or explicitly finish an undelimited frame.
///
/// These errors do not change decoder state.
#[derive(Debug, Clone, Copy, Hash, PartialEq, Eq)]
pub enum CompletionError {
    /// The current COBS block still requires encoded data bytes. Holds the
    /// decoded bytes acknowledged for the current frame.
    IncompleteFrame(u64),
    /// The decoder is poisoned by an earlier failed or interrupted operation.
    InvalidState,
    /// No frame is active.
    NoFrame,
}

/// An encoding failure.
#[derive(Debug, Clone, Copy, Hash, PartialEq, Eq)]
pub enum EncodeError<SourceError, DestinationError> {
    /// Reading or seeking the source failed.
    Source(SourceError),
    /// Querying, seeking, or writing the destination failed.
    Destination(DestinationError),
    /// Seekable-source encoding reached EOF while expecting a previously
    /// observed source zero.
    UnexpectedSourceEof,
    /// Seekable-source encoding observed input inconsistent with an earlier scan.
    SourceChanged,
    /// A streaming encoder's nonempty destination write returned `Ok(0)`.
    WriteZero,
    /// The streaming encoder cannot continue after an earlier failed or
    /// interrupted operation.
    Poisoned,
    /// Input was pushed after successful finalization.
    AlreadyFinalized,
    /// A required encoded offset or destination position exceeds `u64::MAX`.
    PositionOverflow,
}

/// A bounds error involving a slice-backed buffer.
#[derive(Debug, Clone, Copy, Hash, PartialEq, Eq)]
pub enum SeekableError {
    /// An operation would access a position or write bytes outside the
    /// backing slice's bounds.
    OutOfBounds,
}

impl<S, D> EncodeError<S, D> {
    /// The same error with another source-error type. Only errors that do
    /// not carry a source error can be retyped.
    pub fn with_source_type<T>(self) -> (r: EncodeError<T, D>)
        requires
            !(self is Source),
        ensures
            match self {
                EncodeError::Destination(d) => r == EncodeError::<T, D>::Destination(d),
                EncodeError::UnexpectedSourceEof => r is UnexpectedSourceEof,
                EncodeError::SourceChanged => r is SourceChanged,
                EncodeError::WriteZero => r is WriteZero,
                EncodeError::Poisoned => r is Poisoned,
                EncodeError::AlreadyFinalized => r is AlreadyFinalized,
                EncodeError::PositionOverflow => r is PositionOverflow,
                EncodeError::Source(_) => false,
            },
    {
        match self {
            EncodeError::Destination(d) => EncodeError::Destination(d),
            EncodeError::UnexpectedSourceEof => EncodeError::UnexpectedSourceEof,
            EncodeError::SourceChanged => EncodeError::SourceChanged,
            EncodeError::WriteZero => EncodeError::WriteZero,
            EncodeError::Poisoned => EncodeError::Poisoned,
            EncodeError::AlreadyFinalized => EncodeError::AlreadyFinalized,
            EncodeError::PositionOverflow => EncodeError::PositionOverflow,
            // Excluded by the precondition.
            EncodeError::Source(_) => EncodeError::Poisoned,
        }
    }
}

} // verus!
