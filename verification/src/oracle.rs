//! The compressed-size measurement of one compressor slot, and the calls
//! into `miniz_oxide` that it rests on.

use vstd::prelude::*;
use miniz_oxide::deflate;
use crate::error::NcdError;

verus! {

/// The deflate compressor state of `miniz_oxide`, carried as an opaque value.
#[verifier::external_type_specification]
#[verifier::external_body]
pub struct ExCompressorOxide(deflate::core::CompressorOxide);

/// How a compression call ended.
#[derive(Clone, Copy, Debug, PartialEq, Eq, Structural)]
pub enum DeflateStatus {
    /// The compressor refused the call.
    BadParam,
    /// The compressor could not place its output.
    PutBufFailed,
    /// The call went well, but the stream is not complete in the output.
    Okay,
    /// The whole stream, end marker included, is in the output.
    Done,
}

/// What one compression call reports: how it ended, how many input bytes
/// it took and how many output bytes it wrote.
#[derive(Clone, Copy, Debug, PartialEq, Eq, Structural)]
pub struct DeflateOutcome {
    pub status: DeflateStatus,
    pub consumed: usize,
    pub produced: usize,
}

/// The flag word a compressor was configured with
/// (`CompressorOxide::flags`): level, strategy and stream format.
pub uninterp spec fn compressor_flags(c: deflate::core::CompressorOxide) -> int;

/// Whether a compressor is in the state that `CompressorOxide::reset`
/// leaves it in: nothing taken in, nothing pending.
pub uninterp spec fn compressor_is_fresh(c: deflate::core::CompressorOxide) -> bool;

/// What `miniz_oxide::deflate::core::compress` reports when a fresh
/// compressor with the given flags is asked to finish the stream of
/// `input` into an output buffer of `capacity` bytes.
pub uninterp spec fn deflate_outcome(flags: int, input: Seq<u8>, capacity: nat) -> DeflateOutcome;

/// The flag word of `CompressorOxide::default()`: level 4 (16 probes)
/// with the zlib wrapper.
pub const DEFAULT_FLAGS: i32 = 0x1010;

/// `CompressorOxide::default()`, boxed. The contract claims that the new
/// compressor carries the default flag word and is fresh.
#[verifier::external_body]
fn new_compressor() -> (c: Box<deflate::core::CompressorOxide>)
    ensures
        compressor_flags(*c) == DEFAULT_FLAGS,
        compressor_is_fresh(*c),
{
    Box::new(deflate::core::CompressorOxide::default())
}

/// `CompressorOxide::reset`. The contract claims that the compressor is
/// fresh afterwards and keeps its flag word.
#[verifier::external_body]
fn reset_compressor(c: &mut deflate::core::CompressorOxide)
    ensures
        compressor_is_fresh(*final(c)),
        compressor_flags(*final(c)) == compressor_flags(*old(c)),
{
    c.reset();
}

/// `miniz_oxide::deflate::core::compress` with `TDEFLFlush::Finish`, on
/// a fresh compressor. The contract claims that the output buffer keeps
/// its length, that the flag word is unchanged, and that the report is
/// the one named by `deflate_outcome`. Of the compressor's state after
/// the call it claims nothing.
#[verifier::external_body]
fn deflate_finish(c: &mut deflate::core::CompressorOxide, input: &[u8], out: &mut Vec<u8>) -> (r: DeflateOutcome)
    requires
        compressor_is_fresh(*old(c)),
    ensures
        final(out)@.len() == old(out)@.len(),
        compressor_flags(*final(c)) == compressor_flags(*old(c)),
        r == deflate_outcome(compressor_flags(*old(c)), input@, old(out)@.len()),
{
    let (status, consumed, produced) = deflate::core::compress(
        c,
        input,
        out.as_mut_slice(),
        deflate::core::TDEFLFlush::Finish,
    );
    let status = match status {
        deflate::core::TDEFLStatus::BadParam => DeflateStatus::BadParam,
        deflate::core::TDEFLStatus::PutBufFailed => DeflateStatus::PutBufFailed,
        deflate::core::TDEFLStatus::Okay => DeflateStatus::Okay,
        deflate::core::TDEFLStatus::Done => DeflateStatus::Done,
    };
    DeflateOutcome { status, consumed, produced }
}

/// The size that an outcome stands for: the number of bytes written, when
/// the stream is complete and took all of the input.
pub open spec fn outcome_size(o: DeflateOutcome, input_len: nat) -> Result<u64, NcdError> {
    if o.status == DeflateStatus::Done && o.consumed == input_len {
        Ok(o.produced as u64)
    } else {
        Err(NcdError::CompressionOverflow)
    }
}

/// Reads the compressed size off the report of a compression call on an
/// input of `input_len` bytes. A report that is not of a complete stream
/// over the whole input is an overflow of the output buffer.
pub fn size_of_outcome(o: DeflateOutcome, input_len: usize) -> (r: Result<u64, NcdError>)
    ensures
        r == outcome_size(o, input_len as nat),
{
    match o.status {
        DeflateStatus::Done => {
            if o.consumed == input_len {
                Ok(o.produced as u64)
            } else {
                Err(NcdError::CompressionOverflow)
            }
        },
        _ => Err(NcdError::CompressionOverflow),
    }
}

/// The compressed size of `input` as a compressor with the given flags and
/// an output buffer of `capacity` bytes measures it. The empty sequence
/// occupies nothing; any other is as large as its complete stream, and
/// overflows where that stream does not fit the buffer.
pub open spec fn measured_size(flags: int, input: Seq<u8>, capacity: nat) -> Result<u64, NcdError> {
    if input.len() == 0 {
        Ok(0)
    } else {
        outcome_size(deflate_outcome(flags, input, capacity), input.len())
    }
}

/// One compressor and its scratch output buffer.
pub struct CompressorSlot {
    compressor: Box<deflate::core::CompressorOxide>,
    buffer: Vec<u8>,
}

impl CompressorSlot {
    /// The flag word of the slot's compressor.
    pub closed spec fn flags(&self) -> int {
        compressor_flags(*self.compressor)
    }

    /// The number of bytes that the scratch buffer holds.
    pub closed spec fn capacity(&self) -> nat {
        self.buffer@.len()
    }

    /// A slot with a default compressor and a scratch buffer of `capacity`
    /// bytes.
    pub fn new(capacity: usize) -> (slot: Self)
        ensures
            slot.flags() == DEFAULT_FLAGS,
            slot.capacity() == capacity,
    {
        let mut buffer: Vec<u8> = Vec::new();
        let mut filled: usize = 0;
        while filled < capacity
            invariant
                filled <= capacity,
                buffer@.len() == filled,
            decreases capacity - filled,
        {
            buffer.push(0u8);
            filled = filled + 1;
        }
        CompressorSlot { compressor: new_compressor(), buffer }
    }

    /// The number of bytes that the scratch buffer holds.
    pub fn buffer_len(&self) -> (n: usize)
        ensures
            n == self.capacity(),
    {
        self.buffer.len()
    }

    /// Measures the compressed size of `bytes`. The compressor is reset
    /// first, so nothing of an earlier call reaches this one; the slot
    /// keeps its configuration.
    pub fn measure(&mut self, bytes: &[u8]) -> (r: Result<u64, NcdError>)
        ensures
            final(self).flags() == old(self).flags(),
            final(self).capacity() == old(self).capacity(),
            r == measured_size(old(self).flags(), bytes@, old(self).capacity()),
    {
        if bytes.len() == 0 {
            return Ok(0);
        }
        reset_compressor(&mut self.compressor);
        let outcome = deflate_finish(&mut self.compressor, bytes, &mut self.buffer);
        size_of_outcome(outcome, bytes.len())
    }
}

} // verus!
