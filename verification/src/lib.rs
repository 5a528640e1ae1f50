//! Incremental, interruptible compression for small devices.
//!
//! Input bytes pass through a sliding-window match finder, a fixed
//! byte-aligned prefix code and a bit packer. A session may be driven in as
//! many short calls as the caller likes; its state lives in the compressor
//! between calls. The stream that a session writes depends on the bytes it
//! was fed and on nothing else: however the input is cut into slices, the
//! slices' output, put together, is the stream of one call on the whole
//! input. To that end a session lets the newest bytes of a slice wait, up to
//! the length of the longest match, until more bytes or the end of the
//! session settle their tokens, so the output of a slice may lag behind its
//! input.
//!
//! # Stream layout
//!
//! Bits are packed least-significant-bit first. The code is fixed and every
//! codeword is a whole number of bytes:
//!
//! | symbol                     | codeword                                      |
//! |----------------------------|-----------------------------------------------|
//! | literal `b`, `b != 0xFF`   | `b`                                           |
//! | literal `0xFF`             | `0xFF 0x00`                                   |
//! | end of stream              | `0xFF 0x01`                                   |
//! | match (`length`, `distance`) | `0xFF 0x02`, `length - 3`, `distance - 1` as two bytes, low byte first |
//!
//! A stream that ends without the end-of-stream codeword is read as complete.
use vstd::prelude::*;
use std::time::Duration;
use crate::clock::{clock_elapsed, clock_start, duration_nanos};
use crate::deflate::{
    chunk_outcome, chunk_stream, counters_fit, decode_from, inflate_outcome, Decoded, DeflateView, InflateView,
};
use crate::lz77::Lz77View;

pub mod bitstream;
pub mod lz77;
pub mod huffman;
pub mod deflate;
pub mod clock;
pub mod session;

pub use crate::deflate::{DeflateState, InflateState};

verus! {

/// What can go wrong in a compression or decompression call.
#[derive(Debug, Clone, Copy, PartialEq, Eq, Structural)]
pub enum TrickleError {
    /// The input ends in the middle of a codeword.
    InsufficientInput,
    /// The output buffer is too small for what the call has to write.
    InsufficientOutput,
    /// The data is not a stream of this format.
    InvalidData,
    /// The operation is not yet complete.
    NeedsMoreWork,
    /// The time budget was used up before the call could start its work.
    TimeoutExceeded,
}

/// Compression level, from 0 (none) to 9 (best). The level is a label that
/// travels with a configuration; the limits that the match finder works
/// under are the three fields beside it.
#[derive(Debug, Clone, Copy)]
pub struct CompressionLevel(u8);

impl CompressionLevel {
    /// Level 0, the lowest.
    pub fn none() -> (l: Self)
        ensures
            l.level() == 0,
    {
        CompressionLevel(0)
    }

    /// Level 1, for speed.
    pub fn fast() -> (l: Self)
        ensures
            l.level() == 1,
    {
        CompressionLevel(1)
    }

    /// Level 6, the default.
    pub fn balanced() -> (l: Self)
        ensures
            l.level() == 6,
    {
        CompressionLevel(6)
    }

    /// Level 9, the highest.
    pub fn best() -> (l: Self)
        ensures
            l.level() == 9,
    {
        CompressionLevel(9)
    }

    /// The level as a number.
    pub closed spec fn level(&self) -> u8 {
        self.0
    }

    /// The level for a number; a number above 9 gives level 9.
    pub fn new(level: u8) -> (l: Self)
        ensures
            l.level() == (if level < 9 { level } else { 9 }),
    {
        CompressionLevel(if level < 9 { level } else { 9 })
    }

    /// The level as a number.
    pub fn value(&self) -> (v: u8)
        ensures
            v == self.level(),
    {
        self.0
    }
}

/// What a session is set up with.
#[derive(Debug, Clone, Copy)]
pub struct CompressionConfig {
    pub level: CompressionLevel,
    /// Bytes of history that a match may point back into.
    pub window_size: usize,
    /// The longest match that is looked for.
    pub max_lazy_match: usize,
    /// The number of distances that are probed at each position.
    pub max_chain_length: usize,
}

impl CompressionConfig {
    /// The match finder of a session at its start.
    pub open spec fn start(&self) -> Lz77View {
        Lz77View {
            window_size: self.window_size as nat,
            max_lazy_match: self.max_lazy_match as nat,
            max_chain_length: self.max_chain_length as nat,
            window: Seq::empty(),
            pending: Seq::empty(),
        }
    }
}

/// The match finder that the default configuration starts with.
pub open spec fn default_start() -> Lz77View {
    Lz77View {
        window_size: 32768,
        max_lazy_match: 258,
        max_chain_length: 256,
        window: Seq::empty(),
        pending: Seq::empty(),
    }
}

impl Default for CompressionConfig {
    fn default() -> (c: Self)
        ensures
            c.level.level() == 6,
            c.window_size == 32768,
            c.max_lazy_match == 258,
            c.max_chain_length == 256,
            c.start() == default_start(),
    {
        CompressionConfig {
            level: CompressionLevel::balanced(),
            window_size: 32768,
            max_lazy_match: 258,
            max_chain_length: 256,
        }
    }
}

/// The counters of a session.
#[derive(Debug, Clone, Copy)]
pub struct CompressionStats {
    /// Input bytes taken so far.
    pub bytes_processed: usize,
    /// Stream bytes written so far.
    pub bytes_output: usize,
}

/// A session at its start.
pub open spec fn fresh_session(start: Lz77View) -> DeflateView {
    DeflateView { lz77: start, bytes_processed: 0, bytes_output: 0, finished: false }
}

/// A compressor: a configuration and the session that runs under it.
pub struct TrickleCompressor {
    config: CompressionConfig,
    state: DeflateState,
}

impl View for TrickleCompressor {
    type V = DeflateView;

    closed spec fn view(&self) -> DeflateView {
        self.state@
    }
}

impl TrickleCompressor {
    /// The session's state is valid.
    pub closed spec fn wf(&self) -> bool {
        self.state.wf()
    }

    /// The configuration that the compressor was made with.
    pub closed spec fn configured(&self) -> CompressionConfig {
        self.config
    }

    /// A compressor with the default configuration.
    pub fn new() -> (c: Self)
        ensures
            c.wf(),
            c@ == fresh_session(default_start()),
    {
        TrickleCompressor::with_config(CompressionConfig::default())
    }

    /// A compressor with the given configuration.
    pub fn with_config(config: CompressionConfig) -> (c: Self)
        ensures
            c.wf(),
            c.configured() == config,
            c@ == fresh_session(config.start()),
    {
        TrickleCompressor { state: DeflateState::new(&config), config }
    }

    /// The configuration that the compressor was made with.
    pub fn config(&self) -> (c: &CompressionConfig)
        ensures
            *c == self.configured(),
    {
        &self.config
    }

    /// Compresses one slice to the front of `output` and reports the bytes
    /// taken, the bytes written and whether the session has ended. The
    /// slice is always taken whole; the bytes written are those of the
    /// tokens that are settled by now, and with `finish` all that are left
    /// and the end codeword. Where `output` is too small, as an empty one is
    /// for any slice that holds a byte, the call fails and the compressor
    /// stays as it was.
    pub fn compress_trickle(&mut self, input: &[u8], output: &mut [u8], finish: bool) -> (r: Result<
        (usize, usize, bool),
        TrickleError,
    >)
        requires
            old(self).wf(),
            counters_fit(old(self)@, input@, old(output)@, finish),
        ensures
            final(self).wf(),
            final(self)@.lz77.wf(),
            final(self).configured() == old(self).configured(),
            chunk_outcome(old(self)@, input@, old(output)@, finish, r, final(self)@, final(output)@),
            !old(self)@.finished && input@.len() > 0 && old(output)@.len() == 0 ==> r == Err::<
                (usize, usize, bool),
                TrickleError,
            >(TrickleError::InsufficientOutput) && final(self)@ == old(self)@,
    {
        self.state.compress_chunk(input, output, finish)
    }

    /// One attempt under a time budget, with the time spent so far given:
    /// with the budget used up the call fails and nothing changes, else the
    /// slice is compressed as by `compress_trickle`.
    pub fn compress_within(
        &mut self,
        input: &[u8],
        output: &mut [u8],
        finish: bool,
        elapsed_nanos: u128,
        limit_nanos: u128,
    ) -> (r: Result<(usize, usize, bool), TrickleError>)
        requires
            old(self).wf(),
            elapsed_nanos < limit_nanos ==> counters_fit(old(self)@, input@, old(output)@, finish),
        ensures
            final(self).wf(),
            final(self).configured() == old(self).configured(),
            elapsed_nanos >= limit_nanos ==> {
                &&& r == Err::<(usize, usize, bool), TrickleError>(TrickleError::TimeoutExceeded)
                &&& final(self)@ == old(self)@
                &&& final(output)@ == old(output)@
            },
            elapsed_nanos < limit_nanos ==> chunk_outcome(
                old(self)@,
                input@,
                old(output)@,
                finish,
                r,
                final(self)@,
                final(output)@,
            ),
    {
        if elapsed_nanos >= limit_nanos {
            return Err(TrickleError::TimeoutExceeded);
        }
        self.compress_trickle(input, output, finish)
    }

    /// Compresses one slice under a time budget. The clock is read before
    /// each attempt; an attempt that has begun is not cut short. Either the
    /// budget was used up, the call fails and nothing has changed, or the
    /// slice was compressed as by `compress_trickle`.
    pub fn compress_timed(
        &mut self,
        input: &[u8],
        output: &mut [u8],
        finish: bool,
        time_limit: Duration,
    ) -> (r: Result<(usize, usize, bool), TrickleError>)
        requires
            old(self).wf(),
            counters_fit(old(self)@, input@, old(output)@, finish),
        ensures
            final(self).wf(),
            final(self).configured() == old(self).configured(),
            ({
                &&& r == Err::<(usize, usize, bool), TrickleError>(TrickleError::TimeoutExceeded)
                &&& final(self)@ == old(self)@
                &&& final(output)@ == old(output)@
            }) || chunk_outcome(old(self)@, input@, old(output)@, finish, r, final(self)@, final(output)@),
    {
        let start = clock_start();
        let limit: u128 = duration_nanos(&time_limit);
        loop
            invariant
                self.wf(),
                self.configured() == old(self).configured(),
                self@ == old(self)@,
                output@ == old(output)@,
                counters_fit(self@, input@, output@, finish),
            decreases 0int,
        {
            let spent = clock_elapsed(&start);
            let elapsed: u128 = duration_nanos(&spent);
            let r = self.compress_within(input, output, finish, elapsed, limit);
            match r {
                Err(TrickleError::NeedsMoreWork) => {},
                _ => {
                    return r;
                },
            }
            // No attempt asks for another: every pass through the loop ends the call.
            assert(false);
        }
    }

    /// Drops the session and starts a new one under the same configuration.
    pub fn reset(&mut self)
        ensures
            final(self).wf(),
            final(self).configured() == old(self).configured(),
            final(self)@ == fresh_session(old(self).configured().start()),
    {
        self.state = DeflateState::new(&self.config);
    }

    /// The counters of the session.
    pub fn stats(&self) -> (s: CompressionStats)
        ensures
            s.bytes_processed == self@.bytes_processed,
            s.bytes_output == self@.bytes_output,
    {
        self.state.stats()
    }
}

impl Default for TrickleCompressor {
    fn default() -> (c: Self)
        ensures
            c.wf(),
            c@ == fresh_session(default_start()),
    {
        TrickleCompressor::new()
    }
}

/// Compresses `input` in one call to the front of `output` and gives the
/// length of the stream. Where the stream does not fit, `output` stays as it
/// was.
pub fn compress(input: &[u8], output: &mut [u8]) -> (r: Result<usize, TrickleError>)
    ensures
        ({
            let stream = chunk_stream(default_start(), input@, true);
            if stream.len() > old(output)@.len() {
                &&& r == Err::<usize, TrickleError>(TrickleError::InsufficientOutput)
                &&& final(output)@ == old(output)@
            } else {
                &&& r == Ok::<usize, TrickleError>(stream.len() as usize)
                &&& final(output)@ == stream + old(output)@.subrange(
                    stream.len() as int,
                    old(output)@.len() as int,
                )
            }
        }),
{
    let mut compressor = TrickleCompressor::new();
    // A fresh session has counted nothing, so a slice and a buffer of any length are in order.
    let _given: usize = input.len();
    let _room: usize = output.len();
    match compressor.compress_trickle(input, output, true) {
        Ok((_, written, _)) => Ok(written),
        Err(e) => Err(e),
    }
}

/// Reads a whole stream in one call, writes what it stands for to the front
/// of `output` and gives its length.
pub fn decompress(input: &[u8], output: &mut [u8]) -> (r: Result<usize, TrickleError>)
    ensures
        final(output)@.len() == old(output)@.len(),
        match decode_from(input@, 0, Seq::empty(), old(output)@.len()) {
            Decoded::Done { consumed, data, ended } => {
                &&& r == Ok::<usize, TrickleError>(data.len() as usize)
                &&& final(output)@ == data + old(output)@.subrange(
                    data.len() as int,
                    old(output)@.len() as int,
                )
            },
            Decoded::Full { consumed, data } => r == Err::<usize, TrickleError>(
                TrickleError::InsufficientOutput,
            ),
            Decoded::Failed(e) => r == Err::<usize, TrickleError>(e),
        },
{
    let mut decompressor = TrickleDecompressor::new();
    match decompressor.decompress_trickle(input, output) {
        Ok((_, written, finished)) => {
            if finished {
                proof {
                    let got = decode_from(input@, 0, Seq::empty(), old(output)@.len());
                    if let Decoded::Done { consumed, data, ended } = got {
                        assert(data.subrange(0, data.len() as int) =~= data);
                    }
                }
                Ok(written)
            } else {
                Err(TrickleError::InsufficientOutput)
            }
        },
        Err(e) => Err(e),
    }
}

/// A decompressor: one decompressing session.
pub struct TrickleDecompressor {
    state: InflateState,
}

impl View for TrickleDecompressor {
    type V = InflateView;

    closed spec fn view(&self) -> InflateView {
        self.state@
    }
}

impl TrickleDecompressor {
    /// A decompressor at the start of a stream.
    pub fn new() -> (d: Self)
        ensures
            d@ == (InflateView { history: Seq::empty(), finished: false }),
    {
        TrickleDecompressor { state: InflateState::new() }
    }

    /// Reads codewords from `input` and writes what they stand for to the
    /// front of `output`; reports the bytes taken, the bytes written, and
    /// whether the stream was read to the end of what was given.
    pub fn decompress_trickle(&mut self, input: &[u8], output: &mut [u8]) -> (r: Result<
        (usize, usize, bool),
        TrickleError,
    >)
        ensures
            inflate_outcome(old(self)@, input@, old(output)@, r, final(self)@, final(output)@),
    {
        self.state.decompress_chunk(input, output)
    }

    /// Drops the session and starts at the beginning of a new stream.
    pub fn reset(&mut self)
        ensures
            final(self)@ == (InflateView { history: Seq::empty(), finished: false }),
    {
        self.state = InflateState::new();
    }
}

impl Default for TrickleDecompressor {
    fn default() -> (d: Self)
        ensures
            d@ == (InflateView { history: Seq::empty(), finished: false }),
    {
        TrickleDecompressor::new()
    }
}

} // verus!
