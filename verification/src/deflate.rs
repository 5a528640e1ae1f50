//! The two session state machines: the compressing pipeline, which runs the
//! match finder, the coder and the bit packer over one slice at a time, and
//! its inverse.
use vstd::prelude::*;
use crate::bitstream::{lemma_put_bytes, BitWriter};
use crate::huffman::{all_encodable, codes, encodable, end_code, HuffmanCoder};
use crate::lz77::{copy_back, token_valid, Lz77Encoder, Lz77View};
use crate::{CompressionConfig, CompressionStats, TrickleError};

verus! {

/// The bytes that one slice adds to the stream: the codewords of the tokens
/// that it brings out, and the end codeword where the slice is the last.
pub open spec fn chunk_stream(v: Lz77View, input: Seq<u8>, finish: bool) -> Seq<u8> {
    codes(v.tokens_of(input, finish)) + (if finish {
        end_code()
    } else {
        Seq::empty()
    })
}

/// A compressing session as a value.
pub struct DeflateView {
    pub lz77: Lz77View,
    pub bytes_processed: nat,
    pub bytes_output: nat,
    pub finished: bool,
}

/// The session after a slice went through.
pub open spec fn after_chunk(s: DeflateView, input: Seq<u8>, finish: bool) -> DeflateView {
    DeflateView {
        lz77: s.lz77.after(input, finish),
        bytes_processed: s.bytes_processed + input.len(),
        bytes_output: s.bytes_output + chunk_stream(s.lz77, input, finish).len(),
        finished: finish,
    }
}

/// What a call on one slice comes to, from the session `before` and the
/// buffer `room` to the result `r`, the session `after` and the buffer `out`.
///
/// A session that has ended takes and writes nothing. Else the slice's bytes
/// of the stream either fit the buffer, are written to its front, and the
/// session moves on; or they do not fit, the call fails, and nothing changes.
/// A buffer without any room does not fit a slice that holds a byte.
pub open spec fn chunk_outcome(
    before: DeflateView,
    input: Seq<u8>,
    room: Seq<u8>,
    finish: bool,
    r: Result<(usize, usize, bool), TrickleError>,
    after: DeflateView,
    out: Seq<u8>,
) -> bool {
    let stream = chunk_stream(before.lz77, input, finish);
    if before.finished {
        &&& r == Ok::<(usize, usize, bool), TrickleError>((0usize, 0usize, true))
        &&& after == before
        &&& out == room
    } else if stream.len() > room.len() || (input.len() > 0 && room.len() == 0) {
        &&& r == Err::<(usize, usize, bool), TrickleError>(TrickleError::InsufficientOutput)
        &&& after == before
        &&& out == room
    } else {
        &&& r == Ok::<(usize, usize, bool), TrickleError>((input.len() as usize, stream.len() as usize, finish))
        &&& after == after_chunk(before, input, finish)
        &&& out == stream + room.subrange(stream.len() as int, room.len() as int)
    }
}

/// Whether the two counters have room for what a call adds to them. A call
/// that takes nothing in, because the session has ended or the buffer is
/// too small, asks nothing of them.
pub open spec fn counters_fit(s: DeflateView, input: Seq<u8>, room: Seq<u8>, finish: bool) -> bool {
    let stream = chunk_stream(s.lz77, input, finish);
    (!s.finished && stream.len() <= room.len() && !(input.len() > 0 && room.len() == 0)) ==> {
        &&& s.bytes_processed + input.len() <= usize::MAX
        &&& s.bytes_output + stream.len() <= usize::MAX
    }
}

/// The state of a compressing session.
pub struct DeflateState {
    lz77: Lz77Encoder,
    huffman: HuffmanCoder,
    bit_writer: BitWriter,
    bytes_processed: usize,
    bytes_output: usize,
    finished: bool,
}

impl View for DeflateState {
    type V = DeflateView;

    closed spec fn view(&self) -> DeflateView {
        DeflateView {
            lz77: self.lz77@,
            bytes_processed: self.bytes_processed as nat,
            bytes_output: self.bytes_output as nat,
            finished: self.finished,
        }
    }
}

impl DeflateState {
    /// The window is within its capacity, and the packer holds nothing
    /// between calls.
    pub closed spec fn wf(&self) -> bool {
        self.lz77@.wf() && self.bit_writer@.wf() && self.bit_writer@.is_empty()
    }

    /// A session at its start.
    pub fn new(config: &CompressionConfig) -> (s: Self)
        ensures
            s.wf(),
            s@.lz77.wf(),
            s@ == (DeflateView {
                lz77: config.start(),
                bytes_processed: 0,
                bytes_output: 0,
                finished: false,
            }),
    {
        DeflateState {
            lz77: Lz77Encoder::new(config.window_size, config.max_lazy_match, config.max_chain_length),
            huffman: HuffmanCoder::new(),
            bit_writer: BitWriter::new(),
            bytes_processed: 0,
            bytes_output: 0,
            finished: false,
        }
    }

    /// Compresses one slice to the front of `output` and reports the bytes
    /// taken, the bytes written and whether the session has ended. The
    /// codewords written are those of the tokens that the slice settles; with
    /// `finish` every byte gets its token, the end codeword follows and the
    /// session ends. A session that has ended takes and writes nothing. Where
    /// `output` is too small for what the slice brings out, or has no room at
    /// all for a slice that holds a byte, nothing is taken, written or
    /// changed.
    pub fn compress_chunk(&mut self, input: &[u8], output: &mut [u8], finish: bool) -> (r: Result<
        (usize, usize, bool),
        TrickleError,
    >)
        requires
            old(self).wf(),
            counters_fit(old(self)@, input@, old(output)@, finish),
        ensures
            final(self).wf(),
            final(self)@.lz77.wf(),
            chunk_outcome(old(self)@, input@, old(output)@, finish, r, final(self)@, final(output)@),
            !old(self)@.finished && input@.len() > 0 && old(output)@.len() == 0 ==> r == Err::<
                (usize, usize, bool),
                TrickleError,
            >(TrickleError::InsufficientOutput) && final(self)@ == old(self)@,
    {
        if self.finished {
            return Ok((0, 0, true));
        }
        if input.len() > 0 && output.len() == 0 {
            return Err(TrickleError::InsufficientOutput);
        }
        let work = self.lz77.gather(input);
        let hold: usize = self.lz77.hold(finish);
        let (tokens, taken) = self.lz77.scan(work.as_slice(), hold);
        assert(all_encodable(tokens@)) by {
            assert forall|i: int| 0 <= i < tokens@.len() implies encodable(#[trigger] tokens@[i]) by {
                assert(token_valid(self.lz77@, tokens@[i]));
            }
        }
        let mut coded: Vec<u8> = match self.huffman.encode_tokens(tokens.as_slice()) {
            Ok(c) => c,
            Err(e) => {
                return Err(e);
            },
        };
        if finish {
            let end = self.huffman.end_marker();
            coded.extend_from_slice(end.as_slice());
        } else {
            assert(coded@ =~= coded@ + Seq::<u8>::empty());
        }
        assert(coded@ == chunk_stream(self@.lz77, input@, finish));
        proof {
            lemma_put_bytes(self.bit_writer@, coded@);
            assert(self.bit_writer@.bytes + coded@ =~= coded@);
        }
        let written: usize = match self.bit_writer.write_to_buffer(coded.as_slice(), output) {
            Ok(n) => n,
            Err(e) => {
                return Err(e);
            },
        };
        self.lz77.commit(work.as_slice(), taken);
        self.bytes_processed = self.bytes_processed + input.len();
        self.bytes_output = self.bytes_output + written;
        self.finished = finish;
        Ok((input.len(), written, finish))
    }

    /// The counters of the session.
    pub fn stats(&self) -> (s: CompressionStats)
        ensures
            s.bytes_processed == self@.bytes_processed,
            s.bytes_output == self@.bytes_output,
    {
        CompressionStats { bytes_processed: self.bytes_processed, bytes_output: self.bytes_output }
    }
}

/// What reading a stream comes to.
pub enum Decoded {
    /// The stream was read to its end: to the end codeword (`ended`) or to
    /// the last byte of the input.
    Done { consumed: nat, data: Seq<u8>, ended: bool },
    /// The next codeword stands for more bytes than there is room for.
    Full { consumed: nat, data: Seq<u8> },
    /// The stream is cut short or is none.
    Failed(TrickleError),
}

/// Reads the codewords of `input` from place `i` on. `data` holds every byte
/// that the stream has given so far and may grow to `limit` bytes.
pub open spec fn decode_from(input: Seq<u8>, i: int, data: Seq<u8>, limit: nat) -> Decoded
    decreases input.len() - i,
{
    if i < 0 || i >= input.len() {
        Decoded::Done { consumed: input.len(), data, ended: false }
    } else if input[i] != 0xFF {
        if data.len() >= limit {
            Decoded::Full { consumed: i as nat, data }
        } else {
            decode_from(input, i + 1, data.push(input[i]), limit)
        }
    } else if i + 1 >= input.len() {
        Decoded::Failed(TrickleError::InsufficientInput)
    } else if input[i + 1] == 0 {
        if data.len() >= limit {
            Decoded::Full { consumed: i as nat, data }
        } else {
            decode_from(input, i + 2, data.push(0xFF), limit)
        }
    } else if input[i + 1] == 1 {
        Decoded::Done { consumed: (i + 2) as nat, data, ended: true }
    } else if input[i + 1] == 2 {
        if i + 5 > input.len() {
            Decoded::Failed(TrickleError::InsufficientInput)
        } else {
            let len: nat = (input[i + 2] + 3) as nat;
            let dist: nat = (input[i + 3] + 256 * input[i + 4] + 1) as nat;
            if dist > data.len() {
                Decoded::Failed(TrickleError::InvalidData)
            } else if data.len() + len > limit {
                Decoded::Full { consumed: i as nat, data }
            } else {
                decode_from(input, i + 5, copy_back(data, dist, len), limit)
            }
        }
    } else {
        Decoded::Failed(TrickleError::InvalidData)
    }
}

/// Copying back adds exactly the bytes asked for.
pub proof fn lemma_copy_back_len(data: Seq<u8>, dist: nat, len: nat)
    requires
        1 <= dist <= data.len(),
    ensures
        copy_back(data, dist, len).len() == data.len() + len,
        copy_back(data, dist, len).subrange(0, data.len() as int) == data,
    decreases len,
{
    if len > 0 {
        let next = data.push(data[data.len() - dist]);
        lemma_copy_back_len(next, dist, (len - 1) as nat);
        assert(copy_back(data, dist, len).subrange(0, data.len() as int) =~= copy_back(
            next,
            dist,
            (len - 1) as nat,
        ).subrange(0, next.len() as int).subrange(0, data.len() as int));
        assert(next.subrange(0, data.len() as int) =~= data);
    } else {
        assert(data.subrange(0, data.len() as int) =~= data);
    }
}

/// A decompressing session as a value: every byte that the stream has given,
/// and whether its end codeword was read.
pub struct InflateView {
    pub history: Seq<u8>,
    pub finished: bool,
}

/// What a call on one piece of a stream comes to, from the session `before`
/// and the buffer `room` to the result `r`, the session `after` and the
/// buffer `out`.
///
/// A session that has read the end codeword takes and writes nothing. Else
/// the bytes that were read out stand at the front of the buffer and behind
/// what the session held; on an error the session is as it was.
pub open spec fn inflate_outcome(
    before: InflateView,
    input: Seq<u8>,
    room: Seq<u8>,
    r: Result<(usize, usize, bool), TrickleError>,
    after: InflateView,
    out: Seq<u8>,
) -> bool {
    let held = before.history;
    &&& out.len() == room.len()
    &&& if before.finished {
        &&& r == Ok::<(usize, usize, bool), TrickleError>((0usize, 0usize, true))
        &&& after == before
        &&& out == room
    } else {
        match decode_from(input, 0, held, held.len() + room.len()) {
            Decoded::Done { consumed, data, ended } => {
                &&& r matches Ok(t) && t.0 == consumed && t.1 == data.len() - held.len() && t.2
                &&& after == (InflateView { history: data, finished: ended })
                &&& data.len() >= held.len()
                &&& out == data.subrange(held.len() as int, data.len() as int) + room.subrange(
                    data.len() - held.len(),
                    room.len() as int,
                )
            },
            Decoded::Full { consumed, data } => {
                &&& r matches Ok(t) && t.0 == consumed && t.1 == data.len() - held.len() && !t.2
                &&& after == (InflateView { history: data, finished: false })
                &&& data.len() >= held.len()
                &&& out == data.subrange(held.len() as int, data.len() as int) + room.subrange(
                    data.len() - held.len(),
                    room.len() as int,
                )
            },
            Decoded::Failed(e) => {
                &&& r == Err::<(usize, usize, bool), TrickleError>(e)
                &&& after == before
            },
        }
    }
}

/// The state of a decompressing session.
pub struct InflateState {
    finished: bool,
    history: Vec<u8>,
}

impl View for InflateState {
    type V = InflateView;

    closed spec fn view(&self) -> InflateView {
        InflateView { history: self.history@, finished: self.finished }
    }
}

impl InflateState {
    /// A session at its start.
    pub fn new() -> (s: Self)
        ensures
            s@ == (InflateView { history: Seq::empty(), finished: false }),
    {
        InflateState { finished: false, history: Vec::new() }
    }

    /// Reads codewords from `input` and writes the bytes that they stand for
    /// to the front of `output`, until the stream ends, the input is used up,
    /// or the next codeword stands for more than `output` has room for.
    /// Reports the bytes taken, the bytes written, and whether the stream was
    /// read to the end of what was given. Once the end codeword has been read
    /// the session takes and writes nothing. On an error the session is as it
    /// was.
    pub fn decompress_chunk(&mut self, input: &[u8], output: &mut [u8]) -> (r: Result<
        (usize, usize, bool),
        TrickleError,
    >)
        ensures
            inflate_outcome(old(self)@, input@, old(output)@, r, final(self)@, final(output)@),
    {
        if self.finished {
            return Ok((0, 0, true));
        }
        let ghost before = self.history@;
        let ghost out0 = output@;
        let h0: usize = self.history.len();
        let n: usize = input.len();
        let room: usize = output.len();
        let ghost limit: nat = (h0 + room) as nat;
        let ghost goal = decode_from(input@, 0, before, limit);
        let mut i: usize = 0;
        let mut written: usize = 0;
        assert(self.history@.subrange(0, h0 as int) =~= before);
        assert(output@ =~= self.history@.subrange(h0 as int, h0 as int) + out0.subrange(0, room as int));
        while i < n
            invariant
                n == input@.len(),
                room == output@.len(),
                out0 == old(output)@,
                out0.len() == room,
                limit == h0 + room,
                h0 == before.len(),
                before == old(self)@.history,
                !old(self)@.finished,
                goal == decode_from(input@, 0, before, limit),
                i <= n,
                written <= room,
                !self.finished,
                self.history@.len() == h0 + written,
                self.history@.subrange(0, h0 as int) == before,
                decode_from(input@, i as int, self.history@, limit) == goal,
                output@ == self.history@.subrange(h0 as int, h0 + written) + out0.subrange(
                    written as int,
                    room as int,
                ),
            decreases n - i,
        {
            let b: u8 = input[i];
            if b != 0xFF {
                if written >= room {
                    return Ok((i, written, false));
                }
                let ghost held = self.history@;
                self.history.push(b);
                output[written] = b;
                written += 1;
                i += 1;
                assert(self.history@.subrange(0, h0 as int) =~= held.subrange(0, h0 as int));
                assert(output@ =~= self.history@.subrange(h0 as int, h0 + written) + out0.subrange(
                    written as int,
                    room as int,
                ));
            } else if i + 1 >= n {
                self.history.truncate(h0);
                return Err(TrickleError::InsufficientInput);
            } else {
                let tag: u8 = input[i + 1];
                if tag == 0 {
                    if written >= room {
                        return Ok((i, written, false));
                    }
                    let ghost held = self.history@;
                    self.history.push(0xFF);
                    output[written] = 0xFF;
                    written += 1;
                    i += 2;
                    assert(self.history@.subrange(0, h0 as int) =~= held.subrange(0, h0 as int));
                    assert(output@ =~= self.history@.subrange(h0 as int, h0 + written) + out0.subrange(
                        written as int,
                        room as int,
                    ));
                } else if tag == 1 {
                    self.finished = true;
                    return Ok((i + 2, written, true));
                } else if tag == 2 {
                    if n - i < 5 {
                        self.history.truncate(h0);
                        return Err(TrickleError::InsufficientInput);
                    }
                    let len: usize = input[i + 2] as usize + 3;
                    let low: usize = input[i + 3] as usize;
                    let high: usize = input[i + 4] as usize;
                    let dist: usize = low + 256 * high + 1;
                    if dist > self.history.len() {
                        self.history.truncate(h0);
                        return Err(TrickleError::InvalidData);
                    }
                    if len > room - written {
                        return Ok((i, written, false));
                    }
                    let ghost base = self.history@;
                    let ghost w0 = written;
                    let mut k: usize = 0;
                    while k < len
                        invariant
                            room == output@.len(),
                            out0.len() == room,
                            h0 == before.len(),
                            k <= len,
                            w0 + len <= room,
                            !self.finished,
                            written == w0 + k,
                            1 <= dist <= self.history@.len(),
                            self.history@.len() == h0 + written,
                            self.history@.subrange(0, h0 as int) == before,
                            copy_back(self.history@, dist as nat, (len - k) as nat) == copy_back(
                                base,
                                dist as nat,
                                len as nat,
                            ),
                            output@ == self.history@.subrange(h0 as int, h0 + written) + out0.subrange(
                                written as int,
                                room as int,
                            ),
                        decreases len - k,
                    {
                        let ghost held = self.history@;
                        let c: u8 = self.history[self.history.len() - dist];
                        self.history.push(c);
                        output[written] = c;
                        written += 1;
                        k += 1;
                        assert(self.history@.subrange(0, h0 as int) =~= held.subrange(0, h0 as int));
                        assert(output@ =~= self.history@.subrange(h0 as int, h0 + written)
                            + out0.subrange(written as int, room as int));
                    }
                    i += 5;
                } else {
                    self.history.truncate(h0);
                    return Err(TrickleError::InvalidData);
                }
            }
        }
        Ok((i, written, true))
    }
}

} // verus!
