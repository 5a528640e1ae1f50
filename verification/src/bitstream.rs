//! Bit packer: collects bit fields, least significant bit first, into bytes.
use vstd::prelude::*;
use crate::TrickleError;

verus! {

/// The low `width` bits of `value`; all of it from 32 bits on.
pub open spec fn low_bits(value: u32, width: nat) -> u64 {
    if width >= 32 {
        value as u64
    } else {
        (value as u64) & (((1u64 << (width as u64)) - 1) as u64)
    }
}

/// The complete bytes at the low end of an accumulator that holds `count` bits.
pub open spec fn drained_bytes(acc: u64, count: nat) -> Seq<u8>
    decreases count,
{
    if count < 8 {
        Seq::empty()
    } else {
        seq![(acc & 0xff) as u8] + drained_bytes(acc >> 8, (count - 8) as nat)
    }
}

/// What is left of the accumulator once its complete bytes are taken out.
pub open spec fn drained_rest(acc: u64, count: nat) -> u64
    decreases count,
{
    if count < 8 {
        acc
    } else {
        drained_rest(acc >> 8, (count - 8) as nat)
    }
}

/// The packer as a value: the pending bits, how many they are, and the bytes
/// that are complete but not yet handed out.
pub struct BitWriterView {
    pub pending: u64,
    pub count: nat,
    pub bytes: Seq<u8>,
}

impl BitWriterView {
    /// Fewer than eight bits are pending, and nothing is set above them.
    pub open spec fn wf(self) -> bool {
        self.count < 8 && self.pending >> (self.count as u64) == 0
    }

    /// Nothing pending and nothing queued.
    pub open spec fn is_empty(self) -> bool {
        self.count == 0 && self.pending == 0 && self.bytes.len() == 0
    }

    /// The packer after a field of `width` bits is added above the pending bits.
    pub open spec fn put_bits(self, value: u32, width: nat) -> BitWriterView {
        let acc: u64 = self.pending | (low_bits(value, width) << (self.count as u64));
        BitWriterView {
            pending: drained_rest(acc, self.count + width),
            count: (self.count + width) % 8,
            bytes: self.bytes + drained_bytes(acc, self.count + width),
        }
    }

    /// The packer after each byte of `data` is added as a field of eight bits.
    pub open spec fn put_bytes(self, data: Seq<u8>) -> BitWriterView
        decreases data.len(),
    {
        if data.len() == 0 {
            self
        } else {
            self.put_bits(data[0] as u32, 8).put_bytes(data.drop_first())
        }
    }

    /// The packer after the pending bits are forced out as one byte, filled
    /// up with zero bits: a byte of zeros where nothing is pending.
    pub open spec fn flushed(self) -> BitWriterView {
        BitWriterView { pending: 0, count: 0, bytes: self.bytes.push((self.pending & 0xff) as u8) }
    }

    /// The packer after a partial byte, if there is one, is forced out.
    pub open spec fn pad(self) -> BitWriterView {
        if self.count > 0 {
            self.flushed()
        } else {
            self
        }
    }
}

/// Adding one byte keeps the number of pending bits and queues exactly one byte.
pub proof fn lemma_put_byte(v: BitWriterView, byte: u8)
    requires
        v.wf(),
    ensures
        v.put_bits(byte as u32, 8).wf(),
        v.put_bits(byte as u32, 8).count == v.count,
        v.put_bits(byte as u32, 8).bytes.len() == v.bytes.len() + 1,
        v.count == 0 ==> v.put_bits(byte as u32, 8) == (BitWriterView {
            pending: 0,
            count: 0,
            bytes: v.bytes.push(byte),
        }),
{
    let p: u64 = v.pending;
    let c: u64 = v.count as u64;
    let field: u64 = low_bits(byte as u32, 8);
    let acc: u64 = p | (field << c);
    let b32: u32 = byte as u32;
    assert(field == (b32 as u64) & (((1u64 << 8u64) - 1) as u64));
    assert(field == byte as u64) by (bit_vector)
        requires
            field == (b32 as u64) & (((1u64 << 8u64) - 1) as u64),
            b32 == byte as u32,
    ;
    assert((acc >> 8) >> c == 0 && (c == 0 ==> acc == byte as u64 && acc >> 8 == 0 && (acc & 0xff) as u8 == byte)) by (bit_vector)
        requires
            acc == p | (field << c),
            field == byte as u64,
            c < 8,
            p >> c == 0,
    ;
    let total: nat = v.count + 8;
    assert(drained_bytes(acc >> 8, (total - 8) as nat) == Seq::<u8>::empty());
    assert(drained_rest(acc >> 8, (total - 8) as nat) == acc >> 8);
    assert(drained_bytes(acc, total) == seq![(acc & 0xff) as u8] + Seq::<u8>::empty());
    assert(drained_rest(acc, total) == acc >> 8);
    if v.count == 0 {
        assert(v.bytes + drained_bytes(acc, total) =~= v.bytes.push(byte));
    }
}

/// Adding bytes keeps the number of pending bits and queues one byte for each.
pub proof fn lemma_put_bytes(v: BitWriterView, data: Seq<u8>)
    requires
        v.wf(),
    ensures
        v.put_bytes(data).wf(),
        v.put_bytes(data).count == v.count,
        v.put_bytes(data).bytes.len() == v.bytes.len() + data.len(),
        v.count == 0 ==> v.put_bytes(data) == (BitWriterView {
            pending: 0,
            count: 0,
            bytes: v.bytes + data,
        }),
    decreases data.len(),
{
    if data.len() == 0 {
        if v.count == 0 {
            let p: u64 = v.pending;
            assert(p == 0) by (bit_vector)
                requires
                    p >> 0u64 == 0,
            ;
            assert(v.bytes + data =~= v.bytes);
        }
    } else {
        lemma_put_byte(v, data[0]);
        let next = v.put_bits(data[0] as u32, 8);
        lemma_put_bytes(next, data.drop_first());
        if v.count == 0 {
            assert(v.bytes.push(data[0]) + data.drop_first() =~= v.bytes + data);
        }
    }
}

/// Bit packer with a queue of complete bytes.
pub struct BitWriter {
    bit_buffer: u64,
    bit_count: usize,
    output: Vec<u8>,
}

impl View for BitWriter {
    type V = BitWriterView;

    closed spec fn view(&self) -> BitWriterView {
        BitWriterView { pending: self.bit_buffer, count: self.bit_count as nat, bytes: self.output@ }
    }
}

impl BitWriter {
    /// An empty packer.
    pub fn new() -> (w: Self)
        ensures
            w@.wf(),
            w@.is_empty(),
    {
        let w = BitWriter { bit_buffer: 0, bit_count: 0, output: Vec::new() };
        proof {
            assert(0u64 >> 0u64 == 0) by (bit_vector);
        }
        w
    }

    /// Adds the low `num_bits` bits of `value` above the pending bits and
    /// queues every byte that this completes. More than 32 bits are refused.
    pub fn write_bits(&mut self, value: u32, num_bits: usize) -> (r: Result<(), TrickleError>)
        requires
            old(self)@.wf(),
        ensures
            final(self)@.wf(),
            num_bits > 32 ==> r == Err::<(), TrickleError>(TrickleError::InvalidData) && final(self)@ == old(self)@,
            num_bits <= 32 ==> r == Ok::<(), TrickleError>(()) && final(self)@ == old(self)@.put_bits(
                value,
                num_bits as nat,
            ),
    {
        if num_bits > 32 {
            return Err(TrickleError::InvalidData);
        }
        let ghost start = self@;
        let width: u64 = num_bits as u64;
        let wide: u64 = value as u64;
        let shift: u64 = self.bit_count as u64;
        let held: u64 = self.bit_buffer;
        let field: u64 = if num_bits >= 32 {
            wide
        } else {
            assert((1u64 << width) >= 1) by (bit_vector)
                requires
                    width < 32,
            ;
            wide & ((1u64 << width) - 1)
        };
        assert(field == low_bits(value, num_bits as nat));
        let mut acc: u64 = held | (field << shift);
        let mut count: usize = self.bit_count + num_bits;
        let ghost acc0 = acc;
        let ghost count0 = count;
        assert(acc >> ((shift + width) as u64) == 0) by (bit_vector)
            requires
                acc == held | (field << shift),
                held >> shift == 0,
                shift < 8,
                width <= 32,
                wide <= 0xffff_ffff,
                (width == 32 && field == wide) || (width < 32 && field == wide & (((1u64 << width)
                    - 1) as u64)),
        ;
        while count >= 8
            invariant
                count < 40,
                count % 8 == count0 % 8,
                acc >> (count as u64) == 0,
                self.bit_count == start.count,
                self.output@ + drained_bytes(acc, count as nat) == start.bytes + drained_bytes(
                    acc0,
                    count0 as nat,
                ),
                drained_rest(acc, count as nat) == drained_rest(acc0, count0 as nat),
            decreases count,
        {
            let ghost before = self.output@;
            let low: u64 = acc & 0xff;
            assert(low < 256) by (bit_vector)
                requires
                    low == acc & 0xff,
            ;
            self.output.push(low as u8);
            let c: u64 = count as u64;
            assert((acc >> 8) >> ((c - 8) as u64) == 0) by (bit_vector)
                requires
                    acc >> c == 0,
                    8 <= c < 40,
            ;
            proof {
                let rest = drained_bytes(acc >> 8, (count - 8) as nat);
                assert(before.push(low as u8) + rest =~= before + (seq![low as u8] + rest));
            }
            acc = acc >> 8;
            count -= 8;
        }
        self.bit_buffer = acc;
        self.bit_count = count;
        Ok(())
    }

    /// Adds one byte as a field of eight bits.
    pub fn write_byte(&mut self, byte: u8) -> (r: Result<(), TrickleError>)
        requires
            old(self)@.wf(),
        ensures
            final(self)@.wf(),
            r == Ok::<(), TrickleError>(()),
            final(self)@ == old(self)@.put_bits(byte as u32, 8),
    {
        self.write_bits(byte as u32, 8)
    }

    /// Forces the pending bits out as one byte, filled up with zero bits, and
    /// clears the accumulator. A byte is queued in every case, a byte of zeros
    /// where nothing is pending: call it once, where the bit stream ends.
    pub fn flush(&mut self) -> (r: Result<(), TrickleError>)
        requires
            old(self)@.wf(),
        ensures
            final(self)@.wf(),
            r == Ok::<(), TrickleError>(()),
            final(self)@ == old(self)@.flushed(),
            final(self)@.bytes == old(self)@.bytes.push((old(self)@.pending & 0xff) as u8),
            final(self)@.count == 0,
            final(self)@.pending == 0,
            old(self)@.count == 0 ==> final(self)@.bytes == old(self)@.bytes.push(0u8),
    {
        let held: u64 = self.bit_buffer;
        let shift: u64 = self.bit_count as u64;
        let low: u64 = held & 0xff;
        assert(low < 256 && (shift == 0 ==> low == 0)) by (bit_vector)
            requires
                low == held & 0xff,
                held >> shift == 0,
                shift < 8,
        ;
        self.output.push(low as u8);
        self.bit_buffer = 0;
        self.bit_count = 0;
        proof {
            assert(0u64 >> 0u64 == 0) by (bit_vector);
        }
        Ok(())
    }

    /// Adds `data` byte by byte, forces a partial byte out if there is one,
    /// and moves the whole queue to the front of `output`. Where the queue
    /// would not fit, nothing is added or moved.
    pub fn write_to_buffer(&mut self, data: &[u8], output: &mut [u8]) -> (r: Result<usize, TrickleError>)
        requires
            old(self)@.wf(),
        ensures
            final(self)@.wf(),
            final(output)@.len() == old(output)@.len(),
            ({
                let queued = old(self)@.put_bytes(data@).pad().bytes;
                if queued.len() > old(output)@.len() {
                    &&& r == Err::<usize, TrickleError>(TrickleError::InsufficientOutput)
                    &&& final(self)@ == old(self)@
                    &&& final(output)@ == old(output)@
                } else {
                    &&& r == Ok::<usize, TrickleError>(queued.len() as usize)
                    &&& final(self)@.is_empty()
                    &&& final(output)@ == queued + old(output)@.subrange(
                        queued.len() as int,
                        old(output)@.len() as int,
                    )
                }
            }),
    {
        let ghost start = self@;
        let ghost out0 = output@;
        proof {
            lemma_put_bytes(start, data@);
        }
        // Room for the bytes of `data`, for what is queued, and for the padded byte.
        if data.len() > output.len() {
            return Err(TrickleError::InsufficientOutput);
        }
        let room: usize = output.len() - data.len();
        if self.output.len() > room {
            return Err(TrickleError::InsufficientOutput);
        }
        if self.bit_count > 0 && self.output.len() == room {
            return Err(TrickleError::InsufficientOutput);
        }
        let mut i: usize = 0;
        assert(data@.subrange(0, data@.len() as int) =~= data@);
        while i < data.len()
            invariant
                i <= data.len(),
                self@.wf(),
                self@.put_bytes(data@.subrange(i as int, data@.len() as int)) == start.put_bytes(data@),
            decreases data.len() - i,
        {
            let ghost rest = data@.subrange(i as int, data@.len() as int);
            assert(rest.drop_first() =~= data@.subrange(i + 1, data@.len() as int));
            assert(rest[0] == data@[i as int]);
            let _ = self.write_byte(data[i]);
            i += 1;
        }
        assert(data@.subrange(i as int, data@.len() as int).len() == 0);
        if self.bit_count > 0 {
            let _ = self.flush();
        }
        let ghost queued = self@.bytes;
        let n: usize = self.output.len();
        let mut k: usize = 0;
        while k < n
            invariant
                k <= n,
                n == self.output@.len(),
                n <= output@.len(),
                self@.bytes == queued,
                self@.wf(),
                self@.count == 0,
                self@.pending == 0,
                output@.len() == out0.len(),
                output@ =~= queued.subrange(0, k as int) + out0.subrange(k as int, out0.len() as int),
            decreases n - k,
        {
            output[k] = self.output[k];
            k += 1;
        }
        assert(queued.subrange(0, n as int) =~= queued);
        self.output.clear();
        Ok(n)
    }

    /// The pending bits and their number.
    pub fn buffer_info(&self) -> (r: (u32, usize))
        requires
            self@.wf(),
        ensures
            r.0 as u64 == self@.pending,
            r.1 as nat == self@.count,
            r.1 < 8,
            r.0 < 256,
    {
        let b: u64 = self.bit_buffer;
        let c: u64 = self.bit_count as u64;
        assert(b < 256) by (bit_vector)
            requires
                b >> c == 0,
                c < 8,
        ;
        (b as u32, self.bit_count)
    }
}

} // verus!
