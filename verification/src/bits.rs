use vstd::prelude::*;

verus! {

/// Bit `k` of `v`, counting from the least significant bit.
pub open spec fn bit_at(v: u8, k: u8) -> bool {
    (v >> k) & 1 == 1
}

/// The low `n` bits of `v`, most significant first.
pub open spec fn low_bits(v: u8, n: nat) -> Seq<bool> {
    Seq::new(n, |i: int| bit_at(v, (n - 1 - i) as u8))
}

/// The eight bits of `b`, most significant first.
pub open spec fn byte_bits(b: u8) -> Seq<bool> {
    low_bits(b, 8)
}

/// The bits of a byte sequence, each byte most significant bit first.
pub open spec fn bytes_bits(bs: Seq<u8>) -> Seq<bool>
    decreases bs.len(),
{
    if bs.len() == 0 {
        Seq::empty()
    } else {
        bytes_bits(bs.drop_last()) + byte_bits(bs.last())
    }
}

/// `n` zero bits.
pub open spec fn zero_bits(n: nat) -> Seq<bool> {
    Seq::new(n, |i: int| false)
}

/// How many zero bits pad `n` bits up to a whole number of bytes.
pub open spec fn padding_len(n: nat) -> nat {
    ((8 - (n % 8)) % 8) as nat
}

/// The bits a reader over `bytes` hands out when told to stop after `total` bits.
pub open spec fn visible_bits(bytes: Seq<u8>, total: u64) -> Seq<bool> {
    let all = bytes_bits(bytes);
    if (total as int) < all.len() {
        all.take(total as int)
    } else {
        all
    }
}

pub proof fn lemma_bytes_bits_len(bs: Seq<u8>)
    ensures
        bytes_bits(bs).len() == 8 * bs.len(),
    decreases bs.len(),
{
    if bs.len() > 0 {
        lemma_bytes_bits_len(bs.drop_last());
    }
}

pub proof fn lemma_bytes_bits_push(bs: Seq<u8>, b: u8)
    ensures
        bytes_bits(bs.push(b)) == bytes_bits(bs) + byte_bits(b),
{
    assert(bs.push(b).drop_last() =~= bs);
}

/// Bit `j` of byte `k` stands at position `8 * k + j` of the bit sequence.
pub proof fn lemma_bytes_bits_index(bs: Seq<u8>, k: int, j: int)
    requires
        0 <= k < bs.len(),
        0 <= j < 8,
    ensures
        bytes_bits(bs).len() == 8 * bs.len(),
        bytes_bits(bs)[8 * k + j] == byte_bits(bs[k])[j],
    decreases bs.len(),
{
    lemma_bytes_bits_len(bs);
    lemma_bytes_bits_len(bs.drop_last());
    if k < bs.len() - 1 {
        lemma_bytes_bits_index(bs.drop_last(), k, j);
    }
}

proof fn lemma_shift_in_bit(cur: u8, b: u8, n: u8, k: u8)
    by (bit_vector)
    requires
        n < 8,
        cur >> n == 0,
        b <= 1,
        k < n,
    ensures
        ((cur << 1u8) | b) >> (n + 1) as u8 == 0,
        (((cur << 1u8) | b) >> (k + 1) as u8) & 1 == (cur >> k) & 1,
        (((cur << 1u8) | b) >> 0u8) & 1 == b,
{
}

proof fn lemma_shift_in_bit_base(cur: u8, b: u8, n: u8)
    by (bit_vector)
    requires
        n < 8,
        cur >> n == 0,
        b <= 1,
    ensures
        ((cur << 1u8) | b) >> (n + 1) as u8 == 0,
        (((cur << 1u8) | b) >> 0u8) & 1 == b,
{
}

/// Shifting a bit into the low end appends it to the low bits.
proof fn lemma_low_bits_shift_in(cur: u8, b: u8, n: u8)
    requires
        n < 8,
        cur >> n == 0,
        b <= 1,
    ensures
        ((cur << 1u8) | b) >> (n + 1) as u8 == 0,
        low_bits((cur << 1u8) | b, (n + 1) as nat) =~= low_bits(cur, n as nat).push(b == 1),
{
    let c2 = (cur << 1u8) | b;
    lemma_shift_in_bit_base(cur, b, n);
    assert forall|i: int| 0 <= i < n + 1 implies #[trigger] low_bits(c2, (n + 1) as nat)[i]
        == low_bits(cur, n as nat).push(b == 1)[i] by {
        if i < n {
            let k = (n - 1 - i) as u8;
            lemma_shift_in_bit(cur, b, n, k);
            assert((n + 1 - 1 - i) as u8 == (k + 1) as u8);
        }
    }
}

proof fn lemma_flush_bit(cur: u8, n: u8, k: u8)
    by (bit_vector)
    requires
        0 < n < 8,
        cur >> n == 0,
        k < 8,
    ensures
        k >= 8 - n ==> ((cur << (8 - n) as u8) >> k) & 1 == (cur >> (k - (8 - n)) as u8) & 1,
        k < 8 - n ==> ((cur << (8 - n) as u8) >> k) & 1 == 0,
{
}

/// Shifting the pending bits to the high end pads them with zeros.
proof fn lemma_flush(cur: u8, n: u8)
    requires
        0 < n < 8,
        cur >> n == 0,
    ensures
        byte_bits(cur << (8 - n) as u8) =~= low_bits(cur, n as nat) + zero_bits((8 - n) as nat),
{
    let c2 = cur << (8 - n) as u8;
    assert forall|i: int| 0 <= i < 8 implies #[trigger] byte_bits(c2)[i] == (low_bits(
        cur,
        n as nat,
    ) + zero_bits((8 - n) as nat))[i] by {
        let k = (7 - i) as u8;
        lemma_flush_bit(cur, n, k);
        if i < n {
            assert((k - (8 - n)) as u8 == (n - 1 - i) as u8);
        }
    }
}

/// What a reader told to stop after `bits.len()` bits hands out of the bytes
/// a writer produced for `bits` is exactly `bits`: the padding stays unread.
pub proof fn lemma_write_read(bits: Seq<bool>, bytes: Seq<u8>)
    requires
        bytes_bits(bytes) == bits + zero_bits(padding_len(bits.len())),
        bits.len() <= u64::MAX,
    ensures
        visible_bits(bytes, bits.len() as u64) == bits,
{
    assert(bytes_bits(bytes).take(bits.len() as int) =~= bits);
}

/// The bits of two byte sequences one after the other.
pub proof fn lemma_bytes_bits_concat(a: Seq<u8>, b: Seq<u8>)
    ensures
        bytes_bits(a + b) == bytes_bits(a) + bytes_bits(b),
    decreases b.len(),
{
    if b.len() == 0 {
        assert(a + b =~= a);
        assert(bytes_bits(a) + Seq::<bool>::empty() =~= bytes_bits(a));
    } else {
        assert((a + b).drop_last() =~= a + b.drop_last());
        lemma_bytes_bits_concat(a, b.drop_last());
        assert(bytes_bits(a + b) =~= bytes_bits(a) + bytes_bits(b));
    }
}

/// Bytes that follow what a writer produced are not read either.
pub proof fn lemma_write_read_trailing(bits: Seq<bool>, bytes: Seq<u8>, extra: Seq<u8>)
    requires
        bytes_bits(bytes) == bits + zero_bits(padding_len(bits.len())),
        bits.len() <= u64::MAX,
    ensures
        visible_bits(bytes + extra, bits.len() as u64) == bits,
{
    lemma_bytes_bits_concat(bytes, extra);
    assert(bytes_bits(bytes + extra).take(bits.len() as int) =~= bits);
}

// BitWriter

/// Packs individual bits into a Vec<u8>, MSB first.
/// Call `finish()` to flush the final partial byte (zero-padded).
pub struct BitWriter {
    bytes: Vec<u8>,
    current_byte: u8,
    bit_count: u8,
}

impl BitWriter {
    #[verifier::type_invariant]
    spec fn pending_fits(self) -> bool {
        &&& self.bit_count < 8
        &&& self.current_byte >> self.bit_count == 0
    }

    /// Every bit written so far, in order.
    pub closed spec fn written(self) -> Seq<bool> {
        bytes_bits(self.bytes@) + low_bits(self.current_byte, self.bit_count as nat)
    }

    pub fn new() -> (w: Self)
        ensures
            w.written() == Seq::<bool>::empty(),
    {
        assert(0u8 >> 0u8 == 0u8) by (bit_vector);
        let w = BitWriter { bytes: Vec::new(), current_byte: 0, bit_count: 0 };
        assert(w.written() =~= Seq::<bool>::empty());
        w
    }

    pub fn write_bit(&mut self, bit: bool)
        ensures
            final(self).written() == old(self).written().push(bit),
    {
        proof {
            use_type_invariant(&*self);
        }
        let b: u8 = if bit {
            1
        } else {
            0
        };
        let cur = self.current_byte;
        let n = self.bit_count;
        proof {
            lemma_low_bits_shift_in(cur, b, n);
        }
        let next = (cur << 1u8) | b;
        let mut bytes = Vec::new();
        std::mem::swap(&mut bytes, &mut self.bytes);
        if n + 1 == 8 {
            proof {
                lemma_bytes_bits_push(bytes@, next);
            }
            bytes.push(next);
            assert(0u8 >> 0u8 == 0u8) by (bit_vector);
            *self = BitWriter { bytes, current_byte: 0, bit_count: 0 };
            assert(low_bits(0, 0) =~= Seq::<bool>::empty());
        } else {
            *self = BitWriter { bytes, current_byte: next, bit_count: n + 1 };
        }
        assert(self.written() =~= old(self).written().push(bit));
    }

    pub fn write_bits(&mut self, bits: &[bool])
        ensures
            final(self).written() == old(self).written() + bits@,
    {
        let n = bits.len();
        for i in 0..n
            invariant
                n == bits@.len(),
                self.written() == old(self).written() + bits@.take(i as int),
        {
            self.write_bit(bits[i]);
            assert(bits@.take(i + 1) =~= bits@.take(i as int).push(bits@[i as int]));
        }
        assert(bits@.take(n as int) =~= bits@);
    }

    /// Flush any remaining bits zero-padded to a full byte.
    pub fn finish(self) -> (bytes: Vec<u8>)
        ensures
            bytes_bits(bytes@) == self.written() + zero_bits(padding_len(self.written().len())),
            bytes@.len() == (self.written().len() + 7) / 8,
    {
        proof {
            use_type_invariant(&self);
            lemma_bytes_bits_len(self.bytes@);
        }
        let BitWriter { bytes, current_byte, bit_count } = self;
        let mut bytes = bytes;
        if bit_count > 0 {
            let last = current_byte << (8 - bit_count);
            proof {
                lemma_flush(current_byte, bit_count);
                lemma_bytes_bits_push(bytes@, last);
            }
            bytes.push(last);
            assert(bytes_bits(bytes@) =~= self.written() + zero_bits(
                padding_len(self.written().len()),
            ));
        } else {
            assert(bytes_bits(bytes@) =~= self.written() + zero_bits(
                padding_len(self.written().len()),
            ));
        }
        bytes
    }
}

// BitReader

/// Reads individual bits from a byte slice, MSB first.
/// Stops at `total_bits` to ignore zero-padding at the end.
pub struct BitReader<'a> {
    bytes: &'a [u8],
    byte_index: usize,
    bit_index: u8,
    bits_read: u64,
    total_bits: u64,
}

impl<'a> BitReader<'a> {
    #[verifier::type_invariant]
    spec fn position_consistent(self) -> bool {
        &&& self.bit_index < 8
        &&& self.bits_read == 8 * self.byte_index + self.bit_index
        &&& self.byte_index <= self.bytes@.len()
        &&& self.byte_index == self.bytes@.len() ==> self.bit_index == 0
    }

    /// The bits this reader hands out, from the first to the last.
    pub closed spec fn stream(self) -> Seq<bool> {
        visible_bits(self.bytes@, self.total_bits)
    }

    /// How many bits have been handed out so far.
    pub closed spec fn position(self) -> nat {
        self.bits_read as nat
    }

    pub fn new(bytes: &'a [u8], total_bits: u64) -> (r: Self)
        ensures
            r.stream() == visible_bits(bytes@, total_bits),
            r.position() == 0,
    {
        BitReader { bytes, byte_index: 0, bit_index: 0, bits_read: 0, total_bits }
    }

    /// Returns the next bit, or None if we've reached total_bits or end of data.
    pub fn read_bit(&mut self) -> (bit: Option<bool>)
        ensures
            final(self).stream() == old(self).stream(),
            old(self).position() < old(self).stream().len() ==> {
                &&& bit == Some(old(self).stream()[old(self).position() as int])
                &&& final(self).position() == old(self).position() + 1
            },
            old(self).position() >= old(self).stream().len() ==> {
                &&& bit is None
                &&& final(self).position() == old(self).position()
            },
    {
        proof {
            use_type_invariant(&*self);
            lemma_bytes_bits_len(self.bytes@);
        }
        if self.bits_read >= self.total_bits {
            return None;
        }
        if self.byte_index >= self.bytes.len() {
            return None;
        }
        let byte = self.bytes[self.byte_index];
        let bit = (byte >> (7 - self.bit_index)) & 1 == 1;
        proof {
            lemma_bytes_bits_index(self.bytes@, self.byte_index as int, self.bit_index as int);
            assert(bit == byte_bits(byte)[self.bit_index as int]);
        }
        if self.bit_index + 1 == 8 {
            *self = BitReader {
                bytes: self.bytes,
                byte_index: self.byte_index + 1,
                bit_index: 0,
                bits_read: self.bits_read + 1,
                total_bits: self.total_bits,
            };
        } else {
            *self = BitReader {
                bytes: self.bytes,
                byte_index: self.byte_index,
                bit_index: self.bit_index + 1,
                bits_read: self.bits_read + 1,
                total_bits: self.total_bits,
            };
        }
        Some(bit)
    }
}

} // verus!
