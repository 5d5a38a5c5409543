//! Bit streams: a writer that packs bits into bytes, most significant bit
//! first, and a reader that hands them back one at a time.
use vstd::prelude::*;
use vstd::string::*;
use crate::error::ZipError;
use crate::huffman::{Leaf, Node, Tree};

verus! {

/// Bit `k` of byte `b`, counting from the most significant bit (`k == 0`).
pub open spec fn bit_of(b: u8, k: int) -> bool {
    (b >> ((7 - k) as u8)) & 1u8 == 1u8
}

/// The bits of a byte sequence, each byte most significant bit first.
pub open spec fn bits_of_bytes(s: Seq<u8>) -> Seq<bool> {
    Seq::new(8 * s.len(), |i: int| bit_of(s[i / 8], i % 8))
}

/// The low `n` bits of `v` (`n <= 8`), most significant first.
pub open spec fn low_bits_u8(v: u8, n: nat) -> Seq<bool> {
    Seq::new(n, |i: int| (v >> ((n - 1 - i) as u8)) & 1u8 == 1u8)
}

/// The low `len` bits of `code` (`len <= 32`), most significant first: a code word.
pub open spec fn code_bits(code: u32, len: nat) -> Seq<bool> {
    Seq::new(len, |i: int| (code >> ((len - 1 - i) as u32)) & 1u32 == 1u32)
}

/// `n` zero bits.
pub open spec fn zeros(n: nat) -> Seq<bool> {
    Seq::new(n, |i: int| false)
}

/// The bits that a text of `'0'` and `'1'` characters stands for; any other
/// byte of the text is skipped.
pub open spec fn bit_chars(s: Seq<u8>) -> Seq<bool>
    decreases s.len(),
{
    if s.len() == 0 {
        Seq::empty()
    } else {
        let rest = bit_chars(s.drop_last());
        if s.last() == 0x30u8 {
            rest.push(false)
        } else if s.last() == 0x31u8 {
            rest.push(true)
        } else {
            rest
        }
    }
}

proof fn lemma_bits_of_bytes_push(s: Seq<u8>, b: u8)
    ensures
        bits_of_bytes(s.push(b)) == bits_of_bytes(s) + low_bits_u8(b, 8),
{
    let l = bits_of_bytes(s.push(b));
    let r = bits_of_bytes(s) + low_bits_u8(b, 8);
    assert forall|i: int| 0 <= i < l.len() implies l[i] == r[i] by {
        if i < 8 * s.len() {
            assert(i / 8 < s.len());
        } else {
            assert(i / 8 == s.len());
            assert(i % 8 == i - 8 * s.len());
        }
    }
    assert(l =~= r);
}

proof fn lemma_shift_in(byte: u8, b: u8, s: u8)
    by (bit_vector)
    requires
        b <= 1u8,
        s < 7u8,
    ensures
        (((byte << 1u8) | b) >> ((s + 1u8) as u8)) & 1u8 == (byte >> s) & 1u8,
        (((byte << 1u8) | b) >> 0u8) & 1u8 == b,
{
}

proof fn lemma_shift_in_bound(byte: u8, b: u8, c: u8)
    by (bit_vector)
    requires
        b <= 1u8,
        c < 7u8,
        byte >> c == 0u8,
    ensures
        ((byte << 1u8) | b) >> ((c + 1u8) as u8) == 0u8,
{
}

proof fn lemma_pad(byte: u8, c: u8, j: u8)
    by (bit_vector)
    requires
        0u8 < c < 8u8,
        j < 8u8,
        byte >> c == 0u8,
    ensures
        j < c ==> ((byte << ((8u8 - c) as u8)) >> ((7u8 - j) as u8)) & 1u8 == (byte >> ((c - 1u8
            - j) as u8)) & 1u8,
        j >= c ==> ((byte << ((8u8 - c) as u8)) >> ((7u8 - j) as u8)) & 1u8 == 0u8,
{
}

proof fn lemma_zero_shifted(c: u8)
    by (bit_vector)
    ensures
        0u8 >> c == 0u8,
{
}

proof fn lemma_mask_bit(b: u8, k: u8)
    by (bit_vector)
    requires
        k < 8u8,
    ensures
        ((b & (1u8 << ((7u8 - k) as u8))) != 0u8) == ((b >> ((7u8 - k) as u8)) & 1u8 == 1u8),
{
}

proof fn lemma_zero_shift(b: u8)
    by (bit_vector)
    requires
        b >> 0u8 == 0u8,
    ensures
        b == 0u8,
{
}

/// Packs bits into bytes, the first bit into the most significant position.
/// Whole bytes go to `buffer`; the last, incomplete one waits in `byte`,
/// which holds its `bit_count` bits in its low positions.
pub struct BitWriter<'a> {
    pub buffer: &'a mut Vec<u8>,
    pub byte: u8,
    pub bit_count: u8,
}

impl<'a> BitWriter<'a> {
    /// Fewer than eight bits wait, and nothing above them is set.
    pub open spec fn wf(&self) -> bool {
        &&& self.bit_count < 8
        &&& self.byte >> self.bit_count == 0
    }

    /// The whole bytes written so far.
    pub open spec fn written(&self) -> Seq<u8> {
        self.buffer@
    }

    /// Every bit pushed so far: the whole bytes, then the waiting bits.
    pub open spec fn bits(&self) -> Seq<bool> {
        bits_of_bytes(self.buffer@) + low_bits_u8(self.byte, self.bit_count as nat)
    }

    /// A writer that appends to `dest`.
    pub fn new(dest: &'a mut Vec<u8>) -> (w: Self)
        ensures
            w.wf(),
            w.buffer@ == old(dest)@,
            w.byte == 0,
            w.bit_count == 0,
            final(w.buffer)@ == final(dest)@,
    {
        proof {
            lemma_zero_shifted(0);
        }
        BitWriter { buffer: dest, byte: 0, bit_count: 0 }
    }

    fn push_bit(&mut self, bit: bool)
        requires
            old(self).wf(),
        ensures
            final(self).wf(),
            final(self).bits() == old(self).bits().push(bit),
            final(final(self).buffer)@ == final(old(self).buffer)@,
    {
        let ghost old_bits = self.bits();
        let b: u8 = if bit {
            1
        } else {
            0
        };
        let c = self.bit_count;
        let nb: u8 = (self.byte << 1u8) | b;
        proof {
            let ob = self.byte;
            let lb = low_bits_u8(nb, (c + 1) as nat);
            let ex = low_bits_u8(ob, c as nat).push(bit);
            assert forall|j: int| 0 <= j < lb.len() implies lb[j] == ex[j] by {
                if j < c {
                    let s: u8 = (c - 1 - j) as u8;
                    lemma_shift_in(ob, b, s);
                    assert(((c + 1) - 1 - j) as u8 == s + 1);
                } else {
                    lemma_shift_in(ob, b, 0u8);
                    assert(((c + 1) - 1 - j) as u8 == 0u8);
                }
            }
            assert(lb =~= ex);
            if c < 7 {
                lemma_shift_in_bound(ob, b, c);
            }
        }
        self.byte = nb;
        self.bit_count = self.bit_count + 1;
        if self.bit_count == 8 {
            proof {
                lemma_bits_of_bytes_push(self.buffer@, nb);
            }
            self.buffer.push(self.byte);
            self.byte = 0;
            self.bit_count = 0;
            proof {
                lemma_zero_shifted(0);
                assert(low_bits_u8(0, 0) =~= Seq::<bool>::empty());
                assert(self.bits() =~= old_bits.push(bit));
            }
        } else {
            proof {
                assert(self.bits() =~= old_bits.push(bit));
            }
        }
    }

    /// Appends the bits written in `bits` as `'0'` and `'1'` characters;
    /// any other character is skipped.
    pub fn push(&mut self, bits: &str)
        requires
            old(self).wf(),
        ensures
            final(self).wf(),
            final(self).bits() == old(self).bits() + bit_chars(bits.spec_bytes()),
            final(final(self).buffer)@ == final(old(self).buffer)@,
    {
        let bytes = bits.as_bytes();
        let mut i: usize = 0;
        while i < bytes.len()
            invariant
                self.wf(),
                0 <= i <= bytes@.len(),
                bytes@ == bits.spec_bytes(),
                self.bits() == old(self).bits() + bit_chars(bytes@.take(i as int)),
                final(self.buffer)@ == final(old(self).buffer)@,
            decreases bytes.len() - i,
        {
            let c = bytes[i];
            proof {
                assert(bytes@.take(i + 1).drop_last() =~= bytes@.take(i as int));
            }
            if c == 0x30u8 {
                self.push_bit(false);
            } else if c == 0x31u8 {
                self.push_bit(true);
            }
            proof {
                assert(self.bits() =~= old(self).bits() + bit_chars(bytes@.take(i + 1)));
            }
            i = i + 1;
        }
        proof {
            assert(bytes@.take(i as int) =~= bytes@);
        }
    }

    /// Appends the code word `bits.0` of `bits.1` bits, most significant bit first.
    pub fn push_code(&mut self, bits: (u32, u8))
        requires
            old(self).wf(),
            bits.1 <= 32,
        ensures
            final(self).wf(),
            final(self).bits() == old(self).bits() + code_bits(bits.0, bits.1 as nat),
            final(final(self).buffer)@ == final(old(self).buffer)@,
    {
        let (code, len) = bits;
        let mut k: u8 = len;
        while k > 0
            invariant
                self.wf(),
                k <= len <= 32,
                self.bits() == old(self).bits() + code_bits(code, len as nat).take(len - k),
                final(self.buffer)@ == final(old(self).buffer)@,
            decreases k,
        {
            k = k - 1;
            let bit: bool = (code >> (k as u32)) & 1u32 == 1u32;
            self.push_bit(bit);
            proof {
                let cb = code_bits(code, len as nat);
                assert(((len - 1 - (len - k - 1)) as u32) == k as u32);
                assert(cb.take(len - k) =~= cb.take(len - k - 1).push(bit));
            }
        }
        proof {
            assert(code_bits(code, len as nat).take(len as int) =~= code_bits(code, len as nat));
        }
    }

    /// Writes out the waiting bits, if any, as one byte padded with zero bits.
    pub fn flush(&mut self)
        requires
            old(self).wf(),
        ensures
            final(self).wf(),
            final(self).bit_count == 0,
            final(self).byte == 0,
            final(self).buffer@ == if old(self).bit_count == 0 {
                old(self).buffer@
            } else {
                old(self).buffer@.push(old(self).byte << (8 - old(self).bit_count) as u8)
            },
            final(self).bits() == old(self).bits() + zeros(
                if old(self).bit_count == 0 {
                    0nat
                } else {
                    (8 - old(self).bit_count) as nat
                },
            ),
            final(final(self).buffer)@ == final(old(self).buffer)@,
    {
        if self.bit_count == 0 {
            proof {
                lemma_zero_shift(self.byte);
                assert(low_bits_u8(self.byte, 0) =~= Seq::<bool>::empty());
                assert(zeros(0) =~= Seq::<bool>::empty());
                assert(self.bits() =~= self.bits() + zeros(0));
            }
            return;
        }
        let ghost old_bits = self.bits();
        let c = self.bit_count;
        let ob = self.byte;
        self.byte = self.byte << (8 - self.bit_count);
        let nb = self.byte;
        proof {
            let lb = low_bits_u8(nb, 8);
            let ex = low_bits_u8(ob, c as nat) + zeros((8 - c) as nat);
            assert forall|j: int| 0 <= j < 8 implies lb[j] == ex[j] by {
                let jj: u8 = j as u8;
                lemma_pad(ob, c, jj);
                assert((8 - 1 - j) as u8 == 7u8 - jj);
                if j < c {
                    assert((c - 1 - j) as u8 == c - 1u8 - jj);
                }
            }
            assert(lb =~= ex);
            lemma_bits_of_bytes_push(self.buffer@, nb);
        }
        self.buffer.push(self.byte);
        self.byte = 0;
        self.bit_count = 0;
        proof {
            lemma_zero_shifted(0);
            assert(low_bits_u8(0, 0) =~= Seq::<bool>::empty());
            assert(self.bits() =~= old_bits + zeros((8 - c) as nat));
        }
    }
}

proof fn lemma_bit_chars_add(x: Seq<u8>, y: Seq<u8>)
    ensures
        bit_chars(x + y) == bit_chars(x) + bit_chars(y),
    decreases y.len(),
{
    if y.len() == 0 {
        assert(x + y =~= x);
        assert(bit_chars(x) + bit_chars(y) =~= bit_chars(x));
    } else {
        lemma_bit_chars_add(x, y.drop_last());
        assert((x + y).drop_last() =~= x + y.drop_last());
        assert((x + y).last() == y.last());
        if y.last() == 0x30u8 || y.last() == 0x31u8 {
            assert(bit_chars(x + y) =~= bit_chars(x) + bit_chars(y));
        } else {
            assert(bit_chars(x + y) =~= bit_chars(x) + bit_chars(y));
        }
    }
}

proof fn lemma_same_bits_same_byte(x: u8, y: u8, c: u8)
    by (bit_vector)
    requires
        c <= 8u8,
        x >> c == 0u8 || c == 8u8,
        y >> c == 0u8 || c == 8u8,
        0u8 < c ==> (x >> 0u8) & 1u8 == (y >> 0u8) & 1u8,
        1u8 < c ==> (x >> 1u8) & 1u8 == (y >> 1u8) & 1u8,
        2u8 < c ==> (x >> 2u8) & 1u8 == (y >> 2u8) & 1u8,
        3u8 < c ==> (x >> 3u8) & 1u8 == (y >> 3u8) & 1u8,
        4u8 < c ==> (x >> 4u8) & 1u8 == (y >> 4u8) & 1u8,
        5u8 < c ==> (x >> 5u8) & 1u8 == (y >> 5u8) & 1u8,
        6u8 < c ==> (x >> 6u8) & 1u8 == (y >> 6u8) & 1u8,
        7u8 < c ==> (x >> 7u8) & 1u8 == (y >> 7u8) & 1u8,
    ensures
        x == y,
{
}

proof fn lemma_low_bits_determine(x: u8, y: u8, c: u8)
    requires
        c <= 8,
        c == 8 || x >> c == 0,
        c == 8 || y >> c == 0,
        low_bits_u8(x, c as nat) == low_bits_u8(y, c as nat),
    ensures
        x == y,
{
    assert forall|s: u8| s < c implies (x >> s) & 1u8 == (y >> s) & 1u8 by {
        let i: int = c - 1 - s;
        assert(((c - 1 - i) as u8) == s);
        assert(low_bits_u8(x, c as nat)[i] == low_bits_u8(y, c as nat)[i]);
        assert(low_bits_u8(x, c as nat)[i] == ((x >> s) & 1u8 == 1u8));
        assert(low_bits_u8(y, c as nat)[i] == ((y >> s) & 1u8 == 1u8));
        let bx = (x >> s) & 1u8;
        let by = (y >> s) & 1u8;
        assert(bx == 0u8 || bx == 1u8) by (bit_vector)
            requires
                bx == (x >> s) & 1u8,
        ;
        assert(by == 0u8 || by == 1u8) by (bit_vector)
            requires
                by == (y >> s) & 1u8,
        ;
    }
    assert((x >> 0u8) & 1u8 == (y >> 0u8) & 1u8 || !(0u8 < c));
    assert((x >> 1u8) & 1u8 == (y >> 1u8) & 1u8 || !(1u8 < c));
    assert((x >> 2u8) & 1u8 == (y >> 2u8) & 1u8 || !(2u8 < c));
    assert((x >> 3u8) & 1u8 == (y >> 3u8) & 1u8 || !(3u8 < c));
    assert((x >> 4u8) & 1u8 == (y >> 4u8) & 1u8 || !(4u8 < c));
    assert((x >> 5u8) & 1u8 == (y >> 5u8) & 1u8 || !(5u8 < c));
    assert((x >> 6u8) & 1u8 == (y >> 6u8) & 1u8 || !(6u8 < c));
    assert((x >> 7u8) & 1u8 == (y >> 7u8) & 1u8 || !(7u8 < c));
    lemma_same_bits_same_byte(x, y, c);
}

proof fn lemma_stream_bit(b1: Seq<u8>, b2: Seq<u8>, j: int, k: int)
    requires
        b1.len() == b2.len(),
        bits_of_bytes(b1) == bits_of_bytes(b2),
        0 <= j < b1.len(),
        0 <= k < 8,
    ensures
        (b1[j] >> ((7 - k) as u8)) & 1u8 == (b2[j] >> ((7 - k) as u8)) & 1u8,
{
    let i = 8 * j + k;
    assert(bits_of_bytes(b1)[i] == bits_of_bytes(b2)[i]);
    assert(i / 8 == j && i % 8 == k) by (nonlinear_arith)
        requires
            i == 8 * j + k,
            0 <= k < 8,
    ;
    assert(bits_of_bytes(b1)[i] == bit_of(b1[j], k));
    assert(bits_of_bytes(b2)[i] == bit_of(b2[j], k));
    let s = (7 - k) as u8;
    let x = b1[j];
    let y = b2[j];
    let bx = (x >> s) & 1u8;
    let by = (y >> s) & 1u8;
    assert(bx == 0u8 || bx == 1u8) by (bit_vector)
        requires
            bx == (x >> s) & 1u8,
    ;
    assert(by == 0u8 || by == 1u8) by (bit_vector)
        requires
            by == (y >> s) & 1u8,
    ;
}

/// Two writers that have been handed the same bits are in the same state:
/// the same whole bytes written, and the same bits waiting.
pub proof fn lemma_same_bits_same_writer(w1: BitWriter, w2: BitWriter)
    requires
        w1.wf(),
        w2.wf(),
        w1.bits() == w2.bits(),
    ensures
        w1.written() == w2.written(),
        w1.bit_count == w2.bit_count,
        w1.byte == w2.byte,
{
    let b1 = w1.buffer@;
    let b2 = w2.buffer@;
    assert(w1.bits().len() == 8 * b1.len() + w1.bit_count);
    assert(w2.bits().len() == 8 * b2.len() + w2.bit_count);
    assert(b1.len() == b2.len());
    assert(w1.bit_count == w2.bit_count);
    let n = 8 * b1.len();
    assert(w1.bits().take(n as int) =~= bits_of_bytes(b1));
    assert(w2.bits().take(n as int) =~= bits_of_bytes(b2));
    assert forall|j: int| 0 <= j < b1.len() implies b1[j] == b2[j] by {
        let x = b1[j];
        let y = b2[j];
        assert(x >> 8u8 == 0u8) by (bit_vector);
        assert(y >> 8u8 == 0u8) by (bit_vector);
        lemma_stream_bit(b1, b2, j, 7);
        lemma_stream_bit(b1, b2, j, 6);
        lemma_stream_bit(b1, b2, j, 5);
        lemma_stream_bit(b1, b2, j, 4);
        lemma_stream_bit(b1, b2, j, 3);
        lemma_stream_bit(b1, b2, j, 2);
        lemma_stream_bit(b1, b2, j, 1);
        lemma_stream_bit(b1, b2, j, 0);
        lemma_same_bits_same_byte(x, y, 8u8);
    }
    assert(b1 =~= b2);
    let c = w1.bit_count;
    assert(w1.bits().skip(n as int) =~= low_bits_u8(w1.byte, c as nat));
    assert(w2.bits().skip(n as int) =~= low_bits_u8(w2.byte, c as nat));
    lemma_low_bits_determine(w1.byte, w2.byte, c);
}

/// Pushing two texts one after the other leaves a writer in the state
/// that pushing their concatenation at once does: the bits of `a` then `b`
/// are the bits of `a + b`, and equal bits make equal writers.
pub proof fn lemma_push_concat(
    w1: BitWriter,
    w2: BitWriter,
    start: Seq<bool>,
    a: Seq<u8>,
    b: Seq<u8>,
)
    requires
        w1.wf(),
        w2.wf(),
        w1.bits() == start + bit_chars(a) + bit_chars(b),
        w2.bits() == start + bit_chars(a + b),
    ensures
        w1.written() == w2.written(),
        w1.bit_count == w2.bit_count,
        w1.byte == w2.byte,
{
    lemma_bit_chars_add(a, b);
    assert(start + bit_chars(a) + bit_chars(b) =~= start + (bit_chars(a) + bit_chars(b)));
    lemma_same_bits_same_writer(w1, w2);
}

/// Hands out the bits of a byte buffer one at a time, most significant bit
/// of each byte first, and no more than `total_bits` of them.
pub struct BitReader<'a> {
    buffer: &'a Vec<u8>,
    byte: u8,
    bit_count: u8,
    cursor: usize,
    bits_read: u64,
    total_bits: u64,
}

impl<'a> BitReader<'a> {
    /// The bytes read from.
    pub closed spec fn data(&self) -> Seq<u8> {
        self.buffer@
    }

    /// How many bits have been handed out.
    pub closed spec fn position(&self) -> nat {
        self.bits_read as nat
    }

    /// How many bits the reader was told the data holds.
    pub closed spec fn total(&self) -> nat {
        self.total_bits as nat
    }

    /// How many bits can be handed out at all: the stated total, cut at the
    /// end of the data.
    pub open spec fn limit(&self) -> nat {
        if self.total() <= 8 * self.data().len() {
            self.total()
        } else {
            8 * self.data().len()
        }
    }

    /// The bits this reader hands out, in order.
    pub open spec fn stream(&self) -> Seq<bool> {
        bits_of_bytes(self.data()).take(self.limit() as int)
    }

    /// The cursor and the current byte agree with the position.
    pub closed spec fn wf(&self) -> bool {
        &&& self.bits_read <= self.total_bits
        &&& self.bits_read as int <= 8 * self.buffer@.len()
        &&& self.bit_count < 8
        &&& self.bit_count as int == self.bits_read as int % 8
        &&& self.cursor as int == if self.bit_count == 0 {
            self.bits_read as int / 8
        } else {
            self.bits_read as int / 8 + 1
        }
        &&& (self.bit_count != 0 ==> self.byte == self.buffer@[self.cursor as int - 1])
    }

    /// A reader never hands out more bits than it can.
    pub proof fn lemma_position_bounded(&self)
        requires
            self.wf(),
        ensures
            self.position() <= self.limit(),
    {
    }

    /// A reader of the first `total_bits` bits of `input`.
    pub fn new(input: &'a Vec<u8>, total_bits: u64) -> (r: Self)
        ensures
            r.wf(),
            r.data() == input@,
            r.position() == 0,
            r.total() == total_bits,
    {
        BitReader { buffer: input, byte: 0, bit_count: 0, cursor: 0, bits_read: 0, total_bits }
    }

    /// How many bits have been handed out.
    pub fn bits_read(&self) -> (n: u64)
        ensures
            n == self.position(),
    {
        self.bits_read
    }

    /// The next bit, or `None` once `total_bits` bits have been handed out or
    /// the data has run out.
    pub fn read_bit(&mut self) -> (res: Option<bool>)
        requires
            old(self).wf(),
        ensures
            final(self).wf(),
            final(self).data() == old(self).data(),
            final(self).total() == old(self).total(),
            old(self).position() < old(self).limit() ==> res == Some(
                old(self).stream()[old(self).position() as int],
            ) && final(self).position() == old(self).position() + 1,
            old(self).position() >= old(self).limit() ==> res is None && *final(self) == *old(
                self,
            ),
    {
        if self.bits_read == self.total_bits {
            return None;
        }
        if self.bit_count == 0 {
            if self.cursor == self.buffer.len() {
                return None;
            }
            self.byte = self.buffer[self.cursor];
            self.cursor = self.cursor + 1;
        }
        let k = self.bit_count;
        let bit = (self.byte & (1u8 << (7 - self.bit_count))) != 0;
        proof {
            lemma_mask_bit(self.byte, k);
            let p = self.bits_read as int;
            assert(p / 8 == self.cursor - 1);
            assert((7 - (p % 8)) as u8 == 7u8 - k);
            assert(bits_of_bytes(self.buffer@)[p] == bit);
        }
        self.bit_count = self.bit_count + 1;
        self.bits_read = self.bits_read + 1;
        if self.bit_count == 8 {
            self.bit_count = 0;
        }
        Some(bit)
    }
}

/// The four bytes every compressed file starts with: `ZIP1`.
pub open spec fn magic_bytes() -> Seq<u8> {
    seq![0x5au8, 0x49u8, 0x50u8, 0x31u8]
}

/// The eight bytes of `x`, most significant first.
pub open spec fn be_bytes(x: u64) -> Seq<u8> {
    Seq::new(8, |i: int| ((x >> ((56 - 8 * i) as u64)) & 0xffu64) as u8)
}

/// The number whose bytes, most significant first, are `s[at..at + 8]`.
pub open spec fn be_value(s: Seq<u8>, at: int) -> u64 {
    (s[at] as u64) << 56u64 | (s[at + 1] as u64) << 48u64 | (s[at + 2] as u64) << 40u64 | (s[at
        + 3] as u64) << 32u64 | (s[at + 4] as u64) << 24u64 | (s[at + 5] as u64) << 16u64 | (s[at
        + 6] as u64) << 8u64 | (s[at + 7] as u64)
}

/// The table of leaves as stored: each leaf's frequency in eight bytes,
/// most significant first, then its byte.
pub open spec fn leaf_bytes(leaves: Seq<Leaf>) -> Seq<u8>
    decreases leaves.len(),
{
    if leaves.len() == 0 {
        Seq::empty()
    } else {
        leaf_bytes(leaves.drop_last()) + be_bytes(leaves.last().frequency) + seq![
            leaves.last().data,
        ]
    }
}

/// The leaves among `nodes`, in order.
pub open spec fn leaves_among(nodes: Seq<Option<Node>>) -> Seq<Leaf>
    decreases nodes.len(),
{
    if nodes.len() == 0 {
        Seq::empty()
    } else {
        let rest = leaves_among(nodes.drop_last());
        match nodes.last() {
            Some(Node::Leaf(l)) => rest.push(l),
            _ => rest,
        }
    }
}

/// The leaf count a file gets for a tree of `n` nodes: half of them,
/// rounded up, less one, kept to its low eight bits.
pub open spec fn leaf_count_for(n: nat) -> u8 {
    ((n / 2 + n % 2) - 1) as u8
}

/// The file's bytes: the magic number, the leaf count, the table of
/// leaves, the number of bits of compressed data (eight bytes, most
/// significant first), and the compressed data.
pub open spec fn file_bytes(
    magic: Seq<u8>,
    leaf_count: u8,
    leaves: Seq<Leaf>,
    data_len: u64,
    data: Seq<u8>,
) -> Seq<u8> {
    magic + seq![leaf_count] + leaf_bytes(leaves) + be_bytes(data_len) + data
}

/// Where a file whose leaf count is `leaf_count` has its bit count.
pub open spec fn data_len_at(leaf_count: u8) -> int {
    5 + 9 * (leaf_count as int + 1)
}

/// The leaf stored at entry `k` of the table that starts at byte 5.
pub open spec fn leaf_at(from: Seq<u8>, k: int) -> Leaf {
    Leaf { frequency: be_value(from, 5 + 9 * k), data: from[5 + 9 * k + 8] }
}

/// The leaves of the table, when it is all there.
pub open spec fn leaves_at(from: Seq<u8>) -> Seq<Leaf> {
    Seq::new(from[4] as nat + 1, |k: int| leaf_at(from, k))
}

/// How reading `from` turns out: the error, or the leaf count, the leaves,
/// the number of bits of compressed data and where that data starts.
pub open spec fn parse_file(from: Seq<u8>) -> Result<(u8, Seq<Leaf>, u64, int), ZipError> {
    if from.len() < 4 {
        Err(ZipError::TooShort)
    } else if from.take(4) != magic_bytes() {
        Err(ZipError::InvalidMagic)
    } else if from.len() < 5 {
        Err(ZipError::MissingLeafCount)
    } else if from.len() < data_len_at(from[4]) {
        Err(ZipError::MissingLeafData)
    } else {
        Ok(
            (
                from[4],
                leaves_at(from),
                be_value(from, data_len_at(from[4])),
                data_len_at(from[4]) + 8,
            ),
        )
    }
}

/// Reading `from` would find the table of leaves complete and then run out
/// of bytes inside the bit count.
pub open spec fn cut_in_bit_count(from: Seq<u8>) -> bool {
    &&& parse_file(from) is Ok
    &&& from.len() < data_len_at(from[4]) + 8
}

proof fn lemma_be_round_trip(x: u64)
    ensures
        be_value(be_bytes(x), 0) == x,
{
    let b = be_bytes(x);
    assert(b[0] == ((x >> 56u64) & 0xffu64) as u8);
    assert(b[1] == ((x >> 48u64) & 0xffu64) as u8);
    assert(b[2] == ((x >> 40u64) & 0xffu64) as u8);
    assert(b[3] == ((x >> 32u64) & 0xffu64) as u8);
    assert(b[4] == ((x >> 24u64) & 0xffu64) as u8);
    assert(b[5] == ((x >> 16u64) & 0xffu64) as u8);
    assert(b[6] == ((x >> 8u64) & 0xffu64) as u8);
    assert(b[7] == ((x >> 0u64) & 0xffu64) as u8);
    assert(((((x >> 56u64) & 0xffu64) as u8) as u64) << 56u64 | ((((x >> 48u64) & 0xffu64) as u8) as u64)
        << 48u64 | ((((x >> 40u64) & 0xffu64) as u8) as u64) << 40u64 | ((((x >> 32u64) & 0xffu64) as u8) as u64)
        << 32u64 | ((((x >> 24u64) & 0xffu64) as u8) as u64) << 24u64 | ((((x >> 16u64) & 0xffu64) as u8) as u64)
        << 16u64 | ((((x >> 8u64) & 0xffu64) as u8) as u64) << 8u64 | ((((x >> 0u64) & 0xffu64) as u8) as u64)
        == x) by (bit_vector);
}

fn push_be(to: &mut Vec<u8>, x: u64)
    ensures
        final(to)@ == old(to)@ + be_bytes(x),
{
    let ghost start = to@;
    to.push(((x >> 56u64) & 0xffu64) as u8);
    to.push(((x >> 48u64) & 0xffu64) as u8);
    to.push(((x >> 40u64) & 0xffu64) as u8);
    to.push(((x >> 32u64) & 0xffu64) as u8);
    to.push(((x >> 24u64) & 0xffu64) as u8);
    to.push(((x >> 16u64) & 0xffu64) as u8);
    to.push(((x >> 8u64) & 0xffu64) as u8);
    to.push((x & 0xffu64) as u8);
    proof {
        assert(x >> 0u64 == x) by (bit_vector);
        assert(to@ =~= start + be_bytes(x));
    }
}

pub(crate) fn read_be(from: &[u8], at: usize) -> (x: u64)
    requires
        at + 8 <= from@.len(),
    ensures
        x == be_value(from@, at as int),
{
    (from[at] as u64) << 56u64 | (from[at + 1] as u64) << 48u64 | (from[at + 2] as u64) << 40u64
        | (from[at + 3] as u64) << 32u64 | (from[at + 4] as u64) << 24u64 | (from[at + 5] as u64)
        << 16u64 | (from[at + 6] as u64) << 8u64 | (from[at + 7] as u64)
}

/// A compressed file: its magic number, the leaf count (the number of
/// leaves less one), the leaves, the number of bits of compressed data, and
/// the compressed data.
#[derive(Debug, PartialEq)]
pub struct HuffmanFile<'a> {
    magic_number: [u8; 4],
    leaf_count: u8,
    pub leaves: Vec<Leaf>,
    pub data_len: u64,
    compressed_data: &'a Vec<u8>,
}

impl<'a> HuffmanFile<'a> {
    /// The magic number the file starts with.
    pub closed spec fn magic(&self) -> Seq<u8> {
        self.magic_number@
    }

    /// The leaf count: the number of leaves less one.
    pub closed spec fn stored_leaf_count(&self) -> u8 {
        self.leaf_count
    }

    /// The leaves, in the order they are written: the field `leaves`, which
    /// verified code outside this module reads through `into_parts`.
    pub closed spec fn leaf_table(&self) -> Seq<Leaf> {
        self.leaves@
    }

    /// The number of bits of compressed data: the field `data_len`, which
    /// verified code outside this module reads through `into_parts`.
    pub closed spec fn bit_count(&self) -> u64 {
        self.data_len
    }

    /// The compressed data.
    pub closed spec fn data(&self) -> Seq<u8> {
        self.compressed_data@
    }

    /// The bytes `write` appends.
    pub open spec fn bytes(&self) -> Seq<u8> {
        file_bytes(self.magic(), self.stored_leaf_count(), self.leaf_table(), self.bit_count(), self.data())
    }

    /// The file for `tree`, compressed data `data` and its number of bits
    /// `data_len`: the leaf count is half the nodes, rounded up, less one,
    /// and the leaves are those among the nodes up to that count.
    pub fn new(tree: &Tree, data: &'a Vec<u8>, data_len: u64) -> (h: Self)
        requires
            tree.nodes@.len() >= 1,
        ensures
            h.magic() == magic_bytes(),
            h.stored_leaf_count() == leaf_count_for(tree.nodes@.len()),
            h.leaf_table() == leaves_among(
                tree.nodes@.take(leaf_count_for(tree.nodes@.len()) as int + 1),
            ),
            h.bit_count() == data_len,
            h.data() == data@,
    {
        let n = tree.nodes.len();
        let leaf_count: u8 = ((n / 2 + n % 2) - 1) as u8;
        let mut leaves: Vec<Leaf> = Vec::new();
        let top: usize = leaf_count as usize + 1;
        let mut idx: usize = 0;
        while idx < top
            invariant
                top == leaf_count as int + 1,
                top <= tree.nodes@.len(),
                0 <= idx <= top,
                leaves@ == leaves_among(tree.nodes@.take(idx as int)),
            decreases top - idx,
        {
            proof {
                assert(tree.nodes@.take(idx + 1).drop_last() =~= tree.nodes@.take(idx as int));
            }
            if let Some(Node::Leaf(leaf)) = tree.nodes[idx] {
                leaves.push(leaf);
            }
            idx = idx + 1;
        }
        let h = HuffmanFile {
            magic_number: [0x5au8, 0x49u8, 0x50u8, 0x31u8],
            leaf_count,
            leaves,
            data_len,
            compressed_data: data,
        };
        proof {
            assert(h.magic_number@ =~= magic_bytes());
        }
        h
    }

    /// Appends the file's bytes to `to`: the magic number, the leaf count,
    /// each leaf (frequency in eight bytes, most significant first, then its
    /// byte), the number of bits of compressed data (the same way), and the
    /// compressed data.
    pub fn write(&self, to: &mut Vec<u8>)
        ensures
            final(to)@ == old(to)@ + self.bytes(),
    {
        let ghost start = to@;
        to.push(self.magic_number[0]);
        to.push(self.magic_number[1]);
        to.push(self.magic_number[2]);
        to.push(self.magic_number[3]);
        to.push(self.leaf_count);
        proof {
            assert(to@ =~= start + self.magic() + seq![self.leaf_count]);
        }
        let ghost head = to@;
        let mut i: usize = 0;
        while i < self.leaves.len()
            invariant
                0 <= i <= self.leaves@.len(),
                to@ == head + leaf_bytes(self.leaves@.take(i as int)),
            decreases self.leaves.len() - i,
        {
            let leaf = self.leaves[i];
            proof {
                assert(self.leaves@.take(i + 1).drop_last() =~= self.leaves@.take(i as int));
            }
            push_be(to, leaf.frequency);
            to.push(leaf.data);
            proof {
                assert(to@ =~= head + leaf_bytes(self.leaves@.take(i + 1)));
            }
            i = i + 1;
        }
        proof {
            assert(self.leaves@.take(i as int) =~= self.leaves@);
        }
        push_be(to, self.data_len);
        let ghost mid = to@;
        let mut j: usize = 0;
        while j < self.compressed_data.len()
            invariant
                0 <= j <= self.compressed_data@.len(),
                to@ == mid + self.compressed_data@.take(j as int),
            decreases self.compressed_data.len() - j,
        {
            to.push(self.compressed_data[j]);
            proof {
                assert(to@ =~= mid + self.compressed_data@.take(j + 1));
            }
            j = j + 1;
        }
        proof {
            assert(self.compressed_data@.take(j as int) =~= self.compressed_data@);
            assert(to@ =~= start + self.bytes());
        }
    }

    /// The file's leaves and its number of bits of compressed data.
    pub fn into_parts(self) -> (parts: (Vec<Leaf>, u64))
        ensures
            parts.0@ == self.leaf_table(),
            parts.1 == self.bit_count(),
    {
        (self.leaves, self.data_len)
    }

    /// Whether `from` can be read without running out of bytes inside the
    /// bit count that follows a complete table of leaves.
    pub fn readable(from: &[u8]) -> (b: bool)
        ensures
            b == !cut_in_bit_count(from@),
    {
        if from.len() < 5 || from[0] != 0x5au8 || from[1] != 0x49u8 || from[2] != 0x50u8 || from[3]
            != 0x31u8 {
            proof {
                if from@.len() >= 5 {
                    assert(from@.take(4)[0] == from@[0]);
                    assert(from@.take(4)[1] == from@[1]);
                    assert(from@.take(4)[2] == from@[2]);
                    assert(from@.take(4)[3] == from@[3]);
                }
            }
            return true;
        }
        proof {
            assert(from@.take(4) =~= magic_bytes());
        }
        let table_end: usize = 5 + 9 * (from[4] as usize + 1);
        !(from.len() >= table_end && from.len() < table_end + 8)
    }

    /// Reads a file: checks the magic number, reads the leaf count, the
    /// table of leaves and the number of bits of compressed data, and copies
    /// the rest, the compressed data, onto `buffer`, which the file then
    /// holds. Fails where `from` is shorter than the magic number, does not
    /// start with it, or ends before the leaf count or inside the table.
    pub fn read(from: &[u8], buffer: &'a mut Vec<u8>) -> (res: Result<Self, ZipError>)
        requires
            !cut_in_bit_count(from@),
        ensures
            parse_file(from@) matches Err(e) ==> res == Err::<Self, ZipError>(e) && final(buffer)@
                == old(buffer)@,
            parse_file(from@) matches Ok(p) ==> res matches Ok(h) && h.magic() == magic_bytes()
                && h.stored_leaf_count() == p.0 && h.leaf_table() == p.1 && h.bit_count() == p.2
                && h.data() == old(buffer)@ + from@.skip(p.3) && final(buffer)@ == h.data(),
    {
        if from.len() < 4 {
            return Err(ZipError::TooShort);
        }
        if from[0] != 0x5au8 || from[1] != 0x49u8 || from[2] != 0x50u8 || from[3] != 0x31u8 {
            proof {
                assert(from@.take(4)[0] == from@[0]);
                assert(from@.take(4)[1] == from@[1]);
                assert(from@.take(4)[2] == from@[2]);
                assert(from@.take(4)[3] == from@[3]);
            }
            return Err(ZipError::InvalidMagic);
        }
        let magic_number: [u8; 4] = [from[0], from[1], from[2], from[3]];
        proof {
            assert(from@.take(4) =~= magic_bytes());
            assert(magic_number@ =~= magic_bytes());
        }
        let mut cursor: usize = 4;
        if cursor >= from.len() {
            return Err(ZipError::MissingLeafCount);
        }
        let leaf_count: u8 = from[cursor];
        cursor = cursor + 1;
        let count: usize = leaf_count as usize + 1;
        let mut leaves: Vec<Leaf> = Vec::new();
        let mut k: usize = 0;
        while k < count
            invariant
                count == leaf_count as int + 1,
                leaf_count == from@[4],
                from@.len() >= 5,
                from@.take(4) == magic_bytes(),
                0 <= k <= count,
                cursor == 5 + 9 * k,
                from@.len() >= 5 + 9 * k,
                leaves@ == Seq::new(k as nat, |j: int| leaf_at(from@, j)),
            decreases count - k,
        {
            if cursor + 9 > from.len() {
                return Err(ZipError::MissingLeafData);
            }
            let frequency = read_be(from, cursor);
            let byte = from[cursor + 8];
            cursor = cursor + 9;
            leaves.push(Leaf { frequency, data: byte });
            proof {
                assert(leaves@ =~= Seq::new((k + 1) as nat, |j: int| leaf_at(from@, j)));
            }
            k = k + 1;
        }
        proof {
            assert(leaves@ =~= leaves_at(from@));
        }
        let data_len = read_be(from, cursor);
        cursor = cursor + 8;
        let mut i: usize = cursor;
        while i < from.len()
            invariant
                cursor <= i <= from@.len(),
                buffer@ == old(buffer)@ + from@.subrange(cursor as int, i as int),
            decreases from.len() - i,
        {
            buffer.push(from[i]);
            proof {
                assert(buffer@ =~= old(buffer)@ + from@.subrange(cursor as int, i + 1));
            }
            i = i + 1;
        }
        proof {
            assert(from@.subrange(cursor as int, i as int) =~= from@.skip(cursor as int));
        }
        Ok(Self { magic_number, leaf_count, leaves, data_len, compressed_data: buffer })
    }
}

proof fn lemma_leaf_bytes_len(leaves: Seq<Leaf>)
    ensures
        leaf_bytes(leaves).len() == 9 * leaves.len(),
    decreases leaves.len(),
{
    if leaves.len() > 0 {
        lemma_leaf_bytes_len(leaves.drop_last());
    }
}

proof fn lemma_leaf_bytes_entry(leaves: Seq<Leaf>, k: int)
    requires
        0 <= k < leaves.len(),
    ensures
        leaf_bytes(leaves).subrange(9 * k, 9 * k + 9) == be_bytes(leaves[k].frequency) + seq![
            leaves[k].data,
        ],
    decreases leaves.len(),
{
    let r = leaves.drop_last();
    lemma_leaf_bytes_len(r);
    if k < r.len() {
        lemma_leaf_bytes_entry(r, k);
        assert(leaf_bytes(leaves).subrange(9 * k, 9 * k + 9) =~= leaf_bytes(r).subrange(
            9 * k,
            9 * k + 9,
        ));
    } else {
        assert(leaf_bytes(leaves).subrange(9 * k, 9 * k + 9) =~= be_bytes(leaves[k].frequency)
            + seq![leaves[k].data]);
    }
}

proof fn lemma_be_value_at(s: Seq<u8>, at: int, x: u64)
    requires
        0 <= at,
        at + 8 <= s.len(),
        s.subrange(at, at + 8) == be_bytes(x),
    ensures
        be_value(s, at) == x,
{
    lemma_be_round_trip(x);
    let b = be_bytes(x);
    assert(s[at] == b[0]);
    assert(s[at + 1] == b[1]);
    assert(s[at + 2] == b[2]);
    assert(s[at + 3] == b[3]);
    assert(s[at + 4] == b[4]);
    assert(s[at + 5] == b[5]);
    assert(s[at + 6] == b[6]);
    assert(s[at + 7] == b[7]);
}

/// What `write` writes, `read` reads back: a file holding the magic number
/// and one leaf more than its leaf count reads as the same leaf count,
/// leaves and bit count, and its compressed data follows them.
pub proof fn lemma_read_written(h: HuffmanFile)
    requires
        h.magic() == magic_bytes(),
        h.leaf_table().len() == h.stored_leaf_count() + 1,
    ensures
        !cut_in_bit_count(h.bytes()),
        parse_file(h.bytes()) == Ok::<(u8, Seq<Leaf>, u64, int), ZipError>(
            (
                h.stored_leaf_count(),
                h.leaf_table(),
                h.bit_count(),
                data_len_at(h.stored_leaf_count()) + 8,
            ),
        ),
        h.bytes().skip(data_len_at(h.stored_leaf_count()) + 8) == h.data(),
{
    let lc = h.stored_leaf_count();
    let leaves = h.leaf_table();
    let b = h.bytes();
    let lb = leaf_bytes(leaves);
    lemma_leaf_bytes_len(leaves);
    let n = leaves.len() as int;
    assert(b.take(4) =~= magic_bytes());
    assert(b[4] == lc);
    assert(b.subrange(5, 5 + 9 * n) =~= lb);
    assert forall|k: int| 0 <= k < n implies #[trigger] leaves_at(b)[k] == leaves[k] by {
        lemma_leaf_bytes_entry(leaves, k);
        assert(b.subrange(5 + 9 * k, 5 + 9 * k + 8) =~= lb.subrange(9 * k, 9 * k + 9).take(8));
        assert((be_bytes(leaves[k].frequency) + seq![leaves[k].data]).take(8) =~= be_bytes(
            leaves[k].frequency,
        ));
        lemma_be_value_at(b, 5 + 9 * k, leaves[k].frequency);
        assert(b[5 + 9 * k + 8] == lb.subrange(9 * k, 9 * k + 9)[8]);
    }
    assert(leaves_at(b) =~= leaves);
    assert(b.subrange(5 + 9 * n, 5 + 9 * n + 8) =~= be_bytes(h.bit_count()));
    lemma_be_value_at(b, 5 + 9 * n, h.bit_count());
    assert(b.skip(data_len_at(lc) + 8) =~= h.data());
}

proof fn lemma_be_bytes_of_value(s: Seq<u8>, at: int)
    requires
        0 <= at,
        at + 8 <= s.len(),
    ensures
        be_bytes(be_value(s, at)) == s.subrange(at, at + 8),
{
    let x = be_value(s, at);
    let (b0, b1, b2, b3, b4, b5, b6, b7) = (
        s[at],
        s[at + 1],
        s[at + 2],
        s[at + 3],
        s[at + 4],
        s[at + 5],
        s[at + 6],
        s[at + 7],
    );
    assert(((x >> 56u64) & 0xffu64) as u8 == b0 && ((x >> 48u64) & 0xffu64) as u8 == b1 && ((x
        >> 40u64) & 0xffu64) as u8 == b2 && ((x >> 32u64) & 0xffu64) as u8 == b3 && ((x >> 24u64)
        & 0xffu64) as u8 == b4 && ((x >> 16u64) & 0xffu64) as u8 == b5 && ((x >> 8u64) & 0xffu64)
        as u8 == b6 && ((x >> 0u64) & 0xffu64) as u8 == b7) by (bit_vector)
        requires
            x == (b0 as u64) << 56u64 | (b1 as u64) << 48u64 | (b2 as u64) << 40u64 | (b3 as u64)
                << 32u64 | (b4 as u64) << 24u64 | (b5 as u64) << 16u64 | (b6 as u64) << 8u64
                | (b7 as u64),
    ;
    assert(be_bytes(x) =~= s.subrange(at, at + 8));
}

proof fn lemma_leaf_table_bytes(from: Seq<u8>, k: int)
    requires
        from.len() >= 5,
        0 <= k <= from[4] as int + 1,
        5 + 9 * k <= from.len(),
    ensures
        leaf_bytes(leaves_at(from).take(k)) == from.subrange(5, 5 + 9 * k),
    decreases k,
{
    if k == 0 {
        assert(leaves_at(from).take(0) =~= Seq::<Leaf>::empty());
        assert(from.subrange(5, 5) =~= Seq::<u8>::empty());
    } else {
        lemma_leaf_table_bytes(from, k - 1);
        let t = leaves_at(from).take(k);
        assert(t.drop_last() =~= leaves_at(from).take(k - 1));
        assert(t.last() == leaf_at(from, k - 1));
        lemma_be_bytes_of_value(from, 5 + 9 * (k - 1));
        assert(leaf_bytes(t) =~= from.subrange(5, 5 + 9 * k));
    }
}

/// What `read` reads, `write` writes back: a file that reads without error
/// consists of the magic number, the leaf count, the leaves, the bit count
/// and the compressed data that reading finds in it, in that order.
pub proof fn lemma_written_read(from: Seq<u8>)
    requires
        parse_file(from) is Ok,
        !cut_in_bit_count(from),
    ensures
        file_bytes(
            magic_bytes(),
            parse_file(from).unwrap().0,
            parse_file(from).unwrap().1,
            parse_file(from).unwrap().2,
            from.skip(parse_file(from).unwrap().3),
        ) == from,
{
    let lc = from[4];
    let n = lc as int + 1;
    let dl = data_len_at(lc);
    lemma_leaf_table_bytes(from, n);
    assert(leaves_at(from).take(n) =~= leaves_at(from));
    lemma_be_bytes_of_value(from, dl);
    assert(magic_bytes() + seq![lc] + from.subrange(5, dl) + from.subrange(dl, dl + 8) + from.skip(
        dl + 8,
    ) =~= from);
}

/// What a writer wrote, a reader of its bytes reads back: once the writer
/// holds no waiting bits (as after `flush`), a reader of its buffer told of
/// at most as many bits as were written hands out those bits, in order.
pub proof fn lemma_reader_reads_written(w: BitWriter, r: BitReader)
    requires
        w.wf(),
        w.bit_count == 0,
        r.data() == w.buffer@,
        r.total() <= w.bits().len(),
    ensures
        r.stream() == w.bits().take(r.total() as int),
{
    assert(low_bits_u8(w.byte, 0) =~= Seq::<bool>::empty());
    assert(w.bits() =~= bits_of_bytes(w.buffer@));
}

} // verus!
