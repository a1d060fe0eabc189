//! A cursor that pulls codes of arbitrary bit width out of a byte sequence,
//! least significant bit first.

use vstd::arithmetic::div_mod::lemma_div_denominator;
use vstd::arithmetic::power2::{
    lemma2_to64, lemma2_to64_rest, lemma_pow2_adds, lemma_pow2_pos, lemma_pow2_strictly_increases,
    pow2,
};
use vstd::bits::lemma_usize_shl_is_mul;
use vstd::prelude::*;

verus! {

/// The widest code that one request may ask for.
pub const MAX_TAKE: u8 = 32;

/// Bit `k` of a byte sequence: the bytes are numbered from the front, and the
/// bits of each byte from its least significant end.
pub open spec fn bit_at(bytes: Seq<u8>, k: int) -> nat {
    (bytes[k / 8] as nat / pow2((k % 8) as nat)) % 2
}

/// The number that the `n` bits from bit `start` on stand for, the first bit
/// being the least significant.
pub open spec fn bits_value(bytes: Seq<u8>, start: int, n: nat) -> nat
    decreases n,
{
    if n == 0 {
        0
    } else {
        bits_value(bytes, start, (n - 1) as nat) + bit_at(bytes, start + n - 1) * pow2(
            (n - 1) as nat,
        )
    }
}

/// A number made of `n` bits is less than `2^n`.
pub proof fn lemma_bits_value_bound(bytes: Seq<u8>, start: int, n: nat)
    ensures
        bits_value(bytes, start, n) < pow2(n),
    decreases n,
{
    if n == 0 {
        lemma2_to64();
    } else {
        lemma_bits_value_bound(bytes, start, (n - 1) as nat);
        lemma_pow2_adds((n - 1) as nat, 1);
        lemma2_to64();
        let p = pow2((n - 1) as nat);
        let b = bit_at(bytes, start + n - 1);
        assert(b * p <= p) by (nonlinear_arith)
            requires
                b <= 1,
        ;
    }
}

/// A code may span bytes: the bits of two requests in a row make the number
/// that one request for all of them gives, the first request's bits lowest.
pub proof fn lemma_bits_value_split(bytes: Seq<u8>, start: int, a: nat, b: nat)
    ensures
        bits_value(bytes, start, a + b) == bits_value(bytes, start, a) + pow2(a) * bits_value(
            bytes,
            start + a,
            b,
        ),
    decreases b,
{
    if b == 0 {
        assert(pow2(a) * 0 == 0) by (nonlinear_arith);
    } else {
        lemma_bits_value_split(bytes, start, a, (b - 1) as nat);
        lemma_pow2_adds(a, (b - 1) as nat);
        let low = bits_value(bytes, start, a);
        let high = bits_value(bytes, start + a, (b - 1) as nat);
        let bit = bit_at(bytes, start + a + b - 1);
        let pa = pow2(a);
        let pb = pow2((b - 1) as nat);
        assert(bits_value(bytes, start, a + b) == bits_value(bytes, start, (a + b - 1) as nat) + bit
            * pow2((a + b - 1) as nat));
        assert(bits_value(bytes, start + a, b) == high + bit * pb);
        assert(low + pa * high + bit * (pa * pb) == low + pa * (high + bit * pb))
            by (nonlinear_arith);
    }
}

/// Bit `j` of byte `k` is the byte, divided by `2^j`, modulo 2.
proof fn lemma_bit_of_byte(bytes: Seq<u8>, k: int, j: int, unit: nat)
    requires
        0 <= j < 8,
        unit == pow2(j as nat),
    ensures
        bit_at(bytes, 8 * k + j) == (bytes[k] as nat / unit) % 2,
{
    assert((8 * k + j) / 8 == k && (8 * k + j) % 8 == j);
}

/// A byte is the sum of its bits, each times its power of two.
proof fn lemma_byte_is_its_bits(b: u8)
    ensures
        b == (b % 2) + ((b / 2) % 2) * 2 + ((b / 4) % 2) * 4 + ((b / 8) % 2) * 8 + ((b / 16) % 2)
            * 16 + ((b / 32) % 2) * 32 + ((b / 64) % 2) * 64 + ((b / 128) % 2) * 128,
{
    assert(b == (b % 2) + ((b / 2) % 2) * 2 + ((b / 4) % 2) * 4 + ((b / 8) % 2) * 8 + ((b / 16) % 2)
        * 16 + ((b / 32) % 2) * 32 + ((b / 64) % 2) * 64 + ((b / 128) % 2) * 128) by (bit_vector);
}

/// Eight bits from the start of a byte are that byte.
pub proof fn lemma_bits_value_byte(bytes: Seq<u8>, k: int)
    requires
        0 <= k < bytes.len(),
    ensures
        bits_value(bytes, 8 * k, 8) == bytes[k],
{
    lemma2_to64();
    let b = bytes[k];
    let s = 8 * k;
    lemma_bit_of_byte(bytes, k, 0, 1);
    lemma_bit_of_byte(bytes, k, 1, 2);
    lemma_bit_of_byte(bytes, k, 2, 4);
    lemma_bit_of_byte(bytes, k, 3, 8);
    lemma_bit_of_byte(bytes, k, 4, 16);
    lemma_bit_of_byte(bytes, k, 5, 32);
    lemma_bit_of_byte(bytes, k, 6, 64);
    lemma_bit_of_byte(bytes, k, 7, 128);
    lemma_byte_is_its_bits(b);
    assert(bits_value(bytes, s, 0) == 0);
    assert(bits_value(bytes, s, 1) == bits_value(bytes, s, 0) + bit_at(bytes, s + 0) * 1);
    assert(bits_value(bytes, s, 2) == bits_value(bytes, s, 1) + bit_at(bytes, s + 1) * 2);
    assert(bits_value(bytes, s, 3) == bits_value(bytes, s, 2) + bit_at(bytes, s + 2) * 4);
    assert(bits_value(bytes, s, 4) == bits_value(bytes, s, 3) + bit_at(bytes, s + 3) * 8);
    assert(bits_value(bytes, s, 5) == bits_value(bytes, s, 4) + bit_at(bytes, s + 4) * 16);
    assert(bits_value(bytes, s, 6) == bits_value(bytes, s, 5) + bit_at(bytes, s + 5) * 32);
    assert(bits_value(bytes, s, 7) == bits_value(bytes, s, 6) + bit_at(bytes, s + 6) * 64);
    assert(bits_value(bytes, s, 8) == bits_value(bytes, s, 7) + bit_at(bytes, s + 7) * 128);
}

/// The mathematical content of a [`BitCursor`].
pub struct BitStream {
    /// The bytes that the cursor was made from.
    pub bytes: Seq<u8>,
    /// How many bits were consumed.
    pub pos: nat,
    /// Whether a request has run past the end.
    pub finished: bool,
}

impl BitStream {
    /// The stream after a request for `n` bits.
    pub open spec fn advance(self, n: nat) -> BitStream {
        if self.finished {
            self
        } else if self.pos + n <= 8 * self.bytes.len() {
            BitStream { pos: self.pos + n, ..self }
        } else {
            BitStream { pos: 8 * self.bytes.len(), finished: true, ..self }
        }
    }

    /// What a request for `n` bits yields: the next `n` bits as a number, or
    /// nothing once the stream has run out.
    pub open spec fn peek(self, n: nat) -> Option<nat> {
        if !self.finished && self.pos + n <= 8 * self.bytes.len() {
            Some(bits_value(self.bytes, self.pos as int, n))
        } else {
            None
        }
    }
}

/// Pulls bits out of a byte buffer.
pub struct BitCursor {
    /// The bytes to read from.
    pub bytes: Vec<u8>,
    /// The index of the next byte to load.
    pub next: usize,
    /// What is left of the byte in progress, its next bit lowest.
    pub cur: usize,
    /// How many bits of the byte in progress are unconsumed.
    pub counter: u32,
    pub finished: bool,
}

impl View for BitCursor {
    type V = BitStream;

    open spec fn view(&self) -> BitStream {
        BitStream {
            bytes: self.bytes@,
            pos: (8 * self.next - self.counter) as nat,
            finished: self.finished,
        }
    }
}

impl BitCursor {
    /// The byte in progress is what is left of the byte loaded last.
    pub open spec fn wf(&self) -> bool {
        &&& self.next <= self.bytes@.len()
        &&& self.counter <= 8
        &&& self.counter > 0 ==> self.next >= 1 && self.cur == self.bytes@[self.next - 1] as nat
            / pow2((8 - self.counter) as nat)
    }

    /// A cursor at the first bit of `seq`.
    pub fn new(seq: Vec<u8>) -> (bc: Self)
        ensures
            bc.wf(),
            bc@ == (BitStream { bytes: seq@, pos: 0, finished: false }),
    {
        BitCursor { bytes: seq, next: 0, cur: 0, counter: 0, finished: false }
    }

    /// Takes the next `n` bits, packed with the first bit lowest.
    ///
    /// Returns `None`, from then on for every request, when fewer than `n`
    /// bits are left.
    pub fn take_n(&mut self, n: u8) -> (r: Option<usize>)
        requires
            old(self).wf(),
            n <= MAX_TAKE,
        ensures
            final(self).wf(),
            final(self)@ == old(self)@.advance(n as nat),
            match old(self)@.peek(n as nat) {
                Some(v) => r == Some(v as usize) && v <= usize::MAX,
                None => r.is_none(),
            },
    {
        if self.finished {
            return None;
        }
        let ghost start = self@.pos as int;
        let ghost bytes = self.bytes@;
        let mut output: usize = 0;
        let mut i: u8 = 0;
        proof {
            lemma2_to64();
        }
        while i < n
            invariant
                self.wf(),
                !self.finished,
                !old(self).finished,
                self.bytes@ == bytes,
                bytes == old(self).bytes@,
                start == old(self)@.pos,
                i <= n <= MAX_TAKE,
                self@.pos == start + i,
                output == bits_value(bytes, start, i as nat),
                output < pow2(i as nat),
            decreases n - i,
        {
            if self.counter == 0 {
                if self.next >= self.bytes.len() {
                    self.finished = true;
                    return None;
                }
                self.cur = self.bytes[self.next] as usize;
                self.next += 1;
                self.counter = 8;
                proof {
                    lemma2_to64();
                }
            }
            let ghost k = start + i;
            let ghost byte = bytes[self.next - 1];
            let ghost shift = (8 - self.counter) as nat;
            let bit = self.cur & 1;
            let cur = self.cur;
            proof {
                assert(k / 8 == self.next - 1 && k % 8 == shift);
                assert(bit == cur % 2) by (bit_vector)
                    requires
                        bit == cur & 1,
                ;
                assert(bit == bit_at(bytes, k));
                lemma_pow2_pos(i as nat);
                lemma_pow2_adds(i as nat, 1);
                lemma2_to64();
                lemma2_to64_rest();
                lemma_pow2_strictly_increases(i as nat, 32);
                assert(bit * pow2(i as nat) <= pow2(i as nat)) by (nonlinear_arith)
                    requires
                        bit <= 1,
                ;
                lemma_usize_shl_is_mul(bit, i as usize);
                lemma_usize_shl_is_mul(1usize, i as usize);
            }
            let term = bit << i;
            let ghost unit = 1usize << (i as usize);
            assert(term == 0 || term == unit) by {
                let p = pow2(i as nat);
                assert(bit == 0 || bit == 1);
                assert(0 * p == 0 && 1 * p == p) by (nonlinear_arith);
            }
            assert((output | term) == output + term) by (bit_vector)
                requires
                    output < unit,
                    unit == 1usize << (i as usize),
                    i < 32,
                    term == 0 || term == unit,
            ;
            output |= term;
            assert((cur >> 1usize) == cur / 2) by (bit_vector);
            self.cur >>= 1;
            self.counter -= 1;
            proof {
                lemma_div_denominator(byte as int, pow2(shift) as int, 2);
                lemma_pow2_adds(shift, 1);
                lemma_pow2_pos(shift);
            }
            i += 1;
        }
        Some(output)
    }
}

} // verus!
