//! The entropy-coded segment bit reader: a 32-bit accumulator over the
//! byte stream, refilled with byte-stuffing removal. A restart or EOI
//! marker met during refill sets a pending flag and further refills
//! supply zero bits, so the remainder of the final MCU decodes cleanly.
use vstd::arithmetic::power2::lemma2_to64;
use vstd::arithmetic::power2::lemma_pow2_adds;
use vstd::arithmetic::power2::lemma_pow2_pos;
use vstd::arithmetic::power2::pow2;
use vstd::bits::lemma_u32_pow2_no_overflow;
use vstd::bits::lemma_u32_shl_is_mul;
use vstd::bits::lemma_u32_shr_is_div;
use vstd::bits::lemma_u32_low_bits_mask_is_mod;
use vstd::bits::low_bits_mask;
use vstd::prelude::*;

use crate::huffman::HuffmanTree;
use crate::DecodeError;

verus! {

/// Bit-level reader over the entropy-coded segment.
///
/// The low `count` bits of `buf` are the buffered lookahead; `pos` is the
/// next unread byte of `data`; `pending` records that a restart or EOI
/// marker was consumed while refilling.
pub struct BitReader {
    pub data: Vec<u8>,
    pub pos: usize,
    pub buf: u32,
    pub count: u8,
    pub pending: bool,
}

/// Whether `b` is an RSTn (0xD0..0xD7) or EOI (0xD9) marker byte.
pub open spec fn is_rst_or_eoi(b: u8) -> bool {
    (0xD0 <= b && b <= 0xD7) || b == 0xD9
}

impl BitReader {
    /// The buffered bits fit in `count`, which fits the accumulator.
    pub open spec fn wf(self) -> bool {
        &&& self.pos <= self.data@.len()
        &&& self.count <= 32
        &&& (self.buf as nat) < pow2(self.count as nat)
    }

    /// Two readers in the same state over the same byte vector.
    pub open spec fn state_eq(self, o: BitReader) -> bool {
        &&& self.data == o.data
        &&& self.pos == o.pos
        &&& self.buf == o.buf
        &&& self.count == o.count
        &&& self.pending == o.pending
    }

    pub fn new(data: Vec<u8>, pos: usize) -> (r: BitReader)
        requires
            pos <= data@.len(),
        ensures
            r.wf(),
            r.data@ == data@,
            r.pos == pos,
            r.buf == 0,
            r.count == 0,
            r.pending == false,
    {
        proof {
            lemma_pow2_pos(0);
        }
        BitReader { data, pos, buf: 0, count: 0, pending: false }
    }
}

/// One refill step: append 8 bits to the accumulator. Zeros if a marker
/// is already pending; otherwise the next unstuffed data byte. Meeting
/// 0xFF 0x00 appends the literal 0xFF; meeting an RSTn or EOI marker
/// consumes it, sets the pending flag and appends zeros; any other
/// marker inside entropy data is a malformed stream; running out of
/// bytes is a truncation.
pub open spec fn spec_step(s: BitReader) -> Result<BitReader, DecodeError> {
    if s.pending {
        Ok(
            BitReader {
                data: s.data,
                pos: s.pos,
                buf: s.buf << 8,
                count: (s.count + 8) as u8,
                pending: true,
            },
        )
    } else if s.pos >= s.data@.len() {
        Err(DecodeError::Truncated)
    } else if s.data@[s.pos as int] != 0xFF {
        Ok(
            BitReader {
                data: s.data,
                pos: (s.pos + 1) as usize,
                buf: (s.buf << 8) | (s.data@[s.pos as int] as u32),
                count: (s.count + 8) as u8,
                pending: false,
            },
        )
    } else if s.pos + 1 >= s.data@.len() {
        Err(DecodeError::Truncated)
    } else if s.data@[s.pos + 1] == 0x00 {
        Ok(
            BitReader {
                data: s.data,
                pos: (s.pos + 2) as usize,
                buf: (s.buf << 8) | 0xFF,
                count: (s.count + 8) as u8,
                pending: false,
            },
        )
    } else if is_rst_or_eoi(s.data@[s.pos + 1]) {
        Ok(
            BitReader {
                data: s.data,
                pos: (s.pos + 2) as usize,
                buf: s.buf << 8,
                count: (s.count + 8) as u8,
                pending: true,
            },
        )
    } else {
        Err(DecodeError::MalformedStream)
    }
}

/// Refill until at least `n` bits are buffered (at most two steps are
/// ever needed for n <= 16).
pub open spec fn spec_fill(s: BitReader, n: u8) -> Result<BitReader, DecodeError> {
    if s.count >= n {
        Ok(s)
    } else {
        match spec_step(s) {
            Err(e) => Err(e),
            Ok(s1) => if s1.count >= n {
                Ok(s1)
            } else {
                match spec_step(s1) {
                    Err(e) => Err(e),
                    Ok(s2) => Ok(s2),
                }
            },
        }
    }
}

/// The top `n` buffered bits, right-aligned.
pub open spec fn spec_peek_val(s: BitReader, n: u8) -> u16
    recommends
        n <= s.count,
{
    (s.buf >> ((s.count - n) as u32)) as u16
}

/// The state after consuming the top `n` buffered bits.
pub open spec fn spec_consume(s: BitReader, n: u8) -> BitReader
    recommends
        n <= s.count,
{
    BitReader {
        data: s.data,
        pos: s.pos,
        buf: (s.buf as nat % pow2((s.count - n) as nat)) as u32,
        count: (s.count - n) as u8,
        pending: s.pending,
    }
}

/// The signed value that `len` entropy bits with unsigned value `raw`
/// encode: `raw` itself when its top bit is set, else
/// `raw - (2^len - 1)`.
pub open spec fn spec_signed_value(raw: u16, len: u8) -> int {
    if len == 0 {
        0
    } else if raw as int >= pow2((len - 1) as nat) {
        raw as int
    } else {
        raw as int - pow2(len as nat) + 1
    }
}

/// The state after a reset: the accumulator is cleared; if no marker is
/// pending, the RSTn (or, at the end of the image, EOI) marker must
/// stand at the read position and is consumed.
pub open spec fn spec_reset(s: BitReader) -> Result<BitReader, DecodeError> {
    if s.pending {
        Ok(BitReader { data: s.data, pos: s.pos, buf: 0, count: 0, pending: false })
    } else if s.pos + 2 > s.data@.len() {
        Err(DecodeError::Truncated)
    } else if s.data@[s.pos as int] != 0xFF {
        Err(DecodeError::MalformedStream)
    } else if is_rst_or_eoi(s.data@[s.pos + 1]) {
        Ok(BitReader { data: s.data, pos: (s.pos + 2) as usize, buf: 0, count: 0, pending: false })
    } else {
        Err(DecodeError::MalformedStream)
    }
}

/// Appending a byte to a bounded accumulator: the shift-or equals the
/// arithmetic form and stays within the widened bound.
proof fn lemma_append_byte(buf: u32, count: u32, b: u32)
    requires
        count <= 23,
        (buf as nat) < pow2(count as nat),
        b < 256,
    ensures
        ((buf << 8) | b) == buf * 256 + b,
        (buf << 8) == buf * 256,
        (buf * 256 + b) < pow2((count + 8) as nat),
{
    lemma2_to64();
    lemma_u32_pow2_no_overflow(count as nat);
    lemma_u32_shl_is_mul(1u32, count);
    lemma_pow2_adds(count as nat, 8);
    assert(((buf << 8) | b) == buf * 256 + b && (buf << 8) == buf * 256 && buf * 256 + b < (1u32
        << count) * 256) by (bit_vector)
        requires
            count <= 23,
            buf < (1u32 << count),
            b < 256,
    ;
}

/// For non-negative `x` and positive `d`, the quotient is zero exactly
/// when `x < d`.
proof fn lemma_div_small(x: int, d: int)
    requires
        0 <= x,
        0 < d,
    ensures
        (x / d == 0) <==> x < d,
{
    vstd::arithmetic::div_mod::lemma_fundamental_div_mod(x, d);
    vstd::arithmetic::div_mod::lemma_mod_bound(x, d);
    let q = x / d;
    if q >= 1 {
        assert(d * q >= d) by (nonlinear_arith)
            requires
                d > 0,
                q >= 1,
        ;
    }
    if q <= -1 {
        assert(d * q <= -d) by (nonlinear_arith)
            requires
                d > 0,
                q <= -1,
        ;
    }
}

impl BitReader {
    /// One refill step; the state afterwards is exactly `spec_step`.
    fn refill_step(&mut self) -> (r: Result<(), DecodeError>)
        requires
            old(self).wf(),
            old(self).count <= 23,
        ensures
            final(self).wf(),
            final(self).count <= old(self).count + 8,
            match spec_step(*old(self)) {
                Ok(s) => r == Ok::<(), DecodeError>(()) && final(self).state_eq(s),
                Err(e) => r == Err::<(), DecodeError>(e) && final(self).state_eq(*old(self)),
            },
    {
        proof {
            lemma_append_byte(self.buf, self.count as u32, 0);
        }
        if self.pending {
            self.buf = self.buf << 8;
            self.count = self.count + 8;
            return Ok(());
        }
        if self.pos >= self.data.len() {
            return Err(DecodeError::Truncated);
        }
        let b = self.data[self.pos];
        if b != 0xFF {
            proof {
                lemma_append_byte(self.buf, self.count as u32, b as u32);
            }
            self.buf = (self.buf << 8) | (b as u32);
            self.count = self.count + 8;
            self.pos = self.pos + 1;
            return Ok(());
        }
        if self.pos + 1 >= self.data.len() {
            return Err(DecodeError::Truncated);
        }
        let c = self.data[self.pos + 1];
        if c == 0x00 {
            proof {
                lemma_append_byte(self.buf, self.count as u32, 0xFF);
            }
            self.buf = (self.buf << 8) | 0xFF;
            self.count = self.count + 8;
            self.pos = self.pos + 2;
            return Ok(());
        }
        if (0xD0 <= c && c <= 0xD7) || c == 0xD9 {
            self.buf = self.buf << 8;
            self.count = self.count + 8;
            self.pos = self.pos + 2;
            self.pending = true;
            return Ok(());
        }
        Err(DecodeError::MalformedStream)
    }

    /// Peek the next `n` bits without consuming them, refilling as
    /// needed: the result and the state afterwards are exactly those of
    /// `spec_fill` and `spec_peek_val`.
    pub fn peek(&mut self, n: u8) -> (r: Result<u16, DecodeError>)
        requires
            old(self).wf(),
            1 <= n <= 16,
        ensures
            final(self).wf(),
            final(self).data@ == old(self).data@,
            match spec_fill(*old(self), n) {
                Ok(s2) => r == Ok::<u16, DecodeError>(spec_peek_val(s2, n))
                    && final(self).state_eq(s2) && s2.count >= n,
                Err(e) => r == Err::<u16, DecodeError>(e),
            },
    {
        if self.count < n {
            match self.refill_step() {
                Ok(_) => (),
                Err(e) => {
                    return Err(e);
                },
            }
            if self.count < n {
                match self.refill_step() {
                    Ok(_) => (),
                    Err(e) => {
                        return Err(e);
                    },
                }
            }
        }
        let shift = (self.count - n) as u32;
        proof {
            lemma_u32_shr_is_div(self.buf, shift);
            lemma_pow2_adds((n) as nat, shift as nat);
            lemma_pow2_pos(shift as nat);
            assert((self.buf >> shift) as nat == self.buf as nat / pow2(shift as nat));
            assert(self.buf as nat / pow2(shift as nat) < pow2(n as nat)) by (nonlinear_arith)
                requires
                    (self.buf as nat) < pow2(n as nat) * pow2(shift as nat),
                    pow2(shift as nat) >= 1,
            ;
            assert(pow2(16) == 65536) by {
                lemma2_to64();
            }
            assert(pow2(n as nat) <= pow2(16)) by {
                if (n as nat) < 16 {
                    vstd::arithmetic::power2::lemma_pow2_strictly_increases(n as nat, 16);
                }
            }
        }
        let v = #[verifier::truncate] ((self.buf >> shift) as u16);
        Ok(v)
    }

    /// Consume the top `n` buffered bits.
    pub fn consume(&mut self, n: u8)
        requires
            old(self).wf(),
            1 <= n <= old(self).count,
        ensures
            final(self).wf(),
            final(self).state_eq(spec_consume(*old(self), n)),
    {
        self.count = self.count - n;
        proof {
            lemma_u32_pow2_no_overflow(self.count as nat);
            lemma_u32_shl_is_mul(1u32, self.count as u32);
            lemma_u32_low_bits_mask_is_mod(self.buf, self.count as nat);
            lemma_pow2_pos(self.count as nat);
            assert((1u32 << (self.count as u32)) - 1 == low_bits_mask(self.count as nat) as u32);
        }
        self.buf = self.buf & ((1u32 << (self.count as u32)) - 1);
    }

    /// Decode one Huffman symbol: look the next 16 bits up in the table
    /// and consume the code length found there. A window with no valid
    /// code prefix (length 0) is a malformed stream.
    pub fn read_decode_haffman(&mut self, map: &HuffmanTree) -> (r: Result<u8, DecodeError>)
        requires
            old(self).wf(),
            map.wf(),
        ensures
            final(self).wf(),
            final(self).data@ == old(self).data@,
            match spec_fill(*old(self), 16) {
                Ok(s2) => {
                    let e = map.entry(spec_peek_val(s2, 16) as int);
                    if e.0 == 0 {
                        r == Err::<u8, DecodeError>(DecodeError::MalformedStream)
                    } else {
                        r == Ok::<u8, DecodeError>(e.1) && final(self).state_eq(
                            spec_consume(s2, e.0),
                        )
                    }
                },
                Err(e) => r == Err::<u8, DecodeError>(e),
            },
    {
        let x = match self.peek(16) {
            Ok(x) => x,
            Err(e) => {
                return Err(e);
            },
        };
        let (len, val) = map.get(x);
        if len == 0 {
            return Err(DecodeError::MalformedStream);
        }
        self.consume(len);
        Ok(val)
    }

    /// Read a DPCM-coded signed value of `len` bits.
    pub fn read_value(&mut self, len: u8) -> (r: Result<i16, DecodeError>)
        requires
            old(self).wf(),
            len <= 15,
        ensures
            final(self).wf(),
            final(self).data@ == old(self).data@,
            len == 0 ==> r == Ok::<i16, DecodeError>(0) && final(self).state_eq(*old(self)),
            len >= 1 ==> match spec_fill(*old(self), len) {
                Ok(s2) => r matches Ok(v) && v as int == spec_signed_value(
                    spec_peek_val(s2, len),
                    len,
                ) && final(self).state_eq(spec_consume(s2, len)),
                Err(e) => r == Err::<i16, DecodeError>(e),
            },
    {
        if len == 0 {
            return Ok(0);
        }
        let raw = match self.peek(len) {
            Ok(x) => x,
            Err(e) => {
                return Err(e);
            },
        };
        proof {
            let s2 = spec_fill(*old(self), len).unwrap();
            assert(raw == spec_peek_val(s2, len));
            let sh = (s2.count - len) as u32;
            let d = s2.buf >> sh;
            lemma_u32_shr_is_div(s2.buf, sh);
            lemma_pow2_adds(len as nat, sh as nat);
            lemma_pow2_pos(sh as nat);
            assert((d as nat) < pow2(len as nat)) by (nonlinear_arith)
                requires
                    d as nat == (s2.buf as nat) / pow2(sh as nat),
                    (s2.buf as nat) < pow2(len as nat) * pow2(sh as nat),
                    pow2(sh as nat) >= 1,
            ;
            assert(pow2((len - 1) as nat) * 2 == pow2(len as nat)) by {
                lemma_pow2_adds((len - 1) as nat, 1);
                lemma2_to64();
            }
            assert(pow2(len as nat) <= 32768) by {
                if (len as nat) < 15 {
                    vstd::arithmetic::power2::lemma_pow2_strictly_increases(len as nat, 15);
                }
                lemma2_to64();
            }
            assert(raw == d);
            assert((raw as nat) < pow2(len as nat));
        }
        let mut v = raw as i16;
        let top = raw >> ((len - 1) as u32);
        proof {
            vstd::bits::lemma_u16_shr_is_div(raw, (len - 1) as u16);
            lemma_pow2_pos((len - 1) as nat);
            lemma_div_small(raw as int, pow2((len - 1) as nat) as int);
        }
        if top == 0 {
            proof {
                vstd::bits::lemma_u16_pow2_no_overflow(len as nat);
                vstd::bits::lemma_u16_shl_is_mul(1u16, len as u16);
            }
            let bias = ((1u16 << (len as u32)) - 1) as i16;
            v = v - bias;
        }
        self.consume(len);
        Ok(v)
    }

    /// Clear the accumulator and consume the restart marker: the marker
    /// met during refill if one is pending, else the marker that must
    /// stand at the read position.
    pub fn reset(&mut self) -> (r: Result<(), DecodeError>)
        requires
            old(self).wf(),
        ensures
            final(self).wf(),
            final(self).data@ == old(self).data@,
            match spec_reset(*old(self)) {
                Ok(s) => r == Ok::<(), DecodeError>(()) && final(self).state_eq(s),
                Err(e) => r == Err::<(), DecodeError>(e),
            },
    {
        proof {
            lemma_pow2_pos(0);
        }
        if self.pending {
            self.buf = 0;
            self.count = 0;
            self.pending = false;
            return Ok(());
        }
        if self.data.len() - self.pos < 2 {
            return Err(DecodeError::Truncated);
        }
        let b = self.data[self.pos];
        if b != 0xFF {
            return Err(DecodeError::MalformedStream);
        }
        let c = self.data[self.pos + 1];
        if (0xD0 <= c && c <= 0xD7) || c == 0xD9 {
            self.pos = self.pos + 2;
            self.buf = 0;
            self.count = 0;
            return Ok(());
        }
        Err(DecodeError::MalformedStream)
    }
}

/// Two readers over the same bytes in the same position and fill state,
/// whether or not they share the same vector allocation.
pub open spec fn view_eq(a: BitReader, b: BitReader) -> bool {
    &&& a.data@ == b.data@
    &&& a.pos == b.pos
    &&& a.buf == b.buf
    &&& a.count == b.count
    &&& a.pending == b.pending
}

/// A refill step reads only the bytes: readers over equal byte
/// sequences step alike.
pub proof fn lemma_step_view(a: BitReader, b: BitReader)
    requires
        view_eq(a, b),
    ensures
        match (spec_step(a), spec_step(b)) {
            (Ok(a1), Ok(b1)) => view_eq(a1, b1),
            (Err(e1), Err(e2)) => e1 == e2,
            _ => false,
        },
{
}

/// Refilling reads only the bytes.
pub proof fn lemma_fill_view(a: BitReader, b: BitReader, n: u8)
    requires
        view_eq(a, b),
    ensures
        match (spec_fill(a, n), spec_fill(b, n)) {
            (Ok(a1), Ok(b1)) => view_eq(a1, b1) && spec_peek_val(a1, n) == spec_peek_val(b1, n),
            (Err(e1), Err(e2)) => e1 == e2,
            _ => false,
        },
{
    lemma_step_view(a, b);
    if let (Ok(a1), Ok(b1)) = (spec_step(a), spec_step(b)) {
        lemma_step_view(a1, b1);
    }
}

/// Prefilling never changes what is peeked: refilling to `k` bits first
/// and then to `n` yields the same `n`-bit window as refilling to `n`
/// at once. Decoding is therefore independent of how a peek is split
/// into refills.
pub proof fn lemma_peek_prefill(s: BitReader, k: u8, n: u8)
    requires
        s.wf(),
        1 <= k <= n,
        n <= 16,
        spec_fill(s, n) is Ok,
    ensures
        spec_fill(s, k) is Ok,
        spec_fill(spec_fill(s, k).unwrap(), n) is Ok,
        spec_peek_val(spec_fill(spec_fill(s, k).unwrap(), n).unwrap(), n) == spec_peek_val(
            spec_fill(s, n).unwrap(),
            n,
        ),
{
}

} // verus!
