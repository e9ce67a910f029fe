//! PPM (P6) framing: the header and the packed RGB payload are
//! assembled in memory; a driver writes the finished bytes out.
use vstd::prelude::*;

use crate::decode::RGB;

verus! {

/// The decimal digits of `n` as ASCII bytes, most significant first.
pub open spec fn spec_dec(n: int) -> Seq<u8>
    decreases n,
{
    if n < 10 {
        seq![(48 + if n >= 0 { n } else { 0 }) as u8]
    } else {
        spec_dec(n / 10).push((48 + n % 10) as u8)
    }
}

/// The PPM header `P6\n{width} {height}\n255\n`.
pub open spec fn spec_ppm_header(width: u32, height: u32) -> Seq<u8> {
    seq![80u8, 54u8, 10u8] + spec_dec(width as int) + seq![32u8] + spec_dec(height as int) + seq![
        10u8,
        50u8,
        53u8,
        53u8,
        10u8,
    ]
}

/// Append the decimal digits of `n` to `out`.
#[verifier::loop_isolation(false)]
fn push_dec(out: &mut Vec<u8>, n: u32)
    ensures
        final(out)@ == old(out)@ + spec_dec(n as int),
{
    let mut tmp: Vec<u8> = Vec::new();
    let mut m: u32 = n;
    while m >= 10
        invariant
            spec_dec(n as int) == spec_dec(m as int) + tmp@.reverse(),
        decreases m,
    {
        let d = (48 + (m % 10)) as u8;
        proof {
            let t2 = tmp@.push(d);
            assert(t2.reverse() =~= seq![d] + tmp@.reverse());
            assert(spec_dec(m as int) == spec_dec(m as int / 10).push(d));
            assert(spec_dec(m as int / 10) + (seq![d] + tmp@.reverse()) =~= (spec_dec(
                m as int / 10,
            ) + seq![d]) + tmp@.reverse());
            assert(spec_dec(m as int / 10) + seq![d] =~= spec_dec(m as int / 10).push(d));
        }
        tmp.push(d);
        m = m / 10;
    }
    out.push((48 + m) as u8);
    proof {
        assert(spec_dec(m as int) =~= seq![(48 + m as int) as u8]);
        assert(old(out)@.push((48 + m) as u8) =~= old(out)@ + spec_dec(m as int));
    }
    let mut k: usize = tmp.len();
    while k > 0
        invariant
            k <= tmp@.len(),
            out@ == old(out)@ + spec_dec(m as int) + tmp@.reverse().take(tmp@.len() - k),
        decreases k,
    {
        k = k - 1;
        out.push(tmp[k]);
        proof {
            let rev = tmp@.reverse();
            assert(rev[tmp@.len() - k - 1] == tmp@[k as int]);
            assert(rev.take(tmp@.len() - k) =~= rev.take(tmp@.len() - (k + 1)).push(tmp@[k as int]));
        }
    }
    proof {
        assert(tmp@.reverse().take(tmp@.len() as int) =~= tmp@.reverse());
        assert(out@ == old(out)@ + spec_dec(m as int) + tmp@.reverse());
        assert(old(out)@ + spec_dec(m as int) + tmp@.reverse() =~= old(out)@ + (spec_dec(m as int)
            + tmp@.reverse()));
    }
}

/// Assembles a P6 PPM image in memory: the header on construction,
/// then 3 payload bytes for every pixel handed to `write_slice`.
pub struct PpmWriter {
    buf: Vec<u8>,
    header_len: usize,
}

impl PpmWriter {
    /// The bytes assembled so far.
    pub closed spec fn view(self) -> Seq<u8> {
        self.buf@
    }

    /// The length of the header; every later byte is payload.
    pub closed spec fn spec_header_len(self) -> int {
        self.header_len as int
    }

    /// Start an image: the buffer holds the header
    /// `P6\n{width} {height}\n255\n` and no payload.
    pub fn new(width: u32, height: u32) -> (r: PpmWriter)
        ensures
            r.view() == spec_ppm_header(width, height),
            r.spec_header_len() == spec_ppm_header(width, height).len(),
    {
        let mut buf: Vec<u8> = Vec::new();
        buf.push(80);
        buf.push(54);
        buf.push(10);
        push_dec(&mut buf, width);
        buf.push(32);
        push_dec(&mut buf, height);
        buf.push(10);
        buf.push(50);
        buf.push(53);
        buf.push(53);
        buf.push(10);
        proof {
            assert(buf@ =~= spec_ppm_header(width, height));
        }
        let header_len = buf.len();
        PpmWriter { buf, header_len }
    }

    /// Append pixels to the payload: exactly three bytes (R, G, B) per
    /// pixel, in order.
    #[verifier::loop_isolation(false)]
    pub fn write_slice(&mut self, pixel: &[RGB])
        ensures
            final(self).spec_header_len() == old(self).spec_header_len(),
            final(self).view().len() == old(self).view().len() + 3 * pixel@.len(),
            final(self).view().take(old(self).view().len() as int) == old(self).view(),
            forall|i: int|
                0 <= i < pixel@.len() ==> final(self).view()[old(self).view().len() + 3 * i]
                    == pixel@[i].r && final(self).view()[old(self).view().len() + 3 * i + 1]
                    == pixel@[i].g && final(self).view()[old(self).view().len() + 3 * i + 2]
                    == pixel@[i].b,
    {
        let n = pixel.len();
        let base = self.buf.len();
        let mut i: usize = 0;
        while i < n
            invariant
                n == pixel@.len(),
                base == old(self).view().len(),
                self.header_len == old(self).header_len,
                i <= n,
                self.buf@.len() == base + 3 * i,
                self.buf@.take(base as int) == old(self).view(),
                forall|t: int|
                    0 <= t < i ==> self.buf@[base + 3 * t] == pixel@[t].r && self.buf@[base + 3 * t
                        + 1] == pixel@[t].g && self.buf@[base + 3 * t + 2] == pixel@[t].b,
            decreases n - i,
        {
            let p = pixel[i];
            self.buf.push(p.r);
            self.buf.push(p.g);
            self.buf.push(p.b);
            proof {
                assert(self.buf@.take(base as int) =~= old(self).view());
            }
            i = i + 1;
        }
    }

    /// Hand the finished bytes to the caller.
    pub fn into_bytes(self) -> (r: Vec<u8>)
        ensures
            r@ == self.view(),
    {
        self.buf
    }
}

} // verus!
