//! Block reconstruction: dequantization, zig-zag reordering, fixed-point
//! IDCT, chroma upsampling and YCbCr to RGB conversion.
use vstd::prelude::*;
use vstd::wrapping::i16_specs;
use vstd::wrapping::i32_specs;

use crate::mcu::sv_get;
use crate::mcu::sv_set;
use crate::mcu::Block;
use crate::mcu::Mcu;
use crate::quantization_table::QuantizationTable;
use crate::start_of_frame_0::StartOfFrameInfo;

verus! {

/// The zig-zag scan position that raster position `k` reads from.
pub open spec fn spec_zigzag_at(k: int) -> int {
    if k == 0 {
        0
    }
    else if k == 1 {
        1
    }
    else if k == 2 {
        5
    }
    else if k == 3 {
        6
    }
    else if k == 4 {
        14
    }
    else if k == 5 {
        15
    }
    else if k == 6 {
        27
    }
    else if k == 7 {
        28
    }
    else if k == 8 {
        2
    }
    else if k == 9 {
        4
    }
    else if k == 10 {
        7
    }
    else if k == 11 {
        13
    }
    else if k == 12 {
        16
    }
    else if k == 13 {
        26
    }
    else if k == 14 {
        29
    }
    else if k == 15 {
        42
    }
    else if k == 16 {
        3
    }
    else if k == 17 {
        8
    }
    else if k == 18 {
        12
    }
    else if k == 19 {
        17
    }
    else if k == 20 {
        25
    }
    else if k == 21 {
        30
    }
    else if k == 22 {
        41
    }
    else if k == 23 {
        43
    }
    else if k == 24 {
        9
    }
    else if k == 25 {
        11
    }
    else if k == 26 {
        18
    }
    else if k == 27 {
        24
    }
    else if k == 28 {
        31
    }
    else if k == 29 {
        40
    }
    else if k == 30 {
        44
    }
    else if k == 31 {
        53
    }
    else if k == 32 {
        10
    }
    else if k == 33 {
        19
    }
    else if k == 34 {
        23
    }
    else if k == 35 {
        32
    }
    else if k == 36 {
        39
    }
    else if k == 37 {
        45
    }
    else if k == 38 {
        52
    }
    else if k == 39 {
        54
    }
    else if k == 40 {
        20
    }
    else if k == 41 {
        22
    }
    else if k == 42 {
        33
    }
    else if k == 43 {
        38
    }
    else if k == 44 {
        46
    }
    else if k == 45 {
        51
    }
    else if k == 46 {
        55
    }
    else if k == 47 {
        60
    }
    else if k == 48 {
        21
    }
    else if k == 49 {
        34
    }
    else if k == 50 {
        37
    }
    else if k == 51 {
        47
    }
    else if k == 52 {
        50
    }
    else if k == 53 {
        56
    }
    else if k == 54 {
        59
    }
    else if k == 55 {
        61
    }
    else if k == 56 {
        35
    }
    else if k == 57 {
        36
    }
    else if k == 58 {
        48
    }
    else if k == 59 {
        49
    }
    else if k == 60 {
        57
    }
    else if k == 61 {
        58
    }
    else if k == 62 {
        62
    }
    else {
        63
    }
}

/// The 10-bit fixed-point IDCT cosine kernel, row-major:
/// entry (i, j) is round(1024 * a(j) * cos((2i+1) j pi / 16))
/// with a(0) = 1/sqrt(2) and a(j>0) = 1.
pub open spec fn spec_kernel_at(k: int) -> int {
    if k == 0 {
        724
    }
    else if k == 1 {
        1004
    }
    else if k == 2 {
        946
    }
    else if k == 3 {
        851
    }
    else if k == 4 {
        724
    }
    else if k == 5 {
        569
    }
    else if k == 6 {
        392
    }
    else if k == 7 {
        200
    }
    else if k == 8 {
        724
    }
    else if k == 9 {
        851
    }
    else if k == 10 {
        392
    }
    else if k == 11 {
        -200
    }
    else if k == 12 {
        -724
    }
    else if k == 13 {
        -1004
    }
    else if k == 14 {
        -946
    }
    else if k == 15 {
        -569
    }
    else if k == 16 {
        724
    }
    else if k == 17 {
        569
    }
    else if k == 18 {
        -392
    }
    else if k == 19 {
        -1004
    }
    else if k == 20 {
        -724
    }
    else if k == 21 {
        200
    }
    else if k == 22 {
        946
    }
    else if k == 23 {
        851
    }
    else if k == 24 {
        724
    }
    else if k == 25 {
        200
    }
    else if k == 26 {
        -946
    }
    else if k == 27 {
        -569
    }
    else if k == 28 {
        724
    }
    else if k == 29 {
        851
    }
    else if k == 30 {
        -392
    }
    else if k == 31 {
        -1004
    }
    else if k == 32 {
        724
    }
    else if k == 33 {
        -200
    }
    else if k == 34 {
        -946
    }
    else if k == 35 {
        569
    }
    else if k == 36 {
        724
    }
    else if k == 37 {
        -851
    }
    else if k == 38 {
        -392
    }
    else if k == 39 {
        1004
    }
    else if k == 40 {
        724
    }
    else if k == 41 {
        -569
    }
    else if k == 42 {
        -392
    }
    else if k == 43 {
        1004
    }
    else if k == 44 {
        -724
    }
    else if k == 45 {
        -200
    }
    else if k == 46 {
        946
    }
    else if k == 47 {
        -851
    }
    else if k == 48 {
        724
    }
    else if k == 49 {
        -851
    }
    else if k == 50 {
        392
    }
    else if k == 51 {
        200
    }
    else if k == 52 {
        -724
    }
    else if k == 53 {
        1004
    }
    else if k == 54 {
        -946
    }
    else if k == 55 {
        569
    }
    else if k == 56 {
        724
    }
    else if k == 57 {
        -1004
    }
    else if k == 58 {
        946
    }
    else if k == 59 {
        -851
    }
    else if k == 60 {
        724
    }
    else if k == 61 {
        -569
    }
    else if k == 62 {
        392
    }
    else {
        -200
    }
}

fn zigzag_at(k: usize) -> (r: usize)
    requires
        k < 64,
    ensures
        r as int == spec_zigzag_at(k as int),
        r < 64,
{
    match k {
        0 => 0,
        1 => 1,
        2 => 5,
        3 => 6,
        4 => 14,
        5 => 15,
        6 => 27,
        7 => 28,
        8 => 2,
        9 => 4,
        10 => 7,
        11 => 13,
        12 => 16,
        13 => 26,
        14 => 29,
        15 => 42,
        16 => 3,
        17 => 8,
        18 => 12,
        19 => 17,
        20 => 25,
        21 => 30,
        22 => 41,
        23 => 43,
        24 => 9,
        25 => 11,
        26 => 18,
        27 => 24,
        28 => 31,
        29 => 40,
        30 => 44,
        31 => 53,
        32 => 10,
        33 => 19,
        34 => 23,
        35 => 32,
        36 => 39,
        37 => 45,
        38 => 52,
        39 => 54,
        40 => 20,
        41 => 22,
        42 => 33,
        43 => 38,
        44 => 46,
        45 => 51,
        46 => 55,
        47 => 60,
        48 => 21,
        49 => 34,
        50 => 37,
        51 => 47,
        52 => 50,
        53 => 56,
        54 => 59,
        55 => 61,
        56 => 35,
        57 => 36,
        58 => 48,
        59 => 49,
        60 => 57,
        61 => 58,
        62 => 62,
        _ => 63,
    }
}

fn kernel_at(k: usize) -> (r: i16)
    requires
        k < 64,
    ensures
        r as int == spec_kernel_at(k as int),
        -1024 <= r <= 1024,
{
    match k {
        0 => 724,
        1 => 1004,
        2 => 946,
        3 => 851,
        4 => 724,
        5 => 569,
        6 => 392,
        7 => 200,
        8 => 724,
        9 => 851,
        10 => 392,
        11 => (0 - 200),
        12 => (0 - 724),
        13 => (0 - 1004),
        14 => (0 - 946),
        15 => (0 - 569),
        16 => 724,
        17 => 569,
        18 => (0 - 392),
        19 => (0 - 1004),
        20 => (0 - 724),
        21 => 200,
        22 => 946,
        23 => 851,
        24 => 724,
        25 => 200,
        26 => (0 - 946),
        27 => (0 - 569),
        28 => 724,
        29 => 851,
        30 => (0 - 392),
        31 => (0 - 1004),
        32 => 724,
        33 => (0 - 200),
        34 => (0 - 946),
        35 => 569,
        36 => 724,
        37 => (0 - 851),
        38 => (0 - 392),
        39 => 1004,
        40 => 724,
        41 => (0 - 569),
        42 => (0 - 392),
        43 => 1004,
        44 => (0 - 724),
        45 => (0 - 200),
        46 => 946,
        47 => (0 - 851),
        48 => 724,
        49 => (0 - 851),
        50 => 392,
        51 => 200,
        52 => (0 - 724),
        53 => 1004,
        54 => (0 - 946),
        55 => 569,
        56 => 724,
        57 => (0 - 1004),
        58 => 946,
        59 => (0 - 851),
        60 => 724,
        61 => (0 - 569),
        62 => 392,
        _ => (0 - 200),
    }
}

/// Floor division by a positive constant, on values away from the type
/// minimum.
fn floor_div(x: i32, d: i32) -> (r: i32)
    requires
        d > 0,
        x > i32::MIN + d,
    ensures
        r == x as int / d as int,
{
    if x >= 0 {
        x / d
    } else {
        proof {
            let xi = x as int;
            let di = d as int;
            vstd::arithmetic::div_mod::lemma_fundamental_div_mod(xi, di);
            vstd::arithmetic::div_mod::lemma_mod_bound(xi, di);
            let q = xi / di;
            let m = xi % di;
            assert(di - 1 - xi == (-q) * di + (di - 1 - m)) by (nonlinear_arith)
                requires
                    xi == di * q + m,
            ;
            vstd::arithmetic::div_mod::lemma_fundamental_div_mod_converse_div(
                di - 1 - xi,
                di,
                -q,
                di - 1 - m,
            );
        }
        (x - (d - 1)) / d
    }
}

/// Dequantized coefficient: the product of coefficient and table entry,
/// wrapped to 16 bits.
pub open spec fn spec_dequant(b: Seq<i16>, qt: Seq<i16>, k: int) -> i16 {
    i16_specs::wrapping_mul(b[k], qt[k])
}

/// First 1-D IDCT pass, partial sum: the first `x` products of input
/// row `i` against kernel row `j`, accumulated in wrapping 32-bit
/// arithmetic.
pub open spec fn spec_sum1(b: Seq<i16>, i: int, j: int, x: int) -> i32
    decreases x,
{
    if x <= 0 {
        0i32
    } else {
        i32_specs::wrapping_add(
            spec_sum1(b, i, j, x - 1),
            ((b[8 * i + (x - 1)] as int) * spec_kernel_at(8 * j + (x - 1))) as i32,
        )
    }
}

/// The intermediate value at index `idx` (= 8j + i) after the first
/// pass.
pub open spec fn spec_res1(b: Seq<i16>, idx: int) -> i32 {
    spec_sum1(b, idx % 8, idx / 8, 8)
}

/// Second 1-D IDCT pass, partial sum, for output position (i, j).
pub open spec fn spec_sum2(b: Seq<i16>, i: int, j: int, x: int) -> i32
    decreases x,
{
    if x <= 0 {
        0i32
    } else {
        i32_specs::wrapping_add(
            spec_sum2(b, i, j, x - 1),
            i32_specs::wrapping_mul(
                spec_res1(b, 8 * j + (x - 1)),
                spec_kernel_at(8 * i + (x - 1)) as i32,
            ),
        )
    }
}

/// Truncating division by 4 (rounding toward zero), as the machine
/// performs it on a signed accumulator.
pub open spec fn spec_trunc_div4(v: int) -> int {
    if v >= 0 {
        v / 4
    } else {
        -((-v) / 4)
    }
}

/// The spatial-domain sample at (i, j): the second-pass sum divided by
/// 4 and arithmetically shifted right by 20. Signed around 0; the level
/// shift by 128 has not been applied.
pub open spec fn spec_idct_at(b: Seq<i16>, i: int, j: int) -> int {
    spec_trunc_div4(spec_sum2(b, i, j, 8) as int) / 1048576
}

impl Block {
    /// Multiply each coefficient by the corresponding quantization table
    /// entry (both still in zig-zag order), wrapping to 16 bits.
    pub fn dequantize(&self, qt: &[i16; 64]) -> (r: Block)
        ensures
            forall|k: int| 0 <= k < 64 ==> r.0@[k] == spec_dequant(self.0@, qt@, k),
    {
        let mut out: [i16; 64] = [0i16; 64];
        let mut k: usize = 0;
        while k < 64
            invariant
                k <= 64,
                forall|t: int| 0 <= t < k ==> out@[t] == spec_dequant(self.0@, qt@, t),
            decreases 64 - k,
        {
            out[k] = self.0[k].wrapping_mul(qt[k]);
            k = k + 1;
        }
        Block(out)
    }

    /// Reorder the coefficients from zig-zag scan order to natural
    /// row-major order.
    pub fn zigzag(&self) -> (r: Block)
        ensures
            forall|k: int| 0 <= k < 64 ==> r.0@[k] == self.0@[spec_zigzag_at(k)],
    {
        let mut out: [i16; 64] = [0i16; 64];
        let mut k: usize = 0;
        while k < 64
            invariant
                k <= 64,
                forall|t: int| 0 <= t < k ==> out@[t] == self.0@[spec_zigzag_at(t)],
            decreases 64 - k,
        {
            let z = zigzag_at(k);
            out[k] = self.0[z];
            k = k + 1;
        }
        Block(out)
    }

    /// 2-D inverse DCT: two 1-D passes with the 10-bit fixed-point
    /// kernel, 32-bit wrapping accumulation, then division by 4 and an
    /// arithmetic shift right by 20.
    #[verifier::loop_isolation(false)]
    #[verifier::rlimit(100)]
    pub fn idct(&self) -> (r: Block)
        ensures
            forall|i: int, j: int|
                #![trigger r.0@[8 * i + j]]
                0 <= i < 8 && 0 <= j < 8 ==> r.0@[8 * i + j] == spec_idct_at(self.0@, i, j),
    {
        let mut res1: [i32; 64] = [0i32; 64];
        let mut i: usize = 0;
        while i < 8
            invariant
                i <= 8,
                forall|i1: int, j1: int|
                    #![trigger res1@[8 * j1 + i1]]
                    0 <= i1 < 8 && 0 <= j1 < 8 && i1 < i ==> res1@[8 * j1 + i1] == spec_res1(
                        self.0@,
                        8 * j1 + i1,
                    ),
            decreases 8 - i,
        {
            let mut j: usize = 0;
            while j < 8
                invariant
                    i < 8,
                    j <= 8,
                    forall|i1: int, j1: int|
                        #![trigger res1@[8 * j1 + i1]]
                        0 <= i1 < 8 && 0 <= j1 < 8 && (i1 < i || (i1 == i && j1 < j)) ==> res1@[8
                            * j1 + i1] == spec_res1(self.0@, 8 * j1 + i1),
                decreases 8 - j,
            {
                let mut v: i32 = 0;
                let mut x: usize = 0;
                while x < 8
                    invariant
                        i < 8,
                        j < 8,
                        x <= 8,
                        v == spec_sum1(self.0@, i as int, j as int, x as int),
                    decreases 8 - x,
                {
                    let a = self.0[i * 8 + x];
                    let kv = kernel_at(j * 8 + x);
                    proof {
                        assert(-33554432 <= (a as int) * (kv as int) <= 33554432)
                            by (nonlinear_arith)
                            requires
                                -32768 <= a <= 32767,
                                -1024 <= kv <= 1024,
                        ;
                    }
                    let p: i32 = (a as i32) * (kv as i32);
                    v = v.wrapping_add(p);
                    x = x + 1;
                }
                let ghost before = res1@;
                res1[j * 8 + i] = v;
                proof {
                    assert(8 * (j as int) + i == j * 8 + i);
                    assert((8 * (j as int) + i) % 8 == i && (8 * (j as int) + i) / 8 == j) by (nonlinear_arith)
                        requires
                            0 <= i < 8,
                            0 <= j < 8,
                    ;
                }
                j = j + 1;
            }
            i = i + 1;
        }
        let mut out: [i16; 64] = [0i16; 64];
        let mut j: usize = 0;
        while j < 8
            invariant
                j <= 8,
                forall|i1: int, j1: int|
                    #![trigger res1@[8 * j1 + i1]]
                    0 <= i1 < 8 && 0 <= j1 < 8 ==> res1@[8 * j1 + i1] == spec_res1(
                        self.0@,
                        8 * j1 + i1,
                    ),
                forall|i1: int, j1: int|
                    #![trigger out@[8 * i1 + j1]]
                    0 <= i1 < 8 && 0 <= j1 < 8 && j1 < j ==> out@[8 * i1 + j1] == spec_idct_at(
                        self.0@,
                        i1,
                        j1,
                    ),
            decreases 8 - j,
        {
            let mut i: usize = 0;
            while i < 8
                invariant
                    j < 8,
                    i <= 8,
                    forall|i1: int, j1: int|
                        #![trigger out@[8 * i1 + j1]]
                        0 <= i1 < 8 && 0 <= j1 < 8 && (j1 < j || (j1 == j && i1 < i)) ==> out@[8
                            * i1 + j1] == spec_idct_at(self.0@, i1, j1),
                decreases 8 - i,
            {
                let mut v: i32 = 0;
                let mut x: usize = 0;
                while x < 8
                    invariant
                        i < 8,
                        j < 8,
                        x <= 8,
                        v == spec_sum2(self.0@, i as int, j as int, x as int),
                    decreases 8 - x,
                {
                    let p: i32 = res1[j * 8 + x].wrapping_mul(kernel_at(i * 8 + x) as i32);
                    v = v.wrapping_add(p);
                    x = x + 1;
                }
                let w: i32 = v / 4;
                proof {
                    assert(w == spec_trunc_div4(v as int));
                    assert(-536870912 <= w <= 536870911);
                }
                let s: i32 = floor_div(w, 1048576);
                proof {
                    assert(-512 <= s <= 511) by (nonlinear_arith)
                        requires
                            s == w as int / 1048576,
                            -536870912 <= w <= 536870911,
                    ;
                }
                let ghost before = out@;
                out[i * 8 + j] = s as i16;
                proof {
                    assert(8 * (i as int) + j == i * 8 + j);
                }
                i = i + 1;
            }
            j = j + 1;
        }
        Block(out)
    }

    /// Nearest-neighbour 2x2 expansion of the sub-block (I, J) of a
    /// chroma block: output pixel (i, j) reads the source at
    /// ((I*8 + i) / 2, (J*8 + j) / 2).
    pub fn upsample_2x2(&self, oh: usize, ow: usize) -> (r: Block)
        requires
            oh <= 1,
            ow <= 1,
        ensures
            forall|i: int, j: int|
                #![trigger r.0@[8 * i + j]]
                0 <= i < 8 && 0 <= j < 8 ==> r.0@[8 * i + j] == self.0@[((oh * 8 + i) / 2) * 8 + (
                ow * 8 + j) / 2],
    {
        match (oh, ow) {
            (0, 0) => self.upsample_2x2_inline::<0, 0>(),
            (0, 1) => self.upsample_2x2_inline::<0, 1>(),
            (1, 0) => self.upsample_2x2_inline::<1, 0>(),
            _ => self.upsample_2x2_inline::<1, 1>(),
        }
    }

    fn upsample_2x2_inline<const I: usize, const J: usize>(&self) -> (r: Block)
        requires
            I <= 1,
            J <= 1,
        ensures
            forall|i: int, j: int|
                #![trigger r.0@[8 * i + j]]
                0 <= i < 8 && 0 <= j < 8 ==> r.0@[8 * i + j] == self.0@[((I * 8 + i) / 2) * 8 + (J
                    * 8 + j) / 2],
    {
        let mut out: [i16; 64] = [0i16; 64];
        let mut i: usize = 0;
        while i < 8
            invariant
                i <= 8,
                I <= 1,
                J <= 1,
                forall|i1: int, j1: int|
                    #![trigger out@[8 * i1 + j1]]
                    0 <= i1 < 8 && 0 <= j1 < 8 && i1 < i ==> out@[8 * i1 + j1] == self.0@[((I * 8
                        + i1) / 2) * 8 + (J * 8 + j1) / 2],
            decreases 8 - i,
        {
            let mut j: usize = 0;
            while j < 8
                invariant
                    i < 8,
                    j <= 8,
                    I <= 1,
                    J <= 1,
                    forall|i1: int, j1: int|
                        #![trigger out@[8 * i1 + j1]]
                        0 <= i1 < 8 && 0 <= j1 < 8 && (i1 < i || (i1 == i && j1 < j)) ==> out@[8
                            * i1 + j1] == self.0@[((I * 8 + i1) / 2) * 8 + (J * 8 + j1) / 2],
                decreases 8 - j,
            {
                out[i * 8 + j] = self.0[(I * 8 + i) / 2 * 8 + (J * 8 + j) / 2];
                j = j + 1;
            }
            i = i + 1;
        }
        Block(out)
    }
}

/// A packed RGB pixel.
#[derive(Debug, Default, Clone, Copy, PartialEq, Eq, PartialOrd, Ord, Hash, Structural)]
pub struct RGB {
    pub r: u8,
    pub g: u8,
    pub b: u8,
}

/// The 8-bit sample of a 10-bit fixed-point channel value: arithmetic
/// shift right by 10, clamp into [-128, 127], then level-shift by 128.
pub open spec fn spec_chomp(x: int) -> u8 {
    let t = x / 1024;
    if t < -128 {
        0
    } else if t > 127 {
        255
    } else {
        (t + 128) as u8
    }
}

/// Per-pixel YCbCr to RGB conversion in fixed point (multiplier 1024):
/// R = Y + 1.402 Cr, G = Y - 0.344 Cb - 0.714 Cr, B = Y + 1.772 Cb.
pub open spec fn spec_rgb_pixel(y: i16, cb: i16, cr: i16) -> RGB {
    RGB {
        r: spec_chomp(y * 1024 + 1436 * cr),
        g: spec_chomp(y * 1024 - 352 * cb - 731 * cr),
        b: spec_chomp(y * 1024 + 1815 * cb),
    }
}

fn chomp(x: i32) -> (r: u8)
    requires
        -134217728 <= x <= 134217727,
    ensures
        r == spec_chomp(x as int),
{
    let t = floor_div(x, 1024);
    if t < -128 {
        0
    } else if t > 127 {
        255
    } else {
        (t + 128) as u8
    }
}

/// The full reconstruction of one spatial sample from a still
/// zig-zag-ordered coefficient block: dequantize, reorder, transform.
pub open spec fn spec_reconstruct(b: Seq<i16>, qt: Seq<i16>, i: int, j: int) -> int {
    let dq = Seq::new(64, |t: int| spec_dequant(b, qt, t));
    let zz = Seq::new(64, |t: int| dq[spec_zigzag_at(t)]);
    spec_idct_at(zz, i, j)
}

/// The number of blocks component `c` contributes to one MCU.
pub open spec fn spec_comp_blocks(sof: StartOfFrameInfo, c: int) -> int {
    sof.component_infos@[c].horizontal_sampling * sof.component_infos@[c].vertical_sampling
}

/// Blocks of one MCU: all of component 0, then one for each chroma
/// component (whose sampling is 1x1).
pub open spec fn spec_total_blocks(sof: StartOfFrameInfo) -> int {
    spec_comp_blocks(sof, 0) + 2
}

/// The component that block `b` of an MCU belongs to.
pub open spec fn spec_comp_of_block(sof: StartOfFrameInfo, b: int) -> int {
    if b < spec_comp_blocks(sof, 0) {
        0
    } else if b == spec_comp_blocks(sof, 0) {
        1
    } else {
        2
    }
}

/// The chroma sample used for pixel `k` of Y-block (vv, hh): the
/// corresponding sample of the (2x2-replicated) chroma block.
pub open spec fn spec_chroma_sample(c: Seq<i16>, vv: int, hh: int, k: int, sub: bool) -> i16 {
    if sub {
        c[((vv * 8 + k / 8) / 2) * 8 + (hh * 8 + k % 8) / 2]
    } else {
        c[k]
    }
}

impl Mcu {
    /// Reconstruct every block in place: dequantize with the owning
    /// component's quantization table, reorder from zig-zag, and apply
    /// the inverse DCT.
    #[verifier::loop_isolation(false)]
    pub fn itrans(&mut self, sof: &StartOfFrameInfo, qts: &Vec<QuantizationTable>)
        requires
            sof.wf(),
            old(self).blocks_seq().len() == spec_total_blocks(*sof),
            forall|c: int|
                0 <= c < 3 ==> (#[trigger] sof.component_infos@[c]).quant_table_id < qts@.len(),
        ensures
            final(self).blocks_seq().len() == spec_total_blocks(*sof),
            forall|b: int, i: int, j: int|
                #![trigger final(self).blocks_seq()[b].0@[8 * i + j]]
                0 <= b < spec_total_blocks(*sof) && 0 <= i < 8 && 0 <= j < 8
                    ==> final(self).blocks_seq()[b].0@[8 * i + j] == spec_reconstruct(
                    old(self).blocks_seq()[b].0@,
                    qts@[sof.component_infos@[spec_comp_of_block(*sof, b)].quant_table_id as int].values@,
                    i,
                    j,
                ),
    {
        let total = spec_comp_blocks_exec(sof, 0) + 2;
        let mut bi: usize = 0;
        let mut c: usize = 0;
        while c < 3
            invariant
                c <= 3,
                bi == if c == 0 {
                    0int
                } else if c == 1 {
                    spec_comp_blocks(*sof, 0)
                } else if c == 2 {
                    spec_comp_blocks(*sof, 0) + 1
                } else {
                    spec_comp_blocks(*sof, 0) + 2
                },
                self.blocks_seq().len() == spec_total_blocks(*sof),
                forall|b: int, i: int, j: int|
                    #![trigger self.blocks_seq()[b].0@[8 * i + j]]
                    0 <= b < bi && 0 <= i < 8 && 0 <= j < 8 ==> self.blocks_seq()[b].0@[8 * i + j]
                        == spec_reconstruct(
                        old(self).blocks_seq()[b].0@,
                        qts@[sof.component_infos@[spec_comp_of_block(*sof, b)].quant_table_id as int].values@,
                        i,
                        j,
                    ),
                forall|b: int|
                    bi <= b < spec_total_blocks(*sof) ==> #[trigger] self.blocks_seq()[b] == old(
                        self,
                    ).blocks_seq()[b],
            decreases 3 - c,
        {
            let cnt = spec_comp_blocks_exec(sof, c);
            let qt_id = sof.component_infos[c].quant_table_id as usize;
            let mut n: usize = 0;
            while n < cnt
                invariant
                    c < 3,
                    n <= cnt,
                    cnt == spec_comp_blocks(*sof, c as int),
                    qt_id == sof.component_infos@[c as int].quant_table_id,
                    qt_id < qts@.len(),
                    bi == n + if c == 0 {
                        0int
                    } else if c == 1 {
                        spec_comp_blocks(*sof, 0)
                    } else {
                        spec_comp_blocks(*sof, 0) + 1
                    },
                    bi <= spec_total_blocks(*sof),
                    forall|b: int| 0 <= b < bi ==> spec_comp_of_block(*sof, b) < 3,
                    forall|b: int| bi <= b < bi + (cnt - n) ==> spec_comp_of_block(*sof, b) == c,
                    self.blocks_seq().len() == spec_total_blocks(*sof),
                    forall|b: int, i: int, j: int|
                        #![trigger self.blocks_seq()[b].0@[8 * i + j]]
                        0 <= b < bi && 0 <= i < 8 && 0 <= j < 8 ==> self.blocks_seq()[b].0@[8 * i
                            + j] == spec_reconstruct(
                            old(self).blocks_seq()[b].0@,
                            qts@[sof.component_infos@[spec_comp_of_block(*sof, b)].quant_table_id as int].values@,
                            i,
                            j,
                        ),
                    forall|b: int|
                        bi <= b < spec_total_blocks(*sof) ==> #[trigger] self.blocks_seq()[b]
                            == old(self).blocks_seq()[b],
                decreases cnt - n,
            {
                let blk = sv_get(&self.blocks, bi);
                let dq = blk.dequantize(&qts[qt_id].values);
                let zz = dq.zigzag();
                let t = zz.idct();
                proof {
                    let b0 = old(self).blocks_seq()[bi as int].0@;
                    let qtv = qts@[qt_id as int].values@;
                    let dqs = Seq::new(64, |t: int| spec_dequant(b0, qtv, t));
                    let zzs = Seq::new(64, |t: int| dqs[spec_zigzag_at(t)]);
                    assert(dq.0@ =~= dqs);
                    assert(zz.0@ =~= zzs);
                }
                sv_set(&mut self.blocks, bi, t);
                bi = bi + 1;
                n = n + 1;
            }
            c = c + 1;
        }
    }
}

/// The number of blocks component `c` contributes to one MCU.
fn spec_comp_blocks_exec(sof: &StartOfFrameInfo, c: usize) -> (r: usize)
    requires
        c < 3,
        sof.wf(),
    ensures
        r == spec_comp_blocks(*sof, c as int),
        1 <= r <= 4,
{
    let hs = sof.component_infos[c].horizontal_sampling as usize;
    let vs = sof.component_infos[c].vertical_sampling as usize;
    proof {
        assert(1 <= hs * vs <= 4) by (nonlinear_arith)
            requires
                1 <= hs <= 2,
                1 <= vs <= 2,
        ;
    }
    hs * vs
}

/// Minimum Coded Unit converted to RGB: one 8x8 pixel block per Y
/// sampling position.
#[derive(Debug, Clone, PartialEq, Eq)]
pub struct McuRGB {
    blocks: Vec<[RGB; 64]>,
    width_blocks: u8,
    height_blocks: u8,
}

impl McuRGB {
    /// Number of 8x8 pixel blocks per row of the cell.
    pub closed spec fn spec_width_blocks(self) -> u8 {
        self.width_blocks
    }

    /// Number of 8x8 pixel block rows of the cell.
    pub closed spec fn spec_height_blocks(self) -> u8 {
        self.height_blocks
    }

    /// Number of pixel blocks held.
    pub closed spec fn spec_block_count(self) -> int {
        self.blocks@.len() as int
    }

    /// Pixel `k` (raster order) of block `b`.
    pub closed spec fn spec_pixel(self, b: int, k: int) -> RGB {
        self.blocks@[b][k]
    }

    pub open spec fn wf(self) -> bool {
        &&& self.spec_block_count() == self.spec_width_blocks() * self.spec_height_blocks()
        &&& 1 <= self.spec_width_blocks() <= 2
        &&& 1 <= self.spec_height_blocks() <= 2
    }

    /// The pixels of scan line `h` of the cell, left to right: exactly
    /// 8 * width_blocks RGB triples.
    pub fn line(&self, h: usize) -> (r: Vec<RGB>)
        requires
            self.wf(),
            h < 8 * self.spec_height_blocks(),
        ensures
            r@.len() == 8 * self.spec_width_blocks(),
            forall|k: int|
                0 <= k < r@.len() ==> r@[k] == self.spec_pixel(
                    (h / 8) * self.spec_width_blocks() + k / 8,
                    (h % 8) * 8 + k % 8,
                ),
    {
        let wb = self.width_blocks as usize;
        let row = h / 8;
        let mut out: Vec<RGB> = Vec::new();
        proof {
            assert(row * wb + wb <= self.blocks@.len() && row * wb <= 4) by (nonlinear_arith)
                requires
                    0 <= row < self.spec_height_blocks(),
                    wb == self.spec_width_blocks(),
                    self.blocks@.len() == self.spec_width_blocks() * self.spec_height_blocks(),
                    1 <= wb <= 2,
                    self.spec_height_blocks() <= 2,
            ;
        }
        let mut k: usize = 0;
        while k < 8 * wb
            invariant
                wb == self.spec_width_blocks(),
                1 <= wb <= 2,
                row == h / 8,
                row <= 1,
                row * wb + wb <= self.blocks@.len(),
                row * wb <= 4,
                h < 8 * self.spec_height_blocks(),
                k <= 8 * wb,
                out@.len() == k,
                forall|t: int|
                    0 <= t < k ==> out@[t] == self.spec_pixel(
                        (h / 8) * self.spec_width_blocks() + t / 8,
                        (h % 8) * 8 + t % 8,
                    ),
            decreases 8 * wb - k,
        {
            proof {
                assert(k / 8 < wb) by (nonlinear_arith)
                    requires
                        k < 8 * wb,
                        0 <= k,
                ;
            }
            out.push(self.blocks[row * wb + k / 8][(h % 8) * 8 + k % 8]);
            k = k + 1;
        }
        out
    }
}

impl Mcu {
    /// Convert a reconstructed MCU to RGB pixel blocks: replicate the
    /// chroma blocks 2x2 when subsampled, and convert each pixel from
    /// YCbCr.
    #[verifier::loop_isolation(false)]
    pub fn to_rgb(&self, sof: &StartOfFrameInfo) -> (r: McuRGB)
        requires
            sof.wf(),
            self.blocks_seq().len() == spec_total_blocks(*sof),
        ensures
            r.wf(),
            r.spec_width_blocks() == sof.max_horizontal_sampling,
            r.spec_height_blocks() == sof.max_vertical_sampling,
            forall|b: int, k: int|
                #![trigger r.spec_pixel(b, k)]
                0 <= b < r.spec_block_count() && 0 <= k < 64 ==> r.spec_pixel(b, k)
                    == spec_rgb_pixel(
                    self.blocks_seq()[b].0@[k],
                    spec_chroma_sample(
                        self.blocks_seq()[spec_comp_blocks(*sof, 0)].0@,
                        b / sof.max_horizontal_sampling as int,
                        b % sof.max_horizontal_sampling as int,
                        k,
                        sof.max_vertical_sampling == 2,
                    ),
                    spec_chroma_sample(
                        self.blocks_seq()[spec_comp_blocks(*sof, 0) + 1].0@,
                        b / sof.max_horizontal_sampling as int,
                        b % sof.max_horizontal_sampling as int,
                        k,
                        sof.max_vertical_sampling == 2,
                    ),
                ),
    {
        let max_h = sof.max_horizontal_sampling as usize;
        let max_v = sof.max_vertical_sampling as usize;
        let size0 = spec_comp_blocks_exec(sof, 0);
        let sub = max_v == 2;
        let mut blocks: Vec<[RGB; 64]> = Vec::new();
        let mut v: usize = 0;
        proof {
            assert(spec_comp_blocks(*sof, 0) == max_h * max_v);
        }
        while v < max_v
            invariant
                max_h == sof.max_horizontal_sampling,
                max_v == sof.max_vertical_sampling,
                size0 == spec_comp_blocks(*sof, 0),
                size0 == max_h * max_v,
                sub == (max_v == 2),
                v <= max_v,
                blocks@.len() == v * max_h,
                forall|b: int, k: int|
                    #![trigger blocks@[b][k]]
                    0 <= b < blocks@.len() && 0 <= k < 64 ==> blocks@[b][k] == spec_rgb_pixel(
                        self.blocks_seq()[b].0@[k],
                        spec_chroma_sample(
                            self.blocks_seq()[size0 as int].0@,
                            b / max_h as int,
                            b % max_h as int,
                            k,
                            sub,
                        ),
                        spec_chroma_sample(
                            self.blocks_seq()[size0 as int + 1].0@,
                            b / max_h as int,
                            b % max_h as int,
                            k,
                            sub,
                        ),
                    ),
            decreases max_v - v,
        {
            let mut hh: usize = 0;
            while hh < max_h
                invariant
                    max_h == sof.max_horizontal_sampling,
                    max_v == sof.max_vertical_sampling,
                    size0 == spec_comp_blocks(*sof, 0),
                    size0 == max_h * max_v,
                    sub == (max_v == 2),
                    v < max_v,
                    hh <= max_h,
                    blocks@.len() == v * max_h + hh,
                    forall|b: int, k: int|
                        #![trigger blocks@[b][k]]
                        0 <= b < blocks@.len() && 0 <= k < 64 ==> blocks@[b][k] == spec_rgb_pixel(
                            self.blocks_seq()[b].0@[k],
                            spec_chroma_sample(
                                self.blocks_seq()[size0 as int].0@,
                                b / max_h as int,
                                b % max_h as int,
                                k,
                                sub,
                            ),
                            spec_chroma_sample(
                                self.blocks_seq()[size0 as int + 1].0@,
                                b / max_h as int,
                                b % max_h as int,
                                k,
                                sub,
                            ),
                        ),
                decreases max_h - hh,
            {
                let bi = v * max_h + hh;
                proof {
                    assert(bi < size0) by (nonlinear_arith)
                        requires
                            bi == v * max_h + hh,
                            v < max_v,
                            hh < max_h,
                            size0 == max_h * max_v,
                            1 <= max_h,
                            1 <= max_v,
                    ;
                    assert(bi as int / max_h as int == v && bi as int % max_h as int == hh)
                        by (nonlinear_arith)
                        requires
                            bi == v * max_h + hh,
                            0 <= hh < max_h,
                            0 <= v,
                            1 <= max_h,
                    ;
                }
                let y = sv_get(&self.blocks, bi);
                let cb_blk = if sub {
                    sv_get(&self.blocks, size0).upsample_2x2(v, hh)
                } else {
                    sv_get(&self.blocks, size0)
                };
                let cr_blk = if sub {
                    sv_get(&self.blocks, size0 + 1).upsample_2x2(v, hh)
                } else {
                    sv_get(&self.blocks, size0 + 1)
                };
                proof {
                    assert forall|t: int| 0 <= t < 64 implies cb_blk.0@[t] == spec_chroma_sample(
                        self.blocks_seq()[size0 as int].0@,
                        v as int,
                        hh as int,
                        t,
                        sub,
                    ) by {
                        let i1 = t / 8;
                        let j1 = t % 8;
                        assert(t == 8 * i1 + j1);
                        if sub {
                            assert(cb_blk.0@[8 * i1 + j1] == self.blocks_seq()[size0 as int].0@[((
                            v * 8 + i1) / 2) * 8 + (hh * 8 + j1) / 2]);
                        }
                    }
                    assert forall|t: int| 0 <= t < 64 implies cr_blk.0@[t] == spec_chroma_sample(
                        self.blocks_seq()[size0 as int + 1].0@,
                        v as int,
                        hh as int,
                        t,
                        sub,
                    ) by {
                        let i1 = t / 8;
                        let j1 = t % 8;
                        assert(t == 8 * i1 + j1);
                        if sub {
                            assert(cr_blk.0@[8 * i1 + j1] == self.blocks_seq()[size0 as int
                                + 1].0@[((v * 8 + i1) / 2) * 8 + (hh * 8 + j1) / 2]);
                        }
                    }
                }
                let mut px: [RGB; 64] = [RGB { r: 0, g: 0, b: 0 }; 64];
                let mut k: usize = 0;
                while k < 64
                    invariant
                        k <= 64,
                        v < max_v <= 2,
                        hh < max_h <= 2,
                        sub == (max_v == 2),
                        forall|t: int|
                            0 <= t < 64 ==> cb_blk.0@[t] == spec_chroma_sample(
                                self.blocks_seq()[size0 as int].0@,
                                v as int,
                                hh as int,
                                t,
                                sub,
                            ),
                        forall|t: int|
                            0 <= t < 64 ==> cr_blk.0@[t] == spec_chroma_sample(
                                self.blocks_seq()[size0 as int + 1].0@,
                                v as int,
                                hh as int,
                                t,
                                sub,
                            ),
                        forall|t: int|
                            0 <= t < k ==> px@[t] == spec_rgb_pixel(y.0@[t], cb_blk.0@[t], cr_blk.0@[t]),
                    decreases 64 - k,
                {
                    let yv = (y.0[k] as i32) * 1024;
                    let cbv = cb_blk.0[k] as i32;
                    let crv = cr_blk.0[k] as i32;
                    let pr = chomp(yv + 1436 * crv);
                    let pg = chomp(yv - 352 * cbv - 731 * crv);
                    let pb = chomp(yv + 1815 * cbv);
                    px[k] = RGB { r: pr, g: pg, b: pb };
                    k = k + 1;
                }
                blocks.push(px);
                hh = hh + 1;
            }
            v = v + 1;
        }
        proof {
            assert(blocks@.len() == max_v * max_h);
            assert(max_v * max_h == max_h * max_v) by (nonlinear_arith);
        }
        McuRGB {
            blocks,
            width_blocks: sof.max_horizontal_sampling,
            height_blocks: sof.max_vertical_sampling,
        }
    }
}

proof fn lemma_sum1_zero(b: Seq<i16>, i: int, j: int, x: int)
    requires
        forall|k: int| 0 <= k < 64 ==> b[k] == 0,
        0 <= i < 8,
        0 <= j < 8,
        0 <= x <= 8,
    ensures
        spec_sum1(b, i, j, x) == 0,
    decreases x,
{
    if x > 0 {
        lemma_sum1_zero(b, i, j, x - 1);
    }
}

proof fn lemma_sum2_zero(b: Seq<i16>, i: int, j: int, x: int)
    requires
        forall|k: int| 0 <= k < 64 ==> b[k] == 0,
        0 <= i < 8,
        0 <= j < 8,
        0 <= x <= 8,
    ensures
        spec_sum2(b, i, j, x) == 0,
    decreases x,
{
    if x > 0 {
        lemma_sum2_zero(b, i, j, x - 1);
        lemma_sum1_zero(b, (8 * j + (x - 1)) % 8, (8 * j + (x - 1)) / 8, 8);
    }
}

/// The numerical contract of the transform on silence: every sample of
/// an all-zero coefficient block reconstructs to exactly 0.
pub proof fn lemma_idct_zero_block(b: Seq<i16>, i: int, j: int)
    requires
        forall|k: int| 0 <= k < 64 ==> b[k] == 0,
        0 <= i < 8,
        0 <= j < 8,
    ensures
        spec_idct_at(b, i, j) == 0,
{
    lemma_sum2_zero(b, i, j, 8);
}

} // verus!
