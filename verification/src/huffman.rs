//! DHT segment parsing and canonical Huffman tables.
//!
//! A table is represented as a flat 2^16-entry lookup: for every 16-bit
//! lookahead window the entry holds (code length, symbol), with length 0
//! meaning that no valid code is a prefix of the window.
use vstd::arithmetic::mul::lemma_mul_inequality;
use vstd::arithmetic::mul::lemma_mul_is_distributive_add_other_way;
use vstd::arithmetic::power2::lemma_pow2_adds;
use vstd::arithmetic::power2::lemma_pow2_pos;
use vstd::arithmetic::power2::pow2;
use vstd::bits::lemma_u32_shl_is_mul;
use vstd::bits::lemma_usize_shl_is_mul;
use vstd::prelude::*;

use crate::DecodeError;
use crate::Decoder;

verus! {

/// The class of a Huffman table: DC or AC, destination 0 or 1.
/// In a DHT segment the class byte holds the class in the high nibble and
/// the destination in the low nibble.
#[derive(Debug, Clone, Copy, PartialEq, Eq, PartialOrd, Ord, Hash, Structural)]
pub enum HuffmanTableClass {
    DC0,
    DC1,
    AC0,
    AC1,
}

/// The table class identified by a DHT class byte, or `None`.
pub open spec fn spec_class_of(b: u8) -> Option<HuffmanTableClass> {
    if b == 0x00 {
        Some(HuffmanTableClass::DC0)
    } else if b == 0x01 {
        Some(HuffmanTableClass::DC1)
    } else if b == 0x10 {
        Some(HuffmanTableClass::AC0)
    } else if b == 0x11 {
        Some(HuffmanTableClass::AC1)
    } else {
        None
    }
}

impl HuffmanTableClass {
    /// The table class identified by a DHT class byte, or `None`.
    pub fn try_from(value: u8) -> (r: Option<HuffmanTableClass>)
        ensures
            r == spec_class_of(value),
    {
        if value == 0x00 {
            Some(HuffmanTableClass::DC0)
        } else if value == 0x01 {
            Some(HuffmanTableClass::DC1)
        } else if value == 0x10 {
            Some(HuffmanTableClass::AC0)
        } else if value == 0x11 {
            Some(HuffmanTableClass::AC1)
        } else {
            None
        }
    }
}

/// A Huffman table read from a DHT segment.
#[derive(Debug, Clone, PartialEq, Eq)]
pub struct HuffmanTable {
    pub class: HuffmanTableClass,
    pub map: HuffmanTree,
}

/// Flat 2^16-entry code lookup: for window `w`, `len[w]` is the length of
/// the code that is a prefix of `w` (0 if none) and `val[w]` its symbol.
#[derive(Debug, PartialEq, Eq)]
pub struct HuffmanTree {
    len: Vec<u8>,
    val: Vec<u8>,
}

/// Two tables with the same entry for every window.
pub open spec fn tree_entries_eq(a: HuffmanTree, b: HuffmanTree) -> bool {
    forall|i: int| 0 <= i < 65536 ==> a.entry(i) == b.entry(i)
}

impl Clone for HuffmanTree {
    /// A copy with the same entry for every window.
    fn clone(&self) -> (r: HuffmanTree)
        ensures
            tree_entries_eq(r, *self),
            r.wf() == self.wf(),
    {
        let n = self.len.len();
        let m = self.val.len();
        let mut len: Vec<u8> = Vec::new();
        let mut val: Vec<u8> = Vec::new();
        let mut i: usize = 0;
        while i < n
            invariant
                i <= n,
                n == self.len@.len(),
                len@.len() == i,
                forall|j: int| 0 <= j < i ==> len@[j] == self.len@[j],
            decreases n - i,
        {
            len.push(self.len[i]);
            i = i + 1;
        }
        let mut i: usize = 0;
        while i < m
            invariant
                i <= m,
                m == self.val@.len(),
                val@.len() == i,
                forall|j: int| 0 <= j < i ==> val@[j] == self.val@[j],
            decreases m - i,
        {
            val.push(self.val[i]);
            i = i + 1;
        }
        proof {
            assert(len@ =~= self.len@);
            assert(val@ =~= self.val@);
        }
        HuffmanTree { len, val }
    }
}

impl HuffmanTree {
    /// Both lookup columns cover every 16-bit window and no recorded code
    /// is longer than 16 bits.
    pub closed spec fn wf(self) -> bool {
        &&& self.len@.len() == 65536
        &&& self.val@.len() == 65536
        &&& forall|i: int| 0 <= i < 65536 ==> self.len@[i] <= 16
    }

    /// The (length, symbol) entry for window `i`.
    pub closed spec fn entry(self, i: int) -> (u8, u8) {
        (self.len@[i], self.val@[i])
    }

    /// An empty table: every window maps to length 0.
    pub fn new() -> (r: HuffmanTree)
        ensures
            r.wf(),
            forall|i: int| 0 <= i < 65536 ==> r.entry(i) == (0u8, 0u8),
    {
        let mut len: Vec<u8> = Vec::new();
        let mut val: Vec<u8> = Vec::new();
        let mut i: usize = 0;
        while i < 65536
            invariant
                len@.len() == i,
                val@.len() == i,
                i <= 65536,
                forall|j: int| 0 <= j < i ==> len@[j] == 0 && val@[j] == 0,
            decreases 65536 - i,
        {
            len.push(0);
            val.push(0);
            i = i + 1;
        }
        HuffmanTree { len, val }
    }

    /// Record a code: every 16-bit window whose top `len` bits equal
    /// `code` is mapped to (`len`, `val`). Windows outside that range are
    /// untouched.
    #[verifier::loop_isolation(false)]
    pub fn insert(&mut self, code: u16, len: u8, val: u8)
        requires
            old(self).wf(),
            1 <= len <= 16,
            (code as int) < pow2(len as nat),
        ensures
            final(self).wf(),
            forall|i: int|
                code * pow2((16 - len) as nat) <= i < (code + 1) * pow2((16 - len) as nat)
                    ==> final(self).entry(i) == (len, val),
            forall|i: int|
                0 <= i < 65536 && !(code * pow2((16 - len) as nat) <= i < (code + 1) * pow2(
                    (16 - len) as nat,
                )) ==> final(self).entry(i) == old(self).entry(i),
    {
        proof {
            vstd::arithmetic::power2::lemma2_to64();
            lemma_pow2_adds(len as nat, (16 - len) as nat);
            lemma_pow2_pos(len as nat);
            lemma_pow2_pos((16 - len) as nat);
            assert(pow2((16 - len) as nat) <= 65536) by (nonlinear_arith)
                requires
                    pow2(len as nat) * pow2((16 - len) as nat) == 65536,
                    pow2(len as nat) >= 1,
                    pow2((16 - len) as nat) >= 1,
            ;
            lemma_usize_shl_is_mul(1usize, (16 - len) as usize);
            lemma_mul_inequality(
                code + 1,
                pow2(len as nat) as int,
                pow2((16 - len) as nat) as int,
            );
            lemma_mul_is_distributive_add_other_way(pow2((16 - len) as nat) as int, code as int, 1);
        }
        let width: usize = 1usize << ((16 - len) as usize);
        let base: usize = (code as usize) * width;
        let mut i: usize = 0;
        while i < width
            invariant
                self.len@.len() == 65536,
                self.val@.len() == 65536,
                i <= width,
                forall|k: int| 0 <= k < 65536 ==> self.len@[k] <= 16,
                forall|k: int| base <= k < base + i ==> self.entry(k) == (len, val),
                forall|k: int|
                    0 <= k < 65536 && !(base <= k < base + i) ==> self.entry(k) == old(self).entry(
                        k,
                    ),
            decreases width - i,
        {
            let ghost prev = *self;
            self.len[base + i] = len;
            self.val[base + i] = val;
            proof {
                assert forall|k: int| base <= k < base + i + 1 implies self.entry(k) == (
                len,
                val,
                ) by {
                    if k < base + i {
                        assert(prev.entry(k) == (len, val));
                    }
                    assert(self.entry(k) == if k == base + i {
                        (len, val)
                    } else {
                        prev.entry(k)
                    });
                };
                assert forall|k: int|
                    0 <= k < 65536 && !(base <= k < base + i + 1) implies self.entry(k) == old(
                    self,
                ).entry(k) by {
                    assert(prev.entry(k) == old(self).entry(k));
                    assert(self.entry(k) == prev.entry(k));
                };
            }
            i = i + 1;
        }
    }

    /// Decode a window. Return (len, val).
    /// `r.0 == 0` exactly when no valid code is a prefix of the window.
    pub fn get(&self, code: u16) -> (r: (u8, u8))
        requires
            self.wf(),
        ensures
            r == self.entry(code as int),
            r.0 <= 16,
    {
        let len = self.len[code as usize];
        let val = self.val[code as usize];
        (len, val)
    }
}

/// Sum of the first `l` code counts L_1..L_l.
pub open spec fn spec_sum_counts(counts: Seq<u8>, l: int) -> int
    decreases l,
{
    if l <= 0 {
        0
    } else {
        spec_sum_counts(counts, l - 1) + counts[l - 1]
    }
}

/// The first canonical code of bit length `l` (JPEG canonical assignment:
/// the first code of each length is twice the successor of the last code
/// of the previous length).
pub open spec fn spec_first_code(counts: Seq<u8>, l: int) -> int
    decreases l,
{
    if l <= 1 {
        0
    } else {
        (spec_first_code(counts, l - 1) + counts[l - 2]) * 2
    }
}

/// All canonical codes fit in their bit length: no code of length l
/// reaches 2^l.
pub open spec fn counts_valid(counts: Seq<u8>) -> bool {
    forall|l: int|
        1 <= l <= 16 ==> spec_first_code(counts, l) + counts[l - 1] <= pow2(l as nat)
}

/// The scaled start of the 16-bit window range of the `j`-th code of
/// length `l`.
pub open spec fn scaled(counts: Seq<u8>, l: int, j: int) -> int {
    (spec_first_code(counts, l) + j) * pow2((16 - l) as nat)
}

/// Every window whose top `l` bits equal code `c` maps to (`l`, `s`).
pub open spec fn range_filled(t: HuffmanTree, l: int, c: int, s: u8) -> bool {
    forall|idx: int|
        c * pow2((16 - l) as nat) <= idx < (c + 1) * pow2((16 - l) as nat) ==> t.entry(idx) == ((
        l as u8,
        s,
        ))
}

/// The first scaled window not covered by any canonical code.
pub open spec fn covered_end(counts: Seq<u8>) -> int {
    spec_first_code(counts, 16) + counts[15]
}

/// The lookup table holds exactly the canonical code assignment for
/// `counts` and `symbols`: the `j`-th code of length `l` maps its whole
/// window range to length `l` and the next symbol in order, and windows
/// beyond the covered region map to length 0 (no valid prefix).
pub open spec fn tree_matches_canonical(t: HuffmanTree, counts: Seq<u8>, symbols: Seq<u8>) -> bool {
    &&& forall|l: int, j: int|
        1 <= l <= 16 && 0 <= j < counts[l - 1] ==> #[trigger] range_filled(
            t,
            l,
            spec_first_code(counts, l) + j,
            symbols[spec_sum_counts(counts, l - 1) + j],
        )
    &&& forall|idx: int| covered_end(counts) <= idx < 65536 ==> t.entry(idx).0 == 0
}

/// Build state after the first `j` codes of length `l` (and all shorter
/// codes) have been inserted into a fresh table.
spec fn tree_partial(t: HuffmanTree, counts: Seq<u8>, symbols: Seq<u8>, l: int, j: int) -> bool {
    &&& forall|l1: int, j1: int|
        1 <= l1 <= 16 && 0 <= j1 < counts[l1 - 1] && (l1 < l || (l1 == l && j1 < j))
            ==> #[trigger] range_filled(
            t,
            l1,
            spec_first_code(counts, l1) + j1,
            symbols[spec_sum_counts(counts, l1 - 1) + j1],
        )
    &&& forall|idx: int| scaled(counts, l, j) <= idx < 65536 ==> t.entry(idx).0 == 0
}

proof fn lemma_first_code_nonneg(counts: Seq<u8>, l: int)
    ensures
        spec_first_code(counts, l) >= 0,
    decreases l,
{
    if l > 1 {
        lemma_first_code_nonneg(counts, l - 1);
    }
}

pub proof fn lemma_sum_counts_nonneg(counts: Seq<u8>, l: int)
    ensures
        spec_sum_counts(counts, l) >= 0,
    decreases l,
{
    if l > 0 {
        lemma_sum_counts_nonneg(counts, l - 1);
    }
}

proof fn lemma_sum_counts_monotone(counts: Seq<u8>, a: int, b: int)
    requires
        a <= b,
    ensures
        spec_sum_counts(counts, a) <= spec_sum_counts(counts, b),
    decreases b - a,
{
    if a < b {
        lemma_sum_counts_monotone(counts, a, b - 1);
    }
}

/// The scaled frontier after all codes of length `l1` lies at or before
/// the scaled first code of any longer length `l2`.
proof fn lemma_frontier_chain(counts: Seq<u8>, l1: int, l2: int)
    requires
        1 <= l1 < l2 <= 16,
    ensures
        (spec_first_code(counts, l1) + counts[l1 - 1]) * pow2((16 - l1) as nat)
            <= spec_first_code(counts, l2) * pow2((16 - l2) as nat),
    decreases l2 - l1,
{
    lemma_first_code_nonneg(counts, l1);
    let x = spec_first_code(counts, l1) + counts[l1 - 1];
    let p2 = pow2((16 - l2) as nat) as int;
    if l2 == l1 + 1 {
        lemma_pow2_adds(1, (16 - l2) as nat);
        assert(pow2(1) == 2) by {
            vstd::arithmetic::power2::lemma2_to64();
        }
        assert(x * (2 * p2) == (x * 2) * p2) by (nonlinear_arith);
    } else {
        lemma_frontier_chain(counts, l1, l2 - 1);
        lemma_first_code_nonneg(counts, l2 - 1);
        let y = spec_first_code(counts, l2 - 1);
        lemma_pow2_adds(1, (16 - l2) as nat);
        assert(pow2(1) == 2) by {
            vstd::arithmetic::power2::lemma2_to64();
        }
        // first(l2) == (y + counts[l2-2]) * 2 >= y * 2
        assert(y * (2 * p2) == (y * 2) * p2) by (nonlinear_arith);
        assert((y * 2) * p2 <= spec_first_code(counts, l2) * p2) by {
            lemma_mul_inequality(y * 2, spec_first_code(counts, l2), p2);
        }
    }
}

/// The window range of an earlier canonical code ends at or before the
/// scaled position of a later one.
proof fn lemma_code_order(counts: Seq<u8>, l1: int, j1: int, l2: int, j2: int)
    requires
        1 <= l1 <= l2 <= 16,
        0 <= j1 < counts[l1 - 1],
        0 <= j2,
        l1 == l2 ==> j1 < j2,
    ensures
        (spec_first_code(counts, l1) + j1 + 1) * pow2((16 - l1) as nat) <= scaled(counts, l2, j2),
{
    lemma_first_code_nonneg(counts, l1);
    lemma_first_code_nonneg(counts, l2);
    lemma_pow2_pos((16 - l1) as nat);
    lemma_pow2_pos((16 - l2) as nat);
    if l1 == l2 {
        lemma_mul_inequality(
            spec_first_code(counts, l1) + j1 + 1,
            spec_first_code(counts, l2) + j2,
            pow2((16 - l1) as nat) as int,
        );
    } else {
        lemma_mul_inequality(
            spec_first_code(counts, l1) + j1 + 1,
            spec_first_code(counts, l1) + counts[l1 - 1],
            pow2((16 - l1) as nat) as int,
        );
        lemma_frontier_chain(counts, l1, l2);
        lemma_mul_inequality(
            spec_first_code(counts, l2),
            spec_first_code(counts, l2) + j2,
            pow2((16 - l2) as nat) as int,
        );
    }
}

/// Inserting the `j`-th code of length `l` advances the build state.
proof fn lemma_partial_step(
    t_old: HuffmanTree,
    t_new: HuffmanTree,
    counts: Seq<u8>,
    symbols: Seq<u8>,
    l: int,
    j: int,
)
    requires
        counts.len() == 16,
        1 <= l <= 16,
        0 <= j < counts[l - 1],
        spec_first_code(counts, l) + counts[l - 1] <= pow2(l as nat),
        tree_partial(t_old, counts, symbols, l, j),
        forall|i: int|
            scaled(counts, l, j) <= i < (spec_first_code(counts, l) + j + 1) * pow2(
                (16 - l) as nat,
            ) ==> t_new.entry(i) == ((l as u8, symbols[spec_sum_counts(counts, l - 1) + j])),
        forall|i: int|
            0 <= i < 65536 && !(scaled(counts, l, j) <= i < (spec_first_code(counts, l) + j + 1)
                * pow2((16 - l) as nat)) ==> t_new.entry(i) == t_old.entry(i),
    ensures
        tree_partial(t_new, counts, symbols, l, j + 1),
{
    lemma_first_code_nonneg(counts, l);
    lemma_pow2_pos((16 - l) as nat);
    let p = pow2((16 - l) as nat) as int;
    let c = spec_first_code(counts, l) + j;
    // Window bound: the new range ends within the table.
    lemma_pow2_adds(l as nat, (16 - l) as nat);
    assert(pow2(16) == 65536) by {
        vstd::arithmetic::power2::lemma2_to64();
    }
    lemma_mul_inequality(c + 1, pow2(l as nat) as int, p);
    assert(pow2(l as nat) * p == 65536);
    // Earlier code ranges are untouched.
    assert forall|l1: int, j1: int|
        1 <= l1 <= 16 && 0 <= j1 < counts[l1 - 1] && (l1 < l || (l1 == l && j1 < j
            + 1)) implies #[trigger] range_filled(
        t_new,
        l1,
        spec_first_code(counts, l1) + j1,
        symbols[spec_sum_counts(counts, l1 - 1) + j1],
    ) by {
        if l1 == l && j1 == j {
            assert forall|idx: int| c * p <= idx < (c + 1) * p implies t_new.entry(idx) == ((
            l as u8,
            symbols[spec_sum_counts(counts, l - 1) + j],
            )) by {}
        } else {
            let c1 = spec_first_code(counts, l1) + j1;
            let p1 = pow2((16 - l1) as nat) as int;
            lemma_code_order(counts, l1, j1, l, j);
            lemma_first_code_nonneg(counts, l1);
            lemma_pow2_pos((16 - l1) as nat);
            lemma_mul_inequality(c, c + 1, p);
            assert(range_filled(
                t_old,
                l1,
                c1,
                symbols[spec_sum_counts(counts, l1 - 1) + j1],
            ));
            assert forall|idx: int| c1 * p1 <= idx < (c1 + 1) * p1 implies t_new.entry(idx) == ((
            l1 as u8,
            symbols[spec_sum_counts(counts, l1 - 1) + j1],
            )) by {
                assert(idx < (c1 + 1) * p1);
                assert((c1 + 1) * p1 <= c * p);
                assert(c * p <= (c + 1) * p);
                assert((c + 1) * p <= 65536);
                assert(0 <= c1 * p1) by (nonlinear_arith)
                    requires
                        c1 >= 0,
                        p1 >= 1,
                ;
                assert(t_new.entry(idx) == t_old.entry(idx));
            }
        }
    }
    // Windows beyond the new frontier are still unassigned.
    vstd::arithmetic::mul::lemma_mul_is_distributive_add_other_way(p, c, 1);
    assert forall|idx: int| scaled(counts, l, j + 1) <= idx < 65536 implies t_new.entry(idx).0
        == 0 by {
        assert(scaled(counts, l, j + 1) == (c + 1) * p);
        assert(t_new.entry(idx) == t_old.entry(idx));
        assert(scaled(counts, l, j) <= idx);
    }
}

/// A finished length moves the build state to the next length.
proof fn lemma_partial_level_up(t: HuffmanTree, counts: Seq<u8>, symbols: Seq<u8>, l: int)
    requires
        counts.len() == 16,
        1 <= l <= 15,
        tree_partial(t, counts, symbols, l, counts[l - 1] as int),
    ensures
        tree_partial(t, counts, symbols, l + 1, 0),
{
    lemma_first_code_nonneg(counts, l);
    let x = spec_first_code(counts, l) + counts[l - 1];
    let p2 = pow2((16 - (l + 1)) as nat) as int;
    lemma_pow2_adds(1, (16 - (l + 1)) as nat);
    assert(pow2(1) == 2) by {
        vstd::arithmetic::power2::lemma2_to64();
    }
    assert(x * (2 * p2) == (x * 2) * p2) by (nonlinear_arith);
    assert(scaled(counts, l, counts[l - 1] as int) == scaled(counts, l + 1, 0));
}

/// The finished build state is the canonical table.
proof fn lemma_partial_complete(t: HuffmanTree, counts: Seq<u8>, symbols: Seq<u8>)
    requires
        counts.len() == 16,
        tree_partial(t, counts, symbols, 16, counts[15] as int),
    ensures
        tree_matches_canonical(t, counts, symbols),
{
    assert(pow2(0) == 1) by {
        vstd::arithmetic::power2::lemma2_to64();
    }
    let x = spec_first_code(counts, 16) + counts[15];
    assert(scaled(counts, 16, counts[15] as int) == x * pow2(0));
    assert(x * 1 == x) by (nonlinear_arith);
    assert(scaled(counts, 16, counts[15] as int) == covered_end(counts));
}

/// Build the canonical lookup table for `counts` (L_1..L_16) over the
/// symbol list. Fails with a malformed-stream error exactly when the
/// counts describe codes that do not fit their bit length.
#[verifier::loop_isolation(false)]
pub fn build_tree(counts: &[u8; 16], symbols: &Vec<u8>) -> (r: Result<HuffmanTree, DecodeError>)
    requires
        symbols@.len() == spec_sum_counts(counts@, 16),
    ensures
        match r {
            Ok(t) => counts_valid(counts@) && t.wf() && tree_matches_canonical(
                t,
                counts@,
                symbols@,
            ),
            Err(e) => e == DecodeError::MalformedStream && !counts_valid(counts@),
        },
{
    let mut tree = HuffmanTree::new();
    let nsym = symbols.len();
    let mut code: u32 = 0;
    let mut sym: usize = 0;
    let mut l: usize = 1;
    proof {
        lemma_first_code_nonneg(counts@, 1);
        lemma_pow2_pos(15);
        assert(scaled(counts@, 1, 0) == 0) by {
            assert(spec_first_code(counts@, 1) == 0);
        }
    }
    while l <= 16
        invariant
            tree.wf(),
            1 <= l <= 17,
            sym == spec_sum_counts(counts@, l - 1),
            sym <= symbols@.len(),
            2 * code == spec_first_code(counts@, l as int),
            code <= 65536,
            forall|l1: int|
                1 <= l1 < l ==> spec_first_code(counts@, l1) + counts@[l1 - 1] <= pow2(l1 as nat),
            l <= 16 ==> tree_partial(tree, counts@, symbols@, l as int, 0),
            l == 17 ==> tree_matches_canonical(tree, counts@, symbols@),
        decreases 17 - l,
    {
        code = code * 2;
        let cnt = counts[l - 1];
        proof {
            assert(pow2(l as nat) <= 65536) by {
                lemma_pow2_adds(l as nat, (16 - l) as nat);
                lemma_pow2_pos(l as nat);
                lemma_pow2_pos((16 - l) as nat);
                assert(pow2(16) == 65536) by {
                    vstd::arithmetic::power2::lemma2_to64();
                }
                assert(pow2(l as nat) <= 65536) by (nonlinear_arith)
                    requires
                        pow2(l as nat) * pow2((16 - l) as nat) == 65536,
                        pow2(l as nat) >= 1,
                        pow2((16 - l) as nat) >= 1,
                ;
            }
            lemma_u32_shl_is_mul(1u32, l as u32);
        }
        let limit: u32 = 1u32 << (l as u32);
        if code + (cnt as u32) > limit {
            proof {
                assert(!counts_valid(counts@)) by {
                    assert(spec_first_code(counts@, l as int) + counts@[l - 1] > pow2(l as nat));
                }
            }
            return Err(DecodeError::MalformedStream);
        }
        let mut j: usize = 0;
        while j < cnt as usize
            invariant
                tree.wf(),
                1 <= l <= 16,
                j <= cnt as usize,
                code == spec_first_code(counts@, l as int) + j,
                sym == spec_sum_counts(counts@, (l - 1) as int) + j,
                code + (cnt as u32) - j <= pow2(l as nat),
                tree_partial(tree, counts@, symbols@, l as int, j as int),
            decreases cnt as usize - j,
        {
            proof {
                lemma_sum_counts_monotone(counts@, l as int, 16);
                assert(spec_sum_counts(counts@, (l - 1) as int) + cnt == spec_sum_counts(
                    counts@,
                    l as int,
                ));
            }
            let s = symbols[sym];
            let ghost t_before = tree;
            tree.insert(code as u16, l as u8, s);
            proof {
                lemma_partial_step(t_before, tree, counts@, symbols@, l as int, j as int);
            }
            code = code + 1;
            sym = sym + 1;
            j = j + 1;
        }
        proof {
            assert(sym == spec_sum_counts(counts@, l as int));
            lemma_sum_counts_monotone(counts@, l as int, 16);
            if l <= 15 {
                lemma_partial_level_up(tree, counts@, symbols@, l as int);
            } else {
                lemma_partial_complete(tree, counts@, symbols@);
            }
        }
        l = l + 1;
    }
    Ok(tree)
}

/// Whether `c` is one of the canonical codes of bit length `l`.
pub open spec fn is_code(counts: Seq<u8>, c: int, l: int) -> bool {
    &&& 1 <= l <= 16
    &&& spec_first_code(counts, l) <= c < spec_first_code(counts, l) + counts[l - 1]
}

/// Whether the `l1`-bit code `c1` is a prefix of the `l2`-bit code `c2`.
pub open spec fn is_prefix_of(c1: int, l1: int, c2: int, l2: int) -> bool {
    l1 <= l2 && c1 == c2 / pow2((l2 - l1) as nat) as int
}

/// No two distinct canonical codes share a prefix, as long as the counts
/// describe codes that fit their bit lengths (which the table builder
/// checks).
pub proof fn lemma_canonical_prefix_free(counts: Seq<u8>, c1: int, l1: int, c2: int, l2: int)
    requires
        counts.len() == 16,
        counts_valid(counts),
        is_code(counts, c1, l1),
        is_code(counts, c2, l2),
        l1 <= l2,
        !(c1 == c2 && l1 == l2),
    ensures
        !is_prefix_of(c1, l1, c2, l2),
{
    lemma_first_code_nonneg(counts, l1);
    lemma_first_code_nonneg(counts, l2);
    if l1 == l2 {
        assert(pow2(0) == 1) by {
            vstd::arithmetic::power2::lemma2_to64();
        }
        assert(c2 / 1 == c2) by (nonlinear_arith);
    } else if is_prefix_of(c1, l1, c2, l2) {
        let d = pow2((l2 - l1) as nat) as int;
        let p = pow2((16 - l2) as nat) as int;
        lemma_pow2_pos((l2 - l1) as nat);
        lemma_pow2_pos((16 - l2) as nat);
        // c1 * d <= c2 < (c1 + 1) * d
        vstd::arithmetic::div_mod::lemma_fundamental_div_mod(c2, d);
        assert(c2 == d * (c2 / d) + c2 % d);
        vstd::arithmetic::div_mod::lemma_mod_bound(c2, d);
        assert(c2 < c1 * d + d) by (nonlinear_arith)
            requires
                c2 == d * c1 + c2 % d,
                c2 % d < d,
        ;
        // The whole of length l1 ends (unscaled) at or before first(l2).
        let x = spec_first_code(counts, l1) + counts[l1 - 1];
        lemma_frontier_chain(counts, l1, l2);
        lemma_pow2_adds((l2 - l1) as nat, (16 - l2) as nat);
        assert(x * (d * p) == (x * d) * p) by (nonlinear_arith);
        assert(x * d <= spec_first_code(counts, l2)) by (nonlinear_arith)
            requires
                (x * d) * p <= spec_first_code(counts, l2) * p,
                p >= 1,
        ;
        // So c2 < (c1 + 1) * d <= x * d <= first(l2) <= c2: contradiction.
        lemma_mul_inequality(c1 + 1, x, d);
        assert(c1 * d + d == (c1 + 1) * d) by (nonlinear_arith);
        assert(false);
    }
}

/// Each table of a parsed DHT segment consumed exactly sum(L_1..L_16)
/// symbol bytes, and its counts describe codes that fit their lengths.
pub proof fn lemma_dht_symbol_count(data: Seq<u8>, pos: int, remaining: int)
    ensures
        spec_parse_dht(data, pos, remaining) matches Ok(tsp) ==> forall|k: int|
            0 <= k < tsp.0.len() ==> (#[trigger] tsp.0[k]).symbols.len() == spec_sum_counts(
                tsp.0[k].counts,
                16,
            ) && counts_valid(tsp.0[k].counts) && tsp.0[k].counts.len() == 16,
    decreases remaining,
{
    if remaining > 0 && 0 <= pos < data.len() && spec_class_of(data[pos]) is Some && pos + 17
        <= data.len() {
        let counts = data.subrange(pos + 1, pos + 17);
        let total = spec_sum_counts(counts, 16);
        lemma_sum_counts_nonneg(counts, 16);
        if remaining >= 17 + total && total <= 256 && pos + 17 + total <= data.len()
            && counts_valid(counts) {
            lemma_dht_symbol_count(data, pos + 17 + total, remaining - 17 - total);
        }
    }
}

/// A table of a DHT segment at specification level: its class and the
/// count and symbol bytes it was built from.
pub ghost struct DhtTableSpec {
    pub class: HuffmanTableClass,
    pub counts: Seq<u8>,
    pub symbols: Seq<u8>,
}

/// Parsing the body of a DHT segment: `remaining` unread bytes of the
/// segment starting at `pos`. Each table holds a class byte, 16 counts
/// L_1..L_16, and sum(L) symbol bytes. An unknown class byte, a segment
/// length that does not cover a whole table, more than 256 symbols, or
/// counts whose canonical codes overflow their bit length are a malformed
/// stream; running out of input is a truncation.
pub open spec fn spec_parse_dht(data: Seq<u8>, pos: int, remaining: int) -> Result<
    (Seq<DhtTableSpec>, int),
    DecodeError,
>
    decreases remaining,
    via spec_parse_dht_decreases
{
    if remaining <= 0 {
        Ok((Seq::empty(), pos))
    } else if pos < 0 || pos >= data.len() {
        Err(DecodeError::Truncated)
    } else {
        match spec_class_of(data[pos]) {
            None => Err(DecodeError::MalformedStream),
            Some(class) => {
                if pos + 17 > data.len() {
                    Err(DecodeError::Truncated)
                } else {
                    let counts = data.subrange(pos + 1, pos + 17);
                    let total = spec_sum_counts(counts, 16);
                    if remaining < 17 + total {
                        Err(DecodeError::MalformedStream)
                    } else if total > 256 {
                        Err(DecodeError::MalformedStream)
                    } else if pos + 17 + total > data.len() {
                        Err(DecodeError::Truncated)
                    } else if !counts_valid(counts) {
                        Err(DecodeError::MalformedStream)
                    } else {
                        let symbols = data.subrange(pos + 17, pos + 17 + total);
                        match spec_parse_dht(data, pos + 17 + total, remaining - 17 - total) {
                            Ok(tsp) => Ok(
                                (seq![DhtTableSpec { class, counts, symbols }] + tsp.0, tsp.1),
                            ),
                            Err(e) => Err(e),
                        }
                    }
                }
            },
        }
    }
}

#[via_fn]
proof fn spec_parse_dht_decreases(data: Seq<u8>, pos: int, remaining: int) {
    if remaining > 0 && 0 <= pos < data.len() {
        lemma_sum_counts_nonneg(data.subrange(pos + 1, pos + 17), 16);
    }
}

/// Whether the parsed tables `r` are the canonical tables of `ts`.
pub open spec fn dht_tables_match(r: Seq<HuffmanTable>, ts: Seq<DhtTableSpec>) -> bool {
    &&& r.len() == ts.len()
    &&& forall|k: int|
        0 <= k < r.len() ==> r[k].class == ts[k].class && r[k].map.wf() && tree_matches_canonical(
            (#[trigger] r[k]).map,
            ts[k].counts,
            ts[k].symbols,
        )
}

/// Loop invariant of the DHT reader: the tables already collected
/// (`done`), with whatever a parse of the rest yields, make up the parse
/// of the whole segment; errors of the rest are errors of the whole.
spec fn dht_inv(
    data: Seq<u8>,
    sp: int,
    sr: int,
    done: Seq<DhtTableSpec>,
    pos: int,
    rem: int,
) -> bool {
    &&& (spec_parse_dht(data, pos, rem) matches Ok(tsp) ==> spec_parse_dht(data, sp, sr) == Ok::<
        _,
        DecodeError,
    >((done + tsp.0, tsp.1)))
    &&& (spec_parse_dht(data, pos, rem) matches Err(e) ==> spec_parse_dht(data, sp, sr) == Err::<
        (Seq<DhtTableSpec>, int),
        _,
    >(e))
}

/// An error of the remaining parse is an error of the whole segment.
proof fn lemma_dht_err(
    data: Seq<u8>,
    sp: int,
    sr: int,
    done: Seq<DhtTableSpec>,
    pos: int,
    rem: int,
    e: DecodeError,
)
    requires
        dht_inv(data, sp, sr, done, pos, rem),
        spec_parse_dht(data, pos, rem) == Err::<(Seq<DhtTableSpec>, int), _>(e),
    ensures
        spec_parse_dht(data, sp, sr) == Err::<(Seq<DhtTableSpec>, int), _>(e),
{
}

proof fn lemma_dht_inv_init(data: Seq<u8>, sp: int, sr: int)
    ensures
        dht_inv(data, sp, sr, Seq::empty(), sp, sr),
{
    match spec_parse_dht(data, sp, sr) {
        Ok(tsp) => {
            assert(Seq::<DhtTableSpec>::empty() + tsp.0 =~= tsp.0);
        },
        Err(_) => {},
    }
}

/// One parsed table extends the collected prefix and keeps the invariant.
proof fn lemma_dht_inv_step(
    data: Seq<u8>,
    sp: int,
    sr: int,
    done: Seq<DhtTableSpec>,
    pos: int,
    rem: int,
    head: DhtTableSpec,
    step: int,
)
    requires
        dht_inv(data, sp, sr, done, pos, rem),
        0 < rem,
        0 <= pos < data.len(),
        spec_class_of(data[pos]) == Some(head.class),
        pos + 17 <= data.len(),
        head.counts == data.subrange(pos + 1, pos + 17),
        step == 17 + spec_sum_counts(head.counts, 16),
        rem >= step,
        step <= 17 + 256,
        pos + step <= data.len(),
        counts_valid(head.counts),
        head.symbols == data.subrange(pos + 17, pos + step),
    ensures
        dht_inv(data, sp, sr, done.push(head), pos + step, rem - step),
{
    match spec_parse_dht(data, pos + step, rem - step) {
        Ok(tsp) => {
            assert(spec_parse_dht(data, pos, rem) == Ok::<_, DecodeError>(
                (seq![head] + tsp.0, tsp.1),
            ));
            assert(done + (seq![head] + tsp.0) =~= done.push(head) + tsp.0);
        },
        Err(e) => {
            assert(spec_parse_dht(data, pos, rem) == Err::<(Seq<DhtTableSpec>, int), _>(e));
        },
    }
}

impl Decoder {
    /// Read a DHT segment: its 16-bit length, then canonical Huffman
    /// tables until the length is exhausted.
    #[verifier::loop_isolation(false)]
    pub fn read_huffman_table(&mut self) -> (r: Result<Vec<HuffmanTable>, DecodeError>)
        requires
            old(self).wf(),
        ensures
            final(self).wf(),
            final(self).data@ == old(self).data@,
            old(self).pos + 2 > old(self).data@.len() ==> r == Err::<
                Vec<HuffmanTable>,
                DecodeError,
            >(DecodeError::Truncated),
            old(self).pos + 2 <= old(self).data@.len() ==> {
                let len = crate::spec_u16_be(old(self).data@, old(self).pos as int);
                if len < 2 {
                    r == Err::<Vec<HuffmanTable>, DecodeError>(DecodeError::MalformedStream)
                } else {
                    match spec_parse_dht(old(self).data@, old(self).pos + 2, len - 2) {
                        Ok(tsp) => r matches Ok(ts) && dht_tables_match(ts@, tsp.0)
                            && final(self).pos == tsp.1,
                        Err(e) => r == Err::<Vec<HuffmanTable>, DecodeError>(e),
                    }
                }
            },
    {
        let len = match self.read_u16() {
            Ok(l) => l,
            Err(e) => {
                return Err(e);
            },
        };
        if len < 2 {
            return Err(DecodeError::MalformedStream);
        }
        let mut remaining: u16 = len - 2;
        let mut tables: Vec<HuffmanTable> = Vec::new();
        let ghost start_pos: int = self.pos as int;
        let ghost start_rem: int = remaining as int;
        let ghost mut done: Seq<DhtTableSpec> = Seq::empty();
        proof {
            lemma_dht_inv_init(self.data@, start_pos, start_rem);
        }
        while remaining != 0
            invariant
                self.wf(),
                self.data@ == old(self).data@,
                dht_tables_match(tables@, done),
                dht_inv(self.data@, start_pos, start_rem, done, self.pos as int, remaining as int),
            decreases remaining,
        {
            let ghost hpos: int = self.pos as int;
            let ghost hrem: int = remaining as int;
            let b = match self.read_byte() {
                Ok(b) => b,
                Err(e) => {
                    proof {
                        lemma_dht_err(self.data@, start_pos, start_rem, done, hpos, hrem,
                            DecodeError::Truncated);
                    }
                    return Err(e);
                },
            };
            let class = match HuffmanTableClass::try_from(b) {
                Some(c) => c,
                None => {
                    proof {
                        lemma_dht_err(self.data@, start_pos, start_rem, done, hpos, hrem,
                            DecodeError::MalformedStream);
                    }
                    return Err(DecodeError::MalformedStream);
                },
            };
            if self.data.len() - self.pos < 16 {
                proof {
                    lemma_dht_err(self.data@, start_pos, start_rem, done, hpos, hrem,
                        DecodeError::Truncated);
                }
                return Err(DecodeError::Truncated);
            }
            let ghost cseq: Seq<u8> = self.data@.subrange(hpos + 1, hpos + 17);
            let mut counts: [u8; 16] = [0u8; 16];
            let mut i: usize = 0;
            while i < 16
                invariant
                    self.wf(),
                    self.data@ == old(self).data@,
                    i <= 16,
                    self.pos == hpos + 1 + i,
                    forall|k: int| 0 <= k < i ==> counts@[k] == cseq[k],
                decreases 16 - i,
            {
                counts[i] = self.data[self.pos];
                self.pos = self.pos + 1;
                i = i + 1;
            }
            proof {
                assert(counts@ =~= cseq);
            }
            let mut total: u32 = 0;
            let mut i: usize = 0;
            while i < 16
                invariant
                    i <= 16,
                    total == spec_sum_counts(counts@, i as int),
                    total <= 255 * i,
                decreases 16 - i,
            {
                total = total + (counts[i] as u32);
                i = i + 1;
            }
            if (remaining as u32) < 17 + total {
                proof {
                    lemma_dht_err(self.data@, start_pos, start_rem, done, hpos, hrem,
                        DecodeError::MalformedStream);
                }
                return Err(DecodeError::MalformedStream);
            }
            if total > 256 {
                proof {
                    lemma_dht_err(self.data@, start_pos, start_rem, done, hpos, hrem,
                        DecodeError::MalformedStream);
                }
                return Err(DecodeError::MalformedStream);
            }
            if self.data.len() - self.pos < total as usize {
                proof {
                    lemma_dht_err(self.data@, start_pos, start_rem, done, hpos, hrem,
                        DecodeError::Truncated);
                }
                return Err(DecodeError::Truncated);
            }
            let ghost sseq: Seq<u8> = self.data@.subrange(hpos + 17, hpos + 17 + total as int);
            let mut symbols: Vec<u8> = Vec::new();
            let mut i: usize = 0;
            while i < total as usize
                invariant
                    self.wf(),
                    self.data@ == old(self).data@,
                    i <= total as usize,
                    self.pos == hpos + 17 + i,
                    symbols@.len() == i,
                    forall|k: int| 0 <= k < i ==> symbols@[k] == sseq[k],
                decreases total as usize - i,
            {
                symbols.push(self.data[self.pos]);
                self.pos = self.pos + 1;
                i = i + 1;
            }
            proof {
                assert(symbols@ =~= sseq);
            }
            let tree = match build_tree(&counts, &symbols) {
                Ok(t) => t,
                Err(e) => {
                    proof {
                        lemma_dht_err(self.data@, start_pos, start_rem, done, hpos, hrem,
                            DecodeError::MalformedStream);
                    }
                    return Err(e);
                },
            };
            let ghost head = DhtTableSpec { class, counts: cseq, symbols: sseq };
            proof {
                lemma_dht_inv_step(self.data@, start_pos, start_rem, done, hpos, hrem, head, 17
                    + total as int);
                done = done.push(head);
            }
            tables.push(HuffmanTable { class, map: tree });
            remaining = remaining - 17 - (total as u16);
        }
        proof {
            assert(done + Seq::<DhtTableSpec>::empty() =~= done);
        }
        Ok(tables)
    }
}

/// A tree with the same entries as a canonical table is canonical.
pub proof fn lemma_entries_eq_canonical(
    a: HuffmanTree,
    b: HuffmanTree,
    counts: Seq<u8>,
    symbols: Seq<u8>,
)
    requires
        counts.len() == 16,
        counts_valid(counts),
        tree_entries_eq(a, b),
        tree_matches_canonical(b, counts, symbols),
    ensures
        tree_matches_canonical(a, counts, symbols),
{
    assert forall|l: int, j: int|
        1 <= l <= 16 && 0 <= j < counts[l - 1] implies #[trigger] range_filled(
        a,
        l,
        spec_first_code(counts, l) + j,
        symbols[spec_sum_counts(counts, l - 1) + j],
    ) by {
        let c = spec_first_code(counts, l) + j;
        let p = pow2((16 - l) as nat) as int;
        assert(range_filled(b, l, c, symbols[spec_sum_counts(counts, l - 1) + j]));
        lemma_first_code_nonneg(counts, l);
        lemma_pow2_pos((16 - l) as nat);
        lemma_pow2_adds(l as nat, (16 - l) as nat);
        assert(pow2(16) == 65536) by {
            vstd::arithmetic::power2::lemma2_to64();
        }
        lemma_mul_inequality(c + 1, pow2(l as nat) as int, p);
        assert(0 <= c * p) by (nonlinear_arith)
            requires
                c >= 0,
                p >= 1,
        ;
        assert forall|idx: int| c * p <= idx < (c + 1) * p implies a.entry(idx) == ((
        l as u8,
        symbols[spec_sum_counts(counts, l - 1) + j],
        )) by {
            assert(0 <= idx);
            assert(c + 1 <= pow2(l as nat));
            assert((c + 1) * p <= pow2(l as nat) * p);
            assert(pow2(l as nat) * p == 65536);
            assert(idx < 65536);
            assert(a.entry(idx) == b.entry(idx));
        }
    }
    assert forall|idx: int| covered_end(counts) <= idx < 65536 implies #[trigger] a.entry(idx).0
        == 0 by {
        lemma_first_code_nonneg(counts, 16);
        assert(0 <= idx);
        assert(a.entry(idx) == b.entry(idx));
        assert(b.entry(idx).0 == 0);
    }
}

} // verus!

