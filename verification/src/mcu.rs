//! Minimum coded units: 8x8 coefficient blocks and the reader that
//! decodes them from the entropy-coded segment.
use vstd::prelude::*;
use vstd::wrapping::i16_specs;

use crate::bitreader::spec_consume;
use crate::bitreader::spec_fill;
use crate::bitreader::spec_peek_val;
use crate::bitreader::lemma_fill_view;
use crate::bitreader::spec_reset;
use crate::bitreader::view_eq;
use crate::bitreader::spec_signed_value;
pub use crate::bitreader::BitReader;
use crate::decode::spec_chroma_sample;
use crate::decode::spec_comp_blocks;
use crate::decode::spec_comp_of_block;
use crate::decode::spec_dequant;
use crate::decode::spec_idct_at;
use crate::decode::spec_reconstruct;
use crate::decode::spec_rgb_pixel;
use crate::decode::spec_total_blocks;
use crate::decode::spec_zigzag_at;
use crate::decode::McuRGB;
use crate::decode::RGB;
use crate::huffman::HuffmanTable;
use crate::huffman::HuffmanTableClass;
use crate::huffman::tree_entries_eq;
use crate::huffman::HuffmanTree;
use crate::quantization_table::QuantizationTable;
use crate::start_of_frame_0::StartOfFrameInfo;
use crate::start_of_scan::StartOfScanInfo;
use crate::DecodeError;

verus! {

/// 8x8 block of coefficients or samples, raster-ordered.
#[derive(Debug, Clone, Copy, PartialEq, Eq, Hash)]
pub struct Block(pub [i16; 64]);

/// Block storage of an MCU: a smallvec with inline room for the six
/// blocks of a 4:2:0 MCU. Verus sees it only through `blocks_of` and
/// the wrappers below (smallvec's generic bounds cannot be declared).
#[verifier::external_body]
pub struct BlockList {
    inner: smallvec::SmallVec<[Block; 6]>,
}

/// The blocks the list holds, in order.
pub uninterp spec fn blocks_of(v: BlockList) -> Seq<Block>;

/// Relies on smallvec::SmallVec::new: constructs an empty vector.
#[verifier::external_body]
pub(crate) fn sv_new() -> (r: BlockList)
    ensures
        blocks_of(r) == Seq::<Block>::empty(),
{
    BlockList { inner: smallvec::SmallVec::new() }
}

/// Relies on smallvec::SmallVec::push: appends one element at the end.
#[verifier::external_body]
pub(crate) fn sv_push(v: &mut BlockList, b: Block)
    ensures
        blocks_of(*final(v)) == blocks_of(*old(v)).push(b),
{
    v.inner.push(b)
}

/// Relies on smallvec's Index<usize> impl: the i-th element.
#[verifier::external_body]
pub(crate) fn sv_get(v: &BlockList, i: usize) -> (r: Block)
    requires
        i < blocks_of(*v).len(),
    ensures
        r == blocks_of(*v)[i as int],
{
    v.inner[i]
}

/// Relies on smallvec's IndexMut<usize> impl: replaces the i-th element.
#[verifier::external_body]
pub(crate) fn sv_set(v: &mut BlockList, i: usize, b: Block)
    requires
        i < blocks_of(*old(v)).len(),
    ensures
        blocks_of(*final(v)) == blocks_of(*old(v)).update(i as int, b),
{
    v.inner[i] = b;
}

/// Minimum Coded Unit: the coefficient blocks of one MCU cell, one per
/// component sampling position, components in declaration order.
pub struct Mcu {
    pub blocks: BlockList,
}

impl Mcu {
    /// The held blocks, in order.
    pub open spec fn blocks_seq(self) -> Seq<Block> {
        blocks_of(self.blocks)
    }
}

impl Default for Mcu {
    /// An MCU with no blocks.
    fn default() -> (r: Mcu)
        ensures
            r.blocks_seq() == Seq::<Block>::empty(),
    {
        Mcu { blocks: sv_new() }
    }
}

/// Decoding one DC coefficient: one Huffman symbol giving a bit length
/// (at most 11 for baseline), then that many bits of signed value,
/// added to the component's predictor with wrapping 16-bit arithmetic.
pub open spec fn spec_read_dc(s: BitReader, tree: HuffmanTree, dc: i16) -> Result<
    (i16, BitReader),
    DecodeError,
> {
    match spec_fill(s, 16) {
        Err(e) => Err(e),
        Ok(s2) => {
            let e = tree.entry(spec_peek_val(s2, 16) as int);
            if e.0 == 0 {
                Err(DecodeError::MalformedStream)
            } else {
                let s3 = spec_consume(s2, e.0);
                if e.1 > 11 {
                    Err(DecodeError::MalformedStream)
                } else if e.1 == 0 {
                    Ok((dc, s3))
                } else {
                    match spec_fill(s3, e.1) {
                        Err(er) => Err(er),
                        Ok(s4) => Ok(
                            (
                                i16_specs::wrapping_add(
                                    dc,
                                    spec_signed_value(spec_peek_val(s4, e.1), e.1) as i16,
                                ),
                                spec_consume(s4, e.1),
                            ),
                        ),
                    }
                }
            }
        },
    }
}

/// Decoding AC coefficients from position `i` on: EOB (symbol 0) ends
/// the block, ZRL (0xF0) skips 16 zeros, and any other symbol skips its
/// high-nibble run of zeros and places a signed value of low-nibble
/// length. A run that would pass position 63 is a malformed stream.
pub open spec fn spec_read_ac(
    s: BitReader,
    ac: HuffmanTree,
    coeffs: Seq<i16>,
    i: int,
) -> Result<(Seq<i16>, BitReader), DecodeError>
    decreases 64 - i,
{
    if i >= 64 {
        Ok((coeffs, s))
    } else {
        match spec_fill(s, 16) {
            Err(e) => Err(e),
            Ok(s2) => {
                let e = ac.entry(spec_peek_val(s2, 16) as int);
                if e.0 == 0 {
                    Err(DecodeError::MalformedStream)
                } else {
                    let s3 = spec_consume(s2, e.0);
                    if e.1 == 0 {
                        Ok((coeffs, s3))
                    } else if e.1 == 0xF0 {
                        if i + 16 > 64 {
                            Err(DecodeError::MalformedStream)
                        } else {
                            spec_read_ac(s3, ac, coeffs, i + 16)
                        }
                    } else {
                        let zeros = (e.1 >> 4) as int;
                        let size = e.1 & 0x0F;
                        if i + zeros > 63 {
                            Err(DecodeError::MalformedStream)
                        } else if size == 0 {
                            spec_read_ac(s3, ac, coeffs.update(i + zeros, 0i16), i + zeros + 1)
                        } else {
                            match spec_fill(s3, size) {
                                Err(er) => Err(er),
                                Ok(s4) => spec_read_ac(
                                    spec_consume(s4, size),
                                    ac,
                                    coeffs.update(
                                        i + zeros,
                                        spec_signed_value(spec_peek_val(s4, size), size) as i16,
                                    ),
                                    i + zeros + 1,
                                ),
                            }
                        }
                    }
                }
            },
        }
    }
}

/// An all-zero coefficient block.
pub open spec fn spec_zero_block() -> Seq<i16> {
    Seq::new(64, |t: int| 0i16)
}

/// Decoding the blocks of one MCU from block index `b` on: for each
/// block, the owning component's DC (updating its predictor) then the
/// AC coefficients. Yields the block views (still zig-zag ordered), the
/// reader state and the predictors afterwards.
pub open spec fn spec_read_blocks(
    s: BitReader,
    tabs: Seq<(HuffmanTree, HuffmanTree)>,
    dcs: Seq<i16>,
    sof: StartOfFrameInfo,
    b: int,
    acc: Seq<Seq<i16>>,
) -> Result<(Seq<Seq<i16>>, BitReader, Seq<i16>), DecodeError>
    decreases spec_total_blocks(sof) - b,
{
    if b >= spec_total_blocks(sof) {
        Ok((acc, s, dcs))
    } else {
        let c = spec_comp_of_block(sof, b);
        match spec_read_dc(s, tabs[c].0, dcs[c]) {
            Err(e) => Err(e),
            Ok((d, s1)) => match spec_read_ac(s1, tabs[c].1, spec_zero_block().update(0, d), 1) {
                Err(e) => Err(e),
                Ok((cs, s2)) => spec_read_blocks(s2, tabs, dcs.update(c, d), sof, b + 1, acc.push(cs)),
            },
        }
    }
}

/// The reconstructed block `b` of an MCU whose decoded coefficient
/// views are `bs`: dequantized with the owning component's table,
/// reordered and transformed.
pub open spec fn spec_transformed_block(
    bs: Seq<Seq<i16>>,
    sof: StartOfFrameInfo,
    qts: Seq<QuantizationTable>,
    b: int,
) -> Seq<i16> {
    Seq::new(
        64,
        |t: int|
            spec_reconstruct(
                bs[b],
                qts[sof.component_infos@[spec_comp_of_block(sof, b)].quant_table_id as int].values@,
                t / 8,
                t % 8,
            ) as i16,
    )
}

/// Pixel `k` of RGB block `bi` of an MCU decoded from coefficient
/// views `bs`: the converted YCbCr triple of the reconstructed Y sample
/// and the (possibly 2x2-replicated) chroma samples.
pub open spec fn spec_mcu_pixel(
    bs: Seq<Seq<i16>>,
    sof: StartOfFrameInfo,
    qts: Seq<QuantizationTable>,
    bi: int,
    k: int,
) -> RGB {
    spec_rgb_pixel(
        spec_transformed_block(bs, sof, qts, bi)[k],
        spec_chroma_sample(
            spec_transformed_block(bs, sof, qts, spec_comp_blocks(sof, 0)),
            bi / sof.max_horizontal_sampling as int,
            bi % sof.max_horizontal_sampling as int,
            k,
            sof.max_vertical_sampling == 2,
        ),
        spec_chroma_sample(
            spec_transformed_block(bs, sof, qts, spec_comp_blocks(sof, 0) + 1),
            bi / sof.max_horizontal_sampling as int,
            bi % sof.max_horizontal_sampling as int,
            k,
            sof.max_vertical_sampling == 2,
        ),
    )
}

/// Reads MCUs in raster order from the entropy-coded segment.
pub struct McuReader {
    pub reader: BitReader,
    pub sof: StartOfFrameInfo,
    pub qts: Vec<QuantizationTable>,
    pub huffman_tables: Vec<(HuffmanTree, HuffmanTree)>,
    pub last_dc: Vec<i16>,
    pub i: usize,
    pub total: usize,
    pub reset_interval: Option<u16>,
}

/// The first table of class `class`, if any.
pub open spec fn spec_find_table(hts: Seq<HuffmanTable>, class: HuffmanTableClass) -> Option<
    HuffmanTree,
>
    decreases hts.len(),
{
    if hts.len() == 0 {
        None
    } else if hts[0].class == class {
        Some(hts[0].map)
    } else {
        spec_find_table(hts.skip(1), class)
    }
}

impl McuReader {
    pub open spec fn wf(self) -> bool {
        &&& self.reader.wf()
        &&& self.sof.wf()
        &&& self.huffman_tables@.len() == 3
        &&& forall|c: int|
            0 <= c < 3 ==> (#[trigger] self.huffman_tables@[c]).0.wf()
                && self.huffman_tables@[c].1.wf()
        &&& self.last_dc@.len() == 3
        &&& self.i <= self.total
        &&& self.total == self.sof.spec_mcu_width_num() * self.sof.spec_mcu_height_num()
        &&& forall|c: int|
            0 <= c < 3 ==> (#[trigger] self.sof.component_infos@[c]).quant_table_id < self.qts@.len()
    }
}

/// Fields of the reader that one MCU step never changes.
pub open spec fn same_frame(a: McuReader, b: McuReader) -> bool {
    &&& a.sof == b.sof
    &&& a.qts == b.qts
    &&& a.huffman_tables == b.huffman_tables
    &&& a.total == b.total
    &&& a.reset_interval == b.reset_interval
}

/// The first Huffman table of the given class, cloned. Relies only on
/// the library's own lookup; a missing table is a malformed stream.
fn find_table(hts: &Vec<HuffmanTable>, class: HuffmanTableClass) -> (r: Result<
    HuffmanTree,
    DecodeError,
>)
    requires
        forall|k: int| 0 <= k < hts@.len() ==> (#[trigger] hts@[k]).map.wf(),
    ensures
        match spec_find_table(hts@, class) {
            Some(t) => r matches Ok(tr) && tr.wf() && tree_entries_eq(tr, t),
            None => r == Err::<HuffmanTree, DecodeError>(DecodeError::MalformedStream),
        },
{
    proof {
        assert(hts@.skip(0) =~= hts@);
    }
    let mut k: usize = 0;
    while k < hts.len()
        invariant
            k <= hts@.len(),
            forall|j: int| 0 <= j < hts@.len() ==> (#[trigger] hts@[j]).map.wf(),
            spec_find_table(hts@.skip(k as int), class) == spec_find_table(hts@, class),
        decreases hts@.len() - k,
    {
        proof {
            assert(hts@.skip(k as int)[0] == hts@[k as int]);
        }
        if hts[k].class == class {
            return Ok(hts[k].map.clone());
        }
        proof {
            assert(hts@.skip(k as int).skip(1) =~= hts@.skip(k as int + 1));
        }
        k = k + 1;
    }
    proof {
        assert(hts@.skip(hts@.len() as int).len() == 0);
    }
    Err(DecodeError::MalformedStream)
}

impl McuReader {
    /// Set up an MCU reader over the entropy-coded segment starting at
    /// `pos`: select each component's Huffman table pair named by the
    /// scan header and check that every referenced quantization table
    /// exists. Succeeds exactly when all referenced tables exist.
    #[verifier::loop_isolation(false)]
    pub fn new(
        data: Vec<u8>,
        pos: usize,
        sof: StartOfFrameInfo,
        sos: StartOfScanInfo,
        qts: Vec<QuantizationTable>,
        huffman: Vec<HuffmanTable>,
        reset_interval: Option<u16>,
    ) -> (r: Result<McuReader, DecodeError>)
        requires
            pos <= data@.len(),
            sof.wf(),
            forall|k: int| 0 <= k < huffman@.len() ==> (#[trigger] huffman@[k]).map.wf(),
        ensures
            ({
                let ok = (forall|c: int|
                    0 <= c < 3 ==> spec_find_table(
                        huffman@,
                        (#[trigger] sos.table_mapping@[c]).dc,
                    ) is Some && spec_find_table(huffman@, sos.table_mapping@[c].ac) is Some)
                    && (forall|c: int|
                    0 <= c < 3 ==> (#[trigger] sof.component_infos@[c]).quant_table_id
                        < qts@.len());
                if ok {
                    r matches Ok(rd) && rd.wf() && rd.i == 0 && rd.sof == sof && rd.qts == qts
                        && rd.reset_interval == reset_interval && rd.last_dc@ =~= seq![
                        0i16,
                        0i16,
                        0i16,
                    ] && rd.reader.data@ == data@ && rd.reader.pos == pos && rd.reader.buf == 0
                        && rd.reader.count == 0 && rd.reader.pending == false && (forall|c: int|
                        0 <= c < 3 ==> tree_entries_eq(
                            (#[trigger] rd.huffman_tables@[c]).0,
                            spec_find_table(huffman@, sos.table_mapping@[c].dc).unwrap(),
                        ) && tree_entries_eq(
                            rd.huffman_tables@[c].1,
                            spec_find_table(huffman@, sos.table_mapping@[c].ac).unwrap(),
                        ))
                } else {
                    r == Err::<McuReader, DecodeError>(DecodeError::MalformedStream)
                }
            }),
    {
        let mut huffman_tables: Vec<(HuffmanTree, HuffmanTree)> = Vec::new();
        let mut c: usize = 0;
        while c < 3
            invariant
                c <= 3,
                huffman_tables@.len() == c,
                forall|k: int|
                    0 <= k < c ==> spec_find_table(
                        huffman@,
                        (#[trigger] sos.table_mapping@[k]).dc,
                    ) is Some && spec_find_table(huffman@, sos.table_mapping@[k].ac) is Some,
                forall|k: int|
                    0 <= k < c ==> (#[trigger] huffman_tables@[k]).0.wf()
                        && huffman_tables@[k].1.wf() && tree_entries_eq(
                        huffman_tables@[k].0,
                        spec_find_table(huffman@, sos.table_mapping@[k].dc).unwrap(),
                    ) && tree_entries_eq(
                        huffman_tables@[k].1,
                        spec_find_table(huffman@, sos.table_mapping@[k].ac).unwrap(),
                    ),
            decreases 3 - c,
        {
            let dc = match find_table(&huffman, sos.table_mapping[c].dc) {
                Ok(t) => t,
                Err(e) => {
                    return Err(e);
                },
            };
            let ac = match find_table(&huffman, sos.table_mapping[c].ac) {
                Ok(t) => t,
                Err(e) => {
                    return Err(e);
                },
            };
            huffman_tables.push((dc, ac));
            c = c + 1;
        }
        let mut c: usize = 0;
        while c < 3
            invariant
                c <= 3,
                forall|k: int|
                    0 <= k < c ==> (#[trigger] sof.component_infos@[k]).quant_table_id
                        < qts@.len(),
            decreases 3 - c,
        {
            if sof.component_infos[c].quant_table_id as usize >= qts.len() {
                return Err(DecodeError::MalformedStream);
            }
            c = c + 1;
        }
        let wn = sof.mcu_width_num();
        let hn = sof.mcu_height_num();
        proof {
            let w = sof.width as int;
            let h = sof.height as int;
            if sof.max_horizontal_sampling == 1 {
                assert(wn == (w - 1) / 8 + 1);
                assert(wn <= 8192);
            } else {
                assert(wn == (w - 1) / 16 + 1);
                assert(wn <= 8192);
            }
            if sof.max_vertical_sampling == 1 {
                assert(hn == (h - 1) / 8 + 1);
                assert(hn <= 8192);
            } else {
                assert(hn == (h - 1) / 16 + 1);
                assert(hn <= 8192);
            }
            assert((wn as int) * (hn as int) <= 67108864) by (nonlinear_arith)
                requires
                    wn <= 8192,
                    hn <= 8192,
            ;
        }
        let total = (wn as usize) * (hn as usize);
        let mut last_dc: Vec<i16> = Vec::new();
        last_dc.push(0);
        last_dc.push(0);
        last_dc.push(0);
        Ok(
            McuReader {
                reader: BitReader::new(data, pos),
                total,
                reset_interval,
                sof,
                qts,
                huffman_tables,
                last_dc,
                i: 0,
            },
        )
    }

    /// Decode one DC coefficient for component `id`, updating the
    /// component's predictor.
    pub fn read_dc(&mut self, id: usize) -> (r: Result<i16, DecodeError>)
        requires
            old(self).wf(),
            id < 3,
        ensures
            final(self).wf(),
            same_frame(*final(self), *old(self)),
            final(self).i == old(self).i,
            match spec_read_dc(
                old(self).reader,
                old(self).huffman_tables@[id as int].0,
                old(self).last_dc@[id as int],
            ) {
                Ok(ds) => r == Ok::<i16, DecodeError>(ds.0) && final(self).reader.state_eq(ds.1)
                    && final(self).last_dc@ =~= old(self).last_dc@.update(id as int, ds.0),
                Err(e) => r == Err::<i16, DecodeError>(e),
            },
    {
        let len = match self.reader.read_decode_haffman(&self.huffman_tables[id].0) {
            Ok(v) => v,
            Err(e) => {
                return Err(e);
            },
        };
        if len > 11 {
            return Err(DecodeError::MalformedStream);
        }
        let v = match self.reader.read_value(len) {
            Ok(v) => v,
            Err(e) => {
                return Err(e);
            },
        };
        let dc = self.last_dc[id].wrapping_add(v);
        self.last_dc[id] = dc;
        Ok(dc)
    }
}

impl McuReader {
    /// Decode one coefficient block for component `id`: the DC
    /// coefficient (as DPCM against the component predictor), then AC
    /// coefficients until EOB or position 63. The block stays in
    /// zig-zag order.
    #[verifier::loop_isolation(false)]
    pub fn read_block(&mut self, id: usize) -> (r: Result<Block, DecodeError>)
        requires
            old(self).wf(),
            id < 3,
        ensures
            final(self).wf(),
            same_frame(*final(self), *old(self)),
            final(self).i == old(self).i,
            match spec_read_dc(
                old(self).reader,
                old(self).huffman_tables@[id as int].0,
                old(self).last_dc@[id as int],
            ) {
                Err(e) => r == Err::<Block, DecodeError>(e),
                Ok(ds) => {
                    &&& final(self).last_dc@ =~= old(self).last_dc@.update(id as int, ds.0)
                    &&& match spec_read_ac(
                        ds.1,
                        old(self).huffman_tables@[id as int].1,
                        spec_zero_block().update(0, ds.0),
                        1,
                    ) {
                        Err(e) => r == Err::<Block, DecodeError>(e),
                        Ok(cs) => r matches Ok(blk) && blk.0@ =~= cs.0
                            && final(self).reader.state_eq(cs.1),
                    }
                },
            },
    {
        let d = match self.read_dc(id) {
            Ok(d) => d,
            Err(e) => {
                return Err(e);
            },
        };
        let ghost s1 = spec_read_dc(
            old(self).reader,
            old(self).huffman_tables@[id as int].0,
            old(self).last_dc@[id as int],
        ).unwrap().1;
        let ghost ac_tree = old(self).huffman_tables@[id as int].1;
        let mut x: [i16; 64] = [0i16; 64];
        x[0] = d;
        proof {
            assert(x@ =~= spec_zero_block().update(0, d));
        }
        proof {
            assert(self.reader == s1);
        }
        let mut i: usize = 1;
        let mut eob: bool = false;
        while i < 64 && !eob
            invariant
                self.wf(),
                same_frame(*self, *old(self)),
                self.i == old(self).i,
                self.last_dc@ =~= old(self).last_dc@.update(id as int, d),
                id < 3,
                1 <= i <= 64,
                ac_tree == old(self).huffman_tables@[id as int].1,
                ac_tree.wf(),
                !eob ==> spec_read_ac(self.reader, ac_tree, x@, i as int) == spec_read_ac(
                    s1,
                    ac_tree,
                    spec_zero_block().update(0, d),
                    1,
                ),
                eob ==> spec_read_ac(s1, ac_tree, spec_zero_block().update(0, d), 1) == Ok::<
                    (Seq<i16>, BitReader),
                    DecodeError,
                >((x@, self.reader)),
            decreases 64 - i, (if eob { 0int } else { 1int }),
        {
            let ghost pre = self.reader;
            let sym = match self.reader.read_decode_haffman(&self.huffman_tables[id].1) {
                Ok(v) => v,
                Err(e) => {
                    return Err(e);
                },
            };
            if sym == 0x00 {
                proof {
                    assert(spec_read_ac(pre, ac_tree, x@, i as int) == Ok::<
                        (Seq<i16>, BitReader),
                        DecodeError,
                    >((x@, self.reader)));
                }
                eob = true;
            } else if sym == 0xF0 {
                if i + 16 > 64 {
                    return Err(DecodeError::MalformedStream);
                }
                i = i + 16;
            } else {
                let zeros = (sym >> 4) as usize;
                let size = sym & 0x0F;
                proof {
                    assert(sym & 0x0F <= 15 && sym >> 4 <= 15) by (bit_vector);
                }
                if i + zeros > 63 {
                    return Err(DecodeError::MalformedStream);
                }
                let v = match self.reader.read_value(size) {
                    Ok(v) => v,
                    Err(e) => {
                        return Err(e);
                    },
                };
                x[i + zeros] = v;
                i = i + zeros + 1;
            }
        }
        Ok(Block(x))
    }
}


/// The pixels of a converted MCU are those of the decoded coefficient
/// views: reconstruction per block, then per-pixel color conversion.
#[verifier::rlimit(100)]
proof fn lemma_mcu_pixels(
    mcu: Mcu,
    rgb: McuRGB,
    acc: Seq<Seq<i16>>,
    sof: StartOfFrameInfo,
    qv: Seq<QuantizationTable>,
)
    requires
        sof.wf(),
        mcu.blocks_seq().len() == spec_total_blocks(sof),
        forall|b: int, i: int, j: int|
            #![trigger mcu.blocks_seq()[b].0@[8 * i + j]]
            0 <= b < spec_total_blocks(sof) && 0 <= i < 8 && 0 <= j < 8
                ==> mcu.blocks_seq()[b].0@[8 * i + j] == spec_reconstruct(
                acc[b],
                qv[sof.component_infos@[spec_comp_of_block(sof, b)].quant_table_id as int].values@,
                i,
                j,
            ),
        rgb.spec_width_blocks() == sof.max_horizontal_sampling,
        rgb.spec_height_blocks() == sof.max_vertical_sampling,
        rgb.wf(),
        forall|b: int, k: int|
            #![trigger rgb.spec_pixel(b, k)]
            0 <= b < rgb.spec_block_count() && 0 <= k < 64 ==> rgb.spec_pixel(b, k)
                == spec_rgb_pixel(
                mcu.blocks_seq()[b].0@[k],
                spec_chroma_sample(
                    mcu.blocks_seq()[spec_comp_blocks(sof, 0)].0@,
                    b / sof.max_horizontal_sampling as int,
                    b % sof.max_horizontal_sampling as int,
                    k,
                    sof.max_vertical_sampling == 2,
                ),
                spec_chroma_sample(
                    mcu.blocks_seq()[spec_comp_blocks(sof, 0) + 1].0@,
                    b / sof.max_horizontal_sampling as int,
                    b % sof.max_horizontal_sampling as int,
                    k,
                    sof.max_vertical_sampling == 2,
                ),
            ),
    ensures
        forall|bi: int, k: int|
            #![trigger rgb.spec_pixel(bi, k)]
            0 <= bi < rgb.spec_block_count() && 0 <= k < 64 ==> rgb.spec_pixel(bi, k)
                == spec_mcu_pixel(acc, sof, qv, bi, k),
{
    assert forall|b: int, t: int|
        0 <= b < spec_total_blocks(sof) && 0 <= t < 64 implies #[trigger] mcu.blocks_seq()[b].0@[t]
        == spec_transformed_block(acc, sof, qv, b)[t] by {
        let i1 = t / 8;
        let j1 = t % 8;
        assert(t == 8 * i1 + j1);
        assert(mcu.blocks_seq()[b].0@[8 * i1 + j1] == spec_reconstruct(
            acc[b],
            qv[sof.component_infos@[spec_comp_of_block(sof, b)].quant_table_id as int].values@,
            i1,
            j1,
        ));
    }
    assert forall|bi: int, k: int|
        0 <= bi < rgb.spec_block_count() && 0 <= k < 64 implies #[trigger] rgb.spec_pixel(bi, k)
        == spec_mcu_pixel(acc, sof, qv, bi, k) by {
        let s0 = spec_comp_blocks(sof, 0);
        assert(mcu.blocks_seq()[bi].0@ =~= spec_transformed_block(acc, sof, qv, bi));
        assert(mcu.blocks_seq()[s0].0@ =~= spec_transformed_block(acc, sof, qv, s0));
        assert(mcu.blocks_seq()[s0 + 1].0@ =~= spec_transformed_block(acc, sof, qv, s0 + 1));
    }
}

impl McuReader {
    /// Decode the next MCU and convert it to RGB, or `None` when all
    /// MCUs of the image have been produced. At every restart-interval
    /// boundary the bit reader is realigned past the restart marker and
    /// the DC predictors return to zero.
    #[verifier::loop_isolation(false)]
    #[verifier::rlimit(100)]
    pub fn next(&mut self) -> (r: Result<Option<McuRGB>, DecodeError>)
        requires
            old(self).wf(),
        ensures
            final(self).wf(),
            same_frame(*final(self), *old(self)),
            old(self).i == old(self).total ==> r == Ok::<Option<McuRGB>, DecodeError>(None)
                && *final(self) == *old(self),
            old(self).i < old(self).total ==> match spec_read_blocks(
                old(self).reader,
                old(self).huffman_tables@,
                old(self).last_dc@,
                old(self).sof,
                0,
                Seq::empty(),
            ) {
                Err(e) => r == Err::<Option<McuRGB>, DecodeError>(e),
                Ok(out) => {
                    let boundary = old(self).reset_interval matches Some(rst) && rst > 0 && (old(
                        self,
                    ).i + 1) as int % (rst as int) == 0;
                    &&& (r matches Ok(om) ==> {
                        &&& om matches Some(m)
                        &&& final(self).i == old(self).i + 1
                        &&& m.wf()
                        &&& m.spec_width_blocks() == old(self).sof.max_horizontal_sampling
                        &&& m.spec_height_blocks() == old(self).sof.max_vertical_sampling
                        &&& forall|bi: int, k: int|
                            #![trigger m.spec_pixel(bi, k)]
                            0 <= bi < m.spec_block_count() && 0 <= k < 64 ==> m.spec_pixel(bi, k)
                                == spec_mcu_pixel(out.0, old(self).sof, old(self).qts@, bi, k)
                    })
                    &&& (!boundary ==> r is Ok && final(self).reader.state_eq(out.1)
                        && final(self).last_dc@ =~= out.2)
                    &&& (boundary ==> match spec_reset(out.1) {
                        Ok(s3) => r is Ok && final(self).reader.state_eq(s3)
                            && final(self).last_dc@ =~= seq![0i16, 0i16, 0i16],
                        Err(e) => r == Err::<Option<McuRGB>, DecodeError>(e),
                    })
                },
            },
    {
        if self.i == self.total {
            return Ok(None);
        }
        let size0 = {
            let hs = self.sof.component_infos[0].horizontal_sampling as usize;
            let vs = self.sof.component_infos[0].vertical_sampling as usize;
            proof {
                assert(1 <= hs * vs <= 4) by (nonlinear_arith)
                    requires
                        1 <= hs <= 2,
                        1 <= vs <= 2,
                ;
            }
            hs * vs
        };
        let nblocks = size0 + 2;
        let mut mcu = Mcu::default();
        let ghost mut acc: Seq<Seq<i16>> = Seq::empty();
        let mut bi: usize = 0;
        while bi < nblocks
            invariant
                self.wf(),
                same_frame(*self, *old(self)),
                self.i == old(self).i,
                self.i < self.total,
                size0 == spec_comp_blocks(old(self).sof, 0),
                nblocks == spec_total_blocks(old(self).sof),
                bi <= nblocks,
                acc.len() == bi,
                mcu.blocks_seq().len() == bi,
                forall|k: int| 0 <= k < bi ==> (#[trigger] mcu.blocks_seq()[k]).0@ == acc[k],
                spec_read_blocks(
                    self.reader,
                    old(self).huffman_tables@,
                    self.last_dc@,
                    old(self).sof,
                    bi as int,
                    acc,
                ) == spec_read_blocks(
                    old(self).reader,
                    old(self).huffman_tables@,
                    old(self).last_dc@,
                    old(self).sof,
                    0,
                    Seq::empty(),
                ),
            decreases nblocks - bi,
        {
            let id: usize = if bi < size0 {
                0
            } else if bi == size0 {
                1
            } else {
                2
            };
            proof {
                assert(spec_comp_of_block(old(self).sof, bi as int) == id);
            }
            let ghost pre = *self;
            let blk = match self.read_block(id) {
                Ok(b) => b,
                Err(e) => {
                    return Err(e);
                },
            };
            sv_push(&mut mcu.blocks, blk);
            proof {
                let ds = spec_read_dc(
                    pre.reader,
                    pre.huffman_tables@[id as int].0,
                    pre.last_dc@[id as int],
                ).unwrap();
                let cs = spec_read_ac(
                    ds.1,
                    pre.huffman_tables@[id as int].1,
                    spec_zero_block().update(0, ds.0),
                    1,
                ).unwrap();
                assert(blk.0@ == cs.0);
                assert(self.last_dc@ == pre.last_dc@.update(id as int, ds.0));
                assert(self.reader == cs.1);
                acc = acc.push(blk.0@);
            }
            bi = bi + 1;
        }
        proof {
            assert(spec_read_blocks(
                old(self).reader,
                old(self).huffman_tables@,
                old(self).last_dc@,
                old(self).sof,
                0,
                Seq::empty(),
            ) == Ok::<(Seq<Seq<i16>>, BitReader, Seq<i16>), DecodeError>(
                (acc, self.reader, self.last_dc@),
            ));
        }
        let ghost post_reader = self.reader;
        let ghost post_dcs = self.last_dc@;
        mcu.itrans(&self.sof, &self.qts);
        let rgb = mcu.to_rgb(&self.sof);
        proof {
            lemma_mcu_pixels(mcu, rgb, acc, old(self).sof, old(self).qts@);
        }
        self.i = self.i + 1;
        match self.reset_interval {
            Some(rst) => {
                if rst > 0 && self.i % (rst as usize) == 0 {
                    match self.reader.reset() {
                        Ok(_) => (),
                        Err(e) => {
                            return Err(e);
                        },
                    }
                    self.last_dc[0] = 0;
                    self.last_dc[1] = 0;
                    self.last_dc[2] = 0;
                    proof {
                        assert(self.last_dc@ =~= seq![0i16, 0i16, 0i16]);
                    }
                }
            },
            None => (),
        }
        Ok(Some(rgb))
    }

    /// Image width in pixels.
    pub fn width(&self) -> (r: u16)
        ensures
            r == self.sof.width,
    {
        self.sof.width
    }

    /// Image height in pixels.
    pub fn height(&self) -> (r: u16)
        ensures
            r == self.sof.height,
    {
        self.sof.height
    }

    /// Number of MCU columns of the image.
    pub fn mcu_width_num(&self) -> (r: u16)
        requires
            self.wf(),
        ensures
            r == self.sof.spec_mcu_width_num(),
    {
        self.sof.mcu_width_num()
    }

    /// Height in pixels of one MCU cell.
    pub fn mcu_height(&self) -> (r: u16)
        ensures
            r == self.sof.spec_mcu_height(),
    {
        self.sof.mcu_height()
    }
}

/// The reader emits exactly one RGB cell per MCU grid position: `next`
/// yields a cell for each of the first `total` calls and `None` after,
/// and `total` is the number of MCU columns times the number of MCU
/// rows of the image.
pub proof fn lemma_mcu_cell_count(rd: McuReader)
    requires
        rd.wf(),
    ensures
        rd.total == rd.sof.spec_mcu_width_num() * rd.sof.spec_mcu_height_num(),
{
}

/// Decoding a DC coefficient reads only the bytes: readers over equal
/// byte sequences decode alike.
proof fn lemma_read_dc_view(a: BitReader, b: BitReader, tree: HuffmanTree, dc: i16)
    requires
        view_eq(a, b),
    ensures
        match (spec_read_dc(a, tree, dc), spec_read_dc(b, tree, dc)) {
            (Ok(ra), Ok(rb)) => ra.0 == rb.0 && view_eq(ra.1, rb.1),
            (Err(e1), Err(e2)) => e1 == e2,
            _ => false,
        },
{
    lemma_fill_view(a, b, 16);
    if let (Ok(a2), Ok(b2)) = (spec_fill(a, 16), spec_fill(b, 16)) {
        let e = tree.entry(spec_peek_val(a2, 16) as int);
        if e.0 != 0 && 0 < e.1 <= 11 {
            lemma_fill_view(spec_consume(a2, e.0), spec_consume(b2, e.0), e.1);
        }
    }
}

/// Decoding AC coefficients reads only the bytes.
proof fn lemma_read_ac_view(a: BitReader, b: BitReader, ac: HuffmanTree, coeffs: Seq<i16>, i: int)
    requires
        view_eq(a, b),
    ensures
        match (spec_read_ac(a, ac, coeffs, i), spec_read_ac(b, ac, coeffs, i)) {
            (Ok(ra), Ok(rb)) => ra.0 == rb.0 && view_eq(ra.1, rb.1),
            (Err(e1), Err(e2)) => e1 == e2,
            _ => false,
        },
    decreases 64 - i,
{
    if i < 64 {
        lemma_fill_view(a, b, 16);
        if let (Ok(a2), Ok(b2)) = (spec_fill(a, 16), spec_fill(b, 16)) {
            let e = ac.entry(spec_peek_val(a2, 16) as int);
            if e.0 != 0 {
                let a3 = spec_consume(a2, e.0);
                let b3 = spec_consume(b2, e.0);
                if e.1 == 0xF0 {
                    if i + 16 <= 64 {
                        lemma_read_ac_view(a3, b3, ac, coeffs, i + 16);
                    }
                } else if e.1 != 0 {
                    let zeros = (e.1 >> 4) as int;
                    let size = e.1 & 0x0F;
                    if i + zeros <= 63 {
                        if size == 0 {
                            lemma_read_ac_view(a3, b3, ac, coeffs.update(i + zeros, 0i16), i
                                + zeros + 1);
                        } else {
                            lemma_fill_view(a3, b3, size);
                            if let (Ok(a4), Ok(b4)) = (spec_fill(a3, size), spec_fill(b3, size)) {
                                lemma_read_ac_view(
                                    spec_consume(a4, size),
                                    spec_consume(b4, size),
                                    ac,
                                    coeffs.update(
                                        i + zeros,
                                        spec_signed_value(spec_peek_val(a4, size), size) as i16,
                                    ),
                                    i + zeros + 1,
                                );
                            }
                        }
                    }
                }
            }
        }
    }
}

/// Decoding is deterministic: over equal compressed bytes, with the
/// same tables and predictors, the decoded coefficient blocks, the
/// final predictors and the reader position are equal. Since the block
/// reconstruction and color conversion are functions of those blocks,
/// identical compressed input yields byte-identical RGB output.
pub proof fn lemma_decode_deterministic(
    a: BitReader,
    b: BitReader,
    tabs: Seq<(HuffmanTree, HuffmanTree)>,
    dcs: Seq<i16>,
    sof: StartOfFrameInfo,
    bidx: int,
    acc: Seq<Seq<i16>>,
)
    requires
        view_eq(a, b),
    ensures
        match (spec_read_blocks(a, tabs, dcs, sof, bidx, acc), spec_read_blocks(
            b,
            tabs,
            dcs,
            sof,
            bidx,
            acc,
        )) {
            (Ok(ra), Ok(rb)) => ra.0 == rb.0 && view_eq(ra.1, rb.1) && ra.2 == rb.2,
            (Err(e1), Err(e2)) => e1 == e2,
            _ => false,
        },
    decreases spec_total_blocks(sof) - bidx,
{
    if bidx < spec_total_blocks(sof) {
        let c = spec_comp_of_block(sof, bidx);
        lemma_read_dc_view(a, b, tabs[c].0, dcs[c]);
        if let (Ok(da), Ok(db)) = (spec_read_dc(a, tabs[c].0, dcs[c]), spec_read_dc(
            b,
            tabs[c].0,
            dcs[c],
        )) {
            lemma_read_ac_view(da.1, db.1, tabs[c].1, spec_zero_block().update(0, da.0), 1);
            if let (Ok(ca), Ok(cb)) = (spec_read_ac(
                da.1,
                tabs[c].1,
                spec_zero_block().update(0, da.0),
                1,
            ), spec_read_ac(db.1, tabs[c].1, spec_zero_block().update(0, db.0), 1)) {
                lemma_decode_deterministic(
                    ca.1,
                    cb.1,
                    tabs,
                    dcs.update(c, da.0),
                    sof,
                    bidx + 1,
                    acc.push(ca.0),
                );
            }
        }
    }
}

} // verus!
