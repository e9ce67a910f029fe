//! Baseline JPEG (SOF0) decoder core: marker scanning, segment parsing,
//! Huffman entropy decoding with DC prediction and restart markers, and
//! block reconstruction (dequantization, zig-zag reordering, fixed-point
//! IDCT, chroma upsampling and YCbCr to RGB conversion).
//!
//! The decoder works over an in-memory byte buffer; callers read the file
//! into a `Vec<u8>` and drive `Decoder::read` / `McuReader::next`.
use vstd::prelude::*;

use crate::huffman::dht_tables_match;
use crate::huffman::spec_parse_dht;
use crate::huffman::tree_matches_canonical;
use crate::huffman::DhtTableSpec;
use crate::huffman::HuffmanTable;
use crate::huffman::HuffmanTableClass;
use crate::marker::spec_next_marker;
use crate::marker::Marker;
use crate::mcu::spec_find_table;
use crate::mcu::McuReader;
use crate::quantization_table::dqt_tables_match;
use crate::quantization_table::spec_parse_dqt;
use crate::quantization_table::QuantizationTable;
use crate::start_of_frame_0::sof_matches;
use crate::start_of_frame_0::spec_parse_sof;
use crate::start_of_frame_0::SofSpec;
use crate::start_of_frame_0::StartOfFrameInfo;
use crate::start_of_scan::spec_parse_sos;

pub mod bitreader;
pub mod decode;
pub mod huffman;
pub mod marker;
pub mod mcu;
pub mod ppm;
pub mod quantization_table;
pub mod sof0;
pub mod start_of_frame_0;
pub mod start_of_scan;

verus! {

/// The error taxonomy of the decoder.
///
/// `Truncated`: end of input before a required field completes.
/// `MalformedStream`: bad marker byte, impossible segment length, illegal
/// Huffman structure, AC run overrunning a block, or an unexpected marker
/// inside entropy-coded data.
/// `UnsupportedFormat`: progressive frames, precision other than 8,
/// component count other than 3, or chroma subsampling outside 4:4:4/4:2:0.
/// `IoFailure`: reserved for drivers whose byte source fails; the in-memory
/// core itself never produces it.
#[derive(Clone, Copy, Debug, PartialEq, Eq, Structural)]
pub enum DecodeError {
    Truncated,
    MalformedStream,
    UnsupportedFormat,
    IoFailure,
}

/// A JPEG decoder positioned inside an in-memory byte stream.
pub struct Decoder {
    pub data: Vec<u8>,
    pub pos: usize,
}

impl Decoder {
    pub open spec fn wf(self) -> bool {
        self.pos <= self.data@.len()
    }

    pub fn new(data: Vec<u8>) -> (r: Decoder)
        ensures
            r.wf(),
            r.data@ == data@,
            r.pos == 0,
    {
        Decoder { data, pos: 0 }
    }

    /// Read a byte.
    pub fn read_byte(&mut self) -> (r: Result<u8, DecodeError>)
        requires
            old(self).wf(),
        ensures
            final(self).wf(),
            final(self).data@ == old(self).data@,
            old(self).pos < old(self).data@.len() ==> r == Ok::<u8, DecodeError>(
                old(self).data@[old(self).pos as int],
            ) && final(self).pos == old(self).pos + 1,
            old(self).pos == old(self).data@.len() ==> r == Err::<u8, DecodeError>(
                DecodeError::Truncated,
            ) && final(self).pos == old(self).pos,
    {
        if self.pos < self.data.len() {
            let b = self.data[self.pos];
            self.pos = self.pos + 1;
            Ok(b)
        } else {
            Err(DecodeError::Truncated)
        }
    }

    /// Read a DRI segment: its length must be 4, the payload is the
    /// restart interval in MCUs (0 disables restarts).
    pub fn read_restart_interval(&mut self) -> (r: Result<u16, DecodeError>)
        requires
            old(self).wf(),
        ensures
            final(self).wf(),
            final(self).data@ == old(self).data@,
            ({
                let data = old(self).data@;
                let pos = old(self).pos as int;
                if pos + 2 > data.len() {
                    r == Err::<u16, DecodeError>(DecodeError::Truncated)
                } else if spec_u16_be(data, pos) != 4 {
                    r == Err::<u16, DecodeError>(DecodeError::MalformedStream)
                } else if pos + 4 > data.len() {
                    r == Err::<u16, DecodeError>(DecodeError::Truncated)
                } else {
                    r == Ok::<u16, DecodeError>(spec_u16_be(data, pos + 2)) && final(self).pos
                        == pos + 4
                }
            }),
    {
        let len = match self.read_u16() {
            Ok(l) => l,
            Err(e) => {
                return Err(e);
            },
        };
        if len != 4 {
            return Err(DecodeError::MalformedStream);
        }
        let interval = match self.read_u16() {
            Ok(v) => v,
            Err(e) => {
                return Err(e);
            },
        };
        Ok(interval)
    }

    /// Skip an APPn or COM segment: its 16-bit length counts the length
    /// bytes themselves.
    pub fn skip_app(&mut self) -> (r: Result<(), DecodeError>)
        requires
            old(self).wf(),
        ensures
            final(self).wf(),
            final(self).data@ == old(self).data@,
            ({
                let data = old(self).data@;
                let pos = old(self).pos as int;
                if pos + 2 > data.len() {
                    r == Err::<(), DecodeError>(DecodeError::Truncated)
                } else if spec_u16_be(data, pos) < 2 {
                    r == Err::<(), DecodeError>(DecodeError::MalformedStream)
                } else if pos + spec_u16_be(data, pos) > data.len() {
                    r == Err::<(), DecodeError>(DecodeError::Truncated)
                } else {
                    r == Ok::<(), DecodeError>(()) && final(self).pos == pos + spec_u16_be(
                        data,
                        pos,
                    )
                }
            }),
    {
        let len = match self.read_u16() {
            Ok(l) => l,
            Err(e) => {
                return Err(e);
            },
        };
        if len < 2 {
            return Err(DecodeError::MalformedStream);
        }
        let skip = (len - 2) as usize;
        if self.data.len() - self.pos < skip {
            return Err(DecodeError::Truncated);
        }
        self.pos = self.pos + skip;
        Ok(())
    }

    /// Read a big-endian u16.
    pub fn read_u16(&mut self) -> (r: Result<u16, DecodeError>)
        requires
            old(self).wf(),
        ensures
            final(self).wf(),
            final(self).data@ == old(self).data@,
            old(self).pos + 2 <= old(self).data@.len() ==> r == Ok::<u16, DecodeError>(
                spec_u16_be(old(self).data@, old(self).pos as int),
            ) && final(self).pos == old(self).pos + 2,
            old(self).pos + 2 > old(self).data@.len() ==> r == Err::<u16, DecodeError>(
                DecodeError::Truncated,
            ),
    {
        if self.data.len() - self.pos >= 2 {
            let hi = self.data[self.pos];
            let lo = self.data[self.pos + 1];
            self.pos = self.pos + 2;
            Ok((hi as u16) * 256 + (lo as u16))
        } else {
            Err(DecodeError::Truncated)
        }
    }
}

/// The big-endian 16-bit value at position `pos` of `data`.
pub open spec fn spec_u16_be(data: Seq<u8>, pos: int) -> u16
    recommends
        0 <= pos,
        pos + 2 <= data.len(),
{
    (data[pos] * 256 + data[pos + 1]) as u16
}

/// A DQT segment with its leading length field.
pub open spec fn spec_dqt_segment(data: Seq<u8>, p: int) -> Result<
    (Seq<(u8, Seq<i16>)>, int),
    DecodeError,
> {
    if p + 2 > data.len() {
        Err(DecodeError::Truncated)
    } else if spec_u16_be(data, p) < 2 {
        Err(DecodeError::MalformedStream)
    } else {
        spec_parse_dqt(data, p + 2, spec_u16_be(data, p) - 2)
    }
}

/// A DHT segment with its leading length field.
pub open spec fn spec_dht_segment(data: Seq<u8>, p: int) -> Result<
    (Seq<DhtTableSpec>, int),
    DecodeError,
> {
    if p + 2 > data.len() {
        Err(DecodeError::Truncated)
    } else if spec_u16_be(data, p) < 2 {
        Err(DecodeError::MalformedStream)
    } else {
        spec_parse_dht(data, p + 2, spec_u16_be(data, p) - 2)
    }
}

/// A DRI segment: length 4, then the restart interval.
pub open spec fn spec_dri_segment(data: Seq<u8>, p: int) -> Result<(u16, int), DecodeError> {
    if p + 2 > data.len() {
        Err(DecodeError::Truncated)
    } else if spec_u16_be(data, p) != 4 {
        Err(DecodeError::MalformedStream)
    } else if p + 4 > data.len() {
        Err(DecodeError::Truncated)
    } else {
        Ok((spec_u16_be(data, p + 2), p + 4))
    }
}

/// A skipped segment (APPn or COM): its length covers the length bytes.
pub open spec fn spec_skip_segment(data: Seq<u8>, p: int) -> Result<int, DecodeError> {
    if p + 2 > data.len() {
        Err(DecodeError::Truncated)
    } else if spec_u16_be(data, p) < 2 {
        Err(DecodeError::MalformedStream)
    } else if p + spec_u16_be(data, p) > data.len() {
        Err(DecodeError::Truncated)
    } else {
        Ok(p + spec_u16_be(data, p))
    }
}

/// Everything gathered from the header segments before the scan.
pub ghost struct HeaderState {
    pub qts: Seq<(u8, Seq<i16>)>,
    pub hts: Seq<DhtTableSpec>,
    pub sof: Option<SofSpec>,
    pub ri: Option<u16>,
}

/// A successful `spec_next_marker` advances within the stream.
proof fn lemma_next_marker_advances(data: Seq<u8>, pos: int)
    ensures
        spec_next_marker(data, pos) matches Ok(mp) ==> pos < mp.1 <= data.len(),
    decreases data.len() - pos,
{
    if 0 <= pos < data.len() {
        if data[pos] != 0xFF {
            lemma_next_marker_advances(data, pos + 1);
        } else if pos + 1 < data.len() {
            if data[pos + 1] == 0x00 {
                lemma_next_marker_advances(data, pos + 2);
            } else if data[pos + 1] == 0xFF {
                lemma_next_marker_advances(data, pos + 1);
            }
        }
    }
}

/// A successful DQT body parse stays within the stream.
proof fn lemma_parse_dqt_advances(data: Seq<u8>, pos: int, rem: int)
    requires
        0 <= pos <= data.len(),
    ensures
        spec_parse_dqt(data, pos, rem) matches Ok(tsp) ==> pos <= tsp.1 <= data.len(),
    decreases rem,
{
    if rem > 0 && 0 <= pos < data.len() {
        let precision = data[pos] >> 4;
        if precision == 0 && rem >= 65 && pos + 65 <= data.len() {
            lemma_parse_dqt_advances(data, pos + 65, rem - 65);
        } else if precision == 1 && rem >= 129 && pos + 129 <= data.len() {
            lemma_parse_dqt_advances(data, pos + 129, rem - 129);
        }
    }
}

/// A successful DHT body parse stays within the stream.
proof fn lemma_parse_dht_advances(data: Seq<u8>, pos: int, rem: int)
    requires
        0 <= pos <= data.len(),
    ensures
        spec_parse_dht(data, pos, rem) matches Ok(tsp) ==> pos <= tsp.1 <= data.len(),
    decreases rem,
{
    if rem > 0 && 0 <= pos < data.len() && pos + 17 <= data.len() {
        let counts = data.subrange(pos + 1, pos + 17);
        let total = crate::huffman::spec_sum_counts(counts, 16);
        crate::huffman::lemma_sum_counts_nonneg(counts, 16);
        if rem >= 17 + total && total <= 256 && pos + 17 + total <= data.len() {
            lemma_parse_dht_advances(data, pos + 17 + total, rem - 17 - total);
        }
    }
}

/// A successful SOF0 parse stays within the stream.
proof fn lemma_parse_sof_advances(data: Seq<u8>, pos: int)
    ensures
        spec_parse_sof(data, pos) matches Ok(sp) ==> pos < sp.1 <= data.len(),
{
}

/// Walking the header segments from `pos` with the state gathered so
/// far: tables and fields accumulate until an SOS marker, which needs a
/// frame header already seen. SOF2 is an unsupported format; EOI, a
/// stray SOI or a restart marker among the headers is a malformed
/// stream.
pub open spec fn spec_read_headers(data: Seq<u8>, pos: int, st: HeaderState) -> Result<
    (HeaderState, int),
    DecodeError,
>
    decreases data.len() - pos,
    via spec_read_headers_decreases
{
    match spec_next_marker(data, pos) {
        Err(e) => Err(e),
        Ok(mp) => match mp.0 {
            Marker::DQT => match spec_dqt_segment(data, mp.1) {
                Err(e) => Err(e),
                Ok(tsp) => spec_read_headers(
                    data,
                    tsp.1,
                    HeaderState { qts: st.qts + tsp.0, ..st },
                ),
            },
            Marker::DHT => match spec_dht_segment(data, mp.1) {
                Err(e) => Err(e),
                Ok(tsp) => spec_read_headers(
                    data,
                    tsp.1,
                    HeaderState { hts: st.hts + tsp.0, ..st },
                ),
            },
            Marker::SOF0 => match spec_parse_sof(data, mp.1) {
                Err(e) => Err(e),
                Ok(sp) => spec_read_headers(data, sp.1, HeaderState { sof: Some(sp.0), ..st }),
            },
            Marker::DRI => match spec_dri_segment(data, mp.1) {
                Err(e) => Err(e),
                Ok(ip) => spec_read_headers(data, ip.1, HeaderState { ri: Some(ip.0), ..st }),
            },
            Marker::APP(_) => match spec_skip_segment(data, mp.1) {
                Err(e) => Err(e),
                Ok(p2) => spec_read_headers(data, p2, st),
            },
            Marker::COM => match spec_skip_segment(data, mp.1) {
                Err(e) => Err(e),
                Ok(p2) => spec_read_headers(data, p2, st),
            },
            Marker::SOS => if st.sof is Some {
                Ok((st, mp.1))
            } else {
                Err(DecodeError::MalformedStream)
            },
            Marker::SOF2 => Err(DecodeError::UnsupportedFormat),
            _ => Err(DecodeError::MalformedStream),
        },
    }
}

#[via_fn]
proof fn spec_read_headers_decreases(data: Seq<u8>, pos: int, st: HeaderState) {
    lemma_next_marker_advances(data, pos);
    if let Ok(mp) = spec_next_marker(data, pos) {
        if mp.0 == Marker::DQT && mp.1 + 2 <= data.len() && spec_u16_be(data, mp.1) >= 2 {
            lemma_parse_dqt_advances(data, mp.1 + 2, spec_u16_be(data, mp.1) - 2);
        }
        if mp.0 == Marker::DHT && mp.1 + 2 <= data.len() && spec_u16_be(data, mp.1) >= 2 {
            lemma_parse_dht_advances(data, mp.1 + 2, spec_u16_be(data, mp.1) - 2);
        }
    }
}

/// Every table parsed from the DHT segments carries 16 counts whose
/// canonical codes fit their bit lengths.
pub open spec fn hts_valid(hts: Seq<DhtTableSpec>) -> bool {
    forall|k: int|
        0 <= k < hts.len() ==> crate::huffman::counts_valid((#[trigger] hts[k]).counts)
            && hts[k].counts.len() == 16
}

/// The first DHT table of the given class, if any.
pub open spec fn spec_find_dht(hts: Seq<DhtTableSpec>, class: HuffmanTableClass) -> Option<
    DhtTableSpec,
>
    decreases hts.len(),
{
    if hts.len() == 0 {
        None
    } else if hts[0].class == class {
        Some(hts[0])
    } else {
        spec_find_dht(hts.skip(1), class)
    }
}

/// A found table is one of the tables.
proof fn lemma_find_dht_in(hts: Seq<DhtTableSpec>, class: HuffmanTableClass)
    ensures
        spec_find_dht(hts, class) matches Some(ts) ==> exists|k: int|
            0 <= k < hts.len() && hts[k] == ts,
    decreases hts.len(),
{
    if hts.len() > 0 && hts[0].class != class {
        lemma_find_dht_in(hts.skip(1), class);
        if let Some(ts) = spec_find_dht(hts.skip(1), class) {
            let k = choose|k: int| 0 <= k < hts.skip(1).len() && hts.skip(1)[k] == ts;
            assert(hts[k + 1] == ts);
        }
    }
}

/// Table ids appear in order 0, 1, 2, ... across the DQT segments.
pub open spec fn qts_ordered(qts: Seq<(u8, Seq<i16>)>) -> bool {
    forall|k: int| 0 <= k < qts.len() ==> (#[trigger] qts[k]).0 as int == k
}

/// Finding a table among the parsed `HuffmanTable`s finds the canonical
/// table of the matching DHT entry.
proof fn lemma_find_matches(
    hts_exec: Seq<HuffmanTable>,
    hts_spec: Seq<DhtTableSpec>,
    class: HuffmanTableClass,
)
    requires
        dht_tables_match(hts_exec, hts_spec),
    ensures
        match spec_find_dht(hts_spec, class) {
            None => spec_find_table(hts_exec, class) is None,
            Some(ts) => spec_find_table(hts_exec, class) matches Some(t) && t.wf()
                && tree_matches_canonical(t, ts.counts, ts.symbols),
        },
    decreases hts_exec.len(),
{
    if hts_exec.len() > 0 {
        assert(hts_exec[0].class == hts_spec[0].class);
        if hts_exec[0].class != class {
            assert(dht_tables_match(hts_exec.skip(1), hts_spec.skip(1))) by {
                assert forall|k: int| 0 <= k < hts_exec.skip(1).len() implies hts_exec.skip(1)[k]
                    == hts_exec[k + 1] && hts_spec.skip(1)[k] == hts_spec[k + 1] by {}
            }
            lemma_find_matches(hts_exec.skip(1), hts_spec.skip(1), class);
        }
    }
}

impl Decoder {
    /// Parse the header segments up to the scan header and hand the
    /// gathered tables to an MCU reader positioned at the start of the
    /// entropy-coded data. The stream must begin with SOI; quantization
    /// table ids must arrive in order 0, 1, ...; every Huffman table
    /// class named by the scan header and every quantization table id
    /// named by the frame header must have been defined.
    #[verifier::loop_isolation(false)]
    #[verifier::rlimit(100)]
    pub fn read(self) -> (r: Result<McuReader, DecodeError>)
        requires
            self.wf(),
        ensures
            ({
                let data = self.data@;
                let st0 = HeaderState {
                    qts: Seq::empty(),
                    hts: Seq::empty(),
                    sof: None,
                    ri: None,
                };
                match spec_next_marker(data, self.pos as int) {
                    Err(e) => r == Err::<McuReader, DecodeError>(e),
                    Ok(mp) => if mp.0 != Marker::SOI {
                        r == Err::<McuReader, DecodeError>(DecodeError::MalformedStream)
                    } else {
                        match spec_read_headers(data, mp.1, st0) {
                            Err(e) => r == Err::<McuReader, DecodeError>(e),
                            Ok(stp) => if !qts_ordered(stp.0.qts) {
                                r == Err::<McuReader, DecodeError>(DecodeError::MalformedStream)
                            } else {
                                match spec_parse_sos(data, stp.1) {
                                    Err(e) => r == Err::<McuReader, DecodeError>(e),
                                    Ok(sosp) => {
                                        let st = stp.0;
                                        let sofs = st.sof.unwrap();
                                        let ok = (forall|c: int|
                                            0 <= c < 3 ==> spec_find_dht(
                                                st.hts,
                                                (#[trigger] sosp.0[c]).dc,
                                            ) is Some && spec_find_dht(st.hts, sosp.0[c].ac) is Some)
                                            && (forall|c: int|
                                            0 <= c < 3 ==> (#[trigger] sofs.components[c]).quant_table_id
                                                < st.qts.len());
                                        if !ok {
                                            r == Err::<McuReader, DecodeError>(
                                                DecodeError::MalformedStream,
                                            )
                                        } else {
                                            r matches Ok(rd) && {
                                                &&& rd.wf()
                                                &&& rd.i == 0
                                                &&& rd.last_dc@ =~= seq![0i16, 0i16, 0i16]
                                                &&& sof_matches(rd.sof, sofs)
                                                &&& rd.sof.wf()
                                                &&& dqt_tables_match(rd.qts@, st.qts)
                                                &&& rd.reset_interval == st.ri
                                                &&& rd.reader.data@ == data
                                                &&& rd.reader.pos == sosp.1
                                                &&& rd.reader.buf == 0
                                                &&& rd.reader.count == 0
                                                &&& rd.reader.pending == false
                                                &&& forall|c: int|
                                                    0 <= c < 3 ==> ((spec_find_dht(
                                                        st.hts,
                                                        (#[trigger] sosp.0[c]).dc,
                                                    ) matches Some(ts)
                                                        ==> tree_matches_canonical(
                                                        rd.huffman_tables@[c].0,
                                                        ts.counts,
                                                        ts.symbols,
                                                    )) && (spec_find_dht(st.hts, sosp.0[c].ac) matches Some(
                                                        ts,
                                                    ) ==> tree_matches_canonical(
                                                        rd.huffman_tables@[c].1,
                                                        ts.counts,
                                                        ts.symbols,
                                                    )))
                                            }
                                        }
                                    },
                                }
                            },
                        }
                    },
                }
            }),
    {
        let mut dec = self;
        let ghost data0 = dec.data@;
        let m0 = match dec.next_marker() {
            Ok(m) => m,
            Err(e) => {
                return Err(e);
            },
        };
        if m0 != Marker::SOI {
            return Err(DecodeError::MalformedStream);
        }
        let ghost p0: int = dec.pos as int;
        let ghost st0 = HeaderState { qts: Seq::empty(), hts: Seq::empty(), sof: None, ri: None };
        let mut quantization_tables: Vec<QuantizationTable> = Vec::new();
        let mut huffman_tables: Vec<HuffmanTable> = Vec::new();
        let mut sof: Option<StartOfFrameInfo> = None;
        let mut restart_interval: Option<u16> = None;
        let ghost mut st = st0;
        let mut done: bool = false;
        while !done
            invariant
                dec.wf(),
                dec.data@ == data0,
                dqt_tables_match(quantization_tables@, st.qts),
                dht_tables_match(huffman_tables@, st.hts),
                hts_valid(st.hts),
                match sof {
                    Some(s) => st.sof matches Some(ss) && sof_matches(s, ss) && s.wf(),
                    None => st.sof is None,
                },
                restart_interval == st.ri,
                !done ==> spec_read_headers(data0, dec.pos as int, st) == spec_read_headers(
                    data0,
                    p0,
                    st0,
                ),
                done ==> sof is Some && spec_read_headers(data0, p0, st0) == Ok::<
                    (HeaderState, int),
                    DecodeError,
                >((st, dec.pos as int)),
            decreases data0.len() - dec.pos, (if done { 0int } else { 1int }),
        {
            let ghost hpos: int = dec.pos as int;
            proof {
                lemma_next_marker_advances(data0, hpos);
            }
            let m = match dec.next_marker() {
                Ok(m) => m,
                Err(e) => {
                    return Err(e);
                },
            };
            match m {
                Marker::DQT => {
                    let ghost qpos: int = dec.pos as int;
                    let ts = match dec.read_quantization_table() {
                        Ok(ts) => ts,
                        Err(e) => {
                            return Err(e);
                        },
                    };
                    let ghost tsp = spec_dqt_segment(data0, qpos).unwrap();
                    proof {
                        lemma_parse_dqt_advances(data0, qpos + 2, spec_u16_be(data0, qpos) - 2);
                    }
                    let mut k: usize = 0;
                    while k < ts.len()
                        invariant
                            k <= ts@.len(),
                            dqt_tables_match(ts@, tsp.0),
                            dqt_tables_match(
                                quantization_tables@,
                                st.qts + tsp.0.take(k as int),
                            ),
                        decreases ts@.len() - k,
                    {
                        quantization_tables.push(ts[k]);
                        proof {
                            assert(tsp.0.take(k + 1) =~= tsp.0.take(k as int).push(tsp.0[k as int]));
                            assert(st.qts + tsp.0.take(k + 1) =~= (st.qts + tsp.0.take(k as int)).push(
                                tsp.0[k as int],
                            ));
                        }
                        k = k + 1;
                    }
                    proof {
                        assert(tsp.0.take(tsp.0.len() as int) =~= tsp.0);
                        st = HeaderState { qts: st.qts + tsp.0, ..st };
                    }
                },
                Marker::DHT => {
                    let ghost qpos: int = dec.pos as int;
                    proof {
                        if qpos + 2 <= data0.len() && spec_u16_be(data0, qpos) >= 2 {
                            crate::huffman::lemma_dht_symbol_count(
                                data0,
                                qpos + 2,
                                spec_u16_be(data0, qpos) - 2,
                            );
                        }
                    }
                    let mut ts = match dec.read_huffman_table() {
                        Ok(ts) => ts,
                        Err(e) => {
                            return Err(e);
                        },
                    };
                    let ghost tsp = spec_dht_segment(data0, qpos).unwrap();
                    proof {
                        lemma_parse_dht_advances(data0, qpos + 2, spec_u16_be(data0, qpos) - 2);
                    }
                    let mut k: usize = 0;
                    let n0 = ts.len();
                    while ts.len() > 0
                        invariant
                            k + ts@.len() == n0,
                            dht_tables_match(ts@, tsp.0.skip(k as int)),
                            dht_tables_match(huffman_tables@, st.hts + tsp.0.take(k as int)),
                        decreases ts@.len(),
                    {
                        let t = ts.remove(0);
                        proof {
                            assert(tsp.0.take(k + 1) =~= tsp.0.take(k as int).push(
                                tsp.0.skip(k as int)[0],
                            ));
                            assert(st.hts + tsp.0.take(k + 1) =~= (st.hts + tsp.0.take(
                                k as int,
                            )).push(tsp.0.skip(k as int)[0]));
                        }
                        huffman_tables.push(t);
                        proof {
                            assert(tsp.0.skip(k + 1) =~= tsp.0.skip(k as int).skip(1));
                            assert forall|j: int|
                                0 <= j < tsp.0.skip(k as int).skip(1).len() implies tsp.0.skip(
                                k as int,
                            ).skip(1)[j] == tsp.0.skip(k as int)[j + 1] by {}
                        }
                        k = k + 1;
                    }
                    proof {
                        assert(tsp.0.take(n0 as int) =~= tsp.0);
                        st = HeaderState { hts: st.hts + tsp.0, ..st };
                    }
                },
                Marker::SOF0 => {
                    let ghost qpos: int = dec.pos as int;
                    let s = match dec.read_start_of_frame_0() {
                        Ok(s) => s,
                        Err(e) => {
                            return Err(e);
                        },
                    };
                    sof = Some(s);
                    proof {
                        lemma_parse_sof_advances(data0, qpos);
                        st = HeaderState { sof: Some(spec_parse_sof(data0, qpos).unwrap().0), ..st
                        };
                    }
                },
                Marker::DRI => {
                    let ghost qpos: int = dec.pos as int;
                    let iv = match dec.read_restart_interval() {
                        Ok(iv) => iv,
                        Err(e) => {
                            return Err(e);
                        },
                    };
                    restart_interval = Some(iv);
                    proof {
                        st = HeaderState { ri: Some(iv), ..st };
                    }
                },
                Marker::APP(_) => {
                    match dec.skip_app() {
                        Ok(_) => (),
                        Err(e) => {
                            return Err(e);
                        },
                    }
                },
                Marker::COM => {
                    match dec.skip_app() {
                        Ok(_) => (),
                        Err(e) => {
                            return Err(e);
                        },
                    }
                },
                Marker::SOS => {
                    if sof.is_none() {
                        return Err(DecodeError::MalformedStream);
                    }
                    done = true;
                },
                Marker::SOF2 => {
                    return Err(DecodeError::UnsupportedFormat);
                },
                _ => {
                    return Err(DecodeError::MalformedStream);
                },
            }
        }
        let mut k: usize = 0;
        while k < quantization_tables.len()
            invariant
                k <= quantization_tables@.len(),
                dqt_tables_match(quantization_tables@, st.qts),
                forall|t: int| 0 <= t < k ==> (#[trigger] st.qts[t]).0 as int == t,
            decreases quantization_tables@.len() - k,
        {
            if quantization_tables[k].id as usize != k {
                return Err(DecodeError::MalformedStream);
            }
            k = k + 1;
        }
        let sos = match dec.read_start_of_scan() {
            Ok(s) => s,
            Err(e) => {
                return Err(e);
            },
        };
        let sof_info = match sof {
            Some(s) => s,
            None => {
                return Err(DecodeError::MalformedStream);
            },
        };
        proof {
            assert forall|c: int| 0 <= c < 3 implies {
                &&& (spec_find_dht(st.hts, (#[trigger] sos.table_mapping@[c]).dc) matches Some(ts)
                    ==> spec_find_table(huffman_tables@, sos.table_mapping@[c].dc) matches Some(t)
                    && t.wf() && tree_matches_canonical(t, ts.counts, ts.symbols)
                    && crate::huffman::counts_valid(ts.counts) && ts.counts.len() == 16)
                &&& (spec_find_dht(st.hts, sos.table_mapping@[c].dc) is None ==> spec_find_table(
                    huffman_tables@,
                    sos.table_mapping@[c].dc,
                ) is None)
                &&& (spec_find_dht(st.hts, sos.table_mapping@[c].ac) matches Some(ts)
                    ==> spec_find_table(huffman_tables@, sos.table_mapping@[c].ac) matches Some(t)
                    && t.wf() && tree_matches_canonical(t, ts.counts, ts.symbols)
                    && crate::huffman::counts_valid(ts.counts) && ts.counts.len() == 16)
                &&& (spec_find_dht(st.hts, sos.table_mapping@[c].ac) is None ==> spec_find_table(
                    huffman_tables@,
                    sos.table_mapping@[c].ac,
                ) is None)
            } by {
                lemma_find_matches(huffman_tables@, st.hts, sos.table_mapping@[c].dc);
                lemma_find_matches(huffman_tables@, st.hts, sos.table_mapping@[c].ac);
                lemma_find_dht_in(st.hts, sos.table_mapping@[c].dc);
                lemma_find_dht_in(st.hts, sos.table_mapping@[c].ac);
            }
        }
        let result = McuReader::new(
            dec.data,
            dec.pos,
            sof_info,
            sos,
            quantization_tables,
            huffman_tables,
            restart_interval,
        );
        let ghost res_g = result;
        proof {
            if let Ok(rd) = res_g {
                assert forall|c: int| 0 <= c < 3 implies {
                    &&& (spec_find_dht(st.hts, (#[trigger] sos.table_mapping@[c]).dc)
                        matches Some(ts) ==> tree_matches_canonical(
                        rd.huffman_tables@[c].0,
                        ts.counts,
                        ts.symbols,
                    ))
                    &&& (spec_find_dht(st.hts, sos.table_mapping@[c].ac) matches Some(ts)
                        ==> tree_matches_canonical(rd.huffman_tables@[c].1, ts.counts, ts.symbols))
                } by {
                    if let Some(ts) = spec_find_dht(st.hts, sos.table_mapping@[c].dc) {
                        let t = spec_find_table(huffman_tables@, sos.table_mapping@[c].dc).unwrap();
                        crate::huffman::lemma_entries_eq_canonical(
                            rd.huffman_tables@[c].0,
                            t,
                            ts.counts,
                            ts.symbols,
                        );
                    }
                    if let Some(ts) = spec_find_dht(st.hts, sos.table_mapping@[c].ac) {
                        let t = spec_find_table(huffman_tables@, sos.table_mapping@[c].ac).unwrap();
                        crate::huffman::lemma_entries_eq_canonical(
                            rd.huffman_tables@[c].1,
                            t,
                            ts.counts,
                            ts.symbols,
                        );
                    }
                }
            }
        }
        result
    }
}

} // verus!
