//! SOS (start of scan) parsing: which DC and AC Huffman table each
//! component uses, plus the three baseline spectral-selection bytes.
use vstd::prelude::*;

use crate::huffman::HuffmanTableClass;
use crate::DecodeError;
use crate::Decoder;

verus! {

/// The scan header: the Huffman table pair of each component.
#[derive(Debug, Clone, Copy, PartialEq, Eq)]
pub struct StartOfScanInfo {
    pub table_mapping: [HuffmanTableId; 3],  // [Y, Cb, Cr]
}

/// The DC and AC table classes one component uses.
#[derive(Debug, Clone, Copy, PartialEq, Eq, Structural)]
pub struct HuffmanTableId {
    pub dc: HuffmanTableClass,
    pub ac: HuffmanTableClass,
}

/// One SOS component entry: its slot (id - 1) and table pair, and the
/// position after it. An id outside 1..3 or a table selector other than
/// 0 or 1 is a malformed stream.
pub open spec fn spec_sos_component(data: Seq<u8>, pos: int) -> Result<
    (int, HuffmanTableId, int),
    DecodeError,
> {
    if pos < 0 || pos + 2 > data.len() {
        Err(DecodeError::Truncated)
    } else if !(1 <= data[pos] <= 3) {
        Err(DecodeError::MalformedStream)
    } else {
        let dc = data[pos + 1] >> 4;
        let ac = data[pos + 1] & 0x0F;
        if dc > 1 {
            Err(DecodeError::MalformedStream)
        } else if ac > 1 {
            Err(DecodeError::MalformedStream)
        } else {
            Ok(
                (
                    data[pos] - 1,
                    HuffmanTableId {
                        dc: if dc == 0 {
                            HuffmanTableClass::DC0
                        } else {
                            HuffmanTableClass::DC1
                        },
                        ac: if ac == 0 {
                            HuffmanTableClass::AC0
                        } else {
                            HuffmanTableClass::AC1
                        },
                    },
                    pos + 2,
                ),
            )
        }
    }
}

/// Parsing a SOS header at `pos`: 16-bit length (read, not checked), a
/// component count that must be 3, three component entries, then the
/// baseline spectral-selection bytes 0x00 0x3F 0x00. A wrong component
/// count is an unsupported format; wrong trailing bytes are a malformed
/// stream. The mapping is returned as [Y, Cb, Cr].
pub open spec fn spec_parse_sos(data: Seq<u8>, pos: int) -> Result<
    (Seq<HuffmanTableId>, int),
    DecodeError,
> {
    if pos < 0 || pos + 3 > data.len() {
        Err(DecodeError::Truncated)
    } else if data[pos + 2] != 3 {
        Err(DecodeError::UnsupportedFormat)
    } else {
        let blank = HuffmanTableId { dc: HuffmanTableClass::DC0, ac: HuffmanTableClass::AC0 };
        let s0 = seq![blank, blank, blank];
        match spec_sos_component(data, pos + 3) {
            Err(e) => Err(e),
            Ok((i1, t1, p1)) => {
                let s1 = s0.update(i1, t1);
                match spec_sos_component(data, p1) {
                    Err(e) => Err(e),
                    Ok((i2, t2, p2)) => {
                        let s2 = s1.update(i2, t2);
                        match spec_sos_component(data, p2) {
                            Err(e) => Err(e),
                            Ok((i3, t3, p3)) => {
                                let s = s2.update(i3, t3);
                                if p3 + 3 > data.len() {
                                    Err(DecodeError::Truncated)
                                } else if data[p3] != 0x00 || data[p3 + 1] != 0x3F || data[p3 + 2]
                                    != 0x00 {
                                    Err(DecodeError::MalformedStream)
                                } else {
                                    Ok((s, p3 + 3))
                                }
                            },
                        }
                    },
                }
            },
        }
    }
}

impl Decoder {
    /// Read one SOS component entry.
    fn read_sos_component(&mut self) -> (r: Result<(usize, HuffmanTableId), DecodeError>)
        requires
            old(self).wf(),
        ensures
            final(self).wf(),
            final(self).data@ == old(self).data@,
            match spec_sos_component(old(self).data@, old(self).pos as int) {
                Ok(itp) => r matches Ok(it) && it.0 == itp.0 && it.1 == itp.1 && final(self).pos
                    == itp.2 && it.0 < 3,
                Err(e) => r == Err::<(usize, HuffmanTableId), DecodeError>(e),
            },
    {
        if self.data.len() - self.pos < 2 {
            return Err(DecodeError::Truncated);
        }
        let id = self.data[self.pos];
        if id < 1 || id > 3 {
            return Err(DecodeError::MalformedStream);
        }
        let sel = self.data[self.pos + 1];
        let dc = sel >> 4;
        let ac = sel & 0x0F;
        if dc > 1 {
            return Err(DecodeError::MalformedStream);
        }
        if ac > 1 {
            return Err(DecodeError::MalformedStream);
        }
        self.pos = self.pos + 2;
        Ok(
            (
                (id - 1) as usize,
                HuffmanTableId {
                    dc: if dc == 0 {
                        HuffmanTableClass::DC0
                    } else {
                        HuffmanTableClass::DC1
                    },
                    ac: if ac == 0 {
                        HuffmanTableClass::AC0
                    } else {
                        HuffmanTableClass::AC1
                    },
                },
            ),
        )
    }

    /// Read the scan header.
    pub fn read_start_of_scan(&mut self) -> (r: Result<StartOfScanInfo, DecodeError>)
        requires
            old(self).wf(),
        ensures
            final(self).wf(),
            final(self).data@ == old(self).data@,
            match spec_parse_sos(old(self).data@, old(self).pos as int) {
                Ok(sp) => r matches Ok(info) && info.table_mapping@ =~= sp.0
                    && final(self).pos == sp.1,
                Err(e) => r == Err::<StartOfScanInfo, DecodeError>(e),
            },
    {
        if self.data.len() - self.pos < 3 {
            return Err(DecodeError::Truncated);
        }
        let ncomp = self.data[self.pos + 2];
        if ncomp != 3 {
            return Err(DecodeError::UnsupportedFormat);
        }
        self.pos = self.pos + 3;
        let blank = HuffmanTableId { dc: HuffmanTableClass::DC0, ac: HuffmanTableClass::AC0 };
        let mut table_mapping: [HuffmanTableId; 3] = [blank, blank, blank];
        let (i1, t1) = match self.read_sos_component() {
            Ok(it) => it,
            Err(e) => {
                return Err(e);
            },
        };
        table_mapping[i1] = t1;
        let (i2, t2) = match self.read_sos_component() {
            Ok(it) => it,
            Err(e) => {
                return Err(e);
            },
        };
        table_mapping[i2] = t2;
        let (i3, t3) = match self.read_sos_component() {
            Ok(it) => it,
            Err(e) => {
                return Err(e);
            },
        };
        table_mapping[i3] = t3;
        if self.data.len() - self.pos < 3 {
            return Err(DecodeError::Truncated);
        }
        let b0 = self.data[self.pos];
        let b1 = self.data[self.pos + 1];
        let b2 = self.data[self.pos + 2];
        if b0 != 0x00 || b1 != 0x3F || b2 != 0x00 {
            return Err(DecodeError::MalformedStream);
        }
        self.pos = self.pos + 3;
        Ok(StartOfScanInfo { table_mapping })
    }
}

} // verus!
