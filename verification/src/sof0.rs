//! Plain SOF0 field extraction: dimensions, precision and component
//! entries, without the validation that `start_of_frame_0` performs.
use vstd::prelude::*;

use crate::spec_u16_be;
use crate::DecodeError;
use crate::Decoder;

verus! {

/// The raw fields of a SOF0 segment.
#[derive(Debug, Clone, PartialEq, Eq)]
pub struct SofInfo {
    pub precision: u8,
    pub height: u16,
    pub width: u16,
    pub component_infos: [ComponentInfo; 3],  // [Y, Cb, Cr]
}

/// Sampling factors and quantization table id of one component.
#[derive(Debug, Clone, Copy, PartialEq, Eq, Structural)]
pub struct ComponentInfo {
    pub horizontal_sampling: u8,
    pub vertical_sampling: u8,
    pub quant_table_id: u8,
}

/// Component entries of a SOF0 segment: `n` entries starting at `pos`,
/// each placed in the slot its id (1..3) names. Ids outside 1..3 are a
/// malformed stream.
pub open spec fn spec_sof0_components(
    data: Seq<u8>,
    pos: int,
    n: int,
    slots: Seq<ComponentInfo>,
) -> Result<(Seq<ComponentInfo>, int), DecodeError>
    decreases n,
{
    if n <= 0 {
        Ok((slots, pos))
    } else if pos < 0 || pos >= data.len() {
        Err(DecodeError::Truncated)
    } else if !(1 <= data[pos] <= 3) {
        Err(DecodeError::MalformedStream)
    } else if pos + 3 > data.len() {
        Err(DecodeError::Truncated)
    } else {
        spec_sof0_components(
            data,
            pos + 3,
            n - 1,
            slots.update(
                data[pos] - 1,
                ComponentInfo {
                    horizontal_sampling: data[pos + 1] >> 4,
                    vertical_sampling: data[pos + 1] & 0x0F,
                    quant_table_id: data[pos + 2],
                },
            ),
        )
    }
}

/// A SOF0 segment at specification level.
pub ghost struct Sof0Spec {
    pub precision: u8,
    pub height: u16,
    pub width: u16,
    pub components: Seq<ComponentInfo>,
}

/// Parsing a SOF0 segment at `pos` without validation: 16-bit length
/// (read, not checked), precision, height, width, component count, then
/// that many component entries.
pub open spec fn spec_parse_sof0(data: Seq<u8>, pos: int) -> Result<(Sof0Spec, int), DecodeError> {
    if pos < 0 || pos + 8 > data.len() {
        Err(DecodeError::Truncated)
    } else {
        let blank = ComponentInfo { horizontal_sampling: 0, vertical_sampling: 0, quant_table_id: 0
        };
        match spec_sof0_components(data, pos + 8, data[pos + 7] as int, seq![blank, blank, blank]) {
            Err(e) => Err(e),
            Ok((s, p)) => Ok(
                (
                    Sof0Spec {
                        precision: data[pos + 2],
                        height: spec_u16_be(data, pos + 3),
                        width: spec_u16_be(data, pos + 5),
                        components: s,
                    },
                    p,
                ),
            ),
        }
    }
}

impl Decoder {
    /// Read the raw fields of a SOF0 segment.
    #[verifier::loop_isolation(false)]
    pub fn read_sof0(&mut self) -> (r: Result<SofInfo, DecodeError>)
        requires
            old(self).wf(),
        ensures
            final(self).wf(),
            final(self).data@ == old(self).data@,
            match spec_parse_sof0(old(self).data@, old(self).pos as int) {
                Ok(sp) => r matches Ok(info) && info.precision == sp.0.precision && info.height
                    == sp.0.height && info.width == sp.0.width && info.component_infos@
                    =~= sp.0.components && final(self).pos == sp.1,
                Err(e) => r == Err::<SofInfo, DecodeError>(e),
            },
    {
        if self.data.len() - self.pos < 8 {
            return Err(DecodeError::Truncated);
        }
        let precision = self.data[self.pos + 2];
        let height = {
            let hi = self.data[self.pos + 3];
            let lo = self.data[self.pos + 4];
            (hi as u16) * 256 + (lo as u16)
        };
        let width = {
            let hi = self.data[self.pos + 5];
            let lo = self.data[self.pos + 6];
            (hi as u16) * 256 + (lo as u16)
        };
        let ncomp = self.data[self.pos + 7];
        self.pos = self.pos + 8;
        let blank = ComponentInfo { horizontal_sampling: 0, vertical_sampling: 0, quant_table_id: 0
        };
        let mut component_infos: [ComponentInfo; 3] = [blank, blank, blank];
        let mut k: u8 = 0;
        while k < ncomp
            invariant
                self.wf(),
                self.data@ == old(self).data@,
                k <= ncomp,
                spec_sof0_components(
                    self.data@,
                    self.pos as int,
                    (ncomp - k) as int,
                    component_infos@,
                ) == spec_sof0_components(
                    old(self).data@,
                    old(self).pos + 8,
                    ncomp as int,
                    seq![blank, blank, blank],
                ),
            decreases ncomp - k,
        {
            if self.pos >= self.data.len() {
                return Err(DecodeError::Truncated);
            }
            let id = self.data[self.pos];
            if id < 1 || id > 3 {
                return Err(DecodeError::MalformedStream);
            }
            if self.data.len() - self.pos < 3 {
                return Err(DecodeError::Truncated);
            }
            let sampling = self.data[self.pos + 1];
            let quant_table_id = self.data[self.pos + 2];
            let ghost before = component_infos@;
            component_infos[(id - 1) as usize] = ComponentInfo {
                horizontal_sampling: sampling >> 4,
                vertical_sampling: sampling & 0x0F,
                quant_table_id,
            };
            proof {
                assert(component_infos@ =~= before.update(
                    id - 1,
                    ComponentInfo {
                        horizontal_sampling: sampling >> 4,
                        vertical_sampling: sampling & 0x0F,
                        quant_table_id,
                    },
                ));
            }
            self.pos = self.pos + 3;
            k = k + 1;
        }
        Ok(SofInfo { precision, height, width, component_infos })
    }
}

} // verus!
