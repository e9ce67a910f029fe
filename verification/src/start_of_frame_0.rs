//! SOF0 (baseline frame header) parsing: image dimensions, sample
//! precision, and per-component sampling factors and quantization table
//! ids. Only 8-bit precision, exactly three components, and 4:4:4 or
//! 4:2:0 chroma subsampling are accepted.
use vstd::prelude::*;

use crate::spec_u16_be;
use crate::DecodeError;
use crate::Decoder;

verus! {

/// A baseline frame header.
#[derive(Debug, Clone, PartialEq, Eq)]
pub struct StartOfFrameInfo {
    pub precision: u8,
    pub height: u16,
    pub width: u16,
    pub component_infos: [ComponentInfo; 3],  // [Y, Cb, Cr]
    pub max_horizontal_sampling: u8,
    pub max_vertical_sampling: u8,
}

/// Sampling factors and quantization table id of one component.
#[derive(Debug, Clone, Copy, PartialEq, Eq, Structural)]
pub struct ComponentInfo {
    pub horizontal_sampling: u8,
    pub vertical_sampling: u8,
    pub quant_table_id: u8,
}

/// The three JPEG component ids.
#[derive(Debug, Clone, Copy, PartialEq, Eq, Structural)]
pub enum Component {
    Y,
    Cb,
    Cr,
}

/// The component identified by byte `b` (1 = Y, 2 = Cb, 3 = Cr).
pub open spec fn spec_component_of(b: u8) -> Option<Component> {
    if b == 1 {
        Some(Component::Y)
    } else if b == 2 {
        Some(Component::Cb)
    } else if b == 3 {
        Some(Component::Cr)
    } else {
        None
    }
}

impl Component {
    /// The component identified by byte `value`, or `None`.
    pub fn try_from(value: u8) -> (r: Option<Component>)
        ensures
            r == spec_component_of(value),
    {
        if value == 1 {
            Some(Component::Y)
        } else if value == 2 {
            Some(Component::Cb)
        } else if value == 3 {
            Some(Component::Cr)
        } else {
            None
        }
    }
}

impl StartOfFrameInfo {
    /// A validated baseline frame: 8-bit precision, non-empty dimensions,
    /// luma sampling 1x1 (4:4:4) or 2x2 (4:2:0), chroma sampling 1x1, and
    /// the maxima taken from the luma component.
    pub open spec fn wf(self) -> bool {
        &&& self.precision == 8
        &&& self.width >= 1
        &&& self.height >= 1
        &&& (self.component_infos@[0].horizontal_sampling == 1
            && self.component_infos@[0].vertical_sampling == 1) || (
        self.component_infos@[0].horizontal_sampling == 2
            && self.component_infos@[0].vertical_sampling == 2)
        &&& self.component_infos@[1].horizontal_sampling == 1
        &&& self.component_infos@[1].vertical_sampling == 1
        &&& self.component_infos@[2].horizontal_sampling == 1
        &&& self.component_infos@[2].vertical_sampling == 1
        &&& self.max_horizontal_sampling == self.component_infos@[0].horizontal_sampling
        &&& self.max_vertical_sampling == self.component_infos@[0].vertical_sampling
    }

    /// Width in pixels of one MCU cell.
    pub open spec fn spec_mcu_width(self) -> int {
        8 * self.max_horizontal_sampling
    }

    /// Height in pixels of one MCU cell.
    pub open spec fn spec_mcu_height(self) -> int {
        8 * self.max_vertical_sampling
    }

    /// Number of MCU columns: the image width divided by the MCU width,
    /// rounded up.
    pub open spec fn spec_mcu_width_num(self) -> int {
        (self.width - 1) / (8 * self.max_horizontal_sampling) + 1
    }

    /// Number of MCU rows: the image height divided by the MCU height,
    /// rounded up.
    pub open spec fn spec_mcu_height_num(self) -> int {
        (self.height - 1) / (8 * self.max_vertical_sampling) + 1
    }

    pub fn mcu_width(&self) -> (r: u16)
        ensures
            r == self.spec_mcu_width(),
    {
        8 * self.max_horizontal_sampling as u16
    }

    pub fn mcu_height(&self) -> (r: u16)
        ensures
            r == self.spec_mcu_height(),
    {
        8 * self.max_vertical_sampling as u16
    }

    pub fn mcu_width_num(&self) -> (r: u16)
        requires
            self.wf(),
        ensures
            r == self.spec_mcu_width_num(),
    {
        (self.width - 1) / self.mcu_width() + 1
    }

    pub fn mcu_height_num(&self) -> (r: u16)
        requires
            self.wf(),
        ensures
            r == self.spec_mcu_height_num(),
    {
        (self.height - 1) / self.mcu_height() + 1
    }
}

/// A frame header at specification level: the parsed fields with the
/// components as a sequence.
pub ghost struct SofSpec {
    pub precision: u8,
    pub height: u16,
    pub width: u16,
    pub components: Seq<ComponentInfo>,
    pub max_h: u8,
    pub max_v: u8,
}

/// Whether the parsed header `r` carries exactly the fields of `s`.
pub open spec fn sof_matches(r: StartOfFrameInfo, s: SofSpec) -> bool {
    &&& r.precision == s.precision
    &&& r.height == s.height
    &&& r.width == s.width
    &&& r.component_infos@ =~= s.components
    &&& r.max_horizontal_sampling == s.max_h
    &&& r.max_vertical_sampling == s.max_v
}

/// One component entry: its slot (id - 1) and fields, and the position
/// after it. An id other than 1..3 is a malformed stream.
pub open spec fn spec_sof_component(data: Seq<u8>, pos: int) -> Result<
    (int, ComponentInfo, int),
    DecodeError,
> {
    if pos < 0 || pos >= data.len() {
        Err(DecodeError::Truncated)
    } else if !(1 <= data[pos] <= 3) {
        Err(DecodeError::MalformedStream)
    } else if pos + 3 > data.len() {
        Err(DecodeError::Truncated)
    } else {
        Ok(
            (
                data[pos] - 1,
                ComponentInfo {
                    horizontal_sampling: data[pos + 1] >> 4,
                    vertical_sampling: data[pos + 1] & 0x0F,
                    quant_table_id: data[pos + 2],
                },
                pos + 3,
            ),
        )
    }
}

/// Parsing a SOF0 segment at `pos`: 16-bit length (read, not checked),
/// precision (must be 8), height, width, component count (must be 3),
/// then three components placed in the slot their id names. Sampling
/// factors outside 4:4:4 or 4:2:0, a precision other than 8 or a
/// component count other than 3 are an unsupported format; a zero
/// dimension is a malformed stream.
pub open spec fn spec_parse_sof(data: Seq<u8>, pos: int) -> Result<(SofSpec, int), DecodeError> {
    if pos < 0 || pos + 8 > data.len() {
        Err(DecodeError::Truncated)
    } else {
        let precision = data[pos + 2];
        let height = spec_u16_be(data, pos + 3);
        let width = spec_u16_be(data, pos + 5);
        let ncomp = data[pos + 7];
        if precision != 8 {
            Err(DecodeError::UnsupportedFormat)
        } else if ncomp != 3 {
            Err(DecodeError::UnsupportedFormat)
        } else {
            let blank = ComponentInfo {
                horizontal_sampling: 0,
                vertical_sampling: 0,
                quant_table_id: 0,
            };
            let s0 = seq![blank, blank, blank];
            match spec_sof_component(data, pos + 8) {
                Err(e) => Err(e),
                Ok((i1, c1, p1)) => {
                    let s1 = s0.update(i1, c1);
                    match spec_sof_component(data, p1) {
                        Err(e) => Err(e),
                        Ok((i2, c2, p2)) => {
                            let s2 = s1.update(i2, c2);
                            match spec_sof_component(data, p2) {
                                Err(e) => Err(e),
                                Ok((i3, c3, p3)) => {
                                    let s = s2.update(i3, c3);
                                    if !((s[0].horizontal_sampling == 1 && s[0].vertical_sampling
                                        == 1) || (s[0].horizontal_sampling == 2
                                        && s[0].vertical_sampling == 2)) {
                                        Err(DecodeError::UnsupportedFormat)
                                    } else if !(s[1].horizontal_sampling == 1
                                        && s[1].vertical_sampling == 1 && s[2].horizontal_sampling
                                        == 1 && s[2].vertical_sampling == 1) {
                                        Err(DecodeError::UnsupportedFormat)
                                    } else if width == 0 || height == 0 {
                                        Err(DecodeError::MalformedStream)
                                    } else {
                                        Ok(
                                            (
                                                SofSpec {
                                                    precision,
                                                    height,
                                                    width,
                                                    components: s,
                                                    max_h: s[0].horizontal_sampling,
                                                    max_v: s[0].vertical_sampling,
                                                },
                                                p3,
                                            ),
                                        )
                                    }
                                },
                            }
                        },
                    }
                },
            }
        }
    }
}

impl Decoder {
    /// Read one SOF0 component entry into its slot.
    fn read_sof_component(&mut self) -> (r: Result<(usize, ComponentInfo), DecodeError>)
        requires
            old(self).wf(),
        ensures
            final(self).wf(),
            final(self).data@ == old(self).data@,
            match spec_sof_component(old(self).data@, old(self).pos as int) {
                Ok(icp) => r matches Ok(ic) && ic.0 == icp.0 && ic.1 == icp.1 && final(self).pos
                    == icp.2 && ic.0 < 3,
                Err(e) => r == Err::<(usize, ComponentInfo), DecodeError>(e),
            },
    {
        let id = match self.read_byte() {
            Ok(b) => b,
            Err(e) => {
                return Err(e);
            },
        };
        if id < 1 || id > 3 {
            return Err(DecodeError::MalformedStream);
        }
        if self.data.len() - self.pos < 2 {
            return Err(DecodeError::Truncated);
        }
        let sampling = self.data[self.pos];
        let quant_table_id = self.data[self.pos + 1];
        self.pos = self.pos + 2;
        Ok(
            (
                (id - 1) as usize,
                ComponentInfo {
                    horizontal_sampling: sampling >> 4,
                    vertical_sampling: sampling & 0x0F,
                    quant_table_id,
                },
            ),
        )
    }

    /// Read the Start Of Frame 0 (baseline) header.
    pub fn read_start_of_frame_0(&mut self) -> (r: Result<StartOfFrameInfo, DecodeError>)
        requires
            old(self).wf(),
        ensures
            final(self).wf(),
            final(self).data@ == old(self).data@,
            match spec_parse_sof(old(self).data@, old(self).pos as int) {
                Ok(sp) => r matches Ok(info) && sof_matches(info, sp.0) && info.wf()
                    && final(self).pos == sp.1,
                Err(e) => r == Err::<StartOfFrameInfo, DecodeError>(e),
            },
    {
        if self.data.len() - self.pos < 8 {
            return Err(DecodeError::Truncated);
        }
        let precision = self.data[self.pos + 2];
        let height = {
            let hi = self.data[self.pos + 3];
            let lo = self.data[self.pos + 4];
            (hi as u16) * 256 + (lo as u16)
        };
        let width = {
            let hi = self.data[self.pos + 5];
            let lo = self.data[self.pos + 6];
            (hi as u16) * 256 + (lo as u16)
        };
        let ncomp = self.data[self.pos + 7];
        self.pos = self.pos + 8;
        if precision != 8 {
            return Err(DecodeError::UnsupportedFormat);
        }
        if ncomp != 3 {
            return Err(DecodeError::UnsupportedFormat);
        }
        let blank = ComponentInfo { horizontal_sampling: 0, vertical_sampling: 0, quant_table_id: 0
        };
        let mut component_infos: [ComponentInfo; 3] = [blank, blank, blank];
        let (i1, c1) = match self.read_sof_component() {
            Ok(ic) => ic,
            Err(e) => {
                return Err(e);
            },
        };
        component_infos[i1] = c1;
        let (i2, c2) = match self.read_sof_component() {
            Ok(ic) => ic,
            Err(e) => {
                return Err(e);
            },
        };
        component_infos[i2] = c2;
        let (i3, c3) = match self.read_sof_component() {
            Ok(ic) => ic,
            Err(e) => {
                return Err(e);
            },
        };
        component_infos[i3] = c3;
        let c0 = component_infos[0];
        if !((c0.horizontal_sampling == 1 && c0.vertical_sampling == 1) || (c0.horizontal_sampling
            == 2 && c0.vertical_sampling == 2)) {
            return Err(DecodeError::UnsupportedFormat);
        }
        let cb = component_infos[1];
        let cr = component_infos[2];
        if !(cb.horizontal_sampling == 1 && cb.vertical_sampling == 1 && cr.horizontal_sampling
            == 1 && cr.vertical_sampling == 1) {
            return Err(DecodeError::UnsupportedFormat);
        }
        if width == 0 || height == 0 {
            return Err(DecodeError::MalformedStream);
        }
        Ok(
            StartOfFrameInfo {
                precision,
                height,
                width,
                component_infos,
                max_horizontal_sampling: c0.horizontal_sampling,
                max_vertical_sampling: c0.vertical_sampling,
            },
        )
    }
}

} // verus!
