//! JPEG marker scanning: a marker is the byte 0xFF followed by a non-zero
//! identifying byte. Stuffed zero bytes (0xFF 0x00) and runs of padding
//! 0xFF bytes are skipped.
use vstd::prelude::*;

use crate::DecodeError;
use crate::Decoder;

verus! {

/// JPEG markers.
#[derive(Debug, Clone, Copy, PartialEq, Eq, Structural)]
pub enum Marker {
    /// Start Of Image
    SOI,
    /// Start Of Frame (Baseline DCT)
    SOF0,
    /// Start Of Frame (Progressive DCT)
    SOF2,
    /// Define Huffman Table
    DHT,
    /// Define Quantization Table
    DQT,
    /// Define Restart Interval
    DRI,
    /// Start Of Scan
    SOS,
    /// Restart
    RST(u8),
    /// Application specific
    APP(u8),
    /// Comment
    COM,
    /// End Of Image
    EOI,
}

/// The marker identified by byte `b`, or `None` for an unknown byte.
pub open spec fn spec_marker_of(b: u8) -> Option<Marker> {
    if b == 0xC0 {
        Some(Marker::SOF0)
    } else if b == 0xC2 {
        Some(Marker::SOF2)
    } else if b == 0xC4 {
        Some(Marker::DHT)
    } else if 0xD0 <= b && b <= 0xD7 {
        Some(Marker::RST((b - 0xD0) as u8))
    } else if b == 0xD8 {
        Some(Marker::SOI)
    } else if b == 0xD9 {
        Some(Marker::EOI)
    } else if b == 0xDA {
        Some(Marker::SOS)
    } else if b == 0xDB {
        Some(Marker::DQT)
    } else if b == 0xDD {
        Some(Marker::DRI)
    } else if 0xE0 <= b && b <= 0xEF {
        Some(Marker::APP((b - 0xE0) as u8))
    } else if b == 0xFE {
        Some(Marker::COM)
    } else {
        None
    }
}

impl Marker {
    /// The marker identified by byte `value`, or `None` for an unknown byte.
    pub fn try_from(value: u8) -> (r: Option<Marker>)
        ensures
            r == spec_marker_of(value),
    {
        if value == 0xC0 {
            Some(Marker::SOF0)
        } else if value == 0xC2 {
            Some(Marker::SOF2)
        } else if value == 0xC4 {
            Some(Marker::DHT)
        } else if 0xD0 <= value && value <= 0xD7 {
            Some(Marker::RST(value - 0xD0))
        } else if value == 0xD8 {
            Some(Marker::SOI)
        } else if value == 0xD9 {
            Some(Marker::EOI)
        } else if value == 0xDA {
            Some(Marker::SOS)
        } else if value == 0xDB {
            Some(Marker::DQT)
        } else if value == 0xDD {
            Some(Marker::DRI)
        } else if 0xE0 <= value && value <= 0xEF {
            Some(Marker::APP(value - 0xE0))
        } else if value == 0xFE {
            Some(Marker::COM)
        } else {
            None
        }
    }
}

/// Scanning forward from `pos`: the next marker and the position just past
/// its identifying byte. Bytes before an 0xFF are skipped, 0xFF 0x00 pairs
/// are skipped, runs of padding 0xFF bytes are tolerated. An unknown
/// non-zero byte after 0xFF is a malformed stream; running out of input is
/// a truncation.
pub open spec fn spec_next_marker(data: Seq<u8>, pos: int) -> Result<(Marker, int), DecodeError>
    decreases data.len() - pos,
{
    if pos < 0 || pos >= data.len() {
        Err(DecodeError::Truncated)
    } else if data[pos] != 0xFF {
        spec_next_marker(data, pos + 1)
    } else if pos + 1 >= data.len() {
        Err(DecodeError::Truncated)
    } else if data[pos + 1] == 0x00 {
        spec_next_marker(data, pos + 2)
    } else if data[pos + 1] == 0xFF {
        spec_next_marker(data, pos + 1)
    } else {
        match spec_marker_of(data[pos + 1]) {
            Some(m) => Ok((m, pos + 2)),
            None => Err(DecodeError::MalformedStream),
        }
    }
}

impl Decoder {
    /// Read the next marker.
    pub fn next_marker(&mut self) -> (r: Result<Marker, DecodeError>)
        requires
            old(self).wf(),
        ensures
            final(self).wf(),
            final(self).data@ == old(self).data@,
            spec_next_marker(old(self).data@, old(self).pos as int) matches Ok(mp) ==> r == Ok::<
                Marker,
                DecodeError,
            >(mp.0) && final(self).pos == mp.1,
            spec_next_marker(old(self).data@, old(self).pos as int) matches Err(e) ==> r == Err::<
                Marker,
                DecodeError,
            >(e),
    {
        loop
            invariant
                self.wf(),
                self.data@ == old(self).data@,
                spec_next_marker(self.data@, self.pos as int) == spec_next_marker(
                    old(self).data@,
                    old(self).pos as int,
                ),
            decreases self.data@.len() - self.pos,
        {
            if self.pos >= self.data.len() {
                return Err(DecodeError::Truncated);
            }
            let b = self.data[self.pos];
            if b != 0xFF {
                self.pos = self.pos + 1;
                continue ;
            }
            if self.pos + 1 >= self.data.len() {
                return Err(DecodeError::Truncated);
            }
            let c = self.data[self.pos + 1];
            if c == 0x00 {
                // A stuffed zero: skip both bytes and keep scanning.
                self.pos = self.pos + 2;
                continue ;
            }
            if c == 0xFF {
                // Padding 0xFF run: the second 0xFF starts a new prefix.
                self.pos = self.pos + 1;
                continue ;
            }
            self.pos = self.pos + 2;
            match Marker::try_from(c) {
                Some(m) => {
                    return Ok(m);
                },
                None => {
                    return Err(DecodeError::MalformedStream);
                },
            }
        }
    }
}

} // verus!
