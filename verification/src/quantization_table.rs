//! DQT segment parsing: quantization tables of 64 values in raster order,
//! with 8-bit or 16-bit precision.
use vstd::prelude::*;

use crate::spec_u16_be;
use crate::DecodeError;
use crate::Decoder;

verus! {

/// A quantization table: a destination id and 64 values in file order.
#[derive(Debug, Clone, Copy, PartialEq, Eq)]
pub struct QuantizationTable {
    pub id: u8,
    pub values: [i16; 64],
}

/// The 64 8-bit table values starting at `pos`.
pub open spec fn spec_dqt_values8(data: Seq<u8>, pos: int) -> Seq<i16> {
    Seq::new(64, |i: int| data[pos + i] as i16)
}

/// The 64 16-bit big-endian table values starting at `pos`, truncated to
/// signed 16 bits as the decoder stores them.
pub open spec fn spec_dqt_values16(data: Seq<u8>, pos: int) -> Seq<i16> {
    Seq::new(64, |i: int| spec_u16_be(data, pos + 2 * i) as i16)
}

/// Parsing the body of a DQT segment: `remaining` unread bytes of the
/// segment starting at `pos`. Yields the tables as (id, values) pairs and
/// the position after the segment. A precision nibble other than 0 or 1,
/// or a segment length that does not cover a whole table, is a malformed
/// stream; running out of input is a truncation.
pub open spec fn spec_parse_dqt(data: Seq<u8>, pos: int, remaining: int) -> Result<
    (Seq<(u8, Seq<i16>)>, int),
    DecodeError,
>
    decreases remaining,
{
    if remaining <= 0 {
        Ok((Seq::empty(), pos))
    } else if pos < 0 || pos >= data.len() {
        Err(DecodeError::Truncated)
    } else {
        let precision = data[pos] >> 4;
        let id = data[pos] & 0x0F;
        if precision == 0 {
            if remaining < 65 {
                Err(DecodeError::MalformedStream)
            } else if pos + 65 > data.len() {
                Err(DecodeError::Truncated)
            } else {
                match spec_parse_dqt(data, pos + 65, remaining - 65) {
                    Ok(tsp) => Ok((seq![(id, spec_dqt_values8(data, pos + 1))] + tsp.0, tsp.1)),
                    Err(e) => Err(e),
                }
            }
        } else if precision == 1 {
            if remaining < 129 {
                Err(DecodeError::MalformedStream)
            } else if pos + 129 > data.len() {
                Err(DecodeError::Truncated)
            } else {
                match spec_parse_dqt(data, pos + 129, remaining - 129) {
                    Ok(tsp) => Ok((seq![(id, spec_dqt_values16(data, pos + 1))] + tsp.0, tsp.1)),
                    Err(e) => Err(e),
                }
            }
        } else {
            Err(DecodeError::MalformedStream)
        }
    }
}

/// Whether the parsed tables `r` carry exactly the ids and values `ts`.
pub open spec fn dqt_tables_match(r: Seq<QuantizationTable>, ts: Seq<(u8, Seq<i16>)>) -> bool {
    &&& r.len() == ts.len()
    &&& forall|k: int| 0 <= k < r.len() ==> r[k].id == ts[k].0 && r[k].values@ =~= ts[k].1
}

/// Loop invariant of the DQT reader: the tables already collected (`done`),
/// together with whatever a parse of the rest yields, make up the parse of
/// the whole segment, and errors of the rest are errors of the whole.
spec fn dqt_inv(
    data: Seq<u8>,
    sp: int,
    sr: int,
    done: Seq<(u8, Seq<i16>)>,
    pos: int,
    rem: int,
) -> bool {
    &&& (spec_parse_dqt(data, pos, rem) matches Ok(tsp) ==> spec_parse_dqt(data, sp, sr) == Ok::<
        _,
        DecodeError,
    >((done + tsp.0, tsp.1)))
    &&& (spec_parse_dqt(data, pos, rem) matches Err(e) ==> spec_parse_dqt(data, sp, sr) == Err::<
        (Seq<(u8, Seq<i16>)>, int),
        _,
    >(e))
}

/// An error of the remaining parse is an error of the whole segment.
proof fn lemma_dqt_err(
    data: Seq<u8>,
    sp: int,
    sr: int,
    done: Seq<(u8, Seq<i16>)>,
    pos: int,
    rem: int,
    e: DecodeError,
)
    requires
        dqt_inv(data, sp, sr, done, pos, rem),
        spec_parse_dqt(data, pos, rem) == Err::<(Seq<(u8, Seq<i16>)>, int), _>(e),
    ensures
        spec_parse_dqt(data, sp, sr) == Err::<(Seq<(u8, Seq<i16>)>, int), _>(e),
{
}

proof fn lemma_dqt_inv_init(data: Seq<u8>, sp: int, sr: int)
    ensures
        dqt_inv(data, sp, sr, Seq::empty(), sp, sr),
{
    match spec_parse_dqt(data, sp, sr) {
        Ok(tsp) => {
            assert(Seq::<(u8, Seq<i16>)>::empty() + tsp.0 =~= tsp.0);
        },
        Err(_) => {},
    }
}

/// One parsed table extends the collected prefix and keeps the invariant.
proof fn lemma_dqt_inv_step(
    data: Seq<u8>,
    sp: int,
    sr: int,
    done: Seq<(u8, Seq<i16>)>,
    pos: int,
    rem: int,
    head: (u8, Seq<i16>),
    step: int,
)
    requires
        dqt_inv(data, sp, sr, done, pos, rem),
        0 < rem,
        0 <= pos < data.len(),
        step == if data[pos] >> 4 == 0 { 65int } else { 129int },
        data[pos] >> 4 == 0 || data[pos] >> 4 == 1,
        rem >= step,
        pos + step <= data.len(),
        head == ((data[pos] & 0x0F), if data[pos] >> 4 == 0 {
            spec_dqt_values8(data, pos + 1)
        } else {
            spec_dqt_values16(data, pos + 1)
        }),
    ensures
        dqt_inv(data, sp, sr, done.push(head), pos + step, rem - step),
{
    match spec_parse_dqt(data, pos + step, rem - step) {
        Ok(tsp) => {
            assert(spec_parse_dqt(data, pos, rem) == Ok::<_, DecodeError>(
                (seq![head] + tsp.0, tsp.1),
            ));
            assert(done + (seq![head] + tsp.0) =~= done.push(head) + tsp.0);
        },
        Err(e) => {
            assert(spec_parse_dqt(data, pos, rem) == Err::<(Seq<(u8, Seq<i16>)>, int), _>(e));
        },
    }
}

impl Decoder {
    /// Read a DQT segment: its 16-bit length, then tables until the length
    /// is exhausted.
    #[verifier::loop_isolation(false)]
    pub fn read_quantization_table(&mut self) -> (r: Result<Vec<QuantizationTable>, DecodeError>)
        requires
            old(self).wf(),
        ensures
            final(self).wf(),
            final(self).data@ == old(self).data@,
            old(self).pos + 2 > old(self).data@.len() ==> r == Err::<
                Vec<QuantizationTable>,
                DecodeError,
            >(DecodeError::Truncated),
            old(self).pos + 2 <= old(self).data@.len() ==> {
                let len = spec_u16_be(old(self).data@, old(self).pos as int);
                if len < 2 {
                    r == Err::<Vec<QuantizationTable>, DecodeError>(DecodeError::MalformedStream)
                } else {
                    match spec_parse_dqt(old(self).data@, old(self).pos + 2, len - 2) {
                        Ok(tsp) => r matches Ok(ts) && dqt_tables_match(ts@, tsp.0)
                            && final(self).pos == tsp.1,
                        Err(e) => r == Err::<Vec<QuantizationTable>, DecodeError>(e),
                    }
                }
            },
    {
        let len = match self.read_u16() {
            Ok(l) => l,
            Err(e) => {
                return Err(e);
            },
        };
        if len < 2 {
            return Err(DecodeError::MalformedStream);
        }
        let mut remaining: u16 = len - 2;
        let mut tables: Vec<QuantizationTable> = Vec::new();
        let ghost start_pos: int = self.pos as int;
        let ghost start_rem: int = remaining as int;
        let ghost mut done: Seq<(u8, Seq<i16>)> = Seq::empty();
        proof {
            lemma_dqt_inv_init(self.data@, start_pos, start_rem);
        }
        while remaining != 0
            invariant
                self.wf(),
                self.data@ == old(self).data@,
                dqt_tables_match(tables@, done),
                dqt_inv(self.data@, start_pos, start_rem, done, self.pos as int, remaining as int),
            decreases remaining,
        {
            let ghost hpos: int = self.pos as int;
            let ghost hrem: int = remaining as int;
            let b = match self.read_byte() {
                Ok(b) => b,
                Err(e) => {
                    proof {
                        lemma_dqt_err(self.data@, start_pos, start_rem, done, hpos, hrem,
                            DecodeError::Truncated);
                    }
                    return Err(e);
                },
            };
            let precision = b >> 4;
            let id = b & 0x0F;
            if precision == 0 {
                if remaining < 65 {
                    proof {
                        lemma_dqt_err(self.data@, start_pos, start_rem, done, hpos, hrem,
                            DecodeError::MalformedStream);
                    }
                    return Err(DecodeError::MalformedStream);
                }
                if self.data.len() - self.pos < 64 {
                    proof {
                        lemma_dqt_err(self.data@, start_pos, start_rem, done, hpos, hrem,
                            DecodeError::Truncated);
                    }
                    return Err(DecodeError::Truncated);
                }
                let ghost vpos: int = self.pos as int;
                let mut values: [i16; 64] = [0i16; 64];
                let mut i: usize = 0;
                while i < 64
                    invariant
                        self.wf(),
                        self.data@ == old(self).data@,
                        i <= 64,
                        self.pos == vpos + i,
                        vpos + 64 <= self.data@.len(),
                        self.data@.len() <= usize::MAX,
                        forall|j: int|
                            0 <= j < i ==> values@[j] == spec_dqt_values8(self.data@, vpos)[j],
                    decreases 64 - i,
                {
                    values[i] = self.data[self.pos] as i16;
                    self.pos = self.pos + 1;
                    i = i + 1;
                }
                let ghost head = ((id, spec_dqt_values8(self.data@, vpos)));
                proof {
                    assert(values@ =~= spec_dqt_values8(self.data@, vpos));
                    lemma_dqt_inv_step(self.data@, start_pos, start_rem, done, hpos, hrem, head,
                        65);
                    done = done.push(head);
                }
                tables.push(QuantizationTable { id, values });
                remaining = remaining - 65;
            } else if precision == 1 {
                if remaining < 129 {
                    proof {
                        lemma_dqt_err(self.data@, start_pos, start_rem, done, hpos, hrem,
                            DecodeError::MalformedStream);
                    }
                    return Err(DecodeError::MalformedStream);
                }
                if self.data.len() - self.pos < 128 {
                    proof {
                        lemma_dqt_err(self.data@, start_pos, start_rem, done, hpos, hrem,
                            DecodeError::Truncated);
                    }
                    return Err(DecodeError::Truncated);
                }
                let ghost vpos: int = self.pos as int;
                let mut values: [i16; 64] = [0i16; 64];
                let mut i: usize = 0;
                while i < 64
                    invariant
                        self.wf(),
                        self.data@ == old(self).data@,
                        i <= 64,
                        self.pos == vpos + 2 * i,
                        vpos + 128 <= self.data@.len(),
                        self.data@.len() <= usize::MAX,
                        forall|j: int|
                            0 <= j < i ==> values@[j] == spec_dqt_values16(self.data@, vpos)[j],
                    decreases 64 - i,
                {
                    let hi = self.data[self.pos];
                    let lo = self.data[self.pos + 1];
                    let v: u16 = (hi as u16) * 256 + (lo as u16);
                    values[i] = #[verifier::truncate] (v as i16);
                    self.pos = self.pos + 2;
                    i = i + 1;
                }
                let ghost head = ((id, spec_dqt_values16(self.data@, vpos)));
                proof {
                    assert(values@ =~= spec_dqt_values16(self.data@, vpos));
                    lemma_dqt_inv_step(self.data@, start_pos, start_rem, done, hpos, hrem, head,
                        129);
                    done = done.push(head);
                }
                tables.push(QuantizationTable { id, values });
                remaining = remaining - 129;
            } else {
                proof {
                    lemma_dqt_err(self.data@, start_pos, start_rem, done, hpos, hrem,
                        DecodeError::MalformedStream);
                }
                return Err(DecodeError::MalformedStream);
            }
        }
        proof {
            assert(done + Seq::<(u8, Seq<i16>)>::empty() =~= done);
        }
        Ok(tables)
    }
}

} // verus!
