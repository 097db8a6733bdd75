use vstd::prelude::*;

use crate::errors::DnsError;
use crate::message::header::{u16_from_bytes, u16_of};
use crate::message::label::{parse_labels_at, spec_parse_labels, Label, LabelModel};

verus! {

/// A resource record: an owner name, fixed type/class/TTL/rdata-length
/// fields, and the raw rdata octets, left uninterpreted by the codec.
#[derive(Debug, Clone, PartialEq, Eq)]
pub struct ResourceRecord {
    pub name: Vec<Label>,
    pub t: u16,
    pub class: u16,
    pub ttl: u32,
    pub rdlength: u16,
    pub rdata: Vec<u8>,
}

/// The mathematical shape of a [`ResourceRecord`].
pub struct RecordModel {
    pub name: Seq<LabelModel>,
    pub t: u16,
    pub class: u16,
    pub ttl: u32,
    pub rdlength: u16,
    pub rdata: Seq<u8>,
}

impl DeepView for ResourceRecord {
    type V = RecordModel;

    open spec fn deep_view(&self) -> RecordModel {
        RecordModel {
            name: self.name.deep_view(),
            t: self.t,
            class: self.class,
            ttl: self.ttl,
            rdlength: self.rdlength,
            rdata: self.rdata.deep_view(),
        }
    }
}

/// The 32-bit value four big-endian bytes read back as.
pub open spec fn u32_of(b0: u8, b1: u8, b2: u8, b3: u8) -> u32 {
    ((b0 as u32) << 24) | ((b1 as u32) << 16) | ((b2 as u32) << 8) | (b3 as u32)
}

/// Reads a 32-bit big-endian value from four bytes.
pub fn u32_from_bytes(b0: u8, b1: u8, b2: u8, b3: u8) -> (r: u32)
    ensures
        r == u32_of(b0, b1, b2, b3),
{
    ((b0 as u32) << 24) | ((b1 as u32) << 16) | ((b2 as u32) << 8) | (b3 as u32)
}

/// Reading a resource record at offset `i` of `b`: an owner name
/// (pointer left unresolved), then big-endian type (2 bytes), class (2),
/// TTL (4) and rdata length (2), then exactly `rdlength` raw rdata
/// octets. Yields the offset just past the record, or `None` when the
/// buffer is too short for the fixed fields or for the declared rdata
/// length.
pub open spec fn spec_parse_record(b: Seq<u8>, i: int) -> Option<(int, RecordModel)> {
    match spec_parse_labels(b, i) {
        None => None,
        Some((p, name)) => {
            if p + 9 >= b.len() {
                None
            } else {
                let rdlength = u16_of(b[p + 8], b[p + 9]);
                if b.len() < p + 10 + rdlength {
                    None
                } else {
                    Some(
                        (
                            p + 10 + rdlength,
                            RecordModel {
                                name: name,
                                t: u16_of(b[p], b[p + 1]),
                                class: u16_of(b[p + 2], b[p + 3]),
                                ttl: u32_of(b[p + 4], b[p + 5], b[p + 6], b[p + 7]),
                                rdlength: rdlength,
                                rdata: b.subrange(p + 10, p + 10 + rdlength),
                            },
                        ),
                    )
                }
            }
        },
    }
}

impl ResourceRecord {
    /// Reads a resource record from offset `i` of `b`, per
    /// [`spec_parse_record`]; the returned offset is absolute.
    pub(crate) fn parse_at(b: &[u8], i: usize) -> (r: Result<(usize, ResourceRecord), DnsError>)
        ensures
            match r {
                Ok((end, rec)) => {
                    &&& spec_parse_record(b@, i as int) == Some((end as int, rec.deep_view()))
                    &&& i <= end <= b@.len()
                },
                Err(e) => spec_parse_record(b@, i as int) is None && e is ParseError,
            },
    {
        let (p, name) = match parse_labels_at(b, i) {
            Ok(x) => x,
            Err(e) => {
                return Err(e);
            },
        };
        if b.len() - p <= 9 {
            return Err(
                DnsError::ParseError(
                    "parse: not enough bytes to parse resource record".to_owned(),
                ),
            );
        }
        let t = u16_from_bytes(b[p], b[p + 1]);
        let class = u16_from_bytes(b[p + 2], b[p + 3]);
        let ttl = u32_from_bytes(b[p + 4], b[p + 5], b[p + 6], b[p + 7]);
        let rdlength = u16_from_bytes(b[p + 8], b[p + 9]);
        if b.len() - p - 10 < rdlength as usize {
            return Err(
                DnsError::ParseError(
                    "parse: not enough bytes to parse resource record".to_owned(),
                ),
            );
        }
        let mut rdata: Vec<u8> = Vec::new();
        let mut k: usize = 0;
        let n = rdlength as usize;
        while k < n
            invariant
                k <= n,
                p + 10 + n <= b@.len() <= usize::MAX,
                rdata@ =~= b@.subrange(p + 10, p + 10 + k),
            decreases n - k,
        {
            rdata.push(b[p + 10 + k]);
            proof {
                assert(rdata@ =~= b@.subrange(p as int + 10, p + 10 + k + 1));
            }
            k = k + 1;
        }
        proof {
            assert(rdata.deep_view() =~= rdata@);
        }
        let rec = ResourceRecord { name, t, class, ttl, rdlength, rdata };
        Ok((p + 10 + n, rec))
    }

    /// Reads a resource record from the start of `b`, returning the
    /// number of bytes consumed; fails with a parse error when the
    /// buffer is too short for the fixed fields or for the declared
    /// rdata length. A zero rdata length yields empty rdata.
    pub fn parse(b: &[u8]) -> (r: Result<(usize, ResourceRecord), DnsError>)
        ensures
            match r {
                Ok((n, rec)) => {
                    &&& spec_parse_record(b@, 0) == Some((n as int, rec.deep_view()))
                    &&& n <= b@.len()
                },
                Err(e) => spec_parse_record(b@, 0) is None && e is ParseError,
            },
    {
        ResourceRecord::parse_at(b, 0)
    }
}

} // verus!
