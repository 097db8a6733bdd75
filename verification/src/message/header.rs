use vstd::prelude::*;

use crate::errors::DnsError;

verus! {

/// Number of bytes of the fixed DNS header.
pub const HEADER_LENGTH: usize = 12;

/// The 4-bit operation code of a DNS message.
#[derive(Debug, Clone, Copy, PartialEq, Eq, Structural)]
pub enum Opcode {
    StandardQuery,
    InverseQuery,
    StatusRequest,
    Reserved(u8),
}

impl Opcode {
    /// The numeric value this opcode is written as on the wire.
    pub open spec fn spec_as_u8(self) -> u8 {
        match self {
            Opcode::StandardQuery => 0,
            Opcode::InverseQuery => 1,
            Opcode::StatusRequest => 2,
            Opcode::Reserved(v) => v,
        }
    }

    /// The opcode a numeric value reads back as.
    pub open spec fn spec_from_u8(v: u8) -> Opcode {
        if v == 0 {
            Opcode::StandardQuery
        } else if v == 1 {
            Opcode::InverseQuery
        } else if v == 2 {
            Opcode::StatusRequest
        } else {
            Opcode::Reserved(v)
        }
    }

    /// An opcode is canonical when reading its value back yields itself,
    /// i.e. `Reserved` is only used for values without a named variant.
    pub open spec fn canonical(self) -> bool {
        Opcode::spec_from_u8(self.spec_as_u8()) == self
    }

    pub fn as_u8(self) -> (r: u8)
        ensures
            r == self.spec_as_u8(),
    {
        match self {
            Opcode::StandardQuery => 0,
            Opcode::InverseQuery => 1,
            Opcode::StatusRequest => 2,
            Opcode::Reserved(v) => v,
        }
    }

    pub fn from_u8(v: u8) -> (r: Opcode)
        ensures
            r == Opcode::spec_from_u8(v),
    {
        match v {
            0 => Opcode::StandardQuery,
            1 => Opcode::InverseQuery,
            2 => Opcode::StatusRequest,
            _ => Opcode::Reserved(v),
        }
    }
}

/// The 4-bit response code of a DNS message.
#[derive(Debug, Clone, Copy, PartialEq, Eq, Structural)]
pub enum ResponseCode {
    NoError,
    FormatError,
    ServerFailure,
    NameError,
    NotImpemented,
    Refused,
    Reserved(u8),
}

impl ResponseCode {
    /// The numeric value this response code is written as on the wire.
    pub open spec fn spec_as_u8(self) -> u8 {
        match self {
            ResponseCode::NoError => 0,
            ResponseCode::FormatError => 1,
            ResponseCode::ServerFailure => 2,
            ResponseCode::NameError => 3,
            ResponseCode::NotImpemented => 4,
            ResponseCode::Refused => 5,
            ResponseCode::Reserved(v) => v,
        }
    }

    /// The response code a numeric value reads back as.
    pub open spec fn spec_from_u8(v: u8) -> ResponseCode {
        if v == 0 {
            ResponseCode::NoError
        } else if v == 1 {
            ResponseCode::FormatError
        } else if v == 2 {
            ResponseCode::ServerFailure
        } else if v == 3 {
            ResponseCode::NameError
        } else if v == 4 {
            ResponseCode::NotImpemented
        } else if v == 5 {
            ResponseCode::Refused
        } else {
            ResponseCode::Reserved(v)
        }
    }

    /// A response code is canonical when reading its value back yields itself.
    pub open spec fn canonical(self) -> bool {
        ResponseCode::spec_from_u8(self.spec_as_u8()) == self
    }

    pub fn as_u8(self) -> (r: u8)
        ensures
            r == self.spec_as_u8(),
    {
        match self {
            ResponseCode::NoError => 0,
            ResponseCode::FormatError => 1,
            ResponseCode::ServerFailure => 2,
            ResponseCode::NameError => 3,
            ResponseCode::NotImpemented => 4,
            ResponseCode::Refused => 5,
            ResponseCode::Reserved(v) => v,
        }
    }

    pub fn from_u8(v: u8) -> (r: ResponseCode)
        ensures
            r == ResponseCode::spec_from_u8(v),
    {
        match v {
            0 => ResponseCode::NoError,
            1 => ResponseCode::FormatError,
            2 => ResponseCode::ServerFailure,
            3 => ResponseCode::NameError,
            4 => ResponseCode::NotImpemented,
            5 => ResponseCode::Refused,
            _ => ResponseCode::Reserved(v),
        }
    }
}

/// The fixed 12-byte DNS header, big-endian on the wire:
///
/// ```text
///                                1  1  1  1  1  1
///  0  1  2  3  4  5  6  7  8  9  0  1  2  3  4  5
/// +--+--+--+--+--+--+--+--+--+--+--+--+--+--+--+--+
/// |                      ID                       |
/// +--+--+--+--+--+--+--+--+--+--+--+--+--+--+--+--+
/// |QR|   Opcode  |AA|TC|RD|RA|   Z    |   RCODE   |
/// +--+--+--+--+--+--+--+--+--+--+--+--+--+--+--+--+
/// |                    QDCOUNT                    |
/// +--+--+--+--+--+--+--+--+--+--+--+--+--+--+--+--+
/// |                    ANCOUNT                    |
/// +--+--+--+--+--+--+--+--+--+--+--+--+--+--+--+--+
/// |                    NSCOUNT                    |
/// +--+--+--+--+--+--+--+--+--+--+--+--+--+--+--+--+
/// |                    ARCOUNT                    |
/// +--+--+--+--+--+--+--+--+--+--+--+--+--+--+--+--+
/// ```
#[derive(Debug, Clone, Copy, PartialEq, Eq, Structural)]
pub struct Header {
    pub id: u16,
    pub qr: bool,
    pub opcode: Opcode,
    pub aa: bool,
    pub tc: bool,
    pub rd: bool,
    pub ra: bool,
    pub rcode: ResponseCode,
    pub qdcount: u16,
    pub ancount: u16,
    pub arcount: u16,
    pub nscount: u16,
}

/// High byte of a 16-bit value, as written big-endian.
pub open spec fn u16_hi(x: u16) -> u8 {
    (x >> 8) as u8
}

/// Low byte of a 16-bit value, as written big-endian.
pub open spec fn u16_lo(x: u16) -> u8 {
    x as u8
}

/// The 16-bit value two big-endian bytes read back as.
pub open spec fn u16_of(hi: u8, lo: u8) -> u16 {
    ((hi as u16) << 8) | (lo as u16)
}

impl Header {
    /// A header whose opcode and response code fit their 4-bit fields
    /// and use `Reserved` only for values without a named variant.
    pub open spec fn wf(self) -> bool {
        &&& self.opcode.canonical()
        &&& self.opcode.spec_as_u8() <= 15
        &&& self.rcode.canonical()
        &&& self.rcode.spec_as_u8() <= 15
    }

    /// Byte 2 of the header: QR at bit 7, opcode at bits 6-3, AA at
    /// bit 2, TC at bit 1, RD at bit 0.
    pub open spec fn spec_flags_hi(self) -> u8 {
        (if self.qr {
            0x80u8
        } else {
            0u8
        }) | (self.opcode.spec_as_u8() << 3) | (if self.aa {
            4u8
        } else {
            0u8
        }) | (if self.tc {
            2u8
        } else {
            0u8
        }) | (if self.rd {
            1u8
        } else {
            0u8
        })
    }

    /// Byte 3 of the header: RA at bit 7, RCODE at bits 3-0; the
    /// reserved Z bits are written as zero.
    pub open spec fn spec_flags_lo(self) -> u8 {
        (if self.ra {
            0x80u8
        } else {
            0u8
        }) | self.rcode.spec_as_u8()
    }

    /// The exact 12 bytes this header is written as.
    pub open spec fn spec_bytes(self) -> Seq<u8> {
        seq![
            u16_hi(self.id),
            u16_lo(self.id),
            self.spec_flags_hi(),
            self.spec_flags_lo(),
            u16_hi(self.qdcount),
            u16_lo(self.qdcount),
            u16_hi(self.ancount),
            u16_lo(self.ancount),
            u16_hi(self.arcount),
            u16_lo(self.arcount),
            u16_hi(self.nscount),
            u16_lo(self.nscount),
        ]
    }

    /// The header the first 12 bytes of a buffer read back as; the
    /// reserved Z bits are ignored.
    pub open spec fn spec_parse(b: Seq<u8>) -> Header {
        Header {
            id: u16_of(b[0], b[1]),
            qr: b[2] & 0x80 != 0,
            opcode: Opcode::spec_from_u8((b[2] >> 3) & 0x0F),
            aa: b[2] & 0x04 != 0,
            tc: b[2] & 0x02 != 0,
            rd: b[2] & 0x01 != 0,
            ra: b[3] & 0x80 != 0,
            rcode: ResponseCode::spec_from_u8(b[3] & 0x0F),
            qdcount: u16_of(b[4], b[5]),
            ancount: u16_of(b[6], b[7]),
            arcount: u16_of(b[8], b[9]),
            nscount: u16_of(b[10], b[11]),
        }
    }

    pub open spec fn spec_default() -> Header {
        Header {
            id: 0,
            qr: false,
            opcode: Opcode::StandardQuery,
            aa: false,
            tc: false,
            rd: false,
            ra: false,
            rcode: ResponseCode::NoError,
            qdcount: 0,
            ancount: 0,
            arcount: 0,
            nscount: 0,
        }
    }

    /// Writes the 12 header bytes at the start of `dest`, leaving the
    /// rest of `dest` unchanged; fails if `dest` holds fewer than 12 bytes.
    pub fn write(&self, dest: &mut Vec<u8>) -> (r: Result<(), DnsError>)
        requires
            self.wf(),
        ensures
            old(dest)@.len() >= 12 ==> {
                &&& r is Ok
                &&& final(dest)@ == self.spec_bytes() + old(dest)@.skip(12)
            },
            old(dest)@.len() < 12 ==> {
                &&& r is Err
                &&& r->Err_0 is MarshalError
                &&& final(dest)@ == old(dest)@
            },
    {
        self.write_at(dest, 0)
    }

    /// Writes the 12 header bytes at offset `at` of `dest`, leaving the
    /// rest of `dest` unchanged; fails if fewer than 12 bytes remain.
    pub fn write_at(&self, dest: &mut Vec<u8>, at: usize) -> (r: Result<(), DnsError>)
        requires
            self.wf(),
            at <= old(dest)@.len(),
        ensures
            old(dest)@.len() - at >= 12 ==> {
                &&& r is Ok
                &&& final(dest)@ == old(dest)@.take(at as int) + self.spec_bytes() + old(dest)@.skip(
                    at + 12,
                )
            },
            old(dest)@.len() - at < 12 ==> {
                &&& r is Err
                &&& r->Err_0 is MarshalError
                &&& final(dest)@ == old(dest)@
            },
    {
        if dest.len() - at < 12 {
            return Err(
                DnsError::MarshalError("write: header requires at least 12 bytes".to_owned()),
            );
        }
        let ghost pre = dest@;
        dest[at] = self.id_hi();
        dest[at + 1] = self.id_lo();
        dest[at + 2] = self.flags_hi();
        dest[at + 3] = self.flags_lo();
        dest[at + 4] = (self.qdcount >> 8) as u8;
        dest[at + 5] = self.qdcount as u8;
        dest[at + 6] = (self.ancount >> 8) as u8;
        dest[at + 7] = self.ancount as u8;
        dest[at + 8] = (self.arcount >> 8) as u8;
        dest[at + 9] = self.arcount as u8;
        dest[at + 10] = (self.nscount >> 8) as u8;
        dest[at + 11] = self.nscount as u8;
        proof {
            assert(dest@ =~= pre.take(at as int) + self.spec_bytes() + pre.skip(at + 12));
        }
        Ok(())
    }

    fn id_hi(&self) -> (r: u8)
        ensures
            r == u16_hi(self.id),
    {
        (self.id >> 8) as u8
    }

    fn id_lo(&self) -> (r: u8)
        ensures
            r == u16_lo(self.id),
    {
        self.id as u8
    }

    fn flags_hi(&self) -> (r: u8)
        requires
            self.opcode.spec_as_u8() <= 15,
        ensures
            r == self.spec_flags_hi(),
    {
        (if self.qr {
            0x80u8
        } else {
            0u8
        }) | (self.opcode.as_u8() << 3) | (if self.aa {
            4u8
        } else {
            0u8
        }) | (if self.tc {
            2u8
        } else {
            0u8
        }) | (if self.rd {
            1u8
        } else {
            0u8
        })
    }

    fn flags_lo(&self) -> (r: u8)
        ensures
            r == self.spec_flags_lo(),
    {
        (if self.ra {
            0x80u8
        } else {
            0u8
        }) | self.rcode.as_u8()
    }

    /// Reads a header from the first 12 bytes of `src`; fails with a
    /// parse error if fewer than 12 bytes are supplied.
    pub fn parse(src: &[u8]) -> (r: Result<Header, DnsError>)
        ensures
            src@.len() >= 12 ==> r == Result::<Header, DnsError>::Ok(Header::spec_parse(src@)),
            src@.len() < 12 ==> r is Err && r->Err_0 is ParseError,
    {
        if src.len() < 12 {
            return Err(DnsError::ParseError("read: header should have 12 bytes".to_owned()));
        }
        Ok(
            Header {
                id: u16_from_bytes(src[0], src[1]),
                qr: src[2] & 0x80 != 0,
                opcode: Opcode::from_u8((src[2] >> 3) & 0x0F),
                aa: src[2] & 0x04 != 0,
                tc: src[2] & 0x02 != 0,
                rd: src[2] & 0x01 != 0,
                ra: src[3] & 0x80 != 0,
                rcode: ResponseCode::from_u8(src[3] & 0x0F),
                qdcount: u16_from_bytes(src[4], src[5]),
                ancount: u16_from_bytes(src[6], src[7]),
                arcount: u16_from_bytes(src[8], src[9]),
                nscount: u16_from_bytes(src[10], src[11]),
            },
        )
    }
}

/// Reads a 16-bit big-endian value from two bytes.
pub fn u16_from_bytes(hi: u8, lo: u8) -> (r: u16)
    ensures
        r == u16_of(hi, lo),
{
    ((hi as u16) << 8) | (lo as u16)
}

impl Default for Header {
    /// The all-zero header: id 0, all flags clear, a standard query
    /// with no error and all section counts zero.
    fn default() -> (r: Header)
        ensures
            r == Header::spec_default(),
    {
        Header {
            id: 0,
            qr: false,
            opcode: Opcode::StandardQuery,
            aa: false,
            tc: false,
            rd: false,
            ra: false,
            rcode: ResponseCode::NoError,
            qdcount: 0,
            ancount: 0,
            arcount: 0,
            nscount: 0,
        }
    }
}

/// Writing a well-formed header and parsing the 12 bytes back yields
/// the header itself: `parse` is the exact inverse of `write`.
pub proof fn lemma_header_round_trip(h: Header)
    requires
        h.wf(),
    ensures
        Header::spec_parse(h.spec_bytes()) == h,
{
    let b = h.spec_bytes();
    let q: u8 = if h.qr {
        1
    } else {
        0
    };
    let op = h.opcode.spec_as_u8();
    let a: u8 = if h.aa {
        1
    } else {
        0
    };
    let t: u8 = if h.tc {
        1
    } else {
        0
    };
    let rdb: u8 = if h.rd {
        1
    } else {
        0
    };
    let fh = h.spec_flags_hi();
    assert(fh == ((q << 7) | (op << 3) | (a << 2) | (t << 1) | rdb)) by (bit_vector)
        requires
            q <= 1 && a <= 1 && t <= 1 && rdb <= 1 && fh == ((if q == 1 {
                0x80u8
            } else {
                0u8
            }) | (op << 3) | (if a == 1 {
                4u8
            } else {
                0u8
            }) | (if t == 1 {
                2u8
            } else {
                0u8
            }) | (if rdb == 1 {
                1u8
            } else {
                0u8
            })),
    ;
    assert({
        &&& (fh & 0x80 != 0) == (q == 1)
        &&& ((fh >> 3) & 0x0F) == op
        &&& (fh & 0x04 != 0) == (a == 1)
        &&& (fh & 0x02 != 0) == (t == 1)
        &&& (fh & 0x01 != 0) == (rdb == 1)
    }) by (bit_vector)
        requires
            q <= 1 && op <= 15 && a <= 1 && t <= 1 && rdb <= 1 && fh == ((q << 7) | (op << 3) | (a
                << 2) | (t << 1) | rdb),
    ;
    let ra: u8 = if h.ra {
        1
    } else {
        0
    };
    let rc = h.rcode.spec_as_u8();
    let fl = h.spec_flags_lo();
    assert({
        &&& (fl & 0x80 != 0) == (ra == 1)
        &&& (fl & 0x0F) == rc
    }) by (bit_vector)
        requires
            ra <= 1 && rc <= 15 && fl == ((if ra == 1 {
                0x80u8
            } else {
                0u8
            }) | rc),
    ;
    lemma_u16_bytes_round_trip(h.id);
    lemma_u16_bytes_round_trip(h.qdcount);
    lemma_u16_bytes_round_trip(h.ancount);
    lemma_u16_bytes_round_trip(h.arcount);
    lemma_u16_bytes_round_trip(h.nscount);
}

/// Splitting a 16-bit value into its big-endian bytes and reading them
/// back yields the value itself.
pub proof fn lemma_u16_bytes_round_trip(x: u16)
    ensures
        u16_of(u16_hi(x), u16_lo(x)) == x,
{
    let hi = u16_hi(x);
    let lo = u16_lo(x);
    assert((((x >> 8) as u8) as u16) << 8 | ((x as u8) as u16) == x) by (bit_vector);
}

} // verus!
