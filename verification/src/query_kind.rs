//! The kind of a query.

use vstd::prelude::*;
use vstd::std_specs::convert::FromSpecImpl;
use crate::bytes::{read_u16, u16_to_be};
use crate::error::Error;
use crate::wire::{be16_bytes, u16_at};

verus! {

/// The kind of a DNS query.
///
/// According to [RFC 1035 Section 3.2.2](https://tools.ietf.org/rfc/rfc1035#section-3.2.2)
/// and [RFC 1035 Section 3.2.3](https://tools.ietf.org/rfc/rfc1035#section-3.2.3).
#[derive(Copy, Clone, Debug, PartialEq, Eq, Structural)]
pub enum QueryKind {
    A,
    NS,
    MD,
    MF,
    CNAME,
    SOA,
    MB,
    MG,
    MR,
    NULL,
    WKS,
    PTR,
    HINFO,
    MINFO,
    MX,
    TXT,
    AXFR,
    MAILB,
    MAILA,
    ALL,
    Reserved,
}

impl QueryKind {
    /// The number that a kind is written as.
    pub open spec fn spec_to_u16(self) -> u16 {
        match self {
            QueryKind::A => 1,
            QueryKind::NS => 2,
            QueryKind::MD => 3,
            QueryKind::MF => 4,
            QueryKind::CNAME => 5,
            QueryKind::SOA => 6,
            QueryKind::MB => 7,
            QueryKind::MG => 8,
            QueryKind::MR => 9,
            QueryKind::NULL => 10,
            QueryKind::WKS => 11,
            QueryKind::PTR => 12,
            QueryKind::HINFO => 13,
            QueryKind::MINFO => 14,
            QueryKind::MX => 15,
            QueryKind::TXT => 16,
            QueryKind::AXFR => 252,
            QueryKind::MAILB => 253,
            QueryKind::MAILA => 254,
            QueryKind::ALL => 255,
            QueryKind::Reserved => 256,
        }
    }

    /// The kind that a number is read as: the kind that is written as that
    /// number, and `Reserved` for every number that no kind is written as.
    pub open spec fn spec_from_u16(n: u16) -> QueryKind {
        if n == 1 {
            QueryKind::A
        } else if n == 2 {
            QueryKind::NS
        } else if n == 3 {
            QueryKind::MD
        } else if n == 4 {
            QueryKind::MF
        } else if n == 5 {
            QueryKind::CNAME
        } else if n == 6 {
            QueryKind::SOA
        } else if n == 7 {
            QueryKind::MB
        } else if n == 8 {
            QueryKind::MG
        } else if n == 9 {
            QueryKind::MR
        } else if n == 10 {
            QueryKind::NULL
        } else if n == 11 {
            QueryKind::WKS
        } else if n == 12 {
            QueryKind::PTR
        } else if n == 13 {
            QueryKind::HINFO
        } else if n == 14 {
            QueryKind::MINFO
        } else if n == 15 {
            QueryKind::MX
        } else if n == 16 {
            QueryKind::TXT
        } else if n == 252 {
            QueryKind::AXFR
        } else if n == 253 {
            QueryKind::MAILB
        } else if n == 254 {
            QueryKind::MAILA
        } else if n == 255 {
            QueryKind::ALL
        } else {
            QueryKind::Reserved
        }
    }

    /// Writing a kind as a number and reading the number gives the kind.
    pub proof fn lemma_round_trip(kind: QueryKind)
        ensures
            QueryKind::spec_from_u16(kind.spec_to_u16()) == kind,
    {
    }

    /// Reading a number as a kind and writing the kind gives the number, for
    /// every number that a kind other than `Reserved` is written as.
    pub proof fn lemma_round_trip_number(n: u16)
        requires
            1 <= n <= 16 || 252 <= n <= 255,
        ensures
            QueryKind::spec_from_u16(n).spec_to_u16() == n,
    {
    }

    /// The number that a kind is written as.
    pub fn to_u16(self) -> (n: u16)
        ensures
            n == self.spec_to_u16(),
    {
        match self {
            QueryKind::A => 1,
            QueryKind::NS => 2,
            QueryKind::MD => 3,
            QueryKind::MF => 4,
            QueryKind::CNAME => 5,
            QueryKind::SOA => 6,
            QueryKind::MB => 7,
            QueryKind::MG => 8,
            QueryKind::MR => 9,
            QueryKind::NULL => 10,
            QueryKind::WKS => 11,
            QueryKind::PTR => 12,
            QueryKind::HINFO => 13,
            QueryKind::MINFO => 14,
            QueryKind::MX => 15,
            QueryKind::TXT => 16,
            QueryKind::AXFR => 252,
            QueryKind::MAILB => 253,
            QueryKind::MAILA => 254,
            QueryKind::ALL => 255,
            QueryKind::Reserved => 256,
        }
    }

    /// Reads the kind at offset `*i` of `buf` and moves `*i` behind it.
    ///
    /// Fails with `MessageTooShort`, and leaves `*i` as it was, where fewer
    /// than two bytes are left.
    pub fn read(buf: &[u8], i: &mut usize) -> (r: Result<QueryKind, Error>)
        ensures
            match u16_at(buf@, *old(i) as int) {
                Ok(v) => r == Ok::<QueryKind, Error>(QueryKind::spec_from_u16(v as u16))
                    && *final(i) == *old(i) + 2,
                Err(e) => r == Err::<QueryKind, Error>(e) && *final(i) == *old(i),
            },
    {
        match read_u16(buf, i) {
            Ok(v) => Ok(QueryKind::from(v)),
            Err(e) => Err(e),
        }
    }

    /// The kind as two bytes in network byte order.
    pub fn to_be_bytes(self) -> (bytes: [u8; 2])
        ensures
            bytes@ == be16_bytes(self.spec_to_u16() as int),
    {
        u16_to_be(self.to_u16())
    }
}

impl From<u16> for QueryKind {
    /// The kind that a number is read as.
    fn from(n: u16) -> (kind: QueryKind) {
        match n {
            1 => QueryKind::A,
            2 => QueryKind::NS,
            3 => QueryKind::MD,
            4 => QueryKind::MF,
            5 => QueryKind::CNAME,
            6 => QueryKind::SOA,
            7 => QueryKind::MB,
            8 => QueryKind::MG,
            9 => QueryKind::MR,
            10 => QueryKind::NULL,
            11 => QueryKind::WKS,
            12 => QueryKind::PTR,
            13 => QueryKind::HINFO,
            14 => QueryKind::MINFO,
            15 => QueryKind::MX,
            16 => QueryKind::TXT,
            252 => QueryKind::AXFR,
            253 => QueryKind::MAILB,
            254 => QueryKind::MAILA,
            255 => QueryKind::ALL,
            _ => QueryKind::Reserved,
        }
    }
}

impl FromSpecImpl<u16> for QueryKind {
    open spec fn obeys_from_spec() -> bool {
        true
    }

    open spec fn from_spec(n: u16) -> QueryKind {
        QueryKind::spec_from_u16(n)
    }
}

} // verus!
