//! The class of a query.

use vstd::prelude::*;
use vstd::std_specs::convert::FromSpecImpl;
use crate::bytes::{read_u16, u16_to_be};
use crate::error::Error;
use crate::wire::{be16_bytes, u16_at};

verus! {

/// The class of a DNS query.
///
/// According to [RFC 1035 Section 3.2.4](https://tools.ietf.org/rfc/rfc1035#section-3.2.4).
#[derive(Copy, Clone, Debug, PartialEq, Eq, Structural)]
pub enum QueryClass {
    /// Internet
    IN,
    /// CSNET
    CS,
    /// CHAOS
    CH,
    /// Hesiod
    HS,
    Reserved,
}

impl QueryClass {
    /// The number that a class is written as.
    pub open spec fn spec_to_u16(self) -> u16 {
        match self {
            QueryClass::IN => 1,
            QueryClass::CS => 2,
            QueryClass::CH => 3,
            QueryClass::HS => 4,
            QueryClass::Reserved => 5,
        }
    }

    /// The class that a number stands for.
    pub open spec fn spec_from_u16(n: u16) -> QueryClass {
        if n == 1 {
            QueryClass::IN
        } else if n == 2 {
            QueryClass::CS
        } else if n == 3 {
            QueryClass::CH
        } else if n == 4 {
            QueryClass::HS
        } else {
            QueryClass::Reserved
        }
    }

    /// Writing a class as a number and reading the number gives the class.
    pub proof fn lemma_round_trip(class: QueryClass)
        ensures
            QueryClass::spec_from_u16(class.spec_to_u16()) == class,
    {
    }

    /// The number that a class is written as.
    pub fn to_u16(&self) -> (n: u16)
        ensures
            n == self.spec_to_u16(),
    {
        match self {
            QueryClass::IN => 1,
            QueryClass::CS => 2,
            QueryClass::CH => 3,
            QueryClass::HS => 4,
            QueryClass::Reserved => 5,
        }
    }

    /// Reads the class at offset `*i` of `buf` and moves `*i` behind it.
    ///
    /// Fails with `MessageTooShort`, and leaves `*i` as it was, where fewer
    /// than two bytes are left.
    pub fn read(buf: &[u8], i: &mut usize) -> (r: Result<QueryClass, Error>)
        ensures
            match u16_at(buf@, *old(i) as int) {
                Ok(v) => r == Ok::<QueryClass, Error>(QueryClass::spec_from_u16(v as u16))
                    && *final(i) == *old(i) + 2,
                Err(e) => r == Err::<QueryClass, Error>(e) && *final(i) == *old(i),
            },
    {
        match read_u16(buf, i) {
            Ok(v) => Ok(QueryClass::from(v)),
            Err(e) => Err(e),
        }
    }

    /// The class as two bytes in network byte order.
    pub fn to_be_bytes(&self) -> (bytes: [u8; 2])
        ensures
            bytes@ == be16_bytes(self.spec_to_u16() as int),
    {
        u16_to_be(self.to_u16())
    }
}

impl From<u16> for QueryClass {
    /// The class that a number stands for.
    fn from(n: u16) -> (class: QueryClass) {
        match n {
            1 => QueryClass::IN,
            2 => QueryClass::CS,
            3 => QueryClass::CH,
            4 => QueryClass::HS,
            _ => QueryClass::Reserved,
        }
    }
}

impl FromSpecImpl<u16> for QueryClass {
    open spec fn obeys_from_spec() -> bool {
        true
    }

    open spec fn from_spec(n: u16) -> QueryClass {
        QueryClass::spec_from_u16(n)
    }
}

} // verus!
