//! The twelve-byte header of a message, read and written bit by bit.

use vstd::prelude::*;
use vstd::std_specs::convert::FromSpecImpl;
use crate::wire::{be16, be16_bytes, HEADER_SIZE};

verus! {

/// The kind of a DNS header.
#[derive(Debug, Clone, Copy, PartialEq, Eq, Structural)]
pub enum HeaderKind {
    Query,
    Response,
}

/// A DNS opcode.
#[derive(Debug, Clone, Copy, PartialEq, Eq, Structural)]
pub enum OpCode {
    Query,
    InverseQuery,
    Status,
    Notify,
    Update,
    Reserved(u8),
}

impl OpCode {
    /// The opcode that a four-bit field value stands for.
    pub open spec fn spec_from_bits(n: u8) -> OpCode {
        if n == 0 {
            OpCode::Query
        } else if n == 1 {
            OpCode::InverseQuery
        } else if n == 2 {
            OpCode::Status
        } else if n == 4 {
            OpCode::Notify
        } else if n == 5 {
            OpCode::Update
        } else {
            OpCode::Reserved(n)
        }
    }

    /// The number that an opcode is written as.
    pub open spec fn spec_bits(self) -> u8 {
        match self {
            OpCode::Query => 0,
            OpCode::InverseQuery => 1,
            OpCode::Status => 2,
            OpCode::Notify => 4,
            OpCode::Update => 5,
            OpCode::Reserved(n) => n,
        }
    }
}

/// A DNS response code.
#[derive(Debug, Clone, Copy, PartialEq, Eq, Structural)]
pub enum ResponseCode {
    NoError,
    FormatError,
    ServerFailure,
    NonExistentDomain,
    NotImplemented,
    Refused,
    ExistentDomain,
    ExistentRrSet,
    NonExistentRrSet,
    NotAuthoritative,
    NotZone,
    BadOptVersionOrBadSignature,
    BadKey,
    BadTime,
    BadMode,
    BadName,
    BadAlg,
    Reserved(u16),
}

impl ResponseCode {
    /// The number of a response code.
    pub open spec fn spec_to_u16(self) -> u16 {
        match self {
            ResponseCode::NoError => 0,
            ResponseCode::FormatError => 1,
            ResponseCode::ServerFailure => 2,
            ResponseCode::NonExistentDomain => 3,
            ResponseCode::NotImplemented => 4,
            ResponseCode::Refused => 5,
            ResponseCode::ExistentDomain => 6,
            ResponseCode::ExistentRrSet => 7,
            ResponseCode::NonExistentRrSet => 8,
            ResponseCode::NotAuthoritative => 9,
            ResponseCode::NotZone => 10,
            ResponseCode::BadOptVersionOrBadSignature => 16,
            ResponseCode::BadKey => 17,
            ResponseCode::BadTime => 18,
            ResponseCode::BadMode => 19,
            ResponseCode::BadName => 20,
            ResponseCode::BadAlg => 21,
            ResponseCode::Reserved(n) => n,
        }
    }

    /// The response code with the given number: the assigned codes for 0 to
    /// 10 and 16 to 21, and `Reserved` for every other number.
    pub open spec fn spec_from_u16(n: u16) -> ResponseCode {
        if n == 0 {
            ResponseCode::NoError
        } else if n == 1 {
            ResponseCode::FormatError
        } else if n == 2 {
            ResponseCode::ServerFailure
        } else if n == 3 {
            ResponseCode::NonExistentDomain
        } else if n == 4 {
            ResponseCode::NotImplemented
        } else if n == 5 {
            ResponseCode::Refused
        } else if n == 6 {
            ResponseCode::ExistentDomain
        } else if n == 7 {
            ResponseCode::ExistentRrSet
        } else if n == 8 {
            ResponseCode::NonExistentRrSet
        } else if n == 9 {
            ResponseCode::NotAuthoritative
        } else if n == 10 {
            ResponseCode::NotZone
        } else if n == 16 {
            ResponseCode::BadOptVersionOrBadSignature
        } else if n == 17 {
            ResponseCode::BadKey
        } else if n == 18 {
            ResponseCode::BadTime
        } else if n == 19 {
            ResponseCode::BadMode
        } else if n == 20 {
            ResponseCode::BadName
        } else if n == 21 {
            ResponseCode::BadAlg
        } else {
            ResponseCode::Reserved(n)
        }
    }

    /// Turning a number into a response code and back gives the number, for
    /// every 16-bit number, assigned or not.
    pub proof fn lemma_round_trip(n: u16)
        ensures
            ResponseCode::spec_from_u16(n).spec_to_u16() == n,
    {
    }

    /// Turning a response code into its number and back gives the code,
    /// unless it is a `Reserved` that holds an assigned number.
    pub proof fn lemma_round_trip_code(code: ResponseCode)
        requires
            code matches ResponseCode::Reserved(n) ==> ResponseCode::spec_from_u16(n)
                is Reserved,
        ensures
            ResponseCode::spec_from_u16(code.spec_to_u16()) == code,
    {
    }
}

impl From<ResponseCode> for u16 {
    /// The number of a response code.
    fn from(r: ResponseCode) -> (n: u16) {
        match r {
            ResponseCode::NoError => 0,
            ResponseCode::FormatError => 1,
            ResponseCode::ServerFailure => 2,
            ResponseCode::NonExistentDomain => 3,
            ResponseCode::NotImplemented => 4,
            ResponseCode::Refused => 5,
            ResponseCode::ExistentDomain => 6,
            ResponseCode::ExistentRrSet => 7,
            ResponseCode::NonExistentRrSet => 8,
            ResponseCode::NotAuthoritative => 9,
            ResponseCode::NotZone => 10,
            ResponseCode::BadOptVersionOrBadSignature => 16,
            ResponseCode::BadKey => 17,
            ResponseCode::BadTime => 18,
            ResponseCode::BadMode => 19,
            ResponseCode::BadName => 20,
            ResponseCode::BadAlg => 21,
            ResponseCode::Reserved(n) => n,
        }
    }
}

impl FromSpecImpl<ResponseCode> for u16 {
    open spec fn obeys_from_spec() -> bool {
        true
    }

    open spec fn from_spec(r: ResponseCode) -> u16 {
        r.spec_to_u16()
    }
}

impl From<u16> for ResponseCode {
    /// The response code with the given number.
    fn from(n: u16) -> (r: ResponseCode) {
        match n {
            0 => ResponseCode::NoError,
            1 => ResponseCode::FormatError,
            2 => ResponseCode::ServerFailure,
            3 => ResponseCode::NonExistentDomain,
            4 => ResponseCode::NotImplemented,
            5 => ResponseCode::Refused,
            6 => ResponseCode::ExistentDomain,
            7 => ResponseCode::ExistentRrSet,
            8 => ResponseCode::NonExistentRrSet,
            9 => ResponseCode::NotAuthoritative,
            10 => ResponseCode::NotZone,
            16 => ResponseCode::BadOptVersionOrBadSignature,
            17 => ResponseCode::BadKey,
            18 => ResponseCode::BadTime,
            19 => ResponseCode::BadMode,
            20 => ResponseCode::BadName,
            21 => ResponseCode::BadAlg,
            n => ResponseCode::Reserved(n),
        }
    }
}

impl FromSpecImpl<u16> for ResponseCode {
    open spec fn obeys_from_spec() -> bool {
        true
    }

    open spec fn from_spec(n: u16) -> ResponseCode {
        ResponseCode::spec_from_u16(n)
    }
}

/// The QR bit of the first flags byte.
pub open spec fn qr_bit(b: u8) -> bool {
    b / 128 == 1
}

/// The four opcode bits of the first flags byte.
pub open spec fn opcode_bits(b: u8) -> u8 {
    ((b / 8) % 16) as u8
}

/// The AA bit of the first flags byte.
pub open spec fn aa_bit(b: u8) -> bool {
    (b / 4) % 2 == 1
}

/// The TC bit of the first flags byte.
pub open spec fn tc_bit(b: u8) -> bool {
    (b / 2) % 2 == 1
}

/// The RD bit of the first flags byte.
pub open spec fn rd_bit(b: u8) -> bool {
    b % 2 == 1
}

/// The RA bit of the second flags byte.
pub open spec fn ra_bit(b: u8) -> bool {
    b / 128 == 1
}

/// The four response code bits of the second flags byte.
pub open spec fn rcode_bits(b: u8) -> u8 {
    (b % 16) as u8
}

/// The masks that read the flags pick the bits that the fields are defined as.
proof fn lemma_flags_read(b: u8)
    by (bit_vector)
    ensures
        (b & 0x80 == 0) <==> !(b / 128 == 1),
        (b & 0x78) >> 3 == (b / 8) % 16,
        (b & 0x04 != 0) <==> (b / 4) % 2 == 1,
        (b & 0x02 != 0) <==> (b / 2) % 2 == 1,
        (b & 0x01 != 0) <==> b % 2 == 1,
        b & 0x0f == b % 16,
{
}

/// Setting or clearing the top bit of a byte leaves its low seven bits.
proof fn lemma_set_qr(b: u8)
    by (bit_vector)
    ensures
        (b & 0x7f) / 128 == 0,
        (b | 0x80) / 128 == 1,
        (b & 0x7f) % 128 == b % 128,
        (b | 0x80) % 128 == b % 128,
{
}

/// Setting or clearing the low bit of a byte leaves its high seven bits.
proof fn lemma_set_rd(b: u8)
    by (bit_vector)
    ensures
        (b | 0x01) % 2 == 1,
        (b & 0xfe) % 2 == 0,
        (b | 0x01) / 2 == b / 2,
        (b & 0xfe) / 2 == b / 2,
{
}

/// What writing the low four bits of `n` into the opcode field does to a flags
/// byte.
proof fn lemma_set_opcode(b: u8, n: u8)
    by (bit_vector)
    ensures
        ((b & 0x87) | ((n & 0x0f) << 3)) % 8 == b % 8,
        (((b & 0x87) | ((n & 0x0f) << 3)) / 8) % 16 == n % 16,
        ((b & 0x87) | ((n & 0x0f) << 3)) / 128 == b / 128,
{
}

/// What writing the low four bits of `v` over the low four bits does to a
/// flags byte.
proof fn lemma_set_rcode(b: u8, v: u8)
    by (bit_vector)
    ensures
        ((b & 0xf0) | (v & 0x0f)) % 16 == v % 16,
        ((b & 0xf0) | (v & 0x0f)) / 16 == b / 16,
{
}

/// A DNS header: the twelve bytes with which every message begins.
///
/// Bytes 0 and 1 hold the id and bytes 2 and 3 the flags; bytes 4 to 11 hold
/// the numbers of questions, answers, name servers and additional records,
/// each as two bytes in network byte order. The first flags byte holds, from
/// its top bit down, QR, four bits of opcode, AA, TC and RD; the second holds
/// RA, three reserved bits and four bits of response code.
#[derive(Debug, Clone, Copy)]
pub struct Header {
    bytes: [u8; 12],
}

impl View for Header {
    type V = Seq<u8>;

    /// The twelve bytes of the header.
    closed spec fn view(&self) -> Seq<u8> {
        self.bytes@
    }
}

impl Header {
    /// A header has twelve bytes.
    pub proof fn lemma_len(self)
        ensures
            self@.len() == HEADER_SIZE,
    {
    }

    /// The id: bytes 0 and 1.
    pub open spec fn spec_id(self) -> u16 {
        be16(self@[0], self@[1]) as u16
    }

    /// The kind: a response where the QR bit is set, and else a query.
    pub open spec fn spec_kind(self) -> HeaderKind {
        if qr_bit(self@[2]) {
            HeaderKind::Response
        } else {
            HeaderKind::Query
        }
    }

    /// The opcode that the four opcode bits stand for.
    pub open spec fn spec_opcode(self) -> OpCode {
        OpCode::spec_from_bits(opcode_bits(self@[2]))
    }

    /// The AA bit.
    pub open spec fn spec_authoritative_answer(self) -> bool {
        aa_bit(self@[2])
    }

    /// The TC bit.
    pub open spec fn spec_truncated(self) -> bool {
        tc_bit(self@[2])
    }

    /// The RD bit.
    pub open spec fn spec_recursion_desired(self) -> bool {
        rd_bit(self@[2])
    }

    /// The RA bit.
    pub open spec fn spec_recursion_available(self) -> bool {
        ra_bit(self@[3])
    }

    /// The response code that the four response code bits stand for.
    pub open spec fn spec_response_code(self) -> ResponseCode {
        ResponseCode::spec_from_u16(rcode_bits(self@[3]) as u16)
    }

    /// The number of questions: bytes 4 and 5.
    pub open spec fn spec_question_count(self) -> u16 {
        be16(self@[4], self@[5]) as u16
    }

    /// The number of answers: bytes 6 and 7.
    pub open spec fn spec_answer_count(self) -> u16 {
        be16(self@[6], self@[7]) as u16
    }

    /// The number of name server records: bytes 8 and 9.
    pub open spec fn spec_name_server_count(self) -> u16 {
        be16(self@[8], self@[9]) as u16
    }

    /// The number of additional records: bytes 10 and 11.
    pub open spec fn spec_additional_records_count(self) -> u16 {
        be16(self@[10], self@[11]) as u16
    }

    /// The header with the two bytes at `at` replaced by `v` in network byte
    /// order.
    pub open spec fn with_u16(self, at: int, v: u16) -> Seq<u8> {
        self@.update(at, be16_bytes(v as int)[0]).update(at + 1, be16_bytes(v as int)[1])
    }

    /// The header that holds the given twelve bytes.
    pub fn from_bytes(bytes: [u8; 12]) -> (header: Header)
        ensures
            header@ == bytes@,
    {
        Header { bytes }
    }

    /// The twelve bytes of the header.
    pub fn to_bytes(&self) -> (bytes: [u8; 12])
        ensures
            bytes@ == self@,
    {
        self.bytes
    }

    /// Reads the two bytes at `at` in network byte order.
    fn get_u16(&self, at: usize) -> (v: u16)
        requires
            at + 1 < 12,
        ensures
            v == be16(self@[at as int], self@[at + 1]),
    {
        (self.bytes[at] as u16) * 256 + (self.bytes[at + 1] as u16)
    }

    /// Writes `v` to the two bytes at `at` in network byte order.
    fn set_u16(&mut self, at: usize, v: u16)
        requires
            at + 1 < 12,
        ensures
            final(self)@ == old(self).with_u16(at as int, v),
            be16(final(self)@[at as int], final(self)@[at + 1]) == v,
    {
        self.bytes[at] = (v / 256) as u8;
        self.bytes[at + 1] = (v % 256) as u8;
        assert(self@ =~= old(self).with_u16(at as int, v));
    }

    /// The id of the message.
    #[inline]
    pub fn id(&self) -> (id: u16)
        ensures
            id == self.spec_id(),
    {
        self.get_u16(0)
    }

    /// Sets the id and leaves every other byte of the header as it was.
    #[inline]
    pub fn set_id(&mut self, id: u16)
        ensures
            final(self)@ == old(self).with_u16(0, id),
            final(self).spec_id() == id,
    {
        self.set_u16(0, id)
    }

    /// Whether the message is a query or a response.
    #[inline]
    pub fn kind(&self) -> (kind: HeaderKind)
        ensures
            kind == self.spec_kind(),
    {
        proof {
            lemma_flags_read(self.bytes[2]);
        }
        if (self.bytes[2] & 0b10000000) == 0 {
            HeaderKind::Query
        } else {
            HeaderKind::Response
        }
    }

    /// Sets the QR bit and leaves every other bit of the header as it was.
    #[inline]
    pub fn set_kind(&mut self, kind: HeaderKind)
        ensures
            final(self)@ == old(self)@.update(2, final(self)@[2]),
            final(self).spec_kind() == kind,
            final(self)@[2] % 128 == old(self)@[2] % 128,
    {
        proof {
            lemma_set_qr(self.bytes[2]);
        }
        match kind {
            HeaderKind::Query => {
                self.bytes[2] = self.bytes[2] & 0b01111111;
            },
            HeaderKind::Response => {
                self.bytes[2] = self.bytes[2] | 0b10000000;
            },
        }
        assert(self@ =~= old(self)@.update(2, self@[2]));
    }

    /// The opcode of the message.
    #[inline]
    pub fn opcode(&self) -> (opcode: OpCode)
        ensures
            opcode == self.spec_opcode(),
    {
        proof {
            lemma_flags_read(self.bytes[2]);
        }
        match (self.bytes[2] & 0b01111000) >> 3 {
            0 => OpCode::Query,
            1 => OpCode::InverseQuery,
            2 => OpCode::Status,
            4 => OpCode::Notify,
            5 => OpCode::Update,
            n => OpCode::Reserved(n),
        }
    }

    /// Writes the low four bits of the opcode's number into the opcode field
    /// and leaves every other bit of the header as it was.
    #[inline]
    pub fn set_opcode(&mut self, opcode: OpCode)
        ensures
            final(self)@ == old(self)@.update(2, final(self)@[2]),
            opcode_bits(final(self)@[2]) == opcode.spec_bits() % 16,
            final(self).spec_opcode() == OpCode::spec_from_bits((opcode.spec_bits() % 16) as u8),
            final(self)@[2] % 8 == old(self)@[2] % 8,
            final(self)@[2] / 128 == old(self)@[2] / 128,
            final(self).spec_kind() == old(self).spec_kind(),
    {
        let n: u8 = match opcode {
            OpCode::Query => 0,
            OpCode::InverseQuery => 1,
            OpCode::Status => 2,
            OpCode::Notify => 4,
            OpCode::Update => 5,
            OpCode::Reserved(n) => n,
        };
        proof {
            lemma_set_opcode(self.bytes[2], n);
        }
        self.bytes[2] = (self.bytes[2] & 0b10000111) | ((n & 0b00001111) << 3);
        assert(self@ =~= old(self)@.update(2, self@[2]));
    }

    /// Whether the answer is authoritative.
    #[inline]
    pub fn authoritative_answer(&self) -> (aa: bool)
        ensures
            aa == self.spec_authoritative_answer(),
    {
        proof {
            lemma_flags_read(self.bytes[2]);
        }
        (self.bytes[2] & 0b00000100) != 0
    }

    /// Whether the message was truncated.
    #[inline]
    pub fn truncated(&self) -> (tc: bool)
        ensures
            tc == self.spec_truncated(),
    {
        proof {
            lemma_flags_read(self.bytes[2]);
        }
        (self.bytes[2] & 0b00000010) != 0
    }

    /// Whether recursion is desired.
    #[inline]
    pub fn recursion_desired(&self) -> (rd: bool)
        ensures
            rd == self.spec_recursion_desired(),
    {
        proof {
            lemma_flags_read(self.bytes[2]);
        }
        (self.bytes[2] & 0b00000001) != 0
    }

    /// Sets the RD bit and leaves every other bit of the header as it was.
    #[inline]
    pub fn set_recursion_desired(&mut self, recursion_desired: bool)
        ensures
            final(self)@ == old(self)@.update(2, final(self)@[2]),
            final(self).spec_recursion_desired() == recursion_desired,
            final(self)@[2] / 2 == old(self)@[2] / 2,
    {
        proof {
            lemma_set_rd(self.bytes[2]);
        }
        if recursion_desired {
            self.bytes[2] = self.bytes[2] | 0b00000001;
        } else {
            self.bytes[2] = self.bytes[2] & 0b11111110;
        }
        assert(self@ =~= old(self)@.update(2, self@[2]));
    }

    /// Whether recursion is available.
    #[inline]
    pub fn recursion_available(&self) -> (ra: bool)
        ensures
            ra == self.spec_recursion_available(),
    {
        proof {
            lemma_flags_read(self.bytes[3]);
        }
        (self.bytes[3] & 0b10000000) != 0
    }

    /// Sets the RA bit and leaves every other bit of the header as it was.
    #[inline]
    pub fn set_recursion_available(&mut self, recursion_available: bool)
        ensures
            final(self)@ == old(self)@.update(3, final(self)@[3]),
            final(self).spec_recursion_available() == recursion_available,
            final(self)@[3] % 128 == old(self)@[3] % 128,
    {
        proof {
            lemma_set_qr(self.bytes[3]);
        }
        if recursion_available {
            self.bytes[3] = self.bytes[3] | 0b10000000;
        } else {
            self.bytes[3] = self.bytes[3] & 0b01111111;
        }
        assert(self@ =~= old(self)@.update(3, self@[3]));
    }

    /// The response code of the message.
    #[inline]
    pub fn response_code(&self) -> (code: ResponseCode)
        ensures
            code == self.spec_response_code(),
    {
        proof {
            lemma_flags_read(self.bytes[3]);
        }
        ResponseCode::from((self.bytes[3] & 0b00001111) as u16)
    }

    /// Writes the low four bits of the code's number into the response code
    /// field and leaves every other bit of the header as it was.
    #[inline]
    pub fn set_response_code(&mut self, response_code: ResponseCode)
        ensures
            final(self)@ == old(self)@.update(3, final(self)@[3]),
            rcode_bits(final(self)@[3]) == response_code.spec_to_u16() % 16,
            final(self)@[3] / 16 == old(self)@[3] / 16,
            final(self).spec_response_code() == ResponseCode::spec_from_u16(
                (response_code.spec_to_u16() % 16) as u16,
            ),
            final(self).spec_recursion_available() == old(self).spec_recursion_available(),
    {
        let code: u16 = u16::from(response_code);
        let low: u8 = (code % 256) as u8;
        proof {
            lemma_set_rcode(self.bytes[3], low);
        }
        self.bytes[3] = (self.bytes[3] & 0b11110000) | (low & 0b00001111);
        assert(self@ =~= old(self)@.update(3, self@[3]));
    }

    /// The number of questions that the header announces.
    #[inline]
    pub fn question_count(&self) -> (count: u16)
        ensures
            count == self.spec_question_count(),
    {
        self.get_u16(4)
    }

    /// Sets the number of questions.
    ///
    /// It is the caller's responsibility to ensure that the message this
    /// header is installed in holds that many questions.
    #[inline]
    pub fn set_question_count(&mut self, question_count: u16)
        ensures
            final(self)@ == old(self).with_u16(4, question_count),
            final(self).spec_question_count() == question_count,
    {
        self.set_u16(4, question_count)
    }

    /// The number of answers that the header announces.
    #[inline]
    pub fn answer_count(&self) -> (count: u16)
        ensures
            count == self.spec_answer_count(),
    {
        self.get_u16(6)
    }

    /// Sets the number of answers.
    ///
    /// It is the caller's responsibility to ensure that the message this
    /// header is installed in holds that many answers.
    #[inline]
    pub fn set_answer_count(&mut self, answer_count: u16)
        ensures
            final(self)@ == old(self).with_u16(6, answer_count),
            final(self).spec_answer_count() == answer_count,
    {
        self.set_u16(6, answer_count)
    }

    /// The number of name server records that the header announces.
    #[inline]
    pub fn name_server_count(&self) -> (count: u16)
        ensures
            count == self.spec_name_server_count(),
    {
        self.get_u16(8)
    }

    /// Sets the number of name server records.
    ///
    /// It is the caller's responsibility to ensure that the message this
    /// header is installed in holds that many name server records.
    #[inline]
    pub fn set_name_server_count(&mut self, name_server_count: u16)
        ensures
            final(self)@ == old(self).with_u16(8, name_server_count),
            final(self).spec_name_server_count() == name_server_count,
    {
        self.set_u16(8, name_server_count)
    }

    /// The number of additional records that the header announces.
    #[inline]
    pub fn additional_records_count(&self) -> (count: u16)
        ensures
            count == self.spec_additional_records_count(),
    {
        self.get_u16(10)
    }

    /// Sets the number of additional records.
    ///
    /// It is the caller's responsibility to ensure that the message this
    /// header is installed in holds that many additional records.
    #[inline]
    pub fn set_additional_records_count(&mut self, additional_records_count: u16)
        ensures
            final(self)@ == old(self).with_u16(10, additional_records_count),
            final(self).spec_additional_records_count() == additional_records_count,
    {
        self.set_u16(10, additional_records_count)
    }

    /// A builder that starts from the header of twelve zero bytes.
    #[inline]
    pub fn builder() -> (builder: HeaderBuilder)
        ensures
            builder@@ == zero_header(),
    {
        HeaderBuilder::new()
    }
}

/// Twelve zero bytes.
pub open spec fn zero_header() -> Seq<u8> {
    Seq::new(HEADER_SIZE as nat, |i: int| 0u8)
}

/// Builder for [`Header`].
#[derive(Debug)]
pub struct HeaderBuilder(Header);

impl View for HeaderBuilder {
    type V = Header;

    /// The header built so far.
    closed spec fn view(&self) -> Header {
        self.0
    }
}

impl Default for HeaderBuilder {
    /// A builder that starts from the header of twelve zero bytes.
    fn default() -> (builder: HeaderBuilder)
        ensures
            builder@@ == zero_header(),
    {
        let builder = HeaderBuilder(Header { bytes: [0, 0, 0, 0, 0, 0, 0, 0, 0, 0, 0, 0] });
        assert(builder@@ =~= zero_header());
        builder
    }
}

impl HeaderBuilder {
    /// A builder that starts from the header of twelve zero bytes.
    #[inline]
    pub fn new() -> (builder: HeaderBuilder)
        ensures
            builder@@ == zero_header(),
    {
        let builder = HeaderBuilder(Header { bytes: [0, 0, 0, 0, 0, 0, 0, 0, 0, 0, 0, 0] });
        assert(builder@@ =~= zero_header());
        builder
    }

    /// Sets the id.
    pub fn id(self, id: u16) -> (builder: HeaderBuilder)
        ensures
            builder@@ == self@.with_u16(0, id),
            builder@.spec_id() == id,
    {
        let mut builder = self;
        builder.0.set_id(id);
        builder
    }

    /// Sets the QR bit.
    pub fn kind(self, kind: HeaderKind) -> (builder: HeaderBuilder)
        ensures
            builder@@ == self@@.update(2, builder@@[2]),
            builder@.spec_kind() == kind,
            builder@@[2] % 128 == self@@[2] % 128,
    {
        let mut builder = self;
        builder.0.set_kind(kind);
        builder
    }

    /// Sets the RD bit.
    pub fn recursion_desired(self, recursion_desired: bool) -> (builder: HeaderBuilder)
        ensures
            builder@@ == self@@.update(2, builder@@[2]),
            builder@.spec_recursion_desired() == recursion_desired,
            builder@@[2] / 2 == self@@[2] / 2,
    {
        let mut builder = self;
        builder.0.set_recursion_desired(recursion_desired);
        builder
    }

    /// Sets the RA bit.
    pub fn recursion_available(self, recursion_available: bool) -> (builder: HeaderBuilder)
        ensures
            builder@@ == self@@.update(3, builder@@[3]),
            builder@.spec_recursion_available() == recursion_available,
            builder@@[3] % 128 == self@@[3] % 128,
    {
        let mut builder = self;
        builder.0.set_recursion_available(recursion_available);
        builder
    }

    /// Writes the response code, as [`Header::set_response_code`] does.
    pub fn response_code(self, response_code: ResponseCode) -> (builder: HeaderBuilder)
        ensures
            builder@@ == self@@.update(3, builder@@[3]),
            rcode_bits(builder@@[3]) == response_code.spec_to_u16() % 16,
            builder@@[3] / 16 == self@@[3] / 16,
            builder@.spec_response_code() == ResponseCode::spec_from_u16(
                (response_code.spec_to_u16() % 16) as u16,
            ),
    {
        let mut builder = self;
        builder.0.set_response_code(response_code);
        builder
    }

    /// The header built.
    pub fn build(self) -> (header: Header)
        ensures
            header == self@,
    {
        self.0
    }
}

} // verus!
