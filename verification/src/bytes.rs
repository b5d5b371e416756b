//! Small byte-level helpers shared by the codecs.

use vstd::prelude::*;
use crate::error::Error;
use crate::wire::{ascii_lower, be16, be16_bytes, be32, be32_bytes, eq_ignore_case, u16_at, u32_at};

verus! {

/// Reads two bytes in network byte order.
pub fn u16_from_be(hi: u8, lo: u8) -> (v: u16)
    ensures
        v == be16(hi, lo),
{
    (hi as u16) * 256 + (lo as u16)
}

/// Writes a number as two bytes in network byte order.
pub fn u16_to_be(v: u16) -> (bytes: [u8; 2])
    ensures
        bytes@ == be16_bytes(v as int),
{
    let bytes = [(v / 256) as u8, (v % 256) as u8];
    assert(bytes@ =~= be16_bytes(v as int));
    bytes
}

/// Whether two byte strings are equal up to the case of ASCII letters.
pub fn eq_ignore_ascii_case(a: &[u8], b: &[u8]) -> (equal: bool)
    ensures
        equal == eq_ignore_case(a@, b@),
{
    if a.len() != b.len() {
        return false;
    }
    let mut i: usize = 0;
    while i < a.len()
        invariant
            i <= a.len(),
            a.len() == b.len(),
            forall|j: int| 0 <= j < i ==> ascii_lower(#[trigger] a@[j]) == ascii_lower(b@[j]),
        decreases a.len() - i,
    {
        let x = a[i];
        let y = b[i];
        let lx = if 65 <= x && x <= 90 { x + 32 } else { x };
        let ly = if 65 <= y && y <= 90 { y + 32 } else { y };
        if lx != ly {
            return false;
        }
        i += 1;
    }
    true
}

/// Reads four bytes in network byte order.
pub fn u32_from_be(b0: u8, b1: u8, b2: u8, b3: u8) -> (v: u32)
    ensures
        v == be32(b0, b1, b2, b3),
{
    (((b0 as u32) * 256 + (b1 as u32)) * 256 + (b2 as u32)) * 256 + (b3 as u32)
}

/// Writes a number as four bytes in network byte order.
pub fn u32_to_be(v: u32) -> (bytes: [u8; 4])
    ensures
        bytes@ == be32_bytes(v as int),
{
    let bytes = [
        (v / 16777216) as u8,
        ((v / 65536) % 256) as u8,
        ((v / 256) % 256) as u8,
        (v % 256) as u8,
    ];
    assert(bytes@ =~= be32_bytes(v as int));
    bytes
}

/// Reads the 16-bit number at offset `*i` of `buf` and moves `*i` behind it.
///
/// Fails with `MessageTooShort`, and leaves `*i` as it was, where fewer than
/// two bytes are left.
pub fn read_u16(buf: &[u8], i: &mut usize) -> (r: Result<u16, Error>)
    ensures
        match u16_at(buf@, *old(i) as int) {
            Ok(v) => r == Ok::<u16, Error>(v as u16) && *final(i) == *old(i) + 2,
            Err(e) => r == Err::<u16, Error>(e) && *final(i) == *old(i),
        },
{
    let at = *i;
    if buf.len() >= 2 && at <= buf.len() - 2 {
        let v = u16_from_be(buf[at], buf[at + 1]);
        *i = at + 2;
        Ok(v)
    } else {
        Err(Error::MessageTooShort)
    }
}

/// Reads the 32-bit number at offset `*i` of `buf` and moves `*i` behind it.
///
/// Fails with `MessageTooShort`, and leaves `*i` as it was, where fewer than
/// four bytes are left.
pub fn read_u32(buf: &[u8], i: &mut usize) -> (r: Result<u32, Error>)
    ensures
        match u32_at(buf@, *old(i) as int) {
            Ok(v) => r == Ok::<u32, Error>(v as u32) && *final(i) == *old(i) + 4,
            Err(e) => r == Err::<u32, Error>(e) && *final(i) == *old(i),
        },
{
    let at = *i;
    if buf.len() >= 4 && at <= buf.len() - 4 {
        let v = u32_from_be(buf[at], buf[at + 1], buf[at + 2], buf[at + 3]);
        *i = at + 4;
        Ok(v)
    } else {
        Err(Error::MessageTooShort)
    }
}

/// Appends `bytes` to `out`.
pub fn push_all(out: &mut Vec<u8>, bytes: &[u8])
    ensures
        final(out)@ == old(out)@ + bytes@,
{
    let mut i: usize = 0;
    while i < bytes.len()
        invariant
            i <= bytes.len(),
            out@ == old(out)@ + bytes@.take(i as int),
        decreases bytes.len() - i,
    {
        out.push(bytes[i]);
        i += 1;
        assert(bytes@.take(i as int) =~= bytes@.take(i - 1).push(bytes@[i - 1]));
        assert(out@ =~= old(out)@ + bytes@.take(i as int));
    }
    assert(bytes@.take(bytes@.len() as int) =~= bytes@);
}

} // verus!
