//! Byte-level model of the agent wire format.
//!
//! Everything on the wire is built from three shapes: fixed-width big-endian
//! integers, a single boolean octet, and length-prefixed byte strings
//! (`u32 BE length || bytes`). This module gives each shape a specification
//! (`be32_bytes`, `bool_byte`, `lp_bytes`, and the `take_*` readers over
//! abstract byte sequences) and verified executable readers and writers.
//! Readers return the value plus the advanced cursor, or `None` on short
//! input; writers check the remaining capacity. Nothing here panics.

use vstd::prelude::*;

use crate::errors::EncodeFault;
use vstd::utf8::{decode_utf8, valid_utf8};

verus! {

// ===================== specification: primitive shapes =====================

/// The big-endian value of four bytes.
pub open spec fn be32_val(b0: u8, b1: u8, b2: u8, b3: u8) -> u32 {
    ((b0 as u32) << 24) | ((b1 as u32) << 16) | ((b2 as u32) << 8) | (b3 as u32)
}

/// The four big-endian bytes of a 32-bit value.
pub open spec fn be32_bytes(n: u32) -> Seq<u8> {
    seq![(n >> 24) as u8, ((n >> 16) & 0xff) as u8, ((n >> 8) & 0xff) as u8, (n & 0xff) as u8]
}

/// The single octet carrying a boolean.
pub open spec fn bool_byte(v: bool) -> u8 {
    if v {
        1
    } else {
        0
    }
}

/// A length-prefixed byte string: `u32 BE length || bytes`.
pub open spec fn lp_bytes(b: Seq<u8>) -> Seq<u8>
    recommends
        b.len() <= u32::MAX,
{
    be32_bytes(b.len() as u32) + b
}

// ===================== specification: readers =====================

/// Read one byte; `None` when the input is empty.
pub open spec fn take_u8(s: Seq<u8>) -> Option<(u8, Seq<u8>)> {
    if s.len() >= 1 {
        Some((s[0], s.skip(1)))
    } else {
        None
    }
}

/// Read a big-endian `u32`; `None` on fewer than four bytes.
pub open spec fn take_u32(s: Seq<u8>) -> Option<(u32, Seq<u8>)> {
    if s.len() >= 4 {
        Some((be32_val(s[0], s[1], s[2], s[3]), s.skip(4)))
    } else {
        None
    }
}

/// Read a length-prefixed byte string; `None` when the length or the body is
/// incomplete.
pub open spec fn take_lp(s: Seq<u8>) -> Option<(Seq<u8>, Seq<u8>)> {
    match take_u32(s) {
        Some((n, r)) => if r.len() >= n {
            Some((r.take(n as int), r.skip(n as int)))
        } else {
            None
        },
        None => None,
    }
}

/// A byte count capped at the top of `usize`: what a length estimate reports
/// when the true length does not fit.
pub open spec fn capped(x: int) -> int {
    if x <= usize::MAX {
        x
    } else {
        usize::MAX as int
    }
}

/// Add two byte counts, capping at the top of `usize`: estimates never panic.
pub fn sat_add(a: usize, b: usize) -> (r: usize)
    ensures
        r == capped(a + b),
{
    if usize::MAX - a < b {
        usize::MAX
    } else {
        a + b
    }
}

// ===================== reader/writer agreement =====================

/// Reading four written big-endian bytes gives the value back.
pub proof fn lemma_be32_val_of_bytes(n: u32)
    ensures
        ({
            let b = be32_bytes(n);
            be32_val(b[0], b[1], b[2], b[3]) == n
        }),
{
    assert((((((n >> 24) as u8) as u32) << 24) | ((((((n >> 16) & 0xff)) as u8) as u32) << 16) | (
    (((((n >> 8) & 0xff)) as u8) as u32) << 8) | ((((n & 0xff)) as u8) as u32)) == n)
        by (bit_vector);
}

/// Writing a read big-endian value reproduces the four bytes.
pub proof fn lemma_be32_bytes_of_val(b0: u8, b1: u8, b2: u8, b3: u8)
    ensures
        be32_bytes(be32_val(b0, b1, b2, b3)) == seq![b0, b1, b2, b3],
{
    assert(((((b0 as u32) << 24) | ((b1 as u32) << 16) | ((b2 as u32) << 8) | (b3 as u32)) >> 24)
        as u8 == b0) by (bit_vector);
    assert((((((b0 as u32) << 24) | ((b1 as u32) << 16) | ((b2 as u32) << 8) | (b3 as u32)) >> 16)
        & 0xff) as u8 == b1) by (bit_vector);
    assert((((((b0 as u32) << 24) | ((b1 as u32) << 16) | ((b2 as u32) << 8) | (b3 as u32)) >> 8)
        & 0xff) as u8 == b2) by (bit_vector);
    assert(((((b0 as u32) << 24) | ((b1 as u32) << 16) | ((b2 as u32) << 8) | (b3 as u32)) & 0xff)
        as u8 == b3) by (bit_vector);
    assert(be32_bytes(be32_val(b0, b1, b2, b3)) =~= seq![b0, b1, b2, b3]);
}

/// `take_u32` undoes `be32_bytes`, leaving the rest untouched.
pub proof fn lemma_take_u32_of_be32(n: u32, rest: Seq<u8>)
    ensures
        take_u32(be32_bytes(n) + rest) == Some((n, rest)),
{
    let s = be32_bytes(n) + rest;
    lemma_be32_val_of_bytes(n);
    assert(s[0] == be32_bytes(n)[0]);
    assert(s[1] == be32_bytes(n)[1]);
    assert(s[2] == be32_bytes(n)[2]);
    assert(s[3] == be32_bytes(n)[3]);
    assert(s.skip(4) =~= rest);
}

/// A successful `take_u32` consumed exactly the four bytes it returns.
pub proof fn lemma_take_u32_faithful(s: Seq<u8>)
    requires
        take_u32(s) is Some,
    ensures
        ({
            let (n, r) = take_u32(s)->Some_0;
            s == be32_bytes(n) + r
        }),
{
    let (n, r) = take_u32(s)->Some_0;
    lemma_be32_bytes_of_val(s[0], s[1], s[2], s[3]);
    assert(s == be32_bytes(n) + r) by {
        assert(be32_bytes(n) + r =~= s);
    }
}

/// `take_lp` undoes `lp_bytes`, leaving the rest untouched.
pub proof fn lemma_take_lp_of_lp(b: Seq<u8>, rest: Seq<u8>)
    requires
        b.len() <= u32::MAX,
    ensures
        take_lp(lp_bytes(b) + rest) == Some((b, rest)),
{
    let n = b.len() as u32;
    assert(lp_bytes(b) + rest =~= be32_bytes(n) + (b + rest));
    lemma_take_u32_of_be32(n, b + rest);
    assert((b + rest).take(n as int) =~= b);
    assert((b + rest).skip(n as int) =~= rest);
}

/// A successful `take_lp` consumed exactly the encoding of what it returns.
pub proof fn lemma_take_lp_faithful(s: Seq<u8>)
    requires
        take_lp(s) is Some,
    ensures
        ({
            let (b, r) = take_lp(s)->Some_0;
            s == lp_bytes(b) + r && b.len() <= u32::MAX
        }),
{
    let (n, mid) = take_u32(s)->Some_0;
    let (b, r) = take_lp(s)->Some_0;
    lemma_take_u32_faithful(s);
    assert(b.len() == n as int);
    assert(lp_bytes(b) + r =~= be32_bytes(n) + mid);
}

// ===================== executable readers =====================

/// Read one byte at `pos`, returning the byte and the advanced cursor.
pub fn read_u8(buf: &Vec<u8>, pos: usize) -> (r: Option<(u8, usize)>)
    requires
        pos <= buf@.len(),
    ensures
        ({
            let t = take_u8(buf@.skip(pos as int));
            match r {
                Some((v, p2)) => pos <= p2 <= buf@.len() && t == Some(
                    (v, buf@.skip(p2 as int)),
                ),
                None => t is None,
            }
        }),
{
    if pos < buf.len() {
        let v = buf[pos];
        proof {
            assert(buf@.skip(pos as int)[0] == buf@[pos as int]);
            assert(buf@.skip(pos as int).skip(1) =~= buf@.skip(pos as int + 1));
        }
        Some((v, pos + 1))
    } else {
        None
    }
}

/// Read a big-endian `u32` at `pos`.
pub fn read_u32(buf: &Vec<u8>, pos: usize) -> (r: Option<(u32, usize)>)
    requires
        pos <= buf@.len(),
    ensures
        ({
            let t = take_u32(buf@.skip(pos as int));
            match r {
                Some((v, p2)) => pos <= p2 <= buf@.len() && t == Some(
                    (v, buf@.skip(p2 as int)),
                ),
                None => t is None,
            }
        }),
{
    if buf.len() - pos >= 4 {
        let b0 = buf[pos];
        let b1 = buf[pos + 1];
        let b2 = buf[pos + 2];
        let b3 = buf[pos + 3];
        let v = ((b0 as u32) << 24u32) | ((b1 as u32) << 16u32) | ((b2 as u32) << 8u32) | (
        b3 as u32);
        proof {
            let s = buf@.skip(pos as int);
            assert(s[0] == buf@[pos as int]);
            assert(s[1] == buf@[pos as int + 1]);
            assert(s[2] == buf@[pos as int + 2]);
            assert(s[3] == buf@[pos as int + 3]);
            assert(s.skip(4) =~= buf@.skip(pos as int + 4));
        }
        Some((v, pos + 4))
    } else {
        None
    }
}

/// Copy `n` bytes starting at `pos` into a fresh vector.
fn copy_range(buf: &Vec<u8>, pos: usize, n: usize) -> (r: Vec<u8>)
    requires
        pos + n <= buf@.len(),
    ensures
        r@ == buf@.subrange(pos as int, pos as int + n as int),
{
    let len = buf.len();
    let mut out: Vec<u8> = Vec::new();
    let mut i: usize = 0;
    while i < n
        invariant
            pos + n <= len == buf@.len(),
            i <= n,
            out@ == buf@.subrange(pos as int, pos as int + i as int),
        decreases n - i,
    {
        out.push(buf[pos + i]);
        proof {
            assert(buf@.subrange(pos as int, pos as int + i as int + 1) =~= buf@.subrange(
                pos as int,
                pos as int + i as int,
            ).push(buf@[pos as int + i as int]));
        }
        i = i + 1;
    }
    out
}

/// Read a length-prefixed byte string at `pos`.
pub fn read_lp(buf: &Vec<u8>, pos: usize) -> (r: Option<(Vec<u8>, usize)>)
    requires
        pos <= buf@.len(),
    ensures
        ({
            let t = take_lp(buf@.skip(pos as int));
            match r {
                Some((b, p2)) => pos <= p2 <= buf@.len() && t == Some(
                    (b@, buf@.skip(p2 as int)),
                ),
                None => t is None,
            }
        }),
{
    match read_u32(buf, pos) {
        None => None,
        Some((n, p1)) => {
            let n = n as usize;
            if buf.len() - p1 >= n {
                let body = copy_range(buf, p1, n);
                proof {
                    let s1 = buf@.skip(p1 as int);
                    assert(s1.take(n as int) =~= buf@.subrange(p1 as int, p1 as int + n as int));
                    assert(s1.skip(n as int) =~= buf@.skip(p1 as int + n as int));
                }
                Some((body, p1 + n))
            } else {
                None
            }
        },
    }
}

/// Copy exactly `n` bytes starting at `pos` into a fresh vector.
pub fn read_exact(buf: &Vec<u8>, pos: usize, n: usize) -> (r: Vec<u8>)
    requires
        pos + n <= buf@.len(),
    ensures
        r@ == buf@.subrange(pos as int, pos as int + n as int),
{
    copy_range(buf, pos, n)
}

/// Copy every byte from `pos` to the end into a fresh vector.
pub fn read_rest(buf: &Vec<u8>, pos: usize) -> (r: Vec<u8>)
    requires
        pos <= buf@.len(),
    ensures
        r@ == buf@.skip(pos as int),
{
    let r = copy_range(buf, pos, buf.len() - pos);
    proof {
        assert(buf@.subrange(pos as int, buf@.len() as int) =~= buf@.skip(pos as int));
    }
    r
}

/// Relies on `String::from_utf8`: it succeeds exactly on valid UTF-8 input
/// and returns the characters those bytes encode.
#[verifier::external_body]
pub fn string_from_utf8(v: Vec<u8>) -> (r: Option<String>)
    ensures
        r is Some <==> valid_utf8(v@),
        r is Some ==> r->Some_0@ == decode_utf8(v@),
{
    String::from_utf8(v).ok()
}

// ===================== executable writers =====================

/// Append one byte, refusing only a buffer that cannot grow.
pub fn put_u8(dst: &mut Vec<u8>, v: u8) -> (r: Result<(), EncodeFault>)
    ensures
        match r {
            Ok(()) => final(dst)@ == old(dst)@ + seq![v],
            Err(f) => f == EncodeFault::NoSpace && old(dst)@.len() == usize::MAX && final(dst)@ == old(
                dst,
            )@,
        },
{
    if dst.len() == usize::MAX {
        Err(EncodeFault::NoSpace)
    } else {
        dst.push(v);
        proof {
            assert(dst@ =~= old(dst)@ + seq![v]);
        }
        Ok(())
    }
}

/// Append a big-endian `u32`.
pub fn put_u32(dst: &mut Vec<u8>, n: u32) -> (r: Result<(), EncodeFault>)
    ensures
        match r {
            Ok(()) => final(dst)@ == old(dst)@ + be32_bytes(n),
            Err(f) => f == EncodeFault::NoSpace && old(dst)@.len() + 4 > usize::MAX && final(dst)@ == old(
                dst,
            )@,
        },
{
    if usize::MAX - dst.len() < 4 {
        Err(EncodeFault::NoSpace)
    } else {
        proof {
            assert(n >> 24 <= 0xff && (n >> 16) & 0xff <= 0xff && (n >> 8) & 0xff <= 0xff && n
                & 0xff <= 0xff) by (bit_vector);
        }
        dst.push((n >> 24u32) as u8);
        dst.push(((n >> 16u32) & 0xff) as u8);
        dst.push(((n >> 8u32) & 0xff) as u8);
        dst.push((n & 0xff) as u8);
        proof {
            assert(dst@ =~= old(dst)@ + be32_bytes(n));
        }
        Ok(())
    }
}

/// Append raw bytes.
pub fn put_bytes(dst: &mut Vec<u8>, src: &[u8]) -> (r: Result<(), EncodeFault>)
    ensures
        match r {
            Ok(()) => final(dst)@ == old(dst)@ + src@,
            Err(f) => f == EncodeFault::NoSpace && old(dst)@.len() + src@.len() > usize::MAX
                && final(dst)@ == old(dst)@,
        },
{
    if usize::MAX - dst.len() < src.len() {
        Err(EncodeFault::NoSpace)
    } else {
        dst.extend_from_slice(src);
        Ok(())
    }
}

/// Append a length-prefixed byte string; the length must fit its 32-bit field.
pub fn put_lp(dst: &mut Vec<u8>, b: &[u8]) -> (r: Result<(), EncodeFault>)
    ensures
        match r {
            Ok(()) => b@.len() <= u32::MAX && final(dst)@ == old(dst)@ + lp_bytes(b@),
            Err(f) => final(dst)@ == old(dst)@ && match f {
                EncodeFault::Oversize => b@.len() > u32::MAX,
                EncodeFault::NoSpace => old(dst)@.len() + 4 + b@.len() > usize::MAX,
            },
        },
{
    if b.len() > u32::MAX as usize {
        return Err(EncodeFault::Oversize);
    }
    if usize::MAX - dst.len() < 4 || (usize::MAX - dst.len()) - 4 < b.len() {
        return Err(EncodeFault::NoSpace);
    }
    let n = b.len() as u32;
    match put_u32(dst, n) {
        Ok(()) => {},
        Err(f) => {
            return Err(f);
        },
    }
    match put_bytes(dst, b) {
        Ok(()) => {},
        Err(f) => {
            return Err(f);
        },
    }
    proof {
        assert(dst@ =~= old(dst)@ + lp_bytes(b@));
    }
    Ok(())
}

/// Append the single octet of a boolean.
pub fn put_bool(dst: &mut Vec<u8>, v: bool) -> (r: Result<(), EncodeFault>)
    ensures
        match r {
            Ok(()) => final(dst)@ == old(dst)@ + seq![bool_byte(v)],
            Err(f) => f == EncodeFault::NoSpace && old(dst)@.len() == usize::MAX && final(dst)@ == old(
                dst,
            )@,
        },
{
    put_u8(dst, if v { 1 } else { 0 })
}

} // verus!
