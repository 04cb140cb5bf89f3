//! Variable-length integer codec for signed 64-bit values: a zigzag
//! mapping onto unsigned values followed by a base-128 prefix-free
//! byte encoding, so that small magnitudes take few bytes. Log records
//! and on-disk structures carry their lengths in this encoding.

use vstd::prelude::*;
use crate::DbErr;

verus! {

/// Zigzag image of a signed value: non-negative values map to the even
/// numbers, negative values to the odd ones.
pub open spec fn zig(v: int) -> nat {
    if v >= 0 {
        (2 * v) as nat
    } else {
        (-2 * v - 1) as nat
    }
}

/// Inverse of the zigzag mapping.
pub open spec fn unzig(z: nat) -> int {
    if z % 2 == 0 {
        (z / 2) as int
    } else {
        -((z + 1) / 2)
    }
}

pub proof fn lemma_zig_unzig(v: int)
    ensures
        unzig(zig(v)) == v,
{
}

/// Bound of the zigzag image over the 64-bit signed range.
pub proof fn lemma_zig_bound(v: int)
    requires
        i64::MIN <= v <= i64::MAX,
    ensures
        zig(v) <= u64::MAX,
{
}

/// Base-128 encoding of an unsigned value, low digits first; every byte
/// but the last has its high bit set.
pub open spec fn vli_enc(x: nat) -> Seq<u8>
    decreases x,
{
    if x < 128 {
        seq![x as u8]
    } else {
        seq![((x % 128) + 128) as u8] + vli_enc(x / 128)
    }
}

/// The full byte encoding of a signed value.
pub open spec fn vli_seq(v: int) -> Seq<u8> {
    vli_enc(zig(v))
}

/// Reads one base-128 value from the front of `s`: the value and the
/// count of bytes consumed, or nothing when `s` is truncated.
pub open spec fn vli_parse(s: Seq<u8>) -> Option<(nat, int)>
    decreases s.len(),
{
    if s.len() == 0 {
        None
    } else if s[0] < 128 {
        Some((s[0] as nat, 1))
    } else {
        match vli_parse(s.skip(1)) {
            None => None,
            Some((v, n)) => Some((((s[0] - 128) as nat + 128 * v) as nat, n + 1)),
        }
    }
}

/// Reads one signed value from the front of `s`: `None` on truncation
/// or when the unsigned image exceeds the 64-bit range.
pub open spec fn vli_parse_i64(s: Seq<u8>) -> Option<(int, int)> {
    match vli_parse(s) {
        None => None,
        Some((z, n)) => if z <= u64::MAX {
            Some((unzig(z), n))
        } else {
            None
        },
    }
}

/// An encoding at the front of any stream parses back to the value that
/// was encoded, consuming exactly the encoding.
pub proof fn lemma_vli_parse_enc(x: nat, rest: Seq<u8>)
    ensures
        vli_parse(vli_enc(x) + rest) == Some((x, vli_enc(x).len() as int)),
    decreases x,
{
    let s = vli_enc(x) + rest;
    if x < 128 {
        assert(s[0] == x as u8);
    } else {
        let b: u8 = ((x % 128) + 128) as u8;
        assert(s[0] == b);
        assert(s.skip(1) =~= vli_enc(x / 128) + rest);
        lemma_vli_parse_enc(x / 128, rest);
        assert((b - 128) as nat + 128 * (x / 128) == x) by {
            assert(x == 128 * (x / 128) + x % 128) by (nonlinear_arith);
        }
    }
}

/// The signed round trip: over the whole 64-bit signed range, the
/// encoding of `v` at the front of any stream parses back to exactly
/// `v`, consuming exactly the encoding.
pub proof fn lemma_vli_round_trip(v: int, rest: Seq<u8>)
    requires
        i64::MIN <= v <= i64::MAX,
    ensures
        vli_parse_i64(vli_seq(v) + rest) == Some((v, vli_seq(v).len() as int)),
{
    lemma_zig_bound(v);
    lemma_zig_unzig(v);
    lemma_vli_parse_enc(zig(v), rest);
}

/// Maps a signed value onto its unsigned zigzag image.
fn zig_enc(v: i64) -> (z: u64)
    ensures
        z as nat == zig(v as int),
{
    if v >= 0 {
        (v as u64) * 2
    } else {
        let m: u64 = (-(v + 1)) as u64;
        m * 2 + 1
    }
}

/// Maps an unsigned zigzag image back onto the signed value.
fn zig_dec(z: u64) -> (v: i64)
    ensures
        v as int == unzig(z as nat),
{
    if z % 2 == 0 {
        (z / 2) as i64
    } else {
        let h: u64 = (z - 1) / 2;
        -(h as i64) - 1
    }
}

/// Appends the base-128 encoding of `x` to `buf`.
fn encode_raw(buf: &mut Vec<u8>, x: u64)
    ensures
        final(buf)@ == old(buf)@ + vli_enc(x as nat),
    decreases x,
{
    if x < 128 {
        buf.push(x as u8);
        assert(final(buf)@ =~= old(buf)@ + vli_enc(x as nat));
    } else {
        let b: u8 = ((x % 128) + 128) as u8;
        buf.push(b);
        encode_raw(buf, x / 128);
        assert(final(buf)@ =~= old(buf)@ + vli_enc(x as nat));
    }
}

/// Appends the encoding of the signed `value` to `buf`.
pub fn encode(buf: &mut Vec<u8>, value: i64)
    ensures
        final(buf)@ == old(buf)@ + vli_seq(value as int),
{
    let z = zig_enc(value);
    encode_raw(buf, z);
}

/// Reads one base-128 value from `buf` starting at `pos`.
fn decode_raw(buf: &Vec<u8>, pos: usize) -> (r: Result<(u64, usize), DbErr>)
    requires
        pos <= buf@.len(),
    ensures
        match r {
            Ok((x, end)) => {
                &&& vli_parse(buf@.skip(pos as int)) == Some((x as nat, end - pos))
                &&& pos < end <= buf@.len()
            },
            Err(e) => {
                &&& e == DbErr::Corruption
                &&& match vli_parse(buf@.skip(pos as int)) {
                    None => true,
                    Some((v, n)) => v > u64::MAX,
                }
            },
        },
    decreases buf@.len() - pos,
{
    let ghost s = buf@.skip(pos as int);
    if pos >= buf.len() {
        assert(s.len() == 0);
        return Err(DbErr::Corruption);
    }
    let b = buf[pos];
    assert(b == s[0]);
    if b < 128 {
        Ok((b as u64, pos + 1))
    } else {
        let low: u64 = (b - 128) as u64;
        match decode_raw(buf, pos + 1) {
            Err(e) => {
                assert(buf@.skip(pos as int + 1) =~= s.skip(1));
                Err(e)
            },
            Ok((v, end)) => {
                assert(buf@.skip(pos as int + 1) =~= s.skip(1));
                if v > (u64::MAX - low) / 128 {
                    assert((low as nat + 128 * (v as nat)) as nat > u64::MAX) by {
                        assert(v as nat >= (u64::MAX - low) as nat / 128 + 1);
                        assert(128 * (v as nat) >= 128 * ((u64::MAX - low) as nat / 128 + 1))
                            by (nonlinear_arith)
                            requires v as nat >= (u64::MAX - low) as nat / 128 + 1;
                        assert(128 * ((u64::MAX - low) as nat / 128) + 128
                            > (u64::MAX - low) as nat) by (nonlinear_arith);
                    }
                    Err(DbErr::Corruption)
                } else {
                    assert(low + 128 * v <= u64::MAX) by {
                        assert(v <= (u64::MAX - low) / 128);
                        assert(128 * (v as nat) <= 128 * ((u64::MAX - low) as nat / 128))
                            by (nonlinear_arith)
                            requires v as nat <= (u64::MAX - low) as nat / 128;
                        assert(128 * ((u64::MAX - low) as nat / 128) <= (u64::MAX - low) as nat)
                            by (nonlinear_arith);
                    }
                    Ok((low + 128 * v, end))
                }
            },
        }
    }
}

/// Reads one signed value from `buf` starting at `pos`, returning the
/// value and the position after it; fails with a corruption error on
/// truncated or out-of-range data.
pub fn decode(buf: &Vec<u8>, pos: usize) -> (r: Result<(i64, usize), DbErr>)
    requires
        pos <= buf@.len(),
    ensures
        match r {
            Ok((v, end)) => {
                &&& vli_parse_i64(buf@.skip(pos as int)) == Some((v as int, end - pos))
                &&& pos < end <= buf@.len()
            },
            Err(e) => {
                &&& e == DbErr::Corruption
                &&& vli_parse_i64(buf@.skip(pos as int)) is None
            },
        },
{
    match decode_raw(buf, pos) {
        Err(e) => Err(e),
        Ok((z, end)) => {
            let v = zig_dec(z);
            Ok((v, end))
        },
    }
}

} // verus!
