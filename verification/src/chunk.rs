//! Arithmetic of the pack-file chunk format.
//!
//! A pack file is a 16-byte header followed by chunks at 16-byte
//! aligned offsets.  Each chunk starts with two big-endian 64-bit
//! fields, `end` (total chunk length minus 16) and `extra_len` (the
//! length of an opaque extra header), followed by the extra header
//! and an LZ4-compressed payload of `end - extra_len - 16` bytes.
//! Reading the file is the caller's concern; the field decoding and
//! the offset computations live here.

use vstd::prelude::*;

verus! {

/// The big-endian value of a byte sequence.
pub open spec fn be_spec(s: Seq<u8>) -> int
    decreases s.len(),
{
    if s.len() == 0 {
        0
    } else {
        be_spec(s.drop_last()) * 256 + s.last()
    }
}

/// Decodes a big-endian 64-bit field from its eight bytes.
pub fn be_u64(b0: u8, b1: u8, b2: u8, b3: u8, b4: u8, b5: u8, b6: u8, b7: u8) -> (r: u64)
    ensures
        r as int == be_spec(seq![b0, b1, b2, b3, b4, b5, b6, b7]),
{
    let r: u64 = (b0 as u64) * 0x100000000000000 + (b1 as u64) * 0x1000000000000 + (b2 as u64)
        * 0x10000000000 + (b3 as u64) * 0x100000000 + (b4 as u64) * 0x1000000 + (b5 as u64)
        * 0x10000 + (b6 as u64) * 0x100 + (b7 as u64);
    proof {
        let s = seq![b0, b1, b2, b3, b4, b5, b6, b7];
        reveal_with_fuel(be_spec, 9);
        assert(s.drop_last() =~= seq![b0, b1, b2, b3, b4, b5, b6]);
        assert(s.drop_last().drop_last() =~= seq![b0, b1, b2, b3, b4, b5]);
        assert(s.drop_last().drop_last().drop_last() =~= seq![b0, b1, b2, b3, b4]);
        assert(s.drop_last().drop_last().drop_last().drop_last() =~= seq![b0, b1, b2, b3]);
        assert(s.drop_last().drop_last().drop_last().drop_last().drop_last() =~= seq![
            b0,
            b1,
            b2,
        ]);
        assert(s.drop_last().drop_last().drop_last().drop_last().drop_last().drop_last() =~= seq![
            b0,
            b1,
        ]);
        assert(s.drop_last().drop_last().drop_last().drop_last().drop_last().drop_last().drop_last()
            =~= seq![b0]);
        assert(seq![b0].drop_last() =~= Seq::<u8>::empty());
    }
    r
}

/// The next multiple of 16 at or above `x`.
pub open spec fn round16(x: int) -> int {
    ((x + 15) / 16) * 16
}

/// Rounds a file offset up to the next 16-byte alignment boundary.
pub fn round_up(x: u64) -> (r: u64)
    requires
        x as int + 15 <= u64::MAX as int,
    ensures
        r as int == round16(x as int),
        r % 16 == 0,
        x <= r < x + 16,
{
    let rem: u64 = x % 16;
    let r: u64 = if rem == 0 {
        x
    } else {
        x + (16 - rem)
    };
    proof {
        vstd::arithmetic::div_mod::lemma_fundamental_div_mod(x as int, 16);
        if rem == 0 {
            vstd::arithmetic::div_mod::lemma_fundamental_div_mod_converse(
                x as int + 15,
                16,
                x as int / 16,
                15,
            );
        } else {
            vstd::arithmetic::div_mod::lemma_fundamental_div_mod_converse(
                x as int + 15,
                16,
                x as int / 16 + 1,
                (rem - 1) as int,
            );
            vstd::arithmetic::div_mod::lemma_fundamental_div_mod_converse(
                r as int,
                16,
                x as int / 16 + 1,
                0,
            );
        }
    }
    r
}

/// The length of a chunk's compressed payload, per the header
/// fields: `end - extra_len - 16`.  `None` exactly when the header
/// is malformed (the chunk would not have room for its own fields).
pub fn payload_len(end: u64, extra_len: u64) -> (r: Option<u64>)
    ensures
        r is Some <==> extra_len as int + 16 <= end as int,
        r is Some ==> r->0 as int == end as int - extra_len as int - 16,
{
    if extra_len <= u64::MAX - 16 && end >= extra_len + 16 {
        Option::Some(end - extra_len - 16)
    } else {
        Option::None
    }
}

/// The file offset of the chunk after the current one: the payload's
/// start plus its length, rounded up to the next 16-byte boundary.
/// `None` exactly when the header is malformed or the offset would
/// not fit in 64 bits.
pub fn next_chunk_offset(payload_start: u64, end: u64, extra_len: u64) -> (r: Option<u64>)
    ensures
        r is Some <==> (extra_len as int + 16 <= end as int && payload_start as int + (
        end as int - extra_len as int - 16) + 15 <= u64::MAX as int),
        r is Some ==> r->0 as int == round16(
            payload_start as int + (end as int - extra_len as int - 16),
        ),
{
    match payload_len(end, extra_len) {
        Option::None => Option::None,
        Option::Some(len) => {
            if payload_start <= u64::MAX - 15 && len <= (u64::MAX - 15) - payload_start {
                Option::Some(round_up(payload_start + len))
            } else {
                Option::None
            }
        },
    }
}

} // verus!
