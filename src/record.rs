//! Fixed-width records: a truncated SHA-1 hash rebuilt from a shard key and
//! the hex digits of an upstream line.
//!
//! A shard key holds the first five hex digits (20 bits) of a hash; an
//! upstream line holds the remaining digits. The first sixteen digits of the
//! hash, packed two to a byte, give its first eight bytes. A record of width
//! `w` is the last `w` of those eight bytes: the canonical record is 6 bytes
//! wide (bytes 2 to 7 of the hash), the wider form 8 bytes (bytes 0 to 7).

use crate::hex::{hex_of, hex_to_nibble, is_hex_digit, nibble_of};
use vstd::prelude::*;

verus! {

/// The width in bytes of a stored record.
pub const RECORD_SIZE: usize = 6;

/// The number of hex digits that an upstream line must start with for a
/// record to be built from it.
pub const LINE_DIGITS: usize = 11;

/// `line` starts with the hex digits that a record is built from.
pub open spec fn is_record_line(line: Seq<u8>) -> bool {
    line.len() >= LINE_DIGITS && forall|i: int| 0 <= i < LINE_DIGITS ==> #[trigger] is_hex_digit(line[i])
}

/// The values of the first sixteen hex digits of a hash: the five digits of
/// its shard key, then the first eleven digits of its line.
pub open spec fn hash_nibbles(prefix: u32, line: Seq<u8>) -> Seq<u8> {
    (hex_of(prefix) + line.subrange(0, LINE_DIGITS as int)).map_values(|c: u8| nibble_of(c))
}

/// Packs nibbles two to a byte, the first of each pair in the high half.
pub open spec fn pack_nibbles(ns: Seq<u8>) -> Seq<u8> {
    Seq::new(ns.len() / 2, |i: int| (ns[2 * i] * 16 + ns[2 * i + 1]) as u8)
}

/// The record of width `width` (at most 8 bytes) for a shard key and a line:
/// the last `width` bytes of the hash's first eight.
pub open spec fn truncated_record(prefix: u32, line: Seq<u8>, width: nat) -> Seq<u8> {
    pack_nibbles(hash_nibbles(prefix, line).subrange(16 - 2 * width, 16))
}

/// The canonical 6-byte record.
pub open spec fn record_of(prefix: u32, line: Seq<u8>) -> Seq<u8> {
    truncated_record(prefix, line, RECORD_SIZE as nat)
}

/// Two nibbles packed into a byte by shift and or: the same byte as
/// `hi * 16 + lo`.
proof fn lemma_pack_byte(hi: u8, lo: u8)
    requires
        hi < 16,
        lo < 16,
    ensures
        (hi << 4u8) | lo == (hi * 16 + lo) as u8,
{
    assert((hi << 4u8) | lo == (hi * 16 + lo) as u8) by (bit_vector)
        requires
            hi < 16,
            lo < 16,
    ;
}

/// The first sixteen nibbles of the hash for a shard key and a line.
fn nibbles_of_line(prefix: u32, line: &[u8]) -> (r: [u8; 16])
    requires
        is_record_line(line@),
    ensures
        r@ == hash_nibbles(prefix, line@),
        forall|i: int| 0 <= i < 16 ==> #[trigger] r@[i] < 16,
{
    let mut r = [0u8;16];
    let key_hex = crate::hex::prefix_to_hex(prefix);
    let mut i: usize = 0;
    while i < 5
        invariant
            i <= 5,
            key_hex@ == hex_of(prefix),
            forall|j: int| 0 <= j < i ==> #[trigger] r@[j] == nibble_of(key_hex@[j]),
            forall|j: int| 0 <= j < i ==> #[trigger] r@[j] < 16,
        decreases 5 - i,
    {
        proof {
            crate::hex::lemma_hex_of_digits(prefix);
        }
        r[i] = hex_to_nibble(key_hex[i]);
        i = i + 1;
    }
    while i < 16
        invariant
            5 <= i <= 16,
            key_hex@ == hex_of(prefix),
            is_record_line(line@),
            forall|j: int| 0 <= j < 5 ==> #[trigger] r@[j] == nibble_of(key_hex@[j]),
            forall|j: int| 5 <= j < i ==> #[trigger] r@[j] == nibble_of(line@[j - 5]),
            forall|j: int| 0 <= j < i ==> #[trigger] r@[j] < 16,
        decreases 16 - i,
    {
        r[i] = hex_to_nibble(line[i - 5]);
        i = i + 1;
    }
    assert(r@ =~= hash_nibbles(prefix, line@));
    r
}

/// Packs the last `2 * N` of sixteen nibbles into `N` bytes.
fn pack_tail<const N: usize>(ns: &[u8; 16], out: &mut [u8; N])
    requires
        N <= 8,
        forall|i: int| 0 <= i < 16 ==> #[trigger] ns@[i] < 16,
    ensures
        final(out)@ == pack_nibbles(ns@.subrange(16 - 2 * N, 16)),
{
    let first: usize = 16 - 2 * N;
    let ghost tail = ns@.subrange(16 - 2 * N, 16);
    let mut i: usize = 0;
    while i < N
        invariant
            N <= 8,
            i <= N,
            first == 16 - 2 * N,
            tail == ns@.subrange(16 - 2 * N, 16),
            out@.len() == N,
            forall|j: int| 0 <= j < 16 ==> #[trigger] ns@[j] < 16,
            forall|j: int| 0 <= j < i ==> #[trigger] out@[j] == pack_nibbles(tail)[j],
        decreases N - i,
    {
        let hi = ns[first + 2 * i];
        let lo = ns[first + 2 * i + 1];
        proof {
            lemma_pack_byte(hi, lo);
        }
        out[i] = (hi << 4u8) | lo;
        i = i + 1;
    }
    assert(out@ =~= pack_nibbles(tail));
}

/// Builds the canonical 6-byte record (bytes 2 to 7 of the hash) from a
/// shard key and an upstream line; only the line's first eleven hex digits
/// are read.
pub fn line_to_sha1t48(prefix: u32, suffix_line: &[u8], out: &mut [u8; 6])
    requires
        is_record_line(suffix_line@),
    ensures
        final(out)@ == record_of(prefix, suffix_line@),
{
    let ns = nibbles_of_line(prefix, suffix_line);
    pack_tail(&ns, out);
}

/// Builds the 8-byte record (bytes 0 to 7 of the hash) from a shard key and
/// an upstream line; only the line's first eleven hex digits are read.
pub fn line_to_sha1t64(prefix: u32, suffix_line: &[u8], out: &mut [u8; 8])
    requires
        is_record_line(suffix_line@),
    ensures
        final(out)@ == truncated_record(prefix, suffix_line@, 8),
{
    let ns = nibbles_of_line(prefix, suffix_line);
    pack_tail(&ns, out);
}

} // verus!
