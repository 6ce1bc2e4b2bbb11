//! ASCII hexadecimal digits and their 4-bit values.

use vstd::prelude::*;

verus! {

/// The largest shard key: shard keys are 20-bit values.
pub const MAX_SHARD_KEY: u32 = 0xFFFFF;

/// The number of shard keys: 16^5.
pub const TOTAL_PREFIXES: u32 = 0x100000;

/// `c` is an ASCII hex digit: `0-9` (0x30-0x39), `A-F` (0x41-0x46) or
/// `a-f` (0x61-0x66).
pub open spec fn is_hex_digit(c: u8) -> bool {
    ||| 0x30 <= c <= 0x39
    ||| 0x41 <= c <= 0x46
    ||| 0x61 <= c <= 0x66
}

/// The value of the hex digit `c`.
pub open spec fn nibble_of(c: u8) -> u8
    recommends
        is_hex_digit(c),
{
    if c <= 0x39 {
        (c - 0x30) as u8
    } else if c <= 0x46 {
        (c - 0x41 + 10) as u8
    } else {
        (c - 0x61 + 10) as u8
    }
}

/// The uppercase hex digit for the value `n < 16`.
pub open spec fn hex_digit(n: u8) -> u8
    recommends
        n < 16,
{
    if n < 10 {
        (0x30 + n) as u8
    } else {
        (0x41 + n - 10) as u8
    }
}

/// The canonical text form of a shard key: five uppercase hex digits, most
/// significant first. Only the low 20 bits of `p` are rendered.
pub open spec fn hex_of(p: u32) -> Seq<u8> {
    seq![
        hex_digit(((p >> 16u32) & 0xF) as u8),
        hex_digit(((p >> 12u32) & 0xF) as u8),
        hex_digit(((p >> 8u32) & 0xF) as u8),
        hex_digit(((p >> 4u32) & 0xF) as u8),
        hex_digit((p & 0xF) as u8),
    ]
}

/// The number that five hex digits spell, most significant first.
pub open spec fn hex5_value(s: Seq<u8>) -> nat
    recommends
        s.len() == 5,
{
    nibble_of(s[0]) as nat * 0x10000 + nibble_of(s[1]) as nat * 0x1000 + nibble_of(s[2]) as nat
        * 0x100 + nibble_of(s[3]) as nat * 0x10 + nibble_of(s[4]) as nat
}

/// What a shard file's stem decodes to: a key when it is exactly five hex
/// digits (of either case), nothing otherwise.
pub open spec fn decode_shard_key(s: Seq<u8>) -> Option<u32> {
    if s.len() == 5 && (forall|i: int| 0 <= i < 5 ==> #[trigger] is_hex_digit(s[i])) {
        Some(hex5_value(s) as u32)
    } else {
        None
    }
}

/// Converts an ASCII hex digit to its value.
pub fn hex_to_nibble(c: u8) -> (r: u8)
    requires
        is_hex_digit(c),
    ensures
        r == nibble_of(c),
        r < 16,
{
    if c <= 0x39 {
        c - 0x30
    } else if c <= 0x46 {
        c - 0x41 + 10
    } else {
        c - 0x61 + 10
    }
}

/// Converts a value below 16 to its uppercase hex digit.
fn nibble_to_hex(n: u8) -> (r: u8)
    requires
        n < 16,
    ensures
        r == hex_digit(n),
{
    if n < 10 {
        0x30 + n
    } else {
        0x41 + n - 10
    }
}

/// Each of the five digit positions of a shard key holds a value below 16.
proof fn lemma_nibbles_in_range(p: u32)
    ensures
        (p >> 16u32) & 0xF < 16,
        (p >> 12u32) & 0xF < 16,
        (p >> 8u32) & 0xF < 16,
        (p >> 4u32) & 0xF < 16,
        p & 0xF < 16,
{
    assert((p >> 16u32) & 0xF < 16) by (bit_vector);
    assert((p >> 12u32) & 0xF < 16) by (bit_vector);
    assert((p >> 8u32) & 0xF < 16) by (bit_vector);
    assert((p >> 4u32) & 0xF < 16) by (bit_vector);
    assert(p & 0xF < 16) by (bit_vector);
}

/// Renders the low 20 bits of `prefix` as five uppercase hex digits.
pub fn prefix_to_hex(prefix: u32) -> (r: [u8; 5])
    ensures
        r@ == hex_of(prefix),
{
    proof {
        lemma_nibbles_in_range(prefix);
    }
    let r = [
        nibble_to_hex(((prefix >> 16u32) & 0xF) as u8),
        nibble_to_hex(((prefix >> 12u32) & 0xF) as u8),
        nibble_to_hex(((prefix >> 8u32) & 0xF) as u8),
        nibble_to_hex(((prefix >> 4u32) & 0xF) as u8),
        nibble_to_hex((prefix & 0xF) as u8),
    ];
    assert(r@ =~= hex_of(prefix));
    r
}

/// Parses a shard file stem: exactly five hex digits, of either case.
pub fn decode_shard_key_hex(text: &[u8]) -> (r: Option<u32>)
    ensures
        r == decode_shard_key(text@),
        r matches Some(k) ==> k <= MAX_SHARD_KEY,
{
    if text.len() != 5 {
        return None;
    }
    let mut i: usize = 0;
    while i < 5
        invariant
            text@.len() == 5,
            i <= 5,
            forall|j: int| 0 <= j < i ==> #[trigger] is_hex_digit(text@[j]),
        decreases 5 - i,
    {
        if !is_hex_byte(text[i]) {
            return None;
        }
        i = i + 1;
    }
    let value = hex_to_nibble(text[0]) as u32 * 0x10000 + hex_to_nibble(text[1]) as u32 * 0x1000
        + hex_to_nibble(text[2]) as u32 * 0x100 + hex_to_nibble(text[3]) as u32 * 0x10
        + hex_to_nibble(text[4]) as u32;
    Some(value)
}

/// Tells whether `c` is an ASCII hex digit.
pub fn is_hex_byte(c: u8) -> (r: bool)
    ensures
        r == is_hex_digit(c),
{
    (0x30 <= c && c <= 0x39) || (0x41 <= c && c <= 0x46) || (0x61 <= c && c <= 0x66)
}

/// The text form of a shard key is five hex digits, whose values are the
/// key's five nibbles.
pub proof fn lemma_hex_of_digits(p: u32)
    ensures
        hex_of(p).len() == 5,
        forall|i: int| 0 <= i < 5 ==> #[trigger] is_hex_digit(hex_of(p)[i]),
        nibble_of(hex_of(p)[0]) == (p >> 16u32) & 0xF,
        nibble_of(hex_of(p)[1]) == (p >> 12u32) & 0xF,
        nibble_of(hex_of(p)[2]) == (p >> 8u32) & 0xF,
        nibble_of(hex_of(p)[3]) == (p >> 4u32) & 0xF,
        nibble_of(hex_of(p)[4]) == p & 0xF,
{
    lemma_nibbles_in_range(p);
}

/// Every shard key survives a trip through its text form: rendering it as
/// five hex digits and decoding those digits gives the key back.
pub proof fn lemma_shard_key_round_trip(p: u32)
    requires
        p <= MAX_SHARD_KEY,
    ensures
        decode_shard_key(hex_of(p)) == Some(p),
{
    lemma_hex_of_digits(p);
    assert(((p >> 16u32) & 0xF) * 0x10000 + ((p >> 12u32) & 0xF) * 0x1000 + ((p >> 8u32) & 0xF)
        * 0x100 + ((p >> 4u32) & 0xF) * 0x10 + (p & 0xF) == p) by (bit_vector)
        requires
            p <= 0xFFFFF,
    ;
}

} // verus!
