//! Membership checks: a password's SHA-1 hash selects a shard file and the
//! record to look for, and a binary search over the shard's sorted records
//! decides whether the hash is present.

use crate::hex::{hex_digit, hex_of, nibble_of, MAX_SHARD_KEY};
use crate::record::{hash_nibbles, is_record_line, pack_nibbles, record_of, RECORD_SIZE};
use crate::store::{path_from_hex, shard_path_chars};
use sha1::{Digest, Sha1};
use vstd::prelude::*;
use vstd::string::StringSliceAdditionalSpecFns;

verus! {

/// The largest shard file that a lookup reads.
pub const MAX_SHARD_BYTES: usize = 16384;

/// The SHA-1 digest of `data` (20 bytes).
pub uninterp spec fn sha1_digest(data: Seq<u8>) -> Seq<u8>;

/// Relies on `sha1::Sha1` through `Digest::digest`: the SHA-1 digest of
/// `data`, which depends on `data` alone.
#[verifier::external_body]
fn sha1_hash(data: &[u8]) -> (r: [u8; 20])
    ensures
        r@ == sha1_digest(data@),
{
    Sha1::digest(data).into()
}

/// The shard key of a hash: its top 20 bits.
pub open spec fn shard_key_of_hash(h: Seq<u8>) -> u32 {
    (h[0] * 0x1000 + h[1] * 0x10 + h[2] / 16) as u32
}

/// The record to look for: bits 16 to 63 of the hash, that is bytes 2 to 7.
pub open spec fn search_key_of_hash(h: Seq<u8>) -> Seq<u8> {
    h.subrange(2, 8)
}

/// The number of whole records in the shard content `s`.
pub open spec fn record_count(s: Seq<u8>) -> int {
    s.len() as int / RECORD_SIZE as int
}

/// Record `i` of the shard content `s`.
pub open spec fn record_at(s: Seq<u8>, i: int) -> Seq<u8> {
    s.subrange(RECORD_SIZE * i, RECORD_SIZE * i + RECORD_SIZE)
}

/// The value of a 6-byte record read as an unsigned big-endian number; the
/// order of these values is the order of the records as byte strings.
pub open spec fn record_value(r: Seq<u8>) -> int {
    r[0] * 0x100_0000_0000 + r[1] * 0x1_0000_0000 + r[2] * 0x100_0000 + r[3] * 0x1_0000 + r[4]
        * 0x100 + r[5]
}

/// The shard content `s` holds its records in ascending order.
pub open spec fn is_sorted_shard(s: Seq<u8>) -> bool {
    forall|i: int, j: int|
        0 <= i < j < record_count(s) ==> record_value(#[trigger] record_at(s, i)) <= record_value(
            #[trigger] record_at(s, j),
        )
}

/// The shard content `s` holds the record `key`.
pub open spec fn shard_has(s: Seq<u8>, key: Seq<u8>) -> bool {
    exists|i: int| 0 <= i < record_count(s) && #[trigger] record_at(s, i) == key
}

/// Two 6-byte records with the same value are the same record.
proof fn lemma_record_value_injective(a: Seq<u8>, b: Seq<u8>)
    requires
        a.len() == 6,
        b.len() == 6,
        record_value(a) == record_value(b),
    ensures
        a == b,
{
    let (a0, a1, a2, a3, a4, a5) = (a[0], a[1], a[2], a[3], a[4], a[5]);
    let (b0, b1, b2, b3, b4, b5) = (b[0], b[1], b[2], b[3], b[4], b[5]);
    assert(a0 == b0 && a1 == b1 && a2 == b2 && a3 == b3 && a4 == b4 && a5 == b5) by (bit_vector)
        requires
            a0 as u64 * 0x100_0000_0000 + a1 as u64 * 0x1_0000_0000 + a2 as u64 * 0x100_0000
                + a3 as u64 * 0x1_0000 + a4 as u64 * 0x100 + a5 as u64 == b0 as u64
                * 0x100_0000_0000 + b1 as u64 * 0x1_0000_0000 + b2 as u64 * 0x100_0000 + b3 as u64
                * 0x1_0000 + b4 as u64 * 0x100 + b5 as u64,
    ;
    assert(a =~= b);
}

/// The value of record `i` of `shard`.
pub(crate) fn record_value_at(shard: &[u8], i: usize) -> (v: u64)
    requires
        RECORD_SIZE * i + RECORD_SIZE <= shard.len(),
    ensures
        v == record_value(record_at(shard@, i as int)),
{
    let o = RECORD_SIZE * i;
    shard[o] as u64 * 0x100_0000_0000 + shard[o + 1] as u64 * 0x1_0000_0000 + shard[o + 2] as u64
        * 0x100_0000 + shard[o + 3] as u64 * 0x1_0000 + shard[o + 4] as u64 * 0x100 + shard[o
        + 5] as u64
}

/// Binary search for `key` among the whole records of `shard`. A `true`
/// answer always names a stored record; on sorted content the answer is
/// exact.
pub fn contains_record(shard: &[u8], key: &[u8; 6]) -> (r: bool)
    ensures
        r ==> shard_has(shard@, key@),
        is_sorted_shard(shard@) ==> (r == shard_has(shard@, key@)),
{
    let n = shard.len() / RECORD_SIZE;
    let kv = key[0] as u64 * 0x100_0000_0000 + key[1] as u64 * 0x1_0000_0000 + key[2] as u64
        * 0x100_0000 + key[3] as u64 * 0x1_0000 + key[4] as u64 * 0x100 + key[5] as u64;
    assert(kv == record_value(key@));
    let mut lo: usize = 0;
    let mut hi: usize = n;
    while lo < hi
        invariant
            lo <= hi <= n,
            n == record_count(shard@),
            kv == record_value(key@),
            is_sorted_shard(shard@) ==> forall|i: int|
                0 <= i < lo ==> record_value(#[trigger] record_at(shard@, i)) < kv,
            is_sorted_shard(shard@) ==> forall|i: int|
                hi <= i < n ==> record_value(#[trigger] record_at(shard@, i)) > kv,
        decreases hi - lo,
    {
        let mid = lo + (hi - lo) / 2;
        let v = record_value_at(shard, mid);
        if v == kv {
            proof {
                lemma_record_value_injective(record_at(shard@, mid as int), key@);
            }
            return true;
        } else if v < kv {
            lo = mid + 1;
        } else {
            hi = mid;
        }
    }
    proof {
        if is_sorted_shard(shard@) && shard_has(shard@, key@) {
            let i = choose|i: int| 0 <= i < record_count(shard@) && #[trigger] record_at(shard@, i) == key@;
            assert(record_value(record_at(shard@, i)) == kv);
        }
    }
    false
}

/// Why a lookup could not decide.
#[derive(Debug, Clone, Copy, PartialEq, Eq, Structural)]
pub enum LookupError {
    /// The shard file is larger than a lookup reads: the dataset has grown
    /// past the bound, and answering from a prefix of it could miss records.
    ShardTooLarge { len: usize },
}

/// Decides a lookup from what reading the shard file gave: `None` when the
/// file does not exist, else its content. A missing or empty shard holds no
/// record; a shard over the size bound is refused rather than truncated.
pub fn lookup_shard(content: Option<&[u8]>, key: &[u8; 6]) -> (r: Result<bool, LookupError>)
    ensures
        content is None ==> r == Ok::<bool, LookupError>(false),
        content matches Some(c) ==> {
            &&& c@.len() > MAX_SHARD_BYTES ==> r == Err::<bool, LookupError>(
                LookupError::ShardTooLarge { len: c@.len() as usize },
            )
            &&& c@.len() == 0 ==> r == Ok::<bool, LookupError>(false)
            &&& c@.len() <= MAX_SHARD_BYTES ==> {
                &&& r is Ok
                &&& r->Ok_0 ==> shard_has(c@, key@)
                &&& is_sorted_shard(c@) ==> (r->Ok_0 <==> shard_has(c@, key@))
            }
        },
{
    match content {
        None => Ok(false),
        Some(c) => {
            if c.len() > MAX_SHARD_BYTES {
                Err(LookupError::ShardTooLarge { len: c.len() })
            } else {
                let found = contains_record(c, key);
                proof {
                    if c@.len() == 0 {
                        assert(!shard_has(c@, key@));
                    }
                }
                Ok(found)
            }
        },
    }
}

/// Where to look for a password: the shard file that its hash selects, and
/// the record to search for in it.
pub struct ShardQuery {
    pub path: String,
    pub search_key: [u8; 6],
}

/// Checks passwords against the dataset stored under one directory.
pub struct BreachChecker<'a> {
    dataset_path: &'a str,
}

impl<'a> BreachChecker<'a> {
    /// The dataset directory, as characters.
    pub closed spec fn root(&self) -> Seq<char> {
        self.dataset_path@
    }

    /// A checker for the dataset under `dataset_path`, a directory of files
    /// named `<PREFIX>.bin` with PREFIX five uppercase hex digits.
    pub fn new(dataset_path: &'a str) -> (r: Self)
        ensures
            r.root() == dataset_path@,
    {
        BreachChecker { dataset_path }
    }

    /// The directory that this checker reads.
    pub fn dataset_path(&self) -> (r: &'a str)
        ensures
            r@ == self.root(),
    {
        self.dataset_path
    }

    /// The text form of the hash's shard key: its first five hex digits.
    pub fn prefix_hex(hash: &[u8; 20]) -> (r: [u8; 5])
        ensures
            r@ == hex_of(shard_key_of_hash(hash@)),
            shard_key_of_hash(hash@) <= MAX_SHARD_KEY,
    {
        let key = hash[0] as u32 * 0x1000 + hash[1] as u32 * 0x10 + hash[2] as u32 / 16;
        crate::hex::prefix_to_hex(key)
    }

    /// The path of the shard file whose key has the text form `prefix_hex`.
    pub fn build_path(&self, prefix_hex: [u8; 5]) -> (r: String)
        ensures
            r@ == shard_path_chars(self.root(), prefix_hex@),
    {
        path_from_hex(self.dataset_path, prefix_hex)
    }

    /// Where to look for the hash `hash`: its shard's file and its 6-byte
    /// record.
    pub fn query_for_hash(&self, hash: &[u8; 20]) -> (q: ShardQuery)
        ensures
            q.path@ == shard_path_chars(self.root(), hex_of(shard_key_of_hash(hash@))),
            q.search_key@ == search_key_of_hash(hash@),
    {
        let path = self.build_path(Self::prefix_hex(hash));
        let search_key = [hash[2], hash[3], hash[4], hash[5], hash[6], hash[7]];
        assert(search_key@ =~= search_key_of_hash(hash@));
        ShardQuery { path, search_key }
    }

    /// Where to look for `password`: hashes its bytes with SHA-1 and selects
    /// the shard file and the record from the digest.
    pub fn query(&self, password: &str) -> (q: ShardQuery)
        ensures
            q.path@ == shard_path_chars(
                self.root(),
                hex_of(shard_key_of_hash(sha1_digest(password.spec_bytes()))),
            ),
            q.search_key@ == search_key_of_hash(sha1_digest(password.spec_bytes())),
    {
        let hash = sha1_hash(password.as_bytes());
        self.query_for_hash(&hash)
    }
}

/// The uppercase hex text of the bytes `h`, two digits per byte.
pub open spec fn upper_hex(h: Seq<u8>) -> Seq<u8> {
    Seq::new(
        2 * h.len(),
        |i: int|
            if i % 2 == 0 {
                hex_digit(h[i / 2] / 16)
            } else {
                hex_digit(h[i / 2] % 16)
            },
    )
}

/// The shard key of a hash spelled out: its five nibbles are the hash's
/// first five.
proof fn lemma_shard_key_nibbles(h0: u8, h1: u8, h2: u8, p: u32)
    requires
        p == h0 * 0x1000 + h1 * 0x10 + h2 / 16,
    ensures
        (p >> 16u32) & 0xF == h0 / 16,
        (p >> 12u32) & 0xF == h0 % 16,
        (p >> 8u32) & 0xF == h1 / 16,
        (p >> 4u32) & 0xF == h1 % 16,
        p & 0xF == h2 / 16,
{
    assert((p >> 16u32) & 0xF == h0 / 16 && (p >> 12u32) & 0xF == h0 % 16 && (p >> 8u32) & 0xF
        == h1 / 16 && (p >> 4u32) & 0xF == h1 % 16 && p & 0xF == h2 / 16) by (bit_vector)
        requires
            p == h0 as u32 * 0x1000 + h1 as u32 * 0x10 + h2 as u32 / 16,
    ;
}

/// Ingestion and lookup agree on every hash. The upstream line for a hash is
/// its uppercase hex text after the first five digits, and those five digits
/// are the text form of its shard key, so the lookup opens the file that
/// ingestion writes. The record built from the line is the lookup's search
/// key for the hash.
pub proof fn lemma_ingested_record_is_search_key(h: Seq<u8>)
    requires
        h.len() == 20,
    ensures
        is_record_line(upper_hex(h).subrange(5, 40)),
        hex_of(shard_key_of_hash(h)) == upper_hex(h).subrange(0, 5),
        record_of(shard_key_of_hash(h), upper_hex(h).subrange(5, 40)) == search_key_of_hash(h),
{
    let p = shard_key_of_hash(h);
    let text = upper_hex(h);
    let line = text.subrange(5, 40);
    lemma_shard_key_nibbles(h[0], h[1], h[2], p);
    assert(hex_of(p) =~= text.subrange(0, 5));
    let digits = hex_of(p) + line.subrange(0, 11);
    assert(digits =~= text.subrange(0, 16));
    let ns = hash_nibbles(p, line);
    assert forall|i: int| 0 <= i < 16 implies #[trigger] ns[i] == (if i % 2 == 0 {
        h[i / 2] / 16
    } else {
        h[i / 2] % 16
    }) by {
        assert(ns[i] == nibble_of(digits[i]));
    }
    let tail = ns.subrange(4, 16);
    assert forall|k: int| 0 <= k < 6 implies #[trigger] pack_nibbles(tail)[k] == h[2 + k] by {
        assert(tail[2 * k] == ns[4 + 2 * k]);
        assert(tail[2 * k + 1] == ns[5 + 2 * k]);
    }
    assert(pack_nibbles(tail) =~= search_key_of_hash(h));
}

/// In a sorted shard, the lookup finds every stored record; and a record
/// whose value lies strictly between two neighbouring stored records is not
/// stored, so the lookup does not find it.
pub proof fn lemma_stored_found_and_gaps_empty(s: Seq<u8>, i: int, key: Seq<u8>)
    requires
        is_sorted_shard(s),
        0 <= i < record_count(s),
    ensures
        shard_has(s, record_at(s, i)),
        i + 1 < record_count(s) && key.len() == 6 && record_value(record_at(s, i)) < record_value(
            key,
        ) < record_value(record_at(s, i + 1)) ==> !shard_has(s, key),
{
    if i + 1 < record_count(s) && key.len() == 6 && record_value(record_at(s, i)) < record_value(key)
        < record_value(record_at(s, i + 1)) && shard_has(s, key) {
        let j = choose|j: int| 0 <= j < record_count(s) && #[trigger] record_at(s, j) == key;
        if j <= i {
            if j < i {
                assert(record_value(record_at(s, j)) <= record_value(record_at(s, i)));
            }
        } else {
            if j > i + 1 {
                assert(record_value(record_at(s, i + 1)) <= record_value(record_at(s, j)));
            }
        }
    }
}

/// In a sorted shard of at least three records, the first, middle and last
/// records are found, and no record below the first or above the last is.
pub proof fn lemma_search_ends(s: Seq<u8>, key: Seq<u8>)
    requires
        is_sorted_shard(s),
        record_count(s) >= 3,
    ensures
        shard_has(s, record_at(s, 0)),
        shard_has(s, record_at(s, record_count(s) / 2)),
        shard_has(s, record_at(s, record_count(s) - 1)),
        key.len() == 6 && record_value(key) < record_value(record_at(s, 0)) ==> !shard_has(s, key),
        key.len() == 6 && record_value(key) > record_value(record_at(s, record_count(s) - 1))
            ==> !shard_has(s, key),
{
    let n = record_count(s);
    assert(shard_has(s, record_at(s, 0)));
    assert(shard_has(s, record_at(s, n / 2)));
    assert(shard_has(s, record_at(s, n - 1)));
    if key.len() == 6 && shard_has(s, key) {
        let j = choose|j: int| 0 <= j < n && #[trigger] record_at(s, j) == key;
        if j > 0 {
            assert(record_value(record_at(s, 0)) <= record_value(record_at(s, j)));
        }
        if j < n - 1 {
            assert(record_value(record_at(s, j)) <= record_value(record_at(s, n - 1)));
        }
    }
}

} // verus!
