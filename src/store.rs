//! The on-disk layout of a dataset: one file per shard key, named by the
//! key's five uppercase hex digits and the extension `.bin`.

use crate::hex::{decode_shard_key, decode_shard_key_hex, hex_of, MAX_SHARD_KEY};
use vstd::prelude::*;

verus! {

/// The bytes of the extension that every shard file carries: `.bin`.
pub open spec fn bin_suffix() -> Seq<u8> {
    seq![0x2eu8, 0x62u8, 0x69u8, 0x6eu8]
}

/// The shard key that a directory entry's name stands for: the name is five
/// hex digits followed by `.bin`. Any other name stands for no shard.
pub open spec fn shard_key_of_name(name: Seq<u8>) -> Option<u32> {
    if name.len() == 9 && name.subrange(5, 9) == bin_suffix() {
        decode_shard_key(name.subrange(0, 5))
    } else {
        None
    }
}

/// The characters of an ASCII byte string.
pub open spec fn ascii_chars(s: Seq<u8>) -> Seq<char> {
    s.map_values(|b: u8| b as char)
}

/// The path of the shard file for the key whose text form is `key_hex`,
/// under the directory `root`.
pub open spec fn shard_path_chars(root: Seq<char>, key_hex: Seq<u8>) -> Seq<char> {
    root + seq!['/'] + ascii_chars(key_hex) + seq!['.', 'b', 'i', 'n']
}

/// Relies on `String::push`: appends the character to the end of the string.
#[verifier::external_body]
fn push_char(s: &mut String, c: char)
    ensures
        final(s)@ == old(s)@.push(c),
{
    s.push(c);
}

/// Appends the ASCII bytes `text` to `s`, one character each.
fn push_ascii(s: &mut String, text: &[u8])
    ensures
        final(s)@ == old(s)@ + ascii_chars(text@),
{
    let mut i: usize = 0;
    while i < text.len()
        invariant
            i <= text@.len(),
            s@ == old(s)@ + ascii_chars(text@.subrange(0, i as int)),
        decreases text@.len() - i,
    {
        push_char(s, text[i] as char);
        proof {
            assert(ascii_chars(text@.subrange(0, i + 1)) =~= ascii_chars(
                text@.subrange(0, i as int),
            ).push(text@[i as int] as char));
        }
        i = i + 1;
    }
    assert(text@.subrange(0, text@.len() as int) =~= text@);
}

/// Builds `<root>/<key_hex>.bin`.
pub(crate) fn path_from_hex(root: &str, key_hex: [u8; 5]) -> (r: String)
    ensures
        r@ == shard_path_chars(root@, key_hex@),
{
    let mut path = root.to_owned();
    push_char(&mut path, '/');
    push_ascii(&mut path, key_hex.as_slice());
    push_char(&mut path, '.');
    push_char(&mut path, 'b');
    push_char(&mut path, 'i');
    push_char(&mut path, 'n');
    assert(path@ =~= shard_path_chars(root@, key_hex@));
    path
}

/// The text form of the shard key `prefix`: five uppercase hex digits.
pub fn prefix_string(prefix: u32) -> (r: String)
    ensures
        r@ == ascii_chars(hex_of(prefix)),
{
    let mut text = String::new();
    push_ascii(&mut text, crate::hex::prefix_to_hex(prefix).as_slice());
    assert(text@ =~= ascii_chars(hex_of(prefix)));
    text
}

/// The path of the shard file for `prefix` under the dataset root `root`.
pub fn shard_file_path(root: &str, prefix: u32) -> (r: String)
    ensures
        r@ == shard_path_chars(root@, hex_of(prefix)),
{
    path_from_hex(root, crate::hex::prefix_to_hex(prefix))
}

/// The shard key that a directory entry's name stands for, if any.
pub fn shard_key_of_file_name(name: &[u8]) -> (r: Option<u32>)
    ensures
        r == shard_key_of_name(name@),
        r matches Some(k) ==> k <= MAX_SHARD_KEY,
{
    if name.len() != 9 {
        return None;
    }
    let has_suffix = name[5] == 0x2e && name[6] == 0x62 && name[7] == 0x69 && name[8] == 0x6e;
    assert(has_suffix <==> name@.subrange(5, 9) =~= bin_suffix());
    if !has_suffix {
        return None;
    }
    decode_shard_key_hex(&name[0..5])
}

/// `names` holds an entry whose name stands for the shard key `k`.
pub open spec fn names_hold_key(names: Seq<Vec<u8>>, k: u32) -> bool {
    exists|i: int| 0 <= i < names.len() && shard_key_of_name(#[trigger] names[i]@) == Some(k)
}

/// The shard keys that the directory entries named `names` stand for, in the
/// order of the names. Entries that are not shard files are left out.
pub fn existing_shard_keys(names: &Vec<Vec<u8>>) -> (r: Vec<u32>)
    ensures
        forall|k: u32| #[trigger] r@.contains(k) <==> names_hold_key(names@, k),
{
    let mut keys: Vec<u32> = Vec::new();
    let mut i: usize = 0;
    while i < names.len()
        invariant
            i <= names@.len(),
            forall|k: u32| #[trigger]
                keys@.contains(k) <==> names_hold_key(names@.subrange(0, i as int), k),
        decreases names@.len() - i,
    {
        let found = shard_key_of_file_name(names[i].as_slice());
        let ghost before = keys@;
        if let Some(k) = found {
            keys.push(k);
        }
        proof {
            let done = names@.subrange(0, i + 1);
            assert forall|k: u32| #[trigger] keys@.contains(k) <==> names_hold_key(done, k) by {
                let prev = names@.subrange(0, i as int);
                if names_hold_key(prev, k) {
                    let j = choose|j: int|
                        0 <= j < prev.len() && shard_key_of_name(#[trigger] prev[j]@) == Some(k);
                    assert(done[j] == prev[j]);
                }
                if names_hold_key(done, k) {
                    let j = choose|j: int|
                        0 <= j < done.len() && shard_key_of_name(#[trigger] done[j]@) == Some(k);
                    if j < i {
                        assert(prev[j] == done[j]);
                    }
                }
                if found == Some(k) {
                    assert(done[i as int] == names@[i as int]);
                    assert(keys@[keys@.len() - 1] == k);
                }
                if keys@.contains(k) && !before.contains(k) {
                    let m = choose|m: int| 0 <= m < keys@.len() && keys@[m] == k;
                    if m < before.len() {
                        assert(before[m] == k);
                    }
                }
                if before.contains(k) {
                    let m = choose|m: int| 0 <= m < before.len() && before[m] == k;
                    assert(keys@[m] == k);
                }
            }
        }
        i = i + 1;
    }
    assert(names@.subrange(0, names@.len() as int) =~= names@);
    keys
}

/// `keys` lists, ascending, the keys from 0 to `limit` that `existing` does
/// not hold.
pub open spec fn is_fetch_plan(limit: u32, existing: Seq<u32>, keys: Seq<u32>) -> bool {
    &&& forall|i: int, j: int| 0 <= i < j < keys.len() ==> keys[i] < keys[j]
    &&& forall|k: u32| #[trigger] keys.contains(k) <==> k <= limit && !existing.contains(k)
}

/// The keys from 0 to `limit`, ascending, that `existing` does not hold:
/// the shards that a resumed run still has to fetch.
pub fn keys_to_fetch(limit: u32, existing: &Vec<u32>) -> (r: Vec<u32>)
    requires
        limit <= MAX_SHARD_KEY,
    ensures
        is_fetch_plan(limit, existing@, r@),
{
    let mut present: Vec<bool> = Vec::new();
    let mut k: u32 = 0;
    while k <= MAX_SHARD_KEY
        invariant
            k <= MAX_SHARD_KEY + 1,
            present@.len() == k,
            forall|j: int| 0 <= j < k ==> !#[trigger] present@[j],
        decreases MAX_SHARD_KEY + 1 - k,
    {
        present.push(false);
        k = k + 1;
    }
    let mut i: usize = 0;
    while i < existing.len()
        invariant
            i <= existing@.len(),
            present@.len() == MAX_SHARD_KEY + 1,
            forall|j: u32|
                j <= MAX_SHARD_KEY ==> (#[trigger] present@[j as int] <==> existing@.subrange(
                    0,
                    i as int,
                ).contains(j)),
        decreases existing@.len() - i,
    {
        let e = existing[i];
        if e <= MAX_SHARD_KEY {
            present.set(e as usize, true);
        }
        proof {
            let prev = existing@.subrange(0, i as int);
            let done = existing@.subrange(0, i + 1);
            assert(done =~= prev.push(e));
            assert forall|j: u32| j <= MAX_SHARD_KEY implies (#[trigger] present@[j as int]
                <==> done.contains(j)) by {
                if prev.contains(j) {
                    let m = choose|m: int| 0 <= m < prev.len() && prev[m] == j;
                    assert(done[m] == j);
                }
                if done.contains(j) && j != e {
                    let m = choose|m: int| 0 <= m < done.len() && done[m] == j;
                    assert(prev[m] == j);
                }
                if j == e {
                    assert(done[i as int] == j);
                }
            }
        }
        i = i + 1;
    }
    assert(existing@.subrange(0, existing@.len() as int) =~= existing@);
    let mut out: Vec<u32> = Vec::new();
    let mut k: u32 = 0;
    while k <= limit
        invariant
            k <= limit + 1,
            limit <= MAX_SHARD_KEY,
            present@.len() == MAX_SHARD_KEY + 1,
            forall|j: u32|
                j <= MAX_SHARD_KEY ==> (#[trigger] present@[j as int] <==> existing@.contains(j)),
            forall|a: int, b: int| 0 <= a < b < out@.len() ==> out@[a] < out@[b],
            forall|a: int| 0 <= a < out@.len() ==> #[trigger] out@[a] < k,
            forall|j: u32| #[trigger] out@.contains(j) <==> j < k && !existing@.contains(j),
        decreases limit + 1 - k,
    {
        let ghost before = out@;
        if !present[k as usize] {
            out.push(k);
        }
        proof {
            assert forall|j: u32| #[trigger] out@.contains(j) <==> j < k + 1 && !existing@.contains(
                j,
            ) by {
                if before.contains(j) {
                    let m = choose|m: int| 0 <= m < before.len() && before[m] == j;
                    assert(out@[m] == j);
                }
                if out@.contains(j) && j != k {
                    let m = choose|m: int| 0 <= m < out@.len() && out@[m] == j;
                    assert(before[m] == j);
                }
                if j == k && !existing@.contains(j) {
                    assert(out@[out@.len() - 1] == j);
                }
                if j == k && existing@.contains(j) && out@.contains(j) {
                    let m = choose|m: int| 0 <= m < out@.len() && out@[m] == j;
                    assert(before[m] == j);
                    assert(before[m] < k);
                }
            }
        }
        k = k + 1;
    }
    out
}

} // verus!
