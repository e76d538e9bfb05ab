//! A stable 64-bit digest of build inputs.
//!
//! The digest is FNV-1a over the UTF-8 bytes of each name, with a byte that no
//! UTF-8 text holds closing every name, and the length of every list mixed in
//! before its items. It depends on nothing but the values it is given.

use vstd::prelude::*;
use vstd::string::*;
use vstd::utf8::*;
use crate::text::texts;

verus! {

/// The value every digest starts from.
pub const DIGEST_SEED: u64 = 0xcbf2_9ce4_8422_2325;

/// The multiplier of each mixing step.
pub const DIGEST_PRIME: u64 = 0x0000_0100_0000_01b3;

/// The byte that closes a name; it occurs in no UTF-8 text.
pub const NAME_END: u8 = 0xff;

/// One mixing step: exclusive-or with `w`, then multiplication modulo 2^64.
pub open spec fn mix(h: u64, w: u64) -> u64 {
    (((h ^ w) as int * DIGEST_PRIME as int) % 0x1_0000_0000_0000_0000) as u64
}

/// The digest after mixing in every byte of `bytes`, first to last.
pub open spec fn absorb(h: u64, bytes: Seq<u8>) -> u64
    decreases bytes.len(),
{
    if bytes.len() == 0 {
        h
    } else {
        mix(absorb(h, bytes.drop_last()), bytes.last() as u64)
    }
}

/// The digest after one name: its bytes, then the closing byte.
pub open spec fn absorb_text(h: u64, t: Seq<char>) -> u64 {
    mix(absorb(h, encode_utf8(t)), NAME_END as u64)
}

/// The digest after every name of `list`, in order, with nothing mixed in for
/// the list itself.
pub open spec fn absorb_each(h: u64, list: Seq<Seq<char>>) -> u64
    decreases list.len(),
{
    if list.len() == 0 {
        h
    } else {
        absorb_text(absorb_each(h, list.drop_last()), list.last())
    }
}

/// The digest after a list of names: its length, then each name.
pub open spec fn absorb_texts(h: u64, list: Seq<Seq<char>>) -> u64 {
    absorb_each(mix(h, list.len() as u64), list)
}

/// Mixes one word into a digest.
pub fn digest_word(h: u64, w: u64) -> (r: u64)
    ensures
        r == mix(h, w),
{
    (h ^ w).wrapping_mul(DIGEST_PRIME)
}

/// Mixes the bytes of a slice into a digest.
pub fn digest_bytes(h: u64, bytes: &[u8]) -> (r: u64)
    ensures
        r == absorb(h, bytes@),
{
    let mut acc: u64 = h;
    let mut i: usize = 0;
    while i < bytes.len()
        invariant
            i <= bytes.len(),
            acc == absorb(h, bytes@.take(i as int)),
        decreases bytes.len() - i,
    {
        assert(bytes@.take(i + 1).drop_last() =~= bytes@.take(i as int));
        acc = digest_word(acc, bytes[i] as u64);
        i += 1;
    }
    assert(bytes@.take(i as int) =~= bytes@);
    acc
}

/// Mixes one name into a digest.
pub fn digest_text(h: u64, t: &str) -> (r: u64)
    ensures
        r == absorb_text(h, t@),
{
    let inner = digest_bytes(h, t.as_bytes());
    digest_word(inner, NAME_END as u64)
}

/// Mixes a list of names into a digest.
pub fn digest_texts(h: u64, list: &Vec<String>) -> (r: u64)
    requires
        list.len() <= u64::MAX,
    ensures
        r == absorb_texts(h, texts(list@)),
{
    let mut acc: u64 = digest_word(h, list.len() as u64);
    let mut i: usize = 0;
    let ghost all = texts(list@);
    while i < list.len()
        invariant
            i <= list.len(),
            all == texts(list@),
            acc == absorb_each(mix(h, list.len() as u64), all.take(i as int)),
        decreases list.len() - i,
    {
        assert(all.take(i + 1).drop_last() =~= all.take(i as int));
        assert(all.take(i + 1).last() == list[i as int]@);
        acc = digest_text(acc, list[i].as_str());
        i += 1;
    }
    assert(all.take(i as int) =~= all);
    acc
}

} // verus!
