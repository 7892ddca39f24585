//! The keys of the store.
//!
//! Numbers stand in keys in big-endian form, so that keys sort as the numbers do.

use crate::bytes::{
    be_bytes, lemma_be_bytes_len, lemma_be_bytes_order, lemma_byte_ranges, lemma_lex_append,
    lemma_lex_common_prefix, lex_less, u32_be_bytes, u64_be_bytes,
};
use crate::digest::{lemma_digest_ext, Digest};
use vstd::prelude::*;

verus! {

/// The first bytes of the key of a whole block.
pub open spec fn full_block_prefix() -> Seq<u8> {
    seq![98u8, 108u8, 111u8, 99u8, 107u8, 95u8]
}

pub open spec fn slot_bytes(slot: u64) -> Seq<u8> {
    be_bytes(slot as nat, 8)
}

pub open spec fn account_bytes(address: Digest, slot: u64) -> Seq<u8> {
    address@ + slot_bytes(slot)
}

pub open spec fn address_sig_bytes(address: Digest, slot: u64, tx_index: u32) -> Seq<u8> {
    address@ + slot_bytes(slot) + be_bytes(tx_index as nat, 4)
}

pub open spec fn shred_bytes(slot: u64, index: u32) -> Seq<u8> {
    slot_bytes(slot) + be_bytes(index as nat, 4)
}

pub open spec fn owner_index_bytes(prefix: Digest, address: Digest) -> Seq<u8> {
    prefix@ + address@
}

pub open spec fn full_block_bytes(slot: u64) -> Seq<u8> {
    full_block_prefix() + slot_bytes(slot)
}

/// The key of a slot.
pub fn slot_key(slot: u64) -> (r: [u8; 8])
    ensures
        r@ == slot_bytes(slot),
{
    u64_be_bytes(slot)
}

/// The key of an account at a slot: the address, then the slot.
pub fn account_key(address: &Digest, slot: u64) -> (r: [u8; 72])
    ensures
        r@ == account_bytes(*address, slot),
{
    let mut key: [u8; 72] = [0u8; 72];
    let number = u64_be_bytes(slot);
    let mut i: usize = 0;
    while i < 64
        invariant
            i <= 64,
            forall|j: int| 0 <= j < i ==> key@[j] == address@[j],
        decreases 64 - i,
    {
        key[i] = address.bytes[i];
        i = i + 1;
    }
    i = 0;
    while i < 8
        invariant
            i <= 8,
            forall|j: int| 0 <= j < 64 ==> key@[j] == address@[j],
            forall|j: int| 0 <= j < i ==> key@[64 + j] == number@[j],
        decreases 8 - i,
    {
        key[64 + i] = number[i];
        i = i + 1;
    }
    assert(key@ =~= account_bytes(*address, slot)) by {
        assert forall|j: int| 64 <= j < 72 implies key@[j] == number@[j - 64] by {
            assert(key@[64 + (j - 64)] == number@[j - 64]);
        }
    }
    key
}

/// The key of a transaction in the list of an address: the address, then the slot, then
/// the place of the transaction in the slot.
pub fn address_sig_key(address: &Digest, slot: u64, tx_index: u32) -> (r: [u8; 76])
    ensures
        r@ == address_sig_bytes(*address, slot, tx_index),
{
    let mut key: [u8; 76] = [0u8; 76];
    let front = account_key(address, slot);
    let number = u32_be_bytes(tx_index);
    let mut i: usize = 0;
    while i < 72
        invariant
            i <= 72,
            forall|j: int| 0 <= j < i ==> key@[j] == front@[j],
        decreases 72 - i,
    {
        key[i] = front[i];
        i = i + 1;
    }
    i = 0;
    while i < 4
        invariant
            i <= 4,
            forall|j: int| 0 <= j < 72 ==> key@[j] == front@[j],
            forall|j: int| 0 <= j < i ==> key@[72 + j] == number@[j],
        decreases 4 - i,
    {
        key[72 + i] = number[i];
        i = i + 1;
    }
    assert(key@ =~= address_sig_bytes(*address, slot, tx_index)) by {
        assert forall|j: int| 72 <= j < 76 implies key@[j] == number@[j - 72] by {
            assert(key@[72 + (j - 72)] == number@[j - 72]);
        }
    }
    key
}

/// The key of a shred: the slot, then the place of the shred in it.
pub fn shred_key(slot: u64, index: u32) -> (r: [u8; 12])
    ensures
        r@ == shred_bytes(slot, index),
{
    let mut key: [u8; 12] = [0u8; 12];
    let front = u64_be_bytes(slot);
    let number = u32_be_bytes(index);
    let mut i: usize = 0;
    while i < 8
        invariant
            i <= 8,
            forall|j: int| 0 <= j < i ==> key@[j] == front@[j],
        decreases 8 - i,
    {
        key[i] = front[i];
        i = i + 1;
    }
    i = 0;
    while i < 4
        invariant
            i <= 4,
            forall|j: int| 0 <= j < 8 ==> key@[j] == front@[j],
            forall|j: int| 0 <= j < i ==> key@[8 + j] == number@[j],
        decreases 4 - i,
    {
        key[8 + i] = number[i];
        i = i + 1;
    }
    assert(key@ =~= shred_bytes(slot, index)) by {
        assert forall|j: int| 8 <= j < 12 implies key@[j] == number@[j - 8] by {
            assert(key@[8 + (j - 8)] == number@[j - 8]);
        }
    }
    key
}

/// The key of an account in the list of an owner or a program.
pub fn owner_index_key(prefix: &Digest, address: &Digest) -> (r: [u8; 128])
    ensures
        r@ == owner_index_bytes(*prefix, *address),
{
    let mut key: [u8; 128] = [0u8; 128];
    let mut i: usize = 0;
    while i < 64
        invariant
            i <= 64,
            forall|j: int| 0 <= j < i ==> key@[j] == prefix@[j],
            forall|j: int| 0 <= j < i ==> key@[64 + j] == address@[j],
        decreases 64 - i,
    {
        key[i] = prefix.bytes[i];
        key[64 + i] = address.bytes[i];
        i = i + 1;
    }
    assert(key@ =~= owner_index_bytes(*prefix, *address)) by {
        assert forall|j: int| 64 <= j < 128 implies key@[j] == address@[j - 64] by {
            assert(key@[64 + (j - 64)] == address@[j - 64]);
        }
    }
    key
}

/// The key of a whole block.
pub fn full_block_key(slot: u64) -> (r: [u8; 14])
    ensures
        r@ == full_block_bytes(slot),
{
    let mut key: [u8; 14] = [98u8, 108u8, 111u8, 99u8, 107u8, 95u8, 0, 0, 0, 0, 0, 0, 0, 0];
    let number = u64_be_bytes(slot);
    let mut i: usize = 0;
    while i < 8
        invariant
            i <= 8,
            forall|j: int| 0 <= j < 6 ==> key@[j] == full_block_prefix()[j],
            forall|j: int| 0 <= j < i ==> key@[6 + j] == number@[j],
        decreases 8 - i,
    {
        key[6 + i] = number[i];
        i = i + 1;
    }
    assert(key@ =~= full_block_bytes(slot)) by {
        assert forall|j: int| 6 <= j < 14 implies key@[j] == number@[j - 6] by {
            assert(key@[6 + (j - 6)] == number@[j - 6]);
        }
    }
    key
}

/// The lengths of the keys.
pub proof fn key_lengths(address: Digest, other: Digest, slot: u64, index: u32)
    ensures
        slot_bytes(slot).len() == 8,
        account_bytes(address, slot).len() == 72,
        address_sig_bytes(address, slot, index).len() == 76,
        shred_bytes(slot, index).len() == 12,
        owner_index_bytes(address, other).len() == 128,
        full_block_bytes(slot).len() == 14,
{
    lemma_be_bytes_len(slot as nat, 8);
    lemma_be_bytes_len(index as nat, 4);
}

/// Slots sort as numbers do, and no two share a key.
pub proof fn slot_keys_are_ordered(a: u64, b: u64)
    ensures
        lex_less(slot_bytes(a), slot_bytes(b)) <==> a < b,
        slot_bytes(a) == slot_bytes(b) <==> a == b,
{
    lemma_byte_ranges();
    lemma_be_bytes_order(a as nat, b as nat, 8);
}

/// The versions of one account sort by slot.
pub proof fn account_keys_are_ordered(address: Digest, a: u64, b: u64)
    ensures
        lex_less(account_bytes(address, a), account_bytes(address, b)) <==> a < b,
{
    slot_keys_are_ordered(a, b);
    lemma_lex_common_prefix(address@, slot_bytes(a), slot_bytes(b));
}

/// No two pairs of an address and a slot share a key.
pub proof fn account_keys_are_distinct(x: Digest, a: u64, y: Digest, b: u64)
    ensures
        account_bytes(x, a) == account_bytes(y, b) <==> x == y && a == b,
{
    slot_keys_are_ordered(a, b);
    key_lengths(x, y, a, 0);
    key_lengths(x, y, b, 0);
    if account_bytes(x, a) == account_bytes(y, b) {
        assert(x@ =~= account_bytes(x, a).subrange(0, 64));
        assert(y@ =~= account_bytes(y, b).subrange(0, 64));
        lemma_digest_ext(x, y);
        assert(slot_bytes(a) =~= account_bytes(x, a).subrange(64, 72));
        assert(slot_bytes(b) =~= account_bytes(y, b).subrange(64, 72));
    }
}

/// The shreds of a slot sort by their place in it, and after those of every earlier slot.
pub proof fn shred_keys_are_ordered(a: u64, i: u32, b: u64, j: u32)
    ensures
        lex_less(shred_bytes(a, i), shred_bytes(b, j)) <==> a < b || (a == b && i < j),
        shred_bytes(a, i) == shred_bytes(b, j) <==> a == b && i == j,
{
    lemma_byte_ranges();
    slot_keys_are_ordered(a, b);
    lemma_be_bytes_order(i as nat, j as nat, 4);
    lemma_be_bytes_len(a as nat, 8);
    lemma_be_bytes_len(b as nat, 8);
    let p = be_bytes(i as nat, 4);
    let q = be_bytes(j as nat, 4);
    if a == b {
        lemma_lex_common_prefix(slot_bytes(a), p, q);
    } else {
        lemma_lex_append(slot_bytes(a), slot_bytes(b), p, q);
    }
    if shred_bytes(a, i) == shred_bytes(b, j) {
        lemma_be_bytes_len(i as nat, 4);
        lemma_be_bytes_len(j as nat, 4);
        assert(slot_bytes(a) =~= shred_bytes(a, i).subrange(0, 8));
        assert(slot_bytes(b) =~= shred_bytes(b, j).subrange(0, 8));
        assert(p =~= shred_bytes(a, i).subrange(8, 12));
        assert(q =~= shred_bytes(b, j).subrange(8, 12));
    }
}

/// The transactions of one address sort by slot, then by their place in it.
pub proof fn address_sig_keys_are_ordered(address: Digest, a: u64, i: u32, b: u64, j: u32)
    ensures
        lex_less(address_sig_bytes(address, a, i), address_sig_bytes(address, b, j)) <==> a < b
            || (a == b && i < j),
{
    shred_keys_are_ordered(a, i, b, j);
    lemma_lex_common_prefix(address@, shred_bytes(a, i), shred_bytes(b, j));
    assert(address_sig_bytes(address, a, i) =~= address@ + shred_bytes(a, i));
    assert(address_sig_bytes(address, b, j) =~= address@ + shred_bytes(b, j));
}

/// No two entries of the lists of addresses share a key.
pub proof fn address_sig_keys_are_distinct(x: Digest, a: u64, i: u32, y: Digest, b: u64, j: u32)
    ensures
        address_sig_bytes(x, a, i) == address_sig_bytes(y, b, j) <==> x == y && a == b && i == j,
{
    shred_keys_are_ordered(a, i, b, j);
    key_lengths(x, y, a, i);
    key_lengths(x, y, b, j);
    if address_sig_bytes(x, a, i) == address_sig_bytes(y, b, j) {
        assert(x@ =~= address_sig_bytes(x, a, i).subrange(0, 64));
        assert(y@ =~= address_sig_bytes(y, b, j).subrange(0, 64));
        lemma_digest_ext(x, y);
        assert(shred_bytes(a, i) =~= address_sig_bytes(x, a, i).subrange(64, 76));
        assert(shred_bytes(b, j) =~= address_sig_bytes(y, b, j).subrange(64, 76));
    }
}

/// No two entries of the lists of owners share a key.
pub proof fn owner_index_keys_are_distinct(p: Digest, x: Digest, q: Digest, y: Digest)
    ensures
        owner_index_bytes(p, x) == owner_index_bytes(q, y) <==> p == q && x == y,
{
    if owner_index_bytes(p, x) == owner_index_bytes(q, y) {
        assert(p@ =~= owner_index_bytes(p, x).subrange(0, 64));
        assert(q@ =~= owner_index_bytes(q, y).subrange(0, 64));
        assert(x@ =~= owner_index_bytes(p, x).subrange(64, 128));
        assert(y@ =~= owner_index_bytes(q, y).subrange(64, 128));
        lemma_digest_ext(p, q);
        lemma_digest_ext(x, y);
    }
}

/// Whole blocks sort by slot, and no two share a key.
pub proof fn full_block_keys_are_ordered(a: u64, b: u64)
    ensures
        lex_less(full_block_bytes(a), full_block_bytes(b)) <==> a < b,
        full_block_bytes(a) == full_block_bytes(b) <==> a == b,
{
    slot_keys_are_ordered(a, b);
    lemma_lex_common_prefix(full_block_prefix(), slot_bytes(a), slot_bytes(b));
    lemma_be_bytes_len(a as nat, 8);
    lemma_be_bytes_len(b as nat, 8);
    if full_block_bytes(a) == full_block_bytes(b) {
        assert(slot_bytes(a) =~= full_block_bytes(a).subrange(6, 14));
        assert(slot_bytes(b) =~= full_block_bytes(b).subrange(6, 14));
    }
}

} // verus!
