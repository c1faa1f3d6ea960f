//! The four checksums of the format: each rotates what it has one bit to the right and adds
//! the next byte.
use vstd::prelude::*;

use crate::bytes::le16;

verus! {

/// Offsets of the boot region its checksum steps over: `VolumeFlags` and `PercentInUse`, the
/// fields a driver rewrites without rewriting the checksum.
pub const BOOT_CHECKSUM_SKIPS: [usize; 3] = [106, 107, 112];

/// Offsets of an entry set its checksum steps over: the checksum's own two bytes.
pub const SET_CHECKSUM_SKIPS: [usize; 2] = [2, 3];

/// Whether the boot region's checksum steps over offset `at`.
pub open spec fn boot_skips(at: int) -> bool {
    at == 106 || at == 107 || at == 112
}

/// Whether an entry set's checksum steps over offset `at`.
pub open spec fn set_skips(at: int) -> bool {
    at == 2 || at == 3
}

/// One step of a 32-bit checksum.
pub open spec fn step32(sum: u32, byte: u8) -> u32 {
    ((sum / 2 + (sum % 2) * 0x8000_0000 + byte) % 0x1_0000_0000) as u32
}

/// One step of a 16-bit checksum.
pub open spec fn step16(sum: u16, byte: u8) -> u16 {
    ((sum / 2 + (sum % 2) * 0x8000 + byte) % 0x1_0000) as u16
}

/// The checksum of a boot region.
pub open spec fn boot_sum(region: Seq<u8>) -> u32
    decreases region.len(),
{
    if region.len() == 0 {
        0
    } else if boot_skips(region.len() - 1) {
        boot_sum(region.drop_last())
    } else {
        step32(boot_sum(region.drop_last()), region.last())
    }
}

/// The checksum of an up-case table.
pub open spec fn upcase_sum(table: Seq<u8>) -> u32
    decreases table.len(),
{
    if table.len() == 0 {
        0
    } else {
        step32(upcase_sum(table.drop_last()), table.last())
    }
}

/// The checksum of a directory entry set.
pub open spec fn set_sum(entries: Seq<u8>) -> u16
    decreases entries.len(),
{
    if entries.len() == 0 {
        0
    } else if set_skips(entries.len() - 1) {
        set_sum(entries.drop_last())
    } else {
        step16(set_sum(entries.drop_last()), entries.last())
    }
}

/// The hash of a name, over the bytes of its folded units.
pub open spec fn hash_of(upcased: Seq<u16>) -> u16
    decreases upcased.len(),
{
    if upcased.len() == 0 {
        0
    } else {
        let bytes = le16(upcased.last());
        step16(step16(hash_of(upcased.drop_last()), bytes[0]), bytes[1])
    }
}

/// Two regions that differ only where the boot checksum steps over have one checksum.
pub proof fn lemma_boot_sum_ignores_skips(a: Seq<u8>, b: Seq<u8>)
    requires
        a.len() == b.len(),
        forall|i: int|
            0 <= i < a.len() && i != 106 && i != 107 && i != 112 ==> #[trigger] a[i] == b[i],
    ensures
        boot_sum(a) == boot_sum(b),
    decreases a.len(),
{
    if a.len() > 0 {
        lemma_boot_sum_ignores_skips(a.drop_last(), b.drop_last());
    }
}

/// Two entry sets that differ only in the stored checksum have one checksum.
pub proof fn lemma_set_sum_ignores_skips(a: Seq<u8>, b: Seq<u8>)
    requires
        a.len() == b.len(),
        forall|i: int| 0 <= i < a.len() && i != 2 && i != 3 ==> #[trigger] a[i] == b[i],
    ensures
        set_sum(a) == set_sum(b),
    decreases a.len(),
{
    if a.len() > 0 {
        lemma_set_sum_ignores_skips(a.drop_last(), b.drop_last());
    }
}

/// A checksum step loses nothing: from the sum after it and the byte it added, the sum before
/// it is known.
pub proof fn lemma_step32_injective(a: u32, b: u32, byte: u8)
    ensures
        step32(a, byte) == step32(b, byte) ==> a == b,
{
}

/// A checksum step loses nothing: from the sum after it and the byte it added, the sum before
/// it is known.
pub proof fn lemma_step16_injective(a: u16, b: u16, byte: u8)
    ensures
        step16(a, byte) == step16(b, byte) ==> a == b,
{
}

/// Adding one byte or another to a sum gives different sums.
pub proof fn lemma_step16_byte(sum: u16, x: u8, y: u8)
    ensures
        step16(sum, x) == step16(sum, y) ==> x == y,
{
}

/// Two regions that differ in exactly one byte the boot checksum covers have different
/// checksums.
pub proof fn lemma_boot_sum_detects_one_byte(a: Seq<u8>, b: Seq<u8>, at: int)
    requires
        a.len() == b.len(),
        0 <= at < a.len(),
        at != 106 && at != 107 && at != 112,
        a[at] != b[at],
        forall|i: int| 0 <= i < a.len() && i != at ==> a[i] == b[i],
    ensures
        boot_sum(a) != boot_sum(b),
    decreases a.len(),
{
    if at == a.len() - 1 {
        lemma_boot_sum_ignores_skips(a.drop_last(), b.drop_last());
    } else {
        lemma_boot_sum_detects_one_byte(a.drop_last(), b.drop_last(), at);
        if !boot_skips(a.len() - 1) {
            lemma_step32_injective(
                boot_sum(a.drop_last()),
                boot_sum(b.drop_last()),
                a.last(),
            );
        }
    }
}

/// Two tables that differ in exactly one byte have different checksums.
pub proof fn lemma_upcase_sum_detects_one_byte(a: Seq<u8>, b: Seq<u8>, at: int)
    requires
        a.len() == b.len(),
        0 <= at < a.len(),
        a[at] != b[at],
        forall|i: int| 0 <= i < a.len() && i != at ==> a[i] == b[i],
    ensures
        upcase_sum(a) != upcase_sum(b),
    decreases a.len(),
{
    if at == a.len() - 1 {
        assert(a.drop_last() =~= b.drop_last());
    } else {
        lemma_upcase_sum_detects_one_byte(a.drop_last(), b.drop_last(), at);
        lemma_step32_injective(upcase_sum(a.drop_last()), upcase_sum(b.drop_last()), a.last());
    }
}

/// Two entry sets that differ in exactly one byte the checksum covers have different
/// checksums.
pub proof fn lemma_set_sum_detects_one_byte(a: Seq<u8>, b: Seq<u8>, at: int)
    requires
        a.len() == b.len(),
        0 <= at < a.len(),
        at != 2 && at != 3,
        a[at] != b[at],
        forall|i: int| 0 <= i < a.len() && i != at ==> a[i] == b[i],
    ensures
        set_sum(a) != set_sum(b),
    decreases a.len(),
{
    if at == a.len() - 1 {
        lemma_set_sum_ignores_skips(a.drop_last(), b.drop_last());
        lemma_step16_byte(set_sum(a.drop_last()), a.last(), b.last());
    } else {
        lemma_set_sum_detects_one_byte(a.drop_last(), b.drop_last(), at);
        if !set_skips(a.len() - 1) {
            lemma_step16_injective(set_sum(a.drop_last()), set_sum(b.drop_last()), a.last());
        }
    }
}

/// A byte more turns a 32-bit checksum one bit to the right, the bit that falls off coming in at
/// the other end, and is added to it; what is carried out is lost.
pub proof fn lemma_a_byte_more_turns_and_adds(bytes: Seq<u8>, byte: u8)
    ensures
        upcase_sum(bytes.push(byte)) == ((upcase_sum(bytes) >> 1 | upcase_sum(bytes) << 31) + byte)
            % 0x1_0000_0000,
        bytes.len() != 106 && bytes.len() != 107 && bytes.len() != 112 ==> boot_sum(
            bytes.push(byte),
        ) == ((boot_sum(bytes) >> 1 | boot_sum(bytes) << 31) + byte) % 0x1_0000_0000,
        bytes.len() != 2 && bytes.len() != 3 ==> set_sum(bytes.push(byte)) == ((set_sum(bytes) >> 1
            | set_sum(bytes) << 15) + byte) % 0x1_0000,
{
    let u = upcase_sum(bytes);
    let b = boot_sum(bytes);
    let e = set_sum(bytes);
    assert(bytes.push(byte).drop_last() =~= bytes);
    assert((u >> 1 | u << 31) == u / 2 + (u % 2) * 0x8000_0000) by (bit_vector);
    assert((b >> 1 | b << 31) == b / 2 + (b % 2) * 0x8000_0000) by (bit_vector);
    assert((e >> 1 | e << 15) == e / 2 + (e % 2) * 0x8000) by (bit_vector);
}

/// A unit more turns a name's hash and adds, with its lower byte and then its upper.
pub proof fn lemma_a_unit_more_turns_and_adds(upcased: Seq<u16>, unit: u16)
    ensures
        ({
            let first = ((hash_of(upcased) >> 1 | hash_of(upcased) << 15) + unit as int % 256)
                % 0x1_0000;
            let half = first as u16;
            hash_of(upcased.push(unit)) == ((half >> 1 | half << 15) + unit as int / 256)
                % 0x1_0000
        }),
{
    let h = hash_of(upcased);
    assert(upcased.push(unit).drop_last() =~= upcased);
    assert((h >> 1 | h << 15) == h / 2 + (h % 2) * 0x8000) by (bit_vector);
    let half = (((h >> 1 | h << 15) + unit as int % 256) % 0x1_0000) as u16;
    assert((half >> 1 | half << 15) == half / 2 + (half % 2) * 0x8000) by (bit_vector);
    assert(le16(unit)[0] == unit as int % 256 && le16(unit)[1] == unit as int / 256);
}

/// Two names that differ in exactly one byte of one unit have different hashes.
pub proof fn lemma_name_hash_detects_one_unit(a: Seq<u16>, b: Seq<u16>, at: int)
    requires
        a.len() == b.len(),
        0 <= at < a.len(),
        a[at] != b[at],
        a[at] as int / 256 == b[at] as int / 256 || a[at] as int % 256 == b[at] as int % 256,
        forall|i: int| 0 <= i < a.len() && i != at ==> a[i] == b[i],
    ensures
        hash_of(a) != hash_of(b),
    decreases a.len(),
{
    let x = le16(a.last());
    let y = le16(b.last());
    let p = hash_of(a.drop_last());
    let q = hash_of(b.drop_last());
    if at == a.len() - 1 {
        assert(a.drop_last() =~= b.drop_last());
        lemma_step16_byte(p, x[0], y[0]);
        if x[0] == y[0] {
            lemma_step16_byte(step16(p, x[0]), x[1], y[1]);
        } else {
            lemma_step16_injective(step16(p, x[0]), step16(p, y[0]), x[1]);
        }
    } else {
        lemma_name_hash_detects_one_unit(a.drop_last(), b.drop_last(), at);
        lemma_step16_injective(p, q, x[0]);
        lemma_step16_injective(step16(p, x[0]), step16(q, x[0]), x[1]);
    }
}

/// One step of a 32-bit checksum, computed.
fn advance32(sum: u32, byte: u8) -> (next: u32)
    ensures
        next == step32(sum, byte),
{
    let rotated: u64 = (sum / 2) as u64 + (sum % 2) as u64 * 0x8000_0000;
    ((rotated + byte as u64) % 0x1_0000_0000) as u32
}

/// One step of a 16-bit checksum, computed.
fn advance16(sum: u16, byte: u8) -> (next: u16)
    ensures
        next == step16(sum, byte),
{
    let rotated: u32 = (sum / 2) as u32 + (sum % 2) as u32 * 0x8000;
    ((rotated + byte as u32) % 0x1_0000) as u16
}

/// The checksum of a boot region, stepping over the fields a driver rewrites.
#[must_use]
pub fn boot_checksum(region: &[u8]) -> (sum: u32)
    ensures
        sum == boot_sum(region@),
{
    let mut sum: u32 = 0;
    let mut at: usize = 0;
    while at < region.len()
        invariant
            at <= region@.len(),
            sum == boot_sum(region@.take(at as int)),
        decreases region@.len() - at,
    {
        proof {
            assert(region@.take(at + 1).drop_last() =~= region@.take(at as int));
        }
        if !(at == BOOT_CHECKSUM_SKIPS[0] || at == BOOT_CHECKSUM_SKIPS[1]
            || at == BOOT_CHECKSUM_SKIPS[2]) {
            sum = advance32(sum, region[at]);
        }
        at += 1;
    }
    assert(region@.take(at as int) =~= region@);
    sum
}

/// The checksum of an up-case table's bytes.
#[must_use]
pub fn upcase_checksum(table: &[u8]) -> (sum: u32)
    ensures
        sum == upcase_sum(table@),
{
    let mut sum: u32 = 0;
    let mut at: usize = 0;
    while at < table.len()
        invariant
            at <= table@.len(),
            sum == upcase_sum(table@.take(at as int)),
        decreases table@.len() - at,
    {
        proof {
            assert(table@.take(at + 1).drop_last() =~= table@.take(at as int));
        }
        sum = advance32(sum, table[at]);
        at += 1;
    }
    assert(table@.take(at as int) =~= table@);
    sum
}

/// The checksum of a directory entry set, stepping over the field that records it.
#[must_use]
pub fn entry_set_checksum(entries: &[u8]) -> (sum: u16)
    ensures
        sum == set_sum(entries@),
{
    let mut sum: u16 = 0;
    let mut at: usize = 0;
    while at < entries.len()
        invariant
            at <= entries@.len(),
            sum == set_sum(entries@.take(at as int)),
        decreases entries@.len() - at,
    {
        proof {
            assert(entries@.take(at + 1).drop_last() =~= entries@.take(at as int));
        }
        if !(at == SET_CHECKSUM_SKIPS[0] || at == SET_CHECKSUM_SKIPS[1]) {
            sum = advance16(sum, entries[at]);
        }
        at += 1;
    }
    assert(entries@.take(at as int) =~= entries@);
    sum
}

/// The hash of a name, taken over its folded units.
#[must_use]
pub fn name_hash(upcased: &[u16]) -> (hash: u16)
    ensures
        hash == hash_of(upcased@),
{
    let mut hash: u16 = 0;
    let mut at: usize = 0;
    while at < upcased.len()
        invariant
            at <= upcased@.len(),
            hash == hash_of(upcased@.take(at as int)),
        decreases upcased@.len() - at,
    {
        proof {
            assert(upcased@.take(at + 1).drop_last() =~= upcased@.take(at as int));
        }
        let unit: u16 = upcased[at];
        hash = advance16(hash, (unit % 256) as u8);
        hash = advance16(hash, (unit / 256) as u8);
        at += 1;
    }
    assert(upcased@.take(at as int) =~= upcased@);
    hash
}

} // verus!
