//! Little-endian fields of a byte buffer.
use vstd::prelude::*;

verus! {

/// The two bytes of `v`, least significant first.
pub open spec fn le16(v: u16) -> Seq<u8> {
    seq![(v % 256) as u8, (v / 256) as u8]
}

/// The four bytes of `v`, least significant first.
pub open spec fn le32(v: u32) -> Seq<u8> {
    le16((v % 0x1_0000) as u16) + le16((v / 0x1_0000) as u16)
}

/// The eight bytes of `v`, least significant first.
pub open spec fn le64(v: u64) -> Seq<u8> {
    le32((v % 0x1_0000_0000) as u32) + le32((v / 0x1_0000_0000) as u32)
}

/// The 16-bit field of `s` at `at`.
pub open spec fn u16_at(s: Seq<u8>, at: int) -> u16 {
    (s[at] + 256 * s[at + 1]) as u16
}

/// The 32-bit field of `s` at `at`.
pub open spec fn u32_at(s: Seq<u8>, at: int) -> u32 {
    (u16_at(s, at) + 0x1_0000 * u16_at(s, at + 2)) as u32
}

/// The 64-bit field of `s` at `at`.
pub open spec fn u64_at(s: Seq<u8>, at: int) -> u64 {
    (u32_at(s, at) + 0x1_0000_0000 * u32_at(s, at + 4)) as u64
}

/// The `count` 16-bit fields of `s` beginning at `at`.
pub open spec fn units_at(s: Seq<u8>, at: int, count: nat) -> Seq<u16> {
    Seq::new(count, |i: int| u16_at(s, at + 2 * i))
}

/// The bytes of every unit of `units` in turn.
pub open spec fn le16_all(units: Seq<u16>) -> Seq<u8> {
    Seq::new(
        2 * units.len(),
        |i: int| le16(units[i / 2])[i % 2],
    )
}

/// `count` zero bytes.
pub open spec fn zeros(count: nat) -> Seq<u8> {
    Seq::new(count, |i: int| 0u8)
}

/// `s` with the bytes from `at` on replaced by `part`.
pub open spec fn splice(s: Seq<u8>, at: int, part: Seq<u8>) -> Seq<u8> {
    Seq::new(
        s.len(),
        |i: int| if at <= i < at + part.len() { part[i - at] } else { s[i] },
    )
}

/// A 16-bit field reads back as the value whose bytes are there.
pub proof fn lemma_u16_at(s: Seq<u8>, at: int, v: u16)
    requires
        0 <= at,
        at + 2 <= s.len(),
        s.subrange(at, at + 2) == le16(v),
    ensures
        u16_at(s, at) == v,
{
    assert(s[at] == s.subrange(at, at + 2)[0]);
    assert(s[at + 1] == s.subrange(at, at + 2)[1]);
}

/// A 32-bit field reads back as the value whose bytes are there.
pub proof fn lemma_u32_at(s: Seq<u8>, at: int, v: u32)
    requires
        0 <= at,
        at + 4 <= s.len(),
        s.subrange(at, at + 4) == le32(v),
    ensures
        u32_at(s, at) == v,
{
    let low = (v % 0x1_0000) as u16;
    let high = (v / 0x1_0000) as u16;
    assert(s.subrange(at, at + 2) =~= le16(low)) by {
        assert(s.subrange(at, at + 2) =~= s.subrange(at, at + 4).subrange(0, 2));
    }
    assert(s.subrange(at + 2, at + 4) =~= le16(high)) by {
        assert(s.subrange(at + 2, at + 4) =~= s.subrange(at, at + 4).subrange(2, 4));
    }
    lemma_u16_at(s, at, low);
    lemma_u16_at(s, at + 2, high);
}

/// A 64-bit field reads back as the value whose bytes are there.
pub proof fn lemma_u64_at(s: Seq<u8>, at: int, v: u64)
    requires
        0 <= at,
        at + 8 <= s.len(),
        s.subrange(at, at + 8) == le64(v),
    ensures
        u64_at(s, at) == v,
{
    let low = (v % 0x1_0000_0000) as u32;
    let high = (v / 0x1_0000_0000) as u32;
    assert(s.subrange(at, at + 4) =~= le32(low)) by {
        assert(s.subrange(at, at + 4) =~= s.subrange(at, at + 8).subrange(0, 4));
    }
    assert(s.subrange(at + 4, at + 8) =~= le32(high)) by {
        assert(s.subrange(at + 4, at + 8) =~= s.subrange(at, at + 8).subrange(4, 8));
    }
    lemma_u32_at(s, at, low);
    lemma_u32_at(s, at + 4, high);
}

/// Units read back as the units whose bytes are there.
pub proof fn lemma_units_at(s: Seq<u8>, at: int, units: Seq<u16>)
    requires
        0 <= at,
        at + 2 * units.len() <= s.len(),
        s.subrange(at, at + 2 * units.len()) == le16_all(units),
    ensures
        units_at(s, at, units.len()) == units,
{
    assert forall|i: int| 0 <= i < units.len() implies #[trigger] u16_at(s, at + 2 * i)
        == units[i] by {
        let whole = s.subrange(at, at + 2 * units.len());
        assert(whole[2 * i] == le16(units[i])[0]) by {
            assert((2 * i) / 2 == i && (2 * i) % 2 == 0);
        }
        assert(whole[2 * i + 1] == le16(units[i])[1]) by {
            assert((2 * i + 1) / 2 == i && (2 * i + 1) % 2 == 1);
        }
    }
    assert(units_at(s, at, units.len()) =~= units);
}

/// The byte of `buf` at `at`.
pub fn get_u8(buf: &[u8], at: usize) -> (v: u8)
    requires
        at < buf@.len(),
    ensures
        v == buf@[at as int],
{
    buf[at]
}

/// The 16-bit field of `buf` at `at`.
pub fn get_u16(buf: &[u8], at: usize) -> (v: u16)
    requires
        at + 2 <= buf@.len(),
    ensures
        v == u16_at(buf@, at as int),
{
    buf[at] as u16 + 256 * (buf[at + 1] as u16)
}

/// The 32-bit field of `buf` at `at`.
pub fn get_u32(buf: &[u8], at: usize) -> (v: u32)
    requires
        at + 4 <= buf@.len(),
    ensures
        v == u32_at(buf@, at as int),
{
    let _len: usize = buf.len();
    get_u16(buf, at) as u32 + 0x1_0000 * (get_u16(buf, at + 2) as u32)
}

/// The 64-bit field of `buf` at `at`.
pub fn get_u64(buf: &[u8], at: usize) -> (v: u64)
    requires
        at + 8 <= buf@.len(),
    ensures
        v == u64_at(buf@, at as int),
{
    let _len: usize = buf.len();
    get_u32(buf, at) as u64 + 0x1_0000_0000 * (get_u32(buf, at + 4) as u64)
}

/// The `count` 16-bit fields of `buf` beginning at `at`.
pub fn get_units(buf: &[u8], at: usize, count: usize) -> (units: Vec<u16>)
    requires
        at + 2 * count <= buf@.len(),
    ensures
        units@ == units_at(buf@, at as int, count as nat),
{
    let mut units: Vec<u16> = Vec::new();
    let len: usize = buf.len();
    let mut i: usize = 0;
    while i < count
        invariant
            i <= count,
            len == buf@.len(),
            at + 2 * count <= len,
            units@ == units_at(buf@, at as int, i as nat),
        decreases count - i,
    {
        units.push(get_u16(buf, at + 2 * i));
        i += 1;
        assert(units@ =~= units_at(buf@, at as int, i as nat));
    }
    units
}

/// The bytes of `buf` from `from` up to `to`, as a vector.
pub fn copy_range(buf: &[u8], from: usize, to: usize) -> (out: Vec<u8>)
    requires
        from <= to <= buf@.len(),
    ensures
        out@ == buf@.subrange(from as int, to as int),
{
    let mut out: Vec<u8> = Vec::new();
    out.extend_from_slice(&buf[from..to]);
    assert(out@ =~= buf@.subrange(from as int, to as int));
    out
}

/// A copy of `buf`.
pub fn copy_of(buf: &[u8]) -> (out: Vec<u8>)
    ensures
        out@ == buf@,
{
    let out = copy_range(buf, 0, buf.len());
    assert(out@ =~= buf@);
    out
}

/// Append the bytes of `v` to `out`.
pub fn push_u16(out: &mut Vec<u8>, v: u16)
    ensures
        final(out)@ == old(out)@ + le16(v),
{
    out.push((v % 256) as u8);
    out.push((v / 256) as u8);
    assert(out@ =~= old(out)@ + le16(v));
}

/// Append the bytes of `v` to `out`.
pub fn push_u32(out: &mut Vec<u8>, v: u32)
    ensures
        final(out)@ == old(out)@ + le32(v),
{
    push_u16(out, (v % 0x1_0000) as u16);
    push_u16(out, (v / 0x1_0000) as u16);
    assert(out@ =~= old(out)@ + le32(v));
}

/// Append the bytes of `v` to `out`.
pub fn push_u64(out: &mut Vec<u8>, v: u64)
    ensures
        final(out)@ == old(out)@ + le64(v),
{
    push_u32(out, (v % 0x1_0000_0000) as u32);
    push_u32(out, (v / 0x1_0000_0000) as u32);
    assert(out@ =~= old(out)@ + le64(v));
}

/// Append the bytes of every unit of `units` to `out`.
pub fn push_units(out: &mut Vec<u8>, units: &[u16])
    ensures
        final(out)@ == old(out)@ + le16_all(units@),
{
    let mut i: usize = 0;
    assert(out@ =~= old(out)@ + le16_all(units@.take(0)));
    while i < units.len()
        invariant
            i <= units@.len(),
            out@ == old(out)@ + le16_all(units@.take(i as int)),
        decreases units@.len() - i,
    {
        push_u16(out, units[i]);
        proof {
            let before = units@.take(i as int);
            let after = units@.take(i + 1);
            assert(le16_all(after) =~= le16_all(before) + le16(units@[i as int]));
        }
        i += 1;
        assert(out@ =~= old(out)@ + le16_all(units@.take(i as int)));
    }
    assert(units@.take(i as int) =~= units@);
}

/// Append `count` zero bytes to `out`.
pub fn push_zeros(out: &mut Vec<u8>, count: usize)
    ensures
        final(out)@ == old(out)@ + zeros(count as nat),
{
    let mut i: usize = 0;
    while i < count
        invariant
            i <= count,
            out@ =~= old(out)@ + zeros(i as nat),
        decreases count - i,
    {
        out.push(0);
        i += 1;
    }
}

/// Append all of `part` to `out`.
pub fn push_all(out: &mut Vec<u8>, part: &[u8])
    ensures
        final(out)@ == old(out)@ + part@,
{
    out.extend_from_slice(part);
    assert(out@ =~= old(out)@ + part@);
}

/// Overwrite the bytes of `buf` from `at` on with `part`.
pub fn put_all(buf: &mut [u8], at: usize, part: &[u8])
    requires
        at + part@.len() <= old(buf)@.len(),
    ensures
        final(buf)@ == splice(old(buf)@, at as int, part@),
{
    let len: usize = buf.len();
    let mut i: usize = 0;
    assert(buf@ =~= splice(old(buf)@, at as int, part@.take(0)));
    while i < part.len()
        invariant
            i <= part@.len(),
            len == old(buf)@.len(),
            at + part@.len() <= len,
            buf@.len() == old(buf)@.len(),
            buf@ == splice(old(buf)@, at as int, part@.take(i as int)),
        decreases part@.len() - i,
    {
        buf[at + i] = part[i];
        i += 1;
        assert(buf@ =~= splice(old(buf)@, at as int, part@.take(i as int)));
    }
    assert(part@.take(i as int) =~= part@);
}

/// Overwrite the bytes of `buf` from `at` on with `part`.
pub fn put_vec(buf: &mut Vec<u8>, at: usize, part: &[u8])
    requires
        at + part@.len() <= old(buf)@.len(),
    ensures
        final(buf)@ == splice(old(buf)@, at as int, part@),
{
    let len: usize = buf.len();
    let mut i: usize = 0;
    assert(buf@ =~= splice(old(buf)@, at as int, part@.take(0)));
    while i < part.len()
        invariant
            i <= part@.len(),
            len == old(buf)@.len(),
            at + part@.len() <= len,
            buf@.len() == old(buf)@.len(),
            buf@ == splice(old(buf)@, at as int, part@.take(i as int)),
        decreases part@.len() - i,
    {
        buf.set(at + i, part[i]);
        i += 1;
        assert(buf@ =~= splice(old(buf)@, at as int, part@.take(i as int)));
    }
    assert(part@.take(i as int) =~= part@);
}

/// Whether two byte strings are the same.
pub fn same_bytes(a: &[u8], b: &[u8]) -> (same: bool)
    ensures
        same == (a@ == b@),
{
    if a.len() != b.len() {
        return false;
    }
    let mut i: usize = 0;
    while i < a.len()
        invariant
            i <= a@.len(),
            a@.len() == b@.len(),
            forall|j: int| 0 <= j < i ==> a@[j] == b@[j],
        decreases a@.len() - i,
    {
        if a[i] != b[i] {
            return false;
        }
        i += 1;
    }
    assert(a@ =~= b@);
    true
}

/// Whether two sequences of units are the same.
pub fn same_units(a: &[u16], b: &[u16]) -> (same: bool)
    ensures
        same == (a@ == b@),
{
    if a.len() != b.len() {
        return false;
    }
    let mut i: usize = 0;
    while i < a.len()
        invariant
            i <= a@.len(),
            a@.len() == b@.len(),
            forall|j: int| 0 <= j < i ==> a@[j] == b@[j],
        decreases a@.len() - i,
    {
        if a[i] != b[i] {
            return false;
        }
        i += 1;
    }
    assert(a@ =~= b@);
    true
}

} // verus!
