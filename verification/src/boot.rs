//! The boot region: the sector that describes the volume, and the sectors behind it.
use vstd::arithmetic::power2::pow2;
use vstd::prelude::*;

use crate::bytes::{
    get_u16, get_u32, get_u64, get_u8, le16, le32, le64, lemma_u16_at, lemma_u32_at, lemma_u64_at,
    push_all, push_u16, push_u32, push_u64, push_zeros, put_all, same_bytes, splice, u16_at, u32_at,
    u64_at, zeros,
};
use crate::error::ParseError;
use crate::number::power_of_two;

verus! {

/// What `FileSystemName` holds on every volume of the format.
pub const FILE_SYSTEM_NAME: [u8; 8] = [0x45, 0x58, 0x46, 0x41, 0x54, 0x20, 0x20, 0x20];

/// Where the run the format requires to be zero begins.
pub const MUST_BE_ZERO_START: usize = 11;

/// Where the run the format requires to be zero ends.
pub const MUST_BE_ZERO_END: usize = 64;

/// What a main boot sector ends with.
pub const BOOT_SIGNATURE: u16 = 0xAA55;

/// What an extended boot sector ends with.
pub const EXTENDED_BOOT_SIGNATURE: u32 = 0xAA55_0000;

/// The revision of the format a formatter records.
pub const FILE_SYSTEM_REVISION: u16 = 0x0100;

/// The major half of the revision.
pub const FILE_SYSTEM_MAJOR_REVISION: u8 = 1;

/// The minor half of the revision.
pub const FILE_SYSTEM_MINOR_REVISION: u8 = 0;

/// Sectors of a boot region.
pub const BOOT_REGION_SECTORS: u64 = 12;

/// The first extended boot sector of a region.
pub const EXTENDED_BOOT_FIRST_SECTOR: u64 = 1;

/// Extended boot sectors of a region.
pub const EXTENDED_BOOT_SECTORS: u64 = 8;

/// The sector of a region the OEM parameters are in.
pub const OEM_PARAMETERS_SECTOR: u64 = 9;

/// The sector of a region the format reserves.
pub const RESERVED_SECTOR: u64 = 10;

/// The sector of a region its checksum is in.
pub const CHECKSUM_SECTOR: u64 = 11;

/// Where the main boot region begins.
pub const MAIN_BOOT_REGION_SECTOR: u64 = 0;

/// Where the backup boot region begins.
pub const BACKUP_BOOT_REGION_SECTOR: u64 = 12;

/// The flag that says which allocation table is live.
pub const VOLUME_FLAG_ACTIVE_FAT: u16 = 0x0001;

/// The flag a driver sets while it has the volume open.
pub const VOLUME_FLAG_VOLUME_DIRTY: u16 = 0x0002;

/// The flag a driver sets when the medium failed it.
pub const VOLUME_FLAG_MEDIA_FAILURE: u16 = 0x0004;

/// The flag a driver clears before it changes anything.
pub const VOLUME_FLAG_CLEAR_TO_ZERO: u16 = 0x0008;

/// Bytes of boot code in a main boot sector.
pub const BOOT_CODE_LEN: usize = 390;

/// The largest the two size shifts may sum to.
pub const MAX_CLUSTER_SHIFT: u8 = 25;

/// What `PercentInUse` holds where nothing has measured the volume.
pub const PERCENT_IN_USE_UNKNOWN: u8 = 0xFF;

/// The largest percentage `PercentInUse` holds.
pub const PERCENT_IN_USE_MAX: u8 = 100;

/// The sector that describes the volume.
#[derive(Clone, Copy, PartialEq, Eq, Debug)]
pub struct MainBootSector {
    /// The jump instruction the sector begins with.
    pub jump_boot: [u8; 3],
    /// The name of the format.
    pub file_system_name: [u8; 8],
    /// Where the partition begins on its medium, in sectors.
    pub partition_offset: u64,
    /// Sectors of the volume.
    pub volume_length: u64,
    /// The sector the allocation table begins at.
    pub fat_offset: u32,
    /// Sectors of one allocation table.
    pub fat_length: u32,
    /// The sector the cluster heap begins at.
    pub cluster_heap_offset: u32,
    /// Clusters of the heap.
    pub cluster_count: u32,
    /// The first cluster of the root directory.
    pub first_cluster_of_root: u32,
    /// The volume's serial number.
    pub volume_serial: u32,
    /// The revision of the format, major in the high byte.
    pub file_system_revision: u16,
    /// The state a driver keeps.
    pub volume_flags: u16,
    /// The exponent of the sector size.
    pub bytes_per_sector_shift: u8,
    /// The exponent of the sectors in a cluster.
    pub sectors_per_cluster_shift: u8,
    /// How many allocation tables there are.
    pub number_of_fats: u8,
    /// The drive number the boot code is told.
    pub drive_select: u8,
    /// How full the volume is, in percent.
    pub percent_in_use: u8,
    /// The boot code.
    pub boot_code: [u8; BOOT_CODE_LEN],
}

/// The first byte of `s` between `from` and `to` that is not zero.
pub open spec fn first_nonzero(s: Seq<u8>, from: int, to: int) -> Option<u8>
    decreases to - from,
{
    if from >= to {
        None
    } else if s[from] != 0 {
        Some(s[from])
    } else {
        first_nonzero(s, from + 1, to)
    }
}

/// Why `buf` is not a main boot sector, where it is not.
pub open spec fn boot_fault(buf: Seq<u8>) -> Option<ParseError> {
    if buf.len() < MainBootSector::SIZE {
        Some(
            ParseError::TooShort {
                structure: "exFAT main boot sector",
                need: MainBootSector::SIZE,
                got: buf.len() as usize,
            },
        )
    } else if buf.subrange(3, 11) != FILE_SYSTEM_NAME@ {
        Some(
            ParseError::BadMagic {
                structure: "exFAT main boot sector: FileSystemName",
                found: u32_at(buf, 3),
                expected: u32_at(FILE_SYSTEM_NAME@, 0),
            },
        )
    } else if first_nonzero(buf, 11, 64) is Some {
        Some(
            ParseError::BadMagic {
                structure: "exFAT main boot sector: MustBeZero",
                found: first_nonzero(buf, 11, 64)->Some_0 as u32,
                expected: 0,
            },
        )
    } else if u16_at(buf, 510) != BOOT_SIGNATURE {
        Some(
            ParseError::BadMagic {
                structure: "exFAT main boot sector: BootSignature",
                found: u16_at(buf, 510) as u32,
                expected: BOOT_SIGNATURE as u32,
            },
        )
    } else {
        None
    }
}

/// The `N` bytes of `buf` at `at`.
fn get_arr<const N: usize>(buf: &[u8], at: usize) -> (out: [u8; N])
    requires
        at + N <= buf@.len(),
    ensures
        out@ == buf@.subrange(at as int, at + N),
{
    let len: usize = buf.len();
    let mut out: [u8; N] = [0; N];
    let mut i: usize = 0;
    while i < N
        invariant
            i <= N,
            len == buf@.len(),
            at + N <= len,
            out@.len() == N,
            forall|j: int| 0 <= j < i ==> out@[j] == buf@[at + j],
        decreases N - i,
    {
        out[i] = buf[at + i];
        i += 1;
    }
    assert(out@ =~= buf@.subrange(at as int, at + N));
    out
}

impl MainBootSector {
    /// Bytes of the sector the format describes; what follows them in a larger sector is not
    /// part of it.
    pub const SIZE: usize = 512;

    /// The jump instruction a formatter writes.
    pub const JUMP_BOOT: [u8; 3] = [0xEB, 0x76, 0x90];

    /// The bytes of the sector.
    pub open spec fn encoded(self) -> Seq<u8> {
        self.jump_boot@ + self.file_system_name@ + zeros(53) + le64(self.partition_offset) + le64(
            self.volume_length,
        ) + le32(self.fat_offset) + le32(self.fat_length) + le32(self.cluster_heap_offset) + le32(
            self.cluster_count,
        ) + le32(self.first_cluster_of_root) + le32(self.volume_serial) + le16(
            self.file_system_revision,
        ) + le16(self.volume_flags) + seq![
            self.bytes_per_sector_shift,
            self.sectors_per_cluster_shift,
            self.number_of_fats,
            self.drive_select,
            self.percent_in_use,
        ] + zeros(7) + self.boot_code@ + le16(BOOT_SIGNATURE)
    }

    /// Whether the fields of `buf` are this sector's.
    pub open spec fn is_at(self, buf: Seq<u8>) -> bool {
        &&& self.jump_boot@ == buf.subrange(0, 3)
        &&& self.file_system_name@ == buf.subrange(3, 11)
        &&& self.partition_offset == u64_at(buf, 64)
        &&& self.volume_length == u64_at(buf, 72)
        &&& self.fat_offset == u32_at(buf, 80)
        &&& self.fat_length == u32_at(buf, 84)
        &&& self.cluster_heap_offset == u32_at(buf, 88)
        &&& self.cluster_count == u32_at(buf, 92)
        &&& self.first_cluster_of_root == u32_at(buf, 96)
        &&& self.volume_serial == u32_at(buf, 100)
        &&& self.file_system_revision == u16_at(buf, 104)
        &&& self.volume_flags == u16_at(buf, 106)
        &&& self.bytes_per_sector_shift == buf[108]
        &&& self.sectors_per_cluster_shift == buf[109]
        &&& self.number_of_fats == buf[110]
        &&& self.drive_select == buf[111]
        &&& self.percent_in_use == buf[112]
        &&& self.boot_code@ == buf.subrange(120, 510)
    }

    /// Read a main boot sector, refusing bytes that do not carry the three values the format
    /// fixes.
    pub fn read_from(buf: &[u8]) -> (r: Result<Self, ParseError>)
        ensures
            match r {
                Ok(boot) => boot_fault(buf@) is None && boot.is_at(buf@),
                Err(e) => boot_fault(buf@) == Some(e),
            },
    {
        let len: usize = buf.len();
        if len < Self::SIZE {
            return Err(
                ParseError::TooShort {
                    structure: "exFAT main boot sector",
                    need: Self::SIZE,
                    got: len,
                },
            );
        }
        let name: [u8; 8] = get_arr::<8>(buf, 3);
        if !same_bytes(&name, &FILE_SYSTEM_NAME) {
            return Err(
                ParseError::BadMagic {
                    structure: "exFAT main boot sector: FileSystemName",
                    found: get_u32(buf, 3),
                    expected: get_u32(&FILE_SYSTEM_NAME, 0),
                },
            );
        }
        let mut at: usize = MUST_BE_ZERO_START;
        while at < MUST_BE_ZERO_END
            invariant
                MUST_BE_ZERO_START <= at <= MUST_BE_ZERO_END,
                buf@.len() >= Self::SIZE,
                buf@.subrange(3, 11) == FILE_SYSTEM_NAME@,
                first_nonzero(buf@, at as int, 64) == first_nonzero(buf@, 11, 64),
            decreases MUST_BE_ZERO_END - at,
        {
            if buf[at] != 0 {
                return Err(
                    ParseError::BadMagic {
                        structure: "exFAT main boot sector: MustBeZero",
                        found: buf[at] as u32,
                        expected: 0,
                    },
                );
            }
            at += 1;
        }
        let signature: u16 = get_u16(buf, 510);
        if signature != BOOT_SIGNATURE {
            return Err(
                ParseError::BadMagic {
                    structure: "exFAT main boot sector: BootSignature",
                    found: signature as u32,
                    expected: BOOT_SIGNATURE as u32,
                },
            );
        }
        Ok(
            Self {
                jump_boot: get_arr::<3>(buf, 0),
                file_system_name: name,
                partition_offset: get_u64(buf, 64),
                volume_length: get_u64(buf, 72),
                fat_offset: get_u32(buf, 80),
                fat_length: get_u32(buf, 84),
                cluster_heap_offset: get_u32(buf, 88),
                cluster_count: get_u32(buf, 92),
                first_cluster_of_root: get_u32(buf, 96),
                volume_serial: get_u32(buf, 100),
                file_system_revision: get_u16(buf, 104),
                volume_flags: get_u16(buf, 106),
                bytes_per_sector_shift: get_u8(buf, 108),
                sectors_per_cluster_shift: get_u8(buf, 109),
                number_of_fats: get_u8(buf, 110),
                drive_select: get_u8(buf, 111),
                percent_in_use: get_u8(buf, 112),
                boot_code: get_arr::<BOOT_CODE_LEN>(buf, 120),
            },
        )
    }

    /// The bytes of the sector.
    fn encode(&self) -> (out: Vec<u8>)
        ensures
            out@ == self.encoded(),
    {
        let mut out: Vec<u8> = Vec::new();
        push_all(&mut out, &self.jump_boot);
        push_all(&mut out, &self.file_system_name);
        push_zeros(&mut out, 53);
        push_u64(&mut out, self.partition_offset);
        push_u64(&mut out, self.volume_length);
        push_u32(&mut out, self.fat_offset);
        push_u32(&mut out, self.fat_length);
        push_u32(&mut out, self.cluster_heap_offset);
        push_u32(&mut out, self.cluster_count);
        push_u32(&mut out, self.first_cluster_of_root);
        push_u32(&mut out, self.volume_serial);
        push_u16(&mut out, self.file_system_revision);
        push_u16(&mut out, self.volume_flags);
        let single: [u8; 5] = [
            self.bytes_per_sector_shift,
            self.sectors_per_cluster_shift,
            self.number_of_fats,
            self.drive_select,
            self.percent_in_use,
        ];
        push_all(&mut out, &single);
        push_zeros(&mut out, 7);
        push_all(&mut out, &self.boot_code);
        push_u16(&mut out, BOOT_SIGNATURE);
        proof {
            assert(single@ =~= seq![
                self.bytes_per_sector_shift,
                self.sectors_per_cluster_shift,
                self.number_of_fats,
                self.drive_select,
                self.percent_in_use,
            ]);
            assert(Seq::<u8>::empty() + self.jump_boot@ =~= self.jump_boot@);
        }
        out
    }

    /// Write the sector into the first 512 bytes of `buf`.
    pub fn write_to(&self, buf: &mut [u8]) -> (r: Result<(), ParseError>)
        ensures
            r is Ok <==> old(buf)@.len() >= Self::SIZE,
            r is Ok ==> final(buf)@ == splice(old(buf)@, 0, self.encoded()),
            r is Err ==> final(buf)@ == old(buf)@ && r->Err_0 == (ParseError::TooShort {
                structure: "exFAT main boot sector",
                need: Self::SIZE,
                got: old(buf)@.len() as usize,
            }),
    {
        let len: usize = buf.len();
        if len < Self::SIZE {
            return Err(
                ParseError::TooShort {
                    structure: "exFAT main boot sector",
                    need: Self::SIZE,
                    got: len,
                },
            );
        }
        let bytes = self.encode();
        put_all(buf, 0, &bytes);
        Ok(())
    }

    /// The major half of the revision.
    #[must_use]
    pub fn major_revision(&self) -> (major: u8)
        ensures
            major == self.file_system_revision / 256,
    {
        (self.file_system_revision / 256) as u8
    }

    /// The minor half of the revision.
    #[must_use]
    pub fn minor_revision(&self) -> (minor: u8)
        ensures
            minor == self.file_system_revision % 256,
    {
        (self.file_system_revision % 256) as u8
    }

    /// The sector size the sector records, where its shift is one the format defines.
    pub open spec fn sector_size(self) -> Option<u32> {
        if 9 <= self.bytes_per_sector_shift <= 12 {
            Some(pow2(self.bytes_per_sector_shift as nat) as u32)
        } else {
            None
        }
    }

    /// The cluster size the sector records, where both shifts are ones the format defines.
    pub open spec fn cluster_size(self) -> Option<u32> {
        if self.sector_size() is Some && self.bytes_per_sector_shift
            + self.sectors_per_cluster_shift <= MAX_CLUSTER_SHIFT {
            Some(
                pow2(
                    (self.bytes_per_sector_shift + self.sectors_per_cluster_shift) as nat,
                ) as u32,
            )
        } else {
            None
        }
    }

    /// The sector size, or nothing where its shift is outside the range the format defines.
    #[must_use]
    pub fn bytes_per_sector(&self) -> (size: Option<u32>)
        ensures
            size == self.sector_size(),
    {
        if 9 <= self.bytes_per_sector_shift && self.bytes_per_sector_shift <= 12 {
            Some(power_of_two(self.bytes_per_sector_shift))
        } else {
            None
        }
    }

    /// The cluster size, or nothing where either shift is outside the range the format
    /// defines.
    #[must_use]
    pub fn bytes_per_cluster(&self) -> (size: Option<u32>)
        ensures
            size == self.cluster_size(),
    {
        if self.bytes_per_sector().is_none() {
            return None;
        }
        let shift: u16 = self.bytes_per_sector_shift as u16 + self.sectors_per_cluster_shift as u16;
        if shift > MAX_CLUSTER_SHIFT as u16 {
            return None;
        }
        Some(power_of_two(shift as u8))
    }
}

/// How full `used` of `total` is, in percent and never above a hundred.
pub open spec fn percentage(used: int, total: int) -> int {
    if total == 0 {
        0
    } else if used * 100 / total > 100 {
        100
    } else {
        used * 100 / total
    }
}

/// How full a volume with `used` of its `total` clusters in use is, in percent.
#[must_use]
pub fn percent_in_use(used: u32, total: u32) -> (percent: u8)
    ensures
        percent == percentage(used as int, total as int),
        percent <= PERCENT_IN_USE_MAX,
{
    if total == 0 {
        return 0;
    }
    let percent: u64 = used as u64 * 100 / total as u64;
    if percent > 100 {
        100
    } else {
        percent as u8
    }
}

/// Write an extended boot sector: zeros, and the signature at its end.
pub fn write_extended_boot_sector(sector: &mut [u8])
    requires
        old(sector)@.len() >= 4,
    ensures
        final(sector)@ == zeros((old(sector)@.len() - 4) as nat) + le32(EXTENDED_BOOT_SIGNATURE),
{
    let len: usize = sector.len();
    let mut bytes: Vec<u8> = Vec::new();
    push_zeros(&mut bytes, len - 4);
    push_u32(&mut bytes, EXTENDED_BOOT_SIGNATURE);
    put_all(sector, 0, &bytes);
    assert(sector@ =~= zeros((len - 4) as nat) + le32(EXTENDED_BOOT_SIGNATURE));
}

/// The four bytes an extended boot sector ends with, or nothing where it is shorter than that.
#[must_use]
pub fn extended_boot_signature(sector: &[u8]) -> (signature: Option<u32>)
    ensures
        signature == (if sector@.len() < 4 {
            None::<u32>
        } else {
            Some(u32_at(sector@, sector@.len() - 4))
        }),
{
    let len: usize = sector.len();
    if len < 4 {
        return None;
    }
    Some(get_u32(sector, len - 4))
}

/// Write a checksum sector: the one value over and over.
pub fn write_checksum_sector(sector: &mut [u8], checksum: u32)
    requires
        old(sector)@.len() % 4 == 0,
    ensures
        final(sector)@ == Seq::new(old(sector)@.len(), |i: int| le32(checksum)[i % 4]),
{
    let mut word: Vec<u8> = Vec::new();
    push_u32(&mut word, checksum);
    let len: usize = sector.len();
    let mut i: usize = 0;
    while i < len
        invariant
            i <= len,
            len == old(sector)@.len(),
            sector@.len() == len,
            word@ =~= le32(checksum),
            forall|j: int| 0 <= j < i ==> #[trigger] sector@[j] == le32(checksum)[j % 4],
        decreases len - i,
    {
        sector[i] = word[i % 4];
        i += 1;
    }
    assert(sector@ =~= Seq::new(old(sector)@.len(), |i: int| le32(checksum)[i % 4]));
}

/// Whether `sector` is whole words of one value.
pub open spec fn repeats_one_word(sector: Seq<u8>) -> bool {
    &&& sector.len() >= 4
    &&& sector.len() % 4 == 0
    &&& forall|i: int| 0 <= i < sector.len() ==> #[trigger] sector[i] == sector[i % 4]
}

/// The value a checksum sector repeats, or nothing where it does not repeat one.
#[must_use]
pub fn checksum_sector_value(sector: &[u8]) -> (value: Option<u32>)
    ensures
        value == (if repeats_one_word(sector@) {
            Some(u32_at(sector@, 0))
        } else {
            None::<u32>
        }),
{
    let len: usize = sector.len();
    if len < 4 || len % 4 != 0 {
        return None;
    }
    let mut i: usize = 0;
    while i < len
        invariant
            i <= len,
            len == sector@.len(),
            len >= 4,
            forall|j: int| 0 <= j < i ==> #[trigger] sector@[j] == sector@[j % 4],
        decreases len - i,
    {
        if sector[i] != sector[i % 4] {
            return None;
        }
        i += 1;
    }
    Some(get_u32(sector, 0))
}

/// Where each part of a sector lies among its bytes.
proof fn lemma_boot_sector_parts(boot: MainBootSector)
    ensures
        boot.encoded().len() == MainBootSector::SIZE,
        boot.encoded().subrange(0, 3) == boot.jump_boot@,
        boot.encoded().subrange(3, 11) == boot.file_system_name@,
        boot.encoded().subrange(11, 64) == zeros(53),
        boot.encoded().subrange(64, 72) == le64(boot.partition_offset),
        boot.encoded().subrange(72, 80) == le64(boot.volume_length),
        boot.encoded().subrange(80, 84) == le32(boot.fat_offset),
        boot.encoded().subrange(84, 88) == le32(boot.fat_length),
        boot.encoded().subrange(88, 92) == le32(boot.cluster_heap_offset),
        boot.encoded().subrange(92, 96) == le32(boot.cluster_count),
        boot.encoded().subrange(96, 100) == le32(boot.first_cluster_of_root),
        boot.encoded().subrange(100, 104) == le32(boot.volume_serial),
        boot.encoded().subrange(104, 106) == le16(boot.file_system_revision),
        boot.encoded().subrange(106, 108) == le16(boot.volume_flags),
        boot.encoded()[108] == boot.bytes_per_sector_shift,
        boot.encoded()[109] == boot.sectors_per_cluster_shift,
        boot.encoded()[110] == boot.number_of_fats,
        boot.encoded()[111] == boot.drive_select,
        boot.encoded()[112] == boot.percent_in_use,
        boot.encoded().subrange(120, 510) == boot.boot_code@,
        boot.encoded().subrange(510, 512) == le16(BOOT_SIGNATURE),
{
    let single = seq![
        boot.bytes_per_sector_shift,
        boot.sectors_per_cluster_shift,
        boot.number_of_fats,
        boot.drive_select,
        boot.percent_in_use,
    ];
    lemma_parts(
        boot.jump_boot@,
        boot.file_system_name@,
        zeros(53),
        le64(boot.partition_offset),
        le64(boot.volume_length),
        le32(boot.fat_offset),
        le32(boot.fat_length),
        le32(boot.cluster_heap_offset),
        le32(boot.cluster_count),
        le32(boot.first_cluster_of_root),
        le32(boot.volume_serial),
        le16(boot.file_system_revision),
        le16(boot.volume_flags),
        single,
        zeros(7),
        boot.boot_code@,
        le16(BOOT_SIGNATURE),
    );
    let s = boot.encoded();
    assert(s.subrange(108, 113) == single);
    assert(s[108] == s.subrange(108, 113)[0]);
    assert(s[109] == s.subrange(108, 113)[1]);
    assert(s[110] == s.subrange(108, 113)[2]);
    assert(s[111] == s.subrange(108, 113)[3]);
    assert(s[112] == s.subrange(108, 113)[4]);
}

/// Where the parts of a sequence put together from seventeen lie in it.
proof fn lemma_parts(
    a: Seq<u8>,
    b: Seq<u8>,
    c: Seq<u8>,
    d: Seq<u8>,
    e: Seq<u8>,
    f: Seq<u8>,
    g: Seq<u8>,
    h: Seq<u8>,
    i: Seq<u8>,
    j: Seq<u8>,
    k: Seq<u8>,
    l: Seq<u8>,
    m: Seq<u8>,
    n: Seq<u8>,
    o: Seq<u8>,
    p: Seq<u8>,
    q: Seq<u8>,
)
    requires
        a.len() == 3,
        b.len() == 8,
        c.len() == 53,
        d.len() == 8,
        e.len() == 8,
        f.len() == 4,
        g.len() == 4,
        h.len() == 4,
        i.len() == 4,
        j.len() == 4,
        k.len() == 4,
        l.len() == 2,
        m.len() == 2,
        n.len() == 5,
        o.len() == 7,
        p.len() == 390,
        q.len() == 2,
    ensures
        ({
            let s = a + b + c + d + e + f + g + h + i + j + k + l + m + n + o + p + q;
            &&& s.len() == 512
            &&& s.subrange(0, 3) == a
            &&& s.subrange(3, 11) == b
            &&& s.subrange(11, 64) == c
            &&& s.subrange(64, 72) == d
            &&& s.subrange(72, 80) == e
            &&& s.subrange(80, 84) == f
            &&& s.subrange(84, 88) == g
            &&& s.subrange(88, 92) == h
            &&& s.subrange(92, 96) == i
            &&& s.subrange(96, 100) == j
            &&& s.subrange(100, 104) == k
            &&& s.subrange(104, 106) == l
            &&& s.subrange(106, 108) == m
            &&& s.subrange(108, 113) == n
            &&& s.subrange(120, 510) == p
            &&& s.subrange(510, 512) == q
        }),
{
    let s = a + b + c + d + e + f + g + h + i + j + k + l + m + n + o + p + q;
    assert(s.subrange(0, 3) =~= a);
    assert(s.subrange(3, 11) =~= b);
    assert(s.subrange(11, 64) =~= c);
    assert(s.subrange(64, 72) =~= d);
    assert(s.subrange(72, 80) =~= e);
    assert(s.subrange(80, 84) =~= f);
    assert(s.subrange(84, 88) =~= g);
    assert(s.subrange(88, 92) =~= h);
    assert(s.subrange(92, 96) =~= i);
    assert(s.subrange(96, 100) =~= j);
    assert(s.subrange(100, 104) =~= k);
    assert(s.subrange(104, 106) =~= l);
    assert(s.subrange(106, 108) =~= m);
    assert(s.subrange(108, 113) =~= n);
    assert(s.subrange(120, 510) =~= p);
    assert(s.subrange(510, 512) =~= q);
}

/// A sector written and read back is the sector: a main boot sector carrying the format's name
/// has no fault, and its fields are the ones that were written.
pub proof fn lemma_boot_sector_round_trip(boot: MainBootSector)
    requires
        boot.file_system_name@ == FILE_SYSTEM_NAME@,
    ensures
        boot.encoded().len() == MainBootSector::SIZE,
        boot_fault(boot.encoded()) is None,
        boot.is_at(boot.encoded()),
{
    lemma_boot_sector_parts(boot);
    let s = boot.encoded();
    lemma_u64_at(s, 64, boot.partition_offset);
    lemma_u64_at(s, 72, boot.volume_length);
    lemma_u32_at(s, 80, boot.fat_offset);
    lemma_u32_at(s, 84, boot.fat_length);
    lemma_u32_at(s, 88, boot.cluster_heap_offset);
    lemma_u32_at(s, 92, boot.cluster_count);
    lemma_u32_at(s, 96, boot.first_cluster_of_root);
    lemma_u32_at(s, 100, boot.volume_serial);
    lemma_u16_at(s, 104, boot.file_system_revision);
    lemma_u16_at(s, 106, boot.volume_flags);
    lemma_u16_at(s, 510, BOOT_SIGNATURE);
    assert forall|i: int| 11 <= i < 64 implies s[i] == 0 by {
        assert(s[i] == s.subrange(11, 64)[i - 11]);
    }
    lemma_no_nonzero(s, 11, 64);
}

/// A run of zeros has no byte that is not zero.
proof fn lemma_no_nonzero(s: Seq<u8>, from: int, to: int)
    requires
        forall|i: int| from <= i < to ==> s[i] == 0,
    ensures
        first_nonzero(s, from, to) is None,
    decreases to - from,
{
    if from < to {
        lemma_no_nonzero(s, from + 1, to);
    }
}

/// Bytes hold one main boot sector: two that are both there are the same.
pub proof fn lemma_boot_sector_unique(a: MainBootSector, b: MainBootSector, s: Seq<u8>)
    requires
        a.is_at(s),
        b.is_at(s),
    ensures
        a == b,
{
    assert(a.jump_boot =~= b.jump_boot);
    assert(a.file_system_name =~= b.file_system_name);
    assert(a.boot_code =~= b.boot_code);
}

/// What follows a sector's 512 bytes does not change what the sector says.
pub proof fn lemma_boot_sector_prefix(boot: MainBootSector, s: Seq<u8>, t: Seq<u8>)
    requires
        s.len() >= MainBootSector::SIZE,
        t.len() >= MainBootSector::SIZE,
        forall|i: int| 0 <= i < MainBootSector::SIZE ==> s[i] == t[i],
        boot.is_at(s),
    ensures
        boot.is_at(t),
        boot_fault(s) is None ==> boot_fault(t) is None,
{
    assert(s.subrange(0, 3) =~= t.subrange(0, 3));
    assert(s.subrange(3, 11) =~= t.subrange(3, 11));
    assert(s.subrange(120, 510) =~= t.subrange(120, 510));
    if first_nonzero(s, 11, 64) is None {
        lemma_first_nonzero_same(s, t, 11, 64);
    }
}

/// Bytes that are the same have the same first byte that is not zero.
proof fn lemma_first_nonzero_same(s: Seq<u8>, t: Seq<u8>, from: int, to: int)
    requires
        forall|i: int| from <= i < to ==> s[i] == t[i],
    ensures
        first_nonzero(s, from, to) == first_nonzero(t, from, to),
    decreases to - from,
{
    if from < to {
        lemma_first_nonzero_same(s, t, from + 1, to);
    }
}

/// A checksum sector of whole words reads back as the checksum that was written.
pub proof fn lemma_checksum_sector_round_trip(sector: Seq<u8>, checksum: u32)
    requires
        sector.len() >= 4,
        sector.len() % 4 == 0,
        forall|i: int| 0 <= i < sector.len() ==> #[trigger] sector[i] == le32(checksum)[i % 4],
    ensures
        repeats_one_word(sector),
        u32_at(sector, 0) == checksum,
{
    assert(sector.subrange(0, 4) =~= le32(checksum)) by {
        assert forall|i: int| 0 <= i < 4 implies sector[i] == le32(checksum)[i] by {
            assert(sector[i] == le32(checksum)[i % 4]);
        }
    }
    lemma_u32_at(sector, 0, checksum);
    assert forall|i: int| 0 <= i < sector.len() implies #[trigger] sector[i] == sector[i % 4] by {
        assert(sector[i % 4] == le32(checksum)[(i % 4) % 4]);
    }
}

/// An extended boot sector reads back as carrying the signature that was written.
pub proof fn lemma_extended_boot_sector_round_trip(len: nat)
    requires
        len >= 4,
    ensures
        u32_at(
            zeros((len - 4) as nat) + le32(EXTENDED_BOOT_SIGNATURE),
            len - 4,
        ) == EXTENDED_BOOT_SIGNATURE,
{
    let s = zeros((len - 4) as nat) + le32(EXTENDED_BOOT_SIGNATURE);
    assert(s.subrange(len - 4, len as int) =~= le32(EXTENDED_BOOT_SIGNATURE));
    lemma_u32_at(s, len - 4, EXTENDED_BOOT_SIGNATURE);
}

} // verus!
