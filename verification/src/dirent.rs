//! Directory entries: the 32-byte slots a directory is made of.
use vstd::prelude::*;

use crate::bytes::{
    get_u16, get_u32, get_u64, get_u8, le16, le16_all, le32, le64, lemma_u16_at, lemma_u32_at,
    lemma_u64_at, lemma_units_at, push_all, push_u16, push_u32, push_u64, push_units, push_zeros,
    put_all, splice, u16_at, u32_at, u64_at, units_at, zeros,
};
use crate::error::ParseError;

verus! {

/// Bytes of a directory entry.
pub const DIR_ENTRY_SIZE: usize = 32;

/// Units of the volume label field.
pub const MAX_LABEL_UNITS: usize = 11;

/// The most entries a set has behind its first.
pub const MAX_SECONDARY_COUNT: u8 = 255;

/// Units of a name in one name entry.
pub const NAME_UNITS_PER_ENTRY: usize = 15;

/// The most units a name has.
pub const MAX_NAME_UNITS: usize = 255;

/// Name entries the longest name takes.
pub const MAX_NAME_ENTRIES: usize = 17;

/// The flag of a secondary entry that may have an allocation.
pub const SECONDARY_ALLOCATION_POSSIBLE: u8 = 0x01;

/// The flag of a secondary entry whose clusters are consecutive and not chained.
pub const SECONDARY_NO_FAT_CHAIN: u8 = 0x02;

/// The byte that says what a directory entry is.
#[derive(Clone, Copy, PartialEq, Eq, PartialOrd, Ord, Hash, Debug, Structural)]
pub struct EntryType(pub u8);

impl EntryType {
    /// The end of the directory.
    pub const END_OF_DIRECTORY: u8 = 0x00;

    /// The allocation bitmap's describing entry.
    pub const ALLOCATION_BITMAP: u8 = 0x81;

    /// The up-case table's describing entry.
    pub const UPCASE_TABLE: u8 = 0x82;

    /// The volume label.
    pub const VOLUME_LABEL: u8 = 0x83;

    /// The first entry of a file's set.
    pub const FILE: u8 = 0x85;

    /// The volume's unique identifier.
    pub const VOLUME_GUID: u8 = 0xA0;

    /// The second entry of a file's set.
    pub const STREAM_EXTENSION: u8 = 0xC0;

    /// A further entry of a file's set: a part of its name.
    pub const FILE_NAME: u8 = 0xC1;

    /// A vendor's extension.
    pub const VENDOR_EXTENSION: u8 = 0xE0;

    /// A vendor's allocation.
    pub const VENDOR_ALLOCATION: u8 = 0xE1;

    /// Whether the in-use bit is set.
    pub open spec fn used(self) -> bool {
        self.0 >= 0x80
    }

    /// Whether the secondary bit is set.
    pub open spec fn secondary(self) -> bool {
        (self.0 / 64) % 2 == 1
    }

    /// Whether the benign bit is set.
    pub open spec fn benign(self) -> bool {
        (self.0 / 32) % 2 == 1
    }

    /// Whether the entry ends the directory.
    #[must_use]
    pub fn is_end_of_directory(self) -> (yes: bool)
        ensures
            yes == (self.0 == Self::END_OF_DIRECTORY),
    {
        self.0 == Self::END_OF_DIRECTORY
    }

    /// Whether the entry is in use.
    #[must_use]
    pub fn in_use(self) -> (yes: bool)
        ensures
            yes == self.used(),
    {
        self.0 >= 0x80
    }

    /// Whether the entry continues a set.
    #[must_use]
    pub fn is_secondary(self) -> (yes: bool)
        ensures
            yes == self.secondary(),
    {
        (self.0 / 64) % 2 == 1
    }

    /// Whether an implementation that does not know the entry may step over it.
    #[must_use]
    pub fn is_benign(self) -> (yes: bool)
        ensures
            yes == self.benign(),
    {
        (self.0 / 32) % 2 == 1
    }

    /// The code of the entry among those of its kind.
    #[must_use]
    pub fn code(self) -> (code: u8)
        ensures
            code == self.0 % 32,
    {
        self.0 % 32
    }

    /// The type of the same entry once it is no longer in use.
    #[must_use]
    pub fn cleared(self) -> (cleared: Self)
        ensures
            cleared.0 == self.0 % 128,
    {
        EntryType(self.0 % 128)
    }
}

/// Clearing the in-use bit gives a type that is not in use and keeps every other field; it is
/// the end of a directory only where nothing else was in the byte.
pub proof fn lemma_cleared_keeps_the_rest(entry_type: EntryType)
    ensures
        ({
            let cleared = EntryType((entry_type.0 % 128) as u8);
            &&& !cleared.used()
            &&& cleared.secondary() == entry_type.secondary()
            &&& cleared.benign() == entry_type.benign()
            &&& cleared.0 % 32 == entry_type.0 % 32
            &&& cleared.0 == EntryType::END_OF_DIRECTORY <==> entry_type.0 == 0 || entry_type.0 == 0x80
        }),
{
}

/// Why `buf` does not begin with an entry of `entry_type`, where it does not.
pub open spec fn type_fault(buf: Seq<u8>, entry_type: u8, structure: &'static str) -> Option<
    ParseError,
> {
    if buf.len() < DIR_ENTRY_SIZE {
        Some(
            ParseError::TooShort {
                structure,
                need: DIR_ENTRY_SIZE,
                got: buf.len() as usize,
            },
        )
    } else if buf[0] != entry_type {
        Some(
            ParseError::BadMagic {
                structure,
                found: buf[0] as u32,
                expected: entry_type as u32,
            },
        )
    } else {
        None
    }
}

/// Why an entry cannot be written into `buf`, where it cannot.
pub open spec fn room_fault(buf: Seq<u8>, structure: &'static str) -> Option<ParseError> {
    if buf.len() < DIR_ENTRY_SIZE {
        Some(
            ParseError::TooShort {
                structure,
                need: DIR_ENTRY_SIZE,
                got: buf.len() as usize,
            },
        )
    } else {
        None
    }
}

/// Refuse bytes that do not begin with an entry of `entry_type`.
fn expect_type(buf: &[u8], entry_type: u8, structure: &'static str) -> (r: Result<(), ParseError>)
    ensures
        match r {
            Ok(_) => type_fault(buf@, entry_type, structure) is None,
            Err(e) => type_fault(buf@, entry_type, structure) == Some(e),
        },
{
    let len: usize = buf.len();
    if len < DIR_ENTRY_SIZE {
        return Err(ParseError::TooShort { structure, need: DIR_ENTRY_SIZE, got: len });
    }
    let found: u8 = get_u8(buf, 0);
    if found != entry_type {
        return Err(
            ParseError::BadMagic { structure, found: found as u32, expected: entry_type as u32 },
        );
    }
    Ok(())
}

/// Write the 32 bytes of an entry into the first slot of `buf`.
fn entry_slot(buf: &mut [u8], entry: &[u8], structure: &'static str) -> (r: Result<(), ParseError>)
    requires
        entry@.len() == DIR_ENTRY_SIZE,
    ensures
        match r {
            Ok(_) => {
                &&& room_fault(old(buf)@, structure) is None
                &&& final(buf)@ == splice(old(buf)@, 0, entry@)
            },
            Err(e) => room_fault(old(buf)@, structure) == Some(e) && final(buf)@ == old(buf)@,
        },
{
    let len: usize = buf.len();
    if len < DIR_ENTRY_SIZE {
        return Err(ParseError::TooShort { structure, need: DIR_ENTRY_SIZE, got: len });
    }
    put_all(buf, 0, entry);
    Ok(())
}

/// A directory entry of any type.
#[derive(Clone, Copy, PartialEq, Eq, Debug)]
pub struct DirEntry {
    /// What the entry is.
    pub entry_type: EntryType,
    /// The bytes the type gives a meaning to.
    pub custom: [u8; 31],
}

impl DirEntry {
    /// Bytes of a directory entry.
    pub const SIZE: usize = 32;

    /// The bytes of the entry.
    pub open spec fn encoded(self) -> Seq<u8> {
        seq![self.entry_type.0] + self.custom@
    }

    /// Read an entry whatever its type.
    pub fn read_from(buf: &[u8]) -> (r: Result<Self, ParseError>)
        ensures
            match r {
                Ok(entry) => {
                    &&& room_fault(buf@, "exFAT directory entry") is None
                    &&& entry.encoded() == buf@.subrange(0, 32)
                },
                Err(e) => room_fault(buf@, "exFAT directory entry") == Some(e),
            },
    {
        let len: usize = buf.len();
        if len < DIR_ENTRY_SIZE {
            return Err(
                ParseError::TooShort {
                    structure: "exFAT directory entry",
                    need: DIR_ENTRY_SIZE,
                    got: len,
                },
            );
        }
        let mut custom: [u8; 31] = [0; 31];
        let mut i: usize = 0;
        while i < 31
            invariant
                i <= 31,
                buf@.len() >= DIR_ENTRY_SIZE,
                custom@.len() == 31,
                forall|j: int| 0 <= j < i ==> custom@[j] == buf@[j + 1],
            decreases 31 - i,
        {
            custom[i] = buf[i + 1];
            i += 1;
        }
        let entry = Self { entry_type: EntryType(buf[0]), custom };
        assert(entry.encoded() =~= buf@.subrange(0, 32));
        Ok(entry)
    }

    /// Write the entry into the first slot of `buf`.
    pub fn write_to(&self, buf: &mut [u8]) -> (r: Result<(), ParseError>)
        ensures
            match r {
                Ok(_) => {
                    &&& room_fault(old(buf)@, "exFAT directory entry") is None
                    &&& final(buf)@ == splice(old(buf)@, 0, self.encoded())
                },
                Err(e) => {
                    &&& room_fault(old(buf)@, "exFAT directory entry") == Some(e)
                    &&& final(buf)@ == old(buf)@
                },
            },
    {
        let mut out: Vec<u8> = Vec::new();
        out.push(self.entry_type.0);
        push_all(&mut out, &self.custom);
        assert(out@ =~= self.encoded());
        entry_slot(buf, &out, "exFAT directory entry")
    }

    /// The entry that keeps a slot for a type without using it: its type with the in-use bit
    /// clear, and nothing else.
    #[must_use]
    pub fn reserved(entry_type: EntryType) -> (entry: Self)
        ensures
            entry.encoded() == seq![(entry_type.0 % 128) as u8] + zeros(31),
    {
        let entry = Self { entry_type: entry_type.cleared(), custom: [0; 31] };
        assert(entry.custom@ =~= zeros(31));
        entry
    }
}

/// The volume label.
#[derive(Clone, Copy, PartialEq, Eq, Debug)]
pub struct VolumeLabelEntry {
    /// Units of the label in use.
    pub character_count: u8,
    /// The label's units, zero past those in use.
    pub label: [u16; MAX_LABEL_UNITS],
}

impl VolumeLabelEntry {
    /// The bytes of the entry.
    pub open spec fn encoded(self) -> Seq<u8> {
        seq![EntryType::VOLUME_LABEL, self.character_count] + le16_all(self.label@) + zeros(8)
    }

    /// Whether the fields of `buf` are this entry's.
    pub open spec fn is_at(self, buf: Seq<u8>) -> bool {
        &&& self.character_count == buf[1]
        &&& self.label@ == units_at(buf, 2, 11)
    }

    /// The entry of a volume with no name.
    #[must_use]
    pub fn unnamed() -> (entry: Self)
        ensures
            entry.character_count == 0,
            entry.label@ == Seq::new(11, |i: int| 0u16),
    {
        let entry = Self { character_count: 0, label: [0; MAX_LABEL_UNITS] };
        assert(entry.label@ =~= Seq::new(11, |i: int| 0u16));
        entry
    }

    /// Read a volume label entry.
    pub fn read_from(buf: &[u8]) -> (r: Result<Self, ParseError>)
        ensures
            match r {
                Ok(entry) => {
                    &&& type_fault(buf@, EntryType::VOLUME_LABEL, "exFAT volume label entry") is None
                    &&& entry.is_at(buf@)
                },
                Err(e) => type_fault(buf@, EntryType::VOLUME_LABEL, "exFAT volume label entry")
                    == Some(e),
            },
    {
        expect_type(buf, EntryType::VOLUME_LABEL, "exFAT volume label entry")?;
        let mut label: [u16; MAX_LABEL_UNITS] = [0; MAX_LABEL_UNITS];
        let mut i: usize = 0;
        while i < MAX_LABEL_UNITS
            invariant
                i <= MAX_LABEL_UNITS,
                buf@.len() >= DIR_ENTRY_SIZE,
                label@.len() == 11,
                forall|j: int| 0 <= j < i ==> label@[j] == u16_at(buf@, 2 + 2 * j),
            decreases MAX_LABEL_UNITS - i,
        {
            label[i] = get_u16(buf, 2 + 2 * i);
            i += 1;
        }
        assert(label@ =~= units_at(buf@, 2, 11));
        Ok(Self { character_count: get_u8(buf, 1), label })
    }

    /// Write the entry into the first slot of `buf`.
    pub fn write_to(&self, buf: &mut [u8]) -> (r: Result<(), ParseError>)
        ensures
            match r {
                Ok(_) => {
                    &&& room_fault(old(buf)@, "exFAT volume label entry") is None
                    &&& final(buf)@ == splice(old(buf)@, 0, self.encoded())
                },
                Err(e) => {
                    &&& room_fault(old(buf)@, "exFAT volume label entry") == Some(e)
                    &&& final(buf)@ == old(buf)@
                },
            },
    {
        let mut out: Vec<u8> = Vec::new();
        out.push(EntryType::VOLUME_LABEL);
        out.push(self.character_count);
        push_units(&mut out, &self.label);
        push_zeros(&mut out, 8);
        assert(out@ =~= self.encoded());
        entry_slot(buf, &out, "exFAT volume label entry")
    }
}

/// The entry that says where the allocation bitmap is.
#[derive(Clone, Copy, PartialEq, Eq, Debug, Structural)]
pub struct AllocationBitmapEntry {
    /// Which of two bitmaps this is.
    pub bitmap_flags: u8,
    /// The bitmap's first cluster.
    pub first_cluster: u32,
    /// Bytes of the bitmap.
    pub data_length: u64,
}

impl AllocationBitmapEntry {
    /// The bytes of the entry.
    pub open spec fn encoded(self) -> Seq<u8> {
        seq![EntryType::ALLOCATION_BITMAP, self.bitmap_flags] + zeros(18) + le32(self.first_cluster)
            + le64(self.data_length)
    }

    /// The entry whose fields are those of `buf`.
    pub open spec fn decoded(buf: Seq<u8>) -> Self {
        AllocationBitmapEntry {
            bitmap_flags: buf[1],
            first_cluster: u32_at(buf, 20),
            data_length: u64_at(buf, 24),
        }
    }

    /// Read an allocation bitmap entry.
    pub fn read_from(buf: &[u8]) -> (r: Result<Self, ParseError>)
        ensures
            match r {
                Ok(entry) => {
                    &&& type_fault(
                        buf@,
                        EntryType::ALLOCATION_BITMAP,
                        "exFAT allocation bitmap entry",
                    ) is None
                    &&& entry == Self::decoded(buf@)
                },
                Err(e) => type_fault(
                    buf@,
                    EntryType::ALLOCATION_BITMAP,
                    "exFAT allocation bitmap entry",
                ) == Some(e),
            },
    {
        expect_type(buf, EntryType::ALLOCATION_BITMAP, "exFAT allocation bitmap entry")?;
        Ok(
            Self {
                bitmap_flags: get_u8(buf, 1),
                first_cluster: get_u32(buf, 20),
                data_length: get_u64(buf, 24),
            },
        )
    }

    /// Write the entry into the first slot of `buf`.
    pub fn write_to(&self, buf: &mut [u8]) -> (r: Result<(), ParseError>)
        ensures
            match r {
                Ok(_) => {
                    &&& room_fault(old(buf)@, "exFAT allocation bitmap entry") is None
                    &&& final(buf)@ == splice(old(buf)@, 0, self.encoded())
                },
                Err(e) => {
                    &&& room_fault(old(buf)@, "exFAT allocation bitmap entry") == Some(e)
                    &&& final(buf)@ == old(buf)@
                },
            },
    {
        let mut out: Vec<u8> = Vec::new();
        out.push(EntryType::ALLOCATION_BITMAP);
        out.push(self.bitmap_flags);
        push_zeros(&mut out, 18);
        push_u32(&mut out, self.first_cluster);
        push_u64(&mut out, self.data_length);
        assert(out@ =~= self.encoded());
        entry_slot(buf, &out, "exFAT allocation bitmap entry")
    }
}

/// The entry that says where the up-case table is.
#[derive(Clone, Copy, PartialEq, Eq, Debug, Structural)]
pub struct UpcaseTableEntry {
    /// The checksum of the table's bytes.
    pub table_checksum: u32,
    /// The table's first cluster.
    pub first_cluster: u32,
    /// Bytes of the table.
    pub data_length: u64,
}

impl UpcaseTableEntry {
    /// The bytes of the entry.
    pub open spec fn encoded(self) -> Seq<u8> {
        seq![EntryType::UPCASE_TABLE] + zeros(3) + le32(self.table_checksum) + zeros(12) + le32(
            self.first_cluster,
        ) + le64(self.data_length)
    }

    /// The entry whose fields are those of `buf`.
    pub open spec fn decoded(buf: Seq<u8>) -> Self {
        UpcaseTableEntry {
            table_checksum: u32_at(buf, 4),
            first_cluster: u32_at(buf, 20),
            data_length: u64_at(buf, 24),
        }
    }

    /// Read an up-case table entry.
    pub fn read_from(buf: &[u8]) -> (r: Result<Self, ParseError>)
        ensures
            match r {
                Ok(entry) => {
                    &&& type_fault(buf@, EntryType::UPCASE_TABLE, "exFAT up-case table entry") is None
                    &&& entry == Self::decoded(buf@)
                },
                Err(e) => type_fault(buf@, EntryType::UPCASE_TABLE, "exFAT up-case table entry")
                    == Some(e),
            },
    {
        expect_type(buf, EntryType::UPCASE_TABLE, "exFAT up-case table entry")?;
        Ok(
            Self {
                table_checksum: get_u32(buf, 4),
                first_cluster: get_u32(buf, 20),
                data_length: get_u64(buf, 24),
            },
        )
    }

    /// Write the entry into the first slot of `buf`.
    pub fn write_to(&self, buf: &mut [u8]) -> (r: Result<(), ParseError>)
        ensures
            match r {
                Ok(_) => {
                    &&& room_fault(old(buf)@, "exFAT up-case table entry") is None
                    &&& final(buf)@ == splice(old(buf)@, 0, self.encoded())
                },
                Err(e) => {
                    &&& room_fault(old(buf)@, "exFAT up-case table entry") == Some(e)
                    &&& final(buf)@ == old(buf)@
                },
            },
    {
        let mut out: Vec<u8> = Vec::new();
        out.push(EntryType::UPCASE_TABLE);
        push_zeros(&mut out, 3);
        push_u32(&mut out, self.table_checksum);
        push_zeros(&mut out, 12);
        push_u32(&mut out, self.first_cluster);
        push_u64(&mut out, self.data_length);
        assert(out@ =~= self.encoded());
        entry_slot(buf, &out, "exFAT up-case table entry")
    }
}

/// The attribute word of a file.
#[derive(Clone, Copy, PartialEq, Eq, Debug, Structural)]
pub struct FileAttributes(u16);

impl FileAttributes {
    /// The file may not be written to.
    pub const READ_ONLY: u16 = 0x0001;

    /// The file is not listed by default.
    pub const HIDDEN: u16 = 0x0002;

    /// The file is the system's.
    pub const SYSTEM: u16 = 0x0004;

    /// The file is a directory.
    pub const DIRECTORY: u16 = 0x0010;

    /// The file has changed since it was last backed up.
    pub const ARCHIVE: u16 = 0x0020;

    /// Every bit the format defines.
    pub const DEFINED: u16 = 0x0037;

    /// The attribute word.
    pub closed spec fn word(self) -> u16 {
        self.0
    }

    /// The attributes of a word.
    pub closed spec fn of(word: u16) -> Self {
        FileAttributes(word)
    }

    /// Attributes are their word.
    pub broadcast proof fn lemma_of_word(word: u16)
        ensures
            (#[trigger] Self::of(word)).word() == word,
    {
    }

    /// Attributes are their word.
    pub broadcast proof fn lemma_word_of(self)
        ensures
            Self::of(#[trigger] self.word()) == self,
    {
    }

    /// Whether every bit of `bits` is set.
    pub open spec fn has(self, bits: u16) -> bool {
        self.word() & bits == bits
    }

    /// The attribute word.
    #[must_use]
    pub fn bits(self) -> (bits: u16)
        ensures
            bits == self.word(),
    {
        self.0
    }

    /// The attributes of a word, the bits the format does not define among them.
    #[must_use]
    pub fn from_bits(bits: u16) -> (attributes: Self)
        ensures
            attributes == Self::of(bits),
    {
        FileAttributes(bits)
    }

    /// Whether every bit of `other` is set here too.
    #[must_use]
    pub fn contains(self, other: Self) -> (yes: bool)
        ensures
            yes == self.has(other.word()),
    {
        self.0 & other.0 == other.0
    }

    /// The bits set in either.
    #[must_use]
    pub fn union(self, other: Self) -> (both: Self)
        ensures
            both == Self::of(self.word() | other.word()),
    {
        FileAttributes(self.0 | other.0)
    }
}

impl Default for FileAttributes {
    /// No attribute.
    fn default() -> (attributes: Self)
        ensures
            attributes == Self::of(0),
    {
        FileAttributes(0)
    }
}

/// The first entry of a file's set: what it is and when it changed.
#[derive(Clone, Copy, PartialEq, Eq, Debug, Structural)]
pub struct FileEntry {
    /// Entries of the set behind this one.
    pub secondary_count: u8,
    /// The checksum of the set.
    pub set_checksum: u16,
    /// The file's attributes.
    pub attributes: FileAttributes,
    /// The creation date and time, packed.
    pub create: u32,
    /// The modification date and time, packed.
    pub modify: u32,
    /// The access date and time, packed.
    pub access: u32,
    /// Hundredths of a second past the creation time.
    pub create_tenth: u8,
    /// Hundredths of a second past the modification time.
    pub modify_tenth: u8,
    /// The zone of the creation time.
    pub create_utc_offset: u8,
    /// The zone of the modification time.
    pub modify_utc_offset: u8,
    /// The zone of the access time.
    pub access_utc_offset: u8,
}

impl FileEntry {
    /// The bytes of the entry.
    pub open spec fn encoded(self) -> Seq<u8> {
        seq![EntryType::FILE, self.secondary_count] + le16(self.set_checksum) + le16(
            self.attributes.word(),
        ) + le16(0) + le32(self.create) + le32(self.modify) + le32(self.access) + seq![
            self.create_tenth,
            self.modify_tenth,
            self.create_utc_offset,
            self.modify_utc_offset,
            self.access_utc_offset,
        ] + zeros(7)
    }

    /// The entry whose fields are those of `buf`.
    pub open spec fn decoded(buf: Seq<u8>) -> Self {
        FileEntry {
            secondary_count: buf[1],
            set_checksum: u16_at(buf, 2),
            attributes: FileAttributes::of(u16_at(buf, 4)),
            create: u32_at(buf, 8),
            modify: u32_at(buf, 12),
            access: u32_at(buf, 16),
            create_tenth: buf[20],
            modify_tenth: buf[21],
            create_utc_offset: buf[22],
            modify_utc_offset: buf[23],
            access_utc_offset: buf[24],
        }
    }

    /// Read a file entry.
    pub fn read_from(buf: &[u8]) -> (r: Result<Self, ParseError>)
        ensures
            match r {
                Ok(entry) => {
                    &&& type_fault(buf@, EntryType::FILE, "exFAT file entry") is None
                    &&& entry == Self::decoded(buf@)
                },
                Err(e) => type_fault(buf@, EntryType::FILE, "exFAT file entry") == Some(e),
            },
    {
        expect_type(buf, EntryType::FILE, "exFAT file entry")?;
        Ok(
            Self {
                secondary_count: get_u8(buf, 1),
                set_checksum: get_u16(buf, 2),
                attributes: FileAttributes::from_bits(get_u16(buf, 4)),
                create: get_u32(buf, 8),
                modify: get_u32(buf, 12),
                access: get_u32(buf, 16),
                create_tenth: get_u8(buf, 20),
                modify_tenth: get_u8(buf, 21),
                create_utc_offset: get_u8(buf, 22),
                modify_utc_offset: get_u8(buf, 23),
                access_utc_offset: get_u8(buf, 24),
            },
        )
    }

    /// Write the entry into the first slot of `buf`.
    pub fn write_to(&self, buf: &mut [u8]) -> (r: Result<(), ParseError>)
        ensures
            match r {
                Ok(_) => {
                    &&& room_fault(old(buf)@, "exFAT file entry") is None
                    &&& final(buf)@ == splice(old(buf)@, 0, self.encoded())
                },
                Err(e) => {
                    &&& room_fault(old(buf)@, "exFAT file entry") == Some(e)
                    &&& final(buf)@ == old(buf)@
                },
            },
    {
        let out = self.encode();
        entry_slot(buf, &out, "exFAT file entry")
    }

    /// The bytes of the entry.
    pub fn encode(&self) -> (out: Vec<u8>)
        ensures
            out@ == self.encoded(),
            out@.len() == DIR_ENTRY_SIZE,
    {
        let mut out: Vec<u8> = Vec::new();
        out.push(EntryType::FILE);
        out.push(self.secondary_count);
        assert(out@ =~= seq![EntryType::FILE, self.secondary_count]);
        push_u16(&mut out, self.set_checksum);
        push_u16(&mut out, self.attributes.bits());
        push_u16(&mut out, 0);
        push_u32(&mut out, self.create);
        push_u32(&mut out, self.modify);
        push_u32(&mut out, self.access);
        let single: [u8; 5] = [
            self.create_tenth,
            self.modify_tenth,
            self.create_utc_offset,
            self.modify_utc_offset,
            self.access_utc_offset,
        ];
        push_all(&mut out, &single);
        assert(single@ =~= seq![
            self.create_tenth,
            self.modify_tenth,
            self.create_utc_offset,
            self.modify_utc_offset,
            self.access_utc_offset,
        ]);
        push_zeros(&mut out, 7);
        out
    }
}

/// The second entry of a file's set: how long it is and where its bytes are.
#[derive(Clone, Copy, PartialEq, Eq, Debug, Structural)]
pub struct StreamExtensionEntry {
    /// Whether there is an allocation, and whether it is chained.
    pub flags: u8,
    /// Units of the name.
    pub name_length: u8,
    /// The hash of the folded name.
    pub name_hash: u16,
    /// Bytes that have been written.
    pub valid_data_length: u64,
    /// The first cluster, or zero where there is none.
    pub first_cluster: u32,
    /// Bytes of the stream.
    pub data_length: u64,
}

impl StreamExtensionEntry {
    /// The bytes of the entry.
    pub open spec fn encoded(self) -> Seq<u8> {
        seq![EntryType::STREAM_EXTENSION, self.flags, 0, self.name_length] + le16(self.name_hash)
            + le16(0) + le64(self.valid_data_length) + le32(0) + le32(self.first_cluster) + le64(
            self.data_length,
        )
    }

    /// The entry whose fields are those of `buf`.
    pub open spec fn decoded(buf: Seq<u8>) -> Self {
        StreamExtensionEntry {
            flags: buf[1],
            name_length: buf[3],
            name_hash: u16_at(buf, 4),
            valid_data_length: u64_at(buf, 8),
            first_cluster: u32_at(buf, 20),
            data_length: u64_at(buf, 24),
        }
    }

    /// Whether the flag that says an allocation is possible is set.
    pub open spec fn allocation_possible(self) -> bool {
        self.flags % 2 == 1
    }

    /// Whether the flag that says the clusters are not chained is set.
    pub open spec fn consecutive(self) -> bool {
        (self.flags / 2) % 2 == 1
    }

    /// Whether the clusters are consecutive, so that the allocation table does not chain them.
    #[must_use]
    pub fn no_fat_chain(&self) -> (yes: bool)
        ensures
            yes == self.consecutive(),
    {
        (self.flags / 2) % 2 == 1
    }

    /// Read a stream extension entry.
    pub fn read_from(buf: &[u8]) -> (r: Result<Self, ParseError>)
        ensures
            match r {
                Ok(entry) => {
                    &&& type_fault(
                        buf@,
                        EntryType::STREAM_EXTENSION,
                        "exFAT stream extension entry",
                    ) is None
                    &&& entry == Self::decoded(buf@)
                },
                Err(e) => type_fault(
                    buf@,
                    EntryType::STREAM_EXTENSION,
                    "exFAT stream extension entry",
                ) == Some(e),
            },
    {
        expect_type(buf, EntryType::STREAM_EXTENSION, "exFAT stream extension entry")?;
        Ok(
            Self {
                flags: get_u8(buf, 1),
                name_length: get_u8(buf, 3),
                name_hash: get_u16(buf, 4),
                valid_data_length: get_u64(buf, 8),
                first_cluster: get_u32(buf, 20),
                data_length: get_u64(buf, 24),
            },
        )
    }

    /// Write the entry into the first slot of `buf`.
    pub fn write_to(&self, buf: &mut [u8]) -> (r: Result<(), ParseError>)
        ensures
            match r {
                Ok(_) => {
                    &&& room_fault(old(buf)@, "exFAT stream extension entry") is None
                    &&& final(buf)@ == splice(old(buf)@, 0, self.encoded())
                },
                Err(e) => {
                    &&& room_fault(old(buf)@, "exFAT stream extension entry") == Some(e)
                    &&& final(buf)@ == old(buf)@
                },
            },
    {
        let out = self.encode();
        entry_slot(buf, &out, "exFAT stream extension entry")
    }

    /// The bytes of the entry.
    pub fn encode(&self) -> (out: Vec<u8>)
        ensures
            out@ == self.encoded(),
            out@.len() == DIR_ENTRY_SIZE,
    {
        let mut out: Vec<u8> = Vec::new();
        out.push(EntryType::STREAM_EXTENSION);
        out.push(self.flags);
        out.push(0);
        out.push(self.name_length);
        assert(out@ =~= seq![EntryType::STREAM_EXTENSION, self.flags, 0, self.name_length]);
        push_u16(&mut out, self.name_hash);
        push_u16(&mut out, 0);
        push_u64(&mut out, self.valid_data_length);
        push_u32(&mut out, 0);
        push_u32(&mut out, self.first_cluster);
        push_u64(&mut out, self.data_length);
        out
    }
}

/// A further entry of a file's set: fifteen units of its name.
#[derive(Clone, Copy, PartialEq, Eq, Debug)]
pub struct FileNameEntry {
    /// The entry's flags, which the format leaves zero.
    pub flags: u8,
    /// The units, zero past the name's end.
    pub units: [u16; NAME_UNITS_PER_ENTRY],
}

/// `units` with zeros behind them up to fifteen.
pub open spec fn padded_units(units: Seq<u16>) -> Seq<u16> {
    Seq::new(15, |i: int| if i < units.len() { units[i] } else { 0u16 })
}

impl FileNameEntry {
    /// The bytes of the entry.
    pub open spec fn encoded(self) -> Seq<u8> {
        seq![EntryType::FILE_NAME, self.flags] + le16_all(self.units@)
    }

    /// Whether the fields of `buf` are this entry's.
    pub open spec fn is_at(self, buf: Seq<u8>) -> bool {
        &&& self.flags == buf[1]
        &&& self.units@ == units_at(buf, 2, 15)
    }

    /// The entry carrying `units`, at most fifteen of them.
    #[must_use]
    pub fn new(units: &[u16]) -> (entry: Self)
        requires
            units@.len() <= NAME_UNITS_PER_ENTRY,
        ensures
            entry.flags == 0,
            entry.units@ == padded_units(units@),
    {
        let mut all: [u16; NAME_UNITS_PER_ENTRY] = [0; NAME_UNITS_PER_ENTRY];
        let mut i: usize = 0;
        while i < units.len()
            invariant
                i <= units@.len() <= NAME_UNITS_PER_ENTRY,
                all@.len() == 15,
                forall|j: int|
                    0 <= j < 15 ==> #[trigger] all@[j] == (if j < i {
                        units@[j]
                    } else {
                        0u16
                    }),
            decreases units@.len() - i,
        {
            all[i] = units[i];
            i += 1;
        }
        assert(all@ =~= padded_units(units@));
        Self { flags: 0, units: all }
    }

    /// Read a file name entry.
    pub fn read_from(buf: &[u8]) -> (r: Result<Self, ParseError>)
        ensures
            match r {
                Ok(entry) => {
                    &&& type_fault(buf@, EntryType::FILE_NAME, "exFAT file name entry") is None
                    &&& entry.is_at(buf@)
                },
                Err(e) => type_fault(buf@, EntryType::FILE_NAME, "exFAT file name entry") == Some(e),
            },
    {
        expect_type(buf, EntryType::FILE_NAME, "exFAT file name entry")?;
        let mut units: [u16; NAME_UNITS_PER_ENTRY] = [0; NAME_UNITS_PER_ENTRY];
        let mut i: usize = 0;
        while i < NAME_UNITS_PER_ENTRY
            invariant
                i <= NAME_UNITS_PER_ENTRY,
                buf@.len() >= DIR_ENTRY_SIZE,
                units@.len() == 15,
                forall|j: int| 0 <= j < i ==> units@[j] == u16_at(buf@, 2 + 2 * j),
            decreases NAME_UNITS_PER_ENTRY - i,
        {
            units[i] = get_u16(buf, 2 + 2 * i);
            i += 1;
        }
        assert(units@ =~= units_at(buf@, 2, 15));
        Ok(Self { flags: get_u8(buf, 1), units })
    }

    /// Write the entry into the first slot of `buf`.
    pub fn write_to(&self, buf: &mut [u8]) -> (r: Result<(), ParseError>)
        ensures
            match r {
                Ok(_) => {
                    &&& room_fault(old(buf)@, "exFAT file name entry") is None
                    &&& final(buf)@ == splice(old(buf)@, 0, self.encoded())
                },
                Err(e) => {
                    &&& room_fault(old(buf)@, "exFAT file name entry") == Some(e)
                    &&& final(buf)@ == old(buf)@
                },
            },
    {
        let out = self.encode();
        entry_slot(buf, &out, "exFAT file name entry")
    }

    /// The bytes of the entry.
    pub fn encode(&self) -> (out: Vec<u8>)
        ensures
            out@ == self.encoded(),
            out@.len() == DIR_ENTRY_SIZE,
    {
        let mut out: Vec<u8> = Vec::new();
        out.push(EntryType::FILE_NAME);
        out.push(self.flags);
        push_units(&mut out, &self.units);
        assert(out@ =~= self.encoded());
        out
    }
}

/// A label entry reads back as it was written.
pub proof fn lemma_label_entry_round_trip(entry: VolumeLabelEntry)
    ensures
        entry.encoded().len() == DIR_ENTRY_SIZE,
        entry.encoded()[0] == EntryType::VOLUME_LABEL,
        entry.is_at(entry.encoded()),
{
    let s = entry.encoded();
    assert(s.subrange(2, 24) =~= le16_all(entry.label@));
    lemma_units_at(s, 2, entry.label@);
}

/// A bitmap entry reads back as it was written.
pub proof fn lemma_bitmap_entry_round_trip(entry: AllocationBitmapEntry)
    ensures
        entry.encoded().len() == DIR_ENTRY_SIZE,
        entry.encoded()[0] == EntryType::ALLOCATION_BITMAP,
        AllocationBitmapEntry::decoded(entry.encoded()) == entry,
{
    let s = entry.encoded();
    assert(s.subrange(20, 24) =~= le32(entry.first_cluster));
    lemma_u32_at(s, 20, entry.first_cluster);
    assert(s.subrange(24, 32) =~= le64(entry.data_length));
    lemma_u64_at(s, 24, entry.data_length);
}

/// An up-case table entry reads back as it was written.
pub proof fn lemma_upcase_entry_round_trip(entry: UpcaseTableEntry)
    ensures
        entry.encoded().len() == DIR_ENTRY_SIZE,
        entry.encoded()[0] == EntryType::UPCASE_TABLE,
        UpcaseTableEntry::decoded(entry.encoded()) == entry,
{
    let s = entry.encoded();
    assert(s.subrange(4, 8) =~= le32(entry.table_checksum));
    lemma_u32_at(s, 4, entry.table_checksum);
    assert(s.subrange(20, 24) =~= le32(entry.first_cluster));
    lemma_u32_at(s, 20, entry.first_cluster);
    assert(s.subrange(24, 32) =~= le64(entry.data_length));
    lemma_u64_at(s, 24, entry.data_length);
}

/// A file entry reads back as it was written.
pub proof fn lemma_file_entry_round_trip(entry: FileEntry)
    ensures
        entry.encoded().len() == DIR_ENTRY_SIZE,
        entry.encoded()[0] == EntryType::FILE,
        FileEntry::decoded(entry.encoded()) == entry,
{
    broadcast use FileAttributes::lemma_word_of;

    let s = entry.encoded();
    assert(s.subrange(2, 4) =~= le16(entry.set_checksum));
    lemma_u16_at(s, 2, entry.set_checksum);
    assert(s.subrange(4, 6) =~= le16(entry.attributes.word()));
    lemma_u16_at(s, 4, entry.attributes.word());
    assert(s.subrange(8, 12) =~= le32(entry.create));
    lemma_u32_at(s, 8, entry.create);
    assert(s.subrange(12, 16) =~= le32(entry.modify));
    lemma_u32_at(s, 12, entry.modify);
    assert(s.subrange(16, 20) =~= le32(entry.access));
    lemma_u32_at(s, 16, entry.access);
}

/// A stream extension entry reads back as it was written.
pub proof fn lemma_stream_entry_round_trip(entry: StreamExtensionEntry)
    ensures
        entry.encoded().len() == DIR_ENTRY_SIZE,
        entry.encoded()[0] == EntryType::STREAM_EXTENSION,
        StreamExtensionEntry::decoded(entry.encoded()) == entry,
{
    let s = entry.encoded();
    assert(s.subrange(4, 6) =~= le16(entry.name_hash));
    lemma_u16_at(s, 4, entry.name_hash);
    assert(s.subrange(8, 16) =~= le64(entry.valid_data_length));
    lemma_u64_at(s, 8, entry.valid_data_length);
    assert(s.subrange(20, 24) =~= le32(entry.first_cluster));
    lemma_u32_at(s, 20, entry.first_cluster);
    assert(s.subrange(24, 32) =~= le64(entry.data_length));
    lemma_u64_at(s, 24, entry.data_length);
}

/// A file name entry reads back as it was written.
pub proof fn lemma_name_entry_round_trip(entry: FileNameEntry)
    ensures
        entry.encoded().len() == DIR_ENTRY_SIZE,
        entry.encoded()[0] == EntryType::FILE_NAME,
        entry.is_at(entry.encoded()),
{
    let s = entry.encoded();
    assert(s.subrange(2, 32) =~= le16_all(entry.units@));
    lemma_units_at(s, 2, entry.units@);
}

} // verus!
