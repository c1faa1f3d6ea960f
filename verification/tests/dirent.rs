//! The thirty-two byte directory entries.
use exfat::dirent::{
    AllocationBitmapEntry, DirEntry, EntryType, FileAttributes, FileEntry, FileNameEntry,
    StreamExtensionEntry, UpcaseTableEntry, VolumeLabelEntry, DIR_ENTRY_SIZE, MAX_NAME_ENTRIES,
    MAX_NAME_UNITS, MAX_SECONDARY_COUNT, NAME_UNITS_PER_ENTRY, SECONDARY_ALLOCATION_POSSIBLE,
    SECONDARY_NO_FAT_CHAIN,
};
use exfat::error::ParseError;

#[test]
fn an_entry_round_trips() {
    let entry = DirEntry {
        entry_type: EntryType(EntryType::STREAM_EXTENSION),
        custom: core::array::from_fn(|i| i as u8),
    };
    let mut buf = [0u8; DIR_ENTRY_SIZE];
    entry.write_to(&mut buf).expect("write");
    assert_eq!(DirEntry::read_from(&buf).expect("read"), entry);
    assert_eq!(buf[0], 0xC0);
    assert_eq!(&buf[1..], &(0u8..31).collect::<Vec<_>>()[..]);

    assert!(matches!(
        DirEntry::read_from(&buf[..31]),
        Err(ParseError::TooShort { .. })
    ));
}

#[test]
fn the_type_byte_decodes_into_the_four_fields_it_is() {
    for (entry, secondary, benign, code) in [
        (EntryType(EntryType::ALLOCATION_BITMAP), false, false, 1),
        (EntryType(EntryType::UPCASE_TABLE), false, false, 2),
        (EntryType(EntryType::VOLUME_LABEL), false, false, 3),
        (EntryType(EntryType::FILE), false, false, 5),
        (EntryType(EntryType::VOLUME_GUID), false, true, 0),
        (EntryType(EntryType::STREAM_EXTENSION), true, false, 0),
        (EntryType(EntryType::FILE_NAME), true, false, 1),
        (EntryType(EntryType::VENDOR_EXTENSION), true, true, 0),
        (EntryType(EntryType::VENDOR_ALLOCATION), true, true, 1),
    ] {
        assert!(entry.in_use(), "{entry:?}");
        assert!(!entry.is_end_of_directory(), "{entry:?}");
        assert_eq!(entry.is_secondary(), secondary, "{entry:?}");
        assert_eq!(entry.is_benign(), benign, "{entry:?}");
        assert_eq!(entry.code(), code, "{entry:?}");
    }

    for critical in [
        EntryType(EntryType::ALLOCATION_BITMAP),
        EntryType(EntryType::UPCASE_TABLE),
        EntryType(EntryType::VOLUME_LABEL),
        EntryType(EntryType::FILE),
        EntryType(EntryType::STREAM_EXTENSION),
        EntryType(EntryType::FILE_NAME),
    ] {
        assert!(!critical.is_benign(), "{critical:?}");
    }
}

#[test]
fn a_cleared_in_use_bit_is_not_the_end_of_a_directory() {
    let reserved = EntryType(EntryType::VOLUME_GUID).cleared();
    assert_eq!(reserved, EntryType(0x20));
    assert!(!reserved.in_use());
    assert!(
        !reserved.is_end_of_directory(),
        "an entry not in use is skipped, not a terminator"
    );
    assert_eq!(reserved.code(), EntryType(EntryType::VOLUME_GUID).code());
    assert_eq!(
        reserved.is_secondary(),
        EntryType(EntryType::VOLUME_GUID).is_secondary()
    );

    assert!(EntryType(EntryType::END_OF_DIRECTORY).is_end_of_directory());
    assert!(!EntryType(EntryType::END_OF_DIRECTORY).in_use());
    assert_eq!(
        EntryType(EntryType::END_OF_DIRECTORY).cleared(),
        EntryType(EntryType::END_OF_DIRECTORY),
        "there is no entry at a terminator to mark unused"
    );
}

#[test]
fn a_reserved_slot_is_a_type_byte_and_nothing_else() {
    let mut buf = [0xFFu8; DIR_ENTRY_SIZE];
    DirEntry::reserved(EntryType(EntryType::VOLUME_GUID))
        .write_to(&mut buf)
        .expect("write");
    assert_eq!(buf[0], 0x20);
    assert!(buf[1..].iter().all(|b| *b == 0));
}

#[test]
fn the_three_format_time_entries_round_trip() {
    let label = VolumeLabelEntry {
        character_count: 3,
        label: [0x0045, 0x0053, 0x0050, 0, 0, 0, 0, 0, 0, 0, 0],
    };
    let bitmap = AllocationBitmapEntry {
        bitmap_flags: 0,
        first_cluster: 2,
        data_length: 960,
    };
    let upcase = UpcaseTableEntry {
        table_checksum: 0xE619_D30D,
        first_cluster: 3,
        data_length: 5836,
    };

    let mut buf = [0u8; DIR_ENTRY_SIZE];
    label.write_to(&mut buf).expect("write");
    assert_eq!(VolumeLabelEntry::read_from(&buf).expect("read"), label);
    bitmap.write_to(&mut buf).expect("write");
    assert_eq!(
        AllocationBitmapEntry::read_from(&buf).expect("read"),
        bitmap
    );
    upcase.write_to(&mut buf).expect("write");
    assert_eq!(UpcaseTableEntry::read_from(&buf).expect("read"), upcase);
}

#[test]
fn every_field_of_the_format_time_entries_lands_where_the_format_puts_it() {
    let mut buf = [0xFFu8; DIR_ENTRY_SIZE];

    VolumeLabelEntry {
        character_count: 3,
        label: [0x0045, 0x0053, 0x0050, 0, 0, 0, 0, 0, 0, 0, 0],
    }
    .write_to(&mut buf)
    .expect("write");
    assert_eq!(buf[0], 0x83);
    assert_eq!(buf[1], 3);
    assert_eq!(&buf[2..8], &[0x45, 0x00, 0x53, 0x00, 0x50, 0x00]);
    assert!(
        buf[8..24].iter().all(|b| *b == 0),
        "the name is zero-padded"
    );
    assert!(buf[24..].iter().all(|b| *b == 0), "the reserved tail");

    let mut buf = [0xFFu8; DIR_ENTRY_SIZE];
    AllocationBitmapEntry {
        bitmap_flags: 0,
        first_cluster: 2,
        data_length: 960,
    }
    .write_to(&mut buf)
    .expect("write");
    assert_eq!(buf[0], 0x81);
    assert_eq!(buf[1], 0);
    assert!(buf[2..20].iter().all(|b| *b == 0), "the reserved run");
    assert_eq!(&buf[20..24], &2u32.to_le_bytes());
    assert_eq!(&buf[24..32], &960u64.to_le_bytes());

    let mut buf = [0xFFu8; DIR_ENTRY_SIZE];
    UpcaseTableEntry {
        table_checksum: 0xE619_D30D,
        first_cluster: 3,
        data_length: 5836,
    }
    .write_to(&mut buf)
    .expect("write");
    assert_eq!(buf[0], 0x82);
    assert!(buf[1..4].iter().all(|b| *b == 0), "the first reserved run");
    assert_eq!(&buf[4..8], &0xE619_D30Du32.to_le_bytes());
    assert!(
        buf[8..20].iter().all(|b| *b == 0),
        "the second reserved run"
    );
    assert_eq!(&buf[20..24], &3u32.to_le_bytes());
    assert_eq!(&buf[24..32], &5836u64.to_le_bytes());
}

#[test]
fn an_entry_of_another_type_is_refused_rather_than_decoded() {
    let mut buf = [0u8; DIR_ENTRY_SIZE];
    UpcaseTableEntry {
        table_checksum: 0xE619_D30D,
        first_cluster: 3,
        data_length: 5836,
    }
    .write_to(&mut buf)
    .expect("write");

    assert!(matches!(
        AllocationBitmapEntry::read_from(&buf),
        Err(ParseError::BadMagic {
            found: 0x82,
            expected: 0x81,
            ..
        })
    ));
    assert!(matches!(
        VolumeLabelEntry::read_from(&buf),
        Err(ParseError::BadMagic { .. })
    ));
    assert!(UpcaseTableEntry::read_from(&buf).is_ok());

    buf[0] = EntryType(EntryType::UPCASE_TABLE).cleared().0;
    assert!(matches!(
        UpcaseTableEntry::read_from(&buf),
        Err(ParseError::BadMagic { .. })
    ));
}

#[test]
fn a_buffer_too_short_for_an_entry_is_refused_in_both_directions() {
    let mut short = [0u8; DIR_ENTRY_SIZE - 1];
    assert!(matches!(
        VolumeLabelEntry::unnamed().write_to(&mut short),
        Err(ParseError::TooShort { .. })
    ));
    assert!(matches!(
        AllocationBitmapEntry::read_from(&short),
        Err(ParseError::TooShort { .. })
    ));
}

#[test]
fn a_file_set_round_trips_through_all_three_of_its_entry_kinds() {
    let file = FileEntry {
        secondary_count: 2,
        set_checksum: 0xBEEF,
        attributes: FileAttributes::from_bits(FileAttributes::ARCHIVE),
        create: 0x4A6E_4B5A,
        modify: 0x4A6E_4B5B,
        access: 0x4A6E_4B5C,
        create_tenth: 100,
        modify_tenth: 37,
        create_utc_offset: 0x80,
        modify_utc_offset: 0x80,
        access_utc_offset: 0x80,
    };
    let stream = StreamExtensionEntry {
        flags: SECONDARY_ALLOCATION_POSSIBLE | SECONDARY_NO_FAT_CHAIN,
        name_length: 9,
        name_hash: 0x1234,
        valid_data_length: 5_000,
        first_cluster: 42,
        data_length: 5_000,
    };
    let name = FileNameEntry::new(&"README.TXT".encode_utf16().collect::<Vec<_>>()[..9]);

    let mut buf = [0u8; DIR_ENTRY_SIZE];
    file.write_to(&mut buf).expect("write");
    assert_eq!(FileEntry::read_from(&buf).expect("read"), file);
    stream.write_to(&mut buf).expect("write");
    assert_eq!(StreamExtensionEntry::read_from(&buf).expect("read"), stream);
    name.write_to(&mut buf).expect("write");
    assert_eq!(FileNameEntry::read_from(&buf).expect("read"), name);
}

#[test]
fn every_field_of_a_file_set_lands_where_the_format_puts_it() {
    let mut buf = [0xFFu8; DIR_ENTRY_SIZE];
    FileEntry {
        secondary_count: 3,
        set_checksum: 0xA1B2,
        attributes: FileAttributes::from_bits(FileAttributes::DIRECTORY),
        create: 0x0102_0304,
        modify: 0x0506_0708,
        access: 0x090A_0B0C,
        create_tenth: 199,
        modify_tenth: 1,
        create_utc_offset: 0x80,
        modify_utc_offset: 0x84,
        access_utc_offset: 0x00,
    }
    .write_to(&mut buf)
    .expect("write");
    assert_eq!(buf[0], 0x85);
    assert_eq!(buf[1], 3);
    assert_eq!(&buf[2..4], &0xA1B2u16.to_le_bytes());
    assert_eq!(&buf[4..6], &0x0010u16.to_le_bytes());
    assert_eq!(&buf[6..8], &[0, 0], "the first reserved run");
    assert_eq!(&buf[8..12], &0x0102_0304u32.to_le_bytes());
    assert_eq!(&buf[12..16], &0x0506_0708u32.to_le_bytes());
    assert_eq!(&buf[16..20], &0x090A_0B0Cu32.to_le_bytes());
    assert_eq!(&buf[20..25], &[199, 1, 0x80, 0x84, 0x00]);
    assert!(buf[25..].iter().all(|b| *b == 0), "the reserved tail");

    let mut buf = [0xFFu8; DIR_ENTRY_SIZE];
    StreamExtensionEntry {
        flags: SECONDARY_ALLOCATION_POSSIBLE,
        name_length: 11,
        name_hash: 0xC3D4,
        valid_data_length: 0x1122_3344_5566_7788,
        first_cluster: 0x0000_BEEF,
        data_length: 0x99AA_BBCC_DDEE_FF00,
    }
    .write_to(&mut buf)
    .expect("write");
    assert_eq!(buf[0], 0xC0);
    assert_eq!(buf[1], 0x01);
    assert_eq!(
        buf[2], 0,
        "the reserved byte between the flags and the length"
    );
    assert_eq!(buf[3], 11);
    assert_eq!(&buf[4..6], &0xC3D4u16.to_le_bytes());
    assert_eq!(&buf[6..8], &[0, 0]);
    assert_eq!(&buf[8..16], &0x1122_3344_5566_7788u64.to_le_bytes());
    assert_eq!(&buf[16..20], &[0, 0, 0, 0], "the third reserved run");
    assert_eq!(&buf[20..24], &0x0000_BEEFu32.to_le_bytes());
    assert_eq!(&buf[24..32], &0x99AA_BBCC_DDEE_FF00u64.to_le_bytes());

    let mut buf = [0xFFu8; DIR_ENTRY_SIZE];
    FileNameEntry::new(&[0x0041, 0x00E9])
        .write_to(&mut buf)
        .expect("write");
    assert_eq!(buf[0], 0xC1);
    assert_eq!(buf[1], 0, "a name addresses no clusters");
    assert_eq!(&buf[2..6], &[0x41, 0x00, 0xE9, 0x00]);
    assert!(
        buf[6..].iter().all(|b| *b == 0),
        "a short name is padded with zeroes, which the length field makes unread"
    );
}

#[test]
fn a_name_is_carried_fifteen_units_at_a_time_and_the_longest_needs_seventeen_entries() {
    assert_eq!(NAME_UNITS_PER_ENTRY, 15);
    assert_eq!(MAX_NAME_UNITS, 255);
    assert_eq!(MAX_NAME_ENTRIES, 17);
    assert_eq!(
        MAX_NAME_ENTRIES * NAME_UNITS_PER_ENTRY,
        255,
        "the longest name fills its last entry exactly"
    );
    assert!(1 + MAX_NAME_ENTRIES < MAX_SECONDARY_COUNT as usize);
}

#[test]
fn the_attribute_word_is_the_dos_bits_exfat_kept_and_not_fats_label_bit() {
    assert_eq!(FileAttributes::from_bits(FileAttributes::READ_ONLY).bits(), 0x0001);
    assert_eq!(FileAttributes::from_bits(FileAttributes::HIDDEN).bits(), 0x0002);
    assert_eq!(FileAttributes::from_bits(FileAttributes::SYSTEM).bits(), 0x0004);
    assert_eq!(FileAttributes::from_bits(FileAttributes::DIRECTORY).bits(), 0x0010);
    assert_eq!(FileAttributes::from_bits(FileAttributes::ARCHIVE).bits(), 0x0020);

    assert_eq!(FileAttributes::from_bits(FileAttributes::DEFINED).bits() & 0x0008, 0);
    for flag in [
        FileAttributes::from_bits(FileAttributes::READ_ONLY),
        FileAttributes::from_bits(FileAttributes::HIDDEN),
        FileAttributes::from_bits(FileAttributes::SYSTEM),
        FileAttributes::from_bits(FileAttributes::DIRECTORY),
        FileAttributes::from_bits(FileAttributes::ARCHIVE),
    ] {
        assert!(FileAttributes::from_bits(FileAttributes::DEFINED).contains(flag), "{flag:?}");
    }
}

#[test]
fn a_secondary_entrys_flags_say_whether_the_allocation_table_holds_its_chain() {
    let contiguous = StreamExtensionEntry {
        flags: SECONDARY_ALLOCATION_POSSIBLE | SECONDARY_NO_FAT_CHAIN,
        name_length: 1,
        name_hash: 0,
        valid_data_length: 0,
        first_cluster: 2,
        data_length: 0,
    };
    assert!(contiguous.no_fat_chain());
    assert!(
        !StreamExtensionEntry {
            flags: SECONDARY_ALLOCATION_POSSIBLE,
            ..contiguous
        }
        .no_fat_chain()
    );
}

#[test]
fn a_volume_with_no_name_still_carries_a_label_entry() {
    let mut buf = [0xFFu8; DIR_ENTRY_SIZE];
    VolumeLabelEntry::unnamed().write_to(&mut buf).expect("write");
    assert_eq!(buf[0], 0x83);
    assert!(buf[1..].iter().all(|b| *b == 0));
}
