//! The main boot sector and the sectors beside it.
use exfat::boot::{
    checksum_sector_value, extended_boot_signature, percent_in_use, write_checksum_sector,
    write_extended_boot_sector, MainBootSector, BOOT_SIGNATURE, EXTENDED_BOOT_SIGNATURE,
    FILE_SYSTEM_NAME, FILE_SYSTEM_REVISION, MUST_BE_ZERO_END, MUST_BE_ZERO_START,
    VOLUME_FLAG_VOLUME_DIRTY,
};
use exfat::error::ParseError;

fn filled() -> MainBootSector {
    MainBootSector {
        jump_boot: MainBootSector::JUMP_BOOT,
        file_system_name: FILE_SYSTEM_NAME,
        partition_offset: 0x0011_2233_4455_6677,
        volume_length: 0x0000_0001_0000_0002,
        fat_offset: 2048,
        fat_length: 62,
        cluster_heap_offset: 4096,
        cluster_count: 7680,
        first_cluster_of_root: 5,
        volume_serial: 0x1234_5678,
        file_system_revision: FILE_SYSTEM_REVISION,
        volume_flags: VOLUME_FLAG_VOLUME_DIRTY,
        bytes_per_sector_shift: 9,
        sectors_per_cluster_shift: 3,
        number_of_fats: 1,
        drive_select: 0x80,
        percent_in_use: 42,
        boot_code: [0x5A; 390],
    }
}

#[test]
fn a_boot_sector_round_trips() {
    let mut buf = [0u8; MainBootSector::SIZE];
    let boot = filled();
    boot.write_to(&mut buf).expect("write");
    assert_eq!(MainBootSector::read_from(&buf).expect("read"), boot);
}

#[test]
fn every_field_lands_at_the_offset_the_format_defines() {
    let mut buf = [0u8; MainBootSector::SIZE];
    filled().write_to(&mut buf).expect("write");
    assert_eq!(&buf[0..3], &[0xEB, 0x76, 0x90]);
    assert_eq!(&buf[3..11], b"EXFAT   ");
    assert_eq!(&buf[64..72], &0x0011_2233_4455_6677u64.to_le_bytes());
    assert_eq!(&buf[72..80], &0x0000_0001_0000_0002u64.to_le_bytes());
    assert_eq!(&buf[80..84], &2048u32.to_le_bytes());
    assert_eq!(&buf[84..88], &62u32.to_le_bytes());
    assert_eq!(&buf[88..92], &4096u32.to_le_bytes());
    assert_eq!(&buf[92..96], &7680u32.to_le_bytes());
    assert_eq!(&buf[96..100], &5u32.to_le_bytes());
    assert_eq!(&buf[100..104], &0x1234_5678u32.to_le_bytes());
    assert_eq!(&buf[104..106], &[0x00, 0x01]);
    assert_eq!(&buf[106..108], &2u16.to_le_bytes());
    assert_eq!(buf[108], 9);
    assert_eq!(buf[109], 3);
    assert_eq!(buf[110], 1);
    assert_eq!(buf[111], 0x80);
    assert_eq!(buf[112], 42);
    assert_eq!(&buf[120..510], &[0x5A; 390]);
    assert_eq!(&buf[510..512], &BOOT_SIGNATURE.to_le_bytes());
}

#[test]
fn the_runs_the_format_requires_to_be_zero_are_written_zero() {
    let mut buf = [0xFFu8; MainBootSector::SIZE];
    filled().write_to(&mut buf).expect("write");
    assert!(buf[MUST_BE_ZERO_START..MUST_BE_ZERO_END].iter().all(|b| *b == 0));
    assert!(buf[113..120].iter().all(|b| *b == 0));
}

#[test]
fn a_sector_missing_any_of_the_three_fixed_values_is_refused() {
    let mut buf = [0u8; MainBootSector::SIZE];
    filled().write_to(&mut buf).expect("write");

    let mut no_name = buf;
    no_name[3] = b'F';
    assert!(matches!(
        MainBootSector::read_from(&no_name),
        Err(ParseError::BadMagic { .. })
    ));

    let mut no_signature = buf;
    no_signature[510] = 0;
    assert!(matches!(
        MainBootSector::read_from(&no_signature),
        Err(ParseError::BadMagic { .. })
    ));

    assert!(matches!(
        MainBootSector::read_from(&buf[..511]),
        Err(ParseError::TooShort { .. })
    ));
}

#[test]
fn a_sector_whose_must_be_zero_run_is_not_zero_is_refused_at_the_byte_that_is_not() {
    let mut buf = [0u8; MainBootSector::SIZE];
    filled().write_to(&mut buf).expect("write");
    assert!(MainBootSector::read_from(&buf).is_ok());

    for at in [MUST_BE_ZERO_START, 30, MUST_BE_ZERO_END - 1] {
        let mut spoiled = buf;
        spoiled[at] = 0x02;
        let err = MainBootSector::read_from(&spoiled)
            .expect_err("a non-zero byte in the run is refused");
        let ParseError::BadMagic {
            found, expected, ..
        } = err
        else {
            panic!("expected a bad-signature refusal at {at}, got {err:?}");
        };
        assert_eq!((found, expected), (2, 0), "at {at}");
    }
}

#[test]
fn a_fat_boot_sector_whose_oem_name_spells_this_format_is_refused() {
    let mut fat = [0u8; MainBootSector::SIZE];
    fat[0..3].copy_from_slice(&[0xEB, 0x3C, 0x90]);
    fat[3..11].copy_from_slice(b"EXFAT   ");
    fat[11..13].copy_from_slice(&512u16.to_le_bytes());
    fat[13] = 8;
    fat[14..16].copy_from_slice(&1u16.to_le_bytes());
    fat[16] = 2;
    fat[21] = 0xF8;
    fat[510..512].copy_from_slice(&BOOT_SIGNATURE.to_le_bytes());

    assert!(
        matches!(
            MainBootSector::read_from(&fat),
            Err(ParseError::BadMagic { .. })
        ),
        "a FAT boot sector spelling this magic must not parse as one of these"
    );
}

#[test]
fn the_two_shifts_answer_only_within_the_ranges_the_format_defines() {
    let mut boot = filled();
    for (shift, want) in [(9u8, Some(512u32)), (12, Some(4096)), (8, None), (13, None)] {
        boot.bytes_per_sector_shift = shift;
        assert_eq!(boot.bytes_per_sector(), want, "shift {shift}");
    }

    boot.bytes_per_sector_shift = 9;
    boot.sectors_per_cluster_shift = 16;
    assert_eq!(boot.bytes_per_cluster(), Some(32 << 20));
    boot.sectors_per_cluster_shift = 17;
    assert_eq!(boot.bytes_per_cluster(), None);
    boot.bytes_per_sector_shift = 12;
    boot.sectors_per_cluster_shift = 13;
    assert_eq!(boot.bytes_per_cluster(), Some(32 << 20));
    boot.sectors_per_cluster_shift = 14;
    assert_eq!(boot.bytes_per_cluster(), None);

    for shift in [u8::MAX, u8::MAX - 12, 244, 200] {
        boot.sectors_per_cluster_shift = shift;
        assert_eq!(boot.bytes_per_cluster(), None, "cluster shift {shift}");
    }
}

#[test]
fn an_extended_boot_sector_carries_its_signature_at_its_own_end() {
    for size in [512usize, 4096] {
        let mut sector = vec![0xFFu8; size];
        write_extended_boot_sector(&mut sector);
        assert_eq!(
            extended_boot_signature(&sector),
            Some(EXTENDED_BOOT_SIGNATURE)
        );
        assert_eq!(&sector[size - 4..], &[0x00, 0x00, 0x55, 0xAA]);
        assert!(sector[..size - 4].iter().all(|b| *b == 0));
    }
    assert_eq!(extended_boot_signature(&[0u8; 3]), None);
}

#[test]
fn a_checksum_sector_repeats_its_value_and_is_read_back_only_when_it_does() {
    for size in [512usize, 4096] {
        let mut sector = vec![0u8; size];
        write_checksum_sector(&mut sector, 0xDEAD_BEEF);
        assert!(
            sector
                .chunks_exact(4)
                .all(|w| w == 0xDEAD_BEEFu32.to_le_bytes())
        );
        assert_eq!(checksum_sector_value(&sector), Some(0xDEAD_BEEF));

        sector[size - 1] ^= 0x01;
        assert_eq!(checksum_sector_value(&sector), None);
    }
    assert_eq!(checksum_sector_value(&[]), None);
}

#[test]
fn the_share_in_use_is_rounded_down_to_a_whole_percent() {
    assert_eq!(percent_in_use(0, 7680), 0);
    assert_eq!(percent_in_use(76, 7680), 0);
    assert_eq!(percent_in_use(77, 7680), 1);
    assert_eq!(percent_in_use(7680, 7680), 100);
    assert_eq!(percent_in_use(u32::MAX, u32::MAX), 100);
}

#[test]
fn the_two_halves_of_the_revision_are_its_two_bytes() {
    let boot = filled();
    assert_eq!(boot.major_revision(), 1);
    assert_eq!(boot.minor_revision(), 0);
    let mut other = filled();
    other.file_system_revision = 0x0203;
    assert_eq!((other.major_revision(), other.minor_revision()), (2, 3));
}
