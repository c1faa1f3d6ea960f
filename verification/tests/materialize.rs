//! Writing a volume.
use exfat::boot::{
    checksum_sector_value, extended_boot_signature, MainBootSector, BOOT_CODE_LEN,
    BOOT_REGION_SECTORS, BOOT_SIGNATURE, EXTENDED_BOOT_SIGNATURE, FILE_SYSTEM_REVISION,
    MUST_BE_ZERO_END, MUST_BE_ZERO_START,
};
use exfat::csum::{boot_checksum, entry_set_checksum, name_hash, upcase_checksum};
use exfat::dirent::{
    AllocationBitmapEntry, EntryType, FileAttributes, FileEntry, FileNameEntry,
    StreamExtensionEntry, UpcaseTableEntry, VolumeLabelEntry, DIR_ENTRY_SIZE, MAX_NAME_UNITS,
    NAME_UNITS_PER_ENTRY,
};
use exfat::fidelity::{AcceptedLoss, Direction, Property};
use exfat::geometry::{ClusterSize, GeometryError, PlanRequest, FIRST_CLUSTER};
use exfat::image::NUMBER_OF_FATS;
use exfat::label::{LabelError, VolumeLabel};
use exfat::materialize::{FormatError, FormatPlan, Image};
use exfat::model::{ModelError, ROOT_LEADING_SLOTS};
use exfat::options::FormatOptions;
use exfat::source::{Metadata, TreeBuilder};
use exfat::table::{END_OF_CHAIN, FAT_ENTRY_MEDIA, FAT_ENTRY_RESERVED};
use exfat::time::{Timestamp, UTC_OFFSET};
use exfat::upcase::UpcaseTable;
use exfat::upcase_table::{RECOMMENDED_UPCASE_BYTES, RECOMMENDED_UPCASE_CHECKSUM};

const TIME: Timestamp = Timestamp {
    secs: 1_426_325_212,
    nanos: 0,
};

fn format(
    source: TreeBuilder,
    volume_bytes: u64,
    options: FormatOptions,
) -> Result<Image, FormatError> {
    exfat::materialize::format(source.into_entries(), volume_bytes, options)
}

fn put(out: &mut Vec<u8>, at: u64, bytes: &[u8]) {
    let at = at as usize;
    if out.len() < at + bytes.len() {
        out.resize(at + bytes.len(), 0);
    }
    out[at..at + bytes.len()].copy_from_slice(bytes);
}

fn format_to(
    out: &mut Vec<u8>,
    source: TreeBuilder,
    volume_bytes: u64,
    options: FormatOptions,
) -> Result<FormatPlan, FormatError> {
    let plan = FormatPlan::new(source.into_entries(), volume_bytes, options)?;
    for extent in plan.head() {
        put(out, extent.at, &extent.bytes);
    }
    for dir in 0..plan.directories() {
        let extent = plan.directory(dir);
        put(out, extent.at, &extent.bytes);
        for entry in 0..plan.entries(dir) {
            if let Some((at, bytes)) = plan.file(dir, entry) {
                put(out, at, bytes);
            }
        }
    }
    out.resize(plan.volume_bytes() as usize, 0);
    Ok(plan)
}

fn empty() -> TreeBuilder {
    TreeBuilder::new()
}

fn image() -> Image {
    format(empty(), 64 << 20, FormatOptions::new(0x1234_5678)).expect("format")
}

#[test]
fn the_image_is_the_size_it_was_asked_for() {
    let image = format(empty(), 64 << 20, FormatOptions::new(1)).expect("format");
    assert_eq!(image.as_bytes().len(), 64 << 20);

    let ragged = format(empty(), (64 << 20) + 511, FormatOptions::new(1)).expect("format");
    assert_eq!(ragged.as_bytes().len(), (64 << 20) + 511);
    assert_eq!(ragged.layout().volume_length, image.layout().volume_length);
}

#[test]
fn two_formats_of_the_same_parameters_are_the_same_bytes() {
    let options = FormatOptions::new(0xDEAD_BEEF).label(VolumeLabel::new("CARD").unwrap());
    assert_eq!(
        format(empty(), 32 << 20, options)
            .expect("format")
            .into_bytes(),
        format(empty(), 32 << 20, options)
            .expect("format")
            .into_bytes()
    );

    assert_ne!(
        format(empty(), 32 << 20, FormatOptions::new(1))
            .expect("format")
            .into_bytes(),
        format(empty(), 32 << 20, FormatOptions::new(2))
            .expect("format")
            .into_bytes()
    );
}

#[test]
fn both_boot_regions_are_written_and_each_carries_its_own_checksum() {
    let image = image();
    let layout = *image.layout();
    let bytes = image.as_bytes();
    let sector = layout.bytes_per_sector as usize;
    let region = BOOT_REGION_SECTORS as usize * sector;

    let main = &bytes[..region];
    let backup = &bytes[region..2 * region];
    assert_eq!(main, backup, "the backup region is a copy");

    for (which, region) in [main, backup].into_iter().enumerate() {
        let checksum_at = 11 * sector;
        assert_eq!(
            checksum_sector_value(&region[checksum_at..]),
            Some(boot_checksum(&region[..checksum_at])),
            "region {which}"
        );
        for n in 1..9 {
            assert_eq!(
                extended_boot_signature(&region[n * sector..(n + 1) * sector]),
                Some(EXTENDED_BOOT_SIGNATURE),
                "region {which}, extended boot sector {n}"
            );
        }
        assert!(
            region[9 * sector..11 * sector].iter().all(|b| *b == 0),
            "region {which}: the parameters and reserved sectors"
        );
    }
}

#[test]
fn the_boot_sector_records_the_geometry_that_was_planned() {
    let image = image();
    let layout = *image.layout();
    let boot = MainBootSector::read_from(image.as_bytes()).expect("read");

    assert_eq!(boot.volume_length, layout.volume_length);
    assert_eq!(boot.fat_offset, layout.fat_offset);
    assert_eq!(boot.fat_length, layout.fat_length);
    assert_eq!(boot.cluster_heap_offset, layout.cluster_heap_offset);
    assert_eq!(boot.cluster_count, layout.cluster_count);
    assert_eq!(boot.first_cluster_of_root, layout.first_cluster_of_root);
    assert_eq!(boot.volume_serial, 0x1234_5678);
    assert_eq!(boot.file_system_revision, FILE_SYSTEM_REVISION);
    assert_eq!(boot.number_of_fats, NUMBER_OF_FATS);
    assert_eq!(boot.bytes_per_sector(), Some(layout.bytes_per_sector));
    assert_eq!(boot.bytes_per_cluster(), Some(layout.bytes_per_cluster));

    assert_eq!(boot.volume_flags, 0);
    assert!(image.as_bytes()[MUST_BE_ZERO_START..MUST_BE_ZERO_END].iter().all(|b| *b == 0));
    assert_eq!(&image.as_bytes()[510..512], &BOOT_SIGNATURE.to_le_bytes());
}

#[test]
fn how_full_the_volume_is_is_computed_rather_than_left_at_zero() {
    let coarse = format(
        empty(),
        4 << 20,
        FormatOptions::new(1)
            .plan(PlanRequest::new(0).cluster_size(ClusterSize::Bytes(32 << 10))),
    )
    .expect("format");
    assert_eq!(coarse.layout().cluster_count, 64);
    assert_eq!(
        MainBootSector::read_from(coarse.as_bytes())
            .unwrap()
            .percent_in_use,
        4
    );

    let ordinary = image();
    assert_eq!(
        MainBootSector::read_from(ordinary.as_bytes())
            .unwrap()
            .percent_in_use,
        0,
        "a volume with room rounds down to nothing, and says so"
    );
}

#[test]
fn the_allocation_table_chains_each_resident_and_stops() {
    for cluster in [ClusterSize::Bytes(512), ClusterSize::Bytes(4 << 10)] {
        let image = format(
            empty(),
            64 << 20,
            FormatOptions::new(1).plan(PlanRequest::new(0).cluster_size(cluster)),
        )
        .expect("format");
        let layout = *image.layout();
        let what = format!("{cluster:?}");
        let entry = |n: u32| {
            u32_at(
                image.as_bytes(),
                layout.fat_entry_byte(n).expect("in the table") as usize,
            )
        };

        assert_eq!(entry(0), FAT_ENTRY_MEDIA, "{what}");
        assert_eq!(entry(1), FAT_ENTRY_RESERVED, "{what}");

        for (first, past) in [
            (layout.bitmap_cluster, layout.upcase_cluster),
            (layout.upcase_cluster, layout.first_cluster_of_root),
            (
                layout.first_cluster_of_root,
                layout.first_cluster_of_root + 1,
            ),
        ] {
            let mut at = first;
            let mut steps = 0;
            while entry(at) != END_OF_CHAIN {
                assert_eq!(entry(at), at + 1, "{what}: cluster {at} chains forward");
                at = entry(at);
                steps += 1;
                assert!(
                    steps < past - first + 1,
                    "{what}: chain from {first} runs on"
                );
            }
            assert_eq!(
                at,
                past - 1,
                "{what}: the chain from {first} ends where it should"
            );
        }

        assert_eq!(entry(layout.first_cluster_of_root + 1), 0, "{what}");
    }
}

#[test]
fn the_bitmap_sets_a_bit_for_each_resident_cluster_and_no_others() {
    for cluster in [ClusterSize::Bytes(512), ClusterSize::Bytes(32 << 10)] {
        let image = format(
            empty(),
            64 << 20,
            FormatOptions::new(1).plan(PlanRequest::new(0).cluster_size(cluster)),
        )
        .expect("format");
        let layout = *image.layout();
        let what = format!("{cluster:?}");
        let at = layout.cluster_start_byte(layout.bitmap_cluster).unwrap() as usize;
        let bitmap = &image.as_bytes()[at..at + layout.bitmap_bytes as usize];

        let used = (layout.first_cluster_of_root + 1 - FIRST_CLUSTER) as usize;
        let set: usize = bitmap.iter().map(|b| b.count_ones() as usize).sum();
        assert_eq!(set, used, "{what}: one bit per resident cluster");

        for n in 0..used {
            assert_eq!(bitmap[n / 8] >> (n % 8) & 1, 1, "{what}: bit {n} is set");
        }
        assert_eq!(bitmap[used / 8] >> (used % 8) & 1, 0, "{what}: bit {used}");
    }
}

#[test]
fn the_up_case_table_lands_where_its_entry_says_and_checksums_to_what_it_advertises() {
    let image = image();
    let layout = *image.layout();
    let at = layout.cluster_start_byte(layout.upcase_cluster).unwrap() as usize;
    let table = &image.as_bytes()[at..at + layout.upcase_bytes as usize];
    assert_eq!(upcase_checksum(table), RECOMMENDED_UPCASE_CHECKSUM);

    let span = layout.clusters_for(layout.upcase_bytes) * u64::from(layout.bytes_per_cluster);
    assert!(
        image.as_bytes()[at + table.len()..at + span as usize]
            .iter()
            .all(|b| *b == 0)
    );
}

#[test]
fn the_root_directory_holds_the_slots_a_format_writes_in_the_order_it_writes_them() {
    let image = format(
        empty(),
        32 << 20,
        FormatOptions::new(1).label(VolumeLabel::new("FERROSYS").unwrap()),
    )
    .expect("format");
    let layout = *image.layout();
    let at = layout
        .cluster_start_byte(layout.first_cluster_of_root)
        .unwrap() as usize;
    let root = &image.as_bytes()[at..at + layout.bytes_per_cluster as usize];
    let slot = |n: usize| &root[n * DIR_ENTRY_SIZE..(n + 1) * DIR_ENTRY_SIZE];

    let label = VolumeLabelEntry::read_from(slot(0)).expect("a label entry");
    assert_eq!(label.character_count, 8);
    assert_eq!(
        &label.label[..8],
        &"FERROSYS".encode_utf16().collect::<Vec<_>>()[..]
    );

    assert_eq!(slot(1)[0], EntryType(EntryType::VOLUME_GUID).cleared().0);
    assert!(slot(1)[1..].iter().all(|b| *b == 0));

    let bitmap = AllocationBitmapEntry::read_from(slot(2)).expect("a bitmap entry");
    assert_eq!(bitmap.first_cluster, layout.bitmap_cluster);
    assert_eq!(bitmap.data_length, layout.bitmap_bytes);
    assert_eq!(bitmap.data_length, u64_at(slot(2), 24));

    let upcase = UpcaseTableEntry::read_from(slot(3)).expect("an up-case entry");
    assert_eq!(upcase.first_cluster, layout.upcase_cluster);
    assert_eq!(upcase.data_length, RECOMMENDED_UPCASE_BYTES);
    assert_eq!(upcase.table_checksum, RECOMMENDED_UPCASE_CHECKSUM);

    assert!(root[4 * DIR_ENTRY_SIZE..].iter().all(|b| *b == 0));
}

#[test]
fn a_volume_with_no_name_carries_the_label_entry_all_the_same() {
    let image = image();
    let layout = *image.layout();
    let at = layout
        .cluster_start_byte(layout.first_cluster_of_root)
        .unwrap() as usize;
    let label = VolumeLabelEntry::read_from(&image.as_bytes()[at..]).expect("a label entry");
    assert_eq!(label, VolumeLabelEntry::unnamed());
}

#[test]
fn streaming_a_volume_and_holding_one_produce_the_same_bytes() {
    let options = FormatOptions::new(0x0BAD_F00D).label(VolumeLabel::new("SD").unwrap());
    let held = format(empty(), 32 << 20, options).expect("format");
    let mut streamed = Vec::new();
    let plan = format_to(&mut streamed, empty(), 32 << 20, options).expect("format");
    assert_eq!(plan.layout(), held.layout());
    assert_eq!(streamed, held.into_bytes());
}

#[test]
fn the_boot_code_a_caller_supplies_reaches_the_sector_and_the_checksum() {
    let mut code = [0u8; BOOT_CODE_LEN];
    code[..4].copy_from_slice(b"\xEB\x3C\x90\x00");
    let plain = format(empty(), 32 << 20, FormatOptions::new(7)).expect("format");
    let booting =
        format(empty(), 32 << 20, FormatOptions::new(7).boot_code(code)).expect("format");

    assert_eq!(&booting.as_bytes()[120..124], b"\xEB\x3C\x90\x00");
    let sector = plain.layout().bytes_per_sector as usize;
    assert_ne!(
        &plain.as_bytes()[11 * sector..12 * sector],
        &booting.as_bytes()[11 * sector..12 * sector]
    );
}

fn slots_at(image: &Image, cluster: u32, count: usize) -> Vec<&[u8]> {
    let at = image
        .layout()
        .cluster_start_byte(cluster)
        .expect("a cluster") as usize;
    (0..count)
        .map(|n| &image.as_bytes()[at + n * DIR_ENTRY_SIZE..at + (n + 1) * DIR_ENTRY_SIZE])
        .collect()
}

#[test]
fn a_file_becomes_a_set_whose_checksum_covers_every_entry_in_it() {
    let image = format(
        TreeBuilder::new().file(
            b"/README.TXT".to_vec(),
            b"hello\n".to_vec(),
            Metadata::new(0o644, TIME),
        ),
        32 << 20,
        FormatOptions::new(1),
    )
    .expect("format");
    let layout = *image.layout();
    let slots = slots_at(&image, layout.first_cluster_of_root, 8);

    let file = FileEntry::read_from(slots[4]).expect("a file entry");
    assert_eq!(file.secondary_count, 2, "a stream extension and one name");
    assert_eq!(file.attributes, FileAttributes::from_bits(FileAttributes::ARCHIVE));
    assert_eq!(file.create, file.modify, "a creation time is derived");
    assert_eq!(file.create_utc_offset, UTC_OFFSET);
    assert_eq!(file.modify_utc_offset, UTC_OFFSET);
    assert_eq!(file.access_utc_offset, UTC_OFFSET);

    let stream = StreamExtensionEntry::read_from(slots[5]).expect("a stream extension");
    assert_eq!(stream.name_length, 10);
    assert_eq!(stream.data_length, 6);
    assert_eq!(
        stream.valid_data_length, 6,
        "a format writes what it allocates"
    );
    assert!(stream.no_fat_chain());

    let name = FileNameEntry::read_from(slots[6]).expect("a name entry");
    assert_eq!(
        &name.units[..10],
        &"README.TXT".encode_utf16().collect::<Vec<_>>()[..]
    );
    assert!(
        slots[7][0] == 0,
        "the directory ends at the zero byte behind it"
    );

    let set: Vec<u8> = slots[4..7].concat();
    assert_eq!(file.set_checksum, entry_set_checksum(&set));
    assert_eq!(file.set_checksum, u16_at(slots[4], 2));

    let folded = UpcaseTable::recommended().fold(&name.units[..10]);
    assert_eq!(stream.name_hash, name_hash(&folded));
}

#[test]
fn a_files_bytes_land_where_its_stream_extension_says_they_do() {
    let contents: Vec<u8> = (0..9_000u32).map(|n| n as u8).collect();
    let image = format(
        TreeBuilder::new()
            .file(
                b"/a.bin".to_vec(),
                contents.clone(),
                Metadata::new(0o644, TIME),
            )
            .file(b"/b.bin".to_vec(), b"second".to_vec(), Metadata::new(0o644, TIME)),
        32 << 20,
        FormatOptions::new(1),
    )
    .expect("format");
    let layout = *image.layout();

    for (slot, expected) in [(5usize, &contents[..]), (8, b"second")] {
        let stream = StreamExtensionEntry::read_from(
            slots_at(&image, layout.first_cluster_of_root, slot + 1)[slot],
        )
        .expect("a stream extension");
        let at = layout
            .cluster_start_byte(stream.first_cluster)
            .expect("a cluster") as usize;
        assert_eq!(
            &image.as_bytes()[at..at + stream.data_length as usize],
            expected
        );
    }
}

#[test]
fn a_subdirectory_holds_its_own_sets_and_no_dot_entries() {
    let image = format(
        TreeBuilder::new()
            .directory(b"/dir".to_vec(), Metadata::new(0o755, TIME))
            .file(b"/dir/inner.txt".to_vec(), b"x".to_vec(), Metadata::new(0o644, TIME)),
        32 << 20,
        FormatOptions::new(1),
    )
    .expect("format");
    let layout = *image.layout();

    let stream =
        StreamExtensionEntry::read_from(slots_at(&image, layout.first_cluster_of_root, 6)[5])
            .expect("a stream extension");
    assert_eq!(stream.data_length, u64::from(layout.bytes_per_cluster));
    assert_eq!(stream.valid_data_length, stream.data_length);

    let inner = slots_at(&image, stream.first_cluster, 3);
    let file = FileEntry::read_from(inner[0]).expect("a file entry");
    assert_eq!(file.attributes, FileAttributes::from_bits(FileAttributes::ARCHIVE));
    let name = FileNameEntry::read_from(inner[2]).expect("a name entry");
    assert_eq!(
        &name.units[..9],
        &"inner.txt".encode_utf16().collect::<Vec<_>>()[..]
    );
}

#[test]
fn a_name_too_long_for_one_entry_is_spread_across_as_many_as_it_needs() {
    let name = "n".repeat(MAX_NAME_UNITS);
    let image = format(
        TreeBuilder::new().file(
            format!("/{name}").into_bytes(),
            b"x".to_vec(),
            Metadata::new(0o644, TIME),
        ),
        32 << 20,
        FormatOptions::new(1),
    )
    .expect("format");
    let layout = *image.layout();
    let slots = slots_at(&image, layout.first_cluster_of_root, 4 + 19);

    let file = FileEntry::read_from(slots[4]).expect("a file entry");
    assert_eq!(
        file.secondary_count, 18,
        "a stream extension and seventeen names"
    );
    let stream = StreamExtensionEntry::read_from(slots[5]).expect("a stream extension");
    assert_eq!(stream.name_length, MAX_NAME_UNITS as u8);

    let mut units = Vec::new();
    for slot in &slots[6..4 + 19] {
        units.extend_from_slice(&FileNameEntry::read_from(slot).expect("a name").units);
    }
    assert_eq!(units.len(), 17 * NAME_UNITS_PER_ENTRY);
    units.truncate(usize::from(stream.name_length));
    assert_eq!(String::from_utf16(&units).expect("well-formed"), name);
}

#[test]
fn a_root_directory_that_outgrows_one_cluster_is_chained_where_a_subdirectory_is_not() {
    let mut source = TreeBuilder::new();
    for n in 0..60u32 {
        source = source.file(
            format!("/file-{n:04}.txt").into_bytes(),
            b"x".to_vec(),
            Metadata::new(0o644, TIME),
        );
    }
    let image = format(source, 32 << 20, FormatOptions::new(1)).expect("format");
    let layout = *image.layout();
    let entry = |n: u32| {
        u32_at(
            image.as_bytes(),
            layout.fat_entry_byte(n).expect("in the table") as usize,
        )
    };

    let root_first = layout.first_cluster_of_root;
    assert_eq!(entry(root_first), root_first + 1, "the root chains forward");
    assert_eq!(entry(root_first + 1), END_OF_CHAIN);

    assert_eq!(entry(root_first + 2), 0);
    let stream =
        StreamExtensionEntry::read_from(slots_at(&image, root_first, 6)[5]).expect("a stream");
    assert!(stream.no_fat_chain());
    assert_eq!(stream.first_cluster, root_first + 2);
}

#[test]
fn the_bitmap_marks_every_cluster_the_tree_holds_however_it_is_addressed() {
    let image = format(
        TreeBuilder::new()
            .directory(b"/d".to_vec(), Metadata::new(0o755, TIME))
            .file(
                b"/d/big".to_vec(),
                vec![0u8; 20_000],
                Metadata::new(0o644, TIME),
            ),
        32 << 20,
        FormatOptions::new(1),
    )
    .expect("format");
    let layout = *image.layout();
    let at = layout.cluster_start_byte(layout.bitmap_cluster).unwrap() as usize;
    let bitmap = &image.as_bytes()[at..at + layout.bitmap_bytes as usize];

    let used = (layout.first_cluster_of_root - FIRST_CLUSTER) + 1 + 1 + 5;
    assert_eq!(
        bitmap.iter().map(|b| b.count_ones()).sum::<u32>(),
        used,
        "one bit per cluster in use"
    );
    for n in 0..used as usize {
        assert_eq!(bitmap[n / 8] >> (n % 8) & 1, 1, "bit {n} is set");
    }
    assert_eq!(bitmap[used as usize / 8] >> (used % 8) & 1, 0);
}

#[test]
fn how_full_the_volume_is_counts_the_tree_and_not_only_the_format() {
    let options =
        FormatOptions::new(1).plan(PlanRequest::new(0).cluster_size(ClusterSize::Bytes(512)));
    let bare = format(empty(), 4 << 20, options).expect("format");
    let filled = format(
        TreeBuilder::new().file(
            b"/big".to_vec(),
            vec![0u8; 1 << 20],
            Metadata::new(0o644, TIME),
        ),
        4 << 20,
        options,
    )
    .expect("format");

    let percent = |image: &Image| {
        MainBootSector::read_from(image.as_bytes())
            .expect("a boot sector")
            .percent_in_use
    };
    assert_eq!(percent(&bare), 0);
    assert_eq!(bare.layout().cluster_count, 4096);
    assert_eq!(percent(&filled), 50);
}

#[test]
fn an_empty_source_writes_the_volume_the_family_wrote_before_it_had_a_tree() {
    let options = FormatOptions::new(0x0BAD_F00D).label(VolumeLabel::new("SD").unwrap());
    let bare = format(empty(), 32 << 20, options).expect("format");
    let layout = *bare.layout();
    let root = layout
        .cluster_start_byte(layout.first_cluster_of_root)
        .unwrap() as usize;
    assert!(
        bare.as_bytes()[root + ROOT_LEADING_SLOTS as usize * DIR_ENTRY_SIZE..][..layout
            .bytes_per_cluster
            as usize
            - ROOT_LEADING_SLOTS as usize * DIR_ENTRY_SIZE]
            .iter()
            .all(|b| *b == 0),
        "nothing follows the four entries a format writes"
    );
    assert_eq!(
        bare.layout().first_cluster_of_root,
        layout.first_cluster_of_root
    );
    assert!(bare.fidelity().is_faithful());
}

#[test]
fn two_formats_of_the_same_tree_are_the_same_bytes_and_stream_identically() {
    let source = TreeBuilder::new()
        .directory(b"/DCIM".to_vec(), Metadata::new(0o755, TIME))
        .file(
            b"/DCIM/IMG_0001.JPG".to_vec(),
            b"\xFF\xD8\xFF".to_vec(),
            Metadata::new(0o644, TIME),
        )
        .file(
            b"/README.TXT".to_vec(),
            b"hello\n".to_vec(),
            Metadata::new(0o644, TIME),
        );
    let options = FormatOptions::new(0x1234_5678).label(VolumeLabel::new("CARD").unwrap());

    let held = format(source.clone(), 32 << 20, options).expect("format");
    assert_eq!(
        held.as_bytes(),
        format(source.clone(), 32 << 20, options)
            .expect("format")
            .as_bytes()
    );

    let mut streamed = Vec::new();
    let plan = format_to(&mut streamed, source, 32 << 20, options).expect("format");
    assert_eq!(plan.layout(), held.layout());
    assert_eq!(streamed, held.into_bytes());
}

#[test]
fn a_source_the_volume_cannot_hold_is_refused_before_the_destination_is_touched() {
    let source = TreeBuilder::new().file(
        b"/owned".to_vec(),
        b"x".to_vec(),
        Metadata {
            uid: 1000,
            gid: 1000,
            ..Metadata::new(0o644, TIME)
        },
    );
    let mut sink = Vec::new();
    assert!(matches!(
        format_to(&mut sink, source.clone(), 32 << 20, FormatOptions::new(1)),
        Err(FormatError::Model(ModelError::LossNotAccepted {
            property: Property::Ownership,
            ..
        }))
    ));
    assert!(sink.is_empty());

    let plan = FormatPlan::new(
        source.into_entries(),
        32 << 20,
        FormatOptions::new(1).accepted_loss(AcceptedLoss::none().and(Property::Ownership)),
    )
    .expect("accepted");
    assert_eq!(
        plan.fidelity()
            .count(Direction::Dropped, Property::Ownership),
        1
    );
    assert!(plan.free_clusters() > 0);
}

#[test]
fn a_geometry_that_cannot_be_realized_fails_before_the_destination_is_touched() {
    let mut sink = Vec::new();
    assert!(matches!(
        format_to(&mut sink, empty(), 4096, FormatOptions::new(1)),
        Err(FormatError::Geometry(GeometryError::VolumeTooSmall { .. }))
    ));
    assert!(sink.is_empty());
}

#[test]
fn a_label_is_bounded_by_the_field_and_not_by_its_characters() {
    assert_eq!(VolumeLabel::new("ELEVENCHARS").unwrap().units().len(), 11);
    assert!(matches!(
        VolumeLabel::new("TWELVECHARSX"),
        Err(LabelError::TooLong { limit: 11, .. })
    ));

    assert_eq!(VolumeLabel::new("\u{1F600}").unwrap().units().len(), 2);
    assert!(VolumeLabel::new("\u{1F600}\u{1F600}\u{1F600}\u{1F600}\u{1F600}").is_ok());
    assert!(matches!(
        VolumeLabel::new("\u{1F600}\u{1F600}\u{1F600}\u{1F600}\u{1F600}\u{1F600}"),
        Err(LabelError::TooLong { .. })
    ));

    assert!(matches!(
        VolumeLabel::new("A\u{0}B"),
        Err(LabelError::NulUnit { at: 1 })
    ));
}

#[test]
fn a_label_keeps_the_case_and_the_characters_it_was_given() {
    let label = VolumeLabel::new("Ferrosys ×").expect("a label");
    assert_eq!(
        label.units(),
        &"Ferrosys ×".encode_utf16().collect::<Vec<_>>()[..]
    );
    assert_eq!(label.text(), "VolumeLabel(\"Ferrosys ×\")");
}

fn u16_at(bytes: &[u8], at: usize) -> u16 {
    u16::from_le_bytes(bytes[at..at + 2].try_into().expect("two bytes"))
}

fn u32_at(bytes: &[u8], at: usize) -> u32 {
    u32::from_le_bytes(bytes[at..at + 4].try_into().expect("four bytes"))
}

fn u64_at(bytes: &[u8], at: usize) -> u64 {
    u64::from_le_bytes(bytes[at..at + 8].try_into().expect("eight bytes"))
}
