//! Reading a volume.
use exfat::boot::{
    write_checksum_sector, BOOT_REGION_SECTORS, EXTENDED_BOOT_SECTORS, EXTENDED_BOOT_SIGNATURE,
    PERCENT_IN_USE_UNKNOWN,
};
use exfat::csum::{
    boot_checksum, entry_set_checksum, name_hash, upcase_checksum, BOOT_CHECKSUM_SKIPS,
};
use exfat::detect::claim;
use exfat::deviation::Deviations;
use exfat::dirent::{
    EntryType, FileAttributes, FileEntry, FileNameEntry, DIR_ENTRY_SIZE, MAX_LABEL_UNITS,
    SECONDARY_ALLOCATION_POSSIBLE, SECONDARY_NO_FAT_CHAIN,
};
use exfat::error::ParseError;
use exfat::fidelity::{Property, Synthesis};
use exfat::finding::{Category, Family, Finding, Severity};
use exfat::geometry::{ClusterSize, PlanRequest, FIRST_CLUSTER};
use exfat::label::VolumeLabel;
use exfat::materialize::{FormatError, Image};
use exfat::model::MAX_DIRECTORY_BYTES;
use exfat::node::{bound_length, times_of, Entry};
use exfat::options::FormatOptions;
use exfat::policy::{Limits, OpenOptions, ReadPolicy, MAX_PATH};
use exfat::read_error::{BackupDetail, IoKind, ReadError, SetDetail};
use exfat::reader::Reader;
use exfat::recover::BootDefect;
use exfat::source::{Metadata, TreeBuilder};
use exfat::table::{BAD_CLUSTER, END_OF_CHAIN};
use exfat::time::{pack_timestamp, DosTimestamp, Timestamp, UTC_OFFSET, UTC_OFFSET_VALID};
use exfat::tree::{NodeKind, TreeError};
use exfat::upcase::{write_upcase_table, UpcaseTable, UPCASE_IDENTITY_RUN};
use exfat::upcase_table::recommended_table;
use exfat::volume::{Storage, MAX_UPCASE_BYTES};


const TIME: Timestamp = Timestamp {
    secs: 1_426_325_212,
    nanos: 0,
};

const VOLUME: u64 = 64 << 20;

fn meta(mode: u16) -> Metadata {
    Metadata::new(mode, TIME)
}

fn tree() -> TreeBuilder {
    TreeBuilder::new()
        .directory(b"/DCIM".to_vec(), meta(0o755))
        .file(b"/DCIM/READY.TXT".to_vec(), b"hello\n".to_vec(), meta(0o644))
        .file(b"/DCIM/EMPTY.BIN".to_vec(), b"".to_vec(), meta(0o644))
        .file(
            b"/DCIM/A name long enough to need two entries.txt".to_vec(),
            b"two".to_vec(),
            meta(0o444),
        )
        .file(b"/BIG.BIN".to_vec(), vec![0x5a; 9_000], meta(0o644))
}

fn format(
    source: TreeBuilder,
    volume_bytes: u64,
    options: FormatOptions,
) -> Result<Image, FormatError> {
    exfat::materialize::format(source.into_entries(), volume_bytes, options)
}

fn image_of(source: TreeBuilder) -> Vec<u8> {
    format(source, VOLUME, FormatOptions::new(0x1234_5678))
        .expect("format")
        .into_bytes()
}

fn image() -> Vec<u8> {
    image_of(tree())
}

fn reader(bytes: &[u8]) -> Reader<'_> {
    Reader::open(bytes).expect("open")
}

fn lenient(bytes: &[u8]) -> Reader<'_> {
    Reader::open_with(
        bytes,
        &OpenOptions::new().policy(ReadPolicy::Lenient),
    )
    .expect("open leniently")
}

fn open_err(bytes: &[u8], policy: ReadPolicy) -> ReadError {
    match Reader::open_with(bytes, &OpenOptions::new().policy(policy)) {
        Err(e) => e,
        Ok(_) => panic!("the image was expected to be refused and was not"),
    }
}

fn root_entries(bytes: &[u8]) -> Result<Vec<Entry>, ReadError> {
    let r = reader(bytes);
    let root = r.root();
    r.read_dir(&root)
}

fn root_entries_lenient(bytes: &[u8]) -> Vec<Entry> {
    let r = lenient(bytes);
    let root = r.root();
    r.read_dir(&root).expect("a lenient read carries on")
}

fn paths(bytes: &[u8]) -> Vec<Vec<u8>> {
    reader(bytes)
        .walk()
        .expect("walk")
        .into_iter()
        .map(|e| e.path)
        .collect()
}

fn cluster_at(bytes: &[u8], n: u32) -> usize {
    reader(bytes)
        .layout()
        .cluster_start_byte(n)
        .expect("a cluster the volume has") as usize
}

fn set_at(bytes: &[u8], dir_cluster: u32, name: &str) -> usize {
    let want: Vec<u16> = name.encode_utf16().collect();
    let at = cluster_at(bytes, dir_cluster);
    let cluster = reader(bytes).layout().bytes_per_cluster as usize;
    let mut slot = 0;
    while (slot + 1) * DIR_ENTRY_SIZE <= cluster {
        let start = at + slot * DIR_ENTRY_SIZE;
        let entry = &bytes[start..start + DIR_ENTRY_SIZE];
        if EntryType(entry[0]) == EntryType(EntryType::FILE) {
            let secondary = usize::from(entry[1]);
            let stream = &bytes[start + DIR_ENTRY_SIZE..start + 2 * DIR_ENTRY_SIZE];
            let length = usize::from(stream[3]);
            let mut units = Vec::new();
            for n in 2..=secondary {
                let e = &bytes[start + n * DIR_ENTRY_SIZE..start + (n + 1) * DIR_ENTRY_SIZE];
                if EntryType(e[0]) != EntryType(EntryType::FILE_NAME) {
                    continue;
                }
                for pair in e[2..].chunks_exact(2) {
                    units.push(u16::from_le_bytes([pair[0], pair[1]]));
                }
            }
            units.truncate(length);
            if units == want {
                return start;
            }
            slot += secondary + 1;
            continue;
        }
        slot += 1;
    }
    panic!("no entry set names {name} in cluster {dir_cluster}");
}

fn refresh_set_checksum(bytes: &mut [u8], at: usize) {
    let slots = usize::from(bytes[at + 1]) + 1;
    let checksum = entry_set_checksum(&bytes[at..at + slots * DIR_ENTRY_SIZE]);
    bytes[at + 2..at + 4].copy_from_slice(&checksum.to_le_bytes());
}

fn refresh_boot_checksum(bytes: &mut [u8], sector: u64) {
    let size = 1usize << bytes[108];
    let at = sector as usize * size;
    let covered = boot_checksum(&bytes[at..at + 11 * size]);
    write_checksum_sector(&mut bytes[at + 11 * size..at + 12 * size], covered);
}

fn scan_of(bytes: &[u8]) -> Vec<Finding> {
    lenient(bytes).scan().findings()
}

#[test]
fn a_tree_written_by_this_crate_reads_back_whole() {
    let bytes = image();
    assert_eq!(
        paths(&bytes),
        vec![
            b"/BIG.BIN".to_vec(),
            b"/DCIM".to_vec(),
            b"/DCIM/A name long enough to need two entries.txt".to_vec(),
            b"/DCIM/EMPTY.BIN".to_vec(),
            b"/DCIM/READY.TXT".to_vec(),
        ]
    );

    let r = reader(&bytes);
    for (path, contents) in [
        (&b"/DCIM/READY.TXT"[..], &b"hello\n"[..]),
        (b"/DCIM/EMPTY.BIN", b""),
        (b"/DCIM/A name long enough to need two entries.txt", b"two"),
    ] {
        let node = r.lookup(path).expect("look the path up");
        assert_eq!(r.read_data(&node).expect("read"), contents, "{path:?}");
    }
    let big = r.lookup(b"/BIG.BIN").expect("look /BIG.BIN up");
    assert_eq!(r.read_data(&big).expect("read"), vec![0x5a; 9_000]);
    assert!(r.scan().is_clean(), "{:?}", r.scan().findings());
}

#[test]
fn a_layout_read_back_is_the_layout_that_was_planned() {
    let image = format(tree(), VOLUME, FormatOptions::new(0x1234_5678)).expect("format");
    let planned = *image.layout();
    let bytes = image.into_bytes();
    assert_eq!(reader(&bytes).layout(), &planned);
}

#[test]
fn the_times_an_entry_records_come_back_as_the_instants_that_went_in() {
    let bytes = image();
    let r = reader(&bytes);
    let node = r.lookup(b"/DCIM/READY.TXT").expect("look up");
    let times = node.times.expect("a file has times");
    assert_eq!(times.modify, TIME);
    assert_eq!(times.access, TIME);
    assert_eq!(times.modify_offset, Some(0));
    assert_eq!(times.access_offset, Some(0));
    assert_eq!(times.create_offset, Some(0));
    assert_eq!(r.root().times, None);
}

#[test]
fn a_zone_offset_moves_the_instant_and_an_absent_one_reads_as_utc() {
    let mut file = FileEntry::read_from(&{
        let mut buf = [0u8; DIR_ENTRY_SIZE];
        buf[0] = EntryType::FILE;
        buf
    })
    .expect("a file entry");
    let stamp = DosTimestamp::encode(TIME).expect("in range");
    file.create = pack_timestamp(stamp);
    file.modify = file.create;
    file.access = file.create;
    file.create_tenth = stamp.tenth;
    file.modify_tenth = stamp.tenth;

    file.create_utc_offset = UTC_OFFSET;
    file.modify_utc_offset = UTC_OFFSET;
    file.access_utc_offset = UTC_OFFSET;
    assert_eq!(times_of(&file).modify, TIME);

    file.modify_utc_offset = UTC_OFFSET_VALID | 0x04;
    let east = times_of(&file);
    assert_eq!(east.modify.secs, TIME.secs - 3600);
    assert_eq!(east.modify_offset, Some(60));

    file.modify_utc_offset = 0;
    let bare = times_of(&file);
    assert_eq!(bare.modify, TIME);
    assert_eq!(bare.modify_offset, None);
}

#[test]
fn a_volume_answers_to_the_name_its_root_directory_records() {
    let labelled = format(
        TreeBuilder::new(),
        VOLUME,
        FormatOptions::new(1).label(VolumeLabel::new("CARD").expect("a label")),
    )
    .expect("format")
    .into_bytes();
    assert_eq!(reader(&labelled).volume_label(), Some(&b"CARD"[..]));

    let unnamed = image_of(TreeBuilder::new());
    assert_eq!(reader(&unnamed).volume_label(), None);
}

#[test]
fn a_label_field_the_reader_cannot_read_as_a_name_is_named_rather_than_invented() {
    let mut bytes = image_of(TreeBuilder::new());
    let root = cluster_at(&bytes, reader(&bytes).layout().first_cluster_of_root);
    assert_eq!(bytes[root], EntryType::VOLUME_LABEL, "the first slot");
    bytes[root + 1] = 200;

    let err = open_err(&bytes, ReadPolicy::Strict);
    assert!(
        matches!(
            err,
            ReadError::LabelTooLong {
                count: 200,
                limit: MAX_LABEL_UNITS
            }
        ),
        "{err:?}"
    );

    let r = lenient(&bytes);
    assert_eq!(r.volume_label(), None);
    let details: Vec<_> = r
        .scan()
        .findings()
        .iter()
        .map(|f| f.detail.clone())
        .collect();
    assert!(
        details.iter().any(|d| d.contains("carries a NUL")),
        "{details:#?}"
    );
}

#[test]
fn a_second_entry_of_a_kind_the_root_owns_one_of_is_named() {
    let bytes = image_of(TreeBuilder::new());
    let root_cluster = reader(&bytes).layout().first_cluster_of_root;
    let root = cluster_at(&bytes, root_cluster);
    for (entry_type, named) in [
        (EntryType(EntryType::VOLUME_LABEL), "volume label"),
        (EntryType(EntryType::ALLOCATION_BITMAP), "allocation bitmap"),
        (EntryType(EntryType::UPCASE_TABLE), "up-case table"),
    ] {
        let mut bytes = bytes.clone();
        let slots = reader(&bytes).layout().bytes_per_cluster as usize / DIR_ENTRY_SIZE;
        let source = (0..slots)
            .map(|n| root + n * DIR_ENTRY_SIZE)
            .find(|at| bytes[*at] == entry_type.0)
            .expect("the entry the format writes");
        let free = (0..slots)
            .map(|n| root + n * DIR_ENTRY_SIZE)
            .find(|at| bytes[*at] == 0)
            .expect("a slot past the end marker");
        let copy: Vec<u8> = bytes[source..source + DIR_ENTRY_SIZE].to_vec();
        bytes[free..free + DIR_ENTRY_SIZE].copy_from_slice(&copy);

        let err = open_err(&bytes, ReadPolicy::Strict);
        assert!(
            matches!(err, ReadError::DuplicateRootEntry { entry_type: e, .. } if e == named),
            "{named}: {err:?}"
        );
    }
}

#[test]
fn a_subdirectory_naming_the_roots_first_cluster_is_not_the_root() {
    let mut bytes = image();
    let root_cluster = reader(&bytes).layout().first_cluster_of_root;
    let set = set_at(&bytes, root_cluster, "DCIM");
    let stream = stream_at(set);
    bytes[stream + 1] &= !SECONDARY_NO_FAT_CHAIN;
    bytes[stream + 20..stream + 24].copy_from_slice(&root_cluster.to_le_bytes());
    refresh_set_checksum(&mut bytes, set);

    let r = lenient(&bytes);
    let node = r.lookup(b"/DCIM").expect("look up");
    assert_eq!(node.storage, Storage::Chain(root_cluster));
    let err = {
        let strict = reader(&bytes);
        let node = strict.lookup(b"/DCIM").expect("look up");
        strict
            .read_dir(&node)
            .expect_err("the root's own entries are misplaced in it")
    };
    assert!(matches!(err, ReadError::MisplacedRootEntry { .. }), "{err:?}");
}

#[test]
fn a_lookup_finds_a_name_through_the_folding_the_volume_carries() {
    let bytes = image();
    let r = reader(&bytes);
    assert!(r.lookup(b"/dcim/ready.txt").is_ok());
    assert!(r.lookup(b"/DCIM/Ready.Txt").is_ok());
    assert!(matches!(
        r.lookup(b"/DCIM/READY_TXT"),
        Err(ReadError::NotFound { .. })
    ));
    assert!(matches!(
        r.lookup(b"/DCIM/READY.TXT/nothing"),
        Err(ReadError::NotADirectory { .. })
    ));
}

#[test]
fn an_ascent_lands_where_the_volumes_own_folding_resolves_from() {
    let bytes = image();
    let r = reader(&bytes);
    let want = r.lookup(b"/dcim/ready.txt").expect("lookup");
    assert_eq!(
        r.lookup(b"/DCIM/../dcim/Ready.TXT")
            .map(|node| node.storage),
        Ok(want.storage)
    );
    assert_eq!(
        r.lookup(b"/dcim/..").map(|n| n.storage),
        Ok(r.root().storage)
    );
    assert!(matches!(
        r.lookup(b"/dcim/../DCIM/READY_TXT"),
        Err(ReadError::NotFound { .. })
    ));
}

#[test]
fn the_folding_is_the_volumes_own_and_not_this_crates_copy_of_one() {
    let mut bytes = image_of(TreeBuilder::new().file(b"/README".to_vec(), b"x".to_vec(), meta(0o644)));
    let (table_at, table_bytes, entry_at) = {
        let r = reader(&bytes);
        let layout = r.layout();
        let table_at = layout
            .cluster_start_byte(layout.upcase_cluster)
            .expect("a cluster") as usize;
        let root_at = layout
            .cluster_start_byte(layout.first_cluster_of_root)
            .expect("a cluster") as usize;
        let entry_at = (0..16)
            .map(|n| root_at + n * DIR_ENTRY_SIZE)
            .find(|at| bytes[*at] == EntryType::UPCASE_TABLE)
            .expect("the up-case table's entry");
        (table_at, layout.upcase_bytes as usize, entry_at)
    };

    let identity = [UPCASE_IDENTITY_RUN, 0u16];
    let mut table = vec![0u8; 4];
    write_upcase_table(&identity, &mut table).expect("write the table");
    bytes[table_at..table_at + table_bytes].fill(0);
    bytes[table_at..table_at + table.len()].copy_from_slice(&table);

    let checksum = upcase_checksum(&bytes[table_at..table_at + table.len()]);
    bytes[entry_at + 4..entry_at + 8].copy_from_slice(&checksum.to_le_bytes());
    bytes[entry_at + 24..entry_at + 32].copy_from_slice(&(table.len() as u64).to_le_bytes());

    let r = reader(&bytes);
    assert_eq!(r.upcase().folded_units(), 0, "the volume folds nothing");
    assert!(r.lookup(b"/README").is_ok());
    assert!(
        matches!(r.lookup(b"/readme"), Err(ReadError::NotFound { .. })),
        "a volume folding nothing resolves names case-sensitively",
    );
    assert_eq!(
        UpcaseTable::recommended().fold(&"readme".encode_utf16().collect::<Vec<_>>()),
        UpcaseTable::recommended().fold(&"README".encode_utf16().collect::<Vec<_>>()),
    );
}

#[test]
fn a_stream_chained_through_the_table_reads_the_same_as_a_consecutive_one() {
    let mut bytes =
        image_of(TreeBuilder::new().file(b"/BIG.BIN".to_vec(), vec![0x5a; 9_000], meta(0o644)));
    let (root, bytes_per_cluster, fat_at) = {
        let r = reader(&bytes);
        (
            r.layout().first_cluster_of_root,
            r.layout().bytes_per_cluster,
            r.layout().fat_offset as usize * r.layout().bytes_per_sector as usize,
        )
    };
    let set = set_at(&bytes, root, "BIG.BIN");
    let stream = set + DIR_ENTRY_SIZE;
    let first = u32::from_le_bytes(bytes[stream + 20..stream + 24].try_into().unwrap());
    let clusters = 9_000u32.div_ceil(bytes_per_cluster);
    assert!(clusters > 1, "the file must span more than one cluster");

    bytes[stream + 1] &= !SECONDARY_NO_FAT_CHAIN;
    refresh_set_checksum(&mut bytes, set);
    for n in 0..clusters {
        let entry = fat_at + (first + n) as usize * 4;
        let next = if n + 1 == clusters {
            END_OF_CHAIN
        } else {
            first + n + 1
        };
        bytes[entry..entry + 4].copy_from_slice(&next.to_le_bytes());
    }

    let r = reader(&bytes);
    let node = r.lookup(b"/BIG.BIN").expect("look up");
    assert_eq!(node.storage, Storage::Chain(first));
    assert_eq!(r.read_data(&node).expect("read"), vec![0x5a; 9_000]);
    assert!(r.scan().is_clean(), "{:?}", r.scan().findings());
}

#[test]
fn a_chain_looping_onto_itself_is_told_apart_from_a_cluster_two_streams_share() {
    let mut bytes =
        image_of(TreeBuilder::new().file(b"/BIG.BIN".to_vec(), vec![0x5a; 9_000], meta(0o644)));
    let (root, bytes_per_cluster, fat_at) = {
        let r = reader(&bytes);
        (
            r.layout().first_cluster_of_root,
            r.layout().bytes_per_cluster,
            r.layout().fat_offset as usize * r.layout().bytes_per_sector as usize,
        )
    };
    let set = set_at(&bytes, root, "BIG.BIN");
    let stream = set + DIR_ENTRY_SIZE;
    let first = u32::from_le_bytes(bytes[stream + 20..stream + 24].try_into().unwrap());
    assert_eq!(9_000u32.div_ceil(bytes_per_cluster), 3);

    bytes[stream + 1] &= !SECONDARY_NO_FAT_CHAIN;
    refresh_set_checksum(&mut bytes, set);
    for (cluster, next) in [(first, first + 1), (first + 1, first)] {
        let entry = fat_at + cluster as usize * 4;
        bytes[entry..entry + 4].copy_from_slice(&next.to_le_bytes());
    }

    let r = reader(&bytes);
    let report = r.scan();
    let said = report
        .anomalies()
        .iter()
        .find(|a| a.detail.contains("loops"))
        .unwrap_or_else(|| panic!("no loop finding: {:?}", report.findings()))
        .detail
        .clone();
    assert!(
        said.contains(&format!(
            "the chain from cluster {first} returns to cluster {first}"
        )),
        "{said}"
    );
    assert!(
        said.contains("BIG.BIN"),
        "the owning path rides along: {said}"
    );
    assert!(
        !report
            .anomalies()
            .iter()
            .any(|a| a.detail.contains("more than one stream")),
        "a loop is not a cross-link: {:?}",
        report.findings()
    );
}

#[test]
fn a_consecutive_run_is_read_without_consulting_the_table() {
    let mut bytes =
        image_of(TreeBuilder::new().file(b"/BIG.BIN".to_vec(), vec![0x5a; 9_000], meta(0o644)));
    let (root, fat_at, count) = {
        let r = reader(&bytes);
        (
            r.layout().first_cluster_of_root,
            r.layout().fat_offset as usize * r.layout().bytes_per_sector as usize,
            r.layout().cluster_count,
        )
    };
    let stream = set_at(&bytes, root, "BIG.BIN") + DIR_ENTRY_SIZE;
    let first = u32::from_le_bytes(bytes[stream + 20..stream + 24].try_into().unwrap());
    assert_ne!(bytes[stream + 1] & SECONDARY_NO_FAT_CHAIN, 0);

    for n in 0..4u32 {
        let entry = fat_at + (first + n) as usize * 4;
        bytes[entry..entry + 4].copy_from_slice(&(count - 1).to_le_bytes());
    }
    let r = reader(&bytes);
    let node = r.lookup(b"/BIG.BIN").expect("look up");
    assert_eq!(node.storage, Storage::Contiguous(first));
    assert_eq!(r.read_data(&node).expect("read"), vec![0x5a; 9_000]);
}

#[test]
fn a_written_length_behind_a_declared_one_reads_as_zeros_and_stops_no_strict_read() {
    let mut bytes =
        image_of(TreeBuilder::new().file(b"/F.BIN".to_vec(), vec![0x5a; 300], meta(0o644)));
    let root = reader(&bytes).layout().first_cluster_of_root;
    let set = set_at(&bytes, root, "F.BIN");
    let stream = set + DIR_ENTRY_SIZE;
    bytes[stream + 8..stream + 16].copy_from_slice(&100u64.to_le_bytes());
    refresh_set_checksum(&mut bytes, set);

    let r = reader(&bytes);
    let node = r.lookup(b"/F.BIN").expect("a strict read accepts it");
    assert_eq!(node.data_length, 300);
    assert_eq!(node.valid_data_length, 100);
    let read = r.read_data(&node).expect("read");
    assert_eq!(read.len(), 300);
    assert_eq!(&read[..100], &[0x5a; 100]);
    assert!(
        read[100..].iter().all(|b| *b == 0),
        "the tail reads as zeros"
    );

    let found = scan_of(&bytes)
        .into_iter()
        .find(|f| f.detail.contains("of them written"))
        .expect("the discrepancy is reported");
    assert_eq!(found.severity, Severity::Cosmetic);
}

#[test]
fn a_written_length_past_a_declared_one_is_a_contradiction_and_is_refused() {
    let mut bytes =
        image_of(TreeBuilder::new().file(b"/F.BIN".to_vec(), vec![0x5a; 300], meta(0o644)));
    let root = reader(&bytes).layout().first_cluster_of_root;
    let set = set_at(&bytes, root, "F.BIN");
    let stream = set + DIR_ENTRY_SIZE;
    bytes[stream + 8..stream + 16].copy_from_slice(&4000u64.to_le_bytes());
    refresh_set_checksum(&mut bytes, set);

    let err = root_entries(&bytes).expect_err("a strict read refuses it");
    assert!(matches!(err, ReadError::ValidLengthPastEnd { .. }), "{err:?}");
    let r = lenient(&bytes);
    let node = r.lookup(b"/F.BIN").expect("look up");
    assert_eq!(node.valid_data_length, 300);
    assert_eq!(r.read_data(&node).expect("read").len(), 300);
}

fn stream_at(set: usize) -> usize {
    set + DIR_ENTRY_SIZE
}

fn patch_u64(bytes: &mut [u8], set: usize, at: usize, value: u64) {
    bytes[at..at + 8].copy_from_slice(&value.to_le_bytes());
    refresh_set_checksum(bytes, set);
}

#[test]
fn a_stream_longer_than_the_whole_heap_is_refused_and_its_length_is_held_to_it() {
    let mut bytes =
        image_of(TreeBuilder::new().file(b"/F.BIN".to_vec(), vec![0x5a; 300], meta(0o644)));
    let root = reader(&bytes).layout().first_cluster_of_root;
    let set = set_at(&bytes, root, "F.BIN");
    let stream = stream_at(set);
    patch_u64(&mut bytes, set, stream + 8, 0);
    patch_u64(&mut bytes, set, stream + 24, 8 << 30);

    let err = root_entries(&bytes).expect_err("a strict read refuses it");
    assert!(matches!(err, ReadError::StreamPastHeap { .. }), "{err:?}");

    let heap = reader(&bytes).layout().heap_bytes();
    assert!(heap < 8 << 30, "the fixture is not evidence otherwise");
    let r = lenient(&bytes);
    let node = r.lookup(b"/F.BIN").expect("look up");
    assert_eq!(node.data_length, heap);
    let mut streamed: u64 = 0;
    loop {
        let piece = r.read_next(&node, streamed).expect("stream");
        if piece.is_empty() {
            break;
        }
        streamed += piece.len() as u64;
    }
    assert_eq!(streamed, heap);
}

#[test]
fn a_streamed_read_stops_at_the_cap_a_caller_set() {
    let bytes = image();
    let r = Reader::open_with(
        &bytes[..],
        &OpenOptions::new().limits(Limits::new().max_file_bytes(1024)),
    )
    .expect("open");
    let node = r.lookup(b"/BIG.BIN").expect("look up");
    assert!(matches!(
        r.read_next(&node, 0),
        Err(ReadError::FileTooLarge { size: 9_000, .. })
    ));
}

#[test]
fn a_directory_is_read_to_its_end_marker_and_not_to_its_declared_length() {
    let mut bytes = image();
    let root = reader(&bytes).layout().first_cluster_of_root;
    let set = set_at(&bytes, root, "DCIM");
    let stream = stream_at(set);
    let heap = reader(&bytes).layout().heap_bytes();
    let dcim = reader(&bytes).lookup(b"/DCIM").expect("look up").storage;
    let first = dcim.first_cluster().expect("a directory has an allocation");
    let bytes_per_cluster = u64::from(reader(&bytes).layout().bytes_per_cluster);
    let rest = heap - u64::from(first - FIRST_CLUSTER) * bytes_per_cluster;
    bytes[stream + 1] |= SECONDARY_NO_FAT_CHAIN;
    patch_u64(&mut bytes, set, stream + 8, rest);
    patch_u64(&mut bytes, set, stream + 24, rest);

    assert!(rest <= heap && rest <= MAX_DIRECTORY_BYTES);
    assert!(
        rest / bytes_per_cluster > 1000,
        "the fixture declares {} clusters, which is not evidence of anything",
        rest / bytes_per_cluster
    );
    assert_eq!(
        reader(&bytes)
            .lookup(b"/DCIM")
            .expect("look up")
            .data_length,
        rest
    );

    let unknown = |bytes: &mut Vec<u8>, at: usize| bytes[at] = 0x9F;
    let last = FIRST_CLUSTER + reader(&bytes).layout().cluster_count - 1;
    let dcim_at = cluster_at(&bytes, first);
    let slots = usize::try_from(bytes_per_cluster).expect("a cluster") / DIR_ENTRY_SIZE;
    let marker = dcim_at
        + (0..slots)
            .find(|n| bytes[dcim_at + n * DIR_ENTRY_SIZE] == 0)
            .expect("the end marker")
            * DIR_ENTRY_SIZE;

    let mut control = bytes.clone();
    unknown(&mut control, marker + DIR_ENTRY_SIZE);
    let err = root_entries(&control)
        .map(|_| ())
        .and_then(|()| {
            let r = reader(&control);
            let node = r.lookup(b"/DCIM")?;
            r.read_dir(&node).map(|_| ())
        })
        .expect_err("the probe is met in the cluster the marker sits in");
    assert!(matches!(err, ReadError::EntriesAfterEnd { .. }), "{err:?}");

    let last_at = cluster_at(&bytes, last);
    unknown(&mut bytes, last_at);
    let r = reader(&bytes);
    let node = r.lookup(b"/DCIM").expect("look up");
    let entries = r
        .read_dir(&node)
        .expect("the read stopped at the marker, so the probe was never met");
    assert_eq!(entries.len(), 3, "and it is still the directory it was");
}

#[test]
fn a_directory_longer_than_the_format_allows_one_is_refused() {
    let bytes = image();
    let mut layout = *reader(&bytes).layout();
    layout.cluster_count = 100_000;
    assert!(layout.heap_bytes() > MAX_DIRECTORY_BYTES);

    let mut strict = Deviations::under(ReadPolicy::Strict);
    let err = bound_length(&layout, MAX_DIRECTORY_BYTES + 1, true, 7, &mut strict)
        .expect_err("a strict read refuses it");
    assert!(
        matches!(err, ReadError::DirectoryTooLong { index: 7, .. }),
        "{err:?}"
    );

    let mut lenient = Deviations::under(ReadPolicy::Lenient);
    assert_eq!(
        bound_length(&layout, MAX_DIRECTORY_BYTES + 1, true, 7, &mut lenient)
            .expect("a lenient read carries on"),
        MAX_DIRECTORY_BYTES
    );
    assert_eq!(
        bound_length(&layout, MAX_DIRECTORY_BYTES + 1, false, 7, &mut lenient)
            .expect("a lenient read carries on"),
        MAX_DIRECTORY_BYTES + 1
    );
}

fn a_volume_with_one_file() -> (Vec<u8>, usize, usize) {
    let bytes =
        image_of(TreeBuilder::new().file(b"/F.BIN".to_vec(), vec![0x5a; 300], meta(0o644)));
    let root = reader(&bytes).layout().first_cluster_of_root;
    let set = set_at(&bytes, root, "F.BIN");
    let stream = stream_at(set);
    (bytes, set, stream)
}

#[test]
fn a_stream_recording_a_length_and_no_first_cluster_is_named_where_it_is_read() {
    let (mut bytes, set, stream) = a_volume_with_one_file();
    bytes[stream + 20..stream + 24].copy_from_slice(&0u32.to_le_bytes());
    patch_u64(&mut bytes, set, stream + 8, 9_000);
    patch_u64(&mut bytes, set, stream + 24, 9_000);

    let err = root_entries(&bytes).expect_err("a strict read refuses it");
    assert!(
        matches!(
            err,
            ReadError::StreamWithoutAllocation {
                declared: 9_000,
                ..
            }
        ),
        "{err:?}"
    );
    assert_eq!(err.anomaly().severity, Severity::Malformed);
}

#[test]
fn a_stream_recording_a_first_cluster_and_no_length_is_named_where_it_is_read() {
    let (mut bytes, set, stream) = a_volume_with_one_file();
    patch_u64(&mut bytes, set, stream + 8, 0);
    patch_u64(&mut bytes, set, stream + 24, 0);

    let err = root_entries(&bytes).expect_err("a strict read refuses it");
    assert!(
        matches!(err, ReadError::AllocationWithoutLength { .. }),
        "{err:?}"
    );
    assert_eq!(err.anomaly().severity, Severity::Conformance);
}

#[test]
fn a_directory_whose_length_is_not_whole_clusters_is_named() {
    let mut bytes = image();
    let root = reader(&bytes).layout().first_cluster_of_root;
    let set = set_at(&bytes, root, "DCIM");
    patch_u64(&mut bytes, set, stream_at(set) + 24, 1);

    let err = root_entries(&bytes).expect_err("a strict read refuses it");
    assert!(
        matches!(
            err,
            ReadError::DirectoryLengthNotClusters { declared: 1, .. }
        ),
        "{err:?}"
    );
}

#[test]
fn attribute_bits_the_format_reserves_are_named() {
    let mut bytes = image();
    let root = reader(&bytes).layout().first_cluster_of_root;
    let set = set_at(&bytes, root, "DCIM");
    let attributes = u16::from_le_bytes([bytes[set + 4], bytes[set + 5]]) | 0xF008;
    bytes[set + 4..set + 6].copy_from_slice(&attributes.to_le_bytes());
    refresh_set_checksum(&mut bytes, set);

    let err = root_entries(&bytes).expect_err("a strict read refuses it");
    assert!(
        matches!(err, ReadError::ReservedAttributes { bits: 0xF008, .. }),
        "{err:?}"
    );
    assert_eq!(FileAttributes::DEFINED, 0x0037);
}

#[test]
fn a_stream_with_an_allocation_and_no_allocation_declared_possible_is_named() {
    let mut bytes = image();
    let root = reader(&bytes).layout().first_cluster_of_root;
    let set = set_at(&bytes, root, "DCIM");
    let stream = stream_at(set);
    assert_ne!(
        bytes[stream + 1] & SECONDARY_ALLOCATION_POSSIBLE,
        0,
        "the writer sets it, which is what makes clearing it the case under test"
    );
    bytes[stream + 1] &= !SECONDARY_ALLOCATION_POSSIBLE;
    refresh_set_checksum(&mut bytes, set);

    let err = root_entries(&bytes).expect_err("a strict read refuses it");
    assert!(
        matches!(err, ReadError::AllocationNotPossible { .. }),
        "{err:?}"
    );
}

#[test]
fn a_time_the_encoding_does_not_define_is_named_where_the_entry_is_read() {
    for (offset, field) in [(8usize, "creation time"), (16, "access time")] {
        let mut bytes = image();
        let root = reader(&bytes).layout().first_cluster_of_root;
        let set = set_at(&bytes, root, "DCIM");
        bytes[set + offset..set + offset + 4].copy_from_slice(&0u32.to_le_bytes());
        refresh_set_checksum(&mut bytes, set);
        let err = root_entries(&bytes).expect_err("a strict read refuses it");
        assert!(
            matches!(err, ReadError::MalformedTimestamp { field: f, .. } if f == field),
            "{field}: {err:?}"
        );
    }

    let mut bytes = image();
    let root = reader(&bytes).layout().first_cluster_of_root;
    let set = set_at(&bytes, root, "DCIM");
    bytes[set + 20] = 255;
    refresh_set_checksum(&mut bytes, set);
    let err = root_entries(&bytes).expect_err("a strict read refuses it");
    assert!(
        matches!(
            err,
            ReadError::MalformedTimestamp {
                field: "creation time",
                ..
            }
        ),
        "{err:?}"
    );
}

#[test]
fn a_set_carrying_a_name_entry_its_name_does_not_reach_is_named() {
    let mut bytes = image();
    let root = reader(&bytes).layout().first_cluster_of_root;
    let set = set_at(&bytes, root, "DCIM");
    assert_eq!(bytes[set + 1], 2, "a file entry, a stream and one name");
    bytes[set + 1] = 3;
    let third = set + 3 * DIR_ENTRY_SIZE;
    let mut extra = [0u8; DIR_ENTRY_SIZE];
    FileNameEntry::new(&[0x0041])
        .write_to(&mut extra)
        .expect("write");
    bytes[third..third + DIR_ENTRY_SIZE].copy_from_slice(&extra);
    refresh_set_checksum(&mut bytes, set);

    let err = root_entries(&bytes).expect_err("a strict read refuses it");
    assert!(
        matches!(
            err,
            ReadError::ExcessNameEntries {
                want: 1,
                have: 2,
                ..
            }
        ),
        "{err:?}"
    );
    assert!(
        root_entries_lenient(&bytes)
            .iter()
            .any(|e| e.name == b"DCIM")
    );
}

#[test]
fn a_volume_recording_two_allocation_tables_is_refused_by_name_under_either_policy() {
    let mut bytes = image();
    bytes[110] = 2;
    refresh_boot_checksum(&mut bytes, 0);
    for policy in [ReadPolicy::Strict, ReadPolicy::Lenient] {
        let err = open_err(&bytes, policy);
        assert!(matches!(err, ReadError::TexFat), "{policy:?}: {err:?}");
    }

    for count in [0u8, 3, 255] {
        let mut bytes = image();
        bytes[110] = count;
        refresh_boot_checksum(&mut bytes, 0);
        let err = open_err(&bytes, ReadPolicy::Strict);
        assert!(matches!(err, ReadError::FatCount { .. }), "{count}: {err:?}");
    }
}

#[test]
fn a_volume_whose_root_names_no_bitmap_or_no_table_is_refused_rather_than_read_empty() {
    for entry_type in [EntryType(EntryType::ALLOCATION_BITMAP), EntryType(EntryType::UPCASE_TABLE)] {
        let mut bytes = image();
        let root = reader(&bytes).layout().first_cluster_of_root;
        let at = cluster_at(&bytes, root);
        let slot = (0..8)
            .map(|n| at + n * DIR_ENTRY_SIZE)
            .find(|at| bytes[*at] == entry_type.0)
            .expect("the describing entry");
        bytes[slot] = entry_type.cleared().0;
        for policy in [ReadPolicy::Strict, ReadPolicy::Lenient] {
            let err = open_err(&bytes, policy);
            assert!(
                matches!(err, ReadError::MissingResident { .. }),
                "{entry_type:?} under {policy:?}: {err:?}"
            );
        }
    }
}

#[test]
fn a_slot_whose_in_use_bit_is_clear_is_stepped_over_rather_than_read_as_the_end() {
    let bytes = image();
    let root = reader(&bytes).layout().first_cluster_of_root;
    let at = cluster_at(&bytes, root);
    let guid = at + DIR_ENTRY_SIZE;
    assert_eq!(bytes[guid], EntryType(EntryType::VOLUME_GUID).cleared().0);
    assert!(!EntryType(bytes[guid]).is_end_of_directory());
    assert!(!paths(&bytes).is_empty());
}

#[test]
fn a_damaged_boot_region_checksum_is_named_and_the_main_region_is_still_preferred() {
    let mut bytes = image();
    bytes[64] ^= 0x01;
    let err = open_err(&bytes, ReadPolicy::Strict);
    assert!(
        matches!(err, ReadError::BootChecksumMismatch { sector: 0, .. }),
        "{err:?}"
    );
    let anomaly = err.anomaly();
    assert_eq!(anomaly.severity, Severity::Integrity);
    assert_eq!(anomaly.category, Category::BootRegion);

    let r = lenient(&bytes);
    assert_eq!(r.boot_sector().partition_offset, bytes_u64(&bytes, 64));
}

#[test]
fn a_backup_region_describing_a_different_volume_is_named() {
    let mut bytes = image();
    let sector = reader(&bytes).layout().bytes_per_sector as usize;
    let backup = 12 * sector;
    bytes[backup + 100..backup + 104].copy_from_slice(&0xdead_beefu32.to_le_bytes());
    refresh_boot_checksum(&mut bytes, 12);

    let err = open_err(&bytes, ReadPolicy::Strict);
    assert!(
        matches!(err, ReadError::BackupBootRegionDiffers { .. }),
        "{err:?}"
    );
    assert!(err.message().contains("VolumeSerialNumber"), "{err:?}");
    assert_eq!(err.anomaly().severity, Severity::Conformance);
}

#[test]
fn the_two_fields_a_driver_rewrites_are_not_held_against_the_backup() {
    let mut bytes = image();
    bytes[106] = 0x02;
    bytes[112] = 99;
    let r = lenient(&bytes);
    assert!(r.volume_dirty());
    let report = r.boot_sector().volume_flags;
    assert_eq!(report & 0x0002, 0x0002);
    assert!(
        !scan_of(&bytes)
            .iter()
            .any(|a| a.detail.contains("does not describe the same volume")),
        "a driver's own two fields are not a backup that has drifted",
    );
}

#[test]
fn a_volume_a_driver_left_open_is_a_remark_and_not_a_refusal() {
    let mut bytes = image();
    bytes[106] = 0x02;
    let r = Reader::open(&bytes).expect("a strict read accepts it");
    assert!(r.volume_dirty());
    assert!(!r.media_failure());
    assert!(!r.scan().has_fatal(ReadPolicy::Strict));
    let found = scan_of(&bytes)
        .into_iter()
        .find(|f| f.detail.contains("not cleanly unmounted"))
        .expect("the state is reported");
    assert_eq!(found.severity, Severity::Cosmetic);
    assert!(!found.detail.contains("VolumeFlags"), "{}", found.detail);

    let mut bytes = image();
    bytes[106] = 0x04;
    let r = Reader::open(&bytes).expect("a strict read accepts it");
    assert!(r.media_failure());
}

#[test]
fn a_major_revision_this_reader_does_not_implement_is_refused_and_a_minor_one_is_a_remark() {
    for revision in [0x0200u16, 0xFFFF] {
        let mut bytes = image();
        for region in [0u64, BOOT_REGION_SECTORS] {
            let at = region as usize * 512;
            bytes[at + 104..at + 106].copy_from_slice(&revision.to_le_bytes());
            refresh_boot_checksum(&mut bytes, region);
        }
        for policy in [ReadPolicy::Strict, ReadPolicy::Lenient] {
            let err = open_err(&bytes, policy);
            assert!(
                matches!(err, ReadError::BadBootSector { .. }),
                "{revision:#06x} under {policy:?}: {err:?}"
            );
            assert!(err.message().contains("revision"), "{err:?}");
        }
        assert!(
            claim(&bytes, 0).is_none(),
            "{revision:#06x}"
        );
    }

    let mut bytes = image();
    for region in [0u64, BOOT_REGION_SECTORS] {
        let at = region as usize * 512;
        bytes[at + 104..at + 106].copy_from_slice(&0x0103u16.to_le_bytes());
        refresh_boot_checksum(&mut bytes, region);
    }
    let err = open_err(&bytes, ReadPolicy::Strict);
    assert!(
        matches!(err, ReadError::UnknownMinorRevision { minor: 3 }),
        "{err:?}"
    );
    let found = scan_of(&bytes)
        .into_iter()
        .find(|f| f.detail.contains("minor revision"))
        .expect("the revision is reported");
    assert_eq!(found.severity, Severity::Conformance);
}

#[test]
fn an_extended_boot_sector_missing_its_signature_is_named() {
    for region in [0u64, BOOT_REGION_SECTORS] {
        let mut bytes = image();
        let at = (region as usize + 1) * 512;
        bytes[at + 508..at + 512].copy_from_slice(&0u32.to_le_bytes());
        refresh_boot_checksum(&mut bytes, region);
        let err = open_err(&bytes, ReadPolicy::Strict);
        assert!(
            matches!(
                err,
                ReadError::BadExtendedBootSignature {
                    sector,
                    found: 0,
                    expected: EXTENDED_BOOT_SIGNATURE,
                } if sector == region + 1
            ),
            "region {region}: {err:?}"
        );
    }

    let mut bytes = image();
    for sector in 1..=EXTENDED_BOOT_SECTORS as usize {
        let at = sector * 512;
        bytes[at + 508..at + 512].copy_from_slice(&0u32.to_le_bytes());
    }
    refresh_boot_checksum(&mut bytes, 0);
    let named: Vec<_> = scan_of(&bytes)
        .into_iter()
        .filter(|f| f.detail.contains("extended boot sector"))
        .collect();
    assert_eq!(named.len(), 1, "{named:#?}");
    assert_eq!(named[0].severity, Severity::Conformance);
}

#[test]
fn a_chain_reaching_a_cluster_the_table_marks_bad_is_named_as_that() {
    let mut bytes =
        image_of(TreeBuilder::new().file(b"/F.BIN".to_vec(), vec![0x5a; 9_000], meta(0o644)));
    let root = reader(&bytes).layout().first_cluster_of_root;
    let set = set_at(&bytes, root, "F.BIN");
    let stream = stream_at(set);
    bytes[stream + 1] &= !SECONDARY_NO_FAT_CHAIN;
    refresh_set_checksum(&mut bytes, set);
    let first = u32::from_le_bytes([
        bytes[stream + 20],
        bytes[stream + 21],
        bytes[stream + 22],
        bytes[stream + 23],
    ]);
    let entry = reader(&bytes)
        .layout()
        .fat_entry_byte(first)
        .expect("an entry for the first cluster") as usize;
    bytes[entry..entry + 4].copy_from_slice(&BAD_CLUSTER.to_le_bytes());

    let r = lenient(&bytes);
    let node = r.lookup(b"/F.BIN").expect("look up");
    let err = r
        .read_data(&node)
        .expect_err("the chain runs into the mark");
    assert!(
        matches!(err, ReadError::BadClusterInChain { cluster } if cluster == BAD_CLUSTER),
        "{err:?}"
    );
}

#[test]
fn a_percentage_the_field_cannot_hold_is_a_different_remark_from_a_stale_one() {
    let mut bytes = image();
    bytes[112] = 200;
    let found = scan_of(&bytes)
        .into_iter()
        .find(|f| f.detail.contains("PercentInUse"))
        .expect("the value is reported");
    assert_eq!(found.severity, Severity::Conformance);
    assert!(!found.detail.contains("200%"), "{}", found.detail);

    let mut bytes = image();
    bytes[112] = 99;
    let found = scan_of(&bytes)
        .into_iter()
        .find(|f| f.detail.contains("99% in use"))
        .expect("the staleness is reported");
    assert_eq!(found.severity, Severity::Cosmetic);

    let mut bytes = image();
    bytes[112] = PERCENT_IN_USE_UNKNOWN;
    assert!(
        !scan_of(&bytes)
            .iter()
            .any(|f| f.detail.contains("PercentInUse") || f.detail.contains("in use and")),
        "the format's own value for an unmeasured volume is not a deviation"
    );
}

#[test]
fn an_up_case_table_that_is_not_the_mapping_its_entry_advertises_is_named() {
    let mut bytes = image();
    let table = cluster_at(&bytes, reader(&bytes).layout().upcase_cluster);
    bytes[table + 200] ^= 0xff;
    let err = open_err(&bytes, ReadPolicy::Strict);
    assert!(
        matches!(err, ReadError::UpcaseChecksumMismatch { .. }),
        "{err:?}"
    );
    assert_eq!(err.anomaly().severity, Severity::Integrity);
    assert_eq!(err.anomaly().category, Category::UpcaseTable);
    assert!(lenient(&bytes).upcase().folded_units() > 0);
}

#[test]
fn a_damaged_entry_set_checksum_is_named() {
    let mut bytes = image();
    let root = reader(&bytes).layout().first_cluster_of_root;
    let set = set_at(&bytes, root, "BIG.BIN");
    bytes[set + 4] ^= 0x01;
    let err = root_entries(&bytes).expect_err("a strict read refuses");
    assert!(
        matches!(err, ReadError::SetChecksumMismatch { .. }),
        "{err:?}"
    );
    assert_eq!(err.anomaly().severity, Severity::Integrity);
}

#[test]
fn a_name_hash_no_name_produces_is_named_where_no_checksum_covers_it() {
    let mut bytes = image();
    let root = reader(&bytes).layout().first_cluster_of_root;
    let set = set_at(&bytes, root, "BIG.BIN");
    let stream = set + DIR_ENTRY_SIZE;
    let was = u16::from_le_bytes(bytes[stream + 4..stream + 6].try_into().unwrap());
    bytes[stream + 4..stream + 6].copy_from_slice(&(was ^ 0x0001).to_le_bytes());
    refresh_set_checksum(&mut bytes, set);

    let err = root_entries(&bytes).expect_err("a strict read refuses");
    assert!(matches!(err, ReadError::NameHashMismatch { .. }), "{err:?}");
    assert_eq!(err.anomaly().severity, Severity::Integrity);
}

#[test]
fn a_name_no_directory_can_hold_is_refused_where_the_reader_resolves_it() {
    for name in ["..", ".", "a/b", "a\u{0}b"] {
        let mut bytes = image_of(TreeBuilder::new().file(b"/XX".to_vec(), b"x".to_vec(), meta(0o644)));
        let root = reader(&bytes).layout().first_cluster_of_root;
        let set = set_at(&bytes, root, "XX");
        let stream = set + DIR_ENTRY_SIZE;
        let units: Vec<u16> = name.encode_utf16().collect();
        bytes[stream + 3] = units.len() as u8;
        let hash = name_hash(&UpcaseTable::recommended().fold(&units));
        bytes[stream + 4..stream + 6].copy_from_slice(&hash.to_le_bytes());
        let name_entry = set + 2 * DIR_ENTRY_SIZE;
        bytes[name_entry + 2..name_entry + DIR_ENTRY_SIZE].fill(0);
        for (n, unit) in units.iter().enumerate() {
            let at = name_entry + 2 + n * 2;
            bytes[at..at + 2].copy_from_slice(&unit.to_le_bytes());
        }
        refresh_set_checksum(&mut bytes, set);

        let err = root_entries(&bytes).expect_err("a strict read refuses");
        assert!(
            matches!(err, ReadError::HostileName { .. }),
            "{name:?}: {err:?}"
        );
        assert_eq!(err.anomaly().severity, Severity::Malformed);
        let names = root_entries_lenient(&bytes);
        assert!(names.is_empty(), "{name:?}: the name was handed back");
    }
}

#[test]
fn an_entry_set_that_ends_before_it_said_it_would_is_named() {
    let mut bytes = image_of(TreeBuilder::new().file(b"/XX".to_vec(), b"x".to_vec(), meta(0o644)));
    let root = reader(&bytes).layout().first_cluster_of_root;
    let set = set_at(&bytes, root, "XX");
    bytes[set + 1] += 1;
    refresh_set_checksum(&mut bytes, set);
    let err = root_entries(&bytes).expect_err("a strict read refuses");
    assert!(matches!(err, ReadError::IncompleteEntrySet { .. }), "{err:?}");
    assert_eq!(err.anomaly().severity, Severity::Malformed);
}

#[test]
fn an_entry_continuing_a_set_no_entry_opened_is_named() {
    let mut bytes = image_of(TreeBuilder::new());
    let root = reader(&bytes).layout().first_cluster_of_root;
    let at = cluster_at(&bytes, root);
    let slot = at + 4 * DIR_ENTRY_SIZE;
    bytes[slot] = EntryType::FILE_NAME;
    let err = root_entries(&bytes).expect_err("a strict read refuses");
    assert!(
        matches!(err, ReadError::StraySecondaryEntry { .. }),
        "{err:?}"
    );
}

#[test]
fn an_entry_of_a_critical_type_this_reader_does_not_know_is_named_and_a_benign_one_is_not() {
    let root = {
        let bytes = image_of(TreeBuilder::new());
        reader(&bytes).layout().first_cluster_of_root
    };
    let mut bytes = image_of(TreeBuilder::new());
    let at = cluster_at(&bytes, root);
    bytes[at + 4 * DIR_ENTRY_SIZE] = 0x9F;
    let err = root_entries(&bytes).expect_err("a strict read refuses");
    assert!(
        matches!(err, ReadError::UnknownCriticalEntry { .. }),
        "{err:?}"
    );
    assert_eq!(err.anomaly().severity, Severity::Conformance);

    let mut bytes = image_of(TreeBuilder::new());
    bytes[at + 4 * DIR_ENTRY_SIZE] = 0xBF;
    assert!(
        root_entries(&bytes).is_ok(),
        "a benign entry is carried through rather than refused",
    );
}

#[test]
fn an_entry_after_the_end_marker_is_named_once_and_never_handed_back() {
    let mut bytes = image_of(TreeBuilder::new().file(b"/XX".to_vec(), b"x".to_vec(), meta(0o644)));
    let root = reader(&bytes).layout().first_cluster_of_root;
    let at = cluster_at(&bytes, root);
    let set = set_at(&bytes, root, "XX");
    assert!(set > at);
    bytes[set] = 0;
    let orphan = set + 4 * DIR_ENTRY_SIZE;
    bytes[orphan] = EntryType::VOLUME_GUID;

    let err = root_entries(&bytes).expect_err("a strict read refuses");
    assert!(matches!(err, ReadError::EntriesAfterEnd { .. }), "{err:?}");
    let entries = root_entries_lenient(&bytes);
    assert!(entries.is_empty(), "nothing past the marker is a name");
}

#[test]
fn a_cluster_a_stream_occupies_and_the_bitmap_calls_free_is_named() {
    let mut bytes =
        image_of(TreeBuilder::new().file(b"/F.BIN".to_vec(), vec![0x5a; 300], meta(0o644)));
    let (root, bitmap_cluster) = {
        let r = reader(&bytes);
        (r.layout().first_cluster_of_root, r.layout().bitmap_cluster)
    };
    let stream = set_at(&bytes, root, "F.BIN") + DIR_ENTRY_SIZE;
    let first = u32::from_le_bytes(bytes[stream + 20..stream + 24].try_into().unwrap());
    let bit = (first - FIRST_CLUSTER) as usize;
    let at = cluster_at(&bytes, bitmap_cluster) + bit / 8;
    assert_ne!(bytes[at] & (1 << (bit % 8)), 0, "the bit was set");
    bytes[at] &= !(1 << (bit % 8));

    let found = scan_of(&bytes);
    assert!(
        found
            .iter()
            .any(|a| a.detail.contains("the allocation bitmap says it is free")),
        "{found:#?}"
    );
    let r = lenient(&bytes);
    let node = r.lookup(b"/F.BIN").expect("look up");
    assert_eq!(r.read_data(&node).expect("read").len(), 300);
}

#[test]
fn clusters_the_bitmap_holds_and_nothing_reaches_are_named() {
    let mut bytes = image();
    let bitmap = cluster_at(&bytes, reader(&bytes).layout().bitmap_cluster);
    bytes[bitmap + 40] |= 0b1001;

    let found = scan_of(&bytes);
    let lost = found
        .iter()
        .find(|a| a.detail.contains("reached by nothing"))
        .expect("the clusters are named");
    assert!(lost.detail.contains('2'), "{}", lost.detail);
    assert_eq!(lost.severity, Severity::Conformance);
}

#[test]
fn a_reserved_table_entry_the_format_fixes_is_held_to_it() {
    let mut bytes = image();
    let fat = reader(&bytes).layout().fat_offset as usize
        * reader(&bytes).layout().bytes_per_sector as usize;
    bytes[fat + 4..fat + 8].copy_from_slice(&0u32.to_le_bytes());
    let found = scan_of(&bytes);
    assert!(
        found.iter().any(|a| a.detail.contains("table entry 1")),
        "{found:#?}"
    );
}

#[test]
fn a_clean_volume_scans_clean_at_every_cluster_size_the_writer_reaches() {
    for (bytes_total, cluster) in [
        (32u64 << 20, ClusterSize::Bytes(512)),
        (64 << 20, ClusterSize::Auto),
        (256 << 20, ClusterSize::Bytes(128 << 10)),
    ] {
        let options = FormatOptions::new(7).plan(PlanRequest::new(0).cluster_size(cluster));
        let image = format(tree(), bytes_total, options).expect("format");
        let bytes = image.into_bytes();
        let r = reader(&bytes);
        let report = r.scan();
        assert!(
            report.is_clean(),
            "{bytes_total} at {cluster:?}:\n{:?}",
            report.findings()
        );
        assert_eq!(paths(&bytes).len(), 5);
    }
}

#[test]
fn a_walk_stops_at_the_cap_a_caller_set() {
    let bytes = image();
    let r = Reader::open_with(
        &bytes[..],
        &OpenOptions::new().limits(Limits::new().max_walk_entries(2)),
    )
    .expect("open");
    assert!(matches!(
        r.walk(),
        Err(ReadError::WalkTooLarge { limit: 2 })
    ));
}

#[test]
fn a_whole_file_read_stops_at_the_cap_a_caller_set() {
    let bytes = image();
    let r = Reader::open_with(
        &bytes[..],
        &OpenOptions::new().limits(Limits::new().max_file_bytes(1024)),
    )
    .expect("open");
    let node = r.lookup(b"/BIG.BIN").expect("look up");
    assert!(matches!(
        r.read_data(&node),
        Err(ReadError::FileTooLarge { size: 9_000, .. })
    ));
    let mut buf = [0u8; 16];
    assert_eq!(r.read_into(&node, 0, &mut buf).expect("read"), 16);
}

#[test]
fn a_directory_that_points_at_itself_terminates_a_walk() {
    let mut bytes = image_of(
        TreeBuilder::new()
            .directory(b"/a".to_vec(), meta(0o755))
            .directory(b"/a/b".to_vec(), meta(0o755)),
    );
    let root = reader(&bytes).layout().first_cluster_of_root;
    let a_cluster = {
        let r = reader(&bytes);
        let node = r.lookup(b"/a").expect("look up");
        node.storage.first_cluster().expect("a directory has one")
    };
    let set = set_at(&bytes, a_cluster, "b");
    let stream = set + DIR_ENTRY_SIZE;
    bytes[stream + 20..stream + 24].copy_from_slice(&a_cluster.to_le_bytes());
    refresh_set_checksum(&mut bytes, set);
    assert_ne!(a_cluster, root);

    let names = paths(&bytes);
    assert_eq!(names, vec![b"/a".to_vec(), b"/a/b".to_vec()]);
}

#[test]
fn a_directory_ending_on_the_heaps_last_cluster_is_read_rather_than_refused() {
    let mut bytes = image_of(TreeBuilder::new().directory(b"/d".to_vec(), meta(0o755)));
    let (root, last) = {
        let r = reader(&bytes);
        let layout = r.layout();
        (
            layout.first_cluster_of_root,
            FIRST_CLUSTER + layout.cluster_count - 1,
        )
    };
    let set = set_at(&bytes, root, "d");
    let stream = set + DIR_ENTRY_SIZE;
    bytes[stream + 20..stream + 24].copy_from_slice(&last.to_le_bytes());
    refresh_set_checksum(&mut bytes, set);

    let r = lenient(&bytes);
    let node = r.lookup(b"/d").expect("look the directory up");
    assert_eq!(node.storage, Storage::Contiguous(last));
    assert!(r.read_dir(&node).expect("read the last cluster").is_empty());
}

#[test]
fn a_directory_whose_chain_repeats_a_cluster_is_refused_rather_than_followed() {
    let mut bytes = image();
    let (root, fat) = {
        let r = reader(&bytes);
        (
            r.layout().first_cluster_of_root,
            r.layout().fat_offset as usize * r.layout().bytes_per_sector as usize,
        )
    };
    let entry = fat + root as usize * 4;
    bytes[entry..entry + 4].copy_from_slice(&root.to_le_bytes());
    let err = open_err(&bytes, ReadPolicy::Strict);
    assert!(matches!(err, ReadError::ChainTooLong { .. }), "{err:?}");
}

#[test]
fn a_reader_never_panics_on_mangled_images() {
    let image = image();

    fn drive(bytes: &[u8]) {
        if let Ok(r) = Reader::open(bytes) {
            let _ = r.volume_label();
            if let Ok(entries) = r.walk() {
                for e in &entries {
                    let _ = r.read_data(&e.node);
                }
                for e in &entries {
                    let _ = r.lookup(&e.path);
                }
            }
        }
        if let Ok(r) = Reader::open_with(
            bytes,
            &OpenOptions::new().policy(ReadPolicy::Lenient),
        ) {
            let report = r.scan();
            let _ = report.findings();
            let _ = r.walk();
        }
        if let Ok(r) = Reader::open_with(
            bytes,
            &OpenOptions::new().base(512).policy(ReadPolicy::Lenient),
        ) {
            let _ = r.scan();
        }
    }

    drive(&image);

    for (off, len, fill) in [
        (72usize, 8usize, 0xffu8),
        (80, 4, 0xff),
        (84, 4, 0xff),
        (88, 4, 0xff),
        (92, 4, 0xff),
        (96, 4, 0xff),
        (108, 1, 0x00),
        (108, 1, 0xff),
        (109, 1, 0xff),
        (110, 1, 0x00),
    ] {
        let mut mangled = image.clone();
        mangled[off..off + len].fill(fill);
        drive(&mangled);
    }

    for len in [0usize, 1, 511, 512, 513, 4096, 6144, 65_536, 1 << 20] {
        drive(&image[..len.min(image.len())]);
    }

    let mut flip = image.clone();
    let span = flip.len().min(1 << 20);
    let mut i = 0usize;
    while i < span {
        let orig = flip[i];
        flip[i] ^= 0xff;
        drive(&flip);
        flip[i] = orig;
        i += 4093;
    }

    drive(&vec![0x00u8; 1 << 16]);
    drive(&vec![0xffu8; 1 << 16]);
    let ramp: Vec<u8> = (0..1u32 << 16).map(|k| (k % 256) as u8).collect();
    drive(&ramp);
}

#[test]
fn the_extraction_surface_answers_for_every_node_a_walk_reaches() {
    let bytes = image();
    let r = reader(&bytes);
    let synthesis = Synthesis::new();
    let mut seen = Vec::new();
    for entry in r.walk_tree().expect("walk") {
        let attrs = r.stat(&entry.node, &synthesis);
        assert!(attrs.synthesized.contains(&Property::Ownership));
        assert!(attrs.synthesized.contains(&Property::Permissions));
        assert!(attrs.xattrs.is_empty());
        assert_eq!(entry.shared, None);
        seen.push((entry.path.clone(), entry.kind));
    }
    assert_eq!(seen[0].0, Vec::<u8>::new(), "the root comes first");
    assert_eq!(seen.len(), 6);
    assert!(matches!(seen[1].1, NodeKind::File { size: 9_000 }));

    let root = r.root();
    assert!(matches!(
        r.link_target(&root),
        Err(TreeError::Malformed { .. })
    ));
}

#[test]
fn a_read_only_file_comes_back_with_its_write_bits_cleared() {
    let bytes = image();
    let r = reader(&bytes);
    let node = r
        .lookup(b"/DCIM/A name long enough to need two entries.txt")
        .expect("look up");
    let attrs = r.stat(&node, &Synthesis::new());
    assert_eq!(attrs.meta.mode & 0o222, 0);
}

#[test]
fn every_read_error_answers_with_an_anomaly_that_says_where_it_was() {
    let all = [
        ReadError::Io {
            kind: IoKind::UnexpectedEof,
            message: "x",
        },
        ReadError::Parse(ParseError::TooShort {
            structure: "x",
            need: 1,
            got: 0,
        }),
        ReadError::BadBootSector {
            detail: BootDefect::SectorShift { shift: 13 },
        },
        ReadError::TexFat,
        ReadError::FatCount { count: 3 },
        ReadError::BootChecksumMismatch {
            sector: 0,
            computed: 1,
            stored: 2,
        },
        ReadError::BootChecksumSectorSplit { sector: 12 },
        ReadError::BackupBootRegionDiffers {
            sector: 12,
            detail: BackupDetail::Field("x"),
        },
        ReadError::UnknownMinorRevision { minor: 3 },
        ReadError::BadExtendedBootSignature {
            sector: 1,
            found: 0,
            expected: EXTENDED_BOOT_SIGNATURE,
        },
        ReadError::ClusterOutOfRange { cluster: 9 },
        ReadError::BadChainEntry {
            cluster: 9,
            entry: 0,
        },
        ReadError::BadClusterInChain {
            cluster: BAD_CLUSTER,
        },
        ReadError::ChainTooLong {
            start: 2,
            clusters: 4,
        },
        ReadError::StreamTooShort {
            start: 2,
            declared: 8,
            held: 4,
        },
        ReadError::BadReservedEntry {
            index: 1,
            found: 0,
            expected: 1,
        },
        ReadError::MissingResident { resident: "x" },
        ReadError::UpcaseChecksumMismatch {
            computed: 1,
            stored: 2,
        },
        ReadError::UpcaseTooLong {
            bytes: 1 << 40,
            limit: MAX_UPCASE_BYTES,
        },
        ReadError::BitmapWrongSize {
            bytes: 1,
            clusters: 2,
        },
        ReadError::SetChecksumMismatch {
            index: 0,
            computed: 1,
            stored: 2,
        },
        ReadError::IncompleteEntrySet {
            index: 0,
            detail: SetDetail::NoStream,
        },
        ReadError::StraySecondaryEntry { index: 0 },
        ReadError::UnknownCriticalEntry {
            index: 0,
            entry_type: 0x9F,
        },
        ReadError::IllFormedName { index: 0 },
        ReadError::NameHashMismatch {
            index: 0,
            computed: 1,
            stored: 2,
        },
        ReadError::HostileName { index: 0 },
        ReadError::ExcessNameEntries {
            want: 1,
            have: 2,
            index: 0,
        },
        ReadError::MisplacedRootEntry {
            index: 0,
            entry_type: "x",
        },
        ReadError::DuplicateRootEntry {
            index: 0,
            entry_type: "x",
        },
        ReadError::LabelTooLong {
            count: 200,
            limit: MAX_LABEL_UNITS,
        },
        ReadError::LabelNulUnit,
        ReadError::EntriesAfterEnd { index: 0 },
        ReadError::DirectoryWithoutAllocation { index: 0 },
        ReadError::StreamWithoutAllocation {
            index: 0,
            declared: 9_000,
        },
        ReadError::AllocationWithoutLength {
            index: 0,
            first_cluster: 5,
        },
        ReadError::StreamPastHeap {
            declared: 1 << 40,
            limit: 1 << 20,
        },
        ReadError::DirectoryTooLong {
            index: 0,
            declared: 1 << 30,
            limit: MAX_DIRECTORY_BYTES,
        },
        ReadError::DirectoryLengthNotClusters {
            index: 0,
            declared: 1,
            bytes_per_cluster: 4096,
        },
        ReadError::ReservedAttributes {
            index: 0,
            bits: 0xF008,
        },
        ReadError::AllocationNotPossible { index: 0 },
        ReadError::MalformedTimestamp {
            index: 0,
            field: "creation time",
        },
        ReadError::ValidLengthPastEnd {
            valid: 2,
            declared: 1,
        },
        ReadError::ValidLengthTrails {
            valid: 1,
            declared: 2,
        },
        ReadError::ClusterNotAllocated { cluster: 2 },
        ReadError::LostClusters { count: 1, first: 2 },
        ReadError::CrossLinkedCluster { cluster: 2 },
        ReadError::PercentInUseOutOfRange { stated: 200 },
        ReadError::PercentInUseStale {
            stated: 4,
            in_use: 10,
            clusters: 15_872,
            actual: 0,
        },
        ReadError::VolumeDirty,
        ReadError::MediaFailure,
        ReadError::NotFound {
            path: b"/x".to_vec(),
        },
        ReadError::NotADirectory {
            path: b"/x".to_vec(),
        },
        ReadError::FileTooLarge { size: 2, limit: 1 },
        ReadError::PathTooLong { limit: MAX_PATH },
        ReadError::WalkTooLarge { limit: 1 },
    ];
    for err in all {
        let anomaly = err.anomaly();
        assert!(!anomaly.detail.is_empty(), "{err:?}");
        let finding = anomaly.to_finding(512);
        assert_eq!(finding.family, Family::ExFat);
        assert_eq!(finding.category, anomaly.category.as_str());
    }
}

#[test]
fn every_category_names_itself() {
    for category in [
        Category::BootRegion,
        Category::AllocationTable,
        Category::AllocationBitmap,
        Category::UpcaseTable,
        Category::Directory,
    ] {
        assert!(!category.as_str().is_empty());
    }
}

fn bytes_u64(bytes: &[u8], at: usize) -> u64 {
    u64::from_le_bytes(bytes[at..at + 8].try_into().expect("eight bytes"))
}

#[test]
fn the_recommended_table_is_what_a_volume_this_crate_wrote_folds_through() {
    let bytes = image();
    let r = reader(&bytes);
    let recommended = UpcaseTable::recommended();
    assert_eq!(r.upcase().folded_units(), recommended.folded_units());
    for unit in [b'a' as u16, 0x00E9, 0x03B1, 0x0430, 0x00DF] {
        assert_eq!(r.upcase().fold_unit(unit), recommended.fold_unit(unit));
    }
    assert_eq!(recommended_table().len(), 2918);
    assert_eq!(BOOT_CHECKSUM_SKIPS.len(), 3);
}
