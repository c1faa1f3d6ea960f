//! What holds of the library as a whole, on volumes of a few files.
use exfat::boot::MainBootSector;
use exfat::csum::{boot_checksum, entry_set_checksum, upcase_checksum};
use exfat::detect::{claim, classify};
use exfat::fidelity::{AcceptedLoss, Direction, Property};
use exfat::finding::{Anomaly, Category, Location, Severity};
use exfat::geometry::{plan_layout, ClusterSize, GeometryError, PlanRequest};
use exfat::label::{label_text, LabelError, VolumeLabel};
use exfat::materialize::{FormatError, Image};
use exfat::model::ModelError;
use exfat::name::{place, NameError};
use exfat::node::Node;
use exfat::options::FormatOptions;
use exfat::policy::{Limits, OpenOptions, ReadPolicy};
use exfat::read_error::ReadError;
use exfat::reader::Reader;
use exfat::recover::{layout_from_boot, BootDefect};
use exfat::source::{EntryKind, Metadata, SourceEntry, TreeBuilder, Xattr};
use exfat::time::{DosTimestamp, Timestamp};
use exfat::unicode::spell;
use exfat::upcase::UpcaseTable;
use exfat::volume::Storage;

const VOLUME: u64 = 16 << 20;

const TIME: Timestamp = Timestamp {
    secs: 1_426_325_212,
    nanos: 0,
};

fn meta(mode: u16) -> Metadata {
    Metadata::new(mode, TIME)
}

fn options() -> FormatOptions {
    FormatOptions::new(0x1234_5678)
        .plan(PlanRequest::new(0).cluster_size(ClusterSize::Bytes(4096)))
}

fn make(
    source: Vec<SourceEntry>,
    volume_bytes: u64,
    options: FormatOptions,
) -> Result<Image, FormatError> {
    exfat::materialize::format(source, volume_bytes, options)
}

fn volume_of(source: Vec<SourceEntry>, options: FormatOptions) -> Vec<u8> {
    make(source, VOLUME, options).expect("format").into_bytes()
}

fn tree() -> TreeBuilder {
    TreeBuilder::new()
        .directory(b"/a".to_vec(), meta(0o755))
        .directory(b"/a/b".to_vec(), meta(0o755))
        .directory(b"/empty".to_vec(), meta(0o755))
        .file(b"/a/b/deep.txt".to_vec(), b"deep".to_vec(), meta(0o644))
        .file(b"/a/none".to_vec(), Vec::new(), meta(0o644))
        .file(
            b"/long.bin".to_vec(),
            (0..10_000u32).map(|n| n as u8).collect(),
            meta(0o444),
        )
}

#[test]
fn everything_a_source_holds_reads_back() {
    let bytes = volume_of(tree().into_entries(), options());
    let reader = Reader::open(&bytes).expect("open");
    for entry in tree().into_entries() {
        let node = reader.lookup(&entry.path).expect("lookup");
        assert_eq!(node.is_dir(), entry.kind == EntryKind::Directory);
        if let EntryKind::File(content) = &entry.kind {
            assert_eq!(&reader.read_data(&node).expect("read"), content);
        }
        let times = node.times.expect("times");
        assert_eq!(times.modify, TIME);
        assert_eq!(times.create, TIME);
        assert_eq!(times.access, TIME);
    }
}

#[test]
fn a_walk_gives_every_path_once_and_nothing_else() {
    let bytes = volume_of(tree().into_entries(), options());
    let reader = Reader::open(&bytes).expect("open");
    let paths: Vec<Vec<u8>> = reader
        .walk()
        .expect("walk")
        .into_iter()
        .map(|entry| entry.path)
        .collect();
    assert_eq!(
        paths,
        vec![
            b"/a".to_vec(),
            b"/a/b".to_vec(),
            b"/a/b/deep.txt".to_vec(),
            b"/a/none".to_vec(),
            b"/empty".to_vec(),
            b"/long.bin".to_vec(),
        ]
    );
}

#[test]
fn a_formatted_volume_has_nothing_wrong_with_it() {
    let bytes = volume_of(tree().into_entries(), options());
    for most in [0, 1, 100] {
        let limits = Limits::new().max_findings(most);
        let reader =
            Reader::open_with(&bytes, &OpenOptions::new().limits(limits)).expect("open");
        let report = reader.scan();
        assert!(report.is_clean());
        assert!(!report.truncated());
    }
}

#[test]
fn a_check_keeps_no_more_findings_than_it_takes_on() {
    let mut bytes = volume_of(tree().into_entries(), options());
    let layout = *Reader::open(&bytes).expect("open").layout();
    // Every cluster of the bitmap that is in use is called free.
    let at = layout
        .cluster_start_byte(layout.bitmap_cluster)
        .expect("the bitmap") as usize;
    bytes[at] = 0;
    bytes[at + 1] = 0;
    let all = Reader::open(&bytes).expect("open").scan();
    assert!(all.anomalies().len() > 2);
    assert!(!all.truncated());
    for most in 0..all.anomalies().len() {
        let limits = Limits::new().max_findings(most);
        let options = OpenOptions::new().limits(limits);
        let report = Reader::open_with(&bytes, &options).expect("open").scan();
        assert!(report.anomalies().len() <= most);
        assert!(!report.truncated() || report.anomalies().len() == most);
    }
}

#[test]
fn the_order_a_source_comes_in_does_not_matter() {
    let forward = tree().into_entries();
    let mut backward = tree().into_entries();
    backward.reverse();
    assert_eq!(volume_of(forward, options()), volume_of(backward, options()));
}

#[test]
fn what_a_source_says_of_the_root_is_ignored() {
    let mut other = meta(0o700);
    other.uid = 7;
    other.gid = 9;
    other.mtime = Timestamp {
        secs: 1,
        nanos: 999,
    };
    let with_root = tree().directory(b"/".to_vec(), other).into_entries();
    let plain = tree().directory(b"/".to_vec(), meta(0o755)).into_entries();
    assert_eq!(volume_of(with_root, options()), volume_of(plain, options()));
}

#[test]
fn a_second_name_of_a_file_reads_back_as_a_copy() {
    let source = tree()
        .hardlink(b"/again".to_vec(), b"/a/b/deep.txt".to_vec(), meta(0o644))
        .hardlink(b"/more".to_vec(), b"/again".to_vec(), meta(0o644))
        .into_entries();
    let accepted = AcceptedLoss::none().and(Property::Kind);
    let image = make(source, VOLUME, options().accepted_loss(accepted)).expect("format");
    assert_eq!(image.fidelity().count(Direction::Dropped, Property::Kind), 2);
    let reader = Reader::open(image.as_bytes()).expect("open");
    let first = reader.lookup(b"/again").expect("lookup");
    let second = reader.lookup(b"/more").expect("lookup");
    assert_ne!(first.storage, second.storage);
    assert_eq!(reader.read_data(&first).expect("read"), b"deep");
    assert_eq!(reader.read_data(&second).expect("read"), b"deep");
}

#[test]
fn hard_links_that_lead_nowhere_are_refused() {
    let accepted = AcceptedLoss::none().and(Property::Kind);
    let refused = |source: TreeBuilder| match make(
        source.into_entries(),
        VOLUME,
        options().accepted_loss(accepted),
    ) {
        Err(FormatError::Model(e)) => e,
        other => panic!("{:?}", other.map(|_| ())),
    };
    assert_eq!(
        refused(TreeBuilder::new().hardlink(b"/x".to_vec(), b"/y".to_vec(), meta(0o644))),
        ModelError::HardlinkTargetMissing {
            path: b"/x".to_vec(),
            target: b"/y".to_vec()
        }
    );
    assert_eq!(
        refused(tree().hardlink(b"/x".to_vec(), b"/a".to_vec(), meta(0o644))),
        ModelError::HardlinkTargetIsDirectory {
            path: b"/x".to_vec(),
            target: b"/a".to_vec()
        }
    );
    assert_eq!(
        refused(
            TreeBuilder::new()
                .hardlink(b"/x".to_vec(), b"/y".to_vec(), meta(0o644))
                .hardlink(b"/y".to_vec(), b"/x".to_vec(), meta(0o644))
        ),
        ModelError::HardlinkCycle {
            path: b"/x".to_vec()
        }
    );
}

#[test]
fn what_the_format_has_no_entry_for_is_left_out() {
    let source = || {
        tree()
            .symlink(b"/link".to_vec(), b"/long.bin".to_vec(), meta(0o777))
            .into_entries()
    };
    let refused = match make(source(), VOLUME, options()) {
        Err(e) => e,
        Ok(_) => panic!("a symbolic link was taken"),
    };
    assert_eq!(
        refused,
        FormatError::Model(ModelError::LossNotAccepted {
            path: b"/link".to_vec(),
            property: Property::Kind
        })
    );
    let accepted = AcceptedLoss::none().and(Property::Kind);
    let image = make(source(), VOLUME, options().accepted_loss(accepted)).expect("format");
    assert_eq!(image.fidelity().count(Direction::Dropped, Property::Kind), 1);
    let plain = volume_of(tree().into_entries(), options());
    assert_eq!(image.as_bytes(), &plain[..]);
}

#[test]
fn bytes_of_a_file_are_read_from_anywhere_in_it() {
    let bytes = volume_of(tree().into_entries(), options());
    let reader = Reader::open(&bytes).expect("open");
    let node = reader.lookup(b"/long.bin").expect("lookup");
    let whole = reader.read_data(&node).expect("read");
    for (offset, room, want) in [(0u64, 5usize, 5usize), (4090, 20, 20), (9_995, 20, 5), (10_000, 7, 0)] {
        let mut buf = vec![0xEEu8; room];
        assert_eq!(reader.read_bytes(&node, offset, &mut buf), Ok(want));
        let from = offset as usize;
        assert_eq!(buf[..want], whole[from..from + want]);
        assert!(buf[want..].iter().all(|b| *b == 0xEE));
    }
}

#[test]
fn only_accepted_losses_are_recorded() {
    let mut owned = meta(0o600);
    owned.uid = 1000;
    owned.mtime.nanos = 5;
    let source = || {
        TreeBuilder::new()
            .file(b"/f".to_vec(), b"x".to_vec(), owned)
            .into_entries()
    };
    let refusal = |accepted: AcceptedLoss| {
        match make(source(), VOLUME, options().accepted_loss(accepted)) {
            Err(FormatError::Model(e)) => e,
            other => panic!("{:?}", other.map(|_| ())),
        }
    };
    assert_eq!(
        refusal(AcceptedLoss::none()),
        ModelError::LossNotAccepted {
            path: b"/f".to_vec(),
            property: Property::Ownership
        }
    );
    assert_eq!(
        refusal(AcceptedLoss::none().and(Property::Ownership)),
        ModelError::LossNotAccepted {
            path: b"/f".to_vec(),
            property: Property::Permissions
        }
    );
    let accepted = AcceptedLoss::none()
        .and(Property::Ownership)
        .and(Property::Permissions);
    let image = make(source(), VOLUME, options().accepted_loss(accepted)).expect("format");
    let lost: Vec<Property> = image
        .fidelity()
        .records()
        .iter()
        .map(|loss| loss.property)
        .collect();
    assert_eq!(
        lost,
        vec![
            Property::TimePrecision,
            Property::Ownership,
            Property::Permissions
        ]
    );
    let faithful = make(tree().into_entries(), VOLUME, options()).expect("format");
    assert!(faithful.fidelity().is_faithful());
}

#[test]
fn a_name_is_found_however_it_is_spelled() {
    let source = TreeBuilder::new()
        .file("/Grüße.TXT".as_bytes().to_vec(), b"hi".to_vec(), meta(0o644))
        .into_entries();
    let bytes = volume_of(source, options());
    let reader = Reader::open(&bytes).expect("open");
    let exact = reader.lookup("/Grüße.TXT".as_bytes()).expect("lookup");
    assert_eq!(
        reader.lookup("/gRÜßE.txt".as_bytes()).expect("lookup"),
        exact
    );
    assert_eq!(
        reader.lookup("/Grüsse.txt".as_bytes()),
        Err(ReadError::NotFound {
            path: "/Grüsse.txt".as_bytes().to_vec()
        })
    );
}

#[test]
fn what_was_not_written_of_a_file_reads_as_zeros() {
    let bytes = volume_of(tree().into_entries(), options());
    let reader = Reader::open(&bytes).expect("open");
    let node = reader.lookup(b"/long.bin").expect("lookup");
    let short = Node {
        valid_data_length: 5000,
        ..node
    };
    let whole = reader.read_data(&node).expect("read");
    let read = reader.read_data(&short).expect("read");
    assert_eq!(read.len(), whole.len());
    assert_eq!(read[..5000], whole[..5000]);
    assert!(read[5000..].iter().all(|b| *b == 0));
}

#[test]
fn both_run_shapes_hold_the_same() {
    let mut bytes = volume_of(tree().into_entries(), options());
    let (node, entries) = {
        let reader = Reader::open(&bytes).expect("open");
        let node = reader.lookup(b"/long.bin").expect("lookup");
        let first = node.storage.first_cluster().expect("a cluster");
        let entries: Vec<usize> = (first..first + 3)
            .map(|n| reader.layout().fat_entry_byte(n).expect("an entry") as usize)
            .collect();
        (node, entries)
    };
    let first = node.storage.first_cluster().expect("a cluster");
    bytes[entries[0]..entries[0] + 4].copy_from_slice(&(first + 1).to_le_bytes());
    bytes[entries[1]..entries[1] + 4].copy_from_slice(&(first + 2).to_le_bytes());
    bytes[entries[2]..entries[2] + 4].copy_from_slice(&0xFFFF_FFFFu32.to_le_bytes());
    let reader = Reader::open(&bytes).expect("open");
    let chained = Node {
        storage: Storage::Chain(first),
        ..node
    };
    assert_eq!(node.storage, Storage::Contiguous(first));
    assert_eq!(
        reader.read_data(&chained).expect("read"),
        reader.read_data(&node).expect("read")
    );
}

#[test]
fn a_file_read_in_pieces_is_the_file_read_whole() {
    let bytes = volume_of(tree().into_entries(), options());
    let reader = Reader::open(&bytes).expect("open");
    let node = reader.lookup(b"/long.bin").expect("lookup");
    let mut pieces = Vec::new();
    let mut read = Vec::new();
    loop {
        let piece = reader.read_next(&node, read.len() as u64).expect("read");
        if piece.is_empty() {
            break;
        }
        pieces.push(piece.len());
        read.extend(piece);
    }
    assert_eq!(pieces, vec![4096, 4096, 1808]);
    assert_eq!(read, reader.read_data(&node).expect("read"));
    let root = reader.root();
    assert_eq!(reader.read_next(&root, 0).expect("read"), Vec::<u8>::new());
    assert_eq!(reader.whole_file_len(&node), Ok(10_000));
    let limits = Limits::new().max_file_bytes(9_999);
    let small = Reader::open_with(&bytes, &OpenOptions::new().limits(limits)).expect("open");
    let too_large = ReadError::FileTooLarge {
        size: 10_000,
        limit: 9_999,
    };
    assert_eq!(small.whole_file_len(&node), Err(too_large.clone()));
    assert_eq!(small.read_next(&node, 0), Err(too_large));
}

#[test]
fn what_is_claimed_opens_and_what_opens_is_claimed() {
    let bytes = volume_of(tree().into_entries(), options());
    assert!(claim(&bytes, 0).is_some());
    let layout = classify(&bytes[..512], bytes.len() as u64).expect("classified");
    let opened = *Reader::open(&bytes).expect("open").layout();
    assert_eq!(layout.cluster_count, opened.cluster_count);
    assert_eq!(layout.cluster_heap_offset, opened.cluster_heap_offset);

    let mut broken = bytes.clone();
    broken[11] = 1;
    assert!(claim(&broken, 0).is_none());
    assert!(matches!(Reader::open(&broken), Err(ReadError::Parse(_))));

    let mut shifted = vec![0xA5; 700];
    shifted.extend_from_slice(&bytes);
    assert!(claim(&shifted, 700).is_some());
    let reader =
        Reader::open_with(&shifted, &OpenOptions::new().base(700)).expect("open at a base");
    let node = reader.lookup(b"/a/b/deep.txt").expect("lookup");
    assert_eq!(reader.read_data(&node).expect("read"), b"deep");
}

#[test]
fn two_tables_are_refused_however_the_volume_is_opened() {
    let mut bytes = volume_of(tree().into_entries(), options());
    bytes[110] = 2;
    for policy in [ReadPolicy::Strict, ReadPolicy::Lenient] {
        let refused = Reader::open_with(&bytes, &OpenOptions::new().policy(policy)).map(|_| ());
        assert_eq!(refused, Err(ReadError::TexFat));
    }
}

#[test]
fn what_strict_reads_lenient_reads_too() {
    let bytes = volume_of(tree().into_entries(), options());
    let strict = Reader::open(&bytes).expect("open");
    let lenient = Reader::open_with(&bytes, &OpenOptions::new().policy(ReadPolicy::Lenient))
        .expect("open");
    assert_eq!(
        strict.read_dir(&strict.root()).expect("read"),
        lenient.read_dir(&lenient.root()).expect("read")
    );
    assert_eq!(strict.walk().expect("walk"), lenient.walk().expect("walk"));
}

#[test]
fn a_boot_sector_is_read_back_as_it_was_written() {
    let bytes = volume_of(tree().into_entries(), options());
    let boot = MainBootSector::read_from(&bytes[..512]).expect("read");
    let mut again = vec![0xFFu8; 512];
    boot.write_to(&mut again).expect("write");
    assert_eq!(again, bytes[..512]);
    let layout = layout_from_boot(&boot, VOLUME).expect("layout");
    let request = PlanRequest::new(VOLUME).cluster_size(ClusterSize::Bytes(4096));
    let planned = plan_layout(&request).expect("plan");
    assert_eq!(layout.fat_offset, planned.fat_offset);
    assert_eq!(layout.fat_length, planned.fat_length);
    assert_eq!(layout.cluster_heap_offset, planned.cluster_heap_offset);
    assert_eq!(layout.cluster_count, planned.cluster_count);

    let mut old = boot;
    old.file_system_revision = 0x0205;
    assert_eq!(
        layout_from_boot(&old, VOLUME),
        Err(BootDefect::FileSystemRevision { major: 2, minor: 5 })
    );
    assert_eq!(
        layout_from_boot(&old, VOLUME)
            .expect_err("a defect")
            .message(),
        "a volume of revision 2.5 is not one this reads; the format defines 1"
    );
}

#[test]
fn a_table_has_an_entry_for_every_cluster() {
    for bytes in [8u64 << 20, 33 << 20, (1 << 30) + 12345, 200 << 30] {
        let layout = plan_layout(&PlanRequest::new(bytes)).expect("plan");
        let table = u64::from(layout.fat_length) * u64::from(layout.bytes_per_sector);
        assert!(table >= 4 * (2 + u64::from(layout.cluster_count)));
        let heap = u64::from(layout.cluster_heap_offset) * u64::from(layout.bytes_per_sector);
        assert!(heap + layout.heap_bytes() <= bytes);
    }
}

#[test]
fn more_clusters_than_a_number_addresses_are_refused() {
    let request = PlanRequest::new(1 << 42).cluster_size(ClusterSize::Bytes(512));
    let refused = plan_layout(&request).expect_err("too many");
    assert!(matches!(
        refused,
        GeometryError::TooManyClusters {
            limit: 0xFFFF_FFF5,
            ..
        }
    ));
}

#[test]
fn a_changed_byte_changes_a_checksum() {
    let base: Vec<u8> = (0..96u8).collect();
    for at in [0usize, 1, 5, 40, 95] {
        let mut other = base.clone();
        other[at] ^= 0x10;
        assert_ne!(upcase_checksum(&base), upcase_checksum(&other));
        assert_ne!(entry_set_checksum(&base), entry_set_checksum(&other));
    }
    for at in [2usize, 3] {
        let mut other = base.clone();
        other[at] ^= 0x10;
        assert_eq!(entry_set_checksum(&base), entry_set_checksum(&other));
    }
    let region = vec![7u8; 12 * 512];
    for at in [106usize, 107, 112] {
        let mut other = region.clone();
        other[at] ^= 1;
        assert_eq!(boot_checksum(&region), boot_checksum(&other));
    }
    let mut other = region.clone();
    other[111] ^= 1;
    assert_ne!(boot_checksum(&region), boot_checksum(&other));
}

#[test]
fn a_time_is_read_back_to_the_precision_it_is_kept_at() {
    let stamp = DosTimestamp::encode(Timestamp {
        secs: 1_426_325_213,
        nanos: 987_654_321,
    })
    .expect("in range");
    assert_eq!(
        stamp.decode(),
        Timestamp {
            secs: 1_426_325_213,
            nanos: 980_000_000
        }
    );
    assert!(DosTimestamp::encode(Timestamp { secs: 0, nanos: 0 }).is_none());
}

#[test]
fn a_volume_has_the_name_it_was_given() {
    let label = VolumeLabel::new("Straße 1").expect("a label");
    let bytes = volume_of(Vec::new(), options().label(label));
    let reader = Reader::open(&bytes).expect("open");
    assert_eq!(reader.volume_label(), Some("Straße 1".as_bytes()));
    let unnamed = volume_of(Vec::new(), options());
    assert_eq!(Reader::open(&unnamed).expect("open").volume_label(), None);
    assert_eq!(
        VolumeLabel::new("a\0b").expect_err("a nul").message(),
        "a volume label may not contain U+0000, and this one does at unit 1"
    );
    assert!(matches!(
        VolumeLabel::new("twelve units"),
        Err(LabelError::TooLong {
            units: 12,
            limit: 11
        })
    ));
}

#[test]
fn an_error_says_what_it_is_about() {
    let source = TreeBuilder::new()
        .file(b"/bad\xFFname".to_vec(), Vec::new(), meta(0o644))
        .into_entries();
    let refused = match make(source, VOLUME, options()) {
        Err(e) => e,
        Ok(_) => panic!("a name that is not text was taken"),
    };
    assert_eq!(
        refused,
        FormatError::Model(ModelError::Name {
            path: b"/bad\xFFname".to_vec(),
            source: NameError::NotUtf8
        })
    );
    let said = refused.message();
    assert!(said.ends_with(
        ": the name is not valid UTF-8, so it has no UTF-16 form a name entry holds"
    ));
    assert!(said.starts_with("/bad"));
}

#[test]
fn a_character_no_name_has_is_named_so_that_it_shows() {
    for (byte, shown) in [
        (0u8, "'\\0'"),
        (1, "'\\u{1}'"),
        (9, "'\\t'"),
        (10, "'\\n'"),
        (13, "'\\r'"),
        (0x0F, "'\\u{f}'"),
        (0x1F, "'\\u{1f}'"),
        (b'"', "'\"'"),
        (b'\\', "'\\\\'"),
        (b'|', "'|'"),
    ] {
        let ch = char::from(byte);
        assert_eq!(shown, format!("{ch:?}"));
        let name = [b'a', byte, b'b'];
        let refused = place(&name, &UpcaseTable::recommended()).expect_err("refused");
        assert_eq!(refused, NameError::ForbiddenCharacter { ch });
        let mut said = String::new();
        refused.push_message(&mut said);
        assert_eq!(
            said,
            format!("{shown} is not a character an exFAT name may contain")
        );
    }
}

#[test]
fn a_read_that_fails_has_filled_what_came_before() {
    let mut bytes = volume_of(tree().into_entries(), options());
    let (node, whole, entry) = {
        let reader = Reader::open(&bytes).expect("open");
        let node = reader.lookup(b"/long.bin").expect("lookup");
        let whole = reader.read_data(&node).expect("read");
        let first = node.storage.first_cluster().expect("a cluster");
        let entry = reader.layout().fat_entry_byte(first).expect("an entry") as usize;
        (node, whole, entry)
    };
    let first = node.storage.first_cluster().expect("a cluster");
    // The chain is of one cluster, and the file of three.
    bytes[entry..entry + 4].copy_from_slice(&0xFFFF_FFFFu32.to_le_bytes());
    let reader = Reader::open(&bytes).expect("open");
    let short = Node {
        storage: Storage::Chain(first),
        ..node
    };
    let refusal = ReadError::StreamTooShort {
        start: first,
        declared: 10_000,
        held: 4096,
    };
    let mut buf = vec![0xEEu8; 6000];
    assert_eq!(reader.read_into(&short, 10, &mut buf), Err(refusal.clone()));
    assert_eq!(buf[..4086], whole[10..4096]);
    assert!(buf[4086..].iter().all(|b| *b == 0xEE));
    let mut buf = vec![0xEEu8; 100];
    assert_eq!(reader.read_into(&short, 5000, &mut buf), Err(refusal.clone()));
    assert!(buf.iter().all(|b| *b == 0xEE));
    assert_eq!(reader.read_data(&short), Err(refusal));
}

#[test]
fn a_finding_is_placed_from_the_outermost_coordinate_in() {
    let anomaly = Anomaly {
        severity: Severity::Integrity,
        category: Category::Directory,
        location: Location {
            sector: Some(9),
            cluster: Some(4),
            entry: Some(2),
        },
        detail: "d".to_string(),
    };
    let finding = anomaly.to_finding(512);
    assert_eq!(
        finding.coordinates(),
        vec![("cluster", 4), ("sector", 9), ("entry", 2)]
    );
    assert_eq!(finding.offset, Some(9 * 512));
    let clustered = Anomaly {
        location: Location::at_cluster(7),
        ..anomaly
    }
    .to_finding(512);
    assert_eq!(clustered.coordinates(), vec![("cluster", 7)]);
    assert_eq!(clustered.offset, None);
}

#[test]
fn what_is_in_one_directory_is_walked_in_order_of_name() {
    let source = TreeBuilder::new()
        .file(b"/b".to_vec(), Vec::new(), meta(0o644))
        .directory(b"/B.d".to_vec(), meta(0o755))
        .file(b"/B.d/z".to_vec(), Vec::new(), meta(0o644))
        .file(b"/B.d/A".to_vec(), Vec::new(), meta(0o644))
        .file(b"/a.b".to_vec(), Vec::new(), meta(0o644))
        .file(b"/a".to_vec(), Vec::new(), meta(0o644))
        .into_entries();
    let bytes = volume_of(source, options());
    let reader = Reader::open(&bytes).expect("open");
    let paths: Vec<Vec<u8>> = reader
        .walk()
        .expect("walk")
        .into_iter()
        .map(|entry| entry.path)
        .collect();
    assert_eq!(
        paths,
        vec![
            b"/B.d".to_vec(),
            b"/B.d/A".to_vec(),
            b"/B.d/z".to_vec(),
            b"/a".to_vec(),
            b"/a.b".to_vec(),
            b"/b".to_vec(),
        ]
    );
}

#[test]
fn the_recommended_table_folds_ascii_as_ascii_is_folded() {
    let table = UpcaseTable::recommended();
    for unit in 0..128u8 {
        assert_eq!(
            table.fold_unit(u16::from(unit)),
            u16::from(unit.to_ascii_uppercase())
        );
    }
}

#[test]
fn a_label_shows_its_name_between_quotes_and_escapes_what_would_not_show() {
    for name in [
        "",
        "SD 1",
        "Straße",
        "\u{1F4BE} disk",
        "a\"b\\c",
        "tab\there",
        "e\u{301}",
        "x\u{AD}y",
    ] {
        let label = VolumeLabel::new(name).expect("a label");
        assert_eq!(label.text(), format!("VolumeLabel({name:?})"));
    }
    assert_eq!(VolumeLabel::unnamed().text(), "VolumeLabel(\"\")");
    assert_eq!(VolumeLabel::new("SD 1").expect("a label").text(), "VolumeLabel(\"SD 1\")");
    assert_eq!(
        VolumeLabel::new("a\"b").expect("a label").text(),
        "VolumeLabel(\"a\\\"b\")"
    );
    assert_eq!(label_text("name"), "VolumeLabel(name)");
}

#[test]
fn units_spell_the_text_they_were_made_of() {
    assert_eq!(spell(&[0x0053, 0x0044]), "SD");
    assert_eq!(spell(&[0xD83D, 0xDCBE]), "\u{1F4BE}");
    assert_eq!(spell(&[0xD83D, 0x0041]), "\u{FFFD}A");
    assert_eq!(spell(&[0xDCBE]), "\u{FFFD}");
    assert_eq!(spell(&[]), "");
}

#[test]
fn a_label_field_is_zero_behind_the_name() {
    let entry = VolumeLabel::new("SD").expect("a label").entry();
    assert_eq!(entry.character_count, 2);
    assert_eq!(entry.label, [0x0053, 0x0044, 0, 0, 0, 0, 0, 0, 0, 0, 0]);
    let bytes = volume_of(Vec::new(), options().label(VolumeLabel::new("SD").expect("a label")));
    let at = bytes
        .chunks(32)
        .position(|slot| slot[..6] == [0x83, 2, 0x53, 0, 0x44, 0])
        .expect("the label entry");
    assert!(bytes[at * 32 + 6..at * 32 + 32].iter().all(|byte| *byte == 0));
    assert_eq!(FormatOptions::new(1).label.entry(), VolumeLabel::unnamed().entry());
    assert_eq!(VolumeLabel::default().entry().label, [0; 11]);
    assert_eq!(VolumeLabel::default().entry().character_count, 0);
}

#[test]
fn labels_of_one_name_are_one_label() {
    assert_eq!(VolumeLabel::new("SD"), VolumeLabel::new("SD"));
    assert_eq!(VolumeLabel::new(""), Ok(VolumeLabel::unnamed()));
    assert_ne!(VolumeLabel::new("SD"), VolumeLabel::new("sd"));
}

#[test]
fn a_source_keeps_what_a_symbolic_link_points_at_and_the_attributes_of_an_entry() {
    let attributed = SourceEntry {
        path: b"/kept".to_vec(),
        kind: EntryKind::Special,
        meta: meta(0o644),
        xattrs: vec![Xattr { name: b"user.n".to_vec(), value: b"v".to_vec() }],
    };
    let entries = TreeBuilder::new()
        .symlink(b"/link".to_vec(), b"else/where".to_vec(), meta(0o644))
        .entry(attributed.clone())
        .into_entries();
    assert_eq!(
        entries[0].kind,
        EntryKind::Symlink { target: b"else/where".to_vec() }
    );
    assert!(entries[0].xattrs.is_empty());
    assert_eq!(entries[1], attributed);
}
