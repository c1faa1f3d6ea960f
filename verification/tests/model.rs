//! A tree as a volume will hold it.
use exfat::allocate::build_model;
use exfat::dirent::{FileAttributes, DIR_ENTRY_SIZE};
use exfat::fidelity::{AcceptedLoss, Direction, LossPolicy, Property, Synthesis};
use exfat::geometry::{plan_layout, ExfatLayout, PlanRequest, FIRST_CLUSTER};
use exfat::model::{
    ClusterRun, EntryTimes, ExfatModel, ModelConfig, ModelEntry, ModelError, Node, TimeField,
    MAX_DIRECTORY_BYTES, MAX_DIRECTORY_ENTRIES, ROOT_DIR, ROOT_LEADING_SLOTS,
};
use exfat::name::PlacedName;
use exfat::place::Builder;
use exfat::source::{Metadata, TreeBuilder};
use exfat::time::{DosTimestamp, Timestamp};
use exfat::upcase::{UpcaseTable, UPCASE_IDENTITY_RUN};

const TIME: Timestamp = Timestamp {
    secs: 1_426_325_212,
    nanos: 0,
};

const NO_TIME: DosTimestamp = DosTimestamp {
    date: 0,
    time: 0,
    tenth: 0,
};

fn layout() -> ExfatLayout {
    plan_layout(&PlanRequest::new(32 << 20)).expect("a geometry")
}

fn upcase() -> UpcaseTable {
    UpcaseTable::recommended()
}

fn config<'a>(upcase: &'a UpcaseTable) -> ModelConfig<'a> {
    ModelConfig {
        loss: LossPolicy {
            accepted: AcceptedLoss::none(),
            synthesis: Synthesis::new(),
        },
        upcase,
    }
}

fn model(source: TreeBuilder) -> Result<ExfatModel, ModelError> {
    let upcase = upcase();
    build_model(source.into_entries(), &layout(), &config(&upcase))
}

#[test]
fn a_tree_becomes_directories_and_files_in_sorted_order() {
    let m = model(
        TreeBuilder::new()
            .file(b"/zebra.txt".to_vec(), b"z".to_vec(), Metadata::new(0o644, TIME))
            .directory(b"/dir".to_vec(), Metadata::new(0o755, TIME))
            .file(b"/dir/apple.txt".to_vec(), b"a".to_vec(), Metadata::new(0o644, TIME))
            .file(b"/alpha.txt".to_vec(), b"al".to_vec(), Metadata::new(0o644, TIME)),
    )
    .expect("a tree the format holds");

    assert_eq!(m.dirs.len(), 2);
    let names: Vec<String> = m.dirs[ROOT_DIR]
        .entries
        .iter()
        .map(|e| String::from_utf16(&e.name.units).expect("well-formed"))
        .collect();
    assert_eq!(names, ["alpha.txt", "dir", "zebra.txt"]);
    assert!(m.fidelity.is_faithful(), "nothing was lost");

    assert_eq!(m.dirs[ROOT_DIR].run.first, layout().first_cluster_of_root);
    assert!(m.dirs[1].run.count >= 1);
}

#[test]
fn allocation_is_contiguous_and_begins_where_the_format_left_off() {
    let m = model(
        TreeBuilder::new()
            .file(b"/a".to_vec(), vec![0u8; 9_000], Metadata::new(0o644, TIME))
            .file(b"/b".to_vec(), vec![0u8; 1], Metadata::new(0o644, TIME)),
    )
    .expect("a tree the format holds");
    let layout = layout();

    let mut expected = layout.first_cluster_of_root;
    assert_eq!(m.dirs[ROOT_DIR].run.first, expected);
    expected += m.dirs[ROOT_DIR].run.count;
    for entry in &m.dirs[ROOT_DIR].entries {
        let Node::File { run, .. } = entry.node else {
            unreachable!("both entries are files")
        };
        assert_eq!(run.first, expected);
        expected += run.count;
    }
    assert_eq!(m.used_clusters + FIRST_CLUSTER, expected);
    assert_eq!(
        m.dirs[ROOT_DIR].entries[0].node,
        Node::File {
            content: 0,
            size: 9_000,
            run: ClusterRun {
                first: layout.first_cluster_of_root + 1,
                count: 3
            }
        }
    );
}

#[test]
fn an_empty_file_owns_no_cluster() {
    let m = model(TreeBuilder::new().file(b"/empty".to_vec(), b"".to_vec(), Metadata::new(0o644, TIME)))
        .expect("a tree the format holds");
    let Node::File { run, size, .. } = m.dirs[ROOT_DIR].entries[0].node else {
        unreachable!("a file")
    };
    assert_eq!(size, 0);
    assert!(run.is_empty());
    assert_eq!(run.first, 0, "the format says so with a zero");
}

#[test]
fn two_names_the_volumes_folding_makes_one_are_refused_with_both_paths_named() {
    let err = model(
        TreeBuilder::new()
            .file(b"/README".to_vec(), b"a".to_vec(), Metadata::new(0o644, TIME))
            .file(b"/readme".to_vec(), b"b".to_vec(), Metadata::new(0o644, TIME)),
    )
    .expect_err("a directory that cannot hold both");
    assert!(matches!(err, ModelError::Indistinguishable { .. }), "{err:?}");
    let message = err.message();
    assert!(
        message.contains("README") && message.contains("readme"),
        "{message}"
    );

    assert!(
        model(
            TreeBuilder::new()
                .directory(b"/d".to_vec(), Metadata::new(0o755, TIME))
                .file(b"/README".to_vec(), b"a".to_vec(), Metadata::new(0o644, TIME))
                .file(b"/d/readme".to_vec(), b"b".to_vec(), Metadata::new(0o644, TIME)),
        )
        .is_ok()
    );
}

#[test]
fn the_folding_is_the_volumes_own_rather_than_the_hosts() {
    let identity = UpcaseTable::new(&[UPCASE_IDENTITY_RUN, 0]);
    let source = TreeBuilder::new()
        .file(b"/README".to_vec(), b"a".to_vec(), Metadata::new(0o644, TIME))
        .file(b"/readme".to_vec(), b"b".to_vec(), Metadata::new(0o644, TIME));
    assert!(
        build_model(source.into_entries(), &layout(), &config(&identity)).is_ok(),
        "a volume that folds nothing distinguishes them"
    );
}

#[test]
fn a_property_the_format_cannot_carry_refuses_until_it_is_accepted() {
    let source = TreeBuilder::new().file(
        b"/owned".to_vec(),
        b"x".to_vec(),
        Metadata {
            uid: 1000,
            gid: 1000,
            ..Metadata::new(0o644, TIME)
        },
    );
    let err = model(source.clone()).expect_err("ownership has nowhere to go");
    assert!(matches!(
        err,
        ModelError::LossNotAccepted {
            property: Property::Ownership,
            ..
        }
    ));

    let upcase = upcase();
    let m = build_model(
        source.into_entries(),
        &layout(),
        &ModelConfig {
            loss: LossPolicy {
                accepted: AcceptedLoss::none().and(Property::Ownership),
                ..config(&upcase).loss
            },
            ..config(&upcase)
        },
    )
    .expect("accepted");
    assert!(!m.fidelity.is_faithful());
    assert_eq!(m.fidelity.count(Direction::Dropped, Property::Ownership), 1);
}

#[test]
fn a_conventionally_moded_root_owned_tree_loses_nothing() {
    let m = model(
        TreeBuilder::new()
            .directory(b"/etc".to_vec(), Metadata::new(0o755, TIME))
            .file(
                b"/etc/hostname".to_vec(),
                b"host\n".to_vec(),
                Metadata::new(0o644, TIME),
            ),
    )
    .expect("a tree the format holds");
    assert!(m.fidelity.is_faithful());
    assert!(m.fidelity.records().is_empty());
}

#[test]
fn a_read_only_file_keeps_its_mode_through_the_one_bit_the_format_has() {
    let m = model(TreeBuilder::new().file(b"/ro".to_vec(), b"x".to_vec(), Metadata::new(0o444, TIME)))
        .expect("a tree the format holds");
    assert!(
        m.dirs[ROOT_DIR].entries[0]
            .attributes
            .contains(FileAttributes::from_bits(FileAttributes::READ_ONLY))
    );
    assert!(
        m.fidelity.is_faithful(),
        "the write bits a driver clears are the mode that was asked for"
    );
}

#[test]
fn the_precision_a_time_loses_is_recorded_and_never_refuses() {
    let odd = Timestamp {
        secs: TIME.secs + 1,
        nanos: 0,
    };
    assert_eq!(odd.secs % 2, 1);
    let m = model(TreeBuilder::new().file(b"/f".to_vec(), b"x".to_vec(), Metadata::new(0o644, odd)))
        .expect("recorded, not refused");
    assert_eq!(
        m.fidelity
            .count(Direction::Dropped, Property::TimePrecision),
        1
    );
    let entry = &m.dirs[ROOT_DIR].entries[0];
    assert_eq!(
        entry.times.modify.tenth, 100,
        "the odd second rides in the hundredths"
    );
    assert_eq!(
        entry.times.access.tenth, 0,
        "the access field has no such byte"
    );
    assert_eq!(
        entry.times.create, entry.times.modify,
        "a creation time is derived"
    );

    let m = model(TreeBuilder::new().file(b"/f".to_vec(), b"x".to_vec(), Metadata::new(0o644, TIME)))
        .expect("a tree the format holds");
    assert!(m.fidelity.is_faithful());
    let hundredth = Timestamp {
        secs: TIME.secs,
        nanos: 370_000_000,
    };
    let m = model(TreeBuilder::new().file(
        b"/f".to_vec(),
        b"x".to_vec(),
        Metadata {
            atime: TIME,
            ..Metadata::new(0o644, hundredth)
        },
    ))
    .expect("a tree the format holds");
    assert!(m.fidelity.is_faithful());
    assert_eq!(m.dirs[ROOT_DIR].entries[0].times.modify.tenth, 37);
}

#[test]
fn an_instant_outside_the_range_is_refused_by_field_rather_than_wrapped() {
    for (meta, field) in [
        (
            Metadata::new(0o644, Timestamp::from_secs(0)),
            TimeField::Modification,
        ),
        (
            Metadata {
                atime: Timestamp::from_secs(DosTimestamp::SECS_MAX + 1),
                ..Metadata::new(0o644, TIME)
            },
            TimeField::Access,
        ),
    ] {
        let err = model(TreeBuilder::new().file(b"/f".to_vec(), b"x".to_vec(), meta))
            .expect_err("outside the range");
        assert!(
            matches!(err, ModelError::TimeOutOfRange { field: f, .. } if f == field),
            "{err:?}"
        );
    }
}

#[test]
fn a_hard_link_is_written_as_a_second_copy_and_says_so() {
    let upcase = upcase();
    let m = build_model(
        TreeBuilder::new()
            .file(b"/a".to_vec(), b"contents".to_vec(), Metadata::new(0o644, TIME))
            .hardlink(b"/b".to_vec(), b"/a".to_vec(), Metadata::new(0o644, TIME))
            .into_entries(),
        &layout(),
        &ModelConfig {
            loss: LossPolicy {
                accepted: AcceptedLoss::none().and(Property::Kind),
                ..config(&upcase).loss
            },
            ..config(&upcase)
        },
    )
    .expect("accepted");

    let runs: Vec<_> = m.dirs[ROOT_DIR]
        .entries
        .iter()
        .map(|e| match e.node {
            Node::File { content, run, .. } => (content, run),
            Node::Dir(_) => unreachable!("both are files"),
        })
        .collect();
    assert_eq!(runs[0].0, runs[1].0, "one content");
    assert_ne!(runs[0].1.first, runs[1].1.first, "two allocations");
    assert_eq!(m.fidelity.count(Direction::Dropped, Property::Kind), 1);
}

#[test]
fn a_shape_no_filesystem_has_is_refused_by_name() {
    let dup = TreeBuilder::new()
        .file(b"/a".to_vec(), b"x".to_vec(), Metadata::new(0o644, TIME))
        .file(b"//a".to_vec(), b"y".to_vec(), Metadata::new(0o644, TIME));
    assert!(matches!(
        model(dup).expect_err("one path twice"),
        ModelError::Duplicate { .. }
    ));

    let orphan = TreeBuilder::new().file(b"/d/f".to_vec(), b"x".to_vec(), Metadata::new(0o644, TIME));
    assert!(matches!(
        model(orphan).expect_err("no parent"),
        ModelError::ParentMissing { .. }
    ));

    let under_file = TreeBuilder::new()
        .file(b"/f".to_vec(), b"x".to_vec(), Metadata::new(0o644, TIME))
        .file(b"/f/g".to_vec(), b"y".to_vec(), Metadata::new(0o644, TIME));
    assert!(matches!(
        model(under_file).expect_err("a file is not a directory"),
        ModelError::ParentNotDir { .. }
    ));

    let ascending = TreeBuilder::new()
        .directory(b"/d".to_vec(), Metadata::new(0o755, TIME))
        .file(b"/d/../f".to_vec(), b"x".to_vec(), Metadata::new(0o644, TIME));
    assert!(matches!(
        model(ascending).expect_err("a path is not a traversal"),
        ModelError::InvalidComponent { .. }
    ));

    let root_file = TreeBuilder::new().file(b"/".to_vec(), b"x".to_vec(), Metadata::new(0o644, TIME));
    assert!(matches!(
        model(root_file).expect_err("the root is a directory"),
        ModelError::RootNotDirectory { .. }
    ));
}

#[test]
fn a_tree_larger_than_the_volume_is_refused_before_anything_is_written() {
    let mut source = TreeBuilder::new();
    for n in 0..40u32 {
        source = source.file(
            format!("/f{n}").into_bytes(),
            vec![0u8; 1 << 20],
            Metadata::new(0o644, TIME),
        );
    }
    assert!(matches!(
        model(source).expect_err("forty megabytes into thirty-two"),
        ModelError::VolumeFull { .. }
    ));
}

#[test]
fn the_root_carries_the_four_entries_a_format_writes_ahead_of_the_tree() {
    let empty = model(TreeBuilder::new()).expect("an empty tree");
    assert!(empty.dirs[ROOT_DIR].entries.is_empty());
    assert_eq!(
        empty.dirs[ROOT_DIR].run.count, 1,
        "an empty root is one cluster"
    );

    let one = model(TreeBuilder::new().file(b"/f".to_vec(), b"x".to_vec(), Metadata::new(0o644, TIME)))
        .expect("a tree the format holds");
    assert_eq!(
        one.dirs[ROOT_DIR].bytes(ROOT_DIR),
        u64::from(ROOT_LEADING_SLOTS + 3) * DIR_ENTRY_SIZE as u64
    );
}

#[test]
fn a_directory_larger_than_the_format_holds_is_refused_by_path() {
    let mut placed = Builder::new(&config(&upcase()))
        .place_all(
            TreeBuilder::new()
                .directory(b"/d".to_vec(), Metadata::new(0o755, TIME))
                .into_entries(),
        )
        .expect("a tree");
    placed.dirs[1].entries = std::iter::repeat_with(|| ModelEntry {
        name: PlacedName {
            units: vec![u16::from(b'a'); 255],
            hash: 0,
        },
        attributes: FileAttributes::from_bits(FileAttributes::ARCHIVE),
        times: EntryTimes {
                create: NO_TIME,
                modify: NO_TIME,
                access: NO_TIME,
            },
        node: Node::File {
            content: 0,
            size: 0,
            run: ClusterRun::default(),
        },
    })
    .take((MAX_DIRECTORY_ENTRIES / 19) as usize + 1)
    .collect();

    let err = placed
        .allocate(&layout())
        .expect_err("too large a directory");
    assert!(
        matches!(err, ModelError::DirectoryTooLarge { limit, .. } if limit == MAX_DIRECTORY_BYTES),
        "{err:?}"
    );
    assert!(err.message().contains("/d"), "{err:?}");
}

#[test]
fn two_models_of_one_tree_are_the_same_model() {
    let forward = model(
        TreeBuilder::new()
            .directory(b"/d".to_vec(), Metadata::new(0o755, TIME))
            .file(b"/d/a".to_vec(), b"a".to_vec(), Metadata::new(0o644, TIME))
            .file(b"/z".to_vec(), b"z".to_vec(), Metadata::new(0o644, TIME)),
    )
    .expect("a tree");
    let shuffled = model(
        TreeBuilder::new()
            .file(b"/z".to_vec(), b"z".to_vec(), Metadata::new(0o644, TIME))
            .file(b"/d/a".to_vec(), b"a".to_vec(), Metadata::new(0o644, TIME))
            .directory(b"/d".to_vec(), Metadata::new(0o755, TIME)),
    )
    .expect("a tree");
    assert_eq!(forward.dirs, shuffled.dirs);
    assert_eq!(forward.used_clusters, shuffled.used_clusters);
}
