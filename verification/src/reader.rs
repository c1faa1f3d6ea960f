//! A volume opened for reading.
use vstd::prelude::*;

use crate::boot::{
    boot_fault, lemma_boot_sector_unique, MainBootSector, VOLUME_FLAG_MEDIA_FAILURE,
    VOLUME_FLAG_VOLUME_DIRTY,
};
use crate::deviation::{refused, Deviations};
use crate::dirent::{FileAttributes, DIR_ENTRY_SIZE};
use crate::finding::{anomaly_views, Anomaly, AnomalyView};
use crate::geometry::ExfatLayout;
use crate::node::{named_views, Entry, Named, Node};
use crate::number::{ceil_div, div_ceil};
use crate::open::{
    boot_at, boot_log, check_boot_regions, find_residents, has_failed, is_dirty, label_in,
    label_log, label_of, load_upcase, measure_root, remark, residents, root_len, table_read,
    Residents,
};
use crate::parse::{dir_read, parse_dir, DirRead, Reading};
use crate::policy::{Limits, OpenOptions, ReadPolicy};
use crate::read_error::{IoKind, ReadError};
use crate::recover::{boot_defect, described, layout_from_boot, lemma_described_is_sound};
use crate::upcase::{mapping_of, UpcaseTable};
use crate::volume::{Resident, Storage, Vol, Volume};

verus! {

/// What opening a volume finds.
pub struct Opened {
    /// The boot sector.
    pub boot: MainBootSector,
    /// Where everything is.
    pub layout: ExfatLayout,
    /// What each unit of a name folds to.
    pub mapping: Seq<u16>,
    /// Where the bitmap is.
    pub bitmap: Resident,
    /// The name of the volume, where it has one.
    pub label: Option<Seq<u8>>,
    /// Bytes of the root directory.
    pub root_bytes: u64,
    /// What is wrong with it.
    pub log: Seq<ReadError>,
}

/// The failure of a source that ends before a boot sector does.
pub open spec fn too_short_source() -> ReadError {
    ReadError::Io { kind: IoKind::UnexpectedEof, message: "failed to fill whole buffer" }
}

/// What opening finds once the root directory has been read for what it says of the whole
/// volume.
pub open spec fn opened_with(
    vol: Vol,
    boot: MainBootSector,
    root_bytes: u64,
    state: Residents,
) -> Result<Opened, ReadError> {
    let count = vol.layout.cluster_count;
    if state.failed is Some {
        Err(state.failed->Some_0)
    } else if state.bitmap is None {
        Err(ReadError::MissingResident { resident: "allocation bitmap" })
    } else if state.upcase is None {
        Err(ReadError::MissingResident { resident: "up-case table" })
    } else {
        let bitmap = state.bitmap->Some_0;
        let upcase = state.upcase->Some_0;
        match table_read(vol, upcase) {
            Err(e) => Err(e),
            Ok(table) => Ok(
                Opened {
                    boot,
                    layout: ExfatLayout {
                        bitmap_cluster: bitmap.first_cluster,
                        bitmap_bytes: bitmap.data_length,
                        upcase_cluster: upcase.first_cluster,
                        upcase_bytes: upcase.data_length,
                        ..vol.layout
                    },
                    mapping: mapping_of(table.words),
                    bitmap: Resident {
                        first_cluster: bitmap.first_cluster,
                        bytes: bitmap.data_length,
                    },
                    label: match state.label {
                        Some(entry) => label_in(entry),
                        None => None,
                    },
                    root_bytes,
                    log: boot_log(vol, boot) + state.log + remark(
                        bitmap.data_length != ceil_div(count as int, 8),
                        ReadError::BitmapWrongSize {
                            bytes: bitmap.data_length,
                            clusters: count,
                        },
                    ) + table.log + match state.label {
                        Some(entry) => label_log(entry),
                        None => Seq::empty(),
                    },
                },
            ),
        }
    }
}

/// What opening the volume with this boot sector finds.
pub open spec fn opened_boot(bytes: Seq<u8>, boot: MainBootSector) -> Result<Opened, ReadError> {
    let vol = Vol { bytes, layout: described(boot) };
    let root = Storage::Chain(boot.first_cluster_of_root);
    if boot_defect(boot, bytes.len() as int) is Some {
        Err(
            ReadError::BadBootSector { detail: boot_defect(boot, bytes.len() as int)->Some_0 },
        )
    } else if boot.number_of_fats == 2 {
        Err(ReadError::TexFat)
    } else if boot.number_of_fats != 1 {
        Err(ReadError::FatCount { count: boot.number_of_fats })
    } else {
        match root_len(vol) {
            Err(e) => Err(e),
            Ok(root_bytes) => opened_with(
                vol,
                boot,
                root_bytes,
                residents(vol, root, root_bytes, vol.slot_count(root, root_bytes)),
            ),
        }
    }
}

/// What opening the volume that begins with these bytes finds.
pub open spec fn opened(bytes: Seq<u8>) -> Result<Opened, ReadError> {
    let sector = bytes.take(512);
    if bytes.len() < 512 {
        Err(too_short_source())
    } else if boot_fault(sector) is Some {
        Err(ReadError::Parse(boot_fault(sector)->Some_0))
    } else {
        opened_boot(bytes, boot_at(sector))
    }
}

/// The bytes of a source from `base` on.
pub open spec fn from_base(src: Seq<u8>, base: u64) -> Seq<u8> {
    if base > src.len() {
        Seq::empty()
    } else {
        src.skip(base as int)
    }
}

/// The first deviation from `from` on that a policy refuses.
pub open spec fn first_refused(policy: ReadPolicy, log: Seq<ReadError>, from: int) -> Option<
    ReadError,
>
    decreases log.len() - from,
{
    if from >= log.len() {
        None
    } else if policy.fatal(log[from].severity_of()) {
        Some(log[from])
    } else {
        first_refused(policy, log, from + 1)
    }
}

/// What each deviation is.
pub open spec fn anomalies_of(log: Seq<ReadError>) -> Seq<AnomalyView> {
    Seq::new(log.len(), |i: int| log[i].anomaly_of())
}

/// The most names a volume has room for: a third of the slots of its heap.
pub open spec fn room_for_names(layout: ExfatLayout) -> int {
    (layout.cluster_count * layout.bytes_per_cluster) / 32 / 3
}

/// The most names a read gives: what the caller takes on, and no more than there is room for.
pub open spec fn name_cap(limits: Limits, layout: ExfatLayout) -> int {
    if limits.max_walk_entries <= room_for_names(layout) {
        limits.max_walk_entries as int
    } else {
        room_for_names(layout)
    }
}

/// A volume opened for reading.
pub struct Reader<'a> {
    volume: Volume<'a>,
    boot: MainBootSector,
    policy: ReadPolicy,
    limits: Limits,
    upcase: UpcaseTable,
    bitmap: Resident,
    label: Option<Vec<u8>>,
    root_bytes: u64,
    anomalies: Vec<Anomaly>,
}

impl<'a> Reader<'a> {
    /// Whether the volume can be read.
    pub closed spec fn wf(&self) -> bool {
        &&& self.volume.wf()
        &&& self.upcase.wf()
    }

    /// The bytes of the volume and where everything in them is.
    pub closed spec fn vol(&self) -> Vol {
        self.volume@
    }

    /// The boot sector.
    pub closed spec fn main_boot(&self) -> MainBootSector {
        self.boot
    }

    /// What each unit of a name folds to.
    pub closed spec fn mapping(&self) -> Seq<u16> {
        self.upcase.mapping()
    }

    /// Where the bitmap is.
    pub closed spec fn bitmap(&self) -> Resident {
        self.bitmap
    }

    /// The name of the volume, where it has one.
    pub closed spec fn name(&self) -> Option<Seq<u8>> {
        match self.label {
            Some(name) => Some(name@),
            None => None,
        }
    }

    /// Bytes of the root directory.
    pub closed spec fn root_size(&self) -> u64 {
        self.root_bytes
    }

    /// How much is refused.
    pub closed spec fn strictness(&self) -> ReadPolicy {
        self.policy
    }

    /// How much is taken on.
    pub closed spec fn taken_on(&self) -> Limits {
        self.limits
    }

    /// What opening remarked on.
    pub closed spec fn remarks(&self) -> Seq<AnomalyView> {
        anomaly_views(self.anomalies@)
    }

    /// Whether this is the volume with what opening it found, under these options.
    pub open spec fn holds(&self, src: Seq<u8>, found: Opened, options: OpenOptions) -> bool {
        &&& self.wf()
        &&& self.vol() == (Vol { bytes: from_base(src, options.base), layout: found.layout })
        &&& self.main_boot() == found.boot
        &&& self.mapping() == found.mapping
        &&& self.bitmap() == found.bitmap
        &&& self.name() == found.label
        &&& self.root_size() == found.root_bytes
        &&& self.strictness() == options.policy
        &&& self.taken_on() == options.limits
        &&& self.remarks() == anomalies_of(found.log)
    }

    /// The root directory.
    pub open spec fn root_node(&self) -> Node {
        Node {
            storage: Storage::Chain(self.vol().layout.first_cluster_of_root),
            attributes: FileAttributes::of(FileAttributes::DIRECTORY),
            data_length: self.root_size(),
            valid_data_length: self.root_size(),
            times: None,
        }
    }

    /// What reading a directory depends on beside its slots.
    pub open spec fn reading(&self, node: Node) -> Reading {
        Reading {
            layout: self.vol().layout,
            mapping: self.mapping(),
            is_root: node.times is None,
            cap: name_cap(self.taken_on(), self.vol().layout),
        }
    }

    /// A directory, read.
    pub open spec fn directory(&self, node: Node) -> DirRead {
        dir_read(self.reading(node), self.vol(), node.storage, node.data_length)
    }

    /// The entries of a directory, or why they are refused.
    pub open spec fn listing(&self, node: Node) -> Result<Seq<Named>, ReadError> {
        let read = self.directory(node);
        match refused(Some(self.strictness()), read.log) {
            Some(e) => Err(e),
            None => read.entries,
        }
    }

    /// Open the volume at the beginning of a source, strictly.
    pub fn open(src: &'a [u8]) -> (r: Result<Self, ReadError>)
        ensures
            match opened(src@) {
                Err(e) => r == Err::<Self, ReadError>(e),
                Ok(found) => match first_refused(ReadPolicy::Strict, found.log, 0) {
                    Some(e) => r == Err::<Self, ReadError>(e),
                    None => {
                        &&& r is Ok
                        &&& r->Ok_0.vol() == (Vol { bytes: src@, layout: found.layout })
                        &&& exists|options: OpenOptions|
                            options.base == 0 && options.policy == ReadPolicy::Strict
                                && options.limits == (Limits {
                                max_walk_entries: 0x100_0000,
                                max_file_bytes: 0x4000_0000,
                                max_findings: 0x1_0000,
                            }) && #[trigger] r->Ok_0.holds(src@, found, options)
                    },
                },
            },
    {
        let options = OpenOptions::new();
        assert(from_base(src@, 0) =~= src@);
        Self::open_with(src, &options)
    }

    /// Open the volume of a source.
    pub fn open_with(src: &'a [u8], options: &OpenOptions) -> (r: Result<Self, ReadError>)
        ensures
            match opened(from_base(src@, options.base)) {
                Err(e) => r == Err::<Self, ReadError>(e),
                Ok(found) => match first_refused(options.policy, found.log, 0) {
                    Some(e) => r == Err::<Self, ReadError>(e),
                    None => r is Ok && r->Ok_0.holds(src@, found, *options),
                },
            },
    {
        let len: usize = src.len();
        let ghost bytes = from_base(src@, options.base);
        if options.base > len as u64 || len as u64 - options.base < MainBootSector::SIZE as u64 {
            return Err(
                ReadError::Io {
                    kind: IoKind::UnexpectedEof,
                    message: "failed to fill whole buffer",
                },
            );
        }
        let base: usize = options.base as usize;
        let sector = vstd::slice::slice_subrange(src, base, base + MainBootSector::SIZE);
        assert(sector@ =~= bytes.take(512));
        let boot = match MainBootSector::read_from(sector) {
            Ok(boot) => boot,
            Err(e) => return Err(ReadError::Parse(e)),
        };
        proof {
            lemma_boot_sector_unique(boot, boot_at(sector@), sector@);
        }
        let layout = match layout_from_boot(&boot, (len - base) as u64) {
            Ok(layout) => layout,
            Err(defect) => return Err(ReadError::BadBootSector { detail: defect }),
        };
        if boot.number_of_fats == 2 {
            return Err(ReadError::TexFat);
        }
        if boot.number_of_fats != 1 {
            return Err(ReadError::FatCount { count: boot.number_of_fats });
        }
        let mut volume = Volume { src, base, layout };
        proof {
            lemma_described_is_sound(boot, bytes.len() as int);
            assert(volume@.bytes =~= bytes);
        }
        let ghost vol = volume@;
        let mut log = check_boot_regions(&volume, &boot);
        let root_bytes: u64 = measure_root(&volume)?;
        let mut found = find_residents(&volume, root_bytes)?;
        let ghost root = Storage::Chain(boot.first_cluster_of_root);
        let ghost state = residents(vol, root, root_bytes, vol.slot_count(root, root_bytes));
        log.append(&mut found.log);
        let bitmap = match found.bitmap {
            Some(bitmap) => bitmap,
            None => return Err(ReadError::MissingResident { resident: "allocation bitmap" }),
        };
        let upcase_entry = match found.upcase {
            Some(upcase) => upcase,
            None => return Err(ReadError::MissingResident { resident: "up-case table" }),
        };
        let count: u32 = volume.layout.cluster_count;
        if bitmap.data_length != div_ceil(count as u64, 8) {
            log.push(ReadError::BitmapWrongSize { bytes: bitmap.data_length, clusters: count });
        }
        let upcase = load_upcase(&volume, &upcase_entry, &mut log)?;
        let label: Option<Vec<u8>> = match &found.label {
            Some(entry) => label_of(entry, Ghost(state.label->Some_0), &mut log),
            None => None,
        };
        volume.layout = ExfatLayout {
            bitmap_cluster: bitmap.first_cluster,
            bitmap_bytes: bitmap.data_length,
            upcase_cluster: upcase_entry.first_cluster,
            upcase_bytes: upcase_entry.data_length,
            ..layout
        };
        let ghost want = opened_with(vol, boot, root_bytes, state)->Ok_0;
        assert(log@ =~= want.log);
        assert(volume.wf());
        let anomalies = settle(log, options.policy)?;
        Ok(
            Reader {
                volume,
                boot,
                policy: options.policy,
                limits: options.limits,
                upcase,
                bitmap: Resident {
                    first_cluster: bitmap.first_cluster,
                    bytes: bitmap.data_length,
                },
                label,
                root_bytes,
                anomalies,
            },
        )
    }

    /// Where everything on the volume is.
    #[must_use]
    pub fn layout(&self) -> (layout: &ExfatLayout)
        ensures
            *layout == self.vol().layout,
    {
        &self.volume.layout
    }

    /// The boot sector.
    #[must_use]
    pub fn boot_sector(&self) -> (boot: &MainBootSector)
        ensures
            *boot == self.main_boot(),
    {
        &self.boot
    }

    /// How much is refused.
    #[must_use]
    pub fn policy(&self) -> (policy: ReadPolicy)
        ensures
            policy == self.strictness(),
    {
        self.policy
    }

    /// The table the volume's names are compared through.
    #[must_use]
    pub fn upcase(&self) -> (table: &UpcaseTable)
        requires
            self.wf(),
        ensures
            table.wf(),
            table.mapping() == self.mapping(),
    {
        &self.upcase
    }

    /// The name of the volume, where it has one.
    #[must_use]
    pub fn volume_label(&self) -> (label: Option<&[u8]>)
        ensures
            match label {
                Some(name) => self.name() == Some(name@),
                None => self.name() is None,
            },
    {
        match &self.label {
            Some(name) => Some(name.as_slice()),
            None => None,
        }
    }

    /// Whether a driver left the volume open.
    #[must_use]
    pub fn volume_dirty(&self) -> (dirty: bool)
        ensures
            dirty == is_dirty(self.main_boot()),
    {
        self.boot.volume_flags & VOLUME_FLAG_VOLUME_DIRTY != 0
    }

    /// Whether a driver recorded a failure of the medium.
    #[must_use]
    pub fn media_failure(&self) -> (failed: bool)
        ensures
            failed == has_failed(self.main_boot()),
    {
        self.boot.volume_flags & VOLUME_FLAG_MEDIA_FAILURE != 0
    }

    /// The root directory.
    #[must_use]
    pub fn root(&self) -> (root: Node)
        ensures
            root == self.root_node(),
    {
        Node {
            storage: Storage::Chain(self.volume.layout.first_cluster_of_root),
            attributes: FileAttributes::from_bits(FileAttributes::DIRECTORY),
            data_length: self.root_bytes,
            valid_data_length: self.root_bytes,
            times: None,
        }
    }

    /// The most names a read gives.
    pub(crate) fn cap(&self) -> (cap: usize)
        requires
            self.wf(),
        ensures
            cap == name_cap(self.taken_on(), self.vol().layout),
    {
        let heap: u64 = self.volume.layout.heap_bytes();
        let room: u64 = heap / DIR_ENTRY_SIZE as u64 / 3;
        if self.limits.max_walk_entries as u64 <= room {
            self.limits.max_walk_entries
        } else {
            room as usize
        }
    }

    /// The volume.
    pub(crate) fn volume(&self) -> (volume: &Volume<'a>)
        requires
            self.wf(),
        ensures
            volume.wf(),
            volume@ == self.vol(),
    {
        &self.volume
    }

    /// Where the bitmap is.
    pub(crate) fn bitmap_at(&self) -> (bitmap: Resident)
        ensures
            bitmap == self.bitmap(),
    {
        self.bitmap
    }

    /// How much is taken on.
    pub(crate) fn limits(&self) -> (limits: Limits)
        ensures
            limits == self.taken_on(),
    {
        self.limits
    }

    /// What opening remarked on.
    pub(crate) fn open_anomalies(&self) -> (anomalies: &[Anomaly])
        ensures
            anomaly_views(anomalies@) == self.remarks(),
    {
        &self.anomalies
    }

    /// A volume that can be read has a sound layout, inside its bytes.
    pub proof fn lemma_sound(&self)
        requires
            self.wf(),
        ensures
            self.vol().wf(),
    {
    }

    /// The entries of a directory, noting what is wrong with it.
    pub(crate) fn parse(&self, node: &Node, deviations: &mut Deviations) -> (r: Result<
        Vec<Entry>,
        ReadError,
    >)
        requires
            self.wf(),
            node.directory(),
            old(deviations).wf(),
        ensures
            ({
                let read = self.directory(*node);
                match refused(old(deviations).policy(), read.log) {
                    Some(e) => r == Err::<Vec<Entry>, ReadError>(e),
                    None => {
                        &&& final(deviations).having(*old(deviations), read.log)
                        &&& match read.entries {
                            Ok(entries) => r is Ok && named_views(r->Ok_0@) == entries,
                            Err(e) => r == Err::<Vec<Entry>, ReadError>(e),
                        }
                    },
                }
            }),
    {
        let cap: usize = self.cap();
        parse_dir(&self.volume, &self.upcase, node, cap, deviations)
    }

    /// The entries of a directory.
    pub fn read_dir(&self, node: &Node) -> (r: Result<Vec<Entry>, ReadError>)
        requires
            self.wf(),
        ensures
            if !node.directory() {
                &&& r matches Err(ReadError::NotADirectory { path })
                &&& path@.len() == 0
            } else {
                match self.listing(*node) {
                    Ok(entries) => r is Ok && named_views(r->Ok_0@) == entries,
                    Err(e) => r == Err::<Vec<Entry>, ReadError>(e),
                }
            },
    {
        if !node.is_dir() {
            return Err(ReadError::NotADirectory { path: Vec::new() });
        }
        let mut deviations = Deviations::under(self.policy);
        self.parse(node, &mut deviations)
    }
}

/// What each deviation is, where a policy refuses none of them, and else the first it refuses.
fn settle(log: Vec<ReadError>, policy: ReadPolicy) -> (r: Result<Vec<Anomaly>, ReadError>)
    ensures
        match first_refused(policy, log@, 0) {
            Some(e) => r == Err::<Vec<Anomaly>, ReadError>(e),
            None => r is Ok && anomaly_views(r->Ok_0@) == anomalies_of(log@),
        },
{
    let ghost all = log@;
    let mut list = log;
    let mut anomalies: Vec<Anomaly> = Vec::new();
    let mut i: usize = 0;
    while i < list.len()
        invariant
            i <= list@.len(),
            list@ == all,
            all == log@,
            first_refused(policy, all, 0) == first_refused(policy, all, i as int),
            anomalies@.len() == i,
            forall|j: int| 0 <= j < i ==> (#[trigger] anomalies@[j])@ == all[j].anomaly_of(),
        decreases list@.len() - i,
    {
        if policy.is_fatal(list[i].severity()) {
            return Err(list.remove(i));
        }
        let ghost before = anomalies@;
        anomalies.push(list[i].anomaly());
        assert forall|j: int| 0 <= j < i + 1 implies (#[trigger] anomalies@[j])@
            == all[j].anomaly_of() by {
            if j < i {
                assert(anomalies@[j] == before[j]);
            }
        }
        i += 1;
    }
    assert(anomaly_views(anomalies@) =~= anomalies_of(all));
    Ok(anomalies)
}

/// A read gives no more names than it takes on, nor more than the heap has room for at three slots
/// of 32 bytes each.
pub proof fn lemma_how_many_names_are_given(limits: Limits, layout: ExfatLayout)
    ensures
        ({
            let heap = layout.cluster_count * layout.bytes_per_cluster;
            let cap = name_cap(limits, layout);
            &&& cap <= limits.max_walk_entries
            &&& 96 * cap <= heap
            &&& cap == limits.max_walk_entries || heap < 96 * (cap + 1)
        }),
{
    assert(0 <= layout.cluster_count * layout.bytes_per_cluster) by (nonlinear_arith);
}

} // verus!
