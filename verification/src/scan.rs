//! Checking a whole volume.
use vstd::prelude::*;

use crate::boot::{
    percentage, percent_in_use, MainBootSector, PERCENT_IN_USE_MAX, PERCENT_IN_USE_UNKNOWN,
};
use crate::bytes::{get_u32, push_all};
use crate::deviation::{collected, Deviations, Noted};
use crate::finding::{anomaly_views, Anomaly, AnomalyView, Findings, FindingsView, ScanReport};
use crate::geometry::FIRST_CLUSTER;
use crate::image::lemma_ceil_div;
use crate::node::{named_views, Entry, Named, Node};
use crate::number::{ceil_div, div_ceil};
use crate::path::SLASH;
use crate::read_error::ReadError;
use crate::reader::{name_cap, Reader};
use crate::slots::ClusterSet;
use crate::table::{FAT_ENTRY_MEDIA, FAT_ENTRY_RESERVED};
use crate::text::{dec, printable_text, push_dec, push_printable};
use crate::volume::{lemma_stream_at, ChainCursor, Resident, Storage, Vol, Volume};
use crate::walk::{child_path, walked_views, WalkEntry, Walked};

verus! {

/// A deviation with the path it is about before what it is, where there is a path.
pub open spec fn about(path: Seq<u8>, anomaly: AnomalyView) -> AnomalyView {
    if path.len() == 0 {
        anomaly
    } else {
        AnomalyView { detail: printable_text(path) + ": "@ + anomaly.detail, ..anomaly }
    }
}

/// What is said of a stream that comes back to a cluster of its own.
pub open spec fn loop_text(start: u32, cluster: u32) -> Seq<char> {
    "the chain from cluster "@ + dec(start as nat) + " returns to cluster "@ + dec(cluster as nat)
        + ", and a chain that loops never ends"@
}

/// The deviation with the path it is about before what it is, where there is a path.
fn name_path(path: &[u8], anomaly: &mut Anomaly)
    ensures
        final(anomaly)@ == about(path@, old(anomaly)@),
{
    if path.len() > 0 {
        let mut detail = String::new();
        push_printable(&mut detail, path);
        detail.append(": ");
        detail.append(anomaly.detail.as_str());
        assert(detail@ =~= printable_text(path@) + ": "@ + anomaly.detail@);
        anomaly.detail = detail;
    }
}

/// What a check has come to: the clusters streams have, and what was found.
pub struct Claimed {
    /// The clusters.
    pub reached: Set<int>,
    /// What was found.
    pub found: FindingsView,
}

impl Vol {
    /// Whether a stream has had a cluster before its cluster `index`.
    pub open spec fn had_before(self, storage: Storage, index: int, cluster: u32) -> bool {
        exists|j: int|
            0 <= j < index && #[trigger] self.stream_at(storage, j) == Ok::<Option<u32>, ReadError>(
                Some(cluster),
            )
    }

    /// What is found of a cluster a stream has and another, or the same, has had.
    pub open spec fn shared(self, storage: Storage, index: int, cluster: u32, path: Seq<u8>) -> AnomalyView {
        let crossed = ReadError::CrossLinkedCluster { cluster }.anomaly_of();
        about(
            path,
            if self.had_before(storage, index, cluster) {
                AnomalyView { detail: loop_text(storage.first_or_zero(), cluster), ..crossed }
            } else {
                crossed
            },
        )
    }

    /// The clusters of a stream from `index` on, each held against those reached before and
    /// against the bitmap, up to the first that cannot be.
    pub open spec fn claim(
        self,
        bitmap: Resident,
        storage: Storage,
        bytes: u64,
        path: Seq<u8>,
        index: int,
        state: Claimed,
    ) -> Claimed
        decreases ceil_div(bytes as int, self.per()) - index,
    {
        if index >= ceil_div(bytes as int, self.per()) {
            state
        } else {
            match self.stream_at(storage, index) {
                Ok(None) => Claimed {
                    found: state.found.with(self.too_short(storage, bytes, index).anomaly_of()),
                    ..state
                },
                Err(e) => Claimed {
                    found: state.found.with(about(path, e.anomaly_of())),
                    ..state
                },
                Ok(Some(cluster)) => if state.reached.contains(cluster as int) {
                    Claimed {
                        found: state.found.with(self.shared(storage, index, cluster, path)),
                        ..state
                    }
                } else {
                    let reached = state.reached.insert(cluster as int);
                    match self.allocated(bitmap, cluster) {
                        Err(e) => Claimed { reached, found: state.found.with(e.anomaly_of()) },
                        Ok(in_use) => {
                            let found = if in_use {
                                state.found
                            } else {
                                state.found.with(
                                    ReadError::ClusterNotAllocated { cluster }.anomaly_of(),
                                )
                            };
                            let next = Claimed { reached, found };
                            if found.full() {
                                next
                            } else {
                                self.claim(bitmap, storage, bytes, path, index + 1, next)
                            }
                        },
                    }
                },
            }
        }
    }

    /// The clusters of a stream, claimed.
    pub open spec fn claimed(
        self,
        bitmap: Resident,
        storage: Storage,
        bytes: u64,
        path: Seq<u8>,
        state: Claimed,
    ) -> Claimed {
        if storage.first() is None {
            state
        } else {
            self.claim(bitmap, storage, bytes, path, 0, state)
        }
    }
}

/// Whether a stream has had a cluster before its cluster `index`.
fn was_had(volume: &Volume<'_>, storage: Storage, index: u64, cluster: u32) -> (had: bool)
    requires
        volume.wf(),
        index <= 0x1_0000_0000_0000,
    ensures
        had == volume@.had_before(storage, index as int, cluster),
{
    let mut cursor = ChainCursor::new();
    let mut j: u64 = 0;
    while j < index
        invariant
            volume.wf(),
            cursor.on(volume@),
            index <= 0x1_0000_0000_0000,
            j <= index,
            forall|i: int|
                0 <= i < j ==> #[trigger] volume@.stream_at(storage, i) != Ok::<
                    Option<u32>,
                    ReadError,
                >(Some(cluster)),
        decreases index - j,
    {
        let found = volume.stream_cluster(&mut cursor, storage, j);
        match found {
            Ok(Some(other)) => {
                if other == cluster {
                    assert(volume@.stream_at(storage, j as int) == Ok::<Option<u32>, ReadError>(
                        Some(cluster),
                    ));
                    return true;
                }
            },
            _ => {},
        }
        j += 1;
    }
    false
}

/// A check of a volume under way.
struct Scan<'s, 'a> {
    volume: &'s Volume<'a>,
    bitmap: Resident,
    reached: ClusterSet,
    findings: Findings,
    cursor: ChainCursor,
}

impl<'s, 'a> Scan<'s, 'a> {
    /// The volume.
    spec fn vol(&self) -> Vol {
        self.volume@
    }

    /// What the check has come to.
    spec fn state(&self) -> Claimed {
        Claimed { reached: self.reached@, found: self.findings@ }
    }

    /// Whether the volume can be checked.
    spec fn wf(&self) -> bool {
        &&& self.volume.wf()
        &&& self.reached.wf()
        &&& self.reached.count() == self.volume.layout.cluster_count
        &&& self.cursor.on(self.volume@)
    }

    /// Whether this is a check of the same volume.
    spec fn same(&self, other: &Self) -> bool {
        &&& self.volume == other.volume
        &&& self.bitmap == other.bitmap
    }

    /// Claim the clusters of a stream.
    fn claim_stream(&mut self, storage: Storage, bytes: u64, path: &[u8])
        requires
            old(self).wf(),
        ensures
            final(self).wf(),
            final(self).same(old(self)),
            final(self).state() == old(self).vol().claimed(
                old(self).bitmap,
                storage,
                bytes,
                path@,
                old(self).state(),
            ),
    {
        let start: u32 = match storage.first_cluster() {
            Some(start) => start,
            None => return,
        };
        let ghost vol = self.volume@;
        let per: u64 = self.volume.layout.bytes_per_cluster as u64;
        let clusters: u64 = div_ceil(bytes, per);
        let ghost want = vol.claimed(self.bitmap, storage, bytes, path@, self.state());
        proof {
            lemma_ceil_div(bytes as int, per as int);
            assert(clusters <= 0x80_0000_0000_0000) by (nonlinear_arith)
                requires
                    clusters * per < bytes + per,
                    per >= 512,
                    bytes <= u64::MAX,
            ;
        }
        let mut index: u64 = 0;
        while index < clusters
            invariant
                self.wf(),
                self.same(old(self)),
                vol == self.volume@,
                vol == old(self).vol(),
                per == vol.per(),
                clusters == ceil_div(bytes as int, per as int),
                clusters <= 0x80_0000_0000_0000,
                clusters * per < bytes + per,
                index <= clusters,
                storage.first() == Some(start),
                want == vol.claimed(old(self).bitmap, storage, bytes, path@, old(self).state()),
                want == vol.claim(
                    self.bitmap,
                    storage,
                    bytes,
                    path@,
                    index as int,
                    self.state(),
                ),
            decreases clusters - index,
        {
            proof {
                lemma_stream_at(vol, storage, index as int);
                assert(index * per < bytes) by (nonlinear_arith)
                    requires
                        index + 1 <= clusters,
                        clusters * per < bytes + per,
                        per > 0,
                ;
            }
            let found = self.volume.stream_cluster(&mut self.cursor, storage, index);
            let cluster: u32 = match found {
                Ok(Some(cluster)) => cluster,
                Ok(None) => {
                    self.findings.push(
                        ReadError::StreamTooShort {
                            start,
                            declared: bytes,
                            held: index * per,
                        }.anomaly(),
                    );
                    return;
                },
                Err(e) => {
                    let mut anomaly = e.anomaly();
                    name_path(path, &mut anomaly);
                    self.findings.push(anomaly);
                    return;
                },
            };
            let ghost before = self.reached@;
            if !self.reached.insert(cluster) {
                let mut anomaly = ReadError::CrossLinkedCluster { cluster }.anomaly();
                if was_had(self.volume, storage, index, cluster) {
                    let mut detail = String::new();
                    detail.append("the chain from cluster ");
                    push_dec(&mut detail, start as u64);
                    detail.append(" returns to cluster ");
                    push_dec(&mut detail, cluster as u64);
                    detail.append(", and a chain that loops never ends");
                    assert(detail@ =~= loop_text(start, cluster));
                    anomaly.detail = detail;
                }
                name_path(path, &mut anomaly);
                self.findings.push(anomaly);
                assert(self.reached@ =~= before);
                return;
            }
            match self.volume.is_allocated(&mut self.cursor, self.bitmap, cluster) {
                Ok(in_use) => {
                    if !in_use {
                        self.findings.push(ReadError::ClusterNotAllocated { cluster }.anomaly());
                    }
                },
                Err(e) => {
                    self.findings.push(e.anomaly());
                    return;
                },
            }
            if self.findings.is_full() {
                return;
            }
            index += 1;
        }
    }
}

/// The names of a directory, added to those to be checked.
pub struct Enqueued {
    /// What is to be checked, the last of it first.
    pub queue: Seq<Walked>,
    /// The clusters the directories met begin on.
    pub visited: Set<int>,
    /// The names met.
    pub names: int,
    /// Whether there are more than a check takes on.
    pub over: bool,
}

/// A check of the tree under way.
pub struct TreeScan {
    /// What is to be checked, the last of it first.
    pub queue: Seq<Walked>,
    /// The clusters the directories met begin on.
    pub visited: Set<int>,
    /// The names met.
    pub names: int,
    /// What the check has come to.
    pub state: Claimed,
}

/// A check of the tree, done.
pub struct TreeDone {
    /// The clusters streams have, where all of the tree was checked.
    pub reached: Option<Set<int>>,
    /// What was found.
    pub found: FindingsView,
}

impl<'a> Reader<'a> {
    /// Whether what a name is of is to be checked: it has clusters, and is not a directory met
    /// before.
    pub open spec fn to_check(&self, node: Node, visited: Set<int>) -> bool {
        match node.storage.first() {
            None => false,
            Some(first) => !node.directory() || !visited.contains(first as int),
        }
    }

    /// The clusters the directories met begin on, with one more name met.
    pub open spec fn having_met(&self, node: Node, visited: Set<int>) -> Set<int> {
        match node.storage.first() {
            Some(first) if node.directory() && self.vol().layout.has_cluster(first as int) =>
                visited.insert(first as int),
            _ => visited,
        }
    }

    /// The names of the directory at `prefix` from `k` on, added to those to be checked.
    pub open spec fn enqueued(
        &self,
        entries: Seq<Named>,
        k: int,
        prefix: Seq<u8>,
        queue: Seq<Walked>,
        visited: Set<int>,
        names: int,
    ) -> Enqueued
        decreases entries.len() - k,
    {
        let cap = name_cap(self.taken_on(), self.vol().layout);
        if k >= entries.len() {
            Enqueued { queue, visited, names, over: false }
        } else if names + 1 > cap {
            Enqueued { queue, visited, names, over: true }
        } else {
            let entry = entries[k];
            let path = child_path(prefix, entry.name);
            self.enqueued(
                entries,
                k + 1,
                prefix,
                if self.to_check(entry.node, visited) {
                    queue.push(Walked { path, node: entry.node })
                } else {
                    queue
                },
                self.having_met(entry.node, visited),
                names + 1,
            )
        }
    }

    /// Adding names adds no more to what is to be checked than there are names.
    pub proof fn lemma_enqueued(
        &self,
        entries: Seq<Named>,
        k: int,
        prefix: Seq<u8>,
        queue: Seq<Walked>,
        visited: Set<int>,
        names: int,
    )
        ensures
            ({
                let after = self.enqueued(entries, k, prefix, queue, visited, names);
                let cap = name_cap(self.taken_on(), self.vol().layout);
                &&& names <= after.names
                &&& after.queue.len() - queue.len() <= after.names - names
                &&& names <= cap ==> after.names <= cap
            }),
        decreases entries.len() - k,
    {
        let cap = name_cap(self.taken_on(), self.vol().layout);
        if k < entries.len() && names + 1 <= cap {
            let entry = entries[k];
            let path = child_path(prefix, entry.name);
            self.lemma_enqueued(
                entries,
                k + 1,
                prefix,
                if self.to_check(entry.node, visited) {
                    queue.push(Walked { path, node: entry.node })
                } else {
                    queue
                },
                self.having_met(entry.node, visited),
                names + 1,
            );
        }
    }

    /// The refusal of more names than a check takes on.
    pub open spec fn too_many(&self) -> ReadError {
        ReadError::WalkTooLarge { limit: name_cap(self.taken_on(), self.vol().layout) as usize }
    }

    /// The check of the tree from where some of it is still to be checked.
    pub open spec fn tree_scan(&self, scan: TreeScan) -> TreeDone
        decreases
            2 * (name_cap(self.taken_on(), self.vol().layout) - scan.names) + scan.queue.len(),
        when scan.names <= name_cap(self.taken_on(), self.vol().layout)
    {
        if scan.queue.len() == 0 {
            TreeDone { reached: Some(scan.state.reached), found: scan.state.found }
        } else if scan.state.found.full() {
            TreeDone { reached: None, found: scan.state.found }
        } else {
            let item = scan.queue.last();
            let rest = scan.queue.drop_last();
            let state = if item.node.directory() && item.path.len() == 0 {
                scan.state
            } else {
                self.vol().claimed(
                    self.bitmap(),
                    item.node.storage,
                    item.node.data_length,
                    item.path,
                    scan.state,
                )
            };
            if !item.node.directory() {
                self.tree_scan(TreeScan { queue: rest, state, ..scan })
            } else {
                let read = self.directory(item.node);
                let found = collected(state.found, read.log);
                match read.entries {
                    Err(e) => if e is WalkTooLarge {
                        TreeDone { reached: None, found: found.with(e.anomaly_of()) }
                    } else {
                        self.tree_scan(
                            TreeScan {
                                queue: rest,
                                state: Claimed { found: found.with(e.anomaly_of()), ..state },
                                ..scan
                            },
                        )
                    },
                    Ok(entries) => {
                        proof {
                            self.lemma_enqueued(
                                entries,
                                0,
                                item.path,
                                rest,
                                scan.visited,
                                scan.names,
                            );
                        }
                        let after = self.enqueued(
                            entries,
                            0,
                            item.path,
                            rest,
                            scan.visited,
                            scan.names,
                        );
                        if after.over {
                            TreeDone {
                                reached: None,
                                found: found.with(self.too_many().anomaly_of()),
                            }
                        } else {
                            self.tree_scan(
                                TreeScan {
                                    queue: after.queue,
                                    visited: after.visited,
                                    names: after.names,
                                    state: Claimed { found, ..state },
                                },
                            )
                        }
                    },
                }
            }
        }
    }

    /// The three streams every volume has, claimed.
    pub open spec fn residents_claimed(&self, found: FindingsView) -> Claimed {
        let vol = self.vol();
        let none = Seq::<u8>::empty();
        let a = vol.claimed(
            self.bitmap(),
            Storage::Chain(self.bitmap().first_cluster),
            self.bitmap().bytes,
            none,
            Claimed { reached: Set::empty(), found },
        );
        let b = vol.claimed(
            self.bitmap(),
            Storage::Chain(vol.layout.upcase_cluster),
            vol.layout.upcase_bytes,
            none,
            a,
        );
        vol.claimed(
            self.bitmap(),
            Storage::Chain(vol.layout.first_cluster_of_root),
            self.root_size(),
            none,
            b,
        )
    }

    /// The check of the whole tree.
    pub open spec fn tree_scanned(&self, found: FindingsView) -> TreeDone {
        self.tree_scan(
            TreeScan {
                queue: seq![Walked { path: Seq::empty(), node: self.root_node() }],
                visited: Set::empty().insert(self.vol().layout.first_cluster_of_root as int),
                names: 0,
                state: self.residents_claimed(found),
            },
        )
    }

    /// What is wrong with the two entries at the head of the table.
    pub open spec fn head_scanned(&self, found: FindingsView) -> FindingsView {
        let first = self.vol().table(0);
        let second = self.vol().table(1);
        let a = if first != FAT_ENTRY_MEDIA {
            found.with(
                ReadError::BadReservedEntry {
                    index: 0,
                    found: first,
                    expected: FAT_ENTRY_MEDIA,
                }.anomaly_of(),
            )
        } else {
            found
        };
        if second != FAT_ENTRY_RESERVED {
            a.with(
                ReadError::BadReservedEntry {
                    index: 1,
                    found: second,
                    expected: FAT_ENTRY_RESERVED,
                }.anomaly_of(),
            )
        } else {
            a
        }
    }
}

/// The clusters the bitmap calls in use.
pub struct Tally {
    /// How many there are.
    pub in_use: int,
    /// How many of them no stream has.
    pub lost: int,
    /// The first of those.
    pub first: Option<u32>,
}

impl Vol {
    /// The first `n` clusters, counted.
    pub open spec fn tally(self, bitmap: Resident, reached: Set<int>, n: int) -> Result<
        Tally,
        ReadError,
    >
        decreases n,
    {
        if n <= 0 {
            Ok(Tally { in_use: 0, lost: 0, first: None })
        } else {
            match self.tally(bitmap, reached, n - 1) {
                Err(e) => Err(e),
                Ok(tally) => {
                    let cluster = (FIRST_CLUSTER + n - 1) as u32;
                    match self.allocated(bitmap, cluster) {
                        Err(e) => Err(e),
                        Ok(false) => Ok(tally),
                        Ok(true) => if reached.contains(cluster as int) {
                            Ok(Tally { in_use: tally.in_use + 1, ..tally })
                        } else {
                            Ok(
                                Tally {
                                    in_use: tally.in_use + 1,
                                    lost: tally.lost + 1,
                                    first: if tally.first is Some {
                                        tally.first
                                    } else {
                                        Some(cluster)
                                    },
                                },
                            )
                        },
                    }
                },
            }
        }
    }

    /// What is found of the clusters no stream has, and of the percentage the volume states.
    pub open spec fn allocation_scanned(
        self,
        bitmap: Resident,
        boot: MainBootSector,
        reached: Set<int>,
        found: FindingsView,
    ) -> FindingsView {
        let count = self.layout.cluster_count;
        match self.tally(bitmap, reached, count as int) {
            Err(e) => found.with(e.anomaly_of()),
            Ok(tally) => {
                let stated = boot.percent_in_use;
                let actual = percentage(tally.in_use, count as int) as u8;
                let lost = match tally.first {
                    Some(first) => found.with(
                        ReadError::LostClusters { count: tally.lost as u64, first }.anomaly_of(),
                    ),
                    None => found,
                };
                if stated > PERCENT_IN_USE_MAX && stated != PERCENT_IN_USE_UNKNOWN {
                    lost.with(ReadError::PercentInUseOutOfRange { stated }.anomaly_of())
                } else if stated != actual && stated != PERCENT_IN_USE_UNKNOWN {
                    lost.with(
                        ReadError::PercentInUseStale {
                            stated,
                            in_use: tally.in_use as u64,
                            clusters: count,
                            actual,
                        }.anomaly_of(),
                    )
                } else {
                    lost
                }
            },
        }
    }

    /// A count that fails fails for every count further on.
    proof fn lemma_tally(self, bitmap: Resident, reached: Set<int>, n: int, more: int)
        requires
            0 <= n <= more,
        ensures
            self.tally(bitmap, reached, n) is Err ==> self.tally(bitmap, reached, more)
                == self.tally(bitmap, reached, n),
        decreases more - n,
    {
        if n < more {
            self.lemma_tally(bitmap, reached, n, more - 1);
        }
    }
}

/// What is found once deviations are added one after another.
pub open spec fn with_all(found: FindingsView, anomalies: Seq<AnomalyView>, n: int) -> FindingsView
    decreases n,
{
    if n <= 0 {
        found
    } else {
        with_all(found, anomalies, n - 1).with(anomalies[n - 1])
    }
}

impl<'a> Reader<'a> {
    /// What a check of the whole volume finds.
    pub open spec fn scanned(&self) -> FindingsView {
        let none = FindingsView {
            kept: Seq::empty(),
            limit: self.taken_on().max_findings as int,
            truncated: false,
        };
        let opened = with_all(none, self.remarks(), self.remarks().len() as int);
        let tree = self.tree_scanned(self.head_scanned(opened));
        match tree.reached {
            None => tree.found,
            Some(reached) => self.vol().allocation_scanned(
                self.bitmap(),
                self.main_boot(),
                reached,
                tree.found,
            ),
        }
    }
}

impl<'a> Reader<'a> {
    /// Check the two entries at the head of the table.
    fn scan_table_head(&self, findings: &mut Findings)
        requires
            self.wf(),
        ensures
            final(findings)@ == self.head_scanned(old(findings)@),
    {
        let first: u32 = self.head_entry(0);
        let second: u32 = self.head_entry(1);
        if first != FAT_ENTRY_MEDIA {
            findings.push(
                ReadError::BadReservedEntry {
                    index: 0,
                    found: first,
                    expected: FAT_ENTRY_MEDIA,
                }.anomaly(),
            );
        }
        if second != FAT_ENTRY_RESERVED {
            findings.push(
                ReadError::BadReservedEntry {
                    index: 1,
                    found: second,
                    expected: FAT_ENTRY_RESERVED,
                }.anomaly(),
            );
        }
    }

    /// One of the two entries at the head of the table.
    fn head_entry(&self, index: u32) -> (entry: u32)
        requires
            self.wf(),
            index < FIRST_CLUSTER,
        ensures
            entry == self.vol().table(index as int),
    {
        let volume = self.volume();
        let ghost vol = volume@;
        let sector = volume.read_sectors(volume.layout.fat_offset as u64, 1);
        proof {
            vol.lemma_table_lies_inside(index as int);
            let size = vol.layout.bytes_per_sector as int;
            let first = vol.layout.fat_offset as int;
            let heap = vol.layout.cluster_heap_offset as int;
            assert((first + 1) * size == first * size + size && (first + 1) * size <= heap * size
                && 0 <= first * size) by (nonlinear_arith)
                requires
                    0 <= first,
                    first + 1 <= heap,
                    size > 0,
            ;
            assert(1 * size == size);
            assert(sector@.subrange(4 * index as int, 4 * index + 4) =~= vol.bytes.subrange(
                vol.layout.fat_byte_of(index as int),
                vol.layout.fat_byte_of(index as int) + 4,
            ));
        }
        get_u32(sector, 4 * index as usize)
    }

    /// Add the names of the directory at `prefix` to those to be checked. Returns how many have
    /// been met, or nothing where there are more than a check takes on.
    fn enqueue(
        &self,
        entries: Vec<Entry>,
        prefix: &[u8],
        queue: &mut Vec<WalkEntry>,
        visited: &mut ClusterSet,
        names: usize,
    ) -> (r: Option<usize>)
        requires
            self.wf(),
            old(visited).wf(),
            old(visited).count() == self.vol().layout.cluster_count,
            names <= name_cap(self.taken_on(), self.vol().layout),
        ensures
            final(visited).wf(),
            final(visited).count() == old(visited).count(),
            ({
                let after = self.enqueued(
                    named_views(entries@),
                    0,
                    prefix@,
                    walked_views(old(queue)@),
                    old(visited)@,
                    names as int,
                );
                match r {
                    None => after.over,
                    Some(count) => {
                        &&& !after.over
                        &&& count == after.names
                        &&& walked_views(final(queue)@) == after.queue
                        &&& final(visited)@ == after.visited
                    },
                }
            }),
    {
        let cap: usize = self.cap();
        let ghost all = named_views(entries@);
        let ghost want = self.enqueued(
            all,
            0,
            prefix@,
            walked_views(queue@),
            visited@,
            names as int,
        );
        let mut count: usize = names;
        let mut k: usize = 0;
        while k < entries.len()
            invariant
                self.wf(),
                k <= entries@.len(),
                all == named_views(entries@),
                cap == name_cap(self.taken_on(), self.vol().layout),
                count <= cap,
                visited.wf(),
                visited.count() == old(visited).count(),
                visited.count() == self.vol().layout.cluster_count,
                want == self.enqueued(
                    all,
                    0,
                    prefix@,
                    walked_views(old(queue)@),
                    old(visited)@,
                    names as int,
                ),
                want == self.enqueued(
                    all,
                    k as int,
                    prefix@,
                    walked_views(queue@),
                    visited@,
                    count as int,
                ),
            decreases entries@.len() - k,
        {
            assert(all[k as int] == entries@[k as int]@);
            if count >= cap {
                return None;
            }
            count += 1;
            let node = entries[k].node;
            let ghost seen = visited@;
            let descend: bool = match node.storage.first_cluster() {
                None => false,
                Some(first) => !node.is_dir() || visited.insert(first),
            };
            assert(visited@ =~= self.having_met(node, seen));
            assert(descend == self.to_check(node, seen));
            if descend {
                let ghost before = walked_views(queue@);
                let mut path: Vec<u8> = Vec::new();
                push_all(&mut path, prefix);
                path.push(SLASH);
                push_all(&mut path, &entries[k].name);
                assert(path@ =~= child_path(prefix@, all[k as int].name));
                queue.push(WalkEntry { path, node });
                assert(walked_views(queue@) =~= before.push(
                    Walked { path: child_path(prefix@, all[k as int].name), node },
                ));
            }
            k += 1;
        }
        Some(count)
    }

    /// Check the tree. Returns whether all of it was checked.
    fn scan_tree(&self, scan: &mut Scan<'_, 'a>) -> (whole: bool)
        requires
            self.wf(),
            old(scan).wf(),
            old(scan).vol() == self.vol(),
            old(scan).bitmap == self.bitmap(),
            old(scan).reached@ == Set::<int>::empty(),
        ensures
            final(scan).wf(),
            final(scan).same(old(scan)),
            ({
                let done = self.tree_scanned(old(scan).findings@);
                &&& whole == (done.reached is Some)
                &&& final(scan).findings@ == done.found
                &&& whole ==> final(scan).reached@ == done.reached->Some_0
            }),
    {
        let ghost want = self.tree_scanned(scan.findings@);
        let ghost cap = name_cap(self.taken_on(), self.vol().layout);
        let none: Vec<u8> = Vec::new();
        assert(none@ =~= Seq::empty());
        assert(scan.state() == (Claimed { reached: Set::empty(), found: scan.findings@ }));
        let bitmap = self.bitmap_at();
        let layout = self.layout();
        proof {
            self.lemma_sound();
        }
        scan.claim_stream(Storage::Chain(bitmap.first_cluster), bitmap.bytes, &none);
        scan.claim_stream(Storage::Chain(layout.upcase_cluster), layout.upcase_bytes, &none);
        let root = self.root();
        scan.claim_stream(Storage::Chain(layout.first_cluster_of_root), root.data_length, &none);
        let mut visited = ClusterSet::new(layout.cluster_count);
        visited.insert(layout.first_cluster_of_root);
        let mut queue: Vec<WalkEntry> = Vec::new();
        queue.push(WalkEntry { path: Vec::new(), node: root });
        let mut names: usize = 0;
        proof {
            assert(walked_views(queue@) =~= seq![
                Walked { path: Seq::empty(), node: self.root_node() },
            ]);
            assert(visited@ =~= Set::empty().insert(layout.first_cluster_of_root as int));
        }
        while queue.len() > 0
            invariant
                self.wf(),
                scan.wf(),
                scan.same(old(scan)),
                scan.vol() == self.vol(),
                scan.bitmap == self.bitmap(),
                visited.wf(),
                visited.count() == self.vol().layout.cluster_count,
                cap == name_cap(self.taken_on(), self.vol().layout),
                names <= cap,
                want == self.tree_scanned(old(scan).findings@),
                want == self.tree_scan(
                    TreeScan {
                        queue: walked_views(queue@),
                        visited: visited@,
                        names: names as int,
                        state: scan.state(),
                    },
                ),
            decreases 2 * (cap - names) + queue@.len(),
        {
            let ghost was = walked_views(queue@);
            if scan.findings.is_full() {
                return false;
            }
            let item = queue.pop().unwrap();
            assert(walked_views(queue@) =~= was.drop_last());
            assert(item@ == was.last());
            let is_dir: bool = item.node.is_dir();
            if !is_dir || item.path.len() > 0 {
                scan.claim_stream(item.node.storage, item.node.data_length, &item.path);
            }
            if is_dir {
                let ghost state = scan.state();
                let mut findings = Findings::new(0);
                core::mem::swap(&mut scan.findings, &mut findings);
                let mut deviations = Deviations::collecting(findings);
                let parsed = self.parse(&item.node, &mut deviations);
                let ghost read = self.directory(item.node);
                assert(Seq::<Noted>::empty() + read.log =~= read.log);
                scan.findings = deviations.into_findings();
                assert(scan.findings@ == collected(state.found, read.log));
                match parsed {
                    Err(e) => {
                        let too_large: bool = matches!(e, ReadError::WalkTooLarge { .. });
                        scan.findings.push(e.anomaly());
                        if too_large {
                            return false;
                        }
                    },
                    Ok(entries) => {
                        proof {
                            self.lemma_enqueued(
                                named_views(entries@),
                                0,
                                item.path@,
                                walked_views(queue@),
                                visited@,
                                names as int,
                            );
                        }
                        match self.enqueue(entries, &item.path, &mut queue, &mut visited, names) {
                            None => {
                                let cap: usize = self.cap();
                                scan.findings.push(
                                    ReadError::WalkTooLarge { limit: cap }.anomaly(),
                                );
                                return false;
                            },
                            Some(count) => {
                                names = count;
                            },
                        }
                    },
                }
            }
        }
        true
    }

    /// Check the clusters no stream has, and the percentage the volume states.
    fn scan_allocation(&self, scan: &mut Scan<'_, 'a>)
        requires
            self.wf(),
            old(scan).wf(),
            old(scan).vol() == self.vol(),
            old(scan).bitmap == self.bitmap(),
        ensures
            final(scan).findings@ == self.vol().allocation_scanned(
                self.bitmap(),
                self.main_boot(),
                old(scan).reached@,
                old(scan).findings@,
            ),
    {
        let ghost vol = self.vol();
        let ghost reached = scan.reached@;
        let bitmap = self.bitmap_at();
        let count: u32 = self.layout().cluster_count;
        let mut in_use: u32 = 0;
        let mut lost: u32 = 0;
        let mut first: Option<u32> = None;
        let mut n: u32 = 0;
        proof {
            self.lemma_sound();
        }
        while n < count
            invariant
                self.wf(),
                scan.wf(),
                scan.vol() == vol,
                vol == self.vol(),
                vol.wf(),
                bitmap == self.bitmap(),
                count == vol.layout.cluster_count,
                n <= count,
                in_use <= n,
                lost <= n,
                scan.reached@ == reached,
                reached == old(scan).reached@,
                scan.findings@ == old(scan).findings@,
                vol.tally(bitmap, reached, n as int) == Ok::<Tally, ReadError>(
                    Tally { in_use: in_use as int, lost: lost as int, first },
                ),
            decreases count - n,
        {
            let cluster: u32 = FIRST_CLUSTER + n;
            proof {
                vol.lemma_tally(bitmap, reached, n + 1, count as int);
            }
            match scan.volume.is_allocated(&mut scan.cursor, bitmap, cluster) {
                Err(e) => {
                    scan.findings.push(e.anomaly());
                    return;
                },
                Ok(allocated) => {
                    if allocated {
                        in_use += 1;
                        if !scan.reached.contains(cluster) {
                            lost += 1;
                            if first.is_none() {
                                first = Some(cluster);
                            }
                        }
                    }
                },
            }
            n += 1;
        }
        if let Some(first) = first {
            scan.findings.push(ReadError::LostClusters { count: lost as u64, first }.anomaly());
        }
        let stated: u8 = self.boot_sector().percent_in_use;
        let actual: u8 = percent_in_use(in_use, count);
        if stated > PERCENT_IN_USE_MAX && stated != PERCENT_IN_USE_UNKNOWN {
            scan.findings.push(ReadError::PercentInUseOutOfRange { stated }.anomaly());
        } else if stated != actual && stated != PERCENT_IN_USE_UNKNOWN {
            scan.findings.push(
                ReadError::PercentInUseStale {
                    stated,
                    in_use: in_use as u64,
                    clusters: count,
                    actual,
                }.anomaly(),
            );
        }
    }

    /// Check the whole volume: what opening remarked on, the head of the table, every directory
    /// and every cluster of the tree, and the bitmap against both.
    #[must_use]
    pub fn scan(&self) -> (report: ScanReport)
        requires
            self.wf(),
        ensures
            report@ == self.scanned().kept,
            report.is_truncated() == self.scanned().truncated,
            report.sector_size() == self.vol().layout.bytes_per_sector,
    {
        let mut findings = Findings::new(self.limits().max_findings);
        let ghost none = findings@;
        let opened = self.open_anomalies();
        let ghost remarks = self.remarks();
        let mut i: usize = 0;
        while i < opened.len()
            invariant
                i <= opened@.len(),
                anomaly_views(opened@) == remarks,
                findings@ == with_all(none, remarks, i as int),
            decreases opened@.len() - i,
        {
            assert(remarks[i as int] == opened@[i as int]@);
            findings.push(opened[i].copied());
            i += 1;
        }
        assert(anomaly_views(opened@).len() == opened@.len());
        self.scan_table_head(&mut findings);
        proof {
            self.lemma_sound();
        }
        let mut scan = Scan {
            volume: self.volume(),
            bitmap: self.bitmap_at(),
            reached: ClusterSet::new(self.layout().cluster_count),
            findings,
            cursor: ChainCursor::new(),
        };
        let whole: bool = self.scan_tree(&mut scan);
        if whole {
            self.scan_allocation(&mut scan);
        }
        scan.findings.into_report(self.layout().bytes_per_sector)
    }
}

} // verus!
