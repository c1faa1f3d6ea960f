//! What a check that finds nothing shows: whose each cluster is.
use vstd::prelude::*;

use crate::boot::{percentage, MainBootSector};
use crate::deviation::{collected, Noted};
use crate::finding::{AnomalyView, Category, FindingsView, Location, Severity};
use crate::node::{Named, Node};
use crate::number::ceil_div;
use crate::read_error::ReadError;
use crate::reader::{name_cap, Reader};
use crate::scan::{about, loop_text, with_all, Claimed, TreeScan};
use crate::volume::{lemma_stream_at, Resident, Storage, Vol};
use crate::walk::{child_path, Walked};

verus! {

impl Vol {
    /// Whether a stream of `bytes` bytes has cluster `c`.
    pub open spec fn occupies(self, storage: Storage, bytes: u64, c: int) -> bool {
        exists|i: int|
            0 <= i < ceil_div(bytes as int, self.per()) && #[trigger] self.is_cluster(
                storage,
                i,
                c,
            )
    }

    /// Whether cluster `i` of a stream is `c`.
    pub open spec fn is_cluster(self, storage: Storage, i: int, c: int) -> bool {
        self.stream_at(storage, i) matches Ok(Some(found)) && found == c
    }

    /// Whether a stream can be followed to its end, and the bitmap read for each of its clusters.
    pub open spec fn is_whole(self, bitmap: Resident, storage: Storage, bytes: u64) -> bool {
        forall|i: int|
            0 <= i < ceil_div(bytes as int, self.per()) ==> {
                &&& #[trigger] self.stream_at(storage, i) matches Ok(Some(cluster))
                &&& self.allocated(bitmap, cluster) is Ok
            }
    }
}

/// Whether a finding is that cluster `c` is claimed by more than one stream, or twice by one.
pub open spec fn tells_of(finding: AnomalyView, path: Seq<u8>, start: u32, c: u32) -> bool {
    let shared = AnomalyView {
        severity: Severity::Integrity,
        category: Category::AllocationBitmap,
        location: Location { sector: None, cluster: Some(c), entry: None },
        detail: ReadError::CrossLinkedCluster { cluster: c }.text(),
    };
    ||| finding == about(path, shared)
    ||| finding == about(path, AnomalyView { detail: loop_text(start, c), ..shared })
}

/// Whether a finding is that some cluster is claimed twice.
pub open spec fn is_cross_link(finding: AnomalyView) -> bool {
    exists|path: Seq<u8>, start: u32, c: u32| #[trigger] tells_of(finding, path, start, c)
}

/// Whether no finding is that a cluster is claimed twice.
pub open spec fn no_cross_link(findings: Seq<AnomalyView>) -> bool {
    forall|k: int| 0 <= k < findings.len() ==> !is_cross_link(#[trigger] findings[k])
}

/// Whether what was found is what had been found before, and more behind it.
spec fn grows(before: FindingsView, after: FindingsView) -> bool {
    &&& after.limit == before.limit
    &&& before.kept.len() <= after.kept.len()
    &&& after.kept.take(before.kept.len() as int) == before.kept
}

/// What grows to something that grows to something grows to that.
proof fn lemma_grows(a: FindingsView, b: FindingsView, c: FindingsView)
    requires
        grows(a, b),
        grows(b, c),
    ensures
        grows(a, c),
{
    assert(c.kept.take(a.kept.len() as int) =~= b.kept.take(a.kept.len() as int)) by {
        assert forall|i: int| 0 <= i < a.kept.len() implies c.kept[i] == b.kept[i] by {
            assert(c.kept.take(b.kept.len() as int)[i] == b.kept[i]);
        }
    }
}

/// One more finding is behind those before it.
proof fn lemma_with_grows(found: FindingsView, anomaly: AnomalyView)
    ensures
        grows(found, found),
        grows(found, found.with(anomaly)),
        !found.full() ==> found.with(anomaly).kept.last() == anomaly,
{
    assert(found.kept.take(found.kept.len() as int) =~= found.kept);
    assert(found.with(anomaly).kept.take(found.kept.len() as int) =~= found.kept);
}

/// What has been found says of no cluster that it is claimed twice, where what is found later
/// says of none.
proof fn lemma_no_cross_link_before(a: FindingsView, b: FindingsView)
    requires
        grows(a, b),
        no_cross_link(b.kept),
    ensures
        no_cross_link(a.kept),
{
    assert forall|k: int| 0 <= k < a.kept.len() implies !is_cross_link(#[trigger] a.kept[k]) by {
        assert(b.kept.take(a.kept.len() as int)[k] == b.kept[k]);
    }
}

/// The deviations of a list are behind those before it.
proof fn lemma_collected_grows(found: FindingsView, log: Seq<Noted>)
    ensures
        grows(found, collected(found, log)),
    decreases log.len(),
{
    if log.len() > 0 {
        let before = collected(found, log.drop_last());
        lemma_collected_grows(found, log.drop_last());
        lemma_with_grows(before, log.last().anomaly());
        lemma_grows(found, before, collected(found, log));
    } else {
        assert(found.kept.take(found.kept.len() as int) =~= found.kept);
    }
}

/// Where nothing was collected, there was nothing to collect.
proof fn lemma_nothing_collected(found: FindingsView, log: Seq<Noted>)
    requires
        0 < found.limit,
        collected(found, log).kept.len() == 0,
    ensures
        log.len() == 0,
{
    if log.len() > 0 {
        let before = collected(found, log.drop_last());
        lemma_collected_grows(found, log.drop_last());
        lemma_with_grows(before, log.last().anomaly());
    }
}

/// What claiming a stream finds is behind what had been found.
proof fn lemma_claim_grows(
    vol: Vol,
    bitmap: Resident,
    storage: Storage,
    bytes: u64,
    path: Seq<u8>,
    index: int,
    state: Claimed,
)
    ensures
        grows(state.found, vol.claim(bitmap, storage, bytes, path, index, state).found),
    decreases ceil_div(bytes as int, vol.per()) - index,
{
    let after = vol.claim(bitmap, storage, bytes, path, index, state);
    assert(state.found.kept.take(state.found.kept.len() as int) =~= state.found.kept);
    if index < ceil_div(bytes as int, vol.per()) {
        match vol.stream_at(storage, index) {
            Ok(None) => {
                lemma_with_grows(state.found, vol.too_short(storage, bytes, index).anomaly_of());
            },
            Err(e) => {
                lemma_with_grows(state.found, about(path, e.anomaly_of()));
            },
            Ok(Some(cluster)) => {
                if state.reached.contains(cluster as int) {
                    lemma_with_grows(state.found, vol.shared(storage, index, cluster, path));
                } else {
                    let reached = state.reached.insert(cluster as int);
                    match vol.allocated(bitmap, cluster) {
                        Err(e) => {
                            lemma_with_grows(state.found, e.anomaly_of());
                        },
                        Ok(in_use) => {
                            let missing = ReadError::ClusterNotAllocated { cluster }.anomaly_of();
                            lemma_with_grows(state.found, missing);
                            let found = if in_use {
                                state.found
                            } else {
                                state.found.with(missing)
                            };
                            if !found.full() {
                                let next = Claimed { reached, found };
                                lemma_claim_grows(
                                    vol,
                                    bitmap,
                                    storage,
                                    bytes,
                                    path,
                                    index + 1,
                                    next,
                                );
                                lemma_grows(state.found, found, after.found);
                            }
                        },
                    }
                }
            },
        }
    }
}

/// Claiming a stream whose clusters are held against those reached before says of one that it is
/// claimed twice, or else reaches each of them for the first time; and where it finds nothing at
/// all, the stream can be followed to its end and the bitmap calls each of its clusters in use.
#[verifier::rlimit(40)]
proof fn lemma_claim(
    vol: Vol,
    bitmap: Resident,
    storage: Storage,
    bytes: u64,
    path: Seq<u8>,
    index: int,
    state: Claimed,
)
    requires
        0 <= index,
        ({
            let after = vol.claim(bitmap, storage, bytes, path, index, state);
            &&& !after.found.full()
            &&& no_cross_link(after.found.kept)
            &&& vol.is_whole(bitmap, storage, bytes) || after.found.kept.len() == 0
        }),
    ensures
        ({
            let after = vol.claim(bitmap, storage, bytes, path, index, state);
            let count = ceil_div(bytes as int, vol.per());
            &&& state.reached.subset_of(after.reached)
            &&& forall|i: int|
                index <= i < count ==> {
                    &&& #[trigger] vol.stream_at(storage, i) matches Ok(Some(cluster))
                    &&& !state.reached.contains(cluster as int)
                    &&& after.reached.contains(cluster as int)
                    &&& after.found.kept.len() == 0 ==> vol.allocated(bitmap, cluster) == Ok::<
                        bool,
                        ReadError,
                    >(true)
                }
            &&& forall|i: int, j: int|
                index <= i < j < count ==> #[trigger] vol.stream_at(storage, i)
                    != #[trigger] vol.stream_at(storage, j)
            &&& forall|c: int|
                after.reached.contains(c) ==> state.reached.contains(c) || exists|i: int|
                    index <= i < count && #[trigger] vol.is_cluster(storage, i, c)
        }),
    decreases ceil_div(bytes as int, vol.per()) - index,
{
    let after = vol.claim(bitmap, storage, bytes, path, index, state);
    let count = ceil_div(bytes as int, vol.per());
    if index < count {
        lemma_claim_grows(vol, bitmap, storage, bytes, path, index, state);
        assert(!state.found.full());
        match vol.stream_at(storage, index) {
            Ok(None) => {
                lemma_with_grows(state.found, vol.too_short(storage, bytes, index).anomaly_of());
                assert(false);
            },
            Err(e) => {
                lemma_with_grows(state.found, about(path, e.anomaly_of()));
                assert(false);
            },
            Ok(Some(cluster)) => {
                if state.reached.contains(cluster as int) {
                    let finding = vol.shared(storage, index, cluster, path);
                    reveal(ReadError::severity_of);
                    reveal(ReadError::category_of);
                    reveal(ReadError::location_of);
                    assert(tells_of(finding, path, storage.first_or_zero(), cluster));
                    lemma_with_grows(state.found, finding);
                    assert(after.found.kept[after.found.kept.len() - 1] == finding);
                    assert(is_cross_link(after.found.kept[after.found.kept.len() - 1]));
                    assert(false);
                }
                let reached = state.reached.insert(cluster as int);
                match vol.allocated(bitmap, cluster) {
                    Err(e) => {
                        lemma_with_grows(state.found, e.anomaly_of());
                        assert(false);
                    },
                    Ok(in_use) => {
                        let missing = ReadError::ClusterNotAllocated { cluster }.anomaly_of();
                        lemma_with_grows(state.found, missing);
                        let found = if in_use {
                            state.found
                        } else {
                            state.found.with(missing)
                        };
                        let next = Claimed { reached, found };
                        if found.full() {
                            assert(false);
                        }
                        lemma_claim_grows(vol, bitmap, storage, bytes, path, index + 1, next);
                        lemma_claim(vol, bitmap, storage, bytes, path, index + 1, next);
                        assert forall|i: int| index <= i < count implies {
                            &&& #[trigger] vol.stream_at(storage, i) matches Ok(Some(cluster))
                            &&& !state.reached.contains(cluster as int)
                            &&& after.reached.contains(cluster as int)
                            &&& after.found.kept.len() == 0 ==> vol.allocated(bitmap, cluster)
                                == Ok::<bool, ReadError>(true)
                        } by {
                            if i == index {
                                assert(next.reached.contains(cluster as int));
                            }
                        }
                        assert forall|i: int, j: int| index <= i < j < count implies
                            #[trigger] vol.stream_at(storage, i) != #[trigger] vol.stream_at(
                            storage,
                            j,
                        ) by {
                            if i == index {
                                assert(next.reached.contains(cluster as int));
                            }
                        }
                        assert forall|c: int| after.reached.contains(c) implies
                            state.reached.contains(c) || exists|i: int|
                            index <= i < count && #[trigger] vol.is_cluster(storage, i, c) by {
                            if !state.reached.contains(c) {
                                if c == cluster {
                                    assert(vol.is_cluster(storage, index, c));
                                } else {
                                    assert(!next.reached.contains(c));
                                    let i = choose|i: int|
                                        index + 1 <= i < count && #[trigger] vol.is_cluster(
                                            storage,
                                            i,
                                            c,
                                        );
                                    assert(vol.is_cluster(storage, i, c));
                                }
                            }
                        }
                    },
                }
            },
        }
    }
}

/// What claiming a stream that says of no cluster that it is claimed twice comes to.
proof fn lemma_claimed(
    vol: Vol,
    bitmap: Resident,
    storage: Storage,
    bytes: u64,
    path: Seq<u8>,
    state: Claimed,
)
    requires
        ({
            let after = vol.claimed(bitmap, storage, bytes, path, state);
            &&& !after.found.full()
            &&& no_cross_link(after.found.kept)
            &&& vol.is_whole(bitmap, storage, bytes) || after.found.kept.len() == 0
        }),
    ensures
        ({
            let after = vol.claimed(bitmap, storage, bytes, path, state);
            &&& state.reached.subset_of(after.reached)
            &&& forall|c: int| #[trigger]
                vol.occupies(storage, bytes, c) ==> !state.reached.contains(c)
                    && after.reached.contains(c) && (after.found.kept.len() == 0 ==> vol.allocated(
                    bitmap,
                    c as u32,
                ) == Ok::<bool, ReadError>(true) && 0 <= c <= u32::MAX)
            &&& forall|c: int|
                after.reached.contains(c) ==> state.reached.contains(c) || #[trigger] vol.occupies(
                    storage,
                    bytes,
                    c,
                )
            &&& after.found.kept.len() == 0 && storage.first() is Some ==> vol.is_whole(
                bitmap,
                storage,
                bytes,
            )
        }),
{
    let after = vol.claimed(bitmap, storage, bytes, path, state);
    let count = ceil_div(bytes as int, vol.per());
    if storage.first() is None {
        assert forall|c: int| !#[trigger] vol.occupies(storage, bytes, c) by {
            if vol.occupies(storage, bytes, c) {
                let i = choose|i: int| 0 <= i < count && #[trigger] vol.is_cluster(storage, i, c);
                assert(false);
            }
        }
    } else {
        lemma_claim(vol, bitmap, storage, bytes, path, 0, state);
        assert forall|c: int| #[trigger] vol.occupies(storage, bytes, c) implies
            !state.reached.contains(c) && after.reached.contains(c) && (after.found.kept.len() == 0
            ==> vol.allocated(bitmap, c as u32) == Ok::<bool, ReadError>(true) && 0 <= c
            <= u32::MAX) by {
            let i = choose|i: int| 0 <= i < count && #[trigger] vol.is_cluster(storage, i, c);
            assert(vol.stream_at(storage, i) is Ok);
        }
    }
}

impl<'a> Reader<'a> {
    /// What is at a place of the tree: the root, or the entry of this number of the directory at
    /// the place before.
    pub open spec fn node_at(&self, at: Seq<int>) -> Option<Node>
        decreases at.len(),
    {
        if at.len() == 0 {
            Some(self.root_node())
        } else {
            match self.node_at(at.drop_last()) {
                None => None,
                Some(dir) => if !dir.directory() {
                    None
                } else {
                    match self.directory(dir).entries {
                        Err(_) => None,
                        Ok(entries) => if 0 <= at.last() < entries.len() {
                            Some(entries[at.last()].node)
                        } else {
                            None
                        },
                    }
                },
            }
        }
    }

    /// Whether the stream of what is at a place of the tree has a cluster.
    pub open spec fn has_at(&self, at: Seq<int>, c: int) -> bool {
        match self.node_at(at) {
            None => false,
            Some(node) => self.vol().occupies(node.storage, node.data_length, c),
        }
    }

    /// Whether a directory at a place of the tree begins on a cluster.
    pub open spec fn dir_begins(&self, at: Seq<int>, first: u32) -> bool {
        match self.node_at(at) {
            None => false,
            Some(node) => node.directory() && node.storage.first() == Some(first),
        }
    }

    /// Whether no two directories of the tree begin on one cluster.
    pub open spec fn dirs_apart(&self) -> bool {
        forall|a: Seq<int>, b: Seq<int>, first: u32| #[trigger]
            self.dir_begins(a, first) && #[trigger] self.dir_begins(b, first) ==> a == b
    }

    /// Whether every stream of the tree can be followed to its end, and the bitmap read for it.
    pub open spec fn all_whole(&self) -> bool {
        forall|at: Seq<int>| #[trigger]
            self.node_at(at) matches Some(node) ==> self.vol().is_whole(
                self.bitmap(),
                node.storage,
                node.data_length,
            )
    }

    /// Whether what is at a place of the tree reads without a remark: its stream can be followed to
    /// its end, and where it is a directory nothing is wrong with its entries.
    pub open spec fn reads_well(&self, at: Seq<int>) -> bool {
        match self.node_at(at) {
            None => true,
            Some(node) => {
                &&& node.storage.first() is Some ==> self.vol().is_whole(
                    self.bitmap(),
                    node.storage,
                    node.data_length,
                )
                &&& node.directory() ==> self.directory(node).log.len() == 0 && self.directory(
                    node,
                ).entries is Ok
            },
        }
    }

    /// Whether a place of the tree has been met: it was checked, or it is to be, or it is the
    /// root.
    spec fn met(&self, at: Seq<int>, checked: Set<Seq<int>>, places: Seq<Seq<int>>) -> bool {
        at.len() == 0 || checked.contains(at) || places.contains(at)
    }

    /// Whether a place is met where one is that has clusters.
    spec fn child_met(
        &self,
        at: Seq<int>,
        k: int,
        checked: Set<Seq<int>>,
        places: Seq<Seq<int>>,
    ) -> bool {
        self.node_at(at.push(k)) matches Some(node) && node.storage.first() is Some ==> self.met(
            at.push(k),
            checked,
            places,
        )
    }

    /// Whether the places to be checked are what is queued, and with those that were checked they
    /// are a part of the tree.
    #[verifier::opaque]
    spec fn laid(
        &self,
        queue: Seq<Walked>,
        visited: Set<int>,
        checked: Set<Seq<int>>,
        places: Seq<Seq<int>>,
    ) -> bool {
        &&& places.len() == queue.len()
        &&& places.no_duplicates()
        &&& forall|i: int|
            0 <= i < places.len() ==> {
                &&& !checked.contains(#[trigger] places[i])
                &&& places[i].len() > 0
                &&& queue[i].path.len() > 0
                &&& self.node_at(places[i]) == Some(queue[i].node)
            }
        &&& forall|at: Seq<int>| #[trigger]
            checked.contains(at) ==> at.len() > 0 && self.node_at(at) is Some
        &&& forall|at: Seq<int>| #[trigger]
            self.met(at, checked, places) ==> at.len() == 0 || at.len() == 1 || checked.contains(
                at.drop_last(),
            )
        &&& forall|c: int| #[trigger]
            visited.contains(c) ==> 0 <= c <= u32::MAX && exists|at: Seq<int>|
                self.met(at, checked, places) && #[trigger] self.dir_begins(at, c as u32)
    }

    /// Whether every entry with clusters of a directory that was checked, and of the root, has
    /// been met.
    #[verifier::opaque]
    spec fn closed_under(&self, checked: Set<Seq<int>>, places: Seq<Seq<int>>) -> bool {
        forall|at: Seq<int>, k: int|
            (at.len() == 0 || checked.contains(at)) ==> #[trigger] self.child_met(
                at,
                k,
                checked,
                places,
            )
    }

    /// Whether the clusters reached are those of the places checked, each of one of them alone,
    /// and those reached before.
    #[verifier::opaque]
    spec fn owned(
        &self,
        base: Set<int>,
        reached: Set<int>,
        checked: Set<Seq<int>>,
        clean: bool,
    ) -> bool {
        &&& base.subset_of(reached)
        &&& forall|at: Seq<int>, c: int|
            checked.contains(at) && #[trigger] self.has_at(at, c) ==> {
                &&& reached.contains(c)
                &&& !base.contains(c)
                &&& clean ==> 0 <= c <= u32::MAX && self.vol().allocated(self.bitmap(), c as u32)
                    == Ok::<bool, ReadError>(true)
            }
        &&& forall|a: Seq<int>, b: Seq<int>, c: int|
            checked.contains(a) && checked.contains(b) && #[trigger] self.has_at(a, c)
                && #[trigger] self.has_at(b, c) ==> a == b
        &&& forall|c: int|
            reached.contains(c) ==> base.contains(c) || exists|at: Seq<int>|
                checked.contains(at) && #[trigger] self.has_at(at, c)
    }

    /// Meeting the entries of a directory from `k` on meets each that has clusters.
    proof fn lemma_enqueued_is_laid(
        &self,
        at: Seq<int>,
        entries: Seq<Named>,
        k: int,
        prefix: Seq<u8>,
        queue: Seq<Walked>,
        visited: Set<int>,
        names: int,
        checked: Set<Seq<int>>,
        places: Seq<Seq<int>>,
    ) -> (more: Seq<Seq<int>>)
        requires
            self.dirs_apart(),
            at.len() == 0 || checked.contains(at),
            self.node_at(at) matches Some(dir) && dir.directory() && self.directory(dir).entries
                == Ok::<Seq<Named>, ReadError>(entries),
            0 <= k,
            self.laid(queue, visited, checked, places),
            forall|j: int| k <= j ==> !self.met(#[trigger] at.push(j), checked, places),
            forall|j: int| j < k ==> #[trigger] self.child_met(at, j, checked, places),
            !self.enqueued(entries, k, prefix, queue, visited, names).over,
        ensures
            ({
                let after = self.enqueued(entries, k, prefix, queue, visited, names);
                &&& self.laid(after.queue, after.visited, checked, more)
                &&& forall|p: Seq<int>| places.contains(p) ==> #[trigger] more.contains(p)
                &&& forall|j: int| #[trigger] self.child_met(at, j, checked, more)
            }),
        decreases entries.len() - k,
    {
        reveal(Reader::laid);
        if k >= entries.len() {
            assert forall|j: int| #[trigger] self.child_met(at, j, checked, places) by {
                if j >= k {
                    assert(at.push(j).drop_last() =~= at);
                    assert(self.node_at(at.push(j)) is None);
                }
            }
            places
        } else {
            let entry = entries[k];
            let node = entry.node;
            let here = at.push(k);
            assert(here.drop_last() =~= at);
            assert(here.last() == k);
            assert(self.node_at(here) == Some(node));
            let path = child_path(prefix, entry.name);
            let take = self.to_check(node, visited);
            let queue2 = if take {
                queue.push(Walked { path, node })
            } else {
                queue
            };
            let visited2 = self.having_met(node, visited);
            let places2 = if take {
                places.push(here)
            } else {
                places
            };
            assert(!self.met(here, checked, places));
            if node.directory() && node.storage.first() is Some && !take {
                let first = node.storage.first()->Some_0;
                let other = choose|p: Seq<int>|
                    self.met(p, checked, places) && #[trigger] self.dir_begins(p, first);
                assert(self.dir_begins(here, first));
                assert(false);
            }
            assert forall|p: Seq<int>| self.met(p, checked, places) implies #[trigger] self.met(
                p,
                checked,
                places2,
            ) by {
                if places.contains(p) {
                    let i = choose|i: int| 0 <= i < places.len() && places[i] == p;
                    assert(places2[i] == p);
                }
            }
            if take {
                assert(places2[places.len() as int] == here);
                assert(self.met(here, checked, places2));
            }
            assert forall|p: Seq<int>| #[trigger] self.met(p, checked, places2) implies self.met(
                p,
                checked,
                places,
            ) || p == here by {
                if places2.contains(p) {
                    let i = choose|i: int| 0 <= i < places2.len() && places2[i] == p;
                    if i < places.len() {
                        assert(places[i] == p);
                    }
                }
            }
            assert(self.laid(queue2, visited2, checked, places2)) by {
                assert(places2.no_duplicates()) by {
                    assert forall|i: int, j: int|
                        0 <= i < places2.len() && 0 <= j < places2.len() && i != j implies places2[i]
                        != places2[j] by {
                        if i < places.len() && j < places.len() {
                            assert(places[i] != places[j]);
                        } else if i < places.len() {
                            assert(places.contains(places[i]));
                        } else if j < places.len() {
                            assert(places.contains(places[j]));
                        }
                    }
                }
                assert forall|i: int| 0 <= i < places2.len() implies {
                    &&& !checked.contains(#[trigger] places2[i])
                    &&& places2[i].len() > 0
                    &&& queue2[i].path.len() > 0
                    &&& self.node_at(places2[i]) == Some(queue2[i].node)
                } by {
                    if i < places.len() {
                        assert(places2[i] == places[i]);
                    }
                }
                assert forall|p: Seq<int>| #[trigger] self.met(p, checked, places2) implies p.len()
                    == 0 || p.len() == 1 || checked.contains(p.drop_last()) by {
                    if p != here {
                        assert(self.met(p, checked, places));
                    }
                }
                assert forall|c: int| #[trigger] visited2.contains(c) implies 0 <= c <= u32::MAX
                    && exists|p: Seq<int>|
                    self.met(p, checked, places2) && #[trigger] self.dir_begins(p, c as u32) by {
                    if visited.contains(c) {
                        let p = choose|p: Seq<int>|
                            self.met(p, checked, places) && #[trigger] self.dir_begins(
                                p,
                                c as u32,
                            );
                        assert(self.met(p, checked, places2));
                    } else {
                        assert(self.dir_begins(here, c as u32));
                    }
                }
            }
            assert forall|j: int| k + 1 <= j implies !self.met(
                #[trigger] at.push(j),
                checked,
                places2,
            ) by {
                if self.met(at.push(j), checked, places2) {
                    assert(at.push(j).last() == j);
                    assert(self.met(at.push(j), checked, places));
                }
            }
            assert forall|j: int| j < k + 1 implies #[trigger] self.child_met(
                at,
                j,
                checked,
                places2,
            ) by {
                if j < k {
                    assert(self.child_met(at, j, checked, places));
                }
            }
            let more = self.lemma_enqueued_is_laid(
                at,
                entries,
                k + 1,
                prefix,
                queue2,
                visited2,
                names + 1,
                checked,
                places2,
            );
            assert forall|p: Seq<int>| places.contains(p) implies #[trigger] more.contains(p) by {
                let i = choose|i: int| 0 <= i < places.len() && places[i] == p;
                assert(places2[i] == p);
                assert(places2.contains(p));
            }
            more
        }
    }

    /// What checking the tree finds is behind what had been found.
    proof fn lemma_tree_grows(&self, scan: TreeScan)
        requires
            scan.names <= name_cap(self.taken_on(), self.vol().layout),
        ensures
            grows(scan.state.found, self.tree_scan(scan).found),
        decreases
            2 * (name_cap(self.taken_on(), self.vol().layout) - scan.names) + scan.queue.len(),
    {
        let start = scan.state.found;
        assert(start.kept.take(start.kept.len() as int) =~= start.kept);
        if scan.queue.len() > 0 && !start.full() {
            let end = self.tree_scan(scan).found;
            let item = scan.queue.last();
            let rest = scan.queue.drop_last();
            let node = item.node;
            lemma_claim_grows(
                self.vol(),
                self.bitmap(),
                node.storage,
                node.data_length,
                item.path,
                0,
                scan.state,
            );
            let state = if node.directory() && item.path.len() == 0 {
                scan.state
            } else {
                self.vol().claimed(
                    self.bitmap(),
                    node.storage,
                    node.data_length,
                    item.path,
                    scan.state,
                )
            };
            assert(grows(start, state.found));
            if !node.directory() {
                self.lemma_tree_grows(TreeScan { queue: rest, state, ..scan });
                lemma_grows(start, state.found, end);
            } else {
                let read = self.directory(node);
                let found = collected(state.found, read.log);
                lemma_collected_grows(state.found, read.log);
                lemma_grows(start, state.found, found);
                match read.entries {
                    Err(e) => {
                        lemma_with_grows(found, e.anomaly_of());
                        lemma_grows(start, found, found.with(e.anomaly_of()));
                        if !(e is WalkTooLarge) {
                            self.lemma_tree_grows(
                                TreeScan {
                                    queue: rest,
                                    state: Claimed { found: found.with(e.anomaly_of()), ..state },
                                    ..scan
                                },
                            );
                            lemma_grows(start, found.with(e.anomaly_of()), end);
                        }
                    },
                    Ok(entries) => {
                        self.lemma_enqueued(
                            entries,
                            0,
                            item.path,
                            rest,
                            scan.visited,
                            scan.names,
                        );
                        let after = self.enqueued(
                            entries,
                            0,
                            item.path,
                            rest,
                            scan.visited,
                            scan.names,
                        );
                        if after.over {
                            lemma_with_grows(found, self.too_many().anomaly_of());
                            lemma_grows(start, found, end);
                        } else {
                            self.lemma_tree_grows(
                                TreeScan {
                                    queue: after.queue,
                                    visited: after.visited,
                                    names: after.names,
                                    state: Claimed { found, ..state },
                                },
                            );
                            lemma_grows(start, found, end);
                        }
                    },
                }
            }
        }
    }
}

/// A stream of a volume.
pub enum Stream {
    /// The allocation bitmap.
    Bitmap,
    /// The up-case table.
    Upcase,
    /// What is at a place of the tree, the root among them.
    At(Seq<int>),
}

impl<'a> Reader<'a> {
    /// Whether a stream of the volume has a cluster.
    pub open spec fn has_cluster(&self, stream: Stream, c: int) -> bool {
        let vol = self.vol();
        match stream {
            Stream::Bitmap => vol.occupies(
                Storage::Chain(self.bitmap().first_cluster),
                self.bitmap().bytes,
                c,
            ),
            Stream::Upcase => vol.occupies(
                Storage::Chain(vol.layout.upcase_cluster),
                vol.layout.upcase_bytes,
                c,
            ),
            Stream::At(at) => self.has_at(at, c),
        }
    }

    /// Checking the tree to its end without saying of any cluster that it is claimed twice checks
    /// every place of it, and reaches the clusters of each for the first time.
    #[verifier::rlimit(60)]
    proof fn lemma_tree_is_owned(
        &self,
        scan: TreeScan,
        base: Set<int>,
        checked: Set<Seq<int>>,
        places: Seq<Seq<int>>,
    ) -> (all: Set<Seq<int>>)
        requires
            scan.names <= name_cap(self.taken_on(), self.vol().layout),
            self.dirs_apart(),
            self.laid(scan.queue, scan.visited, checked, places),
            self.closed_under(checked, places),
            self.tree_scan(scan).reached is Some,
            !self.tree_scan(scan).found.full(),
            no_cross_link(self.tree_scan(scan).found.kept),
            self.all_whole() || self.tree_scan(scan).found.kept.len() == 0,
            self.owned(
                base,
                scan.state.reached,
                checked,
                self.tree_scan(scan).found.kept.len() == 0,
            ),
            self.tree_scan(scan).found.kept.len() == 0 ==> forall|at: Seq<int>|
                checked.contains(at) ==> #[trigger] self.reads_well(at),
        ensures
            self.closed_under(all, Seq::empty()),
            self.owned(
                base,
                self.tree_scan(scan).reached->Some_0,
                all,
                self.tree_scan(scan).found.kept.len() == 0,
            ),
            forall|at: Seq<int>| #[trigger] all.contains(at) ==> at.len() > 0,
            self.tree_scan(scan).found.kept.len() == 0 ==> forall|at: Seq<int>|
                all.contains(at) ==> #[trigger] self.reads_well(at),
        decreases
            2 * (name_cap(self.taken_on(), self.vol().layout) - scan.names) + scan.queue.len(),
    {
        let done = self.tree_scan(scan);
        let clean = done.found.kept.len() == 0;
        self.lemma_tree_grows(scan);
        if scan.queue.len() == 0 {
            assert(places.len() == 0 && (forall|at: Seq<int>| #[trigger]
                checked.contains(at) ==> at.len() > 0)) by {
                reveal(Reader::laid);
            }
            assert(places =~= Seq::empty());
            checked
        } else {
            let item = scan.queue.last();
            let rest = scan.queue.drop_last();
            let node = item.node;
            let here = places.last();
            let checked2 = checked.insert(here);
            let places2 = places.drop_last();
            let vol = self.vol();
            let state = vol.claimed(
                self.bitmap(),
                node.storage,
                node.data_length,
                item.path,
                scan.state,
            );
            assert(places.len() == scan.queue.len() && item.path.len() > 0 && self.node_at(here)
                == Some(node) && !checked.contains(here) && here.len() > 0) by {
                reveal(Reader::laid);
                let last = places.len() - 1;
                assert(places[last] == here);
            }
            lemma_claim_grows(
                vol,
                self.bitmap(),
                node.storage,
                node.data_length,
                item.path,
                0,
                scan.state,
            );
            assert(scan.state.found.kept.take(scan.state.found.kept.len() as int)
                =~= scan.state.found.kept);
            assert(grows(scan.state.found, state.found));
            assert forall|at: Seq<int>| #[trigger] self.met(at, checked2, places2) <==> self.met(
                at,
                checked,
                places,
            ) by {
                if places.contains(at) {
                    let i = choose|i: int| 0 <= i < places.len() && places[i] == at;
                    if i < places2.len() {
                        assert(places2[i] == at);
                    }
                }
                if places2.contains(at) {
                    let i = choose|i: int| 0 <= i < places2.len() && places2[i] == at;
                    assert(places[i] == at);
                }
                if at == here {
                    assert(places[places.len() - 1] == at);
                }
            }
            self.lemma_laid_behind(scan.queue, scan.visited, checked, places);
            let read = self.directory(node);
            let found = if node.directory() {
                collected(state.found, read.log)
            } else {
                state.found
            };
            if node.directory() {
                lemma_collected_grows(state.found, read.log);
            }
            assert(grows(state.found, state.found)) by {
                lemma_with_grows(state.found, ReadError::VolumeDirty.anomaly_of());
            }
            if !node.directory() {
                let next = TreeScan { queue: rest, state, ..scan };
                self.lemma_tree_grows(next);
                self.lemma_owned_more(base, scan.state, state, item, checked, here, done.found);
                self.lemma_leaf(checked, places, here);
                if clean {
                    self.lemma_reads_well(scan.state, state, item, here);
                }
                self.lemma_tree_is_owned(next, base, checked2, places2)
            } else {
                match read.entries {
                    Err(e) => {
                        assert(!(e is WalkTooLarge));
                        let last = found.with(e.anomaly_of());
                        let next = TreeScan {
                            queue: rest,
                            state: Claimed { found: last, ..state },
                            ..scan
                        };
                        self.lemma_tree_grows(next);
                        lemma_with_grows(found, e.anomaly_of());
                        lemma_grows(state.found, found, last);
                        lemma_grows(state.found, last, done.found);
                        self.lemma_owned_more(base, scan.state, state, item, checked, here, done.found);
                        self.lemma_leaf(checked, places, here);
                        assert(!clean) by {
                            if clean {
                                assert(!found.full());
                            }
                        }
                        self.lemma_tree_is_owned(next, base, checked2, places2)
                    },
                    Ok(entries) => {
                        self.lemma_enqueued(
                            entries,
                            0,
                            item.path,
                            rest,
                            scan.visited,
                            scan.names,
                        );
                        let after = self.enqueued(
                            entries,
                            0,
                            item.path,
                            rest,
                            scan.visited,
                            scan.names,
                        );
                        assert(!after.over);
                        let next = TreeScan {
                            queue: after.queue,
                            visited: after.visited,
                            names: after.names,
                            state: Claimed { found, ..state },
                        };
                        self.lemma_tree_grows(next);
                        lemma_grows(state.found, found, done.found);
                        self.lemma_owned_more(base, scan.state, state, item, checked, here, done.found);
                        if clean {
                            self.lemma_reads_well(scan.state, state, item, here);
                        }
                        assert forall|j: int| 0 <= j implies !self.met(
                            #[trigger] here.push(j),
                            checked2,
                            places2,
                        ) by {
                            reveal(Reader::laid);
                            if self.met(here.push(j), checked, places) {
                                assert(here.push(j).drop_last() =~= here);
                                assert(false);
                            }
                        }
                        assert forall|j: int| j < 0 implies #[trigger] self.child_met(
                            here,
                            j,
                            checked2,
                            places2,
                        ) by {
                            assert(here.push(j).drop_last() =~= here);
                        }
                        let more = self.lemma_enqueued_is_laid(
                            here,
                            entries,
                            0,
                            item.path,
                            rest,
                            scan.visited,
                            scan.names,
                            checked2,
                            places2,
                        );
                        assert(self.closed_under(checked2, more)) by {
                            reveal(Reader::closed_under);
                            assert forall|at: Seq<int>, k: int|
                                (at.len() == 0 || checked2.contains(at)) implies
                                #[trigger] self.child_met(at, k, checked2, more) by {
                                if at != here {
                                    assert(self.child_met(at, k, checked, places));
                                    if self.met(at.push(k), checked, places) {
                                        assert(self.met(at.push(k), checked2, places2));
                                    }
                                }
                            }
                        }
                        self.lemma_tree_is_owned(next, base, checked2, more)
                    },
                }
            }
        }
    }

    /// What is claimed and read without a finding reads well.
    proof fn lemma_reads_well(&self, before: Claimed, after: Claimed, item: Walked, here: Seq<int>)
        requires
            after == self.vol().claimed(
                self.bitmap(),
                item.node.storage,
                item.node.data_length,
                item.path,
                before,
            ),
            self.node_at(here) == Some(item.node),
            after.found.kept.len() == 0,
            0 < after.found.limit,
            item.node.directory() ==> {
                &&& self.directory(item.node).entries is Ok
                &&& collected(after.found, self.directory(item.node).log).kept.len() == 0
            },
        ensures
            self.reads_well(here),
    {
        let node = item.node;
        lemma_claimed(
            self.vol(),
            self.bitmap(),
            node.storage,
            node.data_length,
            item.path,
            before,
        );
        if node.directory() {
            lemma_nothing_collected(after.found, self.directory(node).log);
        }
    }

    /// With the last of the places checked, the rest are those to be checked.
    proof fn lemma_laid_behind(
        &self,
        queue: Seq<Walked>,
        visited: Set<int>,
        checked: Set<Seq<int>>,
        places: Seq<Seq<int>>,
    )
        requires
            queue.len() > 0,
            self.laid(queue, visited, checked, places),
            forall|at: Seq<int>| #[trigger]
                self.met(at, checked.insert(places.last()), places.drop_last()) <==> self.met(
                    at,
                    checked,
                    places,
                ),
        ensures
            self.laid(
                queue.drop_last(),
                visited,
                checked.insert(places.last()),
                places.drop_last(),
            ),
    {
        reveal(Reader::laid);
        let checked2 = checked.insert(places.last());
        let places2 = places.drop_last();
        assert forall|i: int| 0 <= i < places2.len() implies {
            &&& !checked2.contains(#[trigger] places2[i])
            &&& places2[i].len() > 0
            &&& queue.drop_last()[i].path.len() > 0
            &&& self.node_at(places2[i]) == Some(queue.drop_last()[i].node)
        } by {
            assert(places2[i] == places[i]);
            assert(places[i] != places[places.len() - 1]);
        }
        assert(places[places.len() - 1] == places.last());
        assert forall|at: Seq<int>| #[trigger] self.met(at, checked2, places2) implies at.len() == 0
            || at.len() == 1 || checked2.contains(at.drop_last()) by {
            assert(self.met(at, checked, places));
        }
        assert forall|c: int| #[trigger] visited.contains(c) implies 0 <= c <= u32::MAX
            && exists|at: Seq<int>|
            self.met(at, checked2, places2) && #[trigger] self.dir_begins(at, c as u32) by {
            let at = choose|at: Seq<int>|
                self.met(at, checked, places) && #[trigger] self.dir_begins(at, c as u32);
            assert(self.met(at, checked2, places2));
        }
    }

    /// What has no entries has none to be met.
    proof fn lemma_leaf(&self, checked: Set<Seq<int>>, places: Seq<Seq<int>>, here: Seq<int>)
        requires
            self.closed_under(checked, places),
            places.len() > 0,
            here == places.last(),
            self.node_at(here) matches Some(node) && (!node.directory() || self.directory(
                node,
            ).entries is Err),
            forall|at: Seq<int>| #[trigger]
                self.met(at, checked.insert(here), places.drop_last()) <==> self.met(
                    at,
                    checked,
                    places,
                ),
        ensures
            self.closed_under(checked.insert(here), places.drop_last()),
    {
        reveal(Reader::closed_under);
        let checked2 = checked.insert(here);
        let places2 = places.drop_last();
        assert forall|at: Seq<int>, k: int| (at.len() == 0 || checked2.contains(at)) implies
            #[trigger] self.child_met(at, k, checked2, places2) by {
            if at == here {
                assert(at.push(k).drop_last() =~= at);
                assert(self.node_at(at.push(k)) is None);
            } else {
                assert(self.child_met(at, k, checked, places));
                if self.met(at.push(k), checked, places) {
                    assert(self.met(at.push(k), checked2, places2));
                }
            }
        }
    }

    /// Claiming the stream at one more place keeps each cluster to one of them.
    proof fn lemma_owned_more(
        &self,
        base: Set<int>,
        before: Claimed,
        after: Claimed,
        item: Walked,
        checked: Set<Seq<int>>,
        here: Seq<int>,
        end: FindingsView,
    )
        requires
            self.owned(base, before.reached, checked, end.kept.len() == 0),
            after == self.vol().claimed(
                self.bitmap(),
                item.node.storage,
                item.node.data_length,
                item.path,
                before,
            ),
            self.node_at(here) == Some(item.node),
            grows(after.found, end),
            !end.full(),
            no_cross_link(end.kept),
            self.all_whole() || end.kept.len() == 0,
        ensures
            self.owned(base, after.reached, checked.insert(here), end.kept.len() == 0),
    {
        reveal(Reader::owned);
        let node = item.node;
        let clean = end.kept.len() == 0;
        let checked2 = checked.insert(here);
        lemma_no_cross_link_before(after.found, end);
        lemma_claimed(
            self.vol(),
            self.bitmap(),
            node.storage,
            node.data_length,
            item.path,
            before,
        );
        assert forall|at: Seq<int>, c: int| checked2.contains(at) && #[trigger] self.has_at(
            at,
            c,
        ) implies {
            &&& after.reached.contains(c)
            &&& !base.contains(c)
            &&& clean ==> 0 <= c <= u32::MAX && self.vol().allocated(self.bitmap(), c as u32)
                == Ok::<bool, ReadError>(true)
        } by {
            if at == here {
                assert(self.vol().occupies(node.storage, node.data_length, c));
            }
        }
        assert forall|a: Seq<int>, b: Seq<int>, c: int|
            checked2.contains(a) && checked2.contains(b) && #[trigger] self.has_at(a, c)
                && #[trigger] self.has_at(b, c) implies a == b by {
            if a == here && b != here {
                assert(self.vol().occupies(node.storage, node.data_length, c));
                assert(before.reached.contains(c));
            } else if b == here && a != here {
                assert(self.vol().occupies(node.storage, node.data_length, c));
                assert(before.reached.contains(c));
            }
        }
        assert forall|c: int| after.reached.contains(c) implies base.contains(c) || exists|
            at: Seq<int>,
        |
            checked2.contains(at) && #[trigger] self.has_at(at, c) by {
            if before.reached.contains(c) {
                if !base.contains(c) {
                    let at = choose|at: Seq<int>|
                        checked.contains(at) && #[trigger] self.has_at(at, c);
                    assert(checked2.contains(at));
                }
            } else {
                assert(self.vol().occupies(node.storage, node.data_length, c));
                assert(self.has_at(here, c));
            }
        }
    }

    /// Every place of the tree that has clusters has been checked.
    proof fn lemma_every_place(&self, all: Set<Seq<int>>, at: Seq<int>)
        requires
            self.closed_under(all, Seq::empty()),
            self.node_at(at) matches Some(node) && node.storage.first() is Some,
        ensures
            at.len() == 0 || all.contains(at),
        decreases at.len(),
    {
        reveal(Reader::closed_under);
        if at.len() > 0 {
            let before = at.drop_last();
            let dir = self.node_at(before)->Some_0;
            if dir.storage.first() is None {
                assert(self.directory(dir).entries->Ok_0.len() == 0);
                assert(false);
            }
            self.lemma_every_place(all, before);
            assert(before.push(at.last()) =~= at);
            assert(self.child_met(before, at.last(), all, Seq::empty()));
        }
    }

    /// Checking the tree stops short only where something is found.
    proof fn lemma_short_is_found(&self, scan: TreeScan)
        requires
            scan.names <= name_cap(self.taken_on(), self.vol().layout),
            0 < scan.state.found.limit,
        ensures
            self.tree_scan(scan).reached is None ==> self.tree_scan(scan).found.kept.len() > 0,
        decreases
            2 * (name_cap(self.taken_on(), self.vol().layout) - scan.names) + scan.queue.len(),
    {
        if scan.queue.len() > 0 && !scan.state.found.full() {
            let item = scan.queue.last();
            let rest = scan.queue.drop_last();
            let node = item.node;
            lemma_claim_grows(
                self.vol(),
                self.bitmap(),
                node.storage,
                node.data_length,
                item.path,
                0,
                scan.state,
            );
            let state = if node.directory() && item.path.len() == 0 {
                scan.state
            } else {
                self.vol().claimed(
                    self.bitmap(),
                    node.storage,
                    node.data_length,
                    item.path,
                    scan.state,
                )
            };
            if !node.directory() {
                self.lemma_short_is_found(TreeScan { queue: rest, state, ..scan });
            } else {
                let read = self.directory(node);
                let found = collected(state.found, read.log);
                lemma_collected_grows(state.found, read.log);
                match read.entries {
                    Err(e) => {
                        lemma_with_grows(found, e.anomaly_of());
                        if !(e is WalkTooLarge) {
                            self.lemma_short_is_found(
                                TreeScan {
                                    queue: rest,
                                    state: Claimed { found: found.with(e.anomaly_of()), ..state },
                                    ..scan
                                },
                            );
                        }
                    },
                    Ok(entries) => {
                        self.lemma_enqueued(
                            entries,
                            0,
                            item.path,
                            rest,
                            scan.visited,
                            scan.names,
                        );
                        let after = self.enqueued(
                            entries,
                            0,
                            item.path,
                            rest,
                            scan.visited,
                            scan.names,
                        );
                        if !after.over {
                            self.lemma_short_is_found(
                                TreeScan {
                                    queue: after.queue,
                                    visited: after.visited,
                                    names: after.names,
                                    state: Claimed { found, ..state },
                                },
                            );
                        }
                    },
                }
            }
        }
    }
}

impl<'a> Reader<'a> {
    /// Whether the bitmap and the up-case table can be followed to their ends, and the bitmap read
    /// for each of their clusters.
    pub open spec fn residents_whole(&self) -> bool {
        let vol = self.vol();
        &&& vol.is_whole(
            self.bitmap(),
            Storage::Chain(self.bitmap().first_cluster),
            self.bitmap().bytes,
        )
        &&& vol.is_whole(
            self.bitmap(),
            Storage::Chain(vol.layout.upcase_cluster),
            vol.layout.upcase_bytes,
        )
    }

    /// A check of the tree that comes to its end without saying of any cluster that it is claimed
    /// twice has reached the clusters of every stream, each of one stream alone.
    #[verifier::rlimit(60)]
    proof fn lemma_each_cluster_is_of_one_stream(&self, found: FindingsView)
        requires
            self.wf(),
            self.dirs_apart(),
            self.tree_scanned(found).reached is Some,
            !self.tree_scanned(found).found.full(),
            no_cross_link(self.tree_scanned(found).found.kept),
            self.all_whole() && self.residents_whole() || self.tree_scanned(found).found.kept.len()
                == 0,
        ensures
            ({
                let done = self.tree_scanned(found);
                let reached = done.reached->Some_0;
                &&& forall|a: Stream, b: Stream, c: int| #[trigger]
                    self.has_cluster(a, c) && #[trigger] self.has_cluster(b, c) ==> a == b
                &&& forall|s: Stream, c: int| #[trigger]
                    self.has_cluster(s, c) ==> reached.contains(c) && (done.found.kept.len() == 0
                        ==> 0 <= c <= u32::MAX && self.vol().allocated(self.bitmap(), c as u32)
                        == Ok::<bool, ReadError>(true))
                &&& forall|c: int|
                    reached.contains(c) ==> exists|s: Stream| #[trigger] self.has_cluster(s, c)
                &&& done.found.kept.len() == 0 ==> forall|at: Seq<int>| #[trigger]
                    self.node_at(at) matches Some(node) ==> (node.storage.first() is Some
                        ==> self.reads_well(at))
            }),
    {
        broadcast use crate::dirent::FileAttributes::lemma_of_word;

        let vol = self.vol();
        let bitmap = self.bitmap();
        let none = Seq::<u8>::empty();
        let start = Claimed { reached: Set::empty(), found };
        let one = Storage::Chain(bitmap.first_cluster);
        let two = Storage::Chain(vol.layout.upcase_cluster);
        let three = Storage::Chain(vol.layout.first_cluster_of_root);
        let a = vol.claimed(bitmap, one, bitmap.bytes, none, start);
        let b = vol.claimed(bitmap, two, vol.layout.upcase_bytes, none, a);
        let c = vol.claimed(bitmap, three, self.root_size(), none, b);
        let root = self.root_node();
        let done = self.tree_scanned(found);
        let clean = done.found.kept.len() == 0;
        let scan = TreeScan {
            queue: seq![Walked { path: none, node: root }],
            visited: Set::empty().insert(vol.layout.first_cluster_of_root as int),
            names: 0,
            state: c,
        };
        assert(c == self.residents_claimed(found));
        assert(done == self.tree_scan(scan));
        assert(0 <= vol.layout.cluster_count * vol.layout.bytes_per_cluster) by (nonlinear_arith);
        self.lemma_tree_grows(scan);
        lemma_claim_grows(vol, bitmap, one, bitmap.bytes, none, 0, start);
        lemma_claim_grows(vol, bitmap, two, vol.layout.upcase_bytes, none, 0, a);
        lemma_claim_grows(vol, bitmap, three, self.root_size(), none, 0, b);
        lemma_grows(b.found, c.found, done.found);
        lemma_grows(a.found, b.found, done.found);
        lemma_no_cross_link_before(c.found, done.found);
        lemma_no_cross_link_before(b.found, done.found);
        lemma_no_cross_link_before(a.found, done.found);
        let top = Seq::<int>::empty();
        assert(self.node_at(top) == Some(root));
        assert(self.all_whole() ==> vol.is_whole(bitmap, three, self.root_size()));
        lemma_claimed(vol, bitmap, one, bitmap.bytes, none, start);
        lemma_claimed(vol, bitmap, two, vol.layout.upcase_bytes, none, a);
        lemma_claimed(vol, bitmap, three, self.root_size(), none, b);
        let base = c.reached;
        let checked = Set::<Seq<int>>::empty();
        let places = Seq::<Seq<int>>::empty();
        assert(root.directory()) by {
            assert(0x10u16 & 0x10u16 == 0x10u16) by (bit_vector);
        }
        let read = self.directory(root);
        let met = collected(c.found, read.log);
        lemma_collected_grows(c.found, read.log);
        let rest = scan.queue.drop_last();
        assert(rest =~= Seq::empty());
        assert(scan.queue.last() == (Walked { path: none, node: root }));
        assert(self.owned(base, base, checked, clean)) by {
            reveal(Reader::owned);
        }
        assert(self.laid(rest, scan.visited, checked, places)) by {
            reveal(Reader::laid);
            assert(self.dir_begins(top, vol.layout.first_cluster_of_root));
            assert forall|v: int| #[trigger] scan.visited.contains(v) implies 0 <= v <= u32::MAX
                && exists|at: Seq<int>|
                self.met(at, checked, places) && #[trigger] self.dir_begins(at, v as u32) by {
                assert(v == vol.layout.first_cluster_of_root);
                assert(v as u32 == vol.layout.first_cluster_of_root);
                assert(self.met(top, checked, places) && self.dir_begins(top, v as u32));
            }
        }
        let all: Set<Seq<int>>;
        match read.entries {
            Err(e) => {
                assert(!(e is WalkTooLarge));
                assert(self.closed_under(checked, places)) by {
                    reveal(Reader::closed_under);
                    assert forall|at: Seq<int>, k: int| (at.len() == 0 || checked.contains(at)) implies
                        #[trigger] self.child_met(at, k, checked, places) by {
                        assert(at =~= top);
                        assert(at.push(k).drop_last() =~= top);
                        assert(self.node_at(at.push(k)) is None);
                    }
                }
                let next = TreeScan {
                    queue: rest,
                    state: Claimed { found: met.with(e.anomaly_of()), ..c },
                    ..scan
                };
                self.lemma_tree_grows(next);
                lemma_with_grows(met, e.anomaly_of());
                lemma_grows(met, met.with(e.anomaly_of()), done.found);
                assert(!clean);
                all = self.lemma_tree_is_owned(next, base, checked, places);
            },
            Ok(entries) => {
                let after = self.enqueued(entries, 0, none, rest, scan.visited, 0);
                self.lemma_enqueued(entries, 0, none, rest, scan.visited, 0);
                assert forall|j: int| j < 0 implies #[trigger] self.child_met(
                    top,
                    j,
                    checked,
                    places,
                ) by {
                    assert(top.push(j).drop_last() =~= top);
                }
                let more = self.lemma_enqueued_is_laid(
                    top,
                    entries,
                    0,
                    none,
                    rest,
                    scan.visited,
                    0,
                    checked,
                    places,
                );
                assert(self.closed_under(checked, more)) by {
                    reveal(Reader::closed_under);
                    assert forall|at: Seq<int>, k: int| (at.len() == 0 || checked.contains(at)) implies
                        #[trigger] self.child_met(at, k, checked, more) by {
                        assert(at =~= top);
                    }
                }
                let next = TreeScan {
                    queue: after.queue,
                    visited: after.visited,
                    names: after.names,
                    state: Claimed { found: met, ..c },
                };
                self.lemma_tree_grows(next);
                all = self.lemma_tree_is_owned(next, base, checked, more);
            },
        }
        let reached = done.reached->Some_0;
        if clean {
            assert(self.reads_well(top)) by {
                lemma_nothing_collected(c.found, read.log);
            }
            assert forall|at: Seq<int>|
                (#[trigger] self.node_at(at)) is Some && self.node_at(at)->Some_0.storage.first()
                    is Some implies self.reads_well(at) by {
                self.lemma_every_place(all, at);
                if at.len() == 0 {
                    assert(at =~= top);
                }
            }
        }
        assert forall|s: Stream, x: int| #[trigger] self.has_cluster(s, x) implies (match s {
            Stream::At(at) => if at.len() == 0 {
                base.contains(x) && !b.reached.contains(x) && vol.occupies(
                    three,
                    self.root_size(),
                    x,
                )
            } else {
                all.contains(at) && !base.contains(x)
            },
            Stream::Bitmap => a.reached.contains(x),
            Stream::Upcase => b.reached.contains(x) && !a.reached.contains(x),
        }) by {
            match s {
                Stream::At(at) => {
                    if at.len() == 0 {
                        assert(at =~= top);
                        assert(vol.occupies(three, self.root_size(), x));
                    } else {
                        let node = self.node_at(at)->Some_0;
                        if node.storage.first() is None {
                            let i = choose|i: int|
                                0 <= i < ceil_div(node.data_length as int, vol.per())
                                    && #[trigger] vol.is_cluster(node.storage, i, x);
                            assert(false);
                        }
                        self.lemma_every_place(all, at);
                        reveal(Reader::owned);
                    }
                },
                _ => {},
            }
        }
        assert(base.subset_of(reached)) by {
            reveal(Reader::owned);
        }
        assert forall|s: Stream, x: int| #[trigger] self.has_cluster(s, x) implies reached.contains(
            x,
        ) && (clean ==> 0 <= x <= u32::MAX && vol.allocated(bitmap, x as u32) == Ok::<
            bool,
            ReadError,
        >(true)) by {
            reveal(Reader::owned);
        }
        assert forall|s: Stream, t: Stream, x: int| #[trigger] self.has_cluster(s, x)
            && #[trigger] self.has_cluster(t, x) implies s == t by {
            reveal(Reader::owned);
            match (s, t) {
                (Stream::At(p), Stream::At(q)) => {
                    if p.len() == 0 && q.len() == 0 {
                        assert(p =~= q);
                    }
                },
                _ => {},
            }
        }
        assert forall|x: int| reached.contains(x) implies exists|s: Stream| #[trigger]
            self.has_cluster(s, x) by {
            reveal(Reader::owned);
            if base.contains(x) {
                if !b.reached.contains(x) {
                    assert(vol.occupies(three, self.root_size(), x));
                    assert(self.has_cluster(Stream::At(top), x));
                } else if !a.reached.contains(x) {
                    assert(vol.occupies(two, vol.layout.upcase_bytes, x));
                    assert(self.has_cluster(Stream::Upcase, x));
                } else {
                    assert(vol.occupies(one, bitmap.bytes, x));
                    assert(self.has_cluster(Stream::Bitmap, x));
                }
            } else {
                let at = choose|at: Seq<int>| all.contains(at) && #[trigger] self.has_at(at, x);
                assert(self.has_cluster(Stream::At(at), x));
            }
        }
    }
}

/// What is found of the deviations of a list is behind what had been found.
proof fn lemma_with_all_grows(found: FindingsView, anomalies: Seq<AnomalyView>, n: int)
    ensures
        grows(found, with_all(found, anomalies, n)),
    decreases n,
{
    if n > 0 {
        let before = with_all(found, anomalies, n - 1);
        lemma_with_all_grows(found, anomalies, n - 1);
        lemma_with_grows(before, anomalies[n - 1]);
        lemma_grows(found, before, with_all(found, anomalies, n));
    } else {
        assert(found.kept.take(found.kept.len() as int) =~= found.kept);
    }
}

/// The clusters among the first `n` that the bitmap calls in use.
pub open spec fn in_use_among(vol: Vol, bitmap: Resident, n: int) -> Set<int> {
    Set::new(
        |c: int|
            2 <= c < 2 + n && vol.allocated(bitmap, c as u32) == Ok::<bool, ReadError>(true),
    )
}

/// The count of the clusters in use counts each of them, and finds one lost where no stream has
/// it.
#[verifier::spinoff_prover]
#[verifier::rlimit(40)]
proof fn lemma_tally(vol: Vol, bitmap: Resident, reached: Set<int>, n: int)
    requires
        0 <= n <= u32::MAX - 2,
        vol.tally(bitmap, reached, n) is Ok,
    ensures
        ({
            let tally = vol.tally(bitmap, reached, n)->Ok_0;
            &&& in_use_among(vol, bitmap, n).finite()
            &&& tally.in_use == in_use_among(vol, bitmap, n).len()
            &&& tally.lost == in_use_among(vol, bitmap, n).difference(reached).len()
            &&& in_use_among(vol, bitmap, n).difference(reached).finite()
            &&& tally.first is None <==> in_use_among(vol, bitmap, n).subset_of(reached)
            &&& tally.first matches Some(first) ==> in_use_among(vol, bitmap, n).contains(
                first as int,
            ) && !reached.contains(first as int)
            &&& tally.first matches Some(first) ==> forall|c: int|
                in_use_among(vol, bitmap, n).contains(c) && !reached.contains(c) ==> first <= c
            &&& forall|c: int|
                2 <= c < 2 + n ==> #[trigger] vol.allocated(bitmap, c as u32) is Ok
        }),
    decreases n,
{
    let set = in_use_among(vol, bitmap, n);
    let lost = set.difference(reached);
    if n > 0 {
        lemma_tally(vol, bitmap, reached, n - 1);
        let before = in_use_among(vol, bitmap, n - 1);
        let lost_before = before.difference(reached);
        let tally = vol.tally(bitmap, reached, n - 1)->Ok_0;
        let c = (2 + n - 1) as u32;
        assert(!before.contains(c as int));
        assert(!lost_before.contains(c as int));
        assert forall|k: int| 2 <= k < 2 + n implies #[trigger] vol.allocated(bitmap, k as u32)
            is Ok by {
            if k < 2 + n - 1 {
                assert(vol.allocated(bitmap, k as u32) is Ok);
            }
        }
        if vol.allocated(bitmap, c) == Ok::<bool, ReadError>(true) {
            assert(set =~= before.insert(c as int));
            if reached.contains(c as int) {
                assert(lost =~= lost_before);
                assert(vol.tally(bitmap, reached, n)->Ok_0.first == tally.first);
            } else {
                assert(set.contains(c as int));
                assert(lost =~= lost_before.insert(c as int));
                assert forall|k: int| before.contains(k) implies k < c by {}
            }
        } else {
            assert(set =~= before);
        }
    } else {
        assert(set =~= Set::empty());
        assert(lost =~= Set::empty());
    }
}

impl<'a> Reader<'a> {
    /// What had been found before the tree is checked: what opening remarked on, and what is
    /// wrong with the head of the table.
    pub open spec fn found_at_first(&self) -> FindingsView {
        let none = FindingsView {
            kept: Seq::empty(),
            limit: self.taken_on().max_findings as int,
            truncated: false,
        };
        self.head_scanned(with_all(none, self.remarks(), self.remarks().len() as int))
    }

    /// Whether a check comes to the end of the tree.
    pub open spec fn checks_to_the_end(&self) -> bool {
        self.tree_scanned(self.found_at_first()).reached is Some
    }

    /// What a check finds is behind what it found of the tree.
    proof fn lemma_allocation_grows(&self, reached: Set<int>, found: FindingsView)
        ensures
            grows(
                found,
                self.vol().allocation_scanned(self.bitmap(), self.main_boot(), reached, found),
            ),
    {
        let vol = self.vol();
        let count = vol.layout.cluster_count;
        lemma_with_grows(found, ReadError::VolumeDirty.anomaly_of());
        match vol.tally(self.bitmap(), reached, count as int) {
            Err(e) => {
                lemma_with_grows(found, e.anomaly_of());
            },
            Ok(tally) => {
                let stated = self.main_boot().percent_in_use;
                let actual = percentage(tally.in_use, count as int) as u8;
                let lost = match tally.first {
                    Some(first) => {
                        let anomaly = ReadError::LostClusters {
                            count: tally.lost as u64,
                            first,
                        }.anomaly_of();
                        lemma_with_grows(found, anomaly);
                        found.with(anomaly)
                    },
                    None => found,
                };
                let wild = ReadError::PercentInUseOutOfRange { stated }.anomaly_of();
                let stale = ReadError::PercentInUseStale {
                    stated,
                    in_use: tally.in_use as u64,
                    clusters: count,
                    actual,
                }.anomaly_of();
                lemma_with_grows(lost, wild);
                lemma_with_grows(lost, stale);
                lemma_grows(found, lost, lost.with(wild));
                lemma_grows(found, lost, lost.with(stale));
            },
        }
    }

    /// Wherever two streams of a volume have a cluster in common, two of the tree, or one of the
    /// tree and a resident, or two residents, a check that comes to the end of the tree, with room
    /// for what it finds, reports that a cluster is claimed by more than one stream. This is of
    /// volumes whose streams can be followed to their ends, and on which no directory is entered
    /// in two places: a check enters such a directory once, and does not remark on it.
    pub proof fn lemma_a_shared_cluster_is_reported(&self, a: Stream, b: Stream, c: int)
        requires
            self.wf(),
            self.dirs_apart(),
            self.all_whole(),
            self.residents_whole(),
            self.checks_to_the_end(),
            self.scanned().kept.len() < self.taken_on().max_findings,
            a != b,
            self.has_cluster(a, c),
            self.has_cluster(b, c),
        ensures
            exists|k: int|
                0 <= k < self.scanned().kept.len() && is_cross_link(
                    #[trigger] self.scanned().kept[k],
                ),
    {
        let found = self.found_at_first();
        let done = self.tree_scanned(found);
        let reached = done.reached->Some_0;
        self.lemma_allocation_grows(reached, done.found);
        self.lemma_limit();
        if no_cross_link(self.scanned().kept) {
            lemma_no_cross_link_before(done.found, self.scanned());
            self.lemma_each_cluster_is_of_one_stream(found);
            assert(false);
        }
    }

    /// How much a check keeps is what it takes on.
    proof fn lemma_limit(&self)
        ensures
            self.found_at_first().limit == self.taken_on().max_findings,
            self.tree_scanned(self.found_at_first()).found.limit == self.taken_on().max_findings,
            self.scanned().limit == self.taken_on().max_findings,
            grows(self.found_at_first(), self.tree_scanned(self.found_at_first()).found),
            grows(self.tree_scanned(self.found_at_first()).found, self.scanned()),
    {
        let none = FindingsView {
            kept: Seq::empty(),
            limit: self.taken_on().max_findings as int,
            truncated: false,
        };
        let opened = with_all(none, self.remarks(), self.remarks().len() as int);
        lemma_with_all_grows(none, self.remarks(), self.remarks().len() as int);
        let found = self.found_at_first();
        let vol = self.vol();
        let path = Seq::<u8>::empty();
        let bitmap = self.bitmap();
        let start = Claimed { reached: Set::empty(), found };
        let one = Storage::Chain(bitmap.first_cluster);
        let two = Storage::Chain(vol.layout.upcase_cluster);
        let three = Storage::Chain(vol.layout.first_cluster_of_root);
        let a = vol.claimed(bitmap, one, bitmap.bytes, path, start);
        let b = vol.claimed(bitmap, two, vol.layout.upcase_bytes, path, a);
        let c = vol.claimed(bitmap, three, self.root_size(), path, b);
        lemma_claim_grows(vol, bitmap, one, bitmap.bytes, path, 0, start);
        lemma_claim_grows(vol, bitmap, two, vol.layout.upcase_bytes, path, 0, a);
        lemma_claim_grows(vol, bitmap, three, self.root_size(), path, 0, b);
        lemma_grows(found, a.found, b.found);
        lemma_grows(found, b.found, c.found);
        assert(0 <= vol.layout.cluster_count * vol.layout.bytes_per_cluster) by (nonlinear_arith);
        let scan = TreeScan {
            queue: seq![Walked { path, node: self.root_node() }],
            visited: Set::empty().insert(vol.layout.first_cluster_of_root as int),
            names: 0,
            state: c,
        };
        assert(c == self.residents_claimed(found));
        self.lemma_tree_grows(scan);
        let done = self.tree_scanned(found);
        assert(done == self.tree_scan(scan));
        lemma_grows(found, c.found, done.found);
        lemma_with_grows(done.found, ReadError::VolumeDirty.anomaly_of());
        match done.reached {
            Some(reached) => {
                self.lemma_allocation_grows(reached, done.found);
            },
            None => {},
        }
    }

    /// A report without findings shows whose each cluster is: no two streams of the volume have a
    /// cluster in common, the bitmap calls every cluster of a stream in use, and every cluster the
    /// bitmap calls in use is of a stream. It shows too that the two entries at the head of the
    /// table are what the format has there, that opening remarked on nothing, and that the part of
    /// the clusters in use that the boot sector states, where it states one, is the part that is;
    /// and that every stream can be followed to its end, and every entry of every directory read
    /// without a remark.
    pub proof fn lemma_a_clean_report_shows_whose_each_cluster_is(&self)
        requires
            self.wf(),
            self.dirs_apart(),
            self.scanned().kept.len() == 0,
            0 < self.taken_on().max_findings,
        ensures
            forall|a: Stream, b: Stream, c: int| #[trigger]
                self.has_cluster(a, c) && #[trigger] self.has_cluster(b, c) ==> a == b,
            forall|s: Stream, c: int| #[trigger]
                self.has_cluster(s, c) ==> 2 <= c < 2 + self.vol().layout.cluster_count
                    && self.vol().allocated(self.bitmap(), c as u32) == Ok::<bool, ReadError>(true),
            forall|c: int|
                2 <= c < 2 + self.vol().layout.cluster_count && #[trigger] self.vol().allocated(
                    self.bitmap(),
                    c as u32,
                ) == Ok::<bool, ReadError>(true) ==> exists|s: Stream| #[trigger]
                    self.has_cluster(s, c),
            self.remarks().len() == 0,
            forall|at: Seq<int>| #[trigger]
                self.node_at(at) matches Some(node) ==> (node.storage.first() is Some ==> {
                    &&& self.vol().is_whole(self.bitmap(), node.storage, node.data_length)
                    &&& node.directory() ==> self.directory(node).log.len() == 0
                        && self.directory(node).entries is Ok
                }),
            self.vol().table(0) == 0xFFFF_FFF8,
            self.vol().table(1) == 0xFFFF_FFFF,
            ({
                let count = self.vol().layout.cluster_count as int;
                let used = in_use_among(self.vol(), self.bitmap(), count).len() as int;
                let stated = self.main_boot().percent_in_use;
                stated == 0xFF || stated <= 100 && (count > 0 ==> stated as int == 100 * used
                    / count)
            }),
    {
        let found = self.found_at_first();
        let done = self.tree_scanned(found);
        let vol = self.vol();
        let count = vol.layout.cluster_count as int;
        let none = FindingsView {
            kept: Seq::empty(),
            limit: self.taken_on().max_findings as int,
            truncated: false,
        };
        let opened = with_all(none, self.remarks(), self.remarks().len() as int);
        self.lemma_sound();
        self.lemma_limit();
        lemma_with_all_grows(none, self.remarks(), self.remarks().len() as int);
        if self.remarks().len() > 0 {
            let n = self.remarks().len() as int;
            lemma_with_all_grows(none, self.remarks(), n - 1);
            let before = with_all(none, self.remarks(), n - 1);
            lemma_with_grows(before, self.remarks()[n - 1]);
            assert(opened == before.with(self.remarks()[n - 1]));
            assert(opened.kept.len() > 0);
        }
        assert(0 <= vol.layout.cluster_count * vol.layout.bytes_per_cluster) by (nonlinear_arith);
        let scan = TreeScan {
            queue: seq![Walked { path: Seq::empty(), node: self.root_node() }],
            visited: Set::empty().insert(vol.layout.first_cluster_of_root as int),
            names: 0,
            state: self.residents_claimed(found),
        };
        self.lemma_residents_grow(found);
        self.lemma_short_is_found(scan);
        assert(done == self.tree_scan(scan));
        assert(done.reached is Some);
        let reached = done.reached->Some_0;
        self.lemma_each_cluster_is_of_one_stream(found);
        assert forall|s: Stream, c: int| #[trigger] self.has_cluster(s, c) implies 2 <= c < 2 + count
            by {
            self.lemma_on_the_heap(s, c);
        }
        match vol.tally(self.bitmap(), reached, count) {
            Err(_) => {
                assert(false);
            },
            Ok(tally) => {
                lemma_tally(vol, self.bitmap(), reached, count);
                assert(tally.first is None);
                assert forall|c: int|
                    2 <= c < 2 + count && #[trigger] vol.allocated(self.bitmap(), c as u32) == Ok::<
                        bool,
                        ReadError,
                    >(true) implies exists|s: Stream| #[trigger] self.has_cluster(s, c) by {
                    assert(in_use_among(vol, self.bitmap(), count).contains(c));
                    assert(reached.contains(c));
                }
                self.lemma_part_in_use(tally.in_use);
            },
        }
    }

    /// The part in use is no more than all.
    proof fn lemma_part_in_use(&self, used: int)
        requires
            self.wf(),
            used == in_use_among(
                self.vol(),
                self.bitmap(),
                self.vol().layout.cluster_count as int,
            ).len(),
        ensures
            ({
                let count = self.vol().layout.cluster_count as int;
                &&& 0 <= percentage(used, count) <= 100
                &&& count > 0 ==> percentage(used, count) == 100 * used / count
            }),
    {
        let count = self.vol().layout.cluster_count as int;
        let all = vstd::set_lib::set_int_range(2, 2 + count);
        vstd::set_lib::lemma_int_range(2, 2 + count);
        let some = in_use_among(self.vol(), self.bitmap(), count);
        assert(some.subset_of(all));
        vstd::set_lib::lemma_len_subset(some, all);
        if count > 0 {
            assert(0 <= (100 * used) / count <= 100) by (nonlinear_arith)
                requires
                    0 <= used <= count,
                    0 < count,
            ;
            assert(used * 100 == 100 * used);
        }
    }

    /// Claiming the residents finds what it finds behind what had been found.
    proof fn lemma_residents_grow(&self, found: FindingsView)
        ensures
            grows(found, self.residents_claimed(found).found),
    {
        let vol = self.vol();
        let path = Seq::<u8>::empty();
        let bitmap = self.bitmap();
        let start = Claimed { reached: Set::empty(), found };
        let one = Storage::Chain(bitmap.first_cluster);
        let two = Storage::Chain(vol.layout.upcase_cluster);
        let three = Storage::Chain(vol.layout.first_cluster_of_root);
        let a = vol.claimed(bitmap, one, bitmap.bytes, path, start);
        let b = vol.claimed(bitmap, two, vol.layout.upcase_bytes, path, a);
        let c = vol.claimed(bitmap, three, self.root_size(), path, b);
        lemma_claim_grows(vol, bitmap, one, bitmap.bytes, path, 0, start);
        lemma_claim_grows(vol, bitmap, two, vol.layout.upcase_bytes, path, 0, a);
        lemma_claim_grows(vol, bitmap, three, self.root_size(), path, 0, b);
        lemma_grows(found, a.found, b.found);
        lemma_grows(found, b.found, c.found);
        assert(c == self.residents_claimed(found));
    }

    /// The clusters of a stream are on the heap.
    proof fn lemma_on_the_heap(&self, s: Stream, c: int)
        requires
            self.wf(),
            self.has_cluster(s, c),
        ensures
            2 <= c < 2 + self.vol().layout.cluster_count,
    {
        self.lemma_sound();
        let vol = self.vol();
        let (storage, bytes) = match s {
            Stream::Bitmap => (
                Storage::Chain(self.bitmap().first_cluster),
                self.bitmap().bytes,
            ),
            Stream::Upcase => (Storage::Chain(vol.layout.upcase_cluster), vol.layout.upcase_bytes),
            Stream::At(at) => {
                let node = self.node_at(at)->Some_0;
                (node.storage, node.data_length)
            },
        };
        let i = choose|i: int|
            0 <= i < ceil_div(bytes as int, vol.per()) && #[trigger] vol.is_cluster(storage, i, c);
        lemma_stream_at(vol, storage, i);
    }
}

impl Vol {
    /// Whether no two clusters of a stream are one.
    pub open spec fn has_each_once(self, storage: Storage, bytes: u64) -> bool {
        forall|i: int, j: int|
            0 <= i < j < ceil_div(bytes as int, self.per()) ==> #[trigger] self.stream_at(storage, i)
                != #[trigger] self.stream_at(storage, j)
    }
}

/// Claiming a stream that can be followed to its end, has each of its clusters once, shares none of
/// them with those reached before, and has none that the bitmap does not call in use, finds
/// nothing.
proof fn lemma_claim_finds_nothing(
    vol: Vol,
    bitmap: Resident,
    storage: Storage,
    bytes: u64,
    path: Seq<u8>,
    index: int,
    state: Claimed,
)
    requires
        0 <= index,
        !state.found.full(),
        vol.is_whole(bitmap, storage, bytes),
        vol.has_each_once(storage, bytes),
        forall|i: int|
            index <= i < ceil_div(bytes as int, vol.per()) ==> {
                &&& #[trigger] vol.stream_at(storage, i) matches Ok(Some(cluster))
                &&& !state.reached.contains(cluster as int)
                &&& vol.allocated(bitmap, cluster) == Ok::<bool, ReadError>(true)
            },
    ensures
        vol.claim(bitmap, storage, bytes, path, index, state).found == state.found,
    decreases ceil_div(bytes as int, vol.per()) - index,
{
    let count = ceil_div(bytes as int, vol.per());
    if index < count {
        let cluster = vol.stream_at(storage, index)->Ok_0->Some_0;
        let next = Claimed { reached: state.reached.insert(cluster as int), ..state };
        assert forall|i: int| index + 1 <= i < count implies {
            &&& #[trigger] vol.stream_at(storage, i) matches Ok(Some(other))
            &&& !next.reached.contains(other as int)
            &&& vol.allocated(bitmap, other) == Ok::<bool, ReadError>(true)
        } by {
            assert(vol.stream_at(storage, index) != vol.stream_at(storage, i));
        }
        lemma_claim_finds_nothing(vol, bitmap, storage, bytes, path, index + 1, next);
    }
}

/// A stream that nothing is wrong with is claimed without finding anything.
proof fn lemma_claimed_finds_nothing(
    vol: Vol,
    bitmap: Resident,
    storage: Storage,
    bytes: u64,
    path: Seq<u8>,
    state: Claimed,
)
    requires
        !state.found.full(),
        vol.is_whole(bitmap, storage, bytes),
        vol.has_each_once(storage, bytes),
        forall|c: int| #[trigger]
            vol.occupies(storage, bytes, c) ==> !state.reached.contains(c) && vol.allocated(
                bitmap,
                c as u32,
            ) == Ok::<bool, ReadError>(true),
    ensures
        vol.claimed(bitmap, storage, bytes, path, state).found == state.found,
{
    let count = ceil_div(bytes as int, vol.per());
    assert forall|i: int| 0 <= i < count implies {
        &&& #[trigger] vol.stream_at(storage, i) matches Ok(Some(cluster))
        &&& !state.reached.contains(cluster as int)
        &&& vol.allocated(bitmap, cluster) == Ok::<bool, ReadError>(true)
    } by {
        let cluster = vol.stream_at(storage, i)->Ok_0->Some_0;
        assert(vol.is_cluster(storage, i, cluster as int));
        assert(vol.occupies(storage, bytes, cluster as int));
    }
    lemma_claim_finds_nothing(vol, bitmap, storage, bytes, path, 0, state);
}

impl<'a> Reader<'a> {
    /// Whether a cluster is one of the bitmap, the up-case table or the root directory.
    pub open spec fn is_resident_cluster(&self, c: int) -> bool {
        ||| self.has_cluster(Stream::Bitmap, c)
        ||| self.has_cluster(Stream::Upcase, c)
        ||| self.has_cluster(Stream::At(Seq::empty()), c)
    }

    /// Whether nothing is wrong with the tree and the bitmap: every stream can be followed to its
    /// end and has each of its clusters once, no two streams have a cluster in common, the bitmap
    /// calls the clusters of the streams in use and no others, and nothing is wrong with any
    /// directory.
    pub open spec fn nothing_amiss(&self) -> bool {
        let vol = self.vol();
        &&& self.all_whole()
        &&& self.residents_whole()
        &&& forall|at: Seq<int>| #[trigger]
            self.node_at(at) matches Some(node) ==> vol.has_each_once(
                node.storage,
                node.data_length,
            )
        &&& vol.has_each_once(
            Storage::Chain(self.bitmap().first_cluster),
            self.bitmap().bytes,
        )
        &&& vol.has_each_once(
            Storage::Chain(vol.layout.upcase_cluster),
            vol.layout.upcase_bytes,
        )
        &&& forall|a: Stream, b: Stream, c: int| #[trigger]
            self.has_cluster(a, c) && #[trigger] self.has_cluster(b, c) ==> a == b
        &&& forall|s: Stream, c: int| #[trigger]
            self.has_cluster(s, c) ==> vol.allocated(self.bitmap(), c as u32) == Ok::<
                bool,
                ReadError,
            >(true)
        &&& forall|c: int|
            2 <= c < 2 + vol.layout.cluster_count ==> #[trigger] vol.allocated(
                self.bitmap(),
                c as u32,
            ) is Ok && (vol.allocated(self.bitmap(), c as u32) == Ok::<bool, ReadError>(true)
                ==> exists|s: Stream| #[trigger] self.has_cluster(s, c))
        &&& forall|at: Seq<int>| #[trigger]
            self.node_at(at) matches Some(node) ==> (node.directory() ==> self.directory(
                node,
            ).log.len() == 0 && self.directory(node).entries is Ok)
    }

    /// Checking a tree that nothing is wrong with finds nothing, and checks every place of it.
    #[verifier::rlimit(60)]
    proof fn lemma_tree_finds_nothing(
        &self,
        scan: TreeScan,
        base: Set<int>,
        checked: Set<Seq<int>>,
        places: Seq<Seq<int>>,
    ) -> (all: Set<Seq<int>>)
        requires
            scan.names <= name_cap(self.taken_on(), self.vol().layout),
            self.dirs_apart(),
            self.nothing_amiss(),
            scan.state.found.kept.len() == 0,
            0 < scan.state.found.limit,
            forall|c: int| base.contains(c) ==> #[trigger] self.is_resident_cluster(c),
            self.laid(scan.queue, scan.visited, checked, places),
            self.closed_under(checked, places),
            self.owned(base, scan.state.reached, checked, true),
            self.tree_scan(scan).reached is Some,
        ensures
            self.tree_scan(scan).found == scan.state.found,
            self.closed_under(all, Seq::empty()),
            self.owned(base, self.tree_scan(scan).reached->Some_0, all, true),
        decreases
            2 * (name_cap(self.taken_on(), self.vol().layout) - scan.names) + scan.queue.len(),
    {
        if scan.queue.len() == 0 {
            assert(places.len() == 0) by {
                reveal(Reader::laid);
            }
            assert(places =~= Seq::empty());
            checked
        } else {
            let item = scan.queue.last();
            let rest = scan.queue.drop_last();
            let node = item.node;
            let here = places.last();
            let checked2 = checked.insert(here);
            let places2 = places.drop_last();
            let vol = self.vol();
            let state = vol.claimed(
                self.bitmap(),
                node.storage,
                node.data_length,
                item.path,
                scan.state,
            );
            assert(places.len() == scan.queue.len() && item.path.len() > 0 && self.node_at(here)
                == Some(node) && !checked.contains(here) && here.len() > 0) by {
                reveal(Reader::laid);
                let last = places.len() - 1;
                assert(places[last] == here);
            }
            assert forall|c: int| #[trigger] vol.occupies(
                node.storage,
                node.data_length,
                c,
            ) implies !scan.state.reached.contains(c) && vol.allocated(self.bitmap(), c as u32)
                == Ok::<bool, ReadError>(true) by {
                assert(self.has_cluster(Stream::At(here), c));
                if scan.state.reached.contains(c) {
                    reveal(Reader::owned);
                    if base.contains(c) {
                        assert(self.is_resident_cluster(c));
                        assert(Stream::At(Seq::<int>::empty()) != Stream::At(here));
                    } else {
                        let at = choose|at: Seq<int>|
                            checked.contains(at) && #[trigger] self.has_at(at, c);
                        assert(self.has_cluster(Stream::At(at), c));
                        assert(Stream::At(at) == Stream::At(here));
                    }
                    assert(false);
                }
            }
            lemma_claimed_finds_nothing(
                vol,
                self.bitmap(),
                node.storage,
                node.data_length,
                item.path,
                scan.state,
            );
            assert(state.found == scan.state.found);
            assert(grows(state.found, state.found)) by {
                lemma_with_grows(state.found, ReadError::VolumeDirty.anomaly_of());
            }
            self.lemma_owned_more(base, scan.state, state, item, checked, here, state.found);
            assert forall|at: Seq<int>| #[trigger] self.met(at, checked2, places2) <==> self.met(
                at,
                checked,
                places,
            ) by {
                if places.contains(at) {
                    let i = choose|i: int| 0 <= i < places.len() && places[i] == at;
                    if i < places2.len() {
                        assert(places2[i] == at);
                    }
                }
                if places2.contains(at) {
                    let i = choose|i: int| 0 <= i < places2.len() && places2[i] == at;
                    assert(places[i] == at);
                }
                if at == here {
                    assert(places[places.len() - 1] == at);
                }
            }
            self.lemma_laid_behind(scan.queue, scan.visited, checked, places);
            if !node.directory() {
                let next = TreeScan { queue: rest, state, ..scan };
                self.lemma_leaf(checked, places, here);
                self.lemma_tree_finds_nothing(next, base, checked2, places2)
            } else {
                let read = self.directory(node);
                assert(self.node_at(here) is Some);
                let entries = read.entries->Ok_0;
                assert(collected(state.found, read.log) == state.found);
                self.lemma_enqueued(entries, 0, item.path, rest, scan.visited, scan.names);
                let after = self.enqueued(
                    entries,
                    0,
                    item.path,
                    rest,
                    scan.visited,
                    scan.names,
                );
                assert(!after.over);
                let next = TreeScan {
                    queue: after.queue,
                    visited: after.visited,
                    names: after.names,
                    state: Claimed { found: state.found, ..state },
                };
                assert forall|j: int| 0 <= j implies !self.met(
                    #[trigger] here.push(j),
                    checked2,
                    places2,
                ) by {
                    reveal(Reader::laid);
                    if self.met(here.push(j), checked, places) {
                        assert(here.push(j).drop_last() =~= here);
                        assert(false);
                    }
                }
                assert forall|j: int| j < 0 implies #[trigger] self.child_met(
                    here,
                    j,
                    checked2,
                    places2,
                ) by {
                    assert(here.push(j).drop_last() =~= here);
                }
                let more = self.lemma_enqueued_is_laid(
                    here,
                    entries,
                    0,
                    item.path,
                    rest,
                    scan.visited,
                    scan.names,
                    checked2,
                    places2,
                );
                assert(self.closed_under(checked2, more)) by {
                    reveal(Reader::closed_under);
                    assert forall|at: Seq<int>, k: int| (at.len() == 0 || checked2.contains(at)) implies
                        #[trigger] self.child_met(at, k, checked2, more) by {
                        if at != here {
                            assert(self.child_met(at, k, checked, places));
                            if self.met(at.push(k), checked, places) {
                                assert(self.met(at.push(k), checked2, places2));
                            }
                        }
                    }
                }
                self.lemma_tree_finds_nothing(next, base, checked2, more)
            }
        }
    }

    /// A volume with nothing wrong with it has a report without findings, whichever driver wrote
    /// it: nothing amiss with its tree and its bitmap, nothing that opening remarks on, the head
    /// of its table as the format has it, and a part in use that is the part that is, or is not
    /// stated. A check of it comes to its end where it takes on as many names.
    #[verifier::rlimit(60)]
    pub proof fn lemma_a_volume_with_nothing_amiss_has_a_clean_report(&self)
        requires
            self.wf(),
            self.dirs_apart(),
            self.nothing_amiss(),
            self.checks_to_the_end(),
            0 < self.taken_on().max_findings,
            self.remarks().len() == 0,
            self.vol().table(0) == 0xFFFF_FFF8,
            self.vol().table(1) == 0xFFFF_FFFF,
            ({
                let count = self.vol().layout.cluster_count as int;
                let used = in_use_among(self.vol(), self.bitmap(), count).len() as int;
                let stated = self.main_boot().percent_in_use;
                stated == 0xFF || count > 0 && stated as int == 100 * used / count
            }),
        ensures
            self.scanned().kept.len() == 0,
            !self.scanned().truncated,
    {
        broadcast use crate::dirent::FileAttributes::lemma_of_word;

        self.lemma_sound();
        let vol = self.vol();
        let bitmap = self.bitmap();
        let none = Seq::<u8>::empty();
        let found = self.found_at_first();
        assert(found == (FindingsView {
            kept: Seq::empty(),
            limit: self.taken_on().max_findings as int,
            truncated: false,
        }));
        let start = Claimed { reached: Set::empty(), found };
        let one = Storage::Chain(bitmap.first_cluster);
        let two = Storage::Chain(vol.layout.upcase_cluster);
        let three = Storage::Chain(vol.layout.first_cluster_of_root);
        let a = vol.claimed(bitmap, one, bitmap.bytes, none, start);
        let b = vol.claimed(bitmap, two, vol.layout.upcase_bytes, none, a);
        let c = vol.claimed(bitmap, three, self.root_size(), none, b);
        let root = self.root_node();
        let top = Seq::<int>::empty();
        assert(self.node_at(top) == Some(root));
        assert forall|x: int| #[trigger] vol.occupies(one, bitmap.bytes, x) implies
            !start.reached.contains(x) && vol.allocated(bitmap, x as u32) == Ok::<bool, ReadError>(
            true,
        ) by {
            assert(self.has_cluster(Stream::Bitmap, x));
        }
        lemma_claimed_finds_nothing(vol, bitmap, one, bitmap.bytes, none, start);
        lemma_claimed(vol, bitmap, one, bitmap.bytes, none, start);
        assert forall|x: int| #[trigger] vol.occupies(two, vol.layout.upcase_bytes, x) implies
            !a.reached.contains(x) && vol.allocated(bitmap, x as u32) == Ok::<bool, ReadError>(
            true,
        ) by {
            assert(self.has_cluster(Stream::Upcase, x));
            if a.reached.contains(x) {
                assert(vol.occupies(one, bitmap.bytes, x));
                assert(self.has_cluster(Stream::Bitmap, x));
                assert(false);
            }
        }
        lemma_claimed_finds_nothing(vol, bitmap, two, vol.layout.upcase_bytes, none, a);
        lemma_claimed(vol, bitmap, two, vol.layout.upcase_bytes, none, a);
        assert forall|x: int| #[trigger] vol.occupies(three, self.root_size(), x) implies
            !b.reached.contains(x) && vol.allocated(bitmap, x as u32) == Ok::<bool, ReadError>(
            true,
        ) by {
            assert(self.has_cluster(Stream::At(top), x));
            if b.reached.contains(x) {
                if a.reached.contains(x) {
                    assert(vol.occupies(one, bitmap.bytes, x));
                    assert(self.has_cluster(Stream::Bitmap, x));
                } else {
                    assert(vol.occupies(two, vol.layout.upcase_bytes, x));
                    assert(self.has_cluster(Stream::Upcase, x));
                }
                assert(false);
            }
        }
        lemma_claimed_finds_nothing(vol, bitmap, three, self.root_size(), none, b);
        lemma_claimed(vol, bitmap, three, self.root_size(), none, b);
        let base = c.reached;
        assert forall|x: int| base.contains(x) implies #[trigger] self.is_resident_cluster(x) by {
            if !b.reached.contains(x) {
                assert(vol.occupies(three, self.root_size(), x));
            } else if !a.reached.contains(x) {
                assert(vol.occupies(two, vol.layout.upcase_bytes, x));
            } else {
                assert(vol.occupies(one, bitmap.bytes, x));
            }
        }
        let scan = TreeScan {
            queue: seq![Walked { path: none, node: root }],
            visited: Set::empty().insert(vol.layout.first_cluster_of_root as int),
            names: 0,
            state: c,
        };
        assert(c == self.residents_claimed(found));
        let done = self.tree_scanned(found);
        assert(done == self.tree_scan(scan));
        assert(0 <= vol.layout.cluster_count * vol.layout.bytes_per_cluster) by (nonlinear_arith);
        let checked = Set::<Seq<int>>::empty();
        let places = Seq::<Seq<int>>::empty();
        assert(root.directory()) by {
            assert(0x10u16 & 0x10u16 == 0x10u16) by (bit_vector);
        }
        let read = self.directory(root);
        let rest = scan.queue.drop_last();
        assert(rest =~= Seq::empty());
        assert(scan.queue.last() == (Walked { path: none, node: root }));
        assert(collected(c.found, read.log) == c.found);
        assert(self.owned(base, base, checked, true)) by {
            reveal(Reader::owned);
        }
        assert(self.laid(rest, scan.visited, checked, places)) by {
            reveal(Reader::laid);
            assert forall|v: int| #[trigger] scan.visited.contains(v) implies 0 <= v <= u32::MAX
                && exists|at: Seq<int>|
                self.met(at, checked, places) && #[trigger] self.dir_begins(at, v as u32) by {
                assert(v as u32 == vol.layout.first_cluster_of_root);
                assert(self.met(top, checked, places) && self.dir_begins(top, v as u32));
            }
        }
        let entries = read.entries->Ok_0;
        let after = self.enqueued(entries, 0, none, rest, scan.visited, 0);
        self.lemma_enqueued(entries, 0, none, rest, scan.visited, 0);
        assert forall|j: int| j < 0 implies #[trigger] self.child_met(top, j, checked, places) by {
            assert(top.push(j).drop_last() =~= top);
        }
        let more = self.lemma_enqueued_is_laid(
            top,
            entries,
            0,
            none,
            rest,
            scan.visited,
            0,
            checked,
            places,
        );
        assert(self.closed_under(checked, more)) by {
            reveal(Reader::closed_under);
            assert forall|at: Seq<int>, k: int| (at.len() == 0 || checked.contains(at)) implies
                #[trigger] self.child_met(at, k, checked, more) by {
                assert(at =~= top);
            }
        }
        let next = TreeScan {
            queue: after.queue,
            visited: after.visited,
            names: after.names,
            state: Claimed { found: c.found, ..c },
        };
        let all = self.lemma_tree_finds_nothing(next, base, checked, more);
        assert(done.found == found);
        let reached = done.reached->Some_0;
        let count = vol.layout.cluster_count as int;
        lemma_tally_is_ok(vol, bitmap, reached, count);
        lemma_tally(vol, bitmap, reached, count);
        assert(in_use_among(vol, bitmap, count).subset_of(reached)) by {
            assert forall|x: int| in_use_among(vol, bitmap, count).contains(x) implies
                reached.contains(x) by {
                let s = choose|s: Stream| #[trigger] self.has_cluster(s, x);
                reveal(Reader::owned);
                match s {
                    Stream::At(at) => {
                        if at.len() == 0 {
                            assert(at =~= top);
                            assert(vol.occupies(three, self.root_size(), x));
                        } else {
                            let node = self.node_at(at)->Some_0;
                            if node.storage.first() is None {
                                let i = choose|i: int|
                                    0 <= i < ceil_div(node.data_length as int, vol.per())
                                        && #[trigger] vol.is_cluster(node.storage, i, x);
                                assert(false);
                            }
                            self.lemma_every_place(all, at);
                            assert(self.has_at(at, x));
                        }
                    },
                    _ => {},
                }
            }
        }
        self.lemma_part_in_use(vol.tally(bitmap, reached, count)->Ok_0.in_use);
    }
}

/// The clusters in use can be counted where the bitmap can be read for each.
proof fn lemma_tally_is_ok(vol: Vol, bitmap: Resident, reached: Set<int>, n: int)
    requires
        0 <= n <= u32::MAX - 2,
        forall|c: int| 2 <= c < 2 + n ==> #[trigger] vol.allocated(bitmap, c as u32) is Ok,
    ensures
        vol.tally(bitmap, reached, n) is Ok,
    decreases n,
{
    if n > 0 {
        lemma_tally_is_ok(vol, bitmap, reached, n - 1);
        assert(vol.allocated(bitmap, (2 + n - 1) as u32) is Ok);
    }
}

/// A check that has been through the tree says how many clusters the bitmap calls in use that no
/// stream has, and which is the first of them; and where the boot sector states a part in use, that
/// it is none, or that it is not the one that is.
pub proof fn lemma_the_bitmap_is_held_against_the_streams(
    vol: Vol,
    bitmap: Resident,
    boot: MainBootSector,
    reached: Set<int>,
    found: FindingsView,
)
    requires
        vol.wf(),
        found.kept.len() + 2 <= found.limit,
        forall|c: int|
            2 <= c < 2 + vol.layout.cluster_count ==> #[trigger] vol.allocated(bitmap, c as u32)
                is Ok,
    ensures
        ({
            let count = vol.layout.cluster_count as int;
            let used = in_use_among(vol, bitmap, count);
            let lost = used.difference(reached);
            let after = vol.allocation_scanned(bitmap, boot, reached, found).kept;
            let stated = boot.percent_in_use;
            let before = found.kept.len() as int;
            let astray = if lost.len() > 0 {
                1int
            } else {
                0int
            };
            let wrong = stated != 0xFF && (stated > 100 || count > 0 && stated as int != 100
                * used.len() as int / count || count == 0 && stated != 0);
            &&& after.len() == before + astray + (if wrong {
                1int
            } else {
                0int
            })
            &&& after.take(before) == found.kept
            &&& lost.len() > 0 ==> exists|first: u32|
                lost.contains(first as int) && (forall|c: int| lost.contains(c) ==> first <= c)
                    && after[before] == (#[trigger] astray_from(first, lost.len())).anomaly_of()
            &&& wrong && stated > 100 ==> after.last()
                == ReadError::PercentInUseOutOfRange { stated }.anomaly_of()
            &&& wrong && stated <= 100 && count > 0 ==> after.last()
                == ReadError::PercentInUseStale {
                stated,
                in_use: used.len() as u64,
                clusters: count as u32,
                actual: (100 * used.len() as int / count) as u8,
            }.anomaly_of()
        }),
{
    let count = vol.layout.cluster_count as int;
    let used = in_use_among(vol, bitmap, count);
    lemma_tally_is_ok(vol, bitmap, reached, count);
    lemma_tally(vol, bitmap, reached, count);
    let tally = vol.tally(bitmap, reached, count)->Ok_0;
    let lost = used.difference(reached);
    lemma_in_use_are_few(vol, bitmap, count);
    let after = vol.allocation_scanned(bitmap, boot, reached, found).kept;
    let n = used.len() as int;
    if count > 0 {
        assert(0 <= n * 100 / count <= 100) by (nonlinear_arith)
            requires
                0 <= n <= count,
                count > 0,
        ;
        assert(n * 100 == 100 * n);
    }
    assert(after.take(found.kept.len() as int) =~= found.kept);
    match tally.first {
        Some(first) => {
            assert(lost.contains(first as int));
            if lost.len() == 0 {
                assert(lost =~= Set::empty());
            }
            assert(after[found.kept.len() as int] == astray_from(
                first,
                lost.len(),
            ).anomaly_of());
        },
        None => {
            assert(lost =~= Set::empty());
        },
    }
}

/// The remark on clusters in use that no stream has.
pub open spec fn astray_from(first: u32, count: nat) -> ReadError {
    ReadError::LostClusters { count: count as u64, first }
}

/// No more clusters are in use than there are.
proof fn lemma_in_use_are_few(vol: Vol, bitmap: Resident, n: int)
    requires
        0 <= n,
    ensures
        in_use_among(vol, bitmap, n).len() <= n,
{
    let all = vstd::set_lib::set_int_range(2, 2 + n);
    vstd::set_lib::lemma_int_range(2, 2 + n);
    vstd::set_lib::lemma_len_subset(in_use_among(vol, bitmap, n), all);
}

/// A stream that comes back to a cluster of its own is told from two that meet on one: the first is
/// said to loop, from its first cluster back to the one it comes back to.
pub proof fn lemma_a_loop_is_told_from_a_cross_link(
    vol: Vol,
    storage: Storage,
    index: int,
    cluster: u32,
    path: Seq<u8>,
)
    ensures
        ({
            let told = vol.shared(storage, index, cluster, path);
            let loops = exists|j: int|
                0 <= j < index && #[trigger] vol.is_cluster(storage, j, cluster as int);
            let shown = AnomalyView {
                severity: Severity::Integrity,
                category: Category::AllocationBitmap,
                location: Location { sector: None, cluster: Some(cluster), entry: None },
                detail: if loops {
                    loop_text(
                        match storage {
                            Storage::Empty => 0,
                            Storage::Contiguous(first) => first,
                            Storage::Chain(first) => first,
                        },
                        cluster,
                    )
                } else {
                    ReadError::CrossLinkedCluster { cluster }.text()
                },
            };
            told == about(path, shown)
        }),
{
    reveal(ReadError::severity_of);
    reveal(ReadError::category_of);
    reveal(ReadError::location_of);
    if vol.had_before(storage, index, cluster) {
        let j = choose|j: int|
            0 <= j < index && #[trigger] vol.stream_at(storage, j) == Ok::<Option<u32>, ReadError>(
                Some(cluster),
            );
        assert(vol.is_cluster(storage, j, cluster as int));
    }
    if exists|j: int| 0 <= j < index && #[trigger] vol.is_cluster(storage, j, cluster as int) {
        let j = choose|j: int|
            0 <= j < index && #[trigger] vol.is_cluster(storage, j, cluster as int);
        assert(vol.stream_at(storage, j) == Ok::<Option<u32>, ReadError>(Some(cluster)));
    }
}

} // verus!
