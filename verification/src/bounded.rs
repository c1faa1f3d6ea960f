//! A check keeps no more than it was asked to.
use vstd::prelude::*;

use crate::deviation::{collected, Noted};
use crate::finding::{AnomalyView, FindingsView};
use crate::number::ceil_div;
use crate::read_error::ReadError;
use crate::reader::{name_cap, room_for_names, Reader};
use crate::scan::{with_all, Claimed, TreeScan};
use crate::volume::{Resident, Storage, Vol};
use crate::walk::{WalkStep, Walked};

verus! {

/// Whether what was found is no more than `limit`, and is said to be cut short only where it is
/// that many.
pub open spec fn capped(found: FindingsView, limit: int) -> bool {
    &&& found.limit == limit
    &&& found.kept.len() <= limit
    &&& found.truncated ==> found.kept.len() == limit
}

/// Adding the deviations of a list keeps to the limit.
proof fn lemma_collected_is_capped(found: FindingsView, log: Seq<Noted>, limit: int)
    requires
        capped(found, limit),
    ensures
        capped(collected(found, log), limit),
    decreases log.len(),
{
    if log.len() > 0 {
        lemma_collected_is_capped(found, log.drop_last(), limit);
    }
}

/// Adding what opening remarked on keeps to the limit.
proof fn lemma_with_all_is_capped(
    found: FindingsView,
    anomalies: Seq<AnomalyView>,
    n: int,
    limit: int,
)
    requires
        capped(found, limit),
    ensures
        capped(with_all(found, anomalies, n), limit),
    decreases n,
{
    if n > 0 {
        lemma_with_all_is_capped(found, anomalies, n - 1, limit);
    }
}

/// Claiming a stream keeps to the limit.
proof fn lemma_claim_is_capped(
    vol: Vol,
    bitmap: Resident,
    storage: Storage,
    bytes: u64,
    path: Seq<u8>,
    index: int,
    state: Claimed,
    limit: int,
)
    requires
        capped(state.found, limit),
    ensures
        capped(vol.claim(bitmap, storage, bytes, path, index, state).found, limit),
    decreases ceil_div(bytes as int, vol.per()) - index,
{
    if index < ceil_div(bytes as int, vol.per()) {
        match vol.stream_at(storage, index) {
            Ok(Some(cluster)) => {
                if !state.reached.contains(cluster as int) {
                    let reached = state.reached.insert(cluster as int);
                    match vol.allocated(bitmap, cluster) {
                        Ok(in_use) => {
                            let found = if in_use {
                                state.found
                            } else {
                                state.found.with(
                                    ReadError::ClusterNotAllocated {
                                        cluster,
                                    }.anomaly_of(),
                                )
                            };
                            let next = Claimed { reached, found };
                            if !found.full() {
                                lemma_claim_is_capped(
                                    vol,
                                    bitmap,
                                    storage,
                                    bytes,
                                    path,
                                    index + 1,
                                    next,
                                    limit,
                                );
                            }
                        },
                        Err(_) => {},
                    }
                }
            },
            _ => {},
        }
    }
}

impl<'a> Reader<'a> {
    /// Checking the tree keeps to the limit.
    proof fn lemma_tree_is_capped(&self, scan: TreeScan, limit: int)
        requires
            capped(scan.state.found, limit),
            scan.names <= name_cap(self.taken_on(), self.vol().layout),
        ensures
            capped(self.tree_scan(scan).found, limit),
        decreases
            2 * (name_cap(self.taken_on(), self.vol().layout) - scan.names) + scan.queue.len(),
    {
        if scan.queue.len() > 0 && !scan.state.found.full() {
            let item = scan.queue.last();
            let rest = scan.queue.drop_last();
            let node = item.node;
            lemma_claim_is_capped(
                self.vol(),
                self.bitmap(),
                node.storage,
                node.data_length,
                item.path,
                0,
                scan.state,
                limit,
            );
            let state = if node.directory() && item.path.len() == 0 {
                scan.state
            } else {
                self.vol().claimed(
                    self.bitmap(),
                    node.storage,
                    node.data_length,
                    item.path,
                    scan.state,
                )
            };
            if !node.directory() {
                self.lemma_tree_is_capped(TreeScan { queue: rest, state, ..scan }, limit);
            } else {
                let read = self.directory(node);
                let found = collected(state.found, read.log);
                lemma_collected_is_capped(state.found, read.log, limit);
                match read.entries {
                    Err(e) => {
                        if !(e is WalkTooLarge) {
                            self.lemma_tree_is_capped(
                                TreeScan {
                                    queue: rest,
                                    state: Claimed { found: found.with(e.anomaly_of()), ..state },
                                    ..scan
                                },
                                limit,
                            );
                        }
                    },
                    Ok(entries) => {
                        self.lemma_enqueued(
                            entries,
                            0,
                            item.path,
                            rest,
                            scan.visited,
                            scan.names,
                        );
                        let after = self.enqueued(
                            entries,
                            0,
                            item.path,
                            rest,
                            scan.visited,
                            scan.names,
                        );
                        if !after.over {
                            self.lemma_tree_is_capped(
                                TreeScan {
                                    queue: after.queue,
                                    visited: after.visited,
                                    names: after.names,
                                    state: Claimed { found, ..state },
                                },
                                limit,
                            );
                        }
                    },
                }
            }
        }
    }

    /// A check keeps no more findings than it takes on, and says that it was cut short only
    /// where it keeps that many.
    pub proof fn lemma_scan_is_capped(&self)
        requires
            self.wf(),
        ensures
            capped(self.scanned(), self.taken_on().max_findings as int),
    {
        let limit = self.taken_on().max_findings as int;
        let none = FindingsView { kept: Seq::empty(), limit, truncated: false };
        let opened = with_all(none, self.remarks(), self.remarks().len() as int);
        let found = self.head_scanned(opened);
        let vol = self.vol();
        let path = Seq::<u8>::empty();
        lemma_with_all_is_capped(none, self.remarks(), self.remarks().len() as int, limit);
        let start = Claimed { reached: Set::empty(), found };
        let bitmap = self.bitmap();
        let one = Storage::Chain(bitmap.first_cluster);
        let two = Storage::Chain(vol.layout.upcase_cluster);
        let three = Storage::Chain(vol.layout.first_cluster_of_root);
        let a = vol.claimed(bitmap, one, bitmap.bytes, path, start);
        let b = vol.claimed(bitmap, two, vol.layout.upcase_bytes, path, a);
        lemma_claim_is_capped(vol, bitmap, one, bitmap.bytes, path, 0, start, limit);
        lemma_claim_is_capped(vol, bitmap, two, vol.layout.upcase_bytes, path, 0, a, limit);
        lemma_claim_is_capped(vol, bitmap, three, self.root_size(), path, 0, b, limit);
        self.lemma_tree_is_capped(
            TreeScan {
                queue: seq![Walked { path, node: self.root_node() }],
                visited: Set::empty().insert(vol.layout.first_cluster_of_root as int),
                names: 0,
                state: self.residents_claimed(found),
            },
            limit,
        );
    }

    /// A walk under way gives no more paths than it takes on.
    proof fn lemma_walk_from_is_capped(
        &self,
        pending: Seq<Walked>,
        walked: Set<int>,
        out: Seq<Walked>,
    )
        requires
            out.len() <= name_cap(self.taken_on(), self.vol().layout),
        ensures
            self.walk_from(pending, walked, out) matches Ok(all) ==> all.len() <= name_cap(
                self.taken_on(),
                self.vol().layout,
            ),
        decreases name_cap(self.taken_on(), self.vol().layout) - out.len(),
    {
        match self.walk_step(pending, walked, out.len() as int) {
            WalkStep::Give { entry, pending, walked } => {
                self.lemma_walk_from_is_capped(pending, walked, out.push(entry));
            },
            _ => {},
        }
    }

    /// A walk gives no more paths than the caller takes on, and no more than the volume has room
    /// for.
    pub proof fn lemma_walk_is_capped(&self)
        requires
            self.wf(),
        ensures
            self.walked() matches Ok(all) ==> {
                &&& all.len() <= self.taken_on().max_walk_entries
                &&& all.len() <= room_for_names(self.vol().layout)
            },
    {
        let layout = self.vol().layout;
        let root = self.root_node();
        assert(0 <= layout.cluster_count * layout.bytes_per_cluster) by (nonlinear_arith);
        match self.children(root, Seq::empty()) {
            Ok(children) => {
                self.lemma_walk_from_is_capped(
                    children,
                    self.with_walked(root, Set::empty()),
                    Seq::empty(),
                );
            },
            Err(_) => {},
        }
    }
}

} // verus!
