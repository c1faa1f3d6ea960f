//! A volume a format has written has nothing wrong with it.
use vstd::prelude::*;

use crate::allocate::lemma_settled;
use crate::deviation::{collected, Noted};
use crate::finding::FindingsView;
use crate::fresh::{bitmap_clusters, lemma_stream_run, runs, upcase_clusters, Fresh};
use crate::geometry::FIRST_CLUSTER;
use crate::image::{lemma_ceil_div, lemma_directory_fits};
use crate::materialize::{format_mapping, formatted, planned};
use crate::node::Named;
use crate::number::ceil_div;
use crate::options::FormatOptions;
use crate::policy::OpenOptions;
use crate::read_error::ReadError;
use crate::reader::{from_base, name_cap, opened, room_for_names, Opened, Reader};
use crate::rescan::cluster_range;
use crate::roundtrip::{
    fresh_of, lemma_entry_is_a_directory, lemma_formatted_volume_opens, lemma_fresh,
    lemma_slots_of_entries,
};
use crate::scan::{with_all, Claimed, Tally, TreeDone, TreeScan};
use crate::slots::lemma_slots;
use crate::soundness::countable;
use crate::source::SourceView;
use crate::upcase_table::RECOMMENDED_UPCASE_BYTES;
use crate::volume::{Storage, Vol};
use crate::walk::Walked;

verus! {

/// How far a check of the tree has come.
pub struct Progress {
    /// The entries to be checked, the last of them first.
    pub queued: Seq<(int, int)>,
    /// The entries that have been.
    pub done: Set<(int, int)>,
    /// Which directories' entries are among them.
    pub opened: Seq<bool>,
}

impl Fresh {
    /// Names of those of the first `n` directories that are opened.
    pub open spec fn names_in(self, opened: Seq<bool>, n: int) -> int
        decreases n,
    {
        if n <= 0 {
            0
        } else {
            self.names_in(opened, n - 1) + if opened[n - 1] {
                self.tree.dirs[n - 1].entries.len() as int
            } else {
                0
            }
        }
    }

    /// Names of all directories.
    pub open spec fn all_names(self) -> int {
        self.names_in(
            Seq::new(self.tree.dirs.len(), |i: int| true),
            self.tree.dirs.len() as int,
        )
    }

    /// Whether a cluster is of an entry that has been checked.
    pub open spec fn is_done(self, done: Set<(int, int)>, c: int) -> bool {
        exists|d: int, j: int| done.contains((d, j)) && #[trigger] self.has_cluster(d, j, c)
    }

    /// Whether the entries to be checked are what is queued.
    spec fn queue_is(self, queue: Seq<Walked>, queued: Seq<(int, int)>) -> bool {
        &&& queued.len() == queue.len()
        &&& forall|i: int|
            0 <= i < queued.len() ==> {
                let pair = #[trigger] queued[i];
                &&& self.has_entry(pair.0, pair.1)
                &&& self.run(pair.0, pair.1).count > 0
                &&& queue[i].node == self.named(pair.0, pair.1).node
                &&& queue[i].path.len() > 0
            }
    }

    /// Whether a check of the tree has come this far.
    #[verifier::opaque]
    spec fn come_to(self, scan: TreeScan, progress: Progress) -> bool {
        let queued = progress.queued;
        let done = progress.done;
        let opened = progress.opened;
        &&& opened.len() == self.tree.dirs.len()
        &&& opened[0]
        &&& self.queue_is(scan.queue, queued)
        &&& forall|i: int, l: int|
            0 <= i < l < queued.len() ==> #[trigger] queued[i] != #[trigger] queued[l]
        &&& forall|i: int| 0 <= i < queued.len() ==> !done.contains(#[trigger] queued[i])
        &&& forall|d: int, j: int|
            #[trigger] done.contains((d, j)) ==> self.has_entry(d, j) && self.run(d, j).count > 0
        &&& forall|d: int, j: int|
            #[trigger] self.has_entry(d, j) && self.run(d, j).count > 0 ==> opened[d] == (
            done.contains((d, j)) || queued.contains((d, j)))
        &&& forall|d: int, j: int, k: int|
            #[trigger] self.names_dir(d, j, k) ==> opened[k] == done.contains((d, j))
        &&& forall|d: int, j: int, k: int|
            #[trigger] self.names_dir(d, j, k) ==> scan.visited.contains(
                self.tree.dirs[k].run.first as int,
            ) == opened[d]
        &&& scan.names == self.names_in(opened, self.tree.dirs.len() as int)
        &&& forall|c: int| #[trigger]
            scan.state.reached.contains(c) <==> FIRST_CLUSTER <= c < self.own_end(0)
                || self.is_done(done, c)
    }

    /// Opening one more directory adds its names.
    pub proof fn lemma_names_update(self, opened: Seq<bool>, d: int, n: int)
        requires
            0 <= n <= opened.len(),
            0 <= d < opened.len(),
            !opened[d],
        ensures
            self.names_in(opened.update(d, true), n) == self.names_in(opened, n) + (if d < n {
                self.tree.dirs[d].entries.len() as int
            } else {
                0
            }),
        decreases n,
    {
        if n > 0 {
            self.lemma_names_update(opened, d, n - 1);
        }
    }

    /// The names of some directories are no more than those of all.
    pub proof fn lemma_names_at_most(self, opened: Seq<bool>, n: int)
        requires
            opened.len() == self.tree.dirs.len(),
            0 <= n <= opened.len(),
        ensures
            0 <= self.names_in(opened, n) <= self.names_in(
                Seq::new(self.tree.dirs.len(), |i: int| true),
                n,
            ),
        decreases n,
    {
        if n > 0 {
            self.lemma_names_at_most(opened, n - 1);
        }
    }

    /// Where nothing is left to be checked, every directory is opened.
    proof fn lemma_all_opened(self, scan: TreeScan, progress: Progress, k: int)
        requires
            self.wf(),
            self.tidy(),
            self.come_to(scan, progress),
            progress.queued.len() == 0,
            0 <= k < self.tree.dirs.len(),
        ensures
            progress.opened[k],
        decreases k,
    {
        reveal(Fresh::come_to);
        if k > 0 {
            reveal(Fresh::tidy);
            assert(self.is_named(k));
            let (d, j) = choose|d: int, j: int| #[trigger] self.names_dir(d, j, k);
            self.lemma_names_inside(d, j, k);
            self.lemma_all_opened(scan, progress, d);
            assert(self.has_entry(d, j));
            assert(self.run(d, j).count > 0) by {
                lemma_directory_fits(
                    self.tree,
                    self.layout,
                    self.options.label,
                    format_mapping(),
                    k,
                );
            }
        }
    }

    /// Where nothing is left to be checked, every cluster in use has been reached.
    proof fn lemma_all_reached(self, vol: Vol, scan: TreeScan, progress: Progress)
        requires
            self.wf(),
            self.tidy(),
            self.is(vol),
            self.come_to(scan, progress),
            progress.queued.len() == 0,
        ensures
            scan.state.reached == cluster_range(
                FIRST_CLUSTER as int,
                self.tree.end_on(self.layout),
            ),
    {
        let end = self.tree.end_on(self.layout);
        let count = self.tree.dirs.len() as int;
        lemma_settled(self.tree, self.layout, format_mapping());
        lemma_directory_fits(self.tree, self.layout, self.options.label, format_mapping(), 0);
        self.lemma_head();
        assert(end == self.block(count));
        assert forall|c: int| #[trigger] scan.state.reached.contains(c) <==> FIRST_CLUSTER <= c
            < end by {
            reveal(Fresh::come_to);
            if FIRST_CLUSTER <= c < end && c >= self.own_end(0) {
                let d = self.lemma_block_of(count, c);
                self.lemma_all_opened(scan, progress, d);
                if c < self.own_end(d) {
                    assert(d > 0);
                    reveal(Fresh::tidy);
                    assert(self.is_named(d));
                    let (e, i) = choose|e: int, i: int| #[trigger] self.names_dir(e, i, d);
                    lemma_directory_fits(
                        self.tree,
                        self.layout,
                        self.options.label,
                        format_mapping(),
                        d,
                    );
                    assert(progress.done.contains((e, i)));
                    assert(self.has_cluster(e, i, c));
                } else {
                    let j = self.lemma_block_covered(
                        vol,
                        d,
                        self.tree.dirs[d].entries.len() as int,
                        c,
                    );
                    assert(self.has_entry(d, j));
                    assert(progress.done.contains((d, j)));
                    assert(self.has_cluster(d, j, c));
                }
            }
            if self.is_done(progress.done, c) {
                let (d, j) = choose|d: int, j: int|
                    progress.done.contains((d, j)) && #[trigger] self.has_cluster(d, j, c);
                self.lemma_run(vol, d, j);
                self.lemma_behind_root(vol, d, j);
            }
        }
        assert(scan.state.reached =~= cluster_range(FIRST_CLUSTER as int, end));
    }
}

impl Fresh {
    /// The clusters of an entry that is to be checked are reached by no stream checked before.
    proof fn lemma_unreached(self, vol: Vol, scan: TreeScan, progress: Progress, c: int)
        requires
            self.wf(),
            self.tidy(),
            self.is(vol),
            self.come_to(scan, progress),
            progress.queued.len() > 0,
            self.has_cluster(progress.queued.last().0, progress.queued.last().1, c),
        ensures
            !scan.state.reached.contains(c),
    {
        reveal(Fresh::come_to);
        let (d, j) = progress.queued.last();
        assert(progress.queued[progress.queued.len() - 1] == (d, j));
        self.lemma_behind_root(vol, d, j);
        if self.is_done(progress.done, c) {
            let (e, i) = choose|e: int, i: int|
                progress.done.contains((e, i)) && #[trigger] self.has_cluster(e, i, c);
            self.lemma_apart(vol, d, j, e, i, c);
        }
    }

    /// The check of what is to be checked next.
    spec fn next_done(self, scan: TreeScan, progress: Progress) -> Claimed {
        let (d, j) = progress.queued.last();
        let run = self.run(d, j);
        Claimed {
            reached: scan.state.reached + cluster_range(
                run.first as int,
                run.first + run.count,
            ),
            ..scan.state
        }
    }

    /// A cluster is of an entry that has been checked where it was before or is of the last.
    proof fn lemma_is_done(self, done: Set<(int, int)>, d: int, j: int, c: int)
        ensures
            self.is_done(done.insert((d, j)), c) == (self.is_done(done, c) || self.has_cluster(
                d,
                j,
                c,
            )),
    {
        let more = done.insert((d, j));
        if self.is_done(done, c) {
            let (e, i) = choose|e: int, i: int|
                done.contains((e, i)) && #[trigger] self.has_cluster(e, i, c);
            assert(more.contains((e, i)) && self.has_cluster(e, i, c));
        }
        if self.has_cluster(d, j, c) {
            assert(more.contains((d, j)) && self.has_cluster(d, j, c));
        }
        if self.is_done(more, c) {
            let (e, i) = choose|e: int, i: int|
                more.contains((e, i)) && #[trigger] self.has_cluster(e, i, c);
            assert((e, i) == (d, j) || done.contains((e, i)));
        }
    }

    /// Checking a file.
    proof fn lemma_file_step(self, vol: Vol, scan: TreeScan, progress: Progress)
        requires
            self.wf(),
            self.tidy(),
            self.is(vol),
            self.come_to(scan, progress),
            progress.queued.len() > 0,
            !scan.queue.last().node.directory(),
        ensures
            self.come_to(
                TreeScan {
                    queue: scan.queue.drop_last(),
                    state: self.next_done(scan, progress),
                    ..scan
                },
                Progress {
                    queued: progress.queued.drop_last(),
                    done: progress.done.insert(progress.queued.last()),
                    ..progress
                },
            ),
    {
        reveal(Fresh::come_to);
        let queued = progress.queued;
        let n = queued.len() - 1;
        let (d, j) = queued.last();
        let rest = queued.drop_last();
        let done = progress.done.insert((d, j));
        assert(queued[n] == (d, j));
        self.lemma_run(vol, d, j);
        assert forall|e: int, i: int| #[trigger] self.has_entry(e, i) && self.run(e, i).count
            > 0 implies progress.opened[e] == (done.contains((e, i)) || rest.contains((e, i))) by {
            if queued.contains((e, i)) {
                let l = choose|l: int| 0 <= l < queued.len() && queued[l] == (e, i);
                if l < n {
                    assert(rest[l] == (e, i));
                }
            }
            if rest.contains((e, i)) {
                let l = choose|l: int| 0 <= l < rest.len() && rest[l] == (e, i);
                assert(queued[l] == (e, i));
            }
        }
        assert forall|e: int, i: int, k: int| #[trigger] self.names_dir(e, i, k) implies
            progress.opened[k] == done.contains((e, i)) by {
            assert((e, i) != (d, j));
        }
        assert forall|c: int| #[trigger]
            self.next_done(scan, progress).reached.contains(c) <==> FIRST_CLUSTER <= c
                < self.own_end(0) || self.is_done(done, c) by {
            self.lemma_is_done(progress.done, d, j, c);
            assert(scan.state.reached.contains(c) <==> FIRST_CLUSTER <= c < self.own_end(0)
                || self.is_done(progress.done, c));
        }
    }
}

impl Fresh {
    /// Whether checking directory `k` has added its names to what is to be checked.
    spec fn has_added(
        self,
        scan: TreeScan,
        next: TreeScan,
        rest: Seq<Walked>,
        prefix: Seq<u8>,
        k: int,
    ) -> bool {
        &&& next.queue == rest + self.items_from(k, 0, prefix)
        &&& next.names == scan.names + self.tree.dirs[k].entries.len()
        &&& forall|m: int|
            0 <= m < self.tree.dirs.len() ==> (next.visited.contains(
                (#[trigger] self.tree.dirs[m]).run.first as int,
            ) <==> scan.visited.contains(self.tree.dirs[m].run.first as int) || exists|j: int|
                0 <= j && #[trigger] self.names_dir(k, j, m))
    }

    /// Whether an entry is queued, before and after those of a directory are.
    proof fn lemma_queued(self, rest: Seq<(int, int)>, k: int, pair: (int, int))
        ensures
            (rest + self.pairs_from(k, 0)).contains(pair) == (rest.contains(pair) || self.pair_in(
                k,
                0,
                pair,
            )),
    {
        let pairs = self.pairs_from(k, 0);
        let all = rest + pairs;
        self.lemma_pairs(k, 0, Seq::empty());
        if all.contains(pair) {
            let l = choose|l: int| 0 <= l < all.len() && all[l] == pair;
            if l < rest.len() {
                assert(rest[l] == pair);
            } else {
                assert(pairs[l - rest.len()] == pair);
            }
        }
        if rest.contains(pair) {
            let l = choose|l: int| 0 <= l < rest.len() && rest[l] == pair;
            assert(all[l] == pair);
        }
        if self.pair_in(k, 0, pair) {
            assert(pairs.contains(pair));
            let l = choose|l: int| 0 <= l < pairs.len() && pairs[l] == pair;
            assert(all[rest.len() + l] == pair);
        }
    }

    /// The names of a directory behind what is queued already.
    proof fn lemma_queue_is(
        self,
        queue: Seq<Walked>,
        queued: Seq<(int, int)>,
        prefix: Seq<u8>,
        k: int,
    )
        requires
            0 <= k < self.tree.dirs.len(),
            self.queue_is(queue, queued),
        ensures
            self.queue_is(
                queue + self.items_from(k, 0, prefix),
                queued + self.pairs_from(k, 0),
            ),
    {
        let pairs = self.pairs_from(k, 0);
        let items = self.items_from(k, 0, prefix);
        let all = queued + pairs;
        let more = queue + items;
        self.lemma_pairs(k, 0, prefix);
        assert forall|i: int| 0 <= i < all.len() implies {
            let pair = #[trigger] all[i];
            &&& self.has_entry(pair.0, pair.1)
            &&& self.run(pair.0, pair.1).count > 0
            &&& more[i].node == self.named(pair.0, pair.1).node
            &&& more[i].path.len() > 0
        } by {
            if i < queued.len() {
                assert(all[i] == queued[i]);
            } else {
                let l = i - queued.len();
                assert(all[i] == pairs[l]);
                assert(more[i] == items[l]);
                assert(self.pair_in(k, 0, pairs[l]));
            }
        }
    }

    /// Checking a directory.
    proof fn lemma_directory_step(
        self,
        vol: Vol,
        scan: TreeScan,
        progress: Progress,
        k: int,
        prefix: Seq<u8>,
        next: TreeScan,
    )
        requires
            self.wf(),
            self.tidy(),
            self.is(vol),
            self.come_to(scan, progress),
            progress.queued.len() > 0,
            self.names_dir(progress.queued.last().0, progress.queued.last().1, k),
            self.has_added(scan, next, scan.queue.drop_last(), prefix, k),
            next.state == self.next_done(scan, progress),
        ensures
            self.come_to(
                next,
                Progress {
                    queued: progress.queued.drop_last() + self.pairs_from(k, 0),
                    done: progress.done.insert(progress.queued.last()),
                    opened: progress.opened.update(k, true),
                },
            ),
    {
        reveal(Fresh::come_to);
        let queued = progress.queued;
        let n = queued.len() - 1;
        let (d, j) = queued.last();
        let rest = queued.drop_last();
        let pairs = self.pairs_from(k, 0);
        let all = rest + pairs;
        let done = progress.done.insert((d, j));
        let opened = progress.opened.update(k, true);
        assert(queued[n] == (d, j));
        self.lemma_names_inside(d, j, k);
        assert(!progress.opened[k]);
        self.lemma_queue_is(scan.queue.drop_last(), rest, prefix, k);
        self.lemma_pairs(k, 0, prefix);
        assert forall|i: int| 0 <= i < pairs.len() implies !rest.contains(#[trigger] pairs[i])
            && !done.contains(pairs[i]) by {
            let pair = pairs[i];
            assert(self.pair_in(k, 0, pair));
            assert(self.has_entry(pair.0, pair.1));
            if rest.contains(pair) {
                let l = choose|l: int| 0 <= l < rest.len() && rest[l] == pair;
                assert(queued[l] == pair);
            }
        }
        assert forall|i: int, l: int| 0 <= i < l < all.len() implies #[trigger] all[i]
            != #[trigger] all[l] by {
            if l < rest.len() {
                assert(all[i] == queued[i] && all[l] == queued[l]);
            } else {
                assert(all[l] == pairs[l - rest.len()]);
                if i < rest.len() {
                    assert(rest.contains(rest[i]));
                } else {
                    assert(all[i] == pairs[i - rest.len()]);
                }
            }
        }
        assert forall|i: int| 0 <= i < all.len() implies !done.contains(#[trigger] all[i]) by {
            if i < rest.len() {
                assert(all[i] == queued[i]);
            } else {
                assert(all[i] == pairs[i - rest.len()]);
            }
        }
        assert forall|e: int, i: int| #[trigger] self.has_entry(e, i) && self.run(e, i).count
            > 0 implies opened[e] == (done.contains((e, i)) || all.contains((e, i))) by {
            self.lemma_queued(rest, k, (e, i));
            if queued.contains((e, i)) {
                let l = choose|l: int| 0 <= l < queued.len() && queued[l] == (e, i);
                if l < n {
                    assert(rest[l] == (e, i));
                }
            }
            if rest.contains((e, i)) {
                let l = choose|l: int| 0 <= l < rest.len() && rest[l] == (e, i);
                assert(queued[l] == (e, i));
            }
            if e == k {
                assert(self.pair_in(k, 0, (e, i)));
            }
        }
        assert forall|e: int, i: int, m: int| #[trigger] self.names_dir(e, i, m) implies opened[m]
            == done.contains((e, i)) by {
            self.lemma_names_inside(e, i, m);
            if m == k || (e, i) == (d, j) {
                reveal(Fresh::tidy);
                assert(self.names_dir(d, j, k));
            }
        }
        assert forall|e: int, i: int, m: int| #[trigger] self.names_dir(e, i, m) implies
            next.visited.contains(self.tree.dirs[m].run.first as int) == opened[e] by {
            self.lemma_names_inside(e, i, m);
            if e != k && exists|i: int| 0 <= i && #[trigger] self.names_dir(k, i, m) {
                let l = choose|l: int| 0 <= l && #[trigger] self.names_dir(k, l, m);
                reveal(Fresh::tidy);
            }
        }
        self.lemma_names_update(progress.opened, k, self.tree.dirs.len() as int);
        assert forall|c: int| #[trigger]
            next.state.reached.contains(c) <==> FIRST_CLUSTER <= c < self.own_end(0)
                || self.is_done(done, c) by {
            self.lemma_is_done(progress.done, d, j, c);
            assert(scan.state.reached.contains(c) <==> FIRST_CLUSTER <= c < self.own_end(0)
                || self.is_done(progress.done, c));
        }
    }

    /// No names are in directories none of which is opened.
    pub proof fn lemma_no_names(self, n: int)
        requires
            0 <= n <= self.tree.dirs.len(),
        ensures
            self.names_in(Seq::new(self.tree.dirs.len(), |i: int| false), n) == 0,
        decreases n,
    {
        if n > 0 {
            self.lemma_no_names(n - 1);
        }
    }

    /// Checking the root directory.
    proof fn lemma_root_step(self, scan: TreeScan, next: TreeScan) -> (progress: Progress)
        requires
            self.wf(),
            self.tidy(),
            self.has_added(scan, next, Seq::empty(), Seq::empty(), 0),
            scan.names == 0,
            scan.visited == Set::empty().insert(self.tree.dirs[0].run.first as int),
            next.state.reached == cluster_range(FIRST_CLUSTER as int, self.own_end(0)),
        ensures
            self.come_to(next, progress),
    {
        lemma_settled(self.tree, self.layout, format_mapping());
        let none = Seq::new(self.tree.dirs.len(), |i: int| false);
        let pairs = self.pairs_from(0, 0);
        let progress = Progress {
            queued: pairs,
            done: Set::empty(),
            opened: none.update(0, true),
        };
        reveal(Fresh::come_to);
        self.lemma_pairs(0, 0, Seq::empty());
        self.lemma_queue_is(Seq::empty(), Seq::empty(), Seq::empty(), 0);
        assert(Seq::<Walked>::empty() + self.items_from(0, 0, Seq::empty()) =~= self.items_from(
            0,
            0,
            Seq::empty(),
        ));
        assert(Seq::<(int, int)>::empty() + pairs =~= pairs);
        assert forall|e: int, i: int| #[trigger] self.has_entry(e, i) && self.run(e, i).count
            > 0 implies progress.opened[e] == (progress.done.contains((e, i)) || pairs.contains(
            (e, i),
        )) by {
            self.lemma_queued(Seq::empty(), 0, (e, i));
            if e == 0 {
                assert(self.pair_in(0, 0, (e, i)));
            }
        }
        assert forall|e: int, i: int, m: int| #[trigger] self.names_dir(e, i, m) implies
            progress.opened[m] == progress.done.contains((e, i)) by {
            self.lemma_names_inside(e, i, m);
        }
        assert forall|e: int, i: int, m: int| #[trigger] self.names_dir(e, i, m) implies
            next.visited.contains(self.tree.dirs[m].run.first as int) == progress.opened[e] by {
            self.lemma_names_inside(e, i, m);
            if self.tree.dirs[m].run.first == self.tree.dirs[0].run.first {
                self.lemma_firsts_apart(m, 0);
            }
            if e != 0 && exists|i: int| 0 <= i && #[trigger] self.names_dir(0, i, m) {
                let l = choose|l: int| 0 <= l && #[trigger] self.names_dir(0, l, m);
                reveal(Fresh::tidy);
            }
        }
        self.lemma_no_names(self.tree.dirs.len() as int);
        self.lemma_names_update(none, 0, self.tree.dirs.len() as int);
        assert forall|c: int| #[trigger]
            next.state.reached.contains(c) <==> FIRST_CLUSTER <= c < self.own_end(0)
                || self.is_done(progress.done, c) by {}
        progress
    }
}

impl<'a> Reader<'a> {
    /// Claiming the clusters of what is to be checked next finds nothing.
    proof fn lemma_claims(&self, fresh: Fresh, scan: TreeScan, progress: Progress)
        requires
            fresh.wf(),
            fresh.tidy(),
            self.reads_back(fresh),
            self.bitmap() == fresh.bitmap(),
            fresh.come_to(scan, progress),
            progress.queued.len() > 0,
            !scan.state.found.full(),
        ensures
            self.vol().claimed(
                self.bitmap(),
                scan.queue.last().node.storage,
                scan.queue.last().node.data_length,
                scan.queue.last().path,
                scan.state,
            ) == fresh.next_done(scan, progress),
    {
        let vol = self.vol();
        let item = scan.queue.last();
        let (d, j) = progress.queued.last();
        assert(fresh.has_entry(d, j) && fresh.run(d, j).count > 0 && item.node == fresh.named(
            d,
            j,
        ).node) by {
            reveal(Fresh::come_to);
            let n = progress.queued.len() - 1;
            assert(progress.queued[n] == (d, j));
            assert(scan.queue[n] == item);
        }
        let run = fresh.run(d, j);
        fresh.lemma_run(vol, d, j);
        assert forall|c: int| run.first <= c < run.first + run.count implies
            !scan.state.reached.contains(c) by {
            fresh.lemma_unreached(vol, scan, progress, c);
        }
        fresh.lemma_claim_run(
            vol,
            item.node.storage,
            item.node.data_length,
            item.path,
            run.first as int,
            run.count as int,
            0,
            scan.state,
        );
    }

    /// Checking the tree of a volume a format has written finds nothing, and reaches every
    /// cluster in use.
    proof fn lemma_tree_is_clean(&self, fresh: Fresh, scan: TreeScan, progress: Progress)
        requires
            fresh.wf(),
            fresh.tidy(),
            self.reads_back(fresh),
            self.bitmap() == fresh.bitmap(),
            fresh.come_to(scan, progress),
            !scan.state.found.full(),
            fresh.all_names() <= name_cap(self.taken_on(), self.vol().layout),
        ensures
            self.tree_scan(scan) == (TreeDone {
                reached: Some(
                    cluster_range(
                        FIRST_CLUSTER as int,
                        fresh.tree.end_on(fresh.layout),
                    ),
                ),
                found: scan.state.found,
            }),
        decreases
            2 * (name_cap(self.taken_on(), self.vol().layout) - scan.names) + scan.queue.len(),
    {
        let vol = self.vol();
        assert(scan.names == fresh.names_in(progress.opened, fresh.tree.dirs.len() as int)
            && progress.opened.len() == fresh.tree.dirs.len() && scan.queue.len()
            == progress.queued.len()) by {
            reveal(Fresh::come_to);
        }
        fresh.lemma_names_at_most(progress.opened, fresh.tree.dirs.len() as int);
        if scan.queue.len() == 0 {
            fresh.lemma_all_reached(vol, scan, progress);
        } else {
            let n = progress.queued.len() - 1;
            let item = scan.queue.last();
            let rest = scan.queue.drop_last();
            let (d, j) = progress.queued.last();
            assert(fresh.has_entry(d, j) && fresh.run(d, j).count > 0 && item.node == fresh.named(
                d,
                j,
            ).node && item.path.len() > 0) by {
                reveal(Fresh::come_to);
                assert(progress.queued[n] == (d, j));
                assert(scan.queue[n] == item);
            }
            self.lemma_claims(fresh, scan, progress);
            fresh.lemma_run(vol, d, j);
            let state = fresh.next_done(scan, progress);
            if !item.node.directory() {
                let next = TreeScan { queue: rest, state, ..scan };
                fresh.lemma_file_step(vol, scan, progress);
                self.lemma_tree_is_clean(
                    fresh,
                    next,
                    Progress {
                        queued: progress.queued.drop_last(),
                        done: progress.done.insert(progress.queued.last()),
                        ..progress
                    },
                );
            } else {
                let k = fresh.tree.dirs[d].entries[j].node->Dir_0 as int;
                let count = fresh.tree.dirs[k].entries.len() as int;
                let opened = progress.opened.update(k, true);
                assert(fresh.names_dir(d, j, k));
                assert(!progress.opened[k] && forall|i: int, m: int|
                    0 <= i && #[trigger] fresh.names_dir(k, i, m) ==> !scan.visited.contains(
                        fresh.tree.dirs[m].run.first as int,
                    )) by {
                    reveal(Fresh::come_to);
                    assert(progress.queued[n] == (d, j));
                }
                fresh.lemma_names_update(progress.opened, k, fresh.tree.dirs.len() as int);
                fresh.lemma_names_at_most(opened, fresh.tree.dirs.len() as int);
                lemma_entry_is_a_directory(fresh, d, j, k);
                self.lemma_directory_back(fresh, item.node, k);
                let names = fresh.names(k, count);
                assert(self.directory(item.node).entries == Ok::<Seq<Named>, ReadError>(names));
                assert(collected(state.found, Seq::<Noted>::empty()) == state.found);
                self.lemma_enqueues(
                    fresh,
                    k,
                    0,
                    item.path,
                    rest,
                    scan.visited,
                    scan.names,
                );
                self.lemma_enqueued(names, 0, item.path, rest, scan.visited, scan.names);
                let after = self.enqueued(
                    names,
                    0,
                    item.path,
                    rest,
                    scan.visited,
                    scan.names,
                );
                let next = TreeScan {
                    queue: after.queue,
                    visited: after.visited,
                    names: after.names,
                    state,
                };
                fresh.lemma_directory_step(vol, scan, progress, k, item.path, next);
                self.lemma_tree_is_clean(
                    fresh,
                    next,
                    Progress {
                        queued: progress.queued.drop_last() + fresh.pairs_from(k, 0),
                        done: progress.done.insert(progress.queued.last()),
                        opened,
                    },
                );
                assert(self.tree_scan(scan) == self.tree_scan(next));
            }
        }
    }
}

impl Fresh {
    /// The clusters up to a directory have room for the names of those before it.
    proof fn lemma_names_have_room(self, vol: Vol, n: int)
        requires
            self.wf(),
            self.is(vol),
            0 <= n <= self.tree.dirs.len(),
        ensures
            96 * self.names_in(Seq::new(self.tree.dirs.len(), |i: int| true), n) <= (self.block(n)
                - self.block(0)) * self.per(),
        decreases n,
    {
        if n > 0 {
            let d = n - 1;
            let count = self.tree.dirs[d].entries.len() as int;
            let clusters = self.tree.dirs[d].run.count as int;
            self.lemma_names_have_room(vol, d);
            self.lemma_slot_count(vol, d);
            self.lemma_vol(vol);
            lemma_slots_of_entries(self, d, count);
            lemma_slots(vol);
            lemma_directory_fits(self.tree, self.layout, self.options.label, format_mapping(), d);
            assert(clusters * self.per() == 32 * (clusters * vol.slots())) by (nonlinear_arith)
                requires
                    self.per() == vol.slots() * 32,
            ;
            let (a, b, per) = (self.block(d) - self.block(0), self.block(n) - self.block(0),
                self.per());
            assert(a * per + clusters * per <= b * per) by (nonlinear_arith)
                requires
                    a + clusters <= b,
                    per >= 0,
            ;
        }
    }

    /// A volume has room for all its names.
    pub proof fn lemma_all_names_have_room(self, vol: Vol)
        requires
            self.wf(),
            self.is(vol),
        ensures
            self.all_names() <= room_for_names(self.layout),
    {
        let count = self.tree.dirs.len() as int;
        let (per, clusters) = (self.per(), self.layout.cluster_count as int);
        lemma_settled(self.tree, self.layout, format_mapping());
        lemma_directory_fits(
            self.tree,
            self.layout,
            self.options.label,
            format_mapping(),
            count - 1,
        );
        self.lemma_head();
        self.lemma_names_have_room(vol, count);
        let used = self.block(count) - self.block(0);
        assert(used * per <= clusters * per) by (nonlinear_arith)
            requires
                used <= clusters,
                per >= 0,
        ;
    }

    /// A directory has no more names than all have.
    pub proof fn lemma_directory_of_all(self, opened: Seq<bool>, d: int, n: int)
        requires
            0 <= d < n <= self.tree.dirs.len(),
            opened.len() == self.tree.dirs.len(),
            opened[d],
        ensures
            self.tree.dirs[d].entries.len() <= self.names_in(opened, n),
        decreases n,
    {
        self.lemma_names_at_most(opened, n - 1);
        if d < n - 1 {
            self.lemma_directory_of_all(opened, d, n - 1);
        }
    }

    /// The clusters the bitmap calls in use are those reached.
    proof fn lemma_tally(self, vol: Vol, n: int)
        requires
            self.wf(),
            self.is(vol),
            0 <= n <= self.layout.cluster_count,
        ensures
            ({
                let used = self.tree.end_on(self.layout) - FIRST_CLUSTER;
                vol.tally(
                    self.bitmap(),
                    cluster_range(FIRST_CLUSTER as int, FIRST_CLUSTER + used),
                    n,
                ) == Ok::<Tally, ReadError>(
                    Tally {
                        in_use: if n <= used {
                            n
                        } else {
                            used
                        },
                        lost: 0,
                        first: None,
                    },
                )
            }),
        decreases n,
    {
        self.lemma_head();
        self.lemma_vol(vol);
        if n > 0 {
            self.lemma_tally(vol, n - 1);
            self.lemma_allocated(vol, (FIRST_CLUSTER + n - 1) as u32);
        }
    }
}

impl<'a> Reader<'a> {
    /// Claiming a stream finds nothing where nothing more can be found.
    proof fn lemma_claims_when_full(
        &self,
        fresh: Fresh,
        first: u32,
        count: int,
        bytes: u64,
        state: Claimed,
    )
        requires
            fresh.wf(),
            self.reads_back(fresh),
            self.bitmap() == fresh.bitmap(),
            runs(self.vol(), Storage::Chain(first), first as int, count),
            ceil_div(bytes as int, fresh.per()) == count,
            first + count <= fresh.tree.end_on(fresh.layout),
            state.found.full(),
            !state.reached.contains(first as int),
        ensures
            self.vol().claimed(
                self.bitmap(),
                Storage::Chain(first),
                bytes,
                Seq::empty(),
                state,
            ) == (Claimed { reached: state.reached.insert(first as int), ..state }),
    {
        let vol = self.vol();
        fresh.lemma_vol(vol);
        fresh.lemma_head();
        lemma_stream_run(vol, Storage::Chain(first), first as int, count, 0);
        fresh.lemma_allocated(vol, first);
    }

    /// Claiming the three streams every volume has finds nothing.
    proof fn lemma_residents_are_clean(&self, fresh: Fresh, found: FindingsView)
        requires
            fresh.wf(),
            self.reads_back(fresh),
            self.bitmap() == fresh.bitmap(),
        ensures
            self.residents_claimed(found).found == found,
            !found.full() ==> self.residents_claimed(found).reached == cluster_range(
                FIRST_CLUSTER as int,
                fresh.own_end(0),
            ),
    {
        let vol = self.vol();
        let layout = fresh.layout;
        let per = fresh.per();
        let none = Seq::<u8>::empty();
        let start = Claimed { reached: Set::empty(), found };
        let (a, b) = (bitmap_clusters(layout), upcase_clusters(layout));
        let c = fresh.tree.dirs[0].run.count as int;
        let (x, y, z) = (layout.bitmap_cluster, layout.upcase_cluster, layout.first_cluster_of_root);
        lemma_settled(fresh.tree, layout, format_mapping());
        lemma_directory_fits(fresh.tree, layout, fresh.options.label, format_mapping(), 0);
        lemma_ceil_div(layout.cluster_count as int, 8);
        lemma_ceil_div(layout.bitmap_bytes as int, per);
        lemma_ceil_div(RECOMMENDED_UPCASE_BYTES as int, per);
        fresh.lemma_head();
        fresh.lemma_vol(vol);
        fresh.lemma_chains(vol);
        fresh.lemma_slot_count(vol, 0);
        vstd::arithmetic::div_mod::lemma_mod_multiples_basic(c, per);
        vstd::arithmetic::div_mod::lemma_div_multiples_vanish(c, per);
        assert(per * c == c * per) by (nonlinear_arith);
        assert(ceil_div(self.root_size() as int, per) == c);
        if found.full() {
            let one = Claimed { reached: start.reached.insert(x as int), found };
            let two = Claimed { reached: one.reached.insert(y as int), found };
            self.lemma_claims_when_full(fresh, x, a, layout.bitmap_bytes, start);
            self.lemma_claims_when_full(fresh, y, b, layout.upcase_bytes, one);
            self.lemma_claims_when_full(fresh, z, c, self.root_size(), two);
        } else {
            let one = Claimed { reached: start.reached + cluster_range(x as int, x + a), found };
            let two = Claimed { reached: one.reached + cluster_range(y as int, y + b), found };
            fresh.lemma_claim_run(
                vol,
                Storage::Chain(x),
                layout.bitmap_bytes,
                none,
                x as int,
                a,
                0,
                start,
            );
            fresh.lemma_claim_run(
                vol,
                Storage::Chain(y),
                layout.upcase_bytes,
                none,
                y as int,
                b,
                0,
                one,
            );
            fresh.lemma_claim_run(
                vol,
                Storage::Chain(z),
                self.root_size(),
                none,
                z as int,
                c,
                0,
                two,
            );
            assert(two.reached + cluster_range(z as int, z + c) =~= cluster_range(
                FIRST_CLUSTER as int,
                fresh.own_end(0),
            ));
        }
    }

    /// Checking a volume a format has written finds nothing, where it takes on as many names as
    /// the volume has.
    pub proof fn lemma_fresh_volume_is_clean(&self, fresh: Fresh)
        requires
            fresh.wf(),
            fresh.tidy(),
            self.reads_back(fresh),
            self.bitmap() == fresh.bitmap(),
            self.main_boot() == fresh.boot(),
            self.remarks().len() == 0,
            fresh.all_names() <= self.taken_on().max_walk_entries,
        ensures
            self.scanned().kept.len() == 0,
            !self.scanned().truncated,
    {
        let vol = self.vol();
        let layout = fresh.layout;
        let none = FindingsView {
            kept: Seq::empty(),
            limit: self.taken_on().max_findings as int,
            truncated: false,
        };
        assert(with_all(none, self.remarks(), 0) == none);
        fresh.lemma_head();
        fresh.lemma_vol(vol);
        fresh.lemma_table(vol, 0);
        fresh.lemma_table(vol, 1);
        assert(self.head_scanned(none) == none);
        self.lemma_residents_are_clean(fresh, none);
        let state = self.residents_claimed(none);
        let root = Walked { path: Seq::empty(), node: self.root_node() };
        let queue = seq![root];
        let scan = TreeScan {
            queue,
            visited: Set::empty().insert(layout.first_cluster_of_root as int),
            names: 0,
            state,
        };
        assert(self.tree_scanned(none) == self.tree_scan(scan));
        assert(name_cap(self.taken_on(), vol.layout) >= 0) by {
            fresh.lemma_all_names_have_room(vol);
            fresh.lemma_names_at_most(
                Seq::new(fresh.tree.dirs.len(), |i: int| true),
                fresh.tree.dirs.len() as int,
            );
        }
        if !none.full() {
            let count = fresh.tree.dirs[0].entries.len() as int;
            let names = fresh.names(0, count);
            let rest = Seq::<Walked>::empty();
            lemma_settled(fresh.tree, layout, format_mapping());
            lemma_directory_fits(fresh.tree, layout, fresh.options.label, format_mapping(), 0);
            fresh.lemma_all_names_have_room(vol);
            fresh.lemma_directory_of_all(
                Seq::new(fresh.tree.dirs.len(), |i: int| true),
                0,
                fresh.tree.dirs.len() as int,
            );
            self.lemma_root_is_a_directory(fresh);
            self.lemma_directory_back(fresh, root.node, 0);
            assert(queue.last() == root);
            assert(queue.drop_last() =~= rest);
            assert(collected(none, Seq::<Noted>::empty()) == none);
            assert forall|j: int, m: int| 0 <= j && #[trigger] fresh.names_dir(0, j, m) implies
                !scan.visited.contains(fresh.tree.dirs[m].run.first as int) by {
                fresh.lemma_names_inside(0, j, m);
                if fresh.tree.dirs[m].run.first == fresh.tree.dirs[0].run.first {
                    fresh.lemma_firsts_apart(m, 0);
                }
            }
            self.lemma_enqueues(fresh, 0, 0, root.path, rest, scan.visited, 0);
            let after = self.enqueued(names, 0, root.path, rest, scan.visited, 0);
            let next = TreeScan {
                queue: after.queue,
                visited: after.visited,
                names: after.names,
                state,
            };
            assert(self.tree_scan(scan) == self.tree_scan(next));
            let progress = fresh.lemma_root_step(scan, next);
            self.lemma_tree_is_clean(fresh, next, progress);
            fresh.lemma_tally(vol, layout.cluster_count as int);
        }
    }

    /// What a format writes has nothing wrong with it: checking it finds nothing, where the check
    /// takes on as many names as the volume has.
    pub proof fn lemma_formatted_volume_is_clean(
        &self,
        source: Seq<SourceView>,
        volume_bytes: u64,
        options: FormatOptions,
        src: Seq<u8>,
        opening: OpenOptions,
        found: Opened,
    )
        requires
            countable(source),
            options.label.wf(),
            planned(source, volume_bytes, options) is Ok,
            from_base(src, opening.base) == formatted(source, volume_bytes, options),
            opened(from_base(src, opening.base)) == Ok::<Opened, ReadError>(found),
            self.holds(src, found, opening),
            fresh_of(source, volume_bytes, options).all_names()
                <= opening.limits.max_walk_entries,
        ensures
            self.scanned().kept.len() == 0,
            !self.scanned().truncated,
    {
        let fresh = fresh_of(source, volume_bytes, options);
        lemma_fresh(source, volume_bytes, options);
        lemma_formatted_volume_opens(source, volume_bytes, options);
        assert forall|d: int| 0 <= d < fresh.tree.dirs.len() implies (
        #[trigger] fresh.tree.dirs[d]).entries.len() <= opening.limits.max_walk_entries by {
            fresh.lemma_directory_of_all(
                Seq::new(fresh.tree.dirs.len(), |i: int| true),
                d,
                fresh.tree.dirs.len() as int,
            );
        }
        self.lemma_reads_back(src, fresh, opening);
        fresh.lemma_tidy(source);
        self.lemma_fresh_volume_is_clean(fresh);
    }
}

} // verus!
