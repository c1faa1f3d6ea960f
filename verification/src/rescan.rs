//! A volume a format has written, checked.
use vstd::prelude::*;

use crate::allocate::{
    dir_own, dir_start, entry_clusters, entry_start, lemma_dir_start, lemma_settled,
    lemma_streams_do_not_overlap,
};
use crate::fresh::{bitmap_clusters, lemma_chain_run, lemma_stream_run, runs, Fresh};
use crate::geometry::FIRST_CLUSTER;
use crate::image::{
    bitmap_byte, bitmap_of, head_pieces, lemma_ceil_div, lemma_clusters_lie_inside,
    lemma_directory_fits, lemma_file_fits, target_of,
};
use crate::materialize::{format_mapping, used_by};
use crate::model::ClusterRun;
use crate::name::folded_by;
use crate::number::ceil_div;
use crate::path::key_of;
use crate::placed::{holds_at, holds_source, is_declared, is_held, is_sourced};
use crate::read_error::ReadError;
use crate::reader::{name_cap, Reader};
use crate::scan::Claimed;
use crate::source::SourceView;
use crate::volume::{bit_set, Resident, Storage, Vol};
use crate::walk::{child_path, Walked};

verus! {

/// The bits of a byte of the bitmap are those of the clusters in use.
proof fn lemma_bitmap_bit(used: int, at: int, bit: u8)
    requires
        0 <= at < ceil_div(used, 8),
        0 <= used,
        bit < 8,
    ensures
        bit_set(bitmap_byte(used, at), bit) == (8 * at + bit < used),
{
    assert(forall|b: u8| b < 8 ==> 0xFFu8 & (1u8 << b) != 0) by (bit_vector);
    assert(forall|b: u8, s: u8|
        b < 8 && 1 <= s < 8 ==> ((0xFFu8 >> s) & (1u8 << b) != 0) == (b + s < 8)) by (bit_vector);
    if 8 * at + 8 > used {
        let s = (8 - used % 8) as u8;
        assert(1 <= s < 8);
        assert(0xFFu8 >> (8 - used % 8) == 0xFFu8 >> s);
    }
}

/// The bytes of the bitmap that nothing is written of say nothing is in use.
proof fn lemma_zero_bit(bit: u8)
    requires
        bit < 8,
    ensures
        !bit_set(0, bit),
{
    assert(forall|b: u8| b < 8 ==> 0u8 & (1u8 << b) == 0) by (bit_vector);
}

impl Fresh {
    /// Where the bitmap is.
    pub open spec fn bitmap(self) -> Resident {
        Resident { first_cluster: self.layout.bitmap_cluster, bytes: self.layout.bitmap_bytes }
    }

    /// The bitmap calls in use exactly the clusters that are.
    pub proof fn lemma_allocated(self, vol: Vol, cluster: u32)
        requires
            self.wf(),
            self.is(vol),
            FIRST_CLUSTER <= cluster < FIRST_CLUSTER + self.layout.cluster_count,
        ensures
            vol.allocated(self.bitmap(), cluster) == Ok::<bool, ReadError>(
                cluster < self.tree.end_on(self.layout),
            ),
    {
        let layout = self.layout;
        let per = self.per();
        let used = used_by(self.tree, layout) as int;
        let pieces = head_pieces(layout, self.options, self.tree, used as u32);
        let bit = cluster - FIRST_CLUSTER;
        let at = bit / 8;
        let index = at / per;
        let within = at % per;
        let count = bitmap_clusters(layout);
        self.lemma_head();
        self.lemma_chains(vol);
        lemma_ceil_div(layout.cluster_count as int, 8);
        lemma_ceil_div(layout.bitmap_bytes as int, per);
        lemma_ceil_div(used, 8);
        assert(at < layout.bitmap_bytes);
        vstd::arithmetic::div_mod::lemma_fundamental_div_mod(at, per);
        vstd::arithmetic::div_mod::lemma_mod_bound(at, per);
        vstd::arithmetic::div_mod::lemma_div_pos_is_pos(at, per);
        assert(per * index == index * per) by (nonlinear_arith);
        assert(index < count) by (nonlinear_arith)
            requires
                index * per <= at,
                at < count * per,
                per > 0,
        ;
        lemma_chain_run(vol, layout.bitmap_cluster, count, index);
        lemma_clusters_lie_inside(layout, FIRST_CLUSTER as int, index);
        lemma_clusters_lie_inside(layout, FIRST_CLUSTER as int, count);
        let start = layout.byte_of(FIRST_CLUSTER as int);
        let byte = self.bytes[start + at];
        assert(layout.byte_of(FIRST_CLUSTER + index) + within == start + at);
        crate::image::lemma_resident_lens(layout, 0, used);
        assert(pieces[3].at == start);
        assert(pieces[3].bytes == bitmap_of(used));
        if at < ceil_div(used, 8) {
            assert(self.bytes.subrange(
                pieces[3].at,
                pieces[3].at + pieces[3].bytes.len(),
            ) == pieces[3].bytes);
            assert(byte == pieces[3].bytes[at]);
            reveal(bitmap_of);
            lemma_bitmap_bit(used, at, (bit % 8) as u8);
        } else {
            assert(byte == 0);
            lemma_zero_bit((bit % 8) as u8);
        }
    }
}

/// The clusters from `first` up to `end`.
pub open spec fn cluster_range(first: int, end: int) -> Set<int> {
    Set::new(|c: int| first <= c < end)
}

impl Fresh {
    /// Claiming a stream no other has clusters of finds nothing.
    pub proof fn lemma_claim_run(
        self,
        vol: Vol,
        storage: Storage,
        bytes: u64,
        path: Seq<u8>,
        first: int,
        count: int,
        index: int,
        state: Claimed,
    )
        requires
            self.wf(),
            self.is(vol),
            runs(vol, storage, first, count),
            ceil_div(bytes as int, self.per()) == count,
            first + count <= self.tree.end_on(self.layout),
            0 <= index <= count,
            !state.found.full(),
            forall|c: int| first + index <= c < first + count ==> !state.reached.contains(c),
        ensures
            vol.claim(self.bitmap(), storage, bytes, path, index, state) == (Claimed {
                reached: state.reached + cluster_range(first + index, first + count),
                found: state.found,
            }),
        decreases count - index,
    {
        if index < count {
            self.lemma_vol(vol);
            self.lemma_head();
            lemma_stream_run(vol, storage, first, count, index);
            let cluster = (first + index) as u32;
            self.lemma_allocated(vol, cluster);
            let next = Claimed { reached: state.reached.insert(cluster as int), ..state };
            self.lemma_claim_run(vol, storage, bytes, path, first, count, index + 1, next);
            assert(next.reached + cluster_range(first + index + 1, first + count)
                =~= state.reached + cluster_range(first + index, first + count));
        } else {
            assert(state.reached + cluster_range(first + index, first + count) =~= state.reached);
        }
    }
}

impl Fresh {
    /// Whether the tree has an entry `j` in a directory `d`.
    pub open spec fn has_entry(self, d: int, j: int) -> bool {
        0 <= d < self.tree.dirs.len() && 0 <= j < self.tree.dirs[d].entries.len()
    }

    /// The clusters of what entry `j` of directory `d` is of.
    pub open spec fn run(self, d: int, j: int) -> ClusterRun {
        target_of(self.tree, self.layout, self.tree.dirs[d].entries[j]).0
    }

    /// Whether a cluster is one of those of what entry `j` of directory `d` is of.
    pub open spec fn has_cluster(self, d: int, j: int, c: int) -> bool {
        self.run(d, j).first <= c < self.run(d, j).first + self.run(d, j).count
    }

    /// Whether entry `j` of directory `d` is of directory `k`.
    pub open spec fn names_dir(self, d: int, j: int, k: int) -> bool {
        self.has_entry(d, j) && self.tree.dirs[d].entries[j].node == crate::model::Node::Dir(
            k as usize,
        ) && k == k as usize
    }

    /// Whether an entry is of directory `k`.
    pub open spec fn is_named(self, k: int) -> bool {
        exists|d: int, j: int| #[trigger] self.names_dir(d, j, k)
    }

    /// Whether every directory but the root has one entry that is of it, and no other.
    #[verifier::opaque]
    pub open spec fn tidy(self) -> bool {
        &&& forall|k: int| 1 <= k < self.tree.dirs.len() ==> #[trigger] self.is_named(k)
        &&& forall|d: int, j: int, e: int, i: int, k: int|
            #[trigger] self.names_dir(d, j, k) && #[trigger] self.names_dir(e, i, k) ==> d == e && j
                == i
    }

    /// A volume that holds a source has one entry for each directory.
    pub proof fn lemma_tidy(self, source: Seq<SourceView>)
        requires
            self.wf(),
            holds_source(self.tree, source),
        ensures
            self.tidy(),
    {
        reveal(Fresh::tidy);
        lemma_settled(self.tree, self.layout, format_mapping());
        assert forall|k: int| 1 <= k < self.tree.dirs.len() implies #[trigger] self.is_named(k) by {
            reveal(holds_source);
            assert(is_declared(self.tree, source, k));
            let i = choose|i: int|
                0 <= i < source.len() && (#[trigger] source[i]).kind is Directory && key_of(
                    source[i].path,
                ).len() > 0 && key_of(source[i].path) == key_of(self.tree.dirs[k].path);
            assert(is_held(self.tree, source, i));
            let (p, j) = choose|p: int, j: int| #[trigger] holds_at(self.tree, source, i, p, j);
            let e = self.tree.dirs[p].entries[j].node->Dir_0 as int;
            self.lemma_keys_apart(source, e, k);
            assert(self.names_dir(p, j, k));
        }
        assert forall|d: int, j: int, e: int, i: int, k: int|
            #[trigger] self.names_dir(d, j, k) && #[trigger] self.names_dir(e, i, k) implies d == e
            && j == i by {
            self.lemma_one_name(source, d, j, e, i, k);
        }
    }

    /// No two directories have one key.
    pub proof fn lemma_keys_apart(self, source: Seq<SourceView>, d: int, e: int)
        requires
            holds_source(self.tree, source),
            0 <= d < self.tree.dirs.len(),
            0 <= e < self.tree.dirs.len(),
            key_of(self.tree.dirs[d].path) == key_of(self.tree.dirs[e].path),
        ensures
            d == e,
    {
        reveal(holds_source);
        if d < e {
            assert(key_of(self.tree.dirs[d].path) != key_of(self.tree.dirs[e].path));
        } else if e < d {
            assert(key_of(self.tree.dirs[e].path) != key_of(self.tree.dirs[d].path));
        }
    }

    /// Two entries of one directory are one entry.
    proof fn lemma_one_name(
        self,
        source: Seq<SourceView>,
        d: int,
        j: int,
        e: int,
        i: int,
        k: int,
    )
        requires
            self.wf(),
            holds_source(self.tree, source),
            self.names_dir(d, j, k),
            self.names_dir(e, i, k),
        ensures
            d == e,
            j == i,
    {
        assert(is_sourced(self.tree, source, d, j) && is_sourced(self.tree, source, e, i)) by {
            reveal(holds_source);
        }
        let a = choose|a: int|
            0 <= a < source.len() && #[trigger] holds_at(self.tree, source, a, d, j);
        let b = choose|b: int|
            0 <= b < source.len() && #[trigger] holds_at(self.tree, source, b, e, i);
        self.lemma_keys_apart(source, d, e);
        lemma_settled(self.tree, self.layout, format_mapping());
        let entries = self.tree.dirs[d].entries;
        assert(entries[j].units == entries[i].units);
        if j < i {
            assert(folded_by(format_mapping(), entries[j].units) != folded_by(
                format_mapping(),
                entries[i].units,
            ));
        } else if i < j {
            assert(folded_by(format_mapping(), entries[i].units) != folded_by(
                format_mapping(),
                entries[j].units,
            ));
        }
    }

    /// The first cluster of directory `d` and of what is in it.
    pub open spec fn block(self, d: int) -> int {
        dir_start(self.tree.dirs, d, self.per(), self.layout.first_cluster_of_root as int)
    }

    /// The cluster behind those of directory `d` itself.
    pub open spec fn own_end(self, d: int) -> int {
        self.block(d) + dir_own(self.tree.dirs[d], d, self.per())
    }

    /// Where the clusters of what an entry is of are, and how many there are.
    pub proof fn lemma_run(self, vol: Vol, d: int, j: int)
        requires
            self.wf(),
            self.is(vol),
            self.has_entry(d, j),
        ensures
            ({
                let run = self.run(d, j);
                let node = self.named(d, j).node;
                let first = run.first as int;
                &&& node.storage.first() is Some <==> run.count > 0
                &&& run.count > 0 ==> {
                    &&& runs(vol, node.storage, first, run.count as int)
                    &&& ceil_div(node.data_length as int, self.per()) == run.count
                    &&& first + run.count <= self.tree.end_on(self.layout)
                    &&& match self.tree.dirs[d].entries[j].node {
                        crate::model::Node::Dir(k) => {
                            &&& self.names_dir(d, j, k as int)
                            &&& d < k < self.tree.dirs.len()
                            &&& node.directory()
                            &&& first == self.block(k as int)
                            &&& first + run.count == self.own_end(k as int)
                            &&& self.own_end(k as int) <= self.block(k + 1)
                        },
                        crate::model::Node::File { .. } => {
                            &&& !node.directory()
                            &&& self.own_end(d) <= first
                            &&& first == entry_start(
                                self.tree.dirs,
                                d,
                                j,
                                self.per(),
                                self.layout.first_cluster_of_root as int,
                            )
                            &&& run.count == entry_clusters(
                                self.tree.dirs[d].entries[j],
                                self.per(),
                            )
                            &&& first + run.count <= self.block(d + 1)
                        },
                    }
                }
                &&& self.tree.dirs[d].entries[j].node is Dir ==> run.count > 0
                &&& node.directory() == (self.tree.dirs[d].entries[j].node is Dir)
            }),
    {
        let entry = self.tree.dirs[d].entries[j];
        lemma_settled(self.tree, self.layout, format_mapping());
        assert(self.tree.entry_sound(format_mapping(), d, entry));
        lemma_directory_fits(self.tree, self.layout, self.options.label, format_mapping(), d);
        self.lemma_vol(vol);
        match entry.node {
            crate::model::Node::Dir(k) => {
                let k = k as int;
                lemma_directory_fits(
                    self.tree,
                    self.layout,
                    self.options.label,
                    format_mapping(),
                    k,
                );
                self.lemma_slot_count(vol, k);
                let count = self.tree.dirs[k].run.count as int;
                vstd::arithmetic::div_mod::lemma_mod_multiples_basic(count, self.per());
                vstd::arithmetic::div_mod::lemma_div_multiples_vanish(count, self.per());
                assert(self.per() * count == count * self.per()) by (nonlinear_arith);
            },
            crate::model::Node::File { .. } => {
                lemma_file_fits(self.tree, self.layout, format_mapping(), d, j);
            },
        }
    }

    /// A cluster is in one block.
    proof fn lemma_one_block(self, d: int, e: int, c: int)
        requires
            self.wf(),
            0 <= d < self.tree.dirs.len(),
            0 <= e < self.tree.dirs.len(),
            self.block(d) <= c < self.block(d + 1),
            self.block(e) <= c < self.block(e + 1),
        ensures
            d == e,
    {
        let root = self.layout.first_cluster_of_root as int;
        if d < e {
            lemma_dir_start(self.tree.dirs, d + 1, e, self.per(), root);
        } else if e < d {
            lemma_dir_start(self.tree.dirs, e + 1, d, self.per(), root);
        }
    }

    /// No two entries have a cluster of one another.
    pub proof fn lemma_apart(self, vol: Vol, d: int, j: int, e: int, i: int, c: int)
        requires
            self.wf(),
            self.tidy(),
            self.is(vol),
            self.has_entry(d, j),
            self.has_entry(e, i),
            self.has_cluster(d, j, c),
            self.has_cluster(e, i, c),
        ensures
            d == e,
            j == i,
    {
        let a = self.tree.dirs[d].entries[j].node;
        let b = self.tree.dirs[e].entries[i].node;
        self.lemma_run(vol, d, j);
        self.lemma_run(vol, e, i);
        lemma_directory_fits(self.tree, self.layout, self.options.label, format_mapping(), d);
        lemma_directory_fits(self.tree, self.layout, self.options.label, format_mapping(), e);
        match (a, b) {
            (crate::model::Node::Dir(k), crate::model::Node::Dir(l)) => {
                self.lemma_one_block(k as int, l as int, c);
                reveal(Fresh::tidy);
                assert(self.names_dir(d, j, k as int) && self.names_dir(e, i, k as int));
            },
            (crate::model::Node::Dir(k), crate::model::Node::File { .. }) => {
                self.lemma_one_block(k as int, e, c);
            },
            (crate::model::Node::File { .. }, crate::model::Node::Dir(l)) => {
                self.lemma_one_block(d, l as int, c);
            },
            _ => {
                self.lemma_one_block(d, e, c);
                if j < i {
                    lemma_streams_do_not_overlap(self.tree, self.layout, d, j, i);
                } else if i < j {
                    lemma_streams_do_not_overlap(self.tree, self.layout, d, i, j);
                }
            },
        }
    }

    /// The clusters of an entry are behind those of the root directory.
    pub proof fn lemma_behind_root(self, vol: Vol, d: int, j: int)
        requires
            self.wf(),
            self.is(vol),
            self.has_entry(d, j),
            self.run(d, j).count > 0,
        ensures
            self.own_end(0) <= self.run(d, j).first,
    {
        let root = self.layout.first_cluster_of_root as int;
        self.lemma_run(vol, d, j);
        lemma_settled(self.tree, self.layout, format_mapping());
        lemma_directory_fits(self.tree, self.layout, self.options.label, format_mapping(), 0);
        lemma_directory_fits(self.tree, self.layout, self.options.label, format_mapping(), d);
        match self.tree.dirs[d].entries[j].node {
            crate::model::Node::Dir(k) => {
                lemma_dir_start(self.tree.dirs, 1, k as int, self.per(), root);
            },
            crate::model::Node::File { .. } => {
                if d > 0 {
                    lemma_dir_start(self.tree.dirs, 1, d, self.per(), root);
                }
            },
        }
    }

    /// Every cluster of a block is one of the directory's or of a file in it.
    pub proof fn lemma_block_covered(self, vol: Vol, d: int, n: int, c: int) -> (j: int)
        requires
            self.wf(),
            self.is(vol),
            0 <= d < self.tree.dirs.len(),
            0 <= n <= self.tree.dirs[d].entries.len(),
            self.own_end(d) <= c < entry_start(
                self.tree.dirs,
                d,
                n,
                self.per(),
                self.layout.first_cluster_of_root as int,
            ),
        ensures
            0 <= j < n,
            self.has_entry(d, j),
            self.has_cluster(d, j, c),
        decreases n,
    {
        let root = self.layout.first_cluster_of_root as int;
        if n == 0 {
            0
        } else if c >= entry_start(self.tree.dirs, d, n - 1, self.per(), root) {
            self.lemma_run(vol, d, n - 1);
            let entry = self.tree.dirs[d].entries[n - 1];
            crate::allocate::lemma_entry_clusters(entry, self.per());
            if entry.node is File {
                lemma_file_fits(self.tree, self.layout, format_mapping(), d, n - 1);
            }
            n - 1
        } else {
            self.lemma_block_covered(vol, d, n - 1, c)
        }
    }

    /// The block a cluster is in.
    pub proof fn lemma_block_of(self, n: int, c: int) -> (d: int)
        requires
            self.wf(),
            0 <= n <= self.tree.dirs.len(),
            self.block(0) <= c < self.block(n),
        ensures
            0 <= d < n,
            self.block(d) <= c < self.block(d + 1),
        decreases n,
    {
        if n == 0 {
            0
        } else if c >= self.block(n - 1) {
            n - 1
        } else {
            self.lemma_block_of(n - 1, c)
        }
    }
}

impl Fresh {
    /// The entries of directory `k` from `t` on that have clusters.
    pub open spec fn pairs_from(self, k: int, t: int) -> Seq<(int, int)>
        decreases self.tree.dirs[k].entries.len() - t,
    {
        if t >= self.tree.dirs[k].entries.len() {
            Seq::empty()
        } else if self.run(k, t).count > 0 {
            seq![(k, t)] + self.pairs_from(k, t + 1)
        } else {
            self.pairs_from(k, t + 1)
        }
    }

    /// What is to be checked of directory `k` from entry `t` on.
    pub open spec fn items_from(self, k: int, t: int, prefix: Seq<u8>) -> Seq<Walked>
        decreases self.tree.dirs[k].entries.len() - t,
    {
        let named = self.named(k, t);
        if t >= self.tree.dirs[k].entries.len() {
            Seq::empty()
        } else if self.run(k, t).count > 0 {
            seq![Walked { path: child_path(prefix, named.name), node: named.node }]
                + self.items_from(k, t + 1, prefix)
        } else {
            self.items_from(k, t + 1, prefix)
        }
    }

    /// Whether an entry is one of directory `k` from `t` on that has clusters.
    pub open spec fn pair_in(self, k: int, t: int, pair: (int, int)) -> bool {
        pair.0 == k && t <= pair.1 < self.tree.dirs[k].entries.len() && self.run(k, pair.1).count
            > 0
    }

    /// What is to be checked of a directory is its entries that have clusters, each once.
    pub proof fn lemma_pairs(self, k: int, t: int, prefix: Seq<u8>)
        requires
            0 <= t,
        ensures
            self.pairs_from(k, t).len() == self.items_from(k, t, prefix).len(),
            forall|i: int|
                0 <= i < self.pairs_from(k, t).len() ==> self.pair_in(
                    k,
                    t,
                    #[trigger] self.pairs_from(k, t)[i],
                ),
            forall|i: int|
                0 <= i < self.pairs_from(k, t).len() ==> {
                    &&& (#[trigger] self.items_from(k, t, prefix)[i]).node == self.named(
                        k,
                        self.pairs_from(k, t)[i].1,
                    ).node
                    &&& self.items_from(k, t, prefix)[i].path.len() > 0
                },
            forall|i: int, l: int|
                0 <= i < l < self.pairs_from(k, t).len() ==> #[trigger] self.pairs_from(k, t)[i]
                    != #[trigger] self.pairs_from(k, t)[l],
            forall|pair: (int, int)|
                self.pair_in(k, t, pair) ==> #[trigger] self.pairs_from(k, t).contains(pair),
        decreases self.tree.dirs[k].entries.len() - t,
    {
        let count = self.tree.dirs[k].entries.len();
        if t < count {
            self.lemma_pairs(k, t + 1, prefix);
            let rest = self.pairs_from(k, t + 1);
            let items = self.items_from(k, t + 1, prefix);
            let pairs = self.pairs_from(k, t);
            let all = self.items_from(k, t, prefix);
            if self.run(k, t).count > 0 {
                assert(pairs == seq![(k, t)] + rest);
                assert forall|i: int| 0 <= i < pairs.len() implies self.pair_in(
                    k,
                    t,
                    #[trigger] pairs[i],
                ) by {
                    if i > 0 {
                        assert(pairs[i] == rest[i - 1]);
                        assert(self.pair_in(k, t + 1, rest[i - 1]));
                    }
                }
                assert forall|i: int| 0 <= i < pairs.len() implies {
                    &&& (#[trigger] all[i]).node == self.named(k, pairs[i].1).node
                    &&& all[i].path.len() > 0
                } by {
                    if i > 0 {
                        assert(pairs[i] == rest[i - 1]);
                        assert(all[i] == items[i - 1]);
                    }
                }
                assert forall|i: int, l: int| 0 <= i < l < pairs.len() implies #[trigger] pairs[i]
                    != #[trigger] pairs[l] by {
                    assert(pairs[l] == rest[l - 1]);
                    assert(self.pair_in(k, t + 1, rest[l - 1]));
                    if i > 0 {
                        assert(pairs[i] == rest[i - 1]);
                    }
                }
                assert forall|pair: (int, int)| self.pair_in(k, t, pair) implies
                    #[trigger] pairs.contains(pair) by {
                    if pair.1 == t {
                        assert(pairs[0] == pair);
                    } else {
                        assert(self.pair_in(k, t + 1, pair));
                        assert(rest.contains(pair));
                        let i = choose|i: int| 0 <= i < rest.len() && rest[i] == pair;
                        assert(pairs[i + 1] == pair);
                    }
                }
            } else {
                assert forall|i: int| 0 <= i < pairs.len() implies self.pair_in(
                    k,
                    t,
                    #[trigger] pairs[i],
                ) by {
                    assert(self.pair_in(k, t + 1, rest[i]));
                }
                assert forall|pair: (int, int)| self.pair_in(k, t, pair) implies
                    #[trigger] pairs.contains(pair) by {
                    assert(self.pair_in(k, t + 1, pair));
                    assert(rest.contains(pair));
                }
            }
        }
    }

    /// Directories begin on clusters of their own.
    pub proof fn lemma_firsts_apart(self, m: int, n: int)
        requires
            self.wf(),
            0 <= m < self.tree.dirs.len(),
            0 <= n < self.tree.dirs.len(),
            self.tree.dirs[m].run.first == self.tree.dirs[n].run.first,
        ensures
            m == n,
    {
        lemma_directory_fits(self.tree, self.layout, self.options.label, format_mapping(), m);
        lemma_directory_fits(self.tree, self.layout, self.options.label, format_mapping(), n);
        self.lemma_one_block(m, n, self.tree.dirs[m].run.first as int);
    }
}

impl<'a> Reader<'a> {
    /// Adding the names of a directory of a volume a format has written adds each that has
    /// clusters, and each directory among them has now been met.
    pub proof fn lemma_enqueues(
        &self,
        fresh: Fresh,
        k: int,
        t: int,
        prefix: Seq<u8>,
        queue: Seq<Walked>,
        visited: Set<int>,
        names: int,
    )
        requires
            fresh.wf(),
            fresh.tidy(),
            self.reads_back(fresh),
            0 <= k < fresh.tree.dirs.len(),
            0 <= t <= fresh.tree.dirs[k].entries.len(),
            names + (fresh.tree.dirs[k].entries.len() - t) <= name_cap(
                self.taken_on(),
                self.vol().layout,
            ),
            forall|j: int, m: int|
                t <= j && #[trigger] fresh.names_dir(k, j, m) ==> !visited.contains(
                    fresh.tree.dirs[m].run.first as int,
                ),
        ensures
            ({
                let count = fresh.tree.dirs[k].entries.len() as int;
                let after = self.enqueued(
                    fresh.names(k, count),
                    t,
                    prefix,
                    queue,
                    visited,
                    names,
                );
                &&& !after.over
                &&& after.names == names + (count - t)
                &&& after.queue == queue + fresh.items_from(k, t, prefix)
                &&& forall|m: int|
                    0 <= m < fresh.tree.dirs.len() ==> (after.visited.contains(
                        (#[trigger] fresh.tree.dirs[m]).run.first as int,
                    ) <==> visited.contains(fresh.tree.dirs[m].run.first as int) || exists|j: int|
                        t <= j && #[trigger] fresh.names_dir(k, j, m))
            }),
        decreases fresh.tree.dirs[k].entries.len() - t,
    {
        let count = fresh.tree.dirs[k].entries.len() as int;
        let all = fresh.names(k, count);
        if t >= count {
            assert(queue + fresh.items_from(k, t, prefix) =~= queue);
        } else {
            let vol = self.vol();
            let named = fresh.named(k, t);
            assert(all[t] == named);
            fresh.lemma_run(vol, k, t);
            fresh.lemma_vol(vol);
            let run = fresh.run(k, t);
            let path = child_path(prefix, named.name);
            let met = self.having_met(named.node, visited);
            let more = if run.count > 0 {
                queue.push(Walked { path, node: named.node })
            } else {
                queue
            };
            match fresh.tree.dirs[k].entries[t].node {
                crate::model::Node::Dir(c) => {
                    let c = c as int;
                    assert(fresh.names_dir(k, t, c));
                    assert(met =~= visited.insert(run.first as int));
                    assert forall|j: int, m: int|
                        t + 1 <= j && #[trigger] fresh.names_dir(k, j, m) implies !met.contains(
                        fresh.tree.dirs[m].run.first as int,
                    ) by {
                        if fresh.tree.dirs[m].run.first == run.first {
                            fresh.lemma_names_inside(k, j, m);
                            fresh.lemma_firsts_apart(m, c);
                            reveal(Fresh::tidy);
                            assert(fresh.names_dir(k, t, m));
                        }
                    }
                    self.lemma_enqueues(fresh, k, t + 1, prefix, more, met, names + 1);
                    assert forall|m: int| 0 <= m < fresh.tree.dirs.len() implies (met.contains(
                        (#[trigger] fresh.tree.dirs[m]).run.first as int,
                    ) || exists|j: int| t + 1 <= j && #[trigger] fresh.names_dir(k, j, m)) == (
                    visited.contains(fresh.tree.dirs[m].run.first as int) || exists|j: int|
                        t <= j && #[trigger] fresh.names_dir(k, j, m)) by {
                        if fresh.tree.dirs[m].run.first == run.first {
                            fresh.lemma_firsts_apart(m, c);
                            assert(fresh.names_dir(k, t, m));
                        }
                        if exists|j: int| t <= j && #[trigger] fresh.names_dir(k, j, m) {
                            let j = choose|j: int| t <= j && #[trigger] fresh.names_dir(k, j, m);
                            if j == t {
                                assert(m == c);
                            }
                        }
                    }
                },
                crate::model::Node::File { .. } => {
                    assert(met =~= visited);
                    self.lemma_enqueues(fresh, k, t + 1, prefix, more, met, names + 1);
                    assert forall|m: int| 0 <= m < fresh.tree.dirs.len() implies (met.contains(
                        (#[trigger] fresh.tree.dirs[m]).run.first as int,
                    ) || exists|j: int| t + 1 <= j && #[trigger] fresh.names_dir(k, j, m)) == (
                    visited.contains(fresh.tree.dirs[m].run.first as int) || exists|j: int|
                        t <= j && #[trigger] fresh.names_dir(k, j, m)) by {
                        if exists|j: int| t <= j && #[trigger] fresh.names_dir(k, j, m) {
                            let j = choose|j: int| t <= j && #[trigger] fresh.names_dir(k, j, m);
                            assert(j != t);
                        }
                    }
                },
            }
            assert(more + fresh.items_from(k, t + 1, prefix) =~= queue + fresh.items_from(
                k,
                t,
                prefix,
            ));
        }
    }
}

impl Fresh {
    /// A directory an entry is of is one of the tree's, further on.
    pub proof fn lemma_names_inside(self, d: int, j: int, k: int)
        requires
            self.wf(),
            self.names_dir(d, j, k),
        ensures
            d < k < self.tree.dirs.len(),
    {
        lemma_settled(self.tree, self.layout, format_mapping());
        assert(self.tree.entry_sound(format_mapping(), d, self.tree.dirs[d].entries[j]));
    }
}

} // verus!
