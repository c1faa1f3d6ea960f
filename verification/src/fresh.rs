//! A volume a format has written, as a reader finds it: the table's chains and the streams in
//! its clusters.
use vstd::prelude::*;

use crate::allocate::lemma_settled;
use crate::bytes::{le32, lemma_u32_at, zeros};
use crate::geometry::{ExfatLayout, FIRST_CLUSTER};
use crate::image::{
    head_pieces, lemma_ceil_div, lemma_clusters_lie_inside, lemma_directory_fits, residents_lead,
    root_last, table_entry_of, table_of,
};
use crate::materialize::{format_mapping, lemma_head_in_order, used_by};
use crate::model::TreeView;
use crate::number::ceil_div;
use crate::open::{chain_len, root_len};
use crate::options::FormatOptions;
use crate::read_error::ReadError;
use crate::slots::Trail;
use crate::upcase_table::RECOMMENDED_UPCASE_BYTES;
use crate::volume::{Storage, Vol};
use crate::written::written;

verus! {

/// A volume a format has written.
pub struct Fresh {
    /// Its bytes.
    pub bytes: Seq<u8>,
    /// Where everything is.
    pub layout: ExfatLayout,
    /// What it was asked to be.
    pub options: FormatOptions,
    /// The tree it holds.
    pub tree: TreeView,
}

/// Whether two layouts have their regions and clusters in the same places.
pub open spec fn same_places(a: ExfatLayout, b: ExfatLayout) -> bool {
    &&& a.bytes_per_sector == b.bytes_per_sector
    &&& a.bytes_per_cluster == b.bytes_per_cluster
    &&& a.volume_length == b.volume_length
    &&& a.fat_offset == b.fat_offset
    &&& a.fat_length == b.fat_length
    &&& a.cluster_heap_offset == b.cluster_heap_offset
    &&& a.cluster_count == b.cluster_count
    &&& a.first_cluster_of_root == b.first_cluster_of_root
}

impl Fresh {
    /// Whether the volume is one a format writes.
    pub open spec fn wf(self) -> bool {
        &&& self.layout.sound()
        &&& residents_lead(self.layout)
        &&& self.tree.settled_on(self.layout, format_mapping())
        &&& self.options.label.wf()
        &&& written(self.bytes, self.layout, self.options, self.tree)
    }

    /// Whether a reader that knows where the regions are has this volume.
    pub open spec fn is(self, vol: Vol) -> bool {
        vol.bytes == self.bytes && same_places(vol.layout, self.layout)
    }

    /// Bytes of a cluster.
    pub open spec fn per(self) -> int {
        self.layout.bytes_per_cluster as int
    }

    /// The last cluster of the root directory.
    pub open spec fn last(self) -> int {
        root_last(self.layout, self.tree)
    }

    /// What is written before the tree is where it was put.
    pub proof fn lemma_head(self)
        requires
            self.wf(),
        ensures
            ({
                let used = used_by(self.tree, self.layout);
                let pieces = head_pieces(self.layout, self.options, self.tree, used);
                let root = self.layout.byte_of(self.layout.first_cluster_of_root as int);
                &&& pieces.len() == 5
                &&& self.layout.volume_size() <= self.bytes.len()
                &&& 0 <= pieces[0].at
                &&& pieces[0].at + pieces[0].bytes.len() <= pieces[1].at
                &&& pieces[1].at + pieces[1].bytes.len() <= pieces[2].at
                &&& pieces[2].at + pieces[2].bytes.len() <= pieces[3].at
                &&& pieces[3].at + pieces[3].bytes.len() <= pieces[4].at
                &&& pieces[4].at + pieces[4].bytes.len() <= root
                &&& root <= self.bytes.len()
                &&& forall|k: int|
                    0 <= k < 5 ==> self.bytes.subrange(
                        (#[trigger] pieces[k]).at,
                        pieces[k].at + pieces[k].bytes.len(),
                    ) == pieces[k].bytes
                &&& forall|i: int|
                    pieces[2].at + pieces[2].bytes.len() <= i < pieces[3].at ==> self.bytes[i]
                        == 0
                &&& forall|i: int|
                    pieces[3].at + pieces[3].bytes.len() <= i < pieces[4].at ==> self.bytes[i]
                        == 0
                &&& forall|i: int|
                    pieces[4].at + pieces[4].bytes.len() <= i < root ==> self.bytes[i] == 0
                &&& used == self.tree.end_on(self.layout) - FIRST_CLUSTER
                &&& used <= self.layout.cluster_count
                &&& self.layout.first_cluster_of_root <= self.last()
                &&& self.last() < self.tree.end_on(self.layout)
                &&& self.tree.end_on(self.layout) <= FIRST_CLUSTER + self.layout.cluster_count
            }),
    {
        reveal(written);
        lemma_head_in_order(self.layout, self.options, self.tree, format_mapping());
        lemma_settled(self.tree, self.layout, format_mapping());
    }

    /// A reader that has this volume has all its bytes.
    pub proof fn lemma_vol(self, vol: Vol)
        requires
            self.wf(),
            self.is(vol),
        ensures
            vol.wf(),
    {
        self.lemma_head();
    }

    /// The table has an entry of each cluster up to the last of the root directory, and zeros
    /// behind them.
    pub proof fn lemma_table(self, vol: Vol, n: int)
        requires
            self.wf(),
            self.is(vol),
            0 <= n < FIRST_CLUSTER + self.layout.cluster_count,
        ensures
            vol.table(n) == (if n <= self.last() {
                table_entry_of(self.layout, self.last(), n)
            } else {
                0
            }),
    {
        self.lemma_head();
        reveal(table_of);
        let used = used_by(self.tree, self.layout);
        let pieces = head_pieces(self.layout, self.options, self.tree, used);
        let piece = pieces[2];
        let last = self.last();
        let at = self.layout.fat_byte_of(n);
        let part = self.bytes.subrange(at, at + 4);
        assert(piece.bytes == table_of(self.layout, last));
        assert(self.bytes.subrange(piece.at, piece.at + piece.bytes.len()) == piece.bytes);
        let sector = self.layout.bytes_per_sector as int;
        let table = self.layout.fat_length * sector;
        assert(self.layout.fat_offset * sector + table <= self.layout.cluster_heap_offset * sector)
            by (nonlinear_arith)
            requires
                self.layout.fat_offset + self.layout.fat_length
                    <= self.layout.cluster_heap_offset,
                table == self.layout.fat_length * sector,
                sector > 0,
        ;
        lemma_clusters_lie_inside(self.layout, FIRST_CLUSTER as int, 0);
        assert(0 * self.layout.bytes_per_cluster == 0);
        assert(at + 4 <= pieces[3].at);
        if n <= last {
            let v = table_entry_of(self.layout, last, n);
            assert forall|k: int| 0 <= k < 4 implies part[k] == le32(v)[k] by {
                assert(part[k] == piece.bytes[4 * n + k]);
                assert((4 * n + k) / 4 == n && (4 * n + k) % 4 == k);
            }
            assert(part =~= le32(v));
            lemma_u32_at(self.bytes, at, v);
        } else {
            assert forall|k: int| 0 <= k < 4 implies part[k] == le32(0)[k] by {
                assert(part[k] == self.bytes[at + k]);
                assert(self.bytes[at + k] == 0);
            }
            assert(part =~= le32(0));
            lemma_u32_at(self.bytes, at, 0);
        }
    }

    /// A cluster before the last of the root directory is followed by the next, where it is not
    /// the last of the bitmap or of the up-case table.
    pub proof fn lemma_next(self, vol: Vol, n: u32)
        requires
            self.wf(),
            self.is(vol),
            FIRST_CLUSTER <= n <= self.last(),
        ensures
            vol.next_of(n) == (if n + 1 == self.layout.upcase_cluster || n + 1
                == self.layout.first_cluster_of_root || n == self.last() {
                Ok::<Option<u32>, ReadError>(None)
            } else {
                Ok::<Option<u32>, ReadError>(Some((n + 1) as u32))
            }),
    {
        self.lemma_head();
        self.lemma_table(vol, n as int);
    }
}

/// Whether `count` clusters from `first` on are a chain.
pub open spec fn chained(vol: Vol, first: int, count: int) -> bool {
    &&& 1 <= count
    &&& FIRST_CLUSTER <= first
    &&& first + count <= FIRST_CLUSTER + vol.layout.cluster_count
    &&& forall|n: u32|
        first <= n < first + count - 1 ==> #[trigger] vol.next_of(n) == Ok::<
            Option<u32>,
            ReadError,
        >(Some((n + 1) as u32))
    &&& vol.next_of((first + count - 1) as u32) == Ok::<Option<u32>, ReadError>(None)
}

/// Whether a stream is in `count` clusters from `first` on.
pub open spec fn runs(vol: Vol, storage: Storage, first: int, count: int) -> bool {
    &&& 1 <= count
    &&& FIRST_CLUSTER <= first
    &&& first + count <= FIRST_CLUSTER + vol.layout.cluster_count
    &&& match storage {
        Storage::Empty => false,
        Storage::Contiguous(start) => start == first,
        Storage::Chain(start) => start == first && chained(vol, first, count),
    }
}

/// Clusters of the bitmap.
pub open spec fn bitmap_clusters(layout: ExfatLayout) -> int {
    ceil_div(layout.bitmap_bytes as int, layout.bytes_per_cluster as int)
}

/// Clusters of the up-case table.
pub open spec fn upcase_clusters(layout: ExfatLayout) -> int {
    ceil_div(RECOMMENDED_UPCASE_BYTES as int, layout.bytes_per_cluster as int)
}

impl Fresh {
    /// The bitmap, the up-case table and the root directory are each a chain.
    pub proof fn lemma_chains(self, vol: Vol)
        requires
            self.wf(),
            self.is(vol),
        ensures
            chained(vol, FIRST_CLUSTER as int, bitmap_clusters(self.layout)),
            chained(vol, self.layout.upcase_cluster as int, upcase_clusters(self.layout)),
            chained(
                vol,
                self.layout.first_cluster_of_root as int,
                self.tree.dirs[0].run.count as int,
            ),
    {
        self.lemma_head();
        let layout = self.layout;
        lemma_settled(self.tree, layout, format_mapping());
        lemma_directory_fits(self.tree, layout, self.options.label, format_mapping(), 0);
        lemma_ceil_div(layout.cluster_count as int, 8);
        lemma_ceil_div(layout.bitmap_bytes as int, self.per());
        lemma_ceil_div(RECOMMENDED_UPCASE_BYTES as int, self.per());
        assert forall|n: u32|
            FIRST_CLUSTER <= n <= self.last() implies #[trigger] vol.next_of(n) == (if n + 1
            == layout.upcase_cluster || n + 1 == layout.first_cluster_of_root || n
            == self.last() {
            Ok::<Option<u32>, ReadError>(None)
        } else {
            Ok::<Option<u32>, ReadError>(Some((n + 1) as u32))
        }) by {
            self.lemma_next(vol, n);
        }
    }
}

/// Where cluster `i` of a chain is.
pub proof fn lemma_chain_run(vol: Vol, first: u32, count: int, i: int)
    requires
        chained(vol, first as int, count),
        vol.layout.cluster_count <= 0xFFFF_FFF5,
        0 <= i <= count,
    ensures
        vol.chain_at(first, i) == (if i < count {
            Ok::<Option<u32>, ReadError>(Some((first + i) as u32))
        } else {
            Ok::<Option<u32>, ReadError>(None)
        }),
    decreases i,
{
    if i > 0 {
        lemma_chain_run(vol, first, count, i - 1);
        let before = (first + i - 1) as u32;
        assert(vol.chain_at(first, i - 1) == Ok::<Option<u32>, ReadError>(Some(before)));
        if i < count {
            assert(vol.next_of(before) == Ok::<Option<u32>, ReadError>(Some((before + 1) as u32)));
        }
    }
}

/// Where cluster `i` of a stream is.
pub proof fn lemma_stream_run(vol: Vol, storage: Storage, first: int, count: int, i: int)
    requires
        runs(vol, storage, first, count),
        vol.layout.cluster_count <= 0xFFFF_FFF5,
        0 <= i < count,
    ensures
        vol.stream_at(storage, i) == Ok::<Option<u32>, ReadError>(Some((first + i) as u32)),
        vol.layout.has_cluster(first + i),
{
    match storage {
        Storage::Chain(start) => {
            lemma_chain_run(vol, start, count, i);
        },
        _ => {},
    }
}

/// The clusters of a directory.
pub open spec fn run_from(first: int, k: int) -> Seq<u32> {
    Seq::new(k as nat, |j: int| (first + j) as u32)
}

/// A directory in consecutive clusters goes from each to the next.
pub proof fn lemma_trail_run(vol: Vol, storage: Storage, first: int, count: int, k: int)
    requires
        runs(vol, storage, first, count),
        vol.layout.cluster_count <= 0xFFFF_FFF5,
        0 <= k <= count,
    ensures
        vol.trail(storage, k) == (Trail { clusters: run_from(first, k), halt: None }),
    decreases k,
{
    if k > 0 {
        lemma_trail_run(vol, storage, first, count, k - 1);
        let before = run_from(first, k - 1);
        let next = (first + k - 1) as u32;
        lemma_stream_run(vol, storage, first, count, k - 1);
        if k > 1 {
            assert(before.last() == (first + k - 2) as u32);
            if storage is Chain {
                assert(vol.next_of((first + k - 2) as u32) == Ok::<Option<u32>, ReadError>(
                    Some(next),
                ));
                assert(!before.contains(next)) by {
                    if before.contains(next) {
                        let j = choose|j: int| 0 <= j < before.len() && before[j] == next;
                        assert(first + j == first + k - 1);
                    }
                }
            }
        }
        assert(before.push(next) =~= run_from(first, k));
    } else {
        assert(run_from(first, 0) =~= Seq::<u32>::empty());
    }
}

/// Slot `n` of a directory in consecutive clusters.
pub proof fn lemma_slot_run(
    vol: Vol,
    storage: Storage,
    first: int,
    count: int,
    declared: u64,
    n: int,
)
    requires
        vol.wf(),
        runs(vol, storage, first, count),
        0 <= n < count * vol.slots(),
    ensures
        vol.slot_at(storage, declared, n) is Ok,
        ({
            let slot = vol.slot_at(storage, declared, n)->Ok_0;
            let at = vol.layout.byte_of(first) + 32 * n;
            &&& slot.bytes == vol.bytes.subrange(at, at + 32)
            &&& slot.bytes.len() == 32
            &&& 0 <= at
            &&& at + 32 <= vol.layout.byte_of(first) + count * vol.per()
            &&& vol.layout.byte_of(first) + count * vol.per() <= vol.bytes.len()
            &&& slot.cluster == first + n / vol.slots()
        }),
{
    let slots = vol.slots();
    let per = vol.per();
    let k = n / slots;
    let i = n % slots;
    crate::slots::lemma_slots(vol);
    vstd::arithmetic::div_mod::lemma_fundamental_div_mod(n, slots);
    vstd::arithmetic::div_mod::lemma_mod_bound(n, slots);
    assert(0 <= k < count) by (nonlinear_arith)
        requires
            n == slots * k + i,
            0 <= n,
            0 <= i < slots,
            n < count * slots,
    ;
    lemma_trail_run(vol, storage, first, count, k + 1);
    let cluster = (first + k) as u32;
    assert(run_from(first, k + 1)[k] == cluster);
    lemma_clusters_lie_inside(vol.layout, first, k);
    lemma_clusters_lie_inside(vol.layout, first + k, 1);
    lemma_clusters_lie_inside(vol.layout, first + k, count - k);
    assert(1 * per == per);
    assert(per == 32 * slots);
    assert(k * per == 32 * (slots * k)) by (nonlinear_arith)
        requires
            per == 32 * slots,
    ;
    assert(count * per == k * per + (count - k) * per) by (nonlinear_arith);
    assert((count - k) * per >= per) by (nonlinear_arith)
        requires
            count - k >= 1,
            per >= 0,
    ;
    assert(0 <= k * per) by (nonlinear_arith)
        requires
            k >= 0,
            per >= 0,
    ;
    let at = vol.layout.byte_of(first) + 32 * n;
    assert(at == vol.layout.byte_of(first + k) + 32 * i);
    assert(vol.cluster(cluster as int).subrange(32 * i, 32 * i + 32) =~= vol.bytes.subrange(
        at,
        at + 32,
    ));
}

/// The bytes of the first `k` clusters of a stream in consecutive ones.
pub proof fn lemma_stream_bytes(
    vol: Vol,
    storage: Storage,
    first: int,
    count: int,
    declared: u64,
    k: int,
)
    requires
        vol.wf(),
        runs(vol, storage, first, count),
        0 <= k <= count,
    ensures
        0 <= vol.layout.byte_of(first),
        0 <= k * vol.per(),
        vol.layout.byte_of(first) + k * vol.per() <= vol.bytes.len(),
        vol.stream(storage, declared, k) == Ok::<Seq<u8>, ReadError>(
            vol.bytes.subrange(
                vol.layout.byte_of(first),
                vol.layout.byte_of(first) + k * vol.per(),
            ),
        ),
    decreases k,
{
    let per = vol.per();
    let at = vol.layout.byte_of(first);
    lemma_clusters_lie_inside(vol.layout, first, k);
    assert(0 <= k * per) by (nonlinear_arith)
        requires
            k >= 0,
            per >= 0,
    ;
    if k > 0 {
        lemma_stream_bytes(vol, storage, first, count, declared, k - 1);
        lemma_stream_run(vol, storage, first, count, k - 1);
        lemma_clusters_lie_inside(vol.layout, first, k - 1);
        assert(k * per == (k - 1) * per + per) by (nonlinear_arith);
        assert(vol.bytes.subrange(at, at + (k - 1) * per) + vol.cluster(first + k - 1)
            =~= vol.bytes.subrange(at, at + k * per));
    } else {
        assert(0 * per == 0);
        assert(vol.bytes.subrange(at, at) =~= Seq::<u8>::empty());
    }
}

/// A chain is as long as it is, counted from cluster `k` of it on.
pub proof fn lemma_chain_len(vol: Vol, first: u32, count: int, k: int)
    requires
        chained(vol, first as int, count),
        vol.layout.cluster_count <= 0xFFFF_FFF5,
        0 <= k < count,
    ensures
        chain_len(vol, first, (first + k) as u32, k) == Ok::<int, ReadError>(count),
    decreases count - k,
{
    let here = (first + k) as u32;
    if k + 1 < count {
        lemma_chain_len(vol, first, count, k + 1);
        assert(vol.next_of(here) == Ok::<Option<u32>, ReadError>(Some((here + 1) as u32)));
    }
}

impl Fresh {
    /// The root directory is as long as its clusters.
    pub proof fn lemma_root_len(self, vol: Vol)
        requires
            self.wf(),
            self.is(vol),
        ensures
            root_len(vol) == Ok::<u64, ReadError>(
                (self.tree.dirs[0].run.count * self.per()) as u64,
            ),
    {
        self.lemma_chains(vol);
        lemma_chain_len(
            vol,
            self.layout.first_cluster_of_root,
            self.tree.dirs[0].run.count as int,
            0,
        );
    }
}

} // verus!
