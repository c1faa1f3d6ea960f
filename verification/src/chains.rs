//! What the clusters of a stream are, and that its bytes are theirs, wherever on the heap each is.
use vstd::prelude::*;

use crate::contents::lemma_no_gap;
use crate::image::{lemma_ceil_div, lemma_clusters_lie_inside};
use crate::node::Node;
use crate::number::ceil_div;
use crate::open::{chain_len, root_len};
use crate::read_error::ReadError;
use crate::slots::lemma_slots;
use crate::volume::{Resident, Storage, Vol};

verus! {

/// The number four bytes spell, the lowest first.
pub open spec fn word_at(bytes: Seq<u8>, at: int) -> int {
    bytes[at] + 256 * bytes[at + 1] + 65_536 * bytes[at + 2] + 16_777_216 * bytes[at + 3]
}

impl Vol {
    /// The word the table has for a cluster.
    pub open spec fn word_of(self, cluster: int) -> int {
        word_at(self.bytes, self.layout.fat_offset * self.layout.bytes_per_sector + 4 * cluster)
    }

    /// Whether `clusters` are clusters of the heap, each once, of which the table leads from each
    /// to the next.
    pub open spec fn chained(self, clusters: Seq<u32>) -> bool {
        &&& clusters.no_duplicates()
        &&& forall|i: int|
            0 <= i < clusters.len() ==> 2 <= #[trigger] clusters[i] < 2
                + self.layout.cluster_count
        &&& forall|i: int|
            0 <= i < clusters.len() - 1 ==> self.word_of((#[trigger] clusters[i]) as int)
                == clusters[i + 1]
    }

    /// Whether `clusters` are the first clusters of a stream: those the table chains behind its
    /// first, or those behind its first on the heap.
    pub open spec fn has_clusters(self, storage: Storage, clusters: Seq<u32>) -> bool {
        &&& clusters.len() > 0
        &&& match storage {
            Storage::Empty => false,
            Storage::Chain(first) => first == clusters[0] && self.chained(clusters),
            Storage::Contiguous(first) => {
                &&& 2 <= first
                &&& first + clusters.len() <= 2 + self.layout.cluster_count
                &&& forall|i: int|
                    0 <= i < clusters.len() ==> #[trigger] clusters[i] == first + i
            },
        }
    }

    /// The bytes of `clusters`, one behind another.
    pub open spec fn joined(self, clusters: Seq<u32>) -> Seq<u8> {
        let heap = self.layout.cluster_heap_offset * self.layout.bytes_per_sector;
        let per = self.layout.bytes_per_cluster as int;
        Seq::new(
            (clusters.len() * per) as nat,
            |i: int| self.bytes[heap + (clusters[i / per] - 2) * per + i % per],
        )
    }
}

/// A word of the table is the four bytes the format has for it.
proof fn lemma_word_of(vol: Vol, cluster: int)
    ensures
        vol.table(cluster) == vol.word_of(cluster),
{
}

/// A byte of a cluster is where the format has it.
proof fn lemma_cluster_byte(vol: Vol, cluster: int, i: int)
    requires
        vol.wf(),
        vol.layout.has_cluster(cluster),
        0 <= i < vol.per(),
    ensures
        vol.cluster(cluster).len() == vol.per(),
        vol.cluster(cluster)[i] == vol.bytes[vol.layout.cluster_heap_offset
            * vol.layout.bytes_per_sector + (cluster - 2) * vol.layout.bytes_per_cluster + i],
{
    lemma_clusters_lie_inside(vol.layout, cluster, 1);
    assert(1 * vol.layout.bytes_per_cluster == vol.layout.bytes_per_cluster);
}

/// The cluster behind a cluster of the heap is the one the table has for it, wherever that is;
/// the end mark ends the chain; and the mark of a bad cluster, or a word that is the number of no
/// cluster of the heap, is refused as what it is.
pub proof fn lemma_next_is_what_the_table_says(vol: Vol, cluster: u32)
    requires
        vol.wf(),
        2 <= cluster < 2 + vol.layout.cluster_count,
    ensures
        ({
            let word = vol.word_of(cluster as int);
            &&& 2 <= word < 2 + vol.layout.cluster_count ==> vol.next_of(cluster) == Ok::<
                Option<u32>,
                ReadError,
            >(Some(word as u32))
            &&& word == 0xFFFF_FFFF ==> vol.next_of(cluster) == Ok::<Option<u32>, ReadError>(None)
            &&& word == 0xFFFF_FFF7 ==> vol.next_of(cluster) == Err::<Option<u32>, ReadError>(
                ReadError::BadClusterInChain { cluster: 0xFFFF_FFF7 },
            )
            &&& !(2 <= word < 2 + vol.layout.cluster_count) && word != 0xFFFF_FFFF && word
                != 0xFFFF_FFF7 ==> vol.next_of(cluster) == Err::<Option<u32>, ReadError>(
                ReadError::BadChainEntry { cluster, entry: word as u32 },
            )
        }),
{
    lemma_word_of(vol, cluster as int);
}

/// Clusters that are chained are no more than the heap has.
pub proof fn lemma_chained_are_few(vol: Vol, clusters: Seq<u32>)
    requires
        vol.chained(clusters),
    ensures
        clusters.len() <= vol.layout.cluster_count,
{
    let numbers = Seq::new(clusters.len(), |i: int| clusters[i] as int);
    assert(numbers.no_duplicates());
    numbers.unique_seq_to_set();
    let all = vstd::set_lib::set_int_range(2, 2 + vol.layout.cluster_count);
    vstd::set_lib::lemma_int_range(2, 2 + vol.layout.cluster_count);
    assert(numbers.to_set().subset_of(all)) by {
        assert forall|c: int| numbers.to_set().contains(c) implies all.contains(c) by {
            let i = choose|i: int| 0 <= i < numbers.len() && numbers[i] == c;
            assert(2 <= clusters[i] < 2 + vol.layout.cluster_count);
        }
    }
    vstd::set_lib::lemma_len_subset(numbers.to_set(), all);
}

/// Following a chain follows the table: cluster `k` of a chain is the `k`th of those the table
/// leads to one from another, in whatever order they are on the heap, and behind one whose word is
/// the end mark there is none.
pub proof fn lemma_a_chain_follows_the_table(vol: Vol, clusters: Seq<u32>, k: int)
    requires
        vol.wf(),
        clusters.len() > 0,
        vol.chained(clusters),
        0 <= k <= clusters.len(),
    ensures
        k < clusters.len() ==> vol.chain_at(clusters[0], k) == Ok::<Option<u32>, ReadError>(
            Some(clusters[k]),
        ),
        k == clusters.len() && vol.word_of(clusters.last() as int) == 0xFFFF_FFFF ==> vol.chain_at(
            clusters[0],
            k,
        ) == Ok::<Option<u32>, ReadError>(None),
    decreases k,
{
    lemma_chained_are_few(vol, clusters);
    if k > 0 {
        lemma_a_chain_follows_the_table(vol, clusters, k - 1);
        lemma_next_is_what_the_table_says(vol, clusters[k - 1]);
    }
}

/// The clusters of a stream are those of its chain, or those behind its first.
pub proof fn lemma_a_stream_has_its_clusters(vol: Vol, storage: Storage, clusters: Seq<u32>, k: int)
    requires
        vol.wf(),
        vol.has_clusters(storage, clusters),
        0 <= k < clusters.len(),
    ensures
        vol.stream_at(storage, k) == Ok::<Option<u32>, ReadError>(Some(clusters[k])),
        2 <= clusters[k] < 2 + vol.layout.cluster_count,
{
    match storage {
        Storage::Chain(_) => {
            lemma_a_chain_follows_the_table(vol, clusters, k);
        },
        _ => {},
    }
}

/// A cluster holds some byte of a stream.
proof fn lemma_index(at: int, per: int, count: int)
    requires
        0 <= at < count * per,
        per > 0,
    ensures
        0 <= at / per < count,
        0 <= at % per < per,
        at == (at / per) * per + at % per,
{
    vstd::arithmetic::div_mod::lemma_fundamental_div_mod(at, per);
    vstd::arithmetic::div_mod::lemma_mod_bound(at, per);
    vstd::arithmetic::div_mod::lemma_div_pos_is_pos(at, per);
    assert(per * (at / per) == (at / per) * per) by (nonlinear_arith);
    assert(at / per < count) by (nonlinear_arith)
        requires
            (at / per) * per <= at,
            at < count * per,
            per > 0,
    ;
}

/// A file reads as the bytes of its clusters in turn, from any byte of it to any other: the
/// clusters the table chains, in whatever order they are on the heap, or those behind the first
/// where they are consecutive; and as zeros behind what was written of it.
pub proof fn lemma_a_file_is_its_clusters_in_turn(
    vol: Vol,
    node: Node,
    clusters: Seq<u32>,
    from: int,
    to: int,
)
    requires
        vol.wf(),
        vol.has_clusters(node.storage, clusters),
        node.valid_data_length <= clusters.len() * vol.layout.bytes_per_cluster,
        0 <= from <= to,
    ensures
        vol.file_read(node, from, to) == Ok::<Seq<u8>, ReadError>(
            Seq::new(
                (to - from) as nat,
                |i: int|
                    if from + i < node.valid_data_length {
                        vol.joined(clusters)[from + i]
                    } else {
                        0u8
                    },
            ),
        ),
{
    let per = vol.per();
    let count = clusters.len() as int;
    let valid = node.valid_data_length as int;
    let written = if to <= valid {
        to
    } else {
        valid
    };
    assert forall|k: int| 0 <= k < count implies #[trigger] vol.stream_at(node.storage, k) == Ok::<
        Option<u32>,
        ReadError,
    >(Some(clusters[k])) by {
        lemma_a_stream_has_its_clusters(vol, node.storage, clusters, k);
    }
    if from < written {
        let end = ceil_div(written, per);
        lemma_ceil_div(written, per);
        lemma_index(from, per, count);
        assert(end <= count) by (nonlinear_arith)
            requires
                end * per < written + per,
                written <= count * per,
                per > 0,
        ;
        lemma_no_gap(vol, node, from / per, end);
    }
    let want = Seq::new(
        (to - from) as nat,
        |i: int|
            if from + i < node.valid_data_length {
                vol.joined(clusters)[from + i]
            } else {
                0u8
            },
    );
    assert forall|i: int| 0 <= i < to - from implies vol.file_byte(node, from + i) == want[i] by {
        let at = from + i;
        if at < valid {
            lemma_index(at, per, count);
            let k = at / per;
            assert(vol.stream_at(node.storage, k) == Ok::<Option<u32>, ReadError>(
                Some(clusters[k]),
            ));
            lemma_a_stream_has_its_clusters(vol, node.storage, clusters, k);
            lemma_cluster_byte(vol, clusters[k] as int, at % per);
        }
    }
    assert(vol.file_span(node, from, to) =~= want);
}

/// A file that says it has more bytes than its chain has room for is not read past the chain: the
/// read says how many bytes the chain holds, and comes as far as they do.
pub proof fn lemma_a_chain_too_short_is_refused(
    vol: Vol,
    node: Node,
    clusters: Seq<u32>,
    from: int,
    to: int,
)
    requires
        vol.wf(),
        clusters.len() > 0,
        node.storage == Storage::Chain(clusters[0]),
        vol.chained(clusters),
        vol.word_of(clusters.last() as int) == 0xFFFF_FFFF,
        clusters.len() * vol.layout.bytes_per_cluster < to <= node.valid_data_length,
        0 <= from <= clusters.len() * vol.layout.bytes_per_cluster,
    ensures
        vol.file_read(node, from, to) == Err::<Seq<u8>, ReadError>(
            ReadError::StreamTooShort {
                start: clusters[0],
                declared: node.data_length,
                held: (clusters.len() * vol.layout.bytes_per_cluster) as u64,
            },
        ),
        vol.file_reach(node, from, to) == clusters.len() * vol.layout.bytes_per_cluster,
{
    let per = vol.per();
    let count = clusters.len() as int;
    let end = ceil_div(to, per);
    lemma_ceil_div(to, per);
    assert(count < end) by (nonlinear_arith)
        requires
            to <= end * per,
            count * per < to,
            per > 0,
    ;
    lemma_a_chain_follows_the_table(vol, clusters, count);
    let k = from / per;
    vstd::arithmetic::div_mod::lemma_fundamental_div_mod(from, per);
    vstd::arithmetic::div_mod::lemma_mod_bound(from, per);
    vstd::arithmetic::div_mod::lemma_div_pos_is_pos(from, per);
    assert(k <= count) by (nonlinear_arith)
        requires
            from == per * k + from % per,
            0 <= from % per,
            from <= count * per,
            per > 0,
    ;
    lemma_short(vol, node, clusters, k, end);
}

/// The first cluster a file lacks is the one behind its chain.
proof fn lemma_short(vol: Vol, node: Node, clusters: Seq<u32>, k: int, end: int)
    requires
        vol.wf(),
        clusters.len() > 0,
        node.storage == Storage::Chain(clusters[0]),
        vol.chained(clusters),
        vol.chain_at(clusters[0], clusters.len() as int) == Ok::<Option<u32>, ReadError>(None),
        0 <= k <= clusters.len() < end,
    ensures
        vol.first_gap(node, k, end) == Some(
            vol.too_short(node.storage, node.data_length, clusters.len() as int),
        ),
        vol.gap_at(node, k, end) == clusters.len(),
    decreases end - k,
{
    if k < clusters.len() {
        lemma_a_chain_follows_the_table(vol, clusters, k);
        lemma_short(vol, node, clusters, k + 1, end);
    }
}

/// A directory is read through the clusters of its stream in turn, wherever on the heap each is.
pub proof fn lemma_a_directory_is_its_clusters_in_turn(
    vol: Vol,
    storage: Storage,
    clusters: Seq<u32>,
    count: int,
)
    requires
        vol.wf(),
        vol.has_clusters(storage, clusters),
        0 <= count <= clusters.len(),
    ensures
        vol.trail(storage, count).halt is None,
        vol.trail(storage, count).clusters == clusters.take(count),
    decreases count,
{
    if count > 0 {
        lemma_a_directory_is_its_clusters_in_turn(vol, storage, clusters, count - 1);
        lemma_a_stream_has_its_clusters(vol, storage, clusters, count - 1);
        let before = clusters.take(count - 1);
        if count > 1 && storage is Chain {
            lemma_next_is_what_the_table_says(vol, clusters[count - 2]);
            assert(before.last() == clusters[count - 2]);
            if before.contains(clusters[count - 1]) {
                let j = choose|j: int|
                    0 <= j < before.len() && before[j] == clusters[count - 1];
                assert(clusters[j] == clusters[count - 1]);
            }
        }
        assert(before.push(clusters[count - 1]) =~= clusters.take(count));
    } else {
        assert(clusters.take(count) =~= Seq::empty());
    }
}

/// Slot `n` of a directory is its `n`th 32 bytes, those of its clusters taken in turn.
pub proof fn lemma_a_slot_is_32_bytes_of_the_directory(
    vol: Vol,
    storage: Storage,
    clusters: Seq<u32>,
    declared: u64,
    n: int,
)
    requires
        vol.wf(),
        vol.has_clusters(storage, clusters),
        0 <= n,
        32 * n + 32 <= clusters.len() * vol.layout.bytes_per_cluster,
    ensures
        vol.slot_at(storage, declared, n) is Ok,
        vol.slot_at(storage, declared, n)->Ok_0.bytes == vol.joined(clusters).subrange(
            32 * n,
            32 * n + 32,
        ),
        vol.slot_at(storage, declared, n)->Ok_0.cluster == clusters[32 * n
            / vol.layout.bytes_per_cluster as int],
        n <= u32::MAX ==> vol.slot_at(storage, declared, n)->Ok_0.index == n,
{
    let per = vol.per();
    let slots = vol.slots();
    let count = clusters.len() as int;
    lemma_slots(vol);
    assert(n < count * slots) by (nonlinear_arith)
        requires
            32 * n + 32 <= count * per,
            slots * 32 == per,
    ;
    lemma_index(n, slots, count);
    let k = n / slots;
    let i = n % slots;
    lemma_a_directory_is_its_clusters_in_turn(vol, storage, clusters, k + 1);
    lemma_a_stream_has_its_clusters(vol, storage, clusters, k);
    assert(clusters.take(k + 1)[k] == clusters[k]);
    let slot = vol.slot_in(clusters[k], n, i);
    assert forall|b: int| 0 <= b < 32 implies slot.bytes[b] == vol.joined(clusters)[32 * n
        + b] by {
        let at = 32 * n + b;
        assert(at / per == k && at % per == 32 * i + b && at < count * per) by (nonlinear_arith)
            requires
                at == 32 * n + b,
                n == k * slots + i,
                slots * 32 == per,
                0 <= i < slots,
                0 <= b < 32,
                0 <= k < count,
        ;
        lemma_cluster_byte(vol, clusters[k] as int, 32 * i + b);
    }
    assert((32 * n) / per == k) by (nonlinear_arith)
        requires
            n == k * slots + i,
            slots * 32 == per,
            0 <= i < slots,
            0 <= k,
    ;
    lemma_cluster_byte(vol, clusters[k] as int, 0);
    assert(slot.bytes =~= vol.joined(clusters).subrange(32 * n, 32 * n + 32));
}

/// The first clusters of a stream hold its first bytes.
proof fn lemma_stream_is_joined(
    vol: Vol,
    storage: Storage,
    clusters: Seq<u32>,
    declared: u64,
    count: int,
)
    requires
        vol.wf(),
        vol.has_clusters(storage, clusters),
        0 <= count <= clusters.len(),
    ensures
        vol.stream(storage, declared, count) == Ok::<Seq<u8>, ReadError>(
            vol.joined(clusters).take(count * vol.per()),
        ),
    decreases count,
{
    let per = vol.per();
    let all = vol.joined(clusters);
    assert(0 <= count * per <= clusters.len() * per) by (nonlinear_arith)
        requires
            0 <= count <= clusters.len(),
            per > 0,
    ;
    if count > 0 {
        lemma_stream_is_joined(vol, storage, clusters, declared, count - 1);
        lemma_a_stream_has_its_clusters(vol, storage, clusters, count - 1);
        let last = clusters[count - 1] as int;
        assert((count - 1) * per + per == count * per && 0 <= (count - 1) * per)
            by (nonlinear_arith)
            requires
                count > 0,
                per > 0,
        ;
        let before = all.take((count - 1) * per);
        lemma_cluster_byte(vol, last, 0);
        assert forall|i: int| 0 <= i < per implies vol.cluster(last)[i] == all[(count - 1) * per
            + i] by {
            let at = (count - 1) * per + i;
            assert(at / per == count - 1 && at % per == i) by (nonlinear_arith)
                requires
                    at == (count - 1) * per + i,
                    0 <= i < per,
            ;
            lemma_cluster_byte(vol, last, i);
        }
        assert(before + vol.cluster(last) =~= all.take(count * per));
    } else {
        assert(0 * per == 0);
        assert(all.take(count * per) =~= Seq::empty());
    }
}

/// The first bytes of a chain are those of its clusters in turn.
pub proof fn lemma_a_chain_is_its_clusters_in_turn(vol: Vol, clusters: Seq<u32>, len: u64)
    requires
        vol.wf(),
        clusters.len() > 0,
        vol.chained(clusters),
        len <= clusters.len() * vol.layout.bytes_per_cluster,
    ensures
        vol.chain(clusters[0], len) == Ok::<Seq<u8>, ReadError>(
            vol.joined(clusters).take(len as int),
        ),
{
    let per = vol.per();
    let count = ceil_div(len as int, per);
    lemma_ceil_div(len as int, per);
    assert(count <= clusters.len()) by (nonlinear_arith)
        requires
            count * per < len + per,
            len <= clusters.len() * per,
            per > 0,
    ;
    assert(len <= count * per <= clusters.len() * per) by (nonlinear_arith)
        requires
            len <= count * per,
            count <= clusters.len(),
            per > 0,
    ;
    lemma_stream_is_joined(vol, Storage::Chain(clusters[0]), clusters, len, count);
    assert(vol.joined(clusters).take(count * per).take(len as int) =~= vol.joined(clusters).take(
        len as int,
    ));
}

/// The bitmap has a bit for each cluster of the heap, the lowest of its first byte for cluster 2,
/// and a cluster is in use where its bit is set; a cluster behind the bitmap's last byte is not.
pub proof fn lemma_a_cluster_in_use_has_its_bit_set(
    vol: Vol,
    bitmap: Resident,
    clusters: Seq<u32>,
    cluster: u32,
)
    requires
        vol.wf(),
        clusters.len() > 0,
        bitmap.first_cluster == clusters[0],
        vol.chained(clusters),
        bitmap.bytes <= clusters.len() * vol.layout.bytes_per_cluster,
        2 <= cluster < 2 + vol.layout.cluster_count,
    ensures
        vol.allocated(bitmap, cluster) == Ok::<bool, ReadError>(
            (cluster - 2) / 8 < bitmap.bytes && vol.joined(clusters)[(cluster - 2) / 8] & (1u8 << ((
            (cluster - 2) % 8) as u8)) != 0,
        ),
{
    let per = vol.per();
    let at = (cluster - 2) / 8;
    if at < bitmap.bytes {
        lemma_index(at, per, clusters.len() as int);
        lemma_a_chain_follows_the_table(vol, clusters, at / per);
        let holding = clusters[at / per] as int;
        lemma_cluster_byte(vol, holding, at % per);
        lemma_clusters_lie_inside(vol.layout, holding, 1);
    }
}

/// Clusters that end with the end mark are counted from any of them on.
proof fn lemma_chain_len(vol: Vol, start: u32, clusters: Seq<u32>, before: int)
    requires
        vol.wf(),
        vol.chained(clusters),
        0 <= before < clusters.len(),
        vol.word_of(clusters.last() as int) == 0xFFFF_FFFF,
    ensures
        chain_len(vol, start, clusters[before], before) == Ok::<int, ReadError>(
            clusters.len() as int,
        ),
    decreases clusters.len() - before,
{
    lemma_chained_are_few(vol, clusters);
    lemma_next_is_what_the_table_says(vol, clusters[before]);
    if before + 1 < clusters.len() {
        lemma_chain_len(vol, start, clusters, before + 1);
    }
}

/// The root directory is all the clusters of its chain, wherever on the heap each is.
pub proof fn lemma_the_root_is_its_whole_chain(vol: Vol, clusters: Seq<u32>)
    requires
        vol.wf(),
        clusters.len() > 0,
        clusters[0] == vol.layout.first_cluster_of_root,
        vol.chained(clusters),
        vol.word_of(clusters.last() as int) == 0xFFFF_FFFF,
    ensures
        root_len(vol) == Ok::<u64, ReadError>(
            (clusters.len() * vol.layout.bytes_per_cluster) as u64,
        ),
{
    lemma_chain_len(vol, clusters[0], clusters, 0);
}

/// The clusters the table leads through are those of the chain, also where it comes back to one.
proof fn lemma_led_through(vol: Vol, way: Seq<u32>, i: int)
    requires
        vol.wf(),
        forall|k: int|
            0 <= k < way.len() ==> 2 <= #[trigger] way[k] < 2 + vol.layout.cluster_count,
        forall|k: int|
            0 <= k < way.len() - 1 ==> vol.word_of((#[trigger] way[k]) as int) == way[k + 1],
        0 <= i < way.len(),
        i <= vol.layout.cluster_count,
    ensures
        vol.chain_at(way[0], i) == Ok::<Option<u32>, ReadError>(Some(way[i])),
    decreases i,
{
    if i > 0 {
        lemma_led_through(vol, way, i - 1);
        lemma_next_is_what_the_table_says(vol, way[i - 1]);
        assert(vol.word_of(way[i - 1] as int) == way[i - 1 + 1]);
    }
}

/// A chain that goes on past as many clusters as the heap has goes round in it, and is refused:
/// beyond that many it has no cluster, and its root directory no length.
pub proof fn lemma_a_chain_that_does_not_end_is_refused(vol: Vol, way: Seq<u32>, index: int)
    requires
        vol.wf(),
        way.len() == vol.layout.cluster_count + 2,
        forall|k: int|
            0 <= k < way.len() ==> 2 <= #[trigger] way[k] < 2 + vol.layout.cluster_count,
        forall|k: int|
            0 <= k < way.len() - 1 ==> vol.word_of((#[trigger] way[k]) as int) == way[k + 1],
        vol.layout.cluster_count < index,
    ensures
        vol.chain_at(way[0], index) == Err::<Option<u32>, ReadError>(
            ReadError::ChainTooLong { start: way[0], clusters: vol.layout.cluster_count },
        ),
        way[0] == vol.layout.first_cluster_of_root ==> root_len(vol) == Err::<u64, ReadError>(
            ReadError::ChainTooLong { start: way[0], clusters: vol.layout.cluster_count },
        ),
    decreases index,
{
    let count = vol.layout.cluster_count as int;
    if index == count + 1 {
        lemma_led_through(vol, way, count);
        lemma_next_is_what_the_table_says(vol, way[count]);
        assert(vol.word_of(way[count] as int) == way[count + 1]);
        lemma_never_counted(vol, way, 0);
    } else {
        lemma_a_chain_that_does_not_end_is_refused(vol, way, index - 1);
    }
}

/// The clusters of a chain that does not end are never counted.
proof fn lemma_never_counted(vol: Vol, way: Seq<u32>, before: int)
    requires
        vol.wf(),
        way.len() == vol.layout.cluster_count + 2,
        forall|k: int|
            0 <= k < way.len() ==> 2 <= #[trigger] way[k] < 2 + vol.layout.cluster_count,
        forall|k: int|
            0 <= k < way.len() - 1 ==> vol.word_of((#[trigger] way[k]) as int) == way[k + 1],
        0 <= before <= vol.layout.cluster_count,
    ensures
        chain_len(vol, way[0], way[before], before) == Err::<int, ReadError>(
            ReadError::ChainTooLong { start: way[0], clusters: vol.layout.cluster_count },
        ),
    decreases vol.layout.cluster_count - before,
{
    if before < vol.layout.cluster_count {
        lemma_next_is_what_the_table_says(vol, way[before]);
        assert(vol.word_of(way[before] as int) == way[before + 1]);
        lemma_never_counted(vol, way, before + 1);
    }
}

/// A stream of consecutive clusters has none past the heap: the first that is not on it is refused
/// by its number. A stream that begins on no cluster of the heap is refused by that one, and an
/// empty stream has none.
pub proof fn lemma_a_stream_does_not_leave_the_heap(vol: Vol, first: u32, index: int)
    requires
        0 <= index,
        first + index <= u32::MAX,
    ensures
        !(2 <= first + index < 2 + vol.layout.cluster_count) ==> vol.stream_at(
            Storage::Contiguous(first),
            index,
        ) == Err::<Option<u32>, ReadError>(
            ReadError::ClusterOutOfRange { cluster: (first + index) as u32 },
        ),
        !(2 <= first < 2 + vol.layout.cluster_count) ==> vol.stream_at(
            Storage::Chain(first),
            index,
        ) == Err::<Option<u32>, ReadError>(ReadError::ClusterOutOfRange { cluster: first }),
        vol.stream_at(Storage::Empty, index) == Ok::<Option<u32>, ReadError>(None),
{
}

/// A cluster the bitmap has no byte for is not in use, and one the heap does not have is refused.
pub proof fn lemma_a_bitmap_too_short_calls_nothing_in_use(
    vol: Vol,
    bitmap: Resident,
    cluster: u32,
)
    ensures
        !(2 <= cluster < 2 + vol.layout.cluster_count) ==> vol.allocated(bitmap, cluster) == Err::<
            bool,
            ReadError,
        >(ReadError::ClusterOutOfRange { cluster }),
        2 <= cluster < 2 + vol.layout.cluster_count && cluster - 2 >= 8 * bitmap.bytes
            ==> vol.allocated(bitmap, cluster) == Ok::<bool, ReadError>(false),
{
}

} // verus!
