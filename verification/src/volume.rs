//! The sectors, the clusters and the chains of a volume.
use vstd::prelude::*;

use crate::bytes::{get_u32, push_all, u32_at};
use crate::geometry::{ExfatLayout, FIRST_CLUSTER};
use crate::image::{lemma_ceil_div, lemma_clusters_lie_inside};
use crate::number::ceil_div;
use crate::read_error::ReadError;
use crate::table::{BAD_CLUSTER, END_OF_CHAIN};

verus! {

/// The most bytes an up-case table has: a word for each unit.
pub const MAX_UPCASE_BYTES: u64 = 0x2_0000;

/// Where the bytes of a stream are.
#[derive(Clone, Copy, PartialEq, Eq, Debug, Structural)]
pub enum Storage {
    /// Nowhere: the stream has none.
    Empty,
    /// In consecutive clusters, the first of which this is.
    Contiguous(u32),
    /// In the clusters of the chain that begins with this one.
    Chain(u32),
}

impl Storage {
    /// The first cluster of the stream, where it has one.
    pub open spec fn first(self) -> Option<u32> {
        match self {
            Storage::Empty => None,
            Storage::Contiguous(first) => Some(first),
            Storage::Chain(first) => Some(first),
        }
    }

    /// The first cluster of the stream, or zero where it has none.
    pub open spec fn first_or_zero(self) -> u32 {
        match self.first() {
            Some(first) => first,
            None => 0,
        }
    }

    /// The first cluster of the stream, where it has one.
    #[must_use]
    pub fn first_cluster(self) -> (first: Option<u32>)
        ensures
            first == self.first(),
    {
        match self {
            Storage::Empty => None,
            Storage::Contiguous(first) | Storage::Chain(first) => Some(first),
        }
    }
}

/// A stream the root directory names for the whole volume.
#[derive(Clone, Copy, PartialEq, Eq, Debug, Structural)]
pub struct Resident {
    /// Its first cluster.
    pub first_cluster: u32,
    /// Bytes it has.
    pub bytes: u64,
}

/// The bytes of a volume and where everything in them is.
pub struct Vol {
    /// The bytes from the beginning of the volume on.
    pub bytes: Seq<u8>,
    /// Where everything is.
    pub layout: ExfatLayout,
}

impl Vol {
    /// Whether the layout is sound and the bytes are all there.
    pub open spec fn wf(self) -> bool {
        &&& self.layout.sound()
        &&& self.layout.volume_size() <= self.bytes.len()
    }

    /// Bytes of a cluster.
    pub open spec fn per(self) -> int {
        self.layout.bytes_per_cluster as int
    }

    /// `count` sectors from `first` on.
    pub open spec fn sectors(self, first: int, count: int) -> Seq<u8> {
        let size = self.layout.bytes_per_sector as int;
        self.bytes.subrange(first * size, (first + count) * size)
    }

    /// The bytes of cluster `n`.
    pub open spec fn cluster(self, n: int) -> Seq<u8> {
        self.bytes.subrange(self.layout.byte_of(n), self.layout.byte_of(n) + self.per())
    }

    /// The table entry of cluster `n`.
    pub open spec fn table(self, n: int) -> u32 {
        u32_at(self.bytes, self.layout.fat_byte_of(n))
    }

    /// The cluster behind `cluster` in its chain, or nothing where it is the last.
    pub open spec fn next_of(self, cluster: u32) -> Result<Option<u32>, ReadError> {
        let entry = self.table(cluster as int);
        if !self.layout.has_cluster(cluster as int) {
            Err(ReadError::ClusterOutOfRange { cluster })
        } else if entry == END_OF_CHAIN {
            Ok(None)
        } else if entry == BAD_CLUSTER {
            Err(ReadError::BadClusterInChain { cluster: entry })
        } else if !self.layout.has_cluster(entry as int) {
            Err(ReadError::BadChainEntry { cluster, entry })
        } else {
            Ok(Some(entry))
        }
    }

    /// The refusal of a chain that does not end.
    pub open spec fn too_long(self, start: u32) -> ReadError {
        ReadError::ChainTooLong { start, clusters: self.layout.cluster_count }
    }

    /// Cluster `index` of the chain that begins with `start`, or nothing where it is shorter.
    pub open spec fn chain_at(self, start: u32, index: int) -> Result<Option<u32>, ReadError>
        decreases index,
    {
        if !self.layout.has_cluster(start as int) {
            Err(ReadError::ClusterOutOfRange { cluster: start })
        } else if index <= 0 {
            Ok(Some(start))
        } else {
            match self.chain_at(start, index - 1) {
                Err(e) => Err(e),
                Ok(None) => Ok(None),
                Ok(Some(current)) => match self.next_of(current) {
                    Err(e) => Err(e),
                    Ok(None) => Ok(None),
                    Ok(Some(next)) => if index > self.layout.cluster_count {
                        Err(self.too_long(start))
                    } else {
                        Ok(Some(next))
                    },
                },
            }
        }
    }

    /// Cluster `index` of a stream, or nothing where it has no such cluster.
    pub open spec fn stream_at(self, storage: Storage, index: int) -> Result<Option<u32>, ReadError> {
        match storage {
            Storage::Empty => Ok(None),
            Storage::Contiguous(first) => if self.layout.has_cluster(first + index) {
                Ok(Some((first + index) as u32))
            } else {
                Err(
                    ReadError::ClusterOutOfRange {
                        cluster: if first + index > u32::MAX {
                            u32::MAX
                        } else {
                            (first + index) as u32
                        },
                    },
                )
            },
            Storage::Chain(start) => self.chain_at(start, index),
        }
    }

    /// The refusal of a stream with `count` clusters and more bytes than they hold.
    pub open spec fn too_short(self, storage: Storage, declared: u64, count: int) -> ReadError {
        ReadError::StreamTooShort {
            start: storage.first_or_zero(),
            declared,
            held: (count * self.per()) as u64,
        }
    }

    /// The bytes of the first `count` clusters of a stream.
    pub open spec fn stream(self, storage: Storage, declared: u64, count: int) -> Result<
        Seq<u8>,
        ReadError,
    >
        decreases count,
    {
        if count <= 0 {
            Ok(Seq::empty())
        } else {
            match self.stream(storage, declared, count - 1) {
                Err(e) => Err(e),
                Ok(bytes) => match self.stream_at(storage, count - 1) {
                    Err(e) => Err(e),
                    Ok(None) => Err(self.too_short(storage, declared, count - 1)),
                    Ok(Some(cluster)) => Ok(bytes + self.cluster(cluster as int)),
                },
            }
        }
    }

    /// The first `len` bytes of the chain that begins with `first`.
    pub open spec fn chain(self, first: u32, len: u64) -> Result<Seq<u8>, ReadError> {
        match self.stream(Storage::Chain(first), len, ceil_div(len as int, self.per())) {
            Err(e) => Err(e),
            Ok(bytes) => Ok(bytes.take(len as int)),
        }
    }

    /// Whether the bitmap calls a cluster in use.
    pub open spec fn allocated(self, bitmap: Resident, cluster: u32) -> Result<bool, ReadError> {
        let bit = cluster - FIRST_CLUSTER;
        let at = bit / 8;
        let index = at / self.per();
        if !self.layout.has_cluster(cluster as int) {
            Err(ReadError::ClusterOutOfRange { cluster })
        } else if at >= bitmap.bytes {
            Ok(false)
        } else {
            match self.chain_at(bitmap.first_cluster, index) {
                Err(e) => Err(e),
                Ok(None) => Err(
                    self.too_short(Storage::Chain(bitmap.first_cluster), bitmap.bytes, index),
                ),
                Ok(Some(holding)) => Ok(
                    bit_set(
                        self.bytes[self.layout.byte_of(holding as int) + at % self.per()],
                        (bit % 8) as u8,
                    ),
                ),
            }
        }
    }
}

/// Whether bit `bit` of a byte is set.
pub open spec fn bit_set(byte: u8, bit: u8) -> bool {
    byte & (1u8 << bit) != 0
}

/// Every cluster a chain gives is one the volume has.
pub proof fn lemma_chain_at(vol: Vol, start: u32, index: int)
    ensures
        match vol.chain_at(start, index) {
            Ok(Some(cluster)) => vol.layout.has_cluster(cluster as int) && index
                <= vol.layout.cluster_count,
            _ => true,
        },
    decreases index,
{
    if index > 0 {
        lemma_chain_at(vol, start, index - 1);
    }
}

/// Every cluster a stream gives is one the volume has, and a stream has no more of them.
pub proof fn lemma_stream_at(vol: Vol, storage: Storage, index: int)
    requires
        vol.wf(),
    ensures
        match vol.stream_at(storage, index) {
            Ok(Some(cluster)) => vol.layout.has_cluster(cluster as int) && index
                <= vol.layout.cluster_count + 1,
            _ => true,
        },
{
    match storage {
        Storage::Chain(start) => {
            lemma_chain_at(vol, start, index);
        },
        _ => {},
    }
}

/// A stream that cannot be read to some cluster cannot be read past it.
pub proof fn lemma_stream_fails(vol: Vol, storage: Storage, declared: u64, count: int, more: int)
    requires
        count <= more,
        vol.stream(storage, declared, count) is Err,
    ensures
        vol.stream(storage, declared, more) == vol.stream(storage, declared, count),
    decreases more - count,
{
    if count < more {
        lemma_stream_fails(vol, storage, declared, count, more - 1);
    }
}

/// A volume in the bytes of a source.
#[derive(Clone, Copy, Debug)]
pub struct Volume<'a> {
    /// The source.
    pub src: &'a [u8],
    /// The byte of the source the volume begins at.
    pub base: usize,
    /// Where everything is.
    pub layout: ExfatLayout,
}

/// A place in a chain that was reached before.
#[derive(Clone, Copy, PartialEq, Eq, Debug, Structural)]
pub struct ChainCursor {
    start: u32,
    index: u64,
    cluster: u32,
}

impl ChainCursor {
    /// Whether the place is one of the volume's chains, where the chain is one.
    pub closed spec fn on(self, vol: Vol) -> bool {
        vol.layout.has_cluster(self.start as int) ==> {
            &&& vol.chain_at(self.start, self.index as int) == Ok::<Option<u32>, ReadError>(
                Some(self.cluster),
            )
        }
    }

    /// No place yet.
    #[must_use]
    pub fn new() -> (cursor: Self)
        ensures
            forall|vol: Vol| cursor.on(vol),
    {
        ChainCursor { start: 0, index: 0, cluster: 0 }
    }
}

impl<'a> View for Volume<'a> {
    type V = Vol;

    open spec fn view(&self) -> Vol {
        Vol { bytes: self.src@.skip(self.base as int), layout: self.layout }
    }
}

impl<'a> Volume<'a> {
    /// Whether the layout is sound and the source has the volume's bytes.
    pub open spec fn wf(&self) -> bool {
        &&& self.base <= self.src@.len()
        &&& self@.wf()
    }

    /// `count` sectors from `first` on.
    #[must_use]
    pub fn read_sectors(&self, first: u64, count: u64) -> (bytes: &'a [u8])
        requires
            self.wf(),
            first + count <= self.layout.volume_length,
        ensures
            bytes@ == self@.sectors(first as int, count as int),
            bytes@.len() == count * self.layout.bytes_per_sector,
    {
        let len: usize = self.src.len();
        let size: u64 = self.layout.bytes_per_sector as u64;
        proof {
            let end = first + count;
            assert(first * size <= end * size && end * size <= self.layout.volume_length * size
                && end * size == first * size + count * size && 0 <= first * size)
                by (nonlinear_arith)
                requires
                    first <= end,
                    end == first + count,
                    end <= self.layout.volume_length,
                    0 <= count,
            ;
        }
        let from: usize = self.base + (first * size) as usize;
        let to: usize = from + (count * size) as usize;
        let bytes = vstd::slice::slice_subrange(self.src, from, to);
        assert(bytes@ =~= self@.sectors(first as int, count as int));
        bytes
    }

    /// The bytes of cluster `n`.
    #[must_use]
    pub fn read_cluster(&self, n: u32) -> (bytes: &'a [u8])
        requires
            self.wf(),
            self.layout.has_cluster(n as int),
        ensures
            bytes@ == self@.cluster(n as int),
            bytes@.len() == self.layout.bytes_per_cluster,
    {
        let len: usize = self.src.len();
        proof {
            lemma_clusters_lie_inside(self.layout, n as int, 1);
            assert(1 * self.layout.bytes_per_cluster == self.layout.bytes_per_cluster);
        }
        let at: Option<u64> = self.layout.cluster_start_byte(n);
        let from: usize = self.base + at.unwrap() as usize;
        let to: usize = from + self.layout.bytes_per_cluster as usize;
        let bytes = vstd::slice::slice_subrange(self.src, from, to);
        assert(bytes@ =~= self@.cluster(n as int));
        bytes
    }

    /// The table entry of a cluster.
    pub fn table_entry(&self, cluster: u32) -> (r: Result<u32, ReadError>)
        requires
            self.wf(),
        ensures
            match r {
                Ok(entry) => {
                    &&& self.layout.has_cluster(cluster as int)
                    &&& entry == self@.table(cluster as int)
                },
                Err(e) => {
                    &&& !self.layout.has_cluster(cluster as int)
                    &&& e == (ReadError::ClusterOutOfRange { cluster })
                },
            },
    {
        if cluster < FIRST_CLUSTER || cluster - FIRST_CLUSTER >= self.layout.cluster_count {
            return Err(ReadError::ClusterOutOfRange { cluster });
        }
        let len: usize = self.src.len();
        proof {
            self@.lemma_table_lies_inside(cluster as int);
        }
        let at: Option<u64> = self.layout.fat_entry_byte(cluster);
        let from: usize = self.base + at.unwrap() as usize;
        let entry: u32 = get_u32(self.src, from);
        assert(self@.bytes.subrange(from - self.base, from - self.base + 4)
            =~= self.src@.subrange(from as int, from + 4));
        Ok(entry)
    }

    /// The cluster behind `cluster` in its chain, or nothing where it is the last.
    pub fn next_cluster(&self, cluster: u32) -> (r: Result<Option<u32>, ReadError>)
        requires
            self.wf(),
        ensures
            r == self@.next_of(cluster),
    {
        let entry: u32 = self.table_entry(cluster)?;
        if entry == END_OF_CHAIN {
            return Ok(None);
        }
        if entry == BAD_CLUSTER {
            return Err(ReadError::BadClusterInChain { cluster: entry });
        }
        if entry < FIRST_CLUSTER || entry - FIRST_CLUSTER >= self.layout.cluster_count {
            return Err(ReadError::BadChainEntry { cluster, entry });
        }
        Ok(Some(entry))
    }

    /// Cluster `index` of the chain that begins with `start`, or nothing where it is shorter,
    /// from the place of `cursor` on where that is on the way.
    pub fn chain_cluster(&self, cursor: &mut ChainCursor, start: u32, index: u64) -> (r: Result<
        Option<u32>,
        ReadError,
    >)
        requires
            self.wf(),
            old(cursor).on(self@),
        ensures
            final(cursor).on(self@),
            r == self@.chain_at(start, index as int),
    {
        if start < FIRST_CLUSTER || start - FIRST_CLUSTER >= self.layout.cluster_count {
            proof {
                lemma_chain_fails(self@, start, 0, index as int);
            }
            return Err(ReadError::ClusterOutOfRange { cluster: start });
        }
        let mut at: u64 = 0;
        let mut current: u32 = start;
        if cursor.start == start && cursor.index <= index {
            at = cursor.index;
            current = cursor.cluster;
        }
        while at < index
            invariant
                self.wf(),
                at <= index,
                self.layout.has_cluster(start as int),
                cursor.on(self@),
                self@.chain_at(start, at as int) == Ok::<Option<u32>, ReadError>(Some(current)),
            decreases index - at,
        {
            proof {
                lemma_chain_fails(self@, start, at + 1, index as int);
            }
            match self.next_cluster(current)? {
                Some(next) => {
                    current = next;
                    at += 1;
                },
                None => return Ok(None),
            }
            if at > self.layout.cluster_count as u64 {
                return Err(
                    ReadError::ChainTooLong { start, clusters: self.layout.cluster_count },
                );
            }
        }
        *cursor = ChainCursor { start, index: at, cluster: current };
        Ok(Some(current))
    }

    /// Cluster `index` of a stream, or nothing where it has no such cluster.
    pub fn stream_cluster(&self, cursor: &mut ChainCursor, storage: Storage, index: u64) -> (r:
        Result<Option<u32>, ReadError>)
        requires
            self.wf(),
            old(cursor).on(self@),
            index <= u64::MAX - u32::MAX,
        ensures
            final(cursor).on(self@),
            r == self@.stream_at(storage, index as int),
    {
        match storage {
            Storage::Empty => Ok(None),
            Storage::Contiguous(first) => {
                let n: u64 = first as u64 + index;
                if n > u32::MAX as u64 {
                    return Err(ReadError::ClusterOutOfRange { cluster: u32::MAX });
                }
                let cluster: u32 = n as u32;
                if cluster < FIRST_CLUSTER || cluster - FIRST_CLUSTER
                    >= self.layout.cluster_count {
                    return Err(ReadError::ClusterOutOfRange { cluster });
                }
                Ok(Some(cluster))
            },
            Storage::Chain(start) => self.chain_cluster(cursor, start, index),
        }
    }

    /// The first `len` bytes of the chain that begins with `first`.
    pub fn read_chain(&self, first: u32, len: u64) -> (r: Result<Vec<u8>, ReadError>)
        requires
            self.wf(),
            len <= MAX_UPCASE_BYTES,
        ensures
            match r {
                Ok(bytes) => self@.chain(first, len) == Ok::<Seq<u8>, ReadError>(bytes@),
                Err(e) => self@.chain(first, len) == Err::<Seq<u8>, ReadError>(e),
            },
    {
        let ghost per = self@.per();
        let ghost storage = Storage::Chain(first);
        let ghost total = ceil_div(len as int, per);
        let mut cursor = ChainCursor::new();
        let mut out: Vec<u8> = Vec::new();
        let mut index: u64 = 0;
        proof {
            lemma_ceil_div(len as int, per);
            assert(0 * per == 0);
            assert(total <= len) by (nonlinear_arith)
                requires
                    total * per < len + per,
                    per >= 512,
                    len >= 0,
            ;
        }
        while (out.len() as u64) < len
            invariant
                self.wf(),
                cursor.on(self@),
                per == self@.per(),
                storage == Storage::Chain(first),
                total == ceil_div(len as int, per),
                total <= len,
                len <= total * per,
                total * per < len + per,
                len <= MAX_UPCASE_BYTES,
                index <= total,
                self@.stream(storage, len, index as int) is Ok,
                out@ == self@.stream(storage, len, index as int)->Ok_0.take(
                    if index * per <= len {
                        index * per
                    } else {
                        len as int
                    },
                ),
                self@.stream(storage, len, index as int)->Ok_0.len() == index * per,
                out@.len() == (if index * per <= len {
                    index * per
                } else {
                    len as int
                }),
            decreases total - index,
        {
            proof {
                assert(index < total) by (nonlinear_arith)
                    requires
                        index * per < len,
                        len <= total * per,
                        per > 0,
                ;
                if self@.stream(storage, len, index + 1) is Err {
                    lemma_stream_fails(self@, storage, len, index + 1, total);
                }
                lemma_stream_at(self@, storage, index as int);
                assert((index + 1) * per == index * per + per) by (nonlinear_arith);
            }
            let found: Option<u32> = self.chain_cluster(&mut cursor, first, index)?;
            match found {
                None => {
                    assert(index * per <= u64::MAX);
                    return Err(
                        ReadError::StreamTooShort {
                            start: first,
                            declared: len,
                            held: index * self.layout.bytes_per_cluster as u64,
                        },
                    );
                },
                Some(cluster) => {
                    let bytes = self.read_cluster(cluster);
                    let left: u64 = len - out.len() as u64;
                    let take: usize = if bytes.len() as u64 <= left {
                        bytes.len()
                    } else {
                        left as usize
                    };
                    push_all(&mut out, vstd::slice::slice_subrange(bytes, 0, take));
                    index += 1;
                    proof {
                        let all = self@.stream(storage, len, index as int)->Ok_0;
                        let want: int = if index * per <= len {
                            index * per
                        } else {
                            len as int
                        };
                        assert(all == self@.stream(storage, len, index - 1)->Ok_0
                            + self@.cluster(cluster as int));
                        assert(out@ =~= all.take(want));
                    }
                },
            }
        }
        proof {
            assert(index == total) by (nonlinear_arith)
                requires
                    index <= total,
                    len <= index * per,
                    total * per < len + per,
                    per > 0,
            ;
        }
        Ok(out)
    }

    /// Whether the bitmap calls a cluster in use.
    pub fn is_allocated(&self, cursor: &mut ChainCursor, bitmap: Resident, cluster: u32) -> (r:
        Result<bool, ReadError>)
        requires
            self.wf(),
            old(cursor).on(self@),
        ensures
            final(cursor).on(self@),
            r == self@.allocated(bitmap, cluster),
    {
        if cluster < FIRST_CLUSTER || cluster - FIRST_CLUSTER >= self.layout.cluster_count {
            return Err(ReadError::ClusterOutOfRange { cluster });
        }
        let len: usize = self.src.len();
        let per: u64 = self.layout.bytes_per_cluster as u64;
        let bit: u64 = (cluster - FIRST_CLUSTER) as u64;
        let at: u64 = bit / 8;
        if at >= bitmap.bytes {
            return Ok(false);
        }
        let index: u64 = at / per;
        let found: Option<u32> = self.chain_cluster(cursor, bitmap.first_cluster, index)?;
        match found {
            None => {
                proof {
                    assert(0 <= index * per <= at) by (nonlinear_arith)
                        requires
                            index == at as int / per as int,
                            per > 0,
                    ;
                }
                Err(
                    ReadError::StreamTooShort {
                        start: bitmap.first_cluster,
                        declared: bitmap.bytes,
                        held: index * per,
                    },
                )
            },
            Some(holding) => {
                proof {
                    lemma_chain_at(self@, bitmap.first_cluster, index as int);
                    lemma_clusters_lie_inside(self.layout, holding as int, 1);
                    assert(1 * per == per);
                }
                let start: Option<u64> = self.layout.cluster_start_byte(holding);
                let from: usize = self.base + (start.unwrap() + at % per) as usize;
                let byte: u8 = self.src[from];
                Ok(byte & (1u8 << ((bit % 8) as u8)) != 0)
            },
        }
    }
}

impl Vol {
    /// The table entry of a cluster the volume has lies before the heap.
    pub proof fn lemma_table_lies_inside(self, n: int)
        requires
            self.wf(),
            0 <= n < FIRST_CLUSTER + self.layout.cluster_count,
        ensures
            0 <= self.layout.fat_byte_of(n),
            self.layout.fat_byte_of(n) + 4 <= self.layout.cluster_heap_offset
                * self.layout.bytes_per_sector,
            self.layout.cluster_heap_offset * self.layout.bytes_per_sector
                <= self.layout.volume_size(),
            self.layout.volume_size() <= u64::MAX,
    {
        let sector = self.layout.bytes_per_sector as int;
        let table = self.layout.fat_length * sector;
        assert(self.layout.fat_offset * sector + table <= self.layout.cluster_heap_offset * sector
            && 0 <= self.layout.fat_offset * sector && self.layout.cluster_heap_offset * sector
            <= self.layout.volume_length * sector) by (nonlinear_arith)
            requires
                self.layout.fat_offset + self.layout.fat_length
                    <= self.layout.cluster_heap_offset,
                self.layout.cluster_heap_offset < self.layout.volume_length,
                table == self.layout.fat_length * sector,
                sector > 0,
        ;
        assert(4 * (n + 1) <= table);
    }
}

/// A chain that cannot be followed to some cluster cannot be followed past it.
pub proof fn lemma_chain_fails(vol: Vol, start: u32, index: int, more: int)
    requires
        0 <= index <= more,
    ensures
        !(vol.chain_at(start, index) matches Ok(Some(_))) ==> vol.chain_at(start, more)
            == vol.chain_at(start, index),
    decreases more - index,
{
    if index < more {
        lemma_chain_fails(vol, start, index, more - 1);
    }
}

} // verus!
