//! The slots of a directory, one after another.
use vstd::prelude::*;

use crate::dirent::DIR_ENTRY_SIZE;
use crate::finding::Location;
use crate::geometry::{FIRST_CLUSTER, MAX_CLUSTER_COUNT};
use crate::image::{lemma_ceil_div, lemma_clusters_lie_inside};
use crate::number::{ceil_div, div_ceil, is_pow2, lemma_pow2_divides};
use crate::read_error::ReadError;
use crate::volume::{lemma_stream_at, ChainCursor, Storage, Vol, Volume};

verus! {

/// A set of clusters of a volume.
#[derive(Clone, Debug)]
pub struct ClusterSet {
    bits: Vec<u64>,
    clusters: u32,
}

/// Whether bit `bit` of a word is set.
spec fn word_bit(word: u64, bit: u64) -> bool {
    word & (1u64 << bit) != 0
}

impl View for ClusterSet {
    type V = Set<int>;

    closed spec fn view(&self) -> Set<int> {
        Set::new(
            |c: int|
                self.holds_cluster(c) && word_bit(self.bits@[c / 64], (c % 64) as u64),
        )
    }
}

impl ClusterSet {
    /// Whether the set has room for every cluster.
    pub closed spec fn wf(&self) -> bool {
        &&& self.clusters <= MAX_CLUSTER_COUNT
        &&& self.bits@.len() == ceil_div(self.clusters + FIRST_CLUSTER, 64)
    }

    /// Clusters of the volume.
    pub closed spec fn count(&self) -> u32 {
        self.clusters
    }

    /// Whether `cluster` is one of the volume's.
    pub open spec fn holds_cluster(&self, cluster: int) -> bool {
        FIRST_CLUSTER <= cluster < FIRST_CLUSTER + self.count()
    }

    /// No cluster of a volume with this many.
    #[must_use]
    pub fn new(clusters: u32) -> (set: Self)
        requires
            clusters <= MAX_CLUSTER_COUNT,
        ensures
            set.wf(),
            set.count() == clusters,
            set@ == Set::<int>::empty(),
    {
        let words: u64 = div_ceil(clusters as u64 + FIRST_CLUSTER as u64, 64);
        let set = ClusterSet { bits: vec![0u64; words as usize], clusters };
        proof {
            assert(forall|bit: u64| bit < 64 ==> 0u64 & (1u64 << bit) == 0) by (bit_vector);
            assert forall|c: int| !set@.contains(c) by {
                if set.holds_cluster(c) {
                    assert(0u64 & (1u64 << ((c % 64) as u64)) == 0);
                }
            }
            assert(set@ =~= Set::<int>::empty());
        }
        set
    }

    /// Add a cluster. Returns whether it was not there; one that is not the volume's never is.
    pub fn insert(&mut self, cluster: u32) -> (new: bool)
        requires
            old(self).wf(),
        ensures
            final(self).wf(),
            final(self).count() == old(self).count(),
            new == !old(self)@.contains(cluster as int),
            final(self)@ == (if old(self).holds_cluster(cluster as int) {
                old(self)@.insert(cluster as int)
            } else {
                old(self)@
            }),
    {
        if cluster < FIRST_CLUSTER || cluster - FIRST_CLUSTER >= self.clusters {
            return true;
        }
        let at: usize = (cluster / 64) as usize;
        let bit: u64 = (cluster % 64) as u64;
        let word: u64 = self.bits[at];
        let was: bool = word & (1u64 << bit) != 0;
        self.bits.set(at, word | (1u64 << bit));
        proof {
            assert(forall|other: u64|
                other < 64 ==> (((word | (1u64 << bit)) & (1u64 << other) != 0) == (other == bit
                    || word & (1u64 << other) != 0))) by (bit_vector)
                requires
                    bit < 64,
            ;
            assert forall|c: int| self@.contains(c) == old(self)@.insert(
                cluster as int,
            ).contains(c) by {
                if self.holds_cluster(c) {
                    let other = (c % 64) as u64;
                    if c / 64 == at {
                        assert(word_bit(word | (1u64 << bit), other) == (other == bit
                            || word_bit(word, other)));
                        assert((c == cluster) == (other == bit));
                    } else {
                        assert(self.bits@[c / 64] == old(self).bits@[c / 64]);
                    }
                }
            }
            assert(self@ =~= old(self)@.insert(cluster as int));
        }
        !was
    }

    /// Whether a cluster is in the set.
    #[must_use]
    pub fn contains(&self, cluster: u32) -> (yes: bool)
        requires
            self.wf(),
        ensures
            yes == self@.contains(cluster as int),
    {
        if cluster < FIRST_CLUSTER || cluster - FIRST_CLUSTER >= self.clusters {
            return false;
        }
        let at: usize = (cluster / 64) as usize;
        let bit: u64 = (cluster % 64) as u64;
        self.bits[at] & (1u64 << bit) != 0
    }
}

/// A slot of a directory.
#[derive(Clone, Copy, Debug)]
pub struct Slot<'a> {
    /// Its 32 bytes.
    pub bytes: &'a [u8],
    /// Which slot of the directory it is.
    pub index: u32,
    /// The cluster it is in.
    pub cluster: u32,
    /// The sector it is in.
    pub sector: u64,
}

/// A slot of a directory.
pub struct SlotView {
    /// Its 32 bytes.
    pub bytes: Seq<u8>,
    /// Which slot of the directory it is.
    pub index: u32,
    /// The cluster it is in.
    pub cluster: u32,
    /// The sector it is in.
    pub sector: u64,
}

impl<'a> View for Slot<'a> {
    type V = SlotView;

    open spec fn view(&self) -> SlotView {
        SlotView {
            bytes: self.bytes@,
            index: self.index,
            cluster: self.cluster,
            sector: self.sector,
        }
    }
}

impl SlotView {
    /// Where the slot is.
    pub open spec fn location(self) -> Location {
        Location { sector: Some(self.sector), cluster: Some(self.cluster), entry: Some(self.index) }
    }
}

impl<'a> Slot<'a> {
    /// Where the slot is.
    #[must_use]
    pub fn location(&self) -> (location: Location)
        ensures
            location == self@.location(),
    {
        Location { sector: Some(self.sector), cluster: Some(self.cluster), entry: Some(self.index) }
    }
}

/// The clusters of a directory up to some number, and why there are no more, where there are
/// none.
pub struct Trail {
    /// The clusters.
    pub clusters: Seq<u32>,
    /// Why there are no more.
    pub halt: Option<Halt>,
}

/// Why a directory has no more clusters.
pub enum Halt {
    /// Its chain ends.
    Short,
    /// It cannot be followed.
    Fail(ReadError),
}

impl Vol {
    /// Slots of a cluster.
    pub open spec fn slots(self) -> int {
        self.per() / 32
    }

    /// The cluster behind the ones of a trail.
    pub open spec fn step(self, storage: Storage, before: Seq<u32>) -> Result<u32, Halt> {
        let start = storage.first_or_zero();
        if before.len() == 0 {
            if self.layout.has_cluster(start as int) {
                Ok(start)
            } else {
                Err(Halt::Fail(ReadError::ClusterOutOfRange { cluster: start }))
            }
        } else if storage is Chain {
            match self.next_of(before.last()) {
                Err(e) => Err(Halt::Fail(e)),
                Ok(None) => Err(Halt::Short),
                Ok(Some(next)) => if before.contains(next) {
                    Err(Halt::Fail(self.too_long(start)))
                } else {
                    Ok(next)
                },
            }
        } else {
            match self.stream_at(storage, before.len() as int) {
                Err(e) => Err(Halt::Fail(e)),
                Ok(None) => Err(Halt::Short),
                Ok(Some(next)) => Ok(next),
            }
        }
    }

    /// The first `count` clusters of a directory: those of its stream, refusing a chain that
    /// comes back to a cluster it has had.
    pub open spec fn trail(self, storage: Storage, count: int) -> Trail
        decreases count,
    {
        if count <= 0 {
            Trail { clusters: Seq::empty(), halt: None }
        } else {
            let before = self.trail(storage, count - 1);
            if before.halt is Some {
                before
            } else {
                match self.step(storage, before.clusters) {
                    Ok(cluster) => Trail {
                        clusters: before.clusters.push(cluster),
                        halt: None,
                    },
                    Err(halt) => Trail { clusters: before.clusters, halt: Some(halt) },
                }
            }
        }
    }

    /// Slots of a directory of `declared` bytes: those of whole clusters.
    pub open spec fn slot_count(self, storage: Storage, declared: u64) -> int {
        if storage.first() is None {
            0
        } else {
            ceil_div(declared as int, self.per()) * self.slots()
        }
    }

    /// Slot `n` of a directory of `declared` bytes.
    pub open spec fn slot_at(self, storage: Storage, declared: u64, n: int) -> Result<
        SlotView,
        ReadError,
    > {
        let k = n / self.slots();
        let i = n % self.slots();
        let trail = self.trail(storage, k + 1);
        match trail.halt {
            Some(Halt::Fail(e)) => Err(e),
            Some(Halt::Short) => Err(
                self.too_short(storage, declared, trail.clusters.len() as int),
            ),
            None => Ok(self.slot_in(trail.clusters[k], n, i)),
        }
    }

    /// Slot `i` of a cluster, as slot `n` of its directory.
    pub open spec fn slot_in(self, cluster: u32, n: int, i: int) -> SlotView {
        SlotView {
            bytes: self.cluster(cluster as int).subrange(32 * i, 32 * i + 32),
            index: if n > u32::MAX {
                u32::MAX
            } else {
                n as u32
            },
            cluster,
            sector: (self.layout.sector_of(cluster as int) + i
                / (self.layout.bytes_per_sector as int / 32)) as u64,
        }
    }
}

/// Every cluster of a trail is one the volume has.
pub proof fn lemma_trail(vol: Vol, storage: Storage, count: int)
    requires
        vol.wf(),
    ensures
        forall|j: int|
            0 <= j < vol.trail(storage, count).clusters.len() ==> vol.layout.has_cluster(
                #[trigger] vol.trail(storage, count).clusters[j] as int,
            ),
    decreases count,
{
    if count > 0 {
        lemma_trail(vol, storage, count - 1);
        let before = vol.trail(storage, count - 1);
        lemma_stream_at(vol, storage, before.clusters.len() as int);
        assert forall|j: int| 0 <= j < vol.trail(storage, count).clusters.len() implies
            vol.layout.has_cluster(#[trigger] vol.trail(storage, count).clusters[j] as int) by {
            if j < before.clusters.len() {
                assert(vol.trail(storage, count).clusters[j] == before.clusters[j]);
            }
        }
    }
}

/// The slots of a directory, from some slot on.
pub struct SlotWalk<'a> {
    volume: Volume<'a>,
    storage: Storage,
    declared: u64,
    start: u32,
    clusters: u64,
    slots: usize,
    at: u64,
    cluster: u32,
    bytes: &'a [u8],
    within: usize,
    index: u32,
    visited: ClusterSet,
    position: Ghost<int>,
}

impl<'a> SlotWalk<'a> {
    /// The volume.
    pub closed spec fn vol(&self) -> Vol {
        self.volume@
    }

    /// Where the directory is.
    pub closed spec fn place(&self) -> Storage {
        self.storage
    }

    /// Bytes of the directory.
    pub closed spec fn length(&self) -> u64 {
        self.declared
    }

    /// The next slot.
    pub closed spec fn next_slot(&self) -> int {
        self.position@
    }

    /// Whether the next slot is where the walk has come to.
    pub closed spec fn wf(&self) -> bool {
        let vol = self.volume@;
        let trail = vol.trail(self.storage, self.at as int);
        &&& self.volume.wf()
        &&& self.start == self.storage.first_or_zero()
        &&& self.slots == vol.slots()
        &&& self.clusters == ceil_div(self.declared as int, vol.per())
        &&& self.at <= self.clusters
        &&& self.within <= self.slots
        &&& self.visited.wf()
        &&& self.visited.count() == self.volume.layout.cluster_count
        &&& trail.halt is None
        &&& trail.clusters.len() == self.at
        &&& forall|c: int|
            self.visited@.contains(c) <==> exists|j: int|
                0 <= j < self.at && #[trigger] trail.clusters[j] == c
        &&& self.index == (if self.position@ > u32::MAX {
            u32::MAX as int
        } else {
            self.position@
        })
        &&& if self.at == 0 {
            &&& self.position@ == 0
            &&& self.within == self.slots
        } else {
            &&& self.position@ == (self.at - 1) * vol.slots() + self.within
            &&& self.cluster == trail.clusters[self.at - 1]
            &&& self.volume.layout.has_cluster(self.cluster as int)
            &&& self.bytes@ == vol.cluster(self.cluster as int)
            &&& self.bytes@.len() == vol.per()
        }
    }

    /// The slots of the directory of `declared` bytes at `storage`.
    #[must_use]
    pub fn new(volume: &Volume<'a>, storage: Storage, declared: u64) -> (walk: Self)
        requires
            volume.wf(),
        ensures
            walk.wf(),
            walk.vol() == volume@,
            walk.place() == storage,
            walk.length() == declared,
            walk.next_slot() == 0,
    {
        let start: u32 = match storage.first_cluster() {
            Some(first) => first,
            None => 0,
        };
        let slots: usize = volume.layout.bytes_per_cluster as usize / DIR_ENTRY_SIZE;
        let clusters: u64 = div_ceil(declared, volume.layout.bytes_per_cluster as u64);
        let empty = vstd::slice::slice_subrange(volume.src, 0, 0);
        proof {
            lemma_ceil_div(declared as int, volume@.per());
        }
        SlotWalk {
            volume: *volume,
            storage,
            declared,
            start,
            clusters,
            slots,
            at: 0,
            cluster: 0,
            bytes: empty,
            within: slots,
            index: 0,
            visited: ClusterSet::new(volume.layout.cluster_count),
            position: Ghost(0),
        }
    }

    /// Enter the next cluster, where there is one.
    fn enter(&mut self) -> (r: Result<(), ReadError>)
        requires
            old(self).wf(),
            old(self).storage.first() is Some,
            old(self).within == old(self).slots,
            old(self).at < old(self).clusters,
        ensures
            match old(self).vol().slot_at(
                old(self).storage,
                old(self).declared,
                old(self).position@,
            ) {
                Ok(_) => {
                    &&& r is Ok
                    &&& final(self).wf()
                    &&& final(self).at == old(self).at + 1
                    &&& final(self).within == 0
                    &&& final(self).position@ == old(self).position@
                    &&& final(self).volume == old(self).volume
                    &&& final(self).storage == old(self).storage
                    &&& final(self).declared == old(self).declared
                },
                Err(e) => r == Err::<(), ReadError>(e),
            },
    {
        let ghost vol = self.volume@;
        let ghost before = vol.trail(self.storage, self.at as int);
        let ghost after = vol.trail(self.storage, self.at + 1);
        proof {
            let slots = vol.slots();
            let at = self.at as int;
            assert(self.position@ == at * slots) by {
                if at == 0 {
                    assert(0 * slots == 0);
                } else {
                    assert(at * slots == (at - 1) * slots + slots) by (nonlinear_arith);
                }
            }
            assert((at * slots) / slots == at) by (nonlinear_arith)
                requires
                    slots > 0,
                    at >= 0,
            ;
            lemma_trail(vol, self.storage, self.at + 1);
            lemma_stream_at(vol, self.storage, at);
            lemma_ceil_div(self.declared as int, vol.per());
            assert(at * vol.per() < self.declared) by (nonlinear_arith)
                requires
                    at + 1 <= self.clusters,
                    self.clusters * vol.per() < self.declared + vol.per(),
                    vol.per() > 0,
            ;
            assert(at <= at * vol.per()) by (nonlinear_arith)
                requires
                    at >= 0,
                    vol.per() >= 1,
            ;
        }
        let next: u32 = if self.at == 0 {
            if self.start < FIRST_CLUSTER || self.start - FIRST_CLUSTER
                >= self.volume.layout.cluster_count {
                return Err(ReadError::ClusterOutOfRange { cluster: self.start });
            }
            self.start
        } else {
            let short = ReadError::StreamTooShort {
                start: self.start,
                declared: self.declared,
                held: self.at * self.volume.layout.bytes_per_cluster as u64,
            };
            match self.storage {
                Storage::Chain(_) => match self.volume.next_cluster(self.cluster)? {
                    None => return Err(short),
                    Some(following) => {
                        if self.visited.contains(following) {
                            proof {
                                let j = choose|j: int|
                                    0 <= j < self.at && #[trigger] before.clusters[j] == following;
                                assert(before.clusters.contains(following));
                            }
                            return Err(
                                ReadError::ChainTooLong {
                                    start: self.start,
                                    clusters: self.volume.layout.cluster_count,
                                },
                            );
                        }
                        assert(!before.clusters.contains(following));
                        following
                    },
                },
                _ => {
                    let mut cursor = ChainCursor::new();
                    match self.volume.stream_cluster(&mut cursor, self.storage, self.at)? {
                        None => return Err(short),
                        Some(following) => following,
                    }
                },
            }
        };
        assert(after.halt is None && after.clusters == before.clusters.push(next));
        let fresh: bool = self.visited.insert(next);
        proof {
            assert(vol.layout.has_cluster(after.clusters[self.at as int] as int));
            assert forall|c: int|
                self.visited@.contains(c) <==> exists|j: int|
                    0 <= j < self.at + 1 && #[trigger] after.clusters[j] == c by {
                if self.visited@.contains(c) {
                    if c == next {
                        assert(after.clusters[self.at as int] == c);
                    } else {
                        let j = choose|j: int|
                            0 <= j < self.at && #[trigger] before.clusters[j] == c;
                        assert(after.clusters[j] == c);
                    }
                }
                if exists|j: int| 0 <= j < self.at + 1 && #[trigger] after.clusters[j] == c {
                    let j = choose|j: int|
                        0 <= j < self.at + 1 && #[trigger] after.clusters[j] == c;
                    if j < self.at {
                        assert(before.clusters[j] == c);
                    }
                }
            }
        }
        self.bytes = self.volume.read_cluster(next);
        self.cluster = next;
        self.at = self.at + 1;
        self.within = 0;
        Ok(())
    }

    /// The next slot, or nothing behind the last.
    pub fn next(&mut self) -> (r: Result<Option<Slot<'a>>, ReadError>)
        requires
            old(self).wf(),
        ensures
            ({
                let vol = old(self).vol();
                let n = old(self).next_slot();
                if n >= vol.slot_count(old(self).place(), old(self).length()) {
                    &&& r == Ok::<Option<Slot<'a>>, ReadError>(None)
                    &&& *final(self) == *old(self)
                } else {
                    match vol.slot_at(old(self).place(), old(self).length(), n) {
                        Ok(slot) => {
                            &&& r is Ok
                            &&& r->Ok_0 is Some
                            &&& r->Ok_0->Some_0@ == slot
                            &&& slot.bytes.len() == DIR_ENTRY_SIZE
                            &&& final(self).wf()
                            &&& final(self).vol() == vol
                            &&& final(self).place() == old(self).place()
                            &&& final(self).length() == old(self).length()
                            &&& final(self).next_slot() == n + 1
                        },
                        Err(e) => r == Err::<Option<Slot<'a>>, ReadError>(e),
                    }
                }
            }),
    {
        let ghost vol = self.volume@;
        let ghost n = self.position@;
        let ghost slots = vol.slots();
        proof {
            lemma_slots(vol);
        }
        if self.storage.first_cluster().is_none() {
            return Ok(None);
        }
        proof {
            if self.at == self.clusters && self.within == self.slots {
                assert(n >= self.clusters * slots) by (nonlinear_arith)
                    requires
                        self.at == self.clusters,
                        n == (if self.at == 0 {
                            0
                        } else {
                            (self.at - 1) * slots + slots
                        }),
                ;
            } else {
                assert(n < self.clusters * slots) by (nonlinear_arith)
                    requires
                        self.at <= self.clusters,
                        slots > 0,
                        self.at == 0 ==> n == 0 && self.clusters > 0,
                        self.at > 0 ==> n == (self.at - 1) * slots + self.within && (self.within
                            < slots || self.at < self.clusters && self.within <= slots),
                ;
            }
        }
        if self.within == self.slots {
            if self.at == self.clusters {
                return Ok(None);
            }
            self.enter()?;
        }
        let i: usize = self.within;
        let per_sector: u32 = self.volume.layout.bytes_per_sector / 32;
        let first: Option<u64> = self.volume.layout.cluster_start_sector(self.cluster);
        proof {
            let k = self.at - 1;
            assert(n == k * slots + i);
            assert(n / slots == k && n % slots == i) by (nonlinear_arith)
                requires
                    n == k * slots + i,
                    0 <= i < slots,
                    0 <= k,
            ;
            assert(vol.trail(self.storage, k + 1).clusters[k] == self.cluster);
            lemma_clusters_lie_inside(vol.layout, self.cluster as int, 1);
            assert(vol.layout.sector_of(self.cluster as int) <= vol.layout.byte_of(
                self.cluster as int,
            )) by (nonlinear_arith)
                requires
                    vol.layout.byte_of(self.cluster as int) == vol.layout.sector_of(
                        self.cluster as int,
                    ) * vol.layout.bytes_per_sector,
                    vol.layout.sector_of(self.cluster as int) >= 0,
                    vol.layout.bytes_per_sector >= 1,
            ;
            assert(1 * vol.per() == vol.per());
            assert(0 <= i as int / per_sector as int <= i) by (nonlinear_arith)
                requires
                    per_sector > 0,
            ;
        }
        let slot = Slot {
            bytes: vstd::slice::slice_subrange(self.bytes, 32 * i, 32 * i + 32),
            index: self.index,
            cluster: self.cluster,
            sector: first.unwrap() + i as u64 / per_sector as u64,
        };
        self.within = i + 1;
        self.index = if self.index < u32::MAX {
            self.index + 1
        } else {
            self.index
        };
        self.position = Ghost(n + 1);
        Ok(Some(slot))
    }
}

/// A cluster is whole slots.
pub proof fn lemma_slots(vol: Vol)
    requires
        vol.wf(),
    ensures
        vol.slots() * 32 == vol.per(),
        16 <= vol.slots() <= 0x10_0000,
{
    assert(is_pow2(32)) by {
        reveal_with_fuel(is_pow2, 7);
    }
    lemma_pow2_divides(32, vol.per());
    vstd::arithmetic::div_mod::lemma_fundamental_div_mod(vol.per(), 32);
}

} // verus!
