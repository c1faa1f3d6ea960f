//! What opening a volume goes by, byte by byte.
use vstd::arithmetic::power2::pow2;
use vstd::prelude::*;

use crate::boot::{boot_fault, first_nonzero, repeats_one_word, MainBootSector, FILE_SYSTEM_NAME};
use crate::chains::{
    lemma_a_slot_is_32_bytes_of_the_directory, lemma_chained_are_few,
    lemma_the_root_is_its_whole_chain, word_at,
};
use crate::csum::{boot_sum, upcase_sum};
use crate::dirent::FileAttributes;
use crate::image::lemma_ceil_div;
use crate::label::first_zero;
use crate::node::Node;
use crate::number::ceil_div;
use crate::open::{
    backup_log, boot_at, boot_log, extended_log, first_difference, has_failed, is_dirty,
    label_count, label_in, label_log, label_units, region_log, resident_step, residents,
    signature_at, state_log, words_of, Residents,
};
use crate::policy::OpenOptions;
use crate::read_error::ReadError;
use crate::reader::{opened, Opened, Reader};
use crate::recorded::{half_at, long_at};
use crate::recover::{boot_defect, described};
use crate::slots::lemma_slots;
use crate::unicode::utf8_of_units;
use crate::upcase::mapping_of;
use crate::volume::{Storage, Vol};

verus! {

/// Where the first byte that is not zero is, where there is one.
proof fn lemma_first_nonzero(s: Seq<u8>, from: int, to: int)
    ensures
        first_nonzero(s, from, to) is None <==> forall|i: int| from <= i < to ==> s[i] == 0,
    decreases to - from,
{
    if from < to {
        lemma_first_nonzero(s, from + 1, to);
    }
}

/// Bytes are a main boot sector exactly where there are 512 of them, the name of the format is
/// behind the jump, the 53 bytes behind the name are zero, and the last two are 0x55 and 0xAA.
pub proof fn lemma_a_boot_sector_is_told_by_what_the_format_fixes(buf: Seq<u8>)
    ensures
        boot_fault(buf) is None <==> {
            &&& 512 <= buf.len()
            &&& buf.subrange(3, 11) == seq![0x45u8, 0x58, 0x46, 0x41, 0x54, 0x20, 0x20, 0x20]
            &&& forall|i: int| 11 <= i < 64 ==> #[trigger] buf[i] == 0
            &&& buf[510] == 0x55
            &&& buf[511] == 0xAA
        },
{
    lemma_first_nonzero(buf, 11, 64);
    assert(FILE_SYSTEM_NAME@ =~= seq![0x45u8, 0x58, 0x46, 0x41, 0x54, 0x20, 0x20, 0x20]);
}

/// A boot sector is refused exactly where it does not describe a volume that lies inside what there
/// is: of the first major revision, with sectors of 512 to 4096 bytes and clusters of no more than
/// 32 MiB, at least 2048 sectors long, its table behind the boot regions and before the heap and
/// with a word for each cluster, its clusters inside the volume and as many as can be numbered,
/// and its root directory on one of them.
pub proof fn lemma_a_boot_sector_is_refused_where_it_describes_no_volume(
    boot: MainBootSector,
    available: int,
)
    requires
        available <= u64::MAX,
    ensures
        boot_defect(boot, available) is None <==> {
            let shift = boot.bytes_per_sector_shift as int;
            let more = boot.sectors_per_cluster_shift as int;
            let sector = if shift == 9 {
                512int
            } else if shift == 10 {
                1024int
            } else if shift == 11 {
                2048int
            } else {
                4096int
            };
            let cluster = pow2((shift + more) as nat) as int;
            let volume = boot.volume_length * sector;
            &&& 256 <= boot.file_system_revision < 512
            &&& 9 <= shift <= 12
            &&& shift + more <= 25
            &&& 2048 <= boot.volume_length
            &&& volume <= available
            &&& 24 <= boot.fat_offset
            &&& boot.fat_offset + boot.fat_length <= boot.cluster_heap_offset
            &&& boot.cluster_heap_offset < boot.volume_length
            &&& boot.cluster_count <= 0xFFFF_FFF5
            &&& boot.cluster_heap_offset * sector + boot.cluster_count * cluster <= volume
            &&& 4 * (2 + boot.cluster_count) <= boot.fat_length * sector
            &&& 2 <= boot.first_cluster_of_root < 2 + boot.cluster_count
        },
{
    reveal_with_fuel(vstd::arithmetic::power::pow, 14);
    vstd::arithmetic::power2::lemma2_to64();
    let shift = boot.bytes_per_sector_shift as int;
    let more = boot.sectors_per_cluster_shift as int;
    if 9 <= shift <= 12 && shift + more <= 25 {
        let all = (shift + more) as nat;
        vstd::arithmetic::power2::lemma_pow2_strictly_increases(all, 26);
        assert(pow2(all) as u32 == pow2(all));
        let sector = boot.sector_size()->Some_0 as int;
        assert(sector == 512 || sector == 1024 || sector == 2048 || sector == 4096);
        assert(0 <= boot.fat_length * sector) by (nonlinear_arith)
            requires
                sector > 0,
        ;
    }
}

/// Whether a volume was left open, and whether its medium failed, are the second and third bits of
/// its flags.
pub proof fn lemma_the_flags_of_a_volume(boot: MainBootSector)
    ensures
        is_dirty(boot) <==> boot.volume_flags as int / 2 % 2 == 1,
        has_failed(boot) <==> boot.volume_flags as int / 4 % 2 == 1,
{
    let flags = boot.volume_flags;
    assert((flags & 0x2 != 0) == ((flags / 2) % 2 == 1)) by (bit_vector);
    assert((flags & 0x4 != 0) == ((flags / 4) % 2 == 1)) by (bit_vector);
}

/// What is wrong with the revision and with the state of the volume: nothing, where the minor
/// revision is zero and neither flag is set.
pub proof fn lemma_a_volume_put_down_well(boot: MainBootSector)
    ensures
        state_log(boot).len() == 0 <==> boot.file_system_revision % 256 == 0
            && boot.volume_flags as int / 2 % 2 == 0 && boot.volume_flags as int / 4 % 2 == 0,
        state_log(boot).contains(ReadError::VolumeDirty) <==> boot.volume_flags as int / 2 % 2 == 1,
        state_log(boot).contains(ReadError::MediaFailure) <==> boot.volume_flags as int / 4 % 2
            == 1,
{
    lemma_the_flags_of_a_volume(boot);
    let log = state_log(boot);
    let minor = boot.file_system_revision % 256 != 0;
    let n = if minor {
        1int
    } else {
        0int
    };
    if is_dirty(boot) {
        assert(log[n] == ReadError::VolumeDirty);
    }
    if has_failed(boot) {
        assert(log.last() == ReadError::MediaFailure);
    }
}

/// The extended boot sectors from some on have their signature.
proof fn lemma_extended_log(vol: Vol, region: int, n: int)
    requires
        0 <= n,
    ensures
        extended_log(vol, region, n).len() == 0 <==> forall|k: int|
            n <= k < 8 ==> #[trigger] signature_at(vol, region, k) == 0xAA55_0000,
    decreases 8 - n,
{
    if n < 8 {
        lemma_extended_log(vol, region, n + 1);
    }
}

/// Nothing is wrong with a boot region exactly where its twelfth sector repeats the checksum of the
/// eleven before it, and each of the eight behind its first ends with its signature.
pub proof fn lemma_a_boot_region_is_told_by_its_checksum(vol: Vol, region: u64)
    requires
        vol.wf(),
        region == 0 || region == 12,
    ensures
        region_log(vol, region).len() == 0 <==> {
            let sector = vol.layout.bytes_per_sector as int;
            let last = vol.sectors(region + 11, 1);
            &&& forall|i: int| 0 <= i < last.len() ==> #[trigger] last[i] == last[i % 4]
            &&& word_at(last, 0) == boot_sum(vol.sectors(region as int, 11))
            &&& forall|k: int|
                0 <= k < 8 ==> word_at(#[trigger] vol.sectors(region + 1 + k, 1), sector - 4)
                    == 0xAA55_0000
        },
{
    lemma_extended_log(vol, region as int, 0);
    let sector = vol.layout.bytes_per_sector as int;
    let last = vol.sectors(region + 11, 1);
    assert((region + 12) * sector == (region + 11) * sector + sector && 0 <= (region + 11) * sector
        && (region + 12) * sector <= vol.layout.volume_length * sector) by (nonlinear_arith)
        requires
            0 < sector,
            region + 12 <= vol.layout.volume_length,
    ;
    assert(last.len() == sector);
    assert(repeats_one_word(last) <==> forall|i: int|
        0 <= i < last.len() ==> #[trigger] last[i] == last[i % 4]);
    assert forall|k: int| 0 <= k < 8 implies (#[trigger] signature_at(vol, region as int, k)
        == 0xAA55_0000 <==> word_at(vol.sectors(region + 1 + k, 1), sector - 4)
        == 0xAA55_0000) by {}
    if extended_log(vol, region as int, 0).len() == 0 {
        assert forall|k: int| 0 <= k < 8 implies word_at(
            #[trigger] vol.sectors(region + 1 + k, 1),
            sector - 4,
        ) == 0xAA55_0000 by {
            assert(signature_at(vol, region as int, k) == 0xAA55_0000);
        }
    }
    if forall|k: int|
        0 <= k < 8 ==> word_at(#[trigger] vol.sectors(region + 1 + k, 1), sector - 4)
            == 0xAA55_0000 {
        assert forall|k: int| 0 <= k < 8 implies #[trigger] signature_at(vol, region as int, k)
            == 0xAA55_0000 by {
            assert(word_at(vol.sectors(region + 1 + k, 1), sector - 4) == 0xAA55_0000);
        }
    }
}

/// A copy of the boot sector does not differ exactly where each field of it that a driver does not
/// rewrite is the main one's: all but the flags and the part in use.
pub proof fn lemma_a_backup_differs_in_a_field(copy: MainBootSector, main: MainBootSector)
    ensures
        first_difference(copy, main) is None <==> {
            &&& copy.jump_boot@ == main.jump_boot@
            &&& copy.file_system_name@ == main.file_system_name@
            &&& copy.partition_offset == main.partition_offset
            &&& copy.volume_length == main.volume_length
            &&& copy.fat_offset == main.fat_offset
            &&& copy.fat_length == main.fat_length
            &&& copy.cluster_heap_offset == main.cluster_heap_offset
            &&& copy.cluster_count == main.cluster_count
            &&& copy.first_cluster_of_root == main.first_cluster_of_root
            &&& copy.volume_serial == main.volume_serial
            &&& copy.file_system_revision == main.file_system_revision
            &&& copy.bytes_per_sector_shift == main.bytes_per_sector_shift
            &&& copy.sectors_per_cluster_shift == main.sectors_per_cluster_shift
            &&& copy.number_of_fats == main.number_of_fats
            &&& copy.drive_select == main.drive_select
            &&& copy.boot_code@ == main.boot_code@
        },
{
}

/// A backup of the boot sector is remarked on exactly where it is no boot sector or differs.
pub proof fn lemma_a_backup_is_remarked_on_where_it_differs(vol: Vol, main: MainBootSector)
    ensures
        backup_log(vol, main).len() == 0 <==> {
            let copy = vol.sectors(12, 1);
            &&& boot_fault(copy) is None
            &&& first_difference(boot_at(copy), main) is None
        },
        boot_log(vol, main).len() == 0 <==> region_log(vol, 0).len() == 0 && region_log(
            vol,
            12,
        ).len() == 0 && backup_log(vol, main).len() == 0 && state_log(main).len() == 0,
{
}

/// The type byte of a slot of the root directory.
pub open spec fn kind_at(vol: Vol, root: Storage, declared: u64, n: int) -> u8 {
    vol.slot_at(root, declared, n)->Ok_0.bytes[0]
}

/// Whether a slot is the first of its kind.
pub open spec fn is_first(vol: Vol, root: Storage, declared: u64, kind: u8, n: int) -> bool {
    &&& kind_at(vol, root, declared, n) == kind
    &&& forall|j: int| 0 <= j < n ==> #[trigger] kind_at(vol, root, declared, j) != kind
}

/// Whether no two of the first slots are of a kind.
pub open spec fn has_one(vol: Vol, root: Storage, declared: u64, kind: u8, end: int) -> bool {
    forall|i: int, j: int|
        0 <= i < j < end ==> !(#[trigger] kind_at(vol, root, declared, i) == kind
            && #[trigger] kind_at(vol, root, declared, j) == kind)
}

/// What the first slots of a root directory say of the whole volume, where none is an end marker.
proof fn lemma_residents_up_to(vol: Vol, root: Storage, declared: u64, n: int)
    requires
        0 <= n,
        forall|i: int| 0 <= i < n ==> (#[trigger] vol.slot_at(root, declared, i)) is Ok,
        forall|i: int| 0 <= i < n ==> #[trigger] kind_at(vol, root, declared, i) != 0,
    ensures
        ({
            let state = residents(vol, root, declared, n);
            &&& !state.stopped
            &&& state.failed is None
            &&& match state.bitmap {
                Some(entry) => exists|i: int|
                    0 <= i < n && #[trigger] is_first(vol, root, declared, 0x81, i) && entry
                        == crate::dirent::AllocationBitmapEntry::decoded(
                        vol.slot_at(root, declared, i)->Ok_0.bytes,
                    ),
                None => forall|i: int|
                    0 <= i < n ==> #[trigger] kind_at(vol, root, declared, i) != 0x81,
            }
            &&& match state.upcase {
                Some(entry) => exists|i: int|
                    0 <= i < n && #[trigger] is_first(vol, root, declared, 0x82, i) && entry
                        == crate::dirent::UpcaseTableEntry::decoded(
                        vol.slot_at(root, declared, i)->Ok_0.bytes,
                    ),
                None => forall|i: int|
                    0 <= i < n ==> #[trigger] kind_at(vol, root, declared, i) != 0x82,
            }
            &&& match state.label {
                Some(entry) => exists|i: int|
                    0 <= i < n && #[trigger] is_first(vol, root, declared, 0x83, i) && entry
                        == vol.slot_at(root, declared, i)->Ok_0.bytes,
                None => forall|i: int|
                    0 <= i < n ==> #[trigger] kind_at(vol, root, declared, i) != 0x83,
            }
            &&& state.log.len() == 0 <==> has_one(vol, root, declared, 0x81, n) && has_one(
                vol,
                root,
                declared,
                0x82,
                n,
            ) && has_one(vol, root, declared, 0x83, n)
        }),
    decreases n,
{
    if n > 0 {
        lemma_residents_up_to(vol, root, declared, n - 1);
        let before = residents(vol, root, declared, n - 1);
        let state = residents(vol, root, declared, n);
        let slot = vol.slot_at(root, declared, n - 1)->Ok_0;
        let kind = kind_at(vol, root, declared, n - 1);
        assert(kind == slot.bytes[0]);
        assert(state == resident_step(before, slot));
        lemma_one_more(vol, root, declared, 0x81, n);
        lemma_one_more(vol, root, declared, 0x82, n);
        lemma_one_more(vol, root, declared, 0x83, n);
        if kind == 0x81 && before.bitmap is None {
            assert(is_first(vol, root, declared, 0x81, n - 1));
        }
        if kind == 0x82 && before.upcase is None {
            assert(is_first(vol, root, declared, 0x82, n - 1));
        }
        if kind == 0x83 && before.label is None {
            assert(is_first(vol, root, declared, 0x83, n - 1));
        }
        if before.bitmap is Some {
            let i = choose|i: int|
                0 <= i < n - 1 && #[trigger] is_first(vol, root, declared, 0x81, i)
                    && before.bitmap->Some_0 == crate::dirent::AllocationBitmapEntry::decoded(
                    vol.slot_at(root, declared, i)->Ok_0.bytes,
                );
            assert(is_first(vol, root, declared, 0x81, i));
        }
        if before.upcase is Some {
            let i = choose|i: int|
                0 <= i < n - 1 && #[trigger] is_first(vol, root, declared, 0x82, i)
                    && before.upcase->Some_0 == crate::dirent::UpcaseTableEntry::decoded(
                    vol.slot_at(root, declared, i)->Ok_0.bytes,
                );
            assert(is_first(vol, root, declared, 0x82, i));
        }
        if before.label is Some {
            let i = choose|i: int|
                0 <= i < n - 1 && #[trigger] is_first(vol, root, declared, 0x83, i)
                    && before.label->Some_0 == vol.slot_at(root, declared, i)->Ok_0.bytes;
            assert(is_first(vol, root, declared, 0x83, i));
        }
    }
}

/// There is one of a kind with a slot more where there was one, and the slot is of another kind or
/// there was none.
proof fn lemma_one_more(vol: Vol, root: Storage, declared: u64, kind: u8, n: int)
    requires
        0 < n,
    ensures
        has_one(vol, root, declared, kind, n) <==> has_one(vol, root, declared, kind, n - 1) && (
        kind_at(vol, root, declared, n - 1) != kind || forall|i: int|
            0 <= i < n - 1 ==> #[trigger] kind_at(vol, root, declared, i) != kind),
{
    if has_one(vol, root, declared, kind, n) && kind_at(vol, root, declared, n - 1) == kind {
        assert forall|i: int| 0 <= i < n - 1 implies #[trigger] kind_at(vol, root, declared, i)
            != kind by {
            assert(kind_at(vol, root, declared, n - 1) == kind);
        }
    }
}

/// What is read stays once the end marker is met.
proof fn lemma_stay(vol: Vol, root: Storage, declared: u64, n: int, more: int)
    requires
        n <= more,
        residents(vol, root, declared, n).stopped,
    ensures
        residents(vol, root, declared, more) == residents(vol, root, declared, n),
    decreases more - n,
{
    if n < more {
        lemma_stay(vol, root, declared, n, more - 1);
    }
}

/// Whether the first slot of a kind, of those before some slot, is this one.
pub open spec fn is_first_of(bytes: Seq<u8>, kind: u8, i: int, end: int) -> bool {
    &&& 0 <= i < end
    &&& kind_of(bytes, i) == kind
    &&& forall|j: int| 0 <= j < i ==> #[trigger] kind_of(bytes, j) != kind
}

/// The type byte of a slot of a directory.
pub open spec fn kind_of(bytes: Seq<u8>, n: int) -> u8 {
    bytes[32 * n]
}

/// Whether no two of the first slots of a directory are of a kind.
pub open spec fn is_alone(bytes: Seq<u8>, kind: u8, end: int) -> bool {
    forall|i: int, j: int|
        0 <= i < j < end ==> !(#[trigger] kind_of(bytes, i) == kind && #[trigger] kind_of(bytes, j)
            == kind)
}

/// A root directory says where the bitmap and the up-case table are, and the volume's name, in the
/// first slot of each kind before its end marker, wherever in it that slot is and whatever is
/// between: files, slots that are not in use, slots of other kinds. A second of a kind is remarked
/// on and changes nothing.
#[verifier::spinoff_prover]
#[verifier::rlimit(40)]
pub proof fn lemma_the_root_says_where_the_residents_are(
    vol: Vol,
    root: Storage,
    clusters: Seq<u32>,
    declared: u64,
    end: int,
)
    requires
        vol.wf(),
        vol.has_clusters(root, clusters),
        ceil_div(declared as int, vol.layout.bytes_per_cluster as int) == clusters.len(),
        0 <= 32 * end <= clusters.len() * vol.layout.bytes_per_cluster,
        forall|n: int| 0 <= n < end ==> #[trigger] kind_of(vol.joined(clusters), n) != 0,
        32 * end < clusters.len() * vol.layout.bytes_per_cluster ==> kind_of(
            vol.joined(clusters),
            end,
        ) == 0,
    ensures
        ({
            let state = residents(vol, root, declared, vol.slot_count(root, declared));
            let bytes = vol.joined(clusters);
            &&& state.failed is None
            &&& match state.bitmap {
                Some(entry) => exists|i: int| #[trigger]
                    is_first_of(bytes, 0x81, i, end) && entry.first_cluster == word_at(bytes, 32 * i + 20)
                        && entry.data_length == long_at(bytes, 32 * i + 24),
                None => forall|i: int| 0 <= i < end ==> #[trigger] kind_of(bytes, i) != 0x81,
            }
            &&& match state.upcase {
                Some(entry) => exists|i: int| #[trigger]
                    is_first_of(bytes, 0x82, i, end) && entry.table_checksum == word_at(bytes, 32 * i + 4)
                        && entry.first_cluster == word_at(bytes, 32 * i + 20) && entry.data_length
                        == long_at(bytes, 32 * i + 24),
                None => forall|i: int| 0 <= i < end ==> #[trigger] kind_of(bytes, i) != 0x82,
            }
            &&& match state.label {
                Some(entry) => exists|i: int| #[trigger]
                    is_first_of(bytes, 0x83, i, end) && entry == bytes.subrange(32 * i, 32 * i + 32),
                None => forall|i: int| 0 <= i < end ==> #[trigger] kind_of(bytes, i) != 0x83,
            }
            &&& state.log.len() == 0 <==> is_alone(bytes, 0x81, end) && is_alone(bytes, 0x82, end)
                && is_alone(bytes, 0x83, end)
        }),
{
    let bytes = vol.joined(clusters);
    let total = vol.slot_count(root, declared);
    let per = vol.per();
    lemma_slots(vol);
    assert(bytes.len() == 32 * total) by (nonlinear_arith)
        requires
            bytes.len() == clusters.len() * per,
            total == clusters.len() * vol.slots(),
            vol.slots() * 32 == per,
    ;
    assert forall|n: int| 0 <= n < total implies (#[trigger] vol.slot_at(root, declared, n)) is Ok
        && vol.slot_at(root, declared, n)->Ok_0.bytes == bytes.subrange(32 * n, 32 * n + 32) by {
        lemma_a_slot_is_32_bytes_of_the_directory(vol, root, clusters, declared, n);
    }
    assert forall|n: int| 0 <= n < total implies #[trigger] kind_at(vol, root, declared, n)
        == kind_of(bytes, n) by {
        assert(vol.slot_at(root, declared, n) is Ok);
    }
    assert forall|n: int| 0 <= n < end implies #[trigger] kind_at(vol, root, declared, n) != 0 by {
        assert(kind_of(bytes, n) != 0);
    }
    lemma_residents_up_to(vol, root, declared, end);
    let state = residents(vol, root, declared, end);
    if end < total {
        assert(vol.slot_at(root, declared, end) is Ok);
        assert(kind_at(vol, root, declared, end) == 0);
        let next = residents(vol, root, declared, end + 1);
        assert(next == (Residents { stopped: true, ..state }));
        lemma_stay(vol, root, declared, end + 1, total);
    }
    assert forall|kind: u8, i: int|
        0 <= i < end && #[trigger] is_first(vol, root, declared, kind, i) implies is_first_of(
        bytes,
        kind,
        i,
        end,
    ) by {
        assert forall|j: int| 0 <= j < i implies #[trigger] kind_of(bytes, j) != kind by {
            assert(kind_at(vol, root, declared, j) != kind);
        }
    }
    if state.bitmap is Some {
        let i = choose|i: int|
            0 <= i < end && #[trigger] is_first(vol, root, declared, 0x81, i)
                && state.bitmap->Some_0 == crate::dirent::AllocationBitmapEntry::decoded(
                vol.slot_at(root, declared, i)->Ok_0.bytes,
            );
        assert(vol.slot_at(root, declared, i) is Ok);
        assert(is_first_of(bytes, 0x81, i, end));
    } else {
        assert forall|i: int| 0 <= i < end implies #[trigger] kind_of(bytes, i) != 0x81 by {
            assert(kind_at(vol, root, declared, i) != 0x81);
        }
    }
    if state.upcase is Some {
        let i = choose|i: int|
            0 <= i < end && #[trigger] is_first(vol, root, declared, 0x82, i)
                && state.upcase->Some_0 == crate::dirent::UpcaseTableEntry::decoded(
                vol.slot_at(root, declared, i)->Ok_0.bytes,
            );
        assert(vol.slot_at(root, declared, i) is Ok);
        assert(is_first_of(bytes, 0x82, i, end));
    } else {
        assert forall|i: int| 0 <= i < end implies #[trigger] kind_of(bytes, i) != 0x82 by {
            assert(kind_at(vol, root, declared, i) != 0x82);
        }
    }
    if state.label is Some {
        let i = choose|i: int|
            0 <= i < end && #[trigger] is_first(vol, root, declared, 0x83, i)
                && state.label->Some_0 == vol.slot_at(root, declared, i)->Ok_0.bytes;
        assert(vol.slot_at(root, declared, i) is Ok);
        assert(is_first_of(bytes, 0x83, i, end));
    } else {
        assert forall|i: int| 0 <= i < end implies #[trigger] kind_of(bytes, i) != 0x83 by {
            assert(kind_at(vol, root, declared, i) != 0x83);
        }
    }
    lemma_alone(vol, root, declared, bytes, 0x81, end);
    lemma_alone(vol, root, declared, bytes, 0x82, end);
    lemma_alone(vol, root, declared, bytes, 0x83, end);
}

/// Slots and the bytes they are agree on whether there is one of a kind.
proof fn lemma_alone(
    vol: Vol,
    root: Storage,
    declared: u64,
    bytes: Seq<u8>,
    kind: u8,
    end: int,
)
    requires
        forall|n: int|
            0 <= n < end ==> #[trigger] kind_at(vol, root, declared, n) == kind_of(bytes, n),
    ensures
        has_one(vol, root, declared, kind, end) == is_alone(bytes, kind, end),
{
    if has_one(vol, root, declared, kind, end) {
        assert forall|i: int, j: int| 0 <= i < j < end implies !(#[trigger] kind_of(bytes, i)
            == kind && #[trigger] kind_of(bytes, j) == kind) by {
            assert(kind_at(vol, root, declared, i) == kind_of(bytes, i));
            assert(kind_at(vol, root, declared, j) == kind_of(bytes, j));
        }
    }
}

/// Units have a zero among them where one of them is.
proof fn lemma_first_zero(units: Seq<u16>, from: int)
    requires
        0 <= from,
    ensures
        first_zero(units, from) is None <==> forall|i: int|
            from <= i < units.len() ==> #[trigger] units[i] != 0,
    decreases units.len() - from,
{
    if from < units.len() {
        lemma_first_zero(units, from + 1);
    }
}

/// The numbers that pairs of bytes spell from some byte on, the lower byte of each first.
pub open spec fn halves_at(bytes: Seq<u8>, at: int, count: int) -> Seq<u16> {
    Seq::new(count as nat, |i: int| half_at(bytes, at + 2 * i) as u16)
}

/// The name of a volume is as many of the eleven units of its slot as the slot says, eleven where
/// it says more, as UTF-8; there is none where that is none of them, or where one of them is zero;
/// and what it says is remarked on where it says more than eleven or one of them is zero.
pub proof fn lemma_a_label_is_what_its_slot_says(entry: Seq<u8>)
    requires
        entry.len() == 32,
    ensures
        entry[1] <= 11 ==> {
            let units = halves_at(entry, 2, entry[1] as int);
            &&& label_in(entry) == (if entry[1] == 0 || units.contains(0) {
                None
            } else {
                Some(utf8_of_units(units))
            })
            &&& label_log(entry).len() == 0 <==> !units.contains(0)
        },
        entry[1] > 11 ==> {
            let units = halves_at(entry, 2, 11);
            &&& label_in(entry) == (if units.contains(0) {
                None
            } else {
                Some(utf8_of_units(units))
            })
            &&& label_log(entry).len() > 0
        },
{
    let count = label_count(entry);
    let units = halves_at(entry, 2, count);
    assert(label_units(entry) =~= units);
    lemma_first_zero(units, 0);
    if first_zero(units, 0) is Some {
        let i = choose|i: int| 0 <= i < units.len() && #[trigger] units[i] == 0;
        assert(units.contains(units[i]));
    }
}

/// What opening a volume finds is what its boot sector and its root directory say: it is opened
/// with the geometry the boot sector describes, the bitmap and the up-case table the root names,
/// the folding that table spells, and the name the root gives; and nothing is remarked on exactly
/// where nothing is wrong with the boot regions, the root names each once, the bitmap has a bit for
/// each cluster and no byte more, and the up-case table has the checksum the root gives for it.
pub proof fn lemma_a_volume_opens_as_it_says(bytes: Seq<u8>)
    requires
        opened(bytes) is Ok,
    ensures
        ({
            let found = opened(bytes)->Ok_0;
            let boot = boot_at(bytes.take(512));
            let vol = Vol { bytes, layout: described(boot) };
            let root = Storage::Chain(boot.first_cluster_of_root);
            let state = residents(vol, root, found.root_bytes, vol.slot_count(
                root,
                found.root_bytes,
            ));
            let bitmap = state.bitmap->Some_0;
            let upcase = state.upcase->Some_0;
            let table = vol.chain(upcase.first_cluster, upcase.data_length);
            &&& boot_fault(bytes.take(512)) is None
            &&& boot_defect(boot, bytes.len() as int) is None
            &&& boot.number_of_fats == 1
            &&& found.boot == boot
            &&& found.layout.bytes_per_sector == described(boot).bytes_per_sector
            &&& found.layout.bytes_per_cluster == described(boot).bytes_per_cluster
            &&& found.layout.volume_length == boot.volume_length
            &&& found.layout.fat_offset == boot.fat_offset
            &&& found.layout.fat_length == boot.fat_length
            &&& found.layout.cluster_heap_offset == boot.cluster_heap_offset
            &&& found.layout.cluster_count == boot.cluster_count
            &&& found.layout.first_cluster_of_root == boot.first_cluster_of_root
            &&& state.bitmap is Some
            &&& state.upcase is Some
            &&& found.bitmap.first_cluster == bitmap.first_cluster
            &&& found.bitmap.bytes == bitmap.data_length
            &&& found.layout.bitmap_cluster == bitmap.first_cluster
            &&& found.layout.bitmap_bytes == bitmap.data_length
            &&& found.layout.upcase_cluster == upcase.first_cluster
            &&& found.layout.upcase_bytes == upcase.data_length
            &&& found.label == (match state.label {
                Some(entry) => label_in(entry),
                None => None,
            })
            &&& upcase.data_length <= 0x2_0000 ==> table is Ok && found.mapping == mapping_of(
                halves_at(table->Ok_0, 0, table->Ok_0.len() as int / 2),
            )
            &&& upcase.data_length > 0x2_0000 ==> found.mapping == mapping_of(Seq::empty())
            &&& found.log.len() == 0 <==> {
                &&& boot_log(vol, boot).len() == 0
                &&& state.log.len() == 0
                &&& 8 * bitmap.data_length >= boot.cluster_count
                &&& 8 * bitmap.data_length < boot.cluster_count + 8
                &&& upcase.data_length <= 0x2_0000
                &&& upcase_sum(table->Ok_0) == upcase.table_checksum
                &&& match state.label {
                    Some(entry) => label_log(entry).len() == 0,
                    None => true,
                }
            }
        }),
{
    let boot = boot_at(bytes.take(512));
    lemma_ceil_div(boot.cluster_count as int, 8);
    let vol = Vol { bytes, layout: described(boot) };
    let upcase = opened(bytes)->Ok_0.layout;
    let table = vol.chain(upcase.upcase_cluster, upcase.upcase_bytes)->Ok_0;
    assert(words_of(table) =~= halves_at(table, 0, table.len() as int / 2));
}

/// A volume is opened where its boot sector describes one that lies inside the bytes there are and
/// has one table, its root directory can be followed to its end, and the root names a bitmap and an
/// up-case table that can be read; and where it has two tables, another number of them, no bitmap
/// or no up-case table, that is what is said.
pub proof fn lemma_a_volume_is_opened_where_all_is_there(
    bytes: Seq<u8>,
    clusters: Seq<u32>,
    end: int,
)
    requires
        512 <= bytes.len() <= u64::MAX,
        boot_fault(bytes.take(512)) is None,
        ({
            let boot = boot_at(bytes.take(512));
            let vol = Vol { bytes, layout: described(boot) };
            &&& boot_defect(boot, bytes.len() as int) is None
            &&& vol.wf()
            &&& clusters.len() > 0
            &&& clusters[0] == boot.first_cluster_of_root
            &&& vol.chained(clusters)
            &&& vol.word_of(clusters.last() as int) == 0xFFFF_FFFF
            &&& 0 <= 32 * end <= clusters.len() * vol.layout.bytes_per_cluster
            &&& forall|n: int| 0 <= n < end ==> #[trigger] kind_of(vol.joined(clusters), n) != 0
            &&& 32 * end < clusters.len() * vol.layout.bytes_per_cluster ==> kind_of(
                vol.joined(clusters),
                end,
            ) == 0
        }),
    ensures
        ({
            let boot = boot_at(bytes.take(512));
            let vol = Vol { bytes, layout: described(boot) };
            let slots = vol.joined(clusters);
            &&& boot.number_of_fats == 2 ==> opened(bytes) == Err::<Opened, ReadError>(
                ReadError::TexFat,
            )
            &&& boot.number_of_fats != 1 && boot.number_of_fats != 2 ==> opened(bytes) == Err::<
                Opened,
                ReadError,
            >(ReadError::FatCount { count: boot.number_of_fats })
            &&& boot.number_of_fats == 1 && (forall|n: int|
                0 <= n < end ==> #[trigger] kind_of(slots, n) != 0x81) ==> opened(bytes) == Err::<
                Opened,
                ReadError,
            >(ReadError::MissingResident { resident: "allocation bitmap" })
            &&& boot.number_of_fats == 1 && (exists|n: int|
                0 <= n < end && #[trigger] kind_of(slots, n) == 0x81) && (forall|n: int|
                0 <= n < end ==> #[trigger] kind_of(slots, n) != 0x82) ==> opened(bytes) == Err::<
                Opened,
                ReadError,
            >(ReadError::MissingResident { resident: "up-case table" })
            &&& boot.number_of_fats == 1 && (exists|n: int|
                0 <= n < end && #[trigger] kind_of(slots, n) == 0x81) ==> forall|n: int| #[trigger]
                is_first_of(slots, 0x82, n, end) ==> {
                    let length = long_at(slots, 32 * n + 24);
                    let table = vol.chain(
                        word_at(slots, 32 * n + 20) as u32,
                        long_at(slots, 32 * n + 24) as u64,
                    );
                    &&& opened(bytes) is Ok <==> length > 0x2_0000 || table is Ok
                    &&& length <= 0x2_0000 && table is Err ==> opened(bytes) == Err::<
                        Opened,
                        ReadError,
                    >(table->Err_0)
                }
        }),
{
    let boot = boot_at(bytes.take(512));
    let vol = Vol { bytes, layout: described(boot) };
    let slots = vol.joined(clusters);
    let per = vol.layout.bytes_per_cluster as int;
    let root = Storage::Chain(boot.first_cluster_of_root);
    lemma_the_root_is_its_whole_chain(vol, clusters);
    let declared = (clusters.len() * per) as u64;
    lemma_whole_clusters(vol, clusters);
    lemma_the_root_says_where_the_residents_are(vol, root, clusters, declared, end);
    let state = residents(vol, root, declared, vol.slot_count(root, declared));
    if state.upcase is Some {
        let i = choose|i: int| #[trigger]
            is_first_of(slots, 0x82, i, end) && state.upcase->Some_0.table_checksum == word_at(
                slots,
                32 * i + 4,
            ) && state.upcase->Some_0.first_cluster == word_at(slots, 32 * i + 20)
                && state.upcase->Some_0.data_length == long_at(slots, 32 * i + 24);
        assert forall|n: int| #[trigger] is_first_of(slots, 0x82, n, end) implies n == i by {
            if n < i {
                assert(kind_of(slots, n) != 0x82);
            }
            if i < n {
                assert(kind_of(slots, i) != 0x82);
            }
        }
    }
    assert forall|n: int| #[trigger] is_first_of(slots, 0x82, n, end) implies state.upcase
        is Some by {
        assert(kind_of(slots, n) == 0x82);
    }
}

/// A number of whole clusters fills as many clusters, and its bytes can be counted.
proof fn lemma_whole_clusters(vol: Vol, clusters: Seq<u32>)
    requires
        vol.wf(),
        vol.chained(clusters),
    ensures
        ({
            let per = vol.layout.bytes_per_cluster as int;
            let declared = (clusters.len() * per) as u64;
            &&& declared == clusters.len() * per
            &&& ceil_div(declared as int, per) == clusters.len()
        }),
{
    let per = vol.layout.bytes_per_cluster as int;
    let n = clusters.len() as int;
    lemma_chained_are_few(vol, clusters);
    assert(0 <= n * per <= 0xFFFF_FFFF * 0x0200_0000) by (nonlinear_arith)
        requires
            0 <= n <= 0xFFFF_FFFF,
            0 < per <= 0x0200_0000,
    ;
    vstd::arithmetic::div_mod::lemma_div_multiples_vanish(n, per);
    vstd::arithmetic::div_mod::lemma_mod_multiples_basic(n, per);
    vstd::arithmetic::mul::lemma_mul_is_commutative(n, per);
}

/// The fields of a boot sector are the numbers at their places in it, each the lowest byte first.
pub proof fn lemma_where_the_fields_of_a_boot_sector_are(boot: MainBootSector, sector: Seq<u8>)
    requires
        sector.len() == 512,
        boot.is_at(sector),
    ensures
        boot.jump_boot@ == sector.subrange(0, 3),
        boot.file_system_name@ == sector.subrange(3, 11),
        boot.partition_offset == long_at(sector, 64),
        boot.volume_length == long_at(sector, 72),
        boot.fat_offset == word_at(sector, 80),
        boot.fat_length == word_at(sector, 84),
        boot.cluster_heap_offset == word_at(sector, 88),
        boot.cluster_count == word_at(sector, 92),
        boot.first_cluster_of_root == word_at(sector, 96),
        boot.volume_serial == word_at(sector, 100),
        boot.file_system_revision == half_at(sector, 104),
        boot.volume_flags == half_at(sector, 106),
        boot.bytes_per_sector_shift == sector[108],
        boot.sectors_per_cluster_shift == sector[109],
        boot.number_of_fats == sector[110],
        boot.drive_select == sector[111],
        boot.percent_in_use == sector[112],
        boot.boot_code@ == sector.subrange(120, 510),
{
}

impl<'a> Reader<'a> {
    /// An opened volume is the source from where it was opened on, and its root directory is all of
    /// the chain the boot sector names, written to its end and without times; no other directory is
    /// read as the root.
    pub proof fn lemma_the_root_of_an_opened_volume(
        &self,
        src: Seq<u8>,
        found: Opened,
        options: OpenOptions,
        node: Node,
    )
        requires
            options.base <= src.len(),
            opened(src.skip(options.base as int)) == Ok::<Opened, ReadError>(found),
            self.holds(src, found, options),
        ensures
            self.vol().bytes == src.skip(options.base as int),
            self.root_node().storage == Storage::Chain(found.boot.first_cluster_of_root),
            self.root_node().attributes.word() == 0x10,
            self.root_node().directory(),
            self.root_node().data_length == found.root_bytes,
            self.root_node().valid_data_length == found.root_bytes,
            self.root_node().times is None,
            self.reading(self.root_node()).is_root,
            node.times is Some ==> !self.reading(node).is_root,
    {
        broadcast use FileAttributes::lemma_of_word;

        lemma_a_volume_opens_as_it_says(src.skip(options.base as int));
        assert(0x10u16 & 0x10u16 == 0x10u16) by (bit_vector);
    }
}

} // verus!
