//! What keeps a source from being placed, and that nothing else does.
use vstd::prelude::*;

use crate::fidelity::LossPolicy;
use crate::model::{ModelFault, TimeField};
use crate::name::{folded_by, name_fault, name_units};
use crate::path::{
    ascends, before, key_of, lemma_a_beginning_comes_first, lemma_last_slash, name_of, parent_of,
};
use crate::place::{
    entry_at, first_path_fault, index_of, link_end, node_step, path_fault, place_step, placed_up_to,
    taker, tree_of, Built, LinkEnd, TakenView,
};
use crate::sort::{
    distinct_keys, in_order, lemma_contains_by_multiset, lemma_distinct_by_multiset,
    lemma_sorted_source, sorted_source,
};
use crate::source::{KindView, SourceView};

verus! {

/// Whether a source has a directory of this key; every source has the root.
pub open spec fn has_directory(source: Seq<SourceView>, key: Seq<u8>) -> bool {
    key.len() == 0 || exists|i: int|
        0 <= i < source.len() && (#[trigger] source[i]).kind is Directory && key_of(source[i].path)
            == key
}

/// Whether a source has an entry of this path.
pub open spec fn has_entry(source: Seq<SourceView>, path: Seq<u8>) -> bool {
    exists|i: int| 0 <= i < source.len() && (#[trigger] source[i]).path == path
}

/// Whether what is said to be wrong with a source is.
pub open spec fn is_wrong(source: Seq<SourceView>, mapping: Seq<u16>, fault: ModelFault) -> bool {
    match fault {
        ModelFault::InvalidComponent { path } => has_entry(source, path) && ascends(path),
        ModelFault::RootNotDirectory { path } => key_of(path).len() == 0 && exists|i: int|
            0 <= i < source.len() && (#[trigger] source[i]).path == path && !(
            source[i].kind is Directory),
        ModelFault::Duplicate { path } => has_entry(source, path) && !distinct_keys(source),
        ModelFault::ParentMissing { path } => {
            let parent = parent_of(key_of(path));
            &&& has_entry(source, path)
            &&& parent.len() > 0
            &&& forall|i: int|
                0 <= i < source.len() ==> key_of((#[trigger] source[i]).path) != parent
        },
        ModelFault::ParentNotDir { path } => {
            let parent = parent_of(key_of(path));
            &&& has_entry(source, path)
            &&& !has_directory(source, parent)
            &&& exists|i: int|
                0 <= i < source.len() && key_of((#[trigger] source[i]).path) == parent
        },
        ModelFault::Name { path, source: e } => has_entry(source, path) && name_fault(
            name_of(key_of(path)),
        ) == Some(e),
        ModelFault::Indistinguishable { path, other } => {
            &&& has_entry(source, path)
            &&& has_entry(source, other)
            &&& parent_of(key_of(path)) == parent_of(key_of(other))
            &&& folded_by(mapping, name_units(name_of(key_of(path)))) == folded_by(
                mapping,
                name_units(name_of(key_of(other))),
            )
        },
        ModelFault::TimeOutOfRange { path, field, secs, min, max } => {
            &&& min == 315_532_800
            &&& max == 4_354_819_199
            &&& secs < 315_532_800 || secs > 4_354_819_199
            &&& exists|i: int|
                0 <= i < source.len() && (#[trigger] source[i]).path == path && secs == (
                match field {
                    TimeField::Modification => source[i].meta.mtime.secs,
                    TimeField::Access => source[i].meta.atime.secs,
                })
        },
        ModelFault::HardlinkTargetMissing { path, target }
        | ModelFault::HardlinkTargetIsDirectory { path, target } => exists|i: int|
            0 <= i < source.len() && (#[trigger] source[i]).path == path && source[i].kind
                == KindView::HardLink(target),
        ModelFault::HardlinkCycle { path } => exists|i: int|
            0 <= i < source.len() && (#[trigger] source[i]).path == path && source[i].kind
                is HardLink,
        ModelFault::LossNotAccepted { path, .. } => has_entry(source, path),
        _ => false,
    }
}

/// Where the first of some keys that is a key is.
proof fn lemma_index_of(keys: Seq<Seq<u8>>, key: Seq<u8>, from: int)
    requires
        0 <= from,
    ensures
        match index_of(keys, key, from) {
            Some(i) => from <= i < keys.len() && keys[i] == key,
            None => forall|i: int| from <= i < keys.len() ==> #[trigger] keys[i] != key,
        },
    decreases keys.len() - from,
{
    if from < keys.len() {
        lemma_index_of(keys, key, from + 1);
    }
}

/// Where the first of some entries with a key is.
proof fn lemma_entry_at(sorted: Seq<SourceView>, key: Seq<u8>, from: int)
    requires
        0 <= from,
    ensures
        match entry_at(sorted, key, from) {
            Some(i) => {
                &&& from <= i < sorted.len()
                &&& key_of(sorted[i].path) == key
                &&& forall|j: int| from <= j < i ==> key_of((#[trigger] sorted[j]).path) != key
            },
            None => forall|i: int|
                from <= i < sorted.len() ==> key_of((#[trigger] sorted[i]).path) != key,
        },
    decreases sorted.len() - from,
{
    if from < sorted.len() {
        lemma_entry_at(sorted, key, from + 1);
    }
}

/// Who took a name is one of those that took one.
proof fn lemma_taker(taken: Seq<TakenView>, folded: Seq<u16>, from: int)
    requires
        0 <= from,
    ensures
        taker(taken, folded, from) matches Some(path) ==> exists|j: int|
            from <= j < taken.len() && (#[trigger] taken[j]).folded == folded && taken[j].path
                == path,
    decreases taken.len() - from,
{
    if from < taken.len() {
        if taken[from].folded == folded {
            assert(taken[from].path == taker(taken, folded, from)->Some_0);
        } else {
            lemma_taker(taken, folded, from + 1);
        }
    }
}

/// Whether a taken name is that of one of the first entries, in the directory that took it.
spec fn took(
    sorted: Seq<SourceView>,
    mapping: Seq<u16>,
    n: int,
    parent: Seq<u8>,
    taken: TakenView,
) -> bool {
    exists|m: int|
        0 <= m < n && (#[trigger] sorted[m]).path == taken.path && parent_of(
            key_of(sorted[m].path),
        ) == parent && taken.folded == folded_by(
            mapping,
            name_units(name_of(key_of(sorted[m].path))),
        )
}

/// Whether the directories and the names taken are those of the first entries.
spec fn grown(built: Built, sorted: Seq<SourceView>, mapping: Seq<u16>, n: int) -> bool {
    &&& built.taken.len() == built.keys.len()
    &&& built.dirs.len() == built.keys.len()
    &&& forall|d: int|
        0 <= d < built.keys.len() ==> has_directory(sorted.take(n), #[trigger] built.keys[d])
    &&& forall|m: int|
        0 <= m < n && (#[trigger] sorted[m]).kind is Directory ==> built.keys.contains(
            key_of(sorted[m].path),
        )
    &&& built.keys.contains(Seq::empty())
    &&& forall|p: int, t: int|
        0 <= p < built.taken.len() && 0 <= t < built.taken[p].len() ==> took(
            sorted,
            mapping,
            n,
            built.keys[p],
            #[trigger] built.taken[p][t],
        )
}

/// What the first entries grow is grown.
proof fn lemma_grown(
    sorted: Seq<SourceView>,
    n: int,
    loss: LossPolicy,
    mapping: Seq<u16>,
)
    requires
        0 <= n <= sorted.len(),
        placed_up_to(sorted, n, loss, mapping) is Ok,
    ensures
        grown(placed_up_to(sorted, n, loss, mapping)->Ok_0, sorted, mapping, n),
    decreases n,
{
    if n == 0 {
        let built = Built::empty();
        assert(built.keys[0] == Seq::<u8>::empty());
        assert(built.keys.contains(Seq::empty()));
    } else {
        lemma_grown(sorted, n - 1, loss, mapping);
        let built = placed_up_to(sorted, n - 1, loss, mapping)->Ok_0;
        let after = placed_up_to(sorted, n, loss, mapping)->Ok_0;
        let entry = sorted[n - 1];
        let key = key_of(entry.path);
        reveal(place_step);
        lemma_index_of(built.keys, parent_of(key), 0);
        assert(built.keys.push(key).contains(key)) by {
            assert(built.keys.push(key)[built.keys.len() as int] == key);
        }
        if key.len() == 0 {
            assert(after == built);
        } else {
            assert(after.keys == (if entry.kind is Directory {
                built.keys.push(key)
            } else {
                built.keys
            }));
        }
        assert forall|k: Seq<u8>| #[trigger] built.keys.contains(k) implies after.keys.contains(
            k,
        ) by {
            let i = choose|i: int| 0 <= i < built.keys.len() && built.keys[i] == k;
            assert(after.keys[i] == k);
        }
        assert forall|k: Seq<u8>| #[trigger] has_directory(sorted.take(n - 1), k) implies
            has_directory(sorted.take(n), k) by {
            if k.len() > 0 {
                let i = choose|i: int|
                    0 <= i < n - 1 && (#[trigger] sorted.take(n - 1)[i]).kind is Directory
                        && key_of(sorted.take(n - 1)[i].path) == k;
                assert(sorted.take(n)[i] == sorted.take(n - 1)[i]);
            }
        }
        assert(sorted.take(n)[n - 1] == entry);
        assert forall|d: int| 0 <= d < after.keys.len() implies has_directory(
            sorted.take(n),
            #[trigger] after.keys[d],
        ) by {
            if d < built.keys.len() {
                assert(after.keys[d] == built.keys[d]);
                assert(has_directory(sorted.take(n - 1), built.keys[d]));
            }
        }
        assert forall|m: int| 0 <= m < n && (#[trigger] sorted[m]).kind is Directory implies
            after.keys.contains(key_of(sorted[m].path)) by {
            if m < n - 1 {
                assert(built.keys.contains(key_of(sorted[m].path)));
            } else if key.len() == 0 {
                assert(key =~= Seq::empty());
                assert(built.keys.contains(Seq::empty()));
            }
        }
        assert(built.keys.contains(Seq::empty()));
        assert forall|p: int, t: int|
            0 <= p < after.taken.len() && 0 <= t < after.taken[p].len() implies took(
            sorted,
            mapping,
            n,
            after.keys[p],
            #[trigger] after.taken[p][t],
        ) by {
            if p < built.taken.len() && t < built.taken[p].len() {
                assert(after.taken[p][t] == built.taken[p][t]);
                assert(took(sorted, mapping, n - 1, built.keys[p], built.taken[p][t]));
                let m = choose|m: int|
                    0 <= m < n - 1 && (#[trigger] sorted[m]).path == built.taken[p][t].path
                        && parent_of(key_of(sorted[m].path)) == built.keys[p]
                        && built.taken[p][t].folded == folded_by(
                        mapping,
                        name_units(name_of(key_of(sorted[m].path))),
                    );
                assert(sorted[m].path == after.taken[p][t].path);
            } else {
                assert(sorted[n - 1].path == after.taken[p][t].path);
            }
        }
    }
}

/// A refusal is that of one entry, once those before it are placed.
proof fn lemma_refused_at(
    sorted: Seq<SourceView>,
    n: int,
    loss: LossPolicy,
    mapping: Seq<u16>,
) -> (m: int)
    requires
        0 <= n <= sorted.len(),
        placed_up_to(sorted, n, loss, mapping) is Err,
    ensures
        0 <= m < n,
        placed_up_to(sorted, m, loss, mapping) is Ok,
        place_step(
            placed_up_to(sorted, m, loss, mapping)->Ok_0,
            sorted,
            sorted[m],
            loss,
            mapping,
        ) == Err::<Built, ModelFault>(placed_up_to(sorted, n, loss, mapping)->Err_0),
    decreases n,
{
    if placed_up_to(sorted, n - 1, loss, mapping) is Err {
        lemma_refused_at(sorted, n - 1, loss, mapping)
    } else {
        n - 1
    }
}

/// The key of a directory comes before the keys of what is in it.
proof fn lemma_parent_first(key: Seq<u8>)
    requires
        key.len() > 0,
    ensures
        before(parent_of(key), key),
        parent_of(key) != key,
{
    lemma_last_slash(key);
    let parent = parent_of(key);
    let rest = key.skip(parent.len() as int);
    assert(parent + rest =~= key);
    lemma_a_beginning_comes_first(parent, rest);
}

/// Why an entry cannot be placed, where it cannot, is wrong with the source.
proof fn lemma_step_refuses(
    sorted: Seq<SourceView>,
    m: int,
    loss: LossPolicy,
    mapping: Seq<u16>,
)
    requires
        in_order(sorted),
        0 <= m < sorted.len(),
        placed_up_to(sorted, m, loss, mapping) is Ok,
        place_step(
            placed_up_to(sorted, m, loss, mapping)->Ok_0,
            sorted,
            sorted[m],
            loss,
            mapping,
        ) is Err,
    ensures
        is_wrong(
            sorted,
            mapping,
            place_step(
                placed_up_to(sorted, m, loss, mapping)->Ok_0,
                sorted,
                sorted[m],
                loss,
                mapping,
            )->Err_0,
        ),
{
    reveal(place_step);
    let built = placed_up_to(sorted, m, loss, mapping)->Ok_0;
    let entry = sorted[m];
    let key = key_of(entry.path);
    let parent = parent_of(key);
    let fault = place_step(built, sorted, entry, loss, mapping)->Err_0;
    lemma_grown(sorted, m, loss, mapping);
    lemma_index_of(built.keys, parent, 0);
    lemma_entry_at(sorted, parent, 0);
    assert(has_entry(sorted, entry.path));
    if index_of(built.keys, parent, 0) is None {
        if parent.len() == 0 {
            assert(parent =~= Seq::empty());
            let i = choose|i: int| 0 <= i < built.keys.len() && built.keys[i] == Seq::<u8>::empty();
            assert(built.keys[i] == parent);
        }
        lemma_parent_first(key);
        assert(!has_directory(sorted, parent)) by {
            if has_directory(sorted, parent) {
                let i = choose|i: int|
                    0 <= i < sorted.len() && (#[trigger] sorted[i]).kind is Directory && key_of(
                        sorted[i].path,
                    ) == parent;
                if i < m {
                    let d = choose|d: int| 0 <= d < built.keys.len() && built.keys[d] == key_of(
                        sorted[i].path,
                    );
                    assert(built.keys[d] == parent);
                } else if i > m {
                    assert(!before(key_of(sorted[i].path), key_of(sorted[m].path)));
                }
            }
        }
        if entry_at(sorted, parent, 0) is Some {
            let i = entry_at(sorted, parent, 0)->Some_0;
            assert(key_of(sorted[i].path) == parent);
        }
    } else {
        let p = index_of(built.keys, parent, 0)->Some_0;
        match node_step(built, sorted, entry, loss) {
            Err(_) => {
                assert(sorted[m].path == entry.path);
            },
            Ok((after, Some(node))) => {
                let folded = folded_by(mapping, name_units(name_of(key)));
                assert(after.taken[p] == built.taken[p]);
                lemma_taker(after.taken[p], folded, 0);
                if taker(after.taken[p], folded, 0) is Some {
                    let j = choose|j: int|
                        0 <= j < built.taken[p].len() && (#[trigger] built.taken[p][j]).folded
                            == folded && built.taken[p][j].path == taker(
                            after.taken[p],
                            folded,
                            0,
                        )->Some_0;
                    assert(took(sorted, mapping, m, built.keys[p], built.taken[p][j]));
                    let k = choose|k: int|
                        0 <= k < m && (#[trigger] sorted[k]).path == built.taken[p][j].path
                            && parent_of(key_of(sorted[k].path)) == built.keys[p]
                            && built.taken[p][j].folded == folded_by(
                            mapping,
                            name_units(name_of(key_of(sorted[k].path))),
                        );
                    assert(has_entry(sorted, sorted[k].path));
                }
                assert(sorted[m].path == entry.path);
            },
            Ok((_, None)) => {},
        }
    }
}

/// What is wrong with the path of an entry is wrong with the source.
proof fn lemma_path_refuses(sorted: Seq<SourceView>, mapping: Seq<u16>, from: int)
    requires
        0 <= from <= sorted.len(),
    ensures
        match first_path_fault(sorted, from) {
            Some(fault) => is_wrong(sorted, mapping, fault),
            None => forall|i: int|
                from <= i < sorted.len() ==> {
                    &&& !ascends((#[trigger] sorted[i]).path)
                    &&& key_of(sorted[i].path).len() == 0 ==> sorted[i].kind is Directory
                    &&& entry_at(sorted, key_of(sorted[i].path), 0) == Some(i)
                },
        },
    decreases sorted.len() - from,
{
    if from < sorted.len() {
        lemma_path_refuses(sorted, mapping, from + 1);
        let entry = sorted[from];
        let key = key_of(entry.path);
        assert(has_entry(sorted, entry.path));
        lemma_entry_at(sorted, key, 0);
        if path_fault(sorted, from) is Some {
            if !ascends(entry.path) && !(key.len() == 0 && !(entry.kind is Directory)) {
                let i = entry_at(sorted, key, 0)->Some_0;
                assert(entry_at(sorted, key, 0) is Some);
                assert(i != from && key_of(sorted[i].path) == key_of(sorted[from].path));
            }
        }
    }
}

/// What is wrong with the entries of a source in one order is wrong with them in another.
proof fn lemma_wrong_in_any_order(
    a: Seq<SourceView>,
    b: Seq<SourceView>,
    mapping: Seq<u16>,
    fault: ModelFault,
)
    requires
        a.to_multiset() == b.to_multiset(),
        is_wrong(a, mapping, fault),
    ensures
        is_wrong(b, mapping, fault),
{
    assert forall|path: Seq<u8>| #[trigger] has_entry(a, path) implies has_entry(b, path) by {
        let i = choose|i: int| 0 <= i < a.len() && (#[trigger] a[i]).path == path;
        let j = lemma_contains_by_multiset(a, b, i);
        assert(b[j].path == path);
    }
    assert forall|key: Seq<u8>| #[trigger] has_directory(b, key) implies has_directory(a, key) by {
        if key.len() > 0 {
            let i = choose|i: int|
                0 <= i < b.len() && (#[trigger] b[i]).kind is Directory && key_of(b[i].path) == key;
            let j = lemma_contains_by_multiset(b, a, i);
            assert(a[j].kind is Directory);
        }
    }
    match fault {
        ModelFault::RootNotDirectory { path } => {
            let i = choose|i: int|
                0 <= i < a.len() && (#[trigger] a[i]).path == path && !(a[i].kind is Directory);
            let j = lemma_contains_by_multiset(a, b, i);
            assert(b[j].path == path);
        },
        ModelFault::Duplicate { .. } => {
            if distinct_keys(b) {
                lemma_distinct_by_multiset(b, a);
            }
        },
        ModelFault::ParentMissing { path } => {
            let parent = parent_of(key_of(path));
            assert forall|i: int| 0 <= i < b.len() implies key_of((#[trigger] b[i]).path)
                != parent by {
                let j = lemma_contains_by_multiset(b, a, i);
                assert(key_of(a[j].path) != parent);
            }
        },
        ModelFault::ParentNotDir { path } => {
            let parent = parent_of(key_of(path));
            let i = choose|i: int| 0 <= i < a.len() && key_of((#[trigger] a[i]).path) == parent;
            let j = lemma_contains_by_multiset(a, b, i);
            assert(key_of(b[j].path) == parent);
        },
        ModelFault::TimeOutOfRange { path, field, secs, .. } => {
            let i = choose|i: int|
                0 <= i < a.len() && (#[trigger] a[i]).path == path && secs == (match field {
                    TimeField::Modification => a[i].meta.mtime.secs,
                    TimeField::Access => a[i].meta.atime.secs,
                });
            let j = lemma_contains_by_multiset(a, b, i);
            assert(b[j].path == path);
        },
        ModelFault::HardlinkTargetMissing { path, target }
        | ModelFault::HardlinkTargetIsDirectory { path, target } => {
            let i = choose|i: int|
                0 <= i < a.len() && (#[trigger] a[i]).path == path && a[i].kind
                    == KindView::HardLink(target);
            let j = lemma_contains_by_multiset(a, b, i);
            assert(b[j].path == path);
        },
        ModelFault::HardlinkCycle { path } => {
            let i = choose|i: int|
                0 <= i < a.len() && (#[trigger] a[i]).path == path && a[i].kind is HardLink;
            let j = lemma_contains_by_multiset(a, b, i);
            assert(b[j].path == path);
        },
        _ => {},
    }
}

/// A source is refused only for what is wrong with it: what the refusal says of its path holds.
pub proof fn lemma_a_source_is_refused_for_what_is_wrong_with_it(
    source: Seq<SourceView>,
    loss: LossPolicy,
    mapping: Seq<u16>,
)
    requires
        tree_of(source, loss, mapping) is Err,
    ensures
        is_wrong(source, mapping, tree_of(source, loss, mapping)->Err_0),
{
    let sorted = sorted_source(source);
    lemma_sorted_source(source);
    lemma_path_refuses(sorted, mapping, 0);
    let fault = tree_of(source, loss, mapping)->Err_0;
    if first_path_fault(sorted, 0) is None {
        let m = lemma_refused_at(sorted, sorted.len() as int, loss, mapping);
        lemma_step_refuses(sorted, m, loss, mapping);
    }
    lemma_wrong_in_any_order(sorted, source, mapping, fault);
}

/// What becomes of each entry of a source whose first entries are placed.
proof fn lemma_each_is_placed(
    sorted: Seq<SourceView>,
    n: int,
    loss: LossPolicy,
    mapping: Seq<u16>,
    i: int,
)
    requires
        0 <= i < n <= sorted.len(),
        placed_up_to(sorted, n, loss, mapping) is Ok,
    ensures
        placed_up_to(sorted, i, loss, mapping) is Ok,
        place_step(
            placed_up_to(sorted, i, loss, mapping)->Ok_0,
            sorted,
            sorted[i],
            loss,
            mapping,
        ) is Ok,
    decreases n,
{
    if i < n - 1 {
        lemma_each_is_placed(sorted, n - 1, loss, mapping, i);
    }
}

/// Nothing is wrong with the entries of a source that is placed: no path of it ascends, what is at
/// the root is a directory, no two entries have one key, each is in a directory of the source, and
/// the name and the times of each directory and file are ones the format holds.
pub proof fn lemma_nothing_is_wrong_with_a_source_that_is_placed(
    source: Seq<SourceView>,
    loss: LossPolicy,
    mapping: Seq<u16>,
    i: int,
)
    requires
        tree_of(source, loss, mapping) is Ok,
        0 <= i < source.len(),
    ensures
        distinct_keys(source),
        ({
            let entry = source[i];
            let key = key_of(entry.path);
            &&& !ascends(entry.path)
            &&& key.len() == 0 ==> entry.kind is Directory
            &&& key.len() > 0 ==> has_directory(source, parent_of(key))
            &&& key.len() > 0 && (entry.kind is Directory || entry.kind is File) ==> {
                &&& name_fault(name_of(key)) is None
                &&& 315_532_800 <= entry.meta.mtime.secs < 4_354_819_200
                &&& 315_532_800 <= entry.meta.atime.secs < 4_354_819_200
            }
        }),
{
    let sorted = sorted_source(source);
    let n = sorted.len() as int;
    lemma_sorted_source(source);
    lemma_path_refuses(sorted, mapping, 0);
    assert(distinct_keys(sorted)) by {
        assert forall|a: int, b: int|
            0 <= a < sorted.len() && 0 <= b < sorted.len() && a != b implies key_of(
            #[trigger] sorted[a].path,
        ) != key_of(#[trigger] sorted[b].path) by {
            assert(entry_at(sorted, key_of(sorted[a].path), 0) == Some(a));
            assert(entry_at(sorted, key_of(sorted[b].path), 0) == Some(b));
        }
    }
    lemma_distinct_by_multiset(sorted, source);
    let m = lemma_contains_by_multiset(source, sorted, i);
    let entry = sorted[m];
    let key = key_of(entry.path);
    assert(!ascends(entry.path));
    lemma_each_is_placed(sorted, n, loss, mapping, m);
    lemma_grown(sorted, m, loss, mapping);
    let built = placed_up_to(sorted, m, loss, mapping)->Ok_0;
    reveal(place_step);
    let parent = parent_of(key);
    lemma_index_of(built.keys, parent, 0);
    if key.len() > 0 {
        let p = index_of(built.keys, parent, 0)->Some_0;
        assert(has_directory(sorted.take(m), built.keys[p]));
        if parent.len() > 0 {
            let k = choose|k: int|
                0 <= k < m && (#[trigger] sorted.take(m)[k]).kind is Directory && key_of(
                    sorted.take(m)[k].path,
                ) == parent;
            assert(sorted.take(m)[k] == sorted[k]);
            let j = lemma_contains_by_multiset(sorted, source, k);
            assert(source[j].kind is Directory && key_of(source[j].path) == parent);
        }
    }
}

/// A hard link leads where the entry at its target does: to a file that is one, and through a link
/// to where that leads; one to a directory, to nothing or back to itself leads to no file.
pub proof fn lemma_a_link_leads_where_its_target_does(
    sorted: Seq<SourceView>,
    target: Seq<u8>,
    steps: nat,
    i: int,
)
    requires
        distinct_keys(sorted),
        0 <= i < sorted.len(),
        key_of(sorted[i].path) == key_of(target),
        sorted.len() <= usize::MAX,
    ensures
        match sorted[i].kind {
            KindView::Directory => link_end(sorted, key_of(target), steps) is Directory,
            KindView::File(content) => link_end(sorted, key_of(target), steps) matches LinkEnd::File {
                size,
                ..
            } && (content.len() <= u64::MAX ==> size == content.len()),
            KindView::Symlink(_) | KindView::Special => link_end(sorted, key_of(target), steps)
                is Unrepresentable,
            KindView::HardLink(next) => if steps == 0 {
                link_end(sorted, key_of(target), steps) is Cycle
            } else {
                link_end(sorted, key_of(target), steps) == link_end(
                    sorted,
                    key_of(next),
                    (steps - 1) as nat,
                )
            },
        },
{
    lemma_entry_at(sorted, key_of(target), 0);
    if entry_at(sorted, key_of(target), 0) is None {
        assert(key_of(sorted[i].path) != key_of(target));
    }
    let j = entry_at(sorted, key_of(target), 0)->Some_0;
    if j != i {
        assert(key_of(sorted[j].path) != key_of(sorted[i].path));
    }
}

/// A hard link to a path no entry has leads to nothing.
pub proof fn lemma_a_link_to_nothing_leads_nowhere(
    sorted: Seq<SourceView>,
    target: Seq<u8>,
    steps: nat,
)
    requires
        forall|i: int| 0 <= i < sorted.len() ==> key_of((#[trigger] sorted[i]).path) != key_of(target),
    ensures
        link_end(sorted, key_of(target), steps) is Missing,
{
    lemma_entry_at(sorted, key_of(target), 0);
}

} // verus!
