//! Every tree a source gives is sound.
use vstd::prelude::*;

use crate::csum::hash_of;
use crate::dirent::FileAttributes;
use crate::fidelity::LossPolicy;
use crate::model::{held_name, EntryView, Node};
use crate::name::{folded_by, name_units};
use crate::path::{key_of, name_of, parent_of};
use crate::place::{
    attributes_of, class_of, entry_at, entry_step, files_before, first_path_fault, index_of,
    link_end, node_step, path_fault, place_step, placed_up_to, taker, tree_of, Built, ClassView,
    LinkEnd, TakenView,
};
use crate::sort::{lemma_sorted_source, sorted_source};
use crate::source::{KindView, SourceView};
use crate::time::lemma_stamp_round_trip;

verus! {

/// Whether a machine can hold the entries: as many as it can count, with contents as long as it
/// can count.
pub open spec fn countable(source: Seq<SourceView>) -> bool {
    &&& source.len() <= usize::MAX
    &&& forall|i: int|
        0 <= i < source.len() ==> match (#[trigger] source[i]).kind {
            KindView::File(content) => content.len() <= u64::MAX,
            _ => true,
        }
}

/// The contents of the files among the first `n` entries.
pub open spec fn file_contents(sorted: Seq<SourceView>, n: int) -> Seq<Seq<u8>>
    decreases n,
{
    if n <= 0 {
        Seq::empty()
    } else {
        match sorted[n - 1].kind {
            KindView::File(content) => file_contents(sorted, n - 1).push(content),
            _ => file_contents(sorted, n - 1),
        }
    }
}

/// The contents of file `i` are where the count of the files before it says.
pub proof fn lemma_file_contents(sorted: Seq<SourceView>, n: int, i: int)
    requires
        0 <= n <= sorted.len(),
    ensures
        file_contents(sorted, n).len() == files_before(sorted, n),
        0 <= files_before(sorted, n) <= n,
        0 <= i < n && sorted[i].kind is File ==> {
            &&& files_before(sorted, i) < files_before(sorted, n)
            &&& file_contents(sorted, n)[files_before(sorted, i)] == sorted[i].kind->File_0
        },
    decreases n,
{
    if n > 0 {
        lemma_file_contents(sorted, n - 1, i);
        if 0 <= i < n {
            lemma_file_contents(sorted, i, 0);
        }
    }
}

/// Whether `content` and `size` are those of a file of the source.
pub open spec fn of_a_file(sorted: Seq<SourceView>, content: int, size: int) -> bool {
    exists|i: int|
        0 <= i < sorted.len() && (#[trigger] sorted[i]).kind is File && content == files_before(
            sorted,
            i,
        ) && size == sorted[i].kind->File_0.len()
}

/// Whether an entry of directory `d` is one a tree under construction may have.
spec fn entry_grown(
    sorted: Seq<SourceView>,
    mapping: Seq<u16>,
    dirs: int,
    d: int,
    entry: EntryView,
) -> bool {
    &&& held_name(entry.units)
    &&& entry.hash == hash_of(folded_by(mapping, entry.units))
    &&& entry.attributes.has(FileAttributes::DIRECTORY) == (entry.node is Dir)
    &&& entry.attributes.word() & !FileAttributes::DEFINED == 0
    &&& entry.times.held()
    &&& match entry.node {
        Node::Dir(k) => d < k < dirs,
        Node::File { content, size, .. } => of_a_file(sorted, content as int, size as int),
    }
}

/// What holds of a tree of the first `n` entries.
#[verifier::opaque]
spec fn grown(built: Built, sorted: Seq<SourceView>, mapping: Seq<u16>, n: int) -> bool {
    &&& 1 <= built.dirs.len() <= n + 1
    &&& built.keys.len() == built.dirs.len()
    &&& built.taken.len() == built.dirs.len()
    &&& built.contents == file_contents(sorted, n)
    &&& forall|d: int, j: int|
        0 <= d < built.dirs.len() && 0 <= j < built.dirs[d].entries.len() ==> entry_grown(
            sorted,
            mapping,
            built.dirs.len() as int,
            d,
            #[trigger] built.dirs[d].entries[j],
        )
    &&& forall|d: int|
        0 <= d < built.dirs.len() ==> (#[trigger] built.taken[d]).len()
            == built.dirs[d].entries.len()
    &&& forall|d: int, j: int|
        0 <= d < built.dirs.len() && 0 <= j < built.dirs[d].entries.len() ==> (
        #[trigger] built.taken[d][j]).folded == folded_by(mapping, built.dirs[d].entries[j].units)
    &&& forall|d: int, i: int, j: int|
        0 <= d < built.dirs.len() && 0 <= i < j < built.taken[d].len() ==> (
        #[trigger] built.taken[d][i]).folded != (#[trigger] built.taken[d][j]).folded
}

proof fn lemma_index_of(keys: Seq<Seq<u8>>, key: Seq<u8>, from: int)
    requires
        0 <= from,
    ensures
        index_of(keys, key, from) is Some ==> from <= index_of(keys, key, from)->Some_0
            < keys.len(),
    decreases keys.len() - from,
{
    if from < keys.len() {
        lemma_index_of(keys, key, from + 1);
    }
}

proof fn lemma_entry_at(sorted: Seq<SourceView>, key: Seq<u8>, from: int)
    requires
        0 <= from,
    ensures
        entry_at(sorted, key, from) is Some ==> from <= entry_at(sorted, key, from)->Some_0
            < sorted.len(),
    decreases sorted.len() - from,
{
    if from < sorted.len() {
        lemma_entry_at(sorted, key, from + 1);
    }
}

proof fn lemma_taker(taken: Seq<TakenView>, folded: Seq<u16>, from: int)
    requires
        0 <= from,
        taker(taken, folded, from) is None,
    ensures
        forall|j: int| from <= j < taken.len() ==> (#[trigger] taken[j]).folded != folded,
    decreases taken.len() - from,
{
    if from < taken.len() {
        lemma_taker(taken, folded, from + 1);
    }
}

/// A link that ends at a file ends at one of the source.
proof fn lemma_link_end(sorted: Seq<SourceView>, key: Seq<u8>, steps: nat)
    requires
        countable(sorted),
    ensures
        match link_end(sorted, key, steps) {
            LinkEnd::File { content, size } => of_a_file(sorted, content as int, size as int),
            _ => true,
        },
    decreases steps,
{
    lemma_entry_at(sorted, key, 0);
    match entry_at(sorted, key, 0) {
        None => {},
        Some(i) => {
            match class_of(sorted, i) {
                ClassView::Link(next) => {
                    if steps > 0 {
                        lemma_link_end(sorted, next, (steps - 1) as nat);
                    }
                },
                ClassView::File { content, size } => {
                    lemma_file_contents(sorted, i, 0);
                    assert(sorted[i].kind is File);
                    assert(of_a_file(sorted, content as usize as int, size as u64 as int));
                },
                _ => {},
            }
        },
    }
}

proof fn lemma_attributes(is_dir: bool, mode: u16)
    ensures
        attributes_of(is_dir, mode).has(FileAttributes::DIRECTORY) == is_dir,
        attributes_of(is_dir, mode).word() & !FileAttributes::DEFINED == 0,
{
    broadcast use FileAttributes::lemma_of_word;

    assert(0x10u16 & 0x10 == 0x10 && (0x10u16 | 0x01) & 0x10 == 0x10 && 0x20u16 & 0x10 != 0x10
        && (0x20u16 | 0x01) & 0x10 != 0x10) by (bit_vector);
    assert(0x10u16 & !0x37u16 == 0 && (0x10u16 | 0x01) & !0x37u16 == 0 && 0x20u16 & !0x37u16 == 0
        && (0x20u16 | 0x01) & !0x37u16 == 0) by (bit_vector);
}

/// What an entry adds beside itself keeps the tree as one of the entries up to it.
proof fn lemma_node_step(
    built: Built,
    sorted: Seq<SourceView>,
    loss: LossPolicy,
    mapping: Seq<u16>,
    n: int,
)
    requires
        countable(sorted),
        0 <= n < sorted.len(),
        grown(built, sorted, mapping, n),
    ensures
        match node_step(built, sorted, sorted[n], loss) {
            Ok((after, node)) => {
                &&& grown(after, sorted, mapping, n + 1)
                &&& after.dirs.len() >= built.dirs.len()
                &&& match node {
                    Some(Node::Dir(k)) => built.dirs.len() <= k < after.dirs.len(),
                    Some(Node::File { content, size, .. }) => of_a_file(
                        sorted,
                        content as int,
                        size as int,
                    ),
                    None => true,
                }
            },
            Err(_) => true,
        },
{
    reveal(grown);
    let entry = sorted[n];
    match entry.kind {
        KindView::Directory => {
            let after = built.with_dir(key_of(entry.path), entry.path);
            assert forall|d: int, j: int|
                0 <= d < after.dirs.len() && 0 <= j < after.dirs[d].entries.len() implies entry_grown(
                sorted,
                mapping,
                after.dirs.len() as int,
                d,
                #[trigger] after.dirs[d].entries[j],
            ) by {
                assert(d < built.dirs.len());
                assert(after.dirs[d] == built.dirs[d]);
                assert(entry_grown(
                    sorted,
                    mapping,
                    built.dirs.len() as int,
                    d,
                    built.dirs[d].entries[j],
                ));
            }
            assert forall|d: int| 0 <= d < after.dirs.len() implies (#[trigger] after.taken[d]).len()
                == after.dirs[d].entries.len() by {
                if d < built.dirs.len() {
                    assert(after.taken[d] == built.taken[d]);
                }
            }
            assert forall|d: int, j: int|
                0 <= d < after.dirs.len() && 0 <= j < after.dirs[d].entries.len() implies (
            #[trigger] after.taken[d][j]).folded == folded_by(
                mapping,
                after.dirs[d].entries[j].units,
            ) by {
                assert(after.taken[d] == built.taken[d]);
                assert(built.taken[d][j].folded == folded_by(
                    mapping,
                    built.dirs[d].entries[j].units,
                ));
            }
            assert forall|d: int, i: int, j: int|
                0 <= d < after.dirs.len() && 0 <= i < j < after.taken[d].len() implies (
            #[trigger] after.taken[d][i]).folded != (#[trigger] after.taken[d][j]).folded by {
                assert(d < built.dirs.len());
                assert(after.taken[d] == built.taken[d]);
                assert(built.taken[d][i].folded != built.taken[d][j].folded);
            }
            assert(grown(after, sorted, mapping, n + 1));
        },
        KindView::File(content) => {
            lemma_file_contents(sorted, n, 0);
            assert(sorted[n].kind is File);
            let after = Built { contents: built.contents.push(content), ..built };
            assert(after.contents =~= file_contents(sorted, n + 1));
            assert(grown(after, sorted, mapping, n + 1));
        },
        KindView::HardLink(target) => {
            lemma_link_end(sorted, key_of(target), sorted.len());
        },
        KindView::Symlink(_) | KindView::Special => {},
    }
}

/// Placing an entry keeps the tree as one of the entries up to it.
proof fn lemma_entry_step(
    built: Built,
    sorted: Seq<SourceView>,
    parent: int,
    entry: SourceView,
    node: Node,
    loss: LossPolicy,
    mapping: Seq<u16>,
    n: int,
)
    requires
        grown(built, sorted, mapping, n),
        0 <= parent < built.dirs.len(),
        match node {
            Node::Dir(k) => parent < k < built.dirs.len(),
            Node::File { content, size, .. } => of_a_file(sorted, content as int, size as int),
        },
    ensures
        match entry_step(built, parent, entry, node, loss, mapping) {
            Ok(after) => grown(after, sorted, mapping, n),
            Err(_) => true,
        },
{
    reveal(grown);
    let name = name_of(key_of(entry.path));
    let folded = folded_by(mapping, name_units(name));
    match entry_step(built, parent, entry, node, loss, mapping) {
        Err(_) => {},
        Ok(after) => {
            lemma_taker(built.taken[parent], folded, 0);
            lemma_attributes(node is Dir, entry.meta.mode);
            lemma_stamp_round_trip(entry.meta.mtime);
            lemma_stamp_round_trip(entry.meta.atime);
            assert(name_units(name) == name_units(name));
            let placed = after.dirs[parent].entries.last();
            assert(held_name(placed.units));
            assert(after.dirs.len() == built.dirs.len());
            assert(entry_grown(sorted, mapping, after.dirs.len() as int, parent, placed));
            assert forall|d: int, j: int|
                0 <= d < after.dirs.len() && 0 <= j < after.dirs[d].entries.len() implies entry_grown(
                sorted,
                mapping,
                after.dirs.len() as int,
                d,
                #[trigger] after.dirs[d].entries[j],
            ) by {
                if d == parent && j == built.dirs[d].entries.len() {
                    assert(after.dirs[d].entries[j] == placed);
                } else {
                    assert(after.dirs[d].entries[j] == built.dirs[d].entries[j]);
                }
            }
            assert forall|d: int| 0 <= d < after.dirs.len() implies (#[trigger] after.taken[d]).len()
                == after.dirs[d].entries.len() by {
                assert(built.taken[d].len() == built.dirs[d].entries.len());
            }
            assert forall|d: int, j: int|
                0 <= d < after.dirs.len() && 0 <= j < after.dirs[d].entries.len() implies (
            #[trigger] after.taken[d][j]).folded == folded_by(
                mapping,
                after.dirs[d].entries[j].units,
            ) by {
                assert(built.taken[d].len() == built.dirs[d].entries.len());
                if d == parent && j == built.dirs[d].entries.len() {
                    assert(after.dirs[d].entries[j] == placed);
                } else {
                    assert(after.dirs[d].entries[j] == built.dirs[d].entries[j]);
                    assert(after.taken[d][j] == built.taken[d][j]);
                }
            }
            assert forall|d: int, i: int, j: int|
                0 <= d < after.dirs.len() && 0 <= i < j < after.taken[d].len() implies (
            #[trigger] after.taken[d][i]).folded != (#[trigger] after.taken[d][j]).folded by {
                assert(built.taken[d].len() == built.dirs[d].entries.len());
                assert(after.taken[d][i] == built.taken[d][i]);
                if d == parent && j == built.taken[d].len() {
                    assert(after.taken[d][j].folded == folded);
                } else {
                    assert(after.taken[d][j] == built.taken[d][j]);
                }
            }
        },
    }
}

/// The tree of the first entries is one.
proof fn lemma_placed_up_to(
    sorted: Seq<SourceView>,
    n: int,
    loss: LossPolicy,
    mapping: Seq<u16>,
)
    requires
        countable(sorted),
        0 <= n <= sorted.len(),
        forall|i: int| 0 <= i < sorted.len() ==> #[trigger] path_fault(sorted, i) is None,
    ensures
        match placed_up_to(sorted, n, loss, mapping) {
            Ok(built) => grown(built, sorted, mapping, n),
            Err(_) => true,
        },
    decreases n,
{
    if n == 0 {
        reveal(grown);
    } else {
        lemma_placed_up_to(sorted, n - 1, loss, mapping);
        match placed_up_to(sorted, n - 1, loss, mapping) {
            Err(_) => {},
            Ok(built) => {
                reveal(place_step);
                let entry = sorted[n - 1];
                let key = key_of(entry.path);
                lemma_index_of(built.keys, parent_of(key), 0);
                assert(path_fault(sorted, n - 1) is None);
                assert(built.keys.len() == built.dirs.len()) by {
                    reveal(grown);
                }
                if key.len() == 0 {
                    assert(grown(built, sorted, mapping, n)) by {
                        reveal(grown);
                    }
                } else if index_of(built.keys, parent_of(key), 0) is Some {
                    let parent = index_of(built.keys, parent_of(key), 0)->Some_0;
                    lemma_node_step(built, sorted, loss, mapping, n - 1);
                    match node_step(built, sorted, entry, loss) {
                        Ok((after, Some(node))) => {
                            lemma_entry_step(after, sorted, parent, entry, node, loss, mapping, n);
                        },
                        _ => {},
                    }
                }
            },
        }
    }
}

pub proof fn lemma_no_path_fault(sorted: Seq<SourceView>, from: int)
    requires
        0 <= from,
        first_path_fault(sorted, from) is None,
    ensures
        forall|i: int| from <= i < sorted.len() ==> #[trigger] path_fault(sorted, i) is None,
    decreases sorted.len() - from,
{
    if from < sorted.len() {
        lemma_no_path_fault(sorted, from + 1);
    }
}

/// Every tree a source gives is sound: whatever the order of the entries, their links and their
/// losses, each entry of the tree has a name the format holds, attributes it defines and times
/// an entry can hold, no two of a directory fold to one name, a directory comes behind the one
/// that names it, and a file is as long as its contents.
pub proof fn lemma_tree_is_sound(source: Seq<SourceView>, loss: LossPolicy, mapping: Seq<u16>)
    requires
        countable(source),
        tree_of(source, loss, mapping) is Ok,
    ensures
        tree_of(source, loss, mapping)->Ok_0.sound(mapping),
{
    let sorted = sorted_source(source);
    lemma_sorted_source(source);
    lemma_countable(source, sorted);
    lemma_no_path_fault(sorted, 0);
    lemma_placed_up_to(sorted, sorted.len() as int, loss, mapping);
    let built = placed_up_to(sorted, sorted.len() as int, loss, mapping)->Ok_0;
    let tree = built.tree();
    reveal(grown);
    assert forall|d: int, j: int|
        0 <= d < tree.dirs.len() && 0 <= j < tree.dirs[d].entries.len() implies tree.entry_sound(
        mapping,
        d,
        #[trigger] tree.dirs[d].entries[j],
    ) by {
        let entry = built.dirs[d].entries[j];
        assert(entry_grown(sorted, mapping, built.dirs.len() as int, d, entry));
        match entry.node {
            Node::File { content, size, .. } => {
                let i = choose|i: int|
                    0 <= i < sorted.len() && (#[trigger] sorted[i]).kind is File && content
                        == files_before(sorted, i) && size == sorted[i].kind->File_0.len();
                lemma_file_contents(sorted, sorted.len() as int, i);
            },
            _ => {},
        }
    }
    assert forall|d: int, i: int, j: int|
        0 <= d < tree.dirs.len() && 0 <= i < j < tree.dirs[d].entries.len() implies folded_by(
        mapping,
        (#[trigger] tree.dirs[d].entries[i]).units,
    ) != folded_by(mapping, (#[trigger] tree.dirs[d].entries[j]).units) by {
        assert(built.taken[d].len() == built.dirs[d].entries.len());
        assert(built.taken[d][i].folded != built.taken[d][j].folded);
    }
}

/// A source in another order is as countable.
pub proof fn lemma_countable(a: Seq<SourceView>, b: Seq<SourceView>)
    requires
        countable(a),
        a.to_multiset() == b.to_multiset(),
    ensures
        countable(b),
{
    broadcast use vstd::seq_lib::group_to_multiset_ensures;

    a.to_multiset_ensures();
    b.to_multiset_ensures();
    assert forall|i: int| 0 <= i < b.len() implies match (#[trigger] b[i]).kind {
        KindView::File(content) => content.len() <= u64::MAX,
        _ => true,
    } by {
        assert(b.contains(b[i]));
        assert(b.to_multiset().count(b[i]) > 0);
        assert(a.contains(b[i]));
        let k = choose|k: int| 0 <= k < a.len() && a[k] == b[i];
        assert(a[k].kind == b[i].kind);
    }
}

} // verus!
