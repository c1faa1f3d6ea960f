//! Where the entries of a source are in its tree.
use vstd::prelude::*;

use crate::fidelity::LossPolicy;
use crate::model::{EntryView, Node, TreeView};
use crate::name::{name_fault, name_units};
use crate::path::{ascends, key_of, name_of, parent_of};
use crate::place::{
    attributes_of, class_of, entry_at, entry_step, files_before, index_of, link_end, node_step,
    path_fault, place_step, placed_up_to, times_of_meta, tree_of, Built, LinkEnd,
};
use crate::sort::{lemma_contains_by_multiset, lemma_sorted_source, sorted_source};
use crate::soundness::{
    countable, file_contents, lemma_countable, lemma_file_contents, lemma_no_path_fault,
};
use crate::source::{KindView, SourceView};

verus! {

/// Whether an entry of directory `p` is where source entry `m` went.
pub open spec fn entry_built(
    keys: Seq<Seq<u8>>,
    sorted: Seq<SourceView>,
    p: int,
    entry: EntryView,
    m: int,
) -> bool {
    let source = sorted[m];
    let key = key_of(source.path);
    &&& key.len() > 0
    &&& keys[p] == parent_of(key)
    &&& name_fault(name_of(key)) is None
    &&& entry.units == name_units(name_of(key))
    &&& entry.attributes == attributes_of(entry.node is Dir, source.meta.mode)
    &&& entry.times == times_of_meta(source.meta)
    &&& match source.kind {
        KindView::Directory => entry.node matches Node::Dir(k) && 0 <= k < keys.len() && keys[k as int]
            == key,
        KindView::File(_) => entry.node matches Node::File { content, .. } && content
            == files_before(sorted, m) as usize,
        KindView::HardLink(target) => match link_end(sorted, key_of(target), sorted.len()) {
            LinkEnd::File { content: end, .. } => entry.node matches Node::File { content, .. }
                && content == end,
            _ => false,
        },
        KindView::Symlink(_) | KindView::Special => false,
    }
}

/// The contents of the file a path leads to in at most `steps` hard links.
pub open spec fn contents_at(sorted: Seq<SourceView>, key: Seq<u8>, steps: nat) -> Option<Seq<u8>>
    decreases steps,
{
    match entry_at(sorted, key, 0) {
        None => None,
        Some(i) => match sorted[i].kind {
            KindView::File(content) => Some(content),
            KindView::HardLink(next) => if steps == 0 {
                None
            } else {
                contents_at(sorted, key_of(next), (steps - 1) as nat)
            },
            _ => None,
        },
    }
}

/// The contents of the file an entry is, or is a second name of.
pub open spec fn contents_of(sorted: Seq<SourceView>, entry: SourceView) -> Option<Seq<u8>> {
    match entry.kind {
        KindView::File(content) => Some(content),
        KindView::HardLink(target) => contents_at(sorted, key_of(target), sorted.len()),
        _ => None,
    }
}

/// Whether an entry is of a directory other than the root or of a file.
pub open spec fn placeable(sorted: Seq<SourceView>, entry: SourceView) -> bool {
    key_of(entry.path).len() > 0 && (entry.kind is Directory || contents_of(sorted, entry) is Some)
}

/// Whether source entry `m` went to entry `j` of directory `p`.
spec fn went(built: Built, sorted: Seq<SourceView>, m: int, p: int, j: int) -> bool {
    &&& 0 <= p < built.dirs.len()
    &&& 0 <= j < built.dirs[p].entries.len()
    &&& entry_built(built.keys, sorted, p, built.dirs[p].entries[j], m)
}

/// Whether directory `d` is that of source entry `m`.
spec fn dir_from(built: Built, sorted: Seq<SourceView>, d: int, m: int) -> bool {
    &&& sorted[m].kind is Directory
    &&& key_of(sorted[m].path).len() > 0
    &&& built.keys[d] == key_of(sorted[m].path)
}

/// Whether directory `d` is that of one of the first `n` source entries.
spec fn has_dir(built: Built, sorted: Seq<SourceView>, n: int, d: int) -> bool {
    exists|m: int| 0 <= m < n && #[trigger] dir_from(built, sorted, d, m)
}

/// Whether source entry `m` went somewhere.
spec fn has_place(built: Built, sorted: Seq<SourceView>, m: int) -> bool {
    exists|p: int, j: int| #[trigger] went(built, sorted, m, p, j)
}

/// Whether entry `j` of directory `p` is where one of the first `n` source entries went.
spec fn has_source(built: Built, sorted: Seq<SourceView>, n: int, p: int, j: int) -> bool {
    exists|m: int| 0 <= m < n && #[trigger] went(built, sorted, m, p, j)
}

/// What the tree of the first `n` entries holds, the first `k` of them placed: each of those that
/// it can, and nothing else.
#[verifier::opaque]
spec fn filled(built: Built, sorted: Seq<SourceView>, n: int, k: int) -> bool {
    &&& 1 <= built.dirs.len() <= n + 1
    &&& built.keys.len() == built.dirs.len()
    &&& built.taken.len() == built.dirs.len()
    &&& built.keys[0] == Seq::<u8>::empty()
    &&& built.contents == file_contents(sorted, n)
    &&& forall|d: int|
        0 <= d < built.dirs.len() ==> key_of((#[trigger] built.dirs[d]).path) == built.keys[d]
    &&& forall|d: int| 1 <= d < built.dirs.len() ==> #[trigger] has_dir(built, sorted, n, d)
    &&& forall|d: int, e: int|
        0 <= d < e < built.dirs.len() ==> (#[trigger] built.keys[d]) != (#[trigger] built.keys[e])
    &&& forall|m: int|
        0 <= m < k && placeable(sorted, sorted[m]) ==> #[trigger] has_place(built, sorted, m)
    &&& forall|p: int, j: int|
        0 <= p < built.dirs.len() && 0 <= j < built.dirs[p].entries.len()
            ==> #[trigger] has_source(built, sorted, n, p, j)
}

/// Whether a tree has everything another has, where it has it.
spec fn extends(after: Built, built: Built) -> bool {
    &&& built.dirs.len() <= after.dirs.len()
    &&& built.keys.len() == built.dirs.len()
    &&& after.keys.len() == after.dirs.len()
    &&& forall|d: int| 0 <= d < built.dirs.len() ==> after.keys[d] == #[trigger] built.keys[d]
    &&& forall|d: int|
        0 <= d < built.dirs.len() ==> (#[trigger] after.dirs[d]).path == built.dirs[d].path
    &&& forall|d: int|
        0 <= d < built.dirs.len() ==> (#[trigger] built.dirs[d]).entries.len()
            <= after.dirs[d].entries.len()
    &&& forall|d: int, j: int|
        0 <= d < built.dirs.len() && 0 <= j < built.dirs[d].entries.len()
            ==> after.dirs[d].entries[j] == #[trigger] built.dirs[d].entries[j]
}

/// What went somewhere in a tree is there in one that extends it.
proof fn lemma_went(after: Built, built: Built, sorted: Seq<SourceView>, m: int, p: int, j: int)
    requires
        extends(after, built),
        went(built, sorted, m, p, j),
    ensures
        went(after, sorted, m, p, j),
{
    assert(after.dirs[p].entries[j] == built.dirs[p].entries[j]);
    assert(after.keys[p] == built.keys[p]);
    assert(built.dirs[p].entries.len() <= after.dirs[p].entries.len());
    match sorted[m].kind {
        KindView::Directory => {
            let k = built.dirs[p].entries[j].node->Dir_0 as int;
            assert(after.keys[k] == built.keys[k]);
        },
        _ => {},
    }
}

/// What a tree holds is held by one that extends it with what comes from the next source entry.
proof fn lemma_filled_extended(
    after: Built,
    built: Built,
    sorted: Seq<SourceView>,
    n: int,
    more: int,
    k: int,
)
    requires
        filled(built, sorted, n, k),
        extends(after, built),
        n <= more,
        0 <= k <= n,
        after.dirs.len() <= more + 1,
        after.taken.len() == after.dirs.len(),
        after.contents == file_contents(sorted, more),
        forall|d: int|
            built.dirs.len() <= d < after.dirs.len() ==> key_of((#[trigger] after.dirs[d]).path)
                == after.keys[d] && has_dir(after, sorted, more, d),
        forall|d: int, e: int|
            0 <= d < e < after.dirs.len() && built.dirs.len() <= e ==> (#[trigger] after.keys[d])
                != (#[trigger] after.keys[e]),
        forall|p: int, j: int|
            0 <= p < after.dirs.len() && 0 <= j < after.dirs[p].entries.len() && (p
                >= built.dirs.len() || j >= built.dirs[p].entries.len())
                ==> #[trigger] has_source(after, sorted, more, p, j),
    ensures
        filled(after, sorted, more, k),
{
    reveal(filled);
    assert(after.keys[0] == built.keys[0]);
    assert forall|d: int| 0 <= d < after.dirs.len() implies key_of((#[trigger] after.dirs[d]).path)
        == after.keys[d] by {
        if d < built.dirs.len() {
            assert(key_of(built.dirs[d].path) == built.keys[d]);
        }
    }
    assert forall|d: int| 1 <= d < after.dirs.len() implies #[trigger] has_dir(
        after,
        sorted,
        more,
        d,
    ) by {
        if d < built.dirs.len() {
            assert(has_dir(built, sorted, n, d));
            let m = choose|m: int| 0 <= m < n && #[trigger] dir_from(built, sorted, d, m);
            assert(after.keys[d] == built.keys[d]);
            assert(dir_from(after, sorted, d, m));
        } else {
            assert(key_of(after.dirs[d].path) == after.keys[d]);
        }
    }
    assert forall|d: int, e: int| 0 <= d < e < after.dirs.len() implies (#[trigger] after.keys[d])
        != (#[trigger] after.keys[e]) by {
        if e < built.dirs.len() {
            assert(built.keys[d] != built.keys[e]);
        }
    }
    assert forall|m: int| 0 <= m < k && placeable(sorted, sorted[m]) implies #[trigger] has_place(
        after,
        sorted,
        m,
    ) by {
        assert(has_place(built, sorted, m));
        let (p, j) = choose|p: int, j: int| #[trigger] went(built, sorted, m, p, j);
        lemma_went(after, built, sorted, m, p, j);
    }
    assert forall|p: int, j: int|
        0 <= p < after.dirs.len() && 0 <= j < after.dirs[p].entries.len() implies
        #[trigger] has_source(after, sorted, more, p, j) by {
        if p < built.dirs.len() && j < built.dirs[p].entries.len() {
            assert(has_source(built, sorted, n, p, j));
            let m = choose|m: int| 0 <= m < n && #[trigger] went(built, sorted, m, p, j);
            lemma_went(after, built, sorted, m, p, j);
        }
    }
}

proof fn lemma_index_of(keys: Seq<Seq<u8>>, key: Seq<u8>, from: int)
    requires
        0 <= from,
    ensures
        match index_of(keys, key, from) {
            Some(i) => from <= i < keys.len() && keys[i] == key,
            None => forall|i: int| from <= i < keys.len() ==> keys[i] != key,
        },
    decreases keys.len() - from,
{
    if from < keys.len() {
        lemma_index_of(keys, key, from + 1);
    }
}

proof fn lemma_entry_at_first(sorted: Seq<SourceView>, key: Seq<u8>, from: int, m: int)
    requires
        0 <= from <= m < sorted.len(),
        key_of(sorted[m].path) == key,
    ensures
        entry_at(sorted, key, from) is Some,
        entry_at(sorted, key, from)->Some_0 <= m,
    decreases m - from,
{
    if from < m {
        lemma_entry_at_first(sorted, key, from + 1, m);
    }
}

/// What an entry adds beside itself keeps what the tree holds.
proof fn lemma_node_step_filled(
    built: Built,
    sorted: Seq<SourceView>,
    loss: LossPolicy,
    n: int,
)
    requires
        0 <= n < sorted.len(),
        countable(sorted),
        filled(built, sorted, n, n),
        key_of(sorted[n].path).len() > 0,
        path_fault(sorted, n) is None,
    ensures
        match node_step(built, sorted, sorted[n], loss) {
            Ok((after, node)) => {
                &&& filled(after, sorted, n + 1, n)
                &&& after.dirs.len() >= built.dirs.len()
                &&& forall|d: int|
                    0 <= d < built.dirs.len() ==> after.keys[d] == #[trigger] built.keys[d]
                &&& node is None ==> !placeable(sorted, sorted[n])
                &&& match (sorted[n].kind, node) {
                    (KindView::Directory, Some(node)) => node matches Node::Dir(k) && 0 <= k
                        < after.keys.len() && after.keys[k as int] == key_of(sorted[n].path),
                    (KindView::File(_), Some(node)) => node matches Node::File { content, .. }
                        && content == files_before(sorted, n) as usize,
                    (KindView::HardLink(target), Some(node)) => match link_end(
                        sorted,
                        key_of(target),
                        sorted.len(),
                    ) {
                        LinkEnd::File { content: end, .. } => node matches Node::File {
                            content,
                            ..
                        } && content == end,
                        _ => false,
                    },
                    (KindView::Symlink(_) | KindView::Special, Some(_)) => false,
                    _ => true,
                }
            },
            Err(_) => true,
        },
{
    let entry = sorted[n];
    let key = key_of(entry.path);
    match node_step(built, sorted, entry, loss) {
        Err(_) => {},
        Ok((after, node)) => {
            lemma_file_contents(sorted, n, 0);
            assert(1 <= built.dirs.len() <= n + 1 && built.keys.len() == built.dirs.len()
                && built.taken.len() == built.dirs.len() && built.contents == file_contents(
                sorted,
                n,
            )) by {
                reveal(filled);
            }
            assert(after.contents =~= file_contents(sorted, n + 1));
            assert(extends(after, built));
            match entry.kind {
                KindView::HardLink(target) => {
                    lemma_link_contents(sorted, key_of(target), sorted.len());
                },
                _ => {},
            }
            if entry.kind is Directory {
                let new = built.dirs.len() as int;
                assert(dir_from(after, sorted, new, n));
                assert(has_dir(after, sorted, n + 1, new));
                assert forall|d: int, e: int|
                    0 <= d < e < after.dirs.len() && built.dirs.len() <= e implies (
                #[trigger] after.keys[d]) != (#[trigger] after.keys[e]) by {
                    reveal(filled);
                    assert(after.keys[d] == built.keys[d]);
                    if d >= 1 {
                        assert(has_dir(built, sorted, n, d));
                        let m = choose|m: int|
                            0 <= m < n && #[trigger] dir_from(built, sorted, d, m);
                        if built.keys[d] == key {
                            lemma_entry_at_first(sorted, key, 0, m);
                        }
                    }
                }
            }
            lemma_filled_extended(after, built, sorted, n, n + 1, n);
        },
    }
}

/// Placing an entry adds it to what the tree holds.
proof fn lemma_entry_step_filled(
    built: Built,
    sorted: Seq<SourceView>,
    parent: int,
    node: Node,
    loss: LossPolicy,
    mapping: Seq<u16>,
    n: int,
)
    requires
        0 <= n < sorted.len(),
        filled(built, sorted, n + 1, n),
        0 <= parent < built.dirs.len(),
        key_of(sorted[n].path).len() > 0,
        built.keys[parent] == parent_of(key_of(sorted[n].path)),
        match sorted[n].kind {
            KindView::Directory => node matches Node::Dir(k) && 0 <= k < built.keys.len()
                && built.keys[k as int] == key_of(sorted[n].path),
            KindView::File(_) => node matches Node::File { content, .. } && content
                == files_before(sorted, n) as usize,
            KindView::HardLink(target) => match link_end(sorted, key_of(target), sorted.len()) {
                LinkEnd::File { content: end, .. } => node matches Node::File { content, .. }
                    && content == end,
                _ => false,
            },
            KindView::Symlink(_) | KindView::Special => false,
        },
    ensures
        match entry_step(built, parent, sorted[n], node, loss, mapping) {
            Ok(after) => filled(after, sorted, n + 1, n + 1),
            Err(_) => true,
        },
{
    let entry = sorted[n];
    match entry_step(built, parent, entry, node, loss, mapping) {
        Err(_) => {},
        Ok(after) => {
            let count = built.dirs[parent].entries.len() as int;
            assert(1 <= built.dirs.len() <= n + 2 && built.keys.len() == built.dirs.len()
                && built.taken.len() == built.dirs.len() && built.contents == file_contents(
                sorted,
                n + 1,
            )) by {
                reveal(filled);
            }
            assert(after.keys == built.keys);
            assert(extends(after, built));
            assert(went(after, sorted, n, parent, count));
            assert(has_source(after, sorted, n + 1, parent, count));
            lemma_filled_extended(after, built, sorted, n + 1, n + 1, n);
            assert(has_place(after, sorted, n));
            reveal(filled);
        },
    }
}

/// Passing over the last of the first entries, which nothing is placed for, keeps what the tree
/// holds.
proof fn lemma_filled_past(built: Built, sorted: Seq<SourceView>, n: int)
    requires
        0 <= n < sorted.len(),
        filled(built, sorted, n + 1, n),
        !placeable(sorted, sorted[n]),
    ensures
        filled(built, sorted, n + 1, n + 1),
{
    reveal(filled);
}

/// The tree of the first entries holds each of them that it can, and nothing else.
proof fn lemma_placed_is_filled(
    sorted: Seq<SourceView>,
    n: int,
    loss: LossPolicy,
    mapping: Seq<u16>,
)
    requires
        0 <= n <= sorted.len(),
        countable(sorted),
        forall|i: int| 0 <= i < sorted.len() ==> #[trigger] path_fault(sorted, i) is None,
    ensures
        match placed_up_to(sorted, n, loss, mapping) {
            Ok(built) => filled(built, sorted, n, n),
            Err(_) => true,
        },
    decreases n,
{
    if n == 0 {
        reveal(filled);
        assert(key_of(seq![0x2Fu8]) =~= Seq::<u8>::empty()) by {
            lemma_root_key();
        }
    } else {
        lemma_placed_is_filled(sorted, n - 1, loss, mapping);
        match placed_up_to(sorted, n - 1, loss, mapping) {
            Err(_) => {},
            Ok(built) => {
                reveal(place_step);
                let entry = sorted[n - 1];
                let key = key_of(entry.path);
                lemma_index_of(built.keys, parent_of(key), 0);
                assert(path_fault(sorted, n - 1) is None);
                assert(built.keys.len() == built.dirs.len()) by {
                    reveal(filled);
                }
                if key.len() == 0 {
                    assert(filled(built, sorted, n, n)) by {
                        lemma_filled_unchanged(built, sorted, n - 1);
                    }
                } else if index_of(built.keys, parent_of(key), 0) is Some {
                    let parent = index_of(built.keys, parent_of(key), 0)->Some_0;
                    lemma_node_step_filled(built, sorted, loss, n - 1);
                    match node_step(built, sorted, entry, loss) {
                        Ok((after, Some(node))) => {
                            assert(after.keys[parent] == built.keys[parent]);
                            lemma_entry_step_filled(
                                after,
                                sorted,
                                parent,
                                node,
                                loss,
                                mapping,
                                n - 1,
                            );
                        },
                        Ok((after, None)) => {
                            lemma_filled_past(after, sorted, n - 1);
                        },
                        Err(_) => {},
                    }
                }
            },
        }
    }
}

/// An entry of the root adds nothing to what the tree holds.
proof fn lemma_filled_unchanged(built: Built, sorted: Seq<SourceView>, n: int)
    requires
        0 <= n < sorted.len(),
        filled(built, sorted, n, n),
        key_of(sorted[n].path).len() == 0,
        sorted[n].kind is Directory,
    ensures
        filled(built, sorted, n + 1, n + 1),
{
    assert(extends(built, built)) by {
        reveal(filled);
    }
    assert(built.dirs.len() <= n + 2 && built.taken.len() == built.dirs.len() && built.contents
        == file_contents(sorted, n + 1)) by {
        reveal(filled);
    }
    lemma_filled_extended(built, built, sorted, n, n + 1, n);
    lemma_filled_past(built, sorted, n);
}

/// The key of the root is empty.
proof fn lemma_root_key()
    ensures
        key_of(seq![0x2Fu8]) == Seq::<u8>::empty(),
{
    let path = seq![0x2Fu8];
    reveal_with_fuel(crate::path::components_of, 3);
    assert(path.subrange(0, 0) =~= Seq::<u8>::empty());
    assert(path.subrange(1, 1) =~= Seq::<u8>::empty());
    assert(crate::path::components_of(path) =~= Seq::<Seq<u8>>::empty());
}

/// Whether source entry `i` is entry `j` of directory `p`: there under its name, which the format
/// holds, with its attributes and its times, and a directory of its own key, or a file of its
/// contents.
pub open spec fn holds_at(
    tree: TreeView,
    source: Seq<SourceView>,
    i: int,
    p: int,
    j: int,
) -> bool {
    let key = key_of(source[i].path);
    let entry = tree.dirs[p].entries[j];
    &&& 0 <= p < tree.dirs.len()
    &&& 0 <= j < tree.dirs[p].entries.len()
    &&& key.len() > 0
    &&& key_of(tree.dirs[p].path) == parent_of(key)
    &&& name_fault(name_of(key)) is None
    &&& entry.units == name_units(name_of(key))
    &&& entry.attributes == attributes_of(entry.node is Dir, source[i].meta.mode)
    &&& entry.times == times_of_meta(source[i].meta)
    &&& match source[i].kind {
        KindView::Directory => entry.node matches Node::Dir(k) && 0 <= k < tree.dirs.len()
            && key_of(tree.dirs[k as int].path) == key,
        _ => entry.node matches Node::File { content, .. } && content < tree.contents.len()
            && contents_of(sorted_source(source), source[i]) == Some(
            tree.contents[content as int],
        ),
    }
}

/// Whether source entry `i` is in the tree.
pub open spec fn is_held(tree: TreeView, source: Seq<SourceView>, i: int) -> bool {
    exists|p: int, j: int| #[trigger] holds_at(tree, source, i, p, j)
}

/// Whether entry `j` of directory `p` is one of the source's.
pub open spec fn is_sourced(tree: TreeView, source: Seq<SourceView>, p: int, j: int) -> bool {
    exists|i: int| 0 <= i < source.len() && #[trigger] holds_at(tree, source, i, p, j)
}

/// Whether directory `d` is one of the source's.
pub open spec fn is_declared(tree: TreeView, source: Seq<SourceView>, d: int) -> bool {
    exists|i: int|
        0 <= i < source.len() && (#[trigger] source[i]).kind is Directory && key_of(
            source[i].path,
        ).len() > 0 && key_of(source[i].path) == key_of(tree.dirs[d].path)
}

/// Whether a tree holds a source: every directory and file of it, where its path says, and
/// nothing that is not in it. No path of the source ascends, no two directories have one key,
/// and the root's is empty.
#[verifier::opaque]
pub open spec fn holds_source(tree: TreeView, source: Seq<SourceView>) -> bool {
    &&& tree.dirs.len() > 0
    &&& key_of(tree.dirs[0].path).len() == 0
    &&& forall|i: int| 0 <= i < source.len() ==> !ascends((#[trigger] source[i]).path)
    &&& forall|d: int, e: int|
        0 <= d < e < tree.dirs.len() ==> key_of((#[trigger] tree.dirs[d]).path) != key_of(
            (#[trigger] tree.dirs[e]).path,
        )
    &&& forall|d: int| 1 <= d < tree.dirs.len() ==> #[trigger] is_declared(tree, source, d)
    &&& forall|i: int|
        0 <= i < source.len() && placeable(sorted_source(source), source[i]) ==> #[trigger] is_held(tree, source, i)
    &&& forall|p: int, j: int|
        0 <= p < tree.dirs.len() && 0 <= j < tree.dirs[p].entries.len()
            ==> #[trigger] is_sourced(tree, source, p, j)
}

/// The contents a link ends at are those of the file its path leads to.
proof fn lemma_link_contents(sorted: Seq<SourceView>, key: Seq<u8>, steps: nat)
    requires
        countable(sorted),
    ensures
        match link_end(sorted, key, steps) {
            LinkEnd::File { content, .. } => {
                let all = file_contents(sorted, sorted.len() as int);
                &&& content < all.len()
                &&& contents_at(sorted, key, steps) == Some(all[content as int])
            },
            _ => contents_at(sorted, key, steps) is None,
        },
    decreases steps,
{
    match entry_at(sorted, key, 0) {
        None => {},
        Some(i) => {
            lemma_entry_at_inside(sorted, key, 0);
            match sorted[i].kind {
                KindView::File(bytes) => {
                    lemma_file_contents(sorted, sorted.len() as int, i);
                    lemma_file_contents(sorted, i, 0);
                    assert(class_of(sorted, i) is File);
                },
                KindView::HardLink(next) => {
                    if steps > 0 {
                        lemma_link_contents(sorted, key_of(next), (steps - 1) as nat);
                    }
                },
                _ => {},
            }
        },
    }
}

proof fn lemma_entry_at_inside(sorted: Seq<SourceView>, key: Seq<u8>, from: int)
    requires
        0 <= from,
    ensures
        entry_at(sorted, key, from) is Some ==> from <= entry_at(sorted, key, from)->Some_0
            < sorted.len(),
    decreases sorted.len() - from,
{
    if from < sorted.len() {
        lemma_entry_at_inside(sorted, key, from + 1);
    }
}

/// Where a source entry went in the tree of all of them.
proof fn lemma_held_at(
    built: Built,
    sorted: Seq<SourceView>,
    source: Seq<SourceView>,
    m: int,
    i: int,
    p: int,
    j: int,
)
    requires
        countable(sorted),
        sorted == sorted_source(source),
        sorted.len() == source.len(),
        0 <= m < sorted.len(),
        0 <= i < source.len(),
        source[i] == sorted[m],
        filled(built, sorted, sorted.len() as int, sorted.len() as int),
        went(built, sorted, m, p, j),
    ensures
        holds_at(built.tree(), source, i, p, j),
{
    reveal(filled);
    let entry = built.dirs[p].entries[j];
    assert(key_of(built.dirs[p].path) == built.keys[p]);
    match sorted[m].kind {
        KindView::Directory => {
            let k = entry.node->Dir_0 as int;
            assert(key_of(built.dirs[k].path) == built.keys[k]);
        },
        KindView::File(_) => {
            lemma_file_contents(sorted, sorted.len() as int, m);
            lemma_file_contents(sorted, m, 0);
        },
        KindView::HardLink(target) => {
            lemma_link_contents(sorted, key_of(target), sorted.len());
        },
        KindView::Symlink(_) | KindView::Special => {},
    }
}

/// A tree holds its source: every directory and file of it, and every second name of a file, is
/// in the tree where its path says, under its name and with its attributes, its times and its
/// contents, and the tree has nothing else.
pub proof fn lemma_tree_holds_source(
    source: Seq<SourceView>,
    loss: LossPolicy,
    mapping: Seq<u16>,
)
    requires
        countable(source),
        tree_of(source, loss, mapping) is Ok,
    ensures
        holds_source(tree_of(source, loss, mapping)->Ok_0, source),
{
    let sorted = sorted_source(source);
    let count = sorted.len() as int;
    lemma_sorted_source(source);
    lemma_countable(source, sorted);
    lemma_no_path_fault(sorted, 0);
    lemma_placed_is_filled(sorted, count, loss, mapping);
    let built = placed_up_to(sorted, count, loss, mapping)->Ok_0;
    let tree = built.tree();
    reveal(holds_source);
    assert(filled(built, sorted, count, count));
    assert forall|i: int| 0 <= i < source.len() implies !ascends((#[trigger] source[i]).path) by {
        let m = lemma_contains_by_multiset(source, sorted, i);
        assert(path_fault(sorted, m) is None);
    }
    assert forall|i: int| 0 <= i < source.len() && placeable(sorted_source(source), source[i]) implies #[trigger] is_held(
        tree,
        source,
        i,
    ) by {
        reveal(filled);
        let m = lemma_contains_by_multiset(source, sorted, i);
        assert(has_place(built, sorted, m));
        let (p, j) = choose|p: int, j: int| #[trigger] went(built, sorted, m, p, j);
        lemma_held_at(built, sorted, source, m, i, p, j);
    }
    assert forall|p: int, j: int|
        0 <= p < tree.dirs.len() && 0 <= j < tree.dirs[p].entries.len() implies
        #[trigger] is_sourced(tree, source, p, j) by {
        reveal(filled);
        assert(has_source(built, sorted, count, p, j));
        let m = choose|m: int| 0 <= m < count && #[trigger] went(built, sorted, m, p, j);
        let i = lemma_contains_by_multiset(sorted, source, m);
        lemma_held_at(built, sorted, source, m, i, p, j);
    }
    assert forall|d: int| 1 <= d < tree.dirs.len() implies #[trigger] is_declared(
        tree,
        source,
        d,
    ) by {
        reveal(filled);
        assert(has_dir(built, sorted, count, d));
        let m = choose|m: int| 0 <= m < count && #[trigger] dir_from(built, sorted, d, m);
        let i = lemma_contains_by_multiset(sorted, source, m);
        assert(key_of(built.dirs[d].path) == built.keys[d]);
        assert(source[i] == sorted[m]);
    }
    assert forall|d: int, e: int| 0 <= d < e < tree.dirs.len() implies key_of(
        (#[trigger] tree.dirs[d]).path,
    ) != key_of((#[trigger] tree.dirs[e]).path) by {
        reveal(filled);
        assert(built.keys[d] != built.keys[e]);
        assert(key_of(built.dirs[d].path) == built.keys[d]);
        assert(key_of(built.dirs[e].path) == built.keys[e]);
    }
    assert(key_of(tree.dirs[0].path).len() == 0 && tree.dirs.len() > 0) by {
        reveal(filled);
        assert(key_of(built.dirs[0].path) == built.keys[0]);
    }
}

} // verus!
