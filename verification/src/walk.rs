//! Every name of a volume, in order.
use vstd::prelude::*;

use crate::bytes::push_all;
use crate::node::{named_views, Entry, Named, Node};
use crate::path::{
    before, is_before, lemma_before_total, lemma_before_transitive, SLASH,
};
use crate::policy::MAX_PATH;
use crate::read_error::ReadError;
use crate::reader::{name_cap, Reader};
use crate::slots::ClusterSet;

verus! {

/// A path of a volume, and what is at it.
#[derive(Clone, PartialEq, Eq, Debug)]
pub struct WalkEntry {
    /// The path.
    pub path: Vec<u8>,
    /// What is at it.
    pub node: Node,
}

/// A path of a volume, and what is at it.
pub struct Walked {
    /// The path.
    pub path: Seq<u8>,
    /// What is at it.
    pub node: Node,
}

impl View for WalkEntry {
    type V = Walked;

    open spec fn view(&self) -> Walked {
        Walked { path: self.path@, node: self.node }
    }
}

/// What each entry is.
pub open spec fn walked_views(entries: Seq<WalkEntry>) -> Seq<Walked> {
    Seq::new(entries.len(), |i: int| entries[i]@)
}

/// The first position from `from` on whose name does not come before `name`.
pub open spec fn name_place(sorted: Seq<Named>, name: Seq<u8>, from: int) -> int
    decreases sorted.len() - from,
{
    if from >= sorted.len() || !before(sorted[from].name, name) {
        from
    } else {
        name_place(sorted, name, from + 1)
    }
}

/// Entries by name, those of one name in the order they came in.
pub open spec fn by_name(entries: Seq<Named>) -> Seq<Named>
    decreases entries.len(),
{
    if entries.len() == 0 {
        Seq::empty()
    } else {
        let rest = by_name(entries.drop_first());
        rest.insert(name_place(rest, entries[0].name, 0), entries[0])
    }
}

/// Where a name is put is inside the names.
pub proof fn lemma_name_place(sorted: Seq<Named>, name: Seq<u8>, from: int)
    requires
        0 <= from <= sorted.len(),
    ensures
        from <= name_place(sorted, name, from) <= sorted.len(),
    decreases sorted.len() - from,
{
    if from < sorted.len() && before(sorted[from].name, name) {
        lemma_name_place(sorted, name, from + 1);
    }
}

/// Whether no name comes before that of an earlier entry.
pub open spec fn names_ascend(entries: Seq<Named>) -> bool {
    forall|i: int, j: int|
        0 <= i < j < entries.len() ==> !before(
            (#[trigger] entries[j]).name,
            (#[trigger] entries[i]).name,
        )
}

/// The names before the place of a name come before it, and those from there on do not.
proof fn lemma_name_place_splits(sorted: Seq<Named>, name: Seq<u8>, from: int)
    requires
        0 <= from <= sorted.len(),
        names_ascend(sorted),
    ensures
        forall|i: int|
            from <= i < name_place(sorted, name, from) ==> before(
                (#[trigger] sorted[i]).name,
                name,
            ),
        forall|i: int|
            name_place(sorted, name, from) <= i < sorted.len() ==> !before(
                (#[trigger] sorted[i]).name,
                name,
            ),
    decreases sorted.len() - from,
{
    if from < sorted.len() {
        if before(sorted[from].name, name) {
            lemma_name_place_splits(sorted, name, from + 1);
        } else {
            assert forall|i: int| from <= i < sorted.len() implies !before(
                (#[trigger] sorted[i]).name,
                name,
            ) by {
                let (a, b) = (sorted[i].name, sorted[from].name);
                if before(a, name) {
                    lemma_before_total(name, b);
                    if name != b {
                        lemma_before_transitive(a, name, b);
                    }
                    lemma_before_total(a, b);
                    assert(i != from);
                }
            }
        }
    }
}

/// Entries by name are in ascending order of their names.
pub proof fn lemma_by_name_ascends(entries: Seq<Named>)
    ensures
        names_ascend(by_name(entries)),
    decreases entries.len(),
{
    if entries.len() > 0 {
        let rest = by_name(entries.drop_first());
        let name = entries[0].name;
        let at = name_place(rest, name, 0);
        lemma_by_name_ascends(entries.drop_first());
        lemma_name_place(rest, name, 0);
        lemma_name_place_splits(rest, name, 0);
        let all = by_name(entries);
        assert(all == rest.insert(at, entries[0]));
        assert forall|i: int, j: int| 0 <= i < j < all.len() implies !before(
            (#[trigger] all[j]).name,
            (#[trigger] all[i]).name,
        ) by {
            let a = if i < at {
                i
            } else {
                i - 1
            };
            let b = if j < at {
                j
            } else {
                j - 1
            };
            if i != at && j != at {
                assert(all[i] == rest[a] && all[j] == rest[b]);
            } else if i == at {
                assert(all[j] == rest[b]);
            } else {
                assert(all[i] == rest[a]);
                lemma_before_total(rest[a].name, name);
            }
        }
    }
}

/// The path of a name in the directory at `prefix`.
pub open spec fn child_path(prefix: Seq<u8>, name: Seq<u8>) -> Seq<u8> {
    prefix + seq![SLASH] + name
}

/// The paths of the last `k` names of the directory at `prefix`, last first.
pub open spec fn last_first(prefix: Seq<u8>, sorted: Seq<Named>, k: int) -> Seq<Walked> {
    Seq::new(
        k as nat,
        |i: int|
            Walked {
                path: child_path(prefix, sorted[sorted.len() - 1 - i].name),
                node: sorted[sorted.len() - 1 - i].node,
            },
    )
}

/// What a walk does next.
pub enum WalkStep {
    /// It is over.
    End,
    /// It cannot go on.
    Fail(ReadError),
    /// It gives a path.
    Give {
        /// The path, and what is at it.
        entry: Walked,
        /// The paths still to come, the last of them first.
        pending: Seq<Walked>,
        /// The clusters the directories walked begin on.
        walked: Set<int>,
    },
}

/// A walk under way.
pub struct Walker {
    pending: Vec<WalkEntry>,
    walked: ClusterSet,
    given: usize,
}

impl Walker {
    /// The paths still to come, the last of them first.
    pub closed spec fn coming(&self) -> Seq<Walked> {
        walked_views(self.pending@)
    }

    /// The clusters the directories walked begin on.
    pub closed spec fn seen(&self) -> Set<int> {
        self.walked@
    }

    /// How many paths have been given.
    pub closed spec fn count(&self) -> int {
        self.given as int
    }

    /// Whether this is a walk of a volume.
    pub closed spec fn on(&self, reader: Reader<'_>) -> bool {
        &&& self.walked.wf()
        &&& self.walked.count() == reader.vol().layout.cluster_count
    }
}

/// Entries by name.
fn order_names(entries: Vec<Entry>) -> (sorted: Vec<Entry>)
    ensures
        named_views(sorted@) == by_name(named_views(entries@)),
{
    let ghost all = named_views(entries@);
    let mut left = entries;
    let mut sorted: Vec<Entry> = Vec::new();
    assert(all.skip(all.len() as int) =~= Seq::empty());
    assert(named_views(sorted@) =~= by_name(Seq::empty()));
    assert(all.take(all.len() as int) =~= all);
    while left.len() > 0
        invariant
            left@.len() <= all.len(),
            named_views(left@) == all.take(left@.len() as int),
            named_views(sorted@) == by_name(all.skip(left@.len() as int)),
        decreases left@.len(),
    {
        let ghost n = left@.len() - 1;
        let ghost was = left@;
        let ghost before_push = sorted@;
        let ghost rest = by_name(all.skip(n + 1));
        let entry = left.pop().unwrap();
        proof {
            assert(named_views(was)[n] == all.take(n + 1)[n]);
            assert(entry@ == all[n]);
            assert(all.skip(n).drop_first() =~= all.skip(n + 1));
            assert(all.skip(n)[0] == all[n]);
            assert forall|j: int| 0 <= j < n implies named_views(left@)[j] == all.take(n)[j] by {
                assert(named_views(was)[j] == all.take(n + 1)[j]);
            }
            assert(named_views(left@) =~= all.take(n));
        }
        let mut at: usize = 0;
        while at < sorted.len() && is_before(&sorted[at].name, &entry.name)
            invariant
                at <= sorted@.len(),
                sorted@ == before_push,
                named_views(sorted@) == rest,
                name_place(rest, entry.name@, 0) == name_place(rest, entry.name@, at as int),
            decreases sorted@.len() - at,
        {
            assert(rest[at as int] == sorted@[at as int]@);
            at += 1;
        }
        proof {
            if at < sorted@.len() {
                assert(rest[at as int] == sorted@[at as int]@);
            }
            assert(rest.len() == sorted@.len());
        }
        sorted.insert(at, entry);
        assert(named_views(sorted@) =~= rest.insert(at as int, entry@));
    }
    assert(all.skip(0) =~= all);
    sorted
}

impl<'a> Reader<'a> {
    /// The paths of the names of a directory, last first, or why they cannot be given.
    pub open spec fn children(&self, node: Node, prefix: Seq<u8>) -> Result<Seq<Walked>, ReadError> {
        match self.listing(node) {
            Err(e) => Err(e),
            Ok(entries) => {
                let sorted = by_name(entries);
                if exists|i: int|
                    0 <= i < sorted.len() && child_path(
                        prefix,
                        (#[trigger] sorted[i]).name,
                    ).len() > MAX_PATH {
                    Err(ReadError::PathTooLong { limit: MAX_PATH })
                } else {
                    Ok(last_first(prefix, sorted, sorted.len() as int))
                }
            },
        }
    }

    /// Whether a directory is one the walk has not been in: it begins on a cluster of the
    /// volume that no directory walked begins on, or on none of the volume's.
    pub open spec fn unwalked(&self, node: Node, walked: Set<int>) -> bool {
        &&& node.directory()
        &&& node.storage.first() is Some
        &&& !walked.contains(node.storage.first()->Some_0 as int)
    }

    /// The clusters directories walked begin on, with one more directory walked.
    pub open spec fn with_walked(&self, node: Node, walked: Set<int>) -> Set<int> {
        let first = node.storage.first()->Some_0 as int;
        if self.vol().layout.has_cluster(first) {
            walked.insert(first)
        } else {
            walked
        }
    }

    /// The next path of a walk that has given `given` of them, the last of `pending` first.
    pub open spec fn walk_step(&self, pending: Seq<Walked>, walked: Set<int>, given: int) -> WalkStep {
        let cap = name_cap(self.taken_on(), self.vol().layout);
        if pending.len() == 0 {
            WalkStep::End
        } else if given >= cap {
            WalkStep::Fail(ReadError::WalkTooLarge { limit: cap as usize })
        } else {
            let entry = pending.last();
            let rest = pending.drop_last();
            if self.unwalked(entry.node, walked) {
                match self.children(entry.node, entry.path) {
                    Err(e) => WalkStep::Fail(e),
                    Ok(children) => WalkStep::Give {
                        entry,
                        pending: rest + children,
                        walked: self.with_walked(entry.node, walked),
                    },
                }
            } else {
                WalkStep::Give { entry, pending: rest, walked }
            }
        }
    }

    /// The walk from where the paths in `pending` are still to come, the last of them first.
    pub open spec fn walk_from(
        &self,
        pending: Seq<Walked>,
        walked: Set<int>,
        out: Seq<Walked>,
    ) -> Result<Seq<Walked>, ReadError>
        decreases name_cap(self.taken_on(), self.vol().layout) - out.len(),
    {
        match self.walk_step(pending, walked, out.len() as int) {
            WalkStep::End => Ok(out),
            WalkStep::Fail(e) => Err(e),
            WalkStep::Give { entry, pending, walked } => self.walk_from(
                pending,
                walked,
                out.push(entry),
            ),
        }
    }

    /// Every path of the volume: a directory before what is in it, and the names of a directory
    /// in order. A directory that was walked is not walked again.
    pub open spec fn walked(&self) -> Result<Seq<Walked>, ReadError> {
        let root = self.root_node();
        match self.children(root, Seq::empty()) {
            Err(e) => Err(e),
            Ok(children) => self.walk_from(
                children,
                self.with_walked(root, Set::empty()),
                Seq::empty(),
            ),
        }
    }

    /// Add the paths of the names of a directory, last first.
    fn push_children(&self, node: &Node, prefix: &[u8], pending: &mut Vec<WalkEntry>) -> (r: Result<
        (),
        ReadError,
    >)
        requires
            self.wf(),
            node.directory(),
        ensures
            match self.children(*node, prefix@) {
                Err(e) => r == Err::<(), ReadError>(e),
                Ok(children) => {
                    &&& r is Ok
                    &&& walked_views(final(pending)@) == walked_views(old(pending)@) + children
                },
            },
    {
        let entries = self.read_dir(node)?;
        let ghost listed = named_views(entries@);
        let mut sorted = order_names(entries);
        let ghost all = by_name(listed);
        let ghost total = all.len();
        let ghost start = walked_views(pending@);
        assert(all.take(total as int) =~= all);
        while sorted.len() > 0
            invariant
                sorted@.len() <= total,
                total == all.len(),
                named_views(sorted@) == all.take(sorted@.len() as int),
                self.listing(*node) == Ok::<Seq<Named>, ReadError>(listed),
                all == by_name(listed),
                forall|i: int|
                    sorted@.len() <= i < total ==> child_path(
                        prefix@,
                        (#[trigger] all[i]).name,
                    ).len() <= MAX_PATH,
                walked_views(pending@) == start + last_first(prefix@, all, total - sorted@.len()),
            decreases sorted@.len(),
        {
            let ghost n = sorted@.len() - 1;
            let ghost was = sorted@;
            let ghost had = pending@;
            let entry = sorted.pop().unwrap();
            proof {
                assert(named_views(was)[n] == all.take(n + 1)[n]);
                assert(entry@ == all[n]);
                assert forall|j: int| 0 <= j < n implies named_views(sorted@)[j]
                    == all.take(n)[j] by {
                    assert(named_views(was)[j] == all.take(n + 1)[j]);
                }
                assert(named_views(sorted@) =~= all.take(n));
            }
            let long: bool = prefix.len() > MAX_PATH || entry.name.len() > MAX_PATH || prefix.len()
                + 1 + entry.name.len() > MAX_PATH;
            if long {
                assert(child_path(prefix@, all[n].name).len() > MAX_PATH);
                return Err(ReadError::PathTooLong { limit: MAX_PATH });
            }
            let mut path: Vec<u8> = Vec::new();
            push_all(&mut path, prefix);
            path.push(SLASH);
            push_all(&mut path, &entry.name);
            assert(path@ =~= child_path(prefix@, all[n].name));
            pending.push(WalkEntry { path, node: entry.node });
            proof {
                let item = pending@.last()@;
                assert(walked_views(pending@) =~= walked_views(had).push(item));
                assert(last_first(prefix@, all, total - n) =~= last_first(
                    prefix@,
                    all,
                    total - n - 1,
                ).push(item));
                assert(walked_views(pending@) =~= start + last_first(prefix@, all, total - n));
            }
        }
        assert(walked_views(pending@) =~= start + self.children(*node, prefix@)->Ok_0);
        Ok(())
    }

    /// A walk of the volume, of which nothing has been given.
    pub fn walker(&self) -> (r: Result<Walker, ReadError>)
        requires
            self.wf(),
        ensures
            match self.children(self.root_node(), Seq::empty()) {
                Err(e) => r == Err::<Walker, ReadError>(e),
                Ok(children) => {
                    &&& r is Ok
                    &&& r->Ok_0.on(*self)
                    &&& r->Ok_0.coming() == children
                    &&& r->Ok_0.seen() == self.with_walked(self.root_node(), Set::empty())
                    &&& r->Ok_0.count() == 0
                },
            },
    {
        broadcast use crate::dirent::FileAttributes::lemma_of_word;

        let root = self.root();
        proof {
            assert(0x10u16 & 0x10 == 0x10) by (bit_vector);
            self.lemma_sound();
        }
        let mut pending: Vec<WalkEntry> = Vec::new();
        let empty: Vec<u8> = Vec::new();
        assert(walked_views(pending@) =~= Seq::empty());
        assert(empty@ =~= Seq::empty());
        self.push_children(&root, &empty, &mut pending)?;
        proof {
            let children = self.children(root, Seq::empty())->Ok_0;
            assert(Seq::<Walked>::empty() + children =~= children);
        }
        let mut walked = ClusterSet::new(self.layout().cluster_count);
        walked.insert(self.layout().first_cluster_of_root);
        Ok(Walker { pending, walked, given: 0 })
    }

    /// The next path of a walk, or nothing where it is over.
    pub fn walk_next(&self, walker: &mut Walker) -> (r: Result<Option<WalkEntry>, ReadError>)
        requires
            self.wf(),
            old(walker).on(*self),
        ensures
            match self.walk_step(old(walker).coming(), old(walker).seen(), old(walker).count()) {
                WalkStep::End => r == Ok::<Option<WalkEntry>, ReadError>(None),
                WalkStep::Fail(e) => r == Err::<Option<WalkEntry>, ReadError>(e),
                WalkStep::Give { entry, pending, walked } => {
                    &&& r is Ok
                    &&& r->Ok_0 is Some
                    &&& r->Ok_0->Some_0@ == entry
                    &&& final(walker).on(*self)
                    &&& final(walker).coming() == pending
                    &&& final(walker).seen() == walked
                    &&& final(walker).count() == old(walker).count() + 1
                },
            },
    {
        let cap: usize = self.cap();
        let ghost was = walker.coming();
        let ghost seen = walker.seen();
        if walker.pending.len() == 0 {
            return Ok(None);
        }
        if walker.given >= cap {
            return Err(ReadError::WalkTooLarge { limit: cap });
        }
        let entry = walker.pending.pop().unwrap();
        assert(walked_views(walker.pending@) =~= was.drop_last());
        assert(entry@ == was.last());
        let descend: bool = if !entry.node.is_dir() {
            false
        } else {
            match entry.node.storage.first_cluster() {
                None => false,
                Some(first) => walker.walked.insert(first),
            }
        };
        assert(descend == self.unwalked(entry.node, seen));
        if descend {
            assert(walker.walked@ == self.with_walked(entry.node, seen));
            self.push_children(&entry.node, &entry.path, &mut walker.pending)?;
        } else {
            assert(walker.walked@ =~= seen);
        }
        walker.given = walker.given + 1;
        Ok(Some(entry))
    }

    /// Every path of the volume.
    pub fn walk(&self) -> (r: Result<Vec<WalkEntry>, ReadError>)
        requires
            self.wf(),
        ensures
            match self.walked() {
                Err(e) => r == Err::<Vec<WalkEntry>, ReadError>(e),
                Ok(entries) => r is Ok && walked_views(r->Ok_0@) == entries,
            },
    {
        let mut walker = self.walker()?;
        let mut out: Vec<WalkEntry> = Vec::new();
        let mut more: bool = true;
        assert(walked_views(out@) =~= Seq::empty());
        while more
            invariant
                self.wf(),
                more ==> {
                    &&& walker.on(*self)
                    &&& walker.count() == out@.len()
                    &&& self.walked() == self.walk_from(
                        walker.coming(),
                        walker.seen(),
                        walked_views(out@),
                    )
                },
                !more ==> self.walked() == Ok::<Seq<Walked>, ReadError>(walked_views(out@)),
                out@.len() <= name_cap(self.taken_on(), self.vol().layout),
            decreases
                name_cap(self.taken_on(), self.vol().layout) - out@.len(),
                (if more { 1int } else { 0int }),
        {
            let ghost had = walked_views(out@);
            match self.walk_next(&mut walker)? {
                None => {
                    more = false;
                },
                Some(entry) => {
                    out.push(entry);
                    assert(walked_views(out@) =~= had.push(entry@));
                },
            }
        }
        Ok(out)
    }
}

/// The path of a name in the directory given at `t`, or in the root directory where `t` is
/// below zero.
pub open spec fn path_under(out: Seq<Walked>, t: int, name: Seq<u8>) -> Seq<u8> {
    child_path(
        if t < 0 {
            Seq::empty()
        } else {
            out[t].path
        },
        name,
    )
}

/// Whether a path is that of a name of the root directory, or of a directory that is one of the
/// first `n` given.
pub open spec fn has_parent(out: Seq<Walked>, n: int, path: Seq<u8>) -> bool {
    exists|t: int, name: Seq<u8>|
        t < n && (t >= 0 ==> out[t].node.directory()) && path == #[trigger] path_under(
            out,
            t,
            name,
        )
}

/// A path that has its parent has it still when more is given.
proof fn lemma_parent_stays(out: Seq<Walked>, n: int, path: Seq<u8>, entry: Walked)
    requires
        n <= out.len(),
        has_parent(out, n, path),
    ensures
        has_parent(out.push(entry), n, path),
{
    let (t, name) = choose|t: int, name: Seq<u8>|
        t < n && (t >= 0 ==> out[t].node.directory()) && path == #[trigger] path_under(
            out,
            t,
            name,
        );
    assert(path_under(out.push(entry), t, name) == path);
}

impl<'a> Reader<'a> {
    /// A walk under way keeps giving a directory before what is in it.
    proof fn lemma_parents_come_before(
        &self,
        pending: Seq<Walked>,
        walked: Set<int>,
        out: Seq<Walked>,
    )
        requires
            forall|i: int|
                0 <= i < pending.len() ==> has_parent(
                    out,
                    out.len() as int,
                    (#[trigger] pending[i]).path,
                ),
            forall|i: int| 0 <= i < out.len() ==> has_parent(out, i, (#[trigger] out[i]).path),
        ensures
            self.walk_from(pending, walked, out) matches Ok(all) ==> forall|i: int|
                0 <= i < all.len() ==> has_parent(all, i, (#[trigger] all[i]).path),
        decreases name_cap(self.taken_on(), self.vol().layout) - out.len(),
    {
        match self.walk_step(pending, walked, out.len() as int) {
            WalkStep::Give { entry, pending: coming, walked: seen } => {
                let n = out.len() as int;
                let rest = pending.drop_last();
                let more = out.push(entry);
                assert(entry == pending[pending.len() - 1]);
                assert forall|i: int| 0 <= i < more.len() implies has_parent(
                    more,
                    i,
                    (#[trigger] more[i]).path,
                ) by {
                    if i < n {
                        assert(more[i] == out[i]);
                    }
                    lemma_parent_stays(out, i, more[i].path, entry);
                }
                assert forall|i: int| 0 <= i < coming.len() implies has_parent(
                    more,
                    n + 1,
                    (#[trigger] coming[i]).path,
                ) by {
                    if i < rest.len() {
                        assert(coming[i] == pending[i]);
                        lemma_parent_stays(out, n, coming[i].path, entry);
                        let (t, name) = choose|t: int, name: Seq<u8>|
                            t < n && (t >= 0 ==> more[t].node.directory()) && coming[i].path
                                == #[trigger] path_under(more, t, name);
                        assert(path_under(more, t, name) == coming[i].path);
                    } else {
                        let entries = self.listing(entry.node)->Ok_0;
                        let sorted = by_name(entries);
                        let k = i - rest.len();
                        let name = sorted[sorted.len() - 1 - k].name;
                        assert(coming[i].path == path_under(more, n, name));
                    }
                }
                self.lemma_parents_come_before(coming, seen, more);
            },
            _ => {},
        }
    }

    /// A walk gives a directory before what is in it, whatever volume it is of.
    pub proof fn lemma_walk_gives_parents_first(&self)
        ensures
            self.walked() matches Ok(all) ==> forall|i: int|
                0 <= i < all.len() ==> has_parent(all, i, (#[trigger] all[i]).path),
    {
        let root = self.root_node();
        let none = Seq::<Walked>::empty();
        match self.children(root, Seq::empty()) {
            Ok(children) => {
                let sorted = by_name(self.listing(root)->Ok_0);
                assert forall|i: int| 0 <= i < children.len() implies has_parent(
                    none,
                    0,
                    (#[trigger] children[i]).path,
                ) by {
                    let name = sorted[sorted.len() - 1 - i].name;
                    assert(children[i].path == path_under(none, -1, name));
                }
                self.lemma_parents_come_before(
                    children,
                    self.with_walked(root, Set::empty()),
                    none,
                );
            },
            Err(_) => {},
        }
    }
}

} // verus!
