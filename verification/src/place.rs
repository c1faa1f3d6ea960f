//! Placing the entries of a source in the directories of a tree.
use vstd::prelude::*;

use crate::bytes::{copy_of, same_bytes, same_units};
use crate::csum::hash_of;
use crate::dirent::FileAttributes;
use crate::fidelity::{
    dropped, first_refused, is_read_only, lemma_which_modes_are_read_only, uncarried, Direction, FidelityReport, LossPolicy,
    LossView, Property, WRITE_BITS,
};
use crate::model::{
    dir_views, entry_views, ClusterRun, DirView, EntryTimes, EntryView, ModelConfig, ModelDir,
    ModelEntry, ModelError, ModelFault, Node, PlacedTree, TimeField, TreeView,
};
use crate::name::{folded_by, name_fault, name_units, place, PlacedName};
use crate::path::{ascends, canonical_key, has_ascent, key_of, name_of, parent_of, split_key, views};
use crate::sort::{keyed_views, keys_match, sort_entries, sorted_source, Keyed};
use crate::soundness::{countable, lemma_tree_is_sound};
use crate::source::{source_views, EntryKind, KindView, Metadata, SourceEntry, SourceView, Xattr};
use crate::time::{lemma_stamp_round_trip, stamp_of, DosTimestamp, Timestamp};

verus! {

/// What a path holds.
pub enum Class {
    /// A directory.
    Dir,
    /// A file: which contents it has, and how long it is.
    File {
        /// Which contents it has.
        content: usize,
        /// How long it is.
        size: u64,
    },
    /// A second name for the entry of this key.
    Link(Vec<u8>),
    /// Something the format has no entry for.
    Unrepresentable,
}

/// What a path holds.
pub enum ClassView {
    /// A directory.
    Dir,
    /// A file: which contents it has, and how long it is.
    File { content: int, size: int },
    /// A second name for the entry of this key.
    Link(Seq<u8>),
    /// Something the format has no entry for.
    Unrepresentable,
}

impl View for Class {
    type V = ClassView;

    open spec fn view(&self) -> ClassView {
        match *self {
            Class::Dir => ClassView::Dir,
            Class::File { content, size } => ClassView::File {
                content: content as int,
                size: size as int,
            },
            Class::Link(key) => ClassView::Link(key@),
            Class::Unrepresentable => ClassView::Unrepresentable,
        }
    }
}

/// How many of the first `n` entries are files.
pub open spec fn files_before(sorted: Seq<SourceView>, n: int) -> int
    decreases n,
{
    if n <= 0 {
        0
    } else {
        files_before(sorted, n - 1) + if sorted[n - 1].kind is File {
            1int
        } else {
            0int
        }
    }
}

/// What the path of entry `i` holds.
pub open spec fn class_of(sorted: Seq<SourceView>, i: int) -> ClassView {
    match sorted[i].kind {
        KindView::Directory => ClassView::Dir,
        KindView::File(content) => ClassView::File {
            content: files_before(sorted, i),
            size: content.len() as int,
        },
        KindView::HardLink(target) => ClassView::Link(key_of(target)),
        KindView::Symlink(_) | KindView::Special => ClassView::Unrepresentable,
    }
}

/// The first entry from `from` on whose key is `key`.
pub open spec fn entry_at(sorted: Seq<SourceView>, key: Seq<u8>, from: int) -> Option<int>
    decreases sorted.len() - from,
{
    if from >= sorted.len() {
        None
    } else if key_of(sorted[from].path) == key {
        Some(from)
    } else {
        entry_at(sorted, key, from + 1)
    }
}

/// What is wrong with the path of entry `i`, whatever volume it is for.
pub open spec fn path_fault(sorted: Seq<SourceView>, i: int) -> Option<ModelFault> {
    let entry = sorted[i];
    let key = key_of(entry.path);
    if ascends(entry.path) {
        Some(ModelFault::InvalidComponent { path: entry.path })
    } else if key.len() == 0 && !(entry.kind is Directory) {
        Some(ModelFault::RootNotDirectory { path: entry.path })
    } else if entry_at(sorted, key, 0) != Some(i) {
        Some(ModelFault::Duplicate { path: entry.path })
    } else {
        None
    }
}

/// What is wrong with the path of the first entry from `from` on that has a faulty one.
pub open spec fn first_path_fault(sorted: Seq<SourceView>, from: int) -> Option<ModelFault>
    decreases sorted.len() - from,
{
    if from >= sorted.len() {
        None
    } else if path_fault(sorted, from) is Some {
        path_fault(sorted, from)
    } else {
        first_path_fault(sorted, from + 1)
    }
}

/// Where a hard link leads.
pub enum LinkEnd {
    /// A file: which contents it has, and how long it is.
    File {
        /// Which contents it has.
        content: usize,
        /// How long it is.
        size: u64,
    },
    /// A directory.
    Directory,
    /// Something the format has no entry for.
    Unrepresentable,
    /// Nothing.
    Missing,
    /// Back to itself.
    Cycle,
}

/// Where a hard link to `key` leads in at most `steps` further links.
pub open spec fn link_end(sorted: Seq<SourceView>, key: Seq<u8>, steps: nat) -> LinkEnd
    decreases steps,
{
    match entry_at(sorted, key, 0) {
        None => LinkEnd::Missing,
        Some(i) => match class_of(sorted, i) {
            ClassView::Dir => LinkEnd::Directory,
            ClassView::File { content, size } => LinkEnd::File {
                content: content as usize,
                size: size as u64,
            },
            ClassView::Unrepresentable => LinkEnd::Unrepresentable,
            ClassView::Link(next) => if steps == 0 {
                LinkEnd::Cycle
            } else {
                link_end(sorted, next, (steps - 1) as nat)
            },
        },
    }
}

/// A name a directory has taken.
pub struct Taken {
    /// The folded units of the name.
    pub folded: Vec<u16>,
    /// The entry that took it.
    pub path: Vec<u8>,
}

/// A name a directory has taken.
pub struct TakenView {
    /// The folded units of the name.
    pub folded: Seq<u16>,
    /// The entry that took it.
    pub path: Seq<u8>,
}

/// The names a directory has taken.
pub open spec fn taken_views(taken: Seq<Taken>) -> Seq<TakenView> {
    Seq::new(taken.len(), |i: int| TakenView { folded: taken[i].folded@, path: taken[i].path@ })
}

/// The names every directory has taken.
pub open spec fn all_taken(taken: Seq<Vec<Taken>>) -> Seq<Seq<TakenView>> {
    Seq::new(taken.len(), |i: int| taken_views(taken[i]@))
}

/// The entry that took a name, where one has.
pub open spec fn taker(taken: Seq<TakenView>, folded: Seq<u16>, from: int) -> Option<Seq<u8>>
    decreases taken.len() - from,
{
    if from >= taken.len() {
        None
    } else if taken[from].folded == folded {
        Some(taken[from].path)
    } else {
        taker(taken, folded, from + 1)
    }
}

/// The first of `keys` from `from` on that is `key`.
pub open spec fn index_of(keys: Seq<Seq<u8>>, key: Seq<u8>, from: int) -> Option<int>
    decreases keys.len() - from,
{
    if from >= keys.len() {
        None
    } else if keys[from] == key {
        Some(from)
    } else {
        index_of(keys, key, from + 1)
    }
}

/// A tree under construction.
pub struct Built {
    /// The directories so far.
    pub dirs: Seq<DirView>,
    /// The key of each directory.
    pub keys: Seq<Seq<u8>>,
    /// The names each directory has taken.
    pub taken: Seq<Seq<TakenView>>,
    /// The contents of the files so far.
    pub contents: Seq<Seq<u8>>,
    /// What the format does not carry, so far.
    pub losses: Seq<LossView>,
}

impl Built {
    /// The tree of no entries: an empty root.
    pub open spec fn empty() -> Self {
        Built {
            dirs: seq![
                DirView { entries: Seq::empty(), run: ClusterRun::none(), path: seq![0x2Fu8] },
            ],
            keys: seq![Seq::empty()],
            taken: seq![Seq::empty()],
            contents: Seq::empty(),
            losses: Seq::empty(),
        }
    }

    /// The tree with one more loss.
    pub open spec fn losing(self, path: Seq<u8>, property: Property) -> Self {
        Built {
            losses: self.losses.push(
                LossView { direction: Direction::Dropped, path, property },
            ),
            ..self
        }
    }

    /// The tree with one more directory.
    pub open spec fn with_dir(self, key: Seq<u8>, path: Seq<u8>) -> Self {
        Built {
            dirs: self.dirs.push(
                DirView { entries: Seq::empty(), run: ClusterRun::none(), path },
            ),
            keys: self.keys.push(key),
            taken: self.taken.push(Seq::empty()),
            ..self
        }
    }

    /// The tree with one more entry in directory `parent`.
    pub open spec fn with_entry(self, parent: int, entry: EntryView, taken: TakenView) -> Self {
        Built {
            dirs: self.dirs.update(
                parent,
                DirView { entries: self.dirs[parent].entries.push(entry), ..self.dirs[parent] },
            ),
            taken: self.taken.update(parent, self.taken[parent].push(taken)),
            ..self
        }
    }

    /// The tree this is, once every entry is placed.
    pub open spec fn tree(self) -> TreeView {
        TreeView { dirs: self.dirs, contents: self.contents, losses: self.losses }
    }
}

/// Whether an instant is one an entry can hold.
pub open spec fn time_held(time: Timestamp) -> bool {
    DosTimestamp::SECS_MIN <= time.secs <= DosTimestamp::SECS_MAX
}

/// The refusal of an instant no entry can hold.
pub open spec fn time_fault(path: Seq<u8>, field: TimeField, time: Timestamp) -> ModelFault {
    ModelFault::TimeOutOfRange {
        path,
        field,
        secs: time.secs,
        min: DosTimestamp::SECS_MIN,
        max: DosTimestamp::SECS_MAX,
    }
}

/// The times an entry records: the modification time twice, as no source has a creation time,
/// and the access time without the hundredths it has no field for.
pub open spec fn times_of_meta(meta: Metadata) -> EntryTimes {
    let modify = stamp_of(meta.mtime);
    EntryTimes {
        create: modify,
        modify,
        access: DosTimestamp { tenth: 0, ..stamp_of(meta.atime) },
    }
}

/// Whether the times an entry records are the source's exactly.
pub open spec fn times_exact(meta: Metadata) -> bool {
    meta.mtime.nanos % 10_000_000 == 0 && meta.atime.secs % 2 == 0 && meta.atime.nanos == 0
}

/// The attributes an entry records.
pub open spec fn attributes_of(is_dir: bool, mode: u16) -> FileAttributes {
    let base = if is_dir {
        FileAttributes::DIRECTORY
    } else {
        FileAttributes::ARCHIVE
    };
    if is_read_only(mode) {
        FileAttributes::of(base | FileAttributes::READ_ONLY)
    } else {
        FileAttributes::of(base)
    }
}

/// What becomes of an entry: the tree with what the entry adds to it beside itself, and what
/// the entry is of, or nothing where the format has no entry for it.
pub open spec fn node_step(
    built: Built,
    sorted: Seq<SourceView>,
    entry: SourceView,
    loss: LossPolicy,
) -> Result<(Built, Option<Node>), ModelFault> {
    let refused = ModelFault::LossNotAccepted { path: entry.path, property: Property::Kind };
    match entry.kind {
        KindView::Directory => Ok(
            (
                built.with_dir(key_of(entry.path), entry.path),
                Some(Node::Dir(built.dirs.len() as usize)),
            ),
        ),
        KindView::File(content) => Ok(
            (
                Built { contents: built.contents.push(content), ..built },
                Some(
                    Node::File {
                        content: built.contents.len() as usize,
                        size: content.len() as u64,
                        run: ClusterRun::none(),
                    },
                ),
            ),
        ),
        KindView::HardLink(target) => match link_end(sorted, key_of(target), sorted.len()) {
            LinkEnd::Directory => Err(
                ModelFault::HardlinkTargetIsDirectory { path: entry.path, target },
            ),
            LinkEnd::Missing => Err(
                ModelFault::HardlinkTargetMissing { path: entry.path, target },
            ),
            LinkEnd::Cycle => Err(ModelFault::HardlinkCycle { path: entry.path }),
            LinkEnd::File { content, size } => if loss.accepted.allows(Property::Kind) {
                Ok(
                    (
                        built.losing(entry.path, Property::Kind),
                        Some(Node::File { content, size, run: ClusterRun::none() }),
                    ),
                )
            } else {
                Err(refused)
            },
            LinkEnd::Unrepresentable => if loss.accepted.allows(Property::Kind) {
                Ok((built.losing(entry.path, Property::Kind), None))
            } else {
                Err(refused)
            },
        },
        KindView::Symlink(_) | KindView::Special => if loss.accepted.allows(Property::Kind) {
            Ok((built.losing(entry.path, Property::Kind), None))
        } else {
            Err(refused)
        },
    }
}

/// The tree with an entry of `node` placed in directory `parent`.
pub open spec fn entry_step(
    built: Built,
    parent: int,
    entry: SourceView,
    node: Node,
    loss: LossPolicy,
    mapping: Seq<u16>,
) -> Result<Built, ModelFault> {
    let name = name_of(key_of(entry.path));
    let units = name_units(name);
    let folded = folded_by(mapping, units);
    let is_dir = node is Dir;
    let lost = uncarried(loss.synthesis, entry.meta, entry.xattrs.len() > 0, is_dir);
    let timed = if times_exact(entry.meta) {
        built
    } else {
        built.losing(entry.path, Property::TimePrecision)
    };
    if name_fault(name) is Some {
        Err(ModelFault::Name { path: entry.path, source: name_fault(name)->Some_0 })
    } else if taker(built.taken[parent], folded, 0) is Some {
        Err(
            ModelFault::Indistinguishable {
                path: entry.path,
                other: taker(built.taken[parent], folded, 0)->Some_0,
            },
        )
    } else if !time_held(entry.meta.mtime) {
        Err(time_fault(entry.path, TimeField::Modification, entry.meta.mtime))
    } else if !time_held(entry.meta.atime) {
        Err(time_fault(entry.path, TimeField::Access, entry.meta.atime))
    } else if first_refused(loss.accepted, lost) is Some {
        Err(
            ModelFault::LossNotAccepted {
                path: entry.path,
                property: first_refused(loss.accepted, lost)->Some_0,
            },
        )
    } else {
        Ok(
            Built {
                losses: timed.losses + dropped(entry.path, lost),
                ..timed.with_entry(
                    parent,
                    EntryView {
                        units,
                        hash: hash_of(folded),
                        attributes: attributes_of(is_dir, entry.meta.mode),
                        times: times_of_meta(entry.meta),
                        node,
                    },
                    TakenView { folded, path: entry.path },
                )
            },
        )
    }
}

/// The tree with an entry placed in it.
#[verifier::opaque]
pub open spec fn place_step(
    built: Built,
    sorted: Seq<SourceView>,
    entry: SourceView,
    loss: LossPolicy,
    mapping: Seq<u16>,
) -> Result<Built, ModelFault> {
    let key = key_of(entry.path);
    let parent = index_of(built.keys, parent_of(key), 0);
    if key.len() == 0 {
        Ok(built)
    } else if parent is None {
        if entry_at(sorted, parent_of(key), 0) is Some {
            Err(ModelFault::ParentNotDir { path: entry.path })
        } else {
            Err(ModelFault::ParentMissing { path: entry.path })
        }
    } else {
        match node_step(built, sorted, entry, loss) {
            Err(fault) => Err(fault),
            Ok((after, None)) => Ok(after),
            Ok((after, Some(node))) => entry_step(
                after,
                parent->Some_0,
                entry,
                node,
                loss,
                mapping,
            ),
        }
    }
}

/// The tree of the first `n` entries.
pub open spec fn placed_up_to(
    sorted: Seq<SourceView>,
    n: int,
    loss: LossPolicy,
    mapping: Seq<u16>,
) -> Result<Built, ModelFault>
    decreases n,
{
    if n <= 0 {
        Ok(Built::empty())
    } else {
        match placed_up_to(sorted, n - 1, loss, mapping) {
            Err(fault) => Err(fault),
            Ok(built) => place_step(built, sorted, sorted[n - 1], loss, mapping),
        }
    }
}

/// The tree of a source, or why there is none: the first entry by key whose path is faulty, and
/// where none is, the first that cannot be placed.
pub open spec fn tree_of(
    source: Seq<SourceView>,
    loss: LossPolicy,
    mapping: Seq<u16>,
) -> Result<TreeView, ModelFault> {
    let sorted = sorted_source(source);
    if first_path_fault(sorted, 0) is Some {
        Err(first_path_fault(sorted, 0)->Some_0)
    } else {
        match placed_up_to(sorted, sorted.len() as int, loss, mapping) {
            Err(fault) => Err(fault),
            Ok(built) => Ok(built.tree()),
        }
    }
}

/// A path and what it holds.
pub struct Classed {
    /// The key of the path.
    pub key: Vec<u8>,
    /// What it holds.
    pub class: Class,
}

/// Whether `classes` say what the path of each entry holds.
pub open spec fn classes_match(classes: Seq<Classed>, sorted: Seq<SourceView>) -> bool {
    &&& classes.len() == sorted.len()
    &&& forall|i: int|
        0 <= i < classes.len() ==> (#[trigger] classes[i]).key@ == key_of(sorted[i].path)
            && classes[i].class@ == class_of(sorted, i)
}

/// The class of the first path from `0` on whose key is `key`.
fn find_class(classes: &[Classed], key: &[u8], Ghost(sorted): Ghost<Seq<SourceView>>) -> (at: Option<
    usize,
>)
    requires
        forall|i: int|
            0 <= i < classes@.len() ==> (#[trigger] classes@[i]).key@ == key_of(sorted[i].path),
        classes@.len() <= sorted.len(),
    ensures
        at is Some ==> at->Some_0 < classes@.len() && entry_at(sorted, key@, 0) == Some(
            at->Some_0 as int,
        ),
        at is None ==> entry_at(sorted, key@, 0) == entry_at(sorted, key@, classes@.len() as int),
{
    let mut i: usize = 0;
    while i < classes.len()
        invariant
            i <= classes@.len(),
            classes@.len() <= sorted.len(),
            forall|j: int|
                0 <= j < classes@.len() ==> (#[trigger] classes@[j]).key@ == key_of(sorted[j].path),
            entry_at(sorted, key@, 0) == entry_at(sorted, key@, i as int),
        decreases classes@.len() - i,
    {
        assert(classes@[i as int].key@ == key_of(sorted[i as int].path));
        if same_bytes(&classes[i].key, key) {
            return Some(i);
        }
        i += 1;
    }
    None
}

/// Decide what every path holds, refusing a path that is faulty whatever volume it is for.
fn classify(sorted: &[Keyed]) -> (r: Result<Vec<Classed>, ModelError>)
    requires
        keys_match(sorted@),
    ensures
        match r {
            Ok(classes) => {
                &&& first_path_fault(keyed_views(sorted@), 0) is None
                &&& classes_match(classes@, keyed_views(sorted@))
            },
            Err(e) => first_path_fault(keyed_views(sorted@), 0) == Some(e@),
        },
{
    let ghost all = keyed_views(sorted@);
    let mut classes: Vec<Classed> = Vec::new();
    let mut next_content: usize = 0;
    let mut i: usize = 0;
    while i < sorted.len()
        invariant
            i <= sorted@.len(),
            all == keyed_views(sorted@),
            keys_match(sorted@),
            classes@.len() == i,
            next_content <= i,
            next_content == files_before(all, i as int),
            first_path_fault(all, 0) == first_path_fault(all, i as int),
            forall|j: int|
                0 <= j < i ==> (#[trigger] classes@[j]).key@ == key_of(all[j].path)
                    && classes@[j].class@ == class_of(all, j),
        decreases sorted@.len() - i,
    {
        let keyed = &sorted[i];
        assert(all[i as int] == keyed.entry@);
        assert(keyed.key@ == key_of(all[i as int].path));
        if has_ascent(&keyed.entry.path) {
            return Err(ModelError::InvalidComponent { path: copy_of(&keyed.entry.path) });
        }
        let is_dir: bool = matches!(keyed.entry.kind, EntryKind::Directory);
        assert(is_dir == (all[i as int].kind is Directory));
        if keyed.key.len() == 0 && !is_dir {
            return Err(ModelError::RootNotDirectory { path: copy_of(&keyed.entry.path) });
        }
        match find_class(&classes, &keyed.key, Ghost(all)) {
            Some(_) => {
                return Err(ModelError::Duplicate { path: copy_of(&keyed.entry.path) });
            },
            None => {},
        }
        assert(entry_at(all, keyed.key@, 0) == Some(i as int));
        let class = match &keyed.entry.kind {
            EntryKind::Directory => Class::Dir,
            EntryKind::File(content) => {
                let at: usize = next_content;
                next_content += 1;
                Class::File { content: at, size: content.len() as u64 }
            },
            EntryKind::HardLink { target } => Class::Link(canonical_key(target)),
            EntryKind::Symlink { target } => Class::Unrepresentable,
            EntryKind::Special => Class::Unrepresentable,
        };
        assert(class@ == class_of(all, i as int));
        classes.push(Classed { key: copy_of(&keyed.key), class });
        i += 1;
    }
    Ok(classes)
}

/// Where a hard link to `target` leads.
fn follow_hard_link(
    classes: &[Classed],
    target: &[u8],
    Ghost(sorted): Ghost<Seq<SourceView>>,
) -> (end: LinkEnd)
    requires
        classes_match(classes@, sorted),
    ensures
        end == link_end(sorted, key_of(target@), sorted.len()),
{
    let mut key = canonical_key(target);
    let mut steps: usize = classes.len();
    loop
        invariant
            classes_match(classes@, sorted),
            steps <= classes@.len(),
            link_end(sorted, key@, steps as nat) == link_end(
                sorted,
                key_of(target@),
                sorted.len(),
            ),
        decreases steps,
    {
        let at: usize = match find_class(classes, &key, Ghost(sorted)) {
            Some(at) => at,
            None => return LinkEnd::Missing,
        };
        assert(classes@[at as int].class@ == class_of(sorted, at as int));
        match &classes[at].class {
            Class::Dir => return LinkEnd::Directory,
            Class::File { content, size } => return LinkEnd::File { content: *content, size: *size },
            Class::Unrepresentable => return LinkEnd::Unrepresentable,
            Class::Link(next) => {
                if steps == 0 {
                    return LinkEnd::Cycle;
                }
                key = copy_of(next);
                steps -= 1;
            },
        }
    }
}

/// A tree under construction.
pub struct Builder<'a> {
    /// What the tree is built with beside its source.
    config: &'a ModelConfig<'a>,
    /// The directories so far.
    dirs: Vec<ModelDir>,
    /// The key of each directory.
    keys: Vec<Vec<u8>>,
    /// The names each directory has taken.
    taken: Vec<Vec<Taken>>,
    /// The contents of the files so far.
    contents: Vec<Vec<u8>>,
    /// What the format does not carry, so far.
    fidelity: FidelityReport,
}

impl<'a> View for Builder<'a> {
    type V = Built;

    closed spec fn view(&self) -> Built {
        Built {
            dirs: dir_views(self.dirs@),
            keys: views(self.keys@),
            taken: all_taken(self.taken@),
            contents: views(self.contents@),
            losses: self.fidelity@,
        }
    }
}

impl<'a> Builder<'a> {
    /// Every directory has a key and names, and the table maps every unit.
    pub closed spec fn wf(&self) -> bool {
        &&& self.dirs@.len() == self.keys@.len()
        &&& self.dirs@.len() == self.taken@.len()
        &&& self.config.upcase.wf()
    }

    /// What the tree is built with beside its source.
    pub closed spec fn settings(&self) -> ModelConfig<'a> {
        *self.config
    }

    /// The tree of no entries: an empty root.
    #[must_use]
    pub fn new(config: &'a ModelConfig<'a>) -> (builder: Self)
        requires
            config.upcase.wf(),
        ensures
            builder.wf(),
            builder@ == Built::empty(),
            builder.settings() == *config,
    {
        let mut path: Vec<u8> = Vec::new();
        path.push(0x2F);
        let mut dirs: Vec<ModelDir> = Vec::new();
        dirs.push(ModelDir { entries: Vec::new(), run: ClusterRun { first: 0, count: 0 }, path });
        let mut keys: Vec<Vec<u8>> = Vec::new();
        keys.push(Vec::new());
        let mut taken: Vec<Vec<Taken>> = Vec::new();
        taken.push(Vec::new());
        let builder = Builder {
            config,
            dirs,
            keys,
            taken,
            contents: Vec::new(),
            fidelity: FidelityReport::new(),
        };
        proof {
            let empty = Built::empty();
            assert(builder.dirs@[0].path@ =~= seq![0x2Fu8]);
            assert(entry_views(builder.dirs@[0].entries@) =~= Seq::<EntryView>::empty());
            assert(builder@.dirs =~= empty.dirs);
            assert(builder.keys@[0]@ =~= Seq::<u8>::empty());
            assert(builder@.keys =~= empty.keys);
            assert(taken_views(builder.taken@[0]@) =~= Seq::<TakenView>::empty());
            assert(builder@.taken =~= empty.taken);
            assert(builder@.contents =~= empty.contents);
        }
        builder
    }

    /// Record a loss the entry's metadata does not decide, after checking it is accepted.
    fn lose(&mut self, property: Property, path: &[u8]) -> (r: Result<(), ModelError>)
        requires
            old(self).wf(),
        ensures
            final(self).wf(),
            final(self).settings() == old(self).settings(),
            match r {
                Ok(_) => {
                    &&& old(self).settings().loss.accepted.allows(property)
                    &&& final(self)@ == old(self)@.losing(path@, property)
                },
                Err(e) => {
                    &&& !old(self).settings().loss.accepted.allows(property)
                    &&& e@ == (ModelFault::LossNotAccepted { path: path@, property })
                },
            },
    {
        if !self.config.loss.accepted.accepts(property) {
            return Err(ModelError::LossNotAccepted { path: copy_of(path), property });
        }
        self.fidelity.record(Direction::Dropped, path, property);
        Ok(())
    }

    /// Add a directory with no entries.
    fn push_dir(&mut self, key: &[u8], path: &[u8])
        requires
            old(self).wf(),
        ensures
            final(self).wf(),
            final(self).settings() == old(self).settings(),
            final(self)@ == old(self)@.with_dir(key@, path@),
    {
        let dir = ModelDir {
            entries: Vec::new(),
            run: ClusterRun { first: 0, count: 0 },
            path: copy_of(path),
        };
        assert(entry_views(dir.entries@) =~= Seq::<EntryView>::empty());
        self.dirs.push(dir);
        let names: Vec<Taken> = Vec::new();
        assert(taken_views(names@) =~= Seq::<TakenView>::empty());
        self.taken.push(names);
        self.keys.push(copy_of(key));
        proof {
            let want = old(self)@.with_dir(key@, path@);
            assert(self@.dirs =~= want.dirs);
            assert(self@.keys =~= want.keys);
            assert(self@.taken =~= want.taken);
        }
    }

    /// What this entry becomes, or nothing where the format has no entry for it and the caller
    /// has accepted losing it.
    fn node_for(
        &mut self,
        kind: EntryKind,
        key: &[u8],
        path: &[u8],
        classes: &[Classed],
        Ghost(sorted): Ghost<Seq<SourceView>>,
        Ghost(entry): Ghost<SourceView>,
    ) -> (r: Result<Option<Node>, ModelError>)
        requires
            old(self).wf(),
            classes_match(classes@, sorted),
            entry.kind == kind@,
            entry.path == path@,
            key@ == key_of(path@),
        ensures
            final(self).wf(),
            final(self).settings() == old(self).settings(),
            match node_step(old(self)@, sorted, entry, old(self).settings().loss) {
                Ok((after, node)) => r is Ok && final(self)@ == after && r->Ok_0 == node,
                Err(fault) => r is Err && r->Err_0@ == fault,
            },
            r is Ok && r->Ok_0 is Some && r->Ok_0->Some_0 is Dir ==> final(self)@.dirs.len() == old(
                self,
            )@.dirs.len() + 1,
    {
        match kind {
            EntryKind::Directory => {
                let index: usize = self.dirs.len();
                self.push_dir(key, path);
                Ok(Some(Node::Dir(index)))
            },
            EntryKind::File(content) => {
                let at: usize = self.contents.len();
                let size: u64 = content.len() as u64;
                self.contents.push(content);
                assert(self@.contents =~= old(self)@.contents.push(content@));
                Ok(Some(Node::File { content: at, size, run: ClusterRun { first: 0, count: 0 } }))
            },
            EntryKind::HardLink { target } => {
                match follow_hard_link(classes, &target, Ghost(sorted)) {
                    LinkEnd::File { content, size } => {
                        self.lose(Property::Kind, path)?;
                        Ok(Some(Node::File { content, size, run: ClusterRun { first: 0, count: 0 } }))
                    },
                    LinkEnd::Unrepresentable => {
                        self.lose(Property::Kind, path)?;
                        Ok(None)
                    },
                    LinkEnd::Directory => Err(
                        ModelError::HardlinkTargetIsDirectory { path: copy_of(path), target },
                    ),
                    LinkEnd::Missing => Err(
                        ModelError::HardlinkTargetMissing { path: copy_of(path), target },
                    ),
                    LinkEnd::Cycle => Err(ModelError::HardlinkCycle { path: copy_of(path) }),
                }
            },
            EntryKind::Symlink { target: _ } => {
                self.lose(Property::Kind, path)?;
                Ok(None)
            },
            EntryKind::Special => {
                self.lose(Property::Kind, path)?;
                Ok(None)
            },
        }
    }
}

/// `time` as an entry stores it, or the refusal of an instant it cannot hold.
fn encode_time(time: Timestamp, field: TimeField, path: &[u8]) -> (r: Result<
    DosTimestamp,
    ModelError,
>)
    ensures
        match r {
            Ok(stamp) => time_held(time) && stamp == stamp_of(time),
            Err(e) => !time_held(time) && e@ == time_fault(path@, field, time),
        },
{
    match DosTimestamp::encode(time) {
        Some(stamp) => Ok(stamp),
        None => Err(
            ModelError::TimeOutOfRange {
                path: copy_of(path),
                field,
                secs: time.secs,
                min: DosTimestamp::SECS_MIN,
                max: DosTimestamp::SECS_MAX,
            },
        ),
    }
}

/// The entry that took the name `folded`, where one has.
fn find_taker(taken: &[Taken], folded: &[u16]) -> (other: Option<usize>)
    ensures
        match other {
            Some(i) => {
                &&& i < taken@.len()
                &&& taker(taken_views(taken@), folded@, 0) == Some(taken@[i as int].path@)
            },
            None => taker(taken_views(taken@), folded@, 0) is None,
        },
{
    let ghost all = taken_views(taken@);
    let mut i: usize = 0;
    while i < taken.len()
        invariant
            i <= taken@.len(),
            all == taken_views(taken@),
            taker(all, folded@, 0) == taker(all, folded@, i as int),
        decreases taken@.len() - i,
    {
        assert(all[i as int].folded == taken@[i as int].folded@);
        if same_units(&taken[i].folded, folded) {
            return Some(i);
        }
        i += 1;
    }
    None
}

impl<'a> Builder<'a> {
    /// The name `name` as directory `parent` stores it, refusing one it has taken.
    fn name_in(&mut self, parent: usize, name: &[u8], path: &[u8]) -> (r: Result<
        (PlacedName, Vec<u16>),
        ModelError,
    >)
        requires
            old(self).wf(),
            parent < old(self)@.dirs.len(),
        ensures
            *final(self) == *old(self),
            ({
                let units = name_units(name@);
                let folded = folded_by(old(self).settings().upcase.mapping(), units);
                let taken = taker(old(self)@.taken[parent as int], folded, 0);
                match r {
                    Ok((placed, key)) => {
                        &&& name_fault(name@) is None
                        &&& taken is None
                        &&& placed.units@ == units
                        &&& placed.hash == hash_of(folded)
                        &&& key@ == folded
                    },
                    Err(e) => if name_fault(name@) is Some {
                        e@ == (ModelFault::Name {
                            path: path@,
                            source: name_fault(name@)->Some_0,
                        })
                    } else {
                        &&& taken is Some
                        &&& e@ == (ModelFault::Indistinguishable {
                            path: path@,
                            other: taken->Some_0,
                        })
                    },
                }
            }),
    {
        match place(name, self.config.upcase) {
            Err(source) => Err(ModelError::Name { path: copy_of(path), source }),
            Ok((placed, folded)) => {
                assert(self@.taken[parent as int] == taken_views(self.taken@[parent as int]@));
                match find_taker(&self.taken[parent], &folded) {
                    Some(i) => Err(
                        ModelError::Indistinguishable {
                            path: copy_of(path),
                            other: copy_of(&self.taken[parent][i].path),
                        },
                    ),
                    None => Ok((placed, folded)),
                }
            },
        }
    }

    /// The times this entry records, refusing an instant the fields cannot hold and recording
    /// where they hold it less exactly.
    fn times_for(&mut self, meta: &Metadata, path: &[u8]) -> (r: Result<EntryTimes, ModelError>)
        requires
            old(self).wf(),
        ensures
            final(self).wf(),
            final(self).settings() == old(self).settings(),
            match r {
                Ok(times) => {
                    &&& time_held(meta.mtime)
                    &&& time_held(meta.atime)
                    &&& times == times_of_meta(*meta)
                    &&& final(self)@ == (if times_exact(*meta) {
                        old(self)@
                    } else {
                        old(self)@.losing(path@, Property::TimePrecision)
                    })
                },
                Err(e) => if !time_held(meta.mtime) {
                    e@ == time_fault(path@, TimeField::Modification, meta.mtime)
                } else {
                    &&& !time_held(meta.atime)
                    &&& e@ == time_fault(path@, TimeField::Access, meta.atime)
                },
            },
    {
        let modify = encode_time(meta.mtime, TimeField::Modification, path)?;
        let access = encode_time(meta.atime, TimeField::Access, path)?;
        let modify_precise: bool = meta.mtime.nanos % 10_000_000 == 0;
        let access_precise: bool = meta.atime.secs % 2 == 0 && meta.atime.nanos == 0;
        if !modify_precise || !access_precise {
            self.fidelity.record(Direction::Dropped, path, Property::TimePrecision);
        }
        Ok(
            EntryTimes {
                create: modify,
                modify,
                access: DosTimestamp { date: access.date, time: access.time, tenth: 0 },
            },
        )
    }

    /// Record every property of this entry the format does not carry, refusing one the caller
    /// has not accepted losing.
    fn record_losses(
        &mut self,
        meta: &Metadata,
        xattrs: &[Xattr],
        is_dir: bool,
        path: &[u8],
    ) -> (r: Result<(), ModelError>)
        requires
            old(self).wf(),
        ensures
            final(self).wf(),
            final(self).settings() == old(self).settings(),
            ({
                let loss = old(self).settings().loss;
                let lost = uncarried(loss.synthesis, *meta, xattrs@.len() > 0, is_dir);
                match r {
                    Ok(_) => {
                        &&& first_refused(loss.accepted, lost) is None
                        &&& final(self)@ == (Built {
                            losses: old(self)@.losses + dropped(path@, lost),
                            ..old(self)@
                        })
                    },
                    Err(e) => {
                        &&& first_refused(loss.accepted, lost) is Some
                        &&& e@ == (ModelFault::LossNotAccepted {
                            path: path@,
                            property: first_refused(loss.accepted, lost)->Some_0,
                        })
                    },
                }
            }),
    {
        match self.config.loss.record_losses(&mut self.fidelity, meta, xattrs, is_dir, path) {
            Ok(()) => Ok(()),
            Err(property) => Err(ModelError::LossNotAccepted { path: copy_of(path), property }),
        }
    }

    /// Add an entry to directory `parent`, and its name to those taken there.
    fn push_entry(&mut self, parent: usize, entry: ModelEntry, taken: Taken)
        requires
            old(self).wf(),
            parent < old(self)@.dirs.len(),
        ensures
            final(self).wf(),
            final(self).settings() == old(self).settings(),
            final(self)@ == old(self)@.with_entry(
                parent as int,
                entry@,
                TakenView { folded: taken.folded@, path: taken.path@ },
            ),
    {
        self.dirs[parent].entries.push(entry);
        self.taken[parent].push(taken);
        proof {
            let want = old(self)@.with_entry(
                parent as int,
                entry@,
                TakenView { folded: taken.folded@, path: taken.path@ },
            );
            assert(self.dirs@[parent as int]@.entries =~= old(self)@.dirs[parent as int].entries.push(
                entry@,
            ));
            assert(self@.dirs =~= want.dirs);
            assert(taken_views(self.taken@[parent as int]@) =~= want.taken[parent as int]);
            assert(self@.taken =~= want.taken);
            assert(self@.keys =~= want.keys);
        }
    }

    /// The directory of this key, where there is one.
    fn find_dir(&self, key: &[u8]) -> (index: Option<usize>)
        requires
            self.wf(),
        ensures
            match index {
                Some(i) => i < self@.dirs.len() && index_of(self@.keys, key@, 0) == Some(i as int),
                None => index_of(self@.keys, key@, 0) is None,
            },
    {
        let ghost keys = self@.keys;
        let mut i: usize = 0;
        while i < self.keys.len()
            invariant
                i <= self.keys@.len(),
                self.wf(),
                keys == views(self.keys@),
                keys == self@.keys,
                index_of(keys, key@, 0) == index_of(keys, key@, i as int),
            decreases self.keys@.len() - i,
        {
            assert(keys[i as int] == self.keys@[i as int]@);
            if same_bytes(&self.keys[i], key) {
                return Some(i);
            }
            i += 1;
        }
        None
    }

    /// Add one entry of the source to the tree.
    fn place(
        &mut self,
        keyed: Keyed,
        classes: &[Classed],
        Ghost(sorted): Ghost<Seq<SourceView>>,
    ) -> (r: Result<(), ModelError>)
        requires
            old(self).wf(),
            classes_match(classes@, sorted),
            keyed.key@ == key_of(keyed.entry.path@),
        ensures
            final(self).wf(),
            final(self).settings() == old(self).settings(),
            match place_step(
                old(self)@,
                sorted,
                keyed.entry@,
                old(self).settings().loss,
                old(self).settings().upcase.mapping(),
            ) {
                Ok(after) => r is Ok && final(self)@ == after,
                Err(fault) => r is Err && r->Err_0@ == fault,
            },
    {
        reveal(place_step);
        let ghost view = keyed.entry@;
        let key = keyed.key;
        let SourceEntry { path, kind, meta, xattrs } = keyed.entry;
        if key.len() == 0 {
            return Ok(());
        }
        let (parent_key, name) = split_key(&key);
        let parent: usize = match self.find_dir(&parent_key) {
            Some(index) => index,
            None => {
                let known = find_class(classes, &parent_key, Ghost(sorted));
                assert(known is None ==> entry_at(sorted, parent_key@, 0) is None);
                if known.is_some() {
                    return Err(ModelError::ParentNotDir { path });
                }
                return Err(ModelError::ParentMissing { path });
            },
        };
        let node = match self.node_for(kind, &key, &path, classes, Ghost(sorted), Ghost(view))? {
            Some(node) => node,
            None => return Ok(()),
        };
        let ghost after = self@;
        assert(parent < self@.dirs.len());
        let (placed, folded) = self.name_in(parent, &name, &path)?;
        let times = self.times_for(&meta, &path)?;
        let is_dir: bool = matches!(node, Node::Dir(_));
        self.record_losses(&meta, &xattrs, is_dir, &path)?;
        let base: u16 = if is_dir {
            FileAttributes::DIRECTORY
        } else {
            FileAttributes::ARCHIVE
        };
        proof {
            broadcast use FileAttributes::lemma_of_word;

        }
        let attributes = if meta.mode & WRITE_BITS == 0 {
            FileAttributes::from_bits(base).union(FileAttributes::from_bits(FileAttributes::READ_ONLY))
        } else {
            FileAttributes::from_bits(base)
        };
        let entry = ModelEntry { name: placed, attributes, times, node };
        self.push_entry(parent, entry, Taken { folded, path });
        Ok(())
    }

    /// Everything about a tree that does not depend on how large its volume is.
    pub fn place_all(self, entries: Vec<SourceEntry>) -> (r: Result<PlacedTree, ModelError>)
        requires
            self.wf(),
            self@ == Built::empty(),
        ensures
            match tree_of(
                source_views(entries@),
                self.settings().loss,
                self.settings().upcase.mapping(),
            ) {
                Ok(tree) => r is Ok && r->Ok_0@ == tree,
                Err(fault) => r is Err && r->Err_0@ == fault,
            },
            r matches Ok(tree) ==> tree@.sound(self.settings().upcase.mapping()),
    {
        let ghost loss = self.settings().loss;
        let ghost mapping = self.settings().upcase.mapping();
        let mut builder = self;
        proof {
            lemma_countable(entries);
        }
        let mut sorted = sort_entries(entries);
        let ghost all = keyed_views(sorted@);
        let classes = classify(&sorted)?;
        let count: usize = sorted.len();
        let mut i: usize = 0;
        let mut left: Vec<Keyed> = Vec::new();
        while sorted.len() > 0
            invariant
                left@.len() + sorted@.len() == count,
                count == all.len(),
                keys_match(sorted@),
                keys_match(left@),
                keyed_views(sorted@) == all.take(sorted@.len() as int),
                forall|j: int|
                    0 <= j < left@.len() ==> (#[trigger] left@[j]).entry@ == all[count - 1 - j],
            decreases sorted@.len(),
        {
            let ghost was = sorted@;
            let ghost had = left@;
            let keyed = sorted.pop().unwrap();
            proof {
                let n = sorted@.len() as int;
                assert(was[n] == keyed);
                assert(keyed_views(was)[n] == all.take(n + 1)[n]);
                assert(keyed_views(sorted@) =~= all.take(n)) by {
                    assert forall|j: int| 0 <= j < n implies keyed_views(sorted@)[j] == all.take(
                        n,
                    )[j] by {
                        assert(keyed_views(was)[j] == all.take(n + 1)[j]);
                    }
                }
                assert forall|j: int| 0 <= j < sorted@.len() implies (#[trigger] sorted@[j]).key@
                    == key_of(sorted@[j].entry.path@) by {
                    assert(sorted@[j] == was[j]);
                }
            }
            left.push(keyed);
            proof {
                assert forall|j: int| 0 <= j < left@.len() implies (#[trigger] left@[j]).key@
                    == key_of(left@[j].entry.path@) by {
                    if j < had.len() {
                        assert(left@[j] == had[j]);
                    }
                }
                assert forall|j: int| 0 <= j < left@.len() implies (#[trigger] left@[j]).entry@
                    == all[count - 1 - j] by {
                    if j < had.len() {
                        assert(left@[j] == had[j]);
                    }
                }
            }
        }
        while left.len() > 0
            invariant
                i + left@.len() == count,
                count == all.len(),
                classes_match(classes@, all),
                keys_match(left@),
                forall|j: int|
                    0 <= j < left@.len() ==> (#[trigger] left@[j]).entry@ == all[count - 1 - j],
                builder.wf(),
                builder.settings().loss == loss,
                builder.settings().upcase.mapping() == mapping,
                loss == self.settings().loss,
                mapping == self.settings().upcase.mapping(),
                all == sorted_source(source_views(entries@)),
                first_path_fault(all, 0) is None,
                placed_up_to(all, i as int, loss, mapping) == Ok::<Built, ModelFault>(builder@),
            decreases left@.len(),
        {
            let ghost was = left@;
            let keyed = left.pop().unwrap();
            proof {
                let n = left@.len();
                assert(was[n as int] == keyed);
                assert(keyed.entry@ == all[i as int]);
                assert forall|j: int| 0 <= j < left@.len() implies (#[trigger] left@[j]).key@
                    == key_of(left@[j].entry.path@) by {
                    assert(left@[j] == was[j]);
                }
                assert forall|j: int| 0 <= j < left@.len() implies (#[trigger] left@[j]).entry@
                    == all[count - 1 - j] by {
                    assert(left@[j] == was[j]);
                }
                lemma_fault_stays(all, i + 1, all.len() as int, loss, mapping);
            }
            builder.place(keyed, &classes, Ghost(all))?;
            i += 1;
        }
        let tree = PlacedTree {
            dirs: builder.dirs,
            contents: builder.contents,
            fidelity: builder.fidelity,
        };
        proof {
            lemma_tree_is_sound(source_views(entries@), loss, mapping);
        }
        Ok(tree)
    }
}

/// A machine can hold the entries it holds.
proof fn lemma_countable(entries: Vec<SourceEntry>)
    ensures
        countable(source_views(entries@)),
{
    assert(entries.len() == entries@.len());
    assert forall|i: int| 0 <= i < entries@.len() implies match (#[trigger] source_views(
        entries@,
    )[i]).kind {
        KindView::File(content) => content.len() <= u64::MAX,
        _ => true,
    } by {
        match entries@[i].kind {
            EntryKind::File(content) => {
                assert(content.len() == content@.len());
            },
            _ => {},
        }
    }
}

/// An entry that cannot be placed keeps every longer source from being placed, with its fault.
proof fn lemma_fault_stays(
    sorted: Seq<SourceView>,
    n: int,
    m: int,
    loss: LossPolicy,
    mapping: Seq<u16>,
)
    requires
        n <= m,
    ensures
        placed_up_to(sorted, n, loss, mapping) is Err ==> placed_up_to(sorted, m, loss, mapping)
            == placed_up_to(sorted, n, loss, mapping),
    decreases m,
{
    if n < m && m > 0 {
        lemma_fault_stays(sorted, n, m - 1, loss, mapping);
    }
}

/// What an entry records of its permissions: that it may not be written to, where none of the three
/// write bits is set; beside that it is a directory, or to be archived.
pub proof fn lemma_attributes_follow_the_write_bits(is_dir: bool, mode: u16)
    ensures
        attributes_of(is_dir, mode).word() == (if is_dir {
            0x10int
        } else {
            0x20int
        }) + (if mode as int / 2 % 2 == 0 && mode as int / 16 % 2 == 0 && mode as int / 128 % 2
            == 0 {
            1int
        } else {
            0int
        }),
{
    broadcast use FileAttributes::lemma_of_word;

    lemma_which_modes_are_read_only(mode);
    assert(0x10u16 | 0x01u16 == 0x11u16) by (bit_vector);
    assert(0x20u16 | 0x01u16 == 0x21u16) by (bit_vector);
}

/// What an entry records of its times: when it was last written, as when it was created too, to the
/// hundredth of a second below; and when it was last read, to the even second below. Those of 1980
/// to 2107 can be recorded, and no others.
pub proof fn lemma_times_follow_the_source(meta: Metadata)
    requires
        time_held(meta.mtime),
        time_held(meta.atime),
        meta.mtime.nanos < 1_000_000_000,
    ensures
        ({
            let times = times_of_meta(meta);
            &&& 315_532_800 <= meta.mtime.secs < 4_354_819_200
            &&& 315_532_800 <= meta.atime.secs < 4_354_819_200
            &&& times.create == times.modify
            &&& times.modify.instant_secs() == meta.mtime.secs
            &&& times.modify.instant_nanos() == meta.mtime.nanos - meta.mtime.nanos % 10_000_000
            &&& times.access.instant_secs() == meta.atime.secs - meta.atime.secs as int % 2
            &&& times.access.instant_nanos() == 0
            &&& times_exact(meta) <==> times.modify.instant_nanos() == meta.mtime.nanos
                && times.access.instant_secs() == meta.atime.secs && meta.atime.nanos == 0
        }),
{
    lemma_stamp_round_trip(meta.mtime);
    lemma_stamp_round_trip(meta.atime);
}

/// An instant outside 1980 to 2107 cannot be recorded.
pub proof fn lemma_which_times_are_held(time: Timestamp)
    ensures
        time_held(time) <==> 315_532_800 <= time.secs < 4_354_819_200,
{
}

} // verus!
