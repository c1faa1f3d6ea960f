//! What a volume is made from: entries with a path, a kind and what is known about each.
use vstd::prelude::*;

use crate::time::Timestamp;

verus! {

/// What is known about an entry beside its contents.
#[derive(Clone, Copy, PartialEq, Eq, Debug, Structural)]
pub struct Metadata {
    /// The permission bits.
    pub mode: u16,
    /// The owning user.
    pub uid: u32,
    /// The owning group.
    pub gid: u32,
    /// When the contents last changed.
    pub mtime: Timestamp,
    /// When the contents were last read.
    pub atime: Timestamp,
}

impl Metadata {
    /// An entry of root's with this mode, changed and read at `time`.
    #[must_use]
    pub fn new(mode: u16, time: Timestamp) -> (meta: Self)
        ensures
            meta == (Metadata { mode, uid: 0, gid: 0, mtime: time, atime: time }),
    {
        Metadata { mode, uid: 0, gid: 0, mtime: time, atime: time }
    }
}

/// An extended attribute.
#[derive(Clone, PartialEq, Eq, Debug)]
pub struct Xattr {
    /// The attribute's name.
    pub name: Vec<u8>,
    /// The attribute's value.
    pub value: Vec<u8>,
}

/// What an entry is.
#[derive(Clone, PartialEq, Eq, Debug)]
pub enum EntryKind {
    /// A directory.
    Directory,
    /// A regular file, with its contents.
    File(Vec<u8>),
    /// A second name for another entry.
    HardLink {
        /// The path of that entry.
        target: Vec<u8>,
    },
    /// A symbolic link.
    Symlink {
        /// What it points at.
        target: Vec<u8>,
    },
    /// A device, a pipe or a socket.
    Special,
}

/// An entry of a source.
#[derive(Clone, PartialEq, Eq, Debug)]
pub struct SourceEntry {
    /// Where the entry goes.
    pub path: Vec<u8>,
    /// What the entry is.
    pub kind: EntryKind,
    /// What is known about it.
    pub meta: Metadata,
    /// Its extended attributes.
    pub xattrs: Vec<Xattr>,
}

/// What an entry is.
pub enum KindView {
    /// A directory.
    Directory,
    /// A regular file, with its contents.
    File(Seq<u8>),
    /// A second name for the entry at a path.
    HardLink(Seq<u8>),
    /// A symbolic link, with what it points at.
    Symlink(Seq<u8>),
    /// A device, a pipe or a socket.
    Special,
}

/// An extended attribute.
pub struct XattrView {
    /// The attribute's name.
    pub name: Seq<u8>,
    /// The attribute's value.
    pub value: Seq<u8>,
}

/// An entry of a source.
pub struct SourceView {
    /// Where the entry goes.
    pub path: Seq<u8>,
    /// What the entry is.
    pub kind: KindView,
    /// What is known about it.
    pub meta: Metadata,
    /// Its extended attributes.
    pub xattrs: Seq<XattrView>,
}

impl View for EntryKind {
    type V = KindView;

    open spec fn view(&self) -> KindView {
        match *self {
            EntryKind::Directory => KindView::Directory,
            EntryKind::File(content) => KindView::File(content@),
            EntryKind::HardLink { target } => KindView::HardLink(target@),
            EntryKind::Symlink { target } => KindView::Symlink(target@),
            EntryKind::Special => KindView::Special,
        }
    }
}

impl View for Xattr {
    type V = XattrView;

    open spec fn view(&self) -> XattrView {
        XattrView { name: self.name@, value: self.value@ }
    }
}

/// What each extended attribute is.
pub open spec fn xattr_views(xattrs: Seq<Xattr>) -> Seq<XattrView> {
    Seq::new(xattrs.len(), |i: int| xattrs[i]@)
}

impl View for SourceEntry {
    type V = SourceView;

    open spec fn view(&self) -> SourceView {
        SourceView {
            path: self.path@,
            kind: self.kind@,
            meta: self.meta,
            xattrs: xattr_views(self.xattrs@),
        }
    }
}

/// What each entry of a source is.
pub open spec fn source_views(entries: Seq<SourceEntry>) -> Seq<SourceView> {
    Seq::new(entries.len(), |i: int| entries[i]@)
}

/// A source put together one entry at a time.
#[derive(Clone, PartialEq, Eq, Debug)]
pub struct TreeBuilder {
    /// The entries, in the order they were added.
    entries: Vec<SourceEntry>,
}

impl View for TreeBuilder {
    type V = Seq<SourceView>;

    closed spec fn view(&self) -> Seq<SourceView> {
        source_views(self.entries@)
    }
}

impl TreeBuilder {
    /// A source with no entries.
    #[must_use]
    pub fn new() -> (source: Self)
        ensures
            source@ == Seq::<SourceView>::empty(),
    {
        let source = TreeBuilder { entries: Vec::new() };
        assert(source@ =~= Seq::<SourceView>::empty());
        source
    }

    /// The source with one more entry.
    fn with(self, path: Vec<u8>, kind: EntryKind, meta: Metadata) -> (source: Self)
        ensures
            source@ == self@.push(
                SourceView { path: path@, kind: kind@, meta, xattrs: Seq::empty() },
            ),
    {
        let mut source = self;
        let entry = SourceEntry { path, kind, meta, xattrs: Vec::new() };
        source.entries.push(entry);
        assert(xattr_views(entry.xattrs@) =~= Seq::<XattrView>::empty());
        assert(source@ =~= self@.push(
            SourceView { path: path@, kind: kind@, meta, xattrs: Seq::empty() },
        ));
        source
    }

    /// The source with a directory added.
    #[must_use]
    pub fn directory(self, path: Vec<u8>, meta: Metadata) -> (source: Self)
        ensures
            source@ == self@.push(
                SourceView { path: path@, kind: KindView::Directory, meta, xattrs: Seq::empty() },
            ),
    {
        self.with(path, EntryKind::Directory, meta)
    }

    /// The source with a regular file added.
    #[must_use]
    pub fn file(self, path: Vec<u8>, content: Vec<u8>, meta: Metadata) -> (source: Self)
        ensures
            source@ == self@.push(
                SourceView {
                    path: path@,
                    kind: KindView::File(content@),
                    meta,
                    xattrs: Seq::empty(),
                },
            ),
    {
        self.with(path, EntryKind::File(content), meta)
    }

    /// The source with a hard link added.
    #[must_use]
    pub fn hardlink(self, path: Vec<u8>, target: Vec<u8>, meta: Metadata) -> (source: Self)
        ensures
            source@ == self@.push(
                SourceView {
                    path: path@,
                    kind: KindView::HardLink(target@),
                    meta,
                    xattrs: Seq::empty(),
                },
            ),
    {
        self.with(path, EntryKind::HardLink { target }, meta)
    }

    /// The source with a symbolic link added.
    #[must_use]
    pub fn symlink(self, path: Vec<u8>, target: Vec<u8>, meta: Metadata) -> (source: Self)
        ensures
            source@ == self@.push(
                SourceView { path: path@, kind: KindView::Symlink(target@), meta, xattrs: Seq::empty() },
            ),
    {
        self.with(path, EntryKind::Symlink { target }, meta)
    }

    /// The source with an entry added whole.
    #[must_use]
    pub fn entry(self, entry: SourceEntry) -> (source: Self)
        ensures
            source@ == self@.push(entry@),
    {
        let mut source = self;
        source.entries.push(entry);
        assert(source@ =~= self@.push(entry@));
        source
    }

    /// The entries of the source.
    #[must_use]
    pub fn into_entries(self) -> (entries: Vec<SourceEntry>)
        ensures
            source_views(entries@) == self@,
    {
        self.entries
    }
}

} // verus!
