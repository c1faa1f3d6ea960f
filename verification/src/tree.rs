//! A volume as a tree of files, as every format gives one.
use vstd::prelude::*;

use crate::bytes::{copy_of, splice};
use crate::dirent::FileAttributes;
use crate::fidelity::{Attributes, Property, Synthesis};
use crate::finding::Family;
use crate::node::Node;
use crate::read_error::{IoKind, ReadError};
use crate::reader::Reader;
use crate::source::Xattr;
use crate::time::Timestamp;
use crate::walk::{walked_views, Walked};

verus! {

/// A tree that could not be read.
#[derive(Clone, PartialEq, Eq, Debug)]
pub enum TreeError {
    /// The source could not be read.
    Io {
        /// What kind of failure it was.
        kind: IoKind,
        /// What the failure was.
        message: &'static str,
    },
    /// There is more than the caller takes on.
    LimitExceeded {
        /// The format.
        family: Family,
        /// What there is more of.
        detail: String,
    },
    /// The volume is of a variant that is not read.
    Unsupported {
        /// The format.
        family: Family,
        /// The variant.
        detail: String,
    },
    /// The volume is not what it should be.
    Malformed {
        /// The format.
        family: Family,
        /// What is wrong with it.
        detail: String,
    },
}

/// What kind of failure an error is.
pub open spec fn is_limit(err: ReadError) -> bool {
    err is FileTooLarge || err is PathTooLong || err is WalkTooLarge
}

/// Whether an error is that of a variant that is not read.
pub open spec fn is_variant_error(err: ReadError) -> bool {
    err is TexFat || err is FatCount
}

impl TreeError {
    /// Whether this is what an error of a volume is for its tree.
    pub open spec fn is_of(self, err: ReadError) -> bool {
        match self {
            TreeError::Io { kind, message } => err == (ReadError::Io { kind, message }),
            TreeError::LimitExceeded { detail, .. } => is_limit(err) && detail@ == err.text(),
            TreeError::Unsupported { detail, .. } => is_variant_error(err) && detail@ == err.text(),
            TreeError::Malformed { detail, .. } => {
                &&& !(err is Io) && !is_limit(err) && !is_variant_error(err)
                &&& detail@ == err.text()
            },
        }
    }

    /// What an error of a volume is for its tree.
    #[must_use]
    pub fn from_read(err: ReadError) -> (error: Self)
        ensures
            error.is_of(err),
    {
        match err {
            ReadError::Io { kind, message } => TreeError::Io { kind, message },
            ReadError::FileTooLarge { .. } | ReadError::PathTooLong { .. }
            | ReadError::WalkTooLarge { .. } => TreeError::LimitExceeded {
                family: Family::ExFat,
                detail: err.message(),
            },
            ReadError::TexFat | ReadError::FatCount { .. } => TreeError::Unsupported {
                family: Family::ExFat,
                detail: err.message(),
            },
            _ => TreeError::Malformed { family: Family::ExFat, detail: err.message() },
        }
    }
}

/// What kind of thing is in a tree.
#[derive(Clone, Copy, PartialEq, Eq, Debug, Structural)]
pub enum NodeKind {
    /// A directory.
    Directory,
    /// A file.
    File {
        /// Bytes it has.
        size: u64,
    },
}

impl Node {
    /// What kind of thing it is.
    pub open spec fn kind_of(self) -> NodeKind {
        if self.directory() {
            NodeKind::Directory
        } else {
            NodeKind::File { size: self.data_length }
        }
    }

    /// What kind of thing it is.
    #[must_use]
    pub fn kind(&self) -> (kind: NodeKind)
        ensures
            kind == self.kind_of(),
    {
        if self.is_dir() {
            NodeKind::Directory
        } else {
            NodeKind::File { size: self.data_length }
        }
    }
}

/// A path of a tree, and what is at it.
#[derive(Clone, PartialEq, Eq, Debug)]
pub struct TreeEntry {
    /// The path: the root's is empty.
    pub path: Vec<u8>,
    /// What kind of thing is at it.
    pub kind: NodeKind,
    /// What is at it.
    pub node: Node,
    /// What tells that other paths are of the same thing, where a format has such paths.
    pub shared: Option<u64>,
}

/// A path of a tree, and what is at it.
pub struct TreeStop {
    /// The path.
    pub path: Seq<u8>,
    /// What kind of thing is at it.
    pub kind: NodeKind,
    /// What is at it.
    pub node: Node,
    /// What tells that other paths are of the same thing.
    pub shared: Option<u64>,
}

impl View for TreeEntry {
    type V = TreeStop;

    open spec fn view(&self) -> TreeStop {
        TreeStop { path: self.path@, kind: self.kind, node: self.node, shared: self.shared }
    }
}

/// What each entry of a tree is.
pub open spec fn tree_views(entries: Seq<TreeEntry>) -> Seq<TreeStop> {
    Seq::new(entries.len(), |i: int| entries[i]@)
}

/// What a path a walk gives is in a tree. No two paths of a volume are of one thing.
pub open spec fn stop_of(walked: Walked) -> TreeStop {
    TreeStop { path: walked.path, kind: walked.node.kind_of(), node: walked.node, shared: None }
}

impl TreeEntry {
    /// What is at a path, no other path being of the same thing.
    #[must_use]
    pub fn new(path: Vec<u8>, kind: NodeKind, node: Node) -> (entry: Self)
        ensures
            entry@ == (TreeStop { path: path@, kind, node, shared: None }),
    {
        TreeEntry { path, kind, node, shared: None }
    }
}

impl<'a> Reader<'a> {
    /// The format of the volume.
    #[must_use]
    pub fn family(&self) -> (family: Family)
        ensures
            family == Family::ExFat,
    {
        Family::ExFat
    }

    /// The most bytes a whole file has.
    #[must_use]
    pub fn max_file_bytes(&self) -> (most: u64)
        ensures
            most == self.taken_on().max_file_bytes,
    {
        self.limits().max_file_bytes
    }

    /// The root and every path of the volume, the root first and with no path.
    pub fn walk_tree(&self) -> (r: Result<Vec<TreeEntry>, TreeError>)
        requires
            self.wf(),
        ensures
            match self.walked() {
                Err(e) => r is Err && r->Err_0.is_of(e),
                Ok(entries) => {
                    &&& r is Ok
                    &&& tree_views(r->Ok_0@) == seq![
                        stop_of(Walked { path: Seq::empty(), node: self.root_node() }),
                    ] + Seq::new(entries.len(), |i: int| stop_of(entries[i]))
                },
            },
    {
        let rest = match self.walk() {
            Ok(entries) => entries,
            Err(e) => return Err(TreeError::from_read(e)),
        };
        let ghost entries = walked_views(rest@);
        let ghost first = stop_of(Walked { path: Seq::empty(), node: self.root_node() });
        let root = self.root();
        let mut out: Vec<TreeEntry> = Vec::new();
        out.push(TreeEntry::new(Vec::new(), root.kind(), root));
        let mut i: usize = 0;
        assert(tree_views(out@) =~= seq![first] + Seq::new(0, |j: int| stop_of(entries[j])));
        while i < rest.len()
            invariant
                i <= rest@.len(),
                entries == walked_views(rest@),
                tree_views(out@) == seq![first] + Seq::new(
                    i as nat,
                    |j: int| stop_of(entries[j]),
                ),
            decreases rest@.len() - i,
        {
            let ghost before = tree_views(out@);
            let node = rest[i].node;
            out.push(TreeEntry::new(copy_of(&rest[i].path), node.kind(), node));
            assert(entries[i as int] == rest@[i as int]@);
            assert(tree_views(out@) =~= before.push(stop_of(entries[i as int])));
            assert(tree_views(out@) =~= seq![first] + Seq::new(
                (i + 1) as nat,
                |j: int| stop_of(entries[j]),
            ));
            i += 1;
        }
        Ok(out)
    }

    /// What is known of a file or directory, and what is filled in: an owner and permissions,
    /// of which the volume records whether it may be written to, and the root's times.
    #[must_use]
    pub fn stat(&self, node: &Node, synthesis: &Synthesis) -> (attributes: Attributes)
        ensures
            attributes.meta.uid == synthesis.uid,
            attributes.meta.gid == synthesis.gid,
            attributes.meta.mode == synthesis.mode_of(
                node.directory(),
                node.attributes.has(FileAttributes::READ_ONLY),
            ),
            match node.times {
                Some(times) => {
                    &&& attributes.meta.atime == times.access
                    &&& attributes.meta.mtime == times.modify
                    &&& attributes.synthesized@ == seq![Property::Ownership, Property::Permissions]
                },
                None => {
                    &&& attributes.meta.atime == (Timestamp { secs: 0, nanos: 0 })
                    &&& attributes.meta.mtime == (Timestamp { secs: 0, nanos: 0 })
                    &&& attributes.synthesized@ == seq![
                        Property::Ownership,
                        Property::Permissions,
                        Property::TimePrecision,
                    ]
                },
            },
            attributes.xattrs@ == Seq::<Xattr>::empty(),
    {
        broadcast use FileAttributes::lemma_of_word;

        let times: Option<(Timestamp, Timestamp)> = match node.times {
            Some(times) => Some((times.access, times.modify)),
            None => None,
        };
        Attributes::from_read_only_bit(
            synthesis,
            node.is_dir(),
            node.attributes.contains(FileAttributes::from_bits(FileAttributes::READ_ONLY)),
            times,
        )
    }

    /// The bytes of a file from `offset` on.
    pub fn read_bytes(&self, node: &Node, offset: u64, buf: &mut [u8]) -> (r: Result<
        usize,
        TreeError,
    >)
        requires
            self.wf(),
        ensures
            final(buf)@.len() == old(buf)@.len(),
            ({
                let len = self.read_len(*node, offset, old(buf)@.len() as int);
                match self.vol().file_read(*node, offset as int, offset + len) {
                    Ok(bytes) => {
                        &&& r == Ok::<usize, TreeError>(len as usize)
                        &&& final(buf)@ == splice(old(buf)@, 0, bytes)
                    },
                    Err(e) => {
                        &&& r is Err
                        &&& r->Err_0.is_of(e)
                        &&& final(buf)@ == splice(
                            old(buf)@,
                            0,
                            self.vol().file_span(
                                *node,
                                offset as int,
                                self.vol().file_reach(*node, offset as int, offset + len),
                            ),
                        )
                    },
                }
            }),
    {
        match self.read_into(node, offset, buf) {
            Ok(len) => Ok(len),
            Err(e) => Err(TreeError::from_read(e)),
        }
    }

    /// Where a symbolic link leads, which nothing on the volume is.
    pub fn link_target(&self, node: &Node) -> (r: Result<Vec<u8>, TreeError>)
        ensures
            r matches Err(TreeError::Malformed { family, detail }) && family == Family::ExFat
                && detail@ == "an exFAT volume holds no symbolic links"@,
    {
        let mut detail = String::new();
        detail.append("an exFAT volume holds no symbolic links");
        assert(detail@ =~= "an exFAT volume holds no symbolic links"@);
        Err(TreeError::Malformed { family: Family::ExFat, detail })
    }
}

/// What a failure of a volume is for its tree: a limit where the read took on no more, a variant
/// where the volume has more than one table or another number, what the source said where it
/// failed, and else a volume that is not what it should be.
pub proof fn lemma_what_a_failure_is_for_a_tree(error: TreeError, err: ReadError)
    requires
        error.is_of(err),
    ensures
        error is LimitExceeded <==> err is FileTooLarge || err is PathTooLong || err
            is WalkTooLarge,
        error is Unsupported <==> err is TexFat || err is FatCount,
        error is Io <==> err is Io,
{
}

} // verus!
