//! Finding what is at a path.
use vstd::prelude::*;

use crate::bytes::{copy_of, same_bytes, same_units};
use crate::name::folded_by;
use crate::node::{named_views, Entry, Named, Node};
use crate::path::{components, components_of, is_ascent, is_up, views};
use crate::read_error::ReadError;
use crate::reader::Reader;
use crate::unicode::{decode_text, encode_utf16, utf16};
use crate::upcase::UpcaseTable;
use vstd::utf8::{decode_utf8, valid_utf8};

verus! {

/// The units of a name, folded; a name that is not UTF-8 has none.
pub open spec fn folded_name(mapping: Seq<u16>, name: Seq<u8>) -> Seq<u16> {
    if valid_utf8(name) {
        folded_by(mapping, utf16(decode_utf8(name)))
    } else {
        Seq::empty()
    }
}

/// The first entry from `from` on with this very name.
pub open spec fn named_at(entries: Seq<Named>, name: Seq<u8>, from: int) -> Option<Node>
    decreases entries.len() - from,
{
    if from >= entries.len() {
        None
    } else if entries[from].name == name {
        Some(entries[from].node)
    } else {
        named_at(entries, name, from + 1)
    }
}

/// The first entry from `from` on whose name folds to this.
pub open spec fn folding_at(
    entries: Seq<Named>,
    mapping: Seq<u16>,
    folded: Seq<u16>,
    from: int,
) -> Option<Node>
    decreases entries.len() - from,
{
    if from >= entries.len() {
        None
    } else if folded_name(mapping, entries[from].name) == folded {
        Some(entries[from].node)
    } else {
        folding_at(entries, mapping, folded, from + 1)
    }
}

/// The entry a name finds: the one of that very name, and where there is none, the first whose
/// name folds as it does.
pub open spec fn found_in(entries: Seq<Named>, mapping: Seq<u16>, name: Seq<u8>) -> Option<Node> {
    match named_at(entries, name, 0) {
        Some(node) => Some(node),
        None => folding_at(entries, mapping, folded_name(mapping, name), 0),
    }
}

/// Why nothing is at a path.
pub enum Nowhere {
    /// There is nothing there.
    NotFound,
    /// It leads through something that is not a directory.
    NotADirectory,
    /// A directory on the way cannot be read.
    Unreadable(ReadError),
}

/// The units of a name, folded; a name that is not UTF-8 has none.
pub(crate) fn fold_name(upcase: &UpcaseTable, name: &[u8]) -> (folded: Vec<u16>)
    requires
        upcase.wf(),
    ensures
        folded@ == folded_name(upcase.mapping(), name@),
{
    match decode_text(name) {
        Some(text) => {
            let units = encode_utf16(&text);
            let folded = upcase.fold(&units);
            assert(folded@ =~= folded_by(upcase.mapping(), units@));
            folded
        },
        None => Vec::new(),
    }
}

/// The entry a name finds.
fn find_in(entries: &[Entry], upcase: &UpcaseTable, name: &[u8]) -> (found: Option<Node>)
    requires
        upcase.wf(),
    ensures
        found == found_in(named_views(entries@), upcase.mapping(), name@),
{
    let ghost all = named_views(entries@);
    let ghost mapping = upcase.mapping();
    let folded = fold_name(upcase, name);
    let mut fallback: Option<Node> = None;
    let mut i: usize = 0;
    while i < entries.len()
        invariant
            i <= entries@.len(),
            all == named_views(entries@),
            mapping == upcase.mapping(),
            upcase.wf(),
            folded@ == folded_name(mapping, name@),
            named_at(all, name@, 0) == named_at(all, name@, i as int),
            fallback is Some ==> folding_at(all, mapping, folded@, 0) == fallback,
            fallback is None ==> folding_at(all, mapping, folded@, 0) == folding_at(
                all,
                mapping,
                folded@,
                i as int,
            ),
        decreases entries@.len() - i,
    {
        assert(all[i as int] == entries@[i as int]@);
        if same_bytes(&entries[i].name, name) {
            return Some(entries[i].node);
        }
        if fallback.is_none() {
            let other = fold_name(upcase, &entries[i].name);
            if same_units(&other, &folded) {
                fallback = Some(entries[i].node);
            }
        }
        i += 1;
    }
    fallback
}

impl<'a> Reader<'a> {
    /// What the components from `k` on lead to, from the last of the directories passed through.
    pub open spec fn resolved(
        &self,
        components: Seq<Seq<u8>>,
        k: int,
        passed: Seq<Node>,
    ) -> Result<Node, Nowhere>
        decreases components.len() - k,
    {
        let current = passed.last();
        if k >= components.len() {
            Ok(current)
        } else if !current.directory() {
            Err(Nowhere::NotADirectory)
        } else if is_ascent(components[k]) {
            self.resolved(
                components,
                k + 1,
                if passed.len() > 1 {
                    passed.drop_last()
                } else {
                    passed
                },
            )
        } else {
            match self.listing(current) {
                Err(e) => Err(Nowhere::Unreadable(e)),
                Ok(entries) => match found_in(entries, self.mapping(), components[k]) {
                    None => Err(Nowhere::NotFound),
                    Some(node) => self.resolved(components, k + 1, passed.push(node)),
                },
            }
        }
    }

    /// What is at a path.
    pub open spec fn at_path(&self, path: Seq<u8>) -> Result<Node, Nowhere> {
        self.resolved(components_of(path), 0, seq![self.root_node()])
    }

    /// What is at `path`. A name is found by its very bytes, and else through the volume's
    /// folding; `..` leads to the directory the path came from, and from the root to the root.
    pub fn lookup(&self, path: &[u8]) -> (r: Result<Node, ReadError>)
        requires
            self.wf(),
        ensures
            match self.at_path(path@) {
                Ok(node) => r == Ok::<Node, ReadError>(node),
                Err(Nowhere::NotFound) => {
                    &&& r matches Err(ReadError::NotFound { path: named })
                    &&& named@ == path@
                },
                Err(Nowhere::NotADirectory) => {
                    &&& r matches Err(ReadError::NotADirectory { path: named })
                    &&& named@ == path@
                },
                Err(Nowhere::Unreadable(e)) => r == Err::<Node, ReadError>(e),
            },
    {
        let parts = components(path);
        let ghost all = components_of(path@);
        let mut passed: Vec<Node> = Vec::new();
        passed.push(self.root());
        assert(passed@ =~= seq![self.root_node()]);
        let mut k: usize = 0;
        while k < parts.len()
            invariant
                self.wf(),
                k <= parts@.len(),
                all == components_of(path@),
                views(parts@) == all,
                passed@.len() > 0,
                self.at_path(path@) == self.resolved(all, k as int, passed@),
            decreases parts@.len() - k,
        {
            let current = passed[passed.len() - 1];
            assert(all[k as int] == parts@[k as int]@);
            if !current.is_dir() {
                return Err(ReadError::NotADirectory { path: copy_of(path) });
            }
            if is_up(&parts[k]) {
                if passed.len() > 1 {
                    passed.pop();
                }
            } else {
                let entries = self.read_dir(&current)?;
                match find_in(&entries, self.upcase(), &parts[k]) {
                    None => return Err(ReadError::NotFound { path: copy_of(path) }),
                    Some(node) => {
                        passed.push(node);
                    },
                }
            }
            k += 1;
        }
        Ok(passed[passed.len() - 1])
    }
}

} // verus!
