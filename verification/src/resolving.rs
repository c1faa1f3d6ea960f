//! What a path leads to, one component after another.
use vstd::prelude::*;
use vstd::utf8::{decode_utf8, valid_utf8};

use crate::lookup::{folded_name, folding_at, found_in, named_at, Nowhere};
use crate::name::folded_by;
use crate::node::{Named, Node};
use crate::path::{components_of, first_slash, is_ascent, is_here, lemma_first_slash};
use crate::reader::Reader;
use crate::unicode::utf16;

verus! {

/// Whether two names compare as one: as many units each, and each unit of one folding as that of
/// the other does.
pub open spec fn alike(mapping: Seq<u16>, a: Seq<u8>, b: Seq<u8>) -> bool {
    let x = utf16(decode_utf8(a));
    let y = utf16(decode_utf8(b));
    &&& x.len() == y.len()
    &&& forall|i: int|
        0 <= i < x.len() ==> mapping[(#[trigger] x[i]) as int] == mapping[y[i] as int]
}

/// Names that are UTF-8 fold to one exactly where they compare as one.
proof fn lemma_alike(mapping: Seq<u16>, a: Seq<u8>, b: Seq<u8>)
    requires
        valid_utf8(a),
        valid_utf8(b),
    ensures
        folded_name(mapping, a) == folded_name(mapping, b) <==> alike(mapping, a, b),
{
    let x = utf16(decode_utf8(a));
    let y = utf16(decode_utf8(b));
    let p = folded_by(mapping, x);
    let q = folded_by(mapping, y);
    if p == q {
        assert(p.len() == q.len());
        assert forall|i: int| 0 <= i < x.len() implies mapping[(#[trigger] x[i]) as int]
            == mapping[y[i] as int] by {
            assert(p[i] == q[i]);
        }
    }
    if alike(mapping, a, b) {
        assert(p =~= q);
    }
}

/// The first entry of a name.
proof fn lemma_named_at(entries: Seq<Named>, name: Seq<u8>, from: int)
    requires
        0 <= from,
    ensures
        match named_at(entries, name, from) {
            Some(node) => exists|i: int|
                from <= i < entries.len() && (#[trigger] entries[i]).name == name && entries[i].node
                    == node && forall|j: int|
                    from <= j < i ==> (#[trigger] entries[j]).name != name,
            None => forall|j: int|
                from <= j < entries.len() ==> (#[trigger] entries[j]).name != name,
        },
    decreases entries.len() - from,
{
    if from < entries.len() {
        lemma_named_at(entries, name, from + 1);
        if entries[from].name == name {
            assert(entries[from].node == named_at(entries, name, from)->Some_0);
        } else if named_at(entries, name, from) is Some {
            let node = named_at(entries, name, from)->Some_0;
            let i = choose|i: int|
                from + 1 <= i < entries.len() && (#[trigger] entries[i]).name == name
                    && entries[i].node == node && forall|j: int|
                    from + 1 <= j < i ==> (#[trigger] entries[j]).name != name;
            assert(entries[i].name == name);
        }
    }
}

/// The first entry whose name folds to something.
proof fn lemma_folding_at(entries: Seq<Named>, mapping: Seq<u16>, folded: Seq<u16>, from: int)
    requires
        0 <= from,
    ensures
        match folding_at(entries, mapping, folded, from) {
            Some(node) => exists|i: int|
                from <= i < entries.len() && folded_name(mapping, (#[trigger] entries[i]).name)
                    == folded && entries[i].node == node && forall|j: int|
                    from <= j < i ==> folded_name(mapping, (#[trigger] entries[j]).name) != folded,
            None => forall|j: int|
                from <= j < entries.len() ==> folded_name(mapping, (#[trigger] entries[j]).name)
                    != folded,
        },
    decreases entries.len() - from,
{
    if from < entries.len() {
        lemma_folding_at(entries, mapping, folded, from + 1);
        if folded_name(mapping, entries[from].name) == folded {
            assert(entries[from].node == folding_at(entries, mapping, folded, from)->Some_0);
        } else if folding_at(entries, mapping, folded, from) is Some {
            let node = folding_at(entries, mapping, folded, from)->Some_0;
            let i = choose|i: int|
                from + 1 <= i < entries.len() && folded_name(mapping, (#[trigger] entries[i]).name)
                    == folded && entries[i].node == node && forall|j: int|
                    from + 1 <= j < i ==> folded_name(mapping, (#[trigger] entries[j]).name)
                        != folded;
            assert(folded_name(mapping, entries[i].name) == folded);
        }
    }
}

/// A name finds the first entry of that very name; where there is none, the first that compares
/// as it does, unit by unit through the volume's table; and nothing only where there is neither.
pub proof fn lemma_a_name_finds_its_entry(entries: Seq<Named>, mapping: Seq<u16>, name: Seq<u8>)
    requires
        valid_utf8(name),
        forall|i: int| 0 <= i < entries.len() ==> valid_utf8((#[trigger] entries[i]).name),
    ensures
        match found_in(entries, mapping, name) {
            Some(node) => {
                ||| exists|i: int|
                    0 <= i < entries.len() && (#[trigger] entries[i]).name == name
                        && entries[i].node == node && forall|j: int|
                        0 <= j < i ==> (#[trigger] entries[j]).name != name
                ||| {
                    &&& forall|j: int|
                        0 <= j < entries.len() ==> (#[trigger] entries[j]).name != name
                    &&& exists|i: int|
                        0 <= i < entries.len() && alike(
                            mapping,
                            (#[trigger] entries[i]).name,
                            name,
                        ) && entries[i].node == node && forall|j: int|
                            0 <= j < i ==> !alike(mapping, (#[trigger] entries[j]).name, name)
                }
            },
            None => forall|j: int|
                0 <= j < entries.len() ==> (#[trigger] entries[j]).name != name && !alike(
                    mapping,
                    entries[j].name,
                    name,
                ),
        },
{
    let folded = folded_name(mapping, name);
    lemma_named_at(entries, name, 0);
    lemma_folding_at(entries, mapping, folded, 0);
    assert forall|j: int| 0 <= j < entries.len() implies (folded_name(
        mapping,
        (#[trigger] entries[j]).name,
    ) == folded <==> alike(mapping, entries[j].name, name)) by {
        lemma_alike(mapping, entries[j].name, name);
    }
    if named_at(entries, name, 0) is None && folding_at(entries, mapping, folded, 0) is Some {
        let node = folding_at(entries, mapping, folded, 0)->Some_0;
        let i = choose|i: int|
            0 <= i < entries.len() && folded_name(mapping, (#[trigger] entries[i]).name) == folded
                && entries[i].node == node && forall|j: int|
                0 <= j < i ==> folded_name(mapping, (#[trigger] entries[j]).name) != folded;
        assert(alike(mapping, entries[i].name, name));
    }
}

/// The first slash of a path is that of the part before a slash, or that slash.
proof fn lemma_first_slash_of_joined(a: Seq<u8>, b: Seq<u8>)
    ensures
        first_slash(a + seq![0x2Fu8] + b) == first_slash(a),
    decreases a.len(),
{
    let path = a + seq![0x2Fu8] + b;
    if a.len() > 0 && a[0] != 0x2F {
        assert(path.drop_first() =~= a.drop_first() + seq![0x2Fu8] + b);
        lemma_first_slash_of_joined(a.drop_first(), b);
    }
}

/// The components of two paths with a slash between them are those of the first and then those of
/// the second.
pub proof fn lemma_components_of_joined_paths(a: Seq<u8>, b: Seq<u8>)
    ensures
        components_of(a + seq![0x2Fu8] + b) == components_of(a) + components_of(b),
    decreases a.len(),
{
    let path = a + seq![0x2Fu8] + b;
    lemma_first_slash_of_joined(a, b);
    lemma_first_slash(a);
    let end = first_slash(a);
    assert(path.subrange(0, end) =~= a.subrange(0, end));
    if end < a.len() {
        let rest = a.subrange(end + 1, a.len() as int);
        assert(path.subrange(end + 1, path.len() as int) =~= rest + seq![0x2Fu8] + b);
        lemma_components_of_joined_paths(rest, b);
        let first = a.subrange(0, end);
        if is_here(first) {
            assert(components_of(path) =~= components_of(a) + components_of(b));
        } else {
            assert(components_of(path) =~= components_of(a) + components_of(b));
        }
    } else {
        assert(path.subrange(end + 1, path.len() as int) =~= b);
        assert(a.subrange(0, end) =~= a);
        if a.len() > 0 {
            assert(components_of(Seq::<u8>::empty()) =~= Seq::empty());
        }
        assert(components_of(path) =~= components_of(a) + components_of(b));
    }
}

/// A name without a slash is one component, unless it is empty or a dot, which are none.
pub proof fn lemma_components_of_a_name(name: Seq<u8>)
    requires
        forall|i: int| 0 <= i < name.len() ==> name[i] != 0x2F,
    ensures
        components_of(name) == (if name.len() == 0 || name == seq![0x2Eu8] {
            Seq::<Seq<u8>>::empty()
        } else {
            seq![name]
        }),
{
    lemma_first_slash(name);
    assert(first_slash(name) == name.len());
    assert(name.subrange(0, name.len() as int) =~= name);
    assert(components_of(Seq::<u8>::empty()) =~= Seq::empty());
    if name.len() > 0 && !is_here(name) {
        assert(components_of(name) =~= seq![name]);
    }
}

impl<'a> Reader<'a> {
    /// The directories passed through, and what the components from `k` on lead to behind them.
    spec fn passed(&self, components: Seq<Seq<u8>>, k: int, passed: Seq<Node>) -> Result<
        Seq<Node>,
        Nowhere,
    >
        decreases components.len() - k,
    {
        let current = passed.last();
        if k >= components.len() {
            Ok(passed)
        } else if !current.directory() {
            Err(Nowhere::NotADirectory)
        } else if is_ascent(components[k]) {
            self.passed(
                components,
                k + 1,
                if passed.len() > 1 {
                    passed.drop_last()
                } else {
                    passed
                },
            )
        } else {
            match self.listing(current) {
                Err(e) => Err(Nowhere::Unreadable(e)),
                Ok(entries) => match found_in(entries, self.mapping(), components[k]) {
                    None => Err(Nowhere::NotFound),
                    Some(node) => self.passed(components, k + 1, passed.push(node)),
                },
            }
        }
    }

    /// What components lead to is the last of what is passed through.
    proof fn lemma_passed(&self, components: Seq<Seq<u8>>, k: int, passed: Seq<Node>)
        requires
            passed.len() > 0,
        ensures
            self.resolved(components, k, passed) == (match self.passed(components, k, passed) {
                Ok(all) => Ok::<Node, Nowhere>(all.last()),
                Err(e) => Err(e),
            }),
            self.passed(components, k, passed) matches Ok(all) ==> all.len() > 0,
        decreases components.len() - k,
    {
        if k < components.len() {
            let current = passed.last();
            if current.directory() {
                if is_ascent(components[k]) {
                    self.lemma_passed(
                        components,
                        k + 1,
                        if passed.len() > 1 {
                            passed.drop_last()
                        } else {
                            passed
                        },
                    );
                } else {
                    match self.listing(current) {
                        Ok(entries) => {
                            match found_in(entries, self.mapping(), components[k]) {
                                Some(node) => {
                                    self.lemma_passed(components, k + 1, passed.push(node));
                                },
                                None => {},
                            }
                        },
                        Err(_) => {},
                    }
                }
            }
        }
    }

    /// More components lead on from where those before them lead.
    proof fn lemma_passed_concat(&self, a: Seq<Seq<u8>>, b: Seq<Seq<u8>>, k: int, passed: Seq<Node>)
        requires
            0 <= k <= a.len(),
            passed.len() > 0,
        ensures
            self.passed(a + b, k, passed) == (match self.passed(a, k, passed) {
                Ok(all) => self.passed(b, 0, all),
                Err(e) => Err::<Seq<Node>, Nowhere>(e),
            }),
        decreases a.len() - k,
    {
        let all = a + b;
        if k < a.len() {
            let current = passed.last();
            assert(all[k] == a[k]);
            if current.directory() {
                if is_ascent(a[k]) {
                    self.lemma_passed_concat(
                        a,
                        b,
                        k + 1,
                        if passed.len() > 1 {
                            passed.drop_last()
                        } else {
                            passed
                        },
                    );
                } else {
                    match self.listing(current) {
                        Ok(entries) => {
                            match found_in(entries, self.mapping(), a[k]) {
                                Some(node) => {
                                    self.lemma_passed_concat(a, b, k + 1, passed.push(node));
                                },
                                None => {},
                            }
                        },
                        Err(_) => {},
                    }
                }
            }
        } else {
            self.lemma_passed_shift(a, b, 0, passed);
        }
    }

    /// Components lead where they lead, whatever came before them.
    proof fn lemma_passed_shift(&self, a: Seq<Seq<u8>>, b: Seq<Seq<u8>>, k: int, passed: Seq<Node>)
        requires
            0 <= k <= b.len(),
        ensures
            self.passed(a + b, a.len() + k, passed) == self.passed(b, k, passed),
        decreases b.len() - k,
    {
        let all = a + b;
        if k < b.len() {
            let current = passed.last();
            assert(all[a.len() + k] == b[k]);
            if current.directory() {
                if is_ascent(b[k]) {
                    self.lemma_passed_shift(
                        a,
                        b,
                        k + 1,
                        if passed.len() > 1 {
                            passed.drop_last()
                        } else {
                            passed
                        },
                    );
                } else {
                    match self.listing(current) {
                        Ok(entries) => {
                            match found_in(entries, self.mapping(), b[k]) {
                                Some(node) => {
                                    self.lemma_passed_shift(a, b, k + 1, passed.push(node));
                                },
                                None => {},
                            }
                        },
                        Err(_) => {},
                    }
                }
            }
        }
    }

    /// The path of no components leads to the root, however it is spelt.
    pub proof fn lemma_the_root_is_at_no_components(&self)
        ensures
            self.at_path(Seq::empty()) == Ok::<Node, Nowhere>(self.root_node()),
            self.at_path(seq![0x2Fu8]) == Ok::<Node, Nowhere>(self.root_node()),
    {
        let none = Seq::<u8>::empty();
        lemma_components_of_joined_paths(none, none);
        assert(none + seq![0x2Fu8] + none =~= seq![0x2Fu8]);
        assert(components_of(seq![0x2Fu8]) =~= Seq::empty());
    }

    /// A path and a name behind it leads to what the name finds in the directory the path leads
    /// to; to nothing where the name finds nothing there, or where the path leads to no directory,
    /// or to one that cannot be read, each said to be what it is; and where the path leads to
    /// nothing, to nothing for the same reason.
    pub proof fn lemma_a_name_behind_a_path_is_found_in_its_directory(
        &self,
        path: Seq<u8>,
        name: Seq<u8>,
    )
        requires
            name.len() > 0,
            forall|i: int| 0 <= i < name.len() ==> name[i] != 0x2F,
            name != seq![0x2Eu8],
            name != seq![0x2Eu8, 0x2Eu8],
        ensures
            self.at_path(path + seq![0x2Fu8] + name) == (match self.at_path(path) {
                Err(e) => Err::<Node, Nowhere>(e),
                Ok(dir) => if !dir.directory() {
                    Err(Nowhere::NotADirectory)
                } else {
                    match self.listing(dir) {
                        Err(e) => Err(Nowhere::Unreadable(e)),
                        Ok(entries) => match found_in(entries, self.mapping(), name) {
                            None => Err(Nowhere::NotFound),
                            Some(node) => Ok(node),
                        },
                    }
                },
            }),
    {
        let a = components_of(path);
        let b = components_of(name);
        let start = seq![self.root_node()];
        lemma_components_of_joined_paths(path, name);
        lemma_components_of_a_name(name);
        self.lemma_passed(a + b, 0, start);
        self.lemma_passed(a, 0, start);
        self.lemma_passed_concat(a, b, 0, start);
        match self.passed(a, 0, start) {
            Ok(all) => {
                assert(b[0] == name);
                reveal_with_fuel(Reader::passed, 2);
                let dir = all.last();
                match self.listing(dir) {
                    Ok(entries) => {
                        match found_in(entries, self.mapping(), name) {
                            Some(node) => {
                                assert(all.push(node).last() == node);
                            },
                            None => {},
                        }
                    },
                    Err(_) => {},
                }
            },
            Err(_) => {},
        }
    }

    /// A dot, and nothing, behind a path leads where the path does.
    pub proof fn lemma_a_dot_behind_a_path_leads_where_it_does(&self, path: Seq<u8>)
        ensures
            self.at_path(path + seq![0x2Fu8] + seq![0x2Eu8]) == self.at_path(path),
            self.at_path(path + seq![0x2Fu8]) == self.at_path(path),
    {
        let dot = seq![0x2Eu8];
        let none = Seq::<u8>::empty();
        lemma_components_of_joined_paths(path, dot);
        lemma_components_of_a_name(dot);
        lemma_components_of_joined_paths(path, none);
        lemma_components_of_a_name(none);
        assert(path + seq![0x2Fu8] + none =~= path + seq![0x2Fu8]);
        assert(components_of(path) + Seq::<Seq<u8>>::empty() =~= components_of(path));
    }

    /// Two dots behind the name of a directory lead back to the directory it is in, and from the
    /// root to the root.
    pub proof fn lemma_two_dots_lead_back(&self, path: Seq<u8>, name: Seq<u8>)
        requires
            name.len() > 0,
            forall|i: int| 0 <= i < name.len() ==> name[i] != 0x2F,
            name != seq![0x2Eu8],
            name != seq![0x2Eu8, 0x2Eu8],
            self.at_path(path + seq![0x2Fu8] + name) matches Ok(node) && node.directory(),
        ensures
            self.at_path(path + seq![0x2Fu8] + name + seq![0x2Fu8, 0x2Eu8, 0x2Eu8])
                == self.at_path(path),
            self.root_node().directory() ==> self.at_path(seq![0x2Fu8, 0x2Eu8, 0x2Eu8]) == Ok::<
                Node,
                Nowhere,
            >(self.root_node()),
    {
        let up = seq![0x2Eu8, 0x2Eu8];
        let under = path + seq![0x2Fu8] + name;
        let a = components_of(path);
        let b = components_of(name);
        let c = components_of(up);
        let start = seq![self.root_node()];
        lemma_components_of_joined_paths(path, name);
        lemma_components_of_joined_paths(under, up);
        lemma_components_of_a_name(name);
        lemma_components_of_a_name(up);
        assert(under + seq![0x2Fu8] + up =~= under + seq![0x2Fu8, 0x2Eu8, 0x2Eu8]);
        assert(up[0] == 0x2E && up.len() == 2);
        self.lemma_a_name_behind_a_path_is_found_in_its_directory(path, name);
        self.lemma_passed(a + b + c, 0, start);
        self.lemma_passed(a + b, 0, start);
        self.lemma_passed(a, 0, start);
        self.lemma_passed_concat(a, b, 0, start);
        self.lemma_passed_concat(a + b, c, 0, start);
        let all = self.passed(a, 0, start)->Ok_0;
        let node = self.at_path(under)->Ok_0;
        reveal_with_fuel(Reader::passed, 2);
        assert(b[0] == name);
        assert(self.passed(a + b, 0, start) == Ok::<Seq<Node>, Nowhere>(all.push(node)));
        assert(c[0] == up);
        assert(all.push(node).drop_last() =~= all);
        let none = Seq::<u8>::empty();
        lemma_components_of_joined_paths(none, up);
        assert(none + seq![0x2Fu8] + up =~= seq![0x2Fu8, 0x2Eu8, 0x2Eu8]);
        assert(components_of(none) + c =~= c);
        self.lemma_passed(c, 0, start);
    }
}

} // verus!
