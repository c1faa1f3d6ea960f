//! A walk gives every path of a volume once, whatever volume it is of.
use vstd::prelude::*;

use crate::node::{Named, Node};
use crate::read_error::ReadError;
use crate::reader::{name_cap, Reader};
use crate::walk::{by_name, child_path, lemma_name_place, name_place, WalkStep, Walked};

verus! {

/// Entries by name are the entries: which of them each is.
proof fn lemma_by_name_are_the_entries(entries: Seq<Named>) -> (which: Seq<int>)
    ensures
        which.len() == entries.len(),
        by_name(entries).len() == entries.len(),
        which.no_duplicates(),
        forall|i: int|
            0 <= i < which.len() ==> 0 <= #[trigger] which[i] < entries.len() && by_name(entries)[i]
                == entries[which[i]],
        forall|k: int| 0 <= k < entries.len() ==> #[trigger] which.contains(k),
    decreases entries.len(),
{
    if entries.len() == 0 {
        Seq::empty()
    } else {
        let rest = entries.drop_first();
        let sorted = by_name(rest);
        let before = lemma_by_name_are_the_entries(rest);
        let at = name_place(sorted, entries[0].name, 0);
        lemma_name_place(sorted, entries[0].name, 0);
        let moved = Seq::new(before.len(), |i: int| before[i] + 1);
        let which = moved.insert(at, 0);
        let all = by_name(entries);
        assert(all == sorted.insert(at, entries[0]));
        assert forall|i: int| 0 <= i < which.len() implies 0 <= #[trigger] which[i] < entries.len()
            && all[i] == entries[which[i]] by {
            if i < at {
                assert(which[i] == before[i] + 1);
                assert(all[i] == sorted[i]);
            } else if i > at {
                assert(which[i] == before[i - 1] + 1);
                assert(all[i] == sorted[i - 1]);
            }
        }
        assert(which.no_duplicates()) by {
            assert forall|i: int, j: int|
                0 <= i < which.len() && 0 <= j < which.len() && i != j implies which[i]
                != which[j] by {
                let a = if i < at {
                    i
                } else {
                    i - 1
                };
                let b = if j < at {
                    j
                } else {
                    j - 1
                };
                if i != at {
                    assert(which[i] == before[a] + 1);
                }
                if j != at {
                    assert(which[j] == before[b] + 1);
                }
                if i != at && j != at {
                    assert(before[a] != before[b]);
                } else if i == at {
                    assert(0 <= before[b]);
                } else {
                    assert(0 <= before[a]);
                }
            }
        }
        assert forall|k: int| 0 <= k < entries.len() implies #[trigger] which.contains(k) by {
            if k == 0 {
                assert(which[at] == 0);
            } else {
                assert(before.contains(k - 1));
                let i = choose|i: int| 0 <= i < before.len() && before[i] == k - 1;
                assert(which[if i < at {
                    i
                } else {
                    i + 1
                }] == k);
            }
        }
        which
    }
}

impl<'a> Reader<'a> {
    /// What is at a place of the tree and the path of it: the root, whose path is empty, or the
    /// entry of this number of the directory at the place before, whose path is that directory's
    /// with a slash and its name behind it.
    pub open spec fn named_place(&self, at: Seq<int>) -> Option<Walked>
        decreases at.len(),
    {
        if at.len() == 0 {
            Some(Walked { path: Seq::empty(), node: self.root_node() })
        } else {
            match self.named_place(at.drop_last()) {
                None => None,
                Some(dir) => if !dir.node.directory() {
                    None
                } else {
                    match self.listing(dir.node) {
                        Err(_) => None,
                        Ok(entries) => if 0 <= at.last() < entries.len() {
                            Some(
                                Walked {
                                    path: dir.path + seq![0x2Fu8] + entries[at.last()].name,
                                    node: entries[at.last()].node,
                                },
                            )
                        } else {
                            None
                        },
                    }
                },
            }
        }
    }

    /// Whether a directory at a place of the tree begins on a cluster.
    pub open spec fn place_begins(&self, at: Seq<int>, first: u32) -> bool {
        match self.named_place(at) {
            None => false,
            Some(there) => there.node.directory() && there.node.storage.first() == Some(first),
        }
    }

    /// Whether no two directories of the tree begin on one cluster.
    pub open spec fn places_apart(&self) -> bool {
        forall|a: Seq<int>, b: Seq<int>, first: u32| #[trigger]
            self.place_begins(a, first) && #[trigger] self.place_begins(b, first) ==> a == b
    }

    /// Whether a place of the tree has been given or is to come, or is the root.
    spec fn known(&self, at: Seq<int>, given: Seq<Seq<int>>, coming: Seq<Seq<int>>) -> bool {
        at.len() == 0 || given.contains(at) || coming.contains(at)
    }

    /// Whether an entry of what is at a place is known, where there is one.
    spec fn entry_known(
        &self,
        at: Seq<int>,
        k: int,
        given: Seq<Seq<int>>,
        coming: Seq<Seq<int>>,
    ) -> bool {
        self.named_place(at.push(k)) is Some ==> self.known(at.push(k), given, coming)
    }

    /// Whether a walk has given these places and is to give those.
    #[verifier::opaque]
    spec fn walks(
        &self,
        pending: Seq<Walked>,
        walked: Set<int>,
        out: Seq<Walked>,
        given: Seq<Seq<int>>,
        coming: Seq<Seq<int>>,
    ) -> bool {
        &&& given.len() == out.len()
        &&& coming.len() == pending.len()
        &&& (given + coming).no_duplicates()
        &&& forall|i: int|
            0 <= i < given.len() ==> (#[trigger] given[i]).len() > 0 && self.named_place(given[i])
                == Some(out[i])
        &&& forall|i: int|
            0 <= i < coming.len() ==> (#[trigger] coming[i]).len() > 0 && self.named_place(
                coming[i],
            ) == Some(pending[i])
        &&& forall|at: Seq<int>| #[trigger]
            self.known(at, given, coming) ==> at.len() <= 1 || given.contains(at.drop_last())
        &&& forall|c: int| #[trigger]
            walked.contains(c) ==> 0 <= c <= u32::MAX && exists|at: Seq<int>|
                (at.len() == 0 || given.contains(at)) && #[trigger] self.place_begins(
                    at,
                    c as u32,
                )
        &&& forall|at: Seq<int>, k: int|
            (at.len() == 0 || given.contains(at)) ==> #[trigger] self.entry_known(
                at,
                k,
                given,
                coming,
            )
    }

    /// The places of the entries of the directory at a place, the last by name first.
    spec fn under(&self, at: Seq<int>, which: Seq<int>) -> Seq<Seq<int>> {
        Seq::new(which.len(), |i: int| at.push(which[which.len() - 1 - i]))
    }

    /// The entries of a directory a walk enters are what it adds to what is to come.
    proof fn lemma_children(&self, at: Seq<int>, there: Walked) -> (which: Seq<int>)
        requires
            self.named_place(at) == Some(there),
            there.node.directory(),
            self.children(there.node, there.path) is Ok,
        ensures
            ({
                let children = self.children(there.node, there.path)->Ok_0;
                let places = self.under(at, which);
                &&& which.no_duplicates()
                &&& places.len() == children.len()
                &&& forall|i: int|
                    0 <= i < places.len() ==> self.named_place(#[trigger] places[i]) == Some(
                        children[i],
                    )
                &&& forall|k: int|
                    self.named_place(#[trigger] at.push(k)) is Some ==> places.contains(at.push(k))
            }),
    {
        let entries = self.listing(there.node)->Ok_0;
        let which = lemma_by_name_are_the_entries(entries);
        let sorted = by_name(entries);
        let places = self.under(at, which);
        let children = self.children(there.node, there.path)->Ok_0;
        assert forall|i: int| 0 <= i < places.len() implies self.named_place(#[trigger] places[i])
            == Some(children[i]) by {
            let k = which[which.len() - 1 - i];
            assert(places[i] == at.push(k));
            assert(at.push(k).drop_last() =~= at);
            assert(at.push(k).last() == k);
            assert(sorted[sorted.len() - 1 - i] == entries[k]);
            assert(child_path(there.path, entries[k].name) == there.path + seq![0x2Fu8]
                + entries[k].name);
        }
        assert forall|k: int| self.named_place(#[trigger] at.push(k)) is Some implies
            places.contains(at.push(k)) by {
            assert(at.push(k).drop_last() =~= at);
            assert(at.push(k).last() == k);
            assert(which.contains(k));
            let i = choose|i: int| 0 <= i < which.len() && which[i] == k;
            assert(places[which.len() - 1 - i] == at.push(k));
        }
        which
    }

    /// Giving a path, and adding what is in it where it is a directory entered for the first time,
    /// keeps to the tree.
    #[verifier::rlimit(60)]
    proof fn lemma_step(
        &self,
        pending: Seq<Walked>,
        walked: Set<int>,
        out: Seq<Walked>,
        given: Seq<Seq<int>>,
        coming: Seq<Seq<int>>,
    ) -> (next: Seq<Seq<int>>)
        requires
            self.places_apart(),
            self.walks(pending, walked, out, given, coming),
            self.walk_step(pending, walked, out.len() as int) is Give,
        ensures
            ({
                let step = self.walk_step(pending, walked, out.len() as int);
                self.walks(
                    step->pending,
                    step->walked,
                    out.push(step->entry),
                    given.push(coming.last()),
                    next,
                )
            }),
    {
        reveal(Reader::walks);
        let step = self.walk_step(pending, walked, out.len() as int);
        let entry = step->entry;
        let last = coming.len() - 1;
        let here = coming.last();
        assert(coming[last] == here);
        assert(self.named_place(here) == Some(entry));
        let given2 = given.push(here);
        let left = coming.drop_last();
        let both = given + coming;
        let entered = self.unwalked(entry.node, walked);
        let which = if entered {
            self.lemma_children(here, entry)
        } else {
            Seq::empty()
        };
        let more = self.under(here, which);
        let next = left + more;
        assert forall|at: Seq<int>| given.contains(at) implies given2.contains(at) by {
            let i = choose|i: int| 0 <= i < given.len() && given[i] == at;
            assert(given2[i] == at);
        }
        assert(given2[given.len() as int] == here);
        assert forall|at: Seq<int>| given2.contains(at) implies given.contains(at) || at == here by {
            let i = choose|i: int| 0 <= i < given2.len() && given2[i] == at;
            if i < given.len() {
                assert(given[i] == at);
            }
        }
        assert(!given.contains(here)) by {
            if given.contains(here) {
                let i = choose|i: int| 0 <= i < given.len() && given[i] == here;
                assert(both[i] == here && both[given.len() + last] == here);
            }
        }
        assert(!left.contains(here)) by {
            if left.contains(here) {
                let i = choose|i: int| 0 <= i < left.len() && left[i] == here;
                assert(both[given.len() + i] == here && both[given.len() + last] == here);
            }
        }
        assert forall|k: int| !self.known(#[trigger] here.push(k), given, coming) by {
            if self.known(here.push(k), given, coming) {
                assert(here.push(k).drop_last() =~= here);
                assert(false);
            }
        }
        assert forall|at: Seq<int>| #[trigger] self.known(at, given, coming) implies self.known(
            at,
            given2,
            next,
        ) by {
            if coming.contains(at) {
                let i = choose|i: int| 0 <= i < coming.len() && coming[i] == at;
                if i < last {
                    assert(next[i] == at);
                }
            }
        }
        assert forall|at: Seq<int>| #[trigger] self.known(at, given2, next) implies self.known(
            at,
            given,
            coming,
        ) || (at.len() > 1 && at.drop_last() == here) by {
            if next.contains(at) {
                let i = choose|i: int| 0 <= i < next.len() && next[i] == at;
                if i < left.len() {
                    assert(coming[i] == at);
                } else {
                    let k = which[which.len() - 1 - (i - left.len())];
                    assert(at == here.push(k));
                    assert(at.drop_last() =~= here);
                }
            }
            if at == here {
                assert(coming.contains(here));
            }
        }
        assert((given2 + next).no_duplicates()) by {
            let all = given2 + next;
            let n = given.len() as int;
            assert forall|i: int, j: int|
                0 <= i < all.len() && 0 <= j < all.len() && i < j implies all[i] != all[j] by {
                let edge = n + 1 + left.len();
                if j < edge {
                    let a = if i < n {
                        i
                    } else if i == n {
                        n + last
                    } else {
                        i - 1
                    };
                    let b = if j < n {
                        j
                    } else if j == n {
                        n + last
                    } else {
                        j - 1
                    };
                    assert(all[i] == both[a] && all[j] == both[b]);
                } else {
                    let q = j - edge;
                    let k = which[which.len() - 1 - q];
                    assert(all[j] == here.push(k));
                    if i < edge {
                        let a = if i < n {
                            i
                        } else if i == n {
                            n + last
                        } else {
                            i - 1
                        };
                        assert(all[i] == both[a]);
                        assert(self.known(both[a], given, coming)) by {
                            if a < n {
                                assert(given[a] == both[a]);
                            } else {
                                assert(coming[a - n] == both[a]);
                            }
                        }
                        assert(!self.known(here.push(k), given, coming));
                    } else {
                        let p = i - edge;
                        let l = which[which.len() - 1 - p];
                        assert(all[i] == here.push(l));
                        assert(here.push(l).last() == l && here.push(k).last() == k);
                        assert(l != k);
                    }
                }
            }
        }
        assert forall|i: int| 0 <= i < given2.len() implies (#[trigger] given2[i]).len() > 0
            && self.named_place(given2[i]) == Some(out.push(entry)[i]) by {
            if i < given.len() {
                assert(given2[i] == given[i]);
            }
        }
        assert forall|i: int| 0 <= i < next.len() implies (#[trigger] next[i]).len() > 0
            && self.named_place(next[i]) == Some(step->pending[i]) by {
            if i < left.len() {
                assert(next[i] == coming[i]);
                assert(step->pending[i] == pending[i]);
            } else {
                assert(next[i] == more[i - left.len()]);
            }
        }
        assert forall|c: int| #[trigger] step->walked.contains(c) implies 0 <= c <= u32::MAX
            && exists|at: Seq<int>|
            (at.len() == 0 || given2.contains(at)) && #[trigger] self.place_begins(
                at,
                c as u32,
            ) by {
            if walked.contains(c) {
                let at = choose|at: Seq<int>|
                    (at.len() == 0 || given.contains(at)) && #[trigger] self.place_begins(
                        at,
                        c as u32,
                    );
                assert(self.place_begins(at, c as u32));
            } else {
                assert(self.place_begins(here, c as u32));
            }
        }
        assert forall|at: Seq<int>, k: int| (at.len() == 0 || given2.contains(at)) implies
            #[trigger] self.entry_known(at, k, given2, next) by {
            if at == here {
                if self.named_place(at.push(k)) is Some {
                    assert(at.push(k).drop_last() =~= at);
                    if entered {
                        assert(more.contains(at.push(k)));
                        let i = choose|i: int| 0 <= i < more.len() && more[i] == at.push(k);
                        assert(next[left.len() + i] == at.push(k));
                    } else {
                        if entry.node.storage.first() is Some {
                            let first = entry.node.storage.first()->Some_0;
                            assert(walked.contains(first as int));
                            let other = choose|p: Seq<int>|
                                (p.len() == 0 || given.contains(p)) && #[trigger] self.place_begins(
                                    p,
                                    first,
                                );
                            assert(self.place_begins(here, first));
                            assert(other == here);
                            assert(false);
                        } else {
                            assert(self.listing(entry.node)->Ok_0.len() == 0);
                            assert(false);
                        }
                    }
                }
            } else {
                assert(self.entry_known(at, k, given, coming));
                if self.known(at.push(k), given, coming) {
                    assert(self.known(at.push(k), given2, next));
                }
            }
        }
        next
    }

    /// A walk under way gives the rest of the places of the tree.
    proof fn lemma_walk_from_gives_every_place(
        &self,
        pending: Seq<Walked>,
        walked: Set<int>,
        out: Seq<Walked>,
        given: Seq<Seq<int>>,
        coming: Seq<Seq<int>>,
    ) -> (places: Seq<Seq<int>>)
        requires
            self.places_apart(),
            self.walks(pending, walked, out, given, coming),
            self.walk_from(pending, walked, out) is Ok,
        ensures
            self.walks(
                Seq::empty(),
                Set::empty(),
                self.walk_from(pending, walked, out)->Ok_0,
                places,
                Seq::empty(),
            ),
        decreases name_cap(self.taken_on(), self.vol().layout) - out.len(),
    {
        match self.walk_step(pending, walked, out.len() as int) {
            WalkStep::Give { entry, pending: rest, walked: seen } => {
                let next = self.lemma_step(pending, walked, out, given, coming);
                self.lemma_walk_from_gives_every_place(
                    rest,
                    seen,
                    out.push(entry),
                    given.push(coming.last()),
                    next,
                )
            },
            _ => {
                reveal(Reader::walks);
                assert(pending =~= Seq::empty());
                assert(coming =~= Seq::empty());
                given
            },
        }
    }

    /// Every place of the tree is given where the entries of each directory given are.
    proof fn lemma_every_place_is_given(&self, out: Seq<Walked>, places: Seq<Seq<int>>, at: Seq<int>)
        requires
            self.walks(Seq::empty(), Set::empty(), out, places, Seq::empty()),
            self.named_place(at) is Some,
        ensures
            at.len() == 0 || places.contains(at),
        decreases at.len(),
    {
        reveal(Reader::walks);
        if at.len() > 0 {
            let before = at.drop_last();
            self.lemma_every_place_is_given(out, places, before);
            assert(before.push(at.last()) =~= at);
            assert(self.entry_known(before, at.last(), places, Seq::empty()));
        }
    }

    /// A walk that comes to its end gives every entry of every directory of the volume, at any
    /// depth, each once and under its path, and gives nothing else, whichever driver wrote the
    /// volume. This is of volumes on which no two directories begin on one cluster: a walk enters
    /// such a directory once.
    pub proof fn lemma_a_walk_gives_every_path_once(&self) -> (places: Seq<Seq<int>>)
        requires
            self.places_apart(),
            self.walked() is Ok,
        ensures
            places.len() == self.walked()->Ok_0.len(),
            places.no_duplicates(),
            forall|i: int|
                0 <= i < places.len() ==> (#[trigger] places[i]).len() > 0 && self.named_place(
                    places[i],
                ) == Some(self.walked()->Ok_0[i]),
            forall|at: Seq<int>|
                at.len() > 0 && #[trigger] self.named_place(at) is Some ==> places.contains(at),
    {
        broadcast use crate::dirent::FileAttributes::lemma_of_word;

        let root = self.root_node();
        let top = Seq::<int>::empty();
        let none = Seq::<Walked>::empty();
        let there = Walked { path: Seq::empty(), node: root };
        assert(root.directory()) by {
            assert(0x10u16 & 0x10u16 == 0x10u16) by (bit_vector);
        }
        assert(self.named_place(top) == Some(there));
        let children = self.children(root, Seq::empty())->Ok_0;
        let which = self.lemma_children(top, there);
        let coming = self.under(top, which);
        let given = Seq::<Seq<int>>::empty();
        let walked = self.with_walked(root, Set::empty());
        assert(self.walks(children, walked, none, given, coming)) by {
            reveal(Reader::walks);
            assert((given + coming).no_duplicates()) by {
                assert forall|i: int, j: int|
                    0 <= i < coming.len() && 0 <= j < coming.len() && i != j implies (given
                    + coming)[i] != (given + coming)[j] by {
                    let a = which[which.len() - 1 - i];
                    let b = which[which.len() - 1 - j];
                    assert(coming[i].last() == a && coming[j].last() == b);
                }
            }
            assert forall|at: Seq<int>| #[trigger] self.known(at, given, coming) implies at.len()
                <= 1 by {
                if coming.contains(at) {
                    let i = choose|i: int| 0 <= i < coming.len() && coming[i] == at;
                    assert(at.len() == 1);
                }
            }
            assert forall|c: int| #[trigger] walked.contains(c) implies 0 <= c <= u32::MAX
                && exists|at: Seq<int>|
                (at.len() == 0 || given.contains(at)) && #[trigger] self.place_begins(
                    at,
                    c as u32,
                ) by {
                assert(self.place_begins(top, c as u32));
            }
            assert forall|at: Seq<int>, k: int| (at.len() == 0 || given.contains(at)) implies
                #[trigger] self.entry_known(at, k, given, coming) by {
                assert(at =~= top);
            }
        }
        let places = self.lemma_walk_from_gives_every_place(children, walked, none, given, coming);
        let all = self.walked()->Ok_0;
        assert forall|at: Seq<int>|
            at.len() > 0 && #[trigger] self.named_place(at) is Some implies places.contains(at) by {
            self.lemma_every_place_is_given(all, places, at);
        }
        reveal(Reader::walks);
        assert(places + Seq::<Seq<int>>::empty() =~= places);
        places
    }

    /// A walk under way is cut short only by a directory that cannot be listed, a path that is too
    /// long, or more names than it takes on.
    proof fn lemma_walk_from_fails(&self, pending: Seq<Walked>, walked: Set<int>, out: Seq<Walked>)
        ensures
            self.walk_from(pending, walked, out) matches Err(e) ==> {
                ||| e is PathTooLong
                ||| e is WalkTooLarge
                ||| exists|node: Node|
                    node.directory() && #[trigger] self.listing(node) == Err::<
                        Seq<Named>,
                        ReadError,
                    >(e)
            },
        decreases name_cap(self.taken_on(), self.vol().layout) - out.len(),
    {
        match self.walk_step(pending, walked, out.len() as int) {
            WalkStep::Give { entry, pending: rest, walked: seen } => {
                self.lemma_walk_from_fails(rest, seen, out.push(entry));
            },
            WalkStep::Fail(e) => {
                if pending.len() > 0 {
                    let node = pending.last().node;
                    if self.listing(node) is Err {
                        assert(self.listing(node) is Err);
                    }
                }
            },
            WalkStep::End => {},
        }
    }

    /// A walk is cut short only by a directory that cannot be listed, for the reason it cannot be,
    /// or by a path that is too long, or by more names than it takes on.
    pub proof fn lemma_a_walk_is_cut_short_only_by_what_it_meets(&self)
        ensures
            self.walked() matches Err(e) ==> {
                ||| e is PathTooLong
                ||| e is WalkTooLarge
                ||| exists|node: Node|
                    node.directory() && #[trigger] self.listing(node) == Err::<
                        Seq<Named>,
                        ReadError,
                    >(e)
            },
    {
        broadcast use crate::dirent::FileAttributes::lemma_of_word;

        let root = self.root_node();
        assert(root.directory()) by {
            assert(0x10u16 & 0x10u16 == 0x10u16) by (bit_vector);
        }
        match self.children(root, Seq::empty()) {
            Ok(children) => {
                self.lemma_walk_from_fails(
                    children,
                    self.with_walked(root, Set::empty()),
                    Seq::empty(),
                );
            },
            Err(e) => {
                if self.listing(root) is Err {
                    assert(self.listing(root) == Err::<Seq<Named>, ReadError>(e));
                }
            },
        }
    }
}

impl<'a> Reader<'a> {
    /// The paths of a directory are refused exactly where it cannot be listed, for the reason it
    /// cannot be, or where one of them is longer than 4096 bytes; and else there is one for each of
    /// its entries.
    pub proof fn lemma_which_paths_are_too_long(&self, node: Node, prefix: Seq<u8>)
        ensures
            match self.listing(node) {
                Err(e) => self.children(node, prefix) == Err::<Seq<Walked>, ReadError>(e),
                Ok(entries) => {
                    let long = exists|k: int|
                        0 <= k < entries.len() && prefix.len() + 1 + (
                        #[trigger] entries[k]).name.len() > 4096;
                    &&& long ==> self.children(node, prefix) == Err::<Seq<Walked>, ReadError>(
                        ReadError::PathTooLong { limit: 4096 },
                    )
                    &&& !long ==> self.children(node, prefix) is Ok && self.children(
                        node,
                        prefix,
                    )->Ok_0.len() == entries.len()
                },
            },
    {
        match self.listing(node) {
            Err(_) => {},
            Ok(entries) => {
                let sorted = by_name(entries);
                let which = lemma_by_name_are_the_entries(entries);
                if exists|k: int|
                    0 <= k < entries.len() && prefix.len() + 1 + (
                    #[trigger] entries[k]).name.len() > 4096 {
                    let k = choose|k: int|
                        0 <= k < entries.len() && prefix.len() + 1 + (
                        #[trigger] entries[k]).name.len() > 4096;
                    assert(which.contains(k));
                    let i = choose|i: int| 0 <= i < which.len() && which[i] == k;
                    assert(sorted[i] == entries[which[i]]);
                    assert(child_path(prefix, sorted[i].name).len() > 4096);
                } else {
                    assert forall|i: int| 0 <= i < sorted.len() implies child_path(
                        prefix,
                        (#[trigger] sorted[i]).name,
                    ).len() <= 4096 by {
                        assert(sorted[i] == entries[which[i]]);
                    }
                }
            },
        }
    }
}

} // verus!
