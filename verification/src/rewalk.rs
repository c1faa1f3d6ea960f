//! A volume a format has written, walked.
use vstd::prelude::*;

use crate::allocate::lemma_settled;
use crate::fresh::Fresh;
use crate::image::lemma_directory_fits;
use crate::materialize::{format_mapping, formatted, planned};
use crate::name::{folded_by, lemma_held_name_reads_back};
use crate::node::{Named, Node};
use crate::options::FormatOptions;
use crate::path::{
    before, components_of, joined, key_of, lemma_before_total, lemma_components_are_plain,
    lemma_joined_parts, last_slash, lemma_last_slash, name_of, parent_of, SLASH,
};
use crate::placed::{contents_of, holds_at, holds_source, is_sourced, placeable};
use crate::policy::{OpenOptions, MAX_PATH};
use crate::read_error::ReadError;
use crate::reader::{from_base, name_cap, opened, Opened, Reader};
use crate::roundtrip::{
    fresh_of, is_directory, lemma_entry_is_a_directory, lemma_formatted_volume_opens, lemma_fresh,
};
use crate::sort::sorted_source;
use crate::soundness::countable;
use crate::source::SourceView;
use crate::walk::{
    by_name, child_path, has_parent, last_first, lemma_by_name_ascends, lemma_name_place,
    name_place, Walked,
};

verus! {

/// Which entry each of the entries by name is.
spec fn is_order(entries: Seq<Named>, order: Seq<int>) -> bool {
    &&& order.len() == entries.len()
    &&& by_name(entries).len() == entries.len()
    &&& forall|i: int|
        0 <= i < order.len() ==> 0 <= #[trigger] order[i] < entries.len() && by_name(entries)[i]
            == entries[order[i]]
    &&& forall|i: int, l: int|
        0 <= i < l < order.len() ==> #[trigger] order[i] != #[trigger] order[l]
    &&& forall|t: int| 0 <= t < entries.len() ==> #[trigger] order.contains(t)
}

/// The entries by name are the entries, each once.
proof fn lemma_order(entries: Seq<Named>) -> (order: Seq<int>)
    ensures
        is_order(entries, order),
    decreases entries.len(),
{
    if entries.len() == 0 {
        Seq::empty()
    } else {
        let rest = entries.drop_first();
        let sorted = by_name(rest);
        let before = lemma_order(rest);
        let at = name_place(sorted, entries[0].name, 0);
        lemma_name_place(sorted, entries[0].name, 0);
        let later = Seq::new(before.len(), |i: int| before[i] + 1);
        let order = later.insert(at, 0);
        let all = by_name(entries);
        assert(all == sorted.insert(at, entries[0]));
        assert forall|i: int| 0 <= i < order.len() implies 0 <= #[trigger] order[i]
            < entries.len() && all[i] == entries[order[i]] by {
            if i < at {
                assert(order[i] == before[i] + 1);
                assert(rest[before[i]] == entries[before[i] + 1]);
            } else if i > at {
                assert(order[i] == before[i - 1] + 1);
                assert(rest[before[i - 1]] == entries[before[i - 1] + 1]);
            }
        }
        assert forall|i: int, l: int| 0 <= i < l < order.len() implies #[trigger] order[i]
            != #[trigger] order[l] by {
            let a = if i < at {
                i
            } else {
                i - 1
            };
            let b = if l < at {
                l
            } else {
                l - 1
            };
            if i != at && l != at {
                assert(order[i] == before[a] + 1 && order[l] == before[b] + 1);
                assert(before[a] != before[b]);
            } else if i == at {
                assert(order[l] == before[b] + 1);
            } else {
                assert(order[i] == before[a] + 1);
            }
        }
        assert forall|t: int| 0 <= t < entries.len() implies #[trigger] order.contains(t) by {
            if t == 0 {
                assert(order[at] == 0);
            } else {
                assert(before.contains(t - 1));
                let i = choose|i: int| 0 <= i < before.len() && before[i] == t - 1;
                if i < at {
                    assert(order[i] == t);
                } else {
                    assert(order[i + 1] == t);
                }
            }
        }
        order
    }
}

impl Fresh {
    /// The path of directory `d` as a walk gives it: the root's is empty.
    pub open spec fn prefix(self, d: int) -> Seq<u8> {
        if d == 0 {
            Seq::empty()
        } else {
            seq![SLASH] + key_of(self.tree.dirs[d].path)
        }
    }

    /// What a walk gives for entry `j` of directory `d`.
    pub open spec fn stop(self, d: int, j: int) -> Walked {
        let named = self.named(d, j);
        Walked { path: child_path(self.prefix(d), named.name), node: named.node }
    }

    /// Whether the path of each directory is that of the entry it has.
    #[verifier::opaque]
    pub open spec fn pathed(self) -> bool {
        forall|d: int, j: int, k: int| #[trigger]
            self.names_dir(d, j, k) ==> self.prefix(k) == self.stop(d, j).path
    }

    /// The path a walk gives an entry is the key of the source entry it is of.
    pub proof fn lemma_stop_path(self, source: Seq<SourceView>, i: int, d: int, j: int)
        requires
            self.wf(),
            holds_source(self.tree, source),
            holds_at(self.tree, source, i, d, j),
        ensures
            self.stop(d, j).path == seq![SLASH] + key_of(source[i].path),
    {
        let components = components_of(source[i].path);
        let key = key_of(source[i].path);
        lemma_components_are_plain(source[i].path);
        assert(components.len() > 0) by {
            if components.len() == 0 {
                assert(joined(components).len() == 0);
            }
        }
        lemma_joined_parts(components);
        lemma_held_name_reads_back(name_of(key));
        let rest = components.drop_last();
        assert(d == 0 <==> components.len() == 1) by {
            reveal(holds_source);
            if components.len() > 1 {
                assert(forall|l: int| 0 <= l < rest.len() ==> rest[l] == components[l]);
                lemma_joined_parts(rest);
            } else {
                assert(joined(rest).len() == 0);
                if d > 0 {
                    assert(key_of(self.tree.dirs[0].path) != key_of(self.tree.dirs[d].path));
                    assert(key_of(self.tree.dirs[0].path) =~= key_of(self.tree.dirs[d].path));
                }
            }
        }
        assert(self.stop(d, j).path =~= seq![SLASH] + key);
    }

    /// A volume that holds a source has each directory at the path of its entry.
    pub proof fn lemma_pathed(self, source: Seq<SourceView>)
        requires
            self.wf(),
            holds_source(self.tree, source),
        ensures
            self.pathed(),
    {
        reveal(Fresh::pathed);
        assert forall|d: int, j: int, k: int| #[trigger] self.names_dir(d, j, k) implies
            self.prefix(k) == self.stop(d, j).path by {
            self.lemma_names_inside(d, j, k);
            assert(is_sourced(self.tree, source, d, j)) by {
                reveal(holds_source);
            }
            let i = choose|i: int|
                0 <= i < source.len() && #[trigger] holds_at(self.tree, source, i, d, j);
            self.lemma_stop_path(source, i, d, j);
        }
    }
}

/// How far a walk has come.
struct Trip {
    /// The entries still to come, the last of them first.
    pub queued: Seq<(int, int)>,
    /// The entries given.
    pub given: Seq<(int, int)>,
    /// Which directories' entries are among them.
    pub opened: Seq<bool>,
}

impl Fresh {
    /// What a walk gives for each of some entries.
    spec fn stops(self, pairs: Seq<(int, int)>) -> Seq<Walked> {
        Seq::new(pairs.len(), |i: int| self.stop(pairs[i].0, pairs[i].1))
    }

    /// The entries of directory `k` in the order a walk queues them.
    spec fn turn(self, k: int, order: Seq<int>) -> Seq<(int, int)> {
        Seq::new(order.len(), |i: int| (k, order[order.len() - 1 - i]))
    }

    /// Whether some pairs are entries of the tree, each once.
    spec fn are_entries(self, pairs: Seq<(int, int)>) -> bool {
        &&& forall|i: int|
            0 <= i < pairs.len() ==> self.has_entry((#[trigger] pairs[i]).0, pairs[i].1)
        &&& forall|i: int, l: int|
            0 <= i < l < pairs.len() ==> #[trigger] pairs[i] != #[trigger] pairs[l]
    }

    /// Whether an entry is given no later than another of the same directory: its name does not
    /// come behind.
    pub open spec fn in_turn(self, a: (int, int), b: (int, int)) -> bool {
        a.0 == b.0 ==> !before(self.named(b.0, b.1).name, self.named(a.0, a.1).name)
    }

    /// Whether a walk has come this far.
    #[verifier::opaque]
    spec fn walked_to(
        self,
        pending: Seq<Walked>,
        walked: Set<int>,
        out: Seq<Walked>,
        trip: Trip,
    ) -> bool {
        let queued = trip.queued;
        let given = trip.given;
        let opened = trip.opened;
        &&& opened.len() == self.tree.dirs.len()
        &&& opened[0]
        &&& pending == self.stops(queued)
        &&& out == self.stops(given)
        &&& self.are_entries(queued)
        &&& self.are_entries(given)
        &&& forall|i: int| 0 <= i < queued.len() ==> !given.contains(#[trigger] queued[i])
        &&& forall|d: int, j: int| #[trigger]
            self.has_entry(d, j) ==> opened[d] == (given.contains((d, j)) || queued.contains(
                (d, j),
            ))
        &&& forall|d: int, j: int, k: int| #[trigger]
            self.names_dir(d, j, k) ==> opened[k] == given.contains((d, j))
        &&& forall|m: int|
            0 <= m < self.tree.dirs.len() ==> walked.contains(
                (#[trigger] self.tree.dirs[m]).run.first as int,
            ) == opened[m]
        &&& given.len() + queued.len() == self.names_in(opened, self.tree.dirs.len() as int)
        &&& forall|i: int, l: int|
            0 <= i < l < given.len() ==> self.in_turn(#[trigger] given[i], #[trigger] given[l])
        &&& forall|i: int, l: int|
            0 <= i < l < queued.len() ==> self.in_turn(#[trigger] queued[l], #[trigger] queued[i])
        &&& forall|i: int, l: int|
            0 <= i < given.len() && 0 <= l < queued.len() ==> self.in_turn(
                #[trigger] given[i],
                #[trigger] queued[l],
            )
    }

    /// Whether one pair more is among some pairs.
    proof fn lemma_given(self, given: Seq<(int, int)>, pair: (int, int), other: (int, int))
        ensures
            given.push(pair).contains(other) == (given.contains(other) || other == pair),
    {
        let more = given.push(pair);
        if more.contains(other) {
            let i = choose|i: int| 0 <= i < more.len() && more[i] == other;
            if i < given.len() {
                assert(given[i] == other);
            }
        }
        if given.contains(other) {
            let i = choose|i: int| 0 <= i < given.len() && given[i] == other;
            assert(more[i] == other);
        }
        if other == pair {
            assert(more[given.len() as int] == other);
        }
    }

    /// Whether a pair is among those queued but the last.
    proof fn lemma_left(self, queued: Seq<(int, int)>, other: (int, int))
        requires
            self.are_entries(queued),
            queued.len() > 0,
        ensures
            queued.drop_last().contains(other) == (queued.contains(other) && other
                != queued.last()),
    {
        let rest = queued.drop_last();
        let n = queued.len() - 1;
        if rest.contains(other) {
            let i = choose|i: int| 0 <= i < rest.len() && rest[i] == other;
            assert(queued[i] == other && queued[i] != queued[n]);
        }
        if queued.contains(other) {
            let i = choose|i: int| 0 <= i < queued.len() && queued[i] == other;
            if i < n {
                assert(rest[i] == other);
            }
        }
    }

    /// Giving the next entry keeps the entries of each directory in turn.
    proof fn lemma_turns_go_on(self, trip: Trip)
        requires
            trip.queued.len() > 0,
            forall|i: int, l: int|
                0 <= i < l < trip.given.len() ==> self.in_turn(
                    #[trigger] trip.given[i],
                    #[trigger] trip.given[l],
                ),
            forall|i: int, l: int|
                0 <= i < l < trip.queued.len() ==> self.in_turn(
                    #[trigger] trip.queued[l],
                    #[trigger] trip.queued[i],
                ),
            forall|i: int, l: int|
                0 <= i < trip.given.len() && 0 <= l < trip.queued.len() ==> self.in_turn(
                    #[trigger] trip.given[i],
                    #[trigger] trip.queued[l],
                ),
        ensures
            ({
                let given = trip.given.push(trip.queued.last());
                let rest = trip.queued.drop_last();
                &&& forall|i: int, l: int|
                    0 <= i < l < given.len() ==> self.in_turn(
                        #[trigger] given[i],
                        #[trigger] given[l],
                    )
                &&& forall|i: int, l: int|
                    0 <= i < l < rest.len() ==> self.in_turn(
                        #[trigger] rest[l],
                        #[trigger] rest[i],
                    )
                &&& forall|i: int, l: int|
                    0 <= i < given.len() && 0 <= l < rest.len() ==> self.in_turn(
                        #[trigger] given[i],
                        #[trigger] rest[l],
                    )
            }),
    {
        let queued = trip.queued;
        let n = queued.len() - 1;
        let given = trip.given.push(queued.last());
        let rest = queued.drop_last();
        assert forall|i: int, l: int| 0 <= i < l < given.len() implies self.in_turn(
            #[trigger] given[i],
            #[trigger] given[l],
        ) by {
            assert(given[i] == trip.given[i]);
            if l == given.len() - 1 {
                assert(given[l] == queued[n]);
            } else {
                assert(given[l] == trip.given[l]);
            }
        }
        assert forall|i: int, l: int| 0 <= i < l < rest.len() implies self.in_turn(
            #[trigger] rest[l],
            #[trigger] rest[i],
        ) by {
            assert(rest[l] == queued[l] && rest[i] == queued[i]);
        }
        assert forall|i: int, l: int| 0 <= i < given.len() && 0 <= l < rest.len() implies
            self.in_turn(#[trigger] given[i], #[trigger] rest[l]) by {
            assert(rest[l] == queued[l]);
            if i == given.len() - 1 {
                assert(given[i] == queued[n]);
            } else {
                assert(given[i] == trip.given[i]);
            }
        }
    }

    /// Giving a file.
    proof fn lemma_file_stop(
        self,
        pending: Seq<Walked>,
        walked: Set<int>,
        out: Seq<Walked>,
        trip: Trip,
    )
        requires
            self.walked_to(pending, walked, out, trip),
            trip.queued.len() > 0,
            self.tree.dirs[trip.queued.last().0].entries[trip.queued.last().1].node is File,
        ensures
            self.walked_to(
                pending.drop_last(),
                walked,
                out.push(pending.last()),
                Trip {
                    queued: trip.queued.drop_last(),
                    given: trip.given.push(trip.queued.last()),
                    ..trip
                },
            ),
    {
        reveal(Fresh::walked_to);
        let queued = trip.queued;
        let n = queued.len() - 1;
        let pair = queued.last();
        let given = trip.given.push(pair);
        let rest = queued.drop_last();
        assert(queued[n] == pair);
        assert(pending.drop_last() =~= self.stops(rest));
        assert(out.push(pending.last()) =~= self.stops(given));
        assert forall|i: int, l: int| 0 <= i < l < given.len() implies #[trigger] given[i]
            != #[trigger] given[l] by {
            if l == given.len() - 1 {
                assert(trip.given.contains(trip.given[i]));
            }
        }
        assert forall|i: int| 0 <= i < rest.len() implies !given.contains(#[trigger] rest[i]) by {
            assert(rest[i] == queued[i]);
            self.lemma_given(trip.given, pair, rest[i]);
        }
        self.lemma_turns_go_on(trip);
        assert forall|d: int, j: int| #[trigger] self.has_entry(d, j) implies trip.opened[d] == (
        given.contains((d, j)) || rest.contains((d, j))) by {
            self.lemma_given(trip.given, pair, (d, j));
            self.lemma_left(queued, (d, j));
            assert(queued.contains(queued[n]));
        }
        assert forall|d: int, j: int, k: int| #[trigger] self.names_dir(d, j, k) implies
            trip.opened[k] == given.contains((d, j)) by {
            self.lemma_given(trip.given, pair, (d, j));
        }
    }

    /// Queuing the entries of a directory queues each once.
    proof fn lemma_turn(self, rest: Seq<(int, int)>, k: int, order: Seq<int>, pair: (int, int))
        requires
            0 <= k < self.tree.dirs.len(),
            is_order(self.names(k, self.tree.dirs[k].entries.len() as int), order),
        ensures
            (rest + self.turn(k, order)).contains(pair) == (rest.contains(pair) || (pair.0 == k
                && self.has_entry(pair.0, pair.1))),
    {
        let turn = self.turn(k, order);
        let all = rest + turn;
        let n = order.len();
        if all.contains(pair) {
            let l = choose|l: int| 0 <= l < all.len() && all[l] == pair;
            if l < rest.len() {
                assert(rest[l] == pair);
            } else {
                let i = l - rest.len();
                assert(turn[i] == pair);
                assert(0 <= order[n - 1 - i] < n);
            }
        }
        if rest.contains(pair) {
            let l = choose|l: int| 0 <= l < rest.len() && rest[l] == pair;
            assert(all[l] == pair);
        }
        if pair.0 == k && self.has_entry(pair.0, pair.1) {
            assert(order.contains(pair.1));
            let i = choose|i: int| 0 <= i < order.len() && order[i] == pair.1;
            assert(turn[n - 1 - i] == pair);
            assert(all[rest.len() + (n - 1 - i)] == pair);
        }
    }

    /// Giving a directory.
    proof fn lemma_directory_stop(
        self,
        pending: Seq<Walked>,
        walked: Set<int>,
        out: Seq<Walked>,
        trip: Trip,
        k: int,
        order: Seq<int>,
    )
        requires
            self.wf(),
            self.tidy(),
            self.walked_to(pending, walked, out, trip),
            trip.queued.len() > 0,
            self.names_dir(trip.queued.last().0, trip.queued.last().1, k),
            is_order(self.names(k, self.tree.dirs[k].entries.len() as int), order),
        ensures
            !trip.opened[k],
            self.walked_to(
                pending.drop_last() + self.stops(self.turn(k, order)),
                walked.insert(self.tree.dirs[k].run.first as int),
                out.push(pending.last()),
                Trip {
                    queued: trip.queued.drop_last() + self.turn(k, order),
                    given: trip.given.push(trip.queued.last()),
                    opened: trip.opened.update(k, true),
                },
            ),
    {
        reveal(Fresh::walked_to);
        let queued = trip.queued;
        let n = queued.len() - 1;
        let pair = queued.last();
        let given = trip.given.push(pair);
        let rest = queued.drop_last();
        let turn = self.turn(k, order);
        let all = rest + turn;
        let opened = trip.opened.update(k, true);
        assert(queued[n] == pair);
        self.lemma_names_inside(pair.0, pair.1, k);
        assert(!trip.opened[k]);
        assert(pending.drop_last() + self.stops(turn) =~= self.stops(all));
        assert(out.push(pending.last()) =~= self.stops(given));
        assert forall|i: int| 0 <= i < turn.len() implies self.has_entry(
            (#[trigger] turn[i]).0,
            turn[i].1,
        ) && turn[i].0 == k by {
            assert(0 <= order[order.len() - 1 - i] < order.len());
        }
        assert forall|i: int| 0 <= i < all.len() implies self.has_entry(
            (#[trigger] all[i]).0,
            all[i].1,
        ) by {
            if i < rest.len() {
                assert(all[i] == queued[i]);
            } else {
                assert(all[i] == turn[i - rest.len()]);
            }
        }
        assert forall|i: int| 0 <= i < rest.len() implies (#[trigger] rest[i]).0 != k by {
            assert(rest[i] == queued[i]);
            assert(queued.contains(queued[i]));
            assert(self.has_entry(queued[i].0, queued[i].1));
        }
        assert forall|i: int, l: int| 0 <= i < l < all.len() implies #[trigger] all[i]
            != #[trigger] all[l] by {
            if l < rest.len() {
                assert(all[i] == queued[i] && all[l] == queued[l]);
            } else {
                assert(all[l] == turn[l - rest.len()]);
                if i < rest.len() {
                    assert(all[i] == rest[i]);
                } else {
                    assert(all[i] == turn[i - rest.len()]);
                    let (a, b) = (order.len() - 1 - (i - rest.len()), order.len() - 1 - (l
                        - rest.len()));
                    assert(order[b] != order[a]);
                }
            }
        }
        assert forall|i: int, l: int| 0 <= i < l < given.len() implies #[trigger] given[i]
            != #[trigger] given[l] by {
            if l == given.len() - 1 {
                assert(trip.given.contains(trip.given[i]));
            }
        }
        assert forall|i: int| 0 <= i < all.len() implies !given.contains(#[trigger] all[i]) by {
            self.lemma_given(trip.given, pair, all[i]);
            if i < rest.len() {
                assert(all[i] == queued[i]);
            } else {
                assert(all[i] == turn[i - rest.len()]);
                assert(self.has_entry(all[i].0, all[i].1));
            }
        }
        assert forall|d: int, j: int| #[trigger] self.has_entry(d, j) implies opened[d] == (
        given.contains((d, j)) || all.contains((d, j))) by {
            self.lemma_given(trip.given, pair, (d, j));
            self.lemma_left(queued, (d, j));
            self.lemma_turn(rest, k, order, (d, j));
            assert(queued.contains(queued[n]));
        }
        assert forall|d: int, j: int, m: int| #[trigger] self.names_dir(d, j, m) implies opened[m]
            == given.contains((d, j)) by {
            self.lemma_given(trip.given, pair, (d, j));
            self.lemma_names_inside(d, j, m);
            if m == k || (d, j) == pair {
                reveal(Fresh::tidy);
                assert(self.names_dir(pair.0, pair.1, k));
            }
        }
        let more = walked.insert(self.tree.dirs[k].run.first as int);
        assert forall|m: int| 0 <= m < self.tree.dirs.len() implies more.contains(
            (#[trigger] self.tree.dirs[m]).run.first as int,
        ) == opened[m] by {
            if self.tree.dirs[m].run.first == self.tree.dirs[k].run.first {
                self.lemma_firsts_apart(m, k);
            }
        }
        self.lemma_names_update(trip.opened, k, self.tree.dirs.len() as int);
        self.lemma_turns_go_on(trip);
        assert forall|i: int| 0 <= i < given.len() implies (#[trigger] given[i]).0 != k by {
            assert(self.has_entry(given[i].0, given[i].1));
            if i < trip.given.len() {
                assert(given[i] == trip.given[i]);
                assert(trip.given.contains(trip.given[i]));
            }
        }
        assert forall|i: int, l: int| 0 <= i < l < all.len() implies self.in_turn(
            #[trigger] all[l],
            #[trigger] all[i],
        ) by {
            if l < rest.len() {
                assert(all[i] == rest[i] && all[l] == rest[l]);
            } else {
                assert(all[l] == turn[l - rest.len()]);
                if i < rest.len() {
                    assert(all[i] == rest[i]);
                } else {
                    assert(all[i] == turn[i - rest.len()]);
                    self.lemma_turn_ascends(k, order, i - rest.len(), l - rest.len());
                }
            }
        }
        assert forall|i: int, l: int| 0 <= i < given.len() && 0 <= l < all.len() implies
            self.in_turn(#[trigger] given[i], #[trigger] all[l]) by {
            if l < rest.len() {
                assert(all[l] == rest[l]);
            } else {
                assert(all[l] == turn[l - rest.len()]);
            }
        }
    }

    /// The entries of a directory are queued in descending order of their names.
    proof fn lemma_turn_ascends(self, k: int, order: Seq<int>, i: int, l: int)
        requires
            0 <= k < self.tree.dirs.len(),
            is_order(self.names(k, self.tree.dirs[k].entries.len() as int), order),
            0 <= i < l < order.len(),
        ensures
            self.in_turn(self.turn(k, order)[l], self.turn(k, order)[i]),
    {
        let names = self.names(k, self.tree.dirs[k].entries.len() as int);
        let sorted = by_name(names);
        lemma_by_name_ascends(names);
        let (a, b) = (order.len() - 1 - l, order.len() - 1 - i);
        assert(0 <= order[a] < names.len() && 0 <= order[b] < names.len());
        assert(sorted[a] == names[order[a]] && sorted[b] == names[order[b]]);
        assert(!before(sorted[b].name, sorted[a].name));
    }
}

impl Fresh {
    /// Whether every path of the tree is one a walk gives.
    pub open spec fn within_paths(self) -> bool {
        forall|d: int, j: int| #[trigger]
            self.has_entry(d, j) ==> self.stop(d, j).path.len() <= MAX_PATH
    }

    /// Where nothing is still to come, every directory is opened.
    proof fn lemma_walked_all(
        self,
        walked: Set<int>,
        out: Seq<Walked>,
        trip: Trip,
        k: int,
    )
        requires
            self.wf(),
            self.tidy(),
            self.walked_to(Seq::empty(), walked, out, trip),
            0 <= k < self.tree.dirs.len(),
        ensures
            trip.opened[k],
        decreases k,
    {
        reveal(Fresh::walked_to);
        assert(self.stops(trip.queued).len() == trip.queued.len());
        if k > 0 {
            reveal(Fresh::tidy);
            assert(self.is_named(k));
            let (d, j) = choose|d: int, j: int| #[trigger] self.names_dir(d, j, k);
            self.lemma_names_inside(d, j, k);
            self.lemma_walked_all(walked, out, trip, d);
            assert(self.has_entry(d, j));
        }
    }

    /// Whether a walk has given every entry of the tree once, and nothing else.
    pub open spec fn is_given(self, out: Seq<Walked>, given: Seq<(int, int)>) -> bool {
        &&& out.len() == given.len()
        &&& forall|i: int|
            0 <= i < out.len() ==> {
                &&& self.has_entry((#[trigger] given[i]).0, given[i].1)
                &&& out[i] == self.stop(given[i].0, given[i].1)
            }
        &&& forall|i: int, l: int|
            0 <= i < l < given.len() ==> #[trigger] given[i] != #[trigger] given[l]
        &&& forall|d: int, j: int| #[trigger]
            self.has_entry(d, j) ==> given.contains((d, j))
        &&& forall|i: int, l: int|
            0 <= i < l < given.len() ==> self.in_turn(#[trigger] given[i], #[trigger] given[l])
    }
}

impl<'a> Reader<'a> {
    /// The names of a directory of a volume a format has written, as a walk queues them.
    proof fn lemma_children_back(&self, fresh: Fresh, node: Node, k: int) -> (order: Seq<int>)
        requires
            fresh.wf(),
            self.reads_back(fresh),
            fresh.within_paths(),
            0 <= k < fresh.tree.dirs.len(),
            is_directory(fresh, node, k),
        ensures
            is_order(fresh.names(k, fresh.tree.dirs[k].entries.len() as int), order),
            self.children(node, fresh.prefix(k)) == Ok::<Seq<Walked>, ReadError>(
                fresh.stops(fresh.turn(k, order)),
            ),
    {
        let count = fresh.tree.dirs[k].entries.len() as int;
        let names = fresh.names(k, count);
        let sorted = by_name(names);
        let order = lemma_order(names);
        let turn = fresh.turn(k, order);
        self.lemma_directory_lists_back(fresh, node, k);
        assert forall|i: int| 0 <= i < sorted.len() implies child_path(
            fresh.prefix(k),
            (#[trigger] sorted[i]).name,
        ).len() <= MAX_PATH by {
            assert(0 <= order[i] < count);
            assert(fresh.has_entry(k, order[i]));
            assert(names[order[i]] == fresh.named(k, order[i]));
        }
        assert forall|i: int| 0 <= i < count implies last_first(fresh.prefix(k), sorted, count)[i]
            == fresh.stops(turn)[i] by {
            let l = count - 1 - i;
            assert(0 <= order[l] < count);
            assert(names[order[l]] == fresh.named(k, order[l]));
        }
        assert(last_first(fresh.prefix(k), sorted, count) =~= fresh.stops(turn));
        order
    }

    /// The walk of a volume a format has written, from anywhere on, gives what it should.
    proof fn lemma_walk_back(
        &self,
        fresh: Fresh,
        pending: Seq<Walked>,
        walked: Set<int>,
        out: Seq<Walked>,
        trip: Trip,
    ) -> (given: Seq<(int, int)>)
        requires
            fresh.wf(),
            fresh.tidy(),
            fresh.pathed(),
            fresh.within_paths(),
            self.reads_back(fresh),
            fresh.walked_to(pending, walked, out, trip),
            fresh.all_names() <= name_cap(self.taken_on(), self.vol().layout),
        ensures
            self.walk_from(pending, walked, out) matches Ok(all) && fresh.is_given(all, given),
        decreases name_cap(self.taken_on(), self.vol().layout) - out.len(),
    {
        let vol = self.vol();
        let count = fresh.tree.dirs.len() as int;
        assert(pending == fresh.stops(trip.queued) && out == fresh.stops(trip.given)
            && trip.opened.len() == count && trip.given.len() + trip.queued.len()
            == fresh.names_in(trip.opened, count)) by {
            reveal(Fresh::walked_to);
        }
        fresh.lemma_names_at_most(trip.opened, count);
        if pending.len() == 0 {
            assert(pending =~= Seq::empty());
            assert forall|d: int, j: int| #[trigger] fresh.has_entry(d, j) implies
                trip.given.contains((d, j)) by {
                fresh.lemma_walked_all(walked, out, trip, d);
                reveal(Fresh::walked_to);
                assert(trip.queued.len() == 0);
            }
            assert(fresh.is_given(out, trip.given)) by {
                reveal(Fresh::walked_to);
            }
            trip.given
        } else {
            let n = pending.len() - 1;
            let item = pending.last();
            let (d, j) = trip.queued.last();
            assert(fresh.has_entry(d, j) && item == fresh.stop(d, j)) by {
                reveal(Fresh::walked_to);
                assert(trip.queued[n] == (d, j));
                assert(pending[n] == item);
            }
            fresh.lemma_run(vol, d, j);
            match fresh.tree.dirs[d].entries[j].node {
                crate::model::Node::File { .. } => {
                    fresh.lemma_file_stop(pending, walked, out, trip);
                    self.lemma_walk_back(
                        fresh,
                        pending.drop_last(),
                        walked,
                        out.push(item),
                        Trip {
                            queued: trip.queued.drop_last(),
                            given: trip.given.push(trip.queued.last()),
                            ..trip
                        },
                    )
                },
                crate::model::Node::Dir(k) => {
                    let k = k as int;
                    lemma_entry_is_a_directory(fresh, d, j, k);
                    assert(item.path == fresh.prefix(k)) by {
                        reveal(Fresh::pathed);
                        assert(fresh.names_dir(d, j, k));
                    }
                    let order = self.lemma_children_back(fresh, item.node, k);
                    fresh.lemma_directory_stop(pending, walked, out, trip, k, order);
                    fresh.lemma_vol(vol);
                    let first = fresh.tree.dirs[k].run.first as int;
                    assert(!walked.contains(first)) by {
                        reveal(Fresh::walked_to);
                    }
                    assert(self.unwalked(item.node, walked));
                    assert(self.with_walked(item.node, walked) == walked.insert(first));
                    self.lemma_walk_back(
                        fresh,
                        pending.drop_last() + fresh.stops(fresh.turn(k, order)),
                        walked.insert(first),
                        out.push(item),
                        Trip {
                            queued: trip.queued.drop_last() + fresh.turn(k, order),
                            given: trip.given.push(trip.queued.last()),
                            opened: trip.opened.update(k, true),
                        },
                    )
                },
            }
        }
    }

    /// Walking a volume a format has written gives every entry of it once, and nothing else,
    /// where no path is longer than a walk gives and the volume has no more names than it takes
    /// on.
    pub proof fn lemma_walk_gives_every_entry(&self, fresh: Fresh) -> (given: Seq<(int, int)>)
        requires
            fresh.wf(),
            fresh.tidy(),
            fresh.pathed(),
            fresh.within_paths(),
            self.reads_back(fresh),
            fresh.all_names() <= self.taken_on().max_walk_entries,
        ensures
            self.walked() matches Ok(all) && fresh.is_given(all, given),
    {
        let vol = self.vol();
        let count = fresh.tree.dirs.len() as int;
        let root = self.root_node();
        lemma_settled(fresh.tree, fresh.layout, format_mapping());
        lemma_directory_fits(fresh.tree, fresh.layout, fresh.options.label, format_mapping(), 0);
        fresh.lemma_vol(vol);
        fresh.lemma_head();
        fresh.lemma_all_names_have_room(vol);
        self.lemma_root_is_a_directory(fresh);
        let order = self.lemma_children_back(fresh, root, 0);
        let turn = fresh.turn(0, order);
        let none = Seq::new(count as nat, |i: int| false);
        let first = fresh.tree.dirs[0].run.first as int;
        let walked = Set::empty().insert(first);
        let trip = Trip { queued: turn, given: Seq::empty(), opened: none.update(0, true) };
        assert(self.with_walked(root, Set::empty()) == walked);
        assert(fresh.walked_to(fresh.stops(turn), walked, Seq::empty(), trip)) by {
            reveal(Fresh::walked_to);
            assert(fresh.stops(trip.given) =~= Seq::empty());
            assert forall|i: int| 0 <= i < turn.len() implies fresh.has_entry(
                (#[trigger] turn[i]).0,
                turn[i].1,
            ) by {
                assert(0 <= order[order.len() - 1 - i] < order.len());
            }
            assert forall|i: int, l: int| 0 <= i < l < turn.len() implies #[trigger] turn[i]
                != #[trigger] turn[l] by {
                let (a, b) = (order.len() - 1 - i, order.len() - 1 - l);
                assert(order[b] != order[a]);
            }
            assert forall|d: int, j: int| #[trigger] fresh.has_entry(d, j) implies trip.opened[d]
                == (trip.given.contains((d, j)) || turn.contains((d, j))) by {
                fresh.lemma_turn(Seq::empty(), 0, order, (d, j));
                assert(Seq::<(int, int)>::empty() + turn =~= turn);
            }
            assert forall|d: int, j: int, k: int| #[trigger] fresh.names_dir(d, j, k) implies
                trip.opened[k] == trip.given.contains((d, j)) by {
                fresh.lemma_names_inside(d, j, k);
            }
            assert forall|m: int| 0 <= m < count implies walked.contains(
                (#[trigger] fresh.tree.dirs[m]).run.first as int,
            ) == trip.opened[m] by {
                if fresh.tree.dirs[m].run.first == first {
                    fresh.lemma_firsts_apart(m, 0);
                }
            }
            fresh.lemma_no_names(count);
            fresh.lemma_names_update(none, 0, count);
            assert forall|i: int, l: int| 0 <= i < l < turn.len() implies fresh.in_turn(
                #[trigger] turn[l],
                #[trigger] turn[i],
            ) by {
                fresh.lemma_turn_ascends(0, order, i, l);
            }
        }
        self.lemma_walk_back(fresh, fresh.stops(turn), walked, Seq::empty(), trip)
    }
}

impl Fresh {
    /// No two entries are at one path.
    proof fn lemma_stops_apart(
        self,
        source: Seq<SourceView>,
        d: int,
        j: int,
        e: int,
        i: int,
    )
        requires
            self.wf(),
            holds_source(self.tree, source),
            self.has_entry(d, j),
            self.has_entry(e, i),
            self.stop(d, j).path == self.stop(e, i).path,
        ensures
            d == e,
            j == i,
    {
        assert(is_sourced(self.tree, source, d, j) && is_sourced(self.tree, source, e, i)) by {
            reveal(holds_source);
        }
        let a = choose|a: int|
            0 <= a < source.len() && #[trigger] holds_at(self.tree, source, a, d, j);
        let b = choose|b: int|
            0 <= b < source.len() && #[trigger] holds_at(self.tree, source, b, e, i);
        self.lemma_stop_path(source, a, d, j);
        self.lemma_stop_path(source, b, e, i);
        let (x, y) = (key_of(source[a].path), key_of(source[b].path));
        assert(x =~= y) by {
            assert((seq![SLASH] + x).skip(1) =~= x);
            assert((seq![SLASH] + y).skip(1) =~= y);
        }
        self.lemma_keys_apart(source, d, e);
        lemma_settled(self.tree, self.layout, format_mapping());
        let entries = self.tree.dirs[d].entries;
        assert(entries[j].units == entries[i].units);
        if j < i {
            assert(folded_by(format_mapping(), entries[j].units) != folded_by(
                format_mapping(),
                entries[i].units,
            ));
        } else if i < j {
            assert(folded_by(format_mapping(), entries[i].units) != folded_by(
                format_mapping(),
                entries[j].units,
            ));
        }
    }
}

impl Fresh {
    /// The entries of the first `n` directories.
    spec fn pairs(self, n: int) -> Seq<(int, int)>
        decreases n,
    {
        if n <= 0 {
            Seq::empty()
        } else {
            self.pairs(n - 1) + Seq::new(
                self.tree.dirs[n - 1].entries.len(),
                |j: int| (n - 1, j),
            )
        }
    }

    /// The entries of the first directories are as many as their names, each once.
    proof fn lemma_pairs_are_names(self, n: int)
        requires
            0 <= n <= self.tree.dirs.len(),
        ensures
            self.pairs(n).len() == self.names_in(
                Seq::new(self.tree.dirs.len(), |i: int| true),
                n,
            ),
            forall|i: int|
                0 <= i < self.pairs(n).len() ==> (#[trigger] self.pairs(n)[i]).0 < n
                    && self.has_entry(self.pairs(n)[i].0, self.pairs(n)[i].1),
            forall|i: int, l: int|
                0 <= i < l < self.pairs(n).len() ==> #[trigger] self.pairs(n)[i]
                    != #[trigger] self.pairs(n)[l],
        decreases n,
    {
        if n > 0 {
            self.lemma_pairs_are_names(n - 1);
            let before = self.pairs(n - 1);
            let all = self.pairs(n);
            assert forall|i: int| 0 <= i < all.len() implies (#[trigger] all[i]).0 < n
                && self.has_entry(all[i].0, all[i].1) by {
                if i < before.len() {
                    assert(all[i] == before[i]);
                }
            }
            assert forall|i: int, l: int| 0 <= i < l < all.len() implies #[trigger] all[i]
                != #[trigger] all[l] by {
                if l < before.len() {
                    assert(all[i] == before[i] && all[l] == before[l]);
                } else if i < before.len() {
                    assert(all[i] == before[i]);
                }
            }
        }
    }

    /// A volume has no more names than the source it was made from has entries.
    pub proof fn lemma_names_of_source(self, source: Seq<SourceView>)
        requires
            self.wf(),
            holds_source(self.tree, source),
        ensures
            self.all_names() <= source.len(),
    {
        let count = self.tree.dirs.len() as int;
        let pairs = self.pairs(count);
        self.lemma_pairs_are_names(count);
        let origin = |d: int, j: int|
            choose|i: int| 0 <= i < source.len() && #[trigger] holds_at(self.tree, source, i, d, j);
        let origins = Seq::new(pairs.len(), |t: int| origin(pairs[t].0, pairs[t].1));
        assert forall|t: int| 0 <= t < origins.len() implies 0 <= #[trigger] origins[t]
            < source.len() && holds_at(
            self.tree,
            source,
            origins[t],
            pairs[t].0,
            pairs[t].1,
        ) by {
            let (d, j) = pairs[t];
            assert(self.has_entry(d, j));
            assert(is_sourced(self.tree, source, d, j)) by {
                reveal(holds_source);
            }
        }
        assert(origins.no_duplicates()) by {
            assert forall|t: int, u: int|
                0 <= t < origins.len() && 0 <= u < origins.len() && t != u implies origins[t]
                != origins[u] by {
                let (a, b) = (pairs[t], pairs[u]);
                if origins[t] == origins[u] {
                    self.lemma_stop_path(source, origins[t], a.0, a.1);
                    self.lemma_stop_path(source, origins[u], b.0, b.1);
                    assert(self.has_entry(a.0, a.1) && self.has_entry(b.0, b.1));
                    self.lemma_stops_apart(source, a.0, a.1, b.0, b.1);
                    assert(pairs[t] == pairs[u]);
                }
            }
        }
        let end = source.len() as int;
        vstd::set_lib::lemma_int_range(0, end);
        origins.unique_seq_to_set();
        vstd::set_lib::lemma_len_subset(origins.to_set(), vstd::set_lib::set_int_range(0, end));
    }
}

/// The parts of the path of a name in a directory.
proof fn lemma_child_parts(prefix: Seq<u8>, name: Seq<u8>)
    requires
        !name.contains(SLASH),
    ensures
        parent_of(child_path(prefix, name)) == prefix,
        name_of(child_path(prefix, name)) == name,
{
    let path = child_path(prefix, name);
    let at = prefix.len() as int;
    let last = last_slash(path);
    lemma_last_slash(path);
    assert(path[at] == SLASH);
    if last > at {
        assert(path[last] == name[last - at - 1]);
        assert(name.contains(name[last - at - 1]));
    }
    assert(last == at);
    assert(path.subrange(0, at) =~= prefix);
    assert(path.subrange(at + 1, path.len() as int) =~= name);
}

impl Fresh {
    /// Where the path of an entry is: in its directory, under its name.
    proof fn lemma_stop_parts(self, source: Seq<SourceView>, d: int, j: int)
        requires
            self.wf(),
            holds_source(self.tree, source),
            self.has_entry(d, j),
        ensures
            parent_of(self.stop(d, j).path) == self.prefix(d),
            name_of(self.stop(d, j).path) == self.named(d, j).name,
    {
        assert(is_sourced(self.tree, source, d, j)) by {
            reveal(holds_source);
        }
        let i = choose|i: int|
            0 <= i < source.len() && #[trigger] holds_at(self.tree, source, i, d, j);
        let key = key_of(source[i].path);
        let name = name_of(key);
        lemma_held_name_reads_back(name);
        lemma_last_slash(key);
        assert(!name.contains(SLASH)) by {
            if name.contains(SLASH) {
                let k = choose|k: int| 0 <= k < name.len() && name[k] == SLASH;
                assert(key[last_slash(key) + 1 + k] == SLASH);
            }
        }
        lemma_child_parts(self.prefix(d), name);
    }

    /// Entries at paths with one parent are in one directory.
    proof fn lemma_one_parent(self, source: Seq<SourceView>, d: int, e: int)
        requires
            self.wf(),
            holds_source(self.tree, source),
            0 <= d < self.tree.dirs.len(),
            0 <= e < self.tree.dirs.len(),
            self.prefix(d) == self.prefix(e),
        ensures
            d == e,
    {
        if d > 0 && e > 0 {
            let (x, y) = (key_of(self.tree.dirs[d].path), key_of(self.tree.dirs[e].path));
            assert((seq![SLASH] + x).skip(1) =~= x);
            assert((seq![SLASH] + y).skip(1) =~= y);
            self.lemma_keys_apart(source, d, e);
        }
    }
}

/// Whether a path is that of an entry of a source.
pub open spec fn is_path_of(source: Seq<SourceView>, path: Seq<u8>) -> bool {
    exists|i: int|
        0 <= i < source.len() && path == seq![SLASH] + key_of((#[trigger] source[i]).path)
}

impl<'a> Reader<'a> {
    /// Walking a volume a format has written gives every directory and file of the source, each
    /// at its path and once, and nothing else: a directory before what is in it, and what is in
    /// one directory in ascending order of name. Each file has its contents.
    pub proof fn lemma_walk_reads_source_back(
        &self,
        source: Seq<SourceView>,
        volume_bytes: u64,
        options: FormatOptions,
        src: Seq<u8>,
        opening: OpenOptions,
        found: Opened,
    )
        requires
            countable(source),
            options.label.wf(),
            planned(source, volume_bytes, options) is Ok,
            from_base(src, opening.base) == formatted(source, volume_bytes, options),
            opened(from_base(src, opening.base)) == Ok::<Opened, ReadError>(found),
            self.holds(src, found, opening),
            fresh_of(source, volume_bytes, options).all_names()
                <= opening.limits.max_walk_entries,
            forall|i: int|
                0 <= i < source.len() ==> 1 + key_of((#[trigger] source[i]).path).len()
                    <= MAX_PATH,
        ensures
            self.walked() matches Ok(all) && {
                &&& forall|i: int|
                    0 <= i < source.len() && placeable(sorted_source(source), source[i])
                        ==> self.at_path((#[trigger] source[i]).path) is Ok && all.contains(
                        Walked {
                            path: seq![SLASH] + key_of(source[i].path),
                            node: self.at_path(source[i].path)->Ok_0,
                        },
                    )
                &&& forall|i: int|
                    0 <= i < source.len() && placeable(sorted_source(source), source[i]) ==> {
                        let node = self.at_path((#[trigger] source[i]).path)->Ok_0;
                        &&& node.directory() == (source[i].kind is Directory)
                        &&& contents_of(sorted_source(source), source[i]) matches Some(bytes)
                            ==> node.data_length == bytes.len() && self.vol().file_read(
                            node,
                            0,
                            bytes.len() as int,
                        ) == Ok::<Seq<u8>, ReadError>(bytes)
                    }
                &&& forall|t: int|
                    0 <= t < all.len() ==> is_path_of(source, (#[trigger] all[t]).path)
                &&& forall|t: int|
                    0 <= t < all.len() ==> has_parent(all, t, (#[trigger] all[t]).path)
                &&& forall|t: int, u: int|
                    0 <= t < u < all.len() && parent_of((#[trigger] all[t]).path) == parent_of(
                        (#[trigger] all[u]).path,
                    ) ==> before(name_of(all[t].path), name_of(all[u].path))
                &&& forall|t: int, u: int|
                    0 <= t < u < all.len() ==> (#[trigger] all[t]).path != (
                    #[trigger] all[u]).path
            },
    {
        let fresh = fresh_of(source, volume_bytes, options);
        lemma_fresh(source, volume_bytes, options);
        lemma_formatted_volume_opens(source, volume_bytes, options);
        assert forall|d: int| 0 <= d < fresh.tree.dirs.len() implies (
        #[trigger] fresh.tree.dirs[d]).entries.len() <= opening.limits.max_walk_entries by {
            fresh.lemma_directory_of_all(
                Seq::new(fresh.tree.dirs.len(), |i: int| true),
                d,
                fresh.tree.dirs.len() as int,
            );
        }
        self.lemma_reads_back(src, fresh, opening);
        fresh.lemma_tidy(source);
        fresh.lemma_pathed(source);
        assert forall|d: int, j: int| #[trigger] fresh.has_entry(d, j) implies is_path_of(
            source,
            fresh.stop(d, j).path,
        ) && fresh.stop(d, j).path.len() <= MAX_PATH by {
            assert(is_sourced(fresh.tree, source, d, j)) by {
                reveal(holds_source);
            }
            let i = choose|i: int|
                0 <= i < source.len() && #[trigger] holds_at(fresh.tree, source, i, d, j);
            fresh.lemma_stop_path(source, i, d, j);
        }
        let given = self.lemma_walk_gives_every_entry(fresh);
        let all = self.walked()->Ok_0;
        assert forall|i: int|
            0 <= i < source.len() && placeable(sorted_source(source), source[i]) implies
            self.at_path((#[trigger] source[i]).path) is Ok && all.contains(
            Walked {
                path: seq![SLASH] + key_of(source[i].path),
                node: self.at_path(source[i].path)->Ok_0,
            },
        ) by {
            let (p, j) = self.lemma_path_leads_to(fresh, source, i);
            fresh.lemma_stop_path(source, i, p, j);
            assert(fresh.has_entry(p, j));
            assert(given.contains((p, j)));
            let t = choose|t: int| 0 <= t < given.len() && given[t] == (p, j);
            assert(all[t] == fresh.stop(p, j));
        }
        assert forall|t: int| 0 <= t < all.len() implies is_path_of(
            source,
            (#[trigger] all[t]).path,
        ) by {
            assert(fresh.has_entry(given[t].0, given[t].1));
        }
        assert forall|t: int, u: int| 0 <= t < u < all.len() implies (#[trigger] all[t]).path != (
        #[trigger] all[u]).path by {
            let (a, b) = (given[t], given[u]);
            assert(fresh.has_entry(a.0, a.1) && fresh.has_entry(b.0, b.1));
            if all[t].path == all[u].path {
                fresh.lemma_stops_apart(source, a.0, a.1, b.0, b.1);
            }
        }
        self.lemma_walk_gives_parents_first();
        assert forall|i: int|
            0 <= i < source.len() && placeable(sorted_source(source), source[i]) implies {
            let node = self.at_path((#[trigger] source[i]).path)->Ok_0;
            &&& node.directory() == (source[i].kind is Directory)
            &&& contents_of(sorted_source(source), source[i]) matches Some(bytes)
                ==> node.data_length == bytes.len() && self.vol().file_read(
                node,
                0,
                bytes.len() as int,
            ) == Ok::<Seq<u8>, ReadError>(bytes)
        } by {
            self.lemma_source_reads_back(fresh, source, i);
        }
        assert forall|t: int, u: int|
            0 <= t < u < all.len() && parent_of((#[trigger] all[t]).path) == parent_of(
                (#[trigger] all[u]).path,
            ) implies before(name_of(all[t].path), name_of(all[u].path)) by {
            let (a, b) = (given[t], given[u]);
            assert(fresh.has_entry(a.0, a.1) && fresh.has_entry(b.0, b.1));
            fresh.lemma_stop_parts(source, a.0, a.1);
            fresh.lemma_stop_parts(source, b.0, b.1);
            fresh.lemma_one_parent(source, a.0, b.0);
            assert(fresh.in_turn(a, b));
            lemma_before_total(fresh.named(a.0, a.1).name, fresh.named(b.0, b.1).name);
            assert(all[t].path != all[u].path);
        }
    }
}

} // verus!
