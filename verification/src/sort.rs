//! The order entries are placed in: by the key of their path, whatever order they came in.
use vstd::multiset::Multiset;
use vstd::prelude::*;

use crate::path::{
    before, canonical_key, is_before, key_of, lemma_before_total, lemma_before_transitive,
};
use crate::source::{source_views, SourceEntry, SourceView};

verus! {

/// An entry and the key of its path.
pub struct Keyed {
    /// The key.
    pub key: Vec<u8>,
    /// The entry.
    pub entry: SourceEntry,
}

/// What each entry of a sorted source is.
pub open spec fn keyed_views(all: Seq<Keyed>) -> Seq<SourceView> {
    Seq::new(all.len(), |i: int| all[i].entry@)
}

/// Whether each key is the key of its entry's path.
pub open spec fn keys_match(all: Seq<Keyed>) -> bool {
    forall|i: int| 0 <= i < all.len() ==> (#[trigger] all[i]).key@ == key_of(all[i].entry.path@)
}

/// The first position from `from` on whose entry's key does not come before `key`.
pub open spec fn place_for(sorted: Seq<SourceView>, key: Seq<u8>, from: int) -> int
    decreases sorted.len() - from,
{
    if from >= sorted.len() || !before(key_of(sorted[from].path), key) {
        from
    } else {
        place_for(sorted, key, from + 1)
    }
}

/// The entries by key, those with one key in the order they came in.
pub open spec fn sorted_source(entries: Seq<SourceView>) -> Seq<SourceView>
    decreases entries.len(),
{
    if entries.len() == 0 {
        Seq::empty()
    } else {
        let rest = sorted_source(entries.drop_first());
        rest.insert(place_for(rest, key_of(entries[0].path), 0), entries[0])
    }
}

/// Whether no entry's key comes before the key of an earlier one.
pub open spec fn in_order(entries: Seq<SourceView>) -> bool {
    forall|i: int, j: int|
        0 <= i < j < entries.len() ==> !before(
            key_of(#[trigger] entries[j].path),
            key_of(#[trigger] entries[i].path),
        )
}

/// Whether no two entries have one key.
pub open spec fn distinct_keys(entries: Seq<SourceView>) -> bool {
    forall|i: int, j: int|
        0 <= i < entries.len() && 0 <= j < entries.len() && i != j ==> key_of(
            #[trigger] entries[i].path,
        ) != key_of(#[trigger] entries[j].path)
}

/// Where an entry is put is inside the entries, behind those that come before it and before
/// the rest.
pub proof fn lemma_place_for(sorted: Seq<SourceView>, key: Seq<u8>, from: int)
    requires
        0 <= from <= sorted.len(),
        in_order(sorted),
    ensures
        from <= place_for(sorted, key, from) <= sorted.len(),
        forall|i: int|
            from <= i < place_for(sorted, key, from) ==> before(
                key_of(#[trigger] sorted[i].path),
                key,
            ),
        forall|i: int|
            place_for(sorted, key, from) <= i < sorted.len() ==> !before(
                key_of(#[trigger] sorted[i].path),
                key,
            ),
    decreases sorted.len() - from,
{
    if from < sorted.len() {
        if before(key_of(sorted[from].path), key) {
            lemma_place_for(sorted, key, from + 1);
        } else {
            assert forall|i: int| from <= i < sorted.len() implies !before(
                key_of(#[trigger] sorted[i].path),
                key,
            ) by {
                if i > from && before(key_of(sorted[i].path), key) {
                    let a = key_of(sorted[i].path);
                    let b = key_of(sorted[from].path);
                    lemma_before_total(a, b);
                    lemma_before_total(key, b);
                    if key == b {
                    } else {
                        lemma_before_transitive(a, key, b);
                    }
                }
            }
        }
    }
}

/// Sorting keeps every entry, and no other, and puts them in order.
pub proof fn lemma_sorted_source(entries: Seq<SourceView>)
    ensures
        in_order(sorted_source(entries)),
        sorted_source(entries).len() == entries.len(),
        sorted_source(entries).to_multiset() == entries.to_multiset(),
    decreases entries.len(),
{
    if entries.len() > 0 {
        let rest = sorted_source(entries.drop_first());
        lemma_sorted_source(entries.drop_first());
        let key = key_of(entries[0].path);
        lemma_place_for(rest, key, 0);
        let at = place_for(rest, key, 0);
        let all = rest.insert(at, entries[0]);
        assert forall|i: int, j: int| 0 <= i < j < all.len() implies !before(
            key_of(#[trigger] all[j].path),
            key_of(#[trigger] all[i].path),
        ) by {
            if i == at {
                assert(all[j] == rest[j - 1]);
            } else if j == at {
                assert(all[i] == rest[i]);
                lemma_before_total(key_of(rest[i].path), key);
            } else {
                let a = if i < at {
                    i
                } else {
                    i - 1
                };
                let b = if j < at {
                    j
                } else {
                    j - 1
                };
                assert(all[i] == rest[a] && all[j] == rest[b]);
            }
        }
        lemma_insert_multiset(rest, at, entries[0]);
        lemma_insert_multiset(entries.drop_first(), 0, entries[0]);
        assert(entries.drop_first().insert(0, entries[0]) =~= entries);
    } else {
        assert(entries =~= Seq::<SourceView>::empty());
    }
}

/// An entry put into a sequence is one more of it.
proof fn lemma_insert_multiset(rest: Seq<SourceView>, at: int, entry: SourceView)
    requires
        0 <= at <= rest.len(),
    ensures
        rest.insert(at, entry).to_multiset() == Multiset::singleton(entry).add(rest.to_multiset()),
{
    broadcast use vstd::multiset::group_multiset_axioms;

    vstd::seq_lib::to_multiset_insert(rest, at, entry);
    assert(rest.to_multiset().insert(entry) =~= Multiset::singleton(entry).add(rest.to_multiset()));
}

/// Whether an entry is among the entries of a sequence is what its multiset says.
pub proof fn lemma_contains_by_multiset(a: Seq<SourceView>, b: Seq<SourceView>, i: int) -> (j: int)
    requires
        a.to_multiset() == b.to_multiset(),
        0 <= i < a.len(),
    ensures
        0 <= j < b.len(),
        b[j] == a[i],
{
    a.to_multiset_ensures();
    b.to_multiset_ensures();
    assert(a.contains(a[i]));
    assert(a.to_multiset().count(a[i]) > 0);
    assert(b.contains(a[i]));
    choose|j: int| 0 <= j < b.len() && b[j] == a[i]
}

/// Entries in order whose keys are distinct are the only such arrangement of themselves.
proof fn lemma_order_is_unique(a: Seq<SourceView>, b: Seq<SourceView>)
    requires
        in_order(a),
        in_order(b),
        distinct_keys(a),
        distinct_keys(b),
        a.to_multiset() == b.to_multiset(),
    ensures
        a == b,
    decreases a.len(),
{
    a.to_multiset_ensures();
    b.to_multiset_ensures();
    assert(a.len() == b.len());
    if a.len() > 0 {
        let j = lemma_contains_by_multiset(a, b, 0);
        let i = lemma_contains_by_multiset(b, a, 0);
        if j > 0 {
            assert(!before(key_of(b[j].path), key_of(b[0].path)));
            assert(key_of(b[j].path) != key_of(b[0].path));
            lemma_before_total(key_of(b[j].path), key_of(b[0].path));
            if i > 0 {
                assert(!before(key_of(a[i].path), key_of(a[0].path)));
                assert(false);
            }
            assert(false);
        }
        assert(a[0] == b[0]);
        let x = a.drop_first();
        let y = b.drop_first();
        assert forall|p: int, q: int| 0 <= p < q < x.len() implies !before(
            key_of(#[trigger] x[q].path),
            key_of(#[trigger] x[p].path),
        ) by {
            assert(x[q] == a[q + 1] && x[p] == a[p + 1]);
        }
        assert forall|p: int, q: int| 0 <= p < q < y.len() implies !before(
            key_of(#[trigger] y[q].path),
            key_of(#[trigger] y[p].path),
        ) by {
            assert(y[q] == b[q + 1] && y[p] == b[p + 1]);
        }
        assert forall|p: int, q: int|
            0 <= p < x.len() && 0 <= q < x.len() && p != q implies key_of(#[trigger] x[p].path)
            != key_of(#[trigger] x[q].path) by {
            assert(x[q] == a[q + 1] && x[p] == a[p + 1]);
        }
        assert forall|p: int, q: int|
            0 <= p < y.len() && 0 <= q < y.len() && p != q implies key_of(#[trigger] y[p].path)
            != key_of(#[trigger] y[q].path) by {
            assert(y[q] == b[q + 1] && y[p] == b[p + 1]);
        }
        lemma_insert_multiset(x, 0, a[0]);
        lemma_insert_multiset(y, 0, b[0]);
        assert(x.insert(0, a[0]) =~= a);
        assert(y.insert(0, b[0]) =~= b);
        assert(x.to_multiset() =~= y.to_multiset()) by {
            assert forall|e: SourceView| x.to_multiset().count(e) == y.to_multiset().count(e) by {
                broadcast use vstd::multiset::group_multiset_axioms;

                assert(a.to_multiset().count(e) == Multiset::singleton(a[0]).count(e)
                    + x.to_multiset().count(e));
                assert(b.to_multiset().count(e) == Multiset::singleton(b[0]).count(e)
                    + y.to_multiset().count(e));
            }
        }
        lemma_order_is_unique(x, y);
        assert(a =~= b) by {
            assert(a =~= seq![a[0]] + x);
            assert(b =~= seq![b[0]] + y);
        }
    } else {
        assert(a =~= b);
    }
}

/// The order a source yields its entries in does not reach what is made of them: two sources of
/// the same entries, no two of them at one path, are sorted into one sequence.
pub proof fn lemma_source_order_does_not_matter(a: Seq<SourceView>, b: Seq<SourceView>)
    requires
        a.to_multiset() == b.to_multiset(),
        distinct_keys(a),
    ensures
        sorted_source(a) == sorted_source(b),
{
    lemma_sorted_source(a);
    lemma_sorted_source(b);
    lemma_distinct_by_multiset(a, sorted_source(a));
    lemma_distinct_by_multiset(a, sorted_source(b));
    lemma_order_is_unique(sorted_source(a), sorted_source(b));
}

/// Whether keys are distinct does not depend on the order of the entries.
pub proof fn lemma_distinct_by_multiset(a: Seq<SourceView>, b: Seq<SourceView>)
    requires
        a.to_multiset() == b.to_multiset(),
        distinct_keys(a),
    ensures
        distinct_keys(b),
    decreases a.len(),
{
    a.to_multiset_ensures();
    b.to_multiset_ensures();
    assert(a.len() == b.len());
    assert forall|p: int, q: int|
        0 <= p < b.len() && 0 <= q < b.len() && p != q implies key_of(#[trigger] b[p].path)
        != key_of(#[trigger] b[q].path) by {
        let i = lemma_contains_by_multiset(b, a, p);
        let j = lemma_contains_by_multiset(b, a, q);
        if i == j {
            broadcast use vstd::multiset::group_multiset_axioms;

            // One entry of `a` stands for two of `b`, so it occurs in `a` twice.
            let e = b[p];
            let lo = if p < q {
                p
            } else {
                q
            };
            let hi = if p < q {
                q
            } else {
                p
            };
            let rest = b.remove(hi);
            assert(rest[lo] == e);
            assert(b =~= rest.insert(hi, e));
            lemma_insert_multiset(rest, hi, e);
            rest.to_multiset_ensures();
            assert(rest.contains(e));
            assert(rest.to_multiset().count(e) > 0);
            assert(b.to_multiset().count(e) >= 2);
            let less = a.remove(i);
            assert(a =~= less.insert(i, e));
            lemma_insert_multiset(less, i, e);
            less.to_multiset_ensures();
            assert(less.to_multiset().count(e) > 0);
            assert(less.contains(e));
            let k = choose|k: int| 0 <= k < less.len() && less[k] == e;
            let k2 = if k < i {
                k
            } else {
                k + 1
            };
            assert(a[k2] == e && k2 != i);
            assert(key_of(a[k2].path) != key_of(a[i].path));
            assert(false);
        }
        assert(a[i] == b[p] && a[j] == b[q]);
    }
}

/// Sort the entries of a source by key.
pub fn sort_entries(entries: Vec<SourceEntry>) -> (sorted: Vec<Keyed>)
    ensures
        keyed_views(sorted@) == sorted_source(source_views(entries@)),
        keys_match(sorted@),
{
    let ghost all = source_views(entries@);
    let mut left: Vec<SourceEntry> = entries;
    let mut sorted: Vec<Keyed> = Vec::new();
    assert(all.skip(left@.len() as int) =~= Seq::<SourceView>::empty());
    assert(keyed_views(sorted@) =~= Seq::<SourceView>::empty());
    while left.len() > 0
        invariant
            left@.len() <= all.len(),
            source_views(left@) == all.take(left@.len() as int),
            keyed_views(sorted@) == sorted_source(all.skip(left@.len() as int)),
            keys_match(sorted@),
        decreases left@.len(),
    {
        let ghost n = left@.len() - 1;
        let ghost was = left@;
        let entry = left.pop().unwrap();
        proof {
            assert(entry == was[n]);
            assert(source_views(was)[n] == all.take(n + 1)[n]);
            assert(entry@ == all[n]);
            assert(source_views(left@) =~= all.take(n)) by {
                assert forall|i: int| 0 <= i < n implies source_views(left@)[i] == all.take(n)[i] by {
                    assert(source_views(was)[i] == all.take(n + 1)[i]);
                }
            }
            assert(all.skip(n).drop_first() =~= all.skip(n + 1));
            assert(all.skip(n)[0] == entry@);
        }
        let key = canonical_key(&entry.path);
        let ghost rest = keyed_views(sorted@);
        let mut at: usize = 0;
        while at < sorted.len() && is_before(&sorted[at].key, &key)
            invariant
                at <= sorted@.len(),
                rest == keyed_views(sorted@),
                keys_match(sorted@),
                place_for(rest, key@, at as int) == place_for(rest, key@, 0),
            decreases sorted@.len() - at,
        {
            assert(rest[at as int] == sorted@[at as int].entry@);
            at += 1;
        }
        proof {
            if at < sorted@.len() {
                assert(rest[at as int] == sorted@[at as int].entry@);
            }
            assert(place_for(rest, key@, 0) == at);
        }
        let ghost before_insert = sorted@;
        let keyed = Keyed { key, entry };
        sorted.insert(at, keyed);
        proof {
            assert(keyed_views(sorted@) =~= rest.insert(at as int, entry@));
            assert forall|i: int| 0 <= i < sorted@.len() implies (#[trigger] sorted@[i]).key@
                == key_of(sorted@[i].entry.path@) by {
                if i < at {
                    assert(sorted@[i] == before_insert[i]);
                } else if i > at {
                    assert(sorted@[i] == before_insert[i - 1]);
                }
            }
        }
    }
    assert(all.skip(0) =~= all);
    sorted
}

} // verus!
