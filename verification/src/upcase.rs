//! The up-case table: how a volume says which units of a name compare as one.
use vstd::prelude::*;

use crate::bytes::{le16_all, push_units, splice};
use crate::error::ParseError;
use crate::upcase_table::{
    lemma_ascii_words, lemma_recommended_words, recommended_table, recommended_words,
};

verus! {

/// The marker of a run of units that fold to themselves; the next word is the run's length.
pub const UPCASE_IDENTITY_RUN: u16 = 0xFFFF;

/// Units a table maps.
pub const UNITS: usize = 0x1_0000;

/// What `unit` folds to through the words of a compressed table that begin at unit `at`.
///
/// A unit the words do not reach folds to itself.
pub open spec fn fold_through(words: Seq<u16>, at: int, unit: int) -> u16
    decreases words.len(),
{
    if words.len() == 0 {
        unit as u16
    } else if words[0] == UPCASE_IDENTITY_RUN && words.len() >= 2 {
        if at <= unit < at + words[1] {
            unit as u16
        } else {
            fold_through(words.skip(2), at + words[1], unit)
        }
    } else if at == unit {
        words[0]
    } else {
        fold_through(words.skip(1), at + 1, unit)
    }
}

/// Every unit of `units` folded through a compressed table.
pub open spec fn folded(words: Seq<u16>, units: Seq<u16>) -> Seq<u16> {
    Seq::new(units.len(), |i: int| fold_through(words, 0, units[i] as int))
}

/// How many of the first `count` units of `map` are not mapped to themselves.
pub open spec fn moved(map: Seq<u16>, count: int) -> nat
    decreases count,
{
    if count <= 0 {
        0
    } else {
        moved(map, count - 1) + if map[count - 1] != count - 1 {
            1nat
        } else {
            0nat
        }
    }
}

/// How a volume folds the units of a name before comparing it.
#[derive(Clone, PartialEq, Eq, Debug)]
pub struct UpcaseTable {
    /// What each unit folds to.
    map: Vec<u16>,
}

impl UpcaseTable {
    /// A table maps every unit.
    pub closed spec fn wf(&self) -> bool {
        self.map@.len() == UNITS
    }

    /// What each unit folds to.
    pub closed spec fn mapping(&self) -> Seq<u16> {
        self.map@
    }

    /// Whether this is the table `words` describe.
    pub open spec fn is_table_of(&self, words: Seq<u16>) -> bool {
        &&& self.wf()
        &&& self.mapping().len() == UNITS
        &&& forall|unit: int|
            0 <= unit < UNITS ==> #[trigger] self.mapping()[unit] == fold_through(words, 0, unit)
    }

    /// The table the words of a compressed table describe.
    ///
    /// A word past the last unit maps nothing, and a run marker with no count behind it is an
    /// ordinary word.
    #[must_use]
    pub fn new(words: &[u16]) -> (table: Self)
        ensures
            table.is_table_of(words@),
    {
        let mut map: Vec<u16> = Vec::new();
        let mut unit: usize = 0;
        while unit < UNITS
            invariant
                unit <= UNITS,
                map@.len() == unit,
                forall|u: int| 0 <= u < unit ==> map@[u] == u,
            decreases UNITS - unit,
        {
            map.push(unit as u16);
            unit += 1;
        }
        let mut at: usize = 0;
        let mut i: usize = 0;
        assert(words@.skip(0) =~= words@);
        while i < words.len() && at < UNITS
            invariant
                i <= words@.len(),
                map@.len() == UNITS,
                forall|u: int| at <= u < UNITS ==> map@[u] == u,
                forall|u: int|
                    0 <= u < at && u < UNITS ==> #[trigger] map@[u] == fold_through(words@, 0, u),
                forall|u: int|
                    at <= u < UNITS ==> #[trigger] fold_through(words@, 0, u) == fold_through(
                        words@.skip(i as int),
                        at as int,
                        u,
                    ),
            decreases words@.len() - i,
        {
            let ghost rest = words@.skip(i as int);
            assert(rest[0] == words@[i as int]);
            if words[i] == UPCASE_IDENTITY_RUN && i + 1 < words.len() {
                assert(rest[1] == words@[i + 1]);
                assert(rest.skip(2) =~= words@.skip(i + 2));
                assert forall|u: int| at <= u < UNITS implies #[trigger] fold_through(words@, 0, u)
                    == (if u < at + rest[1] {
                    u as u16
                } else {
                    fold_through(words@.skip(i + 2), at + rest[1], u)
                }) by {}
                at += words[i + 1] as usize;
                i += 2;
            } else {
                assert(rest.skip(1) =~= words@.skip(i + 1));
                assert forall|u: int| at <= u < UNITS implies #[trigger] fold_through(words@, 0, u)
                    == (if u == at {
                    rest[0]
                } else {
                    fold_through(words@.skip(i + 1), at + 1, u)
                }) by {}
                map.set(at, words[i]);
                at += 1;
                i += 1;
            }
        }
        let table = Self { map };
        assert forall|u: int| 0 <= u < UNITS implies #[trigger] table.mapping()[u] == fold_through(
            words@,
            0,
            u,
        ) by {
            if u >= at {
                assert(fold_through(words@, 0, u) == fold_through(words@.skip(i as int), at as int, u));
                assert(words@.skip(i as int) =~= Seq::<u16>::empty());
            }
        }
        table
    }

    /// The table every formatter writes.
    #[must_use]
    pub fn recommended() -> (table: Self)
        ensures
            table.is_table_of(recommended_words()),
    {
        let words = recommended_table();
        Self::new(&words)
    }

    /// What `unit` folds to.
    #[must_use]
    pub fn fold_unit(&self, unit: u16) -> (folded: u16)
        requires
            self.wf(),
        ensures
            folded == self.mapping()[unit as int],
    {
        self.map[unit as usize]
    }

    /// Every unit of `units` folded.
    #[must_use]
    pub fn fold(&self, units: &[u16]) -> (out: Vec<u16>)
        requires
            self.wf(),
        ensures
            out@ == Seq::new(units@.len(), |i: int| self.mapping()[units@[i] as int]),
    {
        let mut out: Vec<u16> = Vec::new();
        let mut i: usize = 0;
        while i < units.len()
            invariant
                self.wf(),
                i <= units@.len(),
                out@ =~= Seq::new(i as nat, |j: int| self.mapping()[units@[j] as int]),
            decreases units@.len() - i,
        {
            out.push(self.fold_unit(units[i]));
            i += 1;
        }
        out
    }

    /// How many units fold to another one.
    #[must_use]
    pub fn folded_units(&self) -> (count: usize)
        requires
            self.wf(),
        ensures
            count == moved(self.mapping(), UNITS as int),
    {
        let mut count: usize = 0;
        let mut unit: usize = 0;
        while unit < UNITS
            invariant
                self.wf(),
                unit <= UNITS,
                count <= unit,
                count == moved(self.mapping(), unit as int),
            decreases UNITS - unit,
        {
            if self.map[unit] as usize != unit {
                count += 1;
            }
            unit += 1;
        }
        count
    }
}

/// Folding through the table of `words` is folding through `words`.
pub proof fn lemma_fold_is_folded(table: UpcaseTable, words: Seq<u16>, units: Seq<u16>)
    requires
        table.is_table_of(words),
    ensures
        Seq::new(units.len(), |i: int| table.mapping()[units[i] as int]) == folded(words, units),
{
    assert(Seq::new(units.len(), |i: int| table.mapping()[units[i] as int]) =~= folded(
        words,
        units,
    ));
}

/// What each unit folds to through the words of a compressed table.
pub open spec fn mapping_of(words: Seq<u16>) -> Seq<u16> {
    Seq::new(UNITS as nat, |unit: int| fold_through(words, 0, unit))
}

/// A table of some words maps each unit as the words say.
pub proof fn lemma_mapping_of(table: UpcaseTable, words: Seq<u16>)
    requires
        table.is_table_of(words),
    ensures
        table.mapping() == mapping_of(words),
{
    assert(table.mapping() =~= mapping_of(words));
}

/// The unit of the upper-case letter of a lower-case letter's, and any other unit itself, among
/// those of ASCII.
pub open spec fn ascii_upper(unit: int) -> int {
    if 0x61 <= unit <= 0x7A {
        unit - 0x20
    } else {
        unit
    }
}

/// A unit of ASCII folds through the word that is its own, from any unit up to it on.
proof fn lemma_ascii_folds_from(k: int, unit: int)
    requires
        0 <= k <= unit < 128,
    ensures
        fold_through(recommended_words().skip(k), k, unit) == ascii_upper(unit),
    decreases unit - k,
{
    let words = recommended_words();
    let rest = words.skip(k);
    lemma_recommended_words();
    lemma_ascii_words(k);
    assert(rest[0] == words[k]);
    if k < unit {
        lemma_ascii_folds_from(k + 1, unit);
        assert(rest.skip(1) =~= words.skip(k + 1));
    }
}

/// The recommended table folds the lower-case letters of ASCII to the upper-case ones, and every
/// other unit of ASCII to itself.
pub proof fn lemma_ascii_folds(unit: int)
    requires
        0 <= unit < 128,
    ensures
        mapping_of(recommended_words())[unit] == ascii_upper(unit),
{
    lemma_ascii_folds_from(0, unit);
    assert(recommended_words().skip(0) =~= recommended_words());
}

/// Two tables of the same words fold alike.
pub proof fn lemma_tables_of_one_list_fold_alike(a: UpcaseTable, b: UpcaseTable, words: Seq<u16>)
    requires
        a.is_table_of(words),
        b.is_table_of(words),
    ensures
        a.mapping() == b.mapping(),
{
    assert(a.mapping() =~= b.mapping());
}

/// Write the words of a compressed table as a volume stores them.
pub fn write_upcase_table(words: &[u16], buf: &mut [u8]) -> (r: Result<(), ParseError>)
    requires
        2 * words@.len() <= usize::MAX,
    ensures
        final(buf)@.len() == old(buf)@.len(),
        match r {
            Ok(_) => {
                &&& 2 * words@.len() <= old(buf)@.len()
                &&& final(buf)@ == splice(old(buf)@, 0, le16_all(words@))
            },
            Err(e) => {
                &&& old(buf)@.len() < 2 * words@.len()
                &&& final(buf)@ == old(buf)@
                &&& e == (ParseError::TooShort {
                    structure: "exFAT up-case table",
                    need: (2 * words@.len()) as usize,
                    got: old(buf)@.len() as usize,
                })
            },
        },
{
    let need: usize = 2 * words.len();
    let got: usize = buf.len();
    if got < need {
        return Err(ParseError::TooShort { structure: "exFAT up-case table", need, got });
    }
    let mut bytes: Vec<u8> = Vec::new();
    push_units(&mut bytes, words);
    assert(bytes@ =~= le16_all(words@));
    crate::bytes::put_all(buf, 0, &bytes);
    Ok(())
}

/// What a compressed table says of the next units.
pub enum Fold {
    /// The next unit folds to this one.
    To(u16),
    /// As many of the next units fold to themselves.
    Same(u16),
}

/// How many units something is said of.
pub open spec fn units_said(said: Seq<Fold>) -> int
    decreases said.len(),
{
    if said.len() == 0 {
        0
    } else {
        units_said(said.drop_first()) + match said[0] {
            Fold::To(_) => 1int,
            Fold::Same(count) => count as int,
        }
    }
}

/// The words that say it: the unit folded to, or 0xFFFF and a count.
pub open spec fn words_saying(said: Seq<Fold>) -> Seq<u16>
    decreases said.len(),
{
    if said.len() == 0 {
        Seq::empty()
    } else {
        (match said[0] {
            Fold::To(unit) => seq![unit],
            Fold::Same(count) => seq![0xFFFFu16, count],
        }) + words_saying(said.drop_first())
    }
}

/// Units behind those something was said of fold as the words behind say.
proof fn lemma_behind(said: Seq<Fold>, rest: Seq<u16>, at: int, unit: int)
    requires
        !said.contains(Fold::To(0xFFFF)),
        at + units_said(said) <= unit,
    ensures
        0 <= units_said(said),
        fold_through(words_saying(said) + rest, at, unit) == fold_through(
            rest,
            at + units_said(said),
            unit,
        ),
    decreases said.len(),
{
    if said.len() == 0 {
        assert(words_saying(said) + rest =~= rest);
    } else {
        let more = said.drop_first();
        let words = words_saying(said) + rest;
        assert(said.contains(said[0]));
        assert(!more.contains(Fold::To(0xFFFF))) by {
            if more.contains(Fold::To(0xFFFF)) {
                let i = choose|i: int| 0 <= i < more.len() && more[i] == Fold::To(0xFFFF);
                assert(said[i + 1] == Fold::To(0xFFFF));
            }
        }
        lemma_width(more);
        match said[0] {
            Fold::To(_) => {
                assert(words.skip(1) =~= words_saying(more) + rest);
                lemma_behind(more, rest, at + 1, unit);
            },
            Fold::Same(count) => {
                assert(words.skip(2) =~= words_saying(more) + rest);
                lemma_behind(more, rest, at + count, unit);
            },
        }
    }
}

/// Something is said of no fewer than no units.
proof fn lemma_width(said: Seq<Fold>)
    ensures
        0 <= units_said(said),
    decreases said.len(),
{
    if said.len() > 0 {
        lemma_width(said.drop_first());
    }
}

/// A compressed table folds each unit as it says of it, in turn: a unit to the one it names, the
/// units of a run to themselves; and those behind the last it speaks of to themselves.
pub proof fn lemma_a_table_folds_as_it_says(before: Seq<Fold>, here: Fold, behind: Seq<Fold>)
    requires
        !before.contains(Fold::To(0xFFFF)),
        !behind.contains(Fold::To(0xFFFF)),
        here != Fold::To(0xFFFF),
    ensures
        ({
            let first = units_said(before);
            let map = mapping_of(words_saying(before) + words_saying(seq![here]) + words_saying(
                behind,
            ));
            &&& map.len() == 0x1_0000
            &&& here matches Fold::To(unit) ==> (0 <= first < 0x1_0000 ==> map[first] == unit)
            &&& here matches Fold::Same(count) ==> forall|unit: int|
                0 <= first <= unit < first + count && unit < 0x1_0000 ==> #[trigger] map[unit]
                    == unit
            &&& behind.len() == 0 ==> forall|unit: int|
                0 <= first + units_said(seq![here]) <= unit < 0x1_0000 ==> #[trigger] map[unit]
                    == unit
        }),
{
    let first = units_said(before);
    let tail = words_saying(behind);
    let own = words_saying(seq![here]);
    let words = words_saying(before) + own + tail;
    lemma_width(before);
    assert(seq![here].drop_first() =~= Seq::empty());
    reveal_with_fuel(words_saying, 2);
    reveal_with_fuel(units_said, 2);
    assert(words =~= words_saying(before) + (own + tail));
    assert forall|unit: int| first <= unit implies #[trigger] fold_through(words, 0, unit)
        == fold_through(own + tail, first, unit) by {
        lemma_behind(before, own + tail, 0, unit);
    }
    match here {
        Fold::To(unit) => {
            assert((own + tail)[0] == unit);
            assert((own + tail).skip(1) =~= tail);
        },
        Fold::Same(count) => {
            assert((own + tail)[0] == 0xFFFF && (own + tail)[1] == count);
            assert((own + tail).skip(2) =~= tail);
        },
    }
    reveal_with_fuel(fold_through, 3);
    let map = mapping_of(words);
    assert forall|unit: int| 0 <= unit < 0x1_0000 implies #[trigger] map[unit] == fold_through(
        words,
        0,
        unit,
    ) by {}
    if here is Same {
        assert forall|unit: int|
            0 <= first <= unit < first + here->Same_0 && unit < 0x1_0000 implies #[trigger] map[unit]
            == unit by {
            assert(fold_through(words, 0, unit) == fold_through(own + tail, first, unit));
        }
    }
    if behind.len() == 0 {
        assert forall|unit: int|
            0 <= first + units_said(seq![here]) <= unit < 0x1_0000 implies #[trigger] map[unit]
            == unit by {
            assert(fold_through(words, 0, unit) == fold_through(own + tail, first, unit));
        }
    }
}

/// A run marker with no count behind it names the unit it is.
pub proof fn lemma_a_marker_without_a_count_is_a_unit(before: Seq<Fold>)
    requires
        !before.contains(Fold::To(0xFFFF)),
        units_said(before) < 0x1_0000,
    ensures
        mapping_of(words_saying(before) + seq![0xFFFFu16])[units_said(before)] == 0xFFFF,
{
    lemma_width(before);
    lemma_behind(before, seq![0xFFFFu16], 0, units_said(before));
}

} // verus!
