//! The name of a volume.
use vstd::prelude::*;

use crate::dirent::{VolumeLabelEntry, MAX_LABEL_UNITS};
use crate::text::{debug_form, debug_text, dec, is_plain_text, push_dec};
use crate::unicode::{chars_of, encode_utf16, lemma_utf16_round_trip, spell, text_of_units, utf16};

verus! {

/// A name no volume can have.
#[derive(Clone, Copy, PartialEq, Eq, Debug, Structural)]
pub enum LabelError {
    /// A name of more units than the format holds.
    TooLong {
        /// Units of the name.
        units: usize,
        /// Units the format holds.
        limit: usize,
    },
    /// A name with the character zero.
    NulUnit {
        /// Which unit it is.
        at: usize,
    },
}

impl LabelError {
    /// The message of the error.
    pub open spec fn text(self) -> Seq<char> {
        match self {
            LabelError::TooLong { units, limit } => "volume label of "@ + dec(units as nat)
                + " UTF-16 units exceeds the "@ + dec(limit as nat) + " the format holds"@,
            LabelError::NulUnit { at } =>
                "a volume label may not contain U+0000, and this one does at unit "@ + dec(
                at as nat,
            ),
        }
    }

    /// The message of the error.
    #[must_use]
    pub fn message(&self) -> (text: String)
        ensures
            text@ == self.text(),
    {
        let mut out = String::new();
        match self {
            LabelError::TooLong { units, limit } => {
                out.append("volume label of ");
                push_dec(&mut out, *units as u64);
                out.append(" UTF-16 units exceeds the ");
                push_dec(&mut out, *limit as u64);
                out.append(" the format holds");
            },
            LabelError::NulUnit { at } => {
                out.append("a volume label may not contain U+0000, and this one does at unit ");
                push_dec(&mut out, *at as u64);
            },
        }
        assert(out@ =~= self.text());
        out
    }
}

/// The name of a volume.
#[derive(Clone, Copy, PartialEq, Eq, Debug)]
pub struct VolumeLabel {
    units: [u16; MAX_LABEL_UNITS],
    len: u8,
}

/// How a label shows whose name shows as `name`.
pub open spec fn label_form(name: Seq<char>) -> Seq<char> {
    "VolumeLabel("@ + name + ")"@
}

/// How a label shows whose name shows as `name`.
#[must_use]
pub fn label_text(name: &str) -> (text: String)
    ensures
        text@ == label_form(name@),
{
    let mut out = String::new();
    out.append("VolumeLabel(");
    out.append(name);
    out.append(")");
    assert(out@ =~= label_form(name@));
    out
}

/// Which of the units from `from` on is the first zero.
pub open spec fn first_zero(units: Seq<u16>, from: int) -> Option<int>
    decreases units.len() - from,
{
    if from >= units.len() {
        None
    } else if units[from] == 0 {
        Some(from)
    } else {
        first_zero(units, from + 1)
    }
}

/// Why no volume can have a name of these units, where none can: a zero before there are too
/// many, or too many of them.
pub open spec fn label_fault(units: Seq<u16>) -> Option<LabelError> {
    match first_zero(units, 0) {
        Some(at) if at <= MAX_LABEL_UNITS => Some(LabelError::NulUnit { at: at as usize }),
        _ => if units.len() > MAX_LABEL_UNITS {
            Some(LabelError::TooLong { units: units.len() as usize, limit: MAX_LABEL_UNITS })
        } else {
            None
        },
    }
}

impl VolumeLabel {
    /// The most units a name has.
    pub const MAX_UNITS: usize = MAX_LABEL_UNITS;

    /// Whether the name is no longer than its field, has no unit that ends one, and has nothing
    /// but zeros behind it.
    pub closed spec fn wf(self) -> bool {
        &&& self.len <= MAX_LABEL_UNITS
        &&& forall|i: int| self.len <= i < MAX_LABEL_UNITS ==> #[trigger] self.units@[i] == 0
        &&& first_zero(self.name(), 0) is None
    }

    /// The units of the name.
    pub closed spec fn name(self) -> Seq<u16> {
        self.units@.take(self.len as int)
    }

    /// The entry that records the name.
    pub closed spec fn label_entry(self) -> VolumeLabelEntry {
        VolumeLabelEntry { character_count: self.len, label: self.units }
    }

    /// What the entry records is the name, and zeros behind it.
    pub proof fn lemma_label_entry(self)
        requires
            self.wf(),
        ensures
            self.label_entry().character_count == self.name().len(),
            self.name().len() <= MAX_LABEL_UNITS,
            self.name() == self.label_entry().label@.take(self.name().len() as int),
            forall|i: int|
                self.name().len() <= i < MAX_LABEL_UNITS
                    ==> #[trigger] self.label_entry().label@[i] == 0,
            first_zero(self.name(), 0) is None,
    {
    }

    /// A label made of a text spells that text.
    pub proof fn lemma_label_spells_its_text(self, text: Seq<char>)
        requires
            self.name() == utf16(text),
        ensures
            text_of_units(self.name()) == text,
    {
        lemma_utf16_round_trip(text);
    }

    /// Labels of one name are one label.
    pub proof fn lemma_label_is_its_name(self, other: Self)
        requires
            self.wf(),
            other.wf(),
            self.name() == other.name(),
        ensures
            self == other,
            self.label_entry() == other.label_entry(),
    {
        assert(self.name().len() == other.name().len());
        assert forall|i: int| 0 <= i < 11 implies self.units@[i] == other.units@[i] by {
            if i < self.len {
                assert(self.units@[i] == self.name()[i]);
                assert(other.units@[i] == other.name()[i]);
            }
        }
        assert(self.units =~= other.units);
    }

    /// The name `name`, refused where no volume can have it.
    pub fn new(name: &str) -> (r: Result<Self, LabelError>)
        ensures
            match r {
                Ok(label) => {
                    &&& label_fault(utf16(name@)) is None
                    &&& label.wf()
                    &&& label.name() == utf16(name@)
                },
                Err(e) => label_fault(utf16(name@)) == Some(e),
            },
    {
        let text = chars_of(name);
        let all = encode_utf16(&text);
        let mut units: [u16; MAX_LABEL_UNITS] = [0; MAX_LABEL_UNITS];
        let mut len: usize = 0;
        while len < all.len()
            invariant
                len <= all@.len(),
                len <= MAX_LABEL_UNITS,
                all@ == utf16(name@),
                units@.len() == 11,
                first_zero(all@, 0) == first_zero(all@, len as int),
                forall|i: int| 0 <= i < len ==> units@[i] == all@[i],
                forall|i: int| len <= i < MAX_LABEL_UNITS ==> #[trigger] units@[i] == 0,
            decreases all@.len() - len,
        {
            if all[len] == 0 {
                return Err(LabelError::NulUnit { at: len });
            }
            if len == MAX_LABEL_UNITS {
                proof {
                    lemma_first_zero(all@, len + 1);
                }
                return Err(LabelError::TooLong { units: all.len(), limit: MAX_LABEL_UNITS });
            }
            units[len] = all[len];
            len += 1;
        }
        let label = VolumeLabel { units, len: len as u8 };
        assert(label.name() =~= all@);
        Ok(label)
    }

    /// No name.
    #[must_use]
    pub fn unnamed() -> (label: Self)
        ensures
            label.wf(),
            label.name() == Seq::<u16>::empty(),
            label.label_entry().label@ == Seq::new(11, |i: int| 0u16),
    {
        let label = VolumeLabel { units: [0; MAX_LABEL_UNITS], len: 0 };
        assert(label.name() =~= Seq::<u16>::empty());
        assert(label.units@ =~= Seq::new(11, |i: int| 0u16));
        label
    }

    /// The units of the name.
    #[must_use]
    pub fn units(&self) -> (units: &[u16])
        requires
            self.wf(),
        ensures
            units@ == self.name(),
    {
        vstd::slice::slice_subrange(self.units.as_slice(), 0, self.len as usize)
    }

    /// The label as a message shows it: its name as `{:?}` writes a text, behind the word
    /// `VolumeLabel`.
    #[must_use]
    pub fn text(&self) -> (text: String)
        requires
            self.wf(),
        ensures
            text@ == label_form(debug_form(text_of_units(self.name()))),
            is_plain_text(text_of_units(self.name())) ==> text@ == "VolumeLabel(\""@
                + text_of_units(self.name()) + "\")"@,
    {
        let name = spell(self.units());
        let shown = debug_text(name.as_str());
        let text = label_text(shown.as_str());
        proof {
            reveal_strlit("VolumeLabel(");
            reveal_strlit("VolumeLabel(\"");
            reveal_strlit(")");
            reveal_strlit("\")");
            if is_plain_text(name@) {
                assert(text@ =~= "VolumeLabel(\""@ + name@ + "\")"@);
            }
        }
        text
    }

    /// The entry that records the name.
    #[must_use]
    pub fn entry(&self) -> (entry: VolumeLabelEntry)
        ensures
            entry == self.label_entry(),
    {
        VolumeLabelEntry { character_count: self.len, label: self.units }
    }
}

/// The first zero from `from` on is not before `from`.
proof fn lemma_first_zero(units: Seq<u16>, from: int)
    ensures
        first_zero(units, from) is Some ==> first_zero(units, from)->Some_0 >= from,
    decreases units.len() - from,
{
    if from < units.len() {
        lemma_first_zero(units, from + 1);
    }
}

impl Default for VolumeLabel {
    fn default() -> (label: Self)
        ensures
            label.wf(),
            label.name() == Seq::<u16>::empty(),
            label.label_entry().label@ == Seq::new(11, |i: int| 0u16),
    {
        VolumeLabel::unnamed()
    }
}

/// A volume can have a name exactly where it has no more than eleven units and none of them is
/// zero; and where it cannot, the reason is the first zero of the first twelve, or else that there
/// are too many.
pub proof fn lemma_which_names_a_volume_can_have(units: Seq<u16>)
    requires
        units.len() <= usize::MAX,
    ensures
        label_fault(units) is None <==> units.len() <= 11 && !units.contains(0),
        label_fault(units) matches Some(e) ==> match e {
            LabelError::NulUnit { at } => at <= 11 && at < units.len() && units[at as int] == 0
                && forall|i: int| 0 <= i < at ==> #[trigger] units[i] != 0,
            LabelError::TooLong { units: count, limit } => count == units.len() && limit == 11
                && units.len() > 11 && !units.take(12).contains(0),
        },
{
    lemma_where_the_first_zero_is(units, 0);
    match first_zero(units, 0) {
        Some(at) => {
            assert(units.contains(units[at]));
        },
        None => {},
    }
    if units.len() > 11 && units.take(12).contains(0) {
        let i = choose|i: int| 0 <= i < 12 && units.take(12)[i] == 0;
        assert(units[i] == 0);
    }
}

/// The first zero of units is a zero with none before it.
proof fn lemma_where_the_first_zero_is(units: Seq<u16>, from: int)
    requires
        0 <= from,
    ensures
        match first_zero(units, from) {
            Some(at) => {
                &&& from <= at < units.len()
                &&& units[at] == 0
                &&& forall|i: int| from <= i < at ==> #[trigger] units[i] != 0
            },
            None => forall|i: int| from <= i < units.len() ==> #[trigger] units[i] != 0,
        },
    decreases units.len() - from,
{
    if from < units.len() {
        lemma_where_the_first_zero_is(units, from + 1);
    }
}

} // verus!
