//! What a volume cannot carry of what it was made from, and what a read fills in for it.
use vstd::prelude::*;

use crate::bytes::copy_of;
use crate::source::{Metadata, Xattr};
use crate::time::Timestamp;

verus! {

/// The permission bits that allow writing.
pub const WRITE_BITS: u16 = 0o222;

/// Something about an entry a volume may not carry.
#[derive(Clone, Copy, PartialEq, Eq, Debug, Structural)]
pub enum Property {
    /// Who owns the entry.
    Ownership,
    /// The permission bits.
    Permissions,
    /// The extended attributes.
    ExtendedAttributes,
    /// What the entry is.
    Kind,
    /// How exact the times are.
    TimePrecision,
}

impl Property {
    /// The name of the property, for a message.
    pub open spec fn name(self) -> &'static str {
        match self {
            Property::Ownership => "ownership",
            Property::Permissions => "permissions",
            Property::ExtendedAttributes => "extended attributes",
            Property::Kind => "kind",
            Property::TimePrecision => "time precision",
        }
    }

    /// The name of the property, for a message.
    #[must_use]
    pub fn as_str(self) -> (name: &'static str)
        ensures
            name == self.name(),
    {
        match self {
            Property::Ownership => "ownership",
            Property::Permissions => "permissions",
            Property::ExtendedAttributes => "extended attributes",
            Property::Kind => "kind",
            Property::TimePrecision => "time precision",
        }
    }
}

/// Which way a property went.
#[derive(Clone, Copy, PartialEq, Eq, Debug, Structural)]
pub enum Direction {
    /// The source had it and the volume does not.
    Dropped,
    /// The volume does not have it and a read filled it in.
    Synthesized,
}

/// The losses a caller accepts.
#[derive(Clone, Copy, PartialEq, Eq, Debug, Structural)]
pub struct AcceptedLoss {
    /// Whether ownership may be lost.
    pub ownership: bool,
    /// Whether permissions may be lost.
    pub permissions: bool,
    /// Whether extended attributes may be lost.
    pub extended_attributes: bool,
    /// Whether an entry may become another kind of entry, or none.
    pub kind: bool,
    /// Whether the times may be stored less exactly.
    pub time_precision: bool,
}

impl AcceptedLoss {
    /// Whether losing `property` is accepted.
    pub open spec fn allows(self, property: Property) -> bool {
        match property {
            Property::Ownership => self.ownership,
            Property::Permissions => self.permissions,
            Property::ExtendedAttributes => self.extended_attributes,
            Property::Kind => self.kind,
            Property::TimePrecision => self.time_precision,
        }
    }

    /// No loss accepted.
    #[must_use]
    pub fn none() -> (accepted: Self)
        ensures
            forall|property: Property| !accepted.allows(property),
    {
        AcceptedLoss {
            ownership: false,
            permissions: false,
            extended_attributes: false,
            kind: false,
            time_precision: false,
        }
    }

    /// The same losses accepted, and this one.
    #[must_use]
    pub fn and(self, property: Property) -> (accepted: Self)
        ensures
            forall|other: Property|
                accepted.allows(other) == (other == property || self.allows(other)),
    {
        match property {
            Property::Ownership => AcceptedLoss { ownership: true, ..self },
            Property::Permissions => AcceptedLoss { permissions: true, ..self },
            Property::ExtendedAttributes => AcceptedLoss { extended_attributes: true, ..self },
            Property::Kind => AcceptedLoss { kind: true, ..self },
            Property::TimePrecision => AcceptedLoss { time_precision: true, ..self },
        }
    }

    /// Whether losing `property` is accepted.
    #[must_use]
    pub fn accepts(&self, property: Property) -> (yes: bool)
        ensures
            yes == self.allows(property),
    {
        match property {
            Property::Ownership => self.ownership,
            Property::Permissions => self.permissions,
            Property::ExtendedAttributes => self.extended_attributes,
            Property::Kind => self.kind,
            Property::TimePrecision => self.time_precision,
        }
    }
}

/// What a read fills in for what a volume does not record.
#[derive(Clone, Copy, PartialEq, Eq, Debug, Structural)]
pub struct Synthesis {
    /// The owning user.
    pub uid: u32,
    /// The owning group.
    pub gid: u32,
    /// The mode of a file.
    pub file_mode: u16,
    /// The mode of a directory.
    pub dir_mode: u16,
}

impl Synthesis {
    /// The mode a read gives an entry of which the volume records only whether it may be
    /// written to.
    pub open spec fn mode_of(self, is_dir: bool, read_only: bool) -> u16 {
        let mode = if is_dir {
            self.dir_mode
        } else {
            self.file_mode
        };
        if read_only {
            mode & !WRITE_BITS
        } else {
            mode
        }
    }

    /// Root's files, readable by all and writable by root.
    #[must_use]
    pub fn new() -> (synthesis: Self)
        ensures
            synthesis == (Synthesis { uid: 0, gid: 0, file_mode: 0o644, dir_mode: 0o755 }),
    {
        Synthesis { uid: 0, gid: 0, file_mode: 0o644, dir_mode: 0o755 }
    }

    /// The mode a read gives an entry.
    #[must_use]
    pub fn mode(&self, is_dir: bool, read_only: bool) -> (mode: u16)
        ensures
            mode == self.mode_of(is_dir, read_only),
    {
        let mode: u16 = if is_dir {
            self.dir_mode
        } else {
            self.file_mode
        };
        if read_only {
            mode & !WRITE_BITS
        } else {
            mode
        }
    }
}

/// Whether a mode lets nobody write.
pub open spec fn is_read_only(mode: u16) -> bool {
    mode & WRITE_BITS == 0
}

/// Something a volume does not carry of an entry.
#[derive(Clone, PartialEq, Eq, Debug)]
pub struct Loss {
    /// Which way the property went.
    pub direction: Direction,
    /// The entry.
    pub path: Vec<u8>,
    /// What it lost.
    pub property: Property,
}

/// Something a volume does not carry of an entry.
pub struct LossView {
    /// Which way the property went.
    pub direction: Direction,
    /// The entry.
    pub path: Seq<u8>,
    /// What it lost.
    pub property: Property,
}

impl View for Loss {
    type V = LossView;

    open spec fn view(&self) -> LossView {
        LossView { direction: self.direction, path: self.path@, property: self.property }
    }
}

/// How many of the first `n` of `losses` went `direction` with `property`.
pub open spec fn count_of(
    losses: Seq<LossView>,
    direction: Direction,
    property: Property,
    n: int,
) -> nat
    decreases n,
{
    if n <= 0 {
        0
    } else {
        count_of(losses, direction, property, n - 1) + if losses[n - 1].direction == direction
            && losses[n - 1].property == property {
            1nat
        } else {
            0nat
        }
    }
}

/// Everything a volume does not carry of what it was made from.
#[derive(Clone, PartialEq, Eq, Debug)]
pub struct FidelityReport {
    /// The losses, in the order they were met.
    records: Vec<Loss>,
}

impl View for FidelityReport {
    type V = Seq<LossView>;

    closed spec fn view(&self) -> Seq<LossView> {
        Seq::new(self.records@.len(), |i: int| self.records@[i]@)
    }
}

impl FidelityReport {
    /// A report of no loss.
    #[must_use]
    pub fn new() -> (report: Self)
        ensures
            report@ == Seq::<LossView>::empty(),
    {
        let report = FidelityReport { records: Vec::new() };
        assert(report@ =~= Seq::<LossView>::empty());
        report
    }

    /// Record a loss.
    pub fn record(&mut self, direction: Direction, path: &[u8], property: Property)
        ensures
            final(self)@ == old(self)@.push(LossView { direction, path: path@, property }),
    {
        self.records.push(Loss { direction, path: copy_of(path), property });
        assert(self@ =~= old(self)@.push(LossView { direction, path: path@, property }));
    }

    /// Whether nothing was lost.
    #[must_use]
    pub fn is_faithful(&self) -> (yes: bool)
        ensures
            yes == (self@.len() == 0),
    {
        self.records.len() == 0
    }

    /// How many losses went `direction` with `property`.
    #[must_use]
    pub fn count(&self, direction: Direction, property: Property) -> (count: usize)
        ensures
            count == count_of(self@, direction, property, self@.len() as int),
    {
        let mut count: usize = 0;
        let mut i: usize = 0;
        while i < self.records.len()
            invariant
                i <= self.records@.len(),
                count <= i,
                count == count_of(self@, direction, property, i as int),
            decreases self.records@.len() - i,
        {
            assert(self@[i as int] == self.records@[i as int]@);
            if self.records[i].direction == direction && self.records[i].property == property {
                count += 1;
            }
            i += 1;
        }
        count
    }

    /// The losses, in the order they were met.
    #[must_use]
    pub fn records(&self) -> (records: &[Loss])
        ensures
            records@.len() == self@.len(),
            forall|i: int| 0 <= i < records@.len() ==> (#[trigger] records@[i])@ == self@[i],
    {
        let records = self.records.as_slice();
        assert forall|i: int| 0 <= i < records@.len() implies (#[trigger] records@[i])@
            == self@[i] by {}
        records
    }
}

/// What a caller accepts losing, and what a read would give in its place.
#[derive(Clone, Copy, PartialEq, Eq, Debug, Structural)]
pub struct LossPolicy {
    /// The losses accepted.
    pub accepted: AcceptedLoss,
    /// What a read fills in.
    pub synthesis: Synthesis,
}

/// The properties of an entry that a volume recording only whether it may be written to does
/// not carry: those a read would not give back as they were.
pub open spec fn uncarried(
    synthesis: Synthesis,
    meta: Metadata,
    has_xattrs: bool,
    is_dir: bool,
) -> Seq<Property> {
    let owner = if meta.uid != synthesis.uid || meta.gid != synthesis.gid {
        seq![Property::Ownership]
    } else {
        Seq::empty()
    };
    let mode = if meta.mode != synthesis.mode_of(is_dir, is_read_only(meta.mode)) {
        seq![Property::Permissions]
    } else {
        Seq::empty()
    };
    let xattrs = if has_xattrs {
        seq![Property::ExtendedAttributes]
    } else {
        Seq::empty()
    };
    owner + mode + xattrs
}

/// The first of `properties` whose loss is not accepted.
pub open spec fn first_refused(accepted: AcceptedLoss, properties: Seq<Property>) -> Option<Property>
    decreases properties.len(),
{
    if properties.len() == 0 {
        None
    } else if !accepted.allows(properties[0]) {
        Some(properties[0])
    } else {
        first_refused(accepted, properties.drop_first())
    }
}

/// A loss of each of `properties` by one entry.
pub open spec fn dropped(path: Seq<u8>, properties: Seq<Property>) -> Seq<LossView> {
    Seq::new(
        properties.len(),
        |i: int| LossView { direction: Direction::Dropped, path, property: properties[i] },
    )
}

impl LossPolicy {
    /// Record every property of an entry the volume does not carry, or say which of them the
    /// caller has not accepted losing.
    pub fn record_losses(
        &self,
        report: &mut FidelityReport,
        meta: &Metadata,
        xattrs: &[Xattr],
        is_dir: bool,
        path: &[u8],
    ) -> (r: Result<(), Property>)
        ensures
            ({
                let lost = uncarried(self.synthesis, *meta, xattrs@.len() > 0, is_dir);
                match r {
                    Ok(_) => {
                        &&& first_refused(self.accepted, lost) is None
                        &&& final(report)@ == old(report)@ + dropped(path@, lost)
                    },
                    Err(property) => first_refused(self.accepted, lost) == Some(property),
                }
            }),
    {
        let read_only: bool = meta.mode & WRITE_BITS == 0;
        let mut lost: Vec<Property> = Vec::new();
        if meta.uid != self.synthesis.uid || meta.gid != self.synthesis.gid {
            lost.push(Property::Ownership);
        }
        if meta.mode != self.synthesis.mode(is_dir, read_only) {
            lost.push(Property::Permissions);
        }
        if xattrs.len() > 0 {
            lost.push(Property::ExtendedAttributes);
        }
        let ghost all = uncarried(self.synthesis, *meta, xattrs@.len() > 0, is_dir);
        assert(lost@ =~= all);
        let mut i: usize = 0;
        assert(all.skip(0) =~= all);
        assert(report@ =~= old(report)@ + dropped(path@, all.take(0)));
        while i < lost.len()
            invariant
                i <= lost@.len(),
                lost@ == all,
                all == uncarried(self.synthesis, *meta, xattrs@.len() > 0, is_dir),
                first_refused(self.accepted, all.skip(i as int)) == first_refused(
                    self.accepted,
                    all,
                ),
                report@ == old(report)@ + dropped(path@, all.take(i as int)),
            decreases lost@.len() - i,
        {
            let property = lost[i];
            assert(all.skip(i as int)[0] == property);
            if !self.accepted.accepts(property) {
                return Err(property);
            }
            assert(all.skip(i as int).drop_first() =~= all.skip(i + 1));
            report.record(Direction::Dropped, path, property);
            i += 1;
            assert(report@ =~= old(report)@ + dropped(path@, all.take(i as int)));
        }
        assert(all.take(i as int) =~= all);
        Ok(())
    }
}

/// What a read hands out about an entry.
#[derive(Clone, PartialEq, Eq, Debug)]
pub struct Attributes {
    /// What is known about the entry, or filled in.
    pub meta: Metadata,
    /// The properties that were filled in.
    pub synthesized: Vec<Property>,
    /// The extended attributes, of which the format has none.
    pub xattrs: Vec<Xattr>,
}

impl Attributes {
    /// The attributes of an entry of which the volume records whether it may be written to and,
    /// unless it is the root, when it was last read and changed.
    #[must_use]
    pub fn from_read_only_bit(
        synthesis: &Synthesis,
        is_dir: bool,
        read_only: bool,
        times: Option<(Timestamp, Timestamp)>,
    ) -> (attributes: Self)
        ensures
            attributes.meta.uid == synthesis.uid,
            attributes.meta.gid == synthesis.gid,
            attributes.meta.mode == synthesis.mode_of(is_dir, read_only),
            times is Some ==> attributes.meta.atime == times->Some_0.0 && attributes.meta.mtime
                == times->Some_0.1,
            times is None ==> attributes.meta.atime == (Timestamp { secs: 0, nanos: 0 })
                && attributes.meta.mtime == (Timestamp { secs: 0, nanos: 0 }),
            attributes.synthesized@ == (if times is Some {
                seq![Property::Ownership, Property::Permissions]
            } else {
                seq![Property::Ownership, Property::Permissions, Property::TimePrecision]
            }),
            attributes.xattrs@ == Seq::<Xattr>::empty(),
    {
        let mut synthesized: Vec<Property> = Vec::new();
        synthesized.push(Property::Ownership);
        synthesized.push(Property::Permissions);
        let (atime, mtime) = match times {
            Some(pair) => pair,
            None => {
                synthesized.push(Property::TimePrecision);
                (Timestamp::from_secs(0), Timestamp::from_secs(0))
            },
        };
        let attributes = Attributes {
            meta: Metadata {
                mode: synthesis.mode(is_dir, read_only),
                uid: synthesis.uid,
                gid: synthesis.gid,
                mtime,
                atime,
            },
            synthesized,
            xattrs: Vec::new(),
        };
        assert(times is Some ==> attributes.synthesized@ =~= seq![
            Property::Ownership,
            Property::Permissions,
        ]);
        assert(times is None ==> attributes.synthesized@ =~= seq![
            Property::Ownership,
            Property::Permissions,
            Property::TimePrecision,
        ]);
        attributes
    }
}

/// An entry may not be written to where its mode has none of the three write bits.
pub proof fn lemma_which_modes_are_read_only(mode: u16)
    ensures
        is_read_only(mode) <==> mode as int / 2 % 2 == 0 && mode as int / 16 % 2 == 0 && mode as int
            / 128 % 2 == 0,
{
    assert((mode & 0o222 == 0) == ((mode / 2) % 2 == 0 && (mode / 16) % 2 == 0 && (mode / 128) % 2
        == 0)) by (bit_vector);
}

/// The mode a read gives is that of its kind, and has the write bits it has there exactly where the
/// volume does not say the entry may not be written to.
pub proof fn lemma_a_read_only_entry_has_no_write_bits(
    synthesis: Synthesis,
    is_dir: bool,
    read_only: bool,
)
    ensures
        ({
            let mode = synthesis.mode_of(is_dir, read_only);
            let own = if is_dir {
                synthesis.dir_mode
            } else {
                synthesis.file_mode
            };
            &&& read_only ==> is_read_only(mode)
            &&& !read_only ==> mode == own
            &&& mode | 0o222 == own | 0o222
        }),
{
    let own = if is_dir {
        synthesis.dir_mode
    } else {
        synthesis.file_mode
    };
    assert((own & !0o222) & 0o222 == 0) by (bit_vector);
    assert((own & !0o222) | 0o222 == own | 0o222) by (bit_vector);
}

} // verus!
