//! What a volume does not carry of its source.
use vstd::prelude::*;

use crate::fidelity::{
    dropped, first_refused, is_read_only, uncarried, AcceptedLoss, Direction, LossPolicy, LossView,
    Property,
};
use crate::model::ModelFault;
use crate::path::{key_of, parent_of};
use crate::place::{
    class_of, entry_at, files_before, first_path_fault, link_end, node_step, path_fault,
    place_step, placed_up_to, times_exact, tree_of, Built,
};
use crate::sort::{
    lemma_contains_by_multiset, lemma_place_for, lemma_sorted_source, place_for, sorted_source,
};
use crate::source::{KindView, Metadata, SourceView, XattrView};

verus! {

/// Whether a loss is one a build records: of an exact time, or of what the caller accepts
/// losing.
pub open spec fn is_accepted(loss: LossPolicy, lost: LossView) -> bool {
    &&& lost.direction == Direction::Dropped
    &&& lost.property == Property::TimePrecision || loss.accepted.allows(lost.property)
}

/// Where no loss of a list is refused, each is accepted.
proof fn lemma_none_refused(accepted: AcceptedLoss, properties: Seq<Property>, i: int)
    requires
        first_refused(accepted, properties) is None,
        0 <= i < properties.len(),
    ensures
        accepted.allows(properties[i]),
    decreases properties.len(),
{
    if i > 0 {
        lemma_none_refused(accepted, properties.drop_first(), i - 1);
    }
}

/// Whether a source says nothing of an entry that the volume does not carry: a read gives back
/// its owner, its mode and its times, and it is a file or a directory.
pub open spec fn is_carried(loss: LossPolicy, entry: SourceView) -> bool {
    &&& entry.kind is Directory || entry.kind is File
    &&& entry.meta.uid == loss.synthesis.uid
    &&& entry.meta.gid == loss.synthesis.gid
    &&& entry.meta.mode == loss.synthesis.mode_of(
        entry.kind is Directory,
        is_read_only(entry.meta.mode),
    )
    &&& entry.xattrs.len() == 0
    &&& times_exact(entry.meta)
}

/// Placing an entry records what it loses, and nothing but what is accepted; where it records
/// nothing the volume carries the entry.
proof fn lemma_step_losses(
    built: Built,
    sorted: Seq<SourceView>,
    entry: SourceView,
    loss: LossPolicy,
    mapping: Seq<u16>,
)
    requires
        place_step(built, sorted, entry, loss, mapping) is Ok,
    ensures
        ({
            let after = place_step(built, sorted, entry, loss, mapping)->Ok_0;
            &&& built.losses.len() <= after.losses.len()
            &&& after.losses.take(built.losses.len() as int) == built.losses
            &&& forall|i: int|
                built.losses.len() <= i < after.losses.len() ==> is_accepted(
                    loss,
                    #[trigger] after.losses[i],
                )
            &&& key_of(entry.path).len() > 0 ==> (after.losses.len() == built.losses.len()
                <==> is_carried(loss, entry))
            &&& key_of(entry.path).len() == 0 ==> after == built
        }),
{
    reveal(place_step);
    let key = key_of(entry.path);
    let after = place_step(built, sorted, entry, loss, mapping)->Ok_0;
    if key.len() == 0 {
        assert(after.losses.take(built.losses.len() as int) =~= built.losses);
    } else {
        match node_step(built, sorted, entry, loss) {
            Ok((mid, None)) => {
                assert(after.losses.take(built.losses.len() as int) =~= built.losses);
            },
            Ok((mid, Some(node))) => {
                let is_dir = node is Dir;
                let lost = uncarried(loss.synthesis, entry.meta, entry.xattrs.len() > 0, is_dir);
                let timed = if times_exact(entry.meta) {
                    mid
                } else {
                    mid.losing(entry.path, Property::TimePrecision)
                };
                assert(after.losses == timed.losses + dropped(entry.path, lost));
                assert forall|i: int|
                    built.losses.len() <= i < after.losses.len() implies is_accepted(
                    loss,
                    #[trigger] after.losses[i],
                ) by {
                    if i >= timed.losses.len() {
                        lemma_none_refused(loss.accepted, lost, i - timed.losses.len());
                    }
                }
                assert(after.losses.take(built.losses.len() as int) =~= built.losses);
            },
            Err(_) => {},
        }
    }
}

/// What the first entries lose is accepted, and they lose nothing exactly where the volume
/// carries each.
proof fn lemma_losses_up_to(
    sorted: Seq<SourceView>,
    n: int,
    loss: LossPolicy,
    mapping: Seq<u16>,
)
    requires
        0 <= n <= sorted.len(),
        placed_up_to(sorted, n, loss, mapping) is Ok,
    ensures
        ({
            let built = placed_up_to(sorted, n, loss, mapping)->Ok_0;
            &&& forall|i: int|
                0 <= i < built.losses.len() ==> is_accepted(loss, #[trigger] built.losses[i])
            &&& built.losses.len() == 0 <==> forall|i: int|
                0 <= i < n && key_of((#[trigger] sorted[i]).path).len() > 0 ==> is_carried(
                    loss,
                    sorted[i],
                )
        }),
    decreases n,
{
    if n > 0 {
        lemma_losses_up_to(sorted, n - 1, loss, mapping);
        let before = placed_up_to(sorted, n - 1, loss, mapping)->Ok_0;
        let built = placed_up_to(sorted, n, loss, mapping)->Ok_0;
        let entry = sorted[n - 1];
        lemma_step_losses(before, sorted, entry, loss, mapping);
        assert forall|i: int| 0 <= i < built.losses.len() implies is_accepted(
            loss,
            #[trigger] built.losses[i],
        ) by {
            if i < before.losses.len() {
                assert(built.losses.take(before.losses.len() as int)[i] == before.losses[i]);
            }
        }
        if built.losses.len() == 0 {
            assert forall|i: int|
                0 <= i < n && key_of((#[trigger] sorted[i]).path).len() > 0 implies is_carried(
                loss,
                sorted[i],
            ) by {}
        }
    }
}

/// A build records no loss but that of an exact time and those the caller accepts.
pub proof fn lemma_losses_are_accepted(
    source: Seq<SourceView>,
    loss: LossPolicy,
    mapping: Seq<u16>,
)
    requires
        tree_of(source, loss, mapping) is Ok,
    ensures
        forall|i: int|
            0 <= i < tree_of(source, loss, mapping)->Ok_0.losses.len() ==> is_accepted(
                loss,
                #[trigger] tree_of(source, loss, mapping)->Ok_0.losses[i],
            ),
{
    let sorted = sorted_source(source);
    lemma_losses_up_to(sorted, sorted.len() as int, loss, mapping);
}

/// A build records nothing lost exactly where a read gives back all the source says of each
/// entry but the root.
pub proof fn lemma_nothing_is_lost(
    source: Seq<SourceView>,
    loss: LossPolicy,
    mapping: Seq<u16>,
)
    requires
        tree_of(source, loss, mapping) is Ok,
    ensures
        tree_of(source, loss, mapping)->Ok_0.losses.len() == 0 <==> forall|i: int|
            0 <= i < source.len() && key_of((#[trigger] source[i]).path).len() > 0 ==> is_carried(
                loss,
                source[i],
            ),
{
    let sorted = sorted_source(source);
    lemma_losses_up_to(sorted, sorted.len() as int, loss, mapping);
    lemma_sorted_source(source);
    let faithful = tree_of(source, loss, mapping)->Ok_0.losses.len() == 0;
    if faithful {
        assert forall|i: int|
            0 <= i < source.len() && key_of((#[trigger] source[i]).path).len() > 0 implies
            is_carried(loss, source[i]) by {
            lemma_contains_by_multiset(source, sorted, i);
        }
    } else {
        let i = choose|i: int|
            0 <= i < sorted.len() && key_of((#[trigger] sorted[i]).path).len() > 0 && !is_carried(
                loss,
                sorted[i],
            );
        lemma_contains_by_multiset(sorted, source, i);
    }
}

/// Whether a volume does not carry a property of an entry it has: a read would give another owner,
/// or another mode, or no attributes, or something of another kind, or other times.
pub open spec fn loses(loss: LossPolicy, entry: SourceView, property: Property) -> bool {
    let meta = entry.meta;
    let mode = if entry.kind is Directory {
        loss.synthesis.dir_mode
    } else {
        loss.synthesis.file_mode
    };
    match property {
        Property::Ownership => meta.uid != loss.synthesis.uid || meta.gid != loss.synthesis.gid,
        Property::Permissions => meta.mode != (if meta.mode & 0o222 == 0 {
            mode & !0o222u16
        } else {
            mode
        }),
        Property::ExtendedAttributes => entry.xattrs.len() > 0,
        Property::Kind => !(entry.kind is Directory || entry.kind is File),
        Property::TimePrecision => meta.mtime.nanos % 10_000_000 != 0 || meta.atime.secs % 2 != 0
            || meta.atime.nanos != 0,
    }
}

/// Whether a volume has an entry for an entry of a source: a directory, a file, or a second name
/// for a file.
pub open spec fn is_placed(sorted: Seq<SourceView>, entry: SourceView) -> bool {
    match entry.kind {
        KindView::Directory | KindView::File(_) => true,
        KindView::HardLink(target) => link_end(sorted, key_of(target), sorted.len()) is File,
        _ => false,
    }
}

/// Whether a list of losses has that of a property of the entry at a path.
pub open spec fn records(losses: Seq<LossView>, path: Seq<u8>, property: Property) -> bool {
    losses.contains(LossView { direction: Direction::Dropped, path, property })
}

/// What a placed entry is found to lose beside its kind and its times.
proof fn lemma_uncarried(loss: LossPolicy, entry: SourceView, property: Property)
    ensures
        ({
            let lost = uncarried(
                loss.synthesis,
                entry.meta,
                entry.xattrs.len() > 0,
                entry.kind is Directory,
            );
            lost.contains(property) <==> loses(loss, entry, property) && (property
                == Property::Ownership || property == Property::Permissions || property
                == Property::ExtendedAttributes)
        }),
{
    let lost = uncarried(
        loss.synthesis,
        entry.meta,
        entry.xattrs.len() > 0,
        entry.kind is Directory,
    );
    let owner = loses(loss, entry, Property::Ownership);
    let mode = loses(loss, entry, Property::Permissions);
    let xattrs = loses(loss, entry, Property::ExtendedAttributes);
    if owner {
        assert(lost[0] == Property::Ownership);
    }
    if mode {
        assert(lost[if owner {
            1
        } else {
            0
        }] == Property::Permissions);
    }
    if xattrs {
        assert(lost.last() == Property::ExtendedAttributes);
    }
}

/// Placing an entry records each property it loses, and no other.
proof fn lemma_step_records(
    built: Built,
    sorted: Seq<SourceView>,
    entry: SourceView,
    loss: LossPolicy,
    mapping: Seq<u16>,
    property: Property,
)
    requires
        place_step(built, sorted, entry, loss, mapping) is Ok,
        key_of(entry.path).len() > 0,
    ensures
        ({
            let after = place_step(built, sorted, entry, loss, mapping)->Ok_0;
            &&& loses(loss, entry, property) && (is_placed(sorted, entry) || property
                == Property::Kind) ==> records(after.losses, entry.path, property) && (property
                == Property::TimePrecision || loss.accepted.allows(property))
            &&& forall|j: int|
                built.losses.len() <= j < after.losses.len() ==> {
                    &&& (#[trigger] after.losses[j]).direction == Direction::Dropped
                    &&& after.losses[j].path == entry.path
                    &&& loses(loss, entry, after.losses[j].property)
                    &&& is_placed(sorted, entry) || after.losses[j].property == Property::Kind
                }
        }),
{
    reveal(place_step);
    let after = place_step(built, sorted, entry, loss, mapping)->Ok_0;
    let it = LossView { direction: Direction::Dropped, path: entry.path, property };
    match node_step(built, sorted, entry, loss) {
        Ok((mid, None)) => {
            assert(after.losses.last() == (LossView { property: Property::Kind, ..it }));
        },
        Ok((mid, Some(node))) => {
            let is_dir = node is Dir;
            let lost = uncarried(loss.synthesis, entry.meta, entry.xattrs.len() > 0, is_dir);
            let timed = if times_exact(entry.meta) {
                mid
            } else {
                mid.losing(entry.path, Property::TimePrecision)
            };
            assert(after.losses == timed.losses + dropped(entry.path, lost));
            lemma_uncarried(loss, entry, property);
            if lost.contains(property) {
                let k = choose|k: int| 0 <= k < lost.len() && lost[k] == property;
                lemma_none_refused(loss.accepted, lost, k);
                assert(after.losses[timed.losses.len() + k] == it);
            } else if property == Property::TimePrecision && !times_exact(entry.meta) {
                assert(after.losses[timed.losses.len() - 1] == it);
            } else if property == Property::Kind && loses(loss, entry, property) {
                assert(mid.losses.last() == it);
                assert(after.losses[mid.losses.len() - 1] == it);
            }
            assert forall|j: int| built.losses.len() <= j < after.losses.len() implies {
                &&& (#[trigger] after.losses[j]).direction == Direction::Dropped
                &&& after.losses[j].path == entry.path
                &&& loses(loss, entry, after.losses[j].property)
            } by {
                if j >= timed.losses.len() {
                    let k = j - timed.losses.len();
                    lemma_uncarried(loss, entry, lost[k]);
                    assert(lost.contains(lost[k]));
                }
            }
        },
        Err(_) => {},
    }
}

/// What is recorded of the first entries is each property each of them loses.
proof fn lemma_records_up_to(
    sorted: Seq<SourceView>,
    n: int,
    loss: LossPolicy,
    mapping: Seq<u16>,
)
    requires
        0 <= n <= sorted.len(),
        placed_up_to(sorted, n, loss, mapping) is Ok,
    ensures
        ({
            let losses = placed_up_to(sorted, n, loss, mapping)->Ok_0.losses;
            &&& forall|i: int, property: Property|
                0 <= i < n && key_of(sorted[i].path).len() > 0 && #[trigger] loses(
                    loss,
                    sorted[i],
                    property,
                ) && (is_placed(sorted, sorted[i]) || property == Property::Kind) ==> records(
                    losses,
                    sorted[i].path,
                    property,
                ) && (property == Property::TimePrecision || loss.accepted.allows(property))
            &&& forall|j: int|
                0 <= j < losses.len() ==> exists|i: int|
                    0 <= i < n && key_of((#[trigger] sorted[i]).path).len() > 0
                        && sorted[i].path == (#[trigger] losses[j]).path && loses(
                        loss,
                        sorted[i],
                        losses[j].property,
                    ) && (is_placed(sorted, sorted[i]) || losses[j].property == Property::Kind)
        }),
    decreases n,
{
    if n > 0 {
        lemma_records_up_to(sorted, n - 1, loss, mapping);
        let before = placed_up_to(sorted, n - 1, loss, mapping)->Ok_0;
        let built = placed_up_to(sorted, n, loss, mapping)->Ok_0;
        let entry = sorted[n - 1];
        lemma_step_losses(before, sorted, entry, loss, mapping);
        assert forall|i: int, property: Property|
            0 <= i < n && key_of(sorted[i].path).len() > 0 && #[trigger] loses(
                loss,
                sorted[i],
                property,
            ) && (is_placed(sorted, sorted[i]) || property == Property::Kind) implies records(
            built.losses,
            sorted[i].path,
            property,
        ) && (property == Property::TimePrecision || loss.accepted.allows(property)) by {
            if i < n - 1 {
                let it = LossView {
                    direction: Direction::Dropped,
                    path: sorted[i].path,
                    property,
                };
                let k = choose|k: int| 0 <= k < before.losses.len() && before.losses[k] == it;
                assert(before.losses.contains(it));
                assert(built.losses.take(before.losses.len() as int)[k] == before.losses[k]);
                assert(built.losses[k] == it);
            } else {
                lemma_step_records(before, sorted, entry, loss, mapping, property);
            }
        }
        assert forall|j: int| 0 <= j < built.losses.len() implies exists|i: int|
            0 <= i < n && key_of((#[trigger] sorted[i]).path).len() > 0 && sorted[i].path == (
            #[trigger] built.losses[j]).path && loses(loss, sorted[i], built.losses[j].property)
                && (is_placed(sorted, sorted[i]) || built.losses[j].property
                == Property::Kind) by {
            if j < before.losses.len() {
                assert(built.losses.take(before.losses.len() as int)[j] == before.losses[j]);
                let i = choose|i: int|
                    0 <= i < n - 1 && key_of((#[trigger] sorted[i]).path).len() > 0
                        && sorted[i].path == before.losses[j].path && loses(
                        loss,
                        sorted[i],
                        before.losses[j].property,
                    ) && (is_placed(sorted, sorted[i]) || before.losses[j].property
                        == Property::Kind);
                assert(sorted[i].path == built.losses[j].path);
            } else {
                if key_of(entry.path).len() > 0 {
                    lemma_step_records(
                        before,
                        sorted,
                        entry,
                        loss,
                        mapping,
                        built.losses[j].property,
                    );
                }
                assert(sorted[n - 1].path == built.losses[j].path);
            }
        }
    }
}

/// Property by property, what a build loses of an entry is recorded of that entry, and was
/// accepted, whatever else the entry loses: an owner or a group that a read would not give, a mode
/// that a read would not give, any extended attribute, a kind that is not a directory's or a
/// file's. Times are recorded where they are not held exactly, without having to be accepted. An
/// entry the volume has none for loses its kind, and that is all there is to record of it.
pub proof fn lemma_each_loss_is_recorded_and_accepted(
    source: Seq<SourceView>,
    loss: LossPolicy,
    mapping: Seq<u16>,
    i: int,
)
    requires
        tree_of(source, loss, mapping) is Ok,
        0 <= i < source.len(),
        key_of(source[i].path).len() > 0,
    ensures
        ({
            let losses = tree_of(source, loss, mapping)->Ok_0.losses;
            let entry = source[i];
            let mode = if entry.kind is Directory {
                loss.synthesis.dir_mode
            } else {
                loss.synthesis.file_mode
            };
            let given = if entry.meta.mode & 0o222 == 0 {
                mode & !0o222u16
            } else {
                mode
            };
            let of = |property: Property|
                losses.contains(
                    LossView { direction: Direction::Dropped, path: entry.path, property },
                );
            &&& !(entry.kind is Directory || entry.kind is File) ==> of(Property::Kind)
                && loss.accepted.kind
            &&& is_placed(sorted_source(source), entry) ==> {
                &&& entry.xattrs.len() > 0 ==> of(Property::ExtendedAttributes)
                    && loss.accepted.extended_attributes
                &&& entry.meta.uid != loss.synthesis.uid ==> of(Property::Ownership)
                    && loss.accepted.ownership
                &&& entry.meta.gid != loss.synthesis.gid ==> of(Property::Ownership)
                    && loss.accepted.ownership
                &&& entry.meta.mode != given ==> of(Property::Permissions)
                    && loss.accepted.permissions
                &&& entry.meta.mtime.nanos % 10_000_000 != 0 ==> of(Property::TimePrecision)
                &&& entry.meta.atime.secs % 2 != 0 ==> of(Property::TimePrecision)
                &&& entry.meta.atime.nanos != 0 ==> of(Property::TimePrecision)
            }
        }),
{
    let sorted = sorted_source(source);
    lemma_sorted_source(source);
    lemma_records_up_to(sorted, sorted.len() as int, loss, mapping);
    let k = lemma_contains_by_multiset(source, sorted, i);
    let losses = tree_of(source, loss, mapping)->Ok_0.losses;
    assert forall|property: Property|
        #![trigger loses(loss, source[i], property)]
        loses(loss, source[i], property) && (is_placed(sorted, source[i]) || property
            == Property::Kind) implies records(losses, source[i].path, property) && (property
        == Property::TimePrecision || loss.accepted.allows(property)) by {
        assert(loses(loss, sorted[k], property));
    }
    let entry = source[i];
    if !(entry.kind is Directory || entry.kind is File) {
        assert(loses(loss, entry, Property::Kind));
    }
    if entry.xattrs.len() > 0 {
        assert(loses(loss, entry, Property::ExtendedAttributes));
    }
    if entry.meta.uid != loss.synthesis.uid || entry.meta.gid != loss.synthesis.gid {
        assert(loses(loss, entry, Property::Ownership));
    }
    let mode = if entry.kind is Directory {
        loss.synthesis.dir_mode
    } else {
        loss.synthesis.file_mode
    };
    let given = if entry.meta.mode & 0o222 == 0 {
        mode & !0o222u16
    } else {
        mode
    };
    if entry.meta.mode != given {
        assert(loses(loss, entry, Property::Permissions));
    }
    if !times_exact(entry.meta) {
        assert(loses(loss, entry, Property::TimePrecision));
    }
}

/// Nothing is recorded but what an entry of the source loses: each loss is of the path of an entry
/// whose owner, mode, attributes, kind or times, as the loss says, a read would not give back.
pub proof fn lemma_each_record_is_of_a_loss(
    source: Seq<SourceView>,
    loss: LossPolicy,
    mapping: Seq<u16>,
    j: int,
)
    requires
        tree_of(source, loss, mapping) is Ok,
        0 <= j < tree_of(source, loss, mapping)->Ok_0.losses.len(),
    ensures
        ({
            let lost = tree_of(source, loss, mapping)->Ok_0.losses[j];
            &&& lost.direction == Direction::Dropped
            &&& exists|i: int|
                0 <= i < source.len() && key_of((#[trigger] source[i]).path).len() > 0
                    && source[i].path == lost.path && match lost.property {
                    Property::ExtendedAttributes => source[i].xattrs.len() > 0,
                    Property::Ownership => source[i].meta.uid != loss.synthesis.uid
                        || source[i].meta.gid != loss.synthesis.gid,
                    Property::Permissions => loses(loss, source[i], Property::Permissions),
                    Property::Kind => !(source[i].kind is Directory || source[i].kind is File),
                    Property::TimePrecision => source[i].meta.mtime.nanos % 10_000_000 != 0
                        || source[i].meta.atime.secs % 2 != 0 || source[i].meta.atime.nanos != 0,
                }
        }),
{
    let sorted = sorted_source(source);
    lemma_sorted_source(source);
    lemma_records_up_to(sorted, sorted.len() as int, loss, mapping);
    lemma_losses_are_accepted(source, loss, mapping);
    let losses = tree_of(source, loss, mapping)->Ok_0.losses;
    assert(is_accepted(loss, losses[j]));
    let k = choose|k: int|
        0 <= k < sorted.len() && key_of((#[trigger] sorted[k]).path).len() > 0 && sorted[k].path
            == losses[j].path && loses(loss, sorted[k], losses[j].property) && (is_placed(
            sorted,
            sorted[k],
        ) || losses[j].property == Property::Kind);
    let i = lemma_contains_by_multiset(sorted, source, k);
    assert(source[i].path == losses[j].path);
}

/// The first loss that is refused is one of the list, and not accepted, and those before it are.
proof fn lemma_first_refused(accepted: AcceptedLoss, properties: Seq<Property>)
    ensures
        first_refused(accepted, properties) matches Some(property) ==> properties.contains(property)
            && !accepted.allows(property),
    decreases properties.len(),
{
    if properties.len() > 0 {
        if !accepted.allows(properties[0]) {
            assert(properties.contains(properties[0]));
        } else {
            lemma_first_refused(accepted, properties.drop_first());
            if let Some(property) = first_refused(accepted, properties.drop_first()) {
                let rest = properties.drop_first();
                let k = choose|k: int| 0 <= k < rest.len() && rest[k] == property;
                assert(properties[k + 1] == property);
            }
        }
    }
}

/// Placing the first entries is refused for a loss only where one of them has it and it is not
/// accepted.
proof fn lemma_refusal_up_to(
    sorted: Seq<SourceView>,
    n: int,
    loss: LossPolicy,
    mapping: Seq<u16>,
)
    requires
        0 <= n <= sorted.len(),
    ensures
        placed_up_to(sorted, n, loss, mapping) matches Err(
            ModelFault::LossNotAccepted { path, property },
        ) ==> exists|i: int|
            0 <= i < n && (#[trigger] sorted[i]).path == path && loses(loss, sorted[i], property)
                && !loss.accepted.allows(property) && property != Property::TimePrecision,
    decreases n,
{
    if n > 0 {
        lemma_refusal_up_to(sorted, n - 1, loss, mapping);
        match placed_up_to(sorted, n - 1, loss, mapping) {
            Ok(built) => {
                reveal(place_step);
                let entry = sorted[n - 1];
                match node_step(built, sorted, entry, loss) {
                    Ok((mid, Some(node))) => {
                        let lost = uncarried(
                            loss.synthesis,
                            entry.meta,
                            entry.xattrs.len() > 0,
                            node is Dir,
                        );
                        lemma_first_refused(loss.accepted, lost);
                        if let Some(property) = first_refused(loss.accepted, lost) {
                            lemma_uncarried(loss, entry, property);
                        }
                    },
                    _ => {},
                }
            },
            Err(ModelFault::LossNotAccepted { path, property }) => {
                let i = choose|i: int|
                    0 <= i < n - 1 && (#[trigger] sorted[i]).path == path && loses(
                        loss,
                        sorted[i],
                        property,
                    ) && !loss.accepted.allows(property) && property != Property::TimePrecision;
                assert(sorted[i].path == path);
            },
            Err(_) => {},
        }
    }
}

/// A build is refused for a loss only where an entry has that very loss and the caller has not
/// accepted it; never for the exactness of a time.
pub proof fn lemma_only_an_unaccepted_loss_is_refused(
    source: Seq<SourceView>,
    loss: LossPolicy,
    mapping: Seq<u16>,
)
    ensures
        tree_of(source, loss, mapping) matches Err(
            ModelFault::LossNotAccepted { path, property },
        ) ==> {
            &&& exists|i: int|
                0 <= i < source.len() && (#[trigger] source[i]).path == path && loses(
                    loss,
                    source[i],
                    property,
                )
            &&& match property {
                Property::Ownership => !loss.accepted.ownership,
                Property::Permissions => !loss.accepted.permissions,
                Property::ExtendedAttributes => !loss.accepted.extended_attributes,
                Property::Kind => !loss.accepted.kind,
                Property::TimePrecision => false,
            }
        },
{
    let sorted = sorted_source(source);
    lemma_sorted_source(source);
    lemma_no_loss_in_path_fault(sorted, 0);
    lemma_refusal_up_to(sorted, sorted.len() as int, loss, mapping);
    if let Err(ModelFault::LossNotAccepted { path, property }) = tree_of(source, loss, mapping) {
        let k = choose|k: int|
            0 <= k < sorted.len() && (#[trigger] sorted[k]).path == path && loses(
                loss,
                sorted[k],
                property,
            ) && !loss.accepted.allows(property) && property != Property::TimePrecision;
        let i = lemma_contains_by_multiset(sorted, source, k);
        assert(source[i].path == path);
    }
}

/// A faulty path is not refused for a loss.
proof fn lemma_no_loss_in_path_fault(sorted: Seq<SourceView>, from: int)
    ensures
        first_path_fault(sorted, from) matches Some(fault) ==> !(fault is LossNotAccepted),
    decreases sorted.len() - from,
{
    if from < sorted.len() {
        lemma_no_loss_in_path_fault(sorted, from + 1);
    }
}

/// The source with another owner, mode and times of the root directory, and other attributes of
/// it.
pub open spec fn with_root(source: Seq<SourceView>, meta: Metadata, xattrs: Seq<XattrView>) -> Seq<
    SourceView,
> {
    Seq::new(
        source.len(),
        |i: int|
            if key_of(source[i].path).len() == 0 {
                SourceView { meta, xattrs, ..source[i] }
            } else {
                source[i]
            },
    )
}

/// A place by key is the same whatever is said of the root.
proof fn lemma_same_place(
    sorted: Seq<SourceView>,
    meta: Metadata,
    xattrs: Seq<XattrView>,
    key: Seq<u8>,
    from: int,
)
    requires
        0 <= from,
    ensures
        place_for(with_root(sorted, meta, xattrs), key, from) == place_for(sorted, key, from),
        entry_at(with_root(sorted, meta, xattrs), key, from) == entry_at(sorted, key, from),
    decreases sorted.len() - from,
{
    if from < sorted.len() {
        lemma_same_place(sorted, meta, xattrs, key, from + 1);
    }
}

/// The order of a source is the same whatever is said of the root.
proof fn lemma_same_order(source: Seq<SourceView>, meta: Metadata, xattrs: Seq<XattrView>)
    ensures
        sorted_source(with_root(source, meta, xattrs)) == with_root(
            sorted_source(source),
            meta,
            xattrs,
        ),
    decreases source.len(),
{
    let other = with_root(source, meta, xattrs);
    if source.len() > 0 {
        let rest = sorted_source(source.drop_first());
        let key = key_of(source[0].path);
        lemma_same_order(source.drop_first(), meta, xattrs);
        assert(other.drop_first() =~= with_root(source.drop_first(), meta, xattrs));
        lemma_same_place(rest, meta, xattrs, key, 0);
        lemma_sorted_source(source.drop_first());
        lemma_place_for(rest, key, 0);
        let at = place_for(rest, key, 0);
        assert(with_root(rest, meta, xattrs).insert(at, other[0]) =~= with_root(
            rest.insert(at, source[0]),
            meta,
            xattrs,
        ));
    } else {
        assert(sorted_source(other) =~= with_root(sorted_source(source), meta, xattrs));
    }
}

/// How many files come before is the same whatever is said of the root.
proof fn lemma_same_files(sorted: Seq<SourceView>, meta: Metadata, xattrs: Seq<XattrView>, n: int)
    requires
        n <= sorted.len(),
    ensures
        files_before(with_root(sorted, meta, xattrs), n) == files_before(sorted, n),
    decreases n,
{
    if n > 0 {
        lemma_same_files(sorted, meta, xattrs, n - 1);
    }
}

/// An entry found by key is one of the source's.
proof fn lemma_entry_inside(sorted: Seq<SourceView>, key: Seq<u8>, from: int)
    requires
        0 <= from,
    ensures
        entry_at(sorted, key, from) matches Some(i) ==> from <= i < sorted.len(),
    decreases sorted.len() - from,
{
    if from < sorted.len() {
        lemma_entry_inside(sorted, key, from + 1);
    }
}

/// A hard link leads to the same end whatever is said of the root.
proof fn lemma_same_end(
    sorted: Seq<SourceView>,
    meta: Metadata,
    xattrs: Seq<XattrView>,
    key: Seq<u8>,
    steps: nat,
)
    ensures
        link_end(with_root(sorted, meta, xattrs), key, steps) == link_end(sorted, key, steps),
    decreases steps,
{
    let other = with_root(sorted, meta, xattrs);
    lemma_same_place(sorted, meta, xattrs, key, 0);
    lemma_entry_inside(sorted, key, 0);
    match entry_at(sorted, key, 0) {
        Some(i) => {
            lemma_same_files(sorted, meta, xattrs, i);
            assert(class_of(other, i) == class_of(sorted, i));
            if steps > 0 {
                if let KindView::HardLink(target) = sorted[i].kind {
                    lemma_same_end(
                        sorted,
                        meta,
                        xattrs,
                        key_of(target),
                        (steps - 1) as nat,
                    );
                }
            }
        },
        None => {},
    }
}

/// The first faulty path is the same whatever is said of the root.
proof fn lemma_same_fault(sorted: Seq<SourceView>, meta: Metadata, xattrs: Seq<XattrView>, from: int)
    requires
        0 <= from,
    ensures
        first_path_fault(with_root(sorted, meta, xattrs), from) == first_path_fault(
            sorted,
            from,
        ),
    decreases sorted.len() - from,
{
    if from < sorted.len() {
        lemma_same_place(sorted, meta, xattrs, key_of(sorted[from].path), 0);
        assert(path_fault(with_root(sorted, meta, xattrs), from) == path_fault(sorted, from));
        lemma_same_fault(sorted, meta, xattrs, from + 1);
    }
}

/// The tree of the first entries is the same whatever is said of the root.
proof fn lemma_same_tree(
    sorted: Seq<SourceView>,
    meta: Metadata,
    xattrs: Seq<XattrView>,
    n: int,
    loss: LossPolicy,
    mapping: Seq<u16>,
)
    requires
        n <= sorted.len(),
    ensures
        placed_up_to(with_root(sorted, meta, xattrs), n, loss, mapping) == placed_up_to(
            sorted,
            n,
            loss,
            mapping,
        ),
    decreases n,
{
    if n > 0 {
        let other = with_root(sorted, meta, xattrs);
        lemma_same_tree(sorted, meta, xattrs, n - 1, loss, mapping);
        reveal(place_step);
        let entry = sorted[n - 1];
        let key = key_of(entry.path);
        if key.len() > 0 {
            assert(other[n - 1] == entry);
            lemma_same_place(sorted, meta, xattrs, parent_of(key), 0);
            if let KindView::HardLink(target) = entry.kind {
                lemma_same_end(sorted, meta, xattrs, key_of(target), sorted.len());
            }
        }
    }
}

/// What a source says of the root directory itself is ignored: the volume has no entry for it,
/// so the tree, what it records as lost, and why there is no tree, are the same whatever it is.
pub proof fn lemma_root_metadata_is_ignored(
    source: Seq<SourceView>,
    meta: Metadata,
    xattrs: Seq<XattrView>,
    loss: LossPolicy,
    mapping: Seq<u16>,
)
    ensures
        tree_of(with_root(source, meta, xattrs), loss, mapping) == tree_of(
            source,
            loss,
            mapping,
        ),
{
    let sorted = sorted_source(source);
    lemma_same_order(source, meta, xattrs);
    lemma_same_fault(sorted, meta, xattrs, 0);
    lemma_same_tree(sorted, meta, xattrs, sorted.len() as int, loss, mapping);
}

} // verus!
