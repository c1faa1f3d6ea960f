//! What a format writes beside the tree.
use vstd::prelude::*;

use crate::boot::BOOT_CODE_LEN;
use crate::fidelity::{AcceptedLoss, LossPolicy, Property, Synthesis};
use crate::geometry::{BoundaryAlign, ClusterSize, PlanRequest};
use crate::label::VolumeLabel;
use crate::model::ModelConfig;
use crate::upcase::UpcaseTable;

verus! {

/// What a format is to be beside the tree.
#[derive(Clone, Copy, Debug)]
pub struct FormatOptions {
    /// The volume's serial number.
    pub volume_serial: u32,
    /// The volume's name.
    pub label: VolumeLabel,
    /// The boot code.
    pub boot_code: [u8; BOOT_CODE_LEN],
    /// The geometry asked for; its size is the one a format is given beside it.
    pub plan: PlanRequest,
    /// The losses accepted.
    pub accepted_loss: AcceptedLoss,
    /// What a read fills in for what the volume does not carry.
    pub synthesis: Synthesis,
}

impl FormatOptions {
    /// The geometry asked for, of a volume this large.
    pub open spec fn request(self, volume_bytes: u64) -> PlanRequest {
        PlanRequest { volume_bytes, ..self.plan }
    }

    /// The losses accepted and what a read fills in.
    pub open spec fn loss(self) -> LossPolicy {
        LossPolicy { accepted: self.accepted_loss, synthesis: self.synthesis }
    }

    /// A format with this serial number and everything else as convention has it: no name, no
    /// boot code, the conventional geometry, no loss accepted.
    #[must_use]
    pub fn new(volume_serial: u32) -> (options: Self)
        ensures
            options.volume_serial == volume_serial,
            options.label.wf(),
            options.label.name() == Seq::<u16>::empty(),
            options.label.label_entry().label@ == Seq::new(11, |i: int| 0u16),
            options.boot_code@ == Seq::new(390, |i: int| 0u8),
            options.plan == (PlanRequest {
                volume_bytes: 0,
                bytes_per_sector: 512,
                cluster_size: ClusterSize::Auto,
                boundary_align: BoundaryAlign::Auto,
            }),
            forall|property: Property| !options.accepted_loss.allows(property),
            options.synthesis == (Synthesis { uid: 0, gid: 0, file_mode: 0o644, dir_mode: 0o755 }),
    {
        let options = FormatOptions {
            volume_serial,
            label: VolumeLabel::unnamed(),
            boot_code: [0; BOOT_CODE_LEN],
            plan: PlanRequest::new(0),
            accepted_loss: AcceptedLoss::none(),
            synthesis: Synthesis::new(),
        };
        assert(options.boot_code@ =~= Seq::new(390, |i: int| 0u8));
        options
    }

    /// The same format with this name.
    #[must_use]
    pub fn label(self, label: VolumeLabel) -> (options: Self)
        ensures
            options == (FormatOptions { label, ..self }),
    {
        FormatOptions { label, ..self }
    }

    /// The same format with this boot code.
    #[must_use]
    pub fn boot_code(self, boot_code: [u8; BOOT_CODE_LEN]) -> (options: Self)
        ensures
            options == (FormatOptions { boot_code, ..self }),
    {
        FormatOptions { boot_code, ..self }
    }

    /// The same format with this geometry.
    #[must_use]
    pub fn plan(self, plan: PlanRequest) -> (options: Self)
        ensures
            options == (FormatOptions { plan, ..self }),
    {
        FormatOptions { plan, ..self }
    }

    /// The same format accepting these losses.
    #[must_use]
    pub fn accepted_loss(self, accepted: AcceptedLoss) -> (options: Self)
        ensures
            options == (FormatOptions { accepted_loss: accepted, ..self }),
    {
        FormatOptions { accepted_loss: accepted, ..self }
    }

    /// The same format for a read that fills this in.
    #[must_use]
    pub fn synthesis(self, synthesis: Synthesis) -> (options: Self)
        ensures
            options == (FormatOptions { synthesis, ..self }),
    {
        FormatOptions { synthesis, ..self }
    }

    /// What the tree is built with.
    #[must_use]
    pub fn model_config<'a>(&self, upcase: &'a UpcaseTable) -> (config: ModelConfig<'a>)
        ensures
            config.loss == self.loss(),
            config.upcase == upcase,
    {
        ModelConfig {
            loss: LossPolicy { accepted: self.accepted_loss, synthesis: self.synthesis },
            upcase,
        }
    }
}

} // verus!
