//! Formatting: a source turned into the bytes of a volume.
use vstd::prelude::*;

use crate::allocate::{build_model, lemma_settled};
use crate::bytes::{put_vec, zeros};
use crate::fidelity::FidelityReport;
use crate::geometry::{plan_layout, ExfatLayout, GeometryError, FIRST_CLUSTER};
use crate::image::{
    bitmap_bytes, boot_of, boot_region, directory_bytes, directory_of, dirs_painted, files_painted,
    head_pieces, image_of, lemma_boot_head_len, lemma_ceil_div, lemma_clusters_lie_inside,
    lemma_directory_fits, lemma_file_fits, lemma_resident_lens, painted, residents_lead, root_last,
    table_bytes, upcase_bytes, Piece,
};
use crate::model::{ExfatModel, ModelError, ModelFault, Node, TreeView, ROOT_DIR};
use crate::number::ceil_div;
use crate::options::FormatOptions;
use crate::place::tree_of;
use crate::recover::lemma_planned_layout_is_sound;
use crate::source::{source_views, SourceEntry, SourceView};
use crate::text::{dec, push_dec};
use crate::upcase::{lemma_mapping_of, mapping_of, UpcaseTable};
use crate::upcase_table::{recommended_words, RECOMMENDED_UPCASE_BYTES};

verus! {

/// A volume that could not be written.
#[derive(Clone, PartialEq, Eq, Debug)]
pub enum FormatError {
    /// The geometry asked for cannot be had.
    Geometry(GeometryError),
    /// The volume cannot hold the source.
    Model(ModelError),
    /// The volume is larger than this machine addresses.
    ImageTooLargeInMemory {
        /// Bytes of the volume.
        bytes: u64,
    },
}

/// A volume that could not be written, with what its paths hold.
pub enum FormatFault {
    /// The geometry asked for cannot be had.
    Geometry(GeometryError),
    /// The volume cannot hold the source.
    Model(ModelFault),
    /// The volume is larger than this machine addresses.
    ImageTooLargeInMemory {
        /// Bytes of the volume.
        bytes: u64,
    },
}

impl View for FormatError {
    type V = FormatFault;

    open spec fn view(&self) -> FormatFault {
        match *self {
            FormatError::Geometry(e) => FormatFault::Geometry(e),
            FormatError::Model(e) => FormatFault::Model(e@),
            FormatError::ImageTooLargeInMemory { bytes } => FormatFault::ImageTooLargeInMemory {
                bytes,
            },
        }
    }
}

impl FormatFault {
    /// The message of the fault.
    pub open spec fn text(self) -> Seq<char> {
        match self {
            FormatFault::Geometry(e) => e.text(),
            FormatFault::Model(e) => e.text(),
            FormatFault::ImageTooLargeInMemory { bytes } => "an image of "@ + dec(bytes as nat)
                + " bytes is larger than this platform addresses in memory"@,
        }
    }
}

impl FormatError {
    /// The message of the error.
    #[must_use]
    pub fn message(&self) -> (text: String)
        ensures
            text@ == self@.text(),
    {
        match self {
            FormatError::Geometry(e) => e.message(),
            FormatError::Model(e) => e.message(),
            FormatError::ImageTooLargeInMemory { bytes } => {
                let mut out = String::new();
                out.append("an image of ");
                push_dec(&mut out, *bytes);
                out.append(" bytes is larger than this platform addresses in memory");
                assert(out@ =~= self@.text());
                out
            },
        }
    }
}

/// What each unit of a name folds to on a volume a format writes.
pub open spec fn format_mapping() -> Seq<u16> {
    mapping_of(recommended_words())
}

/// The tree a format writes, or why there is none.
#[verifier::opaque]
pub open spec fn planned(source: Seq<SourceView>, volume_bytes: u64, options: FormatOptions) -> Result<
    TreeView,
    FormatFault,
> {
    let request = options.request(volume_bytes);
    if request.fault() is Some {
        Err(FormatFault::Geometry(request.fault()->Some_0))
    } else {
        match tree_of(source, options.loss(), format_mapping()) {
            Err(fault) => Err(FormatFault::Model(fault)),
            Ok(tree) => match tree.misfit(request.layout()) {
                Some(fault) => Err(FormatFault::Model(fault)),
                None => Ok(tree.allocated_on(request.layout())),
            },
        }
    }
}

/// Clusters in use on a volume with this tree.
pub open spec fn used_by(tree: TreeView, layout: ExfatLayout) -> u32 {
    (tree.end_on(layout) - FIRST_CLUSTER) as u32
}

/// The bytes a format writes, where it writes any.
pub open spec fn formatted(source: Seq<SourceView>, volume_bytes: u64, options: FormatOptions) -> Seq<
    u8,
> {
    let layout = options.request(volume_bytes).layout();
    let tree = planned(source, volume_bytes, options)->Ok_0;
    image_of(volume_bytes as nat, layout, options, tree, used_by(tree, layout))
}

/// Bytes, and where on the volume they go.
#[derive(Clone, PartialEq, Eq, Debug)]
pub struct Extent {
    /// The byte they begin at.
    pub at: u64,
    /// The bytes.
    pub bytes: Vec<u8>,
}

impl View for Extent {
    type V = Piece;

    open spec fn view(&self) -> Piece {
        Piece { at: self.at as int, bytes: self.bytes@ }
    }
}

/// What each extent is.
pub open spec fn extent_views(extents: Seq<Extent>) -> Seq<Piece> {
    Seq::new(extents.len(), |i: int| extents[i]@)
}

/// A volume held in memory.
#[derive(Clone, PartialEq, Eq, Debug)]
pub struct Image {
    bytes: Vec<u8>,
    layout: ExfatLayout,
    fidelity: FidelityReport,
}

impl Image {
    /// The bytes of the volume.
    pub closed spec fn content(&self) -> Seq<u8> {
        self.bytes@
    }

    /// Where everything on it is.
    pub closed spec fn geometry(&self) -> ExfatLayout {
        self.layout
    }

    /// What it does not carry of the source.
    pub closed spec fn report(&self) -> FidelityReport {
        self.fidelity
    }

    /// The bytes of the volume.
    #[must_use]
    pub fn as_bytes(&self) -> (bytes: &[u8])
        ensures
            bytes@ == self.content(),
    {
        &self.bytes
    }

    /// The bytes of the volume.
    #[must_use]
    pub fn into_bytes(self) -> (bytes: Vec<u8>)
        ensures
            bytes@ == self.content(),
    {
        self.bytes
    }

    /// Where everything on the volume is.
    #[must_use]
    pub fn layout(&self) -> (layout: &ExfatLayout)
        ensures
            *layout == self.geometry(),
    {
        &self.layout
    }

    /// What the volume does not carry of the source.
    #[must_use]
    pub fn fidelity(&self) -> (report: &FidelityReport)
        ensures
            *report == self.report(),
    {
        &self.fidelity
    }
}

/// A volume with everything about it decided and nothing written.
#[derive(Clone, Debug)]
pub struct FormatPlan {
    layout: ExfatLayout,
    volume_bytes: u64,
    options: FormatOptions,
    model: ExfatModel,
}

/// The pieces before the tree follow one another, and end before the root directory.
pub proof fn lemma_head_in_order(
    layout: ExfatLayout,
    options: FormatOptions,
    tree: TreeView,
    mapping: Seq<u16>,
)
    requires
        layout.sound(),
        residents_lead(layout),
        tree.settled_on(layout, mapping),
    ensures
        ({
            let pieces = head_pieces(layout, options, tree, used_by(tree, layout));
            &&& pieces.len() == 5
            &&& pieces[0].at == 0
            &&& pieces[0].bytes.len() == 12 * layout.bytes_per_sector
            &&& pieces[0].at + pieces[0].bytes.len() <= pieces[1].at
            &&& pieces[1].bytes.len() == 12 * layout.bytes_per_sector
            &&& pieces[1].at + pieces[1].bytes.len() <= pieces[2].at
            &&& pieces[2].at + pieces[2].bytes.len() <= pieces[3].at
            &&& pieces[3].at + pieces[3].bytes.len() <= pieces[4].at
            &&& pieces[4].at + pieces[4].bytes.len() <= layout.byte_of(
                layout.first_cluster_of_root as int,
            )
            &&& layout.byte_of(layout.first_cluster_of_root as int) <= layout.volume_size()
            &&& used_by(tree, layout) == tree.end_on(layout) - FIRST_CLUSTER
            &&& used_by(tree, layout) <= layout.cluster_count
            &&& layout.first_cluster_of_root <= root_last(layout, tree)
            &&& root_last(layout, tree) < tree.end_on(layout)
        }),
{
    let sector = layout.bytes_per_sector as int;
    let per = layout.bytes_per_cluster as int;
    let used = used_by(tree, layout);
    let pieces = head_pieces(layout, options, tree, used);
    let root = layout.first_cluster_of_root as int;
    let last = root_last(layout, tree);
    lemma_boot_head_len(boot_of(layout, options, used), sector);
    lemma_settled(tree, layout, mapping);
    lemma_directory_fits(tree, layout, options.label, mapping, 0);
    lemma_resident_lens(layout, last, used as int);
    lemma_ceil_div(layout.bitmap_bytes as int, per);
    lemma_ceil_div(RECOMMENDED_UPCASE_BYTES as int, per);
    lemma_ceil_div(used as int, 8);
    lemma_ceil_div(layout.cluster_count as int, 8);
    let bitmap_clusters = ceil_div(layout.bitmap_bytes as int, per);
    let upcase_clusters = ceil_div(RECOMMENDED_UPCASE_BYTES as int, per);
    lemma_clusters_lie_inside(layout, FIRST_CLUSTER as int, bitmap_clusters);
    lemma_clusters_lie_inside(layout, layout.upcase_cluster as int, upcase_clusters);
    lemma_clusters_lie_inside(layout, root, 0);
    assert(24 * sector <= layout.fat_offset * sector) by (nonlinear_arith)
        requires
            24 <= layout.fat_offset,
            sector > 0,
    ;
    let table = layout.fat_length * sector;
    assert(layout.fat_offset * sector + table <= layout.cluster_heap_offset * sector)
        by (nonlinear_arith)
        requires
            layout.fat_offset + layout.fat_length <= layout.cluster_heap_offset,
            table == layout.fat_length * sector,
            sector > 0,
    ;
    assert(pieces[2].bytes.len() == 4 * (last + 1));
    assert(4 * (last + 1) <= table);
    assert(0 * per == 0);
}

impl FormatPlan {
    /// Whether the plan is one: the layout is the one asked for, and the tree has the clusters
    /// it gives.
    pub closed spec fn wf(&self) -> bool {
        let request = self.options.request(self.volume_bytes);
        &&& self.options.label.wf()
        &&& request.fault() is None
        &&& self.layout == request.layout()
        &&& self.model@.settled_on(self.layout, format_mapping())
        &&& self.model.used_clusters == used_by(self.model@, self.layout)
        &&& self.model.used_clusters <= self.layout.cluster_count
    }

    /// Where everything on the volume will be.
    pub closed spec fn geometry(&self) -> ExfatLayout {
        self.layout
    }

    /// Bytes of the volume.
    pub closed spec fn size(&self) -> u64 {
        self.volume_bytes
    }

    /// What the volume will be beside the tree.
    pub closed spec fn choices(&self) -> FormatOptions {
        self.options
    }

    /// The tree the volume will have.
    pub closed spec fn tree(&self) -> TreeView {
        self.model@
    }

    /// What the volume will not carry of the source.
    pub closed spec fn report(&self) -> FidelityReport {
        self.model.fidelity
    }

    /// What a plan promises of its tree and its layout.
    pub proof fn lemma_wf(&self)
        requires
            self.wf(),
        ensures
            self.choices().label.wf(),
            self.choices().request(self.size()).fault() is None,
            self.geometry() == self.choices().request(self.size()).layout(),
            self.geometry().sound(),
            self.geometry().volume_size() <= self.size(),
            residents_lead(self.geometry()),
            self.tree().settled_on(self.geometry(), format_mapping()),
            self.report()@ == self.tree().losses,
    {
        lemma_planned_layout_is_sound(self.options.request(self.volume_bytes));
    }

    /// Plan a volume of `volume_bytes` bytes holding the source.
    pub fn new(source: Vec<SourceEntry>, volume_bytes: u64, options: FormatOptions) -> (r: Result<
        Self,
        FormatError,
    >)
        requires
            options.label.wf(),
        ensures
            match planned(source_views(source@), volume_bytes, options) {
                Ok(tree) => {
                    &&& r is Ok
                    &&& r->Ok_0.wf()
                    &&& r->Ok_0.geometry() == options.request(volume_bytes).layout()
                    &&& r->Ok_0.size() == volume_bytes
                    &&& r->Ok_0.choices() == options
                    &&& r->Ok_0.tree() == tree
                },
                Err(fault) => r is Err && r->Err_0@ == fault,
            },
    {
        reveal(planned);
        let mut request = options.plan;
        request.volume_bytes = volume_bytes;
        assert(request == options.request(volume_bytes));
        let layout = match plan_layout(&request) {
            Ok(layout) => layout,
            Err(e) => return Err(FormatError::Geometry(e)),
        };
        let upcase = UpcaseTable::recommended();
        proof {
            lemma_planned_layout_is_sound(request);
            lemma_mapping_of(upcase, recommended_words());
        }
        let model = match build_model(source, &layout, &options.model_config(&upcase)) {
            Ok(model) => model,
            Err(e) => return Err(FormatError::Model(e)),
        };
        proof {
            lemma_settled(model@, layout, format_mapping());
        }
        Ok(FormatPlan { layout, volume_bytes, options, model })
    }

    /// Clusters of the volume that will be free.
    #[must_use]
    pub fn free_clusters(&self) -> (free: u32)
        requires
            self.wf(),
        ensures
            free == self.geometry().cluster_count - used_by(self.tree(), self.geometry()),
    {
        self.layout.cluster_count - self.model.used_clusters
    }

    /// Where everything on the volume will be.
    #[must_use]
    pub fn layout(&self) -> (layout: &ExfatLayout)
        ensures
            *layout == self.geometry(),
    {
        &self.layout
    }

    /// Bytes of the volume.
    #[must_use]
    pub fn volume_bytes(&self) -> (bytes: u64)
        ensures
            bytes == self.size(),
    {
        self.volume_bytes
    }

    /// What the volume will not carry of the source.
    #[must_use]
    pub fn fidelity(&self) -> (report: &FidelityReport)
        ensures
            *report == self.report(),
    {
        &self.model.fidelity
    }

    /// Directories of the tree.
    #[must_use]
    pub fn directories(&self) -> (count: usize)
        ensures
            count == self.tree().dirs.len(),
    {
        self.model.dirs.len()
    }

    /// Entries of directory `index`.
    #[must_use]
    pub fn entries(&self, index: usize) -> (count: usize)
        requires
            index < self.tree().dirs.len(),
        ensures
            count == self.tree().dirs[index as int].entries.len(),
    {
        assert(self.model@.dirs[index as int] == self.model.dirs@[index as int]@);
        self.model.dirs[index].entries.len()
    }

    /// What goes on the volume before the tree: the two boot regions, the table, the bitmap and
    /// the up-case table.
    #[must_use]
    pub fn head(&self) -> (extents: Vec<Extent>)
        requires
            self.wf(),
        ensures
            extent_views(extents@) == head_pieces(
                self.geometry(),
                self.choices(),
                self.tree(),
                used_by(self.tree(), self.geometry()),
            ),
    {
        let layout = &self.layout;
        let used: u32 = self.model.used_clusters;
        proof {
            self.lemma_wf();
            lemma_head_in_order(self.layout, self.options, self.model@, format_mapping());
            lemma_directory_fits(
                self.model@,
                self.layout,
                self.options.label,
                format_mapping(),
                0,
            );
            assert(self.model@.dirs[0] == self.model.dirs@[0]@);
            lemma_clusters_lie_inside(*layout, layout.bitmap_cluster as int, 0);
            lemma_clusters_lie_inside(*layout, layout.upcase_cluster as int, 0);
        }
        let region = boot_region(layout, &self.options, used);
        let last: u32 = layout.first_cluster_of_root + (self.model.dirs[ROOT_DIR].run.count - 1);
        let table_at: Option<u64> = layout.fat_entry_byte(0);
        let bitmap_at: Option<u64> = layout.cluster_start_byte(layout.bitmap_cluster);
        let upcase_at: Option<u64> = layout.cluster_start_byte(layout.upcase_cluster);
        let mut extents: Vec<Extent> = Vec::new();
        let backup_at: u64 = 12 * layout.bytes_per_sector as u64;
        let copy = crate::bytes::copy_of(&region);
        extents.push(Extent { at: 0, bytes: copy });
        extents.push(Extent { at: backup_at, bytes: region });
        extents.push(Extent { at: table_at.unwrap(), bytes: table_bytes(layout, last) });
        extents.push(Extent { at: bitmap_at.unwrap(), bytes: bitmap_bytes(used) });
        extents.push(Extent { at: upcase_at.unwrap(), bytes: upcase_bytes() });
        assert(extent_views(extents@) =~= head_pieces(
            self.geometry(),
            self.choices(),
            self.tree(),
            used_by(self.tree(), self.geometry()),
        ));
        extents
    }

    /// The entries of directory `index`, and where they go.
    #[must_use]
    pub fn directory(&self, index: usize) -> (extent: Extent)
        requires
            self.wf(),
            index < self.tree().dirs.len(),
        ensures
            extent.at == self.geometry().byte_of(self.tree().dirs[index as int].run.first as int),
            extent.bytes@ == directory_of(
                self.tree(),
                self.geometry(),
                self.choices().label,
                index as int,
            ),
    {
        let ghost tree = self.model@;
        proof {
            self.lemma_wf();
            lemma_settled(tree, self.layout, format_mapping());
            lemma_directory_fits(
                tree,
                self.layout,
                self.options.label,
                format_mapping(),
                index as int,
            );
            assert(tree.dirs[index as int] == self.model.dirs@[index as int]@);
            lemma_clusters_lie_inside(
                self.layout,
                tree.dirs[index as int].run.first as int,
                tree.dirs[index as int].run.count as int,
            );
            assert forall|j: int| 0 <= j < tree.dirs[index as int].entries.len() implies match (
            #[trigger] tree.dirs[index as int].entries[j]).node {
                Node::Dir(k) => k < self.model.dirs@.len(),
                _ => true,
            } by {
                assert(tree.entry_sound(
                    format_mapping(),
                    index as int,
                    tree.dirs[index as int].entries[j],
                ));
            }
        }
        let at: Option<u64> = self.layout.cluster_start_byte(self.model.dirs[index].run.first);
        Extent {
            at: at.unwrap(),
            bytes: directory_bytes(&self.model, &self.layout, &self.options.label, index),
        }
    }

    /// The contents of entry `entry` of directory `index`, and where they go, or nothing where
    /// it is not a file with clusters.
    #[must_use]
    pub fn file(&self, index: usize, entry: usize) -> (extent: Option<(u64, &[u8])>)
        requires
            self.wf(),
            index < self.tree().dirs.len(),
            entry < self.tree().dirs[index as int].entries.len(),
        ensures
            match self.tree().dirs[index as int].entries[entry as int].node {
                Node::File { content, run, .. } if run.count != 0 => {
                    &&& extent is Some
                    &&& extent->Some_0.0 == self.geometry().byte_of(run.first as int)
                    &&& extent->Some_0.1@ == self.tree().contents[content as int]
                },
                _ => extent is None,
            },
    {
        let ghost tree = self.model@;
        assert(tree.dirs[index as int] == self.model.dirs@[index as int]@);
        assert(tree.dirs[index as int].entries[entry as int]
            == self.model.dirs@[index as int].entries@[entry as int]@);
        match self.model.dirs[index].entries[entry].node {
            Node::Dir(_) => None,
            Node::File { content, run, .. } => {
                if run.is_empty() {
                    return None;
                }
                proof {
                    self.lemma_wf();
                    lemma_file_fits(
                        tree,
                        self.layout,
                        format_mapping(),
                        index as int,
                        entry as int,
                    );
                    lemma_directory_fits(
                        tree,
                        self.layout,
                        self.options.label,
                        format_mapping(),
                        index as int,
                    );
                    lemma_clusters_lie_inside(self.layout, run.first as int, run.count as int);
                    assert(tree.contents[content as int] == self.model.contents@[content as int]@);
                }
                let at: Option<u64> = self.layout.cluster_start_byte(run.first);
                Some((at.unwrap(), &self.model.contents[content]))
            },
        }
    }

    /// The bytes of the volume, which this machine has to address.
    #[must_use]
    pub fn image(&self) -> (bytes: Vec<u8>)
        requires
            self.wf(),
            self.size() <= usize::MAX,
        ensures
            bytes@ == image_of(
                self.size() as nat,
                self.geometry(),
                self.choices(),
                self.tree(),
                used_by(self.tree(), self.geometry()),
            ),
    {
        let ghost layout = self.layout;
        let ghost tree = self.model@;
        let ghost label = self.options.label;
        let ghost mapping = format_mapping();
        let ghost pieces = head_pieces(layout, self.options, tree, used_by(tree, layout));
        let ghost start = zeros(self.volume_bytes as nat);
        proof {
            self.lemma_wf();
            lemma_head_in_order(layout, self.options, tree, mapping);
        }
        reveal(image_of);
        let size: usize = self.volume_bytes as usize;
        let mut bytes: Vec<u8> = vec![0u8; size];
        assert(bytes@ =~= start);
        let extents = self.head();
        let mut n: usize = 0;
        while n < extents.len()
            invariant
                n <= extents@.len(),
                extents@.len() == 5,
                extent_views(extents@) == pieces,
                bytes@.len() == size,
                layout.volume_size() <= size,
                bytes@ == painted(start, pieces, n as int),
                0 <= pieces[0].at,
                pieces[0].at + pieces[0].bytes.len() <= pieces[1].at,
                pieces[1].at + pieces[1].bytes.len() <= pieces[2].at,
                pieces[2].at + pieces[2].bytes.len() <= pieces[3].at,
                pieces[3].at + pieces[3].bytes.len() <= pieces[4].at,
                pieces[4].at + pieces[4].bytes.len() <= layout.volume_size(),
            decreases extents@.len() - n,
        {
            assert(extents@[n as int]@ == pieces[n as int]);
            put_vec(&mut bytes, extents[n].at as usize, &extents[n].bytes);
            n += 1;
        }
        let ghost head = bytes@;
        let count: usize = self.directories();
        let mut d: usize = 0;
        while d < count
            invariant
                self.wf(),
                layout == self.geometry(),
                tree == self.tree(),
                label == self.choices().label,
                mapping == format_mapping(),
                layout.sound(),
                tree.settled_on(layout, mapping),
                layout.volume_size() <= size,
                size == self.size(),
                d <= count,
                count == tree.dirs.len(),
                bytes@.len() == size,
                bytes@ == dirs_painted(head, tree, layout, label, d as int),
            decreases count - d,
        {
            let ghost di = d as int;
            proof {
                lemma_directory_fits(tree, layout, label, mapping, di);
                lemma_clusters_lie_inside(
                    layout,
                    tree.dirs[di].run.first as int,
                    tree.dirs[di].run.count as int,
                );
            }
            let extent = self.directory(d);
            put_vec(&mut bytes, extent.at as usize, &extent.bytes);
            let ghost dir = bytes@;
            let entries: usize = self.entries(d);
            let mut j: usize = 0;
            while j < entries
                invariant
                    self.wf(),
                    layout == self.geometry(),
                    tree == self.tree(),
                    mapping == format_mapping(),
                    layout.sound(),
                    tree.settled_on(layout, mapping),
                    layout.volume_size() <= size,
                    size == self.size(),
                    d < count,
                    di == d,
                    count == tree.dirs.len(),
                    j <= entries,
                    entries == tree.dirs[di].entries.len(),
                    bytes@.len() == size,
                    bytes@ == files_painted(dir, tree, layout, di, j as int),
                decreases entries - j,
            {
                if let Some((at, contents)) = self.file(d, j) {
                    proof {
                        lemma_file_fits(tree, layout, mapping, di, j as int);
                        lemma_directory_fits(tree, layout, label, mapping, di);
                        let run = tree.dirs[di].entries[j as int].node->File_run;
                        lemma_clusters_lie_inside(layout, run.first as int, run.count as int);
                    }
                    put_vec(&mut bytes, at as usize, contents);
                }
                j += 1;
            }
            d += 1;
        }
        bytes
    }
}

/// The bytes of a volume of `volume_bytes` bytes holding the source.
pub fn format(source: Vec<SourceEntry>, volume_bytes: u64, options: FormatOptions) -> (r: Result<
    Image,
    FormatError,
>)
    requires
        options.label.wf(),
    ensures
        match planned(source_views(source@), volume_bytes, options) {
            Err(fault) => r is Err && r->Err_0@ == fault,
            Ok(tree) => if volume_bytes > usize::MAX {
                r is Err && r->Err_0@ == (FormatFault::ImageTooLargeInMemory {
                    bytes: volume_bytes,
                })
            } else {
                &&& r is Ok
                &&& r->Ok_0.content() == formatted(source_views(source@), volume_bytes, options)
                &&& r->Ok_0.geometry() == options.request(volume_bytes).layout()
                &&& r->Ok_0.report()@ == tree.losses
            },
        },
{
    let plan = FormatPlan::new(source, volume_bytes, options)?;
    if volume_bytes > usize::MAX as u64 {
        return Err(FormatError::ImageTooLargeInMemory { bytes: volume_bytes });
    }
    proof {
        plan.lemma_wf();
    }
    let bytes = plan.image();
    Ok(Image { bytes, layout: plan.layout, fidelity: plan.model.fidelity })
}

} // verus!
