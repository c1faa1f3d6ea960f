//! What is where on a volume a format has written.
use vstd::prelude::*;

use crate::allocate::{dir_start, entry_clusters, entry_start, lemma_dir_start};
use crate::bytes::{splice, zeros};
use crate::geometry::ExfatLayout;
use crate::image::{
    directory_of, dirs_painted, files_painted, head_pieces, image_of, lemma_clusters_lie_inside,
    lemma_directory_fits, lemma_file_fits, painted, residents_lead, Piece,
};
use crate::label::VolumeLabel;
use crate::materialize::{lemma_head_in_order, used_by};
use crate::model::{Node, TreeView};
use crate::options::FormatOptions;

verus! {

/// Bytes, and zeros up to `len` of them.
pub open spec fn padded(bytes: Seq<u8>, len: int) -> Seq<u8> {
    bytes + zeros((len - bytes.len()) as nat)
}

/// Whether `count` clusters from `first` on hold `bytes`, and zeros behind them.
pub open spec fn clusters_hold(
    image: Seq<u8>,
    layout: ExfatLayout,
    first: int,
    count: int,
    bytes: Seq<u8>,
) -> bool {
    let at = layout.byte_of(first);
    let len = count * layout.bytes_per_cluster;
    image.subrange(at, at + len) == padded(bytes, len)
}

/// Whether the entries of directory `d` are where the tree has it.
pub open spec fn directory_written(
    image: Seq<u8>,
    tree: TreeView,
    layout: ExfatLayout,
    label: VolumeLabel,
    d: int,
) -> bool {
    clusters_hold(
        image,
        layout,
        tree.dirs[d].run.first as int,
        tree.dirs[d].run.count as int,
        directory_of(tree, layout, label, d),
    )
}

/// Whether file `j` of directory `d` is where the tree has it.
pub open spec fn file_written(
    image: Seq<u8>,
    tree: TreeView,
    layout: ExfatLayout,
    d: int,
    j: int,
) -> bool {
    match tree.dirs[d].entries[j].node {
        Node::File { content, run, .. } => run.count != 0 ==> clusters_hold(
            image,
            layout,
            run.first as int,
            run.count as int,
            tree.contents[content as int],
        ),
        _ => true,
    }
}

/// Writing somewhere else leaves bytes as they were.
proof fn lemma_splice_apart(image: Seq<u8>, at: int, part: Seq<u8>, from: int, to: int)
    requires
        0 <= from <= to <= image.len(),
        to <= at || at + part.len() <= from,
    ensures
        splice(image, at, part).subrange(from, to) == image.subrange(from, to),
{
    assert(splice(image, at, part).subrange(from, to) =~= image.subrange(from, to));
}

/// What is written over zeros is there with zeros behind it.
proof fn lemma_splice_on_zeros(image: Seq<u8>, at: int, part: Seq<u8>, len: int)
    requires
        0 <= at,
        part.len() <= len,
        at + len <= image.len(),
        forall|i: int| at <= i < at + len ==> image[i] == 0,
    ensures
        splice(image, at, part).subrange(at, at + len) == padded(part, len),
{
    assert(splice(image, at, part).subrange(at, at + len) =~= padded(part, len));
}

/// The files of a directory are written behind it, one behind the other.
proof fn lemma_files_painted(
    image: Seq<u8>,
    tree: TreeView,
    layout: ExfatLayout,
    label: VolumeLabel,
    mapping: Seq<u16>,
    d: int,
    n: int,
)
    requires
        layout.sound(),
        tree.settled_on(layout, mapping),
        layout.volume_size() <= image.len(),
        0 <= d < tree.dirs.len(),
        0 <= n <= tree.dirs[d].entries.len(),
        forall|i: int|
            layout.byte_of(tree.dirs[d].run.first + tree.dirs[d].run.count) <= i < image.len()
                ==> image[i] == 0,
    ensures
        ({
            let per = layout.bytes_per_cluster as int;
            let first = layout.first_cluster_of_root as int;
            let after = files_painted(image, tree, layout, d, n);
            let begin = layout.byte_of(tree.dirs[d].run.first + tree.dirs[d].run.count);
            let end = layout.byte_of(entry_start(tree.dirs, d, n, per, first));
            &&& begin <= end <= layout.volume_size()
            &&& after.len() == image.len()
            &&& forall|i: int| 0 <= i < begin ==> after[i] == image[i]
            &&& forall|i: int| end <= i < image.len() ==> after[i] == 0
            &&& forall|j: int| 0 <= j < n ==> #[trigger] file_written(after, tree, layout, d, j)
        }),
    decreases n,
{
    let per = layout.bytes_per_cluster as int;
    let first = layout.first_cluster_of_root as int;
    lemma_directory_fits(tree, layout, label, mapping, d);
    let dir = tree.dirs[d];
    let behind = dir.run.first + dir.run.count;
    let begin = layout.byte_of(behind);
    lemma_clusters_lie_inside(layout, behind, 0);
    if n > 0 {
        lemma_files_painted(image, tree, layout, label, mapping, d, n - 1);
        let before = files_painted(image, tree, layout, d, n - 1);
        let after = files_painted(image, tree, layout, d, n);
        let from = entry_start(tree.dirs, d, n - 1, per, first);
        let to = entry_start(tree.dirs, d, n, per, first);
        let entry = dir.entries[n - 1];
        assert(to == from + entry_clusters(entry, per));
        match entry.node {
            Node::File { content, size, run } => {
                lemma_file_fits(tree, layout, mapping, d, n - 1);
                lemma_clusters_lie_inside(layout, behind, from - behind);
                lemma_clusters_lie_inside(layout, from, run.count as int);
                assert(0 <= run.count * per) by (nonlinear_arith)
                    requires
                        per >= 0,
                        run.count >= 0,
                ;
                assert(0 <= (from - behind) * per) by (nonlinear_arith)
                    requires
                        per >= 0,
                        from - behind >= 0,
                ;
                if run.count != 0 {
                    let bytes = tree.contents[content as int];
                    let at = layout.byte_of(from);
                    lemma_splice_on_zeros(before, at, bytes, run.count * per);
                    assert forall|j: int| 0 <= j < n implies #[trigger] file_written(
                        after,
                        tree,
                        layout,
                        d,
                        j,
                    ) by {
                        if j < n - 1 {
                            assert(file_written(before, tree, layout, d, j));
                            match dir.entries[j].node {
                                Node::File { run: other, .. } => {
                                    lemma_file_fits(tree, layout, mapping, d, j);
                                    crate::allocate::lemma_clusters_before(
                                        dir.entries,
                                        j + 1,
                                        n - 1,
                                        per,
                                    );
                                    if other.count != 0 {
                                        let start = other.first as int;
                                        lemma_clusters_lie_inside(layout, start, other.count as int);
                                        lemma_clusters_lie_inside(
                                            layout,
                                            start + other.count,
                                            from - (start + other.count),
                                        );
                                        assert(0 <= other.count * per && 0 <= (from - (start
                                            + other.count)) * per) by (nonlinear_arith)
                                            requires
                                                per >= 0,
                                                other.count >= 0,
                                                from - (start + other.count) >= 0,
                                        ;
                                        lemma_splice_apart(
                                            before,
                                            at,
                                            bytes,
                                            layout.byte_of(start),
                                            layout.byte_of(start) + other.count * per,
                                        );
                                    }
                                },
                                _ => {},
                            }
                        }
                    }
                } else {
                    assert forall|j: int| 0 <= j < n implies #[trigger] file_written(
                        after,
                        tree,
                        layout,
                        d,
                        j,
                    ) by {
                        if j < n - 1 {
                            assert(file_written(before, tree, layout, d, j));
                        }
                    }
                }
            },
            Node::Dir(_) => {
                assert forall|j: int| 0 <= j < n implies #[trigger] file_written(
                    after,
                    tree,
                    layout,
                    d,
                    j,
                ) by {
                    if j < n - 1 {
                        assert(file_written(before, tree, layout, d, j));
                    }
                }
            },
        }
    } else {
        assert(entry_start(tree.dirs, d, 0, per, first) == behind);
    }
}

/// Clusters that lie where two images agree hold the same.
proof fn lemma_clusters_kept(
    a: Seq<u8>,
    b: Seq<u8>,
    layout: ExfatLayout,
    first: int,
    count: int,
    bytes: Seq<u8>,
    bound: int,
)
    requires
        a.len() == b.len(),
        bound <= a.len(),
        0 <= layout.byte_of(first),
        0 <= count * layout.bytes_per_cluster,
        layout.byte_of(first) + count * layout.bytes_per_cluster <= bound,
        forall|i: int| 0 <= i < bound ==> a[i] == b[i],
        clusters_hold(a, layout, first, count, bytes),
    ensures
        clusters_hold(b, layout, first, count, bytes),
{
    let at = layout.byte_of(first);
    let len = count * layout.bytes_per_cluster;
    assert(a.subrange(at, at + len) =~= b.subrange(at, at + len));
}

/// What directory `d` holds, and the files in it, lies where two images agree that agree up to
/// the directory behind it.
proof fn lemma_directory_kept(
    a: Seq<u8>,
    b: Seq<u8>,
    tree: TreeView,
    layout: ExfatLayout,
    label: VolumeLabel,
    mapping: Seq<u16>,
    d: int,
    bound: int,
)
    requires
        layout.sound(),
        tree.settled_on(layout, mapping),
        layout.volume_size() <= a.len(),
        a.len() == b.len(),
        0 <= d < tree.dirs.len(),
        layout.byte_of(
            dir_start(
                tree.dirs,
                d + 1,
                layout.bytes_per_cluster as int,
                layout.first_cluster_of_root as int,
            ),
        ) <= bound <= a.len(),
        forall|i: int| 0 <= i < bound ==> a[i] == b[i],
    ensures
        directory_written(a, tree, layout, label, d) ==> directory_written(
            b,
            tree,
            layout,
            label,
            d,
        ),
        forall|j: int|
            0 <= j < tree.dirs[d].entries.len() && file_written(a, tree, layout, d, j)
                ==> #[trigger] file_written(b, tree, layout, d, j),
{
    let per = layout.bytes_per_cluster as int;
    let first = layout.first_cluster_of_root as int;
    let dir = tree.dirs[d];
    let behind = dir_start(tree.dirs, d + 1, per, first);
    lemma_directory_fits(tree, layout, label, mapping, d);
    let start = dir.run.first as int;
    let own = dir.run.count as int;
    lemma_clusters_lie_inside(layout, start, own);
    lemma_clusters_lie_inside(layout, start + own, behind - (start + own));
    assert(0 <= own * per && 0 <= (behind - (start + own)) * per) by (nonlinear_arith)
        requires
            own >= 0,
            per >= 0,
            behind - (start + own) >= 0,
    ;
    if directory_written(a, tree, layout, label, d) {
        let bytes = directory_of(tree, layout, label, d);
        lemma_clusters_kept(a, b, layout, start, own, bytes, bound);
    }
    assert forall|j: int|
        0 <= j < tree.dirs[d].entries.len() && file_written(a, tree, layout, d, j) implies
        #[trigger] file_written(b, tree, layout, d, j) by {
        match dir.entries[j].node {
            Node::File { content, run, .. } => {
                lemma_file_fits(tree, layout, mapping, d, j);
                if run.count != 0 {
                    let at = run.first as int;
                    let count = run.count as int;
                    lemma_clusters_lie_inside(layout, at, count);
                    lemma_clusters_lie_inside(layout, at + count, behind - (at + count));
                    assert(0 <= count * per && 0 <= (behind - (at + count)) * per)
                        by (nonlinear_arith)
                        requires
                            count >= 0,
                            per >= 0,
                            behind - (at + count) >= 0,
                    ;
                    lemma_clusters_kept(
                        a,
                        b,
                        layout,
                        at,
                        count,
                        tree.contents[content as int],
                        bound,
                    );
                }
            },
            _ => {},
        }
    }
}

/// The directories are written one behind the other, each with its files.
proof fn lemma_dirs_painted(
    image: Seq<u8>,
    tree: TreeView,
    layout: ExfatLayout,
    label: VolumeLabel,
    mapping: Seq<u16>,
    n: int,
)
    requires
        layout.sound(),
        tree.settled_on(layout, mapping),
        layout.volume_size() <= image.len(),
        0 <= n <= tree.dirs.len(),
        forall|i: int|
            layout.byte_of(layout.first_cluster_of_root as int) <= i < image.len() ==> image[i]
                == 0,
    ensures
        ({
            let per = layout.bytes_per_cluster as int;
            let first = layout.first_cluster_of_root as int;
            let after = dirs_painted(image, tree, layout, label, n);
            let end = layout.byte_of(dir_start(tree.dirs, n, per, first));
            &&& layout.byte_of(first) <= end <= layout.volume_size()
            &&& after.len() == image.len()
            &&& forall|i: int| 0 <= i < layout.byte_of(first) ==> after[i] == image[i]
            &&& forall|i: int| end <= i < image.len() ==> after[i] == 0
            &&& forall|d: int|
                0 <= d < n ==> #[trigger] directory_written(after, tree, layout, label, d)
            &&& forall|d: int, j: int|
                0 <= d < n && 0 <= j < tree.dirs[d].entries.len() ==> #[trigger] file_written(
                    after,
                    tree,
                    layout,
                    d,
                    j,
                )
        }),
    decreases n,
{
    let per = layout.bytes_per_cluster as int;
    let first = layout.first_cluster_of_root as int;
    if n <= 0 {
        lemma_clusters_lie_inside(layout, first, 0);
        assert(0 * per == 0);
    } else {
        let d = n - 1;
        lemma_dirs_painted(image, tree, layout, label, mapping, d);
        lemma_directory_fits(tree, layout, label, mapping, d);
        let before = dirs_painted(image, tree, layout, label, d);
        let dir = tree.dirs[d];
        let start = dir.run.first as int;
        let own = dir.run.count as int;
        let bytes = directory_of(tree, layout, label, d);
        let at = layout.byte_of(start);
        let mid = splice(before, at, bytes);
        let count = dir.entries.len() as int;
        let after = files_painted(mid, tree, layout, d, count);
        lemma_clusters_lie_inside(layout, start, own);
        assert(0 <= own * per) by (nonlinear_arith)
            requires
                own >= 0,
                per >= 0,
        ;
        lemma_splice_on_zeros(before, at, bytes, own * per);
        assert forall|i: int| layout.byte_of(start + own) <= i < mid.len() implies mid[i] == 0 by {
            assert(before[i] == 0);
        }
        lemma_files_painted(mid, tree, layout, label, mapping, d, count);
        let behind = dir_start(tree.dirs, n, per, first);
        assert(behind == entry_start(tree.dirs, d, count, per, first));
        assert(directory_written(mid, tree, layout, label, d));
        lemma_clusters_kept(mid, after, layout, start, own, bytes, layout.byte_of(start + own));
        assert forall|k: int| 0 <= k < n implies #[trigger] directory_written(
            after,
            tree,
            layout,
            label,
            k,
        ) by {
            if k < d {
                assert(directory_written(before, tree, layout, label, k));
                lemma_dir_start(tree.dirs, k + 1, d, per, first);
                lemma_directory_fits(tree, layout, label, mapping, k);
                let next = dir_start(tree.dirs, k + 1, per, first);
                lemma_clusters_lie_inside(layout, next, start - next);
                assert(0 <= (start - next) * per) by (nonlinear_arith)
                    requires
                        start - next >= 0,
                        per >= 0,
                ;
                lemma_directory_kept(before, after, tree, layout, label, mapping, k, at);
            }
        }
        assert forall|k: int, j: int|
            0 <= k < n && 0 <= j < tree.dirs[k].entries.len() implies #[trigger] file_written(
            after,
            tree,
            layout,
            k,
            j,
        ) by {
            if k < d {
                assert(file_written(before, tree, layout, k, j));
                lemma_dir_start(tree.dirs, k + 1, d, per, first);
                lemma_directory_fits(tree, layout, label, mapping, k);
                let next = dir_start(tree.dirs, k + 1, per, first);
                lemma_clusters_lie_inside(layout, next, start - next);
                assert(0 <= (start - next) * per) by (nonlinear_arith)
                    requires
                        start - next >= 0,
                        per >= 0,
                ;
                lemma_directory_kept(before, after, tree, layout, label, mapping, k, at);
            }
        }
    }
}

/// Whether pieces follow one another, up to `end`.
pub open spec fn ascending(pieces: Seq<Piece>, end: int) -> bool {
    &&& forall|k: int| 0 <= k < pieces.len() ==> 0 <= (#[trigger] pieces[k]).at
    &&& forall|k: int|
        0 <= k < pieces.len() ==> (#[trigger] pieces[k]).at + pieces[k].bytes.len() <= end
    &&& forall|k: int, l: int|
        0 <= k < l < pieces.len() ==> (#[trigger] pieces[k]).at + pieces[k].bytes.len() <= (
        #[trigger] pieces[l]).at
}

/// Pieces that follow one another are all there once written.
proof fn lemma_painted(image: Seq<u8>, pieces: Seq<Piece>, n: int)
    requires
        0 <= n <= pieces.len(),
        ascending(pieces, image.len() as int),
    ensures
        painted(image, pieces, n).len() == image.len(),
        forall|k: int|
            0 <= k < n ==> painted(image, pieces, n).subrange(
                (#[trigger] pieces[k]).at,
                pieces[k].at + pieces[k].bytes.len(),
            ) == pieces[k].bytes,
        forall|i: int|
            0 <= i < image.len() && (forall|k: int|
                0 <= k < n ==> i < (#[trigger] pieces[k]).at || pieces[k].at
                    + pieces[k].bytes.len() <= i) ==> painted(image, pieces, n)[i] == image[i],
    decreases n,
{
    if n > 0 {
        lemma_painted(image, pieces, n - 1);
        let before = painted(image, pieces, n - 1);
        let after = painted(image, pieces, n);
        let last = pieces[n - 1];
        assert forall|k: int| 0 <= k < n implies after.subrange(
            (#[trigger] pieces[k]).at,
            pieces[k].at + pieces[k].bytes.len(),
        ) == pieces[k].bytes by {
            if k < n - 1 {
                lemma_splice_apart(
                    before,
                    last.at,
                    last.bytes,
                    pieces[k].at,
                    pieces[k].at + pieces[k].bytes.len(),
                );
            } else {
                assert(after.subrange(last.at, last.at + last.bytes.len()) =~= last.bytes);
            }
        }
    }
}

/// Whether a volume has everything a format writes, where it writes it, and zeros around it.
#[verifier::opaque]
pub open spec fn written(
    image: Seq<u8>,
    layout: ExfatLayout,
    options: FormatOptions,
    tree: TreeView,
) -> bool {
    let pieces = head_pieces(layout, options, tree, used_by(tree, layout));
    &&& layout.volume_size() <= image.len()
    &&& forall|k: int|
        0 <= k < 5 ==> image.subrange(
            (#[trigger] pieces[k]).at,
            pieces[k].at + pieces[k].bytes.len(),
        ) == pieces[k].bytes
    &&& forall|i: int|
        pieces[2].at + pieces[2].bytes.len() <= i < pieces[3].at ==> image[i] == 0
    &&& forall|i: int|
        pieces[3].at + pieces[3].bytes.len() <= i < pieces[4].at ==> image[i] == 0
    &&& forall|i: int|
        pieces[4].at + pieces[4].bytes.len() <= i < layout.byte_of(
            layout.first_cluster_of_root as int,
        ) ==> image[i] == 0
    &&& forall|d: int|
        0 <= d < tree.dirs.len() ==> #[trigger] directory_written(
            image,
            tree,
            layout,
            options.label,
            d,
        )
    &&& forall|d: int, j: int|
        0 <= d < tree.dirs.len() && 0 <= j < tree.dirs[d].entries.len()
            ==> #[trigger] file_written(image, tree, layout, d, j)
}

/// An image has everything a format writes, where it writes it, and zeros around it.
pub proof fn lemma_image_is_written(
    size: nat,
    layout: ExfatLayout,
    options: FormatOptions,
    tree: TreeView,
    mapping: Seq<u16>,
)
    requires
        layout.sound(),
        residents_lead(layout),
        tree.settled_on(layout, mapping),
        layout.volume_size() <= size,
    ensures
        image_of(size, layout, options, tree, used_by(tree, layout)).len() == size,
        written(
            image_of(size, layout, options, tree, used_by(tree, layout)),
            layout,
            options,
            tree,
        ),
{
    reveal(image_of);
    reveal(written);
    let pieces = head_pieces(layout, options, tree, used_by(tree, layout));
    let root = layout.byte_of(layout.first_cluster_of_root as int);
    let head = painted(zeros(size), pieces, 5);
    let image = image_of(size, layout, options, tree, used_by(tree, layout));
    let count = tree.dirs.len() as int;
    lemma_head_in_order(layout, options, tree, mapping);
    assert(ascending(pieces, root)) by {
        assert forall|k: int, l: int| 0 <= k < l < pieces.len() implies (#[trigger] pieces[k]).at
            + pieces[k].bytes.len() <= (#[trigger] pieces[l]).at by {
            assert(k == 0 || k == 1 || k == 2 || k == 3);
            assert(l == 1 || l == 2 || l == 3 || l == 4);
        }
        assert forall|k: int| 0 <= k < pieces.len() implies 0 <= (#[trigger] pieces[k]).at
            && pieces[k].at + pieces[k].bytes.len() <= root by {
            assert(k == 0 || k == 1 || k == 2 || k == 3 || k == 4);
        }
    }
    lemma_painted(zeros(size), pieces, 5);
    assert forall|i: int| root <= i < size implies head[i] == 0 by {
        assert forall|l: int| 0 <= l < 5 implies i < (#[trigger] pieces[l]).at || pieces[l].at
            + pieces[l].bytes.len() <= i by {}
        assert(head[i] == zeros(size)[i]);
    }
    lemma_dirs_painted(head, tree, layout, options.label, mapping, count);
    assert forall|k: int| 0 <= k < 5 implies image.subrange(
        (#[trigger] pieces[k]).at,
        pieces[k].at + pieces[k].bytes.len(),
    ) == pieces[k].bytes by {
        let from = pieces[k].at;
        let to = pieces[k].at + pieces[k].bytes.len();
        assert(image.subrange(from, to) =~= head.subrange(from, to));
    }
    assert forall|k: int, i: int|
        2 <= k < 5 && (#[trigger] pieces[k]).at + pieces[k].bytes.len() <= i < (if k < 4 {
            pieces[k + 1].at
        } else {
            root
        }) implies #[trigger] image[i] == 0 by {
        assert forall|l: int| 0 <= l < 5 implies i < (#[trigger] pieces[l]).at || pieces[l].at
            + pieces[l].bytes.len() <= i by {
            assert(k == 2 || k == 3 || k == 4);
            assert(l == 0 || l == 1 || l == 2 || l == 3 || l == 4);
        }
        assert(head[i] == zeros(size)[i]);
    }
    assert forall|i: int| pieces[2].at + pieces[2].bytes.len() <= i < pieces[3].at implies image[i]
        == 0 by {
        let k: int = 2;
        assert(pieces[k] == pieces[2]);
    }
    assert forall|i: int| pieces[3].at + pieces[3].bytes.len() <= i < pieces[4].at implies image[i]
        == 0 by {
        let k: int = 3;
        assert(pieces[k] == pieces[3]);
    }
    assert forall|i: int| pieces[4].at + pieces[4].bytes.len() <= i < root implies image[i] == 0 by {
        let k: int = 4;
        assert(pieces[k] == pieces[4]);
    }
}

} // verus!
