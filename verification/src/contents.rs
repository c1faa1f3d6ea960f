//! The contents of files.
use vstd::prelude::*;

use crate::bytes::{push_all, push_zeros, put_all, splice, zeros};
use crate::fresh::{lemma_stream_run, runs};
use crate::geometry::MAX_CLUSTER_COUNT;
use crate::image::lemma_ceil_div;
use crate::node::Node;
use crate::number::ceil_div;
use crate::read_error::ReadError;
use crate::reader::Reader;
use crate::volume::{lemma_stream_at, ChainCursor, Vol, Volume};

verus! {

impl Vol {
    /// Byte `at` of a file: zero past what was written of it.
    pub open spec fn file_byte(self, node: Node, at: int) -> u8 {
        if at >= node.valid_data_length {
            0
        } else {
            let cluster = self.stream_at(node.storage, at / self.per())->Ok_0->Some_0;
            self.cluster(cluster as int)[at % self.per()]
        }
    }

    /// Bytes `from` to `to` of a file.
    pub open spec fn file_span(self, node: Node, from: int, to: int) -> Seq<u8> {
        Seq::new((to - from) as nat, |i: int| self.file_byte(node, from + i))
    }

    /// Why a file cannot be read, where one of its clusters from `k` on and before `end` cannot
    /// be.
    pub open spec fn first_gap(self, node: Node, k: int, end: int) -> Option<ReadError>
        decreases end - k,
    {
        if k >= end {
            None
        } else {
            match self.stream_at(node.storage, k) {
                Err(e) => Some(e),
                Ok(None) => Some(self.too_short(node.storage, node.data_length, k)),
                Ok(Some(_)) => self.first_gap(node, k + 1, end),
            }
        }
    }

    /// The first cluster of a file from `k` on and before `end` that cannot be read, or `end`.
    pub open spec fn gap_at(self, node: Node, k: int, end: int) -> int
        decreases end - k,
    {
        if k >= end {
            end
        } else {
            match self.stream_at(node.storage, k) {
                Ok(Some(_)) => self.gap_at(node, k + 1, end),
                _ => k,
            }
        }
    }

    /// How far a read of bytes `from` to `to` of a file comes: to the first cluster it needs that
    /// cannot be read, or to the end.
    pub open spec fn file_reach(self, node: Node, from: int, to: int) -> int {
        let written = if to <= node.valid_data_length {
            to
        } else {
            node.valid_data_length as int
        };
        let end = ceil_div(written, self.per());
        let gap = self.gap_at(node, from / self.per(), end);
        if from >= written || gap >= end {
            to
        } else if gap * self.per() <= from {
            from
        } else {
            gap * self.per()
        }
    }

    /// Bytes `from` to `to` of a file, or why they cannot be read: those written of them need
    /// their clusters.
    pub open spec fn file_read(self, node: Node, from: int, to: int) -> Result<Seq<u8>, ReadError> {
        let written = if to <= node.valid_data_length {
            to
        } else {
            node.valid_data_length as int
        };
        let gap = if from < written {
            self.first_gap(node, from / self.per(), ceil_div(written, self.per()))
        } else {
            None
        };
        match gap {
            Some(e) => Err(e),
            None => Ok(self.file_span(node, from, to)),
        }
    }
}

/// What was not written of a file reads as zeros, whatever its clusters hold.
pub proof fn lemma_unwritten_reads_as_zeros(vol: Vol, node: Node, from: int, to: int)
    requires
        node.valid_data_length <= from <= to,
    ensures
        vol.file_read(node, from, to) == Ok::<Seq<u8>, ReadError>(zeros((to - from) as nat)),
{
    assert(vol.file_span(node, from, to) =~= zeros((to - from) as nat));
}

/// The first gap is the first before some cluster, or the first from there on.
proof fn lemma_gap_splits(vol: Vol, node: Node, k: int, mid: int, end: int)
    requires
        k <= mid <= end,
    ensures
        vol.first_gap(node, k, end) == (match vol.first_gap(node, k, mid) {
            Some(e) => Some(e),
            None => vol.first_gap(node, mid, end),
        }),
    decreases mid - k,
{
    if k < mid {
        lemma_gap_splits(vol, node, k + 1, mid, end);
    }
}

/// A file read in pieces that end where clusters do is the file read whole.
pub proof fn lemma_pieces_are_the_file(vol: Vol, node: Node, mid: int, to: int)
    requires
        vol.per() > 0,
        0 <= mid <= to,
        mid % vol.per() == 0,
    ensures
        vol.file_read(node, 0, to) == (match vol.file_read(node, 0, mid) {
            Err(e) => Err::<Seq<u8>, ReadError>(e),
            Ok(first) => match vol.file_read(node, mid, to) {
                Err(e) => Err(e),
                Ok(rest) => Ok(first + rest),
            },
        }),
{
    let per = vol.per();
    let valid = node.valid_data_length as int;
    let written = if to <= valid {
        to
    } else {
        valid
    };
    let end = ceil_div(written, per);
    lemma_ceil_div(written, per);
    assert(vol.file_span(node, 0, to) =~= vol.file_span(node, 0, mid) + vol.file_span(
        node,
        mid,
        to,
    ));
    assert(0int / per == 0) by {
        vstd::arithmetic::div_mod::lemma_div_basics(per);
    }
    if mid < written {
        let k = mid / per;
        vstd::arithmetic::div_mod::lemma_fundamental_div_mod(mid, per);
        vstd::arithmetic::div_mod::lemma_div_pos_is_pos(mid, per);
        lemma_ceil_div(mid, per);
        assert(ceil_div(mid, per) == k) by (nonlinear_arith)
            requires
                mid == per * k,
                mid <= ceil_div(mid, per) * per,
                ceil_div(mid, per) * per < mid + per,
                per > 0,
        ;
        assert(k <= end) by (nonlinear_arith)
            requires
                mid == per * k,
                mid < written,
                written <= end * per,
                per > 0,
        ;
        if mid > 0 {
            lemma_gap_splits(vol, node, 0, k, end);
        }
    }
}

/// A stream that has each of some clusters has no gap among them.
pub proof fn lemma_no_gap(vol: Vol, node: Node, k: int, end: int)
    requires
        0 <= k,
        forall|j: int|
            k <= j < end ==> #[trigger] vol.stream_at(node.storage, j) matches Ok(Some(_)),
    ensures
        vol.first_gap(node, k, end) is None,
    decreases end - k,
{
    if k < end {
        assert(vol.stream_at(node.storage, k) matches Ok(Some(_)));
        lemma_no_gap(vol, node, k + 1, end);
    }
}

/// A stream whose gaps are those of another has the same first gap.
proof fn lemma_same_gap(vol: Vol, a: Node, b: Node, k: int, end: int)
    requires
        0 <= k,
        forall|j: int|
            k <= j < end ==> vol.stream_at(a.storage, j) is Ok && #[trigger] vol.stream_at(
                a.storage,
                j,
            )->Ok_0 is Some && vol.stream_at(a.storage, j) == vol.stream_at(b.storage, j),
    ensures
        vol.first_gap(a, k, end) is None,
        vol.first_gap(b, k, end) is None,
    decreases end - k,
{
    if k < end {
        assert(vol.stream_at(a.storage, k)->Ok_0 is Some);
        lemma_same_gap(vol, a, b, k + 1, end);
    }
}

/// Which of the two run shapes a file has makes no difference to what it holds: consecutive
/// clusters read the same whether the stream says they are or the table chains them.
pub proof fn lemma_run_shapes_read_alike(
    vol: Vol,
    a: Node,
    b: Node,
    first: int,
    count: int,
    from: int,
    to: int,
)
    requires
        runs(vol, a.storage, first, count),
        runs(vol, b.storage, first, count),
        a.valid_data_length == b.valid_data_length,
        ceil_div(a.valid_data_length as int, vol.per()) <= count,
        vol.layout.cluster_count <= MAX_CLUSTER_COUNT,
        vol.per() > 0,
        0 <= from <= to,
    ensures
        vol.file_read(a, from, to) == vol.file_read(b, from, to),
{
    let per = vol.per();
    let valid = a.valid_data_length as int;
    let written = if to <= valid {
        to
    } else {
        valid
    };
    assert forall|k: int| 0 <= k < count implies {
        &&& #[trigger] vol.stream_at(a.storage, k) is Ok
        &&& vol.stream_at(a.storage, k)->Ok_0 is Some
        &&& vol.stream_at(a.storage, k) == vol.stream_at(b.storage, k)
    } by {
        lemma_stream_run(vol, a.storage, first, count, k);
        lemma_stream_run(vol, b.storage, first, count, k);
    }
    lemma_ceil_div(valid, per);
    lemma_ceil_div(written, per);
    if from < written {
        let end = ceil_div(written, per);
        vstd::arithmetic::div_mod::lemma_div_pos_is_pos(from, per);
        assert(end <= count) by (nonlinear_arith)
            requires
                end * per < written + per,
                written <= valid,
                valid <= ceil_div(valid, per) * per,
                ceil_div(valid, per) <= count,
                per > 0,
        ;
        lemma_same_gap(vol, a, b, from / per, end);
    }
    assert forall|i: int| from <= i < to implies vol.file_byte(a, i) == vol.file_byte(b, i) by {
        if i < valid {
            let k = i / per;
            vstd::arithmetic::div_mod::lemma_fundamental_div_mod(i, per);
            vstd::arithmetic::div_mod::lemma_mod_bound(i, per);
            vstd::arithmetic::div_mod::lemma_div_pos_is_pos(i, per);
            assert(k < count) by (nonlinear_arith)
                requires
                    i == per * k + i % per,
                    0 <= i % per,
                    i < valid,
                    valid <= ceil_div(valid, per) * per,
                    ceil_div(valid, per) <= count,
                    per > 0,
            ;
            assert(vol.stream_at(a.storage, k) is Ok);
        }
    }
    assert(vol.file_span(a, from, to) =~= vol.file_span(b, from, to));
}

/// Add bytes `from` to `to` of a file to `out`, from the place of `cursor` on: all of them, or
/// those before the first cluster that cannot be read.
fn read_onto(
    volume: &Volume<'_>,
    cursor: &mut ChainCursor,
    node: &Node,
    from: u64,
    to: u64,
    out: &mut Vec<u8>,
) -> (r: Result<(), ReadError>)
    requires
        volume.wf(),
        old(cursor).on(volume@),
        from <= to <= node.data_length,
        to - from <= usize::MAX,
        old(out)@.len() == 0,
    ensures
        final(cursor).on(volume@),
        final(out)@ == volume@.file_span(
            *node,
            from as int,
            volume@.file_reach(*node, from as int, to as int),
        ),
        match volume@.file_read(*node, from as int, to as int) {
            Ok(bytes) => r is Ok && final(out)@ == bytes,
            Err(e) => r == Err::<(), ReadError>(e),
        },
{
    let ghost vol = volume@;
    let per: u64 = volume.layout.bytes_per_cluster as u64;
    let written: u64 = if to <= node.valid_data_length {
        to
    } else {
        node.valid_data_length
    };
    let ghost end = ceil_div(written as int, per as int);
    proof {
        lemma_ceil_div(written as int, per as int);
    }
    let mut at: u64 = from;
    let ghost mut known: int = from as int / per as int;
    assert(out@ =~= vol.file_span(*node, from as int, from as int));
    while at < written
        invariant
            volume.wf(),
            vol == volume@,
            cursor.on(vol),
            per == vol.per(),
            from <= at,
            at <= to,
            to <= node.data_length,
            to - from <= usize::MAX,
            written == (if to <= node.valid_data_length {
                to as int
            } else {
                node.valid_data_length as int
            }),
            end == ceil_div(written as int, per as int),
            written <= end * per,
            end * per < written + per,
            out@ == vol.file_span(*node, from as int, at as int),
            out@.len() == at - from,
            from < written ==> {
                &&& at < written ==> known == at as int / per as int
                &&& at >= written ==> known == end
                &&& vol.first_gap(*node, from as int / per as int, end) == vol.first_gap(
                    *node,
                    known,
                    end,
                )
                &&& vol.gap_at(*node, from as int / per as int, end) == vol.gap_at(
                    *node,
                    known,
                    end,
                )
                &&& at < written ==> at == from || at == known * per
            },
        decreases written - at,
    {
        let index: u64 = at / per;
        let within: u64 = at % per;
        proof {
            vstd::arithmetic::div_mod::lemma_fundamental_div_mod(at as int, per as int);
            vstd::arithmetic::div_mod::lemma_mod_bound(at as int, per as int);
            assert(per * index == index * per) by (nonlinear_arith);
            assert(index < end) by (nonlinear_arith)
                requires
                    index * per <= at,
                    at < written,
                    written <= end * per,
                    per > 0,
            ;
            assert(index * 512 <= at) by (nonlinear_arith)
                requires
                    index * per <= at,
                    per >= 512,
            ;
            lemma_stream_at(vol, node.storage, index as int);
        }
        let found: Option<u32> = volume.stream_cluster(cursor, node.storage, index)?;
        match found {
            None => {
                return Err(
                    ReadError::StreamTooShort {
                        start: match node.storage.first_cluster() {
                            Some(first) => first,
                            None => 0,
                        },
                        declared: node.data_length,
                        held: index * per,
                    },
                );
            },
            Some(cluster) => {
                let bytes = volume.read_cluster(cluster);
                let rest: u64 = per - within;
                let left: u64 = written - at;
                let take: u64 = if rest <= left {
                    rest
                } else {
                    left
                };
                let ghost before = out@;
                let ghost was = at;
                push_all(
                    out,
                    vstd::slice::slice_subrange(bytes, within as usize, (within + take) as usize),
                );
                at = at + take;
                proof {
                    assert forall|i: int| was - from <= i < at - from implies out@[i]
                        == vol.file_byte(*node, from + i) by {
                        let p = from + i;
                        assert(p / per as int == index && p % per as int == within + (p - was))
                            by (nonlinear_arith)
                            requires
                                p == index * per + within + (p - was),
                                0 <= within + (p - was) < per,
                                per > 0,
                        ;
                    }
                    assert forall|i: int| 0 <= i < was - from implies out@[i] == vol.file_byte(
                        *node,
                        from + i,
                    ) by {
                        assert(out@[i] == before[i]);
                    }
                    assert(out@ =~= vol.file_span(*node, from as int, at as int));
                    known = index + 1;
                    if at < written {
                        assert(at == (index + 1) * per) by (nonlinear_arith)
                            requires
                                at == was + rest,
                                was == index * per + within,
                                rest == per - within,
                        ;
                        assert(at as int / per as int == index + 1) by (nonlinear_arith)
                            requires
                                at == (index + 1) * per,
                                per > 0,
                        ;
                    } else {
                        assert(end == index + 1) by (nonlinear_arith)
                            requires
                                written <= index * per + per,
                                end * per < written + per,
                                index < end,
                                per > 0,
                        ;
                    }
                }
            },
        }
    }
    let tail: u64 = to - at;
    push_zeros(out, tail as usize);
    assert(out@ =~= vol.file_span(*node, from as int, to as int));
    Ok(())
}

/// Bytes `from` to `to` of a file, from the place of `cursor` on.
pub(crate) fn read_span(
    volume: &Volume<'_>,
    cursor: &mut ChainCursor,
    node: &Node,
    from: u64,
    to: u64,
) -> (r: Result<Vec<u8>, ReadError>)
    requires
        volume.wf(),
        old(cursor).on(volume@),
        from <= to <= node.data_length,
        to - from <= usize::MAX,
    ensures
        final(cursor).on(volume@),
        match volume@.file_read(*node, from as int, to as int) {
            Ok(bytes) => r is Ok && r->Ok_0@ == bytes,
            Err(e) => r == Err::<Vec<u8>, ReadError>(e),
        },
{
    let mut out: Vec<u8> = Vec::new();
    read_onto(volume, cursor, node, from, to, &mut out)?;
    Ok(out)
}

impl<'a> Reader<'a> {
    /// Bytes a read from `offset` into room for `room` gives.
    pub open spec fn read_len(&self, node: Node, offset: u64, room: int) -> int {
        if node.directory() || offset >= node.data_length {
            0
        } else if room <= node.data_length - offset {
            room
        } else {
            node.data_length - offset
        }
    }

    /// Fill `buf` with the bytes of a file from `offset` on. Returns how many there were: fewer
    /// than there was room for where the file ends, and none of a directory. Where the read fails,
    /// `buf` has the bytes before the cluster it failed on.
    pub fn read_into(&self, node: &Node, offset: u64, buf: &mut [u8]) -> (r: Result<
        usize,
        ReadError,
    >)
        requires
            self.wf(),
        ensures
            final(buf)@.len() == old(buf)@.len(),
            ({
                let len = self.read_len(*node, offset, old(buf)@.len() as int);
                match self.vol().file_read(*node, offset as int, offset + len) {
                    Ok(bytes) => {
                        &&& r == Ok::<usize, ReadError>(len as usize)
                        &&& final(buf)@ == splice(old(buf)@, 0, bytes)
                    },
                    Err(e) => {
                        &&& r == Err::<usize, ReadError>(e)
                        &&& final(buf)@ == splice(
                            old(buf)@,
                            0,
                            self.vol().file_span(
                                *node,
                                offset as int,
                                self.vol().file_reach(*node, offset as int, offset + len),
                            ),
                        )
                    },
                }
            }),
    {
        let room: usize = buf.len();
        if node.is_dir() || offset >= node.data_length || room == 0 {
            proof {
                let none = self.vol().file_span(*node, offset as int, offset as int);
                assert(splice(buf@, 0, none) =~= buf@);
                if offset < node.valid_data_length {
                    lemma_empty_read(self.vol(), *node, offset as int);
                }
            }
            return Ok(0);
        }
        let left: u64 = node.data_length - offset;
        let len: u64 = if room as u64 <= left {
            room as u64
        } else {
            left
        };
        let mut cursor = ChainCursor::new();
        let mut bytes: Vec<u8> = Vec::new();
        let read = read_onto(self.volume(), &mut cursor, node, offset, offset + len, &mut bytes);
        proof {
            lemma_file_reach(self.vol(), *node, offset as int, offset + len);
        }
        put_all(buf, 0, &bytes);
        match read {
            Ok(_) => Ok(len as usize),
            Err(e) => Err(e),
        }
    }

    /// Bytes of a whole file, where that many are taken on.
    pub fn whole_file_len(&self, node: &Node) -> (r: Result<u64, ReadError>)
        requires
            self.wf(),
        ensures
            if node.data_length > self.taken_on().max_file_bytes {
                r == Err::<u64, ReadError>(
                    ReadError::FileTooLarge {
                        size: node.data_length,
                        limit: self.taken_on().max_file_bytes,
                    },
                )
            } else {
                r == Ok::<u64, ReadError>(node.data_length)
            },
    {
        let limit: u64 = self.limits().max_file_bytes;
        if node.data_length > limit {
            return Err(ReadError::FileTooLarge { size: node.data_length, limit });
        }
        Ok(node.data_length)
    }

    /// Where the piece of a file that begins at `done` ends.
    pub open spec fn piece_end(&self, node: Node, done: u64) -> int {
        if done + self.vol().per() <= node.data_length {
            done + self.vol().per()
        } else {
            node.data_length as int
        }
    }

    /// The next bytes of a file of which `done` have been read, as many as a cluster holds where
    /// there are as many; none behind the last of them, and none of a directory.
    pub fn read_next(&self, node: &Node, done: u64) -> (r: Result<Vec<u8>, ReadError>)
        requires
            self.wf(),
        ensures
            if node.directory() {
                r is Ok && r->Ok_0@ == Seq::<u8>::empty()
            } else if node.data_length > self.taken_on().max_file_bytes {
                r == Err::<Vec<u8>, ReadError>(
                    ReadError::FileTooLarge {
                        size: node.data_length,
                        limit: self.taken_on().max_file_bytes,
                    },
                )
            } else if done >= node.data_length {
                r is Ok && r->Ok_0@ == Seq::<u8>::empty()
            } else {
                match self.vol().file_read(*node, done as int, self.piece_end(*node, done)) {
                    Ok(bytes) => r is Ok && r->Ok_0@ == bytes && bytes.len() > 0,
                    Err(e) => r == Err::<Vec<u8>, ReadError>(e),
                }
            },
    {
        if node.is_dir() {
            return Ok(Vec::new());
        }
        let size: u64 = self.whole_file_len(node)?;
        if done >= size {
            return Ok(Vec::new());
        }
        let per: u64 = self.volume().layout.bytes_per_cluster as u64;
        let left: u64 = size - done;
        let end: u64 = if per <= left {
            done + per
        } else {
            size
        };
        let mut cursor = ChainCursor::new();
        read_span(self.volume(), &mut cursor, node, done, end)
    }

    /// The bytes of a file, or none of a directory.
    pub fn read_data(&self, node: &Node) -> (r: Result<Vec<u8>, ReadError>)
        requires
            self.wf(),
            node.data_length <= usize::MAX || node.data_length > self.taken_on().max_file_bytes,
        ensures
            if node.directory() {
                r is Ok && r->Ok_0@ == Seq::<u8>::empty()
            } else if node.data_length > self.taken_on().max_file_bytes {
                r == Err::<Vec<u8>, ReadError>(
                    ReadError::FileTooLarge {
                        size: node.data_length,
                        limit: self.taken_on().max_file_bytes,
                    },
                )
            } else {
                match self.vol().file_read(*node, 0, node.data_length as int) {
                    Ok(bytes) => r is Ok && r->Ok_0@ == bytes,
                    Err(e) => r == Err::<Vec<u8>, ReadError>(e),
                }
            },
    {
        if node.is_dir() {
            return Ok(Vec::new());
        }
        let size: u64 = self.whole_file_len(node)?;
        let mut cursor = ChainCursor::new();
        read_span(self.volume(), &mut cursor, node, 0, size)
    }
}

impl<'a> Reader<'a> {
    /// A read of a file fills the room there is, or comes to the end of the file; one that begins
    /// behind the end, or one of a directory, gives nothing.
    pub proof fn lemma_a_read_fills_the_room_or_ends_the_file(
        &self,
        node: Node,
        offset: u64,
        room: int,
    )
        requires
            0 <= room,
        ensures
            0 <= self.read_len(node, offset, room) <= room,
            node.directory() || offset >= node.data_length ==> self.read_len(node, offset, room)
                == 0,
            !node.directory() && offset < node.data_length ==> {
                let len = self.read_len(node, offset, room);
                &&& offset + len <= node.data_length
                &&& len == room || offset + len == node.data_length
            },
    {
    }

    /// The pieces of a file are clusters, but for the last, which ends the file.
    pub proof fn lemma_a_piece_is_a_cluster_or_ends_the_file(&self, node: Node, done: u64)
        requires
            done < node.data_length,
            self.vol().wf(),
        ensures
            done < self.piece_end(node, done) <= node.data_length,
            self.piece_end(node, done) - done <= self.vol().layout.bytes_per_cluster,
            self.piece_end(node, done) - done == self.vol().layout.bytes_per_cluster
                || self.piece_end(node, done) == node.data_length,
    {
    }
}

/// A gap is where there is one, and no further than the clusters looked at.
proof fn lemma_gap_at(vol: Vol, node: Node, k: int, end: int)
    requires
        k <= end,
    ensures
        k <= vol.gap_at(node, k, end) <= end,
    decreases end - k,
{
    if k < end {
        lemma_gap_at(vol, node, k + 1, end);
    }
}

/// A read comes no further than what is asked for.
proof fn lemma_file_reach(vol: Vol, node: Node, from: int, to: int)
    requires
        vol.per() > 0,
        0 <= from <= to,
    ensures
        from <= vol.file_reach(node, from, to) <= to,
{
    let per = vol.per();
    let written = if to <= node.valid_data_length {
        to
    } else {
        node.valid_data_length as int
    };
    let end = ceil_div(written, per);
    if from < written {
        let k = from / per;
        let gap = vol.gap_at(node, k, end);
        lemma_ceil_div(written, per);
        vstd::arithmetic::div_mod::lemma_fundamental_div_mod(from, per);
        vstd::arithmetic::div_mod::lemma_mod_bound(from, per);
        assert(k <= end) by (nonlinear_arith)
            requires
                from == per * k + from % per,
                0 <= from % per,
                from < written,
                written <= end * per,
                per > 0,
        ;
        lemma_gap_at(vol, node, k, end);
        if gap < end {
            assert(gap * per <= written) by (nonlinear_arith)
                requires
                    gap + 1 <= end,
                    end * per < written + per,
                    per > 0,
            ;
        }
    }
}

/// Reading no bytes needs no cluster.
proof fn lemma_empty_read(vol: Vol, node: Node, at: int)
    ensures
        vol.file_read(node, at, at) == Ok::<Seq<u8>, ReadError>(vol.file_span(node, at, at)),
{
}

} // verus!
