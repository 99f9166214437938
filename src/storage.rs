//! The piece storage engine: maps pieces onto byte ranges of the files,
//! decides piece writes and reads, and tracks the state of every piece.
//!
//! The engine does no input or output itself. A write is checked here and
//! returns the file ranges to write with their bytes; a read returns the
//! ranges to read and assembles the bytes read back. The caller performs
//! those transfers and reports back.

use vstd::prelude::*;
use std::collections::HashMap;
use crate::be_bytes::copy_range;
use crate::crypto::{digest_hex, sha256_hex, verify_piece_hash};
use crate::error::{BitSwapError, BitSwapResult, message};
use crate::metadata::{
    BitSwapMetadata, FileEntry, file_start, total_of, piece_size_of, lemma_file_start_monotonic,
};

verus! {

broadcast use vstd::std_specs::hash::group_hash_axioms;

/// State of a piece.
#[derive(Debug, Clone, Copy, PartialEq, Eq, Structural)]
pub enum PieceState {
    /// Not present.
    Missing,
    /// Being downloaded.
    Downloading,
    /// Downloaded, not yet verified.
    Downloaded,
    /// Verified and available.
    Verified,
    /// Its digest did not match.
    Corrupted,
}

/// A byte range of one file that belongs to a piece.
#[derive(Debug, Clone, Copy, PartialEq, Eq, Structural)]
pub struct FileRange {
    /// Index of the file in the metadata's file list.
    pub file_index: usize,
    /// Offset of the range within the file.
    pub file_offset: u64,
    /// Number of bytes.
    pub length: u32,
}

/// Where a piece lives.
#[derive(Debug, Clone)]
pub struct PieceInfo {
    /// Piece index.
    pub index: u32,
    /// Expected digest, lowercase hexadecimal.
    pub hash: String,
    /// Size in bytes.
    pub size: u32,
    /// File ranges, in the order the piece's bytes run through them.
    pub file_ranges: Vec<FileRange>,
}

/// Bytes to write to one file range.
#[derive(Debug, Clone)]
pub struct PieceWrite {
    /// Where to write.
    pub range: FileRange,
    /// What to write; exactly `range.length` bytes.
    pub data: Vec<u8>,
}

/// Persisted state of a torrent, so that a restart need not rescan every byte.
#[derive(Debug, Clone)]
pub struct ResumeData {
    /// Info-hash of the torrent.
    pub info_hash: String,
    /// State of each piece.
    pub piece_states: HashMap<u32, PieceState>,
    /// Time of the last update, seconds since the Unix epoch.
    pub last_updated: u64,
    /// Bytes of verified pieces.
    pub downloaded_bytes: u64,
    /// Bytes uploaded.
    pub uploaded_bytes: u64,
}

/// The larger of two integers.
pub open spec fn max_int(a: int, b: int) -> int {
    if a > b {
        a
    } else {
        b
    }
}

/// The smaller of two integers.
pub open spec fn min_int(a: int, b: int) -> int {
    if a < b {
        a
    } else {
        b
    }
}

/// Non-empty intersections of the logical span `[ps, pe)` with each of the
/// first `k` files, in file order.
pub open spec fn ranges_upto(files: Seq<FileEntry>, ps: int, pe: int, k: int) -> Seq<FileRange>
    decreases k,
{
    if k <= 0 {
        Seq::empty()
    } else {
        let prev = ranges_upto(files, ps, pe, k - 1);
        let fs = file_start(files, k - 1);
        let fe = fs + files[k - 1].length;
        let lo = max_int(ps, fs);
        let hi = min_int(pe, fe);
        if lo < hi {
            prev.push(
                FileRange {
                    file_index: (k - 1) as usize,
                    file_offset: (lo - fs) as u64,
                    length: (hi - lo) as u32,
                },
            )
        } else {
            prev
        }
    }
}

/// Offset of piece `p` in the logical concatenation of the files.
pub open spec fn piece_start(m: BitSwapMetadata, p: int) -> int {
    p * m.piece_length
}

/// The file ranges of piece `p`.
pub open spec fn piece_ranges(m: BitSwapMetadata, p: int) -> Seq<FileRange> {
    ranges_upto(
        m.files@,
        piece_start(m, p),
        piece_start(m, p) + m.piece_size(p),
        m.files@.len() as int,
    )
}

/// Sum of the lengths of file ranges.
pub open spec fn range_total(rs: Seq<FileRange>) -> int
    decreases rs.len(),
{
    if rs.len() == 0 {
        0
    } else {
        range_total(rs.drop_last()) + rs.last().length
    }
}

/// `d` cut into consecutive parts of the lengths of the ranges.
pub open spec fn split_by(d: Seq<u8>, rs: Seq<FileRange>) -> Seq<Seq<u8>> {
    Seq::new(
        rs.len(),
        |k: int| d.subrange(range_total(rs.take(k)), range_total(rs.take(k)) + rs[k].length),
    )
}

/// Concatenation of byte sequences.
pub open spec fn concat(parts: Seq<Seq<u8>>) -> Seq<u8>
    decreases parts.len(),
{
    if parts.len() == 0 {
        Seq::empty()
    } else {
        concat(parts.drop_last()) + parts.last()
    }
}

/// What a storage engine holds.
pub struct StorageView {
    pub metadata: BitSwapMetadata,
    pub storage_dir: Seq<char>,
    pub states: Seq<PieceState>,
}

impl StorageView {
    /// A well-formed engine: valid metadata and one state per piece.
    pub open spec fn wf(self) -> bool {
        self.metadata.wf() && self.states.len() == self.metadata.pieces@.len()
    }

    /// Number of pieces.
    pub open spec fn count(self) -> int {
        self.metadata.pieces@.len() as int
    }

    /// State of piece `i`; pieces outside the torrent are missing.
    pub open spec fn state(self, i: int) -> PieceState {
        if 0 <= i < self.states.len() {
            self.states[i]
        } else {
            PieceState::Missing
        }
    }

    /// Number of verified pieces among the first `n`.
    pub open spec fn verified_upto(self, n: int) -> nat
        decreases n,
    {
        if n <= 0 {
            0
        } else {
            self.verified_upto(n - 1) + if self.state(n - 1) == PieceState::Verified {
                1nat
            } else {
                0nat
            }
        }
    }

    /// Bytes of the verified pieces among the first `n`.
    pub open spec fn verified_bytes_upto(self, n: int) -> int
        decreases n,
    {
        if n <= 0 {
            0
        } else {
            self.verified_bytes_upto(n - 1) + if self.state(n - 1) == PieceState::Verified {
                self.metadata.piece_size(n - 1)
            } else {
                0
            }
        }
    }
}

/// The storage engine of one torrent.
#[derive(Debug)]
pub struct StorageManager {
    metadata: BitSwapMetadata,
    storage_dir: String,
    piece_states: Vec<PieceState>,
}

impl View for StorageManager {
    type V = StorageView;

    closed spec fn view(&self) -> StorageView {
        StorageView {
            metadata: self.metadata,
            storage_dir: self.storage_dir@,
            states: self.piece_states@,
        }
    }
}

proof fn lemma_range_total_upto(files: Seq<FileEntry>, ps: int, pe: int, k: int)
    requires
        0 <= ps <= pe,
        pe - ps <= u32::MAX,
        0 <= k <= files.len(),
    ensures
        range_total(ranges_upto(files, ps, pe, k)) == max_int(0, min_int(pe, file_start(files, k)) - ps),
        forall|j: int|
            0 <= j < ranges_upto(files, ps, pe, k).len() ==> (#[trigger] ranges_upto(files, ps, pe, k)[j]).file_index < k,
    decreases k,
{
    if k > 0 {
        lemma_range_total_upto(files, ps, pe, k - 1);
        lemma_file_start_monotonic(files, 0, k - 1);
        let rs = ranges_upto(files, ps, pe, k);
        let prev = ranges_upto(files, ps, pe, k - 1);
        if rs.len() != prev.len() {
            assert(rs.drop_last() =~= prev);
        }
    }
}

/// The ranges of a piece add up to its size.
pub proof fn lemma_piece_ranges_total(m: BitSwapMetadata, p: int)
    requires
        m.piece_length > 0,
        0 <= p,
    ensures
        range_total(piece_ranges(m, p)) == m.piece_size(p),
        forall|j: int|
            0 <= j < piece_ranges(m, p).len() ==> (#[trigger] piece_ranges(m, p)[j]).file_index
                < m.files@.len(),
{
    let ps = piece_start(m, p);
    assert(ps >= 0) by (nonlinear_arith)
        requires
            ps == p * m.piece_length,
            p >= 0,
    ;
    assert(m.piece_size(p) <= m.piece_length);
    lemma_file_start_monotonic(m.files@, 0, m.files@.len() as int);
    lemma_range_total_upto(m.files@, ps, ps + m.piece_size(p), m.files@.len() as int);
}

proof fn lemma_range_total_nonneg(rs: Seq<FileRange>)
    ensures
        range_total(rs) >= 0,
    decreases rs.len(),
{
    if rs.len() > 0 {
        lemma_range_total_nonneg(rs.drop_last());
    }
}

proof fn lemma_range_total_step(rs: Seq<FileRange>, k: int)
    requires
        0 <= k < rs.len(),
    ensures
        range_total(rs.take(k + 1)) == range_total(rs.take(k)) + rs[k].length,
{
    assert(rs.take(k + 1).drop_last() =~= rs.take(k));
}

proof fn lemma_range_total_take(rs: Seq<FileRange>, k: int)
    requires
        0 <= k <= rs.len(),
    ensures
        0 <= range_total(rs.take(k)) <= range_total(rs),
    decreases rs.len() - k,
{
    lemma_range_total_nonneg(rs.take(k));
    if k == rs.len() {
        assert(rs.take(k) =~= rs);
    } else {
        lemma_range_total_take(rs, k + 1);
        lemma_range_total_step(rs, k);
    }
}

/// Bytes written through a piece's ranges, read back through the same ranges
/// and put together in order, are the bytes of the piece: cutting a piece
/// along its ranges and joining the parts gives it back, and each part has
/// the length of its range.
pub proof fn lemma_written_piece_reads_back(d: Seq<u8>, rs: Seq<FileRange>)
    requires
        d.len() == range_total(rs),
    ensures
        concat(split_by(d, rs)) == d,
        forall|k: int| 0 <= k < rs.len() ==> (#[trigger] split_by(d, rs)[k]).len() == rs[k].length,
    decreases rs.len(),
{
    assert forall|k: int| 0 <= k < rs.len() implies (#[trigger] split_by(d, rs)[k]).len()
        == rs[k].length by {
        lemma_range_total_take(rs, k + 1);
        lemma_range_total_step(rs, k);
        lemma_range_total_nonneg(rs.take(k));
    }
    if rs.len() == 0 {
        assert(concat(split_by(d, rs)) =~= d);
    } else {
        let n = rs.len() - 1;
        let rs0 = rs.drop_last();
        lemma_range_total_take(rs, n);
        assert(rs.take(n) =~= rs0);
        let d0 = d.subrange(0, range_total(rs0));
        lemma_written_piece_reads_back(d0, rs0);
        assert(split_by(d, rs).drop_last() =~= split_by(d0, rs0)) by {
            assert forall|k: int| 0 <= k < n implies split_by(d, rs)[k] =~= split_by(d0, rs0)[k] by {
                assert(rs.take(k) =~= rs0.take(k));
                lemma_range_total_take(rs0, k + 1);
                lemma_range_total_step(rs0, k);
                lemma_range_total_nonneg(rs0.take(k));
            }
        }
        assert(rs.take(n + 1) =~= rs);
        assert(concat(split_by(d, rs)) =~= d);
    }
}

/// Every piece size of a torrent cut into exactly as many pieces as it needs
/// adds up to the total size.
pub proof fn lemma_piece_sizes_sum(m: BitSwapMetadata)
    requires
        m.wf(),
    ensures
        piece_sizes_upto(m, m.pieces@.len() as int) == m.total(),
{
    let l = m.piece_length as int;
    let t = m.total();
    let n = m.pieces@.len() as int;
    lemma_file_start_monotonic(m.files@, 0, m.files@.len() as int);
    lemma_piece_sizes_prefix(m, n);
    crate::metadata::lemma_pieces_needed(t, l);
    vstd::arithmetic::div_mod::lemma_fundamental_div_mod(t, l);
    assert(n * l >= t) by (nonlinear_arith)
        requires
            t == l * (t / l) + t % l,
            n == t / l + if t % l == 0 {
                0int
            } else {
                1int
            },
            0 <= t % l < l,
    ;
}

/// Sum of the sizes of the first `n` pieces.
pub open spec fn piece_sizes_upto(m: BitSwapMetadata, n: int) -> int
    decreases n,
{
    if n <= 0 {
        0
    } else {
        piece_sizes_upto(m, n - 1) + m.piece_size(n - 1)
    }
}

proof fn lemma_piece_sizes_prefix(m: BitSwapMetadata, n: int)
    requires
        m.piece_length > 0,
        m.total() >= 0,
        n >= 0,
    ensures
        piece_sizes_upto(m, n) == min_int(n * m.piece_length, m.total()),
    decreases n,
{
    let l = m.piece_length as int;
    if n > 0 {
        lemma_piece_sizes_prefix(m, n - 1);
        let a = (n - 1) * l;
        assert(a + l == n * l) by (nonlinear_arith)
            requires
                a == (n - 1) * l,
        ;
        assert(a >= 0) by (nonlinear_arith)
            requires
                a == (n - 1) * l,
                n >= 1,
                l > 0,
        ;
        assert(m.piece_size(n - 1) == piece_size_of(m.total(), l, n - 1));
        assert(piece_sizes_upto(m, n) == piece_sizes_upto(m, n - 1) + m.piece_size(n - 1));
        assert((n - 1) * m.piece_length == a);
        assert(n * m.piece_length == a + l);
        assert(piece_sizes_upto(m, n - 1) == min_int(a, m.total()));
        assert(piece_sizes_upto(m, n) == min_int(a + l, m.total()));
    } else {
        assert(n * m.piece_length == 0) by (nonlinear_arith)
            requires
                n == 0,
        ;
    }
}

/// Indices below `n` of the pieces whose state satisfies `f`, in increasing order.
pub open spec fn indices_where(v: StorageView, n: int, f: spec_fn(PieceState) -> bool) -> Seq<u32>
    decreases n,
{
    if n <= 0 {
        Seq::empty()
    } else if f(v.state(n - 1)) {
        indices_where(v, n - 1, f).push((n - 1) as u32)
    } else {
        indices_where(v, n - 1, f)
    }
}

/// Whether a piece still has to be fetched.
pub open spec fn is_wanted(s: PieceState) -> bool {
    s == PieceState::Missing || s == PieceState::Corrupted
}

/// Whether a piece is available.
pub open spec fn is_verified(s: PieceState) -> bool {
    s == PieceState::Verified
}

/// The byte contents of a list of buffers.
pub open spec fn contents(parts: Seq<Vec<u8>>) -> Seq<Seq<u8>> {
    parts.map_values(|v: Vec<u8>| v@)
}

proof fn lemma_verified_bytes_bound(v: StorageView, n: int)
    requires
        v.metadata.piece_length > 0,
        v.metadata.total() >= 0,
        n >= 0,
    ensures
        0 <= v.verified_bytes_upto(n) <= piece_sizes_upto(v.metadata, n),
    decreases n,
{
    if n > 0 {
        lemma_verified_bytes_bound(v, n - 1);
        let l = v.metadata.piece_length as int;
        let a = (n - 1) * l;
        assert(a >= 0) by (nonlinear_arith)
            requires
                a == (n - 1) * l,
                n >= 1,
                l > 0,
        ;
    }
}

proof fn lemma_verified_count_bound(v: StorageView, n: int)
    requires
        n >= 0,
    ensures
        v.verified_upto(n) <= n,
        v.verified_upto(n) == n <==> forall|i: int| 0 <= i < n ==> v.state(i) == PieceState::Verified,
    decreases n,
{
    if n > 0 {
        lemma_verified_count_bound(v, n - 1);
        if v.verified_upto(n) == n {
            assert forall|i: int| 0 <= i < n implies v.state(i) == PieceState::Verified by {
                if i < n - 1 {
                } else {
                }
            }
        }
    }
}

proof fn lemma_concat_step(parts: Seq<Seq<u8>>, k: int)
    requires
        0 <= k < parts.len(),
    ensures
        concat(parts.take(k + 1)) == concat(parts.take(k)) + parts[k],
{
    assert(parts.take(k + 1).drop_last() =~= parts.take(k));
}


/// Whether an error reports a digest mismatch of piece `i`.
pub open spec fn is_verification_failure(
    e: BitSwapError,
    i: u32,
    expected: Seq<char>,
    actual: Seq<char>,
) -> bool {
    match e {
        BitSwapError::PieceVerificationFailed { piece_index, expected: x, actual: y } => piece_index
            == i && x@ == expected && y@ == actual,
        _ => false,
    }
}

/// Whether `ws` writes the bytes `d` of a piece through its ranges `rs`:
/// one write per range, in order, each with its part of `d`.
pub open spec fn writes_match(ws: Seq<PieceWrite>, rs: Seq<FileRange>, d: Seq<u8>) -> bool {
    &&& ws.len() == rs.len()
    &&& forall|k: int|
        0 <= k < ws.len() ==> (#[trigger] ws[k]).range == rs[k] && ws[k].data@ == split_by(d, rs)[k]
}

/// Whether buffers have exactly the lengths of the ranges.
pub open spec fn parts_fit(parts: Seq<Seq<u8>>, rs: Seq<FileRange>) -> bool {
    &&& parts.len() == rs.len()
    &&& forall|k: int| 0 <= k < parts.len() ==> (#[trigger] parts[k]).len() == rs[k].length
}

/// A piece write that succeeds can be read back: the bytes of piece `i` that
/// pass the digest check are cut along the piece's ranges into parts that fit
/// them, and the parts put together again are the same bytes, whose digest is
/// the piece's hash.
pub proof fn lemma_read_after_write(m: BitSwapMetadata, i: int, d: Seq<u8>)
    requires
        m.wf(),
        0 <= i < m.pieces@.len(),
        d.len() == m.piece_size(i),
        digest_hex(d) == m.pieces@[i]@,
    ensures
        parts_fit(split_by(d, piece_ranges(m, i)), piece_ranges(m, i)),
        concat(split_by(d, piece_ranges(m, i))) == d,
        digest_hex(concat(split_by(d, piece_ranges(m, i)))) == m.pieces@[i]@,
{
    lemma_piece_ranges_total(m, i);
    lemma_written_piece_reads_back(d, piece_ranges(m, i));
}

/// When every piece is verified, as after opening a torrent whose files were
/// all written intact (each piece passes `verify_piece_on_disk`), the count of
/// verified pieces is the piece count: completion is one hundred percent.
pub proof fn lemma_all_verified_complete(v: StorageView)
    requires
        v.wf(),
        forall|i: int| 0 <= i < v.count() ==> #[trigger] v.states[i] == PieceState::Verified,
    ensures
        v.verified_upto(v.count()) == v.count(),
{
    assert forall|i: int| 0 <= i < v.count() implies v.state(i) == PieceState::Verified by {
        assert(v.states[i] == PieceState::Verified);
    }
    lemma_verified_count_bound(v, v.count());
}

/// The bytes that reading the ranges `rs` yields from files whose contents are `fc`.
pub open spec fn read_ranges(fc: Seq<Seq<u8>>, rs: Seq<FileRange>) -> Seq<Seq<u8>> {
    rs.map_values(
        |r: FileRange|
            fc[r.file_index as int].subrange(
                r.file_offset as int,
                r.file_offset as int + r.length as int,
            ),
    )
}

/// Whether file contents have the lengths the metadata lists.
pub open spec fn contents_fit(fc: Seq<Seq<u8>>, files: Seq<FileEntry>) -> bool {
    fc.len() == files.len() && forall|k: int| 0 <= k < fc.len() ==> (#[trigger] fc[k]).len()
        == files[k].length
}

proof fn lemma_file_start_drop_last(files: Seq<FileEntry>, k: int)
    requires
        0 <= k < files.len(),
    ensures
        file_start(files.drop_last(), k) == file_start(files, k),
    decreases k,
{
    if k > 0 {
        lemma_file_start_drop_last(files, k - 1);
    }
}

proof fn lemma_concat_layout(fc: Seq<Seq<u8>>, files: Seq<FileEntry>)
    requires
        contents_fit(fc, files),
    ensures
        concat(fc).len() == total_of(files),
        forall|k: int|
            0 <= k < fc.len() ==> concat(fc).subrange(
                file_start(files, k),
                file_start(files, k + 1),
            ) == #[trigger] fc[k],
    decreases fc.len(),
{
    if fc.len() > 0 {
        let n = fc.len() - 1;
        let f0 = files.drop_last();
        lemma_concat_layout(fc.drop_last(), f0);
        assert(concat(fc) == concat(fc.drop_last()) + fc.last());
        assert(total_of(f0) == file_start(files, n)) by {
            lemma_file_start_drop_last(files, n);
        }
        assert forall|k: int| 0 <= k < fc.len() implies concat(fc).subrange(
            file_start(files, k),
            file_start(files, k + 1),
        ) == #[trigger] fc[k] by {
            if k < n {
                lemma_file_start_drop_last(files, k);
                if k + 1 < n {
                    lemma_file_start_drop_last(files, k + 1);
                }
                lemma_file_start_monotonic(files, k + 1, n);
                lemma_file_start_monotonic(files, k, k + 1);
                lemma_file_start_monotonic(files, 0, k);
                assert(file_start(f0, k + 1) == file_start(files, k + 1));
                assert(fc.drop_last()[k] == fc[k]);
                assert(concat(fc).subrange(file_start(files, k), file_start(files, k + 1))
                    =~= concat(fc.drop_last()).subrange(file_start(files, k), file_start(files, k + 1)));
            } else {
                assert(concat(fc).subrange(file_start(files, k), file_start(files, k + 1)) =~= fc[k]);
            }
        }
    }
}

proof fn lemma_read_upto(fc: Seq<Seq<u8>>, files: Seq<FileEntry>, ps: int, pe: int, k: int)
    requires
        contents_fit(fc, files),
        total_of(files) <= u64::MAX,
        files.len() <= usize::MAX,
        0 <= ps <= pe,
        pe - ps <= u32::MAX,
        0 <= k <= files.len(),
    ensures
        concat(read_ranges(fc, ranges_upto(files, ps, pe, k))) == concat(fc).subrange(
            min_int(ps, file_start(files, k)),
            min_int(pe, file_start(files, k)),
        ),
    decreases k,
{
    lemma_concat_layout(fc, files);
    lemma_file_start_monotonic(files, 0, k);
    lemma_file_start_monotonic(files, k, files.len() as int);
    if k == 0 {
        assert(concat(read_ranges(fc, ranges_upto(files, ps, pe, k))) =~= Seq::<u8>::empty());
    } else {
        lemma_read_upto(fc, files, ps, pe, k - 1);
        let c = concat(fc);
        let prev = ranges_upto(files, ps, pe, k - 1);
        let rs = ranges_upto(files, ps, pe, k);
        let fs = file_start(files, k - 1);
        let fe = file_start(files, k);
        let lo = max_int(ps, fs);
        let hi = min_int(pe, fe);
        lemma_file_start_monotonic(files, k - 1, k);
        lemma_file_start_monotonic(files, 0, k - 1);
        assert(c.len() == total_of(files));
        assert(0 <= fs <= fe <= c.len());
        if lo < hi {
            let r = FileRange {
                file_index: (k - 1) as usize,
                file_offset: (lo - fs) as u64,
                length: (hi - lo) as u32,
            };
            assert(rs == prev.push(r));
            assert(r.file_index as int == k - 1);
            assert(r.file_offset as int == lo - fs);
            assert(r.length as int == hi - lo);
            assert(read_ranges(fc, rs) =~= read_ranges(fc, prev).push(
                fc[k - 1].subrange(lo - fs, hi - fs),
            ));
            assert(read_ranges(fc, rs).drop_last() =~= read_ranges(fc, prev));
            assert(c.subrange(fs, fe) == fc[k - 1]);
            assert forall|j: int| 0 <= j < hi - lo implies fc[k - 1].subrange(lo - fs, hi - fs)[j]
                == c.subrange(lo, hi)[j] by {
                assert(fc[k - 1][lo - fs + j] == c.subrange(fs, fe)[lo - fs + j]);
            }
            assert(fc[k - 1].subrange(lo - fs, hi - fs) =~= c.subrange(lo, hi));
            assert(c.subrange(min_int(ps, fs), min_int(pe, fs)) + c.subrange(lo, hi) =~= c.subrange(
                min_int(ps, fe),
                min_int(pe, fe),
            ));
        } else {
            assert((min_int(ps, fs) == min_int(ps, fe) && min_int(pe, fs) == min_int(pe, fe)) || (
            min_int(ps, fs) == min_int(pe, fs) && min_int(ps, fe) == min_int(pe, fe)));
            assert(c.subrange(min_int(ps, fs), min_int(pe, fs)) =~= c.subrange(
                min_int(ps, fe),
                min_int(pe, fe),
            ));
        }
    }
}

proof fn lemma_files_len_bound(m: BitSwapMetadata)
    ensures
        m.files@.len() <= usize::MAX,
{
    assert(m.files@.len() == m.files.len());
}

/// Reading a piece's ranges from files whose contents have the listed
/// lengths, and putting the parts together in order, gives exactly the
/// piece's bytes of the files' concatenation. So what a piece write puts into
/// the files is what a later read of that piece gets back, since the ranges of
/// distinct pieces never overlap, and on a freshly written torrent each piece
/// reads as the bytes its digest was computed from.
pub proof fn lemma_read_piece_from_files(m: BitSwapMetadata, fc: Seq<Seq<u8>>, i: int)
    requires
        m.wf(),
        contents_fit(fc, m.files@),
        0 <= i < m.pieces@.len(),
    ensures
        concat(read_ranges(fc, piece_ranges(m, i))) == concat(fc).subrange(
            piece_start(m, i),
            piece_start(m, i) + m.piece_size(i),
        ),
{
    let l = m.piece_length as int;
    let t = m.total();
    let ps = piece_start(m, i);
    assert(ps >= 0) by (nonlinear_arith)
        requires
            ps == i * m.piece_length,
            i >= 0,
    ;
    lemma_file_start_monotonic(m.files@, 0, m.files@.len() as int);
    crate::metadata::lemma_pieces_needed(t, l);
    vstd::arithmetic::div_mod::lemma_fundamental_div_mod(t, l);
    assert(m.files@.len() <= usize::MAX) by {
        lemma_files_len_bound(m);
    }
    assert(ps < t) by (nonlinear_arith)
        requires
            ps == i * l,
            0 <= i,
            i < t / l + if t % l == 0 { 0int } else { 1int },
            t == l * (t / l) + t % l,
            0 <= t % l < l,
            l > 0,
    ;
    lemma_read_upto(fc, m.files@, ps, ps + m.piece_size(i), m.files@.len() as int);
}

/// Opening a freshly written torrent verifies every piece. When the files
/// hold the contents the metadata was built from (their lengths are the
/// listed ones and the piece digests are those of their concatenation, as
/// `PieceHasher` computes them), the bytes read through each piece's ranges
/// hash to that piece's digest, so `verify_piece_on_disk` marks every piece
/// verified and `lemma_all_verified_complete` makes completion whole.
pub proof fn lemma_fresh_open_verifies(m: BitSwapMetadata, fc: Seq<Seq<u8>>)
    requires
        m.wf(),
        contents_fit(fc, m.files@),
        crate::metadata::texts(m.pieces@) == crate::metadata::piece_hashes(
            concat(fc),
            m.piece_length as nat,
        ),
    ensures
        forall|i: int|
            0 <= i < m.pieces@.len() ==> digest_hex(concat(read_ranges(fc, piece_ranges(m, i))))
                == (#[trigger] m.pieces@[i])@,
{
    lemma_concat_layout(fc, m.files@);
    crate::metadata::lemma_fresh_torrent_verifies(m, concat(fc));
    assert forall|i: int| 0 <= i < m.pieces@.len() implies digest_hex(
        concat(read_ranges(fc, piece_ranges(m, i))),
    ) == (#[trigger] m.pieces@[i])@ by {
        lemma_read_piece_from_files(m, fc, i);
    }
}

proof fn lemma_ranges_within(files: Seq<FileEntry>, ps: int, pe: int, k: int)
    requires
        0 <= ps <= pe,
        pe - ps <= u32::MAX,
        0 <= k <= files.len(),
        total_of(files) <= u64::MAX,
        files.len() <= usize::MAX,
    ensures
        forall|a: int|
            0 <= a < ranges_upto(files, ps, pe, k).len() ==> {
                let r = #[trigger] ranges_upto(files, ps, pe, k)[a];
                &&& 0 <= r.file_index < k
                &&& ps <= file_start(files, r.file_index as int) + r.file_offset
                &&& file_start(files, r.file_index as int) + r.file_offset + r.length <= pe
            },
    decreases k,
{
    if k > 0 {
        lemma_ranges_within(files, ps, pe, k - 1);
        lemma_file_start_monotonic(files, k - 1, files.len() as int);
        lemma_file_start_monotonic(files, k, files.len() as int);
        lemma_file_start_monotonic(files, 0, k - 1);
        let prev = ranges_upto(files, ps, pe, k - 1);
        let rs = ranges_upto(files, ps, pe, k);
        let fs = file_start(files, k - 1);
        let fe = fs + files[k - 1].length;
        let lo = max_int(ps, fs);
        let hi = min_int(pe, fe);
        assert forall|a: int| 0 <= a < rs.len() implies {
            let r = #[trigger] rs[a];
            &&& 0 <= r.file_index < k
            &&& ps <= file_start(files, r.file_index as int) + r.file_offset
            &&& file_start(files, r.file_index as int) + r.file_offset + r.length <= pe
        } by {
            if a < prev.len() {
                assert(rs[a] == prev[a]);
            } else {
                assert(lo < hi);
                assert(rs[a].file_index as int == k - 1);
                assert(rs[a].file_offset as int == lo - fs);
                assert(rs[a].length as int == hi - lo);
            }
        }
    }
}

/// Pieces never share a byte of a file: two ranges of distinct pieces in the
/// same file do not overlap. So writing one piece never changes the bytes a
/// read of another piece gets back.
pub proof fn lemma_pieces_do_not_overlap(m: BitSwapMetadata, i: int, j: int, a: int, b: int)
    requires
        m.wf(),
        0 <= i < m.pieces@.len(),
        0 <= j < m.pieces@.len(),
        i != j,
        0 <= a < piece_ranges(m, i).len(),
        0 <= b < piece_ranges(m, j).len(),
        piece_ranges(m, i)[a].file_index == piece_ranges(m, j)[b].file_index,
    ensures
        piece_ranges(m, i)[a].file_offset + piece_ranges(m, i)[a].length
            <= piece_ranges(m, j)[b].file_offset || piece_ranges(m, j)[b].file_offset
            + piece_ranges(m, j)[b].length <= piece_ranges(m, i)[a].file_offset,
{
    let l = m.piece_length as int;
    let n = m.files@.len() as int;
    lemma_files_len_bound(m);
    let psi = piece_start(m, i);
    let psj = piece_start(m, j);
    assert(psi >= 0 && psj >= 0) by (nonlinear_arith)
        requires
            psi == i * l,
            psj == j * l,
            i >= 0,
            j >= 0,
            l >= 0,
    ;
    assert(m.piece_size(i) <= l && m.piece_size(j) <= l);
    lemma_ranges_within(m.files@, psi, psi + m.piece_size(i), n);
    lemma_ranges_within(m.files@, psj, psj + m.piece_size(j), n);
    if i < j {
        assert(psi + l <= psj) by (nonlinear_arith)
            requires
                psi == i * l,
                psj == j * l,
                i < j,
                l > 0,
        ;
    } else {
        assert(psj + l <= psi) by (nonlinear_arith)
            requires
                psi == i * l,
                psj == j * l,
                j < i,
                l > 0,
        ;
    }
    let ri = piece_ranges(m, i)[a];
    let rj = piece_ranges(m, j)[b];
    assert(ps_bound(m, ri, psi, psi + m.piece_size(i)));
    assert(ps_bound(m, rj, psj, psj + m.piece_size(j)));
}

spec fn ps_bound(m: BitSwapMetadata, r: FileRange, ps: int, pe: int) -> bool {
    ps <= file_start(m.files@, r.file_index as int) + r.file_offset && file_start(
        m.files@,
        r.file_index as int,
    ) + r.file_offset + r.length <= pe
}

impl StorageManager {
    /// An engine for valid metadata, every piece missing; fails with a
    /// metadata error when the metadata is not well formed.
    pub fn new(metadata: BitSwapMetadata, storage_dir: String) -> (r: BitSwapResult<Self>)
        ensures
            r is Ok <==> metadata.wf(),
            r is Err ==> r->Err_0 is Metadata,
            r is Ok ==> ({
                let v = r->Ok_0@;
                &&& v.wf()
                &&& v.metadata == metadata
                &&& v.storage_dir == storage_dir@
                &&& forall|i: int| 0 <= i < v.count() ==> v.states[i] == PieceState::Missing
            }),
    {
        metadata.validate()?;
        let n = metadata.pieces.len();
        let mut piece_states: Vec<PieceState> = Vec::new();
        while piece_states.len() < n
            invariant
                piece_states@.len() <= n,
                forall|i: int| 0 <= i < piece_states@.len() ==> piece_states@[i] == PieceState::Missing,
            decreases n - piece_states@.len(),
        {
            piece_states.push(PieceState::Missing);
        }
        Ok(StorageManager { metadata, storage_dir, piece_states })
    }

    /// The metadata.
    pub fn metadata(&self) -> (r: &BitSwapMetadata)
        ensures
            *r == self@.metadata,
    {
        &self.metadata
    }

    /// The storage root.
    pub fn storage_dir(&self) -> (r: &String)
        ensures
            r@ == self@.storage_dir,
    {
        &self.storage_dir
    }

    /// Number of pieces.
    pub fn piece_count(&self) -> (r: u32)
        requires
            self@.wf(),
        ensures
            r == self@.count(),
    {
        self.metadata.piece_count()
    }

    /// Size of piece `piece_index`.
    pub fn piece_size(&self, piece_index: u32) -> (r: u32)
        requires
            self@.wf(),
        ensures
            r == self@.metadata.piece_size(piece_index as int),
    {
        let total = self.metadata.total_size();
        let l = self.metadata.piece_length as u64;
        assert(piece_index as int * l <= u64::MAX) by (nonlinear_arith)
            requires
                piece_index <= u32::MAX,
                l <= u32::MAX,
        ;
        let ps = piece_index as u64 * l;
        if ps >= total {
            0
        } else if total - ps >= l {
            l as u32
        } else {
            (total - ps) as u32
        }
    }

    /// Where piece `piece_index` lives, or `None` outside the torrent.
    pub fn piece_info(&self, piece_index: u32) -> (r: Option<PieceInfo>)
        requires
            self@.wf(),
        ensures
            r is Some <==> piece_index < self@.count(),
            r is Some ==> ({
                let info = r->Some_0;
                &&& info.index == piece_index
                &&& info.hash@ == self@.metadata.pieces@[piece_index as int]@
                &&& info.size == self@.metadata.piece_size(piece_index as int)
                &&& info.file_ranges@ == piece_ranges(self@.metadata, piece_index as int)
            }),
    {
        if piece_index as usize >= self.metadata.pieces.len() {
            return None;
        }
        let ghost files = self.metadata.files@;
        let total = self.metadata.total_size();
        let l = self.metadata.piece_length as u64;
        assert(piece_index as int * l <= u64::MAX) by (nonlinear_arith)
            requires
                piece_index <= u32::MAX,
                l <= u32::MAX,
        ;
        let ps = piece_index as u64 * l;
        let size = self.piece_size(piece_index);
        let pe = ps + size as u64;
        let mut ranges: Vec<FileRange> = Vec::new();
        let mut fs: u64 = 0;
        let mut k: usize = 0;
        while k < self.metadata.files.len()
            invariant
                files == self.metadata.files@,
                0 <= k <= files.len(),
                fs == file_start(files, k as int),
                total == total_of(files),
                ps <= pe,
                ranges@ == ranges_upto(files, ps as int, pe as int, k as int),
            decreases files.len() - k,
        {
            proof {
                lemma_file_start_monotonic(files, k + 1, files.len() as int);
            }
            let fe = fs + self.metadata.files[k].length;
            let lo = if ps > fs {
                ps
            } else {
                fs
            };
            let hi = if pe < fe {
                pe
            } else {
                fe
            };
            if lo < hi {
                ranges.push(FileRange { file_index: k, file_offset: lo - fs, length: (hi - lo) as u32 });
            }
            fs = fe;
            k = k + 1;
        }
        Some(PieceInfo { index: piece_index, hash: self.metadata.pieces[piece_index as usize].clone(), size, file_ranges: ranges })
    }

    /// Where every piece lives, in piece order.
    pub fn calculate_piece_info(&self) -> (r: Vec<PieceInfo>)
        requires
            self@.wf(),
        ensures
            r@.len() == self@.count(),
            forall|i: int|
                0 <= i < r@.len() ==> {
                    let info = #[trigger] r@[i];
                    &&& info.index == i
                    &&& info.hash@ == self@.metadata.pieces@[i]@
                    &&& info.size == self@.metadata.piece_size(i)
                    &&& info.file_ranges@ == piece_ranges(self@.metadata, i)
                },
    {
        let n = self.piece_count();
        let mut infos: Vec<PieceInfo> = Vec::new();
        let mut p: u32 = 0;
        while p < n
            invariant
                self@.wf(),
                n == self@.count(),
                p <= n,
                infos@.len() == p,
                forall|i: int|
                    0 <= i < p ==> {
                        let info = #[trigger] infos@[i];
                        &&& info.index == i
                        &&& info.hash@ == self@.metadata.pieces@[i]@
                        &&& info.size == self@.metadata.piece_size(i)
                        &&& info.file_ranges@ == piece_ranges(self@.metadata, i)
                    },
            decreases n - p,
        {
            let info = self.piece_info(p).unwrap();
            infos.push(info);
            p = p + 1;
        }
        infos
    }

    /// State of a piece; pieces outside the torrent are missing.
    pub fn get_piece_state(&self, piece_index: u32) -> (r: PieceState)
        ensures
            r == self@.state(piece_index as int),
    {
        if (piece_index as usize) < self.piece_states.len() {
            self.piece_states[piece_index as usize]
        } else {
            PieceState::Missing
        }
    }

    /// Sets the state of a piece; an index outside the torrent changes nothing.
    pub fn set_piece_state(&mut self, piece_index: u32, state: PieceState)
        requires
            old(self)@.wf(),
        ensures
            final(self)@.wf(),
            final(self)@.metadata == old(self)@.metadata,
            final(self)@.storage_dir == old(self)@.storage_dir,
            final(self)@.states == if piece_index < old(self)@.count() {
                old(self)@.states.update(piece_index as int, state)
            } else {
                old(self)@.states
            },
    {
        if (piece_index as usize) < self.piece_states.len() {
            self.piece_states.set(piece_index as usize, state);
        }
    }

    /// Number of verified pieces.
    pub fn verified_count(&self) -> (r: u32)
        requires
            self@.wf(),
        ensures
            r == self@.verified_upto(self@.count()),
    {
        let n = self.piece_count();
        let mut count: u32 = 0;
        let mut p: u32 = 0;
        while p < n
            invariant
                n == self@.count(),
                p <= n,
                count == self@.verified_upto(p as int),
            decreases n - p,
        {
            proof {
                lemma_verified_count_bound(self@, p as int);
            }
            if self.get_piece_state(p) == PieceState::Verified {
                count = count + 1;
            }
            p = p + 1;
        }
        count
    }

    /// Whether every piece is verified.
    pub fn is_complete(&self) -> (r: bool)
        requires
            self@.wf(),
        ensures
            r == (forall|i: int| 0 <= i < self@.count() ==> self@.state(i) == PieceState::Verified),
    {
        proof {
            lemma_verified_count_bound(self@, self@.count());
        }
        self.verified_count() == self.piece_count()
    }

    /// Indices of the pieces that are missing or corrupted, in increasing order.
    pub fn get_missing_pieces(&self) -> (r: Vec<u32>)
        requires
            self@.wf(),
        ensures
            r@ == indices_where(self@, self@.count(), |s: PieceState| is_wanted(s)),
    {
        let n = self.piece_count();
        let mut out: Vec<u32> = Vec::new();
        let mut p: u32 = 0;
        while p < n
            invariant
                n == self@.count(),
                p <= n,
                out@ == indices_where(self@, p as int, |s: PieceState| is_wanted(s)),
            decreases n - p,
        {
            let s = self.get_piece_state(p);
            if s == PieceState::Missing || s == PieceState::Corrupted {
                out.push(p);
            }
            p = p + 1;
        }
        out
    }

    /// Indices of the verified pieces, in increasing order.
    pub fn get_available_pieces(&self) -> (r: Vec<u32>)
        requires
            self@.wf(),
        ensures
            r@ == indices_where(self@, self@.count(), |s: PieceState| is_verified(s)),
    {
        let n = self.piece_count();
        let mut out: Vec<u32> = Vec::new();
        let mut p: u32 = 0;
        while p < n
            invariant
                n == self@.count(),
                p <= n,
                out@ == indices_where(self@, p as int, |s: PieceState| is_verified(s)),
            decreases n - p,
        {
            if self.get_piece_state(p) == PieceState::Verified {
                out.push(p);
            }
            p = p + 1;
        }
        out
    }

    /// Bytes held by the verified pieces.
    pub fn calculate_downloaded_bytes(&self) -> (r: u64)
        requires
            self@.wf(),
        ensures
            r == self@.verified_bytes_upto(self@.count()),
    {
        let n = self.piece_count();
        let mut bytes: u64 = 0;
        let mut p: u32 = 0;
        proof {
            lemma_piece_sizes_sum(self@.metadata);
        }
        while p < n
            invariant
                self@.wf(),
                n == self@.count(),
                p <= n,
                bytes == self@.verified_bytes_upto(p as int),
                piece_sizes_upto(self@.metadata, n as int) == self@.metadata.total(),
            decreases n - p,
        {
            proof {
                lemma_file_start_monotonic(self@.metadata.files@, 0, self@.metadata.files@.len() as int);
                lemma_verified_bytes_bound(self@, p + 1);
                lemma_piece_sizes_prefix(self@.metadata, p + 1);
                lemma_piece_sizes_prefix(self@.metadata, n as int);
                let l = self@.metadata.piece_length as int;
                assert((p + 1) * l <= n * l) by (nonlinear_arith)
                    requires
                        p + 1 <= n,
                        l > 0,
                ;
            }
            if self.get_piece_state(p) == PieceState::Verified {
                bytes = bytes + self.piece_size(p) as u64;
            }
            p = p + 1;
        }
        bytes
    }

    /// Checks the bytes of a piece before they are written.
    ///
    /// An index outside the torrent fails with `InvalidPieceIndex`, bytes of
    /// the wrong size with a storage error, and bytes whose digest differs
    /// from the metadata with `PieceVerificationFailed`, which also marks the
    /// piece corrupted. Otherwise the result holds, for each file range of the
    /// piece in order, the bytes to write there; the caller writes them and
    /// then marks the piece verified. Nothing else changes.
    pub fn plan_write_piece(&mut self, piece_index: u32, data: &[u8]) -> (r: BitSwapResult<
        Vec<PieceWrite>,
    >)
        requires
            old(self)@.wf(),
        ensures
            final(self)@.wf(),
            final(self)@.metadata == old(self)@.metadata,
            final(self)@.storage_dir == old(self)@.storage_dir,
            piece_index >= old(self)@.count() ==> r == Err::<Vec<PieceWrite>, BitSwapError>(
                BitSwapError::InvalidPieceIndex { index: piece_index, total: old(self)@.count() as u32 },
            ) && final(self)@.states == old(self)@.states,
            piece_index < old(self)@.count() && data@.len() != old(self)@.metadata.piece_size(
                piece_index as int,
            ) ==> r is Err && r->Err_0 is Storage && final(self)@.states == old(self)@.states,
            piece_index < old(self)@.count() && data@.len() == old(self)@.metadata.piece_size(
                piece_index as int,
            ) && digest_hex(data@) != old(self)@.metadata.pieces@[piece_index as int]@ ==> r is Err
                && is_verification_failure(
                r->Err_0,
                piece_index,
                old(self)@.metadata.pieces@[piece_index as int]@,
                digest_hex(data@),
            ) && final(self)@.states == old(self)@.states.update(
                piece_index as int,
                PieceState::Corrupted,
            ),
            piece_index < old(self)@.count() && data@.len() == old(self)@.metadata.piece_size(
                piece_index as int,
            ) && digest_hex(data@) == old(self)@.metadata.pieces@[piece_index as int]@ ==> r is Ok
                && writes_match(
                r->Ok_0@,
                piece_ranges(old(self)@.metadata, piece_index as int),
                data@,
            ) && final(self)@.states == old(self)@.states,
    {
        if piece_index as usize >= self.metadata.pieces.len() {
            return Err(BitSwapError::InvalidPieceIndex { index: piece_index, total: self.piece_count() });
        }
        let info = self.piece_info(piece_index).unwrap();
        if data.len() != info.size as usize {
            return Err(BitSwapError::Storage(message("piece size mismatch")));
        }
        let actual = sha256_hex(data);
        if !(actual == info.hash) {
            self.piece_states.set(piece_index as usize, PieceState::Corrupted);
            return Err(
                BitSwapError::PieceVerificationFailed { piece_index, expected: info.hash, actual },
            );
        }
        let ghost rs = info.file_ranges@;
        proof {
            lemma_piece_ranges_total(self@.metadata, piece_index as int);
        }
        let dlen = data.len();
        let mut writes: Vec<PieceWrite> = Vec::new();
        let mut offset: usize = 0;
        let mut k: usize = 0;
        while k < info.file_ranges.len()
            invariant
                dlen == data@.len(),
                rs == info.file_ranges@,
                range_total(rs) == data@.len(),
                0 <= k <= rs.len(),
                offset == range_total(rs.take(k as int)),
                writes@.len() == k,
                forall|j: int|
                    0 <= j < k ==> (#[trigger] writes@[j]).range == rs[j] && writes@[j].data@
                        == split_by(data@, rs)[j],
            decreases rs.len() - k,
        {
            let range = info.file_ranges[k];
            proof {
                lemma_range_total_step(rs, k as int);
                lemma_range_total_take(rs, k + 1);
            }
            let end = offset + range.length as usize;
            let chunk = copy_range(data, offset, end);
            writes.push(PieceWrite { range, data: chunk });
            offset = end;
            k = k + 1;
        }
        Ok(writes)
    }

    /// The file ranges to read for a piece; fails with a storage error unless
    /// the piece is verified.
    pub fn plan_read_piece(&self, piece_index: u32) -> (r: BitSwapResult<PieceInfo>)
        requires
            self@.wf(),
        ensures
            r is Ok <==> self@.state(piece_index as int) == PieceState::Verified,
            r is Err ==> r->Err_0 is Storage,
            r is Ok ==> ({
                let info = r->Ok_0;
                &&& info.index == piece_index
                &&& info.hash@ == self@.metadata.pieces@[piece_index as int]@
                &&& info.size == self@.metadata.piece_size(piece_index as int)
                &&& info.file_ranges@ == piece_ranges(self@.metadata, piece_index as int)
            }),
    {
        if self.get_piece_state(piece_index) != PieceState::Verified {
            return Err(BitSwapError::Storage(message("piece not available")));
        }
        Ok(self.piece_info(piece_index).unwrap())
    }

    /// Puts together the bytes read from the ranges of a piece, in order.
    ///
    /// An index outside the torrent fails with `InvalidPieceIndex`; buffers
    /// that do not have the lengths of the piece's ranges fail with a storage
    /// error.
    pub fn assemble_piece(&self, piece_index: u32, parts: Vec<Vec<u8>>) -> (r: BitSwapResult<Vec<u8>>)
        requires
            self@.wf(),
        ensures
            piece_index >= self@.count() ==> r == Err::<Vec<u8>, BitSwapError>(
                BitSwapError::InvalidPieceIndex { index: piece_index, total: self@.count() as u32 },
            ),
            piece_index < self@.count() ==> (r is Ok <==> parts_fit(
                contents(parts@),
                piece_ranges(self@.metadata, piece_index as int),
            )),
            piece_index < self@.count() && r is Err ==> r->Err_0 is Storage,
            r is Ok ==> r->Ok_0@ == concat(contents(parts@)),
    {
        let info = match self.piece_info(piece_index) {
            Some(info) => info,
            None => {
                return Err(
                    BitSwapError::InvalidPieceIndex { index: piece_index, total: self.piece_count() },
                );
            },
        };
        let ghost rs = info.file_ranges@;
        let ghost cs = contents(parts@);
        if parts.len() != info.file_ranges.len() {
            return Err(BitSwapError::Storage(message("piece parts do not match its ranges")));
        }
        let mut out: Vec<u8> = Vec::new();
        let mut k: usize = 0;
        while k < parts.len()
            invariant
                self@.wf(),
                piece_index < self@.count(),
                rs == info.file_ranges@,
                rs == piece_ranges(self@.metadata, piece_index as int),
                cs == contents(parts@),
                parts@.len() == rs.len(),
                0 <= k <= parts@.len(),
                forall|j: int| 0 <= j < k ==> (#[trigger] cs[j]).len() == rs[j].length,
                out@ == concat(cs.take(k as int)),
            decreases parts@.len() - k,
        {
            assert(cs[k as int] == parts@[k as int]@);
            if parts[k].len() != info.file_ranges[k].length as usize {
                return Err(BitSwapError::Storage(message("piece part has the wrong length")));
            }
            proof {
                lemma_concat_step(cs, k as int);
            }
            crate::be_bytes::put_bytes(&mut out, parts[k].as_slice());
            k = k + 1;
        }
        assert(cs.take(parts@.len() as int) =~= cs);
        Ok(out)
    }

    /// Records the bytes found on disk for a piece: when their digest matches
    /// the metadata the piece becomes verified, otherwise nothing changes.
    pub fn verify_piece_on_disk(&mut self, piece_index: u32, data: &[u8]) -> (r: bool)
        requires
            old(self)@.wf(),
        ensures
            final(self)@.wf(),
            final(self)@.metadata == old(self)@.metadata,
            final(self)@.storage_dir == old(self)@.storage_dir,
            r == (piece_index < old(self)@.count() && digest_hex(data@)
                == old(self)@.metadata.pieces@[piece_index as int]@),
            final(self)@.states == if r {
                old(self)@.states.update(piece_index as int, PieceState::Verified)
            } else {
                old(self)@.states
            },
    {
        if piece_index as usize >= self.metadata.pieces.len() {
            return false;
        }
        let ok = verify_piece_hash(data, self.metadata.pieces[piece_index as usize].as_str());
        if ok {
            self.piece_states.set(piece_index as usize, PieceState::Verified);
        }
        ok
    }

    /// Initialises the piece states: from a resume record of this torrent,
    /// pieces it does not list being missing; otherwise every piece missing.
    /// Returns whether the files on disk still have to be scanned, which is
    /// the case exactly when no usable record was given.
    pub fn load_or_initialize_pieces(&mut self, resume: Option<ResumeData>) -> (scan: bool)
        requires
            old(self)@.wf(),
        ensures
            final(self)@.wf(),
            final(self)@.metadata == old(self)@.metadata,
            final(self)@.storage_dir == old(self)@.storage_dir,
            scan == !(resume is Some && resume->Some_0.info_hash@ == old(self)@.metadata.info_hash@),
            forall|i: int|
                0 <= i < final(self)@.count() ==> #[trigger] final(self)@.states[i] == if !scan
                    && resume->Some_0.piece_states@.contains_key(i as u32) {
                    resume->Some_0.piece_states@[i as u32]
                } else {
                    PieceState::Missing
                },
    {
        let n = self.metadata.pieces.len();
        let matching = match &resume {
            Some(rd) => rd.info_hash == self.metadata.info_hash,
            None => false,
        };
        let mut states: Vec<PieceState> = Vec::new();
        while states.len() < n
            invariant
                n == self.metadata.pieces@.len(),
                n <= u32::MAX,
                matching == (resume is Some && resume->Some_0.info_hash@ == self.metadata.info_hash@),
                states@.len() <= n,
                forall|i: int|
                    0 <= i < states@.len() ==> #[trigger] states@[i] == if matching
                        && resume->Some_0.piece_states@.contains_key(i as u32) {
                        resume->Some_0.piece_states@[i as u32]
                    } else {
                        PieceState::Missing
                    },
            decreases n - states@.len(),
        {
            let i = states.len() as u32;
            let s = match &resume {
                Some(rd) => {
                    if matching {
                        match rd.piece_states.get(&i) {
                            Some(st) => *st,
                            None => PieceState::Missing,
                        }
                    } else {
                        PieceState::Missing
                    }
                },
                None => PieceState::Missing,
            };
            states.push(s);
        }
        self.piece_states = states;
        !matching
    }

    /// The resume record of the current state, with the given time and
    /// upload count.
    pub fn resume_data(&self, last_updated: u64, uploaded_bytes: u64) -> (r: ResumeData)
        requires
            self@.wf(),
        ensures
            r.info_hash@ == self@.metadata.info_hash@,
            r.piece_states@ == Map::new(
                |k: u32| k < self@.count(),
                |k: u32| self@.states[k as int],
            ),
            r.last_updated == last_updated,
            r.downloaded_bytes == self@.verified_bytes_upto(self@.count()),
            r.uploaded_bytes == uploaded_bytes,
    {
        let n = self.piece_count();
        let mut map: HashMap<u32, PieceState> = HashMap::new();
        let mut p: u32 = 0;
        while p < n
            invariant
                self@.wf(),
                n == self@.count(),
                p <= n,
                map@ == Map::new(|k: u32| k < p, |k: u32| self@.states[k as int]),
            decreases n - p,
        {
            map.insert(p, self.piece_states[p as usize]);
            p = p + 1;
            assert(map@ =~= Map::new(|k: u32| k < p, |k: u32| self@.states[k as int]));
        }
        ResumeData {
            info_hash: self.metadata.info_hash.clone(),
            piece_states: map,
            last_updated,
            downloaded_bytes: self.calculate_downloaded_bytes(),
            uploaded_bytes,
        }
    }
}

} // verus!
