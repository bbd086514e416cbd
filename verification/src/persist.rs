//! The rules of the on-disk cache that do not depend on how bytes are
//! written: what a stored block must measure, how a block of the wrong
//! size is repaired, how a large block is cut into chunks, and when a
//! stored sparse layout is sound.

use vstd::prelude::*;

verus! {

/// What can be wrong with a cached artefact.
#[derive(Clone, Copy, Debug, PartialEq, Eq, Structural)]
pub enum PersistenceError {
    /// The artefact is not there; it has to be built.
    CacheMissing,
    /// The stored dimensions or layout make no sense.
    CorruptHeader,
    /// The data is shorter or longer than the dimensions say.
    SizeMismatch,
}

/// What was done to bring a block to its size.
#[derive(Clone, Copy, Debug, PartialEq, Eq, Structural)]
pub enum Repair {
    /// The block had its size.
    Intact,
    /// `missing` cells were added at the end.
    Padded { missing: usize },
    /// `excess` cells were cut off the end.
    Truncated { excess: usize },
}

/// The number of cells at most in one written chunk.
pub const CHUNK_CELLS: usize = 1_000_000;

/// `data` brought to length `n`: cut off there, or extended with `fill`.
pub open spec fn resized<T>(data: Seq<T>, n: int, fill: T) -> Seq<T> {
    Seq::new(
        n as nat,
        |i: int|
            if i < data.len() {
                data[i]
            } else {
                fill
            },
    )
}

/// The repair that brings a block of `len` cells to `expected` cells.
pub open spec fn repair_of(len: int, expected: int) -> Repair {
    if len == expected {
        Repair::Intact
    } else if len < expected {
        Repair::Padded { missing: (expected - len) as usize }
    } else {
        Repair::Truncated { excess: (len - expected) as usize }
    }
}

/// The number of cells of an `nrows` by `ncols` block, where it can be
/// held; dimensions whose product cannot are a corrupt header.
pub fn expected_cells(nrows: usize, ncols: usize) -> (r: Result<usize, PersistenceError>)
    ensures
        nrows * ncols <= usize::MAX ==> r == Ok::<usize, PersistenceError>((nrows * ncols) as usize),
        nrows * ncols > usize::MAX ==> r == Err::<usize, PersistenceError>(
            PersistenceError::CorruptHeader,
        ),
{
    match nrows.checked_mul(ncols) {
        Some(cells) => Ok(cells),
        None => Err(PersistenceError::CorruptHeader),
    }
}

/// Brings a block to `expected` cells: a short one is padded with `fill`,
/// a long one is cut. The cells that stay keep their values.
pub fn repair<T: Copy>(data: &mut Vec<T>, expected: usize, fill: T) -> (done: Repair)
    ensures
        final(data)@ == resized(old(data)@, expected as int, fill),
        done == repair_of(old(data)@.len() as int, expected as int),
{
    let len = data.len();
    if len == expected {
        assert(data@ =~= resized(old(data)@, expected as int, fill));
        Repair::Intact
    } else if len < expected {
        let mut n: usize = len;
        while n < expected
            invariant
                len <= n <= expected,
                data@ == resized(old(data)@, n as int, fill),
                old(data)@.len() == len,
            decreases expected - n,
        {
            data.push(fill);
            n += 1;
            assert(data@ =~= resized(old(data)@, n as int, fill));
        }
        Repair::Padded { missing: expected - len }
    } else {
        data.truncate(expected);
        assert(data@ =~= resized(old(data)@, expected as int, fill));
        Repair::Truncated { excess: len - expected }
    }
}

/// What a repair is to be reported as: a block that had to be padded or
/// cut had a size mismatch; an intact one gives nothing to report.
pub fn warning_of(done: Repair) -> (warning: Option<PersistenceError>)
    ensures
        warning == if done == Repair::Intact {
            None::<PersistenceError>
        } else {
            Some(PersistenceError::SizeMismatch)
        },
{
    match done {
        Repair::Intact => None,
        Repair::Padded { .. } => Some(PersistenceError::SizeMismatch),
        Repair::Truncated { .. } => Some(PersistenceError::SizeMismatch),
    }
}

/// The repair to report for several blocks together: the first that is
/// not intact, in the order given.
pub fn combined(first: Repair, second: Repair) -> (both: Repair)
    ensures
        both == if first == Repair::Intact {
            second
        } else {
            first
        },
{
    match first {
        Repair::Intact => second,
        _ => first,
    }
}

/// Checks the parts of a stored index against the dimensions of its
/// matrix: the vocabulary, the list of terms it was read from and the idf
/// vector have one entry for each row, and there is one document for each
/// column. Parts that do not fit are a corrupt header.
pub fn check_index_dimensions(
    n_rows: usize,
    n_cols: usize,
    n_vocabulary: usize,
    n_listed: usize,
    n_idf: usize,
    n_documents: usize,
) -> (r: Result<(), PersistenceError>)
    ensures
        r == if n_vocabulary == n_rows && n_listed == n_rows && n_idf == n_rows && n_documents
            == n_cols {
            Ok::<(), PersistenceError>(())
        } else {
            Err::<(), PersistenceError>(PersistenceError::CorruptHeader)
        },
{
    if n_vocabulary == n_rows && n_listed == n_rows && n_idf == n_rows && n_documents == n_cols {
        Ok(())
    } else {
        Err(PersistenceError::CorruptHeader)
    }
}

/// Checks the parts of a stored decomposition against its rank: there is
/// one singular value, one column of the left vectors and one row of the
/// right vectors for each unit of rank. Parts that do not fit are a
/// corrupt header.
pub fn check_svd_dimensions(rank: usize, n_sigma: usize, u_cols: usize, vt_rows: usize) -> (r:
    Result<(), PersistenceError>)
    ensures
        r == if n_sigma == rank && u_cols == rank && vt_rows == rank {
            Ok::<(), PersistenceError>(())
        } else {
            Err::<(), PersistenceError>(PersistenceError::CorruptHeader)
        },
{
    if n_sigma == rank && u_cols == rank && vt_rows == rank {
        Ok(())
    } else {
        Err(PersistenceError::CorruptHeader)
    }
}

/// Tells whether stored document coordinates fit a decomposition: they
/// have one row for each unit of rank and one column for each document.
/// Coordinates that do not fit are computed anew.
pub fn coordinates_fit(rows: usize, cols: usize, rank: usize, n_docs: usize) -> (fit: bool)
    ensures
        fit == (rows == rank && cols == n_docs),
{
    rows == rank && cols == n_docs
}

/// A dense block as it is stored: its dimensions and its cells.
#[derive(Debug)]
pub struct DenseBlock<T> {
    pub nrows: usize,
    pub ncols: usize,
    pub data: Vec<T>,
}

impl<T> DenseBlock<T> {
    /// The block holds one cell for each pair of a row and a column.
    pub open spec fn wf(&self) -> bool {
        self.data@.len() == self.nrows * self.ncols
    }
}

/// Restores a dense block from what was read: its dimensions and, where
/// they could be read, its cells. Cells that could not be read count as
/// none. The block is brought to the size that the dimensions give, and
/// the repair is reported; only dimensions that no block can have fail.
pub fn restore_dense<T: Copy>(nrows: usize, ncols: usize, cells: Option<Vec<T>>, fill: T) -> (r:
    Result<(DenseBlock<T>, Repair), PersistenceError>)
    ensures
        nrows * ncols > usize::MAX ==> r == Err::<(DenseBlock<T>, Repair), PersistenceError>(
            PersistenceError::CorruptHeader,
        ),
        nrows * ncols <= usize::MAX ==> r is Ok && ({
            let read = match cells {
                Some(v) => v@,
                None => Seq::<T>::empty(),
            };
            let (block, done) = r->Ok_0;
            &&& block.wf()
            &&& block.nrows == nrows
            &&& block.ncols == ncols
            &&& block.data@ == resized(read, nrows * ncols, fill)
            &&& done == repair_of(read.len() as int, nrows * ncols)
        }),
{
    match expected_cells(nrows, ncols) {
        Err(e) => Err(e),
        Ok(expected) => {
            let mut data = match cells {
                Some(v) => v,
                None => Vec::new(),
            };
            let done = repair(&mut data, expected, fill);
            Ok((DenseBlock { nrows, ncols, data }, done))
        },
    }
}

/// Whether `ranges` cuts `len` cells into chunks: half-open ranges, the
/// first starting at zero, each starting where the one before ends, the
/// last ending at `len`; every chunk but the last holds `CHUNK_CELLS`
/// cells, and the last holds at least one and no more than that. Nothing
/// is cut into no chunk.
pub open spec fn is_chunking(len: int, ranges: Seq<(usize, usize)>) -> bool {
    &&& (ranges.len() == 0 <==> len == 0)
    &&& ranges.len() > 0 ==> ranges[0].0 == 0 && ranges.last().1 == len
    &&& forall|i: int|
        0 <= i < ranges.len() ==> (#[trigger] ranges[i]).0 < ranges[i].1 && ranges[i].1
            - ranges[i].0 <= CHUNK_CELLS
    &&& forall|i: int|
        0 <= i < ranges.len() - 1 ==> (#[trigger] ranges[i]).1 == ranges[i + 1].0 && ranges[i].1
            - ranges[i].0 == CHUNK_CELLS
}

/// Cuts a block of `len` cells into the chunks in which it is written.
pub fn chunk_ranges(len: usize) -> (ranges: Vec<(usize, usize)>)
    ensures
        is_chunking(len as int, ranges@),
{
    let mut ranges: Vec<(usize, usize)> = Vec::new();
    let mut start: usize = 0;
    while start < len
        invariant
            start <= len,
            ranges@.len() == 0 <==> start == 0,
            ranges@.len() > 0 ==> ranges@[0].0 == 0 && ranges@.last().1 == start,
            forall|i: int|
                0 <= i < ranges@.len() ==> (#[trigger] ranges@[i]).0 < ranges@[i].1 && ranges@[i].1
                    - ranges@[i].0 <= CHUNK_CELLS,
            forall|i: int|
                0 <= i < ranges@.len() - 1 ==> (#[trigger] ranges@[i]).1 == ranges@[i + 1].0
                    && ranges@[i].1 - ranges@[i].0 == CHUNK_CELLS,
            ranges@.len() > 0 && start < len ==> ranges@.last().1 - ranges@.last().0 == CHUNK_CELLS,
        decreases len - start,
    {
        let end = if len - start <= CHUNK_CELLS {
            len
        } else {
            start + CHUNK_CELLS
        };
        ranges.push((start, end));
        start = end;
    }
    ranges
}

/// The cells of the first `n` chunks, one chunk after the other.
pub open spec fn joined<T>(data: Seq<T>, ranges: Seq<(usize, usize)>, n: int) -> Seq<T>
    decreases n,
{
    if n <= 0 {
        Seq::empty()
    } else {
        joined(data, ranges, n - 1) + data.subrange(ranges[n - 1].0 as int, ranges[n - 1].1 as int)
    }
}

/// Written in chunks and read back chunk by chunk, a block is what it
/// was: the chunks of a chunking, joined in order, are the data.
pub proof fn lemma_chunks_rebuild<T>(data: Seq<T>, ranges: Seq<(usize, usize)>)
    requires
        is_chunking(data.len() as int, ranges),
    ensures
        joined(data, ranges, ranges.len() as int) == data,
{
    if ranges.len() > 0 {
        lemma_joined_upto(data, ranges, ranges.len() as int);
        assert(data.take(data.len() as int) =~= data);
    } else {
        assert(data =~= Seq::<T>::empty());
    }
}

/// The first `n` chunks, joined, are the data up to the end of the last
/// of them.
proof fn lemma_joined_upto<T>(data: Seq<T>, ranges: Seq<(usize, usize)>, n: int)
    requires
        is_chunking(data.len() as int, ranges),
        1 <= n <= ranges.len(),
    ensures
        ranges[n - 1].1 <= data.len(),
        joined(data, ranges, n) == data.take(ranges[n - 1].1 as int),
    decreases n,
{
    lemma_ends_ascend(data.len() as int, ranges, n - 1, ranges.len() - 1);
    if n == 1 {
        assert(joined(data, ranges, 0) =~= Seq::<T>::empty());
        assert(joined(data, ranges, 1) =~= data.take(ranges[0].1 as int));
    } else {
        lemma_joined_upto(data, ranges, n - 1);
        assert(ranges[n - 2].1 == ranges[n - 1].0);
        assert(joined(data, ranges, n) =~= data.take(ranges[n - 1].1 as int));
    }
}

/// In a chunking a later chunk ends no earlier than one before it.
proof fn lemma_ends_ascend(len: int, ranges: Seq<(usize, usize)>, i: int, j: int)
    requires
        is_chunking(len, ranges),
        0 <= i <= j < ranges.len(),
    ensures
        ranges[i].1 <= ranges[j].1,
    decreases j - i,
{
    if i < j {
        lemma_ends_ascend(len, ranges, i + 1, j);
        assert(ranges[i].1 == ranges[i + 1].0);
    }
}


/// Whether the offsets ascend: each outer slice ends no earlier than it
/// starts.
pub open spec fn offsets_ascend(offsets: Seq<usize>) -> bool {
    forall|i: int| 0 <= i < offsets.len() - 1 ==> (#[trigger] offsets[i]) <= offsets[i + 1]
}

/// Whether the indices from `start` up to `end` ascend strictly.
pub open spec fn slice_sorted(indices: Seq<usize>, start: int, end: int) -> bool {
    forall|k: int| start <= k && k + 1 < end ==> (#[trigger] indices[k]) < indices[k + 1]
}

/// Whether the inner indices of each outer slice ascend strictly.
pub open spec fn slices_sorted(offsets: Seq<usize>, indices: Seq<usize>) -> bool {
    forall|i: int|
        0 <= i < offsets.len() - 1 ==> slice_sorted(
            indices,
            (#[trigger] offsets[i]) as int,
            offsets[i + 1] as int,
        )
}

/// Whether a stored compressed sparse layout is sound for a matrix with
/// `n_outer` outer slices (rows, when stored by rows) of `n_inner`
/// places each: there is one offset more than slices, the offsets start at
/// zero, ascend and end at the number of stored entries, there are as many
/// values as indices, every index is below `n_inner`, and within a slice
/// the indices ascend strictly.
pub open spec fn layout_sound(
    n_outer: int,
    n_inner: int,
    offsets: Seq<usize>,
    indices: Seq<usize>,
    n_values: int,
) -> bool {
    &&& offsets.len() == n_outer + 1
    &&& offsets[0] == 0
    &&& offsets[n_outer] == indices.len()
    &&& indices.len() == n_values
    &&& offsets_ascend(offsets)
    &&& forall|k: int| 0 <= k < indices.len() ==> (#[trigger] indices[k]) < n_inner
    &&& slices_sorted(offsets, indices)
}

/// Ascending offsets ascend over any distance.
pub proof fn lemma_offsets_ordered(offsets: Seq<usize>, i: int, j: int)
    requires
        offsets_ascend(offsets),
        0 <= i <= j < offsets.len(),
    ensures
        offsets[i] <= offsets[j],
    decreases j - i,
{
    if i < j {
        lemma_offsets_ordered(offsets, i + 1, j);
    }
}

/// Tells whether the offsets ascend.
fn check_offsets(offsets: &Vec<usize>) -> (ok: bool)
    ensures
        ok == offsets_ascend(offsets@),
{
    if offsets.len() < 2 {
        return true;
    }
    let mut i: usize = 0;
    while i < offsets.len() - 1
        invariant
            offsets@.len() >= 2,
            i <= offsets@.len() - 1,
            forall|j: int| 0 <= j < i ==> (#[trigger] offsets@[j]) <= offsets@[j + 1],
        decreases offsets@.len() - i,
    {
        if offsets[i] > offsets[i + 1] {
            return false;
        }
        i += 1;
    }
    true
}

/// Tells whether every index is below `n_inner`.
fn check_bounds(indices: &Vec<usize>, n_inner: usize) -> (ok: bool)
    ensures
        ok == forall|k: int| 0 <= k < indices@.len() ==> (#[trigger] indices@[k]) < n_inner,
{
    let mut k: usize = 0;
    while k < indices.len()
        invariant
            k <= indices@.len(),
            forall|j: int| 0 <= j < k ==> (#[trigger] indices@[j]) < n_inner,
        decreases indices@.len() - k,
    {
        if indices[k] >= n_inner {
            return false;
        }
        k += 1;
    }
    true
}

/// Tells whether the indices from `start` up to `end` ascend strictly.
fn check_slice(indices: &Vec<usize>, start: usize, end: usize) -> (ok: bool)
    requires
        end <= indices@.len(),
    ensures
        ok == slice_sorted(indices@, start as int, end as int),
{
    let mut k: usize = start;
    while k < end && k + 1 < end
        invariant
            start <= k,
            end <= indices@.len(),
            forall|j: int| start <= j < k && j + 1 < end ==> (#[trigger] indices@[j]) < indices@[j + 1],
        decreases end - k,
    {
        if indices[k] >= indices[k + 1] {
            return false;
        }
        k += 1;
    }
    true
}

/// Tells whether the indices of every outer slice ascend strictly.
fn check_slices(offsets: &Vec<usize>, indices: &Vec<usize>) -> (ok: bool)
    requires
        offsets@.len() >= 1,
        offsets_ascend(offsets@),
        offsets@[offsets@.len() - 1] == indices@.len(),
    ensures
        ok == slices_sorted(offsets@, indices@),
{
    let mut i: usize = 0;
    while i < offsets.len() - 1
        invariant
            offsets@.len() >= 1,
            i <= offsets@.len() - 1,
            offsets_ascend(offsets@),
            offsets@[offsets@.len() - 1] == indices@.len(),
            forall|s: int|
                0 <= s < i ==> slice_sorted(
                    indices@,
                    (#[trigger] offsets@[s]) as int,
                    offsets@[s + 1] as int,
                ),
        decreases offsets@.len() - i,
    {
        proof {
            lemma_offsets_ordered(offsets@, i + 1, offsets@.len() - 1);
        }
        if !check_slice(indices, offsets[i], offsets[i + 1]) {
            return false;
        }
        i += 1;
    }
    true
}

/// Checks a stored compressed sparse layout against the dimensions stored
/// with it. An unsound layout is a corrupt header.
pub fn check_layout(
    n_outer: usize,
    n_inner: usize,
    offsets: &Vec<usize>,
    indices: &Vec<usize>,
    n_values: usize,
) -> (r: Result<(), PersistenceError>)
    ensures
        layout_sound(n_outer as int, n_inner as int, offsets@, indices@, n_values as int) ==> r
            == Ok::<(), PersistenceError>(()),
        !layout_sound(n_outer as int, n_inner as int, offsets@, indices@, n_values as int) ==> r
            == Err::<(), PersistenceError>(PersistenceError::CorruptHeader),
{
    if offsets.len() == 0 || offsets.len() - 1 != n_outer {
        return Err(PersistenceError::CorruptHeader);
    }
    if offsets[0] != 0 || offsets[n_outer] != indices.len() || indices.len() != n_values {
        return Err(PersistenceError::CorruptHeader);
    }
    if !check_offsets(offsets) {
        return Err(PersistenceError::CorruptHeader);
    }
    if !check_bounds(indices, n_inner) {
        return Err(PersistenceError::CorruptHeader);
    }
    if !check_slices(offsets, indices) {
        return Err(PersistenceError::CorruptHeader);
    }
    Ok(())
}

} // verus!
