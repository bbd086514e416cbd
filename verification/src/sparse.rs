//! The compressed form of the term counts: the entries of all columns in
//! one run, with the offset at which each column starts. This is the form
//! in which a sparse matrix is stored and handed to numerical code.

use vstd::prelude::*;
use crate::counts::{
    add_to_frequencies, documents_with, is_column, lemma_frequency_of_entries, TermColumn,
    TermCounts,
};
use crate::persist::{
    check_layout, layout_sound, lemma_offsets_ordered, offsets_ascend, slice_sorted,
    PersistenceError,
};

verus! {

/// A sparse matrix of counts in compressed column form.
#[derive(Debug)]
pub struct Compressed {
    /// The number of columns (documents).
    pub n_outer: usize,
    /// The number of rows (terms).
    pub n_inner: usize,
    /// For each column the place of its first entry, and the number of
    /// entries at the end.
    pub offsets: Vec<usize>,
    /// The row of each entry.
    pub indices: Vec<usize>,
    /// The count of each entry.
    pub counts: Vec<usize>,
}

impl Compressed {
    /// The entries of column `d`, as pairs of a row and a count.
    pub open spec fn column(&self, d: int) -> Seq<(usize, usize)> {
        Seq::new(
            (self.offsets@[d + 1] - self.offsets@[d]) as nat,
            |k: int| (self.indices@[self.offsets@[d] + k], self.counts@[self.offsets@[d] + k]),
        )
    }

    /// The layout is sound and every stored count is positive.
    pub open spec fn wf(&self) -> bool {
        &&& layout_sound(
            self.n_outer as int,
            self.n_inner as int,
            self.offsets@,
            self.indices@,
            self.counts@.len() as int,
        )
        &&& forall|k: int| 0 <= k < self.counts@.len() ==> #[trigger] self.counts@[k] > 0
    }

    /// The compressed form holds exactly the given columns.
    pub open spec fn holds(&self, columns: Seq<Seq<(usize, usize)>>) -> bool {
        &&& self.n_outer == columns.len()
        &&& forall|d: int| 0 <= d < columns.len() ==> #[trigger] self.column(d) == columns[d]
    }
}

/// The entries of each column of a count matrix.
pub open spec fn entries_of(columns: Seq<TermColumn>) -> Seq<Seq<(usize, usize)>> {
    columns.map_values(|c: TermColumn| c.entries@)
}

/// The rows of a column's entries.
pub open spec fn rows_of(entries: Seq<(usize, usize)>) -> Seq<usize> {
    entries.map_values(|e: (usize, usize)| e.0)
}

/// The counts of a column's entries.
pub open spec fn counts_of(entries: Seq<(usize, usize)>) -> Seq<usize> {
    entries.map_values(|e: (usize, usize)| e.1)
}

/// Appends the entries of one column to the run of all entries.
fn append_column(indices: &mut Vec<usize>, counts: &mut Vec<usize>, column: &Vec<(usize, usize)>)
    ensures
        final(indices)@ == old(indices)@ + rows_of(column@),
        final(counts)@ == old(counts)@ + counts_of(column@),
{
    let mut k: usize = 0;
    while k < column.len()
        invariant
            k <= column@.len(),
            indices@ == old(indices)@ + rows_of(column@.take(k as int)),
            counts@ == old(counts)@ + counts_of(column@.take(k as int)),
        decreases column@.len() - k,
    {
        let (row, count) = column[k];
        indices.push(row);
        counts.push(count);
        proof {
            let seen = column@.take(k as int);
            let next = column@.take(k + 1);
            assert(next =~= seen.push(column@[k as int]));
            assert(rows_of(next) =~= rows_of(seen).push(row));
            assert(counts_of(next) =~= counts_of(seen).push(count));
            assert(indices@ =~= old(indices)@ + rows_of(next));
            assert(counts@ =~= old(counts)@ + counts_of(next));
        }
        k += 1;
    }
    assert(column@.take(k as int) =~= column@);
}

/// Whether the first `d` columns are stored in the given run: column `c`
/// stands in the places from `offsets[c]` up to `offsets[c + 1]`.
spec fn stored(
    columns: Seq<Seq<(usize, usize)>>,
    d: int,
    offsets: Seq<usize>,
    indices: Seq<usize>,
    counts: Seq<usize>,
) -> bool {
    &&& offsets.len() == d + 1
    &&& offsets[0] == 0
    &&& offsets[d] == indices.len()
    &&& indices.len() == counts.len()
    &&& forall|c: int|
        0 <= c < d ==> (#[trigger] offsets[c]) + columns[c].len() == offsets[c + 1]
            && indices.subrange(offsets[c] as int, offsets[c + 1] as int) == rows_of(columns[c])
            && counts.subrange(offsets[c] as int, offsets[c + 1] as int) == counts_of(columns[c])
}

/// Storing one more column keeps what is stored.
proof fn lemma_stored_next(
    columns: Seq<Seq<(usize, usize)>>,
    d: int,
    offsets: Seq<usize>,
    indices: Seq<usize>,
    counts: Seq<usize>,
)
    requires
        0 <= d < columns.len(),
        stored(columns, d, offsets, indices, counts),
        indices.len() + columns[d].len() <= usize::MAX,
    ensures
        stored(
            columns,
            d + 1,
            offsets.push((indices.len() + columns[d].len()) as usize),
            indices + rows_of(columns[d]),
            counts + counts_of(columns[d]),
        ),
{
    let end = (indices.len() + columns[d].len()) as usize;
    let offsets2 = offsets.push(end);
    let indices2 = indices + rows_of(columns[d]);
    let counts2 = counts + counts_of(columns[d]);
    lemma_stored_ascends(columns, d, offsets, indices, counts);
    assert forall|c: int| 0 <= c < d + 1 implies (#[trigger] offsets2[c]) + columns[c].len()
        == offsets2[c + 1] && indices2.subrange(offsets2[c] as int, offsets2[c + 1] as int)
        == rows_of(columns[c]) && counts2.subrange(offsets2[c] as int, offsets2[c + 1] as int)
        == counts_of(columns[c]) by {
        if c < d {
            assert(offsets[c] + columns[c].len() == offsets[c + 1]);
            lemma_offsets_ordered(offsets, c + 1, d);
            assert(indices2.subrange(offsets[c] as int, offsets[c + 1] as int) =~= indices.subrange(
                offsets[c] as int,
                offsets[c + 1] as int,
            ));
            assert(counts2.subrange(offsets[c] as int, offsets[c + 1] as int) =~= counts.subrange(
                offsets[c] as int,
                offsets[c + 1] as int,
            ));
        } else {
            assert(indices2.subrange(offsets2[c] as int, offsets2[c + 1] as int) =~= rows_of(
                columns[c],
            ));
            assert(counts2.subrange(offsets2[c] as int, offsets2[c + 1] as int) =~= counts_of(
                columns[c],
            ));
        }
    }
}

/// The offsets of stored columns ascend.
proof fn lemma_stored_ascends(
    columns: Seq<Seq<(usize, usize)>>,
    d: int,
    offsets: Seq<usize>,
    indices: Seq<usize>,
    counts: Seq<usize>,
)
    requires
        stored(columns, d, offsets, indices, counts),
    ensures
        offsets_ascend(offsets),
{
    assert forall|i: int| 0 <= i < offsets.len() - 1 implies (#[trigger] offsets[i]) <= offsets[i
        + 1] by {
        assert(offsets[i] + columns[i].len() == offsets[i + 1]);
    }
}

/// Column `d` can be read back from the run in which it is stored.
proof fn lemma_stored_column(
    columns: Seq<Seq<(usize, usize)>>,
    c: Compressed,
    d: int,
)
    requires
        c.n_outer == columns.len(),
        stored(columns, c.n_outer as int, c.offsets@, c.indices@, c.counts@),
        0 <= d < columns.len(),
    ensures
        c.offsets@[d] <= c.offsets@[d + 1] <= c.indices@.len(),
        c.column(d) == columns[d],
        forall|k: int|
            0 <= k < columns[d].len() ==> #[trigger] c.indices@[c.offsets@[d] + k] == columns[d][k].0
                && c.counts@[c.offsets@[d] + k] == columns[d][k].1,
{
    let n = c.n_outer as int;
    let lo = c.offsets@[d] as int;
    let hi = c.offsets@[d + 1] as int;
    lemma_stored_ascends(columns, n, c.offsets@, c.indices@, c.counts@);
    lemma_offsets_ordered(c.offsets@, d + 1, n);
    assert(lo + columns[d].len() == hi);
    assert forall|k: int| 0 <= k < columns[d].len() implies #[trigger] c.indices@[lo + k]
        == columns[d][k].0 && c.counts@[lo + k] == columns[d][k].1 by {
        assert(c.indices@.subrange(lo, hi)[k] == rows_of(columns[d])[k]);
        assert(c.counts@.subrange(lo, hi)[k] == counts_of(columns[d])[k]);
    }
    assert(c.column(d) =~= columns[d]);
}

/// Columns stored in a run make a sound layout with positive counts.
proof fn lemma_stored_sound(matrix: TermCounts, c: Compressed)
    requires
        matrix.wf(),
        c.n_outer == matrix.columns@.len(),
        c.n_inner == matrix.n_terms,
        stored(entries_of(matrix.columns@), c.n_outer as int, c.offsets@, c.indices@, c.counts@),
    ensures
        c.wf(),
{
    let columns = entries_of(matrix.columns@);
    let n = c.n_outer as int;
    lemma_stored_ascends(columns, n, c.offsets@, c.indices@, c.counts@);
    assert forall|k: int| 0 <= k < c.indices@.len() implies (#[trigger] c.indices@[k])
        < c.n_inner by {
        let d = lemma_place(c.offsets@, k);
        lemma_stored_column(columns, c, d);
        let lo = c.offsets@[d] as int;
        assert(is_column(matrix.columns@[d].entries@, matrix.n_terms as int));
        assert(c.indices@[lo + (k - lo)] == columns[d][k - lo].0);
        assert(columns[d][k - lo].0 < matrix.n_terms);
    }
    assert forall|k: int| 0 <= k < c.counts@.len() implies #[trigger] c.counts@[k] > 0 by {
        let d = lemma_place(c.offsets@, k);
        lemma_stored_column(columns, c, d);
        let lo = c.offsets@[d] as int;
        assert(is_column(matrix.columns@[d].entries@, matrix.n_terms as int));
        assert(c.indices@[lo + (k - lo)] == columns[d][k - lo].0);
        assert(columns[d][k - lo].1 > 0);
    }
    assert forall|d: int| 0 <= d < c.offsets@.len() - 1 implies slice_sorted(
        c.indices@,
        (#[trigger] c.offsets@[d]) as int,
        c.offsets@[d + 1] as int,
    ) by {
        let lo = c.offsets@[d] as int;
        let hi = c.offsets@[d + 1] as int;
        lemma_stored_column(columns, c, d);
        assert(is_column(matrix.columns@[d].entries@, matrix.n_terms as int));
        assert forall|k: int| lo <= k && k + 1 < hi implies (#[trigger] c.indices@[k])
            < c.indices@[k + 1] by {
            assert(c.indices@[lo + (k - lo)] == columns[d][k - lo].0);
            assert(c.indices@[lo + (k + 1 - lo)] == columns[d][k + 1 - lo].0);
            assert(columns[d][k - lo].0 < columns[d][k + 1 - lo].0);
        }
    }
}

/// Every place of the run lies in some column.
proof fn lemma_place(offsets: Seq<usize>, k: int) -> (d: int)
    requires
        offsets.len() >= 1,
        offsets_ascend(offsets),
        offsets[0] == 0,
        0 <= k < offsets[offsets.len() - 1],
    ensures
        0 <= d < offsets.len() - 1,
        offsets[d] <= k < offsets[d + 1],
    decreases offsets.len(),
{
    let n = offsets.len() - 1;
    if offsets[n - 1] <= k {
        n - 1
    } else {
        let front = offsets.drop_last();
        assert forall|i: int| 0 <= i < front.len() - 1 implies (#[trigger] front[i]) <= front[i
            + 1] by {
            assert(offsets[i] <= offsets[i + 1]);
        }
        lemma_place(front, k)
    }
}

/// Assembles the compressed form of a count matrix. The columns are taken
/// in order and each column's entries in ascending row order, so the
/// layout is sound.
pub fn compress(matrix: &TermCounts) -> (c: Compressed)
    requires
        matrix.wf(),
    ensures
        c.wf(),
        c.n_inner == matrix.n_terms,
        c.holds(entries_of(matrix.columns@)),
{
    let n_outer = matrix.columns.len();
    let mut offsets: Vec<usize> = Vec::new();
    let mut indices: Vec<usize> = Vec::new();
    let mut counts: Vec<usize> = Vec::new();
    offsets.push(0);
    let ghost columns = entries_of(matrix.columns@);
    let mut d: usize = 0;
    while d < n_outer
        invariant
            d <= n_outer,
            n_outer == matrix.columns@.len(),
            columns == entries_of(matrix.columns@),
            stored(columns, d as int, offsets@, indices@, counts@),
        decreases n_outer - d,
    {
        let ghost old_offsets = offsets@;
        let ghost old_indices = indices@;
        let ghost old_counts = counts@;
        append_column(&mut indices, &mut counts, &matrix.columns[d].entries);
        offsets.push(indices.len());
        proof {
            assert(columns[d as int] == matrix.columns@[d as int].entries@);
            lemma_stored_next(columns, d as int, old_offsets, old_indices, old_counts);
        }
        d += 1;
    }
    let c = Compressed { n_outer, n_inner: matrix.n_terms, offsets, indices, counts };
    proof {
        lemma_stored_sound(*matrix, c);
        assert forall|d: int| 0 <= d < columns.len() implies #[trigger] c.column(d)
            == columns[d] by {
            lemma_stored_column(columns, c, d);
        }
    }
    c
}

/// Tells whether every count is positive.
fn all_positive(counts: &Vec<usize>) -> (ok: bool)
    ensures
        ok == forall|k: int| 0 <= k < counts@.len() ==> #[trigger] counts@[k] > 0,
{
    let mut k: usize = 0;
    while k < counts.len()
        invariant
            k <= counts@.len(),
            forall|j: int| 0 <= j < k ==> #[trigger] counts@[j] > 0,
        decreases counts@.len() - k,
    {
        if counts[k] == 0 {
            return false;
        }
        k += 1;
    }
    true
}

/// What a vector of columns holds.
pub open spec fn columns_view(columns: Seq<Vec<(usize, usize)>>) -> Seq<Seq<(usize, usize)>> {
    columns.map_values(|c: Vec<(usize, usize)>| c@)
}

/// Reads the columns back from a compressed form, after checking it. A
/// form that is not well formed is a corrupt header.
pub fn expand(c: &Compressed) -> (r: Result<Vec<Vec<(usize, usize)>>, PersistenceError>)
    ensures
        c.wf() ==> r is Ok && c.holds(columns_view(r->Ok_0@)) && forall|d: int|
            0 <= d < c.n_outer ==> is_column(#[trigger] columns_view(r->Ok_0@)[d], c.n_inner as int),
        !c.wf() ==> r == Err::<Vec<Vec<(usize, usize)>>, PersistenceError>(
            PersistenceError::CorruptHeader,
        ),
{
    match check_layout(c.n_outer, c.n_inner, &c.offsets, &c.indices, c.counts.len()) {
        Err(e) => {
            return Err(e);
        },
        Ok(_) => {},
    }
    if !all_positive(&c.counts) {
        return Err(PersistenceError::CorruptHeader);
    }
    let mut columns: Vec<Vec<(usize, usize)>> = Vec::new();
    let mut d: usize = 0;
    while d < c.n_outer
        invariant
            d <= c.n_outer,
            c.wf(),
            columns@.len() == d,
            forall|e: int| 0 <= e < d ==> #[trigger] columns_view(columns@)[e] == c.column(e),
        decreases c.n_outer - d,
    {
        let start = c.offsets[d];
        let end = c.offsets[d + 1];
        proof {
            lemma_offsets_ordered(c.offsets@, d + 1, c.n_outer as int);
        }
        let mut column: Vec<(usize, usize)> = Vec::new();
        let mut k: usize = start;
        while k < end
            invariant
                start <= k <= end,
                end <= c.indices@.len(),
                c.indices@.len() == c.counts@.len(),
                column@.len() == k - start,
                forall|j: int|
                    0 <= j < k - start ==> #[trigger] column@[j] == (
                        c.indices@[start + j],
                        c.counts@[start + j],
                    ),
            decreases end - k,
        {
            column.push((c.indices[k], c.counts[k]));
            k += 1;
        }
        assert(column@ =~= c.column(d as int));
        let ghost before = columns@;
        columns.push(column);
        proof {
            assert forall|e: int| 0 <= e < d + 1 implies #[trigger] columns_view(columns@)[e]
                == c.column(e) by {
                if e < d {
                    assert(columns_view(before)[e] == c.column(e));
                    assert(columns@[e] == before[e]);
                }
            }
        }
        d += 1;
    }
    proof {
        assert forall|d: int| 0 <= d < c.n_outer implies is_column(
            #[trigger] columns_view(columns@)[d],
            c.n_inner as int,
        ) by {
            lemma_column_of_sound(*c, d);
        }
    }
    Ok(columns)
}

/// A column of a well-formed compressed form is a sparse column.
pub proof fn lemma_column_of_sound(c: Compressed, d: int)
    requires
        c.wf(),
        0 <= d < c.n_outer,
    ensures
        is_column(c.column(d), c.n_inner as int),
{
    let lo = c.offsets@[d] as int;
    let hi = c.offsets@[d + 1] as int;
    let col = c.column(d);
    lemma_offsets_ordered(c.offsets@, d + 1, c.n_outer as int);
    assert(slice_sorted(c.indices@, lo, hi));
    assert forall|j: int, k: int| 0 <= j < k < col.len() implies (#[trigger] col[j]).0 < (
    #[trigger] col[k]).0 by {
        lemma_slice_ordered(c.indices@, lo, hi, lo + j, lo + k);
    }
}

/// In a sorted slice an earlier index is below a later one.
proof fn lemma_slice_ordered(indices: Seq<usize>, lo: int, hi: int, j: int, k: int)
    requires
        slice_sorted(indices, lo, hi),
        lo <= j < k < hi,
    ensures
        indices[j] < indices[k],
    decreases k - j,
{
    if j + 1 < k {
        lemma_slice_ordered(indices, lo, hi, j + 1, k);
    }
}

/// A compressed form holds one sequence of columns only: what was
/// compressed is what is read back.
pub proof fn lemma_compressed_round_trip(
    c: Compressed,
    written: Seq<Seq<(usize, usize)>>,
    read: Seq<Seq<(usize, usize)>>,
)
    requires
        c.holds(written),
        c.holds(read),
    ensures
        read == written,
{
    assert forall|d: int| 0 <= d < written.len() implies read[d] == written[d] by {
        assert(c.column(d) == written[d]);
        assert(c.column(d) == read[d]);
    }
    assert(read =~= written);
}


/// A copy of a column's entries.
fn copy_entries(entries: &Vec<(usize, usize)>) -> (copy: Vec<(usize, usize)>)
    ensures
        copy@ == entries@,
{
    let mut copy: Vec<(usize, usize)> = Vec::new();
    let mut k: usize = 0;
    while k < entries.len()
        invariant
            k <= entries@.len(),
            copy@ == entries@.take(k as int),
        decreases entries@.len() - k,
    {
        copy.push(entries[k]);
        assert(copy@ =~= entries@.take(k + 1));
        k += 1;
    }
    assert(entries@.take(k as int) =~= entries@);
    copy
}

/// Whether `matrix` is the count matrix that a compressed form and the
/// totals stored with it stand for.
pub open spec fn restores(matrix: TermCounts, c: Compressed, totals: Seq<usize>) -> bool {
    &&& matrix.wf()
    &&& matrix.n_terms == c.n_inner
    &&& c.holds(entries_of(matrix.columns@))
    &&& totals.len() == matrix.columns@.len()
    &&& forall|d: int| 0 <= d < totals.len() ==> (#[trigger] matrix.columns@[d]).total == totals[d]
}

/// Restores a count matrix from its compressed form and the total of each
/// column. The form is checked first; the document frequencies are counted
/// anew. A form that is not well formed, or totals that are not one to a
/// column, are a corrupt header.
pub fn restore_counts(c: &Compressed, totals: &Vec<usize>) -> (r: Result<
    TermCounts,
    PersistenceError,
>)
    ensures
        c.wf() && totals@.len() == c.n_outer ==> r is Ok && restores(r->Ok_0, *c, totals@),
        !(c.wf() && totals@.len() == c.n_outer) ==> r is Err && r->Err_0
            == PersistenceError::CorruptHeader,
{
    if totals.len() != c.n_outer {
        return Err(PersistenceError::CorruptHeader);
    }
    let entries = match expand(c) {
        Err(e) => {
            return Err(e);
        },
        Ok(entries) => entries,
    };
    let mut df: Vec<usize> = Vec::new();
    let mut row: usize = 0;
    while row < c.n_inner
        invariant
            row <= c.n_inner,
            df@.len() == row,
            forall|r: int| 0 <= r < row ==> #[trigger] df@[r] == 0,
        decreases c.n_inner - row,
    {
        df.push(0);
        row += 1;
    }
    let mut columns: Vec<TermColumn> = Vec::new();
    let mut d: usize = 0;
    while d < c.n_outer
        invariant
            d <= c.n_outer,
            c.holds(columns_view(entries@)),
            totals@.len() == c.n_outer,
            entries@.len() == c.n_outer,
            forall|e: int|
                0 <= e < c.n_outer ==> is_column(
                    #[trigger] columns_view(entries@)[e],
                    c.n_inner as int,
                ),
            df@.len() == c.n_inner,
            columns@.len() == d,
            forall|e: int|
                0 <= e < d ==> (#[trigger] columns@[e]).entries@ == c.column(e) && columns@[e].total
                    == totals@[e],
            forall|r: int| 0 <= r < c.n_inner ==> #[trigger] df@[r] == documents_with(columns@, r),
        decreases c.n_outer - d,
    {
        let ghost before = columns@;
        let column = TermColumn { entries: copy_entries(&entries[d]), total: totals[d] };
        proof {
            assert(columns_view(entries@)[d as int] == entries@[d as int]@);
            assert(column.entries@ =~= entries@[d as int]@);
            assert(c.column(d as int) == columns_view(entries@)[d as int]);
        }
        add_to_frequencies(&mut df, &column, Ghost(before));
        columns.push(column);
        proof {
            assert forall|e: int| 0 <= e < d + 1 implies (#[trigger] columns@[e]).entries@
                == c.column(e) && columns@[e].total == totals@[e] by {
                if e < d {
                    assert(columns@[e] == before[e]);
                }
            }
        }
        d += 1;
    }
    let matrix = TermCounts { n_terms: c.n_inner, columns, df };
    proof {
        assert forall|e: int| 0 <= e < matrix.columns@.len() implies is_column(
            (#[trigger] matrix.columns@[e]).entries@,
            matrix.n_terms as int,
        ) by {
            assert(is_column(columns_view(entries@)[e], c.n_inner as int));
            assert(c.column(e) == columns_view(entries@)[e]);
        }
        assert forall|e: int| 0 <= e < entries_of(matrix.columns@).len() implies #[trigger] c.column(
            e,
        ) == entries_of(matrix.columns@)[e] by {
            assert(matrix.columns@[e].entries@ == c.column(e));
        }
    }
    Ok(matrix)
}

/// Saved and loaded again, a count matrix is what it was: the matrix
/// restored from the compressed form of a matrix and from its totals has
/// the same entries, the same totals and the same document frequencies.
pub proof fn lemma_counts_round_trip(
    saved: TermCounts,
    c: Compressed,
    totals: Seq<usize>,
    loaded: TermCounts,
)
    requires
        saved.wf(),
        c.n_inner == saved.n_terms,
        c.holds(entries_of(saved.columns@)),
        totals.len() == saved.columns@.len(),
        forall|d: int| 0 <= d < totals.len() ==> totals[d] == (#[trigger] saved.columns@[d]).total,
        restores(loaded, c, totals),
    ensures
        loaded.n_terms == saved.n_terms,
        loaded.df@ == saved.df@,
        loaded.columns@.len() == saved.columns@.len(),
        forall|d: int|
            0 <= d < saved.columns@.len() ==> (#[trigger] loaded.columns@[d]).entries@
                == saved.columns@[d].entries@ && loaded.columns@[d].total
                == saved.columns@[d].total,
{
    lemma_compressed_round_trip(c, entries_of(saved.columns@), entries_of(loaded.columns@));
    assert forall|d: int| 0 <= d < saved.columns@.len() implies (
    #[trigger] loaded.columns@[d]).entries@ == saved.columns@[d].entries@
        && loaded.columns@[d].total == saved.columns@[d].total by {
        assert(entries_of(loaded.columns@)[d] == entries_of(saved.columns@)[d]);
        assert(totals[d] == saved.columns@[d].total);
    }
    assert forall|row: int| 0 <= row < saved.n_terms implies loaded.df@[row] == saved.df@[row] by {
        lemma_frequency_of_entries(loaded.columns@, saved.columns@, row);
    }
    assert(loaded.df@ =~= saved.df@);
}

} // verus!
