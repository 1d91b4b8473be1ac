//! Tables: an ordered collection of independently-kinded columns sharing one
//! row count, plus a header label list.
//!
//! All transformations return fresh tables (or extend the receiver in place)
//! and never alias columns between tables. Every table maintains the
//! invariant that all columns report the same length; constructors and
//! mutators reject inputs that would break it.

use vstd::prelude::*;

use crate::DataError;
use crate::column::{Column, cells_of_kind, cells_wf};
use crate::value::{Kind, Value, ValueView, kind_of, value_wf};

verus! {

/// The smaller of two integers.
pub open spec fn min_int(a: int, b: int) -> int {
    if a <= b {
        a
    } else {
        b
    }
}

/// The positions marked true, in increasing order.
pub open spec fn selected(keep: Seq<bool>) -> Seq<int>
    decreases keep.len(),
{
    if keep.len() == 0 {
        Seq::empty()
    } else {
        let p = selected(keep.drop_last());
        if keep.last() {
            p.push(keep.len() - 1)
        } else {
            p
        }
    }
}

/// The cells at the positions a mask marks true, in their original order.
pub open spec fn select_cells(col: Seq<ValueView>, keep: Seq<bool>) -> Seq<ValueView> {
    Seq::new(selected(keep).len(), |i: int| col[selected(keep)[i]])
}

/// Selected positions lie within the mask and are marked true.
pub proof fn lemma_selected_bounds(keep: Seq<bool>)
    ensures
        forall|p: int|
            0 <= p < selected(keep).len() ==> 0 <= #[trigger] selected(keep)[p] < keep.len()
                && keep[selected(keep)[p]],
    decreases keep.len(),
{
    if keep.len() > 0 {
        lemma_selected_bounds(keep.drop_last());
        assert(forall|p: int|
            0 <= p < selected(keep.drop_last()).len() ==> keep[#[trigger] selected(
                keep.drop_last(),
            )[p]] == keep.drop_last()[selected(keep.drop_last())[p]]);
    }
}

/// The mathematical model of a table: header labels, column kinds, and the
/// cells of each column.
#[verifier::ext_equal]
pub struct TableView {
    pub header: Seq<Seq<char>>,
    pub kinds: Seq<Kind>,
    pub cols: Seq<Seq<ValueView>>,
}

impl TableView {
    /// The common row count.
    pub open spec fn nrows(self) -> nat {
        if self.cols.len() == 0 {
            0
        } else {
            self.cols[0].len()
        }
    }

    /// A well-formed table model: one kind per column, kind-homogeneous
    /// columns of one shared length, well-formed cells, and a header that is
    /// either absent or exactly one label per column.
    pub open spec fn wf(self) -> bool {
        &&& self.kinds.len() == self.cols.len()
        &&& (forall|j: int|
            0 <= j < self.cols.len() ==> (#[trigger] self.cols[j]).len() == self.nrows())
        &&& (forall|j: int|
            0 <= j < self.cols.len() ==> cells_of_kind(#[trigger] self.cols[j], self.kinds[j]))
        &&& (forall|j: int| 0 <= j < self.cols.len() ==> cells_wf(#[trigger] self.cols[j]))
        &&& (self.header.len() == 0 || self.header.len() == self.cols.len())
    }
}

/// One tabular dataset: columns of independently chosen kinds and a header.
#[derive(Clone, Debug)]
pub struct Table {
    /// The header labels, verbatim as set.
    pub header: Vec<String>,
    /// The columns, in order.
    pub cols: Vec<Column>,
}

impl View for Table {
    type V = TableView;

    open spec fn view(&self) -> TableView {
        TableView {
            header: Seq::new(self.header@.len(), |i: int| self.header@[i]@),
            kinds: Seq::new(self.cols@.len(), |j: int| self.cols@[j].kind_spec()),
            cols: Seq::new(self.cols@.len(), |j: int| self.cols@[j]@),
        }
    }
}

impl Table {
    /// The well-formedness invariant, over the concrete representation.
    pub open spec fn wf(&self) -> bool {
        &&& (forall|j: int| 0 <= j < self.cols@.len() ==> (#[trigger] self.cols@[j]).wf())
        &&& (forall|j: int|
            0 <= j < self.cols@.len() ==> (#[trigger] self.cols@[j])@.len() == self@.nrows())
        &&& (self.header@.len() == 0 || self.header@.len() == self.cols@.len())
    }

    /// A well-formed table has a well-formed model.
    pub proof fn lemma_view_wf(&self)
        requires
            self.wf(),
        ensures
            self@.wf(),
    {
        assert forall|j: int| 0 <= j < self@.cols.len() implies cells_of_kind(
            #[trigger] self@.cols[j],
            self@.kinds[j],
        ) by {
            self.cols@[j].lemma_cells_kind();
        }
    }

    /// An empty table with the given column kinds and no header.
    pub fn new(kinds: Vec<Kind>) -> (r: Table)
        ensures
            r.wf(),
            r@.kinds == kinds@,
            r@.nrows() == 0,
            r@.header.len() == 0,
            r@.cols == Seq::new(kinds@.len(), |j: int| Seq::<ValueView>::empty()),
    {
        let mut cols: Vec<Column> = Vec::new();
        let mut j: usize = 0;
        while j < kinds.len()
            invariant
                j <= kinds@.len(),
                cols@.len() == j,
                forall|k: int|
                    0 <= k < j ==> (#[trigger] cols@[k]).kind_spec() == kinds@[k]
                        && cols@[k]@ == Seq::<ValueView>::empty() && cols@[k].wf(),
            decreases kinds@.len() - j,
        {
            cols.push(Column::empty_of(kinds[j]));
            j = j + 1;
        }
        let r = Table { header: Vec::new(), cols };
        proof {
            assert(r@.kinds =~= kinds@);
            assert(r@.cols =~= Seq::new(kinds@.len(), |j: int| Seq::<ValueView>::empty()));
        }
        r
    }

    /// Assembles a table from already-built columns; the header starts empty.
    /// Rejects the list if the columns do not all have the same length.
    pub fn from_cols(cols: Vec<Column>) -> (r: Result<Table, DataError>)
        requires
            forall|j: int| 0 <= j < cols@.len() ==> (#[trigger] cols@[j]).wf(),
        ensures
            r is Ok <==> (forall|j: int|
                0 <= j < cols@.len() ==> (#[trigger] cols@[j])@.len() == (if cols@.len() == 0 {
                    0int
                } else {
                    cols@[0]@.len() as int
                })),
            r is Ok ==> {
                let t = r->Ok_0;
                &&& t.wf()
                &&& t@.header.len() == 0
                &&& t@.cols == Seq::new(cols@.len(), |j: int| cols@[j]@)
                &&& t@.kinds == Seq::new(cols@.len(), |j: int| cols@[j].kind_spec())
                &&& t@.nrows() as int == (if cols@.len() == 0 {
                    0int
                } else {
                    cols@[0]@.len() as int
                })
            },
            r is Err ==> r == Err::<Table, DataError>(DataError::ArityMismatch),
    {
        if cols.len() > 0 {
            let rows = cols[0].len();
            let mut j: usize = 1;
            while j < cols.len()
                invariant
                    1 <= j <= cols@.len(),
                    rows == cols@[0]@.len(),
                    forall|k: int| 0 <= k < j ==> (#[trigger] cols@[k])@.len() == rows,
                decreases cols@.len() - j,
            {
                if cols[j].len() != rows {
                    return Err(DataError::ArityMismatch);
                }
                j = j + 1;
            }
        }
        let r = Table { header: Vec::new(), cols };
        proof {
            assert(r@.cols =~= Seq::new(r.cols@.len(), |j: int| r.cols@[j]@));
        }
        Ok(r)
    }

    /// Stores the given labels as the header; rejects a label list whose
    /// length is not exactly one label per column.
    pub fn set_header(&mut self, labels: Vec<&str>) -> (r: Result<(), DataError>)
        ensures
            r is Ok <==> labels@.len() == old(self)@.cols.len(),
            r is Ok ==> final(self)@ == (TableView {
                header: Seq::new(labels@.len(), |i: int| labels@[i]@),
                ..old(self)@
            }),
            r is Err ==> *final(self) == *old(self) && r == Err::<(), DataError>(
                DataError::ArityMismatch,
            ),
            old(self).wf() ==> final(self).wf(),
    {
        if labels.len() != self.cols.len() {
            return Err(DataError::ArityMismatch);
        }
        let mut header: Vec<String> = Vec::new();
        let mut i: usize = 0;
        while i < labels.len()
            invariant
                i <= labels@.len(),
                header@.len() == i,
                forall|k: int| 0 <= k < i ==> (#[trigger] header@[k])@ == labels@[k]@,
            decreases labels@.len() - i,
        {
            header.push(labels[i].to_owned());
            i = i + 1;
        }
        self.header = header;
        proof {
            assert(self@.header =~= Seq::new(labels@.len(), |i: int| labels@[i]@));
            assert(self@ =~= (TableView {
                header: Seq::new(labels@.len(), |i: int| labels@[i]@),
                ..old(self)@
            }));
        }
        Ok(())
    }

    /// The current header labels.
    pub fn header(&self) -> (r: &Vec<String>)
        ensures
            r@.len() == self@.header.len(),
            forall|i: int| 0 <= i < r@.len() ==> (#[trigger] r@[i])@ == self@.header[i],
    {
        &self.header
    }

    /// The column at a position.
    pub fn col(&self, j: usize) -> (r: &Column)
        requires
            j < self@.cols.len(),
        ensures
            r@ == self@.cols[j as int],
            r.kind_spec() == self@.kinds[j as int],
            self.wf() ==> r.wf(),
    {
        &self.cols[j]
    }

    /// The shared row count.
    pub fn nrows(&self) -> (r: usize)
        ensures
            r == self@.nrows(),
    {
        if self.cols.len() == 0 {
            0
        } else {
            self.cols[0].len()
        }
    }

    /// The column count.
    pub fn ncols(&self) -> (r: usize)
        ensures
            r == self@.cols.len(),
    {
        self.cols.len()
    }

    /// Row and column count.
    pub fn shape(&self) -> (r: (usize, usize))
        ensures
            r.0 == self@.nrows(),
            r.1 == self@.cols.len(),
    {
        (self.nrows(), self.ncols())
    }

    /// The row count.
    pub fn len(&self) -> (r: usize)
        ensures
            r == self@.nrows(),
    {
        self.nrows()
    }

    /// Whether the table has no rows.
    pub fn is_empty(&self) -> (r: bool)
        ensures
            r == (self@.nrows() == 0),
    {
        self.nrows() == 0
    }

    /// Replaces the column at a position with one of the same kind and
    /// length.
    pub fn replace_col(&mut self, j: usize, c: Column) -> (r: Result<(), DataError>)
        requires
            c.wf(),
        ensures
            r is Ok <==> j < old(self)@.cols.len() && c.kind_spec() == old(self)@.kinds[j as int]
                && c@.len() == old(self)@.nrows(),
            r is Ok ==> final(self)@ == (TableView {
                cols: old(self)@.cols.update(j as int, c@),
                ..old(self)@
            }),
            r is Err ==> *final(self) == *old(self),
            j >= old(self)@.cols.len() ==> r == Err::<(), DataError>(DataError::OutOfRange),
            old(self).wf() ==> final(self).wf(),
    {
        if j >= self.cols.len() {
            return Err(DataError::OutOfRange);
        }
        if !crate::column::kind_eq(c.kind(), self.cols[j].kind()) {
            return Err(DataError::ArityMismatch);
        }
        if c.len() != self.nrows() {
            return Err(DataError::ArityMismatch);
        }
        self.cols.set(j, c);
        proof {
            assert(self@.cols =~= old(self)@.cols.update(j as int, c@));
            assert(self@.kinds =~= old(self)@.kinds);
            assert(self@ =~= (TableView {
                cols: old(self)@.cols.update(j as int, c@),
                ..old(self)@
            }));
        }
        Ok(())
    }

    /// A new table with the first `min(n, nrows)` rows and the same header.
    pub fn head(&self, n: usize) -> (r: Table)
        requires
            self.wf(),
        ensures
            r.wf(),
            r@.header == self@.header,
            r@.kinds == self@.kinds,
            r@.cols == Seq::new(
                self@.cols.len(),
                |j: int| self@.cols[j].take(min_int(n as int, self@.nrows() as int)),
            ),
            r@.nrows() as int == min_int(n as int, self@.nrows() as int),
    {
        let rows = self.nrows();
        let take = if n < rows {
            n
        } else {
            rows
        };
        self.slice_core(0, take)
    }

    /// A new table with the last `min(n, nrows)` rows and the same header.
    pub fn tail(&self, n: usize) -> (r: Table)
        requires
            self.wf(),
        ensures
            r.wf(),
            r@.header == self@.header,
            r@.kinds == self@.kinds,
            r@.cols == Seq::new(
                self@.cols.len(),
                |j: int|
                    self@.cols[j].skip(
                        self@.nrows() as int - min_int(n as int, self@.nrows() as int),
                    ),
            ),
            r@.nrows() as int == min_int(n as int, self@.nrows() as int),
    {
        let rows = self.nrows();
        let take = if n < rows {
            n
        } else {
            rows
        };
        let start = rows - take;
        let r = self.slice_core(start, rows);
        proof {
            assert(r@.cols =~= Seq::new(
                self@.cols.len(),
                |j: int|
                    self@.cols[j].skip(
                        self@.nrows() as int - min_int(n as int, self@.nrows() as int),
                    ),
            ));
        }
        r
    }

    /// A new table with the rows `[start, end)`, where `end` is first clamped
    /// to the row count; rejects a start beyond the clamped end.
    pub fn slice(&self, start: usize, end: usize) -> (r: Result<Table, DataError>)
        requires
            self.wf(),
        ensures
            r is Ok <==> start as int <= min_int(end as int, self@.nrows() as int),
            r is Err ==> r == Err::<Table, DataError>(DataError::OutOfRange),
            r is Ok ==> {
                let t = r->Ok_0;
                &&& t.wf()
                &&& t@.header == self@.header
                &&& t@.kinds == self@.kinds
                &&& t@.cols == Seq::new(
                    self@.cols.len(),
                    |j: int|
                        self@.cols[j].subrange(
                            start as int,
                            min_int(end as int, self@.nrows() as int),
                        ),
                )
                &&& t@.nrows() as int == min_int(end as int, self@.nrows() as int) - start as int
            },
    {
        let rows = self.nrows();
        let e = if end < rows {
            end
        } else {
            rows
        };
        if start > e {
            return Err(DataError::OutOfRange);
        }
        Ok(self.slice_core(start, e))
    }

    /// A new table with the rows `[a, b)` of this table and the same header.
    fn slice_core(&self, a: usize, b: usize) -> (r: Table)
        requires
            self.wf(),
            a <= b <= self@.nrows(),
        ensures
            r.wf(),
            r@.header == self@.header,
            r@.kinds == self@.kinds,
            r@.cols == Seq::new(self@.cols.len(), |j: int| self@.cols[j].subrange(a as int, b as int)),
            r@.nrows() == b - a,
    {
        let mut cols: Vec<Column> = Vec::new();
        let mut j: usize = 0;
        while j < self.cols.len()
            invariant
                self.wf(),
                a <= b <= self@.nrows(),
                j <= self.cols@.len(),
                cols@.len() == j,
                forall|k: int|
                    0 <= k < j ==> (#[trigger] cols@[k])@ == self@.cols[k].subrange(
                        a as int,
                        b as int,
                    ) && cols@[k].kind_spec() == self@.kinds[k] && cols@[k].wf(),
            decreases self.cols@.len() - j,
        {
            cols.push(self.cols[j].slice_rows(a, b));
            j = j + 1;
        }
        let r = Table { header: crate::column::copy_strings(&self.header), cols };
        proof {
            assert(r@.header =~= self@.header);
            assert(r@.kinds =~= self@.kinds);
            assert(r@.cols =~= Seq::new(
                self@.cols.len(),
                |j: int| self@.cols[j].subrange(a as int, b as int),
            ));
        }
        r
    }

    /// A new table keeping, for every column alike, exactly the rows whose
    /// position the mask marks true, in their original order, with the same
    /// header; rejects a mask whose length is not the row count. This is
    /// the deterministic core of filtering: the result's row count is the
    /// number of positions marked true, and every column is this table's
    /// column restricted to those positions.
    pub fn filter_mask(&self, keep: &Vec<bool>) -> (r: Result<Table, DataError>)
        requires
            self.wf(),
        ensures
            r is Ok <==> keep@.len() == self@.nrows(),
            r is Err ==> r == Err::<Table, DataError>(DataError::ArityMismatch),
            r is Ok ==> {
                let t = r->Ok_0;
                &&& t.wf()
                &&& t@.header == self@.header
                &&& t@.kinds == self@.kinds
                &&& t@.cols == Seq::new(
                    self@.cols.len(),
                    |j: int| select_cells(self@.cols[j], keep@),
                )
                &&& t@.nrows() == (if self@.cols.len() == 0 {
                    0int
                } else {
                    selected(keep@).len() as int
                })
            },
    {
        let rows = self.nrows();
        if keep.len() != rows {
            return Err(DataError::ArityMismatch);
        }
        let mut idx: Vec<usize> = Vec::new();
        let mut i: usize = 0;
        while i < rows
            invariant
                self.wf(),
                rows == self@.nrows(),
                keep@.len() == rows,
                i <= rows,
                idx@.len() == selected(keep@.take(i as int)).len(),
                forall|p: int|
                    0 <= p < idx@.len() ==> #[trigger] idx@[p] as int == selected(
                        keep@.take(i as int),
                    )[p],
                forall|p: int| 0 <= p < idx@.len() ==> #[trigger] idx@[p] < rows,
            decreases rows - i,
        {
            let b = keep[i];
            proof {
                assert(keep@.take(i + 1).drop_last() =~= keep@.take(i as int));
                assert(keep@.take(i + 1).last() == b);
            }
            if b {
                idx.push(i);
            }
            i = i + 1;
        }
        proof {
            assert(keep@.take(rows as int) =~= keep@);
        }
        let res = self.reindex(&idx);
        let r = match res {
            Ok(t) => t,
            Err(_) => {
                proof {
                    assert(false);
                }
                return Err(DataError::ArityMismatch);
            },
        };
        proof {
            lemma_selected_bounds(keep@);
            assert(r@.cols =~= Seq::new(
                self@.cols.len(),
                |j: int| select_cells(self@.cols[j], keep@),
            )) by {
                assert forall|j: int| 0 <= j < self@.cols.len() implies Seq::new(
                    idx@.len(),
                    |i: int| self@.cols[j][idx@[i] as int],
                ) =~= select_cells(self@.cols[j], keep@) by {}
            }
        }
        Ok(r)
    }

    /// A new table keeping, for every column alike, exactly the rows whose
    /// index satisfies the predicate, in their original order, with the same
    /// header. The predicate is evaluated once per row index, in increasing
    /// order; its verdicts form the mask `keep` handed to
    /// [`Table::filter_mask`], which does the selection.
    pub fn filter<F: Fn(usize) -> bool>(&self, pred: F) -> (r: Table)
        requires
            self.wf(),
            forall|i: usize| i < self@.nrows() ==> #[trigger] pred.requires((i,)),
        ensures
            r.wf(),
            r@.header == self@.header,
            r@.kinds == self@.kinds,
            exists|keep: Seq<bool>|
                {
                    &&& #[trigger] keep.len() == self@.nrows()
                    &&& (forall|i: int|
                        0 <= i < keep.len() ==> pred.ensures((i as usize,), #[trigger] keep[i]))
                    &&& r@.cols == Seq::new(
                        self@.cols.len(),
                        |j: int| select_cells(self@.cols[j], keep),
                    )
                    &&& r@.nrows() == (if self@.cols.len() == 0 {
                        0int
                    } else {
                        selected(keep).len() as int
                    })
                },
    {
        let rows = self.nrows();
        let mut mask: Vec<bool> = Vec::new();
        let mut i: usize = 0;
        while i < rows
            invariant
                self.wf(),
                rows == self@.nrows(),
                forall|k: usize| k < self@.nrows() ==> #[trigger] pred.requires((k,)),
                i <= rows,
                mask@.len() == i,
                forall|k: int| 0 <= k < i ==> pred.ensures((k as usize,), #[trigger] mask@[k]),
            decreases rows - i,
        {
            let b = pred(i);
            mask.push(b);
            i = i + 1;
        }
        let res = self.filter_mask(&mask);
        let r = match res {
            Ok(t) => t,
            Err(_) => {
                proof {
                    assert(false);
                }
                Table { header: Vec::new(), cols: Vec::new() }
            },
        };
        proof {
            let keep = mask@;
            assert(keep.len() == self@.nrows());
        }
        r
    }

    /// Appends one value to every column at the matching position; rejects a
    /// row whose width or element kinds do not match the table.
    pub fn push_row(&mut self, row: Vec<Value>) -> (r: Result<(), DataError>)
        requires
            old(self).wf(),
        ensures
            r is Ok <==> row@.len() == old(self)@.cols.len() && (forall|j: int|
                0 <= j < row@.len() ==> kind_of((#[trigger] row@[j])@) == old(self)@.kinds[j]
                    && value_wf(row@[j]@)),
            r is Ok ==> final(self)@ == (TableView {
                cols: Seq::new(
                    old(self)@.cols.len(),
                    |j: int| old(self)@.cols[j].push(row@[j]@),
                ),
                ..old(self)@
            }),
            r is Err ==> *final(self) == *old(self) && r == Err::<(), DataError>(
                DataError::ArityMismatch,
            ),
            final(self).wf(),
    {
        if row.len() != self.cols.len() {
            return Err(DataError::ArityMismatch);
        }
        let mut j: usize = 0;
        while j < row.len()
            invariant
                old(self).wf(),
                self == old(self),
                row@.len() == self.cols@.len(),
                j <= row@.len(),
                forall|k: int|
                    0 <= k < j ==> kind_of((#[trigger] row@[k])@) == self@.kinds[k] && value_wf(
                        row@[k]@,
                    ),
            decreases row@.len() - j,
        {
            if !crate::column::kind_eq(row[j].kind(), self.cols[j].kind()) {
                return Err(DataError::ArityMismatch);
            }
            if !row[j].check_wf() {
                return Err(DataError::ArityMismatch);
            }
            j = j + 1;
        }
        let n = self.cols.len();
        let mut j: usize = 0;
        while j < n
            invariant
                n == old(self).cols@.len(),
                row@.len() == n as int,
                j <= n,
                old(self).wf(),
                forall|k: int|
                    0 <= k < n ==> kind_of((#[trigger] row@[k])@) == old(self)@.kinds[k]
                        && value_wf(row@[k]@),
                self.header == old(self).header,
                self.cols@.len() == n,
                forall|k: int|
                    j <= k < n ==> #[trigger] self.cols@[k] == old(self).cols@[k],
                forall|k: int|
                    0 <= k < j ==> (#[trigger] self.cols@[k])@ == old(self).cols@[k]@.push(
                        row@[k]@,
                    ) && self.cols@[k].kind_spec() == old(self).cols@[k].kind_spec()
                        && self.cols@[k].wf(),
            decreases n - j,
        {
            let v = row[j].duplicate();
            let mut tmp = Column::Int(Vec::new());
            self.cols.set_and_swap(j, &mut tmp);
            let res = tmp.push(v);
            proof {
                assert(res is Ok);
            }
            self.cols.set(j, tmp);
            j = j + 1;
        }
        proof {
            assert(self@ =~= (TableView {
                cols: Seq::new(
                    old(self)@.cols.len(),
                    |j: int| old(self)@.cols[j].push(row@[j]@),
                ),
                ..old(self)@
            }));
        }
        Ok(())
    }

    /// Extends every column of this table with every row of another, in
    /// order; rejects a table whose column kinds do not match.
    pub fn append(&mut self, other: &Table) -> (r: Result<(), DataError>)
        requires
            old(self).wf(),
            other.wf(),
        ensures
            r is Ok <==> old(self)@.kinds == other@.kinds,
            r is Ok ==> final(self)@ == (TableView {
                cols: Seq::new(
                    old(self)@.cols.len(),
                    |j: int| old(self)@.cols[j] + other@.cols[j],
                ),
                ..old(self)@
            }),
            r is Err ==> *final(self) == *old(self) && r == Err::<(), DataError>(
                DataError::ArityMismatch,
            ),
            final(self).wf(),
    {
        if !self.kinds_match(other) {
            return Err(DataError::ArityMismatch);
        }
        proof {
            assert(old(self)@.kinds.len() == other@.kinds.len());
            assert(other.cols@.len() == other@.kinds.len());
        }
        let n = self.cols.len();
        let mut j: usize = 0;
        while j < n
            invariant
                n == old(self).cols@.len(),
                j <= n,
                old(self).wf(),
                other.wf(),
                old(self)@.kinds == other@.kinds,
                other.cols@.len() == n,
                self.header == old(self).header,
                self.cols@.len() == n,
                forall|k: int|
                    j <= k < n ==> #[trigger] self.cols@[k] == old(self).cols@[k],
                forall|k: int|
                    0 <= k < j ==> (#[trigger] self.cols@[k])@ == old(self).cols@[k]@
                        + other.cols@[k]@ && self.cols@[k].kind_spec()
                        == old(self).cols@[k].kind_spec() && self.cols@[k].wf(),
            decreases n - j,
        {
            let mut tmp = Column::Int(Vec::new());
            self.cols.set_and_swap(j, &mut tmp);
            let res = tmp.concat_col(&other.cols[j]);
            let merged = match res {
                Ok(c) => c,
                Err(_) => {
                    proof {
                        assert(old(self)@.kinds[j as int] == other@.kinds[j as int]);
                        assert(false);
                    }
                    tmp
                },
            };
            self.cols.set(j, merged);
            j = j + 1;
        }
        proof {
            assert(self@ =~= (TableView {
                cols: Seq::new(
                    old(self)@.cols.len(),
                    |j: int| old(self)@.cols[j] + other@.cols[j],
                ),
                ..old(self)@
            }));
        }
        Ok(())
    }

    /// A new table equal to this one followed by another's rows, leaving both
    /// inputs unchanged; rejects a table whose column kinds do not match.
    pub fn concat(&self, other: &Table) -> (r: Result<Table, DataError>)
        requires
            self.wf(),
            other.wf(),
        ensures
            r is Ok <==> self@.kinds == other@.kinds,
            r is Err ==> r == Err::<Table, DataError>(DataError::ArityMismatch),
            r is Ok ==> {
                let t = r->Ok_0;
                &&& t.wf()
                &&& t@.header == self@.header
                &&& t@.kinds == self@.kinds
                &&& t@.cols == Seq::new(
                    self@.cols.len(),
                    |j: int| self@.cols[j] + other@.cols[j],
                )
            },
    {
        if !self.kinds_match(other) {
            return Err(DataError::ArityMismatch);
        }
        proof {
            assert(self@.kinds.len() == other@.kinds.len());
            assert(other.cols@.len() == other@.kinds.len());
        }
        let n = self.cols.len();
        let mut cols: Vec<Column> = Vec::new();
        let mut j: usize = 0;
        while j < n
            invariant
                n == self.cols@.len(),
                j <= n,
                self.wf(),
                other.wf(),
                self@.kinds == other@.kinds,
                other.cols@.len() == n,
                cols@.len() == j,
                forall|k: int|
                    0 <= k < j ==> (#[trigger] cols@[k])@ == self@.cols[k] + other@.cols[k]
                        && cols@[k].kind_spec() == self@.kinds[k] && cols@[k].wf(),
            decreases n - j,
        {
            let res = self.cols[j].concat_col(&other.cols[j]);
            let merged = match res {
                Ok(c) => c,
                Err(_) => {
                    proof {
                        assert(self@.kinds[j as int] == other@.kinds[j as int]);
                        assert(false);
                    }
                    Column::Int(Vec::new())
                },
            };
            cols.push(merged);
            j = j + 1;
        }
        let r = Table { header: crate::column::copy_strings(&self.header), cols };
        proof {
            assert(r@.header =~= self@.header);
            assert(r@.kinds =~= self@.kinds);
            assert(r@.cols =~= Seq::new(
                self@.cols.len(),
                |j: int| self@.cols[j] + other@.cols[j],
            ));
        }
        Ok(r)
    }

    /// Whether another table has exactly this table's column kinds.
    fn kinds_match(&self, other: &Table) -> (r: bool)
        ensures
            r == (self@.kinds == other@.kinds),
    {
        if self.cols.len() != other.cols.len() {
            proof {
                assert(self@.kinds.len() != other@.kinds.len());
            }
            return false;
        }
        let mut j: usize = 0;
        while j < self.cols.len()
            invariant
                self.cols@.len() == other.cols@.len(),
                j <= self.cols@.len(),
                forall|k: int| 0 <= k < j ==> self@.kinds[k] == other@.kinds[k],
            decreases self.cols@.len() - j,
        {
            if !crate::column::kind_eq(self.cols[j].kind(), other.cols[j].kind()) {
                proof {
                    assert(self@.kinds[j as int] != other@.kinds[j as int]);
                }
                return false;
            }
            j = j + 1;
        }
        proof {
            assert(self@.kinds =~= other@.kinds);
        }
        true
    }

    /// A new table selecting, for every column alike, the rows at the given
    /// positions in the given order; positions may repeat. Rejects any
    /// position at or beyond the row count.
    pub fn reindex(&self, idx: &Vec<usize>) -> (r: Result<Table, DataError>)
        requires
            self.wf(),
        ensures
            r is Ok <==> (forall|i: int| 0 <= i < idx@.len() ==> #[trigger] idx@[i] < self@.nrows()),
            r is Err ==> r == Err::<Table, DataError>(DataError::OutOfRange),
            r is Ok ==> {
                let t = r->Ok_0;
                &&& t.wf()
                &&& t@.header == self@.header
                &&& t@.kinds == self@.kinds
                &&& t@.cols == Seq::new(
                    self@.cols.len(),
                    |j: int| Seq::new(idx@.len(), |i: int| self@.cols[j][idx@[i] as int]),
                )
                &&& t@.nrows() == (if self@.cols.len() == 0 {
                    0nat
                } else {
                    idx@.len()
                })
            },
    {
        let rows = self.nrows();
        let mut i: usize = 0;
        while i < idx.len()
            invariant
                rows == self@.nrows(),
                i <= idx@.len(),
                forall|k: int| 0 <= k < i ==> #[trigger] idx@[k] < rows,
            decreases idx@.len() - i,
        {
            if idx[i] >= rows {
                return Err(DataError::OutOfRange);
            }
            i = i + 1;
        }
        let mut cols: Vec<Column> = Vec::new();
        let mut j: usize = 0;
        while j < self.cols.len()
            invariant
                self.wf(),
                forall|k: int| 0 <= k < idx@.len() ==> #[trigger] idx@[k] < self@.nrows(),
                j <= self.cols@.len(),
                cols@.len() == j,
                forall|k: int|
                    0 <= k < j ==> (#[trigger] cols@[k])@ == Seq::new(
                        idx@.len(),
                        |i: int| self@.cols[k][idx@[i] as int],
                    ) && cols@[k].kind_spec() == self@.kinds[k] && cols@[k].wf(),
            decreases self.cols@.len() - j,
        {
            cols.push(self.cols[j].select_rows(idx));
            j = j + 1;
        }
        let r = Table { header: crate::column::copy_strings(&self.header), cols };
        proof {
            assert(r@.header =~= self@.header);
            assert(r@.kinds =~= self@.kinds);
            assert(r@.cols =~= Seq::new(
                self@.cols.len(),
                |j: int| Seq::new(idx@.len(), |i: int| self@.cols[j][idx@[i] as int]),
            ));
        }
        Ok(r)
    }
}

} // verus!
