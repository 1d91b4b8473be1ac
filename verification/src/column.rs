//! Columns: owned, homogeneous, ordered sequences of one element kind, with
//! indexed access, length, and append.
//!
//! The element kind is chosen at run time, so a column is a tagged union over
//! the supported kinds; every operation checks kinds dynamically and reports
//! a [`DataError::ArityMismatch`] where the kinds do not line up.

use vstd::prelude::*;

use crate::DataError;
use crate::value::{Kind, Value, ValueView, kind_of, value_wf, numeric_text, is_numeric, str_chars};

verus! {

/// One homogeneous column of cells.
#[derive(Clone, Debug, PartialEq)]
pub enum Column {
    Int(Vec<i64>),
    /// Each entry carries numeric text; see [`crate::value::numeric_text`].
    Real(Vec<String>),
    Bool(Vec<bool>),
    Str(Vec<String>),
}

/// Every cell of the sequence is well formed.
pub open spec fn cells_wf(s: Seq<ValueView>) -> bool {
    forall|i: int| 0 <= i < s.len() ==> value_wf(#[trigger] s[i])
}

/// Every cell of the sequence belongs to the kind.
pub open spec fn cells_of_kind(s: Seq<ValueView>, k: Kind) -> bool {
    forall|i: int| 0 <= i < s.len() ==> kind_of(#[trigger] s[i]) == k
}

impl View for Column {
    type V = Seq<ValueView>;

    open spec fn view(&self) -> Seq<ValueView> {
        match self {
            Column::Int(v) => Seq::new(v@.len(), |i: int| ValueView::Int(v@[i])),
            Column::Real(v) => Seq::new(v@.len(), |i: int| ValueView::Real(v@[i]@)),
            Column::Bool(v) => Seq::new(v@.len(), |i: int| ValueView::Bool(v@[i])),
            Column::Str(v) => Seq::new(v@.len(), |i: int| ValueView::Str(v@[i]@)),
        }
    }
}

impl Column {
    /// The element kind of this column.
    pub open spec fn kind_spec(&self) -> Kind {
        match self {
            Column::Int(_) => Kind::Int,
            Column::Real(_) => Kind::Real,
            Column::Bool(_) => Kind::Bool,
            Column::Str(_) => Kind::Str,
        }
    }

    /// A well-formed column: every real cell carries numeric text.
    pub open spec fn wf(&self) -> bool {
        cells_wf(self@)
    }

    /// The integer cells of an integer column.
    pub open spec fn ints(&self) -> Seq<i64> {
        match self {
            Column::Int(v) => v@,
            _ => Seq::empty(),
        }
    }

    /// Every cell belongs to the column's kind.
    pub proof fn lemma_cells_kind(&self)
        ensures
            cells_of_kind(self@, self.kind_spec()),
    {
    }

    /// The element kind of this column.
    pub fn kind(&self) -> (k: Kind)
        ensures
            k == self.kind_spec(),
    {
        match self {
            Column::Int(_) => Kind::Int,
            Column::Real(_) => Kind::Real,
            Column::Bool(_) => Kind::Bool,
            Column::Str(_) => Kind::Str,
        }
    }

    /// An empty column of the given kind.
    pub fn empty_of(k: Kind) -> (r: Column)
        ensures
            r.kind_spec() == k,
            r@ == Seq::<ValueView>::empty(),
            r.wf(),
    {
        let r = match k {
            Kind::Int => Column::Int(Vec::new()),
            Kind::Real => Column::Real(Vec::new()),
            Kind::Bool => Column::Bool(Vec::new()),
            Kind::Str => Column::Str(Vec::new()),
        };
        proof {
            assert(r@ =~= Seq::<ValueView>::empty());
        }
        r
    }

    /// The number of cells.
    pub fn len(&self) -> (r: usize)
        ensures
            r == self@.len(),
    {
        match self {
            Column::Int(v) => v.len(),
            Column::Real(v) => v.len(),
            Column::Bool(v) => v.len(),
            Column::Str(v) => v.len(),
        }
    }

    /// The cell at a row position.
    pub fn get(&self, i: usize) -> (r: Value)
        requires
            i < self@.len(),
        ensures
            r@ == self@[i as int],
    {
        match self {
            Column::Int(v) => Value::Int(v[i]),
            Column::Real(v) => Value::Real(v[i].clone()),
            Column::Bool(v) => Value::Bool(v[i]),
            Column::Str(v) => Value::Str(v[i].clone()),
        }
    }

    /// Appends one cell; rejects a cell of another kind and a real cell
    /// whose text is not numeric.
    pub fn push(&mut self, v: Value) -> (r: Result<(), DataError>)
        ensures
            r is Ok <==> kind_of(v@) == old(self).kind_spec() && value_wf(v@),
            r is Ok ==> final(self)@ == old(self)@.push(v@),
            r is Err ==> *final(self) == *old(self) && r == Err::<(), DataError>(
                DataError::ArityMismatch,
            ),
            final(self).kind_spec() == old(self).kind_spec(),
            old(self).wf() && r is Ok ==> final(self).wf(),
    {
        let ghost vv = v@;
        match (self, v) {
            (Column::Int(vec), Value::Int(x)) => {
                let ghost prev = vec@;
                vec.push(x);
                proof {
                    assert(Seq::new(vec@.len(), |i: int| ValueView::Int(vec@[i])) =~= Seq::new(
                        prev.len(),
                        |i: int| ValueView::Int(prev[i]),
                    ).push(vv));
                }
                Ok(())
            },
            (Column::Real(vec), Value::Real(x)) => {
                let chars = str_chars(x.as_str());
                if is_numeric(&chars) {
                    let ghost prev = vec@;
                    vec.push(x);
                    proof {
                        assert(Seq::new(vec@.len(), |i: int| ValueView::Real(vec@[i]@)) =~= Seq::new(
                            prev.len(),
                            |i: int| ValueView::Real(prev[i]@),
                        ).push(vv));
                    }
                    Ok(())
                } else {
                    Err(DataError::ArityMismatch)
                }
            },
            (Column::Bool(vec), Value::Bool(x)) => {
                let ghost prev = vec@;
                vec.push(x);
                proof {
                    assert(Seq::new(vec@.len(), |i: int| ValueView::Bool(vec@[i])) =~= Seq::new(
                        prev.len(),
                        |i: int| ValueView::Bool(prev[i]),
                    ).push(vv));
                }
                Ok(())
            },
            (Column::Str(vec), Value::Str(x)) => {
                let ghost prev = vec@;
                vec.push(x);
                proof {
                    assert(Seq::new(vec@.len(), |i: int| ValueView::Str(vec@[i]@)) =~= Seq::new(
                        prev.len(),
                        |i: int| ValueView::Str(prev[i]@),
                    ).push(vv));
                }
                Ok(())
            },
            _ => Err(DataError::ArityMismatch),
        }
    }

    /// Replaces the cell at a row position; rejects an out-of-range position
    /// and a cell that [`Column::push`] would reject.
    pub fn set(&mut self, i: usize, v: Value) -> (r: Result<(), DataError>)
        ensures
            r is Ok <==> i < old(self)@.len() && kind_of(v@) == old(self).kind_spec()
                && value_wf(v@),
            r is Ok ==> final(self)@ == old(self)@.update(i as int, v@),
            r is Err ==> *final(self) == *old(self),
            i >= old(self)@.len() ==> r == Err::<(), DataError>(DataError::OutOfRange),
            i < old(self)@.len() && !(kind_of(v@) == old(self).kind_spec() && value_wf(v@))
                ==> r == Err::<(), DataError>(DataError::ArityMismatch),
            final(self).kind_spec() == old(self).kind_spec(),
            old(self).wf() && r is Ok ==> final(self).wf(),
    {
        if i >= self.len() {
            return Err(DataError::OutOfRange);
        }
        let ghost vv = v@;
        match (self, v) {
            (Column::Int(vec), Value::Int(x)) => {
                let ghost prev = vec@;
                vec.set(i, x);
                proof {
                    assert(Seq::new(vec@.len(), |k: int| ValueView::Int(vec@[k])) =~= Seq::new(
                        prev.len(),
                        |k: int| ValueView::Int(prev[k]),
                    ).update(i as int, vv));
                }
                Ok(())
            },
            (Column::Real(vec), Value::Real(x)) => {
                let chars = str_chars(x.as_str());
                if is_numeric(&chars) {
                    let ghost prev = vec@;
                    vec.set(i, x);
                    proof {
                        assert(Seq::new(vec@.len(), |k: int| ValueView::Real(vec@[k]@)) =~= Seq::new(
                            prev.len(),
                            |k: int| ValueView::Real(prev[k]@),
                        ).update(i as int, vv));
                    }
                    Ok(())
                } else {
                    Err(DataError::ArityMismatch)
                }
            },
            (Column::Bool(vec), Value::Bool(x)) => {
                let ghost prev = vec@;
                vec.set(i, x);
                proof {
                    assert(Seq::new(vec@.len(), |k: int| ValueView::Bool(vec@[k])) =~= Seq::new(
                        prev.len(),
                        |k: int| ValueView::Bool(prev[k]),
                    ).update(i as int, vv));
                }
                Ok(())
            },
            (Column::Str(vec), Value::Str(x)) => {
                let ghost prev = vec@;
                vec.set(i, x);
                proof {
                    assert(Seq::new(vec@.len(), |k: int| ValueView::Str(vec@[k]@)) =~= Seq::new(
                        prev.len(),
                        |k: int| ValueView::Str(prev[k]@),
                    ).update(i as int, vv));
                }
                Ok(())
            },
            _ => Err(DataError::ArityMismatch),
        }
    }

    /// Wraps integers as a column.
    pub fn from_ints(v: Vec<i64>) -> (r: Column)
        ensures
            r@ == Seq::new(v@.len(), |i: int| ValueView::Int(v@[i])),
            r.kind_spec() == Kind::Int,
            r.ints() == v@,
            r.wf(),
    {
        Column::Int(v)
    }

    /// Wraps booleans as a column.
    pub fn from_bools(v: Vec<bool>) -> (r: Column)
        ensures
            r@ == Seq::new(v@.len(), |i: int| ValueView::Bool(v@[i])),
            r.kind_spec() == Kind::Bool,
            r.wf(),
    {
        Column::Bool(v)
    }

    /// Wraps strings as a column.
    pub fn from_strs(v: Vec<String>) -> (r: Column)
        ensures
            r@ == Seq::new(v@.len(), |i: int| ValueView::Str(v@[i]@)),
            r.kind_spec() == Kind::Str,
            r.wf(),
    {
        Column::Str(v)
    }

    /// Wraps numeric texts as a real column; rejects the list if any entry is
    /// not a numeric literal.
    pub fn from_reals(v: Vec<String>) -> (r: Result<Column, DataError>)
        ensures
            r is Ok <==> (forall|i: int| 0 <= i < v@.len() ==> numeric_text(v@[i]@)),
            r is Ok ==> r->Ok_0@ == Seq::new(v@.len(), |i: int| ValueView::Real(v@[i]@))
                && r->Ok_0.kind_spec() == Kind::Real && r->Ok_0.wf(),
    {
        let mut i: usize = 0;
        while i < v.len()
            invariant
                i <= v@.len(),
                forall|k: int| 0 <= k < i ==> numeric_text(v@[k]@),
            decreases v@.len() - i,
        {
            let chars = str_chars(v[i].as_str());
            if !is_numeric(&chars) {
                return Err(DataError::ParseError { row: i, col: 0 });
            }
            i = i + 1;
        }
        Ok(Column::Real(v))
    }

    /// The integers of an integer column.
    pub fn int_values(&self) -> (r: Vec<i64>)
        requires
            self.kind_spec() == Kind::Int,
        ensures
            r@ == self.ints(),
    {
        match self {
            Column::Int(v) => {
                let mut r: Vec<i64> = Vec::new();
                let mut i: usize = 0;
                while i < v.len()
                    invariant
                        i <= v@.len(),
                        r@ == v@.take(i as int),
                    decreases v@.len() - i,
                {
                    r.push(v[i]);
                    proof {
                        assert(r@ =~= v@.take(i + 1));
                    }
                    i = i + 1;
                }
                proof {
                    assert(r@ =~= v@);
                }
                r
            },
            _ => Vec::new(),
        }
    }

    /// The strings of a string column.
    pub fn str_values(&self) -> (r: Vec<String>)
        requires
            self.kind_spec() == Kind::Str,
        ensures
            r@ == self.str_cells(),
            r@.len() == self@.len(),
            forall|i: int| 0 <= i < r@.len() ==> self@[i] == ValueView::Str(#[trigger] r@[i]@),
    {
        match self {
            Column::Str(v) => copy_strings(v),
            _ => Vec::new(),
        }
    }

    /// The numeric texts of a real column.
    pub fn real_values(&self) -> (r: Vec<String>)
        requires
            self.kind_spec() == Kind::Real,
        ensures
            r@ == self.real_cells(),
            r@.len() == self@.len(),
            forall|i: int| 0 <= i < r@.len() ==> self@[i] == ValueView::Real(#[trigger] r@[i]@),
    {
        match self {
            Column::Real(v) => copy_strings(v),
            _ => Vec::new(),
        }
    }

    /// The booleans of a boolean column.
    pub fn bool_values(&self) -> (r: Vec<bool>)
        requires
            self.kind_spec() == Kind::Bool,
        ensures
            r@.len() == self@.len(),
            forall|i: int| 0 <= i < r@.len() ==> self@[i] == ValueView::Bool(#[trigger] r@[i]),
    {
        match self {
            Column::Bool(v) => {
                let mut r: Vec<bool> = Vec::new();
                let mut i: usize = 0;
                while i < v.len()
                    invariant
                        i <= v@.len(),
                        r@ == v@.take(i as int),
                    decreases v@.len() - i,
                {
                    r.push(v[i]);
                    proof {
                        assert(r@ =~= v@.take(i + 1));
                    }
                    i = i + 1;
                }
                proof {
                    assert(r@ =~= v@);
                }
                r
            },
            _ => Vec::new(),
        }
    }

    /// All cells, in row order.
    pub fn values(&self) -> (r: Vec<Value>)
        ensures
            r@.len() == self@.len(),
            forall|i: int| 0 <= i < r@.len() ==> (#[trigger] r@[i])@ == self@[i],
    {
        let n = self.len();
        let mut r: Vec<Value> = Vec::new();
        let mut i: usize = 0;
        while i < n
            invariant
                n == self@.len(),
                i <= n,
                r@.len() == i,
                forall|k: int| 0 <= k < i ==> (#[trigger] r@[k])@ == self@[k],
            decreases n - i,
        {
            r.push(self.get(i));
            i = i + 1;
        }
        r
    }

    /// An identical copy of this column.
    pub fn duplicate(&self) -> (r: Column)
        ensures
            r@ == self@,
            r.kind_spec() == self.kind_spec(),
            r.ints() == self.ints(),
    {
        let r = match self {
            Column::Int(v) => Column::Int(copy_i64s(v)),
            Column::Real(v) => Column::Real(copy_strings(v)),
            Column::Bool(v) => Column::Bool(copy_bools(v)),
            Column::Str(v) => Column::Str(copy_strings(v)),
        };
        proof {
            assert(r@ =~= self@);
        }
        r
    }

    /// The cells in the row range `[a, b)`.
    pub fn slice_rows(&self, a: usize, b: usize) -> (r: Column)
        requires
            self.wf(),
            a <= b <= self@.len(),
        ensures
            r@ == self@.subrange(a as int, b as int),
            r.kind_spec() == self.kind_spec(),
            r.wf(),
    {
        let mut r = Column::empty_of(self.kind());
        let mut i: usize = a;
        while i < b
            invariant
                self.wf(),
                a <= i <= b <= self@.len(),
                r.kind_spec() == self.kind_spec(),
                r@ == self@.subrange(a as int, i as int),
            decreases b - i,
        {
            let v = self.get(i);
            proof {
                self.lemma_cells_kind();
            }
            let res = r.push(v);
            proof {
                if res is Err {
                    assert(!value_wf(self@[i as int]));
                    assert(false);
                }
                assert(r@ =~= self@.subrange(a as int, i + 1));
            }
            i = i + 1;
        }
        proof {
            assert(cells_wf(r@));
        }
        r
    }

    /// The cells at the given row positions, in that order.
    pub fn select_rows(&self, idx: &Vec<usize>) -> (r: Column)
        requires
            self.wf(),
            forall|i: int| 0 <= i < idx@.len() ==> #[trigger] idx@[i] < self@.len(),
        ensures
            r@ == Seq::new(idx@.len(), |i: int| self@[idx@[i] as int]),
            r.kind_spec() == self.kind_spec(),
            r.wf(),
    {
        let mut r = Column::empty_of(self.kind());
        let mut i: usize = 0;
        while i < idx.len()
            invariant
                self.wf(),
                i <= idx@.len(),
                forall|k: int| 0 <= k < idx@.len() ==> #[trigger] idx@[k] < self@.len(),
                r.kind_spec() == self.kind_spec(),
                r@ == Seq::new(i as nat, |k: int| self@[idx@[k] as int]),
            decreases idx@.len() - i,
        {
            let v = self.get(idx[i]);
            proof {
                self.lemma_cells_kind();
            }
            let res = r.push(v);
            proof {
                if res is Err {
                    assert(!value_wf(self@[idx@[i as int] as int]));
                    assert(false);
                }
                assert(r@ =~= Seq::new((i + 1) as nat, |k: int| self@[idx@[k] as int]));
            }
            i = i + 1;
        }
        proof {
            assert(cells_wf(r@));
        }
        r
    }

    /// A new column holding this column's cells followed by another's;
    /// rejects a column of another kind.
    pub fn concat_col(&self, other: &Column) -> (r: Result<Column, DataError>)
        requires
            self.wf(),
            other.wf(),
        ensures
            r is Ok <==> other.kind_spec() == self.kind_spec(),
            r is Ok ==> r->Ok_0@ == self@ + other@ && r->Ok_0.kind_spec() == self.kind_spec(),
            r is Err ==> r == Err::<Column, DataError>(DataError::ArityMismatch),
            r is Ok ==> r->Ok_0.wf(),
    {
        if !kind_eq(self.kind(), other.kind()) {
            return Err(DataError::ArityMismatch);
        }
        let mut r = self.duplicate();
        let n = other.len();
        let mut i: usize = 0;
        while i < n
            invariant
                self.wf(),
                other.wf(),
                n == other@.len(),
                i <= n,
                r.kind_spec() == self.kind_spec(),
                other.kind_spec() == self.kind_spec(),
                r@ == self@ + other@.take(i as int),
            decreases n - i,
        {
            let v = other.get(i);
            proof {
                other.lemma_cells_kind();
            }
            let res = r.push(v);
            proof {
                if res is Err {
                    assert(!value_wf(other@[i as int]));
                    assert(false);
                }
                assert(r@ =~= self@ + other@.take(i + 1));
            }
            i = i + 1;
        }
        proof {
            assert(r@ =~= self@ + other@);
            assert(cells_wf(r@));
        }
        Ok(r)
    }
}

/// Whether two kinds are the same.
pub fn kind_eq(a: Kind, b: Kind) -> (r: bool)
    ensures
        r == (a == b),
{
    match (a, b) {
        (Kind::Int, Kind::Int) => true,
        (Kind::Real, Kind::Real) => true,
        (Kind::Bool, Kind::Bool) => true,
        (Kind::Str, Kind::Str) => true,
        _ => false,
    }
}

/// Copies a vector of machine integers.
fn copy_i64s(v: &Vec<i64>) -> (r: Vec<i64>)
    ensures
        r@ == v@,
{
    let mut r: Vec<i64> = Vec::new();
    let mut i: usize = 0;
    while i < v.len()
        invariant
            i <= v@.len(),
            r@ == v@.take(i as int),
        decreases v@.len() - i,
    {
        r.push(v[i]);
        proof {
            assert(r@ =~= v@.take(i + 1));
        }
        i = i + 1;
    }
    proof {
        assert(r@ =~= v@);
    }
    r
}

/// Copies a vector of booleans.
fn copy_bools(v: &Vec<bool>) -> (r: Vec<bool>)
    ensures
        r@ == v@,
{
    let mut r: Vec<bool> = Vec::new();
    let mut i: usize = 0;
    while i < v.len()
        invariant
            i <= v@.len(),
            r@ == v@.take(i as int),
        decreases v@.len() - i,
    {
        r.push(v[i]);
        proof {
            assert(r@ =~= v@.take(i + 1));
        }
        i = i + 1;
    }
    proof {
        assert(r@ =~= v@);
    }
    r
}

/// Copies a vector of strings.
pub(crate) fn copy_strings(v: &Vec<String>) -> (r: Vec<String>)
    ensures
        r@ == v@,
{
    let mut r: Vec<String> = Vec::new();
    let mut i: usize = 0;
    while i < v.len()
        invariant
            i <= v@.len(),
            r@ == v@.take(i as int),
        decreases v@.len() - i,
    {
        r.push(v[i].clone());
        proof {
            assert(r@ =~= v@.take(i + 1));
        }
        i = i + 1;
    }
    proof {
        assert(r@ =~= v@);
    }
    r
}

} // verus!
