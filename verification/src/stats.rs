//! Column extensions: numeric aggregation over integer columns, extremal
//! elements, order-preserving distinct-value extraction, in-place element
//! mapping, and column-to-list mapping.
//!
//! Means and variances are returned as exact rationals (numerator and
//! denominator): the container does no real arithmetic, and a caller divides
//! where an approximate real value is wanted.

use vstd::prelude::*;

use crate::DataError;
use crate::column::{Column, cells_of_kind};
use crate::value::{
    Kind, Value, ValueView, value_le, value_eq_x, value_le_x, orderable, lemma_value_le_total,
    lemma_value_le_trans, numeric_text, is_numeric, str_chars,
};

verus! {

/// The sum of a sequence of machine integers, as a mathematical integer.
pub open spec fn seq_sum(s: Seq<i64>) -> int
    decreases s.len(),
{
    if s.len() == 0 {
        0
    } else {
        seq_sum(s.drop_last()) + s.last()
    }
}

/// The sum of squares of a sequence of machine integers.
pub open spec fn seq_sum_sq(s: Seq<i64>) -> int
    decreases s.len(),
{
    if s.len() == 0 {
        0
    } else {
        seq_sum_sq(s.drop_last()) + s.last() * s.last()
    }
}

/// The sum of machine integers is bounded by the count times the extremes.
pub proof fn lemma_seq_sum_bounds(s: Seq<i64>)
    ensures
        -(s.len() * 0x8000_0000_0000_0000) <= seq_sum(s) <= s.len() * 0x7fff_ffff_ffff_ffff,
    decreases s.len(),
{
    if s.len() > 0 {
        lemma_seq_sum_bounds(s.drop_last());
    }
}

/// Bounds for the sums used by the variance, for cells within `±2^31`.
pub proof fn lemma_var_sum_bounds(s: Seq<i64>)
    requires
        forall|i: int| 0 <= i < s.len() ==> -0x8000_0000 <= #[trigger] s[i] <= 0x8000_0000,
    ensures
        -(s.len() * 0x8000_0000) <= seq_sum(s) <= s.len() * 0x8000_0000,
        0 <= seq_sum_sq(s) <= s.len() * 0x4000_0000_0000_0000,
    decreases s.len(),
{
    if s.len() > 0 {
        assert(forall|i: int|
            0 <= i < s.drop_last().len() ==> -0x8000_0000 <= #[trigger] s.drop_last()[i]
                <= 0x8000_0000);
        lemma_var_sum_bounds(s.drop_last());
        let x = s.last();
        assert(0 <= x * x <= 0x4000_0000_0000_0000) by (nonlinear_arith)
            requires
                -0x8000_0000 <= x <= 0x8000_0000,
        ;
    }
}

/// The distinct cells of a sequence, each at its first occurrence, in order.
pub open spec fn unique_cells(s: Seq<ValueView>) -> Seq<ValueView>
    decreases s.len(),
{
    if s.len() == 0 {
        Seq::empty()
    } else {
        let p = unique_cells(s.drop_last());
        if s.drop_last().contains(s.last()) {
            p
        } else {
            p.push(s.last())
        }
    }
}

/// Membership across a push: the pushed cell, or one already present.
proof fn lemma_push_contains<T>(s: Seq<T>, v: T, x: T)
    ensures
        s.push(v).contains(x) == (s.contains(x) || x == v),
{
    if s.contains(x) {
        let i = choose|i: int| 0 <= i < s.len() && s[i] == x;
        assert(s.push(v)[i] == x);
    }
    if x == v {
        assert(s.push(v)[s.len() as int] == x);
    }
    if s.push(v).contains(x) {
        let i = choose|i: int| 0 <= i < s.push(v).len() && s.push(v)[i] == x;
        if i < s.len() {
            assert(s[i] == x);
        }
    }
}

/// Membership across dropping the last cell.
proof fn lemma_unsnoc_contains<T>(s: Seq<T>, x: T)
    requires
        s.len() > 0,
    ensures
        s.contains(x) == (s.drop_last().contains(x) || x == s.last()),
{
    if s.drop_last().contains(x) {
        let i = choose|i: int| 0 <= i < s.drop_last().len() && s.drop_last()[i] == x;
        assert(s[i] == x);
    }
    if x == s.last() {
        assert(s[s.len() - 1] == x);
    }
    if s.contains(x) {
        let i = choose|i: int| 0 <= i < s.len() && s[i] == x;
        if i < s.len() - 1 {
            assert(s.drop_last()[i] == x);
        }
    }
}

/// A cell occurs among the distinct cells exactly when it occurs at all.
pub proof fn lemma_unique_cells_membership(s: Seq<ValueView>)
    ensures
        forall|x: ValueView| #[trigger] unique_cells(s).contains(x) == s.contains(x),
    decreases s.len(),
{
    if s.len() > 0 {
        let d = s.drop_last();
        let u = unique_cells(d);
        lemma_unique_cells_membership(d);
        assert forall|x: ValueView| #[trigger] unique_cells(s).contains(x) == s.contains(x) by {
            lemma_unsnoc_contains(s, x);
            if d.contains(s.last()) {
                assert(unique_cells(s) == u);
                if x == s.last() {
                    assert(d.contains(x));
                }
            } else {
                assert(unique_cells(s) == u.push(s.last()));
                lemma_push_contains(u, s.last(), x);
            }
        }
    }
}

impl Column {
    /// The strings of a string column, as exec values.
    pub open spec fn str_cells(&self) -> Seq<String> {
        match self {
            Column::Str(v) => v@,
            _ => Seq::empty(),
        }
    }

    /// The numeric texts of a real column, as exec values.
    pub open spec fn real_cells(&self) -> Seq<String> {
        match self {
            Column::Real(v) => v@,
            _ => Seq::empty(),
        }
    }

    /// The type-preserving sum of an integer column; 0 for an empty column.
    pub fn sum(&self) -> (r: i64)
        requires
            self.kind_spec() == Kind::Int,
            self@.len() <= 0x1_0000_0000_0000,
            i64::MIN <= seq_sum(self.ints()) <= i64::MAX,
        ensures
            r as int == seq_sum(self.ints()),
    {
        match self {
            Column::Int(v) => {
                let mut acc: i128 = 0;
                let mut i: usize = 0;
                while i < v.len()
                    invariant
                        v@.len() <= 0x1_0000_0000_0000,
                        i <= v@.len(),
                        acc == seq_sum(v@.take(i as int)),
                        -(i as int * 0x8000_0000_0000_0000) <= acc <= i as int
                            * 0x7fff_ffff_ffff_ffff,
                    decreases v@.len() - i,
                {
                    proof {
                        assert(v@.take(i + 1).drop_last() =~= v@.take(i as int));
                        assert(v@.take(i + 1).last() == v@[i as int]);
                    }
                    acc = acc + v[i] as i128;
                    i = i + 1;
                    proof {
                        lemma_seq_sum_bounds(v@.take(i as int));
                    }
                }
                proof {
                    assert(v@.take(v@.len() as int) =~= v@);
                }
                acc as i64
            },
            _ => 0,
        }
    }

    /// The mean of an integer column as an exact rational `(sum, count)`;
    /// `(0, 1)` for an empty column.
    pub fn mean_ratio(&self) -> (r: (i64, usize))
        requires
            self.kind_spec() == Kind::Int,
            self@.len() <= 0x1_0000_0000_0000,
            i64::MIN <= seq_sum(self.ints()) <= i64::MAX,
        ensures
            r.0 as int == seq_sum(self.ints()),
            r.1 as int == (if self@.len() == 0 {
                1int
            } else {
                self@.len() as int
            }),
    {
        let s = self.sum();
        let n = self.len();
        if n == 0 {
            (s, 1)
        } else {
            (s, n)
        }
    }

    /// The population variance of an integer column as an exact rational:
    /// the numerator `n * sum(x^2) - sum(x)^2` and the denominator `n^2`,
    /// `(0, 1)` for an empty column. Dividing them gives the mean of squared
    /// deviations from the mean.
    pub fn var_ratio(&self) -> (r: (i128, u128))
        requires
            self.kind_spec() == Kind::Int,
            self@.len() <= 0x1_0000_0000,
            forall|i: int|
                0 <= i < self.ints().len() ==> -0x8000_0000 <= #[trigger] self.ints()[i]
                    <= 0x8000_0000,
        ensures
            r.0 as int == self@.len() * seq_sum_sq(self.ints()) - seq_sum(self.ints()) * seq_sum(
                self.ints(),
            ),
            r.1 as int == (if self@.len() == 0 {
                1int
            } else {
                self@.len() * self@.len() as int
            }),
    {
        match self {
            Column::Int(v) => {
                proof {
                    assert(self.ints() == v@);
                    assert(forall|k: int|
                        0 <= k < v@.len() ==> -0x8000_0000 <= #[trigger] v@[k] <= 0x8000_0000);
                }
                let mut sum: i128 = 0;
                let mut sq: i128 = 0;
                let mut i: usize = 0;
                while i < v.len()
                    invariant
                        v@.len() <= 0x1_0000_0000,
                        forall|k: int|
                            0 <= k < v@.len() ==> -0x8000_0000 <= #[trigger] v@[k] <= 0x8000_0000,
                        i <= v@.len(),
                        sum == seq_sum(v@.take(i as int)),
                        sq == seq_sum_sq(v@.take(i as int)),
                        -(i as int * 0x8000_0000) <= sum <= i as int * 0x8000_0000,
                        0 <= sq <= i as int * 0x4000_0000_0000_0000,
                    decreases v@.len() - i,
                {
                    let x = v[i] as i128;
                    proof {
                        assert(v@.take(i + 1).drop_last() =~= v@.take(i as int));
                        assert(v@.take(i + 1).last() == v@[i as int]);
                        assert(0 <= x * x <= 0x4000_0000_0000_0000) by (nonlinear_arith)
                            requires
                                -0x8000_0000 <= x <= 0x8000_0000,
                        ;
                    }
                    sum = sum + x;
                    sq = sq + x * x;
                    i = i + 1;
                    proof {
                        assert(forall|k: int|
                            0 <= k < v@.take(i as int).len() ==> -0x8000_0000 <= #[trigger] v@.take(
                                i as int,
                            )[k] <= 0x8000_0000);
                        lemma_var_sum_bounds(v@.take(i as int));
                    }
                }
                proof {
                    assert(v@.take(v@.len() as int) =~= v@);
                }
                let n = v.len();
                if n == 0 {
                    (0, 1)
                } else {
                    let ni = n as i128;
                    proof {
                        assert(ni * sq <= 0x1_0000_0000 * (0x1_0000_0000 * 0x4000_0000_0000_0000))
                            by (nonlinear_arith)
                            requires
                                0 <= ni <= 0x1_0000_0000,
                                0 <= sq <= 0x1_0000_0000 * 0x4000_0000_0000_0000,
                        ;
                        assert(0 <= sum * sum <= (0x1_0000_0000 * 0x8000_0000) * (0x1_0000_0000
                            * 0x8000_0000)) by (nonlinear_arith)
                            requires
                                -(0x1_0000_0000 * 0x8000_0000) <= sum <= 0x1_0000_0000
                                    * 0x8000_0000,
                        ;
                        assert(0 <= ni * sq) by (nonlinear_arith)
                            requires
                                0 <= ni,
                                0 <= sq,
                        ;
                        assert(ni * ni <= 0x1_0000_0000 * 0x1_0000_0000) by (nonlinear_arith)
                            requires
                                0 < ni <= 0x1_0000_0000,
                        ;
                        assert(0 < ni * ni) by (nonlinear_arith)
                            requires
                                0 < ni,
                        ;
                    }
                    let num = ni * sq - sum * sum;
                    let den = (ni * ni) as u128;
                    (num, den)
                }
            },
            _ => (0, 1),
        }
    }

    /// The least cell by the natural order, or nothing for an empty column.
    pub fn min_val(&self) -> (r: Option<Value>)
        requires
            orderable(self.kind_spec()),
        ensures
            r is None <==> self@.len() == 0,
            r is Some ==> self@.contains(r->0@) && (forall|i: int|
                0 <= i < self@.len() ==> value_le(r->0@, #[trigger] self@[i])),
    {
        proof {
            self.lemma_cells_kind();
        }
        let n = self.len();
        if n == 0 {
            return None;
        }
        let mut best = self.get(0);
        proof {
            assert(self@[0] == best@);
            lemma_value_le_total(best@, best@);
        }
        let mut i: usize = 1;
        while i < n
            invariant
                n == self@.len(),
                orderable(self.kind_spec()),
                cells_of_kind(self@, self.kind_spec()),
                1 <= i <= n,
                self@.contains(best@),
                forall|k: int| 0 <= k < i ==> value_le(best@, #[trigger] self@[k]),
            decreases n - i,
        {
            let cur = self.get(i);
            if value_le_x(&cur, &best) {
                proof {
                    assert forall|k: int| 0 <= k < i + 1 implies value_le(
                        cur@,
                        #[trigger] self@[k],
                    ) by {
                        if k < i {
                            lemma_value_le_trans(cur@, best@, self@[k]);
                        } else {
                            lemma_value_le_total(cur@, cur@);
                        }
                    }
                }
                best = cur;
            } else {
                proof {
                    lemma_value_le_total(cur@, best@);
                }
            }
            i = i + 1;
        }
        Some(best)
    }

    /// The greatest cell by the natural order, or nothing for an empty
    /// column.
    pub fn max_val(&self) -> (r: Option<Value>)
        requires
            orderable(self.kind_spec()),
        ensures
            r is None <==> self@.len() == 0,
            r is Some ==> self@.contains(r->0@) && (forall|i: int|
                0 <= i < self@.len() ==> value_le(#[trigger] self@[i], r->0@)),
    {
        proof {
            self.lemma_cells_kind();
        }
        let n = self.len();
        if n == 0 {
            return None;
        }
        let mut best = self.get(0);
        proof {
            assert(self@[0] == best@);
            lemma_value_le_total(best@, best@);
        }
        let mut i: usize = 1;
        while i < n
            invariant
                n == self@.len(),
                orderable(self.kind_spec()),
                cells_of_kind(self@, self.kind_spec()),
                1 <= i <= n,
                self@.contains(best@),
                forall|k: int| 0 <= k < i ==> value_le(#[trigger] self@[k], best@),
            decreases n - i,
        {
            let cur = self.get(i);
            if value_le_x(&best, &cur) {
                proof {
                    assert forall|k: int| 0 <= k < i + 1 implies value_le(
                        #[trigger] self@[k],
                        cur@,
                    ) by {
                        if k < i {
                            lemma_value_le_trans(self@[k], best@, cur@);
                        } else {
                            lemma_value_le_total(cur@, cur@);
                        }
                    }
                }
                best = cur;
            } else {
                proof {
                    lemma_value_le_total(best@, cur@);
                }
            }
            i = i + 1;
        }
        Some(best)
    }

    /// The distinct cells in first-occurrence order, as a column of the same
    /// kind.
    pub fn unique(&self) -> (r: Column)
        requires
            self.wf(),
        ensures
            r@ == unique_cells(self@),
            r.kind_spec() == self.kind_spec(),
            r.wf(),
    {
        proof {
            self.lemma_cells_kind();
        }
        let n = self.len();
        let mut res = Column::empty_of(self.kind());
        let mut i: usize = 0;
        while i < n
            invariant
                n == self@.len(),
                self.wf(),
                cells_of_kind(self@, self.kind_spec()),
                i <= n,
                res@ == unique_cells(self@.take(i as int)),
                res.kind_spec() == self.kind_spec(),
                res.wf(),
            decreases n - i,
        {
            let v = self.get(i);
            let m = res.len();
            let mut found = false;
            let mut k: usize = 0;
            while k < m
                invariant
                    m == res@.len(),
                    i < n == self@.len(),
                    v@ == self@[i as int],
                    k <= m,
                    found ==> res@.contains(v@),
                    !found ==> (forall|q: int| 0 <= q < k ==> res@[q] != v@),
                decreases m - k,
            {
                if !found {
                    let w = res.get(k);
                    if value_eq_x(&w, &v) {
                        found = true;
                    }
                }
                k = k + 1;
            }
            proof {
                assert(found == res@.contains(v@));
                lemma_unique_cells_membership(self@.take(i as int));
                assert(res@.contains(v@) == self@.take(i as int).contains(v@));
                assert(self@.take(i + 1).drop_last() =~= self@.take(i as int));
                assert(self@.take(i + 1).last() == self@[i as int]);
            }
            if !found {
                let pres = res.push(v);
                proof {
                    assert(pres is Ok);
                }
            }
            i = i + 1;
        }
        proof {
            assert(self@.take(n as int) =~= self@);
        }
        res
    }

    /// The number of distinct cells.
    pub fn n_unique(&self) -> (r: usize)
        requires
            self.wf(),
        ensures
            r == unique_cells(self@).len(),
    {
        self.unique().len()
    }

    /// Maps a function over every cell of an integer column, in place and in
    /// sequence order.
    pub fn apply_int<F: Fn(i64) -> i64>(&mut self, f: F)
        requires
            old(self).kind_spec() == Kind::Int,
            forall|k: int|
                0 <= k < old(self).ints().len() ==> #[trigger] f.requires((old(self).ints()[k],)),
        ensures
            final(self).kind_spec() == Kind::Int,
            final(self).ints().len() == old(self).ints().len(),
            forall|k: int|
                0 <= k < old(self).ints().len() ==> f.ensures(
                    (old(self).ints()[k],),
                    #[trigger] final(self).ints()[k],
                ),
            final(self).wf(),
    {
        let vals = self.int_values();
        let mut outs: Vec<i64> = Vec::new();
        let mut i: usize = 0;
        while i < vals.len()
            invariant
                vals@ == old(self).ints(),
                i <= vals@.len(),
                forall|k: int| 0 <= k < vals@.len() ==> #[trigger] f.requires((vals@[k],)),
                outs@.len() == i,
                forall|k: int| 0 <= k < i ==> f.ensures((vals@[k],), #[trigger] outs@[k]),
            decreases vals@.len() - i,
        {
            outs.push(f(vals[i]));
            i = i + 1;
        }
        *self = Column::Int(outs);
    }

    /// Maps a function over every cell of a string column, in place and in
    /// sequence order.
    pub fn apply_str<F: Fn(String) -> String>(&mut self, f: F)
        requires
            old(self).kind_spec() == Kind::Str,
            forall|k: int|
                0 <= k < old(self).str_cells().len() ==> #[trigger] f.requires(
                    (old(self).str_cells()[k],),
                ),
        ensures
            final(self).kind_spec() == Kind::Str,
            final(self).str_cells().len() == old(self).str_cells().len(),
            forall|k: int|
                0 <= k < old(self).str_cells().len() ==> f.ensures(
                    (old(self).str_cells()[k],),
                    #[trigger] final(self).str_cells()[k],
                ),
            final(self).wf(),
    {
        let vals = self.str_values();
        let mut outs: Vec<String> = Vec::new();
        let mut i: usize = 0;
        while i < vals.len()
            invariant
                vals@ == old(self).str_cells(),
                i <= vals@.len(),
                forall|k: int| 0 <= k < vals@.len() ==> #[trigger] f.requires((vals@[k],)),
                outs@.len() == i,
                forall|k: int| 0 <= k < i ==> f.ensures((vals@[k],), #[trigger] outs@[k]),
            decreases vals@.len() - i,
        {
            outs.push(f(vals[i].clone()));
            i = i + 1;
        }
        *self = Column::Str(outs);
    }

    /// Maps a function over every cell of a real column, in place and in
    /// sequence order; rejects the whole mapping, leaving the column
    /// unchanged, if any produced text is not a numeric literal.
    pub fn apply_real<F: Fn(String) -> String>(&mut self, f: F) -> (r: Result<(), DataError>)
        requires
            old(self).kind_spec() == Kind::Real,
            forall|k: int|
                0 <= k < old(self).real_cells().len() ==> #[trigger] f.requires(
                    (old(self).real_cells()[k],),
                ),
        ensures
            final(self).kind_spec() == Kind::Real,
            r is Err ==> *final(self) == *old(self),
            r is Ok ==> final(self).real_cells().len() == old(self).real_cells().len()
                && (forall|k: int|
                0 <= k < old(self).real_cells().len() ==> f.ensures(
                    (old(self).real_cells()[k],),
                    #[trigger] final(self).real_cells()[k],
                )) && final(self).wf(),
    {
        let vals = self.real_values();
        let mut outs: Vec<String> = Vec::new();
        let mut i: usize = 0;
        while i < vals.len()
            invariant
                vals@ == old(self).real_cells(),
                self == old(self),
                i <= vals@.len(),
                forall|k: int| 0 <= k < vals@.len() ==> #[trigger] f.requires((vals@[k],)),
                outs@.len() == i,
                forall|k: int| 0 <= k < i ==> f.ensures((vals@[k],), #[trigger] outs@[k]),
                forall|k: int| 0 <= k < i ==> numeric_text((#[trigger] outs@[k])@),
            decreases vals@.len() - i,
        {
            let y = f(vals[i].clone());
            let chars = str_chars(y.as_str());
            if !is_numeric(&chars) {
                return Err(DataError::ParseError { row: i, col: 0 });
            }
            outs.push(y);
            i = i + 1;
        }
        *self = Column::Real(outs);
        proof {
            assert(crate::column::cells_wf(self@));
        }
        Ok(())
    }
}

/// Maps a function over a list of column values, producing a new list in the
/// same order.
pub fn map_column<T: Copy, U, F: Fn(T) -> U>(v: &Vec<T>, f: F) -> (r: Vec<U>)
    requires
        forall|i: int| 0 <= i < v@.len() ==> #[trigger] f.requires((v@[i],)),
    ensures
        r@.len() == v@.len(),
        forall|i: int| 0 <= i < v@.len() ==> f.ensures((v@[i],), #[trigger] r@[i]),
{
    let mut r: Vec<U> = Vec::new();
    let mut i: usize = 0;
    while i < v.len()
        invariant
            i <= v@.len(),
            forall|k: int| 0 <= k < v@.len() ==> #[trigger] f.requires((v@[k],)),
            r@.len() == i,
            forall|k: int| 0 <= k < i ==> f.ensures((v@[k],), #[trigger] r@[k]),
        decreases v@.len() - i,
    {
        r.push(f(v[i]));
        i = i + 1;
    }
    r
}

} // verus!
