//! Sorting a table by one column: a stable insertion sort computes a single
//! row permutation from the key column, and that one permutation is applied
//! to every column alike.

use vstd::prelude::*;

use crate::DataError;
use crate::table::Table;
use crate::value::{Kind, ValueView, value_le, value_le_x, orderable, lemma_value_le_total, lemma_value_le_trans};
use crate::column::{Column, cells_of_kind};

verus! {

/// Some position of the sequence holds the value.
pub open spec fn has_val(p: Seq<usize>, v: int) -> bool {
    exists|i: int| 0 <= i < p.len() && (#[trigger] p[i]) as int == v
}

/// A permutation of the row positions `0 .. n`.
pub open spec fn is_perm_of(p: Seq<usize>, n: int) -> bool {
    &&& p.len() == n
    &&& (forall|i: int| 0 <= i < p.len() ==> (#[trigger] p[i]) < n)
    &&& (forall|i: int, j: int| 0 <= i < j < p.len() ==> p[i] != p[j])
    &&& (forall|v: int| 0 <= v < n ==> #[trigger] has_val(p, v))
}

/// The permutation lists the keys in non-decreasing order.
pub open spec fn sorts_keys(p: Seq<usize>, keys: Seq<ValueView>) -> bool {
    forall|a: int, b: int|
        0 <= a < b < p.len() ==> value_le(keys[#[trigger] p[a] as int], keys[#[trigger] p[b] as int])
}

/// Rows with equal keys stay in their original relative order.
pub open spec fn stable_on(p: Seq<usize>, keys: Seq<ValueView>) -> bool {
    forall|a: int, b: int|
        0 <= a < b < p.len() && keys[#[trigger] p[a] as int] == keys[#[trigger] p[b] as int]
            ==> p[a] < p[b]
}

/// The sequence reordered by a row permutation.
pub open spec fn apply_perm<T>(s: Seq<T>, p: Seq<usize>) -> Seq<T> {
    Seq::new(p.len(), |i: int| s[p[i] as int])
}

/// The position pairs of two columns, row by row.
pub open spec fn zip_cells<T>(a: Seq<T>, b: Seq<T>) -> Seq<(T, T)>
    recommends
        a.len() == b.len(),
{
    Seq::new(a.len(), |i: int| (a[i], b[i]))
}

/// Computes the stable sorting permutation of a column's keys.
fn sort_perm(keys: &Column) -> (r: Vec<usize>)
    requires
        orderable(keys.kind_spec()),
    ensures
        is_perm_of(r@, keys@.len() as int),
        sorts_keys(r@, keys@),
        stable_on(r@, keys@),
{
    let n = keys.len();
    let ghost cells = keys@;
    proof {
        keys.lemma_cells_kind();
    }
    let mut perm: Vec<usize> = Vec::new();
    let mut idx: usize = 0;
    while idx < n
        invariant
            n == cells.len(),
            cells == keys@,
            orderable(keys.kind_spec()),
            cells_of_kind(cells, keys.kind_spec()),
            idx <= n,
            perm@.len() == idx,
            forall|i: int| 0 <= i < perm@.len() ==> (#[trigger] perm@[i]) < idx,
            forall|i: int, j: int| 0 <= i < j < perm@.len() ==> perm@[i] != perm@[j],
            forall|v: int| 0 <= v < idx ==> #[trigger] has_val(perm@, v),
            sorts_keys(perm@, cells),
            stable_on(perm@, cells),
        decreases n - idx,
    {
        let key = keys.get(idx);
        let mut pos: usize = perm.len();
        while pos > 0 && !value_le_x(&keys.get(perm[pos - 1]), &key)
            invariant
                n == cells.len(),
                cells == keys@,
                idx < n,
                key@ == cells[idx as int],
                orderable(keys.kind_spec()),
                cells_of_kind(cells, keys.kind_spec()),
                perm@.len() == idx,
                forall|i: int| 0 <= i < perm@.len() ==> (#[trigger] perm@[i]) < idx,
                pos <= perm@.len(),
                forall|k: int|
                    pos <= k < perm@.len() ==> !value_le(
                        cells[(#[trigger] perm@[k]) as int],
                        cells[idx as int],
                    ),
            decreases pos,
        {
            pos = pos - 1;
        }
        proof {
            if pos > 0 {
                assert(value_le(cells[perm@[pos - 1] as int], cells[idx as int]));
            }
        }
        let ghost before = perm@;
        perm.insert(pos, idx);
        proof {
            let now = perm@;
            assert(now == before.insert(pos as int, idx));
            assert forall|i: int| 0 <= i < now.len() implies (#[trigger] now[i]) < idx + 1 by {
                if i < pos {
                    assert(now[i] == before[i]);
                } else if i == pos {
                } else {
                    assert(now[i] == before[i - 1]);
                }
            }
            assert forall|i: int, j: int| 0 <= i < j < now.len() implies now[i] != now[j] by {
                index_facts(before, now, pos as int, idx, i);
                index_facts(before, now, pos as int, idx, j);
            }
            assert forall|v: int| 0 <= v < idx + 1 implies #[trigger] has_val(now, v) by {
                if v == idx {
                    assert(now[pos as int] as int == v);
                } else {
                    assert(has_val(before, v));
                    let i = choose|i: int|
                        0 <= i < before.len() && (#[trigger] before[i]) as int == v;
                    if i < pos {
                        assert(now[i] as int == v);
                    } else {
                        assert(now[i + 1] == before[i]);
                        assert(now[i + 1] as int == v);
                    }
                }
            }
            assert forall|a: int, b: int| 0 <= a < b < now.len() implies value_le(
                cells[#[trigger] now[a] as int],
                cells[#[trigger] now[b] as int],
            ) by {
                index_facts(before, now, pos as int, idx, a);
                index_facts(before, now, pos as int, idx, b);
                if a == pos && b > pos {
                    lemma_value_le_total(cells[now[b] as int], cells[idx as int]);
                } else if b == pos && a < pos {
                    if pos > 0 && a < pos - 1 {
                        lemma_value_le_trans(
                            cells[now[a] as int],
                            cells[before[pos - 1] as int],
                            cells[idx as int],
                        );
                    }
                } else if a < pos && b > pos {
                } else {
                }
            }
            assert forall|a: int, b: int|
                0 <= a < b < now.len() && cells[(#[trigger] now[a]) as int] == cells[(
                #[trigger] now[b]) as int] implies now[a] < now[b] by {
                index_facts(before, now, pos as int, idx, a);
                index_facts(before, now, pos as int, idx, b);
                if b == pos {
                    assert(now[a] < idx);
                } else if a == pos {
                    assert(!value_le(cells[now[b] as int], cells[idx as int]));
                    assert(value_le(cells[now[a] as int], cells[now[b] as int])
                        ==> false);
                }
            }
        }
        idx = idx + 1;
    }
    perm
}

/// Law: reordering a sequence by a row permutation preserves the multiset of
/// its entries — nothing is lost, duplicated, or invented.
pub proof fn lemma_apply_perm_multiset<T>(s: Seq<T>, p: Seq<usize>)
    requires
        is_perm_of(p, s.len() as int),
    ensures
        apply_perm(s, p).to_multiset() == s.to_multiset(),
    decreases s.len(),
{
    broadcast use vstd::seq_lib::group_to_multiset_ensures;
    broadcast use vstd::multiset::group_multiset_axioms;

    let n = s.len() as int;
    let a = apply_perm(s, p);
    if n == 0 {
        assert(a =~= s);
    } else {
        assert(has_val(p, n - 1));
        let k = choose|i: int| 0 <= i < p.len() && (#[trigger] p[i]) as int == n - 1;
        let p2 = p.remove(k);
        let s2 = s.drop_last();
        assert forall|i: int| 0 <= i < p2.len() implies (#[trigger] p2[i]) < n - 1 by {
            if i < k {
                assert(p2[i] == p[i]);
            } else {
                assert(p2[i] == p[i + 1]);
            }
        }
        assert forall|i: int, j: int| 0 <= i < j < p2.len() implies p2[i] != p2[j] by {
            if j < k {
            } else if i < k {
                assert(p2[i] == p[i] && p2[j] == p[j + 1]);
            } else {
                assert(p2[i] == p[i + 1] && p2[j] == p[j + 1]);
            }
        }
        assert forall|v: int| 0 <= v < n - 1 implies #[trigger] has_val(p2, v) by {
            assert(has_val(p, v));
            let i = choose|i: int| 0 <= i < p.len() && (#[trigger] p[i]) as int == v;
            if i < k {
                assert(p2[i] == p[i]);
            } else {
                assert(i != k);
                assert(p2[i - 1] == p[i]);
            }
        }
        assert(is_perm_of(p2, n - 1));
        let a2 = apply_perm(s2, p2);
        assert(a.remove(k) =~= a2) by {
            assert forall|x: int| 0 <= x < a2.len() implies a.remove(k)[x] == a2[x] by {
                if x < k {
                    assert(a.remove(k)[x] == a[x]);
                    assert(p2[x] == p[x]);
                } else {
                    assert(a.remove(k)[x] == a[x + 1]);
                    assert(p2[x] == p[x + 1]);
                }
            }
        }
        lemma_apply_perm_multiset(s2, p2);
        assert(a[k] == s[n - 1]);
        assert(s =~= s2.push(s[n - 1]));
        assert(s.to_multiset() =~= s2.to_multiset().insert(s[n - 1]));
        assert(a.remove(k).to_multiset() =~= a.to_multiset().remove(a[k]));
        assert(a.to_multiset().count(a[k]) > 0) by {
            assert(a.contains(a[k]));
        }
        assert(a.to_multiset() =~= s.to_multiset()) by {
            assert forall|x: T| true implies a.to_multiset().count(x) == s.to_multiset().count(
                x,
            ) by {
                if x == a[k] {
                    assert(a.to_multiset().remove(a[k]).count(x) == a.to_multiset().count(x)
                        - 1);
                    assert(s2.to_multiset().insert(s[n - 1]).count(x) == s2.to_multiset().count(
                        x,
                    ) + 1);
                } else {
                    assert(a.to_multiset().remove(a[k]).count(x) == a.to_multiset().count(x));
                    assert(s2.to_multiset().insert(s[n - 1]).count(x) == s2.to_multiset().count(
                        x,
                    ));
                }
            }
        }
    }
}

/// Law: one permutation carries all columns together — reordering two
/// equal-length columns by the same row permutation preserves the multiset
/// of their zipped (key, companion) row pairs.
pub proof fn lemma_perm_carries_pairs<T>(a: Seq<T>, b: Seq<T>, p: Seq<usize>)
    requires
        a.len() == b.len(),
        is_perm_of(p, a.len() as int),
    ensures
        zip_cells(apply_perm(a, p), apply_perm(b, p)).to_multiset() == zip_cells(a, b).to_multiset(),
{
    assert(zip_cells(apply_perm(a, p), apply_perm(b, p)) =~= apply_perm(zip_cells(a, b), p));
    lemma_apply_perm_multiset(zip_cells(a, b), p);
}

/// How positions of a sequence relate across one insertion.
proof fn index_facts(before: Seq<usize>, now: Seq<usize>, pos: int, idx: usize, i: int)
    requires
        0 <= pos <= before.len(),
        now == before.insert(pos, idx),
        0 <= i < now.len(),
    ensures
        i < pos ==> now[i] == before[i],
        i == pos ==> now[i] == idx,
        i > pos ==> now[i] == before[i - 1],
{
}

impl Table {
    /// A new table whose rows are sorted so that the values of column `j`
    /// are non-decreasing, ties keeping their original order; the identical
    /// permutation is applied to every column. Rejects a column position at
    /// or beyond the column count, and a column whose kind has no total
    /// order.
    pub fn sort_by_col(&self, j: usize) -> (r: Result<Table, DataError>)
        requires
            self.wf(),
        ensures
            r is Ok <==> j < self@.cols.len() && orderable(self@.kinds[j as int]),
            j >= self@.cols.len() ==> r == Err::<Table, DataError>(DataError::OutOfRange),
            j < self@.cols.len() && !orderable(self@.kinds[j as int]) ==> r == Err::<
                Table,
                DataError,
            >(DataError::ArityMismatch),
            r is Ok ==> {
                let t = r->Ok_0;
                &&& t.wf()
                &&& t@.header == self@.header
                &&& t@.kinds == self@.kinds
                &&& exists|p: Seq<usize>|
                    {
                        &&& #[trigger] is_perm_of(p, self@.nrows() as int)
                        &&& sorts_keys(p, self@.cols[j as int])
                        &&& stable_on(p, self@.cols[j as int])
                        &&& t@.cols == Seq::new(
                            self@.cols.len(),
                            |c: int| apply_perm(self@.cols[c], p),
                        )
                    }
            },
    {
        if j >= self.cols.len() {
            return Err(DataError::OutOfRange);
        }
        let orderable_kind = match self.cols[j].kind() {
            Kind::Real => false,
            _ => true,
        };
        if !orderable_kind {
            return Err(DataError::ArityMismatch);
        }
        let perm = sort_perm(&self.cols[j]);
        let ghost p = perm@;
        let res = self.reindex(&perm);
        let r = match res {
            Ok(t) => t,
            Err(_) => {
                proof {
                    assert(false);
                }
                return Err(DataError::OutOfRange);
            },
        };
        proof {
            assert(r@.cols =~= Seq::new(self@.cols.len(), |c: int| apply_perm(self@.cols[c], p)));
        }
        Ok(r)
    }
}

} // verus!
