use vstd::prelude::*;
use crate::order::{lemma_period_order, period_equal, period_less, period_lt, same_period, Period};
use crate::table::{is_int, int_at, Column, ColumnData, Table};

verus! {

/// Strictly increasing in period order.
pub open spec fn increasing(s: Seq<Period>) -> bool {
    forall|i: int, j: int| 0 <= i < j < s.len() ==> period_lt(#[trigger] s[i], #[trigger] s[j])
}

/// The period of row `r` of a time column.
pub open spec fn time_at(c: Column, r: int) -> Period {
    match c.data {
        ColumnData::Int(v) => Period::Int(v@[r]),
        ColumnData::Text(v) => Period::Text(v@[r]),
    }
}

/// Some period of `s` names the same value as `x`.
pub open spec fn present(s: Seq<Period>, x: Period) -> bool {
    exists|i: int| 0 <= i < s.len() && same_period(s[i], x)
}

/// The distinct periods of a table in increasing order, and the period of each
/// row as a position among them.
pub struct PeriodIndex {
    pub periods: Vec<Period>,
    pub row_period: Vec<usize>,
    pub first_row: Vec<usize>,
}

/// `ix` indexes the periods of the `n` rows of column `c`.
pub open spec fn indexes_periods(ix: PeriodIndex, c: Column, n: nat) -> bool {
    &&& increasing(ix.periods@)
    &&& ix.row_period@.len() == n
    &&& forall|r: int|
        0 <= r < n ==> #[trigger] ix.row_period@[r] < ix.periods@.len() && same_period(
            ix.periods@[ix.row_period@[r] as int],
            time_at(c, r),
        )
    &&& ix.first_row@.len() == ix.periods@.len()
    &&& forall|p: int|
        0 <= p < ix.periods@.len() ==> #[trigger] ix.first_row@[p] < n && ix.periods@[p] == time_at(
            c,
            ix.first_row@[p] as int,
        )
}

/// Reads row `r` of integer column `c`.
pub fn read_int(t: &Table, c: usize, r: usize) -> (v: i64)
    requires
        t.wf(),
        c < t.columns().len(),
        is_int(t.columns()[c as int]),
        r < t.rows(),
    ensures
        v == int_at(t.columns()[c as int], r as int),
{
    let col = t.column(c);
    assert(crate::table::column_len(*col) == t.rows());
    match &col.data {
        ColumnData::Int(v) => v[r],
        ColumnData::Text(_) => 0,
    }
}

/// Reads the period of row `r` of column `c`.
fn read_period(t: &Table, c: usize, r: usize) -> (p: Period)
    requires
        t.wf(),
        c < t.columns().len(),
        r < t.rows(),
    ensures
        p == time_at(t.columns()[c as int], r as int),
{
    let col = t.column(c);
    assert(crate::table::column_len(*col) == t.rows());
    match &col.data {
        ColumnData::Int(v) => Period::Int(v[r]),
        ColumnData::Text(v) => Period::Text(v[r].clone()),
    }
}

/// First position whose period is not before `v`.
fn lower_bound(s: &Vec<Period>, v: &Period) -> (pos: usize)
    requires
        increasing(s@),
    ensures
        pos <= s@.len(),
        forall|i: int| 0 <= i < pos ==> period_lt(#[trigger] s@[i], *v),
        pos < s@.len() ==> !period_lt(s@[pos as int], *v),
{
    let mut i: usize = 0;
    while i < s.len()
        invariant
            0 <= i <= s@.len(),
            forall|k: int| 0 <= k < i ==> period_lt(#[trigger] s@[k], *v),
        decreases s@.len() - i,
    {
        if !period_less(&s[i], v) {
            return i;
        }
        i += 1;
    }
    i
}

/// Collects the distinct periods of column `c` in increasing order.
pub fn index_periods(t: &Table, c: usize) -> (ix: PeriodIndex)
    requires
        t.wf(),
        c < t.columns().len(),
    ensures
        indexes_periods(ix, t.columns()[c as int], t.rows()),
{
    let ghost col = t.columns()[c as int];
    let n = t.n_rows();
    let mut periods: Vec<Period> = Vec::new();
    let mut first_row: Vec<usize> = Vec::new();
    let mut r: usize = 0;
    while r < n
        invariant
            t.wf(),
            n == t.rows(),
            c < t.columns().len(),
            col == t.columns()[c as int],
            0 <= r <= n,
            increasing(periods@),
            forall|q: int| 0 <= q < r ==> #[trigger] present(periods@, time_at(col, q)),
            first_row@.len() == periods@.len(),
            forall|p: int|
                0 <= p < periods@.len() ==> #[trigger] first_row@[p] < r && periods@[p] == time_at(
                    col,
                    first_row@[p] as int,
                ),
        decreases n - r,
    {
        let v = read_period(t, c, r);
        let pos = lower_bound(&periods, &v);
        if pos < periods.len() && period_equal(&periods[pos], &v) {
            assert(present(periods@, time_at(col, r as int)));
        } else {
            let ghost before = periods@;
            let ghost first_before = first_row@;
            periods.insert(pos, v);
            first_row.insert(pos, r);
            assert(periods@[pos as int] == time_at(col, r as int));
            assert forall|i: int, j: int| 0 <= i < j < periods@.len() implies period_lt(
                #[trigger] periods@[i],
                #[trigger] periods@[j],
            ) by {
                let x = periods@[pos as int];
                if pos < before.len() {
                    lemma_period_order(before[pos as int], x, x);
                    lemma_period_order(x, before[pos as int], x);
                }
                if i < pos && j == pos {
                } else if i < pos && j > pos {
                    assert(periods@[i] == before[i]);
                    assert(periods@[j] == before[j - 1]);
                    lemma_period_order(before[i], x, before[j - 1]);
                    if j - 1 > pos {
                        lemma_period_order(x, before[pos as int], before[j - 1]);
                    }
                } else if i == pos {
                    assert(periods@[j] == before[j - 1]);
                    if j - 1 > pos {
                        lemma_period_order(x, before[pos as int], before[j - 1]);
                    }
                } else if i > pos {
                    assert(periods@[i] == before[i - 1]);
                    assert(periods@[j] == before[j - 1]);
                } else {
                    assert(periods@[i] == before[i]);
                    assert(periods@[j] == before[j]);
                }
            }
            assert forall|q: int| 0 <= q <= r implies #[trigger] present(periods@, time_at(col, q)) by {
                if q < r {
                    assert(present(before, time_at(col, q)));
                    let i = choose|i: int| 0 <= i < before.len() && same_period(before[i], time_at(col, q));
                    assert(present(periods@, time_at(col, q))) by {
                        if i < pos {
                            assert(periods@[i] == before[i]);
                        } else {
                            assert(periods@[i + 1] == before[i]);
                        }
                    }
                } else {
                    lemma_period_order(periods@[pos as int], periods@[pos as int], periods@[pos as int]);
                }
            }
            assert forall|p: int| 0 <= p < periods@.len() implies #[trigger] first_row@[p] < r + 1
                && periods@[p] == time_at(col, first_row@[p] as int) by {
                if p < pos {
                    assert(first_row@[p] == first_before[p]);
                    assert(periods@[p] == before[p]);
                } else if p > pos {
                    assert(first_row@[p] == first_before[p - 1]);
                    assert(periods@[p] == before[p - 1]);
                }
            }
        }
        r += 1;
    }
    let mut row_period: Vec<usize> = Vec::new();
    r = 0;
    while r < n
        invariant
            t.wf(),
            n == t.rows(),
            c < t.columns().len(),
            col == t.columns()[c as int],
            0 <= r <= n,
            increasing(periods@),
            forall|q: int| 0 <= q < n ==> #[trigger] present(periods@, time_at(col, q)),
            first_row@.len() == periods@.len(),
            forall|p: int|
                0 <= p < periods@.len() ==> #[trigger] first_row@[p] < n && periods@[p] == time_at(
                    col,
                    first_row@[p] as int,
                ),
            row_period@.len() == r,
            forall|q: int|
                0 <= q < r ==> #[trigger] row_period@[q] < periods@.len() && same_period(
                    periods@[row_period@[q] as int],
                    time_at(col, q),
                ),
        decreases n - r,
    {
        let v = read_period(t, c, r);
        let pos = lower_bound(&periods, &v);
        assert(present(periods@, time_at(col, r as int)));
        proof {
            let i = choose|i: int| 0 <= i < periods@.len() && same_period(periods@[i], v);
            lemma_period_order(periods@[i], v, v);
            if i < pos {
                lemma_period_order(periods@[i], v, v);
            } else if i > pos {
                lemma_period_order(periods@[pos as int], periods@[i], v);
            }
        }
        row_period.push(pos);
        r += 1;
    }
    PeriodIndex { periods, row_period, first_row }
}

} // verus!
