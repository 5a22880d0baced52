//! Views and small helpers for tables held as vectors of row vectors.

use vstd::prelude::*;

verus! {

/// The mathematical value of a table: the sequence of its rows' views.
pub open spec fn view2<T>(m: Vec<Vec<T>>) -> Seq<Seq<T>> {
    Seq::new(m@.len(), |i: int| m@[i]@)
}

/// Total number of cells in a table (rows may differ in length).
pub open spec fn sum_lens<T>(m: Seq<Seq<T>>) -> nat
    decreases m.len(),
{
    if m.len() == 0 {
        0
    } else {
        m[0].len() + sum_lens(m.drop_first())
    }
}

pub proof fn lemma_sum_lens_push<T>(m: Seq<Seq<T>>, row: Seq<T>)
    ensures
        sum_lens(m.push(row)) == sum_lens(m) + row.len(),
    decreases m.len(),
{
    if m.len() == 0 {
        assert(m.push(row).drop_first() =~= Seq::<Seq<T>>::empty());
        assert(m.push(row)[0] =~= row);
        assert(sum_lens(m.push(row)) == row.len() + sum_lens(m.push(row).drop_first()));
    } else {
        assert(m.push(row).drop_first() =~= m.drop_first().push(row));
        assert(m.push(row)[0] =~= m[0]);
        lemma_sum_lens_push(m.drop_first(), row);
        assert(sum_lens(m.push(row)) == m[0].len() + sum_lens(m.drop_first().push(row)));
    }
}

/// Tables whose rows have pointwise equal lengths have the same cell count.
pub proof fn lemma_sum_lens_congruent<A, B>(m: Seq<Seq<A>>, n: Seq<Seq<B>>)
    requires
        m.len() == n.len(),
        forall|i: int| 0 <= i < m.len() ==> m[i].len() == #[trigger] n[i].len(),
    ensures
        sum_lens(m) == sum_lens(n),
    decreases m.len(),
{
    if m.len() > 0 {
        assert(forall|i: int|
            0 <= i < m.drop_first().len() ==> m.drop_first()[i].len() == #[trigger] n.drop_first()[
                i
            ].len());
        lemma_sum_lens_congruent(m.drop_first(), n.drop_first());
    }
}

/// The rows of a table in reverse order (the last row first).
pub open spec fn flip<T>(g: Seq<Seq<T>>) -> Seq<Seq<T>> {
    Seq::new(g.len(), |i: int| g[g.len() - 1 - i])
}

/// Dropping leading rows cannot increase the cell count.
pub proof fn lemma_sum_lens_drop_first<T>(m: Seq<Seq<T>>)
    requires
        m.len() > 0,
    ensures
        sum_lens(m) == m[0].len() + sum_lens(m.drop_first()),
{
}

/// Number of `Some` entries in a row of optional values.
pub open spec fn count_some_row<T>(row: Seq<Option<T>>) -> nat
    decreases row.len(),
{
    if row.len() == 0 {
        0
    } else {
        count_some_row(row.drop_last()) + (if row.last() is Some {
            1nat
        } else {
            0nat
        })
    }
}

/// Number of `Some` entries in a whole table of optional values.
pub open spec fn count_some<T>(m: Seq<Seq<Option<T>>>) -> nat
    decreases m.len(),
{
    if m.len() == 0 {
        0
    } else {
        count_some(m.drop_last()) + count_some_row(m.last())
    }
}

pub proof fn lemma_count_some_row_le<T>(row: Seq<Option<T>>)
    ensures
        count_some_row(row) <= row.len(),
    decreases row.len(),
{
    if row.len() > 0 {
        lemma_count_some_row_le(row.drop_last());
    }
}

pub proof fn lemma_count_some_row_update<T>(row: Seq<Option<T>>, c: int, x: T)
    requires
        0 <= c < row.len(),
        row[c] is None,
    ensures
        count_some_row(row.update(c, Some(x))) == count_some_row(row) + 1,
    decreases row.len(),
{
    let row2 = row.update(c, Some(x));
    if c == row.len() - 1 {
        assert(row2.drop_last() =~= row.drop_last());
    } else {
        assert(row2.drop_last() =~= row.drop_last().update(c, Some(x)));
        lemma_count_some_row_update(row.drop_last(), c, x);
    }
}

pub proof fn lemma_count_some_update<T>(m: Seq<Seq<Option<T>>>, r: int, c: int, x: T)
    requires
        0 <= r < m.len(),
        0 <= c < m[r].len(),
        m[r][c] is None,
    ensures
        count_some(m.update(r, m[r].update(c, Some(x)))) == count_some(m) + 1,
    decreases m.len(),
{
    let m2 = m.update(r, m[r].update(c, Some(x)));
    if r == m.len() - 1 {
        assert(m2.drop_last() =~= m.drop_last());
        lemma_count_some_row_update(m.last(), c, x);
        assert(m2.last() =~= m.last().update(c, Some(x)));
    } else {
        assert(m2.drop_last() =~= m.drop_last().update(r, m[r].update(c, Some(x))));
        assert(m2.last() =~= m.last());
        lemma_count_some_update(m.drop_last(), r, c, x);
    }
}

pub proof fn lemma_count_some_row_zero<T>(row: Seq<Option<T>>)
    requires
        forall|b: int| 0 <= b < row.len() ==> (#[trigger] row[b]) is None,
    ensures
        count_some_row(row) == 0,
    decreases row.len(),
{
    if row.len() > 0 {
        lemma_count_some_row_zero(row.drop_last());
    }
}

/// A table of `None` entries has nothing recorded.
pub proof fn lemma_count_some_zero<T>(m: Seq<Seq<Option<T>>>)
    requires
        forall|a: int, b: int|
            0 <= a < m.len() && 0 <= b < m[a].len() ==> (#[trigger] m[a][b]) is None,
    ensures
        count_some(m) == 0,
    decreases m.len(),
{
    if m.len() > 0 {
        lemma_count_some_zero(m.drop_last());
        lemma_count_some_row_zero(m.last());
    }
}

/// The count of recorded entries never exceeds the cell count.
pub proof fn lemma_count_some_le_sum<T>(m: Seq<Seq<Option<T>>>)
    ensures
        count_some(m) <= sum_lens(m),
    decreases m.len(),
{
    if m.len() > 0 {
        lemma_count_some_le_sum(m.drop_last());
        lemma_count_some_row_le(m.last());
        lemma_sum_lens_drop_last(m);
    }
}

pub proof fn lemma_sum_lens_drop_last<T>(m: Seq<Seq<T>>)
    requires
        m.len() > 0,
    ensures
        sum_lens(m) == sum_lens(m.drop_last()) + m.last().len(),
{
    assert(m =~= m.drop_last().push(m.last()));
    lemma_sum_lens_push(m.drop_last(), m.last());
}

/// Number of `true` entries in a row of flags.
pub open spec fn count_true_row(row: Seq<bool>) -> nat
    decreases row.len(),
{
    if row.len() == 0 {
        0
    } else {
        count_true_row(row.drop_last()) + (if row.last() {
            1nat
        } else {
            0nat
        })
    }
}

/// Number of `true` entries in a whole table of flags.
pub open spec fn count_true(m: Seq<Seq<bool>>) -> nat
    decreases m.len(),
{
    if m.len() == 0 {
        0
    } else {
        count_true(m.drop_last()) + count_true_row(m.last())
    }
}

pub proof fn lemma_count_true_row_zero(row: Seq<bool>)
    requires
        forall|b: int| 0 <= b < row.len() ==> !(#[trigger] row[b]),
    ensures
        count_true_row(row) == 0,
    decreases row.len(),
{
    if row.len() > 0 {
        lemma_count_true_row_zero(row.drop_last());
    }
}

/// A table of unset flags has nothing marked.
pub proof fn lemma_count_true_zero(m: Seq<Seq<bool>>)
    requires
        forall|a: int, b: int| 0 <= a < m.len() && 0 <= b < m[a].len() ==> !(#[trigger] m[a][b]),
    ensures
        count_true(m) == 0,
    decreases m.len(),
{
    if m.len() > 0 {
        lemma_count_true_zero(m.drop_last());
        lemma_count_true_row_zero(m.last());
    }
}

pub proof fn lemma_count_true_row_le(row: Seq<bool>)
    ensures
        count_true_row(row) <= row.len(),
    decreases row.len(),
{
    if row.len() > 0 {
        lemma_count_true_row_le(row.drop_last());
    }
}

pub proof fn lemma_count_true_row_update(row: Seq<bool>, c: int)
    requires
        0 <= c < row.len(),
        !row[c],
    ensures
        count_true_row(row.update(c, true)) == count_true_row(row) + 1,
    decreases row.len(),
{
    let row2 = row.update(c, true);
    if c == row.len() - 1 {
        assert(row2.drop_last() =~= row.drop_last());
    } else {
        assert(row2.drop_last() =~= row.drop_last().update(c, true));
        lemma_count_true_row_update(row.drop_last(), c);
    }
}

pub proof fn lemma_count_true_update(m: Seq<Seq<bool>>, r: int, c: int)
    requires
        0 <= r < m.len(),
        0 <= c < m[r].len(),
        !m[r][c],
    ensures
        count_true(m.update(r, m[r].update(c, true))) == count_true(m) + 1,
    decreases m.len(),
{
    let m2 = m.update(r, m[r].update(c, true));
    if r == m.len() - 1 {
        assert(m2.drop_last() =~= m.drop_last());
        lemma_count_true_row_update(m.last(), c);
        assert(m2.last() =~= m.last().update(c, true));
    } else {
        assert(m2.drop_last() =~= m.drop_last().update(r, m[r].update(c, true)));
        assert(m2.last() =~= m.last());
        lemma_count_true_update(m.drop_last(), r, c);
    }
}

pub proof fn lemma_count_true_le_sum(m: Seq<Seq<bool>>)
    ensures
        count_true(m) <= sum_lens(m),
    decreases m.len(),
{
    if m.len() > 0 {
        lemma_count_true_le_sum(m.drop_last());
        lemma_count_true_row_le(m.last());
        lemma_sum_lens_drop_last(m);
    }
}

/// Write one cell of a table, leaving every other cell as it was.
pub fn set2<T>(m: &mut Vec<Vec<T>>, r: usize, c: usize, x: T)
    requires
        r < view2(*old(m)).len(),
        c < view2(*old(m))[r as int].len(),
    ensures
        view2(*final(m)) == view2(*old(m)).update(
            r as int,
            view2(*old(m))[r as int].update(c as int, x),
        ),
{
    let row = &mut m[r];
    row[c] = x;
    proof {
        assert(view2(*m) =~= view2(*old(m)).update(
            r as int,
            view2(*old(m))[r as int].update(c as int, x),
        ));
    }
}

} // verus!
