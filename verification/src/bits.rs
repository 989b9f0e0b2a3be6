//! Rows and tables of flags, and how many of them are still unset: the
//! measure by which the fixed-point computations end.
use vstd::prelude::*;

verus! {

/// How many flags of a row are unset.
pub open spec fn count_false(s: Seq<bool>) -> nat
    decreases s.len(),
{
    if s.len() == 0 {
        0
    } else {
        count_false(s.drop_last()) + if s.last() {
            0nat
        } else {
            1nat
        }
    }
}

pub proof fn lemma_count_set(s: Seq<bool>, j: int)
    requires
        0 <= j < s.len(),
        !s[j],
    ensures
        count_false(s.update(j, true)) + 1 == count_false(s),
    decreases s.len(),
{
    let s2 = s.update(j, true);
    if j == s.len() - 1 {
        assert(s2.drop_last() =~= s.drop_last());
    } else {
        assert(s2.drop_last() =~= s.drop_last().update(j, true));
        lemma_count_set(s.drop_last(), j);
    }
}

/// How many flags of a table are unset.
pub open spec fn count_unset(m: Seq<Seq<bool>>) -> nat
    decreases m.len(),
{
    if m.len() == 0 {
        0
    } else {
        count_unset(m.drop_last()) + count_false(m.last())
    }
}

pub proof fn lemma_count_unset_set(m: Seq<Seq<bool>>, i: int, j: int)
    requires
        0 <= i < m.len(),
        0 <= j < m[i].len(),
        !m[i][j],
    ensures
        count_unset(m.update(i, m[i].update(j, true))) + 1 == count_unset(m),
    decreases m.len(),
{
    let m2 = m.update(i, m[i].update(j, true));
    if i == m.len() - 1 {
        assert(m2.drop_last() =~= m.drop_last());
        lemma_count_set(m[i], j);
    } else {
        assert(m2.drop_last() =~= m.drop_last().update(i, m.drop_last()[i].update(j, true)));
        lemma_count_unset_set(m.drop_last(), i, j);
    }
}

/// The rows of a table of flags.
pub open spec fn rows_view(cells: Seq<Vec<bool>>) -> Seq<Seq<bool>> {
    Seq::new(cells.len(), |i: int| cells[i]@)
}

/// Every row of the table has `ncols` flags.
pub open spec fn rect(m: Seq<Seq<bool>>, nrows: int, ncols: int) -> bool {
    &&& m.len() == nrows
    &&& forall|i: int| 0 <= i < nrows ==> (#[trigger] m[i]).len() == ncols
}

/// A row of `n` unset flags.
pub fn new_row(n: usize) -> (r: Vec<bool>)
    ensures
        r@.len() == n,
        forall|j: int| 0 <= j < n ==> !r@[j],
{
    let mut r: Vec<bool> = Vec::new();
    let mut j: usize = 0;
    while j < n
        invariant
            j <= n,
            r@.len() == j,
            forall|j2: int| 0 <= j2 < j ==> !r@[j2],
        decreases n - j,
    {
        r.push(false);
        j += 1;
    }
    r
}

/// A table of `nrows` rows of `ncols` unset flags.
pub fn new_table(nrows: usize, ncols: usize) -> (r: Vec<Vec<bool>>)
    ensures
        rect(rows_view(r@), nrows as int, ncols as int),
        forall|i: int, j: int| 0 <= i < nrows && 0 <= j < ncols ==> !(#[trigger] r@[i]@[j]),
{
    let mut r: Vec<Vec<bool>> = Vec::new();
    let mut i: usize = 0;
    while i < nrows
        invariant
            i <= nrows,
            r@.len() == i,
            forall|i2: int| 0 <= i2 < i ==> (#[trigger] r@[i2])@.len() == ncols,
            forall|i2: int, j: int| 0 <= i2 < i && 0 <= j < ncols ==> !(#[trigger] r@[i2]@[j]),
        decreases nrows - i,
    {
        r.push(new_row(ncols));
        i += 1;
    }
    r
}

/// Sets one flag of a row; tells whether it was unset.
pub fn mark_flag(row: &mut Vec<bool>, j: usize) -> (ch: bool)
    requires
        j < old(row)@.len(),
    ensures
        ch == !old(row)@[j as int],
        final(row)@ == old(row)@.update(j as int, true),
        ch ==> count_false(final(row)@) + 1 == count_false(old(row)@),
        !ch ==> final(row)@ == old(row)@,
{
    if row[j] {
        assert(row@.update(j as int, true) =~= row@);
        false
    } else {
        proof {
            lemma_count_set(row@, j as int);
        }
        row.set(j, true);
        true
    }
}

/// Copies a row of flags.
pub fn clone_flags(v: &Vec<bool>) -> (r: Vec<bool>)
    ensures
        r@ == v@,
{
    let mut r: Vec<bool> = Vec::new();
    let mut j: usize = 0;
    while j < v.len()
        invariant
            j <= v@.len(),
            r@ == v@.take(j as int),
        decreases v@.len() - j,
    {
        r.push(v[j]);
        assert(v@.take(j as int).push(v@[j as int]) =~= v@.take(j + 1));
        j += 1;
    }
    assert(v@.take(v@.len() as int) =~= v@);
    r
}

/// Sets in `row` every flag that is set in `src`.
pub fn absorb_flags(row: &mut Vec<bool>, src: &Vec<bool>)
    requires
        old(row)@.len() == src@.len(),
    ensures
        final(row)@.len() == src@.len(),
        forall|j: int| 0 <= j < src@.len() ==> final(row)@[j] == (old(row)@[j] || src@[j]),
{
    let ghost row0 = row@;
    let mut j: usize = 0;
    while j < src.len()
        invariant
            j <= src@.len(),
            row@.len() == src@.len(),
            row0.len() == src@.len(),
            forall|j2: int| 0 <= j2 < j ==> #[trigger] row@[j2] == (row0[j2] || src@[j2]),
            forall|j2: int| j <= j2 < src@.len() ==> #[trigger] row@[j2] == row0[j2],
        decreases src@.len() - j,
    {
        if src[j] {
            row.set(j, true);
        }
        j += 1;
    }
}

/// Sets one flag of a table; tells whether it was unset.
pub fn mark(cells: &mut Vec<Vec<bool>>, i: usize, j: usize) -> (ch: bool)
    requires
        i < old(cells)@.len(),
        j < old(cells)@[i as int]@.len(),
    ensures
        ch == !old(cells)@[i as int]@[j as int],
        rows_view(final(cells)@) == rows_view(old(cells)@).update(
            i as int,
            old(cells)@[i as int]@.update(j as int, true),
        ),
        ch ==> count_unset(rows_view(final(cells)@)) + 1 == count_unset(rows_view(old(cells)@)),
        !ch ==> rows_view(final(cells)@) == rows_view(old(cells)@),
{
    let ghost m = rows_view(cells@);
    if cells[i][j] {
        assert(m[i as int].update(j as int, true) =~= m[i as int]);
        assert(m.update(i as int, m[i as int].update(j as int, true)) =~= m);
        false
    } else {
        proof {
            lemma_count_unset_set(m, i as int, j as int);
        }
        cells[i][j] = true;
        assert(rows_view(cells@) =~= m.update(i as int, m[i as int].update(j as int, true)));
        true
    }
}

/// Sets in row `i` every flag that is set in `row`; tells whether one was
/// unset.
pub fn absorb_row(cells: &mut Vec<Vec<bool>>, i: usize, row: &Vec<bool>) -> (ch: bool)
    requires
        i < old(cells)@.len(),
        row@.len() == old(cells)@[i as int]@.len(),
    ensures
        rows_view(final(cells)@).len() == rows_view(old(cells)@).len(),
        forall|i2: int|
            0 <= i2 < old(cells)@.len() && i2 != i ==> #[trigger] rows_view(final(cells)@)[i2]
                == rows_view(old(cells)@)[i2],
        rows_view(final(cells)@)[i as int].len() == row@.len(),
        forall|j: int|
            0 <= j < row@.len() ==> #[trigger] rows_view(final(cells)@)[i as int][j] == (
            rows_view(old(cells)@)[i as int][j] || row@[j]),
        ch ==> count_unset(rows_view(final(cells)@)) < count_unset(rows_view(old(cells)@)),
        !ch ==> rows_view(final(cells)@) == rows_view(old(cells)@),
        ch <==> exists|j: int| 0 <= j < row@.len() && row@[j] && !rows_view(old(cells)@)[i as int][j],
{
    let ghost m0 = rows_view(cells@);
    let mut ch = false;
    let mut j: usize = 0;
    while j < row.len()
        invariant
            j <= row@.len(),
            i < cells@.len(),
            rows_view(cells@).len() == m0.len(),
            rows_view(cells@)[i as int].len() == row@.len(),
            m0[i as int].len() == row@.len(),
            forall|i2: int|
                0 <= i2 < m0.len() && i2 != i ==> #[trigger] rows_view(cells@)[i2] == m0[i2],
            forall|j2: int|
                0 <= j2 < j ==> #[trigger] rows_view(cells@)[i as int][j2] == (m0[i as int][j2]
                    || row@[j2]),
            forall|j2: int|
                j <= j2 < row@.len() ==> #[trigger] rows_view(cells@)[i as int][j2]
                    == m0[i as int][j2],
            ch ==> count_unset(rows_view(cells@)) < count_unset(m0),
            !ch ==> rows_view(cells@) == m0,
            ch <==> exists|j2: int| 0 <= j2 < j && row@[j2] && !m0[i as int][j2],
        decreases row@.len() - j,
    {
        let ghost m1 = rows_view(cells@);
        if row[j] {
            let c = mark(cells, i, j);
            if c {
                ch = true;
                assert(row@[j as int] && !m0[i as int][j as int]);
            }
        }
        proof {
            let m2 = rows_view(cells@);
            assert(m2[i as int] =~= m1[i as int].update(j as int, m1[i as int][j as int]
                || row@[j as int]));
            assert forall|i2: int| 0 <= i2 < m0.len() && i2 != i implies #[trigger] m2[i2]
                == m0[i2] by {
                assert(m1[i2] == m0[i2]);
            }
            if !ch {
                assert(m2 =~= m0);
            }
        }
        j += 1;
    }
    ch
}

} // verus!
