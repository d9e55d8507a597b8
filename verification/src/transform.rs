use crate::grid::{flat, index_of, lemma_flat_in_bounds, lemma_flat_injective};
use vstd::prelude::*;

verus! {

/// Row `r` of a square of side `n`.
pub open spec fn row_of<C>(data: Seq<C>, n: int, r: int) -> Seq<C> {
    Seq::new(n as nat, |x: int| data[flat(n, r, x)])
}

/// Column `c` of a square of side `n`.
pub open spec fn column_of<C>(data: Seq<C>, n: int, c: int) -> Seq<C> {
    Seq::new(n as nat, |y: int| data[flat(n, y, c)])
}

/// `after` is a result of the one-dimensional transform `f` on `before`.
pub open spec fn line_mapped<C, F: Fn(Vec<C>) -> Vec<C>>(f: F, before: Seq<C>, after: Seq<C>) -> bool {
    exists|v: Vec<C>, w: Vec<C>| v@ == before && w@ == after && f.ensures((v,), w)
}

/// Every row of `after` is a result of `f` on the same row of `before`.
pub open spec fn rows_mapped<C, F: Fn(Vec<C>) -> Vec<C>>(f: F, n: int, before: Seq<C>, after: Seq<C>) -> bool {
    &&& before.len() == n * n
    &&& after.len() == n * n
    &&& forall|r: int| 0 <= r < n ==> line_mapped(f, #[trigger] row_of(before, n, r), row_of(after, n, r))
}

/// Every column of `after` is a result of `f` on the same column of `before`.
pub open spec fn columns_mapped<C, F: Fn(Vec<C>) -> Vec<C>>(
    f: F,
    n: int,
    before: Seq<C>,
    after: Seq<C>,
) -> bool {
    &&& before.len() == n * n
    &&& after.len() == n * n
    &&& forall|c: int|
        0 <= c < n ==> line_mapped(f, #[trigger] column_of(before, n, c), column_of(after, n, c))
}

/// `after` comes from `before` by `f` on every row, then `f` on every
/// column of what the rows gave.
pub open spec fn transformed_2d<C, F: Fn(Vec<C>) -> Vec<C>>(
    f: F,
    n: int,
    before: Seq<C>,
    after: Seq<C>,
) -> bool {
    exists|mid: Seq<C>| rows_mapped(f, n, before, mid) && columns_mapped(f, n, mid, after)
}

/// Every coefficient of `after` is a result of `scale` on the coefficient
/// of `before` at the same place, with `count` as its second argument.
pub open spec fn all_scaled<C, S: Fn(C, usize) -> C>(scale: S, count: usize, before: Seq<C>, after: Seq<C>) -> bool {
    &&& before.len() == after.len()
    &&& forall|i: int| 0 <= i < before.len() ==> scale.ensures((before[i], count), #[trigger] after[i])
}

/// `after` comes from `before` by the two-dimensional transform with `f`,
/// followed by `scale` on every coefficient with the number of
/// coefficients, `n * n`, as its second argument.
pub open spec fn inverse_transformed_2d<C, F: Fn(Vec<C>) -> Vec<C>, S: Fn(C, usize) -> C>(
    f: F,
    scale: S,
    n: int,
    before: Seq<C>,
    after: Seq<C>,
) -> bool {
    exists|mid: Seq<C>|
        transformed_2d(f, n, before, mid) && all_scaled(scale, (n * n) as usize, mid, after)
}

/// The one-dimensional transform `f` accepts every sequence of `n`
/// coefficients and gives back as many as it was given.
pub open spec fn transform_ready<C, F: Fn(Vec<C>) -> Vec<C>>(f: F, n: int) -> bool {
    &&& forall|v: Vec<C>| v@.len() == n ==> #[trigger] f.requires((v,))
    &&& forall|v: Vec<C>, w: Vec<C>| #[trigger] f.ensures((v,), w) ==> w@.len() == v@.len()
}

fn gather_row<C: Copy>(data: &Vec<C>, n: usize, row: usize) -> (line: Vec<C>)
    requires
        data@.len() == n * n <= usize::MAX,
        row < n,
    ensures
        line@ == row_of(data@, n as int, row as int),
{
    let mut line: Vec<C> = Vec::new();
    let mut x: usize = 0;
    while x < n
        invariant
            x <= n,
            row < n,
            data@.len() == n * n <= usize::MAX,
            line@.len() == x,
            forall|k: int| 0 <= k < x ==> line@[k] == data@[flat(n as int, row as int, k)],
        decreases n - x,
    {
        let i: usize = index_of(n, n, row, x);
        line.push(data[i]);
        x += 1;
    }
    assert(line@ =~= row_of(data@, n as int, row as int));
    line
}

fn gather_column<C: Copy>(data: &Vec<C>, n: usize, col: usize) -> (line: Vec<C>)
    requires
        data@.len() == n * n <= usize::MAX,
        col < n,
    ensures
        line@ == column_of(data@, n as int, col as int),
{
    let mut line: Vec<C> = Vec::new();
    let mut y: usize = 0;
    while y < n
        invariant
            y <= n,
            col < n,
            data@.len() == n * n <= usize::MAX,
            line@.len() == y,
            forall|k: int| 0 <= k < y ==> line@[k] == data@[flat(n as int, k, col as int)],
        decreases n - y,
    {
        let i: usize = index_of(n, n, y, col);
        line.push(data[i]);
        y += 1;
    }
    assert(line@ =~= column_of(data@, n as int, col as int));
    line
}

fn scatter_row<C: Copy>(data: &mut Vec<C>, n: usize, row: usize, line: &Vec<C>)
    requires
        old(data)@.len() == n * n <= usize::MAX,
        row < n,
        line@.len() == n,
    ensures
        final(data)@.len() == n * n,
        row_of(final(data)@, n as int, row as int) == line@,
        forall|r: int|
            0 <= r < n && r != row ==> #[trigger] row_of(final(data)@, n as int, r) == row_of(
                old(data)@,
                n as int,
                r,
            ),
{
    let mut x: usize = 0;
    while x < n
        invariant
            x <= n,
            row < n,
            line@.len() == n,
            data@.len() == n * n <= usize::MAX,
            forall|yy: int, xx: int|
                0 <= yy < n && 0 <= xx < n ==> data@[#[trigger] flat(n as int, yy, xx)] == if yy == row
                    && xx < x {
                    line@[xx]
                } else {
                    old(data)@[flat(n as int, yy, xx)]
                },
        decreases n - x,
    {
        let i: usize = index_of(n, n, row, x);
        data.set(i, line[x]);
        proof {
            assert forall|yy: int, xx: int| 0 <= yy < n && 0 <= xx < n implies data@[#[trigger] flat(
                n as int,
                yy,
                xx,
            )] == if yy == row && xx < x + 1 {
                line@[xx]
            } else {
                old(data)@[flat(n as int, yy, xx)]
            } by {
                lemma_flat_in_bounds(n as int, n as int, yy, xx);
                if flat(n as int, yy, xx) == i {
                    lemma_flat_injective(n as int, yy, xx, row as int, x as int);
                }
            }
        }
        x += 1;
    }
    proof {
        assert(row_of(data@, n as int, row as int) =~= line@);
        assert forall|r: int| 0 <= r < n && r != row implies #[trigger] row_of(data@, n as int, r)
            == row_of(old(data)@, n as int, r) by {
            assert(row_of(data@, n as int, r) =~= row_of(old(data)@, n as int, r));
        }
    }
}

fn scatter_column<C: Copy>(data: &mut Vec<C>, n: usize, col: usize, line: &Vec<C>)
    requires
        old(data)@.len() == n * n <= usize::MAX,
        col < n,
        line@.len() == n,
    ensures
        final(data)@.len() == n * n,
        column_of(final(data)@, n as int, col as int) == line@,
        forall|c: int|
            0 <= c < n && c != col ==> #[trigger] column_of(final(data)@, n as int, c) == column_of(
                old(data)@,
                n as int,
                c,
            ),
{
    let mut y: usize = 0;
    while y < n
        invariant
            y <= n,
            col < n,
            line@.len() == n,
            data@.len() == n * n <= usize::MAX,
            forall|yy: int, xx: int|
                0 <= yy < n && 0 <= xx < n ==> data@[#[trigger] flat(n as int, yy, xx)] == if xx == col
                    && yy < y {
                    line@[yy]
                } else {
                    old(data)@[flat(n as int, yy, xx)]
                },
        decreases n - y,
    {
        let i: usize = index_of(n, n, y, col);
        data.set(i, line[y]);
        proof {
            assert forall|yy: int, xx: int| 0 <= yy < n && 0 <= xx < n implies data@[#[trigger] flat(
                n as int,
                yy,
                xx,
            )] == if xx == col && yy < y + 1 {
                line@[yy]
            } else {
                old(data)@[flat(n as int, yy, xx)]
            } by {
                lemma_flat_in_bounds(n as int, n as int, yy, xx);
                if flat(n as int, yy, xx) == i {
                    lemma_flat_injective(n as int, yy, xx, y as int, col as int);
                }
            }
        }
        y += 1;
    }
    proof {
        assert(column_of(data@, n as int, col as int) =~= line@);
        assert forall|c: int| 0 <= c < n && c != col implies #[trigger] column_of(data@, n as int, c)
            == column_of(old(data)@, n as int, c) by {
            assert(column_of(data@, n as int, c) =~= column_of(old(data)@, n as int, c));
        }
    }
}

fn transform_rows<C: Copy, F: Fn(Vec<C>) -> Vec<C>>(data: &mut Vec<C>, n: usize, f: &F)
    requires
        old(data)@.len() == n * n <= usize::MAX,
        transform_ready(*f, n as int),
    ensures
        rows_mapped(*f, n as int, old(data)@, final(data)@),
{
    let mut row: usize = 0;
    while row < n
        invariant
            row <= n,
            data@.len() == n * n <= usize::MAX,
            transform_ready(*f, n as int),
            forall|r: int|
                0 <= r < row ==> line_mapped(
                    *f,
                    #[trigger] row_of(old(data)@, n as int, r),
                    row_of(data@, n as int, r),
                ),
            forall|r: int|
                row <= r < n ==> #[trigger] row_of(data@, n as int, r) == row_of(old(data)@, n as int, r),
        decreases n - row,
    {
        let ghost prev = data@;
        let line: Vec<C> = gather_row(data, n, row);
        let out: Vec<C> = f(line);
        scatter_row(data, n, row, &out);
        proof {
            assert(line@ == row_of(old(data)@, n as int, row as int));
            assert forall|r: int| 0 <= r < row + 1 implies line_mapped(
                *f,
                #[trigger] row_of(old(data)@, n as int, r),
                row_of(data@, n as int, r),
            ) by {
                if r < row {
                    assert(row_of(data@, n as int, r) == row_of(prev, n as int, r));
                }
            }
            assert forall|r: int| row + 1 <= r < n implies #[trigger] row_of(data@, n as int, r)
                == row_of(old(data)@, n as int, r) by {
                assert(row_of(data@, n as int, r) == row_of(prev, n as int, r));
            }
        }
        row += 1;
    }
}

fn transform_columns<C: Copy, F: Fn(Vec<C>) -> Vec<C>>(data: &mut Vec<C>, n: usize, f: &F)
    requires
        old(data)@.len() == n * n <= usize::MAX,
        transform_ready(*f, n as int),
    ensures
        columns_mapped(*f, n as int, old(data)@, final(data)@),
{
    let mut col: usize = 0;
    while col < n
        invariant
            col <= n,
            data@.len() == n * n <= usize::MAX,
            transform_ready(*f, n as int),
            forall|c: int|
                0 <= c < col ==> line_mapped(
                    *f,
                    #[trigger] column_of(old(data)@, n as int, c),
                    column_of(data@, n as int, c),
                ),
            forall|c: int|
                col <= c < n ==> #[trigger] column_of(data@, n as int, c) == column_of(
                    old(data)@,
                    n as int,
                    c,
                ),
        decreases n - col,
    {
        let ghost prev = data@;
        let line: Vec<C> = gather_column(data, n, col);
        let out: Vec<C> = f(line);
        scatter_column(data, n, col, &out);
        proof {
            assert(line@ == column_of(old(data)@, n as int, col as int));
            assert forall|c: int| 0 <= c < col + 1 implies line_mapped(
                *f,
                #[trigger] column_of(old(data)@, n as int, c),
                column_of(data@, n as int, c),
            ) by {
                if c < col {
                    assert(column_of(data@, n as int, c) == column_of(prev, n as int, c));
                }
            }
            assert forall|c: int| col + 1 <= c < n implies #[trigger] column_of(data@, n as int, c)
                == column_of(old(data)@, n as int, c) by {
                assert(column_of(data@, n as int, c) == column_of(prev, n as int, c));
            }
        }
        col += 1;
    }
}

/// Computes the two-dimensional transform in place: the one-dimensional
/// transform `forward` along every row, then along every column.
pub fn fft2d<C: Copy, F: Fn(Vec<C>) -> Vec<C>>(data: &mut Vec<C>, n: usize, forward: &F)
    requires
        old(data)@.len() == n * n,
        transform_ready(*forward, n as int),
    ensures
        transformed_2d(*forward, n as int, old(data)@, final(data)@),
{
    let count: usize = data.len();
    transform_rows(data, n, forward);
    let ghost mid = data@;
    transform_columns(data, n, forward);
    assert(rows_mapped(*forward, n as int, old(data)@, mid) && columns_mapped(
        *forward,
        n as int,
        mid,
        data@,
    ));
}

/// Computes the two-dimensional inverse transform in place: the
/// one-dimensional transform `inverse` along every row, then along every
/// column, and at last `scale` on every coefficient, which is handed the
/// number of coefficients `n * n`.
pub fn ifft2d<C: Copy, F: Fn(Vec<C>) -> Vec<C>, S: Fn(C, usize) -> C>(
    data: &mut Vec<C>,
    n: usize,
    inverse: &F,
    scale: &S,
)
    requires
        old(data)@.len() == n * n,
        transform_ready(*inverse, n as int),
        forall|c: C, count: usize| count == n * n ==> #[trigger] scale.requires((c, count)),
    ensures
        inverse_transformed_2d(*inverse, *scale, n as int, old(data)@, final(data)@),
{
    let count: usize = data.len();
    transform_rows(data, n, inverse);
    let ghost rows_done = data@;
    transform_columns(data, n, inverse);
    let ghost mid = data@;
    assert(rows_mapped(*inverse, n as int, old(data)@, rows_done) && columns_mapped(
        *inverse,
        n as int,
        rows_done,
        mid,
    ));
    assert(transformed_2d(*inverse, n as int, old(data)@, mid));
    assert((n * n) as usize == count);
    let mut i: usize = 0;
    while i < count
        invariant
            i <= count,
            count == n * n,
            data@.len() == count,
            mid.len() == count,
            forall|c: C| #[trigger] scale.requires((c, count)),
            forall|k: int| 0 <= k < i ==> scale.ensures((mid[k], count), #[trigger] data@[k]),
            forall|k: int| i <= k < count ==> data@[k] == mid[k],
        decreases count - i,
    {
        let v: C = scale(data[i], count);
        data.set(i, v);
        i += 1;
    }
    assert(all_scaled(*scale, (n * n) as usize, mid, data@));
}

} // verus!
