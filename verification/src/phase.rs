use crate::grid::{flat, index_of, lemma_flat_in_bounds, lemma_flat_injective, lemma_flat_of_position};
use crate::plane::Complex;
use vstd::arithmetic::power2::is_pow2;
use vstd::prelude::*;

verus! {

/// The index that frequency `i` is paired with under conjugate symmetry:
/// `(n - i) mod n`.
pub open spec fn partner(n: int, i: int) -> int {
    if i == 0 {
        0
    } else {
        n - i
    }
}

/// The coefficient at `(y, x)` is its own partner.
pub open spec fn self_paired(n: int, y: int, x: int) -> bool {
    y == partner(n, y) && x == partner(n, x)
}

/// Of a coefficient and its partner, the one that comes first row by row
/// is visited; a coefficient that is its own partner is visited too.
pub open spec fn visited(n: int, y: int, x: int) -> bool {
    !(y > partner(n, y) || (y == partner(n, y) && x > partner(n, x)))
}

/// Number of visited coefficients among the first `k` positions, row by row.
pub open spec fn visits_before(n: int, k: int) -> int
    decreases k,
{
    if k <= 0 {
        0
    } else {
        visits_before(n, k - 1) + if visited(n, (k - 1) / n, (k - 1) % n) {
            1int
        } else {
            0int
        }
    }
}

/// Number of coefficients that are visited in a spectrum of side `n`: one
/// for each pair of partners and one for each coefficient that is its own
/// partner.
pub open spec fn unique_pairs(n: int) -> int {
    visits_before(n, n * n)
}

/// `w` is the conjugate of `z`: the same real part, and an imaginary part
/// that `negate` gives for that of `z`.
pub open spec fn conjugate_of<T, N: Fn(T) -> T>(negate: N, z: Complex<T>, w: Complex<T>) -> bool {
    w.re == z.re && negate.ensures((z.im,), w.im)
}

/// `after` comes from `before` by phase scrambling: every visited
/// coefficient is a result of `rotate` on the coefficient that was there,
/// the intensity and the next unused draw, taken in row-major order from
/// `cursor` on, and the partner of every visited coefficient that is not
/// its own partner is the conjugate of the new coefficient.
pub open spec fn scrambled<T, R: Fn(Complex<T>, T, T) -> Complex<T>, N: Fn(T) -> T>(
    rotate: R,
    negate: N,
    n: int,
    intensity: T,
    draws: Seq<T>,
    cursor: int,
    before: Seq<Complex<T>>,
    after: Seq<Complex<T>>,
) -> bool {
    &&& before.len() == n * n
    &&& after.len() == n * n
    &&& forall|y: int, x: int|
        0 <= y < n && 0 <= x < n && #[trigger] visited(n, y, x) ==> rotate.ensures(
            (before[flat(n, y, x)], intensity, draws[cursor + visits_before(n, flat(n, y, x))]),
            after[flat(n, y, x)],
        )
    &&& forall|y: int, x: int|
        0 <= y < n && 0 <= x < n && #[trigger] visited(n, y, x) && !self_paired(n, y, x)
            ==> conjugate_of(
            negate,
            after[flat(n, y, x)],
            after[flat(n, partner(n, y), partner(n, x))],
        )
}

/// Each pair of partners is visited once: the partner of a coefficient
/// lies in the spectrum and has the coefficient as its partner, and of a
/// coefficient and its partner exactly one is visited, unless they are
/// one and the same, which is visited.
pub proof fn lemma_each_pair_once(n: int, y: int, x: int)
    requires
        0 <= y < n,
        0 <= x < n,
    ensures
        0 <= partner(n, y) < n,
        0 <= partner(n, x) < n,
        partner(n, partner(n, y)) == y,
        partner(n, partner(n, x)) == x,
        self_paired(n, y, x) ==> visited(n, y, x),
        !self_paired(n, y, x) ==> (visited(n, y, x) <==> !visited(n, partner(n, y), partner(n, x))),
{
}

/// The count of visits never goes down, and goes up by at most one a position.
pub proof fn lemma_visits_before_monotonic(n: int, a: int, b: int)
    requires
        0 <= a <= b,
    ensures
        0 <= visits_before(n, a) <= visits_before(n, b) <= visits_before(n, a) + (b - a),
    decreases b,
{
    if a < b {
        lemma_visits_before_monotonic(n, a, b - 1);
    } else {
        if a > 0 {
            lemma_visits_before_monotonic(n, a - 1, a - 1);
        }
    }
}

/// Number of visited coefficients among the first `x` of row `y`.
pub open spec fn row_visits(n: int, y: int, x: int) -> int
    decreases x,
{
    if x <= 0 {
        0
    } else {
        row_visits(n, y, x - 1) + if visited(n, y, x - 1) {
            1int
        } else {
            0int
        }
    }
}

proof fn lemma_visits_split_by_row(n: int, y: int, x: int)
    requires
        0 <= y < n,
        0 <= x <= n,
    ensures
        visits_before(n, flat(n, y, 0) + x) == visits_before(n, flat(n, y, 0)) + row_visits(n, y, x),
    decreases x,
{
    if x > 0 {
        lemma_visits_split_by_row(n, y, x - 1);
        lemma_flat_in_bounds(n, n, y, x - 1);
        assert(flat(n, y, 0) + x - 1 == flat(n, y, x - 1));
    }
}

proof fn lemma_row_visits(n: int, y: int, x: int)
    requires
        n >= 2,
        n % 2 == 0,
        0 <= y < n,
        0 <= x <= n,
    ensures
        row_visits(n, y, x) == if y == 0 || y == n / 2 {
            if x <= n / 2 + 1 {
                x
            } else {
                n / 2 + 1
            }
        } else if y < n / 2 {
            x
        } else {
            0
        },
    decreases x,
{
    if x > 0 {
        lemma_row_visits(n, y, x - 1);
    }
}

proof fn lemma_visits_by_rows(n: int, y: int)
    requires
        n >= 2,
        n % 2 == 0,
        0 <= y <= n,
    ensures
        visits_before(n, flat(n, y, 0)) == if y == 0 {
            0
        } else if y <= n / 2 {
            (n / 2 + 1) + (y - 1) * n
        } else {
            (n / 2 + 1) + (n / 2 - 1) * n + (n / 2 + 1)
        },
    decreases y,
{
    if y > 0 {
        lemma_visits_by_rows(n, y - 1);
        lemma_visits_split_by_row(n, y - 1, n);
        lemma_row_visits(n, y - 1, n);
        assert(flat(n, y - 1, 0) + n == flat(n, y, 0)) by (nonlinear_arith);
        assert((y - 2) * n + n == (y - 1) * n) by (nonlinear_arith);
    }
}

/// A spectrum of even side `n` has `n * n / 2 + 2` visited coefficients:
/// one for each pair of partners, and one for each of the four
/// coefficients that are their own partner.
pub proof fn lemma_unique_pairs_of_even_side(n: int)
    requires
        n >= 2,
        n % 2 == 0,
    ensures
        unique_pairs(n) == n * n / 2 + 2,
{
    lemma_visits_by_rows(n, n);
    let h = n / 2;
    assert(flat(n, n, 0) == n * n);
    assert((h + 1) + (h - 1) * n + (h + 1) == h * n + 2) by (nonlinear_arith)
        requires
            n == 2 * h,
    ;
    assert(n * n / 2 == h * n) by (nonlinear_arith)
        requires
            n == 2 * h,
    ;
}

proof fn lemma_visits_step(n: int, y: int, x: int)
    requires
        0 <= y < n,
        0 <= x < n,
    ensures
        visits_before(n, flat(n, y, x) + 1) == visits_before(n, flat(n, y, x)) + if visited(n, y, x) {
            1int
        } else {
            0int
        },
        flat(n, y, x) + 1 <= n * n,
        flat(n, y, x) + 1 == if x + 1 < n {
            flat(n, y, x + 1)
        } else {
            flat(n, y + 1, 0)
        },
{
    lemma_flat_in_bounds(n, n, y, x);
    assert(y * n + n == (y + 1) * n) by (nonlinear_arith);
}

/// Counts the coefficients that phase scrambling visits in a spectrum of
/// side `n`, which is the number of draws that it uses.
pub fn unique_pair_count(n: usize) -> (count: usize)
    requires
        n * n <= usize::MAX,
    ensures
        count == unique_pairs(n as int),
        count <= n * n,
        n >= 2 && n % 2 == 0 ==> count == n * n / 2 + 2,
{
    proof {
        if n >= 2 && n % 2 == 0 {
            lemma_unique_pairs_of_even_side(n as int);
        }
    }
    let mut count: usize = 0;
    let mut y: usize = 0;
    while y < n
        invariant
            y <= n,
            n * n <= usize::MAX,
            count == visits_before(n as int, flat(n as int, y as int, 0)),
            flat(n as int, y as int, 0) <= n * n,
        decreases n - y,
    {
        let mut x: usize = 0;
        while x < n
            invariant
                y < n,
                x <= n,
                n * n <= usize::MAX,
                x < n ==> count == visits_before(n as int, flat(n as int, y as int, x as int)),
                x == n ==> count == visits_before(n as int, flat(n as int, y + 1, 0)),
                x == n ==> flat(n as int, y + 1, 0) <= n * n,
            decreases n - x,
        {
            let sym_y: usize = if y == 0 {
                0
            } else {
                n - y
            };
            let sym_x: usize = if x == 0 {
                0
            } else {
                n - x
            };
            proof {
                lemma_visits_step(n as int, y as int, x as int);
                lemma_visits_before_monotonic(n as int, flat(n as int, y as int, x as int) + 1, n * n);
                lemma_visits_before_monotonic(n as int, 0, n * n);
            }
            if !(y > sym_y || (y == sym_y && x > sym_x)) {
                count += 1;
            }
            x += 1;
        }
        y += 1;
    }
    proof {
        assert(flat(n as int, n as int, 0) == n * n);
        lemma_visits_before_monotonic(n as int, 0, n * n);
    }
    count
}

/// The position `(yy, xx)` comes before `(y, x)` row by row.
spec fn earlier(y: int, x: int, yy: int, xx: int) -> bool {
    yy < y || (yy == y && xx < x)
}

/// Scrambling has dealt with every position before `(y, x)`: the visited
/// coefficients before it and their partners are final, the visited
/// coefficients from it on are as they were.
spec fn scrambled_up_to<T, R: Fn(Complex<T>, T, T) -> Complex<T>, N: Fn(T) -> T>(
    rotate: R,
    negate: N,
    n: int,
    intensity: T,
    draws: Seq<T>,
    cursor: int,
    before: Seq<Complex<T>>,
    now: Seq<Complex<T>>,
    y: int,
    x: int,
) -> bool {
    &&& before.len() == n * n
    &&& now.len() == n * n
    &&& forall|yy: int, xx: int|
        0 <= yy < n && 0 <= xx < n && earlier(y, x, yy, xx) && #[trigger] visited(n, yy, xx)
            ==> rotate.ensures(
            (before[flat(n, yy, xx)], intensity, draws[cursor + visits_before(n, flat(n, yy, xx))]),
            now[flat(n, yy, xx)],
        )
    &&& forall|yy: int, xx: int|
        0 <= yy < n && 0 <= xx < n && earlier(y, x, yy, xx) && #[trigger] visited(n, yy, xx)
            && !self_paired(n, yy, xx) ==> conjugate_of(
            negate,
            now[flat(n, yy, xx)],
            now[flat(n, partner(n, yy), partner(n, xx))],
        )
    &&& forall|yy: int, xx: int|
        0 <= yy < n && 0 <= xx < n && !earlier(y, x, yy, xx) && #[trigger] visited(n, yy, xx)
            ==> now[flat(n, yy, xx)] == before[flat(n, yy, xx)]
}

/// What one visit writes: the new coefficient at `(y, x)` and, where the
/// coefficient has another partner, the conjugate `mirror` there.
spec fn after_visit<T>(
    n: int,
    prev: Seq<Complex<T>>,
    y: int,
    x: int,
    new_val: Complex<T>,
    mirror: Complex<T>,
) -> Seq<Complex<T>> {
    if self_paired(n, y, x) {
        prev.update(flat(n, y, x), new_val)
    } else {
        prev.update(flat(n, y, x), new_val).update(flat(n, partner(n, y), partner(n, x)), mirror)
    }
}

proof fn lemma_after_visit<T>(
    n: int,
    prev: Seq<Complex<T>>,
    y: int,
    x: int,
    new_val: Complex<T>,
    mirror: Complex<T>,
    yy: int,
    xx: int,
)
    requires
        prev.len() == n * n,
        0 <= y < n,
        0 <= x < n,
        0 <= yy < n,
        0 <= xx < n,
    ensures
        after_visit(n, prev, y, x, new_val, mirror)[flat(n, yy, xx)] == if yy == partner(n, y) && xx
            == partner(n, x) && !self_paired(n, y, x) {
            mirror
        } else if yy == y && xx == x {
            new_val
        } else {
            prev[flat(n, yy, xx)]
        },
        after_visit(n, prev, y, x, new_val, mirror).len() == n * n,
{
    let py = partner(n, y);
    let px = partner(n, x);
    lemma_flat_in_bounds(n, n, yy, xx);
    lemma_flat_in_bounds(n, n, y, x);
    lemma_flat_in_bounds(n, n, py, px);
    if flat(n, yy, xx) == flat(n, y, x) {
        lemma_flat_injective(n, yy, xx, y, x);
    }
    if flat(n, yy, xx) == flat(n, py, px) {
        lemma_flat_injective(n, yy, xx, py, px);
    }
}

proof fn lemma_visit<T, R: Fn(Complex<T>, T, T) -> Complex<T>, N: Fn(T) -> T>(
    rotate: R,
    negate: N,
    n: int,
    intensity: T,
    draws: Seq<T>,
    cursor: int,
    before: Seq<Complex<T>>,
    prev: Seq<Complex<T>>,
    y: int,
    x: int,
    new_val: Complex<T>,
    mirror: Complex<T>,
)
    requires
        0 <= y < n,
        0 <= x < n,
        visited(n, y, x),
        scrambled_up_to(rotate, negate, n, intensity, draws, cursor, before, prev, y, x),
        rotate.ensures(
            (prev[flat(n, y, x)], intensity, draws[cursor + visits_before(n, flat(n, y, x))]),
            new_val,
        ),
        !self_paired(n, y, x) ==> conjugate_of(negate, new_val, mirror),
    ensures
        scrambled_up_to(
            rotate,
            negate,
            n,
            intensity,
            draws,
            cursor,
            before,
            after_visit(n, prev, y, x, new_val, mirror),
            y,
            x + 1,
        ),
{
    let now = after_visit(n, prev, y, x, new_val, mirror);
    lemma_after_visit(n, prev, y, x, new_val, mirror, y, x);
    assert forall|yy: int, xx: int|
        0 <= yy < n && 0 <= xx < n && earlier(y, x + 1, yy, xx) && #[trigger] visited(
            n,
            yy,
            xx,
        ) implies rotate.ensures(
        (before[flat(n, yy, xx)], intensity, draws[cursor + visits_before(n, flat(n, yy, xx))]),
        now[flat(n, yy, xx)],
    ) by {
        lemma_after_visit(n, prev, y, x, new_val, mirror, yy, xx);
    }
    assert forall|yy: int, xx: int|
        0 <= yy < n && 0 <= xx < n && earlier(y, x + 1, yy, xx) && #[trigger] visited(n, yy, xx)
            && !self_paired(n, yy, xx) implies conjugate_of(
        negate,
        now[flat(n, yy, xx)],
        now[flat(n, partner(n, yy), partner(n, xx))],
    ) by {
        lemma_after_visit(n, prev, y, x, new_val, mirror, yy, xx);
        lemma_after_visit(n, prev, y, x, new_val, mirror, partner(n, yy), partner(n, xx));
    }
    assert forall|yy: int, xx: int|
        0 <= yy < n && 0 <= xx < n && !earlier(y, x + 1, yy, xx) && #[trigger] visited(
            n,
            yy,
            xx,
        ) implies now[flat(n, yy, xx)] == before[flat(n, yy, xx)] by {
        lemma_after_visit(n, prev, y, x, new_val, mirror, yy, xx);
    }
}

/// Replaces the phase of each frequency coefficient while preserving
/// what `rotate` preserves. Coefficients are visited row by row, each pair
/// of partners once; the visited coefficient becomes
/// `rotate(coefficient, intensity, draw)` with the next draw after
/// `cursor`, and its partner, if it has another, becomes the conjugate of
/// the new coefficient. Returns the cursor behind the last draw used.
///
/// A coefficient that is its own partner is rotated like the others and
/// has no conjugate written, so it need not be its own conjugate
/// afterwards.
pub fn phase_scramble<T: Copy, R: Fn(Complex<T>, T, T) -> Complex<T>, N: Fn(T) -> T>(
    data: &mut Vec<Complex<T>>,
    n: usize,
    intensity: T,
    draws: &Vec<T>,
    cursor: usize,
    rotate: &R,
    negate: &N,
) -> (next: usize)
    requires
        old(data)@.len() == n * n,
        is_pow2(n as int),
        cursor + unique_pairs(n as int) <= draws@.len(),
        forall|c: Complex<T>, a: T, b: T| #[trigger] rotate.requires((c, a, b)),
        forall|t: T| #[trigger] negate.requires((t,)),
    ensures
        next == cursor + unique_pairs(n as int),
        scrambled(*rotate, *negate, n as int, intensity, draws@, cursor as int, old(data)@, final(data)@),
{
    let total: usize = data.len();
    let available: usize = draws.len();
    let mut used: usize = cursor;
    let mut y: usize = 0;
    while y < n
        invariant
            y <= n,
            n * n == total,
            available == draws@.len(),
            cursor + unique_pairs(n as int) <= available,
            forall|c: Complex<T>, a: T, b: T| #[trigger] rotate.requires((c, a, b)),
            forall|t: T| #[trigger] negate.requires((t,)),
            used == cursor + visits_before(n as int, flat(n as int, y as int, 0)),
            flat(n as int, y as int, 0) <= n * n,
            scrambled_up_to(
                *rotate,
                *negate,
                n as int,
                intensity,
                draws@,
                cursor as int,
                old(data)@,
                data@,
                y as int,
                0,
            ),
        decreases n - y,
    {
        let mut x: usize = 0;
        while x < n
            invariant
                y < n,
                x <= n,
                n * n == total,
                available == draws@.len(),
                cursor + unique_pairs(n as int) <= available,
                forall|c: Complex<T>, a: T, b: T| #[trigger] rotate.requires((c, a, b)),
                forall|t: T| #[trigger] negate.requires((t,)),
                x < n ==> used == cursor + visits_before(n as int, flat(n as int, y as int, x as int)),
                x == n ==> used == cursor + visits_before(n as int, flat(n as int, y + 1, 0)),
                x == n ==> flat(n as int, y + 1, 0) <= n * n,
                scrambled_up_to(
                    *rotate,
                    *negate,
                    n as int,
                    intensity,
                    draws@,
                    cursor as int,
                    old(data)@,
                    data@,
                    y as int,
                    x as int,
                ),
            decreases n - x,
        {
            // Determine symmetric coordinates.
            let sym_y: usize = if y == 0 {
                0
            } else {
                n - y
            };
            let sym_x: usize = if x == 0 {
                0
            } else {
                n - x
            };
            proof {
                lemma_visits_step(n as int, y as int, x as int);
                lemma_visits_before_monotonic(n as int, flat(n as int, y as int, x as int) + 1, n * n);
            }
            // Process each pair only once.
            if !(y > sym_y || (y == sym_y && x > sym_x)) {
                assert(visited(n as int, y as int, x as int));
                let ghost prev = data@;
                let idx: usize = index_of(n, n, y, x);
                let orig: Complex<T> = data[idx];
                let new_val: Complex<T> = rotate(orig, intensity, draws[used]);
                data.set(idx, new_val);
                let ghost mut mirror = new_val;
                if !(y == sym_y && x == sym_x) {
                    let sym_idx: usize = index_of(n, n, sym_y, sym_x);
                    let mirrored_im: T = negate(new_val.im);
                    let conj: Complex<T> = Complex { re: new_val.re, im: mirrored_im };
                    data.set(sym_idx, conj);
                    proof {
                        mirror = conj;
                    }
                }
                proof {
                    assert(data@ == after_visit(n as int, prev, y as int, x as int, new_val, mirror));
                    lemma_visit(
                        *rotate,
                        *negate,
                        n as int,
                        intensity,
                        draws@,
                        cursor as int,
                        old(data)@,
                        prev,
                        y as int,
                        x as int,
                        new_val,
                        mirror,
                    );
                }
                used += 1;
            }
            x += 1;
        }
        y += 1;
    }
    proof {
        assert(flat(n as int, n as int, 0) == n * n);
    }
    used
}

/// Hermitian symmetry after phase scrambling: where negation undoes
/// itself, every coefficient that is not its own partner is the conjugate
/// of its partner.
pub proof fn lemma_scrambled_is_hermitian<T, R: Fn(Complex<T>, T, T) -> Complex<T>, N: Fn(T) -> T>(
    rotate: R,
    negate: N,
    n: int,
    intensity: T,
    draws: Seq<T>,
    cursor: int,
    before: Seq<Complex<T>>,
    after: Seq<Complex<T>>,
    y: int,
    x: int,
)
    requires
        scrambled(rotate, negate, n, intensity, draws, cursor, before, after),
        forall|a: T, b: T| #[trigger] negate.ensures((a,), b) ==> negate.ensures((b,), a),
        0 <= y < n,
        0 <= x < n,
        !self_paired(n, y, x),
    ensures
        conjugate_of(negate, after[flat(n, partner(n, y), partner(n, x))], after[flat(n, y, x)]),
{
    let py = partner(n, y);
    let px = partner(n, x);
    if visited(n, y, x) {
        assert(conjugate_of(negate, after[flat(n, y, x)], after[flat(n, py, px)]));
    } else {
        assert(visited(n, py, px) && !self_paired(n, py, px));
        assert(partner(n, py) == y && partner(n, px) == x);
    }
}

/// What rotation and conjugation both keep, scrambling keeps: if
/// `measure` is the same before and after every rotation and for a
/// coefficient and its conjugate, and the spectrum `before` has the same
/// measure at every coefficient and its partner, then every coefficient of
/// the scrambled spectrum has the measure that it had before.
pub proof fn lemma_scrambled_keeps_measure<
    T,
    M,
    R: Fn(Complex<T>, T, T) -> Complex<T>,
    N: Fn(T) -> T,
>(
    rotate: R,
    negate: N,
    measure: spec_fn(Complex<T>) -> M,
    n: int,
    intensity: T,
    draws: Seq<T>,
    cursor: int,
    before: Seq<Complex<T>>,
    after: Seq<Complex<T>>,
    y: int,
    x: int,
)
    requires
        scrambled(rotate, negate, n, intensity, draws, cursor, before, after),
        forall|c: Complex<T>, a: T, b: T, r: Complex<T>| #[trigger]
            rotate.ensures((c, a, b), r) ==> measure(r) == measure(c),
        forall|z: Complex<T>, w: Complex<T>| #[trigger]
            conjugate_of(negate, z, w) ==> measure(w) == measure(z),
        forall|yy: int, xx: int|
            0 <= yy < n && 0 <= xx < n ==> measure(
                before[flat(n, partner(n, yy), partner(n, xx))],
            ) == measure(#[trigger] before[flat(n, yy, xx)]),
        0 <= y < n,
        0 <= x < n,
    ensures
        measure(after[flat(n, y, x)]) == measure(before[flat(n, y, x)]),
{
    let py = partner(n, y);
    let px = partner(n, x);
    if visited(n, y, x) {
        assert(rotate.ensures(
            (before[flat(n, y, x)], intensity, draws[cursor + visits_before(n, flat(n, y, x))]),
            after[flat(n, y, x)],
        ));
    } else {
        assert(visited(n, py, px) && !self_paired(n, py, px));
        assert(partner(n, py) == y && partner(n, px) == x);
        assert(rotate.ensures(
            (before[flat(n, py, px)], intensity, draws[cursor + visits_before(n, flat(n, py, px))]),
            after[flat(n, py, px)],
        ));
        assert(conjugate_of(negate, after[flat(n, py, px)], after[flat(n, y, x)]));
        assert(measure(before[flat(n, py, px)]) == measure(before[flat(n, y, x)]));
    }
}

/// Where rotation at the given intensity gives back the coefficient that
/// it is handed, and the spectrum `before` already holds at every
/// partner the one conjugate of the coefficient, scrambling changes nothing.
pub proof fn lemma_scrambled_identity<T, R: Fn(Complex<T>, T, T) -> Complex<T>, N: Fn(T) -> T>(
    rotate: R,
    negate: N,
    n: int,
    intensity: T,
    draws: Seq<T>,
    cursor: int,
    before: Seq<Complex<T>>,
    after: Seq<Complex<T>>,
)
    requires
        0 <= n,
        scrambled(rotate, negate, n, intensity, draws, cursor, before, after),
        forall|c: Complex<T>, b: T, r: Complex<T>| #[trigger]
            rotate.ensures((c, intensity, b), r) ==> r == c,
        forall|a: T, r1: T, r2: T| #[trigger]
            negate.ensures((a,), r1) && #[trigger] negate.ensures((a,), r2) ==> r1 == r2,
        forall|yy: int, xx: int|
            0 <= yy < n && 0 <= xx < n && #[trigger] visited(n, yy, xx) && !self_paired(n, yy, xx)
                ==> conjugate_of(
                negate,
                before[flat(n, yy, xx)],
                before[flat(n, partner(n, yy), partner(n, xx))],
            ),
    ensures
        after == before,
{
    assert forall|i: int| 0 <= i < n * n implies after[i] == before[i] by {
        assert(n > 0) by (nonlinear_arith)
            requires
                0 <= i < n * n,
                0 <= n,
        ;
        lemma_flat_of_position(n, n, i);
        let y = i / n;
        let x = i % n;
        let py = partner(n, y);
        let px = partner(n, x);
        if visited(n, y, x) {
            assert(rotate.ensures(
                (before[flat(n, y, x)], intensity, draws[cursor + visits_before(n, flat(n, y, x))]),
                after[flat(n, y, x)],
            ));
        } else {
            assert(visited(n, py, px) && !self_paired(n, py, px));
            assert(partner(n, py) == y && partner(n, px) == x);
            assert(rotate.ensures(
                (
                    before[flat(n, py, px)],
                    intensity,
                    draws[cursor + visits_before(n, flat(n, py, px))],
                ),
                after[flat(n, py, px)],
            ));
            assert(conjugate_of(negate, after[flat(n, py, px)], after[flat(n, y, x)]));
            assert(conjugate_of(negate, before[flat(n, py, px)], before[flat(n, y, x)]));
        }
    }
    assert(after =~= before);
}

} // verus!
