use crate::arithmetic::{
    channel_of, channel_written, draws_per_channel, Arithmetic, FourierOptions,
};
use crate::grid::{flat, lemma_flat_of_position};
use crate::padding::{cropped_real, lifted, padded_cells, padded_side};
use crate::phase::{conjugate_of, partner, scrambled, self_paired, visited, visits_before};
use crate::plane::Complex;
use crate::raster::{cropped, BackgroundMode, FaceRegion};
use crate::size::lemma_optimal_fft_size;
use crate::transform::{
    all_scaled, column_of, columns_mapped, inverse_transformed_2d, line_mapped, row_of, rows_mapped,
    transformed_2d,
};
use vstd::prelude::*;

verus! {

/// The one-dimensional transform `f` gives one result for one sequence.
pub open spec fn transform_functional<C, F: Fn(Vec<C>) -> Vec<C>>(f: F) -> bool {
    forall|v1: Vec<C>, v2: Vec<C>, w1: Vec<C>, w2: Vec<C>|
        v1@ == v2@ && #[trigger] f.ensures((v1,), w1) && #[trigger] f.ensures((v2,), w2) ==> w1@ == w2@
}

/// The operation `f` of one argument gives one result for one argument.
pub open spec fn unary_functional<A, B, F: Fn(A) -> B>(f: F) -> bool {
    forall|a: A, r1: B, r2: B| #[trigger] f.ensures((a,), r1) && #[trigger] f.ensures((a,), r2) ==> r1 == r2
}

/// The operation `f` of two arguments gives one result for one pair of arguments.
pub open spec fn binary_functional<A, B, R, F: Fn(A, B) -> R>(f: F) -> bool {
    forall|a: A, b: B, r1: R, r2: R|
        #[trigger] f.ensures((a, b), r1) && #[trigger] f.ensures((a, b), r2) ==> r1 == r2
}

/// The operation `f` of three arguments gives one result for one triple of arguments.
pub open spec fn ternary_functional<A, B, C, R, F: Fn(A, B, C) -> R>(f: F) -> bool {
    forall|a: A, b: B, c: C, r1: R, r2: R|
        #[trigger] f.ensures((a, b, c), r1) && #[trigger] f.ensures((a, b, c), r2) ==> r1 == r2
}

proof fn lemma_line_mapped_functional<C, F: Fn(Vec<C>) -> Vec<C>>(f: F, before: Seq<C>, a1: Seq<C>, a2: Seq<C>)
    requires
        transform_functional(f),
        line_mapped(f, before, a1),
        line_mapped(f, before, a2),
    ensures
        a1 == a2,
{
    let (v1, w1) = choose|v: Vec<C>, w: Vec<C>| v@ == before && w@ == a1 && f.ensures((v,), w);
    let (v2, w2) = choose|v: Vec<C>, w: Vec<C>| v@ == before && w@ == a2 && f.ensures((v,), w);
    assert(f.ensures((v1,), w1) && f.ensures((v2,), w2));
}

proof fn lemma_rows_mapped_functional<C, F: Fn(Vec<C>) -> Vec<C>>(
    f: F,
    n: int,
    before: Seq<C>,
    a1: Seq<C>,
    a2: Seq<C>,
)
    requires
        0 <= n,
        transform_functional(f),
        rows_mapped(f, n, before, a1),
        rows_mapped(f, n, before, a2),
    ensures
        a1 == a2,
{
    assert forall|i: int| 0 <= i < n * n implies a1[i] == a2[i] by {
        assert(n > 0) by (nonlinear_arith)
            requires
                0 <= i < n * n,
                0 <= n,
        ;
        lemma_flat_of_position(n, n, i);
        let r = i / n;
        let x = i % n;
        assert(line_mapped(f, row_of(before, n, r), row_of(a1, n, r)));
        assert(line_mapped(f, row_of(before, n, r), row_of(a2, n, r)));
        lemma_line_mapped_functional(f, row_of(before, n, r), row_of(a1, n, r), row_of(a2, n, r));
        assert(row_of(a1, n, r)[x] == a1[i]);
        assert(row_of(a2, n, r)[x] == a2[i]);
    }
    assert(a1 =~= a2);
}

proof fn lemma_columns_mapped_functional<C, F: Fn(Vec<C>) -> Vec<C>>(
    f: F,
    n: int,
    before: Seq<C>,
    a1: Seq<C>,
    a2: Seq<C>,
)
    requires
        0 <= n,
        transform_functional(f),
        columns_mapped(f, n, before, a1),
        columns_mapped(f, n, before, a2),
    ensures
        a1 == a2,
{
    assert forall|i: int| 0 <= i < n * n implies a1[i] == a2[i] by {
        assert(n > 0) by (nonlinear_arith)
            requires
                0 <= i < n * n,
                0 <= n,
        ;
        lemma_flat_of_position(n, n, i);
        let y = i / n;
        let c = i % n;
        assert(line_mapped(f, column_of(before, n, c), column_of(a1, n, c)));
        assert(line_mapped(f, column_of(before, n, c), column_of(a2, n, c)));
        lemma_line_mapped_functional(
            f,
            column_of(before, n, c),
            column_of(a1, n, c),
            column_of(a2, n, c),
        );
        assert(column_of(a1, n, c)[y] == a1[i]);
        assert(column_of(a2, n, c)[y] == a2[i]);
    }
    assert(a1 =~= a2);
}

/// A two-dimensional transform built from a one-dimensional transform
/// that gives one result for one sequence gives one result for one square.
pub proof fn lemma_transformed_2d_functional<C, F: Fn(Vec<C>) -> Vec<C>>(
    f: F,
    n: int,
    before: Seq<C>,
    a1: Seq<C>,
    a2: Seq<C>,
)
    requires
        0 <= n,
        transform_functional(f),
        transformed_2d(f, n, before, a1),
        transformed_2d(f, n, before, a2),
    ensures
        a1 == a2,
{
    let m1 = choose|mid: Seq<C>| rows_mapped(f, n, before, mid) && columns_mapped(f, n, mid, a1);
    let m2 = choose|mid: Seq<C>| rows_mapped(f, n, before, mid) && columns_mapped(f, n, mid, a2);
    lemma_rows_mapped_functional(f, n, before, m1, m2);
    lemma_columns_mapped_functional(f, n, m1, a1, a2);
}

/// The inverse transform with its scaling gives one result for one
/// square, where the transform and the scaling each give one result.
pub proof fn lemma_inverse_transformed_2d_functional<C, F: Fn(Vec<C>) -> Vec<C>, S: Fn(C, usize) -> C>(
    f: F,
    scale: S,
    n: int,
    before: Seq<C>,
    a1: Seq<C>,
    a2: Seq<C>,
)
    requires
        0 <= n,
        transform_functional(f),
        binary_functional(scale),
        inverse_transformed_2d(f, scale, n, before, a1),
        inverse_transformed_2d(f, scale, n, before, a2),
    ensures
        a1 == a2,
{
    let count = (n * n) as usize;
    let m1 = choose|mid: Seq<C>| transformed_2d(f, n, before, mid) && all_scaled(scale, count, mid, a1);
    let m2 = choose|mid: Seq<C>| transformed_2d(f, n, before, mid) && all_scaled(scale, count, mid, a2);
    lemma_transformed_2d_functional(f, n, before, m1, m2);
    assert forall|i: int| 0 <= i < a1.len() implies a1[i] == a2[i] by {
        assert(scale.ensures((m1[i], count), a1[i]));
        assert(scale.ensures((m1[i], count), a2[i]));
    }
    assert(a1 =~= a2);
}

/// Phase scrambling gives one spectrum for one spectrum and one sequence
/// of draws, where the rotation and the negation each give one result.
pub proof fn lemma_scrambled_functional<T, R: Fn(Complex<T>, T, T) -> Complex<T>, N: Fn(T) -> T>(
    rotate: R,
    negate: N,
    n: int,
    intensity: T,
    draws: Seq<T>,
    cursor: int,
    before: Seq<Complex<T>>,
    a1: Seq<Complex<T>>,
    a2: Seq<Complex<T>>,
)
    requires
        0 <= n,
        ternary_functional(rotate),
        unary_functional(negate),
        scrambled(rotate, negate, n, intensity, draws, cursor, before, a1),
        scrambled(rotate, negate, n, intensity, draws, cursor, before, a2),
    ensures
        a1 == a2,
{
    assert forall|y: int, x: int| 0 <= y < n && 0 <= x < n && visited(n, y, x) implies a1[flat(n, y, x)]
        == a2[flat(n, y, x)] by {
        let d = draws[cursor + visits_before(n, flat(n, y, x))];
        assert(rotate.ensures((before[flat(n, y, x)], intensity, d), a1[flat(n, y, x)]));
        assert(rotate.ensures((before[flat(n, y, x)], intensity, d), a2[flat(n, y, x)]));
    }
    assert forall|i: int| 0 <= i < n * n implies a1[i] == a2[i] by {
        assert(n > 0) by (nonlinear_arith)
            requires
                0 <= i < n * n,
                0 <= n,
        ;
        lemma_flat_of_position(n, n, i);
        let y = i / n;
        let x = i % n;
        if !visited(n, y, x) {
            let py = partner(n, y);
            let px = partner(n, x);
            assert(visited(n, py, px) && !self_paired(n, py, px));
            assert(partner(n, py) == y && partner(n, px) == x);
            assert(conjugate_of(negate, a1[flat(n, py, px)], a1[flat(n, y, x)]));
            assert(conjugate_of(negate, a2[flat(n, py, px)], a2[flat(n, y, x)]));
            assert(a1[flat(n, py, px)] == a2[flat(n, py, px)]);
            let z = a1[flat(n, py, px)];
            assert(negate.ensures((z.im,), a1[i].im) && negate.ensures((z.im,), a2[i].im));
        }
    }
    assert(a1 =~= a2);
}

impl<
    T: Copy,
    NZ: Fn(u8) -> T,
    FW: Fn(Vec<Complex<T>>) -> Vec<Complex<T>>,
    IV: Fn(Vec<Complex<T>>) -> Vec<Complex<T>>,
    SC: Fn(Complex<T>, usize) -> Complex<T>,
    RT: Fn(Complex<T>, T, T) -> Complex<T>,
    NG: Fn(T) -> T,
    CL: Fn(T) -> T,
    QZ: Fn(T) -> u8,
> Arithmetic<T, NZ, FW, IV, SC, RT, NG, CL, QZ> {
    /// Every operation gives one result for the same arguments.
    pub open spec fn deterministic(&self) -> bool {
        &&& unary_functional(self.normalize)
        &&& transform_functional(self.forward)
        &&& transform_functional(self.inverse)
        &&& binary_functional(self.scale)
        &&& ternary_functional(self.rotate)
        &&& unary_functional(self.negate)
        &&& unary_functional(self.clamp)
        &&& unary_functional(self.quantize)
    }

    /// With deterministic arithmetic the channel pipeline gives one plane
    /// for one plane, one set of options and one sequence of draws.
    pub proof fn lemma_channel_deterministic(
        &self,
        options: FourierOptions<T>,
        draws: Seq<T>,
        cursor: int,
        height: int,
        width: int,
        before: Seq<T>,
        a1: Seq<T>,
        a2: Seq<T>,
    )
        requires
            self.deterministic(),
            self.channel_processed(options, draws, cursor, height, width, before, a1),
            self.channel_processed(options, draws, cursor, height, width, before, a2),
        ensures
            a1 == a2,
    {
        let n = padded_side(height, width);
        lemma_optimal_fft_size(if width > height {
            width
        } else {
            height
        });
        let input = lifted(
            padded_cells(options.padding_mode, before, height, width, self.zero),
            self.zero,
        );
        let (s1, h1, r1) = choose|
            spectrum: Seq<Complex<T>>,
            shuffled: Seq<Complex<T>>,
            restored: Seq<Complex<T>>,
        |
            self.stages_hold(
                options,
                draws,
                cursor,
                height,
                width,
                before,
                spectrum,
                shuffled,
                restored,
                a1,
            );
        let (s2, h2, r2) = choose|
            spectrum: Seq<Complex<T>>,
            shuffled: Seq<Complex<T>>,
            restored: Seq<Complex<T>>,
        |
            self.stages_hold(
                options,
                draws,
                cursor,
                height,
                width,
                before,
                spectrum,
                shuffled,
                restored,
                a2,
            );
        lemma_transformed_2d_functional(self.forward, n, input, s1, s2);
        if options.phase_scramble {
            lemma_scrambled_functional(
                self.rotate,
                self.negate,
                n,
                options.intensity,
                draws,
                cursor,
                s1,
                h1,
                h2,
            );
        }
        lemma_inverse_transformed_2d_functional(self.inverse, self.scale, n, h1, r1, r2);
        let raw = cropped_real(r1, n, height, width);
        assert forall|i: int| 0 <= i < a1.len() implies a1[i] == a2[i] by {
            assert(self.clamp.ensures((raw[i],), a1[i]));
            assert(self.clamp.ensures((raw[i],), a2[i]));
        }
        assert(a1 =~= a2);
    }

    /// Determinism: with deterministic arithmetic, the same image, the
    /// same options and the same draws give the same scrambled image,
    /// sample for sample.
    pub proof fn lemma_scramble_deterministic(
        &self,
        options: FourierOptions<T>,
        draws: Seq<T>,
        cursor: int,
        height: int,
        width: int,
        before: Seq<u8>,
        a1: Seq<u8>,
        a2: Seq<u8>,
    )
        requires
            self.deterministic(),
            self.image_scrambled(options, draws, cursor, height, width, before, a1),
            self.image_scrambled(options, draws, cursor, height, width, before, a2),
        ensures
            a1 == a2,
    {
        let (i1, o1) = choose|ins: Seq<Seq<T>>, outs: Seq<Seq<T>>|
            self.channels_scrambled(options, draws, cursor, height, width, before, ins, outs, a1);
        let (i2, o2) = choose|ins: Seq<Seq<T>>, outs: Seq<Seq<T>>|
            self.channels_scrambled(options, draws, cursor, height, width, before, ins, outs, a2);
        let step = draws_per_channel(options, padded_side(height, width));
        assert forall|c: int| 0 <= c < 3 implies o1[c] == o2[c] by {
            assert(channel_of(self.normalize, before, c, i1[c]));
            assert(channel_of(self.normalize, before, c, i2[c]));
            assert forall|k: int| 0 <= k < i1[c].len() implies i1[c][k] == i2[c][k] by {
                assert(self.normalize.ensures((before[k * 3 + c],), i1[c][k]));
                assert(self.normalize.ensures((before[k * 3 + c],), i2[c][k]));
            }
            assert(i1[c] =~= i2[c]);
            self.lemma_channel_deterministic(
                options,
                draws,
                cursor + c * step,
                height,
                width,
                i1[c],
                o1[c],
                o2[c],
            );
        }
        assert forall|j: int| 0 <= j < a1.len() implies a1[j] == a2[j] by {
            let k = j / 3;
            let c = j % 3;
            assert(channel_of(self.normalize, before, c, i1[c]));
            assert(channel_of(self.normalize, before, c, i2[c]));
            assert(channel_written(self.quantize, o1[c], c, a1));
            assert(channel_written(self.quantize, o2[c], c, a2));
            assert(self.quantize.ensures((o1[c][k],), a1[k * 3 + c]));
            assert(self.quantize.ensures((o1[c][k],), a2[k * 3 + c]));
        }
        assert(a1 =~= a2);
    }

    /// Determinism with face regions: with deterministic arithmetic, the
    /// same image, regions, options and draws give the same result.
    pub proof fn lemma_faces_deterministic(
        &self,
        options: FourierOptions<T>,
        plan_size: int,
        mode: BackgroundMode,
        draws: Seq<T>,
        cursor: int,
        width: int,
        regions: Seq<FaceRegion>,
        before: Seq<u8>,
        a1: Seq<u8>,
        a2: Seq<u8>,
    )
        requires
            self.deterministic(),
            self.faces_scrambled(options, plan_size, mode, draws, cursor, width, regions, before, a1),
            self.faces_scrambled(options, plan_size, mode, draws, cursor, width, regions, before, a2),
        ensures
            a1 == a2,
    {
        let patches_a = choose|patches: Seq<Seq<u8>>|
            self.patches_scrambled(
                options,
                plan_size,
                mode,
                draws,
                cursor,
                width,
                regions,
                before,
                patches,
                a1,
            );
        let patches_b = choose|patches: Seq<Seq<u8>>|
            self.patches_scrambled(
                options,
                plan_size,
                mode,
                draws,
                cursor,
                width,
                regions,
                before,
                patches,
                a2,
            );
        let per = 3 * draws_per_channel(options, plan_size);
        assert forall|k: int| 0 <= k < regions.len() implies patches_a[k] == patches_b[k] by {
            self.lemma_scramble_deterministic(
                options,
                draws,
                cursor + k * per,
                regions[k].rows(),
                regions[k].columns(),
                cropped(before, width, regions[k]),
                patches_a[k],
                patches_b[k],
            );
        }
        assert(patches_a =~= patches_b);
    }
}

} // verus!
