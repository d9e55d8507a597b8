use crate::error::ScrambleError;
use crate::grid::{flat, index_of, lemma_flat_in_bounds, lemma_flat_of_position};
use crate::plane::{Complex, Plane};
use crate::size::{
    get_optimal_fft_size, lemma_optimal_fft_size, lemma_optimal_fft_size_fits, optimal_fft_size,
};
use vstd::arithmetic::power2::is_pow2;
use vstd::prelude::*;

verus! {

/// How a plane is extended to the square that the transform works on.
#[derive(Clone, Copy, Debug, PartialEq, Eq, Structural)]
pub enum PaddingMode {
    /// Cells outside the plane are zero.
    Zero,
    /// Cells outside the plane mirror the plane at its right and bottom edges.
    Reflect,
    /// The plane is tiled.
    Wrap,
}

/// Side of the padded square for a `height` by `width` plane.
pub open spec fn padded_side(height: int, width: int) -> int {
    optimal_fft_size(if width > height { width } else { height })
}

/// The index that position `i` mirrors when it lies beyond `len`.
pub open spec fn mirrored(len: int, i: int) -> int {
    if i < len {
        i
    } else {
        2 * len - 1 - i
    }
}

/// The error that padding a `height` by `width` plane ends with, if any.
pub open spec fn padding_error(mode: PaddingMode, height: int, width: int) -> Option<ScrambleError> {
    if height == 0 || width == 0 {
        Some(ScrambleError::InvalidImage)
    } else if mode == PaddingMode::Reflect && (padded_side(height, width) >= 2 * width
        || padded_side(height, width) >= 2 * height) {
        Some(ScrambleError::UnsupportedPaddingGeometry)
    } else {
        None
    }
}

/// The sample that padding puts at row `y`, column `x` of the padded square.
pub open spec fn padded_cell<T>(
    mode: PaddingMode,
    cells: Seq<T>,
    height: int,
    width: int,
    zero: T,
    y: int,
    x: int,
) -> T {
    match mode {
        PaddingMode::Zero => if y < height && x < width {
            cells[flat(width, y, x)]
        } else {
            zero
        },
        PaddingMode::Reflect => cells[flat(width, mirrored(height, y), mirrored(width, x))],
        PaddingMode::Wrap => cells[flat(width, y % height, x % width)],
    }
}

/// The whole padded square, row by row.
pub open spec fn padded_cells<T>(
    mode: PaddingMode,
    cells: Seq<T>,
    height: int,
    width: int,
    zero: T,
) -> Seq<T> {
    let side = padded_side(height, width);
    Seq::new(
        (side * side) as nat,
        |i: int| padded_cell(mode, cells, height, width, zero, i / side, i % side),
    )
}

/// A real plane read as complex coefficients with imaginary part `zero`.
pub open spec fn lifted<T>(cells: Seq<T>, zero: T) -> Seq<Complex<T>> {
    Seq::new(cells.len(), |i: int| (Complex { re: cells[i], im: zero }))
}

/// The real parts of the top-left `height` by `width` corner of a square of side `side`.
pub open spec fn cropped_real<T>(data: Seq<Complex<T>>, side: int, height: int, width: int) -> Seq<T> {
    Seq::new((height * width) as nat, |i: int| data[flat(side, i / width, i % width)].re)
}

/// Computes the number of cells of the padded square for a `height` by
/// `width` plane, if a `usize` can hold it.
pub fn padded_len(height: usize, width: usize) -> (r: Option<usize>)
    ensures
        match r {
            Some(len) => len == padded_side(height as int, width as int) * padded_side(
                height as int,
                width as int,
            ),
            None => padded_side(height as int, width as int) * padded_side(
                height as int,
                width as int,
            ) > usize::MAX,
        },
{
    let longest: usize = if width > height {
        width
    } else {
        height
    };
    let ghost side = padded_side(height as int, width as int);
    proof {
        lemma_optimal_fft_size(longest as int);
        assert(side <= side * side) by (nonlinear_arith)
            requires
                side >= 1,
        ;
    }
    if longest > usize::MAX / 2 + 1 {
        proof {
            assert(side * side >= side * 2) by (nonlinear_arith)
                requires
                    side >= 2,
            ;
        }
        return None;
    }
    proof {
        lemma_optimal_fft_size_fits(longest as int);
    }
    let padded_size: usize = get_optimal_fft_size(longest);
    padded_size.checked_mul(padded_size)
}

fn copy_into_corner<T: Copy>(padded: &mut Plane<T>, channel: &Plane<T>)
    requires
        old(padded).wf(),
        channel.wf(),
        channel.height <= old(padded).height,
        channel.width <= old(padded).width,
    ensures
        final(padded).wf(),
        final(padded).height == old(padded).height,
        final(padded).width == old(padded).width,
        forall|yy: int, xx: int|
            0 <= yy < old(padded).height && 0 <= xx < old(padded).width ==> #[trigger] final(padded).at(yy, xx)
                == if yy < channel.height && xx < channel.width {
                channel.at(yy, xx)
            } else {
                old(padded).at(yy, xx)
            },
{
    let height: usize = channel.height;
    let width: usize = channel.width;
    let mut y: usize = 0;
    while y < height
        invariant
            y <= height,
            height == channel.height,
            width == channel.width,
            channel.wf(),
            padded.wf(),
            padded.height == old(padded).height,
            padded.width == old(padded).width,
            height <= padded.height,
            width <= padded.width,
            forall|yy: int, xx: int|
                0 <= yy < padded.height && 0 <= xx < padded.width ==> #[trigger] padded.at(yy, xx) == if yy
                    < y && xx < width {
                    channel.at(yy, xx)
                } else {
                    old(padded).at(yy, xx)
                },
        decreases height - y,
    {
        let mut x: usize = 0;
        while x < width
            invariant
                y < height,
                x <= width,
                height == channel.height,
                width == channel.width,
                channel.wf(),
                padded.wf(),
                padded.height == old(padded).height,
                padded.width == old(padded).width,
                height <= padded.height,
                width <= padded.width,
                forall|yy: int, xx: int|
                    0 <= yy < padded.height && 0 <= xx < padded.width ==> #[trigger] padded.at(yy, xx)
                        == if (yy < y || (yy == y && xx < x)) && xx < width {
                        channel.at(yy, xx)
                    } else {
                        old(padded).at(yy, xx)
                    },
            decreases width - x,
        {
            let v = channel.get(y, x);
            padded.set(y, x, v);
            x += 1;
        }
        y += 1;
    }
}

fn reflect_columns<T: Copy>(padded: &mut Plane<T>, channel: &Plane<T>)
    requires
        old(padded).wf(),
        channel.wf(),
        channel.height <= old(padded).height,
        channel.width <= old(padded).width < 2 * channel.width,
    ensures
        final(padded).wf(),
        final(padded).height == old(padded).height,
        final(padded).width == old(padded).width,
        forall|yy: int, xx: int|
            0 <= yy < old(padded).height && 0 <= xx < old(padded).width ==> #[trigger] final(padded).at(yy, xx)
                == if yy < channel.height && xx >= channel.width {
                channel.at(yy, mirrored(channel.width as int, xx))
            } else {
                old(padded).at(yy, xx)
            },
{
    let height: usize = channel.height;
    let width: usize = channel.width;
    let side: usize = padded.width;
    let mut y: usize = 0;
    while y < height
        invariant
            y <= height,
            height == channel.height,
            width == channel.width,
            side == padded.width,
            channel.wf(),
            padded.wf(),
            padded.height == old(padded).height,
            padded.width == old(padded).width,
            height <= padded.height,
            width <= side < 2 * width,
            forall|yy: int, xx: int|
                0 <= yy < padded.height && 0 <= xx < padded.width ==> #[trigger] padded.at(yy, xx) == if yy
                    < y && xx >= width {
                    channel.at(yy, mirrored(width as int, xx))
                } else {
                    old(padded).at(yy, xx)
                },
        decreases height - y,
    {
        let mut x: usize = width;
        while x < side
            invariant
                y < height,
                width <= x <= side,
                height == channel.height,
                width == channel.width,
                side == padded.width,
                channel.wf(),
                padded.wf(),
                padded.height == old(padded).height,
                padded.width == old(padded).width,
                height <= padded.height,
                width <= side < 2 * width,
                forall|yy: int, xx: int|
                    0 <= yy < padded.height && 0 <= xx < padded.width ==> #[trigger] padded.at(yy, xx)
                        == if (yy < y || (yy == y && xx < x)) && xx >= width {
                        channel.at(yy, mirrored(width as int, xx))
                    } else {
                        old(padded).at(yy, xx)
                    },
            decreases side - x,
        {
            let v = channel.get(y, width - 1 - (x - width));
            padded.set(y, x, v);
            x += 1;
        }
        y += 1;
    }
}

fn reflect_rows<T: Copy>(padded: &mut Plane<T>, height: usize)
    requires
        old(padded).wf(),
        height <= old(padded).height < 2 * height,
    ensures
        final(padded).wf(),
        final(padded).height == old(padded).height,
        final(padded).width == old(padded).width,
        forall|yy: int, xx: int|
            0 <= yy < old(padded).height && 0 <= xx < old(padded).width ==> #[trigger] final(padded).at(yy, xx)
                == old(padded).at(mirrored(height as int, yy), xx),
{
    let side: usize = padded.height;
    let width: usize = padded.width;
    let mut y: usize = height;
    while y < side
        invariant
            height <= y <= side,
            side == padded.height,
            width == padded.width,
            padded.wf(),
            padded.height == old(padded).height,
            padded.width == old(padded).width,
            height <= side < 2 * height,
            forall|yy: int, xx: int|
                0 <= yy < side && 0 <= xx < width ==> #[trigger] padded.at(yy, xx) == if yy < y {
                    old(padded).at(mirrored(height as int, yy), xx)
                } else {
                    old(padded).at(yy, xx)
                },
        decreases side - y,
    {
        let mut x: usize = 0;
        while x < width
            invariant
                height <= y < side,
                x <= width,
                side == padded.height,
                width == padded.width,
                padded.wf(),
                padded.height == old(padded).height,
                padded.width == old(padded).width,
                height <= side < 2 * height,
                forall|yy: int, xx: int|
                    0 <= yy < side && 0 <= xx < width ==> #[trigger] padded.at(yy, xx) == if yy < y || (yy
                        == y && xx < x) {
                        old(padded).at(mirrored(height as int, yy), xx)
                    } else {
                        old(padded).at(yy, xx)
                    },
            decreases width - x,
        {
            let v = padded.get(height - 1 - (y - height), x);
            padded.set(y, x, v);
            x += 1;
        }
        y += 1;
    }
}

fn tile<T: Copy>(padded: &mut Plane<T>, channel: &Plane<T>)
    requires
        old(padded).wf(),
        channel.wf(),
        channel.height > 0,
        channel.width > 0,
    ensures
        final(padded).wf(),
        final(padded).height == old(padded).height,
        final(padded).width == old(padded).width,
        forall|yy: int, xx: int|
            0 <= yy < old(padded).height && 0 <= xx < old(padded).width ==> #[trigger] final(padded).at(yy, xx)
                == channel.at(yy % (channel.height as int), xx % (channel.width as int)),
{
    let height: usize = channel.height;
    let width: usize = channel.width;
    let rows: usize = padded.height;
    let cols: usize = padded.width;
    let mut y: usize = 0;
    while y < rows
        invariant
            y <= rows,
            height == channel.height,
            width == channel.width,
            height > 0,
            width > 0,
            rows == padded.height,
            cols == padded.width,
            channel.wf(),
            padded.wf(),
            padded.height == old(padded).height,
            padded.width == old(padded).width,
            forall|yy: int, xx: int|
                0 <= yy < y && 0 <= xx < cols ==> #[trigger] padded.at(yy, xx) == channel.at(
                    yy % (height as int),
                    xx % (width as int),
                ),
        decreases rows - y,
    {
        let mut x: usize = 0;
        while x < cols
            invariant
                y < rows,
                x <= cols,
                height == channel.height,
                width == channel.width,
                height > 0,
                width > 0,
                rows == padded.height,
                cols == padded.width,
                channel.wf(),
                padded.wf(),
                padded.height == old(padded).height,
                padded.width == old(padded).width,
                forall|yy: int, xx: int|
                    0 <= yy < rows && 0 <= xx < cols && (yy < y || (yy == y && xx < x))
                        ==> #[trigger] padded.at(yy, xx) == channel.at(
                        yy % (height as int),
                        xx % (width as int),
                    ),
            decreases cols - x,
        {
            let v = channel.get(y % height, x % width);
            padded.set(y, x, v);
            x += 1;
        }
        y += 1;
    }
}

/// Pads the given channel to a square whose side is the optimal transform
/// size for the longer of its two dimensions, using the chosen mode.
pub fn apply_padding<T: Copy>(channel: &Plane<T>, mode: PaddingMode, zero: T) -> (r: Result<
    Plane<T>,
    ScrambleError,
>)
    requires
        channel.wf(),
        padded_side(channel.height as int, channel.width as int) * padded_side(
            channel.height as int,
            channel.width as int,
        ) <= usize::MAX,
    ensures
        match r {
            Ok(p) => padding_error(mode, channel.height as int, channel.width as int) is None
                && p.wf() && p.height == padded_side(channel.height as int, channel.width as int)
                && p.width == p.height && is_pow2(p.height as int) && p.height >= channel.height
                && p.width >= channel.width && p.cells@ == padded_cells(
                mode,
                channel.cells@,
                channel.height as int,
                channel.width as int,
                zero,
            ),
            Err(e) => padding_error(mode, channel.height as int, channel.width as int) == Some(e),
        },
{
    let height: usize = channel.height;
    let width: usize = channel.width;
    if height == 0 || width == 0 {
        return Err(ScrambleError::InvalidImage);
    }
    let longest: usize = if width > height {
        width
    } else {
        height
    };
    let ghost side = padded_side(height as int, width as int);
    proof {
        lemma_optimal_fft_size(longest as int);
        assert(side <= side * side) by (nonlinear_arith)
            requires
                side >= 1,
        ;
    }
    let padded_size: usize = get_optimal_fft_size(longest);
    let mut padded: Plane<T> = Plane::filled(padded_size, padded_size, zero);
    proof {
        assert forall|yy: int, xx: int| 0 <= yy < side && 0 <= xx < side implies #[trigger] padded.at(
            yy,
            xx,
        ) == zero by {
            lemma_flat_in_bounds(side, side, yy, xx);
        }
    }
    match mode {
        PaddingMode::Zero => {
            copy_into_corner(&mut padded, channel);
        },
        PaddingMode::Reflect => {
            if padded_size - width >= width || padded_size - height >= height {
                return Err(ScrambleError::UnsupportedPaddingGeometry);
            }
            copy_into_corner(&mut padded, channel);
            reflect_columns(&mut padded, channel);
            reflect_rows(&mut padded, height);
        },
        PaddingMode::Wrap => {
            tile(&mut padded, channel);
        },
    }
    proof {
        let want = padded_cells(mode, channel.cells@, height as int, width as int, zero);
        assert forall|i: int| 0 <= i < side * side implies padded.cells@[i] == want[i] by {
            lemma_flat_of_position(side, side, i);
            assert(padded.cells@[i] == padded.at(i / side, i % side));
        }
        assert(padded.cells@ =~= want);
    }
    Ok(padded)
}

/// Removes the padding from transformed data: keeps the real parts of the
/// top-left corner that has the dimensions `(height, width)` of the plane
/// before it was padded.
pub fn remove_padding<T: Copy>(complex_data: &Vec<Complex<T>>, original_dim: (usize, usize)) -> (p: Plane<
    T,
>)
    requires
        complex_data@.len() == padded_side(original_dim.0 as int, original_dim.1 as int) * padded_side(
            original_dim.0 as int,
            original_dim.1 as int,
        ),
    ensures
        p.wf(),
        p.height == original_dim.0,
        p.width == original_dim.1,
        p.cells@ == cropped_real(
            complex_data@,
            padded_side(original_dim.0 as int, original_dim.1 as int),
            original_dim.0 as int,
            original_dim.1 as int,
        ),
{
    let height: usize = original_dim.0;
    let width: usize = original_dim.1;
    let longest: usize = if width > height {
        width
    } else {
        height
    };
    let ghost side = padded_side(height as int, width as int);
    let total: usize = complex_data.len();
    proof {
        lemma_optimal_fft_size(longest as int);
        assert(side <= side * side) by (nonlinear_arith)
            requires
                side >= 1,
        ;
        assert(height * width <= side * side) by (nonlinear_arith)
            requires
                0 <= height <= side,
                0 <= width <= side,
        ;
    }
    let padded_size: usize = get_optimal_fft_size(longest);
    let mut cells: Vec<T> = Vec::new();
    let mut y: usize = 0;
    while y < height
        invariant
            y <= height,
            height <= padded_size,
            width <= padded_size,
            padded_size == side,
            complex_data@.len() == side * side == total,
            height * width <= usize::MAX,
            cells@.len() == y * width,
            forall|k: int|
                0 <= k < cells@.len() ==> cells@[k] == complex_data@[flat(
                    side,
                    k / (width as int),
                    k % (width as int),
                )].re,
        decreases height - y,
    {
        let mut x: usize = 0;
        while x < width
            invariant
                y < height,
                x <= width,
                height <= padded_size,
                width <= padded_size,
                padded_size == side,
                complex_data@.len() == side * side == total,
                height * width <= usize::MAX,
                cells@.len() == y * width + x,
                forall|k: int|
                    0 <= k < cells@.len() ==> cells@[k] == complex_data@[flat(
                        side,
                        k / (width as int),
                        k % (width as int),
                    )].re,
            decreases width - x,
        {
            proof {
                lemma_flat_in_bounds(height as int, width as int, y as int, x as int);
                lemma_flat_in_bounds(side, side, y as int, x as int);
            }
            let idx: usize = index_of(padded_size, padded_size, y, x);
            cells.push(complex_data[idx].re);
            x += 1;
        }
        proof {
            assert(y * width + width == (y + 1) * width) by (nonlinear_arith);
        }
        y += 1;
    }
    let p = Plane { height, width, cells };
    proof {
        assert(p.cells@ =~= cropped_real(complex_data@, side, height as int, width as int));
    }
    p
}

/// Zero padding followed by removal of the padding gives back the plane:
/// cropping the padded square, read as complex coefficients, to the
/// plane's own dimensions yields exactly the samples of the plane.
pub proof fn lemma_zero_padding_round_trip<T>(cells: Seq<T>, height: int, width: int, zero: T)
    requires
        0 <= height,
        0 <= width,
        cells.len() == height * width,
    ensures
        cropped_real(
            lifted(padded_cells(PaddingMode::Zero, cells, height, width, zero), zero),
            padded_side(height, width),
            height,
            width,
        ) == cells,
{
    let side = padded_side(height, width);
    let padded = padded_cells(PaddingMode::Zero, cells, height, width, zero);
    let back = cropped_real(lifted(padded, zero), side, height, width);
    lemma_optimal_fft_size(if width > height {
        width
    } else {
        height
    });
    assert forall|i: int| 0 <= i < height * width implies back[i] == cells[i] by {
        assert(width > 0) by (nonlinear_arith)
            requires
                0 <= i < height * width,
                0 <= height,
                0 <= width,
        ;
        lemma_flat_of_position(height, width, i);
        let y = i / width;
        let x = i % width;
        lemma_flat_in_bounds(side, side, y, x);
    }
    assert(back =~= cells);
}

} // verus!
