use crate::error::ScrambleError;
use crate::padding::{cropped_real, lifted, padded_cells, padded_side, padding_error, PaddingMode};
use crate::phase::{scrambled, unique_pairs};
use crate::plane::Complex;
use crate::raster::{
    composite, cropped, lemma_outside_regions_untouched, lemma_sample_index, sample_index, BackgroundMode,
    FaceRegion,
};
use crate::transform::{inverse_transformed_2d, transform_ready, transformed_2d};
use vstd::prelude::*;

verus! {

/// What a scrambler is asked to do to each channel.
#[derive(Clone, Copy, Debug)]
pub struct FourierOptions<T> {
    /// Whether the phases of the spectrum are scrambled at all.
    pub phase_scramble: bool,
    /// How far each phase moves from its own value toward a random one.
    pub intensity: T,
    /// How a plane is extended to the square that is transformed.
    pub padding_mode: PaddingMode,
}

/// The arithmetic on samples of type `T` that scrambling is built from.
/// The library arranges these operations; what each computes is up to
/// the one who supplies it.
pub struct Arithmetic<T, NZ, FW, IV, SC, RT, NG, CL, QZ> {
    /// The sample that zero padding fills with, and the imaginary part of
    /// a real sample.
    pub zero: T,
    /// From an 8-bit level to a sample.
    pub normalize: NZ,
    /// The one-dimensional forward transform of a sequence of coefficients.
    pub forward: FW,
    /// The one-dimensional inverse transform, not normalised.
    pub inverse: IV,
    /// A coefficient divided by the number of coefficients, its second argument.
    pub scale: SC,
    /// A coefficient with its phase moved: the arguments are the
    /// coefficient, the intensity and a random phase.
    pub rotate: RT,
    /// The negative of a sample.
    pub negate: NG,
    /// A sample brought into the range of valid samples.
    pub clamp: CL,
    /// From a sample to an 8-bit level.
    pub quantize: QZ,
}

/// `plane` holds the samples of channel `c` of the interleaved buffer
/// `data`, each a result of `normalize` on the level found there.
pub open spec fn channel_of<T, NZ: Fn(u8) -> T>(normalize: NZ, data: Seq<u8>, c: int, plane: Seq<T>) -> bool {
    &&& plane.len() * 3 == data.len()
    &&& forall|i: int| 0 <= i < plane.len() ==> normalize.ensures((data[i * 3 + c],), #[trigger] plane[i])
}

/// Channel `c` of the interleaved buffer `data` holds, for each sample of
/// `plane`, a result of `quantize` on it.
pub open spec fn channel_written<T, QZ: Fn(T) -> u8>(quantize: QZ, plane: Seq<T>, c: int, data: Seq<u8>) -> bool {
    &&& plane.len() * 3 == data.len()
    &&& forall|i: int| 0 <= i < plane.len() ==> quantize.ensures((#[trigger] plane[i],), data[i * 3 + c])
}

/// Every sample of `after` is a result of `clamp` on the sample of
/// `before` at the same place.
pub open spec fn all_clamped<T, CL: Fn(T) -> T>(clamp: CL, before: Seq<T>, after: Seq<T>) -> bool {
    &&& before.len() == after.len()
    &&& forall|i: int| 0 <= i < before.len() ==> clamp.ensures((before[i],), #[trigger] after[i])
}

/// The error that scrambling a `height` by `width` image ends with, if
/// any, for a scrambler whose transforms are sized for `plan_size`.
pub open spec fn scramble_error<T>(
    options: FourierOptions<T>,
    plan_size: int,
    height: int,
    width: int,
) -> Option<ScrambleError> {
    if height == 0 || width == 0 {
        Some(ScrambleError::InvalidImage)
    } else if padded_side(height, width) != plan_size {
        Some(ScrambleError::TransformSizeMismatch)
    } else {
        padding_error(options.padding_mode, height, width)
    }
}

/// Number of draws that one channel uses.
pub open spec fn draws_per_channel<T>(options: FourierOptions<T>, plan_size: int) -> int {
    if options.phase_scramble {
        unique_pairs(plan_size)
    } else {
        0
    }
}

/// Index of the first region from `from` on whose crop cannot be
/// scrambled, or the length of the list if there is none.
pub open spec fn first_failure<T>(
    options: FourierOptions<T>,
    plan_size: int,
    regions: Seq<FaceRegion>,
    from: int,
) -> int
    decreases regions.len() - from,
{
    if from < 0 || from >= regions.len() {
        regions.len() as int
    } else if scramble_error(
        options,
        plan_size,
        regions[from].rows(),
        regions[from].columns(),
    ) is Some {
        from
    } else {
        first_failure(options, plan_size, regions, from + 1)
    }
}

/// The error that scrambling the regions of the list, in their order,
/// ends with: that of the first region whose crop cannot be scrambled.
pub open spec fn regions_error<T>(
    options: FourierOptions<T>,
    plan_size: int,
    regions: Seq<FaceRegion>,
) -> Option<ScrambleError> {
    let k = first_failure(options, plan_size, regions, 0);
    if k < regions.len() {
        scramble_error(options, plan_size, regions[k].rows(), regions[k].columns())
    } else {
        None
    }
}

/// Number of regions, from the front of the list, that scrambling the
/// regions works on: those before the first failure, and the one that fails.
pub open spec fn regions_attempted<T>(
    options: FourierOptions<T>,
    plan_size: int,
    regions: Seq<FaceRegion>,
) -> int {
    let k = first_failure(options, plan_size, regions, 0);
    if k < regions.len() {
        k + 1
    } else {
        regions.len() as int
    }
}

/// The canvas that the scrambled regions are pasted on: the image itself,
/// or a blank canvas of its size.
pub open spec fn background(mode: BackgroundMode, data: Seq<u8>) -> Seq<u8> {
    match mode {
        BackgroundMode::Include => data,
        BackgroundMode::Exclude => Seq::new(data.len(), |i: int| 0u8),
    }
}

impl<
    T: Copy,
    NZ: Fn(u8) -> T,
    FW: Fn(Vec<Complex<T>>) -> Vec<Complex<T>>,
    IV: Fn(Vec<Complex<T>>) -> Vec<Complex<T>>,
    SC: Fn(Complex<T>, usize) -> Complex<T>,
    RT: Fn(Complex<T>, T, T) -> Complex<T>,
    NG: Fn(T) -> T,
    CL: Fn(T) -> T,
    QZ: Fn(T) -> u8,
> Arithmetic<T, NZ, FW, IV, SC, RT, NG, CL, QZ> {
    /// Every operation accepts every argument, and the two transforms
    /// accept sequences of `n` coefficients and keep their length.
    pub open spec fn ready(&self, n: int) -> bool {
        &&& transform_ready(self.forward, n)
        &&& transform_ready(self.inverse, n)
        &&& forall|level: u8| #[trigger] self.normalize.requires((level,))
        &&& forall|c: Complex<T>, count: usize| #[trigger] self.scale.requires((c, count))
        &&& forall|c: Complex<T>, a: T, b: T| #[trigger] self.rotate.requires((c, a, b))
        &&& forall|t: T| #[trigger] self.negate.requires((t,))
        &&& forall|t: T| #[trigger] self.clamp.requires((t,))
        &&& forall|t: T| #[trigger] self.quantize.requires((t,))
    }

    /// The stages of the channel pipeline, one after the other: `spectrum`
    /// is the forward transform of the padded plane `before`, `shuffled`
    /// is the spectrum after phase scrambling with the draws from `cursor`
    /// on, or the spectrum itself where scrambling is disabled, `restored`
    /// is the inverse transform of that, and `after` holds the clamped
    /// real parts of its top-left corner.
    pub open spec fn stages_hold(
        &self,
        options: FourierOptions<T>,
        draws: Seq<T>,
        cursor: int,
        height: int,
        width: int,
        before: Seq<T>,
        spectrum: Seq<Complex<T>>,
        shuffled: Seq<Complex<T>>,
        restored: Seq<Complex<T>>,
        after: Seq<T>,
    ) -> bool {
        let n = padded_side(height, width);
        &&& transformed_2d(
            self.forward,
            n,
            lifted(padded_cells(options.padding_mode, before, height, width, self.zero), self.zero),
            spectrum,
        )
        &&& if options.phase_scramble {
            scrambled(self.rotate, self.negate, n, options.intensity, draws, cursor, spectrum, shuffled)
        } else {
            shuffled == spectrum
        }
        &&& inverse_transformed_2d(self.inverse, self.scale, n, shuffled, restored)
        &&& all_clamped(self.clamp, cropped_real(restored, n, height, width), after)
    }

    /// `after` is what the channel pipeline makes of the `height` by
    /// `width` plane `before`: padding, the forward transform, phase
    /// scrambling with the draws from `cursor` on if it is enabled, the
    /// inverse transform, removal of the padding, and clamping.
    pub open spec fn channel_processed(
        &self,
        options: FourierOptions<T>,
        draws: Seq<T>,
        cursor: int,
        height: int,
        width: int,
        before: Seq<T>,
        after: Seq<T>,
    ) -> bool {
        exists|spectrum: Seq<Complex<T>>, shuffled: Seq<Complex<T>>, restored: Seq<Complex<T>>|
            self.stages_hold(
                options,
                draws,
                cursor,
                height,
                width,
                before,
                spectrum,
                shuffled,
                restored,
                after,
            )
    }

    /// The planes `ins` are the three channels of the image `before`, the
    /// planes `outs` are what the channel pipeline makes of them, each
    /// with the draws that follow those of the channel before it, and
    /// `after` holds the planes `outs` written back.
    pub open spec fn channels_scrambled(
        &self,
        options: FourierOptions<T>,
        draws: Seq<T>,
        cursor: int,
        height: int,
        width: int,
        before: Seq<u8>,
        ins: Seq<Seq<T>>,
        outs: Seq<Seq<T>>,
        after: Seq<u8>,
    ) -> bool {
        let step = draws_per_channel(options, padded_side(height, width));
        &&& ins.len() == 3
        &&& outs.len() == 3
        &&& after.len() == before.len()
        &&& forall|c: int|
            0 <= c < 3 ==> {
                &&& channel_of(self.normalize, before, c, #[trigger] ins[c])
                &&& self.channel_processed(
                    options,
                    draws,
                    cursor + c * step,
                    height,
                    width,
                    ins[c],
                    outs[c],
                )
                &&& channel_written(self.quantize, outs[c], c, after)
            }
    }

    /// `after` is what scrambling makes of the `height` by `width` image
    /// `before`: its three channels, in their order, each split off,
    /// run through the channel pipeline with the draws that follow those
    /// of the channel before it, and written back.
    pub open spec fn image_scrambled(
        &self,
        options: FourierOptions<T>,
        draws: Seq<T>,
        cursor: int,
        height: int,
        width: int,
        before: Seq<u8>,
        after: Seq<u8>,
    ) -> bool {
        exists|ins: Seq<Seq<T>>, outs: Seq<Seq<T>>|
            self.channels_scrambled(options, draws, cursor, height, width, before, ins, outs, after)
    }

    /// The patches are what scrambling makes of the crops of the regions,
    /// each with the draws that follow those of the region before it, and
    /// `after` is the background with the patches pasted in the order of
    /// the list.
    pub open spec fn patches_scrambled(
        &self,
        options: FourierOptions<T>,
        plan_size: int,
        mode: BackgroundMode,
        draws: Seq<T>,
        cursor: int,
        width: int,
        regions: Seq<FaceRegion>,
        before: Seq<u8>,
        patches: Seq<Seq<u8>>,
        after: Seq<u8>,
    ) -> bool {
        &&& patches.len() == regions.len()
        &&& forall|k: int|
            0 <= k < regions.len() ==> self.image_scrambled(
                options,
                draws,
                cursor + k * (3 * draws_per_channel(options, plan_size)),
                regions[k].rows(),
                regions[k].columns(),
                cropped(before, width, regions[k]),
                #[trigger] patches[k],
            )
        &&& after == composite(background(mode, before), width, regions, patches)
    }

    /// `after` is what scrambling the face regions makes of the image
    /// `before` of the given `width`: each region is cropped and
    /// scrambled with the draws that follow those of the region before
    /// it, and the results are pasted on the background in the order of
    /// the list.
    pub open spec fn faces_scrambled(
        &self,
        options: FourierOptions<T>,
        plan_size: int,
        mode: BackgroundMode,
        draws: Seq<T>,
        cursor: int,
        width: int,
        regions: Seq<FaceRegion>,
        before: Seq<u8>,
        after: Seq<u8>,
    ) -> bool {
        exists|patches: Seq<Seq<u8>>|
            self.patches_scrambled(
                options,
                plan_size,
                mode,
                draws,
                cursor,
                width,
                regions,
                before,
                patches,
                after,
            )
    }

    /// Pixels outside every region keep the background: with `Include`
    /// the sample of the image, with `Exclude` the blank sample, zero.
    pub proof fn lemma_faces_keep_background(
        &self,
        options: FourierOptions<T>,
        plan_size: int,
        mode: BackgroundMode,
        draws: Seq<T>,
        cursor: int,
        height: int,
        width: int,
        regions: Seq<FaceRegion>,
        before: Seq<u8>,
        after: Seq<u8>,
        y: int,
        x: int,
        c: int,
    )
        requires
            self.faces_scrambled(options, plan_size, mode, draws, cursor, width, regions, before, after),
            before.len() == height * width * 3,
            0 <= y < height,
            0 <= x < width,
            0 <= c < 3,
            forall|k: int| 0 <= k < regions.len() ==> !(#[trigger] regions[k]).holds(y, x),
        ensures
            mode == BackgroundMode::Include ==> after[sample_index(width, y, x, c)] == before[sample_index(
                width,
                y,
                x,
                c,
            )],
            mode == BackgroundMode::Exclude ==> after[sample_index(width, y, x, c)] == 0,
    {
        let patches = choose|patches: Seq<Seq<u8>>|
            self.patches_scrambled(
                options,
                plan_size,
                mode,
                draws,
                cursor,
                width,
                regions,
                before,
                patches,
                after,
            );
        lemma_sample_index(height, width, y, x, c);
        lemma_outside_regions_untouched(
            background(mode, before),
            height,
            width,
            regions,
            patches,
            y,
            x,
            c,
        );
    }

    /// With no region in the list the result is the background itself:
    /// with `Include` the image unchanged, with `Exclude` the blank canvas.
    pub proof fn lemma_no_faces(
        &self,
        options: FourierOptions<T>,
        plan_size: int,
        mode: BackgroundMode,
        draws: Seq<T>,
        cursor: int,
        width: int,
        before: Seq<u8>,
        after: Seq<u8>,
    )
        requires
            self.faces_scrambled(
                options,
                plan_size,
                mode,
                draws,
                cursor,
                width,
                Seq::<FaceRegion>::empty(),
                before,
                after,
            ),
        ensures
            after == background(mode, before),
            mode == BackgroundMode::Include ==> after == before,
    {
    }
}

} // verus!
