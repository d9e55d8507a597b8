use crate::arithmetic::{
    all_clamped, background, channel_of, channel_written, draws_per_channel, first_failure,
    regions_attempted, regions_error, scramble_error, Arithmetic, FourierOptions,
};
use crate::error::ScrambleError;
use crate::padding::{apply_padding, cropped_real, lifted, padded_side, remove_padding};
use crate::phase::{lemma_visits_before_monotonic, phase_scramble, unique_pair_count};
use crate::plane::{Complex, Plane};
use crate::raster::{all_fit, composite, cropped, BackgroundMode, FaceRegion, RgbImage};
use crate::size::{get_optimal_fft_size, lemma_optimal_fft_size};
use crate::transform::{fft2d, ifft2d};
use vstd::arithmetic::power2::is_pow2;
use vstd::prelude::*;

verus! {

/// Scrambles images by randomising the phase of their spectrum. Holds the
/// dimensions of the image last worked on, the side that the transforms
/// were sized for when the scrambler was made, the options, and the
/// arithmetic.
pub struct FourierScrambler<T, NZ, FW, IV, SC, RT, NG, CL, QZ> {
    /// Width of the image last worked on.
    pub width: usize,
    /// Height of the image last worked on.
    pub height: usize,
    /// Length of the lines that the two transforms take.
    pub plan_size: usize,
    /// What is done to each channel.
    pub options: FourierOptions<T>,
    /// The operations on samples and coefficients.
    pub arithmetic: Arithmetic<T, NZ, FW, IV, SC, RT, NG, CL, QZ>,
}

/// Converts a real plane to a flat vector of coefficients with imaginary
/// part `zero`.
pub fn to_complex<T: Copy>(plane: &Plane<T>, zero: T) -> (data: Vec<Complex<T>>)
    ensures
        data@ == lifted(plane.cells@, zero),
{
    let len: usize = plane.cells.len();
    let mut data: Vec<Complex<T>> = Vec::new();
    let mut i: usize = 0;
    while i < len
        invariant
            i <= len,
            len == plane.cells@.len(),
            data@.len() == i,
            forall|k: int| 0 <= k < i ==> data@[k] == (Complex { re: plane.cells@[k], im: zero }),
        decreases len - i,
    {
        data.push(Complex { re: plane.cells[i], im: zero });
        i += 1;
    }
    assert(data@ =~= lifted(plane.cells@, zero));
    data
}

impl<
    T: Copy,
    NZ: Fn(u8) -> T,
    FW: Fn(Vec<Complex<T>>) -> Vec<Complex<T>>,
    IV: Fn(Vec<Complex<T>>) -> Vec<Complex<T>>,
    SC: Fn(Complex<T>, usize) -> Complex<T>,
    RT: Fn(Complex<T>, T, T) -> Complex<T>,
    NG: Fn(T) -> T,
    CL: Fn(T) -> T,
    QZ: Fn(T) -> u8,
> FourierScrambler<T, NZ, FW, IV, SC, RT, NG, CL, QZ> {
    /// The transforms are sized for a power of two whose square can be
    /// addressed, and the arithmetic is ready for that size.
    pub open spec fn wf(&self) -> bool {
        &&& is_pow2(self.plan_size as int)
        &&& self.plan_size * self.plan_size <= usize::MAX
        &&& self.arithmetic.ready(self.plan_size as int)
    }

    /// The error that scrambling `image` ends with, if any.
    pub open spec fn image_error(&self, image: RgbImage) -> Option<ScrambleError> {
        if !image.wf() {
            Some(ScrambleError::InvalidImage)
        } else {
            scramble_error(
                self.options,
                self.plan_size as int,
                image.height as int,
                image.width as int,
            )
        }
    }

    /// The error that scrambling the face regions of `image` ends with, if any.
    pub open spec fn faces_error(&self, image: RgbImage, regions: Seq<FaceRegion>) -> Option<
        ScrambleError,
    > {
        if !image.wf() {
            Some(ScrambleError::InvalidImage)
        } else {
            regions_error(self.options, self.plan_size as int, regions)
        }
    }

    /// The working dimensions after scrambling the face regions of a
    /// well-formed image: those of the last region worked on, or the
    /// dimensions `before` where the list is empty.
    pub open spec fn working_dimensions_after(
        &self,
        regions: Seq<FaceRegion>,
        before: (usize, usize),
    ) -> (int, int) {
        let worked = regions_attempted(self.options, self.plan_size as int, regions);
        if worked == 0 {
            (before.0 as int, before.1 as int)
        } else {
            (regions[worked - 1].columns(), regions[worked - 1].rows())
        }
    }

    /// Only the working dimensions differ between `self` and `other`.
    pub open spec fn same_setup(&self, other: &Self) -> bool {
        &&& self.plan_size == other.plan_size
        &&& self.options == other.options
        &&& self.arithmetic == other.arithmetic
    }

    /// Number of draws that scrambling one image uses.
    pub open spec fn draws_per_image(&self) -> int {
        3 * draws_per_channel(self.options, self.plan_size as int)
    }

    /// Makes a scrambler for images of the given dimensions: its
    /// transforms are sized for the padded side of such an image.
    pub fn new(
        width: usize,
        height: usize,
        options: FourierOptions<T>,
        arithmetic: Arithmetic<T, NZ, FW, IV, SC, RT, NG, CL, QZ>,
    ) -> (s: Self)
        requires
            padded_side(height as int, width as int) * padded_side(height as int, width as int)
                <= usize::MAX,
        ensures
            s.width == width,
            s.height == height,
            s.plan_size == padded_side(height as int, width as int),
            s.options == options,
            s.arithmetic == arithmetic,
            arithmetic.ready(s.plan_size as int) ==> s.wf(),
    {
        let longest: usize = if width > height {
            width
        } else {
            height
        };
        proof {
            let side = padded_side(height as int, width as int);
            lemma_optimal_fft_size(longest as int);
            assert(side <= side * side) by (nonlinear_arith)
                requires
                    side >= 1,
            ;
        }
        // Determine the padded size (square) based on the maximum dimension.
        let padded_size: usize = get_optimal_fft_size(longest);
        FourierScrambler { width, height, plan_size: padded_size, options, arithmetic }
    }

    /// Counts the draws that scrambling one image uses, if a `usize` can
    /// hold the count.
    pub fn draws_needed(&self) -> (r: Option<usize>)
        requires
            self.plan_size * self.plan_size <= usize::MAX,
        ensures
            match r {
                Some(count) => count == self.draws_per_image(),
                None => self.draws_per_image() > usize::MAX,
            },
    {
        if self.options.phase_scramble {
            let pairs: usize = unique_pair_count(self.plan_size);
            pairs.checked_mul(3)
        } else {
            Some(0)
        }
    }

    /// Splits the image into its three channels, each a plane of samples
    /// that `normalize` gives for the levels of the image.
    pub fn split_channels(&self, image: &RgbImage) -> (channels: Vec<Plane<T>>)
        requires
            image.wf(),
            forall|level: u8| #[trigger] self.arithmetic.normalize.requires((level,)),
        ensures
            channels@.len() == 3,
            forall|c: int|
                0 <= c < 3 ==> {
                    &&& (#[trigger] channels@[c]).wf()
                    &&& channels@[c].height == image.height
                    &&& channels@[c].width == image.width
                    &&& channel_of(self.arithmetic.normalize, image.data@, c, channels@[c].cells@)
                },
    {
        let height: usize = image.height;
        let width: usize = image.width;
        proof {
            assert(height * width * 3 >= height * width >= 0) by (nonlinear_arith);
        }
        let pixels: usize = height * width;
        let mut channels: Vec<Plane<T>> = Vec::new();
        let mut c: usize = 0;
        while c < 3
            invariant
                c <= 3,
                image.wf(),
                height == image.height,
                width == image.width,
                pixels == height * width,
                forall|level: u8| #[trigger] self.arithmetic.normalize.requires((level,)),
                channels@.len() == c,
                forall|k: int|
                    0 <= k < c ==> {
                        &&& (#[trigger] channels@[k]).wf()
                        &&& channels@[k].height == image.height
                        &&& channels@[k].width == image.width
                        &&& channel_of(self.arithmetic.normalize, image.data@, k, channels@[k].cells@)
                    },
            decreases 3 - c,
        {
            let mut cells: Vec<T> = Vec::new();
            let mut i: usize = 0;
            while i < pixels
                invariant
                    c < 3,
                    i <= pixels,
                    image.wf(),
                    pixels == image.height * image.width,
                    forall|level: u8| #[trigger] self.arithmetic.normalize.requires((level,)),
                    cells@.len() == i,
                    forall|k: int|
                        0 <= k < i ==> self.arithmetic.normalize.ensures(
                            (image.data@[k * 3 + c],),
                            #[trigger] cells@[k],
                        ),
                decreases pixels - i,
            {
                let level: u8 = image.data[i * 3 + c];
                let v: T = (self.arithmetic.normalize)(level);
                cells.push(v);
                i += 1;
            }
            channels.push(Plane { height, width, cells });
            c += 1;
        }
        channels
    }

    /// Combines three planes, for the red, green and blue channel, into
    /// one image with the working dimensions: each level is what
    /// `quantize` gives for the sample.
    pub fn combine_channels(&self, channels: &Vec<Plane<T>>) -> (image: RgbImage)
        requires
            channels@.len() == 3,
            self.height * self.width * 3 <= usize::MAX,
            forall|c: int|
                0 <= c < 3 ==> (#[trigger] channels@[c]).wf() && channels@[c].height == self.height
                    && channels@[c].width == self.width,
            forall|t: T| #[trigger] self.arithmetic.quantize.requires((t,)),
        ensures
            image.wf(),
            image.width == self.width,
            image.height == self.height,
            forall|c: int|
                0 <= c < 3 ==> channel_written(
                    self.arithmetic.quantize,
                    (#[trigger] channels@[c]).cells@,
                    c,
                    image.data@,
                ),
    {
        proof {
            assert(self.height * self.width * 3 >= self.height * self.width >= 0) by (nonlinear_arith);
            assert(channels@[0].wf());
            assert(channels@[1].wf());
            assert(channels@[2].wf());
        }
        let pixels: usize = self.height * self.width;
        let mut data: Vec<u8> = Vec::new();
        let mut i: usize = 0;
        while i < pixels
            invariant
                i <= pixels,
                pixels == self.height * self.width,
                pixels * 3 <= usize::MAX,
                channels@.len() == 3,
                channels@[0].cells@.len() == pixels,
                channels@[1].cells@.len() == pixels,
                channels@[2].cells@.len() == pixels,
                forall|t: T| #[trigger] self.arithmetic.quantize.requires((t,)),
                data@.len() == i * 3,
                forall|k: int, c: int|
                    0 <= k < i && 0 <= c < 3 ==> self.arithmetic.quantize.ensures(
                        (channels@[c].cells@[k],),
                        #[trigger] data@[k * 3 + c],
                    ),
            decreases pixels - i,
        {
            let r: u8 = (self.arithmetic.quantize)(channels[0].cells[i]);
            let g: u8 = (self.arithmetic.quantize)(channels[1].cells[i]);
            let b: u8 = (self.arithmetic.quantize)(channels[2].cells[i]);
            let ghost prev = data@;
            data.push(r);
            data.push(g);
            data.push(b);
            proof {
                assert forall|k: int, c: int| 0 <= k < i + 1 && 0 <= c < 3 implies self.arithmetic.quantize.ensures(
                    (channels@[c].cells@[k],),
                    #[trigger] data@[k * 3 + c],
                ) by {
                    if k < i {
                        assert(data@[k * 3 + c] == prev[k * 3 + c]);
                    }
                }
            }
            i += 1;
        }
        let image = RgbImage { width: self.width, height: self.height, data };
        proof {
            assert forall|c: int| 0 <= c < 3 implies channel_written(
                self.arithmetic.quantize,
                (#[trigger] channels@[c]).cells@,
                c,
                image.data@,
            ) by {
                assert forall|k: int| 0 <= k < channels@[c].cells@.len() implies self.arithmetic.quantize.ensures(
                    (#[trigger] channels@[c].cells@[k],),
                    image.data@[k * 3 + c],
                ) by {
                    assert(self.arithmetic.quantize.ensures(
                        (channels@[c].cells@[k],),
                        data@[k * 3 + c],
                    ));
                }
            }
        }
        image
    }

    /// Processes a single channel: pads the plane, computes its
    /// two-dimensional transform, scrambles the phases if that is enabled,
    /// computes the inverse transform, removes the padding and clamps
    /// every sample. Returns the plane and the cursor behind the last draw
    /// used.
    pub fn process_channel(&self, channel: &Plane<T>, draws: &Vec<T>, cursor: usize) -> (r: Result<
        (Plane<T>, usize),
        ScrambleError,
    >)
        requires
            self.wf(),
            channel.wf(),
            scramble_error(
                self.options,
                self.plan_size as int,
                channel.height as int,
                channel.width as int,
            ) is None ==> cursor + draws_per_channel(self.options, self.plan_size as int) <= draws@.len(),
        ensures
            match r {
                Ok((plane, next)) => {
                    &&& scramble_error(
                        self.options,
                        self.plan_size as int,
                        channel.height as int,
                        channel.width as int,
                    ) is None
                    &&& plane.wf()
                    &&& plane.height == channel.height
                    &&& plane.width == channel.width
                    &&& next == cursor + draws_per_channel(self.options, self.plan_size as int)
                    &&& self.arithmetic.channel_processed(
                        self.options,
                        draws@,
                        cursor as int,
                        channel.height as int,
                        channel.width as int,
                        channel.cells@,
                        plane.cells@,
                    )
                },
                Err(e) => scramble_error(
                    self.options,
                    self.plan_size as int,
                    channel.height as int,
                    channel.width as int,
                ) == Some(e),
            },
    {
        let height: usize = channel.height;
        let width: usize = channel.width;
        if height == 0 || width == 0 {
            return Err(ScrambleError::InvalidImage);
        }
        let longest: usize = if width > height {
            width
        } else {
            height
        };
        proof {
            lemma_optimal_fft_size(longest as int);
        }
        if longest > self.plan_size {
            return Err(ScrambleError::TransformSizeMismatch);
        }
        let n: usize = get_optimal_fft_size(longest);
        if n != self.plan_size {
            return Err(ScrambleError::TransformSizeMismatch);
        }
        let padded: Plane<T> = match apply_padding(channel, self.options.padding_mode, self.arithmetic.zero) {
            Ok(p) => p,
            Err(e) => {
                return Err(e);
            },
        };
        let mut complex_data: Vec<Complex<T>> = to_complex(&padded, self.arithmetic.zero);
        fft2d(&mut complex_data, n, &self.arithmetic.forward);
        let ghost spectrum = complex_data@;
        let mut next: usize = cursor;
        if self.options.phase_scramble {
            next =
            phase_scramble(
                &mut complex_data,
                n,
                self.options.intensity,
                draws,
                cursor,
                &self.arithmetic.rotate,
                &self.arithmetic.negate,
            );
        }
        let ghost shuffled = complex_data@;
        ifft2d(&mut complex_data, n, &self.arithmetic.inverse, &self.arithmetic.scale);
        let ghost restored = complex_data@;
        let mut result: Plane<T> = remove_padding(&complex_data, (height, width));
        let ghost raw = result.cells@;
        // Clamp the output values.
        let len: usize = result.cells.len();
        let mut i: usize = 0;
        while i < len
            invariant
                i <= len,
                len == raw.len(),
                result.cells@.len() == len,
                result.height == height,
                result.width == width,
                result.wf(),
                forall|t: T| #[trigger] self.arithmetic.clamp.requires((t,)),
                forall|k: int|
                    0 <= k < i ==> self.arithmetic.clamp.ensures((raw[k],), #[trigger] result.cells@[k]),
                forall|k: int| i <= k < len ==> result.cells@[k] == raw[k],
            decreases len - i,
        {
            let v: T = (self.arithmetic.clamp)(result.cells[i]);
            result.cells.set(i, v);
            i += 1;
        }
        proof {
            assert(all_clamped(
                self.arithmetic.clamp,
                cropped_real(restored, n as int, height as int, width as int),
                result.cells@,
            ));
            assert(self.arithmetic.stages_hold(
                self.options,
                draws@,
                cursor as int,
                height as int,
                width as int,
                channel.cells@,
                spectrum,
                shuffled,
                restored,
                result.cells@,
            ));
        }
        Ok((result, next))
    }

    /// Scrambles a single image: its three channels are split off, run
    /// through the channel pipeline one after the other, red first, with
    /// the draws from `cursor` on, and combined again. Returns the image
    /// and the cursor behind the last draw used. The working dimensions
    /// become those of the image.
    pub fn scramble(&mut self, image: &RgbImage, draws: &Vec<T>, cursor: usize) -> (r: Result<
        (RgbImage, usize),
        ScrambleError,
    >)
        requires
            old(self).wf(),
            old(self).image_error(*image) is None ==> cursor + old(self).draws_per_image() <= draws@.len(),
        ensures
            final(self).same_setup(old(self)),
            final(self).width == image.width,
            final(self).height == image.height,
            match r {
                Ok((out, next)) => {
                    &&& old(self).image_error(*image) is None
                    &&& out.wf()
                    &&& out.width == image.width
                    &&& out.height == image.height
                    &&& next == cursor + old(self).draws_per_image()
                    &&& old(self).arithmetic.image_scrambled(
                        old(self).options,
                        draws@,
                        cursor as int,
                        image.height as int,
                        image.width as int,
                        image.data@,
                        out.data@,
                    )
                    &&& forall|i: int| 0 <= i < out.data@.len() ==> 0 <= #[trigger] out.data@[i] <= 255
                },
                Err(e) => old(self).image_error(*image) == Some(e),
            },
    {
        self.width = image.width;
        self.height = image.height;
        if !image.is_well_formed() {
            return Err(ScrambleError::InvalidImage);
        }
        let channels: Vec<Plane<T>> = self.split_channels(image);
        let ghost step = draws_per_channel(self.options, self.plan_size as int);
        proof {
            lemma_visits_before_monotonic(self.plan_size as int, 0, self.plan_size * self.plan_size);
        }
        let mut processed: Vec<Plane<T>> = Vec::new();
        let mut at: usize = cursor;
        let mut c: usize = 0;
        while c < 3
            invariant
                c <= 3,
                self.wf(),
                self.same_setup(old(self)),
                self.width == image.width,
                self.height == image.height,
                image.wf(),
                step == draws_per_channel(self.options, self.plan_size as int),
                step >= 0,
                self.image_error(*image) is None ==> cursor + 3 * step <= draws@.len(),
                c > 0 ==> self.image_error(*image) is None,
                at == cursor + c * step,
                channels@.len() == 3,
                forall|k: int|
                    0 <= k < 3 ==> {
                        &&& (#[trigger] channels@[k]).wf()
                        &&& channels@[k].height == image.height
                        &&& channels@[k].width == image.width
                        &&& channel_of(self.arithmetic.normalize, image.data@, k, channels@[k].cells@)
                    },
                processed@.len() == c,
                forall|k: int|
                    0 <= k < c ==> {
                        &&& (#[trigger] processed@[k]).wf()
                        &&& processed@[k].height == image.height
                        &&& processed@[k].width == image.width
                        &&& self.arithmetic.channel_processed(
                            self.options,
                            draws@,
                            cursor + k * step,
                            image.height as int,
                            image.width as int,
                            channels@[k].cells@,
                            processed@[k].cells@,
                        )
                    },
            decreases 3 - c,
        {
            assert(channels@[c as int].wf());
            assert(c * step + step <= 3 * step) by (nonlinear_arith)
                requires
                    c <= 2,
                    step >= 0,
            ;
            match self.process_channel(&channels[c], draws, at) {
                Ok((plane, next)) => {
                    processed.push(plane);
                    at = next;
                },
                Err(e) => {
                    return Err(e);
                },
            }
            assert((c + 1) * step == c * step + step) by (nonlinear_arith);
            c += 1;
        }
        let out: RgbImage = self.combine_channels(&processed);
        proof {
            assert(padded_side(image.height as int, image.width as int) == self.plan_size);
            assert(out.data@.len() == image.data@.len());
            let ins = Seq::new(3, |k: int| channels@[k].cells@);
            let outs = Seq::new(3, |k: int| processed@[k].cells@);
            assert forall|k: int| 0 <= k < 3 implies {
                &&& channel_of(self.arithmetic.normalize, image.data@, k, #[trigger] ins[k])
                &&& self.arithmetic.channel_processed(
                    self.options,
                    draws@,
                    cursor + k * step,
                    image.height as int,
                    image.width as int,
                    ins[k],
                    outs[k],
                )
                &&& channel_written(self.arithmetic.quantize, outs[k], k, out.data@)
            } by {
                assert(channels@[k].wf());
                assert(processed@[k].wf());
            }
            assert(self.arithmetic.channels_scrambled(
                self.options,
                draws@,
                cursor as int,
                image.height as int,
                image.width as int,
                image.data@,
                ins,
                outs,
                out.data@,
            ));
        }
        Ok((out, at))
    }

    /// Scrambles the face regions of an image. With `Include` the result
    /// starts as a copy of the image, with `Exclude` as a blank canvas of
    /// its size. Each region, in the order of the list, is cropped,
    /// scrambled with the draws that follow those of the region before it,
    /// and pasted at its place. Returns the image and the cursor behind the
    /// last draw used.
    pub fn scramble_with_face_detection(
        &mut self,
        image: &RgbImage,
        regions: &Vec<FaceRegion>,
        background_mode: BackgroundMode,
        draws: &Vec<T>,
        cursor: usize,
    ) -> (r: Result<(RgbImage, usize), ScrambleError>)
        requires
            old(self).wf(),
            image.wf() ==> all_fit(regions@, image.height as int, image.width as int),
            cursor + regions@.len() * old(self).draws_per_image() <= draws@.len(),
        ensures
            final(self).same_setup(old(self)),
            !image.wf() ==> final(self).width == old(self).width && final(self).height == old(self).height,
            image.wf() ==> (final(self).width as int, final(self).height as int) == old(
                self,
            ).working_dimensions_after(regions@, (old(self).width, old(self).height)),
            match r {
                Ok((out, next)) => {
                    &&& old(self).faces_error(*image, regions@) is None
                    &&& regions@.len() == 0 ==> out.data@ == background(background_mode, image.data@)
                    &&& forall|i: int| 0 <= i < out.data@.len() ==> 0 <= #[trigger] out.data@[i] <= 255
                    &&& out.wf()
                    &&& out.width == image.width
                    &&& out.height == image.height
                    &&& next == cursor + regions@.len() * old(self).draws_per_image()
                    &&& old(self).arithmetic.faces_scrambled(
                        old(self).options,
                        old(self).plan_size as int,
                        background_mode,
                        draws@,
                        cursor as int,
                        image.width as int,
                        regions@,
                        image.data@,
                        out.data@,
                    )
                },
                Err(e) => old(self).faces_error(*image, regions@) == Some(e),
            },
    {
        if !image.is_well_formed() {
            return Err(ScrambleError::InvalidImage);
        }
        let mut result: RgbImage = match background_mode {
            BackgroundMode::Include => image.duplicate(),
            BackgroundMode::Exclude => RgbImage::blank(image.width, image.height),
        };
        let ghost base = background(background_mode, image.data@);
        let ghost per = self.draws_per_image();
        proof {
            lemma_visits_before_monotonic(self.plan_size as int, 0, self.plan_size * self.plan_size);
        }
        let ghost mut patches: Seq<Seq<u8>> = Seq::empty();
        assert(result.data@ =~= base);
        let count: usize = regions.len();
        let mut at: usize = cursor;
        let mut k: usize = 0;
        while k < count
            invariant
                k <= count,
                count == regions@.len(),
                self.wf(),
                self.same_setup(old(self)),
                image.wf(),
                all_fit(regions@, image.height as int, image.width as int),
                per == self.draws_per_image(),
                per >= 0,
                cursor + count * per <= draws@.len(),
                at == cursor + k * per,
                result.wf(),
                result.width == image.width,
                result.height == image.height,
                base == background(background_mode, image.data@),
                first_failure(self.options, self.plan_size as int, regions@, 0) == first_failure(
                    self.options,
                    self.plan_size as int,
                    regions@,
                    k as int,
                ),
                k == 0 ==> self.width == old(self).width && self.height == old(self).height,
                k > 0 ==> self.width == regions@[k - 1].columns() && self.height == regions@[k
                    - 1].rows(),
                patches.len() == k,
                forall|j: int|
                    0 <= j < k ==> self.arithmetic.image_scrambled(
                        self.options,
                        draws@,
                        cursor + j * per,
                        regions@[j].rows(),
                        regions@[j].columns(),
                        cropped(image.data@, image.width as int, regions@[j]),
                        #[trigger] patches[j],
                    ),
                result.data@ == composite(base, image.width as int, regions@.take(k as int), patches),
            decreases count - k,
        {
            let region: FaceRegion = regions[k];
            assert(regions@[k as int].fits(image.height as int, image.width as int));
            let region_img: RgbImage = image.crop(&region);
            proof {
                assert((k + 1) * per <= count * per) by (nonlinear_arith)
                    requires
                        k + 1 <= count,
                        per >= 0,
                ;
                assert((k + 1) * per == k * per + per) by (nonlinear_arith);
            }
            let (processed, next) = match self.scramble(&region_img, draws, at) {
                Ok(done) => done,
                Err(e) => {
                    return Err(e);
                },
            };
            result.paste(&processed, &region);
            proof {
                let grown = patches.push(processed.data@);
                let taken = regions@.take(k + 1);
                assert(taken.drop_last() =~= regions@.take(k as int));
                assert(grown.drop_last() =~= patches);
                assert(taken.last() == region);
                assert(grown.last() == processed.data@);
                patches = grown;
            }
            at = next;
            k += 1;
        }
        proof {
            assert(regions@.take(count as int) =~= regions@);
            assert(self.arithmetic.patches_scrambled(
                self.options,
                self.plan_size as int,
                background_mode,
                draws@,
                cursor as int,
                image.width as int,
                regions@,
                image.data@,
                patches,
                result.data@,
            ));
        }
        Ok((result, at))
    }
}

} // verus!
