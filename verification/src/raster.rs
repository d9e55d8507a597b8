use crate::grid::{flat, index_of, lemma_flat_in_bounds, lemma_flat_of_position};
use vstd::prelude::*;

verus! {

/// Position of channel `c` of the pixel at row `y`, column `x` in an
/// interleaved buffer of three samples a pixel.
pub open spec fn sample_index(width: int, y: int, x: int, c: int) -> int {
    flat(width, y, x) * 3 + c
}

/// An image of 8-bit RGB pixels, stored row by row, three samples a pixel.
#[derive(Debug)]
pub struct RgbImage {
    /// Number of pixels in a row.
    pub width: usize,
    /// Number of rows.
    pub height: usize,
    /// The samples: red, green and blue of each pixel, in turn.
    pub data: Vec<u8>,
}

/// An axis-aligned box of pixels: columns `x1..x2`, rows `y1..y2`.
#[derive(Clone, Copy, Debug, PartialEq, Eq, Structural)]
pub struct FaceRegion {
    /// First column of the box.
    pub x1: usize,
    /// First row of the box.
    pub y1: usize,
    /// Column behind the last column of the box.
    pub x2: usize,
    /// Row behind the last row of the box.
    pub y2: usize,
}

/// What the pixels outside every face region become.
#[derive(Clone, Copy, Debug, PartialEq, Eq, Structural)]
pub enum BackgroundMode {
    /// The regions are scrambled on a copy of the image.
    Include,
    /// The regions are scrambled on a blank canvas.
    Exclude,
}

impl FaceRegion {
    /// The box is not empty and lies inside a `height` by `width` image.
    pub open spec fn fits(&self, height: int, width: int) -> bool {
        self.x1 < self.x2 <= width && self.y1 < self.y2 <= height
    }

    /// The pixel at row `y`, column `x` lies in the box.
    pub open spec fn holds(&self, y: int, x: int) -> bool {
        self.x1 <= x < self.x2 && self.y1 <= y < self.y2
    }

    /// Number of columns of the box.
    pub open spec fn columns(&self) -> int {
        self.x2 - self.x1
    }

    /// Number of rows of the box.
    pub open spec fn rows(&self) -> int {
        self.y2 - self.y1
    }

    /// Tells whether the box is not empty and lies inside a `height` by
    /// `width` image.
    pub fn fits_in(&self, height: usize, width: usize) -> (r: bool)
        ensures
            r == self.fits(height as int, width as int),
    {
        self.x1 < self.x2 && self.x2 <= width && self.y1 < self.y2 && self.y2 <= height
    }
}

/// Every region of the list is not empty and lies inside the image.
pub open spec fn all_fit(regions: Seq<FaceRegion>, height: int, width: int) -> bool {
    forall|k: int| 0 <= k < regions.len() ==> (#[trigger] regions[k]).fits(height, width)
}

/// The samples of the pixels of `data` that lie in `region`, row by row.
pub open spec fn cropped(data: Seq<u8>, width: int, region: FaceRegion) -> Seq<u8> {
    Seq::new(
        (region.rows() * region.columns() * 3) as nat,
        |i: int|
            data[sample_index(
                width,
                region.y1 + (i / 3) / region.columns(),
                region.x1 + (i / 3) % region.columns(),
                i % 3,
            )],
    )
}

/// `canvas` with the pixels of `region` replaced by those of `patch`,
/// which has the dimensions of the region.
pub open spec fn pasted(canvas: Seq<u8>, width: int, patch: Seq<u8>, region: FaceRegion) -> Seq<u8> {
    Seq::new(
        canvas.len(),
        |i: int|
            if region.holds((i / 3) / width, (i / 3) % width) {
                patch[sample_index(
                    region.columns(),
                    (i / 3) / width - region.y1,
                    (i / 3) % width - region.x1,
                    i % 3,
                )]
            } else {
                canvas[i]
            },
    )
}

/// `base` with each patch pasted at its region, in the order of the list.
pub open spec fn composite(
    base: Seq<u8>,
    width: int,
    regions: Seq<FaceRegion>,
    patches: Seq<Seq<u8>>,
) -> Seq<u8>
    decreases regions.len(),
{
    if regions.len() == 0 {
        base
    } else {
        pasted(
            composite(base, width, regions.drop_last(), patches.drop_last()),
            width,
            patches.last(),
            regions.last(),
        )
    }
}

/// A sample inside a `height` by `width` image has its position inside
/// the buffer, and the position gives back the pixel and the channel.
pub proof fn lemma_sample_index(height: int, width: int, y: int, x: int, c: int)
    requires
        0 <= y < height,
        0 <= x < width,
        0 <= c < 3,
    ensures
        0 <= sample_index(width, y, x, c) < height * width * 3,
        sample_index(width, y, x, c) / 3 == flat(width, y, x),
        sample_index(width, y, x, c) % 3 == c,
        (sample_index(width, y, x, c) / 3) / width == y,
        (sample_index(width, y, x, c) / 3) % width == x,
{
    lemma_flat_in_bounds(height, width, y, x);
}

/// Every position inside the buffer is a channel of one pixel of the image.
pub proof fn lemma_sample_of_position(height: int, width: int, i: int)
    requires
        0 <= i < height * width * 3,
        0 <= height,
        0 <= width,
    ensures
        0 <= (i / 3) / width < height,
        0 <= (i / 3) % width < width,
        0 <= i % 3 < 3,
        sample_index(width, (i / 3) / width, (i / 3) % width, i % 3) == i,
{
    assert(width > 0) by (nonlinear_arith)
        requires
            0 <= i < height * width * 3,
            0 <= height,
            0 <= width,
    ;
    lemma_flat_of_position(height, width, i / 3);
}

/// Pasting patches keeps the length of the buffer.
pub proof fn lemma_composite_len(
    base: Seq<u8>,
    width: int,
    regions: Seq<FaceRegion>,
    patches: Seq<Seq<u8>>,
)
    ensures
        composite(base, width, regions, patches).len() == base.len(),
    decreases regions.len(),
{
    if regions.len() > 0 {
        lemma_composite_len(base, width, regions.drop_last(), patches.drop_last());
    }
}

/// A pixel that lies in no region keeps the sample of the background.
pub proof fn lemma_outside_regions_untouched(
    base: Seq<u8>,
    height: int,
    width: int,
    regions: Seq<FaceRegion>,
    patches: Seq<Seq<u8>>,
    y: int,
    x: int,
    c: int,
)
    requires
        base.len() == height * width * 3,
        0 <= y < height,
        0 <= x < width,
        0 <= c < 3,
        forall|k: int| 0 <= k < regions.len() ==> !(#[trigger] regions[k]).holds(y, x),
    ensures
        composite(base, width, regions, patches)[sample_index(width, y, x, c)] == base[sample_index(
            width,
            y,
            x,
            c,
        )],
    decreases regions.len(),
{
    if regions.len() > 0 {
        let inner = composite(base, width, regions.drop_last(), patches.drop_last());
        lemma_composite_len(base, width, regions.drop_last(), patches.drop_last());
        lemma_sample_index(height, width, y, x, c);
        assert(!regions[regions.len() - 1].holds(y, x));
        assert forall|k: int| 0 <= k < regions.drop_last().len() implies !(#[trigger] regions.drop_last()[k]).holds(
            y,
            x,
        ) by {
            assert(regions.drop_last()[k] == regions[k]);
        }
        lemma_outside_regions_untouched(
            base,
            height,
            width,
            regions.drop_last(),
            patches.drop_last(),
            y,
            x,
            c,
        );
    }
}

/// Where regions overlap, the last one in the list wins: a pixel that
/// lies in region `k` and in no later region has the sample of patch `k`.
pub proof fn lemma_last_region_wins(
    base: Seq<u8>,
    height: int,
    width: int,
    regions: Seq<FaceRegion>,
    patches: Seq<Seq<u8>>,
    k: int,
    y: int,
    x: int,
    c: int,
)
    requires
        base.len() == height * width * 3,
        patches.len() == regions.len(),
        0 <= y < height,
        0 <= x < width,
        0 <= c < 3,
        0 <= k < regions.len(),
        regions[k].holds(y, x),
        forall|j: int| k < j < regions.len() ==> !(#[trigger] regions[j]).holds(y, x),
    ensures
        composite(base, width, regions, patches)[sample_index(width, y, x, c)] == patches[k][sample_index(
            regions[k].columns(),
            y - regions[k].y1,
            x - regions[k].x1,
            c,
        )],
    decreases regions.len(),
{
    let last = regions.len() - 1;
    lemma_composite_len(base, width, regions.drop_last(), patches.drop_last());
    lemma_sample_index(height, width, y, x, c);
    if k < last {
        assert(!regions[last].holds(y, x));
        assert forall|j: int| k < j < regions.drop_last().len() implies !(#[trigger] regions.drop_last()[j]).holds(
            y,
            x,
        ) by {
            assert(regions.drop_last()[j] == regions[j]);
        }
        lemma_last_region_wins(
            base,
            height,
            width,
            regions.drop_last(),
            patches.drop_last(),
            k,
            y,
            x,
            c,
        );
    }
}

impl RgbImage {
    /// The buffer holds three samples for each of `height * width` pixels.
    pub open spec fn wf(&self) -> bool {
        self.data@.len() == self.height * self.width * 3 <= usize::MAX
    }

    /// Wraps a buffer as an image if its length is `height * width * 3`.
    pub fn new(width: usize, height: usize, data: Vec<u8>) -> (r: Option<RgbImage>)
        ensures
            match r {
                Some(image) => image.width == width && image.height == height && image.data == data
                    && image.wf(),
                None => data@.len() != height * width * 3,
            },
    {
        let given: usize = data.len();
        match height.checked_mul(width) {
            Some(pixels) => match pixels.checked_mul(3) {
                Some(len) => {
                    if given == len {
                        Some(RgbImage { width, height, data })
                    } else {
                        None
                    }
                },
                None => None,
            },
            None => {
                proof {
                    assert(height * width * 3 >= height * width) by (nonlinear_arith)
                        requires
                            height * width >= 0,
                    ;
                }
                None
            },
        }
    }

    /// Tells whether the buffer holds three samples for each pixel.
    pub fn is_well_formed(&self) -> (r: bool)
        ensures
            r == self.wf(),
    {
        let given: usize = self.data.len();
        match self.height.checked_mul(self.width) {
            Some(pixels) => match pixels.checked_mul(3) {
                Some(len) => given == len,
                None => false,
            },
            None => {
                proof {
                    assert(self.height * self.width * 3 >= self.height * self.width) by (nonlinear_arith)
                        requires
                            self.height * self.width >= 0,
                    ;
                }
                false
            },
        }
    }

    /// An image with every sample zero: the blank canvas.
    pub fn blank(width: usize, height: usize) -> (image: RgbImage)
        requires
            height * width * 3 <= usize::MAX,
        ensures
            image.wf(),
            image.width == width,
            image.height == height,
            image.data@ == Seq::new((height * width * 3) as nat, |i: int| 0u8),
    {
        proof {
            assert(height * width * 3 >= height * width >= 0) by (nonlinear_arith);
        }
        let len: usize = height * width * 3;
        let mut data: Vec<u8> = Vec::new();
        let mut i: usize = 0;
        while i < len
            invariant
                i <= len,
                data@.len() == i,
                forall|k: int| 0 <= k < i ==> data@[k] == 0u8,
            decreases len - i,
        {
            data.push(0u8);
            i += 1;
        }
        assert(data@ =~= Seq::new((height * width * 3) as nat, |i: int| 0u8));
        RgbImage { width, height, data }
    }

    /// A copy of the image.
    pub fn duplicate(&self) -> (image: RgbImage)
        requires
            self.wf(),
        ensures
            image.wf(),
            image.width == self.width,
            image.height == self.height,
            image.data@ == self.data@,
    {
        let len: usize = self.data.len();
        let mut data: Vec<u8> = Vec::new();
        let mut i: usize = 0;
        while i < len
            invariant
                i <= len,
                len == self.data@.len(),
                data@.len() == i,
                forall|k: int| 0 <= k < i ==> data@[k] == self.data@[k],
            decreases len - i,
        {
            data.push(self.data[i]);
            i += 1;
        }
        assert(data@ =~= self.data@);
        RgbImage { width: self.width, height: self.height, data }
    }

    /// Reads channel `c` of the pixel at row `y`, column `x`.
    pub fn sample(&self, y: usize, x: usize, c: usize) -> (v: u8)
        requires
            self.wf(),
            y < self.height,
            x < self.width,
            c < 3,
        ensures
            v == self.data@[sample_index(self.width as int, y as int, x as int, c as int)],
    {
        proof {
            lemma_sample_index(self.height as int, self.width as int, y as int, x as int, c as int);
            assert(self.height * self.width * 3 >= self.height * self.width >= 0) by (nonlinear_arith);
        }
        let p: usize = index_of(self.height, self.width, y, x);
        self.data[p * 3 + c]
    }

    /// Copies the pixels of `region` into an image of the region's dimensions.
    pub fn crop(&self, region: &FaceRegion) -> (patch: RgbImage)
        requires
            self.wf(),
            region.fits(self.height as int, self.width as int),
        ensures
            patch.wf(),
            patch.width == region.columns(),
            patch.height == region.rows(),
            patch.data@ == cropped(self.data@, self.width as int, *region),
    {
        let region_width: usize = region.x2 - region.x1;
        let region_height: usize = region.y2 - region.y1;
        let ghost want = cropped(self.data@, self.width as int, *region);
        proof {
            assert(region_height * region_width * 3 <= self.height * self.width * 3) by (nonlinear_arith)
                requires
                    0 <= region_height <= self.height,
                    0 <= region_width <= self.width,
            ;
        }
        let mut data: Vec<u8> = Vec::new();
        let mut y: usize = 0;
        while y < region_height
            invariant
                y <= region_height,
                self.wf(),
                region.fits(self.height as int, self.width as int),
                region_width == region.columns(),
                region_height == region.rows(),
                want == cropped(self.data@, self.width as int, *region),
                data@.len() == y * region_width * 3,
                forall|k: int| 0 <= k < data@.len() ==> data@[k] == want[k],
            decreases region_height - y,
        {
            let mut x: usize = 0;
            while x < region_width
                invariant
                    y < region_height,
                    x <= region_width,
                    self.wf(),
                    region.fits(self.height as int, self.width as int),
                    region_width == region.columns(),
                    region_height == region.rows(),
                    want == cropped(self.data@, self.width as int, *region),
                    data@.len() == (y * region_width + x) * 3,
                    forall|k: int| 0 <= k < data@.len() ==> data@[k] == want[k],
                decreases region_width - x,
            {
                let mut c: usize = 0;
                while c < 3
                    invariant
                        y < region_height,
                        x < region_width,
                        c <= 3,
                        self.wf(),
                        region.fits(self.height as int, self.width as int),
                        region_width == region.columns(),
                        region_height == region.rows(),
                        want == cropped(self.data@, self.width as int, *region),
                        data@.len() == (y * region_width + x) * 3 + c,
                        forall|k: int| 0 <= k < data@.len() ==> data@[k] == want[k],
                    decreases 3 - c,
                {
                    proof {
                        lemma_sample_index(
                            region_height as int,
                            region_width as int,
                            y as int,
                            x as int,
                            c as int,
                        );
                    }
                    let v: u8 = self.sample(y + region.y1, x + region.x1, c);
                    data.push(v);
                    c += 1;
                }
                x += 1;
            }
            proof {
                assert((y * region_width + region_width) * 3 == (y + 1) * region_width * 3)
                    by (nonlinear_arith);
            }
            y += 1;
        }
        assert(data@ =~= want);
        RgbImage { width: region_width, height: region_height, data }
    }

    /// Writes the pixels of `patch`, which has the dimensions of `region`,
    /// over the pixels of `region`, and leaves every other pixel as it was.
    pub fn paste(&mut self, patch: &RgbImage, region: &FaceRegion)
        requires
            old(self).wf(),
            patch.wf(),
            region.fits(old(self).height as int, old(self).width as int),
            patch.width == region.columns(),
            patch.height == region.rows(),
        ensures
            final(self).wf(),
            final(self).width == old(self).width,
            final(self).height == old(self).height,
            final(self).data@ == pasted(old(self).data@, old(self).width as int, patch.data@, *region),
    {
        let region_width: usize = region.x2 - region.x1;
        let region_height: usize = region.y2 - region.y1;
        let ghost width = self.width as int;
        let ghost height = self.height as int;
        let mut y: usize = 0;
        while y < region_height
            invariant
                y <= region_height,
                self.wf(),
                patch.wf(),
                self.width == width,
                self.height == height,
                width == old(self).width,
                height == old(self).height,
                region.fits(height, width),
                region_width == region.columns() == patch.width,
                region_height == region.rows() == patch.height,
                forall|yy: int, xx: int, cc: int|
                    0 <= yy < height && 0 <= xx < width && 0 <= cc < 3 ==> self.data@[#[trigger] sample_index(
                        width,
                        yy,
                        xx,
                        cc,
                    )] == if region.holds(yy, xx) && yy < y + region.y1 {
                        patch.data@[sample_index(
                            region_width as int,
                            yy - region.y1,
                            xx - region.x1,
                            cc,
                        )]
                    } else {
                        old(self).data@[sample_index(width, yy, xx, cc)]
                    },
            decreases region_height - y,
        {
            let mut x: usize = 0;
            while x < region_width
                invariant
                    y < region_height,
                    x <= region_width,
                    self.wf(),
                    patch.wf(),
                    self.width == width,
                    self.height == height,
                    width == old(self).width,
                    height == old(self).height,
                    region.fits(height, width),
                    region_width == region.columns() == patch.width,
                    region_height == region.rows() == patch.height,
                    forall|yy: int, xx: int, cc: int|
                        0 <= yy < height && 0 <= xx < width && 0 <= cc < 3
                            ==> self.data@[#[trigger] sample_index(width, yy, xx, cc)] == if region.holds(
                            yy,
                            xx,
                        ) && (yy < y + region.y1 || (yy == y + region.y1 && xx < x + region.x1)) {
                            patch.data@[sample_index(
                                region_width as int,
                                yy - region.y1,
                                xx - region.x1,
                                cc,
                            )]
                        } else {
                            old(self).data@[sample_index(width, yy, xx, cc)]
                        },
                decreases region_width - x,
            {
                let mut c: usize = 0;
                while c < 3
                    invariant
                        y < region_height,
                        x < region_width,
                        c <= 3,
                        self.wf(),
                        patch.wf(),
                        self.width == width,
                        self.height == height,
                        width == old(self).width,
                        height == old(self).height,
                        region.fits(height, width),
                        region_width == region.columns() == patch.width,
                        region_height == region.rows() == patch.height,
                        forall|yy: int, xx: int, cc: int|
                            0 <= yy < height && 0 <= xx < width && 0 <= cc < 3
                                ==> self.data@[#[trigger] sample_index(width, yy, xx, cc)]
                                == if region.holds(yy, xx) && (yy < y + region.y1 || (yy == y + region.y1
                                && (xx < x + region.x1 || (xx == x + region.x1 && cc < c)))) {
                                patch.data@[sample_index(
                                    region_width as int,
                                    yy - region.y1,
                                    xx - region.x1,
                                    cc,
                                )]
                            } else {
                                old(self).data@[sample_index(width, yy, xx, cc)]
                            },
                    decreases 3 - c,
                {
                    let v: u8 = patch.sample(y, x, c);
                    let ty: usize = y + region.y1;
                    let tx: usize = x + region.x1;
                    proof {
                        lemma_sample_index(height, width, ty as int, tx as int, c as int);
                        assert(height * width * 3 >= height * width >= 0) by (nonlinear_arith)
                            requires
                                height >= 0,
                                width >= 0,
                        ;
                    }
                    let p: usize = index_of(self.height, self.width, ty, tx);
                    let ghost prev = self.data@;
                    self.data.set(p * 3 + c, v);
                    proof {
                        assert forall|yy: int, xx: int, cc: int|
                            0 <= yy < height && 0 <= xx < width && 0 <= cc < 3 implies self.data@[#[trigger] sample_index(
                            width,
                            yy,
                            xx,
                            cc,
                        )] == if yy == ty && xx == tx && cc == c {
                            v
                        } else {
                            prev[sample_index(width, yy, xx, cc)]
                        } by {
                            lemma_sample_index(height, width, yy, xx, cc);
                        }
                    }
                    c += 1;
                }
                x += 1;
            }
            y += 1;
        }
        proof {
            let want = pasted(old(self).data@, width, patch.data@, *region);
            assert forall|i: int| 0 <= i < self.data@.len() implies self.data@[i] == want[i] by {
                lemma_sample_of_position(height, width, i);
                let yy = (i / 3) / width;
                let xx = (i / 3) % width;
                let cc = i % 3;
                assert(self.data@[sample_index(width, yy, xx, cc)] == want[i]);
            }
            assert(self.data@ =~= want);
        }
    }
}

} // verus!
