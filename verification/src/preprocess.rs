use vstd::prelude::*;
use crate::error::InvalidInput;
use crate::field::{invert_cells, mask_cells, IntensityField};
use crate::geometry::side;

verus! {

/// What a [`SourceImage`] holds, as mathematical values.
pub struct ImageView {
    pub width: int,
    pub height: int,
    /// Four bytes for each pixel (red, green, blue, alpha), row by row.
    pub rgba: Seq<u8>,
}

/// A decoded picture of any size, as 8-bit RGBA samples.
#[derive(Clone, Debug)]
pub struct SourceImage {
    width: u32,
    height: u32,
    rgba: Vec<u8>,
}

impl View for SourceImage {
    type V = ImageView;

    closed spec fn view(&self) -> ImageView {
        ImageView { width: self.width as int, height: self.height as int, rgba: self.rgba@ }
    }
}

/// The invariant of a source image: four bytes for each of its pixels, in a
/// buffer that is held in memory.
pub open spec fn image_ok(img: ImageView) -> bool {
    &&& 0 <= img.width <= u32::MAX
    &&& 0 <= img.height <= u32::MAX
    &&& img.rgba.len() == 4 * (img.width * img.height)
    &&& img.rgba.len() <= usize::MAX
}

/// Side of the largest centred square of a `width` by `height` picture.
pub open spec fn crop_side(width: int, height: int) -> int {
    if width <= height {
        width
    } else {
        height
    }
}

/// Columns left of the centred square.
pub open spec fn crop_left(width: int, height: int) -> int {
    (width - crop_side(width, height)) / 2
}

/// Rows above the centred square.
pub open spec fn crop_top(width: int, height: int) -> int {
    (height - crop_side(width, height)) / 2
}

/// Place in the picture's buffer of byte `i` of its centred square.
pub open spec fn crop_source(width: int, height: int, i: int) -> int {
    let c = crop_side(width, height);
    4 * ((crop_top(width, height) + (i / 4) / c) * width + crop_left(width, height) + (i / 4) % c)
        + i % 4
}

/// The RGBA samples of the picture's centred square.
pub open spec fn cropped(img: ImageView) -> Seq<u8> {
    let c = crop_side(img.width, img.height);
    Seq::new((4 * (c * c)) as nat, |i: int| img.rgba[crop_source(img.width, img.height, i)])
}

/// The luminance of each pixel of a `width` by `height` RGBA picture, as
/// `image::imageops::grayscale` computes it.
pub uninterp spec fn grayscale_of(width: u32, height: u32, rgba: Seq<u8>) -> Seq<u8>;

/// A `width` by `height` grayscale picture resampled to `nwidth` by
/// `nheight` without interpolation, as `image::imageops::resize` computes
/// it with its nearest-neighbour filter.
pub uninterp spec fn resized_nearest(
    width: u32,
    height: u32,
    luma: Seq<u8>,
    nwidth: u32,
    nheight: u32,
) -> Seq<u8>;

/// The darkness values that preprocessing makes of a picture: its centred
/// square, in grayscale, resized to the field, inverted and masked.
pub open spec fn preprocessed(img: ImageView, radius: int) -> Seq<u8> {
    let c = crop_side(img.width, img.height) as u32;
    let s = side(radius) as u32;
    mask_cells(
        radius,
        invert_cells(resized_nearest(c, c, grayscale_of(c, c, cropped(img)), s, s)),
    )
}

/// `image::imageops::grayscale` on an RGBA picture: the result has one byte
/// for each pixel and is the picture's luminance, a function of the
/// picture alone.
#[verifier::external_body]
fn grayscale(width: u32, height: u32, rgba: &Vec<u8>) -> (luma: Vec<u8>)
    requires
        rgba@.len() == 4 * (width * height),
    ensures
        luma@.len() == width * height,
        luma@ == grayscale_of(width, height, rgba@),
{
    let img = image::ImageBuffer::<image::Rgba<u8>, &[u8]>::from_raw(width, height, &rgba[..])
        .unwrap();
    image::imageops::grayscale(&img).into_raw()
}

/// `image::imageops::resize` with `FilterType::Nearest` on a grayscale
/// picture: the result has one byte for each pixel of the new size and is a
/// function of the picture and the new size alone. Empty pictures and sizes
/// whose buffers could not be allocated are left out.
#[verifier::external_body]
fn resize_nearest(width: u32, height: u32, luma: &Vec<u8>, nwidth: u32, nheight: u32) -> (resized:
    Vec<u8>)
    requires
        width > 0,
        height > 0,
        nwidth > 0,
        nheight > 0,
        luma@.len() == width * height,
        width * nheight <= usize::MAX,
        nwidth * nheight <= usize::MAX,
    ensures
        resized@.len() == nwidth * nheight,
        resized@ == resized_nearest(width, height, luma@, nwidth, nheight),
{
    let img = image::ImageBuffer::<image::Luma<u8>, &[u8]>::from_raw(width, height, &luma[..])
        .unwrap();
    image::imageops::resize(&img, nwidth, nheight, image::imageops::FilterType::Nearest).into_raw()
}

/// The radius to work with: the shorter edge of the picture, or the
/// requested radius where that is smaller.
pub fn effective_radius(requested: Option<u32>, width: u32, height: u32) -> (radius: u32)
    ensures
        radius == match requested {
            Some(r) => if r <= crop_side(width as int, height as int) {
                r as int
            } else {
                crop_side(width as int, height as int)
            },
            None => crop_side(width as int, height as int),
        },
{
    let min_edge: u32 = if width <= height {
        width
    } else {
        height
    };
    match requested {
        Some(r) => if r <= min_edge {
            r
        } else {
            min_edge
        },
        None => min_edge,
    }
}

impl SourceImage {
    /// The invariant holds of this image.
    pub open spec fn wf(&self) -> bool {
        image_ok(self@)
    }

    /// A picture of the given size from its RGBA samples, four bytes for
    /// each pixel, row by row.
    pub fn new(width: u32, height: u32, rgba: Vec<u8>) -> (result: Result<SourceImage, InvalidInput>)
        ensures
            match result {
                Ok(img) => {
                    &&& img.wf()
                    &&& img@.width == width
                    &&& img@.height == height
                    &&& img@.rgba == rgba@
                },
                Err(e) => e == InvalidInput::SizeMismatch && rgba@.len() != 4 * (width * height),
            },
    {
        let w: u128 = width as u128;
        let h: u128 = height as u128;
        assert(w * h <= 0xffff_ffff * 0xffff_ffff) by (nonlinear_arith)
            requires
                w <= 0xffff_ffff,
                h <= 0xffff_ffff,
        ;
        if rgba.len() as u128 != 4 * (w * h) {
            return Err(InvalidInput::SizeMismatch);
        }
        Ok(SourceImage { width, height, rgba })
    }

    /// Width in pixels.
    pub fn width(&self) -> (w: u32)
        ensures
            w == self@.width,
    {
        self.width
    }

    /// Height in pixels.
    pub fn height(&self) -> (h: u32)
        ensures
            h == self@.height,
    {
        self.height
    }

    /// The RGBA samples, four bytes for each pixel, row by row.
    pub fn rgba(&self) -> (bytes: &Vec<u8>)
        ensures
            bytes@ == self@.rgba,
    {
        &self.rgba
    }

    /// The picture's largest centred square: where the picture is wider
    /// than high, the same number of columns is cut off on both sides, one
    /// more on the right where the number is odd; and likewise for rows.
    pub fn square_crop(&self) -> (square: SourceImage)
        requires
            self.wf(),
        ensures
            square.wf(),
            square@.width == crop_side(self@.width, self@.height),
            square@.height == crop_side(self@.width, self@.height),
            square@.rgba == cropped(self@),
    {
        let c: u32 = if self.width <= self.height {
            self.width
        } else {
            self.height
        };
        let top: usize = ((self.height - c) / 2) as usize;
        let left: usize = ((self.width - c) / 2) as usize;
        let w: usize = self.width as usize;
        let h: usize = self.height as usize;
        let cs: usize = c as usize;
        let mut out: Vec<u8> = Vec::new();
        let n: usize = self.rgba.len();
        if c == 0 {
            assert(cs * cs == 0) by (nonlinear_arith)
                requires
                    cs == 0,
            ;
            assert(out@ =~= cropped(self@));
            return SourceImage { width: c, height: c, rgba: out };
        }
        assert(cs * cs <= w * h && cs <= cs * cs) by (nonlinear_arith)
            requires
                0 < cs <= w,
                cs <= h,
        ;
        let area: usize = cs * cs;
        let total: usize = 4 * area;
        let mut i: usize = 0;
        while i < total
            invariant
                i <= total,
                total == 4 * area,
                area == cs * cs,
                cs == crop_side(self@.width, self@.height),
                cs > 0,
                w == self@.width,
                h == self@.height,
                cs <= w,
                cs <= h,
                top == crop_top(self@.width, self@.height),
                left == crop_left(self@.width, self@.height),
                self.wf(),
                self.rgba@ == self@.rgba,
                n == self.rgba@.len(),
                out@.len() == i,
                forall|j: int|
                    0 <= j < i ==> out@[j] == self@.rgba[crop_source(self@.width, self@.height, j)],
            decreases total - i,
        {
            let p: usize = i / 4;
            let k: usize = i % 4;
            let y: usize = p / cs;
            let x: usize = p % cs;
            assert(y < cs) by (nonlinear_arith)
                requires
                    y == (p as int) / (cs as int),
                    p < cs * cs,
                    cs > 0,
            ;
            assert(top + y < h && left + x < w);
            assert((top + y) * w + left + x < w * h && 0 <= (top + y) * w <= w * h)
                by (nonlinear_arith)
                requires
                    top + y < h,
                    left + x < w,
                    0 <= top,
                    0 <= y,
                    0 <= left,
                    0 <= x,
            ;
            let pixel: usize = (top + y) * w + left + x;
            let at: usize = 4 * pixel + k;
            out.push(self.rgba[at]);
            i = i + 1;
        }
        assert(4 * (cs * cs) == total);
        assert(out@ =~= cropped(self@));
        SourceImage { width: c, height: c, rgba: out }
    }
}

/// Turns a picture into the field the solver works on: the picture is cut
/// to its centred square, converted to grayscale, resized without
/// interpolation to `2 * radius + 1` pixels a side, inverted, and cleared
/// outside the inscribed circle. A picture without pixels is rejected, and
/// so is a radius of zero.
pub fn preprocess(src: &SourceImage, radius: u32) -> (result: Result<IntensityField, InvalidInput>)
    requires
        src.wf(),
        side(radius as int) * side(radius as int) <= usize::MAX,
    ensures
        match result {
            Ok(field) => {
                &&& src@.width > 0
                &&& src@.height > 0
                &&& radius > 0
                &&& field.wf()
                &&& field@.radius == radius
                &&& field@.cells == preprocessed(src@, radius as int)
            },
            Err(e) => {
                ||| e == InvalidInput::EmptyImage && (src@.width == 0 || src@.height == 0)
                ||| e == InvalidInput::ZeroRadius && src@.width > 0 && src@.height > 0 && radius
                    == 0
            },
        },
{
    if src.width == 0 || src.height == 0 {
        return Err(InvalidInput::EmptyImage);
    }
    if radius == 0 {
        return Err(InvalidInput::ZeroRadius);
    }
    let square = src.square_crop();
    let c: u32 = square.width;
    let gray: Vec<u8> = grayscale(c, c, &square.rgba);
    let ghost s = side(radius as int);
    assert(s <= s * s && s < 0x1_0000_0000) by (nonlinear_arith)
        requires
            s * s <= 0xffff_ffff_ffff_ffff,
            s >= 1,
    ;
    let length: u32 = 2 * radius + 1;
    assert(c * length <= usize::MAX) by (nonlinear_arith)
        requires
            4 * (c * c) <= usize::MAX,
            length * length <= usize::MAX,
            0 <= c,
            0 <= length,
    ;
    let resized: Vec<u8> = resize_nearest(c, c, &gray, length, length);
    IntensityField::from_luma(radius, resized)
}

} // verus!
