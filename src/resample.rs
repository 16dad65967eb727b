//! Two-to-one downsampling of page rows, done by the `image` crate's resampler.
use vstd::prelude::*;
use crate::layout::{row_texel_width, PAGE_BORDER_SIZE, PAGE_SIZE};

verus! {

/// Resampling filter used to derive each coarser mip level.
#[derive(Debug, Clone, Copy, PartialEq, Eq, Structural)]
pub enum FilterMode {
    Nearest,
    Triangle,
    CatmullRom,
    Gaussian,
    Lanczos3,
}

/// The filter computes with correctly rounded arithmetic alone (plus floor,
/// ceil and round), so its result is the same on every machine. The other
/// filters call `sin`, `exp` or `powi`, whose precision std leaves open.
pub open spec fn reproducible_filter(filter: FilterMode) -> bool {
    filter == FilterMode::Nearest || filter == FilterMode::Triangle
}

/// RGBA8 image `src` of `width` x `height` texels resampled to
/// `new_width` x `new_height` texels with a reproducible `filter`.
pub uninterp spec fn resampled(
    src: Seq<u8>,
    width: nat,
    height: nat,
    new_width: nat,
    new_height: nat,
    filter: FilterMode,
) -> Seq<u8>;

/// Relies on `image::imageops::resize` over an `ImageBuffer<Rgba<u8>, _>`
/// built with `ImageBuffer::from_raw`: the result is a `new_width` x
/// `new_height` RGBA8 image; with `Nearest` or `Triangle` it depends on the
/// source pixels, the sizes and the filter alone.
#[verifier::external_body]
fn resize_rgba8(
    src: &[u8],
    width: u32,
    height: u32,
    new_width: u32,
    new_height: u32,
    filter: FilterMode,
) -> (r: Vec<u8>)
    requires
        width >= 1,
        height >= 1,
        new_width >= 1,
        new_height >= 1,
        src@.len() == width * height * 4,
        new_width * new_height * 4 <= usize::MAX,
    ensures
        reproducible_filter(filter) ==> r@ == resampled(
            src@,
            width as nat,
            height as nat,
            new_width as nat,
            new_height as nat,
            filter,
        ),
        r@.len() == new_width * new_height * 4,
{
    let filter = match filter {
        FilterMode::Nearest => image::imageops::FilterType::Nearest,
        FilterMode::Triangle => image::imageops::FilterType::Triangle,
        FilterMode::CatmullRom => image::imageops::FilterType::CatmullRom,
        FilterMode::Gaussian => image::imageops::FilterType::Gaussian,
        FilterMode::Lanczos3 => image::imageops::FilterType::Lanczos3,
    };
    let image = image::ImageBuffer::<image::Rgba<u8>, &[u8]>::from_raw(width, height, src).unwrap();
    image::imageops::resize(&image, new_width, new_height, filter).into_raw()
}

/// Bytes per texel of the rows the downsampler handles (RGBA8).
pub const RGBA8_TEXEL_BYTES: usize = 4;

/// Height in texels of each half that is downsampled: a row without the
/// border on its far side.
pub const HALF_SOURCE_HEIGHT: usize = PAGE_SIZE - PAGE_BORDER_SIZE;

/// Height in texels of each downsampled half.
pub const HALF_TARGET_HEIGHT: usize = PAGE_SIZE / 2;

/// Texel width of the row derived from a row of `pages` pages.
pub open spec fn downsampled_width(pages: nat) -> nat {
    let w = row_texel_width(pages) / 2 + PAGE_BORDER_SIZE as nat;
    if w < PAGE_SIZE as nat {
        PAGE_SIZE as nat
    } else {
        w
    }
}

/// The row of the next coarser level derived from two adjacent rows of
/// `pages` pages, for a reproducible filter: the upper row without its bottom border and the lower row
/// without its top border are each resampled to half height, and stacked.
pub open spec fn downsampled(first: Seq<u8>, second: Seq<u8>, pages: nat, filter: FilterMode) -> Seq<
    u8,
> {
    let w = row_texel_width(pages);
    let texel_row = w * RGBA8_TEXEL_BYTES as nat;
    let border = PAGE_BORDER_SIZE as nat * texel_row;
    let top = first.subrange(0, first.len() - border);
    let bottom = second.subrange(border as int, second.len() as int);
    resampled(top, w, HALF_SOURCE_HEIGHT as nat, downsampled_width(pages), HALF_TARGET_HEIGHT as nat, filter)
        + resampled(
        bottom,
        w,
        HALF_SOURCE_HEIGHT as nat,
        downsampled_width(pages),
        HALF_TARGET_HEIGHT as nat,
        filter,
    )
}

/// Largest page count per side of any row.
pub const MAX_ROW_PAGES: usize = 4096;

/// Downsamples two adjacent RGBA8 rows of `pages` pages into one row of the
/// next coarser level.
pub fn downsample_rows(first: &[u8], second: &[u8], pages: usize, filter: FilterMode) -> (r: Vec<u8>)
    requires
        1 <= pages <= MAX_ROW_PAGES,
        first@.len() == row_texel_width(pages as nat) * PAGE_SIZE as nat * RGBA8_TEXEL_BYTES as nat,
        second@.len() == first@.len(),
    ensures
        reproducible_filter(filter) ==> r@ == downsampled(first@, second@, pages as nat, filter),
        r@.len() == downsampled_width(pages as nat) * PAGE_SIZE as nat * RGBA8_TEXEL_BYTES as nat,
{
    let width: usize = pages * 120 + 8;
    let texel_row: usize = width * RGBA8_TEXEL_BYTES;
    let border: usize = PAGE_BORDER_SIZE * texel_row;
    let len = first.len();
    assert(len == texel_row * 128);
    let top = vstd::slice::slice_subrange(first, 0, len - border);
    let bottom = vstd::slice::slice_subrange(second, border, len);
    let half_width: usize = width / 2 + PAGE_BORDER_SIZE;
    let new_width: usize = if half_width < PAGE_SIZE {
        PAGE_SIZE
    } else {
        half_width
    };
    assert(top@.len() == width * 124 * 4);
    let mut r = resize_rgba8(
        top,
        width as u32,
        HALF_SOURCE_HEIGHT as u32,
        new_width as u32,
        HALF_TARGET_HEIGHT as u32,
        filter,
    );
    let lower = resize_rgba8(
        bottom,
        width as u32,
        HALF_SOURCE_HEIGHT as u32,
        new_width as u32,
        HALF_TARGET_HEIGHT as u32,
        filter,
    );
    let ghost upper = r@;
    r.extend_from_slice(lower.as_slice());
    assert(r@ =~= upper + lower@);
    r
}

} // verus!
