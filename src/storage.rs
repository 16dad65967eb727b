//! The page-oriented texture storage: where a texture lives, how its rows are
//! named on disk, and how a row of pages is re-sliced into whole pages.
use vstd::prelude::*;
use crate::layout::{
    exp2, paged_row_len, row_byte_len, row_texel_width, PAGE_BORDER_SIZE, PAGE_SIZE, PAGE_STRIDE,
};
use crate::metadata::TextureMetadata;

verus! {

/// Name of the metadata file used when none is given.
pub const DEFAULT_METADATA_FILE: &'static str = "meta";

/// Sub-row `sub_row` of page `page` in a row buffer of texel width `width`:
/// `PAGE_SIZE` texels starting `page * PAGE_STRIDE` texels into that texel row.
pub open spec fn page_sub_row(data: Seq<u8>, width: nat, bpt: nat, page: nat, sub_row: nat) -> Seq<
    u8,
> {
    let start = sub_row * width + page * PAGE_STRIDE as nat;
    data.subrange((start * bpt) as int, ((start + PAGE_SIZE as nat) * bpt) as int)
}

/// The first `sub_rows` sub-rows of page `page`, one after the other.
pub open spec fn page_block(data: Seq<u8>, width: nat, bpt: nat, page: nat, sub_rows: nat) -> Seq<
    u8,
>
    decreases sub_rows,
{
    if sub_rows == 0 {
        Seq::empty()
    } else {
        page_block(data, width, bpt, page, (sub_rows - 1) as nat) + page_sub_row(
            data,
            width,
            bpt,
            page,
            (sub_rows - 1) as nat,
        )
    }
}

/// The first `pages` pages of a row buffer of texel width `width`, each
/// written whole (`PAGE_SIZE` sub-rows), one page after the other.
pub open spec fn paged_prefix(data: Seq<u8>, width: nat, bpt: nat, pages: nat) -> Seq<u8>
    decreases pages,
{
    if pages == 0 {
        Seq::empty()
    } else {
        paged_prefix(data, width, bpt, (pages - 1) as nat) + page_block(
            data,
            width,
            bpt,
            (pages - 1) as nat,
            PAGE_SIZE as nat,
        )
    }
}

/// What a row file holds for a row buffer of `pages` pages: page-major, then
/// sub-row-major texels.
pub open spec fn paged_row(data: Seq<u8>, pages: nat, bpt: nat) -> Seq<u8> {
    paged_prefix(data, row_texel_width(pages), bpt, pages)
}

proof fn lemma_page_block_len(data: Seq<u8>, width: nat, bpt: nat, page: nat, sub_rows: nat)
    requires
        sub_rows <= PAGE_SIZE,
        ((sub_rows - 1) * width + page * PAGE_STRIDE as nat + PAGE_SIZE as nat) * bpt <= data.len()
            || sub_rows == 0,
    ensures
        page_block(data, width, bpt, page, sub_rows).len() == sub_rows * (PAGE_SIZE as nat * bpt),
    decreases sub_rows,
{
    if sub_rows > 0 {
        let s = (sub_rows - 1) as nat;
        if s > 0 {
            assert(((s - 1) * width + page * 120 + 128) * bpt <= ((sub_rows - 1) * width + page * 120
                + 128) * bpt) by (nonlinear_arith)
                requires
                    s == sub_rows - 1,
            ;
        }
        lemma_page_block_len(data, width, bpt, page, s);
        assert((s * width + page * 120) * bpt + 128 * bpt == (s * width + page * 120 + 128) * bpt)
            by (nonlinear_arith);
        assert(s * (128 * bpt) + 128 * bpt == sub_rows * (128 * bpt)) by (nonlinear_arith)
            requires
                s + 1 == sub_rows,
        ;
        assert(0 <= (s * width + page * 120) * bpt) by (nonlinear_arith);
    }
}

proof fn lemma_paged_prefix_len(data: Seq<u8>, pages: nat, bpt: nat, done: nat)
    requires
        done <= pages,
        data.len() == row_byte_len(pages, bpt),
    ensures
        paged_prefix(data, row_texel_width(pages), bpt, done).len() == paged_row_len(done, bpt),
    decreases done,
{
    if done > 0 {
        let p = (done - 1) as nat;
        let w = row_texel_width(pages);
        lemma_paged_prefix_len(data, pages, bpt, p);
        lemma_sub_row_in_bounds(pages, bpt, p, 127);
        lemma_page_block_len(data, w, bpt, p, 128);
        assert(p * (128 * 128 * bpt) + 128 * (128 * bpt) == done * (128 * 128 * bpt))
            by (nonlinear_arith)
            requires
                p + 1 == done,
        ;
    }
}

/// Every sub-row of every page lies inside a row buffer of `pages` pages.
proof fn lemma_sub_row_in_bounds(pages: nat, bpt: nat, page: nat, sub_row: nat)
    requires
        page < pages,
        sub_row < PAGE_SIZE,
    ensures
        ({
            let start = sub_row * row_texel_width(pages) + page * PAGE_STRIDE as nat;
            (start + PAGE_SIZE as nat) * bpt <= row_byte_len(pages, bpt)
        }),
{
    let w = row_texel_width(pages);
    assert(sub_row * w + page * 120 + 128 <= 128 * w) by (nonlinear_arith)
        requires
            w == pages * 120 + 8,
            page < pages,
            sub_row < 128,
    ;
    assert((sub_row * w + page * 120 + 128) * bpt <= 128 * w * bpt) by (nonlinear_arith)
        requires
            sub_row * w + page * 120 + 128 <= 128 * w,
    ;
    assert(w * 128 * bpt == 128 * w * bpt) by (nonlinear_arith);
}

/// Re-slices a row buffer of `pages` pages (`PAGE_SIZE` texel rows of
/// `pages * PAGE_STRIDE + 2 * PAGE_BORDER_SIZE` texels) into whole pages,
/// borders included: page after page, each page's sub-rows in order.
pub fn row_pages(data: &[u8], pages: usize, bytes_per_texel: usize) -> (r: Vec<u8>)
    requires
        bytes_per_texel >= 1,
        data@.len() == row_byte_len(pages as nat, bytes_per_texel as nat),
    ensures
        r@ == paged_row(data@, pages as nat, bytes_per_texel as nat),
        r@.len() == paged_row_len(pages as nat, bytes_per_texel as nat),
{
    let len = data.len();
    let ghost w = row_texel_width(pages as nat);
    let ghost bpt = bytes_per_texel as nat;
    let width: usize = if pages == 0 {
        2 * PAGE_BORDER_SIZE
    } else {
        proof {
            assert(w <= w * 128 * bpt) by (nonlinear_arith)
                requires
                    bpt >= 1,
            ;
        }
        pages * PAGE_STRIDE + 2 * PAGE_BORDER_SIZE
    };
    let mut out: Vec<u8> = Vec::new();
    let mut page: usize = 0;
    while page < pages
        invariant
            page <= pages,
            width == w || pages == 0,
            w == row_texel_width(pages as nat),
            bpt == bytes_per_texel,
            bpt >= 1,
            len == data@.len(),
            data@.len() == row_byte_len(pages as nat, bpt),
            out@ == paged_prefix(data@, w, bpt, page as nat),
        decreases pages - page,
    {
        let ghost before = out@;
        let mut sub_row: usize = 0;
        while sub_row < PAGE_SIZE
            invariant
                page < pages,
                sub_row <= PAGE_SIZE,
                width == w,
                w == row_texel_width(pages as nat),
                bpt == bytes_per_texel,
                bpt >= 1,
                len == data@.len(),
                data@.len() == row_byte_len(pages as nat, bpt),
                out@ == before + page_block(data@, w, bpt, page as nat, sub_row as nat),
            decreases PAGE_SIZE - sub_row,
        {
            proof {
                lemma_sub_row_in_bounds(pages as nat, bpt, page as nat, sub_row as nat);
                assert(0 <= (sub_row * w + page * 120) * bpt <= (sub_row * w + page * 120 + 128)
                    * bpt) by (nonlinear_arith);
                assert(sub_row * w + page * 120 + 128 <= (sub_row * w + page * 120 + 128) * bpt)
                    by (nonlinear_arith)
                    requires
                        bpt >= 1,
                ;
            }
            let start = (sub_row * width + page * PAGE_STRIDE) * bytes_per_texel;
            let end = (sub_row * width + page * PAGE_STRIDE + PAGE_SIZE) * bytes_per_texel;
            let piece = vstd::slice::slice_subrange(data, start, end);
            let ghost mid = out@;
            out.extend_from_slice(piece);
            proof {
                assert(out@ =~= mid + piece@);
                assert(before + page_block(data@, w, bpt, page as nat, (sub_row + 1) as nat) =~= mid
                    + piece@);
            }
            sub_row = sub_row + 1;
        }
        page = page + 1;
        proof {
            assert(out@ =~= paged_prefix(data@, w, bpt, page as nat));
        }
    }
    proof {
        lemma_paged_prefix_len(data@, pages as nat, bpt, pages as nat);
    }
    out
}

/// Decimal digits of `n`, most significant first.
pub open spec fn decimal(n: nat) -> Seq<char>
    decreases n,
{
    if n < 10 {
        seq![digit_char(n)]
    } else {
        decimal(n / 10).push(digit_char(n % 10))
    }
}

pub open spec fn digit_char(d: nat) -> char {
    if d == 0 {
        '0'
    } else if d == 1 {
        '1'
    } else if d == 2 {
        '2'
    } else if d == 3 {
        '3'
    } else if d == 4 {
        '4'
    } else if d == 5 {
        '5'
    } else if d == 6 {
        '6'
    } else if d == 7 {
        '7'
    } else if d == 8 {
        '8'
    } else {
        '9'
    }
}

/// Relies on `ToString` through the `Display` impl of `usize`: an unsigned
/// integer prints as its decimal digits, without sign or padding.
#[verifier::external_body]
fn decimal_string(n: usize) -> (r: String)
    ensures
        r@ == decimal(n as nat),
{
    n.to_string()
}

/// Name of the file that holds row `row` of mip level `mip`: `{mip}-{row}`.
pub fn row_file_name(mip: u8, row: usize) -> (r: String)
    ensures
        r@ == decimal(mip as nat) + seq!['-'] + decimal(row as nat),
{
    let mut name = decimal_string(mip as usize);
    name.append("-");
    let row_digits = decimal_string(row);
    name.append(row_digits.as_str());
    proof {
        reveal_strlit("-");
    }
    name
}

/// Name of the metadata file: `{metadata_file}.json`, `meta.json` by default.
pub fn metadata_file_name(metadata_file: Option<&str>) -> (r: String)
    ensures
        r@ == match metadata_file {
            Some(name) => name@,
            None => DEFAULT_METADATA_FILE@,
        } + ".json"@,
{
    let mut name = match metadata_file {
        Some(name) => name.to_owned(),
        None => DEFAULT_METADATA_FILE.to_owned(),
    };
    name.append(".json");
    name
}

/// A texture stored as one file per page row under `directory`, described by
/// `metadata`.
pub struct TextureStorage {
    directory: String,
    metadata: TextureMetadata,
}

impl TextureStorage {
    pub closed spec fn spec_directory(&self) -> Seq<char> {
        self.directory@
    }

    pub closed spec fn spec_metadata(&self) -> TextureMetadata {
        self.metadata
    }

    pub open spec fn wf(&self) -> bool {
        self.spec_metadata().wf()
    }

    /// A storage over `directory` that holds a texture shaped as `metadata`.
    pub fn from_parts(directory: String, metadata: TextureMetadata) -> (r: Self)
        requires
            metadata.wf(),
        ensures
            r.wf(),
            r.spec_directory() == directory@,
            r.spec_metadata() == metadata,
    {
        TextureStorage { directory, metadata }
    }

    pub fn directory(&self) -> (r: &str)
        ensures
            r@ == self.spec_directory(),
    {
        self.directory.as_str()
    }

    pub fn metadata(&self) -> (r: &TextureMetadata)
        ensures
            *r == self.spec_metadata(),
    {
        &self.metadata
    }

    /// Pages per side at mip level `mip`: `side_len >> mip`.
    pub fn pages_at(&self, mip: u8) -> (r: usize)
        requires
            self.wf(),
            mip <= self.spec_metadata().mip_levels(),
        ensures
            r == exp2((self.spec_metadata().mip_levels() - mip) as nat),
    {
        let levels = self.metadata.mip_levels();
        let mut pages: usize = self.metadata.side_len() as usize;
        let mut i: u8 = 0;
        while i < mip
            invariant
                i <= mip <= levels,
                pages == exp2((levels - i) as nat),
            decreases mip - i,
        {
            pages = pages / 2;
            i = i + 1;
        }
        pages
    }

    /// The bytes of the file for one row of pages at mip level `mip`: the row
    /// buffer re-sliced into whole pages. The buffer must hold exactly
    /// `side_len >> mip` pages.
    pub fn page_row(&self, mip: u8, data: &[u8]) -> (r: Vec<u8>)
        requires
            self.wf(),
            mip <= self.spec_metadata().mip_levels(),
            data@.len() == row_byte_len(
                exp2((self.spec_metadata().mip_levels() - mip) as nat),
                self.spec_metadata().bytes_per_texel() as nat,
            ),
        ensures
            r@ == paged_row(
                data@,
                exp2((self.spec_metadata().mip_levels() - mip) as nat),
                self.spec_metadata().bytes_per_texel() as nat,
            ),
            r@.len() == paged_row_len(
                exp2((self.spec_metadata().mip_levels() - mip) as nat),
                self.spec_metadata().bytes_per_texel() as nat,
            ),
    {
        let pages = self.pages_at(mip);
        row_pages(data, pages, self.metadata.bytes_per_texel() as usize)
    }
}

} // verus!
