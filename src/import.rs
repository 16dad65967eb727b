//! Streaming import of a full-resolution texture: the source is read two page
//! rows at a time through a window of one border plus two rows, so memory
//! stays a small multiple of one row whatever the size of the texture.
use vstd::prelude::*;
use crate::layout::{lemma_exp2_monotonic, lemma_exp2_up_to_12, row_byte_len, row_texel_width};
use crate::metadata::TextureMetadata;
use crate::mip_generator::{
    fresh_rows, lemma_complete_pyramid_row_counts, lemma_complete_pyramid_total,
    lemma_fresh_rows_keys, lemma_pyramid_grows, new_row_at, pyramid_consistent, total_rows,
    write_view, writes_sized, MipLevelGen, RowWrite,
};
use crate::layout::exp2;
use crate::resample::FilterMode;
use crate::storage::{paged_row, TextureStorage};

verus! {

/// Bytes of `texel_rows` full-width texel rows of a texture of `pages` pages per side.
pub open spec fn texel_rows_len(pages: nat, texel_rows: nat) -> nat {
    row_texel_width(pages) * texel_rows * 4
}

/// Texel rows of the top border read before the first pair of rows.
pub const BORDER_TEXEL_ROWS: usize = 8;

/// Texel rows read for each pair of page rows.
pub const PAIR_TEXEL_ROWS: usize = 240;

proof fn lemma_import_sizes(pages: nat)
    requires
        1 <= pages <= 4096,
    ensures
        texel_rows_len(pages, 8) + texel_rows_len(pages, 240) == texel_rows_len(pages, 248),
        texel_rows_len(pages, 248) <= 0xffff_ffff,
        texel_rows_len(pages, 128) == row_byte_len(pages, 4),
        texel_rows_len(pages, 120) + texel_rows_len(pages, 128) == texel_rows_len(pages, 248),
        texel_rows_len(pages, 8) <= texel_rows_len(pages, 248),
{
    let w = row_texel_width(pages);
    assert(w <= 491528);
    assert(w * 8 * 4 + w * 240 * 4 == w * 248 * 4) by (nonlinear_arith);
    assert(w * 120 * 4 + w * 128 * 4 == w * 248 * 4) by (nonlinear_arith);
    assert(w * 248 * 4 <= 491528 * 248 * 4) by (nonlinear_arith)
        requires
            w <= 491528,
    ;
    assert(w * 8 * 4 <= w * 248 * 4) by (nonlinear_arith);
}

/// Bytes of the source after the top border of a single-page texture.
pub const SINGLE_ROW_BYTES: usize = 128 * 120 * 4;

/// Bytes of the top border that starts the source of a texture.
pub fn border_byte_len(metadata: &TextureMetadata) -> (r: usize)
    requires
        metadata.wf(),
    ensures
        r == texel_rows_len(metadata.side_len() as nat, BORDER_TEXEL_ROWS as nat),
{
    proof {
        lemma_exp2_up_to_12();
        lemma_exp2_monotonic(metadata.mip_levels() as nat, 12);
        crate::layout::lemma_exp2_positive(metadata.mip_levels() as nat);
        lemma_import_sizes(metadata.side_len() as nat);
    }
    (metadata.side_len() as usize * 120 + 8) * BORDER_TEXEL_ROWS * 4
}

/// Bytes of the source read for each pair of page rows.
pub fn pair_byte_len(metadata: &TextureMetadata) -> (r: usize)
    requires
        metadata.wf(),
    ensures
        r == texel_rows_len(metadata.side_len() as nat, PAIR_TEXEL_ROWS as nat),
{
    proof {
        lemma_exp2_up_to_12();
        lemma_exp2_monotonic(metadata.mip_levels() as nat, 12);
        crate::layout::lemma_exp2_positive(metadata.mip_levels() as nat);
        lemma_import_sizes(metadata.side_len() as nat);
        assert(texel_rows_len(metadata.side_len() as nat, 240) <= texel_rows_len(metadata.side_len() as nat, 248)) by (nonlinear_arith);
    }
    (metadata.side_len() as usize * 120 + 8) * PAIR_TEXEL_ROWS * 4
}

/// Each of the first page rows in `rows` is its own `PAGE_SIZE` texel rows of
/// `source`: row `r` starts `r * PAGE_STRIDE` texel rows in, so adjacent rows
/// share a border.
pub open spec fn rows_from_source(rows: Seq<Seq<u8>>, source: Seq<u8>, pages: nat) -> bool {
    forall|r: int|
        0 <= r < rows.len() ==> #[trigger] rows[r] == source.subrange(
            r * texel_rows_len(pages, 120),
            r * texel_rows_len(pages, 120) + texel_rows_len(pages, 128),
        )
}

/// The window of one pair (carried border, then the pair's bytes) is the
/// tail of the source read so far.
proof fn lemma_window_rows(source: Seq<u8>, bytes: Seq<u8>, rows: Seq<Seq<u8>>, pages: nat, pairs: nat)
    requires
        1 <= pages <= 4096,
        source.len() == texel_rows_len(pages, 8) + pairs * texel_rows_len(pages, 240),
        bytes.len() == texel_rows_len(pages, 240),
    ensures
        ({
            let s = texel_rows_len(pages, 120) as int;
            let full = source + bytes;
            &&& full.len() - texel_rows_len(pages, 248) == 2 * pairs * s
            &&& full.len() - texel_rows_len(pages, 128) == (2 * pairs + 1) * s
            &&& source.len() - texel_rows_len(pages, 8) == 2 * pairs * s
        }),
{
    let w = row_texel_width(pages);
    lemma_import_sizes(pages);
    let s = texel_rows_len(pages, 120) as int;
    assert(w * 240 * 4 == 2 * (w * 120 * 4)) by (nonlinear_arith);
    assert(w * 8 * 4 + w * 120 * 4 == w * 128 * 4) by (nonlinear_arith);
    assert(pairs * (2 * s) == 2 * pairs * s) by (nonlinear_arith);
    assert((2 * pairs + 1) * s == 2 * pairs * s + s) by (nonlinear_arith);
}

/// Two more rows taken from the two windows at the end of the source keep
/// every row equal to its texel rows of the source.
proof fn lemma_rows_from_source_step(
    rows: Seq<Seq<u8>>,
    source: Seq<u8>,
    bytes: Seq<u8>,
    first: Seq<u8>,
    second: Seq<u8>,
    pages: nat,
)
    requires
        1 <= pages <= 4096,
        rows_from_source(rows, source, pages),
        source.len() == texel_rows_len(pages, 8) + rows.len() * texel_rows_len(pages, 120),
        bytes.len() == texel_rows_len(pages, 240),
        first == (source + bytes).subrange(
            (rows.len() * texel_rows_len(pages, 120)) as int,
            (rows.len() * texel_rows_len(pages, 120) + texel_rows_len(pages, 128)) as int,
        ),
        second == (source + bytes).subrange(
            ((rows.len() + 1) * texel_rows_len(pages, 120)) as int,
            ((rows.len() + 1) * texel_rows_len(pages, 120) + texel_rows_len(pages, 128)) as int,
        ),
    ensures
        rows_from_source(rows.push(first).push(second), source + bytes, pages),
{
    let s = texel_rows_len(pages, 120) as int;
    let t = texel_rows_len(pages, 128) as int;
    let full = source + bytes;
    let all = rows.push(first).push(second);
    assert(texel_rows_len(pages, 8) + s == t) by {
        let w = row_texel_width(pages);
        assert(w * 8 * 4 + w * 120 * 4 == w * 128 * 4) by (nonlinear_arith);
    }
    assert forall|r: int| 0 <= r < all.len() implies #[trigger] all[r] == full.subrange(r * s, r * s + t) by {
        if r < rows.len() {
            assert(rows[r] == source.subrange(r * s, r * s + t));
            assert(r * s + t <= source.len()) by (nonlinear_arith)
                requires
                    r < rows.len(),
                    source.len() == t - s + rows.len() * s,
                    s >= 0,
            ;
            assert(0 <= r * s) by (nonlinear_arith)
                requires
                    r >= 0,
                    s >= 0,
            ;
            assert(full.subrange(r * s, r * s + t) =~= source.subrange(r * s, r * s + t));
        }
    }
}

proof fn lemma_total_rows_empty(levels: Seq<Seq<Seq<u8>>>, k: nat)
    requires
        forall|j: int| 0 <= j < levels.len() ==> #[trigger] levels[j].len() == 0,
    ensures
        total_rows(levels, k) == 0,
    decreases levels.len() - k,
{
    if k < levels.len() {
        lemma_total_rows_empty(levels, k + 1);
    }
}

/// Mip level and row of a row file.
pub open spec fn write_key(w: RowWrite) -> (nat, nat) {
    (w.mip as nat, w.row as nat)
}

/// Row `r` of mip level `m` has been imported: it is in the pyramid `levels`,
/// or it is the one row of a single-page texture imported on its own.
pub open spec fn imported_row(levels: Seq<Seq<Seq<u8>>>, single_row: bool, m: nat, r: nat) -> bool {
    ||| (m < levels.len() && r < levels[m as int].len())
    ||| (single_row && m == 0 && r == 0)
}

/// An import in progress: the border carried over from the last pair read,
/// and the mip generator fed with every page row so far.
pub struct TextureImport {
    border: Vec<u8>,
    generator: MipLevelGen,
    metadata: TextureMetadata,
    pairs_done: usize,
    /// The one row of a single-page texture has been imported.
    single_row_done: bool,
    /// Every byte of the source read so far.
    source: Ghost<Seq<u8>>,
    /// Mip level and row of every row file handed out so far, in order.
    written: Ghost<Seq<(nat, nat)>>,
}

impl View for TextureImport {
    type V = Seq<Seq<Seq<u8>>>;

    /// Rows produced so far at each mip level.
    closed spec fn view(&self) -> Seq<Seq<Seq<u8>>> {
        self.generator@
    }
}

impl TextureImport {
    pub closed spec fn spec_border(&self) -> Seq<u8> {
        self.border@
    }

    /// The source bytes read so far: the top border, then each pair's bytes.
    pub closed spec fn source(&self) -> Seq<u8> {
        self.source@
    }

    pub closed spec fn spec_metadata(&self) -> TextureMetadata {
        self.metadata
    }

    pub closed spec fn filter_mode(&self) -> FilterMode {
        self.generator.filter_mode()
    }

    pub open spec fn pages(&self) -> nat {
        self.spec_metadata().side_len() as nat
    }

    pub closed spec fn wf(&self) -> bool {
        &&& self.metadata.wf()
        &&& self.generator.wf()
        &&& self.generator.base_mip() == 0
        &&& self.generator.coarsest_mip() == self.metadata.mip_levels()
        &&& self.generator@[0].len() == 2 * self.pairs_done
        &&& 2 * self.pairs_done <= self.metadata.side_len()
        &&& self.border@.len() == texel_rows_len(self.metadata.side_len() as nat, 8)
        &&& self.source@.len() == texel_rows_len(self.metadata.side_len() as nat, 8)
            + self.pairs_done * texel_rows_len(self.metadata.side_len() as nat, 240) + if self.single_row_done {
            texel_rows_len(1, 120)
        } else {
            0
        }
        &&& self.border@ == self.source@.subrange(
            self.source@.len() - self.border@.len(),
            self.source@.len() as int,
        )
        &&& rows_from_source(self.generator@[0], self.source@, self.metadata.side_len() as nat)
        &&& self.single_row_done ==> self.metadata.side_len() == 1 && self.pairs_done == 0
        &&& pyramid_consistent(
            self.generator@,
            self.metadata.mip_levels() as nat,
            self.generator.filter_mode(),
        )
        &&& self.generator@.len() == self.metadata.mip_levels() + 1
        &&& self.written@.no_duplicates()
        &&& forall|m: nat, r: nat|
            #[trigger] self.written@.contains((m, r)) <==> imported_row(
                self.generator@,
                self.single_row_done,
                m,
                r,
            )
        &&& self.written@.len() == total_rows(self.generator@, 0) + if self.single_row_done {
            1nat
        } else {
            0
        }
    }

    /// The record of handed-out rows stays exact across a pair import.
    proof fn lemma_written_after_pair(
        &self,
        before: Seq<Seq<Seq<u8>>>,
        writes: Seq<RowWrite>,
        written: Seq<(nat, nat)>,
    )
        requires
            !self.single_row_done,
            self.written@.no_duplicates(),
            forall|m: nat, r: nat|
                #[trigger] self.written@.contains((m, r)) <==> imported_row(before, false, m, r),
            self.written@.len() == total_rows(before, 0),
            pyramid_consistent(before, self.metadata.mip_levels() as nat, self.generator.filter_mode()),
            pyramid_consistent(self.generator@, self.metadata.mip_levels() as nat, self.generator.filter_mode()),
            before.len() == self.generator@.len(),
            before.len() > 0,
            before[0].len() <= self.generator@[0].len(),
            writes.map_values(|w: RowWrite| write_view(w)) == fresh_rows(
                before,
                self.generator@,
                0,
                self.metadata.mip_levels() as nat,
                0,
            ),
            written == self.written@ + writes.map_values(|w: RowWrite| write_key(w)),
        ensures
            written.no_duplicates(),
            forall|m: nat, r: nat|
                #[trigger] written.contains((m, r)) <==> imported_row(self.generator@, false, m, r),
            written.len() == total_rows(self.generator@, 0),
    {
        let after = self.generator@;
        let top = self.metadata.mip_levels() as nat;
        let f = fresh_rows(before, after, 0, top, 0);
        let old_w = self.written@;
        lemma_pyramid_grows(before, after, top, self.generator.filter_mode());
        lemma_fresh_rows_keys(before, after, 0, top, 0);
        assert(writes.len() == f.len());
        assert forall|i: int| 0 <= i < writes.len() implies #[trigger] written[old_w.len() + i] == (
        f[i].0, f[i].1) by {
            assert(writes.map_values(|w: RowWrite| write_view(w))[i] == f[i]);
        }
        assert forall|m: nat, r: nat| #[trigger] written.contains((m, r)) <==> imported_row(after, false, m, r) by {
            if written.contains((m, r)) {
                let n = choose|n: int| 0 <= n < written.len() && written[n] == (m, r);
                if n < old_w.len() {
                    assert(old_w.contains((m, r)));
                } else {
                    let i = n - old_w.len();
                    assert(written[old_w.len() + i] == (f[i].0, f[i].1));
                    assert(f.contains(f[i]));
                }
            }
            if imported_row(after, false, m, r) {
                if r < before[m as int].len() {
                    assert(old_w.contains((m, r)));
                    let n = choose|n: int| 0 <= n < old_w.len() && old_w[n] == (m, r);
                    assert(written[n] == (m, r));
                } else {
                    assert(new_row_at(before, after, m as int, r as int));
                    let i = choose|i: int| 0 <= i < f.len() && (#[trigger] f[i]).0 == 0 + m && f[i].1 == r;
                    assert(written[old_w.len() + i] == (m, r));
                }
            }
        }
        assert forall|a: int, b: int| 0 <= a < written.len() && 0 <= b < written.len() && a != b implies written[a]
            != written[b] by {
            if a < old_w.len() && b < old_w.len() {
            } else if a >= old_w.len() && b >= old_w.len() {
                let (i1, i2) = (a - old_w.len(), b - old_w.len());
                assert(written[old_w.len() + i1] == (f[i1].0, f[i1].1));
                assert(written[old_w.len() + i2] == (f[i2].0, f[i2].1));
                if i1 < i2 {
                    assert((f[i1].0, f[i1].1) != (f[i2].0, f[i2].1));
                } else {
                    assert((f[i2].0, f[i2].1) != (f[i1].0, f[i1].1));
                }
            } else {
                let (o, i) = if a < old_w.len() { (a, b - old_w.len()) } else { (b, a - old_w.len()) };
                assert(written[old_w.len() + i] == (f[i].0, f[i].1));
                let (m, r) = old_w[o];
                assert(old_w.contains((m, r)));
                assert(f.contains(f[i]));
            }
        }
    }

    /// Mip level and row of every row file handed out so far, in order.
    pub closed spec fn written_rows(&self) -> Seq<(nat, nat)> {
        self.written@
    }

    /// Once the import is complete, the row files handed out are exactly rows
    /// `0..2^(k - m)` of each mip level `m <= k`, each once: `2N - 1` of them
    /// for a texture of `N = 2^k` pages per side.
    pub proof fn lemma_import_complete(&self)
        requires
            self.wf(),
            self@[0].len() == self.pages() || self.single_row_imported(),
        ensures
            self.written_rows().no_duplicates(),
            forall|m: nat, r: nat|
                #[trigger] self.written_rows().contains((m, r)) <==> m <= self.spec_metadata().mip_levels()
                    && r < exp2((self.spec_metadata().mip_levels() - m) as nat),
            self.written_rows().len() + 1 == 2 * self.pages(),
    {
        let top = self.metadata.mip_levels() as nat;
        let p = self.generator@;
        if self.single_row_done {
            assert(top == 0) by {
                crate::layout::lemma_exp2_positive((top - 1) as nat);
                if top > 0 {
                    assert(exp2(top) == 2 * exp2((top - 1) as nat));
                }
            }
            assert(total_rows(p, 0) == 0) by {
                assert(total_rows(p, 1) == 0);
            }
        } else {
            lemma_complete_pyramid_row_counts(p, top, self.generator.filter_mode());
            lemma_complete_pyramid_total(p, top, 0);
            assert forall|m: nat, r: nat|
                #[trigger] self.written@.contains((m, r)) <==> m <= top && r < exp2((top - m) as nat) by {
                if m <= top {
                    assert(p[m as int].len() == exp2((top - m) as nat));
                }
            }
        }
    }

    /// The only row of a single-page texture has been imported.
    pub closed spec fn single_row_imported(&self) -> bool {
        self.single_row_done
    }

    /// Starts an import into `storage`, given the top border of the source.
    pub fn new(storage: &TextureStorage, filter_mode: FilterMode, top_border: &[u8]) -> (r: Self)
        requires
            storage.wf(),
            top_border@.len() == texel_rows_len(storage.spec_metadata().side_len() as nat, 8),
        ensures
            r.wf(),
            r.spec_metadata() == storage.spec_metadata(),
            r.filter_mode() == filter_mode,
            r.spec_border() == top_border@,
            r.source() == top_border@,
            r.written_rows() == Seq::<(nat, nat)>::empty(),
            !r.single_row_imported(),
            r@ == Seq::new(
                (storage.spec_metadata().mip_levels() + 1) as nat,
                |k: int| Seq::<Seq<u8>>::empty(),
            ),
            pyramid_consistent(r@, storage.spec_metadata().mip_levels() as nat, filter_mode),
    {
        let metadata = storage.metadata().clone();
        let generator = MipLevelGen::from_mip(metadata.mip_levels(), 0, 4, filter_mode);
        proof {
            lemma_total_rows_empty(generator@, 0);
        }
        let mut border: Vec<u8> = Vec::new();
        border.extend_from_slice(top_border);
        assert(border@ =~= top_border@);
        assert(top_border@.subrange(0, top_border@.len() as int) =~= top_border@);
        TextureImport {
            border,
            generator,
            metadata,
            pairs_done: 0,
            single_row_done: false,
            written: Ghost(Seq::empty()),
            source: Ghost(top_border@),
        }
    }

    /// Page rows of the finest level imported so far.
    pub fn rows_done(&self) -> (r: usize)
        requires
            self.wf(),
        ensures
            r == self@[0].len(),
    {
        self.pairs_done * 2
    }

    /// Every page row of the finest level has been imported.
    pub fn is_complete(&self) -> (r: bool)
        requires
            self.wf(),
        ensures
            r == (self@[0].len() == self.pages() || self.single_row_imported()),
    {
        self.pairs_done * 2 == self.metadata.side_len() as usize || self.single_row_done
    }

    /// Imports the only page row of a single-page texture from `bytes`, the
    /// `PAGE_STRIDE` texel rows that follow the top border. Returns its row
    /// file: a single-page texture has no coarser level.
    pub fn import_single_row(&mut self, bytes: &[u8], storage: &TextureStorage) -> (r: Vec<RowWrite>)
        requires
            old(self).wf(),
            storage.wf(),
            storage.spec_metadata() == old(self).spec_metadata(),
            old(self).pages() == 1,
            !old(self).single_row_imported(),
            bytes@.len() == SINGLE_ROW_BYTES,
        ensures
            final(self).wf(),
            final(self).single_row_imported(),
            final(self).spec_metadata() == old(self).spec_metadata(),
            final(self)@ == old(self)@,
            final(self).source() == old(self).source() + bytes@,
            final(self).written_rows() == old(self).written_rows() + r@.map_values(|w: RowWrite| write_key(w)),
            writes_sized(r@, 0, 0),
            r@.map_values(|w: RowWrite| write_view(w)) == seq![
                (0nat, 0nat, paged_row(old(self).spec_border() + bytes@, 1, 4)),
            ],
    {
        proof {
            lemma_import_sizes(1);
        }
        let mut window: Vec<u8> = Vec::new();
        window.extend_from_slice(self.border.as_slice());
        window.extend_from_slice(bytes);
        assert(window@ =~= self.border@ + bytes@);
        proof {
            lemma_exp2_up_to_12();
        }
        let page_bytes = storage.page_row(0, window.as_slice());
        let mut writes: Vec<RowWrite> = Vec::new();
        writes.push(RowWrite { mip: 0, row: 0, bytes: page_bytes });
        let ghost source = self.source@ + bytes@;
        let mut border: Vec<u8> = Vec::new();
        let len = window.len();
        border.extend_from_slice(vstd::slice::slice_subrange(window.as_slice(), len - self.border.len(), len));
        proof {
            assert(window@ =~= source.subrange(source.len() - window@.len(), source.len() as int));
            assert(border@ =~= source.subrange(source.len() - border@.len(), source.len() as int));
            assert(writes@.map_values(|w: RowWrite| write_view(w)) =~= seq![
                (0nat, 0nat, paged_row(old(self).spec_border() + bytes@, 1, 4)),
            ]);
            assert forall|r: int| 0 <= r < self.generator@[0].len() implies #[trigger] self.generator@[0][r] == source.subrange(
                r * texel_rows_len(1, 120),
                r * texel_rows_len(1, 120) + texel_rows_len(1, 128),
            ) by {}
        }
        let ghost written = self.written@ + writes@.map_values(|w: RowWrite| write_key(w));
        proof {
            let top = self.metadata.mip_levels() as nat;
            assert(top == 0) by {
                if top > 0 {
                    crate::layout::lemma_exp2_positive((top - 1) as nat);
                    assert(exp2(top) == 2 * exp2((top - 1) as nat));
                }
            }
            assert(total_rows(self.generator@, 1) == 0);
            assert(self.written@.len() == 0);
            assert(written =~= seq![(0nat, 0nat)]);
            assert forall|m: nat, r: nat| #[trigger] written.contains((m, r)) <==> imported_row(
                self.generator@,
                true,
                m,
                r,
            ) by {
                if written.contains((m, r)) {
                    assert(written[0] == (m, r));
                }
                if m == 0 && r == 0 {
                    assert(written[0] == (m, r));
                }
            }
        }
        self.written = Ghost(written);
        self.source = Ghost(source);
        self.border = border;
        self.single_row_done = true;
        writes
    }

    /// Imports the next pair of page rows from `bytes`, the next
    /// `PAIR_TEXEL_ROWS` texel rows of the source. With the carried border in
    /// front they make a window whose first `PAGE_SIZE` texel rows are the
    /// upper page row and whose last `PAGE_SIZE` texel rows the lower one; the
    /// window's last border is carried to the next pair. Returns the row files
    /// to write, finest level first.
    pub fn import_pair(&mut self, bytes: &[u8], storage: &TextureStorage) -> (r: Vec<RowWrite>)
        requires
            old(self).wf(),
            storage.wf(),
            storage.spec_metadata() == old(self).spec_metadata(),
            old(self)@[0].len() + 2 <= old(self).pages(),
            !old(self).single_row_imported(),
            bytes@.len() == texel_rows_len(old(self).pages(), 240),
        ensures
            final(self).wf(),
            !final(self).single_row_imported(),
            final(self).spec_metadata() == old(self).spec_metadata(),
            final(self).filter_mode() == old(self).filter_mode(),
            final(self)@.len() == old(self)@.len(),
            ({
                let window = old(self).spec_border() + bytes@;
                let row = texel_rows_len(old(self).pages(), 128) as int;
                let border = texel_rows_len(old(self).pages(), 8) as int;
                &&& final(self)@[0] == old(self)@[0].push(window.subrange(0, row)).push(
                    window.subrange(window.len() - row, window.len() as int),
                )
                &&& final(self).spec_border() == window.subrange(
                    window.len() - border,
                    window.len() as int,
                )
            }),
            pyramid_consistent(
                final(self)@,
                final(self).spec_metadata().mip_levels() as nat,
                final(self).filter_mode(),
            ),
            final(self).source() == old(self).source() + bytes@,
            final(self).written_rows() == old(self).written_rows() + r@.map_values(|w: RowWrite| write_key(w)),
            rows_from_source(final(self)@[0], final(self).source(), final(self).pages()),
            writes_sized(r@, 0, old(self).spec_metadata().mip_levels() as nat),
            r@.map_values(|w: RowWrite| write_view(w)) == fresh_rows(
                old(self)@,
                final(self)@,
                0,
                old(self).spec_metadata().mip_levels() as nat,
                0,
            ),
    {
        let ghost pages = self.pages();
        proof {
            lemma_exp2_up_to_12();
            lemma_exp2_monotonic(self.metadata.mip_levels() as nat, 12);
            crate::layout::lemma_exp2_positive(self.metadata.mip_levels() as nat);
            lemma_import_sizes(pages);
        }
        let mut window: Vec<u8> = Vec::new();
        window.extend_from_slice(self.border.as_slice());
        window.extend_from_slice(bytes);
        assert(window@ =~= self.border@ + bytes@);
        let len = window.len();
        let row_len = (self.metadata.side_len() as usize * 120 + 8) * 128 * 4;
        let border_len = self.border.len();
        let first = vstd::slice::slice_subrange(window.as_slice(), 0, row_len);
        let second = vstd::slice::slice_subrange(window.as_slice(), len - row_len, len);
        let index = self.pairs_done * 2;
        let writes = self.generator.write_two_rows((first, second), index, storage);
        let mut border: Vec<u8> = Vec::new();
        border.extend_from_slice(vstd::slice::slice_subrange(window.as_slice(), len - border_len, len));
        let ghost source = self.source@ + bytes@;
        proof {
            lemma_window_rows(self.source@, bytes@, self.generator@[0], pages, self.pairs_done as nat);
            assert(window@ =~= source.subrange(source.len() - window@.len(), source.len() as int));
            assert(border@ =~= source.subrange(source.len() - border@.len(), source.len() as int));
            let pl = texel_rows_len(pages, 240) as int;
            let pd = self.pairs_done as int;
            assert((pd + 1) * pl == pd * pl + pl) by (nonlinear_arith);
            let sr = texel_rows_len(pages, 120) as int;
            let p2 = 2 * self.pairs_done as int;
            assert(row_len == texel_rows_len(pages, 128));
            assert(first@ =~= source.subrange(p2 * sr, p2 * sr + row_len));
            assert(second@ =~= source.subrange((p2 + 1) * sr, (p2 + 1) * sr + row_len));
            assert(self.generator@[0] =~= old(self).generator@[0].push(first@).push(second@));
            lemma_rows_from_source_step(old(self).generator@[0], self.source@, bytes@, first@, second@, pages);
        }
        let ghost written = self.written@ + writes@.map_values(|w: RowWrite| write_key(w));
        proof {
            self.lemma_written_after_pair(old(self).generator@, writes@, written);
        }
        self.written = Ghost(written);
        self.source = Ghost(source);
        self.border = border;
        self.pairs_done = self.pairs_done + 1;
        writes
    }
}

} // verus!
