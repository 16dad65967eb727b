//! Streaming mip-pyramid generation: one state per mip level, each holding at
//! most the first row of a pair while it waits for the second.
use vstd::prelude::*;
use crate::layout::{exp2, lemma_exp2_monotonic, lemma_exp2_up_to_12, paged_row_len, row_byte_len};
use crate::metadata::MAX_MIP_LEVELS;
use crate::layout::PAGE_SIZE;
use crate::resample::{
    downsample_rows, downsampled, downsampled_width, reproducible_filter, FilterMode, RGBA8_TEXEL_BYTES,
};
use crate::storage::{paged_row, TextureStorage};

verus! {

/// One row file to write: the paged bytes of row `row` of mip level `mip`.
pub struct RowWrite {
    pub mip: u8,
    pub row: usize,
    pub bytes: Vec<u8>,
}

pub open spec fn write_view(w: RowWrite) -> (nat, nat, Seq<u8>) {
    (w.mip as nat, w.row as nat, w.bytes@)
}

/// `row` is what downsampling `first` and `second` (rows of `pages` pages)
/// gives: a row of the next level's size, and, with a reproducible filter,
/// exactly the downsampled pair.
pub open spec fn derived_row(row: Seq<u8>, first: Seq<u8>, second: Seq<u8>, pages: nat, filter: FilterMode) -> bool {
    &&& row.len() == downsampled_width(pages) * PAGE_SIZE as nat * RGBA8_TEXEL_BYTES as nat
    &&& reproducible_filter(filter) ==> row == downsampled(first, second, pages, filter)
}

/// `above` holds, in order, the rows derived from each pair of rows of
/// `below` (rows of `pages` pages), and nothing more.
#[verifier::opaque]
pub open spec fn level_follows(
    below: Seq<Seq<u8>>,
    above: Seq<Seq<u8>>,
    pages: nat,
    filter: FilterMode,
) -> bool {
    &&& above.len() == below.len() / 2
    &&& forall|r: int|
        0 <= r < above.len() ==> derived_row(#[trigger] above[r], 
            below[2 * r],
            below[2 * r + 1],
            pages,
            filter,
        )
}

/// Each row file in `writes` is for a mip level from `base` to `base + top`
/// and holds whole pages: `2^(base + top - mip)` of them.
pub open spec fn writes_sized(writes: Seq<RowWrite>, base: nat, top: nat) -> bool {
    forall|i: int|
        0 <= i < writes.len() ==> base <= (#[trigger] writes[i]).mip <= base + top
            && writes[i].bytes@.len() == paged_row_len(exp2((base + top - writes[i].mip) as nat), 4)
}

/// Every level of `levels` follows from the one below it; level `k` has
/// `2^(top - k)` pages per row.
pub open spec fn pyramid_consistent(levels: Seq<Seq<Seq<u8>>>, top: nat, filter: FilterMode) -> bool {
    forall|k: int|
        1 <= k < levels.len() ==> level_follows(
            levels[k - 1],
            #[trigger] levels[k],
            exp2((top - (k - 1)) as nat),
            filter,
        )
}

/// The row files for what `new` holds beyond `old`, from level `k` upwards:
/// level by level, each level's new rows in order. Level `k` is mip level
/// `base + k`, with `2^(top - k)` pages per row.
pub open spec fn fresh_rows(
    old: Seq<Seq<Seq<u8>>>,
    new: Seq<Seq<Seq<u8>>>,
    base: nat,
    top: nat,
    k: nat,
) -> Seq<(nat, nat, Seq<u8>)>
    decreases new.len() - k,
{
    if k >= new.len() {
        Seq::empty()
    } else {
        Seq::new(
            (new[k as int].len() - old[k as int].len()) as nat,
            |j: int|
                (
                    base + k,
                    (old[k as int].len() + j) as nat,
                    paged_row(new[k as int][old[k as int].len() + j], exp2((top - k) as nat), 4),
                ),
        ) + fresh_rows(old, new, base, top, k + 1)
    }
}

/// Rows held, summed over levels `k` and above.
pub open spec fn total_rows(levels: Seq<Seq<Seq<u8>>>, k: nat) -> nat
    decreases levels.len() - k,
{
    if k >= levels.len() {
        0
    } else {
        levels[k as int].len() + total_rows(levels, k + 1)
    }
}

/// Row `r` of level `j` is in `new` but not yet in `old`.
pub open spec fn new_row_at(old: Seq<Seq<Seq<u8>>>, new: Seq<Seq<Seq<u8>>>, j: int, r: int) -> bool {
    old[j].len() <= r < new[j].len()
}

/// `fresh_rows` names each new row once, by mip level and row, and nothing
/// else.
pub proof fn lemma_fresh_rows_keys(
    old: Seq<Seq<Seq<u8>>>,
    new: Seq<Seq<Seq<u8>>>,
    base: nat,
    top: nat,
    k: nat,
)
    requires
        old.len() == new.len(),
        forall|j: int| k <= j < new.len() ==> old[j].len() <= new[j].len(),
    ensures
        ({
            let f = fresh_rows(old, new, base, top, k);
            &&& f.len() + total_rows(old, k) == total_rows(new, k)
            &&& forall|i: int|
                0 <= i < f.len() ==> base + k <= (#[trigger] f[i]).0 < base + new.len() && old[f[i].0
                    - base].len() <= f[i].1 < new[f[i].0 - base].len()
            &&& forall|j: int, r: int|
                k <= j < new.len() && #[trigger] new_row_at(old, new, j, r) ==> exists|i: int|
                    0 <= i < f.len() && (#[trigger] f[i]).0 == base + j && f[i].1 == r
            &&& forall|i1: int, i2: int|
                0 <= i1 < i2 < f.len() ==> ((#[trigger] f[i1]).0, f[i1].1) != ((#[trigger] f[i2]).0, f[i2].1)
        }),
    decreases new.len() - k,
{
    if k < new.len() {
        lemma_fresh_rows_keys(old, new, base, top, k + 1);
        let rest = fresh_rows(old, new, base, top, k + 1);
        let head = Seq::new(
            (new[k as int].len() - old[k as int].len()) as nat,
            |j: int|
                (
                    base + k,
                    (old[k as int].len() + j) as nat,
                    paged_row(new[k as int][old[k as int].len() + j], exp2((top - k) as nat), 4),
                ),
        );
        let f = fresh_rows(old, new, base, top, k);
        assert(f == head + rest);
        assert forall|i: int|
            0 <= i < f.len() implies base + k <= (#[trigger] f[i]).0 < base + new.len() && old[f[i].0
            - base].len() <= f[i].1 < new[f[i].0 - base].len() by {
            if i >= head.len() {
                assert(f[i] == rest[i - head.len()]);
            }
        }
        assert forall|j: int, r: int|
            k <= j < new.len() && #[trigger] new_row_at(old, new, j, r) implies exists|i: int|
                0 <= i < f.len() && (#[trigger] f[i]).0 == base + j && f[i].1 == r by {
            if j == k {
                let i = r - old[k as int].len();
                assert(f[i] == head[i]);
            } else {
                let i = choose|i: int| 0 <= i < rest.len() && (#[trigger] rest[i]).0 == base + j && rest[i].1 == r;
                assert(f[head.len() + i] == rest[i]);
            }
        }
        assert forall|i1: int, i2: int|
            0 <= i1 < i2 < f.len() implies ((#[trigger] f[i1]).0, f[i1].1) != ((#[trigger] f[i2]).0, f[i2].1) by {
            if i2 < head.len() {
            } else if i1 < head.len() {
                assert(f[i2] == rest[i2 - head.len()]);
            } else {
                assert(f[i1] == rest[i1 - head.len()]);
                assert(f[i2] == rest[i2 - head.len()]);
            }
        }
    }
}

/// In a consistent pyramid, adding rows to the base level never removes rows
/// from any level.
pub proof fn lemma_pyramid_grows(p: Seq<Seq<Seq<u8>>>, q: Seq<Seq<Seq<u8>>>, top: nat, filter: FilterMode)
    requires
        pyramid_consistent(p, top, filter),
        pyramid_consistent(q, top, filter),
        p.len() == q.len(),
        p.len() > 0 ==> p[0].len() <= q[0].len(),
    ensures
        forall|j: int| 0 <= j < q.len() ==> #[trigger] p[j].len() <= q[j].len(),
{
    assert forall|j: int| 0 <= j < q.len() implies #[trigger] p[j].len() <= q[j].len() by {
        lemma_pyramid_grows_at(p, q, top, filter, j);
    }
}

proof fn lemma_pyramid_grows_at(p: Seq<Seq<Seq<u8>>>, q: Seq<Seq<Seq<u8>>>, top: nat, filter: FilterMode, j: int)
    requires
        pyramid_consistent(p, top, filter),
        pyramid_consistent(q, top, filter),
        p.len() == q.len(),
        p[0].len() <= q[0].len(),
        0 <= j < q.len(),
    ensures
        p[j].len() <= q[j].len(),
    decreases j,
{
    if j > 0 {
        lemma_pyramid_grows_at(p, q, top, filter, j - 1);
        reveal(level_follows);
        assert(level_follows(p[j - 1], p[j], exp2((top - (j - 1)) as nat), filter));
        assert(level_follows(q[j - 1], q[j], exp2((top - (j - 1)) as nat), filter));
        assert(p[j - 1].len() / 2 <= q[j - 1].len() / 2) by (nonlinear_arith)
            requires
                p[j - 1].len() <= q[j - 1].len(),
        ;
    }
}

/// A complete pyramid of `top + 1` levels holds `2^(top + 1) - 1` rows.
pub proof fn lemma_complete_pyramid_total(levels: Seq<Seq<Seq<u8>>>, top: nat, k: nat)
    requires
        levels.len() == top + 1,
        k <= top + 1,
        forall|j: int| 0 <= j <= top ==> #[trigger] levels[j].len() == exp2((top - j) as nat),
    ensures
        total_rows(levels, k) + 1 == if k <= top {
            2 * exp2((top - k) as nat)
        } else {
            1
        },
    decreases top + 1 - k,
{
    if k <= top {
        lemma_complete_pyramid_total(levels, top, k + 1);
        if k < top {
            assert(exp2((top - k) as nat) == 2 * exp2((top - (k + 1)) as nat));
        }
    }
}

proof fn lemma_fresh_rows_same_old(
    o1: Seq<Seq<Seq<u8>>>,
    o2: Seq<Seq<Seq<u8>>>,
    new: Seq<Seq<Seq<u8>>>,
    base: nat,
    top: nat,
    k: nat,
)
    requires
        forall|j: int| k <= j < new.len() ==> o1[j] == o2[j],
    ensures
        fresh_rows(o1, new, base, top, k) == fresh_rows(o2, new, base, top, k),
    decreases new.len() - k,
{
    if k < new.len() {
        lemma_fresh_rows_same_old(o1, o2, new, base, top, k + 1);
        assert(o1[k as int] == o2[k as int]);
    }
}

proof fn lemma_fresh_rows_none(old: Seq<Seq<Seq<u8>>>, new: Seq<Seq<Seq<u8>>>, base: nat, top: nat, k: nat)
    requires
        forall|j: int| k <= j < new.len() ==> old[j] == new[j],
    ensures
        fresh_rows(old, new, base, top, k) == Seq::<(nat, nat, Seq<u8>)>::empty(),
    decreases new.len() - k,
{
    if k < new.len() {
        lemma_fresh_rows_none(old, new, base, top, k + 1);
        assert(old[k as int] == new[k as int]);
        assert(fresh_rows(old, new, base, top, k) =~= Seq::<(nat, nat, Seq<u8>)>::empty());
    }
}

/// A level whose rows come in pairs still follows when one more row lands
/// below it.
proof fn lemma_follows_after_odd_row(
    below: Seq<Seq<u8>>,
    above: Seq<Seq<u8>>,
    row: Seq<u8>,
    pages: nat,
    filter: FilterMode,
)
    requires
        level_follows(below, above, pages, filter),
        below.len() % 2 == 0,
    ensures
        level_follows(below.push(row), above, pages, filter),
{
    reveal(level_follows);
    let b2 = below.push(row);
    assert forall|r: int| 0 <= r < above.len() implies derived_row(#[trigger] above[r], 
        b2[2 * r],
        b2[2 * r + 1],
        pages,
        filter,
    ) by {
        assert(derived_row(above[r], below[2 * r], below[2 * r + 1], pages, filter));
    }
}

/// Generates every coarser mip level from pairs of rows of its base level.
/// Level `k` of the generator is mip level `base_mip + k`; the last level,
/// `coarsest_mip`, has rows of a single page.
pub struct MipLevelGen {
    /// Per level: the first row of a pair not yet complete, and its index.
    stored_rows: Vec<Option<(Vec<u8>, usize)>>,
    base_mip: u8,
    coarsest_mip: u8,
    bytes_per_texel: u8,
    filter_mode: FilterMode,
    /// Per level: every row produced so far.
    produced: Ghost<Seq<Seq<Seq<u8>>>>,
}

impl View for MipLevelGen {
    type V = Seq<Seq<Seq<u8>>>;

    closed spec fn view(&self) -> Seq<Seq<Seq<u8>>> {
        self.produced@
    }
}

impl MipLevelGen {
    pub closed spec fn base_mip(&self) -> u8 {
        self.base_mip
    }

    pub closed spec fn coarsest_mip(&self) -> u8 {
        self.coarsest_mip
    }

    pub closed spec fn filter_mode(&self) -> FilterMode {
        self.filter_mode
    }

    /// Exponent of the page count of the base level's rows.
    pub open spec fn top(&self) -> nat {
        (self.coarsest_mip() - self.base_mip()) as nat
    }

    /// Pages per row at level `k`.
    pub open spec fn pages(&self, k: int) -> nat {
        exp2((self.top() - k) as nat)
    }

    /// The generator can write its rows through `storage`.
    pub open spec fn fits(&self, storage: TextureStorage) -> bool {
        &&& storage.wf()
        &&& storage.spec_metadata().mip_levels() == self.coarsest_mip()
    }

    closed spec fn stored_matches(&self, k: int) -> bool {
        &&& (self.produced@[k].len() % 2 == 1) == (self.stored_rows@[k] is Some)
        &&& self.stored_rows@[k] matches Some((row, index)) ==> row@ == self.produced@[k].last()
            && index == self.produced@[k].len() - 1
    }

    closed spec fn basic(&self) -> bool {
        &&& self.base_mip <= self.coarsest_mip <= MAX_MIP_LEVELS
        &&& self.bytes_per_texel == 4
        &&& self.stored_rows@.len() == self.produced@.len()
        &&& self.produced@.len() == self.coarsest_mip - self.base_mip + 1
        &&& forall|k: int| 0 <= k < self.produced@.len() ==> #[trigger] self.stored_matches(k)
        &&& forall|k: int, r: int|
            0 <= k < self.produced@.len() && 0 <= r < self.produced@[k].len() ==> (
            #[trigger] self.produced@[k][r]).len() == row_byte_len(self.pages(k), 4)
    }

    /// Internal consistency: one state per level, at most one row held per
    /// level, and every level derived from the one below.
    pub closed spec fn wf(&self) -> bool {
        &&& self.basic()
        &&& self.produced@[0].len() % 2 == 0
        &&& pyramid_consistent(self.produced@, self.top(), self.filter_mode)
    }

    /// Number of rows held in memory: one for each level whose rows so far
    /// do not pair up, so never more than the number of levels.
    pub fn held_rows(&self) -> (r: usize)
        requires
            self.wf(),
        ensures
            r <= self@.len(),
            r == self@.filter(|level: Seq<Seq<u8>>| level.len() % 2 == 1).len(),
    {
        let mut count: usize = 0;
        let mut k: usize = 0;
        while k < self.stored_rows.len()
            invariant
                self.wf(),
                k <= self.stored_rows@.len(),
                self.stored_rows@.len() == self@.len(),
                count <= k,
                count == self@.take(k as int).filter(
                    |level: Seq<Seq<u8>>| level.len() % 2 == 1,
                ).len(),
            decreases self.stored_rows@.len() - k,
        {
            proof {
                assert(self.stored_matches(k as int));
                reveal(Seq::filter);
                assert(self@.take(k + 1).drop_last() =~= self@.take(k as int));
            }
            if self.stored_rows[k].is_some() {
                count = count + 1;
            }
            k = k + 1;
        }
        proof {
            assert(self@.take(k as int) =~= self@);
        }
        count
    }

    /// A generator for mip levels `base_mip..=mip`, holding nothing yet.
    pub fn from_mip(mip: u8, base_mip: u8, bytes_per_texel: u8, filter_mode: FilterMode) -> (r: Self)
        requires
            base_mip <= mip <= MAX_MIP_LEVELS,
            bytes_per_texel == 4,
        ensures
            r.wf(),
            pyramid_consistent(r@, r.top(), r.filter_mode()),
            r.base_mip() == base_mip,
            r.coarsest_mip() == mip,
            r.filter_mode() == filter_mode,
            r@ == Seq::new((mip - base_mip + 1) as nat, |k: int| Seq::<Seq<u8>>::empty()),
    {
        let mut stored_rows: Vec<Option<(Vec<u8>, usize)>> = Vec::new();
        let mut k: u8 = base_mip;
        while k <= mip
            invariant
                base_mip <= k <= mip + 1,
                mip <= MAX_MIP_LEVELS,
                stored_rows@.len() == k - base_mip,
                forall|j: int| 0 <= j < stored_rows@.len() ==> stored_rows@[j] is None,
            decreases mip + 1 - k,
        {
            stored_rows.push(None);
            k = k + 1;
        }
        let ghost levels = Seq::new((mip - base_mip + 1) as nat, |k: int| Seq::<Seq<u8>>::empty());
        let r = MipLevelGen {
            stored_rows,
            base_mip,
            coarsest_mip: mip,
            bytes_per_texel,
            filter_mode,
            produced: Ghost(levels),
        };
        assert forall|k: int| 0 <= k < r.produced@.len() implies #[trigger] r.stored_matches(k) by {}
        proof {
            reveal(level_follows);
        }
        r
    }

    /// Takes rows `first_index` and `first_index + 1` of the base level: both
    /// are written, then every coarser row they complete is derived and
    /// written. Returns the row files in the order they are produced.
    pub fn write_two_rows(
        &mut self,
        rows: (&[u8], &[u8]),
        first_index: usize,
        storage: &TextureStorage,
    ) -> (r: Vec<RowWrite>)
        requires
            old(self).wf(),
            old(self).fits(*storage),
            rows.0@.len() == row_byte_len(old(self).pages(0), 4),
            rows.1@.len() == row_byte_len(old(self).pages(0), 4),
            first_index == old(self)@[0].len(),
            first_index < usize::MAX,
        ensures
            final(self).wf(),
            final(self).base_mip() == old(self).base_mip(),
            final(self).coarsest_mip() == old(self).coarsest_mip(),
            final(self).filter_mode() == old(self).filter_mode(),
            final(self)@.len() == old(self)@.len(),
            final(self)@[0] == old(self)@[0].push(rows.0@).push(rows.1@),
            pyramid_consistent(final(self)@, final(self).top(), final(self).filter_mode()),
            writes_sized(r@, old(self).base_mip() as nat, old(self).top()),
            r@.map_values(|w: RowWrite| write_view(w)) == fresh_rows(
                old(self)@,
                final(self)@,
                old(self).base_mip() as nat,
                old(self).top(),
                0,
            ),
    {
        let ghost p0 = self@;
        let ghost base = self.base_mip as nat;
        let ghost top = self.top();
        let mut out: Vec<RowWrite> = Vec::new();
        self.write_level_row(0, rows.0, first_index, storage, &mut out);
        self.write_level_row(0, rows.1, first_index + 1, storage, &mut out);
        let ghost p1 = p0.update(0, p0[0].push(rows.0@).push(rows.1@));
        proof {
            assert(self.stored_matches(0));
            assert(p1[0].subrange(0, p1[0].len() - 2) =~= p0[0]);
            assert(p1[0][first_index as int] == rows.0@);
            assert(p1[0][first_index + 1] == rows.1@);
            if 1 < p0.len() {
                assert(level_follows(p0[0], p0[1], self.pages(0), self.filter_mode));
            }
            assert forall|j: int|
                1 <= j < p1.len() && j != 1 implies level_follows(
                p1[j - 1],
                #[trigger] p1[j],
                self.pages(j - 1),
                self.filter_mode,
            ) by {
                assert(level_follows(p0[j - 1], p0[j], self.pages(j - 1), self.filter_mode));
            }
        }
        self.produced = Ghost(p1);
        proof {
            assert forall|j: int| 0 <= j < self.produced@.len() implies #[trigger] self.stored_matches(j) by {
                assert(old(self).stored_matches(j));
            }
            assert forall|j: int, r: int|
                0 <= j < self.produced@.len() && 0 <= r < self.produced@[j].len() implies (
                #[trigger] self.produced@[j][r]).len() == row_byte_len(self.pages(j), 4) by {
                if j == 0 && r < p0[0].len() {
                    assert(self.produced@[0][r] == p0[0][r]);
                }
            }
        }
        let ghost out1 = out@;
        self.lift_pair(0, rows.0, rows.1, first_index, storage, &mut out);
        proof {
            lemma_fresh_rows_same_old(p0, p1, self@, base, top, 1);
            let fresh0 = Seq::new(
                (self@[0].len() - p0[0].len()) as nat,
                |j: int|
                    (
                        base + 0,
                        (p0[0].len() + j) as nat,
                        paged_row(self@[0][p0[0].len() + j], exp2((top - 0) as nat), 4),
                    ),
            );
            assert(fresh0 =~= seq![
                (base, first_index as nat, paged_row(rows.0@, self.pages(0), 4)),
                (base, (first_index + 1) as nat, paged_row(rows.1@, self.pages(0), 4)),
            ]);
            assert(fresh_rows(p0, self@, base, top, 0) == fresh0 + fresh_rows(p0, self@, base, top, 1));
            assert(out@.map_values(|w: RowWrite| write_view(w)) =~= fresh_rows(p0, self@, base, top, 0));
        }
        out
    }

    /// Appends the row file of row `index` of level `k` to `out`.
    fn write_level_row(
        &self,
        k: usize,
        row: &[u8],
        index: usize,
        storage: &TextureStorage,
        out: &mut Vec<RowWrite>,
    )
        requires
            self.basic(),
            self.fits(*storage),
            k < self@.len(),
            row@.len() == row_byte_len(self.pages(k as int), 4),
            writes_sized(old(out)@, self.base_mip() as nat, self.top()),
        ensures
            writes_sized(final(out)@, self.base_mip() as nat, self.top()),
            final(out)@.map_values(|w: RowWrite| write_view(w)) == old(out)@.map_values(
                |w: RowWrite| write_view(w),
            ).push(((self.base_mip() + k) as nat, index as nat, paged_row(row@, self.pages(k as int), 4))),
    {
        let mip: u8 = self.base_mip + k as u8;
        let bytes = storage.page_row(mip, row);
        let ghost out0 = out@;
        out.push(RowWrite { mip, row: index, bytes });
        assert(writes_sized(out@, self.base_mip() as nat, self.top())) by {
            assert forall|i: int| 0 <= i < out@.len() implies self.base_mip() <= (#[trigger] out@[i]).mip
                <= self.base_mip() + self.top() && out@[i].bytes@.len() == paged_row_len(
                exp2((self.base_mip() + self.top() - out@[i].mip) as nat),
                4,
            ) by {
                if i < out0.len() {
                    assert(out@[i] == out0[i]);
                }
            }
        }
        assert(out@.map_values(|w: RowWrite| write_view(w)) =~= out0.map_values(
            |w: RowWrite| write_view(w),
        ).push(((self.base_mip() + k) as nat, index as nat, paged_row(row@, self.pages(k as int), 4))));
    }

    /// Writes a new row of level `k` (above the base): a row that opens a pair
    /// is held, a row that closes one is downsampled with the held row into
    /// the next level.
    #[verifier::rlimit(100)]
    fn push_row(
        &mut self,
        k: usize,
        row: Vec<u8>,
        index: usize,
        storage: &TextureStorage,
        out: &mut Vec<RowWrite>,
    )
        requires
            old(self).basic(),
            old(self).fits(*storage),
            old(self)@[0].len() % 2 == 0,
            1 <= k < old(self)@.len(),
            writes_sized(old(out)@, old(self).base_mip() as nat, old(self).top()),
            forall|j: int|
                1 <= j < old(self)@.len() && j != k ==> level_follows(
                    old(self)@[j - 1],
                    #[trigger] old(self)@[j],
                    old(self).pages(j - 1),
                    old(self).filter_mode(),
                ),
            level_follows(
                old(self)@[k - 1],
                old(self)@[k as int].push(row@),
                old(self).pages(k - 1),
                old(self).filter_mode(),
            ),
            row@.len() == row_byte_len(old(self).pages(k as int), 4),
            index == old(self)@[k as int].len(),
        ensures
            final(self).wf(),
            final(self).base_mip() == old(self).base_mip(),
            final(self).coarsest_mip() == old(self).coarsest_mip(),
            final(self).filter_mode() == old(self).filter_mode(),
            final(self)@.len() == old(self)@.len(),
            forall|j: int| 0 <= j < k ==> final(self)@[j] == old(self)@[j],
            final(self)@[k as int] == old(self)@[k as int].push(row@),
            writes_sized(final(out)@, old(self).base_mip() as nat, old(self).top()),
            final(out)@.map_values(|w: RowWrite| write_view(w)) == old(out)@.map_values(
                |w: RowWrite| write_view(w),
            ) + fresh_rows(
                old(self)@,
                final(self)@,
                old(self).base_mip() as nat,
                old(self).top(),
                k as nat,
            ),
        decreases old(self)@.len() - k, 1nat,
    {
        let ghost p0 = self@;
        let ghost out0 = out@;
        let ghost base = self.base_mip as nat;
        let ghost top = self.top();
        let ghost filter = self.filter_mode;
        self.write_level_row(k, row.as_slice(), index, storage, out);
        let ghost p1 = p0.update(k as int, p0[k as int].push(row@));
        let ghost out1 = out@;
        proof {
            assert(out1.map_values(|w: RowWrite| write_view(w)) =~= out0.map_values(
                |w: RowWrite| write_view(w),
            ) + seq![(base + k as nat, index as nat, paged_row(row@, self.pages(k as int), 4))]);
            lemma_fresh_rows_step(p0, p1, base, top, k as nat);
            assert(p1[k as int].drop_last() =~= p0[k as int]);
        }
        self.produced = Ghost(p1);
        let ghost stored0 = self.stored_rows@;
        let taken = self.stored_rows.remove(k);
        match taken {
            None => {
                self.stored_rows.insert(k, Some((row, index)));
                proof {
                    assert(self.stored_rows@ =~= stored0.update(k as int, Some((row, index))));
                    assert(old(self).stored_matches(k as int));
                    self.lemma_basic_after_push(*old(self), k as int);
                    lemma_consistent_after_push(p0, row@, k as int, top, filter);
                    lemma_fresh_rows_none(p0, p1, base, top, (k + 1) as nat);
                }
            },
            Some((first, first_index)) => {
                self.stored_rows.insert(k, None);
                proof {
                    assert(self.stored_rows@ =~= stored0.update(k as int, None));
                    assert(old(self).stored_matches(k as int));
                    self.lemma_basic_after_push(*old(self), k as int);
                    lemma_pair_closed(p0, row@, k as int, top, filter);
                    assert(p1[k as int][p1[k as int].len() - 2] == first@);
                }
                self.lift_pair(k, first.as_slice(), row.as_slice(), first_index, storage, out);
                proof {
                    lemma_fresh_rows_same_old(p0, p1, self@, base, top, (k + 1) as nat);
                    lemma_fresh_rows_step(p0, self@, base, top, k as nat);
                }
            },
        }
    }

    /// Level `k` has just completed a pair, `first` and `second`: derives the
    /// row of level `k + 1` from it and pushes it there, unless level `k` is
    /// the coarsest.
    fn lift_pair(
        &mut self,
        k: usize,
        first: &[u8],
        second: &[u8],
        first_index: usize,
        storage: &TextureStorage,
        out: &mut Vec<RowWrite>,
    )
        requires
            old(self).basic(),
            old(self).fits(*storage),
            old(self)@[0].len() % 2 == 0,
            k < old(self)@.len(),
            writes_sized(old(out)@, old(self).base_mip() as nat, old(self).top()),
            old(self)@[k as int].len() >= 2,
            old(self)@[k as int].len() % 2 == 0,
            first_index == old(self)@[k as int].len() - 2,
            first@ == old(self)@[k as int][first_index as int],
            second@ == old(self)@[k as int][first_index + 1],
            forall|j: int|
                1 <= j < old(self)@.len() && j != k + 1 ==> level_follows(
                    old(self)@[j - 1],
                    #[trigger] old(self)@[j],
                    old(self).pages(j - 1),
                    old(self).filter_mode(),
                ),
            k + 1 < old(self)@.len() ==> level_follows(
                old(self)@[k as int].subrange(0, first_index as int),
                old(self)@[k + 1],
                old(self).pages(k as int),
                old(self).filter_mode(),
            ),
        ensures
            final(self).wf(),
            final(self).base_mip() == old(self).base_mip(),
            final(self).coarsest_mip() == old(self).coarsest_mip(),
            final(self).filter_mode() == old(self).filter_mode(),
            final(self)@.len() == old(self)@.len(),
            forall|j: int| 0 <= j <= k ==> final(self)@[j] == old(self)@[j],
            writes_sized(final(out)@, old(self).base_mip() as nat, old(self).top()),
            final(out)@.map_values(|w: RowWrite| write_view(w)) == old(out)@.map_values(
                |w: RowWrite| write_view(w),
            ) + fresh_rows(
                old(self)@,
                final(self)@,
                old(self).base_mip() as nat,
                old(self).top(),
                (k + 1) as nat,
            ),
        decreases old(self)@.len() - k, 0nat,
    {
        if k + 1 < self.stored_rows.len() {
            proof {
                lemma_exp2_up_to_12();
                lemma_exp2_monotonic((self.top() - k) as nat, 12);
            }
            let pages = storage.pages_at(self.base_mip + k as u8);
            proof {
                assert(self.stored_matches(k as int));
                assert(first@.len() == row_byte_len(self.pages(k as int), 4));
                assert(second@.len() == row_byte_len(self.pages(k as int), 4));
            }
            let next = downsample_rows(first, second, pages, self.filter_mode);
            proof {
                lemma_follows_with_pair(
                    self@[k as int],
                    self@[k + 1],
                    next@,
                    self.pages(k as int),
                    self.filter_mode,
                );
                lemma_downsampled_row_len(self.pages(k + 1));
            }
            self.push_row(k + 1, next, first_index / 2, storage, out);
        } else {
            proof {
                lemma_fresh_rows_none(self@, self@, self.base_mip as nat, self.top(), (k + 1) as nat);
                assert(out@.map_values(|w: RowWrite| write_view(w)) =~= out@.map_values(
                    |w: RowWrite| write_view(w),
                ) + fresh_rows(self@, self@, self.base_mip as nat, self.top(), (k + 1) as nat));
            }
        }
    }

    /// The per-level bookkeeping holds again once row `k` has been pushed and
    /// the held row of level `k` updated.
    proof fn lemma_basic_after_push(&self, before: MipLevelGen, k: int)
        requires
            before.basic(),
            0 <= k < before.produced@.len(),
            self.base_mip == before.base_mip,
            self.coarsest_mip == before.coarsest_mip,
            self.bytes_per_texel == before.bytes_per_texel,
            self.produced@.len() == before.produced@.len(),
            self.stored_rows@.len() == before.stored_rows@.len(),
            self.produced@[k].len() == before.produced@[k].len() + 1,
            self.produced@[k].drop_last() == before.produced@[k],
            self.produced@[k].last().len() == row_byte_len(before.pages(k), 4),
            forall|j: int| 0 <= j < self.produced@.len() && j != k ==> self.produced@[j] == before.produced@[j],
            forall|j: int| 0 <= j < self.produced@.len() && j != k ==> self.stored_rows@[j] == before.stored_rows@[j],
            self.stored_matches(k),
        ensures
            self.basic(),
    {
        assert forall|j: int| 0 <= j < self.produced@.len() implies #[trigger] self.stored_matches(j) by {
            assert(before.stored_matches(j));
        }
        assert forall|j: int, r: int|
            0 <= j < self.produced@.len() && 0 <= r < self.produced@[j].len() implies (
            #[trigger] self.produced@[j][r]).len() == row_byte_len(self.pages(j), 4) by {
            if j == k && r < before.produced@[k].len() {
                assert(self.produced@[k][r] == self.produced@[k].drop_last()[r]);
            }
        }
    }
}

/// A row derived from a pair of rows of `2 * pages` pages is a row of `pages` pages.
proof fn lemma_downsampled_row_len(pages: nat)
    requires
        pages >= 1,
    ensures
        crate::resample::downsampled_width(2 * pages) * 128 * 4 == row_byte_len(pages, 4),
{
    let w = crate::layout::row_texel_width(2 * pages);
    let half = 120 * pages + 4;
    assert(w == 2 * half);
    assert((2 * half) / 2 == half) by (nonlinear_arith);
    assert(crate::resample::downsampled_width(2 * pages) == pages * 120 + 8);
}

/// Once the base level holds all `2^top` rows, level `k` holds `2^(top - k)`
/// rows: one row file per row of pages at every mip level, down to a single
/// row at the coarsest.
pub proof fn lemma_complete_pyramid_row_counts(levels: Seq<Seq<Seq<u8>>>, top: nat, filter: FilterMode)
    requires
        pyramid_consistent(levels, top, filter),
        levels.len() == top + 1,
        levels[0].len() == exp2(top),
    ensures
        forall|k: int| 0 <= k <= top ==> #[trigger] levels[k].len() == exp2((top - k) as nat),
{
    assert forall|k: int| 0 <= k <= top implies #[trigger] levels[k].len() == exp2((top - k) as nat) by {
        lemma_level_len(levels, top, filter, k);
    }
}

proof fn lemma_level_len(levels: Seq<Seq<Seq<u8>>>, top: nat, filter: FilterMode, k: int)
    requires
        pyramid_consistent(levels, top, filter),
        levels.len() == top + 1,
        levels[0].len() == exp2(top),
        0 <= k <= top,
    ensures
        levels[k].len() == exp2((top - k) as nat),
    decreases k,
{
    if k > 0 {
        lemma_level_len(levels, top, filter, k - 1);
        reveal(level_follows);
        assert(level_follows(levels[k - 1], levels[k], exp2((top - (k - 1)) as nat), filter));
        assert(exp2((top - (k - 1)) as nat) == 2 * exp2((top - k) as nat));
    }
}

/// `fresh_rows` from level `k` is the new rows of level `k`, then the rest.
proof fn lemma_fresh_rows_step(old: Seq<Seq<Seq<u8>>>, new: Seq<Seq<Seq<u8>>>, base: nat, top: nat, k: nat)
    requires
        k < new.len(),
        new[k as int].len() == old[k as int].len() + 1,
    ensures
        fresh_rows(old, new, base, top, k) == seq![
            (base + k, old[k as int].len(), paged_row(new[k as int].last(), exp2((top - k) as nat), 4)),
        ] + fresh_rows(old, new, base, top, k + 1),
{
    assert(Seq::new(
        (new[k as int].len() - old[k as int].len()) as nat,
        |j: int|
            (
                base + k,
                (old[k as int].len() + j) as nat,
                paged_row(new[k as int][old[k as int].len() + j], exp2((top - k) as nat), 4),
            ),
    ) =~= seq![
        (base + k, old[k as int].len(), paged_row(new[k as int].last(), exp2((top - k) as nat), 4)),
    ]);
}

/// Pushing a row at level `k` that leaves nothing to cascade keeps the
/// pyramid consistent.
proof fn lemma_consistent_after_push(p0: Seq<Seq<Seq<u8>>>, row: Seq<u8>, k: int, top: nat, filter: FilterMode)
    requires
        1 <= k < p0.len(),
        k + 1 == p0.len() || p0[k].len() % 2 == 0,
        forall|j: int|
            1 <= j < p0.len() && j != k ==> level_follows(
                p0[j - 1],
                #[trigger] p0[j],
                exp2((top - (j - 1)) as nat),
                filter,
            ),
        level_follows(p0[k - 1], p0[k].push(row), exp2((top - (k - 1)) as nat), filter),
    ensures
        pyramid_consistent(p0.update(k, p0[k].push(row)), top, filter),
{
    let p1 = p0.update(k, p0[k].push(row));
    assert forall|j: int| 1 <= j < p1.len() implies level_follows(
        p1[j - 1],
        #[trigger] p1[j],
        exp2((top - (j - 1)) as nat),
        filter,
    ) by {
        if j == k + 1 {
            assert(p0[j] == p1[j]);
            lemma_follows_after_odd_row(p0[k], p0[j], row, exp2((top - k) as nat), filter);
        }
    }
}

/// Pushing the row that closes a pair at level `k`: every other level still
/// follows, and level `k + 1` follows level `k` without that pair.
proof fn lemma_pair_closed(p0: Seq<Seq<Seq<u8>>>, row: Seq<u8>, k: int, top: nat, filter: FilterMode)
    requires
        1 <= k < p0.len(),
        p0[k].len() % 2 == 1,
        forall|j: int|
            1 <= j < p0.len() && j != k ==> level_follows(
                p0[j - 1],
                #[trigger] p0[j],
                exp2((top - (j - 1)) as nat),
                filter,
            ),
        level_follows(p0[k - 1], p0[k].push(row), exp2((top - (k - 1)) as nat), filter),
    ensures
        ({
            let p1 = p0.update(k, p0[k].push(row));
            &&& forall|j: int|
                1 <= j < p1.len() && j != k + 1 ==> level_follows(
                    p1[j - 1],
                    #[trigger] p1[j],
                    exp2((top - (j - 1)) as nat),
                    filter,
                )
            &&& k + 1 < p1.len() ==> level_follows(
                p1[k].subrange(0, p1[k].len() - 2),
                p1[k + 1],
                exp2((top - k) as nat),
                filter,
            )
        }),
{
    reveal(level_follows);
    let p1 = p0.update(k, p0[k].push(row));
    assert(p1[k].subrange(0, p1[k].len() - 2) =~= p0[k].drop_last());
    assert forall|j: int|
        1 <= j < p1.len() && j != k + 1 implies level_follows(
        p1[j - 1],
        #[trigger] p1[j],
        exp2((top - (j - 1)) as nat),
        filter,
    ) by {
        if j != k {
            assert(level_follows(p0[j - 1], p0[j], exp2((top - (j - 1)) as nat), filter));
        }
    }
    if k + 1 < p1.len() {
        let pages = exp2((top - k) as nat);
        assert(level_follows(p0[k], p0[k + 1], pages, filter));
        let below = p0[k].drop_last();
        assert forall|r: int| 0 <= r < p0[k + 1].len() implies derived_row(#[trigger] p0[k + 1][r], 
            below[2 * r],
            below[2 * r + 1],
            pages,
            filter,
        ) by {
            assert(derived_row(p0[k + 1][r], p0[k][2 * r], p0[k][2 * r + 1], pages, filter));
        }
    }
}

/// A level that follows all but the last pair below it follows the whole
/// level once the row derived from that pair is added.
proof fn lemma_follows_with_pair(
    below: Seq<Seq<u8>>,
    above: Seq<Seq<u8>>,
    next: Seq<u8>,
    pages: nat,
    filter: FilterMode,
)
    requires
        below.len() >= 2,
        below.len() % 2 == 0,
        level_follows(below.subrange(0, below.len() - 2), above, pages, filter),
        derived_row(next, below[below.len() - 2], below[below.len() - 1], pages, filter),
    ensures
        level_follows(below, above.push(next), pages, filter),
        above.len() == (below.len() - 2) / 2,
{
    reveal(level_follows);
    let short = below.subrange(0, below.len() - 2);
    let a2 = above.push(next);
    assert forall|r: int| 0 <= r < a2.len() implies derived_row(#[trigger] a2[r], 
        below[2 * r],
        below[2 * r + 1],
        pages,
        filter,
    ) by {
        if r < above.len() {
            assert(derived_row(above[r], short[2 * r], short[2 * r + 1], pages, filter));
        }
    }
}

} // verus!
