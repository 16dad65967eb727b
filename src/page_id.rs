//! Packed page identifiers read back from the GPU feedback buffer, their
//! canonical order, and the reduction of a frame's feedback to the set of
//! pages it needs.
use vstd::prelude::*;

verus! {

/// Bytes of one packed identifier in the feedback buffer.
pub const PAGE_ID_BYTES: usize = 4;

/// Largest page coordinate plus one (coordinates are 14 bits wide).
pub const PAGE_COORD_LIMIT: u16 = 16384;

/// Largest encodable mip level plus one (mip levels are 4 bits wide).
pub const MIP_LEVEL_LIMIT: u8 = 16;

/// `page_x` of a packed identifier: byte 0 is its high 8 bits, the top six
/// bits of byte 1 its low 6 bits.
pub open spec fn packed_page_x(b: Seq<u8>) -> nat {
    b[0] as nat * 64 + b[1] as nat / 4
}

/// `page_y` of a packed identifier: the low two bits of byte 1 are its high
/// 2 bits, byte 2 its middle 8 bits, the top four bits of byte 3 its low 4 bits.
pub open spec fn packed_page_y(b: Seq<u8>) -> nat {
    (b[1] as nat % 4) * 4096 + b[2] as nat * 16 + b[3] as nat / 16
}

/// `mip_level` of a packed identifier: the low four bits of byte 3.
pub open spec fn packed_mip_level(b: Seq<u8>) -> nat {
    b[3] as nat % 16
}

/// The four bytes that encode the given fields.
pub open spec fn packed_bytes(page_x: nat, page_y: nat, mip_level: nat) -> Seq<u8> {
    seq![
        (page_x / 64) as u8,
        ((page_x % 64) * 4 + page_y / 4096) as u8,
        ((page_y / 16) % 256) as u8,
        ((page_y % 16) * 16 + mip_level) as u8,
    ]
}

/// Identifies one page of one mip level.
///
/// Ordered by mip level, then `page_y`, then `page_x`; the derived order
/// follows the declaration order of the fields.
#[derive(Debug, Clone, Copy, PartialEq, Eq, Structural, Ord, Hash)]
pub struct PageId {
    mip_level: u8,
    page_y: u16,
    page_x: u16,
}

/// Position of a page identifier in the canonical order.
pub open spec fn order_key(p: PageId) -> nat {
    p.mip_level() as nat * 4294967296 + p.page_y() as nat * 65536 + p.page_x() as nat
}

/// `a` comes strictly before `b`: by mip level, then `page_y`, then `page_x`.
pub open spec fn precedes(a: PageId, b: PageId) -> bool {
    ||| a.mip_level() < b.mip_level()
    ||| (a.mip_level() == b.mip_level() && a.page_y() < b.page_y())
    ||| (a.mip_level() == b.mip_level() && a.page_y() == b.page_y() && a.page_x() < b.page_x())
}

/// The canonical order is the order of the keys.
pub proof fn lemma_precedes_is_key_order(a: PageId, b: PageId)
    ensures
        precedes(a, b) <==> order_key(a) < order_key(b),
{
}

/// Identifiers with the same fields are the same identifier.
pub proof fn lemma_page_id_fields_determine(a: PageId, b: PageId)
    requires
        a.mip_level() == b.mip_level(),
        a.page_y() == b.page_y(),
        a.page_x() == b.page_x(),
    ensures
        a == b,
{
}

/// Identifiers with the same key are the same identifier.
pub proof fn lemma_order_key_injective(a: PageId, b: PageId)
    requires
        order_key(a) == order_key(b),
    ensures
        a == b,
{
}

impl PageId {
    pub closed spec fn spec_page_x(&self) -> u16 {
        self.page_x
    }

    pub closed spec fn spec_page_y(&self) -> u16 {
        self.page_y
    }

    pub closed spec fn spec_mip_level(&self) -> u8 {
        self.mip_level
    }

    /// Fits the packed format: 14-bit coordinates and a 4-bit mip level.
    pub open spec fn wf(&self) -> bool {
        &&& self.page_x() < PAGE_COORD_LIMIT
        &&& self.page_y() < PAGE_COORD_LIMIT
        &&& self.mip_level() < MIP_LEVEL_LIMIT
    }

    #[verifier::when_used_as_spec(spec_page_x)]
    pub fn page_x(&self) -> (r: u16)
        ensures
            r == self.page_x(),
    {
        self.page_x
    }

    #[verifier::when_used_as_spec(spec_page_y)]
    pub fn page_y(&self) -> (r: u16)
        ensures
            r == self.page_y(),
    {
        self.page_y
    }

    #[verifier::when_used_as_spec(spec_mip_level)]
    pub fn mip_level(&self) -> (r: u8)
        ensures
            r == self.mip_level(),
    {
        self.mip_level
    }

    pub fn new(page_x: u16, page_y: u16, mip_level: u8) -> (r: Self)
        ensures
            r.page_x() == page_x,
            r.page_y() == page_y,
            r.mip_level() == mip_level,
    {
        PageId { mip_level, page_y, page_x }
    }

    /// Decodes one packed identifier (most significant byte first).
    pub fn from_bytes(bytes: &[u8]) -> (r: Self)
        requires
            bytes@.len() == PAGE_ID_BYTES,
        ensures
            r.page_x() == packed_page_x(bytes@),
            r.page_y() == packed_page_y(bytes@),
            r.mip_level() == packed_mip_level(bytes@),
            r.wf(),
    {
        let b0 = bytes[0];
        let b1 = bytes[1];
        let b2 = bytes[2];
        let b3 = bytes[3];
        let page_x: u16 = (b0 as u16) << 6u16 | (b1 >> 2u8) as u16;
        let page_y: u16 = ((b1 & 3u8) as u16) << 12u16 | (b2 as u16) << 4u16 | (b3 >> 4u8) as u16;
        let mip_level: u8 = b3 & 15u8;
        assert(page_x == b0 as nat * 64 + b1 as nat / 4) by (bit_vector)
            requires
                page_x == (b0 as u16) << 6u16 | (b1 >> 2u8) as u16,
        ;
        assert(page_y == (b1 as nat % 4) * 4096 + b2 as nat * 16 + b3 as nat / 16) by (bit_vector)
            requires
                page_y == ((b1 & 3u8) as u16) << 12u16 | (b2 as u16) << 4u16 | (b3 >> 4u8) as u16,
        ;
        assert(mip_level == b3 as nat % 16) by (bit_vector)
            requires
                mip_level == b3 & 15u8,
        ;
        PageId { mip_level, page_y, page_x }
    }

    /// Encodes the identifier in the packed format read by `from_bytes`.
    pub fn to_bytes(&self) -> (r: [u8; 4])
        requires
            self.wf(),
        ensures
            r@ == packed_bytes(self.page_x() as nat, self.page_y() as nat, self.mip_level() as nat),
    {
        let x = self.page_x;
        let y = self.page_y;
        let m = self.mip_level;
        let b0: u8 = (x >> 6u16) as u8;
        let b1: u8 = (((x & 63u16) << 2u16) | (y >> 12u16)) as u8;
        let b2: u8 = ((y >> 4u16) & 255u16) as u8;
        let b3: u8 = (((y & 15u16) << 4u16) | m as u16) as u8;
        assert(b0 == (x as nat / 64) as u8 && b1 == ((x as nat % 64) * 4 + y as nat / 4096) as u8
            && b2 == ((y as nat / 16) % 256) as u8 && b3 == ((y as nat % 16) * 16 + m as nat) as u8)
            by (bit_vector)
            requires
                x < 16384u16,
                y < 16384u16,
                m < 16u8,
                b0 == (x >> 6u16) as u8,
                b1 == (((x & 63u16) << 2u16) | (y >> 12u16)) as u8,
                b2 == ((y >> 4u16) & 255u16) as u8,
                b3 == (((y & 15u16) << 4u16) | m as u16) as u8,
        ;
        let r = [b0, b1, b2, b3];
        assert(r@ =~= packed_bytes(x as nat, y as nat, m as nat));
        r
    }

    /// The identifier's position in the canonical order, as an integer.
    pub fn sort_key(&self) -> (r: u64)
        ensures
            r == order_key(*self),
    {
        self.mip_level as u64 * 4294967296u64 + self.page_y as u64 * 65536u64 + self.page_x as u64
    }

    /// The identifier whose `sort_key` is `key`.
    fn from_sort_key(key: u64) -> (r: Self)
        requires
            key < 1099511627776,
            exists|p: PageId| order_key(p) == key,
        ensures
            order_key(r) == key,
    {
        let mip_level: u8 = (key / 4294967296u64) as u8;
        let page_y: u16 = ((key / 65536u64) % 65536u64) as u16;
        let page_x: u16 = (key % 65536u64) as u16;
        let r = PageId { mip_level, page_y, page_x };
        let ghost p = choose|p: PageId| order_key(p) == key;
        assert(key == p.mip_level as nat * 4294967296 + p.page_y as nat * 65536 + p.page_x as nat);
        assert(r == p);
        r
    }
}

/// Canonical comparison: by mip level, then `page_y`, then `page_x`.
impl PartialOrd for PageId {
    fn partial_cmp(&self, other: &PageId) -> (r: Option<core::cmp::Ordering>) {
        let a = self.sort_key();
        let b = other.sort_key();
        if a < b {
            Some(core::cmp::Ordering::Less)
        } else if a == b {
            Some(core::cmp::Ordering::Equal)
        } else {
            Some(core::cmp::Ordering::Greater)
        }
    }
}

impl vstd::std_specs::cmp::PartialOrdSpecImpl for PageId {
    open spec fn obeys_partial_cmp_spec() -> bool {
        true
    }

    open spec fn partial_cmp_spec(&self, other: &PageId) -> Option<core::cmp::Ordering> {
        if precedes(*self, *other) {
            Some(core::cmp::Ordering::Less)
        } else if *self == *other {
            Some(core::cmp::Ordering::Equal)
        } else {
            Some(core::cmp::Ordering::Greater)
        }
    }
}

/// Decoding the packed form of a well-formed identifier gives its fields back.
pub proof fn lemma_decode_encode(page_x: nat, page_y: nat, mip_level: nat)
    requires
        page_x < PAGE_COORD_LIMIT,
        page_y < PAGE_COORD_LIMIT,
        mip_level < MIP_LEVEL_LIMIT,
    ensures
        packed_page_x(packed_bytes(page_x, page_y, mip_level)) == page_x,
        packed_page_y(packed_bytes(page_x, page_y, mip_level)) == page_y,
        packed_mip_level(packed_bytes(page_x, page_y, mip_level)) == mip_level,
{
    let b = packed_bytes(page_x, page_y, mip_level);
    assert(b[0] as nat == page_x / 64);
    assert(b[1] as nat == (page_x % 64) * 4 + page_y / 4096);
    assert(b[2] as nat == (page_y / 16) % 256);
    assert(b[3] as nat == (page_y % 16) * 16 + mip_level);
}

/// Encoding the fields decoded from any four bytes gives the same bytes back:
/// the packed format has no unused bits.
pub proof fn lemma_encode_decode(b: Seq<u8>)
    requires
        b.len() == PAGE_ID_BYTES,
    ensures
        packed_page_x(b) < PAGE_COORD_LIMIT,
        packed_page_y(b) < PAGE_COORD_LIMIT,
        packed_mip_level(b) < MIP_LEVEL_LIMIT,
        packed_bytes(packed_page_x(b), packed_page_y(b), packed_mip_level(b)) =~= b,
{
}

/// Relies on `slice::sort_unstable`: the keys end in ascending order and are
/// a permutation of the keys before.
#[verifier::external_body]
fn sort_keys(keys: &mut Vec<u64>)
    ensures
        final(keys)@.to_multiset() == old(keys)@.to_multiset(),
        forall|i: int, j: int|
            0 <= i < j < final(keys)@.len() ==> final(keys)@[i] <= final(keys)@[j],
{
    keys.sort_unstable();
}

/// The distinct identifiers among `ids`, coarsest mip first: each appears
/// exactly once, in strictly descending canonical order.
pub fn reduce_page_ids(ids: &[PageId]) -> (r: Vec<PageId>)
    ensures
        forall|i: int, j: int| 0 <= i < j < r@.len() ==> precedes(r@[j], r@[i]),
        forall|p: PageId| r@.contains(p) <==> ids@.contains(p),
{
    let mut keys: Vec<u64> = Vec::new();
    let mut i: usize = 0;
    while i < ids.len()
        invariant
            i <= ids@.len(),
            keys@.len() == i,
            forall|j: int| 0 <= j < i ==> keys@[j] == order_key(#[trigger] ids@[j]),
        decreases ids@.len() - i,
    {
        keys.push(ids[i].sort_key());
        i = i + 1;
    }
    let ghost unsorted = keys@;
    sort_keys(&mut keys);
    proof {
        broadcast use vstd::seq_lib::to_multiset_contains;

        assert forall|k: u64| keys@.contains(k) <==> unsorted.contains(k) by {
            assert(keys@.contains(k) <==> keys@.to_multiset().count(k) > 0);
            assert(unsorted.contains(k) <==> unsorted.to_multiset().count(k) > 0);
        }
    }
    let mut out: Vec<PageId> = Vec::new();
    let mut i: usize = keys.len();
    while i > 0
        invariant
            i <= keys@.len(),
            forall|a: int, b: int| 0 <= a < b < keys@.len() ==> keys@[a] <= keys@[b],
            forall|k: u64| keys@.contains(k) <==> unsorted.contains(k),
            unsorted.len() == ids@.len(),
            forall|j: int| 0 <= j < ids@.len() ==> unsorted[j] == order_key(#[trigger] ids@[j]),
            forall|a: int, b: int| 0 <= a < b < out@.len() ==> precedes(out@[b], out@[a]),
            out@.len() > 0 <==> i < keys@.len(),
            out@.len() > 0 ==> order_key(out@.last()) == keys@[i as int],
            forall|p: PageId|
                out@.contains(p) <==> exists|j: int|
                    i <= j < keys@.len() && keys@[j] == order_key(p),
        decreases i,
    {
        i = i - 1;
        let k = keys[i];
        proof {
            assert(keys@.contains(k));
            assert(unsorted.contains(k));
            let j = choose|j: int| 0 <= j < unsorted.len() && unsorted[j] == k;
            assert(order_key(ids@[j]) == k);
        }
        let fresh = out.len() == 0 || out[out.len() - 1].sort_key() != k;
        if fresh {
            let p = PageId::from_sort_key(k);
            proof {
                if out@.len() > 0 {
                    assert(keys@[i as int] <= keys@[i + 1]);
                    assert(order_key(p) < order_key(out@.last()));
                    assert forall|a: int| 0 <= a < out@.len() implies precedes(p, out@[a]) by {
                        if a < out@.len() - 1 {
                            assert(precedes(out@.last(), out@[a]));
                        }
                    }
                }
            }
            let ghost prev = out@;
            out.push(p);
            proof {
                assert forall|q: PageId|
                    out@.contains(q) <==> exists|j: int|
                        i <= j < keys@.len() && keys@[j] == order_key(q) by {
                    if out@.contains(q) {
                        let n = choose|n: int| 0 <= n < out@.len() && out@[n] == q;
                        if n == out@.len() - 1 {
                            assert(keys@[i as int] == order_key(q));
                        } else {
                            assert(prev.contains(q)) by {
                                assert(prev[n] == q);
                            };
                        }
                    }
                    if exists|j: int| i <= j < keys@.len() && keys@[j] == order_key(q) {
                        let j = choose|j: int| i <= j < keys@.len() && keys@[j] == order_key(q);
                        if j == i {
                            lemma_order_key_injective(p, q);
                            assert(out@[out@.len() - 1] == q);
                        } else {
                            assert(prev.contains(q));
                            let n = choose|n: int| 0 <= n < prev.len() && prev[n] == q;
                            assert(out@[n] == q);
                        }
                    }
                }
            }
        } else {
            proof {
                assert forall|q: PageId|
                    out@.contains(q) <==> exists|j: int|
                        i <= j < keys@.len() && keys@[j] == order_key(q) by {
                    if exists|j: int| i <= j < keys@.len() && keys@[j] == order_key(q) {
                        let j = choose|j: int| i <= j < keys@.len() && keys@[j] == order_key(q);
                        if j == i {
                            assert(keys@[i + 1] == order_key(q));
                        }
                    }
                }
            }
        }
    }
    proof {
        assert forall|p: PageId| out@.contains(p) <==> ids@.contains(p) by {
            if out@.contains(p) {
                let j = choose|j: int| 0 <= j < keys@.len() && keys@[j] == order_key(p);
                assert(keys@.contains(keys@[j]));
                assert(unsorted.contains(keys@[j]));
                let n = choose|n: int| 0 <= n < unsorted.len() && unsorted[n] == keys@[j];
                lemma_order_key_injective(ids@[n], p);
                assert(ids@[n] == p);
            }
            if ids@.contains(p) {
                let n = choose|n: int| 0 <= n < ids@.len() && ids@[n] == p;
                assert(unsorted[n] == order_key(p));
                assert(unsorted.contains(order_key(p) as u64));
                let j = choose|j: int| 0 <= j < keys@.len() && keys@[j] == order_key(p) as u64;
            }
        }
    }
    out
}

/// Decodes every packed identifier of a feedback buffer and reduces them to
/// the distinct pages it references, coarsest mip first.
pub fn reduce_feedback(buffer: &[u8]) -> (r: Vec<PageId>)
    requires
        buffer@.len() % (PAGE_ID_BYTES as nat) == 0,
    ensures
        forall|i: int, j: int| 0 <= i < j < r@.len() ==> precedes(r@[j], r@[i]),
        forall|p: PageId|
            r@.contains(p) <==> exists|c: int|
                0 <= c < buffer@.len() / (PAGE_ID_BYTES as nat) && #[trigger] decodes_to(
                    buffer@.subrange(c * 4, c * 4 + 4),
                    p,
                ),
{
    let mut ids: Vec<PageId> = Vec::new();
    let len = buffer.len();
    let count = len / PAGE_ID_BYTES;
    let mut c: usize = 0;
    while c < count
        invariant
            len == buffer@.len(),
            count == buffer@.len() / 4,
            buffer@.len() % 4 == 0,
            c <= count,
            ids@.len() == c,
            forall|n: int| 0 <= n < c ==> decodes_to(buffer@.subrange(n * 4, n * 4 + 4), #[trigger] ids@[n]),
        decreases count - c,
    {
        assert(c * 4 + 4 <= buffer@.len()) by (nonlinear_arith)
            requires
                c < count,
                count == buffer@.len() / 4,
        ;
        let start = c * 4;
        let chunk = vstd::slice::slice_subrange(buffer, start, start + 4);
        let p = PageId::from_bytes(chunk);
        ids.push(p);
        c = c + 1;
    }
    let r = reduce_page_ids(ids.as_slice());
    proof {
        assert forall|p: PageId|
            r@.contains(p) <==> exists|c: int|
                0 <= c < buffer@.len() / 4 && #[trigger] decodes_to(
                    buffer@.subrange(c * 4, c * 4 + 4),
                    p,
                ) by {
            if r@.contains(p) {
                let n = choose|n: int| 0 <= n < ids@.len() && ids@[n] == p;
                assert(decodes_to(buffer@.subrange(n * 4, n * 4 + 4), ids@[n]));
            }
            if exists|c: int|
                0 <= c < buffer@.len() / 4 && #[trigger] decodes_to(
                    buffer@.subrange(c * 4, c * 4 + 4),
                    p,
                ) {
                let c = choose|c: int|
                    0 <= c < buffer@.len() / 4 && #[trigger] decodes_to(
                        buffer@.subrange(c * 4, c * 4 + 4),
                        p,
                    );
                assert(decodes_to(buffer@.subrange(c * 4, c * 4 + 4), ids@[c]));
                lemma_page_id_fields_determine(ids@[c], p);
                assert(ids@[c] == p);
            }
        }
    }
    r
}

/// `p` is what `PageId::from_bytes` decodes from `bytes`.
pub open spec fn decodes_to(bytes: Seq<u8>, p: PageId) -> bool {
    &&& p.page_x() == packed_page_x(bytes)
    &&& p.page_y() == packed_page_y(bytes)
    &&& p.mip_level() == packed_mip_level(bytes)
}

} // verus!
