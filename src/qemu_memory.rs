use vstd::prelude::*;
use crate::common::Error;
use crate::memory::{deterministic, read_result, MemoryView, MemoryViewFromArray};
use lru::LruCache;

verus! {

/// One window of guest physical memory: `gpa_extent` bytes from `gpa_start`,
/// held in host memory at `hva`.
#[derive(Clone, Copy, PartialEq, Eq, Structural, Debug)]
pub struct RamRange {
    gpa_start: usize,
    gpa_extent: usize,
    hva: usize,
}

/// The fields of a window.
pub struct RamRangeView {
    pub gpa_start: int,
    pub gpa_extent: int,
    pub hva: int,
}

impl View for RamRange {
    type V = RamRangeView;

    closed spec fn view(&self) -> RamRangeView {
        RamRangeView {
            gpa_start: self.gpa_start as int,
            gpa_extent: self.gpa_extent as int,
            hva: self.hva as int,
        }
    }
}

impl RamRange {
    pub fn new(gpa_start: usize, gpa_extent: usize, hva: usize) -> (r: Self)
        ensures
            r@ == (RamRangeView {
                gpa_start: gpa_start as int,
                gpa_extent: gpa_extent as int,
                hva: hva as int,
            }),
    {
        RamRange { gpa_start: gpa_start, gpa_extent: gpa_extent, hva: hva }
    }

    proof fn lemma_view(&self)
        ensures
            self@.gpa_start == self.gpa_start,
            self@.gpa_extent == self.gpa_extent,
            self@.hva == self.hva,
    {
    }
}

/// Windows sorted by start, not overlapping, each ending within the address space.
pub open spec fn ram_ranges_sorted(s: Seq<RamRange>) -> bool {
    &&& forall|i: int|
        0 <= i < s.len() ==> (#[trigger] s[i])@.gpa_start + s[i]@.gpa_extent <= usize::MAX
    &&& forall|i: int, j: int|
        0 <= i < j < s.len() ==> (#[trigger] s[i])@.gpa_start + s[i]@.gpa_extent
            <= (#[trigger] s[j])@.gpa_start
}

/// Whether window `r` holds guest physical address `a`.
pub open spec fn window_holds(r: RamRangeView, a: int) -> bool {
    r.gpa_start <= a < r.gpa_start + r.gpa_extent
}

/// Whether some window holds guest physical address `a`.
pub open spec fn in_some_window(s: Seq<RamRange>, a: int) -> bool {
    exists|i: int| 0 <= i < s.len() && window_holds(#[trigger] s[i]@, a)
}

/// Whether every byte of `[gpa, gpa + size)` lies in some window; an empty
/// request is never covered.
pub open spec fn covered(s: Seq<RamRange>, gpa: int, size: int) -> bool {
    &&& size > 0
    &&& forall|a: int| gpa <= a < gpa + size ==> #[trigger] in_some_window(s, a)
}

/// Whether window `r` is where a lookup of `[gpa_start, ..)` begins: it holds
/// `gpa_start` or starts after it.
pub open spec fn begins_span(r: RamRangeView, gpa_start: int) -> bool {
    window_holds(r, gpa_start) || r.gpa_start >= gpa_start
}

/// Whether window `r` starts before `gpa_end_excl`.
pub open spec fn within_span(r: RamRangeView, gpa_end_excl: int) -> bool {
    r.gpa_start < gpa_end_excl
}

/// Where the part of `[o, o + s)` that window `w` holds begins.
pub open spec fn piece_lo(w: RamRangeView, o: int) -> int {
    if o > w.gpa_start {
        o
    } else {
        w.gpa_start
    }
}

/// Where the part of `[o, o + s)` that window `w` holds ends.
pub open spec fn piece_hi(w: RamRangeView, o: int, s: int) -> int {
    if w.gpa_start + w.gpa_extent < o + s {
        w.gpa_start + w.gpa_extent
    } else {
        o + s
    }
}

/// Whether window `w` holds any byte of `[o, o + s)`.
pub open spec fn holds_piece(w: RamRangeView, o: int, s: int) -> bool {
    piece_lo(w, o) < piece_hi(w, o, s)
}

/// The host address of the part of `[o, ..)` that window `w` holds.
pub open spec fn piece_host_offset(w: RamRangeView, o: int) -> int {
    w.hva + (piece_lo(w, o) - w.gpa_start)
}

/// The LRU cache of the lru crate, held opaquely.
#[verifier::external_type_specification]
#[verifier::external_body]
#[verifier::reject_recursive_types(K)]
#[verifier::reject_recursive_types(V)]
#[verifier::reject_recursive_types(S)]
pub struct ExLruCache<K, V, S>(LruCache<K, V, S>);

/// The hasher that lru::LruCache uses by default, held opaquely.
#[verifier::external_type_specification]
#[verifier::external_body]
pub struct ExDefaultHasher(lru::DefaultHasher);

/// A cache of assembled blocks keyed by `(gpa, size)`.
pub type BlockCache = LruCache<BlockKey, Vec<u8>>;

/// A request: guest physical address and size.
pub type BlockKey = (usize, usize);

/// The blocks a cache holds, by `(gpa, size)`.
pub uninterp spec fn cache_entries(c: BlockCache) -> Map<BlockKey, Seq<u8>>;

/// Relies on lru::LruCache::new: a new cache holds nothing.
#[verifier::external_body]
fn cache_new(cap: usize) -> (r: BlockCache)
    requires
        cap > 0,
    ensures
        forall|k: BlockKey| !(#[trigger] cache_entries(r).contains_key(k)),
{
    LruCache::new(std::num::NonZeroUsize::new(cap).unwrap())
}

/// Relies on lru::LruCache::get: it returns the value held for the key, if
/// any, and changes only the recency order.
#[verifier::external_body]
fn cache_get(c: &mut BlockCache, key: BlockKey) -> (r: Option<
    Vec<u8>,
>)
    ensures
        cache_entries(*final(c)) == cache_entries(*old(c)),
        match r {
            Some(v) => cache_entries(*old(c)).contains_key(key) && v@ == cache_entries(
                *old(c),
            )[key],
            None => !cache_entries(*old(c)).contains_key(key),
        },
{
    c.get(&key).cloned()
}

/// Relies on lru::LruCache::put: afterwards the key holds the value; any
/// other entry either stays as it was or was evicted.
#[verifier::external_body]
fn cache_put(c: &mut BlockCache, key: BlockKey, value: Vec<u8>)
    ensures
        cache_entries(*final(c)).contains_key(key),
        cache_entries(*final(c))[key] == value@,
        forall|k: BlockKey|
            #[trigger] cache_entries(*final(c)).contains_key(k) && k != key ==> cache_entries(
                *old(c),
            ).contains_key(k) && cache_entries(*final(c))[k] == cache_entries(*old(c))[k],
{
    c.put(key, value);
}

/// Relies on the Clone impl of lru::LruCache: the copy holds the same entries.
#[verifier::external_body]
fn cache_clone(c: &BlockCache) -> (r: BlockCache)
    ensures
        cache_entries(r) == cache_entries(*c),
{
    c.clone()
}

/// Number of blocks the cache keeps.
pub const CACHE_CAPACITY: usize = 2048;

/// Guest physical memory made of sparse windows into a host memory view,
/// fronted by an LRU cache of whole requests.
pub struct QemuMemoryView<H: MemoryView> {
    sorted_ram_ranges: Vec<RamRange>,
    host: H,
    use_cache: bool,
    cache: BlockCache,
}

impl<H: MemoryView> QemuMemoryView<H> {
    /// Sorted windows, a consistent host, and a cache that holds only blocks
    /// of the requested size whose every byte lies in a window.
    pub closed spec fn wf(&self) -> bool {
        &&& self.host.inv()
        &&& ram_ranges_sorted(self.sorted_ram_ranges@)
        &&& forall|key: BlockKey|
            #[trigger] cache_entries(self.cache).contains_key(key) ==> self.fresh_admits(
                key.0 as int,
                key.1 as int,
                Some(cache_entries(self.cache)[key]),
            )
    }

    /// The host view that the windows read from.
    pub closed spec fn host_view(&self) -> H {
        self.host
    }

    /// What a read of `[o, o + s)` may return, going to the host: bytes when
    /// every byte lies in a window, each window's part being an outcome the
    /// host admits for its read at the window's host address; a failure when
    /// some byte lies in no window, the request or a host address leaves the
    /// address space, or some host read may fail.
    pub open spec fn fresh_admits(&self, o: int, s: int, out: Option<Seq<u8>>) -> bool {
        let rs = self.ram_ranges();
        match out {
            Some(b) => {
                &&& b.len() == s
                &&& o + s <= usize::MAX
                &&& covered(rs, o, s)
                &&& forall|i: int|
                    0 <= i < rs.len() && holds_piece(#[trigger] rs[i]@, o, s) ==> {
                        &&& piece_host_offset(rs[i]@, o) <= usize::MAX
                        &&& self.host_view().admits(
                            piece_host_offset(rs[i]@, o),
                            piece_hi(rs[i]@, o, s) - piece_lo(rs[i]@, o),
                            Some(b.subrange(piece_lo(rs[i]@, o) - o, piece_hi(rs[i]@, o, s) - o)),
                        )
                    }
            },
            None => {
                ||| o + s > usize::MAX
                ||| !covered(rs, o, s)
                ||| exists|i: int|
                    0 <= i < rs.len() && holds_piece(#[trigger] rs[i]@, o, s) && (
                    piece_host_offset(rs[i]@, o) > usize::MAX || self.host_view().admits(
                        piece_host_offset(rs[i]@, o),
                        piece_hi(rs[i]@, o, s) - piece_lo(rs[i]@, o),
                        None,
                    ))
            },
        }
    }

    /// The windows, sorted by start.
    pub closed spec fn ram_ranges(&self) -> Seq<RamRange> {
        self.sorted_ram_ranges@
    }

    /// Whether reads go through the cache.
    pub closed spec fn caching(&self) -> bool {
        self.use_cache
    }

    /// The blocks held by the cache.
    pub closed spec fn cached(&self) -> Map<BlockKey, Seq<u8>> {
        cache_entries(self.cache)
    }

    /// A view over `host` with the given windows; `use_cache` turns on the cache.
    pub fn new(host: H, sorted_ram_ranges: &Vec<RamRange>, use_cache: bool) -> (r: Self)
        requires
            ram_ranges_sorted(sorted_ram_ranges@),
            host.inv(),
        ensures
            r.wf(),
            r.host_view() == host,
            r.ram_ranges() == sorted_ram_ranges@,
            r.caching() == use_cache,
            forall|k: BlockKey| !(#[trigger] r.cached().contains_key(k)),
    {
        let mut ranges: Vec<RamRange> = Vec::new();
        let mut i: usize = 0;
        while i < sorted_ram_ranges.len()
            invariant
                i <= sorted_ram_ranges@.len(),
                ranges@ == sorted_ram_ranges@.subrange(0, i as int),
            decreases sorted_ram_ranges@.len() - i,
        {
            ranges.push(sorted_ram_ranges[i]);
            i += 1;
            proof {
                assert(ranges@ =~= sorted_ram_ranges@.subrange(0, i as int));
            }
        }
        proof {
            assert(ranges@ =~= sorted_ram_ranges@);
        }
        QemuMemoryView {
            sorted_ram_ranges: ranges,
            host: host,
            use_cache: use_cache,
            cache: cache_new(CACHE_CAPACITY),
        }
    }

    /// A view over another host handle with the same windows, whose cache
    /// starts as a copy of this one's.
    pub fn clone_with_host(&self, host: H) -> (r: Self)
        requires
            self.wf(),
            host.inv(),
            forall|o: int, s: int, out: Option<Seq<u8>>| #[trigger] host.admits(o, s, out)
                == self.host_view().admits(o, s, out),
        ensures
            r.wf(),
            r.host_view() == host,
            r.ram_ranges() == self.ram_ranges(),
            r.caching() == self.caching(),
            r.cached() == self.cached(),
    {
        let mut ranges: Vec<RamRange> = Vec::new();
        let mut i: usize = 0;
        while i < self.sorted_ram_ranges.len()
            invariant
                i <= self.sorted_ram_ranges@.len(),
                ranges@ == self.sorted_ram_ranges@.subrange(0, i as int),
            decreases self.sorted_ram_ranges@.len() - i,
        {
            ranges.push(self.sorted_ram_ranges[i]);
            i += 1;
            proof {
                assert(ranges@ =~= self.sorted_ram_ranges@.subrange(0, i as int));
            }
        }
        proof {
            assert(ranges@ =~= self.sorted_ram_ranges@);
        }
        let r = QemuMemoryView {
            sorted_ram_ranges: ranges,
            host: host,
            use_cache: self.use_cache,
            cache: cache_clone(&self.cache),
        };
        proof {
            lemma_fresh_admits_same(r, *self);
        }
        r
    }

    /// The indices of the first and last window that a request for
    /// `[gpa_start, gpa_end_excl)` touches: the first window that holds
    /// `gpa_start` or starts after it, and the last that starts before
    /// `gpa_end_excl`. None for an empty request or when no window qualifies.
    pub fn find_phys_ranges(&self, gpa_start: usize, gpa_end_excl: usize) -> (r: Option<
        (usize, usize),
    >)
        requires
            self.wf(),
        ensures
            gpa_start >= gpa_end_excl ==> r is None,
            r matches Some((s, e)) ==> {
                &&& gpa_start < gpa_end_excl
                &&& s <= e < self.ram_ranges().len()
                &&& begins_span(self.ram_ranges()[s as int]@, gpa_start as int)
                &&& forall|j: int|
                    0 <= j < s ==> !begins_span(
                        #[trigger] self.ram_ranges()[j]@,
                        gpa_start as int,
                    )
                &&& within_span(self.ram_ranges()[e as int]@, gpa_end_excl as int)
                &&& forall|j: int|
                    e < j < self.ram_ranges().len() ==> !within_span(
                        #[trigger] self.ram_ranges()[j]@,
                        gpa_end_excl as int,
                    )
            },
            (r is None && gpa_start < gpa_end_excl) ==> forall|i: int, j: int|
                0 <= i < self.ram_ranges().len() && 0 <= j < self.ram_ranges().len()
                    && begins_span(#[trigger] self.ram_ranges()[i]@, gpa_start as int)
                    && within_span(#[trigger] self.ram_ranges()[j]@, gpa_end_excl as int) ==> i > j,
    {
        if gpa_start >= gpa_end_excl {
            return None;
        }
        let ghost rs = self.sorted_ram_ranges@;
        let mut start_result: Option<usize> = None;
        let mut end_result: Option<usize> = None;
        let mut i: usize = 0;
        while i < self.sorted_ram_ranges.len()
            invariant
                self.wf(),
                rs == self.sorted_ram_ranges@,
                ram_ranges_sorted(rs),
                i <= rs.len(),
                match start_result {
                    Some(s) => s < i && begins_span(rs[s as int]@, gpa_start as int) && forall|
                        j: int,
                    |
                        0 <= j < s ==> !begins_span(#[trigger] rs[j]@, gpa_start as int),
                    None => forall|j: int|
                        0 <= j < i ==> !begins_span(#[trigger] rs[j]@, gpa_start as int),
                },
                match end_result {
                    Some(e) => e < i && within_span(rs[e as int]@, gpa_end_excl as int) && forall|
                        j: int,
                    |
                        e < j < i ==> !within_span(#[trigger] rs[j]@, gpa_end_excl as int),
                    None => forall|j: int|
                        0 <= j < i ==> !within_span(#[trigger] rs[j]@, gpa_end_excl as int),
                },
            decreases rs.len() - i,
        {
            let ram_range = self.sorted_ram_ranges[i];
            proof {
                ram_range.lemma_view();
                assert(ram_range.gpa_start + ram_range.gpa_extent <= usize::MAX);
            }
            if start_result.is_none() && ((ram_range.gpa_start <= gpa_start
                && ram_range.gpa_start + ram_range.gpa_extent > gpa_start)
                || ram_range.gpa_start >= gpa_start) {
                start_result = Some(i);
            }
            if ram_range.gpa_start < gpa_end_excl {
                end_result = Some(i);
            }
            i += 1;
        }
        proof {
            assert(self.ram_ranges() == rs);
        }
        match (start_result, end_result) {
            (Some(start), Some(end)) => {
                if start <= end {
                    Some((start, end))
                } else {
                    None
                }
            },
            _ => None,
        }
    }
}

/// Copies the first `len` bytes of `src` into `dst` from index `at`.
fn copy_into(dst: &mut [u8], at: usize, src: &Vec<u8>, len: usize)
    requires
        at + len <= old(dst)@.len(),
        len <= src@.len(),
    ensures
        final(dst)@.len() == old(dst)@.len(),
        final(dst)@.subrange(at as int, at + len) == src@.subrange(0, len as int),
        forall|k: int|
            0 <= k < old(dst)@.len() && !(at <= k < at + len) ==> #[trigger] final(dst)@[k]
                == old(dst)@[k],
{
    let n = dst.len();
    let mut i: usize = 0;
    while i < len
        invariant
            n == dst@.len(),
            at + len <= dst@.len(),
            dst@.len() == old(dst)@.len(),
            len <= src@.len(),
            i <= len,
            dst@.subrange(at as int, at + i) == src@.subrange(0, i as int),
            forall|k: int|
                0 <= k < dst@.len() && !(at <= k < at + i) ==> #[trigger] dst@[k] == old(dst)@[k],
        decreases len - i,
    {
        dst[at + i] = src[i];
        i += 1;
        proof {
            assert(dst@.subrange(at as int, at + i) =~= src@.subrange(0, i as int));
        }
    }
}

/// Whether every successful outcome that `m` admits for a read at a
/// non-negative offset has the requested length.
pub open spec fn sized_reads<M: MemoryView>(m: M) -> bool {
    forall|o: int, s: int, b: Seq<u8>|
        0 <= o && 0 <= s && #[trigger] m.admits(o, s, Some(b)) ==> b.len() == s
}

/// Successful reads of an in-memory buffer have the requested length.
pub proof fn lemma_array_view_sized_reads(m: MemoryViewFromArray)
    ensures
        sized_reads(m),
{
}

proof fn lemma_one_window(rs: Seq<RamRange>, i: int, j: int, a: int)
    requires
        ram_ranges_sorted(rs),
        0 <= i < rs.len(),
        0 <= j < rs.len(),
        window_holds(rs[i]@, a),
        window_holds(rs[j]@, a),
    ensures
        i == j,
{
    if i < j {
        assert(rs[i]@.gpa_start + rs[i]@.gpa_extent <= rs[j]@.gpa_start);
    } else if j < i {
        assert(rs[j]@.gpa_start + rs[j]@.gpa_extent <= rs[i]@.gpa_start);
    }
}

/// A sparse view over a host whose reads each have one outcome, of the
/// requested length, has reads with one outcome each too.
pub proof fn lemma_sparse_view_deterministic<H: MemoryView>(v: QemuMemoryView<H>)
    requires
        v.wf(),
        deterministic(v.host_view()),
        sized_reads(v.host_view()),
    ensures
        deterministic(v),
{
    let rs = v.ram_ranges();
    let host = v.host_view();
    assert(ram_ranges_sorted(rs));
    assert forall|o: int, s: int, x: Option<Seq<u8>>, y: Option<Seq<u8>>|
        #[trigger] v.admits(o, s, x) && #[trigger] v.admits(o, s, y) implies x == y by {
        match (x, y) {
            (Some(b1), Some(b2)) => {
                assert forall|k: int| 0 <= k < s implies b1[k] == b2[k] by {
                    assert(in_some_window(rs, o + k));
                    let i = choose|i: int| 0 <= i < rs.len() && window_holds(#[trigger] rs[i]@, o + k);
                    assert(holds_piece(rs[i]@, o, s));
                    let lo = piece_lo(rs[i]@, o);
                    let hi = piece_hi(rs[i]@, o, s);
                    let off = piece_host_offset(rs[i]@, o);
                    assert(host.admits(off, hi - lo, Some(b1.subrange(lo - o, hi - o))));
                    assert(host.admits(off, hi - lo, Some(b2.subrange(lo - o, hi - o))));
                    assert(b1.subrange(lo - o, hi - o)[o + k - lo] == b1[k]);
                    assert(b2.subrange(lo - o, hi - o)[o + k - lo] == b2[k]);
                }
                assert(b1 =~= b2);
            },
            (Some(b), None) => {
                if exists|i: int|
                    0 <= i < rs.len() && holds_piece(#[trigger] rs[i]@, o, s) && (
                    piece_host_offset(rs[i]@, o) > usize::MAX || host.admits(
                        piece_host_offset(rs[i]@, o),
                        piece_hi(rs[i]@, o, s) - piece_lo(rs[i]@, o),
                        None,
                    )) {
                    let i = choose|i: int|
                        0 <= i < rs.len() && holds_piece(#[trigger] rs[i]@, o, s) && (
                        piece_host_offset(rs[i]@, o) > usize::MAX || host.admits(
                            piece_host_offset(rs[i]@, o),
                            piece_hi(rs[i]@, o, s) - piece_lo(rs[i]@, o),
                            None,
                        ));
                    assert(host.admits(
                        piece_host_offset(rs[i]@, o),
                        piece_hi(rs[i]@, o, s) - piece_lo(rs[i]@, o),
                        Some(b.subrange(piece_lo(rs[i]@, o) - o, piece_hi(rs[i]@, o, s) - o)),
                    ));
                }
            },
            (None, Some(b)) => {
                if exists|i: int|
                    0 <= i < rs.len() && holds_piece(#[trigger] rs[i]@, o, s) && (
                    piece_host_offset(rs[i]@, o) > usize::MAX || host.admits(
                        piece_host_offset(rs[i]@, o),
                        piece_hi(rs[i]@, o, s) - piece_lo(rs[i]@, o),
                        None,
                    )) {
                    let i = choose|i: int|
                        0 <= i < rs.len() && holds_piece(#[trigger] rs[i]@, o, s) && (
                        piece_host_offset(rs[i]@, o) > usize::MAX || host.admits(
                            piece_host_offset(rs[i]@, o),
                            piece_hi(rs[i]@, o, s) - piece_lo(rs[i]@, o),
                            None,
                        ));
                    assert(host.admits(
                        piece_host_offset(rs[i]@, o),
                        piece_hi(rs[i]@, o, s) - piece_lo(rs[i]@, o),
                        Some(b.subrange(piece_lo(rs[i]@, o) - o, piece_hi(rs[i]@, o, s) - o)),
                    ));
                }
            },
            (None, None) => {},
        }
    }
    assert forall|o: int, s: int| #[trigger] v.admits(o, s, read_result(v, o, s)) by {
        if !v.admits(o, s, None) {
            let piece = |a: int| {
                let i = choose|i: int| 0 <= i < rs.len() && window_holds(#[trigger] rs[i]@, a);
                let got = read_result(
                    host,
                    piece_host_offset(rs[i]@, o),
                    piece_hi(rs[i]@, o, s) - piece_lo(rs[i]@, o),
                );
                got->Some_0[a - piece_lo(rs[i]@, o)]
            };
            let b = Seq::new(s as nat, |k: int| piece(o + k));
            assert forall|i: int| 0 <= i < rs.len() && holds_piece(#[trigger] rs[i]@, o, s) implies {
                &&& piece_host_offset(rs[i]@, o) <= usize::MAX
                &&& host.admits(
                    piece_host_offset(rs[i]@, o),
                    piece_hi(rs[i]@, o, s) - piece_lo(rs[i]@, o),
                    Some(b.subrange(piece_lo(rs[i]@, o) - o, piece_hi(rs[i]@, o, s) - o)),
                )
            } by {
                let lo = piece_lo(rs[i]@, o);
                let hi = piece_hi(rs[i]@, o, s);
                let off = piece_host_offset(rs[i]@, o);
                let got = read_result(host, off, hi - lo);
                assert(host.admits(off, hi - lo, got));
                assert(got is Some);
                assert(got->Some_0.len() == hi - lo);
                assert forall|k: int| 0 <= k < hi - lo implies b.subrange(lo - o, hi - o)[k]
                    == got->Some_0[k] by {
                    let a = lo + k;
                    assert(window_holds(rs[i]@, a));
                    let j = choose|j: int| 0 <= j < rs.len() && window_holds(#[trigger] rs[j]@, a);
                    lemma_one_window(rs, i, j, a);
                    assert(b[a - o] == piece(a));
                }
                assert(b.subrange(lo - o, hi - o) =~= got->Some_0);
            }
            assert(v.admits(o, s, Some(b)));
        }
    }
}

/// Reads through two views give the same outcomes when their windows are the
/// same and their hosts admit the same outcomes.
proof fn lemma_fresh_admits_same<H: MemoryView>(a: QemuMemoryView<H>, b: QemuMemoryView<H>)
    requires
        a.ram_ranges() == b.ram_ranges(),
        forall|o: int, s: int, out: Option<Seq<u8>>| #[trigger] a.host_view().admits(o, s, out)
            == b.host_view().admits(o, s, out),
    ensures
        forall|o: int, s: int, out: Option<Seq<u8>>| #[trigger] a.fresh_admits(o, s, out)
            == b.fresh_admits(o, s, out),
{
}

impl<H: MemoryView> MemoryView for QemuMemoryView<H> {
    open spec fn inv(&self) -> bool {
        self.wf()
    }

    open spec fn admits(&self, offset: int, size: int, out: Option<Seq<u8>>) -> bool {
        self.fresh_admits(offset, size, out)
    }

    /// A cached request is answered from the cache.
    fn read_block(&mut self, offset: usize, block_size: usize) -> (r: Result<Vec<u8>, Error>)
        ensures
            old(self).caching() && old(self).cached().contains_key((offset, block_size)) ==> r
                == Ok::<Vec<u8>, Error>(r->Ok_0) && r->Ok_0@ == old(self).cached()[(
                offset,
                block_size,
            )],
            final(self).ram_ranges() == old(self).ram_ranges(),
            final(self).caching() == old(self).caching(),
    {
        let mut block: Vec<u8> = vec![0u8; block_size];
        match self.read_block_inplace(offset, block_size, block.as_mut_slice()) {
            Ok(_) => {
                proof {
                    assert(block@.subrange(0, block_size as int) =~= block@);
                }
                Ok(block)
            },
            Err(e) => Err(e),
        }
    }

    /// A cached request is answered from the cache.
    fn read_block_inplace(&mut self, offset: usize, block_size: usize, block: &mut [u8]) -> (r:
        Result<(), Error>)
        ensures
            old(self).caching() && old(self).cached().contains_key((offset, block_size)) ==> r
                is Ok && final(block)@.subrange(0, block_size as int) == old(self).cached()[(
                offset,
                block_size,
            )],
            final(self).ram_ranges() == old(self).ram_ranges(),
            final(self).caching() == old(self).caching(),
    {
        let gpa = offset;
        let ghost rs = self.sorted_ram_ranges@;
        let ghost old_view = *self;
        if self.use_cache {
            match cache_get(&mut self.cache, (gpa, block_size)) {
                Some(v) => {
                    proof {
                        lemma_fresh_admits_same(*self, old_view);
                    }
                    copy_into(block, 0, &v, block_size);
                    proof {
                        assert(cache_entries(old_view.cache).contains_key((gpa, block_size)));
                        assert(old_view.fresh_admits(gpa as int, block_size as int, Some(v@)));
                        assert(v@.subrange(0, block_size as int) =~= v@);
                    }
                    return Ok(());
                },
                None => {},
            }
        }
        proof {
            lemma_fresh_admits_same(*self, old_view);
        }
        if block_size == 0 || gpa > usize::MAX - block_size {
            return Err(Error::FailedToReadBlock);
        }
        let end = gpa + block_size;
        let (first, last) = match self.find_phys_ranges(gpa, end) {
            Some(span) => span,
            None => {
                proof {
                    if covered(rs, gpa as int, block_size as int) {
                        assert(in_some_window(rs, gpa as int));
                        let i = choose|i: int| 0 <= i < rs.len() && window_holds(#[trigger] rs[i]@, gpa as int);
                        assert(begins_span(rs[i]@, gpa as int));
                        assert(within_span(rs[i]@, end as int));
                    }
                }
                return Err(Error::FailedToReadBlock);
            },
        };
        let ghost cache1 = self.cache;
        let nranges = self.sorted_ram_ranges.len();
        let mut pos: usize = gpa;
        let mut index: usize = first;
        while index <= last && pos < end
            invariant
                self.wf(),
                gpa == offset,
                old_view == *old(self),
                self.cache == cache1,
                old_view.use_cache ==> !cache_entries(old_view.cache).contains_key((gpa, block_size)),
                cache_entries(cache1) == cache_entries(old_view.cache),
                begins_span(rs[first as int]@, gpa as int),
                self.use_cache == old_view.use_cache,
                rs == self.sorted_ram_ranges@,
                rs == old_view.sorted_ram_ranges@,
                forall|o: int, s: int, out: Option<Seq<u8>>| #[trigger] self.host.admits(o, s, out)
                    == old_view.host.admits(o, s, out),
                ram_ranges_sorted(rs),
                nranges == rs.len(),
                first <= index <= last + 1,
                last < rs.len(),
                end == gpa + block_size,
                block_size > 0,
                gpa <= pos <= end,
                block@.len() == old(block)@.len(),
                block_size <= block@.len(),
                forall|a: int| gpa <= a < pos ==> #[trigger] in_some_window(rs, a),
                forall|j: int| 0 <= j < first ==> !begins_span(#[trigger] rs[j]@, gpa as int),
                forall|j: int| last < j < rs.len() ==> !within_span(#[trigger] rs[j]@, end as int),
                (index == first && pos == gpa) || forall|j: int|
                    index <= j < rs.len() ==> (#[trigger] rs[j]@).gpa_start >= pos,
                pos < end ==> forall|j: int|
                    first <= j < index ==> (#[trigger] rs[j]@).gpa_start + rs[j]@.gpa_extent <= pos,
                forall|j: int|
                    first <= j < index && holds_piece(#[trigger] rs[j]@, gpa as int, block_size as int)
                        ==> {
                        &&& piece_hi(rs[j]@, gpa as int, block_size as int) <= pos
                        &&& piece_host_offset(rs[j]@, gpa as int) <= usize::MAX
                        &&& old_view.host.admits(
                            piece_host_offset(rs[j]@, gpa as int),
                            piece_hi(rs[j]@, gpa as int, block_size as int) - piece_lo(rs[j]@, gpa as int),
                            Some(block@.subrange(
                                piece_lo(rs[j]@, gpa as int) - gpa,
                                piece_hi(rs[j]@, gpa as int, block_size as int) - gpa,
                            )),
                        )
                    },
            decreases last + 1 - index,
        {
            let w = self.sorted_ram_ranges[index];
            proof {
                w.lemma_view();
            }
            if w.gpa_start > pos {
                proof {
                    assert forall|j: int| 0 <= j < rs.len() implies !window_holds(#[trigger] rs[j]@, pos as int) by {
                        if j < first {
                            assert(!begins_span(rs[j]@, gpa as int));
                        } else if j < index {
                        } else if j > index {
                            assert(rs[index as int]@.gpa_start + rs[index as int]@.gpa_extent <= rs[j]@.gpa_start);
                        }
                    }
                    assert(!in_some_window(rs, pos as int));
                    assert(!covered(rs, gpa as int, block_size as int));
                    assert(old_view.fresh_admits(gpa as int, block_size as int, None));
                    lemma_fresh_admits_same(*self, old_view);
                }
                return Err(Error::FailedToReadBlock);
            }
            let w_end = w.gpa_start + w.gpa_extent;
            if w_end > pos {
                let chunk_end = if w_end < end {
                    w_end
                } else {
                    end
                };
                let len = chunk_end - pos;
                let within = pos - w.gpa_start;
                proof {
                    assert(piece_lo(rs[index as int]@, gpa as int) == pos);
                    assert(piece_hi(rs[index as int]@, gpa as int, block_size as int) == chunk_end);
                    assert(holds_piece(rs[index as int]@, gpa as int, block_size as int));
                }
                if w.hva > usize::MAX - within {
                    proof {
                        assert(holds_piece(rs[index as int]@, gpa as int, block_size as int)
                            && piece_host_offset(rs[index as int]@, gpa as int) > usize::MAX);
                        assert(old_view.fresh_admits(gpa as int, block_size as int, None));
                        lemma_fresh_admits_same(*self, old_view);
                    }
                    return Err(Error::FailedToReadBlock);
                }
                let ghost before = block@;
                match self.host.read_block(w.hva + within, len) {
                    Ok(bytes) => {
                        copy_into(block, pos - gpa, &bytes, len);
                        proof {
                            assert(bytes@.subrange(0, len as int) =~= bytes@);
                            assert forall|j: int|
                                first <= j < index && holds_piece(#[trigger] rs[j]@, gpa as int, block_size as int)
                                implies block@.subrange(
                                    piece_lo(rs[j]@, gpa as int) - gpa,
                                    piece_hi(rs[j]@, gpa as int, block_size as int) - gpa,
                                ) == before.subrange(
                                    piece_lo(rs[j]@, gpa as int) - gpa,
                                    piece_hi(rs[j]@, gpa as int, block_size as int) - gpa,
                                ) by {
                                assert(block@.subrange(
                                    piece_lo(rs[j]@, gpa as int) - gpa,
                                    piece_hi(rs[j]@, gpa as int, block_size as int) - gpa,
                                ) =~= before.subrange(
                                    piece_lo(rs[j]@, gpa as int) - gpa,
                                    piece_hi(rs[j]@, gpa as int, block_size as int) - gpa,
                                ));
                            }
                        }
                    },
                    Err(_) => {
                        proof {
                            assert(holds_piece(rs[index as int]@, gpa as int, block_size as int));
                            assert(old_view.host.admits(
                                piece_host_offset(rs[index as int]@, gpa as int),
                                piece_hi(rs[index as int]@, gpa as int, block_size as int)
                                    - piece_lo(rs[index as int]@, gpa as int),
                                None,
                            ));
                            assert(old_view.fresh_admits(gpa as int, block_size as int, None));
                            lemma_fresh_admits_same(*self, old_view);
                        }
                        return Err(Error::FailedToReadBlock);
                    },
                }
                proof {
                    assert forall|a: int| gpa <= a < chunk_end implies #[trigger] in_some_window(
                        rs,
                        a,
                    ) by {
                        if a >= pos {
                            assert(window_holds(rs[index as int]@, a));
                        }
                    }
                }
                pos = chunk_end;
            } else {
                proof {
                    assert(!holds_piece(rs[index as int]@, gpa as int, block_size as int));
                }
            }
            proof {
                assert forall|j: int| index < j < rs.len() implies (#[trigger] rs[j]@).gpa_start >= pos by {
                    assert(rs[index as int]@.gpa_start + rs[index as int]@.gpa_extent <= rs[j]@.gpa_start);
                    if index == first && w_end <= gpa {
                        assert(begins_span(rs[index as int]@, gpa as int));
                    }
                }
            }
            index += 1;
        }
        if pos < end {
            proof {
                assert forall|j: int| 0 <= j < rs.len() implies !window_holds(#[trigger] rs[j]@, pos as int) by {
                    if j < first {
                        assert(!begins_span(rs[j]@, gpa as int));
                    } else if j > last {
                        assert(!within_span(rs[j]@, end as int));
                    }
                }
                assert(!in_some_window(rs, pos as int));
            }
            return Err(Error::FailedToReadBlock);
        }
        proof {
            assert forall|i: int|
                0 <= i < rs.len() && holds_piece(#[trigger] rs[i]@, gpa as int, block_size as int) implies {
                &&& piece_host_offset(rs[i]@, gpa as int) <= usize::MAX
                &&& old_view.host.admits(
                    piece_host_offset(rs[i]@, gpa as int),
                    piece_hi(rs[i]@, gpa as int, block_size as int) - piece_lo(rs[i]@, gpa as int),
                    Some(block@.subrange(0, block_size as int).subrange(
                        piece_lo(rs[i]@, gpa as int) - gpa,
                        piece_hi(rs[i]@, gpa as int, block_size as int) - gpa,
                    )),
                )
            } by {
                if i < first {
                    assert(!begins_span(rs[i]@, gpa as int));
                } else if i >= index {
                    assert(rs[i]@.gpa_start >= pos);
                } else {
                    assert(block@.subrange(0, block_size as int).subrange(
                        piece_lo(rs[i]@, gpa as int) - gpa,
                        piece_hi(rs[i]@, gpa as int, block_size as int) - gpa,
                    ) =~= block@.subrange(
                        piece_lo(rs[i]@, gpa as int) - gpa,
                        piece_hi(rs[i]@, gpa as int, block_size as int) - gpa,
                    ));
                }
            }
            assert(old_view.fresh_admits(gpa as int, block_size as int, Some(block@.subrange(0, block_size as int))));
        }
        if self.use_cache {
            let mut copy: Vec<u8> = Vec::with_capacity(block_size);
            let mut i: usize = 0;
            while i < block_size
                invariant
                    block_size <= block@.len(),
                    i <= block_size,
                    copy@ == block@.subrange(0, i as int),
                decreases block_size - i,
            {
                copy.push(block[i]);
                i += 1;
                proof {
                    assert(copy@ =~= block@.subrange(0, i as int));
                }
            }
            let ghost before_put = *self;
            cache_put(&mut self.cache, (gpa, block_size), copy);
            proof {
                lemma_fresh_admits_same(*self, old_view);
                lemma_fresh_admits_same(before_put, old_view);
            }
        }
        proof {
            lemma_fresh_admits_same(*self, old_view);
        }
        Ok(())
    }
}

} // verus!
