use vstd::prelude::*;
use crate::common::{all_phys_wf, lemma_phys_sum_nonneg, lemma_phys_sum_prefix, phys_sum, PhysRange};
use crate::filter::lemma_filter_subsequence;
use crate::memory::{deterministic, read_result, reads_follow, MemoryView};
use crate::page_range::GenericPageRange;

verus! {

/// Whether `needle` occurs in `haystack` at offset `i`.
pub open spec fn matches_at(haystack: Seq<u8>, needle: Seq<u8>, i: int) -> bool {
    0 <= i && i + needle.len() <= haystack.len() && haystack.subrange(i, i + needle.len())
        == needle
}

/// Offsets of the leftmost non-overlapping occurrences of a non-empty
/// `needle` in `haystack` at or after `pos`, in increasing order.
pub open spec fn occurrences_from(haystack: Seq<u8>, needle: Seq<u8>, pos: int) -> Seq<int>
    decreases haystack.len() - pos,
{
    if needle.len() == 0 || pos < 0 || pos + needle.len() > haystack.len() {
        Seq::empty()
    } else if matches_at(haystack, needle, pos) {
        seq![pos] + occurrences_from(haystack, needle, pos + needle.len())
    } else {
        occurrences_from(haystack, needle, pos + 1)
    }
}

/// Relies on memchr::memmem::find_iter: it yields the start offsets of the
/// leftmost non-overlapping occurrences of the needle, left to right.
#[verifier::external_body]
fn find_occurrences(haystack: &[u8], needle: &[u8]) -> (r: Vec<usize>)
    requires
        needle@.len() > 0,
    ensures
        r@.map_values(|o: usize| o as int) == occurrences_from(haystack@, needle@, 0),
{
    memchr::memmem::find_iter(haystack, needle).collect()
}

proof fn lemma_occurrences_ordered(haystack: Seq<u8>, needle: Seq<u8>, pos: int)
    requires
        pos >= 0,
    ensures
        ({
            let s = occurrences_from(haystack, needle, pos);
            &&& forall|k: int|
                0 <= k < s.len() ==> pos <= #[trigger] s[k] && s[k] + needle.len()
                    <= haystack.len()
            &&& forall|k: int, l: int| 0 <= k < l < s.len() ==> #[trigger] s[k] < #[trigger] s[l]
        }),
    decreases haystack.len() - pos,
{
    if needle.len() == 0 || pos + needle.len() > haystack.len() {
        assert(occurrences_from(haystack, needle, pos).len() == 0);
    } else if matches_at(haystack, needle, pos) {
        lemma_occurrences_ordered(haystack, needle, pos + needle.len());
        let rest = occurrences_from(haystack, needle, pos + needle.len());
        let s = occurrences_from(haystack, needle, pos);
        assert(s == seq![pos] + rest);
        assert forall|k: int| 0 <= k < s.len() implies pos <= #[trigger] s[k] && s[k]
            + needle.len() <= haystack.len() by {
            if k > 0 {
                assert(s[k] == rest[k - 1]);
            }
        }
        assert forall|k: int, l: int| 0 <= k < l < s.len() implies #[trigger] s[k]
            < #[trigger] s[l] by {
            assert(s[l] == rest[l - 1]);
            if k > 0 {
                assert(s[k] == rest[k - 1]);
            }
        }
    } else {
        lemma_occurrences_ordered(haystack, needle, pos + 1);
        assert(occurrences_from(haystack, needle, pos) == occurrences_from(
            haystack,
            needle,
            pos + 1,
        ));
    }
}

/// One hit of a search: a virtual address and the index of the range it lies in.
#[derive(Clone, Copy, PartialEq, Eq, Structural, Debug)]
pub struct SearchResultOccurrence {
    pub va: u64,
    pub range_index: usize,
}

/// The hits of a search, in the order they were found.
pub struct SearchResult {
    occurrences: Vec<SearchResultOccurrence>,
}

impl View for SearchResult {
    type V = Seq<SearchResultOccurrence>;

    closed spec fn view(&self) -> Seq<SearchResultOccurrence> {
        self.occurrences@
    }
}

/// The aligned hits of one block that starts at virtual address `block_va`,
/// given the offsets at which the needle was found.
pub open spec fn spec_block_hits(
    range_index: usize,
    block_va: u64,
    offsets: Seq<usize>,
    alignment: u64,
) -> Seq<SearchResultOccurrence> {
    offsets.map_values(
        |o: usize| SearchResultOccurrence { va: (block_va + o) as u64, range_index: range_index },
    ).filter(|h: SearchResultOccurrence| h.va % alignment == 0)
}

/// `held` extended by the first of `hits`, up to `max` in all.
pub open spec fn spec_capped(
    held: Seq<SearchResultOccurrence>,
    hits: Seq<SearchResultOccurrence>,
    max: usize,
) -> Seq<SearchResultOccurrence> {
    if held.len() >= max {
        held
    } else if hits.len() <= max - held.len() {
        held + hits
    } else {
        held + hits.take(max - held.len())
    }
}

/// Hits sorted by range index, then by address, with no repeats.
pub open spec fn strictly_ordered(s: Seq<SearchResultOccurrence>) -> bool {
    forall|k: int, l: int|
        0 <= k < l < s.len() ==> {
            let a = #[trigger] s[k];
            let b = #[trigger] s[l];
            a.range_index < b.range_index || (a.range_index == b.range_index && a.va < b.va)
        }
}

impl SearchResult {
    fn new() -> (r: Self)
        ensures
            r@ == Seq::<SearchResultOccurrence>::empty(),
    {
        SearchResult { occurrences: Vec::new() }
    }

    fn add_result(&mut self, range_index: usize, va_addr: u64)
        ensures
            final(self)@ == old(self)@.push(
                SearchResultOccurrence { va: va_addr, range_index: range_index },
            ),
    {
        self.occurrences.push(SearchResultOccurrence { va: va_addr, range_index: range_index });
    }

    pub fn get_results(&self) -> (r: &Vec<SearchResultOccurrence>)
        ensures
            r@ == self@,
    {
        &self.occurrences
    }

    /// Records the hits of one block: the address `block_va + o` for each
    /// offset `o` in turn, when it is a multiple of `alignment`, until `max`
    /// hits are held in all.
    pub fn add_block_hits(
        &mut self,
        range_index: usize,
        block_va: u64,
        offsets: &Vec<usize>,
        alignment: u64,
        max: usize,
    )
        requires
            alignment > 0,
            forall|k: int| 0 <= k < offsets@.len() ==> block_va + #[trigger] offsets@[k] <= u64::MAX,
        ensures
            final(self)@ == spec_capped(
                old(self)@,
                spec_block_hits(range_index, block_va, offsets@, alignment),
                max,
            ),
    {
        let ghost held = self@;
        let ghost hits = spec_block_hits(range_index, block_va, offsets@, alignment);
        let ghost f = |o: usize| SearchResultOccurrence { va: (block_va + o) as u64, range_index: range_index };
        let ghost p = |h: SearchResultOccurrence| h.va % alignment == 0;
        if self.occurrences.len() >= max {
            return ;
        }
        let mut i: usize = 0;
        while i < offsets.len() && self.occurrences.len() < max
            invariant
                alignment > 0,
                forall|k: int| 0 <= k < offsets@.len() ==> block_va + #[trigger] offsets@[k] <= u64::MAX,
                held.len() < max,
                i <= offsets@.len(),
                f == (|o: usize| SearchResultOccurrence { va: (block_va + o) as u64, range_index: range_index }),
                p == (|h: SearchResultOccurrence| h.va % alignment == 0),
                hits == offsets@.map_values(f).filter(p),
                self@ == held + offsets@.map_values(f).take(i as int).filter(p),
                self@.len() <= max,
            decreases offsets@.len() - i,
        {
            let o = offsets[i];
            let va_addr = block_va + o as u64;
            proof {
                reveal(Seq::filter);
                let m = offsets@.map_values(f);
                assert(m.take(i + 1).drop_last() =~= m.take(i as int));
                assert(m[i as int] == f(offsets@[i as int]));
                assert(m.take(i + 1).last() == m[i as int]);
                assert(o == offsets@[i as int]);
                assert(va_addr == block_va + o);
                assert(m[i as int].va == va_addr);
                assert(m.take(i + 1).last() == SearchResultOccurrence { va: va_addr, range_index: range_index });
            }
            if va_addr % alignment == 0 {
                self.add_result(range_index, va_addr);
                proof {
                    assert(self@ =~= held + offsets@.map_values(f).take(i + 1).filter(p));
                }
            }
            i += 1;
        }
        proof {
            let m = offsets@.map_values(f);
            let done = m.take(i as int).filter(p);
            assert(m =~= m.take(i as int) + m.skip(i as int));
            Seq::filter_distributes_over_add(m.take(i as int), m.skip(i as int), p);
            if i == offsets@.len() {
                assert(m.take(i as int) =~= m);
                assert(self@ == held + hits);
            } else {
                assert(hits == done + m.skip(i as int).filter(p));
                assert(hits.take(max - held.len()) =~= done);
            }
        }
    }
}

/// The hits of one block lie in `[block_va, block_va + bound)`, are aligned,
/// and come in increasing address order.
proof fn lemma_block_hits(
    range_index: usize,
    block_va: u64,
    offsets: Seq<usize>,
    alignment: u64,
    bound: int,
)
    requires
        alignment > 0,
        forall|k: int| 0 <= k < offsets.len() ==> #[trigger] offsets[k] < bound,
        forall|k: int, l: int| 0 <= k < l < offsets.len() ==> #[trigger] offsets[k] < #[trigger] offsets[l],
        block_va + bound <= u64::MAX + 1,
    ensures
        ({
            let h = spec_block_hits(range_index, block_va, offsets, alignment);
            &&& forall|k: int|
                0 <= k < h.len() ==> {
                    &&& (#[trigger] h[k]).range_index == range_index
                    &&& h[k].va % alignment == 0
                    &&& block_va <= h[k].va < block_va + bound
                }
            &&& forall|k: int, l: int| 0 <= k < l < h.len() ==> (#[trigger] h[k]).va < (#[trigger] h[l]).va
        }),
{
    let f = |o: usize| SearchResultOccurrence { va: (block_va + o) as u64, range_index: range_index };
    let p = |h: SearchResultOccurrence| h.va % alignment == 0;
    let m = offsets.map_values(f);
    let h = m.filter(p);
    lemma_filter_subsequence(m, p);
    let idx = choose|idx: Seq<int>|
        {
            &&& #[trigger] idx.len() == h.len()
            &&& forall|k: int| 0 <= k < idx.len() ==> 0 <= #[trigger] idx[k] < m.len()
            &&& forall|k: int| 0 <= k < idx.len() ==> h[k] == m[#[trigger] idx[k]]
            &&& forall|k: int, l: int| 0 <= k < l < idx.len() ==> #[trigger] idx[k] < #[trigger] idx[l]
        };
    assert forall|k: int| 0 <= k < h.len() implies {
        &&& (#[trigger] h[k]).range_index == range_index
        &&& h[k].va % alignment == 0
        &&& block_va <= h[k].va < block_va + bound
    } by {
        m.lemma_filter_pred(p, k);
        assert(h[k] == m[idx[k]]);
        assert(offsets[idx[k]] < bound);
    }
    assert forall|k: int, l: int| 0 <= k < l < h.len() implies (#[trigger] h[k]).va < (
    #[trigger] h[l]).va by {
        assert(h[k] == m[idx[k]]);
        assert(h[l] == m[idx[l]]);
        assert(idx[k] < idx[l]);
        assert(offsets[idx[k]] < offsets[idx[l]]);
    }
}

/// Whether every range is backed by valid physical ranges whose total fits
/// below the top of the address space, counted from the range's start.
pub open spec fn search_ranges_ok<R: GenericPageRange>(ranges: Seq<R>) -> bool {
    forall|k: int|
        0 <= k < ranges.len() ==> {
            &&& (#[trigger] ranges[k]).spec_va_start() + phys_sum(ranges[k].spec_phys_ranges())
                <= u64::MAX + 1
            &&& all_phys_wf(ranges[k].spec_phys_ranges())
        }
}

/// Whether hit `h` lies in the physical backing of its range, counted from
/// the range's start, and is a multiple of `alignment`.
pub open spec fn hit_ok<R: GenericPageRange>(
    ranges: Seq<R>,
    h: SearchResultOccurrence,
    alignment: u64,
) -> bool {
    &&& h.range_index < ranges.len()
    &&& h.va % alignment == 0
    &&& ranges[h.range_index as int].spec_va_start() <= h.va
    &&& h.va < ranges[h.range_index as int].spec_va_start() + phys_sum(
        ranges[h.range_index as int].spec_phys_ranges(),
    )
}

/// The hits of a block of range `range_index` that starts at virtual address
/// `block_va` and is `extent` bytes long, when reading it gives `out`: none
/// when the read fails or returns another length.
pub open spec fn spec_read_block_hits(
    range_index: usize,
    block_va: u64,
    extent: u64,
    out: Option<Seq<u8>>,
    needle: Seq<u8>,
    alignment: u64,
) -> Seq<SearchResultOccurrence> {
    match out {
        Some(b) => if b.len() == extent {
            spec_block_hits(
                range_index,
                block_va,
                occurrences_from(b, needle, 0).map_values(|o: int| o as usize),
                alignment,
            )
        } else {
            Seq::empty()
        },
        None => Seq::empty(),
    }
}

/// The hits in the first `j` physical blocks of range `range_index`, whose
/// memory is read through `rd`.
pub open spec fn spec_range_hits(
    range_index: usize,
    va_start: u64,
    phys: Seq<PhysRange>,
    j: int,
    rd: spec_fn(int, int) -> Option<Seq<u8>>,
    needle: Seq<u8>,
    alignment: u64,
) -> Seq<SearchResultOccurrence>
    decreases j,
{
    if j <= 0 {
        Seq::empty()
    } else {
        spec_range_hits(range_index, va_start, phys, j - 1, rd, needle, alignment)
            + spec_read_block_hits(
            range_index,
            (va_start + phys_sum(phys.take(j - 1))) as u64,
            phys[j - 1].phys_extent,
            rd((phys[j - 1].phys_base as usize) as int, (phys[j - 1].phys_extent as usize) as int),
            needle,
            alignment,
        )
    }
}

/// Each range as its start address and physical backing.
pub open spec fn search_layout<R: GenericPageRange>(ranges: Seq<R>) -> Seq<(u64, Seq<PhysRange>)> {
    ranges.map_values(|r: R| (r.spec_va_start(), r.spec_phys_ranges()))
}

/// The hits in the first `i` ranges, given as start address and physical
/// backing, in order.
pub open spec fn spec_all_hits(
    ranges: Seq<(u64, Seq<PhysRange>)>,
    i: int,
    rd: spec_fn(int, int) -> Option<Seq<u8>>,
    needle: Seq<u8>,
    alignment: u64,
) -> Seq<SearchResultOccurrence>
    decreases i,
{
    if i <= 0 {
        Seq::empty()
    } else {
        spec_all_hits(ranges, i - 1, rd, needle, alignment) + spec_range_hits(
            (i - 1) as usize,
            ranges[i - 1].0,
            ranges[i - 1].1,
            ranges[i - 1].1.len() as int,
            rd,
            needle,
            alignment,
        )
    }
}

/// The first `max` elements of `s`, or all of them.
pub open spec fn take_at_most<A>(s: Seq<A>, max: usize) -> Seq<A> {
    if s.len() <= max {
        s
    } else {
        s.take(max as int)
    }
}

pub open spec fn is_prefix<A>(a: Seq<A>, b: Seq<A>) -> bool {
    a.len() <= b.len() && b.take(a.len() as int) == a
}

proof fn lemma_capped_take(x: Seq<SearchResultOccurrence>, h: Seq<SearchResultOccurrence>, max: usize)
    ensures
        spec_capped(take_at_most(x, max), h, max) == take_at_most(x + h, max),
{
    if x.len() >= max {
        assert((x + h).take(max as int) =~= take_at_most(x, max));
    } else if h.len() <= max - x.len() {
    } else {
        assert((x + h).take(max as int) =~= x + h.take(max - x.len()));
    }
}

proof fn lemma_take_prefix<A>(p: Seq<A>, q: Seq<A>, max: usize)
    requires
        is_prefix(p, q),
        p.len() >= max,
    ensures
        take_at_most(q, max) == take_at_most(p, max),
{
    if p.len() == max {
        assert(q.take(max as int) =~= p);
    } else {
        assert(q.take(max as int) =~= p.take(max as int));
    }
}

proof fn lemma_prefix_trans<A>(a: Seq<A>, b: Seq<A>, c: Seq<A>)
    requires
        is_prefix(a, b),
        is_prefix(b, c),
    ensures
        is_prefix(a, c),
{
    assert(c.take(a.len() as int) =~= b.take(a.len() as int));
}

proof fn lemma_prefix_append<A>(c: Seq<A>, a: Seq<A>, b: Seq<A>)
    requires
        is_prefix(a, b),
    ensures
        is_prefix(c + a, c + b),
{
    assert((c + b).take((c + a).len() as int) =~= c + a);
}

proof fn lemma_range_hits_prefix(
    range_index: usize,
    va_start: u64,
    phys: Seq<PhysRange>,
    j: int,
    k: int,
    rd: spec_fn(int, int) -> Option<Seq<u8>>,
    needle: Seq<u8>,
    alignment: u64,
)
    requires
        0 <= j <= k,
    ensures
        is_prefix(
            spec_range_hits(range_index, va_start, phys, j, rd, needle, alignment),
            spec_range_hits(range_index, va_start, phys, k, rd, needle, alignment),
        ),
    decreases k,
{
    let a = spec_range_hits(range_index, va_start, phys, j, rd, needle, alignment);
    if j < k {
        lemma_range_hits_prefix(range_index, va_start, phys, j, k - 1, rd, needle, alignment);
        let b = spec_range_hits(range_index, va_start, phys, k - 1, rd, needle, alignment);
        let c = spec_range_hits(range_index, va_start, phys, k, rd, needle, alignment);
        assert(c.take(b.len() as int) =~= b);
        lemma_prefix_trans(a, b, c);
    } else {
        assert(a.take(a.len() as int) =~= a);
    }
}

proof fn lemma_all_hits_prefix(
    ranges: Seq<(u64, Seq<PhysRange>)>,
    i: int,
    n: int,
    rd: spec_fn(int, int) -> Option<Seq<u8>>,
    needle: Seq<u8>,
    alignment: u64,
)
    requires
        0 <= i <= n,
    ensures
        is_prefix(spec_all_hits(ranges, i, rd, needle, alignment), spec_all_hits(ranges, n, rd, needle, alignment)),
    decreases n,
{
    let a = spec_all_hits(ranges, i, rd, needle, alignment);
    if i < n {
        lemma_all_hits_prefix(ranges, i, n - 1, rd, needle, alignment);
        let b = spec_all_hits(ranges, n - 1, rd, needle, alignment);
        let c = spec_all_hits(ranges, n, rd, needle, alignment);
        assert(c.take(b.len() as int) =~= b);
        lemma_prefix_trans(a, b, c);
    } else {
        assert(a.take(a.len() as int) =~= a);
    }
}

/// Searches the physical backing of `ranges` for `needle`, block by block,
/// and reports the virtual address of each occurrence that is a multiple of
/// `alignment` (1 when unset), with the index of its range, stopping after
/// `max_num_occurrences` hits. A needle that crosses from one physical block
/// into the next is not found, and a block that cannot be read is skipped.
pub fn search_memory_generic<R: GenericPageRange, M: MemoryView>(
    needle: &[u8],
    ranges: &Vec<R>,
    memory_view: &mut M,
    alignment: Option<u64>,
    max_num_occurrences: usize,
) -> (r: SearchResult)
    requires
        old(memory_view).inv(),
        needle@.len() > 0,
        alignment != Some(0u64),
        search_ranges_ok(ranges@),
    ensures
        final(memory_view).inv(),
        forall|o: int, s: int, out: Option<Seq<u8>>| #[trigger] final(memory_view).admits(o, s, out)
            == old(memory_view).admits(o, s, out),
        r@.len() <= max_num_occurrences,
        forall|k: int|
            0 <= k < r@.len() ==> hit_ok(
                ranges@,
                #[trigger] r@[k],
                match alignment {
                    Some(a) => a,
                    None => 1,
                },
            ),
        strictly_ordered(r@),
        deterministic(*old(memory_view)) ==> r@ == take_at_most(
            spec_all_hits(
                search_layout(ranges@),
                ranges@.len() as int,
                |o: int, s: int| read_result(*old(memory_view), o, s),
                needle@,
                match alignment {
                    Some(a) => a,
                    None => 1,
                },
            ),
            max_num_occurrences,
        ),
{
    let ghost exact = deterministic(*memory_view);
    let ghost rd = |o: int, s: int| read_result(*memory_view, o, s);
    let ghost n = ranges@.len() as int;
    let mut result = SearchResult::new();
    if max_num_occurrences == 0 {
        proof {
            let all = spec_all_hits(search_layout(ranges@), n, rd, needle@, match alignment {
                Some(a) => a,
                None => 1,
            });
            if all.len() > 0 {
                assert(all.take(0) =~= result@);
            } else {
                assert(all =~= result@);
            }
        }
        return result;
    }
    let a: u64 = match alignment {
        Some(a) => a,
        None => 1,
    };
    let mut range_index: usize = 0;
    while range_index < ranges.len() && result.get_results().len() < max_num_occurrences
        invariant
            memory_view.inv(),
            needle@.len() > 0,
            a > 0,
            a == match alignment {
                Some(a) => a,
                None => 1u64,
            },
            search_ranges_ok(ranges@),
            range_index <= ranges@.len(),
            result@.len() <= max_num_occurrences,
            strictly_ordered(result@),
            forall|k: int|
                0 <= k < result@.len() ==> hit_ok(ranges@, #[trigger] result@[k], a)
                    && result@[k].range_index < range_index,
            reads_follow(*memory_view, exact, rd),
            forall|o: int, s: int, out: Option<Seq<u8>>| #[trigger] memory_view.admits(o, s, out)
                == old(memory_view).admits(o, s, out),
            n == ranges@.len(),
            exact ==> result@ == take_at_most(
                spec_all_hits(search_layout(ranges@), range_index as int, rd, needle@, a),
                max_num_occurrences,
            ),
        decreases ranges@.len() - range_index,
    {
        let ghost done = spec_all_hits(search_layout(ranges@), range_index as int, rd, needle@, a);
        let range = &ranges[range_index];
        let phys = range.get_phys_ranges();
        let va_start = range.get_va_start();
        let ghost total = phys_sum(phys@);
        proof {
            assert(va_start + total <= u64::MAX + 1);
            lemma_phys_sum_nonneg(phys@);
        }
        let mut block_va: u64 = va_start;
        let mut j: usize = 0;
        while j < phys.len() && result.get_results().len() < max_num_occurrences
            invariant
                memory_view.inv(),
                needle@.len() > 0,
                a > 0,
                search_ranges_ok(ranges@),
                range_index < ranges@.len(),
                va_start == ranges@[range_index as int].spec_va_start(),
                phys@ == ranges@[range_index as int].spec_phys_ranges(),
                total == phys_sum(phys@),
                va_start + total <= u64::MAX + 1,
                j <= phys@.len(),
                j < phys@.len() ==> block_va == va_start + phys_sum(phys@.take(j as int)),
                result@.len() <= max_num_occurrences,
                strictly_ordered(result@),
                forall|k: int|
                    0 <= k < result@.len() ==> hit_ok(ranges@, #[trigger] result@[k], a) && (
                    result@[k].range_index < range_index || (result@[k].range_index
                        == range_index && result@[k].va < va_start + phys_sum(
                        phys@.take(j as int),
                    ))),
                reads_follow(*memory_view, exact, rd),
                forall|o: int, s: int, out: Option<Seq<u8>>| #[trigger] memory_view.admits(o, s, out)
                    == old(memory_view).admits(o, s, out),
                done == spec_all_hits(search_layout(ranges@), range_index as int, rd, needle@, a),
                exact ==> result@ == take_at_most(
                    done + spec_range_hits(range_index, va_start, phys@, j as int, rd, needle@, a),
                    max_num_occurrences,
                ),
            decreases phys@.len() - j,
        {
            let phys_range = phys[j];
            proof {
                lemma_phys_sum_prefix(phys@, j as int);
                lemma_phys_sum_prefix(phys@, j + 1);
                lemma_phys_sum_nonneg(phys@.take(j as int));
            }
            let ghost old_result = result@;
            let ghost prefix = done + spec_range_hits(range_index, va_start, phys@, j as int, rd, needle@, a);
            let ghost got = rd((phys_range.phys_base as usize) as int, (phys_range.phys_extent as usize) as int);
            let ghost hits = spec_read_block_hits(range_index, block_va, phys_range.phys_extent, got, needle@, a);
            proof {
                assert(spec_range_hits(range_index, va_start, phys@, j + 1, rd, needle@, a)
                    == spec_range_hits(range_index, va_start, phys@, j as int, rd, needle@, a) + hits);
                assert(done + spec_range_hits(range_index, va_start, phys@, j + 1, rd, needle@, a)
                    =~= prefix + hits);
                lemma_capped_take(prefix, hits, max_num_occurrences);
            }
            match memory_view.read_block(
                phys_range.phys_base as usize,
                phys_range.phys_extent as usize,
            ) {
                Ok(block) => {
                    if block.len() as u64 == phys_range.phys_extent {
                        let offsets = find_occurrences(block.as_slice(), needle);
                        proof {
                            lemma_occurrences_ordered(block@, needle@, 0);
                            let occ = occurrences_from(block@, needle@, 0);
                            if exact {
                                let as_usize = occ.map_values(|o: int| o as usize);
                                assert forall|k: int| 0 <= k < offsets@.len() implies offsets@[k]
                                    == #[trigger] as_usize[k] by {
                                    assert(offsets@.map_values(|o: usize| o as int)[k] == occ[k]);
                                }
                                assert(offsets@ =~= as_usize);
                                assert(hits == spec_block_hits(range_index, block_va, offsets@, a));
                            }
                            assert forall|k: int| 0 <= k < offsets@.len() implies #[trigger] offsets@[k]
                                < phys_range.phys_extent by {
                                assert(offsets@.map_values(|o: usize| o as int)[k] == occ[k]);
                            }
                            assert forall|k: int, l: int| 0 <= k < l < offsets@.len() implies #[trigger] offsets@[k]
                                < #[trigger] offsets@[l] by {
                                assert(offsets@.map_values(|o: usize| o as int)[k] == occ[k]);
                                assert(offsets@.map_values(|o: usize| o as int)[l] == occ[l]);
                            }
                            lemma_block_hits(
                                range_index,
                                block_va,
                                offsets@,
                                a,
                                phys_range.phys_extent as int,
                            );
                        }
                        result.add_block_hits(range_index, block_va, &offsets, a, max_num_occurrences);
                        proof {
                            let h = spec_block_hits(range_index, block_va, offsets@, a);
                            let lim = phys_sum(phys@.take(j + 1));
                            assert(forall|k: int| 0 <= k < result@.len() - old_result.len() ==>
                                result@[old_result.len() + k] == #[trigger] h[k]);
                            assert forall|k: int| 0 <= k < result@.len() implies hit_ok(
                                ranges@,
                                #[trigger] result@[k],
                                a,
                            ) && (result@[k].range_index < range_index || (result@[k].range_index
                                == range_index && result@[k].va < va_start + lim)) by {
                                if k >= old_result.len() {
                                    let x = h[k - old_result.len()];
                                    assert(result@[k] == x);
                                    assert(block_va <= x.va < block_va + phys_range.phys_extent);
                                    assert(x.range_index == range_index);
                                    assert(x.va % a == 0);
                                }
                            }
                            assert forall|k: int, l: int| 0 <= k < l < result@.len() implies {
                                let x = #[trigger] result@[k];
                                let y = #[trigger] result@[l];
                                x.range_index < y.range_index || (x.range_index == y.range_index
                                    && x.va < y.va)
                            } by {
                                if l >= old_result.len() {
                                    assert(result@[l] == h[l - old_result.len()]);
                                    if k >= old_result.len() {
                                        assert(result@[k] == h[k - old_result.len()]);
                                    }
                                }
                            }
                        }
                    } else {
                        proof {
                            if exact {
                                assert(hits =~= Seq::<SearchResultOccurrence>::empty());
                                assert(prefix + hits =~= prefix);
                            }
                        }
                    }
                },
                Err(_) => {
                    proof {
                        if exact {
                            assert(hits =~= Seq::<SearchResultOccurrence>::empty());
                            assert(prefix + hits =~= prefix);
                        }
                    }
                },
            }
            if j + 1 < phys.len() {
                proof {
                    lemma_phys_sum_prefix(phys@, j + 2);
                    assert(phys@[j + 1].wf());
                }
                block_va = block_va + phys_range.phys_extent;
            }
            j += 1;
        }
        proof {
            if exact {
                let full = spec_range_hits(range_index, va_start, phys@, phys@.len() as int, rd, needle@, a);
                let next = spec_all_hits(search_layout(ranges@), range_index + 1, rd, needle@, a);
                assert(next == done + full);
                if j < phys@.len() {
                    let part = spec_range_hits(range_index, va_start, phys@, j as int, rd, needle@, a);
                    lemma_range_hits_prefix(range_index, va_start, phys@, j as int, phys@.len() as int, rd, needle@, a);
                    lemma_prefix_append(done, part, full);
                    lemma_take_prefix(done + part, next, max_num_occurrences);
                }
            }
        }
        range_index += 1;
    }
    proof {
        if exact && range_index < ranges@.len() {
            let here = spec_all_hits(search_layout(ranges@), range_index as int, rd, needle@, a);
            lemma_all_hits_prefix(search_layout(ranges@), range_index as int, n, rd, needle@, a);
            lemma_take_prefix(here, spec_all_hits(search_layout(ranges@), n, rd, needle@, a), max_num_occurrences);
        }
    }
    result
}

} // verus!
