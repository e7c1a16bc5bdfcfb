use vstd::prelude::*;

verus! {

/// One contiguous piece of guest physical memory, in bytes.
#[derive(Clone, Copy, PartialEq, Eq, Structural, Debug)]
pub struct PhysRange {
    pub phys_base: u64,
    pub phys_extent: u64,
}

impl PhysRange {
    /// A physical range is valid when it is non-empty and its end fits in 64 bits.
    pub open spec fn wf(&self) -> bool {
        self.phys_extent > 0 && self.phys_base + self.phys_extent <= u64::MAX
    }

    pub fn new(base: u64, extent: u64) -> (r: Self)
        ensures
            r.phys_base == base,
            r.phys_extent == extent,
    {
        PhysRange { phys_base: base, phys_extent: extent }
    }
}

/// Sum of the extents of a sequence of physical ranges.
pub open spec fn phys_sum(s: Seq<PhysRange>) -> int
    decreases s.len(),
{
    if s.len() == 0 {
        0
    } else {
        phys_sum(s.drop_last()) + s.last().phys_extent
    }
}

/// The physical list after a block of `next_extent` bytes at `next_phys` is
/// appended: it grows the last range when it abuts it, is absorbed when the last
/// range already holds it, and is added as a new range otherwise.
pub open spec fn spec_extend_phys(s: Seq<PhysRange>, next_extent: u64, next_phys: u64) -> Seq<
    PhysRange,
> {
    let last = s.last();
    if last.phys_base + last.phys_extent == next_phys {
        s.update(
            s.len() - 1,
            PhysRange { phys_base: last.phys_base, phys_extent: (last.phys_extent + next_extent) as u64 },
        )
    } else if last.phys_base <= next_phys && next_phys + next_extent <= last.phys_base
        + last.phys_extent {
        s
    } else {
        s.push(PhysRange { phys_base: next_phys, phys_extent: next_extent })
    }
}

/// Whether the block at `next_phys` already lies inside the last physical range.
pub open spec fn absorbed_by_last(s: Seq<PhysRange>, next_extent: u64, next_phys: u64) -> bool {
    let last = s.last();
    last.phys_base + last.phys_extent != next_phys && last.phys_base <= next_phys && next_phys
        + next_extent <= last.phys_base + last.phys_extent
}

/// Every range of the sequence is valid.
pub open spec fn all_phys_wf(s: Seq<PhysRange>) -> bool {
    forall|k: int| 0 <= k < s.len() ==> #[trigger] s[k].wf()
}

pub proof fn lemma_phys_sum_push(s: Seq<PhysRange>, x: PhysRange)
    ensures
        phys_sum(s.push(x)) == phys_sum(s) + x.phys_extent,
{
    assert(s.push(x).drop_last() =~= s);
}

pub proof fn lemma_phys_sum_update_last(s: Seq<PhysRange>, x: PhysRange)
    requires
        s.len() > 0,
    ensures
        phys_sum(s.update(s.len() - 1, x)) == phys_sum(s) - s.last().phys_extent + x.phys_extent,
{
    assert(s.update(s.len() - 1, x).drop_last() =~= s.drop_last());
}

pub proof fn lemma_phys_sum_nonneg(s: Seq<PhysRange>)
    ensures
        phys_sum(s) >= 0,
        s.len() > 0 ==> phys_sum(s) >= s.last().phys_extent,
    decreases s.len(),
{
    if s.len() > 0 {
        lemma_phys_sum_nonneg(s.drop_last());
    }
}

pub proof fn lemma_phys_sum_prefix(s: Seq<PhysRange>, j: int)
    requires
        0 <= j <= s.len(),
    ensures
        phys_sum(s.take(j)) <= phys_sum(s),
        j < s.len() ==> phys_sum(s.take(j + 1)) == phys_sum(s.take(j)) + s[j].phys_extent,
    decreases s.len(),
{
    if j < s.len() {
        assert(s.take(j + 1).drop_last() =~= s.take(j));
        lemma_phys_sum_prefix(s.drop_last(), j);
        assert(s.drop_last().take(j) =~= s.take(j));
    } else {
        assert(s.take(j) =~= s);
    }
}

/// What a block appended by `extend_phys_ranges` does to the total physical
/// extent: it grows by the block's size, unless the block was absorbed.
pub proof fn lemma_extend_phys_sum(s: Seq<PhysRange>, next_extent: u64, next_phys: u64)
    requires
        s.len() > 0,
        s.last().phys_extent + next_extent <= u64::MAX,
    ensures
        absorbed_by_last(s, next_extent, next_phys) ==> phys_sum(
            spec_extend_phys(s, next_extent, next_phys),
        ) == phys_sum(s),
        !absorbed_by_last(s, next_extent, next_phys) ==> phys_sum(
            spec_extend_phys(s, next_extent, next_phys),
        ) == phys_sum(s) + next_extent,
{
    let last = s.last();
    if last.phys_base + last.phys_extent == next_phys {
        lemma_phys_sum_update_last(
            s,
            PhysRange { phys_base: last.phys_base, phys_extent: (last.phys_extent + next_extent) as u64 },
        );
    } else if !absorbed_by_last(s, next_extent, next_phys) {
        lemma_phys_sum_push(s, PhysRange { phys_base: next_phys, phys_extent: next_extent });
    }
}

/// Appends a block of `next_extent` bytes at `next_phys` to a physical list.
pub fn extend_phys_ranges(phys: &mut Vec<PhysRange>, next_extent: u64, next_phys: u64)
    requires
        old(phys)@.len() > 0,
        old(phys)@.last().wf(),
        old(phys)@.last().phys_extent + next_extent <= u64::MAX,
        next_phys + next_extent <= u64::MAX,
    ensures
        final(phys)@ == spec_extend_phys(old(phys)@, next_extent, next_phys),
{
    let n = phys.len();
    let last = phys[n - 1];
    if last.phys_base + last.phys_extent == next_phys {
        phys.set(n - 1, PhysRange::new(last.phys_base, last.phys_extent + next_extent));
    } else if last.phys_base <= next_phys && next_phys + next_extent <= last.phys_base
        + last.phys_extent {
    } else {
        phys.push(PhysRange::new(next_phys, next_extent));
    }
}

/// Failure reasons surfaced by the memory views and the walkers.
#[derive(Clone, Copy, PartialEq, Eq, Structural, Debug)]
pub enum Error {
    /// A memory view could not satisfy a read in full.
    FailedToReadBlock,
    /// Malformed table contents, or a configuration that cannot be walked.
    GenericParsingError,
    /// A structurally impossible entry at the root.
    InvalidBlock,
    /// A host resource could not be acquired.
    ResourceError,
}

} // verus!
