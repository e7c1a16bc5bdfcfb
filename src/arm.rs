use vstd::prelude::*;
use crate::bits::{bit_set, has_bit, lemma_and_le, le_u64, mask_bits, mask_range, read_u64_le};
use crate::common::{
    absorbed_by_last, all_phys_wf, extend_phys_ranges, lemma_extend_phys_sum, lemma_phys_sum_nonneg, phys_sum,
    spec_extend_phys, Error, PhysRange,
};
use crate::memory::{deterministic, read_result, reads_follow, MemoryView};

verus! {

/// Translation granule: the base page size.
#[derive(Clone, Copy, PartialEq, Eq, Structural, Debug)]
pub enum Granularity {
    Pt4k,
    Pt16k,
    Pt64k,
}

#[derive(Clone, Copy, PartialEq, Eq, Structural, Debug)]
pub enum ArmFlavour {
    Arm32,
    Arm64,
}

/// Parameters of an ARM walk.
#[derive(Clone, Copy, PartialEq, Eq, Structural, Debug)]
pub struct ArmContext {
    flavour: ArmFlavour,
    granularity: Granularity,
    virtual_address_space_size: u8,
    top_bit: u8,
}

impl ArmContext {
    pub fn new(
        flavour: ArmFlavour,
        granularity: Granularity,
        virtual_address_space_size: u8,
        top_bit: u8,
    ) -> (r: Self)
        ensures
            r.spec_flavour() == flavour,
            r.spec_granularity() == granularity,
            r.spec_va_size() == virtual_address_space_size,
            r.spec_top_bit() == top_bit,
    {
        ArmContext {
            flavour: flavour,
            granularity: granularity,
            virtual_address_space_size: virtual_address_space_size,
            top_bit: top_bit,
        }
    }

    pub closed spec fn spec_flavour(&self) -> ArmFlavour {
        self.flavour
    }

    pub closed spec fn spec_granularity(&self) -> Granularity {
        self.granularity
    }

    pub closed spec fn spec_va_size(&self) -> u8 {
        self.virtual_address_space_size
    }

    pub closed spec fn spec_top_bit(&self) -> u8 {
        self.top_bit
    }
}

/// Access permissions of an ARM leaf.
#[derive(Clone, Copy, PartialEq, Eq, Structural, Debug)]
pub struct ArmPageAttributes {
    pub xn: bool,
    pub pxn: bool,
    pub permission_bits: u8,
}

/// A coalesced ARM mapping.
#[derive(Clone, Debug)]
pub struct ArmPageRange {
    pub va: u64,
    pub extent: u64,
    pub phys_ranges: Vec<PhysRange>,
    pub attr: ArmPageAttributes,
}

/// The mathematical value of an ARM range.
pub struct ArmRangeView {
    pub va: u64,
    pub extent: u64,
    pub phys_ranges: Seq<PhysRange>,
    pub attr: ArmPageAttributes,
}

impl View for ArmPageRange {
    type V = ArmRangeView;

    open spec fn view(&self) -> ArmRangeView {
        ArmRangeView {
            va: self.va,
            extent: self.extent,
            phys_ranges: self.phys_ranges@,
            attr: self.attr,
        }
    }
}

pub open spec fn user_readable(a: ArmPageAttributes) -> bool {
    a.permission_bits == 0b11 || a.permission_bits == 0b01
}

pub open spec fn user_writeable(a: ArmPageAttributes) -> bool {
    a.permission_bits == 0b01
}

pub open spec fn kernel_writeable(a: ArmPageAttributes) -> bool {
    a.permission_bits == 0b01 || a.permission_bits == 0b00
}

impl ArmRangeView {
    /// A range as the walker produces it.
    pub open spec fn wf(&self) -> bool {
        &&& self.extent > 0
        &&& self.va + self.extent <= u64::MAX + 1
        &&& self.phys_ranges.len() > 0
        &&& all_phys_wf(self.phys_ranges)
        &&& phys_sum(self.phys_ranges) <= self.extent
        &&& self.attr.permission_bits < 4
    }

    /// Whether `next` could have been merged into this range.
    pub open spec fn coalescable_with(&self, next: ArmRangeView) -> bool {
        &&& self.va + self.extent == next.va
        &&& self.attr == next.attr
        &&& self.extent + next.extent <= u64::MAX
    }
}

/// The list invariant of a walk's output: valid ranges, no two neighbours mergeable.
pub open spec fn arm_ranges_wf(s: Seq<ArmPageRange>) -> bool {
    &&& forall|k: int| 0 <= k < s.len() ==> (#[trigger] s[k])@.wf()
    &&& forall|k: int|
        0 <= k < s.len() - 1 ==> !(#[trigger] s[k])@.coalescable_with(s[k + 1]@)
}

impl ArmPageRange {
    pub fn is_user_readable(&self) -> (r: bool)
        ensures
            r == user_readable(self.attr),
    {
        self.attr.permission_bits == 0b11 || self.attr.permission_bits == 0b01
    }

    pub fn is_kernel_readable(&self) -> (r: bool)
        ensures
            r,
    {
        true
    }

    pub fn is_user_writeable(&self) -> (r: bool)
        ensures
            r == user_writeable(self.attr),
    {
        self.attr.permission_bits == 0b01
    }

    pub fn is_kernel_writeable(&self) -> (r: bool)
        ensures
            r == kernel_writeable(self.attr),
    {
        self.attr.permission_bits == 0b01 || self.attr.permission_bits == 0b00
    }

    pub fn is_user_executable(&self) -> (r: bool)
        ensures
            r == !self.attr.xn,
    {
        !self.attr.xn
    }

    pub fn is_kernel_executable(&self) -> (r: bool)
        ensures
            r == !self.attr.pxn,
    {
        !self.attr.pxn
    }

    /// A copy with the same value.
    pub fn copy(&self) -> (r: Self)
        ensures
            r@ == self@,
    {
        let mut phys: Vec<PhysRange> = Vec::new();
        let mut i: usize = 0;
        while i < self.phys_ranges.len()
            invariant
                i <= self.phys_ranges@.len(),
                phys@ == self.phys_ranges@.subrange(0, i as int),
            decreases self.phys_ranges@.len() - i,
        {
            phys.push(self.phys_ranges[i]);
            i += 1;
            proof {
                assert(phys@ =~= self.phys_ranges@.subrange(0, i as int));
            }
        }
        proof {
            assert(phys@ =~= self.phys_ranges@);
        }
        ArmPageRange { va: self.va, extent: self.extent, phys_ranges: phys, attr: self.attr }
    }

    /// Whether a leaf at `va` with attributes `attr` continues this range.
    pub fn is_extendable_by(&self, va: u64, attr: &ArmPageAttributes) -> (r: bool)
        ensures
            r == (self.va + self.extent == va && self.attr == *attr),
    {
        self.extent <= u64::MAX - self.va && self.va + self.extent == va && self.attr == *attr
    }

    /// Grows the range by a leaf of `next_extent` bytes backed at `next_phys`.
    pub fn extend_by(&mut self, next_extent: u64, next_phys: u64)
        requires
            old(self).phys_ranges@.len() > 0,
            old(self).phys_ranges@.last().wf(),
            old(self).extent + next_extent <= u64::MAX,
            old(self).phys_ranges@.last().phys_extent + next_extent <= u64::MAX,
            next_phys + next_extent <= u64::MAX,
        ensures
            final(self).va == old(self).va,
            final(self).attr == old(self).attr,
            final(self).extent == old(self).extent + next_extent,
            final(self).phys_ranges@ == spec_extend_phys(
                old(self).phys_ranges@,
                next_extent,
                next_phys,
            ),
    {
        self.extent = self.extent + next_extent;
        extend_phys_ranges(&mut self.phys_ranges, next_extent, next_phys);
    }
}

/// One level of the table hierarchy: the lowest virtual-address bit its index
/// covers and the bytes one of its entries maps.
#[derive(Clone, Copy, Debug)]
pub struct LevelRangeInfo {
    pub bit_start_incl: u8,
    pub block_size: u64,
}

/// The levels of a walk, from the top.
#[derive(Clone, Debug)]
struct LevelRanges {
    levels: Vec<LevelRangeInfo>,
}

/// Lowest index bits of the levels from `cur` up to the top of a
/// `size`-bit address space, listed from the top down.
pub open spec fn spec_level_starts(cur: int, bits_per_level: int, size: int) -> Seq<int>
    decreases (if cur < size { size - cur } else { 0 }),
{
    if bits_per_level > 0 && cur < size {
        spec_level_starts(cur + bits_per_level, bits_per_level, size).push(cur)
    } else {
        Seq::empty()
    }
}

/// The levels from `cur` up to the top of a `size`-bit address space, from the top.
pub open spec fn spec_level_infos(cur: int, bits_per_level: int, size: int) -> Seq<LevelRangeInfo> {
    spec_level_starts(cur, bits_per_level, size).map_values(
        |b: int| LevelRangeInfo { bit_start_incl: b as u8, block_size: 1u64 << (b as u8) },
    )
}

impl LevelRanges {
    spec fn wf(&self) -> bool {
        forall|i: int|
            0 <= i < self.levels@.len() ==> {
                let l = #[trigger] self.levels@[i];
                &&& l.bit_start_incl < 64
                &&& l.block_size == 1u64 << l.bit_start_incl
                &&& 0 < l.block_size <= 0x8000_0000_0000_0000u64
            }
    }

    fn get_level_info(&self, index: usize) -> (r: &LevelRangeInfo)
        requires
            index < self.levels@.len(),
        ensures
            *r == self.levels@[index as int],
    {
        &self.levels[index]
    }

    fn get_num_levels(&self) -> (r: usize)
        ensures
            r == self.levels@.len(),
    {
        self.levels.len()
    }
}

impl Granularity {
    pub open spec fn spec_bit_start(self) -> int {
        match self {
            Granularity::Pt4k => 12,
            Granularity::Pt16k => 14,
            Granularity::Pt64k => 16,
        }
    }

    pub open spec fn spec_bits_per_level(self) -> int {
        match self {
            Granularity::Pt4k => 9,
            Granularity::Pt16k => 11,
            Granularity::Pt64k => 13,
        }
    }

    /// The size in bytes of a translation table.
    fn get_block_size(self) -> (r: usize)
        ensures
            r == match self {
                Granularity::Pt4k => 0x1000usize,
                Granularity::Pt16k => 0x4000usize,
                Granularity::Pt64k => 0x10000usize,
            },
    {
        match self {
            Granularity::Pt4k => 0x1000,
            Granularity::Pt16k => 0x4000,
            Granularity::Pt64k => 0x10000,
        }
    }

    fn get_bit_start(self) -> (r: u8)
        ensures
            r == self.spec_bit_start(),
    {
        match self {
            Granularity::Pt4k => 12,
            Granularity::Pt16k => 14,
            Granularity::Pt64k => 16,
        }
    }

    fn get_num_bits_per_level(self) -> (r: u8)
        ensures
            r == self.spec_bits_per_level(),
    {
        match self {
            Granularity::Pt4k => 9,
            Granularity::Pt16k => 11,
            Granularity::Pt64k => 13,
        }
    }

    /// The levels of an `address_space_size`-bit address space, from the top.
    fn get_level_ranges(self, address_space_size: u8) -> (r: LevelRanges)
        requires
            address_space_size <= 64,
        ensures
            r.wf(),
            r.levels@.map_values(|l: LevelRangeInfo| l.bit_start_incl as int)
                == spec_level_starts(
                self.spec_bit_start(),
                self.spec_bits_per_level(),
                address_space_size as int,
            ),
            r.levels@ == spec_level_infos(
                self.spec_bit_start(),
                self.spec_bits_per_level(),
                address_space_size as int,
            ),
    {
        let start = self.get_bit_start();
        let bits_per_level = self.get_num_bits_per_level();
        let ghost target = spec_level_starts(
            start as int,
            bits_per_level as int,
            address_space_size as int,
        );
        let mut ranges: Vec<LevelRangeInfo> = Vec::new();
        let mut cur: u8 = start;
        while cur < address_space_size
            invariant
                bits_per_level > 0,
                address_space_size <= 64,
                target == spec_level_starts(cur as int, bits_per_level as int, address_space_size as int)
                    + ranges@.map_values(|l: LevelRangeInfo| l.bit_start_incl as int),
                forall|i: int|
                    0 <= i < ranges@.len() ==> {
                        let l = #[trigger] ranges@[i];
                        &&& l.bit_start_incl < 64
                        &&& l.block_size == 1u64 << l.bit_start_incl
                        &&& 0 < l.block_size <= 0x8000_0000_0000_0000u64
                    },
            decreases address_space_size - cur,
        {
            let bit_start_incl = cur;
            assert(0 < 1u64 << bit_start_incl <= 0x8000_0000_0000_0000u64) by (bit_vector)
                requires
                    bit_start_incl < 64,
            ;
            let block_size = 1u64 << bit_start_incl;
            let ghost old_ranges = ranges@;
            ranges.insert(0, LevelRangeInfo { bit_start_incl: bit_start_incl, block_size: block_size });
            let next: u8 = if (cur as u64) + (bits_per_level as u64) < address_space_size as u64 {
                cur + bits_per_level
            } else {
                address_space_size
            };
            proof {
                let f = |l: LevelRangeInfo| l.bit_start_incl as int;
                assert(ranges@.map_values(f) =~= seq![cur as int] + old_ranges.map_values(f));
                assert(spec_level_starts(cur as int, bits_per_level as int, address_space_size as int)
                    == spec_level_starts(cur + bits_per_level, bits_per_level as int, address_space_size as int).push(cur as int));
                if next == address_space_size {
                    assert(spec_level_starts(cur + bits_per_level, bits_per_level as int, address_space_size as int)
                        =~= Seq::<int>::empty());
                    assert(spec_level_starts(next as int, bits_per_level as int, address_space_size as int)
                        =~= Seq::<int>::empty());
                }
                assert(target =~= spec_level_starts(next as int, bits_per_level as int, address_space_size as int)
                    + ranges@.map_values(f));
            }
            cur = next;
        }
        proof {
            let f = |l: LevelRangeInfo| l.bit_start_incl as int;
            assert(target =~= ranges@.map_values(f));
            let infos = spec_level_infos(start as int, bits_per_level as int, address_space_size as int);
            assert forall|i: int| 0 <= i < ranges@.len() implies ranges@[i] == infos[i] by {
                assert(ranges@.map_values(f)[i] == target[i]);
            }
            assert(ranges@ =~= infos);
        }
        LevelRanges { levels: ranges }
    }
}

/// A table descriptor still to be walked, with the execute-never bits that
/// its ancestors impose.
pub struct TablePointerEntry {
    pub va: u64,
    pub base_address: u64,
    pub xn: bool,
    pub pxn: bool,
    pub level: usize,
}

/// The list after a leaf is emitted: merged into the last range when it
/// continues it, appended otherwise.
pub open spec fn spec_add_arm_leaf(
    views: Seq<ArmRangeView>,
    va: u64,
    extent: u64,
    phys: u64,
    attr: ArmPageAttributes,
) -> Seq<ArmRangeView> {
    let fresh = ArmRangeView {
        va: va,
        extent: extent,
        phys_ranges: seq![PhysRange { phys_base: phys, phys_extent: extent }],
        attr: attr,
    };
    if views.len() > 0 && views.last().coalescable_with(fresh) {
        let last = views.last();
        views.update(
            views.len() - 1,
            ArmRangeView {
                va: last.va,
                extent: (last.extent + extent) as u64,
                phys_ranges: spec_extend_phys(last.phys_ranges, extent, phys),
                attr: last.attr,
            },
        )
    } else {
        views.push(fresh)
    }
}

/// Emits a leaf, merging it into the last range where it continues it.
fn add_leaf(pages: &mut Vec<ArmPageRange>, va: u64, extent: u64, phys: u64, attr: ArmPageAttributes)
    requires
        arm_ranges_wf(old(pages)@),
        extent > 0,
        va + extent <= u64::MAX + 1,
        phys + extent <= u64::MAX,
        attr.permission_bits < 4,
    ensures
        arm_ranges_wf(final(pages)@),
        final(pages)@.map_values(|r: ArmPageRange| r@) == spec_add_arm_leaf(
            old(pages)@.map_values(|r: ArmPageRange| r@),
            va,
            extent,
            phys,
            attr,
        ),
{
    let ghost old_pages = pages@;
    let ghost fresh = ArmRangeView {
        va: va,
        extent: extent,
        phys_ranges: seq![PhysRange { phys_base: phys, phys_extent: extent }],
        attr: attr,
    };
    let n = pages.len();
    if n > 0 {
        let mut last = pages.pop().unwrap();
        proof {
            assert(last == old_pages[n - 1]);
        }
        if last.is_extendable_by(va, &attr) && extent <= u64::MAX - last.extent {
            proof {
                assert(old_pages[n - 1]@.wf());
                assert(all_phys_wf(last.phys_ranges@));
                assert(last.phys_ranges@.last().wf());
                lemma_phys_sum_nonneg(last.phys_ranges@);
                lemma_extend_phys_sum(last.phys_ranges@, extent, phys);
            }
            let ghost before = last;
            last.extend_by(extent, phys);
            pages.push(last);
            proof {
                let lp = last.phys_ranges@;
                let bp = before.phys_ranges@;
                assert forall|k: int| 0 <= k < lp.len() implies #[trigger] lp[k].wf() by {
                    if k < bp.len() - 1 {
                        assert(lp[k] == bp[k]);
                    }
                }
                assert(last@.wf());
                assert forall|k: int| 0 <= k < pages@.len() implies (#[trigger] pages@[k])@.wf() by {
                    if k < n - 1 {
                        assert(pages@[k] == old_pages[k]);
                    }
                }
                assert forall|k: int| 0 <= k < pages@.len() - 1 implies !(
                #[trigger] pages@[k])@.coalescable_with(pages@[k + 1]@) by {
                    assert(pages@[k] == old_pages[k]);
                    if k < n - 2 {
                        assert(pages@[k + 1] == old_pages[k + 1]);
                    }
                }
                assert(pages@.map_values(|r: ArmPageRange| r@) =~= spec_add_arm_leaf(
                    old_pages.map_values(|r: ArmPageRange| r@),
                    va,
                    extent,
                    phys,
                    attr,
                ));
            }
            return ;
        }
        pages.push(last);
        proof {
            assert(pages@ =~= old_pages);
        }
    }
    let mut backing: Vec<PhysRange> = Vec::new();
    backing.push(PhysRange::new(phys, extent));
    let range = ArmPageRange { va: va, extent: extent, phys_ranges: backing, attr: attr };
    pages.push(range);
    proof {
        assert(range.phys_ranges@ =~= seq![PhysRange { phys_base: phys, phys_extent: extent }]);
        assert(range@ == fresh);
        assert(phys_sum(range.phys_ranges@) == extent) by {
            assert(range.phys_ranges@.drop_last() =~= Seq::<PhysRange>::empty());
            assert(phys_sum(Seq::<PhysRange>::empty()) == 0);
        }
        assert forall|k: int| 0 <= k < pages@.len() implies (#[trigger] pages@[k])@.wf() by {
            if k < n {
                assert(pages@[k] == old_pages[k]);
            }
        }
        assert forall|k: int| 0 <= k < pages@.len() - 1 implies !(
        #[trigger] pages@[k])@.coalescable_with(pages@[k + 1]@) by {
            assert(pages@[k] == old_pages[k]);
            if k < n - 1 {
                assert(pages@[k + 1] == old_pages[k + 1]);
            }
        }
        assert(pages@.map_values(|r: ArmPageRange| r@) =~= spec_add_arm_leaf(
            old_pages.map_values(|r: ArmPageRange| r@),
            va,
            extent,
            phys,
            attr,
        ));
    }
}

/// Whether entry `raw` of a table at a level that is not the last one is a
/// block or page leaf rather than a pointer to a sub-table.
pub open spec fn spec_is_arm_leaf(raw: u64, last_level: bool) -> bool {
    let table_pointer = bit_set(raw, 1);
    (table_pointer && bit_set(raw, 52)) || !table_pointer || last_level
}

/// The attributes of a leaf entry under tables whose execute-never bits were
/// `table_xn` and `table_pxn`.
pub open spec fn spec_arm_leaf_attr(raw: u64, table_xn: bool, table_pxn: bool) -> ArmPageAttributes {
    ArmPageAttributes {
        xn: bit_set(raw, 54) || table_xn,
        pxn: bit_set(raw, 53) || table_pxn,
        permission_bits: ((raw >> 6u64) & 3) as u8,
    }
}

fn leaf_attributes(raw: u64, table_xn: bool, table_pxn: bool) -> (r: ArmPageAttributes)
    ensures
        r == spec_arm_leaf_attr(raw, table_xn, table_pxn),
        r.permission_bits < 4,
{
    assert((raw >> 6u64) & 3 < 4) by (bit_vector);
    ArmPageAttributes {
        xn: has_bit(raw, 54) || table_xn,
        pxn: has_bit(raw, 53) || table_pxn,
        permission_bits: ((raw >> 6u64) & 3) as u8,
    }
}

proof fn lemma_output_address_bound(raw: u64)
    ensures
        raw & mask_bits(12, 47) <= 0xFFFF_FFFF_FFFFu64,
{
    assert((((1u64 << 48u64) - 1) as u64 ^ (((1u64 << 12u64) - 1) as u64)) <= 0xFFFF_FFFF_FFFFu64)
        by (bit_vector);
    lemma_and_le(raw, mask_bits(12, 47));
}

/// The size in bytes of a translation table of this granule.
pub open spec fn spec_granule_size(g: Granularity) -> int {
    match g {
        Granularity::Pt4k => 0x1000,
        Granularity::Pt16k => 0x4000,
        Granularity::Pt64k => 0x10000,
    }
}

/// The ranges after the first `n` entries of `table`, held in `block`, are
/// walked depth-first on top of `pages`; sub-tables are read through `rd`.
/// None when a read fails anywhere.
pub open spec fn spec_arm_entries(
    gran: int,
    levels: Seq<LevelRangeInfo>,
    table: TablePointerEntry,
    block: Seq<u8>,
    n: int,
    rd: spec_fn(int, int) -> Option<Seq<u8>>,
    pages: Seq<ArmRangeView>,
) -> Option<Seq<ArmRangeView>>
    decreases levels.len() - table.level, n,
{
    if table.level >= levels.len() || levels.len() > usize::MAX {
        None
    } else if n <= 0 {
        Some(pages)
    } else {
        match spec_arm_entries(gran, levels, table, block, n - 1, rd, pages) {
            None => None,
            Some(before) => {
                let raw = le_u64(block, (n - 1) * 8);
                if !bit_set(raw, 0) {
                    Some(before)
                } else {
                    let info = levels[table.level as int];
                    let va = table.va | (((n - 1) as u64) << info.bit_start_incl);
                    let base = raw & mask_bits(12, 47);
                    if spec_is_arm_leaf(raw, table.level + 1 == levels.len()) {
                        if info.block_size - 1 <= u64::MAX - va {
                            Some(
                                spec_add_arm_leaf(
                                    before,
                                    va,
                                    info.block_size,
                                    base,
                                    spec_arm_leaf_attr(raw, table.xn, table.pxn),
                                ),
                            )
                        } else {
                            Some(before)
                        }
                    } else {
                        let sub = TablePointerEntry {
                            va: va,
                            base_address: base,
                            xn: bit_set(raw, 60) || table.xn,
                            pxn: bit_set(raw, 59) || table.pxn,
                            level: (table.level + 1) as usize,
                        };
                        let read: Option<Seq<u8>> = rd((base as usize) as int, gran);
                        match read {
                            None => None,
                            Some(b) => spec_arm_entries(gran, levels, sub, b, (b.len() / 8) as int, rd, before),
                        }
                    }
                }
            },
        }
    }
}

/// Reading `table` through `rd` and walking it on top of `pages`.
pub open spec fn spec_arm_table(
    gran: int,
    levels: Seq<LevelRangeInfo>,
    table: TablePointerEntry,
    rd: spec_fn(int, int) -> Option<Seq<u8>>,
    pages: Seq<ArmRangeView>,
) -> Option<Seq<ArmRangeView>> {
    let read: Option<Seq<u8>> = rd((table.base_address as usize) as int, gran);
    match read {
        None => None,
        Some(b) => spec_arm_entries(gran, levels, table, b, (b.len() / 8) as int, rd, pages),
    }
}

proof fn lemma_arm_failure_sticks(
    gran: int,
    levels: Seq<LevelRangeInfo>,
    table: TablePointerEntry,
    block: Seq<u8>,
    k: int,
    n: int,
    rd: spec_fn(int, int) -> Option<Seq<u8>>,
    pages: Seq<ArmRangeView>,
)
    requires
        0 <= k <= n,
        spec_arm_entries(gran, levels, table, block, k, rd, pages) is None,
    ensures
        spec_arm_entries(gran, levels, table, block, n, rd, pages) is None,
    decreases n - k,
{
    if k < n {
        lemma_arm_failure_sticks(gran, levels, table, block, k, n - 1, rd, pages);
    }
}

/// Walks the table that `table` points to: reads it, emits its leaves into
/// `pages` and descends into its sub-tables. Any failed read ends the walk
/// with that error.
fn parse_block_arm64<M: MemoryView>(
    context: &ArmContext,
    memory: &mut M,
    table: &TablePointerEntry,
    level_ranges: &LevelRanges,
    pages: &mut Vec<ArmPageRange>,
    Ghost(exact): Ghost<bool>,
    Ghost(rd): Ghost<spec_fn(int, int) -> Option<Seq<u8>>>,
) -> (r: Result<(), Error>)
    requires
        old(memory).inv(),
        reads_follow(*old(memory), exact, rd),
        level_ranges.wf(),
        table.level < level_ranges.levels@.len(),
        arm_ranges_wf(old(pages)@),
    ensures
        final(memory).inv(),
        reads_follow(*final(memory), exact, rd),
        arm_ranges_wf(final(pages)@),
        r is Err ==> r == Err::<(), Error>(Error::FailedToReadBlock),
        exact ==> match r {
            Ok(_) => spec_arm_table(
                spec_granule_size(context.granularity),
                level_ranges.levels@,
                *table,
                rd,
                old(pages)@.map_values(|r: ArmPageRange| r@),
            ) == Some(final(pages)@.map_values(|r: ArmPageRange| r@)),
            Err(_) => spec_arm_table(
                spec_granule_size(context.granularity),
                level_ranges.levels@,
                *table,
                rd,
                old(pages)@.map_values(|r: ArmPageRange| r@),
            ) is None,
        },
    decreases level_ranges.levels@.len() - table.level,
{
    let ghost gran = spec_granule_size(context.granularity);
    let ghost levels = level_ranges.levels@;
    let ghost pages0 = pages@.map_values(|r: ArmPageRange| r@);
    let granule = context.granularity.get_block_size();
    let block = match memory.read_block(table.base_address as usize, granule) {
        Ok(b) => b,
        Err(e) => {
            return Err(e);
        },
    };
    let level_info = *level_ranges.get_level_info(table.level);
    let num_levels = level_ranges.get_num_levels();
    let last_level = table.level + 1 == num_levels;
    let address_mask = mask_range(12, 47);
    let block_len = block.len();
    let num_entries = block_len / 8;
    let mut block_index: usize = 0;
    while block_index < num_entries
        invariant
            memory.inv(),
            reads_follow(*memory, exact, rd),
            gran == spec_granule_size(context.granularity),
            levels == level_ranges.levels@,
            pages0 == old(pages)@.map_values(|r: ArmPageRange| r@),
            exact ==> rd((table.base_address as usize) as int, gran) == Some(block@),
            level_ranges.wf(),
            table.level < level_ranges.levels@.len(),
            level_info == level_ranges.levels@[table.level as int],
            last_level == (table.level + 1 == level_ranges.levels@.len()),
            address_mask == mask_bits(12, 47),
            num_levels == level_ranges.levels@.len(),
            block_len == block@.len(),
            num_entries == block@.len() / 8,
            block_index <= num_entries,
            arm_ranges_wf(pages@),
            exact ==> spec_arm_entries(gran, levels, *table, block@, block_index as int, rd, pages0)
                == Some(pages@.map_values(|r: ArmPageRange| r@)),
        decreases num_entries - block_index,
    {
        proof {
            assert(block_index * 8 + 8 <= block_len) by (nonlinear_arith)
                requires
                    block_index < num_entries,
                    num_entries == block_len / 8,
            ;
        }
        let raw_entry = read_u64_le(block.as_slice(), block_index * 8);
        if has_bit(raw_entry, 0) {
            let table_pointer = has_bit(raw_entry, 1);
            let contiguous = has_bit(raw_entry, 52);
            let va = table.va | ((block_index as u64) << level_info.bit_start_incl);
            let base_address = raw_entry & address_mask;
            proof {
                lemma_output_address_bound(raw_entry);
            }
            if (table_pointer && contiguous) || !table_pointer || last_level {
                let attr = leaf_attributes(raw_entry, table.xn, table.pxn);
                let extent = level_info.block_size;
                if extent - 1 <= u64::MAX - va {
                    add_leaf(pages, va, extent, base_address, attr);
                }
            } else {
                let sub_table = TablePointerEntry {
                    va: va,
                    base_address: base_address,
                    xn: has_bit(raw_entry, 60) || table.xn,
                    pxn: has_bit(raw_entry, 59) || table.pxn,
                    level: table.level + 1,
                };
                match parse_block_arm64(
                    context,
                    memory,
                    &sub_table,
                    level_ranges,
                    pages,
                    Ghost(exact),
                    Ghost(rd),
                ) {
                    Ok(_) => {},
                    Err(e) => {
                        proof {
                            if exact {
                                assert(spec_arm_entries(
                                    gran,
                                    levels,
                                    *table,
                                    block@,
                                    block_index + 1,
                                    rd,
                                    pages0,
                                ) is None);
                                lemma_arm_failure_sticks(
                                    gran,
                                    levels,
                                    *table,
                                    block@,
                                    block_index + 1,
                                    (block@.len() / 8) as int,
                                    rd,
                                    pages0,
                                );
                            }
                        }
                        return Err(e);
                    },
                }
            }
        }
        block_index += 1;
    }
    Ok(())
}

/// Whether a context can be walked: a 64-bit flavour whose address space is
/// wider than one page and at most 64 bits.
pub open spec fn arm_context_walkable(context: ArmContext) -> bool {
    &&& context.spec_flavour() == ArmFlavour::Arm64
    &&& context.spec_granularity().spec_bit_start() < context.spec_va_size()
    &&& context.spec_va_size() <= 64
}

/// The levels of a context, from the top.
pub open spec fn spec_levels(context: ArmContext) -> Seq<LevelRangeInfo> {
    spec_level_infos(
        context.spec_granularity().spec_bit_start(),
        context.spec_granularity().spec_bits_per_level(),
        context.spec_va_size() as int,
    )
}

/// The virtual address where the walk starts: the upper half of the address
/// space has every bit above the address-space size set.
pub open spec fn spec_root_va(context: ArmContext) -> u64 {
    let size = context.spec_va_size();
    if context.spec_top_bit() == 1 && size < 64 {
        !(((1u64 << size) - 1) as u64)
    } else {
        0
    }
}

/// The ranges that walking the tables rooted at `pa` yields when every read
/// of `size` bytes at `offset` returns `rd(offset, size)`; None when the
/// context cannot be walked or a read fails.
pub open spec fn spec_collect_arm(
    context: ArmContext,
    pa: u64,
    rd: spec_fn(int, int) -> Option<Seq<u8>>,
) -> Option<Seq<ArmRangeView>> {
    if !arm_context_walkable(context) {
        None
    } else {
        spec_arm_table(
            spec_granule_size(context.spec_granularity()),
            spec_levels(context),
            TablePointerEntry {
                va: spec_root_va(context),
                base_address: pa,
                xn: false,
                pxn: false,
                level: 0,
            },
            rd,
            Seq::empty(),
        )
    }
}

fn parse_arm64<M: MemoryView>(
    context: &ArmContext,
    memory: &mut M,
    pa: u64,
    Ghost(exact): Ghost<bool>,
    Ghost(rd): Ghost<spec_fn(int, int) -> Option<Seq<u8>>>,
) -> (r: Result<Vec<ArmPageRange>, Error>)
    requires
        old(memory).inv(),
        reads_follow(*old(memory), exact, rd),
        arm_context_walkable(*context),
    ensures
        final(memory).inv(),
        r matches Ok(pages) ==> arm_ranges_wf(pages@),
        r is Err ==> r == Err::<Vec<ArmPageRange>, Error>(Error::FailedToReadBlock),
        exact ==> match r {
            Ok(pages) => spec_collect_arm(*context, pa, rd) == Some(
                pages@.map_values(|r: ArmPageRange| r@),
            ),
            Err(_) => spec_collect_arm(*context, pa, rd) is None,
        },
{
    let ranges = context.granularity.get_level_ranges(context.virtual_address_space_size);
    proof {
        let b = context.granularity.spec_bit_start();
        let bpl = context.granularity.spec_bits_per_level();
        let size = context.virtual_address_space_size as int;
        assert(spec_level_starts(b, bpl, size).len() > 0);
        assert(ranges.levels@.map_values(|l: LevelRangeInfo| l.bit_start_incl as int).len()
            == ranges.levels@.len());
    }
    let size = context.virtual_address_space_size;
    let root_va: u64 = if context.top_bit == 1 && size < 64 {
        assert(1u64 << size >= 1) by (bit_vector)
            requires
                size < 64,
        ;
        !((1u64 << size) - 1)
    } else {
        0
    };
    let root = TablePointerEntry { va: root_va, base_address: pa, xn: false, pxn: false, level: 0 };
    let mut page_entries: Vec<ArmPageRange> = Vec::new();
    proof {
        assert(page_entries@.map_values(|r: ArmPageRange| r@) =~= Seq::<ArmRangeView>::empty());
        assert(root_va == spec_root_va(*context));
    }
    match parse_block_arm64(
        context,
        memory,
        &root,
        &ranges,
        &mut page_entries,
        Ghost(exact),
        Ghost(rd),
    ) {
        Ok(_) => Ok(page_entries),
        Err(e) => Err(e),
    }
}

/// Walks the ARM translation tables rooted at physical address `pa` and
/// returns the coalesced mappings in walk order. A context that cannot be
/// walked (a 32-bit flavour, or an address-space size out of range) is a
/// parsing error; a failed read at any depth ends the walk with its error.
pub fn collect_pages<M: MemoryView>(context: &ArmContext, memory: &mut M, pa: u64) -> (r: Result<
    Vec<ArmPageRange>,
    Error,
>)
    requires
        old(memory).inv(),
    ensures
        final(memory).inv(),
        !arm_context_walkable(*context) ==> r == Err::<Vec<ArmPageRange>, Error>(
            Error::GenericParsingError,
        ),
        r matches Ok(pages) ==> arm_ranges_wf(pages@),
        arm_context_walkable(*context) && r is Err ==> r == Err::<Vec<ArmPageRange>, Error>(
            Error::FailedToReadBlock,
        ),
        deterministic(*old(memory)) ==> match r {
            Ok(pages) => spec_collect_arm(*context, pa, |o: int, s: int| read_result(*old(memory), o, s))
                == Some(pages@.map_values(|r: ArmPageRange| r@)),
            Err(_) => spec_collect_arm(*context, pa, |o: int, s: int| read_result(*old(memory), o, s)) is None,
        },
{
    let ghost exact = deterministic(*memory);
    let ghost rd = |o: int, s: int| read_result(*memory, o, s);
    match context.flavour {
        ArmFlavour::Arm64 => {
            let start = context.granularity.get_bit_start();
            if context.virtual_address_space_size <= start || context.virtual_address_space_size
                > 64 {
                return Err(Error::GenericParsingError);
            }
            parse_arm64(context, memory, pa, Ghost(exact), Ghost(rd))
        },
        ArmFlavour::Arm32 => Err(Error::GenericParsingError),
    }
}

/// Whether every range's physical pieces add up to its extent.
pub open spec fn phys_total_matches_arm(s: Seq<ArmRangeView>) -> bool {
    forall|k: int| 0 <= k < s.len() ==> phys_sum((#[trigger] s[k]).phys_ranges) == s[k].extent
}

/// Emitting a leaf keeps the physical pieces of every range adding up to its
/// extent, unless the leaf merges into the last range while its physical
/// block already lies inside that range's last piece (a repeated mapping of
/// the same memory, which extends the range but adds no piece).
pub proof fn lemma_add_leaf_keeps_phys_total_arm(
    s: Seq<ArmPageRange>,
    va: u64,
    extent: u64,
    phys: u64,
    attr: ArmPageAttributes,
)
    requires
        arm_ranges_wf(s),
        phys_total_matches_arm(s.map_values(|r: ArmPageRange| r@)),
        !(s.len() > 0 && s.last()@.coalescable_with(ArmRangeView {
        va: va,
        extent: extent,
        phys_ranges: seq![PhysRange { phys_base: phys, phys_extent: extent }],
        attr: attr,
    }) && absorbed_by_last(s.last()@.phys_ranges, extent, phys)),
    ensures
        phys_total_matches_arm(spec_add_arm_leaf(s.map_values(|r: ArmPageRange| r@), va, extent, phys, attr)),
{
    let views = s.map_values(|r: ArmPageRange| r@);
    let fresh = ArmRangeView {
        va: va,
        extent: extent,
        phys_ranges: seq![PhysRange { phys_base: phys, phys_extent: extent }],
        attr: attr,
    };
    let out = spec_add_arm_leaf(views, va, extent, phys, attr);
    assert(phys_sum(fresh.phys_ranges) == extent) by {
        assert(fresh.phys_ranges.drop_last() =~= Seq::<PhysRange>::empty());
        assert(phys_sum(Seq::<PhysRange>::empty()) == 0);
    }
    if s.len() > 0 && s.last()@.coalescable_with(fresh) {
        let last = s.last()@;
        assert(views[s.len() - 1] == last);
        assert(last.wf());
        lemma_phys_sum_nonneg(last.phys_ranges);
        lemma_extend_phys_sum(last.phys_ranges, extent, phys);
        assert forall|k: int| 0 <= k < out.len() implies phys_sum((#[trigger] out[k]).phys_ranges)
            == out[k].extent by {
            if k < s.len() - 1 {
                assert(out[k] == views[k]);
            }
        }
    } else {
        assert forall|k: int| 0 <= k < out.len() implies phys_sum((#[trigger] out[k]).phys_ranges)
            == out[k].extent by {
            if k < s.len() {
                assert(out[k] == views[k]);
            }
        }
    }
}

} // verus!
