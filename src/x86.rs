use vstd::prelude::*;
use crate::bits::{
    bit_set, canon_int, canonical, has_bit, lemma_and_le, lemma_canonical_is_sign_extended,
    lemma_canonical_value, lemma_index_bits_fit, lemma_index_va, mask_bits,
    mask_range, le_u32, le_u64, read_u32_le, read_u64_le, sign_extended,
};
use crate::common::{
    absorbed_by_last, all_phys_wf, extend_phys_ranges, lemma_extend_phys_sum, lemma_phys_sum_nonneg, phys_sum,
    spec_extend_phys, Error, PhysRange,
};
use crate::memory::{deterministic, read_result, reads_follow, MemoryView};

verus! {

/// x86 paging flavour: 32-bit (legacy or PAE) or IA-32e.
#[derive(Clone, Copy, PartialEq, Eq, Structural, Debug)]
pub enum X86Flavour {
    X86,
    X64,
}

/// Paging levels, from the top.
#[derive(Clone, Copy, PartialEq, Eq, Structural, Debug)]
pub enum LevelType {
    PML4,
    PDP,
    PD,
    PT,
}

pub open spec fn level_index(lvl: LevelType) -> int {
    match lvl {
        LevelType::PML4 => 0,
        LevelType::PDP => 1,
        LevelType::PD => 2,
        LevelType::PT => 3,
    }
}

fn get_next_level_type(lvl: LevelType) -> (r: LevelType)
    requires
        lvl != LevelType::PT,
    ensures
        level_index(r) == level_index(lvl) + 1,
{
    match lvl {
        LevelType::PML4 => LevelType::PDP,
        LevelType::PDP => LevelType::PD,
        _ => LevelType::PT,
    }
}

/// Attribute bits of a leaf entry.
#[derive(Clone, Copy, PartialEq, Eq, Structural, Debug)]
pub struct PageAttributes {
    pub accessed: bool,
    pub dirty: bool,
    pub writeable: bool,
    pub user: bool,
    pub pwt: bool,
    pub pcd: bool,
    pub pat: bool,
    pub global: bool,
    pub nx: bool,
}

/// A coalesced x86 mapping: `extent` bytes of virtual memory from `va`, backed
/// by `phys_ranges` in order.
#[derive(Clone, PartialEq, Debug)]
pub struct X86PageRange {
    pub va: u64,
    pub extent: u64,
    pub attributes: PageAttributes,
    pub phys_ranges: Vec<PhysRange>,
}

/// The mathematical value of an x86 range.
pub struct X86RangeView {
    pub va: u64,
    pub extent: u64,
    pub attributes: PageAttributes,
    pub phys_ranges: Seq<PhysRange>,
}

impl View for X86PageRange {
    type V = X86RangeView;

    open spec fn view(&self) -> X86RangeView {
        X86RangeView {
            va: self.va,
            extent: self.extent,
            attributes: self.attributes,
            phys_ranges: self.phys_ranges@,
        }
    }
}

/// The physical address at offset `rel` into the memory that `phys` describes.
pub open spec fn spec_backing_address(phys: Seq<PhysRange>, rel: int) -> Option<int>
    decreases phys.len(),
{
    if phys.len() == 0 || rel < 0 {
        None
    } else if rel < phys[0].phys_extent {
        Some(phys[0].phys_base + rel)
    } else {
        spec_backing_address(phys.skip(1), rel - phys[0].phys_extent)
    }
}

/// Only these three attributes decide whether two neighbouring x86 leaves merge.
pub open spec fn same_coalescing_attributes(a: PageAttributes, b: PageAttributes) -> bool {
    a.writeable == b.writeable && a.user == b.user && a.nx == b.nx
}

impl X86RangeView {
    /// A range as the walker produces it.
    pub open spec fn wf(&self) -> bool {
        &&& self.extent > 0
        &&& self.va + self.extent <= u64::MAX + 1
        &&& self.phys_ranges.len() > 0
        &&& all_phys_wf(self.phys_ranges)
        &&& phys_sum(self.phys_ranges) <= self.extent
        &&& sign_extended(self.va)
    }

    /// Whether `next` could have been merged into this range.
    pub open spec fn coalescable_with(&self, next: X86RangeView) -> bool {
        &&& self.va + self.extent == next.va
        &&& same_coalescing_attributes(self.attributes, next.attributes)
        &&& self.extent + next.extent <= u64::MAX
    }
}

/// The list invariant of a walk's output: valid ranges, no two neighbours mergeable.
pub open spec fn x86_ranges_wf(s: Seq<X86PageRange>) -> bool {
    &&& forall|k: int| 0 <= k < s.len() ==> (#[trigger] s[k])@.wf()
    &&& forall|k: int|
        0 <= k < s.len() - 1 ==> !(#[trigger] s[k])@.coalescable_with(s[k + 1]@)
    &&& forall|k: int|
        0 <= k < s.len() - 1 ==> (#[trigger] s[k]).va + s[k].extent <= s[k + 1].va
}

/// Every range of `s` ends at or below `f`.
pub open spec fn pages_end_le(s: Seq<X86PageRange>, f: int) -> bool {
    forall|k: int| 0 <= k < s.len() ==> (#[trigger] s[k]).va + s[k].extent <= f
}

impl X86PageRange {
    pub fn new(va: u64, extent: u64, attr: PageAttributes, ranges: Vec<PhysRange>) -> (r: Self)
        ensures
            r.va == va,
            r.extent == extent,
            r.attributes == attr,
            r.phys_ranges@ == ranges@,
    {
        X86PageRange { va: va, extent: extent, attributes: attr, phys_ranges: ranges }
    }

    pub fn get_va(&self) -> (r: u64)
        ensures
            r == self.va,
    {
        self.va
    }

    pub fn get_extent(&self) -> (r: u64)
        ensures
            r == self.extent,
    {
        self.extent
    }

    pub fn get_attributes(&self) -> (r: &PageAttributes)
        ensures
            *r == self.attributes,
    {
        &self.attributes
    }

    pub fn get_phys_ranges(&self) -> (r: &Vec<PhysRange>)
        ensures
            r@ == self.phys_ranges@,
    {
        &self.phys_ranges
    }

    /// A copy with the same value.
    pub fn copy(&self) -> (r: Self)
        ensures
            r@ == self@,
    {
        let mut phys: Vec<PhysRange> = Vec::new();
        let mut i: usize = 0;
        while i < self.phys_ranges.len()
            invariant
                i <= self.phys_ranges@.len(),
                phys@ == self.phys_ranges@.subrange(0, i as int),
            decreases self.phys_ranges@.len() - i,
        {
            phys.push(self.phys_ranges[i]);
            i += 1;
            proof {
                assert(phys@ =~= self.phys_ranges@.subrange(0, i as int));
            }
        }
        proof {
            assert(phys@ =~= self.phys_ranges@);
        }
        X86PageRange {
            va: self.va,
            extent: self.extent,
            attributes: self.attributes,
            phys_ranges: phys,
        }
    }

    /// The guest physical address that backs virtual address `va`, when the
    /// physical ranges reach that far.
    pub fn gva_to_gpa(&self, va: u64) -> (r: Option<u64>)
        requires
            all_phys_wf(self.phys_ranges@),
        ensures
            match r {
                Some(p) => va >= self.va && spec_backing_address(self.phys_ranges@, va - self.va) == Some(
                    p as int,
                ),
                None => va < self.va || spec_backing_address(self.phys_ranges@, va - self.va) is None,
            },
    {
        if va < self.va {
            return None;
        }
        let mut rel: u64 = va - self.va;
        let mut i: usize = 0;
        proof {
            assert(self.phys_ranges@.skip(0) =~= self.phys_ranges@);
        }
        while i < self.phys_ranges.len()
            invariant
                va >= self.va,
                i <= self.phys_ranges@.len(),
                all_phys_wf(self.phys_ranges@),
                spec_backing_address(self.phys_ranges@, va - self.va) == spec_backing_address(
                    self.phys_ranges@.skip(i as int),
                    rel as int,
                ),
            decreases self.phys_ranges@.len() - i,
        {
            let piece = self.phys_ranges[i];
            proof {
                let rest = self.phys_ranges@.skip(i as int);
                assert(rest[0] == piece);
                assert(rest.skip(1) =~= self.phys_ranges@.skip(i + 1));
                assert(piece.wf());
            }
            if rel < piece.phys_extent {
                return Some(piece.phys_base + rel);
            }
            rel = rel - piece.phys_extent;
            i += 1;
        }
        proof {
            assert(self.phys_ranges@.skip(i as int).len() == 0);
        }
        None
    }

    /// Whether a leaf at `next_va` continues this range with the same
    /// writeable, user and nx bits.
    pub fn is_extendable_by(&self, next_va: u64, next_attributes: &PageAttributes) -> (r: bool)
        ensures
            r == (self.va + self.extent == next_va && same_coalescing_attributes(
                self.attributes,
                *next_attributes,
            )),
    {
        self.extent <= u64::MAX - self.va && self.va + self.extent == next_va
            && self.attributes.writeable == next_attributes.writeable && self.attributes.user
            == next_attributes.user && self.attributes.nx == next_attributes.nx
    }

    /// Grows the range by a leaf of `next_extent` bytes backed at `next_phys`.
    pub fn extend_by(&mut self, next_extent: u64, next_phys: u64)
        requires
            old(self).phys_ranges@.len() > 0,
            old(self).phys_ranges@.last().wf(),
            old(self).extent + next_extent <= u64::MAX,
            old(self).phys_ranges@.last().phys_extent + next_extent <= u64::MAX,
            next_phys + next_extent <= u64::MAX,
        ensures
            final(self).va == old(self).va,
            final(self).attributes == old(self).attributes,
            final(self).extent == old(self).extent + next_extent,
            final(self).phys_ranges@ == spec_extend_phys(
                old(self).phys_ranges@,
                next_extent,
                next_phys,
            ),
    {
        self.extent = self.extent + next_extent;
        extend_phys_ranges(&mut self.phys_ranges, next_extent, next_phys);
    }
}

/// The walk's fixed parameters.
pub struct X86Context {
    pub flavour: X86Flavour,
    pub pae: bool,
    /// Whether bit 7 makes an upper-level entry a leaf.
    pub pse: bool,
    pub entry_size: usize,
    pub page_size: usize,
}

impl X86Context {
    pub open spec fn wf(&self) -> bool {
        &&& self.page_size == 4096
        &&& self.entry_size == if self.flavour == X86Flavour::X86 && !self.pae {
            4usize
        } else {
            8usize
        }
    }

    /// Levels that the flavour has.
    pub open spec fn has_level(&self, lvl: LevelType) -> bool {
        match lvl {
            LevelType::PML4 => self.flavour == X86Flavour::X64,
            LevelType::PDP => self.flavour == X86Flavour::X64 || self.pae,
            _ => true,
        }
    }
}

/// The lowest virtual-address bit that an entry of `lvl` translates.
pub open spec fn spec_low_bit(ctx: X86Context, lvl: LevelType) -> u64 {
    match lvl {
        LevelType::PML4 => 39,
        LevelType::PDP => 30,
        LevelType::PD => if ctx.flavour == X86Flavour::X86 && !ctx.pae {
            22
        } else {
            21
        },
        LevelType::PT => 12,
    }
}

/// The number of virtual-address bits that a whole table at `lvl` spans.
pub open spec fn spec_table_bits(ctx: X86Context, lvl: LevelType) -> u64 {
    match lvl {
        LevelType::PML4 => 48,
        LevelType::PDP => if ctx.flavour == X86Flavour::X64 {
            39
        } else {
            32
        },
        LevelType::PD => if ctx.flavour == X86Flavour::X86 && !ctx.pae {
            32
        } else {
            30
        },
        LevelType::PT => if ctx.flavour == X86Flavour::X86 && !ctx.pae {
            22
        } else {
            21
        },
    }
}

/// How the levels of a walk nest: an entry spans `1 << low` bytes, a table
/// has room for `1 << (tb - low)` entries, and a sub-table spans one entry.
proof fn lemma_level_shape(ctx: X86Context, lvl: LevelType)
    requires
        ctx.wf(),
        ctx.has_level(lvl),
    ensures
        ({
            let low = spec_low_bit(ctx, lvl);
            let tb = spec_table_bits(ctx, lvl);
            &&& 12 <= low < tb <= 48
            &&& spec_entry_span(ctx, lvl) == 1u64 << low
            &&& (lvl == LevelType::PDP && ctx.flavour == X86Flavour::X86) ==> (1u64 << ((tb
                - low) as u64)) == 4
            &&& !(lvl == LevelType::PDP && ctx.flavour == X86Flavour::X86) ==> (1u64 << ((tb
                - low) as u64)) == 4096int / (ctx.entry_size as int)
            &&& lvl != LevelType::PT ==> spec_table_bits(
                ctx,
                match lvl {
                    LevelType::PML4 => LevelType::PDP,
                    LevelType::PDP => LevelType::PD,
                    _ => LevelType::PT,
                },
            ) == low
        }),
{
    assert((1u64 << 39u64) == 0x80_0000_0000u64) by (bit_vector);
    assert((1u64 << 30u64) == 0x4000_0000u64) by (bit_vector);
    assert((1u64 << 22u64) == 0x40_0000u64) by (bit_vector);
    assert((1u64 << 21u64) == 0x20_0000u64) by (bit_vector);
    assert((1u64 << 12u64) == 0x1000u64) by (bit_vector);
    assert((1u64 << 9u64) == 512u64) by (bit_vector);
    assert((1u64 << 10u64) == 1024u64) by (bit_vector);
    assert((1u64 << 2u64) == 4u64) by (bit_vector);
}

/// The bytes of virtual memory that one entry of `lvl` maps.
pub open spec fn spec_entry_span(ctx: X86Context, lvl: LevelType) -> u64 {
    match lvl {
        LevelType::PML4 => 0x80_0000_0000,
        LevelType::PDP => 0x4000_0000,
        LevelType::PD => if ctx.flavour == X86Flavour::X86 && !ctx.pae {
            0x40_0000
        } else {
            0x20_0000
        },
        LevelType::PT => 0x1000,
    }
}

fn low_bit(ctx: &X86Context, lvl: LevelType) -> (r: u64)
    ensures
        r == spec_low_bit(*ctx, lvl),
{
    match lvl {
        LevelType::PML4 => 39,
        LevelType::PDP => 30,
        LevelType::PD => if ctx.flavour == X86Flavour::X86 && !ctx.pae {
            22
        } else {
            21
        },
        LevelType::PT => 12,
    }
}

fn entry_span(ctx: &X86Context, lvl: LevelType) -> (r: u64)
    ensures
        r == spec_entry_span(*ctx, lvl),
{
    match lvl {
        LevelType::PML4 => 0x80_0000_0000,
        LevelType::PDP => 0x4000_0000,
        LevelType::PD => if ctx.flavour == X86Flavour::X86 && !ctx.pae {
            0x40_0000
        } else {
            0x20_0000
        },
        LevelType::PT => 0x1000,
    }
}

/// A present entry that points to a lower-level table.
#[derive(Clone, Copy)]
pub struct TablePointerEntry {
    pub table_address: u64,
    pub level: LevelType,
    pub va: u64,
}

/// What one raw entry says.
pub enum DecodedEntry {
    Absent,
    Leaf { va: u64, extent: u64, phys: u64, attributes: PageAttributes },
    Table(TablePointerEntry),
}

pub open spec fn spec_is_leaf(ctx: X86Context, lvl: LevelType, raw: u64) -> bool {
    lvl == LevelType::PT || (ctx.pse && bit_set(raw, 7))
}

pub open spec fn spec_leaf_attributes(lvl: LevelType, raw: u64) -> PageAttributes {
    PageAttributes {
        accessed: bit_set(raw, 5),
        dirty: bit_set(raw, 6),
        writeable: bit_set(raw, 1),
        user: bit_set(raw, 2),
        pwt: bit_set(raw, 3),
        pcd: bit_set(raw, 4),
        pat: lvl != LevelType::PT && bit_set(raw, 12),
        global: bit_set(raw, 8),
        nx: bit_set(raw, 63),
    }
}

/// The meaning of entry `raw` of a table at level `lvl`, whose virtual address
/// with the entry's index folded in is `va`.
pub open spec fn spec_decode(ctx: X86Context, lvl: LevelType, raw: u64, va: u64) -> DecodedEntry {
    if !bit_set(raw, 0) {
        DecodedEntry::Absent
    } else if spec_is_leaf(ctx, lvl, raw) {
        DecodedEntry::Leaf {
            va: canonical(va),
            extent: spec_entry_span(ctx, lvl),
            phys: raw & mask_bits(spec_low_bit(ctx, lvl), 51),
            attributes: spec_leaf_attributes(lvl, raw),
        }
    } else {
        DecodedEntry::Table(
            TablePointerEntry {
                table_address: raw & mask_bits(12, 51),
                level: match lvl {
                    LevelType::PML4 => LevelType::PDP,
                    LevelType::PDP => LevelType::PD,
                    _ => LevelType::PT,
                },
                va: va,
            },
        )
    }
}

fn parse_entry(ctx: &X86Context, current_level: LevelType, raw_entry: u64, va: u64) -> (r:
    DecodedEntry)
    ensures
        r == spec_decode(*ctx, current_level, raw_entry, va),
{
    if !has_bit(raw_entry, 0) {
        return DecodedEntry::Absent;
    }
    let ps = if ctx.pse {
        has_bit(raw_entry, 7)
    } else {
        false
    };
    if ps || current_level == LevelType::PT {
        let attributes = PageAttributes {
            accessed: has_bit(raw_entry, 5),
            dirty: has_bit(raw_entry, 6),
            writeable: has_bit(raw_entry, 1),
            user: has_bit(raw_entry, 2),
            pwt: has_bit(raw_entry, 3),
            pcd: has_bit(raw_entry, 4),
            pat: current_level != LevelType::PT && has_bit(raw_entry, 12),
            global: has_bit(raw_entry, 8),
            nx: has_bit(raw_entry, 63),
        };
        let canonical_va = if (va >> 47u64) & 1 == 1 {
            va | 0xFFFF_0000_0000_0000u64
        } else {
            va
        };
        let mask = mask_range(low_bit(ctx, current_level), 51);
        DecodedEntry::Leaf {
            va: canonical_va,
            extent: entry_span(ctx, current_level),
            phys: raw_entry & mask,
            attributes: attributes,
        }
    } else {
        let mask = mask_range(12, 51);
        DecodedEntry::Table(
            TablePointerEntry {
                table_address: raw_entry & mask,
                level: get_next_level_type(current_level),
                va: va,
            },
        )
    }
}

/// The list after a leaf is emitted: merged into the last range when it
/// continues it, appended otherwise.
pub open spec fn spec_add_leaf(
    views: Seq<X86RangeView>,
    va: u64,
    extent: u64,
    phys: u64,
    attributes: PageAttributes,
) -> Seq<X86RangeView> {
    let fresh = X86RangeView {
        va: va,
        extent: extent,
        attributes: attributes,
        phys_ranges: seq![PhysRange { phys_base: phys, phys_extent: extent }],
    };
    if views.len() > 0 && views.last().coalescable_with(fresh) {
        let last = views.last();
        views.update(
            views.len() - 1,
            X86RangeView {
                va: last.va,
                extent: (last.extent + extent) as u64,
                attributes: last.attributes,
                phys_ranges: spec_extend_phys(last.phys_ranges, extent, phys),
            },
        )
    } else {
        views.push(fresh)
    }
}

/// Emits a leaf, merging it into the last range where it continues it.
fn add_leaf(
    pages: &mut Vec<X86PageRange>,
    va: u64,
    extent: u64,
    phys: u64,
    attributes: PageAttributes,
)
    requires
        x86_ranges_wf(old(pages)@),
        extent > 0,
        va + extent <= u64::MAX + 1,
        phys + extent <= u64::MAX,
        sign_extended(va),
        pages_end_le(old(pages)@, va as int),
    ensures
        x86_ranges_wf(final(pages)@),
        pages_end_le(final(pages)@, va + extent),
        final(pages)@.map_values(|r: X86PageRange| r@) == spec_add_leaf(
            old(pages)@.map_values(|r: X86PageRange| r@),
            va,
            extent,
            phys,
            attributes,
        ),
{
    let ghost old_pages = pages@;
    let ghost fresh = X86RangeView {
        va: va,
        extent: extent,
        attributes: attributes,
        phys_ranges: seq![PhysRange { phys_base: phys, phys_extent: extent }],
    };
    let n = pages.len();
    if n > 0 {
        let mut last = pages.pop().unwrap();
        proof {
            assert(last == old_pages[n - 1]);
        }
        if last.is_extendable_by(va, &attributes) && extent <= u64::MAX - last.extent {
            proof {
                assert(old_pages[n - 1]@.wf());
                assert(all_phys_wf(last.phys_ranges@));
                assert(last.phys_ranges@.last().wf());
                lemma_phys_sum_nonneg(last.phys_ranges@);
                lemma_extend_phys_sum(last.phys_ranges@, extent, phys);
            }
            let ghost before = last;
            last.extend_by(extent, phys);
            pages.push(last);
            proof {
                let lp = last.phys_ranges@;
                let bp = before.phys_ranges@;
                assert forall|k: int| 0 <= k < lp.len() implies #[trigger] lp[k].wf() by {
                    if k < bp.len() - 1 {
                        assert(lp[k] == bp[k]);
                    } else if k < bp.len() {
                    } else {
                    }
                }
                assert(last@.wf());
                assert forall|k: int| 0 <= k < pages@.len() implies (#[trigger] pages@[k])@.wf() by {
                    if k < n - 1 {
                        assert(pages@[k] == old_pages[k]);
                    }
                }
                assert forall|k: int| 0 <= k < pages@.len() - 1 implies !(
                #[trigger] pages@[k])@.coalescable_with(pages@[k + 1]@) by {
                    assert(pages@[k] == old_pages[k]);
                    if k < n - 2 {
                        assert(pages@[k + 1] == old_pages[k + 1]);
                    }
                }
                assert(pages@.map_values(|r: X86PageRange| r@) =~= spec_add_leaf(
                    old_pages.map_values(|r: X86PageRange| r@),
                    va,
                    extent,
                    phys,
                    attributes,
                ));
            }
            return ;
        }
        pages.push(last);
        proof {
            assert(pages@ =~= old_pages);
        }
    }
    let mut backing: Vec<PhysRange> = Vec::new();
    backing.push(PhysRange::new(phys, extent));
    let range = X86PageRange::new(va, extent, attributes, backing);
    pages.push(range);
    proof {
        assert(range.phys_ranges@ =~= seq![PhysRange { phys_base: phys, phys_extent: extent }]);
        assert(range@ == fresh);
        assert(phys_sum(range.phys_ranges@) == extent) by {
            assert(range.phys_ranges@.drop_last() =~= Seq::<PhysRange>::empty());
            assert(phys_sum(Seq::<PhysRange>::empty()) == 0);
        }
        assert forall|k: int| 0 <= k < pages@.len() implies (#[trigger] pages@[k])@.wf() by {
            if k < n {
                assert(pages@[k] == old_pages[k]);
            }
        }
        assert forall|k: int| 0 <= k < pages@.len() - 1 implies !(
        #[trigger] pages@[k])@.coalescable_with(pages@[k + 1]@) by {
            assert(pages@[k] == old_pages[k]);
            if k < n - 1 {
                assert(pages@[k + 1] == old_pages[k + 1]);
            }
        }
        assert(pages@.map_values(|r: X86PageRange| r@) =~= spec_add_leaf(
            old_pages.map_values(|r: X86PageRange| r@),
            va,
            extent,
            phys,
            attributes,
        ));
    }
}

proof fn lemma_leaf_phys_bound(raw: u64, lo: u64)
    requires
        lo < 52,
    ensures
        raw & mask_bits(lo, 51) <= 0xF_FFFF_FFFF_FFFFu64,
{
    assert(((1u64 << 52u64) - 1) as u64 == 0xF_FFFF_FFFF_FFFFu64) by (bit_vector);
    assert((0xF_FFFF_FFFF_FFFFu64 ^ (((1u64 << lo) - 1) as u64)) <= 0xF_FFFF_FFFF_FFFFu64)
        by (bit_vector)
        requires
            lo < 52,
    ;
    lemma_and_le(raw, mask_bits(lo, 51));
}

pub open spec fn scratch_ok(ctx: X86Context, scratch: Seq<Vec<u8>>) -> bool {
    forall|k: int| 0 <= k < scratch.len() ==> (#[trigger] scratch[k])@.len() == ctx.page_size
}

/// Raw entry `i` of a table block: 4-byte entries are zero-extended.
pub open spec fn spec_entry(ctx: X86Context, block: Seq<u8>, i: int) -> u64 {
    if ctx.entry_size == 4 {
        le_u32(block, i * 4)
    } else {
        le_u64(block, i * 8)
    }
}

/// The ranges after the first `n` entries of a table at `level`, held in
/// `block` and covering virtual addresses from `va`, are walked depth-first
/// on top of `pages`. Sub-tables are read through `rd` one page at a time;
/// one that cannot be read is left out.
pub open spec fn spec_walk(
    ctx: X86Context,
    level: LevelType,
    va: u64,
    block: Seq<u8>,
    n: int,
    rd: spec_fn(int, int) -> Option<Seq<u8>>,
    pages: Seq<X86RangeView>,
) -> Seq<X86RangeView>
    decreases 3 - level_index(level), n,
{
    if n <= 0 {
        pages
    } else {
        let before = spec_walk(ctx, level, va, block, n - 1, rd, pages);
        let entry_va = va | (((n - 1) as u64) << spec_low_bit(ctx, level));
        match spec_decode(ctx, level, spec_entry(ctx, block, n - 1), entry_va) {
            DecodedEntry::Absent => before,
            DecodedEntry::Leaf { va, extent, phys, attributes } => {
                if extent - 1 <= u64::MAX - va {
                    spec_add_leaf(before, va, extent, phys, attributes)
                } else {
                    before
                }
            },
            DecodedEntry::Table(t) => {
                if level_index(t.level) == level_index(level) + 1 {
                    let sub: Option<Seq<u8>> = rd((t.table_address as usize) as int, 4096);
                    match sub {
                        Some(b) => spec_walk(
                            ctx,
                            t.level,
                            t.va,
                            b,
                            4096int / (ctx.entry_size as int),
                            rd,
                            before,
                        ),
                        None => before,
                    }
                } else {
                    before
                }
            },
        }
    }
}

/// The bytes of the root table of a walk with these parameters.
pub open spec fn spec_root_size(ctx: X86Context) -> int {
    x86_root_size(ctx.flavour, ctx.pae)
}

/// The bytes of the root table: four 8-byte entries under 32-bit PAE, a
/// page otherwise.
pub open spec fn x86_root_size(flavour: X86Flavour, pae: bool) -> int {
    if flavour == X86Flavour::X86 && pae {
        32
    } else {
        4096
    }
}

/// The walk's parameters for a flavour and its paging switches.
pub open spec fn spec_context(flavour: X86Flavour, pse: bool, pae: bool) -> X86Context {
    X86Context {
        flavour: flavour,
        pae: pae,
        pse: flavour == X86Flavour::X64 || pae || pse,
        entry_size: if flavour == X86Flavour::X86 && !pae {
            4usize
        } else {
            8usize
        },
        page_size: 4096,
    }
}

pub open spec fn spec_root_level(flavour: X86Flavour, pae: bool) -> LevelType {
    if flavour == X86Flavour::X64 {
        LevelType::PML4
    } else if pae {
        LevelType::PDP
    } else {
        LevelType::PD
    }
}

/// The ranges that walking the tables rooted at `pa` yields when every read
/// of `size` bytes at `offset` returns `rd(offset, size)`; None when the root
/// table cannot be read.
pub open spec fn spec_collect_x86(
    flavour: X86Flavour,
    pa: u64,
    pse: bool,
    pae: bool,
    rd: spec_fn(int, int) -> Option<Seq<u8>>,
) -> Option<Seq<X86RangeView>> {
    let ctx = spec_context(flavour, pse, pae);
    let root_size = x86_root_size(flavour, pae);
    match rd((pa as usize) as int, root_size) {
        Some(b) => Some(
            spec_walk(
                ctx,
                spec_root_level(flavour, pae),
                0,
                b,
                root_size / (ctx.entry_size as int),
                rd,
                Seq::empty(),
            ),
        ),
        None => None,
    }
}

/// Walks the entries of one table held in `block`, emitting leaves into
/// `pages` and descending into every readable sub-table. A sub-table that
/// cannot be read is left out. Each level below this one takes its own
/// buffer from `scratch` and returns it.
#[verifier::spinoff_prover]
#[verifier::rlimit(60)]
fn collect_entries_recursive<M: MemoryView>(
    memory: &mut M,
    ctx: &X86Context,
    table: &TablePointerEntry,
    block: &[u8],
    num_entries: usize,
    scratch: &mut Vec<Vec<u8>>,
    pages: &mut Vec<X86PageRange>,
    Ghost(exact): Ghost<bool>,
    Ghost(rd): Ghost<spec_fn(int, int) -> Option<Seq<u8>>>,
)
    requires
        old(memory).inv(),
        reads_follow(*old(memory), exact, rd),
        ctx.wf(),
        ctx.has_level(table.level),
        num_entries * ctx.entry_size <= block@.len(),
        table.va < 0x1_0000_0000_0000u64,
        num_entries <= 1024,
        table.level == LevelType::PML4 ==> num_entries <= 512,
        table.va & (((1u64 << spec_table_bits(*ctx, table.level)) - 1) as u64) == 0,
        num_entries <= (1u64 << ((spec_table_bits(*ctx, table.level) - spec_low_bit(*ctx, table.level)) as u64)),
        pages_end_le(old(pages)@, canon_int(table.va as int)),
        old(scratch)@.len() >= 3 - level_index(table.level),
        scratch_ok(*ctx, old(scratch)@),
        x86_ranges_wf(old(pages)@),
    ensures
        final(memory).inv(),
        reads_follow(*final(memory), exact, rd),
        final(scratch)@.len() == old(scratch)@.len(),
        scratch_ok(*ctx, final(scratch)@),
        x86_ranges_wf(final(pages)@),
        pages_end_le(
            final(pages)@,
            canon_int(table.va + (1u64 << spec_table_bits(*ctx, table.level))),
        ),
        exact ==> final(pages)@.map_values(|r: X86PageRange| r@) == spec_walk(
            *ctx,
            table.level,
            table.va,
            block@,
            num_entries as int,
            rd,
            old(pages)@.map_values(|r: X86PageRange| r@),
        ),
    decreases 3 - level_index(table.level),
{
    let ghost pages0 = pages@.map_values(|r: X86PageRange| r@);
    let low = low_bit(ctx, table.level);
    let block_len = block.len();
    let mut index: usize = 0;
    proof {
        lemma_level_shape(*ctx, table.level);
        assert((0u64 << low) == 0) by (bit_vector);
    }
    while index < num_entries
        invariant
            block_len == block@.len(),
            memory.inv(),
            reads_follow(*memory, exact, rd),
            ctx.wf(),
            ctx.has_level(table.level),
            low == spec_low_bit(*ctx, table.level),
            num_entries * ctx.entry_size <= block@.len(),
            table.va < 0x1_0000_0000_0000u64,
            num_entries <= 1024,
            table.level == LevelType::PML4 ==> num_entries <= 512,
            table.va & (((1u64 << spec_table_bits(*ctx, table.level)) - 1) as u64) == 0,
            num_entries <= (1u64 << ((spec_table_bits(*ctx, table.level) - spec_low_bit(
                *ctx,
                table.level,
            )) as u64)),
            pages_end_le(pages@, canon_int(table.va + ((index as u64) << low))),
            scratch@.len() == old(scratch)@.len(),
            scratch@.len() >= 3 - level_index(table.level),
            scratch_ok(*ctx, scratch@),
            x86_ranges_wf(pages@),
            index <= num_entries,
            exact ==> pages@.map_values(|r: X86PageRange| r@) == spec_walk(
                *ctx,
                table.level,
                table.va,
                block@,
                index as int,
                rd,
                pages0,
            ),
        decreases num_entries - index,
    {
        proof {
            assert(index * ctx.entry_size + ctx.entry_size <= num_entries * ctx.entry_size)
                by (nonlinear_arith)
                requires
                    index < num_entries,
            ;
        }
        let raw_entry: u64 = if ctx.entry_size == 4 {
            read_u32_le(block, index * 4)
        } else {
            read_u64_le(block, index * 8)
        };
        proof {
            assert(raw_entry == spec_entry(*ctx, block@, index as int));
        }
        let va = table.va | ((index as u64) << low);
        let ghost tb = spec_table_bits(*ctx, table.level);
        let ghost raw = table.va | ((index as u64) << low);
        proof {
            lemma_index_bits_fit(table.va, index as u64, low);
            lemma_level_shape(*ctx, table.level);
            lemma_index_va(table.va, index as u64, low, tb);
            lemma_canonical_value(raw);
            assert(canon_int(raw + (1u64 << low)) >= canon_int(raw as int) + (1u64 << low));
        }
        match parse_entry(ctx, table.level, raw_entry, va) {
            DecodedEntry::Absent => {},
            DecodedEntry::Leaf { va, extent, phys, attributes } => {
                proof {
                    lemma_leaf_phys_bound(raw_entry, low);
                    lemma_canonical_is_sign_extended(table.va | ((index as u64) << low));
                }
                if extent - 1 <= u64::MAX - va {
                    add_leaf(pages, va, extent, phys, attributes);
                }
            },
            DecodedEntry::Table(sub_table) => {
                let mut buffer = scratch.pop().unwrap();
                let read = memory.read_block_inplace(
                    sub_table.table_address as usize,
                    ctx.page_size,
                    buffer.as_mut_slice(),
                );
                proof {
                    if exact {
                        assert(buffer@.subrange(0, 4096) =~= buffer@);
                    }
                }
                proof {
                    lemma_level_shape(*ctx, sub_table.level);
                    assert(ctx.page_size == 4096);
                    if ctx.entry_size == 4 {
                        assert(ctx.page_size / ctx.entry_size == 1024) by (nonlinear_arith)
                            requires
                                ctx.page_size == 4096,
                                ctx.entry_size == 4,
                        ;
                    } else {
                        assert(ctx.entry_size == 8);
                        assert(ctx.page_size / ctx.entry_size == 512) by (nonlinear_arith)
                            requires
                                ctx.page_size == 4096,
                                ctx.entry_size == 8,
                        ;
                    }
                    assert(buffer@.len() == 4096);
                }
                if read.is_ok() {
                    collect_entries_recursive(
                        memory,
                        ctx,
                        &sub_table,
                        buffer.as_slice(),
                        ctx.page_size / ctx.entry_size,
                        scratch,
                        pages,
                        Ghost(exact),
                        Ghost(rd),
                    );
                }
                scratch.push(buffer);
                proof {
                    assert forall|k: int| 0 <= k < scratch@.len() implies (
                    #[trigger] scratch@[k])@.len() == ctx.page_size by {
                        if k < scratch@.len() - 1 {
                        }
                    }
                }
            },
        }
        index += 1;
    }
    proof {
        let tb = spec_table_bits(*ctx, table.level);
        if num_entries > 0 {
            lemma_index_va(table.va, (num_entries - 1) as u64, low, tb);
        }
    }
}

/// Reads the root table and walks it.
fn collect_pages_common<M: MemoryView>(
    memory: &mut M,
    root: &TablePointerEntry,
    ctx: &X86Context,
    pages: &mut Vec<X86PageRange>,
    Ghost(exact): Ghost<bool>,
    Ghost(rd): Ghost<spec_fn(int, int) -> Option<Seq<u8>>>,
) -> (r: Result<(), Error>)
    requires
        old(memory).inv(),
        reads_follow(*old(memory), exact, rd),
        ctx.wf(),
        ctx.has_level(root.level),
        root.va == 0,
        old(pages)@.len() == 0,
    ensures
        final(memory).inv(),
        x86_ranges_wf(final(pages)@),
        r is Err ==> r == Err::<(), Error>(Error::FailedToReadBlock) && old(memory).admits(
            (root.table_address as usize) as int,
            spec_root_size(*ctx),
            None,
        ),
        exact ==> match r {
            Ok(_) => rd((root.table_address as usize) as int, spec_root_size(*ctx)) matches Some(b)
                && final(pages)@.map_values(|r: X86PageRange| r@) == spec_walk(
                *ctx,
                root.level,
                root.va,
                b,
                spec_root_size(*ctx) / (ctx.entry_size as int),
                rd,
                Seq::empty(),
            ),
            Err(_) => rd((root.table_address as usize) as int, spec_root_size(*ctx)) is None,
        },
{
    // The PAE root is a block of four 8-byte entries.
    let (root_size, num_entries) = if ctx.flavour == X86Flavour::X86 && ctx.pae {
        (32usize, 4usize)
    } else {
        (ctx.page_size, ctx.page_size / ctx.entry_size)
    };
    // A depth-first walk holds one page per level below the root.
    let mut root_block: Vec<u8> = vec![0u8; root_size];
    let mut scratch: Vec<Vec<u8>> = Vec::new();
    let mut k: usize = 0;
    while k < 4
        invariant
            ctx.wf(),
            scratch@.len() == k,
            k <= 4,
            scratch_ok(*ctx, scratch@),
        decreases 4 - k,
    {
        scratch.push(vec![0u8; ctx.page_size]);
        k += 1;
    }
    match memory.read_block_inplace(
        root.table_address as usize,
        root_size,
        root_block.as_mut_slice(),
    ) {
        Ok(_) => {},
        Err(e) => {
            return Err(e);
        },
    }
    proof {
        assert(root_block@.subrange(0, root_size as int) =~= root_block@);
        assert(pages@.map_values(|r: X86PageRange| r@) =~= Seq::<X86RangeView>::empty());
        lemma_level_shape(*ctx, root.level);
        let m = (((1u64 << spec_table_bits(*ctx, root.level)) - 1) as u64);
        assert(0u64 & m == 0) by (bit_vector);
    }
    collect_entries_recursive(
        memory,
        ctx,
        root,
        root_block.as_slice(),
        num_entries,
        &mut scratch,
        pages,
        Ghost(exact),
        Ghost(rd),
    );
    Ok(())
}

/// Walks the x86 page tables rooted at physical address `pa` and returns the
/// coalesced mappings in walk order. Only a failed read of the root table is
/// an error; sub-tables that cannot be read are left out.
pub fn collect_pages<M: MemoryView>(
    flavour: X86Flavour,
    memory: &mut M,
    pa: u64,
    pse: bool,
    pae: bool,
) -> (r: Result<Vec<X86PageRange>, Error>)
    requires
        old(memory).inv(),
    ensures
        final(memory).inv(),
        r matches Ok(pages) ==> x86_ranges_wf(pages@),
        r is Err ==> r == Err::<Vec<X86PageRange>, Error>(Error::FailedToReadBlock)
            && old(memory).admits((pa as usize) as int, x86_root_size(flavour, pae), None),
        deterministic(*old(memory)) ==> match r {
            Ok(pages) => spec_collect_x86(flavour, pa, pse, pae, |o: int, s: int| read_result(*old(memory), o, s))
                == Some(pages@.map_values(|r: X86PageRange| r@)),
            Err(_) => spec_collect_x86(flavour, pa, pse, pae, |o: int, s: int| read_result(*old(memory), o, s)) is None,
        },
{
    let ghost exact = deterministic(*memory);
    let ghost rd = |o: int, s: int| read_result(*memory, o, s);
    let entry_size: usize = if flavour == X86Flavour::X86 && !pae {
        4
    } else {
        8
    };
    let ctx = X86Context {
        flavour: flavour,
        pae: pae,
        pse: if flavour == X86Flavour::X64 || pae {
            true
        } else {
            pse
        },
        entry_size: entry_size,
        page_size: 4096,
    };
    let root = TablePointerEntry {
        table_address: pa,
        level: if flavour == X86Flavour::X64 {
            LevelType::PML4
        } else if pae {
            LevelType::PDP
        } else {
            LevelType::PD
        },
        va: 0,
    };
    let mut pages: Vec<X86PageRange> = Vec::new();
    proof {
        assert(ctx == spec_context(flavour, pse, pae));
        assert(root.level == spec_root_level(flavour, pae));
    }
    match collect_pages_common(memory, &root, &ctx, &mut pages, Ghost(exact), Ghost(rd)) {
        Ok(_) => Ok(pages),
        Err(e) => Err(e),
    }
}

/// Whether every range's physical pieces add up to its extent.
pub open spec fn phys_total_matches_x86(s: Seq<X86RangeView>) -> bool {
    forall|k: int| 0 <= k < s.len() ==> phys_sum((#[trigger] s[k]).phys_ranges) == s[k].extent
}

/// Emitting a leaf keeps the physical pieces of every range adding up to its
/// extent, unless the leaf merges into the last range while its physical
/// block already lies inside that range's last piece (a repeated mapping of
/// the same memory, which extends the range but adds no piece).
pub proof fn lemma_add_leaf_keeps_phys_total_x86(
    s: Seq<X86PageRange>,
    va: u64,
    extent: u64,
    phys: u64,
    attr: PageAttributes,
)
    requires
        x86_ranges_wf(s),
        phys_total_matches_x86(s.map_values(|r: X86PageRange| r@)),
        !(s.len() > 0 && s.last()@.coalescable_with(X86RangeView {
        va: va,
        extent: extent,
        attributes: attr,
        phys_ranges: seq![PhysRange { phys_base: phys, phys_extent: extent }],
    }) && absorbed_by_last(s.last()@.phys_ranges, extent, phys)),
    ensures
        phys_total_matches_x86(spec_add_leaf(s.map_values(|r: X86PageRange| r@), va, extent, phys, attr)),
{
    let views = s.map_values(|r: X86PageRange| r@);
    let fresh = X86RangeView {
        va: va,
        extent: extent,
        attributes: attr,
        phys_ranges: seq![PhysRange { phys_base: phys, phys_extent: extent }],
    };
    let out = spec_add_leaf(views, va, extent, phys, attr);
    assert(phys_sum(fresh.phys_ranges) == extent) by {
        assert(fresh.phys_ranges.drop_last() =~= Seq::<PhysRange>::empty());
        assert(phys_sum(Seq::<PhysRange>::empty()) == 0);
    }
    if s.len() > 0 && s.last()@.coalescable_with(fresh) {
        let last = s.last()@;
        assert(views[s.len() - 1] == last);
        assert(last.wf());
        lemma_phys_sum_nonneg(last.phys_ranges);
        lemma_extend_phys_sum(last.phys_ranges, extent, phys);
        assert forall|k: int| 0 <= k < out.len() implies phys_sum((#[trigger] out[k]).phys_ranges)
            == out[k].extent by {
            if k < s.len() - 1 {
                assert(out[k] == views[k]);
            }
        }
    } else {
        assert forall|k: int| 0 <= k < out.len() implies phys_sum((#[trigger] out[k]).phys_ranges)
            == out[k].extent by {
            if k < s.len() {
                assert(out[k] == views[k]);
            }
        }
    }
}

} // verus!
