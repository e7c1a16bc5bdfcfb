use vstd::prelude::*;
use crate::common::{all_phys_wf, phys_sum, PhysRange};
use crate::filter::{
    filter_x86_ranges, lemma_filter_x86_is_subsequence, spec_filter_x86, x86_views, FilterView,
    PageRangeFilterX86,
};
use crate::memory::{deterministic, read_result, MemoryView};
use crate::search::{
    hit_ok, search_layout, search_memory_generic, search_ranges_ok, spec_all_hits, take_at_most,
};
use crate::x86::{spec_backing_address, X86PageRange, X86RangeView};

verus! {

/// Where a Linux x86 kernel was placed: the virtual and physical address of
/// its image and the virtual base of its direct physical map, each when found.
#[derive(Clone, Copy, PartialEq, Eq, Structural, Debug)]
pub struct KaslrInfo {
    pub image_virt: Option<u64>,
    pub image_phys: Option<u64>,
    pub physmap_virt: Option<u64>,
}

/// Kernel images and the direct map start on a 2 MiB boundary.
pub const KASLR_ALIGNMENT: u64 = 0x20_0000;

/// Every range that filtering keeps is one of its input, so it keeps the
/// search precondition too.
proof fn lemma_filter_keeps_search_ok(
    ranges: Seq<X86PageRange>,
    out: Seq<X86PageRange>,
    f: FilterView,
)
    requires
        search_ranges_ok(ranges),
        x86_views(out) == spec_filter_x86(x86_views(ranges), f),
    ensures
        search_ranges_ok(out),
{
    lemma_filter_x86_is_subsequence(x86_views(ranges), f);
    let a = spec_filter_x86(x86_views(ranges), f);
    let b = x86_views(ranges);
    let idx = choose|idx: Seq<int>|
        {
            &&& #[trigger] idx.len() == a.len()
            &&& forall|k: int| 0 <= k < idx.len() ==> 0 <= #[trigger] idx[k] < b.len()
            &&& forall|k: int| 0 <= k < idx.len() ==> a[k] == b[#[trigger] idx[k]]
            &&& forall|k: int, l: int| 0 <= k < l < idx.len() ==> #[trigger] idx[k] < #[trigger] idx[l]
        };
    assert forall|k: int| 0 <= k < out.len() implies {
        &&& (#[trigger] out[k]).va + phys_sum(out[k].phys_ranges@) <= u64::MAX + 1
        &&& all_phys_wf(out[k].phys_ranges@)
    } by {
        assert(x86_views(out)[k] == out[k]@);
        assert(a[k] == b[idx[k]]);
        assert(b[idx[k]] == ranges[idx[k]]@);
        assert(ranges[idx[k]].phys_ranges@ == out[k].phys_ranges@);
    }
}

/// Supervisor-only ranges with the given executability.
pub open spec fn kaslr_filter(executable: bool) -> FilterView {
    FilterView {
        writeable: None,
        executable: Some(executable),
        user_accessible: None,
        only_superuser_accessible: Some(true),
        has_address: None,
        va_range: None,
    }
}

/// Each range as its start address and physical backing.
pub open spec fn x86_layout(v: Seq<X86RangeView>) -> Seq<(u64, Seq<PhysRange>)> {
    v.map_values(|r: X86RangeView| (r.va, r.phys_ranges))
}

/// What the probe finds among the supervisor-only ranges of `ranges` with the
/// given executability, when memory reads return `rd`: the first 2 MiB-aligned
/// byte 0x48, with the physical address behind it where its range's
/// physical pieces reach that far.
pub open spec fn spec_kaslr_find(
    ranges: Seq<X86RangeView>,
    executable: bool,
    rd: spec_fn(int, int) -> Option<Seq<u8>>,
) -> Option<(u64, Option<u64>)> {
    let candidates = spec_filter_x86(ranges, kaslr_filter(executable));
    let hits = take_at_most(
        spec_all_hits(
            x86_layout(candidates),
            candidates.len() as int,
            rd,
            seq![0x48u8],
            KASLR_ALIGNMENT,
        ),
        1,
    );
    if hits.len() > 0 {
        let hit = hits[0];
        let host = candidates[hit.range_index as int];
        let phys: Option<u64> = if hit.va >= host.va && spec_backing_address(
            host.phys_ranges,
            hit.va - host.va,
        ) is Some {
            Some(spec_backing_address(host.phys_ranges, hit.va - host.va)->Some_0 as u64)
        } else {
            None
        };
        Some((hit.va, phys))
    } else {
        None
    }
}

/// A deterministic view stays deterministic, with the same read results, when
/// it admits the same outcomes.
proof fn lemma_same_reads<M: MemoryView>(a: M, b: M)
    requires
        deterministic(a),
        forall|o: int, s: int, out: Option<Seq<u8>>| #[trigger] b.admits(o, s, out) == a.admits(
            o,
            s,
            out,
        ),
    ensures
        deterministic(b),
        (|o: int, s: int| read_result(b, o, s)) == (|o: int, s: int| read_result(a, o, s)),
{
    assert forall|o: int, s: int| #[trigger] b.admits(o, s, read_result(b, o, s)) by {
        assert(a.admits(o, s, read_result(a, o, s)));
        assert(b.admits(o, s, read_result(a, o, s)));
    }
    assert forall|o: int, s: int| read_result(b, o, s) == read_result(a, o, s) by {
        assert(a.admits(o, s, read_result(a, o, s)));
        assert(b.admits(o, s, read_result(b, o, s)));
    }
    assert((|o: int, s: int| read_result(b, o, s)) =~= (|o: int, s: int| read_result(a, o, s)));
}

/// Looks among the supervisor-only ranges with the given executability for
/// the first 2 MiB-aligned byte 0x48, and returns its virtual address and the
/// physical address behind it.
fn filter_and_search<M: MemoryView>(
    ranges: &Vec<X86PageRange>,
    memory: &mut M,
    is_executable: bool,
) -> (r: Option<(u64, Option<u64>)>)
    requires
        old(memory).inv(),
        search_ranges_ok(ranges@),
    ensures
        final(memory).inv(),
        forall|o: int, s: int, out: Option<Seq<u8>>| #[trigger] final(memory).admits(o, s, out)
            == old(memory).admits(o, s, out),
        r matches Some((v, _)) ==> v % KASLR_ALIGNMENT == 0,
        deterministic(*old(memory)) ==> r == spec_kaslr_find(
            x86_views(ranges@),
            is_executable,
            |o: int, s: int| read_result(*old(memory), o, s),
        ),
{
    let ghost rd = |o: int, s: int| read_result(*memory, o, s);
    let mut pt_filter = PageRangeFilterX86::new();
    pt_filter.set_executable(is_executable);
    pt_filter.set_superuser_accessible(true);
    let filtered = filter_x86_ranges(ranges, &pt_filter);
    proof {
        lemma_filter_keeps_search_ok(ranges@, filtered@, pt_filter@);
        assert(pt_filter@ == kaslr_filter(is_executable));
    }
    let needle: Vec<u8> = vec![0x48u8];
    let result = search_memory_generic(
        needle.as_slice(),
        &filtered,
        memory,
        Some(KASLR_ALIGNMENT),
        1,
    );
    let ghost candidates = spec_filter_x86(x86_views(ranges@), kaslr_filter(is_executable));
    proof {
        assert(needle@ =~= seq![0x48u8]);
        assert(search_layout(filtered@) =~= x86_layout(candidates)) by {
            assert(x86_views(filtered@) == candidates);
            assert forall|k: int| 0 <= k < filtered@.len() implies search_layout(filtered@)[k]
                == x86_layout(candidates)[k] by {
                assert(x86_views(filtered@)[k] == filtered@[k]@);
            }
        }
    }
    let occ = result.get_results();
    if occ.len() == 0 {
        None
    } else {
        let first = occ[0];
        proof {
            assert(hit_ok(filtered@, result@[0], KASLR_ALIGNMENT));
            assert(x86_views(filtered@)[first.range_index as int] == filtered@[first.range_index as int]@);
        }
        let host = &filtered[first.range_index];
        Some((first.va, host.gva_to_gpa(first.va)))
    }
}

/// Finds the Linux kernel image (in executable supervisor-only memory) and the
/// direct physical map (in non-executable supervisor-only memory) as the
/// first 2 MiB-aligned byte 0x48 in each.
pub fn find_kaslr_linux_x86<M: MemoryView>(ranges: &Vec<X86PageRange>, memory: &mut M) -> (r:
    KaslrInfo)
    requires
        old(memory).inv(),
        search_ranges_ok(ranges@),
    ensures
        final(memory).inv(),
        r.image_virt matches Some(v) ==> v % KASLR_ALIGNMENT == 0,
        r.physmap_virt matches Some(v) ==> v % KASLR_ALIGNMENT == 0,
        r.image_phys is Some ==> r.image_virt is Some,
        deterministic(*old(memory)) ==> {
            let rd = |o: int, s: int| read_result(*old(memory), o, s);
            &&& match spec_kaslr_find(x86_views(ranges@), true, rd) {
                Some((va, pa)) => r.image_virt == Some(va) && r.image_phys == pa,
                None => r.image_virt is None && r.image_phys is None,
            }
            &&& r.physmap_virt == match spec_kaslr_find(x86_views(ranges@), false, rd) {
                Some((va, _)) => Some(va),
                None => None::<u64>,
            }
        },
{
    let ghost m0 = *memory;
    let mut info = KaslrInfo { image_virt: None, image_phys: None, physmap_virt: None };
    if let Some((virt, phys)) = filter_and_search(ranges, memory, true) {
        info.image_virt = Some(virt);
        info.image_phys = phys;
    }
    proof {
        if deterministic(m0) {
            lemma_same_reads(m0, *memory);
        }
    }
    if let Some((virt, _)) = filter_and_search(ranges, memory, false) {
        info.physmap_virt = Some(virt);
    }
    info
}

} // verus!
