use vstd::prelude::*;
use crate::arm::{kernel_writeable, user_readable, user_writeable, ArmPageRange, ArmRangeView};
use crate::x86::{X86PageRange, X86RangeView};

verus! {

/// Attribute predicates for selecting ranges; an unset option accepts every range.
pub struct PageRangeFilterX86 {
    writeable: Option<bool>,
    executable: Option<bool>,
    user_accessible: Option<bool>,
    superuser_accessible: Option<bool>,
    has_address: Option<u64>,
    va_range: Option<(Option<u64>, Option<u64>)>,
}

/// The options of a filter.
pub struct FilterView {
    pub writeable: Option<bool>,
    pub executable: Option<bool>,
    pub user_accessible: Option<bool>,
    pub only_superuser_accessible: Option<bool>,
    pub has_address: Option<u64>,
    pub va_range: Option<(Option<u64>, Option<u64>)>,
}

impl View for PageRangeFilterX86 {
    type V = FilterView;

    closed spec fn view(&self) -> FilterView {
        FilterView {
            writeable: self.writeable,
            executable: self.executable,
            user_accessible: self.user_accessible,
            only_superuser_accessible: self.superuser_accessible,
            has_address: self.has_address,
            va_range: self.va_range,
        }
    }
}

/// The filter with no option set.
pub open spec fn empty_filter() -> FilterView {
    FilterView {
        writeable: None,
        executable: None,
        user_accessible: None,
        only_superuser_accessible: None,
        has_address: None,
        va_range: None,
    }
}

/// `g` sets every option that `f` sets, to the same value.
pub open spec fn extends(g: FilterView, f: FilterView) -> bool {
    &&& (f.writeable is Some ==> g.writeable == f.writeable)
    &&& (f.executable is Some ==> g.executable == f.executable)
    &&& (f.user_accessible is Some ==> g.user_accessible == f.user_accessible)
    &&& (f.only_superuser_accessible is Some ==> g.only_superuser_accessible
        == f.only_superuser_accessible)
    &&& (f.has_address is Some ==> g.has_address == f.has_address)
    &&& (f.va_range is Some ==> g.va_range == f.va_range)
}

/// The address predicates shared by both architectures: a strict bound on
/// the start address on both sides, and containment of a given address.
pub open spec fn address_accepts(f: FilterView, va: u64, extent: u64) -> bool {
    &&& match f.va_range {
        None => true,
        Some((lo, hi)) => {
            let lo_v: u64 = match lo {
                Some(v) => v,
                None => 0,
            };
            let hi_v: u64 = match hi {
                Some(v) => v,
                None => u64::MAX,
            };
            lo_v < va && va < hi_v
        },
    }
    &&& match f.has_address {
        None => true,
        Some(a) => va <= a < va + extent,
    }
}

/// Whether an x86 range satisfies every option set in `f`.
pub open spec fn x86_accepts(f: FilterView, r: X86RangeView) -> bool {
    &&& address_accepts(f, r.va, r.extent)
    &&& (f.writeable matches Some(w) ==> w == r.attributes.writeable)
    &&& (f.executable matches Some(x) ==> x == !r.attributes.nx)
    &&& (f.user_accessible matches Some(u) ==> u == r.attributes.user)
    &&& (f.only_superuser_accessible matches Some(s) ==> s == !r.attributes.user)
}

/// Whether an ARM range satisfies the filter. With writeable or executable
/// set, the user and superuser options narrow those predicates to one
/// exception level; set alone, they ask whether that level has any access
/// (read, write or execute) at all.
pub open spec fn arm_accepts(f: FilterView, r: ArmRangeView) -> bool {
    let ur = user_readable(r.attr);
    let uw = user_writeable(r.attr);
    let ux = !r.attr.xn;
    let kr = true;
    let kw = kernel_writeable(r.attr);
    let kx = !r.attr.pxn;
    &&& address_accepts(f, r.va, r.extent)
    &&& (f.writeable matches Some(w) ==> {
        &&& (w == uw || w == kw)
        &&& (f.user_accessible matches Some(u) ==> u == uw)
        &&& (f.only_superuser_accessible matches Some(s) ==> s == kw)
    })
    &&& (f.executable matches Some(x) ==> {
        &&& (x == ux || x == kx)
        &&& (f.user_accessible matches Some(u) ==> u == ux)
        &&& (f.only_superuser_accessible matches Some(s) ==> s == kx)
    })
    &&& (f.writeable is None && f.executable is None ==> {
        &&& (f.user_accessible matches Some(u) ==> (ur || uw || ux) == u)
        &&& (f.only_superuser_accessible matches Some(s) ==> (kr || kw || kx) == s)
    })
}

pub open spec fn x86_views(s: Seq<X86PageRange>) -> Seq<X86RangeView> {
    s.map_values(|r: X86PageRange| r@)
}

pub open spec fn arm_views(s: Seq<ArmPageRange>) -> Seq<ArmRangeView> {
    s.map_values(|r: ArmPageRange| r@)
}

/// The ranges of `s` that `f` accepts, in order.
pub open spec fn spec_filter_x86(s: Seq<X86RangeView>, f: FilterView) -> Seq<X86RangeView> {
    s.filter(|r: X86RangeView| x86_accepts(f, r))
}

/// The ranges of `s` that `f` accepts, in order.
pub open spec fn spec_filter_arm(s: Seq<ArmRangeView>, f: FilterView) -> Seq<ArmRangeView> {
    s.filter(|r: ArmRangeView| arm_accepts(f, r))
}

impl PageRangeFilterX86 {
    pub fn new() -> (r: Self)
        ensures
            r@ == empty_filter(),
    {
        PageRangeFilterX86 {
            writeable: None,
            executable: None,
            user_accessible: None,
            superuser_accessible: None,
            has_address: None,
            va_range: None,
        }
    }

    pub fn set_writeable(&mut self, w: bool)
        ensures
            final(self)@ == (FilterView { writeable: Some(w), ..old(self)@ }),
    {
        self.writeable = Some(w);
    }

    pub fn set_executable(&mut self, e: bool)
        ensures
            final(self)@ == (FilterView { executable: Some(e), ..old(self)@ }),
    {
        self.executable = Some(e);
    }

    pub fn set_user_accessible(&mut self, ua: bool)
        ensures
            final(self)@ == (FilterView { user_accessible: Some(ua), ..old(self)@ }),
    {
        self.user_accessible = Some(ua);
    }

    pub fn set_superuser_accessible(&mut self, sa: bool)
        ensures
            final(self)@ == (FilterView { only_superuser_accessible: Some(sa), ..old(self)@ }),
    {
        self.superuser_accessible = Some(sa);
    }

    pub fn set_has_address(&mut self, addr: u64)
        ensures
            final(self)@ == (FilterView { has_address: Some(addr), ..old(self)@ }),
    {
        self.has_address = Some(addr);
    }

    pub fn set_va_range(&mut self, start: Option<u64>, end: Option<u64>)
        ensures
            final(self)@ == (FilterView { va_range: Some((start, end)), ..old(self)@ }),
    {
        self.va_range = Some((start, end));
    }

    pub fn get_writeable(&self) -> (r: Option<bool>)
        ensures
            r == self@.writeable,
    {
        self.writeable
    }

    pub fn get_executable(&self) -> (r: Option<bool>)
        ensures
            r == self@.executable,
    {
        self.executable
    }

    pub fn get_user_accessible(&self) -> (r: Option<bool>)
        ensures
            r == self@.user_accessible,
    {
        self.user_accessible
    }

    pub fn get_only_superuser_accessible(&self) -> (r: Option<bool>)
        ensures
            r == self@.only_superuser_accessible,
    {
        self.superuser_accessible
    }

    pub fn get_has_address(&self) -> (r: Option<u64>)
        ensures
            r == self@.has_address,
    {
        self.has_address
    }

    pub fn get_va_range(&self) -> (r: Option<(Option<u64>, Option<u64>)>)
        ensures
            r == self@.va_range,
    {
        self.va_range
    }
}

fn address_ok(filter: &PageRangeFilterX86, va: u64, extent: u64) -> (r: bool)
    ensures
        r == address_accepts(filter@, va, extent),
{
    let mut ok = true;
    if let Some((lo, hi)) = filter.get_va_range() {
        let va_begin = match lo {
            Some(v) => v,
            None => 0u64,
        };
        let va_end = match hi {
            Some(v) => v,
            None => u64::MAX,
        };
        ok = ok && va_begin < va && va < va_end;
    }
    if let Some(addr) = filter.get_has_address() {
        ok = ok && addr >= va && addr - va < extent;
    }
    ok
}

/// The ranges that satisfy every option set in `filter`, in input order.
pub fn filter_x86_ranges(ranges: &Vec<X86PageRange>, filter: &PageRangeFilterX86) -> (r: Vec<
    X86PageRange,
>)
    ensures
        x86_views(r@) == spec_filter_x86(x86_views(ranges@), filter@),
{
    let ghost pred = |r: X86RangeView| x86_accepts(filter@, r);
    let w_opt = filter.get_writeable();
    let x_opt = filter.get_executable();
    let u_opt = filter.get_user_accessible();
    let s_only_opt = filter.get_only_superuser_accessible();
    let mut filtered_ranges: Vec<X86PageRange> = Vec::new();
    let mut i: usize = 0;
    while i < ranges.len()
        invariant
            i <= ranges@.len(),
            w_opt == filter@.writeable,
            x_opt == filter@.executable,
            u_opt == filter@.user_accessible,
            s_only_opt == filter@.only_superuser_accessible,
            pred == (|r: X86RangeView| x86_accepts(filter@, r)),
            x86_views(filtered_ranges@) == x86_views(ranges@).take(i as int).filter(pred),
        decreases ranges@.len() - i,
    {
        let range = &ranges[i];
        let mut ok = address_ok(filter, range.va, range.extent);
        let attr = range.get_attributes();
        if let Some(w) = w_opt {
            ok = ok && w == attr.writeable;
        }
        if let Some(x) = x_opt {
            ok = ok && x == !attr.nx;
        }
        if let Some(u) = u_opt {
            ok = ok && u == attr.user;
        }
        if let Some(s_only) = s_only_opt {
            ok = ok && s_only == !attr.user;
        }
        proof {
            assert(ok == pred(range@));
            reveal(Seq::filter);
            let all = x86_views(ranges@);
            assert(all.take(i + 1).drop_last() =~= all.take(i as int));
            assert(all.take(i + 1).last() == range@);
            if ok {
                assert(all.take(i + 1).filter(pred) == all.take(i as int).filter(pred).push(range@));
            } else {
                assert(all.take(i + 1).filter(pred) == all.take(i as int).filter(pred));
            }
        }
        if ok {
            let c = range.copy();
            filtered_ranges.push(c);
            proof {
                assert(x86_views(filtered_ranges@) =~= x86_views(ranges@).take(i as int).filter(
                    pred,
                ).push(range@));
            }
        }
        i += 1;
    }
    proof {
        assert(x86_views(ranges@).take(ranges@.len() as int) =~= x86_views(ranges@));
    }
    filtered_ranges
}

/// The ARM ranges that satisfy `filter`, in input order.
pub fn filter_aarch64_ranges(ranges: &Vec<ArmPageRange>, filter: &PageRangeFilterX86) -> (r: Vec<
    ArmPageRange,
>)
    ensures
        arm_views(r@) == spec_filter_arm(arm_views(ranges@), filter@),
{
    let ghost pred = |r: ArmRangeView| arm_accepts(filter@, r);
    let w_opt = filter.get_writeable();
    let x_opt = filter.get_executable();
    let u_opt = filter.get_user_accessible();
    let s_only_opt = filter.get_only_superuser_accessible();
    let mut filtered_ranges: Vec<ArmPageRange> = Vec::new();
    let mut i: usize = 0;
    while i < ranges.len()
        invariant
            i <= ranges@.len(),
            w_opt == filter@.writeable,
            x_opt == filter@.executable,
            u_opt == filter@.user_accessible,
            s_only_opt == filter@.only_superuser_accessible,
            pred == (|r: ArmRangeView| arm_accepts(filter@, r)),
            arm_views(filtered_ranges@) == arm_views(ranges@).take(i as int).filter(pred),
        decreases ranges@.len() - i,
    {
        let range = &ranges[i];
        let mut ok = address_ok(filter, range.va, range.extent);
        let uw = range.is_user_writeable();
        let ur = range.is_user_readable();
        let ux = range.is_user_executable();
        let kw = range.is_kernel_writeable();
        let kr = range.is_kernel_readable();
        let kx = range.is_kernel_executable();
        if let Some(w) = w_opt {
            ok = ok && (w == uw || w == kw);
            if let Some(u) = u_opt {
                ok = ok && u == uw;
            }
            if let Some(s) = s_only_opt {
                ok = ok && s == kw;
            }
        }
        if let Some(x) = x_opt {
            ok = ok && (x == ux || x == kx);
            if let Some(u) = u_opt {
                ok = ok && u == ux;
            }
            if let Some(s) = s_only_opt {
                ok = ok && s == kx;
            }
        }
        if w_opt.is_none() && x_opt.is_none() {
            if let Some(u) = u_opt {
                ok = ok && (ur || uw || ux) == u;
            }
            if let Some(s) = s_only_opt {
                ok = ok && (kr || kw || kx) == s;
            }
        }
        proof {
            assert(ok == pred(range@));
            reveal(Seq::filter);
            let all = arm_views(ranges@);
            assert(all.take(i + 1).drop_last() =~= all.take(i as int));
            assert(all.take(i + 1).last() == range@);
            if ok {
                assert(all.take(i + 1).filter(pred) == all.take(i as int).filter(pred).push(range@));
            } else {
                assert(all.take(i + 1).filter(pred) == all.take(i as int).filter(pred));
            }
        }
        if ok {
            let c = range.copy();
            filtered_ranges.push(c);
            proof {
                assert(arm_views(filtered_ranges@) =~= arm_views(ranges@).take(i as int).filter(
                    pred,
                ).push(range@));
            }
        }
        i += 1;
    }
    proof {
        assert(arm_views(ranges@).take(ranges@.len() as int) =~= arm_views(ranges@));
    }
    filtered_ranges
}

/// `a` is `b` with some elements left out and the rest kept in order.
pub open spec fn is_subsequence<A>(a: Seq<A>, b: Seq<A>) -> bool {
    exists|idx: Seq<int>|
        {
            &&& #[trigger] idx.len() == a.len()
            &&& forall|k: int| 0 <= k < idx.len() ==> 0 <= #[trigger] idx[k] < b.len()
            &&& forall|k: int| 0 <= k < idx.len() ==> a[k] == b[#[trigger] idx[k]]
            &&& forall|k: int, l: int| 0 <= k < l < idx.len() ==> #[trigger] idx[k] < #[trigger] idx[l]
        }
}

pub proof fn lemma_filter_subsequence<A>(s: Seq<A>, p: spec_fn(A) -> bool)
    ensures
        is_subsequence(s.filter(p), s),
    decreases s.len(),
{
    reveal(Seq::filter);
    if s.len() == 0 {
        let idx = Seq::<int>::empty();
        assert(idx.len() == s.filter(p).len());
    } else {
        let pre = s.drop_last();
        lemma_filter_subsequence(pre, p);
        let idx0 = choose|idx: Seq<int>|
            {
                &&& #[trigger] idx.len() == pre.filter(p).len()
                &&& forall|k: int| 0 <= k < idx.len() ==> 0 <= #[trigger] idx[k] < pre.len()
                &&& forall|k: int| 0 <= k < idx.len() ==> pre.filter(p)[k] == pre[#[trigger] idx[k]]
                &&& forall|k: int, l: int|
                    0 <= k < l < idx.len() ==> #[trigger] idx[k] < #[trigger] idx[l]
            };
        if p(s.last()) {
            let idx = idx0.push(s.len() - 1);
            assert(s.filter(p) == pre.filter(p).push(s.last()));
            assert forall|k: int| 0 <= k < idx.len() implies s.filter(p)[k] == s[#[trigger] idx[k]] by {
                if k < idx0.len() {
                    assert(idx[k] == idx0[k]);
                }
            }
            assert forall|k: int, l: int| 0 <= k < l < idx.len() implies #[trigger] idx[k]
                < #[trigger] idx[l] by {
                if l < idx0.len() {
                    assert(idx[k] == idx0[k] && idx[l] == idx0[l]);
                }
            }
            assert(idx.len() == s.filter(p).len());
        } else {
            assert(s.filter(p) == pre.filter(p));
            assert forall|k: int| 0 <= k < idx0.len() implies s.filter(p)[k] == s[#[trigger] idx0[k]] by {
            }
            assert(idx0.len() == s.filter(p).len());
        }
    }
}

proof fn lemma_filter_all<A>(s: Seq<A>, p: spec_fn(A) -> bool)
    requires
        forall|x: A| #[trigger] p(x),
    ensures
        s.filter(p) == s,
    decreases s.len(),
{
    reveal(Seq::filter);
    if s.len() > 0 {
        lemma_filter_all(s.drop_last(), p);
        assert(s.drop_last().push(s.last()) =~= s);
    }
}

/// Filtering with `q` after `p` gives what filtering with `q` alone gives,
/// when `q` implies `p`.
proof fn lemma_filter_stronger<A>(s: Seq<A>, p: spec_fn(A) -> bool, q: spec_fn(A) -> bool)
    requires
        forall|x: A| #[trigger] q(x) ==> p(x),
    ensures
        s.filter(p).filter(q) == s.filter(q),
    decreases s.len(),
{
    reveal(Seq::filter);
    if s.len() > 0 {
        let pre = s.drop_last();
        lemma_filter_stronger(pre, p, q);
        if p(s.last()) {
            assert(s.filter(p) == pre.filter(p).push(s.last()));
            assert(s.filter(p).drop_last() =~= pre.filter(p));
        }
    }
}

/// Filtering keeps a subsequence of the input: every accepted x86 range, in order.
pub proof fn lemma_filter_x86_is_subsequence(ranges: Seq<X86RangeView>, f: FilterView)
    ensures
        is_subsequence(spec_filter_x86(ranges, f), ranges),
{
    lemma_filter_subsequence(ranges, |r: X86RangeView| x86_accepts(f, r));
}

/// Filtering keeps a subsequence of the input: every accepted ARM range, in order.
pub proof fn lemma_filter_arm_is_subsequence(ranges: Seq<ArmRangeView>, f: FilterView)
    ensures
        is_subsequence(spec_filter_arm(ranges, f), ranges),
{
    lemma_filter_subsequence(ranges, |r: ArmRangeView| arm_accepts(f, r));
}

/// A filter with no option set returns its input unchanged.
pub proof fn lemma_filter_x86_empty_is_identity(ranges: Seq<X86RangeView>)
    ensures
        spec_filter_x86(ranges, empty_filter()) == ranges,
{
    lemma_filter_all(ranges, |r: X86RangeView| x86_accepts(empty_filter(), r));
}

/// A filter with no option set returns its input unchanged.
pub proof fn lemma_filter_arm_empty_is_identity(ranges: Seq<ArmRangeView>)
    ensures
        spec_filter_arm(ranges, empty_filter()) == ranges,
{
    lemma_filter_all(ranges, |r: ArmRangeView| arm_accepts(empty_filter(), r));
}

/// Filtering twice with the same options is filtering once.
pub proof fn lemma_filter_x86_idempotent(ranges: Seq<X86RangeView>, f: FilterView)
    ensures
        spec_filter_x86(spec_filter_x86(ranges, f), f) == spec_filter_x86(ranges, f),
{
    let p = |r: X86RangeView| x86_accepts(f, r);
    lemma_filter_stronger(ranges, p, p);
}

/// Filtering twice with the same options is filtering once.
pub proof fn lemma_filter_arm_idempotent(ranges: Seq<ArmRangeView>, f: FilterView)
    ensures
        spec_filter_arm(spec_filter_arm(ranges, f), f) == spec_filter_arm(ranges, f),
{
    let p = |r: ArmRangeView| arm_accepts(f, r);
    lemma_filter_stronger(ranges, p, p);
}

/// Setting more options never adds a range: the output of the extended filter
/// is a subsequence of the output of the filter it extends.
pub proof fn lemma_filter_x86_monotone(ranges: Seq<X86RangeView>, f: FilterView, g: FilterView)
    requires
        extends(g, f),
    ensures
        is_subsequence(spec_filter_x86(ranges, g), spec_filter_x86(ranges, f)),
{
    let p = |r: X86RangeView| x86_accepts(f, r);
    let q = |r: X86RangeView| x86_accepts(g, r);
    lemma_filter_stronger(ranges, p, q);
    lemma_filter_subsequence(ranges.filter(p), q);
}

/// Setting more options never adds a range: the output of the extended filter
/// is a subsequence of the output of the filter it extends. This holds unless
/// the extension first sets writeable or executable: the user and superuser
/// options then stop asking for any access and start narrowing those
/// predicates instead.
pub proof fn lemma_filter_arm_monotone(ranges: Seq<ArmRangeView>, f: FilterView, g: FilterView)
    requires
        extends(g, f),
        f.writeable is Some || f.executable is Some || (g.writeable is None && g.executable
            is None),
    ensures
        is_subsequence(spec_filter_arm(ranges, g), spec_filter_arm(ranges, f)),
{
    let p = |r: ArmRangeView| arm_accepts(f, r);
    let q = |r: ArmRangeView| arm_accepts(g, r);
    lemma_filter_stronger(ranges, p, q);
    lemma_filter_subsequence(ranges.filter(p), q);
}

} // verus!
