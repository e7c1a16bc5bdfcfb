use pt_dump::common::PhysRange;
use pt_dump::filter::{filter_aarch64_ranges, filter_x86_ranges, PageRangeFilterX86};
use pt_dump::arm::{ArmPageAttributes, ArmPageRange};
use pt_dump::x86::{PageAttributes, X86PageRange};

fn attr(writeable: bool, user: bool, nx: bool) -> PageAttributes {
    PageAttributes {
        accessed: false,
        dirty: false,
        writeable: writeable,
        user: user,
        pwt: false,
        pcd: false,
        pat: false,
        global: false,
        nx: nx,
    }
}

fn four_ranges() -> Vec<X86PageRange> {
    vec![
        X86PageRange::new(0x10000, 0x10000, attr(false, false, true), Vec::<PhysRange>::new()),
        X86PageRange::new(0x30000, 0x10000, attr(true, false, false), Vec::<PhysRange>::new()),
        X86PageRange::new(0x90000, 0x10000, attr(false, true, false), Vec::<PhysRange>::new()),
        X86PageRange::new(0xb0000, 0x10000, attr(true, true, true), Vec::<PhysRange>::new()),
    ]
}

#[test]
fn test_x86_filter_each_attribute() {
    let ranges = four_ranges();

    let mut filter = PageRangeFilterX86::new();
    filter.set_writeable(true);
    let filtered_ranges = filter_x86_ranges(&ranges, &filter);
    assert_eq!(vec![ranges[1].clone(), ranges[3].clone()], filtered_ranges);
    filter.set_writeable(false);
    let filtered_ranges = filter_x86_ranges(&ranges, &filter);
    assert_eq!(vec![ranges[0].clone(), ranges[2].clone()], filtered_ranges);

    let mut filter = PageRangeFilterX86::new();
    filter.set_executable(true);
    let filtered_ranges = filter_x86_ranges(&ranges, &filter);
    assert_eq!(vec![ranges[1].clone(), ranges[2].clone()], filtered_ranges);
    filter.set_executable(false);
    let filtered_ranges = filter_x86_ranges(&ranges, &filter);
    assert_eq!(vec![ranges[0].clone(), ranges[3].clone()], filtered_ranges);

    let mut filter = PageRangeFilterX86::new();
    filter.set_user_accessible(true);
    let filtered_ranges = filter_x86_ranges(&ranges, &filter);
    assert_eq!(vec![ranges[2].clone(), ranges[3].clone()], filtered_ranges);
    filter.set_user_accessible(false);
    let filtered_ranges = filter_x86_ranges(&ranges, &filter);
    assert_eq!(vec![ranges[0].clone(), ranges[1].clone()], filtered_ranges);

    let mut filter = PageRangeFilterX86::new();
    filter.set_writeable(true);
    filter.set_executable(false);
    filter.set_user_accessible(true);
    let filtered_ranges = filter_x86_ranges(&ranges, &filter);
    assert_eq!(vec![ranges[3].clone()], filtered_ranges);

    let mut filter = PageRangeFilterX86::new();
    filter.set_writeable(false);
    filter.set_executable(false);
    filter.set_superuser_accessible(true);
    let filtered_ranges = filter_x86_ranges(&ranges, &filter);
    assert_eq!(vec![ranges[0].clone()], filtered_ranges);
}

#[test]
fn test_x86_filter_has_address() {
    let a = attr(false, false, true);
    let ranges = vec![
        X86PageRange::new(0x10000, 0x10000, a.clone(), Vec::<PhysRange>::new()),
        X86PageRange::new(0x20000, 0x1000, a.clone(), Vec::<PhysRange>::new()),
        X86PageRange::new(0x21000, 0xa0000, a.clone(), Vec::<PhysRange>::new()),
        X86PageRange::new(0xaaa0000, 0x2000, a.clone(), Vec::<PhysRange>::new()),
    ];
    let tests = [
        (0x1000, ranges.len()),
        (0x10000, 0),
        (0x1ffff, 0),
        (0x20000, 1),
        (0x20500, 1),
        (0x20fff, 1),
        (0xaaa0000, 3),
        (0xaaa1fff, 3),
        (0xaaa2000, ranges.len()),
    ];
    let mut filter = PageRangeFilterX86::new();
    for (addr, index) in tests {
        filter.set_has_address(addr);
        let filtered_ranges = filter_x86_ranges(&ranges, &filter);
        if index == ranges.len() {
            assert_eq!(Vec::<X86PageRange>::new(), filtered_ranges);
        } else {
            assert_eq!(vec![ranges[index].clone()], filtered_ranges);
        }
    }
}

#[test]
fn filter_va_range_bounds_are_strict() {
    let ranges = four_ranges();
    let mut filter = PageRangeFilterX86::new();
    filter.set_va_range(Some(0x10000), Some(0xb0000));
    let filtered = filter_x86_ranges(&ranges, &filter);
    assert_eq!(vec![ranges[1].clone(), ranges[2].clone()], filtered);
    filter.set_va_range(None, Some(0x30001));
    let filtered = filter_x86_ranges(&ranges, &filter);
    assert_eq!(vec![ranges[0].clone(), ranges[1].clone()], filtered);
    filter.set_va_range(Some(0x90000), None);
    let filtered = filter_x86_ranges(&ranges, &filter);
    assert_eq!(vec![ranges[3].clone()], filtered);
}

#[test]
fn filter_empty_returns_input_even_at_address_zero() {
    let mut ranges = four_ranges();
    ranges.insert(0, X86PageRange::new(0, 0x1000, attr(true, true, false), Vec::<PhysRange>::new()));
    let filter = PageRangeFilterX86::new();
    assert_eq!(ranges, filter_x86_ranges(&ranges, &filter));
}

#[test]
fn filter_twice_is_filter_once() {
    let ranges = four_ranges();
    let mut filter = PageRangeFilterX86::new();
    filter.set_executable(false);
    let once = filter_x86_ranges(&ranges, &filter);
    let twice = filter_x86_ranges(&once, &filter);
    assert_eq!(once, twice);
}

#[test]
fn filter_more_options_never_adds() {
    let ranges = four_ranges();
    let mut filter = PageRangeFilterX86::new();
    filter.set_user_accessible(true);
    let wide = filter_x86_ranges(&ranges, &filter);
    filter.set_writeable(true);
    let narrow = filter_x86_ranges(&ranges, &filter);
    assert_eq!(2, wide.len());
    assert_eq!(vec![ranges[3].clone()], narrow);
    assert!(narrow.iter().all(|r| wide.contains(r)));
}

#[test]
fn filter_getters_reflect_setters() {
    let mut filter = PageRangeFilterX86::new();
    assert_eq!(None, filter.get_writeable());
    filter.set_writeable(true);
    filter.set_executable(false);
    filter.set_user_accessible(true);
    filter.set_superuser_accessible(false);
    filter.set_has_address(0x1234);
    filter.set_va_range(Some(1), None);
    assert_eq!(Some(true), filter.get_writeable());
    assert_eq!(Some(false), filter.get_executable());
    assert_eq!(Some(true), filter.get_user_accessible());
    assert_eq!(Some(false), filter.get_only_superuser_accessible());
    assert_eq!(Some(0x1234), filter.get_has_address());
    assert_eq!(Some((Some(1), None)), filter.get_va_range());
}

fn arm_range(va: u64, xn: bool, pxn: bool, permission_bits: u8) -> ArmPageRange {
    ArmPageRange {
        va: va,
        extent: 0x1000,
        phys_ranges: vec![PhysRange::new(va, 0x1000)],
        attr: ArmPageAttributes { xn: xn, pxn: pxn, permission_bits: permission_bits },
    }
}

fn arm_vas(r: &Vec<ArmPageRange>) -> Vec<u64> {
    r.iter().map(|x| x.va).collect()
}

#[test]
fn filter_arm_by_el_permissions() {
    let ranges = vec![
        arm_range(0x1000, true, false, 0b00),
        arm_range(0x3000, false, true, 0b01),
        arm_range(0x5000, true, true, 0b10),
        arm_range(0x7000, false, false, 0b11),
    ];
    let mut filter = PageRangeFilterX86::new();
    filter.set_writeable(true);
    filter.set_user_accessible(true);
    assert_eq!(vec![0x3000], arm_vas(&filter_aarch64_ranges(&ranges, &filter)));

    let mut filter = PageRangeFilterX86::new();
    filter.set_executable(true);
    filter.set_superuser_accessible(true);
    assert_eq!(vec![0x1000, 0x7000], arm_vas(&filter_aarch64_ranges(&ranges, &filter)));

    let mut filter = PageRangeFilterX86::new();
    filter.set_user_accessible(false);
    assert_eq!(vec![0x1000, 0x5000], arm_vas(&filter_aarch64_ranges(&ranges, &filter)));

    let mut filter = PageRangeFilterX86::new();
    filter.set_user_accessible(true);
    assert_eq!(vec![0x3000, 0x7000], arm_vas(&filter_aarch64_ranges(&ranges, &filter)));

    let mut filter = PageRangeFilterX86::new();
    filter.set_superuser_accessible(false);
    assert!(filter_aarch64_ranges(&ranges, &filter).is_empty());

    let filter = PageRangeFilterX86::new();
    assert_eq!(4, filter_aarch64_ranges(&ranges, &filter).len());
}
