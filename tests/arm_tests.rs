use pt_dump::arm::{self, ArmContext, ArmFlavour, ArmPageAttributes, Granularity};
use pt_dump::common::{Error, PhysRange};
use pt_dump::memory::MemoryViewFromArray;

fn u64_bytes(mem: &[u64]) -> Vec<u8> {
    mem.iter().flat_map(|w| w.to_le_bytes()).collect()
}

fn four_level_tables() -> Vec<u64> {
    let mut mem = vec![0u64; 512 * 16];
    mem[0] = 0x1003;
    mem[512] = 0x2003;
    mem[513] = 0x4000_0001 | (1u64 << 54);
    mem[1024] = 0x3003;
    mem[1025] = 0x20_0001 | (1u64 << 6);
    mem[1536] = 0x5003;
    mem[1537] = 0x6003;
    mem[1538] = 0x9001;
    mem
}

fn ctx4k(top_bit: u8) -> ArmContext {
    ArmContext::new(ArmFlavour::Arm64, Granularity::Pt4k, 48, top_bit)
}

#[test]
fn arm_walk_coalesces_pages_and_blocks() {
    let mut view = MemoryViewFromArray::from(&u64_bytes(&four_level_tables()));
    let pages = arm::collect_pages(&ctx4k(0), &mut view, 0).unwrap();
    assert_eq!(3, pages.len());
    assert_eq!((0, 0x3000), (pages[0].va, pages[0].extent));
    assert_eq!(
        vec![PhysRange::new(0x5000, 0x2000), PhysRange::new(0x9000, 0x1000)],
        pages[0].phys_ranges
    );
    assert_eq!(ArmPageAttributes { xn: false, pxn: false, permission_bits: 0 }, pages[0].attr);
    assert_eq!((0x20_0000, 0x20_0000), (pages[1].va, pages[1].extent));
    assert_eq!(vec![PhysRange::new(0x20_0000, 0x20_0000)], pages[1].phys_ranges);
    assert_eq!(1, pages[1].attr.permission_bits);
    assert!(pages[1].is_user_writeable());
    assert_eq!((0x4000_0000, 0x4000_0000), (pages[2].va, pages[2].extent));
    assert!(pages[2].attr.xn);
    assert!(!pages[2].is_user_executable());
    assert!(pages[2].is_kernel_executable());
}

#[test]
fn arm_table_execute_never_propagates() {
    let mut mem = four_level_tables();
    mem[512] = 0x2003 | (1u64 << 60) | (1u64 << 59);
    let mut view = MemoryViewFromArray::from(&u64_bytes(&mem));
    let pages = arm::collect_pages(&ctx4k(0), &mut view, 0).unwrap();
    assert_eq!(3, pages.len());
    assert!(pages[0].attr.xn && pages[0].attr.pxn);
    assert!(pages[1].attr.xn && pages[1].attr.pxn);
    assert!(pages[2].attr.xn && !pages[2].attr.pxn);
}

#[test]
fn arm_upper_half_prefix() {
    let mut view = MemoryViewFromArray::from(&u64_bytes(&four_level_tables()));
    let pages = arm::collect_pages(&ctx4k(1), &mut view, 0).unwrap();
    assert_eq!(0xFFFF_0000_0000_0000, pages[0].va);
    assert_eq!(0xFFFF_0000_4000_0000, pages[2].va);
}

#[test]
fn arm_contiguous_table_shape_is_leaf() {
    let mut mem = four_level_tables();
    mem[1026] = 0x40_0003 | (1u64 << 52);
    let mut view = MemoryViewFromArray::from(&u64_bytes(&mem));
    let pages = arm::collect_pages(&ctx4k(0), &mut view, 0).unwrap();
    assert_eq!(4, pages.len());
    assert_eq!((0x40_0000, 0x20_0000), (pages[2].va, pages[2].extent));
    assert_eq!(vec![PhysRange::new(0x40_0000, 0x20_0000)], pages[2].phys_ranges);
}

#[test]
fn arm_16k_top_level_block() {
    let mut mem = vec![0u64; 2048 * 2];
    mem[1] = 0x10_0000_0001;
    let mut view = MemoryViewFromArray::from(&u64_bytes(&mem));
    let context = ArmContext::new(ArmFlavour::Arm64, Granularity::Pt16k, 47, 0);
    let pages = arm::collect_pages(&context, &mut view, 0).unwrap();
    assert_eq!(1, pages.len());
    assert_eq!((0x10_0000_0000, 0x10_0000_0000), (pages[0].va, pages[0].extent));
    assert_eq!(vec![PhysRange::new(0x10_0000_0000, 0x10_0000_0000)], pages[0].phys_ranges);
}

#[test]
fn arm_read_errors_propagate() {
    let mut view = MemoryViewFromArray::from(&u64_bytes(&four_level_tables()));
    assert_eq!(
        Error::FailedToReadBlock,
        arm::collect_pages(&ctx4k(0), &mut view, 0x10_0000).unwrap_err()
    );
    let mut mem = four_level_tables();
    mem[514] = 0x80_0003;
    let mut view = MemoryViewFromArray::from(&u64_bytes(&mem));
    assert_eq!(Error::FailedToReadBlock, arm::collect_pages(&ctx4k(0), &mut view, 0).unwrap_err());
}

#[test]
fn arm_unwalkable_contexts_fail() {
    let mut view = MemoryViewFromArray::from(&u64_bytes(&four_level_tables()));
    let arm32 = ArmContext::new(ArmFlavour::Arm32, Granularity::Pt4k, 32, 0);
    assert_eq!(Error::GenericParsingError, arm::collect_pages(&arm32, &mut view, 0).unwrap_err());
    let tiny = ArmContext::new(ArmFlavour::Arm64, Granularity::Pt4k, 0, 0);
    assert_eq!(Error::GenericParsingError, arm::collect_pages(&tiny, &mut view, 0).unwrap_err());
    let huge = ArmContext::new(ArmFlavour::Arm64, Granularity::Pt64k, 65, 0);
    assert_eq!(Error::GenericParsingError, arm::collect_pages(&huge, &mut view, 0).unwrap_err());
}

#[test]
fn arm_permission_predicates() {
    let mut view = MemoryViewFromArray::from(&u64_bytes(&four_level_tables()));
    let pages = arm::collect_pages(&ctx4k(0), &mut view, 0).unwrap();
    let p = &pages[0];
    assert!(!p.is_user_readable());
    assert!(p.is_kernel_readable());
    assert!(!p.is_user_writeable());
    assert!(p.is_kernel_writeable());
    let mut q = p.clone();
    q.attr.permission_bits = 0b11;
    assert!(q.is_user_readable());
    assert!(!q.is_kernel_writeable());
}

#[test]
fn arm_extend_by_absorbs_or_appends() {
    let mut view = MemoryViewFromArray::from(&u64_bytes(&four_level_tables()));
    let pages = arm::collect_pages(&ctx4k(0), &mut view, 0).unwrap();
    let mut r = pages[1].clone();
    assert!(r.is_extendable_by(0x40_0000, &r.attr.clone()));
    r.extend_by(0x1000, 0x40_0000);
    assert_eq!(0x20_1000, r.extent);
    assert_eq!(vec![PhysRange::new(0x20_0000, 0x20_1000)], r.phys_ranges);
    r.extend_by(0x1000, 0x20_0000);
    assert_eq!(0x20_2000, r.extent);
    assert_eq!(vec![PhysRange::new(0x20_0000, 0x20_1000)], r.phys_ranges);
    r.extend_by(0x1000, 0x90_0000);
    assert_eq!(
        vec![PhysRange::new(0x20_0000, 0x20_1000), PhysRange::new(0x90_0000, 0x1000)],
        r.phys_ranges
    );
}
