use pt_dump::common::{Error, PhysRange};
use pt_dump::memory::{read_outcome, MemoryView, MemoryViewFromArray};
use pt_dump::page_range::{GenericPage, GenericPageRange};
use pt_dump::x86::{self, PageAttributes, X86Flavour, X86PageRange};

fn u32_bytes(mem: &[u32]) -> Vec<u8> {
    mem.iter().flat_map(|w| w.to_le_bytes()).collect()
}

fn u64_bytes(mem: &[u64]) -> Vec<u8> {
    mem.iter().flat_map(|w| w.to_le_bytes()).collect()
}

fn plain() -> PageAttributes {
    PageAttributes {
        accessed: false,
        dirty: false,
        writeable: false,
        user: false,
        pwt: false,
        pcd: false,
        pat: false,
        global: false,
        nx: false,
    }
}

#[test]
fn x86_adjacent_pages_merge_on_three_bits_only() {
    let mut mem = [0u32; 1024 * 4];
    mem[0] = 0x1001;
    mem[1024] = 0x2001;
    mem[1025] = 0x3021;
    mem[1026] = 0x7003;
    let mut view = MemoryViewFromArray::from(&u32_bytes(&mem));
    let pages = x86::collect_pages(X86Flavour::X86, &mut view, 0, false, false).unwrap();
    assert_eq!(2, pages.len());
    assert_eq!(
        X86PageRange::new(0, 0x2000, plain(), vec![PhysRange::new(0x2000, 0x2000)]),
        pages[0]
    );
    assert_eq!((0x2000, 0x1000), (pages[1].va, pages[1].extent));
    assert!(pages[1].attributes.writeable);
}

#[test]
fn x86_repeated_mapping_is_absorbed() {
    let mut mem = [0u32; 1024 * 4];
    mem[0] = 0x1001;
    mem[1024] = 0x2001;
    mem[1025] = 0x2001;
    mem[1026] = 0x5001;
    let mut view = MemoryViewFromArray::from(&u32_bytes(&mem));
    let pages = x86::collect_pages(X86Flavour::X86, &mut view, 0, false, false).unwrap();
    assert_eq!(1, pages.len());
    assert_eq!(0x3000, pages[0].get_extent());
    assert_eq!(
        &vec![PhysRange::new(0x2000, 0x1000), PhysRange::new(0x5000, 0x1000)],
        pages[0].get_phys_ranges()
    );
}

#[test]
fn x86_unreadable_root_is_an_error() {
    let mut view = MemoryViewFromArray::from(&[0u8; 0x1000]);
    assert_eq!(
        Error::FailedToReadBlock,
        x86::collect_pages(X86Flavour::X64, &mut view, 0x1000, false, false).unwrap_err()
    );
    assert_eq!(
        Error::FailedToReadBlock,
        x86::collect_pages(X86Flavour::X86, &mut view, 0xff0, false, true).unwrap_err()
    );
}

#[test]
fn x86_address_keeps_bit_51() {
    let mut mem = [0u64; 512 * 4];
    mem[0] = 0x1001;
    mem[512] = 0x2001;
    mem[1024] = 0x3001;
    mem[1536] = 0x000F_0000_0000_4001;
    let mut view = MemoryViewFromArray::from(&u64_bytes(&mem));
    let pages = x86::collect_pages(X86Flavour::X64, &mut view, 0, false, false).unwrap();
    assert_eq!(vec![PhysRange::new(0x000F_0000_0000_4000, 0x1000)], pages[0].phys_ranges);
}

#[test]
fn x86_pat_and_nx_bits() {
    let mut mem = [0u64; 512 * 4];
    mem[0] = 0x1001;
    mem[512] = 0x2001;
    mem[1024] = 0x1081 | (1u64 << 63) | 0x20_0000;
    let mut view = MemoryViewFromArray::from(&u64_bytes(&mem));
    let pages = x86::collect_pages(X86Flavour::X64, &mut view, 0, false, false).unwrap();
    assert_eq!(1, pages.len());
    assert!(pages[0].attributes.pat);
    assert!(pages[0].attributes.nx);
    assert_eq!(vec![PhysRange::new(0x20_0000, 0x20_0000)], pages[0].phys_ranges);
}

#[test]
fn x86_coalescing_rule() {
    let r = X86PageRange::new(0x1000, 0x1000, plain(), vec![PhysRange::new(0x8000, 0x1000)]);
    assert!(r.is_extendable_by(0x2000, &PageAttributes { accessed: true, ..plain() }));
    assert!(!r.is_extendable_by(0x3000, &plain()));
    assert!(!r.is_extendable_by(0x2000, &PageAttributes { user: true, ..plain() }));
    let top = X86PageRange::new(0xFFFF_FFFF_FFFF_F000, 0x1000, plain(), vec![PhysRange::new(0, 0x1000)]);
    assert!(!top.is_extendable_by(0, &plain()));
    let mut r2 = r.clone();
    r2.extend_by(0x1000, 0x9000);
    assert_eq!(X86PageRange::new(0x1000, 0x2000, plain(), vec![PhysRange::new(0x8000, 0x2000)]), r2);
}

#[test]
fn x86_gva_to_gpa_walks_pieces() {
    let r = X86PageRange::new(
        0x10000,
        0x3000,
        plain(),
        vec![PhysRange::new(0x5000, 0x1000), PhysRange::new(0x9000, 0x2000)],
    );
    assert_eq!(Some(0x5010), r.gva_to_gpa(0x10010));
    assert_eq!(Some(0x9000), r.gva_to_gpa(0x11000));
    assert_eq!(Some(0xafff), r.gva_to_gpa(0x12fff));
    assert_eq!(None, r.gva_to_gpa(0x13000));
    assert_eq!(None, r.gva_to_gpa(0xffff));
}

#[test]
fn generic_views_of_ranges() {
    let r = X86PageRange::new(0x4000, 0x1000, plain(), vec![PhysRange::new(0x8000, 0x1000)]);
    assert_eq!(0x4000, GenericPage::get_va(&r));
    assert_eq!(0x4000, r.get_va_start());
    assert_eq!(0x1000, r.get_va_extent());
    assert_eq!(1, GenericPageRange::get_phys_ranges(&r).len());
}

#[test]
fn array_view_reads_inside_only() {
    let mut view = MemoryViewFromArray::from(&[1u8, 2, 3, 4]);
    assert_eq!(vec![2u8, 3], view.read_block(1, 2).unwrap());
    assert_eq!(Err(Error::FailedToReadBlock), view.read_block(3, 2));
    assert_eq!(Err(Error::FailedToReadBlock), view.read_block(usize::MAX, 2));
    let mut block = [9u8; 3];
    view.read_block_inplace(2, 2, &mut block).unwrap();
    assert_eq!([3u8, 4, 9], block);
}

#[test]
fn read_outcome_needs_every_byte() {
    assert_eq!(Ok(()), read_outcome(Some(16), 16));
    assert_eq!(Err(Error::FailedToReadBlock), read_outcome(Some(15), 16));
    assert_eq!(Err(Error::FailedToReadBlock), read_outcome(None, 16));
}
