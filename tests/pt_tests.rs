use pt_dump::common::PhysRange;
use pt_dump::memory::MemoryViewFromArray;
use pt_dump::x86::{self, PageAttributes, X86Flavour, X86PageRange};

fn u32_bytes(mem: &[u32]) -> Vec<u8> {
    mem.iter().flat_map(|w| w.to_le_bytes()).collect()
}

fn u64_bytes(mem: &[u64]) -> Vec<u8> {
    mem.iter().flat_map(|w| w.to_le_bytes()).collect()
}

fn compare_page_vectors(expected: &Vec<X86PageRange>, actual: &Vec<X86PageRange>) {
    assert_eq!(expected.len(), actual.len());
    for (a, b) in expected.iter().zip(actual.iter()) {
        assert_eq!(a, b);
    }
}

fn create_page(w: bool, u: bool, nx: bool, va: u64, phys: u64, extent: u64) -> X86PageRange {
    X86PageRange {
        attributes: PageAttributes {
            writeable: w,
            user: u,
            pwt: false,
            pcd: false,
            accessed: false,
            dirty: false,
            global: false,
            pat: false,
            nx: nx,
        },
        extent: extent,
        va: va,
        phys_ranges: vec![PhysRange::new(phys, extent)],
    }
}

fn attrs(w: bool, u: bool, pwt: bool, pcd: bool, a: bool, d: bool, g: bool) -> PageAttributes {
    PageAttributes {
        writeable: w,
        user: u,
        pwt: pwt,
        pcd: pcd,
        accessed: a,
        dirty: d,
        global: g,
        pat: false,
        nx: false,
    }
}

#[test]
fn test_pt_x86_single_page() {
    let mut mem = [0u32; 1024 * 16];
    mem[0] = 0x1001;
    mem[1024 * 1] = 0x2001;
    let mut memory_view = MemoryViewFromArray::from(&u32_bytes(&mem));
    let cr3 = 0u64;
    let result =
        x86::collect_pages(X86Flavour::X86, &mut memory_view, cr3, false, false).unwrap();
    assert_eq!(vec![create_page(false, false, false, 0, 0x2000, 0x1000)], result);
}

#[test]
fn test_pt_x86_multiple_pages() {
    let mut mem = [0u32; 1024 * 16];
    mem[2] = 0x1001;
    mem[1024 * 1] = 0x2001;
    mem[1024 * 1 + 2] = 0x4001;
    let mut memory_view = MemoryViewFromArray::from(&u32_bytes(&mem));
    let cr3 = 0u64;
    let result =
        x86::collect_pages(X86Flavour::X86, &mut memory_view, cr3, false, false).unwrap();
    compare_page_vectors(
        &vec![
            create_page(false, false, false, 2 * 4 * 1024 * 1024, 0x2000, 0x1000),
            create_page(false, false, false, 2 * 4 * 1024 * 1024 + 0x2000, 0x4000, 0x1000),
        ],
        &result,
    );
}

#[test]
fn test_pt_x86_pde_pdpe() {
    let mut mem = vec![0u32; 1024 * 1024 * 16];
    mem[0] = 0x1001;
    mem[8] = 0x800081;
    mem[1024] = 0x400001;
    let mut memory_view = MemoryViewFromArray::from(&u32_bytes(&mem));
    let cr3 = 0u64;
    let result =
        x86::collect_pages(X86Flavour::X86, &mut memory_view, cr3, true, false).unwrap();
    compare_page_vectors(
        &vec![
            create_page(false, false, false, 0, 4 * 1024 * 1024, 0x1000),
            create_page(false, false, false, 8 * 4 * 1024 * 1024, 8 * 1024 * 1024, 4 * 1024 * 1024),
        ],
        &result,
    );
    let result = x86::collect_pages(X86Flavour::X86, &mut memory_view, cr3, false, false);
    match result {
        Err(e) => {
            panic!("Got error: {:?}", e);
        }
        Ok(result) => {
            compare_page_vectors(
                &vec![create_page(false, false, false, 0, 4 * 1024 * 1024, 0x1000)],
                &result,
            );
        }
    }
}

#[test]
fn test_pt_x86_all_attributes() {
    let mut mem = [0u32; 1024 * 16];
    mem[0] = 0x2001;
    mem[1024 * 2] = 0x3001;
    mem[1024 * 2 + 2] = 0x4003;
    mem[1024 * 2 + 4] = 0x5005;
    mem[1024 * 2 + 6] = 0x6009;
    mem[1024 * 2 + 8] = 0x7011;
    mem[1024 * 2 + 10] = 0x8021;
    mem[1024 * 2 + 12] = 0x9041;
    mem[1024 * 2 + 14] = 0xa081;
    mem[1024 * 2 + 16] = 0xb101;
    mem[1024 * 2 + 18] = 0xc201;
    mem[1024 * 2 + 20] = 0xd401;
    mem[1024 * 2 + 22] = 0xe801;
    let mut memory_view = MemoryViewFromArray::from(&u32_bytes(&mem));
    let cr3 = 0u64;
    let result =
        x86::collect_pages(X86Flavour::X86, &mut memory_view, cr3, false, false).unwrap();
    let none = attrs(false, false, false, false, false, false, false);
    let expected_attrs = [
        none,
        attrs(true, false, false, false, false, false, false),
        attrs(false, true, false, false, false, false, false),
        attrs(false, false, true, false, false, false, false),
        attrs(false, false, false, true, false, false, false),
        attrs(false, false, false, false, true, false, false),
        attrs(false, false, false, false, false, true, false),
        none,
        attrs(false, false, false, false, false, false, true),
        none,
        none,
        none,
    ];
    let expected: Vec<X86PageRange> = expected_attrs
        .iter()
        .enumerate()
        .map(|(i, a)| X86PageRange {
            attributes: a.clone(),
            extent: 0x1000,
            va: 0x2000 * i as u64,
            phys_ranges: vec![PhysRange::new(0x3000 + 0x1000 * i as u64, 0x1000)],
        })
        .collect();
    compare_page_vectors(&expected, &result);
}

#[test]
fn test_pt_x86_pae() {
    let mut mem = [0u64; 512 * 16];
    mem[0] = 0x1001;
    mem[2] = 0x8000000081;
    mem[512 * 1] = 0x081 + (2 * 1024 * 1024 * 1024);
    mem[512 * 1 + 1] = 0x2001;
    mem[512 * 2 + 1] = 0x600081;
    mem[512 * 2 + 3] = 0x800081;
    let mut memory_view = MemoryViewFromArray::from(&u64_bytes(&mem));
    let cr3 = 0u64;
    let result = x86::collect_pages(X86Flavour::X86, &mut memory_view, cr3, false, true).unwrap();
    compare_page_vectors(
        &vec![
            create_page(false, false, false, 0, 2 * 1024 * 1024 * 1024, 0x200000),
            create_page(false, false, false, 2 * 1024 * 1024 + 4096, 0x600000, 4096),
            create_page(false, false, false, 2 * 1024 * 1024 + 3 * 4096, 0x800000, 4096),
            create_page(
                false,
                false,
                false,
                2 * 1024 * 1024 * 1024,
                0x8000000000,
                1024 * 1024 * 1024,
            ),
        ],
        &result,
    );
}

#[test]
fn test_pt_x86_xn() {
    let mut mem = [0u64; 1024 * 16];
    mem[0] = 0x1001;
    mem[3] = 0x4081 | (1u64 << 63);
    mem[512 * 1] = 0x2001;
    mem[512 * 1 + 1] = (1024 * 1024 * 1024) | (1u64 << 63) | 0x81;
    mem[512 * 2] = 0x3001;
    mem[512 * 2 + 1] = 0x20081 | (1u64 << 63);
    let mut memory_view = MemoryViewFromArray::from(&u64_bytes(&mem));
    let cr3 = 0u64;
    let result =
        x86::collect_pages(X86Flavour::X86, &mut memory_view, cr3, true, true).unwrap();
    assert_eq!(
        [false, true, true, true],
        [
            result[0].get_attributes().nx,
            result[1].get_attributes().nx,
            result[2].get_attributes().nx,
            result[3].get_attributes().nx
        ],
    );
}

#[test]
fn test_pt_x64_single_page() {
    let mut mem = [0u64; 1024 * 16];
    mem[0] = 0x1001;
    mem[512 * 1] = 0x2001;
    mem[512 * 2] = 0x3001;
    mem[512 * 3] = 0x4001;
    let mut memory_view = MemoryViewFromArray::from(&u64_bytes(&mem));
    let cr3 = 0u64;
    let result =
        x86::collect_pages(X86Flavour::X64, &mut memory_view, cr3, false, false).unwrap();
    assert_eq!(vec![create_page(false, false, false, 0, 0x4000, 0x1000)], result);
}

#[test]
fn test_pt_x64_xn() {
    let mut mem = [0u64; 1024 * 16];
    mem[0] = 0x1001;
    mem[512 * 1] = 0x2001;
    mem[512 * 1 + 1] = (1024 * 1024 * 1024) | (1u64 << 63) | 0x81;
    mem[512 * 2] = 0x3001;
    mem[512 * 2 + 1] = 0x20081 | (1u64 << 63);
    mem[512 * 3] = 0x4001 | (1u64 << 63);
    let mut memory_view = MemoryViewFromArray::from(&u64_bytes(&mem));
    let cr3 = 0u64;
    let result =
        x86::collect_pages(X86Flavour::X64, &mut memory_view, cr3, true, true).unwrap();
    assert_eq!(
        [true, true, true],
        [
            result[0].get_attributes().nx,
            result[1].get_attributes().nx,
            result[2].get_attributes().nx
        ],
    );
}

#[test]
fn test_pt_x64_pse() {
    for (pae, pse) in [(true, true), (false, true), (false, false)] {
        let mut mem = [0u64; 512 * 16];
        mem[0] = 0x1001;
        mem[2] = 0x8000000081;
        mem[512 * 1] = 0x081 + (2 * 1024 * 1024 * 1024);
        mem[512 * 1 + 1] = 0x8001;
        let mut memory_view = MemoryViewFromArray::from(&u64_bytes(&mem));
        let cr3 = 0u64;
        let result = x86::collect_pages(X86Flavour::X64, &mut memory_view, cr3, pse, pae).unwrap();
        compare_page_vectors(
            &vec![
                create_page(false, false, false, 0, 2 * 1024 * 1024 * 1024, 1024 * 1024 * 1024),
                create_page(
                    false,
                    false,
                    false,
                    2 * 512 * 1024 * 1024 * 1024,
                    0x8000000000,
                    512 * 1024 * 1024 * 1024,
                ),
            ],
            &result,
        );
    }
}

#[test]
fn test_pt_x64_invalid_pages() {
    let mut mem = [0u64; 1024 * 16];
    mem[0] = 0x1001;
    mem[1] = 0x9991001;
    mem[512 * 1] = 0x2001;
    mem[512 * 1 + 1] = 0x888882001;
    mem[512 * 2] = 0x3001;
    mem[512 * 2 + 1] = 0xaaaaa3001;
    mem[512 * 3] = 0x4001;
    let mut memory_view = MemoryViewFromArray::from(&u64_bytes(&mem));
    let cr3 = 0u64;
    let result =
        x86::collect_pages(X86Flavour::X64, &mut memory_view, cr3, false, false).unwrap();
    assert_eq!(vec![create_page(false, false, false, 0, 0x4000, 0x1000)], result);
}

#[test]
fn test_pt_x64_canonical_address() {
    let mut mem = [0u64; 1024 * 16];
    mem[258] = 0x1001;
    mem[512 * 1] = 0x2081;
    let mut memory_view = MemoryViewFromArray::from(&u64_bytes(&mem));
    let cr3 = 0u64;
    let result =
        x86::collect_pages(X86Flavour::X64, &mut memory_view, cr3, true, true).unwrap();
    assert_eq!(0xffff810000000_000, result[0].get_va());
}
