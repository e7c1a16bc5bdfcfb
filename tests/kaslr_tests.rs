use pt_dump::common::PhysRange;
use pt_dump::kaslr::{find_kaslr_linux_x86, KaslrInfo};
use pt_dump::memory::MemoryViewFromArray;
use pt_dump::x86::{PageAttributes, X86PageRange};

fn attr(writeable: bool, user: bool, nx: bool) -> PageAttributes {
    PageAttributes {
        accessed: false,
        dirty: false,
        writeable: writeable,
        user: user,
        pwt: false,
        pcd: false,
        pat: false,
        global: false,
        nx: nx,
    }
}

#[test]
fn kaslr_finds_image_and_physmap() {
    let mut mem = vec![0u8; 0x60_0000];
    mem[0x20_0000] = 0x48;
    mem[0x40_0000] = 0x48;
    let ranges = vec![
        X86PageRange::new(0x20_0000, 0x1000, attr(false, true, false), vec![PhysRange::new(0x20_0000, 0x1000)]),
        X86PageRange::new(
            0xFFFF_FFFF_8100_0000,
            0x40_0000,
            attr(false, false, false),
            vec![PhysRange::new(0, 0x40_0000)],
        ),
        X86PageRange::new(
            0xFFFF_8880_0000_0000,
            0x20_0000,
            attr(true, false, true),
            vec![PhysRange::new(0x40_0000, 0x20_0000)],
        ),
    ];
    let mut view = MemoryViewFromArray::from(&mem);
    let info = find_kaslr_linux_x86(&ranges, &mut view);
    assert_eq!(
        KaslrInfo {
            image_virt: Some(0xFFFF_FFFF_8120_0000),
            image_phys: Some(0x20_0000),
            physmap_virt: Some(0xFFFF_8880_0000_0000),
        },
        info
    );
}

#[test]
fn kaslr_reports_missing_values() {
    let mem = vec![0u8; 0x1000];
    let ranges = vec![X86PageRange::new(
        0x20_0000,
        0x1000,
        attr(false, false, false),
        vec![PhysRange::new(0, 0x1000)],
    )];
    let mut view = MemoryViewFromArray::from(&mem);
    let info = find_kaslr_linux_x86(&ranges, &mut view);
    assert_eq!(KaslrInfo { image_virt: None, image_phys: None, physmap_virt: None }, info);
}
