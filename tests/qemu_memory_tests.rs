use pt_dump::common::Error;
use pt_dump::memory::{MemoryView, MemoryViewFromArray};
use pt_dump::qemu_memory::{QemuMemoryView, RamRange};

#[test]
fn test_qemu_memory_view() {
    let sorted_ranges = vec![
        RamRange::new(0x2000, 0x1000, 0x2000),
        RamRange::new(0x4000, 0x1000, 0x4000),
        RamRange::new(0x8000, 0x1000, 0x8000),
        RamRange::new(0xa000, 0x10000, 0xa000),
        RamRange::new(0x11a000, 0x100000, 0x11a000),
    ];
    let host = MemoryViewFromArray::from(&[]);
    let qemu_mem = QemuMemoryView::new(host, &sorted_ranges, true);
    let range = qemu_mem.find_phys_ranges(0x3000, 0x9000);
    assert_eq!(Some((1, 2)), range);

    let range = qemu_mem.find_phys_ranges(0x2000, 0x2000);
    assert_eq!(None, range);

    let range = qemu_mem.find_phys_ranges(0x2000, 0x2001);
    assert_eq!(Some((0, 0)), range);

    let range = qemu_mem.find_phys_ranges(0x2fff, 0x3000);
    assert_eq!(Some((0, 0)), range);

    let range = qemu_mem.find_phys_ranges(0x2fff, 0x2fff);
    assert_eq!(None, range);

    let range = qemu_mem.find_phys_ranges(0x2000, 0x4000);
    assert_eq!(Some((0, 0)), range);

    let range = qemu_mem.find_phys_ranges(0x2000, 0x4001);
    assert_eq!(Some((0, 1)), range);

    let range = qemu_mem.find_phys_ranges(0x11a000, 0x20000000);
    assert_eq!(Some((sorted_ranges.len() - 1, sorted_ranges.len() - 1)), range);
}

const BASE: usize = 0x3_0000;
const SZ: usize = 0x10000;

fn host_with_pages() -> MemoryViewFromArray {
    let mut host = vec![0u8; BASE + SZ];
    for page_index in 0..(SZ / 0x1000) {
        let off = BASE + page_index * 0x1000;
        host[off..off + 0x1000].fill((page_index + 1) as u8);
    }
    MemoryViewFromArray::from(&host)
}

fn windows() -> Vec<RamRange> {
    vec![
        RamRange::new(0x0, 0x3000, BASE),
        RamRange::new(0x4000, 0x4000, BASE + 0x4000),
        RamRange::new(0x8000, 0x1000, BASE + 0x8000),
        RamRange::new(0xa000, 0x2000, BASE + 0xa000),
    ]
}

#[test]
fn test_memory_read() {
    let mut qemu_mem = QemuMemoryView::new(host_with_pages(), &windows(), true);
    assert_eq!(vec![1u8; 0x1000], qemu_mem.read_block(0x0, 0x1000).unwrap());
    assert_eq!(vec![2u8; 0x1000], qemu_mem.read_block(0x1000, 0x1000).unwrap());
    assert_eq!(vec![3u8; 0x1000], qemu_mem.read_block(0x2000, 0x1000).unwrap());
    assert_eq!(true, qemu_mem.read_block(0x3000, 0x1000).is_err());
    let tmp = [
        vec![5u8; 0x1000],
        vec![6u8; 0x1000],
        vec![7u8; 0x1000],
        vec![8u8; 0x1000],
        vec![9u8; 0x1000],
    ]
    .concat();
    assert_eq!(tmp, qemu_mem.read_block(0x4000, 0x5000).unwrap());
    assert_eq!(tmp, qemu_mem.read_block(0x4000, 0x5000).unwrap());
    assert_eq!(vec![0xb; 0x10], qemu_mem.read_block(0xa000, 0x10).unwrap());
    // The whole span holds gaps between the windows, so it cannot be read.
    assert_eq!(Err(Error::FailedToReadBlock), qemu_mem.read_block(0, SZ));
    assert_eq!(
        [vec![0x8; 0x8], vec![0x9; 0x8]].concat(),
        qemu_mem.read_block(0x7ff8, 0x10).unwrap()
    );
}

#[test]
fn sparse_window_scenario() {
    let sorted_ranges = vec![
        RamRange::new(0x2000, 0x1000, 0x0),
        RamRange::new(0x4000, 0x1000, 0x1000),
        RamRange::new(0x8000, 0x1000, 0x2000),
    ];
    let view = QemuMemoryView::new(MemoryViewFromArray::from(&[]), &sorted_ranges, false);
    assert_eq!(Some((1, 2)), view.find_phys_ranges(0x3000, 0x9000));
    assert_eq!(Some((0, 0)), view.find_phys_ranges(0x2fff, 0x2fff + 1));
    assert_eq!(None, view.find_phys_ranges(0x3000, 0x3000));
    assert_eq!(None, view.find_phys_ranges(0x2fff, 0x2fff));
}

#[test]
fn sparse_read_inplace_and_edges() {
    let mut view = QemuMemoryView::new(host_with_pages(), &windows(), false);
    let mut block = vec![0u8; 0x20];
    view.read_block_inplace(0x2ff0, 0x10, &mut block).unwrap();
    assert_eq!(vec![3u8; 0x10], block[..0x10].to_vec());
    assert_eq!(vec![0u8; 0x10], block[0x10..].to_vec());
    assert_eq!(Err(Error::FailedToReadBlock), view.read_block_inplace(0x2ff0, 0x20, &mut block));
    assert_eq!(Err(Error::FailedToReadBlock), view.read_block(0x1000, 0));
    assert_eq!(Err(Error::FailedToReadBlock), view.read_block(0xc000, 0x10));
    assert_eq!(Err(Error::FailedToReadBlock), view.read_block(usize::MAX, 2));
}

#[test]
fn sparse_cache_is_keyed_by_request_and_copied_on_clone() {
    let mut view = QemuMemoryView::new(host_with_pages(), &windows(), true);
    assert_eq!(vec![5u8; 0x1000], view.read_block(0x4000, 0x1000).unwrap());
    let mut copy = view.clone_with_host(host_with_pages());
    assert_eq!(vec![5u8; 0x1000], copy.read_block(0x4000, 0x1000).unwrap());
    assert_eq!(vec![5u8; 0x200], copy.read_block(0x4000, 0x200).unwrap());
    assert_eq!(vec![6u8; 0x1000], view.read_block(0x5000, 0x1000).unwrap());
}

#[test]
fn host_read_failure_fails_request() {
    let short_host = MemoryViewFromArray::from(&vec![7u8; BASE + 0x1800]);
    let mut view = QemuMemoryView::new(short_host, &windows(), true);
    assert_eq!(vec![7u8; 0x1000], view.read_block(0x0, 0x1000).unwrap());
    assert_eq!(Err(Error::FailedToReadBlock), view.read_block(0x1000, 0x1000));
}
