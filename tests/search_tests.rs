use pt_dump::common::PhysRange;
use pt_dump::memory::MemoryViewFromArray;
use pt_dump::search::search_memory_generic;
use pt_dump::x86::{PageAttributes, X86PageRange};

fn attr() -> PageAttributes {
    PageAttributes {
        accessed: false,
        dirty: false,
        writeable: false,
        user: false,
        pwt: false,
        pcd: false,
        pat: false,
        global: false,
        nx: true,
    }
}

fn vas(result: &pt_dump::search::SearchResult) -> Vec<u64> {
    result.get_results().iter().map(|x| x.va).collect()
}

fn indices(result: &pt_dump::search::SearchResult) -> Vec<usize> {
    result.get_results().iter().map(|x| x.range_index).collect()
}

fn identity_setup() -> (Vec<X86PageRange>, MemoryViewFromArray) {
    let mut mem = vec![0u8; 1024];
    let ranges = vec![X86PageRange::new(
        0,
        mem.len() as u64,
        attr(),
        vec![PhysRange::new(0, mem.len() as u64)],
    )];
    let needle = "KeyWord".as_bytes();
    for off in [0usize, 10, 1024 - needle.len()] {
        mem[off..off + needle.len()].copy_from_slice(needle);
    }
    (ranges, MemoryViewFromArray::from(&mem))
}

#[test]
fn search_for_bytes_identity_mapping() {
    let (ranges, mut memory_view) = identity_setup();
    let needle = "KeyWord".as_bytes();
    let result = search_memory_generic(needle, &ranges, &mut memory_view, None, 100);
    assert_eq!(vec![0, 10, 1024 - needle.len() as u64], vas(&result));
    assert_eq!(vec![0, 0, 0], indices(&result));

    let result = search_memory_generic(needle, &ranges, &mut memory_view, None, 3);
    assert_eq!(vec![0, 10, 1024 - needle.len() as u64], vas(&result));

    let result = search_memory_generic(needle, &ranges, &mut memory_view, None, 2);
    assert_eq!(vec![0, 10], vas(&result));

    let result = search_memory_generic(needle, &ranges, &mut memory_view, None, 1);
    assert_eq!(vec![0], vas(&result));

    let result = search_memory_generic(needle, &ranges, &mut memory_view, None, 0);
    assert_eq!(Vec::<u64>::new(), vas(&result));

    let needle = "KeyWor".as_bytes();
    let result = search_memory_generic(needle, &ranges, &mut memory_view, None, 100);
    assert_eq!(vec![0, 10, 1023 - needle.len() as u64], vas(&result));
    assert_eq!(vec![0, 0, 0], indices(&result));

    let needle = "KeyWord!".as_bytes();
    let result = search_memory_generic(needle, &ranges, &mut memory_view, None, 100);
    assert_eq!(Vec::<u64>::new(), vas(&result));
    assert_eq!(Vec::<usize>::new(), indices(&result));
}

#[test]
fn search_for_bytes_identity_non_identity() {
    let mut mem = vec![0u8; 0x20000];
    let ranges = vec![
        X86PageRange::new(
            0xa00000,
            0x2000,
            attr(),
            vec![PhysRange::new(0x1000, 0x1000), PhysRange::new(0x3000, 0x1000)],
        ),
        X86PageRange::new(0xb00000, 0x1000, attr(), vec![PhysRange::new(0x9000, 0x1000)]),
    ];
    let needle = "KeyWord".as_bytes();
    for off in [0x1000usize, 0x1f00, 0x3500, 0x9400] {
        mem[off..off + needle.len()].copy_from_slice(needle);
    }
    let mut memory_view = MemoryViewFromArray::from(&mem);
    let result = search_memory_generic(needle, &ranges, &mut memory_view, None, 100);
    assert_eq!(vec![0xa00000, 0xa00f00, 0xa01500, 0xb00400], vas(&result));
    assert_eq!(vec![0, 0, 0, 1], indices(&result));

    let result = search_memory_generic(needle, &ranges, &mut memory_view, None, 3);
    assert_eq!(vec![0xa00000, 0xa00f00, 0xa01500], vas(&result));

    let result = search_memory_generic(needle, &ranges, &mut memory_view, None, 2);
    assert_eq!(vec![0xa00000, 0xa00f00], vas(&result));

    let result = search_memory_generic(needle, &ranges, &mut memory_view, None, 1);
    assert_eq!(vec![0xa00000], vas(&result));
}

#[test]
fn search_with_alignment_scenario() {
    let (ranges, mut memory_view) = identity_setup();
    let needle = "KeyWord".as_bytes();
    let result = search_memory_generic(needle, &ranges, &mut memory_view, Some(1), 100);
    assert_eq!(vec![0, 10, 1017], vas(&result));
    let result = search_memory_generic(needle, &ranges, &mut memory_view, Some(1), 2);
    assert_eq!(vec![0, 10], vas(&result));
    let result = search_memory_generic(needle, &ranges, &mut memory_view, Some(1), 0);
    assert_eq!(Vec::<u64>::new(), vas(&result));
    // Only multiples of the alignment are reported.
    let result = search_memory_generic(needle, &ranges, &mut memory_view, Some(2), 100);
    assert_eq!(vec![0, 10], vas(&result));
    let result = search_memory_generic(needle, &ranges, &mut memory_view, Some(5), 100);
    assert_eq!(vec![0, 10], vas(&result));
    let result = search_memory_generic(needle, &ranges, &mut memory_view, Some(4), 100);
    assert_eq!(vec![0], vas(&result));
}

#[test]
fn search_hits_are_ordered_and_bounded() {
    let (ranges, mut memory_view) = identity_setup();
    let result = search_memory_generic(&[0u8], &ranges, &mut memory_view, Some(8), 50);
    let found = vas(&result);
    assert!(found.len() <= 50);
    assert!(found.iter().all(|v| v % 8 == 0));
    assert!(found.windows(2).all(|w| w[0] < w[1]));
}

#[test]
fn search_needle_across_blocks_is_not_found() {
    let mut mem = vec![0u8; 0x3000];
    mem[0x1ffc..0x2003].copy_from_slice("KeyWord".as_bytes());
    let ranges = vec![X86PageRange::new(
        0x5000,
        0x2000,
        attr(),
        vec![PhysRange::new(0x1000, 0x1000), PhysRange::new(0x2000, 0x1000)],
    )];
    let mut memory_view = MemoryViewFromArray::from(&mem);
    let result = search_memory_generic("KeyWord".as_bytes(), &ranges, &mut memory_view, None, 10);
    assert!(result.get_results().is_empty());
}

#[test]
fn search_skips_unreadable_blocks() {
    let mut mem = vec![0u8; 0x2000];
    mem[0x1010..0x1017].copy_from_slice("KeyWord".as_bytes());
    let ranges = vec![
        X86PageRange::new(0x9000, 0x1000, attr(), vec![PhysRange::new(0x8000, 0x1000)]),
        X86PageRange::new(0x7000, 0x1000, attr(), vec![PhysRange::new(0x1000, 0x1000)]),
    ];
    let mut memory_view = MemoryViewFromArray::from(&mem);
    let result = search_memory_generic("KeyWord".as_bytes(), &ranges, &mut memory_view, None, 10);
    assert_eq!(vec![0x7010], vas(&result));
    assert_eq!(vec![1], indices(&result));
}

#[test]
fn search_over_no_ranges_is_empty() {
    let mut memory_view = MemoryViewFromArray::from(&[1u8, 2, 3]);
    let ranges: Vec<X86PageRange> = Vec::new();
    let result = search_memory_generic(&[1u8], &ranges, &mut memory_view, None, 10);
    assert!(result.get_results().is_empty());
}
