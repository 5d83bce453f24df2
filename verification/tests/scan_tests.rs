use memory_scanner::regions::{get_memory_regions, next_query_address, RegionError, RegionInfo};
use memory_scanner::scan::{scan_multiple_regions, scan_single_region, MemAddr, Scan};

fn counts(region: &Vec<u8>, s: &Scan) -> Vec<u32> {
    scan_single_region(region, s).iter().map(|d| d.count).collect()
}

#[test]
fn scan_len_by_width() {
    assert_eq!(Scan::Int32(-1).len(), 4);
    assert_eq!(Scan::Uint32(7).len(), 4);
    assert_eq!(Scan::Float(4.4f32.to_bits()).len(), 4);
    assert_eq!(Scan::Double(4.4f64.to_bits()).len(), 8);
}

#[test]
fn scan_bytes_are_little_endian() {
    assert_eq!(Scan::Uint32(0x1234_5678).bytes(), vec![0x78, 0x56, 0x34, 0x12]);
    assert_eq!(Scan::Int32(-2).bytes(), (-2i32).to_le_bytes().to_vec());
    assert_eq!(Scan::Int32(-2).bytes(), vec![0xfe, 0xff, 0xff, 0xff]);
    assert_eq!(Scan::Float(4.4f32.to_bits()).bytes(), 4.4f32.to_le_bytes().to_vec());
    assert_eq!(Scan::Double(4.4f64.to_bits()).bytes(), 4.4f64.to_le_bytes().to_vec());
    assert_eq!(
        Scan::Double(0x0102_0304_0506_0708).bytes(),
        vec![8, 7, 6, 5, 4, 3, 2, 1]
    );
}

#[test]
fn scan_bytes_length_matches_len() {
    for s in [Scan::Int32(5), Scan::Uint32(5), Scan::Float(5), Scan::Double(5)] {
        assert_eq!(s.bytes().len() as u32, s.len());
    }
}

#[test]
fn scan_bytes_decode_back() {
    let b = Scan::Uint32(0xdead_beef).bytes();
    assert_eq!(u32::from_le_bytes([b[0], b[1], b[2], b[3]]), 0xdead_beef);
    let b = Scan::Double(u64::MAX - 3).bytes();
    let mut a = [0u8; 8];
    a.copy_from_slice(&b);
    assert_eq!(u64::from_le_bytes(a), u64::MAX - 3);
}

#[test]
fn single_region_finds_aligned_chunks() {
    let mut region = Vec::new();
    region.extend_from_slice(&7u32.to_le_bytes());
    region.extend_from_slice(&9u32.to_le_bytes());
    region.extend_from_slice(&7u32.to_le_bytes());
    region.extend_from_slice(&7u32.to_le_bytes());
    assert_eq!(counts(&region, &Scan::Uint32(7)), vec![0, 2, 3]);
    assert_eq!(counts(&region, &Scan::Uint32(9)), vec![1]);
    assert_eq!(counts(&region, &Scan::Uint32(8)), Vec::<u32>::new());
}

#[test]
fn single_region_ignores_unaligned_matches() {
    // The value 7 stands at offset 1, which is not a chunk boundary.
    let region = vec![0u8, 7, 0, 0, 0, 0, 0, 0];
    assert_eq!(counts(&region, &Scan::Uint32(7)), Vec::<u32>::new());
}

#[test]
fn single_region_short_tail_never_matches() {
    // The last chunk has only two bytes.
    let region = vec![1u8, 0, 0, 0, 1, 0];
    assert_eq!(counts(&region, &Scan::Uint32(1)), vec![0]);
    assert_eq!(counts(&Vec::new(), &Scan::Uint32(0)), Vec::<u32>::new());
}

#[test]
fn single_region_doubles_use_eight_byte_chunks() {
    let mut region = Vec::new();
    region.extend_from_slice(&1.5f64.to_le_bytes());
    region.extend_from_slice(&2.5f64.to_le_bytes());
    assert_eq!(counts(&region, &Scan::Double(2.5f64.to_bits())), vec![1]);
    assert_eq!(counts(&region, &Scan::Double(1.5f64.to_bits())), vec![0]);
}

#[test]
fn multiple_regions_first_scan_reports_value_addresses() {
    let regions = vec![
        MemAddr { base: 0x1000, size: 8 },
        MemAddr { base: 0x2000, size: 12 },
    ];
    let mut a = Vec::new();
    a.extend_from_slice(&(-5i32).to_le_bytes());
    a.extend_from_slice(&3i32.to_le_bytes());
    let mut b = Vec::new();
    b.extend_from_slice(&3i32.to_le_bytes());
    b.extend_from_slice(&(-5i32).to_le_bytes());
    b.extend_from_slice(&(-5i32).to_le_bytes());
    let contents = vec![a, b];
    let hits = scan_multiple_regions(&regions, &contents, &Scan::Int32(-5), true);
    let got: Vec<(usize, usize)> = hits.iter().map(|m| (m.base, m.size)).collect();
    assert_eq!(got, vec![(0x1000, 4), (0x2004, 4), (0x2008, 4)]);
}

#[test]
fn multiple_regions_later_scan_reports_regions() {
    let regions = vec![
        MemAddr { base: 0x1000, size: 8 },
        MemAddr { base: 0x2000, size: 4 },
    ];
    let contents = vec![vec![1, 0, 0, 0, 1, 0, 0, 0], vec![2, 0, 0, 0]];
    let hits = scan_multiple_regions(&regions, &contents, &Scan::Uint32(1), false);
    let got: Vec<(usize, usize)> = hits.iter().map(|m| (m.base, m.size)).collect();
    assert_eq!(got, vec![(0x1000, 8), (0x1000, 8)]);
}

#[test]
fn multiple_regions_empty() {
    let hits = scan_multiple_regions(&Vec::new(), &Vec::new(), &Scan::Uint32(1), true);
    assert!(hits.is_empty());
}

#[test]
fn regions_keep_valid_protections_in_order() {
    let infos = vec![
        RegionInfo { base: 0x0, size: 0x1000, protect: 0x01 },
        RegionInfo { base: 0x1000, size: 0x2000, protect: 0x04 },
        RegionInfo { base: 0x3000, size: 0x1000, protect: 0x20 },
        RegionInfo { base: 0x4000, size: 0x1000, protect: 0x02 },
    ];
    let valid = vec![0x02, 0x04, 0x08];
    let regions = get_memory_regions(&infos, &valid).unwrap();
    let got: Vec<(usize, usize)> = regions.iter().map(|m| (m.base, m.size)).collect();
    assert_eq!(got, vec![(0x1000, 0x2000), (0x4000, 0x1000)]);
}

#[test]
fn regions_none_valid_is_an_error() {
    let infos = vec![RegionInfo { base: 0x0, size: 0x1000, protect: 0x01 }];
    let valid = vec![0x02, 0x04, 0x08];
    assert_eq!(get_memory_regions(&infos, &valid).unwrap_err(), RegionError::NoMatchingRegion);
    assert_eq!(get_memory_regions(&Vec::new(), &valid).unwrap_err(), RegionError::NoMatchingRegion);
}

#[test]
fn next_query_address_steps_past_region() {
    let info = RegionInfo { base: 0x1000, size: 0x2000, protect: 0 };
    assert_eq!(next_query_address(&info), Some(0x3000));
    let last = RegionInfo { base: usize::MAX - 0xfff, size: 0x1000, protect: 0 };
    assert_eq!(next_query_address(&last), None);
}

/// The bytes of a model memory at a range.
fn read(mem: &[(usize, Vec<u8>)], m: &MemAddr) -> Vec<u8> {
    for (base, bytes) in mem {
        if *base <= m.base && m.base + m.size <= *base + bytes.len() {
            let off = m.base - base;
            return bytes[off..off + m.size].to_vec();
        }
    }
    panic!("unmapped");
}

#[test]
fn rescan_of_first_hits_gives_them_back() {
    let mut a = Vec::new();
    for v in [9u32, 3, 9, 1] {
        a.extend_from_slice(&v.to_le_bytes());
    }
    let mut b = Vec::new();
    for v in [9u32, 9] {
        b.extend_from_slice(&v.to_le_bytes());
    }
    let mem = vec![(0x1000usize, a.clone()), (0x8000usize, b.clone())];
    let regions = vec![MemAddr { base: 0x1000, size: 16 }, MemAddr { base: 0x8000, size: 8 }];
    let first = scan_multiple_regions(&regions, &vec![a, b], &Scan::Uint32(9), true);
    assert_eq!(first.len(), 4);
    let again: Vec<Vec<u8>> = first.iter().map(|m| read(&mem, m)).collect();
    let second = scan_multiple_regions(&first, &again, &Scan::Uint32(9), false);
    let f: Vec<(usize, usize)> = first.iter().map(|m| (m.base, m.size)).collect();
    let s: Vec<(usize, usize)> = second.iter().map(|m| (m.base, m.size)).collect();
    assert_eq!(f, s);
}

#[test]
fn scan_of_joined_region_lists_joins_hits() {
    let a = vec![MemAddr { base: 0x100, size: 8 }];
    let ca = vec![vec![5u8, 0, 0, 0, 5, 0, 0, 0]];
    let b = vec![MemAddr { base: 0x900, size: 4 }, MemAddr { base: 0xa00, size: 4 }];
    let cb = vec![vec![0u8, 0, 0, 0], vec![5u8, 0, 0, 0]];
    let v = Scan::Uint32(5);
    let mut both = a.clone();
    both.extend(b.iter().cloned());
    let mut cboth = ca.clone();
    cboth.extend(cb.iter().cloned());
    let whole: Vec<usize> = scan_multiple_regions(&both, &cboth, &v, true).iter().map(|m| m.base).collect();
    let mut parts: Vec<usize> = scan_multiple_regions(&a, &ca, &v, true).iter().map(|m| m.base).collect();
    parts.extend(scan_multiple_regions(&b, &cb, &v, true).iter().map(|m| m.base));
    assert_eq!(whole, parts);
    assert_eq!(whole, vec![0x100, 0x104, 0xa00]);
}
