use lancelot::aspace::{DenseAddressSpace, Error};
use lancelot::util::{align, u64_i64};

#[test]
fn probe_before_and_after_map() {
    let mut d: DenseAddressSpace<u32> = DenseAddressSpace::with_capacity(0x2000);
    assert_eq!(d.probe(0x0), false);
    assert_eq!(d.probe(0x1000), false);
    d.map_empty(0x0, 0x1000).expect("failed to map");
    assert_eq!(d.probe(0x0), true);
    assert_eq!(d.probe(0x1000), false);
}

#[test]
fn get_after_overlapping_maps() {
    let mut d: DenseAddressSpace<u32> = DenseAddressSpace::with_capacity(0x2000);
    assert_eq!(d.get(0x0), None);
    assert_eq!(d.get(0x1000), None);
    d.map(0x1000, &[0x1; 0x1000]).expect("failed to map");
    assert_eq!(d.get(0x0), None);
    assert_eq!(d.get(0x1000), Some(0x1));
    d.map(0x0, &[0x2; 0x2000]).expect("failed to map");
    assert_eq!(d.get(0x0), Some(0x2));
    assert_eq!(d.get(0x1000), Some(0x2));
}

#[test]
fn map_beyond_capacity_is_not_mapped() {
    let mut d: DenseAddressSpace<u8> = DenseAddressSpace::with_capacity(0x1000);
    assert_eq!(d.map(0x2000, &[0u8; 0x1000]), Err(Error::NotMapped));
    assert_eq!(d.probe(0x2000), false);
}

#[test]
fn slice_within_one_page() {
    let mut d: DenseAddressSpace<u32> = DenseAddressSpace::with_capacity(0x2000);
    d.map_empty(0x0, 0x1000).expect("failed to map");
    assert_eq!(d.slice(0x0, 0x2).unwrap(), [0x0, 0x0]);
}

#[test]
fn slice_across_pages() {
    let mut d: DenseAddressSpace<u32> = DenseAddressSpace::with_capacity(0x5000);
    d.map_empty(0x1000, 0x3000).expect("failed to map");
    assert_eq!(d.slice(0x1FFC, 0x2000).unwrap(), [0x0, 0x0, 0x0, 0x0], "no overlap");
    assert_eq!(d.slice(0x1FFD, 0x2001).unwrap(), [0x0, 0x0, 0x0, 0x0], "overlap 1");
    assert_eq!(d.slice(0x1FFE, 0x2002).unwrap(), [0x0, 0x0, 0x0, 0x0], "overlap 2");
    assert_eq!(d.slice(0x1FFF, 0x2003).unwrap(), [0x0, 0x0, 0x0, 0x0], "overlap 3");
    assert_eq!(d.slice(0x2000, 0x2004).unwrap(), [0x0, 0x0, 0x0, 0x0], "overlap 4");
    assert_eq!(d.slice(0x1FFC, 0x3004).unwrap().len(), 0x1008, "4, page, 4");
    assert_eq!(d.slice(0x1FFC, 0x3000).unwrap().len(), 0x1004, "4, page");
    assert_eq!(d.slice(0x2000, 0x3004).unwrap().len(), 0x1004, "page, 4");
}

#[test]
fn slice_ending_on_page_boundary_needs_no_next_page() {
    let mut d: DenseAddressSpace<u8> = DenseAddressSpace::with_capacity(0x3000);
    d.map(0x1000, &[7u8; 0x1000]).unwrap();
    assert_eq!(d.slice(0x1FFE, 0x2000).unwrap(), vec![7, 7]);
    assert_eq!(d.slice(0x1FFE, 0x2001), Err(Error::NotMapped));
    assert_eq!(d.slice(0x0FFF, 0x1001), Err(Error::NotMapped));
}

#[test]
fn map_then_read_round_trip() {
    let mut d: DenseAddressSpace<u8> = DenseAddressSpace::with_capacity(0x4000);
    let bytes: Vec<u8> = (0..0x2000u32).map(|i| (i % 251) as u8).collect();
    d.map(0x1000, &bytes).unwrap();
    let mut out = vec![0u8; bytes.len()];
    d.read_into(0x1000, &mut out).unwrap();
    assert_eq!(out, bytes);
    let mut short = vec![0u8; 3];
    d.read_into(0x1FFF, &mut short).unwrap();
    assert_eq!(short, bytes[0xFFF..0x1002].to_vec());
    let mut over = vec![0u8; 2];
    assert_eq!(d.read_into(0x2FFF, &mut over), Err(Error::NotMapped));
}

#[test]
fn slice_splits_at_any_point() {
    let mut d: DenseAddressSpace<u8> = DenseAddressSpace::with_capacity(0x4000);
    let bytes: Vec<u8> = (0..0x3000u32).map(|i| (i % 253) as u8).collect();
    d.map(0x0, &bytes).unwrap();
    let (a, b) = (0xFF0u64, 0x2010u64);
    for m in [a, 0x1000, 0x1800, 0x2000, b] {
        let mut joined = d.slice(a, m).unwrap();
        joined.extend(d.slice(m, b).unwrap());
        assert_eq!(d.slice(a, b).unwrap(), joined);
    }
}

#[test]
fn align_rounds_up() {
    assert_eq!(align(0, 2), 0);
    assert_eq!(align(1, 2), 2);
    assert_eq!(align(2, 2), 2);
    assert_eq!(align(3, 2), 4);
    assert_eq!(align(4, 2), 4);
    assert_eq!(align(0x201, 0x200), 0x400);
}

#[test]
fn u64_i64_reinterprets_bits() {
    assert_eq!(0, u64_i64(0));
    assert_eq!(1, u64_i64(0x1));
    assert_eq!(-1, u64_i64(0xFFFF_FFFF_FFFF_FFFF));
    assert_eq!(i64::MIN, u64_i64(0x8000_0000_0000_0000));
}
