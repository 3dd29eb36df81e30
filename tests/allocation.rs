use proof_carrier::allocator::{BLOCK_COUNT, REGION_SIZE};
use proof_carrier::{AllocError, Allocator, Layout, Region};

const BASE: usize = 4096;

#[test]
fn two_allocations_are_disjoint() {
    let mut r = Region::new(BASE);
    let l = Layout { size: 16, align: 8 };
    let p1 = r.allocate(l).unwrap().into_value().addr;
    let p2 = r.allocate(l).unwrap().into_value().addr;
    assert_ne!(p1, p2);
    assert!(p1 + 16 <= p2 || p2 + 16 <= p1);
    assert_eq!(p1 % 8, 0);
    assert_eq!(p2 % 8, 0);
    assert!(p1 >= BASE && p1 + 16 <= BASE + REGION_SIZE);
    assert!(p2 >= BASE && p2 + 16 <= BASE + REGION_SIZE);
}

#[test]
fn deallocated_address_is_reused() {
    let mut r = Region::new(BASE);
    let l = Layout { size: 16, align: 8 };
    let first = r.allocate(l).unwrap();
    let p1 = *first.get();
    r.deallocate(first, l);
    let second = r.allocate(l).unwrap();
    assert_eq!(*second.get(), p1);
}

#[test]
fn unsupported_layouts_are_refused_without_change() {
    let mut r = Region::new(BASE);
    let bad = [
        Layout { size: 0, align: 1 },
        Layout { size: 17, align: 1 },
        Layout { size: 8, align: 3 },
        Layout { size: 8, align: 0 },
        Layout { size: 8, align: 32 },
    ];
    for l in bad {
        assert_eq!(r.allocate(l).err(), Some(AllocError::UnsupportedLayout));
    }
    // nothing was taken: the first block is still the one handed out
    let p = r.allocate(Layout { size: 4, align: 4 }).unwrap().into_value().addr;
    assert_eq!(p, BASE);
}

#[test]
fn full_region_reports_out_of_space() {
    let mut r = Region::new(BASE);
    let l = Layout { size: 1, align: 1 };
    let mut addrs = Vec::new();
    for _ in 0..BLOCK_COUNT {
        addrs.push(r.allocate(l).unwrap().into_value().addr);
    }
    assert_eq!(r.allocate(l).err(), Some(AllocError::OutOfSpace));
    // a layout the region can never serve is still told apart
    assert_eq!(r.allocate(Layout { size: 32, align: 1 }).err(), Some(AllocError::UnsupportedLayout));
    addrs.sort();
    addrs.dedup();
    assert_eq!(addrs.len(), BLOCK_COUNT);
}

#[test]
fn live_allocations_never_overlap() {
    let mut r = Region::new(BASE);
    let layouts = [
        Layout { size: 16, align: 16 },
        Layout { size: 3, align: 1 },
        Layout { size: 8, align: 8 },
        Layout { size: 12, align: 4 },
    ];
    let mut live: Vec<(usize, usize)> = Vec::new();
    for i in 0..BLOCK_COUNT {
        let l = layouts[i % layouts.len()];
        let p = r.allocate(l).unwrap().into_value().addr;
        assert_eq!(p % l.align, 0);
        for &(q, s) in &live {
            assert!(p + l.size <= q || q + s <= p);
        }
        live.push((p, l.size));
    }
}

#[test]
fn freed_block_in_the_middle_is_taken_first() {
    let mut r = Region::new(BASE);
    let l = Layout { size: 16, align: 16 };
    let a = r.allocate(l).unwrap();
    let b = r.allocate(l).unwrap();
    let c = r.allocate(l).unwrap();
    let b_addr = b.get().addr;
    r.deallocate(b, l);
    let d = r.allocate(l).unwrap();
    assert_eq!(d.get().addr, b_addr);
    let e = r.allocate(l).unwrap();
    assert_eq!(e.get().addr, c.get().addr + 16);
    assert_eq!(a.get().addr, BASE);
}
