use proof_carrier::ptr::{NonNullAligned, NonNullness};
use proof_carrier::{from_raw, get_unchecked_mut, into_non_null, into_raw, read, Heap, NonNull, Pin, Ptr, Update};

#[test]
fn unwrap_returns_wrapped_value() {
    let u = Update::new(NonNullness, Ptr { addr: 24 });
    assert_eq!(*u.get(), Ptr { addr: 24 });
    assert_eq!(u.into_value(), Ptr { addr: 24 });
}

#[test]
fn into_raw_gives_non_null_aligned_addresses() {
    let mut heap: Heap<u32> = Heap::new();
    let a = into_raw(&mut heap, Box::new(10)).into_value();
    let b = into_raw(&mut heap, Box::new(20)).into_value();
    assert_eq!(a.addr, 4);
    assert_eq!(b.addr, 8);
    assert_ne!(a, b);
    assert_eq!(a.addr % std::mem::align_of::<u32>(), 0);
}

#[test]
fn live_values_do_not_overlap() {
    let mut heap: Heap<[u64; 2]> = Heap::new();
    let p1 = into_raw(&mut heap, Box::new([0u64; 2])).into_value().addr;
    let p2 = into_raw(&mut heap, Box::new([0u64; 2])).into_value().addr;
    assert!(p1 != 0 && p2 != 0);
    assert_ne!(p1, p2);
    assert_eq!(p1 % 8, 0);
    assert_eq!(p2 % 8, 0);
    assert!(p1 + 16 <= p2 || p2 + 16 <= p1);
}

#[test]
fn addresses_are_aligned_for_wide_values() {
    let mut heap: Heap<u128> = Heap::new();
    let size = std::mem::size_of::<u128>();
    let align = std::mem::align_of::<u128>();
    let mut addrs = Vec::new();
    for i in 0..5u128 {
        addrs.push(into_raw(&mut heap, Box::new(i)).into_value().addr);
    }
    for (i, &a) in addrs.iter().enumerate() {
        assert_ne!(a, 0);
        assert_eq!(a % align, 0);
        for &b in &addrs[i + 1..] {
            assert!(a + size <= b || b + size <= a);
        }
    }
}

#[test]
fn released_cell_is_reused() {
    let mut heap: Heap<u64> = Heap::new();
    let p1 = into_raw(&mut heap, Box::new(1));
    let p2 = into_raw(&mut heap, Box::new(2));
    let a1 = *p1.get();
    let b = from_raw(&mut heap, p1);
    assert_eq!(*b, 1);
    let p3 = into_raw(&mut heap, Box::new(3));
    assert_eq!(*p3.get(), a1);
    assert_ne!(*p3.get(), *p2.get());
    let r = heap.check_readable(a1).unwrap();
    assert_eq!(read(&heap, r), 3);
}

#[test]
fn zero_sized_values_get_distinct_addresses() {
    let mut heap: Heap<()> = Heap::new();
    let a = into_raw(&mut heap, Box::new(())).into_value();
    let b = into_raw(&mut heap, Box::new(())).into_value();
    assert_ne!(a.addr, 0);
    assert_ne!(a, b);
}

#[test]
fn read_after_into_raw_round_trips() {
    let mut heap: Heap<u64> = Heap::new();
    let p1 = into_raw(&mut heap, Box::new(0xdead_beef)).into_value();
    let p2 = into_raw(&mut heap, Box::new(42)).into_value();
    let r1 = heap.check_readable(p1).unwrap();
    assert_eq!(read(&heap, r1), 0xdead_beef);
    let r2 = heap.check_readable(p2).unwrap();
    assert_eq!(read(&heap, r2), 42);
    // reading leaves the cell in place
    let again = heap.check_readable(p1).unwrap();
    assert_eq!(read(&heap, again), 0xdead_beef);
}

#[test]
fn check_readable_refuses_bad_pointers() {
    let mut heap: Heap<u8> = Heap::new();
    let p = into_raw(&mut heap, Box::new(7)).into_value();
    assert!(heap.check_readable(p).is_some());
    assert!(heap.check_readable(Ptr { addr: 0 }).is_none());
    assert!(heap.check_readable(Ptr { addr: p.addr + 1 }).is_none());
    assert!(heap.check_readable(Ptr { addr: 2 * p.addr }).is_none());
}

#[test]
fn into_non_null_keeps_the_address() {
    let mut heap: Heap<i32> = Heap::new();
    let _ = into_raw(&mut heap, Box::new(-1));
    let nn: NonNull = into_non_null(&mut heap, Box::new(5));
    assert_eq!(nn.as_ptr().addr, 2 * std::mem::size_of::<i32>());
    let r = heap.check_readable(nn.as_ptr()).unwrap();
    assert_eq!(read(&heap, r), 5);
}

#[test]
fn non_null_from_narrowed_proof() {
    let strong = Update::new(NonNullAligned::<u64>::new(), Ptr { addr: 64 });
    let weak = Update::new(NonNullness, strong.into_value());
    let nn = NonNull::new_unchecked(weak);
    assert_eq!(nn.as_ptr(), Ptr { addr: 64 });
}

#[test]
fn pinned_data_is_updated_in_place() {
    let mut x: u64 = 3;
    let pin = Pin::new_unchecked(&mut x);
    let r = get_unchecked_mut(pin);
    assert_eq!(*r, 3);
    *r = 5;
    assert_eq!(x, 5);
}

#[test]
fn from_raw_takes_the_value_back() {
    let mut heap: Heap<String> = Heap::new();
    let p = into_raw(&mut heap, Box::new(String::from("pinned")));
    let q = into_raw(&mut heap, Box::new(String::from("other")));
    let addr = *p.get();
    let b = from_raw(&mut heap, p);
    assert_eq!(*b, "pinned");
    assert!(heap.check_readable(addr).is_none());
    let back = from_raw(&mut heap, q);
    assert_eq!(*back, "other");
}
