use workassist::ptr::{AtomicTaggedPtr, TaggedPtr, ADDR_LIMIT, TAG_LIMIT};

#[test]
fn tagged_ptr_round_trip() {
    let p = TaggedPtr::new(0x1234_5678_9abc, 77);
    assert_eq!(p.ptr(), 0x1234_5678_9abc);
    assert_eq!(p.tag(), 77);
    let q = TaggedPtr::new(0, 0);
    assert_eq!(q.ptr(), 0);
    assert_eq!(q.tag(), 0);
    let r = TaggedPtr::new(ADDR_LIMIT - 1, TAG_LIMIT - 1);
    assert_eq!(r.ptr(), ADDR_LIMIT - 1);
    assert_eq!(r.tag(), TAG_LIMIT - 1);
}

#[test]
fn tagged_ptr_rejects_wide_tag() {
    assert!(TaggedPtr::try_new(1, TAG_LIMIT).is_none());
    assert!(TaggedPtr::try_new(1, u64::MAX).is_none());
    assert!(TaggedPtr::try_new(ADDR_LIMIT, 0).is_none());
    let ok = TaggedPtr::try_new(42, TAG_LIMIT - 1).unwrap();
    assert_eq!(ok.ptr(), 42);
    assert_eq!(ok.tag(), TAG_LIMIT - 1);
}

#[test]
fn atomic_tagged_ptr_load_store_swap() {
    let mut cell = AtomicTaggedPtr::new(TaggedPtr::new(5, 1));
    assert_eq!(cell.load().ptr(), 5);
    assert_eq!(cell.load().tag(), 1);
    cell.store(TaggedPtr::new(9, 3));
    assert_eq!(cell.load().ptr(), 9);
    let old = cell.swap(TaggedPtr::new(0, 0));
    assert_eq!(old.ptr(), 9);
    assert_eq!(old.tag(), 3);
    assert_eq!(cell.load().ptr(), 0);
}

#[test]
fn atomic_tagged_ptr_compare_exchange() {
    let mut cell = AtomicTaggedPtr::new(TaggedPtr::new(7, 2));
    // Wrong expectation: the exchange fails and reports what it found.
    let r = cell.compare_exchange(TaggedPtr::new(7, 1), TaggedPtr::new(0, 0));
    assert!(r.is_err());
    assert_eq!(r.err().unwrap().tag(), 2);
    assert_eq!(cell.load().ptr(), 7);
    // Right expectation: the exchange succeeds.
    let r = cell.compare_exchange(TaggedPtr::new(7, 2), TaggedPtr::new(0, 0));
    assert!(r.is_ok());
    assert_eq!(cell.load().ptr(), 0);
}

#[test]
fn atomic_tagged_ptr_fetch_add_tag() {
    let mut cell = AtomicTaggedPtr::new(TaggedPtr::new(0x10_0000, 1));
    let before = cell.fetch_add_tag(1);
    assert_eq!(before.tag(), 1);
    assert_eq!(cell.load().tag(), 2);
    // The pointer bits are untouched by tag arithmetic.
    assert_eq!(cell.load().ptr(), 0x10_0000);
}
