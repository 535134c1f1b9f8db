use scc::ebr::{AtomicArc, Barrier, Tag};

#[test]
fn arc() {
    let atomic_arc = AtomicArc::new(10u32);
    assert!(!atomic_arc.is_null());
    assert_eq!(atomic_arc.load().copied(), Some(10));
    drop(atomic_arc);
}

#[test]
fn null_owner() {
    let a: AtomicArc<u8> = AtomicArc::null();
    assert!(a.is_null());
    assert!(a.load().is_none());
    assert_eq!(a.tag(), Tag::Neither);
    let d: AtomicArc<u8> = AtomicArc::default();
    assert!(d.is_null());
}

#[test]
fn tag_update() {
    let mut a: AtomicArc<u8> = AtomicArc::null();
    assert!(a.update_tag_if(Tag::First, |t| t == Tag::Neither));
    assert!(!a.update_tag_if(Tag::First, |t| t == Tag::Neither));
    assert_eq!(a.tag(), Tag::First);
    assert!(a.update_tag_if(Tag::Both, |t| t == Tag::First || t == Tag::Second));
    assert_eq!(a.tag(), Tag::Both);
}

#[test]
fn swap_owner() {
    let barrier = Barrier::new();
    let mut a: AtomicArc<u64> = AtomicArc::null();
    let (prev, prev_tag) = a.swap(Some(Box::new(7u64)), Tag::Second);
    assert!(prev.is_none());
    assert_eq!(prev_tag, Tag::Neither);
    assert_eq!(a.load().copied(), Some(7));
    assert_eq!(a.tag(), Tag::Second);
    let (owner, tag) = a.swap(None, Tag::Neither);
    assert_eq!(tag, Tag::Second);
    barrier.reclaim(owner.unwrap());
    assert!(a.is_null());
}
