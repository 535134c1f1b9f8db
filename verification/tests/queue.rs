use scc::queue::Queue;

#[test]
fn fifo_order() {
    let mut queue: Queue<usize> = Queue::default();
    queue.push(37);
    queue.push(3);
    queue.push(1);
    assert_eq!(queue.pop().map(|id| *queue.entry(id).get()), Some(37));
    assert_eq!(queue.pop().map(|id| *queue.entry(id).get()), Some(3));
    assert_eq!(queue.pop().map(|id| *queue.entry(id).get()), Some(1));
    assert!(queue.pop().is_none());
}

#[test]
fn pop_if_condition() {
    let mut queue: Queue<usize> = Queue::default();
    queue.push(3);
    queue.push(1);
    let rejected = queue.pop_if(|e| *e.get() == 1);
    let blocked = rejected.err().unwrap();
    assert_eq!(*queue.entry(blocked).get(), 3);
    assert_eq!(queue.pop().map(|id| *queue.entry(id).get()), Some(3));
    let accepted = queue.pop_if(|e| *e.get() == 1);
    assert_eq!(
        accepted.ok().and_then(|popped| popped).map(|id| *queue.entry(id).get()),
        Some(1)
    );
}

#[test]
fn push_if_condition() {
    let mut queue: Queue<usize> = Queue::default();
    queue.push(11);
    assert!(queue.push_if(17, |e| e.map_or(false, |x| *x.get() == 11)).is_ok());
    let rejected = queue.push_if(29, |e| e.map_or(false, |x| *x.get() == 11));
    assert_eq!(rejected.err(), Some(29));
}

#[test]
fn push_if_empty_tail() {
    let mut queue: Queue<u8> = Queue::default();
    assert_eq!(queue.push_if(9, |e| e.is_some()).err(), Some(9));
    assert!(queue.push_if(9, |e| e.is_none()).is_ok());
    assert_eq!(queue.peek(|e| *e.get()), Some(9));
}

#[test]
fn logical_removal() {
    let mut queue: Queue<usize> = Queue::default();
    let e1 = queue.push(7);
    queue.push(11);
    assert!(queue.entry_mut(e1).remove());
    assert!(!queue.entry_mut(e1).remove());
    assert_eq!(queue.peek(|e| *e.get()), Some(11));
    assert!(!queue.is_empty());
    assert_eq!(queue.pop().map(|id| *queue.entry(id).get()), Some(11));
    assert!(queue.entry(e1).is_removed());
}

#[test]
fn removed_entries_drained() {
    let mut queue: Queue<u8> = Queue::default();
    let a = queue.push(5);
    assert!(!queue.entry(a).is_removed());
    queue.entry_mut(a).remove();
    // the entry is physically present until a pop or peek cleans it up
    assert!(!queue.is_empty());
    assert!(queue.peek(|e| *e.get()).is_none());
    assert!(queue.pop().is_none());
    // the drained queue observes null at both ends
    assert!(queue.is_empty());
    // a handle stays usable after its entry has left the queue
    assert_eq!(*queue.entry(a).get(), 5);
    assert!(queue.entry(a).is_removed());
}

#[test]
fn empty_queue() {
    let mut queue: Queue<u64> = Queue::default();
    assert!(queue.is_empty());
    assert!(queue.peek(|e| *e.get()).is_none());
    assert!(queue.pop().is_none());
    let id = queue.push(7);
    assert_eq!(*queue.entry(id).get(), 7);
    assert!(!queue.is_empty());
}
