use multiqueue::multiqueue::MultiQueue;
use multiqueue::order::ValType;
use multiqueue::subqueue::SubQueue;

#[test]
fn single_thread() {
    let mut pq = MultiQueue::<u32>::new(1);
    pq.push(1);
    pq.push(3);
    pq.push(2);

    let mut rets = vec![];
    for _ in 0..1000 {
        if let Some(elem) = pq.pop() {
            rets.push(elem);
        }
    }
    rets.sort();
    assert_eq!(rets, vec![1, 2, 3]);
}

#[test]
fn single_shard_pop_order() {
    // one thread means one shard, so pops come out in exact descending order
    let mut pq = MultiQueue::<u32>::new(1);
    pq.push(1);
    pq.push(3);
    pq.push(2);
    assert_eq!(pq.pop(), Some(3));
    assert_eq!(pq.pop(), Some(2));
    assert_eq!(pq.pop(), Some(1));
    assert_eq!(pq.pop(), None);
}

#[test]
fn pop_on_empty_is_none() {
    let mut pq = MultiQueue::<u32>::new(4);
    assert_eq!(pq.pop(), None);
    pq.push(7);
    assert_eq!(pq.pop(), Some(7));
    assert_eq!(pq.pop(), None);
}

#[test]
fn equal_items_are_kept_apart() {
    let mut pq = MultiQueue::<u32>::new(1);
    pq.push(2);
    pq.push(2);
    pq.push(1);
    assert_eq!(pq.pop(), Some(2));
    assert_eq!(pq.pop(), Some(2));
    assert_eq!(pq.pop(), Some(1));
    assert_eq!(pq.pop(), None);
}

#[test]
fn two_producers_drain() {
    // two producers' items, then two consumers' draws: the union of both
    // result sets is exactly what was pushed
    let mut pq = MultiQueue::<u32>::new(2);
    pq.push(1);
    pq.push(3);
    pq.push(2);
    pq.push(4);
    pq.push(6);
    pq.push(5);

    let mut rets1 = vec![];
    let mut rets2 = vec![];
    for _ in 0..1000 {
        if let Some(elem) = pq.pop() {
            rets1.push(elem);
        }
    }
    for _ in 0..1000 {
        if let Some(elem) = pq.pop() {
            rets2.push(elem);
        }
    }
    rets1.append(&mut rets2);
    rets1.sort();
    assert_eq!(rets1, vec![1, 2, 3, 4, 5, 6]);
}

#[test]
fn interleaved_conservation() {
    // pushes and pops interleaved: the popped multiset equals the pushed one
    let mut pq = MultiQueue::<u32>::new(3);
    let mut popped = vec![];
    pq.push(10);
    pq.push(30);
    if let Some(x) = pq.pop() {
        popped.push(x);
    }
    pq.push(20);
    pq.push(30);
    for _ in 0..100 {
        if let Some(x) = pq.pop() {
            popped.push(x);
        }
    }
    popped.sort();
    assert_eq!(popped, vec![10, 20, 30, 30]);
}

#[test]
fn reversed_item_order() {
    // ValType compares reversed on the distance: the closest vertex is the
    // greatest item, so it leaves a single shard first
    let mut pq = MultiQueue::<ValType>::new(1);
    pq.push(ValType(5, 1));
    pq.push(ValType(2, 7));
    pq.push(ValType(9, 0));
    assert_eq!(pq.pop(), Some(ValType(2, 7)));
    assert_eq!(pq.pop(), Some(ValType(5, 1)));
    assert_eq!(pq.pop(), Some(ValType(9, 0)));
    assert_eq!(pq.pop(), None);
}

#[test]
fn shard_peek_and_pop() {
    let mut q = SubQueue::<u32>::new();
    assert!(q.is_empty());
    assert_eq!(q.peek_max(), None);
    q.push_item(4);
    q.push_item(9);
    q.push_item(6);
    assert_eq!(q.len(), 3);
    assert_eq!(q.peek_max(), Some(9));
    assert_eq!(q.pop_max(), Some(9));
    assert_eq!(q.pop_max(), Some(6));
    assert_eq!(q.pop_max(), Some(4));
    assert_eq!(q.pop_max(), None);
}

#[test]
fn many_shards_drain_everything() {
    // plenty of shards and items: the two-choice pop with its sweep fallback
    // still drains the exact multiset
    let mut pq = MultiQueue::<u32>::new(8);
    let mut expected = vec![];
    for i in 0..100u32 {
        let v = (i * 37) % 11;
        pq.push(v);
        expected.push(v);
    }
    let mut got = vec![];
    while let Some(x) = pq.pop() {
        got.push(x);
    }
    expected.sort();
    got.sort();
    assert_eq!(got, expected);
    assert_eq!(pq.pop(), None);
}
