//! Threads that share one ring.

use crossbeam::atomic::AtomicCell;
use limitless::{ReadOp, RingBufferError, SharedRing, WriteOp};
use std::cell::Cell;
use std::collections::{HashMap, HashSet};
use std::rc::Rc;

fn read<T>(ring: &SharedRing<T>) -> Result<T, RingBufferError> {
    let mut op = ReadOp::LoadIndex;
    loop {
        op = ring.run_read(op, 100);
        if let ReadOp::Done(result) = op {
            return result;
        }
    }
}

fn write<T>(ring: &SharedRing<T>, value: T) -> Result<(), RingBufferError> {
    let mut op = WriteOp::LoadIndex { value };
    loop {
        op = ring.run_write(op, 100);
        if let WriteOp::Done(result) = op {
            return result;
        }
    }
}

enum WishyWashy {
    No,
    Yes,
    Maybe,
}

struct DataCorruptor {
    val1: HashMap<String, Vec<usize>>,
    val2: WishyWashy,
}

#[test]
fn a_shared_ring_works_like_an_exclusive_one() {
    const SIZE: usize = 5;
    let ring: SharedRing<usize> = SharedRing::new(SIZE);
    assert!(ring.is_empty());
    assert_eq!(Err(RingBufferError::Empty), read(&ring));
    for _ in 0..3 {
        for i in 0..SIZE {
            assert!(!ring.is_full());
            assert_eq!(Ok(()), write(&ring, i));
            assert!(!ring.is_empty());
        }
        assert!(ring.is_full());
        assert_eq!(Err(RingBufferError::Full), write(&ring, 6));
        for i in 0..SIZE {
            assert_eq!(Ok(i), read(&ring));
        }
        assert_eq!(Err(RingBufferError::Empty), read(&ring));
    }
}

#[test]
fn a_shared_ring_without_slots_is_empty_and_never_full() {
    let ring: SharedRing<usize> = SharedRing::new(0);
    assert!(ring.is_empty());
    assert!(!ring.is_full());
}

#[test]
fn a_run_stops_after_its_accesses_or_at_the_end() {
    let ring: SharedRing<char> = SharedRing::new(2);
    let write = ring.run_write(WriteOp::LoadIndex { value: 'a' }, 0);
    assert!(matches!(write, WriteOp::LoadIndex { value: 'a' }));
    let write = ring.run_write(write, 1);
    assert!(matches!(write, WriteOp::LoadStamp { idx: 0, value: 'a' }));
    let write = ring.run_write(write, 1);
    assert!(matches!(write, WriteOp::Claim { idx: 0, value: 'a' }));
    assert!(matches!(ring.run_write(write, 1000), WriteOp::Done(Ok(()))));
    let read = ring.run_read(ReadOp::LoadIndex, 2);
    assert!(matches!(read, ReadOp::Claim { idx: 0 }));
    assert!(matches!(ring.run_read(read, 1000), ReadOp::Done(Ok('a'))));
    assert!(matches!(
        ring.run_read(ReadOp::LoadIndex, 1000),
        ReadOp::Done(Err(RingBufferError::Empty))
    ));
    assert!(matches!(ring.run_read(ReadOp::Done(Ok('b')), 1000), ReadOp::Done(Ok('b'))));
}

#[test]
fn a_run_waits_no_longer_than_it_is_told() {
    let ring: SharedRing<char> = SharedRing::new(2);
    let mut write = WriteOp::LoadIndex { value: 'a' };
    while !matches!(write, WriteOp::Put { .. }) {
        write = ring.step_write(write);
    }
    // the slot is claimed and not filled, so the read starts over again and again
    let read = ring.run_read(ReadOp::LoadIndex, 300);
    assert!(matches!(read, ReadOp::LoadIndex));
    let read = ring.run_read(read, 301);
    assert!(matches!(read, ReadOp::LoadStamp { idx: 0 }));
    assert!(matches!(ring.run_write(write, 2), WriteOp::Done(Ok(()))));
    assert!(matches!(ring.run_read(read, 1000), ReadOp::Done(Ok('a'))));
}

/// Counts how often items are dropped.
struct Counted(Rc<Cell<usize>>);

impl Drop for Counted {
    fn drop(&mut self) {
        self.0.set(self.0.get() + 1);
    }
}

#[test]
fn items_that_no_thread_reads_are_not_dropped() {
    let drops = Rc::new(Cell::new(0));
    let ring: SharedRing<Counted> = SharedRing::new(3);
    for _ in 0..3 {
        assert!(write(&ring, Counted(drops.clone())).is_ok());
    }
    assert!(write(&ring, Counted(drops.clone())).is_err());
    assert_eq!(1, drops.get());
    let first = read(&ring);
    assert!(first.is_ok());
    assert_eq!(1, drops.get());
    drop(first);
    assert_eq!(2, drops.get());
    drop(ring);
    assert_eq!(2, drops.get());
}

#[test]
fn test_multi_threaded_independent_read_and_write() {
    const SIZE: usize = 1024 * 16;
    let iteration_size = 8;
    println!("running {iteration_size} threads");
    let rb: SharedRing<usize> = SharedRing::new(SIZE);
    let sum = AtomicCell::new(0usize);
    let sum_err = AtomicCell::new(0usize);

    // read threads === write threads
    crossbeam::scope(|scope| {
        for i in 0..iteration_size {
            let (rb, sum, sum_err) = (&rb, &sum, &sum_err);
            if i % 2 == 0 {
                scope.spawn(move |_| {
                    for _ in 0..SIZE {
                        // complete regardless of contention
                        if write(rb, 1).is_err() {
                            sum_err.fetch_add(1);
                        }
                    }
                });
            } else {
                scope.spawn(move |_| {
                    while !rb.is_empty() {
                        if let Ok(r) = read(rb) {
                            sum.fetch_add(r);
                        }
                    }
                });
            }
        }
    })
    .unwrap();
    while !rb.is_empty() {
        if let Ok(r) = read(&rb) {
            sum.fetch_add(r);
        }
    }
    let result = (SIZE * iteration_size / 2) - sum_err.load();
    println!("result is {result}");
    assert_eq!(sum.load(), result);
}

#[test]
fn test_multi_threaded_independent_data_corruption_check() {
    const SIZE: usize = 1024 * 16;
    let iteration_size = 8;
    println!("running {iteration_size} threads");
    let rb: SharedRing<DataCorruptor> = SharedRing::new(SIZE);
    let result = AtomicCell::new(0usize);
    let sum = AtomicCell::new(0usize);

    // read threads === write threads
    crossbeam::scope(|scope| {
        for t in 0..iteration_size {
            let (rb, result, sum) = (&rb, &result, &sum);
            if t % 2 == 0 {
                scope.spawn(move |_| {
                    for i in 0..SIZE {
                        // complete regardless of contention
                        let mut hm = HashMap::new();
                        result.fetch_add(i);
                        hm.insert("hello".to_owned(), vec![i, i + 1, i + 2]);
                        let w = match i {
                            n if n % 2 == 0 => WishyWashy::Yes,
                            n if n % 3 == 0 => WishyWashy::No,
                            _ => WishyWashy::Maybe,
                        };
                        if write(rb, DataCorruptor { val1: hm, val2: w }).is_err() {
                            result.fetch_sub(i);
                        }
                    }
                });
            } else {
                scope.spawn(move |_| {
                    while !rb.is_empty() {
                        if let Ok(r) = read(rb) {
                            sum.fetch_add(checked(&r));
                        }
                    }
                });
            }
        }
    })
    .unwrap();
    while !rb.is_empty() {
        if let Ok(r) = read(&rb) {
            sum.fetch_add(checked(&r));
        }
    }
    let r = result.load();
    println!("result is {r}");
    assert_eq!(sum.load(), r);
}

/// The first number of an item whose parts belong together.
fn checked(item: &DataCorruptor) -> usize {
    let i = item.val1["hello"][0];
    assert_eq!(vec![i, i + 1, i + 2], item.val1["hello"]);
    match item.val2 {
        WishyWashy::Yes => assert!(i % 2 == 0),
        WishyWashy::No => assert!(i % 2 != 0 && i % 3 == 0),
        WishyWashy::Maybe => assert!(i % 2 != 0 && i % 3 != 0),
    }
    i
}

#[test]
fn test_multi_threaded_not_loom() {
    const SIZE: usize = 3;
    let rb: SharedRing<usize> = SharedRing::new(SIZE);
    let (hs_1, hs_2) = crossbeam::scope(|scope| {
        let rb = &rb;
        let collect = move || {
            let mut hs: HashSet<usize> = HashSet::new();
            for _ in 0..SIZE {
                if let Ok(r) = read(rb) {
                    hs.insert(r);
                }
            }
            hs
        };
        let t1 = scope.spawn(move |_| collect());
        let t2 = scope.spawn(move |_| collect());
        for i in 0..(SIZE) {
            let _ = write(rb, i);
        }
        (t1.join().unwrap(), t2.join().unwrap())
    })
    .unwrap();
    assert!(hs_1.is_disjoint(&hs_2) || hs_1.is_empty());
}

#[test]
fn threads_on_a_small_ring_lose_and_repeat_nothing() {
    for size in [1, 2, 3, 64] {
        lose_and_repeat_nothing(size);
    }
}

fn lose_and_repeat_nothing(size: usize) {
    const ITEMS: usize = 2000;
    let ring: SharedRing<usize> = SharedRing::new(size);
    let seen: Vec<usize> = crossbeam::scope(|scope| {
        let ring = &ring;
        let mut readers = vec![];
        for _ in 0..2 {
            readers.push(scope.spawn(move |_| {
                let mut seen = vec![];
                while seen.len() < ITEMS {
                    if let Ok(v) = read(ring) {
                        seen.push(v);
                    }
                }
                seen
            }));
        }
        for t in 0..2 {
            scope.spawn(move |_| {
                for i in 0..ITEMS {
                    while write(ring, t * ITEMS + i).is_err() {
                        std::hint::spin_loop();
                    }
                }
            });
        }
        let mut seen = vec![];
        for reader in readers {
            let mine: Vec<usize> = reader.join().unwrap();
            // what one writer wrote, one reader sees in order
            for t in 0..2 {
                let of_one: Vec<usize> =
                    mine.iter().copied().filter(|v| v / ITEMS == t).collect();
                assert!(of_one.windows(2).all(|pair| pair[0] < pair[1]));
            }
            seen.extend(mine);
        }
        seen
    })
    .unwrap();
    let mut sorted = seen.clone();
    sorted.sort();
    assert_eq!((0..2 * ITEMS).collect::<Vec<usize>>(), sorted);
}
