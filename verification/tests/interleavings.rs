//! Two threads on one ring, with every schedule of at most two preemptions.

use limitless::{ReadOp, RingBuffer, RingBufferError, WriteOp};
use std::collections::HashMap;

#[derive(Debug, PartialEq)]
enum WishyWashy {
    No,
    Yes,
    Maybe,
}

#[derive(Debug, PartialEq)]
struct DataCorruptor {
    val1: HashMap<String, Vec<usize>>,
    val2: WishyWashy,
}

fn corruptor(i: usize) -> DataCorruptor {
    let mut hm = HashMap::new();
    hm.insert("hello".to_owned(), vec![i, i + 1, i + 2]);
    let w = match i {
        n if n % 2 == 0 => WishyWashy::Yes,
        n if n % 3 == 0 => WishyWashy::No,
        _ => WishyWashy::Maybe,
    };
    DataCorruptor { val1: hm, val2: w }
}

enum Op {
    Read(ReadOp<DataCorruptor>),
    Write(WriteOp<DataCorruptor>),
}

struct Thread {
    ops: Vec<Op>,
    read: Vec<Result<DataCorruptor, RingBufferError>>,
    written: Vec<Result<(), RingBufferError>>,
}

fn reader(times: usize) -> Thread {
    let ops = (0..times).map(|_| Op::Read(ReadOp::LoadIndex)).collect();
    Thread { ops, read: vec![], written: vec![] }
}

fn writer(values: Vec<usize>) -> Thread {
    let ops = values
        .into_iter()
        .rev()
        .map(|i| Op::Write(WriteOp::LoadIndex { value: corruptor(i) }))
        .collect();
    Thread { ops, read: vec![], written: vec![] }
}

/// One access of the thread's current operation. Whether the thread lets others go first.
fn step(rb: &mut RingBuffer<DataCorruptor>, thread: &mut Thread) -> bool {
    match thread.ops.pop() {
        None => true,
        Some(Op::Read(op)) => match rb.step_read(op) {
            ReadOp::Done(result) => {
                thread.read.push(result);
                false
            }
            ReadOp::LoadIndex => {
                thread.ops.push(Op::Read(ReadOp::LoadIndex));
                true
            }
            next => {
                thread.ops.push(Op::Read(next));
                false
            }
        },
        Some(Op::Write(op)) => match rb.step_write(op) {
            WriteOp::Done(result) => {
                thread.written.push(result);
                false
            }
            WriteOp::LoadIndex { value } => {
                thread.ops.push(Op::Write(WriteOp::LoadIndex { value }));
                true
            }
            next => {
                thread.ops.push(Op::Write(next));
                false
            }
        },
    }
}

fn run(rb: &mut RingBuffer<DataCorruptor>, threads: &mut [Thread; 2], first: usize, at: [usize; 2]) {
    let mut current = first;
    let mut count = 0;
    while !threads[0].ops.is_empty() || !threads[1].ops.is_empty() {
        if at.contains(&count) {
            current = 1 - current;
        }
        let other_first = step(rb, &mut threads[current]);
        if other_first || threads[current].ops.is_empty() {
            current = 1 - current;
        }
        count += 1;
        assert!(count < 1000);
    }
}

fn schedules() -> Vec<(usize, [usize; 2])> {
    let mut all = vec![];
    for first in 0..2 {
        for i in 0..40 {
            for j in i..40 {
                all.push((first, [i, j]));
            }
        }
    }
    all
}

#[test]
fn test_two_threads_non_copy_type_rw() {
    const SIZE: usize = 2;
    for (first, at) in schedules() {
        let mut rb: RingBuffer<DataCorruptor> = RingBuffer::new(SIZE);
        let mut threads = [reader(SIZE), writer((0..SIZE).collect())];
        run(&mut rb, &mut threads, first, at);
        assert_eq!(vec![Ok(()), Ok(())], threads[1].written);
        let mut next = 0;
        for result in &threads[0].read {
            match result {
                Ok(v) => {
                    assert_eq!(corruptor(next), *v);
                    next += 1;
                }
                Err(e) => assert_eq!(RingBufferError::Empty, *e),
            }
        }
        // what the thread did not read is still there
        while next < SIZE {
            assert_eq!(Ok(corruptor(next)), rb.read());
            next += 1;
        }
        assert!(rb.is_empty());
    }
}

#[test]
fn test_two_threads_non_copy_type_ww() {
    const SIZE: usize = 2;
    for (first, at) in schedules() {
        let mut rb: RingBuffer<DataCorruptor> = RingBuffer::new(SIZE);
        let mut threads = [writer((0..SIZE).collect()), writer((0..SIZE).collect())];
        run(&mut rb, &mut threads, first, at);
        let accepted: Vec<usize> = threads
            .iter()
            .map(|t| t.written.iter().filter(|r| r.is_ok()).count())
            .collect();
        assert_eq!(SIZE, accepted[0] + accepted[1]);
        assert!(rb.is_full());
        let mut seen = vec![];
        for _ in 0..SIZE {
            let v = rb.read().unwrap();
            let i = v.val1["hello"][0];
            assert_eq!(corruptor(i), v);
            seen.push(i);
        }
        seen.sort();
        if accepted[0] == 1 {
            assert_eq!(vec![0, 0], seen);
        } else {
            assert_eq!(vec![0, 1], seen);
        }
    }
}

#[test]
fn test_two_threads_non_copy_type_rr() {
    const SIZE: usize = 2;
    for (first, at) in schedules() {
        let mut rb: RingBuffer<DataCorruptor> = RingBuffer::new(SIZE);
        for i in 0..SIZE {
            assert_eq!(Ok(()), rb.write(corruptor(i)));
        }
        let mut threads = [reader(SIZE), reader(1)];
        run(&mut rb, &mut threads, first, at);
        let mut seen = vec![];
        for thread in &threads {
            for result in &thread.read {
                match result {
                    Ok(v) => {
                        let i = v.val1["hello"][0];
                        assert_eq!(corruptor(i), *v);
                        seen.push(i);
                    }
                    Err(e) => assert_eq!(RingBufferError::Empty, *e),
                }
            }
        }
        seen.sort();
        assert_eq!(vec![0, 1], seen);
        assert!(rb.is_empty());
    }
}

#[test]
fn a_reader_waits_for_the_writer_that_claimed_its_slot() {
    let mut rb: RingBuffer<u32> = RingBuffer::new(2);
    let mut write = WriteOp::LoadIndex { value: 7 };
    // index, stamp and claim: the slot is taken but not filled
    for _ in 0..3 {
        write = rb.step_write(write);
    }
    assert!(matches!(write, WriteOp::Put { idx: 0, value: 7 }));
    let mut read = ReadOp::LoadIndex;
    for _ in 0..3 {
        read = rb.step_read(read);
    }
    assert!(matches!(read, ReadOp::LoadIndex));
    for _ in 0..2 {
        write = rb.step_write(write);
    }
    assert!(matches!(write, WriteOp::Done(Ok(()))));
    for _ in 0..5 {
        read = rb.step_read(read);
    }
    assert!(matches!(read, ReadOp::Done(Ok(7))));
    assert!(rb.is_empty());
}

#[test]
fn a_writer_waits_for_the_reader_that_claimed_its_slot() {
    let mut rb: RingBuffer<u32> = RingBuffer::new(1);
    assert_eq!(Ok(()), rb.write(1));
    let mut read = ReadOp::LoadIndex;
    for _ in 0..3 {
        read = rb.step_read(read);
    }
    assert!(matches!(read, ReadOp::Take { idx: 0 }));
    let mut write = WriteOp::LoadIndex { value: 2 };
    for _ in 0..3 {
        write = rb.step_write(write);
    }
    assert!(matches!(write, WriteOp::LoadIndex { value: 2 }));
    for _ in 0..2 {
        read = rb.step_read(read);
    }
    assert!(matches!(read, ReadOp::Done(Ok(1))));
    for _ in 0..5 {
        write = rb.step_write(write);
    }
    assert!(matches!(write, WriteOp::Done(Ok(()))));
    assert_eq!(Ok(2), rb.read());
}

#[test]
fn the_slower_of_two_claims_is_lost() {
    let mut rb: RingBuffer<u32> = RingBuffer::new(3);
    let mut a = WriteOp::LoadIndex { value: 1 };
    let mut b = WriteOp::LoadIndex { value: 2 };
    for _ in 0..2 {
        a = rb.step_write(a);
        b = rb.step_write(b);
    }
    b = rb.step_write(b);
    a = rb.step_write(a);
    assert!(matches!(b, WriteOp::Put { idx: 0, value: 2 }));
    assert!(matches!(a, WriteOp::LoadIndex { value: 1 }));
    for _ in 0..5 {
        a = rb.step_write(a);
    }
    for _ in 0..2 {
        b = rb.step_write(b);
    }
    assert!(matches!(a, WriteOp::Done(Ok(()))));
    assert!(matches!(b, WriteOp::Done(Ok(()))));
    assert_eq!(Ok(2), rb.read());
    assert_eq!(Ok(1), rb.read());
}

/// Runs a write to its end. Starting over is not an end.
fn finish_write(rb: &mut RingBuffer<u32>, mut op: WriteOp<u32>) -> Result<(), RingBufferError> {
    for _ in 0..100 {
        op = rb.step_write(op);
        if let WriteOp::Done(result) = op {
            return result;
        }
    }
    panic!("the write does not end")
}

/// Runs a read to its end. Starting over is not an end.
fn finish_read(rb: &mut RingBuffer<u32>, mut op: ReadOp<u32>) -> Result<u32, RingBufferError> {
    for _ in 0..100 {
        op = rb.step_read(op);
        if let ReadOp::Done(result) = op {
            return result;
        }
    }
    panic!("the read does not end")
}

#[test]
fn a_late_write_overwrites_nothing() {
    let mut rb: RingBuffer<u32> = RingBuffer::new(1);
    let mut late = WriteOp::LoadIndex { value: 7 };
    for _ in 0..2 {
        late = rb.step_write(late);
    }
    assert!(matches!(late, WriteOp::Claim { idx: 0, value: 7 }));
    assert_eq!(Ok(()), rb.write(8));
    assert_eq!(Ok(8), rb.read());
    assert_eq!(Ok(()), rb.write(9));
    // the claim is lost, and the ring is full
    assert_eq!(Err(RingBufferError::Full), finish_write(&mut rb, late));
    assert!(rb.is_full());
    assert_eq!(Ok(9), rb.read());
    assert_eq!(Err(RingBufferError::Empty), rb.read());
    assert_eq!(Ok(()), rb.write(10));
    assert_eq!(Ok(10), rb.read());
}

#[test]
fn a_late_read_takes_nothing_that_is_not_there() {
    for laps in 1..9 {
        let mut rb: RingBuffer<u32> = RingBuffer::new(1);
        assert_eq!(Ok(()), rb.write(0));
        let mut late = ReadOp::LoadIndex;
        for _ in 0..2 {
            late = rb.step_read(late);
        }
        assert!(matches!(late, ReadOp::Claim { idx: 0 }));
        for v in 0..laps {
            assert_eq!(Ok(v), rb.read());
            assert_eq!(Ok(()), rb.write(v + 1));
        }
        assert_eq!(Ok(laps), rb.read());
        assert_eq!(Err(RingBufferError::Empty), finish_read(&mut rb, late));
        assert_eq!(Ok(()), rb.write(100));
        assert_eq!(Ok(100), rb.read());
    }
}

#[test]
fn a_writer_that_was_away_for_whole_laps_reports_full() {
    for size in 1usize..4 {
        for away in 0..20usize {
            for steps in 1..3 {
                let mut rb: RingBuffer<u32> = RingBuffer::new(size);
                let mut late = WriteOp::LoadIndex { value: 7 };
                for _ in 0..steps {
                    late = rb.step_write(late);
                }
                for v in 0..away {
                    assert_eq!(Ok(()), rb.write(v as u32));
                    assert_eq!(Ok(v as u32), rb.read());
                }
                let result = finish_write(&mut rb, late);
                if steps == 1 && away > 0 && away % size == 0 {
                    assert_eq!(Err(RingBufferError::Full), result);
                    assert!(rb.is_empty());
                } else {
                    assert_eq!(Ok(()), result);
                    assert_eq!(Ok(7), rb.read());
                }
            }
        }
    }
}

/// The accesses that a read does until it is over.
fn accesses_of_read(rb: &mut RingBuffer<u32>) -> usize {
    let mut op = ReadOp::LoadIndex;
    for count in 0..100 {
        if let ReadOp::Done(_) = op {
            return count;
        }
        op = rb.step_read(op);
    }
    panic!("the read does not end")
}

/// The accesses that a write does until it is over.
fn accesses_of_write(rb: &mut RingBuffer<u32>) -> usize {
    let mut op = WriteOp::LoadIndex { value: 1 };
    for count in 0..100 {
        if let WriteOp::Done(_) = op {
            return count;
        }
        op = rb.step_write(op);
    }
    panic!("the write does not end")
}

#[test]
fn nobody_disturbs_five_accesses() {
    let mut rb: RingBuffer<u32> = RingBuffer::new(3);
    for _ in 0..4 {
        assert_eq!(3, accesses_of_read(&mut rb));
        for _ in 0..3 {
            assert_eq!(5, accesses_of_write(&mut rb));
        }
        assert_eq!(3, accesses_of_write(&mut rb));
        for _ in 0..3 {
            assert_eq!(5, accesses_of_read(&mut rb));
        }
    }
}

#[test]
fn a_suspended_reader_holds_no_other_reader_up() {
    for held in 0..5 {
        let mut rb: RingBuffer<u32> = RingBuffer::new(3);
        for v in 0..3 {
            assert_eq!(Ok(()), rb.write(v));
        }
        let mut suspended = ReadOp::LoadIndex;
        for _ in 0..held {
            suspended = rb.step_read(suspended);
        }
        // the claim is the third access
        let first = if held < 3 { 0 } else { 1 };
        for v in first..3 {
            assert_eq!(Ok(v), finish_read(&mut rb, ReadOp::LoadIndex));
        }
        assert_eq!(Err(RingBufferError::Empty), finish_read(&mut rb, ReadOp::LoadIndex));
        let result = finish_read(&mut rb, suspended);
        if held < 3 {
            assert_eq!(Err(RingBufferError::Empty), result);
        } else {
            assert_eq!(Ok(0), result);
        }
    }
}

#[test]
fn a_suspended_writer_holds_no_other_writer_up() {
    for held in 0..5 {
        let mut rb: RingBuffer<u32> = RingBuffer::new(3);
        let mut suspended = WriteOp::LoadIndex { value: 9 };
        for _ in 0..held {
            suspended = rb.step_write(suspended);
        }
        // the claim is the third access
        let room = if held < 3 { 3 } else { 2 };
        for v in 0..room {
            assert_eq!(Ok(()), finish_write(&mut rb, WriteOp::LoadIndex { value: v }));
        }
        assert_eq!(
            Err(RingBufferError::Full),
            finish_write(&mut rb, WriteOp::LoadIndex { value: 8 })
        );
        let result = finish_write(&mut rb, suspended);
        if held < 3 {
            assert_eq!(Err(RingBufferError::Full), result);
        } else {
            assert_eq!(Ok(()), result);
            assert_eq!(Ok(9), rb.read());
        }
        for v in 0..room {
            assert_eq!(Ok(v), rb.read());
        }
    }
}

#[test]
fn as_many_reads_are_served_as_there_are_items() {
    const SIZE: usize = 2;
    for items in 0..(SIZE + 1) {
        for (first, at) in schedules() {
            let mut rb: RingBuffer<DataCorruptor> = RingBuffer::new(SIZE);
            for i in 0..items {
                assert_eq!(Ok(()), rb.write(corruptor(i)));
            }
            let mut threads = [reader(1), reader(2)];
            run(&mut rb, &mut threads, first, at);
            let served: usize =
                threads.iter().map(|t| t.read.iter().filter(|r| r.is_ok()).count()).sum();
            assert_eq!(items.min(3), served);
            // the oldest items, each once, and `Empty` for the others
            let mut seen = vec![];
            for result in threads.iter().flat_map(|t| t.read.iter()) {
                match result {
                    Ok(v) => seen.push(v.val1["hello"][0]),
                    Err(e) => assert_eq!(RingBufferError::Empty, *e),
                }
            }
            // what began later came later
            let of_one: Vec<usize> =
                threads[1].read.iter().flatten().map(|v| v.val1["hello"][0]).collect();
            assert!(of_one.windows(2).all(|pair| pair[0] < pair[1]));
            seen.sort();
            assert_eq!((0..items.min(3)).collect::<Vec<usize>>(), seen);
        }
    }
}

#[test]
fn as_many_writes_are_accepted_as_there_is_room() {
    for size in 1..5 {
        for (first, at) in schedules() {
            let mut rb: RingBuffer<DataCorruptor> = RingBuffer::new(size);
            let mut threads = [writer(vec![0, 1]), writer(vec![2])];
            run(&mut rb, &mut threads, first, at);
            let accepted: usize =
                threads.iter().map(|t| t.written.iter().filter(|r| r.is_ok()).count()).sum();
            assert_eq!(size.min(3), accepted);
            // the accepted values and nothing else, one thread's in the order of its writes
            let mut expected = vec![];
            for (i, result) in threads[0].written.iter().enumerate() {
                match result {
                    Ok(()) => expected.push(i),
                    Err(e) => assert_eq!(RingBufferError::Full, *e),
                }
            }
            let mut found = vec![];
            while let Ok(v) = rb.read() {
                found.push(v.val1["hello"][0]);
            }
            let of_one: Vec<usize> = found.iter().copied().filter(|i| *i < 2).collect();
            assert_eq!(expected, of_one);
            assert_eq!(threads[1].written == vec![Ok(())], found.contains(&2));
            assert_eq!(accepted, found.len());
        }
    }
}
