use limitless::{Access, Layout, ReadOp, RingBuffer, RingBufferError, Word, WriteOp};
use std::cell::Cell;
use std::rc::Rc;

#[test]
fn test_single_threaded() {
    // Sequential Access
    const SIZE: usize = 5;
    let mut rb: RingBuffer<usize> = RingBuffer::new(SIZE);

    // empty
    assert_eq!(Err(RingBufferError::Empty), rb.read());

    // cycle twice to catch syncronization issues between empty/full state changes
    for cnt in 0..2 {
        println!("iteration {cnt}");
        for i in 0..(SIZE) {
            println!("write {i}");
            assert_eq!(Ok(()), rb.write(i));
        }
        // full
        assert_eq!(Err(RingBufferError::Full), rb.write(6));
        for i in 0..(SIZE) {
            assert_eq!(Ok(i), rb.read());
        }
        // empty
        assert_eq!(Err(RingBufferError::Empty), rb.read());
    }
}

#[test]
fn a_new_ring_is_empty_and_not_full() {
    let rb: RingBuffer<u8> = RingBuffer::new(3);
    assert!(rb.is_empty());
    assert!(!rb.is_full());
}

#[test]
fn a_ring_without_slots_is_empty_and_never_full() {
    let rb: RingBuffer<u8> = RingBuffer::new(0);
    assert!(rb.is_empty());
    assert!(!rb.is_full());
}

#[test]
fn one_slot_alternates_between_full_and_empty() {
    let mut rb: RingBuffer<u32> = RingBuffer::new(1);
    for v in 0..7 {
        assert!(rb.is_empty());
        assert_eq!(Ok(()), rb.write(v));
        assert!(rb.is_full());
        assert!(!rb.is_empty());
        assert_eq!(Err(RingBufferError::Full), rb.write(100));
        assert_eq!(Ok(v), rb.read());
        assert_eq!(Err(RingBufferError::Empty), rb.read());
    }
}

#[test]
fn refused_requests_change_nothing() {
    let mut rb: RingBuffer<u32> = RingBuffer::new(2);
    assert_eq!(Err(RingBufferError::Empty), rb.read());
    assert!(rb.is_empty());
    assert_eq!(Ok(()), rb.write(1));
    assert_eq!(Ok(()), rb.write(2));
    assert_eq!(Err(RingBufferError::Full), rb.write(3));
    assert!(rb.is_full());
    assert_eq!(Ok(1), rb.read());
    assert_eq!(Ok(2), rb.read());
    assert!(rb.is_empty());
}

#[test]
fn items_come_out_in_order_over_many_laps() {
    for size in [1usize, 2, 3, 4, 5, 7, 8, 15, 16, 20] {
        let mut rb: RingBuffer<usize> = RingBuffer::new(size);
        let mut written: usize = 0;
        let mut read: usize = 0;
        // fill and drain by different amounts, so that every slot is first and last in turn
        for round in 0..100 {
            for _ in 0..(round % (size + 1)) {
                if written - read < size {
                    assert!(!rb.is_full());
                    assert_eq!(Ok(()), rb.write(written));
                    written += 1;
                } else {
                    assert!(rb.is_full());
                    assert_eq!(Err(RingBufferError::Full), rb.write(written));
                }
            }
            for _ in 0..((round + 1) % (size + 1)) {
                if read < written {
                    assert!(!rb.is_empty());
                    assert_eq!(Ok(read), rb.read());
                    read += 1;
                } else {
                    assert!(rb.is_empty());
                    assert_eq!(Err(RingBufferError::Empty), rb.read());
                }
            }
        }
        assert!(read > 2 * size);
    }
}

#[test]
fn items_need_not_be_copied() {
    let mut rb: RingBuffer<Vec<String>> = RingBuffer::new(2);
    assert_eq!(Ok(()), rb.write(vec!["a".to_owned(), "b".to_owned()]));
    assert_eq!(Ok(()), rb.write(vec![]));
    assert_eq!(Ok(vec!["a".to_owned(), "b".to_owned()]), rb.read());
    assert_eq!(Ok(vec![]), rb.read());
}

#[test]
fn the_word_ring_has_room_for_twenty() {
    let mut rb = limitless::ring::__instantiate_ringbuffer_usize();
    for i in 0..20 {
        assert_eq!(Ok(()), rb.write(i));
    }
    assert!(rb.is_full());
    assert_eq!(Err(RingBufferError::Full), rb.write(20));
}

#[test]
fn errors_have_texts() {
    assert_eq!("There are no items", RingBufferError::Empty.to_string());
    assert_eq!("The buffer is full", RingBufferError::Full.to_string());
}

#[test]
fn one_lap_is_the_next_power_of_two() {
    let pairs = [(0usize, 1usize), (1, 2), (2, 4), (3, 4), (4, 8), (5, 8), (7, 8), (8, 16), (20, 32)];
    for (capacity, mcb) in pairs {
        assert_eq!(mcb, Layout::new(capacity).mcb);
        assert_eq!(capacity, Layout::new(capacity).capacity);
    }
    assert_eq!(1usize << (usize::BITS - 1), Layout::new(isize::MAX as usize).mcb);
}

#[test]
fn indices_count_slots_and_laps() {
    let layout = Layout::new(5);
    let mut idx: usize = 0;
    let mut seen = vec![];
    for _ in 0..15 {
        seen.push(idx);
        idx = layout.advance(idx);
    }
    assert_eq!(vec![0, 1, 2, 3, 4, 8, 9, 10, 11, 12, 16, 17, 18, 19, 20], seen);
    assert_eq!(24, idx);
    let slots: Vec<usize> = seen.iter().map(|idx| layout.slot(*idx)).collect();
    assert_eq!(vec![0, 1, 2, 3, 4, 0, 1, 2, 3, 4, 0, 1, 2, 3, 4], slots);
    for idx in 0..24usize {
        assert_eq!(seen.contains(&idx), layout.contains(idx));
    }
}

#[test]
fn the_last_lap_of_the_word_is_followed_by_the_first() {
    let layout = Layout::new(5);
    let last = usize::MAX - 7;
    assert!(layout.contains(last));
    assert!(layout.contains(last + 4));
    assert!(!layout.contains(last + 5));
    assert_eq!(last + 4, layout.advance(last + 3));
    assert_eq!(0, layout.advance(last + 4));
    assert_eq!(1, layout.freed_stamp(last));
    assert_eq!(5, layout.freed_stamp(last + 4));
    assert!(layout.full(last + 2, 2));
}

#[test]
fn freed_stamps_wait_for_the_writer_of_the_next_lap() {
    let layout = Layout::new(5);
    assert_eq!(9, layout.freed_stamp(0));
    assert_eq!(13, layout.freed_stamp(4));
    assert_eq!(17, layout.freed_stamp(8));
    assert_eq!(21, layout.freed_stamp(12));
}

#[test]
fn full_and_empty_compare_indices() {
    let layout = Layout::new(5);
    assert!(layout.full(0, 8));
    assert!(layout.full(10, 2));
    assert!(!layout.full(3, 3));
    assert!(!layout.full(3, 8));
    assert!(layout.empty(3, 3));
    assert!(!layout.empty(3, 11));
}

#[test]
fn indices_on_one_slot_in_two_laps_stand_for_a_full_ring() {
    let layout = Layout::new(5);
    assert!(layout.full(3, 11));
    assert!(layout.full(3, 19));
    assert!(layout.full(11, 3));
    assert!(!layout.full(3, 3));
    assert!(!layout.full(3, 12));
}

#[test]
fn a_claim_shows_in_the_indices_at_once() {
    let mut rb: RingBuffer<char> = RingBuffer::new(1);
    let mut write = WriteOp::LoadIndex { value: 'a' };
    for _ in 0..3 {
        assert!(rb.is_empty());
        assert!(!rb.is_full());
        write = rb.step_write(write);
    }
    // claimed, and neither filled nor stamped
    assert!(matches!(write, WriteOp::Put { idx: 0, value: 'a' }));
    assert!(rb.is_full());
    assert!(!rb.is_empty());
    for _ in 0..2 {
        write = rb.step_write(write);
    }
    let mut read = ReadOp::LoadIndex;
    for _ in 0..3 {
        assert!(rb.is_full());
        read = rb.step_read(read);
    }
    // claimed, and still in its cell
    assert!(matches!(read, ReadOp::Take { idx: 0 }));
    assert!(rb.is_empty());
    assert!(!rb.is_full());
}

/// Counts how often items are dropped.
struct Counted(Rc<Cell<usize>>);

impl Drop for Counted {
    fn drop(&mut self) {
        self.0.set(self.0.get() + 1);
    }
}

#[test]
fn items_that_nobody_reads_are_not_dropped() {
    let drops = Rc::new(Cell::new(0));
    let mut rb: RingBuffer<Counted> = RingBuffer::new(3);
    for _ in 0..3 {
        assert!(rb.write(Counted(drops.clone())).is_ok());
    }
    let first = rb.read();
    assert!(first.is_ok());
    assert_eq!(0, drops.get());
    drop(first);
    assert_eq!(1, drops.get());
    drop(rb);
    assert_eq!(1, drops.get());
}

#[test]
fn a_refused_item_is_dropped() {
    let drops = Rc::new(Cell::new(0));
    let mut rb: RingBuffer<Counted> = RingBuffer::new(1);
    assert!(rb.write(Counted(drops.clone())).is_ok());
    assert_eq!(Err(RingBufferError::Full), rb.write(Counted(drops.clone())));
    assert_eq!(1, drops.get());
}

#[test]
fn a_read_decides_by_what_it_finds() {
    let layout = Layout::new(5);
    let at = |op: ReadOp<char>, word: usize| op.loaded(&layout, word);
    assert!(matches!(at(ReadOp::LoadIndex, 3), ReadOp::LoadStamp { idx: 3 }));
    assert!(matches!(at(ReadOp::LoadStamp { idx: 3 }, 3), ReadOp::Claim { idx: 3 }));
    assert!(matches!(at(ReadOp::LoadStamp { idx: 3 }, 4), ReadOp::LoadWriteIndex { idx: 3 }));
    assert!(matches!(
        at(ReadOp::LoadWriteIndex { idx: 3 }, 3),
        ReadOp::Done(Err(RingBufferError::Empty))
    ));
    assert!(matches!(at(ReadOp::LoadWriteIndex { idx: 3 }, 4), ReadOp::LoadIndex));
    let claim = || ReadOp::<char>::Claim { idx: 3 };
    assert!(matches!(claim().swapped(true), ReadOp::Take { idx: 3 }));
    assert!(matches!(claim().swapped(false), ReadOp::LoadIndex));
    let release = ReadOp::Take { idx: 3 }.taken('v');
    assert!(matches!(release, ReadOp::Release { idx: 3, value: 'v' }));
    assert!(matches!(release.stored(), ReadOp::Done(Ok('v'))));
}

#[test]
fn a_write_decides_by_what_it_finds() {
    let layout = Layout::new(5);
    let at = |op: WriteOp<char>, word: usize| op.loaded(&layout, word);
    let value = 'v';
    assert!(matches!(
        at(WriteOp::LoadIndex { value }, 3),
        WriteOp::LoadStamp { idx: 3, value: 'v' }
    ));
    assert!(matches!(
        at(WriteOp::LoadStamp { idx: 3, value }, 4),
        WriteOp::Claim { idx: 3, value: 'v' }
    ));
    assert!(matches!(
        at(WriteOp::LoadStamp { idx: 3, value }, 11),
        WriteOp::LoadReadIndex { idx: 3, value: 'v' }
    ));
    assert!(matches!(
        at(WriteOp::LoadReadIndex { idx: 11, value }, 3),
        WriteOp::Done(Err(RingBufferError::Full))
    ));
    assert!(matches!(
        at(WriteOp::LoadReadIndex { idx: 11, value }, 4),
        WriteOp::LoadIndex { value: 'v' }
    ));
    // a read index that is a lap ahead is on the same slot too
    assert!(matches!(
        at(WriteOp::LoadReadIndex { idx: 3, value }, 11),
        WriteOp::Done(Err(RingBufferError::Full))
    ));
    assert!(matches!(
        at(WriteOp::LoadReadIndex { idx: 3, value }, 3),
        WriteOp::LoadIndex { value: 'v' }
    ));
    let claim = || WriteOp::Claim { idx: 3, value };
    assert!(matches!(claim().swapped(true), WriteOp::Put { idx: 3, value: 'v' }));
    assert!(matches!(claim().swapped(false), WriteOp::LoadIndex { value: 'v' }));
    let (handed, publish) = WriteOp::Put { idx: 3, value }.handed_over();
    assert_eq!(Some('v'), handed);
    assert!(matches!(publish, WriteOp::Publish { idx: 3 }));
    assert!(matches!(publish.stored(), WriteOp::Done(Ok(()))));
}

#[test]
fn a_read_names_its_accesses() {
    let layout = Layout::new(5);
    let access = |op: ReadOp<char>| op.access(&layout);
    let slot = 4;
    assert_eq!(Access::Load { word: Word::ReadIndex }, access(ReadOp::LoadIndex));
    assert_eq!(Access::Load { word: Word::Stamp { slot } }, access(ReadOp::LoadStamp { idx: 12 }));
    assert_eq!(Access::Load { word: Word::WriteIndex }, access(ReadOp::LoadWriteIndex { idx: 12 }));
    assert_eq!(
        Access::Swap { word: Word::ReadIndex, current: 12, new: 16 },
        access(ReadOp::Claim { idx: 12 })
    );
    assert_eq!(Access::Take { slot }, access(ReadOp::Take { idx: 12 }));
    assert_eq!(
        Access::Store { slot, stamp: 21 },
        access(ReadOp::Release { idx: 12, value: 'v' })
    );
    assert_eq!(Access::Nothing, access(ReadOp::Done(Ok('v'))));
}

#[test]
fn a_write_names_its_accesses() {
    let layout = Layout::new(5);
    let access = |op: WriteOp<char>| op.access(&layout);
    let (slot, value) = (4, 'v');
    assert_eq!(Access::Load { word: Word::WriteIndex }, access(WriteOp::LoadIndex { value }));
    assert_eq!(
        Access::Load { word: Word::Stamp { slot } },
        access(WriteOp::LoadStamp { idx: 4, value })
    );
    assert_eq!(
        Access::Load { word: Word::ReadIndex },
        access(WriteOp::LoadReadIndex { idx: 4, value })
    );
    assert_eq!(
        Access::Swap { word: Word::WriteIndex, current: 4, new: 8 },
        access(WriteOp::Claim { idx: 4, value })
    );
    assert_eq!(Access::Put { slot }, access(WriteOp::Put { idx: 4, value }));
    assert_eq!(Access::Store { slot, stamp: 4 }, access(WriteOp::Publish { idx: 4 }));
    assert_eq!(Access::Nothing, access(WriteOp::Done(Ok(()))));
}
