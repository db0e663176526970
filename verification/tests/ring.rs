use bondi::errors::BondiError;
use bondi::reader::Reader;
use bondi::ring::Ring;
use bondi::writer::Writer;

#[test]
fn ring_without_slots_is_refused() {
    assert!(matches!(Ring::<u8>::new(0), Err(BondiError::InvalidInput)));
}

#[test]
fn fresh_ring() {
    let ring = Ring::<u8>::new(7).unwrap();
    assert_eq!(ring.capacity(), 7);
    assert_eq!(ring.written(), 0);
    assert_eq!(ring.readers(), 0);
}

#[test]
fn slots_are_handed_out_in_order() {
    let mut ring = Ring::<u8>::new(3).unwrap();
    for expected in 0..100 {
        assert_eq!(ring.new_consumer(), Ok(expected));
        assert_eq!(ring.readers(), expected + 1);
    }
    assert_eq!(ring.new_consumer(), Err(BondiError::NoReaderAvailable));
    assert_eq!(ring.new_consumer(), Err(BondiError::NoReaderAvailable));
    assert_eq!(ring.readers(), 100);
}

#[test]
fn slowest_reader() {
    let mut ring = Ring::<u32>::new(8).unwrap();
    assert_eq!(ring.get_slowest_reader(), Err(BondiError::NoReaderAvailable));
    for _ in 0..3 {
        ring.new_consumer().unwrap();
    }
    assert_eq!(ring.get_slowest_reader(), Ok(0));
    for value in 0..6 {
        assert_eq!(ring.insert(value), Ok(()));
    }
    // reader 0 consumes 5 values, reader 1 consumes 2, reader 2 consumes 4
    for (idx, count) in [(0, 5), (1, 2), (2, 4)] {
        for _ in 0..count {
            assert!(ring.get(idx).is_some());
        }
    }
    assert_eq!(ring.get_slowest_reader(), Ok(2));
    assert_eq!(ring.get(1), Some(2));
    assert_eq!(ring.get_slowest_reader(), Ok(3));
    assert_eq!(ring.get(1), Some(3));
    assert_eq!(ring.get(1), Some(4));
    assert_eq!(ring.get_slowest_reader(), Ok(4));
    // a reader that joins now starts with nothing consumed
    assert_eq!(ring.new_consumer(), Ok(3));
    assert_eq!(ring.get_slowest_reader(), Ok(0));
    assert_eq!(ring.get(3), Some(0));
}

#[test]
fn writer_never_waits_without_readers() {
    let mut ring = Ring::<usize>::new(3).unwrap();
    for value in 0..1000 {
        assert_eq!(ring.insert(value), Ok(()));
    }
    assert_eq!(ring.written(), 1000);
    assert_eq!(ring.capacity(), 3);
}

#[test]
fn idle_reader_stalls_writer_after_one_lap() {
    let mut ring = Ring::<usize>::new(5).unwrap();
    let writer = Writer::<usize>::new();
    let reader = Reader::<usize>::new(ring.new_consumer().unwrap());
    assert_eq!(reader.slot(), 0);
    for value in 0..5 {
        assert_eq!(writer.write(&mut ring, value), Ok(()));
    }
    // the sixth value comes back, however often it is offered
    for _ in 0..3 {
        assert_eq!(writer.write(&mut ring, 5), Err(5));
        assert_eq!(ring.written(), 5);
    }
    // the reader moves on by one, and so does the writer
    assert_eq!(reader.read(&mut ring), Some(0));
    assert_eq!(writer.write(&mut ring, 5), Ok(()));
    assert_eq!(ring.written(), 6);
    assert_eq!(writer.write(&mut ring, 6), Err(6));
    for expected in 1..6 {
        assert_eq!(reader.read(&mut ring), Some(expected));
    }
    assert_eq!(reader.read(&mut ring), None);
}

#[test]
fn single_slot() {
    let mut ring = Ring::<char>::new(1).unwrap();
    assert_eq!(ring.new_consumer(), Ok(0));
    assert_eq!(ring.get(0), None);
    assert_eq!(ring.insert('a'), Ok(()));
    assert_eq!(ring.insert('b'), Err('b'));
    assert_eq!(ring.get(0), Some('a'));
    assert_eq!(ring.get(0), None);
    assert_eq!(ring.insert('b'), Ok(()));
    assert_eq!(ring.get(0), Some('b'));
    assert_eq!(ring.get(0), None);
}

#[test]
fn reader_waits_when_it_has_caught_up() {
    let mut ring = Ring::<usize>::new(4).unwrap();
    let slot = ring.new_consumer().unwrap();
    assert_eq!(ring.get(slot), None);
    assert_eq!(ring.insert(11), Ok(()));
    assert_eq!(ring.get(slot), Some(11));
    assert_eq!(ring.get(slot), None);
    assert_eq!(ring.get_slowest_reader(), Ok(1));
    assert_eq!(ring.written(), 1);
}

#[test]
fn writer_waits_in_every_lap() {
    let mut ring = Ring::<usize>::new(2).unwrap();
    let slot = ring.new_consumer().unwrap();
    assert_eq!(ring.insert(0), Ok(()));
    assert_eq!(ring.insert(1), Ok(()));
    assert_eq!(ring.insert(2), Err(2));
    assert_eq!(ring.get(slot), Some(0));
    assert_eq!(ring.get(slot), Some(1));
    assert_eq!(ring.insert(2), Ok(()));
    assert_eq!(ring.insert(3), Ok(()));
    // the reader has consumed 2 of 4 values and both slots are unread
    assert_eq!(ring.get_slowest_reader(), Ok(2));
    assert_eq!(ring.written(), 4);
    assert_eq!(ring.insert(4), Err(4));
    assert_eq!(ring.written(), 4);
    assert_eq!(ring.get(slot), Some(2));
    assert_eq!(ring.insert(4), Ok(()));
    assert_eq!(ring.insert(5), Err(5));
    assert_eq!(ring.get(slot), Some(3));
    assert_eq!(ring.get(slot), Some(4));
    assert_eq!(ring.get(slot), None);
}

#[test]
fn single_slot_over_many_laps() {
    let mut ring = Ring::<usize>::new(1).unwrap();
    let slot = ring.new_consumer().unwrap();
    assert_eq!(ring.insert(10), Ok(()));
    assert_eq!(ring.get(slot), Some(10));
    assert_eq!(ring.insert(11), Ok(()));
    assert_eq!(ring.insert(12), Err(12));
    assert_eq!(ring.get(slot), Some(11));
    for value in 12..500 {
        assert_eq!(ring.insert(value), Ok(()));
        assert_eq!(ring.insert(value + 1), Err(value + 1));
        assert_eq!(ring.get(slot), Some(value));
        assert_eq!(ring.get(slot), None);
    }
}

#[test]
fn three_readers_over_many_laps() {
    let mut ring = Ring::<usize>::new(3).unwrap();
    let writer = Writer::<usize>::new();
    let readers = [
        Reader::<usize>::new(ring.new_consumer().unwrap()),
        Reader::<usize>::new(ring.new_consumer().unwrap()),
        Reader::<usize>::new(ring.new_consumer().unwrap()),
    ];
    let mut seen = [0usize; 3];
    let mut to_write = 0;
    let mut round = 0;
    while seen.iter().any(|n| *n < 1000) {
        round += 1;
        assert!(round <= 10_000);
        while to_write < 1000 {
            let slowest = *seen.iter().min().unwrap();
            let outcome = writer.write(&mut ring, to_write);
            // the writer waits exactly when it is a lap ahead of the slowest
            if to_write - slowest >= 3 {
                assert_eq!(outcome, Err(to_write));
                break;
            }
            assert_eq!(outcome, Ok(()));
            to_write += 1;
        }
        for (k, reader) in readers.iter().enumerate() {
            // each reader goes at a pace of its own, which changes
            for _ in 0..((round + k) % 4) {
                match reader.read(&mut ring) {
                    Some(value) => {
                        assert_eq!(value, seen[k]);
                        seen[k] += 1;
                    }
                    None => assert_eq!(seen[k], to_write),
                }
            }
        }
    }
    assert_eq!(ring.written(), 1000);
    assert_eq!(ring.get_slowest_reader(), Ok(1000));
}
