use bondi::errors::BondiError;
use bondi::model::MAX_CONSUMERS;
use bondi::reader::Reader;
use bondi::Bondi;

#[test]
fn get_many_readers() {
    // smoke test to ensure that we can get multiple readers
    let mut bondi = Bondi::<usize>::new(100).unwrap();
    let reader = bondi.get_rx().unwrap();
    let reader2 = bondi.get_rx().unwrap();

    // there is nothing to read, so both have to wait
    assert_eq!(bondi.read(&reader), None);
    assert_eq!(bondi.read(&reader2), None);
    assert_eq!(bondi.ring().readers(), 2);
}

#[test]
fn write_something() {
    let mut bondi = Bondi::<usize>::new(100).unwrap();
    let writer = bondi.get_tx().unwrap();
    for i in 0..100 {
        assert_eq!(bondi.write(&writer, i), Ok(()));
    }
    assert_eq!(bondi.ring().written(), 100);
}

#[test]
fn write_and_read_something_one_reader_no_wrap() {
    let mut bondi = Bondi::<usize>::new(100).unwrap();
    let writer = bondi.get_tx().unwrap();
    let reader = bondi.get_rx().unwrap();
    for i in 0..100 {
        assert_eq!(bondi.write(&writer, i), Ok(()));
    }

    for i in 0..100 {
        assert_eq!(bondi.read(&reader), Some(i));
    }
}

#[test]
fn write_and_read_something_two_readers_no_wrap() {
    let mut bondi = Bondi::<usize>::new(100).unwrap();
    let writer = bondi.get_tx().unwrap();
    let reader = bondi.get_rx().unwrap();
    let reader2 = bondi.get_rx().unwrap();

    for i in 0..100 {
        assert_eq!(bondi.write(&writer, i), Ok(()));
        assert_eq!(bondi.read(&reader), Some(i));
    }

    for i in 0..100 {
        assert_eq!(bondi.read(&reader2), Some(i));
    }
}

#[test]
fn write_and_read_something_many_readers_with_wrapping() {
    let mut bondi = Bondi::<usize>::new(100).unwrap();
    let writer = bondi.get_tx().unwrap();
    let mut readers: Vec<Reader<usize>> = Vec::new();
    for _ in 0..99 {
        readers.push(bondi.get_rx().unwrap());
    }
    let last_reader = bondi.get_rx().unwrap();
    readers.push(last_reader);

    // one thread of control takes the place of the writer and of each reader
    // in turn; a call that has to wait is tried again in the next round
    let mut to_write = 0;
    let mut seen: Vec<usize> = vec![0; readers.len()];
    let mut rounds = 0;
    while to_write < 200 || seen.iter().any(|n| *n < 200) {
        rounds += 1;
        assert!(rounds <= 1000);
        while to_write < 200 && bondi.write(&writer, to_write).is_ok() {
            to_write += 1;
        }
        for (k, reader) in readers.iter().enumerate() {
            // the readers go at different paces
            for _ in 0..(k % 7 + 1) {
                if seen[k] < 200 {
                    match bondi.read(&reader) {
                        Some(value) => {
                            assert_eq!(value, seen[k]);
                            seen[k] += 1;
                        }
                        None => assert_eq!(seen[k], to_write),
                    }
                }
            }
        }
    }
    assert_eq!(bondi.ring().written(), 200);
    for reader in readers.iter() {
        assert_eq!(bondi.read(reader), None);
    }
}

#[test]
#[should_panic(expected = "No reader available")]
fn too_many_readers() {
    let max_readers_available = 1000;
    let mut bondi = Bondi::<usize>::new(max_readers_available).unwrap();
    let mut readers: Vec<Reader<usize>> = Vec::new();
    for _ in 0..max_readers_available {
        match bondi.get_rx() {
            Ok(reader) => readers.push(reader),
            Err(e) => panic!("{}", e.message()),
        }
    }
}

#[test]
fn readers_up_to_the_bound() {
    let mut bondi = Bondi::<usize>::new(1000).unwrap();
    let mut slots: Vec<usize> = Vec::new();
    let mut refused = 0;
    for attempt in 0..1001 {
        match bondi.get_rx() {
            Ok(reader) => {
                assert!(attempt < MAX_CONSUMERS);
                slots.push(reader.slot());
            }
            Err(e) => {
                assert!(attempt >= MAX_CONSUMERS);
                assert_eq!(e, BondiError::NoReaderAvailable);
                refused += 1;
            }
        }
    }
    assert_eq!(MAX_CONSUMERS, 100);
    assert_eq!(slots, (0..100).collect::<Vec<usize>>());
    assert_eq!(refused, 901);
    // a refused registration takes no slot
    assert_eq!(bondi.ring().readers(), 100);
}

#[test]
fn one_writer_only() {
    let mut bondi = Bondi::<usize>::new(4).unwrap();
    assert!(bondi.get_tx().is_ok());
    for _ in 0..3 {
        assert!(matches!(bondi.get_tx(), Err(BondiError::WriterAlreadyExists)));
    }
    // readers can still be had, and the refusals stay
    assert!(bondi.get_rx().is_ok());
    assert!(matches!(bondi.get_tx(), Err(BondiError::WriterAlreadyExists)));
}

#[test]
fn channel_without_slots_is_refused() {
    assert!(matches!(Bondi::<usize>::new(0), Err(BondiError::InvalidInput)));
    assert!(Bondi::<usize>::new(1).is_ok());
}

#[test]
fn two_readers_two_laps_at_any_pace() {
    // reader `a` keeps up with the writer, reader `b` falls a whole lap behind
    let mut bondi = Bondi::<usize>::new(100).unwrap();
    let writer = bondi.get_tx().unwrap();
    let a = bondi.get_rx().unwrap();
    let b = bondi.get_rx().unwrap();
    let mut seen_b = 0;
    for i in 0..200 {
        if bondi.write(&writer, i).is_err() {
            // `b` is a lap behind: the value comes back until `b` has moved
            assert_eq!(bondi.write(&writer, i), Err(i));
            assert_eq!(i, seen_b + 100);
            assert_eq!(bondi.read(&b), Some(seen_b));
            seen_b += 1;
            assert_eq!(bondi.write(&writer, i), Ok(()));
        }
        assert_eq!(bondi.read(&a), Some(i));
        assert_eq!(bondi.read(&a), None);
    }
    assert_eq!(seen_b, 100);
    for i in 100..200 {
        assert_eq!(bondi.read(&b), Some(i));
    }
    assert_eq!(bondi.read(&b), None);

    // the other way round: both readers wait for the whole of each lap
    let mut bondi = Bondi::<usize>::new(100).unwrap();
    let writer = bondi.get_tx().unwrap();
    let a = bondi.get_rx().unwrap();
    let b = bondi.get_rx().unwrap();
    for lap in 0..2 {
        for i in 0..100 {
            assert_eq!(bondi.write(&writer, lap * 100 + i), Ok(()));
        }
        if lap == 0 {
            assert_eq!(bondi.write(&writer, 100), Err(100));
        }
        for i in 0..100 {
            assert_eq!(bondi.read(&b), Some(lap * 100 + i));
        }
        for i in 0..100 {
            assert_eq!(bondi.read(&a), Some(lap * 100 + i));
        }
    }
}

#[test]
fn every_reader_gets_its_own_copy() {
    let mut bondi = Bondi::<String>::new(2).unwrap();
    let writer = bondi.get_tx().unwrap();
    let a = bondi.get_rx().unwrap();
    let b = bondi.get_rx().unwrap();
    assert_eq!(bondi.write(&writer, String::from("first")), Ok(()));
    assert_eq!(bondi.write(&writer, String::from("second")), Ok(()));
    assert_eq!(bondi.read(&a), Some(String::from("first")));
    assert_eq!(bondi.read(&b), Some(String::from("first")));
    assert_eq!(bondi.read(&b), Some(String::from("second")));
    assert_eq!(bondi.read(&a), Some(String::from("second")));
}

#[test]
fn messages() {
    assert_eq!(BondiError::InvalidInput.message(), "Invalid Input");
    assert_eq!(BondiError::WriterAlreadyExists.message(), "Writer already exists");
    assert_eq!(BondiError::NoReaderAvailable.message(), "No reader available");
}
