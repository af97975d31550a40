use mamrot::seed::{load_seeds, log_size, read_slot, replay_seed, seed_bytes, slot_offset, SeedError};

#[test]
fn seed_bytes_are_little_endian() {
    assert_eq!(seed_bytes(0x0102_0304_0506_0708), [8, 7, 6, 5, 4, 3, 2, 1]);
    assert_eq!(seed_bytes(0), [0; 8]);
    assert_eq!(seed_bytes(u64::MAX), [0xff; 8]);
    assert_eq!(seed_bytes(42), 42u64.to_le_bytes());
}

#[test]
fn read_slot_reads_little_endian() {
    let log = [0, 0, 8, 7, 6, 5, 4, 3, 2, 1];
    assert_eq!(read_slot(&log, 2), 0x0102_0304_0506_0708);
}

#[test]
fn roundtrip_of_a_seed() {
    for s in [1u64, 255, 256, 0xdead_beef, u64::MAX] {
        let b = seed_bytes(s);
        assert_eq!(read_slot(&b, 0), s);
    }
}

#[test]
fn log_size_is_eight_bytes_a_slot() {
    assert_eq!(log_size(0), 0);
    assert_eq!(log_size(3), 24);
    assert_eq!(log_size(1_000_000), 8_000_000);
}

#[test]
fn slots_wrap_around() {
    assert_eq!(slot_offset(0, 3), 0);
    assert_eq!(slot_offset(2, 3), 16);
    assert_eq!(slot_offset(5, 3), 16);
    assert_eq!(slot_offset(6, 3), 0);
}

#[test]
fn zero_slots_are_skipped() {
    let mut log = Vec::new();
    log.extend_from_slice(&seed_bytes(5));
    log.extend_from_slice(&seed_bytes(0));
    log.extend_from_slice(&seed_bytes(9));
    assert_eq!(load_seeds(&log).unwrap(), vec![5, 9]);
}

#[test]
fn partial_slot_is_ignored() {
    let mut log = Vec::new();
    log.extend_from_slice(&seed_bytes(77));
    log.extend_from_slice(&[1, 2, 3]);
    assert_eq!(load_seeds(&log).unwrap(), vec![77]);
}

#[test]
fn empty_log_has_no_seeds() {
    assert_eq!(load_seeds(&[]).unwrap_err(), SeedError::NoSeeds);
    assert_eq!(load_seeds(&[0; 24]).unwrap_err(), SeedError::NoSeeds);
    assert_eq!(load_seeds(&[1, 2, 3]).unwrap_err(), SeedError::NoSeeds);
}

#[test]
fn logged_seeds_are_read_back() {
    // a ring of three slots; five seeds logged, the last three survive
    let buffer_size = 3;
    let mut log = vec![0u8; log_size(buffer_size) as usize];
    for (counter, seed) in [11u64, 22, 33, 44, 55].iter().enumerate() {
        let at = slot_offset(counter, buffer_size) as usize;
        log[at..at + 8].copy_from_slice(&seed_bytes(*seed));
    }
    assert_eq!(load_seeds(&log).unwrap(), vec![44, 55, 33]);
}

#[test]
fn replay_loops_over_the_seeds() {
    let seeds = [10, 20, 30];
    assert_eq!(replay_seed(&seeds, 0), 10);
    assert_eq!(replay_seed(&seeds, 2), 30);
    assert_eq!(replay_seed(&seeds, 3), 10);
    assert_eq!(replay_seed(&seeds, 7), 20);
}

fn logged(buffer_size: usize, seeds: &[u64]) -> Vec<u8> {
    let mut log = vec![0u8; log_size(buffer_size) as usize];
    for (counter, seed) in seeds.iter().enumerate() {
        let at = slot_offset(counter, buffer_size) as usize;
        log[at..at + 8].copy_from_slice(&seed_bytes(*seed));
    }
    log
}

#[test]
fn seeds_within_the_ring_come_back_in_order() {
    assert_eq!(load_seeds(&logged(4, &[7, 3, 9])).unwrap(), vec![7, 3, 9]);
    assert_eq!(load_seeds(&logged(3, &[7, 3, 9])).unwrap(), vec![7, 3, 9]);
}

#[test]
fn a_wrapped_ring_keeps_the_last_seed_of_each_slot() {
    let log = logged(2, &[1, 2, 3, 4, 5]);
    assert_eq!(log.len(), 16);
    assert_eq!(load_seeds(&log).unwrap(), vec![5, 4]);
    let untouched = logged(4, &[6]);
    assert_eq!(&untouched[8..], &[0u8; 24][..]);
}

#[test]
fn inserted_zero_slot_and_trailing_bytes_change_nothing() {
    let log = logged(3, &[8, 6, 4]);
    let mut with_zero = log[..8].to_vec();
    with_zero.extend_from_slice(&[0; 8]);
    with_zero.extend_from_slice(&log[8..]);
    assert_eq!(load_seeds(&with_zero), load_seeds(&log));
    let mut with_tail = log.clone();
    with_tail.extend_from_slice(&[9, 9, 9, 9, 9, 9, 9]);
    assert_eq!(load_seeds(&with_tail), load_seeds(&log));
    assert_eq!(load_seeds(&[0; 8]), load_seeds(&[0, 0, 0, 0, 0, 0, 0, 0, 5]));
}
