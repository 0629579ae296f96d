use rowstream::scratch::{grow_scratch, new_scratch, next_power_of_two, INITIAL_SCRATCH};

#[test]
fn next_power_of_two_values() {
    assert_eq!(next_power_of_two(0), Some(1));
    assert_eq!(next_power_of_two(1), Some(1));
    assert_eq!(next_power_of_two(3), Some(4));
    assert_eq!(next_power_of_two(1024), Some(1024));
    assert_eq!(next_power_of_two(5000), Some(8192));
    assert_eq!(next_power_of_two(usize::MAX / 2 + 1), Some(usize::MAX / 2 + 1));
    assert_eq!(next_power_of_two(usize::MAX / 2 + 2), None);
}

#[test]
fn growth_rounds_up_and_keeps_contents() {
    let mut s = new_scratch();
    assert_eq!(s.len(), INITIAL_SCRATCH);
    s[0] = 9;
    assert!(grow_scratch(&mut s, 3976));
    assert_eq!(s.len(), 8192);
    assert_eq!(s[0], 9);
    assert!(grow_scratch(&mut s, 1));
    assert_eq!(s.len(), 16384);
}

#[test]
fn growth_past_the_address_space_fails_and_keeps_the_buffer() {
    let mut s = vec![0u8; 4];
    assert!(!grow_scratch(&mut s, usize::MAX));
    assert!(!grow_scratch(&mut s, usize::MAX / 2));
    assert_eq!(s.len(), 4);
}
