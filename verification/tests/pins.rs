use mycochip::pins::{pin_state, port_name, port_value, PinTracker};

#[test]
fn one_pin_going_high_gives_one_event() {
    let mut tracker = PinTracker::new();
    assert!(tracker.update(&[0, 0, 0]).is_empty());
    let events = tracker.update(&[0b0000_1000, 0, 0]);
    assert_eq!(events, vec![('B', 3, true)]);
    assert!(tracker.update(&[0b0000_1000, 0, 0]).is_empty());
}

#[test]
fn a_pin_going_low_is_reported_with_its_new_state() {
    let mut tracker = PinTracker::new();
    tracker.update(&[0, 0b1000_0001, 0]);
    let events = tracker.update(&[0, 0b0000_0001, 0]);
    assert_eq!(events, vec![('C', 7, false)]);
}

#[test]
fn events_come_port_by_port_and_lowest_pin_first() {
    let mut tracker = PinTracker::new();
    let events = tracker.update(&[0b1000_0001, 0, 0b0001_0100]);
    assert_eq!(
        events,
        vec![('B', 0, true), ('B', 7, true), ('D', 2, true), ('D', 4, true)]
    );
    let events = tracker.update(&[0b0000_0001, 0xff, 0b0001_0100]);
    assert_eq!(events.len(), 9);
    assert_eq!(events[0], ('B', 7, false));
    for (i, e) in events[1..].iter().enumerate() {
        assert_eq!(*e, ('C', i as u8, true));
    }
}

#[test]
fn port_value_packs_pin_zero_into_the_lowest_bit() {
    assert_eq!(port_value(&[false; 8]), 0);
    assert_eq!(port_value(&[true; 8]), 0xff);
    assert_eq!(
        port_value(&[true, false, false, true, false, false, false, false]),
        0b0000_1001
    );
    assert_eq!(
        port_value(&[false, false, false, false, false, false, false, true]),
        0x80
    );
}

#[test]
fn pin_state_reads_back_what_port_value_packed() {
    let levels = [false, true, true, false, true, false, false, true];
    let value = port_value(&levels);
    for bit in 0..8u8 {
        assert_eq!(pin_state(value, bit), levels[bit as usize]);
    }
}

#[test]
fn ports_are_named_b_c_d() {
    assert_eq!(port_name(0), 'B');
    assert_eq!(port_name(1), 'C');
    assert_eq!(port_name(2), 'D');
}
