use mycochip::events::{bus_publication, pin_publication, strip_non_ascii};

#[test]
fn bus_bytes_go_under_the_device_bus_topic() {
    let p = bus_publication("left", &vec![1, 2, 3]);
    assert_eq!(p.topic, "left/bus");
    assert_eq!(p.payload, vec![1, 2, 3]);
    let p = bus_publication("", &vec![]);
    assert_eq!(p.topic, "/bus");
    assert!(p.payload.is_empty());
}

#[test]
fn pin_changes_go_under_the_pin_topic() {
    let p = pin_publication("left", 'B', 3, true);
    assert_eq!(p.topic, "left/pin/B/3");
    assert_eq!(p.payload, b"1".to_vec());
    let p = pin_publication("right", 'D', 0, false);
    assert_eq!(p.topic, "right/pin/D/0");
    assert_eq!(p.payload, b"0".to_vec());
}

#[test]
fn pin_indices_are_written_in_decimal() {
    assert_eq!(pin_publication("n", 'C', 7, true).topic, "n/pin/C/7");
    assert_eq!(pin_publication("n", 'C', 9, true).topic, "n/pin/C/9");
    assert_eq!(pin_publication("n", 'C', 10, true).topic, "n/pin/C/10");
    assert_eq!(pin_publication("n", 'C', 42, true).topic, "n/pin/C/42");
    assert_eq!(pin_publication("n", 'C', 99, true).topic, "n/pin/C/99");
    assert_eq!(pin_publication("n", 'C', 100, true).topic, "n/pin/C/100");
    assert_eq!(pin_publication("n", 'C', 205, true).topic, "n/pin/C/205");
    assert_eq!(pin_publication("n", 'C', 255, true).topic, "n/pin/C/255");
    for i in 0..=255u8 {
        assert_eq!(pin_publication("n", 'x', i, false).topic, format!("n/pin/x/{}", i));
    }
}

#[test]
fn strip_non_ascii_keeps_ascii_in_order() {
    assert_eq!(strip_non_ascii(&b"hello".to_vec()), b"hello".to_vec());
    assert_eq!(strip_non_ascii(&vec![]), Vec::<u8>::new());
    assert_eq!(strip_non_ascii(&vec![0, 127, 128, 255, 65]), vec![0, 127, 65]);
    let text = "na\u{ef}ve caf\u{e9} \u{2713} ok";
    let kept = strip_non_ascii(&text.as_bytes().to_vec());
    assert_eq!(String::from_utf8(kept).unwrap(), "nave caf  ok");
}
