//! What goes out on the publish/subscribe event bus: the bytes a device sent
//! on its bus, under `<device>/bus`, and the changes of its pins, under
//! `<device>/pin/<port>/<index>`.

use vstd::prelude::*;
use vstd::string::StringExecFns;

verus! {

/// One message for the event bus.
pub struct Publication {
    pub topic: String,
    pub payload: Vec<u8>,
}

/// The decimal digit for `d`.
pub open spec fn digit_spec(d: u8) -> char {
    if d == 0 {
        '0'
    } else if d == 1 {
        '1'
    } else if d == 2 {
        '2'
    } else if d == 3 {
        '3'
    } else if d == 4 {
        '4'
    } else if d == 5 {
        '5'
    } else if d == 6 {
        '6'
    } else if d == 7 {
        '7'
    } else if d == 8 {
        '8'
    } else {
        '9'
    }
}

/// The decimal digits of `n`, without leading zeros.
pub open spec fn decimal_spec(n: u8) -> Seq<char> {
    if n < 10 {
        seq![digit_spec(n)]
    } else if n < 100 {
        seq![digit_spec(n / 10), digit_spec(n % 10)]
    } else {
        seq![digit_spec(n / 100), digit_spec((n / 10) % 10), digit_spec(n % 10)]
    }
}

/// The topic of the bytes that the device named `name` sent on its bus.
pub open spec fn bus_topic_spec(name: Seq<char>) -> Seq<char> {
    name + "/bus"@
}

/// The topic of the changes of pin `pin_index` of port `port` of the device
/// named `name`.
pub open spec fn pin_topic_spec(name: Seq<char>, port: char, pin_index: u8) -> Seq<char> {
    name + "/pin/"@ + seq![port] + "/"@ + decimal_spec(pin_index)
}

/// The payload that reports a pin's state: the ASCII digit `1` for high and
/// `0` for low.
pub open spec fn pin_payload_spec(state: bool) -> Seq<u8> {
    if state {
        seq![49u8]
    } else {
        seq![48u8]
    }
}

/// Calls [`String::push`], for which the verifier has no specification.
/// Taken on trust from its documentation: afterwards the string reads as
/// before, with `c` at its end.
#[verifier::external_body]
fn push_char(s: &mut String, c: char)
    ensures
        final(s)@ == old(s)@.push(c),
{
    s.push(c);
}

/// The decimal digit for `d`.
fn digit(d: u8) -> (c: char)
    requires
        d < 10,
    ensures
        c == digit_spec(d),
{
    if d == 0 {
        '0'
    } else if d == 1 {
        '1'
    } else if d == 2 {
        '2'
    } else if d == 3 {
        '3'
    } else if d == 4 {
        '4'
    } else if d == 5 {
        '5'
    } else if d == 6 {
        '6'
    } else if d == 7 {
        '7'
    } else if d == 8 {
        '8'
    } else {
        '9'
    }
}

/// Appends the decimal digits of `n` to `s`.
fn push_decimal(s: &mut String, n: u8)
    ensures
        final(s)@ == old(s)@ + decimal_spec(n),
{
    let ghost before = s@;
    if n >= 100 {
        push_char(s, digit(n / 100));
    }
    if n >= 10 {
        push_char(s, digit((n / 10) % 10));
    }
    push_char(s, digit(n % 10));
    assert(s@ =~= before + decimal_spec(n));
}

/// The message that tells the event bus what the device named `node_name`
/// sent on its bus.
pub fn bus_publication(node_name: &str, data: &Vec<u8>) -> (p: Publication)
    ensures
        p.topic@ == bus_topic_spec(node_name@),
        p.payload@ == data@,
{
    let mut topic = String::from_str(node_name);
    topic.append("/bus");
    let mut payload: Vec<u8> = Vec::new();
    payload.extend_from_slice(data.as_slice());
    Publication { topic, payload }
}

/// The message that tells the event bus that pin `pin_index` of port `port`
/// of the device named `node_name` is now in `state`.
pub fn pin_publication(node_name: &str, port: char, pin_index: u8, state: bool) -> (p: Publication)
    ensures
        p.topic@ == pin_topic_spec(node_name@, port, pin_index),
        p.payload@ == pin_payload_spec(state),
{
    let mut topic = String::from_str(node_name);
    topic.append("/pin/");
    push_char(&mut topic, port);
    topic.append("/");
    push_decimal(&mut topic, pin_index);
    assert(topic@ =~= pin_topic_spec(node_name@, port, pin_index));
    let mut payload: Vec<u8> = Vec::new();
    if state {
        payload.push(49u8);
    } else {
        payload.push(48u8);
    }
    Publication { topic, payload }
}

/// What is left of `bytes` when every byte outside ASCII is dropped. On
/// UTF-8 text this drops exactly the characters outside ASCII.
pub fn strip_non_ascii(bytes: &Vec<u8>) -> (kept: Vec<u8>)
    ensures
        kept@ == bytes@.filter(|b: u8| b < 128),
{
    let mut kept: Vec<u8> = Vec::new();
    let mut i: usize = 0;
    assert(bytes@.take(0) =~= Seq::<u8>::empty());
    while i < bytes.len()
        invariant
            i <= bytes@.len(),
            kept@ == bytes@.take(i as int).filter(|b: u8| b < 128),
        decreases bytes@.len() - i,
    {
        let b = bytes[i];
        proof {
            reveal(Seq::filter);
            assert(bytes@.take(i + 1).drop_last() =~= bytes@.take(i as int));
        }
        if b < 128 {
            kept.push(b);
        }
        i += 1;
    }
    assert(bytes@.take(bytes@.len() as int) =~= bytes@);
    kept
}

} // verus!
