//! Pin snapshots: the digital pins of a device, one 8-bit value per port,
//! compared from tick to tick to find the pins that changed.

use vstd::prelude::*;

verus! {

/// How many ports a snapshot holds.
pub const PORT_COUNT: usize = 3;

/// How many pins a port has.
pub const PINS_PER_PORT: u8 = 8;

/// The name of the port at position `i` of a snapshot.
pub open spec fn port_name_spec(i: int) -> char {
    if i == 0 {
        'B'
    } else if i == 1 {
        'C'
    } else {
        'D'
    }
}

/// The name of the port at position `i` of a snapshot.
pub fn port_name(i: usize) -> (c: char)
    requires
        i < PORT_COUNT,
    ensures
        c == port_name_spec(i as int),
{
    if i == 0 {
        'B'
    } else if i == 1 {
        'C'
    } else {
        'D'
    }
}

/// The state of pin `bit` in a port value.
pub open spec fn bit_of(value: u8, bit: u8) -> bool {
    value & (1u8 << bit) != 0
}

/// The state of pin `bit` in a port value.
pub fn pin_state(value: u8, bit: u8) -> (state: bool)
    requires
        bit < PINS_PER_PORT,
    ensures
        state == bit_of(value, bit),
{
    value & (1u8 << bit) != 0
}

/// The value of a port whose pins have the given levels, pin 0 first.
pub fn port_value(levels: &[bool; 8]) -> (value: u8)
    ensures
        forall|bit: u8| bit < PINS_PER_PORT ==> bit_of(value, bit) == levels@[bit as int],
{
    let mut value: u8 = 0;
    let mut i: u8 = 0;
    assert(forall|j: u8| j < 8 ==> !bit_of(0u8, j)) by {
        assert(forall|j: u8| j < 8 ==> 0u8 & (1u8 << j) == 0) by (bit_vector);
    }
    while i < PINS_PER_PORT
        invariant
            i <= PINS_PER_PORT,
            forall|j: u8| j < i ==> bit_of(value, j) == levels@[j as int],
            forall|j: u8| i <= j < PINS_PER_PORT ==> !bit_of(value, j),
        decreases PINS_PER_PORT - i,
    {
        if levels[i as usize] {
            let next = value | (1u8 << i);
            assert(forall|j: u8|
                j < 8 ==> (#[trigger] bit_of(next, j) == (j == i || bit_of(value, j)))) by {
                assert(forall|v: u8, k: u8, j: u8|
                    k < 8 && j < 8 ==> (((v | (1u8 << k)) & (1u8 << j) != 0) == (j == k || (v & (1u8
                        << j) != 0)))) by (bit_vector);
            }
            value = next;
        }
        i += 1;
    }
    value
}

/// The events of one port: one for each of its first `bits` pins whose state
/// differs between `last` and `current`, lowest pin first, with the pin's new
/// state.
pub open spec fn port_events(port: char, last: u8, current: u8, bits: nat) -> Seq<(char, u8, bool)>
    decreases bits,
{
    if bits == 0 {
        Seq::empty()
    } else {
        let bit = (bits - 1) as u8;
        let lower = port_events(port, last, current, (bits - 1) as nat);
        if bit_of(last, bit) != bit_of(current, bit) {
            lower.push((port, bit, bit_of(current, bit)))
        } else {
            lower
        }
    }
}

/// The events of the first `ports` ports of a snapshot, port by port.
pub open spec fn pin_events(last: Seq<u8>, current: Seq<u8>, ports: nat) -> Seq<(char, u8, bool)>
    decreases ports,
{
    if ports == 0 {
        Seq::empty()
    } else {
        let p = (ports - 1) as int;
        pin_events(last, current, (ports - 1) as nat) + port_events(
            port_name_spec(p),
            last[p],
            current[p],
            PINS_PER_PORT as nat,
        )
    }
}

/// The last snapshot of one device.
pub struct PinTracker {
    last_port_values: [u8; 3],
}

impl View for PinTracker {
    type V = Seq<u8>;

    closed spec fn view(&self) -> Seq<u8> {
        self.last_port_values@
    }
}

impl PinTracker {
    /// A tracker whose last snapshot has every pin low.
    pub fn new() -> (t: Self)
        ensures
            t@ == seq![0u8, 0u8, 0u8],
    {
        let t = PinTracker { last_port_values: [0, 0, 0] };
        assert(t@ =~= seq![0u8, 0u8, 0u8]);
        t
    }

    /// Compares `current` with the last snapshot and keeps it as the last one.
    /// Returns one event `(port, pin, new state)` for each pin that changed,
    /// port by port and lowest pin first.
    pub fn update(&mut self, current: &[u8; 3]) -> (events: Vec<(char, u8, bool)>)
        ensures
            final(self)@ == current@,
            events@ == pin_events(old(self)@, current@, PORT_COUNT as nat),
    {
        let mut events: Vec<(char, u8, bool)> = Vec::new();
        let ghost last = self.last_port_values@;
        let mut p: usize = 0;
        while p < PORT_COUNT
            invariant
                p <= PORT_COUNT,
                last == self.last_port_values@,
                last.len() == PORT_COUNT,
                events@ == pin_events(last, current@, p as nat),
            decreases PORT_COUNT - p,
        {
            let name = port_name(p);
            let before = self.last_port_values[p];
            let now = current[p];
            let ghost done = events@;
            let mut bit: u8 = 0;
            while bit < PINS_PER_PORT
                invariant
                    bit <= PINS_PER_PORT,
                    events@ == done + port_events(name, before, now, bit as nat),
                decreases PINS_PER_PORT - bit,
            {
                let was = pin_state(before, bit);
                let is = pin_state(now, bit);
                if was != is {
                    events.push((name, bit, is));
                    assert(events@ =~= done + port_events(name, before, now, (bit + 1) as nat));
                }
                bit += 1;
            }
            p += 1;
        }
        self.last_port_values = *current;
        events
    }
}

/// Whether `e` reports a change of a pin of port `port` between `last` and
/// `current`: the pin is one of the port's first `bits`, its state differs,
/// and the event carries its new state.
pub open spec fn reports_change(e: (char, u8, bool), port: char, last: u8, current: u8, bits: nat) -> bool {
    &&& e.0 == port
    &&& e.1 < bits
    &&& bit_of(last, e.1) != bit_of(current, e.1)
    &&& e.2 == bit_of(current, e.1)
}

/// The events of a port are exactly the changes of its pins.
pub proof fn lemma_port_events_are_changes(
    port: char,
    last: u8,
    current: u8,
    bits: nat,
    e: (char, u8, bool),
)
    requires
        bits <= PINS_PER_PORT,
    ensures
        port_events(port, last, current, bits).contains(e) <==> reports_change(
            e,
            port,
            last,
            current,
            bits,
        ),
    decreases bits,
{
    if bits > 0 {
        let bit = (bits - 1) as u8;
        let lower = port_events(port, last, current, (bits - 1) as nat);
        lemma_port_events_are_changes(port, last, current, (bits - 1) as nat, e);
        if bit_of(last, bit) != bit_of(current, bit) {
            let added = (port, bit, bit_of(current, bit));
            let all = lower.push(added);
            if all.contains(e) {
                let k = choose|k: int| 0 <= k < all.len() && all[k] == e;
                if k < lower.len() {
                    assert(lower[k] == e);
                }
            }
            if lower.contains(e) {
                let k = choose|k: int| 0 <= k < lower.len() && lower[k] == e;
                assert(all[k] == e);
            }
            if e == added {
                assert(all[lower.len() as int] == e);
            }
        }
    }
}

/// Each change of a pin is reported once.
pub proof fn lemma_port_events_once(port: char, last: u8, current: u8, bits: nat)
    requires
        bits <= PINS_PER_PORT,
    ensures
        port_events(port, last, current, bits).no_duplicates(),
    decreases bits,
{
    if bits > 0 {
        let bit = (bits - 1) as u8;
        let lower = port_events(port, last, current, (bits - 1) as nat);
        lemma_port_events_once(port, last, current, (bits - 1) as nat);
        if bit_of(last, bit) != bit_of(current, bit) {
            let added = (port, bit, bit_of(current, bit));
            lemma_port_events_are_changes(port, last, current, (bits - 1) as nat, added);
            assert(!lower.contains(added));
            let all = lower.push(added);
            assert forall|i: int, j: int| 0 <= i < all.len() && 0 <= j < all.len() && i != j implies all[i]
                != all[j] by {
                if i < lower.len() && j < lower.len() {
                    assert(lower[i] != lower[j]);
                } else if i < lower.len() {
                    assert(lower.contains(lower[i]));
                } else {
                    assert(lower.contains(lower[j]));
                }
            }
        }
    }
}

/// The events of a snapshot are exactly the changes of the pins of its ports.
pub proof fn lemma_pin_events_are_changes(
    last: Seq<u8>,
    current: Seq<u8>,
    ports: nat,
    e: (char, u8, bool),
)
    requires
        ports <= PORT_COUNT,
    ensures
        pin_events(last, current, ports).contains(e) <==> exists|p: int|
            0 <= p < ports && #[trigger] reports_change(
                e,
                port_name_spec(p),
                last[p],
                current[p],
                PINS_PER_PORT as nat,
            ),
    decreases ports,
{
    if ports > 0 {
        let q = (ports - 1) as int;
        let lower = pin_events(last, current, (ports - 1) as nat);
        let here = port_events(port_name_spec(q), last[q], current[q], PINS_PER_PORT as nat);
        lemma_pin_events_are_changes(last, current, (ports - 1) as nat, e);
        lemma_port_events_are_changes(port_name_spec(q), last[q], current[q], PINS_PER_PORT as nat, e);
        let all = lower + here;
        if all.contains(e) {
            let k = choose|k: int| 0 <= k < all.len() && all[k] == e;
            if k < lower.len() {
                assert(lower[k] == e);
                let p = choose|p: int|
                    0 <= p < ports - 1 && #[trigger] reports_change(
                        e,
                        port_name_spec(p),
                        last[p],
                        current[p],
                        PINS_PER_PORT as nat,
                    );
                assert(reports_change(e, port_name_spec(p), last[p], current[p], PINS_PER_PORT as nat));
            } else {
                assert(here[k - lower.len()] == e);
                assert(reports_change(e, port_name_spec(q), last[q], current[q], PINS_PER_PORT as nat));
            }
        }
        if exists|p: int|
            0 <= p < ports && #[trigger] reports_change(
                e,
                port_name_spec(p),
                last[p],
                current[p],
                PINS_PER_PORT as nat,
            ) {
            let p = choose|p: int|
                0 <= p < ports && #[trigger] reports_change(
                    e,
                    port_name_spec(p),
                    last[p],
                    current[p],
                    PINS_PER_PORT as nat,
                );
            if p < ports - 1 {
                assert(lower.contains(e));
                let k = choose|k: int| 0 <= k < lower.len() && lower[k] == e;
                assert(all[k] == e);
            } else {
                assert(here.contains(e));
                let k = choose|k: int| 0 <= k < here.len() && here[k] == e;
                assert(all[lower.len() + k] == e);
            }
        }
    }
}

/// Each change of a pin of a snapshot is reported once.
pub proof fn lemma_pin_events_once(last: Seq<u8>, current: Seq<u8>, ports: nat)
    requires
        ports <= PORT_COUNT,
    ensures
        pin_events(last, current, ports).no_duplicates(),
    decreases ports,
{
    if ports > 0 {
        let q = (ports - 1) as int;
        let lower = pin_events(last, current, (ports - 1) as nat);
        let here = port_events(port_name_spec(q), last[q], current[q], PINS_PER_PORT as nat);
        lemma_pin_events_once(last, current, (ports - 1) as nat);
        lemma_port_events_once(port_name_spec(q), last[q], current[q], PINS_PER_PORT as nat);
        let all = lower + here;
        assert forall|i: int, j: int| 0 <= i < all.len() && 0 <= j < all.len() && i != j implies all[i]
            != all[j] by {
            let (x, y) = if i < j {
                (i, j)
            } else {
                (j, i)
            };
            if y < lower.len() {
                assert(lower[x] != lower[y]);
            } else if x >= lower.len() {
                assert(here[x - lower.len()] != here[y - lower.len()]);
            } else {
                let e = lower[x];
                assert(lower.contains(e));
                assert(here.contains(here[y - lower.len()]));
                lemma_pin_events_are_changes(last, current, (ports - 1) as nat, e);
                lemma_port_events_are_changes(
                    port_name_spec(q),
                    last[q],
                    current[q],
                    PINS_PER_PORT as nat,
                    here[y - lower.len()],
                );
            }
        }
    }
}

/// A snapshot equal to the last one gives no event.
pub proof fn lemma_no_change_no_event(snapshot: Seq<u8>, ports: nat)
    requires
        ports <= PORT_COUNT,
    ensures
        pin_events(snapshot, snapshot, ports) == Seq::<(char, u8, bool)>::empty(),
{
    let events = pin_events(snapshot, snapshot, ports);
    if events.len() > 0 {
        let e = events[0];
        assert(events.contains(e));
        lemma_pin_events_are_changes(snapshot, snapshot, ports, e);
    }
    assert(events =~= Seq::<(char, u8, bool)>::empty());
}

} // verus!
