//! Control requests: what the orchestrator answers to a request to list the
//! devices, to fetch the logs, or to read a digital pin.

use vstd::prelude::*;
use vstd::string::{StrSliceExecFns, StringExecFns};
use crate::network::names_of;
use crate::pins::PINS_PER_PORT;

verus! {

/// A control request as the orchestrator sees it.
#[derive(Debug)]
pub enum ControlRequest {
    /// List the devices.
    List,
    /// Fetch the logs.
    Logs,
    /// Read pin `pin_index` of port `port` of the device named `machine_id`.
    Io { machine_id: String, port: String, pin_index: u32 },
    /// Anything else.
    Unknown,
}

/// What the orchestrator does about a request.
#[derive(Debug)]
pub enum ControlAction {
    /// Answer with this text.
    Reply(String),
    /// Read this pin and answer with its state.
    ReadPin { machine_id: String, port: char, pin_index: u8 },
}

/// The mathematical content of a [`ControlRequest`].
pub enum RequestView {
    List,
    Logs,
    Io { machine_id: Seq<char>, port: Seq<char>, pin_index: u32 },
    Unknown,
}

/// The mathematical content of a [`ControlAction`].
pub enum ActionView {
    Reply(Seq<char>),
    ReadPin { machine_id: Seq<char>, port: char, pin_index: u8 },
}

impl View for ControlRequest {
    type V = RequestView;

    open spec fn view(&self) -> RequestView {
        match self {
            ControlRequest::List => RequestView::List,
            ControlRequest::Logs => RequestView::Logs,
            ControlRequest::Io { machine_id, port, pin_index } => RequestView::Io {
                machine_id: machine_id@,
                port: port@,
                pin_index: *pin_index,
            },
            ControlRequest::Unknown => RequestView::Unknown,
        }
    }
}

impl View for ControlAction {
    type V = ActionView;

    open spec fn view(&self) -> ActionView {
        match self {
            ControlAction::Reply(text) => ActionView::Reply(text@),
            ControlAction::ReadPin { machine_id, port, pin_index } => ActionView::ReadPin {
                machine_id: machine_id@,
                port: *port,
                pin_index: *pin_index,
            },
        }
    }
}

/// The names separated by a comma and a space.
pub open spec fn listed(names: Seq<Seq<char>>) -> Seq<char>
    decreases names.len(),
{
    if names.len() == 0 {
        Seq::empty()
    } else if names.len() == 1 {
        names[0]
    } else {
        listed(names.drop_last()) + ", "@ + names.last()
    }
}

/// The answer that tells the state of a pin.
pub open spec fn pin_response_spec(state: bool) -> Seq<char> {
    if state {
        "true"@
    } else {
        "false"@
    }
}

/// What the orchestrator does about a request, given the names of its
/// devices. A request for a pin must name one of the devices, a port and one
/// of the port's pins; anything else is answered with the generic error text.
pub open spec fn dispatch_spec(request: RequestView, devices: Seq<Seq<char>>) -> ActionView {
    match request {
        RequestView::List => ActionView::Reply(listed(devices)),
        RequestView::Logs => ActionView::Reply("hello from the logs"@),
        RequestView::Io { machine_id, port, pin_index } => {
            if devices.contains(machine_id) && port.len() > 0 && pin_index < PINS_PER_PORT {
                ActionView::ReadPin { machine_id, port: port[0], pin_index: pin_index as u8 }
            } else {
                ActionView::Reply("Error!"@)
            }
        },
        RequestView::Unknown => ActionView::Reply("Error!"@),
    }
}

/// The answer to a request to list the devices.
pub fn list_response(devices: &Vec<String>) -> (text: String)
    ensures
        text@ == listed(names_of(devices@)),
{
    let mut text = String::new();
    let mut i: usize = 0;
    let ghost names = names_of(devices@);
    assert(names.take(0) =~= Seq::<Seq<char>>::empty());
    while i < devices.len()
        invariant
            i <= devices@.len(),
            names == names_of(devices@),
            text@ == listed(names.take(i as int)),
        decreases devices@.len() - i,
    {
        proof {
            assert(names.take(i + 1).drop_last() =~= names.take(i as int));
            assert(names.take(i + 1).last() == devices@[i as int]@);
            if i == 0 {
                assert(Seq::<char>::empty() + devices@[i as int]@ =~= devices@[i as int]@);
            }
        }
        if i > 0 {
            text.append(", ");
        }
        text.append(devices[i].as_str());
        i += 1;
    }
    assert(names.take(devices@.len() as int) =~= names);
    text
}

/// The answer that tells the state of a pin.
pub fn pin_response(state: bool) -> (text: String)
    ensures
        text@ == pin_response_spec(state),
{
    if state {
        String::from_str("true")
    } else {
        String::from_str("false")
    }
}

/// Whether `name` is among `devices`.
fn knows(devices: &Vec<String>, name: &String) -> (r: bool)
    ensures
        r == names_of(devices@).contains(name@),
{
    let mut i: usize = 0;
    while i < devices.len()
        invariant
            i <= devices@.len(),
            forall|k: int| 0 <= k < i ==> names_of(devices@)[k] != name@,
        decreases devices@.len() - i,
    {
        if devices[i] == *name {
            assert(names_of(devices@)[i as int] == name@);
            return true;
        }
        i += 1;
    }
    false
}

/// Decides what to do about `request`, given the names of the devices.
pub fn dispatch(request: &ControlRequest, devices: &Vec<String>) -> (action: ControlAction)
    ensures
        action@ == dispatch_spec(request@, names_of(devices@)),
{
    match request {
        ControlRequest::List => ControlAction::Reply(list_response(devices)),
        ControlRequest::Logs => ControlAction::Reply(String::from_str("hello from the logs")),
        ControlRequest::Io { machine_id, port, pin_index } => {
            if knows(devices, machine_id) && port.as_str().unicode_len() > 0 && *pin_index < (
            PINS_PER_PORT as u32) {
                ControlAction::ReadPin {
                    machine_id: machine_id.clone(),
                    port: port.as_str().get_char(0),
                    pin_index: *pin_index as u8,
                }
            } else {
                ControlAction::Reply(String::from_str("Error!"))
            }
        },
        ControlRequest::Unknown => ControlAction::Reply(String::from_str("Error!")),
    }
}

} // verus!
