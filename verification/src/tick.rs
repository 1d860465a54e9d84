//! The decisions of one tick of the orchestrator: what goes from the devices
//! and from the connections onto the bus, how long a device runs, and what
//! goes out on the event bus.

use vstd::prelude::*;
use crate::avr_net::{AvrNetMessage, FormatError, Frame, encode_spec};
use crate::events::{Publication, bus_publication, bus_topic_spec};
use crate::gateway::TCP_GATEWAY_ADDRESS;
use crate::network::{
    Network,
    NetworkError,
    NetworkReceive,
    NodeState,
    broadcast_spec,
    has_node,
    queued,
};
use crate::server_node::{
    ServerNode,
    Table,
    lemma_listing_unique,
    lemma_read_nothing,
    lists_live,
    read_result,
    read_spec,
};

verus! {

/// The port on which control requests are served.
pub const REQUEST_PORT: i32 = 6711;

/// The port on which device events are published.
pub const DEVICE_EVENT_PORT: i32 = 6712;

/// The name of the gateway's node.
pub const TCP_GATEWAY_NAME: &'static str = "tcp_gateway";

/// How many steps a device runs in one tick at most.
pub const STEP_BUDGET: u32 = 999;

/// Why a tick could not go on.
#[derive(Debug, Clone, Copy, PartialEq, Eq, Structural)]
pub enum TickError {
    /// The topology lacks a node that the tick relies on.
    Network(NetworkError),
    /// Bytes could not be framed.
    Format(FormatError),
}

/// Whether a device runs one more step in this tick: while its budget lasts
/// and it has not gone to sleep.
pub fn keep_stepping(steps_done: u32, sleeping: bool) -> (go: bool)
    ensures
        go == (steps_done < STEP_BUDGET && !sleeping),
{
    steps_done < STEP_BUDGET && !sleeping
}

/// Puts what the device named `device_name` sent on its bus since the last
/// tick onto the network, and returns what to tell the event bus about it.
/// Nothing happens when the device sent nothing.
pub fn route_device_output<R: NetworkReceive>(
    network: &mut Network<R>,
    device_name: &str,
    data: &Vec<u8>,
) -> (r: Result<Option<Publication>, NetworkError>)
    requires
        old(network).wf(),
    ensures
        final(network).wf(),
        data@.len() == 0 ==> r == Ok::<Option<Publication>, NetworkError>(None) && final(network)@
            == old(network)@,
        data@.len() > 0 ==> match r {
            Ok(p) => broadcast_spec(old(network)@, device_name@, data@) == Ok::<
                Seq<NodeState>,
                NetworkError,
            >(final(network)@) && p is Some && p->Some_0.topic@ == bus_topic_spec(device_name@)
                && p->Some_0.payload@ == data@,
            Err(e) => broadcast_spec(old(network)@, device_name@, data@) == Err::<
                Seq<NodeState>,
                NetworkError,
            >(e) && final(network)@ == old(network)@,
        },
{
    if data.len() == 0 {
        return Ok(None);
    }
    match network.broadcast_from(device_name, data) {
        Ok(_) => Ok(Some(bus_publication(device_name, data))),
        Err(e) => Err(e),
    }
}

/// The turn of connection `id`: what arrived on it is taken, framed for the
/// gateway's address and queued on the gateway's node. A connection on which
/// nothing arrived is left alone. What is too large for one frame is taken
/// and refused.
pub open spec fn client_turn(t: Table, nodes: Seq<NodeState>, id: u16) -> (
    Table,
    Seq<NodeState>,
    Option<FormatError>,
) {
    match read_result(t, id) {
        None => (t, nodes, None),
        Some(data) => match encode_spec(Frame { address: TCP_GATEWAY_ADDRESS, payload: data }) {
            Ok(bytes) => (read_spec(t, id), queued(nodes, TCP_GATEWAY_NAME@, bytes), None),
            Err(e) => (read_spec(t, id), nodes, Some(e)),
        },
    }
}

/// The turns of the connections `ids`, in order, up to the first refusal.
pub open spec fn client_turns(t: Table, nodes: Seq<NodeState>, ids: Seq<u16>) -> (
    Table,
    Seq<NodeState>,
    Option<FormatError>,
)
    decreases ids.len(),
{
    if ids.len() == 0 {
        (t, nodes, None)
    } else {
        let before = client_turns(t, nodes, ids.drop_last());
        if before.2 is Some {
            before
        } else {
            client_turn(before.0, before.1, ids.last())
        }
    }
}

/// What a tick answers after the turns of the connections.
pub open spec fn turns_result(refusal: Option<FormatError>) -> Result<(), TickError> {
    match refusal {
        None => Ok(()),
        Some(e) => Err(TickError::Format(e)),
    }
}

/// Turns end at the first refusal: connections after it are not touched.
pub proof fn lemma_turns_end_at_refusal(t: Table, nodes: Seq<NodeState>, ids: Seq<u16>, k: int)
    requires
        0 <= k <= ids.len(),
        client_turns(t, nodes, ids.take(k)).2 is Some,
    ensures
        client_turns(t, nodes, ids) == client_turns(t, nodes, ids.take(k)),
    decreases ids.len() - k,
{
    if k < ids.len() {
        assert(ids.take(k + 1).drop_last() =~= ids.take(k));
        lemma_turns_end_at_refusal(t, nodes, ids, k + 1);
    } else {
        assert(ids.take(k) =~= ids);
    }
}

/// Puts what arrived on the connections since the last tick onto the bus:
/// the connections take their turns in ascending order of identity, each
/// one's bytes as one frame from the gateway's node. Nothing happens when the
/// gateway's node is not registered.
pub fn route_client_input<R: NetworkReceive>(server: &mut ServerNode, network: &mut Network<R>) -> (r:
    Result<(), TickError>)
    requires
        old(server).wf(),
        old(network).wf(),
    ensures
        final(server).wf(),
        final(network).wf(),
        !has_node(old(network)@, TCP_GATEWAY_NAME@) ==> r == Err::<(), TickError>(
            TickError::Network(NetworkError::UnknownNode),
        ) && final(server)@ == old(server)@ && final(network)@ == old(network)@,
        has_node(old(network)@, TCP_GATEWAY_NAME@) ==> forall|ids: Seq<u16>| #[trigger]
            lists_live(ids, old(server)@) ==> (final(server)@, final(network)@) == (
                client_turns(old(server)@, old(network)@, ids).0,
                client_turns(old(server)@, old(network)@, ids).1,
            ) && r == turns_result(client_turns(old(server)@, old(network)@, ids).2),
{
    if network.node(TCP_GATEWAY_NAME).is_none() {
        return Err(TickError::Network(NetworkError::UnknownNode));
    }
    let ghost t0 = server@;
    let ghost n0 = network@;
    let ids = server.connected_client_ids();
    proof {
        assert forall|other: Seq<u16>| #[trigger] lists_live(other, t0) implies other == ids@ by {
            lemma_listing_unique(other, ids@, t0);
        }
        assert(ids@.take(0) =~= Seq::<u16>::empty());
    }
    let mut i: usize = 0;
    while i < ids.len()
        invariant
            i <= ids@.len(),
            server.wf(),
            network.wf(),
            has_node(network@, TCP_GATEWAY_NAME@),
            has_node(n0, TCP_GATEWAY_NAME@),
            t0 == old(server)@,
            n0 == old(network)@,
            forall|other: Seq<u16>| #[trigger] lists_live(other, t0) ==> other == ids@,
            client_turns(t0, n0, ids@.take(i as int)) == (server@, network@, None::<FormatError>),
        decreases ids@.len() - i,
    {
        let id = ids[i];
        let ghost t = server@;
        let ghost n = network@;
        proof {
            assert(ids@.take(i + 1).drop_last() =~= ids@.take(i as int));
            assert(ids@.take(i + 1).last() == id);
        }
        match server.read_data(id) {
            None => {
                proof {
                    lemma_read_nothing(t, id);
                }
            },
            Some(data) => {
                let message = AvrNetMessage { address: TCP_GATEWAY_ADDRESS, data };
                match message.encode() {
                    Err(e) => {
                        proof {
                            lemma_turns_end_at_refusal(t0, n0, ids@, i + 1);
                        }
                        return Err(TickError::Format(e));
                    },
                    Ok(frame) => {
                        match network.broadcast_from(TCP_GATEWAY_NAME, &frame) {
                            Ok(_) => {
                                proof {
                                    lemma_queued_keeps_names(n, TCP_GATEWAY_NAME@, frame@);
                                }
                            },
                            Err(e) => {
                                return Err(TickError::Network(e));
                            },
                        }
                    },
                }
            },
        }
        i += 1;
    }
    proof {
        assert(ids@.take(ids@.len() as int) =~= ids@);
    }
    Ok(())
}

/// Queueing bytes registers and removes no node.
pub proof fn lemma_queued_keeps_names(nodes: Seq<NodeState>, name: Seq<char>, data: Seq<u8>)
    ensures
        forall|other: Seq<char>| has_node(nodes, other) ==> has_node(queued(nodes, name, data), other),
{
    assert forall|other: Seq<char>| has_node(nodes, other) implies has_node(
        queued(nodes, name, data),
        other,
    ) by {
        let i = choose|i: int| 0 <= i < nodes.len() && (#[trigger] nodes[i]).name == other;
        assert(queued(nodes, name, data)[i].name == other);
    }
}

} // verus!
