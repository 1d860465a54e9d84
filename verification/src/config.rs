//! The configuration of a network of devices, and the topology it asks for.

use vstd::prelude::*;
use crate::network::{
    Network,
    NetworkError,
    NetworkReceive,
    NodeState,
    connect_spec,
    names_of,
};

verus! {

/// One device of the configuration.
#[derive(Debug)]
pub struct Device {
    /// The kind of microcontroller.
    pub mcu: String,
    /// Where its firmware is.
    pub firmware: String,
    /// The initial contents of its EEPROM, if any.
    pub eeprom: Option<Vec<u8>>,
    /// The names of the devices it is joined to.
    pub peers: Vec<String>,
}

/// The devices of a network, each under its name.
#[derive(Debug)]
pub struct MycochipConfig {
    pub devices: Vec<(String, Device)>,
}

/// An edge that the configuration asks for: a device and one of its peers.
pub struct Edge {
    pub from: Seq<char>,
    pub to: Seq<char>,
}

/// The edges that one device asks for, in the order of its peers.
pub open spec fn device_edges(name: Seq<char>, peers: Seq<Seq<char>>) -> Seq<Edge> {
    peers.map_values(|p: Seq<char>| Edge { from: name, to: p })
}

/// The edges that the first `k` devices ask for, device by device.
pub open spec fn config_edges(devices: Seq<(String, Device)>, k: int) -> Seq<Edge>
    decreases k,
{
    if k <= 0 {
        Seq::empty()
    } else {
        config_edges(devices, k - 1) + device_edges(
            devices[k - 1].0@,
            names_of(devices[k - 1].1.peers@),
        )
    }
}

/// The topology after joining `edges` in order, up to the first edge that is
/// refused, and that refusal.
pub open spec fn joined(nodes: Seq<NodeState>, edges: Seq<Edge>) -> (Seq<NodeState>, Option<NetworkError>)
    decreases edges.len(),
{
    if edges.len() == 0 {
        (nodes, None)
    } else {
        let before = joined(nodes, edges.drop_last());
        if before.1 is Some {
            before
        } else {
            match connect_spec(before.0, edges.last().from, edges.last().to) {
                Ok(after) => (after, None),
                Err(e) => (before.0, Some(e)),
            }
        }
    }
}

/// What joining edges answers.
pub open spec fn joined_result(refusal: Option<NetworkError>) -> Result<(), NetworkError> {
    match refusal {
        None => Ok(()),
        Some(e) => Err(e),
    }
}

/// Joining ends at the first refusal: edges after it are not made.
pub proof fn lemma_joined_ends_at_refusal(nodes: Seq<NodeState>, edges: Seq<Edge>, k: int)
    requires
        0 <= k <= edges.len(),
        joined(nodes, edges.take(k)).1 is Some,
    ensures
        joined(nodes, edges) == joined(nodes, edges.take(k)),
    decreases edges.len() - k,
{
    if k < edges.len() {
        assert(edges.take(k + 1).drop_last() =~= edges.take(k));
        lemma_joined_ends_at_refusal(nodes, edges, k + 1);
    } else {
        assert(edges.take(k) =~= edges);
    }
}

/// Joins every device of `config` to each of its peers, device by device and
/// peer by peer, and stops at the first edge that the network refuses.
pub fn connect_peers<R: NetworkReceive>(network: &mut Network<R>, config: &MycochipConfig) -> (r:
    Result<(), NetworkError>)
    requires
        old(network).wf(),
    ensures
        final(network).wf(),
        final(network)@ == joined(
            old(network)@,
            config_edges(config.devices@, config.devices@.len() as int),
        ).0,
        r == joined_result(
            joined(old(network)@, config_edges(config.devices@, config.devices@.len() as int)).1,
        ),
{
    let ghost n0 = network@;
    let ghost all = config_edges(config.devices@, config.devices@.len() as int);
    let mut d: usize = 0;
    while d < config.devices.len()
        invariant
            d <= config.devices@.len(),
            network.wf(),
            n0 == old(network)@,
            all == config_edges(config.devices@, config.devices@.len() as int),
            joined(n0, config_edges(config.devices@, d as int)) == (network@, None::<NetworkError>),
            config_edges(config.devices@, d as int) == all.take(
                config_edges(config.devices@, d as int).len() as int,
            ),
        decreases config.devices@.len() - d,
    {
        let ghost done = config_edges(config.devices@, d as int);
        let ghost name = config.devices@[d as int].0@;
        let ghost peers = names_of(config.devices@[d as int].1.peers@);
        let ghost here = device_edges(name, peers);
        proof {
            lemma_edges_prefix(config.devices@, d as int + 1, config.devices@.len() as int);
            assert((done + here).take(done.len() as int) =~= done);
            assert(done + here.take(0) =~= done);
        }
        let mut p: usize = 0;
        while p < config.devices[d].1.peers.len()
            invariant
                d < config.devices@.len(),
                p <= config.devices@[d as int].1.peers@.len(),
                network.wf(),
                n0 == old(network)@,
                all == config_edges(config.devices@, config.devices@.len() as int),
                done == config_edges(config.devices@, d as int),
                name == config.devices@[d as int].0@,
                peers == names_of(config.devices@[d as int].1.peers@),
                here == device_edges(name, peers),
                (done + here).len() <= all.len(),
                done + here == all.take((done + here).len() as int),
                joined(n0, done + here.take(p as int)) == (network@, None::<NetworkError>),
            decreases config.devices@[d as int].1.peers@.len() - p,
        {
            let ghost sofar = done + here.take(p as int);
            let ghost next = done + here.take(p + 1);
            proof {
                assert(next.drop_last() =~= sofar);
                assert(next.last() == (Edge { from: name, to: peers[p as int] }));
            }
            match network.connect(config.devices[d].0.as_str(), config.devices[d].1.peers[p].as_str()) {
                Ok(_) => {},
                Err(e) => {
                    proof {
                        assert(next =~= all.take(next.len() as int)) by {
                            assert(next =~= (done + here).take(next.len() as int));
                            assert((done + here).take(next.len() as int) =~= all.take(
                                (done + here).len() as int,
                            ).take(next.len() as int));
                        }
                        lemma_joined_ends_at_refusal(n0, all, next.len() as int);
                    }
                    return Err(e);
                },
            }
            p += 1;
        }
        proof {
            assert(here.take(here.len() as int) =~= here);
        }
        d += 1;
    }
    proof {
        assert(all.take(all.len() as int) =~= all);
    }
    Ok(())
}

/// The edges of the first `k` devices come first among those of the first
/// `n`.
pub proof fn lemma_edges_prefix(devices: Seq<(String, Device)>, k: int, n: int)
    requires
        0 <= k <= n <= devices.len(),
    ensures
        config_edges(devices, k).len() <= config_edges(devices, n).len(),
        config_edges(devices, k) == config_edges(devices, n).take(
            config_edges(devices, k).len() as int,
        ),
    decreases n - k,
{
    if k < n {
        lemma_edges_prefix(devices, k, n - 1);
        let shorter = config_edges(devices, n - 1);
        let longer = config_edges(devices, n);
        let small = config_edges(devices, k);
        assert(longer.take(small.len() as int) =~= shorter.take(small.len() as int));
    } else {
        assert(config_edges(devices, n).take(config_edges(devices, n).len() as int)
            =~= config_edges(devices, n));
    }
}

} // verus!
