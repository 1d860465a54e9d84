//! The gateway between the bus network and the TCP connections: bytes from
//! connections go onto the bus as frames, and the payloads of frames addressed
//! to the gateway go to every live connection.

use vstd::prelude::*;
use crate::avr_net::{
    AvrNetState,
    BUFFER_CAPACITY,
    Decoder,
    Frame,
    Phase,
    lemma_run_concat,
    lemma_run_one_frame,
    lemma_run_push,
    run,
    step,
    wire_bytes,
};
use crate::network::NetworkReceive;
use crate::server_node::{ServerNode, send_all_spec};

verus! {

/// The bus address that the gateway answers to.
pub const TCP_GATEWAY_ADDRESS: u16 = 1;

/// The payloads of `frames`, one after the other.
pub open spec fn payloads(frames: Seq<Frame>) -> Seq<u8>
    decreases frames.len(),
{
    if frames.len() == 0 {
        Seq::empty()
    } else {
        payloads(frames.drop_last()) + frames.last().payload
    }
}

/// The gateway's receiver after it took `bytes`: its decoder has consumed
/// them, and the payloads of the frames that this surfaced have joined the
/// outbox.
pub open spec fn absorbed(g: GatewayState, bytes: Seq<u8>) -> GatewayState {
    GatewayState {
        decoder: Decoder {
            my_address: g.decoder.my_address,
            phase: run(g.decoder.my_address, g.decoder.phase, bytes).0,
        },
        outbox: g.outbox + payloads(run(g.decoder.my_address, g.decoder.phase, bytes).1),
    }
}

/// The mathematical content of the gateway's receiver.
pub struct GatewayState {
    /// Where its decoder stands.
    pub decoder: Decoder,
    /// The payloads surfaced and not yet forwarded, one after the other.
    pub outbox: Seq<u8>,
}

/// The receiver of the gateway node. It decodes the bytes of the bus and
/// collects the payloads of the frames addressed to the gateway until they are
/// forwarded to the connections.
pub struct TcpReceiver {
    avr_net_node: AvrNetState,
    outbox: Vec<u8>,
}

impl View for TcpReceiver {
    type V = GatewayState;

    closed spec fn view(&self) -> GatewayState {
        GatewayState { decoder: self.avr_net_node@, outbox: self.outbox@ }
    }
}

impl TcpReceiver {
    /// A receiver with its decoder between frames and an empty outbox.
    pub fn new() -> (r: Self)
        ensures
            r@ == (GatewayState {
                decoder: Decoder { my_address: TCP_GATEWAY_ADDRESS, phase: Phase::AddressMsb },
                outbox: Seq::empty(),
            }),
    {
        TcpReceiver {
            avr_net_node: AvrNetState::new(TCP_GATEWAY_ADDRESS),
            outbox: Vec::new(),
        }
    }

    /// Stages what is in the outbox for every live connection and empties the
    /// outbox.
    pub fn flush(&mut self, server: &mut ServerNode)
        requires
            old(server).wf(),
        ensures
            final(server).wf(),
            final(server)@ == send_all_spec(old(server)@, old(self)@.outbox),
            final(self)@ == (GatewayState { outbox: Seq::empty(), ..old(self)@ }),
    {
        if self.outbox.len() > 0 {
            server.send_to_all(&self.outbox);
            self.outbox.clear();
        } else {
            proof {
                let t = server@;
                assert(self.outbox@ =~= Seq::<u8>::empty());
                assert forall|id: u16| #[trigger] t.clients.contains_key(id) implies send_all_spec(
                    t,
                    Seq::empty(),
                ).clients[id] == t.clients[id] by {
                    assert(t.clients[id].tx + Seq::<u8>::empty() =~= t.clients[id].tx);
                }
                assert(send_all_spec(t, Seq::empty()).clients =~= t.clients);
            }
        }
    }
}

impl NetworkReceive for TcpReceiver {
    /// Decodes one byte of the bus. When it completes a frame addressed to
    /// the gateway, the frame's payload joins the outbox.
    fn receive(&mut self, b: u8)
        ensures
            final(self)@ == absorbed(old(self)@, seq![b]),
    {
        let ghost before = self@;
        proof {
            let address = before.decoder.my_address;
            let phase = before.decoder.phase;
            assert(Seq::<u8>::empty().push(b) =~= seq![b]);
            lemma_run_push(address, phase, Seq::empty(), b);
            assert(payloads(Seq::<Frame>::empty()) =~= Seq::<u8>::empty());
            match step(address, phase, b).1 {
                Some(f) => {
                    let frames = Seq::<Frame>::empty().push(f);
                    assert(frames.drop_last() =~= Seq::<Frame>::empty());
                    assert(payloads(frames) =~= f.payload);
                },
                None => {},
            }
        }
        match self.avr_net_node.rx(b) {
            Some(message) => {
                self.outbox.extend_from_slice(message.data.as_slice());
            },
            None => {
                assert(self.outbox@ + Seq::<u8>::empty() =~= self.outbox@);
            },
        }
        proof {
            let address = before.decoder.my_address;
            let phase = before.decoder.phase;
            let after = run(address, phase, seq![b]);
            assert(run(address, phase, Seq::empty()) == (phase, Seq::<Frame>::empty()));
            assert(self@.decoder.my_address == address);
            assert(self@.decoder.phase == after.0);
            assert(self@.outbox =~= before.outbox + payloads(after.1));
        }
    }
}

/// The payloads of two runs of frames, one after the other.
pub proof fn lemma_payloads_concat(first: Seq<Frame>, second: Seq<Frame>)
    ensures
        payloads(first + second) == payloads(first) + payloads(second),
    decreases second.len(),
{
    if second.len() == 0 {
        assert(first + second =~= first);
        assert(payloads(first) + Seq::<u8>::empty() =~= payloads(first));
    } else {
        lemma_payloads_concat(first, second.drop_last());
        assert((first + second).drop_last() =~= first + second.drop_last());
        assert((payloads(first) + payloads(second.drop_last())) + second.last().payload
            =~= payloads(first) + (payloads(second.drop_last()) + second.last().payload));
    }
}

/// Taking bytes in two parts is taking them at once.
pub proof fn lemma_absorbed_concat(g: GatewayState, first: Seq<u8>, second: Seq<u8>)
    ensures
        absorbed(absorbed(g, first), second) == absorbed(g, first + second),
{
    let address = g.decoder.my_address;
    lemma_run_concat(address, g.decoder.phase, first, second);
    let a = run(address, g.decoder.phase, first);
    let b = run(address, a.0, second);
    lemma_payloads_concat(a.1, b.1);
    assert((g.outbox + payloads(a.1)) + payloads(b.1) =~= g.outbox + (payloads(a.1) + payloads(
        b.1,
    )));
}

/// From the bus to the connections: a receiver whose decoder stands between
/// frames and that takes the wire form of a frame which fits its buffer has
/// the frame's payload at the end of its outbox if the frame is addressed to
/// it, and its outbox as before if not. Either way its decoder stands between
/// frames again.
pub proof fn lemma_absorbed_frame(g: GatewayState, f: Frame)
    requires
        g.decoder.phase == Phase::AddressMsb,
        f.payload.len() <= BUFFER_CAPACITY,
    ensures
        absorbed(g, wire_bytes(f)) == (GatewayState {
            decoder: g.decoder,
            outbox: if f.address == g.decoder.my_address {
                g.outbox + f.payload
            } else {
                g.outbox
            },
        }),
{
    lemma_run_one_frame(g.decoder.my_address, f);
    if f.address == g.decoder.my_address {
        assert(seq![f].drop_last() =~= Seq::<Frame>::empty());
        assert(payloads(Seq::<Frame>::empty()) =~= Seq::<u8>::empty());
        assert(payloads(seq![f]) =~= f.payload);
    } else {
        assert(payloads(Seq::<Frame>::empty()) =~= Seq::<u8>::empty());
        assert(g.outbox + Seq::<u8>::empty() =~= g.outbox);
    }
}

} // verus!
