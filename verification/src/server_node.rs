//! The connection table of the TCP gateway: one entry per live connection,
//! with the bytes that arrived from its socket and the bytes staged for it.
//! Identities are handed out in sequence and never twice.

use vstd::prelude::*;

verus! {

/// One more than the largest identity that can be handed out.
pub const ID_LIMIT: u32 = 65536;

/// The buffers of one connection.
pub struct Client {
    rx_buffer: Vec<u8>,
    tx_buffer: Vec<u8>,
}

/// The mathematical content of a connection.
pub struct ClientState {
    /// Bytes that arrived from the socket and were not read yet.
    pub rx: Seq<u8>,
    /// Bytes staged for the socket and not written yet.
    pub tx: Seq<u8>,
}

impl View for Client {
    type V = ClientState;

    closed spec fn view(&self) -> ClientState {
        ClientState { rx: self.rx_buffer@, tx: self.tx_buffer@ }
    }
}

impl Client {
    /// A connection with nothing buffered.
    pub fn new() -> (c: Self)
        ensures
            c@ == (ClientState { rx: Seq::empty(), tx: Seq::empty() }),
    {
        Client { rx_buffer: Vec::new(), tx_buffer: Vec::new() }
    }
}

/// The mathematical content of the table.
pub struct Table {
    /// The live connections by identity.
    pub clients: Map<u16, ClientState>,
    /// How many identities have been handed out; the next one is this number.
    pub next_id: nat,
}

/// What the reader of a connection reported since the pump's last turn.
pub enum ReaderEvent {
    /// A chunk of bytes arrived.
    Chunk(Vec<u8>),
    /// Nothing arrived.
    Quiet,
    /// The peer closed the connection.
    Closed,
}

/// What the pump of a connection does next.
pub enum PumpAction {
    /// The connection is gone: end the pump.
    Stop,
    /// Nothing is staged: take another turn.
    Idle,
    /// Write these bytes to the socket and report how many were taken.
    Write(Vec<u8>),
}

/// The table with a new connection under the next identity, and that
/// identity; the table as it is, and none, when all identities are used.
pub open spec fn accept_spec(t: Table) -> (Table, Option<u16>) {
    if t.next_id < ID_LIMIT {
        (
            Table {
                clients: t.clients.insert(
                    t.next_id as u16,
                    ClientState { rx: Seq::empty(), tx: Seq::empty() },
                ),
                next_id: t.next_id + 1,
            },
            Some(t.next_id as u16),
        )
    } else {
        (t, None)
    }
}

/// The table after `data` arrived from the socket of connection `id`.
pub open spec fn arrive_spec(t: Table, id: u16, data: Seq<u8>) -> Table {
    if t.clients.contains_key(id) {
        Table {
            clients: t.clients.insert(
                id,
                ClientState { rx: t.clients[id].rx + data, tx: t.clients[id].tx },
            ),
            ..t
        }
    } else {
        t
    }
}

/// What reading connection `id` gives: all that arrived, if anything did.
pub open spec fn read_result(t: Table, id: u16) -> Option<Seq<u8>> {
    if t.clients.contains_key(id) && t.clients[id].rx.len() > 0 {
        Some(t.clients[id].rx)
    } else {
        None
    }
}

/// The table after connection `id` was read.
pub open spec fn read_spec(t: Table, id: u16) -> Table {
    if t.clients.contains_key(id) {
        Table {
            clients: t.clients.insert(id, ClientState { rx: Seq::empty(), tx: t.clients[id].tx }),
            ..t
        }
    } else {
        t
    }
}

/// The table after `data` was staged for connection `id`.
pub open spec fn send_spec(t: Table, id: u16, data: Seq<u8>) -> Table {
    if t.clients.contains_key(id) {
        Table {
            clients: t.clients.insert(
                id,
                ClientState { rx: t.clients[id].rx, tx: t.clients[id].tx + data },
            ),
            ..t
        }
    } else {
        t
    }
}

/// The table after `data` was staged for every live connection.
pub open spec fn send_all_spec(t: Table, data: Seq<u8>) -> Table {
    Table {
        clients: Map::new(
            |id: u16| t.clients.contains_key(id),
            |id: u16| ClientState { rx: t.clients[id].rx, tx: t.clients[id].tx + data },
        ),
        ..t
    }
}

/// The table after the socket of connection `id` took the first `n` staged
/// bytes.
pub open spec fn drain_spec(t: Table, id: u16, n: nat) -> Table {
    if t.clients.contains_key(id) {
        let tx = t.clients[id].tx;
        Table {
            clients: t.clients.insert(
                id,
                ClientState {
                    rx: t.clients[id].rx,
                    tx: if n < tx.len() {
                        tx.skip(n as int)
                    } else {
                        Seq::empty()
                    },
                },
            ),
            ..t
        }
    } else {
        t
    }
}

/// The table without connection `id`.
pub open spec fn disconnect_spec(t: Table, id: u16) -> Table {
    Table { clients: t.clients.remove(id), ..t }
}

/// The table without any connection.
pub open spec fn disconnect_all_spec(t: Table) -> Table {
    Table { clients: Map::empty(), ..t }
}

/// The invariant of a table: only identities that were handed out are live,
/// and no more were handed out than there are.
pub open spec fn table_ok(t: Table) -> bool {
    &&& t.next_id <= ID_LIMIT
    &&& forall|id: u16| #[trigger] t.clients.contains_key(id) ==> id < t.next_id
}

/// The mathematical content of a [`ReaderEvent`].
pub enum ReaderNews {
    Chunk(Seq<u8>),
    Quiet,
    Closed,
}

impl View for ReaderEvent {
    type V = ReaderNews;

    open spec fn view(&self) -> ReaderNews {
        match self {
            ReaderEvent::Chunk(data) => ReaderNews::Chunk(data@),
            ReaderEvent::Quiet => ReaderNews::Quiet,
            ReaderEvent::Closed => ReaderNews::Closed,
        }
    }
}

/// The mathematical content of a [`PumpAction`].
pub enum PumpStep {
    Stop,
    Idle,
    Write(Seq<u8>),
}

impl View for PumpAction {
    type V = PumpStep;

    open spec fn view(&self) -> PumpStep {
        match self {
            PumpAction::Stop => PumpStep::Stop,
            PumpAction::Idle => PumpStep::Idle,
            PumpAction::Write(data) => PumpStep::Write(data@),
        }
    }
}

/// The table after the pump of connection `id` took note of what its reader
/// reported: a chunk is appended to what arrived, and a closed connection
/// leaves the table.
pub open spec fn noted_spec(t: Table, id: u16, news: ReaderNews) -> Table {
    match news {
        ReaderNews::Chunk(data) => arrive_spec(t, id, data),
        ReaderNews::Quiet => t,
        ReaderNews::Closed => disconnect_spec(t, id),
    }
}

/// What the pump of connection `id` does next: it ends when the connection
/// is gone, writes what is staged when anything is, and idles otherwise.
pub open spec fn pump_step(t: Table, id: u16) -> PumpStep {
    if !t.clients.contains_key(id) {
        PumpStep::Stop
    } else if t.clients[id].tx.len() > 0 {
        PumpStep::Write(t.clients[id].tx)
    } else {
        PumpStep::Idle
    }
}

/// The table after the socket of connection `id` answered a write: the bytes
/// it took leave the staged ones, and a failed write ends the connection.
pub open spec fn written_spec(t: Table, id: u16, outcome: Option<usize>) -> Table {
    match outcome {
        Some(n) => drain_spec(t, id, n as nat),
        None => disconnect_spec(t, id),
    }
}

struct Entry {
    id: u16,
    client: Client,
}

/// The connection table.
pub struct ServerNode {
    clients: Vec<Entry>,
    next_client_id: u32,
}

impl View for ServerNode {
    type V = Table;

    closed spec fn view(&self) -> Table {
        Table {
            clients: Map::new(
                |id: u16| exists|i: int| 0 <= i < self.clients@.len() && (#[trigger] self.clients@[i]).id == id,
                |id: u16|
                    self.clients@[choose|i: int|
                        0 <= i < self.clients@.len() && (#[trigger] self.clients@[i]).id == id].client@,
            ),
            next_id: self.next_client_id as nat,
        }
    }
}

impl ServerNode {
    /// The invariant of the representation: entries stand in the order of
    /// their identities, each of which was handed out.
    pub closed spec fn inv(&self) -> bool {
        &&& self.next_client_id <= ID_LIMIT
        &&& forall|i: int, j: int|
            0 <= i < j < self.clients@.len() ==> (#[trigger] self.clients@[i]).id < (
            #[trigger] self.clients@[j]).id
        &&& forall|i: int|
            0 <= i < self.clients@.len() ==> (#[trigger] self.clients@[i]).id < self.next_client_id
    }

    /// The invariant of a table.
    pub open spec fn wf(&self) -> bool {
        self.inv() && table_ok(self@)
    }

    /// The entry at `i` is the connection of its identity.
    proof fn lemma_entry(&self, i: int)
        requires
            self.inv(),
            0 <= i < self.clients@.len(),
        ensures
            self@.clients.contains_key(self.clients@[i].id),
            self@.clients[self.clients@[i].id] == self.clients@[i].client@,
    {
        let id = self.clients@[i].id;
        let j = choose|j: int| 0 <= j < self.clients@.len() && (#[trigger] self.clients@[j]).id == id;
        if i < j {
            assert(self.clients@[i].id < self.clients@[j].id);
        } else if j < i {
            assert(self.clients@[j].id < self.clients@[i].id);
        }
    }

    /// The representation invariant gives the table's.
    proof fn lemma_table_ok(&self)
        requires
            self.inv(),
        ensures
            table_ok(self@),
    {
        assert forall|id: u16| #[trigger] self@.clients.contains_key(id) implies id
            < self@.next_id by {
            let i = choose|i: int| 0 <= i < self.clients@.len() && (#[trigger] self.clients@[i]).id == id;
            assert(self.clients@[i].id < self.next_client_id);
        }
    }

    /// A table without connections, from which no identity was handed out.
    pub fn new() -> (s: Self)
        ensures
            s.wf(),
            s@ == (Table { clients: Map::empty(), next_id: 0 }),
    {
        let s = ServerNode { clients: Vec::new(), next_client_id: 0 };
        assert(s@.clients =~= Map::<u16, ClientState>::empty());
        s
    }

    /// The position of the entry of connection `id`, if it is live.
    fn find(&self, id: u16) -> (r: Option<usize>)
        requires
            self.inv(),
        ensures
            match r {
                Some(i) => i < self.clients@.len() && self.clients@[i as int].id == id
                    && self@.clients.contains_key(id) && self@.clients[id]
                    == self.clients@[i as int].client@,
                None => !self@.clients.contains_key(id),
            },
    {
        let mut i: usize = 0;
        while i < self.clients.len()
            invariant
                self.inv(),
                i <= self.clients@.len(),
                forall|k: int| 0 <= k < i ==> (#[trigger] self.clients@[k]).id != id,
            decreases self.clients@.len() - i,
        {
            if self.clients[i].id == id {
                proof {
                    self.lemma_entry(i as int);
                }
                return Some(i);
            }
            i += 1;
        }
        None
    }

    /// The table after the entry at `i` changed and nothing else did.
    proof fn lemma_entry_changed(before: &ServerNode, after: &ServerNode, i: int)
        requires
            before.inv(),
            0 <= i < before.clients@.len(),
            after.clients@.len() == before.clients@.len(),
            after.next_client_id == before.next_client_id,
            forall|k: int|
                0 <= k < before.clients@.len() ==> (#[trigger] after.clients@[k]).id
                    == before.clients@[k].id,
            forall|k: int|
                0 <= k < before.clients@.len() && k != i ==> (#[trigger] after.clients@[k])
                    == before.clients@[k],
        ensures
            after.inv(),
            after@ == (Table {
                clients: before@.clients.insert(before.clients@[i].id, after.clients@[i].client@),
                next_id: before@.next_id,
            }),
    {
        assert forall|x: int, y: int| 0 <= x < y < after.clients@.len() implies (
        #[trigger] after.clients@[x]).id < (#[trigger] after.clients@[y]).id by {
            assert(before.clients@[x].id < before.clients@[y].id);
        }
        assert forall|x: int| 0 <= x < after.clients@.len() implies (#[trigger] after.clients@[x]).id
            < after.next_client_id by {
            assert(before.clients@[x].id < before.next_client_id);
        }
        let target = before@.clients.insert(before.clients@[i].id, after.clients@[i].client@);
        assert forall|id: u16| after@.clients.contains_key(id) <==> target.contains_key(id) by {
            if after@.clients.contains_key(id) {
                let k = choose|k: int|
                    0 <= k < after.clients@.len() && (#[trigger] after.clients@[k]).id == id;
                assert(before.clients@[k].id == id);
            }
            if before@.clients.contains_key(id) {
                let k = choose|k: int|
                    0 <= k < before.clients@.len() && (#[trigger] before.clients@[k]).id == id;
                assert(after.clients@[k].id == id);
            }
            if id == before.clients@[i].id {
                assert(after.clients@[i].id == id);
            }
        }
        assert forall|id: u16| #[trigger] after@.clients.contains_key(id) implies after@.clients[id]
            == target[id] by {
            let k = choose|k: int|
                0 <= k < after.clients@.len() && (#[trigger] after.clients@[k]).id == id;
            after.lemma_entry(k);
            before.lemma_entry(k);
        }
        assert(after@.clients =~= target);
    }

    /// Registers a new connection under the next identity and returns that
    /// identity; does nothing once every identity has been handed out.
    pub fn accept(&mut self) -> (r: Option<u16>)
        requires
            old(self).wf(),
        ensures
            final(self).wf(),
            (final(self)@, r) == accept_spec(old(self)@),
    {
        if self.next_client_id >= ID_LIMIT {
            return None;
        }
        let id = self.next_client_id as u16;
        let ghost before = *self;
        self.clients.push(Entry { id, client: Client::new() });
        self.next_client_id = self.next_client_id + 1;
        proof {
            let target = before@.clients.insert(
                id,
                ClientState { rx: Seq::empty(), tx: Seq::empty() },
            );
            let last = before.clients@.len() as int;
            assert forall|x: int, y: int| 0 <= x < y < self.clients@.len() implies (
            #[trigger] self.clients@[x]).id < (#[trigger] self.clients@[y]).id by {
                if y < last {
                    assert(before.clients@[x].id < before.clients@[y].id);
                } else {
                    assert(before.clients@[x].id < before.next_client_id);
                }
            }
            assert forall|x: int| 0 <= x < self.clients@.len() implies (
            #[trigger] self.clients@[x]).id < self.next_client_id by {
                if x < last {
                    assert(before.clients@[x].id < before.next_client_id);
                }
            }
            assert forall|k: u16| self@.clients.contains_key(k) <==> target.contains_key(k) by {
                if self@.clients.contains_key(k) {
                    let x = choose|x: int|
                        0 <= x < self.clients@.len() && (#[trigger] self.clients@[x]).id == k;
                    if x < last {
                        assert(before.clients@[x].id == k);
                    }
                }
                if before@.clients.contains_key(k) {
                    let x = choose|x: int|
                        0 <= x < before.clients@.len() && (#[trigger] before.clients@[x]).id == k;
                    assert(self.clients@[x].id == k);
                }
                if k == id {
                    assert(self.clients@[last].id == k);
                }
            }
            assert forall|k: u16| #[trigger] self@.clients.contains_key(k) implies self@.clients[k]
                == target[k] by {
                let x = choose|x: int|
                    0 <= x < self.clients@.len() && (#[trigger] self.clients@[x]).id == k;
                self.lemma_entry(x);
                if x < last {
                    before.lemma_entry(x);
                }
            }
            assert(self@.clients =~= target);
            self.lemma_table_ok();
        }
        Some(id)
    }

    /// The identities of the live connections, in ascending order.
    pub fn connected_client_ids(&self) -> (ids: Vec<u16>)
        requires
            self.wf(),
        ensures
            lists_live(ids@, self@),
    {
        let mut ids: Vec<u16> = Vec::new();
        let mut i: usize = 0;
        while i < self.clients.len()
            invariant
                i <= self.clients@.len(),
                ids@.len() == i,
                forall|k: int| 0 <= k < i ==> #[trigger] ids@[k] == self.clients@[k].id,
            decreases self.clients@.len() - i,
        {
            ids.push(self.clients[i].id);
            i += 1;
        }
        proof {
            assert forall|id: u16| ids@.to_set().contains(id) <==> self@.clients.dom().contains(
                id,
            ) by {
                if ids@.contains(id) {
                    let k = choose|k: int| 0 <= k < ids@.len() && ids@[k] == id;
                    assert(self.clients@[k].id == id);
                }
                if self@.clients.contains_key(id) {
                    let k = choose|k: int|
                        0 <= k < self.clients@.len() && (#[trigger] self.clients@[k]).id == id;
                    assert(ids@[k] == id);
                }
            }
            assert(ids@.to_set() =~= self@.clients.dom());
            assert forall|x: int, y: int| 0 <= x < y < ids@.len() implies ids@[x] < ids@[y] by {
                assert(self.clients@[x].id < self.clients@[y].id);
            }
        }
        ids
    }

    /// Takes all the bytes that arrived on connection `client_id` and were
    /// not read yet. Gives nothing when nothing arrived or the connection is
    /// not live.
    pub fn read_data(&mut self, client_id: u16) -> (r: Option<Vec<u8>>)
        requires
            old(self).wf(),
        ensures
            final(self).wf(),
            final(self)@ == read_spec(old(self)@, client_id),
            match r {
                Some(data) => read_result(old(self)@, client_id) == Some(data@),
                None => read_result(old(self)@, client_id) is None,
            },
    {
        match self.find(client_id) {
            None => None,
            Some(i) => {
                let ghost before = *self;
                if self.clients[i].client.rx_buffer.len() == 0 {
                    proof {
                        assert(before@.clients[client_id].rx =~= Seq::<u8>::empty());
                        assert(before@.clients.insert(client_id, before@.clients[client_id])
                            =~= before@.clients);
                    }
                    return None;
                }
                let mut data: Vec<u8> = Vec::new();
                data.extend_from_slice(self.clients[i].client.rx_buffer.as_slice());
                self.clients[i].client.rx_buffer.clear();
                proof {
                    Self::lemma_entry_changed(&before, &*self, i as int);
                    self.lemma_table_ok();
                }
                Some(data)
            },
        }
    }

    /// Stages `data` behind what is staged for connection `client_id`. Does
    /// nothing when the connection is not live.
    pub fn send_data(&mut self, client_id: u16, data: &Vec<u8>)
        requires
            old(self).wf(),
        ensures
            final(self).wf(),
            final(self)@ == send_spec(old(self)@, client_id, data@),
    {
        match self.find(client_id) {
            None => {},
            Some(i) => {
                let ghost before = *self;
                self.clients[i].client.tx_buffer.extend_from_slice(data.as_slice());
                proof {
                    assert(before@.clients[client_id] == before.clients@[i as int].client@);
                    assert(self.clients@[i as int].client.rx_buffer
                        == before.clients@[i as int].client.rx_buffer);
                    assert(self.clients@[i as int].client.tx_buffer@
                        == before.clients@[i as int].client.tx_buffer@ + data@);
                    Self::lemma_entry_changed(&before, &*self, i as int);
                    self.lemma_table_ok();
                }
            },
        }
    }

    /// Whether connection `client_id` is live.
    pub fn is_connected(&self, client_id: u16) -> (r: bool)
        requires
            self.wf(),
        ensures
            r == self@.clients.contains_key(client_id),
    {
        self.find(client_id).is_some()
    }

    /// Removes connection `client_id`. Does nothing when it is not live.
    pub fn disconnect(&mut self, client_id: u16)
        requires
            old(self).wf(),
        ensures
            final(self).wf(),
            final(self)@ == disconnect_spec(old(self)@, client_id),
    {
        match self.find(client_id) {
            None => {
                assert(self@.clients.remove(client_id) =~= self@.clients);
            },
            Some(i) => {
                let ghost before = *self;
                self.clients.remove(i);
                proof {
                    let target = before@.clients.remove(client_id);
                    let src = |k: int| if k < i { k } else { k + 1 };
                    assert forall|k: int| 0 <= k < self.clients@.len() implies (
                    #[trigger] self.clients@[k]) == before.clients@[src(k)] by {}
                    assert forall|x: int, y: int| 0 <= x < y < self.clients@.len() implies (
                    #[trigger] self.clients@[x]).id < (#[trigger] self.clients@[y]).id by {
                        assert(self.clients@[x] == before.clients@[src(x)]);
                        assert(self.clients@[y] == before.clients@[src(y)]);
                        assert(before.clients@[src(x)].id < before.clients@[src(y)].id);
                    }
                    assert forall|x: int| 0 <= x < self.clients@.len() implies (
                    #[trigger] self.clients@[x]).id < self.next_client_id by {
                        assert(self.clients@[x] == before.clients@[src(x)]);
                        assert(before.clients@[src(x)].id < before.next_client_id);
                    }
                    assert forall|k: u16| self@.clients.contains_key(k) <==> target.contains_key(
                        k,
                    ) by {
                        if self@.clients.contains_key(k) {
                            let x = choose|x: int|
                                0 <= x < self.clients@.len() && (#[trigger] self.clients@[x]).id == k;
                            assert(self.clients@[x] == before.clients@[src(x)]);
                            assert(before.clients@[src(x)].id == k);
                            if src(x) < i {
                                assert(before.clients@[src(x)].id < before.clients@[i as int].id);
                            } else {
                                assert(before.clients@[i as int].id < before.clients@[src(x)].id);
                            }
                        }
                        if before@.clients.contains_key(k) && k != client_id {
                            let x = choose|x: int|
                                0 <= x < before.clients@.len() && (#[trigger] before.clients@[x]).id
                                    == k;
                            let y = if x < i { x } else { x - 1 };
                            assert(self.clients@[y] == before.clients@[src(y)]);
                            assert(self.clients@[y].id == k);
                        }
                    }
                    assert forall|k: u16| #[trigger]
                        self@.clients.contains_key(k) implies self@.clients[k] == target[k] by {
                        let x = choose|x: int|
                            0 <= x < self.clients@.len() && (#[trigger] self.clients@[x]).id == k;
                        assert(self.clients@[x] == before.clients@[src(x)]);
                        self.lemma_entry(x);
                        before.lemma_entry(src(x));
                    }
                    assert(self@.clients =~= target);
                    self.lemma_table_ok();
                }
            },
        }
    }

    /// Removes every connection. Identities that were handed out stay used.
    pub fn disconnect_all(&mut self)
        requires
            old(self).wf(),
        ensures
            final(self).wf(),
            final(self)@ == disconnect_all_spec(old(self)@),
    {
        self.clients.clear();
        proof {
            assert(self@.clients =~= Map::<u16, ClientState>::empty());
            self.lemma_table_ok();
        }
    }

    /// Appends `chunk`, which arrived from the socket of connection
    /// `client_id`, to what arrived before. Does nothing when the connection is
    /// not live.
    pub fn receive_chunk(&mut self, client_id: u16, chunk: &Vec<u8>)
        requires
            old(self).wf(),
        ensures
            final(self).wf(),
            final(self)@ == arrive_spec(old(self)@, client_id, chunk@),
    {
        match self.find(client_id) {
            None => {},
            Some(i) => {
                let ghost before = *self;
                self.clients[i].client.rx_buffer.extend_from_slice(chunk.as_slice());
                proof {
                    assert(before@.clients[client_id] == before.clients@[i as int].client@);
                    assert(self.clients@[i as int].client.tx_buffer
                        == before.clients@[i as int].client.tx_buffer);
                    assert(self.clients@[i as int].client.rx_buffer@
                        == before.clients@[i as int].client.rx_buffer@ + chunk@);
                    Self::lemma_entry_changed(&before, &*self, i as int);
                    self.lemma_table_ok();
                }
            },
        }
    }

    /// Removes the first `n` of the bytes staged for connection `client_id`,
    /// or all of them when there are fewer. Does nothing when the connection is
    /// not live.
    pub fn mark_written(&mut self, client_id: u16, n: usize)
        requires
            old(self).wf(),
        ensures
            final(self).wf(),
            final(self)@ == drain_spec(old(self)@, client_id, n as nat),
    {
        match self.find(client_id) {
            None => {},
            Some(i) => {
                let ghost before = *self;
                let len = self.clients[i].client.tx_buffer.len();
                if n < len {
                    let rest = self.clients[i].client.tx_buffer.split_off(n);
                    self.clients[i].client.tx_buffer = rest;
                } else {
                    self.clients[i].client.tx_buffer.clear();
                }
                proof {
                    assert(before@.clients[client_id] == before.clients@[i as int].client@);
                    assert(self.clients@[i as int].client.rx_buffer
                        == before.clients@[i as int].client.rx_buffer);
                    let tx = before.clients@[i as int].client.tx_buffer@;
                    if n < len {
                        assert(self.clients@[i as int].client.tx_buffer@ =~= tx.skip(n as int));
                    } else {
                        assert(self.clients@[i as int].client.tx_buffer@ =~= Seq::<u8>::empty());
                    }
                    Self::lemma_entry_changed(&before, &*self, i as int);
                    self.lemma_table_ok();
                }
            },
        }
    }

    /// Stages `data` for every live connection.
    pub fn send_to_all(&mut self, data: &Vec<u8>)
        requires
            old(self).wf(),
        ensures
            final(self).wf(),
            final(self)@ == send_all_spec(old(self)@, data@),
    {
        let ghost before = *self;
        let n = self.clients.len();
        let mut i: usize = 0;
        while i < n
            invariant
                i <= n,
                n == before.clients@.len(),
                self.clients@.len() == n,
                self.next_client_id == before.next_client_id,
                before.inv(),
                forall|k: int| 0 <= k < n ==> (#[trigger] self.clients@[k]).id == before.clients@[k].id,
                forall|k: int|
                    0 <= k < i ==> (#[trigger] self.clients@[k]).client@ == (ClientState {
                        rx: before.clients@[k].client@.rx,
                        tx: before.clients@[k].client@.tx + data@,
                    }),
                forall|k: int| i <= k < n ==> (#[trigger] self.clients@[k]) == before.clients@[k],
            decreases n - i,
        {
            let ghost prev = self.clients@;
            self.clients[i].client.tx_buffer.extend_from_slice(data.as_slice());
            proof {
                assert(prev[i as int] == before.clients@[i as int]);
                assert(self.clients@[i as int].client.rx_buffer == prev[i as int].client.rx_buffer);
                assert(self.clients@[i as int].client.tx_buffer@
                    == prev[i as int].client.tx_buffer@ + data@);
                assert forall|k: int| 0 <= k < n implies (#[trigger] self.clients@[k]).id
                    == before.clients@[k].id by {
                    if k != i {
                        assert(self.clients@[k] == prev[k]);
                    }
                }
                assert forall|k: int| 0 <= k < i + 1 implies (#[trigger] self.clients@[k]).client@
                    == (ClientState {
                    rx: before.clients@[k].client@.rx,
                    tx: before.clients@[k].client@.tx + data@,
                }) by {
                    if k != i {
                        assert(self.clients@[k] == prev[k]);
                    }
                }
                assert forall|k: int| i + 1 <= k < n implies (#[trigger] self.clients@[k])
                    == before.clients@[k] by {
                    assert(self.clients@[k] == prev[k]);
                }
            }
            i += 1;
        }
        proof {
            let target = send_all_spec(before@, data@).clients;
            assert forall|x: int, y: int| 0 <= x < y < self.clients@.len() implies (
            #[trigger] self.clients@[x]).id < (#[trigger] self.clients@[y]).id by {
                assert(before.clients@[x].id < before.clients@[y].id);
            }
            assert forall|x: int| 0 <= x < self.clients@.len() implies (
            #[trigger] self.clients@[x]).id < self.next_client_id by {
                assert(before.clients@[x].id < before.next_client_id);
            }
            assert forall|id: u16| self@.clients.contains_key(id) <==> target.contains_key(id) by {
                if self@.clients.contains_key(id) {
                    let k = choose|k: int|
                        0 <= k < self.clients@.len() && (#[trigger] self.clients@[k]).id == id;
                    assert(before.clients@[k].id == id);
                }
                if before@.clients.contains_key(id) {
                    let k = choose|k: int|
                        0 <= k < before.clients@.len() && (#[trigger] before.clients@[k]).id == id;
                    assert(self.clients@[k].id == id);
                }
            }
            assert forall|id: u16| #[trigger] self@.clients.contains_key(id) implies self@.clients[id]
                == target[id] by {
                let k = choose|k: int|
                    0 <= k < self.clients@.len() && (#[trigger] self.clients@[k]).id == id;
                self.lemma_entry(k);
                before.lemma_entry(k);
            }
            assert(self@.clients =~= target);
            self.lemma_table_ok();
        }
    }

    /// One turn of the pump of connection `client_id`: takes note of what the
    /// reader reported since the last turn, and says what to do next.
    pub fn pump(&mut self, client_id: u16, event: ReaderEvent) -> (action: PumpAction)
        requires
            old(self).wf(),
        ensures
            final(self).wf(),
            final(self)@ == noted_spec(old(self)@, client_id, event@),
            action@ == pump_step(final(self)@, client_id),
    {
        match event {
            ReaderEvent::Chunk(data) => {
                self.receive_chunk(client_id, &data);
            },
            ReaderEvent::Quiet => {},
            ReaderEvent::Closed => {
                self.disconnect(client_id);
            },
        }
        match self.find(client_id) {
            None => PumpAction::Stop,
            Some(i) => {
                assert(self@.clients[client_id].tx == self.clients@[i as int].client.tx_buffer@);
                if self.clients[i].client.tx_buffer.len() == 0 {
                    PumpAction::Idle
                } else {
                    let mut staged: Vec<u8> = Vec::new();
                    staged.extend_from_slice(self.clients[i].client.tx_buffer.as_slice());
                    assert(staged@ =~= self@.clients[client_id].tx);
                    PumpAction::Write(staged)
                }
            },
        }
    }

    /// Takes note of how the socket of connection `client_id` answered a
    /// write: `Some(n)` when it took `n` bytes, `None` when the write failed.
    pub fn written(&mut self, client_id: u16, outcome: Option<usize>)
        requires
            old(self).wf(),
        ensures
            final(self).wf(),
            final(self)@ == written_spec(old(self)@, client_id, outcome),
    {
        match outcome {
            Some(n) => self.mark_written(client_id, n),
            None => self.disconnect(client_id),
        }
    }
}

/// One operation on the table.
pub enum TableOp {
    Accept,
    Arrive(u16, Seq<u8>),
    Read(u16),
    Send(u16, Seq<u8>),
    SendAll(Seq<u8>),
    Drain(u16, nat),
    Disconnect(u16),
    DisconnectAll,
}

/// The table after one operation.
pub open spec fn apply(t: Table, op: TableOp) -> Table {
    match op {
        TableOp::Accept => accept_spec(t).0,
        TableOp::Arrive(id, data) => arrive_spec(t, id, data),
        TableOp::Read(id) => read_spec(t, id),
        TableOp::Send(id, data) => send_spec(t, id, data),
        TableOp::SendAll(data) => send_all_spec(t, data),
        TableOp::Drain(id, n) => drain_spec(t, id, n),
        TableOp::Disconnect(id) => disconnect_spec(t, id),
        TableOp::DisconnectAll => disconnect_all_spec(t),
    }
}

/// The table after a run of operations, in order.
pub open spec fn apply_all(t: Table, ops: Seq<TableOp>) -> Table
    decreases ops.len(),
{
    if ops.len() == 0 {
        t
    } else {
        apply(apply_all(t, ops.drop_last()), ops.last())
    }
}

/// No operation brings back an identity that was handed out and is gone: the
/// table stays sound, the count of identities handed out never falls, and a
/// connection that is live afterwards either was live before or got an
/// identity that had not been handed out.
pub proof fn lemma_apply_keeps_order(t: Table, op: TableOp)
    requires
        table_ok(t),
    ensures
        table_ok(apply(t, op)),
        apply(t, op).next_id >= t.next_id,
        forall|id: u16| #[trigger]
            apply(t, op).clients.contains_key(id) ==> t.clients.contains_key(id) || id
                >= t.next_id,
{
}

/// An identity is never handed out twice: once a connection is gone, its
/// identity is not live again, whatever operations follow.
pub proof fn lemma_identity_never_reused(t: Table, id: u16, ops: Seq<TableOp>)
    requires
        table_ok(t),
        id < t.next_id,
        !t.clients.contains_key(id),
    ensures
        table_ok(apply_all(t, ops)),
        apply_all(t, ops).next_id >= t.next_id,
        !apply_all(t, ops).clients.contains_key(id),
    decreases ops.len(),
{
    if ops.len() > 0 {
        lemma_identity_never_reused(t, id, ops.drop_last());
        lemma_apply_keeps_order(apply_all(t, ops.drop_last()), ops.last());
    }
}

/// Reading and sending on a connection that is gone change nothing and give
/// nothing.
pub proof fn lemma_gone_is_noop(t: Table, id: u16, data: Seq<u8>)
    requires
        !t.clients.contains_key(id),
    ensures
        read_spec(t, id) == t,
        read_result(t, id) is None,
        send_spec(t, id, data) == t,
        arrive_spec(t, id, data) == t,
        pump_step(t, id) == PumpStep::Stop,
{
}

/// Whether `ids` lists the live connections of `t`, each once, in ascending
/// order.
pub open spec fn lists_live(ids: Seq<u16>, t: Table) -> bool {
    &&& ids.to_set() == t.clients.dom()
    &&& forall|i: int, j: int| 0 <= i < j < ids.len() ==> ids[i] < ids[j]
}

/// There is one way to list the live connections in ascending order.
pub proof fn lemma_listing_unique(a: Seq<u16>, b: Seq<u16>, t: Table)
    requires
        lists_live(a, t),
        lists_live(b, t),
    ensures
        a == b,
    decreases a.len(),
{
    if a.len() == 0 {
        if b.len() > 0 {
            assert(b.contains(b[0]));
            assert(b.to_set().contains(b[0]));
            assert(a.to_set().contains(b[0]));
        }
        assert(a =~= b);
    } else {
        let m = a.last();
        assert(a.contains(m));
        assert(a.to_set().contains(m));
        assert(b.to_set().contains(m));
        let j = choose|j: int| 0 <= j < b.len() && b[j] == m;
        if j < b.len() - 1 {
            let top = b.last();
            assert(b[j] < top);
            assert(b.contains(top));
            assert(b.to_set().contains(top));
            assert(a.to_set().contains(top));
            let i = choose|i: int| 0 <= i < a.len() && a[i] == top;
            if i < a.len() - 1 {
                assert(a[i] < a[a.len() - 1]);
            }
        }
        let rest = Table { clients: t.clients.remove(m), ..t };
        let a0 = a.drop_last();
        let b0 = b.drop_last();
        assert forall|x: u16| a0.to_set().contains(x) <==> rest.clients.dom().contains(x) by {
            if a0.contains(x) {
                let i = choose|i: int| 0 <= i < a0.len() && a0[i] == x;
                assert(a[i] == x);
                assert(a[i] < a[a.len() - 1]);
                assert(a.contains(x));
                assert(a.to_set().contains(x));
            }
            if rest.clients.dom().contains(x) {
                assert(a.to_set().contains(x));
                let i = choose|i: int| 0 <= i < a.len() && a[i] == x;
                assert(a0[i] == x);
            }
        }
        assert forall|x: u16| b0.to_set().contains(x) <==> rest.clients.dom().contains(x) by {
            if b0.contains(x) {
                let i = choose|i: int| 0 <= i < b0.len() && b0[i] == x;
                assert(b[i] == x);
                assert(b[i] < b[b.len() - 1]);
                assert(b.contains(x));
                assert(b.to_set().contains(x));
            }
            if rest.clients.dom().contains(x) {
                assert(b.to_set().contains(x));
                let i = choose|i: int| 0 <= i < b.len() && b[i] == x;
                assert(b0[i] == x);
            }
        }
        assert(a0.to_set() =~= rest.clients.dom());
        assert(b0.to_set() =~= rest.clients.dom());
        lemma_listing_unique(a0, b0, rest);
        assert(a =~= a0.push(m));
        assert(b =~= b0.push(m));
    }
}

/// Reading a connection on which nothing arrived changes nothing.
pub proof fn lemma_read_nothing(t: Table, id: u16)
    requires
        read_result(t, id) is None,
    ensures
        read_spec(t, id) == t,
{
    if t.clients.contains_key(id) {
        assert(t.clients[id].rx =~= Seq::<u8>::empty());
        assert(t.clients.insert(id, t.clients[id]) =~= t.clients);
    }
}

} // verus!
