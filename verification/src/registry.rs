//! The connection registry and its lifecycle operations.
//!
//! The registry is the single source of truth for which endpoints exist. Its
//! operations are pure decisions: they mutate the registry, issue handles for
//! the tasks and write halves the runtime must create, name the handles the
//! runtime must cancel or drop, and return the event owed to the sink. The
//! runtime performs the socket calls between the decisions:
//!
//! - `connect`/`bind` on an id is `retire`, then the grace wait and the socket
//!   call, then `register_client`/`register_server`; a connect from a chosen
//!   local address differs only in how the runtime manufactures the socket,
//!   and registers through `register_client` all the same;
//! - each client or peer read loop feeds what it read into
//!   `client_read_step`/`peer_read_step` until told to stop;
//! - the accept loop feeds each accepted peer into `accept_peer`;
//! - `send` is `send_route`, then a write on the writer the route names.

use vstd::prelude::*;
use crate::conn::{
    conn_handle, conn_task, conn_wf, conn_writer, lemma_conn_handle_below_bound,
    lemma_conn_wf_bound_grows, lemma_server_sess_disjoint, lemma_server_sess_wf,
    server_accept_task, server_sessions, sess_disjoint, sess_map_task, sess_map_writer, sess_wf,
    ConnModel, Connection, PeerSession,
};
use crate::errors::TcpError;
use crate::event::{Event, EventModel};
use crate::kv::{
    keys_unique, kv_index, lemma_keys_unique_push, lemma_keys_unique_remove,
    lemma_map_of_contains, lemma_map_of_index, lemma_map_of_push, lemma_map_of_remove, map_of,
};

verus! {

/// How long a replacement waits after retiring the previous connection under
/// an id, in milliseconds, before the new socket call: a tunable grace period
/// that lets the system release the old socket and lets an in-flight event
/// finish emission.
pub const REPLACE_GRACE_MS: u64 = 100;

/// The read buffer length, in bytes, that the read loops are expected to use.
pub const READ_BUFFER_LEN: usize = 65536;

/// The handles a retired connection leaves behind: the runtime must abort the
/// tasks and drop the writers.
#[derive(Debug, PartialEq, Eq)]
pub struct Retired {
    pub tasks: Vec<u64>,
    pub writers: Vec<u64>,
}

/// What a registered client hands the runtime: the handle the new write half
/// must be stored under, the handle of the read loop to spawn, and the event
/// owed to the sink.
pub struct ClientStart {
    pub writer: u64,
    pub read_task: u64,
    pub event: Event,
}

/// What a registered server hands the runtime: the handle of the accept loop
/// to spawn and the event owed to the sink.
pub struct ServerStart {
    pub accept_task: u64,
    pub event: Event,
}

/// What an accepted peer hands the runtime: the handles for the peer's write
/// half and read loop, the event owed to the sink, and the session that a peer
/// at the same address previously occupied, if any.
pub struct PeerStart {
    pub writer: u64,
    pub read_task: u64,
    pub event: Event,
    pub replaced: Option<PeerSession>,
}

/// What a torn-down server hands the runtime: everything to cancel and drop,
/// and the event owed to the sink.
pub struct UnbindDone {
    pub retired: Retired,
    pub event: Event,
}

/// What one iteration of a read loop observed on its socket: bytes, a clean
/// end-of-stream, or a read error. An error is treated exactly as
/// end-of-stream; the loops never propagate it.
pub enum ReadOutcome {
    Data(Vec<u8>),
    Closed,
    Failed,
}

/// What one iteration of a read loop must do: push the event to the sink,
/// release what `retired` names, and stop or keep reading.
pub struct ReadStep {
    pub event: Event,
    pub stop: bool,
    pub retired: Option<Retired>,
}

/// The shape of a registered connection, for lookups.
#[derive(Clone, Copy, Debug, PartialEq, Eq, Structural)]
pub enum ConnKind {
    Client,
    Server,
}

/// Every registered connection is well-formed under the handle generator, and
/// no two registered connections share a handle.
pub open spec fn view_wf(m: Map<Seq<char>, ConnModel>, bound: u64) -> bool {
    &&& forall|id: Seq<char>| m.contains_key(id) ==> conn_wf(#[trigger] m[id], bound)
    &&& forall|id1: Seq<char>, id2: Seq<char>, h: u64|
        #![trigger conn_handle(m[id1], h), conn_handle(m[id2], h)]
        m.contains_key(id1) && m.contains_key(id2) && id1 != id2 ==> !(conn_handle(m[id1], h)
            && conn_handle(m[id2], h))
}

/// Removing a connection keeps the registry view well-formed.
proof fn lemma_view_wf_remove(m: Map<Seq<char>, ConnModel>, bound: u64, id: Seq<char>)
    requires
        view_wf(m, bound),
    ensures
        view_wf(m.remove(id), bound),
{
}

/// Registering a connection whose handles were all issued at or above the old
/// generator keeps the registry view well-formed under the new generator.
proof fn lemma_view_wf_insert_fresh(
    m: Map<Seq<char>, ConnModel>,
    bound: u64,
    id: Seq<char>,
    c: ConnModel,
    bound2: u64,
)
    requires
        view_wf(m, bound),
        !m.contains_key(id),
        conn_wf(c, bound2),
        bound <= bound2,
        forall|h: u64| conn_handle(c, h) ==> h >= bound,
    ensures
        view_wf(m.insert(id, c), bound2),
{
    let m2 = m.insert(id, c);
    assert forall|k: Seq<char>| m2.contains_key(k) implies conn_wf(#[trigger] m2[k], bound2) by {
        if k != id {
            lemma_conn_wf_bound_grows(m[k], bound, bound2);
        }
    }
    assert forall|id1: Seq<char>, id2: Seq<char>, h: u64|
        m2.contains_key(id1) && m2.contains_key(id2) && id1 != id2 implies !(#[trigger] conn_handle(
        m2[id1],
        h,
    ) && #[trigger] conn_handle(m2[id2], h)) by {
        if id1 == id {
            if conn_handle(m2[id2], h) {
                lemma_conn_handle_below_bound(m[id2], bound, h);
            }
        } else if id2 == id {
            if conn_handle(m2[id1], h) {
                lemma_conn_handle_below_bound(m[id1], bound, h);
            }
        }
    }
}

/// Replacing a registered connection by one whose handles are either handles
/// it already had or were issued at or above the old generator keeps the
/// registry view well-formed under the new generator.
proof fn lemma_view_wf_replace(
    m: Map<Seq<char>, ConnModel>,
    bound: u64,
    id: Seq<char>,
    c: ConnModel,
    bound2: u64,
)
    requires
        view_wf(m, bound),
        m.contains_key(id),
        conn_wf(c, bound2),
        bound <= bound2,
        forall|h: u64| conn_handle(c, h) ==> conn_handle(m[id], h) || h >= bound,
    ensures
        view_wf(m.insert(id, c), bound2),
{
    let m2 = m.insert(id, c);
    assert forall|k: Seq<char>| m2.contains_key(k) implies conn_wf(#[trigger] m2[k], bound2) by {
        if k != id {
            lemma_conn_wf_bound_grows(m[k], bound, bound2);
        }
    }
    assert forall|id1: Seq<char>, id2: Seq<char>, h: u64|
        m2.contains_key(id1) && m2.contains_key(id2) && id1 != id2 implies !(#[trigger] conn_handle(
        m2[id1],
        h,
    ) && #[trigger] conn_handle(m2[id2], h)) by {
        if id1 == id {
            if conn_handle(m2[id1], h) && conn_handle(m2[id2], h) {
                lemma_conn_handle_below_bound(m[id2], bound, h);
                assert(conn_handle(m[id], h) || h >= bound);
            }
        } else if id2 == id {
            if conn_handle(m2[id1], h) && conn_handle(m2[id2], h) {
                lemma_conn_handle_below_bound(m[id1], bound, h);
                assert(conn_handle(m[id], h) || h >= bound);
            }
        }
    }
}

/// The id is registered and holds a server.
pub open spec fn live_server(m: Map<Seq<char>, ConnModel>, id: Seq<char>) -> bool {
    m.contains_key(id) && m[id] is Server
}

/// What a lookup of an id reports: the connection's shape, or `NotFound`.
pub open spec fn lookup_spec(m: Map<Seq<char>, ConnModel>, id: Seq<char>) -> Result<
    ConnKind,
    TcpError,
> {
    if !m.contains_key(id) {
        Err(TcpError::NotFound)
    } else if m[id] is Client {
        Ok(ConnKind::Client)
    } else {
        Ok(ConnKind::Server)
    }
}

/// Where a send on an id is routed: the writer handle to write to, or the
/// error owed to the caller. A send to a client takes no peer address and
/// ignores one that is supplied; a send to a server requires the address of a
/// registered peer session.
pub open spec fn send_route_spec(
    m: Map<Seq<char>, ConnModel>,
    id: Seq<char>,
    addr: Option<Seq<char>>,
) -> Result<u64, TcpError> {
    if !m.contains_key(id) {
        Err(TcpError::NotFound)
    } else {
        match m[id] {
            ConnModel::Client { writer, .. } => Ok(writer),
            ConnModel::Server { sessions, .. } => match addr {
                None => Err(TcpError::InvalidInput),
                Some(a) => if sessions.contains_key(a) {
                    Ok(sessions[a].writer)
                } else {
                    Err(TcpError::NotFound)
                },
            },
        }
    }
}

/// The keyed store of live connections and the generator for the handles it
/// issues. At most one connection is registered per id at any instant; the
/// operations keep [`Registry::inv`].
pub struct Registry {
    pub entries: Vec<(String, Connection)>,
    pub next_handle: u64,
}

impl View for Registry {
    type V = Map<Seq<char>, ConnModel>;

    open spec fn view(&self) -> Map<Seq<char>, ConnModel> {
        map_of(self.entries@)
    }
}

impl Registry {
    /// The registry's invariant: ids unique, each server's peer addresses
    /// unique, every handle issued below the generator, and no handle shared
    /// between two connections or two roles.
    pub open spec fn inv(self) -> bool {
        &&& keys_unique(self.entries@)
        &&& forall|i: int|
            0 <= i < self.entries@.len() ==> (#[trigger] self.entries@[i].1).keys_ok()
        &&& view_wf(self@, self.next_handle)
    }

    /// An empty registry.
    pub fn new() -> (r: Registry)
        ensures
            r.inv(),
            r@ == Map::<Seq<char>, ConnModel>::empty(),
            r.next_handle == 0,
    {
        Registry { entries: Vec::new(), next_handle: 0 }
    }

    /// Whether an id is registered.
    pub fn contains(&self, id: &String) -> (r: bool)
        ensures
            r == self@.contains_key(id@),
    {
        proof {
            lemma_map_of_contains(self.entries@, id@);
        }
        kv_index(&self.entries, id).is_some()
    }

    /// Looks an id up and reports the connection's shape, `NotFound` if the id
    /// is absent.
    pub fn lookup(&self, id: &String) -> (r: Result<ConnKind, TcpError>)
        requires
            self.inv(),
        ensures
            r == lookup_spec(self@, id@),
            self@.contains_key(id@) <==> r is Ok,
    {
        proof {
            lemma_map_of_contains(self.entries@, id@);
        }
        match kv_index(&self.entries, id) {
            None => Err(TcpError::NotFound),
            Some(i) => {
                proof {
                    lemma_map_of_index(self.entries@, i as int);
                }
                match &self.entries[i].1 {
                    Connection::Client { .. } => Ok(ConnKind::Client),
                    Connection::Server { .. } => Ok(ConnKind::Server),
                }
            },
        }
    }

    /// Decides where a send on `id` goes: the handle of the write half that
    /// must receive the bytes, or the error owed to the caller, exactly as
    /// [`send_route_spec`] states.
    pub fn send_route(&self, id: &String, addr: &Option<String>) -> (r: Result<u64, TcpError>)
        requires
            self.inv(),
        ensures
            r == send_route_spec(self@, id@, addr.deep_view()),
    {
        proof {
            lemma_map_of_contains(self.entries@, id@);
        }
        match kv_index(&self.entries, id) {
            None => Err(TcpError::NotFound),
            Some(i) => {
                proof {
                    lemma_map_of_index(self.entries@, i as int);
                    assert(self.entries@[i as int].1.keys_ok());
                }
                match &self.entries[i].1 {
                    Connection::Client { writer, .. } => Ok(*writer),
                    Connection::Server { sessions, .. } => match addr {
                        None => Err(TcpError::InvalidInput),
                        Some(a) => {
                            proof {
                                lemma_map_of_contains(sessions@, a@);
                            }
                            match kv_index(sessions, a) {
                                None => Err(TcpError::NotFound),
                                Some(j) => {
                                    proof {
                                        lemma_map_of_index(sessions@, j as int);
                                    }
                                    Ok(sessions[j].1.writer)
                                },
                            }
                        },
                    },
                }
            },
        }
    }

    /// Removes the connection under `id`, if any, and names every handle it
    /// held: the tasks to cancel and the writers to drop. The caller of a
    /// replacement retires first, waits the grace period, and only then opens
    /// the new socket.
    pub fn retire(&mut self, id: &String) -> (r: Option<Retired>)
        requires
            old(self).inv(),
        ensures
            final(self).inv(),
            final(self).next_handle == old(self).next_handle,
            final(self)@ == old(self)@.remove(id@),
            !final(self)@.contains_key(id@),
            (r is Some) == old(self)@.contains_key(id@),
            r matches Some(ret) ==> {
                &&& forall|h: u64| #[trigger] ret.tasks@.contains(h) <==> conn_task(
                    old(self)@[id@],
                    h,
                )
                &&& forall|h: u64| #[trigger] ret.writers@.contains(h) <==> conn_writer(
                    old(self)@[id@],
                    h,
                )
            },
    {
        proof {
            lemma_map_of_contains(self.entries@, id@);
        }
        match kv_index(&self.entries, id) {
            None => {
                proof {
                    assert(self@.remove(id@) =~= self@);
                }
                None
            },
            Some(i) => {
                proof {
                    lemma_map_of_index(self.entries@, i as int);
                    lemma_map_of_remove(self.entries@, i as int);
                    lemma_keys_unique_remove(self.entries@, i as int);
                    lemma_view_wf_remove(self@, self.next_handle, id@);
                    assert(self.entries@[i as int].1.keys_ok());
                }
                let ghost before = self.entries@;
                let (_key, conn) = self.entries.remove(i);
                proof {
                    before.remove_ensures(i as int);
                    assert forall|j: int|
                        0 <= j < self.entries@.len() implies (#[trigger] self.entries@[j].1).keys_ok() by {
                        if j < i {
                            assert(self.entries@[j] == before[j]);
                        } else {
                            assert(self.entries@[j] == before[j + 1]);
                        }
                    }
                    assert(map_of(self.entries@) == map_of(before).remove(id@));
                }
                Some(retired_of(conn))
            },
        }
    }
}

impl Registry {
    /// Registers a freshly connected client under `id` and issues the handles
    /// for its write half and its read loop. The caller has already retired
    /// any previous connection under this id and completed the socket
    /// connect; on a connect failure nothing is registered and the registry
    /// stays untouched.
    pub fn register_client(&mut self, id: &String, endpoint: &String) -> (r: ClientStart)
        requires
            old(self).inv(),
            !old(self)@.contains_key(id@),
            old(self).next_handle <= u64::MAX - 2,
        ensures
            final(self).inv(),
            r.writer == old(self).next_handle,
            r.read_task == old(self).next_handle + 1,
            final(self).next_handle == old(self).next_handle + 2,
            final(self)@ == old(self)@.insert(
                id@,
                (ConnModel::Client { writer: r.writer, endpoint: endpoint@, read_task: r.read_task }),
            ),
            final(self)@.contains_key(id@),
            r.event@ == EventModel::Connect(endpoint@),
    {
        let writer = self.next_handle;
        let read_task = self.next_handle + 1;
        let conn = Connection::Client { writer, endpoint: endpoint.clone(), read_task };
        let pair = (id.clone(), conn);
        let ghost before = self.entries@;
        proof {
            lemma_map_of_contains(self.entries@, id@);
            assert(pair.0@ == id@);
            assert(forall|i: int| 0 <= i < before.len() ==> before[i].0@ != id@);
            lemma_keys_unique_push(before, pair);
            lemma_map_of_push(before, pair);
            assert forall|h: u64| conn_handle(pair.1@, h) implies h >= self.next_handle by {}
            lemma_view_wf_insert_fresh(
                self@,
                self.next_handle,
                id@,
                pair.1@,
                (self.next_handle + 2) as u64,
            );
        }
        self.entries.push(pair);
        self.next_handle = self.next_handle + 2;
        proof {
            assert forall|i: int|
                0 <= i < self.entries@.len() implies (#[trigger] self.entries@[i].1).keys_ok() by {
                if i < before.len() {
                    assert(self.entries@[i] == before[i]);
                } else {
                    assert(self.entries@[i] == pair);
                }
            }
        }
        ClientStart { writer, read_task, event: Event::Connect(endpoint.clone()) }
    }

    /// Registers a freshly bound listener under `id` and issues the handle
    /// for its accept loop; the session table starts empty. The caller has
    /// already retired any previous connection under this id and completed
    /// the listen call.
    pub fn register_server(&mut self, id: &String, endpoint: &String) -> (r: ServerStart)
        requires
            old(self).inv(),
            !old(self)@.contains_key(id@),
            old(self).next_handle <= u64::MAX - 1,
        ensures
            final(self).inv(),
            r.accept_task == old(self).next_handle,
            final(self).next_handle == old(self).next_handle + 1,
            final(self)@ == old(self)@.insert(
                id@,
                (ConnModel::Server {
                    accept_task: r.accept_task,
                    sessions: Map::<Seq<char>, PeerSession>::empty(),
                }),
            ),
            final(self)@.contains_key(id@),
            r.event@ == EventModel::Bind(endpoint@),
    {
        let accept_task = self.next_handle;
        let sessions: Vec<(String, PeerSession)> = Vec::new();
        let conn = Connection::Server { accept_task, sessions };
        let pair = (id.clone(), conn);
        let ghost before = self.entries@;
        proof {
            lemma_map_of_contains(self.entries@, id@);
            assert(pair.0@ == id@);
            assert(forall|i: int| 0 <= i < before.len() ==> before[i].0@ != id@);
            lemma_keys_unique_push(before, pair);
            lemma_map_of_push(before, pair);
            assert(pair.1@ == (ConnModel::Server {
                accept_task,
                sessions: Map::<Seq<char>, PeerSession>::empty(),
            }));
            assert forall|h: u64| conn_handle(pair.1@, h) implies h >= self.next_handle by {
                if h != accept_task {
                    if crate::conn::sess_map_task(Map::<Seq<char>, PeerSession>::empty(), h) {
                        let a = choose|a: Seq<char>|
                            #[trigger] Map::<Seq<char>, PeerSession>::empty().contains_key(a)
                                && Map::<Seq<char>, PeerSession>::empty()[a].read_task == h;
                    }
                    if crate::conn::sess_map_writer(Map::<Seq<char>, PeerSession>::empty(), h) {
                        let a = choose|a: Seq<char>|
                            #[trigger] Map::<Seq<char>, PeerSession>::empty().contains_key(a)
                                && Map::<Seq<char>, PeerSession>::empty()[a].writer == h;
                    }
                }
            }
            lemma_view_wf_insert_fresh(
                self@,
                self.next_handle,
                id@,
                pair.1@,
                (self.next_handle + 1) as u64,
            );
        }
        self.entries.push(pair);
        self.next_handle = self.next_handle + 1;
        proof {
            assert forall|i: int|
                0 <= i < self.entries@.len() implies (#[trigger] self.entries@[i].1).keys_ok() by {
                if i < before.len() {
                    assert(self.entries@[i] == before[i]);
                } else {
                    assert(self.entries@[i] == pair);
                }
            }
        }
        ServerStart { accept_task, event: Event::Bind(endpoint.clone()) }
    }

    /// Tears a connection down: cancels its tasks, drops its writers, removes
    /// the entry. `NotFound` if the id is absent; afterwards a lookup of the
    /// id fails.
    pub fn disconnect(&mut self, id: &String) -> (r: Result<Retired, TcpError>)
        requires
            old(self).inv(),
        ensures
            final(self).inv(),
            final(self).next_handle == old(self).next_handle,
            !old(self)@.contains_key(id@) ==> r == Err::<Retired, TcpError>(TcpError::NotFound)
                && final(self)@ == old(self)@,
            old(self)@.contains_key(id@) ==> (r matches Ok(ret) && {
                &&& final(self)@ == old(self)@.remove(id@)
                &&& !final(self)@.contains_key(id@)
                &&& forall|h: u64| #[trigger] ret.tasks@.contains(h) <==> conn_task(
                    old(self)@[id@],
                    h,
                )
                &&& forall|h: u64| #[trigger] ret.writers@.contains(h) <==> conn_writer(
                    old(self)@[id@],
                    h,
                )
            }),
    {
        proof {
            if !old(self)@.contains_key(id@) {
                assert(old(self)@.remove(id@) =~= old(self)@);
            }
        }
        match self.retire(id) {
            Some(ret) => Ok(ret),
            None => Err(TcpError::NotFound),
        }
    }

    /// Tears a server and every one of its peer sessions down: cancels the
    /// accept loop and all peer read loops, removes the entry, and owes the
    /// sink exactly one `Unbind` event. `NotFound` if the id is absent; if
    /// the id holds a client the call succeeds without touching it and
    /// without an event.
    pub fn unbind(&mut self, id: &String) -> (r: Result<Option<UnbindDone>, TcpError>)
        requires
            old(self).inv(),
        ensures
            final(self).inv(),
            final(self).next_handle == old(self).next_handle,
            !old(self)@.contains_key(id@) ==> r == Err::<Option<UnbindDone>, TcpError>(
                TcpError::NotFound,
            ) && final(self)@ == old(self)@,
            old(self)@.contains_key(id@) && old(self)@[id@] is Client ==> (r matches Ok(None)
                && final(self)@ == old(self)@),
            old(self)@.contains_key(id@) && old(self)@[id@] is Server ==> (r matches Ok(Some(d))
                && {
                &&& final(self)@ == old(self)@.remove(id@)
                &&& !final(self)@.contains_key(id@)
                &&& d.event@ == EventModel::Unbind
                &&& forall|h: u64| #[trigger] d.retired.tasks@.contains(h) <==> conn_task(
                    old(self)@[id@],
                    h,
                )
                &&& forall|h: u64| #[trigger] d.retired.writers@.contains(h) <==> conn_writer(
                    old(self)@[id@],
                    h,
                )
            }),
    {
        proof {
            lemma_map_of_contains(self.entries@, id@);
        }
        match kv_index(&self.entries, id) {
            None => Err(TcpError::NotFound),
            Some(i) => {
                proof {
                    lemma_map_of_index(self.entries@, i as int);
                }
                let is_server = match &self.entries[i].1 {
                    Connection::Server { .. } => true,
                    Connection::Client { .. } => false,
                };
                if is_server {
                    match self.retire(id) {
                        Some(ret) => Ok(
                            Some(UnbindDone { retired: ret, event: Event::Unbind }),
                        ),
                        None => {
                            proof {
                                assert(false);
                            }
                            Err(TcpError::NotFound)
                        },
                    }
                } else {
                    Ok(None)
                }
            },
        }
    }

    /// Decides one iteration of a client's read loop. Bytes become a
    /// `Message` event, byte for byte, and the loop keeps reading. A clean
    /// end-of-stream and a read error alike become a `Disconnect` event, the
    /// loop's own entry leaves the registry (so a later lookup of the id
    /// fails), and the loop stops. Cancellation from outside is not an
    /// observation: it never reaches this decision and emits nothing.
    pub fn client_read_step(&mut self, id: &String, endpoint: &String, read: ReadOutcome) -> (r:
        ReadStep)
        requires
            old(self).inv(),
            read matches ReadOutcome::Data(d) ==> d@.len() > 0,
        ensures
            final(self).inv(),
            final(self).next_handle == old(self).next_handle,
            read matches ReadOutcome::Data(d) ==> (final(self)@ == old(self)@ && r.stop == false
                && r.retired is None && r.event@ == (EventModel::Message {
                addr: endpoint@,
                data: d@,
            })),
            (read is Closed || read is Failed) ==> {
                &&& r.stop == true
                &&& r.event@ == EventModel::Disconnect(endpoint@)
                &&& final(self)@ == old(self)@.remove(id@)
                &&& !final(self)@.contains_key(id@)
                &&& (r.retired is Some) == old(self)@.contains_key(id@)
                &&& (r.retired matches Some(ret) ==> {
                    &&& forall|h: u64| #[trigger] ret.tasks@.contains(h) <==> conn_task(
                        old(self)@[id@],
                        h,
                    )
                    &&& forall|h: u64| #[trigger] ret.writers@.contains(h) <==> conn_writer(
                        old(self)@[id@],
                        h,
                    )
                })
            },
    {
        match read {
            ReadOutcome::Data(d) => ReadStep {
                event: Event::Message { addr: endpoint.clone(), data: d },
                stop: false,
                retired: None,
            },
            _ => {
                let retired = self.retire(id);
                ReadStep { event: Event::Disconnect(endpoint.clone()), stop: true, retired }
            },
        }
    }

    /// Decides what a server's accept loop does with a peer it accepted:
    /// issues the handles for the peer's write half and read loop, records
    /// the session under the peer's address, and owes the sink a `Connect`
    /// event with that address. If the id no longer holds a server (it was
    /// retired or replaced while the accept completed) nothing changes and
    /// the loop's observation is discarded. A peer at an address that is
    /// already occupied takes the session over; the previous session is
    /// returned so its resources can be released.
    pub fn accept_peer(&mut self, id: &String, peer_addr: &String) -> (r: Option<PeerStart>)
        requires
            old(self).inv(),
            old(self).next_handle <= u64::MAX - 2,
        ensures
            final(self).inv(),
            !live_server(old(self)@, id@) ==> (r is None && final(self)@ == old(self)@
                && final(self).next_handle == old(self).next_handle),
            live_server(old(self)@, id@) ==> (r matches Some(ps) && {
                &&& ps.writer == old(self).next_handle
                &&& ps.read_task == old(self).next_handle + 1
                &&& final(self).next_handle == old(self).next_handle + 2
                &&& ps.event@ == EventModel::Connect(peer_addr@)
                &&& final(self)@ == old(self)@.insert(
                    id@,
                    (ConnModel::Server {
                        accept_task: server_accept_task(old(self)@[id@]),
                        sessions: server_sessions(old(self)@[id@]).insert(
                            peer_addr@,
                            (PeerSession { writer: ps.writer, read_task: ps.read_task }),
                        ),
                    }),
                )
                &&& (ps.replaced is Some) == server_sessions(old(self)@[id@]).contains_key(
                    peer_addr@,
                )
                &&& (ps.replaced matches Some(p) ==> p == server_sessions(
                    old(self)@[id@],
                )[peer_addr@])
            }),
    {
        proof {
            lemma_map_of_contains(self.entries@, id@);
        }
        let i = match kv_index(&self.entries, id) {
            None => {
                return None;
            },
            Some(i) => i,
        };
        proof {
            lemma_map_of_index(self.entries@, i as int);
            assert(self.entries@[i as int].1.keys_ok());
        }
        match &self.entries[i].1 {
            Connection::Client { .. } => {
                return None;
            },
            Connection::Server { .. } => {},
        }
        let ghost before = self.entries@;
        let ghost old_map = self@;
        let ghost old_bound = self.next_handle;
        let writer = self.next_handle;
        let read_task = self.next_handle + 1;
        let new_sess = PeerSession { writer, read_task };
        let (key, conn) = self.entries.remove(i);
        proof {
            lemma_map_of_remove(before, i as int);
            lemma_keys_unique_remove(before, i as int);
            before.remove_ensures(i as int);
        }
        match conn {
            Connection::Client { .. } => {
                proof {
                    assert(false);
                }
                None
            },
            Connection::Server { accept_task, mut sessions } => {
                let ghost old_model = old_map[id@];
                let ghost before_sess = sessions@;
                let ghost old_sess_map = map_of(before_sess);
                proof {
                    assert(conn == before[i as int].1);
                    assert(old_model == (ConnModel::Server {
                        accept_task,
                        sessions: old_sess_map,
                    }));
                    assert(keys_unique(before_sess));
                    lemma_map_of_contains(before_sess, peer_addr@);
                }
                let replaced: Option<PeerSession> = match kv_index(&sessions, peer_addr) {
                    None => {
                        let spair = (peer_addr.clone(), new_sess);
                        proof {
                            assert(spair.0@ == peer_addr@);
                            assert(forall|x: int|
                                0 <= x < before_sess.len() ==> before_sess[x].0@ != peer_addr@);
                            lemma_keys_unique_push(before_sess, spair);
                            lemma_map_of_push(before_sess, spair);
                        }
                        sessions.push(spair);
                        None
                    },
                    Some(j) => {
                        proof {
                            lemma_map_of_index(before_sess, j as int);
                            lemma_map_of_remove(before_sess, j as int);
                            lemma_keys_unique_remove(before_sess, j as int);
                        }
                        let (skey, old_sess) = sessions.remove(j);
                        let ghost mid_sess = sessions@;
                        let spair = (skey, new_sess);
                        proof {
                            assert(skey@ == peer_addr@);
                            assert(map_of(mid_sess) == old_sess_map.remove(peer_addr@));
                            lemma_map_of_contains(mid_sess, peer_addr@);
                            assert(forall|x: int|
                                0 <= x < mid_sess.len() ==> mid_sess[x].0@ != peer_addr@);
                            lemma_keys_unique_push(mid_sess, spair);
                            lemma_map_of_push(mid_sess, spair);
                            assert(old_sess_map.remove(peer_addr@).insert(peer_addr@, new_sess)
                                =~= old_sess_map.insert(peer_addr@, new_sess));
                            assert(old_sess == before_sess[j as int].1);
                            assert(old_sess_map[peer_addr@] == old_sess);
                        }
                        sessions.push(spair);
                        Some(old_sess)
                    },
                };
                proof {
                    assert(map_of(sessions@) == old_sess_map.insert(peer_addr@, new_sess));
                    assert(keys_unique(sessions@));
                }
                let new_conn = Connection::Server { accept_task, sessions };
                let pair = (key, new_conn);
                let ghost new_model = pair.1@;
                let ghost mid_entries = self.entries@;
                proof {
                    assert(key@ == id@);
                    assert(new_model == (ConnModel::Server {
                        accept_task,
                        sessions: old_sess_map.insert(peer_addr@, new_sess),
                    }));
                    assert(map_of(mid_entries) == old_map.remove(id@));
                    lemma_map_of_contains(mid_entries, id@);
                    assert(forall|x: int|
                        0 <= x < mid_entries.len() ==> mid_entries[x].0@ != id@);
                    lemma_keys_unique_push(mid_entries, pair);
                    lemma_map_of_push(mid_entries, pair);
                }
                self.entries.push(pair);
                self.next_handle = self.next_handle + 2;
                proof {
                    assert(self@ == old_map.remove(id@).insert(id@, new_model));
                    assert(old_map.remove(id@).insert(id@, new_model) =~= old_map.insert(
                        id@,
                        new_model,
                    ));
                    let nb = self.next_handle;
                    let ns = old_sess_map.insert(peer_addr@, new_sess);
                    assert(conn_wf(old_model, old_bound));
                    assert(server_sessions(old_model) == old_sess_map);
                    assert(server_accept_task(old_model) == accept_task);
                    assert forall|a: Seq<char>| ns.contains_key(a) implies sess_wf(
                        #[trigger] ns[a],
                        accept_task,
                        nb,
                    ) by {
                        if a == peer_addr@ {
                            assert(ns[a] == new_sess);
                            assert(accept_task < old_bound);
                        } else {
                            assert(old_sess_map.contains_key(a));
                            lemma_server_sess_wf(old_model, old_bound, a);
                            assert(ns[a] == old_sess_map[a]);
                        }
                    }
                    assert forall|a: Seq<char>, b: Seq<char>|
                        #![trigger ns[a], ns[b]]
                        ns.contains_key(a) && ns.contains_key(b) && a != b implies sess_disjoint(
                        ns[a],
                        ns[b],
                    ) by {
                        if a == peer_addr@ {
                            assert(old_sess_map.contains_key(b));
                            lemma_server_sess_wf(old_model, old_bound, b);
                            assert(ns[b] == old_sess_map[b]);
                        } else if b == peer_addr@ {
                            assert(old_sess_map.contains_key(a));
                            lemma_server_sess_wf(old_model, old_bound, a);
                            assert(ns[a] == old_sess_map[a]);
                        } else {
                            assert(old_sess_map.contains_key(a));
                            assert(old_sess_map.contains_key(b));
                            lemma_server_sess_disjoint(old_model, old_bound, a, b);
                        }
                    }
                    assert(conn_wf(new_model, nb));
                    assert forall|h: u64| conn_handle(new_model, h) implies conn_handle(
                        old_model,
                        h,
                    ) || h >= old_bound by {
                        if conn_task(new_model, h) && h != accept_task {
                            let a = choose|a: Seq<char>|
                                #[trigger] ns.contains_key(a) && ns[a].read_task == h;
                            if a == peer_addr@ {
                                assert(h == read_task);
                            } else {
                                assert(old_sess_map.contains_key(a) && old_sess_map[a].read_task
                                    == h);
                                assert(sess_map_task(old_sess_map, h));
                            }
                        }
                        if conn_writer(new_model, h) {
                            let a = choose|a: Seq<char>|
                                #[trigger] ns.contains_key(a) && ns[a].writer == h;
                            if a == peer_addr@ {
                                assert(h == writer);
                            } else {
                                assert(old_sess_map.contains_key(a) && old_sess_map[a].writer
                                    == h);
                                assert(sess_map_writer(old_sess_map, h));
                            }
                        }
                    }
                    lemma_view_wf_replace(old_map, old_bound, id@, new_model, nb);
                    assert(view_wf(self@, nb));
                    assert forall|x: int|
                        0 <= x < self.entries@.len() implies (
                        #[trigger] self.entries@[x].1).keys_ok() by {
                        if x < mid_entries.len() {
                            assert(self.entries@[x] == mid_entries[x]);
                            if x < i {
                                assert(mid_entries[x] == before[x]);
                            } else {
                                assert(mid_entries[x] == before[x + 1]);
                            }
                        } else {
                            assert(self.entries@[x] == pair);
                        }
                    }
                }
                Some(
                    PeerStart {
                        writer,
                        read_task,
                        event: Event::Connect(peer_addr.clone()),
                        replaced,
                    },
                )
            },
        }
    }

    /// Decides one iteration of a peer session's read loop on a server.
    /// Bytes become a `Message` event tagged with the peer's address, byte
    /// for byte, and the loop keeps reading. A clean end-of-stream and a
    /// read error alike become a `Disconnect` event, the session leaves the
    /// server's table (eager self-removal, so a later send to this peer
    /// address fails), and the loop stops. If the server was already retired
    /// or the session already replaced, nothing changes beyond the event.
    pub fn peer_read_step(&mut self, id: &String, peer_addr: &String, read: ReadOutcome) -> (r:
        ReadStep)
        requires
            old(self).inv(),
            read matches ReadOutcome::Data(d) ==> d@.len() > 0,
        ensures
            final(self).inv(),
            final(self).next_handle == old(self).next_handle,
            read matches ReadOutcome::Data(d) ==> (final(self)@ == old(self)@ && r.stop == false
                && r.retired is None && r.event@ == (EventModel::Message {
                addr: peer_addr@,
                data: d@,
            })),
            (read is Closed || read is Failed) ==> {
                &&& r.stop == true
                &&& r.event@ == EventModel::Disconnect(peer_addr@)
                &&& (live_server(old(self)@, id@) && server_sessions(
                    old(self)@[id@],
                ).contains_key(peer_addr@)) ==> {
                    &&& final(self)@ == old(self)@.insert(
                        id@,
                        (ConnModel::Server {
                            accept_task: server_accept_task(old(self)@[id@]),
                            sessions: server_sessions(old(self)@[id@]).remove(peer_addr@),
                        }),
                    )
                    &&& r.retired matches Some(ret)
                    &&& (r.retired matches Some(ret) ==> {
                        &&& forall|h: u64| #[trigger] ret.tasks@.contains(h) <==> h
                            == server_sessions(old(self)@[id@])[peer_addr@].read_task
                        &&& forall|h: u64| #[trigger] ret.writers@.contains(h) <==> h
                            == server_sessions(old(self)@[id@])[peer_addr@].writer
                    })
                }
                &&& !(live_server(old(self)@, id@) && server_sessions(
                    old(self)@[id@],
                ).contains_key(peer_addr@)) ==> (final(self)@ == old(self)@ && r.retired is None)
            },
    {
        match read {
            ReadOutcome::Data(d) => ReadStep {
                event: Event::Message { addr: peer_addr.clone(), data: d },
                stop: false,
                retired: None,
            },
            _ => {
                proof {
                    lemma_map_of_contains(self.entries@, id@);
                }
                let i = match kv_index(&self.entries, id) {
                    None => {
                        return ReadStep {
                            event: Event::Disconnect(peer_addr.clone()),
                            stop: true,
                            retired: None,
                        };
                    },
                    Some(i) => i,
                };
                proof {
                    lemma_map_of_index(self.entries@, i as int);
                    assert(self.entries@[i as int].1.keys_ok());
                }
                let j = match &self.entries[i].1 {
                    Connection::Client { .. } => None,
                    Connection::Server { sessions, .. } => {
                        proof {
                            lemma_map_of_contains(sessions@, peer_addr@);
                        }
                        kv_index(sessions, peer_addr)
                    },
                };
                let j = match j {
                    None => {
                        return ReadStep {
                            event: Event::Disconnect(peer_addr.clone()),
                            stop: true,
                            retired: None,
                        };
                    },
                    Some(j) => j,
                };
                let ghost before = self.entries@;
                let ghost old_map = self@;
                let ghost old_bound = self.next_handle;
                let (key, conn) = self.entries.remove(i);
                proof {
                    lemma_map_of_remove(before, i as int);
                    lemma_keys_unique_remove(before, i as int);
                    before.remove_ensures(i as int);
                }
                match conn {
                    Connection::Client { .. } => {
                        proof {
                            assert(false);
                        }
                        ReadStep {
                            event: Event::Disconnect(peer_addr.clone()),
                            stop: true,
                            retired: None,
                        }
                    },
                    Connection::Server { accept_task, mut sessions } => {
                        let ghost old_model = old_map[id@];
                        let ghost before_sess = sessions@;
                        let ghost old_sess_map = map_of(before_sess);
                        proof {
                            assert(conn == before[i as int].1);
                            assert(old_model == (ConnModel::Server {
                                accept_task,
                                sessions: old_sess_map,
                            }));
                            assert(keys_unique(before_sess));
                            lemma_map_of_index(before_sess, j as int);
                            lemma_map_of_remove(before_sess, j as int);
                            lemma_keys_unique_remove(before_sess, j as int);
                        }
                        let (_skey, old_sess) = sessions.remove(j);
                        proof {
                            assert(old_sess == before_sess[j as int].1);
                            assert(old_sess_map[peer_addr@] == old_sess);
                            assert(map_of(sessions@) == old_sess_map.remove(peer_addr@));
                        }
                        let new_conn = Connection::Server { accept_task, sessions };
                        let pair = (key, new_conn);
                        let ghost new_model = pair.1@;
                        let ghost mid_entries = self.entries@;
                        proof {
                            assert(key@ == id@);
                            assert(new_model == (ConnModel::Server {
                                accept_task,
                                sessions: old_sess_map.remove(peer_addr@),
                            }));
                            assert(map_of(mid_entries) == old_map.remove(id@));
                            lemma_map_of_contains(mid_entries, id@);
                            assert(forall|x: int|
                                0 <= x < mid_entries.len() ==> mid_entries[x].0@ != id@);
                            lemma_keys_unique_push(mid_entries, pair);
                            lemma_map_of_push(mid_entries, pair);
                        }
                        self.entries.push(pair);
                        proof {
                            assert(self@ == old_map.remove(id@).insert(id@, new_model));
                            assert(old_map.remove(id@).insert(id@, new_model) =~= old_map.insert(
                                id@,
                                new_model,
                            ));
                            let ns = old_sess_map.remove(peer_addr@);
                            assert(conn_wf(old_model, old_bound));
                            assert(server_sessions(old_model) == old_sess_map);
                            assert(server_accept_task(old_model) == accept_task);
                            assert forall|a: Seq<char>| ns.contains_key(a) implies sess_wf(
                                #[trigger] ns[a],
                                accept_task,
                                old_bound,
                            ) by {
                                assert(old_sess_map.contains_key(a));
                                lemma_server_sess_wf(old_model, old_bound, a);
                                assert(ns[a] == old_sess_map[a]);
                            }
                            assert forall|a: Seq<char>, b: Seq<char>|
                                #![trigger ns[a], ns[b]]
                                ns.contains_key(a) && ns.contains_key(b) && a
                                    != b implies sess_disjoint(ns[a], ns[b]) by {
                                assert(old_sess_map.contains_key(a));
                                assert(old_sess_map.contains_key(b));
                                lemma_server_sess_disjoint(old_model, old_bound, a, b);
                            }
                            assert(conn_wf(new_model, old_bound));
                            assert forall|h: u64| conn_handle(new_model, h) implies conn_handle(
                                old_model,
                                h,
                            ) || h >= old_bound by {
                                if conn_task(new_model, h) && h != accept_task {
                                    let a = choose|a: Seq<char>|
                                        #[trigger] ns.contains_key(a) && ns[a].read_task == h;
                                    assert(old_sess_map.contains_key(a)
                                        && old_sess_map[a].read_task == h);
                                    assert(sess_map_task(old_sess_map, h));
                                }
                                if conn_writer(new_model, h) {
                                    let a = choose|a: Seq<char>|
                                        #[trigger] ns.contains_key(a) && ns[a].writer == h;
                                    assert(old_sess_map.contains_key(a) && old_sess_map[a].writer
                                        == h);
                                    assert(sess_map_writer(old_sess_map, h));
                                }
                            }
                            lemma_view_wf_replace(
                                old_map,
                                old_bound,
                                id@,
                                new_model,
                                old_bound,
                            );
                            assert(view_wf(self@, old_bound));
                            assert forall|x: int|
                                0 <= x < self.entries@.len() implies (
                            #[trigger] self.entries@[x].1).keys_ok() by {
                                if x < mid_entries.len() {
                                    assert(self.entries@[x] == mid_entries[x]);
                                    if x < i {
                                        assert(mid_entries[x] == before[x]);
                                    } else {
                                        assert(mid_entries[x] == before[x + 1]);
                                    }
                                } else {
                                    assert(self.entries@[x] == pair);
                                }
                            }
                        }
                        let retired = retired_pair(old_sess.writer, old_sess.read_task);
                        ReadStep {
                            event: Event::Disconnect(peer_addr.clone()),
                            stop: true,
                            retired: Some(retired),
                        }
                    },
                }
            },
        }
    }
}

/// Collects the handles of one write half and one read-loop task.
fn retired_pair(writer: u64, read_task: u64) -> (r: Retired)
    ensures
        forall|h: u64| #[trigger] r.tasks@.contains(h) <==> h == read_task,
        forall|h: u64| #[trigger] r.writers@.contains(h) <==> h == writer,
{
    let mut tasks: Vec<u64> = Vec::new();
    tasks.push(read_task);
    let mut writers: Vec<u64> = Vec::new();
    writers.push(writer);
    proof {
        assert(tasks@[0] == read_task);
        assert(tasks@.contains(read_task));
        assert forall|h: u64| #[trigger] tasks@.contains(h) implies h == read_task by {
            let w = choose|w: int| 0 <= w < tasks@.len() && tasks@[w] == h;
        }
        assert(writers@[0] == writer);
        assert(writers@.contains(writer));
        assert forall|h: u64| #[trigger] writers@.contains(h) implies h == writer by {
            let w = choose|w: int| 0 <= w < writers@.len() && writers@[w] == h;
        }
    }
    Retired { tasks, writers }
}

/// Collects every handle of a connection that is leaving the registry.
fn retired_of(conn: Connection) -> (r: Retired)
    requires
        conn.keys_ok(),
    ensures
        forall|h: u64| #[trigger] r.tasks@.contains(h) <==> conn_task(conn@, h),
        forall|h: u64| #[trigger] r.writers@.contains(h) <==> conn_writer(conn@, h),
{
    match conn {
        Connection::Client { writer, read_task, .. } => retired_pair(writer, read_task),
        Connection::Server { accept_task, sessions } => {
            let ghost model = ConnModel::Server { accept_task, sessions: map_of(sessions@) };
            let mut tasks: Vec<u64> = Vec::new();
            let mut writers: Vec<u64> = Vec::new();
            tasks.push(accept_task);
            proof {
                assert(tasks@[0] == accept_task);
                assert(tasks@.contains(accept_task));
                assert forall|h: u64| #[trigger] tasks@.contains(h) implies h == accept_task by {
                    let w = choose|w: int| 0 <= w < tasks@.len() && tasks@[w] == h;
                }
            }
            let mut j: usize = 0;
            while j < sessions.len()
                invariant
                    j <= sessions@.len(),
                    forall|h: u64| #[trigger] tasks@.contains(h) <==> (h == accept_task
                        || exists|x: int|
                        0 <= x < j && (#[trigger] sessions@[x].1).read_task == h),
                    forall|h: u64| #[trigger] writers@.contains(h) <==> exists|x: int|
                        0 <= x < j && (#[trigger] sessions@[x].1).writer == h,
                decreases sessions@.len() - j,
            {
                let s = sessions[j].1;
                let ghost tasks0 = tasks@;
                let ghost writers0 = writers@;
                tasks.push(s.read_task);
                writers.push(s.writer);
                proof {
                    assert forall|h: u64| #[trigger] tasks@.contains(h) implies (h == accept_task
                        || exists|x: int|
                        0 <= x < j + 1 && (#[trigger] sessions@[x].1).read_task == h) by {
                        let w = choose|w: int| 0 <= w < tasks@.len() && tasks@[w] == h;
                        if w < tasks0.len() {
                            assert(tasks0.contains(h));
                        } else {
                            assert(sessions@[j as int].1.read_task == h);
                        }
                    }
                    assert forall|h: u64|
                        (h == accept_task || exists|x: int|
                            0 <= x < j + 1 && (#[trigger] sessions@[x].1).read_task
                                == h) implies #[trigger] tasks@.contains(h) by {
                        if h == accept_task {
                            assert(tasks0.contains(h));
                            assert(tasks@[choose|w: int|
                                0 <= w < tasks0.len() && tasks0[w] == h] == h);
                        } else {
                            let x = choose|x: int|
                                0 <= x < j + 1 && (#[trigger] sessions@[x].1).read_task == h;
                            if x < j {
                                assert(tasks0.contains(h));
                                assert(tasks@[choose|w: int|
                                    0 <= w < tasks0.len() && tasks0[w] == h] == h);
                            } else {
                                assert(tasks@[tasks@.len() - 1] == h);
                            }
                        }
                    }
                    assert forall|h: u64| #[trigger] writers@.contains(h) implies exists|x: int|
                        0 <= x < j + 1 && (#[trigger] sessions@[x].1).writer == h by {
                        let w = choose|w: int| 0 <= w < writers@.len() && writers@[w] == h;
                        if w < writers0.len() {
                            assert(writers0.contains(h));
                        } else {
                            assert(sessions@[j as int].1.writer == h);
                        }
                    }
                    assert forall|h: u64|
                        (exists|x: int|
                            0 <= x < j + 1 && (#[trigger] sessions@[x].1).writer
                                == h) implies #[trigger] writers@.contains(h) by {
                        let x = choose|x: int|
                            0 <= x < j + 1 && (#[trigger] sessions@[x].1).writer == h;
                        if x < j {
                            assert(writers0.contains(h));
                            assert(writers@[choose|w: int|
                                0 <= w < writers0.len() && writers0[w] == h] == h);
                        } else {
                            assert(writers@[writers@.len() - 1] == h);
                        }
                    }
                }
                j = j + 1;
            }
            proof {
                assert forall|h: u64| #[trigger] tasks@.contains(h) implies conn_task(
                    model,
                    h,
                ) by {
                    if h != accept_task {
                        assert(exists|x: int|
                            0 <= x < sessions@.len() && (#[trigger] sessions@[x].1).read_task
                                == h);
                        let x = choose|x: int|
                            0 <= x < sessions@.len() && (#[trigger] sessions@[x].1).read_task == h;
                        lemma_map_of_index(sessions@, x);
                        let ghost a = sessions@[x].0@;
                        assert(map_of(sessions@).contains_key(a));
                        assert(map_of(sessions@)[a].read_task == h);
                        assert(exists|b: Seq<char>|
                            #[trigger] map_of(sessions@).contains_key(b) && map_of(
                                sessions@,
                            )[b].read_task == h);
                        assert(conn_task(model, h));
                    }
                }
                assert forall|h: u64| #[trigger] conn_task(model, h) implies tasks@.contains(
                    h,
                ) by {
                    if h != accept_task {
                        let a = choose|a: Seq<char>|
                            #[trigger] map_of(sessions@).contains_key(a) && map_of(
                                sessions@,
                            )[a].read_task == h;
                        lemma_map_of_contains(sessions@, a);
                        let x = choose|x: int| 0 <= x < sessions@.len() && sessions@[x].0@ == a;
                        lemma_map_of_index(sessions@, x);
                        assert(sessions@[x].1.read_task == h);
                    }
                }
                assert forall|h: u64| #[trigger] writers@.contains(h) implies conn_writer(
                    model,
                    h,
                ) by {
                    let x = choose|x: int|
                        0 <= x < sessions@.len() && (#[trigger] sessions@[x].1).writer == h;
                    lemma_map_of_index(sessions@, x);
                    assert(map_of(sessions@).contains_key(sessions@[x].0@));
                    assert(map_of(sessions@)[sessions@[x].0@].writer == h);
                }
                assert forall|h: u64| #[trigger] conn_writer(model, h) implies writers@.contains(
                    h,
                ) by {
                    let a = choose|a: Seq<char>|
                        #[trigger] map_of(sessions@).contains_key(a) && map_of(
                            sessions@,
                        )[a].writer == h;
                    lemma_map_of_contains(sessions@, a);
                    let x = choose|x: int| 0 <= x < sessions@.len() && sessions@[x].0@ == a;
                    lemma_map_of_index(sessions@, x);
                    assert(sessions@[x].1.writer == h);
                }
            }
            Retired { tasks, writers }
        },
    }
}

} // verus!
