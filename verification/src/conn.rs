//! Connections and their handles.
//!
//! A connection never holds a socket or a task itself: it holds numeric
//! handles that the registry issued for them. The runtime that embeds the
//! registry keeps the real write halves and task join handles keyed by these
//! numbers, writes where a send is routed, aborts the tasks a teardown names,
//! and drops the writers it names.

use vstd::prelude::*;
use crate::kv::{keys_unique, map_of};

verus! {

/// One accepted inbound connection on a server: the handle of its write half
/// and the handle of its dedicated read-loop task.
#[derive(Clone, Copy, Debug, PartialEq, Eq, Structural)]
pub struct PeerSession {
    pub writer: u64,
    pub read_task: u64,
}

impl View for PeerSession {
    type V = PeerSession;

    open spec fn view(&self) -> PeerSession {
        *self
    }
}

/// A live endpoint under one id: an outbound client or a listening server.
///
/// A client holds the handle of its write half, the remote endpoint it was
/// connected to, and the handle of its background read loop. A server holds
/// the handle of its accept loop and its session table, keyed by peer address.
pub enum Connection {
    Client { writer: u64, endpoint: String, read_task: u64 },
    Server { accept_task: u64, sessions: Vec<(String, PeerSession)> },
}

/// The mathematical shape of a [`Connection`]: the endpoint as a character
/// sequence and the session table as a map from peer address to session.
pub enum ConnModel {
    Client { writer: u64, endpoint: Seq<char>, read_task: u64 },
    Server { accept_task: u64, sessions: Map<Seq<char>, PeerSession> },
}

impl View for Connection {
    type V = ConnModel;

    open spec fn view(&self) -> ConnModel {
        match *self {
            Connection::Client { writer, ref endpoint, read_task } => ConnModel::Client {
                writer,
                endpoint: endpoint@,
                read_task,
            },
            Connection::Server { accept_task, ref sessions } => ConnModel::Server {
                accept_task,
                sessions: map_of(sessions@),
            },
        }
    }
}

impl Connection {
    /// The session table of a server connection has unique peer addresses.
    pub open spec fn keys_ok(self) -> bool {
        match self {
            Connection::Server { sessions, .. } => keys_unique(sessions@),
            Connection::Client { .. } => true,
        }
    }
}

/// The session table of a server model, for contracts that read it.
pub open spec fn server_sessions(c: ConnModel) -> Map<Seq<char>, PeerSession>
    recommends
        c is Server,
{
    match c {
        ConnModel::Server { sessions, .. } => sessions,
        ConnModel::Client { .. } => Map::empty(),
    }
}

/// The accept-loop task handle of a server model.
pub open spec fn server_accept_task(c: ConnModel) -> u64
    recommends
        c is Server,
{
    match c {
        ConnModel::Server { accept_task, .. } => accept_task,
        ConnModel::Client { .. } => 0,
    }
}

/// The write-half handle of a client model.
pub open spec fn client_writer(c: ConnModel) -> u64
    recommends
        c is Client,
{
    match c {
        ConnModel::Client { writer, .. } => writer,
        ConnModel::Server { .. } => 0,
    }
}

/// Some session of the table has `h` as its read-loop task handle.
pub open spec fn sess_map_task(m: Map<Seq<char>, PeerSession>, h: u64) -> bool {
    exists|a: Seq<char>| #[trigger] m.contains_key(a) && m[a].read_task == h
}

/// Some session of the table has `h` as its writer handle.
pub open spec fn sess_map_writer(m: Map<Seq<char>, PeerSession>, h: u64) -> bool {
    exists|a: Seq<char>| #[trigger] m.contains_key(a) && m[a].writer == h
}

/// `h` is the handle of a background task of the connection: a client's read
/// loop, a server's accept loop, or a peer session's read loop.
pub open spec fn conn_task(c: ConnModel, h: u64) -> bool {
    match c {
        ConnModel::Client { read_task, .. } => h == read_task,
        ConnModel::Server { accept_task, sessions } => h == accept_task || sess_map_task(
            sessions,
            h,
        ),
    }
}

/// `h` is the handle of a write half owned by the connection: a client's
/// writer or a peer session's writer.
pub open spec fn conn_writer(c: ConnModel, h: u64) -> bool {
    match c {
        ConnModel::Client { writer, .. } => h == writer,
        ConnModel::Server { sessions, .. } => sess_map_writer(sessions, h),
    }
}

/// `h` is some handle of the connection, task or writer.
pub open spec fn conn_handle(c: ConnModel, h: u64) -> bool {
    conn_task(c, h) || conn_writer(c, h)
}

/// The handles of one peer session are distinct from each other and from the
/// server's accept task, and lie below the bound.
pub open spec fn sess_wf(p: PeerSession, accept_task: u64, bound: u64) -> bool {
    &&& p.writer < bound
    &&& p.read_task < bound
    &&& p.writer != p.read_task
    &&& p.writer != accept_task
    &&& p.read_task != accept_task
}

/// Two peer sessions share no handle.
pub open spec fn sess_disjoint(p: PeerSession, q: PeerSession) -> bool {
    &&& p.writer != q.writer
    &&& p.writer != q.read_task
    &&& p.read_task != q.writer
    &&& p.read_task != q.read_task
}

/// The connection's handles are pairwise distinct and all lie below `bound`,
/// the registry's handle generator.
pub open spec fn conn_wf(c: ConnModel, bound: u64) -> bool {
    match c {
        ConnModel::Client { writer, read_task, .. } => {
            &&& writer < bound
            &&& read_task < bound
            &&& writer != read_task
        },
        ConnModel::Server { accept_task, sessions } => {
            &&& accept_task < bound
            &&& (forall|a: Seq<char>|
                sessions.contains_key(a) ==> sess_wf(#[trigger] sessions[a], accept_task, bound))
            &&& (forall|a: Seq<char>, b: Seq<char>|
                #![trigger sessions[a], sessions[b]]
                sessions.contains_key(a) && sessions.contains_key(b) && a != b ==> sess_disjoint(
                    sessions[a],
                    sessions[b],
                ))
        },
    }
}

/// In a well-formed server, each session is well-formed.
pub proof fn lemma_server_sess_wf(c: ConnModel, bound: u64, a: Seq<char>)
    requires
        conn_wf(c, bound),
        c is Server,
        server_sessions(c).contains_key(a),
    ensures
        sess_wf(server_sessions(c)[a], server_accept_task(c), bound),
{
}

/// In a well-formed server, two sessions at distinct addresses share no
/// handle.
pub proof fn lemma_server_sess_disjoint(c: ConnModel, bound: u64, a: Seq<char>, b: Seq<char>)
    requires
        conn_wf(c, bound),
        c is Server,
        server_sessions(c).contains_key(a),
        server_sessions(c).contains_key(b),
        a != b,
    ensures
        sess_disjoint(server_sessions(c)[a], server_sessions(c)[b]),
{
}

/// Every handle of a well-formed connection lies below the bound.
pub proof fn lemma_conn_handle_below_bound(c: ConnModel, bound: u64, h: u64)
    requires
        conn_wf(c, bound),
        conn_handle(c, h),
    ensures
        h < bound,
{
}

/// A connection well-formed at one bound is well-formed at any larger bound.
pub proof fn lemma_conn_wf_bound_grows(c: ConnModel, bound: u64, larger: u64)
    requires
        conn_wf(c, bound),
        bound <= larger,
    ensures
        conn_wf(c, larger),
{
}

} // verus!
