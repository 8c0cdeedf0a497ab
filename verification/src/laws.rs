//! Laws the registry keeps, stated over the same views and spec functions the
//! operations' contracts use.

use vstd::prelude::*;
use crate::conn::{
    client_writer, conn_handle, conn_wf, conn_task, lemma_conn_handle_below_bound,
    lemma_server_sess_disjoint, server_accept_task, server_sessions, sess_map_task, ConnModel,
};
use crate::errors::TcpError;
use crate::registry::{live_server, lookup_spec, send_route_spec, ConnKind, Registry};

verus! {

/// After a connection is registered under an id, a lookup of that id
/// succeeds; after the id is retired, a lookup of it reports `NotFound`.
pub proof fn lemma_lookup_after_register_and_retire(
    m: Map<Seq<char>, ConnModel>,
    id: Seq<char>,
    c: ConnModel,
)
    ensures
        lookup_spec(m.insert(id, c), id) is Ok,
        lookup_spec(m.remove(id), id) == Err::<ConnKind, TcpError>(TcpError::NotFound),
{
}

/// A send routed to a client connection reaches the client's writer whether
/// or not a peer address is supplied: the address is ignored, never rejected.
pub proof fn lemma_send_to_client_ignores_addr(
    m: Map<Seq<char>, ConnModel>,
    id: Seq<char>,
    addr: Option<Seq<char>>,
)
    requires
        m.contains_key(id),
        m[id] is Client,
    ensures
        send_route_spec(m, id, addr) == Ok::<u64, TcpError>(client_writer(m[id])),
        send_route_spec(m, id, addr) == send_route_spec(m, id, None),
{
}

/// Every handle of a registered connection lies below the registry's handle
/// generator, so the handles of a connection retired now can never collide
/// with handles issued by a later registration, which are taken at the
/// generator's value and above.
pub proof fn lemma_live_handles_below_generator(reg: Registry, id: Seq<char>, h: u64)
    requires
        reg.inv(),
        reg@.contains_key(id),
        conn_handle(reg@[id], h),
    ensures
        h < reg.next_handle,
{
    assert(conn_wf(reg@[id], reg.next_handle));
    lemma_conn_handle_below_bound(reg@[id], reg.next_handle, h);
}

/// Replacing an id retires the old connection completely: no handle of the
/// connection retired from a well-formed registry equals a handle the
/// replacing registration issues, so cancelling the old tasks can never touch
/// the new connection.
pub proof fn lemma_replacement_handles_fresh(reg: Registry, id: Seq<char>, h: u64, issued: u64)
    requires
        reg.inv(),
        reg@.contains_key(id),
        conn_handle(reg@[id], h),
        issued >= reg.next_handle,
    ensures
        h != issued,
{
    lemma_live_handles_below_generator(reg, id, h);
}

/// With two peers at distinct addresses under one server, a send routed to
/// the first address reaches the first peer's writer, and that writer is no
/// handle of the second peer: the bytes can only go to the peer that was
/// named.
pub proof fn lemma_send_reaches_named_peer(
    reg: Registry,
    id: Seq<char>,
    a: Seq<char>,
    b: Seq<char>,
)
    requires
        reg.inv(),
        live_server(reg@, id),
        server_sessions(reg@[id]).contains_key(a),
        server_sessions(reg@[id]).contains_key(b),
        a != b,
    ensures
        send_route_spec(reg@, id, Some(a)) == Ok::<u64, TcpError>(
            server_sessions(reg@[id])[a].writer,
        ),
        server_sessions(reg@[id])[a].writer != server_sessions(reg@[id])[b].writer,
        server_sessions(reg@[id])[a].writer != server_sessions(reg@[id])[b].read_task,
{
    assert(conn_wf(reg@[id], reg.next_handle));
    lemma_server_sess_disjoint(reg@[id], reg.next_handle, a, b);
}

/// Tearing a server down cancels the accept loop and every peer's read loop:
/// the accept task and each session's read task are among the tasks of the
/// connection, which is exactly what the teardown names for cancellation.
pub proof fn lemma_unbind_cancels_peer_read_loops(c: ConnModel, a: Seq<char>)
    requires
        c is Server,
        server_sessions(c).contains_key(a),
    ensures
        conn_task(c, server_sessions(c)[a].read_task),
        conn_task(c, server_accept_task(c)),
{
    assert(server_sessions(c).contains_key(a) && server_sessions(c)[a].read_task
        == server_sessions(c)[a].read_task);
    assert(sess_map_task(server_sessions(c), server_sessions(c)[a].read_task));
}

/// After a server is torn down, a send to any former peer address under its
/// id reports the id absent.
pub proof fn lemma_send_after_unbind_not_found(
    m: Map<Seq<char>, ConnModel>,
    id: Seq<char>,
    addr: Option<Seq<char>>,
)
    ensures
        send_route_spec(m.remove(id), id, addr) == Err::<u64, TcpError>(TcpError::NotFound),
{
}

} // verus!
