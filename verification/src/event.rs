//! Events owed to the event sink.

use vstd::prelude::*;

verus! {

/// A lifecycle notification for the event sink, always delivered together with
/// the id of the connection it concerns. Delivery is one-way and best-effort:
/// the registry decides which event is owed, the runtime pushes it to the sink
/// and ignores delivery failures.
#[derive(Clone, Debug, PartialEq, Eq)]
pub enum Event {
    /// A listening socket was opened on the given endpoint.
    Bind(String),
    /// A connection was established: the client's remote endpoint, or the
    /// address of a peer a server accepted.
    Connect(String),
    /// The named endpoint or peer reached end-of-stream.
    Disconnect(String),
    /// Bytes arrived from the named endpoint or peer.
    Message { addr: String, data: Vec<u8> },
    /// A listening socket and all its peer sessions were torn down.
    Unbind,
}

/// The mathematical shape of an [`Event`]: strings as character sequences,
/// payload bytes as a byte sequence.
pub enum EventModel {
    Bind(Seq<char>),
    Connect(Seq<char>),
    Disconnect(Seq<char>),
    Message { addr: Seq<char>, data: Seq<u8> },
    Unbind,
}

impl View for Event {
    type V = EventModel;

    open spec fn view(&self) -> EventModel {
        match *self {
            Event::Bind(ref e) => EventModel::Bind(e@),
            Event::Connect(ref a) => EventModel::Connect(a@),
            Event::Disconnect(ref a) => EventModel::Disconnect(a@),
            Event::Message { ref addr, ref data } => EventModel::Message {
                addr: addr@,
                data: data@,
            },
            Event::Unbind => EventModel::Unbind,
        }
    }
}

} // verus!
