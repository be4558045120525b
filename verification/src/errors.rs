use vstd::prelude::*;

verus! {

/// Failure of a fire-and-forget emit.
#[derive(Debug, Clone, Copy, PartialEq, Eq, Structural)]
pub enum SendError {
    /// The data could not be serialized to JSON.
    Serialize,
    /// The per-connection emit queue is full.
    InternalChannelFull,
    /// The socket was already closed.
    SocketClosed,
}

/// Failure of an emit that waits for an acknowledgement.
#[derive(Debug, Clone, Copy, PartialEq, Eq, Structural)]
pub enum AckError {
    /// The data could not be serialized to JSON.
    Serialize,
    /// The acknowledgement payload could not be decoded as the expected type.
    Decode,
    /// The acknowledgement timed out.
    Timeout,
    /// The socket closed before the acknowledgement arrived.
    SocketClosed,
    /// The packet could not be sent in the first place.
    Send(SendError),
}

/// Failure of an adapter operation. The local adapter never fails; a
/// distributed adapter surfaces transport failures towards peer nodes.
#[derive(Debug, Clone, Copy, PartialEq, Eq, Structural)]
pub enum AdapterError {
    Transport,
}

/// Failure of a server-initiated disconnect.
#[derive(Debug, Clone, Copy, PartialEq, Eq, Structural)]
pub enum DisconnectError {
    /// The best-effort disconnect packet could not be queued; the close
    /// itself still proceeded.
    InternalChannelFull,
    Adapter(AdapterError),
}

/// Protocol-level failure of inbound dispatch; it closes the connection.
#[derive(Debug, Clone, Copy, PartialEq, Eq, Structural)]
pub enum ProtocolError {
    /// A packet variant that is unreachable on an established socket.
    InvalidPacket,
    /// A non-binary frame arrived while binary attachments were expected, a
    /// malformed header, or a placeholder index out of range.
    PacketParsing,
}

} // verus!
