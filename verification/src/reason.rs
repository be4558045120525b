use vstd::prelude::*;

verus! {

/// All the possible reasons for a socket to be disconnected from a namespace.
#[derive(Debug, Clone, Copy, PartialEq, Eq, Structural)]
pub enum DisconnectReason {
    /// The client gracefully closed the connection.
    TransportClose,
    /// The client sent multiple polling requests at the same time.
    MultipleHttpPollingError,
    /// The client sent a bad request / the packet could not be parsed correctly.
    PacketParsingError,
    /// The connection was abruptly closed.
    TransportError,
    /// The client did not send a heartbeat in time.
    HeartbeatTimeout,
    /// The client manually disconnected the socket from the namespace.
    ClientNSDisconnect,
    /// The socket was forcefully disconnected from the namespace by the server.
    ServerNSDisconnect,
    /// The server is being closed.
    ClosingServer,
}

/// The close reasons that the engine layer reports for a transport connection.
/// The engine layer itself lives outside this library; its reasons are carried
/// in as plain values of this enum.
#[derive(Debug, Clone, Copy, PartialEq, Eq, Structural)]
pub enum EngineCloseReason {
    TransportClose,
    MultipleHttpPollingError,
    PacketParsingError,
    TransportError,
    HeartbeatTimeout,
    ClosingServer,
}

/// The namespace-level disconnect reason that an engine-level close maps to.
pub open spec fn reason_of_engine(e: EngineCloseReason) -> DisconnectReason {
    match e {
        EngineCloseReason::TransportClose => DisconnectReason::TransportClose,
        EngineCloseReason::MultipleHttpPollingError => DisconnectReason::MultipleHttpPollingError,
        EngineCloseReason::PacketParsingError => DisconnectReason::PacketParsingError,
        EngineCloseReason::TransportError => DisconnectReason::TransportError,
        EngineCloseReason::HeartbeatTimeout => DisconnectReason::HeartbeatTimeout,
        EngineCloseReason::ClosingServer => DisconnectReason::ClosingServer,
    }
}

impl From<EngineCloseReason> for DisconnectReason {
    fn from(reason: EngineCloseReason) -> (r: Self) {
        match reason {
            EngineCloseReason::TransportClose => DisconnectReason::TransportClose,
            EngineCloseReason::MultipleHttpPollingError => {
                DisconnectReason::MultipleHttpPollingError
            },
            EngineCloseReason::PacketParsingError => DisconnectReason::PacketParsingError,
            EngineCloseReason::TransportError => DisconnectReason::TransportError,
            EngineCloseReason::HeartbeatTimeout => DisconnectReason::HeartbeatTimeout,
            EngineCloseReason::ClosingServer => DisconnectReason::ClosingServer,
        }
    }
}

impl vstd::std_specs::convert::FromSpecImpl<EngineCloseReason> for DisconnectReason {
    open spec fn obeys_from_spec() -> bool {
        true
    }

    open spec fn from_spec(e: EngineCloseReason) -> DisconnectReason {
        reason_of_engine(e)
    }
}

/// The human-readable description of each disconnect reason.
pub open spec fn reason_message(r: DisconnectReason) -> Seq<char> {
    match r {
        DisconnectReason::TransportClose => "client gracefully closed the connection"@,
        DisconnectReason::MultipleHttpPollingError => (
        "client sent multiple polling requests at the same time"@),
        DisconnectReason::PacketParsingError => (
        "client sent a bad request / the packet could not be parsed"@),
        DisconnectReason::TransportError => "The connection was abruptly closed"@,
        DisconnectReason::HeartbeatTimeout => "client did not send a PONG packet in time"@,
        DisconnectReason::ClientNSDisconnect => (
        "client has manually disconnected the socket from the namespace"@),
        DisconnectReason::ServerNSDisconnect => (
        "socket was forcefully disconnected from the namespace"@),
        DisconnectReason::ClosingServer => "server is being closed"@,
    }
}

impl DisconnectReason {
    /// A human-readable description of the reason.
    pub fn message(&self) -> (r: String)
        ensures
            r@ == reason_message(*self),
    {
        match self {
            DisconnectReason::TransportClose => String::from_str(
                "client gracefully closed the connection",
            ),
            DisconnectReason::MultipleHttpPollingError => String::from_str(
                "client sent multiple polling requests at the same time",
            ),
            DisconnectReason::PacketParsingError => String::from_str(
                "client sent a bad request / the packet could not be parsed",
            ),
            DisconnectReason::TransportError => String::from_str(
                "The connection was abruptly closed",
            ),
            DisconnectReason::HeartbeatTimeout => String::from_str(
                "client did not send a PONG packet in time",
            ),
            DisconnectReason::ClientNSDisconnect => String::from_str(
                "client has manually disconnected the socket from the namespace",
            ),
            DisconnectReason::ServerNSDisconnect => String::from_str(
                "socket was forcefully disconnected from the namespace",
            ),
            DisconnectReason::ClosingServer => String::from_str("server is being closed"),
        }
    }
}

} // verus!
