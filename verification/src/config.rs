use vstd::prelude::*;

verus! {

/// Configuration recognized by the core, shared by every socket of a server.
#[derive(Debug, Clone, Copy, PartialEq, Eq, Structural)]
pub struct SocketIoConfig {
    /// Default wait for an acknowledgement, in milliseconds.
    pub ack_timeout_ms: u64,
    /// Maximum delay to complete the namespace connect handshake, in milliseconds.
    pub connect_timeout_ms: u64,
    /// Capacity of the per-connection emit queue.
    pub max_buffer_size: usize,
}

impl Default for SocketIoConfig {
    fn default() -> (c: Self)
        ensures
            c.ack_timeout_ms == 5000,
            c.connect_timeout_ms == 45000,
            c.max_buffer_size == 128,
    {
        SocketIoConfig { ack_timeout_ms: 5000, connect_timeout_ms: 45000, max_buffer_size: 128 }
    }
}

} // verus!
