use vstd::prelude::*;

use crate::errors::SendError;
use crate::json::Json;

verus! {

/// One message handed to the engine layer: a text frame, split into the
/// packet header and the JSON body the transport appends to it, or one
/// binary attachment frame.
#[derive(Debug)]
pub enum EngineFrame {
    Text { header: String, body: Option<Json> },
    Binary(Vec<u8>),
}

/// The per-connection emit queue of the engine layer: fixed capacity,
/// synchronous and non-blocking. A full queue rejects the frame; nothing
/// already queued is ever lost. The transport side takes frames out in
/// order.
#[derive(Debug)]
pub struct EngineQueue {
    frames: Vec<EngineFrame>,
    capacity: usize,
    closed: bool,
}

impl EngineQueue {
    /// The queued frames, oldest first.
    pub closed spec fn spec_frames(&self) -> Seq<EngineFrame> {
        self.frames@
    }

    pub closed spec fn spec_capacity(&self) -> int {
        self.capacity as int
    }

    pub closed spec fn spec_closed(&self) -> bool {
        self.closed
    }

    pub open spec fn wf(&self) -> bool {
        self.spec_frames().len() <= self.spec_capacity()
    }

    pub fn new(capacity: usize) -> (q: Self)
        ensures
            q.wf(),
            q.spec_frames() == Seq::<EngineFrame>::empty(),
            q.spec_capacity() == capacity as int,
            !q.spec_closed(),
    {
        EngineQueue { frames: Vec::new(), capacity, closed: false }
    }

    pub fn len(&self) -> (n: usize)
        ensures
            n as int == self.spec_frames().len(),
    {
        self.frames.len()
    }

    pub fn capacity(&self) -> (n: usize)
        ensures
            n as int == self.spec_capacity(),
    {
        self.capacity
    }

    pub fn is_closed(&self) -> (r: bool)
        ensures
            r == self.spec_closed(),
    {
        self.closed
    }

    /// Appends one frame, unless the connection is closed or the queue is at
    /// capacity; a rejected frame changes nothing.
    pub fn emit(&mut self, frame: EngineFrame) -> (r: Result<(), SendError>)
        requires
            old(self).wf(),
        ensures
            final(self).wf(),
            final(self).spec_capacity() == old(self).spec_capacity(),
            final(self).spec_closed() == old(self).spec_closed(),
            match r {
                Ok(()) => {
                    &&& !old(self).spec_closed()
                    &&& old(self).spec_frames().len() < old(self).spec_capacity()
                    &&& final(self).spec_frames() == old(self).spec_frames().push(frame)
                },
                Err(SendError::SocketClosed) => old(self).spec_closed() && *final(self)
                    == *old(self),
                Err(SendError::InternalChannelFull) => {
                    &&& !old(self).spec_closed()
                    &&& old(self).spec_frames().len() == old(self).spec_capacity()
                    &&& *final(self) == *old(self)
                },
                Err(SendError::Serialize) => false,
            },
    {
        if self.closed {
            return Err(SendError::SocketClosed);
        }
        if self.frames.len() >= self.capacity {
            return Err(SendError::InternalChannelFull);
        }
        self.frames.push(frame);
        Ok(())
    }

    /// The transport side takes every queued frame, in order.
    pub fn drain(&mut self) -> (taken: Vec<EngineFrame>)
        requires
            old(self).wf(),
        ensures
            final(self).wf(),
            taken@ == old(self).spec_frames(),
            final(self).spec_frames() == Seq::<EngineFrame>::empty(),
            final(self).spec_capacity() == old(self).spec_capacity(),
            final(self).spec_closed() == old(self).spec_closed(),
    {
        let mut taken: Vec<EngineFrame> = Vec::new();
        core::mem::swap(&mut taken, &mut self.frames);
        taken
    }

    /// Marks the connection closed; later emits are rejected.
    pub fn close(&mut self)
        requires
            old(self).wf(),
        ensures
            final(self).wf(),
            final(self).spec_closed(),
            final(self).spec_frames() == old(self).spec_frames(),
            final(self).spec_capacity() == old(self).spec_capacity(),
    {
        self.closed = true;
    }
}

} // verus!
