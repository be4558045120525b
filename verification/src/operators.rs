use vstd::prelude::*;

use crate::adapter::{lists_rooms_of, BroadcastOptions, Rooms};
use crate::errors::{AdapterError, SendError};
use crate::json::{placeholders_valid, Json};
use crate::packet::{body_matches, header_chars_parts, Packet};
use crate::reason::DisconnectReason;
use crate::socket::{
    close_effects_ok, close_model, event_frame_queued, frames_extended, lemma_socket_wf_ns,
    packet_frames_queued, same_but_frames, same_but_frames_ack, AckTicket, CloseEffects, Sid,
    Socket, SocketModel,
};
use vstd::pervasive::unreached;

verus! {

/// An immutable broadcast builder: selection filters, binary attachments
/// and a timeout override, accumulated before a terminal emit. Each method
/// returns a new value with one field updated.
#[derive(Debug)]
pub struct Operators {
    pub rooms: Vec<String>,
    pub except_rooms: Vec<String>,
    pub local: bool,
    pub exclude_self: bool,
    pub origin: Option<Sid>,
    pub binary: Vec<Vec<u8>>,
    pub timeout_ms: Option<u64>,
}

impl Operators {
    pub fn new(origin: Option<Sid>) -> (r: Self)
        ensures
            r.rooms@.len() == 0 && r.except_rooms@.len() == 0 && !r.local && !r.exclude_self
                && r.origin == origin && r.binary@.len() == 0 && r.timeout_ms is None,
    {
        Operators {
            rooms: Vec::new(),
            except_rooms: Vec::new(),
            local: false,
            exclude_self: false,
            origin,
            binary: Vec::new(),
            timeout_ms: None,
        }
    }

    /// Selects the given rooms, excluding the originating socket.
    pub fn to(self, rooms: Vec<String>) -> (r: Self)
        ensures
            r.rooms@ == self.rooms@ + rooms@,
            r.exclude_self,
            r.except_rooms == self.except_rooms && r.local == self.local && r.origin
                == self.origin && r.binary == self.binary && r.timeout_ms == self.timeout_ms,
    {
        let mut s = self;
        let mut more = rooms;
        s.rooms.append(&mut more);
        s.exclude_self = true;
        s
    }

    /// Selects the given rooms, keeping the originating socket included.
    pub fn within(self, rooms: Vec<String>) -> (r: Self)
        ensures
            r.rooms@ == self.rooms@ + rooms@,
            !r.exclude_self,
            r.except_rooms == self.except_rooms && r.local == self.local && r.origin
                == self.origin && r.binary == self.binary && r.timeout_ms == self.timeout_ms,
    {
        let mut s = self;
        let mut more = rooms;
        s.rooms.append(&mut more);
        s.exclude_self = false;
        s
    }

    /// Filters out every socket in the given rooms.
    pub fn except(self, rooms: Vec<String>) -> (r: Self)
        ensures
            r.except_rooms@ == self.except_rooms@ + rooms@,
            r.rooms == self.rooms && r.exclude_self == self.exclude_self && r.local == self.local
                && r.origin == self.origin && r.binary == self.binary && r.timeout_ms
                == self.timeout_ms,
    {
        let mut s = self;
        let mut more = rooms;
        s.except_rooms.append(&mut more);
        s
    }

    /// Restricts the broadcast to this node.
    pub fn local(self) -> (r: Self)
        ensures
            r == (Operators { local: true, ..self }),
    {
        let mut s = self;
        s.local = true;
        s
    }

    /// Selects every socket of the namespace, excluding the origin.
    pub fn broadcast(self) -> (r: Self)
        ensures
            r == (Operators { exclude_self: true, ..self }),
    {
        let mut s = self;
        s.exclude_self = true;
        s
    }

    /// Overrides the acknowledgement timeout, in milliseconds.
    pub fn timeout(self, timeout_ms: u64) -> (r: Self)
        ensures
            r == (Operators { timeout_ms: Some(timeout_ms), ..self }),
    {
        let mut s = self;
        s.timeout_ms = Some(timeout_ms);
        s
    }

    /// Attaches binary payloads to the pending message.
    pub fn bin(self, binary: Vec<Vec<u8>>) -> (r: Self)
        ensures
            r == (Operators { binary, ..self }),
    {
        let mut s = self;
        s.binary = binary;
        s
    }

    /// The selection descriptor this builder stands for.
    pub fn options(&self) -> (r: BroadcastOptions)
        ensures
            r.rooms@.len() == self.rooms@.len(),
            forall|i: int| 0 <= i < r.rooms@.len() ==> (#[trigger] r.rooms@[i])@ == self.rooms@[i]@,
            r.except@.len() == self.except_rooms@.len(),
            forall|i: int|
                0 <= i < r.except@.len() ==> (#[trigger] r.except@[i])@ == self.except_rooms@[i]@,
            r.local == self.local,
            r.exclude_self == self.exclude_self,
            r.origin == self.origin,
    {
        BroadcastOptions {
            rooms: clone_rooms(&self.rooms),
            except: clone_rooms(&self.except_rooms),
            local: self.local,
            exclude_self: self.exclude_self,
            origin: self.origin,
        }
    }
}

/// Copies a room list, label by label.
fn clone_rooms(rooms: &Vec<String>) -> (r: Vec<String>)
    ensures
        r@.len() == rooms@.len(),
        forall|i: int| 0 <= i < r@.len() ==> (#[trigger] r@[i])@ == rooms@[i]@,
{
    let n = rooms.len();
    let mut out: Vec<String> = Vec::new();
    let mut i: usize = 0;
    while i < n
        invariant
            n == rooms@.len(),
            i <= n,
            out@.len() == i,
            forall|k: int| 0 <= k < i ==> (#[trigger] out@[k])@ == rooms@[k]@,
        decreases n - i,
    {
        let room = rooms[i].clone();
        out.push(room);
        proof {
            assert(out@[out@.len() - 1]@ == rooms@[i as int]@);
        }
        i += 1;
    }
    out
}

impl Socket {
    /// Selects all clients in the given rooms except this socket.
    pub fn to(&self, rooms: Vec<String>) -> (r: Operators)
        ensures
            r.rooms@ == rooms@,
            r.exclude_self,
            r.origin == Some(self.id),
            r.except_rooms@.len() == 0 && !r.local && r.timeout_ms is None,
    {
        Operators::new(Some(self.id)).to(rooms)
    }

    /// Selects all clients in the given rooms, this socket included.
    pub fn within(&self, rooms: Vec<String>) -> (r: Operators)
        ensures
            r.rooms@ == rooms@,
            !r.exclude_self,
            r.origin == Some(self.id),
            r.except_rooms@.len() == 0 && !r.local && r.timeout_ms is None,
    {
        Operators::new(Some(self.id)).within(rooms)
    }

    /// Filters out all clients in the given rooms.
    pub fn except(&self, rooms: Vec<String>) -> (r: Operators)
        ensures
            r.except_rooms@ == rooms@,
            r.origin == Some(self.id),
            r.rooms@.len() == 0,
    {
        Operators::new(Some(self.id)).except(rooms)
    }

    /// Restricts the broadcast to this node.
    pub fn local(&self) -> (r: Operators)
        ensures
            r.local && r.origin == Some(self.id),
    {
        Operators::new(Some(self.id)).local()
    }

    /// Selects every socket of the namespace except this one.
    pub fn broadcast(&self) -> (r: Operators)
        ensures
            r.exclude_self && r.origin == Some(self.id) && r.rooms@.len() == 0
                && r.except_rooms@.len() == 0,
    {
        Operators::new(Some(self.id)).broadcast()
    }

    /// Sets a custom acknowledgement timeout, in milliseconds.
    pub fn timeout(&self, timeout_ms: u64) -> (r: Operators)
        ensures
            r.timeout_ms == Some(timeout_ms) && r.origin == Some(self.id),
    {
        Operators::new(Some(self.id)).timeout(timeout_ms)
    }

    /// Attaches binary payloads to the pending message.
    pub fn bin(&self, binary: Vec<Vec<u8>>) -> (r: Operators)
        ensures
            r.binary == binary && r.origin == Some(self.id),
    {
        Operators::new(Some(self.id)).bin(binary)
    }

    /// Joins the given rooms of this socket's namespace; creates them as
    /// needed. The local adapter never fails.
    pub fn join(&self, rooms: Vec<String>, adapter: &mut Rooms) -> (r: Result<(), AdapterError>)
        requires
            old(adapter).wf(),
        ensures
            final(adapter).wf(),
            r is Ok,
            forall|s: Sid, room: Seq<char>|
                final(adapter).in_room(s, room) <==> (old(adapter).in_room(s, room) || (s
                    == self.id && exists|k: int|
                    0 <= k < rooms@.len() && (#[trigger] rooms@[k])@ == room)),
    {
        adapter.add_all(self.id, &rooms)
    }

    /// Leaves the given rooms; absent memberships are ignored.
    pub fn leave(&self, rooms: Vec<String>, adapter: &mut Rooms) -> (r: Result<(), AdapterError>)
        requires
            old(adapter).wf(),
        ensures
            final(adapter).wf(),
            r is Ok,
            forall|s: Sid, room: Seq<char>|
                final(adapter).in_room(s, room) <==> (old(adapter).in_room(s, room) && !(s
                    == self.id && exists|k: int|
                    0 <= k < rooms@.len() && (#[trigger] rooms@[k])@ == room)),
    {
        adapter.del(self.id, &rooms)
    }

    /// Leaves every room.
    pub fn leave_all(&self, adapter: &mut Rooms) -> (r: Result<(), AdapterError>)
        requires
            old(adapter).wf(),
        ensures
            final(adapter).wf(),
            r is Ok,
            forall|s: Sid, room: Seq<char>|
                final(adapter).in_room(s, room) <==> (old(adapter).in_room(s, room) && s
                    != self.id),
    {
        adapter.del_all(self.id)
    }

    /// The rooms this socket is in: exactly its current memberships.
    pub fn rooms(&self, adapter: &Rooms) -> (r: Result<Vec<String>, AdapterError>)
        requires
            adapter.wf(),
        ensures
            r is Ok,
            r matches Ok(list) ==> lists_rooms_of(adapter, self.id, list),
    {
        adapter.socket_rooms(self.id)
    }

    /// Tears the socket down and performs the adapter half of the duty at
    /// once: the socket leaves every room of its namespace.
    pub fn close_and_leave(&mut self, reason: DisconnectReason, adapter: &mut Rooms) -> (eff:
        CloseEffects)
        requires
            old(self).wf(),
            old(adapter).wf(),
        ensures
            final(self).wf(),
            final(adapter).wf(),
            final(self)@.closed,
            forall|s: Sid, room: Seq<char>|
                final(adapter).in_room(s, room) <==> (old(adapter).in_room(s, room) && s != old(
                    self,
                ).id),
            old(self)@.closed ==> *final(self) == *old(self) && eff.notify is None
                && eff.failed_acks@.len() == 0 && eff.left_rooms is None,
            !old(self)@.closed ==> final(self)@ == close_model(old(self)@) && close_effects_ok(
                old(self)@,
                old(self).id,
                reason,
                eff,
            ),
    {
        let eff = self.close(reason);
        match adapter.del_all(self.id) {
            Ok(()) => eff,
            Err(_) => unreached(),
        }
    }
}

impl Operators {
    /// Emits the pending message through one socket: the event with the
    /// builder's binary attachments. Attachments whose placeholders do not
    /// all point into them cannot be serialized and are rejected without
    /// touching the queue or the socket.
    pub fn emit(self, socket: &mut Socket, event: String, data: Json) -> (r: Result<(), SendError>)
        requires
            old(socket).wf(),
        ensures
            final(socket).wf(),
            same_but_frames(final(socket)@, old(socket)@),
            frames_extended(old(socket)@, final(socket)@),
            r == Err::<(), SendError>(SendError::Serialize) <==> (self.binary@.len() > 0
                && !placeholders_valid(data, self.binary@.len() as int)),
            r is Ok ==> final(socket)@.frames.len() == old(socket)@.frames.len() + 1
                + self.binary@.len(),
            r is Ok && self.binary@.len() == 0 ==> event_frame_queued(
                old(socket)@,
                final(socket)@,
                event@,
                data,
                None,
            ),
            r is Ok && self.binary@.len() > 0 ==> packet_frames_queued(
                old(socket)@,
                final(socket)@,
                (Packet::BinaryEvent {
                    ns: old(socket).ns,
                    name: event,
                    data,
                    bin: self.binary,
                    ack: None,
                }),
            ),
            r == Err::<(), SendError>(SendError::SocketClosed) ==> old(socket)@.engine_closed,
            r == Err::<(), SendError>(SendError::InternalChannelFull) ==> (!old(
                socket,
            )@.engine_closed && old(socket)@.frames.len() + 1 + self.binary@.len() > old(
                socket,
            )@.capacity),
    {
        let ghost m0 = socket@;
        let ghost gname = event@;
        let ghost gdata = data;
        let ghost gbin = self.binary;
        let Operators { binary, .. } = self;
        if binary.len() == 0 {
            let r = socket.emit(event, data);
            proof {
                if r is Ok {
                    assert(frames_extended(m0, socket@)) by {
                        assert(socket@.frames.subrange(0, m0.frames.len() as int) =~= m0.frames);
                    }
                } else {
                    assert(frames_extended(m0, socket@)) by {
                        assert(socket@.frames.subrange(0, m0.frames.len() as int) =~= m0.frames);
                    }
                }
            }
            return r;
        }
        let blen = binary.len();
        if !data.placeholders_in_range(blen) {
            proof {
                assert(frames_extended(m0, socket@)) by {
                    assert(socket@.frames.subrange(0, m0.frames.len() as int) =~= m0.frames);
                }
            }
            return Err(SendError::Serialize);
        }
        proof {
            lemma_socket_wf_ns(socket);
        }
        let ns = socket.ns.clone();
        let p = Packet::BinaryEvent { ns, name: event, data, bin: binary, ack: None };
        let ghost gp = p;
        let r = socket.send(p);
        proof {
            if r is Ok {
                let q = Packet::BinaryEvent {
                    ns: old(socket).ns,
                    name: gp->BinaryEvent_name,
                    data: gp->BinaryEvent_data,
                    bin: gp->BinaryEvent_bin,
                    ack: None,
                };
                assert(q.header_chars() =~= gp.header_chars());
                assert(packet_frames_queued(m0, socket@, q));
            }
        }
        r
    }

    /// Emits the pending message through one socket and sets up the wait for
    /// its acknowledgement; the ticket carries the builder's timeout
    /// override, or the configured default where none was set. Only plain
    /// events wait for acknowledgements here: the builder's binary
    /// attachments do not apply, per the message shape of a single-socket
    /// acknowledged emit.
    pub fn emit_with_ack(self, socket: &mut Socket, event: String, data: Json) -> (r: Result<
        AckTicket,
        SendError,
    >)
        requires
            old(socket).wf(),
            old(socket)@.ack.counter < i64::MAX,
            !old(socket)@.closed,
        ensures
            final(socket).wf(),
            final(socket)@.ack.counter == old(socket)@.ack.counter + 1,
            same_but_frames_ack(final(socket)@, old(socket)@),
            frames_extended(old(socket)@, final(socket)@),
            r is Ok <==> (!old(socket)@.engine_closed && old(socket)@.frames.len() < old(
                socket,
            )@.capacity),
            r == Err::<AckTicket, SendError>(SendError::SocketClosed) <==> old(
                socket,
            )@.engine_closed,
            r == Err::<AckTicket, SendError>(SendError::InternalChannelFull) <==> (!old(
                socket,
            )@.engine_closed && old(socket)@.frames.len() == old(socket)@.capacity),
            r matches Ok(t) ==> {
                &&& t.id as int == old(socket)@.ack.counter + 1
                &&& t.timeout_ms == (match self.timeout_ms {
                    Some(ms) => ms,
                    None => old(socket)@.config.ack_timeout_ms,
                })
                &&& final(socket)@.ack.pending.contains(t.id as int)
                &&& event_frame_queued(old(socket)@, final(socket)@, event@, data, Some(t.id))
            },
    {
        let r = socket.emit_with_ack(event, data);
        match r {
            Ok(t) => {
                let timeout_ms = match self.timeout_ms {
                    Some(ms) => ms,
                    None => t.timeout_ms,
                };
                Ok(AckTicket { id: t.id, timeout_ms })
            },
            Err(e) => Err(e),
        }
    }
}

} // verus!
