use vstd::prelude::*;

use crate::ack::{
    ack_inv, alloc_step, close_step, lemma_wf_implies_inv, register_step, resolve_step,
    AckCorrelator, AckModel, AckResponse,
};
use crate::config::SocketIoConfig;
use crate::engine::{EngineFrame, EngineQueue};
use crate::errors::{AckError, DisconnectError, ProtocolError, SendError};
use crate::json::Json;
use crate::packet::{body_matches, event_body_matches, header_chars_parts, ns_chars_ok, Packet};
use crate::reason::DisconnectReason;
use vstd::pervasive::unreached;

verus! {

/// A session id, assigned by the engine layer at handshake and unique for
/// the process lifetime of the server.
#[derive(Debug, Clone, Copy, PartialEq, Eq, Hash, Structural)]
pub struct Sid(pub u64);

/// The handler table: event names mapped to the caller's handler tokens,
/// later registrations shadowing earlier ones.
pub open spec fn table_of(s: Seq<(String, u64)>) -> Map<Seq<char>, u64>
    decreases s.len(),
{
    if s.len() == 0 {
        Map::empty()
    } else {
        table_of(s.drop_last()).insert(s.last().0@, s.last().1)
    }
}

/// Abstract state of a socket.
#[verifier::ext_equal]
pub struct SocketModel {
    /// The namespace path the socket belongs to.
    pub ns: Seq<char>,
    /// Whether the socket has been torn down.
    pub closed: bool,
    /// Registered message handlers, by event name.
    pub handlers: Map<Seq<char>, u64>,
    /// The disconnect handler, if one is registered.
    pub disconnect: Option<u64>,
    /// The acknowledgement correlator.
    pub ack: AckModel,
    /// The frames queued towards the engine layer, oldest first.
    pub frames: Seq<EngineFrame>,
    /// The capacity of the emit queue.
    pub capacity: int,
    /// Whether the underlying transport is closed.
    pub engine_closed: bool,
    /// The shared configuration.
    pub config: SocketIoConfig,
}

/// Everything of the model but the frame queue is unchanged.
pub open spec fn same_but_frames(a: SocketModel, b: SocketModel) -> bool {
    &&& a.ns == b.ns
    &&& a.closed == b.closed
    &&& a.handlers == b.handlers
    &&& a.disconnect == b.disconnect
    &&& a.ack == b.ack
    &&& a.capacity == b.capacity
    &&& a.engine_closed == b.engine_closed
    &&& a.config == b.config
}

/// Everything of the model but the frame queue and the correlator is
/// unchanged.
pub open spec fn same_but_frames_ack(a: SocketModel, b: SocketModel) -> bool {
    &&& a.ns == b.ns
    &&& a.closed == b.closed
    &&& a.handlers == b.handlers
    &&& a.disconnect == b.disconnect
    &&& a.capacity == b.capacity
    &&& a.engine_closed == b.engine_closed
    &&& a.config == b.config
}

/// The frame queue of `b` extends the one of `a`: nothing queued is lost.
pub open spec fn frames_extended(a: SocketModel, b: SocketModel) -> bool {
    &&& b.frames.len() >= a.frames.len()
    &&& b.frames.subrange(0, a.frames.len() as int) == a.frames
}

/// The frames a packet contributes to the queue: its text frame followed by
/// its binary attachments, in order.
pub open spec fn packet_frames_queued(m0: SocketModel, m1: SocketModel, p: Packet) -> bool {
    let n0 = m0.frames.len() as int;
    &&& m1.frames.len() == n0 + 1 + p.spec_bin().len()
    &&& m1.frames.subrange(0, n0) == m0.frames
    &&& (m1.frames[n0] matches EngineFrame::Text { header, body } && header@ == p.header_chars()
        && body_matches(p, body))
    &&& forall|j: int|
        0 <= j < p.spec_bin().len() ==> (#[trigger] m1.frames[n0 + 1 + j] matches
            EngineFrame::Binary(b) && b@ == p.spec_bin()[j])
}

/// What a teardown asks the caller to do: invoke the disconnect handler, if
/// one was registered, and fail every pending acknowledgement waiter with a
/// socket-closed error.
#[derive(Debug)]
pub struct CloseEffects {
    pub notify: Option<(u64, DisconnectReason)>,
    pub failed_acks: Vec<i64>,
    /// The id to remove from the namespace's socket map and from every room
    /// of the adapter; set by the teardown that actually closed the socket.
    pub left_rooms: Option<Sid>,
}

/// What inbound dispatch asks the caller to do.
#[derive(Debug)]
pub enum RecvAction {
    /// Invoke the handler registered for the event, with the data, the
    /// binary attachments, and the acknowledgement id to answer, if any.
    InvokeHandler { handler: u64, data: Json, bin: Vec<Vec<u8>>, ack: Option<i64> },
    /// No handler is registered for the event: a no-op.
    Ignored,
    /// Deliver the response to the waiter of this acknowledgement id.
    ResolveAck { id: i64, response: AckResponse },
    /// The client left the namespace: perform the teardown effects.
    Closed(CloseEffects),
}

/// The handle of an in-flight acknowledgement: its id, and the wait the
/// caller must arm before failing the waiter with a timeout.
#[derive(Debug, Clone, Copy, PartialEq, Eq, Structural)]
pub struct AckTicket {
    pub id: i64,
    pub timeout_ms: u64,
}

/// A client session inside one namespace: handler registry, acknowledgement
/// correlator, and the bounded emit queue towards the engine layer.
pub struct Socket {
    /// The socket id.
    pub id: Sid,
    pub ns: String,
    pub closed: bool,
    pub handlers: Vec<(String, u64)>,
    pub disconnect_handler: Option<u64>,
    pub ack: AckCorrelator,
    pub engine: EngineQueue,
    pub config: SocketIoConfig,
}

impl View for Socket {
    type V = SocketModel;

    closed spec fn view(&self) -> SocketModel {
        SocketModel {
            ns: self.ns@,
            closed: self.closed,
            handlers: table_of(self.handlers@),
            disconnect: self.disconnect_handler,
            ack: self.ack@,
            frames: self.engine.spec_frames(),
            capacity: self.engine.spec_capacity(),
            engine_closed: self.engine.spec_closed(),
            config: self.config,
        }
    }
}

impl Socket {
    pub closed spec fn wf(&self) -> bool {
        &&& ns_chars_ok(self.ns@)
        &&& self.ack.wf()
        &&& self.engine.wf()
        &&& self.closed == self.ack@.closed
    }

    /// Creates a socket for a namespace path, with the engine queue sized by
    /// the configuration.
    pub fn new(sid: Sid, ns: String, config: SocketIoConfig) -> (s: Self)
        requires
            ns_chars_ok(ns@),
        ensures
            s.wf(),
            s.id == sid,
            s@.ns == ns@,
            !s@.closed,
            !s@.engine_closed,
            s@.handlers == Map::<Seq<char>, u64>::empty(),
            s@.disconnect is None,
            s@.ack.counter == 0,
            s@.ack.pending =~= Set::<int>::empty(),
            s@.frames == Seq::<EngineFrame>::empty(),
            s@.capacity == config.max_buffer_size as int,
            s@.config == config,
    {
        Socket {
            id: sid,
            ns,
            closed: false,
            handlers: Vec::new(),
            disconnect_handler: None,
            ack: AckCorrelator::new(),
            engine: EngineQueue::new(config.max_buffer_size),
            config,
        }
    }

    /// A socket detached from any transport, for driving the state machine
    /// directly; its queue holds up to 200 frames.
    pub fn new_dummy(sid: Sid, ns: String) -> (s: Self)
        requires
            ns_chars_ok(ns@),
        ensures
            s.wf(),
            s.id == sid,
            s@.ns == ns@,
            !s@.closed,
            !s@.engine_closed,
            s@.handlers == Map::<Seq<char>, u64>::empty(),
            s@.disconnect is None,
            s@.ack.counter == 0,
            s@.ack.pending =~= Set::<int>::empty(),
            s@.frames == Seq::<EngineFrame>::empty(),
            s@.capacity == 200,
    {
        let mut config = SocketIoConfig::default();
        config.max_buffer_size = 200;
        Socket::new(sid, ns, config)
    }

    /// The namespace path.
    pub fn ns(&self) -> (r: &str)
        ensures
            r@ == self@.ns,
    {
        self.ns.as_str()
    }

    /// The last acknowledgement id handed out.
    pub fn ack_counter(&self) -> (r: i64)
        ensures
            r as int == self@.ack.counter,
    {
        self.ack.counter()
    }

    pub fn is_closed(&self) -> (r: bool)
        ensures
            r == self@.closed,
    {
        self.closed
    }

    /// Registers a message handler for the event; a later registration for
    /// the same event replaces the earlier one.
    pub fn on(&mut self, event: String, handler: u64)
        requires
            old(self).wf(),
        ensures
            final(self).wf(),
            final(self)@ == (SocketModel {
                handlers: old(self)@.handlers.insert(event@, handler),
                ..old(self)@
            }),
    {
        self.handlers.push((event, handler));
        proof {
            assert(self.handlers@.drop_last() =~= old(self).handlers@);
        }
    }

    /// Sets the disconnect handler; at most one is kept, the last wins.
    pub fn on_disconnect(&mut self, handler: u64)
        requires
            old(self).wf(),
        ensures
            final(self).wf(),
            final(self)@ == (SocketModel { disconnect: Some(handler), ..old(self)@ }),
    {
        self.disconnect_handler = Some(handler);
    }

    /// Looks up the handler registered for an event name.
    pub fn handler_for(&self, event: &String) -> (r: Option<u64>)
        ensures
            match r {
                Some(h) => self@.handlers.contains_key(event@) && self@.handlers[event@] == h,
                None => !self@.handlers.contains_key(event@),
            },
    {
        let n = self.handlers.len();
        let mut i: usize = n;
        proof {
            assert(self.handlers@.take(n as int) =~= self.handlers@);
        }
        while i > 0
            invariant
                i <= n,
                n == self.handlers@.len(),
                forall|k: int| i <= k < n ==> (#[trigger] self.handlers@[k]).0@ != event@,
                table_lookup(self.handlers@, event@) == table_lookup(
                    self.handlers@.take(i as int),
                    event@,
                ),
            decreases i,
        {
            proof {
                assert(self.handlers@.take(i as int).drop_last() =~= self.handlers@.take(
                    i as int - 1,
                ));
                assert(self.handlers@.take(i as int).last() == self.handlers@[i as int - 1]);
            }
            if self.handlers[i - 1].0 == *event {
                return Some(self.handlers[i - 1].1);
            }
            i -= 1;
        }
        proof {
            assert(self.handlers@.take(0) =~= Seq::<(String, u64)>::empty());
        }
        None
    }

    /// Hands the packet's frames to the engine queue: the text frame first,
    /// then each binary attachment. A rejected frame stops the hand-over;
    /// nothing already queued is lost.
    pub fn send(&mut self, packet: Packet) -> (r: Result<(), SendError>)
        requires
            old(self).wf(),
            packet.wf(),
        ensures
            final(self).wf(),
            final(self).id == old(self).id,
            same_but_frames(final(self)@, old(self)@),
            frames_extended(old(self)@, final(self)@),
            r is Ok <==> (!old(self)@.engine_closed && old(self)@.frames.len() + 1
                + packet.spec_bin().len() <= old(self)@.capacity),
            r == Err::<(), SendError>(SendError::SocketClosed) <==> old(self)@.engine_closed,
            r == Err::<(), SendError>(SendError::InternalChannelFull) <==> (!old(self)@.engine_closed && old(self)@.frames.len() + 1 + packet.spec_bin().len() > old(self)@.capacity),
            match r {
                Ok(()) => packet_frames_queued(old(self)@, final(self)@, packet),
                Err(SendError::SocketClosed) => *final(self) == *old(self),
                Err(SendError::InternalChannelFull) => {
                    &&& final(self)@.frames.len() == old(self)@.capacity
                    &&& (packet.spec_bin().len() == 0 ==> *final(self) == *old(self))
                    &&& (final(self)@.frames.len() > old(self)@.frames.len() ==> (final(self)@.frames[old(self)@.frames.len() as int] matches EngineFrame::Text {
                        header,
                        body,
                    } && header@ == packet.header_chars() && body_matches(packet, body)))
                    &&& forall|j: int|
                        0 <= j < final(self)@.frames.len() - old(self)@.frames.len() - 1 ==> (
                        #[trigger] final(self)@.frames[old(self)@.frames.len() as int + 1 + j]
                            matches EngineFrame::Binary(b) && b@ == packet.spec_bin()[j])
                },
                Err(SendError::Serialize) => false,
            },
    {
        let ghost m0 = self@;
        let ghost p = packet;
        let (header, body, mut bins) = packet.into_parts();
        match self.engine.emit(EngineFrame::Text { header, body }) {
            Ok(()) => {},
            Err(e) => {
                proof {
                    assert(*self == *old(self));
                    assert(frames_extended(m0, self@)) by {
                        assert(self@.frames.subrange(0, m0.frames.len() as int) =~= m0.frames);
                    }
                    if e == SendError::InternalChannelFull {
                        assert(m0.frames.len() == m0.capacity);
                        assert(m0.frames.len() + 1 + p.spec_bin().len() > m0.capacity);
                    }
                }
                return Err(e);
            },
        }
        let ghost total = p.spec_bin().len() as int;
        let mut k: usize = 0;
        let bcount = bins.len();
        proof {
            assert(bins.deep_view() == p.spec_bin());
            assert(bins.deep_view().len() == bins@.len());
            assert(total == bcount as int);
            assert(total <= usize::MAX);
            assert forall|i: int| 0 <= i < bins@.len() implies (#[trigger] bins@[i])@
                == p.spec_bin()[i] by {
                assert(bins.deep_view()[i] == bins@[i].deep_view());
                assert(bins@[i].deep_view() =~= bins@[i]@);
            }
        }
        while bins.len() > 0
            invariant
                m0 == old(self)@,
                self.id == old(self).id,
                p == packet,
                total == p.spec_bin().len() as int,
                !m0.engine_closed,
                self.wf(),
                same_but_frames(self@, m0),
                k as int + bins@.len() as int == total,
                total <= usize::MAX,
                forall|i: int|
                    0 <= i < bins@.len() ==> (#[trigger] bins@[i])@ == p.spec_bin()[k + i],
                self@.frames.len() == m0.frames.len() + 1 + k,
                self@.frames.subrange(0, m0.frames.len() as int) =~= m0.frames,
                (self@.frames[m0.frames.len() as int] matches EngineFrame::Text { header, body }
                    && header@ == p.header_chars() && body_matches(p, body)),
                forall|j: int|
                    0 <= j < k ==> (#[trigger] self@.frames[m0.frames.len() as int + 1 + j]
                        matches EngineFrame::Binary(b) && b@ == p.spec_bin()[j]),
            decreases bins@.len(),
        {
            let ghost pre = self@;
            let ghost prebins = bins@;
            let b = bins.remove(0);
            proof {
                assert(b == prebins[0]);
                assert(b@ == p.spec_bin()[k as int]);
                assert forall|i: int| 0 <= i < bins@.len() implies (#[trigger] bins@[i])@
                    == p.spec_bin()[k + 1 + i] by {
                    assert(bins@[i] == prebins[i + 1]);
                }
            }
            match self.engine.emit(EngineFrame::Binary(b)) {
                Ok(()) => {},
                Err(e) => {
                    proof {
                        assert(same_but_frames(self@, m0));
                        assert(frames_extended(m0, self@)) by {
                            assert(self@.frames.subrange(0, m0.frames.len() as int) =~= m0.frames);
                        }
                        assert(e == SendError::InternalChannelFull);
                        assert(self@.frames.len() == m0.frames.len() + 1 + k);
                        assert(k as int <= total - 1);
                        assert(m0.frames.len() + 1 + p.spec_bin().len() > m0.capacity);
                        assert(self@.frames.len() - m0.frames.len() - 1 == k as int);
                    }
                    return Err(e);
                },
            }
            k = k + 1;
            proof {
                assert(self@.frames.subrange(0, m0.frames.len() as int) =~= m0.frames);
                assert(self@.frames[m0.frames.len() as int] == pre.frames[m0.frames.len() as int]);
            }
        }
        proof {
            assert(packet_frames_queued(m0, self@, p));
            assert(frames_extended(m0, self@));
            assert(self@.frames.len() <= m0.capacity);
            assert(m0.frames.len() + 1 + p.spec_bin().len() <= m0.capacity);
        }
        Ok(())
    }
}

/// A well-formed socket has a valid namespace path; its public `ns` field is
/// the model's namespace. Stated here for the modules composing on sockets.
pub proof fn lemma_socket_wf_ns(s: &Socket)
    requires
        s.wf(),
    ensures
        ns_chars_ok(s.ns@),
        s@.ns == s.ns@,
{
}

/// The handler token an event name maps to, if any.
pub open spec fn table_lookup(s: Seq<(String, u64)>, e: Seq<char>) -> Option<u64> {
    if table_of(s).contains_key(e) {
        Some(table_of(s)[e])
    } else {
        None
    }
}

/// Everything of the model but the correlator is unchanged.
pub open spec fn same_but_ack(a: SocketModel, b: SocketModel) -> bool {
    &&& a.ns == b.ns
    &&& a.closed == b.closed
    &&& a.handlers == b.handlers
    &&& a.disconnect == b.disconnect
    &&& a.frames == b.frames
    &&& a.capacity == b.capacity
    &&& a.engine_closed == b.engine_closed
    &&& a.config == b.config
}

/// The state teardown leaves behind: closed, the disconnect handler slot
/// emptied, every pending waiter resolved.
pub open spec fn close_model(m: SocketModel) -> SocketModel {
    SocketModel { closed: true, disconnect: None, ack: close_step(m.ack), ..m }
}

/// The effects teardown hands back: the disconnect handler to invoke with
/// the reason, if one was registered, and every pending waiter exactly once.
pub open spec fn close_effects_ok(
    m: SocketModel,
    sid: Sid,
    reason: DisconnectReason,
    eff: CloseEffects,
) -> bool {
    &&& eff.left_rooms == Some(sid)
    &&& eff.notify == (match m.disconnect {
        Some(h) => Some((h, reason)),
        None => None::<(u64, DisconnectReason)>,
    })
    &&& forall|i: int|
        0 <= i < eff.failed_acks@.len() ==> m.ack.pending.contains(
            #[trigger] eff.failed_acks@[i] as int,
        )
    &&& forall|i: int, j: int|
        0 <= i < j < eff.failed_acks@.len() ==> eff.failed_acks@[i] != eff.failed_acks@[j]
    &&& forall|id: int|
        m.ack.pending.contains(id) ==> exists|i: int|
            0 <= i < eff.failed_acks@.len() && #[trigger] eff.failed_acks@[i] as int == id
}

/// One event text frame was queued, with this name, data and optional
/// acknowledgement id, and nothing else changed in the queue.
pub open spec fn event_frame_queued(
    m0: SocketModel,
    m1: SocketModel,
    name: Seq<char>,
    data: Json,
    ack: Option<i64>,
) -> bool {
    let n0 = m0.frames.len() as int;
    &&& m1.frames.len() == n0 + 1
    &&& m1.frames.subrange(0, n0) == m0.frames
    &&& (m1.frames[n0] matches EngineFrame::Text { header, body } && header@ == header_chars_parts(
        2,
        0,
        false,
        m0.ns,
        ack,
    ) && event_body_matches(name, data, body))
}

impl Socket {
    /// Emits a fire-and-forget event to the client: one text frame with the
    /// event name and data. A full queue rejects it without losing anything
    /// already queued; a closed transport rejects it too.
    pub fn emit(&mut self, event: String, data: Json) -> (r: Result<(), SendError>)
        requires
            old(self).wf(),
        ensures
            final(self).wf(),
            same_but_frames(final(self)@, old(self)@),
            match r {
                Ok(()) => event_frame_queued(old(self)@, final(self)@, event@, data, None),
                Err(SendError::SocketClosed) => old(self)@.engine_closed && *final(self) == *old(self),
                Err(SendError::InternalChannelFull) => {
                    &&& !old(self)@.engine_closed
                    &&& old(self)@.frames.len() == old(self)@.capacity
                    &&& *final(self) == *old(self)
                },
                Err(SendError::Serialize) => false,
            },
    {
        let ghost m0 = self@;
        let ghost gname = event@;
        let ghost gdata = data;
        let ns = self.ns.clone();
        let p = Packet::event(ns, event, data);
        let r = self.send(p);
        proof {
            if r is Ok {
                assert(p.header_chars() =~= header_chars_parts(2, 0, false, m0.ns, None));
                assert(event_frame_queued(m0, self@, gname, gdata, None));
            } else {
                match r {
                    Err(SendError::SocketClosed) => {
                        assert(*self == *old(self));
                    },
                    Err(SendError::InternalChannelFull) => {
                        assert(p.spec_bin().len() == 0);
                        assert(*self == *old(self));
                    },
                    _ => {},
                }
            }
        }
        r
    }

    /// Stamps the next acknowledgement id onto an event packet and sends it.
    /// The id is allocated in every case; on a successful send the waiter is
    /// registered, and on a failed send the failure is the waiter's
    /// resolution, handed back to the caller.
    pub fn send_with_ack(&mut self, packet: Packet) -> (r: Result<i64, SendError>)
        requires
            old(self).wf(),
            packet.wf(),
            packet is Event || packet is BinaryEvent,
            old(self)@.ack.counter < i64::MAX,
            !old(self)@.closed,
        ensures
            final(self).wf(),
            final(self)@.ack.counter == old(self)@.ack.counter + 1,
            same_but_frames_ack(final(self)@, old(self)@),
            frames_extended(old(self)@, final(self)@),
            r is Ok <==> (!old(self)@.engine_closed && old(self)@.frames.len() + 1
                + packet.spec_bin().len() <= old(self)@.capacity),
            r == Err::<i64, SendError>(SendError::SocketClosed) <==> old(self)@.engine_closed,
            r == Err::<i64, SendError>(SendError::InternalChannelFull) <==> (!old(self)@.engine_closed
                && old(self)@.frames.len() + 1 + packet.spec_bin().len() > old(self)@.capacity),
            r is Err && packet.spec_bin().len() == 0 ==> final(self)@.frames == old(self)@.frames,
            match r {
                Ok(id) => {
                    &&& id as int == old(self)@.ack.counter + 1
                    &&& final(self)@.ack == register_step(
                        alloc_step(old(self)@.ack).0,
                        id as int,
                    )
                    &&& final(self)@.ack.pending.contains(id as int)
                    &&& match packet {
                        Packet::Event { ns, name, data, .. } => packet_frames_queued(
                            old(self)@,
                            final(self)@,
                            (Packet::Event { ns, name, data, ack: Some(id) }),
                        ),
                        Packet::BinaryEvent { ns, name, data, bin, .. } => packet_frames_queued(
                            old(self)@,
                            final(self)@,
                            (Packet::BinaryEvent { ns, name, data, bin, ack: Some(id) }),
                        ),
                        _ => false,
                    }
                },
                Err(e) => {
                    &&& e != SendError::Serialize
                    &&& final(self)@.ack == (AckModel {
                        resolved: alloc_step(old(self)@.ack).0.resolved.insert(
                            old(self)@.ack.counter + 1,
                        ),
                        ..alloc_step(old(self)@.ack).0
                    })
                    &&& !final(self)@.ack.pending.contains(old(self)@.ack.counter + 1)
                },
            },
    {
        proof {
            lemma_wf_implies_inv(&self.ack);
        }
        let id = match self.ack.allocate() {
            Some(id) => id,
            None => unreached(),
        };
        let stamped = packet.set_ack_id(id);
        proof {
            assert(stamped.wf());
            assert(stamped.spec_bin() == packet.spec_bin());
            assert(self.ack@ == alloc_step(old(self)@.ack).0);
            assert(1 <= id as int <= self.ack@.counter);
        }
        match self.send(stamped) {
            Ok(()) => {
                proof {
                    assert(self.ack@ == alloc_step(old(self)@.ack).0);
                    assert(!self.ack@.pending.contains(id as int));
                    assert(!self.ack@.resolved.contains(id as int));
                }
                self.ack.register(id);
                Ok(id)
            },
            Err(e) => {
                self.ack.resolve_unregistered(id);
                Err(e)
            },
        }
    }

    /// Emits an event and sets up the wait for its acknowledgement: the
    /// packet is stamped with a fresh id, and the returned ticket carries
    /// that id together with the configured acknowledgement timeout. On a
    /// send failure no waiter is registered and the failure is returned at
    /// once.
    pub fn emit_with_ack(&mut self, event: String, data: Json) -> (r: Result<AckTicket, SendError>)
        requires
            old(self).wf(),
            old(self)@.ack.counter < i64::MAX,
            !old(self)@.closed,
        ensures
            final(self).wf(),
            final(self)@.ack.counter == old(self)@.ack.counter + 1,
            same_but_frames_ack(final(self)@, old(self)@),
            frames_extended(old(self)@, final(self)@),
            r is Ok <==> (!old(self)@.engine_closed && old(self)@.frames.len() < old(self)@.capacity),
            r == Err::<AckTicket, SendError>(SendError::SocketClosed) <==> old(self)@.engine_closed,
            r == Err::<AckTicket, SendError>(SendError::InternalChannelFull) <==> (!old(self)@.engine_closed
                && old(self)@.frames.len() == old(self)@.capacity),
            r is Err ==> final(self)@.frames == old(self)@.frames,
            match r {
                Ok(t) => {
                    &&& t.id as int == old(self)@.ack.counter + 1
                    &&& t.timeout_ms == old(self)@.config.ack_timeout_ms
                    &&& final(self)@.ack == register_step(alloc_step(old(self)@.ack).0, t.id as int)
                    &&& final(self)@.ack.pending.contains(t.id as int)
                    &&& event_frame_queued(old(self)@, final(self)@, event@, data, Some(t.id))
                },
                Err(e) => {
                    &&& e != SendError::Serialize
                    &&& final(self)@.ack == (AckModel {
                        resolved: alloc_step(old(self)@.ack).0.resolved.insert(
                            old(self)@.ack.counter + 1,
                        ),
                        ..alloc_step(old(self)@.ack).0
                    })
                    &&& !final(self)@.ack.pending.contains(old(self)@.ack.counter + 1)
                },
            },
    {
        let ghost m0 = self@;
        let ghost gname = event@;
        let ghost gdata = data;
        let ns = self.ns.clone();
        let p = Packet::event(ns, event, data);
        let timeout_ms = self.config.ack_timeout_ms;
        match self.send_with_ack(p) {
            Ok(id) => {
                proof {
                    assert((Packet::Event {
                        ns: p->Event_ns,
                        name: p->Event_name,
                        data: p->Event_data,
                        ack: Some(id),
                    }).header_chars() =~= header_chars_parts(2, 0, false, m0.ns, Some(id)));
                    assert(event_frame_queued(m0, self@, gname, gdata, Some(id)));
                }
                Ok(AckTicket { id, timeout_ms })
            },
            Err(e) => Err(e),
        }
    }

    /// The correlator's reaction to a fired acknowledgement timeout: the
    /// waiter, if still live, is resolved with the timeout failure the
    /// caller must deliver; afterwards a late response is silently dropped.
    pub fn ack_timeout(&mut self, id: i64) -> (r: Option<AckError>)
        requires
            old(self).wf(),
        ensures
            final(self).wf(),
            same_but_ack(final(self)@, old(self)@),
            final(self)@.ack == resolve_step(old(self)@.ack, id as int).0,
            r is Some <==> old(self)@.ack.pending.contains(id as int),
            r matches Some(e) ==> e == AckError::Timeout,
    {
        self.ack.timeout(id)
    }

    /// Tears the socket down: at most once, whatever the reason of this or
    /// any earlier teardown. The first call empties the disconnect handler
    /// slot and resolves every pending waiter; a repeated call changes
    /// nothing and asks for nothing.
    pub fn close(&mut self, reason: DisconnectReason) -> (eff: CloseEffects)
        requires
            old(self).wf(),
        ensures
            final(self).wf(),
            final(self).id == old(self).id,
            final(self)@.closed,
            old(self)@.closed ==> *final(self) == *old(self) && eff.notify is None
                && eff.failed_acks@.len() == 0 && eff.left_rooms is None,
            !old(self)@.closed ==> final(self)@ == close_model(old(self)@) && close_effects_ok(
                old(self)@,
                old(self).id,
                reason,
                eff,
            ),
    {
        if self.closed {
            return CloseEffects { notify: None, failed_acks: Vec::new(), left_rooms: None };
        }
        let drained = self.ack.drain_on_close();
        self.closed = true;
        let h = self.disconnect_handler;
        self.disconnect_handler = None;
        let notify = match h {
            Some(handler) => Some((handler, reason)),
            None => None,
        };
        let ghost gd = drained@;
        let eff = CloseEffects { notify, failed_acks: drained, left_rooms: Some(self.id) };
        proof {
            assert(self@ =~= close_model(old(self)@));
            assert(eff.failed_acks@ == gd);
            assert forall|id: int| old(self)@.ack.pending.contains(id) implies (exists|i: int|
                0 <= i < eff.failed_acks@.len() && #[trigger] eff.failed_acks@[i] as int
                    == id) by {
                let j = choose|j: int| 0 <= j < gd.len() && #[trigger] gd[j] as int == id;
                assert(eff.failed_acks@[j] as int == id);
            }
        }
        eff
    }

    /// Disconnects the socket from its namespace: a best-effort disconnect
    /// packet towards the client, then teardown with the server-disconnect
    /// reason. A full queue loses only the packet: the close still proceeds
    /// and the error says so. On an already closed socket the call is a
    /// no-op.
    pub fn disconnect(&mut self) -> (r: (Result<(), DisconnectError>, CloseEffects))
        requires
            old(self).wf(),
        ensures
            final(self).wf(),
            final(self)@.closed,
            old(self)@.closed ==> *final(self) == *old(self) && r.0 == Ok::<(), DisconnectError>(())
                && r.1.notify is None && r.1.failed_acks@.len() == 0 && r.1.left_rooms is None,
            !old(self)@.closed ==> {
                &&& close_effects_ok(
                    old(self)@,
                    old(self).id,
                    DisconnectReason::ServerNSDisconnect,
                    r.1,
                )
                &&& final(self)@.closed && final(self)@.disconnect is None && final(self)@.ack
                    == close_step(old(self)@.ack)
                &&& (r.0 == Err::<(), DisconnectError>(DisconnectError::InternalChannelFull) <==> (
                !old(self)@.engine_closed && old(self)@.frames.len() == old(self)@.capacity))
                &&& (r.0 is Ok && !old(self)@.engine_closed ==> final(self)@.frames.len() == old(self)@.frames.len() + 1
                    && (final(self)@.frames[old(self)@.frames.len() as int] matches
                    EngineFrame::Text { header, body } && header@ == header_chars_parts(
                        1,
                        0,
                        false,
                        old(self)@.ns,
                        None,
                    ) && body is None))
                &&& (r.0 is Ok && old(self)@.engine_closed ==> final(self)@.frames == old(self)@.frames)
            },
    {
        if self.closed {
            return (
                Ok(()),
                CloseEffects { notify: None, failed_acks: Vec::new(), left_rooms: None },
            );
        }
        let ns = self.ns.clone();
        let p = Packet::disconnect(ns);
        let ghost gp = p;
        let send_res = self.send(p);
        let ghost m1 = self@;
        proof {
            assert(m1.ack == old(self)@.ack && m1.disconnect == old(self)@.disconnect
                && !m1.closed);
            if send_res is Ok {
                assert(gp.header_chars() =~= header_chars_parts(1, 0, false, old(self)@.ns, None));
            }
        }
        let eff = self.close(DisconnectReason::ServerNSDisconnect);
        proof {
            assert(close_effects_ok(m1, old(self).id, DisconnectReason::ServerNSDisconnect, eff));
            assert(close_effects_ok(
                old(self)@,
                old(self).id,
                DisconnectReason::ServerNSDisconnect,
                eff,
            ));
            assert(self@.ack == close_step(old(self)@.ack));
            assert(self@.frames == m1.frames);
            if old(self)@.engine_closed {
                assert(send_res matches Err(SendError::SocketClosed));
                assert(m1.frames == old(self)@.frames);
            }
        }
        match send_res {
            Err(SendError::InternalChannelFull) => (
                Err(DisconnectError::InternalChannelFull),
                eff,
            ),
            _ => (Ok(()), eff),
        }
    }

    /// Dispatches one inbound packet: an event to its handler, an
    /// acknowledgement to its waiter, a client disconnect to teardown. A
    /// connect-phase variant is unreachable on an established socket: it is
    /// a protocol error that closes the socket with the packet-parsing
    /// reason, and the teardown effects ride along with the error.
    pub fn recv(&mut self, packet: Packet) -> (r: Result<RecvAction, (ProtocolError, CloseEffects)>)
        requires
            old(self).wf(),
        ensures
            final(self).wf(),
            match packet {
                Packet::Event { name, data, ack, .. } => *final(self) == *old(self) && (if old(self)@.handlers.contains_key(name@) {
                    r matches Ok(RecvAction::InvokeHandler { handler, data: d, bin, ack: a2 })
                        && handler == old(self)@.handlers[name@] && d == data && bin@.len() == 0
                        && a2 == ack
                } else {
                    r == Ok::<RecvAction, (ProtocolError, CloseEffects)>(RecvAction::Ignored)
                }),
                Packet::BinaryEvent { name, data, bin, ack, .. } => *final(self) == *old(self)
                    && (if old(self)@.handlers.contains_key(name@) {
                    r matches Ok(RecvAction::InvokeHandler { handler, data: d, bin: b2, ack: a2 })
                        && handler == old(self)@.handlers[name@] && d == data && b2 == bin
                        && a2 == ack
                } else {
                    r == Ok::<RecvAction, (ProtocolError, CloseEffects)>(RecvAction::Ignored)
                }),
                Packet::EventAck { data, ack, .. } => {
                    &&& same_but_ack(final(self)@, old(self)@)
                    &&& final(self)@.ack == resolve_step(old(self)@.ack, ack as int).0
                    &&& (if old(self)@.ack.pending.contains(ack as int) {
                        r matches Ok(RecvAction::ResolveAck { id, response }) && id == ack
                            && response.data == data && response.binary@.len() == 0
                    } else {
                        r == Ok::<RecvAction, (ProtocolError, CloseEffects)>(RecvAction::Ignored)
                    })
                },
                Packet::BinaryAck { data, bin, ack, .. } => {
                    &&& same_but_ack(final(self)@, old(self)@)
                    &&& final(self)@.ack == resolve_step(old(self)@.ack, ack as int).0
                    &&& (if old(self)@.ack.pending.contains(ack as int) {
                        r matches Ok(RecvAction::ResolveAck { id, response }) && id == ack
                            && response.data == data && response.binary == bin
                    } else {
                        r == Ok::<RecvAction, (ProtocolError, CloseEffects)>(RecvAction::Ignored)
                    })
                },
                Packet::Disconnect { .. } => {
                    &&& final(self)@.closed
                    &&& (old(self)@.closed ==> *final(self) == *old(self))
                    &&& (!old(self)@.closed ==> final(self)@ == close_model(old(self)@)
                        && (r matches Ok(RecvAction::Closed(eff)) && close_effects_ok(
                        old(self)@,
                        old(self).id,
                        DisconnectReason::ClientNSDisconnect,
                        eff,
                    )))
                    &&& (old(self)@.closed ==> (r matches Ok(RecvAction::Closed(eff))
                        && eff.notify is None && eff.failed_acks@.len() == 0
                        && eff.left_rooms is None))
                },
                _ => {
                    &&& final(self)@.closed
                    &&& (old(self)@.closed ==> *final(self) == *old(self))
                    &&& (r matches Err(e) && e.0 == ProtocolError::InvalidPacket)
                    &&& (!old(self)@.closed ==> final(self)@ == close_model(old(self)@)
                        && (r matches Err(e) && close_effects_ok(
                        old(self)@,
                        old(self).id,
                        DisconnectReason::PacketParsingError,
                        e.1,
                    )))
                    &&& (old(self)@.closed ==> (r matches Err(e) && e.1.notify is None
                        && e.1.failed_acks@.len() == 0 && e.1.left_rooms is None))
                },
            },
    {
        match packet {
            Packet::Event { name, data, ack, .. } => {
                match self.handler_for(&name) {
                    Some(handler) => Ok(RecvAction::InvokeHandler {
                        handler,
                        data,
                        bin: Vec::new(),
                        ack,
                    }),
                    None => Ok(RecvAction::Ignored),
                }
            },
            Packet::BinaryEvent { name, data, bin, ack, .. } => {
                match self.handler_for(&name) {
                    Some(handler) => Ok(RecvAction::InvokeHandler { handler, data, bin, ack }),
                    None => Ok(RecvAction::Ignored),
                }
            },
            Packet::EventAck { data, ack, .. } => {
                let response = AckResponse { data, binary: Vec::new() };
                match self.ack.complete(ack, response) {
                    Some(resp) => Ok(RecvAction::ResolveAck { id: ack, response: resp }),
                    None => Ok(RecvAction::Ignored),
                }
            },
            Packet::BinaryAck { data, bin, ack, .. } => {
                let response = AckResponse { data, binary: bin };
                match self.ack.complete(ack, response) {
                    Some(resp) => Ok(RecvAction::ResolveAck { id: ack, response: resp }),
                    None => Ok(RecvAction::Ignored),
                }
            },
            Packet::Disconnect { .. } => {
                let eff = self.close(DisconnectReason::ClientNSDisconnect);
                Ok(RecvAction::Closed(eff))
            },
            _ => {
                let eff = self.close(DisconnectReason::PacketParsingError);
                Err((ProtocolError::InvalidPacket, eff))
            },
        }
    }

    /// The transport side takes every queued frame, in order.
    pub fn drain_frames(&mut self) -> (taken: Vec<EngineFrame>)
        requires
            old(self).wf(),
        ensures
            final(self).wf(),
            taken@ == old(self)@.frames,
            final(self)@.frames.len() == 0,
            same_but_frames(final(self)@, old(self)@),
    {
        self.engine.drain()
    }

    /// Marks the underlying transport closed; later emits are rejected.
    pub fn close_transport(&mut self)
        requires
            old(self).wf(),
        ensures
            final(self).wf(),
            final(self)@.engine_closed,
            final(self)@ == (SocketModel { engine_closed: true, ..old(self)@ }),
    {
        self.engine.close();
        proof {
            assert(self@ =~= (SocketModel { engine_closed: true, ..old(self)@ }));
        }
    }
}

} // verus!
