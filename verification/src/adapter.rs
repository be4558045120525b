use vstd::prelude::*;

use crate::errors::AdapterError;
use crate::socket::Sid;

verus! {

/// A broadcast selection descriptor: include rooms (empty means every
/// socket), exclude rooms, a local-node restriction, and whether the
/// originating socket is excluded.
#[derive(Debug)]
pub struct BroadcastOptions {
    pub rooms: Vec<String>,
    pub except: Vec<String>,
    pub local: bool,
    pub exclude_self: bool,
    pub origin: Option<Sid>,
}

/// The local adapter's room store: the many-to-many relation between
/// session ids and room labels, scoped to one namespace. Authoritative for a
/// single process; its operations are synchronous and infallible.
#[derive(Debug)]
pub struct Rooms {
    pub pairs: Vec<(Sid, String)>,
}

impl Rooms {
    /// Membership of a session in a room.
    pub open spec fn in_room(&self, sid: Sid, room: Seq<char>) -> bool {
        exists|i: int|
            0 <= i < self.pairs@.len() && (#[trigger] self.pairs@[i]).0 == sid
                && self.pairs@[i].1@ == room
    }

    /// No membership pair is recorded twice.
    pub open spec fn wf(&self) -> bool {
        forall|i: int, j: int|
            0 <= i < j < self.pairs@.len() ==> !((#[trigger] self.pairs@[i]).0
                == (#[trigger] self.pairs@[j]).0 && self.pairs@[i].1@ == self.pairs@[j].1@)
    }

    pub fn new() -> (r: Self)
        ensures
            r.wf(),
            forall|s: Sid, room: Seq<char>| !r.in_room(s, room),
    {
        Rooms { pairs: Vec::new() }
    }

    /// Whether `sid` is in `room`.
    pub fn contains(&self, sid: Sid, room: &String) -> (r: bool)
        ensures
            r == self.in_room(sid, room@),
    {
        let n = self.pairs.len();
        let mut i: usize = 0;
        while i < n
            invariant
                n == self.pairs@.len(),
                i <= n,
                forall|k: int|
                    0 <= k < i ==> !((#[trigger] self.pairs@[k]).0 == sid && self.pairs@[k].1@
                        == room@),
            decreases n - i,
        {
            if self.pairs[i].0 == sid && self.pairs[i].1 == *room {
                return true;
            }
            i += 1;
        }
        false
    }

    /// Idempotent insertion: afterwards `sid` is in every given room, and no
    /// other membership changed.
    pub fn add_all(&mut self, sid: Sid, rooms: &Vec<String>) -> (r: Result<(), AdapterError>)
        requires
            old(self).wf(),
        ensures
            final(self).wf(),
            r is Ok,
            forall|s: Sid, room: Seq<char>|
                final(self).in_room(s, room) <==> (old(self).in_room(s, room) || (s == sid
                    && exists|k: int| 0 <= k < rooms@.len() && (#[trigger] rooms@[k])@ == room)),
    {
        let n = rooms.len();
        let mut k: usize = 0;
        while k < n
            invariant
                self.wf(),
                n == rooms@.len(),
                k <= n,
                forall|s: Sid, room: Seq<char>|
                    self.in_room(s, room) <==> (old(self).in_room(s, room) || (s == sid
                        && exists|j: int| 0 <= j < k && (#[trigger] rooms@[j])@ == room)),
            decreases n - k,
        {
            let ghost pre = *self;
            if !self.contains(sid, &rooms[k]) {
                let room = rooms[k].clone();
                self.pairs.push((sid, room));
                proof {
                    assert forall|s: Sid, rm: Seq<char>| self.in_room(s, rm) implies (
                    pre.in_room(s, rm) || (s == sid && rm == rooms@[k as int]@)) by {
                        let i = choose|i: int|
                            0 <= i < self.pairs@.len() && (#[trigger] self.pairs@[i]).0 == s
                                && self.pairs@[i].1@ == rm;
                        if i < pre.pairs@.len() {
                            assert(pre.pairs@[i] == self.pairs@[i]);
                        }
                    }
                    assert forall|s: Sid, rm: Seq<char>|
                        (pre.in_room(s, rm) || (s == sid && rm == rooms@[k as int]@)) implies
                    self.in_room(s, rm) by {
                        if pre.in_room(s, rm) {
                            let i = choose|i: int|
                                0 <= i < pre.pairs@.len() && (#[trigger] pre.pairs@[i]).0 == s
                                    && pre.pairs@[i].1@ == rm;
                            assert(self.pairs@[i] == pre.pairs@[i]);
                        } else {
                            assert(self.pairs@[self.pairs@.len() - 1].0 == sid);
                        }
                    }
                    assert forall|s: Sid, rm: Seq<char>| self.in_room(s, rm) <==> (old(self).in_room(s, rm) || (s == sid && exists|j: int|
                        0 <= j < k + 1 && (#[trigger] rooms@[j])@ == rm)) by {
                        if self.in_room(s, rm) {
                            if pre.in_room(s, rm) {
                            } else {
                                assert(s == sid && rm == rooms@[k as int]@);
                                assert((#[trigger] rooms@[k as int])@ == rm);
                            }
                        }
                        if old(self).in_room(s, rm) {
                            assert(pre.in_room(s, rm));
                            assert(self.in_room(s, rm));
                        }
                        if s == sid && exists|j: int|
                            0 <= j < k + 1 && (#[trigger] rooms@[j])@ == rm {
                            let j = choose|j: int| 0 <= j < k + 1 && (#[trigger] rooms@[j])@ == rm;
                            if j < k {
                                assert(pre.in_room(s, rm));
                            } else {
                                assert(rm == rooms@[k as int]@);
                            }
                            assert(self.in_room(s, rm));
                        }
                    }
                }
            } else {
                proof {
                    assert(self.in_room(sid, rooms@[k as int]@));
                    assert forall|s: Sid, rm: Seq<char>| self.in_room(s, rm) <==> (old(self).in_room(s, rm) || (s == sid && exists|j: int|
                        0 <= j < k + 1 && (#[trigger] rooms@[j])@ == rm)) by {
                        if s == sid && rm == rooms@[k as int]@ {
                            assert(self.in_room(s, rm));
                        }
                    }
                }
            }
            k += 1;
        }
        Ok(())
    }

    /// Idempotent removal: afterwards `sid` is in none of the given rooms,
    /// and no other membership changed.
    #[verifier::rlimit(60)]
    pub fn del(&mut self, sid: Sid, rooms: &Vec<String>) -> (r: Result<(), AdapterError>)
        requires
            old(self).wf(),
        ensures
            final(self).wf(),
            r is Ok,
            forall|s: Sid, room: Seq<char>|
                final(self).in_room(s, room) <==> (old(self).in_room(s, room) && !(s == sid
                    && exists|k: int| 0 <= k < rooms@.len() && (#[trigger] rooms@[k])@ == room)),
    {
        let n = rooms.len();
        let mut k: usize = 0;
        while k < n
            invariant
                self.wf(),
                n == rooms@.len(),
                k <= n,
                forall|s: Sid, room: Seq<char>|
                    self.in_room(s, room) <==> (old(self).in_room(s, room) && !(s == sid
                        && exists|j: int| 0 <= j < k && (#[trigger] rooms@[j])@ == room)),
            decreases n - k,
        {
            let ghost pre = *self;
            self.remove_pair(sid, &rooms[k]);
            proof {
                assert forall|s: Sid, rm: Seq<char>| self.in_room(s, rm) <==> (old(
                    self,
                ).in_room(s, rm) && !(s == sid && exists|j: int|
                    0 <= j < k + 1 && (#[trigger] rooms@[j])@ == rm)) by {
                    if s == sid && exists|j: int| 0 <= j < k + 1 && (#[trigger] rooms@[j])@ == rm {
                        let j = choose|j: int| 0 <= j < k + 1 && (#[trigger] rooms@[j])@ == rm;
                        if j < k {
                            assert(!pre.in_room(s, rm));
                        } else {
                            assert(rm == rooms@[k as int]@);
                        }
                        assert(!self.in_room(s, rm));
                    }
                }
            }
            k += 1;
        }
        Ok(())
    }

    /// Removes one membership pair, if recorded.
    fn remove_pair(&mut self, sid: Sid, room: &String)
        requires
            old(self).wf(),
        ensures
            final(self).wf(),
            forall|s: Sid, rm: Seq<char>|
                final(self).in_room(s, rm) <==> (old(self).in_room(s, rm) && !(s == sid && rm
                    == room@)),
            old(self).in_room(sid, room@) ==> final(self).pairs@.len() < old(self).pairs@.len(),
            final(self).pairs@.len() <= old(self).pairs@.len(),
    {
        let n = self.pairs.len();
        let mut i: usize = 0;
        while i < n
            invariant
                old(self).wf(),
                *self == *old(self),
                n == self.pairs@.len(),
                i <= n,
                forall|l: int|
                    0 <= l < i ==> !((#[trigger] self.pairs@[l]).0 == sid && self.pairs@[l].1@
                        == room@),
            decreases n - i,
        {
            if self.pairs[i].0 == sid && self.pairs[i].1 == *room {
                let ghost pre = self.pairs@;
                self.pairs.remove(i);
                proof {
                    assert(self.pairs@ == pre.subrange(0, i as int) + pre.subrange(
                        i as int + 1,
                        pre.len() as int,
                    ));
                    assert forall|s: Sid, rm: Seq<char>| self.in_room(s, rm) implies (old(
                        self,
                    ).in_room(s, rm) && !(s == sid && rm == room@)) by {
                        let l = choose|l: int|
                            0 <= l < self.pairs@.len() && (#[trigger] self.pairs@[l]).0 == s
                                && self.pairs@[l].1@ == rm;
                        if l < i {
                            assert(pre[l].0 == s && pre[l].1@ == rm);
                        } else {
                            assert(pre[l + 1].0 == s && pre[l + 1].1@ == rm);
                        }
                        if s == sid && rm == room@ {
                            let l2 = choose|l2: int|
                                0 <= l2 < pre.len() && (#[trigger] pre[l2]).0 == s && pre[l2].1@
                                    == rm;
                            assert(l2 == i);
                            if l < i {
                                assert(pre[l].0 == sid && pre[l].1@ == room@);
                            } else {
                                assert(pre[l + 1].0 == sid && pre[l + 1].1@ == room@);
                            }
                            assert(false);
                        }
                    }
                    assert forall|s: Sid, rm: Seq<char>|
                        (old(self).in_room(s, rm) && !(s == sid && rm == room@)) implies
                    self.in_room(s, rm) by {
                        let l = choose|l: int|
                            0 <= l < pre.len() && (#[trigger] pre[l]).0 == s && pre[l].1@ == rm;
                        if l < i {
                            assert(self.pairs@[l].0 == s && self.pairs@[l].1@ == rm);
                        } else {
                            assert(l != i);
                            assert(self.pairs@[l - 1].0 == s && self.pairs@[l - 1].1@ == rm);
                        }
                    }
                    assert forall|a: int, b: int| 0 <= a < b < self.pairs@.len() implies !((
                    #[trigger] self.pairs@[a]).0 == (#[trigger] self.pairs@[b]).0
                        && self.pairs@[a].1@ == self.pairs@[b].1@) by {
                        let pa: (Sid, String) = if a < i {
                            pre[a]
                        } else {
                            pre[a + 1]
                        };
                        assert(self.pairs@[a] == pa);
                        let pb: (Sid, String) = if b < i {
                            pre[b]
                        } else {
                            pre[b + 1]
                        };
                        assert(self.pairs@[b] == pb);
                    }
                }
                return ;
            }
            i += 1;
        }
    }

    /// Removal from every room.
    pub fn del_all(&mut self, sid: Sid) -> (r: Result<(), AdapterError>)
        requires
            old(self).wf(),
        ensures
            final(self).wf(),
            r is Ok,
            forall|s: Sid, room: Seq<char>|
                final(self).in_room(s, room) <==> (old(self).in_room(s, room) && s != sid),
        decreases old(self).pairs@.len(),
    {
        match self.find_room_of(sid) {
            None => {
                proof {
                    assert forall|s: Sid, room: Seq<char>| self.in_room(s, room) implies s
                        != sid by {}
                }
                Ok(())
            },
            Some(room) => {
                let ghost pre = *self;
                self.remove_pair(sid, &room);
                let ghost mid = *self;
                let r = self.del_all(sid);
                proof {
                    assert forall|s: Sid, rm: Seq<char>| self.in_room(s, rm) <==> (pre.in_room(
                        s,
                        rm,
                    ) && s != sid) by {
                        assert(self.in_room(s, rm) <==> (mid.in_room(s, rm) && s != sid));
                    }
                }
                r
            },
        }
    }

    /// A room `sid` belongs to, if any.
    fn find_room_of(&self, sid: Sid) -> (r: Option<String>)
        ensures
            r matches Some(room) ==> self.in_room(sid, room@),
            r is None ==> forall|room: Seq<char>| !self.in_room(sid, room),
    {
        let n = self.pairs.len();
        let mut i: usize = 0;
        while i < n
            invariant
                n == self.pairs@.len(),
                i <= n,
                forall|l: int| 0 <= l < i ==> (#[trigger] self.pairs@[l]).0 != sid,
            decreases n - i,
        {
            if self.pairs[i].0 == sid {
                let room = self.pairs[i].1.clone();
                proof {
                    assert(self.pairs@[i as int].0 == sid && self.pairs@[i as int].1@ == room@);
                }
                return Some(room);
            }
            i += 1;
        }
        proof {
            assert forall|room: Seq<char>| !self.in_room(sid, room) by {}
        }
        None
    }

    /// The rooms `sid` currently belongs to: every membership is listed,
    /// and nothing but memberships.
    #[verifier::rlimit(60)]
    pub fn socket_rooms(&self, sid: Sid) -> (r: Result<Vec<String>, AdapterError>)
        requires
            self.wf(),
        ensures
            r matches Ok(list) ==> lists_rooms_of(self, sid, list),
            r is Ok,
    {
        let n = self.pairs.len();
        let mut list: Vec<String> = Vec::new();
        let mut i: usize = 0;
        while i < n
            invariant
                self.wf(),
                n == self.pairs@.len(),
                i <= n,
                forall|j: int|
                    0 <= j < list@.len() ==> self.in_room(sid, (#[trigger] list@[j])@),
                forall|l: int|
                    0 <= l < i && (#[trigger] self.pairs@[l]).0 == sid ==> exists|j: int|
                        0 <= j < list@.len() && (#[trigger] list@[j])@ == self.pairs@[l].1@,
            decreases n - i,
        {
            let ghost prelist = list@;
            if self.pairs[i].0 == sid {
                let room = self.pairs[i].1.clone();
                list.push(room);
                proof {
                    assert(list@[list@.len() - 1]@ == self.pairs@[i as int].1@);
                    assert forall|j: int| 0 <= j < list@.len() implies self.in_room(
                        sid,
                        (#[trigger] list@[j])@,
                    ) by {
                        if j < list@.len() - 1 {
                            assert(list@[j] == prelist[j]);
                            assert(self.in_room(sid, prelist[j]@));
                        } else {
                            assert(self.pairs@[i as int].0 == sid && self.pairs@[i as int].1@
                                == list@[j]@);
                        }
                    }
                    assert forall|l: int|
                        0 <= l < i + 1 && (#[trigger] self.pairs@[l]).0 == sid implies exists|
                        j: int|
                        0 <= j < list@.len() && (#[trigger] list@[j])@ == self.pairs@[l].1@ by {
                        if l < i {
                            let j = choose|j: int|
                                0 <= j < prelist.len() && (#[trigger] prelist[j])@
                                    == self.pairs@[l].1@;
                            assert(list@[j]@ == self.pairs@[l].1@);
                        } else {
                            assert(list@[list@.len() - 1]@ == self.pairs@[l].1@);
                        }
                    }
                }
            }
            i += 1;
        }
        proof {
            assert forall|room: Seq<char>| #[trigger] self.in_room(sid, room) implies exists|
                j: int,
            |
                0 <= j < list@.len() && (#[trigger] list@[j])@ == room by {
                let l = choose|l: int|
                    0 <= l < self.pairs@.len() && (#[trigger] self.pairs@[l]).0 == sid
                        && self.pairs@[l].1@ == room;
                assert(0 <= l < i && self.pairs@[l].0 == sid);
                let j = choose|j: int|
                    0 <= j < list@.len() && (#[trigger] list@[j])@ == self.pairs@[l].1@;
                assert(list@[j]@ == room);
            }
            assert(lists_rooms_of(self, sid, list));
        }
        Ok(list)
    }
}

/// The list names every room `sid` is in, and only rooms it is in.
pub open spec fn lists_rooms_of(rooms: &Rooms, sid: Sid, list: Vec<String>) -> bool {
    &&& forall|j: int| 0 <= j < list@.len() ==> rooms.in_room(sid, (#[trigger] list@[j])@)
    &&& forall|room: Seq<char>|
        rooms.in_room(sid, room) ==> exists|j: int|
            0 <= j < list@.len() && (#[trigger] list@[j])@ == room
}

/// Whether a room label occurs in a list of rooms.
pub fn room_listed(rooms: &Vec<String>, room: &String) -> (r: bool)
    ensures
        r == exists|k: int| 0 <= k < rooms@.len() && (#[trigger] rooms@[k])@ == room@,
{
    let n = rooms.len();
    let mut k: usize = 0;
    while k < n
        invariant
            n == rooms@.len(),
            k <= n,
            forall|j: int| 0 <= j < k ==> (#[trigger] rooms@[j])@ != room@,
        decreases n - k,
    {
        if rooms[k] == *room {
            return true;
        }
        k += 1;
    }
    false
}

/// The broadcast selection: a socket is selected when it lies in one of the
/// include rooms (or the include set is empty), in none of the exclude
/// rooms, and is not the excluded origin.
pub open spec fn spec_selected(rooms: &Rooms, opts: &BroadcastOptions, sid: Sid) -> bool {
    &&& (opts.rooms@.len() == 0 || exists|k: int|
        0 <= k < opts.rooms@.len() && rooms.in_room(sid, (#[trigger] opts.rooms@[k])@))
    &&& !(exists|k: int|
        0 <= k < opts.except@.len() && rooms.in_room(sid, (#[trigger] opts.except@[k])@))
    &&& (opts.exclude_self ==> opts.origin != Some(sid))
}

impl Rooms {
    /// Decides the broadcast selection for one socket.
    pub fn selects(&self, opts: &BroadcastOptions, sid: Sid) -> (r: bool)
        ensures
            r == spec_selected(self, opts, sid),
    {
        let excluded_origin = opts.exclude_self && (match &opts.origin {
            Some(o) => *o == sid,
            None => false,
        });
        if excluded_origin {
            return false;
        }
        if self.in_any(&opts.except, sid) {
            return false;
        }
        if opts.rooms.len() == 0 {
            return true;
        }
        self.in_any(&opts.rooms, sid)
    }

    /// Whether `sid` is in any of the listed rooms.
    fn in_any(&self, rooms: &Vec<String>, sid: Sid) -> (r: bool)
        ensures
            r == exists|k: int|
                0 <= k < rooms@.len() && self.in_room(sid, (#[trigger] rooms@[k])@),
    {
        let n = rooms.len();
        let mut k: usize = 0;
        while k < n
            invariant
                n == rooms@.len(),
                k <= n,
                forall|j: int| 0 <= j < k ==> !self.in_room(sid, (#[trigger] rooms@[j])@),
            decreases n - k,
        {
            if self.contains(sid, &rooms[k]) {
                return true;
            }
            k += 1;
        }
        false
    }
}

/// A selection with `exclude_self` never selects the origin, whatever the
/// rooms: the origin of a `to` or `broadcast` never receives its own
/// message.
pub proof fn lemma_exclude_self_skips_origin(rooms: &Rooms, opts: &BroadcastOptions, sid: Sid)
    requires
        opts.exclude_self,
        opts.origin == Some(sid),
    ensures
        !spec_selected(rooms, opts, sid),
{
}

/// A selection without `exclude_self` includes the origin whenever it is a
/// member of one of the included rooms and of no excluded one: `within`
/// always includes the origin if it is a room member.
pub proof fn lemma_within_includes_origin(
    rooms: &Rooms,
    opts: &BroadcastOptions,
    origin: Sid,
    k: int,
)
    requires
        !opts.exclude_self,
        0 <= k < opts.rooms@.len(),
        rooms.in_room(origin, opts.rooms@[k]@),
        forall|j: int| 0 <= j < opts.except@.len() ==> !rooms.in_room(origin, (#[trigger] opts.except@[j])@),
    ensures
        spec_selected(rooms, opts, origin),
{
}

} // verus!
