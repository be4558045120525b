use vstd::prelude::*;

use crate::errors::ProtocolError;
use crate::json::{placeholders_valid, Json};
use vstd::pervasive::unreached;
use crate::numbers::{
    char_digit, dec_digits, digit_char, is_digit_char, lemma_dec_digits_are_digits,
    lemma_dec_digits_injective, lemma_dec_digits_leading_zero, lemma_dec_digits_prefix,
    push_decimal,
};

verus! {

/// A Socket.IO packet. `bin` is the ordered sequence of binary attachments;
/// the JSON data of binary variants carries placeholders pointing into it.
#[derive(Debug)]
pub enum Packet {
    Connect { ns: String, payload: Option<Json> },
    Disconnect { ns: String },
    Event { ns: String, name: String, data: Json, ack: Option<i64> },
    EventAck { ns: String, data: Json, ack: i64 },
    BinaryEvent { ns: String, name: String, data: Json, bin: Vec<Vec<u8>>, ack: Option<i64> },
    BinaryAck { ns: String, data: Json, bin: Vec<Vec<u8>>, ack: i64 },
    ConnectError { ns: String, message: String },
}


/// The header text of a packet, from its parts:
/// `<type>[<attachment-count>-][<namespace>,][<ack-id>]`.
pub open spec fn header_chars_parts(
    kind: nat,
    nbin: nat,
    is_bin: bool,
    ns: Seq<char>,
    ack: Option<i64>,
) -> Seq<char> {
    seq![digit_char(kind)] + (if is_bin {
        dec_digits(nbin) + seq!['-']
    } else {
        Seq::<char>::empty()
    }) + (if ns == "/"@ {
        Seq::<char>::empty()
    } else {
        ns + seq![',']
    }) + (match ack {
        Some(a) => dec_digits(a as nat),
        None => Seq::<char>::empty(),
    })
}

/// The body of an event packet: the two-element array `[name, data]`.
pub open spec fn event_body_matches(name: Seq<char>, data: Json, body: Option<Json>) -> bool {
    body matches Some(Json::Arr(items)) && items@.len() == 2 && (items@[0] matches Json::Str(s)
        && s@ == name) && items@[1] == data
}

/// A namespace path: starts with `/` and contains no `,`, which terminates
/// it in the packet header.
pub open spec fn ns_chars_ok(ns: Seq<char>) -> bool {
    &&& ns.len() >= 1
    &&& ns[0] == '/'
    &&& forall|i: int| 0 <= i < ns.len() ==> ns[i] != ','
}

/// Decides `ns_chars_ok`.
pub fn check_ns(ns: &str) -> (r: bool)
    ensures
        r == ns_chars_ok(ns@),
{
    let n = ns.unicode_len();
    if n == 0 {
        return false;
    }
    if ns.get_char(0) != '/' {
        return false;
    }
    let mut i: usize = 0;
    while i < n
        invariant
            n == ns@.len(),
            i <= n,
            ns@[0] == '/',
            forall|k: int| 0 <= k < i ==> ns@[k] != ',',
        decreases n - i,
    {
        if ns.get_char(i) == ',' {
            return false;
        }
        i += 1;
    }
    true
}

impl Packet {
    /// The wire type digit of the packet.
    pub open spec fn type_digit(self) -> nat {
        match self {
            Packet::Connect { .. } => 0,
            Packet::Disconnect { .. } => 1,
            Packet::Event { .. } => 2,
            Packet::EventAck { .. } => 3,
            Packet::ConnectError { .. } => 4,
            Packet::BinaryEvent { .. } => 5,
            Packet::BinaryAck { .. } => 6,
        }
    }

    /// The namespace path the packet belongs to.
    pub open spec fn spec_ns(self) -> Seq<char> {
        match self {
            Packet::Connect { ns, .. } => ns@,
            Packet::Disconnect { ns } => ns@,
            Packet::Event { ns, .. } => ns@,
            Packet::EventAck { ns, .. } => ns@,
            Packet::BinaryEvent { ns, .. } => ns@,
            Packet::BinaryAck { ns, .. } => ns@,
            Packet::ConnectError { ns, .. } => ns@,
        }
    }

    /// The acknowledgement id stamped on the packet, if any.
    pub open spec fn spec_ack(self) -> Option<i64> {
        match self {
            Packet::Event { ack, .. } => ack,
            Packet::EventAck { ack, .. } => Some(ack),
            Packet::BinaryEvent { ack, .. } => ack,
            Packet::BinaryAck { ack, .. } => Some(ack),
            _ => None,
        }
    }

    /// Whether the packet is a binary variant.
    pub open spec fn is_binary(self) -> bool {
        self is BinaryEvent || self is BinaryAck
    }

    /// The binary attachments of the packet.
    pub open spec fn spec_bin(self) -> Seq<Seq<u8>> {
        match self {
            Packet::BinaryEvent { bin, .. } => bin.deep_view(),
            Packet::BinaryAck { bin, .. } => bin.deep_view(),
            _ => Seq::empty(),
        }
    }

    /// Well-formedness: a valid namespace, a non-negative acknowledgement id,
    /// and, on binary variants, placeholders that point into the attachments.
    pub open spec fn wf(self) -> bool {
        &&& ns_chars_ok(self.spec_ns())
        &&& (self.spec_ack() matches Some(a) ==> a >= 0)
        &&& (self matches Packet::BinaryEvent { data, bin, .. } ==> placeholders_valid(
            data,
            bin@.len() as int,
        ))
        &&& (self matches Packet::BinaryAck { data, bin, .. } ==> placeholders_valid(
            data,
            bin@.len() as int,
        ))
    }

    /// The textual header of the packet:
    /// `<type>[<attachment-count>-][<namespace>,][<ack-id>]`; the namespace
    /// part is omitted exactly when the namespace is the root `/`.
    pub open spec fn header_chars(self) -> Seq<char> {
        header_chars_parts(
            self.type_digit(),
            self.spec_bin().len(),
            self.is_binary(),
            self.spec_ns(),
            self.spec_ack(),
        )
    }
}

/// Relation between a packet and the JSON body of its text frame. Event
/// bodies are two-element arrays `[name, data]`; acknowledgement bodies are
/// one-element arrays `[data]`; a connect error carries `{"message": m}`.
pub open spec fn body_matches(p: Packet, body: Option<Json>) -> bool {
    match p {
        Packet::Connect { payload, .. } => body == payload,
        Packet::Disconnect { .. } => body is None,
        Packet::Event { name, data, .. } => body matches Some(Json::Arr(items)) && items@.len()
            == 2 && (items@[0] matches Json::Str(s) && s@ == name@) && items@[1] == data,
        Packet::EventAck { data, .. } => body matches Some(Json::Arr(items)) && items@.len() == 1
            && items@[0] == data,
        Packet::BinaryEvent { name, data, .. } => body matches Some(Json::Arr(items))
            && items@.len() == 2 && (items@[0] matches Json::Str(s) && s@ == name@) && items@[1]
            == data,
        Packet::BinaryAck { data, .. } => body matches Some(Json::Arr(items)) && items@.len() == 1
            && items@[0] == data,
        Packet::ConnectError { message, .. } => body matches Some(Json::Obj(fields))
            && fields@.len() == 1 && fields@[0].0@ == "message"@ && (fields@[0].1 matches Json::Str(
            s,
        ) && s@ == message@),
    }
}

impl Packet {
    /// Builds an event packet for the given namespace.
    pub fn event(ns: String, name: String, data: Json) -> (p: Packet)
        ensures
            p == (Packet::Event { ns, name, data, ack: None }),
    {
        Packet::Event { ns, name, data, ack: None }
    }

    /// Builds a disconnect packet for the given namespace.
    pub fn disconnect(ns: String) -> (p: Packet)
        ensures
            p == (Packet::Disconnect { ns }),
    {
        Packet::Disconnect { ns }
    }

    /// Stamps an acknowledgement id onto an event packet; other variants are
    /// returned unchanged.
    pub fn set_ack_id(self, id: i64) -> (p: Packet)
        ensures
            match self {
                Packet::Event { ns, name, data, .. } => p == (Packet::Event {
                    ns,
                    name,
                    data,
                    ack: Some(id),
                }),
                Packet::BinaryEvent { ns, name, data, bin, .. } => p == (Packet::BinaryEvent {
                    ns,
                    name,
                    data,
                    bin,
                    ack: Some(id),
                }),
                _ => p == self,
            },
    {
        match self {
            Packet::Event { ns, name, data, ack: _ } => Packet::Event {
                ns,
                name,
                data,
                ack: Some(id),
            },
            Packet::BinaryEvent { ns, name, data, bin, ack: _ } => Packet::BinaryEvent {
                ns,
                name,
                data,
                bin,
                ack: Some(id),
            },
            p => p,
        }
    }

    /// Encodes the packet header.
    pub fn encode_header(&self) -> (h: String)
        requires
            self.wf(),
        ensures
            h@ == self.header_chars(),
    {
        let mut s = String::new();
        let t: u64 = match self {
            Packet::Connect { .. } => 0,
            Packet::Disconnect { .. } => 1,
            Packet::Event { .. } => 2,
            Packet::EventAck { .. } => 3,
            Packet::ConnectError { .. } => 4,
            Packet::BinaryEvent { .. } => 5,
            Packet::BinaryAck { .. } => 6,
        };
        push_decimal(&mut s, t);
        match self {
            Packet::BinaryEvent { bin, .. } => {
                push_decimal(&mut s, bin.len() as u64);
                s.append("-");
            },
            Packet::BinaryAck { bin, .. } => {
                push_decimal(&mut s, bin.len() as u64);
                s.append("-");
            },
            _ => {},
        }
        let ns: &String = match self {
            Packet::Connect { ns, .. } => ns,
            Packet::Disconnect { ns } => ns,
            Packet::Event { ns, .. } => ns,
            Packet::EventAck { ns, .. } => ns,
            Packet::BinaryEvent { ns, .. } => ns,
            Packet::BinaryAck { ns, .. } => ns,
            Packet::ConnectError { ns, .. } => ns,
        };
        let root = String::from_str("/");
        if !(*ns == root) {
            s.append(ns.as_str());
            s.append(",");
        }
        let ack: Option<i64> = match self {
            Packet::Event { ack, .. } => *ack,
            Packet::EventAck { ack, .. } => Some(*ack),
            Packet::BinaryEvent { ack, .. } => *ack,
            Packet::BinaryAck { ack, .. } => Some(*ack),
            _ => None,
        };
        if let Some(a) = ack {
            push_decimal(&mut s, a as u64);
        }
        proof {
            reveal_strlit("-");
            reveal_strlit(",");
            reveal_strlit("/");
            assert(s@ =~= self.header_chars());
        }
        s
    }
}

/// A parsed packet header.
#[derive(Debug)]
pub struct RawHeader {
    pub kind: u8,
    pub count: u64,
    pub ns: String,
    pub ack: Option<i64>,
}

/// Which header parts each packet type carries: an attachment count for the
/// binary types, an acknowledgement id where the type admits one.
pub open spec fn raw_wf(h: RawHeader) -> bool {
    &&& h.kind <= 6
    &&& ns_chars_ok(h.ns@)
    &&& (h.kind == 3 || h.kind == 6) ==> h.ack is Some
    &&& !(h.kind == 2 || h.kind == 3 || h.kind == 5 || h.kind == 6) ==> h.ack is None
    &&& !(h.kind == 5 || h.kind == 6) ==> h.count == 0
    &&& (h.ack matches Some(a) ==> a >= 0)
}

/// The characters a raw header prints as; the same grammar as
/// `Packet::header_chars`.
pub open spec fn raw_header_chars(h: RawHeader) -> Seq<char> {
    header_chars_parts(
        h.kind as nat,
        h.count as nat,
        h.kind == 5 || h.kind == 6,
        h.ns@,
        h.ack,
    )
}

/// The characters at `start` spell the canonical decimal form of `v`, and
/// the form ends there: the next character, if any, is not a digit.
pub open spec fn dec_at(s: Seq<char>, start: int, v: nat) -> bool {
    &&& 0 <= start
    &&& start + dec_digits(v).len() <= s.len()
    &&& s.subrange(start, start + dec_digits(v).len() as int) == dec_digits(v)
    &&& (start + dec_digits(v).len() < s.len() ==> !is_digit_char(
        s[start + dec_digits(v).len() as int],
    ))
}

/// The first non-digit position after a canonical decimal form lies exactly
/// at its end.
proof fn lemma_digits_end_unique(s: Seq<char>, start: int, end: int, v: nat)
    requires
        0 <= start <= end <= s.len(),
        forall|k: int| start <= k < end ==> is_digit_char(#[trigger] s[k]),
        end < s.len() ==> !is_digit_char(s[end]),
        dec_at(s, start, v),
    ensures
        end == start + dec_digits(v).len(),
{
    lemma_dec_digits_are_digits(v);
    let l = dec_digits(v).len() as int;
    if end < start + l {
        assert(s[end] == s.subrange(start, start + l)[end - start]);
        assert(is_digit_char(dec_digits(v)[end - start]));
        assert(false);
    }
    if end > start + l {
        assert(is_digit_char(s[start + l]));
        assert(!is_digit_char(s[start + l]));
        assert(false);
    }
}

/// The input begins with the canonical print of this well-formed header,
/// and the boundary is unambiguous: the character right after it, if any,
/// is not a digit and not a slash.
pub open spec fn header_decodes(h: RawHeader, s: Seq<char>) -> bool {
    &&& raw_wf(h)
    &&& raw_header_chars(h).len() <= s.len()
    &&& s.subrange(0, raw_header_chars(h).len() as int) == raw_header_chars(h)
    &&& (raw_header_chars(h).len() < s.len() ==> !is_digit_char(
        s[raw_header_chars(h).len() as int],
    ) && s[raw_header_chars(h).len() as int] != '/')
}

/// Position right after the attachment-count part of the header.
pub open spec fn count_end(h: RawHeader) -> int {
    if h.kind == 5 || h.kind == 6 {
        2 + dec_digits(h.count as nat).len() as int
    } else {
        1
    }
}

/// Position right after the namespace part of the header.
pub open spec fn ns_end(h: RawHeader) -> int {
    count_end(h) + (if h.ns@ == "/"@ {
        0int
    } else {
        h.ns@.len() as int + 1
    })
}

/// A character of the slash-comma-bracket family is no digit.
proof fn lemma_not_digit(c: char)
    requires
        c == '-' || c == '/' || c == ',',
    ensures
        !is_digit_char(c),
{
    if is_digit_char(c) {
        let d = choose|d: nat| d < 10 && c == digit_char(d);
        assert(false);
    }
}

/// Where each part of a well-formed header stands in an input it prints a
/// prefix of.
proof fn lemma_header_prefix_facts(h: RawHeader, s: Seq<char>)
    requires
        header_decodes(h, s),
    ensures
        raw_header_chars(h).len() == ns_end(h) + (match h.ack {
            Some(a) => dec_digits(a as nat).len() as int,
            None => 0,
        }),
        1 <= count_end(h) <= ns_end(h) <= raw_header_chars(h).len() <= s.len(),
        s[0] == digit_char(h.kind as nat),
        (h.kind == 5 || h.kind == 6) ==> dec_at(s, 1, h.count as nat) && s[count_end(h) - 1]
            == '-',
        h.ns@ != "/"@ ==> {
            &&& count_end(h) < s.len() && s[count_end(h)] == '/'
            &&& s.subrange(count_end(h), count_end(h) + h.ns@.len() as int) == h.ns@
            &&& s[ns_end(h) - 1] == ','
            &&& forall|k: int| count_end(h) <= k < ns_end(h) - 1 ==> s[k] != ','
        },
        h.ns@ == "/"@ ==> (count_end(h) == s.len() || s[count_end(h)] != '/'),
        h.ack matches Some(a) ==> dec_at(s, ns_end(h), a as nat),
        h.ack is None ==> (ns_end(h) == s.len() || !is_digit_char(s[ns_end(h)])),
{
    let pr = raw_header_chars(h);
    let kindpart = seq![digit_char(h.kind as nat)];
    let cpart: Seq<char> = if h.kind == 5 || h.kind == 6 {
        dec_digits(h.count as nat) + seq!['-']
    } else {
        Seq::<char>::empty()
    };
    let npart: Seq<char> = if h.ns@ == "/"@ {
        Seq::<char>::empty()
    } else {
        h.ns@ + seq![',']
    };
    let apart: Seq<char> = match h.ack {
        Some(a) => dec_digits(a as nat),
        None => Seq::<char>::empty(),
    };
    assert(pr == kindpart + cpart + npart + apart);
    crate::numbers::lemma_dec_digits_len(h.count as nat);
    assert(count_end(h) == 1 + cpart.len());
    assert(ns_end(h) == 1 + cpart.len() + npart.len());
    match h.ack {
        Some(a) => {
            crate::numbers::lemma_dec_digits_len(a as nat);
        },
        None => {},
    }
    assert(pr.len() == 1 + cpart.len() + npart.len() + apart.len());
    assert forall|j: int| 0 <= j < pr.len() implies s[j] == pr[j] by {
        assert(s.subrange(0, pr.len() as int)[j] == s[j]);
    }
    assert(s[0] == digit_char(h.kind as nat)) by {
        assert(pr[0] == kindpart[0]);
    }
    if h.kind == 5 || h.kind == 6 {
        let lc = dec_digits(h.count as nat).len() as int;
        assert forall|j: int| 0 <= j < lc implies #[trigger] s[1 + j] == dec_digits(h.count as nat)[j] by {
            assert(pr[1 + j] == cpart[j]);
        }
        assert(s.subrange(1, 1 + lc) =~= dec_digits(h.count as nat));
        assert(s[1 + lc] == '-') by {
            assert(pr[1 + lc] == cpart[lc]);
        }
        lemma_not_digit('-');
        assert(dec_at(s, 1, h.count as nat));
        assert(s[count_end(h) - 1] == '-');
    }
    if h.ns@ != "/"@ {
        let c0 = count_end(h);
        let nl = h.ns@.len() as int;
        assert forall|j: int| 0 <= j < nl implies #[trigger] s[c0 + j] == h.ns@[j] by {
            assert(pr[c0 + j] == npart[j]);
        }
        assert(s.subrange(c0, c0 + nl) =~= h.ns@);
        assert(s[c0] == h.ns@[0]);
        assert(s[c0 + nl] == ',') by {
            assert(pr[c0 + nl] == npart[nl]);
        }
        assert forall|k: int| c0 <= k < ns_end(h) - 1 implies s[k] != ',' by {
            assert(s[k] == h.ns@[k - c0]);
        }
    } else {
        if count_end(h) < s.len() && s[count_end(h)] == '/' {
            match h.ack {
                Some(a) => {
                    assert(ns_end(h) == count_end(h));
                    assert(s[ns_end(h)] == dec_digits(a as nat)[0]) by {
                        assert(pr[ns_end(h)] == apart[0]);
                    }
                    crate::numbers::lemma_dec_digits_are_digits(a as nat);
                    lemma_not_digit('/');
                    assert(false);
                },
                None => {
                    assert(count_end(h) == pr.len());
                    assert(false);
                },
            }
        }
    }
    match h.ack {
        Some(a) => {
            let a0 = ns_end(h);
            let la = dec_digits(a as nat).len() as int;
            assert forall|j: int| 0 <= j < la implies #[trigger] s[a0 + j] == dec_digits(a as nat)[j] by {
                assert(pr[a0 + j] == apart[j]);
            }
            assert(s.subrange(a0, a0 + la) =~= dec_digits(a as nat));
            assert(a0 + la == pr.len());
            assert(dec_at(s, a0, a as nat));
        },
        None => {
            if ns_end(h) < s.len() && is_digit_char(s[ns_end(h)]) {
                assert(ns_end(h) == pr.len());
                assert(false);
            }
        },
    }
}

/// First position at or after `i` that is not a decimal digit.
fn digits_end(s: &str, i: usize, n: usize) -> (r: usize)
    requires
        n == s@.len(),
        i <= n,
    ensures
        i <= r <= n,
        r < n ==> !is_digit_char(s@[r as int]),
        forall|k: int| i <= k < r ==> is_digit_char(#[trigger] s@[k]),
    decreases n - i,
{
    if i >= n {
        i
    } else {
        let c = s.get_char(i);
        match char_digit(c) {
            None => i,
            Some(d) => {
                let r = digits_end(s, i + 1, n);
                proof {
                    assert(s@[i as int] == digit_char(d as nat) && (d as nat) < 10);
                }
                r
            },
        }
    }
}

/// First position at or after `i` holding a comma.
fn find_comma(s: &str, i: usize, n: usize) -> (r: Option<usize>)
    requires
        n == s@.len(),
        i <= n,
    ensures
        match r {
            Some(j) => i <= j < n && s@[j as int] == ',' && (forall|k: int|
                i <= k < j ==> s@[k] != ','),
            None => forall|k: int| i <= k < n ==> s@[k] != ',',
        },
    decreases n - i,
{
    if i >= n {
        None
    } else if s.get_char(i) == ',' {
        Some(i)
    } else {
        find_comma(s, i + 1, n)
    }
}

/// Reads a canonical decimal number starting at `start`: at least one digit,
/// no leading zero, value within `u64`.
fn scan_decimal(s: &str, start: usize, n: usize) -> (r: Result<(u64, usize), ProtocolError>)
    requires
        n == s@.len(),
        start <= n,
    ensures
        r matches Ok((v, end)) ==> {
            &&& start < end <= n
            &&& s@.subrange(start as int, end as int) == dec_digits(v as nat)
            &&& (end < n ==> !is_digit_char(s@[end as int]))
        },
        forall|v: u64|
            #[trigger] dec_at(s@, start as int, v as nat) ==> (r matches Ok(p) && p.0 == v
                && p.1 as int == start + dec_digits(v as nat).len()),
{
    let end = digits_end(s, start, n);
    proof {
        assert forall|v: u64| #[trigger] dec_at(s@, start as int, v as nat) implies end as int
            == start + dec_digits(v as nat).len() by {
            lemma_digits_end_unique(s@, start as int, end as int, v as nat);
        }
    }
    if end == start {
        proof {
            assert forall|v: u64| !#[trigger] dec_at(s@, start as int, v as nat) by {
                if dec_at(s@, start as int, v as nat) {
                    crate::numbers::lemma_dec_digits_len(v as nat);
                }
            }
        }
        return Err(ProtocolError::PacketParsing);
    }
    if end > start + 1 && s.get_char(start) == '0' {
        proof {
            assert forall|v: u64| !#[trigger] dec_at(s@, start as int, v as nat) by {
                if dec_at(s@, start as int, v as nat) {
                    assert(s@.subrange(
                        start as int,
                        start + dec_digits(v as nat).len(),
                    )[0] == s@[start as int]);
                    assert(dec_digits(v as nat)[0] == '0');
                    lemma_dec_digits_leading_zero(v as nat);
                    crate::numbers::lemma_dec_digits_len(0);
                }
            }
        }
        return Err(ProtocolError::PacketParsing);
    }
    let mut i: usize = start;
    let mut val: u64 = 0;
    while i < end
        invariant
            n == s@.len(),
            start <= i <= end <= n,
            end == start + 1 || s@[start as int] != '0',
            forall|k: int| start <= k < end ==> is_digit_char(#[trigger] s@[k]),
            end < n ==> !is_digit_char(s@[end as int]),
            i > start ==> s@.subrange(start as int, i as int) == dec_digits(val as nat),
            i > start ==> (val > 0 || i == start + 1),
            i == start ==> val == 0,
        decreases end - i,
    {
        let c = s.get_char(i);
        let d = match char_digit(c) {
            Some(d) => d,
            None => {
                proof {
                    assert(is_digit_char(s@[i as int]));
                    assert(false);
                }
                return Err(ProtocolError::PacketParsing);
            },
        };
        if i == start {
            val = d;
            proof {
                assert(s@.subrange(start as int, start + 1) =~= dec_digits(val as nat));
            }
        } else {
            if val == 0 {
                proof {
                    assert(s@.subrange(start as int, i as int)[0] == s@[start as int]);
                    assert(dec_digits(0)[0] == '0');
                    assert(false);
                }
                return Err(ProtocolError::PacketParsing);
            }
            if val > (u64::MAX - d) / 10 {
                proof {
                    assert forall|v: u64| !#[trigger] dec_at(s@, start as int, v as nat) by {
                        if dec_at(s@, start as int, v as nat) {
                            lemma_digits_end_unique(s@, start as int, end as int, v as nat);
                            let l = dec_digits(v as nat).len() as int;
                            let m = i as int - start;
                            assert(s@.subrange(start as int, i as int) =~= s@.subrange(
                                start as int,
                                start + l,
                            ).subrange(0, m));
                            assert(dec_digits(val as nat) == dec_digits(v as nat).subrange(0, m));
                            lemma_dec_digits_prefix(v as nat, m, val as nat);
                            assert(s@.subrange(start as int, start + l)[m] == s@[i as int]);
                            assert(dec_digits(v as nat)[m] == digit_char(d as nat));
                            assert(10 * (val as nat) + (d as nat) <= v as nat);
                            assert(10 * (val as nat) + (d as nat) > u64::MAX) by (nonlinear_arith)
                                requires
                                    val as nat > (u64::MAX - d) as nat / 10,
                                    d < 10,
                            ;
                        }
                    }
                }
                return Err(ProtocolError::PacketParsing);
            }
            let ghost oldval = val as nat;
            proof {
                assert(10 * oldval + (d as nat) <= u64::MAX) by (nonlinear_arith)
                    requires
                        oldval <= (u64::MAX - d) / 10,
                        d < 10,
                ;
            }
            val = val * 10 + d;
            proof {
                crate::numbers::lemma_dec_digits_extend(oldval, d as nat);
                assert(s@.subrange(start as int, i + 1) =~= s@.subrange(
                    start as int,
                    i as int,
                ).push(s@[i as int]));
            }
        }
        i += 1;
    }
    proof {
        assert forall|v: u64| #[trigger] dec_at(s@, start as int, v as nat) implies val == v
            && end as int == start + dec_digits(v as nat).len() by {
            lemma_digits_end_unique(s@, start as int, end as int, v as nat);
            assert(s@.subrange(start as int, end as int) == dec_digits(v as nat));
            lemma_dec_digits_injective(val as nat, v as nat);
        }
    }
    Ok((val, end))
}

/// Parses a packet header, returning it with the position where the JSON
/// body begins. The header read back is exactly the canonical print of the
/// returned value: re-encoding it reproduces the input text. And success is
/// owed: on any input that begins with the print of a well-formed header,
/// unambiguously delimited, parsing does not fail.
#[verifier::rlimit(100)]
#[verifier::spinoff_prover]
pub fn decode_header(s: &str) -> (r: Result<(RawHeader, usize), ProtocolError>)
    ensures
        r matches Ok((h, i)) ==> {
            &&& i <= s@.len()
            &&& raw_wf(h)
            &&& s@.subrange(0, i as int) == raw_header_chars(h)
        },
        forall|g: RawHeader| #[trigger] header_decodes(g, s@) ==> (r matches Ok(p) && p.1 as int
            == raw_header_chars(g).len()),
{
    let n = s.unicode_len();
    if n == 0 {
        proof {
            assert forall|g: RawHeader| !#[trigger] header_decodes(g, s@) by {
                if header_decodes(g, s@) {
                    lemma_header_prefix_facts(g, s@);
                }
            }
        }
        return Err(ProtocolError::PacketParsing);
    }
    let c0 = s.get_char(0);
    let kind: u8 = match char_digit(c0) {
        Some(d) => {
            if d <= 6 {
                d as u8
            } else {
                proof {
                    assert forall|g: RawHeader| !#[trigger] header_decodes(g, s@) by {
                        if header_decodes(g, s@) {
                            lemma_header_prefix_facts(g, s@);
                            crate::numbers::lemma_digit_char_injective(d as nat, g.kind as nat);
                        }
                    }
                }
                return Err(ProtocolError::PacketParsing);
            }
        },
        None => {
            proof {
                assert forall|g: RawHeader| !#[trigger] header_decodes(g, s@) by {
                    if header_decodes(g, s@) {
                        lemma_header_prefix_facts(g, s@);
                        assert(is_digit_char(s@[0]));
                    }
                }
            }
            return Err(ProtocolError::PacketParsing);
        },
    };
    let mut i: usize = 1;
    let mut count: u64 = 0;
    if kind == 5 || kind == 6 {
        let scanned = scan_decimal(s, 1, n);
        proof {
            assert forall|g: RawHeader| #[trigger] header_decodes(g, s@) implies (scanned matches
                Ok(p) && p.0 == g.count && p.1 as int == count_end(g) - 1) by {
                lemma_header_prefix_facts(g, s@);
                crate::numbers::lemma_digit_char_injective(kind as nat, g.kind as nat);
                assert(dec_at(s@, 1, g.count as nat));
            }
        }
        let (v, j) = match scanned {
            Ok(p) => p,
            Err(e) => {
                return Err(e);
            },
        };
        if j >= n || s.get_char(j) != '-' {
            proof {
                assert forall|g: RawHeader| !#[trigger] header_decodes(g, s@) by {
                    if header_decodes(g, s@) {
                        lemma_header_prefix_facts(g, s@);
                        assert(s@[count_end(g) - 1] == '-');
                    }
                }
            }
            return Err(ProtocolError::PacketParsing);
        }
        count = v;
        i = j + 1;
    }
    proof {
        assert forall|g: RawHeader| #[trigger] header_decodes(g, s@) implies i as int == count_end(
            g,
        ) by {
            lemma_header_prefix_facts(g, s@);
            crate::numbers::lemma_digit_char_injective(kind as nat, g.kind as nat);
        }
    }
    let ns: String;
    if i < n && s.get_char(i) == '/' {
        let found = find_comma(s, i, n);
        proof {
            assert forall|g: RawHeader| #[trigger] header_decodes(g, s@) implies (found matches
                Some(j2) && j2 as int == ns_end(g) - 1 && g.ns@ != "/"@) by {
                lemma_header_prefix_facts(g, s@);
                assert(g.ns@ != "/"@);
                match found {
                    None => {
                        assert(s@[ns_end(g) - 1] == ',');
                        assert(false);
                    },
                    Some(j2) => {
                        if (j2 as int) < ns_end(g) - 1 {
                            assert(s@[j2 as int] != ',');
                            assert(false);
                        }
                        if (j2 as int) > ns_end(g) - 1 {
                            assert(s@[ns_end(g) - 1] != ',');
                            assert(false);
                        }
                    },
                }
            }
        }
        let j = match found {
            Some(j) => j,
            None => {
                return Err(ProtocolError::PacketParsing);
            },
        };
        let piece = s.substring_char(i, j);
        let parsed = piece.to_owned();
        let root = String::from_str("/");
        if parsed == root {
            // an explicit root namespace is never printed
            proof {
                assert forall|g: RawHeader| !#[trigger] header_decodes(g, s@) by {
                    if header_decodes(g, s@) {
                        lemma_header_prefix_facts(g, s@);
                        assert(parsed@ == s@.subrange(count_end(g), ns_end(g) - 1));
                        assert(parsed@ == g.ns@);
                    }
                }
            }
            return Err(ProtocolError::PacketParsing);
        }
        ns = parsed;
        i = j + 1;
    } else {
        proof {
            assert forall|g: RawHeader| #[trigger] header_decodes(g, s@) implies g.ns@ == "/"@ by {
                lemma_header_prefix_facts(g, s@);
                if g.ns@ != "/"@ {
                    assert(count_end(g) < s@.len() && s@[count_end(g)] == '/');
                    assert(false);
                }
            }
        }
        ns = String::from_str("/");
    }
    proof {
        assert forall|g: RawHeader| #[trigger] header_decodes(g, s@) implies i as int == ns_end(
            g,
        ) by {
            lemma_header_prefix_facts(g, s@);
        }
    }
    let ack: Option<i64>;
    if kind == 2 || kind == 3 || kind == 5 || kind == 6 {
        let has_digit = if i < n {
            match char_digit(s.get_char(i)) {
                Some(_) => true,
                None => false,
            }
        } else {
            false
        };
        proof {
            assert forall|g: RawHeader| #[trigger] header_decodes(g, s@) implies (g.ack is Some
                <==> has_digit) by {
                lemma_header_prefix_facts(g, s@);
                match g.ack {
                    Some(a) => {
                        crate::numbers::lemma_dec_digits_are_digits(a as nat);
                        crate::numbers::lemma_dec_digits_len(a as nat);
                        assert(s@.subrange(ns_end(g), ns_end(g) + dec_digits(a as nat).len())[0]
                            == s@[ns_end(g)]);
                        assert(is_digit_char(s@[ns_end(g)]));
                    },
                    None => {},
                }
            }
        }
        if has_digit {
            let scanned = scan_decimal(s, i, n);
            proof {
                assert forall|g: RawHeader| #[trigger] header_decodes(g, s@) implies (scanned
                    matches Ok(p) && g.ack matches Some(a) && p.0 as int == a && p.1 as int
                    == raw_header_chars(g).len()) by {
                    lemma_header_prefix_facts(g, s@);
                    match g.ack {
                        Some(a) => {
                            assert(dec_at(s@, ns_end(g), a as nat));
                            assert(dec_at(s@, i as int, (a as u64) as nat));
                        },
                        None => {},
                    }
                }
            }
            let (v, j) = match scanned {
                Ok(p) => p,
                Err(e) => {
                    return Err(e);
                },
            };
            if v > i64::MAX as u64 {
                proof {
                    assert forall|g: RawHeader| !#[trigger] header_decodes(g, s@) by {
                        if header_decodes(g, s@) {
                            lemma_header_prefix_facts(g, s@);
                        }
                    }
                }
                return Err(ProtocolError::PacketParsing);
            }
            ack = Some(v as i64);
            i = j;
        } else {
            if kind == 3 || kind == 6 {
                proof {
                    assert forall|g: RawHeader| !#[trigger] header_decodes(g, s@) by {
                        if header_decodes(g, s@) {
                            lemma_header_prefix_facts(g, s@);
                            crate::numbers::lemma_digit_char_injective(kind as nat, g.kind as nat);
                        }
                    }
                }
                return Err(ProtocolError::PacketParsing);
            }
            ack = None;
            proof {
                assert forall|g: RawHeader| #[trigger] header_decodes(g, s@) implies i as int
                    == raw_header_chars(g).len() by {
                    lemma_header_prefix_facts(g, s@);
                }
            }
        }
    } else {
        ack = None;
        proof {
            assert forall|g: RawHeader| #[trigger] header_decodes(g, s@) implies i as int
                == raw_header_chars(g).len() by {
                lemma_header_prefix_facts(g, s@);
                crate::numbers::lemma_digit_char_injective(kind as nat, g.kind as nat);
            }
        }
    }
    let h = RawHeader { kind, count, ns, ack };
    proof {
        reveal_strlit("/");
        assert(s@.subrange(0, i as int) =~= raw_header_chars(h));
    }
    Ok((h, i))
}

impl Packet {
    /// The JSON data carried by the packet: the event or acknowledgement
    /// payload, or the connect payload when present.
    pub open spec fn spec_data(self) -> Json {
        match self {
            Packet::Event { data, .. } => data,
            Packet::BinaryEvent { data, .. } => data,
            Packet::EventAck { data, .. } => data,
            Packet::BinaryAck { data, .. } => data,
            Packet::Connect { payload: Some(j), .. } => j,
            _ => Json::Null,
        }
    }

    /// The event name, on event packets.
    pub open spec fn spec_name(self) -> Option<Seq<char>> {
        match self {
            Packet::Event { name, .. } => Some(name@),
            Packet::BinaryEvent { name, .. } => Some(name@),
            _ => None,
        }
    }

    /// Well-formedness of everything the header carries; `wf` adds on top of
    /// this that the placeholders point into the attachments.
    pub open spec fn header_wf(self) -> bool {
        &&& ns_chars_ok(self.spec_ns())
        &&& (self.spec_ack() matches Some(a) ==> a >= 0)
    }
}

/// A packet and a raw header print the same header text.
pub open spec fn matches_header(p: Packet, h: RawHeader) -> bool {
    &&& p.type_digit() == h.kind as nat
    &&& p.spec_ns() == h.ns@
    &&& p.spec_ack() == h.ack
}

/// A packet whose header parts equal a raw header's, and whose attachment
/// count equals the announced one, prints exactly the header that was read:
/// decoding then encoding is the identity on the header text.
pub proof fn lemma_header_roundtrip(p: Packet, h: RawHeader)
    requires
        matches_header(p, h),
        p.is_binary() ==> p.spec_bin().len() == h.count as nat,
    ensures
        p.header_chars() == raw_header_chars(h),
{
    assert(p.is_binary() <==> (h.kind == 5 || h.kind == 6));
    assert(p.header_chars() =~= raw_header_chars(h));
}

/// The canonical print of a well-formed header is decodable input: handed
/// exactly that text, `decode_header` is owed success, and what it returns
/// prints back as the very same text. Together with `lemma_header_roundtrip`
/// this is the round-trip law of the header codec.
pub proof fn lemma_header_print_decodes(h: RawHeader)
    requires
        raw_wf(h),
    ensures
        header_decodes(h, raw_header_chars(h)),
{
    assert(raw_header_chars(h).subrange(0, raw_header_chars(h).len() as int) =~= raw_header_chars(
        h,
    ));
}

/// Two canonical decimal forms starting at the same position of the same
/// text, each ending before a non-digit, carry the same value.
proof fn lemma_dec_at_unique(s: Seq<char>, start: int, a: nat, b: nat)
    requires
        dec_at(s, start, a),
        dec_at(s, start, b),
    ensures
        a == b,
{
    lemma_dec_digits_are_digits(a);
    lemma_dec_digits_are_digits(b);
    let la = dec_digits(a).len() as int;
    let lb = dec_digits(b).len() as int;
    if la < lb {
        assert(s[start + la] == s.subrange(start, start + lb)[la]);
        assert(is_digit_char(dec_digits(b)[la]));
        assert(false);
    }
    if lb < la {
        assert(s[start + lb] == s.subrange(start, start + la)[lb]);
        assert(is_digit_char(dec_digits(a)[lb]));
        assert(false);
    }
    assert(dec_digits(a) =~= dec_digits(b)) by {
        assert(dec_digits(a) == s.subrange(start, start + la));
        assert(dec_digits(b) == s.subrange(start, start + lb));
    }
    lemma_dec_digits_injective(a, b);
}

/// A well-formed header is determined by its canonical print: two headers
/// that print the same text agree on every field. Combined with
/// `decode_header`'s contract this pins the decoded header: on input that
/// starts with the print of a well-formed header, what comes back prints
/// that same text, hence carries the same type, count, namespace and
/// acknowledgement id.
pub proof fn lemma_print_injective(g: RawHeader, h: RawHeader)
    requires
        raw_wf(g),
        raw_wf(h),
        raw_header_chars(g) == raw_header_chars(h),
    ensures
        g.kind == h.kind,
        g.count == h.count,
        g.ns@ == h.ns@,
        g.ack == h.ack,
{
    let s = raw_header_chars(g);
    lemma_header_print_decodes(g);
    assert(header_decodes(h, s)) by {
        assert(raw_header_chars(h).subrange(0, raw_header_chars(h).len() as int)
            =~= raw_header_chars(h));
    }
    lemma_header_prefix_facts(g, s);
    lemma_header_prefix_facts(h, s);
    crate::numbers::lemma_digit_char_injective(g.kind as nat, h.kind as nat);
    if g.kind == 5 || g.kind == 6 {
        lemma_dec_at_unique(s, 1, g.count as nat, h.count as nat);
    }
    assert(count_end(g) == count_end(h));
    if g.ns@ == "/"@ && h.ns@ != "/"@ {
        assert(count_end(h) < s.len() && s[count_end(h)] == '/');
        assert(false);
    }
    if g.ns@ != "/"@ && h.ns@ == "/"@ {
        assert(count_end(g) < s.len() && s[count_end(g)] == '/');
        assert(false);
    }
    if g.ns@ != "/"@ {
        if ns_end(g) < ns_end(h) {
            assert(s[ns_end(g) - 1] == ',');
            assert(s[ns_end(g) - 1] != ',');
            assert(false);
        }
        if ns_end(h) < ns_end(g) {
            assert(s[ns_end(h) - 1] == ',');
            assert(s[ns_end(h) - 1] != ',');
            assert(false);
        }
        assert(g.ns@ =~= h.ns@) by {
            assert(g.ns@ == s.subrange(count_end(g), count_end(g) + g.ns@.len() as int));
            assert(h.ns@ == s.subrange(count_end(h), count_end(h) + h.ns@.len() as int));
        }
    }
    assert(ns_end(g) == ns_end(h));
    match (g.ack, h.ack) {
        (Some(a), None) => {
            crate::numbers::lemma_dec_digits_are_digits(a as nat);
            crate::numbers::lemma_dec_digits_len(a as nat);
            assert(s[ns_end(g)] == s.subrange(ns_end(g), ns_end(g) + dec_digits(a as nat).len())[0]);
            assert(is_digit_char(s[ns_end(g)]));
            assert(false);
        },
        (None, Some(b)) => {
            crate::numbers::lemma_dec_digits_are_digits(b as nat);
            crate::numbers::lemma_dec_digits_len(b as nat);
            assert(s[ns_end(h)] == s.subrange(ns_end(h), ns_end(h) + dec_digits(b as nat).len())[0]);
            assert(is_digit_char(s[ns_end(h)]));
            assert(false);
        },
        (Some(a), Some(b)) => {
            lemma_dec_at_unique(s, ns_end(g), a as nat, b as nat);
        },
        (None, None) => {},
    }
}

/// Whether a JSON body has the right shape for a packet type.
pub open spec fn shape_ok(kind: nat, body: Option<Json>) -> bool {
    if kind == 0 {
        true
    } else if kind == 1 {
        body is None
    } else if kind == 2 || kind == 5 {
        body matches Some(Json::Arr(items)) && items@.len() == 2 && items@[0] is Str
    } else if kind == 3 || kind == 6 {
        body matches Some(Json::Arr(items)) && items@.len() == 1
    } else if kind == 4 {
        body matches Some(Json::Obj(fields)) && fields@.len() == 1 && fields@[0].0@ == "message"@
            && fields@[0].1 is Str
    } else {
        false
    }
}

/// Pairs a parsed header with its parsed JSON body, giving the packet. The
/// binary variants come out with no attachments yet: those are spliced in by
/// the frame-level decoder.
pub fn assemble(h: RawHeader, body: Option<Json>) -> (r: Result<Packet, ProtocolError>)
    requires
        raw_wf(h),
    ensures
        r matches Ok(p) ==> {
            &&& matches_header(p, h)
            &&& body_matches(p, body)
            &&& p.header_wf()
            &&& p.spec_bin() == Seq::<Seq<u8>>::empty()
            &&& shape_ok(h.kind as nat, body)
        },
        r is Err <==> !shape_ok(h.kind as nat, body),
{
    let RawHeader { kind, count: _, ns, ack } = h;
    if kind == 0 {
        Ok(Packet::Connect { ns, payload: body })
    } else if kind == 1 {
        match body {
            None => Ok(Packet::Disconnect { ns }),
            Some(_) => Err(ProtocolError::PacketParsing),
        }
    } else if kind == 2 || kind == 5 {
        match body {
            Some(Json::Arr(mut items)) => {
                if items.len() != 2 {
                    return Err(ProtocolError::PacketParsing);
                }
                let first = items.remove(0);
                let data = items.remove(0);
                match first {
                    Json::Str(name) => {
                        if kind == 2 {
                            Ok(Packet::Event { ns, name, data, ack })
                        } else {
                            Ok(Packet::BinaryEvent { ns, name, data, bin: Vec::new(), ack })
                        }
                    },
                    _ => Err(ProtocolError::PacketParsing),
                }
            },
            _ => Err(ProtocolError::PacketParsing),
        }
    } else if kind == 3 || kind == 6 {
        match body {
            Some(Json::Arr(mut items)) => {
                if items.len() != 1 {
                    return Err(ProtocolError::PacketParsing);
                }
                let data = items.remove(0);
                let id = match ack {
                    Some(a) => a,
                    None => unreached(),
                };
                if kind == 3 {
                    Ok(Packet::EventAck { ns, data, ack: id })
                } else {
                    Ok(Packet::BinaryAck { ns, data, bin: Vec::new(), ack: id })
                }
            },
            _ => Err(ProtocolError::PacketParsing),
        }
    } else if kind == 4 {
        match body {
            Some(Json::Obj(mut fields)) => {
                if fields.len() != 1 {
                    return Err(ProtocolError::PacketParsing);
                }
                let (key, value) = fields.remove(0);
                let expected = String::from_str("message");
                if !(key == expected) {
                    return Err(ProtocolError::PacketParsing);
                }
                match value {
                    Json::Str(message) => Ok(Packet::ConnectError { ns, message }),
                    _ => Err(ProtocolError::PacketParsing),
                }
            },
            _ => Err(ProtocolError::PacketParsing),
        }
    } else {
        proof {
            assert(false);
        }
        unreached()
    }
}

/// State of the frame-level decoder for binary packets.
#[derive(Debug)]
pub enum DecodeState {
    AwaitingHeader,
    AwaitingAttachments { remaining: u64, partial: Packet },
}

/// Reassembles binary packets from a stream of decoded headers and binary
/// frames, as the inbound side of a connection sees them.
#[derive(Debug)]
pub struct PacketDecoder {
    pub state: DecodeState,
}

impl PacketDecoder {
    /// The partial packet of an attachment-collecting state is a binary
    /// packet with a sound header and at least one attachment still owed.
    pub open spec fn wf(self) -> bool {
        self.state matches DecodeState::AwaitingAttachments { remaining, partial } ==> {
            &&& remaining > 0
            &&& partial.is_binary()
            &&& partial.header_wf()
        }
    }

    pub fn new() -> (d: Self)
        ensures
            d.wf(),
            d.state is AwaitingHeader,
    {
        PacketDecoder { state: DecodeState::AwaitingHeader }
    }

    /// Feeds a decoded text packet with its announced attachment count.
    /// A non-binary packet or one without attachments completes at once; a
    /// binary packet with announced attachments starts collecting them; any
    /// text packet while attachments are owed is a protocol error.
    pub fn feed_packet(&mut self, p: Packet, announced: u64) -> (r: Result<
        Option<Packet>,
        ProtocolError,
    >)
        requires
            old(self).wf(),
            p.header_wf(),
            p.is_binary() ==> p.spec_bin() == Seq::<Seq<u8>>::empty(),
            !p.is_binary() ==> announced == 0,
        ensures
            final(self).wf(),
            old(self).state is AwaitingAttachments ==> r is Err && final(self).state
                is AwaitingHeader,
            old(self).state is AwaitingHeader && !p.is_binary() ==> r == Ok::<
                Option<Packet>,
                ProtocolError,
            >(Some(p)) && final(self).state is AwaitingHeader,
            old(self).state is AwaitingHeader && p.is_binary() && announced > 0 ==> r == Ok::<
                Option<Packet>,
                ProtocolError,
            >(None) && final(self).state == (DecodeState::AwaitingAttachments {
                remaining: announced,
                partial: p,
            }),
            old(self).state is AwaitingHeader && p.is_binary() && announced == 0 ==> final(self).state is AwaitingHeader && (if placeholders_valid(p.spec_data(), 0) {
                r == Ok::<Option<Packet>, ProtocolError>(Some(p))
            } else {
                r is Err
            }),
            r matches Ok(Some(q)) ==> q.wf() && q.header_wf(),
    {
        match &self.state {
            DecodeState::AwaitingAttachments { .. } => {
                self.state = DecodeState::AwaitingHeader;
                Err(ProtocolError::PacketParsing)
            },
            DecodeState::AwaitingHeader => {
                let is_bin = match &p {
                    Packet::BinaryEvent { .. } => true,
                    Packet::BinaryAck { .. } => true,
                    _ => false,
                };
                if !is_bin {
                    return Ok(Some(p));
                }
                if announced > 0 {
                    self.state = DecodeState::AwaitingAttachments {
                        remaining: announced,
                        partial: p,
                    };
                    return Ok(None);
                }
                let data_ok = match &p {
                    Packet::BinaryEvent { data, .. } => data.placeholders_in_range(0),
                    Packet::BinaryAck { data, .. } => data.placeholders_in_range(0),
                    _ => true,
                };
                if data_ok {
                    proof {
                        match &p {
                            Packet::BinaryEvent { data, bin, .. } => {
                                assert(bin.deep_view() == Seq::<Seq<u8>>::empty());
                                assert(bin.deep_view().len() == 0);
                                assert(bin.deep_view().len() == bin@.len());
                                assert(bin@.len() == 0);
                                assert(placeholders_valid(*data, 0));
                                assert(placeholders_valid(*data, bin@.len() as int));
                            },
                            Packet::BinaryAck { data, bin, .. } => {
                                assert(bin.deep_view() == Seq::<Seq<u8>>::empty());
                                assert(bin.deep_view().len() == 0);
                                assert(bin.deep_view().len() == bin@.len());
                                assert(bin@.len() == 0);
                                assert(placeholders_valid(*data, 0));
                                assert(placeholders_valid(*data, bin@.len() as int));
                            },
                            _ => {},
                        }
                        assert(p.wf());
                    }
                    Ok(Some(p))
                } else {
                    Err(ProtocolError::PacketParsing)
                }
            },
        }
    }

    /// Feeds one binary frame. While attachments are owed it is appended to
    /// the partial packet; the packet completes with its last attachment,
    /// after a check that every placeholder points into the attachments. A
    /// binary frame with no owed attachment is a protocol error.
    pub fn feed_binary(&mut self, b: Vec<u8>) -> (r: Result<Option<Packet>, ProtocolError>)
        requires
            old(self).wf(),
        ensures
            final(self).wf(),
            old(self).state is AwaitingHeader ==> r is Err && final(self).state is AwaitingHeader,
            old(self).state matches DecodeState::AwaitingAttachments { remaining, partial } ==> {
                &&& (remaining > 1 ==> r == Ok::<Option<Packet>, ProtocolError>(None) && (final(self).state matches DecodeState::AwaitingAttachments {
                    remaining: rem2,
                    partial: partial2,
                } && rem2 == remaining - 1 && partial2.spec_bin() == partial.spec_bin().push(b@)
                    && partial2.spec_ns() == partial.spec_ns() && partial2.spec_ack()
                    == partial.spec_ack() && partial2.type_digit() == partial.type_digit()
                    && partial2.spec_data() == partial.spec_data() && partial2.spec_name()
                    == partial.spec_name()))
                &&& (remaining == 1 ==> final(self).state is AwaitingHeader && (if
                placeholders_valid(partial.spec_data(), partial.spec_bin().len() as int + 1) {
                    r matches Ok(Some(q)) && q.spec_bin() == partial.spec_bin().push(b@)
                        && q.spec_ns() == partial.spec_ns() && q.spec_ack() == partial.spec_ack()
                        && q.type_digit() == partial.type_digit() && q.spec_data()
                        == partial.spec_data() && q.spec_name() == partial.spec_name() && q.wf()
                } else {
                    r is Err
                }))
            },
    {
        let mut taken = DecodeState::AwaitingHeader;
        core::mem::swap(&mut taken, &mut self.state);
        match taken {
            DecodeState::AwaitingHeader => Err(ProtocolError::PacketParsing),
            DecodeState::AwaitingAttachments { remaining, partial } => {
                match partial {
                    Packet::BinaryEvent { ns, name, data, mut bin, ack } => {
                        bin.push(b);
                        let q = Packet::BinaryEvent { ns, name, data, bin, ack };
                        proof {
                            let gp = old(self).state->AwaitingAttachments_partial;
                            assert(q.spec_bin() =~~= gp.spec_bin().push(b@));
                        }
                        self.finish_attachment(remaining, q)
                    },
                    Packet::BinaryAck { ns, data, mut bin, ack } => {
                        bin.push(b);
                        let q = Packet::BinaryAck { ns, data, bin, ack };
                        proof {
                            let gp = old(self).state->AwaitingAttachments_partial;
                            assert(q.spec_bin() =~~= gp.spec_bin().push(b@));
                        }
                        self.finish_attachment(remaining, q)
                    },
                    _ => {
                        proof {
                            assert(false);
                        }
                        unreached()
                    },
                }
            },
        }
    }

    /// After appending an attachment: either more are owed, or the packet is
    /// complete and its placeholders are validated.
    fn finish_attachment(&mut self, remaining: u64, q: Packet) -> (r: Result<
        Option<Packet>,
        ProtocolError,
    >)
        requires
            old(self).state is AwaitingHeader,
            remaining >= 1,
            q.is_binary(),
            q.header_wf(),
            q.spec_bin().len() >= 1,
        ensures
            final(self).wf(),
            remaining > 1 ==> r == Ok::<Option<Packet>, ProtocolError>(None) && final(self).state
                == (DecodeState::AwaitingAttachments {
                remaining: (remaining - 1) as u64,
                partial: q,
            }),
            remaining == 1 ==> final(self).state is AwaitingHeader && (if placeholders_valid(
                q.spec_data(),
                q.spec_bin().len() as int,
            ) {
                r == Ok::<Option<Packet>, ProtocolError>(Some(q)) && q.wf()
            } else {
                r is Err
            }),
    {
        if remaining > 1 {
            self.state = DecodeState::AwaitingAttachments { remaining: remaining - 1, partial: q };
            return Ok(None);
        }
        let ok = match &q {
            Packet::BinaryEvent { data, bin, .. } => data.placeholders_in_range(bin.len()),
            Packet::BinaryAck { data, bin, .. } => data.placeholders_in_range(bin.len()),
            _ => true,
        };
        if ok {
            Ok(Some(q))
        } else {
            Err(ProtocolError::PacketParsing)
        }
    }
}

impl Packet {
    /// Splits the packet into its wire parts: the encoded header, the JSON
    /// body of the text frame, and the binary attachments in order.
    pub fn into_parts(self) -> (r: (String, Option<Json>, Vec<Vec<u8>>))
        requires
            self.wf(),
        ensures
            r.0@ == self.header_chars(),
            body_matches(self, r.1),
            r.2.deep_view() == self.spec_bin(),
    {
        let header = self.encode_header();
        match self {
            Packet::Connect { payload, .. } => (header, payload, Vec::new()),
            Packet::Disconnect { .. } => (header, None, Vec::new()),
            Packet::Event { name, data, .. } => {
                let mut items: Vec<Json> = Vec::new();
                items.push(Json::Str(name));
                items.push(data);
                (header, Some(Json::Arr(items)), Vec::new())
            },
            Packet::EventAck { data, .. } => {
                let mut items: Vec<Json> = Vec::new();
                items.push(data);
                (header, Some(Json::Arr(items)), Vec::new())
            },
            Packet::BinaryEvent { name, data, bin, .. } => {
                let mut items: Vec<Json> = Vec::new();
                items.push(Json::Str(name));
                items.push(data);
                (header, Some(Json::Arr(items)), bin)
            },
            Packet::BinaryAck { data, bin, .. } => {
                let mut items: Vec<Json> = Vec::new();
                items.push(data);
                (header, Some(Json::Arr(items)), bin)
            },
            Packet::ConnectError { message, .. } => {
                let mut fields: Vec<(String, Json)> = Vec::new();
                fields.push((String::from_str("message"), Json::Str(message)));
                (header, Some(Json::Obj(fields)), Vec::new())
            },
        }
    }
}

} // verus!
