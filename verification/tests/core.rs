use socketio_core::ack::AckResponse;
use socketio_core::adapter::Rooms;
use socketio_core::errors::{AckError, SendError};
use socketio_core::json::Json;
use socketio_core::packet::{assemble, decode_header, Packet, PacketDecoder};
use socketio_core::reason::{DisconnectReason, EngineCloseReason};
use socketio_core::socket::{RecvAction, Sid, Socket};

fn root() -> String {
    String::from("/")
}

fn sock(n: u64) -> Socket {
    Socket::new_dummy(Sid(n), root())
}

#[test]
fn send_with_ack_error() {
    let mut socket = sock(1);
    // Saturate the channel
    for _ in 0..200 {
        socket
            .send(Packet::event(root(), String::from("test"), Json::Null))
            .unwrap();
    }

    let ack = socket.emit_with_ack(String::from("test"), Json::Null);
    assert!(matches!(ack, Err(SendError::InternalChannelFull)));
}

#[test]
fn emit_queues_one_text_frame() {
    let mut socket = sock(2);
    socket.emit(String::from("hello"), Json::Int(7)).unwrap();
    let frames = socket.drain_frames();
    assert_eq!(frames.len(), 1);
    match &frames[0] {
        socketio_core::engine::EngineFrame::Text { header, body } => {
            assert_eq!(header.as_str(), "2");
            match body {
                Some(Json::Arr(items)) => {
                    assert_eq!(items.len(), 2);
                    assert!(items[0].deep_eq(&Json::Str(String::from("hello"))));
                    assert!(items[1].deep_eq(&Json::Int(7)));
                }
                _ => panic!("event body must be an array"),
            }
        }
        _ => panic!("expected a text frame"),
    }
}

#[test]
fn channel_full_after_capacity() {
    // max_buffer_size = 100: the first 100 emits succeed, later ones fail.
    let mut config = socketio_core::config::SocketIoConfig::default();
    config.max_buffer_size = 100;
    let mut socket = Socket::new(Sid(3), root(), config);
    for i in 0..200 {
        let r = socket.emit(String::from("x"), Json::Int(i));
        if i < 100 {
            assert!(r.is_ok());
        } else {
            assert!(matches!(r, Err(SendError::InternalChannelFull)));
        }
    }
    assert_eq!(socket.drain_frames().len(), 100);
}

#[test]
fn ack_ids_strictly_increase() {
    let mut socket = sock(4);
    let t1 = socket.emit_with_ack(String::from("a"), Json::Null).unwrap();
    let t2 = socket.emit_with_ack(String::from("b"), Json::Null).unwrap();
    let t3 = socket.emit_with_ack(String::from("c"), Json::Null).unwrap();
    assert_eq!(t1.id, 1);
    assert_eq!(t2.id, 2);
    assert_eq!(t3.id, 3);
    assert_eq!(socket.ack_counter(), 3);
}

#[test]
fn ack_echo_resolves_once() {
    let mut socket = sock(5);
    let t = socket.emit_with_ack(String::from("ping"), Json::Int(1)).unwrap();
    assert_eq!(t.id, 1);
    assert_eq!(t.timeout_ms, 5000);
    // client replies
    let reply = Packet::EventAck { ns: root(), data: Json::Int(1), ack: t.id };
    match socket.recv(reply).unwrap() {
        RecvAction::ResolveAck { id, response } => {
            assert_eq!(id, 1);
            assert!(response.data.deep_eq(&Json::Int(1)));
            assert!(response.binary.is_empty());
        }
        _ => panic!("expected an acknowledgement resolution"),
    }
    // a second reply for the same id is silently dropped
    let again = Packet::EventAck { ns: root(), data: Json::Int(1), ack: t.id };
    assert!(matches!(socket.recv(again).unwrap(), RecvAction::Ignored));
}

#[test]
fn ack_timeout_then_late_response() {
    let mut socket = sock(6);
    // the builder's timeout override reaches the ticket
    let ops = socket.timeout(100);
    let ticket = ops.emit_with_ack(&mut socket, String::from("q"), Json::Null).unwrap();
    assert_eq!(ticket.timeout_ms, 100);
    // the timeout fires first
    let delivered = socket.ack_timeout(ticket.id);
    assert!(matches!(delivered, Some(AckError::Timeout)));
    // a response arriving later causes no observable effect
    let late = Packet::EventAck { ns: root(), data: Json::Null, ack: ticket.id };
    assert!(matches!(socket.recv(late).unwrap(), RecvAction::Ignored));
    // and a repeated timeout delivers nothing
    assert!(socket.ack_timeout(ticket.id).is_none());
}

#[test]
fn close_is_idempotent() {
    let mut socket = sock(7);
    socket.on_disconnect(42);
    let ticket = socket.emit_with_ack(String::from("e"), Json::Null).unwrap();
    let eff = socket.close(DisconnectReason::TransportClose);
    assert_eq!(eff.notify, Some((42, DisconnectReason::TransportClose)));
    assert_eq!(eff.failed_acks, vec![ticket.id]);
    assert_eq!(eff.left_rooms, Some(socket.id));
    // the second close with another reason is a no-op
    let eff2 = socket.close(DisconnectReason::ServerNSDisconnect);
    assert!(eff2.notify.is_none());
    assert!(eff2.failed_acks.is_empty());
    assert!(eff2.left_rooms.is_none());
}

#[test]
fn disconnect_twice_is_noop() {
    let mut socket = sock(8);
    let (r1, _eff1) = socket.disconnect();
    assert!(r1.is_ok());
    assert!(socket.is_closed());
    let frames = socket.drain_frames();
    assert_eq!(frames.len(), 1);
    let (r2, eff2) = socket.disconnect();
    assert!(r2.is_ok());
    assert!(eff2.notify.is_none() && eff2.failed_acks.is_empty());
    assert_eq!(socket.drain_frames().len(), 0);
}

#[test]
fn handler_dispatch_last_registration_wins() {
    let mut socket = sock(9);
    socket.on(String::from("msg"), 1);
    socket.on(String::from("msg"), 2);
    let p = Packet::Event { ns: root(), name: String::from("msg"), data: Json::Bool(true), ack: Some(9) };
    match socket.recv(p).unwrap() {
        RecvAction::InvokeHandler { handler, data, bin, ack } => {
            assert_eq!(handler, 2);
            assert!(data.deep_eq(&Json::Bool(true)));
            assert!(bin.is_empty());
            assert_eq!(ack, Some(9));
        }
        _ => panic!("expected handler invocation"),
    }
    let unknown = Packet::Event { ns: root(), name: String::from("other"), data: Json::Null, ack: None };
    assert!(matches!(socket.recv(unknown).unwrap(), RecvAction::Ignored));
}

#[test]
fn broadcast_selection() {
    // Sockets A, B, C; A joins r1, B joins r1 and r2, C joins r2.
    let a = sock(10);
    let b = sock(11);
    let c = sock(12);
    let mut rooms = Rooms::new();
    a.join(vec![String::from("r1")], &mut rooms).unwrap();
    b.join(vec![String::from("r1"), String::from("r2")], &mut rooms).unwrap();
    c.join(vec![String::from("r2")], &mut rooms).unwrap();

    // From A: to("r1").except("r2") delivers to nobody.
    let ops = a.to(vec![String::from("r1")]).except(vec![String::from("r2")]);
    let opts = ops.options();
    assert!(!rooms.selects(&opts, a.id)); // origin excluded
    assert!(!rooms.selects(&opts, b.id)); // excluded by r2
    assert!(!rooms.selects(&opts, c.id)); // not in r1

    // within("r1") delivers to A and B.
    let opts2 = a.within(vec![String::from("r1")]).options();
    assert!(rooms.selects(&opts2, a.id));
    assert!(rooms.selects(&opts2, b.id));
    assert!(!rooms.selects(&opts2, c.id));
}

#[test]
fn leave_and_leave_all() {
    let a = sock(13);
    let b = sock(14);
    let mut rooms = Rooms::new();
    a.join(vec![String::from("r1"), String::from("r2")], &mut rooms).unwrap();
    b.join(vec![String::from("r1")], &mut rooms).unwrap();
    a.leave(vec![String::from("r1")], &mut rooms).unwrap();
    assert!(!rooms.contains(a.id, &String::from("r1")));
    assert!(rooms.contains(a.id, &String::from("r2")));
    assert!(rooms.contains(b.id, &String::from("r1")));
    a.leave_all(&mut rooms).unwrap();
    assert!(!rooms.contains(a.id, &String::from("r2")));
    let list = b.rooms(&rooms).unwrap();
    assert_eq!(list.len(), 1);
    assert_eq!(list[0].as_str(), "r1");
}

#[test]
fn binary_event_produces_attachment_frames() {
    let mut socket = sock(15);
    let mut arr = Vec::new();
    arr.push(socketio_core::json::placeholder(0));
    arr.push(socketio_core::json::placeholder(1));
    let data = Json::Arr(arr);
    let bin = vec![vec![1u8, 2, 3], vec![4u8, 5]];
    let p = Packet::BinaryEvent {
        ns: root(),
        name: String::from("blob"),
        data,
        bin,
        ack: None,
    };
    socket.send(p).unwrap();
    let frames = socket.drain_frames();
    assert_eq!(frames.len(), 3);
    match &frames[0] {
        socketio_core::engine::EngineFrame::Text { header, .. } => {
            assert_eq!(header.as_str(), "52-");
        }
        _ => panic!("expected the text frame first"),
    }
    assert!(matches!(&frames[1], socketio_core::engine::EngineFrame::Binary(b) if b == &vec![1u8, 2, 3]));
    assert!(matches!(&frames[2], socketio_core::engine::EngineFrame::Binary(b) if b == &vec![4u8, 5]));
}

#[test]
fn binary_round_trip_through_decoder() {
    // decode the header of the frame produced above, then splice the blobs
    let header = "52-";
    let (h, used) = decode_header(header).unwrap();
    assert_eq!(used, 3);
    assert_eq!(h.kind, 5);
    assert_eq!(h.count, 2);
    let mut body_items = Vec::new();
    body_items.push(Json::Str(String::from("blob")));
    let mut arr = Vec::new();
    arr.push(socketio_core::json::placeholder(0));
    arr.push(socketio_core::json::placeholder(1));
    body_items.push(Json::Arr(arr));
    let partial = assemble(h, Some(Json::Arr(body_items))).unwrap();
    let mut dec = PacketDecoder::new();
    assert!(dec.feed_packet(partial, 2).unwrap().is_none());
    assert!(dec.feed_binary(vec![1, 2, 3]).unwrap().is_none());
    let done = dec.feed_binary(vec![4, 5]).unwrap().unwrap();
    match done {
        Packet::BinaryEvent { name, bin, .. } => {
            assert_eq!(name.as_str(), "blob");
            assert_eq!(bin, vec![vec![1u8, 2, 3], vec![4u8, 5]]);
        }
        _ => panic!("expected a binary event"),
    }
}

#[test]
fn placeholder_out_of_range_fails_decoding() {
    let (h, _) = decode_header("51-").unwrap();
    let mut body_items = Vec::new();
    body_items.push(Json::Str(String::from("blob")));
    body_items.push(socketio_core::json::placeholder(3));
    let partial = assemble(h, Some(Json::Arr(body_items))).unwrap();
    let mut dec = PacketDecoder::new();
    assert!(dec.feed_packet(partial, 1).unwrap().is_none());
    assert!(dec.feed_binary(vec![9]).is_err());
}

#[test]
fn header_encoding_round_trip() {
    let p = Packet::Event {
        ns: String::from("/chat"),
        name: String::from("x"),
        data: Json::Null,
        ack: Some(12),
    };
    let (header, _body, _bin) = p.into_parts();
    assert_eq!(header.as_str(), "2/chat,12");
    let (h, used) = decode_header(&header).unwrap();
    assert_eq!(used, header.chars().count());
    assert_eq!(h.kind, 2);
    assert_eq!(h.ns.as_str(), "/chat");
    assert_eq!(h.ack, Some(12));
    // decoding then encoding is byte-identical
    let q = assemble(h, Some(Json::Arr(vec![Json::Str(String::from("x")), Json::Null]))).unwrap();
    let q = q.set_ack_id(12);
    let (header2, _, _) = q.into_parts();
    assert_eq!(header2, header);
}

#[test]
fn loaded_header_round_trip() {
    // every header shape: type, attachment count, namespace, ack id
    for text in ["52-/chat,12", "2", "2/a,", "31-x", "0/room,", "1", "4", "617-/n,9"] {
        match decode_header(text) {
            Ok((h, used)) => {
                // re-encode the consumed prefix through a packet of the same shape
                assert!(used <= text.chars().count());
                let prefix: String = text.chars().take(used).collect();
                let enc = reprint(&h);
                assert_eq!(enc, prefix);
            }
            Err(_) => {
                // only the shapes the grammar refuses may fail
                assert!(text == "31-x" || text == "2/a,");
            }
        }
    }
}

fn reprint(h: &socketio_core::packet::RawHeader) -> String {
    let mut out = String::new();
    out.push_str(&h.kind.to_string());
    if h.kind == 5 || h.kind == 6 {
        out.push_str(&h.count.to_string());
        out.push('-');
    }
    if h.ns != "/" {
        out.push_str(&h.ns);
        out.push(',');
    }
    if let Some(a) = h.ack {
        out.push_str(&a.to_string());
    }
    out
}

#[test]
fn malformed_headers_are_rejected() {
    assert!(decode_header("").is_err());
    assert!(decode_header("9").is_err());
    assert!(decode_header("3/chat,").is_err()); // ack id missing
    assert!(decode_header("2007").is_err()); // leading zero
    assert!(decode_header("5-").is_err()); // count missing
    assert!(decode_header("2/,1").is_err()); // explicit root namespace
}

#[test]
fn engine_reason_mapping() {
    let pairs = [
        (EngineCloseReason::TransportClose, DisconnectReason::TransportClose),
        (EngineCloseReason::TransportError, DisconnectReason::TransportError),
        (EngineCloseReason::HeartbeatTimeout, DisconnectReason::HeartbeatTimeout),
        (
            EngineCloseReason::MultipleHttpPollingError,
            DisconnectReason::MultipleHttpPollingError,
        ),
        (EngineCloseReason::PacketParsingError, DisconnectReason::PacketParsingError),
        (EngineCloseReason::ClosingServer, DisconnectReason::ClosingServer),
    ];
    for (e, d) in pairs {
        assert_eq!(DisconnectReason::from(e), d);
    }
    assert_eq!(
        DisconnectReason::TransportClose.message(),
        "client gracefully closed the connection"
    );
}

#[test]
fn client_disconnect_closes_socket() {
    let mut socket = sock(16);
    socket.on_disconnect(7);
    let t = socket.emit_with_ack(String::from("e"), Json::Null).unwrap();
    let p = Packet::Disconnect { ns: root() };
    match socket.recv(p).unwrap() {
        RecvAction::Closed(eff) => {
            assert_eq!(eff.notify, Some((7, DisconnectReason::ClientNSDisconnect)));
            assert_eq!(eff.failed_acks, vec![t.id]);
            assert_eq!(eff.left_rooms, Some(socket.id));
        }
        _ => panic!("expected teardown"),
    }
    assert!(socket.is_closed());
}

#[test]
fn connect_packet_is_protocol_error_and_closes() {
    let mut socket = sock(18);
    socket.on_disconnect(3);
    let (err, eff) = socket.recv(Packet::Connect { ns: root(), payload: None }).unwrap_err();
    assert_eq!(err, socketio_core::errors::ProtocolError::InvalidPacket);
    assert_eq!(eff.notify, Some((3, DisconnectReason::PacketParsingError)));
    assert_eq!(eff.left_rooms, Some(socket.id));
    assert!(socket.is_closed());
    // idempotent: a second violation drains nothing further
    let (_, eff2) = socket.recv(Packet::ConnectError {
        ns: root(),
        message: String::from("m"),
    }).unwrap_err();
    assert!(eff2.notify.is_none() && eff2.failed_acks.is_empty() && eff2.left_rooms.is_none());
}

#[test]
fn close_and_leave_cleans_rooms() {
    let mut socket = sock(19);
    let other = sock(20);
    let mut rooms = Rooms::new();
    socket.join(vec![String::from("r1"), String::from("r2")], &mut rooms).unwrap();
    other.join(vec![String::from("r1")], &mut rooms).unwrap();
    let eff = socket.close_and_leave(DisconnectReason::TransportClose, &mut rooms);
    assert_eq!(eff.left_rooms, Some(socket.id));
    assert!(!rooms.contains(socket.id, &String::from("r1")));
    assert!(!rooms.contains(socket.id, &String::from("r2")));
    assert!(rooms.contains(other.id, &String::from("r1")));
}

#[test]
fn builder_binary_emit_produces_frames() {
    let mut socket = sock(21);
    let blobs = vec![vec![7u8], vec![8u8, 9]];
    let ops = socket.bin(blobs);
    let mut arr = Vec::new();
    arr.push(socketio_core::json::placeholder(0));
    arr.push(socketio_core::json::placeholder(1));
    ops.emit(&mut socket, String::from("blob"), Json::Arr(arr)).unwrap();
    let frames = socket.drain_frames();
    assert_eq!(frames.len(), 3);
    match &frames[0] {
        socketio_core::engine::EngineFrame::Text { header, .. } => {
            assert_eq!(header.as_str(), "52-");
        }
        _ => panic!("expected the text frame first"),
    }
    // an out-of-range placeholder cannot be serialized
    let mut socket2 = sock(22);
    let ops2 = socket2.bin(vec![vec![1u8]]);
    let bad = socketio_core::json::placeholder(5);
    let r = ops2.emit(&mut socket2, String::from("b"), bad);
    assert!(matches!(r, Err(SendError::Serialize)));
    assert_eq!(socket2.drain_frames().len(), 0);
}

#[test]
fn body_shapes_validated_by_serde_json() {
    // the JSON body handed out for an event packet is valid JSON when
    // serialized the obvious way
    let p = Packet::Event {
        ns: root(),
        name: String::from("n"),
        data: Json::Str(String::from("v")),
        ack: None,
    };
    let (_h, body, _b) = p.into_parts();
    let body = body.unwrap();
    let text = json_to_string(&body);
    let v: serde_json::Value = serde_json::from_str(&text).unwrap();
    assert_eq!(v, serde_json::Value::Array(vec![
        serde_json::Value::String(String::from("n")),
        serde_json::Value::String(String::from("v")),
    ]));
}

fn json_to_string(j: &Json) -> String {
    match j {
        Json::Null => String::from("null"),
        Json::Bool(b) => String::from(if *b { "true" } else { "false" }),
        Json::Int(n) => format!("{}", n),
        Json::Str(s) => format!("{:?}", s),
        Json::Arr(items) => {
            let parts: Vec<String> = items.iter().map(json_to_string).collect();
            format!("[{}]", parts.join(","))
        }
        Json::Obj(fields) => {
            let parts: Vec<String> =
                fields.iter().map(|(k, v)| format!("{:?}:{}", k, json_to_string(v))).collect();
            format!("{{{}}}", parts.join(","))
        }
    }
}

#[test]
fn ack_response_binary_round_trip() {
    let mut socket = sock(17);
    let t = socket.emit_with_ack(String::from("b"), Json::Null).unwrap();
    let p = Packet::BinaryAck {
        ns: root(),
        data: Json::Null,
        bin: vec![vec![0xAB]],
        ack: t.id,
    };
    match socket.recv(p).unwrap() {
        RecvAction::ResolveAck { id, response } => {
            assert_eq!(id, t.id);
            let AckResponse { data, binary } = response;
            assert!(data.deep_eq(&Json::Null));
            assert_eq!(binary, vec![vec![0xABu8]]);
        }
        _ => panic!("expected resolution"),
    }
}
