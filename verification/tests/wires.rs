use dope_tls::state::sessions::{clients, servers, Peer};
use dope_tls::state::status::PeerClose;
use dope_tls::state::api::Status;
use dope_tls::tls::endpoints::{Configuration, SessionStorage};
use dope_tls::tls::receive::policy::{Policy, Transaction};
use dope_tls::tls::receive::waiters::{Queue, Resource, Waiter};
use dope_tls::tls::receive::{Delivery, Place, RecvChunk};
use dope_tls::tls::roles::{Client, Server};
use dope_tls::tls::runtime::Runtime;
use dope_tls::tls::{Connection, SendState};
use dope_tls::transmissions::{self, Availability, SendBuffer, SendProtocol, VectoredCursor};
use shin::client::config::{Config as ClientConfig, Verifier};
use shin::crypto::sig::SigningKey;
use shin::server::config::{CertSource, Config as ServerConfig};

type ClientWire<'d> = (Connection<'d, clients::Pooled<'d>>, SendState<'d>);
type ServerWire<'d> = (Connection<'d, servers::Pooled<'d>>, SendState<'d>);

fn server_config() -> ServerConfig {
    ServerConfig {
        source: CertSource::RawPublicKey {
            signing_key: SigningKey::from_seed(&[3; 32]).unwrap(),
        },
        alpn_protocols: Vec::new(),
        ticket_keys: None,
    }
}

fn client_config() -> ClientConfig {
    ClientConfig {
        verifier: Verifier::RawPublicKey {
            expected_pubkey: *SigningKey::from_seed(&[3; 32]).unwrap().pubkey().unwrap(),
        },
        transport_params: Vec::new(),
        alpn_protocols: Vec::new(),
        enable_early_data: false,
    }
}

fn take_sent<S: Peer>(wire: &mut Connection<'_, S>, send: &mut SendState<'_>) -> Vec<u8> {
    let mut all = Vec::new();
    loop {
        let bytes = send.as_slice().to_vec();
        if bytes.is_empty() {
            return all;
        }
        all.extend_from_slice(&bytes);
        assert!(send.try_consume(bytes.len()));
        wire.send_inflight = false;
        send.release_if_empty();
    }
}

fn receive<'d, S: Peer>(
    wire: &mut Connection<'d, S>,
    send: &mut SendState<'d>,
    waiters: &mut Queue,
    bytes: &mut [u8],
) -> Vec<Vec<u8>> {
    let transaction = Policy::<S>::reserve(wire, send, waiters).ok().unwrap();
    let mut batch = wire.state.read(bytes, Delivery::Batch(8)).into_batch();
    let mut seen = Vec::new();
    while let Some(piece) = batch.next() {
        match piece {
            RecvChunk::Owned(chunk) => seen.push(chunk.as_slice().to_vec()),
            RecvChunk::Borrowed(piece) => seen.push(piece.to_vec()),
        }
    }
    drop(batch);
    Policy::<S>::finish(transaction, wire, send, waiters);
    seen
}

fn with_wires(run: impl FnOnce(&mut ClientWire<'_>, &mut ServerWire<'_>, &mut Queue)) {
    let mut client_storage = SessionStorage::<Client>::try_with_capacity(2).unwrap();
    let mut server_storage = SessionStorage::<Server>::try_with_capacity(2).unwrap();
    let mut client_side = Runtime::client(
        Configuration::client(client_config()).unwrap(),
        &mut client_storage,
        2,
    )
    .ok()
    .unwrap();
    let mut server_side = Runtime::server(
        Configuration::server(server_config()).unwrap(),
        &mut server_storage,
        2,
    )
    .ok()
    .unwrap();
    server_side.role.replace_ticket_keys(None);
    let mut client = client_side.prepare_open().unwrap().unwrap();
    let mut server = server_side.prepare_open().unwrap().unwrap();
    let mut waiters = Queue::with_capacity(2);
    for _ in 0..10 {
        let mut there = take_sent(&mut client.0, &mut client.1);
        let mut back = take_sent(&mut server.0, &mut server.1);
        if there.is_empty() && back.is_empty() {
            break;
        }
        assert!(receive(&mut server.0, &mut server.1, &mut waiters, &mut there).is_empty());
        assert!(receive(&mut client.0, &mut client.1, &mut waiters, &mut back).is_empty());
    }
    assert!(client.0.state.tls.is_established() && server.0.state.tls.is_established());
    run(&mut client, &mut server, &mut waiters);
}

#[test]
fn data_goes_over_the_wire() {
    with_wires(|client, server, waiters| {
        let prepared = transmissions::prepare(&mut client.0, &mut client.1, b"hello");
        assert!(prepared.buffered && !prepared.close_after);
        assert_eq!(prepared.consumed, 5);
        assert!(client.0.send_inflight);
        assert_eq!(client.1.as_slice().len(), 5 + 22);
        assert_eq!(transmissions::prepare(&mut client.0, &mut client.1, b"busy").consumed, 0);
        let mut wire = client.1.as_slice().to_vec();
        let sent = wire.len();
        let (next, availability) = transmissions::after_send(&mut client.0, &mut client.1, sent);
        assert!(!next.close_after);
        assert!(availability == Availability::Released);
        assert!(!client.0.send_inflight && client.1.is_empty());
        assert_eq!(
            receive(&mut server.0, &mut server.1, waiters, &mut wire),
            vec![b"hello".to_vec()]
        );
    });
}

#[test]
fn parts_become_one_record() {
    with_wires(|client, server, waiters| {
        let parts: [&[u8]; 3] = [b"one ", b"", b"two"];
        let prepared = transmissions::prepare_vectored(&mut client.0, &mut client.1, &parts, 7);
        assert_eq!(prepared.consumed, 7);
        let mut wire = take_sent(&mut client.0, &mut client.1);
        assert_eq!(wire.len(), 7 + 22);
        assert_eq!(
            receive(&mut server.0, &mut server.1, waiters, &mut wire),
            vec![b"one two".to_vec()]
        );
    });
}

#[test]
fn a_record_that_comes_in_pieces_is_put_together() {
    with_wires(|client, server, waiters| {
        transmissions::prepare(&mut client.0, &mut client.1, b"split");
        let mut wire = take_sent(&mut client.0, &mut client.1);
        let mut tail = wire.split_off(9);
        assert!(receive(&mut server.0, &mut server.1, waiters, &mut wire).is_empty());
        assert!(server.0.state.tls.has_staged_recv());
        transmissions::prepare(&mut client.0, &mut client.1, b"next");
        tail.extend(take_sent(&mut client.0, &mut client.1));
        assert_eq!(
            receive(&mut server.0, &mut server.1, waiters, &mut tail),
            vec![b"split".to_vec(), b"next".to_vec()]
        );
        assert!(!server.0.state.tls.has_staged_recv());
    });
}

#[test]
fn kept_data_is_read_any_number_of_bytes_at_a_time() {
    with_wires(|client, server, waiters| {
        transmissions::prepare(&mut client.0, &mut client.1, b"first");
        let mut wire = take_sent(&mut client.0, &mut client.1);
        transmissions::prepare(&mut client.0, &mut client.1, b"second");
        wire.extend(take_sent(&mut client.0, &mut client.1));
        let transaction = Policy::reserve(&mut server.0, &mut server.1, waiters).ok().unwrap();
        assert!(matches!(transaction, Transaction::Established(_)));
        let result = server.0.state.read(&mut wire, Delivery::Retained).retain();
        assert_eq!(result.plain_offset, 0);
        let mut retained = result.into_cursor(&wire).unwrap();
        assert!(!retained.holds_staged() && retained.staged().is_none());
        assert_eq!(retained.remaining(), 11);
        assert_eq!(retained.chunk(&wire), b"first");
        assert!(retained.keeps(&wire, 0, 3) == Some(Place::Wire));
        assert!(retained.keeps(&wire, 3, 2).is_none());
        assert!(retained.keeps(&wire, 0, wire.len() + 1).is_none());
        assert_eq!(retained.consume(&wire, 2), 2);
        assert_eq!(retained.chunk(&wire), b"rst");
        assert_eq!(retained.consume(&wire, 100), 3);
        assert_eq!(retained.chunk(&wire), b"second");
        assert_eq!(retained.consume(&wire, 6), 6);
        assert_eq!(retained.remaining(), 0);
        assert_eq!(retained.chunk(&wire), b"");
        assert_eq!(retained.consume(&wire, 1), 0);
        Policy::finish(transaction, &mut server.0, &mut server.1, waiters);
    });
}

#[test]
fn the_peer_is_told_of_the_end() {
    with_wires(|client, server, waiters| {
        let prepared = client.0.graceful_close(&mut client.1);
        assert!(prepared.buffered && !prepared.close_after);
        assert!(client.0.state.close_notify_sent);
        let mut wire = take_sent(&mut client.0, &mut client.1);
        assert!(!wire.is_empty());
        let again = client.0.graceful_close(&mut client.1);
        assert!(again.buffered && !again.close_after);
        assert!(client.1.as_slice().is_empty());
        assert!(receive(&mut server.0, &mut server.1, waiters, &mut wire).is_empty());
        assert!(server.0.state.tls.peer_close() == PeerClose::CloseNotify);
        assert!(!server.0.state.close && server.0.closes());
        assert!(server.0.graceful_close(&mut server.1).close_after);
        server.0.recv_eof();
        assert!(server.0.state.tls.peer_close() == PeerClose::CloseNotify);
    });
}

#[test]
fn a_broken_connection_is_closed() {
    with_wires(|client, server, waiters| {
        transmissions::prepare(&mut client.0, &mut client.1, b"hello");
        let mut wire = take_sent(&mut client.0, &mut client.1);
        wire[8] ^= 1;
        assert!(receive(&mut server.0, &mut server.1, waiters, &mut wire).is_empty());
        assert!(server.0.state.close && !server.0.closes());
        assert!(server.0.needs_buffer());
        assert!(transmissions::flush(&mut server.0, &mut server.1).close_after);
        let mut alert = take_sent(&mut server.0, &mut server.1);
        assert!(!alert.is_empty() && server.0.closes());
        assert!(receive(&mut client.0, &mut client.1, waiters, &mut alert).is_empty());
        assert!(matches!(client.0.state.tls.peer_close(), PeerClose::Fatal(_)));
        assert!(client.0.state.close);
    });
}

#[test]
fn eof_on_a_wire_is_truncation() {
    with_wires(|client, _, _| {
        client.0.recv_eof();
        assert!(client.0.state.tls.peer_close() == PeerClose::Truncated);
        client.0.send_inflight = true;
        client.0.submit_failed();
        assert!(!client.0.send_inflight);
    });
}

#[test]
fn a_handshake_without_a_send_buffer_waits() {
    let mut storage = SessionStorage::<Server>::try_with_capacity(2).unwrap();
    let configuration = Configuration::server(server_config())
        .unwrap()
        .with_ciphertext_budget(1);
    let mut runtime = Runtime::server(configuration, &mut storage, 2).ok().unwrap();
    let mut waiters = Queue::with_capacity(2);
    let mut first = runtime.prepare_open().unwrap().unwrap();
    let mut second = runtime.prepare_open().unwrap().unwrap();
    let held = Policy::reserve(&mut first.0, &mut first.1, &mut waiters).ok().unwrap();
    assert!(matches!(held, Transaction::Handshake(_)));
    let waiter = Waiter { index: 1, id: 1 };
    assert!(waiters.register(Resource::HandshakeEgress, waiter));
    let blocked = Policy::reserve(&mut second.0, &mut second.1, &mut waiters).err().unwrap();
    assert!(blocked.resource == Resource::HandshakeEgress);
    let woken = Policy::finish(held, &mut first.0, &mut first.1, &mut waiters);
    assert!(woken.handshake_egress == Some(waiter) && woken.recv.is_none());
    first.0.send_inflight = true;
    let blocked = Policy::reserve(&mut first.0, &mut first.1, &mut waiters).err().unwrap();
    assert!(blocked.resource == Resource::HandshakeEgress && blocked.woken.is_none());
    assert!(!first.0.needs_buffer());
}

#[test]
fn parts_are_taken_any_number_of_bytes_at_a_time() {
    let parts: [&[u8]; 3] = [b"abc", b"", b"defg"];
    let mut cursor = VectoredCursor::new(&parts);
    assert_eq!(cursor.take(2), vec![&b"ab"[..]]);
    assert_eq!(cursor.take(3).concat(), b"cde".to_vec());
    assert_eq!(cursor.consumed(), 5);
    assert_eq!(cursor.take(9).concat(), b"fg".to_vec());
    assert_eq!(cursor.consumed(), 7);
}

#[test]
fn parts_are_cut_as_they_come() {
    let source = [&b"ab"[..], b"", b"cde"];
    let mut cursor = VectoredCursor::new(&source);
    assert_eq!(cursor.take(3), vec![&b"ab"[..], b"c"]);
    assert_eq!(cursor.consumed(), 3);
    assert_eq!(cursor.take(9), vec![&b"de"[..]]);
    assert_eq!(cursor.consumed(), 5);
    assert!(cursor.take(1).is_empty());
}
