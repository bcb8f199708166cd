use dope_tls::clock::Clock;
use dope_tls::error::Error;
use dope_tls::state::api::Status;
use dope_tls::state::sessions::Peer;
use dope_tls::state::status::{PeerClose, Phase, Read};
use dope_tls::state::State;
use dope_tls::tls::endpoints::{Configuration, SessionStorage};
use dope_tls::tls::plan::ClientPlan;
use dope_tls::tls::roles::{Client, Server};
use dope_tls::tls::runtime::Runtime;
use shin::client::config::{Config as ClientConfig, Identity, Verifier};
use shin::crypto::sig::SigningKey;
use shin::server::config::{CertSource, Config as ServerConfig};
use shin::wire::handshake::KeyUpdateRequest;

fn server_config(seed: u8) -> ServerConfig {
    ServerConfig {
        source: CertSource::RawPublicKey {
            signing_key: SigningKey::from_seed(&[seed; 32]).unwrap(),
        },
        alpn_protocols: vec![b"h2".to_vec()],
        ticket_keys: None,
    }
}

fn client_config(seed: u8) -> ClientConfig {
    let expected_pubkey = *SigningKey::from_seed(&[seed; 32]).unwrap().pubkey().unwrap();
    ClientConfig {
        verifier: Verifier::RawPublicKey { expected_pubkey },
        transport_params: Vec::new(),
        alpn_protocols: vec![b"h2".to_vec()],
        enable_early_data: false,
    }
}

fn take_out<S: Peer>(state: &mut State<'_, S>) -> Vec<u8> {
    let bytes = state.pending_send_slice().to_vec();
    state.consume_pending_send(bytes.len()).unwrap();
    bytes
}

fn pump<A: Peer, B: Peer>(client: &mut State<'_, A>, server: &mut State<'_, B>) {
    let mut seen = Vec::new();
    for _ in 0..10 {
        let from_client = take_out(client);
        let from_server = take_out(server);
        if from_client.is_empty() && from_server.is_empty() {
            break;
        }
        server.read_tcp(&from_client, &mut seen).unwrap();
        client.read_tcp(&from_server, &mut seen).unwrap();
    }
    assert!(seen.is_empty());
}

fn with_pair(
    run: impl FnOnce(
        &mut State<'_, dope_tls::state::sessions::clients::Pooled<'_>>,
        &mut State<'_, dope_tls::state::sessions::servers::Pooled<'_>>,
    ),
) {
    let mut client_storage = SessionStorage::<Client>::try_with_capacity(2).unwrap();
    let mut server_storage = SessionStorage::<Server>::try_with_capacity(2).unwrap();
    let client_runtime = Runtime::client(
        Configuration::client(client_config(7)).unwrap(),
        &mut client_storage,
        2,
    )
    .ok()
    .unwrap();
    let server_runtime = Runtime::server(
        Configuration::server(server_config(7)).unwrap(),
        &mut server_storage,
        2,
    )
    .ok()
    .unwrap();
    let mut client = client_runtime.open_state().unwrap().unwrap();
    let mut server = server_runtime.open_state().unwrap().unwrap();
    assert!(client.is_handshaking() && server.is_handshaking());
    pump(&mut client, &mut server);
    assert!(client.is_established() && server.is_established());
    run(&mut client, &mut server);
}

#[test]
fn handshake_leads_to_an_established_pair() {
    with_pair(|client, server| {
        assert_eq!(client.selected_alpn(), Some(&b"h2"[..]));
        assert_eq!(server.selected_alpn(), Some(&b"h2"[..]));
        assert!(client.can_close_notify() && server.can_close_notify());
        assert!(!client.has_staged_recv());
        assert!(client.phase() == Phase::Established);
    });
}

#[test]
fn what_is_written_is_read() {
    with_pair(|client, server| {
        assert_eq!(client.write_app(b"hello").unwrap(), 5);
        let wire = take_out(client);
        assert_eq!(wire.len(), 5 + 22);
        let mut seen = Vec::new();
        server.read_tcp(&wire, &mut seen).unwrap();
        assert_eq!(seen, vec![b"hello".to_vec()]);
    });
}

#[test]
fn records_are_put_together_from_pieces() {
    with_pair(|client, server| {
        client.write_app(b"first").unwrap();
        client.write_app(b"second").unwrap();
        let wire = take_out(client);
        let mut seen = Vec::new();
        for byte in &wire {
            server.read_tcp(&[*byte], &mut seen).unwrap();
        }
        assert_eq!(seen, vec![b"first".to_vec(), b"second".to_vec()]);
        assert!(!server.has_staged_recv());
    });
}

#[test]
fn records_are_opened_where_they_stand() {
    with_pair(|client, server| {
        client.write_app(b"first").unwrap();
        client.write_app(b"second").unwrap();
        let mut wire = take_out(client);
        let read = server.read_in_place(&mut wire);
        let mut plain = read.into_plain();
        assert_eq!(plain.len(), 2);
        assert_eq!(plain.next(), Some(&b"first"[..]));
        assert_eq!(plain.next(), Some(&b"second"[..]));
        assert_eq!(plain.next(), None);
    });
}

#[test]
fn a_batch_is_packed_into_its_limit() {
    with_pair(|client, server| {
        for word in [&b"one"[..], b"two", b"three", b"four"] {
            client.write_app(word).unwrap();
        }
        let mut wire = take_out(client);
        let mut plain = server.read_batch_in_place(&mut wire, 2).into_plain();
        assert_eq!(plain.len(), 2);
        assert_eq!(plain.next(), Some(&b"one"[..]));
        assert_eq!(plain.next(), Some(&b"twothreefour"[..]));
        assert_eq!(plain.next(), None);
    });
}

#[test]
fn an_incomplete_record_is_staged_and_left_as_it_is() {
    with_pair(|client, server| {
        client.write_app(b"whole").unwrap();
        let wire = take_out(client);
        let mut part = wire[..12].to_vec();
        let read = server.read_in_place(&mut part);
        assert!(read.status() == Read::Stop);
        assert_eq!(read.into_plain().next(), None);
        assert_eq!(part, wire[..12].to_vec());
        assert_eq!(server.staged_recv(), &wire[..12]);
        assert!(server.is_established());
        assert!(server.peer_close() == PeerClose::Open);
    });
}

#[test]
fn a_limit_only_changes_the_cut() {
    let words = [&b"one"[..], b"two", b"three", b"four"];
    let mut seen: Vec<Vec<Vec<u8>>> = Vec::new();
    for limit in [None, Some(1), Some(2), Some(9)] {
        with_pair(|client, server| {
            for word in words {
                client.write_app(word).unwrap();
            }
            let mut wire = take_out(client);
            let read = server.read_in_place_with_limit(&mut wire, limit);
            assert!(read.status() == Read::Continue);
            let mut plain = read.into_plain();
            let mut pieces = Vec::new();
            while let Some(piece) = plain.next() {
                pieces.push(piece.to_vec());
            }
            seen.push(pieces);
        });
    }
    assert_eq!(seen[0].len(), 4);
    assert_eq!(seen[1], vec![b"onetwothreefour".to_vec()]);
    assert_eq!(seen[2], vec![b"one".to_vec(), b"twothreefour".to_vec()]);
    assert_eq!(seen[3], seen[0]);
    assert_eq!(seen[0].concat(), seen[2].concat());
}

#[test]
fn what_stands_behind_a_batch_stays() {
    with_pair(|client, server| {
        for word in [&b"a"[..], b"b", b"c"] {
            client.write_app(word).unwrap();
        }
        let mut wire = take_out(client);
        let tail = wire[..7].to_vec();
        wire.extend_from_slice(&tail);
        let size = wire.len();
        let read = server.read_batch_in_place(&mut wire, 1);
        assert!(read.status() == Read::Stop);
        assert_eq!(read.into_plain().next(), Some(&b"abc"[..]));
        assert_eq!(wire[size - 7..], tail[..]);
        assert_eq!(&wire[5..8], b"abc");
        assert_eq!(server.staged_recv(), &tail[..]);
    });
}

#[test]
fn reading_in_place_ends_with_a_close() {
    with_pair(|client, server| {
        client.write_app(b"last").unwrap();
        client.send_close_notify().unwrap();
        let mut wire = take_out(client);
        let read = server.read_tcp_in_place(&mut wire);
        assert!(read.status() == Read::Stop);
        let mut plain = read.into_plain();
        assert_eq!(plain.next(), Some(&b"last"[..]));
        assert_eq!(plain.next(), None);
        assert!(server.is_closed());
    });
}

#[test]
fn a_staged_read_takes_one_record() {
    with_pair(|client, server| {
        client.write_app(b"first").unwrap();
        client.write_app(b"second").unwrap();
        let wire = take_out(client);
        let read = server.read_staged_wire(&wire[..10]);
        assert_eq!(read.consumed(), 10);
        assert!(read.into_chunk().is_none());
        assert!(server.has_staged_recv());
        let read = server.read_staged_wire(&wire[10..]);
        assert_eq!(read.consumed(), 5 + 22 - 10);
        assert!(read.status() == Read::Continue);
        let chunk = read.into_chunk().unwrap();
        assert_eq!(chunk.as_slice(), b"first");
        assert!(!server.has_staged_recv());
    });
}

#[test]
fn a_client_can_have_an_identity() {
    let identity = Identity::RawPublicKey {
        signing_key: SigningKey::from_seed(&[9; 32]).unwrap(),
    };
    let configuration = Configuration::client_mutual(client_config(7), identity).unwrap();
    let mut storage = SessionStorage::<Client>::try_with_capacity(1).unwrap();
    let runtime = Runtime::client(configuration, &mut storage, 1).ok().unwrap();
    let client = runtime.open_state().unwrap().unwrap();
    assert!(client.is_handshaking());
    assert!(!client.pending_send_slice().is_empty());
    let unmatched = Identity::X509 {
        chain_der: Vec::new(),
        signing_key: SigningKey::from_seed(&[9; 32]).unwrap(),
    };
    assert!(matches!(
        Configuration::client_mutual(client_config(7), unmatched),
        Err(Error::InvalidConfig(_))
    ));
}

#[test]
fn nothing_is_written_before_the_handshake() {
    let mut storage = SessionStorage::<Client>::try_with_capacity(1).unwrap();
    let plan = ClientPlan::new(client_config(7)).unwrap().with_clock(Clock::FixedMillis(5));
    let runtime = Runtime::client(Configuration::from_plan(plan), &mut storage, 1)
        .ok()
        .unwrap();
    let mut client = runtime.open_state().unwrap().unwrap();
    assert!(matches!(client.write_app(b"early"), Err(Error::NotEstablished)));
    assert!(matches!(client.send_close_notify(), Err(Error::NotEstablished)));
}

#[test]
fn close_notify_ends_reading() {
    with_pair(|client, server| {
        client.send_close_notify().unwrap();
        assert!(client.is_closed());
        assert!(matches!(client.write_app(b"late"), Err(Error::NotEstablished)));
        let wire = take_out(client);
        let mut seen = Vec::new();
        server.read_tcp(&wire, &mut seen).unwrap();
        assert!(server.peer_close() == PeerClose::CloseNotify);
        assert!(server.is_closed());
        assert!(server.can_close_notify());
        server.peer_eof().unwrap();
        assert!(server.peer_close() == PeerClose::CloseNotify);
    });
}

#[test]
fn eof_without_close_notify_is_truncation() {
    with_pair(|client, _| {
        assert!(matches!(client.peer_eof(), Err(Error::Truncated)));
        assert!(client.peer_close() == PeerClose::Truncated);
        assert!(client.is_closed());
        assert!(client.peer_eof().is_ok());
    });
}

#[test]
fn a_damaged_record_is_refused_with_an_alert() {
    with_pair(|client, server| {
        client.write_app(b"hello").unwrap();
        let mut wire = take_out(client);
        let last = wire.len() - 1;
        wire[last] ^= 1;
        let mut seen = Vec::new();
        assert!(matches!(server.read_tcp(&wire, &mut seen), Err(Error::Record(_))));
        assert!(seen.is_empty());
        let alert = take_out(server);
        assert!(matches!(
            client.read_tcp(&alert, &mut seen),
            Err(Error::PeerAlert(shin::wire::alert::Description::BadRecordMac))
        ));
    });
}

#[test]
fn keys_are_updated_on_request() {
    with_pair(|client, server| {
        client.send_key_update(KeyUpdateRequest::Requested).unwrap();
        let wire = take_out(client);
        let mut seen = Vec::new();
        server.read_tcp(&wire, &mut seen).unwrap();
        let answer = take_out(server);
        assert!(!answer.is_empty());
        client.read_tcp(&answer, &mut seen).unwrap();
        client.write_app(b"after").unwrap();
        server.write_app(b"back").unwrap();
        let there = take_out(client);
        let back = take_out(server);
        server.read_tcp(&there, &mut seen).unwrap();
        client.read_tcp(&back, &mut seen).unwrap();
        assert_eq!(seen, vec![b"after".to_vec(), b"back".to_vec()]);
    });
}

#[test]
fn reads_with_and_without_a_limit_end_alike() {
    for limit in [None, Some(1)] {
        with_pair(|client, server| {
            for word in [&b"one"[..], b"two"] {
                client.write_app(word).unwrap();
            }
            client.send_close_notify().unwrap();
            let mut wire = take_out(client);
            let read = server.read_in_place_with_limit(&mut wire, limit);
            assert!(read.status() == Read::Stop);
            let mut plain = read.into_plain();
            let mut whole = Vec::new();
            while let Some(piece) = plain.next() {
                whole.extend_from_slice(piece);
            }
            assert_eq!(whole, b"onetwo");
            assert!(server.peer_close() == PeerClose::CloseNotify);
        });
    }
}
