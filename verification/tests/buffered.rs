use dope_tls::buffered::engines::{ClientEngine, Engine, OwnedEvent, ServerEngine};
use dope_tls::buffered::pooled::Pooled;
use dope_tls::buffered::sources::{open_next, ClientSetup, ClientSource, NoClients, OnceClient};
use dope_tls::buffered::wire::{Endpoint, Side, Tls};
use dope_tls::buffered::State;
use dope_tls::error::Error;
use dope_tls::staging::{MAX_PLAINTEXT_BODY, MAX_TLS_RECORD, TLS_STAGING_CAP};
use dope_tls::state::status::{PeerClose, Phase};
use ring::rand::{SecureRandom, SystemRandom};
use shin::client::config::{Config as ClientConfig, Verifier};
use shin::crypto::sig::SigningKey;
use shin::server::config::{CertSource, Config as ServerConfig};
use shin::wire::alert::Description;
use shin::wire::record::ContentType;

fn msg(ty: u8, body_len: usize) -> Vec<u8> {
    let mut v = vec![ty];
    v.extend_from_slice(&(body_len as u32).to_be_bytes()[1..]);
    v.extend(std::iter::repeat_n(0xAB, body_len));
    v
}

fn complete_handshake_prefix(buf: &[u8]) -> usize {
    State::<ClientEngine>::complete_handshake_prefix(buf)
}

#[test]
fn empty_buffer_has_no_complete_prefix() {
    assert_eq!(complete_handshake_prefix(&[]), 0);
}

#[test]
fn header_only_is_incomplete() {
    assert_eq!(complete_handshake_prefix(&[11, 0, 0, 100]), 0);
}

#[test]
fn single_whole_message() {
    let m = msg(11, 50);
    assert_eq!(complete_handshake_prefix(&m), m.len());
}

#[test]
fn partial_body_is_retained() {
    let mut m = msg(11, 50);
    m.truncate(4 + 30);
    assert_eq!(complete_handshake_prefix(&m), 0);
}

#[test]
fn whole_message_plus_partial_next() {
    let mut buf = msg(8, 10);
    let first = buf.len();
    buf.extend_from_slice(&msg(11, 200)[..4 + 100]);
    assert_eq!(complete_handshake_prefix(&buf), first);
}

#[test]
fn multiple_whole_messages() {
    let mut buf = msg(8, 6);
    buf.extend(msg(11, 1400));
    buf.extend(msg(15, 260));
    buf.extend(msg(20, 36));
    assert_eq!(complete_handshake_prefix(&buf), buf.len());
}

#[test]
fn it_makes_no_difference_how_messages_are_cut_up() {
    let mut buf = msg(8, 6);
    buf.extend(msg(11, 300));
    buf.extend_from_slice(&msg(20, 36)[..20]);
    let all = complete_handshake_prefix(&buf);
    assert_eq!(all, 10 + 304);
    for cut in 0..buf.len() {
        let first = complete_handshake_prefix(&buf[..cut]);
        assert_eq!(first + complete_handshake_prefix(&buf[first..]), all);
    }
}

fn signing_key() -> SigningKey {
    let mut seed = [0u8; 32];
    SystemRandom::new().fill(&mut seed).unwrap();
    SigningKey::from_seed(&seed).unwrap()
}

fn server_config(signing: SigningKey) -> ServerConfig {
    ServerConfig {
        source: CertSource::RawPublicKey {
            signing_key: signing,
        },
        alpn_protocols: vec![b"h2".to_vec()],
        ticket_keys: None,
    }
}

fn client_config(expected_pubkey: [u8; 32]) -> ClientConfig {
    ClientConfig {
        verifier: Verifier::RawPublicKey { expected_pubkey },
        transport_params: Vec::new(),
        alpn_protocols: vec![b"h2".to_vec()],
        enable_early_data: false,
    }
}

fn pump<A: Engine, B: Engine>(client: &mut State<A>, server: &mut State<B>) {
    for _ in 0..10 {
        let from_client = client.pull_send();
        let from_server = server.pull_send();
        let progressed = !from_client.is_empty() || !from_server.is_empty();
        if !from_client.is_empty() {
            server.read_tcp(&from_client).expect("server.read_tcp");
        }
        if !from_server.is_empty() {
            client.read_tcp(&from_server).expect("client.read_tcp");
        }
        if !progressed {
            break;
        }
    }
}

fn established_pair() -> (State<ClientEngine>, State<ServerEngine>) {
    let signing = signing_key();
    let server_pubkey = *signing.pubkey().unwrap();
    let mut server = State::new_server(server_config(signing)).unwrap();
    let mut client = State::new_client(client_config(server_pubkey)).unwrap();
    assert!(client.is_handshaking() && server.is_handshaking());
    pump(&mut client, &mut server);
    assert!(client.is_established() && server.is_established());
    (client, server)
}

#[test]
fn seal_app_returns_err_when_pending_send_nearly_full() {
    let (mut client, _server) = established_pair();

    client
        .pending_send
        .consume(client.pending_send.as_slice().len());
    let chunk = [0u8; 4096];
    while client.pending_send.spare_capacity() > 8 {
        let take = chunk.len().min(client.pending_send.spare_capacity());
        client.pending_send.push(&chunk[..take]);
    }
    assert!(client.pending_send.spare_capacity() <= 8);
    assert!(client.pending_send.spare_capacity() < TLS_STAGING_CAP);

    let err = client
        .seal_app(ContentType::ApplicationData, b"hello world")
        .unwrap_err();
    assert_eq!(err, Error::SendOverflow);

    let err = client.seal_handshake(b"hello world").unwrap_err();
    assert_eq!(err, Error::SendOverflow);
}

#[test]
fn application_data_goes_both_ways() {
    let (mut client, mut server) = established_pair();
    assert_eq!(client.selected_alpn(), Some(&b"h2"[..]));
    assert_eq!(server.selected_alpn(), Some(&b"h2"[..]));
    assert_eq!(client.write_app(b"question").unwrap(), 8);
    assert_eq!(server.write_app(b"answer").unwrap(), 6);
    let there = client.pull_send();
    assert_eq!(there.len(), 8 + 22);
    server.read_tcp(&there).unwrap();
    client.read_tcp(&server.pull_send()).unwrap();
    assert_eq!(server.take_app(), b"question".to_vec());
    assert_eq!(server.pull_app(), None);
    assert_eq!(client.pull_app(), Some(b"answer".to_vec()));
}

#[test]
fn writing_stops_where_no_record_fits() {
    let (mut client, mut server) = established_pair();
    let data = vec![7u8; 3 * MAX_PLAINTEXT_BODY];
    let written = client.write_app(&data).unwrap();
    assert_eq!(written, MAX_PLAINTEXT_BODY);
    assert_eq!(client.write_app(&data[written..]).unwrap(), 0);
    server.read_tcp(&client.pull_send()).unwrap();
    assert_eq!(server.take_app().len(), MAX_PLAINTEXT_BODY);
    assert_eq!(client.write_app(&data[written..]).unwrap(), MAX_PLAINTEXT_BODY);
}

#[test]
fn keys_are_replaced_and_the_answer_comes_at_once() {
    let (mut client, mut server) = established_pair();
    client.send_key_update(true).unwrap();
    server.read_tcp(&client.pull_send()).unwrap();
    let answer = server.pull_send();
    assert!(!answer.is_empty());
    client.read_tcp(&answer).unwrap();
    client.write_app(b"after").unwrap();
    server.read_tcp(&client.pull_send()).unwrap();
    assert_eq!(server.take_app(), b"after".to_vec());
}

#[test]
fn close_notify_ends_a_kept_connection() {
    let (mut client, mut server) = established_pair();
    assert!(client.can_close_notify());
    client.send_close_notify().unwrap();
    assert!(client.is_closed());
    assert_eq!(client.write_app(b"late").unwrap_err(), Error::NotEstablished);
    server.read_tcp(&client.pull_send()).unwrap();
    assert!(server.peer_close() == PeerClose::CloseNotify);
    server.on_peer_eof().unwrap();
}

#[test]
fn a_kept_connection_tells_truncation() {
    let (mut client, _server) = established_pair();
    assert_eq!(client.on_peer_eof().unwrap_err(), Error::Truncated);
    assert!(client.peer_close() == PeerClose::Truncated);
    assert!(client.is_closed());
}

#[test]
fn a_fatal_alert_is_passed_to_the_peer() {
    let (mut client, mut server) = established_pair();
    client.send_fatal_alert(Description::HandshakeFailure).unwrap();
    assert_eq!(
        server.read_tcp(&client.pull_send()).unwrap_err(),
        Error::PeerAlert(Description::HandshakeFailure)
    );
    assert!(server.is_closed());
    assert!(server.try_read_tcp(b""));
}

#[test]
fn nothing_is_kept_of_a_damaged_record() {
    let (mut client, mut server) = established_pair();
    client.write_app(b"hello").unwrap();
    let mut wire = client.pull_send();
    let last = wire.len() - 1;
    wire[last] ^= 1;
    assert!(matches!(server.read_tcp(&wire), Err(Error::Record(_))));
    assert!(server.take_app().is_empty());
    assert!(server.phase() == Phase::Closed);
    assert!(!server.pull_send().is_empty());
}

#[test]
fn a_started_client_wants_its_hello_sent() {
    let signing = signing_key();
    let client = State::new_client(client_config(*signing.pubkey().unwrap())).unwrap();
    let hello = client.pending_send_slice();
    assert_eq!(hello[0], 22);
    assert_eq!(hello[5], 1);
    assert_eq!(
        usize::from(hello[3]) * 256 + usize::from(hello[4]),
        hello.len() - 5
    );
}

#[test]
fn events_are_kept_in_order() {
    let signing = signing_key();
    let client = State::new_client(client_config(*signing.pubkey().unwrap())).unwrap();
    let mut engine = client.side;
    let answer = engine.send_key_update(false);
    assert!(answer.is_err());
    let server = State::new_server(server_config(signing_key())).unwrap();
    let mut absorbing = server;
    absorbing.absorb_events(vec![OwnedEvent::Other, OwnedEvent::Done]).unwrap();
    assert!(absorbing.is_established());
}

fn server_endpoint() -> Endpoint {
    Endpoint::Server(Box::new(server_config(signing_key())))
}

#[test]
fn ingress_is_lazy_not_preallocated() {
    let tls = Tls::open(server_endpoint());
    assert_eq!(
        tls.ingress.capacity(),
        0,
        "ingress must be lazily allocated, not pre-sized"
    );
}

#[test]
fn inline_tls_does_not_embed_staging_array() {
    assert!(
        core::mem::size_of::<Tls<Side>>() < MAX_TLS_RECORD,
        "inline Tls must not embed a record-sized staging array"
    );
}

fn wire_pair() -> (Tls<Side>, Tls<Side>) {
    let signing = signing_key();
    let expected = *signing.pubkey().unwrap();
    let server = Tls::open(Endpoint::Server(Box::new(server_config(signing))));
    let client = Tls::open(Endpoint::Client(client_config(expected)));
    (client, server)
}

fn take_wire(tls: &mut Tls<Side>) -> Vec<u8> {
    let mut all = Vec::new();
    loop {
        let done = tls.flush_pending(false);
        if !done.submit {
            return all;
        }
        let bytes = tls.egress_slice().to_vec();
        all.extend_from_slice(&bytes);
        let (more, _) = tls.after_send_cqe(bytes.len(), false);
        assert!(!more);
    }
}

fn shake(client: &mut Tls<Side>, server: &mut Tls<Side>) -> (Vec<u8>, Vec<u8>) {
    let mut at_client = Vec::new();
    let mut at_server = Vec::new();
    for _ in 0..10 {
        let there = take_wire(client);
        let back = take_wire(server);
        if there.is_empty() && back.is_empty() {
            break;
        }
        at_server.extend(server.process_recv(&there).unwrap_or_default());
        at_client.extend(client.process_recv(&back).unwrap_or_default());
    }
    (at_client, at_server)
}

#[test]
fn data_waits_for_the_handshake_on_a_wire() {
    let (mut client, mut server) = wire_pair();
    let done = client.submit_send(b"early", false);
    assert_eq!(done.consumed, 5);
    assert!(done.submit && !done.close_after);
    let hello = client.egress_slice().to_vec();
    client.after_send_cqe(hello.len(), false);
    assert_eq!(server.process_recv(&hello), None);
    let (at_client, at_server) = shake(&mut client, &mut server);
    assert!(at_client.is_empty());
    assert_eq!(at_server, b"early".to_vec());
}

#[test]
fn parts_are_sent_one_after_the_other() {
    let (mut client, mut server) = wire_pair();
    shake(&mut client, &mut server);
    let done = client.submit_send_vectored(&[b"one ", b"", b"two"], false);
    assert_eq!(done.consumed, 7);
    let wire = client.egress_slice().to_vec();
    assert_eq!(server.process_recv(&wire), Some(b"one two".to_vec()));
    let done = client.submit_send(b"busy", true);
    assert!(!done.submit);
}

#[test]
fn without_an_endpoint_bytes_are_kept_and_the_wire_closes() {
    let mut tls = Tls::open(Endpoint::Nowhere);
    assert!(tls.state.close);
    assert_eq!(tls.process_recv(b"plain"), Some(b"plain".to_vec()));
    let done = tls.submit_send(b"data", false);
    assert_eq!(done.consumed, 4);
    assert!(done.close_after && !done.submit);
}

#[test]
fn a_source_of_one_client_gives_it_once() {
    let signing = signing_key();
    let config = client_config(*signing.pubkey().unwrap());
    let mut source = OnceClient(Some(ClientSetup::new(config)));
    let mut wire = open_next(&mut source).unwrap();
    assert!(!wire.state.close);
    assert!(!take_wire(&mut wire).is_empty());
    assert!(open_next(&mut source).is_none());
    assert!(source.next().is_none());
    assert!(open_next(&mut NoClients).is_none());
}

#[test]
fn a_staging_buffer_without_bytes_can_be_changed_in_place() {
    let mut pooled = Pooled::new();
    assert!(pooled.as_mut_slice().is_empty());
    assert_eq!(pooled.spare_capacity(), TLS_STAGING_CAP);
    pooled.push(b"abc");
    pooled.as_mut_slice()[1] = b'x';
    assert_eq!(pooled.as_slice(), b"axc");
    pooled.consume(3);
    assert!(pooled.as_mut_slice().is_empty());
    pooled.release_if_empty();
    assert!(pooled.as_mut_slice().is_empty());
    assert_eq!(pooled.spare_capacity(), TLS_STAGING_CAP);
}
