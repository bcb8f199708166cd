use dope_tls::rust_tls::queued::QueuedTls;
use dope_tls::rust_tls::session::Session;
use dope_tls::rust_tls::wire::{RustSendState, RustTlsBuffers, RustTlsRuntime, RustWire};
use dope_tls::rust_tls::writer::CiphertextWriter;
use dope_tls::rust_tls::{Limit, RustTls, RustTlsEndpoint, RUSTLS_STAGING_CAP};
use dope_tls::transmissions::{self, SendBuffer, SendProtocol};
use ring::rand::SystemRandom;
use ring::signature::Ed25519KeyPair;
use rustls::client::danger::{HandshakeSignatureValid, ServerCertVerified, ServerCertVerifier};
use rustls::crypto::ring::{default_provider, sign};
use rustls::pki_types::{
    CertificateDer, PrivateKeyDer, PrivatePkcs8KeyDer, ServerName, UnixTime,
};
use rustls::server::{ClientHello, ResolvesServerCert};
use rustls::sign::CertifiedKey;
use rustls::{
    ClientConfig, Connection, DigitallySignedStruct, Error, ServerConfig, SignatureScheme,
};
use std::io::{ErrorKind, IoSlice, Write};
use std::sync::Arc;

#[derive(Debug)]
struct AnyServer;

impl ServerCertVerifier for AnyServer {
    fn verify_server_cert(
        &self,
        _: &CertificateDer<'_>,
        _: &[CertificateDer<'_>],
        _: &ServerName<'_>,
        _: &[u8],
        _: UnixTime,
    ) -> Result<ServerCertVerified, Error> {
        Ok(ServerCertVerified::assertion())
    }

    fn verify_tls12_signature(
        &self,
        _: &[u8],
        _: &CertificateDer<'_>,
        _: &DigitallySignedStruct,
    ) -> Result<HandshakeSignatureValid, Error> {
        Ok(HandshakeSignatureValid::assertion())
    }

    fn verify_tls13_signature(
        &self,
        _: &[u8],
        _: &CertificateDer<'_>,
        _: &DigitallySignedStruct,
    ) -> Result<HandshakeSignatureValid, Error> {
        Ok(HandshakeSignatureValid::assertion())
    }

    fn supported_verify_schemes(&self) -> Vec<SignatureScheme> {
        vec![SignatureScheme::ED25519]
    }
}

#[derive(Debug)]
struct OneKey(Arc<CertifiedKey>);

impl ResolvesServerCert for OneKey {
    fn resolve(&self, _: ClientHello<'_>) -> Option<Arc<CertifiedKey>> {
        Some(self.0.clone())
    }
}

fn server_endpoint() -> RustTlsEndpoint {
    let pkcs8 = Ed25519KeyPair::generate_pkcs8(&SystemRandom::new()).unwrap();
    let key = PrivateKeyDer::Pkcs8(PrivatePkcs8KeyDer::from(pkcs8.as_ref().to_vec()));
    let signing = sign::any_supported_type(&key).unwrap();
    let certified = CertifiedKey::new(vec![CertificateDer::from(vec![0x30, 0x00])], signing);
    let mut config = ServerConfig::builder_with_provider(Arc::new(default_provider()))
        .with_safe_default_protocol_versions()
        .unwrap()
        .with_no_client_auth()
        .with_cert_resolver(Arc::new(OneKey(Arc::new(certified))));
    config.alpn_protocols = vec![b"h2".to_vec()];
    config.send_tls13_tickets = 0;
    RustTlsEndpoint::Server(Arc::new(config))
}

fn client_config() -> ClientConfig {
    let mut config = ClientConfig::builder_with_provider(Arc::new(default_provider()))
        .with_safe_default_protocol_versions()
        .unwrap()
        .dangerous()
        .with_custom_certificate_verifier(Arc::new(AnyServer))
        .with_no_client_auth();
    config.alpn_protocols = vec![b"h2".to_vec()];
    config
}

fn client_endpoint() -> RustTlsEndpoint {
    RustTlsEndpoint::Client {
        config: Arc::new(client_config()),
        server_name: ServerName::try_from("example.test").unwrap(),
    }
}

fn take_queued(tls: &mut QueuedTls<Connection>) -> Vec<u8> {
    let mut all = Vec::new();
    let mut submit = tls.flush_pending(false).submit;
    while submit {
        let bytes = tls.egress_slice().to_vec();
        all.extend_from_slice(&bytes);
        submit = tls.after_send_cqe(bytes.len(), false).1.submit;
    }
    all
}

fn shake_queued(
    client: &mut QueuedTls<Connection>,
    server: &mut QueuedTls<Connection>,
) -> (Vec<u8>, Vec<u8>) {
    let mut at_client = Vec::new();
    let mut at_server = Vec::new();
    for _ in 0..10 {
        let there = take_queued(client);
        let back = take_queued(server);
        if there.is_empty() && back.is_empty() {
            break;
        }
        at_server.extend(server.process_recv(&there).unwrap_or_default());
        at_client.extend(client.process_recv(&back).unwrap_or_default());
    }
    (at_client, at_server)
}

#[test]
fn queued_data_waits_for_the_handshake() {
    let mut client = client_endpoint().open_queued();
    let mut server = server_endpoint().open_queued();
    assert!(!client.close && !server.close);
    assert_eq!(client.egress_slice()[0], 22);
    assert_eq!(client.submit_send(b"early", true).consumed, 5);
    assert_eq!(client.pending_app, b"early".to_vec());
    let (at_client, at_server) = shake_queued(&mut client, &mut server);
    assert!(at_client.is_empty());
    assert_eq!(at_server, b"early".to_vec());
    assert_eq!(client.alpn_protocol(), Some(&b"h2"[..]));
    assert!(client.pending_app.is_empty());
}

#[test]
fn queued_parts_go_out_in_order() {
    let mut client = client_endpoint().open_queued();
    let mut server = server_endpoint().open_queued();
    shake_queued(&mut client, &mut server);
    let done = client.submit_send_vectored(&[b"one ", b"", b"two"], false);
    assert_eq!(done.consumed, 7);
    assert!(done.submit && !done.close_after);
    let wire = client.egress_slice().to_vec();
    assert_eq!(server.process_recv(&wire), Some(b"one two".to_vec()));
}

#[test]
fn a_queued_line_throttles_and_loses_nothing() {
    let mut client = client_endpoint().open_queued();
    let mut server = server_endpoint().open_queued();
    shake_queued(&mut client, &mut server);
    let data: Vec<u8> = (0..100_000u32).map(|i| i as u8).collect();
    let mut sent = 0;
    let mut seen = Vec::new();
    while sent < data.len() {
        let done = client.submit_send(&data[sent..], false);
        assert!(done.consumed > 0);
        sent += done.consumed;
        let mut wire = client.egress_slice().to_vec();
        let mut again = client.after_send_cqe(wire.len(), false).1.submit;
        while again {
            let bytes = client.egress_slice().to_vec();
            wire.extend_from_slice(&bytes);
            again = client.after_send_cqe(bytes.len(), false).1.submit;
        }
        seen.extend(server.process_recv(&wire).unwrap());
    }
    assert_eq!(seen, data);
    assert!(client.tail.is_empty());
}

#[test]
fn a_flood_of_ciphertext_ends_nothing() {
    let mut client = client_endpoint().open_queued();
    let mut server = server_endpoint().open_queued();
    shake_queued(&mut client, &mut server);
    let data: Vec<u8> = (0..200_000u32).map(|i| (i / 7) as u8).collect();
    let mut sent = 0;
    let mut wire = Vec::new();
    while sent < data.len() {
        sent += client.submit_send(&data[sent..], false).consumed;
        let bytes = client.egress_slice().to_vec();
        wire.extend_from_slice(&bytes);
        client.after_send_cqe(bytes.len(), false);
        wire.extend(take_queued(&mut client));
    }
    assert_eq!(server.process_recv(&wire), Some(data));
    assert!(!server.close);
    assert!(server.pending_recv.is_empty());
}

#[test]
fn a_queued_line_without_a_connection_keeps_bytes() {
    let mut tls = RustTlsEndpoint::default().open_queued();
    assert!(tls.close && tls.conn.is_none());
    assert_eq!(tls.process_recv(b"plain"), Some(b"plain".to_vec()));
    assert_eq!(tls.submit_send(b"kept", false).consumed, 4);
    let too_much = vec![0u8; 1 << 20];
    assert_eq!(tls.submit_send(&too_much, false).consumed, 0);
}

#[test]
fn a_queued_line_tells_its_peer_of_the_end() {
    let mut client = client_endpoint().open_queued();
    let mut server = server_endpoint().open_queued();
    shake_queued(&mut client, &mut server);
    client.close = true;
    let done = client.flush_pending(false);
    assert!(done.submit && done.close_after);
    let wire = client.egress_slice().to_vec();
    assert_eq!(server.process_recv(&wire), None);
    assert!(server.close);
}

#[test]
fn damaged_ciphertext_ends_a_queued_line() {
    let mut client = client_endpoint().open_queued();
    let mut server = server_endpoint().open_queued();
    shake_queued(&mut client, &mut server);
    client.submit_send(b"hello", false);
    let mut wire = client.egress_slice().to_vec();
    let last = wire.len() - 1;
    wire[last] ^= 1;
    assert_eq!(server.process_recv(&wire), None);
    assert!(server.close);
}

type Wired<'d> = (RustWire<'d, Connection>, RustSendState<'d>);

fn take_sent(pair: &mut Wired<'_>) -> Vec<u8> {
    let mut all = Vec::new();
    transmissions::flush(&mut pair.0, &mut pair.1);
    while pair.0.tls.send_inflight {
        let bytes = pair.1.as_slice().to_vec();
        all.extend_from_slice(&bytes);
        transmissions::after_send(&mut pair.0, &mut pair.1, bytes.len());
    }
    all
}

fn shake_wired<'d>(client: &mut Wired<'d>, server: &mut Wired<'d>, buffers: &'d RustTlsBuffers) {
    for _ in 0..10 {
        let there = take_sent(client);
        let back = take_sent(server);
        if there.is_empty() && back.is_empty() {
            break;
        }
        assert!(server.0.process_recv(&buffers.recv, &there).is_none());
        assert!(client.0.process_recv(&buffers.recv, &back).is_none());
    }
    assert!(client.0.tls.is_established() && server.0.tls.is_established());
}

#[test]
fn a_wired_pair_exchanges_data() {
    let buffers = RustTlsBuffers::try_new(2).ok().unwrap();
    let client_side = RustTlsRuntime {
        send: &buffers.send,
        recv: &buffers.recv,
        endpoint: client_endpoint(),
    };
    let server_side = RustTlsRuntime {
        send: &buffers.send,
        recv: &buffers.recv,
        endpoint: server_endpoint(),
    };
    let mut client = client_side.prepare_open().unwrap().unwrap();
    let mut server = server_side.prepare_open().unwrap().unwrap();
    assert!(client_side.prepare_open().unwrap().is_none());
    shake_wired(&mut client, &mut server, &buffers);
    assert_eq!(client.0.tls.alpn_protocol(), Some(&b"h2"[..]));

    let prepared = transmissions::prepare(&mut client.0, &mut client.1, b"hello");
    assert!(prepared.buffered && !prepared.close_after);
    assert_eq!(prepared.consumed, 5);
    let wire = client.1.as_slice().to_vec();
    assert!(wire.len() > 5 && wire.len() <= 5 + 29);
    let data = server.0.process_recv(&buffers.recv, &wire).unwrap();
    assert_eq!(data.as_slice(), b"hello");
    drop(data);
    transmissions::after_send(&mut client.0, &mut client.1, wire.len());

    let prepared = transmissions::prepare_vectored(&mut client.0, &mut client.1, &[b"a", b"bc"], 3);
    assert_eq!(prepared.consumed, 3);
    let wire = client.1.as_slice().to_vec();
    let data = server.0.process_recv(&buffers.recv, &wire).unwrap();
    assert_eq!(data.as_slice(), b"abc");
    drop(data);
    transmissions::after_send(&mut client.0, &mut client.1, wire.len());

    let prepared = client.0.graceful_close(&mut client.1);
    assert!(prepared.close_after);
    assert!(client.0.tls.close_notify_sent);
    let wire = client.1.as_slice().to_vec();
    assert!(!wire.is_empty());
    assert!(server.0.process_recv(&buffers.recv, &wire).is_none());
    assert!(server.0.tls.close);
    transmissions::after_send(&mut client.0, &mut client.1, wire.len());
    assert!(client.1.is_empty());
}

#[test]
fn no_receive_buffer_ends_the_connection() {
    let buffers = RustTlsBuffers::try_new(1).ok().unwrap();
    let none = RustTlsBuffers::try_new(0).ok().unwrap();
    let runtime = RustTlsRuntime {
        send: &buffers.send,
        recv: &buffers.recv,
        endpoint: server_endpoint(),
    };
    let mut server = runtime.prepare_open().unwrap().unwrap();
    assert!(server.0.process_recv(&none.recv, b"x").is_none());
    assert!(server.0.tls.close);
    assert!(server.0.needs_buffer());
}

#[test]
fn a_fragment_size_out_of_range_is_refused() {
    let mut config = client_config();
    config.max_fragment_size = Some(16);
    let endpoint = RustTlsEndpoint::Client {
        config: Arc::new(config),
        server_name: ServerName::try_from("example.test").unwrap(),
    };
    assert!(endpoint.prepare_open().is_err());
    assert!(endpoint.open_queued().close);

    let mut config = client_config();
    config.max_fragment_size = Some(105);
    let endpoint = RustTlsEndpoint::Client {
        config: Arc::new(config),
        server_name: ServerName::try_from("example.test").unwrap(),
    };
    assert_eq!(endpoint.prepare_open().unwrap().max_plaintext.get(), 100);
    assert_eq!(client_endpoint().prepare_open().unwrap().max_plaintext.get(), 16384);
    assert!(RustTlsEndpoint::default().prepare_open().unwrap().close);
}

#[test]
fn ciphertext_stays_queued_until_there_is_room() {
    let mut tls = client_endpoint().prepare_open().unwrap();
    assert!(tls.needs_buffer() && tls.holds_plain(b""));
    let conn = tls.conn.as_mut().unwrap();
    assert!(conn.wants_write() && Session::is_handshaking(conn));
    let mut hello = Vec::new();
    let count = conn.write_all(&mut hello).ok().unwrap();
    assert_eq!(count, hello.len());
    assert!(!conn.wants_write());
    assert!(!tls.needs_buffer());
    tls.recv_eof();
    assert!(tls.close && tls.needs_buffer());
    assert!(hello.len() < RUSTLS_STAGING_CAP);
}

#[test]
fn a_full_writer_says_that_it_would_block() {
    let buffers = RustTlsBuffers::try_new(1).ok().unwrap();
    let runtime = RustTlsRuntime {
        send: &buffers.send,
        recv: &buffers.recv,
        endpoint: client_endpoint(),
    };
    let (_, send) = runtime.prepare_open().unwrap().unwrap();
    let mut writer = CiphertextWriter::new(send.buffer.unwrap());
    let room = writer.remaining();
    assert_eq!(writer.write(b"").unwrap(), 0);
    assert_eq!(writer.write(&vec![7; room - 3]).unwrap(), room - 3);
    let parts = [IoSlice::new(b"a"), IoSlice::new(b""), IoSlice::new(b"bcd")];
    assert_eq!(writer.write_vectored(&parts).unwrap(), 3);
    assert_eq!(writer.write(b"x").unwrap_err().kind(), ErrorKind::WouldBlock);
    assert_eq!(writer.write_vectored(&parts).unwrap_err().kind(), ErrorKind::WouldBlock);
    assert_eq!(writer.write_vectored(&[]).unwrap(), 0);
    writer.flush().unwrap();
    assert_eq!(writer.remaining(), 0);
}

#[test]
fn a_line_that_connects_nowhere_is_closed() {
    let mut tls = RustTls::<Connection>::new(None, Limit::new(16384));
    assert!(tls.close && !tls.needs_buffer() == false);
    assert_eq!(tls.alpn_protocol(), None);
    tls.send_inflight = true;
    tls.submit_failed();
    assert!(!tls.send_inflight);
}

#[test]
fn too_many_connections_have_no_buffers() {
    assert!(RustTlsBuffers::try_new(usize::MAX).is_err());
    assert!(RustTlsBuffers::try_new(3).is_ok());
}

#[test]
fn too_much_early_data_is_refused_whole() {
    let mut client = client_endpoint().open_queued();
    let data = vec![1u8; 1 << 20];
    assert_eq!(client.submit_send(&data[1..], true).consumed, data.len() - 1);
    assert_eq!(client.submit_send(b"xy", true).consumed, 0);
    assert!(client.close);
    assert_eq!(client.pending_app.len(), data.len() - 1);
}
