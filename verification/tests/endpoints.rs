use dope_tls::error::Error;
use dope_tls::roots::{Roots, WebpkiRoots};
use dope_tls::staging::{MAX_TLS_RECORD, TLS_STAGING_CAP};
use dope_tls::tls::endpoints::{
    buffer_layout, nonzero_budget, BufferLayout, Configuration, SessionStorage, SetupError,
};
use dope_tls::tls::plan::ClientPlan;
use dope_tls::tls::receive::waiters::{Queue, Resource, Waiter};
use dope_tls::tls::roles::{Client, Protocol, Server, ServerStorage};
use dope_tls::tls::runtime::Runtime;
use shin::client::config::{Config as ClientConfig, Error as ConfigError, Verifier};
use shin::crypto::sig::SigningKey;
use shin::server::config::{CertSource, Config as ServerConfig};

fn server_config() -> ServerConfig {
    ServerConfig {
        source: CertSource::RawPublicKey {
            signing_key: SigningKey::from_seed(&[9; 32]).unwrap(),
        },
        alpn_protocols: Vec::new(),
        ticket_keys: None,
    }
}

fn client_config() -> ClientConfig {
    ClientConfig {
        verifier: Verifier::RawPublicKey {
            expected_pubkey: [1; 32],
        },
        transport_params: Vec::new(),
        alpn_protocols: Vec::new(),
        enable_early_data: false,
    }
}

#[test]
fn default_layout_holds_64_records_and_128_sends() {
    let layout = buffer_layout(None, None, 1000).unwrap();
    assert_eq!(layout.recv_slots(), 65);
    assert_eq!(layout.send_slots(), 128);
    assert_eq!(layout.recv_capacity(), MAX_TLS_RECORD);
    assert_eq!(layout.send_capacity(), TLS_STAGING_CAP);
    assert_eq!(
        layout.payload_bytes(),
        65 * MAX_TLS_RECORD + 128 * TLS_STAGING_CAP
    );
    let small = buffer_layout(None, None, 2).unwrap();
    assert_eq!((small.recv_slots(), small.send_slots()), (3, 2));
    assert_ne!(layout, small);
}

#[test]
fn budgets_are_bounded_by_the_connections() {
    assert_eq!(nonzero_budget(Some(7), 128, 5).unwrap(), 5);
    assert_eq!(nonzero_budget(Some(3), 128, 5).unwrap(), 3);
    assert!(matches!(
        nonzero_budget(Some(0), 128, 5),
        Err(SetupError::ZeroCiphertextBudget)
    ));
    let layout = buffer_layout(Some(0), Some(4), 100).unwrap();
    assert_eq!((layout.recv_slots(), layout.send_slots()), (1, 4));
}

#[test]
fn layouts_that_cannot_be_are_refused() {
    assert!(matches!(
        buffer_layout(Some(usize::MAX), None, usize::MAX),
        Err(SetupError::StagedRecordOverflow)
    ));
    assert!(matches!(
        buffer_layout(None, None, 0),
        Err(SetupError::ZeroCiphertextBudget)
    ));
    assert!(matches!(
        BufferLayout::try_new(usize::MAX, 1),
        Err(SetupError::BufferSizeOverflow)
    ));
    assert!(matches!(
        Client::storage(usize::MAX),
        Err(SetupError::Sessions(error)) if error.requested() == usize::MAX
    ));
    assert!(matches!(
        Server::storage(usize::MAX),
        Err(SetupError::Sessions(error)) if error.requested() == usize::MAX
    ));
}

#[test]
fn a_storage_keeps_its_buffers() {
    let mut storage = SessionStorage::<Server>::try_with_capacity(2).unwrap();
    let layout = BufferLayout::try_new(2, 2).unwrap();
    storage.bind_buffers(layout).unwrap();
    storage.bind_buffers(layout).unwrap();
    let other = BufferLayout::try_new(3, 2).unwrap();
    assert!(matches!(
        storage.bind_buffers(other),
        Err(SetupError::OtherLayout)
    ));
    let usage = storage.buffers.as_ref().unwrap().usage();
    assert_eq!((usage.recv_available(), usage.send_available()), (2, 2));
    let mut huge = SessionStorage::<Server>::try_with_capacity(2).unwrap();
    let layout = BufferLayout::try_new(1 << 33, 1).unwrap();
    assert!(matches!(
        huge.bind_buffers(layout),
        Err(SetupError::Buffers(_))
    ));
    assert!(huge.buffers.is_none());
}

#[test]
fn a_client_storage_takes_one_plan() {
    let mut storage = SessionStorage::<Client>::try_with_capacity(1).unwrap();
    let first = Configuration::client(client_config()).unwrap();
    assert!(Runtime::client(first, &mut storage, 1).is_ok());
    let second = Configuration::client(client_config()).unwrap();
    assert!(matches!(
        Runtime::client(second, &mut storage, 1),
        Err(SetupError::AlreadyBound)
    ));
}

#[test]
fn a_server_storage_takes_one_shard() {
    let mut storage = SessionStorage::<Server>::try_with_capacity(1).unwrap();
    let first = Configuration::server(server_config()).unwrap();
    assert!(Runtime::server(first, &mut storage, 1).is_ok());
    let second = Configuration::server(server_config()).unwrap();
    assert!(matches!(
        Runtime::server(second, &mut storage, 1),
        Err(SetupError::OtherShard)
    ));
    assert!(ServerStorage::rebound(true).is_ok());
    assert!(ServerStorage::rebound(false).is_err());
}

#[test]
fn sessions_run_out() {
    let mut storage = SessionStorage::<Client>::try_with_capacity(1).unwrap();
    let configuration = Configuration::client(client_config())
        .unwrap()
        .with_staged_record_budget(2)
        .with_ciphertext_budget(2);
    let mut runtime = Runtime::client(configuration, &mut storage, 4).ok().unwrap();
    assert_eq!(runtime.buffer_usage().send_available(), 2);
    let first = runtime.prepare_open().unwrap().unwrap();
    assert!(!first.1.as_slice().is_empty());
    assert_eq!(runtime.buffer_usage().send_available(), 1);
    assert!(runtime.prepare_open().unwrap().is_none());
    runtime.rollback_open(first);
    assert!(runtime.prepare_open().unwrap().is_some());
}

#[test]
fn a_wrong_configuration_is_refused() {
    let mut config = client_config();
    config.alpn_protocols = vec![Vec::new()];
    assert!(matches!(
        ClientPlan::new(config),
        Err(Error::InvalidConfig(ConfigError::EmptyAlpnProtocol { index: 0 }))
    ));
    let mut config = client_config();
    config.alpn_protocols = vec![Vec::new()];
    assert!(matches!(
        Configuration::client(config),
        Err(Error::InvalidConfig(_))
    ));
    let mut config = server_config();
    config.alpn_protocols = vec![Vec::new()];
    assert!(matches!(
        Configuration::server(config),
        Err(Error::Handshake(_))
    ));
    assert!(matches!(
        ClientPlan::prepared(Err(ConfigError::InvalidIdentity)),
        Err(Error::InvalidConfig(ConfigError::InvalidIdentity))
    ));
}

#[test]
fn whoever_came_first_is_woken_first() {
    let mut queue = Queue::with_capacity(3);
    let first = Waiter { index: 1, id: 11 };
    let second = Waiter { index: 0, id: 22 };
    assert!(queue.is_vacant(Resource::Recv, 1));
    assert!(queue.register(Resource::Recv, first));
    assert!(!queue.is_vacant(Resource::Recv, 1));
    assert!(!queue.register(Resource::Recv, first));
    assert!(queue.register(Resource::Recv, second));
    assert!(!queue.register(Resource::Recv, Waiter { index: 3, id: 33 }));
    assert!(queue.wake(Resource::HandshakeEgress).is_none());
    assert!(queue.wake(Resource::Recv) == Some(first));
    assert!(queue.wake(Resource::Recv) == Some(second));
    assert!(queue.wake(Resource::Recv).is_none());
}

#[test]
fn cancelling_takes_a_waiter_out_of_both_lines() {
    let mut queue = Queue::with_capacity(2);
    let waiter = Waiter { index: 0, id: 5 };
    let other = Waiter { index: 1, id: 6 };
    queue.register(Resource::Recv, waiter);
    queue.register(Resource::Recv, other);
    queue.register(Resource::HandshakeEgress, waiter);
    let stale = queue.cancel(Waiter { index: 0, id: 4 });
    assert!(!stale.recv && !stale.handshake_egress);
    let cancelled = queue.cancel(waiter);
    assert!(cancelled.recv && cancelled.handshake_egress);
    assert!(queue.wake(Resource::HandshakeEgress).is_none());
    assert!(queue.wake(Resource::Recv) == Some(other));
}

#[test]
fn roots_come_with_their_headers() {
    let mut roots = Roots::new();
    let count = roots.len();
    assert_eq!(count, webpki_roots::TLS_SERVER_ROOTS.len());
    let table = &webpki_roots::TLS_SERVER_ROOTS[0];
    let first = roots.next().unwrap();
    assert_eq!(first.subject_der, table.subject.as_ref().to_vec());
    assert_eq!(first.spki_der[0], 0x30);
    assert!(first.spki_der.ends_with(table.subject_public_key_info.as_ref()));
    assert_eq!(roots.len(), count - 1);
    while roots.next().is_some() {}
    assert_eq!(roots.len(), 0);
    assert!(roots.next().is_none());
    assert!(Roots::default().into_store().is_ok());
    assert!(roots.into_store().is_err());
}

#[test]
fn anchors_are_all_roots_without_constraints() {
    let anchors = WebpkiRoots::anchors();
    assert_eq!(anchors.len(), webpki_roots::TLS_SERVER_ROOTS.len());
    for (anchor, root) in anchors.iter().zip(webpki_roots::TLS_SERVER_ROOTS) {
        assert_eq!(anchor.subject_der, root.subject.as_ref().to_vec());
        assert!(anchor.spki_der.len() > root.subject_public_key_info.as_ref().len());
        assert!(anchor.name_constraints_der.is_none());
    }
}

#[test]
fn a_storage_has_room_for_as_many_sessions_as_asked() {
    for capacity in [0, 1, 7, 4096] {
        let clients = SessionStorage::<Client>::try_with_capacity(capacity).unwrap();
        assert_eq!(clients.role.capacity.get(), capacity);
        let servers = SessionStorage::<Server>::try_with_capacity(capacity).unwrap();
        assert_eq!(servers.role.capacity.get(), capacity);
    }
    let mut storage = SessionStorage::<Client>::try_with_capacity(1).unwrap();
    let configuration = Configuration::client(client_config()).unwrap();
    let runtime = Runtime::client(configuration, &mut storage, 1).ok().unwrap();
    let first = runtime.open_state().unwrap();
    assert!(first.is_some());
    assert!(runtime.open_state().unwrap().is_none());
}
