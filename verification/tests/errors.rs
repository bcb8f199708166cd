use dope_tls::clock::{millis_at, Clock, WallClock};
use dope_tls::error::Error;
use shin::client::config::Error as ConfigError;
use shin::connection::{self, Error as HandshakeError};
use shin::crypto::aead;
use shin::wire::alert::Description;
use shin::wire::record::{Error as RecordError, KeyError};
use std::io::{Error as IoError, ErrorKind};
use std::time::{Duration, UNIX_EPOCH};

#[test]
fn every_error_says_what_happened() {
    let cases = vec![
        (
            Error::InvalidConfig(ConfigError::MissingServerName),
            "invalid TLS client config: X.509 server name is empty",
        ),
        (
            Error::Handshake(HandshakeError::BadFinished),
            "TLS handshake failed: BadFinished",
        ),
        (
            Error::Record(RecordError::OpenFailed),
            "TLS record failed: OpenFailed",
        ),
        (
            Error::RecordKey(KeyError::Aead(aead::Error::InvalidKey)),
            "TLS record key failed: Aead(InvalidKey)",
        ),
        (Error::UnexpectedRecord, "unexpected TLS record"),
        (Error::NotEstablished, "TLS connection is not established"),
        (
            Error::PeerAlert(Description::BadRecordMac),
            "peer sent fatal TLS alert: BadRecordMac",
        ),
        (Error::MalformedAlert, "malformed TLS alert"),
        (
            Error::Truncated,
            "TLS connection closed without close_notify",
        ),
        (Error::ReceiveOverflow, "TLS receive buffer overflow"),
        (Error::SendOverflow, "TLS send buffer overflow"),
        (Error::BufferUnavailable, "TLS buffer unavailable"),
        (Error::InvalidBufferProgress, "invalid TLS buffer progress"),
        (Error::EarlyDataUnsupported, "TLS early data is unsupported"),
    ];
    for (error, text) in &cases {
        assert_eq!(error.text(), *text);
    }
    for (i, (a, _)) in cases.iter().enumerate() {
        for (j, (b, _)) in cases.iter().enumerate() {
            assert_eq!(a == b, i == j);
        }
    }
}

#[test]
fn io_errors_are_compared_by_kind() {
    let first = Error::from(IoError::new(ErrorKind::NotFound, "first"));
    let second = Error::from(IoError::new(ErrorKind::NotFound, "second"));
    let third = Error::from(IoError::new(ErrorKind::TimedOut, "first"));
    assert_eq!(first, second);
    assert_ne!(first, third);
    assert_eq!(first.text(), "first");
    assert_ne!(first, Error::Truncated);
}

#[test]
fn parts_of_an_error_count_when_it_is_compared() {
    assert_ne!(
        Error::Record(RecordError::OpenFailed),
        Error::Record(RecordError::SealFailed)
    );
    assert_ne!(
        Error::PeerAlert(Description::BadRecordMac),
        Error::PeerAlert(Description::DecodeError)
    );
    assert_ne!(
        Error::Handshake(HandshakeError::BadFinished),
        Error::Handshake(HandshakeError::Decode)
    );
    assert_ne!(
        Error::InvalidConfig(ConfigError::MissingServerName),
        Error::InvalidConfig(ConfigError::InvalidServerName)
    );
    assert_ne!(
        Error::RecordKey(KeyError::Aead(aead::Error::InvalidKey)),
        Error::RecordKey(KeyError::Aead(aead::Error::SealFailed))
    );
}

#[test]
fn outside_errors_become_errors() {
    assert_eq!(
        Error::from(RecordError::BodyTooLarge),
        Error::Record(RecordError::BodyTooLarge)
    );
    let key = KeyError::Aead(aead::Error::OpenFailed);
    assert_eq!(Error::from(key), Error::RecordKey(key));
}

#[test]
fn a_fixed_clock_stands_still() {
    let clock = Clock::FixedMillis(1234);
    assert_eq!(clock.now_ms(), 1234);
    assert_eq!(connection::Clock::now_ms(&clock), 1234);
}

#[test]
fn the_system_clock_is_behind_the_epoch() {
    let first = WallClock::System.now_ms();
    assert!(first > 1_500_000_000_000);
    assert!(WallClock::System.now_ms() >= first);
}

#[test]
fn a_moment_is_read_in_whole_milliseconds() {
    assert_eq!(millis_at(UNIX_EPOCH), 0);
    assert_eq!(millis_at(UNIX_EPOCH + Duration::from_micros(1_500_999)), 1500);
    assert_eq!(millis_at(UNIX_EPOCH - Duration::from_secs(5)), 0);
}
