//! Why an operation on a connection failed.

use shin::client::config::Error as ConfigError;
use shin::client::workspace::Mismatch;
use shin::connection::Error as HandshakeError;
use shin::wire::alert::Description;
use shin::wire::record::{Error as RecordError, KeyError};
use vstd::prelude::*;
use vstd::string::StringExecFns;

verus! {

#[verifier::external_type_specification]
#[verifier::external_body]
pub struct ExConfigError(ConfigError);

#[verifier::external_type_specification]
#[verifier::external_body]
pub struct ExMismatch(Mismatch);

#[verifier::external_type_specification]
#[verifier::external_body]
pub struct ExIoError(std::io::Error);

#[derive(Debug)]
#[non_exhaustive]
pub enum Error {
    InvalidConfig(ConfigError),
    InvalidWorkspace(Mismatch),
    Handshake(HandshakeError),
    Record(RecordError),
    RecordKey(KeyError),
    UnexpectedRecord,
    NotEstablished,
    Io(std::io::Error),
    PeerAlert(Description),
    MalformedAlert,
    Truncated,
    ReceiveOverflow,
    SendOverflow,
    BufferUnavailable,
    InvalidBufferProgress,
    EarlyDataUnsupported,
}

/// `PartialEq::eq` of a configuration error, which compares its parts.
#[verifier::external_body]
fn same_config(a: &ConfigError, b: &ConfigError) -> (same: bool)
    ensures
        same == (*a == *b),
{
    a == b
}

/// `PartialEq::eq` of a workspace mismatch, which compares its parts.
#[verifier::external_body]
fn same_mismatch(a: &Mismatch, b: &Mismatch) -> (same: bool)
    ensures
        same == (*a == *b),
{
    a == b
}

/// `PartialEq::eq` of a handshake error, which compares its parts.
#[verifier::external_body]
fn same_handshake(a: &HandshakeError, b: &HandshakeError) -> (same: bool)
    ensures
        same == (*a == *b),
{
    a == b
}

/// `PartialEq::eq` of a record error, which compares its parts.
#[verifier::external_body]
fn same_record(a: &RecordError, b: &RecordError) -> (same: bool)
    ensures
        same == (*a == *b),
{
    a == b
}

/// `PartialEq::eq` of a record key error, which compares its parts.
#[verifier::external_body]
fn same_key(a: &KeyError, b: &KeyError) -> (same: bool)
    ensures
        same == (*a == *b),
{
    a == b
}

/// `PartialEq::eq` of an alert description, which compares its parts.
#[verifier::external_body]
fn same_description(a: &Description, b: &Description) -> (same: bool)
    ensures
        same == (*a == *b),
{
    a == b
}

/// Whether two I/O errors are of one kind.
pub uninterp spec fn same_io_kind(a: std::io::Error, b: std::io::Error) -> bool;

/// `std::io::Error::kind` of both, compared.
#[verifier::external_body]
fn same_io(a: &std::io::Error, b: &std::io::Error) -> (same: bool)
    ensures
        same == same_io_kind(*a, *b),
{
    a.kind() == b.kind()
}

impl PartialEq for Error {
    /// I/O errors are equal if they are of one kind, all others if their parts are.
    fn eq(&self, other: &Error) -> (same: bool) {
        match (self, other) {
            (Error::UnexpectedRecord, Error::UnexpectedRecord) => true,
            (Error::NotEstablished, Error::NotEstablished) => true,
            (Error::ReceiveOverflow, Error::ReceiveOverflow) => true,
            (Error::SendOverflow, Error::SendOverflow) => true,
            (Error::BufferUnavailable, Error::BufferUnavailable) => true,
            (Error::InvalidBufferProgress, Error::InvalidBufferProgress) => true,
            (Error::EarlyDataUnsupported, Error::EarlyDataUnsupported) => true,
            (Error::MalformedAlert, Error::MalformedAlert) => true,
            (Error::Truncated, Error::Truncated) => true,
            (Error::InvalidConfig(a), Error::InvalidConfig(b)) => same_config(a, b),
            (Error::InvalidWorkspace(a), Error::InvalidWorkspace(b)) => same_mismatch(a, b),
            (Error::Handshake(a), Error::Handshake(b)) => same_handshake(a, b),
            (Error::Record(a), Error::Record(b)) => same_record(a, b),
            (Error::RecordKey(a), Error::RecordKey(b)) => same_key(a, b),
            (Error::Io(a), Error::Io(b)) => same_io(a, b),
            (Error::PeerAlert(a), Error::PeerAlert(b)) => same_description(a, b),
            _ => false,
        }
    }
}

impl vstd::std_specs::cmp::PartialEqSpecImpl for Error {
    open spec fn obeys_eq_spec() -> bool {
        true
    }

    open spec fn eq_spec(&self, other: &Error) -> bool {
        match (*self, *other) {
            (Error::Io(a), Error::Io(b)) => same_io_kind(a, b),
            (a, b) => a == b,
        }
    }
}

impl From<RecordError> for Error {
    fn from(error: RecordError) -> (result: Error) {
        Error::Record(error)
    }
}

impl vstd::std_specs::convert::FromSpecImpl<RecordError> for Error {
    open spec fn obeys_from_spec() -> bool {
        true
    }

    open spec fn from_spec(error: RecordError) -> Error {
        Error::Record(error)
    }
}

impl From<KeyError> for Error {
    fn from(error: KeyError) -> (result: Error) {
        Error::RecordKey(error)
    }
}

impl vstd::std_specs::convert::FromSpecImpl<KeyError> for Error {
    open spec fn obeys_from_spec() -> bool {
        true
    }

    open spec fn from_spec(error: KeyError) -> Error {
        Error::RecordKey(error)
    }
}

impl From<std::io::Error> for Error {
    fn from(error: std::io::Error) -> (result: Error) {
        Error::Io(error)
    }
}

impl vstd::std_specs::convert::FromSpecImpl<std::io::Error> for Error {
    open spec fn obeys_from_spec() -> bool {
        true
    }

    open spec fn from_spec(error: std::io::Error) -> Error {
        Error::Io(error)
    }
}

impl From<Mismatch> for Error {
    fn from(error: Mismatch) -> (result: Error) {
        Error::InvalidWorkspace(error)
    }
}

impl vstd::std_specs::convert::FromSpecImpl<Mismatch> for Error {
    open spec fn obeys_from_spec() -> bool {
        true
    }

    open spec fn from_spec(error: Mismatch) -> Error {
        Error::InvalidWorkspace(error)
    }
}

/// How `shin` shows a configuration error.
pub uninterp spec fn config_text(error: ConfigError) -> Seq<char>;

/// How `shin` shows a workspace mismatch.
pub uninterp spec fn mismatch_text(error: Mismatch) -> Seq<char>;

/// How `shin` shows a handshake error.
pub uninterp spec fn handshake_text(error: HandshakeError) -> Seq<char>;

/// How `shin` shows a record error.
pub uninterp spec fn record_text(error: RecordError) -> Seq<char>;

/// How `shin` shows a record key error.
pub uninterp spec fn key_text(error: KeyError) -> Seq<char>;

/// How `shin` shows an alert description.
pub uninterp spec fn description_text(description: Description) -> Seq<char>;

/// `Display` of a configuration error.
#[verifier::external_body]
fn show_config(error: &ConfigError) -> (text: String)
    ensures
        text@ == config_text(*error),
{
    format!("{error}")
}

/// `Display` of a workspace mismatch.
#[verifier::external_body]
fn show_mismatch(error: &Mismatch) -> (text: String)
    ensures
        text@ == mismatch_text(*error),
{
    format!("{error}")
}

/// `Debug` of a handshake error.
#[verifier::external_body]
fn show_handshake(error: &HandshakeError) -> (text: String)
    ensures
        text@ == handshake_text(*error),
{
    format!("{error:?}")
}

/// `Debug` of a record error.
#[verifier::external_body]
fn show_record(error: &RecordError) -> (text: String)
    ensures
        text@ == record_text(*error),
{
    format!("{error:?}")
}

/// `Debug` of a record key error.
#[verifier::external_body]
fn show_key(error: &KeyError) -> (text: String)
    ensures
        text@ == key_text(*error),
{
    format!("{error:?}")
}

/// `Debug` of an alert description.
#[verifier::external_body]
fn show_description(description: &Description) -> (text: String)
    ensures
        text@ == description_text(*description),
{
    format!("{description:?}")
}

/// `Display` of an I/O error. The system words some of them, so nothing is stated
/// of the text.
#[verifier::external_body]
fn show_io(error: &std::io::Error) -> String {
    format!("{error}")
}

impl Error {
    /// What happened, for a reader.
    pub open spec fn says(self, text: Seq<char>) -> bool {
        match self {
            Error::InvalidConfig(error) => text == "invalid TLS client config: "@ + config_text(
                error,
            ),
            Error::InvalidWorkspace(error) => text == "invalid TLS workspace: "@ + mismatch_text(
                error,
            ),
            Error::Handshake(error) => text == "TLS handshake failed: "@ + handshake_text(error),
            Error::Record(error) => text == "TLS record failed: "@ + record_text(error),
            Error::RecordKey(error) => text == "TLS record key failed: "@ + key_text(error),
            Error::UnexpectedRecord => text == "unexpected TLS record"@,
            Error::NotEstablished => text == "TLS connection is not established"@,
            Error::Io(_) => true,
            Error::PeerAlert(description) => text == "peer sent fatal TLS alert: "@
                + description_text(description),
            Error::MalformedAlert => text == "malformed TLS alert"@,
            Error::Truncated => text == "TLS connection closed without close_notify"@,
            Error::ReceiveOverflow => text == "TLS receive buffer overflow"@,
            Error::SendOverflow => text == "TLS send buffer overflow"@,
            Error::BufferUnavailable => text == "TLS buffer unavailable"@,
            Error::InvalidBufferProgress => text == "invalid TLS buffer progress"@,
            Error::EarlyDataUnsupported => text == "TLS early data is unsupported"@,
        }
    }

    /// What happened, for a reader. An I/O error speaks for itself.
    pub fn text(&self) -> (text: String)
        ensures
            self.says(text@),
    {
        match self {
            Error::InvalidConfig(error) => String::from_str("invalid TLS client config: ").concat(
                show_config(error).as_str(),
            ),
            Error::InvalidWorkspace(error) => String::from_str("invalid TLS workspace: ").concat(
                show_mismatch(error).as_str(),
            ),
            Error::Handshake(error) => String::from_str("TLS handshake failed: ").concat(
                show_handshake(error).as_str(),
            ),
            Error::Record(error) => String::from_str("TLS record failed: ").concat(
                show_record(error).as_str(),
            ),
            Error::RecordKey(error) => String::from_str("TLS record key failed: ").concat(
                show_key(error).as_str(),
            ),
            Error::UnexpectedRecord => String::from_str("unexpected TLS record"),
            Error::NotEstablished => String::from_str("TLS connection is not established"),
            Error::Io(error) => show_io(error),
            Error::PeerAlert(description) => String::from_str(
                "peer sent fatal TLS alert: ",
            ).concat(show_description(description).as_str()),
            Error::MalformedAlert => String::from_str("malformed TLS alert"),
            Error::Truncated => String::from_str("TLS connection closed without close_notify"),
            Error::ReceiveOverflow => String::from_str("TLS receive buffer overflow"),
            Error::SendOverflow => String::from_str("TLS send buffer overflow"),
            Error::BufferUnavailable => String::from_str("TLS buffer unavailable"),
            Error::InvalidBufferProgress => String::from_str("invalid TLS buffer progress"),
            Error::EarlyDataUnsupported => String::from_str("TLS early data is unsupported"),
        }
    }
}

} // verus!
