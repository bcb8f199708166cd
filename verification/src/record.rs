//! The record layer: framing, plaintext records, alerts, and the keys that seal
//! and open protected records.
//!
//! Cryptography is that of `shin`. What a key makes of a record is not spelled
//! out here; it has a name, and what is stated of the names is that a record
//! opens to what was sealed.

use crate::buffer::{Contents, Cursor};
use crate::staging::{
    AEAD_CONFIDENTIALITY_LIMIT, HEADER_LEN, MAX_PLAINTEXT_BODY, TLS13_RECORD_OVERHEAD,
};
use shin::connection::Error as HandshakeError;
use shin::wire::alert::{Alert, Description, Error as AlertError, Level};
use shin::wire::record::{
    CipherSuite, ContentType, Error as RecordError, KeyError, Opener, Plaintext, Sealer,
};
use vstd::prelude::*;

verus! {

#[verifier::external_type_specification]
pub struct ExContentType(ContentType);

#[verifier::external_type_specification]
pub struct ExCipherSuite(CipherSuite);

#[verifier::external_type_specification]
pub struct ExRecordError(RecordError);

#[verifier::external_type_specification]
#[verifier::external_body]
pub struct ExKeyError(KeyError);

#[verifier::external_type_specification]
#[verifier::external_body]
pub struct ExSealer(Sealer);

#[verifier::external_type_specification]
#[verifier::external_body]
pub struct ExOpener(Opener);

#[verifier::external_type_specification]
pub struct ExLevel(Level);

#[verifier::external_type_specification]
pub struct ExDescription(Description);

#[verifier::external_type_specification]
pub struct ExAlert(Alert);

#[verifier::external_type_specification]
pub struct ExAlertError(AlertError);

#[verifier::external_type_specification]
#[verifier::external_body]
pub struct ExConnectionError(HandshakeError);

/// A sealing key: the traffic secret and suite that it was made from, and how
/// many records it has sealed.
#[verifier::ext_equal]
pub struct SealKey {
    pub secret: Seq<u8>,
    pub suite: CipherSuite,
    pub seq: nat,
}

/// An opening key: the traffic secret and suite that it was made from, how many
/// records it has opened, and whether a failure has made it unusable.
#[verifier::ext_equal]
pub struct OpenKey {
    pub secret: Seq<u8>,
    pub suite: CipherSuite,
    pub seq: nat,
    pub poisoned: bool,
}

/// The traffic secret of a sealer.
pub uninterp spec fn sealer_secret(sealer: Sealer) -> Seq<u8>;

/// The suite of a sealer.
pub uninterp spec fn sealer_suite(sealer: Sealer) -> CipherSuite;

/// The sequence number that the next record of a sealer takes.
pub uninterp spec fn sealer_seq(sealer: Sealer) -> nat;

/// The traffic secret of an opener.
pub uninterp spec fn opener_secret(opener: Opener) -> Seq<u8>;

/// The suite of an opener.
pub uninterp spec fn opener_suite(opener: Opener) -> CipherSuite;

/// The sequence number that the next record of an opener takes.
pub uninterp spec fn opener_seq(opener: Opener) -> nat;

/// Whether an opener refuses all further records.
pub uninterp spec fn opener_poisoned(opener: Opener) -> bool;

/// Why no sealer can be made from a secret, where that is so.
pub uninterp spec fn sealer_refusal(secret: Seq<u8>, suite: CipherSuite) -> Option<KeyError>;

/// Why no opener can be made from a secret, where that is so.
pub uninterp spec fn opener_refusal(secret: Seq<u8>, suite: CipherSuite) -> Option<KeyError>;

/// The protected record that holds `body`, unless the cipher fails on it.
pub uninterp spec fn sealed_record(
    secret: Seq<u8>,
    suite: CipherSuite,
    seq: nat,
    content_type: ContentType,
    body: Seq<u8>,
) -> Option<Seq<u8>>;

/// What an opener finds in `record`: nothing while the record is incomplete,
/// otherwise the inner type and plaintext, or why the record is refused.
pub uninterp spec fn opened_record(
    secret: Seq<u8>,
    suite: CipherSuite,
    seq: nat,
    poisoned: bool,
    record: Seq<u8>,
) -> Result<Option<(ContentType, Seq<u8>)>, RecordError>;

/// The code of an alert's level.
pub open spec fn level_code(level: Level) -> u8 {
    match level {
        Level::Warning => 1,
        Level::Fatal => 2,
    }
}

/// The code of what an alert says.
pub open spec fn description_code(description: Description) -> u8 {
    match description {
        Description::CloseNotify => 0,
        Description::UnexpectedMessage => 10,
        Description::BadRecordMac => 20,
        Description::RecordOverflow => 22,
        Description::HandshakeFailure => 40,
        Description::BadCertificate => 42,
        Description::UnsupportedCertificate => 43,
        Description::CertificateRevoked => 44,
        Description::CertificateExpired => 45,
        Description::CertificateUnknown => 46,
        Description::IllegalParameter => 47,
        Description::UnknownCa => 48,
        Description::AccessDenied => 49,
        Description::DecodeError => 50,
        Description::DecryptError => 51,
        Description::ProtocolVersion => 70,
        Description::InsufficientSecurity => 71,
        Description::InternalError => 80,
        Description::InappropriateFallback => 86,
        Description::UserCanceled => 90,
        Description::MissingExtension => 109,
        Description::UnsupportedExtension => 110,
        Description::UnrecognizedName => 112,
        Description::BadCertificateStatusResponse => 113,
        Description::UnknownPskIdentity => 115,
        Description::CertificateRequired => 116,
        Description::NoApplicationProtocol => 120,
    }
}

/// The two bytes of an alert.
pub open spec fn alert_body(alert: Alert) -> Seq<u8> {
    seq![level_code(alert.level), description_code(alert.description)]
}

/// The level that a code stands for.
pub open spec fn level_of(code: u8) -> Option<Level> {
    if code == 1 {
        Some(Level::Warning)
    } else if code == 2 {
        Some(Level::Fatal)
    } else {
        None
    }
}

/// What a code says in an alert.
pub open spec fn description_of(code: u8) -> Option<Description> {
    if code == 0 {
        Some(Description::CloseNotify)
    } else if code == 10 {
        Some(Description::UnexpectedMessage)
    } else if code == 20 {
        Some(Description::BadRecordMac)
    } else if code == 22 {
        Some(Description::RecordOverflow)
    } else if code == 40 {
        Some(Description::HandshakeFailure)
    } else if code == 42 {
        Some(Description::BadCertificate)
    } else if code == 43 {
        Some(Description::UnsupportedCertificate)
    } else if code == 44 {
        Some(Description::CertificateRevoked)
    } else if code == 45 {
        Some(Description::CertificateExpired)
    } else if code == 46 {
        Some(Description::CertificateUnknown)
    } else if code == 47 {
        Some(Description::IllegalParameter)
    } else if code == 48 {
        Some(Description::UnknownCa)
    } else if code == 49 {
        Some(Description::AccessDenied)
    } else if code == 50 {
        Some(Description::DecodeError)
    } else if code == 51 {
        Some(Description::DecryptError)
    } else if code == 70 {
        Some(Description::ProtocolVersion)
    } else if code == 71 {
        Some(Description::InsufficientSecurity)
    } else if code == 80 {
        Some(Description::InternalError)
    } else if code == 86 {
        Some(Description::InappropriateFallback)
    } else if code == 90 {
        Some(Description::UserCanceled)
    } else if code == 109 {
        Some(Description::MissingExtension)
    } else if code == 110 {
        Some(Description::UnsupportedExtension)
    } else if code == 112 {
        Some(Description::UnrecognizedName)
    } else if code == 113 {
        Some(Description::BadCertificateStatusResponse)
    } else if code == 115 {
        Some(Description::UnknownPskIdentity)
    } else if code == 116 {
        Some(Description::CertificateRequired)
    } else if code == 120 {
        Some(Description::NoApplicationProtocol)
    } else {
        None
    }
}

/// The alert that a fragment holds, or what is wrong with it.
pub open spec fn parsed_alert(body: Seq<u8>) -> Result<Alert, AlertError> {
    if body.len() != 2 {
        Err(AlertError::BadLength)
    } else {
        match (level_of(body[0]), description_of(body[1])) {
            (None, _) => Err(AlertError::BadLevel),
            (Some(_), None) => Err(AlertError::UnknownDescription),
            (Some(level), Some(description)) => Ok(Alert { level, description }),
        }
    }
}

/// What an alert is encoded to parses to that alert.
pub proof fn alerts_round_trip(alert: Alert)
    ensures
        parsed_alert(alert_body(alert)) == Ok::<Alert, AlertError>(alert),
{
}

/// The alert that tells a peer of a handshake failure.
pub uninterp spec fn failure_alert(error: HandshakeError) -> Alert;

/// The key that a sealer holds.
pub open spec fn seal_key(sealer: Sealer) -> SealKey {
    SealKey {
        secret: sealer_secret(sealer),
        suite: sealer_suite(sealer),
        seq: sealer_seq(sealer),
    }
}

/// The key that an opener holds.
pub open spec fn open_key(opener: Opener) -> OpenKey {
    OpenKey {
        secret: opener_secret(opener),
        suite: opener_suite(opener),
        seq: opener_seq(opener),
        poisoned: opener_poisoned(opener),
    }
}

impl SealKey {
    /// The record that this key makes of `body`.
    pub open spec fn record(self, content_type: ContentType, body: Seq<u8>) -> Option<Seq<u8>> {
        sealed_record(self.secret, self.suite, self.seq, content_type, body)
    }

    /// The key after one record.
    pub open spec fn next(self) -> SealKey {
        SealKey { secret: self.secret, suite: self.suite, seq: self.seq + 1 }
    }

    /// The opening key that is in step with this one.
    pub open spec fn reader(self) -> OpenKey {
        OpenKey { secret: self.secret, suite: self.suite, seq: self.seq, poisoned: false }
    }

    /// Why this key seals no `len` bytes into a buffer with `spare` bytes of room.
    pub open spec fn refusal(self, len: nat, spare: int) -> Option<RecordError> {
        if len > MAX_PLAINTEXT_BODY {
            Some(RecordError::BodyTooLarge)
        } else if self.seq == u64::MAX {
            Some(RecordError::SeqExhausted)
        } else if self.seq >= AEAD_CONFIDENTIALITY_LIMIT {
            Some(RecordError::KeyLimitReached)
        } else if spare < len + TLS13_RECORD_OVERHEAD {
            Some(RecordError::BufferTooSmall)
        } else {
            None
        }
    }

    /// That `record` is what this key makes of `body`: the header, the body, one
    /// byte for the inner type and the tag, which the key in step opens again.
    pub open spec fn yields(
        self,
        content_type: ContentType,
        body: Seq<u8>,
        record: Seq<u8>,
    ) -> bool {
        &&& self.record(content_type, body) == Some(record)
        &&& record.len() == body.len() + TLS13_RECORD_OVERHEAD
        &&& record.take(HEADER_LEN as int) == header(23, (record.len() - HEADER_LEN) as nat)
        &&& content_type != ContentType::ChangeCipherSpec ==> self.reader().opens(
            record,
            content_type,
            body,
        )
    }

    /// Key, buffer and result after one record was to be sealed into the buffer.
    /// A refusal leaves both as they were; a failing cipher uses up a sequence
    /// number and writes nothing.
    pub open spec fn seal(self, out: Contents, content_type: ContentType, body: Seq<u8>) -> (
        SealKey,
        Contents,
        Result<(), RecordError>,
    ) {
        match self.refusal(body.len(), out.spare()) {
            Some(error) => (self, out, Err(error)),
            None => match self.record(content_type, body) {
                Some(record) => (self.next(), out.extend(record), Ok(())),
                None => (self.next(), out, Err(RecordError::SealFailed)),
            },
        }
    }
}

impl OpenKey {
    /// What this key finds in `record`.
    pub open spec fn open(self, record: Seq<u8>) -> Result<
        Option<(ContentType, Seq<u8>)>,
        RecordError,
    > {
        opened_record(self.secret, self.suite, self.seq, self.poisoned, record)
    }

    /// That this key opens `record` to `body`.
    pub open spec fn opens(
        self,
        record: Seq<u8>,
        content_type: ContentType,
        body: Seq<u8>,
    ) -> bool {
        match self.open(record) {
            Ok(Some((inner, plain))) => inner == content_type && plain == body,
            _ => false,
        }
    }

    /// The key after one record was opened.
    pub open spec fn next(self) -> OpenKey {
        OpenKey {
            secret: self.secret,
            suite: self.suite,
            seq: self.seq + 1,
            poisoned: self.poisoned,
        }
    }
}

/// All parts one after the other.
pub open spec fn joined(parts: Seq<&[u8]>) -> Seq<u8>
    decreases parts.len(),
{
    if parts.len() == 0 {
        Seq::empty()
    } else {
        joined(parts.drop_last()) + parts.last()@
    }
}

/// The number that a byte pair holds, most significant byte first.
pub open spec fn be16(high: u8, low: u8) -> nat {
    (high as nat) * 256 + low as nat
}

/// The length of the record whose header stands at the front of `input`.
pub open spec fn framed_len(input: Seq<u8>) -> nat
    recommends
        input.len() >= HEADER_LEN,
{
    HEADER_LEN as nat + be16(input[3], input[4])
}

/// The code of a content type.
pub open spec fn content_code(content_type: ContentType) -> u8 {
    match content_type {
        ContentType::ChangeCipherSpec => 20,
        ContentType::Alert => 21,
        ContentType::Handshake => 22,
        ContentType::ApplicationData => 23,
    }
}

/// A record header.
pub open spec fn header(code: u8, len: nat) -> Seq<u8> {
    seq![code, 3u8, 3u8, (len / 256) as u8, (len % 256) as u8]
}

/// The unprotected record that holds `body`.
pub open spec fn plaintext_record(content_type: ContentType, body: Seq<u8>) -> Seq<u8> {
    header(content_code(content_type), body.len()) + body
}

/// Buffer and result after one unprotected record was to be written.
pub open spec fn plaintext_written(
    out: Contents,
    content_type: ContentType,
    body: Seq<u8>,
) -> (Contents, Result<(), RecordError>) {
    if body.len() > MAX_PLAINTEXT_BODY {
        (out, Err(RecordError::BodyTooLarge))
    } else if out.spare() < HEADER_LEN + body.len() {
        (out, Err(RecordError::BufferTooSmall))
    } else {
        (out.extend(plaintext_record(content_type, body)), Ok(()))
    }
}

/// The body of the unprotected record at the front of `input`: nothing while it
/// is incomplete.
pub open spec fn plaintext_body(input: Seq<u8>) -> Result<Option<Seq<u8>>, RecordError> {
    if input.len() < HEADER_LEN {
        Ok(None)
    } else if !(20 <= input[0] <= 23) {
        Err(RecordError::BadContentType)
    } else if be16(input[1], input[2]) != 0x0301 && be16(input[1], input[2]) != 0x0303 {
        Err(RecordError::BadLegacyVersion)
    } else if be16(input[3], input[4]) > MAX_PLAINTEXT_BODY {
        Err(RecordError::BodyTooLarge)
    } else if input.len() < framed_len(input) {
        Ok(None)
    } else {
        Ok(Some(input.subrange(HEADER_LEN as int, framed_len(input) as int)))
    }
}

/// `Sealer::with_suite`: a fresh sealing key, unless the secret is refused.
#[verifier::external_body]
pub(crate) fn new_sealer(secret: &[u8], suite: CipherSuite) -> (sealer: Result<Sealer, KeyError>)
    ensures
        match sealer {
            Ok(sealer) => sealer_refusal(secret@, suite) is None && sealer_secret(sealer) == secret@
                && sealer_suite(sealer) == suite && sealer_seq(sealer) == 0,
            Err(error) => sealer_refusal(secret@, suite) == Some(error),
        },
{
    Sealer::with_suite(secret, suite)
}

/// `Opener::with_suite`: a fresh opening key, unless the secret is refused.
#[verifier::external_body]
pub(crate) fn new_opener(secret: &[u8], suite: CipherSuite) -> (opener: Result<Opener, KeyError>)
    ensures
        match opener {
            Ok(opener) => opener_refusal(secret@, suite) is None && opener_secret(opener) == secret@
                && opener_suite(opener) == suite && opener_seq(opener) == 0 && !opener_poisoned(
                opener,
            ),
            Err(error) => opener_refusal(secret@, suite) == Some(error),
        },
{
    Opener::with_suite(secret, suite)
}

/// `Sealer::needs_key_update`: whether the key has sealed all that it may.
#[verifier::external_body]
pub(crate) fn needs_key_update(sealer: &Sealer) -> (due: bool)
    ensures
        due <==> sealer_seq(*sealer) >= AEAD_CONFIDENTIALITY_LIMIT,
{
    sealer.needs_key_update()
}

/// `Sealer::seal_to`: appends one protected record to `out`.
///
/// The record is the header, as many bytes as the body, one more for the inner
/// type, and the tag. An opener that is in step opens it to `body`.
#[verifier::external_body]
pub(crate) fn seal_to(
    sealer: &mut Sealer,
    content_type: ContentType,
    body: &[u8],
    out: &mut Cursor<'_>,
) -> (result: Result<(), RecordError>)
    ensures
        (seal_key(*final(sealer)), final(out)@, result) == seal_key(*old(sealer)).seal(
            old(out)@,
            content_type,
            body@,
        ),
        result is Ok ==> match sealed_record(
            sealer_secret(*old(sealer)),
            sealer_suite(*old(sealer)),
            sealer_seq(*old(sealer)),
            content_type,
            body@,
        ) {
            Some(record) => final(out)@.bytes == old(out)@.bytes + record && seal_key(
                *old(sealer),
            ).yields(content_type, body@, record),
            None => false,
        },
{
    sealer.seal_to(content_type, body, &mut out.0.spare_writer())
}

/// `Sealer::seal`: one protected record by itself, which nothing but the key and
/// the length of the body can stand in the way of.
#[verifier::external_body]
pub(crate) fn seal_alone(
    sealer: &mut Sealer,
    content_type: ContentType,
    body: &[u8],
) -> (result: Result<Vec<u8>, RecordError>)
    ensures
        match (
            result,
            seal_key(*old(sealer)).refusal(body@.len(), body@.len() + TLS13_RECORD_OVERHEAD),
        ) {
            (Err(error), Some(refusal)) => error == refusal && seal_key(*final(sealer)) == seal_key(
                *old(sealer),
            ),
            (Ok(record), None) => seal_key(*final(sealer)) == seal_key(*old(sealer)).next()
                && sealed_record(
                sealer_secret(*old(sealer)),
                sealer_suite(*old(sealer)),
                sealer_seq(*old(sealer)),
                content_type,
                body@,
            ) == Some(record@) && seal_key(*old(sealer)).yields(content_type, body@, record@),
            (Err(error), None) => seal_key(*final(sealer)) == seal_key(*old(sealer)).next()
                && sealed_record(
                sealer_secret(*old(sealer)),
                sealer_suite(*old(sealer)),
                sealer_seq(*old(sealer)),
                content_type,
                body@,
            ) is None && error == RecordError::SealFailed,
            _ => false,
        },
{
    sealer.seal(content_type, body)
}

/// `Plaintext::encode`: one unprotected record by itself.
#[verifier::external_body]
pub(crate) fn encode_plaintext(content_type: ContentType, body: &[u8]) -> (result: Result<
    Vec<u8>,
    RecordError,
>)
    ensures
        match result {
            Ok(record) => body@.len() <= MAX_PLAINTEXT_BODY && record@ == plaintext_record(
                content_type,
                body@,
            ),
            Err(error) => body@.len() > MAX_PLAINTEXT_BODY && error == RecordError::BodyTooLarge,
        },
{
    Plaintext::encode(content_type, body)
}

/// `Sealer::seal_parts_to`: appends one protected record that holds all `parts`,
/// which have to come to `len` bytes together.
///
/// The record is the one that the joined parts make.
#[verifier::external_body]
pub(crate) fn seal_parts_to(
    sealer: &mut Sealer,
    content_type: ContentType,
    len: usize,
    parts: &[&[u8]],
    out: &mut Cursor<'_>,
) -> (result: Result<(), RecordError>)
    ensures
        joined(parts@).len() == len ==> (seal_key(*final(sealer)), final(out)@, result)
            == seal_key(*old(sealer)).seal(old(out)@, content_type, joined(parts@)),
        joined(parts@).len() != len ==> seal_key(*final(sealer)) == seal_key(*old(sealer))
            && final(out)@ == old(out)@ && result is Err && result->Err_0 == match seal_key(
            *old(sealer),
        ).refusal(len as nat, old(out)@.spare()) {
            Some(error) => error,
            None => RecordError::LengthMismatch,
        },
        result is Ok ==> match sealed_record(
            sealer_secret(*old(sealer)),
            sealer_suite(*old(sealer)),
            sealer_seq(*old(sealer)),
            content_type,
            joined(parts@),
        ) {
            Some(record) => final(out)@.bytes == old(out)@.bytes + record && seal_key(
                *old(sealer),
            ).yields(content_type, joined(parts@), record),
            None => false,
        },
{
    sealer.seal_parts_to(content_type, len, parts.iter().copied(), &mut out.0.spare_writer())
}

/// `Opener::open` on the record at `start..end` of `bytes`: decrypts it where it
/// stands. The header stays as it is, and the plaintext follows it.
///
/// The tuple is the inner type, the length of the plaintext, and the length of
/// the record.
#[verifier::external_body]
pub(crate) fn open_in_place(
    opener: &mut Opener,
    bytes: &mut [u8],
    start: usize,
    end: usize,
) -> (result: Result<Option<(ContentType, usize, usize)>, RecordError>)
    requires
        start <= end <= old(bytes)@.len(),
    ensures
        final(bytes)@.len() == old(bytes)@.len(),
        forall|i: int|
            0 <= i < old(bytes)@.len() && (i < start + HEADER_LEN || i >= end)
                ==> #[trigger] final(bytes)@[i] == old(bytes)@[i],
        opener_secret(*final(opener)) == opener_secret(*old(opener)),
        opener_suite(*final(opener)) == opener_suite(*old(opener)),
        match (
            result,
            opened_record(
                opener_secret(*old(opener)),
                opener_suite(*old(opener)),
                opener_seq(*old(opener)),
                opener_poisoned(*old(opener)),
                old(bytes)@.subrange(start as int, end as int),
            ),
        ) {
            (Ok(None), Ok(None)) => open_key(*final(opener)) == open_key(*old(opener)) && final(bytes)@
                == old(bytes)@ && (end - start < HEADER_LEN || end - start < framed_len(
                old(bytes)@.subrange(start as int, end as int),
            )),
            (Ok(Some((content_type, len, total))), Ok(Some((inner, plain)))) => open_key(*final(opener))
                == open_key(*old(opener)).next() && content_type == inner && content_type
                != ContentType::ChangeCipherSpec && len == plain.len() && len <= MAX_PLAINTEXT_BODY
                && len + TLS13_RECORD_OVERHEAD <= total <= end - start && total == framed_len(
                old(bytes)@.subrange(start as int, end as int),
            ) && final(bytes)@.subrange(start + HEADER_LEN, start + HEADER_LEN + len) == plain,
            (Err(error), Err(refusal)) => error == refusal && opener_poisoned(*final(opener))
                && opener_seq(*old(opener)) <= opener_seq(*final(opener)) <= opener_seq(*old(opener)) + 1,
            _ => false,
        },
{
    match opener.open(&mut bytes[start..end]) {
        Ok(Some((content_type, range, total))) => Ok(Some((content_type, range.len(), total))),
        Ok(None) => Ok(None),
        Err(error) => Err(error),
    }
}

/// `Plaintext::write_to`: appends one unprotected record to `out`.
#[verifier::external_body]
pub(crate) fn write_plaintext(
    content_type: ContentType,
    body: &[u8],
    out: &mut Cursor<'_>,
) -> (result: Result<(), RecordError>)
    ensures
        (final(out)@, result) == plaintext_written(old(out)@, content_type, body@),
{
    Plaintext::write_to(content_type, body, &mut out.0.spare_writer())
}

/// `Plaintext::parse`: the body of the unprotected record at the front of
/// `input`, and the length of that record.
#[verifier::external_body]
pub(crate) fn parse_plaintext<'a>(input: &'a [u8]) -> (result: Result<
    Option<(&'a [u8], usize)>,
    RecordError,
>)
    ensures
        match (result, plaintext_body(input@)) {
            (Ok(None), Ok(None)) => true,
            (Ok(Some((body, total))), Ok(Some(expected))) => body@ == expected && total
                == framed_len(input@),
            (Err(error), Err(refusal)) => error == refusal,
            _ => false,
        },
{
    match Plaintext::parse(input) {
        Ok(Some((plaintext, total))) => Ok(Some((plaintext.body, total))),
        Ok(None) => Ok(None),
        Err(error) => Err(error),
    }
}

/// `Alert::fatal`: an alert of level fatal.
pub assume_specification[ Alert::fatal ](description: Description) -> (alert: Alert)
    ensures
        alert == (Alert { level: Level::Fatal, description }),
;

/// `Alert::close_notify`: the alert that ends a connection in order.
pub assume_specification[ Alert::close_notify ]() -> (alert: Alert)
    ensures
        alert == (Alert { level: Level::Warning, description: Description::CloseNotify }),
;

/// `Alert::body`: the two bytes of an alert.
pub assume_specification[ Alert::body ](alert: Alert) -> (body: [u8; 2])
    ensures
        body@ == alert_body(alert),
;

/// `Alert::parse`: the alert that a fragment holds. A fragment that is not two bytes long
/// is refused, and so is one with an unknown level or an unknown description.
pub assume_specification[ Alert::parse ](body: &[u8]) -> (alert: Result<Alert, AlertError>)
    ensures
        alert == parsed_alert(body@),
;

/// `HandshakeError::alert`: the fatal alert that tells a peer of a handshake
/// failure.
pub assume_specification[ HandshakeError::alert ](error: &HandshakeError) -> (alert: Alert)
    ensures
        alert == failure_alert(*error),
        alert.level == Level::Fatal,
;

} // verus!
