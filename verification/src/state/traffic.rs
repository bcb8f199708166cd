//! The traffic keys of a connection, and what is sealed with them.

use crate::buffer::{Contents, Cursor};
use crate::error::Error;
use crate::record::{self, OpenKey, SealKey};
use crate::staging::{HEADER_LEN, MAX_PLAINTEXT_BODY, MAX_TLS_RECORD, TLS13_RECORD_OVERHEAD};
use crate::state::plain;
use crate::state::status::Phase;
use shin::connection::{Epoch, KeyDirection};
use shin::wire::record::{
    CipherSuite, ContentType, Error as RecordError, KeyError, Opener, Sealer,
};
use vstd::prelude::*;

verus! {

#[verifier::external_type_specification]
pub struct ExEpoch(Epoch);

#[verifier::external_type_specification]
pub struct ExKeyDirection(KeyDirection);

/// Length of a protected KeyUpdate: message header and one byte.
pub const KEY_UPDATE_LEN: usize = TLS13_RECORD_OVERHEAD + 4 + 1;

/// Length of a protected alert.
pub const FATAL_ALERT_LEN: usize = TLS13_RECORD_OVERHEAD + 2;

/// Why traffic keys could not be used or replaced.
#[derive(Clone, Copy)]
pub enum TrafficFailure {
    UnexpectedRecord,
    NotEstablished,
    Record(RecordError),
    RecordKey(KeyError),
    SendOverflow,
}

impl TrafficFailure {
    /// The failure as an error of the connection.
    pub open spec fn as_error(self) -> Error {
        match self {
            TrafficFailure::UnexpectedRecord => Error::UnexpectedRecord,
            TrafficFailure::NotEstablished => Error::NotEstablished,
            TrafficFailure::Record(error) => Error::Record(error),
            TrafficFailure::RecordKey(error) => Error::RecordKey(error),
            TrafficFailure::SendOverflow => Error::SendOverflow,
        }
    }

    pub fn into_error(self) -> (error: Error)
        ensures
            error == self.as_error(),
    {
        match self {
            TrafficFailure::UnexpectedRecord => Error::UnexpectedRecord,
            TrafficFailure::NotEstablished => Error::NotEstablished,
            TrafficFailure::Record(error) => Error::Record(error),
            TrafficFailure::RecordKey(error) => Error::RecordKey(error),
            TrafficFailure::SendOverflow => Error::SendOverflow,
        }
    }
}

/// A record error as a failure of the send side: a full buffer is an overflow.
pub open spec fn send_failure(error: RecordError) -> TrafficFailure {
    match error {
        RecordError::BufferTooSmall => TrafficFailure::SendOverflow,
        _ => TrafficFailure::Record(error),
    }
}

/// The keys of one epoch.
pub struct Keys {
    pub opener: Option<Opener>,
    pub sealer: Option<Sealer>,
}

/// The keys of one epoch, by what they hold.
#[verifier::ext_equal]
pub struct KeysView {
    pub open: Option<OpenKey>,
    pub seal: Option<SealKey>,
}

impl View for Keys {
    type V = KeysView;

    open spec fn view(&self) -> KeysView {
        KeysView {
            open: match self.opener {
                Some(opener) => Some(record::open_key(opener)),
                None => None,
            },
            seal: match self.sealer {
                Some(sealer) => Some(record::seal_key(sealer)),
                None => None,
            },
        }
    }
}

/// The keys of a connection.
pub struct Traffic {
    pub handshake: Keys,
    pub application: Keys,
}

/// The keys of a connection, by what they hold.
#[verifier::ext_equal]
pub struct TrafficView {
    pub handshake: KeysView,
    pub application: KeysView,
}

impl View for Traffic {
    type V = TrafficView;

    open spec fn view(&self) -> TrafficView {
        TrafficView { handshake: self.handshake@, application: self.application@ }
    }
}

/// Key, buffer and result after one record was to be sealed, where no key at all
/// is the failure `missing`.
pub open spec fn sealed(
    key: Option<SealKey>,
    missing: TrafficFailure,
    out: Contents,
    content_type: ContentType,
    body: Seq<u8>,
) -> (Option<SealKey>, Contents, Result<(), TrafficFailure>) {
    match key {
        None => (key, out, Err(missing)),
        Some(key) => {
            let (next, written, result) = key.seal(out, content_type, body);
            (
                Some(next),
                written,
                match result {
                    Ok(()) => Ok(()),
                    Err(error) => Err(send_failure(error)),
                },
            )
        },
    }
}

/// How much of `len` bytes the next record takes.
pub open spec fn fragment(len: nat) -> nat {
    if len <= MAX_PLAINTEXT_BODY {
        len
    } else {
        MAX_PLAINTEXT_BODY as nat
    }
}

/// Key, buffer and count after `plain` was written as application data: record by
/// record, until the buffer has no room for the next one.
pub open spec fn written(key: Option<SealKey>, out: Contents, plain: Seq<u8>) -> (
    Option<SealKey>,
    Contents,
    Result<nat, TrafficFailure>,
)
    decreases plain.len(),
{
    let take = fragment(plain.len());
    if plain.len() == 0 || out.spare() < take + TLS13_RECORD_OVERHEAD {
        (key, out, Ok(0))
    } else {
        let (key1, out1, result1) = sealed(
            key,
            TrafficFailure::NotEstablished,
            out,
            ContentType::ApplicationData,
            plain.take(take as int),
        );
        match result1 {
            Err(failure) => (key1, out1, Err(failure)),
            Ok(()) => {
                let (key2, out2, result2) = written(key1, out1, plain.skip(take as int));
                (
                    key2,
                    out2,
                    match result2 {
                        Ok(count) => Ok(take + count),
                        Err(failure) => Err(failure),
                    },
                )
            },
        }
    }
}

/// That `stream` is a run of whole records which `reader` opens, one after the
/// other, to the application data `plain`, and is then at `end`.
pub open spec fn carries(reader: OpenKey, stream: Seq<u8>, plain: Seq<u8>, end: OpenKey) -> bool
    decreases stream.len(),
{
    if stream.len() == 0 {
        plain.len() == 0 && end == reader
    } else {
        let total = record::framed_len(stream) as int;
        &&& HEADER_LEN <= total <= stream.len()
        &&& total <= MAX_TLS_RECORD
        &&& stream[0] == 23
        &&& match reader.open(stream.take(total)) {
            Ok(Some((content_type, body))) => content_type == ContentType::ApplicationData
                && body.is_prefix_of(plain) && carries(
                reader.next(),
                stream.skip(total),
                plain.skip(body.len() as int),
                end,
            ),
            _ => false,
        }
    }
}

/// A run of records stays one when the record that comes next is put behind it.
pub proof fn carries_push(
    reader: OpenKey,
    stream: Seq<u8>,
    plain: Seq<u8>,
    end: OpenKey,
    record: Seq<u8>,
    body: Seq<u8>,
)
    requires
        carries(reader, stream, plain, end),
        HEADER_LEN <= record.len() <= MAX_TLS_RECORD,
        record[0] == 23,
        record::framed_len(record) == record.len(),
        end.opens(record, ContentType::ApplicationData, body),
    ensures
        carries(reader, stream + record, plain + body, end.next()),
    decreases stream.len(),
{
    let whole = stream + record;
    let all = plain + body;
    if stream.len() == 0 {
        assert(whole =~= record);
        assert(all =~= body);
        assert(whole.take(record.len() as int) =~= record);
        assert(all.skip(body.len() as int) =~= Seq::<u8>::empty());
        assert(whole.skip(record.len() as int) =~= Seq::<u8>::empty());
        assert(carries(end.next(), Seq::<u8>::empty(), Seq::<u8>::empty(), end.next()));
    } else {
        let total = record::framed_len(stream) as int;
        assert(record::framed_len(whole) == record::framed_len(stream));
        assert(whole.take(total) =~= stream.take(total));
        let opened = reader.open(stream.take(total))->Ok_0->0;
        let first = opened.1;
        assert(whole.skip(total) =~= stream.skip(total) + record);
        assert(all.skip(first.len() as int) =~= plain.skip(first.len() as int) + body);
        carries_push(
            reader.next(),
            stream.skip(total),
            plain.skip(first.len() as int),
            end,
            record,
            body,
        );
    }
}

/// The header of a protected record frames exactly that record.
proof fn sealed_frame(key: SealKey, content_type: ContentType, body: Seq<u8>, record: Seq<u8>)
    requires
        key.yields(content_type, body, record),
        body.len() <= MAX_PLAINTEXT_BODY,
    ensures
        record::framed_len(record) == record.len(),
        HEADER_LEN <= record.len() <= MAX_TLS_RECORD,
        record[0] == 23,
{
    let len = (record.len() - HEADER_LEN) as nat;
    let front = record.take(HEADER_LEN as int);
    assert(front[0] == record[0] && front[3] == record[3] && front[4] == record[4]);
    assert(record::header(23, len)[0] == 23);
    assert(record::header(23, len)[3] == (len / 256) as u8 && record::header(23, len)[4] == (len % 256) as u8);
    assert(len / 256 < 256 && len % 256 < 256 && len == len / 256 * 256 + len % 256);
}

/// That what stands in `out1` behind `out0` is a run of records which the opening
/// key in step with `key0` opens to `plain`, and is then in step with `key1`.
pub open spec fn wrote(
    key0: Option<SealKey>,
    out0: Contents,
    key1: Option<SealKey>,
    out1: Contents,
    plain: Seq<u8>,
) -> bool {
    &&& out0.bytes.is_prefix_of(out1.bytes)
    &&& out1.capacity == out0.capacity
    &&& match (key0, key1) {
        (Some(first), Some(last)) => carries(
            first.reader(),
            out1.bytes.skip(out0.bytes.len() as int),
            plain,
            last.reader(),
        ),
        (None, None) => out1 == out0 && plain.len() == 0,
        _ => false,
    }
}

/// One more record behind what was written.
pub(crate) proof fn wrote_push(
    key0: Option<SealKey>,
    out0: Contents,
    key: SealKey,
    out: Contents,
    plain: Seq<u8>,
    out1: Contents,
    body: Seq<u8>,
)
    requires
        wrote(key0, out0, Some(key), out, plain),
        key.record(ContentType::ApplicationData, body) is Some,
        out1 == out.extend(key.record(ContentType::ApplicationData, body)->0),
        key.yields(
            ContentType::ApplicationData,
            body,
            key.record(ContentType::ApplicationData, body)->0,
        ),
        body.len() <= MAX_PLAINTEXT_BODY,
    ensures
        wrote(key0, out0, Some(key.next()), out1, plain + body),
{
    let record = key.record(ContentType::ApplicationData, body)->0;
    let first = key0->0;
    let stream = out.bytes.skip(out0.bytes.len() as int);
    assert(out1.bytes.skip(out0.bytes.len() as int) =~= stream + record);
    assert(key.next().reader() == key.reader().next());
    sealed_frame(key, ContentType::ApplicationData, body, record);
    carries_push(first.reader(), stream, plain, key.reader(), record, body);
}

/// Key, buffer and result after one record of `len` bytes of application data was
/// to be written out of parts that make up `body`.
pub open spec fn parts_written(
    phase: Phase,
    key: Option<SealKey>,
    out: Contents,
    len: nat,
    body: Seq<u8>,
) -> (Option<SealKey>, Contents, Result<nat, Error>) {
    if phase != Phase::Established {
        (key, out, Err(Error::NotEstablished))
    } else if len > MAX_PLAINTEXT_BODY {
        (key, out, Err(Error::Record(RecordError::BodyTooLarge)))
    } else if out.spare() < len + TLS13_RECORD_OVERHEAD {
        (key, out, Ok(0))
    } else if key is Some && body.len() != len {
        match key->0.refusal(len, out.spare()) {
            Some(error) => (key, out, Err(Error::Record(error))),
            None => (key, out, Err(Error::Record(RecordError::LengthMismatch))),
        }
    } else {
        let (next, more, result) = sealed(
            key,
            TrafficFailure::NotEstablished,
            out,
            ContentType::ApplicationData,
            body,
        );
        (
            next,
            more,
            match result {
                Ok(()) => Ok(len),
                Err(failure) => Err(failure.as_error()),
            },
        )
    }
}

/// The opening key that reads in a phase, and whether it is that of the handshake.
pub open spec fn reading_key(traffic: TrafficView, phase: Phase) -> Option<(OpenKey, bool)> {
    match (traffic.handshake.open, traffic.application.open) {
        (_, Some(key)) if phase != Phase::Handshaking => Some((key, false)),
        (Some(key), _) => Some((key, true)),
        _ => None,
    }
}

/// The keys after those of `epoch` were installed: the opening key first, so that
/// a refused sealing key leaves the new opening key in place.
pub open spec fn installed(keys: KeysView, read: Seq<u8>, write: Seq<u8>, suite: CipherSuite) -> (
    KeysView,
    Result<(), TrafficFailure>,
) {
    match (record::opener_refusal(read, suite), record::sealer_refusal(write, suite)) {
        (Some(error), _) => (keys, Err(TrafficFailure::RecordKey(error))),
        (None, Some(error)) => (
            KeysView { open: Some(fresh_reader(read, suite)), seal: keys.seal },
            Err(TrafficFailure::RecordKey(error)),
        ),
        (None, None) => (
            KeysView {
                open: Some(fresh_reader(read, suite)),
                seal: Some(fresh_writer(write, suite)),
            },
            Ok(()),
        ),
    }
}

/// An opening key that has read nothing.
pub open spec fn fresh_reader(secret: Seq<u8>, suite: CipherSuite) -> OpenKey {
    OpenKey { secret, suite, seq: 0, poisoned: false }
}

/// A sealing key that has sealed nothing.
pub open spec fn fresh_writer(secret: Seq<u8>, suite: CipherSuite) -> SealKey {
    SealKey { secret, suite, seq: 0 }
}

impl TrafficView {
    /// The keys after an epoch became ready.
    pub open spec fn install(
        self,
        epoch: Epoch,
        read: Seq<u8>,
        write: Seq<u8>,
        suite: CipherSuite,
    ) -> (TrafficView, Result<(), TrafficFailure>) {
        match epoch {
            Epoch::Handshake => {
                let (keys, result) = installed(self.handshake, read, write, suite);
                (TrafficView { handshake: keys, application: self.application }, result)
            },
            Epoch::Application => {
                let (keys, result) = installed(self.application, read, write, suite);
                (TrafficView { handshake: self.handshake, application: keys }, result)
            },
            _ => (self, Ok(())),
        }
    }

    /// The keys after one application key was replaced.
    pub open spec fn update(self, direction: KeyDirection, secret: Seq<u8>, suite: CipherSuite) -> (
        TrafficView,
        Result<(), TrafficFailure>,
    ) {
        match direction {
            KeyDirection::Read => match record::opener_refusal(secret, suite) {
                Some(error) => (self, Err(TrafficFailure::RecordKey(error))),
                None => (
                    TrafficView {
                        handshake: self.handshake,
                        application: KeysView {
                            open: Some(fresh_reader(secret, suite)),
                            seal: self.application.seal,
                        },
                    },
                    Ok(()),
                ),
            },
            KeyDirection::Write => match record::sealer_refusal(secret, suite) {
                Some(error) => (self, Err(TrafficFailure::RecordKey(error))),
                None => (
                    TrafficView {
                        handshake: self.handshake,
                        application: KeysView {
                            open: self.application.open,
                            seal: Some(fresh_writer(secret, suite)),
                        },
                    },
                    Ok(()),
                ),
            },
        }
    }

    /// The same keys with another sealing key for application data.
    pub open spec fn with_seal(self, seal: Option<SealKey>) -> TrafficView {
        TrafficView {
            handshake: self.handshake,
            application: KeysView { open: self.application.open, seal },
        }
    }

    /// The same keys with another sealing key for the handshake.
    pub open spec fn with_handshake_seal(self, seal: Option<SealKey>) -> TrafficView {
        TrafficView {
            handshake: KeysView { open: self.handshake.open, seal },
            application: self.application,
        }
    }

    /// Whether application data can be sealed.
    pub open spec fn application_ready(self) -> bool {
        self.application.seal is Some
    }

    /// Whether handshake records can be opened.
    pub open spec fn handshake_ready(self) -> bool {
        self.handshake.open is Some
    }

    /// Whether the sealing key for application data is used up.
    pub open spec fn needs_key_update(self) -> bool {
        match self.application.seal {
            Some(key) => key.seq >= crate::staging::AEAD_CONFIDENTIALITY_LIMIT,
            None => false,
        }
    }
}

/// Seals one record into `output`.
fn seal(
    output: &mut Cursor<'_>,
    sealer: &mut Sealer,
    content_type: ContentType,
    data: &[u8],
) -> (result: Result<(), TrafficFailure>)
    ensures
        (Some(record::seal_key(*final(sealer))), final(output)@, result) == sealed(
            Some(record::seal_key(*old(sealer))),
            TrafficFailure::NotEstablished,
            old(output)@,
            content_type,
            data@,
        ),
        result is Ok ==> final(output)@.bytes.len() >= old(output)@.bytes.len() && record::seal_key(
            *old(sealer),
        ).yields(
            content_type,
            data@,
            final(output)@.bytes.skip(old(output)@.bytes.len() as int),
        ),
{
    match record::seal_to(sealer, content_type, data, output) {
        Ok(()) => {
            proof {
                let record = record::seal_key(*old(sealer)).record(content_type, data@)->0;
                assert(output@.bytes.skip(old(output)@.bytes.len() as int) =~= record);
            }
            Ok(())
        },
        Err(RecordError::BufferTooSmall) => Err(TrafficFailure::SendOverflow),
        Err(error) => Err(TrafficFailure::Record(error)),
    }
}

impl Traffic {
    /// A connection that has no keys yet.
    pub fn new() -> (traffic: Self)
        ensures
            traffic@ == (TrafficView {
                handshake: KeysView { open: None, seal: None },
                application: KeysView { open: None, seal: None },
            }),
    {
        Traffic {
            handshake: Keys { opener: None, sealer: None },
            application: Keys { opener: None, sealer: None },
        }
    }

    pub fn handshake_ready(&self) -> (ready: bool)
        ensures
            ready == self@.handshake_ready(),
    {
        self.handshake.opener.is_some()
    }

    pub fn application_ready(&self) -> (ready: bool)
        ensures
            ready == self@.application_ready(),
    {
        self.application.sealer.is_some()
    }

    pub fn needs_key_update(&self) -> (due: bool)
        ensures
            due == self@.needs_key_update(),
    {
        match &self.application.sealer {
            Some(sealer) => record::needs_key_update(sealer),
            None => false,
        }
    }

    pub fn key_update_fits(&self, spare: usize) -> (fits: bool)
        ensures
            fits <==> spare >= KEY_UPDATE_LEN,
    {
        spare >= KEY_UPDATE_LEN
    }

    pub fn fatal_alert_fits(&self, spare: usize) -> (fits: bool)
        ensures
            fits <==> spare >= FATAL_ALERT_LEN,
    {
        spare >= FATAL_ALERT_LEN
    }

    /// The opening key that reads in `phase`.
    pub fn opener(&mut self, phase: Phase) -> (opener: Result<&mut Opener, TrafficFailure>)
        ensures
            match (opener, reading_key(old(self)@, phase)) {
                (Ok(opener), Some((key, handshake))) => record::open_key(*opener) == key && final(self)@
                    == if handshake {
                    TrafficView {
                        handshake: KeysView {
                            open: Some(record::open_key(*final(opener))),
                            seal: old(self)@.handshake.seal,
                        },
                        application: old(self)@.application,
                    }
                } else {
                    TrafficView {
                        handshake: old(self)@.handshake,
                        application: KeysView {
                            open: Some(record::open_key(*final(opener))),
                            seal: old(self)@.application.seal,
                        },
                    }
                },
                (Err(failure), None) => failure == TrafficFailure::UnexpectedRecord && final(self)@
                    == old(self)@,
                _ => false,
            },
    {
        if phase != Phase::Handshaking && self.application.opener.is_some() {
            match &mut self.application.opener {
                Some(opener) => Ok(opener),
                None => Err(TrafficFailure::UnexpectedRecord),
            }
        } else {
            match &mut self.handshake.opener {
                Some(opener) => Ok(opener),
                None => Err(TrafficFailure::UnexpectedRecord),
            }
        }
    }

    /// Seals handshake bytes under the handshake key.
    pub fn seal_handshake(&mut self, output: &mut Cursor<'_>, data: &[u8]) -> (result: Result<
        (),
        TrafficFailure,
    >)
        ensures
            ({
                let (key, out, expected) = sealed(
                    old(self)@.handshake.seal,
                    TrafficFailure::UnexpectedRecord,
                    old(output)@,
                    ContentType::Handshake,
                    data@,
                );
                final(self)@ == old(self)@.with_handshake_seal(key) && final(output)@ == out
                    && result == expected
            }),
    {
        match &mut self.handshake.sealer {
            Some(sealer) => seal(output, sealer, ContentType::Handshake, data),
            None => Err(TrafficFailure::UnexpectedRecord),
        }
    }

    /// Seals one record under the application key.
    pub fn seal_application(
        &mut self,
        output: &mut Cursor<'_>,
        content_type: ContentType,
        data: &[u8],
    ) -> (result: Result<(), TrafficFailure>)
        ensures
            ({
                let (key, out, expected) = sealed(
                    old(self)@.application.seal,
                    TrafficFailure::NotEstablished,
                    old(output)@,
                    content_type,
                    data@,
                );
                final(self)@ == old(self)@.with_seal(key) && final(output)@ == out && result
                    == expected
            }),
            result is Ok ==> old(self)@.application.seal is Some && final(output)@.bytes.len()
                >= old(output)@.bytes.len() && old(self)@.application.seal->0.yields(
                content_type,
                data@,
                final(output)@.bytes.skip(old(output)@.bytes.len() as int),
            ),
    {
        match &mut self.application.sealer {
            Some(sealer) => seal(output, sealer, content_type, data),
            None => Err(TrafficFailure::NotEstablished),
        }
    }

    /// Writes `plaintext` as application data: record by record, until `output`
    /// has no room for the next one. Returns how many bytes were written.
    ///
    /// What was put into `output` is a run of records which the opening key in
    /// step opens to exactly the bytes that were written.
    pub fn write_application(
        &mut self,
        phase: Phase,
        output: &mut Cursor<'_>,
        plaintext: &[u8],
    ) -> (result: Result<usize, Error>)
        ensures
            phase != Phase::Established ==> result == Err::<usize, Error>(Error::NotEstablished)
                && final(self)@ == old(self)@ && final(output)@ == old(output)@,
            phase == Phase::Established ==> ({
                let (key, out, expected) = written(
                    old(self)@.application.seal,
                    old(output)@,
                    plaintext@,
                );
                &&& final(self)@ == old(self)@.with_seal(key)
                &&& final(output)@ == out
                &&& match (result, expected) {
                    (Ok(count), Ok(total)) => count == total && count <= plaintext@.len(),
                    (Err(error), Err(failure)) => error == failure.as_error(),
                    _ => false,
                }
            }),
            phase == Phase::Established && result is Ok ==> wrote(
                old(self)@.application.seal,
                old(output)@,
                final(self)@.application.seal,
                final(output)@,
                plaintext@.take(result->Ok_0 as int),
            ),
    {
        if phase != Phase::Established {
            return Err(Error::NotEstablished);
        }
        let mut consumed: usize = 0;
        proof {
            assert(plaintext@.skip(0) =~= plaintext@);
            assert(plaintext@.take(0) =~= Seq::<u8>::empty());
            if self@.application.seal is Some {
                let key = self@.application.seal->0;
                assert(carries(key.reader(), Seq::<u8>::empty(), Seq::<u8>::empty(), key.reader()));
            }
            assert(output@.bytes.skip(output@.bytes.len() as int) =~= Seq::<u8>::empty());
        }
        while consumed < plaintext.len()
            invariant
                phase == Phase::Established,
                consumed <= plaintext@.len(),
                self@ == old(self)@.with_seal(self@.application.seal),
                wrote(
                    old(self)@.application.seal,
                    old(output)@,
                    self@.application.seal,
                    output@,
                    plaintext@.take(consumed as int),
                ),
                ({
                    let (key, out, result) = written(
                        self@.application.seal,
                        output@,
                        plaintext@.skip(consumed as int),
                    );
                    written(old(self)@.application.seal, old(output)@, plaintext@) == (
                        key,
                        out,
                        match result {
                            Ok(count) => Ok::<nat, TrafficFailure>((consumed + count) as nat),
                            Err(failure) => Err(failure),
                        },
                    )
                }),
            ensures
                consumed == plaintext@.len() || output@.spare() < fragment(
                    (plaintext@.len() - consumed) as nat,
                ) + TLS13_RECORD_OVERHEAD,
            decreases plaintext@.len() - consumed,
        {
            let rest: usize = plaintext.len() - consumed;
            let take: usize = if rest <= MAX_PLAINTEXT_BODY {
                rest
            } else {
                MAX_PLAINTEXT_BODY
            };
            if output.spare_capacity() < take + TLS13_RECORD_OVERHEAD {
                break;
            }
            let ghost before = output@;
            let ghost key = self@.application.seal;
            let chunk = vstd::slice::slice_subrange(plaintext, consumed, consumed + take);
            proof {
                assert(plaintext@.skip(consumed as int).take(take as int) =~= chunk@);
                assert(plaintext@.skip(consumed as int).skip(take as int) =~= plaintext@.skip(
                    consumed + take,
                ));
            }
            match self.seal_application(output, ContentType::ApplicationData, chunk) {
                Ok(()) => {
                    proof {
                        wrote_push(
                            old(self)@.application.seal,
                            old(output)@,
                            key->0,
                            before,
                            plaintext@.take(consumed as int),
                            output@,
                            chunk@,
                        );
                        assert(plaintext@.take(consumed as int) + chunk@ =~= plaintext@.take(
                            consumed + take,
                        ));
                    }
                },
                Err(failure) => {
                    return Err(failure.into_error());
                },
            }
            consumed = consumed + take;
        }
        proof {
            assert(plaintext@.skip(consumed as int).len() == plaintext@.len() - consumed);
        }
        Ok(consumed)
    }

    /// Writes one record of application data out of several parts. Returns 0,
    /// having written nothing, where `output` has no room for the record.
    pub fn write_application_parts(
        &mut self,
        phase: Phase,
        output: &mut Cursor<'_>,
        plaintext_len: usize,
        parts: &[&[u8]],
    ) -> (result: Result<usize, Error>)
        ensures
            ({
                let (key, out, expected) = parts_written(
                    phase,
                    old(self)@.application.seal,
                    old(output)@,
                    plaintext_len as nat,
                    record::joined(parts@),
                );
                &&& final(self)@ == old(self)@.with_seal(key)
                &&& final(output)@ == out
                &&& match (result, expected) {
                    (Ok(count), Ok(total)) => count == total,
                    (Err(error), Err(refusal)) => error == refusal,
                    _ => false,
                }
            }),
            result is Ok && result->Ok_0 == plaintext_len && plaintext_len > 0 ==> wrote(
                old(self)@.application.seal,
                old(output)@,
                final(self)@.application.seal,
                final(output)@,
                record::joined(parts@),
            ),
    {
        if phase != Phase::Established {
            return Err(Error::NotEstablished);
        }
        if plaintext_len > MAX_PLAINTEXT_BODY {
            return Err(Error::Record(RecordError::BodyTooLarge));
        }
        if output.spare_capacity() < plaintext_len + TLS13_RECORD_OVERHEAD {
            return Ok(0);
        }
        let ghost before = output@;
        match &mut self.application.sealer {
            Some(sealer) => {
                let ghost key = record::seal_key(*sealer);
                match record::seal_parts_to(
                    sealer,
                    ContentType::ApplicationData,
                    plaintext_len,
                    parts,
                    output,
                ) {
                    Ok(()) => {
                        proof {
                            let body = record::joined(parts@);
                            let record = key.record(ContentType::ApplicationData, body)->0;
                            assert(before.bytes.skip(before.bytes.len() as int) =~= Seq::<u8>::empty());
                            assert(output@.bytes.skip(before.bytes.len() as int) =~= record);
                            assert(carries(
                                key.reader(),
                                Seq::<u8>::empty(),
                                Seq::<u8>::empty(),
                                key.reader(),
                            ));
                            wrote_push(
                                Some(key),
                                before,
                                key,
                                before,
                                Seq::empty(),
                                output@,
                                body,
                            );
                            assert(Seq::<u8>::empty() + body =~= body);
                        }
                        Ok(plaintext_len)
                    },
                    Err(RecordError::BufferTooSmall) => Err(Error::SendOverflow),
                    Err(error) => Err(Error::Record(error)),
                }
            },
            None => Err(Error::NotEstablished),
        }
    }

    /// Installs the keys of an epoch.
    pub fn install(
        &mut self,
        epoch: Epoch,
        read_secret: &[u8],
        write_secret: &[u8],
        suite: CipherSuite,
    ) -> (result: Result<(), TrafficFailure>)
        ensures
            (final(self)@, result) == old(self)@.install(
                epoch,
                read_secret@,
                write_secret@,
                suite,
            ),
    {
        match epoch {
            Epoch::Handshake => {
                match record::new_opener(read_secret, suite) {
                    Ok(opener) => self.handshake.opener = Some(opener),
                    Err(error) => return Err(TrafficFailure::RecordKey(error)),
                }
                match record::new_sealer(write_secret, suite) {
                    Ok(sealer) => self.handshake.sealer = Some(sealer),
                    Err(error) => return Err(TrafficFailure::RecordKey(error)),
                }
            },
            Epoch::Application => {
                match record::new_opener(read_secret, suite) {
                    Ok(opener) => self.application.opener = Some(opener),
                    Err(error) => return Err(TrafficFailure::RecordKey(error)),
                }
                match record::new_sealer(write_secret, suite) {
                    Ok(sealer) => self.application.sealer = Some(sealer),
                    Err(error) => return Err(TrafficFailure::RecordKey(error)),
                }
            },
            Epoch::Plaintext | Epoch::EarlyData => {},
        }
        Ok(())
    }

    /// Replaces one application key.
    pub fn update(&mut self, direction: KeyDirection, secret: &[u8], suite: CipherSuite) -> (result:
        Result<(), TrafficFailure>)
        ensures
            (final(self)@, result) == old(self)@.update(direction, secret@, suite),
    {
        match direction {
            KeyDirection::Read => match record::new_opener(secret, suite) {
                Ok(opener) => {
                    self.application.opener = Some(opener);
                    Ok(())
                },
                Err(error) => Err(TrafficFailure::RecordKey(error)),
            },
            KeyDirection::Write => match record::new_sealer(secret, suite) {
                Ok(sealer) => {
                    self.application.sealer = Some(sealer);
                    Ok(())
                },
                Err(error) => Err(TrafficFailure::RecordKey(error)),
            },
        }
    }
}

/// The records that a key makes of pieces of application data, one after the other.
pub open spec fn records_of(key: SealKey, pieces: Seq<Seq<u8>>) -> Seq<u8>
    decreases pieces.len(),
{
    if pieces.len() == 0 {
        Seq::empty()
    } else {
        (key.record(ContentType::ApplicationData, pieces[0]))->0 + records_of(
            key.next(),
            pieces.skip(1),
        )
    }
}

/// A key after so many records.
pub open spec fn key_after(key: SealKey, count: nat) -> SealKey {
    SealKey { secret: key.secret, suite: key.suite, seq: key.seq + count }
}

/// What is written is sealed into records, each byte once and in order: the buffer grows
/// by just the records of the pieces that the data is cut into, and the key moves on by as
/// many. What is left over has no room for its next record.
pub proof fn writing_seals_in_order(key: SealKey, out: Contents, plain: Seq<u8>) -> (pieces: Seq<
    Seq<u8>,
>)
    requires
        written(Some(key), out, plain).2 is Ok,
    ensures
        ({
            let (after, more, result) = written(Some(key), out, plain);
            let count = result->Ok_0;
            &&& count <= plain.len()
            &&& plain::whole(pieces) == plain.take(count as int)
            &&& forall|i: int|
                0 <= i < pieces.len() ==> 0 < (#[trigger] pieces[i]).len() <= MAX_PLAINTEXT_BODY
            &&& more == out.extend(records_of(key, pieces))
            &&& after == Some(key_after(key, pieces.len()))
            &&& count < plain.len() ==> more.spare() < fragment((plain.len() - count) as nat)
                + TLS13_RECORD_OVERHEAD
        }),
    decreases plain.len(),
{
    let take = fragment(plain.len());
    if plain.len() == 0 || out.spare() < take + TLS13_RECORD_OVERHEAD {
        let none = Seq::<Seq<u8>>::empty();
        assert(plain::whole(none) =~= plain.take(0));
        assert(out.extend(records_of(key, none)).bytes =~= out.bytes);
        none
    } else {
        let piece = plain.take(take as int);
        let rest = plain.skip(take as int);
        let next = key.next();
        let record = (key.record(ContentType::ApplicationData, piece))->0;
        let (key1, out1, _) = sealed(
            Some(key),
            TrafficFailure::NotEstablished,
            out,
            ContentType::ApplicationData,
            piece,
        );
        assert(key1 == Some(next));
        assert(out1 == out.extend(record));
        let others = writing_seals_in_order(next, out1, rest);
        let pieces = seq![piece] + others;
        let count = written(Some(next), out1, rest).2->Ok_0;
        plain::whole_concat(seq![piece], others);
        plain::whole_one(piece);
        assert(piece + rest.take(count as int) =~= plain.take((take + count) as int));
        assert(pieces.skip(1) =~= others);
        assert(out1.extend(records_of(next, others)).bytes =~= out.extend(
            records_of(key, pieces),
        ).bytes);
        assert forall|i: int| 0 <= i < pieces.len() implies 0 < (#[trigger] pieces[i]).len()
            <= MAX_PLAINTEXT_BODY by {
            if i > 0 {
                assert(pieces[i] == others[i - 1]);
            }
        }
        pieces
    }
}

} // verus!
