//! What is asked of a `rustls` connection.

use crate::rust_tls::writer::CiphertextWriter;
use rustls::pki_types::ServerName;
use rustls::{
    ClientConfig as RustlsClientConfig, ClientConnection, CommonState,
    Connection as RustlsConnection, Error as RustlsError, ServerConfig as RustlsServerConfig,
    ServerConnection,
};
use std::io::{BufRead, ErrorKind, IoSlice, Write};
use std::sync::Arc;
use vstd::prelude::*;

verus! {

#[verifier::external_type_specification]
#[verifier::external_body]
pub struct ExRustlsConnection(RustlsConnection);

#[verifier::external_type_specification]
#[verifier::external_body]
pub struct ExRustlsError(RustlsError);

#[verifier::external_type_specification]
#[verifier::external_body]
pub struct ExRustlsServerConfig(RustlsServerConfig);

#[verifier::external_type_specification]
#[verifier::external_body]
pub struct ExRustlsClientConfig(RustlsClientConfig);

#[verifier::external_type_specification]
#[verifier::external_body]
pub struct ExServerName<'a>(ServerName<'a>);

/// Why a connection takes no more ciphertext: its plaintext has to be read first,
/// or it is broken.
#[derive(Clone, Copy, PartialEq, Eq, Structural)]
pub enum Refusal {
    Full,
    Broken,
}

/// Why a connection gives nothing out: there is nothing at the moment, or it is
/// broken.
#[derive(Clone, Copy, PartialEq, Eq, Structural)]
pub enum Stall {
    WouldBlock,
    Broken,
}

/// What handling ciphertext has come to: whether the peer has ended its side, and
/// how much plaintext can be read.
#[derive(Clone, Copy, PartialEq, Eq, Structural)]
pub struct Progress {
    pub peer_has_closed: bool,
    pub plaintext: usize,
}

/// A TLS connection that is fed ciphertext and plaintext. What it makes of them is
/// its own.
pub trait Session: Sized {
    /// Whether the handshake is still under way.
    spec fn handshaking(self) -> bool;

    /// The ciphertext that is to be sent.
    spec fn queue(self) -> Seq<u8>;

    /// The plaintext that is to be read.
    spec fn plain(self) -> Seq<u8>;

    /// The plaintext that can be read in one piece.
    spec fn chunk(self) -> Seq<u8>;

    /// The application protocol that was agreed on.
    spec fn alpn(self) -> Option<Seq<u8>>;

    /// That ciphertext can be taken in so.
    spec fn takes(
        before: Self,
        input: Seq<u8>,
        after: Self,
        result: Result<usize, Refusal>,
    ) -> bool;

    /// That the ciphertext taken in can come to this.
    spec fn handles(before: Self, after: Self, result: Result<Progress, Stall>) -> bool;

    /// That this ciphertext can be given out, with so much room for it.
    spec fn gives(
        before: Self,
        room: int,
        after: Self,
        more: Seq<u8>,
        result: Result<usize, Stall>,
    ) -> bool;

    /// That plaintext can be taken in so.
    spec fn seals(before: Self, plain: Seq<u8>, after: Self, result: Result<usize, Stall>) -> bool;

    /// That looking for plaintext can come to this.
    spec fn shows(before: Self, after: Self, result: Result<Seq<u8>, Stall>) -> bool;

    /// That `after` is `before` without the first `count` bytes of plaintext.
    spec fn drops(before: Self, count: int, after: Self) -> bool;

    /// That `after` is `before` with the peer told that nothing more will be sent.
    spec fn tells(before: Self, after: Self) -> bool;

    fn read_tls(&mut self, input: &[u8]) -> (result: Result<usize, Refusal>)
        ensures
            Self::takes(*old(self), input@, *final(self), result),
            result matches Ok(count) ==> count <= input@.len(),
            result matches Err(Refusal::Full) ==> final(self).plain().len() > 0,
            final(self).queue() == old(self).queue(),
            final(self).plain() == old(self).plain(),
    ;

    fn process_new_packets(&mut self) -> (result: Result<Progress, Stall>)
        ensures
            Self::handles(*old(self), *final(self), result),
            result matches Ok(progress) ==> progress.plaintext == final(self).plain().len(),
            old(self).queue().is_prefix_of(final(self).queue()),
            old(self).plain().is_prefix_of(final(self).plain()),
    ;

    fn write_tls(&mut self, writer: &mut CiphertextWriter<'_>) -> (result: Result<usize, Stall>)
        ensures
            ({
                let more = final(writer).out().bytes.skip(old(writer).out().bytes.len() as int);
                &&& Self::gives(*old(self), old(writer).out().spare(), *final(self), more, result)
                &&& final(writer).out() == old(writer).out().extend(more)
                &&& more.len() <= old(writer).out().spare()
                &&& sent(old(self).queue(), more, final(self).queue())
                &&& final(self).plain() == old(self).plain()
                &&& final(self).handshaking() == old(self).handshaking()
                &&& match result {
                    Ok(count) => count == more.len(),
                    Err(_) => more.len() == 0,
                }
            }),
    ;

    /// Appends to a vector what is to be sent, or a first part of it.
    fn write_all(&mut self, out: &mut Vec<u8>) -> (result: Result<usize, Stall>)
        ensures
            ({
                let more = final(out)@.skip(old(out)@.len() as int);
                &&& Self::gives(*old(self), usize::MAX as int, *final(self), more, result)
                &&& final(out)@ == old(out)@ + more
                &&& sent(old(self).queue(), more, final(self).queue())
                &&& final(self).plain() == old(self).plain()
                &&& final(self).handshaking() == old(self).handshaking()
                &&& match result {
                    Ok(count) => count == more.len(),
                    Err(_) => more.len() == 0,
                }
            }),
    ;

    fn wants_write(&self) -> (wants: bool)
        ensures
            wants == (self.queue().len() > 0),
    ;

    fn is_handshaking(&self) -> (is: bool)
        ensures
            is == self.handshaking(),
    ;

    fn write_plain(&mut self, plain: &[u8]) -> (result: Result<usize, Stall>)
        ensures
            Self::seals(*old(self), plain@, *final(self), result),
            result matches Ok(count) ==> count <= plain@.len(),
            old(self).queue().is_prefix_of(final(self).queue()),
            final(self).plain() == old(self).plain(),
    ;

    fn write_parts(&mut self, parts: &[&[u8]]) -> (result: Result<usize, Stall>)
        ensures
            Self::seals(*old(self), crate::record::joined(parts@), *final(self), result),
            result matches Ok(count) ==> count <= crate::record::joined(parts@).len(),
            old(self).queue().is_prefix_of(final(self).queue()),
            final(self).plain() == old(self).plain(),
    ;

    fn first_chunk(&mut self) -> (result: Result<Vec<u8>, Stall>)
        ensures
            match result {
                Ok(chunk) => Self::shows(*old(self), *final(self), Ok(chunk@)) && chunk@
                    == final(self).chunk() && chunk@.is_prefix_of(old(self).plain()) && (chunk@.len()
                    > 0 || old(self).plain().len() == 0),
                Err(stall) => Self::shows(*old(self), *final(self), Err(stall)) && old(
                    self,
                ).plain().len() == 0,
            },
            final(self).queue() == old(self).queue(),
            final(self).plain() == old(self).plain(),
    ;

    fn consume(&mut self, count: usize)
        requires
            count <= old(self).chunk().len(),
        ensures
            Self::drops(*old(self), count as int, *final(self)),
            final(self).queue() == old(self).queue(),
            final(self).plain() == old(self).plain().skip(count as int),
    ;

    fn send_close_notify(&mut self)
        ensures
            Self::tells(*old(self), *final(self)),
            old(self).queue().is_prefix_of(final(self).queue()),
            final(self).plain() == old(self).plain(),
    ;

    fn alpn_protocol(&self) -> (protocol: Option<&[u8]>)
        ensures
            match protocol {
                Some(protocol) => self.alpn() == Some(protocol@),
                None => self.alpn() is None,
            },
    ;
}

/// That these bytes, the first of what was to be sent, are so no longer.
pub open spec fn sent(queue: Seq<u8>, more: Seq<u8>, left: Seq<u8>) -> bool {
    &&& more.is_prefix_of(queue)
    &&& left == queue.skip(more.len() as int)
}

/// Whether a `rustls` connection is still in its handshake.
pub uninterp spec fn conn_handshaking(conn: RustlsConnection) -> bool;

/// The ciphertext that a `rustls` connection wants sent.
pub uninterp spec fn conn_queue(conn: RustlsConnection) -> Seq<u8>;

/// The plaintext that a `rustls` connection has for its reader.
pub uninterp spec fn conn_plain(conn: RustlsConnection) -> Seq<u8>;

/// That `rustls::Connection::read_tls` can go so.
pub uninterp spec fn conn_takes(
    before: RustlsConnection,
    input: Seq<u8>,
    after: RustlsConnection,
    result: Result<usize, Refusal>,
) -> bool;

/// That `rustls::Connection::process_new_packets` can go so.
pub uninterp spec fn conn_handles(
    before: RustlsConnection,
    after: RustlsConnection,
    result: Result<Progress, Stall>,
) -> bool;

/// That `rustls::Connection::write_tls` can go so, with so much room for what it
/// writes.
pub uninterp spec fn conn_gives(
    before: RustlsConnection,
    room: int,
    after: RustlsConnection,
    more: Seq<u8>,
    result: Result<usize, Stall>,
) -> bool;

/// That writing this plaintext to a `rustls::Writer` can go so.
pub uninterp spec fn conn_seals(
    before: RustlsConnection,
    plain: Seq<u8>,
    after: RustlsConnection,
    result: Result<usize, Stall>,
) -> bool;

/// That writing parts which come to this plaintext to a `rustls::Writer` at once can go so.
pub uninterp spec fn conn_seals_parts(
    before: RustlsConnection,
    plain: Seq<u8>,
    after: RustlsConnection,
    result: Result<usize, Stall>,
) -> bool;

/// That `rustls::Reader::into_first_chunk` can go so.
pub uninterp spec fn conn_shows(
    before: RustlsConnection,
    after: RustlsConnection,
    result: Result<Seq<u8>, Stall>,
) -> bool;

/// That dropping so much from a `rustls::Reader` can go so.
pub uninterp spec fn conn_drops(
    before: RustlsConnection,
    count: int,
    after: RustlsConnection,
) -> bool;

/// That `rustls::CommonState::send_close_notify` can go so.
pub uninterp spec fn conn_tells(before: RustlsConnection, after: RustlsConnection) -> bool;

/// The plaintext that a `rustls` connection gives out in one piece.
pub uninterp spec fn conn_chunk(conn: RustlsConnection) -> Seq<u8>;

/// The application protocol of a `rustls` connection.
pub uninterp spec fn conn_alpn(conn: RustlsConnection) -> Option<Seq<u8>>;

/// `rustls::Connection::read_tls`: takes ciphertext in, never more than there is.
/// A connection whose plaintext has to be read first says so by an error of kind
/// `Other`. What is to be sent and what is to be read stay as they are.
#[verifier::external_body]
fn conn_read_tls(conn: &mut RustlsConnection, input: &[u8]) -> (result: Result<usize, Refusal>)
    ensures
        conn_takes(*old(conn), input@, *final(conn), result),
        result matches Ok(count) ==> count <= input@.len(),
        result matches Err(Refusal::Full) ==> conn_plain(*final(conn)).len() > 0,
        conn_queue(*final(conn)) == conn_queue(*old(conn)),
        conn_plain(*final(conn)) == conn_plain(*old(conn)),
{
    let mut cursor = input;
    match conn.read_tls(&mut cursor) {
        Ok(count) => Ok(count),
        Err(error) => match error.kind() {
            ErrorKind::Other => Err(Refusal::Full),
            _ => Err(Refusal::Broken),
        },
    }
}

/// `rustls::Connection::process_new_packets`: handles the ciphertext that was taken
/// in, and says how much plaintext there is to read. It appends to what is to be sent
/// and to what is to be read; which bytes is left open.
#[verifier::external_body]
fn conn_process(conn: &mut RustlsConnection) -> (result: Result<Progress, Stall>)
    ensures
        conn_handles(*old(conn), *final(conn), result),
        result matches Ok(progress) ==> progress.plaintext == conn_plain(*final(conn)).len(),
        conn_queue(*old(conn)).is_prefix_of(conn_queue(*final(conn))),
        conn_plain(*old(conn)).is_prefix_of(conn_plain(*final(conn))),
{
    match conn.process_new_packets() {
        Ok(state) => Ok(
            Progress {
                peer_has_closed: state.peer_has_closed(),
                plaintext: state.plaintext_bytes_to_read(),
            },
        ),
        Err(_) => Err(Stall::Broken),
    }
}

/// `rustls::Connection::write_tls`: hands ciphertext to the writer once, and says
/// how much of it the writer took. That is no longer to be sent, and nothing else
/// changes: neither what is to be read nor how far the handshake is. An error comes from
/// the writer, which then took nothing.
#[verifier::external_body]
fn conn_write_tls(conn: &mut RustlsConnection, writer: &mut CiphertextWriter<'_>) -> (result:
    Result<usize, Stall>)
    ensures
        ({
            let more = final(writer).out().bytes.skip(old(writer).out().bytes.len() as int);
            &&& conn_gives(*old(conn), old(writer).out().spare(), *final(conn), more, result)
            &&& final(writer).out() == old(writer).out().extend(more)
            &&& more.len() <= old(writer).out().spare()
            &&& sent(conn_queue(*old(conn)), more, conn_queue(*final(conn)))
            &&& conn_plain(*final(conn)) == conn_plain(*old(conn))
            &&& conn_handshaking(*final(conn)) == conn_handshaking(*old(conn))
            &&& match result {
                Ok(count) => count == more.len(),
                Err(_) => more.len() == 0,
            }
        }),
{
    match conn.write_tls(writer) {
        Ok(count) => Ok(count),
        Err(error) => match error.kind() {
            ErrorKind::WouldBlock => Err(Stall::WouldBlock),
            _ => Err(Stall::Broken),
        },
    }
}

/// `rustls::Connection::write_tls` into a vector, which takes all it is handed. The
/// connection hands a limited number of pieces over at once, and changes in nothing else.
#[verifier::external_body]
fn conn_write_all(conn: &mut RustlsConnection, out: &mut Vec<u8>) -> (result: Result<usize, Stall>)
    ensures
        ({
            let more = final(out)@.skip(old(out)@.len() as int);
            &&& conn_gives(*old(conn), usize::MAX as int, *final(conn), more, result)
            &&& final(out)@ == old(out)@ + more
            &&& sent(conn_queue(*old(conn)), more, conn_queue(*final(conn)))
            &&& conn_plain(*final(conn)) == conn_plain(*old(conn))
            &&& conn_handshaking(*final(conn)) == conn_handshaking(*old(conn))
            &&& match result {
                Ok(count) => count == more.len(),
                Err(_) => more.len() == 0,
            }
        }),
{
    match conn.write_tls(out) {
        Ok(count) => Ok(count),
        Err(_) => Err(Stall::Broken),
    }
}

/// `rustls::CommonState::wants_write`: whether there is ciphertext to be sent.
#[verifier::external_body]
fn conn_wants_write(conn: &RustlsConnection) -> (wants: bool)
    ensures
        wants == (conn_queue(*conn).len() > 0),
{
    let common: &CommonState = conn;
    common.wants_write()
}

/// `rustls::CommonState::is_handshaking`: whether the handshake is still under way.
#[verifier::external_body]
fn conn_is_handshaking(conn: &RustlsConnection) -> (is: bool)
    ensures
        is == conn_handshaking(*conn),
{
    let common: &CommonState = conn;
    common.is_handshaking()
}

/// `rustls::Writer::write`: takes plaintext in, never more than there is. It appends
/// to what is to be sent; which bytes is left open.
#[verifier::external_body]
fn conn_write(conn: &mut RustlsConnection, plain: &[u8]) -> (result: Result<usize, Stall>)
    ensures
        conn_seals(*old(conn), plain@, *final(conn), result),
        result matches Ok(count) ==> count <= plain@.len(),
        conn_queue(*old(conn)).is_prefix_of(conn_queue(*final(conn))),
        conn_plain(*final(conn)) == conn_plain(*old(conn)),
{
    match conn.writer().write(plain) {
        Ok(count) => Ok(count),
        Err(_) => Err(Stall::Broken),
    }
}

/// `rustls::Writer::write_vectored`: takes the parts in one after the other, never more
/// than there is. It appends to what is to be sent; which bytes is left open.
#[verifier::external_body]
fn conn_write_vectored(conn: &mut RustlsConnection, parts: &[&[u8]]) -> (result: Result<
    usize,
    Stall,
>)
    ensures
        conn_seals_parts(*old(conn), crate::record::joined(parts@), *final(conn), result),
        result matches Ok(count) ==> count <= crate::record::joined(parts@).len(),
        conn_queue(*old(conn)).is_prefix_of(conn_queue(*final(conn))),
        conn_plain(*final(conn)) == conn_plain(*old(conn)),
{
    let slices: Vec<IoSlice<'_>> = parts.iter().map(|part| IoSlice::new(part)).collect();
    match conn.writer().write_vectored(&slices) {
        Ok(count) => Ok(count),
        Err(_) => Err(Stall::Broken),
    }
}

/// `rustls::Reader::into_first_chunk`: a first piece of the plaintext that is to be
/// read. Nothing at all means that the peer has ended its side, an error that there is
/// nothing to read.
#[verifier::external_body]
fn conn_first_chunk(conn: &mut RustlsConnection) -> (result: Result<Vec<u8>, Stall>)
    ensures
        match result {
            Ok(chunk) => conn_shows(*old(conn), *final(conn), Ok(chunk@)) && chunk@ == conn_chunk(
                *final(conn),
            ) && chunk@.is_prefix_of(conn_plain(*old(conn))) && (chunk@.len() > 0 || conn_plain(
                *old(conn),
            ).len() == 0),
            Err(stall) => conn_shows(*old(conn), *final(conn), Err(stall)) && conn_plain(
                *old(conn),
            ).len() == 0,
        },
        conn_queue(*final(conn)) == conn_queue(*old(conn)),
        conn_plain(*final(conn)) == conn_plain(*old(conn)),
{
    match conn.reader().into_first_chunk() {
        Ok(chunk) => Ok(chunk.to_vec()),
        Err(error) => match error.kind() {
            ErrorKind::WouldBlock => Err(Stall::WouldBlock),
            _ => Err(Stall::Broken),
        },
    }
}

/// `BufRead::consume` of `rustls::Reader`: drops plaintext that was read. More than
/// the piece that can be read makes it panic.
#[verifier::external_body]
fn conn_consume(conn: &mut RustlsConnection, count: usize)
    requires
        count <= conn_chunk(*old(conn)).len(),
    ensures
        conn_drops(*old(conn), count as int, *final(conn)),
        conn_queue(*final(conn)) == conn_queue(*old(conn)),
        conn_plain(*final(conn)) == conn_plain(*old(conn)).skip(count as int),
{
    conn.reader().consume(count)
}

/// `rustls::CommonState::send_close_notify`: has the peer told that nothing more will
/// be sent, behind what is to be sent anyway. Which bytes tell it is left open.
#[verifier::external_body]
fn conn_close_notify(conn: &mut RustlsConnection)
    ensures
        conn_tells(*old(conn), *final(conn)),
        conn_queue(*old(conn)).is_prefix_of(conn_queue(*final(conn))),
        conn_plain(*final(conn)) == conn_plain(*old(conn)),
{
    let common: &mut CommonState = conn;
    common.send_close_notify()
}

/// `rustls::CommonState::alpn_protocol`: the application protocol, once one is agreed
/// on.
#[verifier::external_body]
fn conn_alpn_protocol(conn: &RustlsConnection) -> (protocol: Option<&[u8]>)
    ensures
        match protocol {
            Some(protocol) => conn_alpn(*conn) == Some(protocol@),
            None => conn_alpn(*conn) is None,
        },
{
    let common: &CommonState = conn;
    common.alpn_protocol()
}

impl Session for RustlsConnection {
    open spec fn handshaking(self) -> bool {
        conn_handshaking(self)
    }

    open spec fn queue(self) -> Seq<u8> {
        conn_queue(self)
    }

    open spec fn plain(self) -> Seq<u8> {
        conn_plain(self)
    }

    open spec fn chunk(self) -> Seq<u8> {
        conn_chunk(self)
    }

    open spec fn alpn(self) -> Option<Seq<u8>> {
        conn_alpn(self)
    }

    open spec fn takes(
        before: Self,
        input: Seq<u8>,
        after: Self,
        result: Result<usize, Refusal>,
    ) -> bool {
        conn_takes(before, input, after, result)
    }

    open spec fn handles(before: Self, after: Self, result: Result<Progress, Stall>) -> bool {
        conn_handles(before, after, result)
    }

    open spec fn gives(
        before: Self,
        room: int,
        after: Self,
        more: Seq<u8>,
        result: Result<usize, Stall>,
    ) -> bool {
        conn_gives(before, room, after, more, result)
    }

    open spec fn seals(
        before: Self,
        plain: Seq<u8>,
        after: Self,
        result: Result<usize, Stall>,
    ) -> bool {
        conn_seals(before, plain, after, result) || conn_seals_parts(before, plain, after, result)
    }

    open spec fn shows(before: Self, after: Self, result: Result<Seq<u8>, Stall>) -> bool {
        conn_shows(before, after, result)
    }

    open spec fn drops(before: Self, count: int, after: Self) -> bool {
        conn_drops(before, count, after)
    }

    open spec fn tells(before: Self, after: Self) -> bool {
        conn_tells(before, after)
    }

    fn read_tls(&mut self, input: &[u8]) -> Result<usize, Refusal> {
        conn_read_tls(self, input)
    }

    fn process_new_packets(&mut self) -> Result<Progress, Stall> {
        conn_process(self)
    }

    fn write_tls(&mut self, writer: &mut CiphertextWriter<'_>) -> Result<usize, Stall> {
        conn_write_tls(self, writer)
    }

    fn write_all(&mut self, out: &mut Vec<u8>) -> Result<usize, Stall> {
        conn_write_all(self, out)
    }

    fn wants_write(&self) -> bool {
        conn_wants_write(self)
    }

    fn is_handshaking(&self) -> bool {
        conn_is_handshaking(self)
    }

    fn write_plain(&mut self, plain: &[u8]) -> Result<usize, Stall> {
        conn_write(self, plain)
    }

    fn write_parts(&mut self, parts: &[&[u8]]) -> Result<usize, Stall> {
        conn_write_vectored(self, parts)
    }

    fn first_chunk(&mut self) -> Result<Vec<u8>, Stall> {
        conn_first_chunk(self)
    }

    fn consume(&mut self, count: usize) {
        conn_consume(self, count)
    }

    fn send_close_notify(&mut self) {
        conn_close_notify(self)
    }

    fn alpn_protocol(&self) -> Option<&[u8]> {
        conn_alpn_protocol(self)
    }
}

/// That `rustls::ServerConnection::new` can come to this.
pub uninterp spec fn server_connected(
    config: RustlsServerConfig,
    result: Result<RustlsConnection, RustlsError>,
) -> bool;

/// That `rustls::ClientConnection::new` can come to this.
pub uninterp spec fn client_connected(
    config: RustlsClientConfig,
    server_name: ServerName<'static>,
    result: Result<RustlsConnection, RustlsError>,
) -> bool;

/// `rustls::ServerConnection::new`: a server that waits for a client. A fragment
/// size out of range is refused; which configurations pass otherwise is the
/// connection's own matter.
#[verifier::external_body]
pub(crate) fn connect_server(config: &Arc<RustlsServerConfig>) -> (result: Result<
    RustlsConnection,
    RustlsError,
>)
    ensures
        server_connected(**config, result),
        result is Ok ==> in_range(server_fragment(**config)),
{
    match ServerConnection::new(config.clone()) {
        Ok(server) => Ok(RustlsConnection::Server(server)),
        Err(error) => Err(error),
    }
}

/// `rustls::ClientConnection::new`: a client that has something to say. A fragment
/// size out of range is refused; which configurations pass otherwise is the
/// connection's own matter.
#[verifier::external_body]
pub(crate) fn connect_client(
    config: &Arc<RustlsClientConfig>,
    server_name: &ServerName<'static>,
) -> (result: Result<RustlsConnection, RustlsError>)
    ensures
        client_connected(**config, *server_name, result),
        result is Ok ==> in_range(client_fragment(**config)),
{
    match ClientConnection::new(config.clone(), server_name.clone()) {
        Ok(client) => Ok(RustlsConnection::Client(client)),
        Err(error) => Err(error),
    }
}

/// Whether `rustls` allows for a fragment size.
pub open spec fn in_range(size: Option<usize>) -> bool {
    size matches Some(size) ==> 32 <= size <= 16389
}

/// The largest fragment that a server is configured for.
pub uninterp spec fn server_fragment(config: RustlsServerConfig) -> Option<usize>;

/// The largest fragment that a client is configured for.
pub uninterp spec fn client_fragment(config: RustlsClientConfig) -> Option<usize>;

/// `rustls::ServerConfig::max_fragment_size`: the largest fragment, if it is
/// configured.
#[verifier::external_body]
pub(crate) fn server_max_fragment(config: &RustlsServerConfig) -> (size: Option<usize>)
    ensures
        size == server_fragment(*config),
{
    config.max_fragment_size
}

/// `rustls::ClientConfig::max_fragment_size`: the largest fragment, if it is
/// configured.
#[verifier::external_body]
pub(crate) fn client_max_fragment(config: &RustlsClientConfig) -> (size: Option<usize>)
    ensures
        size == client_fragment(*config),
{
    config.max_fragment_size
}

} // verus!
