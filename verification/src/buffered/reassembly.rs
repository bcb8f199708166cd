//! Handshake messages that come in pieces.

use vstd::prelude::*;

verus! {

/// Width of a handshake message header: type and body length.
pub const HS_HEADER_LEN: usize = 4;

/// The length of the handshake message whose header stands at the front.
pub open spec fn message_len(buf: Seq<u8>) -> nat
    recommends
        buf.len() >= HS_HEADER_LEN,
{
    HS_HEADER_LEN as nat + (buf[1] as nat) * 0x1_0000 + (buf[2] as nat) * 0x100 + buf[3] as nat
}

/// How many bytes at the front are whole handshake messages.
pub open spec fn complete_prefix(buf: Seq<u8>) -> nat
    decreases buf.len(),
{
    if buf.len() < HS_HEADER_LEN || buf.len() < message_len(buf) {
        0
    } else {
        message_len(buf) + complete_prefix(buf.skip(message_len(buf) as int))
    }
}

/// The whole messages at the front do not outgrow the bytes.
pub proof fn prefix_is_within(buf: Seq<u8>)
    ensures
        complete_prefix(buf) <= buf.len(),
    decreases buf.len(),
{
    if buf.len() >= HS_HEADER_LEN && buf.len() >= message_len(buf) {
        prefix_is_within(buf.skip(message_len(buf) as int));
    }
}

/// The whole messages in front of bytes that come in two lots are those of the
/// first lot, and then those of what was left over with the second lot behind it.
/// So it makes no difference how messages are cut up.
pub proof fn messages_come_in_lots(buf: Seq<u8>, more: Seq<u8>)
    ensures
        complete_prefix(buf) <= buf.len(),
        complete_prefix(buf + more) == complete_prefix(buf) + complete_prefix(
            buf.skip(complete_prefix(buf) as int) + more,
        ),
    decreases buf.len(),
{
    let all = buf + more;
    if buf.len() >= HS_HEADER_LEN && buf.len() >= message_len(buf) {
        let first = message_len(buf) as int;
        let rest = buf.skip(first);
        messages_come_in_lots(rest, more);
        assert(message_len(all) == message_len(buf));
        assert(all.skip(first) =~= rest + more);
        assert(rest.skip(complete_prefix(rest) as int) =~= buf.skip(complete_prefix(buf) as int));
    } else {
        assert(buf.skip(0) =~= buf);
    }
}

/// Behind the whole messages there is no whole message, and they are whole by
/// themselves.
pub proof fn prefix_is_all_there_is(buf: Seq<u8>)
    ensures
        complete_prefix(buf) <= buf.len(),
        complete_prefix(buf.skip(complete_prefix(buf) as int)) == 0,
        complete_prefix(buf.take(complete_prefix(buf) as int)) == complete_prefix(buf),
    decreases buf.len(),
{
    prefix_is_within(buf);
    let end = complete_prefix(buf) as int;
    if buf.len() >= HS_HEADER_LEN && buf.len() >= message_len(buf) {
        let first = message_len(buf) as int;
        let rest = buf.skip(first);
        prefix_is_all_there_is(rest);
        assert(rest.skip(complete_prefix(rest) as int) =~= buf.skip(end));
        let front = buf.take(end);
        assert(message_len(front) == message_len(buf));
        assert(front.skip(first) =~= rest.take(complete_prefix(rest) as int));
    } else {
        assert(buf.skip(0) =~= buf);
        assert(buf.take(0).len() == 0);
    }
}

/// How many bytes at the front are whole handshake messages.
pub fn complete_handshake_prefix(buf: &[u8]) -> (complete: usize)
    ensures
        complete == complete_prefix(buf@),
        complete <= buf@.len(),
{
    let size: usize = buf.len();
    let mut off: usize = 0;
    assert(buf@.skip(0) =~= buf@);
    while size - off >= HS_HEADER_LEN
        invariant_except_break
            size == buf@.len(),
            off <= size,
            complete_prefix(buf@) == off + complete_prefix(buf@.skip(off as int)),
        ensures
            off <= size,
            complete_prefix(buf@) == off,
        decreases size - off,
    {
        let ghost rest = buf@.skip(off as int);
        let high: usize = buf[off + 1] as usize;
        let middle: usize = buf[off + 2] as usize;
        let low: usize = buf[off + 3] as usize;
        let total: usize = HS_HEADER_LEN + high * 0x1_0000 + middle * 0x100 + low;
        assert(total == message_len(rest));
        if size - off < total {
            break;
        }
        assert(rest.skip(total as int) =~= buf@.skip(off + total));
        off = off + total;
    }
    off
}

} // verus!
