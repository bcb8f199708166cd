//! Ciphertext on its way into a send buffer.

use crate::buffer::{Contents, Cursor};
use std::io::IoSlice;
use vstd::prelude::*;

verus! {

#[verifier::external_type_specification]
#[verifier::external_body]
pub struct ExIoSlice<'a>(IoSlice<'a>);

/// The bytes of an I/O slice.
pub uninterp spec fn slice_bytes(slice: IoSlice<'_>) -> Seq<u8>;

/// `IoSlice::deref`: the bytes of an I/O slice.
#[verifier::external_body]
fn bytes_of<'a>(slice: &'a IoSlice<'_>) -> (bytes: &'a [u8])
    ensures
        bytes@ == slice_bytes(*slice),
{
    slice
}

/// That an I/O error is of the kind `WouldBlock`.
pub uninterp spec fn is_would_block(error: std::io::Error) -> bool;

/// `std::io::Error::from` a kind: an error of the kind `WouldBlock`, which says that
/// there is no room at the moment.
#[verifier::external_body]
fn would_block() -> (error: std::io::Error)
    ensures
        is_would_block(error),
{
    std::io::Error::from(std::io::ErrorKind::WouldBlock)
}

/// Writes into a send buffer as much as there is room for.
pub struct CiphertextWriter<'d> {
    egress: Cursor<'d>,
}

/// How much of so many bytes there is room for.
pub open spec fn fitting(out: Contents, len: nat) -> nat {
    if len <= out.spare() {
        len
    } else if out.spare() > 0 {
        out.spare() as nat
    } else {
        0
    }
}

/// All slices from number `from` on, one after the other.
pub open spec fn slices_from(bufs: Seq<IoSlice<'_>>, from: int) -> Seq<u8>
    decreases bufs.len() - from,
{
    if from >= bufs.len() {
        Seq::empty()
    } else {
        slice_bytes(bufs[from]) + slices_from(bufs, from + 1)
    }
}

impl<'d> CiphertextWriter<'d> {
    /// What the send buffer holds.
    pub closed spec fn out(self) -> Contents {
        self.egress@
    }

    pub fn new(egress: Cursor<'d>) -> (writer: Self)
        ensures
            writer.out() == egress@,
    {
        CiphertextWriter { egress }
    }

    pub fn into_inner(self) -> (egress: Cursor<'d>)
        ensures
            egress@ == self.out(),
    {
        self.egress
    }

    /// How much room there is.
    pub fn remaining(&self) -> (count: usize)
        ensures
            count == self.out().spare(),
    {
        self.egress.spare_capacity()
    }

    /// Writes as much as there is room for, or says that there is none.
    pub fn put(&mut self, bytes: &[u8]) -> (count: Option<usize>)
        ensures
            ({
                let n = fitting(old(self).out(), bytes@.len());
                match count {
                    Some(count) => count == n && (n > 0 || bytes@.len() == 0) && final(self).out()
                        == old(self).out().extend(bytes@.take(n as int)),
                    None => n == 0 && bytes@.len() > 0 && final(self).out() == old(self).out(),
                }
            }),
    {
        if bytes.len() == 0 {
            assert(self.out().bytes + bytes@.take(0) =~= self.out().bytes);
            return Some(0);
        }
        let room: usize = self.remaining();
        let count: usize = if bytes.len() <= room {
            bytes.len()
        } else {
            room
        };
        if count == 0 {
            return None;
        }
        let piece = vstd::slice::slice_subrange(bytes, 0, count);
        assert(piece@ =~= bytes@.take(count as int));
        let done = self.egress.try_extend(piece);
        assert(done);
        Some(count)
    }

    /// Writes slices one after the other, as much as there is room for, or says that
    /// there is none.
    pub fn put_all(&mut self, bufs: &[IoSlice<'_>]) -> (count: Option<usize>)
        ensures
            ({
                let all = slices_from(bufs@, 0);
                let n = fitting(old(self).out(), all.len());
                match count {
                    Some(count) => count == n && (n > 0 || all.len() == 0) && final(self).out()
                        == old(self).out().extend(all.take(n as int)),
                    None => n == 0 && all.len() > 0 && final(self).out() == old(self).out(),
                }
            }),
    {
        let ghost before = self.out();
        let ghost all = slices_from(bufs@, 0);
        let mut written: usize = 0;
        let mut has_bytes: bool = false;
        let mut full: bool = false;
        let mut at: usize = 0;
        let room: usize = self.remaining();
        proof {
            assert(all.skip(0) =~= all);
            assert(before.bytes + all.take(0) =~= before.bytes);
        }
        while at < bufs.len() && !full
            invariant
                at <= bufs@.len(),
                before == old(self).out(),
                room == before.spare(),
                all == slices_from(bufs@, 0),
                written <= room,
                written <= all.len(),
                self.out() == before.extend(all.take(written as int)),
                !full ==> all.skip(written as int) == slices_from(bufs@, at as int) && (has_bytes
                    == (written > 0)),
                full ==> has_bytes && written == room && all.len() > written,
            decreases bufs@.len() - at,
        {
            let bytes = bytes_of(&bufs[at]);
            let ghost rest = slices_from(bufs@, at as int);
            assert(rest == bytes@ + slices_from(bufs@, at + 1));
            if bytes.len() > 0 {
                has_bytes = true;
                match self.put(bytes) {
                    Some(count) => {
                        proof {
                            assert(bytes@.take(count as int) =~= rest.take(count as int));
                            assert(all.take(written as int) + rest.take(count as int) =~= all.take(
                                written + count,
                            ));
                            assert(before.bytes + all.take(written as int) + rest.take(count as int)
                                =~= before.bytes + all.take(written + count));
                            assert(all.skip(written + count) =~= rest.skip(count as int));
                            if count == bytes@.len() {
                                assert(rest.skip(count as int) =~= slices_from(bufs@, at + 1));
                            }
                        }
                        written = written + count;
                        if count < bytes.len() {
                            full = true;
                        }
                    },
                    None => {
                        full = true;
                    },
                }
            } else {
                assert(rest =~= slices_from(bufs@, at + 1));
            }
            at = at + 1;
        }
        proof {
            if !full {
                assert(all.skip(written as int).len() == 0);
            }
        }
        if written == 0 && has_bytes {
            assert(before.bytes + all.take(0) =~= before.bytes);
            None
        } else {
            Some(written)
        }
    }
}

impl std::io::Write for CiphertextWriter<'_> {
    fn write(&mut self, bytes: &[u8]) -> (result: std::io::Result<usize>)
        ensures
            ({
                let n = fitting(old(self).out(), bytes@.len());
                match result {
                    Ok(count) => count == n && (n > 0 || bytes@.len() == 0) && final(self).out()
                        == old(self).out().extend(bytes@.take(n as int)),
                    Err(error) => n == 0 && bytes@.len() > 0 && final(self).out()
                        == old(self).out() && is_would_block(error),
                }
            }),
    {
        match self.put(bytes) {
            Some(count) => Ok(count),
            None => Err(would_block()),
        }
    }

    fn write_vectored(&mut self, bufs: &[IoSlice<'_>]) -> (result: std::io::Result<usize>)
        ensures
            ({
                let all = slices_from(bufs@, 0);
                let n = fitting(old(self).out(), all.len());
                match result {
                    Ok(count) => count == n && (n > 0 || all.len() == 0) && final(self).out()
                        == old(self).out().extend(all.take(n as int)),
                    Err(error) => n == 0 && all.len() > 0 && final(self).out()
                        == old(self).out() && is_would_block(error),
                }
            }),
    {
        match self.put_all(bufs) {
            Some(count) => Ok(count),
            None => Err(would_block()),
        }
    }

    fn flush(&mut self) -> (result: std::io::Result<()>)
        ensures
            result is Ok,
            final(self).out() == old(self).out(),
    {
        Ok(())
    }
}

} // verus!
