//! Staging buffers that are there only while they hold something.

use crate::buffer::Contents;
use crate::staging::TLS_STAGING_CAP;
use vstd::prelude::*;

verus! {

/// Every staging buffer has the same room, and can hold anything that fits in it;
/// what holds something has a buffer.
pub proof fn staging_is_fixed(pooled: Pooled)
    ensures
        pooled@.capacity == TLS_STAGING_CAP,
        pooled.wf() <==> pooled@.bytes.len() <= TLS_STAGING_CAP,
        pooled@.bytes.len() > 0 ==> pooled.backed(),
{
}

/// A staging buffer. It is allocated when something is first put into it, and let
/// go once it has drained; without one it reads as empty.
pub struct Pooled {
    buf: Option<Vec<u8>>,
}

impl View for Pooled {
    type V = Contents;

    closed spec fn view(&self) -> Contents {
        Contents {
            bytes: match self.buf {
                Some(buf) => buf@,
                None => Seq::empty(),
            },
            capacity: TLS_STAGING_CAP as nat,
        }
    }
}

impl Pooled {
    /// That no more is held than fits.
    pub closed spec fn wf(self) -> bool {
        self@.bytes.len() <= TLS_STAGING_CAP
    }

    /// Whether there is a buffer at all.
    pub closed spec fn backed(self) -> bool {
        self.buf is Some
    }

    /// That there is a buffer only while something is held.
    pub open spec fn tight(self) -> bool {
        self.backed() ==> self@.bytes.len() > 0
    }

    pub fn new() -> (pooled: Self)
        ensures
            pooled.wf(),
            !pooled.backed(),
            pooled@ == (Contents { bytes: Seq::empty(), capacity: TLS_STAGING_CAP as nat }),
    {
        Pooled { buf: None }
    }

    /// How many more bytes fit.
    pub fn spare_capacity(&self) -> (count: usize)
        requires
            self.wf(),
        ensures
            count == self@.spare(),
    {
        match &self.buf {
            Some(buf) => TLS_STAGING_CAP - buf.len(),
            None => TLS_STAGING_CAP,
        }
    }

    pub fn is_empty(&self) -> (empty: bool)
        ensures
            empty == (self@.bytes.len() == 0),
    {
        match &self.buf {
            Some(buf) => buf.len() == 0,
            None => true,
        }
    }

    pub fn as_slice(&self) -> (bytes: &[u8])
        ensures
            bytes@ == self@.bytes,
    {
        match &self.buf {
            Some(buf) => buf.as_slice(),
            None => &[],
        }
    }

    /// The bytes, to be changed in place. Without a buffer there are none.
    pub fn as_mut_slice(&mut self) -> (bytes: &mut [u8])
        requires
            old(self).wf(),
        ensures
            bytes@ == old(self)@.bytes,
            final(bytes)@.len() == old(self)@.bytes.len() ==> final(self).wf() && final(self)@ == (
            Contents { bytes: final(bytes)@, capacity: old(self)@.capacity }),
            final(self).backed() == old(self).backed(),
    {
        match &mut self.buf {
            Some(buf) => buf.as_mut_slice(),
            None => &mut [],
        }
    }

    /// Appends bytes, which have to fit.
    pub fn push(&mut self, src: &[u8])
        requires
            old(self).wf(),
            src@.len() <= old(self)@.spare(),
        ensures
            final(self).wf(),
            final(self)@ == old(self)@.extend(src@),
            final(self).backed() == (old(self).backed() || src@.len() > 0),
    {
        let ghost before = self@.bytes;
        if src.len() == 0 {
            assert(before + src@ =~= before);
            return;
        }
        let mut buf: Vec<u8> = match self.buf.take() {
            Some(buf) => buf,
            None => Vec::new(),
        };
        assert(buf@ =~= before);
        buf.extend_from_slice(src);
        self.buf = Some(buf);
        assert(self@.bytes =~= before + src@);
    }

    /// Drops bytes from the front, of which there have to be so many.
    pub fn consume(&mut self, count: usize)
        requires
            old(self).wf(),
            count <= old(self)@.bytes.len(),
        ensures
            final(self).wf(),
            final(self)@ == old(self)@.skip(count as int),
            final(self).backed() == old(self).backed(),
    {
        let ghost before = self@.bytes;
        match self.buf.take() {
            Some(buf) => {
                let mut buf = buf;
                let rest: Vec<u8> = buf.split_off(count);
                assert(rest@ =~= before.skip(count as int));
                self.buf = Some(rest);
            },
            None => {
                assert(before.skip(0) =~= before);
            },
        }
    }

    /// Lets an empty buffer go.
    pub fn release_if_empty(&mut self)
        requires
            old(self).wf(),
        ensures
            final(self).wf(),
            final(self)@ == old(self)@,
            final(self).backed() == (old(self).backed() && old(self)@.bytes.len() > 0),
    {
        if self.is_empty() {
            assert(self@.bytes =~= Seq::<u8>::empty());
            self.buf = None;
        }
    }
}

} // verus!
