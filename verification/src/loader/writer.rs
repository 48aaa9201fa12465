//! A buffer of fixed size that takes text until it is full.

use vstd::prelude::*;

verus! {

/// A writer into a buffer of fixed size.
pub struct FixedBufWriter {
    buf: Vec<u8>,
    capacity: usize,
}

/// What a buffer with room for `capacity` bytes holds once `bytes` were
/// written behind `held`: as many of them as fit.
pub open spec fn written(held: Seq<u8>, capacity: usize, bytes: Seq<u8>) -> Seq<u8> {
    let room = capacity - held.len();
    held + bytes.take(
        if bytes.len() < room {
            bytes.len() as int
        } else {
            room
        },
    )
}

impl FixedBufWriter {
    /// The bytes written so far.
    pub closed spec fn view(&self) -> Seq<u8> {
        self.buf@
    }

    /// Bytes that the buffer has room for.
    pub closed spec fn capacity(&self) -> usize {
        self.capacity
    }

    pub open spec fn wf(&self) -> bool {
        self@.len() <= self.capacity()
    }

    /// An empty writer with room for `capacity` bytes.
    pub fn new(capacity: usize) -> (r: Self)
        ensures
            r.wf(),
            r@.len() == 0,
            r.capacity() == capacity,
    {
        FixedBufWriter { buf: Vec::new(), capacity }
    }

    /// Number of bytes written so far.
    pub fn len(&self) -> (r: usize)
        ensures
            r == self@.len(),
    {
        self.buf.len()
    }

    /// The bytes written so far.
    pub fn as_slice(&self) -> (r: &[u8])
        ensures
            r@ == self@,
    {
        self.buf.as_slice()
    }

    /// Writes as many of the bytes as fit, and says whether all of them did.
    pub fn write_bytes(&mut self, bytes: &[u8]) -> (r: Result<(), ()>)
        requires
            old(self).wf(),
        ensures
            final(self).wf(),
            final(self).capacity() == old(self).capacity(),
            final(self)@ == written(old(self)@, old(self).capacity(), bytes@),
            r is Ok <==> old(self)@.len() + bytes@.len() <= old(self).capacity(),
    {
        let remaining: usize = self.capacity - self.buf.len();
        let to_copy: usize = if bytes.len() < remaining {
            bytes.len()
        } else {
            remaining
        };
        let mut i: usize = 0;
        proof {
            assert(old(self)@ + bytes@.take(0) =~= old(self)@);
        }
        while i < to_copy
            invariant
                i <= to_copy,
                to_copy <= bytes@.len(),
                self.capacity == old(self).capacity,
                old(self)@.len() + to_copy <= self.capacity,
                self.buf@ == old(self)@ + bytes@.take(i as int),
            decreases to_copy - i,
        {
            self.buf.push(bytes[i]);
            proof {
                assert((old(self)@ + bytes@.take(i as int)).push(bytes@[i as int]) =~= old(self)@
                    + bytes@.take(i as int + 1));
            }
            i = i + 1;
        }
        if to_copy == bytes.len() {
            Ok(())
        } else {
            Err(())
        }
    }
}

} // verus!
