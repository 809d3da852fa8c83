//! A read position over borrowed bytes, for callers that take their input in
//! buffers of a fixed size.
use vstd::prelude::*;

verus! {

/// Borrowed bytes and how far they have been read.
///
/// Its model is the bytes not read yet. A read hands out the first of them and
/// says how many it handed out; it asks for nothing and never fails for want
/// of bytes.
pub struct Cursor<'a> {
    data: &'a [u8],
    position: usize,
}

impl<'a> View for Cursor<'a> {
    type V = Seq<u8>;

    closed spec fn view(&self) -> Seq<u8> {
        self.data@.skip(self.position as int)
    }
}

impl<'a> Cursor<'a> {
    #[verifier::type_invariant]
    spec fn in_range(&self) -> bool {
        self.position <= self.data@.len()
    }

    /// A cursor at the start of `data`.
    pub fn new(data: &'a [u8]) -> (cursor: Self)
        ensures
            cursor@ == data@,
    {
        Self { data, position: 0 }
    }

    /// Copies the next bytes to the front of `dest_buffer`: as many as it
    /// holds, or all that are left if those are fewer. Returns their number.
    /// What lies behind them in `dest_buffer` stays.
    pub fn read(&mut self, dest_buffer: &mut [u8]) -> (bytes_read: usize)
        ensures
            bytes_read == vstd::math::min(old(dest_buffer)@.len() as int, old(self)@.len() as int),
            final(dest_buffer)@ == old(self)@.take(bytes_read as int) + old(dest_buffer)@.skip(
                bytes_read as int,
            ),
            final(self)@ == old(self)@.skip(bytes_read as int),
    {
        proof {
            use_type_invariant(&*self);
        }
        let mut bytes_read: usize = 0;
        while bytes_read < dest_buffer.len() && self.position < self.data.len()
            invariant
                bytes_read <= dest_buffer@.len() == old(dest_buffer)@.len(),
                self.data == old(self).data,
                self.position == old(self).position + bytes_read,
                self.position <= self.data@.len(),
                dest_buffer@ == old(self)@.take(bytes_read as int) + old(dest_buffer)@.skip(
                    bytes_read as int,
                ),
            decreases dest_buffer@.len() - bytes_read,
        {
            dest_buffer[bytes_read] = self.data[self.position];
            bytes_read += 1;
            self.position += 1;
        }
        bytes_read
    }

    /// Reads as [`Self::read`] does, and says whether `dest_buffer` was filled:
    /// `Ok` with its length if it was, `Err` with the number of bytes that were
    /// left, all of them copied, if it was not.
    pub fn read_exact(&mut self, dest_buffer: &mut [u8]) -> (outcome: Result<usize, usize>)
        ensures
            outcome == if old(dest_buffer)@.len() <= old(self)@.len() {
                Ok::<usize, usize>(old(dest_buffer)@.len() as usize)
            } else {
                Err::<usize, usize>(old(self)@.len() as usize)
            },
            outcome is Ok ==> final(dest_buffer)@ == old(self)@.take(old(dest_buffer)@.len() as int),
            outcome is Ok ==> final(self)@ == old(self)@.skip(old(dest_buffer)@.len() as int),
            outcome is Err ==> final(dest_buffer)@ == old(self)@ + old(dest_buffer)@.skip(
                old(self)@.len() as int,
            ),
            outcome is Err ==> final(self)@ == Seq::<u8>::empty(),
    {
        let bytes_read = self.read(dest_buffer);

        if bytes_read == dest_buffer.len() {
            Ok(bytes_read)
        } else {
            Err(bytes_read)
        }
    }
}

} // verus!
