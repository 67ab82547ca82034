use vstd::prelude::*;

use crate::cursor::DirectBuf;
use crate::cursor::DirectBufMut;

verus! {

/// A source of buffers to read into.
pub trait BufferSource<T: DirectBufMut> {
    /// Hands out one buffer.
    fn singlebuffer(&self) -> T;
}

/// What one read from a connection gave.
pub enum ReadResult<T: DirectBufMut> {
    /// The bytes read.
    Data(T),
    /// Nothing: the peer has closed the connection.
    EOF,
}

impl<T: DirectBufMut> ReadResult<T> {
    /// What a read that put `amount_read` bytes at the front of `buf` gave:
    /// the end of the stream if it read nothing, else the buffer cut down to
    /// the bytes read.
    pub fn from_read(buf: T, amount_read: usize) -> (r: ReadResult<T>)
        requires
            amount_read <= buf.contents().len(),
        ensures
            amount_read == 0 ==> r is EOF,
            amount_read > 0 ==> (r matches ReadResult::Data(b) && b.contents() == buf.contents().take(
                amount_read as int,
            )),
    {
        if amount_read == 0 {
            // The other side hung up
            ReadResult::EOF
        } else {
            let mut buf = buf;
            buf.truncate(amount_read);
            ReadResult::Data(buf)
        }
    }
}

} // verus!
