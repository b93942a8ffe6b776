//! The two buffers of one client connection: bytes that arrived and are not
//! yet read as frames, and frames that are written and not yet sent.
//!
//! The socket itself is the embedder's. It hands arriving bytes to
//! [`Connection::receive`] and sends what [`Connection::take_output`] gives.

use crate::frame::{parse_spec, serialize_spec, Frame};
use crate::trusted::{
    bytes_mut_advance, bytes_mut_as_slice, bytes_mut_extend, bytes_mut_view,
    bytes_mut_with_capacity,
};
use bytes::BytesMut;
use vstd::prelude::*;

verus! {

/// The buffers of one connection.
pub struct Connection {
    buffer: BytesMut,
    output: Vec<u8>,
}

impl Connection {
    /// The bytes that arrived and were not yet read as frames.
    pub closed spec fn buffered(&self) -> Seq<u8> {
        bytes_mut_view(self.buffer)
    }

    /// The bytes that were written and not yet taken for sending.
    pub closed spec fn pending(&self) -> Seq<u8> {
        self.output@
    }

    /// A connection on which nothing arrived and nothing was written. Its
    /// read buffer starts with room for 4 KiB.
    pub fn new() -> (conn: Connection)
        ensures
            conn.buffered() == Seq::<u8>::empty(),
            conn.pending() == Seq::<u8>::empty(),
    {
        Connection { buffer: bytes_mut_with_capacity(4 * 1024), output: Vec::new() }
    }

    /// Takes in bytes that arrived from the peer.
    pub fn receive(&mut self, data: &[u8])
        ensures
            final(self).buffered() == old(self).buffered() + data@,
            final(self).pending() == old(self).pending(),
    {
        bytes_mut_extend(&mut self.buffer, data);
    }

    /// Reads the next frame from the bytes that arrived.
    ///
    /// Returns the frame and drops its bytes from the buffer where the buffer
    /// starts with a whole frame. Returns `None`, and leaves the buffer as it
    /// is, where the buffer ends before the frame does: the caller then waits
    /// for more bytes. Fails where no frame starts with these bytes.
    pub fn read_frame(&mut self) -> (r: Result<Option<Frame>, crate::Error>)
        ensures
            final(self).pending() == old(self).pending(),
            match parse_spec(old(self).buffered()) {
                Ok((n, frame)) => r matches Ok(Some(f)) && f@ == frame && final(self).buffered()
                    == old(self).buffered().skip(n),
                Err(crate::frame::Error::Incomplete) => r matches Ok(None)
                    && final(self).buffered() == old(self).buffered(),
                Err(crate::frame::Error::Other(e)) => r == Err::<Option<Frame>, crate::Error>(e)
                    && final(self).buffered() == old(self).buffered(),
            },
    {
        match Frame::parse(bytes_mut_as_slice(&self.buffer)) {
            Ok((advance, frame)) => {
                bytes_mut_advance(&mut self.buffer, advance);
                Ok(Some(frame))
            },
            Err(crate::frame::Error::Incomplete) => Ok(None),
            Err(crate::frame::Error::Other(e)) => Err(e),
        }
    }

    /// What the end of the peer's stream means: a clean close where no byte
    /// is left unread, a reset in the middle of a frame otherwise.
    pub fn end_of_stream(&self) -> (r: Result<(), crate::Error>)
        ensures
            r == if self.buffered().len() == 0 {
                Ok::<(), crate::Error>(())
            } else {
                Err::<(), crate::Error>(crate::Error::ConnectionReset)
            },
    {
        if bytes_mut_as_slice(&self.buffer).len() == 0 {
            Ok(())
        } else {
            Err(crate::Error::ConnectionReset)
        }
    }

    /// Writes `frame`: its bytes are added to what waits for sending.
    pub fn write_frame(&mut self, frame: &Frame)
        ensures
            final(self).pending() == old(self).pending() + serialize_spec(frame@),
            final(self).buffered() == old(self).buffered(),
    {
        frame.write_to(&mut self.output);
    }

    /// Hands out the bytes that wait for sending, and forgets them.
    pub fn take_output(&mut self) -> (bytes: Vec<u8>)
        ensures
            bytes@ == old(self).pending(),
            final(self).pending() == Seq::<u8>::empty(),
            final(self).buffered() == old(self).buffered(),
    {
        let mut bytes: Vec<u8> = Vec::new();
        std::mem::swap(&mut bytes, &mut self.output);
        bytes
    }
}

} // verus!
