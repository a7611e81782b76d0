use vstd::prelude::*;
use vstd::slice::{slice_subrange, slice_to_vec};

use crate::codec::{decode, parse_message, FrameError};
use crate::command::{request_reply, request_store, respond};
use crate::storage::Storage;
use crate::value::{encode, Value};

verus! {

/// What the owner of a connection does next.
#[derive(Debug)]
pub enum Action {
    /// Write these bytes to the peer, then call `step` again.
    Send(Vec<u8>),
    /// Read more bytes from the peer and hand them to `receive`.
    Read,
    /// Close the connection.
    Close,
}

/// The bytes received on one connection and not yet decoded.
pub struct Connection {
    buffer: Vec<u8>,
}

impl View for Connection {
    type V = Seq<u8>;

    closed spec fn view(&self) -> Seq<u8> {
        self.buffer@
    }
}

impl Connection {
    /// A connection on which nothing has been received.
    pub fn new() -> (r: Self)
        ensures
            r@ == Seq::<u8>::empty(),
    {
        Connection { buffer: Vec::new() }
    }

    /// Appends bytes read from the peer.
    pub fn receive(&mut self, bytes: &[u8])
        ensures
            final(self)@ == old(self)@ + bytes@,
    {
        let mut i: usize = 0;
        while i < bytes.len()
            invariant
                i <= bytes@.len(),
                self@ == old(self)@ + bytes@.take(i as int),
            decreases bytes.len() - i,
        {
            self.buffer.push(bytes[i]);
            i = i + 1;
            assert(self@ =~= old(self)@ + bytes@.take(i as int));
        }
        assert(bytes@.take(i as int) =~= bytes@);
    }

    /// Decodes the next request, and drops its bytes from the buffer; gives
    /// `None`, and keeps the buffer, while the request is incomplete.
    pub fn next_request(&mut self) -> (r: Result<Option<Value>, FrameError>)
        ensures
            match decode(old(self)@) {
                Ok((f, n)) => r matches Ok(Some(v)) && v@ == f && final(self)@ == old(self)@.skip(n as int),
                Err(FrameError::Incomplete) => r matches Ok(None) && final(self)@ == old(self)@,
                Err(FrameError::Malformed) => r matches Err(FrameError::Malformed) && final(self)@ == old(self)@,
            },
    {
        match parse_message(self.buffer.as_slice()) {
            Ok((v, n)) => {
                let len = self.buffer.len();
                let rest = slice_to_vec(slice_subrange(self.buffer.as_slice(), n, len));
                self.buffer = rest;
                Ok(Some(v))
            },
            Err(FrameError::Incomplete) => Ok(None),
            Err(FrameError::Malformed) => Err(FrameError::Malformed),
        }
    }

    /// Decodes and carries out the next request on `stg` at time `now`.
    pub fn step(&mut self, stg: &mut Storage, now: u128) -> (r: Action)
        requires
            old(stg).wf(),
        ensures
            final(stg).wf(),
            match decode(old(self)@) {
                Ok((f, n)) => final(self)@ == old(self)@.skip(n as int)
                    && final(stg)@ == request_store(old(stg)@, f, now)
                    && match request_reply(old(stg)@, f, now) {
                        Ok(reply) => r matches Action::Send(b) && b@ == encode(reply),
                        Err(_) => r is Close,
                    },
                Err(FrameError::Incomplete) => r is Read && final(self)@ == old(self)@ && final(stg)@ == old(stg)@,
                Err(FrameError::Malformed) => r is Close && final(stg)@ == old(stg)@,
            },
    {
        match self.next_request() {
            Ok(Some(request)) => match respond(stg, request, now) {
                Ok(reply) => Action::Send(reply.to_string()),
                Err(_) => Action::Close,
            },
            Ok(None) => Action::Read,
            Err(_) => Action::Close,
        }
    }
}

} // verus!
