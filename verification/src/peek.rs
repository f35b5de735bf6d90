//! Buffering of the first bytes of a connection until the ClientHello's SNI
//! host name can be read.
//!
//! The accept loop reads from the socket; this state machine decides, after
//! each read, whether to wait for more, to route, or to give up. The bytes it
//! buffered are exactly the bytes that were read, so they can be forwarded to
//! the backend unchanged.

use vstd::prelude::*;

use crate::client_hello::{
    MAX_CLIENT_HELLO_BYTES, extract_sni_from_buffer, lower_case_result, sni_outcome,
    spec_extract_sni,
};
use crate::error::{ErrorView, SniProxyError};

verus! {

/// The bytes of a connection read so far, before any routing decision;
/// never more than [`MAX_CLIENT_HELLO_BYTES`].
pub struct ClientHelloPeek {
    buffer: Vec<u8>,
}

pub open spec fn msg_hello_too_large() -> Seq<char> {
    "ClientHello exceeded 16384 bytes"@
}

pub open spec fn msg_closed_before_hello() -> Seq<char> {
    "connection closed before ClientHello"@
}

impl View for ClientHelloPeek {
    type V = Seq<u8>;

    closed spec fn view(&self) -> Seq<u8> {
        self.buffer@
    }
}

impl ClientHelloPeek {
    #[verifier::type_invariant]
    spec fn within_limit(self) -> bool {
        self.buffer@.len() <= MAX_CLIENT_HELLO_BYTES
    }

    /// Nothing read yet.
    pub fn new() -> (p: Self)
        ensures
            p@ == Seq::<u8>::empty(),
    {
        ClientHelloPeek { buffer: Vec::new() }
    }

    /// Checked before each read: once the buffer holds the maximum number of
    /// bytes without a complete ClientHello, the connection is given up.
    pub fn check_capacity(&self) -> (res: Result<(), SniProxyError>)
        ensures
            res is Ok <==> self@.len() < MAX_CLIENT_HELLO_BYTES,
            res matches Err(e) ==> e@ == ErrorView::ClientHello(msg_hello_too_large()),
    {
        if self.buffer.len() >= MAX_CLIENT_HELLO_BYTES {
            return Err(SniProxyError::ClientHello("ClientHello exceeded 16384 bytes".to_owned()));
        }
        Ok(())
    }

    /// How many more bytes may be buffered; a read should ask for no more.
    pub fn room(&self) -> (n: usize)
        ensures
            n == MAX_CLIENT_HELLO_BYTES - self@.len(),
    {
        proof {
            use_type_invariant(self);
        }
        MAX_CLIENT_HELLO_BYTES - self.buffer.len()
    }

    /// Takes the bytes of one read. An empty read means the peer closed the
    /// connection, and bytes beyond the buffer's limit are refused; both are
    /// errors that leave the buffer as it was. Otherwise the bytes are
    /// appended and the whole buffer is parsed: a host name means routing can
    /// start, nothing means more bytes are needed.
    pub fn feed(&mut self, chunk: &[u8]) -> (res: Result<Option<String>, SniProxyError>)
        ensures
            chunk@.len() == 0 ==> final(self)@ == old(self)@ && (res matches Err(e) && e@
                == ErrorView::ClientHello(msg_closed_before_hello())),
            chunk@.len() > 0 && old(self)@.len() + chunk@.len() > MAX_CLIENT_HELLO_BYTES
                ==> final(self)@ == old(self)@ && (res matches Err(e) && e@
                == ErrorView::ClientHello(msg_hello_too_large())),
            chunk@.len() > 0 && old(self)@.len() + chunk@.len() <= MAX_CLIENT_HELLO_BYTES
                ==> final(self)@ == old(self)@ + chunk@ && sni_outcome(res) == spec_extract_sni(
                final(self)@,
            ),
            final(self)@.len() <= MAX_CLIENT_HELLO_BYTES,
            lower_case_result(res),
    {
        proof {
            use_type_invariant(&*self);
        }
        if chunk.len() == 0 {
            return Err(
                SniProxyError::ClientHello("connection closed before ClientHello".to_owned()),
            );
        }
        if chunk.len() > MAX_CLIENT_HELLO_BYTES - self.buffer.len() {
            return Err(SniProxyError::ClientHello("ClientHello exceeded 16384 bytes".to_owned()));
        }
        let mut buffer: Vec<u8> = Vec::new();
        std::mem::swap(&mut buffer, &mut self.buffer);
        buffer.extend_from_slice(chunk);
        assert(buffer@ =~= old(self)@ + chunk@);
        let res = extract_sni_from_buffer(buffer.as_slice());
        self.buffer = buffer;
        res
    }

    /// The bytes read so far.
    pub fn buffered(&self) -> (b: &[u8])
        ensures
            b@ == self@,
            b@.len() <= MAX_CLIENT_HELLO_BYTES,
    {
        proof {
            use_type_invariant(self);
        }
        self.buffer.as_slice()
    }

    /// Gives up the state, handing back the bytes read so far.
    pub fn into_buffer(self) -> (b: Vec<u8>)
        ensures
            b@ == self@,
            b@.len() <= MAX_CLIENT_HELLO_BYTES,
    {
        proof {
            use_type_invariant(&self);
        }
        self.buffer
    }
}

} // verus!
