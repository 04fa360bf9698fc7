//! Decisions of the echo service: after every read, either close the
//! connection or send back exactly the bytes that were read.

use vstd::prelude::*;

verus! {

/// What the echo service does after a read of `n` bytes.
#[derive(PartialEq, Eq, Structural, Debug, Clone, Copy)]
pub enum EchoStep {
    /// The peer closed the connection: stop serving it.
    Close,
    /// Write back the first `n` bytes of the read buffer.
    Echo(usize),
}

/// Decides what to do with a successful read of `read_len` bytes: a read of
/// zero bytes means the peer closed the connection, anything else is echoed.
pub fn echo_step(read_len: usize) -> (step: EchoStep)
    ensures
        read_len == 0 ==> step == EchoStep::Close,
        read_len != 0 ==> step == EchoStep::Echo(read_len),
{
    if read_len == 0 {
        EchoStep::Close
    } else {
        EchoStep::Echo(read_len)
    }
}

} // verus!
