//! The wire protocol: the fixed greeting exchange, payload decoding and the
//! newline framing of chat text.
use vstd::prelude::*;
use vstd::utf8::{decode_utf8, valid_utf8};

use crate::error::{Error, ServerError};

verus! {

/// The byte that ends every line on the wire.
pub const NEWLINE: u8 = 10;

/// The greeting a client sends first: `Hello!`, with no terminator.
pub open spec fn hello_bytes() -> Seq<u8> {
    seq![72u8, 101u8, 108u8, 108u8, 111u8, 33u8]
}

/// The reply of the server to a correct greeting: `Welcome!`.
pub open spec fn welcome_bytes() -> Seq<u8> {
    seq![87u8, 101u8, 108u8, 99u8, 111u8, 109u8, 101u8, 33u8]
}

/// The bytes a client sends to open the exchange.
pub fn hello() -> (r: Vec<u8>)
    ensures
        r@ == hello_bytes(),
{
    let r: Vec<u8> = vec![72u8, 101u8, 108u8, 108u8, 111u8, 33u8];
    assert(r@ =~= hello_bytes());
    r
}

/// The bytes the server answers a correct greeting with.
pub fn welcome() -> (r: Vec<u8>)
    ensures
        r@ == welcome_bytes(),
{
    let r: Vec<u8> = vec![87u8, 101u8, 108u8, 99u8, 111u8, 109u8, 101u8, 33u8];
    assert(r@ =~= welcome_bytes());
    r
}

/// Relies on `String::from_utf8`: it succeeds exactly on valid UTF-8, and the
/// string it returns holds the characters those bytes encode.
#[verifier::external_body]
pub(crate) fn decode_text(bytes: &[u8]) -> (r: Option<String>)
    ensures
        r is Some <==> valid_utf8(bytes@),
        r is Some ==> r->Some_0@ == decode_utf8(bytes@),
{
    String::from_utf8(bytes.to_vec()).ok()
}

/// Whether two byte sequences are equal, compared byte by byte.
pub(crate) fn same_bytes(a: &[u8], b: &[u8]) -> (r: bool)
    ensures
        r <==> a@ == b@,
{
    if a.len() != b.len() {
        return false;
    }
    let mut i: usize = 0;
    while i < a.len()
        invariant
            a@.len() == b@.len(),
            0 <= i <= a@.len(),
            forall|j: int| 0 <= j < i ==> a@[j] == b@[j],
        decreases a@.len() - i,
    {
        if a[i] != b[i] {
            return false;
        }
        i = i + 1;
    }
    assert(a@ =~= b@);
    true
}

/// Checks the first payload of a connection: it must be exactly the greeting.
/// An empty payload means the peer closed the connection before greeting.
pub fn handshake_client(payload: &[u8]) -> (r: Result<(), ServerError>)
    ensures
        r is Ok <==> payload@ == hello_bytes(),
        payload@.len() == 0 ==> r matches Err(ServerError::UserShutdown),
        payload@.len() != 0 && payload@ != hello_bytes() ==> r matches Err(
            ServerError::FailedHandshake,
        ),
{
    if payload.len() == 0 {
        return Err(ServerError::UserShutdown);
    }
    let expected = hello();
    if same_bytes(payload, expected.as_slice()) {
        Ok(())
    } else {
        Err(ServerError::FailedHandshake)
    }
}

/// Whether the server's reply to the greeting admits the client.
pub fn welcomed(reply: &[u8]) -> (r: bool)
    ensures
        r == (reply@ == welcome_bytes()),
{
    let expected = welcome();
    same_bytes(reply, expected.as_slice())
}

/// Turns the bytes of one read into text: a zero-byte read means the peer has
/// closed the connection, and bytes that are not UTF-8 are refused.
pub fn read_to_string(data: &[u8]) -> (r: Result<String, ServerError>)
    ensures
        data@.len() == 0 ==> r matches Err(ServerError::UserShutdown),
        data@.len() != 0 && !valid_utf8(data@) ==> r matches Err(ServerError::Other(_)),
        r is Ok <==> data@.len() != 0 && valid_utf8(data@),
        r is Ok ==> r->Ok_0@ == decode_utf8(data@),
{
    if data.len() == 0 {
        return Err(ServerError::UserShutdown);
    }
    match decode_text(data) {
        Some(text) => Ok(text),
        None => Err(ServerError::Other(Error::new(String::from_str("payload is not valid UTF-8")))),
    }
}

} // verus!
