//! The client's decisions: which display names it offers, and what it does
//! with a line typed by its user.
use vstd::prelude::*;
use vstd::utf8::encode_utf8;

use crate::protocol::same_bytes;

verus! {

/// The fewest bytes a display name may have.
pub const MIN_NAME_LEN: usize = 5;

/// The most bytes a display name may have.
pub const MAX_NAME_LEN: usize = 15;

/// Whether the client accepts `name` as a display name: 5 to 15 bytes long.
/// The server does not check names; this rule is the client's own.
pub fn username_ok(name: &str) -> (r: bool)
    ensures
        r == (MIN_NAME_LEN <= encode_utf8(name@).len() <= MAX_NAME_LEN),
{
    let n = name.as_bytes().len();
    MIN_NAME_LEN <= n && n <= MAX_NAME_LEN
}

/// The line that ends a chat session: `/exit`.
pub open spec fn exit_bytes() -> Seq<u8> {
    seq![47u8, 101u8, 120u8, 105u8, 116u8]
}

/// What the client does with a typed line.
pub enum Input {
    /// Leave the chat.
    Exit,
    /// Send these bytes to the server.
    Send(String),
    /// Nothing was typed; ask again.
    Skip,
}

/// Decides what a typed line means: `/exit` leaves, an empty line is
/// skipped, and any other line is sent with its newline.
pub fn chat_input(line: &String) -> (r: Input)
    ensures
        encode_utf8(line@) == exit_bytes() ==> r is Exit,
        encode_utf8(line@) != exit_bytes() && line@.len() == 0 ==> r is Skip,
        encode_utf8(line@) != exit_bytes() && line@.len() != 0 ==> (r matches Input::Send(
            t,
        ) && t@ == line@ + "\n"@),
{
    let exit: Vec<u8> = vec![47u8, 101u8, 120u8, 105u8, 116u8];
    assert(exit@ =~= exit_bytes());
    if same_bytes(line.as_str().as_bytes(), exit.as_slice()) {
        return Input::Exit;
    }
    if line.as_str().is_empty() {
        return Input::Skip;
    }
    let mut t = line.clone();
    t.append("\n");
    Input::Send(t)
}

} // verus!
