use vstd::prelude::*;

verus! {

/// A plain error carrying a human-readable message.
pub struct Error {
    message: String,
}

impl View for Error {
    type V = Seq<char>;

    closed spec fn view(&self) -> Seq<char> {
        self.message@
    }
}

impl Error {
    pub fn new(message: String) -> (r: Error)
        ensures
            r@ == message@,
    {
        Error { message }
    }

    /// The message this error carries.
    pub fn message(&self) -> (r: String)
        ensures
            r@ == self@,
    {
        self.message.clone()
    }
}

/// What can go wrong while a connection is brought into the chat.
pub enum ServerError {
    /// The first payload was not the expected greeting.
    FailedHandshake,
    /// The peer closed the connection (a zero-byte read).
    UserShutdown,
    /// Any other failure, such as bytes that are not UTF-8.
    Other(Error),
}

} // verus!
