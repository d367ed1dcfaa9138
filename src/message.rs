use vstd::prelude::*;

verus! {

/// The three kinds of message the protocol knows.
#[derive(Clone, Copy, Debug, PartialEq, Eq, Structural)]
pub enum MessageType {
    /// Greets a new server; the load carries the client's identity.
    Handshake,
    /// Hands some content to the server; counts against its limit.
    Post,
    /// Asks the server how many posts it has accepted.
    GetCount,
}

/// The textual tag of each kind of message.
pub open spec fn header_of(t: MessageType) -> Seq<char> {
    match t {
        MessageType::Handshake => "[HANDSHAKE]"@,
        MessageType::Post => "[POST]"@,
        MessageType::GetCount => "[GET COUNT]"@,
    }
}

impl MessageType {
    pub fn header(&self) -> (r: &'static str)
        ensures
            r@ == header_of(*self),
    {
        match self {
            MessageType::Handshake => "[HANDSHAKE]",
            MessageType::Post => "[POST]",
            MessageType::GetCount => "[GET COUNT]",
        }
    }
}

/// A unit of the protocol: its kind and a text payload.
pub struct Message {
    pub msg_type: MessageType,
    pub load: String,
}

impl Message {
    /// The header, a line break, then the load.
    pub open spec fn content_spec(&self) -> Seq<char> {
        header_of(self.msg_type) + "\n"@ + self.load@
    }

    pub fn content(&self) -> (r: String)
        ensures
            r@ == self.content_spec(),
    {
        let head = String::from_str(self.msg_type.header());
        let head = head.concat("\n");
        head.concat(self.load.as_str())
    }
}

/// What a server answers to a message it accepts.
#[derive(Clone, Copy, Debug, PartialEq, Eq, Structural)]
pub enum Response {
    HandshakeReceived,
    PostReceived,
    GetCount(u32),
}

/// The failures of the protocol, each with the server name or the address involved.
#[derive(Debug, PartialEq, Eq)]
pub enum CommsError {
    ServerLimitReached(String),
    UnexpectedHandshake(String),
    ConnectionExists(String),
    ConnectionClosed(String),
    ConnectionNotFound(String),
}

pub type CommsResult<T> = Result<T, CommsError>;

/// A `CommsError` with its text as a sequence of characters.
pub enum ErrorView {
    ServerLimitReached(Seq<char>),
    UnexpectedHandshake(Seq<char>),
    ConnectionExists(Seq<char>),
    ConnectionClosed(Seq<char>),
    ConnectionNotFound(Seq<char>),
}

impl View for CommsError {
    type V = ErrorView;

    open spec fn view(&self) -> ErrorView {
        match self {
            CommsError::ServerLimitReached(n) => ErrorView::ServerLimitReached(n@),
            CommsError::UnexpectedHandshake(n) => ErrorView::UnexpectedHandshake(n@),
            CommsError::ConnectionExists(a) => ErrorView::ConnectionExists(a@),
            CommsError::ConnectionClosed(a) => ErrorView::ConnectionClosed(a@),
            CommsError::ConnectionNotFound(a) => ErrorView::ConnectionNotFound(a@),
        }
    }
}

/// The reply of a server or a client, with its error seen through `ErrorView`.
pub type Reply = Result<Response, ErrorView>;

/// The outcome of opening a connection, with its error seen through `ErrorView`.
pub type OpenReply = Result<(), ErrorView>;

/// A result with its error seen through `ErrorView`.
pub open spec fn result_view<T>(r: CommsResult<T>) -> Result<T, ErrorView> {
    match r {
        Ok(v) => Ok(v),
        Err(e) => Err(e@),
    }
}

} // verus!
