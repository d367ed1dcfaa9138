use vstd::prelude::*;

use crate::message::{
    result_view, CommsError, CommsResult, ErrorView, Message, MessageType, Reply, Response,
};

verus! {

/// The abstract state of a server.
pub struct ServerView {
    pub name: Seq<char>,
    pub post_count: u32,
    pub limit: u32,
    pub connected_client: Option<Seq<char>>,
}

/// The state of a server right after construction.
pub open spec fn fresh_server(name: Seq<char>, limit: u32) -> ServerView {
    ServerView { name, post_count: 0, limit, connected_client: None }
}

/// How a server answers a message of kind `t` with payload `load`: its next state and its reply.
/// A handshake is taken once in the server's life; a post is taken while the count is
/// under the limit; a count query is always answered.
pub open spec fn server_receive(s: ServerView, t: MessageType, load: Seq<char>) -> (ServerView, Reply) {
    match t {
        MessageType::Handshake => if s.connected_client is None {
            (ServerView { connected_client: Some(load), ..s }, Ok(Response::HandshakeReceived))
        } else {
            (s, Err(ErrorView::UnexpectedHandshake(s.name)))
        },
        MessageType::Post => if s.post_count >= s.limit {
            (s, Err(ErrorView::ServerLimitReached(s.name)))
        } else {
            (ServerView { post_count: (s.post_count + 1) as u32, ..s }, Ok(Response::PostReceived))
        },
        MessageType::GetCount => (s, Ok(Response::GetCount(s.post_count))),
    }
}

/// The state after a run of posts with the given loads, taken in order.
pub open spec fn after_posts(s: ServerView, loads: Seq<Seq<char>>) -> ServerView
    decreases loads.len(),
{
    if loads.len() == 0 {
        s
    } else {
        server_receive(after_posts(s, loads.drop_last()), MessageType::Post, loads.last()).0
    }
}

/// The state after a handshake with payload `load`.
pub open spec fn bound_to(s: ServerView, load: Seq<char>) -> ServerView {
    server_receive(s, MessageType::Handshake, load).0
}

/// The reply to the post at index `i` of a run of posts.
pub open spec fn post_reply(s: ServerView, loads: Seq<Seq<char>>, i: int) -> Reply {
    server_receive(after_posts(s, loads.take(i)), MessageType::Post, loads[i]).1
}

/// A server with no client yet takes its first handshake and binds to its payload. From
/// then on no message changes the bound client, and every further handshake, whatever
/// its payload, is refused with the server's name and changes nothing.
pub proof fn lemma_single_handshake(
    s: ServerView,
    first: Seq<char>,
    t: MessageType,
    load: Seq<char>,
    later: Seq<char>,
)
    requires
        s.connected_client is None,
    ensures
        server_receive(s, MessageType::Handshake, first).1 == Reply::Ok(Response::HandshakeReceived),
        server_receive(s, MessageType::Handshake, first).0 == (ServerView {
            connected_client: Some(first),
            ..s
        }),
        server_receive(bound_to(s, first), t, load).0.connected_client == Some(first),
        server_receive(bound_to(s, first), MessageType::Handshake, later).0 == bound_to(s, first),
        server_receive(bound_to(s, first), MessageType::Handshake, later).1 == Reply::Err(
            ErrorView::UnexpectedHandshake(s.name),
        ),
{
}

/// Starting from no posts, each of up to `limit` posts is taken, and a count query, whatever
/// its load, then answers with their number. Name, limit and bound client stay as they were.
pub proof fn lemma_count_after_posts(s: ServerView, loads: Seq<Seq<char>>, query: Seq<char>)
    requires
        s.post_count == 0,
        loads.len() <= s.limit,
    ensures
        forall|i: int|
            0 <= i < loads.len() ==> #[trigger] post_reply(s, loads, i) == Reply::Ok(
                Response::PostReceived,
            ),
        after_posts(s, loads) == (ServerView { post_count: loads.len() as u32, ..s }),
        server_receive(after_posts(s, loads), MessageType::GetCount, query).1 == Reply::Ok(
            Response::GetCount(loads.len() as u32),
        ),
    decreases loads.len(),
{
    if loads.len() > 0 {
        let prefix = loads.drop_last();
        lemma_count_after_posts(s, prefix, query);
        assert forall|i: int| 0 <= i < loads.len() implies #[trigger] post_reply(s, loads, i)
            == Reply::Ok(Response::PostReceived) by {
            if i < prefix.len() {
                assert(loads.take(i) =~= prefix.take(i));
                assert(post_reply(s, prefix, i) == Reply::Ok(Response::PostReceived));
            } else {
                assert(loads.take(i) =~= prefix);
            }
        }
    }
}

/// Once `limit` posts have been taken, the next post is refused with the server's name and
/// the count stays at the limit.
pub proof fn lemma_post_past_limit(s: ServerView, loads: Seq<Seq<char>>, extra: Seq<char>)
    requires
        s.post_count == 0,
        loads.len() == s.limit,
    ensures
        after_posts(s, loads).post_count == s.limit,
        server_receive(after_posts(s, loads), MessageType::Post, extra).0 == after_posts(s, loads),
        server_receive(after_posts(s, loads), MessageType::Post, extra).1 == Reply::Err(
            ErrorView::ServerLimitReached(s.name),
        ),
{
    lemma_count_after_posts(s, loads, Seq::empty());
}

/// A server that counts the posts it accepts, up to its limit, and is bound to at most one client.
pub struct Server {
    name: String,
    post_count: u32,
    limit: u32,
    connected_client: Option<String>,
}

impl View for Server {
    type V = ServerView;

    closed spec fn view(&self) -> ServerView {
        ServerView {
            name: self.name@,
            post_count: self.post_count,
            limit: self.limit,
            connected_client: match self.connected_client {
                Some(c) => Some(c@),
                None => None,
            },
        }
    }
}

impl Server {
    #[verifier::type_invariant]
    closed spec fn within_limit(&self) -> bool {
        self.post_count <= self.limit
    }

    pub fn new(name: String, limit: u32) -> (s: Server)
        ensures
            s@ == fresh_server(name@, limit),
    {
        Server { name, post_count: 0, limit, connected_client: None }
    }

    pub fn name(&self) -> (r: &String)
        ensures
            r@ == self@.name,
    {
        &self.name
    }

    /// The number of posts taken so far, which never exceeds the limit.
    pub fn post_count(&self) -> (r: u32)
        ensures
            r == self@.post_count,
            r <= self@.limit,
    {
        proof {
            use_type_invariant(self);
        }
        self.post_count
    }

    pub fn limit(&self) -> (r: u32)
        ensures
            r == self@.limit,
    {
        self.limit
    }

    pub fn connected_client(&self) -> (r: Option<String>)
        ensures
            r matches Some(c) ==> self@.connected_client == Some(c@),
            r is None ==> self@.connected_client is None,
    {
        match &self.connected_client {
            Some(c) => Some(c.clone()),
            None => None,
        }
    }

    /// The diagnostic line for `msg`: the server's name, " received:", a line break, then
    /// the message's content.
    pub fn diagnostic(&self, msg: &Message) -> (r: String)
        ensures
            r@ == self@.name + " received:\n"@ + msg.content_spec(),
    {
        let line = self.name.clone().concat(" received:\n");
        let content = msg.content();
        line.concat(content.as_str())
    }

    /// Takes one message and answers it, as `server_receive` describes.
    pub fn receive(&mut self, msg: Message) -> (r: CommsResult<Response>)
        ensures
            (final(self)@, result_view(r)) == server_receive(old(self)@, msg.msg_type, msg.load@),
    {
        proof {
            use_type_invariant(&*self);
        }
        match msg.msg_type {
            MessageType::Handshake => {
                if self.connected_client.is_some() {
                    Err(CommsError::UnexpectedHandshake(self.name.clone()))
                } else {
                    self.connected_client = Some(msg.load);
                    Ok(Response::HandshakeReceived)
                }
            },
            MessageType::Post => {
                if self.post_count >= self.limit {
                    Err(CommsError::ServerLimitReached(self.name.clone()))
                } else {
                    self.post_count = self.post_count + 1;
                    Ok(Response::PostReceived)
                }
            },
            MessageType::GetCount => Ok(Response::GetCount(self.post_count)),
        }
    }
}

} // verus!
