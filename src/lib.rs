//! A client that keeps connections to servers by address, and servers that take a
//! handshake, count posts up to a limit and answer count queries.
pub mod client;
pub mod message;
pub mod server;

pub use client::{
    client_open, client_send, closed_addrs, is_open_at, lemma_closed_is_terminal,
    lemma_limit_one_closes, lemma_open_once, lemma_send_unknown, opened, send_reply, sent, Client,
    ClientView, Connection, ConnectionView,
};
pub use message::{
    header_of, result_view, CommsError, CommsResult, ErrorView, Message, MessageType, OpenReply,
    Reply, Response,
};
pub use server::{
    after_posts, bound_to, fresh_server, lemma_count_after_posts, lemma_post_past_limit,
    lemma_single_handshake, post_reply, server_receive, Server, ServerView,
};
