use vstd::prelude::*;

use crate::message::{
    result_view, CommsError, CommsResult, ErrorView, Message, MessageType, OpenReply, Reply, Response,
};
use crate::server::{bound_to, server_receive, Server, ServerView};
use vstd::set_lib::lemma_set_subset_finite;

verus! {

/// The abstract state of one connection.
pub enum ConnectionView {
    Closed,
    Open(ServerView),
}

/// A client's record of one server address: open, holding the server, or closed for good.
pub enum Connection {
    Closed,
    Open(Server),
}

impl View for Connection {
    type V = ConnectionView;

    open spec fn view(&self) -> ConnectionView {
        match self {
            Connection::Closed => ConnectionView::Closed,
            Connection::Open(s) => ConnectionView::Open(s@),
        }
    }
}

/// The abstract state of a client: its identity and its connections by address.
pub struct ClientView {
    pub ip: Seq<char>,
    pub connections: Map<Seq<char>, ConnectionView>,
}

/// Whether `addr` has a connection and it is open.
pub open spec fn is_open_at(c: ClientView, addr: Seq<char>) -> bool {
    c.connections.contains_key(addr) && c.connections[addr] is Open
}

/// The addresses whose connection is closed.
pub open spec fn closed_addrs(c: ClientView) -> Set<Seq<char>> {
    c.connections.dom().filter(|a: Seq<char>| c.connections[a] is Closed)
}

/// Opening a connection to `addr` with server `s`: refused if `addr` is known, open or
/// closed; otherwise the server gets a handshake carrying the client's identity, and on
/// success is kept, open, under `addr`.
pub open spec fn client_open(c: ClientView, addr: Seq<char>, s: ServerView) -> (ClientView, OpenReply) {
    if c.connections.contains_key(addr) {
        (c, Err(ErrorView::ConnectionExists(addr)))
    } else {
        let (next, reply) = server_receive(s, MessageType::Handshake, c.ip);
        match reply {
            Ok(_) => (
                ClientView { connections: c.connections.insert(addr, ConnectionView::Open(next)), ..c },
                Ok(()),
            ),
            Err(e) => (c, Err(e)),
        }
    }
}

/// Sending a message of kind `t` with payload `load` to `addr`: refused if `addr` is unknown
/// or closed; otherwise the server answers it, and a refusal for its limit closes the
/// connection while any other outcome leaves it open.
pub open spec fn client_send(c: ClientView, addr: Seq<char>, t: MessageType, load: Seq<char>) -> (ClientView, Reply) {
    if !c.connections.contains_key(addr) {
        (c, Err(ErrorView::ConnectionNotFound(addr)))
    } else {
        match c.connections[addr] {
            ConnectionView::Closed => (c, Err(ErrorView::ConnectionClosed(addr))),
            ConnectionView::Open(s) => {
                let (next, reply) = server_receive(s, t, load);
                let conn = if reply matches Err(ErrorView::ServerLimitReached(_)) {
                    ConnectionView::Closed
                } else {
                    ConnectionView::Open(next)
                };
                (ClientView { connections: c.connections.insert(addr, conn), ..c }, reply)
            },
        }
    }
}

/// The client after opening `addr` with server `s`.
pub open spec fn opened(c: ClientView, addr: Seq<char>, s: ServerView) -> ClientView {
    client_open(c, addr, s).0
}

/// The client after sending a message of kind `t` with payload `load` to `addr`.
pub open spec fn sent(c: ClientView, addr: Seq<char>, t: MessageType, load: Seq<char>) -> ClientView {
    client_send(c, addr, t, load).0
}

/// The reply to sending a message of kind `t` with payload `load` to `addr`.
pub open spec fn send_reply(c: ClientView, addr: Seq<char>, t: MessageType, load: Seq<char>) -> Reply {
    client_send(c, addr, t, load).1
}

/// Opening an unknown address with a server that has not shaken hands succeeds and leaves
/// the connection open, its server bound to the client's identity; opening the same address again, with any server, is refused with
/// the address and leaves the client as it was.
pub proof fn lemma_open_once(c: ClientView, addr: Seq<char>, s: ServerView, other: ServerView)
    requires
        !c.connections.contains_key(addr),
        s.connected_client is None,
    ensures
        client_open(c, addr, s).1 is Ok,
        is_open_at(opened(c, addr, s), addr),
        opened(c, addr, s).connections[addr] == ConnectionView::Open(bound_to(s, c.ip)),
        opened(opened(c, addr, s), addr, other) == opened(c, addr, s),
        client_open(opened(c, addr, s), addr, other).1 == OpenReply::Err(
            ErrorView::ConnectionExists(addr),
        ),
{
}

/// Through an open connection whose server takes one post and has none yet, a first post
/// is taken, a second is refused with the server's name and closes the connection, and a
/// third is refused because the connection is closed.
pub proof fn lemma_limit_one_closes(
    c: ClientView,
    addr: Seq<char>,
    s: ServerView,
    first: Seq<char>,
    second: Seq<char>,
    third: Seq<char>,
)
    requires
        c.connections.contains_key(addr),
        c.connections[addr] == ConnectionView::Open(s),
        s.limit == 1,
        s.post_count == 0,
    ensures
        send_reply(c, addr, MessageType::Post, first) == Reply::Ok(Response::PostReceived),
        ({
            let c1 = sent(c, addr, MessageType::Post, first);
            let c2 = sent(c1, addr, MessageType::Post, second);
            &&& send_reply(c1, addr, MessageType::Post, second) == Reply::Err(
                ErrorView::ServerLimitReached(s.name),
            )
            &&& !is_open_at(c2, addr)
            &&& sent(c2, addr, MessageType::Post, third) == c2
            &&& send_reply(c2, addr, MessageType::Post, third) == Reply::Err(
                ErrorView::ConnectionClosed(addr),
            )
        }),
{
    let c1 = sent(c, addr, MessageType::Post, first);
    let c2 = sent(c1, addr, MessageType::Post, second);
    assert(c2.connections.insert(addr, ConnectionView::Closed) =~= c2.connections);
}

/// Sending to an address that was never opened is refused with that address and changes
/// nothing.
pub proof fn lemma_send_unknown(c: ClientView, addr: Seq<char>, t: MessageType, load: Seq<char>)
    requires
        !c.connections.contains_key(addr),
    ensures
        sent(c, addr, t, load) == c,
        send_reply(c, addr, t, load) == Reply::Err(ErrorView::ConnectionNotFound(addr)),
{
}

/// A closed connection stays closed: no open and no send reopens it or forgets an address,
/// so the set of closed addresses only grows.
pub proof fn lemma_closed_is_terminal(
    c: ClientView,
    addr: Seq<char>,
    s: ServerView,
    t: MessageType,
    load: Seq<char>,
)
    ensures
        closed_addrs(c).subset_of(closed_addrs(opened(c, addr, s))),
        closed_addrs(c).subset_of(closed_addrs(sent(c, addr, t, load))),
        c.connections.dom().subset_of(opened(c, addr, s).connections.dom()),
        c.connections.dom().subset_of(sent(c, addr, t, load).connections.dom()),
{
}

struct Entry {
    addr: String,
    conn: Connection,
}

/// The map that a list of entries stands for; later entries win.
closed spec fn entries_map(es: Seq<Entry>) -> Map<Seq<char>, ConnectionView>
    decreases es.len(),
{
    if es.len() == 0 {
        Map::empty()
    } else {
        entries_map(es.drop_last()).insert(es.last().addr@, es.last().conn@)
    }
}

closed spec fn addrs_unique(es: Seq<Entry>) -> bool {
    forall|i: int, j: int| 0 <= i < j < es.len() ==> es[i].addr@ != es[j].addr@
}

/// The number of closed entries.
closed spec fn closed_in(es: Seq<Entry>) -> nat
    decreases es.len(),
{
    if es.len() == 0 {
        0
    } else {
        closed_in(es.drop_last()) + if es.last().conn is Closed {
            1nat
        } else {
            0nat
        }
    }
}

proof fn lemma_entries_map(es: Seq<Entry>)
    ensures
        entries_map(es).dom().finite(),
        forall|k: Seq<char>|
            #[trigger] entries_map(es).contains_key(k) <==> exists|i: int|
                0 <= i < es.len() && es[i].addr@ == k,
        addrs_unique(es) ==> forall|i: int|
            0 <= i < es.len() ==> #[trigger] entries_map(es)[es[i].addr@] == es[i].conn@,
    decreases es.len(),
{
    if es.len() > 0 {
        let pre = es.drop_last();
        lemma_entries_map(pre);
        assert forall|k: Seq<char>| #[trigger] entries_map(es).contains_key(k) implies exists|i: int|
            0 <= i < es.len() && es[i].addr@ == k by {
            if k != es.last().addr@ {
                let j = choose|j: int| 0 <= j < pre.len() && pre[j].addr@ == k;
                assert(es[j].addr@ == k);
            } else {
                assert(es[es.len() - 1].addr@ == k);
            }
        }
        assert forall|k: Seq<char>|
            (exists|i: int| 0 <= i < es.len() && es[i].addr@ == k) implies #[trigger] entries_map(
            es,
        ).contains_key(k) by {
            let i = choose|i: int| 0 <= i < es.len() && es[i].addr@ == k;
            if i < pre.len() {
                assert(pre[i].addr@ == k);
            }
        }
        if addrs_unique(es) {
            assert forall|i: int| 0 <= i < es.len() implies #[trigger] entries_map(es)[es[i].addr@]
                == es[i].conn@ by {
                if i < pre.len() {
                    assert(pre[i] == es[i]);
                    assert(es[i].addr@ != es.last().addr@);
                }
            }
        }
    }
}

proof fn lemma_entries_map_update(es: Seq<Entry>, i: int, e: Entry)
    requires
        addrs_unique(es),
        0 <= i < es.len(),
        e.addr@ == es[i].addr@,
    ensures
        addrs_unique(es.update(i, e)),
        entries_map(es.update(i, e)) == entries_map(es).insert(e.addr@, e.conn@),
{
    let es2 = es.update(i, e);
    lemma_entries_map(es);
    lemma_entries_map(es2);
    assert forall|a: int, b: int| 0 <= a < b < es2.len() implies es2[a].addr@ != es2[b].addr@ by {
        assert(es2[a].addr@ == es[a].addr@);
        assert(es2[b].addr@ == es[b].addr@);
    }
    let m = entries_map(es).insert(e.addr@, e.conn@);
    assert forall|k: Seq<char>| #[trigger] entries_map(es2).contains_key(k) <==> m.contains_key(k) by {
        if entries_map(es2).contains_key(k) {
            let j = choose|j: int| 0 <= j < es2.len() && es2[j].addr@ == k;
            assert(es[j].addr@ == k);
        }
        if entries_map(es).contains_key(k) {
            let j = choose|j: int| 0 <= j < es.len() && es[j].addr@ == k;
            assert(es2[j].addr@ == k);
        }
        if k == e.addr@ {
            assert(es2[i].addr@ == k);
        }
    }
    assert forall|k: Seq<char>| #[trigger] entries_map(es2).contains_key(k) implies entries_map(
        es2,
    )[k] == m[k] by {
        let j = choose|j: int| 0 <= j < es2.len() && es2[j].addr@ == k;
        assert(entries_map(es2)[es2[j].addr@] == es2[j].conn@);
        if j != i {
            assert(entries_map(es)[es[j].addr@] == es[j].conn@);
        }
    }
    assert(entries_map(es2) =~= m);
}

proof fn lemma_closed_in(es: Seq<Entry>)
    requires
        addrs_unique(es),
    ensures
        closed_in(es) == closed_addrs(ClientView { ip: Seq::empty(), connections: entries_map(es) }).len(),
    decreases es.len(),
{
    let c = ClientView { ip: Seq::empty(), connections: entries_map(es) };
    lemma_entries_map(es);
    if es.len() == 0 {
        assert(closed_addrs(c) =~= Set::empty());
    } else {
        let pre = es.drop_last();
        let last = es.last();
        let cp = ClientView { ip: Seq::empty(), connections: entries_map(pre) };
        assert(addrs_unique(pre));
        lemma_closed_in(pre);
        lemma_entries_map(pre);
        assert(!entries_map(pre).contains_key(last.addr@)) by {
            if entries_map(pre).contains_key(last.addr@) {
                let j = choose|j: int| 0 <= j < pre.len() && pre[j].addr@ == last.addr@;
                assert(es[j].addr@ == es[es.len() - 1].addr@);
            }
        }
        let closed_pre = closed_addrs(cp);
        assert(closed_pre.finite()) by {
            lemma_set_subset_finite(entries_map(pre).dom(), closed_pre);
        }
        if last.conn is Closed {
            assert(closed_addrs(c) =~= closed_pre.insert(last.addr@));
        } else {
            assert(closed_addrs(c) =~= closed_pre);
        }
    }
}

/// A client holding connections to servers by address.
pub struct Client {
    ip: String,
    entries: Vec<Entry>,
}

impl View for Client {
    type V = ClientView;

    closed spec fn view(&self) -> ClientView {
        ClientView { ip: self.ip@, connections: entries_map(self.entries@) }
    }
}

impl Client {
    #[verifier::type_invariant]
    closed spec fn keys_unique(&self) -> bool {
        addrs_unique(self.entries@)
    }

    pub fn new(ip: String) -> (c: Client)
        ensures
            c@ == (ClientView { ip: ip@, connections: Map::empty() }),
    {
        let c = Client { ip, entries: Vec::new() };
        assert(c@.connections =~= Map::empty());
        c
    }

    /// The index of the entry for `addr`, if there is one.
    fn find(&self, addr: &String) -> (r: Option<usize>)
        ensures
            r matches Some(i) ==> i < self.entries@.len() && self.entries@[i as int].addr@ == addr@,
            r is None ==> forall|i: int|
                0 <= i < self.entries@.len() ==> self.entries@[i].addr@ != addr@,
    {
        let mut i: usize = 0;
        while i < self.entries.len()
            invariant
                i <= self.entries@.len(),
                forall|j: int| 0 <= j < i ==> self.entries@[j].addr@ != addr@,
            decreases self.entries@.len() - i,
        {
            if self.entries[i].addr == *addr {
                return Some(i);
            }
            i = i + 1;
        }
        None
    }

    /// Opens a connection to `addr`, handing `server` a handshake with the client's identity.
    pub fn open(&mut self, addr: &str, server: Server) -> (r: CommsResult<()>)
        ensures
            (final(self)@, result_view(r)) == client_open(old(self)@, addr@, server@),
    {
        proof {
            use_type_invariant(&*self);
            lemma_entries_map(self.entries@);
        }
        let key = String::from_str(addr);
        if self.find(&key).is_some() {
            return Err(CommsError::ConnectionExists(key));
        }
        let mut server = server;
        let hello = Message { msg_type: MessageType::Handshake, load: self.ip.clone() };
        match server.receive(hello) {
            Err(e) => Err(e),
            Ok(_) => {
                let mut entries: Vec<Entry> = Vec::new();
                std::mem::swap(&mut entries, &mut self.entries);
                let ghost before = entries@;
                entries.push(Entry { addr: key, conn: Connection::Open(server) });
                proof {
                    assert(entries@.drop_last() =~= before);
                    assert forall|i: int, j: int| 0 <= i < j < entries@.len() implies entries@[i].addr@
                        != entries@[j].addr@ by {
                        if j < before.len() {
                            assert(entries@[i] == before[i] && entries@[j] == before[j]);
                        } else {
                            assert(entries@[i] == before[i]);
                        }
                    }
                }
                self.entries = entries;
                Ok(())
            },
        }
    }

    /// Sends `msg` through the connection to `addr`; the connection closes when its server
    /// reports that its limit is reached.
    pub fn send(&mut self, addr: &str, msg: Message) -> (r: CommsResult<Response>)
        ensures
            (final(self)@, result_view(r)) == client_send(old(self)@, addr@, msg.msg_type, msg.load@),
    {
        proof {
            use_type_invariant(&*self);
            lemma_entries_map(self.entries@);
        }
        let key = String::from_str(addr);
        let found = self.find(&key);
        if found.is_none() {
            return Err(CommsError::ConnectionNotFound(key));
        }
        let i = found.unwrap();
        let mut entries: Vec<Entry> = Vec::new();
        std::mem::swap(&mut entries, &mut self.entries);
        let ghost before = entries@;
        assert(entries_map(before)[before[i as int].addr@] == before[i as int].conn@);
        let Entry { addr: at, conn } = entries.remove(i);
        let (conn, r) = match conn {
            Connection::Closed => (Connection::Closed, Err(CommsError::ConnectionClosed(key))),
            Connection::Open(server) => {
                let mut server = server;
                let reply = server.receive(msg);
                let closes = match &reply {
                    Err(CommsError::ServerLimitReached(_)) => true,
                    _ => false,
                };
                if closes {
                    (Connection::Closed, reply)
                } else {
                    (Connection::Open(server), reply)
                }
            },
        };
        let entry = Entry { addr: at, conn };
        entries.insert(i, entry);
        proof {
            assert(entries@ =~= before.update(i as int, entry));
            lemma_entries_map_update(before, i as int, entry);
            if before[i as int].conn is Closed {
                assert(entries_map(before).insert(addr@, ConnectionView::Closed) =~= entries_map(
                    before,
                ));
            }
        }
        self.entries = entries;
        r
    }

    /// Whether `addr` has a connection and it is open.
    pub fn is_open(&self, addr: &str) -> (r: bool)
        ensures
            r == is_open_at(self@, addr@),
    {
        proof {
            use_type_invariant(self);
            lemma_entries_map(self.entries@);
        }
        let key = String::from_str(addr);
        match self.find(&key) {
            Some(i) => {
                assert(self@.connections[addr@] == self.entries@[i as int].conn@);
                match &self.entries[i].conn {
                    Connection::Open(_) => true,
                    Connection::Closed => false,
                }
            },
            None => false,
        }
    }

    /// The number of addresses whose connection is closed.
    pub fn count_closed(&self) -> (r: usize)
        ensures
            r == closed_addrs(self@).len(),
    {
        proof {
            use_type_invariant(self);
            lemma_closed_in(self.entries@);
        }
        let mut n: usize = 0;
        let mut i: usize = 0;
        while i < self.entries.len()
            invariant
                i <= self.entries@.len(),
                n == closed_in(self.entries@.take(i as int)),
                n <= i,
            decreases self.entries@.len() - i,
        {
            assert(self.entries@.take(i + 1).drop_last() =~= self.entries@.take(i as int));
            match &self.entries[i].conn {
                Connection::Closed => n = n + 1,
                Connection::Open(_) => {},
            }
            i = i + 1;
        }
        assert(self.entries@.take(i as int) =~= self.entries@);
        n
    }

    /// The connection kept for `addr`, if there is one.
    pub fn connection(&self, addr: &str) -> (r: Option<&Connection>)
        ensures
            r matches Some(c) ==> self@.connections.contains_key(addr@) && self@.connections[addr@]
                == c@,
            r is None ==> !self@.connections.contains_key(addr@),
    {
        proof {
            use_type_invariant(self);
            lemma_entries_map(self.entries@);
        }
        let key = String::from_str(addr);
        match self.find(&key) {
            Some(i) => Some(&self.entries[i].conn),
            None => None,
        }
    }
}

} // verus!
