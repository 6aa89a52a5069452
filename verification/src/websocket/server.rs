//! The server side of the lobby: the clients that are connected, and to whom
//! each message goes.

use vstd::prelude::*;
use std::collections::HashMap;
use crate::websocket::client::{signals_for, ClientInfo, ClientSignal};
use crate::websocket::message::ServerMessage;
use crate::websocket::WebSocketState;
use vstd::std_specs::hash::spec_keys_iter;
use vstd::std_specs::iter::IteratorSpec;

verus! {

broadcast use {vstd::std_specs::hash::group_hash_axioms, vstd::seq_lib::group_seq_properties};

/// The connected clients, each under its id, with the socket it is reached by.
pub struct ConnectedClients<S> {
    clients: HashMap<i64, (S, ClientInfo)>,
}

impl<S> View for ConnectedClients<S> {
    type V = Map<i64, (S, ClientInfo)>;

    closed spec fn view(&self) -> Map<i64, (S, ClientInfo)> {
        self.clients@
    }
}

/// The clients of `m` that are still alive.
pub open spec fn alive_only<S>(m: Map<i64, (S, ClientInfo)>) -> Map<i64, (S, ClientInfo)> {
    m.restrict(m.dom().filter(|k: i64| m[k].1.is_alive))
}

/// `info` marked as no longer alive.
pub open spec fn marked_dead(info: ClientInfo) -> ClientInfo {
    ClientInfo { id: info.id, name: info.name, is_alive: false, is_host: info.is_host }
}

/// The entries of `list` have strictly increasing ids.
pub open spec fn sorted_by_id(list: Seq<ClientInfo>) -> bool {
    forall|i: int, j: int| 0 <= i < j < list.len() ==> #[trigger] list[i].id < #[trigger] list[j].id
}

/// Some entry of `list` has the id `k`.
pub open spec fn has_id(list: Seq<ClientInfo>, k: i64) -> bool {
    exists|j: int| 0 <= j < list.len() && #[trigger] list[j].id == k
}

/// Every entry of `list` is the entry of a connected client of `m` other than `id`.
pub open spec fn entries_of_others<S>(m: Map<i64, (S, ClientInfo)>, id: i64, list: Seq<ClientInfo>) -> bool {
    forall|j: int|
        0 <= j < list.len() ==> {
            &&& #[trigger] list[j].id != id
            &&& m.contains_key(list[j].id)
            &&& list[j] == m[list[j].id].1
        }
}

/// The client list that the client `id` is sent on joining: the entry of
/// every other connected client, in increasing order of id.
pub open spec fn is_client_list_for<S>(
    m: Map<i64, (S, ClientInfo)>,
    id: i64,
    list: Seq<ClientInfo>,
) -> bool {
    &&& sorted_by_id(list)
    &&& entries_of_others(m, id, list)
    &&& forall|k: i64| #[trigger] m.contains_key(k) && k != id ==> has_id(list, k)
}

/// Inserting `x` adds exactly its id to the ids present.
proof fn lemma_has_id_after_insert(before: Seq<ClientInfo>, p: int, x: ClientInfo, k: i64)
    requires
        0 <= p <= before.len(),
    ensures
        has_id(before.insert(p, x), k) <==> (has_id(before, k) || k == x.id),
{
    let after = before.insert(p, x);
    if has_id(after, k) {
        let j = choose|j: int| 0 <= j < after.len() && #[trigger] after[j].id == k;
        if j < p {
            assert(before[j].id == k);
        } else if j > p {
            assert(before[j - 1].id == k);
        }
    }
    if has_id(before, k) {
        let j = choose|j: int| 0 <= j < before.len() && #[trigger] before[j].id == k;
        if j < p {
            assert(after[j].id == k);
        } else {
            assert(after[j + 1].id == k);
        }
    }
    if k == x.id {
        assert(after[p].id == k);
    }
}

/// Inserting the entry of another connected client keeps `entries_of_others`.
proof fn lemma_entries_after_insert<S>(
    m: Map<i64, (S, ClientInfo)>,
    id: i64,
    before: Seq<ClientInfo>,
    p: int,
    x: ClientInfo,
)
    requires
        0 <= p <= before.len(),
        entries_of_others(m, id, before),
        x.id != id,
        m.contains_key(x.id),
        x == m[x.id].1,
    ensures
        entries_of_others(m, id, before.insert(p, x)),
{
    let after = before.insert(p, x);
    assert forall|j: int| 0 <= j < after.len() implies {
        &&& #[trigger] after[j].id != id
        &&& m.contains_key(after[j].id)
        &&& after[j] == m[after[j].id].1
    } by {
        if j < p {
            assert(after[j] == before[j]);
        } else if j > p {
            assert(after[j] == before[j - 1]);
        }
    }
}

/// Who a message is meant for.
pub enum MessageRecipient<'a> {
    /// Every connected client.
    All,
    /// The listed clients, in the order listed, as far as they are connected.
    Include(&'a [i64]),
    /// Every connected client that is not listed.
    Exclude(&'a [i64]),
}

/// A message and the clients it is to be sent to, in the order of sending;
/// a client listed twice is sent the message twice.
pub struct Delivery {
    pub recipients: Vec<i64>,
    pub message: ServerMessage,
}

/// The listed ids that are in `present`, in the order listed, repeats kept.
pub open spec fn present_ids(ids: Seq<i64>, present: Set<i64>) -> Seq<i64>
    decreases ids.len(),
{
    if ids.len() == 0 {
        Seq::empty()
    } else if present.contains(ids.last()) {
        present_ids(ids.drop_last(), present).push(ids.last())
    } else {
        present_ids(ids.drop_last(), present)
    }
}

/// Whether `recipients` are the clients of `dom` that `recipient` names:
/// for `Include`, exactly the listed ids that are connected, in order and with
/// repeats; otherwise each named client exactly once, in no particular order.
pub open spec fn addresses(dom: Set<i64>, recipient: MessageRecipient, recipients: Seq<i64>) -> bool {
    match recipient {
        MessageRecipient::All => recipients.no_duplicates() && recipients.to_set() == dom,
        MessageRecipient::Include(ids) => recipients == present_ids(ids@, dom),
        MessageRecipient::Exclude(ids) => recipients.no_duplicates() && recipients.to_set()
            == dom.filter(|k: i64| !ids@.contains(k)),
    }
}

/// Whether `id` is listed in `ids`.
pub fn is_listed(ids: &[i64], id: i64) -> (b: bool)
    ensures
        b == ids@.contains(id),
{
    let n = ids.len();
    for i in 0..n
        invariant
            n == ids@.len(),
            forall|j: int| 0 <= j < i ==> ids@[j] != id,
    {
        if ids[i] == id {
            return true;
        }
    }
    false
}

/// Appending an element that is not there yet keeps a sequence free of repeats.
proof fn lemma_push_keeps_distinct(s: Seq<i64>, x: i64)
    requires
        s.no_duplicates(),
        !s.contains(x),
    ensures
        s.push(x).no_duplicates(),
{
    let t = s.push(x);
    assert forall|a: int, b: int| 0 <= a < t.len() && 0 <= b < t.len() && a != b implies t[a] != t[b] by {
        if a < s.len() && b < s.len() {
            assert(t[a] == s[a] && t[b] == s[b]);
        } else if a < s.len() {
            assert(t[a] == s[a]);
        } else if b < s.len() {
            assert(t[b] == s[b]);
        }
    }
}

/// Inserts `info` into `list`, keeping the ids strictly increasing.
fn insert_by_id(list: &mut Vec<ClientInfo>, info: ClientInfo)
    requires
        sorted_by_id(old(list)@),
        forall|i: int| 0 <= i < old(list)@.len() ==> #[trigger] old(list)@[i].id != info.id,
    ensures
        sorted_by_id(final(list)@),
        exists|p: int| 0 <= p <= old(list)@.len() && final(list)@ == old(list)@.insert(p, info),
{
    let n = list.len();
    let mut p: usize = 0;
    while p < n && list[p].id < info.id
        invariant
            n == list@.len(),
            p <= n,
            forall|i: int| 0 <= i < p ==> #[trigger] list@[i].id < info.id,
        decreases n - p,
    {
        p = p + 1;
    }
    let ghost before = list@;
    list.insert(p, info);
    assert forall|i: int, j: int| 0 <= i < j < list@.len() implies #[trigger] list@[i].id < #[trigger] list@[j].id by {
        if j < p {
            assert(list@[i] == before[i] && list@[j] == before[j]);
        } else if j == p {
            assert(list@[i] == before[i]);
        } else if i < p {
            assert(list@[i] == before[i] && list@[j] == before[j - 1]);
            assert(before[p as int].id > info.id);
            if p < j - 1 {
                assert(before[p as int].id < before[j - 1].id);
            }
        } else if i == p {
            assert(list@[j] == before[j - 1]);
            assert(before[p as int].id > info.id);
            if p < j - 1 {
                assert(before[p as int].id < before[j - 1].id);
            }
        } else {
            assert(list@[i] == before[i - 1] && list@[j] == before[j - 1]);
        }
    }
}

/// Every client is filed under its own id.
pub open spec fn filed_by_id<S>(m: Map<i64, (S, ClientInfo)>) -> bool {
    forall|k: i64| #[trigger] m.contains_key(k) ==> m[k].1.id == k
}

impl<S> ConnectedClients<S> {
    #[verifier::type_invariant]
    closed spec fn well_formed(self) -> bool {
        filed_by_id(self.clients@)
    }

    /// No client is connected.
    pub fn new() -> (c: Self)
        ensures
            c@ == Map::<i64, (S, ClientInfo)>::empty(),
    {
        ConnectedClients { clients: HashMap::new() }
    }

    /// Only finitely many clients are ever connected.
    pub proof fn lemma_finite(&self)
        ensures
            self@.dom().finite(),
    {
    }

    /// Whether no client is connected.
    pub fn is_empty(&self) -> (b: bool)
        ensures
            b <==> self@.dom().len() == 0,
    {
        let b = self.clients.is_empty();
        proof {
            if self@.dom().len() == 0 {
                self@.dom().lemma_len0_is_empty();
            }
        }
        b
    }

    /// Files `info` and its socket under `info.id`, replacing any client
    /// filed there before.
    pub fn insert_client(&mut self, socket: S, info: ClientInfo)
        ensures
            final(self)@ == old(self)@.insert(info.id, (socket, info)),
    {
        proof {
            use_type_invariant(&*self);
        }
        let id = info.id;
        let mut clients = HashMap::new();
        std::mem::swap(&mut clients, &mut self.clients);
        clients.insert(id, (socket, info));
        self.clients = clients;
    }

    /// The ids of all connected clients, each once, in no particular order.
    pub fn ids(&self) -> (ids: Vec<i64>)
        ensures
            ids@.no_duplicates(),
            ids@.to_set() == self@.dom(),
            ids@.len() == self@.dom().len(),
    {
        let mut ids: Vec<i64> = Vec::new();
        let ghost keys = spec_keys_iter(&self.clients).remaining();
        for k in it: self.clients.keys()
            invariant
                it.seq() == keys,
                ids@ == keys.take(it.index()).unref(),
        {
            ids.push(*k);
            assert(keys.take(it.index() + 1).unref() =~= keys.take(it.index()).unref().push(*k));
        }
        assert(ids@ =~= keys.unref());
        proof {
            ids@.unique_seq_to_set();
        }
        ids
    }

    /// How many clients are connected.
    pub fn len(&self) -> (n: usize)
        ensures
            n == self@.dom().len(),
    {
        self.clients.len()
    }

    /// The socket of the client `id`, if it is connected.
    pub fn socket(&self, id: i64) -> (s: Option<&S>)
        ensures
            match s {
                Some(s) => self@.contains_key(id) && *s == self@[id].0,
                None => !self@.contains_key(id),
            },
    {
        match self.clients.get(&id) {
            Some(entry) => Some(&entry.0),
            None => None,
        }
    }

    /// What is known of the client `id`, if it is connected.
    pub fn info(&self, id: i64) -> (info: Option<&ClientInfo>)
        ensures
            match info {
                Some(i) => self@.contains_key(id) && *i == self@[id].1,
                None => !self@.contains_key(id),
            },
    {
        match self.clients.get(&id) {
            Some(entry) => Some(&entry.1),
            None => None,
        }
    }

    /// Marks the client `id`, if it is connected, as no longer alive.
    pub fn mark_disconnected(&mut self, id: i64)
        ensures
            old(self)@.contains_key(id) ==> final(self)@ == old(self)@.insert(
                id,
                (old(self)@[id].0, marked_dead(old(self)@[id].1)),
            ),
            !old(self)@.contains_key(id) ==> final(self)@ == old(self)@,
    {
        proof {
            use_type_invariant(&*self);
        }
        let mut clients = HashMap::new();
        std::mem::swap(&mut clients, &mut self.clients);
        match clients.remove(&id) {
            Some((socket, info)) => {
                let mut info = info;
                info.is_alive = false;
                clients.insert(id, (socket, info));
                assert(clients@ =~= old(self)@.insert(
                    id,
                    (old(self)@[id].0, marked_dead(old(self)@[id].1)),
                ));
            },
            None => {
                assert(clients@ =~= old(self)@);
            },
        }
        self.clients = clients;
    }

    /// Drops every client that is no longer alive.
    pub fn keep_alive(&mut self)
        ensures
            final(self)@ == alive_only(old(self)@),
            forall|k: i64|
                #[trigger] final(self)@.contains_key(k) <==> (old(self)@.contains_key(k)
                    && old(self)@[k].1.is_alive),
            forall|k: i64| #[trigger] final(self)@.contains_key(k) ==> final(self)@[k] == old(self)@[k],
    {
        proof {
            use_type_invariant(&*self);
        }
        let ids = self.ids();
        let ghost old_map = self@;
        let mut clients = HashMap::new();
        std::mem::swap(&mut clients, &mut self.clients);
        let n = ids.len();
        for i in 0..n
            invariant
                n == ids@.len(),
                ids@.no_duplicates(),
                ids@.to_set() == old_map.dom(),
                filed_by_id(old_map),
                forall|k: i64|
                    #[trigger] clients@.contains_key(k) <==> (old_map.contains_key(k) && !(
                    ids@.take(i as int).contains(k) && !old_map[k].1.is_alive)),
                forall|k: i64| #[trigger] clients@.contains_key(k) ==> clients@[k] == old_map[k],
        {
            let id = ids[i];
            assert(ids@.to_set().contains(id));
            assert(!ids@.take(i as int).contains(id)) by {
                if ids@.take(i as int).contains(id) {
                    let j = choose|j: int| 0 <= j < i && #[trigger] ids@.take(i as int)[j] == id;
                    assert(ids@[j] == ids@[i as int]);
                }
            }
            let dead = match clients.get(&id) {
                Some(entry) => !entry.1.is_alive,
                None => false,
            };
            if dead {
                clients.remove(&id);
            }
            assert(ids@.take(i + 1) =~= ids@.take(i as int).push(id));
        }
        assert(ids@.take(n as int) =~= ids@);
        assert forall|k: i64| ids@.contains(k) <==> old_map.contains_key(k) by {
            assert(ids@.to_set().contains(k) <==> ids@.contains(k));
        }
        assert(clients@ =~= alive_only(old_map));
        self.clients = clients;
    }

    /// The entries of all connected clients but `id`, in increasing order of id:
    /// the client list that `id` is sent when it joins.
    pub fn client_list_excluding(&self, id: i64) -> (list: Vec<ClientInfo>)
        ensures
            is_client_list_for(self@, id, list@),
    {
        proof {
            use_type_invariant(self);
        }
        let ids = self.ids();
        let n = ids.len();
        let mut list: Vec<ClientInfo> = Vec::new();
        let mut i: usize = 0;
        while i < n
            invariant
                n == ids@.len(),
                i <= n,
                ids@.no_duplicates(),
                ids@.to_set() == self@.dom(),
                filed_by_id(self@),
                sorted_by_id(list@),
                entries_of_others(self@, id, list@),
                forall|k: i64| #[trigger] has_id(list@, k) <==> (ids@.take(i as int).contains(k) && k != id),
            decreases n - i,
        {
            let k = ids[i];
            assert(ids@.to_set().contains(k));
            assert(ids@.take(i + 1) =~= ids@.take(i as int).push(k));
            assert(!ids@.take(i as int).contains(k)) by {
                if ids@.take(i as int).contains(k) {
                    let j = choose|j: int| 0 <= j < i && #[trigger] ids@.take(i as int)[j] == k;
                    assert(ids@[j] == ids@[i as int]);
                }
            }
            if k != id {
                match self.clients.get(&k) {
                    Some(entry) => {
                        assert forall|j: int| 0 <= j < list@.len() implies #[trigger] list@[j].id != k by {
                            assert(has_id(list@, list@[j].id));
                        }
                        let ghost before = list@;
                        let info = entry.1.clone();
                        insert_by_id(&mut list, info);
                        proof {
                            let p = choose|p: int| 0 <= p <= before.len() && list@ == before.insert(p, info);
                            lemma_entries_after_insert(self@, id, before, p, info);
                            assert forall|q: i64| #[trigger] has_id(list@, q) <==> (ids@.take(i + 1).contains(q) && q != id) by {
                                lemma_has_id_after_insert(before, p, info, q);
                            }
                        }
                    },
                    None => {},
                }
            }
            i = i + 1;
        }
        assert(ids@.take(n as int) =~= ids@);
        assert forall|k: i64| #[trigger] self@.contains_key(k) && k != id implies has_id(list@, k) by {
            assert(ids@.to_set().contains(k));
        }
        list
    }

    /// The clients that a message for `recipient` goes to, in the order of
    /// sending, together with the message.
    pub fn send_message(&self, recipient: MessageRecipient, message: ServerMessage) -> (d: Delivery)
        ensures
            addresses(self@.dom(), recipient, d.recipients@),
            d.message == message,
    {
        match recipient {
            MessageRecipient::All => {
                let recipients = self.ids();
                Delivery { recipients, message }
            },
            MessageRecipient::Include(ids) => {
                let mut recipients: Vec<i64> = Vec::new();
                let n = ids.len();
                for i in 0..n
                    invariant
                        n == ids@.len(),
                        recipients@ == present_ids(ids@.take(i as int), self@.dom()),
                {
                    let id = ids[i];
                    assert(ids@.take(i + 1).drop_last() =~= ids@.take(i as int));
                    if self.clients.contains_key(&id) {
                        recipients.push(id);
                    }
                }
                assert(ids@.take(n as int) =~= ids@);
                Delivery { recipients, message }
            },
            MessageRecipient::Exclude(ids) => {
                let keys = self.ids();
                let max = self.clients.len();
                let n = keys.len();
                let mut found: usize = 0;
                let mut recipients: Vec<i64> = Vec::new();
                let mut i: usize = 0;
                while i < n
                    invariant
                        n == keys@.len(),
                        n == max,
                        keys@.no_duplicates(),
                        i <= n,
                        found == recipients@.len(),
                        found <= i,
                        recipients@.no_duplicates(),
                        forall|k: i64|
                            #[trigger] recipients@.contains(k) <==> (keys@.take(i as int).contains(k)
                                && !ids@.contains(k)),
                    ensures
                        i == n,
                        recipients@.no_duplicates(),
                        forall|k: i64|
                            #[trigger] recipients@.contains(k) <==> (keys@.take(i as int).contains(k)
                                && !ids@.contains(k)),
                    decreases n - i,
                {
                    if found >= max {
                        break;
                    }
                    let id = keys[i];
                    assert(keys@.take(i + 1) =~= keys@.take(i as int).push(id));
                    assert(!keys@.take(i as int).contains(id)) by {
                        if keys@.take(i as int).contains(id) {
                            let j = choose|j: int| 0 <= j < i && #[trigger] keys@.take(i as int)[j] == id;
                            assert(keys@[j] == keys@[i as int]);
                        }
                    }
                    if !is_listed(ids, id) {
                        proof {
                            lemma_push_keeps_distinct(recipients@, id);
                        }
                        recipients.push(id);
                        found = found + 1;
                    }
                    i = i + 1;
                }
                assert(keys@.take(n as int) =~= keys@);
                assert(recipients@.to_set() =~= self@.dom().filter(|k: i64| !ids@.contains(k))) by {
                    assert forall|k: i64| recipients@.to_set().contains(k) <==> keys@.contains(k) && !ids@.contains(k) by {
                        assert(keys@.to_set().contains(k) <==> keys@.contains(k));
                        assert(recipients@.to_set().contains(k) <==> recipients@.contains(k));
                    }
                }
                Delivery { recipients, message }
            },
        }
    }

}



/// Why a pending connection was given up.
#[derive(Clone, Copy, Debug, PartialEq, Eq, Structural)]
pub enum ConnectionError {
    /// The handshake took longer than the timeout.
    Timeout,
    /// The websocket closed during the handshake.
    WebsocketClosed,
    /// The TCP stream is no longer connected.
    TcpStreamClosed,
}

impl ConnectionError {
    /// The text the error is shown with.
    pub open spec fn text(self) -> Seq<char> {
        match self {
            ConnectionError::Timeout => "Timeout"@,
            ConnectionError::WebsocketClosed => "Websocket closed"@,
            ConnectionError::TcpStreamClosed => "Tcp stream closed"@,
        }
    }

    /// The text the error is shown with.
    pub fn description(&self) -> (s: &'static str)
        ensures
            s@ == self.text(),
    {
        match self {
            ConnectionError::Timeout => "Timeout",
            ConnectionError::WebsocketClosed => "Websocket closed",
            ConnectionError::TcpStreamClosed => "Tcp stream closed",
        }
    }
}

/// The status of a TCP stream, as the engine reports it.
#[derive(Clone, Copy, Debug, PartialEq, Eq, Structural)]
pub enum TcpStatus {
    /// Not connected at all.
    Unconnected,
    Connecting,
    Connected,
    Error,
}

/// Where a pending connection stands after a poll.
#[derive(Debug)]
pub enum ConnectionState<S> {
    /// The handshake is complete; the socket is ready for messages.
    Connected(S),
    /// The handshake is still going on.
    Pending,
    /// The connection was given up.
    Disconnected(ConnectionError),
}

/// How long, in whole seconds, a handshake may take.
pub const HANDSHAKE_TIMEOUT_SECS: u64 = 5;

/// Whether a handshake that has been going on for `secs` seconds and `nanos`
/// nanoseconds has taken longer than the timeout.
pub open spec fn timed_out(secs: u64, nanos: u32) -> bool {
    secs * 1_000_000_000 + nanos > HANDSHAKE_TIMEOUT_SECS * 1_000_000_000
}

/// Where a pending connection stands: past the timeout it is given up, then
/// if its TCP stream is no longer connected, and otherwise it follows the
/// state of its websocket.
pub open spec fn connection_state_spec<S>(
    secs: u64,
    nanos: u32,
    tcp: TcpStatus,
    ws: WebSocketState,
    socket: S,
) -> ConnectionState<S> {
    if timed_out(secs, nanos) {
        ConnectionState::Disconnected(ConnectionError::Timeout)
    } else if tcp != TcpStatus::Connected {
        ConnectionState::Disconnected(ConnectionError::TcpStreamClosed)
    } else {
        match ws {
            WebSocketState::Open => ConnectionState::Connected(socket),
            WebSocketState::Connecting => ConnectionState::Pending,
            _ => ConnectionState::Disconnected(ConnectionError::WebsocketClosed),
        }
    }
}

/// Where a pending connection stands after a poll, given how long its
/// handshake has been going on (`elapsed_secs` whole seconds and
/// `elapsed_subsec_nanos` nanoseconds), the status of its TCP stream, the
/// state of its websocket, and the websocket itself.
pub fn poll_connection<S>(
    elapsed_secs: u64,
    elapsed_subsec_nanos: u32,
    tcp: TcpStatus,
    ws: WebSocketState,
    socket: S,
) -> (state: ConnectionState<S>)
    requires
        elapsed_subsec_nanos < 1_000_000_000,
    ensures
        state == connection_state_spec(elapsed_secs, elapsed_subsec_nanos, tcp, ws, socket),
        elapsed_secs > 5 || (elapsed_secs == 5 && elapsed_subsec_nanos > 0) ==> state
            == ConnectionState::<S>::Disconnected(ConnectionError::Timeout),
        (elapsed_secs < 5 || (elapsed_secs == 5 && elapsed_subsec_nanos == 0)) && tcp
            != TcpStatus::Connected ==> state == ConnectionState::<S>::Disconnected(
            ConnectionError::TcpStreamClosed,
        ),
        (elapsed_secs < 5 || (elapsed_secs == 5 && elapsed_subsec_nanos == 0)) && tcp
            == TcpStatus::Connected ==> match ws {
            WebSocketState::Open => state == ConnectionState::Connected(socket),
            WebSocketState::Connecting => state == ConnectionState::<S>::Pending,
            _ => state == ConnectionState::<S>::Disconnected(ConnectionError::WebsocketClosed),
        },
{
    let over = elapsed_secs > HANDSHAKE_TIMEOUT_SECS || (elapsed_secs == HANDSHAKE_TIMEOUT_SECS
        && elapsed_subsec_nanos > 0);
    assert(over == timed_out(elapsed_secs, elapsed_subsec_nanos)) by (nonlinear_arith)
        requires
            over == (elapsed_secs > 5 || (elapsed_secs == 5 && elapsed_subsec_nanos > 0)),
            elapsed_subsec_nanos < 1_000_000_000,
    ;
    if over {
        return ConnectionState::Disconnected(ConnectionError::Timeout);
    }
    if !matches!(tcp, TcpStatus::Connected) {
        return ConnectionState::Disconnected(ConnectionError::TcpStreamClosed);
    }
    match ws {
        WebSocketState::Open => ConnectionState::Connected(socket),
        WebSocketState::Connecting => ConnectionState::Pending,
        WebSocketState::Closing | WebSocketState::Closed => ConnectionState::Disconnected(
            ConnectionError::WebsocketClosed,
        ),
    }
}

/// A connection whose handshake is still going on, under the id it was given.
pub struct PendingConnection<L> {
    pub id: i64,
    pub link: L,
}

/// The id that follows `counter`, wrapping around past the largest.
pub open spec fn next_id(counter: i64) -> i64 {
    if counter == i64::MAX {
        i64::MIN
    } else {
        (counter + 1) as i64
    }
}

/// The entries of `pending` that are not completed yet, in order.
pub open spec fn unfinished<L>(pending: Seq<(PendingConnection<L>, bool)>) -> Seq<
    (PendingConnection<L>, bool),
>
    decreases pending.len(),
{
    if pending.len() == 0 {
        Seq::empty()
    } else if pending.last().1 {
        unfinished(pending.drop_last())
    } else {
        unfinished(pending.drop_last()).push(pending.last())
    }
}

/// Every id of a pending connection and of a connected client is at most `counter`.
pub open spec fn ids_within<L, S>(
    pending: Seq<(PendingConnection<L>, bool)>,
    clients: Map<i64, (S, ClientInfo)>,
    counter: i64,
) -> bool {
    &&& forall|i: int| 0 <= i < pending.len() ==> #[trigger] pending[i].0.id <= counter
    &&& forall|k: i64| #[trigger] clients.contains_key(k) ==> k <= counter
}

/// The id given out `n` connections after `counter`.
pub open spec fn id_after(counter: i64, n: nat) -> i64
    decreases n,
{
    if n == 0 {
        counter
    } else {
        next_id(id_after(counter, (n - 1) as nat))
    }
}

/// No two entries of `pending` share an id.
pub open spec fn distinct_ids<L>(pending: Seq<(PendingConnection<L>, bool)>) -> bool {
    forall|i: int, j: int|
        0 <= i < pending.len() && 0 <= j < pending.len() && i != j ==> #[trigger] pending[i].0.id
            != #[trigger] pending[j].0.id
}

/// Keeping only the unfinished entries keeps only entries whose handshake
/// has not completed, each of them an entry of `pending`; and entries with
/// distinct ids stay distinct.
pub proof fn lemma_unfinished_entries<L>(pending: Seq<(PendingConnection<L>, bool)>)
    ensures
        forall|i: int| 0 <= i < unfinished(pending).len() ==> !(#[trigger] unfinished(pending)[i]).1,
        forall|i: int|
            0 <= i < unfinished(pending).len() ==> exists|j: int|
                0 <= j < pending.len() && #[trigger] unfinished(pending)[i] == pending[j],
        distinct_ids(pending) ==> distinct_ids(unfinished(pending)),
    decreases pending.len(),
{
    if pending.len() > 0 {
        let rest = pending.drop_last();
        let last = pending.last();
        lemma_unfinished_entries(rest);
        let u = unfinished(pending);
        let r = unfinished(rest);
        assert(last == pending[pending.len() - 1]);
        assert forall|i: int| 0 <= i < u.len() implies exists|j: int|
            0 <= j < pending.len() && #[trigger] u[i] == pending[j] by {
            if !last.1 {
                assert(u == r.push(last));
                if i < r.len() {
                    assert(u[i] == r[i]);
                    let j = choose|j: int| 0 <= j < rest.len() && #[trigger] r[i] == rest[j];
                    assert(rest[j] == pending[j]);
                } else {
                    assert(u[i] == pending[pending.len() - 1]);
                }
            } else {
                assert(u == r);
                let j = choose|j: int| 0 <= j < rest.len() && #[trigger] r[i] == rest[j];
                assert(rest[j] == pending[j]);
            }
        }
        assert forall|i: int| 0 <= i < u.len() implies !(#[trigger] u[i]).1 by {
            if !last.1 {
                assert(u == r.push(last));
                if i < r.len() {
                    assert(u[i] == r[i]);
                }
            } else {
                assert(u == r);
            }
        }
        if distinct_ids(pending) {
            assert(distinct_ids(rest)) by {
                assert forall|a: int, b: int|
                    0 <= a < rest.len() && 0 <= b < rest.len() && a != b implies #[trigger] rest[a].0.id
                    != #[trigger] rest[b].0.id by {
                    assert(rest[a] == pending[a] && rest[b] == pending[b]);
                }
            }
            if !last.1 {
                assert(u == r.push(last));
                assert forall|a: int, b: int|
                    0 <= a < u.len() && 0 <= b < u.len() && a != b implies #[trigger] u[a].0.id
                    != #[trigger] u[b].0.id by {
                    if a < r.len() && b < r.len() {
                        assert(u[a] == r[a] && u[b] == r[b]);
                    } else if a < r.len() {
                        assert(u[a] == r[a]);
                        let j = choose|j: int| 0 <= j < rest.len() && #[trigger] r[a] == rest[j];
                        assert(rest[j] == pending[j]);
                        assert(pending[j].0.id != pending[pending.len() - 1].0.id);
                    } else {
                        assert(u[b] == r[b]);
                        let j = choose|j: int| 0 <= j < rest.len() && #[trigger] r[b] == rest[j];
                        assert(rest[j] == pending[j]);
                        assert(pending[j].0.id != pending[pending.len() - 1].0.id);
                    }
                }
            } else {
                assert(u == r);
            }
        }
    }
}

/// Keeping only the unfinished entries keeps every id at most `counter`.
proof fn lemma_unfinished_ids_within<L>(pending: Seq<(PendingConnection<L>, bool)>, counter: i64)
    requires
        forall|i: int| 0 <= i < pending.len() ==> #[trigger] pending[i].0.id <= counter,
    ensures
        forall|i: int|
            0 <= i < unfinished(pending).len() ==> #[trigger] unfinished(pending)[i].0.id <= counter,
    decreases pending.len(),
{
    if pending.len() > 0 {
        let rest = pending.drop_last();
        assert forall|i: int| 0 <= i < rest.len() implies #[trigger] rest[i].0.id <= counter by {
            assert(rest[i] == pending[i]);
        }
        lemma_unfinished_ids_within(rest, counter);
        let u = unfinished(pending);
        let r = unfinished(rest);
        assert forall|i: int| 0 <= i < u.len() implies #[trigger] u[i].0.id <= counter by {
            if !pending.last().1 {
                assert(u == r.push(pending.last()));
                if i < r.len() {
                    assert(u[i] == r[i]);
                } else {
                    assert(pending.last() == pending[pending.len() - 1]);
                }
            } else {
                assert(u == r);
            }
        }
    }
}

/// The name every admitted client starts with.
pub open spec fn default_name() -> Seq<char> {
    "Hiccu"@
}

/// The entry of a client just admitted under `id`: named by default, alive,
/// and host exactly when nobody else was connected.
pub open spec fn admitted_info(info: ClientInfo, id: i64, lobby_was_empty: bool) -> bool {
    &&& info.id == id
    &&& info.name@ == default_name()
    &&& info.is_alive
    &&& info.is_host == lobby_was_empty
}

/// The three messages sent when the client `id` is admitted with `info`,
/// once it is among the clients `m`: every other client is told that it
/// joined, and it is sent the list of the others and then its own entry.
pub open spec fn admission_deliveries<S>(
    m: Map<i64, (S, ClientInfo)>,
    id: i64,
    info: ClientInfo,
    d: Seq<Delivery>,
) -> bool {
    &&& d.len() == 3
    &&& d[0].message == ServerMessage::ClientJoin(info)
    &&& d[0].recipients@.no_duplicates()
    &&& d[0].recipients@.to_set() == m.dom().remove(id)
    &&& d[1].message matches ServerMessage::ClientList(list) && is_client_list_for(m, id, list@)
    &&& d[1].recipients@ == seq![id]
    &&& d[2].message == ServerMessage::Hello(info)
    &&& d[2].recipients@ == seq![id]
}

/// The server side of the lobby: the connections still in their handshake,
/// the connected clients, and the counter that ids are drawn from. `L` is
/// what the engine keeps for a pending connection, `S` a client's socket.
pub struct Server<L, S> {
    pending_connections: Vec<(PendingConnection<L>, bool)>,
    connected_clients: ConnectedClients<S>,
    counter: i64,
}

impl<L, S> Server<L, S> {
    /// The pending connections, each with whether its handshake completed.
    pub closed spec fn pending(&self) -> Seq<(PendingConnection<L>, bool)> {
        self.pending_connections@
    }

    /// The connected clients.
    pub closed spec fn clients(&self) -> Map<i64, (S, ClientInfo)> {
        self.connected_clients@
    }

    /// The id last given out.
    pub closed spec fn counter(&self) -> i64 {
        self.counter
    }

    /// No pending connection or connected client has an id above the counter.
    pub open spec fn ids_within_counter(&self) -> bool {
        ids_within(self.pending(), self.clients(), self.counter())
    }

    /// No two pending connections share an id.
    pub open spec fn pending_ids_distinct(&self) -> bool {
        distinct_ids(self.pending())
    }

    /// Only finitely many clients are ever connected.
    pub proof fn lemma_clients_finite(&self)
        ensures
            self.clients().dom().finite(),
    {
        self.connected_clients.lemma_finite();
    }

    /// A server with no connections, whose first id is 1.
    pub fn new() -> (s: Self)
        ensures
            s.pending() == Seq::<(PendingConnection<L>, bool)>::empty(),
            s.clients() == Map::<i64, (S, ClientInfo)>::empty(),
            s.counter() == 0,
    {
        Server {
            pending_connections: Vec::new(),
            connected_clients: ConnectedClients::new(),
            counter: 0,
        }
    }

    /// Takes in a new connection: it is given the next id and waits for its
    /// handshake. Returns the id.
    pub fn accept_connection(&mut self, link: L) -> (id: i64)
        ensures
            id == next_id(old(self).counter()),
            final(self).counter() == id,
            final(self).pending() == old(self).pending().push((PendingConnection { id, link }, false)),
            final(self).clients() == old(self).clients(),
            old(self).ids_within_counter() && old(self).counter() < i64::MAX ==> {
                &&& id == old(self).counter() + 1
                &&& forall|i: int|
                    0 <= i < old(self).pending().len() ==> #[trigger] old(self).pending()[i].0.id < id
                &&& forall|k: i64| #[trigger] old(self).clients().contains_key(k) ==> k < id
                &&& final(self).ids_within_counter()
                &&& old(self).pending_ids_distinct() ==> final(self).pending_ids_distinct()
            },
    {
        self.counter = self.counter.wrapping_add(1);
        let id = self.counter;
        self.pending_connections.push((PendingConnection { id, link }, false));
        id
    }

    /// Forgets the pending connections whose handshake completed.
    pub fn drop_completed(&mut self)
        ensures
            final(self).pending() == unfinished(old(self).pending()),
            final(self).clients() == old(self).clients(),
            final(self).counter() == old(self).counter(),
            old(self).ids_within_counter() ==> final(self).ids_within_counter(),
            old(self).pending_ids_distinct() ==> final(self).pending_ids_distinct(),
            forall|i: int| 0 <= i < final(self).pending().len() ==> !(#[trigger] final(self).pending()[i]).1,
    {
        let mut all: Vec<(PendingConnection<L>, bool)> = Vec::new();
        std::mem::swap(&mut all, &mut self.pending_connections);
        let ghost all_seq = all@;
        let mut kept: Vec<(PendingConnection<L>, bool)> = Vec::new();
        for entry in it: all.into_iter()
            invariant
                it.seq() == all_seq,
                kept@ == unfinished(all_seq.take(it.index())),
        {
            proof {
                assert(all_seq.take(it.index() + 1).drop_last() =~= all_seq.take(it.index()));
            }
            if !entry.1 {
                kept.push(entry);
            }
        }
        proof {
            assert(all_seq.take(all_seq.len() as int) =~= all_seq);
            if old(self).ids_within_counter() {
                lemma_unfinished_ids_within(all_seq, self.counter);
            }
            lemma_unfinished_entries(all_seq);
        }
        self.pending_connections = kept;
    }

    /// How many connections are pending.
    pub fn pending_count(&self) -> (n: usize)
        ensures
            n == self.pending().len(),
    {
        self.pending_connections.len()
    }

    /// The pending connection at `index`.
    pub fn pending_at(&self, index: usize) -> (p: &PendingConnection<L>)
        requires
            index < self.pending().len(),
        ensures
            *p == self.pending()[index as int].0,
    {
        &self.pending_connections[index].0
    }

    /// Whether the handshake of the pending connection at `index` completed.
    pub fn is_completed(&self, index: usize) -> (b: bool)
        requires
            index < self.pending().len(),
        ensures
            b == self.pending()[index as int].1,
    {
        self.pending_connections[index].1
    }

    /// The connected clients.
    pub fn connected_clients(&self) -> (c: &ConnectedClients<S>)
        ensures
            c@ == self.clients(),
    {
        &self.connected_clients
    }

    /// Acts on where the pending connection at `index` stands after a poll.
    /// When its handshake completed, the client is admitted under the
    /// connection's id: it is marked completed, filed among the connected
    /// clients with the default name (host exactly when nobody else was
    /// connected), and the three admission messages are returned. Otherwise
    /// nothing changes and nothing is sent.
    pub fn resolve_pending(&mut self, index: usize, state: ConnectionState<S>) -> (deliveries: Vec<Delivery>)
        requires
            index < old(self).pending().len(),
        ensures
            final(self).counter() == old(self).counter(),
            old(self).ids_within_counter() ==> final(self).ids_within_counter(),
            old(self).pending_ids_distinct() ==> final(self).pending_ids_distinct(),
            match state {
                ConnectionState::Connected(socket) => {
                    let id = old(self).pending()[index as int].0.id;
                    let info = final(self).clients()[id].1;
                    &&& admitted_info(info, id, old(self).clients().dom().len() == 0)
                    &&& final(self).clients() == old(self).clients().insert(id, (socket, info))
                    &&& final(self).pending() == old(self).pending().update(
                        index as int,
                        (old(self).pending()[index as int].0, true),
                    )
                    &&& admission_deliveries(final(self).clients(), id, info, deliveries@)
                },
                _ => {
                    &&& final(self).clients() == old(self).clients()
                    &&& final(self).pending() == old(self).pending()
                    &&& deliveries@.len() == 0
                },
            },
    {
        match state {
            ConnectionState::Connected(socket) => self.admit_client(index, socket),
            _ => Vec::new(),
        }
    }

    /// Admits the client whose handshake at `index` completed.
    fn admit_client(&mut self, index: usize, socket: S) -> (deliveries: Vec<Delivery>)
        requires
            index < old(self).pending().len(),
        ensures
            final(self).counter() == old(self).counter(),
            old(self).ids_within_counter() ==> final(self).ids_within_counter(),
            old(self).pending_ids_distinct() ==> final(self).pending_ids_distinct(),
            ({
                let id = old(self).pending()[index as int].0.id;
                let info = final(self).clients()[id].1;
                &&& admitted_info(info, id, old(self).clients().dom().len() == 0)
                &&& final(self).clients() == old(self).clients().insert(id, (socket, info))
                &&& final(self).pending() == old(self).pending().update(
                    index as int,
                    (old(self).pending()[index as int].0, true),
                )
                &&& admission_deliveries(final(self).clients(), id, info, deliveries@)
            }),
    {
        let (connection, _) = self.pending_connections.remove(index);
        let id = connection.id;
        self.pending_connections.insert(index, (connection, true));
        proof {
            assert(self.pending_connections@ =~= old(self).pending().update(
                index as int,
                (old(self).pending()[index as int].0, true),
            ));
        }
        let first_join = self.connected_clients.is_empty();
        let info = ClientInfo {
            id,
            name: String::from_str("Hiccu"),
            is_alive: true,
            is_host: first_join,
        };
        self.connected_clients.insert_client(socket, info.clone());
        let only = [id];
        let join = self.connected_clients.send_message(
            MessageRecipient::Exclude(&only),
            ServerMessage::ClientJoin(info.clone()),
        );
        let infos = self.connected_clients.client_list_excluding(id);
        let list = self.connected_clients.send_message(
            MessageRecipient::Include(&only),
            ServerMessage::ClientList(infos),
        );
        let hello = self.connected_clients.send_message(
            MessageRecipient::Include(&only),
            ServerMessage::Hello(info),
        );
        proof {
            let dom = self.connected_clients@.dom();
            assert(only@ =~= seq![id]);
            assert(dom.contains(id));
            assert(seq![id].drop_last() =~= Seq::<i64>::empty());
            assert(present_ids(seq![id], dom) =~= seq![id]) by {
                reveal_with_fuel(present_ids, 2);
            }
            assert(dom.filter(|k: i64| !only@.contains(k)) =~= dom.remove(id));
        }
        let mut deliveries = Vec::new();
        deliveries.push(join);
        deliveries.push(list);
        deliveries.push(hello);
        deliveries
    }

    /// Forgets the clients that are no longer alive.
    pub fn prune_dead_clients(&mut self)
        ensures
            final(self).clients() == alive_only(old(self).clients()),
            forall|k: i64|
                #[trigger] final(self).clients().contains_key(k) <==> (old(self).clients().contains_key(k)
                    && old(self).clients()[k].1.is_alive),
            forall|k: i64|
                #[trigger] final(self).clients().contains_key(k) ==> final(self).clients()[k] == old(
                    self,
                ).clients()[k],
            final(self).pending() == old(self).pending(),
            final(self).counter() == old(self).counter(),
            old(self).ids_within_counter() ==> final(self).ids_within_counter(),
    {
        self.connected_clients.keep_alive();
    }

    /// Acts on the state of the socket of client `id` after a poll: a closed
    /// socket marks the client as no longer alive, and its packets are not
    /// read. Returns whether to read the socket's packets.
    pub fn observe_client_socket(&mut self, id: i64, state: WebSocketState) -> (read: bool)
        ensures
            read <==> state != WebSocketState::Closed,
            state == WebSocketState::Closed && old(self).clients().contains_key(id)
                ==> final(self).clients() == old(self).clients().insert(
                id,
                (old(self).clients()[id].0, marked_dead(old(self).clients()[id].1)),
            ),
            !(state == WebSocketState::Closed && old(self).clients().contains_key(id))
                ==> final(self).clients() == old(self).clients(),
            final(self).pending() == old(self).pending(),
            final(self).counter() == old(self).counter(),
            old(self).ids_within_counter() ==> final(self).ids_within_counter(),
    {
        if matches!(state, WebSocketState::Closed) {
            self.connected_clients.mark_disconnected(id);
            false
        } else {
            true
        }
    }

    /// Marks the client `id`, if it is connected, as no longer alive.
    pub fn mark_disconnected(&mut self, id: i64)
        ensures
            old(self).clients().contains_key(id) ==> final(self).clients() == old(self).clients().insert(
                id,
                (old(self).clients()[id].0, marked_dead(old(self).clients()[id].1)),
            ),
            !old(self).clients().contains_key(id) ==> final(self).clients() == old(self).clients(),
            final(self).pending() == old(self).pending(),
            final(self).counter() == old(self).counter(),
            old(self).ids_within_counter() ==> final(self).ids_within_counter(),
    {
        self.connected_clients.mark_disconnected(id);
    }
}

} // verus!

verus! {

/// At most one connected client is the host.
pub open spec fn at_most_one_host<S>(m: Map<i64, (S, ClientInfo)>) -> bool {
    forall|a: i64, b: i64|
        #[trigger] m.contains_key(a) && #[trigger] m.contains_key(b) && m[a].1.is_host
            && m[b].1.is_host ==> a == b
}

/// Admitting a client keeps the lobby at one host at most: a client only
/// becomes host when it joins an empty lobby.
pub proof fn law_admission_keeps_one_host<S>(
    m: Map<i64, (S, ClientInfo)>,
    id: i64,
    socket: S,
    info: ClientInfo,
)
    requires
        m.dom().finite(),
        at_most_one_host(m),
        admitted_info(info, id, m.dom().len() == 0),
    ensures
        at_most_one_host(m.insert(id, (socket, info))),
{
    if m.dom().len() == 0 {
        m.dom().lemma_len0_is_empty();
    }
}

/// Dropping the clients that are no longer alive keeps the lobby at one
/// host at most.
pub proof fn law_pruning_keeps_one_host<S>(m: Map<i64, (S, ClientInfo)>)
    requires
        at_most_one_host(m),
    ensures
        at_most_one_host(alive_only(m)),
{
}

/// Marking a client as disconnected keeps the lobby at one host at most.
pub proof fn law_disconnect_keeps_one_host<S>(m: Map<i64, (S, ClientInfo)>, id: i64)
    requires
        at_most_one_host(m),
        m.contains_key(id),
    ensures
        at_most_one_host(m.insert(id, (m[id].0, marked_dead(m[id].1)))),
{
}

/// A client marked as disconnected is gone after the next pruning, and
/// every other client is kept exactly when it is alive.
pub proof fn law_disconnected_client_is_pruned<S>(m: Map<i64, (S, ClientInfo)>, id: i64)
    requires
        m.contains_key(id),
    ensures
        !alive_only(m.insert(id, (m[id].0, marked_dead(m[id].1)))).contains_key(id),
        forall|k: i64|
            k != id ==> (#[trigger] alive_only(m.insert(id, (m[id].0, marked_dead(m[id].1)))).contains_key(k)
                <==> (m.contains_key(k) && m[k].1.is_alive)),
{
}

/// Pruning twice is pruning once.
pub proof fn law_pruning_is_idempotent<S>(m: Map<i64, (S, ClientInfo)>)
    ensures
        alive_only(alive_only(m)) == alive_only(m),
{
    assert(alive_only(alive_only(m)) =~= alive_only(m));
}

/// A message that excludes nobody reaches the same clients as one meant for all.
pub proof fn law_excluding_nobody_reaches_all(dom: Set<i64>, ids: &[i64], recipients: Seq<i64>)
    requires
        ids@.len() == 0,
    ensures
        addresses(dom, MessageRecipient::Exclude(ids), recipients) <==> addresses(
            dom,
            MessageRecipient::All,
            recipients,
        ),
{
    assert(dom.filter(|k: i64| !ids@.contains(k)) =~= dom);
}

/// Two lists sorted by strictly increasing id, made of the entries of `m`
/// and holding the same ids, are the same list.
proof fn lemma_sorted_entries_unique<S>(m: Map<i64, (S, ClientInfo)>, a: Seq<ClientInfo>, b: Seq<ClientInfo>)
    requires
        sorted_by_id(a),
        sorted_by_id(b),
        forall|j: int| 0 <= j < a.len() ==> #[trigger] a[j] == m[a[j].id].1,
        forall|j: int| 0 <= j < b.len() ==> #[trigger] b[j] == m[b[j].id].1,
        forall|k: i64| #![trigger has_id(a, k)] #![trigger has_id(b, k)] has_id(a, k) <==> has_id(b, k),
    ensures
        a == b,
    decreases a.len(),
{
    if a.len() == 0 {
        if b.len() > 0 {
            assert(has_id(b, b[0].id));
        }
        assert(a =~= b);
    } else if b.len() == 0 {
        assert(has_id(a, a[0].id));
    } else {
        assert(has_id(a, a[0].id));
        assert(has_id(b, b[0].id));
        let ja = choose|j: int| 0 <= j < b.len() && #[trigger] b[j].id == a[0].id;
        let jb = choose|j: int| 0 <= j < a.len() && #[trigger] a[j].id == b[0].id;
        if ja > 0 {
            assert(b[0].id < b[ja].id);
        }
        if jb > 0 {
            assert(a[0].id < a[jb].id);
        }
        assert(a[0].id == b[0].id);
        let ta = a.drop_first();
        let tb = b.drop_first();
        assert forall|k: i64| #[trigger] has_id(ta, k) <==> (has_id(a, k) && k != a[0].id) by {
            if has_id(ta, k) {
                let j = choose|j: int| 0 <= j < ta.len() && #[trigger] ta[j].id == k;
                assert(a[j + 1].id == k);
                assert(a[0].id < a[j + 1].id);
            }
            if has_id(a, k) && k != a[0].id {
                let j = choose|j: int| 0 <= j < a.len() && #[trigger] a[j].id == k;
                assert(ta[j - 1].id == k);
            }
        }
        assert forall|k: i64| #[trigger] has_id(tb, k) <==> (has_id(b, k) && k != b[0].id) by {
            if has_id(tb, k) {
                let j = choose|j: int| 0 <= j < tb.len() && #[trigger] tb[j].id == k;
                assert(b[j + 1].id == k);
                assert(b[0].id < b[j + 1].id);
            }
            if has_id(b, k) && k != b[0].id {
                let j = choose|j: int| 0 <= j < b.len() && #[trigger] b[j].id == k;
                assert(tb[j - 1].id == k);
            }
        }
        assert forall|j: int| 0 <= j < ta.len() implies #[trigger] ta[j] == m[ta[j].id].1 by {
            assert(ta[j] == a[j + 1]);
        }
        assert forall|j: int| 0 <= j < tb.len() implies #[trigger] tb[j] == m[tb[j].id].1 by {
            assert(tb[j] == b[j + 1]);
        }
        lemma_sorted_entries_unique(m, ta, tb);
        assert(a =~= b) by {
            assert forall|j: int| 0 <= j < a.len() implies a[j] == b[j] by {
                if j > 0 {
                    assert(a[j] == ta[j - 1] && b[j] == tb[j - 1]);
                }
            }
        }
    }
}

/// The client list sent to a joining client is fully determined by who is
/// connected: however the clients are walked, the same list comes out.
pub proof fn law_client_list_is_unique<S>(
    m: Map<i64, (S, ClientInfo)>,
    id: i64,
    a: Seq<ClientInfo>,
    b: Seq<ClientInfo>,
)
    requires
        is_client_list_for(m, id, a),
        is_client_list_for(m, id, b),
    ensures
        a == b,
{
    assert forall|k: i64| #[trigger] has_id(a, k) <==> has_id(b, k) by {
        if has_id(a, k) {
            let j = choose|j: int| 0 <= j < a.len() && #[trigger] a[j].id == k;
            assert(m.contains_key(k) && k != id);
        }
        if has_id(b, k) {
            let j = choose|j: int| 0 <= j < b.len() && #[trigger] b[j].id == k;
            assert(m.contains_key(k) && k != id);
        }
    }
    lemma_sorted_entries_unique(m, a, b);
}

} // verus!

verus! {

/// A client that handles the messages of its own admission announces every
/// other connected client exactly by its entry, in increasing order of id,
/// and then its established connection with its own entry.
pub proof fn law_newcomer_learns_the_lobby<S>(
    m: Map<i64, (S, ClientInfo)>,
    id: i64,
    info: ClientInfo,
    d: Seq<Delivery>,
)
    requires
        admission_deliveries(m, id, info, d),
    ensures
        forall|k: i64|
            #[trigger] m.contains_key(k) && k != id ==> exists|j: int|
                0 <= j < signals_for(d[1].message).len() && #[trigger] signals_for(d[1].message)[j]
                    == ClientSignal::ClientJoined(m[k].1),
        forall|j: int|
            0 <= j < signals_for(d[1].message).len() ==> (#[trigger] signals_for(
                d[1].message,
            )[j] matches ClientSignal::ClientJoined(e) && e.id != id && m.contains_key(e.id) && e
                == m[e.id].1),
        signals_for(d[2].message) == seq![ClientSignal::ConnectionEstablished(info)],
{
    let list = d[1].message->ClientList_0@;
    let signals = signals_for(d[1].message);
    assert(signals == list.map_values(|i: ClientInfo| ClientSignal::ClientJoined(i)));
    assert forall|k: i64| #[trigger] m.contains_key(k) && k != id implies exists|j: int|
        0 <= j < signals.len() && #[trigger] signals[j] == ClientSignal::ClientJoined(m[k].1) by {
        assert(has_id(list, k));
        let j = choose|j: int| 0 <= j < list.len() && #[trigger] list[j].id == k;
        assert(signals[j] == ClientSignal::ClientJoined(list[j]));
    }
    assert forall|j: int| 0 <= j < signals.len() implies (#[trigger] signals[j]
        matches ClientSignal::ClientJoined(e) && e.id != id && m.contains_key(e.id) && e == m[e.id].1) by {
        assert(signals[j] == ClientSignal::ClientJoined(list[j]));
    }
}

} // verus!

verus! {

/// Over a round of `n` accepted connections, with no wrap-around past the
/// largest id, the ids given out are `counter + 1`, ..., `counter + n`:
/// strictly increasing, so pairwise distinct, and each above `counter`.
pub proof fn law_round_of_ids_increases(counter: i64, n: nat)
    requires
        counter + n <= i64::MAX,
    ensures
        forall|j: nat| 1 <= j <= n ==> #[trigger] id_after(counter, j) == counter + j,
    decreases n,
{
    if n > 0 {
        law_round_of_ids_increases(counter, (n - 1) as nat);
        assert forall|j: nat| 1 <= j <= n implies #[trigger] id_after(counter, j) == counter + j by {
            if j == n {
                let prev = id_after(counter, (n - 1) as nat);
                if n > 1 {
                    assert(prev == counter + (n - 1));
                } else {
                    assert(prev == counter);
                }
                assert(prev < i64::MAX);
                assert(id_after(counter, n) == next_id(prev));
            }
        }
    }
}

/// A connection accepted while every known id is at most the counter, and the
/// counter is below the largest id, gets an id above every pending and
/// connected id, and the bound holds again for the new counter.
pub proof fn law_accepted_id_is_fresh<L, S>(
    pending: Seq<(PendingConnection<L>, bool)>,
    clients: Map<i64, (S, ClientInfo)>,
    counter: i64,
    link: L,
)
    requires
        ids_within(pending, clients, counter),
        counter < i64::MAX,
    ensures
        ({
            let id = next_id(counter);
            &&& id == counter + 1
            &&& forall|i: int| 0 <= i < pending.len() ==> #[trigger] pending[i].0.id < id
            &&& forall|k: i64| #[trigger] clients.contains_key(k) ==> k < id
            &&& ids_within(pending.push((PendingConnection { id, link }, false)), clients, id)
        }),
{
    let id = next_id(counter);
    let after = pending.push((PendingConnection { id, link }, false));
    assert forall|i: int| 0 <= i < after.len() implies #[trigger] after[i].0.id <= id by {
        if i < pending.len() {
            assert(after[i] == pending[i]);
        }
    }
}

} // verus!

verus! {

/// An entry whose handshake completed in one round is never admitted again:
/// once the completed entries are dropped at the start of the next round,
/// every remaining entry is still waiting, and, the ids being distinct, none
/// carries the id of the completed entry, so no later admission (which takes
/// the id of a remaining entry) can file that id a second time.
pub proof fn law_completed_entry_is_not_admitted_again<L>(
    round: Seq<(PendingConnection<L>, bool)>,
    done: int,
)
    requires
        distinct_ids(round),
        0 <= done < round.len(),
        round[done].1,
    ensures
        forall|j: int|
            0 <= j < unfinished(round).len() ==> !(#[trigger] unfinished(round)[j]).1
                && unfinished(round)[j].0.id != round[done].0.id,
{
    lemma_unfinished_entries(round);
    assert forall|j: int| 0 <= j < unfinished(round).len() implies !(#[trigger] unfinished(round)[j]).1
        && unfinished(round)[j].0.id != round[done].0.id by {
        let k = choose|k: int| 0 <= k < round.len() && #[trigger] unfinished(round)[j] == round[k];
        assert(!round[k].1);
    }
}

/// Completing the handshake at one index keeps the pending ids distinct:
/// only that entry's flag changes.
pub proof fn law_completion_keeps_ids_distinct<L>(
    pending: Seq<(PendingConnection<L>, bool)>,
    index: int,
)
    requires
        distinct_ids(pending),
        0 <= index < pending.len(),
    ensures
        distinct_ids(pending.update(index, (pending[index].0, true))),
{
    let after = pending.update(index, (pending[index].0, true));
    assert forall|a: int, b: int|
        0 <= a < after.len() && 0 <= b < after.len() && a != b implies #[trigger] after[a].0.id
        != #[trigger] after[b].0.id by {
        assert(after[a].0 == pending[a].0 && after[b].0 == pending[b].0);
    }
}

} // verus!

verus! {

/// Pruning only removes entries: a client is kept exactly when it was
/// connected and alive, and a kept client's socket and entry are untouched.
pub proof fn law_pruning_keeps_survivors_unchanged<S>(m: Map<i64, (S, ClientInfo)>)
    ensures
        forall|k: i64|
            #[trigger] alive_only(m).contains_key(k) <==> (m.contains_key(k) && m[k].1.is_alive),
        forall|k: i64| #[trigger] alive_only(m).contains_key(k) ==> alive_only(m)[k] == m[k],
        alive_only(m).submap_of(m),
{
}

/// Marking a client dead changes nothing but its `is_alive` flag.
pub proof fn law_marked_dead_only_clears_alive(info: ClientInfo)
    ensures
        marked_dead(info).id == info.id,
        marked_dead(info).name == info.name,
        marked_dead(info).is_host == info.is_host,
        !marked_dead(info).is_alive,
{
}

/// The id after `counter` is one more, except that the largest id is
/// followed by the smallest.
pub proof fn law_next_id_counts_up(counter: i64)
    ensures
        counter < i64::MAX ==> next_id(counter) as int == counter as int + 1,
        counter == i64::MAX ==> next_id(counter) == i64::MIN,
{
}

/// A handshake that has gone on for more than five seconds is given up as
/// timed out, whatever the state of its TCP stream and websocket.
pub proof fn law_handshake_times_out<S>(
    secs: u64,
    nanos: u32,
    tcp: TcpStatus,
    ws: WebSocketState,
    socket: S,
)
    requires
        nanos < 1_000_000_000,
        secs > 5 || (secs == 5 && nanos > 0),
    ensures
        connection_state_spec(secs, nanos, tcp, ws, socket) == ConnectionState::<S>::Disconnected(
            ConnectionError::Timeout,
        ),
{
    assert(timed_out(secs, nanos)) by (nonlinear_arith)
        requires
            secs > 5 || (secs == 5 && nanos > 0),
    ;
}

/// Within five seconds, a handshake whose TCP stream is not connected is
/// given up for that; otherwise it is connected exactly when the websocket
/// is open, still pending exactly while it is connecting, and given up as
/// closed when the websocket is closing or closed.
pub proof fn law_handshake_within_timeout<S>(
    secs: u64,
    nanos: u32,
    tcp: TcpStatus,
    ws: WebSocketState,
    socket: S,
)
    requires
        nanos < 1_000_000_000,
        secs < 5 || (secs == 5 && nanos == 0),
    ensures
        tcp != TcpStatus::Connected ==> connection_state_spec(secs, nanos, tcp, ws, socket)
            == ConnectionState::<S>::Disconnected(ConnectionError::TcpStreamClosed),
        tcp == TcpStatus::Connected && ws == WebSocketState::Open ==> connection_state_spec(
            secs,
            nanos,
            tcp,
            ws,
            socket,
        ) == ConnectionState::Connected(socket),
        tcp == TcpStatus::Connected && ws == WebSocketState::Connecting ==> connection_state_spec(
            secs,
            nanos,
            tcp,
            ws,
            socket,
        ) == ConnectionState::<S>::Pending,
        tcp == TcpStatus::Connected && (ws == WebSocketState::Closing || ws
            == WebSocketState::Closed) ==> connection_state_spec(secs, nanos, tcp, ws, socket)
            == ConnectionState::<S>::Disconnected(ConnectionError::WebsocketClosed),
{
    assert(!timed_out(secs, nanos)) by (nonlinear_arith)
        requires
            secs < 5 || (secs == 5 && nanos == 0),
            nanos < 1_000_000_000,
    ;
}

/// The listed ids that are present keep the order of the list: the ids of a
/// list made of two parts are those of the first part followed by those of
/// the second.
pub proof fn law_present_ids_keeps_order(a: Seq<i64>, b: Seq<i64>, present: Set<i64>)
    ensures
        present_ids(a + b, present) == present_ids(a, present) + present_ids(b, present),
    decreases b.len(),
{
    if b.len() == 0 {
        assert(a + b =~= a);
        assert(present_ids(a, present) + present_ids(b, present) =~= present_ids(a, present));
    } else {
        let b0 = b.drop_last();
        law_present_ids_keeps_order(a, b0, present);
        assert((a + b).drop_last() =~= a + b0);
        assert((a + b).last() == b.last());
        if present.contains(b.last()) {
            assert(present_ids(a, present) + present_ids(b, present) =~= (present_ids(a, present)
                + present_ids(b0, present)).push(b.last()));
        } else {
            assert(present_ids(a, present) + present_ids(b, present) =~= present_ids(a, present)
                + present_ids(b0, present));
        }
    }
}

/// A single listed id is kept exactly when it is present; in particular two
/// present ids keep the order they are listed in.
pub proof fn law_present_ids_single(x: i64, y: i64, present: Set<i64>)
    ensures
        present_ids(seq![x], present) == (if present.contains(x) {
            seq![x]
        } else {
            Seq::<i64>::empty()
        }),
        present.contains(x) && present.contains(y) ==> present_ids(seq![x, y], present) == seq![
            x,
            y,
        ],
{
    assert(seq![x].drop_last() =~= Seq::<i64>::empty());
    assert(present_ids(Seq::<i64>::empty(), present) =~= Seq::<i64>::empty());
    assert(present_ids(seq![x], present) =~= (if present.contains(x) {
        seq![x]
    } else {
        Seq::<i64>::empty()
    }));
    if present.contains(x) && present.contains(y) {
        assert(seq![x, y].drop_last() =~= seq![x]);
        assert(present_ids(seq![x, y], present) =~= seq![x, y]);
    }
}

/// Dropping the completed entries keeps the order of the others: for a list
/// made of two parts, the entries left of the first part come before those of
/// the second, and a single entry stays exactly when it is not completed.
pub proof fn law_unfinished_keeps_order<L>(
    a: Seq<(PendingConnection<L>, bool)>,
    b: Seq<(PendingConnection<L>, bool)>,
    e: (PendingConnection<L>, bool),
)
    ensures
        unfinished(a + b) == unfinished(a) + unfinished(b),
        unfinished(seq![e]) == (if e.1 {
            Seq::<(PendingConnection<L>, bool)>::empty()
        } else {
            seq![e]
        }),
    decreases b.len(),
{
    assert(seq![e].drop_last() =~= Seq::<(PendingConnection<L>, bool)>::empty());
    assert(unfinished(Seq::<(PendingConnection<L>, bool)>::empty()) =~= Seq::<
        (PendingConnection<L>, bool),
    >::empty());
    assert(seq![e].last() == e);
    assert(unfinished(seq![e]) =~= (if e.1 {
        Seq::<(PendingConnection<L>, bool)>::empty()
    } else {
        seq![e]
    }));
    if b.len() == 0 {
        assert(a + b =~= a);
        assert(unfinished(a) + unfinished(b) =~= unfinished(a));
    } else {
        let b0 = b.drop_last();
        law_unfinished_keeps_order(a, b0, e);
        assert((a + b).drop_last() =~= a + b0);
        assert((a + b).last() == b.last());
        if b.last().1 {
            assert(unfinished(a) + unfinished(b) =~= unfinished(a) + unfinished(b0));
        } else {
            assert(unfinished(a) + unfinished(b) =~= (unfinished(a) + unfinished(b0)).push(b.last()));
        }
    }
}

} // verus!

verus! {

/// What each kind of recipient reaches: `All` every connected client once;
/// `Exclude` once each connected client that is not listed, and never a
/// listed one; `Include` only listed clients that are connected, as often as
/// they are listed.
pub proof fn law_recipients_reached(dom: Set<i64>, recipient: MessageRecipient, recipients: Seq<i64>)
    requires
        addresses(dom, recipient, recipients),
    ensures
        recipient is All ==> recipients.no_duplicates() && forall|k: i64|
            #[trigger] recipients.contains(k) <==> dom.contains(k),
        recipient matches MessageRecipient::Exclude(ids) ==> recipients.no_duplicates() && forall|
            k: i64,
        | #[trigger] recipients.contains(k) <==> (dom.contains(k) && !ids@.contains(k)),
        recipient matches MessageRecipient::Include(ids) ==> forall|k: i64|
            #[trigger] recipients.contains(k) ==> dom.contains(k) && ids@.contains(k),
{
    match recipient {
        MessageRecipient::All => {
            assert forall|k: i64| #[trigger] recipients.contains(k) <==> dom.contains(k) by {
                assert(recipients.to_set().contains(k) <==> recipients.contains(k));
            }
        },
        MessageRecipient::Exclude(ids) => {
            assert forall|k: i64| #[trigger] recipients.contains(k) <==> (dom.contains(k)
                && !ids@.contains(k)) by {
                assert(recipients.to_set().contains(k) <==> recipients.contains(k));
            }
        },
        MessageRecipient::Include(ids) => {
            lemma_present_ids_members(ids@, dom);
        },
    }
}

/// Every id that `present_ids` keeps is listed and present.
proof fn lemma_present_ids_members(ids: Seq<i64>, present: Set<i64>)
    ensures
        forall|k: i64|
            #[trigger] present_ids(ids, present).contains(k) ==> present.contains(k) && ids.contains(k),
    decreases ids.len(),
{
    if ids.len() > 0 {
        let rest = ids.drop_last();
        lemma_present_ids_members(rest, present);
        assert forall|k: i64| #[trigger] present_ids(ids, present).contains(k) implies present.contains(k)
            && ids.contains(k) by {
            let r = present_ids(rest, present);
            if present.contains(ids.last()) {
                assert(present_ids(ids, present) == r.push(ids.last()));
                let j = choose|j: int| 0 <= j < r.push(ids.last()).len() && r.push(ids.last())[j] == k;
                if j < r.len() {
                    assert(r[j] == k);
                    assert(r.contains(k));
                    let m = choose|m: int| 0 <= m < rest.len() && rest[m] == k;
                    assert(ids[m] == k);
                } else {
                    assert(ids[ids.len() - 1] == k);
                }
            } else {
                assert(r.contains(k));
                let m = choose|m: int| 0 <= m < rest.len() && rest[m] == k;
                assert(ids[m] == k);
            }
        }
    }
}

} // verus!
