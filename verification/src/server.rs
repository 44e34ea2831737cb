//! The index server's state and its answer to each client request. The
//! server keeps the registered clients, the version graphs of all files,
//! which clients hold each block and which clients hold each file. The
//! network loop that reads requests and writes answers runs outside.

use vstd::prelude::*;
use crate::seqs::{
    first_where, lemma_first_where, lemma_first_where_bounds, str_views, add_once, add_str_once,
    lemma_add_once, lemma_str_views_push,
};
use crate::version_graph::{
    VersionGraphStore, VersionNode, NodeView, GraphView, ConflictView, conflict_views, graph_of,
    path_pred, empty_graph, add_node_spec, node_id_of, opt_view, head_nodes, lww_pick, store_wf,
    store_publish, VersionGraph, node_with_id, lemma_publish_stores,
};
use crate::protocol::{
    ClientRegistered, PublishVersion, VersionPublished, RequestVersionGraph, RemoteVersionNode,
    VersionGraphResponse, RequestPeers, PeerInfo, PeerList, Heartbeat, PullMissingBlocks,
    PullMissingBlocksResponse, BlockResponse, RegisterClient, MessageType,
};

verus! {

broadcast use vstd::string::group_string_axioms;

/// A registered client. `address` is the client's IP address as text;
/// `last_heartbeat` is in nanoseconds since the Unix epoch.
#[derive(Debug)]
pub struct ClientEntry {
    pub client_id: String,
    pub hostname: String,
    pub address: String,
    pub listen_port: u16,
    pub watched_path: String,
    pub last_heartbeat: i64,
    pub file_count: u64,
    pub version_count: u64,
}

pub struct ClientView {
    pub client_id: Seq<char>,
    pub hostname: Seq<char>,
    pub address: Seq<char>,
    pub listen_port: u16,
    pub watched_path: Seq<char>,
    pub last_heartbeat: i64,
    pub file_count: u64,
    pub version_count: u64,
}

impl View for ClientEntry {
    type V = ClientView;

    open spec fn view(&self) -> ClientView {
        ClientView {
            client_id: self.client_id@,
            hostname: self.hostname@,
            address: self.address@,
            listen_port: self.listen_port,
            watched_path: self.watched_path@,
            last_heartbeat: self.last_heartbeat,
            file_count: self.file_count,
            version_count: self.version_count,
        }
    }
}

pub open spec fn client_views(v: Seq<ClientEntry>) -> Seq<ClientView> {
    v.map_values(|c: ClientEntry| c@)
}

/// For each key, the clients that hold it, each once, in the order they came.
pub type OwnerIndex = Seq<(Seq<char>, Seq<Seq<char>>)>;

pub open spec fn owner_views(v: Seq<(String, Vec<String>)>) -> OwnerIndex {
    v.map_values(|e: (String, Vec<String>)| (e.0@, str_views(e.1@)))
}

/// The index server's state.
pub struct IndexServer {
    pub clients: Vec<ClientEntry>,
    pub version_graphs: VersionGraphStore,
    pub block_index: Vec<(String, Vec<String>)>,
    pub file_owners: Vec<(String, Vec<String>)>,
    pub shutdown: bool,
}

pub struct ServerView {
    pub clients: Seq<ClientView>,
    pub graphs: Seq<GraphView>,
    pub block_index: OwnerIndex,
    pub file_owners: OwnerIndex,
    pub shutdown: bool,
}

impl View for IndexServer {
    type V = ServerView;

    open spec fn view(&self) -> ServerView {
        ServerView {
            clients: client_views(self.clients@),
            graphs: self.version_graphs@,
            block_index: owner_views(self.block_index@),
            file_owners: owner_views(self.file_owners@),
            shutdown: self.shutdown,
        }
    }
}

/// Holds of the client with id `id`.
pub open spec fn client_pred(id: Seq<char>) -> spec_fn(ClientView) -> bool {
    |c: ClientView| c.client_id == id
}

/// Holds of the index entry with key `k`.
pub open spec fn entry_pred(k: Seq<char>) -> spec_fn((Seq<char>, Seq<Seq<char>>)) -> bool {
    |e: (Seq<char>, Seq<Seq<char>>)| e.0 == k
}

/// The registered client with id `id`, if any.
pub open spec fn client_of(cs: Seq<ClientView>, id: Seq<char>) -> Option<ClientView> {
    let i = first_where(cs, client_pred(id));
    if i < cs.len() {
        Some(cs[i])
    } else {
        None
    }
}

/// The clients that hold key `k`; none when the index has no entry.
pub open spec fn owners_of(idx: OwnerIndex, k: Seq<char>) -> Seq<Seq<char>> {
    let i = first_where(idx, entry_pred(k));
    if i < idx.len() {
        idx[i].1
    } else {
        Seq::empty()
    }
}

/// Whether the index has an entry for `k`.
pub open spec fn has_entry(idx: OwnerIndex, k: Seq<char>) -> bool {
    first_where(idx, entry_pred(k)) < idx.len()
}

/// The index with `owner` recorded as holding `k`.
pub open spec fn add_owner(idx: OwnerIndex, k: Seq<char>, owner: Seq<char>) -> OwnerIndex {
    let i = first_where(idx, entry_pred(k));
    if i < idx.len() {
        idx.update(i, (k, add_once(idx[i].1, owner)))
    } else {
        idx.push((k, seq![owner]))
    }
}

/// The index with `owner` recorded as holding the first `n` keys.
pub open spec fn add_owners(idx: OwnerIndex, keys: Seq<Seq<char>>, owner: Seq<char>, n: nat) -> OwnerIndex
    decreases n,
{
    if n == 0 || n > keys.len() {
        idx
    } else {
        add_owner(add_owners(idx, keys, owner, (n - 1) as nat), keys[n - 1], owner)
    }
}

/// The clients with `e` put in place of the client with its id, or last.
pub open spec fn upsert_client(cs: Seq<ClientView>, e: ClientView) -> Seq<ClientView> {
    let i = first_where(cs, client_pred(e.client_id));
    if i < cs.len() {
        cs.update(i, e)
    } else {
        cs.push(e)
    }
}

/// The clients without the client with id `id`.
pub open spec fn remove_client(cs: Seq<ClientView>, id: Seq<char>) -> Seq<ClientView> {
    let i = first_where(cs, client_pred(id));
    if i < cs.len() {
        cs.remove(i)
    } else {
        cs
    }
}

/// `n + 1`, wrapping to 0 past the largest value.
pub open spec fn bump(n: u64) -> u64 {
    if n == u64::MAX {
        0
    } else {
        (n + 1) as u64
    }
}

/// The server state is well formed: its graph store is, client ids occur
/// once, index keys occur once and every key's holders occur once.
pub open spec fn server_wf(s: ServerView) -> bool {
    &&& store_wf(s.graphs)
    &&& forall|i: int, j: int|
        0 <= i < j < s.clients.len() ==> #[trigger] s.clients[i].client_id != #[trigger] s.clients[j].client_id
    &&& index_wf(s.block_index)
    &&& index_wf(s.file_owners)
}

pub open spec fn index_wf(idx: OwnerIndex) -> bool {
    &&& forall|i: int, j: int| 0 <= i < j < idx.len() ==> #[trigger] idx[i].0 != #[trigger] idx[j].0
    &&& forall|i: int| 0 <= i < idx.len() ==> (#[trigger] idx[i]).1.no_duplicates()
}

fn clone_string(s: &String) -> (r: String)
    ensures
        r@ == s@,
{
    s.clone()
}

fn clone_strings(v: &Vec<String>) -> (r: Vec<String>)
    ensures
        str_views(r@) == str_views(v@),
{
    let mut r: Vec<String> = Vec::new();
    let mut i: usize = 0;
    while i < v.len()
        invariant
            i <= v.len(),
            str_views(r@) == str_views(v@).take(i as int),
        decreases v.len() - i,
    {
        let ghost before = r@;
        let c = clone_string(&v[i]);
        r.push(c);
        proof {
            lemma_str_views_push(before, c);
        }
        i += 1;
        assert(str_views(r@) =~= str_views(v@).take(i as int));
    }
    assert(str_views(v@).take(v.len() as int) =~= str_views(v@));
    r
}

/// Records `owner` as holding `key` in `idx`.
fn record_owner(idx: &mut Vec<(String, Vec<String>)>, key: &String, owner: &String)
    requires
        index_wf(owner_views(old(idx)@)),
    ensures
        owner_views(final(idx)@) == add_owner(owner_views(old(idx)@), key@, owner@),
        index_wf(owner_views(final(idx)@)),
{
    let ghost iv = owner_views(idx@);
    let mut i: usize = 0;
    while i < idx.len() && !(idx[i].0 == *key)
        invariant
            i <= idx.len(),
            iv == owner_views(idx@),
            forall|j: int| 0 <= j < i ==> !entry_pred(key@)(#[trigger] iv[j]),
        decreases idx.len() - i,
    {
        i += 1;
    }
    proof {
        lemma_first_where(iv, entry_pred(key@), i as int);
    }
    if i < idx.len() {
        let mut owners = clone_strings(&idx[i].1);
        let ghost ov = str_views(owners@);
        assert(ov == iv[i as int].1);
        add_str_once(&mut owners, clone_string(owner));
        proof {
            lemma_add_once(ov, owner@);
        }
        let ghost before = idx@;
        idx.set(i, (clone_string(key), owners));
        assert(owner_views(idx@) =~= iv.update(i as int, (key@, add_once(ov, owner@))));
        proof {
            assert forall|a: int, b: int| 0 <= a < b < idx@.len() implies #[trigger] owner_views(idx@)[a].0
                != #[trigger] owner_views(idx@)[b].0 by {
                assert(iv[i as int].0 == key@);
            }
        }
    } else {
        let mut owners: Vec<String> = Vec::new();
        owners.push(clone_string(owner));
        idx.push((clone_string(key), owners));
        assert(str_views(owners@) =~= seq![owner@]);
        assert(owner_views(idx@) =~= iv.push((key@, seq![owner@])));
        proof {
            assert forall|a: int, b: int| 0 <= a < b < idx@.len() implies #[trigger] owner_views(idx@)[a].0
                != #[trigger] owner_views(idx@)[b].0 by {
                if b == iv.len() {
                    assert(!entry_pred(key@)(iv[a]));
                }
            }
            assert(seq![owner@].no_duplicates());
        }
    }
}

// ---------------------------------------------------------------------------
// Views of the messages the server builds
// ---------------------------------------------------------------------------

pub struct RemoteView {
    pub client_id: Seq<char>,
    pub version_number: i64,
    pub content_hash: Seq<char>,
    pub timestamp: i64,
    pub file_size: i64,
    pub parent_hash: Option<Seq<char>>,
    pub block_hashes: Seq<Seq<char>>,
}

impl View for RemoteVersionNode {
    type V = RemoteView;

    open spec fn view(&self) -> RemoteView {
        RemoteView {
            client_id: self.client_id@,
            version_number: self.version_number,
            content_hash: self.content_hash@,
            timestamp: self.timestamp,
            file_size: self.file_size,
            parent_hash: opt_view(self.parent_hash),
            block_hashes: str_views(self.block_hashes@),
        }
    }
}

/// A graph node as the server sends it: everything but its id.
pub open spec fn remote_of(n: NodeView) -> RemoteView {
    RemoteView {
        client_id: n.client_id,
        version_number: n.version_number,
        content_hash: n.content_hash,
        timestamp: n.timestamp,
        file_size: n.file_size,
        parent_hash: n.parent_hash,
        block_hashes: n.block_hashes,
    }
}

pub open spec fn remote_views(v: Seq<RemoteVersionNode>) -> Seq<RemoteView> {
    v.map_values(|n: RemoteVersionNode| n@)
}

pub struct PeerView {
    pub client_id: Seq<char>,
    pub hostname: Seq<char>,
    pub address: Seq<char>,
    pub listen_port: u16,
    pub version_count: i64,
}

impl View for PeerInfo {
    type V = PeerView;

    open spec fn view(&self) -> PeerView {
        PeerView {
            client_id: self.client_id@,
            hostname: self.hostname@,
            address: self.address@,
            listen_port: self.listen_port,
            version_count: self.version_count,
        }
    }
}

pub open spec fn peer_views(v: Seq<PeerInfo>) -> Seq<PeerView> {
    v.map_values(|p: PeerInfo| p@)
}

/// A registered client as a peer; its version count read as an `i64`.
pub open spec fn peer_of(c: ClientView) -> PeerView {
    PeerView {
        client_id: c.client_id,
        hostname: c.hostname,
        address: c.address,
        listen_port: c.listen_port,
        version_count: c.version_count as i64,
    }
}

/// The registered clients among the first `n` holders, as peers, in order.
pub open spec fn peers_of(owners: Seq<Seq<char>>, cs: Seq<ClientView>, n: nat) -> Seq<PeerView>
    decreases n,
{
    if n == 0 || n > owners.len() {
        Seq::empty()
    } else {
        match client_of(cs, owners[n - 1]) {
            Some(c) => peers_of(owners, cs, (n - 1) as nat).push(peer_of(c)),
            None => peers_of(owners, cs, (n - 1) as nat),
        }
    }
}

/// Among the first `n` hashes, those whose first holder is registered.
pub open spec fn servable(hashes: Seq<Seq<char>>, idx: OwnerIndex, cs: Seq<ClientView>, n: nat) -> Seq<
    Seq<char>,
>
    decreases n,
{
    if n == 0 || n > hashes.len() {
        Seq::empty()
    } else {
        let owners = owners_of(idx, hashes[n - 1]);
        if owners.len() > 0 && client_of(cs, owners[0]) is Some {
            servable(hashes, idx, cs, (n - 1) as nat).push(hashes[n - 1])
        } else {
            servable(hashes, idx, cs, (n - 1) as nat)
        }
    }
}

pub struct BlockView {
    pub block_hash: Seq<char>,
    pub data: Seq<u8>,
    pub found: bool,
}

impl View for BlockResponse {
    type V = BlockView;

    open spec fn view(&self) -> BlockView {
        BlockView { block_hash: self.block_hash@, data: self.data@, found: self.found }
    }
}

pub open spec fn block_views(v: Seq<BlockResponse>) -> Seq<BlockView> {
    v.map_values(|b: BlockResponse| b@)
}

/// A block the server cannot send itself: no data, not found.
pub open spec fn unserved(h: Seq<char>) -> BlockView {
    BlockView { block_hash: h, data: Seq::empty(), found: false }
}

/// The node a published version becomes.
pub open spec fn published_node(m: PublishVersion) -> NodeView {
    NodeView {
        node_id: node_id_of(m.client_id@, m.version_number),
        client_id: m.client_id@,
        version_number: m.version_number,
        content_hash: m.content_hash@,
        timestamp: m.timestamp,
        file_size: m.file_size,
        parent_hash: opt_view(m.parent_hash),
        block_hashes: str_views(m.block_hashes@),
    }
}

/// The server version that registrations are answered with.
pub open spec fn server_version() -> Seq<char> {
    seq!['0', '.', '1', '.', '0']
}

/// The entry a registration makes.
pub open spec fn registered_entry(m: RegisterClient, address: Seq<char>, now: i64) -> ClientView {
    ClientView {
        client_id: m.client_id@,
        hostname: m.hostname@,
        address,
        listen_port: m.listen_port,
        watched_path: m.watched_path@,
        last_heartbeat: now,
        file_count: 0,
        version_count: 0,
    }
}

/// The clients with the version count of client `id` bumped, if it is there.
pub open spec fn count_version(cs: Seq<ClientView>, id: Seq<char>) -> Seq<ClientView> {
    let i = first_where(cs, client_pred(id));
    if i < cs.len() {
        cs.update(i, ClientView { version_count: bump(cs[i].version_count), ..cs[i] })
    } else {
        cs
    }
}

/// The clients with the heartbeat time of client `id` set to `t`, if it is
/// there.
pub open spec fn beat(cs: Seq<ClientView>, id: Seq<char>, t: i64) -> Seq<ClientView> {
    let i = first_where(cs, client_pred(id));
    if i < cs.len() {
        cs.update(i, ClientView { last_heartbeat: t, ..cs[i] })
    } else {
        cs
    }
}

/// The server after a published version: the version added to its file's
/// graph, the publisher recorded as holding each of its blocks and the
/// file, and the version counted for the session's client.
pub open spec fn publish_state(s: ServerView, m: PublishVersion, session_client: Option<Seq<char>>) -> ServerView {
    let (gs, _cs) = store_publish(s.graphs, m.file_path@, published_node(m));
    let bh = str_views(m.block_hashes@);
    ServerView {
        clients: match session_client {
            Some(id) => count_version(s.clients, id),
            None => s.clients,
        },
        graphs: gs,
        block_index: add_owners(s.block_index, bh, m.client_id@, bh.len()),
        file_owners: add_owner(s.file_owners, m.file_path@, m.client_id@),
        shutdown: s.shutdown,
    }
}

pub open spec fn with_clients(s: ServerView, cs: Seq<ClientView>) -> ServerView {
    ServerView { clients: cs, ..s }
}

proof fn lemma_clients_push(v: Seq<ClientEntry>, c: ClientEntry)
    ensures
        client_views(v.push(c)) == client_views(v).push(c@),
{
    assert(client_views(v.push(c)) =~= client_views(v).push(c@));
}

proof fn lemma_clients_update(v: Seq<ClientEntry>, i: int, c: ClientEntry)
    requires
        0 <= i < v.len(),
    ensures
        client_views(v.update(i, c)) == client_views(v).update(i, c@),
{
    assert(client_views(v.update(i, c)) =~= client_views(v).update(i, c@));
}

impl IndexServer {
    pub open spec fn wf(&self) -> bool {
        server_wf(self@)
    }

    /// A server with no clients, graphs or holders, not shut down.
    pub fn new() -> (s: Self)
        ensures
            s.wf(),
            s@.clients.len() == 0,
            s@.graphs.len() == 0,
            s@.block_index.len() == 0,
            s@.file_owners.len() == 0,
            !s@.shutdown,
    {
        let s = IndexServer {
            clients: Vec::new(),
            version_graphs: VersionGraphStore::new(),
            block_index: Vec::new(),
            file_owners: Vec::new(),
            shutdown: false,
        };
        assert(s@.clients =~= Seq::<ClientView>::empty());
        assert(s@.block_index =~= Seq::<(Seq<char>, Seq<Seq<char>>)>::empty());
        assert(s@.file_owners =~= Seq::<(Seq<char>, Seq<Seq<char>>)>::empty());
        s
    }

    /// Marks the server as shut down.
    pub fn stop(&mut self)
        ensures
            final(self)@ == (ServerView { shutdown: true, ..old(self)@ }),
    {
        self.shutdown = true;
    }

    fn find_client(&self, id: &String) -> (i: usize)
        ensures
            i as int == first_where(self@.clients, client_pred(id@)),
    {
        let ghost cv = self@.clients;
        let mut i: usize = 0;
        while i < self.clients.len() && !(self.clients[i].client_id == *id)
            invariant
                i <= self.clients.len(),
                cv == self@.clients,
                forall|j: int| 0 <= j < i ==> !client_pred(id@)(#[trigger] cv[j]),
            decreases self.clients.len() - i,
        {
            i += 1;
        }
        proof {
            lemma_first_where(cv, client_pred(id@), i as int);
        }
        i
    }

    /// Registers (or re-registers) a client seen at `address` at time `now`,
    /// and answers with its id, assigned id 1 and the server version.
    pub fn register_client(&mut self, msg: RegisterClient, address: &str, now: i64) -> (r: ClientRegistered)
        requires
            old(self).wf(),
        ensures
            final(self).wf(),
            final(self)@ == with_clients(
                old(self)@,
                upsert_client(old(self)@.clients, registered_entry(msg, address@, now)),
            ),
            registered_reply_ok(msg, r),
    {
        let ghost e = registered_entry(msg, address@, now);
        let cid = clone_string(&msg.client_id);
        let entry = ClientEntry {
            client_id: clone_string(&msg.client_id),
            hostname: msg.hostname,
            address: address.to_owned(),
            listen_port: msg.listen_port,
            watched_path: msg.watched_path,
            last_heartbeat: now,
            file_count: 0,
            version_count: 0,
        };
        assert(entry@ == e);
        let i = self.find_client(&cid);
        let ghost cv = self@.clients;
        let ghost before = self.clients@;
        proof {
            lemma_first_where_bounds(cv, client_pred(cid@));
        }
        if i < self.clients.len() {
            self.clients.set(i, entry);
            proof {
                lemma_clients_update(before, i as int, self.clients@[i as int]);
            }
        } else {
            self.clients.push(entry);
            proof {
                lemma_clients_push(before, self.clients@[i as int]);
                assert forall|a: int, b: int| 0 <= a < b < self@.clients.len() implies #[trigger] self@.clients[a].client_id
                    != #[trigger] self@.clients[b].client_id by {
                    if b == cv.len() {
                        assert(!client_pred(cid@)(cv[a]));
                    }
                }
            }
        }
        let version = vec!['0', '.', '1', '.', '0'];
        let sv = crate::text::string_of(&version);
        assert(sv@ =~= server_version());
        ClientRegistered { client_id: cid, assigned_id: 1, server_version: sv }
    }

    /// Adds a published version: to its file's graph (see
    /// `VersionGraphStore::publish_version`), records the publisher as
    /// holding each block and the file, and counts the version for the
    /// session's registered client. Answers success, whether conflicts were
    /// found, and the remote client of the first one.
    pub fn publish_version(&mut self, msg: PublishVersion, session_client: Option<&String>) -> (r:
        VersionPublished)
        requires
            old(self).wf(),
        ensures
            final(self).wf(),
            final(self)@ == publish_state(old(self)@, msg, opt_ref_view(session_client)),
            published_reply_ok(old(self)@, msg, r),
    {
        let ghost s0 = self@;
        let ghost m = msg;
        let node = VersionNode::new(
            msg.client_id.as_str(),
            msg.version_number,
            msg.content_hash.as_str(),
            msg.timestamp,
            msg.file_size,
            msg.parent_hash,
            clone_strings(&msg.block_hashes),
        );
        assert(node@ == published_node(m));
        let conflicts = self.version_graphs.publish_version(msg.file_path.as_str(), node);
        let conflict_detected = conflicts.len() > 0;
        let conflicting_client = if conflicts.len() > 0 {
            Some(clone_string(&conflicts[0].remote_client_id))
        } else {
            None
        };
        assert(conflict_views(conflicts@).len() == conflicts@.len());
        let ghost bh = str_views(msg.block_hashes@);
        let ghost s1 = self@;
        let mut k: usize = 0;
        while k < msg.block_hashes.len()
            invariant
                k <= msg.block_hashes.len(),
                bh == str_views(msg.block_hashes@),
                self@.file_owners == s0.file_owners,
                self@.clients == s0.clients,
                self@.graphs == s1.graphs,
                self@.shutdown == s0.shutdown,
                server_wf(s0),
                store_wf(s1.graphs),
                index_wf(owner_views(self.block_index@)),
                owner_views(self.block_index@) == add_owners(s0.block_index, bh, msg.client_id@, k as nat),
            decreases msg.block_hashes.len() - k,
        {
            assert(bh[k as int] == msg.block_hashes@[k as int]@);
            record_owner(&mut self.block_index, &msg.block_hashes[k], &msg.client_id);
            k += 1;
        }
        record_owner(&mut self.file_owners, &msg.file_path, &msg.client_id);
        match session_client {
            Some(cid) => {
                let i = self.find_client(cid);
                proof {
                    lemma_first_where_bounds(self@.clients, client_pred(cid@));
                }
                if i < self.clients.len() {
                    let vc = self.clients[i].version_count;
                    let nv = if vc == u64::MAX { 0 } else { vc + 1 };
                    let ghost before = self.clients@;
                    self.clients[i].version_count = nv;
                    assert(client_views(self.clients@) =~= client_views(before).update(
                        i as int,
                        ClientView { version_count: bump(vc), ..client_views(before)[i as int] },
                    ));
                }
            },
            None => {},
        }
        VersionPublished { success: true, conflict_detected, conflicting_client }
    }

    /// The version graph of the requested file: every node in order (without
    /// ids), whether it has more than one head, and the client and time of
    /// the last-writer-wins head; with no graph, or no head, an empty client
    /// id and time `now`.
    pub fn version_graph_response(&self, msg: &RequestVersionGraph, now: i64) -> (r: VersionGraphResponse)
        ensures
            graph_reply_ok(self@, *msg, now, r),
    {
        let i = self.version_graphs.find_graph_index(msg.file_path.as_str());
        proof {
            lemma_first_where_bounds(self@.graphs, path_pred(msg.file_path@));
        }
        if i < self.version_graphs.graphs.len() {
            let g: &VersionGraph = &self.version_graphs.graphs[i];
            let ghost gv = g@;
            let mut nodes: Vec<RemoteVersionNode> = Vec::new();
            let mut k: usize = 0;
            while k < g.nodes.len()
                invariant
                    k <= g.nodes.len(),
                    gv == g@,
                    remote_views(nodes@) == gv.nodes.take(k as int).map_values(|n: NodeView| remote_of(n)),
                decreases g.nodes.len() - k,
            {
                let n = &g.nodes[k];
                let rn = RemoteVersionNode {
                    client_id: clone_string(&n.client_id),
                    version_number: n.version_number,
                    content_hash: clone_string(&n.content_hash),
                    timestamp: n.timestamp,
                    file_size: n.file_size,
                    parent_hash: match &n.parent_hash {
                        Some(p) => Some(clone_string(p)),
                        None => None,
                    },
                    block_hashes: clone_strings(&n.block_hashes),
                };
                let ghost before = nodes@;
                nodes.push(rn);
                assert(remote_views(nodes@) =~= remote_views(before).push(rn@));
                assert(gv.nodes.take(k + 1 as int) =~= gv.nodes.take(k as int).push(gv.nodes[k as int]));
                assert(gv.nodes.take(k + 1 as int).map_values(|n: NodeView| remote_of(n)) =~= gv.nodes.take(
                    k as int,
                ).map_values(|n: NodeView| remote_of(n)).push(remote_of(gv.nodes[k as int])));
                k += 1;
            }
            assert(gv.nodes.take(g.nodes.len() as int) == gv.nodes);
            let has_conflict = g.heads.len() > 1;
            let (latest_client_id, latest_timestamp) = match g.resolve_conflict_lww() {
                Some(n) => (clone_string(&n.client_id), n.timestamp),
                None => (String::new(), now),
            };
            VersionGraphResponse {
                file_path: clone_string(&msg.file_path),
                nodes,
                has_conflict,
                latest_client_id,
                latest_timestamp,
            }
        } else {
            VersionGraphResponse {
                file_path: clone_string(&msg.file_path),
                nodes: Vec::new(),
                has_conflict: false,
                latest_client_id: String::new(),
                latest_timestamp: now,
            }
        }
    }

    fn owners_in<'a>(idx: &'a Vec<(String, Vec<String>)>, key: &String) -> (r: Option<&'a Vec<String>>)
        ensures
            match r {
                Some(v) => has_entry(owner_views(idx@), key@) && str_views(v@) == owners_of(
                    owner_views(idx@),
                    key@,
                ),
                None => !has_entry(owner_views(idx@), key@) && owners_of(owner_views(idx@), key@).len() == 0,
            },
    {
        let ghost iv = owner_views(idx@);
        let mut i: usize = 0;
        while i < idx.len() && !(idx[i].0 == *key)
            invariant
                i <= idx.len(),
                iv == owner_views(idx@),
                forall|j: int| 0 <= j < i ==> !entry_pred(key@)(#[trigger] iv[j]),
            decreases idx.len() - i,
        {
            i += 1;
        }
        proof {
            lemma_first_where(iv, entry_pred(key@), i as int);
        }
        if i < idx.len() {
            Some(&idx[i].1)
        } else {
            None
        }
    }

    /// The registered clients among the holders of the requested file, as
    /// peers, in the order they came to hold it.
    pub fn peers_for(&self, msg: &RequestPeers) -> (r: PeerList)
        ensures
            peers_reply_ok(self@, *msg, r),
    {
        let ghost owners = owners_of(self@.file_owners, msg.file_path@);
        let mut peers: Vec<PeerInfo> = Vec::new();
        assert(peer_views(peers@) =~= Seq::<PeerView>::empty());
        match Self::owners_in(&self.file_owners, &msg.file_path) {
            Some(ow) => {
                let mut k: usize = 0;
                while k < ow.len()
                    invariant
                        k <= ow.len(),
                        owners == str_views(ow@),
                        peer_views(peers@) == peers_of(owners, self@.clients, k as nat),
                    decreases ow.len() - k,
                {
                    let i = self.find_client(&ow[k]);
                    proof {
                        lemma_first_where_bounds(self@.clients, client_pred(ow@[k as int]@));
                        assert(owners[k as int] == ow@[k as int]@);
                    }
                    if i < self.clients.len() {
                        let c = &self.clients[i];
                        #[verifier::truncate]
                        let vc = c.version_count as i64;
                        let p = PeerInfo {
                            client_id: clone_string(&c.client_id),
                            hostname: clone_string(&c.hostname),
                            address: clone_string(&c.address),
                            listen_port: c.listen_port,
                            version_count: vc,
                        };
                        let ghost before = peers@;
                        peers.push(p);
                        assert(peer_views(peers@) =~= peer_views(before).push(p@));
                    }
                    k += 1;
                }
            },
            None => {},
        }
        PeerList { peers }
    }

    /// Records the heartbeat time of a registered client.
    pub fn heartbeat(&mut self, msg: &Heartbeat)
        requires
            old(self).wf(),
        ensures
            final(self).wf(),
            final(self)@ == with_clients(old(self)@, beat(old(self)@.clients, msg.client_id@, msg.timestamp)),
    {
        let i = self.find_client(&msg.client_id);
        proof {
            lemma_first_where_bounds(self@.clients, client_pred(msg.client_id@));
        }
        if i < self.clients.len() {
            let ghost before = self.clients@;
            self.clients[i].last_heartbeat = msg.timestamp;
            assert(client_views(self.clients@) =~= client_views(before).update(
                i as int,
                ClientView { last_heartbeat: msg.timestamp, ..client_views(before)[i as int] },
            ));
        }
    }

    /// Answers a pull: for each asked hash whose first holder is registered,
    /// a block marked not found (the server holds no block data), in asked
    /// order; `remaining` counts the other hashes.
    pub fn pull_missing_blocks(&self, msg: &PullMissingBlocks) -> (r: PullMissingBlocksResponse)
        ensures
            pull_reply_ok(self@, *msg, r),
    {
        let ghost hs = str_views(msg.missing_hashes@);
        let mut blocks: Vec<BlockResponse> = Vec::new();
        let mut k: usize = 0;
        assert(block_views(blocks@) =~= Seq::<BlockView>::empty());
        while k < msg.missing_hashes.len()
            invariant
                k <= msg.missing_hashes.len(),
                hs == str_views(msg.missing_hashes@),
                block_views(blocks@) == servable(hs, self@.block_index, self@.clients, k as nat).map_values(
                    |h: Seq<char>| unserved(h),
                ),
                servable(hs, self@.block_index, self@.clients, k as nat).len() <= k,
            decreases msg.missing_hashes.len() - k,
        {
            let h = &msg.missing_hashes[k];
            assert(hs[k as int] == h@);
            let ghost q = servable(hs, self@.block_index, self@.clients, k as nat);
            let mut serve = false;
            match Self::owners_in(&self.block_index, h) {
                Some(owners) => {
                    if owners.len() > 0 {
                        let i = self.find_client(&owners[0]);
                        proof {
                            lemma_first_where_bounds(self@.clients, client_pred(owners@[0]@));
                            assert(str_views(owners@)[0] == owners@[0]@);
                        }
                        serve = i < self.clients.len();
                    }
                },
                None => {},
            }
            if serve {
                let b = BlockResponse { block_hash: clone_string(h), data: Vec::new(), found: false };
                let ghost before = blocks@;
                blocks.push(b);
                assert(block_views(blocks@) =~= block_views(before).push(b@));
                assert(b@ == unserved(h@));
                assert(q.push(h@).map_values(|x: Seq<char>| unserved(x)) =~= q.map_values(
                    |x: Seq<char>| unserved(x),
                ).push(unserved(h@)));
            }
            k += 1;
        }
        let remaining = msg.missing_hashes.len() - blocks.len();
        PullMissingBlocksResponse { blocks, remaining }
    }

    /// Removes a client's registration, if it has one.
    pub fn unregister(&mut self, client_id: &String)
        requires
            old(self).wf(),
        ensures
            final(self).wf(),
            final(self)@ == with_clients(old(self)@, remove_client(old(self)@.clients, client_id@)),
    {
        let i = self.find_client(client_id);
        proof {
            lemma_first_where_bounds(self@.clients, client_pred(client_id@));
        }
        if i < self.clients.len() {
            let ghost before = self.clients@;
            self.clients.remove(i);
            assert(client_views(self.clients@) =~= client_views(before).remove(i as int));
        }
    }
}

/// The answer to a registration: the client's id, assigned id 1, and the
/// server version.
pub open spec fn registered_reply_ok(m: RegisterClient, r: ClientRegistered) -> bool {
    &&& r.client_id@ == m.client_id@
    &&& r.assigned_id == 1
    &&& r.server_version@ == server_version()
}

/// The answer to a published version: success, whether the version brought
/// conflicts, and the remote client of the first.
pub open spec fn published_reply_ok(s: ServerView, m: PublishVersion, r: VersionPublished) -> bool {
    let cs = store_publish(s.graphs, m.file_path@, published_node(m)).1;
    &&& r.success
    &&& r.conflict_detected == (cs.len() > 0)
    &&& opt_view(r.conflicting_client) == if cs.len() > 0 {
        Some(cs[0].remote_client_id)
    } else {
        None
    }
}

/// The answer to a graph request (see `version_graph_response`).
pub open spec fn graph_reply_ok(s: ServerView, m: RequestVersionGraph, now: i64, r: VersionGraphResponse) -> bool {
    &&& r.file_path@ == m.file_path@
    &&& match graph_of(s.graphs, m.file_path@) {
        Some(g) => {
            &&& remote_views(r.nodes@) == g.nodes.map_values(|n: NodeView| remote_of(n))
            &&& r.has_conflict == (g.heads.len() > 1)
            &&& match lww_pick(head_nodes(g.nodes, g.heads)) {
                Some(n) => r.latest_client_id@ == n.client_id && r.latest_timestamp == n.timestamp,
                None => r.latest_client_id@.len() == 0 && r.latest_timestamp == now,
            }
        },
        None => r.nodes@.len() == 0 && !r.has_conflict && r.latest_client_id@.len() == 0
            && r.latest_timestamp == now,
    }
}

/// The answer to a peers request (see `peers_for`).
pub open spec fn peers_reply_ok(s: ServerView, m: RequestPeers, r: PeerList) -> bool {
    let owners = owners_of(s.file_owners, m.file_path@);
    peer_views(r.peers@) == peers_of(owners, s.clients, owners.len())
}

/// The answer to a pull (see `pull_missing_blocks`).
pub open spec fn pull_reply_ok(s: ServerView, m: PullMissingBlocks, r: PullMissingBlocksResponse) -> bool {
    let hs = str_views(m.missing_hashes@);
    let q = servable(hs, s.block_index, s.clients, hs.len());
    &&& block_views(r.blocks@) == q.map_values(|h: Seq<char>| unserved(h))
    &&& r.remaining == hs.len() - q.len()
}

/// A request from a connected client, its body decoded.
pub enum ClientRequest {
    Register(RegisterClient),
    Publish(PublishVersion),
    GraphRequest(RequestVersionGraph),
    Peers(RequestPeers),
    Beat(Heartbeat),
    Pull(PullMissingBlocks),
    /// A message of a kind the server does not handle.
    Unhandled(MessageType),
}

/// The server's answer to a request, to be encoded and sent.
pub enum ServerReply {
    Registered(ClientRegistered),
    Published(VersionPublished),
    Graph(VersionGraphResponse),
    Peers(PeerList),
    Blocks(PullMissingBlocksResponse),
}

/// What the server remembers of one connection: the client it registered.
pub struct ClientSession {
    pub registered_client_id: Option<String>,
}

impl ClientSession {
    /// A connection that has registered no client yet.
    pub fn new() -> (s: Self)
        ensures
            s.registered_client_id is None,
    {
        ClientSession { registered_client_id: None }
    }
}

impl IndexServer {
    /// Handles one request of a connection from `address` at time `now`:
    /// a registration registers the client and remembers it for the
    /// connection; a published version is added (counted for the remembered
    /// client); a heartbeat is recorded; graph, peer and block requests are
    /// answered from the state; other kinds get no answer.
    pub fn handle_request(
        &mut self,
        session: &mut ClientSession,
        req: ClientRequest,
        address: &str,
        now: i64,
    ) -> (r: Option<ServerReply>)
        requires
            old(self).wf(),
        ensures
            final(self).wf(),
            match req {
                ClientRequest::Register(m) => {
                    &&& final(self)@ == with_clients(
                        old(self)@,
                        upsert_client(old(self)@.clients, registered_entry(m, address@, now)),
                    )
                    &&& opt_view(final(session).registered_client_id) == Some(m.client_id@)
                    &&& r matches Some(ServerReply::Registered(c)) && registered_reply_ok(m, c)
                },
                ClientRequest::Publish(m) => {
                    &&& final(self)@ == publish_state(
                        old(self)@,
                        m,
                        opt_view(old(session).registered_client_id),
                    )
                    &&& opt_view(final(session).registered_client_id) == opt_view(
                        old(session).registered_client_id,
                    )
                    &&& r matches Some(ServerReply::Published(p)) && published_reply_ok(old(self)@, m, p)
                },
                ClientRequest::GraphRequest(m) => {
                    &&& final(self)@ == old(self)@
                    &&& opt_view(final(session).registered_client_id) == opt_view(
                        old(session).registered_client_id,
                    )
                    &&& r matches Some(ServerReply::Graph(g)) && graph_reply_ok(old(self)@, m, now, g)
                },
                ClientRequest::Peers(m) => {
                    &&& final(self)@ == old(self)@
                    &&& opt_view(final(session).registered_client_id) == opt_view(
                        old(session).registered_client_id,
                    )
                    &&& r matches Some(ServerReply::Peers(p)) && peers_reply_ok(old(self)@, m, p)
                },
                ClientRequest::Beat(m) => {
                    &&& final(self)@ == with_clients(
                        old(self)@,
                        beat(old(self)@.clients, m.client_id@, m.timestamp),
                    )
                    &&& opt_view(final(session).registered_client_id) == opt_view(
                        old(session).registered_client_id,
                    )
                    &&& r is None
                },
                ClientRequest::Pull(m) => {
                    &&& final(self)@ == old(self)@
                    &&& opt_view(final(session).registered_client_id) == opt_view(
                        old(session).registered_client_id,
                    )
                    &&& r matches Some(ServerReply::Blocks(b)) && pull_reply_ok(old(self)@, m, b)
                },
                ClientRequest::Unhandled(_) => {
                    &&& final(self)@ == old(self)@
                    &&& opt_view(final(session).registered_client_id) == opt_view(
                        old(session).registered_client_id,
                    )
                    &&& r is None
                },
            },
    {
        match req {
            ClientRequest::Register(m) => {
                let cid = clone_string(&m.client_id);
                let reply = self.register_client(m, address, now);
                session.registered_client_id = Some(cid);
                Some(ServerReply::Registered(reply))
            },
            ClientRequest::Publish(m) => {
                let reply = self.publish_version(m, session.registered_client_id.as_ref());
                Some(ServerReply::Published(reply))
            },
            ClientRequest::GraphRequest(m) => Some(ServerReply::Graph(self.version_graph_response(&m, now))),
            ClientRequest::Peers(m) => Some(ServerReply::Peers(self.peers_for(&m))),
            ClientRequest::Beat(m) => {
                self.heartbeat(&m);
                None
            },
            ClientRequest::Pull(m) => Some(ServerReply::Blocks(self.pull_missing_blocks(&m))),
            ClientRequest::Unhandled(_) => None,
        }
    }

    /// Ends a connection: the client it registered, if any, is removed.
    pub fn end_session(&mut self, session: ClientSession)
        requires
            old(self).wf(),
        ensures
            final(self).wf(),
            match session.registered_client_id {
                Some(id) => final(self)@ == with_clients(old(self)@, remove_client(old(self)@.clients, id@)),
                None => final(self)@ == old(self)@,
            },
    {
        match &session.registered_client_id {
            Some(id) => self.unregister(id),
            None => {},
        }
    }
}

pub open spec fn opt_ref_view(o: Option<&String>) -> Option<Seq<char>> {
    match o {
        Some(s) => Some(s@),
        None => None,
    }
}


// ---------------------------------------------------------------------------
// Laws
// ---------------------------------------------------------------------------

/// A registration is read back: afterwards the client's entry is the one
/// just written.
pub proof fn lemma_register_then_lookup(cs: Seq<ClientView>, e: ClientView)
    ensures
        client_of(upsert_client(cs, e), e.client_id) == Some(e),
{
    let p = client_pred(e.client_id);
    let r = upsert_client(cs, e);
    lemma_first_where_bounds(cs, p);
    let i = first_where(cs, p);
    if i < cs.len() {
        assert forall|k: int| 0 <= k < i implies !p(#[trigger] r[k]) by {
            assert(r[k] == cs[k]);
        }
        lemma_first_where(r, p, i);
    } else {
        assert forall|k: int| 0 <= k < cs.len() implies !p(#[trigger] r[k]) by {
            assert(r[k] == cs[k]);
        }
        lemma_first_where(r, p, cs.len() as int);
    }
}

/// An unregistered client is gone, when client ids occur once.
pub proof fn lemma_unregister_removes(cs: Seq<ClientView>, id: Seq<char>)
    requires
        forall|i: int, j: int| 0 <= i < j < cs.len() ==> #[trigger] cs[i].client_id != #[trigger] cs[j].client_id,
    ensures
        client_of(remove_client(cs, id), id) is None,
{
    let p = client_pred(id);
    let r = remove_client(cs, id);
    lemma_first_where_bounds(cs, p);
    let i = first_where(cs, p);
    if i < cs.len() {
        assert forall|k: int| 0 <= k < r.len() implies !p(#[trigger] r[k]) by {
            if k < i {
                assert(r[k] == cs[k]);
            } else {
                assert(r[k] == cs[k + 1]);
                assert(cs[i].client_id != cs[k + 1].client_id);
            }
        }
    }
    lemma_first_where(r, p, r.len() as int);
}

/// Recording a holder of a key is read back: afterwards the key's holders
/// include it, and the holders of every other key are unchanged.
pub proof fn lemma_add_owner_records(idx: OwnerIndex, k: Seq<char>, owner: Seq<char>, other: Seq<char>)
    ensures
        owners_of(add_owner(idx, k, owner), k).contains(owner),
        other != k ==> owners_of(add_owner(idx, k, owner), other) == owners_of(idx, other),
{
    let p = entry_pred(k);
    let r = add_owner(idx, k, owner);
    lemma_first_where_bounds(idx, p);
    lemma_first_where_bounds(idx, entry_pred(other));
    let i = first_where(idx, p);
    let j = first_where(idx, entry_pred(other));
    if i < idx.len() {
        assert forall|m: int| 0 <= m < i implies !p(#[trigger] r[m]) by {
            assert(r[m] == idx[m]);
        }
        lemma_first_where(r, p, i);
        let hs = idx[i].1;
        if !hs.contains(owner) {
            assert(add_once(hs, owner)[hs.len() as int] == owner);
        }
        if other != k {
            assert forall|m: int| 0 <= m < j implies !entry_pred(other)(#[trigger] r[m]) by {
                if m != i {
                    assert(r[m] == idx[m]);
                }
            }
            if j < idx.len() {
                assert(j != i);
                assert(r[j] == idx[j]);
            }
            lemma_first_where(r, entry_pred(other), j);
        }
    } else {
        assert forall|m: int| 0 <= m < idx.len() implies !p(#[trigger] r[m]) by {
            assert(r[m] == idx[m]);
        }
        lemma_first_where(r, p, idx.len() as int);
        assert(r[idx.len() as int].1[0] == owner);
        if other != k {
            assert forall|m: int| 0 <= m < j implies !entry_pred(other)(#[trigger] r[m]) by {
                assert(r[m] == idx[m]);
            }
            if j < idx.len() {
                assert(r[j] == idx[j]);
                lemma_first_where(r, entry_pred(other), j);
            } else {
                assert(!entry_pred(other)(r[idx.len() as int]));
                lemma_first_where(r, entry_pred(other), r.len() as int);
            }
        }
    }
}


proof fn lemma_client_of_id(cs: Seq<ClientView>, id: Seq<char>)
    ensures
        client_of(cs, id) matches Some(c) ==> c.client_id == id && cs.contains(c),
{
    lemma_first_where_bounds(cs, client_pred(id));
}

/// Each peer of a peers reply is a registered holder of the file as its
/// entry reads: it is the entry of one of the holders, with the same id, host
/// name, address and port, and it carries the entry's count of published
/// versions (read as an `i64`); there is at most one peer per holder.
pub proof fn lemma_peers_are_entries(owners: Seq<Seq<char>>, cs: Seq<ClientView>, n: nat)
    ensures
        peers_of(owners, cs, n).len() <= n,
        forall|j: int|
            0 <= j < peers_of(owners, cs, n).len() ==> {
                let p = #[trigger] peers_of(owners, cs, n)[j];
                &&& owners.contains(p.client_id)
                &&& client_of(cs, p.client_id) matches Some(c) && p.client_id == c.client_id && p.hostname
                    == c.hostname && p.address == c.address && p.listen_port == c.listen_port && p.version_count
                    == c.version_count as i64
            },
    decreases n,
{
    if n > 0 && n <= owners.len() {
        lemma_peers_are_entries(owners, cs, (n - 1) as nat);
        let prev = peers_of(owners, cs, (n - 1) as nat);
        let o = owners[n - 1];
        lemma_client_of_id(cs, o);
        assert(owners.contains(o));
        match client_of(cs, o) {
            Some(c) => {
                let r = peers_of(owners, cs, n);
                assert(r == prev.push(peer_of(c)));
                assert forall|j: int| 0 <= j < r.len() implies {
                    let p = #[trigger] r[j];
                    &&& owners.contains(p.client_id)
                    &&& client_of(cs, p.client_id) matches Some(c) && p.client_id == c.client_id && p.hostname
                        == c.hostname && p.address == c.address && p.listen_port == c.listen_port
                        && p.version_count == c.version_count as i64
                } by {
                    if j < prev.len() {
                        assert(r[j] == prev[j]);
                    } else {
                        assert(r[j] == peer_of(c));
                        assert(c.client_id == o);
                    }
                }
            },
            None => {},
        }
    }
}

/// Publishing in a registered session counts one more version for that
/// session's client (its count wraps at `u64::MAX`) and leaves the other
/// entries alone.
pub proof fn lemma_publish_counts_version(s: ServerView, m: PublishVersion, id: Seq<char>)
    requires
        client_of(s.clients, id) is Some,
    ensures
        client_of(publish_state(s, m, Some(id)).clients, id) matches Some(c) && c.version_count == (if client_of(
            s.clients,
            id,
        ).unwrap().version_count == u64::MAX {
            0
        } else {
            client_of(s.clients, id).unwrap().version_count + 1
        }),
        forall|other: Seq<char>|
            other != id ==> #[trigger] client_of(publish_state(s, m, Some(id)).clients, other) == client_of(
                s.clients,
                other,
            ),
{
    let cs = s.clients;
    let r = publish_state(s, m, Some(id)).clients;
    lemma_first_where_bounds(cs, client_pred(id));
    let i = first_where(cs, client_pred(id));
    assert(r.len() == cs.len());
    assert forall|k: int| 0 <= k < i implies !client_pred(id)(#[trigger] r[k]) by {
        assert(r[k] == cs[k]);
    }
    lemma_first_where(r, client_pred(id), i);
    assert forall|other: Seq<char>| other != id implies #[trigger] client_of(r, other) == client_of(cs, other) by {
        lemma_first_where_bounds(cs, client_pred(other));
        let j = first_where(cs, client_pred(other));
        assert(j != i);
        assert forall|k: int| 0 <= k < j implies !client_pred(other)(#[trigger] r[k]) by {
            if k != i {
                assert(r[k] == cs[k]);
            }
        }
        if j < cs.len() {
            assert(r[j] == cs[j]);
        }
        lemma_first_where(r, client_pred(other), j);
    }
}

/// A published version is read back: afterwards the graph of its file holds
/// it, under the id `client:version`, with the fields it was published with.
pub proof fn lemma_publish_then_graph(s: ServerView, m: PublishVersion, session_client: Option<Seq<char>>)
    requires
        server_wf(s),
    ensures
        graph_of(publish_state(s, m, session_client).graphs, m.file_path@) matches Some(g)
            && node_with_id(g.nodes, node_id_of(m.client_id@, m.version_number)) == Some(published_node(m)),
{
    lemma_publish_stores(s.graphs, m.file_path@, published_node(m));
}

} // verus!
