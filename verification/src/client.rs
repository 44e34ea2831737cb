//! A sync client's state and the decisions it makes between network
//! exchanges: what it registers and publishes, how it merges a remote
//! version graph, which blocks it asks for, and how it keeps its counters.
//! The exchanges themselves run outside.

use vstd::prelude::*;
use crate::seqs::{str_views, keep, lemma_str_views_push, lemma_keep_step, first_where, lemma_first_where, lemma_first_where_bounds};
use crate::text::{push_char, push_chars, push_decimal, decimal, chars_of};
use crate::version_graph::{
    VersionGraphStore, VersionGraph, VersionNode, ConflictInfo, ConflictView, NodeView, GraphView,
    conflict_views, store_publish, node_id_of, opt_view, head_nodes, lww_pick, not_in,
};
use crate::protocol::{
    RegisterClient, PublishVersion, RemoteVersionNode, PullMissingBlocks, PullMissingBlocksResponse,
    PeerInfo, PeerList, ConflictAlert, MessageType, RequestBlock, BlockResponse,
};
use crate::server::{
    RemoteView, remote_views, PeerView, peer_views, BlockView, block_views, bump,
};

verus! {

broadcast use vstd::string::group_string_axioms;

/// Counters of a client's synchronisation. `last_sync_time` is in
/// nanoseconds since the Unix epoch.
#[derive(Debug, Clone, Copy)]
pub struct SyncStats {
    pub files_synced: u64,
    pub blocks_transferred: u64,
    pub bytes_transferred: u64,
    pub conflicts_detected: u64,
    pub conflicts_resolved: u64,
    pub last_sync_time: Option<i64>,
    pub connected_clients: u64,
    pub is_server_mode: bool,
}

impl Default for SyncStats {
    /// All counters zero, no sync yet, not a server.
    fn default() -> (s: Self)
        ensures
            s.files_synced == 0,
            s.blocks_transferred == 0,
            s.bytes_transferred == 0,
            s.conflicts_detected == 0,
            s.conflicts_resolved == 0,
            s.last_sync_time is None,
            s.connected_clients == 0,
            !s.is_server_mode,
    {
        SyncStats {
            files_synced: 0,
            blocks_transferred: 0,
            bytes_transferred: 0,
            conflicts_detected: 0,
            conflicts_resolved: 0,
            last_sync_time: None,
            connected_clients: 0,
            is_server_mode: false,
        }
    }
}

/// What one pull brought.
#[derive(Debug, Clone, Copy)]
pub struct SyncResult {
    pub versions_pulled: u64,
    pub blocks_pulled: u64,
    pub bytes_pulled: u64,
    pub conflicts_found: u64,
}

/// Why a client operation failed.
#[derive(Debug, Clone, Copy, PartialEq, Eq, Structural)]
pub enum SyncError {
    NotConnected,
}

/// The sync client's state.
pub struct SyncClient {
    pub client_id: String,
    pub hostname: String,
    pub server_addr: Option<String>,
    pub is_connected: bool,
    pub is_syncing: bool,
    pub sync_stats: SyncStats,
    pub conflicts: Vec<ConflictInfo>,
    pub version_graph_store: VersionGraphStore,
    pub known_peers: Vec<PeerInfo>,
    pub pending_blocks: Vec<(String, Vec<u8>)>,
    pub p2p_port: Option<u16>,
    pub watch_path: String,
}

/// A fresh client id. Calls `uuid::Uuid::new_v4` and formats it with
/// `to_string`; the id is random, and the contract claims only what the
/// hyphenated format of `uuid` fixes: 36 characters with hyphens at 8, 13,
/// 18 and 23.
#[verifier::external_body]
fn new_client_id() -> (id: String)
    ensures
        id@.len() == 36,
        id@[8] == '-' && id@[13] == '-' && id@[18] == '-' && id@[23] == '-',
{
    uuid::Uuid::new_v4().to_string()
}

fn clone_string(s: &String) -> (r: String)
    ensures
        r@ == s@,
{
    s.clone()
}

fn clone_strings(v: &Vec<String>) -> (r: Vec<String>)
    ensures
        str_views(r@) == str_views(v@),
{
    let mut r: Vec<String> = Vec::new();
    let mut i: usize = 0;
    while i < v.len()
        invariant
            i <= v.len(),
            str_views(r@) == str_views(v@).take(i as int),
        decreases v.len() - i,
    {
        let ghost before = r@;
        let c = clone_string(&v[i]);
        r.push(c);
        proof {
            lemma_str_views_push(before, c);
        }
        i += 1;
        assert(str_views(r@) =~= str_views(v@).take(i as int));
    }
    assert(str_views(v@).take(v.len() as int) =~= str_views(v@));
    r
}

fn copy_peer(p: &PeerInfo) -> (r: PeerInfo)
    ensures
        r@ == p@,
{
    PeerInfo {
        client_id: clone_string(&p.client_id),
        hostname: clone_string(&p.hostname),
        address: clone_string(&p.address),
        listen_port: p.listen_port,
        version_count: p.version_count,
    }
}

/// `a + b` modulo 2^64, as `u64` addition wraps.
pub open spec fn wrap_add(a: u64, b: u64) -> u64 {
    ((a + b) % 0x1_0000_0000_0000_0000) as u64
}

fn add_wrapping(a: u64, b: u64) -> (r: u64)
    ensures
        r == wrap_add(a, b),
{
    if a <= u64::MAX - b {
        a + b
    } else {
        b - (u64::MAX - a) - 1
    }
}

fn bump_exec(n: u64) -> (r: u64)
    ensures
        r == bump(n),
{
    if n == u64::MAX {
        0
    } else {
        n + 1
    }
}

/// The node that a node of a remote graph becomes locally.
pub open spec fn node_of_remote(r: RemoteView) -> NodeView {
    NodeView {
        node_id: node_id_of(r.client_id, r.version_number),
        client_id: r.client_id,
        version_number: r.version_number,
        content_hash: r.content_hash,
        timestamp: r.timestamp,
        file_size: r.file_size,
        parent_hash: r.parent_hash,
        block_hashes: r.block_hashes,
    }
}

/// The store and the conflicts after publishing the first `n` remote nodes,
/// in order, into the graph of `fp` of an empty store.
pub open spec fn merged(fp: Seq<char>, ns: Seq<RemoteView>, n: nat) -> (Seq<GraphView>, Seq<ConflictView>)
    decreases n,
{
    if n == 0 || n > ns.len() {
        (Seq::empty(), Seq::empty())
    } else {
        let prev = merged(fp, ns, (n - 1) as nat);
        let step = store_publish(prev.0, fp, node_of_remote(ns[n - 1]));
        (step.0, prev.1 + step.1)
    }
}

/// The number of blocks of a pull answer that came with data, and the bytes
/// they hold, both counted modulo 2^64.
pub open spec fn pulled_tally(bs: Seq<BlockView>, n: nat) -> (u64, u64)
    decreases n,
{
    if n == 0 || n > bs.len() {
        (0, 0)
    } else {
        let prev = pulled_tally(bs, (n - 1) as nat);
        let b = bs[n - 1];
        if b.found && b.data.len() > 0 {
            (bump(prev.0), wrap_add(prev.1, (b.data.len() % 0x1_0000_0000_0000_0000) as u64))
        } else {
            prev
        }
    }
}

/// A message from the server to a connected client, its body decoded.
pub enum ServerMessage {
    Peers(PeerList),
    Alert(ConflictAlert),
    /// A message of a kind the client ignores.
    Other(MessageType),
}

impl SyncClient {
    /// A client for `hostname` with a fresh id, not connected, with no
    /// conflicts, peers, pending blocks, listener port or watched path.
    pub fn new(hostname: String) -> (c: Self)
        ensures
            c.client_id@.len() == 36,
            c.client_id@[8] == '-' && c.client_id@[13] == '-' && c.client_id@[18] == '-'
                && c.client_id@[23] == '-',
            c.hostname@ == hostname@,
            c.server_addr is None,
            !c.is_connected,
            !c.is_syncing,
            c.sync_stats.files_synced == 0 && c.sync_stats.blocks_transferred == 0
                && c.sync_stats.bytes_transferred == 0 && c.sync_stats.conflicts_detected == 0
                && c.sync_stats.conflicts_resolved == 0 && c.sync_stats.last_sync_time is None
                && c.sync_stats.connected_clients == 0 && !c.sync_stats.is_server_mode,
            c.conflicts@.len() == 0,
            c.version_graph_store.wf(),
            c.version_graph_store@.len() == 0,
            c.known_peers@.len() == 0,
            c.pending_blocks@.len() == 0,
            c.p2p_port is None,
            c.watch_path@.len() == 0,
    {
        SyncClient {
            client_id: new_client_id(),
            hostname,
            server_addr: None,
            is_connected: false,
            is_syncing: false,
            sync_stats: SyncStats::default(),
            conflicts: Vec::new(),
            version_graph_store: VersionGraphStore::new(),
            known_peers: Vec::new(),
            pending_blocks: Vec::new(),
            p2p_port: None,
            watch_path: String::new(),
        }
    }

    /// The counters.
    pub fn get_sync_stats(&self) -> (s: SyncStats)
        ensures
            s == self.sync_stats,
    {
        self.sync_stats
    }

    /// A copy of the conflicts found so far.
    pub fn get_conflicts(&self) -> (r: Vec<ConflictInfo>)
        ensures
            conflict_views(r@) == conflict_views(self.conflicts@),
    {
        let mut r: Vec<ConflictInfo> = Vec::new();
        let mut i: usize = 0;
        while i < self.conflicts.len()
            invariant
                i <= self.conflicts.len(),
                conflict_views(r@) == conflict_views(self.conflicts@).take(i as int),
            decreases self.conflicts.len() - i,
        {
            let c = self.conflicts[i].duplicate();
            let ghost before = r@;
            r.push(c);
            assert(conflict_views(r@) =~= conflict_views(before).push(c@));
            assert(conflict_views(r@) =~= conflict_views(self.conflicts@).take(i + 1 as int));
            i += 1;
        }
        assert(conflict_views(self.conflicts@).take(self.conflicts.len() as int) =~= conflict_views(
            self.conflicts@,
        ));
        r
    }

    /// A copy of the peers the server last announced.
    pub fn get_connected_peers(&self) -> (r: Vec<PeerInfo>)
        ensures
            peer_views(r@) == peer_views(self.known_peers@),
    {
        let mut r: Vec<PeerInfo> = Vec::new();
        let mut i: usize = 0;
        while i < self.known_peers.len()
            invariant
                i <= self.known_peers.len(),
                peer_views(r@) == peer_views(self.known_peers@).take(i as int),
            decreases self.known_peers.len() - i,
        {
            let p = copy_peer(&self.known_peers[i]);
            let ghost before = r@;
            r.push(p);
            assert(peer_views(r@) =~= peer_views(before).push(p@));
            assert(peer_views(r@) =~= peer_views(self.known_peers@).take(i + 1 as int));
            i += 1;
        }
        assert(peer_views(self.known_peers@).take(self.known_peers.len() as int) =~= peer_views(
            self.known_peers@,
        ));
        r
    }

    /// Drops the conflicts on `file_path`, whichever side is chosen, and
    /// counts one more resolution.
    pub fn resolve_conflict_locally(&mut self, file_path: &str, choose_local: bool) -> (r: Result<
        (),
        SyncError,
    >)
        ensures
            r is Ok,
            conflict_views(final(self).conflicts@) == keep(
                conflict_views(old(self).conflicts@),
                other_file(file_path@),
            ),
            final(self).sync_stats == (SyncStats {
                conflicts_resolved: bump(old(self).sync_stats.conflicts_resolved),
                ..old(self).sync_stats
            }),
            final(self).client_id == old(self).client_id,
            final(self).known_peers == old(self).known_peers,
            final(self).version_graph_store == old(self).version_graph_store,
    {
        let path = file_path.to_owned();
        let ghost cv = conflict_views(self.conflicts@);
        let ghost p = other_file(file_path@);
        let mut kept: Vec<ConflictInfo> = Vec::new();
        let mut i: usize = 0;
        assert(conflict_views(kept@) =~= Seq::<ConflictView>::empty());
        while i < self.conflicts.len()
            invariant
                i <= self.conflicts.len(),
                path@ == file_path@,
                cv == conflict_views(self.conflicts@),
                p == other_file(file_path@),
                conflict_views(kept@) == keep(cv.take(i as int), p),
            decreases self.conflicts.len() - i,
        {
            proof {
                lemma_keep_step(cv, p, i as int);
            }
            if !(self.conflicts[i].file_path == path) {
                let c = self.conflicts[i].duplicate();
                let ghost before = kept@;
                kept.push(c);
                assert(conflict_views(kept@) =~= conflict_views(before).push(c@));
            }
            i += 1;
        }
        assert(cv.take(self.conflicts.len() as int) == cv);
        if choose_local {
            self.conflicts = kept;
        } else {
            self.conflicts = kept;
        }
        self.sync_stats.conflicts_resolved = bump_exec(self.sync_stats.conflicts_resolved);
        Ok(())
    }

    /// Takes in a message from the server: a peer list replaces the known
    /// peers and sets the connected-client count to its length; a conflict
    /// alert counts one more detected conflict; other messages change nothing.
    pub fn handle_server_message(&mut self, msg: ServerMessage)
        ensures
            match msg {
                ServerMessage::Peers(list) => {
                    &&& peer_views(final(self).known_peers@) == peer_views(list.peers@)
                    &&& final(self).sync_stats == (SyncStats {
                        connected_clients: list.peers@.len() as u64,
                        ..old(self).sync_stats
                    })
                },
                ServerMessage::Alert(_) => {
                    &&& final(self).known_peers == old(self).known_peers
                    &&& final(self).sync_stats == (SyncStats {
                        conflicts_detected: bump(old(self).sync_stats.conflicts_detected),
                        ..old(self).sync_stats
                    })
                },
                ServerMessage::Other(_) => {
                    &&& final(self).known_peers == old(self).known_peers
                    &&& final(self).sync_stats == old(self).sync_stats
                },
            },
            final(self).conflicts == old(self).conflicts,
            final(self).client_id == old(self).client_id,
    {
        match msg {
            ServerMessage::Peers(list) => {
                let n = list.peers.len() as u64;
                self.known_peers = list.peers;
                self.sync_stats.connected_clients = n;
            },
            ServerMessage::Alert(_) => {
                self.sync_stats.conflicts_detected = bump_exec(self.sync_stats.conflicts_detected);
            },
            ServerMessage::Other(_) => {},
        }
    }

    /// The registration this client sends: its id, host name, listener port
    /// (0 when it has none) and watched path.
    pub fn registration(&self) -> (r: RegisterClient)
        ensures
            r.client_id@ == self.client_id@,
            r.hostname@ == self.hostname@,
            r.listen_port == match self.p2p_port {
                Some(p) => p,
                None => 0,
            },
            r.watched_path@ == self.watch_path@,
    {
        RegisterClient {
            client_id: clone_string(&self.client_id),
            hostname: clone_string(&self.hostname),
            listen_port: match self.p2p_port {
                Some(p) => p,
                None => 0,
            },
            watched_path: clone_string(&self.watch_path),
        }
    }

    /// The announcement of one local version: the parent hash is the
    /// previous content hash from version 2 on, and none for version 1 (or
    /// below).
    pub fn publish_message(
        &self,
        file_path: &String,
        version_number: i64,
        content_hash: &String,
        prev_content_hash: &String,
        block_hashes: Vec<String>,
        timestamp: i64,
        file_size: i64,
    ) -> (m: PublishVersion)
        ensures
            m.client_id@ == self.client_id@,
            m.file_path@ == file_path@,
            m.version_number == version_number,
            m.content_hash@ == content_hash@,
            str_views(m.block_hashes@) == str_views(block_hashes@),
            m.timestamp == timestamp,
            m.file_size == file_size,
            opt_view(m.parent_hash) == if version_number > 1 {
                Some(prev_content_hash@)
            } else {
                None
            },
    {
        PublishVersion {
            client_id: clone_string(&self.client_id),
            file_path: clone_string(file_path),
            version_number,
            content_hash: clone_string(content_hash),
            block_hashes,
            timestamp,
            file_size,
            parent_hash: if version_number > 1 {
                Some(clone_string(prev_content_hash))
            } else {
                None
            },
        }
    }

    /// Builds the version graph of `file_path` from a remote graph's nodes,
    /// publishing them in order into a fresh store, keeps the conflicts found
    /// along the way, and returns the store and their number.
    pub fn merge_remote_graph(&mut self, file_path: &str, nodes: Vec<RemoteVersionNode>) -> (r: (
        VersionGraphStore,
        u64,
    ))
        ensures
            r.0.wf(),
            ({
                let m = merged(file_path@, remote_views(nodes@), nodes@.len());
                &&& r.0@ == m.0
                &&& conflict_views(final(self).conflicts@) == conflict_views(old(self).conflicts@) + m.1
                &&& r.1 == (m.1.len() % 0x1_0000_0000_0000_0000) as u64
            }),
            final(self).client_id == old(self).client_id,
            final(self).sync_stats == old(self).sync_stats,
    {
        let ghost rv = remote_views(nodes@);
        let mut store = VersionGraphStore::new();
        let mut found: u64 = 0;
        let ghost c0 = conflict_views(self.conflicts@);
        let mut k: usize = 0;
        assert(store@ =~= Seq::<GraphView>::empty());
        assert(c0 + Seq::<ConflictView>::empty() =~= c0);
        while k < nodes.len()
            invariant
                k <= nodes.len(),
                rv == remote_views(nodes@),
                store.wf(),
                store@ == merged(file_path@, rv, k as nat).0,
                conflict_views(self.conflicts@) == c0 + merged(file_path@, rv, k as nat).1,
                found == (merged(file_path@, rv, k as nat).1.len() % 0x1_0000_0000_0000_0000) as u64,
                self.client_id == old(self).client_id,
                self.sync_stats == old(self).sync_stats,
            decreases nodes.len() - k,
        {
            let n = &nodes[k];
            let vn = VersionNode::new(
                n.client_id.as_str(),
                n.version_number,
                n.content_hash.as_str(),
                n.timestamp,
                n.file_size,
                match &n.parent_hash {
                    Some(p) => Some(clone_string(p)),
                    None => None,
                },
                clone_strings(&n.block_hashes),
            );
            assert(vn@ == node_of_remote(rv[k as int]));
            let conflicts = store.publish_version(file_path, vn);
            let ghost added = conflict_views(conflicts@);
            let mut j: usize = 0;
            let ghost cb = conflict_views(self.conflicts@);
            while j < conflicts.len()
                invariant
                    j <= conflicts.len(),
                    added == conflict_views(conflicts@),
                    conflict_views(self.conflicts@) == cb + added.take(j as int),
                    found == ((merged(file_path@, rv, k as nat).1.len() + j) % 0x1_0000_0000_0000_0000) as u64,
                    self.client_id == old(self).client_id,
                    self.sync_stats == old(self).sync_stats,
                decreases conflicts.len() - j,
            {
                let c = conflicts[j].duplicate();
                let ghost before = self.conflicts@;
                self.conflicts.push(c);
                assert(conflict_views(self.conflicts@) =~= conflict_views(before).push(c@));
                assert(added.take(j + 1 as int) =~= added.take(j as int).push(added[j as int]));
                found = bump_exec(found);
                j += 1;
            }
            assert(added.take(conflicts.len() as int) == added);
            assert(cb + added =~= c0 + (merged(file_path@, rv, k as nat).1 + added));
            k += 1;
        }
        (store, found)
    }

    /// The request for the blocks of the graph's last-writer-wins head that
    /// `local_hashes` lacks; none when nothing is missing.
    pub fn pull_request(&self, graph: &VersionGraph, local_hashes: &Vec<String>) -> (r: Option<
        PullMissingBlocks,
    >)
        ensures
            ({
                let missing = match lww_pick(head_nodes(graph@.nodes, graph@.heads)) {
                    Some(n) => keep(n.block_hashes, not_in(str_views(local_hashes@))),
                    None => Seq::empty(),
                };
                match r {
                    Some(m) => m.client_id@ == self.client_id@ && str_views(m.missing_hashes@) == missing
                        && missing.len() > 0,
                    None => missing.len() == 0,
                }
            }),
    {
        let missing = graph.get_missing_blocks(local_hashes);
        if missing.len() == 0 {
            None
        } else {
            Some(PullMissingBlocks { client_id: clone_string(&self.client_id), missing_hashes: missing })
        }
    }

    /// Whether the graph's last-writer-wins head comes from another client.
    pub fn remote_is_latest(&self, graph: &VersionGraph) -> (b: bool)
        ensures
            b == match lww_pick(head_nodes(graph@.nodes, graph@.heads)) {
                Some(n) => n.client_id != self.client_id@,
                None => false,
            },
    {
        match graph.resolve_conflict_lww() {
            Some(n) => !(n.client_id == self.client_id),
            None => false,
        }
    }

    /// Adds one pull's tallies to the counters and stamps the sync time.
    pub fn record_pull(&mut self, files: u64, result: &SyncResult, now: i64)
        ensures
            final(self).sync_stats == (SyncStats {
                files_synced: wrap_add(old(self).sync_stats.files_synced, files),
                blocks_transferred: wrap_add(old(self).sync_stats.blocks_transferred, result.blocks_pulled),
                bytes_transferred: wrap_add(old(self).sync_stats.bytes_transferred, result.bytes_pulled),
                conflicts_detected: wrap_add(old(self).sync_stats.conflicts_detected, result.conflicts_found),
                last_sync_time: Some(now),
                ..old(self).sync_stats
            }),
            final(self).conflicts == old(self).conflicts,
            final(self).client_id == old(self).client_id,
            !final(self).is_syncing,
    {
        self.sync_stats.files_synced = add_wrapping(self.sync_stats.files_synced, files);
        self.sync_stats.blocks_transferred = add_wrapping(self.sync_stats.blocks_transferred, result.blocks_pulled);
        self.sync_stats.bytes_transferred = add_wrapping(self.sync_stats.bytes_transferred, result.bytes_pulled);
        self.sync_stats.conflicts_detected = add_wrapping(self.sync_stats.conflicts_detected, result.conflicts_found);
        self.sync_stats.last_sync_time = Some(now);
        self.is_syncing = false;
    }
}

/// The blocks of a pull answer that came with data, and the bytes they hold.
pub fn tally_pulled_blocks(resp: &PullMissingBlocksResponse) -> (r: (u64, u64))
    ensures
        r == pulled_tally(block_views(resp.blocks@), resp.blocks@.len()),
{
    let ghost bv = block_views(resp.blocks@);
    let mut count: u64 = 0;
    let mut bytes: u64 = 0;
    let mut k: usize = 0;
    while k < resp.blocks.len()
        invariant
            k <= resp.blocks.len(),
            bv == block_views(resp.blocks@),
            (count, bytes) == pulled_tally(bv, k as nat),
        decreases resp.blocks.len() - k,
    {
        let b = &resp.blocks[k];
        if b.found && b.data.len() > 0 {
            count = bump_exec(count);
            let l: u64 = b.data.len() as u64;
            bytes = add_wrapping(bytes, l);
        }
        k += 1;
    }
    (count, bytes)
}

/// The tallies of a pull after one more file: the conflicts its graph
/// brought, the blocks and bytes pulled for it, and one more version pulled
/// when its latest version is another client's; counters wrap at `u64::MAX`.
pub open spec fn file_outcome_spec(r: SyncResult, found: u64, pulled: (u64, u64), remote_latest: bool) -> SyncResult {
    SyncResult {
        versions_pulled: if remote_latest {
            bump(r.versions_pulled)
        } else {
            r.versions_pulled
        },
        blocks_pulled: wrap_add(r.blocks_pulled, pulled.0),
        bytes_pulled: wrap_add(r.bytes_pulled, pulled.1),
        conflicts_found: wrap_add(r.conflicts_found, found),
    }
}

/// Adds one file's outcome to the tallies of a pull (see `file_outcome_spec`).
pub fn add_file_outcome(r: SyncResult, found: u64, pulled: (u64, u64), remote_latest: bool) -> (s: SyncResult)
    ensures
        s == file_outcome_spec(r, found, pulled, remote_latest),
{
    SyncResult {
        versions_pulled: if remote_latest {
            bump_exec(r.versions_pulled)
        } else {
            r.versions_pulled
        },
        blocks_pulled: add_wrapping(r.blocks_pulled, pulled.0),
        bytes_pulled: add_wrapping(r.bytes_pulled, pulled.1),
        conflicts_found: add_wrapping(r.conflicts_found, found),
    }
}

/// The tallies of a pull after the outcomes of its files, one after the
/// other, from nothing: each outcome is the conflicts found, the blocks and
/// bytes pulled, and whether a remote version is the latest.
pub open spec fn pull_tallies(os: Seq<(u64, (u64, u64), bool)>) -> SyncResult
    decreases os.len(),
{
    if os.len() == 0 {
        SyncResult { versions_pulled: 0, blocks_pulled: 0, bytes_pulled: 0, conflicts_found: 0 }
    } else {
        let o = os.last();
        file_outcome_spec(pull_tallies(os.drop_last()), o.0, o.1, o.2)
    }
}

/// The number of conflicts in all the lists.
pub open spec fn total_conflicts(cs: Seq<Seq<ConflictView>>) -> nat
    decreases cs.len(),
{
    if cs.len() == 0 {
        0
    } else {
        total_conflicts(cs.drop_last()) + cs.last().len()
    }
}

/// A pull reports the conflicts that the merges of its files appended: when
/// the count given for each file is the number of conflicts its merge
/// appended, kept within `u64` as `merge_remote_graph` returns it, the
/// pull's count is the number of all of them, modulo 2^64.
pub proof fn lemma_pull_counts_appended(os: Seq<(u64, (u64, u64), bool)>, appended: Seq<Seq<ConflictView>>)
    requires
        os.len() == appended.len(),
        forall|i: int| 0 <= i < os.len() ==> (#[trigger] os[i]).0 == (appended[i].len() % 0x1_0000_0000_0000_0000) as u64,
    ensures
        pull_tallies(os).conflicts_found == total_conflicts(appended) % 0x1_0000_0000_0000_0000,
    decreases os.len(),
{
    if os.len() > 0 {
        let p = os.drop_last();
        let a = appended.drop_last();
        assert forall|i: int| 0 <= i < p.len() implies (#[trigger] p[i]).0 == (a[i].len() % 0x1_0000_0000_0000_0000) as u64 by {
            assert(p[i] == os[i]);
            assert(a[i] == appended[i]);
        }
        lemma_pull_counts_appended(p, a);
        let k = os.len() - 1;
        assert(os[k] == os.last());
        assert(appended[k] == appended.last());
        vstd::arithmetic::div_mod::lemma_add_mod_noop(
            total_conflicts(a) as int,
            appended.last().len() as int,
            0x1_0000_0000_0000_0000,
        );
        vstd::arithmetic::div_mod::lemma_mod_twice(appended.last().len() as int, 0x1_0000_0000_0000_0000);
        vstd::arithmetic::div_mod::lemma_mod_twice(total_conflicts(a) as int, 0x1_0000_0000_0000_0000);
    }
}

/// Holds of a conflict on a file other than `fp`.
pub open spec fn other_file(fp: Seq<char>) -> spec_fn(ConflictView) -> bool {
    |c: ConflictView| c.file_path != fp
}


/// The views of the blocks a client holds for its peers.
pub open spec fn held_views(v: Seq<(String, Vec<u8>)>) -> Seq<(Seq<char>, Seq<u8>)> {
    v.map_values(|e: (String, Vec<u8>)| (e.0@, e.1@))
}

/// Holds of a held block with hash `h`.
pub open spec fn held_hash(h: Seq<char>) -> spec_fn((Seq<char>, Seq<u8>)) -> bool {
    |e: (Seq<char>, Seq<u8>)| e.0 == h
}

/// The data held under hash `h`, if any.
pub open spec fn held_lookup(v: Seq<(Seq<char>, Seq<u8>)>, h: Seq<char>) -> Option<Seq<u8>> {
    let i = first_where(v, held_hash(h));
    if i < v.len() {
        Some(v[i].1)
    } else {
        None
    }
}

/// The answer to a peer's request for a block: the block's data when held,
/// else no data and `found` false.
pub open spec fn block_answer(req_hash: Seq<char>, held: Option<Seq<u8>>) -> BlockView {
    BlockView {
        block_hash: req_hash,
        data: match held {
            Some(d) => d,
            None => Seq::empty(),
        },
        found: held is Some,
    }
}

/// The address of a peer's block listener: `address:port`.
pub open spec fn peer_endpoint(p: PeerView) -> Seq<char> {
    p.address + seq![':'] + decimal(p.listen_port as nat)
}

impl SyncClient {
    /// Starts a pull: refused when the client is not connected, else the
    /// client is marked as syncing.
    pub fn begin_pull(&mut self) -> (r: Result<(), SyncError>)
        ensures
            !old(self).is_connected ==> r == Err::<(), SyncError>(SyncError::NotConnected)
                && final(self).is_syncing == old(self).is_syncing,
            old(self).is_connected ==> r is Ok && final(self).is_syncing,
            final(self).is_connected == old(self).is_connected,
            final(self).sync_stats == old(self).sync_stats,
            final(self).conflicts == old(self).conflicts,
            final(self).client_id == old(self).client_id,
    {
        if !self.is_connected {
            return Err(SyncError::NotConnected);
        }
        self.is_syncing = true;
        Ok(())
    }

    /// The address of the server to dial: refused when none is known.
    pub fn server_address(&self) -> (r: Result<String, SyncError>)
        ensures
            match self.server_addr {
                Some(a) => r matches Ok(s) && s@ == a@,
                None => r == Err::<String, SyncError>(SyncError::NotConnected),
            },
    {
        match &self.server_addr {
            Some(a) => Ok(clone_string(a)),
            None => Err(SyncError::NotConnected),
        }
    }

    /// Answers a peer's request for a block from the blocks this client
    /// holds (see `block_answer`).
    pub fn block_response(&self, req: &RequestBlock) -> (r: BlockResponse)
        ensures
            r@ == block_answer(req.block_hash@, held_lookup(held_views(self.pending_blocks@), req.block_hash@)),
    {
        let ghost hv = held_views(self.pending_blocks@);
        let mut i: usize = 0;
        while i < self.pending_blocks.len()
            invariant
                i <= self.pending_blocks.len(),
                hv == held_views(self.pending_blocks@),
                forall|k: int| 0 <= k < i ==> !held_hash(req.block_hash@)(#[trigger] hv[k]),
            decreases self.pending_blocks.len() - i,
        {
            if self.pending_blocks[i].0 == req.block_hash {
                proof {
                    lemma_first_where(hv, held_hash(req.block_hash@), i as int);
                }
                let r = BlockResponse {
                    block_hash: clone_string(&req.block_hash),
                    data: self.pending_blocks[i].1.clone(),
                    found: true,
                };
                assert(r.data@ =~= hv[i as int].1);
                return r;
            }
            i += 1;
        }
        proof {
            lemma_first_where(hv, held_hash(req.block_hash@), i as int);
        }
        let r = BlockResponse { block_hash: clone_string(&req.block_hash), data: Vec::new(), found: false };
        assert(r@ == block_answer(req.block_hash@, None));
        r
    }
}

/// The address at which a peer serves blocks (see `peer_endpoint`).
pub fn peer_address(peer: &PeerInfo) -> (s: String)
    ensures
        s@ == peer_endpoint(peer@),
{
    let mut s = String::new();
    let a = chars_of(peer.address.as_str());
    push_chars(&mut s, &a);
    push_char(&mut s, ':');
    push_decimal(&mut s, peer.listen_port as u64);
    assert(s@ =~= peer_endpoint(peer@));
    s
}

/// What a block answer brings: the data when the block was found.
pub fn block_from_response(resp: BlockResponse) -> (r: Option<Vec<u8>>)
    ensures
        resp.found ==> r == Some(resp.data),
        !resp.found ==> r is None,
{
    if resp.found {
        Some(resp.data)
    } else {
        None
    }
}

} // verus!
