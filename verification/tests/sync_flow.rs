use docversion::client::{add_file_outcome, block_from_response, peer_address, tally_pulled_blocks, ServerMessage, SyncClient, SyncError, SyncResult};
use docversion::protocol::{
    encode_frame, parse_frame_header, BlockResponse, ConflictAlert, FrameError, Heartbeat, MessageType, PeerInfo,
    PeerList, PublishVersion, PullMissingBlocks, PullMissingBlocksResponse, RegisterClient, RemoteVersionNode,
    RequestBlock, RequestPeers, RequestVersionGraph, MAX_FRAME_LEN,
};
use docversion::server::{ClientRequest, ClientSession, IndexServer, ServerReply};
use docversion::version_graph::{VersionGraph, VersionGraphStore, VersionNode};

fn node(client: &str, n: i64, hash: &str, ts: i64, parent: Option<&str>, blocks: &[&str]) -> VersionNode {
    VersionNode::new(client, n, hash, ts, 10, parent.map(|p| p.to_string()), blocks.iter().map(|b| b.to_string()).collect())
}

#[test]
fn message_codes() {
    assert_eq!(MessageType::RegisterClient.code(), 1);
    assert_eq!(MessageType::Heartbeat.code(), 13);
    assert_eq!(MessageType::PullMissingBlocksResponse.code(), 15);
}

#[test]
fn frames() {
    let f = encode_frame(&[9, 8, 7]);
    assert_eq!(f, vec![0, 0, 0, 3, 9, 8, 7]);
    let header: [u8; 4] = [f[0], f[1], f[2], f[3]];
    assert_eq!(parse_frame_header(&header), Ok(3));
    assert_eq!(parse_frame_header(&[0x10, 0, 0, 0]), Ok(MAX_FRAME_LEN));
    assert_eq!(parse_frame_header(&[0x10, 0, 0, 1]), Err(FrameError::TooLarge(268435457)));
    let big = vec![0u8; 300];
    assert_eq!(&encode_frame(&big)[..4], &[0, 0, 1, 44]);
}

#[test]
fn node_ids() {
    let n = node("alice", 3, "h", 1, None, &[]);
    assert_eq!(n.node_id, "alice:3");
    let m = node("bob", -2, "h", 1, None, &[]);
    assert_eq!(m.node_id, "bob:-2");
}

#[test]
fn graph_conflict_last_writer_wins() {
    let mut g = VersionGraph::new("a.txt");
    assert!(g.add_node(node("A", 1, "h1", 100, None, &["x"])).is_empty());
    let conflicts = g.add_node(node("B", 1, "h2", 200, None, &["x", "y"]));
    assert_eq!(conflicts.len(), 1);
    let c = &conflicts[0];
    assert_eq!(c.file_path, "a.txt");
    assert_eq!(c.local_node_id, "B:1");
    assert_eq!(c.remote_node_id, "A:1");
    assert_eq!(c.local_client_id, "B");
    assert_eq!(c.remote_client_id, "A");
    assert_eq!((c.local_timestamp, c.remote_timestamp), (200, 100));
    assert_eq!(c.resolved_winner, "B");
    assert_eq!(c.resolution_strategy, "LWW");
    assert!(!c.needs_manual_merge);
    assert_eq!(g.heads, vec!["B:1".to_string()]);
    let ids: Vec<String> = g.nodes.iter().map(|n| n.node_id.clone()).collect();
    assert_eq!(ids, vec!["A:1", "B:1"]);
    assert_eq!(g.nodes[1].content_hash, "h2");
    assert_eq!(g.resolve_conflict_lww().map(|n| n.node_id.clone()), Some("B:1".to_string()));
    assert_eq!(g.get_missing_blocks(&vec!["x".to_string()]), vec!["y".to_string()]);
}

#[test]
fn earlier_remote_head_loses_to_local() {
    let mut g = VersionGraph::new("f");
    g.add_node(node("A", 1, "h1", 300, None, &[]));
    let conflicts = g.add_node(node("B", 1, "h2", 100, None, &[]));
    assert_eq!(conflicts.len(), 1);
    assert_eq!(conflicts[0].resolved_winner, "A");
    assert_eq!(g.heads, vec!["A:1".to_string()]);
}

#[test]
fn tie_keeps_both_heads() {
    let mut g = VersionGraph::new("f");
    g.add_node(node("A", 1, "h1", 100, None, &[]));
    let conflicts = g.add_node(node("B", 1, "h2", 100, None, &[]));
    assert_eq!(conflicts[0].resolved_winner, "B");
    assert_eq!(g.heads.len(), 2);
    // the last head in head order wins a tie
    assert_eq!(g.resolve_conflict_lww().map(|n| n.node_id.clone()), Some("B:1".to_string()));
}

#[test]
fn parents_and_ancestors() {
    let mut g = VersionGraph::new("f");
    g.add_node(node("A", 1, "h1", 1, None, &["b1"]));
    g.add_node(node("A", 2, "h2", 2, Some("h1"), &["b2"]));
    g.add_node(node("A", 3, "h3", 3, Some("h2"), &["b2", "b3"]));
    // a client whose node has a child of its own adds no further heads
    assert!(g.heads.is_empty());
    assert_eq!(g.child_edges.len(), 2);
    let anc: Vec<String> = g.get_ancestors("A:3").iter().map(|n| n.node_id.clone()).collect();
    assert_eq!(anc, vec!["A:3", "A:2", "A:1"]);
    assert!(g.get_ancestors("nope").is_empty());
    let mut all = g.get_all_block_hashes();
    all.sort();
    assert_eq!(all, vec!["b1", "b2", "b3"]);
}

#[test]
fn store_keeps_graphs_per_file() {
    let mut s = VersionGraphStore::new();
    assert!(s.publish_version("a", node("A", 1, "h", 10, None, &[])).is_empty());
    assert_eq!(s.publish_version("a", node("B", 1, "k", 20, None, &[])).len(), 1);
    assert!(s.publish_version("b", node("B", 1, "k", 20, None, &[])).is_empty());
    assert_eq!(s.graphs.len(), 2);
    let a = &s.graphs[s.find_graph_index("a")];
    assert_eq!(a.file_path, "a");
    assert!(a.nodes.iter().any(|n| n.node_id == "B:1" && n.timestamp == 20));
    assert_eq!(s.get_file_conflicts("a").len(), 0);
    assert_eq!(s.get_all_conflicts().len(), 0);
}

fn register(id: &str, port: u16) -> RegisterClient {
    RegisterClient { client_id: id.to_string(), hostname: format!("{}-host", id), listen_port: port, watched_path: "/w".to_string() }
}

fn publish(id: &str, path: &str, n: i64, hash: &str, ts: i64, blocks: &[&str]) -> PublishVersion {
    PublishVersion {
        client_id: id.to_string(),
        file_path: path.to_string(),
        version_number: n,
        content_hash: hash.to_string(),
        block_hashes: blocks.iter().map(|b| b.to_string()).collect(),
        timestamp: ts,
        file_size: 5,
        parent_hash: None,
    }
}

#[test]
fn server_session() {
    let mut server = IndexServer::new();
    let mut sa = ClientSession::new();
    let mut sb = ClientSession::new();
    match server.handle_request(&mut sa, ClientRequest::Register(register("A", 7001)), "10.0.0.1", 5) {
        Some(ServerReply::Registered(r)) => {
            assert_eq!(r.client_id, "A");
            assert_eq!(r.assigned_id, 1);
            assert_eq!(r.server_version, "0.1.0");
        }
        _ => panic!("expected a registration answer"),
    }
    server.handle_request(&mut sb, ClientRequest::Register(register("B", 7002)), "10.0.0.2", 6);
    assert_eq!(server.clients.len(), 2);

    match server.handle_request(&mut sa, ClientRequest::Publish(publish("A", "f.txt", 1, "h1", 100, &["b1"])), "", 7) {
        Some(ServerReply::Published(p)) => {
            assert!(p.success);
            assert!(!p.conflict_detected);
            assert_eq!(p.conflicting_client, None);
        }
        _ => panic!("expected a publish answer"),
    }
    assert_eq!(server.clients[0].version_count, 1);
    match server.handle_request(&mut sb, ClientRequest::Publish(publish("B", "f.txt", 1, "h2", 200, &["b2"])), "", 8) {
        Some(ServerReply::Published(p)) => {
            assert!(p.conflict_detected);
            assert_eq!(p.conflicting_client, Some("A".to_string()));
        }
        _ => panic!("expected a publish answer"),
    }

    match server.handle_request(&mut sa, ClientRequest::GraphRequest(RequestVersionGraph { file_path: "f.txt".to_string() }), "", 9) {
        Some(ServerReply::Graph(g)) => {
            assert_eq!(g.nodes.len(), 2);
            assert!(!g.has_conflict);
            assert_eq!(g.latest_client_id, "B");
            assert_eq!(g.latest_timestamp, 200);
        }
        _ => panic!("expected a graph"),
    }
    match server.handle_request(&mut sa, ClientRequest::GraphRequest(RequestVersionGraph { file_path: "none".to_string() }), "", 9) {
        Some(ServerReply::Graph(g)) => {
            assert!(g.nodes.is_empty());
            assert_eq!(g.latest_client_id, "");
            assert_eq!(g.latest_timestamp, 9);
        }
        _ => panic!("expected a graph"),
    }
    match server.handle_request(&mut sa, ClientRequest::Peers(RequestPeers { file_path: "f.txt".to_string() }), "", 10) {
        Some(ServerReply::Peers(list)) => {
            let ids: Vec<String> = list.peers.iter().map(|p| p.client_id.clone()).collect();
            assert_eq!(ids, vec!["A", "B"]);
            assert_eq!(list.peers[0].address, "10.0.0.1");
            assert_eq!(list.peers[0].listen_port, 7001);
        }
        _ => panic!("expected peers"),
    }
    assert!(server.handle_request(&mut sa, ClientRequest::Beat(Heartbeat { client_id: "A".to_string(), timestamp: 99 }), "", 11).is_none());
    assert_eq!(server.clients[0].last_heartbeat, 99);

    let pull = PullMissingBlocks { client_id: "A".to_string(), missing_hashes: vec!["b2".to_string(), "zz".to_string()] };
    match server.handle_request(&mut sa, ClientRequest::Pull(pull), "", 12) {
        Some(ServerReply::Blocks(b)) => {
            assert_eq!(b.blocks.len(), 1);
            assert_eq!(b.blocks[0].block_hash, "b2");
            assert!(!b.blocks[0].found);
            assert_eq!(b.remaining, 1);
        }
        _ => panic!("expected blocks"),
    }
    assert!(server.handle_request(&mut sa, ClientRequest::Unhandled(MessageType::SyncStatus), "", 13).is_none());

    server.end_session(sb);
    assert_eq!(server.clients.len(), 1);
    assert_eq!(server.clients[0].client_id, "A");
}

#[test]
fn client_basics() {
    let mut c = SyncClient::new("laptop".to_string());
    assert_eq!(c.client_id.len(), 36);
    assert_eq!(c.client_id.chars().filter(|ch| *ch == '-').count(), 4);
    assert_ne!(c.client_id, SyncClient::new("laptop".to_string()).client_id);
    let reg = c.registration();
    assert_eq!(reg.hostname, "laptop");
    assert_eq!(reg.listen_port, 0);
    c.handle_server_message(ServerMessage::Peers(PeerList {
        peers: vec![PeerInfo { client_id: "p".to_string(), hostname: "h".to_string(), address: "1.2.3.4".to_string(), listen_port: 9, version_count: 1 }],
    }));
    assert_eq!(c.get_sync_stats().connected_clients, 1);
    assert_eq!(c.get_connected_peers().len(), 1);
    c.handle_server_message(ServerMessage::Alert(ConflictAlert {
        file_path: "f".to_string(),
        local_version: 1,
        local_hash: "a".to_string(),
        local_timestamp: 1,
        remote_client_id: "x".to_string(),
        remote_version: 1,
        remote_hash: "b".to_string(),
        remote_timestamp: 2,
    }));
    assert_eq!(c.get_sync_stats().conflicts_detected, 1);
    assert_eq!(c.begin_pull(), Err(SyncError::NotConnected));
    assert!(!c.is_syncing);
    assert_eq!(c.server_address(), Err(SyncError::NotConnected));
    c.server_addr = Some("10.0.0.9:7000".to_string());
    assert_eq!(c.server_address(), Ok("10.0.0.9:7000".to_string()));
    c.is_connected = true;
    assert_eq!(c.begin_pull(), Ok(()));
    assert!(c.is_syncing);
    c.record_pull(3, &SyncResult { versions_pulled: 1, blocks_pulled: 2, bytes_pulled: 30, conflicts_found: 1 }, 77);
    let st = c.get_sync_stats();
    assert_eq!((st.files_synced, st.blocks_transferred, st.bytes_transferred, st.conflicts_detected), (3, 2, 30, 2));
    assert_eq!(st.last_sync_time, Some(77));
    assert!(!c.is_syncing);
}

#[test]
fn client_merges_remote_graph_and_resolves() {
    let mut c = SyncClient::new("h".to_string());
    let remote = vec![
        RemoteVersionNode { client_id: "A".to_string(), version_number: 1, content_hash: "h1".to_string(), timestamp: 10, file_size: 1, parent_hash: None, block_hashes: vec!["x".to_string()] },
        RemoteVersionNode { client_id: "B".to_string(), version_number: 1, content_hash: "h2".to_string(), timestamp: 20, file_size: 1, parent_hash: None, block_hashes: vec!["y".to_string(), "z".to_string()] },
    ];
    let (store, found) = c.merge_remote_graph("f.txt", remote);
    assert_eq!(found, 1);
    assert_eq!(c.get_conflicts().len(), 1);
    let gi = store.find_graph_index("f.txt");
    let g = &store.graphs[gi];
    match c.pull_request(g, &vec!["y".to_string()]) {
        Some(req) => assert_eq!(req.missing_hashes, vec!["z".to_string()]),
        None => panic!("blocks are missing"),
    }
    assert!(c.pull_request(g, &vec!["y".to_string(), "z".to_string()]).is_none());
    assert!(c.remote_is_latest(g));
    assert_eq!(c.resolve_conflict_locally("f.txt", true), Ok(()));
    assert!(c.get_conflicts().is_empty());
    assert_eq!(c.get_sync_stats().conflicts_resolved, 1);
}

#[test]
fn blocks_between_peers() {
    let mut c = SyncClient::new("h".to_string());
    c.pending_blocks.push(("k".to_string(), vec![1, 2]));
    let r = c.block_response(&RequestBlock { block_hash: "k".to_string() });
    assert!(r.found);
    assert_eq!(r.data, vec![1, 2]);
    let r = c.block_response(&RequestBlock { block_hash: "q".to_string() });
    assert!(!r.found);
    assert!(r.data.is_empty());
    assert_eq!(block_from_response(BlockResponse { block_hash: "k".to_string(), data: vec![5], found: true }), Some(vec![5]));
    assert_eq!(block_from_response(BlockResponse { block_hash: "k".to_string(), data: vec![], found: false }), None);
    let p = PeerInfo { client_id: "p".to_string(), hostname: "h".to_string(), address: "10.1.1.1".to_string(), listen_port: 8080, version_count: 0 };
    assert_eq!(peer_address(&p), "10.1.1.1:8080");
    let resp = PullMissingBlocksResponse {
        blocks: vec![
            BlockResponse { block_hash: "a".to_string(), data: vec![1, 2, 3], found: true },
            BlockResponse { block_hash: "b".to_string(), data: vec![], found: true },
            BlockResponse { block_hash: "c".to_string(), data: vec![1], found: false },
        ],
        remaining: 0,
    };
    assert_eq!(tally_pulled_blocks(&resp), (1, 3));
}

#[test]
fn graph_shape_of_new_nodes() {
    let mut g = VersionGraph::new("f");
    g.add_node(node("A", 1, "h1", 1, None, &[]));
    g.add_node(node("B", 1, "h2", 2, Some("h1"), &[]));
    g.add_node(node("C", 1, "h3", 3, Some("h2"), &[]));
    // edges mirror each other and lead from earlier to later nodes
    assert_eq!(g.child_edges, vec![("A:1".to_string(), "B:1".to_string()), ("B:1".to_string(), "C:1".to_string())]);
    assert_eq!(g.parent_edges, vec![("B:1".to_string(), "A:1".to_string()), ("C:1".to_string(), "B:1".to_string())]);
    // no head has a child
    for h in &g.heads {
        assert!(g.child_edges.iter().all(|(p, _)| p != h));
    }
    assert_eq!(g.heads, vec!["C:1".to_string()]);
}

#[test]
fn client_id_format() {
    let c = SyncClient::new("x".to_string());
    let cs: Vec<char> = c.client_id.chars().collect();
    assert_eq!(cs.len(), 36);
    for i in [8, 13, 18, 23] {
        assert_eq!(cs[i], '-');
    }
}

#[test]
fn pull_tallies() {
    let r = SyncResult { versions_pulled: 1, blocks_pulled: 2, bytes_pulled: 3, conflicts_found: 4 };
    let s = add_file_outcome(r, 2, (5, 100), true);
    assert_eq!((s.versions_pulled, s.blocks_pulled, s.bytes_pulled, s.conflicts_found), (2, 7, 103, 6));
    let t = add_file_outcome(s, 0, (0, 0), false);
    assert_eq!((t.versions_pulled, t.blocks_pulled, t.bytes_pulled, t.conflicts_found), (2, 7, 103, 6));
    let u = add_file_outcome(SyncResult { versions_pulled: 0, blocks_pulled: u64::MAX, bytes_pulled: 0, conflicts_found: 0 }, 0, (2, 0), false);
    assert_eq!(u.blocks_pulled, 1);
}

fn remote(client: &str, hash: &str, ts: i64) -> RemoteVersionNode {
    RemoteVersionNode { client_id: client.to_string(), version_number: 1, content_hash: hash.to_string(), timestamp: ts, file_size: 1, parent_hash: None, block_hashes: vec![] }
}

#[test]
fn pull_counts_the_conflicts_its_merges_append() {
    let mut c = SyncClient::new("h".to_string());
    let mut result = SyncResult { versions_pulled: 0, blocks_pulled: 0, bytes_pulled: 0, conflicts_found: 0 };
    let (_, found_a) = c.merge_remote_graph("a.txt", vec![remote("A", "h1", 10), remote("B", "h2", 20), remote("C", "h3", 30)]);
    result = add_file_outcome(result, found_a, (0, 0), false);
    let (_, found_b) = c.merge_remote_graph("b.txt", vec![remote("A", "h4", 10)]);
    result = add_file_outcome(result, found_b, (0, 0), false);
    let (_, found_c) = c.merge_remote_graph("c.txt", vec![remote("A", "h5", 10), remote("B", "h6", 20)]);
    result = add_file_outcome(result, found_c, (0, 0), false);
    assert_eq!(found_b, 0);
    assert!(found_a > 0 && found_c > 0);
    assert_eq!(result.conflicts_found as usize, c.get_conflicts().len());
}

#[test]
fn adding_new_nodes_keeps_graph_invariant() {
    let mut g = VersionGraph::new("f.txt");
    g.add_node(node("A", 1, "a1", 10, None, &[]));
    g.add_node(node("A", 2, "a2", 20, Some("a1"), &[]));
    g.add_node(node("B", 1, "b1", 30, Some("a2"), &[]));
    g.add_node(node("A", 3, "a3", 40, Some("a2"), &[]));
    // no head has a child
    for h in &g.heads {
        assert!(g.child_edges.iter().all(|(p, _)| p != h));
    }
    // parent and child pairs mirror each other
    for (c, p) in &g.parent_edges {
        assert!(g.child_edges.contains(&(p.clone(), c.clone())));
    }
    for (p, c) in &g.child_edges {
        assert!(g.parent_edges.contains(&(c.clone(), p.clone())));
    }
    // following parents never comes back
    for n in &g.nodes {
        let mut cur = n.node_id.clone();
        for _ in 0..g.nodes.len() {
            match g.parent_edges.iter().find(|(c, _)| *c == cur) {
                Some((_, p)) => {
                    assert_ne!(p, &n.node_id);
                    cur = p.clone();
                }
                None => break,
            }
        }
    }
    assert_eq!(g.parent_edges.len(), 3);
}
