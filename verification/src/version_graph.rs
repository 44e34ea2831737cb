//! The version graph of one file as clients publish versions of it, with
//! last-writer-wins conflict detection between the heads of different
//! clients, and a store of such graphs keyed by file path.
//!
//! Nodes, heads and edges are kept in insertion order; a lookup finds the
//! first match in that order. Times are nanoseconds since the Unix epoch.

use vstd::prelude::*;
use crate::seqs::{
    first_where, lemma_first_where, lemma_first_where_bounds, keep, equals, str_views,
    pair_views, remove_first, lemma_str_views_push, lemma_remove_first, lemma_add_once, lemma_keep,
    lemma_keep_step, add_once, find_str, contains_str, remove_str, add_str_once,
};
use crate::text::{push_i64, int_numeral, push_chars, chars_of};

verus! {

broadcast use vstd::string::group_string_axioms;

/// One published version of a file.
#[derive(Debug)]
pub struct VersionNode {
    pub node_id: String,
    pub client_id: String,
    pub version_number: i64,
    pub content_hash: String,
    pub timestamp: i64,
    pub file_size: i64,
    pub parent_hash: Option<String>,
    pub block_hashes: Vec<String>,
}

/// A version node as plain values.
pub struct NodeView {
    pub node_id: Seq<char>,
    pub client_id: Seq<char>,
    pub version_number: i64,
    pub content_hash: Seq<char>,
    pub timestamp: i64,
    pub file_size: i64,
    pub parent_hash: Option<Seq<char>>,
    pub block_hashes: Seq<Seq<char>>,
}

pub open spec fn opt_view(o: Option<String>) -> Option<Seq<char>> {
    match o {
        Some(s) => Some(s@),
        None => None,
    }
}

impl View for VersionNode {
    type V = NodeView;

    open spec fn view(&self) -> NodeView {
        NodeView {
            node_id: self.node_id@,
            client_id: self.client_id@,
            version_number: self.version_number,
            content_hash: self.content_hash@,
            timestamp: self.timestamp,
            file_size: self.file_size,
            parent_hash: opt_view(self.parent_hash),
            block_hashes: str_views(self.block_hashes@),
        }
    }
}

/// The node id that a client's version gets: `client_id:version_number`.
pub open spec fn node_id_of(client_id: Seq<char>, version_number: i64) -> Seq<char> {
    client_id + seq![':'] + int_numeral(version_number as int)
}

fn clone_string(s: &String) -> (r: String)
    ensures
        r@ == s@,
{
    s.clone()
}

fn clone_strings(v: &Vec<String>) -> (r: Vec<String>)
    ensures
        str_views(r@) == str_views(v@),
{
    let mut r: Vec<String> = Vec::new();
    let mut i: usize = 0;
    while i < v.len()
        invariant
            i <= v.len(),
            str_views(r@) == str_views(v@).take(i as int),
        decreases v.len() - i,
    {
        let ghost before = r@;
        let c = clone_string(&v[i]);
        r.push(c);
        proof {
            lemma_str_views_push(before, c);
        }
        i += 1;
        assert(str_views(r@) =~= str_views(v@).take(i as int));
    }
    assert(str_views(v@).take(v.len() as int) =~= str_views(v@));
    r
}

fn clone_opt(o: &Option<String>) -> (r: Option<String>)
    ensures
        opt_view(r) == opt_view(*o),
{
    match o {
        Some(s) => Some(clone_string(s)),
        None => None,
    }
}

impl VersionNode {
    /// A node for version `version_number` of `client_id`, with id
    /// `client_id:version_number`.
    pub fn new(
        client_id: &str,
        version_number: i64,
        content_hash: &str,
        timestamp: i64,
        file_size: i64,
        parent_hash: Option<String>,
        block_hashes: Vec<String>,
    ) -> (n: Self)
        ensures
            n@.node_id == node_id_of(client_id@, version_number),
            n@.client_id == client_id@,
            n@.version_number == version_number,
            n@.content_hash == content_hash@,
            n@.timestamp == timestamp,
            n@.file_size == file_size,
            n@.parent_hash == opt_view(parent_hash),
            n@.block_hashes == str_views(block_hashes@),
    {
        let mut node_id = client_id.to_owned();
        let mut suffix = String::new();
        let colon = vec![':'];
        push_chars(&mut node_id, &colon);
        push_i64(&mut node_id, version_number);
        VersionNode {
            node_id,
            client_id: client_id.to_owned(),
            version_number,
            content_hash: content_hash.to_owned(),
            timestamp,
            file_size,
            parent_hash,
            block_hashes,
        }
    }

    /// A copy of the node.
    pub fn duplicate(&self) -> (r: Self)
        ensures
            r@ == self@,
    {
        VersionNode {
            node_id: clone_string(&self.node_id),
            client_id: clone_string(&self.client_id),
            version_number: self.version_number,
            content_hash: clone_string(&self.content_hash),
            timestamp: self.timestamp,
            file_size: self.file_size,
            parent_hash: clone_opt(&self.parent_hash),
            block_hashes: clone_strings(&self.block_hashes),
        }
    }
}

/// A conflict between the heads of two clients, resolved last-writer-wins.
#[derive(Debug)]
pub struct ConflictInfo {
    pub file_path: String,
    pub local_node_id: String,
    pub remote_node_id: String,
    pub local_client_id: String,
    pub remote_client_id: String,
    pub local_timestamp: i64,
    pub remote_timestamp: i64,
    pub resolved_winner: String,
    pub resolution_strategy: String,
    pub needs_manual_merge: bool,
}

impl ConflictInfo {
    /// A copy of the conflict.
    pub fn duplicate(&self) -> (r: Self)
        ensures
            r@ == self@,
    {
        ConflictInfo {
            file_path: clone_string(&self.file_path),
            local_node_id: clone_string(&self.local_node_id),
            remote_node_id: clone_string(&self.remote_node_id),
            local_client_id: clone_string(&self.local_client_id),
            remote_client_id: clone_string(&self.remote_client_id),
            local_timestamp: self.local_timestamp,
            remote_timestamp: self.remote_timestamp,
            resolved_winner: clone_string(&self.resolved_winner),
            resolution_strategy: clone_string(&self.resolution_strategy),
            needs_manual_merge: self.needs_manual_merge,
        }
    }
}

/// A conflict as plain values.
pub struct ConflictView {
    pub file_path: Seq<char>,
    pub local_node_id: Seq<char>,
    pub remote_node_id: Seq<char>,
    pub local_client_id: Seq<char>,
    pub remote_client_id: Seq<char>,
    pub local_timestamp: i64,
    pub remote_timestamp: i64,
    pub resolved_winner: Seq<char>,
    pub resolution_strategy: Seq<char>,
    pub needs_manual_merge: bool,
}

impl View for ConflictInfo {
    type V = ConflictView;

    open spec fn view(&self) -> ConflictView {
        ConflictView {
            file_path: self.file_path@,
            local_node_id: self.local_node_id@,
            remote_node_id: self.remote_node_id@,
            local_client_id: self.local_client_id@,
            remote_client_id: self.remote_client_id@,
            local_timestamp: self.local_timestamp,
            remote_timestamp: self.remote_timestamp,
            resolved_winner: self.resolved_winner@,
            resolution_strategy: self.resolution_strategy@,
            needs_manual_merge: self.needs_manual_merge,
        }
    }
}

pub open spec fn conflict_views(v: Seq<ConflictInfo>) -> Seq<ConflictView> {
    v.map_values(|c: ConflictInfo| c@)
}

/// The name of the resolution strategy.
pub open spec fn lww_name() -> Seq<char> {
    seq!['L', 'W', 'W']
}

/// The client whose version wins between `a` and `b`: the later one, `a`
/// on a tie.
pub open spec fn lww_winner(a: NodeView, b: NodeView) -> Seq<char> {
    if a.timestamp >= b.timestamp {
        a.client_id
    } else {
        b.client_id
    }
}

/// The conflict between heads `a` (local) and `b` (remote) of `file_path`;
/// when `flag_empty_winner` holds, a manual merge is asked for exactly when
/// the winning client id is empty.
pub open spec fn conflict_spec(
    file_path: Seq<char>,
    a: NodeView,
    b: NodeView,
    flag_empty_winner: bool,
) -> ConflictView {
    ConflictView {
        file_path,
        local_node_id: a.node_id,
        remote_node_id: b.node_id,
        local_client_id: a.client_id,
        remote_client_id: b.client_id,
        local_timestamp: a.timestamp,
        remote_timestamp: b.timestamp,
        resolved_winner: lww_winner(a, b),
        resolution_strategy: lww_name(),
        needs_manual_merge: flag_empty_winner && lww_winner(a, b).len() == 0,
    }
}

fn make_conflict(file_path: &String, a: &VersionNode, b: &VersionNode, flag_empty_winner: bool) -> (c:
    ConflictInfo)
    ensures
        c@ == conflict_spec(file_path@, a@, b@, flag_empty_winner),
{
    let winner = if a.timestamp >= b.timestamp {
        clone_string(&a.client_id)
    } else {
        clone_string(&b.client_id)
    };
    let manual = flag_empty_winner && winner.as_str().is_empty();
    let lww = vec!['L', 'W', 'W'];
    let mut strategy = String::new();
    push_chars(&mut strategy, &lww);
    assert(strategy@ =~= lww_name());
    ConflictInfo {
        file_path: clone_string(file_path),
        local_node_id: clone_string(&a.node_id),
        remote_node_id: clone_string(&b.node_id),
        local_client_id: clone_string(&a.client_id),
        remote_client_id: clone_string(&b.client_id),
        local_timestamp: a.timestamp,
        remote_timestamp: b.timestamp,
        resolved_winner: winner,
        resolution_strategy: strategy,
        needs_manual_merge: manual,
    }
}

/// The version graph of one file.
///
/// `child_edges` holds (parent id, child id) pairs, each once;
/// `parent_edges` holds (child id, parent id) pairs, one per child;
/// `heads` holds the ids of the current heads, each once.
#[derive(Debug)]
pub struct VersionGraph {
    pub file_path: String,
    pub nodes: Vec<VersionNode>,
    pub child_edges: Vec<(String, String)>,
    pub parent_edges: Vec<(String, String)>,
    pub heads: Vec<String>,
}

/// A version graph as plain values.
pub struct GraphView {
    pub file_path: Seq<char>,
    pub nodes: Seq<NodeView>,
    pub children: Seq<(Seq<char>, Seq<char>)>,
    pub parents: Seq<(Seq<char>, Seq<char>)>,
    pub heads: Seq<Seq<char>>,
}

pub open spec fn node_views(v: Seq<VersionNode>) -> Seq<NodeView> {
    v.map_values(|n: VersionNode| n@)
}

impl View for VersionGraph {
    type V = GraphView;

    open spec fn view(&self) -> GraphView {
        GraphView {
            file_path: self.file_path@,
            nodes: node_views(self.nodes@),
            children: pair_views(self.child_edges@),
            parents: pair_views(self.parent_edges@),
            heads: str_views(self.heads@),
        }
    }
}

/// Holds of the node with id `id`.
pub open spec fn id_pred(id: Seq<char>) -> spec_fn(NodeView) -> bool {
    |n: NodeView| n.node_id == id
}

/// Holds of a pair whose first component is `k`.
pub open spec fn key_pred(k: Seq<char>) -> spec_fn((Seq<char>, Seq<char>)) -> bool {
    |e: (Seq<char>, Seq<char>)| e.0 == k
}

/// Whether some node has id `id`.
pub open spec fn has_node(nodes: Seq<NodeView>, id: Seq<char>) -> bool {
    exists|i: int| 0 <= i < nodes.len() && nodes[i].node_id == id
}

/// The node with id `id`, if any.
pub open spec fn node_with_id(nodes: Seq<NodeView>, id: Seq<char>) -> Option<NodeView> {
    let i = first_where(nodes, id_pred(id));
    if i < nodes.len() {
        Some(nodes[i])
    } else {
        None
    }
}

/// Holds of an id whose node belongs to client `cid`.
pub open spec fn owned_by(nodes: Seq<NodeView>, cid: Seq<char>) -> spec_fn(Seq<char>) -> bool {
    |h: Seq<char>|
        match node_with_id(nodes, h) {
            Some(n) => n.client_id == cid,
            None => false,
        }
}

/// Holds of an id whose node belongs to a client other than `cid`.
pub open spec fn owned_by_other(nodes: Seq<NodeView>, cid: Seq<char>) -> spec_fn(Seq<char>) -> bool {
    |h: Seq<char>|
        match node_with_id(nodes, h) {
            Some(n) => n.client_id != cid,
            None => false,
        }
}

/// The graph is well formed: node ids, heads, child pairs and parent keys
/// each occur once, and every head and every edge end is the id of a node.
pub open spec fn graph_wf(g: GraphView) -> bool {
    &&& forall|i: int, j: int|
        0 <= i < j < g.nodes.len() ==> #[trigger] g.nodes[i].node_id != #[trigger] g.nodes[j].node_id
    &&& g.heads.no_duplicates()
    &&& g.children.no_duplicates()
    &&& forall|i: int, j: int|
        0 <= i < j < g.parents.len() ==> #[trigger] g.parents[i].0 != #[trigger] g.parents[j].0
    &&& forall|i: int| 0 <= i < g.heads.len() ==> has_node(g.nodes, #[trigger] g.heads[i])
    &&& forall|i: int|
        0 <= i < g.children.len() ==> has_node(g.nodes, (#[trigger] g.children[i]).0) && has_node(
            g.nodes,
            g.children[i].1,
        )
    &&& forall|i: int|
        0 <= i < g.parents.len() ==> has_node(g.nodes, (#[trigger] g.parents[i]).0) && has_node(
            g.nodes,
            g.parents[i].1,
        )
}

// ---------------------------------------------------------------------------
// Adding a node
// ---------------------------------------------------------------------------

/// The nodes with `n` put in: in place of the node with its id, else last.
pub open spec fn insert_node(nodes: Seq<NodeView>, n: NodeView) -> Seq<NodeView> {
    let i = first_where(nodes, id_pred(n.node_id));
    if i < nodes.len() {
        nodes.update(i, n)
    } else {
        nodes.push(n)
    }
}

/// Holds of a node with content hash `hash` and an id other than `id`.
pub open spec fn parent_pred(hash: Seq<char>, id: Seq<char>) -> spec_fn(NodeView) -> bool {
    |m: NodeView| m.content_hash == hash && m.node_id != id
}

/// The parent pairs with the parent of `child` set to `par`.
pub open spec fn set_parent(ps: Seq<(Seq<char>, Seq<char>)>, child: Seq<char>, par: Seq<char>) -> Seq<
    (Seq<char>, Seq<char>),
> {
    let i = first_where(ps, key_pred(child));
    if i < ps.len() {
        ps.update(i, (child, par))
    } else {
        ps.push((child, par))
    }
}

/// The pairs with `e` added unless it is there.
pub open spec fn add_pair(cs: Seq<(Seq<char>, Seq<char>)>, e: (Seq<char>, Seq<char>)) -> Seq<
    (Seq<char>, Seq<char>),
> {
    if cs.contains(e) {
        cs
    } else {
        cs.push(e)
    }
}

/// The graph with `n` linked below the first other node whose content hash
/// is the parent hash of `n`: an edge each way, and that parent no longer a
/// head. Unchanged when `n` names no parent or none matches.
pub open spec fn link_parent(g: GraphView, id: Seq<char>, parent_hash: Option<Seq<char>>) -> GraphView {
    match parent_hash {
        Some(p) => {
            let i = first_where(g.nodes, parent_pred(p, id));
            if i < g.nodes.len() {
                let nid = g.nodes[i].node_id;
                GraphView {
                    file_path: g.file_path,
                    nodes: g.nodes,
                    children: add_pair(g.children, (nid, id)),
                    parents: set_parent(g.parents, id, nid),
                    heads: remove_first(g.heads, nid),
                }
            } else {
                g
            }
        },
        None => g,
    }
}

/// Whether some child edge joins two nodes of client `cid`.
pub open spec fn has_same_client_child(g: GraphView, cid: Seq<char>) -> bool {
    exists|k: int|
        0 <= k < g.children.len() && owned_by(g.nodes, cid)(#[trigger] g.children[k].0) && owned_by(
            g.nodes,
            cid,
        )(g.children[k].1)
}

pub open spec fn with_heads(g: GraphView, heads: Seq<Seq<char>>) -> GraphView {
    GraphView {
        file_path: g.file_path,
        nodes: g.nodes,
        children: g.children,
        parents: g.parents,
        heads,
    }
}

/// The heads after settling head `m` (of time `tm`) against the first `k`
/// heads of other clients: against a later one `m` leaves the heads, against
/// an earlier one that head leaves, on a tie both stay.
pub open spec fn settle_heads(
    hs: Seq<Seq<char>>,
    m: Seq<char>,
    tm: i64,
    others: Seq<Seq<char>>,
    nodes: Seq<NodeView>,
    k: nat,
) -> Seq<Seq<char>>
    decreases k,
{
    if k == 0 || k > others.len() {
        hs
    } else {
        let prev = settle_heads(hs, m, tm, others, nodes, (k - 1) as nat);
        let o = others[k - 1];
        let to = node_with_id(nodes, o).unwrap().timestamp;
        if tm < to {
            remove_first(prev, m)
        } else if tm > to {
            remove_first(prev, o)
        } else {
            prev
        }
    }
}

/// The graph and the conflicts after adding node `n` (see `add_node`).
pub open spec fn add_node_spec(g: GraphView, n: NodeView) -> (GraphView, Seq<ConflictView>) {
    let cid = n.client_id;
    let g1 = GraphView {
        file_path: g.file_path,
        nodes: insert_node(g.nodes, n),
        children: g.children,
        parents: g.parents,
        heads: g.heads,
    };
    let g2 = link_parent(g1, n.node_id, n.parent_hash);
    let g3 = if has_same_client_child(g2, cid) {
        g2
    } else {
        with_heads(g2, add_once(g2.heads, n.node_id))
    };
    let others = keep(g3.heads, owned_by_other(g3.nodes, cid));
    let mi = first_where(g3.heads, owned_by(g3.nodes, cid));
    if mi < g3.heads.len() {
        let m = g3.heads[mi];
        let mn = node_with_id(g3.nodes, m).unwrap();
        (
            with_heads(g3, settle_heads(g3.heads, m, mn.timestamp, others, g3.nodes, others.len())),
            others.map_values(
                |o: Seq<char>| conflict_spec(g3.file_path, mn, node_with_id(g3.nodes, o).unwrap(), true),
            ),
        )
    } else {
        (g3, Seq::empty())
    }
}

// ---------------------------------------------------------------------------
// Well-formedness lemmas
// ---------------------------------------------------------------------------

proof fn lemma_node_with_id(nodes: Seq<NodeView>, id: Seq<char>)
    ensures
        has_node(nodes, id) <==> node_with_id(nodes, id) is Some,
        node_with_id(nodes, id) matches Some(n) ==> n.node_id == id && nodes.contains(n),
{
    lemma_first_where_bounds(nodes, id_pred(id));
    if has_node(nodes, id) {
        let k = choose|k: int| 0 <= k < nodes.len() && nodes[k].node_id == id;
        assert(id_pred(id)(nodes[k]));
    }
    let i = first_where(nodes, id_pred(id));
    if i < nodes.len() {
        assert(nodes[i].node_id == id);
    }
}

proof fn lemma_insert_node(nodes: Seq<NodeView>, n: NodeView)
    requires
        forall|i: int, j: int|
            0 <= i < j < nodes.len() ==> #[trigger] nodes[i].node_id != #[trigger] nodes[j].node_id,
    ensures
        forall|i: int, j: int|
            0 <= i < j < insert_node(nodes, n).len() ==> #[trigger] insert_node(nodes, n)[i].node_id
                != #[trigger] insert_node(nodes, n)[j].node_id,
        forall|x: Seq<char>| has_node(nodes, x) ==> has_node(insert_node(nodes, n), x),
        has_node(insert_node(nodes, n), n.node_id),
        insert_node(nodes, n).contains(n),
{
    lemma_first_where_bounds(nodes, id_pred(n.node_id));
    let i = first_where(nodes, id_pred(n.node_id));
    let r = insert_node(nodes, n);
    if i < nodes.len() {
        assert(nodes[i].node_id == n.node_id);
        assert(r[i] == n);
        assert forall|x: Seq<char>| has_node(nodes, x) implies has_node(r, x) by {
            let k = choose|k: int| 0 <= k < nodes.len() && nodes[k].node_id == x;
            assert(r[k].node_id == x);
        }
    } else {
        assert(r[nodes.len() as int] == n);
        assert forall|a: int, b: int| 0 <= a < b < r.len() implies #[trigger] r[a].node_id
            != #[trigger] r[b].node_id by {
            if b == nodes.len() {
                assert(!id_pred(n.node_id)(nodes[a]));
            }
        }
        assert forall|x: Seq<char>| has_node(nodes, x) implies has_node(r, x) by {
            let k = choose|k: int| 0 <= k < nodes.len() && nodes[k].node_id == x;
            assert(r[k].node_id == x);
        }
    }
}

proof fn lemma_set_parent(ps: Seq<(Seq<char>, Seq<char>)>, child: Seq<char>, par: Seq<char>)
    requires
        forall|i: int, j: int| 0 <= i < j < ps.len() ==> #[trigger] ps[i].0 != #[trigger] ps[j].0,
    ensures
        forall|i: int, j: int|
            0 <= i < j < set_parent(ps, child, par).len() ==> #[trigger] set_parent(ps, child, par)[i].0
                != #[trigger] set_parent(ps, child, par)[j].0,
        forall|i: int|
            0 <= i < set_parent(ps, child, par).len() ==> (#[trigger] set_parent(ps, child, par)[i]
                == (child, par) || ps.contains(set_parent(ps, child, par)[i])),
{
    lemma_first_where_bounds(ps, key_pred(child));
    let k = first_where(ps, key_pred(child));
    let r = set_parent(ps, child, par);
    if k < ps.len() {
        assert(ps[k].0 == child);
        assert forall|i: int| 0 <= i < r.len() implies (#[trigger] r[i] == (child, par) || ps.contains(r[i])) by {
            if i != k {
                assert(r[i] == ps[i]);
            }
        }
    } else {
        assert forall|a: int, b: int| 0 <= a < b < r.len() implies #[trigger] r[a].0 != #[trigger] r[b].0 by {
            if b == ps.len() {
                assert(!key_pred(child)(ps[a]));
            }
        }
        assert forall|i: int| 0 <= i < r.len() implies (#[trigger] r[i] == (child, par) || ps.contains(r[i])) by {
            if i < ps.len() {
                assert(r[i] == ps[i]);
            }
        }
    }
}

proof fn lemma_add_pair(cs: Seq<(Seq<char>, Seq<char>)>, e: (Seq<char>, Seq<char>))
    requires
        cs.no_duplicates(),
    ensures
        add_pair(cs, e).no_duplicates(),
        forall|i: int|
            0 <= i < add_pair(cs, e).len() ==> (#[trigger] add_pair(cs, e)[i] == e || cs.contains(
                add_pair(cs, e)[i],
            )),
{
    let r = add_pair(cs, e);
    if !cs.contains(e) {
        assert forall|i: int| 0 <= i < r.len() implies (#[trigger] r[i] == e || cs.contains(r[i])) by {
            if i < cs.len() {
                assert(r[i] == cs[i]);
            }
        }
    }
}

/// Heads that are a subset of the heads of a well-formed graph, without
/// repetition, keep it well formed.
proof fn lemma_wf_heads(g: GraphView, hs: Seq<Seq<char>>)
    requires
        graph_wf(g),
        hs.no_duplicates(),
        forall|y: Seq<char>| hs.contains(y) ==> has_node(g.nodes, y),
    ensures
        graph_wf(with_heads(g, hs)),
{
    assert forall|i: int| 0 <= i < hs.len() implies has_node(g.nodes, #[trigger] hs[i]) by {
        assert(hs.contains(hs[i]));
    }
}

proof fn lemma_heads_contain(g: GraphView)
    requires
        graph_wf(g),
    ensures
        forall|y: Seq<char>| g.heads.contains(y) ==> has_node(g.nodes, y),
{
    assert forall|y: Seq<char>| g.heads.contains(y) implies has_node(g.nodes, y) by {
        let k = choose|k: int| 0 <= k < g.heads.len() && g.heads[k] == y;
        assert(has_node(g.nodes, g.heads[k]));
    }
}

proof fn lemma_link_wf(g: GraphView, id: Seq<char>, ph: Option<Seq<char>>)
    requires
        graph_wf(g),
        has_node(g.nodes, id),
    ensures
        graph_wf(link_parent(g, id, ph)),
        link_parent(g, id, ph).nodes == g.nodes,
        link_parent(g, id, ph).file_path == g.file_path,
{
    if let Some(p) = ph {
        lemma_first_where_bounds(g.nodes, parent_pred(p, id));
        let i = first_where(g.nodes, parent_pred(p, id));
        if i < g.nodes.len() {
            let nid = g.nodes[i].node_id;
            assert(has_node(g.nodes, nid));
            lemma_set_parent(g.parents, id, nid);
            lemma_add_pair(g.children, (nid, id));
            lemma_remove_first(g.heads, nid);
            lemma_heads_contain(g);
            let r = link_parent(g, id, ph);
            assert forall|k: int| 0 <= k < r.children.len() implies has_node(
                g.nodes,
                (#[trigger] r.children[k]).0,
            ) && has_node(g.nodes, r.children[k].1) by {
                if r.children[k] != (nid, id) {
                    let j = choose|j: int| 0 <= j < g.children.len() && g.children[j] == r.children[k];
                    assert(has_node(g.nodes, g.children[j].0));
                }
            }
            assert forall|k: int| 0 <= k < r.parents.len() implies has_node(
                g.nodes,
                (#[trigger] r.parents[k]).0,
            ) && has_node(g.nodes, r.parents[k].1) by {
                if r.parents[k] != (id, nid) {
                    let j = choose|j: int| 0 <= j < g.parents.len() && g.parents[j] == r.parents[k];
                    assert(has_node(g.nodes, g.parents[j].0));
                }
            }
            assert forall|k: int| 0 <= k < r.heads.len() implies has_node(g.nodes, #[trigger] r.heads[k]) by {
                assert(r.heads.contains(r.heads[k]));
            }
        }
    }
}

proof fn lemma_insert_wf(g: GraphView, n: NodeView)
    requires
        graph_wf(g),
    ensures
        graph_wf(GraphView {
            file_path: g.file_path,
            nodes: insert_node(g.nodes, n),
            children: g.children,
            parents: g.parents,
            heads: g.heads,
        }),
{
    lemma_insert_node(g.nodes, n);
}

proof fn lemma_node_views_update(v: Seq<VersionNode>, i: int, n: VersionNode)
    requires
        0 <= i < v.len(),
    ensures
        node_views(v.update(i, n)) == node_views(v).update(i, n@),
{
    assert(node_views(v.update(i, n)) =~= node_views(v).update(i, n@));
}

proof fn lemma_node_views_push(v: Seq<VersionNode>, n: VersionNode)
    ensures
        node_views(v.push(n)) == node_views(v).push(n@),
{
    assert(node_views(v.push(n)) =~= node_views(v).push(n@));
}

proof fn lemma_pair_views_push(v: Seq<(String, String)>, e: (String, String))
    ensures
        pair_views(v.push(e)) == pair_views(v).push((e.0@, e.1@)),
{
    assert(pair_views(v.push(e)) =~= pair_views(v).push((e.0@, e.1@)));
}

proof fn lemma_pair_views_update(v: Seq<(String, String)>, i: int, e: (String, String))
    requires
        0 <= i < v.len(),
    ensures
        pair_views(v.update(i, e)) == pair_views(v).update(i, (e.0@, e.1@)),
{
    assert(pair_views(v.update(i, e)) =~= pair_views(v).update(i, (e.0@, e.1@)));
}

impl VersionGraph {
    /// The graph is well formed (see `graph_wf`).
    pub open spec fn wf(&self) -> bool {
        graph_wf(self@)
    }

    /// An empty graph for `file_path`.
    pub fn new(file_path: &str) -> (g: Self)
        ensures
            g.wf(),
            g@.file_path == file_path@,
            g@.nodes.len() == 0,
            g@.children.len() == 0,
            g@.parents.len() == 0,
            g@.heads.len() == 0,
            g@ == empty_graph(file_path@),
    {
        let g = VersionGraph {
            file_path: file_path.to_owned(),
            nodes: Vec::new(),
            child_edges: Vec::new(),
            parent_edges: Vec::new(),
            heads: Vec::new(),
        };
        assert(g@.heads =~= Seq::<Seq<char>>::empty());
        assert(g@.children =~= Seq::<(Seq<char>, Seq<char>)>::empty());
        assert(g@.parents =~= Seq::<(Seq<char>, Seq<char>)>::empty());
        assert(g@.nodes =~= Seq::<NodeView>::empty());
        g
    }

    /// The index of the node with id `id`, or the number of nodes.
    fn find_node(&self, id: &String) -> (i: usize)
        ensures
            i as int == first_where(self@.nodes, id_pred(id@)),
    {
        let ghost nv = self@.nodes;
        let mut i: usize = 0;
        while i < self.nodes.len()
            invariant
                i <= self.nodes.len(),
                nv == node_views(self.nodes@),
                forall|j: int| 0 <= j < i ==> !id_pred(id@)(#[trigger] nv[j]),
            decreases self.nodes.len() - i,
        {
            if self.nodes[i].node_id == *id {
                proof {
                    lemma_first_where(nv, id_pred(id@), i as int);
                }
                return i;
            }
            i += 1;
        }
        proof {
            lemma_first_where(nv, id_pred(id@), i as int);
        }
        i
    }

    /// Whether the node with id `id` exists and belongs to client `cid`
    /// (`same`) or to another client (`!same`).
    fn owned(&self, id: &String, cid: &String, same: bool) -> (b: bool)
        ensures
            same ==> b == owned_by(self@.nodes, cid@)(id@),
            !same ==> b == owned_by_other(self@.nodes, cid@)(id@),
    {
        let i = self.find_node(id);
        proof {
            lemma_first_where_bounds(self@.nodes, id_pred(id@));
        }
        if i < self.nodes.len() {
            let eq = self.nodes[i].client_id == *cid;
            if same {
                eq
            } else {
                !eq
            }
        } else {
            false
        }
    }

    fn put_node(&mut self, node: VersionNode)
        ensures
            final(self)@ == (GraphView {
                file_path: old(self)@.file_path,
                nodes: insert_node(old(self)@.nodes, node@),
                children: old(self)@.children,
                parents: old(self)@.parents,
                heads: old(self)@.heads,
            }),
    {
        let i = self.find_node(&node.node_id);
        let ghost before = self.nodes@;
        let ghost nv = node@;
        if i < self.nodes.len() {
            self.nodes.set(i, node);
            proof {
                lemma_node_views_update(before, i as int, self.nodes@[i as int]);
            }
        } else {
            self.nodes.push(node);
            proof {
                lemma_node_views_push(before, self.nodes@[i as int]);
            }
        }
        assert(self@.nodes =~= insert_node(old(self)@.nodes, nv));
    }

    fn set_parent_edge(&mut self, child: &String, par: &String)
        ensures
            final(self)@ == (GraphView {
                file_path: old(self)@.file_path,
                nodes: old(self)@.nodes,
                children: old(self)@.children,
                parents: set_parent(old(self)@.parents, child@, par@),
                heads: old(self)@.heads,
            }),
    {
        let ghost pv = self@.parents;
        let mut i: usize = 0;
        while i < self.parent_edges.len() && !(self.parent_edges[i].0 == *child)
            invariant
                i <= self.parent_edges.len(),
                pv == pair_views(self.parent_edges@),
                forall|j: int| 0 <= j < i ==> !key_pred(child@)(#[trigger] pv[j]),
            decreases self.parent_edges.len() - i,
        {
            i += 1;
        }
        proof {
            lemma_first_where(pv, key_pred(child@), i as int);
        }
        let e = (clone_string(child), clone_string(par));
        let ghost before = self.parent_edges@;
        if i < self.parent_edges.len() {
            self.parent_edges.set(i, e);
            proof {
                lemma_pair_views_update(before, i as int, self.parent_edges@[i as int]);
            }
        } else {
            self.parent_edges.push(e);
            proof {
                lemma_pair_views_push(before, self.parent_edges@[i as int]);
            }
        }
    }

    fn add_child_edge(&mut self, par: &String, child: &String)
        ensures
            final(self)@ == (GraphView {
                file_path: old(self)@.file_path,
                nodes: old(self)@.nodes,
                children: add_pair(old(self)@.children, (par@, child@)),
                parents: old(self)@.parents,
                heads: old(self)@.heads,
            }),
    {
        let ghost cv = self@.children;
        let mut i: usize = 0;
        while i < self.child_edges.len()
            invariant
                i <= self.child_edges.len(),
                cv == pair_views(self.child_edges@),
                forall|j: int| 0 <= j < i ==> #[trigger] cv[j] != (par@, child@),
            decreases self.child_edges.len() - i,
        {
            if self.child_edges[i].0 == *par && self.child_edges[i].1 == *child {
                assert(cv[i as int] == (par@, child@));
                return;
            }
            i += 1;
        }
        assert(!cv.contains((par@, child@)));
        let ghost before = self.child_edges@;
        self.child_edges.push((clone_string(par), clone_string(child)));
        proof {
            lemma_pair_views_push(before, self.child_edges@[i as int]);
        }
    }

    fn link_to_parent(&mut self, id: &String, parent_hash: &Option<String>)
        ensures
            final(self)@ == link_parent(old(self)@, id@, opt_view(*parent_hash)),
    {
        match parent_hash {
            None => {},
            Some(p) => {
                let ghost nv = self@.nodes;
                let ghost pred = parent_pred(p@, id@);
                let mut i: usize = 0;
                while i < self.nodes.len() && !(self.nodes[i].content_hash == *p
                    && !(self.nodes[i].node_id == *id))
                    invariant
                        i <= self.nodes.len(),
                        nv == node_views(self.nodes@),
                        pred == parent_pred(p@, id@),
                        forall|j: int| 0 <= j < i ==> !pred(#[trigger] nv[j]),
                    decreases self.nodes.len() - i,
                {
                    i += 1;
                }
                proof {
                    lemma_first_where(nv, pred, i as int);
                }
                if i < self.nodes.len() {
                    let nid = clone_string(&self.nodes[i].node_id);
                    self.set_parent_edge(id, &nid);
                    self.add_child_edge(&nid, id);
                    remove_str(&mut self.heads, &nid);
                }
            },
        }
    }

    fn has_child_of_same_client(&self, cid: &String) -> (b: bool)
        ensures
            b == has_same_client_child(self@, cid@),
    {
        let ghost cv = self@.children;
        let mut k: usize = 0;
        while k < self.child_edges.len()
            invariant
                k <= self.child_edges.len(),
                cv == self@.children,
                forall|j: int|
                    0 <= j < k ==> !(owned_by(self@.nodes, cid@)(#[trigger] cv[j].0) && owned_by(
                        self@.nodes,
                        cid@,
                    )(cv[j].1)),
            decreases self.child_edges.len() - k,
        {
            if self.owned(&self.child_edges[k].0, cid, true) && self.owned(
                &self.child_edges[k].1,
                cid,
                true,
            ) {
                assert(owned_by(self@.nodes, cid@)(cv[k as int].0));
                return true;
            }
            k += 1;
        }
        false
    }

    /// The heads whose nodes belong to a client other than `cid`, in order.
    fn heads_of_others(&self, cid: &String) -> (r: Vec<String>)
        ensures
            str_views(r@) == keep(self@.heads, owned_by_other(self@.nodes, cid@)),
    {
        let ghost hv = self@.heads;
        let ghost p = owned_by_other(self@.nodes, cid@);
        let mut r: Vec<String> = Vec::new();
        let mut k: usize = 0;
        while k < self.heads.len()
            invariant
                k <= self.heads.len(),
                hv == self@.heads,
                p == owned_by_other(self@.nodes, cid@),
                str_views(r@) == keep(hv.take(k as int), p),
            decreases self.heads.len() - k,
        {
            proof {
                lemma_keep_step(hv, p, k as int);
            }
            if self.owned(&self.heads[k], cid, false) {
                let ghost before = r@;
                let h = clone_string(&self.heads[k]);
                r.push(h);
                proof {
                    lemma_str_views_push(before, h);
                }
            }
            k += 1;
        }
        assert(hv.take(self.heads.len() as int) == hv);
        r
    }

    /// The index of the first head whose node belongs to `cid`, or the number
    /// of heads.
    fn first_own_head(&self, cid: &String) -> (i: usize)
        ensures
            i as int == first_where(self@.heads, owned_by(self@.nodes, cid@)),
    {
        let ghost hv = self@.heads;
        let ghost p = owned_by(self@.nodes, cid@);
        let mut i: usize = 0;
        while i < self.heads.len() && !self.owned(&self.heads[i], cid, true)
            invariant
                i <= self.heads.len(),
                hv == self@.heads,
                p == owned_by(self@.nodes, cid@),
                forall|j: int| 0 <= j < i ==> !p(#[trigger] hv[j]),
            decreases self.heads.len() - i,
        {
            i += 1;
        }
        proof {
            lemma_first_where(hv, p, i as int);
        }
        i
    }

    /// Adds a published version to the graph and reports the conflicts it
    /// brings to light.
    ///
    /// The node takes the place of a node with its id, or comes last. When it
    /// names a parent hash, the first other node with that content hash becomes
    /// its parent (an edge each way) and stops being a head. The node becomes a
    /// head unless some child edge joins two nodes of its client. Then the first
    /// head of its client is set against every head of another client, in head
    /// order: each pair is a conflict won by the later version (the own head on
    /// a tie), and the losing head, if any, stops being a head.
    pub fn add_node(&mut self, node: VersionNode) -> (conflicts: Vec<ConflictInfo>)
        requires
            old(self).wf(),
        ensures
            final(self).wf(),
            (final(self)@, conflict_views(conflicts@)) == add_node_spec(old(self)@, node@),
    {
        let ghost n = node@;
        let ghost g0 = self@;
        let node_id = clone_string(&node.node_id);
        let client_id = clone_string(&node.client_id);
        let parent_hash = clone_opt(&node.parent_hash);

        self.put_node(node);
        proof {
            lemma_insert_wf(g0, n);
            lemma_insert_node(g0.nodes, n);
        }
        let ghost g1 = self@;
        self.link_to_parent(&node_id, &parent_hash);
        proof {
            lemma_link_wf(g1, n.node_id, n.parent_hash);
        }
        let ghost g2 = self@;
        if !self.has_child_of_same_client(&client_id) {
            add_str_once(&mut self.heads, clone_string(&node_id));
            proof {
                lemma_add_once(g2.heads, n.node_id);
                lemma_heads_contain(g2);
                lemma_wf_heads(g2, self@.heads);
                assert(self@ == with_heads(g2, add_once(g2.heads, n.node_id)));
            }
        }
        let ghost g3 = self@;
        assert(self.wf());

        let others = self.heads_of_others(&client_id);
        let mi = self.first_own_head(&client_id);
        let mut conflicts: Vec<ConflictInfo> = Vec::new();
        let ghost ov = keep(g3.heads, owned_by_other(g3.nodes, n.client_id));
        proof {
            lemma_first_where_bounds(g3.heads, owned_by(g3.nodes, n.client_id));
            lemma_keep(g3.heads, owned_by_other(g3.nodes, n.client_id));
        }
        if mi < self.heads.len() {
            let my_h = clone_string(&self.heads[mi]);
            let ghost m = my_h@;
            let my_idx = self.find_node(&my_h);
            proof {
                lemma_first_where_bounds(g3.nodes, id_pred(m));
                lemma_node_with_id(g3.nodes, m);
                assert(owned_by(g3.nodes, n.client_id)(m));
            }
            let my_ts = self.nodes[my_idx].timestamp;
            let ghost mn = node_with_id(g3.nodes, m).unwrap();
            assert(mn == g3.nodes[my_idx as int]);
            let ghost f = |o: Seq<char>| conflict_spec(g3.file_path, mn, node_with_id(g3.nodes, o).unwrap(), true);
            let mut k: usize = 0;
            while k < others.len()
                invariant
                    k <= others.len(),
                    str_views(others@) == ov,
                    ov == keep(g3.heads, owned_by_other(g3.nodes, n.client_id)),
                    forall|j: int| 0 <= j < ov.len() ==> owned_by_other(g3.nodes, n.client_id)(#[trigger] ov[j]),
                    self@.nodes == g3.nodes,
                    self@.file_path == g3.file_path,
                    self@.children == g3.children,
                    self@.parents == g3.parents,
                    self.wf(),
                    my_idx < self.nodes.len(),
                    self@.nodes[my_idx as int] == mn,
                    my_ts == mn.timestamp,
                    my_h@ == m,
                    mn == node_with_id(g3.nodes, m).unwrap(),
                    m == g3.heads[mi as int],
                    mi < g3.heads.len(),
                    f == (|o: Seq<char>| conflict_spec(g3.file_path, mn, node_with_id(g3.nodes, o).unwrap(), true)),
                    self@.heads == settle_heads(g3.heads, m, mn.timestamp, ov, g3.nodes, k as nat),
                    conflict_views(conflicts@) == ov.take(k as int).map_values(f),
                decreases others.len() - k,
            {
                let ghost o = ov[k as int];
                assert(str_views(others@)[k as int] == others@[k as int]@);
                assert(others@[k as int]@ == o);
                assert(owned_by_other(g3.nodes, n.client_id)(o));
                proof {
                    lemma_node_with_id(g3.nodes, o);
                    lemma_first_where_bounds(g3.nodes, id_pred(o));
                }
                let oi = self.find_node(&others[k]);
                let ghost on = node_with_id(g3.nodes, o).unwrap();
                assert(on == g3.nodes[oi as int]);
                let c = make_conflict(&self.file_path, &self.nodes[my_idx], &self.nodes[oi], true);
                let ghost cbefore = conflicts@;
                conflicts.push(c);
                assert(conflict_views(conflicts@) =~= conflict_views(cbefore).push(c@));
                assert(ov.take(k + 1 as int) =~= ov.take(k as int).push(o));
                assert(ov.take(k + 1 as int).map_values(f) =~= ov.take(k as int).map_values(f).push(f(o)));
                let o_ts = self.nodes[oi].timestamp;
                assert(o_ts == on.timestamp);
                let ghost hb = self@.heads;
                assert(settle_heads(g3.heads, m, mn.timestamp, ov, g3.nodes, (k + 1) as nat) == (if mn.timestamp
                    < on.timestamp {
                    remove_first(hb, m)
                } else if mn.timestamp > on.timestamp {
                    remove_first(hb, o)
                } else {
                    hb
                }));
                proof {
                    lemma_heads_contain(self@);
                    lemma_remove_first(hb, m);
                    lemma_remove_first(hb, o);
                }
                if my_ts < o_ts {
                    remove_str(&mut self.heads, &my_h);
                    proof { lemma_wf_heads(with_heads(self@, hb), self@.heads); }
                } else if my_ts > o_ts {
                    let oh = clone_string(&others[k]);
                    assert(oh@ == o);
                    remove_str(&mut self.heads, &oh);
                    assert(self@.heads == remove_first(hb, o));
                    proof { lemma_wf_heads(with_heads(self@, hb), self@.heads); }
                }
                k += 1;
            }
            assert(ov.take(others.len() as int) == ov);
        } else {
            assert(conflict_views(conflicts@) =~= Seq::<ConflictView>::empty());
        }
        conflicts
    }

    /// The index of the parent pair of `id`, or the number of parent pairs.
    fn find_parent(&self, id: &String) -> (i: usize)
        ensures
            i as int == first_where(self@.parents, key_pred(id@)),
    {
        let ghost pv = self@.parents;
        let mut i: usize = 0;
        while i < self.parent_edges.len() && !(self.parent_edges[i].0 == *id)
            invariant
                i <= self.parent_edges.len(),
                pv == self@.parents,
                forall|j: int| 0 <= j < i ==> !key_pred(id@)(#[trigger] pv[j]),
            decreases self.parent_edges.len() - i,
        {
            i += 1;
        }
        proof {
            lemma_first_where(pv, key_pred(id@), i as int);
        }
        i
    }

    /// The head node that last-writer-wins picks: the head with the latest
    /// timestamp, the last such head in head order on a tie.
    pub fn resolve_conflict_lww(&self) -> (r: Option<&VersionNode>)
        ensures
            match r {
                Some(n) => lww_pick(head_nodes(self@.nodes, self@.heads)) == Some(n@),
                None => lww_pick(head_nodes(self@.nodes, self@.heads)) is None,
            },
    {
        let ghost hv = self@.heads;
        let ghost nv = self@.nodes;
        let mut best: Option<&VersionNode> = None;
        let mut k: usize = 0;
        while k < self.heads.len()
            invariant
                k <= self.heads.len(),
                hv == self@.heads,
                nv == self@.nodes,
                match best {
                    Some(n) => lww_pick(head_nodes(nv, hv.take(k as int))) == Some(n@),
                    None => lww_pick(head_nodes(nv, hv.take(k as int))) is None,
                },
            decreases self.heads.len() - k,
        {
            assert(hv.take(k + 1 as int).drop_last() == hv.take(k as int));
            assert(hv.take(k + 1 as int).last() == hv[k as int]);
            let i = self.find_node(&self.heads[k]);
            proof {
                lemma_first_where_bounds(nv, id_pred(hv[k as int]));
            }
            proof {
                let t = hv.take(k as int);
                assert(hv.take(k + 1 as int) == t.push(hv[k as int]));
                assert(hv.take(k + 1 as int).drop_last() == t);
                let hn = head_nodes(nv, t);
                match node_with_id(nv, hv[k as int]) {
                    Some(n) => {
                        assert(head_nodes(nv, hv.take(k + 1 as int)) == hn.push(n));
                        assert(hn.push(n).drop_last() == hn);
                    },
                    None => {
                        assert(head_nodes(nv, hv.take(k + 1 as int)) == hn);
                    },
                }
            }
            if i < self.nodes.len() {
                let cand = &self.nodes[i];
                assert(node_with_id(nv, hv[k as int]) == Some(cand@));
                match best {
                    None => {
                        best = Some(cand);
                    },
                    Some(b) => {
                        if cand.timestamp >= b.timestamp {
                            best = Some(cand);
                        }
                    },
                }
            }
            k += 1;
        }
        assert(hv.take(self.heads.len() as int) == hv);
        best
    }

    /// The block hashes of the last-writer-wins head that `local_hashes` does
    /// not hold, in block order; none when there is no head.
    pub fn get_missing_blocks(&self, local_hashes: &Vec<String>) -> (r: Vec<String>)
        ensures
            str_views(r@) == match lww_pick(head_nodes(self@.nodes, self@.heads)) {
                Some(n) => keep(n.block_hashes, not_in(str_views(local_hashes@))),
                None => Seq::empty(),
            },
    {
        let mut r: Vec<String> = Vec::new();
        match self.resolve_conflict_lww() {
            Some(node) => {
                let ghost bv = str_views(node.block_hashes@);
                let ghost p = not_in(str_views(local_hashes@));
                let mut k: usize = 0;
                while k < node.block_hashes.len()
                    invariant
                        k <= node.block_hashes.len(),
                        bv == str_views(node.block_hashes@),
                        p == not_in(str_views(local_hashes@)),
                        str_views(r@) == keep(bv.take(k as int), p),
                    decreases node.block_hashes.len() - k,
                {
                    proof {
                        lemma_keep_step(bv, p, k as int);
                    }
                    if !contains_str(local_hashes, &node.block_hashes[k]) {
                        let ghost before = r@;
                        let h = clone_string(&node.block_hashes[k]);
                        r.push(h);
                        proof {
                            lemma_str_views_push(before, h);
                        }
                    }
                    k += 1;
                }
                assert(bv.take(node.block_hashes.len() as int) == bv);
            },
            None => {
                assert(str_views(r@) =~= Seq::<Seq<char>>::empty());
            },
        }
        r
    }

    /// Every block hash of every node, each once.
    pub fn get_all_block_hashes(&self) -> (r: Vec<String>)
        ensures
            str_views(r@).no_duplicates(),
            str_views(r@).to_set() == all_block_hashes(self@.nodes),
    {
        let ghost nv = self@.nodes;
        let mut r: Vec<String> = Vec::new();
        let mut i: usize = 0;
        assert(str_views(r@).to_set() =~= Set::<Seq<char>>::empty());
        while i < self.nodes.len()
            invariant
                i <= self.nodes.len(),
                nv == self@.nodes,
                str_views(r@).no_duplicates(),
                str_views(r@).to_set() == all_block_hashes(nv.take(i as int)),
            decreases self.nodes.len() - i,
        {
            let ghost before_outer = str_views(r@).to_set();
            let bs = &self.nodes[i].block_hashes;
            let ghost bv = nv[i as int].block_hashes;
            assert(bv == str_views(bs@));
            let mut j: usize = 0;
            assert(bv.take(0).to_set() =~= Set::<Seq<char>>::empty());
            assert(before_outer + Set::<Seq<char>>::empty() =~= before_outer);
            while j < bs.len()
                invariant
                    j <= bs.len(),
                    i < nv.len(),
                    bv == str_views(bs@),
                    str_views(r@).no_duplicates(),
                    str_views(r@).to_set() == before_outer + bv.take(j as int).to_set(),
                decreases bs.len() - j,
            {
                let ghost before = str_views(r@);
                assert(bs@[j as int]@ == bv[j as int]);
                add_str_once(&mut r, clone_string(&bs[j]));
                proof {
                    lemma_add_once(before, bv[j as int]);
                    assert(bv.take(j + 1 as int) =~= bv.take(j as int).push(bv[j as int]));
                    assert(str_views(r@).to_set() =~= before.to_set().insert(bv[j as int]));
                    bv.take(j as int).lemma_push_to_set_commute(bv[j as int]);
                    assert(bv.take(j + 1 as int).to_set() =~= bv.take(j as int).to_set().insert(bv[j as int]));
                    assert(str_views(r@).to_set() =~= before_outer + bv.take(j + 1 as int).to_set());
                }
                j += 1;
            }
            proof {
                assert(bv.take(bs.len() as int) == bv);
                assert(nv.take(i + 1 as int).drop_last() == nv.take(i as int));
                assert(nv.take(i + 1 as int).last() == nv[i as int]);
            }
            i += 1;
        }
        assert(nv.take(self.nodes.len() as int) == nv);
        r
    }

    /// The node with id `node_id` and its ancestors, following parent edges,
    /// each node once; the walk ends at an id with no node or no parent, or at
    /// an id met before.
    pub fn get_ancestors(&self, node_id: &str) -> (r: Vec<&VersionNode>)
        requires
            self.wf(),
        ensures
            ref_node_views(r@) == ancestors_spec(self@, node_id@),
    {
        let ghost g = self@;
        let ghost fuel0 = (g.nodes.len() + 1) as nat;
        let mut result: Vec<&VersionNode> = Vec::new();
        let mut seen: Vec<String> = Vec::new();
        let mut cur: Option<String> = Some(node_id.to_owned());
        proof {
            assert(ref_node_views(result@) =~= Seq::<NodeView>::empty());
            assert(str_views(seen@) =~= Seq::<Seq<char>>::empty());
        }
        while cur.is_some()
            invariant
                g == self@,
                self.wf(),
                fuel0 == g.nodes.len() + 1,
                str_views(seen@).no_duplicates(),
                seen@.len() <= g.nodes.len() + 1,
                cur is Some ==> forall|k: int| 0 <= k < seen@.len() ==> has_node(g.nodes, #[trigger] str_views(seen@)[k]),
                match cur {
                    Some(c) => ref_node_views(result@) + ancestors_from(
                        g,
                        c@,
                        str_views(seen@),
                        (fuel0 - seen@.len()) as nat,
                    ) == ancestors_spec(g, node_id@),
                    None => ref_node_views(result@) == ancestors_spec(g, node_id@),
                },
            decreases fuel0 - seen@.len(), if cur is Some { 1int } else { 0int },
        {
            let c = match cur {
                Some(c) => c,
                None => {
                    return result;
                },
            };
            let ghost sv = str_views(seen@);
            proof {
                lemma_seen_bound(g.nodes, sv);
            }
            if contains_str(&seen, &c) {
                cur = None;
                assert(ref_node_views(result@) + Seq::<NodeView>::empty() =~= ref_node_views(result@));
            } else {
                let ghost before = seen@;
                let c2 = clone_string(&c);
                seen.push(c2);
                proof {
                    lemma_str_views_push(before, c2);
                }
                let i = self.find_node(&c);
                proof {
                    lemma_first_where_bounds(g.nodes, id_pred(c@));
                    lemma_node_with_id(g.nodes, c@);
                }
                if i < self.nodes.len() {
                    let ghost rb = result@;
                    result.push(&self.nodes[i]);
                    assert(ref_node_views(result@) =~= ref_node_views(rb).push(g.nodes[i as int]));
                    let pi = self.find_parent(&c);
                    proof {
                        lemma_first_where_bounds(g.parents, key_pred(c@));
                        assert(has_node(g.nodes, c@));
                    }
                    if pi < self.parent_edges.len() {
                        cur = Some(clone_string(&self.parent_edges[pi].1));
                        assert(ref_node_views(rb) + ancestors_from(g, c@, sv, (fuel0 - sv.len()) as nat)
                            =~= ref_node_views(result@) + ancestors_from(
                            g,
                            g.parents[pi as int].1,
                            str_views(seen@),
                            (fuel0 - seen@.len()) as nat,
                        ));
                    } else {
                        cur = None;
                        assert(ref_node_views(rb) + ancestors_from(g, c@, sv, (fuel0 - sv.len()) as nat)
                            =~= ref_node_views(result@));
                    }
                } else {
                    cur = None;
                    assert(ref_node_views(result@) + Seq::<NodeView>::empty() =~= ref_node_views(result@));
                }
            }
        }
        result
    }
}

/// The block hashes of all the nodes.
pub open spec fn all_block_hashes(nodes: Seq<NodeView>) -> Set<Seq<char>>
    decreases nodes.len(),
{
    if nodes.len() == 0 {
        Set::empty()
    } else {
        all_block_hashes(nodes.drop_last()) + nodes.last().block_hashes.to_set()
    }
}

/// Holds of a sequence not in `s`.
pub open spec fn not_in(s: Seq<Seq<char>>) -> spec_fn(Seq<char>) -> bool {
    |h: Seq<char>| !s.contains(h)
}

/// The nodes of the heads, in head order, skipping heads without a node.
pub open spec fn head_nodes(nodes: Seq<NodeView>, hs: Seq<Seq<char>>) -> Seq<NodeView>
    decreases hs.len(),
{
    if hs.len() == 0 {
        Seq::empty()
    } else {
        match node_with_id(nodes, hs.last()) {
            Some(n) => head_nodes(nodes, hs.drop_last()).push(n),
            None => head_nodes(nodes, hs.drop_last()),
        }
    }
}

/// The node with the latest timestamp, the last one on a tie.
pub open spec fn lww_pick(ns: Seq<NodeView>) -> Option<NodeView>
    decreases ns.len(),
{
    if ns.len() == 0 {
        None
    } else {
        match lww_pick(ns.drop_last()) {
            Some(b) => if ns.last().timestamp >= b.timestamp {
                Some(ns.last())
            } else {
                Some(b)
            },
            None => Some(ns.last()),
        }
    }
}

/// The parent id recorded for `id`, if any.
pub open spec fn parent_of(ps: Seq<(Seq<char>, Seq<char>)>, id: Seq<char>) -> Option<Seq<char>> {
    let i = first_where(ps, key_pred(id));
    if i < ps.len() {
        Some(ps[i].1)
    } else {
        None
    }
}

/// The nodes met walking up from `id`, with `seen` already visited and at
/// most `fuel` steps.
pub open spec fn ancestors_from(g: GraphView, id: Seq<char>, seen: Seq<Seq<char>>, fuel: nat) -> Seq<
    NodeView,
>
    decreases fuel,
{
    if fuel == 0 || seen.contains(id) {
        Seq::empty()
    } else {
        match node_with_id(g.nodes, id) {
            None => Seq::empty(),
            Some(nd) => seq![nd] + match parent_of(g.parents, id) {
                Some(p) => ancestors_from(g, p, seen.push(id), (fuel - 1) as nat),
                None => Seq::empty(),
            },
        }
    }
}

/// The node `id` and its ancestors. The walk visits each node id at most
/// once, so one step more than there are nodes always suffices.
pub open spec fn ancestors_spec(g: GraphView, id: Seq<char>) -> Seq<NodeView> {
    ancestors_from(g, id, Seq::empty(), (g.nodes.len() + 1) as nat)
}

pub open spec fn ref_node_views(v: Seq<&VersionNode>) -> Seq<NodeView> {
    v.map_values(|n: &VersionNode| n@)
}

/// Distinct node ids are no more than the nodes.
proof fn lemma_seen_bound(nodes: Seq<NodeView>, seen: Seq<Seq<char>>)
    requires
        seen.no_duplicates(),
        forall|k: int| 0 <= k < seen.len() ==> has_node(nodes, #[trigger] seen[k]),
    ensures
        seen.len() <= nodes.len(),
{
    let ids = nodes.map_values(|n: NodeView| n.node_id);
    ids.lemma_cardinality_of_set();
    seen.unique_seq_to_set();
    assert forall|x: Seq<char>| seen.to_set().contains(x) implies ids.to_set().contains(x) by {
        let k = choose|k: int| 0 <= k < seen.len() && seen[k] == x;
        assert(has_node(nodes, seen[k]));
        let j = choose|j: int| 0 <= j < nodes.len() && nodes[j].node_id == x;
        assert(ids[j] == x);
    }
    vstd::set_lib::lemma_len_subset(seen.to_set(), ids.to_set());
}

// ---------------------------------------------------------------------------
// Pairwise conflicts among heads
// ---------------------------------------------------------------------------

/// The conflicts of head `i` against each later head.
pub open spec fn conflict_row(fp: Seq<char>, hn: Seq<NodeView>, i: int) -> Seq<ConflictView> {
    Seq::new((hn.len() - i - 1) as nat, |k: int| conflict_spec(fp, hn[i], hn[i + 1 + k], false))
}

/// The conflicts of every pair of heads (i, j) with i < j and i among the
/// first `n`, ordered by i then j.
pub open spec fn conflict_pairs(fp: Seq<char>, hn: Seq<NodeView>, n: nat) -> Seq<ConflictView>
    decreases n,
{
    if n == 0 {
        Seq::empty()
    } else {
        conflict_pairs(fp, hn, (n - 1) as nat) + conflict_row(fp, hn, n - 1)
    }
}

/// The conflicts between every two heads of graph `g`, reported for `fp`.
pub open spec fn graph_conflicts(g: GraphView, fp: Seq<char>) -> Seq<ConflictView> {
    let hn = head_nodes(g.nodes, g.heads);
    conflict_pairs(fp, hn, hn.len())
}

impl VersionGraph {
    /// The nodes of the heads, in head order.
    fn head_node_refs(&self) -> (r: Vec<&VersionNode>)
        ensures
            ref_node_views(r@) == head_nodes(self@.nodes, self@.heads),
    {
        let ghost hv = self@.heads;
        let ghost nv = self@.nodes;
        let mut r: Vec<&VersionNode> = Vec::new();
        let mut k: usize = 0;
        assert(ref_node_views(r@) =~= Seq::<NodeView>::empty());
        while k < self.heads.len()
            invariant
                k <= self.heads.len(),
                hv == self@.heads,
                nv == self@.nodes,
                ref_node_views(r@) == head_nodes(nv, hv.take(k as int)),
            decreases self.heads.len() - k,
        {
            assert(hv.take(k + 1 as int).drop_last() == hv.take(k as int));
            assert(hv.take(k + 1 as int).last() == hv[k as int]);
            let i = self.find_node(&self.heads[k]);
            proof {
                lemma_first_where_bounds(nv, id_pred(hv[k as int]));
            }
            if i < self.nodes.len() {
                let ghost before = r@;
                r.push(&self.nodes[i]);
                assert(ref_node_views(r@) =~= ref_node_views(before).push(nv[i as int]));
            }
            k += 1;
        }
        assert(hv.take(self.heads.len() as int) == hv);
        r
    }

    /// The conflicts between every two heads, for file `fp`.
    fn pair_conflicts(&self, fp: &String) -> (r: Vec<ConflictInfo>)
        ensures
            conflict_views(r@) == graph_conflicts(self@, fp@),
    {
        let heads = self.head_node_refs();
        let ghost hn = ref_node_views(heads@);
        let mut r: Vec<ConflictInfo> = Vec::new();
        let mut i: usize = 0;
        assert(conflict_views(r@) =~= Seq::<ConflictView>::empty());
        while i < heads.len()
            invariant
                i <= heads.len(),
                hn == ref_node_views(heads@),
                conflict_views(r@) == conflict_pairs(fp@, hn, i as nat),
            decreases heads.len() - i,
        {
            let ghost base = conflict_views(r@);
            let mut j: usize = i + 1;
            while j < heads.len()
                invariant
                    i < j <= heads.len(),
                    hn == ref_node_views(heads@),
                    conflict_views(r@) == base + conflict_row(fp@, hn, i as int).take(j - i - 1),
                decreases heads.len() - j,
            {
                let c = make_conflict(fp, heads[i], heads[j], false);
                let ghost before = r@;
                r.push(c);
                assert(conflict_views(r@) =~= conflict_views(before).push(c@));
                assert(conflict_row(fp@, hn, i as int).take(j - i) =~= conflict_row(fp@, hn, i as int).take(
                    j - i - 1,
                ).push(conflict_spec(fp@, hn[i as int], hn[j as int], false)));
                j += 1;
            }
            assert(conflict_row(fp@, hn, i as int).take(heads.len() - i - 1) =~= conflict_row(
                fp@,
                hn,
                i as int,
            ));
            i += 1;
        }
        r
    }
}

/// The graphs of a store, one per file path.
#[derive(Debug)]
pub struct VersionGraphStore {
    pub graphs: Vec<VersionGraph>,
}

pub open spec fn graph_views(v: Seq<VersionGraph>) -> Seq<GraphView> {
    v.map_values(|g: VersionGraph| g@)
}

/// Holds of the graph of file `fp`.
pub open spec fn path_pred(fp: Seq<char>) -> spec_fn(GraphView) -> bool {
    |g: GraphView| g.file_path == fp
}

/// The graph of file `fp`, if the store has one.
pub open spec fn graph_of(gs: Seq<GraphView>, fp: Seq<char>) -> Option<GraphView> {
    let i = first_where(gs, path_pred(fp));
    if i < gs.len() {
        Some(gs[i])
    } else {
        None
    }
}

/// The conflicts between the heads of the graph of `fp`; none without one.
pub open spec fn file_conflicts(gs: Seq<GraphView>, fp: Seq<char>) -> Seq<ConflictView> {
    match graph_of(gs, fp) {
        Some(g) => graph_conflicts(g, fp),
        None => Seq::empty(),
    }
}

/// The file conflicts of the first `n` graphs, graph after graph.
pub open spec fn store_conflicts(gs: Seq<GraphView>, n: nat) -> Seq<ConflictView>
    decreases n,
{
    if n == 0 {
        Seq::empty()
    } else {
        store_conflicts(gs, (n - 1) as nat) + file_conflicts(gs, gs[n - 1].file_path)
    }
}

/// The store is well formed: every graph is, and no two have one path.
pub open spec fn store_wf(gs: Seq<GraphView>) -> bool {
    &&& forall|i: int| 0 <= i < gs.len() ==> graph_wf(#[trigger] gs[i])
    &&& forall|i: int, j: int|
        0 <= i < j < gs.len() ==> #[trigger] gs[i].file_path != #[trigger] gs[j].file_path
}

impl View for VersionGraphStore {
    type V = Seq<GraphView>;

    open spec fn view(&self) -> Seq<GraphView> {
        graph_views(self.graphs@)
    }
}

impl VersionGraphStore {
    pub open spec fn wf(&self) -> bool {
        store_wf(self@)
    }

    /// An empty store.
    pub fn new() -> (s: Self)
        ensures
            s.wf(),
            s@.len() == 0,
    {
        let s = VersionGraphStore { graphs: Vec::new() };
        assert(s@ =~= Seq::<GraphView>::empty());
        s
    }

    /// The index of the graph of `file_path`, or the number of graphs.
    pub fn find_graph_index(&self, file_path: &str) -> (i: usize)
        ensures
            i as int == first_where(self@, path_pred(file_path@)),
    {
        self.find_graph(file_path)
    }

    fn find_graph(&self, file_path: &str) -> (i: usize)
        ensures
            i as int == first_where(self@, path_pred(file_path@)),
    {
        let ghost gv = self@;
        let fp = file_path.to_owned();
        let mut i: usize = 0;
        while i < self.graphs.len() && !(self.graphs[i].file_path == fp)
            invariant
                i <= self.graphs.len(),
                gv == self@,
                fp@ == file_path@,
                forall|j: int| 0 <= j < i ==> !path_pred(file_path@)(#[trigger] gv[j]),
            decreases self.graphs.len() - i,
        {
            i += 1;
        }
        proof {
            lemma_first_where(gv, path_pred(file_path@), i as int);
        }
        i
    }

    /// The conflicts between every two heads of the graph of `file_path`,
    /// pair (i, j) for i < j in head order; none when the store has no graph
    /// for it.
    pub fn get_file_conflicts(&self, file_path: &str) -> (r: Vec<ConflictInfo>)
        ensures
            conflict_views(r@) == file_conflicts(self@, file_path@),
    {
        let i = self.find_graph(file_path);
        proof {
            lemma_first_where_bounds(self@, path_pred(file_path@));
        }
        if i < self.graphs.len() {
            let fp = file_path.to_owned();
            self.graphs[i].pair_conflicts(&fp)
        } else {
            let r: Vec<ConflictInfo> = Vec::new();
            assert(conflict_views(r@) =~= Seq::<ConflictView>::empty());
            r
        }
    }

    /// The file conflicts of every graph, graph after graph.
    pub fn get_all_conflicts(&self) -> (r: Vec<ConflictInfo>)
        ensures
            conflict_views(r@) == store_conflicts(self@, self@.len()),
    {
        let mut all: Vec<ConflictInfo> = Vec::new();
        let mut k: usize = 0;
        assert(conflict_views(all@) =~= Seq::<ConflictView>::empty());
        while k < self.graphs.len()
            invariant
                k <= self.graphs.len(),
                conflict_views(all@) == store_conflicts(self@, k as nat),
            decreases self.graphs.len() - k,
        {
            let mut more = self.get_file_conflicts(self.graphs[k].file_path.as_str());
            let ghost a = all@;
            let ghost m = more@;
            all.append(&mut more);
            assert(conflict_views(all@) =~= conflict_views(a) + conflict_views(m));
            k += 1;
        }
        all
    }

    /// The graph of `file_path`, made empty and added last when the store has
    /// none.
    pub fn get_or_create(&mut self, file_path: &str) -> (g: &mut VersionGraph)
        requires
            old(self).wf(),
        ensures
            (*g).wf(),
            (*g)@.file_path == file_path@,
            graph_of(old(self)@, file_path@) matches Some(og) ==> (*g)@ == og,
            graph_of(old(self)@, file_path@) is None ==> (*g)@ == empty_graph(file_path@),
            ({
                let i = first_where(old(self)@, path_pred(file_path@));
                &&& i <= old(self)@.len()
                &&& final(self)@ == if i < old(self)@.len() {
                    old(self)@.update(i, final(g)@)
                } else {
                    old(self)@.push(final(g)@)
                }
            }),
    {
        let i = self.find_graph(file_path);
        proof {
            lemma_first_where_bounds(self@, path_pred(file_path@));
        }
        if i == self.graphs.len() {
            self.graphs.push(VersionGraph::new(file_path));
        }
        let g = &mut self.graphs[i];
        g
    }

    /// Adds a version of `file_path` to its graph, creating the graph when
    /// needed, and reports the conflicts that `add_node` finds.
    pub fn publish_version(&mut self, file_path: &str, node: VersionNode) -> (r: Vec<ConflictInfo>)
        requires
            old(self).wf(),
        ensures
            final(self).wf(),
            (final(self)@, conflict_views(r@)) == store_publish(old(self)@, file_path@, node@),
    {
        let ghost s0 = self@;
        let ghost n = node@;
        let ghost i = first_where(s0, path_pred(file_path@));
        proof {
            lemma_first_where_bounds(s0, path_pred(file_path@));
        }
        let graph = self.get_or_create(file_path);
        let ghost g0 = graph@;
        let r = graph.add_node(node);
        proof {
            lemma_add_node_path(g0, n);
            let s1 = self@;
            assert forall|a: int, b: int| 0 <= a < b < s1.len() implies #[trigger] s1[a].file_path
                != #[trigger] s1[b].file_path by {
                if b == i && i == s0.len() {
                    assert(!path_pred(file_path@)(s0[a]));
                }
                if a == i || b == i {
                    if a != i {
                        assert(s1[a] == s0[a]);
                    } else if b != i {
                        assert(s1[b] == s0[b]);
                        assert(s0[i].file_path == file_path@);
                    }
                }
            }
            assert forall|a: int| 0 <= a < s1.len() implies graph_wf(#[trigger] s1[a]) by {
                if a != i {
                    assert(s1[a] == s0[a]);
                }
            }
        }
        r
    }
}

proof fn lemma_add_node_path(g: GraphView, n: NodeView)
    requires
        graph_wf(g),
    ensures
        add_node_spec(g, n).0.file_path == g.file_path,
{
}

/// The store and the conflicts after adding node `n` to the graph of `fp`,
/// which is created empty and added last when missing.
pub open spec fn store_publish(gs: Seq<GraphView>, fp: Seq<char>, n: NodeView) -> (Seq<GraphView>, Seq<
    ConflictView,
>) {
    let g0 = match graph_of(gs, fp) {
        Some(og) => og,
        None => empty_graph(fp),
    };
    let i = first_where(gs, path_pred(fp));
    let r = add_node_spec(g0, n);
    (
        if i < gs.len() {
            gs.update(i, r.0)
        } else {
            gs.push(r.0)
        },
        r.1,
    )
}

/// The graph of `fp` with nothing in it.
pub open spec fn empty_graph(fp: Seq<char>) -> GraphView {
    GraphView {
        file_path: fp,
        nodes: Seq::empty(),
        children: Seq::empty(),
        parents: Seq::empty(),
        heads: Seq::empty(),
    }
}


// ---------------------------------------------------------------------------
// Laws
// ---------------------------------------------------------------------------

proof fn lemma_insert_node_lookup(nodes: Seq<NodeView>, n: NodeView, id: Seq<char>)
    ensures
        id == n.node_id ==> node_with_id(insert_node(nodes, n), id) == Some(n),
        id != n.node_id ==> node_with_id(insert_node(nodes, n), id) == node_with_id(nodes, id),
{
    let r = insert_node(nodes, n);
    let i = first_where(nodes, id_pred(n.node_id));
    lemma_first_where_bounds(nodes, id_pred(n.node_id));
    lemma_first_where_bounds(nodes, id_pred(id));
    let j = first_where(nodes, id_pred(id));
    if id == n.node_id {
        if i < nodes.len() {
            assert forall|k: int| 0 <= k < i implies !id_pred(id)(#[trigger] r[k]) by {
                assert(r[k] == nodes[k]);
            }
            lemma_first_where(r, id_pred(id), i);
        } else {
            assert forall|k: int| 0 <= k < nodes.len() implies !id_pred(id)(#[trigger] r[k]) by {
                assert(r[k] == nodes[k]);
            }
            lemma_first_where(r, id_pred(id), nodes.len() as int);
        }
    } else {
        if i < nodes.len() {
            assert(nodes[i].node_id == n.node_id);
            assert forall|k: int| 0 <= k < j implies !id_pred(id)(#[trigger] r[k]) by {
                if k != i {
                    assert(r[k] == nodes[k]);
                }
            }
            if j < nodes.len() {
                assert(j != i);
                assert(r[j] == nodes[j]);
            }
            lemma_first_where(r, id_pred(id), j);
        } else {
            assert forall|k: int| 0 <= k < j implies !id_pred(id)(#[trigger] r[k]) by {
                assert(r[k] == nodes[k]);
            }
            if j < nodes.len() {
                assert(r[j] == nodes[j]);
                lemma_first_where(r, id_pred(id), j);
            } else {
                assert(!id_pred(id)(r[nodes.len() as int]));
                lemma_first_where(r, id_pred(id), r.len() as int);
            }
        }
    }
}

/// Adding a node stores it: afterwards the graph holds the node under its
/// id, every other node is as it was, and the graph stays well formed.
pub proof fn lemma_add_node_stores(g: GraphView, n: NodeView, id: Seq<char>)
    requires
        graph_wf(g),
    ensures
        node_with_id(add_node_spec(g, n).0.nodes, n.node_id) == Some(n),
        id != n.node_id ==> node_with_id(add_node_spec(g, n).0.nodes, id) == node_with_id(g.nodes, id),
        add_node_spec(g, n).0.file_path == g.file_path,
{
    lemma_insert_node_lookup(g.nodes, n, n.node_id);
    lemma_insert_node_lookup(g.nodes, n, id);
    let g1 = GraphView {
        file_path: g.file_path,
        nodes: insert_node(g.nodes, n),
        children: g.children,
        parents: g.parents,
        heads: g.heads,
    };
    lemma_insert_wf(g, n);
    lemma_insert_node(g.nodes, n);
    lemma_link_wf(g1, n.node_id, n.parent_hash);
}

/// Every conflict that adding a node reports is on the graph's file, sets a
/// head of the node's client (local) against a head of another client
/// (remote), and is settled last-writer-wins: the later head's client wins,
/// the local one on a tie, and a manual merge is asked for only when the
/// winner has no client id.
pub proof fn lemma_add_node_conflicts(g: GraphView, n: NodeView)
    requires
        graph_wf(g),
    ensures
        forall|k: int| 0 <= k < add_node_spec(g, n).1.len() ==> {
            let c = #[trigger] add_node_spec(g, n).1[k];
            &&& c.file_path == g.file_path
            &&& c.local_client_id == n.client_id
            &&& c.remote_client_id != n.client_id
            &&& c.resolution_strategy == lww_name()
            &&& c.resolved_winner == if c.local_timestamp >= c.remote_timestamp {
                c.local_client_id
            } else {
                c.remote_client_id
            }
            &&& c.needs_manual_merge == (c.resolved_winner.len() == 0)
        },
{
    let cid = n.client_id;
    let g1 = GraphView {
        file_path: g.file_path,
        nodes: insert_node(g.nodes, n),
        children: g.children,
        parents: g.parents,
        heads: g.heads,
    };
    lemma_insert_wf(g, n);
    lemma_insert_node(g.nodes, n);
    lemma_link_wf(g1, n.node_id, n.parent_hash);
    let g2 = link_parent(g1, n.node_id, n.parent_hash);
    let g3 = if has_same_client_child(g2, cid) {
        g2
    } else {
        with_heads(g2, add_once(g2.heads, n.node_id))
    };
    let others = keep(g3.heads, owned_by_other(g3.nodes, cid));
    let mi = first_where(g3.heads, owned_by(g3.nodes, cid));
    lemma_first_where_bounds(g3.heads, owned_by(g3.nodes, cid));
    lemma_keep(g3.heads, owned_by_other(g3.nodes, cid));
    if mi < g3.heads.len() {
        let m = g3.heads[mi];
        assert(owned_by(g3.nodes, cid)(m));
        let mn = node_with_id(g3.nodes, m).unwrap();
        let cs = add_node_spec(g, n).1;
        assert forall|k: int| 0 <= k < cs.len() implies {
            let c = #[trigger] cs[k];
            &&& c.file_path == g.file_path
            &&& c.local_client_id == n.client_id
            &&& c.remote_client_id != n.client_id
            &&& c.resolution_strategy == lww_name()
            &&& c.resolved_winner == if c.local_timestamp >= c.remote_timestamp {
                c.local_client_id
            } else {
                c.remote_client_id
            }
            &&& c.needs_manual_merge == (c.resolved_winner.len() == 0)
        } by {
            let o = others[k];
            assert(owned_by_other(g3.nodes, cid)(o));
            assert(cs[k] == conflict_spec(g3.file_path, mn, node_with_id(g3.nodes, o).unwrap(), true));
        }
    }
}

/// Last-writer-wins picks a head with the latest timestamp: none only when
/// there are no heads, else one of them, no earlier than any other.
pub proof fn lemma_lww_pick_latest(ns: Seq<NodeView>)
    ensures
        ns.len() == 0 <==> lww_pick(ns) is None,
        lww_pick(ns) matches Some(b) ==> ns.contains(b)
            && forall|i: int| 0 <= i < ns.len() ==> (#[trigger] ns[i]).timestamp <= b.timestamp,
    decreases ns.len(),
{
    if ns.len() > 0 {
        let t = ns.drop_last();
        lemma_lww_pick_latest(t);
        let b = lww_pick(ns).unwrap();
        match lww_pick(t) {
            Some(pb) => {
                if ns.last().timestamp >= pb.timestamp {
                    assert(ns[ns.len() - 1] == b);
                } else {
                    let k = choose|k: int| 0 <= k < t.len() && t[k] == pb;
                    assert(ns[k] == pb);
                }
                assert forall|i: int| 0 <= i < ns.len() implies (#[trigger] ns[i]).timestamp <= b.timestamp by {
                    if i < t.len() {
                        assert(ns[i] == t[i]);
                    }
                }
            },
            None => {
                assert(ns[ns.len() - 1] == b);
            },
        }
    }
}

proof fn lemma_keep_complete<T>(s: Seq<T>, p: spec_fn(T) -> bool, x: T)
    requires
        s.contains(x),
        p(x),
    ensures
        keep(s, p).contains(x),
    decreases s.len(),
{
    if s.last() == x {
        assert(keep(s, p).last() == x);
    } else {
        let k = choose|k: int| 0 <= k < s.len() && s[k] == x;
        assert(s.drop_last()[k] == x);
        lemma_keep_complete(s.drop_last(), p, x);
        let r = keep(s.drop_last(), p);
        let j = choose|j: int| 0 <= j < r.len() && r[j] == x;
        if p(s.last()) {
            assert(keep(s, p)[j] == x);
        }
    }
}

/// The blocks missing locally are exactly the blocks of the picked head that
/// the local store does not hold.
pub proof fn lemma_missing_blocks(head: NodeView, local: Seq<Seq<char>>, h: Seq<char>)
    ensures
        keep(head.block_hashes, not_in(local)).contains(h) <==> (head.block_hashes.contains(h)
            && !local.contains(h)),
{
    lemma_keep(head.block_hashes, not_in(local));
    if keep(head.block_hashes, not_in(local)).contains(h) {
        let k = choose|k: int| 0 <= k < keep(head.block_hashes, not_in(local)).len()
            && keep(head.block_hashes, not_in(local))[k] == h;
        assert(not_in(local)(keep(head.block_hashes, not_in(local))[k]));
    }
    if head.block_hashes.contains(h) && !local.contains(h) {
        lemma_keep_complete(head.block_hashes, not_in(local), h);
    }
}

/// Publishing a version to the store stores it in the graph of its file:
/// afterwards that graph exists and holds the node under its id.
pub proof fn lemma_publish_stores(gs: Seq<GraphView>, fp: Seq<char>, n: NodeView)
    requires
        store_wf(gs),
    ensures
        graph_of(store_publish(gs, fp, n).0, fp) matches Some(g) && node_with_id(g.nodes, n.node_id)
            == Some(n),
{
    let i = first_where(gs, path_pred(fp));
    lemma_first_where_bounds(gs, path_pred(fp));
    let g0 = match graph_of(gs, fp) {
        Some(og) => og,
        None => empty_graph(fp),
    };
    if i < gs.len() {
        assert(graph_wf(gs[i]));
    }
    assert(graph_wf(g0));
    lemma_add_node_stores(g0, n, n.node_id);
    let r = add_node_spec(g0, n).0;
    let gs2 = store_publish(gs, fp, n).0;
    assert(r.file_path == fp);
    if i < gs.len() {
        assert forall|k: int| 0 <= k < i implies !path_pred(fp)(#[trigger] gs2[k]) by {
            assert(gs2[k] == gs[k]);
        }
        lemma_first_where(gs2, path_pred(fp), i);
    } else {
        assert forall|k: int| 0 <= k < gs.len() implies !path_pred(fp)(#[trigger] gs2[k]) by {
            assert(gs2[k] == gs[k]);
        }
        lemma_first_where(gs2, path_pred(fp), gs.len() as int);
    }
}


// ---------------------------------------------------------------------------
// What adding nodes with new ids keeps
// ---------------------------------------------------------------------------

/// No head has a child, and every parent pair has its child pair and the
/// other way round.
pub open spec fn graph_links(g: GraphView) -> bool {
    &&& forall|h: int, k: int|
        0 <= h < g.heads.len() && 0 <= k < g.children.len() ==> #[trigger] g.children[k].0 != #[trigger] g.heads[h]
    &&& forall|i: int| 0 <= i < g.parents.len() ==> g.children.contains(((#[trigger] g.parents[i]).1, g.parents[i].0))
    &&& forall|k: int| 0 <= k < g.children.len() ==> g.parents.contains(((#[trigger] g.children[k]).1, g.children[k].0))
}

/// The node reached from `id` after `k` steps to the parent, if any.
pub open spec fn ancestor_at(g: GraphView, id: Seq<char>, k: nat) -> Option<Seq<char>>
    decreases k,
{
    if k == 0 {
        Some(id)
    } else {
        match ancestor_at(g, id, (k - 1) as nat) {
            Some(a) => parent_of(g.parents, a),
            None => None,
        }
    }
}

/// Following parents from any node never comes back to it.
pub open spec fn parents_acyclic(g: GraphView) -> bool {
    forall|id: Seq<char>, k: nat| k > 0 ==> #[trigger] ancestor_at(g, id, k) != Some(id)
}

/// What adding nodes with new ids keeps: the graph is well formed, no head
/// has a child, every parent pair has its child pair and the other way
/// round, and following parents never comes back to where it started.
pub open spec fn graph_inv(g: GraphView) -> bool {
    &&& graph_wf(g)
    &&& graph_links(g)
    &&& parents_acyclic(g)
}

/// One step to the parent first, then `k` more.
proof fn lemma_ancestor_front(g: GraphView, x: Seq<char>, k: nat)
    ensures
        ancestor_at(g, x, k + 1) == (match parent_of(g.parents, x) {
            Some(p) => ancestor_at(g, p, k),
            None => None,
        }),
    decreases k,
{
    assert(ancestor_at(g, x, 0) == Some(x));
    if k > 0 {
        lemma_ancestor_front(g, x, (k - 1) as nat);
        assert((k - 1) as nat + 1 == k);
        match parent_of(g.parents, x) {
            Some(p) => {
                assert(ancestor_at(g, x, k) == ancestor_at(g, p, (k - 1) as nat));
                assert(ancestor_at(g, p, k) == (match ancestor_at(g, p, (k - 1) as nat) {
                    Some(a) => parent_of(g.parents, a),
                    None => None,
                }));
            },
            None => {
                assert(ancestor_at(g, x, k) is None);
            },
        }
    } else {
        match parent_of(g.parents, x) {
            Some(p) => {
                assert(ancestor_at(g, p, 0) == Some(p));
            },
            None => {},
        }
    }
}

/// Walking up from a node other than `id` is the same in two graphs whose
/// parents differ only at `id`, when `id` is nobody's parent.
proof fn lemma_ancestor_same(g: GraphView, r: GraphView, id: Seq<char>, x: Seq<char>, k: nat)
    requires
        forall|y: Seq<char>| y != id ==> #[trigger] parent_of(r.parents, y) == parent_of(g.parents, y),
        forall|y: Seq<char>| #[trigger] parent_of(g.parents, y) != Some(id),
        x != id,
    ensures
        ancestor_at(r, x, k) == ancestor_at(g, x, k),
        ancestor_at(g, x, k) != Some(id),
    decreases k,
{
    if k > 0 {
        lemma_ancestor_same(g, r, id, x, (k - 1) as nat);
        match ancestor_at(g, x, (k - 1) as nat) {
            Some(a) => {
                assert(parent_of(r.parents, a) == parent_of(g.parents, a));
                assert(parent_of(g.parents, a) != Some(id));
            },
            None => {},
        }
    }
}

/// The parent recorded for `y` after a pair for a key without one is added.
proof fn lemma_parent_of_push(ps: Seq<(Seq<char>, Seq<char>)>, e: (Seq<char>, Seq<char>), y: Seq<char>)
    requires
        parent_of(ps, e.0) is None,
    ensures
        parent_of(ps.push(e), y) == (if y == e.0 {
            Some(e.1)
        } else {
            parent_of(ps, y)
        }),
{
    lemma_first_where_bounds(ps, key_pred(y));
    lemma_first_where_bounds(ps, key_pred(e.0));
    let j = first_where(ps, key_pred(y));
    let r = ps.push(e);
    assert forall|k: int| 0 <= k < j implies !key_pred(y)(#[trigger] r[k]) by {
        assert(r[k] == ps[k]);
    }
    if j < ps.len() {
        assert(r[j] == ps[j]);
        lemma_first_where(r, key_pred(y), j);
    } else if y == e.0 {
        assert(r[j] == e);
        lemma_first_where(r, key_pred(y), j);
    } else {
        assert(r[j] == e);
        assert forall|k: int| 0 <= k < j + 1 implies !key_pred(y)(#[trigger] r[k]) by {
            if k < j {
                assert(r[k] == ps[k]);
            }
        }
        lemma_first_where(r, key_pred(y), j + 1);
    }
}

/// Giving a node that nobody has as parent at most one parent other than
/// itself keeps the parents free of cycles.
proof fn lemma_acyclic_after_link(g: GraphView, r: GraphView, id: Seq<char>, pid: Option<Seq<char>>)
    requires
        parents_acyclic(g),
        forall|y: Seq<char>| y != id ==> #[trigger] parent_of(r.parents, y) == parent_of(g.parents, y),
        forall|y: Seq<char>| #[trigger] parent_of(g.parents, y) != Some(id),
        parent_of(r.parents, id) == pid,
        pid != Some(id),
    ensures
        parents_acyclic(r),
{
    assert forall|x: Seq<char>, k: nat| k > 0 implies #[trigger] ancestor_at(r, x, k) != Some(x) by {
        if x != id {
            lemma_ancestor_same(g, r, id, x, k);
            assert(ancestor_at(g, x, k) != Some(x));
        } else {
            lemma_ancestor_front(r, id, (k - 1) as nat);
            assert((k - 1) as nat + 1 == k);
            match pid {
                Some(p) => {
                    lemma_ancestor_same(g, r, id, p, (k - 1) as nat);
                },
                None => {},
            }
        }
    }
}

proof fn lemma_pos_new(nodes: Seq<NodeView>, n: NodeView)
    requires
        !has_node(nodes, n.node_id),
    ensures
        first_where(nodes, id_pred(n.node_id)) == nodes.len(),
        insert_node(nodes, n) == nodes.push(n),
{
    lemma_node_with_id(nodes, n.node_id);
    lemma_first_where_bounds(nodes, id_pred(n.node_id));
    let r = nodes.push(n);
    assert forall|k: int| 0 <= k < nodes.len() implies !id_pred(n.node_id)(#[trigger] r[k]) by {
        assert(r[k] == nodes[k]);
        if id_pred(n.node_id)(nodes[k]) {
            assert(has_node(nodes, n.node_id));
        }
    }
    lemma_first_where(r, id_pred(n.node_id), nodes.len() as int);
}

proof fn lemma_settle_subset(
    hs: Seq<Seq<char>>,
    m: Seq<char>,
    tm: i64,
    others: Seq<Seq<char>>,
    nodes: Seq<NodeView>,
    k: nat,
)
    requires
        hs.no_duplicates(),
    ensures
        settle_heads(hs, m, tm, others, nodes, k).no_duplicates(),
        forall|y: Seq<char>| settle_heads(hs, m, tm, others, nodes, k).contains(y) ==> hs.contains(y),
    decreases k,
{
    if k > 0 && k <= others.len() {
        lemma_settle_subset(hs, m, tm, others, nodes, (k - 1) as nat);
        let prev = settle_heads(hs, m, tm, others, nodes, (k - 1) as nat);
        lemma_remove_first(prev, m);
        lemma_remove_first(prev, others[k - 1]);
    }
}

/// The empty graph has what adding nodes keeps.
pub proof fn lemma_empty_graph_inv(fp: Seq<char>)
    ensures
        graph_inv(empty_graph(fp)),
{
    let g = empty_graph(fp);
    assert forall|id: Seq<char>, k: nat| k > 0 implies #[trigger] ancestor_at(g, id, k) != Some(id) by {
        lemma_ancestor_front(g, id, (k - 1) as nat);
        assert((k - 1) as nat + 1 == k);
        assert(parent_of(g.parents, id) is None);
    }
}

/// Adding a node with a new id keeps what `graph_inv` says: the graph stays
/// well formed, no head gains a child, parent and child pairs stay
/// mirrored, and the one new parent pair leads from the new node to an old
/// one, which makes no cycle.
pub proof fn lemma_add_node_inv(g: GraphView, n: NodeView)
    requires
        graph_inv(g),
        !has_node(g.nodes, n.node_id),
    ensures
        graph_inv(add_node_spec(g, n).0),
{
    let id = n.node_id;
    let cid = n.client_id;
    lemma_pos_new(g.nodes, n);
    let nodes1 = g.nodes.push(n);
    let g1 = GraphView {
        file_path: g.file_path,
        nodes: insert_node(g.nodes, n),
        children: g.children,
        parents: g.parents,
        heads: g.heads,
    };
    assert(g1.nodes == nodes1);
    lemma_insert_wf(g, n);
    lemma_insert_node(g.nodes, n);
    lemma_link_wf(g1, id, n.parent_hash);
    let g2 = link_parent(g1, id, n.parent_hash);
    // what linking does
    let linked = match n.parent_hash {
        Some(p) => first_where(nodes1, parent_pred(p, id)) < nodes1.len(),
        None => false,
    };
    let nid = match n.parent_hash {
        Some(p) => nodes1[first_where(nodes1, parent_pred(p, id))].node_id,
        None => id,
    };
    // ids that are nodes of `g` are not `id`
    assert forall|x: Seq<char>| has_node(g.nodes, x) implies x != id by {}
    // endpoints of old edges are old nodes
    assert forall|k: int| 0 <= k < g.children.len() implies has_node(g.nodes, (#[trigger] g.children[k]).0)
        && has_node(g.nodes, g.children[k].1) by {}
    if linked {
        let p = n.parent_hash.unwrap();
        let i = first_where(nodes1, parent_pred(p, id));
        lemma_first_where_bounds(nodes1, parent_pred(p, id));
        assert(parent_pred(p, id)(nodes1[i]));
        assert(i < g.nodes.len()) by {
            if i == g.nodes.len() {
                assert(nodes1[i] == n);
            }
        }
        assert(nodes1[i] == g.nodes[i]);
        assert(has_node(g.nodes, nid));
        // the child pair is new
        assert(!g.children.contains((nid, id))) by {
            if g.children.contains((nid, id)) {
                let k = choose|k: int| 0 <= k < g.children.len() && g.children[k] == (nid, id);
                assert(has_node(g.nodes, g.children[k].1));
            }
        }
        assert(g2.children == g.children.push((nid, id)));
        // the parent pair is new
        lemma_first_where_bounds(g.parents, key_pred(id));
        assert(first_where(g.parents, key_pred(id)) == g.parents.len()) by {
            let j = first_where(g.parents, key_pred(id));
            if j < g.parents.len() {
                assert(g.parents[j].0 == id);
                assert(has_node(g.nodes, g.parents[j].0));
            }
        }
        assert(g2.parents == g.parents.push((id, nid)));
        lemma_remove_first(g.heads, nid);
        assert(g2.heads == remove_first(g.heads, nid));
    } else {
        assert(g2 == g1) by {
            match n.parent_hash {
                Some(p) => {},
                None => {},
            }
        }
    }
    let g3 = if has_same_client_child(g2, cid) {
        g2
    } else {
        with_heads(g2, add_once(g2.heads, id))
    };
    lemma_add_once(g2.heads, id);
    let r = add_node_spec(g, n).0;
    // the heads at the end are among those of `g3`
    assert(r.nodes == nodes1 && r.children == g2.children && r.parents == g2.parents);
    assert(forall|y: Seq<char>| r.heads.contains(y) ==> g3.heads.contains(y)) by {
        let mi = first_where(g3.heads, owned_by(g3.nodes, cid));
        if mi < g3.heads.len() {
            let m = g3.heads[mi];
            let mn = node_with_id(g3.nodes, m).unwrap();
            let others = keep(g3.heads, owned_by_other(g3.nodes, cid));
            lemma_settle_subset(g3.heads, m, mn.timestamp, others, g3.nodes, others.len());
        }
    }
    // heads of `g3` are old heads (not the new parent) or the new node
    assert forall|y: Seq<char>| g3.heads.contains(y) implies y == id || (g.heads.contains(y) && (linked ==> y
        != nid)) by {}
    // the graph stays well formed
    lemma_heads_contain(g2);
    assert(g3.heads.no_duplicates());
    assert(r.heads.no_duplicates()) by {
        let mi = first_where(g3.heads, owned_by(g3.nodes, cid));
        if mi < g3.heads.len() {
            let m = g3.heads[mi];
            let mn = node_with_id(g3.nodes, m).unwrap();
            let others = keep(g3.heads, owned_by_other(g3.nodes, cid));
            lemma_settle_subset(g3.heads, m, mn.timestamp, others, g3.nodes, others.len());
        }
    }
    assert(has_node(nodes1, id)) by {
        lemma_node_with_id(nodes1, id);
        assert(nodes1[g.nodes.len() as int] == n);
        lemma_first_where_bounds(nodes1, id_pred(id));
    }
    assert forall|y: Seq<char>| r.heads.contains(y) implies has_node(g2.nodes, y) by {
        assert(g3.heads.contains(y));
    }
    lemma_wf_heads(g2, r.heads);
    assert(r == with_heads(g2, r.heads));
    // no head has a child
    assert forall|h: int, k: int| 0 <= h < r.heads.len() && 0 <= k < r.children.len() implies #[trigger] r.children[k].0
        != #[trigger] r.heads[h] by {
        let y = r.heads[h];
        assert(r.heads.contains(y));
        if k < g.children.len() {
            assert(r.children[k] == g.children[k]);
            if y != id {
                let hh = choose|hh: int| 0 <= hh < g.heads.len() && g.heads[hh] == y;
                assert(g.children[k].0 != g.heads[hh]);
            }
        }
    }
    // parent and child pairs mirror each other
    assert forall|i: int| 0 <= i < r.parents.len() implies r.children.contains(((#[trigger] r.parents[i]).1, r.parents[i].0)) by {
        if i < g.parents.len() {
            assert(r.parents[i] == g.parents[i]);
            let k = choose|k: int| 0 <= k < g.children.len() && g.children[k] == (g.parents[i].1, g.parents[i].0);
            assert(r.children[k] == g.children[k]);
        } else {
            assert(r.children[g.children.len() as int] == (nid, id));
        }
    }
    assert forall|k: int| 0 <= k < r.children.len() implies r.parents.contains(((#[trigger] r.children[k]).1, r.children[k].0)) by {
        if k < g.children.len() {
            assert(r.children[k] == g.children[k]);
            let i = choose|i: int| 0 <= i < g.parents.len() && g.parents[i] == (g.children[k].1, g.children[k].0);
            assert(r.parents[i] == g.parents[i]);
        } else {
            assert(r.parents[g.parents.len() as int] == (id, nid));
        }
    }
    // the new node is nobody's parent and gets at most an old node as parent
    assert forall|y: Seq<char>| #[trigger] parent_of(g.parents, y) != Some(id) by {
        lemma_first_where_bounds(g.parents, key_pred(y));
        let j = first_where(g.parents, key_pred(y));
        if j < g.parents.len() {
            assert(has_node(g.nodes, g.parents[j].1));
        }
    }
    assert(parent_of(g.parents, id) is None) by {
        lemma_first_where_bounds(g.parents, key_pred(id));
        let j = first_where(g.parents, key_pred(id));
        if j < g.parents.len() {
            assert(g.parents[j].0 == id);
            assert(has_node(g.nodes, g.parents[j].0));
        }
    }
    let pid = if linked {
        Some(nid)
    } else {
        None
    };
    assert forall|y: Seq<char>| y != id implies #[trigger] parent_of(r.parents, y) == parent_of(g.parents, y) by {
        if linked {
            lemma_parent_of_push(g.parents, (id, nid), y);
        }
    }
    if linked {
        lemma_parent_of_push(g.parents, (id, nid), id);
    }
    lemma_acyclic_after_link(g, r, id, pid);
}

} // verus!
