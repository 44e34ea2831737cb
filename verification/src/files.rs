//! The file tree shown to the user: the folders and tracked files under a
//! root, folders first and then by lower-cased name. The directory walk
//! runs outside and hands over one entry per path it found.

use vstd::prelude::*;
use crate::text::{chars_of, string_of, to_lowercase, unicode_lowercase};
use crate::seqs::{first_where, keep, lemma_first_where, lemma_first_where_bounds, lemma_keep_step};
use crate::watcher::{extension_of, file_type_spec, is_supported_file, supported_spec};

verus! {

broadcast use vstd::string::group_string_axioms;

/// A node of the tree: a folder with its children, or a tracked file.
#[derive(Debug)]
pub struct FileNode {
    pub name: String,
    pub path: String,
    pub is_dir: bool,
    pub file_type: String,
    pub children: Vec<FileNode>,
}

pub open spec fn dir_type() -> Seq<char> {
    seq!['d', 'i', 'r']
}

/// The type shown for a path: its lower-cased extension, or `dir` without
/// one.
pub fn get_file_type_from_path(path: &str) -> (t: String)
    ensures
        t@ == file_type_spec(path@, dir_type()),
{
    match extension_of(path) {
        Some(e) => to_lowercase(e.as_str()),
        None => {
            let d = vec!['d', 'i', 'r'];
            let s = string_of(&d);
            assert(s@ =~= dir_type());
            s
        },
    }
}

/// One path found by the directory walk: the path and its parent with `/`
/// separators (the parent is `None` for a path without one), the last
/// component's name, and whether it is a folder.
#[derive(Debug)]
pub struct TreeEntry {
    pub path: String,
    pub parent: Option<String>,
    pub name: String,
    pub is_dir: bool,
}

/// An entry as plain values: path, parent, name, whether a folder.
pub type EntryView = (Seq<char>, Option<Seq<char>>, Seq<char>, bool);

pub open spec fn opt_view(o: Option<String>) -> Option<Seq<char>> {
    match o {
        Some(s) => Some(s@),
        None => None,
    }
}

impl View for TreeEntry {
    type V = EntryView;

    open spec fn view(&self) -> EntryView {
        (self.path@, opt_view(self.parent), self.name@, self.is_dir)
    }
}

pub open spec fn entry_views(v: Seq<TreeEntry>) -> Seq<EntryView> {
    v.map_values(|e: TreeEntry| e@)
}

/// Whether an entry appears in the tree: folders, and tracked files.
pub open spec fn listed(e: EntryView) -> bool {
    e.3 || supported_spec(e.0)
}

/// The type shown for an entry: `dir` for a folder, else its file type.
pub open spec fn entry_type(e: EntryView) -> Seq<char> {
    if e.3 {
        dir_type()
    } else {
        file_type_spec(e.0, dir_type())
    }
}

/// Code-point order on character sequences, which is the order `String`
/// compares in (UTF-8 keeps the order of code points).
pub open spec fn lex_less(a: Seq<char>, b: Seq<char>) -> bool
    decreases a.len(),
{
    if b.len() == 0 {
        false
    } else if a.len() == 0 {
        true
    } else if a[0] != b[0] {
        (a[0] as u32) < (b[0] as u32)
    } else {
        lex_less(a.drop_first(), b.drop_first())
    }
}

/// Whether `a` comes strictly before `b`: folders before files, and
/// otherwise by lower-cased name.
pub open spec fn precedes(a: EntryView, b: EntryView) -> bool {
    (a.3 && !b.3) || (a.3 == b.3 && lex_less(unicode_lowercase(a.2), unicode_lowercase(b.2)))
}

/// `x` put into `s` after every element that it does not precede.
pub open spec fn insert_sorted(s: Seq<EntryView>, x: EntryView) -> Seq<EntryView> {
    s.insert(first_where(s, |y: EntryView| precedes(x, y)), x)
}

/// `s` sorted by `precedes`, keeping the order of elements that neither
/// precedes (a stable sort).
pub open spec fn sort_entries(s: Seq<EntryView>) -> Seq<EntryView>
    decreases s.len(),
{
    if s.len() == 0 {
        s
    } else {
        insert_sorted(sort_entries(s.drop_last()), s.last())
    }
}

/// The listed entries whose parent is `p`, in walk order.
pub open spec fn children_of(es: Seq<EntryView>, p: Seq<char>) -> Seq<EntryView> {
    keep(es, |e: EntryView| listed(e) && e.1 == Some(p))
}

/// `n` carries the name, path, kind and type of entry `e`.
pub open spec fn node_fields(n: FileNode, e: EntryView) -> bool {
    &&& n.name@ == e.2
    &&& n.path@ == e.0
    &&& n.is_dir == e.3
    &&& n.file_type@ == entry_type(e)
}

/// `ns` is the list of nodes under the path `p`: one node for each listed
/// entry whose parent is `p`, in sorted order, each with the nodes under it
/// to `fuel` more levels (none below the last).
pub open spec fn tree_is(ns: Seq<FileNode>, es: Seq<EntryView>, p: Seq<char>, fuel: nat) -> bool
    decreases fuel,
{
    let cs = sort_entries(children_of(es, p));
    &&& ns.len() == cs.len()
    &&& forall|i: int| 0 <= i < ns.len() ==> {
        &&& node_fields(#[trigger] ns[i], cs[i])
        &&& if fuel == 0 {
            ns[i].children@.len() == 0
        } else {
            tree_is(ns[i].children@, es, cs[i].0, (fuel - 1) as nat)
        }
    }
}

/// `n` is the node of entry `e`, with the nodes under it to `fuel` levels.
pub open spec fn node_is(n: FileNode, es: Seq<EntryView>, e: EntryView, fuel: nat) -> bool {
    &&& node_fields(n, e)
    &&& if fuel == 0 {
        n.children@.len() == 0
    } else {
        tree_is(n.children@, es, e.0, (fuel - 1) as nat)
    }
}

fn lex_less_exec(a: &Vec<char>, b: &Vec<char>) -> (r: bool)
    ensures
        r == lex_less(a@, b@),
{
    let mut i: usize = 0;
    assert(a@.skip(0) =~= a@ && b@.skip(0) =~= b@);
    while i < a.len() && i < b.len() && a[i] == b[i]
        invariant
            i <= a@.len(),
            i <= b@.len(),
            lex_less(a@, b@) == lex_less(a@.skip(i as int), b@.skip(i as int)),
        decreases a.len() - i,
    {
        proof {
            assert(a@.skip(i as int).drop_first() =~= a@.skip(i + 1));
            assert(b@.skip(i as int).drop_first() =~= b@.skip(i + 1));
        }
        i += 1;
    }
    if i == b.len() {
        false
    } else if i == a.len() {
        true
    } else {
        (a[i] as u32) < (b[i] as u32)
    }
}

/// What the tree builder knows of each entry: its view, whether it is
/// listed, and its lower-cased name.
struct Facts {
    listed: Vec<bool>,
    lower: Vec<Vec<char>>,
}

impl Facts {
    spec fn holds(&self, es: Seq<EntryView>) -> bool {
        &&& self.listed@.len() == es.len()
        &&& self.lower@.len() == es.len()
        &&& forall|i: int| 0 <= i < es.len() ==> #[trigger] self.listed@[i] == listed(es[i])
        &&& forall|i: int| 0 <= i < es.len() ==> #[trigger] self.lower@[i]@ == unicode_lowercase(es[i].2)
    }
}

fn gather_facts(entries: &Vec<TreeEntry>) -> (f: Facts)
    ensures
        f.holds(entry_views(entries@)),
{
    let ghost es = entry_views(entries@);
    let mut listed_v: Vec<bool> = Vec::new();
    let mut lower: Vec<Vec<char>> = Vec::new();
    let mut i: usize = 0;
    while i < entries.len()
        invariant
            es == entry_views(entries@),
            i <= entries@.len(),
            listed_v@.len() == i,
            lower@.len() == i,
            forall|k: int| 0 <= k < i ==> #[trigger] listed_v@[k] == listed(es[k]),
            forall|k: int| 0 <= k < i ==> #[trigger] lower@[k]@ == unicode_lowercase(es[k].2),
        decreases entries.len() - i,
    {
        let e = &entries[i];
        assert(es[i as int] == e@);
        let l = e.is_dir || is_supported_file(e.path.as_str());
        listed_v.push(l);
        let lc = to_lowercase(e.name.as_str());
        lower.push(chars_of(lc.as_str()));
        i += 1;
    }
    Facts { listed: listed_v, lower }
}

fn precedes_exec(entries: &Vec<TreeEntry>, facts: &Facts, a: usize, b: usize) -> (r: bool)
    requires
        facts.holds(entry_views(entries@)),
        a < entries@.len(),
        b < entries@.len(),
    ensures
        r == precedes(entry_views(entries@)[a as int], entry_views(entries@)[b as int]),
{
    let da = entries[a].is_dir;
    let db = entries[b].is_dir;
    (da && !db) || (da == db && lex_less_exec(&facts.lower[a], &facts.lower[b]))
}

/// The views of the entries at the given indices.
pub open spec fn at_indices(es: Seq<EntryView>, idx: Seq<usize>) -> Seq<EntryView> {
    idx.map_values(|i: usize| es[i as int])
}

/// The indices of the listed entries whose parent is `p`, sorted.
fn sorted_children(entries: &Vec<TreeEntry>, facts: &Facts, p: &String) -> (idx: Vec<usize>)
    requires
        facts.holds(entry_views(entries@)),
    ensures
        forall|k: int| 0 <= k < idx@.len() ==> #[trigger] idx@[k] < entries@.len(),
        at_indices(entry_views(entries@), idx@) == sort_entries(children_of(entry_views(entries@), p@)),
{
    let ghost es = entry_views(entries@);
    let ghost pred = |e: EntryView| listed(e) && e.1 == Some(p@);
    let mut idx: Vec<usize> = Vec::new();
    let mut i: usize = 0;
    while i < entries.len()
        invariant
            es == entry_views(entries@),
            facts.holds(es),
            pred == (|e: EntryView| listed(e) && e.1 == Some(p@)),
            i <= entries@.len(),
            forall|k: int| 0 <= k < idx@.len() ==> #[trigger] idx@[k] < entries@.len(),
            at_indices(es, idx@) == sort_entries(keep(es.take(i as int), pred)),
        decreases entries.len() - i,
    {
        let e = &entries[i];
        assert(es[i as int] == e@);
        let is_child = facts.listed[i] && match &e.parent {
            Some(q) => *q == *p,
            None => false,
        };
        proof {
            assert(es.take(i + 1).drop_last() =~= es.take(i as int));
            assert(es.take(i + 1).last() == es[i as int]);
        }
        if is_child {
            // insert `i` after every index whose entry it does not precede
            let ghost sv = at_indices(es, idx@);
            let ghost x = es[i as int];
            let ghost xp = |y: EntryView| precedes(x, y);
            let mut j: usize = 0;
            while j < idx.len() && !precedes_exec(entries, facts, i, idx[j])
                invariant
                    es == entry_views(entries@),
                    facts.holds(es),
                    i < entries@.len(),
                    x == es[i as int],
                    xp == (|y: EntryView| precedes(x, y)),
                    sv == at_indices(es, idx@),
                    forall|k: int| 0 <= k < idx@.len() ==> #[trigger] idx@[k] < entries@.len(),
                    j <= idx@.len(),
                    forall|k: int| 0 <= k < j ==> !xp(#[trigger] sv[k]),
                decreases idx.len() - j,
            {
                j += 1;
            }
            proof {
                lemma_first_where(sv, xp, j as int);
            }
            idx.insert(j, i);
            proof {
                assert(at_indices(es, idx@) =~= sv.insert(j as int, x));
                assert(keep(es.take(i + 1), pred) == keep(es.take(i as int), pred).push(x));
                assert(keep(es.take(i + 1), pred).drop_last() =~= keep(es.take(i as int), pred));
            }
        } else {
            proof {
                assert(keep(es.take(i + 1), pred) == keep(es.take(i as int), pred));
            }
        }
        i += 1;
    }
    assert(es.take(i as int) =~= es);
    idx
}

fn copy_string(s: &String) -> (r: String)
    ensures
        r@ == s@,
{
    s.clone()
}

/// The nodes under `p`, built `fuel` levels deep.
fn nodes_under(entries: &Vec<TreeEntry>, facts: &Facts, p: &String, fuel: usize) -> (ns: Vec<FileNode>)
    requires
        facts.holds(entry_views(entries@)),
    ensures
        tree_is(ns@, entry_views(entries@), p@, fuel as nat),
    decreases fuel,
{
    let ghost es = entry_views(entries@);
    let idx = sorted_children(entries, facts, p);
    let ghost cs = sort_entries(children_of(es, p@));
    assert(at_indices(es, idx@) == cs);
    let mut ns: Vec<FileNode> = Vec::new();
    let mut k: usize = 0;
    while k < idx.len()
        invariant
            es == entry_views(entries@),
            facts.holds(es),
            cs == sort_entries(children_of(es, p@)),
            at_indices(es, idx@) == cs,
            forall|m: int| 0 <= m < idx@.len() ==> #[trigger] idx@[m] < entries@.len(),
            k <= idx@.len(),
            ns@.len() == k,
            forall|m: int| 0 <= m < k ==> #[trigger] node_is(ns@[m], es, cs[m], fuel as nat),
        decreases idx.len() - k,
    {
        let j = idx[k];
        let e = &entries[j];
        assert(es[j as int] == e@);
        assert(cs[k as int] == es[j as int]);
        let file_type = if e.is_dir {
            let d = vec!['d', 'i', 'r'];
            let s = string_of(&d);
            assert(s@ =~= dir_type());
            s
        } else {
            get_file_type_from_path(e.path.as_str())
        };
        let children = if fuel == 0 {
            Vec::new()
        } else {
            nodes_under(entries, facts, &e.path, fuel - 1)
        };
        let node = FileNode {
            name: copy_string(&e.name),
            path: copy_string(&e.path),
            is_dir: e.is_dir,
            file_type,
            children,
        };
        assert(node_is(node, es, cs[k as int], fuel as nat));
        ns.push(node);
        k += 1;
    }
    assert(ns@.len() == cs.len());
    assert forall|m: int| 0 <= m < ns@.len() implies {
        &&& node_fields(#[trigger] ns@[m], cs[m])
        &&& if fuel == 0 {
            ns@[m].children@.len() == 0
        } else {
            tree_is(ns@[m].children@, es, cs[m].0, (fuel - 1) as nat)
        }
    } by {
        assert(node_is(ns@[m], es, cs[m], fuel as nat));
    }
    ns
}

/// The tree under the root `root`: the nodes whose parent is the root, each
/// with the nodes under it, folders first and then by lower-cased name.
/// Built to as many levels as there are entries, which the paths of a
/// directory walk (distinct, each below its parent) never exceed.
pub fn build_file_tree(entries: &Vec<TreeEntry>, root: &String) -> (ns: Vec<FileNode>)
    ensures
        tree_is(ns@, entry_views(entries@), root@, entries@.len() as nat),
{
    let facts = gather_facts(entries);
    nodes_under(entries, &facts, root, entries.len())
}


// ---------------------------------------------------------------------------
// The order of siblings
// ---------------------------------------------------------------------------

proof fn lemma_lex_less_irreflexive(a: Seq<char>)
    ensures
        !lex_less(a, a),
    decreases a.len(),
{
    if a.len() > 0 {
        lemma_lex_less_irreflexive(a.drop_first());
    }
}

proof fn lemma_lex_less_asymmetric(a: Seq<char>, b: Seq<char>)
    ensures
        lex_less(a, b) ==> !lex_less(b, a),
    decreases a.len(),
{
    if a.len() > 0 && b.len() > 0 && a[0] == b[0] {
        lemma_lex_less_asymmetric(a.drop_first(), b.drop_first());
    }
}

proof fn lemma_lex_less_transitive(a: Seq<char>, b: Seq<char>, c: Seq<char>)
    ensures
        lex_less(a, b) && lex_less(b, c) ==> lex_less(a, c),
    decreases a.len(),
{
    if a.len() > 0 && b.len() > 0 && c.len() > 0 && a[0] == b[0] && b[0] == c[0] {
        lemma_lex_less_transitive(a.drop_first(), b.drop_first(), c.drop_first());
    }
}

proof fn lemma_precedes_order(a: EntryView, b: EntryView, c: EntryView)
    ensures
        !precedes(a, a),
        precedes(a, b) ==> !precedes(b, a),
        precedes(a, b) && precedes(b, c) ==> precedes(a, c),
{
    let la = unicode_lowercase(a.2);
    let lb = unicode_lowercase(b.2);
    let lc = unicode_lowercase(c.2);
    lemma_lex_less_irreflexive(la);
    lemma_lex_less_asymmetric(la, lb);
    lemma_lex_less_transitive(la, lb, lc);
}

/// No element of `s` precedes an element before it.
pub open spec fn sorted_entries(s: Seq<EntryView>) -> bool {
    forall|i: int, j: int| 0 <= i < j < s.len() ==> !precedes(#[trigger] s[j], #[trigger] s[i])
}

proof fn lemma_insert_sorted(s: Seq<EntryView>, x: EntryView)
    requires
        sorted_entries(s),
    ensures
        sorted_entries(insert_sorted(s, x)),
        insert_sorted(s, x).to_multiset() == s.to_multiset().insert(x),
{
    let xp = |y: EntryView| precedes(x, y);
    lemma_first_where_bounds(s, xp);
    let j0 = first_where(s, xp);
    let r = s.insert(j0, x);
    assert(r == insert_sorted(s, x));
    vstd::seq_lib::to_multiset_insert(s, j0, x);
    assert forall|a: int, b: int| 0 <= a < b < r.len() implies !precedes(#[trigger] r[b], #[trigger] r[a]) by {
        if b < j0 {
            assert(r[a] == s[a] && r[b] == s[b]);
        } else if b == j0 {
            assert(r[a] == s[a] && r[b] == x);
            assert(!xp(s[a]));
        } else if a > j0 {
            assert(r[a] == s[a - 1] && r[b] == s[b - 1]);
        } else if a == j0 {
            assert(r[a] == x && r[b] == s[b - 1]);
            assert(xp(s[j0]));
            lemma_precedes_order(s[b - 1], x, s[j0]);
            lemma_precedes_order(x, s[j0], x);
        } else {
            assert(r[a] == s[a] && r[b] == s[b - 1]);
        }
    }
}

/// Siblings come folders first and then by lower-cased name: the sorted
/// list has the same entries, and no entry precedes one before it.
pub proof fn lemma_sort_entries(s: Seq<EntryView>)
    ensures
        sorted_entries(sort_entries(s)),
        sort_entries(s).to_multiset() == s.to_multiset(),
    decreases s.len(),
{
    if s.len() > 0 {
        lemma_sort_entries(s.drop_last());
        lemma_insert_sorted(sort_entries(s.drop_last()), s.last());
        vstd::seq_lib::to_multiset_build(s.drop_last(), s.last());
        assert(s.drop_last().push(s.last()) =~= s);
    } else {
        assert(sort_entries(s) =~= s);
    }
}

/// The nodes of a tree level come folders first, and nodes of the same kind
/// by their lower-cased names in code-point order: for a node before
/// another, the later one is not a folder unless the earlier one is, and
/// when both are of one kind the later one's lower-cased name is not less
/// than the earlier one's. (Each node's children form a tree level too.)
pub proof fn lemma_tree_siblings_ordered(ns: Seq<FileNode>, es: Seq<EntryView>, p: Seq<char>, fuel: nat)
    requires
        tree_is(ns, es, p, fuel),
    ensures
        forall|i: int, j: int|
            0 <= i < j < ns.len() ==> (#[trigger] ns[i].is_dir || !(#[trigger] ns[j]).is_dir) && (ns[i].is_dir
                == ns[j].is_dir ==> !lex_less(unicode_lowercase(ns[j].name@), unicode_lowercase(ns[i].name@))),
{
    let cs = sort_entries(children_of(es, p));
    lemma_sort_entries(children_of(es, p));
    assert forall|i: int, j: int| 0 <= i < j < ns.len() implies (#[trigger] ns[i].is_dir || !(
    #[trigger] ns[j]).is_dir) && (ns[i].is_dir == ns[j].is_dir ==> !lex_less(
        unicode_lowercase(ns[j].name@),
        unicode_lowercase(ns[i].name@),
    )) by {
        assert(node_fields(ns[i], cs[i]));
        assert(node_fields(ns[j], cs[j]));
        assert(!precedes(cs[j], cs[i]));
    }
}

} // verus!
