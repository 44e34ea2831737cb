//! The rules of the version store: how versions are numbered, which are
//! stored whole, when a change makes no new version, how a version is
//! described, and how a stored vector's bytes are cut into components. The
//! database itself is reached from outside.

use vstd::prelude::*;
use crate::text::{push_char, int_numeral, push_i64};
use crate::records::{VersionRecord, FileBlock};
use crate::seqs::{str_views, lemma_first_where};
use crate::client::{held_views, held_hash, held_lookup};

verus! {

broadcast use vstd::string::group_string_axioms;

/// The number the next version of a file gets: one more than the largest
/// stored, or `1` when none is stored.
pub open spec fn next_version_spec(max_stored: Option<i64>) -> int {
    match max_stored {
        Some(m) => m + 1,
        None => 1,
    }
}

/// The number of the next version of a file, given the largest stored one.
pub fn next_version_number(max_stored: Option<i64>) -> (n: i64)
    requires
        max_stored matches Some(m) ==> m < i64::MAX,
    ensures
        n == next_version_spec(max_stored),
{
    match max_stored {
        Some(m) => m + 1,
        None => 1,
    }
}

/// Whether a version is stored whole: the first, and every tenth.
pub open spec fn full_snapshot_spec(version_number: int) -> bool {
    version_number == 1 || version_number % 10 == 0
}

/// Whether version `version_number` is stored whole.
pub fn is_full_snapshot(version_number: i64) -> (b: bool)
    ensures
        b == full_snapshot_spec(version_number as int),
{
    version_number == 1 || version_number % 10 == 0
}

/// Whether new content leaves a file unchanged: the file had a hash, and the
/// new content hashes to the same.
pub open spec fn unchanged_spec(prev_hash: Seq<char>, new_hash: Seq<char>) -> bool {
    prev_hash.len() > 0 && prev_hash == new_hash
}

/// Whether content hashing to `new_hash` leaves a file whose stored hash is
/// `prev_hash` unchanged, so that no version is made.
pub fn is_unchanged(prev_hash: &String, new_hash: &String) -> (b: bool)
    ensures
        b == unchanged_spec(prev_hash@, new_hash@),
{
    !prev_hash.as_str().is_empty() && *prev_hash == *new_hash
}

/// What storing new content does: `None` when the file is unchanged, else the
/// number of the new version and whether it is stored whole.
pub open spec fn plan_spec(prev_hash: Seq<char>, new_hash: Seq<char>, max_stored: Option<i64>) -> Option<(int, bool)> {
    if unchanged_spec(prev_hash, new_hash) {
        None
    } else {
        let n = next_version_spec(max_stored);
        Some((n, full_snapshot_spec(n)))
    }
}

/// Decides what storing new content does (see `plan_spec`).
pub fn plan_new_version(prev_hash: &String, new_hash: &String, max_stored: Option<i64>) -> (r: Option<(i64, bool)>)
    requires
        max_stored matches Some(m) ==> m < i64::MAX,
    ensures
        match r {
            Some((n, full)) => plan_spec(prev_hash@, new_hash@, max_stored) == Some((n as int, full)),
            None => plan_spec(prev_hash@, new_hash@, max_stored) is None,
        },
{
    if is_unchanged(prev_hash, new_hash) {
        None
    } else {
        let n = next_version_number(max_stored);
        Some((n, is_full_snapshot(n)))
    }
}

/// `初始版本`: the description of a file's first version.
pub open spec fn first_version_text() -> Seq<char> {
    seq!['初', '始', '版', '本']
}

/// The description of a later version: `完整快照版本 #{n} ({k} 个块)` for one
/// stored whole, `增量版本 #{n} ({k} 个块)` for one stored as a change.
pub open spec fn later_version_text(n: int, full: bool, blocks: int) -> Seq<char> {
    let head = if full {
        seq!['完', '整', '快', '照', '版', '本']
    } else {
        seq!['增', '量', '版', '本']
    };
    head + seq![' ', '#'] + int_numeral(n) + seq![' ', '('] + int_numeral(blocks) + seq![' ', '个', '块', ')']
}

/// The description shown beside a version.
pub open spec fn description_spec(version_number: int, full: bool, blocks: int) -> Seq<char> {
    if version_number == 1 {
        first_version_text()
    } else {
        later_version_text(version_number, full, blocks)
    }
}

fn push_all(s: &mut String, cs: &[char])
    ensures
        final(s)@ == old(s)@ + cs@,
{
    let mut i: usize = 0;
    while i < cs.len()
        invariant
            i <= cs.len(),
            s@ == old(s)@ + cs@.take(i as int),
        decreases cs.len() - i,
    {
        push_char(s, cs[i]);
        i += 1;
        assert(cs@.take(i as int) =~= cs@.take(i - 1 as int).push(cs@[i - 1]));
    }
    assert(cs@.take(cs.len() as int) =~= cs@);
}

/// The description of a stored version (see `description_spec`).
pub fn version_description(v: &VersionRecord) -> (d: String)
    ensures
        d@ == description_spec(v.version_number as int, v.is_full_snapshot, v.block_count as int),
{
    let mut d = String::new();
    if v.version_number == 1 {
        push_all(&mut d, &['初', '始', '版', '本']);
        assert(d@ =~= first_version_text());
        return d;
    }
    if v.is_full_snapshot {
        push_all(&mut d, &['完', '整', '快', '照', '版', '本']);
    } else {
        push_all(&mut d, &['增', '量', '版', '本']);
    }
    push_all(&mut d, &[' ', '#']);
    push_i64(&mut d, v.version_number);
    push_all(&mut d, &[' ', '(']);
    push_i64(&mut d, v.block_count);
    push_all(&mut d, &[' ', '个', '块', ')']);
    assert(d@ =~= later_version_text(v.version_number as int, v.is_full_snapshot, v.block_count as int));
    d
}

/// The index of the last version stored whole, or 0 when none is: the
/// content of the last version can be rebuilt from there.
pub open spec fn last_snapshot_index(vs: Seq<VersionRecord>) -> int
    decreases vs.len(),
{
    if vs.len() == 0 {
        0
    } else if vs.last().content_snapshot is Some {
        vs.len() - 1
    } else {
        last_snapshot_index(vs.drop_last())
    }
}

/// Where to start rebuilding the last version of a chain sorted by version
/// number (see `last_snapshot_index`).
pub fn rebuild_start(versions: &[VersionRecord]) -> (i: usize)
    ensures
        i == last_snapshot_index(versions@),
        versions@.len() > 0 ==> i < versions@.len(),
        i > 0 ==> versions@[i as int].content_snapshot is Some,
        forall|j: int| i < j < versions@.len() ==> (#[trigger] versions@[j]).content_snapshot is None,
{
    let mut k: usize = versions.len();
    assert(versions@.take(k as int) =~= versions@);
    while k > 0 && versions[k - 1].content_snapshot.is_none()
        invariant
            k <= versions@.len(),
            last_snapshot_index(versions@) == last_snapshot_index(versions@.take(k as int)),
            forall|j: int| k <= j < versions@.len() ==> (#[trigger] versions@[j]).content_snapshot is None,
        decreases k,
    {
        assert(versions@.take(k as int).drop_last() =~= versions@.take(k - 1));
        k -= 1;
    }
    proof {
        assert(versions@.take(versions@.len() as int) =~= versions@);
    }
    if k == 0 {
        assert(versions@.take(0) =~= Seq::<VersionRecord>::empty());
        0
    } else {
        assert(versions@.take(k as int).last() == versions@[k - 1]);
        k - 1
    }
}

/// Why stored vector bytes cannot be read.
#[derive(Debug, Clone, Copy, PartialEq, Eq, Structural)]
pub enum VectorError {
    /// The byte count is not a multiple of four.
    BadLength,
}

/// The components of a stored vector, four bytes each, in order.
pub open spec fn component_bytes(b: Seq<u8>) -> Seq<[u8; 4]> {
    Seq::new(b.len() / 4, |i: int| [b[4 * i], b[4 * i + 1], b[4 * i + 2], b[4 * i + 3]])
}

/// Cuts stored vector bytes into four-byte components; fails when the byte
/// count is not a multiple of four.
pub fn vector_components(bytes: &[u8]) -> (r: Result<Vec<[u8; 4]>, VectorError>)
    ensures
        bytes@.len() % 4 != 0 <==> r is Err,
        r matches Ok(v) ==> v@.len() == component_bytes(bytes@).len()
            && forall|i: int| 0 <= i < v@.len() ==> #[trigger] v@[i]@ == component_bytes(bytes@)[i]@,
        r matches Err(e) ==> e == VectorError::BadLength,
{
    if bytes.len() % 4 != 0 {
        return Err(VectorError::BadLength);
    }
    let n = bytes.len() / 4;
    let mut v: Vec<[u8; 4]> = Vec::new();
    let mut i: usize = 0;
    while i < n
        invariant
            n == bytes@.len() / 4,
            bytes@.len() == bytes.len(),
            bytes@.len() % 4 == 0,
            i <= n,
            v@.len() == i,
            forall|k: int| 0 <= k < i ==> #[trigger] v@[k]@ == component_bytes(bytes@)[k]@,
        decreases n - i,
    {
        assert(4 * i + 3 < bytes@.len()) by (nonlinear_arith)
            requires i < n, n == bytes@.len() / 4;
        let c = [bytes[4 * i], bytes[4 * i + 1], bytes[4 * i + 2], bytes[4 * i + 3]];
        v.push(c);
        assert(v@[i as int]@ =~= component_bytes(bytes@)[i as int]@);
        i += 1;
    }
    Ok(v)
}


/// The number of `hashes` that are not among `kept`: the blocks a new
/// version stores that the previous version did not have.
pub open spec fn new_block_count(hashes: Seq<Seq<char>>, kept: Seq<Seq<char>>) -> nat
    decreases hashes.len(),
{
    if hashes.len() == 0 {
        0
    } else {
        new_block_count(hashes.drop_last(), kept) + if kept.contains(hashes.last()) { 0nat } else { 1nat }
    }
}

/// Counts the blocks of a new version that the previous one did not have.
pub fn count_new_blocks(hashes: &Vec<String>, kept: &Vec<String>) -> (n: usize)
    ensures
        n == new_block_count(str_views(hashes@), str_views(kept@)),
{
    let ghost hv = str_views(hashes@);
    let mut n: usize = 0;
    let mut i: usize = 0;
    while i < hashes.len()
        invariant
            i <= hashes.len(),
            hv == str_views(hashes@),
            n == new_block_count(hv.take(i as int), str_views(kept@)),
            n <= i,
        decreases hashes.len() - i,
    {
        proof {
            assert(hv.take(i + 1).drop_last() =~= hv.take(i as int));
        }
        if !crate::seqs::contains_str(kept, &hashes[i]) {
            n += 1;
        }
        i += 1;
    }
    assert(hv.take(i as int) =~= hv);
    n
}

/// A block as plain values: position, hash, bytes, size.
pub type BlockEntry = (usize, Seq<char>, Seq<u8>, usize);

pub open spec fn file_block_views(v: Seq<FileBlock>) -> Seq<BlockEntry> {
    v.map_values(|b: FileBlock| (b.index, b.hash@, b.data@, b.size))
}

/// The blocks of a version in order, from its `(index, hash)` list and the
/// stored data by hash: the `k`-th hash of the list becomes a block at
/// position `k` when its data is stored, and is left out otherwise.
pub open spec fn blocks_in_order_spec(hashes: Seq<Seq<char>>, stored: Seq<(Seq<char>, Seq<u8>)>) -> Seq<BlockEntry>
    decreases hashes.len(),
{
    if hashes.len() == 0 {
        Seq::empty()
    } else {
        let prev = blocks_in_order_spec(hashes.drop_last(), stored);
        let k = hashes.len() - 1;
        match held_lookup(stored, hashes.last()) {
            Some(d) => prev.push((k as usize, hashes.last(), d, d.len() as usize)),
            None => prev,
        }
    }
}

/// The hashes of an `(index, hash)` list, in order.
pub open spec fn entry_hashes(v: Seq<(i64, String)>) -> Seq<Seq<char>> {
    v.map_values(|e: (i64, String)| e.1@)
}

fn lookup_stored(stored: &Vec<(String, Vec<u8>)>, h: &String) -> (r: Option<Vec<u8>>)
    ensures
        match r {
            Some(d) => held_lookup(held_views(stored@), h@) == Some(d@),
            None => held_lookup(held_views(stored@), h@) is None,
        },
{
    let ghost hv = held_views(stored@);
    let mut i: usize = 0;
    while i < stored.len()
        invariant
            i <= stored.len(),
            hv == held_views(stored@),
            forall|k: int| 0 <= k < i ==> !held_hash(h@)(#[trigger] hv[k]),
        decreases stored.len() - i,
    {
        if stored[i].0 == *h {
            proof {
                lemma_first_where(hv, held_hash(h@), i as int);
            }
            let d = stored[i].1.clone();
            assert(d@ =~= hv[i as int].1);
            return Some(d);
        }
        i += 1;
    }
    proof {
        lemma_first_where(hv, held_hash(h@), i as int);
    }
    None
}

/// The blocks of a version (see `blocks_in_order_spec`).
pub fn blocks_in_order(entries: &Vec<(i64, String)>, stored: &Vec<(String, Vec<u8>)>) -> (r: Vec<FileBlock>)
    ensures
        file_block_views(r@) == blocks_in_order_spec(entry_hashes(entries@), held_views(stored@)),
{
    let ghost hs = entry_hashes(entries@);
    let ghost sv = held_views(stored@);
    let mut r: Vec<FileBlock> = Vec::new();
    let mut k: usize = 0;
    while k < entries.len()
        invariant
            k <= entries.len(),
            hs == entry_hashes(entries@),
            sv == held_views(stored@),
            file_block_views(r@) == blocks_in_order_spec(hs.take(k as int), sv),
        decreases entries.len() - k,
    {
        proof {
            assert(hs.take(k + 1).drop_last() =~= hs.take(k as int));
            assert(hs.take(k + 1).last() == entries@[k as int].1@);
        }
        match lookup_stored(stored, &entries[k].1) {
            Some(d) => {
                let size = d.len();
                let ghost before = r@;
                r.push(FileBlock { index: k, hash: entries[k].1.clone(), data: d, size });
                assert(file_block_views(r@) =~= file_block_views(before).push((k, hs[k as int], d@, size)));
            },
            None => {},
        }
        k += 1;
    }
    assert(hs.take(k as int) =~= hs);
    r
}


/// How versions are numbered and stored: a new version's number is one more
/// than the largest stored (so numbers increase), the first version and
/// every tenth are stored whole, and content that hashes as the file's
/// current hash makes no version.
pub proof fn lemma_version_plan(prev_hash: Seq<char>, new_hash: Seq<char>, max_stored: Option<i64>, k: int)
    ensures
        max_stored matches Some(m) ==> next_version_spec(max_stored) == m + 1,
        max_stored is None ==> next_version_spec(max_stored) == 1,
        max_stored matches Some(m) ==> (prev_hash != new_hash ==> plan_spec(prev_hash, new_hash, max_stored) is Some
            && plan_spec(prev_hash, new_hash, max_stored).unwrap().0 == m + 1),
        full_snapshot_spec(1),
        full_snapshot_spec(10 * k),
        full_snapshot_spec(k) <==> (k == 1 || k % 10 == 0),
        prev_hash.len() > 0 ==> plan_spec(prev_hash, prev_hash, max_stored) is None,
        prev_hash != new_hash ==> plan_spec(prev_hash, new_hash, max_stored) == Some(
            (next_version_spec(max_stored), full_snapshot_spec(next_version_spec(max_stored))),
        ),
{
    assert((10 * k) % 10 == 0) by (nonlinear_arith);
}

/// Which folder is watched, if any.
#[derive(Debug)]
pub struct WatchState {
    pub watched_path: Option<String>,
}

/// Why a folder cannot be watched.
#[derive(Debug, Clone, Copy, PartialEq, Eq, Structural)]
pub enum WatchError {
    /// A folder is already watched; it has to be stopped first.
    AlreadyWatching,
}

impl WatchState {
    /// No folder watched.
    pub fn new() -> (s: Self)
        ensures
            s.watched_path is None,
    {
        WatchState { watched_path: None }
    }

    /// Starts watching `path`: refused while another folder is watched.
    pub fn start(&mut self, path: String) -> (r: Result<(), WatchError>)
        ensures
            old(self).watched_path is Some ==> r == Err::<(), WatchError>(WatchError::AlreadyWatching)
                && final(self).watched_path == old(self).watched_path,
            old(self).watched_path is None ==> r is Ok && final(self).watched_path == Some(path),
    {
        if self.watched_path.is_some() {
            return Err(WatchError::AlreadyWatching);
        }
        self.watched_path = Some(path);
        Ok(())
    }

    /// Stops watching; nothing is watched afterwards.
    pub fn stop(&mut self)
        ensures
            final(self).watched_path is None,
    {
        self.watched_path = None;
    }

    /// Whether a folder is watched.
    pub fn is_watching(&self) -> (b: bool)
        ensures
            b == self.watched_path is Some,
    {
        self.watched_path.is_some()
    }
}

} // verus!
