//! What the folder watcher decides: which files it tracks, the type it
//! records for a path, and how it debounces file events before handling
//! them. Watching the disk, reading files and storing versions run outside.

use vstd::prelude::*;
use crate::text::{to_lowercase, unicode_lowercase, is_white_space, white_space, chars_of, string_of};
use crate::seqs::{first_where, keep, lemma_first_where, lemma_first_where_bounds, lemma_keep_step};

verus! {

broadcast use vstd::string::group_string_axioms;

/// What happened to a file.
#[derive(Debug, Clone, Copy, PartialEq, Eq, Structural)]
pub enum FileEventType {
    Created,
    Modified,
    Removed,
}

/// A file event: the path (as text) and what happened.
#[derive(Debug)]
pub struct FileEvent {
    pub path: String,
    pub event_type: FileEventType,
}

/// The extensions of the files that are tracked.
pub open spec fn supported_extensions() -> Seq<Seq<char>> {
    seq![
        seq!['t', 'x', 't'],
        seq!['m', 'd'],
        seq!['p', 'y'],
        seq!['j', 's'],
        seq!['t', 's'],
        seq!['j', 's', 'o', 'n'],
        seq!['y', 'a', 'm', 'l'],
        seq!['y', 'm', 'l'],
        seq!['t', 'o', 'm', 'l'],
        seq!['r', 's'],
        seq!['g', 'o'],
        seq!['j', 'a', 'v', 'a'],
        seq!['c', 'p', 'p'],
        seq!['c'],
        seq!['h'],
        seq!['h', 't', 'm', 'l'],
        seq!['c', 's', 's'],
    ]
}

fn supported_list() -> (v: Vec<Vec<char>>)
    ensures
        v@.len() == supported_extensions().len(),
        forall|i: int| 0 <= i < v@.len() ==> #[trigger] v@[i]@ == supported_extensions()[i],
{
    let v = vec![
        vec!['t', 'x', 't'],
        vec!['m', 'd'],
        vec!['p', 'y'],
        vec!['j', 's'],
        vec!['t', 's'],
        vec!['j', 's', 'o', 'n'],
        vec!['y', 'a', 'm', 'l'],
        vec!['y', 'm', 'l'],
        vec!['t', 'o', 'm', 'l'],
        vec!['r', 's'],
        vec!['g', 'o'],
        vec!['j', 'a', 'v', 'a'],
        vec!['c', 'p', 'p'],
        vec!['c'],
        vec!['h'],
        vec!['h', 't', 'm', 'l'],
        vec!['c', 's', 's'],
    ];
    assert(v@.len() == 17);
    assert forall|i: int| 0 <= i < v@.len() implies #[trigger] v@[i]@ == supported_extensions()[i] by {
        assert(v@[0]@ =~= supported_extensions()[0]);
        assert(v@[1]@ =~= supported_extensions()[1]);
        assert(v@[2]@ =~= supported_extensions()[2]);
        assert(v@[3]@ =~= supported_extensions()[3]);
        assert(v@[4]@ =~= supported_extensions()[4]);
        assert(v@[5]@ =~= supported_extensions()[5]);
        assert(v@[6]@ =~= supported_extensions()[6]);
        assert(v@[7]@ =~= supported_extensions()[7]);
        assert(v@[8]@ =~= supported_extensions()[8]);
        assert(v@[9]@ =~= supported_extensions()[9]);
        assert(v@[10]@ =~= supported_extensions()[10]);
        assert(v@[11]@ =~= supported_extensions()[11]);
        assert(v@[12]@ =~= supported_extensions()[12]);
        assert(v@[13]@ =~= supported_extensions()[13]);
        assert(v@[14]@ =~= supported_extensions()[14]);
        assert(v@[15]@ =~= supported_extensions()[15]);
        assert(v@[16]@ =~= supported_extensions()[16]);
    }
    v
}

fn eq_chars(a: &Vec<char>, b: &Vec<char>) -> (r: bool)
    ensures
        r == (a@ == b@),
{
    if a.len() != b.len() {
        return false;
    }
    let mut i: usize = 0;
    while i < a.len()
        invariant
            a.len() == b.len(),
            i <= a.len(),
            forall|j: int| 0 <= j < i ==> a@[j] == b@[j],
        decreases a.len() - i,
    {
        if a[i] != b[i] {
            return false;
        }
        i += 1;
    }
    assert(a@ =~= b@);
    true
}

/// What `Path::extension` gives for a path, converted to text: the part of
/// the file name after its last dot, none when the name has no dot but a
/// leading one; file names are read under the path rules of the target.
pub uninterp spec fn path_extension(path: Seq<char>) -> Option<Seq<char>>;

/// The extension of `path`. Calls `std::path::Path::extension` on the path
/// and converts the result to a `String`; the result is named by
/// `path_extension`.
#[verifier::external_body]
pub(crate) fn extension_of(path: &str) -> (r: Option<String>)
    ensures
        match r {
            Some(e) => path_extension(path@) == Some(e@),
            None => path_extension(path@) is None,
        },
{
    std::path::Path::new(path).extension().and_then(|e| e.to_str()).map(|e| e.to_string())
}

/// Whether the path's extension, lower-cased, is a tracked one.
pub open spec fn supported_spec(path: Seq<char>) -> bool {
    match path_extension(path) {
        Some(e) => supported_extensions().contains(unicode_lowercase(e)),
        None => false,
    }
}

/// Whether the file at `path` is tracked: its lower-cased extension is one
/// of `txt md py js ts json yaml yml toml rs go java cpp c h html css`.
pub fn is_supported_file(path: &str) -> (b: bool)
    ensures
        b == supported_spec(path@),
{
    match extension_of(path) {
        Some(e) => {
            let lower = to_lowercase(e.as_str());
            let lc = chars_of(lower.as_str());
            let list = supported_list();
            let mut i: usize = 0;
            while i < list.len()
                invariant
                    i <= list.len(),
                    lc@ == unicode_lowercase(e@),
                    path_extension(path@) == Some(e@),
                    list@.len() == supported_extensions().len(),
                    forall|k: int| 0 <= k < list@.len() ==> #[trigger] list@[k]@ == supported_extensions()[k],
                    forall|k: int| 0 <= k < i ==> supported_extensions()[k] != lc@,
                decreases list.len() - i,
            {
                if eq_chars(&list[i], &lc) {
                    assert(supported_extensions()[i as int] == lc@);
                    assert(supported_extensions().contains(unicode_lowercase(e@)));
                    return true;
                }
                i += 1;
            }
            false
        },
        None => false,
    }
}

/// The lower-cased extension of the path, or `fallback` without one.
pub open spec fn file_type_spec(path: Seq<char>, fallback: Seq<char>) -> Seq<char> {
    match path_extension(path) {
        Some(e) => unicode_lowercase(e),
        None => fallback,
    }
}

pub open spec fn unknown_type() -> Seq<char> {
    seq!['u', 'n', 'k', 'n', 'o', 'w', 'n']
}

/// The type recorded for a file: its lower-cased extension, or `unknown`.
pub fn get_file_type(path: &str) -> (t: String)
    ensures
        t@ == file_type_spec(path@, unknown_type()),
{
    match extension_of(path) {
        Some(e) => to_lowercase(e.as_str()),
        None => {
            let u = vec!['u', 'n', 'k', 'n', 'o', 'w', 'n'];
            let s = string_of(&u);
            assert(s@ =~= unknown_type());
            s
        },
    }
}

/// What `path_slash` makes of a path: on Windows its components joined by
/// `/`, elsewhere the path as it is.
pub uninterp spec fn forward_slash_path(path: Seq<char>) -> Seq<char>;

/// The path as stored in the database: with `/` as separator.
pub fn to_forward_slash_string(path: &str) -> (s: String)
    ensures
        s@ == forward_slash_path(path@),
{
    slash_path(path)
}

/// Calls `path_slash::PathExt::to_slash_lossy` on the path and converts the
/// result to a `String`; the result is named by `forward_slash_path`.
#[verifier::external_body]
fn slash_path(path: &str) -> (s: String)
    ensures
        s@ == forward_slash_path(path@),
{
    path_slash::PathExt::to_slash_lossy(std::path::Path::new(path)).to_string()
}

/// Whether an event for `path` is handled: tracked files, and removals of
/// any path.
pub open spec fn handled_spec(path: Seq<char>, t: FileEventType) -> bool {
    supported_spec(path) || t == FileEventType::Removed
}

/// Whether an event is handled (see `handled_spec`).
pub fn is_handled(path: &str, t: FileEventType) -> (b: bool)
    ensures
        b == handled_spec(path@, t),
{
    is_supported_file(path) || t == FileEventType::Removed
}

/// Whether the content holds something other than white space.
pub open spec fn has_text(s: Seq<char>) -> bool {
    exists|i: int| 0 <= i < s.len() && !is_white_space(s[i])
}

/// Whether a new version's content gets an embedding: only a version just
/// created whose content is not blank.
pub fn should_embed(created: bool, content: &str) -> (b: bool)
    ensures
        b == (created && has_text(content@)),
{
    if !created {
        return false;
    }
    let cs = chars_of(content);
    let mut i: usize = 0;
    while i < cs.len()
        invariant
            i <= cs.len(),
            created,
            cs@ == content@,
            forall|j: int| 0 <= j < i ==> is_white_space(#[trigger] cs@[j]),
        decreases cs.len() - i,
    {
        if !white_space(cs[i]) {
            assert(!is_white_space(content@[i as int]));
            return true;
        }
        i += 1;
    }
    false
}


/// How a new event combines with the one already pending for the same path:
/// a file created and then modified is still a creation; otherwise the newer
/// event wins.
pub open spec fn merge_event(current: FileEventType, incoming: FileEventType) -> FileEventType {
    if current == FileEventType::Created && incoming == FileEventType::Modified {
        FileEventType::Created
    } else {
        incoming
    }
}

/// Combines a pending event with a new one for the same path.
pub fn merge_events(current: FileEventType, incoming: FileEventType) -> (r: FileEventType)
    ensures
        r == merge_event(current, incoming),
{
    match (current, incoming) {
        (FileEventType::Created, FileEventType::Modified) => FileEventType::Created,
        _ => incoming,
    }
}

/// A pending event: the path, what happened, and when the path was last seen
/// (milliseconds on a monotonic clock).
#[derive(Debug)]
pub struct PendingEvent {
    pub path: String,
    pub event_type: FileEventType,
    pub last_seen: u64,
}

/// A pending event as plain values.
pub type PendingView = (Seq<char>, FileEventType, u64);

impl View for PendingEvent {
    type V = PendingView;

    open spec fn view(&self) -> PendingView {
        (self.path@, self.event_type, self.last_seen)
    }
}

/// The views of the pending events, in order.
pub open spec fn pending_views(v: Seq<PendingEvent>) -> Seq<PendingView> {
    v.map_values(|e: PendingEvent| e@)
}

/// Whether a pending event is for the path `p`.
pub open spec fn at_path(p: Seq<char>) -> spec_fn(PendingView) -> bool {
    |e: PendingView| e.0 == p
}

/// No path is pending twice.
pub open spec fn distinct_paths(s: Seq<PendingView>) -> bool {
    forall|i: int, j: int| 0 <= i < j < s.len() ==> #[trigger] s[i].0 != #[trigger] s[j].0
}

/// The pending events after an event of type `t` on `p` seen at `now`: the
/// path's entry takes the merged type and the new time, or a new entry is
/// added at the end.
pub open spec fn record_spec(s: Seq<PendingView>, p: Seq<char>, t: FileEventType, now: u64) -> Seq<PendingView> {
    let i = first_where(s, at_path(p));
    if i < s.len() {
        s.update(i, (p, merge_event(s[i].1, t), now))
    } else {
        s.push((p, t, now))
    }
}

/// The time since `last`, in milliseconds; zero when the clock reads earlier.
pub open spec fn elapsed(now: u64, last: u64) -> int {
    if now >= last { now - last } else { 0 }
}

/// Whether a pending event has been quiet for at least `wait` milliseconds.
pub open spec fn is_ready(e: PendingView, now: u64, wait: u64) -> bool {
    elapsed(now, e.2) >= wait
}

pub open spec fn ready_at(now: u64, wait: u64) -> spec_fn(PendingView) -> bool {
    |e: PendingView| is_ready(e, now, wait)
}

pub open spec fn waiting_at(now: u64, wait: u64) -> spec_fn(PendingView) -> bool {
    |e: PendingView| !is_ready(e, now, wait)
}

/// The path and event of each pending event, in order.
pub open spec fn event_pairs(s: Seq<PendingView>) -> Seq<(Seq<char>, FileEventType)> {
    s.map_values(|e: PendingView| (e.0, e.1))
}

/// The views of a list of (path, event) pairs.
pub open spec fn pair_list_views(v: Seq<(String, FileEventType)>) -> Seq<(Seq<char>, FileEventType)> {
    v.map_values(|e: (String, FileEventType)| (e.0@, e.1))
}

/// The events collected between two rounds of handling, one per path.
pub struct Debouncer {
    pending: Vec<PendingEvent>,
}

impl View for Debouncer {
    type V = Seq<PendingView>;

    closed spec fn view(&self) -> Seq<PendingView> {
        pending_views(self.pending@)
    }
}

impl Debouncer {
    /// No path is pending twice.
    pub open spec fn wf(&self) -> bool {
        distinct_paths(self@)
    }

    /// Nothing pending.
    pub fn new() -> (d: Self)
        ensures
            d.wf(),
            d@ == Seq::<PendingView>::empty(),
    {
        let d = Debouncer { pending: Vec::new() };
        assert(d@ =~= Seq::<PendingView>::empty());
        d
    }

    /// The number of pending paths.
    pub fn len(&self) -> (n: usize)
        ensures
            n == self@.len(),
    {
        self.pending.len()
    }

    fn find(&self, path: &String) -> (i: usize)
        ensures
            i == first_where(self@, at_path(path@)),
    {
        let ghost sv = self@;
        let mut i: usize = 0;
        while i < self.pending.len()
            invariant
                i <= self.pending.len(),
                sv == self@,
                sv.len() == self.pending@.len(),
                forall|j: int| 0 <= j < sv.len() ==> #[trigger] sv[j] == self.pending@[j]@,
                forall|j: int| 0 <= j < i ==> !at_path(path@)(#[trigger] sv[j]),
            decreases self.pending.len() - i,
        {
            if self.pending[i].path == *path {
                proof {
                    lemma_first_where(sv, at_path(path@), i as int);
                }
                return i;
            }
            i += 1;
        }
        proof {
            lemma_first_where(sv, at_path(path@), i as int);
        }
        i
    }

    /// Records an event on `path` seen at `now` (see `record_spec`).
    pub fn record_event(&mut self, path: String, event_type: FileEventType, now: u64)
        requires
            old(self).wf(),
        ensures
            final(self).wf(),
            final(self)@ == record_spec(old(self)@, path@, event_type, now),
    {
        let ghost s = self@;
        let i = self.find(&path);
        proof {
            lemma_first_where_bounds(s, at_path(path@));
        }
        if i < self.pending.len() {
            let merged = merge_events(self.pending[i].event_type, event_type);
            let ghost before = self.pending@;
            let e = PendingEvent { path, event_type: merged, last_seen: now };
            self.pending.set(i, e);
            assert(self@ =~= record_spec(s, e.path@, event_type, now));
            assert forall|a: int, b: int| 0 <= a < b < self@.len() implies #[trigger] self@[a].0 != #[trigger] self@[b].0 by {
                assert(s[a].0 != s[b].0);
            }
        } else {
            let ghost p = path@;
            self.pending.push(PendingEvent { path, event_type, last_seen: now });
            assert(self@ =~= s.push((p, event_type, now)));
            assert forall|a: int, b: int| 0 <= a < b < self@.len() implies #[trigger] self@[a].0 != #[trigger] self@[b].0 by {
                if b == s.len() {
                    assert(!at_path(p)(s[a]));
                } else {
                    assert(s[a].0 != s[b].0);
                }
            }
        }
    }

    /// Hands out the events that have been quiet for at least `wait`
    /// milliseconds at `now`, in the order they were first seen; the others
    /// stay pending.
    pub fn take_ready(&mut self, now: u64, wait: u64) -> (out: Vec<(String, FileEventType)>)
        requires
            old(self).wf(),
        ensures
            final(self).wf(),
            final(self)@ == keep(old(self)@, waiting_at(now, wait)),
            pair_list_views(out@) == event_pairs(keep(old(self)@, ready_at(now, wait))),
    {
        let ghost s = self@;
        let mut old_pending: Vec<PendingEvent> = Vec::new();
        std::mem::swap(&mut old_pending, &mut self.pending);
        let ghost ov = old_pending@;
        assert(pending_views(ov) == s);
        let mut out: Vec<(String, FileEventType)> = Vec::new();
        let mut kept: Vec<PendingEvent> = Vec::new();
        let mut i: usize = 0;
        while i < old_pending.len()
            invariant
                i <= old_pending.len(),
                old_pending@ == ov,
                pending_views(ov) == s,
                pending_views(kept@) == keep(s.take(i as int), waiting_at(now, wait)),
                pair_list_views(out@) == event_pairs(keep(s.take(i as int), ready_at(now, wait))),
            decreases old_pending.len() - i,
        {
            let e = &old_pending[i];
            proof {
                assert(s.take(i + 1).drop_last() =~= s.take(i as int));
                assert(s.take(i + 1).last() == e@);
            }
            let quiet = if now >= e.last_seen { now - e.last_seen } else { 0 };
            if quiet >= wait {
                let ghost before = out@;
                out.push((e.path.clone(), e.event_type));
                assert(pair_list_views(out@) =~= pair_list_views(before).push((e.path@, e.event_type)));
                assert(keep(s.take(i + 1), waiting_at(now, wait)) == keep(s.take(i as int), waiting_at(now, wait)));
                assert(event_pairs(keep(s.take(i + 1), ready_at(now, wait))) =~= event_pairs(keep(s.take(i as int), ready_at(now, wait))).push((e.path@, e.event_type)));
            } else {
                let ghost before = kept@;
                kept.push(PendingEvent { path: e.path.clone(), event_type: e.event_type, last_seen: e.last_seen });
                assert(pending_views(kept@) =~= pending_views(before).push(e@));
                assert(keep(s.take(i + 1), ready_at(now, wait)) == keep(s.take(i as int), ready_at(now, wait)));
            }
            i += 1;
        }
        assert(s.take(i as int) =~= s);
        self.pending = kept;
        proof {
            lemma_keep_distinct(s, waiting_at(now, wait));
        }
        out
    }

    /// Hands out every pending event, in order, and leaves nothing pending.
    pub fn drain(&mut self) -> (out: Vec<(String, FileEventType)>)
        requires
            old(self).wf(),
        ensures
            final(self).wf(),
            final(self)@ == Seq::<PendingView>::empty(),
            pair_list_views(out@) == event_pairs(old(self)@),
    {
        let ghost s = self@;
        let mut old_pending: Vec<PendingEvent> = Vec::new();
        std::mem::swap(&mut old_pending, &mut self.pending);
        let mut out: Vec<(String, FileEventType)> = Vec::new();
        let mut i: usize = 0;
        while i < old_pending.len()
            invariant
                i <= old_pending.len(),
                pending_views(old_pending@) == s,
                pair_list_views(out@) == event_pairs(s.take(i as int)),
            decreases old_pending.len() - i,
        {
            let ghost before = out@;
            assert(s[i as int] == old_pending@[i as int]@);
            out.push((old_pending[i].path.clone(), old_pending[i].event_type));
            assert(pair_list_views(out@) =~= pair_list_views(before).push((s[i as int].0, s[i as int].1)));
            assert(event_pairs(s.take(i + 1)) =~= event_pairs(s.take(i as int)).push((s[i as int].0, s[i as int].1)));
            i += 1;
        }
        assert(s.take(i as int) =~= s);
        assert(self@ =~= Seq::<PendingView>::empty());
        out
    }
}

/// What `keep` leaves of a sequence with distinct paths has distinct paths.
pub proof fn lemma_keep_distinct(s: Seq<PendingView>, p: spec_fn(PendingView) -> bool)
    requires
        distinct_paths(s),
    ensures
        distinct_paths(keep(s, p)),
        forall|x: PendingView| keep(s, p).contains(x) ==> s.contains(x),
    decreases s.len(),
{
    if s.len() > 0 {
        let t = s.drop_last();
        assert forall|i: int, j: int| 0 <= i < j < t.len() implies #[trigger] t[i].0 != #[trigger] t[j].0 by {
            assert(t[i] == s[i] && t[j] == s[j]);
        }
        lemma_keep_distinct(t, p);
        if p(s.last()) {
            let k = keep(t, p);
            assert forall|x: PendingView| keep(s, p).contains(x) implies s.contains(x) by {
                if x != s.last() {
                    let a = choose|a: int| 0 <= a < keep(s, p).len() && keep(s, p)[a] == x;
                    assert(k.contains(x)) by { assert(k[a] == x); }
                    assert(t.contains(x));
                    let b = choose|b: int| 0 <= b < t.len() && t[b] == x;
                    assert(s[b] == x);
                } else {
                    assert(s[s.len() - 1] == x);
                }
            }
            assert forall|i: int, j: int| 0 <= i < j < keep(s, p).len() implies #[trigger] keep(s, p)[i].0 != #[trigger] keep(s, p)[j].0 by {
                if j == k.len() {
                    assert(k.contains(k[i]));
                    assert(t.contains(k[i]));
                    let b = choose|b: int| 0 <= b < t.len() && t[b] == k[i];
                    assert(s[b] == k[i]);
                    assert(s[b].0 != s[s.len() - 1].0);
                } else {
                    assert(k[i].0 != k[j].0);
                }
            }
        } else {
            assert forall|x: PendingView| keep(s, p).contains(x) implies s.contains(x) by {
                assert(keep(s, p) == keep(t, p));
                assert(t.contains(x));
                let b = choose|b: int| 0 <= b < t.len() && t[b] == x;
                assert(s[b] == x);
            }
        }
    }
}


/// The type pending for path `p`, if any.
pub open spec fn pending_type(s: Seq<PendingView>, p: Seq<char>) -> Option<FileEventType> {
    let i = first_where(s, at_path(p));
    if i < s.len() {
        Some(s[i].1)
    } else {
        None
    }
}

/// A pending event last seen at time `last` is handed out at time `now`
/// exactly when at least `wait` milliseconds have passed since then (a clock
/// that went back counts as no time passed).
pub proof fn lemma_ready_after_wait(path: Seq<char>, t: FileEventType, last: u64, now: u64, wait: u64)
    ensures
        now >= last ==> (ready_at(now, wait)((path, t, last)) <==> now - last >= wait),
        now < last ==> (ready_at(now, wait)((path, t, last)) <==> wait == 0),
        ready_at(now, wait)((path, t, last)) <==> !waiting_at(now, wait)((path, t, last)),
{
}

/// Merging a pending event with a new one keeps `Created` when a created
/// file is then modified, and otherwise takes the new event: a file removed
/// and created again is handled as created.
pub proof fn lemma_merge_event(current: FileEventType, incoming: FileEventType)
    ensures
        current == FileEventType::Created && incoming == FileEventType::Modified ==> merge_event(current, incoming)
            == FileEventType::Created,
        !(current == FileEventType::Created && incoming == FileEventType::Modified) ==> merge_event(current, incoming)
            == incoming,
        merge_event(FileEventType::Removed, FileEventType::Created) == FileEventType::Created,
{
}

/// Recording an event leaves the path pending once, seen at the new time,
/// with the merged type: a creation followed by a change stays a creation,
/// otherwise the newer event replaces the older.
pub proof fn lemma_record_event(s: Seq<PendingView>, p: Seq<char>, t: FileEventType, now: u64)
    requires
        distinct_paths(s),
    ensures
        pending_type(record_spec(s, p, t, now), p) == Some(match pending_type(s, p) {
            Some(t0) => merge_event(t0, t),
            None => t,
        }),
        forall|k: int| 0 <= k < record_spec(s, p, t, now).len() && (#[trigger] record_spec(s, p, t, now)[k]).0 == p
            ==> record_spec(s, p, t, now)[k].2 == now,
        merge_event(FileEventType::Created, FileEventType::Modified) == FileEventType::Created,
{
    let r = record_spec(s, p, t, now);
    let i = first_where(s, at_path(p));
    lemma_first_where_bounds(s, at_path(p));
    if i < s.len() {
        assert forall|k: int| 0 <= k < i implies !at_path(p)(#[trigger] r[k]) by {
            assert(r[k] == s[k]);
        }
        lemma_first_where(r, at_path(p), i);
        assert forall|k: int| 0 <= k < r.len() && (#[trigger] r[k]).0 == p implies r[k].2 == now by {
            if k != i {
                assert(r[k] == s[k]);
                assert(s[i].0 == p);
                if k < i {
                    assert(!at_path(p)(s[k]));
                } else {
                    assert(s[i].0 != s[k].0);
                }
            }
        }
    } else {
        assert forall|k: int| 0 <= k < s.len() implies !at_path(p)(#[trigger] r[k]) by {
            assert(r[k] == s[k]);
        }
        lemma_first_where(r, at_path(p), s.len() as int);
        assert forall|k: int| 0 <= k < r.len() && (#[trigger] r[k]).0 == p implies r[k].2 == now by {
            if k < s.len() {
                assert(r[k] == s[k]);
                assert(!at_path(p)(s[k]));
            }
        }
    }
}

/// Taking the ready events loses nothing and hands nothing out twice: each
/// pending event is either handed out or still pending, never both.
pub proof fn lemma_take_ready_partition(s: Seq<PendingView>, now: u64, wait: u64)
    ensures
        keep(s, ready_at(now, wait)).len() + keep(s, waiting_at(now, wait)).len() == s.len(),
        forall|x: PendingView| s.contains(x) ==> (keep(s, ready_at(now, wait)).contains(x)
            || keep(s, waiting_at(now, wait)).contains(x)),
        forall|x: PendingView| !(keep(s, ready_at(now, wait)).contains(x)
            && keep(s, waiting_at(now, wait)).contains(x)),
    decreases s.len(),
{
    let rp = ready_at(now, wait);
    let wp = waiting_at(now, wait);
    crate::seqs::lemma_keep(s, rp);
    crate::seqs::lemma_keep(s, wp);
    if s.len() > 0 {
        lemma_take_ready_partition(s.drop_last(), now, wait);
        let t = s.drop_last();
        assert forall|x: PendingView| s.contains(x) implies (keep(s, rp).contains(x) || keep(s, wp).contains(x)) by {
            if x == s.last() {
                if rp(x) {
                    assert(keep(s, rp).last() == x);
                } else {
                    assert(keep(s, wp).last() == x);
                }
            } else {
                let k = choose|k: int| 0 <= k < s.len() && s[k] == x;
                assert(t[k] == x);
                assert(t.contains(x));
                if keep(t, rp).contains(x) {
                    let j = choose|j: int| 0 <= j < keep(t, rp).len() && keep(t, rp)[j] == x;
                    assert(keep(s, rp)[j] == x);
                } else {
                    let j = choose|j: int| 0 <= j < keep(t, wp).len() && keep(t, wp)[j] == x;
                    assert(keep(s, wp)[j] == x);
                }
            }
        }
        assert forall|x: PendingView| !(keep(s, rp).contains(x) && keep(s, wp).contains(x)) by {
            if keep(s, rp).contains(x) && keep(s, wp).contains(x) {
                let a = choose|a: int| 0 <= a < keep(s, rp).len() && keep(s, rp)[a] == x;
                let b = choose|b: int| 0 <= b < keep(s, wp).len() && keep(s, wp)[b] == x;
                assert(rp(keep(s, rp)[a]));
                assert(wp(keep(s, wp)[b]));
            }
        }
    }
}

} // verus!
