//! What the directory watcher does with file-system events: which paths wait
//! for indexing, which are dropped from the index, and when a waiting path is
//! indexed.
use vstd::prelude::*;

use crate::string_views;

verus! {

/// How long a path must go without new events before it is indexed, in nanoseconds.
pub const DEBOUNCE_NANOS: u64 = 2_000_000_000;

/// The kinds of file-system event that the watcher tells apart.
pub enum FsEventKind {
    /// A file or directory was created.
    Create,
    /// The content of a file changed.
    ModifyData,
    /// A file or directory was removed.
    Remove,
    /// A rename, reported at the old location.
    RenameFrom,
    /// A rename, reported at the new location.
    RenameTo,
    /// A rename reported with both paths: the old one first, the new one second.
    RenameBoth,
    /// A rename whose direction is not known.
    RenameAny,
    /// Any other event.
    Other,
}

/// A path named by an event, with whether it was a regular file when the event
/// was handled.
pub struct EventPath {
    pub path: String,
    pub is_file: bool,
}

/// A file-system event: its kind and the paths it names, in order.
pub struct FsEvent {
    pub kind: FsEventKind,
    pub paths: Vec<EventPath>,
}

/// What an event does to one of its paths.
pub enum PathAction {
    /// The path waits for indexing, its timer restarted.
    Queue,
    /// The path stops waiting and is deleted from the index.
    Delete,
    /// Nothing.
    Ignore,
}

/// What an event of kind `kind` does to its path number `index`.
pub open spec fn action_for(kind: FsEventKind, index: int, entry: EventPath) -> PathAction {
    match kind {
        FsEventKind::Create | FsEventKind::ModifyData | FsEventKind::RenameTo => {
            if entry.is_file {
                PathAction::Queue
            } else {
                PathAction::Ignore
            }
        },
        FsEventKind::Remove | FsEventKind::RenameFrom => PathAction::Delete,
        FsEventKind::RenameBoth => {
            if index == 0 {
                PathAction::Delete
            } else if index == 1 && entry.is_file {
                PathAction::Queue
            } else {
                PathAction::Ignore
            }
        },
        FsEventKind::RenameAny => {
            if entry.is_file {
                PathAction::Queue
            } else {
                PathAction::Delete
            }
        },
        FsEventKind::Other => PathAction::Ignore,
    }
}

/// What an action does to the waiting paths, at time `now`.
pub open spec fn apply_action(m: Map<Seq<char>, u64>, action: PathAction, path: Seq<char>, now: u64) -> Map<
    Seq<char>,
    u64,
> {
    match action {
        PathAction::Queue => m.insert(path, now),
        PathAction::Delete => m.remove(path),
        PathAction::Ignore => m,
    }
}

/// The waiting paths after an event of kind `kind` naming `paths` at time `now`,
/// its paths taken in order.
pub open spec fn pending_after(
    m: Map<Seq<char>, u64>,
    kind: FsEventKind,
    paths: Seq<EventPath>,
    now: u64,
) -> Map<Seq<char>, u64>
    decreases paths.len(),
{
    if paths.len() == 0 {
        m
    } else {
        let n = paths.len() - 1;
        apply_action(
            pending_after(m, kind, paths.drop_last(), now),
            action_for(kind, n, paths[n]),
            paths[n].path@,
            now,
        )
    }
}

/// The paths that an event deletes from the index, in order.
pub open spec fn deleted_paths(kind: FsEventKind, paths: Seq<EventPath>) -> Seq<Seq<char>>
    decreases paths.len(),
{
    if paths.len() == 0 {
        seq![]
    } else {
        let n = paths.len() - 1;
        let prev = deleted_paths(kind, paths.drop_last());
        if action_for(kind, n, paths[n]) is Delete {
            prev.push(paths[n].path@)
        } else {
            prev
        }
    }
}

/// Whether a path last seen at `last_seen` has been quiet for the debounce
/// period at `now` (a clock that seems to run backwards counts as no time passed).
pub open spec fn is_ready(last_seen: u64, now: u64) -> bool {
    now >= last_seen && now - last_seen >= DEBOUNCE_NANOS
}

/// The paths that are indexed at `now`.
pub open spec fn ready_paths(m: Map<Seq<char>, u64>, now: u64) -> Set<Seq<char>> {
    Set::new(|k: Seq<char>| m.dom().contains(k) && is_ready(m[k], now))
}

/// The paths that go on waiting at `now`, with their times.
pub open spec fn still_pending(m: Map<Seq<char>, u64>, now: u64) -> Map<Seq<char>, u64> {
    Map::new(|k: Seq<char>| m.dom().contains(k) && !is_ready(m[k], now), |k: Seq<char>| m[k])
}

/// A path waiting for indexing and when it was last seen.
struct PendingEntry {
    path: String,
    last_seen: u64,
}

spec fn has_key(s: Seq<PendingEntry>, k: Seq<char>) -> bool {
    exists|i: int| 0 <= i < s.len() && s[i].path@ == k
}

spec fn key_index(s: Seq<PendingEntry>, k: Seq<char>) -> int {
    choose|i: int| 0 <= i < s.len() && s[i].path@ == k
}

spec fn entries_map(s: Seq<PendingEntry>) -> Map<Seq<char>, u64> {
    Map::new(|k: Seq<char>| has_key(s, k), |k: Seq<char>| s[key_index(s, k)].last_seen)
}

spec fn distinct_keys(s: Seq<PendingEntry>) -> bool {
    forall|i: int, j: int|
        #![trigger s[i], s[j]]
        0 <= i < s.len() && 0 <= j < s.len() && i != j ==> s[i].path@ != s[j].path@
}

proof fn lemma_entry_in_map(s: Seq<PendingEntry>, i: int)
    requires
        distinct_keys(s),
        0 <= i < s.len(),
    ensures
        entries_map(s).dom().contains(s[i].path@),
        entries_map(s)[s[i].path@] == s[i].last_seen,
        key_index(s, s[i].path@) == i,
{
    let k = s[i].path@;
    assert(has_key(s, k));
    let j = key_index(s, k);
    assert(0 <= j < s.len() && s[j].path@ == k);
    if j != i {
        assert(s[i].path@ != s[j].path@);
    }
}

/// The paths waiting for indexing, each with the time of its last event.
pub struct PendingQueue {
    entries: Vec<PendingEntry>,
}

impl View for PendingQueue {
    type V = Map<Seq<char>, u64>;

    closed spec fn view(&self) -> Map<Seq<char>, u64> {
        entries_map(self.entries@)
    }
}

impl PendingQueue {
    /// No path waits twice.
    pub closed spec fn wf(&self) -> bool {
        distinct_keys(self.entries@)
    }

    /// No path waiting.
    pub fn new() -> (q: PendingQueue)
        ensures
            q.wf(),
            q@ == Map::<Seq<char>, u64>::empty(),
    {
        let q = PendingQueue { entries: Vec::new() };
        assert(q@ =~= Map::<Seq<char>, u64>::empty());
        q
    }

    /// The number of waiting paths.
    pub fn len(&self) -> (n: usize)
        requires
            self.wf(),
        ensures
            n == self@.dom().len(),
    {
        proof {
            self.lemma_dom_len();
        }
        self.entries.len()
    }

    proof fn lemma_dom_len(&self)
        requires
            self.wf(),
        ensures
            self@.dom().len() == self.entries@.len(),
            self@.dom().finite(),
    {
        let s = self.entries@;
        let keys = s.map_values(|e: PendingEntry| e.path@);
        assert forall|i: int, j: int| 0 <= i < keys.len() && 0 <= j < keys.len() && i != j implies keys[i]
            != keys[j] by {
            assert(s[i].path@ != s[j].path@);
        }
        assert(keys.no_duplicates());
        keys.unique_seq_to_set();
        assert forall|k: Seq<char>| self@.dom().contains(k) <==> keys.to_set().contains(k) by {
            if self@.dom().contains(k) {
                let i = key_index(s, k);
                assert(keys[i] == k);
            }
            if keys.to_set().contains(k) {
                let i = choose|i: int| 0 <= i < keys.len() && keys[i] == k;
                assert(s[i].path@ == k);
            }
        }
        assert(self@.dom() =~= keys.to_set());
    }

    /// The position of `path` among the waiting paths, if it waits.
    fn find(&self, path: &str) -> (r: Option<usize>)
        requires
            self.wf(),
        ensures
            r is None ==> !self@.dom().contains(path@),
            r matches Some(i) ==> i < self.entries@.len() && self.entries@[i as int].path@ == path@,
    {
        let n = self.entries.len();
        let mut i: usize = 0;
        while i < n
            invariant
                n == self.entries@.len(),
                i <= n,
                forall|j: int| 0 <= j < i ==> self.entries@[j].path@ != path@,
            decreases n - i,
        {
            if crate::text::str_eq(self.entries[i].path.as_str(), path) {
                return Some(i);
            }
            i = i + 1;
        }
        None
    }

    /// When `path` was last seen, if it waits.
    pub fn last_seen(&self, path: &str) -> (r: Option<u64>)
        requires
            self.wf(),
        ensures
            r == (if self@.dom().contains(path@) {
                Some(self@[path@])
            } else {
                None::<u64>
            }),
    {
        match self.find(path) {
            Some(i) => {
                proof {
                    lemma_entry_in_map(self.entries@, i as int);
                }
                Some(self.entries[i].last_seen)
            },
            None => None,
        }
    }

    /// Marks `path` as seen at `now`: it waits, and its timer restarts.
    pub fn insert(&mut self, path: String, now: u64)
        requires
            old(self).wf(),
        ensures
            final(self).wf(),
            final(self)@ == old(self)@.insert(path@, now),
    {
        let ghost p = path@;
        match self.find(path.as_str()) {
            Some(i) => {
                let ghost before = self.entries@;
                self.entries.set(i, PendingEntry { path, last_seen: now });
                let ghost after = self.entries@;
                assert(distinct_keys(after)) by {
                    assert forall|a: int, b: int|
                        0 <= a < after.len() && 0 <= b < after.len() && a != b implies #[trigger] after[a].path@
                        != #[trigger] after[b].path@ by {
                        assert(before[a].path@ != before[b].path@);
                    }
                }
                assert forall|k: Seq<char>| #[trigger] self@.dom().contains(k) <==> old(self)@.insert(p, now).dom().contains(k) by {
                    if has_key(after, k) {
                        let j = choose|j: int| 0 <= j < after.len() && after[j].path@ == k;
                        assert(before[j].path@ == k);
                    }
                    if has_key(before, k) {
                        let j = choose|j: int| 0 <= j < before.len() && before[j].path@ == k;
                        assert(after[j].path@ == k);
                    }
                }
                assert forall|k: Seq<char>| #[trigger] self@.dom().contains(k) implies self@[k] == old(self)@.insert(p, now)[k] by {
                    let j = key_index(after, k);
                    lemma_entry_in_map(after, j);
                    if j != i {
                        lemma_entry_in_map(before, j);
                    }
                }
                assert(self@ =~= old(self)@.insert(p, now));
            },
            None => {
                let ghost before = self.entries@;
                self.entries.push(PendingEntry { path, last_seen: now });
                let ghost after = self.entries@;
                assert(distinct_keys(after)) by {
                    assert forall|a: int, b: int|
                        0 <= a < after.len() && 0 <= b < after.len() && a != b implies #[trigger] after[a].path@
                        != #[trigger] after[b].path@ by {
                        if a < before.len() && b < before.len() {
                            assert(before[a].path@ != before[b].path@);
                        } else if a < before.len() {
                            assert(after[a] == before[a]);
                            if before[a].path@ == p {
                                assert(has_key(before, p));
                            }
                        } else {
                            assert(after[b] == before[b]);
                            if before[b].path@ == p {
                                assert(has_key(before, p));
                            }
                        }
                    }
                }
                assert forall|k: Seq<char>| #[trigger] self@.dom().contains(k) <==> old(self)@.insert(p, now).dom().contains(k) by {
                    if has_key(after, k) && k != p {
                        let j = choose|j: int| 0 <= j < after.len() && after[j].path@ == k;
                        assert(j < before.len());
                        assert(before[j].path@ == k);
                    }
                    if has_key(before, k) {
                        let j = choose|j: int| 0 <= j < before.len() && before[j].path@ == k;
                        assert(after[j].path@ == k);
                    }
                    if k == p {
                        assert(after[before.len() as int].path@ == k);
                    }
                }
                assert forall|k: Seq<char>| #[trigger] self@.dom().contains(k) implies self@[k] == old(self)@.insert(p, now)[k] by {
                    let j = key_index(after, k);
                    lemma_entry_in_map(after, j);
                    if j < before.len() {
                        assert(after[j] == before[j]);
                        lemma_entry_in_map(before, j);
                    }
                }
                assert(self@ =~= old(self)@.insert(p, now));
            },
        }
    }

    /// Stops `path` from waiting.
    pub fn remove(&mut self, path: &str)
        requires
            old(self).wf(),
        ensures
            final(self).wf(),
            final(self)@ == old(self)@.remove(path@),
    {
        match self.find(path) {
            Some(i) => {
                let ghost before = self.entries@;
                let _ = self.entries.remove(i);
                let ghost after = self.entries@;
                assert forall|a: int| 0 <= a < after.len() implies #[trigger] after[a] == (if a < i {
                    before[a]
                } else {
                    before[a + 1]
                }) by {}
                assert(distinct_keys(after)) by {
                    assert forall|a: int, b: int|
                        0 <= a < after.len() && 0 <= b < after.len() && a != b implies #[trigger] after[a].path@
                        != #[trigger] after[b].path@ by {
                        let a2 = if a < i { a } else { a + 1 };
                        let b2 = if b < i { b } else { b + 1 };
                        assert(before[a2].path@ != before[b2].path@);
                    }
                }
                assert forall|k: Seq<char>| #[trigger] self@.dom().contains(k) <==> old(self)@.remove(path@).dom().contains(k) by {
                    if has_key(after, k) {
                        let j = choose|j: int| 0 <= j < after.len() && after[j].path@ == k;
                        let j2 = if j < i { j } else { j + 1 };
                        assert(before[j2].path@ == k);
                        assert(before[i as int].path@ != before[j2].path@);
                    }
                    if has_key(before, k) && k != path@ {
                        let j = choose|j: int| 0 <= j < before.len() && before[j].path@ == k;
                        assert(j != i);
                        let j2 = if j < i { j } else { j - 1 };
                        assert(after[j2].path@ == k);
                    }
                }
                assert forall|k: Seq<char>| #[trigger] self@.dom().contains(k) implies self@[k] == old(self)@.remove(path@)[k] by {
                    let j = key_index(after, k);
                    lemma_entry_in_map(after, j);
                    let j2 = if j < i { j } else { j + 1 };
                    lemma_entry_in_map(before, j2);
                }
                assert(self@ =~= old(self)@.remove(path@));
            },
            None => {
                assert(old(self)@.remove(path@) =~= old(self)@);
            },
        }
    }

    /// Takes out the paths that have been quiet for the debounce period at
    /// `now` and returns them, each once; the others go on waiting.
    pub fn take_ready(&mut self, now: u64) -> (fired: Vec<String>)
        requires
            old(self).wf(),
        ensures
            final(self).wf(),
            final(self)@ == still_pending(old(self)@, now),
            string_views(fired@).to_set() == ready_paths(old(self)@, now),
            string_views(fired@).no_duplicates(),
    {
        let ghost before = self.entries@;
        let mut kept: Vec<PendingEntry> = Vec::new();
        let mut fired: Vec<String> = Vec::new();
        let ghost mut kept_src: Seq<int> = seq![];
        let ghost mut fired_src: Seq<int> = seq![];
        let n = self.entries.len();
        let mut i: usize = 0;
        while i < n
            invariant
                n == before.len(),
                self.entries@ == before,
                distinct_keys(before),
                i <= n,
                kept_src.len() == kept@.len(),
                forall|a: int, b: int| 0 <= a < b < kept_src.len() ==> #[trigger] kept_src[a] < #[trigger] kept_src[b],
                forall|a: int|
                    0 <= a < kept@.len() ==> 0 <= #[trigger] kept_src[a] < i && kept@[a]
                        == before[kept_src[a]] && !is_ready(before[kept_src[a]].last_seen, now),
                forall|b: int|
                    0 <= b < i && !is_ready(#[trigger] before[b].last_seen, now) ==> has_key(
                        kept@,
                        before[b].path@,
                    ),
                fired_src.len() == fired@.len(),
                forall|a: int, b: int| 0 <= a < b < fired_src.len() ==> #[trigger] fired_src[a] < #[trigger] fired_src[b],
                forall|a: int|
                    0 <= a < fired@.len() ==> 0 <= #[trigger] fired_src[a] < i && fired@[a]@
                        == before[fired_src[a]].path@ && is_ready(before[fired_src[a]].last_seen, now),
                forall|b: int|
                    0 <= b < i && is_ready(#[trigger] before[b].last_seen, now) ==> string_views(
                        fired@,
                    ).contains(before[b].path@),
            decreases n - i,
        {
            let ghost old_kept = kept@;
            let ghost old_fired = fired@;
            let e_path = self.entries[i].path.clone();
            let t = self.entries[i].last_seen;
            if now >= t && now - t >= DEBOUNCE_NANOS {
                fired.push(e_path);
                proof {
                    fired_src = fired_src.push(i as int);
                    assert forall|b: int|
                        0 <= b < i + 1 && is_ready(#[trigger] before[b].last_seen, now) implies string_views(
                        fired@,
                    ).contains(before[b].path@) by {
                        if b < i {
                            let a = choose|a: int| 0 <= a < string_views(old_fired).len() && string_views(old_fired)[a] == before[b].path@;
                            assert(string_views(fired@)[a] == before[b].path@);
                        } else {
                            assert(string_views(fired@)[old_fired.len() as int] == before[b].path@);
                        }
                    }
                    assert forall|b: int|
                        0 <= b < i + 1 && !is_ready(#[trigger] before[b].last_seen, now) implies has_key(
                        kept@,
                        before[b].path@,
                    ) by {}
                }
            } else {
                kept.push(PendingEntry { path: e_path, last_seen: t });
                proof {
                    kept_src = kept_src.push(i as int);
                    assert(kept@[old_kept.len() as int] == before[i as int]);
                    assert forall|b: int|
                        0 <= b < i + 1 && !is_ready(#[trigger] before[b].last_seen, now) implies has_key(
                        kept@,
                        before[b].path@,
                    ) by {
                        if b < i {
                            let a = choose|a: int| 0 <= a < old_kept.len() && old_kept[a].path@ == before[b].path@;
                            assert(kept@[a] == old_kept[a]);
                        } else {
                            assert(kept@[old_kept.len() as int].path@ == before[b].path@);
                        }
                    }
                    assert forall|b: int|
                        0 <= b < i + 1 && is_ready(#[trigger] before[b].last_seen, now) implies string_views(
                        fired@,
                    ).contains(before[b].path@) by {}
                }
            }
            i = i + 1;
        }
        assert(distinct_keys(kept@)) by {
            assert forall|a: int, b: int|
                0 <= a < kept@.len() && 0 <= b < kept@.len() && a != b implies #[trigger] kept@[a].path@
                != #[trigger] kept@[b].path@ by {
                if a < b {
                    assert(kept_src[a] < kept_src[b]);
                } else {
                    assert(kept_src[b] < kept_src[a]);
                }
                assert(before[kept_src[a]].path@ != before[kept_src[b]].path@);
            }
        }
        self.entries = kept;
        let ghost m = entries_map(before);
        assert forall|k: Seq<char>| #[trigger] self@.dom().contains(k) <==> still_pending(m, now).dom().contains(k) by {
            if has_key(kept@, k) {
                let a = choose|a: int| 0 <= a < kept@.len() && kept@[a].path@ == k;
                lemma_entry_in_map(before, kept_src[a]);
            }
            if still_pending(m, now).dom().contains(k) {
                let b = key_index(before, k);
                lemma_entry_in_map(before, b);
            }
        }
        assert forall|k: Seq<char>| #[trigger] self@.dom().contains(k) implies self@[k] == still_pending(m, now)[k] by {
            let a = key_index(kept@, k);
            lemma_entry_in_map(kept@, a);
            lemma_entry_in_map(before, kept_src[a]);
        }
        assert(self@ =~= still_pending(m, now));
        assert forall|k: Seq<char>| #[trigger] string_views(fired@).to_set().contains(k) <==> ready_paths(m, now).contains(k) by {
            if string_views(fired@).to_set().contains(k) {
                let a = choose|a: int| 0 <= a < string_views(fired@).len() && string_views(fired@)[a] == k;
                lemma_entry_in_map(before, fired_src[a]);
            }
            if ready_paths(m, now).contains(k) {
                let b = key_index(before, k);
                lemma_entry_in_map(before, b);
            }
        }
        assert(string_views(fired@).to_set() =~= ready_paths(m, now));
        assert(string_views(fired@).no_duplicates()) by {
            assert forall|a: int, b: int| 0 <= a < string_views(fired@).len() && 0 <= b < string_views(fired@).len() && a != b
                implies string_views(fired@)[a] != string_views(fired@)[b] by {
                if a < b {
                    assert(fired_src[a] < fired_src[b]);
                } else {
                    assert(fired_src[b] < fired_src[a]);
                }
                assert(before[fired_src[a]].path@ != before[fired_src[b]].path@);
            }
        }
        fired
    }
}

/// What an event of kind `kind` does to its path number `index`.
pub fn action_of(kind: &FsEventKind, index: usize, entry: &EventPath) -> (r: PathAction)
    ensures
        r == action_for(*kind, index as int, *entry),
{
    match kind {
        FsEventKind::Create | FsEventKind::ModifyData | FsEventKind::RenameTo => {
            if entry.is_file {
                PathAction::Queue
            } else {
                PathAction::Ignore
            }
        },
        FsEventKind::Remove | FsEventKind::RenameFrom => PathAction::Delete,
        FsEventKind::RenameBoth => {
            if index == 0 {
                PathAction::Delete
            } else if index == 1 && entry.is_file {
                PathAction::Queue
            } else {
                PathAction::Ignore
            }
        },
        FsEventKind::RenameAny => {
            if entry.is_file {
                PathAction::Queue
            } else {
                PathAction::Delete
            }
        },
        FsEventKind::Other => PathAction::Ignore,
    }
}

/// Handles one file-system event at time `now`: created and changed files, and
/// the new names of renamed files, wait for indexing; removed paths, and the old
/// names of renamed files, stop waiting and are returned, in order, for deletion
/// from the index.
pub fn dispatch_event(event: &FsEvent, pending: &mut PendingQueue, now: u64) -> (deleted: Vec<String>)
    requires
        old(pending).wf(),
    ensures
        final(pending).wf(),
        final(pending)@ == pending_after(old(pending)@, event.kind, event.paths@, now),
        string_views(deleted@) == deleted_paths(event.kind, event.paths@),
{
    let mut deleted: Vec<String> = Vec::new();
    let n = event.paths.len();
    let mut i: usize = 0;
    let ghost start = pending@;
    while i < n
        invariant
            n == event.paths@.len(),
            i <= n,
            pending.wf(),
            pending@ == pending_after(start, event.kind, event.paths@.take(i as int), now),
            string_views(deleted@) == deleted_paths(event.kind, event.paths@.take(i as int)),
        decreases n - i,
    {
        let ghost next = event.paths@.take(i + 1);
        assert(next.drop_last() =~= event.paths@.take(i as int));
        assert(next[i as int] == event.paths@[i as int]);
        let entry = &event.paths[i];
        match action_of(&event.kind, i, entry) {
            PathAction::Queue => {
                pending.insert(entry.path.clone(), now);
            },
            PathAction::Delete => {
                pending.remove(entry.path.as_str());
                deleted.push(entry.path.clone());
                assert(string_views(deleted@) =~= deleted_paths(event.kind, next));
            },
            PathAction::Ignore => {},
        }
        i = i + 1;
    }
    assert(event.paths@.take(n as int) =~= event.paths@);
    deleted
}

/// Whether events of this kind only delete their paths.
pub open spec fn deletes_all(kind: FsEventKind) -> bool {
    kind is Remove || kind is RenameFrom
}

/// Whether events of this kind queue their file paths and touch nothing else.
pub open spec fn queues_files(kind: FsEventKind) -> bool {
    kind is Create || kind is ModifyData || kind is RenameTo
}

/// After a removal (or the old half of a rename), none of the event's paths
/// waits for indexing any more.
pub proof fn law_removed_paths_stop_waiting(
    m: Map<Seq<char>, u64>,
    kind: FsEventKind,
    paths: Seq<EventPath>,
    now: u64,
)
    requires
        deletes_all(kind),
    ensures
        forall|j: int|
            #![trigger paths[j]]
            0 <= j < paths.len() ==> !pending_after(m, kind, paths, now).dom().contains(
                paths[j].path@,
            ),
        deleted_paths(kind, paths) == paths.map_values(|e: EventPath| e.path@),
    decreases paths.len(),
{
    if paths.len() > 0 {
        let prev = paths.drop_last();
        law_removed_paths_stop_waiting(m, kind, prev, now);
        let last = paths[paths.len() - 1];
        assert(action_for(kind, paths.len() - 1, last) is Delete);
        assert(pending_after(m, kind, paths, now) == pending_after(m, kind, prev, now).remove(last.path@));
        assert forall|j: int| 0 <= j < paths.len() implies !#[trigger] pending_after(
            m,
            kind,
            paths,
            now,
        ).dom().contains(paths[j].path@) by {
            if j < prev.len() {
                assert(prev[j] == paths[j]);
            }
        }
        assert(deleted_paths(kind, paths) =~= paths.map_values(|e: EventPath| e.path@));
    } else {
        assert(deleted_paths(kind, paths) =~= paths.map_values(|e: EventPath| e.path@));
    }
}

/// After a creation or a content change (or the new half of a rename), every
/// file the event names waits for indexing, its timer started at the event;
/// nothing is deleted.
pub proof fn law_changed_files_wait(
    m: Map<Seq<char>, u64>,
    kind: FsEventKind,
    paths: Seq<EventPath>,
    now: u64,
)
    requires
        queues_files(kind),
    ensures
        forall|j: int|
            #![trigger paths[j]]
            0 <= j < paths.len() && paths[j].is_file ==> pending_after(
                m,
                kind,
                paths,
                now,
            ).dom().contains(paths[j].path@) && pending_after(m, kind, paths, now)[paths[j].path@]
                == now,
        deleted_paths(kind, paths).len() == 0,
    decreases paths.len(),
{
    if paths.len() > 0 {
        let prev = paths.drop_last();
        law_changed_files_wait(m, kind, prev, now);
        let last = paths[paths.len() - 1];
        assert(pending_after(m, kind, paths, now) == apply_action(
            pending_after(m, kind, prev, now),
            action_for(kind, paths.len() - 1, last),
            last.path@,
            now,
        ));
        assert(action_for(kind, paths.len() - 1, last) !is Delete);
        assert forall|j: int| 0 <= j < paths.len() && paths[j].is_file implies #[trigger] pending_after(
            m,
            kind,
            paths,
            now,
        ).dom().contains(paths[j].path@) && pending_after(m, kind, paths, now)[paths[j].path@]
            == now by {
            if j < prev.len() {
                assert(prev[j] == paths[j]);
            }
        }
    }
}

/// A waiting path is indexed at `now` exactly when it has gone the debounce
/// period without events; otherwise it keeps waiting with its time unchanged.
pub proof fn law_quiet_paths_fire(m: Map<Seq<char>, u64>, path: Seq<char>, now: u64)
    requires
        m.dom().contains(path),
    ensures
        ready_paths(m, now).contains(path) <==> (now >= m[path] && now - m[path] >= DEBOUNCE_NANOS),
        ready_paths(m, now).contains(path) <==> !still_pending(m, now).dom().contains(path),
        still_pending(m, now).dom().contains(path) ==> still_pending(m, now)[path] == m[path],
{
}

/// A new event for a file restarts its wait: within the debounce period after
/// the event, the file is not indexed and still waits.
pub proof fn law_event_restarts_wait(
    m: Map<Seq<char>, u64>,
    kind: FsEventKind,
    paths: Seq<EventPath>,
    at: u64,
    j: int,
    now: u64,
)
    requires
        queues_files(kind),
        0 <= j < paths.len(),
        paths[j].is_file,
        at <= now,
        now - at < DEBOUNCE_NANOS,
    ensures
        !ready_paths(pending_after(m, kind, paths, at), now).contains(paths[j].path@),
        still_pending(pending_after(m, kind, paths, at), now).dom().contains(paths[j].path@),
{
    law_changed_files_wait(m, kind, paths, at);
    let after = pending_after(m, kind, paths, at);
    assert(after.dom().contains(paths[j].path@) && after[paths[j].path@] == at);
    assert(!is_ready(after[paths[j].path@], now));
}

/// What has fired is gone: taking the ready paths again at the same moment
/// finds none.
pub proof fn law_fired_paths_leave(m: Map<Seq<char>, u64>, now: u64)
    ensures
        ready_paths(still_pending(m, now), now) == Set::<Seq<char>>::empty(),
        still_pending(still_pending(m, now), now) == still_pending(m, now),
{
    assert(ready_paths(still_pending(m, now), now) =~= Set::<Seq<char>>::empty());
    assert(still_pending(still_pending(m, now), now) =~= still_pending(m, now));
}

proof fn lemma_rename_both_rest_ignored(
    m: Map<Seq<char>, u64>,
    paths: Seq<EventPath>,
    now: u64,
)
    requires
        paths.len() >= 2,
    ensures
        pending_after(m, FsEventKind::RenameBoth, paths, now) == pending_after(
            m,
            FsEventKind::RenameBoth,
            paths.take(2),
            now,
        ),
        deleted_paths(FsEventKind::RenameBoth, paths) == deleted_paths(
            FsEventKind::RenameBoth,
            paths.take(2),
        ),
    decreases paths.len(),
{
    if paths.len() > 2 {
        let prev = paths.drop_last();
        lemma_rename_both_rest_ignored(m, prev, now);
        assert(prev.take(2) =~= paths.take(2));
    } else {
        assert(paths.take(2) =~= paths);
    }
}

/// A rename reported with both paths moves the entry: the old path stops
/// waiting and is deleted from the index, and the new path, if it is a file,
/// waits for indexing.
pub proof fn law_rename_moves_entry(m: Map<Seq<char>, u64>, paths: Seq<EventPath>, now: u64)
    requires
        paths.len() >= 2,
        paths[0].path@ != paths[1].path@,
    ensures
        deleted_paths(FsEventKind::RenameBoth, paths) == seq![paths[0].path@],
        !pending_after(m, FsEventKind::RenameBoth, paths, now).dom().contains(paths[0].path@),
        paths[1].is_file ==> pending_after(m, FsEventKind::RenameBoth, paths, now).dom().contains(
            paths[1].path@,
        ) && pending_after(m, FsEventKind::RenameBoth, paths, now)[paths[1].path@] == now,
        !paths[1].is_file ==> pending_after(m, FsEventKind::RenameBoth, paths, now) == m.remove(
            paths[0].path@,
        ),
{
    lemma_rename_both_rest_ignored(m, paths, now);
    let two = paths.take(2);
    let one = two.drop_last();
    assert(one.drop_last() =~= Seq::<EventPath>::empty());
    assert(one.len() == 1);
    assert(one[0] == paths[0]);
    assert(two[1] == paths[1]);
    assert(deleted_paths(FsEventKind::RenameBoth, one.drop_last()) =~= Seq::<Seq<char>>::empty());
    assert(pending_after(m, FsEventKind::RenameBoth, one.drop_last(), now) == m);
    assert(action_for(FsEventKind::RenameBoth, 0, one[0]) is Delete);
    assert(deleted_paths(FsEventKind::RenameBoth, one) =~= seq![paths[0].path@]);
    assert(pending_after(m, FsEventKind::RenameBoth, one, now) == m.remove(paths[0].path@));
}

/// No two paths of an event are the same.
pub open spec fn distinct_event_paths(paths: Seq<EventPath>) -> bool {
    forall|i: int, j: int|
        #![trigger paths[i], paths[j]]
        0 <= i < paths.len() && 0 <= j < paths.len() && i != j ==> paths[i].path@ != paths[j].path@
}

/// Whether an event names `k` among its paths.
pub open spec fn event_names(paths: Seq<EventPath>, k: Seq<char>) -> bool {
    exists|j: int| 0 <= j < paths.len() && paths[j].path@ == k
}

/// The test that picks the paths that were not regular files.
pub open spec fn not_a_file() -> spec_fn(EventPath) -> bool {
    |e: EventPath| !e.is_file
}

/// A rename whose direction is unknown deletes from the index exactly its paths
/// that are not regular files, in order, whatever their position; and (for an
/// event naming each path once) every path that is a regular file waits for
/// indexing with its timer at the event, every other path stops waiting, and
/// paths the event does not name are untouched.
pub proof fn law_unknown_rename_direction(m: Map<Seq<char>, u64>, paths: Seq<EventPath>, now: u64)
    ensures
        deleted_paths(FsEventKind::RenameAny, paths) == paths.filter(not_a_file()).map_values(
            |e: EventPath| e.path@,
        ),
        distinct_event_paths(paths) ==> forall|j: int|
            #![trigger paths[j]]
            0 <= j < paths.len() ==> if paths[j].is_file {
                &&& pending_after(m, FsEventKind::RenameAny, paths, now).dom().contains(paths[j].path@)
                &&& pending_after(m, FsEventKind::RenameAny, paths, now)[paths[j].path@] == now
            } else {
                !pending_after(m, FsEventKind::RenameAny, paths, now).dom().contains(paths[j].path@)
            },
        forall|k: Seq<char>|
            #![trigger pending_after(m, FsEventKind::RenameAny, paths, now).dom().contains(k)]
            !event_names(paths, k) ==> (pending_after(m, FsEventKind::RenameAny, paths, now).dom().contains(k)
                <==> m.dom().contains(k)),
        forall|k: Seq<char>|
            #![trigger pending_after(m, FsEventKind::RenameAny, paths, now)[k]]
            !event_names(paths, k) && m.dom().contains(k) ==> pending_after(
                m,
                FsEventKind::RenameAny,
                paths,
                now,
            )[k] == m[k],
    decreases paths.len(),
{
    let kind = FsEventKind::RenameAny;
    if paths.len() == 0 {
        assert(pending_after(m, kind, paths, now) == m);
        reveal(Seq::filter);
        assert(paths.filter(not_a_file()).map_values(|e: EventPath| e.path@) =~= Seq::<
            Seq<char>,
        >::empty());
    } else {
        let prev = paths.drop_last();
        let n = paths.len() - 1;
        let last = paths[n];
        law_unknown_rename_direction(m, prev, now);
        let before = pending_after(m, kind, prev, now);
        let after = pending_after(m, kind, paths, now);
        assert(after == apply_action(before, action_for(kind, n, last), last.path@, now));
        // deletions
        reveal(Seq::filter);
        assert(paths.filter(not_a_file()) == if not_a_file()(last) {
            prev.filter(not_a_file()).push(last)
        } else {
            prev.filter(not_a_file())
        });
        assert(deleted_paths(kind, paths) =~= paths.filter(not_a_file()).map_values(
            |e: EventPath| e.path@,
        ));
        // the named paths
        if distinct_event_paths(paths) {
            assert(distinct_event_paths(prev)) by {
                assert forall|i: int, j: int|
                    #![trigger prev[i], prev[j]]
                    0 <= i < prev.len() && 0 <= j < prev.len() && i != j implies prev[i].path@
                    != prev[j].path@ by {
                    assert(prev[i] == paths[i] && prev[j] == paths[j]);
                }
            }
            assert forall|j: int|
                #![trigger paths[j]]
                0 <= j < paths.len() implies if paths[j].is_file {
                &&& after.dom().contains(paths[j].path@)
                &&& after[paths[j].path@] == now
            } else {
                !after.dom().contains(paths[j].path@)
            } by {
                if j < n {
                    assert(prev[j] == paths[j]);
                    assert(paths[j].path@ != paths[n].path@);
                }
            }
        }
        // paths the event does not name
        assert forall|k: Seq<char>| !event_names(paths, k) implies {
            &&& (#[trigger] after.dom().contains(k) <==> m.dom().contains(k))
            &&& (m.dom().contains(k) ==> after[k] == m[k])
        } by {
            assert(!event_names(prev, k)) by {
                if event_names(prev, k) {
                    let j = choose|j: int| 0 <= j < prev.len() && prev[j].path@ == k;
                    assert(prev[j] == paths[j]);
                }
            }
            assert(before.dom().contains(k) <==> m.dom().contains(k));
            assert(m.dom().contains(k) ==> before[k] == m[k]);
            assert(paths[n].path@ != k) by {
                if paths[n].path@ == k {
                    assert(event_names(paths, k));
                }
            }
        }
    }
}

} // verus!
