//! Turning raw file-system notifications into index updates: each note
//! path is reconciled at most once per half second, ambiguous kinds are
//! resolved, and the index follows the file.
use vstd::prelude::*;
use crate::codec::{encoded, id_from_abs_path};
use crate::markdown::{extract_title, title_of};
use crate::store::IndexOp;

verus! {

/// Events for one path closer together than this, in milliseconds, are
/// reconciled once.
pub const DEBOUNCE_MS: u64 = 500;

/// Entries older than this, in milliseconds, may be dropped.
pub const STALE_MS: u64 = 5000;

/// Above this many entries the table drops its stale ones.
pub const PRUNE_ABOVE: usize = 100;

/// Milliseconds from `then` to `now`, or 0 if `now` is earlier.
pub open spec fn elapsed(now: u64, then: u64) -> int {
    if now >= then {
        now - then
    } else {
        0
    }
}

/// When each path was last let through.
pub struct Debouncer {
    entries: Vec<(String, u64)>,
}

/// The entries of a table as plain values.
pub open spec fn entry_views(e: Seq<(String, u64)>) -> Seq<(Seq<char>, u64)> {
    e.map_values(|x: (String, u64)| (x.0@, x.1))
}

/// When `p` was last let through, by the table `s`.
pub open spec fn last_seen(s: Seq<(Seq<char>, u64)>, p: Seq<char>) -> Option<u64> {
    if exists|i: int| 0 <= i < s.len() && s[i].0 == p {
        Some(s[choose|i: int| 0 <= i < s.len() && s[i].0 == p].1)
    } else {
        None
    }
}

/// No path stands twice in the table.
pub open spec fn keys_unique(s: Seq<(Seq<char>, u64)>) -> bool {
    forall|i: int, j: int| 0 <= i < j < s.len() ==> s[i].0 != s[j].0
}

proof fn lemma_last_seen_at(s: Seq<(Seq<char>, u64)>, i: int)
    requires
        keys_unique(s),
        0 <= i < s.len(),
    ensures
        last_seen(s, s[i].0) == Some(s[i].1),
{
    let k = choose|k: int| 0 <= k < s.len() && s[k].0 == s[i].0;
    assert(k == i) by {
        if k < i {
            assert(s[k].0 != s[i].0);
        } else if k > i {
            assert(s[i].0 != s[k].0);
        }
    }
}

/// Whether an event for `p` at `now` goes through: none went through for
/// `p` within the last half second.
pub open spec fn admitted(s: Seq<(Seq<char>, u64)>, p: Seq<char>, now: u64) -> bool {
    !(last_seen(s, p) matches Some(t) && elapsed(now, t) < DEBOUNCE_MS)
}

/// Whether the table `s` drops the entry of `q`'s time `t` at `now`.
pub open spec fn dropped(s: Seq<(Seq<char>, u64)>, t: u64, now: u64) -> bool {
    s.len() > PRUNE_ABOVE && elapsed(now, t) >= STALE_MS
}

/// How the table after an event for `p` at `now` relates to the one
/// before: stale entries are dropped when the table is large, and `p` is
/// stamped `now` when the event went through.
pub open spec fn after_event(
    s: Seq<(Seq<char>, u64)>,
    p: Seq<char>,
    now: u64,
    through: bool,
    s2: Seq<(Seq<char>, u64)>,
) -> bool {
    &&& keys_unique(s2)
    &&& s2.len() <= s.len() + 1
    &&& forall|q: Seq<char>|
        #![trigger last_seen(s2, q)]
        last_seen(s2, q) == if through && q == p {
            Some(now)
        } else {
            match last_seen(s, q) {
                Some(t) => if dropped(s, t, now) {
                    None
                } else {
                    Some(t)
                },
                None => None,
            }
        }
}

impl Debouncer {
    pub closed spec fn view(&self) -> Seq<(Seq<char>, u64)> {
        entry_views(self.entries@)
    }

    pub closed spec fn wf(&self) -> bool {
        keys_unique(entry_views(self.entries@))
    }

    pub fn new() -> (r: Debouncer)
        ensures
            r.wf(),
            r@.len() == 0,
    {
        Debouncer { entries: Vec::new() }
    }

    /// The number of paths in the table.
    pub fn len(&self) -> (r: usize)
        ensures
            r == self@.len(),
    {
        self.entries.len()
    }

    /// Drops the entries older than `STALE_MS`.
    fn prune(&mut self, now: u64)
        requires
            old(self).wf(),
        ensures
            final(self).wf(),
            final(self)@.len() <= old(self)@.len(),
            forall|q: Seq<char>|
                #![trigger last_seen(final(self)@, q)]
                last_seen(final(self)@, q) == match last_seen(old(self)@, q) {
                    Some(t) => if elapsed(now, t) >= STALE_MS {
                        None
                    } else {
                        Some(t)
                    },
                    None => None,
                },
    {
        let ghost s = self@;
        let mut kept: Vec<(String, u64)> = Vec::new();
        let mut i: usize = 0;
        let ghost mut from: Seq<int> = Seq::empty();
        while i < self.entries.len()
            invariant
                i <= self.entries.len(),
                s == entry_views(self.entries@),
                keys_unique(s),
                kept.len() == from.len(),
                kept.len() <= i,
                forall|k: int| 0 <= k < from.len() ==> 0 <= #[trigger] from[k] < i,
                forall|k: int, l: int| 0 <= k < l < from.len() ==> from[k] < from[l],
                forall|k: int|
                    0 <= k < kept.len() ==> entry_views(kept@)[k] == s[#[trigger] from[k]],
                forall|k: int| 0 <= k < from.len() ==> elapsed(now, s[#[trigger] from[k]].1) < STALE_MS,
                forall|j: int|
                    0 <= j < i && elapsed(now, s[j].1) < STALE_MS ==> exists|k: int|
                        0 <= k < from.len() && #[trigger] from[k] == j,
            decreases self.entries.len() - i,
        {
            let e = &self.entries[i];
            let t = e.1;
            assert(s[i as int] == (e.0@, t));
            let ghost from0 = from;
            if !(now >= t && now - t >= STALE_MS) {
                kept.push((e.0.clone(), t));
                proof {
                    from = from.push(i as int);
                    assert(entry_views(kept@)[kept.len() - 1] == s[i as int]);
                }
            }
            proof {
                assert forall|j: int|
                    0 <= j < i + 1 && elapsed(now, s[j].1) < STALE_MS implies exists|k: int|
                    0 <= k < from.len() && #[trigger] from[k] == j by {
                    if j == i {
                        assert(from[from.len() - 1] == i);
                    } else {
                        let k = choose|k: int| 0 <= k < from0.len() && #[trigger] from0[k] == j;
                        assert(from[k] == j);
                    }
                }
            }
            i = i + 1;
        }
        let ghost k2 = entry_views(kept@);
        assert(keys_unique(k2)) by {
            assert forall|a: int, b: int| 0 <= a < b < k2.len() implies k2[a].0 != k2[b].0 by {
                assert(k2[a] == s[from[a]]);
                assert(k2[b] == s[from[b]]);
            }
        }
        assert forall|q: Seq<char>| #[trigger] last_seen(k2, q) == match last_seen(s, q) {
            Some(t) => if elapsed(now, t) >= STALE_MS {
                None
            } else {
                Some(t)
            },
            None => None,
        } by {
            if exists|j: int| 0 <= j < s.len() && s[j].0 == q {
                let j = choose|j: int| 0 <= j < s.len() && s[j].0 == q;
                lemma_last_seen_at(s, j);
                if elapsed(now, s[j].1) < STALE_MS {
                    let k = choose|k: int| 0 <= k < from.len() && #[trigger] from[k] == j;
                    assert(k2[k] == s[j]);
                    lemma_last_seen_at(k2, k);
                } else {
                    assert(!exists|k: int| 0 <= k < k2.len() && k2[k].0 == q) by {
                        if exists|k: int| 0 <= k < k2.len() && k2[k].0 == q {
                            let k = choose|k: int| 0 <= k < k2.len() && k2[k].0 == q;
                            assert(k2[k] == s[from[k]]);
                            lemma_last_seen_at(s, from[k]);
                        }
                    }
                }
            } else {
                assert(!exists|k: int| 0 <= k < k2.len() && k2[k].0 == q) by {
                    if exists|k: int| 0 <= k < k2.len() && k2[k].0 == q {
                        let k = choose|k: int| 0 <= k < k2.len() && k2[k].0 == q;
                        assert(k2[k] == s[from[k]]);
                    }
                }
            }
        }
        self.entries = kept;
    }

    /// Where `p` stands in the table, if it does.
    fn position(&self, p: &String) -> (r: Option<usize>)
        requires
            self.wf(),
        ensures
            match r {
                Some(i) => i < self@.len() && self@[i as int].0 == p@,
                None => last_seen(self@, p@) is None,
            },
    {
        let mut i: usize = 0;
        while i < self.entries.len()
            invariant
                i <= self.entries.len(),
                forall|j: int| 0 <= j < i ==> self@[j].0 != p@,
            decreases self.entries.len() - i,
        {
            if self.entries[i].0 == *p {
                return Some(i);
            }
            i = i + 1;
        }
        None
    }

    /// Decides whether an event for path `p` at time `now` (in
    /// milliseconds) is reconciled, and records it: the table is first
    /// pruned of stale entries when it holds more than `PRUNE_ABOVE`, then
    /// the event goes through unless `p` went through less than
    /// `DEBOUNCE_MS` before, and when it does `p` is stamped `now`.
    pub fn let_through(&mut self, p: &str, now: u64) -> (r: bool)
        requires
            old(self).wf(),
        ensures
            final(self).wf(),
            r == admitted(old(self)@, p@, now),
            after_event(old(self)@, p@, now, r, final(self)@),
    {
        let ghost s0 = self@;
        if self.entries.len() > PRUNE_ABOVE {
            self.prune(now);
        }
        let ghost s1 = self@;
        proof {
            assert forall|q: Seq<char>| #[trigger] last_seen(s1, q) == match last_seen(s0, q) {
                Some(t) => if dropped(s0, t, now) {
                    None
                } else {
                    Some(t)
                },
                None => None,
            } by {}
        }
        assert(admitted(s1, p@, now) == admitted(s0, p@, now));
        let key = p.to_string();
        match self.position(&key) {
            Some(i) => {
                let t = self.entries[i].1;
                proof {
                    lemma_last_seen_at(s1, i as int);
                }
                if now < t || now - t < DEBOUNCE_MS {
                    assert(after_event(s0, p@, now, false, s1));
                    return false;
                }
                self.entries.set(i, (key, now));
                proof {
                    let s2 = self@;
                    assert(s2 == s1.update(i as int, (p@, now)));
                    assert(keys_unique(s2)) by {
                        assert forall|a: int, b: int| 0 <= a < b < s2.len() implies s2[a].0
                            != s2[b].0 by {
                            assert(s1[a].0 != s1[b].0);
                        }
                    }
                    assert forall|q: Seq<char>| #[trigger] last_seen(s2, q) == if q == p@ {
                        Some(now)
                    } else {
                        last_seen(s1, q)
                    } by {
                        if q == p@ {
                            lemma_last_seen_at(s2, i as int);
                        } else if exists|j: int| 0 <= j < s1.len() && s1[j].0 == q {
                            let j = choose|j: int| 0 <= j < s1.len() && s1[j].0 == q;
                            lemma_last_seen_at(s1, j);
                            lemma_last_seen_at(s2, j);
                        } else {
                            assert(!exists|j: int| 0 <= j < s2.len() && s2[j].0 == q) by {
                                if exists|j: int| 0 <= j < s2.len() && s2[j].0 == q {
                                    let j = choose|j: int| 0 <= j < s2.len() && s2[j].0 == q;
                                    assert(s1[j].0 == q);
                                }
                            }
                        }
                    }
                    assert(after_event(s0, p@, now, true, s2));
                }
                true
            },
            None => {
                self.entries.push((key, now));
                proof {
                    let s2 = self@;
                    assert(s2 == s1.push((p@, now)));
                    assert(keys_unique(s2)) by {
                        assert forall|a: int, b: int| 0 <= a < b < s2.len() implies s2[a].0
                            != s2[b].0 by {
                            if b == s1.len() {
                                if s1[a].0 == p@ {
                                    assert(exists|j: int| 0 <= j < s1.len() && s1[j].0 == p@);
                                }
                            } else {
                                assert(s1[a].0 != s1[b].0);
                            }
                        }
                    }
                    assert forall|q: Seq<char>| #[trigger] last_seen(s2, q) == if q == p@ {
                        Some(now)
                    } else {
                        last_seen(s1, q)
                    } by {
                        if q == p@ {
                            lemma_last_seen_at(s2, s1.len() as int);
                        } else if exists|j: int| 0 <= j < s1.len() && s1[j].0 == q {
                            let j = choose|j: int| 0 <= j < s1.len() && s1[j].0 == q;
                            lemma_last_seen_at(s1, j);
                            lemma_last_seen_at(s2, j);
                        } else {
                            assert(!exists|j: int| 0 <= j < s2.len() && s2[j].0 == q) by {
                                if exists|j: int| 0 <= j < s2.len() && s2[j].0 == q {
                                    let j = choose|j: int| 0 <= j < s2.len() && s2[j].0 == q;
                                    assert(s1[j].0 == q);
                                }
                            }
                        }
                    }
                    assert(after_event(s0, p@, now, true, s2));
                }
                true
            },
        }
    }
}


/// Once an event for `p` goes through at `t1`, a later event for `p` at
/// `t2` is held back while less than `DEBOUNCE_MS` has passed, and goes
/// through from then on.
pub proof fn lemma_debounce_window(
    s0: Seq<(Seq<char>, u64)>,
    s1: Seq<(Seq<char>, u64)>,
    p: Seq<char>,
    t1: u64,
    t2: u64,
)
    requires
        after_event(s0, p, t1, true, s1),
        t1 <= t2,
    ensures
        admitted(s1, p, t2) == (t2 - t1 >= DEBOUNCE_MS),
{
    assert(last_seen(s1, p) == Some(t1));
}

/// The kind of a raw notification from the watcher.
#[derive(Debug, Clone, Copy, PartialEq, Eq, Structural)]
pub enum RawKind {
    Create,
    Modify,
    Remove,
    /// A change the platform did not classify.
    Any,
    /// Access and other events that change nothing.
    Other,
}

/// What happened to a note's file, as reconciled.
#[derive(Debug, Clone, Copy, PartialEq, Eq, Structural)]
pub enum ChangeKind {
    Modified,
    Deleted,
}

impl ChangeKind {
    /// The name under which the change is announced.
    pub fn name(&self) -> (r: &'static str)
        ensures
            *self == ChangeKind::Modified ==> r@ == "modified"@,
            *self == ChangeKind::Deleted ==> r@ == "deleted"@,
    {
        match self {
            ChangeKind::Modified => "modified",
            ChangeKind::Deleted => "deleted",
        }
    }
}

/// The kind of change a raw event stands for, given whether the file is
/// there now: creations and unclassified events count as modifications,
/// and a modification of a file that is gone as a deletion.
pub open spec fn classified(kind: RawKind, exists: bool) -> Option<ChangeKind> {
    match kind {
        RawKind::Create | RawKind::Modify | RawKind::Any => if exists {
            Some(ChangeKind::Modified)
        } else {
            Some(ChangeKind::Deleted)
        },
        RawKind::Remove => Some(ChangeKind::Deleted),
        RawKind::Other => None,
    }
}

pub fn classify(kind: RawKind, exists: bool) -> (r: Option<ChangeKind>)
    ensures
        r == classified(kind, exists),
{
    match kind {
        RawKind::Create | RawKind::Modify | RawKind::Any => if exists {
            Some(ChangeKind::Modified)
        } else {
            Some(ChangeKind::Deleted)
        },
        RawKind::Remove => Some(ChangeKind::Deleted),
        RawKind::Other => None,
    }
}

/// A reconciled change to one note.
pub struct Change {
    pub kind: ChangeKind,
    /// The file that changed.
    pub path: String,
    /// The note it holds.
    pub id: String,
}

/// Reconciles the watcher's events for the notes under one root.
pub struct Reconciler {
    root: String,
    seen: Debouncer,
}

impl Reconciler {
    pub closed spec fn root(&self) -> Seq<char> {
        self.root@
    }

    pub closed spec fn table(&self) -> Seq<(Seq<char>, u64)> {
        self.seen@
    }

    pub closed spec fn wf(&self) -> bool {
        self.seen.wf()
    }

    pub fn new(root: String) -> (r: Reconciler)
        ensures
            r.wf(),
            r.root() == root@,
            r.table().len() == 0,
    {
        Reconciler { root, seen: Debouncer::new() }
    }

    /// Takes one raw event for `path` at time `now` (milliseconds), with
    /// `exists` telling whether the file is there. Paths that hold no note
    /// are ignored; the rest pass the debounce table, and those let through
    /// are classified. `None` means nothing is to be done.
    pub fn on_event(&mut self, path: &str, kind: RawKind, now: u64, exists: bool) -> (r: Option<
        Change,
    >)
        requires
            old(self).wf(),
        ensures
            final(self).wf(),
            final(self).root() == old(self).root(),
            match encoded(old(self).root(), path@) {
                None => r is None && final(self).table() == old(self).table(),
                Some(id) => {
                    let through = admitted(old(self).table(), path@, now);
                    &&& after_event(old(self).table(), path@, now, through, final(self).table())
                    &&& match r {
                        Some(c) => through && c.id@ == id && c.path@ == path@ && classified(
                            kind,
                            exists,
                        ) == Some(c.kind),
                        None => !through || classified(kind, exists) is None,
                    }
                },
            },
    {
        let id = match id_from_abs_path(self.root.as_str(), path) {
            Some(id) => id,
            None => {
                return None;
            },
        };
        if !self.seen.let_through(path, now) {
            return None;
        }
        match classify(kind, exists) {
            Some(k) => Some(Change { kind: k, path: path.to_string(), id }),
            None => None,
        }
    }
}

/// The index change that reconciles `change`, given what reading the file
/// gave (`None` when the read failed), whether the file is there after
/// it, and its modification time: a modified note is indexed anew from
/// the content read; one whose read failed is removed if its file is gone
/// and left alone otherwise; a deleted note is removed.
pub fn reconcile_op(change: &Change, content: Option<String>, exists: bool, modified: i64) -> (r:
    Option<IndexOp>)
    ensures
        match change.kind {
            ChangeKind::Deleted => r matches Some(IndexOp::Remove { id }) && id@ == change.id@,
            ChangeKind::Modified => match content {
                Some(c) => r matches Some(IndexOp::Upsert { id, title, content: c2, modified: m })
                    && id@ == change.id@ && title@ == title_of(c@) && c2@ == c@ && m == modified,
                None => if exists {
                    r is None
                } else {
                    r matches Some(IndexOp::Remove { id }) && id@ == change.id@
                },
            },
        },
{
    match change.kind {
        ChangeKind::Deleted => Some(IndexOp::Remove { id: change.id.clone() }),
        ChangeKind::Modified => match content {
            Some(c) => {
                let title = extract_title(c.as_str());
                Some(IndexOp::Upsert { id: change.id.clone(), title, content: c, modified })
            },
            None => if exists {
                None
            } else {
                Some(IndexOp::Remove { id: change.id.clone() })
            },
        },
    }
}

} // verus!
