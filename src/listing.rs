//! The notes list: its order, and the in-memory cache it refreshes.
use vstd::prelude::*;
use crate::naming::views;
use crate::search::{note_ids_distinct, NoteMetadata};

verus! {

/// Whether `n` is pinned.
pub open spec fn is_pinned(n: NoteMetadata, pinned: Seq<Seq<char>>) -> bool {
    pinned.contains(n.id@)
}

/// Whether `a` comes strictly before `b` in the list: pinned notes first,
/// then the most recently modified.
pub open spec fn listed_before(a: NoteMetadata, b: NoteMetadata, pinned: Seq<Seq<char>>) -> bool {
    (is_pinned(a, pinned) && !is_pinned(b, pinned)) || (is_pinned(a, pinned) == is_pinned(
        b,
        pinned,
    ) && a.modified > b.modified)
}

/// Whether `r` lists the notes `notes` in order: `r[k]` is `notes[p[k]]`
/// for a permutation `p`, every note comes before the ones it is listed
/// before, and notes the order does not tell apart keep their order.
pub open spec fn ordered_as(
    r: Seq<NoteMetadata>,
    notes: Seq<NoteMetadata>,
    p: Seq<int>,
    pinned: Seq<Seq<char>>,
) -> bool {
    &&& r.len() == notes.len() == p.len()
    &&& forall|k: int| 0 <= k < p.len() ==> 0 <= #[trigger] p[k] < notes.len()
    &&& forall|k: int, l: int| 0 <= k < l < p.len() ==> p[k] != p[l]
    &&& forall|k: int| 0 <= k < r.len() ==> #[trigger] r[k] == notes[p[k]]
    &&& forall|k: int, l: int|
        0 <= k < l < r.len() ==> listed_before(#[trigger] r[k], #[trigger] r[l], pinned) || (
        !listed_before(r[l], r[k], pinned) && p[k] < p[l])
}

/// A copy of `n`.
pub fn copy_meta(n: &NoteMetadata) -> (r: NoteMetadata)
    ensures
        r == *n,
{
    NoteMetadata {
        id: n.id.clone(),
        title: n.title.clone(),
        preview: n.preview.clone(),
        modified: n.modified,
    }
}

fn pinned_exec(n: &NoteMetadata, pinned: &Vec<String>) -> (r: bool)
    ensures
        r == is_pinned(*n, views(pinned@)),
{
    let mut i: usize = 0;
    while i < pinned.len()
        invariant
            i <= pinned.len(),
            forall|j: int| 0 <= j < i ==> pinned@[j]@ != n.id@,
        decreases pinned.len() - i,
    {
        if pinned[i] == n.id {
            assert(views(pinned@)[i as int] == n.id@);
            return true;
        }
        i = i + 1;
    }
    assert(!views(pinned@).contains(n.id@)) by {
        if views(pinned@).contains(n.id@) {
            let j = choose|j: int| 0 <= j < views(pinned@).len() && views(pinned@)[j] == n.id@;
            assert(pinned@[j]@ == n.id@);
        }
    }
    false
}

/// Orders the notes for the list: pinned ones first, each group from the
/// most recently modified on, notes with equal keys in their given order.
pub fn order_notes(notes: &Vec<NoteMetadata>, pinned: &Vec<String>) -> (r: Vec<NoteMetadata>)
    ensures
        exists|p: Seq<int>| ordered_as(r@, notes@, p, views(pinned@)),
{
    let ghost pv = views(pinned@);
    let mut out: Vec<NoteMetadata> = Vec::new();
    let mut flags: Vec<bool> = Vec::new();
    let ghost mut p: Seq<int> = Seq::empty();
    let mut i: usize = 0;
    while i < notes.len()
        invariant
            i <= notes.len(),
            pv == views(pinned@),
            out.len() == i == p.len() == flags.len(),
            forall|k: int| 0 <= k < p.len() ==> 0 <= #[trigger] p[k] < i,
            forall|k: int, l: int| 0 <= k < l < p.len() ==> p[k] != p[l],
            forall|k: int| 0 <= k < out.len() ==> #[trigger] out@[k] == notes@[p[k]],
            forall|k: int| 0 <= k < out.len() ==> #[trigger] flags@[k] == is_pinned(out@[k], pv),
            forall|k: int, l: int|
                0 <= k < l < out.len() ==> listed_before(#[trigger] out@[k], #[trigger] out@[l], pv)
                    || (!listed_before(out@[l], out@[k], pv) && p[k] < p[l]),
        decreases notes.len() - i,
    {
        let n = copy_meta(&notes[i]);
        let np = pinned_exec(&n, pinned);
        let mut j: usize = 0;
        while j < out.len() && !((np && !flags[j]) || (np == flags[j] && n.modified
            > out[j].modified))
            invariant
                j <= out.len(),
                out.len() == flags.len(),
                np == is_pinned(n, pv),
                forall|k: int| 0 <= k < out.len() ==> #[trigger] flags@[k] == is_pinned(out@[k], pv),
                forall|k: int| 0 <= k < j ==> !listed_before(n, #[trigger] out@[k], pv),
            decreases out.len() - j,
        {
            j = j + 1;
        }
        let ghost old_out = out@;
        let ghost old_p = p;
        proof {
            assert forall|k: int| j <= k < old_out.len() implies listed_before(
                n,
                #[trigger] old_out[k],
                pv,
            ) by {
                if k > j {
                    assert(listed_before(old_out[j as int], old_out[k], pv) || !listed_before(
                        old_out[k],
                        old_out[j as int],
                        pv,
                    ));
                }
            }
        }
        out.insert(j, n);
        flags.insert(j, np);
        proof {
            p = p.insert(j as int, i as int);
            assert forall|k: int, l: int|
                0 <= k < l < out.len() implies listed_before(#[trigger] out@[k], #[trigger] out@[l], pv)
                || (!listed_before(out@[l], out@[k], pv) && p[k] < p[l]) by {
                if k < j && l > j {
                    assert(out@[k] == old_out[k]);
                    assert(out@[l] == old_out[l - 1]);
                    assert(p[k] == old_p[k]);
                    assert(p[l] == old_p[l - 1]);
                } else if k > j {
                    assert(out@[k] == old_out[k - 1]);
                    assert(out@[l] == old_out[l - 1]);
                    assert(p[k] == old_p[k - 1]);
                    assert(p[l] == old_p[l - 1]);
                } else if l < j {
                    assert(out@[k] == old_out[k]);
                    assert(out@[l] == old_out[l]);
                } else if k == j {
                    assert(out@[l] == old_out[l - 1]);
                } else {
                    assert(out@[k] == old_out[k]);
                    assert(p[k] == old_p[k]);
                }
            }
            assert forall|k: int| 0 <= k < out.len() implies #[trigger] out@[k] == notes@[p[k]] by {
                if k < j {
                    assert(out@[k] == old_out[k]);
                } else if k > j {
                    assert(out@[k] == old_out[k - 1]);
                }
            }
            assert forall|k: int, l: int| 0 <= k < l < p.len() implies p[k] != p[l] by {
                if k < j && l > j {
                    assert(p[l] == old_p[l - 1]);
                } else if k > j {
                    assert(p[k] == old_p[k - 1]);
                    assert(p[l] == old_p[l - 1]);
                } else if l == j {
                    assert(p[k] == old_p[k]);
                } else if k == j {
                    assert(p[l] == old_p[l - 1]);
                }
            }
        }
        i = i + 1;
    }
    assert(ordered_as(out@, notes@, p, pv));
    out
}

/// Whether some note in `s` has id `id`.
pub open spec fn has_id(s: Seq<NoteMetadata>, id: Seq<char>) -> bool {
    exists|k: int| 0 <= k < s.len() && s[k].id@ == id
}

/// `s` with one entry per id, the last one given for it, in order.
pub open spec fn latest_per_id(s: Seq<NoteMetadata>) -> Seq<NoteMetadata>
    decreases s.len(),
{
    if s.len() == 0 {
        s
    } else {
        let rest = latest_per_id(s.drop_first());
        if has_id(s.drop_first(), s[0].id@) {
            rest
        } else {
            seq![s[0]] + rest
        }
    }
}

/// Keeping the last entry of each id leaves distinct ids, each one given.
pub proof fn lemma_latest_per_id(s: Seq<NoteMetadata>)
    ensures
        note_ids_distinct(latest_per_id(s)),
        forall|k: int|
            0 <= k < latest_per_id(s).len() ==> has_id(s, #[trigger] latest_per_id(s)[k].id@),
        note_ids_distinct(s) ==> latest_per_id(s) == s,
    decreases s.len(),
{
    if s.len() > 0 {
        let t = s.drop_first();
        lemma_latest_per_id(t);
        let rest = latest_per_id(t);
        let l = latest_per_id(s);
        assert forall|k: int| 0 <= k < l.len() implies has_id(s, #[trigger] l[k].id@) by {
            if has_id(t, s[0].id@) {
                assert(l[k] == rest[k]);
                let m = choose|m: int| 0 <= m < t.len() && t[m].id@ == rest[k].id@;
                assert(s[m + 1] == t[m]);
            } else if k == 0 {
                assert(l[0] == s[0]);
            } else {
                assert(l[k] == rest[k - 1]);
                let m = choose|m: int| 0 <= m < t.len() && t[m].id@ == rest[k - 1].id@;
                assert(s[m + 1] == t[m]);
            }
        }
        if !has_id(t, s[0].id@) {
            assert forall|i: int, j: int| 0 <= i < j < l.len() implies l[i].id@ != l[j].id@ by {
                assert(l[j] == rest[j - 1]);
                if i == 0 {
                    assert(l[0] == s[0]);
                    assert(has_id(t, rest[j - 1].id@));
                } else {
                    assert(l[i] == rest[i - 1]);
                }
            }
        }
        if note_ids_distinct(s) {
            assert(note_ids_distinct(t));
            assert(!has_id(t, s[0].id@)) by {
                if has_id(t, s[0].id@) {
                    let m = choose|m: int| 0 <= m < t.len() && t[m].id@ == s[0].id@;
                    assert(s[m + 1] == t[m]);
                }
            }
            assert(seq![s[0]] + t =~= s);
        }
    }
}

/// `s` without the entries of id `id`.
pub open spec fn without_id(s: Seq<NoteMetadata>, id: Seq<char>) -> Seq<NoteMetadata>
    decreases s.len(),
{
    if s.len() == 0 {
        s
    } else {
        let w = without_id(s.drop_last(), id);
        if s.last().id@ != id {
            w.push(s.last())
        } else {
            w
        }
    }
}

proof fn lemma_without_id_distinct(s: Seq<NoteMetadata>, id: Seq<char>)
    requires
        note_ids_distinct(s),
    ensures
        note_ids_distinct(without_id(s, id)),
        forall|k: int|
            0 <= k < without_id(s, id).len() ==> s.contains(#[trigger] without_id(s, id)[k]),
    decreases s.len(),
{
    if s.len() > 0 {
        let init = s.drop_last();
        let x = s.last();
        assert(init.push(x) =~= s);
        lemma_without_id_distinct(init, id);
        let w0 = without_id(init, id);
        let w = without_id(s, id);
        assert forall|k: int| 0 <= k < w0.len() implies exists|m: int|
            0 <= m < s.len() - 1 && s[m] == #[trigger] w0[k] by {
            let m = choose|m: int| 0 <= m < init.len() && init[m] == w0[k];
            assert(s[m] == init[m]);
        }
        assert forall|k: int| 0 <= k < w.len() implies s.contains(#[trigger] w[k]) by {
            if k < w0.len() {
                let m = choose|m: int| 0 <= m < s.len() - 1 && s[m] == w0[k];
                assert(w[k] == w0[k]);
            } else {
                assert(w[k] == x);
                assert(s[s.len() - 1] == x);
            }
        }
        assert forall|i: int, j: int| 0 <= i < j < w.len() implies w[i].id@ != w[j].id@ by {
            if j >= w0.len() {
                let m = choose|m: int| 0 <= m < s.len() - 1 && s[m] == w0[i];
                assert(w[i] == w0[i]);
                assert(w[j] == x);
                assert(s[s.len() - 1] == x);
            } else {
                assert(w[i] == w0[i] && w[j] == w0[j]);
            }
        }
    }
}

fn has_id_exec(notes: &Vec<NoteMetadata>, lo: usize, hi: usize, id: &String) -> (r: bool)
    requires
        lo <= hi <= notes.len(),
    ensures
        r == has_id(notes@.subrange(lo as int, hi as int), id@),
{
    let mut k = lo;
    while k < hi
        invariant
            lo <= k <= hi <= notes.len(),
            forall|m: int| lo <= m < k ==> notes@[m].id@ != id@,
        decreases hi - k,
    {
        if notes[k].id == *id {
            assert(notes@.subrange(lo as int, hi as int)[k - lo] == notes@[k as int]);
            return true;
        }
        k = k + 1;
    }
    assert(!has_id(notes@.subrange(lo as int, hi as int), id@)) by {
        if has_id(notes@.subrange(lo as int, hi as int), id@) {
            let m = choose|m: int|
                0 <= m < hi - lo && notes@.subrange(lo as int, hi as int)[m].id@ == id@;
            assert(notes@.subrange(lo as int, hi as int)[m] == notes@[lo + m]);
        }
    }
    false
}

/// The in-memory copy of the notes list that search falls back on: one
/// entry per note id.
pub struct NotesCache {
    notes: Vec<NoteMetadata>,
}

impl NotesCache {
    pub closed spec fn view(&self) -> Seq<NoteMetadata> {
        self.notes@
    }

    /// No two entries share an id.
    pub open spec fn wf(&self) -> bool {
        note_ids_distinct(self@)
    }

    pub fn new() -> (r: NotesCache)
        ensures
            r.wf(),
            r@.len() == 0,
    {
        NotesCache { notes: Vec::new() }
    }

    /// Replaces the whole cache with a fresh listing; of entries that share
    /// an id, the last one given stays.
    pub fn replace_all(&mut self, notes: &Vec<NoteMetadata>)
        ensures
            final(self).wf(),
            final(self)@ == latest_per_id(notes@),
            note_ids_distinct(notes@) ==> final(self)@ == notes@,
    {
        let n = notes.len();
        let mut v: Vec<NoteMetadata> = Vec::new();
        let mut i: usize = n;
        assert(notes@.subrange(n as int, n as int) =~= Seq::<NoteMetadata>::empty());
        while i > 0
            invariant
                i <= n == notes.len(),
                v@ == latest_per_id(notes@.subrange(i as int, n as int)),
            decreases i,
        {
            let k = i - 1;
            assert(notes@.subrange(k as int, n as int).drop_first() =~= notes@.subrange(
                i as int,
                n as int,
            ));
            assert(notes@.subrange(k as int, n as int)[0] == notes@[k as int]);
            if !has_id_exec(notes, i, n, &notes[k].id) {
                v.insert(0, copy_meta(&notes[k]));
                assert(v@ =~= seq![notes@[k as int]] + latest_per_id(
                    notes@.subrange(i as int, n as int),
                ));
            }
            i = k;
        }
        assert(notes@.subrange(0, n as int) =~= notes@);
        proof {
            lemma_latest_per_id(notes@);
        }
        self.notes = v;
    }

    /// Drops the entry of note `id`.
    pub fn remove(&mut self, id: &str)
        requires
            old(self).wf(),
        ensures
            final(self).wf(),
            final(self)@ == without_id(old(self)@, id@),
    {
        let key = id.to_string();
        let mut v: Vec<NoteMetadata> = Vec::new();
        let mut i: usize = 0;
        while i < self.notes.len()
            invariant
                i <= self.notes.len(),
                key@ == id@,
                v@ == without_id(self.notes@.take(i as int), id@),
            decreases self.notes.len() - i,
        {
            assert(self.notes@.take(i + 1).drop_last() =~= self.notes@.take(i as int));
            if !(self.notes[i].id == key) {
                v.push(copy_meta(&self.notes[i]));
            }
            i = i + 1;
        }
        assert(self.notes@.take(self.notes.len() as int) =~= self.notes@);
        proof {
            lemma_without_id_distinct(self.notes@, id@);
        }
        self.notes = v;
    }

    /// A copy of the cached entries, in order.
    pub fn snapshot(&self) -> (r: Vec<NoteMetadata>)
        requires
            self.wf(),
        ensures
            r@ == self@,
            note_ids_distinct(r@),
    {
        let mut v: Vec<NoteMetadata> = Vec::new();
        let mut i: usize = 0;
        while i < self.notes.len()
            invariant
                i <= self.notes.len(),
                v@ == self.notes@.take(i as int),
            decreases self.notes.len() - i,
        {
            v.push(copy_meta(&self.notes[i]));
            i = i + 1;
            assert(v@ =~= self.notes@.take(i as int));
        }
        assert(self.notes@.take(self.notes.len() as int) =~= self.notes@);
        v
    }
}

} // verus!
