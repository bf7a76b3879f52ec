//! The linear search that answers when the full-text index cannot: a
//! case-insensitive substring match over titles and contents, scored and
//! ranked.
use vstd::prelude::*;
use crate::text::{chars_of, contains, find_from_exec, lemma_find_from, trim, trim_chars, string_of};

verus! {

/// The most results a search returns.
pub const MAX_RESULTS: usize = 20;

/// What `str::to_lowercase` yields for `s`.
pub uninterp spec fn lower_of(s: Seq<char>) -> Seq<char>;

/// Relies on `str::to_lowercase`: the lower-case mapping of each character,
/// which depends on the text alone.
#[verifier::external_body]
fn lowercase(s: &str) -> (r: String)
    ensures
        r@ == lower_of(s@),
{
    s.to_lowercase()
}

/// Whether `q` stands in `t`, by the exec search.
fn contains_exec(t: &Vec<char>, q: &Vec<char>) -> (r: bool)
    ensures
        r == contains(t@, q@),
{
    proof {
        lemma_find_from(t@, q@, 0);
    }
    match find_from_exec(t, q, 0) {
        Some(_) => true,
        None => false,
    }
}

/// The score of a note for a query, all three already lower-cased: 50 for
/// a match in the title; for a match in the content, 10 more without a
/// title match and 5 more with one. `content` is `None` when the file
/// could not be read.
pub open spec fn score_of(q: Seq<char>, title: Seq<char>, content: Option<Seq<char>>) -> nat {
    let t = contains(title, q);
    let c = content matches Some(c) && contains(c, q);
    (if t { 50nat } else { 0nat }) + (if c { if t { 5nat } else { 10nat } } else { 0nat })
}

/// Scores a note whose title and content are already lower-cased; see `score_of`.
pub fn score_folded(q: &str, title: &str, content: Option<&str>) -> (r: u32)
    ensures
        r == score_of(q@, title@, match content {
            Some(c) => Some(c@),
            None => None,
        }),
{
    let qv = chars_of(q);
    let tv = chars_of(title);
    let t = contains_exec(&tv, &qv);
    let mut score: u32 = if t { 50 } else { 0 };
    match content {
        Some(c) => {
            let cv = chars_of(c);
            if contains_exec(&cv, &qv) {
                score = score + if t { 5 } else { 10 };
            }
        },
        None => {},
    }
    score
}

/// Scores a note for a query, ignoring case; see `score_of`.
pub fn fallback_score(query: &str, title: &str, content: Option<&str>) -> (r: u32)
    ensures
        r == score_of(lower_of(query@), lower_of(title@), match content {
            Some(c) => Some(lower_of(c@)),
            None => None,
        }),
{
    let q = lowercase(query);
    let t = lowercase(title);
    match content {
        Some(c) => {
            let cl = lowercase(c);
            score_folded(q.as_str(), t.as_str(), Some(cl.as_str()))
        },
        None => score_folded(q.as_str(), t.as_str(), None),
    }
}

/// A title match always outranks a match in the content alone: the first
/// scores 50 or 55, the second 10.
pub proof fn lemma_title_match_outranks(
    q: Seq<char>,
    t1: Seq<char>,
    c1: Option<Seq<char>>,
    t2: Seq<char>,
    c2: Seq<char>,
)
    requires
        contains(t1, q),
        !contains(t2, q),
        contains(c2, q),
    ensures
        score_of(q, t2, Some(c2)) == 10,
        score_of(q, t1, c1) >= 50,
        score_of(q, t1, c1) > score_of(q, t2, Some(c2)),
{
}

/// One result of a search.
#[derive(Debug)]
pub struct SearchHit {
    pub id: String,
    pub title: String,
    pub preview: String,
    pub modified: i64,
    pub score: u32,
}

/// The scores `hits` hold, in order.
pub open spec fn scores(hits: Seq<SearchHit>) -> Seq<u32> {
    hits.map_values(|h: SearchHit| h.score)
}

/// The hits of `hits` with score `s`, in order.
pub open spec fn with_score(hits: Seq<SearchHit>, s: u32) -> Seq<SearchHit> {
    hits.filter(|h: SearchHit| h.score == s)
}

/// The fallback ranking of scored hits: by score from high to low, hits of
/// equal score in the order given, at most `MAX_RESULTS` of them. Scores
/// are 5, 10, 50 or 55, so the ranking is these four groups in turn.
pub open spec fn ranked(hits: Seq<SearchHit>) -> Seq<SearchHit> {
    let all = with_score(hits, 55) + with_score(hits, 50) + with_score(hits, 10) + with_score(
        hits,
        5,
    );
    if all.len() <= MAX_RESULTS {
        all
    } else {
        all.take(MAX_RESULTS as int)
    }
}

/// A copy of `h`.
pub fn copy_hit(h: &SearchHit) -> (r: SearchHit)
    ensures
        r == *h,
{
    SearchHit {
        id: h.id.clone(),
        title: h.title.clone(),
        preview: h.preview.clone(),
        modified: h.modified,
        score: h.score,
    }
}

fn push_with_score(out: &mut Vec<SearchHit>, hits: &Vec<SearchHit>, s: u32)
    ensures
        final(out)@ == old(out)@ + with_score(hits@, s),
{
    let ghost start = out@;
    let mut i: usize = 0;
    while i < hits.len()
        invariant
            i <= hits.len(),
            out@ == start + with_score(hits@.take(i as int), s),
        decreases hits.len() - i,
    {
        let ghost prev = hits@.take(i as int);
        assert(hits@.take(i + 1) =~= prev.push(hits@[i as int]));
        proof {
            prev.lemma_filter_push(hits@[i as int], |h: SearchHit| h.score == s);
        }
        if hits[i].score == s {
            out.push(copy_hit(&hits[i]));
            assert(out@ =~= start + with_score(hits@.take(i + 1), s));
        } else {
            assert(out@ =~= start + with_score(hits@.take(i + 1), s));
        }
        i = i + 1;
    }
    assert(hits@.take(hits.len() as int) =~= hits@);
}

/// Ranks scored hits; see `ranked`.
pub fn rank_hits(hits: &Vec<SearchHit>) -> (r: Vec<SearchHit>)
    ensures
        r@ == ranked(hits@),
{
    let mut all: Vec<SearchHit> = Vec::new();
    push_with_score(&mut all, hits, 55);
    push_with_score(&mut all, hits, 50);
    push_with_score(&mut all, hits, 10);
    push_with_score(&mut all, hits, 5);
    assert(all@ =~= with_score(hits@, 55) + with_score(hits@, 50) + with_score(hits@, 10)
        + with_score(hits@, 5));
    if all.len() > MAX_RESULTS {
        all.truncate(MAX_RESULTS);
    }
    all
}


/// What the notes list shows of a note, kept in memory for listing and search.
#[derive(Debug)]
pub struct NoteMetadata {
    pub id: String,
    pub title: String,
    pub preview: String,
    pub modified: i64,
}

/// The lower-cased view of an optional content.
pub open spec fn lower_content(c: Option<String>) -> Option<Seq<char>> {
    match c {
        Some(c) => Some(lower_of(c@)),
        None => None,
    }
}

/// The hit that `note` makes for `query`, scored against its `content`.
pub open spec fn hit_for(
    query: Seq<char>,
    note: NoteMetadata,
    content: Option<String>,
) -> SearchHit {
    SearchHit {
        id: note.id,
        title: note.title,
        preview: note.preview,
        modified: note.modified,
        score: score_of(lower_of(query), lower_of(note.title@), lower_content(content)) as u32,
    }
}

/// The hits that score above zero, in the order of `notes`.
pub open spec fn scored_hits(
    query: Seq<char>,
    notes: Seq<NoteMetadata>,
    contents: Seq<Option<String>>,
) -> Seq<SearchHit>
    decreases notes.len(),
{
    if notes.len() == 0 || contents.len() == 0 {
        Seq::empty()
    } else {
        let init = scored_hits(query, notes.drop_last(), contents.drop_last());
        let h = hit_for(query, notes.last(), contents.last());
        if h.score > 0 {
            init.push(h)
        } else {
            init
        }
    }
}

/// The fallback search: each note in `notes`, with `contents` holding what
/// reading its file gave, is scored for `query` ignoring case; those that
/// score are ranked (see `ranked`).
pub fn fallback_search(
    query: &str,
    notes: &Vec<NoteMetadata>,
    contents: &Vec<Option<String>>,
) -> (r: Vec<SearchHit>)
    requires
        notes.len() == contents.len(),
    ensures
        r@ == ranked(scored_hits(query@, notes@, contents@)),
        note_ids_distinct(notes@) ==> hit_ids_distinct(r@),
{
    let mut hits: Vec<SearchHit> = Vec::new();
    let mut i: usize = 0;
    while i < notes.len()
        invariant
            i <= notes.len() == contents.len(),
            hits@ == scored_hits(query@, notes@.take(i as int), contents@.take(i as int)),
        decreases notes.len() - i,
    {
        let n = &notes[i];
        let score = match &contents[i] {
            Some(c) => fallback_score(query, n.title.as_str(), Some(c.as_str())),
            None => fallback_score(query, n.title.as_str(), None),
        };
        assert(notes@.take(i + 1).drop_last() =~= notes@.take(i as int));
        assert(contents@.take(i + 1).drop_last() =~= contents@.take(i as int));
        if score > 0 {
            let h = SearchHit {
                id: n.id.clone(),
                title: n.title.clone(),
                preview: n.preview.clone(),
                modified: n.modified,
                score,
            };
            assert(h == hit_for(query@, notes@[i as int], contents@[i as int]));
            hits.push(h);
        }
        i = i + 1;
    }
    assert(notes@.take(notes.len() as int) =~= notes@);
    assert(contents@.take(contents.len() as int) =~= contents@);
    proof {
        if note_ids_distinct(notes@) {
            lemma_fallback_ids_distinct(query@, notes@, contents@);
        }
    }
    rank_hits(&hits)
}

/// What the full-text index made of a query.
pub enum IndexOutcome {
    /// No index is loaded.
    NotLoaded,
    /// The index failed to answer.
    Failed,
    /// The index answered with this many hits.
    Found(usize),
}

/// Whether a search falls back to the linear search: when no index is
/// loaded, the index failed, or it found nothing.
pub fn fallback_needed(o: &IndexOutcome) -> (r: bool)
    ensures
        r == !(*o matches IndexOutcome::Found(n) && n > 0),
{
    match o {
        IndexOutcome::Found(n) => *n == 0,
        _ => true,
    }
}

/// The query a search runs, trimmed; `None` when nothing is left, in which
/// case the search finds nothing.
pub fn search_query(query: &str) -> (r: Option<String>)
    ensures
        match r {
            Some(q) => q@ == trim(query@) && q@.len() > 0,
            None => trim(query@).len() == 0,
        },
{
    let v = chars_of(query);
    let t = trim_chars(&v);
    if t.len() == 0 {
        None
    } else {
        Some(string_of(&t))
    }
}


/// A note whose read content holds the query, ignoring case, is among the
/// hits, whatever its title.
pub proof fn lemma_content_match_found(
    query: Seq<char>,
    notes: Seq<NoteMetadata>,
    contents: Seq<Option<String>>,
    i: int,
)
    requires
        notes.len() == contents.len(),
        0 <= i < notes.len(),
        contents[i] matches Some(c) && contains(lower_of(c@), lower_of(query)),
    ensures
        scored_hits(query, notes, contents).contains(hit_for(query, notes[i], contents[i])),
{
    lemma_scoring_note_found(query, notes, contents, i);
}


/// No two notes share an id.
pub open spec fn note_ids_distinct(s: Seq<NoteMetadata>) -> bool {
    forall|i: int, j: int| 0 <= i < j < s.len() ==> s[i].id@ != s[j].id@
}

/// No two hits share an id.
pub open spec fn hit_ids_distinct(s: Seq<SearchHit>) -> bool {
    forall|i: int, j: int| 0 <= i < j < s.len() ==> s[i].id@ != s[j].id@
}

proof fn lemma_scored_distinct(
    query: Seq<char>,
    notes: Seq<NoteMetadata>,
    contents: Seq<Option<String>>,
)
    requires
        notes.len() == contents.len(),
        note_ids_distinct(notes),
    ensures
        hit_ids_distinct(scored_hits(query, notes, contents)),
        forall|k: int|
            0 <= k < scored_hits(query, notes, contents).len() ==> exists|m: int|
                0 <= m < notes.len() && #[trigger] scored_hits(query, notes, contents)[k].id@
                    == notes[m].id@,
    decreases notes.len(),
{
    if notes.len() > 0 {
        let ni = notes.drop_last();
        let ci = contents.drop_last();
        lemma_scored_distinct(query, ni, ci);
        let init = scored_hits(query, ni, ci);
        let sh = scored_hits(query, notes, contents);
        let h = hit_for(query, notes.last(), contents.last());
        assert forall|k: int| 0 <= k < init.len() implies #[trigger] init[k].id@ != h.id@ by {
            let m = choose|m: int| 0 <= m < ni.len() && init[k].id@ == ni[m].id@;
            assert(ni[m] == notes[m]);
        }
        assert forall|k: int|
            0 <= k < sh.len() implies exists|m: int|
                0 <= m < notes.len() && #[trigger] sh[k].id@ == notes[m].id@ by {
            if k < init.len() {
                let m = choose|m: int| 0 <= m < ni.len() && init[k].id@ == ni[m].id@;
                assert(ni[m] == notes[m]);
                assert(sh[k] == init[k]);
            } else {
                assert(sh[k] == h);
                assert(notes[notes.len() - 1] == notes.last());
            }
        }
    }
}

proof fn lemma_with_score_distinct(hits: Seq<SearchHit>, s: u32)
    requires
        hit_ids_distinct(hits),
    ensures
        hit_ids_distinct(with_score(hits, s)),
        forall|k: int|
            0 <= k < with_score(hits, s).len() ==> hits.contains(#[trigger] with_score(hits, s)[k])
                && with_score(hits, s)[k].score == s,
    decreases hits.len(),
{
    let pred = |h: SearchHit| h.score == s;
    if hits.len() == 0 {
        hits.lemma_filter_len(pred);
    } else {
        let init = hits.drop_last();
        let x = hits.last();
        assert(init.push(x) =~= hits);
        lemma_with_score_distinct(init, s);
        init.lemma_filter_push(x, pred);
        let w0 = with_score(init, s);
        let w = with_score(hits, s);
        assert forall|k: int| 0 <= k < w0.len() implies exists|m: int|
            0 <= m < hits.len() - 1 && hits[m] == #[trigger] w0[k] by {
            let m = choose|m: int| 0 <= m < init.len() && init[m] == w0[k];
            assert(hits[m] == init[m]);
        }
        assert forall|k: int| 0 <= k < w.len() implies hits.contains(#[trigger] w[k]) && w[k].score
            == s by {
            if k < w0.len() {
                let m = choose|m: int| 0 <= m < hits.len() - 1 && hits[m] == w0[k];
                assert(w[k] == w0[k]);
            } else {
                assert(w[k] == x);
                assert(hits[hits.len() - 1] == x);
            }
        }
        assert forall|i: int, j: int| 0 <= i < j < w.len() implies w[i].id@ != w[j].id@ by {
            if j >= w0.len() {
                let m = choose|m: int| 0 <= m < hits.len() - 1 && hits[m] == w0[i];
                assert(w[i] == w0[i]);
                assert(w[j] == x);
                assert(hits[hits.len() - 1] == x);
            } else {
                assert(w[i] == w0[i] && w[j] == w0[j]);
            }
        }
    }
}

proof fn lemma_concat_distinct(a: Seq<SearchHit>, b: Seq<SearchHit>, hits: Seq<SearchHit>)
    requires
        hit_ids_distinct(hits),
        hit_ids_distinct(a),
        hit_ids_distinct(b),
        forall|k: int| 0 <= k < a.len() ==> hits.contains(#[trigger] a[k]),
        forall|k: int| 0 <= k < b.len() ==> hits.contains(#[trigger] b[k]),
        forall|k: int, l: int|
            0 <= k < a.len() && 0 <= l < b.len() ==> #[trigger] a[k].score != #[trigger] b[l].score,
    ensures
        hit_ids_distinct(a + b),
        forall|k: int| 0 <= k < (a + b).len() ==> hits.contains(#[trigger] (a + b)[k]),
{
    let c = a + b;
    assert forall|k: int| 0 <= k < c.len() implies hits.contains(#[trigger] c[k]) by {
        if k < a.len() {
            assert(c[k] == a[k]);
        } else {
            assert(c[k] == b[k - a.len()]);
        }
    }
    assert forall|i: int, j: int| 0 <= i < j < c.len() implies c[i].id@ != c[j].id@ by {
        if j < a.len() {
            assert(c[i] == a[i] && c[j] == a[j]);
        } else if i >= a.len() {
            assert(c[i] == b[i - a.len()] && c[j] == b[j - a.len()]);
        } else {
            let x = a[i];
            let y = b[j - a.len()];
            assert(c[i] == x && c[j] == y);
            assert(hits.contains(x));
            assert(hits.contains(y));
            let m = choose|m: int| 0 <= m < hits.len() && hits[m] == x;
            let n = choose|n: int| 0 <= n < hits.len() && hits[n] == y;
            assert(x.score != y.score);
            if m < n {
            } else if n < m {
            }
        }
    }
}

/// Ranking keeps ids distinct: a search over notes with distinct ids
/// returns each note at most once.
pub proof fn lemma_fallback_ids_distinct(
    query: Seq<char>,
    notes: Seq<NoteMetadata>,
    contents: Seq<Option<String>>,
)
    requires
        notes.len() == contents.len(),
        note_ids_distinct(notes),
    ensures
        hit_ids_distinct(ranked(scored_hits(query, notes, contents))),
{
    let hits = scored_hits(query, notes, contents);
    lemma_scored_distinct(query, notes, contents);
    lemma_with_score_distinct(hits, 55);
    lemma_with_score_distinct(hits, 50);
    lemma_with_score_distinct(hits, 10);
    lemma_with_score_distinct(hits, 5);
    let g1 = with_score(hits, 55);
    let g2 = with_score(hits, 50);
    let g3 = with_score(hits, 10);
    let g4 = with_score(hits, 5);
    lemma_concat_distinct(g1, g2, hits);
    let a = g1 + g2;
    assert forall|k: int| 0 <= k < a.len() implies #[trigger] a[k].score == 55 || a[k].score
        == 50 by {
        if k < g1.len() {
            assert(a[k] == g1[k]);
        } else {
            assert(a[k] == g2[k - g1.len()]);
        }
    }
    lemma_concat_distinct(a, g3, hits);
    let b = a + g3;
    assert forall|k: int| 0 <= k < b.len() implies #[trigger] b[k].score != 5 by {
        if k < a.len() {
            assert(b[k] == a[k]);
        } else {
            assert(b[k] == g3[k - a.len()]);
        }
    }
    lemma_concat_distinct(b, g4, hits);
    let all = b + g4;
    assert(all == g1 + g2 + g3 + g4);
    if all.len() > MAX_RESULTS {
        let t = all.take(MAX_RESULTS as int);
        assert forall|i: int, j: int| 0 <= i < j < t.len() implies t[i].id@ != t[j].id@ by {
            assert(t[i] == all[i] && t[j] == all[j]);
        }
    }
}


proof fn lemma_in_group(hits: Seq<SearchHit>, x: SearchHit)
    requires
        hits.contains(x),
    ensures
        with_score(hits, x.score).contains(x),
    decreases hits.len(),
{
    let init = hits.drop_last();
    let l = hits.last();
    assert(init.push(l) =~= hits);
    init.lemma_filter_push(l, |h: SearchHit| h.score == x.score);
    let w0 = with_score(init, x.score);
    let w = with_score(hits, x.score);
    if l == x {
        assert(w == w0.push(x));
        assert(w[w.len() - 1] == x);
    } else {
        let m = choose|m: int| 0 <= m < hits.len() && hits[m] == x;
        assert(m < hits.len() - 1);
        assert(init[m] == x);
        lemma_in_group(init, x);
        let k = choose|k: int| 0 <= k < w0.len() && w0[k] == x;
        assert(w[k] == x);
    }
}

proof fn lemma_group_lens(hits: Seq<SearchHit>)
    ensures
        with_score(hits, 55).len() + with_score(hits, 50).len() + with_score(hits, 10).len()
            + with_score(hits, 5).len() <= hits.len(),
    decreases hits.len(),
{
    if hits.len() == 0 {
        hits.lemma_filter_len(|h: SearchHit| h.score == 55);
        hits.lemma_filter_len(|h: SearchHit| h.score == 50);
        hits.lemma_filter_len(|h: SearchHit| h.score == 10);
        hits.lemma_filter_len(|h: SearchHit| h.score == 5);
    } else {
        let init = hits.drop_last();
        let l = hits.last();
        assert(init.push(l) =~= hits);
        lemma_group_lens(init);
        init.lemma_filter_push(l, |h: SearchHit| h.score == 55);
        init.lemma_filter_push(l, |h: SearchHit| h.score == 50);
        init.lemma_filter_push(l, |h: SearchHit| h.score == 10);
        init.lemma_filter_push(l, |h: SearchHit| h.score == 5);
    }
}

/// With at most `MAX_RESULTS` hits, none is cut: the ranking is the four
/// score groups in turn, whole.
proof fn lemma_ranked_whole(hits: Seq<SearchHit>)
    requires
        hits.len() <= MAX_RESULTS,
    ensures
        ranked(hits) == with_score(hits, 55) + with_score(hits, 50) + with_score(hits, 10)
            + with_score(hits, 5),
{
    lemma_group_lens(hits);
}

/// Among at most `MAX_RESULTS` hits, a hit scoring 10 is ranked, and after
/// every hit scoring 50 or 55.
pub proof fn lemma_ranked_order(hits: Seq<SearchHit>, x: SearchHit, y: SearchHit)
    requires
        hits.len() <= MAX_RESULTS,
        hits.contains(y),
        y.score == 10,
        hits.contains(x) ==> x.score == 55 || x.score == 50,
    ensures
        ranked(hits).contains(y),
        hits.contains(x) ==> exists|i: int, j: int|
            0 <= i < j < ranked(hits).len() && ranked(hits)[i] == x && ranked(hits)[j] == y,
{
    lemma_ranked_whole(hits);
    let g1 = with_score(hits, 55);
    let g2 = with_score(hits, 50);
    let g3 = with_score(hits, 10);
    let g4 = with_score(hits, 5);
    let r = ranked(hits);
    lemma_in_group(hits, y);
    let l = choose|l: int| 0 <= l < g3.len() && g3[l] == y;
    let jy = g1.len() + g2.len() + l;
    assert(r[jy] == y);
    if hits.contains(x) {
        lemma_in_group(hits, x);
        if x.score == 55 {
            let k = choose|k: int| 0 <= k < g1.len() && g1[k] == x;
            assert(r[k] == x);
        } else {
            let k = choose|k: int| 0 <= k < g2.len() && g2[k] == x;
            assert(r[g1.len() + k] == x);
        }
    }
}

/// A note that scores is among the scored hits.
pub proof fn lemma_scoring_note_found(
    query: Seq<char>,
    notes: Seq<NoteMetadata>,
    contents: Seq<Option<String>>,
    i: int,
)
    requires
        notes.len() == contents.len(),
        0 <= i < notes.len(),
        hit_for(query, notes[i], contents[i]).score > 0,
    ensures
        scored_hits(query, notes, contents).contains(hit_for(query, notes[i], contents[i])),
    decreases notes.len(),
{
    let h = hit_for(query, notes[i], contents[i]);
    let init = scored_hits(query, notes.drop_last(), contents.drop_last());
    if i == notes.len() - 1 {
        assert(scored_hits(query, notes, contents) == init.push(h));
        assert(init.push(h)[init.len() as int] == h);
    } else {
        lemma_scoring_note_found(query, notes.drop_last(), contents.drop_last(), i);
        let k = choose|k: int| 0 <= k < init.len() && init[k] == h;
        let all = scored_hits(query, notes, contents);
        assert(all[k] == h);
    }
}

/// With no index, a search finds a note that holds the query only in its
/// content, scored 10, and ranks every note whose title holds the query
/// before it, scored 50 or 55; so long as at most `MAX_RESULTS` notes match.
pub proof fn lemma_fallback_finds_and_orders(
    query: Seq<char>,
    notes: Seq<NoteMetadata>,
    contents: Seq<Option<String>>,
    a: int,
    b: int,
)
    requires
        notes.len() == contents.len(),
        0 <= a < notes.len(),
        0 <= b < notes.len(),
        contents[a] matches Some(c) && contains(lower_of(c@), lower_of(query)),
        !contains(lower_of(notes[a].title@), lower_of(query)),
        contains(lower_of(notes[b].title@), lower_of(query)),
        scored_hits(query, notes, contents).len() <= MAX_RESULTS,
    ensures
        hit_for(query, notes[a], contents[a]).score == 10,
        hit_for(query, notes[b], contents[b]).score >= 50,
        exists|i: int, j: int|
            0 <= i < j < ranked(scored_hits(query, notes, contents)).len() && ranked(
                scored_hits(query, notes, contents),
            )[i] == hit_for(query, notes[b], contents[b]) && ranked(
                scored_hits(query, notes, contents),
            )[j] == hit_for(query, notes[a], contents[a]),
{
    let ha = hit_for(query, notes[a], contents[a]);
    let hb = hit_for(query, notes[b], contents[b]);
    lemma_scoring_note_found(query, notes, contents, a);
    lemma_scoring_note_found(query, notes, contents, b);
    lemma_ranked_order(scored_hits(query, notes, contents), hb, ha);
}

} // verus!
