//! How a note's text yields its title, its preview line and a file name.
use vstd::prelude::*;
use crate::text::{
    append_chars, chars_of, find_from, find_from_exec, is_white_space, lemma_find_from, occurs_at,
    occurs_at_exec, slice, starts_with, string_of, trim, trim_bounds, trim_start, trim_start_chars,
    white_space, find, trim_chars, skip_white_space,
};

verus! {

/// The title given to a note whose text has none.
pub open spec fn untitled() -> Seq<char> {
    seq!['U', 'n', 't', 'i', 't', 'l', 'e', 'd']
}

fn untitled_chars() -> (r: Vec<char>)
    ensures
        r@ == untitled(),
{
    let r = vec!['U', 'n', 't', 'i', 't', 'l', 'e', 'd'];
    assert(r@ =~= untitled());
    r
}

/// Characters that count as blank besides white space: the zero-width
/// no-break space (a byte-order mark) and the no-break space.
pub open spec fn is_blank_char(c: char) -> bool {
    is_white_space(c) || c == '\u{a0}' || c == '\u{feff}'
}

/// Whether `s` holds nothing but blank characters.
pub open spec fn effectively_empty(s: Seq<char>) -> bool {
    forall|i: int| 0 <= i < s.len() ==> is_blank_char(#[trigger] s[i])
}

fn blank_range(v: &Vec<char>, lo: usize, hi: usize) -> (r: bool)
    requires
        lo <= hi <= v.len(),
    ensures
        r == effectively_empty(v@.subrange(lo as int, hi as int)),
{
    let mut i = lo;
    while i < hi
        invariant
            lo <= i <= hi <= v.len(),
            forall|k: int| lo <= k < i ==> is_blank_char(#[trigger] v@[k]),
        decreases hi - i,
    {
        let c = v[i];
        if !(white_space(c) || c == '\u{a0}' || c == '\u{feff}') {
            assert(v@.subrange(lo as int, hi as int)[i - lo] == c);
            return false;
        }
        i = i + 1;
    }
    assert forall|k: int| 0 <= k < hi - lo implies is_blank_char(
        #[trigger] v@.subrange(lo as int, hi as int)[k],
    ) by {
        assert(v@.subrange(lo as int, hi as int)[k] == v@[lo + k]);
    }
    true
}

/// Whether `s` holds nothing but white space, no-break spaces and
/// byte-order marks.
pub fn is_effectively_empty(s: &str) -> (r: bool)
    ensures
        r == effectively_empty(s@),
{
    let v = chars_of(s);
    assert(v@.subrange(0, v.len() as int) =~= v@);
    blank_range(&v, 0, v.len())
}

/// The text after a leading frontmatter block: when `s`, past its leading
/// white space, opens with `---`, everything up to the next line that opens
/// with `---` is dropped, along with that marker and one line ending after
/// it. Text without such a closed block is returned whole.
pub open spec fn frontmatter_stripped(s: Seq<char>) -> Seq<char> {
    let t = trim_start(s);
    if starts_with(t, seq!['-', '-', '-']) {
        let rest = t.subrange(3, t.len() as int);
        match find(rest, seq!['\n', '-', '-', '-']) {
            Some(end) => {
                let after = rest.subrange(end + 4, rest.len() as int);
                if starts_with(after, seq!['\r', '\n']) {
                    after.subrange(2, after.len() as int)
                } else if starts_with(after, seq!['\n']) {
                    after.subrange(1, after.len() as int)
                } else {
                    after
                }
            },
            None => s,
        }
    } else {
        s
    }
}

fn frontmatter_stripped_chars(v: &Vec<char>) -> (r: Vec<char>)
    ensures
        r@ == frontmatter_stripped(v@),
{
    let t = trim_start_chars(v);
    let dashes = vec!['-', '-', '-'];
    assert(dashes@ =~= seq!['-', '-', '-']);
    if !occurs_at_exec(&t, &dashes, 0) {
        return slice(v, 0, v.len());
    }
    let rest = slice(&t, 3, t.len());
    let close = vec!['\n', '-', '-', '-'];
    assert(close@ =~= seq!['\n', '-', '-', '-']);
    match find_from_exec(&rest, &close, 0) {
        None => {
            assert(v@.subrange(0, v.len() as int) =~= v@);
            slice(v, 0, v.len())
        },
        Some(end) => {
            proof {
                lemma_find_from(rest@, close@, 0);
            }
            let after = slice(&rest, end + 4, rest.len());
            let crlf = vec!['\r', '\n'];
            assert(crlf@ =~= seq!['\r', '\n']);
            let lf = vec!['\n'];
            assert(lf@ =~= seq!['\n']);
            if occurs_at_exec(&after, &crlf, 0) {
                slice(&after, 2, after.len())
            } else if occurs_at_exec(&after, &lf, 0) {
                slice(&after, 1, after.len())
            } else {
                after
            }
        },
    }
}

/// Strips a leading YAML frontmatter block; see `frontmatter_stripped`.
pub fn strip_frontmatter(content: &str) -> (r: String)
    ensures
        r@ == frontmatter_stripped(content@),
{
    let v = chars_of(content);
    string_of(&frontmatter_stripped_chars(&v))
}

/// Where the line that starts at `i` ends: the next line feed, or the end.
pub open spec fn line_end_from(s: Seq<char>, i: int) -> int {
    match find_from(s, seq!['\n'], i) {
        Some(k) => k,
        None => s.len() as int,
    }
}

pub proof fn lemma_line_end(s: Seq<char>, i: int)
    requires
        0 <= i <= s.len(),
    ensures
        i <= line_end_from(s, i) <= s.len(),
{
    lemma_find_from(s, seq!['\n'], i);
}

fn line_end_exec(v: &Vec<char>, i: usize) -> (r: usize)
    requires
        i <= v.len(),
    ensures
        r == line_end_from(v@, i as int),
        i <= r <= v.len(),
{
    proof {
        lemma_line_end(v@, i as int);
    }
    let nl = vec!['\n'];
    assert(nl@ =~= seq!['\n']);
    match find_from_exec(v, &nl, i) {
        Some(k) => k,
        None => v.len(),
    }
}

/// At most the first `n` characters of `s`.
pub open spec fn prefix_upto(s: Seq<char>, n: nat) -> Seq<char> {
    if s.len() <= n {
        s
    } else {
        s.take(n as int)
    }
}

/// The text of a heading line: a trimmed line that opens with `# ` and
/// has text after it that is not blank.
pub open spec fn line_heading(t: Seq<char>) -> Option<Seq<char>> {
    let heading = trim(t.subrange(2, t.len() as int));
    if starts_with(t, seq!['#', ' ']) && !effectively_empty(heading) {
        Some(heading)
    } else {
        None
    }
}

/// What one trimmed line offers as a title: with `heading`, its heading
/// text; otherwise the line itself when it is not blank.
pub open spec fn line_pick(t: Seq<char>, heading: bool) -> Option<Seq<char>> {
    if heading {
        line_heading(t)
    } else if !effectively_empty(t) {
        Some(t)
    } else {
        None
    }
}

/// What the first line of `body`, from the one that starts at `i` on,
/// that offers anything offers; see `line_pick`.
pub open spec fn first_pick_from(body: Seq<char>, i: int, heading: bool) -> Option<Seq<char>>
    decreases body.len() + 1 - i,
    via first_pick_decreases
{
    if i < 0 || i >= body.len() {
        None
    } else {
        match line_pick(trim(body.subrange(i, line_end_from(body, i))), heading) {
            Some(t) => Some(t),
            None => first_pick_from(body, line_end_from(body, i) + 1, heading),
        }
    }
}

#[via_fn]
proof fn first_pick_decreases(body: Seq<char>, i: int, heading: bool) {
    if 0 <= i < body.len() {
        lemma_line_end(body, i);
    }
}

/// A note's title, once the frontmatter is stripped: the text of its first
/// `# ` heading wherever it stands; without one, the first fifty characters
/// of its first line that is not blank; without that, `Untitled`.
pub open spec fn title_of(content: Seq<char>) -> Seq<char> {
    let body = frontmatter_stripped(content);
    match first_pick_from(body, 0, true) {
        Some(h) => h,
        None => match first_pick_from(body, 0, false) {
            Some(t) => prefix_upto(t, 50),
            None => untitled(),
        },
    }
}

fn line_pick_exec(t: &Vec<char>, heading: bool) -> (r: Option<Vec<char>>)
    ensures
        match r {
            Some(x) => line_pick(t@, heading) == Some(x@),
            None => line_pick(t@, heading) is None,
        },
{
    if heading {
        let hash = vec!['#', ' '];
        assert(hash@ =~= seq!['#', ' ']);
        if occurs_at_exec(t, &hash, 0) {
            let (a, b) = trim_bounds(t, 2, t.len());
            if !blank_range(t, a, b) {
                return Some(slice(t, a, b));
            }
        }
        None
    } else {
        assert(t@.subrange(0, t.len() as int) =~= t@);
        if blank_range(t, 0, t.len()) {
            None
        } else {
            Some(slice(t, 0, t.len()))
        }
    }
}

fn first_pick_exec(body: &Vec<char>, heading: bool) -> (r: Option<Vec<char>>)
    ensures
        match r {
            Some(x) => first_pick_from(body@, 0, heading) == Some(x@),
            None => first_pick_from(body@, 0, heading) is None,
        },
{
    let mut i: usize = 0;
    while i < body.len()
        invariant
            i <= body.len(),
            first_pick_from(body@, i as int, heading) == first_pick_from(body@, 0, heading),
        decreases body.len() - i,
    {
        let e = line_end_exec(body, i);
        let (a, b) = trim_bounds(body, i, e);
        let line = slice(body, a, b);
        assert(line@ == trim(body@.subrange(i as int, line_end_from(body@, i as int))));
        match line_pick_exec(&line, heading) {
            Some(t) => {
                assert(first_pick_from(body@, i as int, heading) == Some(t@));
                return Some(t);
            },
            None => {},
        }
        if e == body.len() {
            assert(first_pick_from(body@, e + 1, heading) is None);
            i = e;
        } else {
            i = e + 1;
        }
    }
    None
}

fn title_of_chars(v: &Vec<char>) -> (r: Vec<char>)
    ensures
        r@ == title_of(v@),
{
    let body = frontmatter_stripped_chars(v);
    match first_pick_exec(&body, true) {
        Some(h) => h,
        None => match first_pick_exec(&body, false) {
            Some(t) => if t.len() <= 50 {
                t
            } else {
                slice(&t, 0, 50)
            },
            None => untitled_chars(),
        },
    }
}

/// Derives a note's title from its content; see `title_of`.
pub fn extract_title(content: &str) -> (r: String)
    ensures
        r@ == title_of(content@),
{
    let v = chars_of(content);
    string_of(&title_of_chars(&v))
}


/// `s` without its leading `#` characters.
pub open spec fn hashes_dropped(s: Seq<char>) -> Seq<char>
    decreases s.len(),
{
    if s.len() > 0 && s[0] == '#' {
        hashes_dropped(s.drop_first())
    } else {
        s
    }
}

/// A heading's text without its `#` markers.
pub open spec fn heading_stripped(s: Seq<char>) -> Seq<char> {
    let t = trim_start(s);
    if t.len() > 0 && t[0] == '#' {
        trim_start(hashes_dropped(t))
    } else {
        s
    }
}

fn heading_stripped_chars(v: &Vec<char>) -> (r: Vec<char>)
    ensures
        r@ == heading_stripped(v@),
{
    let t = trim_start_chars(v);
    if t.len() > 0 && t[0] == '#' {
        let mut i: usize = 0;
        assert(t@.subrange(0, t.len() as int) =~= t@);
        while i < t.len() && t[i] == '#'
            invariant
                i <= t.len(),
                hashes_dropped(t@) == hashes_dropped(t@.subrange(i as int, t.len() as int)),
            decreases t.len() - i,
        {
            assert(t@.subrange(i as int, t.len() as int).drop_first() =~= t@.subrange(
                i + 1,
                t.len() as int,
            ));
            i = i + 1;
        }
        let rest = slice(&t, i, t.len());
        trim_start_chars(&rest)
    } else {
        slice(v, 0, v.len())
    }
}

/// `s` with the markers `m` taken off paired spans, the leftmost pair
/// first, until no pair is left; a pair is the first `m` and the next one
/// after it. With `nonempty`, work stops at the first pair that encloses
/// nothing.
pub open spec fn pairs_unwrapped(s: Seq<char>, m: Seq<char>, nonempty: bool) -> Seq<char>
    decreases s.len(),
    via pairs_unwrapped_decreases
{
    if m.len() == 0 {
        s
    } else {
        match find(s, m) {
            Some(a) => match find_from(s, m, a + m.len()) {
                Some(b) => if nonempty && b == a + m.len() {
                    s
                } else {
                    pairs_unwrapped(
                        s.subrange(0, a) + s.subrange(a + m.len(), b) + s.subrange(
                            b + m.len(),
                            s.len() as int,
                        ),
                        m,
                        nonempty,
                    )
                },
                None => s,
            },
            None => s,
        }
    }
}

#[via_fn]
proof fn pairs_unwrapped_decreases(s: Seq<char>, m: Seq<char>, nonempty: bool) {
    lemma_find_from(s, m, 0);
    if let Some(a) = find(s, m) {
        lemma_find_from(s, m, a + m.len());
    }
}

fn pairs_unwrapped_chars(v: Vec<char>, m: &Vec<char>, nonempty: bool) -> (r: Vec<char>)
    requires
        m.len() > 0,
    ensures
        r@ == pairs_unwrapped(v@, m@, nonempty),
{
    let mut r = v;
    loop
        invariant
            m.len() > 0,
            pairs_unwrapped(r@, m@, nonempty) == pairs_unwrapped(v@, m@, nonempty),
        decreases r.len(),
    {
        let a = match find_from_exec(&r, m, 0) {
            Some(a) => a,
            None => {
                return r;
            },
        };
        proof {
            lemma_find_from(r@, m@, 0);
        }
        let b = match find_from_exec(&r, m, a + m.len()) {
            Some(b) => b,
            None => {
                return r;
            },
        };
        proof {
            lemma_find_from(r@, m@, a + m.len());
        }
        if nonempty && b == a + m.len() {
            return r;
        }
        let mut n = slice(&r, 0, a);
        let inner = slice(&r, a + m.len(), b);
        let tail = slice(&r, b + m.len(), r.len());
        append_chars(&mut n, &inner);
        append_chars(&mut n, &tail);
        r = n;
    }
}

/// Where a markdown link (or, with `image`, an image) written at `i` in `s`
/// puts its text, and where it ends: `[text](target)` or `![alt](target)`,
/// the text holding no `]` and the target at least one character and no
/// `)`; a link's text must not be empty.
pub open spec fn link_at(s: Seq<char>, i: int, image: bool) -> Option<(int, int, int)> {
    let lo = if image { i + 2 } else { i + 1 };
    let opens = if image {
        0 <= i && i + 1 < s.len() && s[i] == '!' && s[i + 1] == '['
    } else {
        0 <= i && i < s.len() && s[i] == '['
    };
    if !opens {
        None
    } else {
        match find_from(s, seq![']'], lo) {
            Some(j) => if (image || j > lo) && j + 1 < s.len() && s[j + 1] == '(' {
                match find_from(s, seq![')'], j + 2) {
                    Some(k) => if k > j + 2 {
                        Some((lo, j, k + 1))
                    } else {
                        None
                    },
                    None => None,
                }
            } else {
                None
            },
            None => None,
        }
    }
}

/// `s` from index `i` on, with each link (or image) replaced by its text,
/// scanning left to right.
pub open spec fn links_unwrapped_from(s: Seq<char>, i: int, image: bool) -> Seq<char>
    decreases s.len() - i,
    via links_unwrapped_decreases
{
    if i < 0 || i >= s.len() {
        Seq::empty()
    } else {
        match link_at(s, i, image) {
            Some((a, b, e)) => s.subrange(a, b) + links_unwrapped_from(s, e, image),
            None => seq![s[i]] + links_unwrapped_from(s, i + 1, image),
        }
    }
}

#[via_fn]
proof fn links_unwrapped_decreases(s: Seq<char>, i: int, image: bool) {
    if 0 <= i < s.len() {
        let lo = if image { i + 2 } else { i + 1 };
        if lo <= s.len() {
            lemma_find_from(s, seq![']'], lo);
            if let Some(j) = find_from(s, seq![']'], lo) {
                if j + 2 <= s.len() {
                    lemma_find_from(s, seq![')'], j + 2);
                }
            }
        }
    }
}

fn link_at_exec(v: &Vec<char>, i: usize, image: bool) -> (r: Option<(usize, usize, usize)>)
    requires
        i < v.len(),
    ensures
        match r {
            Some((a, b, e)) => link_at(v@, i as int, image) == Some((a as int, b as int, e as int))
                && a <= b <= e <= v.len() && i < e,
            None => link_at(v@, i as int, image) is None,
        },
{
    let opens = if image {
        i + 1 < v.len() && v[i] == '!' && v[i + 1] == '['
    } else {
        v[i] == '['
    };
    if !opens {
        return None;
    }
    let lo = if image { i + 2 } else { i + 1 };
    let close = vec![']'];
    assert(close@ =~= seq![']']);
    let j = match find_from_exec(v, &close, lo) {
        Some(j) => j,
        None => {
            return None;
        },
    };
    proof {
        lemma_find_from(v@, close@, lo as int);
    }
    if !((image || j > lo) && j + 1 < v.len() && v[j + 1] == '(') {
        return None;
    }
    let paren = vec![')'];
    assert(paren@ =~= seq![')']);
    let k = match find_from_exec(v, &paren, j + 2) {
        Some(k) => k,
        None => {
            return None;
        },
    };
    proof {
        lemma_find_from(v@, paren@, j + 2);
    }
    if k > j + 2 {
        Some((lo, j, k + 1))
    } else {
        None
    }
}

fn links_unwrapped_chars(v: &Vec<char>, image: bool) -> (r: Vec<char>)
    ensures
        r@ == links_unwrapped_from(v@, 0, image),
{
    let mut out: Vec<char> = Vec::new();
    let mut i: usize = 0;
    while i < v.len()
        invariant
            i <= v.len(),
            out@ + links_unwrapped_from(v@, i as int, image) == links_unwrapped_from(
                v@,
                0,
                image,
            ),
        decreases v.len() - i,
    {
        match link_at_exec(v, i, image) {
            Some((a, b, e)) => {
                let text = slice(v, a, b);
                append_chars(&mut out, &text);
                assert(out@ + links_unwrapped_from(v@, e as int, image) =~= links_unwrapped_from(
                    v@,
                    0,
                    image,
                ));
                i = e;
            },
            None => {
                out.push(v[i]);
                assert(out@ + links_unwrapped_from(v@, i + 1, image) =~= links_unwrapped_from(
                    v@,
                    0,
                    image,
                ));
                i = i + 1;
            },
        }
    }
    assert(out@ =~= out@ + links_unwrapped_from(v@, i as int, image));
    out
}

/// `s` with every occurrence of `p` removed, scanning left to right.
pub open spec fn removed_all(s: Seq<char>, p: Seq<char>) -> Seq<char>
    decreases s.len(),
{
    if s.len() == 0 {
        s
    } else if p.len() > 0 && starts_with(s, p) {
        removed_all(s.subrange(p.len() as int, s.len() as int), p)
    } else {
        seq![s[0]] + removed_all(s.drop_first(), p)
    }
}

fn removed_all_chars(v: &Vec<char>, p: &Vec<char>) -> (r: Vec<char>)
    requires
        p.len() > 0,
    ensures
        r@ == removed_all(v@, p@),
{
    let mut out: Vec<char> = Vec::new();
    let mut i: usize = 0;
    let n = v.len();
    assert(v@.subrange(0, n as int) =~= v@);
    assert(out@ + removed_all(v@, p@) =~= removed_all(v@, p@));
    while i < n
        invariant
            i <= n == v.len(),
            p.len() > 0,
            out@ + removed_all(v@.subrange(i as int, n as int), p@) == removed_all(v@, p@),
        decreases n - i,
    {
        let ghost sub = v@.subrange(i as int, n as int);
        if occurs_at_exec(v, p, i) {
            assert(sub.subrange(0, p.len() as int) =~= v@.subrange(i as int, i + p.len()));
            assert(sub.subrange(p.len() as int, sub.len() as int) =~= v@.subrange(
                i + p.len(),
                n as int,
            ));
            i = i + p.len();
        } else {
            assert(!starts_with(sub, p@)) by {
                if p.len() <= sub.len() {
                    assert(sub.subrange(0, p.len() as int) =~= v@.subrange(i as int, i + p.len()));
                }
            }
            assert(sub.drop_first() =~= v@.subrange(i + 1, n as int));
            out.push(v[i]);
            assert(out@ + removed_all(v@.subrange(i + 1, n as int), p@) =~= removed_all(
                v@,
                p@,
            ));
            i = i + 1;
        }
    }
    assert(v@.subrange(0, n as int) =~= v@);
    assert(out@ =~= out@ + removed_all(v@.subrange(n as int, n as int), p@));
    out
}

/// The number of leading ASCII digits of `s`.
pub open spec fn digit_run(s: Seq<char>) -> nat
    decreases s.len(),
{
    if s.len() > 0 && '0' <= s[0] && s[0] <= '9' {
        1 + digit_run(s.drop_first())
    } else {
        0
    }
}

/// What follows a list marker at the start of `s`: optional white space,
/// then `-`, `+` or `*`, or a number written with the digits 0-9 and a
/// dot, then at least one white-space character.
pub open spec fn list_item_rest(s: Seq<char>) -> Option<Seq<char>> {
    let t = trim_start(s);
    let d = digit_run(t) as int;
    let after = if t.len() > 0 && (t[0] == '-' || t[0] == '+' || t[0] == '*') {
        Some(t.drop_first())
    } else if 0 < d < t.len() && t[d] == '.' {
        Some(t.subrange(d + 1, t.len() as int))
    } else {
        None
    };
    match after {
        Some(a) => if a.len() > 0 && is_white_space(a[0]) {
            Some(trim_start(a))
        } else {
            None
        },
        None => None,
    }
}

/// `s` without a leading list marker.
pub open spec fn list_marker_stripped(s: Seq<char>) -> Seq<char> {
    match list_item_rest(s) {
        Some(r) => r,
        None => s,
    }
}

fn list_marker_stripped_chars(v: &Vec<char>) -> (r: Vec<char>)
    ensures
        r@ == list_marker_stripped(v@),
{
    let t = trim_start_chars(v);
    let mut d: usize = 0;
    assert(t@.subrange(0, t.len() as int) =~= t@);
    while d < t.len() && '0' <= t[d] && t[d] <= '9'
        invariant
            d <= t.len(),
            digit_run(t@) == d + digit_run(t@.subrange(d as int, t.len() as int)),
        decreases t.len() - d,
    {
        assert(t@.subrange(d as int, t.len() as int).drop_first() =~= t@.subrange(
            d + 1,
            t.len() as int,
        ));
        d = d + 1;
    }
    assert(digit_run(t@) == d);
    let after_start: usize;
    if t.len() > 0 && (t[0] == '-' || t[0] == '+' || t[0] == '*') {
        after_start = 1;
        assert(t@.subrange(1, t.len() as int) =~= t@.drop_first());
    } else if 0 < d && d < t.len() && t[d] == '.' {
        after_start = d + 1;
    } else {
        return slice(v, 0, v.len());
    }
    if after_start < t.len() && white_space(t[after_start]) {
        let a = slice(&t, after_start, t.len());
        trim_start_chars(&a)
    } else {
        slice(v, 0, v.len())
    }
}

/// A line with its markdown markup taken off: heading markers; paired
/// `~~`, `**`, `__` and backquotes; images and links, which keep their
/// text; paired `*` and `_` around text; task-list boxes; a leading list
/// marker; and surrounding white space.
pub open spec fn markdown_stripped(s: Seq<char>) -> Seq<char> {
    let s1 = heading_stripped(s);
    let s2 = pairs_unwrapped(s1, seq!['~', '~'], false);
    let s3 = pairs_unwrapped(s2, seq!['*', '*'], false);
    let s4 = pairs_unwrapped(s3, seq!['_', '_'], false);
    let s5 = pairs_unwrapped(s4, seq!['`'], false);
    let s6 = links_unwrapped_from(s5, 0, true);
    let s7 = links_unwrapped_from(s6, 0, false);
    let s8 = pairs_unwrapped(s7, seq!['*'], true);
    let s9 = pairs_unwrapped(s8, seq!['_'], true);
    let s10 = removed_all(s9, seq!['-', ' ', '[', ' ', ']', ' ']);
    let s11 = removed_all(s10, seq!['-', ' ', '[', 'x', ']', ' ']);
    let s12 = removed_all(s11, seq!['-', ' ', '[', 'X', ']', ' ']);
    trim(list_marker_stripped(s12))
}

fn markdown_stripped_chars(v: &Vec<char>) -> (r: Vec<char>)
    ensures
        r@ == markdown_stripped(v@),
{
    let s1 = heading_stripped_chars(v);
    let m = vec!['~', '~'];
    assert(m@ =~= seq!['~', '~']);
    let s2 = pairs_unwrapped_chars(s1, &m, false);
    let m = vec!['*', '*'];
    assert(m@ =~= seq!['*', '*']);
    let s3 = pairs_unwrapped_chars(s2, &m, false);
    let m = vec!['_', '_'];
    assert(m@ =~= seq!['_', '_']);
    let s4 = pairs_unwrapped_chars(s3, &m, false);
    let m = vec!['`'];
    assert(m@ =~= seq!['`']);
    let s5 = pairs_unwrapped_chars(s4, &m, false);
    let s6 = links_unwrapped_chars(&s5, true);
    let s7 = links_unwrapped_chars(&s6, false);
    let m = vec!['*'];
    assert(m@ =~= seq!['*']);
    let s8 = pairs_unwrapped_chars(s7, &m, true);
    let m = vec!['_'];
    assert(m@ =~= seq!['_']);
    let s9 = pairs_unwrapped_chars(s8, &m, true);
    let p = vec!['-', ' ', '[', ' ', ']', ' '];
    assert(p@ =~= seq!['-', ' ', '[', ' ', ']', ' ']);
    let s10 = removed_all_chars(&s9, &p);
    let p = vec!['-', ' ', '[', 'x', ']', ' '];
    assert(p@ =~= seq!['-', ' ', '[', 'x', ']', ' ']);
    let s11 = removed_all_chars(&s10, &p);
    let p = vec!['-', ' ', '[', 'X', ']', ' '];
    assert(p@ =~= seq!['-', ' ', '[', 'X', ']', ' ']);
    let s12 = removed_all_chars(&s11, &p);
    let s13 = list_marker_stripped_chars(&s12);
    trim_chars(&s13)
}

/// Strips common markdown markup from one line; see `markdown_stripped`.
pub fn strip_markdown(text: &str) -> (r: String)
    ensures
        r@ == markdown_stripped(text@),
{
    let v = chars_of(text);
    string_of(&markdown_stripped_chars(&v))
}

/// The preview that the lines of `body` from the one at `i` on give: the
/// first of them that is not empty once trimmed and stripped of markup,
/// cut to a hundred characters.
pub open spec fn preview_from(body: Seq<char>, i: int) -> Seq<char>
    decreases body.len() + 1 - i,
    via preview_from_decreases
{
    if i < 0 || i >= body.len() {
        Seq::empty()
    } else {
        let t = trim(body.subrange(i, line_end_from(body, i)));
        if t.len() > 0 && markdown_stripped(t).len() > 0 {
            prefix_upto(markdown_stripped(t), 100)
        } else {
            preview_from(body, line_end_from(body, i) + 1)
        }
    }
}

#[via_fn]
proof fn preview_from_decreases(body: Seq<char>, i: int) {
    if 0 <= i < body.len() {
        lemma_line_end(body, i);
    }
}

/// A note's preview: taken from the lines after the first, once the
/// frontmatter is stripped; see `preview_from`.
pub open spec fn preview_of(content: Seq<char>) -> Seq<char> {
    let body = frontmatter_stripped(content);
    preview_from(body, line_end_from(body, 0) + 1)
}

fn preview_of_chars(v: &Vec<char>) -> (r: Vec<char>)
    ensures
        r@ == preview_of(v@),
{
    let body = frontmatter_stripped_chars(v);
    let first_end = line_end_exec(&body, 0);
    if first_end == body.len() {
        return Vec::new();
    }
    let mut i: usize = first_end + 1;
    while i < body.len()
        invariant
            i <= body.len(),
            body@ == frontmatter_stripped(v@),
            preview_from(body@, i as int) == preview_of(v@),
        decreases body.len() - i,
    {
        let e = line_end_exec(&body, i);
        let (a, b) = trim_bounds(&body, i, e);
        if a < b {
            let line = slice(&body, a, b);
            let stripped = markdown_stripped_chars(&line);
            if stripped.len() > 0 {
                if stripped.len() <= 100 {
                    return stripped;
                } else {
                    return slice(&stripped, 0, 100);
                }
            }
        }
        if e == body.len() {
            assert(preview_from(body@, e + 1) == Seq::<char>::empty());
            i = e;
        } else {
            i = e + 1;
        }
    }
    Vec::new()
}

/// A note's preview line; see `preview_of`.
pub fn generate_preview(content: &str) -> (r: String)
    ensures
        r@ == preview_of(content@),
{
    let v = chars_of(content);
    string_of(&preview_of_chars(&v))
}


/// A title character as it may stand in a file name: path separators and
/// the characters that some file systems refuse become `-`.
pub open spec fn filename_char(c: char) -> char {
    if c == '/' || c == '\\' || c == ':' || c == '*' || c == '?' || c == '"' || c == '<' || c
        == '>' || c == '|' {
        '-'
    } else {
        c
    }
}

/// `s` without no-break spaces and byte-order marks, each other character
/// made safe by `filename_char`.
pub open spec fn filename_chars(s: Seq<char>) -> Seq<char>
    decreases s.len(),
{
    if s.len() == 0 {
        s
    } else {
        let init = filename_chars(s.drop_last());
        let c = s.last();
        if c == '\u{a0}' || c == '\u{feff}' {
            init
        } else {
            init.push(filename_char(c))
        }
    }
}

/// The file name that a title gives: `filename_chars`, trimmed, or
/// `Untitled` when nothing but blanks is left.
pub open spec fn sanitized_name(title: Seq<char>) -> Seq<char> {
    let t = trim(filename_chars(title));
    if effectively_empty(t) {
        untitled()
    } else {
        t
    }
}

pub(crate) fn sanitized_name_chars(v: &Vec<char>) -> (r: Vec<char>)
    ensures
        r@ == sanitized_name(v@),
{
    let mut out: Vec<char> = Vec::new();
    let mut i: usize = 0;
    while i < v.len()
        invariant
            i <= v.len(),
            out@ == filename_chars(v@.take(i as int)),
        decreases v.len() - i,
    {
        let c = v[i];
        assert(v@.take(i + 1).drop_last() =~= v@.take(i as int));
        if !(c == '\u{a0}' || c == '\u{feff}') {
            let d = if c == '/' || c == '\\' || c == ':' || c == '*' || c == '?' || c == '"' || c
                == '<' || c == '>' || c == '|' {
                '-'
            } else {
                c
            };
            out.push(d);
        }
        i = i + 1;
    }
    assert(v@.take(v.len() as int) =~= v@);
    let t = trim_chars(&out);
    assert(t@.subrange(0, t.len() as int) =~= t@);
    if blank_range(&t, 0, t.len()) {
        untitled_chars()
    } else {
        t
    }
}

/// Makes a title safe to use as a file name; see `sanitized_name`.
pub fn sanitize_filename(title: &str) -> (r: String)
    ensures
        r@ == sanitized_name(title@),
{
    let v = chars_of(title);
    string_of(&sanitized_name_chars(&v))
}

/// What `char::to_uppercase` yields for `c`.
pub uninterp spec fn upper_of(c: char) -> Seq<char>;

/// Relies on `char::to_uppercase`: the upper-case mapping of one character,
/// which may be several characters long.
#[verifier::external_body]
fn uppercase_of(c: char) -> (r: Vec<char>)
    ensures
        r@ == upper_of(c),
{
    c.to_uppercase().collect()
}

/// The part of `s` after its last `/`.
pub open spec fn last_component(s: Seq<char>) -> Seq<char>
    decreases s.len(),
{
    if s.len() == 0 || s.last() == '/' {
        Seq::empty()
    } else {
        last_component(s.drop_last()).push(s.last())
    }
}

/// `s` with `-` and `_` read as spaces.
pub open spec fn spaced(s: Seq<char>) -> Seq<char> {
    s.map_values(|c: char| if c == '-' || c == '_' { ' ' } else { c })
}

/// The number of leading characters of `s` that are not white space.
pub open spec fn word_len(s: Seq<char>) -> nat
    decreases s.len(),
{
    if s.len() > 0 && !is_white_space(s[0]) {
        1 + word_len(s.drop_first())
    } else {
        0
    }
}

/// A word with its first character upper-cased.
pub open spec fn capitalized(w: Seq<char>) -> Seq<char> {
    if w.len() == 0 {
        w
    } else {
        upper_of(w[0]) + w.drop_first()
    }
}

/// The white-space separated words of `s`, capitalized and joined by single
/// spaces; `first` says whether none was written before.
pub open spec fn words_from(s: Seq<char>, first: bool) -> Seq<char>
    decreases s.len(),
    via words_from_decreases
{
    let t = trim_start(s);
    if t.len() == 0 {
        Seq::empty()
    } else {
        let w = word_len(t) as int;
        let sep = if first { Seq::empty() } else { seq![' '] };
        sep + capitalized(t.take(w)) + words_from(t.subrange(w, t.len() as int), false)
    }
}

proof fn lemma_trim_start(s: Seq<char>)
    ensures
        trim_start(s).len() <= s.len(),
        trim_start(s).len() > 0 ==> !is_white_space(trim_start(s)[0]),
    decreases s.len(),
{
    if s.len() > 0 && is_white_space(s[0]) {
        lemma_trim_start(s.drop_first());
    }
}

proof fn lemma_word_len(s: Seq<char>)
    ensures
        word_len(s) <= s.len(),
        s.len() > 0 && !is_white_space(s[0]) ==> word_len(s) >= 1,
    decreases s.len(),
{
    if s.len() > 0 && !is_white_space(s[0]) {
        lemma_word_len(s.drop_first());
    }
}

#[via_fn]
proof fn words_from_decreases(s: Seq<char>, first: bool) {
    lemma_trim_start(s);
    lemma_word_len(trim_start(s));
}

/// The title that a note id suggests: its last component, with dashes and
/// underscores read as spaces, in capitalized words.
pub open spec fn id_display_title(id: Seq<char>) -> Seq<char> {
    words_from(spaced(last_component(id)), true)
}

fn id_display_title_chars(id: &Vec<char>) -> (r: Vec<char>)
    ensures
        r@ == id_display_title(id@),
{
    let mut start: usize = id.len();
    assert(id@.take(id.len() as int) =~= id@);
    assert(id@ + id@.subrange(id.len() as int, id.len() as int) =~= id@);
    while start > 0 && id[start - 1] != '/'
        invariant
            start <= id.len(),
            last_component(id@) == last_component(id@.take(start as int)) + id@.subrange(
                start as int,
                id.len() as int,
            ),
        decreases start,
    {
        assert(id@.take(start as int).drop_last() =~= id@.take(start - 1));
        assert(id@.subrange(start - 1, id.len() as int) =~= seq![id@[start - 1]] + id@.subrange(
            start as int,
            id.len() as int,
        ));
        start = start - 1;
    }
    let mut v: Vec<char> = Vec::new();
    let mut k: usize = start;
    while k < id.len()
        invariant
            start <= k <= id.len(),
            v@ == spaced(id@.subrange(start as int, k as int)),
        decreases id.len() - k,
    {
        let c = id[k];
        v.push(if c == '-' || c == '_' { ' ' } else { c });
        k = k + 1;
        assert(v@ =~= spaced(id@.subrange(start as int, k as int)));
    }
    assert(last_component(id@) =~= id@.subrange(start as int, id.len() as int)) by {
        assert(last_component(id@.take(start as int)) =~= Seq::<char>::empty());
    }
    let n = v.len();
    let mut out: Vec<char> = Vec::new();
    let mut i: usize = 0;
    let mut first = true;
    assert(v@.subrange(0, n as int) =~= v@);
    while i < n
        invariant
            i <= n == v.len(),
            out@ + words_from(v@.subrange(i as int, n as int), first) == id_display_title(id@),
        decreases n - i,
    {
        let a = skip_white_space(&v, i, n);
        if a == n {
            assert(words_from(v@.subrange(i as int, n as int), first) =~= Seq::<char>::empty());
            i = n;
        } else {
            let mut j = a;
            while j < n && !white_space(v[j])
                invariant
                    a <= j <= n == v.len(),
                    word_len(v@.subrange(a as int, n as int)) == (j - a) + word_len(
                        v@.subrange(j as int, n as int),
                    ),
                decreases n - j,
            {
                assert(v@.subrange(j as int, n as int).drop_first() =~= v@.subrange(
                    j + 1,
                    n as int,
                ));
                j = j + 1;
            }
            let ghost t = v@.subrange(a as int, n as int);
            proof {
                lemma_trim_start(v@.subrange(i as int, n as int));
                lemma_word_len(t);
            }
            assert(word_len(t) == j - a);
            if !first {
                out.push(' ');
            }
            let up = uppercase_of(v[a]);
            append_chars(&mut out, &up);
            let tail = slice(&v, a + 1, j);
            append_chars(&mut out, &tail);
            assert(t.take(j - a) =~= v@.subrange(a as int, j as int));
            assert(t.subrange(j - a, t.len() as int) =~= v@.subrange(j as int, n as int));
            assert(capitalized(t.take(j - a)) =~= up@ + tail@);
            first = false;
            assert(out@ + words_from(v@.subrange(j as int, n as int), false) =~= id_display_title(
                id@,
            ));
            i = j;
        }
    }
    assert(v@.subrange(i as int, n as int) =~= Seq::<char>::empty());
    assert(trim_start(Seq::<char>::empty()) =~= Seq::<char>::empty());
    assert(words_from(Seq::<char>::empty(), first) =~= Seq::<char>::empty());
    assert(out@ =~= out@ + words_from(v@.subrange(i as int, n as int), first));
    out
}

/// The title that a note id suggests; see `id_display_title`.
pub fn extract_title_from_id(id: &str) -> (r: String)
    ensures
        r@ == id_display_title(id@),
{
    let v = chars_of(id);
    string_of(&id_display_title_chars(&v))
}


/// A preview never runs past a hundred characters.
pub proof fn lemma_preview_at_most_hundred(body: Seq<char>, i: int)
    ensures
        preview_from(body, i).len() <= 100,
    decreases body.len() + 1 - i,
{
    if 0 <= i < body.len() {
        lemma_line_end(body, i);
        let t = trim(body.subrange(i, line_end_from(body, i)));
        if !(t.len() > 0 && markdown_stripped(t).len() > 0) {
            lemma_preview_at_most_hundred(body, line_end_from(body, i) + 1);
        }
    }
}

/// A note without a heading takes its title from the beginning of its
/// first line that is not blank, at most fifty characters of it.
pub proof fn lemma_plain_title_cut(content: Seq<char>)
    requires
        first_pick_from(frontmatter_stripped(content), 0, true) is None,
        first_pick_from(frontmatter_stripped(content), 0, false) is Some,
    ensures
        ({
            let t = first_pick_from(frontmatter_stripped(content), 0, false)->0;
            &&& title_of(content) == prefix_upto(t, 50)
            &&& title_of(content).len() <= 50
            &&& title_of(content) == t.take(title_of(content).len() as int)
        }),
{
    let t = first_pick_from(frontmatter_stripped(content), 0, false)->0;
    assert(t.take(t.len() as int) =~= t);
}

/// Once paired markers are taken off, no marker stands after another one:
/// at most one unpaired marker is left.
pub proof fn lemma_no_pair_left(s: Seq<char>, m: Seq<char>)
    requires
        m.len() > 0,
    ensures
        forall|i: int, j: int|
            occurs_at(pairs_unwrapped(s, m, false), m, i) && i + m.len() <= j ==> !occurs_at(
                pairs_unwrapped(s, m, false),
                m,
                j,
            ),
    decreases s.len(),
{
    lemma_find_from(s, m, 0);
    match find(s, m) {
        Some(a) => {
            lemma_find_from(s, m, a + m.len());
            match find_from(s, m, a + m.len()) {
                Some(b) => {
                    let n = s.subrange(0, a) + s.subrange(a + m.len(), b) + s.subrange(
                        b + m.len(),
                        s.len() as int,
                    );
                    assert(pairs_unwrapped(s, m, false) == pairs_unwrapped(n, m, false));
                    lemma_no_pair_left(n, m);
                },
                None => {
                    assert(pairs_unwrapped(s, m, false) == s);
                    assert forall|i: int, j: int|
                        occurs_at(s, m, i) && i + m.len() <= j implies !occurs_at(s, m, j) by {
                        assert(a <= i);
                    }
                },
            }
        },
        None => {
            assert(pairs_unwrapped(s, m, false) == s);
        },
    }
}

} // verus!
