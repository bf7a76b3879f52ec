//! The mapping between note ids and file paths under the notes root.
//!
//! Paths are strings with `/` between components. A note id is the path of
//! a note's file relative to the root, without its `.md` suffix.
use vstd::prelude::*;
use crate::text::{
    chars_of, find_from, find_from_exec, lemma_find_from, occurs_at, occurs_at_exec, slice,
    starts_with, string_of, append_chars,
};

verus! {

/// The directory under the root that holds attachments, never notes.
pub open spec fn assets_name() -> Seq<char> {
    seq!['a', 's', 's', 'e', 't', 's']
}

/// The suffix of a note's file name.
pub open spec fn md_suffix() -> Seq<char> {
    seq!['.', 'm', 'd']
}

/// Where the component of `s` that starts at `i` ends: the next `/`, or the end.
pub open spec fn component_end(s: Seq<char>, i: int) -> int {
    match find_from(s, seq!['/'], i) {
        Some(k) => k,
        None => s.len() as int,
    }
}

/// Whether a component of `s` starts at `i`.
pub open spec fn is_component_start(s: Seq<char>, i: int) -> bool {
    0 <= i <= s.len() && (i == 0 || s[i - 1] == '/')
}

/// The component of `s` that starts at `i`.
pub open spec fn component_at(s: Seq<char>, i: int) -> Seq<char> {
    s.subrange(i, component_end(s, i))
}

/// Whether `s` holds the character `c`.
pub open spec fn has_char(s: Seq<char>, c: char) -> bool {
    exists|k: int| 0 <= k < s.len() && s[k] == c
}

/// `root` followed by one separator, the form every path under it starts with.
pub open spec fn root_prefix(root: Seq<char>) -> Seq<char> {
    if root.len() == 0 || root.last() == '/' {
        root
    } else {
        root.push('/')
    }
}

/// A component that no walk of the notes enters or lists: empty, hidden
/// (starting with a dot, which covers `.` and `..`), or the assets directory.
pub open spec fn excluded_component(c: Seq<char>) -> bool {
    c.len() == 0 || c[0] == '.' || c == assets_name()
}

/// Whether a path relative to the root is that of a note: a `.md` file
/// outside hidden directories and the assets directory, with no backslash,
/// and not opening with a drive letter (as `C:`), which no id may do.
pub open spec fn indexable_rel(rel: Seq<char>) -> bool {
    &&& !has_char(rel, '\\')
    &&& !is_drive(component_at(rel, 0))
    &&& rel.len() >= 3 && rel.subrange(rel.len() - 3, rel.len() as int) == md_suffix()
    &&& forall|i: int| #[trigger]
        is_component_start(rel, i) ==> !excluded_component(component_at(rel, i))
}

/// The id of the note stored at `path`, if `path` is a note's file under `root`.
pub open spec fn encoded(root: Seq<char>, path: Seq<char>) -> Option<Seq<char>> {
    let pre = root_prefix(root);
    if starts_with(path, pre) {
        let rel = path.subrange(pre.len() as int, path.len() as int);
        if indexable_rel(rel) {
            Some(rel.take(rel.len() - 3))
        } else {
            None
        }
    } else {
        None
    }
}

/// Why a note id was refused.
#[derive(Debug, Clone, Copy, PartialEq, Eq, Structural)]
pub enum InvalidId {
    /// The id holds a backslash.
    Backslash,
    /// A component is `..`.
    ParentDir,
    /// A component is `.`.
    CurDir,
    /// The id starts at a file-system root or with a drive letter.
    Absolute,
    /// The id is empty, or has an empty component.
    Empty,
    /// The path would lie outside the notes root.
    Escape,
    /// The note's file would be hidden, or lie in a hidden or the assets
    /// directory, where no listing of the notes finds it.
    Hidden,
}

impl InvalidId {
    /// A sentence that says why the id was refused.
    pub fn message(&self) -> (r: String)
        ensures
            *self == InvalidId::Backslash ==> r@ == "Invalid note ID: backslashes not allowed"@,
            *self == InvalidId::ParentDir ==> r@
                == "Invalid note ID: parent directory references not allowed"@,
            *self == InvalidId::CurDir ==> r@
                == "Invalid note ID: current directory references not allowed"@,
            *self == InvalidId::Absolute ==> r@ == "Invalid note ID: absolute paths not allowed"@,
            *self == InvalidId::Empty ==> r@ == "Invalid note ID: empty path component"@,
            *self == InvalidId::Escape ==> r@ == "Invalid note ID: path escapes notes folder"@,
            *self == InvalidId::Hidden ==> r@
                == "Invalid note ID: hidden or reserved path component"@,
    {
        let s = match self {
            InvalidId::Backslash => "Invalid note ID: backslashes not allowed",
            InvalidId::ParentDir => "Invalid note ID: parent directory references not allowed",
            InvalidId::CurDir => "Invalid note ID: current directory references not allowed",
            InvalidId::Absolute => "Invalid note ID: absolute paths not allowed",
            InvalidId::Empty => "Invalid note ID: empty path component",
            InvalidId::Escape => "Invalid note ID: path escapes notes folder",
            InvalidId::Hidden => "Invalid note ID: hidden or reserved path component",
        };
        s.to_string()
    }
}

/// Whether `c` opens with a drive letter, as `C:` does.
pub open spec fn is_drive(c: Seq<char>) -> bool {
    c.len() >= 2 && (('a' <= c[0] && c[0] <= 'z') || ('A' <= c[0] && c[0] <= 'Z')) && c[1] == ':'
}

/// What is wrong with a component of an id, if anything; `first` says
/// whether it is the first component.
pub open spec fn component_problem(c: Seq<char>, first: bool) -> Option<InvalidId> {
    if c == seq!['.', '.'] {
        Some(InvalidId::ParentDir)
    } else if c == seq!['.'] {
        Some(InvalidId::CurDir)
    } else if c.len() == 0 {
        if first {
            Some(InvalidId::Absolute)
        } else {
            Some(InvalidId::Empty)
        }
    } else if first && is_drive(c) {
        Some(InvalidId::Absolute)
    } else {
        None
    }
}

/// The problem of the component of `id` that starts at `i`.
pub open spec fn problem_at(id: Seq<char>, i: int) -> Option<InvalidId> {
    component_problem(component_at(id, i), i == 0)
}

/// Whether every component of `id` is acceptable.
pub open spec fn components_ok(id: Seq<char>) -> bool {
    forall|i: int| #[trigger] is_component_start(id, i) ==> problem_at(id, i) is None
}

/// Whether `e` is the problem of the first unacceptable component of `id`.
pub open spec fn first_problem(id: Seq<char>, e: InvalidId) -> bool {
    exists|i: int|
        #![trigger is_component_start(id, i)]
        is_component_start(id, i) && problem_at(id, i) == Some(e) && forall|j: int|
            #![trigger is_component_start(id, j)]
            is_component_start(id, j) && j < i ==> problem_at(id, j) is None
}

/// Whether `id` names a note: not empty, no backslash, every component acceptable.
pub open spec fn valid_id(id: Seq<char>) -> bool {
    id.len() > 0 && !has_char(id, '\\') && components_ok(id)
}

/// Whether `e` is the reason given for refusing `id`: a backslash first,
/// then emptiness, then the first bad component.
pub open spec fn id_error(id: Seq<char>, e: InvalidId) -> bool {
    if has_char(id, '\\') {
        e == InvalidId::Backslash
    } else if id.len() == 0 {
        e == InvalidId::Empty
    } else {
        first_problem(id, e)
    }
}

/// The file path of the note with id `id` under `root`.
pub open spec fn decoded(root: Seq<char>, id: Seq<char>) -> Seq<char> {
    root_prefix(root) + id + md_suffix()
}

fn root_prefix_chars(root: &Vec<char>) -> (r: Vec<char>)
    ensures
        r@ == root_prefix(root@),
{
    let mut r = slice(root, 0, root.len());
    assert(root@.subrange(0, root.len() as int) =~= root@);
    if root.len() > 0 && root[root.len() - 1] != '/' {
        r.push('/');
    }
    r
}

fn has_char_exec(v: &Vec<char>, c: char) -> (r: bool)
    ensures
        r == has_char(v@, c),
{
    let mut i: usize = 0;
    while i < v.len()
        invariant
            i <= v.len(),
            forall|k: int| 0 <= k < i ==> v@[k] != c,
        decreases v.len() - i,
    {
        if v[i] == c {
            return true;
        }
        i = i + 1;
    }
    false
}

fn component_end_exec(v: &Vec<char>, i: usize) -> (r: usize)
    requires
        i <= v.len(),
    ensures
        r == component_end(v@, i as int),
        i <= r <= v.len(),
        forall|k: int| i <= k < r ==> v@[k] != '/',
        r < v.len() ==> v@[r as int] == '/',
{
    proof {
        lemma_component_end(v@, i as int);
    }
    let sep = vec!['/'];
    assert(sep@ =~= seq!['/']);
    match find_from_exec(v, &sep, i) {
        Some(k) => k,
        None => v.len(),
    }
}

/// Where a component ends: no `/` stands inside it, and one ends it unless
/// the text ends first.
pub proof fn lemma_component_end(s: Seq<char>, i: int)
    requires
        0 <= i <= s.len(),
    ensures
        i <= component_end(s, i) <= s.len(),
        forall|k: int| i <= k < component_end(s, i) ==> s[k] != '/',
        component_end(s, i) < s.len() ==> s[component_end(s, i)] == '/',
{
    lemma_find_from(s, seq!['/'], i);
    assert forall|k: int| i <= k < component_end(s, i) implies s[k] != '/' by {
        if s[k] == '/' {
            assert(s.subrange(k, k + 1) =~= seq!['/']);
            assert(occurs_at(s, seq!['/'], k));
        }
    }
    if component_end(s, i) < s.len() {
        let e = component_end(s, i);
        assert(s.subrange(e, e + 1)[0] == s[e]);
    }
}

/// No component starts inside another: past one that starts at `i`, the
/// next starts after its end.
proof fn lemma_next_component(s: Seq<char>, i: int, j: int)
    requires
        0 <= i <= s.len(),
        is_component_start(s, i),
        is_component_start(s, j),
        i < j,
    ensures
        component_end(s, i) < j,
{
    lemma_component_end(s, i);
    if j <= component_end(s, i) {
        assert(s[j - 1] == '/');
    }
}

/// The problem of the first unacceptable component of `v`, if any.
fn first_component_problem(v: &Vec<char>) -> (r: Option<InvalidId>)
    ensures
        match r {
            None => components_ok(v@),
            Some(e) => first_problem(v@, e),
        },
{
    let mut i: usize = 0;
    loop
        invariant
            i <= v.len(),
            is_component_start(v@, i as int),
            forall|j: int|
                #![trigger is_component_start(v@, j)]
                is_component_start(v@, j) && j < i ==> problem_at(v@, j) is None,
        decreases v.len() - i,
    {
        let e = component_end_exec(v, i);
        let c = slice(v, i, e);
        let n = c.len();
        let p = if n == 2 && c[0] == '.' && c[1] == '.' {
            Some(InvalidId::ParentDir)
        } else if n == 1 && c[0] == '.' {
            Some(InvalidId::CurDir)
        } else if n == 0 {
            if i == 0 {
                Some(InvalidId::Absolute)
            } else {
                Some(InvalidId::Empty)
            }
        } else if i == 0 && n >= 2 && (('a' <= c[0] && c[0] <= 'z') || ('A' <= c[0] && c[0]
            <= 'Z')) && c[1] == ':' {
            Some(InvalidId::Absolute)
        } else {
            None
        };
        if n == 2 && c[0] == '.' && c[1] == '.' {
            assert(c@ =~= seq!['.', '.']);
        }
        if n == 1 && c[0] == '.' {
            assert(c@ =~= seq!['.']);
        }
        assert(c@ == seq!['.', '.'] ==> (n == 2 && c@[0] == '.' && c@[1] == '.'));
        assert(c@ == seq!['.'] ==> (n == 1 && c@[0] == '.'));
        assert(p == problem_at(v@, i as int));
        if p.is_some() {
            return p;
        }
        if e == v.len() {
            assert forall|j: int| #[trigger] is_component_start(v@, j) implies problem_at(
                v@,
                j,
            ) is None by {
                if j > i {
                    lemma_next_component(v@, i as int, j);
                }
            }
            return None;
        }
        assert forall|j: int|
            #![trigger is_component_start(v@, j)]
            is_component_start(v@, j) && j < e + 1 implies problem_at(v@, j) is None by {
            if j > i {
                lemma_next_component(v@, i as int, j);
            }
        }
        i = e + 1;
    }
}

/// The path of the note with id `id` under `root`, once the id is checked:
/// a backslash, an empty id, a `..` or `.` component, an absolute start or
/// an empty component refuse it, with the problem of its first bad
/// component.
pub fn abs_path_from_id(root: &str, id: &str) -> (r: Result<String, InvalidId>)
    ensures
        match r {
            Ok(p) => valid_id(id@) && p@ == decoded(root@, id@),
            Err(e) => !valid_id(id@) && id_error(id@, e),
        },
{
    let root_v = chars_of(root);
    let id_v = chars_of(id);
    if has_char_exec(&id_v, '\\') {
        return Err(InvalidId::Backslash);
    }
    if id_v.len() == 0 {
        return Err(InvalidId::Empty);
    }
    match first_component_problem(&id_v) {
        Some(e) => {
            proof {
                let i = choose|i: int|
                    #![trigger is_component_start(id_v@, i)]
                    is_component_start(id_v@, i) && problem_at(id_v@, i) == Some(e) && forall|
                        j: int,
                    |
                        #![trigger is_component_start(id_v@, j)]
                        is_component_start(id_v@, j) && j < i ==> problem_at(id_v@, j) is None;
            }
            return Err(e);
        },
        None => {},
    }
    let pre = root_prefix_chars(&root_v);
    let mut path = slice(&pre, 0, pre.len());
    assert(pre@.subrange(0, pre.len() as int) =~= pre@);
    append_chars(&mut path, &id_v);
    path.push('.');
    path.push('m');
    path.push('d');
    assert(path@ =~= decoded(root@, id@));
    assert(path@.subrange(0, pre.len() as int) =~= pre@);
    // the joined path must still lie under the root
    if !occurs_at_exec(&path, &pre, 0) || path.len() <= pre.len() {
        return Err(InvalidId::Escape);
    }
    Ok(string_of(&path))
}


fn indexable_rel_exec(rel: &Vec<char>) -> (r: bool)
    ensures
        r == indexable_rel(rel@),
{
    if has_char_exec(rel, '\\') {
        return false;
    }
    let n = rel.len();
    if n < 3 || rel[n - 3] != '.' || rel[n - 2] != 'm' || rel[n - 1] != 'd' {
        assert(n >= 3 ==> rel@.subrange(n - 3, n as int)[0] == rel@[n - 3]);
        assert(n >= 3 ==> rel@.subrange(n - 3, n as int)[1] == rel@[n - 2]);
        assert(n >= 3 ==> rel@.subrange(n - 3, n as int)[2] == rel@[n - 1]);
        return false;
    }
    assert(rel@.subrange(n - 3, n as int) =~= md_suffix());
    let e0 = component_end_exec(rel, 0);
    let c0 = rel[0];
    if e0 >= 2 && (('a' <= c0 && c0 <= 'z') || ('A' <= c0 && c0 <= 'Z')) && rel[1] == ':' {
        assert(component_at(rel@, 0)[0] == c0 && component_at(rel@, 0)[1] == rel@[1]);
        return false;
    }
    assert(!is_drive(component_at(rel@, 0))) by {
        if e0 >= 2 {
            assert(component_at(rel@, 0)[0] == c0 && component_at(rel@, 0)[1] == rel@[1]);
        }
    }
    let assets = vec!['a', 's', 's', 'e', 't', 's'];
    assert(assets@ =~= assets_name());
    let mut i: usize = 0;
    loop
        invariant
            i <= rel.len(),
            n == rel.len() >= 3,
            !has_char(rel@, '\\'),
            !is_drive(component_at(rel@, 0)),
            rel@.subrange(n - 3, n as int) == md_suffix(),
            is_component_start(rel@, i as int),
            assets@ == assets_name(),
            forall|j: int|
                #![trigger is_component_start(rel@, j)]
                is_component_start(rel@, j) && j < i ==> !excluded_component(
                    component_at(rel@, j),
                ),
        decreases rel.len() - i,
    {
        let e = component_end_exec(rel, i);
        let c = slice(rel, i, e);
        let bad = c.len() == 0 || c[0] == '.' || (c.len() == 6 && occurs_at_exec(&c, &assets, 0));
        assert(c@ == assets_name() <==> (c.len() == 6 && occurs_at(c@, assets@, 0))) by {
            if c.len() == 6 {
                assert(c@.subrange(0, 6) =~= c@);
            }
        }
        if bad {
            return false;
        }
        if e == rel.len() {
            assert forall|j: int| #[trigger] is_component_start(rel@, j) implies !excluded_component(
                component_at(rel@, j),
            ) by {
                if j > i {
                    lemma_next_component(rel@, i as int, j);
                }
            }
            return true;
        }
        assert forall|j: int|
            #![trigger is_component_start(rel@, j)]
            is_component_start(rel@, j) && j < e + 1 implies !excluded_component(
                component_at(rel@, j),
            ) by {
            if j > i {
                lemma_next_component(rel@, i as int, j);
            }
        }
        i = e + 1;
    }
}

/// The id of the note stored at `path` under `root`, or `None` when `path`
/// is not under `root`, is not a `.md` file, lies in a hidden or assets
/// directory, holds a backslash, or opens with a drive letter (as `C:`),
/// which no id may do. The `.md` suffix is cut off as text, so
/// dots inside the name stay.
pub fn id_from_abs_path(root: &str, path: &str) -> (r: Option<String>)
    ensures
        match r {
            Some(id) => encoded(root@, path@) == Some(id@),
            None => encoded(root@, path@) is None,
        },
{
    let root_v = chars_of(root);
    let path_v = chars_of(path);
    let pre = root_prefix_chars(&root_v);
    if !occurs_at_exec(&path_v, &pre, 0) {
        return None;
    }
    let rel = slice(&path_v, pre.len(), path_v.len());
    if !indexable_rel_exec(&rel) {
        return None;
    }
    let id = slice(&rel, 0, rel.len() - 3);
    assert(id@ =~= rel@.take(rel.len() - 3));
    Some(string_of(&id))
}

/// A `/` found from `j` in `a + b`, where `b` holds none, is found in `a`.
proof fn lemma_find_slash_in_prefix(a: Seq<char>, b: Seq<char>, j: int)
    requires
        0 <= j <= a.len(),
        !has_char(b, '/'),
    ensures
        component_end(a + b, j) == if component_end(a, j) < a.len() {
            component_end(a, j)
        } else {
            (a + b).len() as int
        },
{
    let s = a + b;
    lemma_component_end(a, j);
    lemma_component_end(s, j);
    let ea = component_end(a, j);
    let es = component_end(s, j);
    if ea < a.len() {
        assert(s[ea] == '/');
        if es < ea {
            assert(s[es] == a[es]);
        }
        if es > ea {
            assert(s[ea] == '/');
        }
    } else {
        if es < s.len() {
            if es < a.len() {
                assert(s[es] == a[es]);
            } else {
                assert(s[es] == b[es - a.len()]);
            }
        }
    }
}

/// Round trip: a note's file path, turned into an id and back, is the same
/// path.
pub proof fn lemma_decode_encode(root: Seq<char>, path: Seq<char>)
    requires
        encoded(root, path) is Some,
    ensures
        valid_id(encoded(root, path)->0),
        decoded(root, encoded(root, path)->0) == path,
{
    let pre = root_prefix(root);
    let rel = path.subrange(pre.len() as int, path.len() as int);
    let id = rel.take(rel.len() - 3);
    assert(rel =~= id + md_suffix());
    assert(!has_char(md_suffix(), '/'));
    assert(decoded(root, id) =~= path);
    // every component of the id is that of the path, its last one less the suffix
    assert forall|i: int| #[trigger] is_component_start(id, i) implies problem_at(id, i) is None by {
        lemma_find_slash_in_prefix(id, md_suffix(), i);
        lemma_component_end(id, i);
        assert(is_component_start(rel, i));
        let cr = component_at(rel, i);
        let ci = component_at(id, i);
        assert(!excluded_component(cr));
        if component_end(id, i) < id.len() {
            assert(cr =~= ci);
        } else {
            assert(cr =~= ci + md_suffix());
            if ci.len() == 0 {
                assert(cr[0] == '.');
            } else {
                assert(ci[0] == cr[0]);
            }
        }
        if i == 0 && is_drive(ci) {
            assert(cr[0] == ci[0] && cr[1] == ci[1]);
        }
        if ci == seq!['.', '.'] {
            assert(ci[0] == '.');
        }
        if ci == seq!['.'] {
            assert(ci[0] == '.');
        }
    }
    assert(id.len() > 0) by {
        assert(is_component_start(rel, 0));
        lemma_component_end(rel, 0);
        if id.len() == 0 {
            assert(rel[0] == '.');
        }
    }
    assert(!has_char(id, '\\')) by {
        if has_char(id, '\\') {
            let k = choose|k: int| 0 <= k < id.len() && id[k] == '\\';
            assert(rel[k] == '\\');
        }
    }
}

/// Confinement: an id with a backslash or a `..` component is refused, and
/// every path that an accepted id yields lies strictly inside the root,
/// with no `..` component after it.
pub proof fn lemma_decode_confined(root: Seq<char>, id: Seq<char>)
    ensures
        has_char(id, '\\') ==> !valid_id(id),
        (exists|i: int| #[trigger]
            is_component_start(id, i) && component_at(id, i) == seq!['.', '.']) ==> !valid_id(id),
        valid_id(id) ==> {
            let p = decoded(root, id);
            let pre = root_prefix(root);
            &&& starts_with(p, pre)
            &&& p.len() > pre.len()
            &&& p.subrange(pre.len() as int, p.len() as int) == id + md_suffix()
        },
{
    let p = decoded(root, id);
    let pre = root_prefix(root);
    assert(p.subrange(0, pre.len() as int) =~= pre);
    assert(p.subrange(pre.len() as int, p.len() as int) =~= id + md_suffix());
}


/// Whether a walk of the notes enters a directory named `name`: not a
/// hidden one, nor the assets directory.
pub fn is_visible_dir_name(name: &str) -> (r: bool)
    ensures
        r == !((name@.len() > 0 && name@[0] == '.') || name@ == assets_name()),
{
    let v = chars_of(name);
    if v.len() > 0 && v[0] == '.' {
        return false;
    }
    let assets = vec!['a', 's', 's', 'e', 't', 's'];
    assert(assets@ =~= assets_name());
    if v.len() == 6 && occurs_at_exec(&v, &assets, 0) {
        assert(v@.subrange(0, 6) =~= v@);
        return false;
    }
    assert(v.len() == 6 ==> v@.subrange(0, 6) =~= v@);
    true
}

} // verus!
