//! Attachments: decoding pasted images, naming files in the assets
//! directory, and recognising markdown files by name.
use base64::Engine;
use vstd::prelude::*;
use crate::markdown::{last_component, sanitize_filename, sanitized_name};
use crate::naming::{
    decimal, decimal_chars, free_name, lemma_suffixed_has_free_name, pick_free_name, views, NameForm,
};
use crate::text::{append_chars, chars_of, slice, string_of, trim, trim_chars};

verus! {

/// The bytes that the standard base64 alphabet, with padding, encodes in
/// `s`, or `None` when `s` is no such encoding.
pub uninterp spec fn base64_decoded(s: Seq<char>) -> Option<Seq<u8>>;

/// Relies on `base64::engine::general_purpose::STANDARD.decode`: the bytes
/// encoded in `s`, or the decoder's error message, as `s` alone decides.
#[verifier::external_body]
fn decode_base64(s: &str) -> (r: Result<Vec<u8>, String>)
    ensures
        match r {
            Ok(v) => base64_decoded(s@) == Some(v@),
            Err(_) => base64_decoded(s@) is None,
        },
{
    base64::engine::general_purpose::STANDARD.decode(s).map_err(|e| e.to_string())
}

/// Why a pasted image was refused.
#[derive(Debug)]
pub enum ImageError {
    /// Nothing but white space was pasted.
    EmptyInput,
    /// The data is not base64; the decoder's message.
    Decode(String),
    /// The data decodes to no bytes.
    EmptyImage,
}

/// Decodes a pasted image: refused when blank, when it is not base64, and
/// when it holds no bytes.
pub fn decode_clipboard_image(data: &str) -> (r: Result<Vec<u8>, ImageError>)
    ensures
        match r {
            Ok(v) => trim(data@).len() > 0 && base64_decoded(data@) == Some(v@) && v@.len() > 0,
            Err(ImageError::EmptyInput) => trim(data@).len() == 0,
            Err(ImageError::Decode(_)) => trim(data@).len() > 0 && base64_decoded(data@) is None,
            Err(ImageError::EmptyImage) => trim(data@).len() > 0 && base64_decoded(data@)
                == Some(Seq::<u8>::empty()),
        },
{
    let v = chars_of(data);
    let t = trim_chars(&v);
    if t.len() == 0 {
        return Err(ImageError::EmptyInput);
    }
    match decode_base64(data) {
        Ok(bytes) => {
            if bytes.len() == 0 {
                assert(bytes@ =~= Seq::<u8>::empty());
                Err(ImageError::EmptyImage)
            } else {
                Ok(bytes)
            }
        },
        Err(m) => Err(ImageError::Decode(m)),
    }
}

/// Whether `s` ends with `e`.
pub open spec fn ends_with(s: Seq<char>, e: Seq<char>) -> bool {
    s.len() >= e.len() && s.subrange(s.len() - e.len(), s.len() as int) == e
}

/// The names in `names` that end with `ext`, without it.
pub open spec fn stems(names: Seq<Seq<char>>, ext: Seq<char>) -> Seq<Seq<char>>
    decreases names.len(),
{
    if names.len() == 0 {
        Seq::empty()
    } else {
        let init = stems(names.drop_last(), ext);
        let n = names.last();
        if ends_with(n, ext) {
            init.push(n.take(n.len() - ext.len()))
        } else {
            init
        }
    }
}

fn stems_exec(names: &Vec<String>, ext: &Vec<char>) -> (r: Vec<String>)
    ensures
        views(r@) == stems(views(names@), ext@),
        r.len() <= names.len(),
{
    let mut r: Vec<String> = Vec::new();
    let mut i: usize = 0;
    while i < names.len()
        invariant
            i <= names.len(),
            r.len() <= i,
            views(r@) == stems(views(names@.take(i as int)), ext@),
        decreases names.len() - i,
    {
        let n = chars_of(names[i].as_str());
        assert(views(names@.take(i + 1)).drop_last() =~= views(names@.take(i as int)));
        assert(views(names@.take(i + 1)).last() == n@);
        let mut ends = false;
        if n.len() >= ext.len() {
            let tail = slice(&n, n.len() - ext.len(), n.len());
            ends = vec_eq(&tail, ext);
        }
        if ends {
            let stem = slice(&n, 0, n.len() - ext.len());
            r.push(string_of(&stem));
            assert(views(r@) =~= stems(views(names@.take(i as int)), ext@).push(stem@));
        }
        i = i + 1;
    }
    assert(names@.take(names.len() as int) =~= names@);
    r
}

fn vec_eq(a: &Vec<char>, b: &Vec<char>) -> (r: bool)
    ensures
        r == (a@ == b@),
{
    if a.len() != b.len() {
        return false;
    }
    let mut i: usize = 0;
    while i < a.len()
        invariant
            i <= a.len() == b.len(),
            forall|k: int| 0 <= k < i ==> a@[k] == b@[k],
        decreases a.len() - i,
    {
        if a[i] != b[i] {
            return false;
        }
        i = i + 1;
    }
    assert(a@ =~= b@);
    true
}

/// The first free file name `base` + `ext`, `base-1` + `ext`, ... among
/// the file names `taken`.
pub open spec fn free_file_name(
    base: Seq<char>,
    ext: Seq<char>,
    taken: Seq<Seq<char>>,
) -> Seq<char> {
    free_name(false, base, stems(taken, ext), None) + ext
}

fn free_file_name_exec(base: String, ext: &Vec<char>, taken: &Vec<String>) -> (r: String)
    requires
        taken.len() < usize::MAX,
    ensures
        r@ == free_file_name(base@, ext@, views(taken@)),
{
    let st = stems_exec(taken, ext);
    let form = NameForm::Suffixed(base);
    proof {
        lemma_suffixed_has_free_name(form.base(), views(st@), None);
    }
    match pick_free_name(&form, &st, &None) {
        Some(n) => {
            let mut v = chars_of(n.as_str());
            append_chars(&mut v, ext);
            string_of(&v)
        },
        None => {
            // no name of this form is ever missing; see the proof above
            string_of(ext)
        },
    }
}

/// The name of a pasted screenshot taken at `timestamp`:
/// `screenshot-<timestamp>.png`, or the first of
/// `screenshot-<timestamp>-1.png`, ... that no file in `taken` holds.
pub fn screenshot_name(timestamp: u64, taken: &Vec<String>) -> (r: String)
    requires
        taken.len() < usize::MAX,
    ensures
        r@ == free_file_name(
            seq!['s', 'c', 'r', 'e', 'e', 'n', 's', 'h', 'o', 't', '-'] + decimal(timestamp as nat),
            seq!['.', 'p', 'n', 'g'],
            views(taken@),
        ),
{
    let mut b = vec!['s', 'c', 'r', 'e', 'e', 'n', 's', 'h', 'o', 't', '-'];
    let d = decimal_chars(timestamp);
    append_chars(&mut b, &d);
    let ext = vec!['.', 'p', 'n', 'g'];
    assert(ext@ =~= seq!['.', 'p', 'n', 'g']);
    assert(b@ =~= seq!['s', 'c', 'r', 'e', 'e', 'n', 's', 'h', 'o', 't', '-'] + decimal(
        timestamp as nat,
    ));
    free_file_name_exec(string_of(&b), &ext, taken)
}

/// The name under which an image file with name stem `stem` and extension
/// `ext` is copied into the assets: the sanitized stem with the extension,
/// or the first of `<stem>-1.<ext>`, ... that no file in `taken` holds.
pub fn asset_file_name(stem: &str, ext: &str, taken: &Vec<String>) -> (r: String)
    requires
        taken.len() < usize::MAX,
    ensures
        r@ == free_file_name(sanitized_name(stem@), seq!['.'] + ext@, views(taken@)),
{
    let base = sanitize_filename(stem);
    let mut e = vec!['.'];
    let ev = chars_of(ext);
    append_chars(&mut e, &ev);
    assert(e@ =~= seq!['.'] + ext@);
    free_file_name_exec(base, &e, taken)
}

/// The link under which a note refers to the asset file `name`.
pub fn asset_link(name: &str) -> (r: String)
    ensures
        r@ == seq!['a', 's', 's', 'e', 't', 's', '/'] + name@,
{
    let mut v = vec!['a', 's', 's', 'e', 't', 's', '/'];
    let n = chars_of(name);
    append_chars(&mut v, &n);
    string_of(&v)
}

/// The index of the last `c` in `s`.
pub open spec fn last_index_of(s: Seq<char>, c: char) -> Option<int>
    decreases s.len(),
{
    if s.len() == 0 {
        None
    } else if s.last() == c {
        Some(s.len() - 1)
    } else {
        last_index_of(s.drop_last(), c)
    }
}

/// The extension of a file name: what follows its last dot, unless that
/// dot opens the name.
pub open spec fn extension_of(name: Seq<char>) -> Option<Seq<char>> {
    match last_index_of(name, '.') {
        Some(k) => if k > 0 {
            Some(name.subrange(k + 1, name.len() as int))
        } else {
            None
        },
        None => None,
    }
}

/// The stem of a file name: what precedes its extension's dot.
pub open spec fn stem_of(name: Seq<char>) -> Seq<char> {
    match last_index_of(name, '.') {
        Some(k) => if k > 0 {
            name.take(k)
        } else {
            name
        },
        None => name,
    }
}

/// The stem and the extension of a file name.
pub fn split_file_name(name: &str) -> (r: (String, Option<String>))
    ensures
        r.0@ == stem_of(name@),
        match r.1 {
            Some(e) => extension_of(name@) == Some(e@),
            None => extension_of(name@) is None,
        },
{
    let v = chars_of(name);
    let mut k: usize = v.len();
    assert(v@.take(v.len() as int) =~= v@);
    while k > 0 && v[k - 1] != '.'
        invariant
            k <= v.len(),
            last_index_of(v@, '.') == last_index_of(v@.take(k as int), '.'),
        decreases k,
    {
        assert(v@.take(k as int).drop_last() =~= v@.take(k - 1));
        k = k - 1;
    }
    assert(v@.take(v.len() as int) =~= v@);
    if k > 1 {
        assert(last_index_of(v@.take(k as int), '.') == Some(k - 1));
        let stem = slice(&v, 0, k - 1);
        let ext = slice(&v, k, v.len());
        (string_of(&stem), Some(string_of(&ext)))
    } else {
        if k == 1 {
            assert(last_index_of(v@.take(1), '.') == Some(0int));
        } else {
            assert(last_index_of(v@.take(0), '.') is None);
        }
        (string_of(&v), None)
    }
}

/// Whether `a` is `b` when ASCII capitals in `a` are read as small
/// letters; `b` is in small letters.
pub open spec fn eq_ignoring_ascii_case(a: Seq<char>, b: Seq<char>) -> bool {
    a.len() == b.len() && forall|i: int|
        0 <= i < a.len() ==> #[trigger] a[i] == b[i] || ('A' <= a[i] <= 'Z' && a[i] as u32 + 32
            == b[i] as u32)
}

fn eq_ignoring_ascii_case_exec(a: &Vec<char>, b: &Vec<char>) -> (r: bool)
    ensures
        r == eq_ignoring_ascii_case(a@, b@),
{
    if a.len() != b.len() {
        return false;
    }
    let mut i: usize = 0;
    while i < a.len()
        invariant
            i <= a.len() == b.len(),
            forall|k: int|
                0 <= k < i ==> #[trigger] a@[k] == b@[k] || ('A' <= a@[k] <= 'Z' && a@[k] as u32
                    + 32 == b@[k] as u32),
        decreases a.len() - i,
    {
        let c = a[i];
        let d = b[i];
        if !(c == d || ('A' <= c && c <= 'Z' && (c as u32) + 32 == d as u32)) {
            return false;
        }
        i = i + 1;
    }
    true
}

/// Whether a path names a markdown file: its extension is `md` or
/// `markdown`, in any ASCII case.
pub open spec fn is_markdown_path(path: Seq<char>) -> bool {
    let name = last_component(path);
    name != seq!['.', '.'] && match extension_of(name) {
        Some(e) => eq_ignoring_ascii_case(e, seq!['m', 'd']) || eq_ignoring_ascii_case(
            e,
            seq!['m', 'a', 'r', 'k', 'd', 'o', 'w', 'n'],
        ),
        None => false,
    }
}

/// Whether a path names a markdown file; see `is_markdown_path`.
pub fn is_markdown_extension(path: &str) -> (r: bool)
    ensures
        r == is_markdown_path(path@),
{
    let v = chars_of(path);
    let mut start: usize = v.len();
    assert(v@.take(v.len() as int) =~= v@);
    assert(v@ + v@.subrange(v.len() as int, v.len() as int) =~= v@);
    while start > 0 && v[start - 1] != '/'
        invariant
            start <= v.len(),
            last_component(v@) == last_component(v@.take(start as int)) + v@.subrange(
                start as int,
                v.len() as int,
            ),
        decreases start,
    {
        assert(v@.take(start as int).drop_last() =~= v@.take(start - 1));
        assert(v@.subrange(start - 1, v.len() as int) =~= seq![v@[start - 1]] + v@.subrange(
            start as int,
            v.len() as int,
        ));
        start = start - 1;
    }
    assert(last_component(v@.take(start as int)) =~= Seq::<char>::empty());
    let name = slice(&v, start, v.len());
    assert(name@ =~= last_component(v@));
    if name.len() == 2 && name[0] == '.' && name[1] == '.' {
        assert(name@ =~= seq!['.', '.']);
        return false;
    }
    let (_, ext) = split_file_name(string_of(&name).as_str());
    match ext {
        Some(e) => {
            let ev = chars_of(e.as_str());
            let md = vec!['m', 'd'];
            assert(md@ =~= seq!['m', 'd']);
            let mdown = vec!['m', 'a', 'r', 'k', 'd', 'o', 'w', 'n'];
            assert(mdown@ =~= seq!['m', 'a', 'r', 'k', 'd', 'o', 'w', 'n']);
            eq_ignoring_ascii_case_exec(&ev, &md) || eq_ignoring_ascii_case_exec(&ev, &mdown)
        },
        None => false,
    }
}

} // verus!
