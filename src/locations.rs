//! Locations given from outside: the notes folder as the user picked it,
//! and web links the app opens.
use vstd::prelude::*;
use crate::assets::{is_markdown_extension, is_markdown_path};
use crate::codec::root_prefix;
use crate::naming::views;
use crate::text::{
    append_chars, chars_of, occurs_at_exec, slice, starts_with, string_of, trim, trim_chars,
};

verus! {

/// `url::Url`, carried through opaquely between the parser and its getters.
#[verifier::external_type_specification]
#[verifier::external_body]
pub struct ExUrl(url::Url);

/// The scheme of the URL that `s` parses to, or `None` when `s` does not
/// parse as a URL.
pub uninterp spec fn url_scheme_of(s: Seq<char>) -> Option<Seq<char>>;

/// Relies on `url::Url::parse`, read through `Url::scheme`: the parsed URL
/// with its scheme, or the parser's error message, as `s` alone decides.
#[verifier::external_body]
fn parse_url(s: &str) -> (r: Result<(url::Url, String), String>)
    ensures
        match r {
            Ok((_, scheme)) => url_scheme_of(s@) == Some(scheme@),
            Err(_) => url_scheme_of(s@) is None,
        },
{
    url::Url::parse(s).map(|u| {
        let scheme = u.scheme().to_string();
        (u, scheme)
    }).map_err(|e| e.to_string())
}

/// Relies on `url::Url::to_file_path`: the local path a `file:` URL
/// names, as text, or `None` when it names none.
#[verifier::external_body]
fn url_file_path(u: &url::Url) -> (r: Option<String>) {
    u.to_file_path().ok().map(|p| p.to_string_lossy().into_owned())
}

/// Why a notes folder path was refused.
#[derive(Debug)]
pub enum FolderError {
    /// Nothing but white space was given.
    Empty,
    /// A `file://` URL that does not parse; the parser's message.
    InvalidUrl(String),
    /// A URL that names no local path.
    NotAFilePath,
}

pub open spec fn file_scheme_prefix() -> Seq<char> {
    seq!['f', 'i', 'l', 'e', ':', '/', '/']
}

/// The notes folder that the user's text names: the trimmed text, or, for
/// a `file://` URL (as older settings hold), the path it names.
pub fn normalize_notes_folder_path(path: &str) -> (r: Result<String, FolderError>)
    ensures
        ({
            let t = trim(path@);
            let url = t.len() > 0 && starts_with(t, file_scheme_prefix());
            match r {
                Err(FolderError::Empty) => t.len() == 0,
                Ok(p) => t.len() > 0 && (!url ==> p@ == t) && (url ==> url_scheme_of(t) is Some),
                Err(FolderError::InvalidUrl(_)) => url && url_scheme_of(t) is None,
                Err(FolderError::NotAFilePath) => url && url_scheme_of(t) is Some,
            }
        }),
{
    let v = chars_of(path);
    let t = trim_chars(&v);
    if t.len() == 0 {
        return Err(FolderError::Empty);
    }
    let prefix = vec!['f', 'i', 'l', 'e', ':', '/', '/'];
    assert(prefix@ =~= file_scheme_prefix());
    let ts = string_of(&t);
    if occurs_at_exec(&t, &prefix, 0) {
        let u = match parse_url(ts.as_str()) {
            Ok((u, _)) => u,
            Err(m) => {
                return Err(FolderError::InvalidUrl(m));
            },
        };
        return match url_file_path(&u) {
            Some(p) => Ok(p),
            None => Err(FolderError::NotAFilePath),
        };
    }
    Ok(ts)
}

/// Whether the app may hand a link of scheme `s` to the system: web and
/// mail links only.
pub open spec fn scheme_allowed(s: Seq<char>) -> bool {
    s == seq!['h', 't', 't', 'p'] || s == seq!['h', 't', 't', 'p', 's'] || s == seq![
        'm',
        'a',
        'i',
        'l',
        't',
        'o',
    ]
}

pub fn is_scheme_allowed(s: &str) -> (r: bool)
    ensures
        r == scheme_allowed(s@),
{
    let v = chars_of(s);
    let http = vec!['h', 't', 't', 'p'];
    let https = vec!['h', 't', 't', 'p', 's'];
    let mailto = vec!['m', 'a', 'i', 'l', 't', 'o'];
    assert(http@ =~= seq!['h', 't', 't', 'p']);
    assert(https@ =~= seq!['h', 't', 't', 'p', 's']);
    assert(mailto@ =~= seq!['m', 'a', 'i', 'l', 't', 'o']);
    let a = v.len() == 4 && occurs_at_exec(&v, &http, 0);
    let b = v.len() == 5 && occurs_at_exec(&v, &https, 0);
    let c = v.len() == 6 && occurs_at_exec(&v, &mailto, 0);
    assert(v.len() == 4 ==> v@.subrange(0, 4) =~= v@);
    assert(v.len() == 5 ==> v@.subrange(0, 5) =~= v@);
    assert(v.len() == 6 ==> v@.subrange(0, 6) =~= v@);
    a || b || c
}

/// Why a link was not opened.
#[derive(Debug)]
pub enum LinkError {
    /// The link does not parse; the parser's message.
    Invalid(String),
    /// Its scheme is not one the app opens.
    SchemeNotAllowed(String),
}

/// Checks a link before the app opens it: it must parse, and its scheme
/// must be allowed.
pub fn check_link(url: &str) -> (r: Result<(), LinkError>)
    ensures
        r is Ok <==> (url_scheme_of(url@) matches Some(s) && scheme_allowed(s)),
        r matches Err(LinkError::Invalid(_)) <==> url_scheme_of(url@) is None,
        r matches Err(LinkError::SchemeNotAllowed(s)) ==> url_scheme_of(url@) == Some(s@)
            && !scheme_allowed(s@),
{
    let (_, s) = match parse_url(url) {
        Ok(p) => p,
        Err(m) => {
            return Err(LinkError::Invalid(m));
        },
    };
    if is_scheme_allowed(s.as_str()) {
        Ok(())
    } else {
        Err(LinkError::SchemeNotAllowed(s))
    }
}


/// The path that a command-line argument names: itself when absolute, else
/// taken from the working directory `cwd`.
pub open spec fn arg_path(arg: Seq<char>, cwd: Seq<char>) -> Seq<char> {
    if arg.len() > 0 && arg[0] == '/' {
        arg
    } else {
        root_prefix(cwd) + arg
    }
}

/// The markdown files that command-line arguments `args` (the program's
/// name left out) name, in order; arguments starting with `-` are flags.
pub open spec fn cli_files(args: Seq<Seq<char>>, cwd: Seq<char>) -> Seq<Seq<char>>
    decreases args.len(),
{
    if args.len() == 0 {
        Seq::empty()
    } else {
        let init = cli_files(args.drop_last(), cwd);
        let a = args.last();
        let p = arg_path(a, cwd);
        if !(a.len() > 0 && a[0] == '-') && is_markdown_path(p) {
            init.push(p)
        } else {
            init
        }
    }
}

/// The markdown files named on the command line `args`, whose first entry
/// is the program; the app opens those that are files.
pub fn markdown_args(args: &Vec<String>, cwd: &str) -> (r: Vec<String>)
    ensures
        args.len() == 0 ==> r.len() == 0,
        args.len() > 0 ==> views(r@) == cli_files(views(args@).drop_first(), cwd@),
{
    let mut r: Vec<String> = Vec::new();
    if args.len() == 0 {
        return r;
    }
    let cv = chars_of(cwd);
    let mut prefix = slice(&cv, 0, cv.len());
    assert(cv@.subrange(0, cv.len() as int) =~= cv@);
    if cv.len() > 0 && cv[cv.len() - 1] != '/' {
        prefix.push('/');
    }
    assert(prefix@ == root_prefix(cwd@));
    let ghost rest = views(args@).drop_first();
    let mut i: usize = 1;
    while i < args.len()
        invariant
            1 <= i <= args.len(),
            rest == views(args@).drop_first(),
            prefix@ == root_prefix(cwd@),
            views(r@) == cli_files(rest.take(i - 1), cwd@),
        decreases args.len() - i,
    {
        let a = chars_of(args[i].as_str());
        assert(rest.take(i as int).drop_last() =~= rest.take(i - 1));
        assert(rest.take(i as int).last() == a@);
        let flag = a.len() > 0 && a[0] == '-';
        let p = if a.len() > 0 && a[0] == '/' {
            a
        } else {
            let mut p = slice(&prefix, 0, prefix.len());
            assert(prefix@.subrange(0, prefix.len() as int) =~= prefix@);
            append_chars(&mut p, &a);
            p
        };
        assert(p@ == arg_path(a@, cwd@));
        let ps = string_of(&p);
        if !flag && is_markdown_extension(ps.as_str()) {
            r.push(ps);
            assert(views(r@) =~= cli_files(rest.take(i - 1), cwd@).push(p@));
        }
        i = i + 1;
    }
    assert(rest.take(args.len() - 1) =~= rest);
    r
}

} // verus!
