//! Expanding the name template of new notes with the local date and time.
use chrono::{Datelike, Timelike};
use vstd::prelude::*;
use crate::markdown::{sanitize_filename, sanitized_name};
use crate::naming::{counter_tag, decimal, decimal_chars, replaced, replaced_chars};
use crate::text::{append_chars, chars_of, contains, find_from_exec, lemma_find_from, string_of};

verus! {

/// A local date and time, as the clock reads it.
pub struct LocalTime {
    /// Seconds since the Unix epoch.
    pub timestamp: i64,
    pub year: i32,
    /// 1 to 12.
    pub month: u32,
    /// 1 to 31.
    pub day: u32,
    /// 0 to 23.
    pub hour: u32,
    /// 0 to 59.
    pub minute: u32,
    /// 0 to 59.
    pub second: u32,
}

impl LocalTime {
    pub open spec fn wf(&self) -> bool {
        &&& 1 <= self.month <= 12
        &&& 1 <= self.day <= 31
        &&& self.hour < 24
        &&& self.minute < 60
        &&& self.second < 60
    }
}

/// Relies on `chrono::Local::now`, read through `DateTime::timestamp` and
/// the `Datelike` and `Timelike` getters, whose documented ranges the
/// result keeps.
#[verifier::external_body]
fn local_now() -> (r: LocalTime)
    ensures
        r.wf(),
{
    let now = chrono::Local::now();
    LocalTime {
        timestamp: now.timestamp(),
        year: now.year(),
        month: now.month(),
        day: now.day(),
        hour: now.hour(),
        minute: now.minute(),
        second: now.second(),
    }
}

/// `n` in decimal, zero-padded to at least `w` digits.
pub open spec fn padded(n: nat, w: nat) -> Seq<char>
    decreases w,
{
    if decimal(n).len() >= w || w == 0 {
        decimal(n)
    } else {
        seq!['0'] + padded(n, (w - 1) as nat)
    }
}

fn padded_chars(n: u64, w: usize) -> (r: Vec<char>)
    ensures
        r@ == padded(n as nat, w as nat),
    decreases w,
{
    let d = decimal_chars(n);
    if d.len() >= w || w == 0 {
        d
    } else {
        let mut r = vec!['0'];
        let rest = padded_chars(n, w - 1);
        append_chars(&mut r, &rest);
        r
    }
}

/// A signed number in decimal, as `to_string` writes it.
pub open spec fn signed_decimal(v: int) -> Seq<char> {
    if v < 0 {
        seq!['-'] + decimal((-v) as nat)
    } else {
        decimal(v as nat)
    }
}

/// A year as `%Y` writes it: four digits at least, with a sign outside
/// the years 0 to 9999.
pub open spec fn year_text(y: int) -> Seq<char> {
    if 0 <= y <= 9999 {
        padded(y as nat, 4)
    } else if y < 0 {
        seq!['-'] + padded((-y) as nat, 4)
    } else {
        seq!['+'] + padded(y as nat, 4)
    }
}

fn magnitude(v: i64) -> (r: u64)
    ensures
        r as int == if v < 0 {
            -v
        } else {
            v as int
        },
{
    if v < 0 {
        ((-(v + 1)) as u64) + 1
    } else {
        v as u64
    }
}

fn signed_decimal_chars(v: i64) -> (r: Vec<char>)
    ensures
        r@ == signed_decimal(v as int),
{
    let m = magnitude(v);
    let d = decimal_chars(m);
    if v < 0 {
        let mut r = vec!['-'];
        append_chars(&mut r, &d);
        r
    } else {
        d
    }
}

fn year_text_chars(y: i32) -> (r: Vec<char>)
    ensures
        r@ == year_text(y as int),
{
    if 0 <= y && y <= 9999 {
        padded_chars(y as u64, 4)
    } else {
        let m = magnitude(y as i64);
        let p = padded_chars(m, 4);
        let mut r = if y < 0 {
            vec!['-']
        } else {
            vec!['+']
        };
        append_chars(&mut r, &p);
        r
    }
}

pub open spec fn tag_timestamp() -> Seq<char> {
    seq!['{', 't', 'i', 'm', 'e', 's', 't', 'a', 'm', 'p', '}']
}

pub open spec fn tag_date() -> Seq<char> {
    seq!['{', 'd', 'a', 't', 'e', '}']
}

pub open spec fn tag_year() -> Seq<char> {
    seq!['{', 'y', 'e', 'a', 'r', '}']
}

pub open spec fn tag_month() -> Seq<char> {
    seq!['{', 'm', 'o', 'n', 't', 'h', '}']
}

pub open spec fn tag_day() -> Seq<char> {
    seq!['{', 'd', 'a', 'y', '}']
}

pub open spec fn tag_time() -> Seq<char> {
    seq!['{', 't', 'i', 'm', 'e', '}']
}

/// The template with its tags replaced, in this order: `{timestamp}` by
/// the Unix time, `{date}` by `YYYY-MM-DD`, `{year}`, `{month}` and
/// `{day}` by their parts, and `{time}` by `HH-MM-SS` (dashes, which file
/// names allow, for colons). `{counter}` is left for the note's creation.
pub open spec fn expanded(t: Seq<char>, now: LocalTime) -> Seq<char> {
    let y = year_text(now.year as int);
    let mo = padded(now.month as nat, 2);
    let d = padded(now.day as nat, 2);
    let date = y + seq!['-'] + mo + seq!['-'] + d;
    let time = padded(now.hour as nat, 2) + seq!['-'] + padded(now.minute as nat, 2) + seq!['-']
        + padded(now.second as nat, 2);
    let s1 = replaced(t, tag_timestamp(), signed_decimal(now.timestamp as int));
    let s2 = replaced(s1, tag_date(), date);
    let s3 = replaced(s2, tag_year(), y);
    let s4 = replaced(s3, tag_month(), mo);
    let s5 = replaced(s4, tag_day(), d);
    replaced(s5, tag_time(), time)
}

/// Expands the tags of a name template at the time `now`; see `expanded`.
pub fn expand_template_at(template: &str, now: &LocalTime) -> (r: String)
    ensures
        r@ == expanded(template@, *now),
{
    let t = chars_of(template);
    let y = year_text_chars(now.year);
    let mo = padded_chars(now.month as u64, 2);
    let d = padded_chars(now.day as u64, 2);
    let mut date = year_text_chars(now.year);
    date.push('-');
    append_chars(&mut date, &mo);
    date.push('-');
    append_chars(&mut date, &d);
    let mut time = padded_chars(now.hour as u64, 2);
    time.push('-');
    let mi = padded_chars(now.minute as u64, 2);
    append_chars(&mut time, &mi);
    time.push('-');
    let se = padded_chars(now.second as u64, 2);
    append_chars(&mut time, &se);
    let ts = signed_decimal_chars(now.timestamp);
    let tag = vec!['{', 't', 'i', 'm', 'e', 's', 't', 'a', 'm', 'p', '}'];
    assert(tag@ =~= tag_timestamp());
    let s1 = replaced_chars(&t, &tag, &ts);
    let tag = vec!['{', 'd', 'a', 't', 'e', '}'];
    assert(tag@ =~= tag_date());
    let s2 = replaced_chars(&s1, &tag, &date);
    let tag = vec!['{', 'y', 'e', 'a', 'r', '}'];
    assert(tag@ =~= tag_year());
    let s3 = replaced_chars(&s2, &tag, &y);
    let tag = vec!['{', 'm', 'o', 'n', 't', 'h', '}'];
    assert(tag@ =~= tag_month());
    let s4 = replaced_chars(&s3, &tag, &mo);
    let tag = vec!['{', 'd', 'a', 'y', '}'];
    assert(tag@ =~= tag_day());
    let s5 = replaced_chars(&s4, &tag, &d);
    let tag = vec!['{', 't', 'i', 'm', 'e', '}'];
    assert(tag@ =~= tag_time());
    let s6 = replaced_chars(&s5, &tag, &time);
    assert(date@ =~= year_text(now.year as int) + seq!['-'] + padded(now.month as nat, 2) + seq![
        '-',
    ] + padded(now.day as nat, 2));
    assert(time@ =~= padded(now.hour as nat, 2) + seq!['-'] + padded(now.minute as nat, 2)
        + seq!['-'] + padded(now.second as nat, 2));
    string_of(&s6)
}

/// Expands the tags of a name template at the local time now: the result
/// is the expansion at some well-formed time, the one the clock gave.
pub fn expand_note_name_template(template: &str) -> (r: String)
    ensures
        exists|now: LocalTime| now.wf() && r@ == expanded(template@, now),
{
    let now = local_now();
    expand_template_at(template, &now)
}

/// Whether `s` holds the counter tag.
pub fn has_counter_tag(s: &str) -> (r: bool)
    ensures
        r == contains(s@, counter_tag()),
{
    let v = chars_of(s);
    let tag = vec!['{', 'c', 'o', 'u', 'n', 't', 'e', 'r', '}'];
    assert(tag@ =~= counter_tag());
    proof {
        lemma_find_from(v@, tag@, 0);
    }
    match find_from_exec(&v, &tag, 0) {
        Some(_) => true,
        None => false,
    }
}

/// The name of the first note that an expanded template gives: sanitized,
/// with its counter tag set to 1 when the template has one.
pub open spec fn first_note_name(template: Seq<char>, expansion: Seq<char>) -> Seq<char> {
    if contains(template, counter_tag()) {
        replaced(sanitized_name(expansion), counter_tag(), decimal(1))
    } else {
        sanitized_name(expansion)
    }
}

/// The name the first note made from `template` at time `now` would get.
pub fn preview_name_at(template: &str, now: &LocalTime) -> (r: String)
    ensures
        r@ == first_note_name(template@, expanded(template@, *now)),
{
    let e = expand_template_at(template, now);
    let s = sanitize_filename(e.as_str());
    if has_counter_tag(template) {
        let v = chars_of(s.as_str());
        let tag = vec!['{', 'c', 'o', 'u', 'n', 't', 'e', 'r', '}'];
        assert(tag@ =~= counter_tag());
        let one = decimal_chars(1);
        string_of(&replaced_chars(&v, &tag, &one))
    } else {
        s
    }
}

/// The name the first note made from `template` now would get.
pub fn preview_note_name(template: &str) -> (r: String)
    ensures
        exists|now: LocalTime|
            now.wf() && r@ == first_note_name(template@, expanded(template@, now)),
{
    let now = local_now();
    preview_name_at(template, &now)
}

} // verus!
