//! Planning the note store's writes: where a saved or new note goes, which
//! files change and in what order, and which index entries follow.
use vstd::prelude::*;
use crate::codec::{
    abs_path_from_id, decoded, encoded, id_error, id_from_abs_path, valid_id, InvalidId,
};
use crate::markdown::{
    extract_title, extract_title_from_id, id_display_title, last_component, sanitize_filename,
    sanitized_name, title_of,
};
use crate::naming::{
    free_name, has_free_name, lemma_suffixed_has_free_name, own_view, pick_free_name, views,
    NameForm,
};
use crate::text::{append_chars, chars_of, slice, string_of};

verus! {

/// `id` up to and including its last `/`: the directory a note lives in.
pub open spec fn dir_prefix(id: Seq<char>) -> Seq<char> {
    id.take(id.len() - last_component(id).len())
}

fn dir_prefix_chars(v: &Vec<char>) -> (r: Vec<char>)
    ensures
        r@ == dir_prefix(v@),
{
    let mut start: usize = v.len();
    assert(v@.take(v.len() as int) =~= v@);
    assert(v@ + v@.subrange(v.len() as int, v.len() as int) =~= v@);
    while start > 0 && v[start - 1] != '/'
        invariant
            start <= v.len(),
            last_component(v@) == last_component(v@.take(start as int)) + v@.subrange(
                start as int,
                v.len() as int,
            ),
        decreases start,
    {
        assert(v@.take(start as int).drop_last() =~= v@.take(start - 1));
        assert(v@.subrange(start - 1, v.len() as int) =~= seq![v@[start - 1]] + v@.subrange(
            start as int,
            v.len() as int,
        ));
        start = start - 1;
    }
    assert(last_component(v@.take(start as int)) =~= Seq::<char>::empty());
    assert(last_component(v@).len() == v.len() - start);
    slice(v, 0, start)
}

/// Whether `e` is why a note can not be given id `t`: the id is refused,
/// or its file is one that no listing of the notes under `root` finds.
pub open spec fn target_refused(root: Seq<char>, t: Seq<char>, e: InvalidId) -> bool {
    if !valid_id(t) {
        id_error(t, e)
    } else {
        e == InvalidId::Hidden && encoded(root, decoded(root, t)) != Some(t)
    }
}

/// `path`, the file of note `id`, when the notes listing finds the note
/// there under its id; `Hidden` otherwise.
fn listed_path(root: &str, id: &String, path: String) -> (r: Result<String, InvalidId>)
    ensures
        match r {
            Ok(p) => p == path && encoded(root@, path@) == Some(id@),
            Err(e) => e == InvalidId::Hidden && encoded(root@, path@) != Some(id@),
        },
{
    match id_from_abs_path(root, path.as_str()) {
        Some(x) => {
            if x == *id {
                Ok(path)
            } else {
                Err(InvalidId::Hidden)
            }
        },
        None => Err(InvalidId::Hidden),
    }
}

/// Where a save puts a note, and what it replaces.
pub struct SavePlan {
    /// The note's id after the save.
    pub id: String,
    /// The title derived from the content.
    pub title: String,
    /// The file the content is written to.
    pub path: String,
    /// The note's former id, when the save renames it.
    pub old_id: Option<String>,
    /// The note's former file, when the save renames it.
    pub old_path: Option<String>,
}

/// The id that a save of `content` asks for: the sanitized title, in the
/// directory of the note's current id if it has one.
pub open spec fn desired_id(id: Option<Seq<char>>, content: Seq<char>) -> Seq<char> {
    let leaf = sanitized_name(title_of(content));
    match id {
        Some(e) => dir_prefix(e) + leaf,
        None => leaf,
    }
}

/// Whether a save of `content` under `id` moves the note to a new id.
pub open spec fn save_moves(id: Option<Seq<char>>, content: Seq<char>) -> bool {
    match id {
        Some(e) => e != desired_id(id, content),
        None => true,
    }
}

/// The id a save ends with: the current one when the title still gives it,
/// else the first free name `desired`, `desired-1`, ... where the note's
/// own id counts as free.
pub open spec fn save_target(
    id: Option<Seq<char>>,
    content: Seq<char>,
    taken: Seq<Seq<char>>,
) -> Seq<char> {
    if save_moves(id, content) {
        free_name(false, desired_id(id, content), taken, id)
    } else {
        id->0
    }
}

/// Plans a save of `content`: a new note when `id` is `None`, else an
/// update of note `id` that renames it when its title changed. `taken`
/// lists the ids of the files that exist. The plan's path is written
/// first, and the old file removed after (see `save_actions`). A save is
/// refused when the note would end up where the notes listing does not
/// find it under its id (a name that starts with a dot, say).
pub fn plan_save(root: &str, id: Option<String>, content: &str, taken: &Vec<String>) -> (r: Result<
    SavePlan,
    InvalidId,
>)
    requires
        taken.len() < usize::MAX,
    ensures
        ({
            let i = own_view(id);
            let target = save_target(i, content@, views(taken@));
            match r {
                Ok(p) => {
                    &&& p.title@ == title_of(content@)
                    &&& p.id@ == target
                    &&& valid_id(target)
                    &&& p.path@ == decoded(root@, target)
                    &&& encoded(root@, p.path@) == Some(p.id@)
                    &&& match i {
                        Some(e) => valid_id(e) && if save_moves(i, content@) {
                            &&& p.old_id == id
                            &&& p.old_path matches Some(op) && op@ == decoded(root@, e)
                        } else {
                            p.old_id is None && p.old_path is None
                        },
                        None => p.old_id is None && p.old_path is None,
                    }
                },
                Err(e) => match i {
                    Some(x) => if !valid_id(x) {
                        id_error(x, e)
                    } else {
                        target_refused(root@, target, e)
                    },
                    None => target_refused(root@, target, e),
                },
            }
        }),
{
    let title = extract_title(content);
    let leaf = sanitize_filename(title.as_str());
    let ghost i = own_view(id);
    match id {
        None => {
            let form = NameForm::Suffixed(leaf);
            proof {
                lemma_suffixed_has_free_name(form.base(), views(taken@), None);
            }
            let new_id = match pick_free_name(&form, taken, &None) {
                Some(n) => n,
                None => {
                    // unreachable: a name of this form is always free, as proved above
                    return Err(InvalidId::Empty);
                },
            };
            let path = abs_path_from_id(root, new_id.as_str())?;
            let path = listed_path(root, &new_id, path)?;
            Ok(SavePlan { id: new_id, title, path, old_id: None, old_path: None })
        },
        Some(existing) => {
            let ev = chars_of(existing.as_str());
            let mut desired = dir_prefix_chars(&ev);
            let lv = chars_of(leaf.as_str());
            append_chars(&mut desired, &lv);
            let old_path = abs_path_from_id(root, existing.as_str())?;
            let desired_s = string_of(&desired);
            assert(desired_s@ == desired_id(i, content@));
            if existing == desired_s {
                let path = listed_path(root, &existing, old_path)?;
                return Ok(SavePlan { id: existing, title, path, old_id: None, old_path: None });
            }
            let form = NameForm::Suffixed(desired_s);
            let own = Some(existing);
            proof {
                lemma_suffixed_has_free_name(form.base(), views(taken@), own_view(own));
            }
            let new_id = match pick_free_name(&form, taken, &own) {
                Some(n) => n,
                None => {
                    // unreachable: a name of this form is always free, as proved above
                    return Err(InvalidId::Empty);
                },
            };
            let path = abs_path_from_id(root, new_id.as_str())?;
            let path = listed_path(root, &new_id, path)?;
            Ok(SavePlan { id: new_id, title, path, old_id: own, old_path: Some(old_path) })
        },
    }
}


/// One change to the files, as the app performs it.
pub enum FsAction {
    /// Write `content` to `path`, creating or replacing the file.
    Write { path: String, content: String },
    /// Remove the file at `path` if there is one; failure is ignored.
    RemoveIfExists { path: String },
}

/// The files as a map from path to content.
pub type FileMap = Map<Seq<char>, Seq<char>>;

/// The files after `a`.
pub open spec fn apply_action(fs: FileMap, a: FsAction) -> FileMap {
    match a {
        FsAction::Write { path, content } => fs.insert(path@, content@),
        FsAction::RemoveIfExists { path } => fs.remove(path@),
    }
}

/// The files after the actions `acts`, in order.
pub open spec fn apply_actions(fs: FileMap, acts: Seq<FsAction>) -> FileMap
    decreases acts.len(),
{
    if acts.len() == 0 {
        fs
    } else {
        apply_actions(apply_action(fs, acts[0]), acts.drop_first())
    }
}

/// What a save does to the files, in order: write the new content to the
/// plan's path, and only then remove the old file if the note moved.
pub fn save_actions(plan: &SavePlan, content: &str) -> (r: Vec<FsAction>)
    ensures
        r.len() >= 1,
        r[0] matches FsAction::Write { path, content: c } && path@ == plan.path@ && c@ == content@,
        match plan.old_path {
            Some(op) => if op@ != plan.path@ {
                r.len() == 2 && (r[1] matches FsAction::RemoveIfExists { path } && path@ == op@)
            } else {
                r.len() == 1
            },
            None => r.len() == 1,
        },
{
    let mut r: Vec<FsAction> = Vec::new();
    r.push(FsAction::Write { path: plan.path.clone(), content: content.to_string() });
    match &plan.old_path {
        Some(op) => {
            if *op != plan.path {
                r.push(FsAction::RemoveIfExists { path: op.clone() });
            }
        },
        None => {},
    }
    r
}

/// A save that moves a note loses nothing: once all its actions are done
/// the new path holds the content and the old path is gone; stopped after
/// the write, both files are there, the old one unchanged.
pub proof fn lemma_save_keeps_content(
    fs: FileMap,
    acts: Seq<FsAction>,
    new_path: Seq<char>,
    old_path: Seq<char>,
    content: Seq<char>,
)
    requires
        new_path != old_path,
        acts.len() == 2,
        acts[0] matches FsAction::Write { path, content: c } && path@ == new_path && c@ == content,
        acts[1] matches FsAction::RemoveIfExists { path } && path@ == old_path,
    ensures
        apply_actions(fs, acts).contains_key(new_path),
        apply_actions(fs, acts)[new_path] == content,
        !apply_actions(fs, acts).contains_key(old_path),
        apply_actions(fs, acts.take(1)).contains_key(new_path),
        apply_actions(fs, acts.take(1))[new_path] == content,
        fs.contains_key(old_path) ==> apply_actions(fs, acts.take(1)).contains_key(old_path)
            && apply_actions(fs, acts.take(1))[old_path] == fs[old_path],
{
    let f1 = apply_action(fs, acts[0]);
    assert(acts.take(1).drop_first().len() == 0);
    assert(apply_actions(fs, acts.take(1)) == apply_actions(f1, acts.take(1).drop_first()));
    let f2 = apply_action(f1, acts[1]);
    assert(acts.drop_first()[0] == acts[1]);
    assert(acts.drop_first().drop_first().len() == 0);
    assert(apply_actions(fs, acts) == apply_actions(f1, acts.drop_first()));
    assert(apply_actions(f1, acts.drop_first()) == apply_actions(
        f2,
        acts.drop_first().drop_first(),
    ));
}

/// The files after carrying out `acts` in order, where `ok[k]` says
/// whether the `k`-th action succeeded: a failed action changes nothing,
/// and after a failed write nothing more is done.
pub open spec fn run_actions(fs: FileMap, acts: Seq<FsAction>, ok: Seq<bool>) -> FileMap
    decreases acts.len(),
{
    if acts.len() == 0 || ok.len() == 0 {
        fs
    } else if ok[0] {
        run_actions(apply_action(fs, acts[0]), acts.drop_first(), ok.drop_first())
    } else if acts[0] is Write {
        fs
    } else {
        run_actions(fs, acts.drop_first(), ok.drop_first())
    }
}

/// Whether the app goes on with a save's actions once `a` has been
/// carried out with outcome `ok`: not after a failed write.
pub fn continue_after(a: &FsAction, ok: bool) -> (r: bool)
    ensures
        r == (ok || !(*a is Write)),
{
    match a {
        FsAction::Write { .. } => ok,
        FsAction::RemoveIfExists { .. } => true,
    }
}

/// A save that moves a note never loses the old content: when writing the
/// new path fails, the files stay as they were; when it succeeds, the new
/// path holds the content, and the old path is gone unless its removal
/// failed, in which case it still holds what it held.
pub proof fn lemma_save_with_failures(
    fs: FileMap,
    acts: Seq<FsAction>,
    ok: Seq<bool>,
    new_path: Seq<char>,
    old_path: Seq<char>,
    content: Seq<char>,
)
    requires
        new_path != old_path,
        acts.len() == 2,
        ok.len() == 2,
        acts[0] matches FsAction::Write { path, content: c } && path@ == new_path && c@ == content,
        acts[1] matches FsAction::RemoveIfExists { path } && path@ == old_path,
    ensures
        !ok[0] ==> run_actions(fs, acts, ok) == fs,
        ok[0] ==> run_actions(fs, acts, ok).contains_key(new_path) && run_actions(
            fs,
            acts,
            ok,
        )[new_path] == content,
        ok[0] && ok[1] ==> !run_actions(fs, acts, ok).contains_key(old_path),
        ok[0] && !ok[1] && fs.contains_key(old_path) ==> run_actions(fs, acts, ok).contains_key(
            old_path,
        ) && run_actions(fs, acts, ok)[old_path] == fs[old_path],
{
    let f1 = apply_action(fs, acts[0]);
    let a2 = acts.drop_first();
    let o2 = ok.drop_first();
    assert(a2[0] == acts[1]);
    assert(o2[0] == ok[1]);
    assert(a2.drop_first().len() == 0);
    if ok[0] {
        assert(run_actions(fs, acts, ok) == run_actions(f1, a2, o2));
        if ok[1] {
            assert(run_actions(f1, a2, o2) == run_actions(
                apply_action(f1, a2[0]),
                a2.drop_first(),
                o2.drop_first(),
            ));
        } else {
            assert(run_actions(f1, a2, o2) == run_actions(f1, a2.drop_first(), o2.drop_first()));
        }
    }
}

/// A change to the search index.
pub enum IndexOp {
    /// Replace the note's entry, or add it.
    Upsert { id: String, title: String, content: String, modified: i64 },
    /// Remove the note's entry.
    Remove { id: String },
}

/// The index changes that follow a save: the old entry goes when the
/// note moved, then the note's entry is written.
pub fn save_index_ops(plan: &SavePlan, content: &str, modified: i64) -> (r: Vec<IndexOp>)
    ensures
        match plan.old_id {
            Some(o) => r.len() == 2 && (r[0] matches IndexOp::Remove { id } && id@ == o@),
            None => r.len() == 1,
        },
        r[r.len() - 1] matches IndexOp::Upsert { id, title, content: c, modified: m } && id@
            == plan.id@ && title@ == plan.title@ && c@ == content@ && m == modified,
{
    let mut r: Vec<IndexOp> = Vec::new();
    match &plan.old_id {
        Some(o) => {
            r.push(IndexOp::Remove { id: o.clone() });
        },
        None => {},
    }
    r.push(
        IndexOp::Upsert {
            id: plan.id.clone(),
            title: plan.title.clone(),
            content: content.to_string(),
            modified,
        },
    );
    r
}

/// A note as read back from its file.
pub struct Note {
    pub id: String,
    pub title: String,
    pub content: String,
    pub path: String,
    pub modified: i64,
}

/// The note with id `id` whose file at `path` holds `content`; its title is
/// derived from the content.
pub fn note_from_file(id: String, path: String, content: String, modified: i64) -> (r: Note)
    ensures
        r.id == id,
        r.path == path,
        r.content == content,
        r.modified == modified,
        r.title@ == title_of(content@),
{
    let title = extract_title(content.as_str());
    Note { id, title, content, path, modified }
}

/// Why a new note could not be placed.
#[derive(Debug, Clone, Copy, PartialEq, Eq, Structural)]
pub enum CreateError {
    /// The name that the template gives is not a valid id.
    Invalid(InvalidId),
    /// Every name tried is held by a file.
    NoFreeName,
}

/// Where a new note goes and what it starts with.
pub struct CreatePlan {
    pub id: String,
    /// The title shown in its first line, from its id.
    pub title: String,
    /// `# ` and the title, then a blank line.
    pub content: String,
    pub path: String,
}

/// The first text of a note titled `title`.
pub open spec fn initial_content(title: Seq<char>) -> Seq<char> {
    seq!['#', ' '] + title + seq!['\n', '\n']
}

/// Plans a new note from the expanded name template `name`: its id is the
/// sanitized name, numbered through its counter tag when the template has
/// one (`counter`), else suffixed `-1`, `-2`, ... until no file in `taken`
/// holds it. A name that the notes listing would not find is refused.
pub fn plan_create(root: &str, name: &str, counter: bool, taken: &Vec<String>) -> (r: Result<
    CreatePlan,
    CreateError,
>)
    requires
        taken.len() < usize::MAX,
    ensures
        ({
            let base = sanitized_name(name@);
            let id = free_name(counter, base, views(taken@), None);
            match r {
                Ok(p) => {
                    &&& has_free_name(counter, base, views(taken@), None)
                    &&& p.id@ == id
                    &&& valid_id(id)
                    &&& p.path@ == decoded(root@, id)
                    &&& encoded(root@, p.path@) == Some(p.id@)
                    &&& p.title@ == id_display_title(id)
                    &&& p.content@ == initial_content(p.title@)
                },
                Err(CreateError::NoFreeName) => !has_free_name(counter, base, views(taken@), None),
                Err(CreateError::Invalid(e)) => has_free_name(counter, base, views(taken@), None)
                    && target_refused(root@, id, e),
            }
        }),
{
    let base = sanitize_filename(name);
    let form = if counter {
        NameForm::Counter(base)
    } else {
        NameForm::Suffixed(base)
    };
    let id = match pick_free_name(&form, taken, &None) {
        Some(n) => n,
        None => {
            return Err(CreateError::NoFreeName);
        },
    };
    let path = match abs_path_from_id(root, id.as_str()) {
        Ok(p) => p,
        Err(e) => {
            return Err(CreateError::Invalid(e));
        },
    };
    let path = match listed_path(root, &id, path) {
        Ok(p) => p,
        Err(e) => {
            return Err(CreateError::Invalid(e));
        },
    };
    let title = extract_title_from_id(id.as_str());
    let mut c: Vec<char> = vec!['#', ' '];
    let tv = chars_of(title.as_str());
    append_chars(&mut c, &tv);
    c.push('\n');
    c.push('\n');
    assert(c@ =~= initial_content(title@));
    let content = string_of(&c);
    Ok(CreatePlan { id, title, content, path })
}


/// What deleting a note does: remove its file if there is one, then drop
/// its index entry.
pub struct DeletePlan {
    pub path: String,
    pub action: FsAction,
    pub index_op: IndexOp,
}

/// Plans the deletion of note `id`; only an invalid id fails.
pub fn plan_delete(root: &str, id: &str) -> (r: Result<DeletePlan, InvalidId>)
    ensures
        match r {
            Ok(p) => {
                &&& valid_id(id@)
                &&& p.path@ == decoded(root@, id@)
                &&& p.action matches FsAction::RemoveIfExists { path } && path@ == p.path@
                &&& p.index_op matches IndexOp::Remove { id: i } && i@ == id@
            },
            Err(e) => !valid_id(id@) && id_error(id@, e),
        },
{
    let path = abs_path_from_id(root, id)?;
    let action = FsAction::RemoveIfExists { path: path.clone() };
    Ok(DeletePlan { path, action, index_op: IndexOp::Remove { id: id.to_string() } })
}

/// Deleting a note that has no file changes no file: the removal of a
/// missing path leaves the files as they were.
pub proof fn lemma_delete_missing_is_noop(fs: FileMap, a: FsAction)
    requires
        a matches FsAction::RemoveIfExists { path } && !fs.contains_key(path@),
    ensures
        apply_action(fs, a) == fs,
{
    if let FsAction::RemoveIfExists { path } = a {
        assert(fs.remove(path@) =~= fs);
    }
}

} // verus!
