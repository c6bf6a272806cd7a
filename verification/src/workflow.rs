//! What the worker decides for each command: where a new project's folder goes, what a move
//! targets, which directories a sync covers, and how the index records the outcome. The worker
//! performs the file-system effects in between and hands back what it found.
use vstd::prelude::*;
use crate::index::{opt_string_view, Index, IndexError};
use crate::model::{dup_string, strs_view, ChildFile, ChildFileId, ExtensionRules, Project, ProjectId, Settings};
use crate::naming::{
    base_name_of, destination_candidate, file_stem, project_folder_candidate, spec_base_name, spec_file_stem, spec_join,
    spec_sanitize, today_prefix, unique_destination, unique_project_folder,
};
use crate::sync::FileEntry;
use crate::text::{chars_of, string_of};

verus! {

/// The last component of `path`, as `std::path::Path::file_name` gives it.
pub uninterp spec fn path_last_component(path: Seq<char>) -> Option<Seq<char>>;

/// Calls `std::path::Path::file_name`; trusted to give `path_last_component` of the path (the
/// input is valid UTF-8, so the lossy conversion loses nothing).
#[verifier::external_body]
pub(crate) fn path_file_name(path: &str) -> (r: Option<String>)
    ensures
        opt_string_view(r) == path_last_component(path@),
{
    match std::path::Path::new(path).file_name() {
        Some(s) => Some(s.to_string_lossy().into_owned()),
        None => None,
    }
}

/// The name used when nothing better is known.
pub open spec fn untitled() -> Seq<char> {
    seq!['u', 'n', 't', 'i', 't', 'l', 'e', 'd']
}

fn untitled_string() -> (r: String)
    ensures
        r@ == untitled(),
{
    let v: Vec<char> = vec!['u', 'n', 't', 'i', 't', 'l', 'e', 'd'];
    assert(v@ =~= untitled());
    string_of(&v)
}

/// The stem of the file at `path`, or "untitled".
pub open spec fn path_stem_or_untitled(path: Seq<char>) -> Seq<char> {
    match path_last_component(path) {
        Some(n) => match spec_file_stem(n) {
            Some(s) => s,
            None => untitled(),
        },
        None => untitled(),
    }
}

fn stem_of_path(path: &str) -> (r: String)
    ensures
        r@ == path_stem_or_untitled(path@),
{
    match path_file_name(path) {
        Some(n) => match file_stem(n.as_str()) {
            Some(s) => s,
            None => untitled_string(),
        },
        None => untitled_string(),
    }
}

/// The folders of all projects of the index, archived ones included.
pub open spec fn project_folders(ix: Index) -> Seq<Seq<char>> {
    ix.projects@.map_values(|p: Project| p.folder_path@)
}

/// `r` is the first free folder for a project called `name` under `root` (see
/// `project_folder_candidate`), `taken` being the folders in use.
pub open spec fn is_first_free_folder(root: Seq<char>, name: Seq<char>, sep: char, taken: Seq<Seq<char>>, r: Seq<char>) -> bool {
    exists|k: nat|
        {
            &&& k >= 1
            &&& r == project_folder_candidate(root, spec_sanitize(name), sep, k)
            &&& !taken.contains(r)
            &&& forall|m: nat| 1 <= m < k ==> taken.contains(#[trigger] project_folder_candidate(root, spec_sanitize(name), sep, m))
        }
}

/// Where a new project goes.
#[derive(Debug, Clone)]
pub struct ProjectPlan {
    /// The project's folder, to be created.
    pub folder_path: String,
    /// The project's name: the folder's own name.
    pub name: String,
}

/// Where a project started from an image goes, and where the image lands.
#[derive(Debug, Clone)]
pub struct ImageProjectPlan {
    pub folder_path: String,
    pub name: String,
    /// Where the image is moved to, inside the new folder.
    pub image_dest: String,
    /// The image's own file name, recorded as the seed.
    pub seed_filename: String,
    /// The base name of the image's stem.
    pub seed_basename: String,
}

fn folders_in_use(ix: &Index, existing: &Vec<String>) -> (r: Vec<String>)
    ensures
        strs_view(r@) == project_folders(*ix) + strs_view(existing@),
{
    let mut out: Vec<String> = Vec::new();
    for i in 0..ix.projects.len()
        invariant
            strs_view(out@) == project_folders(*ix).take(i as int),
    {
        let ghost before = out@;
        out.push(dup_string(&ix.projects[i].folder_path));
        assert(strs_view(out@) =~= strs_view(before).push(ix.projects@[i as int].folder_path@));
        assert(project_folders(*ix).take(i + 1) =~= project_folders(*ix).take(i as int).push(ix.projects@[i as int].folder_path@));
    }
    assert(project_folders(*ix).take(ix.projects@.len() as int) =~= project_folders(*ix));
    let ghost first = out@;
    for i in 0..existing.len()
        invariant
            strs_view(out@) == project_folders(*ix) + strs_view(existing@).take(i as int),
    {
        let ghost before = out@;
        out.push(dup_string(&existing[i]));
        assert(strs_view(out@) =~= strs_view(before).push(existing@[i as int]@));
        assert(strs_view(existing@).take(i + 1) =~= strs_view(existing@).take(i as int).push(existing@[i as int]@));
        assert(project_folders(*ix) + strs_view(existing@).take(i + 1) =~= (project_folders(*ix) + strs_view(existing@).take(i as int)).push(existing@[i as int]@));
    }
    assert(strs_view(existing@).take(existing@.len() as int) =~= strs_view(existing@));
    out
}

/// `plan` places a project started from scratch as `name`, dated `today`: under the configured
/// root, the first free folder for `"<today> <name>"` (with `existing` on disk), named after
/// the folder.
pub open spec fn is_scratch_plan(ix: Index, name: Seq<char>, today: Seq<char>, existing: Seq<String>, sep: char, plan: ProjectPlan) -> bool {
    let dated = today + seq![' '] + name;
    &&& ix.settings.root_directory matches Some(root) && is_first_free_folder(
        root@,
        dated,
        sep,
        project_folders(ix) + strs_view(existing),
        plan.folder_path@,
    )
    &&& plan.name@ == match path_last_component(plan.folder_path@) {
        Some(n) => n,
        None => name,
    }
}

/// `plan` places a project started from the image at `image`, dated `today`: the folder is the
/// first free one under the configured root for `"<today> <stem>"` (with `existing` on disk),
/// named after the folder; the image moves into it under its own file name, which is the seed,
/// with the base name of its stem.
pub open spec fn is_image_plan(ix: Index, image: Seq<char>, today: Seq<char>, existing: Seq<String>, sep: char, plan: ImageProjectPlan) -> bool {
    let stem = path_stem_or_untitled(image);
    let orig = match path_last_component(image) {
        Some(n) => n,
        None => stem,
    };
    let dated = today + seq![' '] + stem;
    &&& ix.settings.root_directory matches Some(root) && is_first_free_folder(
        root@,
        dated,
        sep,
        project_folders(ix) + strs_view(existing),
        plan.folder_path@,
    )
    &&& plan.name@ == match path_last_component(plan.folder_path@) {
        Some(n) => n,
        None => stem,
    }
    &&& plan.image_dest@ == spec_join(plan.folder_path@, orig, sep)
    &&& plan.seed_filename@ == orig
    &&& plan.seed_basename@ == spec_base_name(stem)
}

/// The folder and name of a new project whose folder is named after `name` (already dated)
/// under the configured root; the project is named after the folder, or `fallback` when the
/// folder path has no last component; `existing` holds the paths that exist on disk. Refused
/// when no root is configured.
fn plan_folder(ix: &Index, name: &str, fallback: &str, existing: &Vec<String>, sep: char) -> (r: Result<ProjectPlan, IndexError>)
    ensures
        ix.settings.root_directory is None ==> r == Err::<ProjectPlan, IndexError>(IndexError::DirectoriesNotConfigured),
        ix.settings.root_directory matches Some(root) ==> r matches Ok(plan) && {
            &&& is_first_free_folder(
                root@,
                name@,
                sep,
                project_folders(*ix) + strs_view(existing@),
                plan.folder_path@,
            )
            &&& plan.name@ == match path_last_component(plan.folder_path@) {
                Some(n) => n,
                None => fallback@,
            }
        },
{
    let root = match &ix.settings.root_directory {
        Some(r) => r,
        None => {
            return Err(IndexError::DirectoriesNotConfigured);
        },
    };
    let taken = folders_in_use(ix, existing);
    let folder_path = unique_project_folder(root.as_str(), name, sep, &taken);
    let pname = match path_file_name(folder_path.as_str()) {
        Some(n) => n,
        None => string_of(&chars_of(fallback)),
    };
    Ok(ProjectPlan { folder_path, name: pname })
}

/// Plans a project started from scratch as `name`, with the date `today` in front of its
/// folder name: under the configured root, the first free folder for `"<today> <name>"`
/// (`existing` holds the paths that exist on disk), named after the folder. Refused when no
/// root is configured.
pub fn plan_project_from_scratch_on(ix: &Index, name: &str, today: &str, existing: &Vec<String>, sep: char) -> (r: Result<ProjectPlan, IndexError>)
    ensures
        ix.settings.root_directory is None ==> r == Err::<ProjectPlan, IndexError>(IndexError::DirectoriesNotConfigured),
        ix.settings.root_directory is Some ==> (r matches Ok(plan) && is_scratch_plan(*ix, name@, today@, existing@, sep, plan)),
{
    let dated = crate::naming::join_date_prefix(today, name);
    plan_folder(ix, dated.as_str(), name, existing, sep)
}

/// Plans a project started from scratch as `name`, dated today (see
/// `plan_project_from_scratch_on`).
pub fn plan_project_from_scratch(ix: &Index, name: &str, existing: &Vec<String>, sep: char) -> (r: Result<ProjectPlan, IndexError>)
    ensures
        ix.settings.root_directory is None ==> r == Err::<ProjectPlan, IndexError>(IndexError::DirectoriesNotConfigured),
        ix.settings.root_directory is Some ==> (r matches Ok(plan) && exists|today: Seq<char>|
            crate::naming::is_date_text(today) && #[trigger] is_scratch_plan(*ix, name@, today, existing@, sep, plan)),
{
    let today = today_prefix();
    plan_project_from_scratch_on(ix, name, today.as_str(), existing, sep)
}

/// Plans a project started from the image at `image_path`, with the date `today` in front of
/// its folder name: the folder is the first free one under the configured root for
/// `"<today> <stem>"` (`existing` holds the paths that exist on disk), named after the folder;
/// the image moves into it under its own file name, which is recorded as the seed together
/// with the base name of its stem. Refused when no root is configured.
pub fn plan_project_from_image_on(ix: &Index, image_path: &str, today: &str, existing: &Vec<String>, sep: char) -> (r: Result<ImageProjectPlan, IndexError>)
    ensures
        ix.settings.root_directory is None ==> r == Err::<ImageProjectPlan, IndexError>(IndexError::DirectoriesNotConfigured),
        ix.settings.root_directory is Some ==> (r matches Ok(plan) && is_image_plan(*ix, image_path@, today@, existing@, sep, plan)),
{
    let stem = stem_of_path(image_path);
    let orig = match path_file_name(image_path) {
        Some(n) => n,
        None => string_of(&chars_of(stem.as_str())),
    };
    let seed_basename = base_name_of(stem.as_str());
    let dated = crate::naming::join_date_prefix(today, stem.as_str());
    let plan = match plan_folder(ix, dated.as_str(), stem.as_str(), existing, sep) {
        Ok(p) => p,
        Err(e) => {
            return Err(e);
        },
    };
    let none: Vec<String> = Vec::new();
    let dest = unique_destination(plan.folder_path.as_str(), orig.as_str(), sep, &none);
    proof {
        let k = choose|k: nat|
            {
                &&& k >= 1
                &&& dest@ == destination_candidate(plan.folder_path@, orig@, sep, k)
                &&& !strs_view(none@).contains(dest@)
                &&& forall|m: nat|
                    1 <= m < k ==> strs_view(none@).contains(
                        #[trigger] destination_candidate(plan.folder_path@, orig@, sep, m),
                    )
            };
        if k > 1 {
            assert(strs_view(none@).contains(destination_candidate(plan.folder_path@, orig@, sep, 1)));
        }
    }
    Ok(
        ImageProjectPlan {
            folder_path: plan.folder_path,
            name: plan.name,
            image_dest: dest,
            seed_filename: orig,
            seed_basename: seed_basename,
        },
    )
}

/// Plans a project started from the image at `image_path`, dated today (see
/// `plan_project_from_image_on`).
pub fn plan_project_from_image(ix: &Index, image_path: &str, existing: &Vec<String>, sep: char) -> (r: Result<ImageProjectPlan, IndexError>)
    ensures
        ix.settings.root_directory is None ==> r == Err::<ImageProjectPlan, IndexError>(IndexError::DirectoriesNotConfigured),
        ix.settings.root_directory is Some ==> (r matches Ok(plan) && exists|today: Seq<char>|
            crate::naming::is_date_text(today) && #[trigger] is_image_plan(*ix, image_path@, today, existing@, sep, plan)),
{
    let today = today_prefix();
    plan_project_from_image_on(ix, image_path, today.as_str(), existing, sep)
}

// ----- laws of the plans ---------------------------------------------------------------------

proof fn lemma_folder_starts_with(root: Seq<char>, name: Seq<char>, sep: char, taken: Seq<Seq<char>>, folder: Seq<char>, p: Seq<char>)
    requires
        is_first_free_folder(root, name, sep, taken, folder),
        spec_sanitize(name).len() >= p.len(),
        spec_sanitize(name).take(p.len() as int) == p,
    ensures
        folder.len() >= crate::naming::join_prefix(root, sep).len() + p.len(),
        folder.take(crate::naming::join_prefix(root, sep).len() as int) == crate::naming::join_prefix(root, sep),
        folder.subrange(
            crate::naming::join_prefix(root, sep).len() as int,
            (crate::naming::join_prefix(root, sep).len() + p.len()) as int,
        ) == p,
{
    let k = choose|k: nat|
        {
            &&& k >= 1
            &&& folder == project_folder_candidate(root, spec_sanitize(name), sep, k)
            &&& !taken.contains(folder)
            &&& forall|m: nat| 1 <= m < k ==> taken.contains(#[trigger] project_folder_candidate(root, spec_sanitize(name), sep, m))
        };
    let jp = crate::naming::join_prefix(root, sep);
    let base = spec_sanitize(name);
    let last = if k <= 1 {
        base
    } else {
        crate::naming::numbered(base, k, Seq::empty())
    };
    assert(folder == jp + last);
    assert(last.take(p.len() as int) =~= p) by {
        assert forall|i: int| 0 <= i < p.len() implies last[i] == p[i] by {
            assert(base.take(p.len() as int)[i] == base[i]);
        }
    }
    assert(folder.take(jp.len() as int) =~= jp);
    assert(folder.subrange(jp.len() as int, (jp.len() + p.len()) as int) =~= p) by {
        assert forall|i: int| 0 <= i < p.len() implies folder.subrange(jp.len() as int, (jp.len() + p.len()) as int)[i] == p[i] by {
            assert(folder[jp.len() + i] == last[i]);
        }
    }
}

/// A project planned from scratch on the date `today` (see `plan_project_from_scratch_on`; the
/// clock's reading in `plan_project_from_scratch`) gets a folder directly under the configured
/// root whose name starts with that date.
pub proof fn law_scratch_plan_folder_starts_with_date(
    ix: Index,
    name: Seq<char>,
    today: Seq<char>,
    existing: Seq<String>,
    sep: char,
    plan: ProjectPlan,
)
    requires
        crate::naming::is_date_text(today),
        is_scratch_plan(ix, name, today, existing, sep, plan),
    ensures
        ix.settings.root_directory matches Some(root) && {
            let jp = crate::naming::join_prefix(root@, sep);
            &&& plan.folder_path@.len() >= jp.len() + today.len()
            &&& plan.folder_path@.take(jp.len() as int) == jp
            &&& plan.folder_path@.subrange(jp.len() as int, (jp.len() + today.len()) as int) == today
        },
{
    crate::naming::lemma_date_text_is_safe(today);
    let rest = seq![' '] + name;
    crate::naming::lemma_sanitize_keeps_prefix(today, rest);
    assert(today + seq![' '] + name == today + rest);
    let root = ix.settings.root_directory->Some_0;
    lemma_folder_starts_with(root@, today + seq![' '] + name, sep, project_folders(ix) + strs_view(existing), plan.folder_path@, today);
}

/// A project planned from the image at `image` on the date `today` (see
/// `plan_project_from_image_on`; the clock's reading in `plan_project_from_image`) gets a
/// folder directly under the configured root whose name starts with that date, and the image
/// goes into that folder.
pub proof fn law_image_plan_folder_starts_with_date(
    ix: Index,
    image: Seq<char>,
    today: Seq<char>,
    existing: Seq<String>,
    sep: char,
    plan: ImageProjectPlan,
)
    requires
        crate::naming::is_date_text(today),
        is_image_plan(ix, image, today, existing, sep, plan),
    ensures
        ix.settings.root_directory matches Some(root) && {
            let jp = crate::naming::join_prefix(root@, sep);
            &&& plan.folder_path@.len() >= jp.len() + today.len()
            &&& plan.folder_path@.take(jp.len() as int) == jp
            &&& plan.folder_path@.subrange(jp.len() as int, (jp.len() + today.len()) as int) == today
            &&& plan.image_dest@.take(crate::naming::join_prefix(plan.folder_path@, sep).len() as int)
                == crate::naming::join_prefix(plan.folder_path@, sep)
        },
{
    crate::naming::lemma_date_text_is_safe(today);
    let stem = path_stem_or_untitled(image);
    let rest = seq![' '] + stem;
    crate::naming::lemma_sanitize_keeps_prefix(today, rest);
    assert(today + seq![' '] + stem == today + rest);
    let root = ix.settings.root_directory->Some_0;
    lemma_folder_starts_with(root@, today + seq![' '] + stem, sep, project_folders(ix) + strs_view(existing), plan.folder_path@, today);
    let jf = crate::naming::join_prefix(plan.folder_path@, sep);
    assert(plan.image_dest@.take(jf.len() as int) =~= jf);
}

// ----- recording outcomes ------------------------------------------------------------------

/// The configured root directory, which a root sync needs. Refused when none is configured.
pub fn root_to_sync(ix: &Index) -> (r: Result<String, IndexError>)
    ensures
        match ix.settings.root_directory {
            Some(root) => r matches Ok(s) && s@ == root@,
            None => r == Err::<String, IndexError>(IndexError::DirectoriesNotConfigured),
        },
{
    match &ix.settings.root_directory {
        Some(root) => Ok(dup_string(root)),
        None => Err(IndexError::DirectoriesNotConfigured),
    }
}

/// The configured relevant directories, which a sync of them needs. Refused when there are
/// none.
pub fn relevant_to_sync(ix: &Index) -> (r: Result<Vec<String>, IndexError>)
    ensures
        ix.settings.relevant_directories@.len() == 0 ==> r == Err::<Vec<String>, IndexError>(IndexError::DirectoriesNotConfigured),
        ix.settings.relevant_directories@.len() > 0 ==> (r matches Ok(v) && v@ == ix.settings.relevant_directories@),
{
    if ix.settings.relevant_directories.len() == 0 {
        return Err(IndexError::DirectoriesNotConfigured);
    }
    Ok(crate::model::dup_strings(&ix.settings.relevant_directories))
}

/// Stores new settings: the root directory, the relevant directories and the extension rules
/// given; returns them as now stored.
pub fn save_settings(
    ix: &mut Index,
    root: &str,
    relevant_directories: &Vec<String>,
    parent_extensions: &Vec<String>,
    child_extensions: &Vec<String>,
) -> (r: Settings)
    requires
        old(ix).wf(),
    ensures
        final(ix).wf(),
        final(ix).settings.root_directory matches Some(x) && x@ == root@,
        final(ix).settings.relevant_directories@ == relevant_directories@,
        final(ix).settings.extension_rules.parent_extensions@ == parent_extensions@,
        final(ix).settings.extension_rules.child_extensions@ == child_extensions@,
        final(ix).projects == old(ix).projects,
        final(ix).home_files == old(ix).home_files,
        final(ix).child_files == old(ix).child_files,
        r.root_directory == final(ix).settings.root_directory,
        r.relevant_directories@ == relevant_directories@,
        r.extension_rules.parent_extensions@ == parent_extensions@,
        r.extension_rules.child_extensions@ == child_extensions@,
{
    ix.set_root_directory(root);
    ix.replace_relevant_directories(relevant_directories);
    let rules = ExtensionRules {
        parent_extensions: crate::model::dup_strings(parent_extensions),
        child_extensions: crate::model::dup_strings(child_extensions),
    };
    ix.set_extension_rules(&rules);
    ix.get_settings()
}

/// The index after recording project `p` and the walk `entries` of its folder.
pub open spec fn records_new_project(before: Index, after: Index, p: Project, entries: Seq<FileEntry>, rules: ExtensionRules) -> bool {
    &&& after.projects@ == before.projects@.push(p)
    &&& p.id == ProjectId(before.next_project_id)
    &&& !p.archived
    &&& exists|named: Seq<crate::index::ScannedFile>|
        {
            &&& crate::sync::is_home_scan(p.folder_path@, entries, rules, named)
            &&& after.home_files@ == crate::index::mark_home_missing(
                crate::index::upsert_homes(before.home_files@, before.next_home_id, p.id, named).0,
                p.id,
                crate::index::scanned_paths(named),
            )
        }
}

/// Why recording a new project for `folder` with a walk of `n` files is refused, if it is.
pub open spec fn new_project_refusal(ix: Index, folder: Seq<char>, n: nat) -> Option<IndexError> {
    if exists|i: int| 0 <= i < ix.projects@.len() && (#[trigger] ix.projects@[i]).folder_path@ == folder {
        Some(IndexError::FolderTaken)
    } else if ix.next_project_id == i64::MAX || ix.next_home_id + n > i64::MAX {
        Some(IndexError::IdsExhausted)
    } else {
        None
    }
}

fn record_project(
    ix: &mut Index,
    name: &str,
    folder_path: &str,
    seed_filename: Option<&str>,
    seed_basename: Option<&str>,
    now: i64,
    entries: &Vec<FileEntry>,
    rules: &ExtensionRules,
) -> (r: Result<Project, IndexError>)
    requires
        old(ix).wf(),
    ensures
        final(ix).wf(),
        final(ix).settings == old(ix).settings,
        final(ix).child_files == old(ix).child_files,
        match new_project_refusal(*old(ix), folder_path@, entries@.len()) {
            Some(e) => r == Err::<Project, IndexError>(e) && *final(ix) == *old(ix),
            None => r matches Ok(p) && {
                &&& records_new_project(*old(ix), *final(ix), p, entries@, *rules)
                &&& p.name@ == name@
                &&& p.folder_path@ == folder_path@
                &&& opt_string_view(p.seed_filename) == crate::index::opt_str_view(seed_filename)
                &&& opt_string_view(p.seed_basename) == crate::index::opt_str_view(seed_basename)
                &&& p.created_at == now
            },
        },
{
    let ghost start = *ix;
    if ix.folder_path_taken(folder_path) {
        return Err(IndexError::FolderTaken);
    }
    if ix.next_project_id == i64::MAX || ix.next_home_id as i128 + entries.len() as i128 > i64::MAX as i128 {
        return Err(IndexError::IdsExhausted);
    }
    let p = match ix.create_project(name, folder_path, seed_filename, seed_basename, now) {
        Ok(p) => p,
        Err(e) => {
            return Err(e);
        },
    };
    assert(ix.has_project(p.id)) by {
        assert(ix.projects@[ix.projects@.len() - 1] == p);
    }
    let ghost created = *ix;
    match ix.scan_project_home(p.id, p.folder_path.as_str(), entries, rules) {
        Ok(_) => {},
        Err(e) => {
            return Err(e);
        },
    }
    assert(records_new_project(start, *ix, p, entries@, *rules));
    Ok(p)
}

/// Records a project started from scratch as planned, created at `now`, with the walk
/// `entries` of its new folder. Refused (see `new_project_refusal`) when another project
/// already uses the folder or ids would run out; then nothing changes.
pub fn record_project_from_scratch(ix: &mut Index, plan: &ProjectPlan, now: i64, entries: &Vec<FileEntry>, rules: &ExtensionRules) -> (r: Result<Project, IndexError>)
    requires
        old(ix).wf(),
    ensures
        final(ix).wf(),
        final(ix).settings == old(ix).settings,
        final(ix).child_files == old(ix).child_files,
        match new_project_refusal(*old(ix), plan.folder_path@, entries@.len()) {
            Some(e) => r == Err::<Project, IndexError>(e) && *final(ix) == *old(ix),
            None => r matches Ok(p) && {
                &&& records_new_project(*old(ix), *final(ix), p, entries@, *rules)
                &&& p.name@ == plan.name@
                &&& p.folder_path@ == plan.folder_path@
                &&& p.seed_filename is None
                &&& p.seed_basename is None
                &&& p.created_at == now
            },
        },
{
    let ghost start = *ix;
    let r = record_project(ix, plan.name.as_str(), plan.folder_path.as_str(), None, None, now, entries, rules);
    proof {
        if new_project_refusal(start, plan.folder_path@, entries@.len()) is Some {
            assert(*ix == start);
        }
    }
    r
}

/// Records a project started from an image as planned (the image has been moved into its new
/// folder), created at `now`, with the walk `entries` of the folder; unmatched child files are
/// then matched again. Refused (see `new_project_refusal`) when another project already uses
/// the folder or ids would run out; then nothing changes.
pub fn record_project_from_image(
    ix: &mut Index,
    plan: &ImageProjectPlan,
    now: i64,
    entries: &Vec<FileEntry>,
    rules: &ExtensionRules,
) -> (r: Result<Project, IndexError>)
    requires
        old(ix).wf(),
    ensures
        final(ix).wf(),
        final(ix).settings == old(ix).settings,
        match new_project_refusal(*old(ix), plan.folder_path@, entries@.len()) {
            Some(e) => r == Err::<Project, IndexError>(e) && *final(ix) == *old(ix),
            None => r matches Ok(p) && {
                &&& records_new_project(*old(ix), *final(ix), p, entries@, *rules)
                &&& p.name@ == plan.name@
                &&& p.folder_path@ == plan.folder_path@
                &&& p.seed_filename matches Some(s) && s@ == plan.seed_filename@
                &&& p.seed_basename matches Some(s) && s@ == plan.seed_basename@
                &&& p.created_at == now
                &&& final(ix).child_files@ == old(ix).child_files@.map_values(|c: ChildFile| final(ix).rematched(c))
            },
        },
{
    let ghost start = *ix;
    let r = record_project(
        ix,
        plan.name.as_str(),
        plan.folder_path.as_str(),
        Some(plan.seed_filename.as_str()),
        Some(plan.seed_basename.as_str()),
        now,
        entries,
        rules,
    );
    match r {
        Ok(p) => {
            let ghost recorded = *ix;
            let _linked = ix.rematch_child_files();
            proof {
                assert forall|c: ChildFile| recorded.rematched(c) == ix.rematched(c) by {}
                assert(ix.child_files@ =~= start.child_files@.map_values(|c: ChildFile| ix.rematched(c)));
            }
            Ok(p)
        },
        Err(e) => {
            proof {
                assert(*ix == start);
            }
            Err(e)
        },
    }
}

/// Records a rescan of project `pid` whose folder walk met `entries`, then matches unmatched
/// child files again. Refused when no project has id `pid`, or when home-file ids would run
/// out; then nothing changes.
pub fn rescan_project(ix: &mut Index, pid: ProjectId, entries: &Vec<FileEntry>, rules: &ExtensionRules) -> (r: Result<(), IndexError>)
    requires
        old(ix).wf(),
    ensures
        final(ix).wf(),
        !old(ix).has_project(pid) ==> r == Err::<(), IndexError>(IndexError::ProjectNotFound(pid)) && *final(ix) == *old(ix),
        old(ix).has_project(pid) && old(ix).next_home_id + entries@.len() > i64::MAX ==> r == Err::<(), IndexError>(
            IndexError::IdsExhausted,
        ) && *final(ix) == *old(ix),
        old(ix).has_project(pid) && old(ix).next_home_id + entries@.len() <= i64::MAX ==> {
            &&& r == Ok::<(), IndexError>(())
            &&& final(ix).projects == old(ix).projects
            &&& final(ix).settings == old(ix).settings
            &&& exists|p: Project, named: Seq<crate::index::ScannedFile>|
                {
                    &&& old(ix).projects@.contains(p)
                    &&& p.id == pid
                    &&& crate::sync::is_home_scan(p.folder_path@, entries@, *rules, named)
                    &&& final(ix).home_files@ == crate::index::mark_home_missing(
                        crate::index::upsert_homes(old(ix).home_files@, old(ix).next_home_id, pid, named).0,
                        pid,
                        crate::index::scanned_paths(named),
                    )
                }
            &&& final(ix).child_files@ == old(ix).child_files@.map_values(|c: ChildFile| final(ix).rematched(c))
        },
{
    let ghost start = *ix;
    let p = match ix.get_project(pid) {
        Some(p) => p,
        None => {
            return Err(IndexError::ProjectNotFound(pid));
        },
    };
    match ix.scan_project_home(pid, p.folder_path.as_str(), entries, rules) {
        Ok(_) => {},
        Err(e) => {
            return Err(e);
        },
    }
    let ghost scanned = *ix;
    let _linked = ix.rematch_child_files();
    proof {
        assert forall|c: ChildFile| scanned.rematched(c) == ix.rematched(c) by {}
        assert(ix.child_files@ =~= start.child_files@.map_values(|c: ChildFile| ix.rematched(c)));
        let i = choose|i: int| 0 <= i < start.projects@.len() && start.projects@[i] == p && p.id == pid;
        assert(start.projects@.contains(p));
    }
    Ok(())
}

/// What moving a matched child file into its project involves.
#[derive(Debug, Clone)]
pub struct ChildMove {
    pub child_file_id: ChildFileId,
    pub project_id: ProjectId,
    /// The project's folder, to be created if missing.
    pub folder_path: String,
    /// Where the file is now.
    pub source: String,
    /// Where it lands.
    pub dest: String,
}

/// The first free destination for `name` in `dir` (see `destination_candidate`), `existing`
/// being the paths that exist on disk.
pub open spec fn is_first_free_destination(dir: Seq<char>, name: Seq<char>, sep: char, existing: Seq<Seq<char>>, r: Seq<char>) -> bool {
    exists|k: nat|
        {
            &&& k >= 1
            &&& r == destination_candidate(dir, name, sep, k)
            &&& !existing.contains(r)
            &&& forall|m: nat| 1 <= m < k ==> existing.contains(#[trigger] destination_candidate(dir, name, sep, m))
        }
}

/// Plans moving child file `id` into the project it is matched to: the file lands in the
/// project's folder under the first free name for its file name (`existing` holds the paths
/// that exist on disk). Refused when there is no such child file or it is not matched, or when
/// the project it is matched to is gone.
pub fn plan_child_move(ix: &Index, id: ChildFileId, existing: &Vec<String>, sep: char) -> (r: Result<ChildMove, IndexError>)
    requires
        ix.wf(),
    ensures
        (forall|i: int| 0 <= i < ix.child_files@.len() ==> (#[trigger] ix.child_files@[i]).id != id) ==> r == Err::<
            ChildMove,
            IndexError,
        >(IndexError::ChildFileNotFound(id)),
        forall|i: int|
            0 <= i < ix.child_files@.len() && (#[trigger] ix.child_files@[i]).id == id ==> {
                let c = ix.child_files@[i];
                match c.matched_project_id {
                    None => r == Err::<ChildMove, IndexError>(IndexError::ChildFileNotFound(id)),
                    Some(pid) => r matches Ok(m) && {
                        &&& m.child_file_id == id
                        &&& m.project_id == pid
                        &&& m.source@ == c.abs_path@
                        &&& exists|j: int|
                            0 <= j < ix.projects@.len() && (#[trigger] ix.projects@[j]).id == pid
                                && m.folder_path@ == ix.projects@[j].folder_path@
                        &&& is_first_free_destination(m.folder_path@, c.file_name@, sep, strs_view(existing@), m.dest@)
                    },
                }
            },
{
    let c = match ix.get_child_file(id) {
        Some(c) => c,
        None => {
            return Err(IndexError::ChildFileNotFound(id));
        },
    };
    let ghost ci = choose|i: int| 0 <= i < ix.child_files@.len() && ix.child_files@[i] == c && c.id == id;
    proof {
        assert forall|i: int| 0 <= i < ix.child_files@.len() && (#[trigger] ix.child_files@[i]).id == id implies i == ci by {
            if i != ci {
                assert(ix.child_files@[i].id != ix.child_files@[ci].id);
            }
        }
    }
    let pid = match c.matched_project_id {
        Some(pid) => pid,
        None => {
            return Err(IndexError::ChildFileNotFound(id));
        },
    };
    let p = match ix.get_project(pid) {
        Some(p) => p,
        None => {
            proof {
                assert(ix.has_active_project(pid));
            }
            return Err(IndexError::ProjectNotFound(pid));
        },
    };
    let dest = unique_destination(p.folder_path.as_str(), c.file_name.as_str(), sep, existing);
    Ok(
        ChildMove {
            child_file_id: id,
            project_id: pid,
            folder_path: dup_string(&p.folder_path),
            source: dup_string(&c.abs_path),
            dest: dest,
        },
    )
}

/// The project `pid` and the child files to move into it (its present matched child files,
/// ordered by file name; see `child_files_matched_to_project`). Refused when no project has id
/// `pid`.
pub fn plan_move_all(ix: &Index, pid: ProjectId) -> (r: Result<(Project, Vec<ChildFile>), IndexError>)
    requires
        ix.wf(),
    ensures
        !ix.has_project(pid) ==> r == Err::<(Project, Vec<ChildFile>), IndexError>(IndexError::ProjectNotFound(pid)),
        ix.has_project(pid) ==> (r matches Ok(pair) && {
            &&& ix.projects@.contains(pair.0)
            &&& pair.0.id == pid
            &&& exists|perm: Seq<usize>|
                crate::order::is_stable_text_order(crate::index::child_names(ix.matched_children(pid)), perm)
                    && pair.1@ == crate::index::arranged(ix.matched_children(pid), perm)
        }),
{
    let p = match ix.get_project(pid) {
        Some(p) => p,
        None => {
            return Err(IndexError::ProjectNotFound(pid));
        },
    };
    proof {
        let i = choose|i: int| 0 <= i < ix.projects@.len() && ix.projects@[i] == p && p.id == pid;
        assert(ix.projects@.contains(p));
    }
    let matched = ix.child_files_matched_to_project(pid);
    Ok((p, matched))
}

} // verus!
