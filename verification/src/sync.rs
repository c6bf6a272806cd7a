//! Keeping the index in step with the file system: recording the walk of a project's folder or
//! of the relevant directories, and syncing the root directory (adopting untracked folders,
//! archiving projects whose folder is gone, healing misdetected seeds, rescanning).
//!
//! The walks themselves are done by the caller; these functions take what they found.
use vstd::prelude::*;
use crate::index::{
    opt_str_view, mark_children_missing, mark_home_missing, opt_string_view, scanned_child_paths, scanned_paths, upsert_children,
    upsert_homes, Index, IndexError, ScannedChildFile, ScannedFile,
};
use crate::model::{ChildFile, ExtensionRules};
use crate::naming::{spec_base_name, spec_file_stem};
use crate::scanner::{assign_home_base_names, child_only_stems, ext_lower_of, ext_lower_or_empty, spec_parent_base_name};
use crate::text::{chars_of, string_of};

verus! {

broadcast use {vstd::seq_lib::group_seq_properties, vstd::seq_lib::group_filter_ensures};

/// A regular file met by a walk of a directory tree.
#[derive(Debug, Clone)]
pub struct FileEntry {
    pub abs_path: String,
    pub file_name: String,
    pub size_bytes: u64,
    pub created_at: i64,
    pub modified_at: i64,
}

/// What `path` is relative to `root`, as `std::path::Path::strip_prefix` computes it, or
/// nothing when `root` is not a prefix of `path`.
pub uninterp spec fn stripped_path(path: Seq<char>, root: Seq<char>) -> Option<Seq<char>>;

/// Calls `std::path::Path::strip_prefix`; trusted to give `stripped_path` of its arguments
/// (the inputs are valid UTF-8, so the lossy conversion of the result loses nothing).
#[verifier::external_body]
fn strip_path_prefix(path: &str, root: &str) -> (r: Option<String>)
    ensures
        opt_string_view(r) == stripped_path(path@, root@),
{
    match std::path::Path::new(path).strip_prefix(root) {
        Ok(p) => Some(p.to_string_lossy().into_owned()),
        Err(_) => None,
    }
}

/// `s` with every backslash turned into a forward slash.
pub open spec fn forward_slashes(s: Seq<char>) -> Seq<char> {
    s.map_values(|c: char| if c == '\\' { '/' } else { c })
}

fn to_forward_slashes(s: &str) -> (r: String)
    ensures
        r@ == forward_slashes(s@),
{
    let v = chars_of(s);
    let mut out: Vec<char> = Vec::new();
    for i in 0..v.len()
        invariant
            out@ == forward_slashes(v@.take(i as int)),
    {
        let c = if v[i] == '\\' {
            '/'
        } else {
            v[i]
        };
        out.push(c);
        assert(forward_slashes(v@.take(i + 1)) =~= forward_slashes(v@.take(i as int)).push(c));
    }
    assert(v@.take(v@.len() as int) == v@);
    string_of(&out)
}

/// The path of a file inside `root` as it is recorded: relative to `root` when it lies under
/// it (else the whole path), with forward slashes.
pub open spec fn recorded_relative_path(root: Seq<char>, path: Seq<char>) -> Seq<char> {
    match stripped_path(path, root) {
        Some(rel) => forward_slashes(rel),
        None => forward_slashes(path),
    }
}

/// `f` records entry `e` of a walk of `root`, before any base name is assigned.
pub open spec fn is_home_record(root: Seq<char>, e: FileEntry, f: ScannedFile) -> bool {
    &&& f.abs_path@ == e.abs_path@
    &&& f.relative_path@ == recorded_relative_path(root, e.abs_path@)
    &&& f.file_name@ == e.file_name@
    &&& f.ext@ == ext_lower_or_empty(e.file_name@)
    &&& f.size_bytes == e.size_bytes
    &&& f.created_at == e.created_at
    &&& f.modified_at == e.modified_at
    &&& f.base_name is None
}

/// The record of one file met by a walk of `root`.
pub fn home_scan_entry(root: &str, e: &FileEntry) -> (f: ScannedFile)
    ensures
        is_home_record(root@, *e, f),
{
    let rel = match strip_path_prefix(e.abs_path.as_str(), root) {
        Some(r) => to_forward_slashes(r.as_str()),
        None => to_forward_slashes(e.abs_path.as_str()),
    };
    ScannedFile {
        abs_path: string_of(&chars_of(e.abs_path.as_str())),
        relative_path: rel,
        file_name: string_of(&chars_of(e.file_name.as_str())),
        ext: ext_lower_of(e.file_name.as_str()),
        size_bytes: e.size_bytes,
        created_at: e.created_at,
        modified_at: e.modified_at,
        base_name: None,
    }
}

/// `out` is `files` with each file's base name set as the home files of a folder get it (see
/// `spec_parent_base_name`).
pub open spec fn base_names_assigned(files: Seq<ScannedFile>, rules: ExtensionRules, out: Seq<ScannedFile>) -> bool {
    &&& out.len() == files.len()
    &&& forall|i: int|
        0 <= i < files.len() ==> {
            let f = #[trigger] files[i];
            &&& out[i] == ScannedFile { base_name: out[i].base_name, ..f }
            &&& opt_string_view(out[i].base_name) == spec_parent_base_name(
                f.file_name@,
                f.ext@,
                rules,
                child_only_stems(files, rules),
            )
        }
}

/// `out` is what a walk of `root` that met `entries` records for the folder's home files.
pub open spec fn is_home_scan(root: Seq<char>, entries: Seq<FileEntry>, rules: ExtensionRules, out: Seq<ScannedFile>) -> bool {
    exists|pre: Seq<ScannedFile>|
        {
            &&& pre.len() == entries.len()
            &&& forall|i: int| 0 <= i < entries.len() ==> is_home_record(root, #[trigger] entries[i], pre[i])
            &&& base_names_assigned(pre, rules, out)
        }
}

/// The home-file records of a walk of `root` that met `entries`, with base names assigned.
pub fn collect_home_files(root: &str, entries: &Vec<FileEntry>, rules: &ExtensionRules) -> (r: Vec<ScannedFile>)
    ensures
        is_home_scan(root@, entries@, *rules, r@),
        r@.len() == entries@.len(),
        scanned_paths(r@) == entries@.map_values(|e: FileEntry| e.abs_path@),
{
    let mut pre: Vec<ScannedFile> = Vec::new();
    for i in 0..entries.len()
        invariant
            pre@.len() == i,
            forall|j: int| 0 <= j < i ==> is_home_record(root@, #[trigger] entries@[j], pre@[j]),
    {
        pre.push(home_scan_entry(root, &entries[i]));
    }
    let r = assign_home_base_names(&pre, rules);
    assert(base_names_assigned(pre@, *rules, r@));
    assert(scanned_paths(r@) =~= entries@.map_values(|e: FileEntry| e.abs_path@)) by {
        assert forall|i: int| 0 <= i < r@.len() implies scanned_paths(r@)[i] == entries@[i].abs_path@ by {
            assert(is_home_record(root@, entries@[i], pre@[i]));
            assert(r@[i].abs_path == pre@[i].abs_path);
        }
    }
    r
}

/// `c` records entry `e` of a walk of a relevant directory.
pub open spec fn is_child_record(e: FileEntry, c: ScannedChildFile) -> bool {
    &&& c.abs_path@ == e.abs_path@
    &&& c.file_name@ == e.file_name@
    &&& c.ext@ == ext_lower_or_empty(e.file_name@)
    &&& c.base_name@ == spec_base_name(
        match spec_file_stem(e.file_name@) {
            Some(s) => s,
            None => Seq::empty(),
        },
    )
    &&& c.size_bytes == e.size_bytes
    &&& c.created_at == e.created_at
    &&& c.modified_at == e.modified_at
}

/// The entry has a child extension.
pub open spec fn is_child_entry(e: FileEntry, rules: ExtensionRules) -> bool {
    rules.spec_is_child(ext_lower_or_empty(e.file_name@))
}

/// The child-file records of a walk of the relevant directories: one for each entry with a
/// child extension, in walk order.
pub fn collect_relevant_files(entries: &Vec<FileEntry>, rules: &ExtensionRules) -> (r: Vec<ScannedChildFile>)
    ensures
        r@.len() == entries@.filter(|e: FileEntry| is_child_entry(e, *rules)).len(),
        forall|i: int|
            0 <= i < r@.len() ==> is_child_record(
                entries@.filter(|e: FileEntry| is_child_entry(e, *rules))[i],
                #[trigger] r@[i],
            ),
{
    let ghost pred = |e: FileEntry| is_child_entry(e, *rules);
    let mut out: Vec<ScannedChildFile> = Vec::new();
    for i in 0..entries.len()
        invariant
            pred == (|e: FileEntry| is_child_entry(e, *rules)),
            out@.len() == entries@.take(i as int).filter(pred).len(),
            forall|j: int| 0 <= j < out@.len() ==> is_child_record(entries@.take(i as int).filter(pred)[j], #[trigger] out@[j]),
    {
        proof {
            assert(entries@.take(i + 1) == entries@.take(i as int).push(entries@[i as int]));
            entries@.take(i as int).lemma_filter_push(entries@[i as int], pred);
        }
        let e = &entries[i];
        match crate::scanner::child_scan_entry(
            e.abs_path.as_str(),
            e.file_name.as_str(),
            e.size_bytes,
            e.created_at,
            e.modified_at,
            rules,
        ) {
            Some(c) => {
                out.push(c);
            },
            None => {},
        }
    }
    assert(entries@.take(entries@.len() as int) == entries@);
    out
}

impl Index {
    /// Records a walk of project `pid`'s folder `root` that met `entries` (see `collect_home_files`
    /// and `reconcile_home_files`), returning how many files were met. Refused when no project
    /// has id `pid`, or when the remaining home-file ids might not suffice; then nothing changes.
    pub fn scan_project_home(&mut self, pid: crate::model::ProjectId, root: &str, entries: &Vec<FileEntry>, rules: &ExtensionRules) -> (r: Result<usize, IndexError>)
        requires
            old(self).wf(),
        ensures
            final(self).wf(),
            !old(self).has_project(pid) ==> r == Err::<usize, IndexError>(IndexError::ProjectNotFound(pid))
                && *final(self) == *old(self),
            old(self).has_project(pid) && old(self).next_home_id + entries@.len() > i64::MAX ==> r == Err::<
                usize,
                IndexError,
            >(IndexError::IdsExhausted) && *final(self) == *old(self),
            old(self).has_project(pid) && old(self).next_home_id + entries@.len() <= i64::MAX ==> {
                &&& r == Ok::<usize, IndexError>(entries@.len() as usize)
                &&& exists|named: Seq<ScannedFile>|
                    {
                        &&& is_home_scan(root@, entries@, *rules, named)
                        &&& final(self).home_files@ == mark_home_missing(
                            upsert_homes(old(self).home_files@, old(self).next_home_id, pid, named).0,
                            pid,
                            scanned_paths(named),
                        )
                        &&& final(self).next_home_id == upsert_homes(
                            old(self).home_files@,
                            old(self).next_home_id,
                            pid,
                            named,
                        ).1
                    }
                &&& final(self).next_home_id <= old(self).next_home_id + entries@.len()
                &&& final(self).settings == old(self).settings
                &&& final(self).projects == old(self).projects
                &&& final(self).child_files == old(self).child_files
                &&& final(self).next_project_id == old(self).next_project_id
                &&& final(self).next_child_id == old(self).next_child_id
            },
    {
        let named = collect_home_files(root, entries, rules);
        let res = self.reconcile_home_files(pid, &named);
        match res {
            Ok(()) => Ok(entries.len()),
            Err(e) => Err(e),
        }
    }

    /// Records a walk of the relevant directories that met `entries`: the files with a child
    /// extension are reconciled with the child files (see `reconcile_child_files`) and unmatched
    /// child files are then matched (see `rematch_child_files`). Returns how many child files
    /// were met. Refused when the remaining child-file ids might not suffice; then nothing
    /// changes.
    pub fn scan_relevant_directories(&mut self, entries: &Vec<FileEntry>, rules: &ExtensionRules) -> (r: Result<usize, IndexError>)
        requires
            old(self).wf(),
        ensures
            final(self).wf(),
            ({
                let found = entries@.filter(|e: FileEntry| is_child_entry(e, *rules));
                &&& old(self).next_child_id + found.len() > i64::MAX ==> r == Err::<usize, IndexError>(
                    IndexError::IdsExhausted,
                ) && *final(self) == *old(self)
                &&& old(self).next_child_id + found.len() <= i64::MAX ==> {
                    &&& r == Ok::<usize, IndexError>(found.len() as usize)
                    &&& exists|sc: Seq<ScannedChildFile>|
                        {
                            &&& sc.len() == found.len()
                            &&& forall|i: int| 0 <= i < sc.len() ==> is_child_record(found[i], #[trigger] sc[i])
                            &&& final(self).child_files@ == mark_children_missing(
                                upsert_children(old(self).child_files@, old(self).next_child_id, sc).0,
                                scanned_child_paths(sc),
                            ).map_values(|c: ChildFile| old(self).rematched(c))
                            &&& final(self).next_child_id == upsert_children(
                                old(self).child_files@,
                                old(self).next_child_id,
                                sc,
                            ).1
                        }
                    &&& final(self).settings == old(self).settings
                    &&& final(self).projects == old(self).projects
                    &&& final(self).home_files == old(self).home_files
                    &&& final(self).next_project_id == old(self).next_project_id
                    &&& final(self).next_home_id == old(self).next_home_id
                }
            }),
    {
        let sc = collect_relevant_files(entries, rules);
        let ghost before = *self;
        match self.reconcile_child_files(&sc) {
            Ok(()) => {},
            Err(e) => {
                return Err(e);
            },
        }
        let ghost mid = *self;
        let _linked = self.rematch_child_files();
        proof {
            assert forall|c: ChildFile| mid.rematched(c) == before.rematched(c) by {
                assert(mid.projects@ == before.projects@);
                assert(mid.home_files@ == before.home_files@);
            }
            assert(self.child_files@ =~= mark_children_missing(
                upsert_children(before.child_files@, before.next_child_id, sc@).0,
                scanned_child_paths(sc@),
            ).map_values(|c: ChildFile| before.rematched(c)));
        }
        Ok(sc.len())
    }
}

// ----- syncing the root directory -----------------------------------------------------------

/// A folder as found on disk: its path, its own name, whether it is a directory, the names of
/// the files directly inside it, and the files met by a walk of it.
#[derive(Debug, Clone)]
pub struct FolderSnapshot {
    pub path: String,
    pub name: String,
    pub is_dir: bool,
    pub top_level_files: Vec<String>,
    pub files: Vec<FileEntry>,
}

/// Snapshot `k` is a directory at `path`.
pub open spec fn dir_at(snaps: Seq<FolderSnapshot>, path: Seq<char>, k: int) -> bool {
    0 <= k < snaps.len() && snaps[k].path@ == path && snaps[k].is_dir
}

/// Snapshot `k` is the first directory at `path`.
pub open spec fn first_dir_at(snaps: Seq<FolderSnapshot>, path: Seq<char>, k: int) -> bool {
    dir_at(snaps, path, k) && forall|j: int| 0 <= j < k ==> !dir_at(snaps, path, j)
}

/// The directory found at `path`: the first among `roots`, else the first among `others`.
pub open spec fn dir_lookup(roots: Seq<FolderSnapshot>, others: Seq<FolderSnapshot>, path: Seq<char>) -> Option<FolderSnapshot> {
    if exists|k: int| dir_at(roots, path, k) {
        Some(roots[choose|k: int| first_dir_at(roots, path, k)])
    } else if exists|k: int| dir_at(others, path, k) {
        Some(others[choose|k: int| first_dir_at(others, path, k)])
    } else {
        None
    }
}

proof fn lemma_first_dir_unique(snaps: Seq<FolderSnapshot>, path: Seq<char>, a: int, b: int)
    requires
        first_dir_at(snaps, path, a),
        first_dir_at(snaps, path, b),
    ensures
        a == b,
{
    if a < b {
        assert(!dir_at(snaps, path, a));
    } else if b < a {
        assert(!dir_at(snaps, path, b));
    }
}

fn find_dir(snaps: &Vec<FolderSnapshot>, path: &String) -> (r: Option<usize>)
    ensures
        match r {
            Some(k) => first_dir_at(snaps@, path@, k as int),
            None => !exists|k: int| dir_at(snaps@, path@, k),
        },
{
    for k in 0..snaps.len()
        invariant
            forall|j: int| 0 <= j < k ==> !dir_at(snaps@, path@, j),
    {
        if snaps[k].is_dir && snaps[k].path == *path {
            return Some(k);
        }
    }
    None
}

fn lookup_dir<'a>(roots: &'a Vec<FolderSnapshot>, others: &'a Vec<FolderSnapshot>, path: &String) -> (r: Option<&'a FolderSnapshot>)
    ensures
        match r {
            Some(s) => dir_lookup(roots@, others@, path@) == Some(*s),
            None => dir_lookup(roots@, others@, path@) is None,
        },
{
    match find_dir(roots, path) {
        Some(k) => {
            proof {
                let c = choose|k: int| first_dir_at(roots@, path@, k);
                lemma_first_dir_unique(roots@, path@, c, k as int);
            }
            Some(&roots[k])
        },
        None => match find_dir(others, path) {
            Some(k) => {
                proof {
                    let c = choose|k: int| first_dir_at(others@, path@, k);
                    lemma_first_dir_unique(others@, path@, c, k as int);
                }
                Some(&others[k])
            },
            None => None,
        },
    }
}

/// Project `p` was adopted from root entry `e`: named after it, for its folder, with the seed
/// found among its top-level files.
pub open spec fn adopted_from(p: crate::model::Project, e: FolderSnapshot, rules: ExtensionRules) -> bool {
    &&& e.path@ == p.folder_path@
    &&& e.name@ == p.name@
    &&& opt_string_view(p.seed_filename) == crate::scanner::folder_seed(crate::model::strs_view(e.top_level_files@), rules).0
    &&& opt_string_view(p.seed_basename) == crate::scanner::folder_seed(crate::model::strs_view(e.top_level_files@), rules).1
}

/// Some project of `projects`, archived or not, has `path` as its folder.
pub open spec fn folder_in_use(projects: Seq<crate::model::Project>, path: Seq<char>) -> bool {
    exists|j: int| 0 <= j < projects.len() && (#[trigger] projects[j]).folder_path@ == path
}

/// Entry `e` of the root directory is a directory that no project (not archived) of `ix` uses
/// as its folder.
pub open spec fn is_untracked(ix: Index, e: FolderSnapshot) -> bool {
    e.is_dir && !exists|j: int|
        0 <= j < ix.projects@.len() && !(#[trigger] ix.projects@[j]).archived && ix.projects@[j].folder_path@ == e.path@
}

/// How many of the first `q` entries of `entries` are untracked in `ix` (see `is_untracked`).
pub open spec fn untracked_before(ix: Index, entries: Seq<FolderSnapshot>, q: int) -> nat {
    entries.take(q).filter(|e: FolderSnapshot| is_untracked(ix, e)).len()
}

/// Why adopting entry `q` of `entries` into `ix` is refused, if it is: the entry is untracked
/// and its folder is in use by a project of `ix` or by an untracked entry before it
/// (`FolderTaken`), or project ids run out after the adoptions before it (`IdsExhausted`).
pub open spec fn adoption_refusal(ix: Index, entries: Seq<FolderSnapshot>, q: int) -> Option<IndexError> {
    if !is_untracked(ix, entries[q]) {
        None
    } else if folder_in_use(ix.projects@, entries[q].path@) || exists|p: int|
        0 <= p < q && is_untracked(ix, #[trigger] entries[p]) && entries[p].path@ == entries[q].path@ {
        Some(IndexError::FolderTaken)
    } else if ix.next_project_id + untracked_before(ix, entries, q) >= i64::MAX {
        Some(IndexError::IdsExhausted)
    } else {
        None
    }
}

/// Adopting the entries of `entries` into `ix`, in order, is first refused at entry `q`.
pub open spec fn first_refusal(ix: Index, entries: Seq<FolderSnapshot>, q: int) -> bool {
    &&& 0 <= q < entries.len()
    &&& adoption_refusal(ix, entries, q) is Some
    &&& forall|p: int| 0 <= p < q ==> (#[trigger] adoption_refusal(ix, entries, p)) is None
}

impl Index {
    fn active_folders(&self) -> (r: Vec<String>)
        ensures
            forall|x: Seq<char>|
                crate::model::strs_view(r@).contains(x) <==> exists|j: int|
                    0 <= j < self.projects@.len() && !(#[trigger] self.projects@[j]).archived && self.projects@[j].folder_path@
                        == x,
    {
        let mut out: Vec<String> = Vec::new();
        for i in 0..self.projects.len()
            invariant
                forall|x: Seq<char>|
                    crate::model::strs_view(out@).contains(x) <==> exists|j: int|
                        0 <= j < i && !(#[trigger] self.projects@[j]).archived && self.projects@[j].folder_path@ == x,
        {
            let ghost before = out@;
            if !self.projects[i].archived {
                out.push(self.projects[i].folder_path.clone());
                assert(crate::model::strs_view(out@) =~= crate::model::strs_view(before).push(self.projects@[i as int].folder_path@));
            } else {
                assert(out@ == before);
            }
            assert forall|x: Seq<char>|
                crate::model::strs_view(out@).contains(x) <==> exists|j: int|
                    0 <= j < i + 1 && !(#[trigger] self.projects@[j]).archived && self.projects@[j].folder_path@ == x by {
                if crate::model::strs_view(out@).contains(x) {
                    if !crate::model::strs_view(before).contains(x) {
                        assert(crate::model::strs_view(out@).last() == x) by {
                            let t = choose|t: int| 0 <= t < crate::model::strs_view(out@).len() && crate::model::strs_view(out@)[t] == x;
                            if t < before.len() {
                                assert(crate::model::strs_view(before)[t] == x);
                            }
                        }
                    }
                }
                if exists|j: int| 0 <= j < i + 1 && !(#[trigger] self.projects@[j]).archived && self.projects@[j].folder_path@ == x {
                    if !exists|j: int| 0 <= j < i && !(#[trigger] self.projects@[j]).archived && self.projects@[j].folder_path@ == x {
                        assert(crate::model::strs_view(out@)[before.len() as int] == x);
                    } else {
                        let t = choose|t: int| 0 <= t < crate::model::strs_view(before).len() && crate::model::strs_view(before)[t] == x;
                        assert(crate::model::strs_view(out@)[t] == x);
                    }
                }
            }
        }
        out
    }

    /// Creates the project for an untracked folder: named after it, created at `now`, with the
    /// seed found among its top-level files. Refused when some project already uses the folder,
    /// or when project ids are used up.
    fn adopt_folder(&mut self, e: &FolderSnapshot, rules: &ExtensionRules, now: i64) -> (r: Result<(), IndexError>)
        requires
            old(self).wf(),
        ensures
            final(self).wf(),
            final(self).settings == old(self).settings,
            final(self).home_files == old(self).home_files,
            final(self).child_files == old(self).child_files,
            final(self).next_home_id == old(self).next_home_id,
            final(self).next_child_id == old(self).next_child_id,
            folder_in_use(old(self).projects@, e.path@) ==> r == Err::<(), IndexError>(IndexError::FolderTaken),
            !folder_in_use(old(self).projects@, e.path@) && old(self).next_project_id == i64::MAX ==> r == Err::<
                (),
                IndexError,
            >(IndexError::IdsExhausted),
            !folder_in_use(old(self).projects@, e.path@) && old(self).next_project_id < i64::MAX ==> r is Ok,
            r is Err ==> final(self).projects == old(self).projects && final(self).next_project_id == old(self).next_project_id,
            r is Ok ==> final(self).projects@.len() == old(self).projects@.len() + 1 && final(self).projects@.drop_last()
                == old(self).projects@ && !final(self).projects@.last().archived && final(self).projects@.last().created_at
                == now && adopted_from(final(self).projects@.last(), *e, *rules) && final(self).next_project_id == old(
                self,
            ).next_project_id + 1 && final(self).projects@.last().id.0 == old(self).next_project_id,
    {
        let (sf, sb) = crate::scanner::seed_from_entries(&e.top_level_files, rules);
        let sfr: Option<&str> = match &sf {
            Some(x) => Some(x.as_str()),
            None => None,
        };
        let sbr: Option<&str> = match &sb {
            Some(x) => Some(x.as_str()),
            None => None,
        };
        match self.create_project(e.name.as_str(), e.path.as_str(), sfr, sbr, now) {
            Ok(_) => {
                assert(self.projects@.drop_last() =~= old(self).projects@);
                Ok(())
            },
            Err(x) => Err(x),
        }
    }

    proof fn lemma_adopted_step(&self, before: Index, start: Index, roots: Seq<FolderSnapshot>, k: int, now: i64, rules: ExtensionRules)
        requires
            0 <= k < roots.len(),
            is_untracked(start, roots[k]),
            self.projects@.len() == before.projects@.len() + 1,
            self.projects@.drop_last() == before.projects@,
            !self.projects@.last().archived,
            self.projects@.last().created_at == now,
            adopted_from(self.projects@.last(), roots[k], rules),
            before.projects@.len() >= start.projects@.len(),
            forall|j: int|
                start.projects@.len() <= j < before.projects@.len() ==> {
                    &&& !(#[trigger] before.projects@[j]).archived
                    &&& before.projects@[j].created_at == now
                    &&& exists|q: int|
                        0 <= q < k && is_untracked(start, #[trigger] roots[q]) && adopted_from(
                            before.projects@[j],
                            roots[q],
                            rules,
                        )
                },
            forall|q: int|
                0 <= q < k && (#[trigger] roots[q]).is_dir ==> exists|j: int|
                    0 <= j < before.projects@.len() && !(#[trigger] before.projects@[j]).archived
                        && before.projects@[j].folder_path@ == roots[q].path@,
            forall|q: int|
                0 <= q < k && is_untracked(start, #[trigger] roots[q]) ==> exists|j: int|
                    start.projects@.len() <= j < before.projects@.len() && (#[trigger] before.projects@[j]).folder_path@
                        == roots[q].path@,
        ensures
            forall|j: int| 0 <= j < before.projects@.len() ==> #[trigger] self.projects@[j] == before.projects@[j],
            forall|j: int|
                start.projects@.len() <= j < self.projects@.len() ==> {
                    &&& !(#[trigger] self.projects@[j]).archived
                    &&& self.projects@[j].created_at == now
                    &&& exists|q: int|
                        0 <= q < k + 1 && is_untracked(start, #[trigger] roots[q]) && adopted_from(
                            self.projects@[j],
                            roots[q],
                            rules,
                        )
                },
            forall|q: int|
                0 <= q < k + 1 && (#[trigger] roots[q]).is_dir ==> exists|j: int|
                    0 <= j < self.projects@.len() && !(#[trigger] self.projects@[j]).archived
                        && self.projects@[j].folder_path@ == roots[q].path@,
            forall|q: int|
                0 <= q < k + 1 && is_untracked(start, #[trigger] roots[q]) ==> exists|j: int|
                    start.projects@.len() <= j < self.projects@.len() && (#[trigger] self.projects@[j]).folder_path@
                        == roots[q].path@,
    {
        let newj: int = before.projects@.len() as int;
        assert forall|j: int| 0 <= j < before.projects@.len() implies #[trigger] self.projects@[j] == before.projects@[j] by {
            assert(self.projects@.drop_last()[j] == self.projects@[j]);
        }
        assert forall|q: int|
            0 <= q < k + 1 && (#[trigger] roots[q]).is_dir implies exists|j: int|
                0 <= j < self.projects@.len() && !(#[trigger] self.projects@[j]).archived
                    && self.projects@[j].folder_path@ == roots[q].path@ by {
            if q < k {
                let j = choose|j: int|
                    0 <= j < before.projects@.len() && !(#[trigger] before.projects@[j]).archived
                        && before.projects@[j].folder_path@ == roots[q].path@;
                assert(self.projects@[j] == before.projects@[j]);
            } else {
                assert(self.projects@[newj].folder_path@ == roots[q].path@);
            }
        }
        assert forall|q: int|
            0 <= q < k + 1 && is_untracked(start, #[trigger] roots[q]) implies exists|j: int|
                start.projects@.len() <= j < self.projects@.len() && (#[trigger] self.projects@[j]).folder_path@
                    == roots[q].path@ by {
            if q < k {
                let j = choose|j: int|
                    start.projects@.len() <= j < before.projects@.len() && (#[trigger] before.projects@[j]).folder_path@
                        == roots[q].path@;
                assert(self.projects@[j] == before.projects@[j]);
            } else {
                assert(self.projects@[newj].folder_path@ == roots[q].path@);
            }
        }
        assert forall|j: int| start.projects@.len() <= j < self.projects@.len() implies {
            &&& !(#[trigger] self.projects@[j]).archived
            &&& self.projects@[j].created_at == now
            &&& exists|q: int|
                0 <= q < k + 1 && is_untracked(start, #[trigger] roots[q]) && adopted_from(self.projects@[j], roots[q], rules)
        } by {
            if j < newj {
                assert(self.projects@[j] == before.projects@[j]);
            } else {
                assert(adopted_from(self.projects@[j], roots[k], rules));
            }
        }
    }

    /// While adopting the entries of `roots` into `start` in order, with the adoptions before
    /// entry `k` done and giving `cur`, the folder of entry `k` is in use in `cur` exactly when
    /// adopting it is refused for that reason.
    proof fn lemma_folder_in_use_now(cur: Index, start: Index, roots: Seq<FolderSnapshot>, k: int, rules: ExtensionRules)
        requires
            0 <= k < roots.len(),
            cur.projects@.len() >= start.projects@.len(),
            forall|j: int| 0 <= j < start.projects@.len() ==> #[trigger] cur.projects@[j] == start.projects@[j],
            forall|j: int|
                start.projects@.len() <= j < cur.projects@.len() ==> {
                    &&& !(#[trigger] cur.projects@[j]).archived
                    &&& exists|q: int|
                        0 <= q < k && is_untracked(start, #[trigger] roots[q]) && adopted_from(cur.projects@[j], roots[q], rules)
                },
            forall|q: int|
                0 <= q < k && is_untracked(start, #[trigger] roots[q]) ==> exists|j: int|
                    start.projects@.len() <= j < cur.projects@.len() && (#[trigger] cur.projects@[j]).folder_path@
                        == roots[q].path@,
        ensures
            folder_in_use(cur.projects@, roots[k].path@) == (folder_in_use(start.projects@, roots[k].path@) || exists|p: int|
                0 <= p < k && is_untracked(start, #[trigger] roots[p]) && roots[p].path@ == roots[k].path@),
    {
        let path = roots[k].path@;
        if folder_in_use(cur.projects@, path) {
            let j = choose|j: int| 0 <= j < cur.projects@.len() && (#[trigger] cur.projects@[j]).folder_path@ == path;
            if j < start.projects@.len() {
                assert(start.projects@[j].folder_path@ == path);
            } else {
                let q = choose|q: int|
                    0 <= q < k && is_untracked(start, #[trigger] roots[q]) && adopted_from(cur.projects@[j], roots[q], rules);
                assert(roots[q].path@ == path);
            }
        }
        if folder_in_use(start.projects@, path) {
            let j = choose|j: int| 0 <= j < start.projects@.len() && (#[trigger] start.projects@[j]).folder_path@ == path;
            assert(cur.projects@[j] == start.projects@[j]);
        }
        if exists|p: int| 0 <= p < k && is_untracked(start, #[trigger] roots[p]) && roots[p].path@ == path {
            let p = choose|p: int| 0 <= p < k && is_untracked(start, #[trigger] roots[p]) && roots[p].path@ == path;
            let j = choose|j: int|
                start.projects@.len() <= j < cur.projects@.len() && (#[trigger] cur.projects@[j]).folder_path@ == roots[p].path@;
            assert(cur.projects@[j].folder_path@ == path);
        }
    }

    /// Adopts, in order, each entry of the root directory that is an untracked directory (see
    /// `is_untracked`, judged before any adoption): a project named after the entry is created
    /// for its folder, created at `now`, with the seed found among the entry's top-level files
    /// (see `seed_from_entries`). Returns how many were adopted. The first refused adoption (see
    /// `adoption_refusal`) stops the adoption and its error is returned; the adoptions before it
    /// stay done.
    #[verifier::spinoff_prover]
    #[verifier::rlimit(50)]
    pub fn adopt_untracked_folders(&mut self, rules: &ExtensionRules, root_entries: &Vec<FolderSnapshot>, now: i64) -> (r: Result<usize, IndexError>)
        requires
            old(self).wf(),
        ensures
            final(self).wf(),
            final(self).settings == old(self).settings,
            final(self).home_files == old(self).home_files,
            final(self).child_files == old(self).child_files,
            final(self).next_home_id == old(self).next_home_id,
            final(self).next_child_id == old(self).next_child_id,
            final(self).projects@.len() >= old(self).projects@.len(),
            final(self).next_project_id == old(self).next_project_id + (final(self).projects@.len() - old(self).projects@.len()),
            forall|j: int| 0 <= j < old(self).projects@.len() ==> #[trigger] final(self).projects@[j] == old(self).projects@[j],
            forall|j: int|
                old(self).projects@.len() <= j < final(self).projects@.len() ==> {
                    &&& !(#[trigger] final(self).projects@[j]).archived
                    &&& final(self).projects@[j].created_at == now
                    &&& exists|q: int|
                        0 <= q < root_entries@.len() && is_untracked(*old(self), #[trigger] root_entries@[q])
                            && adopted_from(final(self).projects@[j], root_entries@[q], *rules)
                },
            (r is Ok) == (forall|q: int|
                0 <= q < root_entries@.len() ==> (#[trigger] adoption_refusal(*old(self), root_entries@, q)) is None),
            r is Err ==> exists|q: int|
                first_refusal(*old(self), root_entries@, q) && r == Err::<usize, IndexError>(
                    adoption_refusal(*old(self), root_entries@, q)->Some_0,
                ),
            r is Ok ==> {
                &&& r->Ok_0 == root_entries@.filter(|e: FolderSnapshot| is_untracked(*old(self), e)).len()
                &&& final(self).projects@.len() == old(self).projects@.len() + r->Ok_0
                &&& forall|i: int|
                    0 <= i < r->Ok_0 ==> adopted_from(
                        #[trigger] final(self).projects@[old(self).projects@.len() + i],
                        root_entries@.filter(|e: FolderSnapshot| is_untracked(*old(self), e))[i],
                        *rules,
                    ) && final(self).projects@[old(self).projects@.len() + i].id.0 == old(self).next_project_id + i
                &&& forall|q: int|
                    0 <= q < root_entries@.len() && (#[trigger] root_entries@[q]).is_dir ==> exists|j: int|
                        0 <= j < final(self).projects@.len() && !(#[trigger] final(self).projects@[j]).archived
                            && final(self).projects@[j].folder_path@ == root_entries@[q].path@
            },
    {
        let ghost start = *self;
        let ghost pred = |e: FolderSnapshot| is_untracked(start, e);
        let known = self.active_folders();
        let mut discovered: usize = 0;
        for k in 0..root_entries.len()
            invariant
                self.wf(),
                start == *old(self),
                pred == (|e: FolderSnapshot| is_untracked(start, e)),
                forall|x: Seq<char>|
                    crate::model::strs_view(known@).contains(x) <==> exists|j: int|
                        0 <= j < start.projects@.len() && !(#[trigger] start.projects@[j]).archived
                            && start.projects@[j].folder_path@ == x,
                self.settings == start.settings,
                self.home_files == start.home_files,
                self.child_files == start.child_files,
                self.next_home_id == start.next_home_id,
                self.next_child_id == start.next_child_id,
                discovered == root_entries@.take(k as int).filter(pred).len(),
                discovered <= k,
                self.projects@.len() == start.projects@.len() + discovered,
                self.next_project_id == start.next_project_id + discovered,
                forall|j: int| 0 <= j < start.projects@.len() ==> #[trigger] self.projects@[j] == start.projects@[j],
                forall|j: int|
                    start.projects@.len() <= j < self.projects@.len() ==> {
                        &&& !(#[trigger] self.projects@[j]).archived
                        &&& self.projects@[j].created_at == now
                        &&& exists|q: int|
                            0 <= q < k && is_untracked(start, #[trigger] root_entries@[q])
                                && adopted_from(self.projects@[j], root_entries@[q], *rules)
                    },
                forall|q: int|
                    0 <= q < k && (#[trigger] root_entries@[q]).is_dir ==> exists|j: int|
                        0 <= j < self.projects@.len() && !(#[trigger] self.projects@[j]).archived
                            && self.projects@[j].folder_path@ == root_entries@[q].path@,
                forall|q: int|
                    0 <= q < k && is_untracked(start, #[trigger] root_entries@[q]) ==> exists|j: int|
                        start.projects@.len() <= j < self.projects@.len() && (#[trigger] self.projects@[j]).folder_path@
                            == root_entries@[q].path@,
                forall|q: int| 0 <= q < k ==> (#[trigger] adoption_refusal(start, root_entries@, q)) is None,
                forall|i: int|
                    0 <= i < discovered ==> adopted_from(
                        #[trigger] self.projects@[start.projects@.len() + i],
                        root_entries@.take(k as int).filter(pred)[i],
                        *rules,
                    ) && self.projects@[start.projects@.len() + i].id.0 == start.next_project_id + i,
        {
            proof {
                assert(root_entries@.take(k + 1) == root_entries@.take(k as int).push(root_entries@[k as int]));
                root_entries@.take(k as int).lemma_filter_push(root_entries@[k as int], pred);
                assert(untracked_before(start, root_entries@, k as int) == discovered);
            }
            let e = &root_entries[k];
            if e.is_dir && !crate::naming::contains_string(&known, &e.path) {
                assert(is_untracked(start, *e));
                let ghost before = *self;
                proof {
                    Self::lemma_folder_in_use_now(before, start, root_entries@, k as int, *rules);
                }
                match self.adopt_folder(e, rules, now) {
                    Ok(()) => {},
                    Err(x) => {
                        assert(self.settings == before.settings);
                        assert(self.home_files == before.home_files);
                        assert(first_refusal(start, root_entries@, k as int));
                        return Err(x);
                    },
                }
                assert(adoption_refusal(start, root_entries@, k as int) is None);
                discovered = discovered + 1;
                proof {
                    self.lemma_adopted_step(before, start, root_entries@, k as int, now, *rules);
                    assert(root_entries@.take(k + 1).filter(pred) == root_entries@.take(k as int).filter(pred).push(*e));
                    assert forall|i: int| 0 <= i < discovered implies adopted_from(
                        #[trigger] self.projects@[start.projects@.len() + i],
                        root_entries@.take(k + 1).filter(pred)[i],
                        *rules,
                    ) && self.projects@[start.projects@.len() + i].id.0 == start.next_project_id + i by {
                        if i < discovered - 1 {
                            assert(self.projects@[start.projects@.len() + i] == before.projects@[start.projects@.len() + i]);
                        }
                    }
                }
            } else {
                proof {
                    if e.is_dir {
                        assert(crate::model::strs_view(known@).contains(e.path@));
                        let j = choose|j: int|
                            0 <= j < start.projects@.len() && !(#[trigger] start.projects@[j]).archived
                                && start.projects@[j].folder_path@ == e.path@;
                        assert(self.projects@[j] == start.projects@[j]);
                        assert(!is_untracked(start, *e));
                    }
                    assert(adoption_refusal(start, root_entries@, k as int) is None);
                }
            }
        }
        assert(root_entries@.take(root_entries@.len() as int) == root_entries@);
        Ok(discovered)
    }
}

/// `q` is `p` with its seed re-detected among the top-level files `top` of its folder (see
/// `folder_seed`) when the recorded seed is iteration output passing for a source there (see
/// `spec_masquerading`); `q` is `p` itself otherwise.
pub open spec fn seed_healed(p: crate::model::Project, q: crate::model::Project, top: Seq<Seq<char>>, rules: ExtensionRules) -> bool {
    if (p.seed_filename matches Some(s) && crate::scanner::spec_masquerading(s@, top, rules)) {
        &&& q == (crate::model::Project { seed_filename: q.seed_filename, seed_basename: q.seed_basename, ..p })
        &&& opt_string_view(q.seed_filename) == crate::scanner::folder_seed(top, rules).0
        &&& opt_string_view(q.seed_basename) == crate::scanner::folder_seed(top, rules).1
    } else {
        q == p
    }
}

/// `q` is project `p` after a sync that found the directories `roots` and `others`: unchanged
/// when `p` is archived; archived when no directory is found at its folder path; otherwise with
/// its seed healed among the top-level files of the directory found (see `seed_healed`).
pub open spec fn project_synced(
    p: crate::model::Project,
    q: crate::model::Project,
    roots: Seq<FolderSnapshot>,
    others: Seq<FolderSnapshot>,
    rules: ExtensionRules,
) -> bool {
    if p.archived {
        q == p
    } else {
        match dir_lookup(roots, others, p.folder_path@) {
            None => q == (crate::model::Project { archived: true, ..p }),
            Some(s) => seed_healed(p, q, crate::model::strs_view(s.top_level_files@), rules),
        }
    }
}

/// `after` and `next_after` are the home files `before` and the next home-file id `next` with
/// the walk of directory `found`, at the folder of project `p`, recorded for `p` (see
/// `scan_project_home`); they are `before` and `next` when no directory was found.
pub open spec fn folder_walk_recorded(
    before: Seq<crate::model::HomeFile>,
    next: i64,
    p: crate::model::Project,
    found: Option<FolderSnapshot>,
    rules: ExtensionRules,
    after: Seq<crate::model::HomeFile>,
    next_after: i64,
) -> bool {
    match found {
        None => after == before && next_after == next,
        Some(s) => exists|named: Seq<ScannedFile>|
            #![trigger is_home_scan(p.folder_path@, s.files@, rules, named)]
            {
                &&& is_home_scan(p.folder_path@, s.files@, rules, named)
                &&& after == mark_home_missing(upsert_homes(before, next, p.id, named).0, p.id, scanned_paths(named))
                &&& next_after == upsert_homes(before, next, p.id, named).1
            },
    }
}

/// Project `x` went from not archived (or not yet existing) in `op` to archived in `fp`.
pub open spec fn archived_by_sync(op: Seq<crate::model::Project>, fp: Seq<crate::model::Project>, x: crate::model::ProjectId) -> bool {
    exists|j: int| 0 <= j < fp.len() && (#[trigger] fp[j]).id == x && fp[j].archived && (j >= op.len() || !op[j].archived)
}

/// Child file `c` with its match dropped when it is matched to a project that went from `op`
/// to `fp` archived (see `archived_by_sync`).
pub open spec fn cleared_of_archived(c: ChildFile, op: Seq<crate::model::Project>, fp: Seq<crate::model::Project>) -> ChildFile {
    match c.matched_project_id {
        Some(x) => if archived_by_sync(op, fp, x) {
            ChildFile { matched_project_id: None, ..c }
        } else {
            c
        },
        None => c,
    }
}

proof fn lemma_cleared_none(cs: Seq<ChildFile>, op: Seq<crate::model::Project>, fp: Seq<crate::model::Project>)
    requires
        fp.len() == op.len(),
        forall|j: int| 0 <= j < fp.len() && (#[trigger] fp[j]).archived ==> op[j].archived,
    ensures
        cs.map_values(|c: ChildFile| cleared_of_archived(c, op, fp)) == cs,
{
    assert forall|i: int| 0 <= i < cs.len() implies cleared_of_archived(#[trigger] cs[i], op, fp) == cs[i] by {
        if let Some(x) = cs[i].matched_project_id {
            if archived_by_sync(op, fp, x) {
                let j = choose|j: int| 0 <= j < fp.len() && (#[trigger] fp[j]).id == x && fp[j].archived && (j >= op.len() || !op[j].archived);
                assert(op[j].archived);
            }
        }
    }
    assert(cs.map_values(|c: ChildFile| cleared_of_archived(c, op, fp)) =~= cs);
}

/// The seed of `p` is not iteration output passing for a source among the top-level files of
/// its folder `snap` (see `spec_masquerading`).
pub open spec fn seed_settled(p: crate::model::Project, snap: Option<FolderSnapshot>, rules: ExtensionRules) -> bool {
    match (p.seed_filename, snap) {
        (Some(s), Some(f)) => !crate::scanner::spec_masquerading(s@, crate::model::strs_view(f.top_level_files@), rules),
        _ => true,
    }
}

/// `b` is `a` with possibly another archived flag and seed.
pub open spec fn same_project_identity(a: crate::model::Project, b: crate::model::Project) -> bool {
    &&& b.id == a.id
    &&& b.name == a.name
    &&& b.folder_path == a.folder_path
    &&& b.created_at == a.created_at
}

/// The paths met by a walk.
pub open spec fn walk_paths(files: Seq<FileEntry>) -> Seq<Seq<char>> {
    files.map_values(|e: FileEntry| e.abs_path@)
}

/// `after` is `before` with the walk of the folder found for project `id` recorded (see
/// `reconcile_home_files`), or `before` itself when no directory was found.
pub open spec fn records_folder_walk(
    before: Seq<crate::model::HomeFile>,
    next: i64,
    after: Seq<crate::model::HomeFile>,
    id: crate::model::ProjectId,
    found: Option<FolderSnapshot>,
) -> bool {
    match found {
        None => after == before,
        Some(s) => exists|named: Seq<ScannedFile>|
            scanned_paths(named) == walk_paths(s.files@) && after == mark_home_missing(
                upsert_homes(before, next, id, named).0,
                id,
                scanned_paths(named),
            ),
    }
}

proof fn lemma_home_scan_paths(root: Seq<char>, entries: Seq<FileEntry>, rules: ExtensionRules, named: Seq<ScannedFile>)
    requires
        is_home_scan(root, entries, rules, named),
    ensures
        scanned_paths(named) == walk_paths(entries),
{
    let pre = choose|pre: Seq<ScannedFile>|
        {
            &&& pre.len() == entries.len()
            &&& forall|i: int| 0 <= i < entries.len() ==> is_home_record(root, #[trigger] entries[i], pre[i])
            &&& base_names_assigned(pre, rules, named)
        };
    assert forall|i: int| 0 <= i < named.len() implies scanned_paths(named)[i] == walk_paths(entries)[i] by {
        assert(is_home_record(root, entries[i], pre[i]));
        assert(named[i].abs_path == pre[i].abs_path);
    }
    assert(scanned_paths(named) =~= walk_paths(entries));
}

impl Index {
    /// Re-detects the seed of project `cur` among the top-level files `top` of its folder when the
    /// recorded seed is iteration output passing for a source (see `spec_masquerading`); nothing
    /// changes otherwise.
    #[verifier::rlimit(30)]
    pub fn heal_misdetected_seed(&mut self, cur: &crate::model::Project, top: &Vec<String>, rules: &ExtensionRules)
        requires
            old(self).wf(),
        ensures
            final(self).wf(),
            final(self).settings == old(self).settings,
            final(self).home_files == old(self).home_files,
            final(self).child_files == old(self).child_files,
            final(self).next_project_id == old(self).next_project_id,
            final(self).next_home_id == old(self).next_home_id,
            final(self).next_child_id == old(self).next_child_id,
            final(self).projects@.len() == old(self).projects@.len(),
            forall|j: int|
                0 <= j < old(self).projects@.len() ==> {
                    let p = #[trigger] old(self).projects@[j];
                    let q = final(self).projects@[j];
                    &&& same_project_identity(p, q)
                    &&& q.archived == p.archived
                    &&& p.id != cur.id ==> q == p
                    &&& p.id == cur.id && p.seed_filename == cur.seed_filename ==> match q.seed_filename {
                        Some(s) => !crate::scanner::spec_masquerading(s@, crate::model::strs_view(top@), *rules),
                        None => true,
                    }
                    &&& p.id == cur.id ==> if (cur.seed_filename matches Some(s) && crate::scanner::spec_masquerading(
                        s@,
                        crate::model::strs_view(top@),
                        *rules,
                    )) {
                        &&& q == (crate::model::Project {
                            seed_filename: q.seed_filename,
                            seed_basename: q.seed_basename,
                            ..p
                        })
                        &&& opt_string_view(q.seed_filename) == crate::scanner::folder_seed(
                            crate::model::strs_view(top@),
                            *rules,
                        ).0
                        &&& opt_string_view(q.seed_basename) == crate::scanner::folder_seed(
                            crate::model::strs_view(top@),
                            *rules,
                        ).1
                    } else {
                        q == p
                    }
                },
    {
        let seed = match &cur.seed_filename {
            Some(s) => s,
            None => {
                return;
            },
        };
        if !crate::scanner::is_child_masquerading_as_parent(seed.as_str(), top, rules) {
            return;
        }
        let (sf, sb) = crate::scanner::seed_from_entries(top, rules);
        let sfr: Option<&str> = match &sf {
            Some(x) => Some(x.as_str()),
            None => None,
        };
        let sbr: Option<&str> = match &sb {
            Some(x) => Some(x.as_str()),
            None => None,
        };
        proof {
            let ev = crate::model::strs_view(top@);
            match crate::scanner::seed_choice(ev, *rules) {
                Some(i) => {
                    assert(crate::scanner::is_seed_candidate(ev, i, *rules));
                    assert(ev[i] == top@[i]@);
                },
                None => {},
            }
        }
        assert(match opt_string_view(sf) {
            Some(x) => !crate::scanner::spec_masquerading(x, crate::model::strs_view(top@), *rules),
            None => true,
        });
        let ghost before = *self;
        self.update_project_seed(cur.id, sfr, sbr);
        proof {
            assert(opt_str_view(sfr) == opt_string_view(sf));
            assert forall|j: int| 0 <= j < before.projects@.len() implies {
                let p = #[trigger] before.projects@[j];
                let q = self.projects@[j];
                &&& same_project_identity(p, q)
                &&& q.archived == p.archived
                &&& p.id != cur.id ==> q == p
                &&& p.id == cur.id && p.seed_filename == cur.seed_filename ==> match q.seed_filename {
                    Some(s) => !crate::scanner::spec_masquerading(s@, crate::model::strs_view(top@), *rules),
                    None => true,
                }
            } by {
                let p = before.projects@[j];
                let q = self.projects@[j];
                if p.id == cur.id {
                    assert(opt_string_view(q.seed_filename) == opt_string_view(sf));
                    assert(opt_str_view(sbr) == opt_string_view(sb));
                    assert(opt_string_view(q.seed_basename) == opt_string_view(sb));
                }
            }
        }
    }

    /// Brings project `id` in line with its folder: archived when no directory is found at its
    /// folder path; otherwise its seed is re-detected when the recorded seed turns out to be
    /// iteration output passing for a source, and its folder's walk is recorded. Refused, with
    /// no home file touched, exactly when the home-file ids left do not cover that walk.
    fn refresh_project(
        &mut self,
        id: crate::model::ProjectId,
        rules: &ExtensionRules,
        roots: &Vec<FolderSnapshot>,
        others: &Vec<FolderSnapshot>,
    ) -> (r: Result<(), IndexError>)
        requires
            old(self).wf(),
        ensures
            final(self).wf(),
            final(self).settings == old(self).settings,
            final(self).next_project_id == old(self).next_project_id,
            final(self).projects@.len() == old(self).projects@.len(),
            forall|j: int|
                0 <= j < old(self).projects@.len() ==> same_project_identity(
                    #[trigger] old(self).projects@[j],
                    final(self).projects@[j],
                ),
            forall|j: int|
                0 <= j < old(self).projects@.len() && (#[trigger] old(self).projects@[j]).id != id
                    ==> final(self).projects@[j] == old(self).projects@[j],
            r is Ok ==> forall|j: int|
                0 <= j < old(self).projects@.len() && (#[trigger] old(self).projects@[j]).id == id ==> {
                    &&& final(self).projects@[j].archived == (old(self).projects@[j].archived || dir_lookup(
                        roots@,
                        others@,
                        old(self).projects@[j].folder_path@,
                    ) is None)
                    &&& !final(self).projects@[j].archived ==> seed_settled(
                        final(self).projects@[j],
                        dir_lookup(roots@, others@, old(self).projects@[j].folder_path@),
                        *rules,
                    )
                    &&& records_folder_walk(
                        old(self).home_files@,
                        old(self).next_home_id,
                        final(self).home_files@,
                        id,
                        dir_lookup(roots@, others@, old(self).projects@[j].folder_path@),
                    )
                },
            r is Ok && !old(self).has_project(id) ==> final(self).home_files == old(self).home_files
                && final(self).next_home_id == old(self).next_home_id,
            r is Ok ==> forall|j: int|
                0 <= j < old(self).projects@.len() && (#[trigger] old(self).projects@[j]).id == id
                    ==> final(self).next_home_id <= old(self).next_home_id + walk_size(
                    roots@,
                    others@,
                    old(self).projects@[j].folder_path@,
                ),
            (r is Err) == (exists|j: int|
                0 <= j < old(self).projects@.len() && (#[trigger] old(self).projects@[j]).id == id && dir_lookup(
                    roots@,
                    others@,
                    old(self).projects@[j].folder_path@,
                ) is Some && old(self).next_home_id + walk_size(roots@, others@, old(self).projects@[j].folder_path@)
                    > i64::MAX),
            r is Err ==> r == Err::<(), IndexError>(IndexError::IdsExhausted) && final(self).home_files
                == old(self).home_files && final(self).next_home_id == old(self).next_home_id,
            r is Err ==> forall|j: int|
                0 <= j < old(self).projects@.len() ==> (#[trigger] final(self).projects@[j]).archived
                    == old(self).projects@[j].archived,
            forall|j: int|
                0 <= j < old(self).projects@.len() && (#[trigger] old(self).projects@[j]).archived
                    ==> final(self).projects@[j].archived,
            r is Ok ==> forall|j: int|
                0 <= j < old(self).projects@.len() && (#[trigger] old(self).projects@[j]).id == id ==> {
                    &&& folder_walk_recorded(
                        old(self).home_files@,
                        old(self).next_home_id,
                        old(self).projects@[j],
                        dir_lookup(roots@, others@, old(self).projects@[j].folder_path@),
                        *rules,
                        final(self).home_files@,
                        final(self).next_home_id,
                    )
                    &&& !old(self).projects@[j].archived ==> project_synced(
                        old(self).projects@[j],
                        final(self).projects@[j],
                        roots@,
                        others@,
                        *rules,
                    )
                },
            (forall|j: int| 0 <= j < old(self).projects@.len() && (#[trigger] old(self).projects@[j]).id == id
                ==> !old(self).projects@[j].archived) ==> final(self).child_files@ == old(self).child_files@.map_values(
                |c: ChildFile| cleared_of_archived(c, old(self).projects@, final(self).projects@),
            ),
    {
        let cur = match self.get_project(id) {
            Some(p) => p,
            None => {
                proof {
                    lemma_cleared_none(self.child_files@, self.projects@, self.projects@);
                }
                return Ok(());
            },
        };
        let ghost jc = choose|i: int| 0 <= i < self.projects@.len() && self.projects@[i] == cur && cur.id == id;
        assert forall|j: int| 0 <= j < self.projects@.len() && (#[trigger] self.projects@[j]).id == id implies j == jc by {
            if j != jc {
                assert(self.projects@[j].id != self.projects@[jc].id);
            }
        }
        match lookup_dir(roots, others, &cur.folder_path) {
            None => {
                let ghost before = *self;
                self.archive_project(id);
                proof {
                    if !cur.archived {
                        assert forall|i: int| 0 <= i < before.child_files@.len() implies #[trigger] self.child_files@[i]
                            == cleared_of_archived(before.child_files@[i], before.projects@, self.projects@) by {
                            let c = before.child_files@[i];
                            if let Some(x) = c.matched_project_id {
                                if x == id {
                                    assert(self.projects@[jc].id == id && self.projects@[jc].archived);
                                    assert(archived_by_sync(before.projects@, self.projects@, x));
                                } else if archived_by_sync(before.projects@, self.projects@, x) {
                                    let j = choose|j: int|
                                        0 <= j < self.projects@.len() && (#[trigger] self.projects@[j]).id == x
                                            && self.projects@[j].archived && (j >= before.projects@.len()
                                            || !before.projects@[j].archived);
                                    assert(before.projects@[j].id == x);
                                }
                            }
                        }
                        assert(self.child_files@ =~= before.child_files@.map_values(
                            |c: ChildFile| cleared_of_archived(c, before.projects@, self.projects@),
                        ));
                    }
                }
                Ok(())
            },
            Some(snap) => {
                self.heal_misdetected_seed(&cur, &snap.top_level_files, rules);
                let ghost healed = *self;
                match self.scan_project_home(id, cur.folder_path.as_str(), &snap.files, rules) {
                    Ok(_) => {},
                    Err(e) => {
                        proof {
                            lemma_cleared_none(self.child_files@, old(self).projects@, self.projects@);
                        }
                        return Err(e);
                    },
                }
                proof {
                    lemma_cleared_none(self.child_files@, old(self).projects@, self.projects@);
                }
                assert(self.projects == healed.projects);
                proof {
                    let named = choose|named: Seq<ScannedFile>|
                        {
                            &&& is_home_scan(cur.folder_path@, snap.files@, *rules, named)
                            &&& self.home_files@ == mark_home_missing(
                                upsert_homes(healed.home_files@, healed.next_home_id, id, named).0,
                                id,
                                scanned_paths(named),
                            )
                            &&& self.next_home_id == upsert_homes(healed.home_files@, healed.next_home_id, id, named).1
                        };
                    lemma_home_scan_paths(cur.folder_path@, snap.files@, *rules, named);
                    assert(old(self).projects@[jc] == cur);
                    assert(healed.home_files == old(self).home_files);
                    assert(healed.next_home_id == old(self).next_home_id);
                    assert(cur.id == id);
                    assert(is_home_scan(cur.folder_path@, snap.files@, *rules, named));
                    assert(self.home_files@ == mark_home_missing(
                        upsert_homes(old(self).home_files@, old(self).next_home_id, cur.id, named).0,
                        cur.id,
                        scanned_paths(named),
                    ));
                    assert(self.next_home_id == upsert_homes(old(self).home_files@, old(self).next_home_id, cur.id, named).1);
                    let found = Some(*snap);
                    assert(found->Some_0 == *snap);
                    assert(is_home_scan(cur.folder_path@, found->Some_0.files@, *rules, named));
                    assert(folder_walk_recorded(
                        old(self).home_files@,
                        old(self).next_home_id,
                        cur,
                        found,
                        *rules,
                        self.home_files@,
                        self.next_home_id,
                    ));
                    if !cur.archived {
                        assert(project_synced(cur, self.projects@[jc], roots@, others@, *rules));
                    }
                }
                Ok(())
            },
        }
    }
}

/// How many files the walk of the directory found at `folder` met; 0 when none is found.
pub open spec fn walk_size(roots: Seq<FolderSnapshot>, others: Seq<FolderSnapshot>, folder: Seq<char>) -> nat {
    match dir_lookup(roots, others, folder) {
        Some(s) => s.files@.len(),
        None => 0,
    }
}

/// The projects among the first `n` of `fp` that a sync taking projects `op` to `fp` walked:
/// those not archived before it and those it adopted, as they are in `fp`, in index order.
pub open spec fn walked_projects(op: Seq<crate::model::Project>, fp: Seq<crate::model::Project>, n: int) -> Seq<crate::model::Project>
    decreases n,
{
    if n <= 0 {
        Seq::empty()
    } else {
        let w = walked_projects(op, fp, n - 1);
        if n - 1 >= op.len() || !op[n - 1].archived {
            w.push(fp[n - 1])
        } else {
            w
        }
    }
}

/// The home files and next home-file id `states[i + 1]` are `states[i]` with the walk of the
/// folder of project `ps[i]` recorded (see `folder_walk_recorded`), for each project of `ps`.
pub open spec fn walk_steps(
    states: Seq<(Seq<crate::model::HomeFile>, i64)>,
    ps: Seq<crate::model::Project>,
    roots: Seq<FolderSnapshot>,
    others: Seq<FolderSnapshot>,
    rules: ExtensionRules,
) -> bool {
    &&& states.len() == ps.len() + 1
    &&& forall|i: int|
        0 <= i < ps.len() ==> folder_walk_recorded(
            states[i].0,
            states[i].1,
            #[trigger] ps[i],
            dir_lookup(roots, others, ps[i].folder_path@),
            rules,
            states[i + 1].0,
            states[i + 1].1,
        )
}

/// `after` and `next_after` are the home files `before` and the next home-file id `next` with
/// the walks of the folders of the projects `ps` recorded one after the other.
pub open spec fn walks_recorded_in_order(
    before: Seq<crate::model::HomeFile>,
    next: i64,
    ps: Seq<crate::model::Project>,
    roots: Seq<FolderSnapshot>,
    others: Seq<FolderSnapshot>,
    rules: ExtensionRules,
    after: Seq<crate::model::HomeFile>,
    next_after: i64,
) -> bool {
    exists|states: Seq<(Seq<crate::model::HomeFile>, i64)>|
        #[trigger] walk_steps(states, ps, roots, others, rules) && states[0] == (before, next) && states[ps.len() as int]
            == (after, next_after)
}

/// `a` and `b` list projects with the same ids, folders and creation times, in the same order.
pub open spec fn same_walk_order(a: Seq<crate::model::Project>, b: Seq<crate::model::Project>) -> bool {
    &&& a.len() == b.len()
    &&& forall|i: int|
        0 <= i < a.len() ==> (#[trigger] a[i]).id == b[i].id && a[i].folder_path@ == b[i].folder_path@ && a[i].created_at
            == b[i].created_at
}

proof fn lemma_walk_step_same(
    before: Seq<crate::model::HomeFile>,
    next: i64,
    p: crate::model::Project,
    q: crate::model::Project,
    roots: Seq<FolderSnapshot>,
    others: Seq<FolderSnapshot>,
    rules: ExtensionRules,
    after: Seq<crate::model::HomeFile>,
    next_after: i64,
)
    requires
        p.id == q.id,
        p.folder_path@ == q.folder_path@,
        folder_walk_recorded(before, next, p, dir_lookup(roots, others, p.folder_path@), rules, after, next_after),
    ensures
        folder_walk_recorded(before, next, q, dir_lookup(roots, others, q.folder_path@), rules, after, next_after),
{
    let found = dir_lookup(roots, others, q.folder_path@);
    assert(found == dir_lookup(roots, others, p.folder_path@));
    if found is Some {
        let sn = found->Some_0;
        let named = choose|named: Seq<ScannedFile>|
            #![trigger is_home_scan(p.folder_path@, sn.files@, rules, named)]
            {
                &&& is_home_scan(p.folder_path@, sn.files@, rules, named)
                &&& after == mark_home_missing(upsert_homes(before, next, p.id, named).0, p.id, scanned_paths(named))
                &&& next_after == upsert_homes(before, next, p.id, named).1
            };
        assert(is_home_scan(q.folder_path@, sn.files@, rules, named));
    }
}

proof fn lemma_walks_same_order(
    before: Seq<crate::model::HomeFile>,
    next: i64,
    a: Seq<crate::model::Project>,
    b: Seq<crate::model::Project>,
    roots: Seq<FolderSnapshot>,
    others: Seq<FolderSnapshot>,
    rules: ExtensionRules,
    after: Seq<crate::model::HomeFile>,
    next_after: i64,
)
    requires
        same_walk_order(a, b),
        walks_recorded_in_order(before, next, a, roots, others, rules, after, next_after),
    ensures
        walks_recorded_in_order(before, next, b, roots, others, rules, after, next_after),
{
    let states = choose|states: Seq<(Seq<crate::model::HomeFile>, i64)>|
        #[trigger] walk_steps(states, a, roots, others, rules) && states[0] == (before, next) && states[a.len() as int]
            == (after, next_after);
    assert forall|i: int| 0 <= i < b.len() implies folder_walk_recorded(
        states[i].0,
        states[i].1,
        #[trigger] b[i],
        dir_lookup(roots, others, b[i].folder_path@),
        rules,
        states[i + 1].0,
        states[i + 1].1,
    ) by {
        assert(a[i].id == b[i].id);
        lemma_walk_step_same(states[i].0, states[i].1, a[i], b[i], roots, others, rules, states[i + 1].0, states[i + 1].1);
    }
    assert(walk_steps(states, b, roots, others, rules));
}

/// `walked_projects` after adoption, compared with the projects not archived after adoption.
proof fn lemma_walked_matches_active(
    op: Seq<crate::model::Project>,
    ad: Seq<crate::model::Project>,
    fp: Seq<crate::model::Project>,
    n: int,
)
    requires
        0 <= n <= ad.len(),
        fp.len() == ad.len(),
        op.len() <= ad.len(),
        forall|j: int| 0 <= j < op.len() ==> #[trigger] ad[j] == op[j],
        forall|j: int| op.len() <= j < ad.len() ==> !(#[trigger] ad[j]).archived,
        forall|j: int| 0 <= j < ad.len() ==> same_project_identity(#[trigger] ad[j], fp[j]),
    ensures
        same_walk_order(ad.take(n).filter(|p: crate::model::Project| !p.archived), walked_projects(op, fp, n)),
    decreases n,
{
    reveal(Seq::filter);
    let pred = |p: crate::model::Project| !p.archived;
    if n > 0 {
        lemma_walked_matches_active(op, ad, fp, n - 1);
        assert(ad.take(n).drop_last() == ad.take(n - 1));
        assert(ad.take(n).last() == ad[n - 1]);
        assert(same_project_identity(ad[n - 1], fp[n - 1]));
        let a1 = ad.take(n - 1).filter(pred);
        let w1 = walked_projects(op, fp, n - 1);
        if n - 1 >= op.len() || !op[n - 1].archived {
            assert(pred(ad[n - 1]));
            assert(ad.take(n).filter(pred) == a1.push(ad[n - 1]));
            assert forall|i: int| 0 <= i < a1.len() + 1 implies (#[trigger] a1.push(ad[n - 1])[i]).id == w1.push(fp[n - 1])[i].id
                && a1.push(ad[n - 1])[i].folder_path@ == w1.push(fp[n - 1])[i].folder_path@ && a1.push(ad[n - 1])[i].created_at
                == w1.push(fp[n - 1])[i].created_at by {
                if i < a1.len() {
                    assert(a1.push(ad[n - 1])[i] == a1[i]);
                    assert(w1.push(fp[n - 1])[i] == w1[i]);
                }
            }
        } else {
            assert(!pred(ad[n - 1]));
            assert(ad.take(n).filter(pred) == a1);
        }
    } else {
        assert(ad.take(0).filter(pred) =~= Seq::<crate::model::Project>::empty());
    }
}

/// Child files cleared of the projects archived from `a` to `b`, then of those archived from
/// `b` to `c`, are cleared of those archived from `a` to `c`.
proof fn lemma_cleared_compose(cs: Seq<ChildFile>, a: Seq<crate::model::Project>, b: Seq<crate::model::Project>, c: Seq<crate::model::Project>)
    requires
        a.len() == b.len(),
        b.len() == c.len(),
        forall|j: int| 0 <= j < a.len() ==> (#[trigger] a[j]).id == b[j].id && b[j].id == c[j].id,
        forall|j: int| 0 <= j < a.len() && (#[trigger] a[j]).archived ==> b[j].archived,
        forall|j: int| 0 <= j < b.len() && (#[trigger] b[j]).archived ==> c[j].archived,
    ensures
        cs.map_values(|x: ChildFile| cleared_of_archived(x, a, b)).map_values(|x: ChildFile| cleared_of_archived(x, b, c))
            == cs.map_values(|x: ChildFile| cleared_of_archived(x, a, c)),
{
    assert forall|i: int| 0 <= i < cs.len() implies cleared_of_archived(cleared_of_archived(#[trigger] cs[i], a, b), b, c)
        == cleared_of_archived(cs[i], a, c) by {
        if let Some(x) = cs[i].matched_project_id {
            if archived_by_sync(a, c, x) {
                let j = choose|j: int| 0 <= j < c.len() && (#[trigger] c[j]).id == x && c[j].archived && (j >= a.len() || !a[j].archived);
                if b[j].archived {
                    assert(archived_by_sync(a, b, x));
                } else {
                    assert(archived_by_sync(b, c, x));
                }
            }
            if archived_by_sync(a, b, x) {
                let j = choose|j: int| 0 <= j < b.len() && (#[trigger] b[j]).id == x && b[j].archived && (j >= a.len() || !a[j].archived);
                assert(c[j].archived);
                assert(archived_by_sync(a, c, x));
            } else if archived_by_sync(b, c, x) {
                let j = choose|j: int| 0 <= j < c.len() && (#[trigger] c[j]).id == x && c[j].archived && (j >= b.len() || !b[j].archived);
                assert(!a[j].archived);
                assert(archived_by_sync(a, c, x));
            }
        }
    }
    assert(cs.map_values(|x: ChildFile| cleared_of_archived(x, a, b)).map_values(|x: ChildFile| cleared_of_archived(x, b, c))
        =~= cs.map_values(|x: ChildFile| cleared_of_archived(x, a, c)));
}

/// The projects `fp` are those of `ix` after a sync with root entries `roots` and other folders
/// `others` that adopted the `n` untracked directories among `roots` at `now`: each project of
/// `ix` synced (see `project_synced`), followed by one project per untracked directory, with the
/// next ids, adopted from it (see `adopted_from`) and then synced.
pub open spec fn projects_after_sync(
    ix: Index,
    roots: Seq<FolderSnapshot>,
    others: Seq<FolderSnapshot>,
    rules: ExtensionRules,
    now: i64,
    n: nat,
    fp: Seq<crate::model::Project>,
) -> bool {
    let op = ix.projects@;
    let fresh = roots.filter(|e: FolderSnapshot| is_untracked(ix, e));
    &&& n == fresh.len()
    &&& fp.len() == op.len() + n
    &&& forall|j: int| 0 <= j < op.len() ==> project_synced(#[trigger] op[j], fp[j], roots, others, rules)
    &&& forall|i: int|
        0 <= i < n ==> adopted_and_synced(#[trigger] fp[op.len() + i], fresh[i], ix.next_project_id + i, now, roots, others, rules)
}

/// `q` is the project adopted from root entry `e` with id `id` at `now` (see `adopted_from`),
/// then synced (see `project_synced`).
pub open spec fn adopted_and_synced(
    q: crate::model::Project,
    e: FolderSnapshot,
    id: int,
    now: i64,
    roots: Seq<FolderSnapshot>,
    others: Seq<FolderSnapshot>,
    rules: ExtensionRules,
) -> bool {
    exists|a: crate::model::Project|
        {
            &&& a.id.0 == id
            &&& !a.archived
            &&& a.created_at == now
            &&& adopted_from(a, e, rules)
            &&& #[trigger] project_synced(a, q, roots, others, rules)
        }
}

/// `new` is `ix` after a sync with root entries `roots` and other folders `others` that adopted
/// `n` folders at `now` (see `Index::sync_root_directory`): its projects are as
/// `projects_after_sync` says; its home files are those of `ix` with the walks of the folders of
/// the projects walked, newest first, recorded in turn; its child files are those of `ix` with
/// the matches to the projects it archived dropped, and then, when something was adopted,
/// unmatched ones matched again.
pub open spec fn is_root_sync(
    ix: Index,
    roots: Seq<FolderSnapshot>,
    others: Seq<FolderSnapshot>,
    rules: ExtensionRules,
    now: i64,
    n: nat,
    new: Index,
) -> bool {
    let op = ix.projects@;
    let fp = new.projects@;
    let walked = walked_projects(op, fp, fp.len() as int);
    let cleared = ix.child_files@.map_values(|c: ChildFile| cleared_of_archived(c, op, fp));
    &&& projects_after_sync(ix, roots, others, rules, now, n, fp)
    &&& exists|perm: Seq<usize>|
        crate::order::is_stable_desc_order(crate::index::created_times(walked), perm) && walks_recorded_in_order(
            ix.home_files@,
            ix.next_home_id,
            crate::index::arranged(walked, perm),
            roots,
            others,
            rules,
            new.home_files@,
            new.next_home_id,
        )
    &&& n == 0 ==> new.child_files@ == cleared
    &&& n > 0 ==> new.child_files@ == cleared.map_values(|c: ChildFile| new.rematched(c))
    &&& forall|q: int|
        0 <= q < roots.len() && (#[trigger] roots[q]).is_dir ==> exists|j: int|
            0 <= j < fp.len() && (#[trigger] fp[j]).folder_path@ == roots[q].path@ && !fp[j].archived
}

/// Some project among the first `m` of `listed` has id `id`.
pub open spec fn listed_before(listed: Seq<crate::model::Project>, m: int, id: crate::model::ProjectId) -> bool {
    exists|q: int| 0 <= q < m && (#[trigger] listed[q]).id == id
}

/// The walk of the folder found at `folder` met path `p`.
pub open spec fn walked(roots: Seq<FolderSnapshot>, others: Seq<FolderSnapshot>, folder: Seq<char>, p: Seq<char>) -> bool {
    match dir_lookup(roots, others, folder) {
        Some(s) => walk_paths(s.files@).contains(p),
        None => false,
    }
}

/// The walk of the folder of project `id` of `ix` met path `p`.
pub open spec fn walked_by(
    ix: Index,
    roots: Seq<FolderSnapshot>,
    others: Seq<FolderSnapshot>,
    id: crate::model::ProjectId,
    p: Seq<char>,
) -> bool {
    exists|j: int|
        0 <= j < ix.projects@.len() && (#[trigger] ix.projects@[j]).id == id && walked(roots, others, ix.projects@[j].folder_path@, p)
}

/// Some home file with path `p` is present.
pub open spec fn present_at(rows: Seq<crate::model::HomeFile>, p: Seq<char>) -> bool {
    exists|h: int| 0 <= h < rows.len() && (#[trigger] rows[h]).abs_path@ == p && !rows[h].missing
}

/// Every path met by the walk of the folder of a project among the first `m` of `listed` has a
/// present home file, which belongs to such a project whose walk met it.
pub open spec fn walks_recorded(
    ix: Index,
    rows: Seq<crate::model::HomeFile>,
    listed: Seq<crate::model::Project>,
    m: int,
    roots: Seq<FolderSnapshot>,
    others: Seq<FolderSnapshot>,
) -> bool {
    forall|x: crate::model::ProjectId, p: Seq<char>|
        #![trigger listed_before(listed, m, x), walked_by(ix, roots, others, x, p)]
        listed_before(listed, m, x) && walked_by(ix, roots, others, x, p) ==> exists|h: int|
            0 <= h < rows.len() && (#[trigger] rows[h]).abs_path@ == p && !rows[h].missing && listed_before(
                listed,
                m,
                rows[h].project_id,
            ) && walked_by(ix, roots, others, rows[h].project_id, p)
}

proof fn lemma_walks_recorded_step(
    ix: Index,
    listed: Seq<crate::model::Project>,
    m: int,
    roots: Seq<FolderSnapshot>,
    others: Seq<FolderSnapshot>,
    before: Seq<crate::model::HomeFile>,
    next: i64,
    after: Seq<crate::model::HomeFile>,
    jy: int,
)
    requires
        ix.projects_wf(),
        0 <= m < listed.len(),
        0 <= jy < ix.projects@.len(),
        ix.projects@[jy].id == listed[m].id,
        walks_recorded(ix, before, listed, m, roots, others),
        records_folder_walk(before, next, after, listed[m].id, dir_lookup(roots, others, ix.projects@[jy].folder_path@)),
    ensures
        walks_recorded(ix, after, listed, m + 1, roots, others),
{
    let y = listed[m].id;
    let folder = ix.projects@[jy].folder_path@;
    assert forall|x: crate::model::ProjectId, p: Seq<char>| #[trigger] listed_before(listed, m + 1, x) && #[trigger] walked_by(
        ix,
        roots,
        others,
        x,
        p,
    ) implies exists|h: int|
        0 <= h < after.len() && (#[trigger] after[h]).abs_path@ == p && !after[h].missing && listed_before(
            listed,
            m + 1,
            after[h].project_id,
        ) && walked_by(ix, roots, others, after[h].project_id, p) by {
        assert(listed_before(listed, m + 1, y)) by {
            assert(listed[m].id == y);
        }
        let yp = walked(roots, others, folder, p);
        assert(walked_by(ix, roots, others, y, p) ==> yp) by {
            if walked_by(ix, roots, others, y, p) {
                let j = choose|j: int|
                    0 <= j < ix.projects@.len() && (#[trigger] ix.projects@[j]).id == y && walked(
                        roots,
                        others,
                        ix.projects@[j].folder_path@,
                        p,
                    );
                if j != jy {
                    assert(ix.projects@[j].id != ix.projects@[jy].id);
                }
            }
        }
        if yp {
            match dir_lookup(roots, others, folder) {
                Some(sn) => {
                    let named = choose|named: Seq<ScannedFile>|
                        scanned_paths(named) == walk_paths(sn.files@) && after == mark_home_missing(
                            upsert_homes(before, next, y, named).0,
                            y,
                            scanned_paths(named),
                        );
                    crate::index::law_home_scan_agrees(before, next, y, named);
                    let k = choose|k: int| 0 <= k < walk_paths(sn.files@).len() && walk_paths(sn.files@)[k] == p;
                    assert(scanned_paths(named)[k] == named[k].abs_path@);
                    let h = choose|h: int|
                        0 <= h < after.len() && (#[trigger] after[h]).abs_path@ == (#[trigger] named[k]).abs_path@
                            && after[h].project_id == y && !after[h].missing;
                    assert(walked_by(ix, roots, others, y, p));
                },
                None => {},
            }
        } else {
            if x == y {
                assert(false);
            }
            assert(listed_before(listed, m, x)) by {
                let q = choose|q: int| 0 <= q < m + 1 && (#[trigger] listed[q]).id == x;
                assert(q != m);
            }
            let h = choose|h: int|
                0 <= h < before.len() && (#[trigger] before[h]).abs_path@ == p && !before[h].missing && listed_before(
                    listed,
                    m,
                    before[h].project_id,
                ) && walked_by(ix, roots, others, before[h].project_id, p);
            let z = before[h].project_id;
            assert(z != y);
            assert(listed_before(listed, m + 1, z)) by {
                let q = choose|q: int| 0 <= q < m && (#[trigger] listed[q]).id == z;
                assert(listed[q].id == z);
            }
            match dir_lookup(roots, others, folder) {
                Some(sn) => {
                    let named = choose|named: Seq<ScannedFile>|
                        scanned_paths(named) == walk_paths(sn.files@) && after == mark_home_missing(
                            upsert_homes(before, next, y, named).0,
                            y,
                            scanned_paths(named),
                        );
                    crate::index::law_home_scan_agrees(before, next, y, named);
                    assert(!scanned_paths(named).contains(p));
                    assert(after[h] == before[h]);
                },
                None => {
                    assert(after == before);
                },
            }
        }
    }
}

/// The files met by the walk of the folder of project `p`, counted when `p` is not archived.
pub open spec fn walk_weight(p: crate::model::Project, roots: Seq<FolderSnapshot>, others: Seq<FolderSnapshot>) -> nat {
    if p.archived {
        0
    } else {
        walk_size(roots, others, p.folder_path@)
    }
}

/// The files met by the walks of the folders of the first `n` projects of `ps` that are not
/// archived.
pub open spec fn walk_total(ps: Seq<crate::model::Project>, roots: Seq<FolderSnapshot>, others: Seq<FolderSnapshot>, n: int) -> nat
    decreases n,
{
    if n <= 0 {
        0
    } else {
        walk_total(ps, roots, others, n - 1) + walk_weight(ps[n - 1], roots, others)
    }
}

/// The files met by the walks of the directories found at the paths of the first `n` entries
/// of `es`.
pub open spec fn entries_walk_total(es: Seq<FolderSnapshot>, roots: Seq<FolderSnapshot>, others: Seq<FolderSnapshot>, n: int) -> nat
    decreases n,
{
    if n <= 0 {
        0
    } else {
        entries_walk_total(es, roots, others, n - 1) + walk_size(roots, others, es[n - 1].path@)
    }
}

/// The files that the walks of a sync of `ix` with root entries `roots` and other folders
/// `others` may record: those of the folders of the projects of `ix` that are not archived, and
/// those of the untracked directories among `roots` (see `is_untracked`).
pub open spec fn sync_walk_total(ix: Index, roots: Seq<FolderSnapshot>, others: Seq<FolderSnapshot>) -> nat {
    let fresh = roots.filter(|e: FolderSnapshot| is_untracked(ix, e));
    walk_total(ix.projects@, roots, others, ix.projects@.len() as int) + entries_walk_total(
        fresh,
        roots,
        others,
        fresh.len() as int,
    )
}

proof fn lemma_walk_total_adopted(
    old_ps: Seq<crate::model::Project>,
    ps: Seq<crate::model::Project>,
    fresh: Seq<FolderSnapshot>,
    roots: Seq<FolderSnapshot>,
    others: Seq<FolderSnapshot>,
    n: int,
)
    requires
        0 <= n <= fresh.len(),
        ps.len() == old_ps.len() + fresh.len(),
        forall|j: int| 0 <= j < old_ps.len() ==> #[trigger] ps[j] == old_ps[j],
        forall|i: int|
            0 <= i < fresh.len() ==> (#[trigger] ps[old_ps.len() + i]).folder_path@ == fresh[i].path@ && !ps[old_ps.len()
                + i].archived,
    ensures
        walk_total(ps, roots, others, old_ps.len() + n) == walk_total(old_ps, roots, others, old_ps.len() as int)
            + entries_walk_total(fresh, roots, others, n),
    decreases n,
{
    if n == 0 {
        lemma_walk_total_eq(ps, old_ps, roots, others, old_ps.len() as int);
    } else {
        lemma_walk_total_adopted(old_ps, ps, fresh, roots, others, n - 1);
        assert(ps[old_ps.len() + (n - 1)].folder_path@ == fresh[n - 1].path@);
    }
}

/// The part of `walk_total(ps, roots, others, n)` that comes from projects among the first `m`
/// of `listed`.
spec fn walk_total_listed(
    ps: Seq<crate::model::Project>,
    roots: Seq<FolderSnapshot>,
    others: Seq<FolderSnapshot>,
    listed: Seq<crate::model::Project>,
    m: int,
    n: int,
) -> nat
    decreases n,
{
    if n <= 0 {
        0
    } else {
        walk_total_listed(ps, roots, others, listed, m, n - 1) + if listed_before(listed, m, ps[n - 1].id) {
            walk_weight(ps[n - 1], roots, others)
        } else {
            0
        }
    }
}

proof fn lemma_listed_total_le(
    ps: Seq<crate::model::Project>,
    roots: Seq<FolderSnapshot>,
    others: Seq<FolderSnapshot>,
    listed: Seq<crate::model::Project>,
    m: int,
    n: int,
)
    ensures
        walk_total_listed(ps, roots, others, listed, m, n) <= walk_total(ps, roots, others, n),
    decreases n,
{
    if n > 0 {
        lemma_listed_total_le(ps, roots, others, listed, m, n - 1);
    }
}

proof fn lemma_listed_total_step(
    ps: Seq<crate::model::Project>,
    roots: Seq<FolderSnapshot>,
    others: Seq<FolderSnapshot>,
    listed: Seq<crate::model::Project>,
    m: int,
    n: int,
    jy: int,
)
    requires
        0 <= m < listed.len(),
        0 <= jy < ps.len(),
        n <= ps.len(),
        ps[jy].id == listed[m].id,
        !listed_before(listed, m, listed[m].id),
        forall|i: int, j: int| 0 <= i < ps.len() && 0 <= j < ps.len() && i != j ==> (#[trigger] ps[i]).id != (#[trigger] ps[j]).id,
    ensures
        walk_total_listed(ps, roots, others, listed, m + 1, n) == walk_total_listed(ps, roots, others, listed, m, n) + if jy
            < n {
            walk_weight(ps[jy], roots, others)
        } else {
            0
        },
    decreases n,
{
    if n > 0 {
        lemma_listed_total_step(ps, roots, others, listed, m, n - 1, jy);
        let x = ps[n - 1].id;
        if listed_before(listed, m + 1, x) && !listed_before(listed, m, x) {
            let q = choose|q: int| 0 <= q < m + 1 && (#[trigger] listed[q]).id == x;
            if q < m {
                assert(listed_before(listed, m, x));
            }
        }
        if listed_before(listed, m, x) {
            let q = choose|q: int| 0 <= q < m && (#[trigger] listed[q]).id == x;
            assert(listed_before(listed, m + 1, x));
        }
        if n - 1 == jy {
            assert(listed_before(listed, m + 1, x));
        } else {
            assert(ps[n - 1].id != ps[jy].id);
        }
    }
}

proof fn lemma_walk_total_eq(
    a: Seq<crate::model::Project>,
    b: Seq<crate::model::Project>,
    roots: Seq<FolderSnapshot>,
    others: Seq<FolderSnapshot>,
    n: int,
)
    requires
        n <= a.len(),
        n <= b.len(),
        forall|j: int| 0 <= j < n ==> walk_weight(#[trigger] a[j], roots, others) == walk_weight(b[j], roots, others),
    ensures
        walk_total(a, roots, others, n) == walk_total(b, roots, others, n),
    decreases n,
{
    if n > 0 {
        lemma_walk_total_eq(a, b, roots, others, n - 1);
        assert(walk_weight(a[n - 1], roots, others) == walk_weight(b[n - 1], roots, others));
    }
}

proof fn lemma_listed_covers_active(ix: Index, listed: Seq<crate::model::Project>)
    requires
        ix.projects@.len() <= usize::MAX,
        exists|perm: Seq<usize>|
            crate::order::is_stable_desc_order(crate::index::created_times(ix.active_projects()), perm) && listed
                == crate::index::arranged(ix.active_projects(), perm),
    ensures
        forall|j: int|
            0 <= j < ix.projects@.len() && !(#[trigger] ix.projects@[j]).archived ==> listed_before(
                listed,
                listed.len() as int,
                ix.projects@[j].id,
            ),
        forall|q: int| 0 <= q < listed.len() ==> ix.projects@.contains(#[trigger] listed[q]),
        forall|q: int| 0 <= q < listed.len() ==> !(#[trigger] listed[q]).archived,
        ix.projects_wf() ==> forall|q1: int, q2: int|
            0 <= q1 < listed.len() && 0 <= q2 < listed.len() && q1 != q2 ==> (#[trigger] listed[q1]).id
                != (#[trigger] listed[q2]).id,
{
    let perm = choose|perm: Seq<usize>|
        crate::order::is_stable_desc_order(crate::index::created_times(ix.active_projects()), perm) && listed
            == crate::index::arranged(ix.active_projects(), perm);
    let act = ix.active_projects();
    assert forall|j: int| 0 <= j < ix.projects@.len() && !(#[trigger] ix.projects@[j]).archived implies listed_before(
        listed,
        listed.len() as int,
        ix.projects@[j].id,
    ) by {
        let pred = |p: crate::model::Project| !p.archived;
        assert(pred(ix.projects@[j]));
        assert(act.contains(ix.projects@[j]));
        let a = choose|a: int| 0 <= a < act.len() && act[a] == ix.projects@[j];
        assert(act.len() <= ix.projects@.len());
        assert(perm.contains(a as usize));
        let q = choose|q: int| 0 <= q < perm.len() && perm[q] == a as usize;
        assert(perm[q] as int == a);
        assert(listed[q] == act[perm[q] as int]);
    }
    assert forall|q: int| 0 <= q < listed.len() implies ix.projects@.contains(#[trigger] listed[q]) by {
        broadcast use vstd::seq::Seq::lemma_filter_contains_rev;
        let a = perm[q] as int;
        assert(listed[q] == act[a]);
        assert(act.contains(act[a]));
    }
    let pred = |p: crate::model::Project| !p.archived;
    assert forall|q: int| 0 <= q < listed.len() implies !(#[trigger] listed[q]).archived by {
        let a = perm[q] as int;
        assert(listed[q] == act[a]);
        ix.projects@.lemma_filter_pred(pred, a);
    }
    if ix.projects_wf() {
        let idx = crate::index::lemma_filter_positions(ix.projects@, pred);
        assert forall|q1: int, q2: int|
            0 <= q1 < listed.len() && 0 <= q2 < listed.len() && q1 != q2 implies (#[trigger] listed[q1]).id
                != (#[trigger] listed[q2]).id by {
            let a1 = perm[q1] as int;
            let a2 = perm[q2] as int;
            assert(perm[q1] != perm[q2]);
            assert(listed[q1] == act[a1]);
            assert(listed[q2] == act[a2]);
            assert(act[a1] == ix.projects@[idx[a1]]);
            assert(act[a2] == ix.projects@[idx[a2]]);
            if a1 < a2 {
                assert(idx[a1] < idx[a2]);
            } else {
                assert(idx[a2] < idx[a1]);
            }
        }
    }
}

impl Index {
    /// Syncs the index with the root directory, given the entries found directly in the root
    /// (`root_entries`) and the folders of the other projects (`folders`): untracked directories
    /// among the root entries are adopted as projects created at `now` (see
    /// `adopt_untracked_folders`); then each project that is not archived, newest first, is
    /// archived when no directory is found at its folder path, or else has its seed healed and
    /// its folder's walk recorded (see `refresh_project`); when something was adopted, unmatched
    /// child files are matched again (see `is_root_sync`). Returns how many folders were
    /// adopted. A refused step stops
    /// the sync and is returned (what was done before it stays done): the first refused adoption
    /// (see `adoption_refusal`), or else home-file ids running out, which cannot happen while the
    /// ids left cover every file the walks may record (see `sync_walk_total`).
    #[verifier::spinoff_prover]
    #[verifier::rlimit(60)]
    pub fn sync_root_directory(
        &mut self,
        rules: &ExtensionRules,
        root_entries: &Vec<FolderSnapshot>,
        folders: &Vec<FolderSnapshot>,
        now: i64,
    ) -> (r: Result<usize, IndexError>)
        requires
            old(self).wf(),
        ensures
            final(self).wf(),
            final(self).settings == old(self).settings,
            r is Ok ==> {
                let n = r->Ok_0;
                let fp = final(self).projects@;
                let op = old(self).projects@;
                &&& n == root_entries@.filter(|e: FolderSnapshot| is_untracked(*old(self), e)).len()
                &&& fp.len() == op.len() + n
                &&& forall|j: int| 0 <= j < op.len() ==> same_project_identity(#[trigger] op[j], fp[j])
                &&& forall|j: int|
                    op.len() <= j < fp.len() ==> (#[trigger] fp[j]).created_at == now && exists|q: int|
                        0 <= q < root_entries@.len() && is_untracked(*old(self), #[trigger] root_entries@[q])
                            && root_entries@[q].path@ == fp[j].folder_path@ && root_entries@[q].name@ == fp[j].name@
                &&& forall|j: int|
                    0 <= j < fp.len() ==> (#[trigger] fp[j]).archived == ((j < op.len() && op[j].archived) || dir_lookup(
                        root_entries@,
                        folders@,
                        fp[j].folder_path@,
                    ) is None)
                &&& forall|q: int|
                    0 <= q < root_entries@.len() && (#[trigger] root_entries@[q]).is_dir ==> exists|j: int|
                        0 <= j < fp.len() && (#[trigger] fp[j]).folder_path@ == root_entries@[q].path@ && !fp[j].archived
                &&& forall|j: int|
                    0 <= j < fp.len() && !(#[trigger] fp[j]).archived ==> seed_settled(
                        fp[j],
                        dir_lookup(root_entries@, folders@, fp[j].folder_path@),
                        *rules,
                    )
                &&& n > 0 ==> forall|i: int|
                    0 <= i < final(self).child_files@.len() && (#[trigger] final(self).child_files@[i]).matched_project_id is None
                        ==> final(self).best_match(final(self).child_files@[i].base_name@) is None
                &&& forall|j: int, p: Seq<char>|
                    #![trigger walked(root_entries@, folders@, fp[j].folder_path@, p)]
                    0 <= j < fp.len() && !fp[j].archived && walked(root_entries@, folders@, fp[j].folder_path@, p)
                        ==> present_at(final(self).home_files@, p)
            },
            r is Ok ==> is_root_sync(*old(self), root_entries@, folders@, *rules, now, r->Ok_0 as nat, *final(self)),
            forall|q: int|
                first_refusal(*old(self), root_entries@, q) ==> r == Err::<usize, IndexError>(
                    adoption_refusal(*old(self), root_entries@, q)->Some_0,
                ),
            (forall|q: int| 0 <= q < root_entries@.len() ==> (#[trigger] adoption_refusal(*old(self), root_entries@, q)) is None)
                ==> {
                &&& r is Err ==> r == Err::<usize, IndexError>(IndexError::IdsExhausted)
                &&& old(self).next_home_id + sync_walk_total(*old(self), root_entries@, folders@) <= i64::MAX ==> r is Ok
            },
    {
        let discovered = match self.adopt_untracked_folders(rules, root_entries, now) {
            Ok(n) => n,
            Err(e) => {
                proof {
                    let q0 = choose|q: int|
                        first_refusal(*old(self), root_entries@, q) && Err::<usize, IndexError>(e) == Err::<usize, IndexError>(
                            adoption_refusal(*old(self), root_entries@, q)->Some_0,
                        );
                    assert forall|q: int| first_refusal(*old(self), root_entries@, q) implies Err::<usize, IndexError>(e)
                        == Err::<usize, IndexError>(adoption_refusal(*old(self), root_entries@, q)->Some_0) by {
                        if q < q0 {
                            assert(adoption_refusal(*old(self), root_entries@, q) is None);
                        } else if q0 < q {
                            assert(adoption_refusal(*old(self), root_entries@, q0) is None);
                        }
                    }
                    assert(adoption_refusal(*old(self), root_entries@, q0) is Some);
                }
                return Err(e);
            },
        };
        let ghost adopted = *self;
        proof {
            let fresh = root_entries@.filter(|e: FolderSnapshot| is_untracked(*old(self), e));
            lemma_walk_total_adopted(old(self).projects@, adopted.projects@, fresh, root_entries@, folders@, fresh.len() as int);
        }
        let listed = self.list_projects();
        let _count = self.projects.len();
        proof {
            lemma_listed_covers_active(adopted, listed@);
            lemma_cleared_none(self.child_files@, self.projects@, self.projects@);
        }
        let ghost mut states: Seq<(Seq<crate::model::HomeFile>, i64)> = seq![(self.home_files@, self.next_home_id)];
        for m in 0..listed.len()
            invariant
                self.wf(),
                self.settings == adopted.settings,
                adopted.settings == old(self).settings,
                self.projects@.len() == adopted.projects@.len(),
                forall|j: int|
                    0 <= j < adopted.projects@.len() ==> same_project_identity(
                        #[trigger] adopted.projects@[j],
                        self.projects@[j],
                    ),
                forall|j: int|
                    0 <= j < adopted.projects@.len() && !listed_before(listed@, m as int, (#[trigger] adopted.projects@[j]).id)
                        ==> self.projects@[j] == adopted.projects@[j],
                forall|j: int|
                    0 <= j < adopted.projects@.len() && listed_before(listed@, m as int, (#[trigger] adopted.projects@[j]).id)
                        ==> self.projects@[j].archived == (adopted.projects@[j].archived || dir_lookup(
                        root_entries@,
                        folders@,
                        adopted.projects@[j].folder_path@,
                    ) is None),
                forall|j: int|
                    0 <= j < adopted.projects@.len() && listed_before(listed@, m as int, (#[trigger] adopted.projects@[j]).id)
                        && !self.projects@[j].archived ==> seed_settled(
                        self.projects@[j],
                        dir_lookup(root_entries@, folders@, adopted.projects@[j].folder_path@),
                        *rules,
                    ),
                adopted.projects_wf(),
                forall|q: int| 0 <= q < listed@.len() ==> adopted.projects@.contains(#[trigger] listed@[q]),
                forall|q: int| 0 <= q < listed@.len() ==> !(#[trigger] listed@[q]).archived,
                forall|q1: int, q2: int|
                    0 <= q1 < listed@.len() && 0 <= q2 < listed@.len() && q1 != q2 ==> (#[trigger] listed@[q1]).id
                        != (#[trigger] listed@[q2]).id,
                walks_recorded(adopted, self.home_files@, listed@, m as int, root_entries@, folders@),
                adopted.next_home_id == old(self).next_home_id,
                self.next_home_id <= adopted.next_home_id + walk_total_listed(
                    adopted.projects@,
                    root_entries@,
                    folders@,
                    listed@,
                    m as int,
                    adopted.projects@.len() as int,
                ),
                forall|q: int| 0 <= q < root_entries@.len() ==> (#[trigger] adoption_refusal(*old(self), root_entries@, q)) is None,
                walk_total(adopted.projects@, root_entries@, folders@, adopted.projects@.len() as int) == sync_walk_total(
                    *old(self),
                    root_entries@,
                    folders@,
                ),
                self.child_files@ == adopted.child_files@.map_values(
                    |c: ChildFile| cleared_of_archived(c, adopted.projects@, self.projects@),
                ),
                forall|j: int|
                    0 <= j < adopted.projects@.len() && listed_before(listed@, m as int, (#[trigger] adopted.projects@[j]).id)
                        ==> project_synced(adopted.projects@[j], self.projects@[j], root_entries@, folders@, *rules),
                walk_steps(states, listed@.take(m as int), root_entries@, folders@, *rules),
                states[0] == (adopted.home_files@, adopted.next_home_id),
                states[m as int] == (self.home_files@, self.next_home_id),
        {
            let ghost before = *self;
            let id = listed[m].id;
            proof {
                assert(adopted.projects@.contains(listed@[m as int]));
            }
            let ghost jy = choose|j: int| 0 <= j < adopted.projects@.len() && adopted.projects@[j] == listed@[m as int];
            proof {
                if listed_before(listed@, m as int, listed@[m as int].id) {
                    let q = choose|q: int| 0 <= q < m && (#[trigger] listed@[q]).id == listed@[m as int].id;
                    assert(listed@[q].id != listed@[m as int].id);
                }
                lemma_listed_total_step(
                    adopted.projects@,
                    root_entries@,
                    folders@,
                    listed@,
                    m as int,
                    adopted.projects@.len() as int,
                    jy,
                );
                lemma_listed_total_le(adopted.projects@, root_entries@, folders@, listed@, m + 1, adopted.projects@.len() as int);
                assert(same_project_identity(adopted.projects@[jy], before.projects@[jy]));
                assert(before.projects@[jy].id == id);
                assert(walk_weight(adopted.projects@[jy], root_entries@, folders@) == walk_size(
                    root_entries@,
                    folders@,
                    before.projects@[jy].folder_path@,
                ));
            }
            proof {
                assert(before.projects@[jy] == adopted.projects@[jy]);
                assert(before.projects_wf());
                assert forall|j: int| 0 <= j < before.projects@.len() && (#[trigger] before.projects@[j]).id == id implies !before.projects@[j].archived by {
                    if j != jy {
                        assert(before.projects@[j].id != before.projects@[jy].id);
                    }
                }
            }
            match self.refresh_project(id, rules, root_entries, folders) {
                Ok(()) => {},
                Err(e) => {
                    proof {
                        assert(before.projects_wf());
                        let j = choose|j: int|
                            0 <= j < before.projects@.len() && (#[trigger] before.projects@[j]).id == id && dir_lookup(
                                root_entries@,
                                folders@,
                                before.projects@[j].folder_path@,
                            ) is Some && before.next_home_id + walk_size(root_entries@, folders@, before.projects@[j].folder_path@)
                                > i64::MAX;
                        if j != jy {
                            assert(before.projects@[j].id != before.projects@[jy].id);
                        }
                        assert forall|i: int| 0 <= i < self.projects@.len() implies walk_weight(
                            #[trigger] self.projects@[i],
                            root_entries@,
                            folders@,
                        ) == walk_weight(adopted.projects@[i], root_entries@, folders@) by {
                            assert(same_project_identity(before.projects@[i], self.projects@[i]));
                            assert(same_project_identity(adopted.projects@[i], before.projects@[i]));
                        }
                        lemma_walk_total_eq(
                            self.projects@,
                            adopted.projects@,
                            root_entries@,
                            folders@,
                            self.projects@.len() as int,
                        );
                    }
                    return Err(e);
                },
            }
            proof {
                lemma_cleared_compose(adopted.child_files@, adopted.projects@, before.projects@, self.projects@);
                lemma_walk_step_same(
                    before.home_files@,
                    before.next_home_id,
                    before.projects@[jy],
                    listed@[m as int],
                    root_entries@,
                    folders@,
                    *rules,
                    self.home_files@,
                    self.next_home_id,
                );
                let ghost prev = states;
                states = states.push((self.home_files@, self.next_home_id));
                assert forall|i: int| 0 <= i < m + 1 implies folder_walk_recorded(
                    states[i].0,
                    states[i].1,
                    #[trigger] listed@.take(m + 1)[i],
                    dir_lookup(root_entries@, folders@, listed@.take(m + 1)[i].folder_path@),
                    *rules,
                    states[i + 1].0,
                    states[i + 1].1,
                ) by {
                    if i < m {
                        assert(listed@.take(m + 1)[i] == listed@.take(m as int)[i]);
                        assert(states[i] == prev[i]);
                        assert(states[i + 1] == prev[i + 1]);
                    }
                }
                assert(walk_steps(states, listed@.take(m + 1), root_entries@, folders@, *rules));
                assert(self.next_home_id <= before.next_home_id + walk_size(
                    root_entries@,
                    folders@,
                    before.projects@[jy].folder_path@,
                ));
                lemma_walks_recorded_step(
                    adopted,
                    listed@,
                    m as int,
                    root_entries@,
                    folders@,
                    before.home_files@,
                    before.next_home_id,
                    self.home_files@,
                    jy,
                );
            }
            proof {
                assert forall|j: int| 0 <= j < adopted.projects@.len() implies #[trigger] listed_before(listed@, m + 1, adopted.projects@[j].id)
                    == (listed_before(listed@, m as int, adopted.projects@[j].id) || adopted.projects@[j].id == id) by {
                    if adopted.projects@[j].id == id {
                        assert(listed@[m as int].id == id);
                    }
                    if listed_before(listed@, m + 1, adopted.projects@[j].id) && adopted.projects@[j].id != id {
                        let q = choose|q: int| 0 <= q < m + 1 && (#[trigger] listed@[q]).id == adopted.projects@[j].id;
                        assert(q < m);
                    }
                }
                assert forall|j: int| 0 <= j < adopted.projects@.len() implies same_project_identity(
                    #[trigger] adopted.projects@[j],
                    self.projects@[j],
                ) by {
                    assert(same_project_identity(before.projects@[j], self.projects@[j]));
                }
            }
        }
        let ghost refreshed = *self;
        proof {
            assert forall|j: int| 0 <= j < adopted.projects@.len() && !(#[trigger] adopted.projects@[j]).archived implies listed_before(
                listed@,
                listed@.len() as int,
                adopted.projects@[j].id,
            ) by {}
        }
        if discovered > 0 {
            let _linked = self.rematch_child_files();
            proof {
                assert forall|i: int|
                    0 <= i < self.child_files@.len() && (#[trigger] self.child_files@[i]).matched_project_id is None implies self.best_match(
                    self.child_files@[i].base_name@,
                ) is None by {
                    let c = refreshed.child_files@[i];
                    assert(self.child_files@[i] == refreshed.rematched(c));
                    crate::index::law_rematch_idempotent(refreshed, *self, c);
                }
            }
        }
        proof {
            let fp = self.projects@;
            let op = old(self).projects@;
            assert forall|j: int| 0 <= j < op.len() implies same_project_identity(#[trigger] op[j], fp[j]) by {
                assert(adopted.projects@[j] == op[j]);
                assert(same_project_identity(adopted.projects@[j], fp[j]));
            }
            assert forall|j: int| 0 <= j < fp.len() implies (#[trigger] fp[j]).archived == ((j < op.len() && op[j].archived)
                || dir_lookup(root_entries@, folders@, fp[j].folder_path@) is None) by {
                assert(same_project_identity(adopted.projects@[j], fp[j]));
                if j < op.len() {
                    assert(adopted.projects@[j] == op[j]);
                }
                if !adopted.projects@[j].archived {
                    assert(listed_before(listed@, listed@.len() as int, adopted.projects@[j].id));
                } else {
                    if !listed_before(listed@, listed@.len() as int, adopted.projects@[j].id) {
                        assert(fp[j] == adopted.projects@[j]);
                    }
                }
            }
            assert forall|j: int| op.len() <= j < fp.len() implies (#[trigger] fp[j]).created_at == now && exists|q: int|
                0 <= q < root_entries@.len() && is_untracked(*old(self), #[trigger] root_entries@[q])
                    && root_entries@[q].path@ == fp[j].folder_path@ && root_entries@[q].name@ == fp[j].name@ by {
                assert(same_project_identity(adopted.projects@[j], fp[j]));
            }
            assert forall|q: int| 0 <= q < root_entries@.len() && (#[trigger] root_entries@[q]).is_dir implies exists|j: int|
                0 <= j < fp.len() && (#[trigger] fp[j]).folder_path@ == root_entries@[q].path@ && !fp[j].archived by {
                let j = choose|j: int|
                    0 <= j < adopted.projects@.len() && !(#[trigger] adopted.projects@[j]).archived
                        && adopted.projects@[j].folder_path@ == root_entries@[q].path@;
                assert(dir_at(root_entries@, root_entries@[q].path@, q));
                assert(same_project_identity(adopted.projects@[j], fp[j]));
                assert(listed_before(listed@, listed@.len() as int, adopted.projects@[j].id));
            }
            assert forall|j: int| 0 <= j < fp.len() && !(#[trigger] fp[j]).archived implies seed_settled(
                fp[j],
                dir_lookup(root_entries@, folders@, fp[j].folder_path@),
                *rules,
            ) by {
                assert(same_project_identity(adopted.projects@[j], fp[j]));
                if !listed_before(listed@, listed@.len() as int, adopted.projects@[j].id) {
                    assert(fp[j] == adopted.projects@[j]);
                }
            }
            assert forall|j: int, p: Seq<char>|
                0 <= j < fp.len() && !fp[j].archived && #[trigger] walked(root_entries@, folders@, fp[j].folder_path@, p)
                implies present_at(self.home_files@, p) by {
                assert(same_project_identity(adopted.projects@[j], fp[j]));
                if !listed_before(listed@, listed@.len() as int, adopted.projects@[j].id) {
                    assert(fp[j] == adopted.projects@[j]);
                }
                assert(listed_before(listed@, listed@.len() as int, adopted.projects@[j].id));
                assert(walked_by(adopted, root_entries@, folders@, adopted.projects@[j].id, p));
                let h = choose|h: int|
                    0 <= h < refreshed.home_files@.len() && (#[trigger] refreshed.home_files@[h]).abs_path@ == p
                        && !refreshed.home_files@[h].missing && listed_before(
                        listed@,
                        listed@.len() as int,
                        refreshed.home_files@[h].project_id,
                    ) && walked_by(adopted, root_entries@, folders@, refreshed.home_files@[h].project_id, p);
                assert(self.home_files@[h] == refreshed.home_files@[h]);
            }
        }
        proof {
            let op = old(self).projects@;
            let fp = self.projects@;
            let ad = adopted.projects@;
            let n = discovered as nat;
            let fresh = root_entries@.filter(|e: FolderSnapshot| is_untracked(*old(self), e));
            assert(fp == refreshed.projects@);
            assert forall|j: int| 0 <= j < op.len() implies project_synced(#[trigger] op[j], fp[j], root_entries@, folders@, *rules) by {
                assert(ad[j] == op[j]);
                if op[j].archived {
                    if listed_before(listed@, listed@.len() as int, ad[j].id) {
                        let q = choose|q: int| 0 <= q < listed@.len() && (#[trigger] listed@[q]).id == ad[j].id;
                        assert(ad.contains(listed@[q]));
                        let k = choose|k: int| 0 <= k < ad.len() && ad[k] == listed@[q];
                        if k != j {
                            assert(ad[k].id != ad[j].id);
                        }
                        assert(!listed@[q].archived);
                    }
                } else {
                    assert(listed_before(listed@, listed@.len() as int, ad[j].id));
                }
            }
            assert forall|i: int| 0 <= i < n implies adopted_and_synced(
                #[trigger] fp[op.len() + i],
                fresh[i],
                old(self).next_project_id + i,
                now,
                root_entries@,
                folders@,
                *rules,
            ) by {
                let a = ad[op.len() + i];
                assert(adopted_from(a, fresh[i], *rules));
                assert(!a.archived);
                assert(listed_before(listed@, listed@.len() as int, a.id));
                assert(project_synced(a, fp[op.len() + i], root_entries@, folders@, *rules));
            }
            assert(n == fresh.len());
            assert(fp.len() == op.len() + n);
            assert(projects_after_sync(*old(self), root_entries@, folders@, *rules, now, n, fp));
            // home files
            let act = adopted.active_projects();
            let perm = choose|perm: Seq<usize>|
                crate::order::is_stable_desc_order(crate::index::created_times(act), perm) && listed@ == crate::index::arranged(act, perm);
            lemma_walked_matches_active(op, ad, fp, fp.len() as int);
            assert(ad.take(ad.len() as int) == ad);
            let walked = walked_projects(op, fp, fp.len() as int);
            assert(same_walk_order(act, walked));
            assert(crate::index::created_times(walked) =~= crate::index::created_times(act));
            assert forall|k: int| 0 <= k < listed@.len() implies (#[trigger] listed@[k]).id == crate::index::arranged(walked, perm)[k].id
                && listed@[k].folder_path@ == crate::index::arranged(walked, perm)[k].folder_path@ && listed@[k].created_at
                == crate::index::arranged(walked, perm)[k].created_at by {
                assert(listed@[k] == act[perm[k] as int]);
                assert(crate::index::arranged(walked, perm)[k] == walked[perm[k] as int]);
            }
            assert(same_walk_order(listed@, crate::index::arranged(walked, perm)));
            assert(listed@.take(listed@.len() as int) == listed@);
            assert(walks_recorded_in_order(
                adopted.home_files@,
                adopted.next_home_id,
                listed@,
                root_entries@,
                folders@,
                *rules,
                refreshed.home_files@,
                refreshed.next_home_id,
            ));
            lemma_walks_same_order(
                adopted.home_files@,
                adopted.next_home_id,
                listed@,
                crate::index::arranged(walked, perm),
                root_entries@,
                folders@,
                *rules,
                refreshed.home_files@,
                refreshed.next_home_id,
            );
            // child files
            assert forall|x: crate::model::ProjectId| archived_by_sync(ad, fp, x) == archived_by_sync(op, fp, x) by {
                if archived_by_sync(ad, fp, x) {
                    let j = choose|j: int| 0 <= j < fp.len() && (#[trigger] fp[j]).id == x && fp[j].archived && (j >= ad.len() || !ad[j].archived);
                    if j < op.len() {
                        assert(ad[j] == op[j]);
                    }
                }
                if archived_by_sync(op, fp, x) {
                    let j = choose|j: int| 0 <= j < fp.len() && (#[trigger] fp[j]).id == x && fp[j].archived && (j >= op.len() || !op[j].archived);
                    if j < op.len() {
                        assert(ad[j] == op[j]);
                    }
                }
            }
            let cleared = old(self).child_files@.map_values(|c: ChildFile| cleared_of_archived(c, op, fp));
            assert(refreshed.child_files@ =~= cleared);
            if n > 0 {
                assert forall|c: ChildFile| refreshed.rematched(c) == self.rematched(c) by {}
                assert(self.child_files@ =~= cleared.map_values(|c: ChildFile| self.rematched(c)));
            }
        }
        Ok(discovered)
    }
}

proof fn lemma_least_witness(pred: spec_fn(int) -> bool, k: int)
    requires
        0 <= k,
        pred(k),
    ensures
        exists|i: int| 0 <= i <= k && #[trigger] pred(i) && forall|j: int| 0 <= j < i ==> !#[trigger] pred(j),
    decreases k,
{
    if exists|j: int| 0 <= j < k && #[trigger] pred(j) {
        let j = choose|j: int| 0 <= j < k && #[trigger] pred(j);
        lemma_least_witness(pred, j);
    } else {
        assert(forall|j: int| 0 <= j < k ==> !#[trigger] pred(j));
    }
}

/// The seed chosen among the top-level files of a folder never passes for a source there.
proof fn lemma_folder_seed_settled(top: Seq<Seq<char>>, rules: ExtensionRules)
    ensures
        crate::scanner::folder_seed(top, rules).0 matches Some(x) ==> !crate::scanner::spec_masquerading(x, top, rules),
{
    let c1 = |i: int| crate::scanner::is_seed_candidate(top, i, rules) && !crate::scanner::has_child_ext(top[i], rules);
    let c2 = |i: int| crate::scanner::is_seed_candidate(top, i, rules);
    if exists|i: int| crate::scanner::is_seed_candidate(top, i, rules) && !crate::scanner::has_child_ext(top[i], rules) {
        let k = choose|i: int| crate::scanner::is_seed_candidate(top, i, rules) && !crate::scanner::has_child_ext(top[i], rules);
        assert(c1(k));
        lemma_least_witness(c1, k);
        let w = choose|i: int| 0 <= i <= k && #[trigger] c1(i) && forall|j: int| 0 <= j < i ==> !#[trigger] c1(j);
        assert(crate::scanner::is_seed_candidate(top, w, rules) && !crate::scanner::has_child_ext(top[w], rules) && forall|j: int|
            0 <= j < w ==> !(crate::scanner::is_seed_candidate(top, j, rules) && !crate::scanner::has_child_ext(top[j], rules))) by {
            assert forall|j: int| 0 <= j < w implies !(crate::scanner::is_seed_candidate(top, j, rules)
                && !crate::scanner::has_child_ext(top[j], rules)) by {
                assert(!c1(j));
            }
        }
        let i = crate::scanner::seed_choice(top, rules)->Some_0;
        assert(crate::scanner::is_seed_candidate(top, i, rules));
    } else if exists|i: int| crate::scanner::is_seed_candidate(top, i, rules) {
        let k = choose|i: int| crate::scanner::is_seed_candidate(top, i, rules);
        assert(c2(k));
        lemma_least_witness(c2, k);
        let w = choose|i: int| 0 <= i <= k && #[trigger] c2(i) && forall|j: int| 0 <= j < i ==> !#[trigger] c2(j);
        assert(crate::scanner::is_seed_candidate(top, w, rules) && forall|j: int|
            0 <= j < w ==> !crate::scanner::is_seed_candidate(top, j, rules)) by {
            assert forall|j: int| 0 <= j < w implies !crate::scanner::is_seed_candidate(top, j, rules) by {
                assert(!c2(j));
            }
        }
        let i = crate::scanner::seed_choice(top, rules)->Some_0;
        assert(crate::scanner::is_seed_candidate(top, i, rules));
    }
}

/// A project as a sync leaves it is left as it is by the next sync that finds the same
/// directories.
proof fn lemma_synced_is_settled(
    src: crate::model::Project,
    p: crate::model::Project,
    q: crate::model::Project,
    roots: Seq<FolderSnapshot>,
    others: Seq<FolderSnapshot>,
    rules: ExtensionRules,
)
    requires
        project_synced(src, p, roots, others, rules),
        project_synced(p, q, roots, others, rules),
    ensures
        q == p,
{
    if !p.archived {
        let s = dir_lookup(roots, others, src.folder_path@)->Some_0;
        let top = crate::model::strs_view(s.top_level_files@);
        lemma_folder_seed_settled(top, rules);
    }
}

/// A second root sync right after a successful one, finding the same root entries and other
/// folders, adopts nothing and leaves every project as it was.
pub proof fn law_sync_again_keeps_projects(
    ix0: Index,
    ix1: Index,
    ix2: Index,
    roots: Seq<FolderSnapshot>,
    others: Seq<FolderSnapshot>,
    rules: ExtensionRules,
    now1: i64,
    n1: nat,
    now2: i64,
    n2: nat,
)
    requires
        is_root_sync(ix0, roots, others, rules, now1, n1, ix1),
        is_root_sync(ix1, roots, others, rules, now2, n2, ix2),
    ensures
        n2 == 0,
        ix2.projects@ == ix1.projects@,
{
    law_sync_again_adopts_nothing(ix1, roots);
    let p0 = ix0.projects@;
    let p1 = ix1.projects@;
    let p2 = ix2.projects@;
    let fresh = roots.filter(|e: FolderSnapshot| is_untracked(ix0, e));
    assert forall|j: int| 0 <= j < p1.len() implies p2[j] == #[trigger] p1[j] by {
        assert(project_synced(p1[j], p2[j], roots, others, rules));
        if j < p0.len() {
            assert(project_synced(p0[j], p1[j], roots, others, rules));
            lemma_synced_is_settled(p0[j], p1[j], p2[j], roots, others, rules);
        } else {
            let i = j - p0.len();
            assert(adopted_and_synced(p1[p0.len() + i], fresh[i], ix0.next_project_id + i, now1, roots, others, rules));
            let a = choose|a: crate::model::Project|
                {
                    &&& a.id.0 == ix0.next_project_id + i
                    &&& !a.archived
                    &&& a.created_at == now1
                    &&& adopted_from(a, fresh[i], rules)
                    &&& #[trigger] project_synced(a, p1[p0.len() + i], roots, others, rules)
                };
            lemma_synced_is_settled(a, p1[j], p2[j], roots, others, rules);
        }
    }
    assert(p2 =~= p1);
}

/// Once a sync with root entries `roots` has succeeded, every directory among them is the folder
/// of a project that is not archived (see `sync_root_directory`), so none of them is untracked:
/// a second sync with the same entries adopts nothing.
pub proof fn law_sync_again_adopts_nothing(ix: Index, roots: Seq<FolderSnapshot>)
    requires
        forall|q: int|
            0 <= q < roots.len() && (#[trigger] roots[q]).is_dir ==> exists|j: int|
                0 <= j < ix.projects@.len() && (#[trigger] ix.projects@[j]).folder_path@ == roots[q].path@
                    && !ix.projects@[j].archived,
    ensures
        roots.filter(|e: FolderSnapshot| is_untracked(ix, e)).len() == 0,
{
    let pred = |e: FolderSnapshot| is_untracked(ix, e);
    let f = roots.filter(pred);
    if f.len() > 0 {
        assert(pred(f[0]));
        assert(f.contains(f[0]));
        roots.lemma_filter_contains_rev(pred, f[0]);
        let q = choose|q: int| 0 <= q < roots.len() && roots[q] == f[0];
        assert(roots[q].is_dir);
        let j = choose|j: int|
            0 <= j < ix.projects@.len() && (#[trigger] ix.projects@[j]).folder_path@ == roots[q].path@
                && !ix.projects@[j].archived;
        assert(!is_untracked(ix, roots[q]));
    }
}

} // verus!

