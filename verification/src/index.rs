//! The project index: settings, projects, the files inside project folders ("home" files) and
//! the derived files found in the relevant directories ("child" files), with the rules that
//! keep them in step with what is on disk and link child files to projects by base name.
use vstd::prelude::*;
use crate::model::{
    dup_strings, strs_view, ChildFile, ChildFileId, ExtensionRules, FileSource, HomeFile, HomeFileId, Project,
    ProjectFileView, ProjectId, Settings,
};
use crate::order::{is_stable_desc_order, is_stable_text_order, stable_desc_order, stable_text_order};
use crate::text::chars_of;

verus! {

broadcast use {vstd::seq_lib::group_seq_properties, vstd::seq_lib::group_filter_ensures};

/// Why an index operation was refused.
#[derive(Debug, Clone, Copy, PartialEq, Eq, Structural)]
pub enum IndexError {
    /// Another project already uses this folder.
    FolderTaken,
    /// No project has this id.
    ProjectNotFound(ProjectId),
    /// No child file has this id.
    ChildFileNotFound(ChildFileId),
    /// The identifier space of a table is used up.
    IdsExhausted,
    /// The root and relevant directories are not configured.
    DirectoriesNotConfigured,
}

/// A file found inside a project's folder by a scan.
#[derive(Debug, Clone)]
pub struct ScannedFile {
    pub abs_path: String,
    pub relative_path: String,
    pub file_name: String,
    pub ext: String,
    pub size_bytes: u64,
    pub created_at: i64,
    pub modified_at: i64,
    pub base_name: Option<String>,
}

/// A child-extension file found in a relevant directory by a scan.
#[derive(Debug, Clone)]
pub struct ScannedChildFile {
    pub abs_path: String,
    pub file_name: String,
    pub base_name: String,
    pub ext: String,
    pub size_bytes: u64,
    pub created_at: i64,
    pub modified_at: i64,
}

/// `src` rearranged in the order given by `perm`.
pub open spec fn arranged<T>(src: Seq<T>, perm: Seq<usize>) -> Seq<T> {
    perm.map_values(|i: usize| src[i as int])
}

/// The rows of a file list, as shown for a project, for a home file.
pub open spec fn home_view(h: HomeFile) -> ProjectFileView {
    ProjectFileView {
        source: FileSource::Home,
        child_file_id: None,
        abs_path: h.abs_path,
        file_name: h.file_name,
        ext: h.ext,
        size_bytes: h.size_bytes,
        created_at: h.created_at,
        modified_at: h.modified_at,
        base_name: h.base_name,
    }
}

/// The row of a project's file list for a child file.
pub open spec fn child_view(c: ChildFile) -> ProjectFileView {
    ProjectFileView {
        source: FileSource::Child,
        child_file_id: Some(c.id),
        abs_path: c.abs_path,
        file_name: c.file_name,
        ext: c.ext,
        size_bytes: c.size_bytes,
        created_at: c.created_at,
        modified_at: c.modified_at,
        base_name: Some(c.base_name),
    }
}

/// The record of a scanned home file, kept under `id` for project `pid`.
pub open spec fn scanned_home(id: HomeFileId, pid: ProjectId, s: ScannedFile) -> HomeFile {
    HomeFile {
        id: id,
        project_id: pid,
        abs_path: s.abs_path,
        relative_path: s.relative_path,
        file_name: s.file_name,
        ext: s.ext,
        size_bytes: s.size_bytes,
        created_at: s.created_at,
        modified_at: s.modified_at,
        missing: false,
        base_name: s.base_name,
    }
}

/// The record of a scanned child file, kept under `id` with the given match.
pub open spec fn scanned_child(id: ChildFileId, matched: Option<ProjectId>, s: ScannedChildFile) -> ChildFile {
    ChildFile {
        id: id,
        abs_path: s.abs_path,
        file_name: s.file_name,
        base_name: s.base_name,
        ext: s.ext,
        size_bytes: s.size_bytes,
        created_at: s.created_at,
        modified_at: s.modified_at,
        missing: false,
        matched_project_id: matched,
    }
}

/// The index of the home file with path `p`, if any (paths are unique in a well-formed index).
pub open spec fn home_path_index(rows: Seq<HomeFile>, p: Seq<char>) -> Option<int> {
    if exists|i: int| 0 <= i < rows.len() && (#[trigger] rows[i]).abs_path@ == p {
        Some(choose|i: int| 0 <= i < rows.len() && (#[trigger] rows[i]).abs_path@ == p)
    } else {
        None
    }
}

/// The index of the child file with path `p`, if any.
pub open spec fn child_path_index(rows: Seq<ChildFile>, p: Seq<char>) -> Option<int> {
    if exists|i: int| 0 <= i < rows.len() && (#[trigger] rows[i]).abs_path@ == p {
        Some(choose|i: int| 0 <= i < rows.len() && (#[trigger] rows[i]).abs_path@ == p)
    } else {
        None
    }
}

/// One scanned home file merged in: the row with its path is refreshed (keeping its id) or,
/// when there is none, a row with the next id is added.
pub open spec fn upsert_home(rows: Seq<HomeFile>, next: i64, pid: ProjectId, s: ScannedFile) -> (Seq<HomeFile>, i64) {
    match home_path_index(rows, s.abs_path@) {
        Some(i) => (rows.update(i, scanned_home(rows[i].id, pid, s)), next),
        None => (rows.push(scanned_home(HomeFileId(next), pid, s)), (next + 1) as i64),
    }
}

/// The scanned home files merged in, one after the other.
pub open spec fn upsert_homes(rows: Seq<HomeFile>, next: i64, pid: ProjectId, sc: Seq<ScannedFile>) -> (Seq<HomeFile>, i64)
    decreases sc.len(),
{
    if sc.len() == 0 {
        (rows, next)
    } else {
        let (r, n) = upsert_homes(rows, next, pid, sc.drop_last());
        upsert_home(r, n, pid, sc.last())
    }
}

/// The paths of a scan.
pub open spec fn scanned_paths(sc: Seq<ScannedFile>) -> Seq<Seq<char>> {
    sc.map_values(|s: ScannedFile| s.abs_path@)
}

/// The paths of a scan of the relevant directories.
pub open spec fn scanned_child_paths(sc: Seq<ScannedChildFile>) -> Seq<Seq<char>> {
    sc.map_values(|s: ScannedChildFile| s.abs_path@)
}

/// Home files of project `pid` that the scan did not see are marked missing.
pub open spec fn mark_home_missing(rows: Seq<HomeFile>, pid: ProjectId, seen: Seq<Seq<char>>) -> Seq<HomeFile> {
    rows.map_values(
        |h: HomeFile|
            if h.project_id == pid && !seen.contains(h.abs_path@) {
                HomeFile { missing: true, ..h }
            } else {
                h
            },
    )
}

/// One scanned child file merged in: the row with its path is refreshed (keeping its id and
/// its match) or, when there is none, an unmatched row with the next id is added.
pub open spec fn upsert_child(rows: Seq<ChildFile>, next: i64, s: ScannedChildFile) -> (Seq<ChildFile>, i64) {
    match child_path_index(rows, s.abs_path@) {
        Some(i) => (rows.update(i, scanned_child(rows[i].id, rows[i].matched_project_id, s)), next),
        None => (rows.push(scanned_child(ChildFileId(next), None, s)), (next + 1) as i64),
    }
}

/// The scanned child files merged in, one after the other.
pub open spec fn upsert_children(rows: Seq<ChildFile>, next: i64, sc: Seq<ScannedChildFile>) -> (Seq<ChildFile>, i64)
    decreases sc.len(),
{
    if sc.len() == 0 {
        (rows, next)
    } else {
        let (r, n) = upsert_children(rows, next, sc.drop_last());
        upsert_child(r, n, sc.last())
    }
}

/// Child files that the scan did not see are marked missing.
pub open spec fn mark_children_missing(rows: Seq<ChildFile>, seen: Seq<Seq<char>>) -> Seq<ChildFile> {
    rows.map_values(
        |c: ChildFile|
            if !seen.contains(c.abs_path@) {
                ChildFile { missing: true, ..c }
            } else {
                c
            },
    )
}

/// The view of an optional string slice.
pub open spec fn opt_str_view(o: Option<&str>) -> Option<Seq<char>> {
    match o {
        Some(s) => Some(s@),
        None => None,
    }
}

/// The view of an optional string.
pub open spec fn opt_string_view(o: Option<String>) -> Option<Seq<char>> {
    match o {
        Some(s) => Some(s@),
        None => None,
    }
}

fn own_opt_str(o: Option<&str>) -> (r: Option<String>)
    ensures
        opt_string_view(r) == opt_str_view(o),
{
    match o {
        Some(s) => Some(crate::text::string_of(&chars_of(s))),
        None => None,
    }
}

/// The file names of a list of rows, as sort keys.
pub open spec fn view_names(v: Seq<ProjectFileView>) -> Seq<Seq<char>> {
    v.map_values(|f: ProjectFileView| f.file_name@)
}

/// The file names of a list of child files, as sort keys.
pub open spec fn child_names(v: Seq<ChildFile>) -> Seq<Seq<char>> {
    v.map_values(|c: ChildFile| c.file_name@)
}

/// The creation times of a list of projects, as sort keys.
pub open spec fn created_times(v: Seq<Project>) -> Seq<i64> {
    v.map_values(|p: Project| p.created_at)
}

fn home_view_exec(h: &HomeFile) -> (r: ProjectFileView)
    ensures
        r == home_view(*h),
{
    ProjectFileView {
        source: FileSource::Home,
        child_file_id: None,
        abs_path: h.abs_path.clone(),
        file_name: h.file_name.clone(),
        ext: h.ext.clone(),
        size_bytes: h.size_bytes,
        created_at: h.created_at,
        modified_at: h.modified_at,
        base_name: crate::model::dup_opt_string(&h.base_name),
    }
}

fn child_view_exec(c: &ChildFile) -> (r: ProjectFileView)
    ensures
        r == child_view(*c),
{
    ProjectFileView {
        source: FileSource::Child,
        child_file_id: Some(c.id),
        abs_path: c.abs_path.clone(),
        file_name: c.file_name.clone(),
        ext: c.ext.clone(),
        size_bytes: c.size_bytes,
        created_at: c.created_at,
        modified_at: c.modified_at,
        base_name: Some(c.base_name.clone()),
    }
}

fn name_keys_of_views(v: &Vec<ProjectFileView>) -> (r: Vec<Vec<char>>)
    ensures
        r@.map_values(|k: Vec<char>| k@) == view_names(v@),
{
    let mut r: Vec<Vec<char>> = Vec::new();
    for i in 0..v.len()
        invariant
            r@.map_values(|k: Vec<char>| k@) == view_names(v@).take(i as int),
    {
        let ghost old_r = r@;
        r.push(chars_of(v[i].file_name.as_str()));
        assert(r@.map_values(|k: Vec<char>| k@) =~= old_r.map_values(|k: Vec<char>| k@).push(v@[i as int].file_name@));
        assert(view_names(v@).take(i + 1) =~= view_names(v@).take(i as int).push(v@[i as int].file_name@));
    }
    assert(view_names(v@).take(v@.len() as int) =~= view_names(v@));
    r
}

fn name_keys_of_children(v: &Vec<ChildFile>) -> (r: Vec<Vec<char>>)
    ensures
        r@.map_values(|k: Vec<char>| k@) == child_names(v@),
{
    let mut r: Vec<Vec<char>> = Vec::new();
    for i in 0..v.len()
        invariant
            r@.map_values(|k: Vec<char>| k@) == child_names(v@).take(i as int),
    {
        let ghost old_r = r@;
        r.push(chars_of(v[i].file_name.as_str()));
        assert(r@.map_values(|k: Vec<char>| k@) =~= old_r.map_values(|k: Vec<char>| k@).push(v@[i as int].file_name@));
        assert(child_names(v@).take(i + 1) =~= child_names(v@).take(i as int).push(v@[i as int].file_name@));
    }
    assert(child_names(v@).take(v@.len() as int) =~= child_names(v@));
    r
}

fn arrange_views(src: &Vec<ProjectFileView>, perm: &Vec<usize>) -> (r: Vec<ProjectFileView>)
    requires
        forall|i: int| 0 <= i < perm@.len() ==> #[trigger] perm@[i] < src@.len(),
    ensures
        r@ == arranged(src@, perm@),
{
    let mut r: Vec<ProjectFileView> = Vec::new();
    for i in 0..perm.len()
        invariant
            forall|i: int| 0 <= i < perm@.len() ==> #[trigger] perm@[i] < src@.len(),
            r@ == arranged(src@, perm@).take(i as int),
    {
        r.push(src[perm[i]].duplicate());
        assert(arranged(src@, perm@).take(i + 1) =~= arranged(src@, perm@).take(i as int).push(src@[perm@[i as int] as int]));
    }
    assert(arranged(src@, perm@).take(perm@.len() as int) =~= arranged(src@, perm@));
    r
}

fn arrange_children(src: &Vec<ChildFile>, perm: &Vec<usize>) -> (r: Vec<ChildFile>)
    requires
        forall|i: int| 0 <= i < perm@.len() ==> #[trigger] perm@[i] < src@.len(),
    ensures
        r@ == arranged(src@, perm@),
{
    let mut r: Vec<ChildFile> = Vec::new();
    for i in 0..perm.len()
        invariant
            forall|i: int| 0 <= i < perm@.len() ==> #[trigger] perm@[i] < src@.len(),
            r@ == arranged(src@, perm@).take(i as int),
    {
        r.push(src[perm[i]].duplicate());
        assert(arranged(src@, perm@).take(i + 1) =~= arranged(src@, perm@).take(i as int).push(src@[perm@[i as int] as int]));
    }
    assert(arranged(src@, perm@).take(perm@.len() as int) =~= arranged(src@, perm@));
    r
}

fn arrange_projects(src: &Vec<Project>, perm: &Vec<usize>) -> (r: Vec<Project>)
    requires
        forall|i: int| 0 <= i < perm@.len() ==> #[trigger] perm@[i] < src@.len(),
    ensures
        r@ == arranged(src@, perm@),
{
    let mut r: Vec<Project> = Vec::new();
    for i in 0..perm.len()
        invariant
            forall|i: int| 0 <= i < perm@.len() ==> #[trigger] perm@[i] < src@.len(),
            r@ == arranged(src@, perm@).take(i as int),
    {
        r.push(src[perm[i]].duplicate());
        assert(arranged(src@, perm@).take(i + 1) =~= arranged(src@, perm@).take(i as int).push(src@[perm@[i as int] as int]));
    }
    assert(arranged(src@, perm@).take(perm@.len() as int) =~= arranged(src@, perm@));
    r
}

/// The elements kept by a filter sit at increasing positions of the filtered sequence.
pub proof fn lemma_filter_positions<A>(s: Seq<A>, pred: spec_fn(A) -> bool) -> (idx: Seq<int>)
    ensures
        idx.len() == s.filter(pred).len(),
        forall|i: int| 0 <= i < idx.len() ==> 0 <= #[trigger] idx[i] < s.len() && s.filter(pred)[i] == s[idx[i]],
        forall|i: int, j: int| 0 <= i < j < idx.len() ==> #[trigger] idx[i] < #[trigger] idx[j],
    decreases s.len(),
{
    reveal(Seq::filter);
    if s.len() == 0 {
        Seq::empty()
    } else {
        let rest = lemma_filter_positions(s.drop_last(), pred);
        if pred(s.last()) {
            rest.push(s.len() - 1)
        } else {
            rest
        }
    }
}

fn find_home_path(rows: &Vec<HomeFile>, p: &String) -> (r: Option<usize>)
    ensures
        match r {
            Some(j) => j < rows@.len() && rows@[j as int].abs_path@ == p@,
            None => forall|m: int| 0 <= m < rows@.len() ==> (#[trigger] rows@[m]).abs_path@ != p@,
        },
{
    for j in 0..rows.len()
        invariant
            forall|m: int| 0 <= m < j ==> (#[trigger] rows@[m]).abs_path@ != p@,
    {
        if rows[j].abs_path == *p {
            return Some(j);
        }
    }
    None
}

fn find_child_path(rows: &Vec<ChildFile>, p: &String) -> (r: Option<usize>)
    ensures
        match r {
            Some(j) => j < rows@.len() && rows@[j as int].abs_path@ == p@,
            None => forall|m: int| 0 <= m < rows@.len() ==> (#[trigger] rows@[m]).abs_path@ != p@,
        },
{
    for j in 0..rows.len()
        invariant
            forall|m: int| 0 <= m < j ==> (#[trigger] rows@[m]).abs_path@ != p@,
    {
        if rows[j].abs_path == *p {
            return Some(j);
        }
    }
    None
}

fn scanned_home_exec(id: HomeFileId, pid: ProjectId, s: &ScannedFile) -> (r: HomeFile)
    ensures
        r == scanned_home(id, pid, *s),
{
    HomeFile {
        id: id,
        project_id: pid,
        abs_path: s.abs_path.clone(),
        relative_path: s.relative_path.clone(),
        file_name: s.file_name.clone(),
        ext: s.ext.clone(),
        size_bytes: s.size_bytes,
        created_at: s.created_at,
        modified_at: s.modified_at,
        missing: false,
        base_name: crate::model::dup_opt_string(&s.base_name),
    }
}

fn scanned_child_exec(id: ChildFileId, matched: Option<ProjectId>, s: &ScannedChildFile) -> (r: ChildFile)
    ensures
        r == scanned_child(id, matched, *s),
{
    ChildFile {
        id: id,
        abs_path: s.abs_path.clone(),
        file_name: s.file_name.clone(),
        base_name: s.base_name.clone(),
        ext: s.ext.clone(),
        size_bytes: s.size_bytes,
        created_at: s.created_at,
        modified_at: s.modified_at,
        missing: false,
        matched_project_id: matched,
    }
}

fn scanned_home_paths(sc: &Vec<ScannedFile>) -> (r: Vec<String>)
    ensures
        strs_view(r@) == scanned_paths(sc@),
{
    let mut r: Vec<String> = Vec::new();
    for i in 0..sc.len()
        invariant
            strs_view(r@) == scanned_paths(sc@).take(i as int),
    {
        let ghost old_r = r@;
        r.push(sc[i].abs_path.clone());
        assert(strs_view(r@) =~= strs_view(old_r).push(sc@[i as int].abs_path@));
        assert(scanned_paths(sc@).take(i + 1) =~= scanned_paths(sc@).take(i as int).push(sc@[i as int].abs_path@));
    }
    assert(scanned_paths(sc@).take(sc@.len() as int) =~= scanned_paths(sc@));
    r
}

fn scanned_child_paths_exec(sc: &Vec<ScannedChildFile>) -> (r: Vec<String>)
    ensures
        strs_view(r@) == scanned_child_paths(sc@),
{
    let mut r: Vec<String> = Vec::new();
    for i in 0..sc.len()
        invariant
            strs_view(r@) == scanned_child_paths(sc@).take(i as int),
    {
        let ghost old_r = r@;
        r.push(sc[i].abs_path.clone());
        assert(strs_view(r@) =~= strs_view(old_r).push(sc@[i as int].abs_path@));
        assert(scanned_child_paths(sc@).take(i + 1) =~= scanned_child_paths(sc@).take(i as int).push(sc@[i as int].abs_path@));
    }
    assert(scanned_child_paths(sc@).take(sc@.len() as int) =~= scanned_child_paths(sc@));
    r
}

/// Project `i` may take child files with base name `b`: it is not archived and one of its
/// present home files has base name `b`.
pub open spec fn is_match_candidate_in(ps: Seq<Project>, hs: Seq<HomeFile>, i: int, b: Seq<char>) -> bool {
    &&& 0 <= i < ps.len()
    &&& !ps[i].archived
    &&& exists|h: int|
        0 <= h < hs.len() && (#[trigger] hs[h]).project_id == ps[i].id && !hs[h].missing
            && opt_string_view(hs[h].base_name) == Some(b)
}

/// Project `i` is the newest candidate for base name `b` (the earliest in index order among
/// candidates created at the same time).
pub open spec fn is_best_match_in(ps: Seq<Project>, hs: Seq<HomeFile>, i: int, b: Seq<char>) -> bool {
    &&& is_match_candidate_in(ps, hs, i, b)
    &&& forall|j: int|
        #[trigger] is_match_candidate_in(ps, hs, j, b) ==> ps[j].created_at < ps[i].created_at || (ps[j].created_at
            == ps[i].created_at && i <= j)
}

/// The project that child files with base name `b` are matched to, if any.
pub open spec fn best_match_in(ps: Seq<Project>, hs: Seq<HomeFile>, b: Seq<char>) -> Option<ProjectId> {
    if exists|i: int| is_best_match_in(ps, hs, i, b) {
        Some(ps[choose|i: int| is_best_match_in(ps, hs, i, b)].id)
    } else {
        None
    }
}

/// The project index.
pub struct Index {
    pub settings: Settings,
    pub projects: Vec<Project>,
    pub home_files: Vec<HomeFile>,
    pub child_files: Vec<ChildFile>,
    pub next_project_id: i64,
    pub next_home_id: i64,
    pub next_child_id: i64,
}

impl Index {
    /// Projects have distinct ids below the next id, and distinct folders.
    pub open spec fn projects_wf(&self) -> bool {
        &&& forall|i: int| 0 <= i < self.projects@.len() ==> 1 <= (#[trigger] self.projects@[i]).id.0 < self.next_project_id
        &&& forall|i: int, j: int|
            0 <= i < self.projects@.len() && 0 <= j < self.projects@.len() && i != j ==> (#[trigger] self.projects@[i]).id
                != (#[trigger] self.projects@[j]).id && self.projects@[i].folder_path@ != self.projects@[j].folder_path@
    }

    /// `pid` is the id of a project.
    pub open spec fn has_project(&self, pid: ProjectId) -> bool {
        exists|i: int| 0 <= i < self.projects@.len() && (#[trigger] self.projects@[i]).id == pid
    }

    /// `pid` is the id of a project that is not archived.
    pub open spec fn has_active_project(&self, pid: ProjectId) -> bool {
        exists|i: int| 0 <= i < self.projects@.len() && (#[trigger] self.projects@[i]).id == pid && !self.projects@[i].archived
    }

    /// `rows` have distinct ids in `1..next` and distinct paths, and belong to projects of the
    /// index.
    pub open spec fn home_rows_ok(&self, rows: Seq<HomeFile>, next: i64) -> bool {
        &&& forall|i: int| 0 <= i < rows.len() ==> 1 <= (#[trigger] rows[i]).id.0 < next
        &&& forall|i: int, j: int|
            0 <= i < rows.len() && 0 <= j < rows.len() && i != j ==> (#[trigger] rows[i]).id != (#[trigger] rows[j]).id
                && rows[i].abs_path@ != rows[j].abs_path@
        &&& forall|i: int| 0 <= i < rows.len() ==> self.has_project((#[trigger] rows[i]).project_id)
    }

    /// Home files have distinct ids below the next id and distinct paths, and belong to
    /// projects of the index.
    pub open spec fn homes_wf(&self) -> bool {
        self.home_rows_ok(self.home_files@, self.next_home_id)
    }

    /// `rows` have distinct ids in `1..next` and distinct paths, and are matched only to
    /// projects that are not archived.
    pub open spec fn child_rows_ok(&self, rows: Seq<ChildFile>, next: i64) -> bool {
        &&& forall|i: int| 0 <= i < rows.len() ==> 1 <= (#[trigger] rows[i]).id.0 < next
        &&& forall|i: int, j: int|
            0 <= i < rows.len() && 0 <= j < rows.len() && i != j ==> (#[trigger] rows[i]).id != (#[trigger] rows[j]).id
                && rows[i].abs_path@ != rows[j].abs_path@
        &&& forall|i: int|
            0 <= i < rows.len() ==> match (#[trigger] rows[i]).matched_project_id {
                Some(pid) => self.has_active_project(pid),
                None => true,
            }
    }

    /// Child files have distinct ids below the next id and distinct paths, and are matched
    /// only to projects that are not archived.
    pub open spec fn children_wf(&self) -> bool {
        self.child_rows_ok(self.child_files@, self.next_child_id)
    }

    /// The index is well formed.
    pub open spec fn wf(&self) -> bool {
        &&& self.next_project_id >= 1
        &&& self.next_home_id >= 1
        &&& self.next_child_id >= 1
        &&& self.projects_wf()
        &&& self.homes_wf()
        &&& self.children_wf()
    }

    /// An empty index with unconfigured settings.
    pub fn new() -> (r: Index)
        ensures
            r.wf(),
            r.settings.root_directory is None,
            r.settings.relevant_directories@.len() == 0,
            r.settings.extension_rules.parents() == seq!["png"@, "jpg"@, "jpeg"@, "bmp"@],
            r.settings.extension_rules.children() == seq!["prt"@, "bmp"@],
            r.projects@.len() == 0,
            r.home_files@.len() == 0,
            r.child_files@.len() == 0,
    {
        Index {
            settings: Settings::unconfigured(),
            projects: Vec::new(),
            home_files: Vec::new(),
            child_files: Vec::new(),
            next_project_id: 1,
            next_home_id: 1,
            next_child_id: 1,
        }
    }

    // ----- settings ---------------------------------------------------------------------

    /// The current settings.
    pub fn get_settings(&self) -> (r: Settings)
        ensures
            r.root_directory == self.settings.root_directory,
            r.relevant_directories@ == self.settings.relevant_directories@,
            r.extension_rules.parent_extensions@ == self.settings.extension_rules.parent_extensions@,
            r.extension_rules.child_extensions@ == self.settings.extension_rules.child_extensions@,
    {
        self.settings.duplicate()
    }

    /// Sets the root directory; everything else is kept.
    pub fn set_root_directory(&mut self, root: &str)
        requires
            old(self).wf(),
        ensures
            final(self).wf(),
            final(self).settings.root_directory matches Some(r) && r@ == root@,
            final(self).settings.relevant_directories == old(self).settings.relevant_directories,
            final(self).settings.extension_rules == old(self).settings.extension_rules,
            final(self).projects == old(self).projects,
            final(self).home_files == old(self).home_files,
            final(self).child_files == old(self).child_files,
            final(self).next_project_id == old(self).next_project_id,
            final(self).next_home_id == old(self).next_home_id,
            final(self).next_child_id == old(self).next_child_id,
    {
        self.settings.root_directory = Some(crate::text::string_of(&chars_of(root)));
    }

    /// Replaces the list of relevant directories; everything else is kept.
    pub fn replace_relevant_directories(&mut self, dirs: &Vec<String>)
        requires
            old(self).wf(),
        ensures
            final(self).wf(),
            final(self).settings.relevant_directories@ == dirs@,
            final(self).settings.root_directory == old(self).settings.root_directory,
            final(self).settings.extension_rules == old(self).settings.extension_rules,
            final(self).projects == old(self).projects,
            final(self).home_files == old(self).home_files,
            final(self).child_files == old(self).child_files,
            final(self).next_project_id == old(self).next_project_id,
            final(self).next_home_id == old(self).next_home_id,
            final(self).next_child_id == old(self).next_child_id,
    {
        self.settings.relevant_directories = dup_strings(dirs);
    }

    /// Replaces the extension rules; everything else is kept.
    pub fn set_extension_rules(&mut self, rules: &ExtensionRules)
        requires
            old(self).wf(),
        ensures
            final(self).wf(),
            final(self).settings.extension_rules.parent_extensions@ == rules.parent_extensions@,
            final(self).settings.extension_rules.child_extensions@ == rules.child_extensions@,
            final(self).settings.root_directory == old(self).settings.root_directory,
            final(self).settings.relevant_directories == old(self).settings.relevant_directories,
            final(self).projects == old(self).projects,
            final(self).home_files == old(self).home_files,
            final(self).child_files == old(self).child_files,
            final(self).next_project_id == old(self).next_project_id,
            final(self).next_home_id == old(self).next_home_id,
            final(self).next_child_id == old(self).next_child_id,
    {
        self.settings.extension_rules = rules.duplicate();
    }

    // ----- projects ---------------------------------------------------------------------

    /// Whether some project (archived or not) uses `folder_path`.
    pub fn folder_path_taken(&self, folder_path: &str) -> (r: bool)
        ensures
            r == exists|i: int| 0 <= i < self.projects@.len() && (#[trigger] self.projects@[i]).folder_path@ == folder_path@,
    {
        let f = crate::text::string_of(&chars_of(folder_path));
        for i in 0..self.projects.len()
            invariant
                f@ == folder_path@,
                forall|j: int| 0 <= j < i ==> (#[trigger] self.projects@[j]).folder_path@ != folder_path@,
        {
            if self.projects[i].folder_path == f {
                return true;
            }
        }
        false
    }

    /// Records a new project. Refused when another project already uses the folder, or when
    /// project ids are used up; otherwise the project gets the next id and is not archived.
    pub fn create_project(
        &mut self,
        name: &str,
        folder_path: &str,
        seed_filename: Option<&str>,
        seed_basename: Option<&str>,
        created_at: i64,
    ) -> (r: Result<Project, IndexError>)
        requires
            old(self).wf(),
        ensures
            final(self).wf(),
            final(self).settings == old(self).settings,
            final(self).home_files == old(self).home_files,
            final(self).child_files == old(self).child_files,
            final(self).next_home_id == old(self).next_home_id,
            final(self).next_child_id == old(self).next_child_id,
            (exists|i: int| 0 <= i < old(self).projects@.len() && (#[trigger] old(self).projects@[i]).folder_path@ == folder_path@)
                ==> r == Err::<Project, IndexError>(IndexError::FolderTaken) && final(self).projects == old(self).projects
                    && final(self).next_project_id == old(self).next_project_id,
            !(exists|i: int| 0 <= i < old(self).projects@.len() && (#[trigger] old(self).projects@[i]).folder_path@ == folder_path@)
                && old(self).next_project_id == i64::MAX ==> r == Err::<Project, IndexError>(IndexError::IdsExhausted)
                    && final(self).projects == old(self).projects && final(self).next_project_id == old(self).next_project_id,
            !(exists|i: int| 0 <= i < old(self).projects@.len() && (#[trigger] old(self).projects@[i]).folder_path@ == folder_path@)
                && old(self).next_project_id < i64::MAX ==> (r matches Ok(p) && {
                    &&& p.id == ProjectId(old(self).next_project_id)
                    &&& p.name@ == name@
                    &&& p.folder_path@ == folder_path@
                    &&& (match seed_filename {
                        Some(s) => p.seed_filename matches Some(t) && t@ == s@,
                        None => p.seed_filename is None,
                    })
                    &&& (match seed_basename {
                        Some(s) => p.seed_basename matches Some(t) && t@ == s@,
                        None => p.seed_basename is None,
                    })
                    &&& p.created_at == created_at
                    &&& !p.archived
                    &&& final(self).projects@ == old(self).projects@.push(p)
                    &&& final(self).next_project_id == old(self).next_project_id + 1
                }),
    {
        if self.folder_path_taken(folder_path) {
            return Err(IndexError::FolderTaken);
        }
        if self.next_project_id == i64::MAX {
            return Err(IndexError::IdsExhausted);
        }
        let p = Project {
            id: ProjectId(self.next_project_id),
            name: crate::text::string_of(&chars_of(name)),
            folder_path: crate::text::string_of(&chars_of(folder_path)),
            seed_filename: match seed_filename {
                Some(s) => Some(crate::text::string_of(&chars_of(s))),
                None => None,
            },
            seed_basename: match seed_basename {
                Some(s) => Some(crate::text::string_of(&chars_of(s))),
                None => None,
            },
            created_at: created_at,
            archived: false,
        };
        let ghost old_index = *self;
        self.projects.push(p.duplicate());
        self.next_project_id = self.next_project_id + 1;
        assert forall|i: int| 0 <= i < self.home_files@.len() implies self.has_project((#[trigger] self.home_files@[i]).project_id) by {
            assert(old_index.has_project(self.home_files@[i].project_id));
            let j = choose|j: int| 0 <= j < old_index.projects@.len() && (#[trigger] old_index.projects@[j]).id == self.home_files@[i].project_id;
            assert(self.projects@[j] == old_index.projects@[j]);
        }
        assert forall|i: int| 0 <= i < self.child_files@.len() implies match (#[trigger] self.child_files@[i]).matched_project_id {
            Some(pid) => self.has_active_project(pid),
            None => true,
        } by {
            if let Some(pid) = self.child_files@[i].matched_project_id {
                assert(old_index.has_active_project(pid));
                let j = choose|j: int| 0 <= j < old_index.projects@.len() && (#[trigger] old_index.projects@[j]).id == pid && !old_index.projects@[j].archived;
                assert(self.projects@[j] == old_index.projects@[j]);
            }
        }
        Ok(p)
    }

    /// The project with id `id`, if there is one.
    pub fn get_project(&self, id: ProjectId) -> (r: Option<Project>)
        requires
            self.wf(),
        ensures
            match r {
                Some(p) => exists|i: int| 0 <= i < self.projects@.len() && self.projects@[i] == p && p.id == id,
                None => !self.has_project(id),
            },
    {
        for i in 0..self.projects.len()
            invariant
                forall|j: int| 0 <= j < i ==> (#[trigger] self.projects@[j]).id != id,
        {
            if self.projects[i].id == id {
                return Some(self.projects[i].duplicate());
            }
        }
        None
    }

    /// Projects that are not archived, in index order.
    pub open spec fn active_projects(&self) -> Seq<Project> {
        self.projects@.filter(|p: Project| !p.archived)
    }

    /// The projects that are not archived, newest first (projects created at the same time keep
    /// their index order).
    pub fn list_projects(&self) -> (r: Vec<Project>)
        ensures
            exists|perm: Seq<usize>|
                is_stable_desc_order(created_times(self.active_projects()), perm) && r@ == arranged(
                    self.active_projects(),
                    perm,
                ),
    {
        let ghost pred = |p: Project| !p.archived;
        let mut act: Vec<Project> = Vec::new();
        let mut keys: Vec<i64> = Vec::new();
        for i in 0..self.projects.len()
            invariant
                pred == (|p: Project| !p.archived),
                act@ == self.projects@.take(i as int).filter(pred),
                keys@ == created_times(act@),
        {
            assert(self.projects@.take(i + 1) == self.projects@.take(i as int).push(self.projects@[i as int]));
            proof {
                self.projects@.take(i as int).lemma_filter_push(self.projects@[i as int], pred);
            }
            if !self.projects[i].archived {
                act.push(self.projects[i].duplicate());
                keys.push(self.projects[i].created_at);
                assert(keys@ =~= created_times(act@));
            }
        }
        assert(self.projects@.take(self.projects@.len() as int) == self.projects@);
        assert(act@ == self.active_projects());
        let perm = stable_desc_order(&keys);
        let r = arrange_projects(&act, &perm);
        assert(is_stable_desc_order(created_times(self.active_projects()), perm@) && r@ == arranged(self.active_projects(), perm@));
        r
    }

    /// Replaces the seed file name and seed base name of project `id`; nothing changes when no
    /// project has that id.
    pub fn update_project_seed(&mut self, id: ProjectId, seed_filename: Option<&str>, seed_basename: Option<&str>)
        requires
            old(self).wf(),
        ensures
            final(self).wf(),
            final(self).settings == old(self).settings,
            final(self).home_files == old(self).home_files,
            final(self).child_files == old(self).child_files,
            final(self).next_project_id == old(self).next_project_id,
            final(self).next_home_id == old(self).next_home_id,
            final(self).next_child_id == old(self).next_child_id,
            final(self).projects@.len() == old(self).projects@.len(),
            forall|i: int| 0 <= i < old(self).projects@.len() ==> {
                let p = #[trigger] old(self).projects@[i];
                let q = final(self).projects@[i];
                if p.id == id {
                    &&& q == Project { seed_filename: q.seed_filename, seed_basename: q.seed_basename, ..p }
                    &&& opt_string_view(q.seed_filename) == opt_str_view(seed_filename)
                    &&& opt_string_view(q.seed_basename) == opt_str_view(seed_basename)
                } else {
                    q == p
                }
            },
    {
        let ghost old_index = *self;
        let n = self.projects.len();
        for i in 0..n
            invariant
                n == old_index.projects@.len(),
                self.projects@.len() == n,
                self.settings == old_index.settings,
                self.home_files == old_index.home_files,
                self.child_files == old_index.child_files,
                self.next_project_id == old_index.next_project_id,
                self.next_home_id == old_index.next_home_id,
                self.next_child_id == old_index.next_child_id,
                forall|j: int| i <= j < n ==> #[trigger] self.projects@[j] == old_index.projects@[j],
                forall|j: int| 0 <= j < i ==> {
                    let p = #[trigger] old_index.projects@[j];
                    let q = self.projects@[j];
                    if p.id == id {
                        &&& q == Project { seed_filename: q.seed_filename, seed_basename: q.seed_basename, ..p }
                        &&& opt_string_view(q.seed_filename) == opt_str_view(seed_filename)
                        &&& opt_string_view(q.seed_basename) == opt_str_view(seed_basename)
                    } else {
                        q == p
                    }
                },
        {
            if self.projects[i].id == id {
                let mut p = self.projects[i].duplicate();
                p.seed_filename = own_opt_str(seed_filename);
                p.seed_basename = own_opt_str(seed_basename);
                self.projects.set(i, p);
            }
        }
        proof {
            assert forall|i: int| 0 <= i < self.projects@.len() implies 1 <= (#[trigger] self.projects@[i]).id.0 < self.next_project_id by {
                assert(old_index.projects@[i].id == self.projects@[i].id);
            }
            assert forall|i: int, j: int|
                0 <= i < self.projects@.len() && 0 <= j < self.projects@.len() && i != j implies (#[trigger] self.projects@[i]).id
                    != (#[trigger] self.projects@[j]).id && self.projects@[i].folder_path@ != self.projects@[j].folder_path@ by {
                assert(old_index.projects@[i].id == self.projects@[i].id);
                assert(old_index.projects@[j].id == self.projects@[j].id);
                assert(old_index.projects@[i].folder_path == self.projects@[i].folder_path);
                assert(old_index.projects@[j].folder_path == self.projects@[j].folder_path);
            }
            assert forall|i: int| 0 <= i < self.home_files@.len() implies self.has_project((#[trigger] self.home_files@[i]).project_id) by {
                let j = choose|j: int| 0 <= j < old_index.projects@.len() && (#[trigger] old_index.projects@[j]).id == self.home_files@[i].project_id;
                assert(self.projects@[j].id == old_index.projects@[j].id);
            }
            assert forall|i: int| 0 <= i < self.child_files@.len() implies match (#[trigger] self.child_files@[i]).matched_project_id {
                Some(pid) => self.has_active_project(pid),
                None => true,
            } by {
                if let Some(pid) = self.child_files@[i].matched_project_id {
                    assert(old_index.has_active_project(pid));
                    let j = choose|j: int| 0 <= j < old_index.projects@.len() && (#[trigger] old_index.projects@[j]).id == pid && !old_index.projects@[j].archived;
                    assert(self.projects@[j].id == old_index.projects@[j].id && self.projects@[j].archived == old_index.projects@[j].archived);
                }
            }
        }
    }

    /// Archives project `id` (it disappears from the project list) and unmatches every child
    /// file that was matched to it.
    pub fn archive_project(&mut self, id: ProjectId)
        requires
            old(self).wf(),
        ensures
            final(self).wf(),
            final(self).settings == old(self).settings,
            final(self).home_files == old(self).home_files,
            final(self).next_project_id == old(self).next_project_id,
            final(self).next_home_id == old(self).next_home_id,
            final(self).next_child_id == old(self).next_child_id,
            final(self).projects@ == old(self).projects@.map_values(
                |p: Project| if p.id == id { Project { archived: true, ..p } } else { p },
            ),
            final(self).child_files@ == old(self).child_files@.map_values(
                |c: ChildFile|
                    if c.matched_project_id == Some(id) {
                        ChildFile { matched_project_id: None, ..c }
                    } else {
                        c
                    },
            ),
            !final(self).has_active_project(id),
            forall|i: int|
                0 <= i < final(self).child_files@.len() ==> (#[trigger] final(self).child_files@[i]).matched_project_id
                    != Some(id),
    {
        let ghost old_index = *self;
        let ghost pf = |p: Project| if p.id == id { Project { archived: true, ..p } } else { p };
        let ghost cf = |c: ChildFile|
            if c.matched_project_id == Some(id) {
                ChildFile { matched_project_id: None, ..c }
            } else {
                c
            };
        let n = self.projects.len();
        for i in 0..n
            invariant
                n == old_index.projects@.len(),
                self.projects@.len() == n,
                pf == (|p: Project| if p.id == id { Project { archived: true, ..p } } else { p }),
                self.child_files == old_index.child_files,
                self.settings == old_index.settings,
                self.home_files == old_index.home_files,
                self.next_project_id == old_index.next_project_id,
                self.next_home_id == old_index.next_home_id,
                self.next_child_id == old_index.next_child_id,
                forall|j: int| i <= j < n ==> #[trigger] self.projects@[j] == old_index.projects@[j],
                forall|j: int| 0 <= j < i ==> #[trigger] self.projects@[j] == pf(old_index.projects@[j]),
        {
            if self.projects[i].id == id {
                let mut p = self.projects[i].duplicate();
                p.archived = true;
                self.projects.set(i, p);
            }
        }
        assert(self.projects@ =~= old_index.projects@.map_values(pf));
        let m = self.child_files.len();
        for i in 0..m
            invariant
                m == old_index.child_files@.len(),
                self.child_files@.len() == m,
                cf == (|c: ChildFile|
                    if c.matched_project_id == Some(id) {
                        ChildFile { matched_project_id: None, ..c }
                    } else {
                        c
                    }),
                pf == (|p: Project| if p.id == id { Project { archived: true, ..p } } else { p }),
                self.projects@ == old_index.projects@.map_values(pf),
                self.settings == old_index.settings,
                self.home_files == old_index.home_files,
                self.next_project_id == old_index.next_project_id,
                self.next_home_id == old_index.next_home_id,
                self.next_child_id == old_index.next_child_id,
                forall|j: int| i <= j < m ==> #[trigger] self.child_files@[j] == old_index.child_files@[j],
                forall|j: int| 0 <= j < i ==> #[trigger] self.child_files@[j] == cf(old_index.child_files@[j]),
        {
            if self.child_files[i].matched_project_id == Some(id) {
                let mut c = self.child_files[i].duplicate();
                c.matched_project_id = None;
                self.child_files.set(i, c);
            }
        }
        assert(self.child_files@ =~= old_index.child_files@.map_values(cf));
        proof {
            assert forall|i: int| 0 <= i < self.projects@.len() implies 1 <= (#[trigger] self.projects@[i]).id.0 < self.next_project_id by {
                assert(old_index.projects@[i].id == self.projects@[i].id);
            }
            assert forall|i: int, j: int|
                0 <= i < self.projects@.len() && 0 <= j < self.projects@.len() && i != j implies (#[trigger] self.projects@[i]).id
                    != (#[trigger] self.projects@[j]).id && self.projects@[i].folder_path@ != self.projects@[j].folder_path@ by {
                assert(old_index.projects@[i].id == self.projects@[i].id);
                assert(old_index.projects@[j].id == self.projects@[j].id);
                assert(old_index.projects@[i].folder_path == self.projects@[i].folder_path);
                assert(old_index.projects@[j].folder_path == self.projects@[j].folder_path);
            }
            assert forall|i: int| 0 <= i < self.home_files@.len() implies self.has_project((#[trigger] self.home_files@[i]).project_id) by {
                let j = choose|j: int| 0 <= j < old_index.projects@.len() && (#[trigger] old_index.projects@[j]).id == self.home_files@[i].project_id;
                assert(self.projects@[j].id == old_index.projects@[j].id);
            }
            assert forall|i: int| 0 <= i < self.child_files@.len() implies 1 <= (#[trigger] self.child_files@[i]).id.0 < self.next_child_id by {
                assert(old_index.child_files@[i].id == self.child_files@[i].id);
            }
            assert forall|i: int, j: int|
                0 <= i < self.child_files@.len() && 0 <= j < self.child_files@.len() && i != j implies (#[trigger] self.child_files@[i]).id
                    != (#[trigger] self.child_files@[j]).id && self.child_files@[i].abs_path@ != self.child_files@[j].abs_path@ by {
                assert(old_index.child_files@[i].id == self.child_files@[i].id);
                assert(old_index.child_files@[j].id == self.child_files@[j].id);
                assert(old_index.child_files@[i].abs_path == self.child_files@[i].abs_path);
                assert(old_index.child_files@[j].abs_path == self.child_files@[j].abs_path);
            }
            assert forall|i: int| 0 <= i < self.child_files@.len() implies match (#[trigger] self.child_files@[i]).matched_project_id {
                Some(pid) => self.has_active_project(pid),
                None => true,
            } by {
                if let Some(pid) = self.child_files@[i].matched_project_id {
                    assert(self.child_files@[i] == cf(old_index.child_files@[i]));
                    assert(old_index.child_files@[i].matched_project_id == Some(pid));
                    assert(pid != id);
                    assert(old_index.has_active_project(pid));
                    let j = choose|j: int| 0 <= j < old_index.projects@.len() && (#[trigger] old_index.projects@[j]).id == pid && !old_index.projects@[j].archived;
                    assert(self.projects@[j] == old_index.projects@[j]);
                }
            }
            assert forall|i: int| 0 <= i < self.projects@.len() && (#[trigger] self.projects@[i]).id == id implies self.projects@[i].archived by {
                assert(self.projects@[i] == pf(old_index.projects@[i]));
            }
            assert forall|i: int| 0 <= i < self.child_files@.len() implies (#[trigger] self.child_files@[i]).matched_project_id != Some(id) by {
                assert(self.child_files@[i] == cf(old_index.child_files@[i]));
            }
        }
    }

    // ----- child files ------------------------------------------------------------------

    /// The child file with id `id`, if there is one.
    pub fn get_child_file(&self, id: ChildFileId) -> (r: Option<ChildFile>)
        ensures
            match r {
                Some(c) => exists|i: int| 0 <= i < self.child_files@.len() && self.child_files@[i] == c && c.id == id,
                None => forall|i: int| 0 <= i < self.child_files@.len() ==> (#[trigger] self.child_files@[i]).id != id,
            },
    {
        for i in 0..self.child_files.len()
            invariant
                forall|j: int| 0 <= j < i ==> (#[trigger] self.child_files@[j]).id != id,
        {
            if self.child_files[i].id == id {
                return Some(self.child_files[i].duplicate());
            }
        }
        None
    }

    /// Child files matched to `pid` that are present on disk.
    pub open spec fn matched_children(&self, pid: ProjectId) -> Seq<ChildFile> {
        self.child_files@.filter(|c: ChildFile| c.matched_project_id == Some(pid) && !c.missing)
    }

    /// The child files matched to project `pid` that are present, ordered by file name (files
    /// with the same name keep their index order).
    pub fn child_files_matched_to_project(&self, pid: ProjectId) -> (r: Vec<ChildFile>)
        ensures
            exists|perm: Seq<usize>|
                is_stable_text_order(child_names(self.matched_children(pid)), perm) && r@ == arranged(
                    self.matched_children(pid),
                    perm,
                ),
    {
        let ghost pred = |c: ChildFile| c.matched_project_id == Some(pid) && !c.missing;
        let mut sel: Vec<ChildFile> = Vec::new();
        for i in 0..self.child_files.len()
            invariant
                pred == (|c: ChildFile| c.matched_project_id == Some(pid) && !c.missing),
                sel@ == self.child_files@.take(i as int).filter(pred),
        {
            assert(self.child_files@.take(i + 1) == self.child_files@.take(i as int).push(self.child_files@[i as int]));
            proof {
                self.child_files@.take(i as int).lemma_filter_push(self.child_files@[i as int], pred);
            }
            if self.child_files[i].matched_project_id == Some(pid) && !self.child_files[i].missing {
                sel.push(self.child_files[i].duplicate());
            }
        }
        assert(self.child_files@.take(self.child_files@.len() as int) == self.child_files@);
        assert(sel@ == self.matched_children(pid));
        let keys = name_keys_of_children(&sel);
        let perm = stable_text_order(&keys);
        let r = arrange_children(&sel, &perm);
        assert(is_stable_text_order(child_names(self.matched_children(pid)), perm@) && r@ == arranged(self.matched_children(pid), perm@));
        r
    }

    /// Removes the child file with id `id` from the index (nothing changes when there is none).
    pub fn delete_child_file(&mut self, id: ChildFileId)
        requires
            old(self).wf(),
        ensures
            final(self).wf(),
            final(self).settings == old(self).settings,
            final(self).projects == old(self).projects,
            final(self).home_files == old(self).home_files,
            final(self).next_project_id == old(self).next_project_id,
            final(self).next_home_id == old(self).next_home_id,
            final(self).next_child_id == old(self).next_child_id,
            final(self).child_files@ == old(self).child_files@.filter(|c: ChildFile| c.id != id),
    {
        let ghost old_index = *self;
        let ghost pred = |c: ChildFile| c.id != id;
        let mut kept: Vec<ChildFile> = Vec::new();
        for i in 0..self.child_files.len()
            invariant
                pred == (|c: ChildFile| c.id != id),
                kept@ == self.child_files@.take(i as int).filter(pred),
        {
            assert(self.child_files@.take(i + 1) == self.child_files@.take(i as int).push(self.child_files@[i as int]));
            proof {
                self.child_files@.take(i as int).lemma_filter_push(self.child_files@[i as int], pred);
            }
            if self.child_files[i].id != id {
                kept.push(self.child_files[i].duplicate());
            }
        }
        assert(self.child_files@.take(self.child_files@.len() as int) == self.child_files@);
        self.child_files = kept;
        proof {
            let f = old_index.child_files@.filter(pred);
            let idx = lemma_filter_positions(old_index.child_files@, pred);
            assert forall|i: int| 0 <= i < f.len() implies 1 <= (#[trigger] f[i]).id.0 < self.next_child_id && match f[i].matched_project_id {
                Some(pid) => self.has_active_project(pid),
                None => true,
            } by {
                assert(f[i] == old_index.child_files@[idx[i]]);
            }
            assert forall|i: int, j: int|
                0 <= i < f.len() && 0 <= j < f.len() && i != j implies (#[trigger] f[i]).id
                    != (#[trigger] f[j]).id && f[i].abs_path@ != f[j].abs_path@ by {
                assert(f[i] == old_index.child_files@[idx[i]]);
                assert(f[j] == old_index.child_files@[idx[j]]);
                if i < j {
                    assert(idx[i] < idx[j]);
                } else {
                    assert(idx[j] < idx[i]);
                }
            }
        }
    }

    // ----- the file list of a project -----------------------------------------------------

    /// The rows of project `pid`'s file list before ordering: its present home files, then
    /// the present child files matched to it.
    pub open spec fn project_rows(&self, pid: ProjectId) -> Seq<ProjectFileView> {
        self.home_files@.filter(|h: HomeFile| h.project_id == pid && !h.missing).map_values(|h: HomeFile| home_view(h))
            + self.matched_children(pid).map_values(|c: ChildFile| child_view(c))
    }

    /// Project `pid`'s files: its present home files and the present child files matched to it,
    /// ordered by file name (rows with the same name keep the order of `project_rows`).
    pub fn files_for_project(&self, pid: ProjectId) -> (r: Vec<ProjectFileView>)
        ensures
            exists|perm: Seq<usize>|
                is_stable_text_order(view_names(self.project_rows(pid)), perm) && r@ == arranged(
                    self.project_rows(pid),
                    perm,
                ),
    {
        let ghost hpred = |h: HomeFile| h.project_id == pid && !h.missing;
        let ghost cpred = |c: ChildFile| c.matched_project_id == Some(pid) && !c.missing;
        let mut rows: Vec<ProjectFileView> = Vec::new();
        for i in 0..self.home_files.len()
            invariant
                hpred == (|h: HomeFile| h.project_id == pid && !h.missing),
                rows@ == self.home_files@.take(i as int).filter(hpred).map_values(|h: HomeFile| home_view(h)),
        {
            assert(self.home_files@.take(i + 1) == self.home_files@.take(i as int).push(self.home_files@[i as int]));
            proof {
                self.home_files@.take(i as int).lemma_filter_push(self.home_files@[i as int], hpred);
            }
            if self.home_files[i].project_id == pid && !self.home_files[i].missing {
                let ghost old_rows = rows@;
                rows.push(home_view_exec(&self.home_files[i]));
                assert(self.home_files@.take(i + 1).filter(hpred) == self.home_files@.take(i as int).filter(hpred).push(self.home_files@[i as int]));
                assert(rows@ =~= self.home_files@.take(i + 1).filter(hpred).map_values(|h: HomeFile| home_view(h)));
            } else {
                assert(self.home_files@.take(i + 1).filter(hpred) == self.home_files@.take(i as int).filter(hpred));
            }
        }
        assert(self.home_files@.take(self.home_files@.len() as int) == self.home_files@);
        let ghost home_part = rows@;
        for i in 0..self.child_files.len()
            invariant
                cpred == (|c: ChildFile| c.matched_project_id == Some(pid) && !c.missing),
                rows@ == home_part + self.child_files@.take(i as int).filter(cpred).map_values(|c: ChildFile| child_view(c)),
        {
            assert(self.child_files@.take(i + 1) == self.child_files@.take(i as int).push(self.child_files@[i as int]));
            proof {
                self.child_files@.take(i as int).lemma_filter_push(self.child_files@[i as int], cpred);
            }
            if self.child_files[i].matched_project_id == Some(pid) && !self.child_files[i].missing {
                rows.push(child_view_exec(&self.child_files[i]));
                assert(self.child_files@.take(i + 1).filter(cpred) == self.child_files@.take(i as int).filter(cpred).push(self.child_files@[i as int]));
                assert(rows@ =~= home_part + self.child_files@.take(i + 1).filter(cpred).map_values(|c: ChildFile| child_view(c)));
            } else {
                assert(self.child_files@.take(i + 1).filter(cpred) == self.child_files@.take(i as int).filter(cpred));
            }
        }
        assert(self.child_files@.take(self.child_files@.len() as int) == self.child_files@);
        assert(rows@ == self.project_rows(pid));
        let keys = name_keys_of_views(&rows);
        let perm = stable_text_order(&keys);
        let r = arrange_views(&rows, &perm);
        assert(is_stable_text_order(view_names(self.project_rows(pid)), perm@) && r@ == arranged(self.project_rows(pid), perm@));
        r
    }

    // ----- reconciling with a scan ---------------------------------------------------------

    /// Merging one scanned home file keeps the rows well formed.
    pub proof fn lemma_upsert_home_ok(&self, rows: Seq<HomeFile>, next: i64, pid: ProjectId, s: ScannedFile)
        requires
            self.home_rows_ok(rows, next),
            self.has_project(pid),
            1 <= next < i64::MAX,
        ensures
            self.home_rows_ok(upsert_home(rows, next, pid, s).0, upsert_home(rows, next, pid, s).1),
            next <= upsert_home(rows, next, pid, s).1 <= next + 1,
    {
        let r2 = upsert_home(rows, next, pid, s).0;
        match home_path_index(rows, s.abs_path@) {
            Some(i) => {
                assert(rows[i].abs_path@ == s.abs_path@);
                assert forall|a: int, b: int| 0 <= a < r2.len() && 0 <= b < r2.len() && a != b implies (#[trigger] r2[a]).id
                    != (#[trigger] r2[b]).id && r2[a].abs_path@ != r2[b].abs_path@ by {
                    if a != i && b != i {
                        assert(r2[a] == rows[a] && r2[b] == rows[b]);
                    } else if a == i {
                        assert(r2[b] == rows[b]);
                    } else {
                        assert(r2[a] == rows[a]);
                    }
                }
                assert forall|a: int| 0 <= a < r2.len() implies self.has_project((#[trigger] r2[a]).project_id) by {
                    if a != i {
                        assert(r2[a] == rows[a]);
                    }
                }
                assert forall|a: int| 0 <= a < r2.len() implies 1 <= (#[trigger] r2[a]).id.0 < next by {
                    if a != i {
                        assert(r2[a] == rows[a]);
                    }
                }
            },
            None => {
                assert forall|a: int| 0 <= a < rows.len() implies (#[trigger] rows[a]).abs_path@ != s.abs_path@ by {
                    if rows[a].abs_path@ == s.abs_path@ {
                        assert(exists|i: int| 0 <= i < rows.len() && (#[trigger] rows[i]).abs_path@ == s.abs_path@);
                    }
                }
                assert forall|a: int, b: int| 0 <= a < r2.len() && 0 <= b < r2.len() && a != b implies (#[trigger] r2[a]).id
                    != (#[trigger] r2[b]).id && r2[a].abs_path@ != r2[b].abs_path@ by {
                    if a < rows.len() && b < rows.len() {
                        assert(r2[a] == rows[a] && r2[b] == rows[b]);
                    } else if a < rows.len() {
                        assert(r2[a] == rows[a]);
                    } else {
                        assert(r2[b] == rows[b]);
                    }
                }
                assert forall|a: int| 0 <= a < r2.len() implies self.has_project((#[trigger] r2[a]).project_id) by {
                    if a < rows.len() {
                        assert(r2[a] == rows[a]);
                    }
                }
                assert forall|a: int| 0 <= a < r2.len() implies 1 <= (#[trigger] r2[a]).id.0 < next + 1 by {
                    if a < rows.len() {
                        assert(r2[a] == rows[a]);
                    }
                }
            },
        }
    }

    /// Merging one scanned child file keeps the rows well formed.
    pub proof fn lemma_upsert_child_ok(&self, rows: Seq<ChildFile>, next: i64, s: ScannedChildFile)
        requires
            self.child_rows_ok(rows, next),
            1 <= next < i64::MAX,
        ensures
            self.child_rows_ok(upsert_child(rows, next, s).0, upsert_child(rows, next, s).1),
            next <= upsert_child(rows, next, s).1 <= next + 1,
    {
        let r2 = upsert_child(rows, next, s).0;
        match child_path_index(rows, s.abs_path@) {
            Some(i) => {
                assert(rows[i].abs_path@ == s.abs_path@);
                assert forall|a: int, b: int| 0 <= a < r2.len() && 0 <= b < r2.len() && a != b implies (#[trigger] r2[a]).id
                    != (#[trigger] r2[b]).id && r2[a].abs_path@ != r2[b].abs_path@ by {
                    if a != i && b != i {
                        assert(r2[a] == rows[a] && r2[b] == rows[b]);
                    } else if a == i {
                        assert(r2[b] == rows[b]);
                    } else {
                        assert(r2[a] == rows[a]);
                    }
                }
                assert forall|a: int| 0 <= a < r2.len() implies match (#[trigger] r2[a]).matched_project_id {
                    Some(pid) => self.has_active_project(pid),
                    None => true,
                } by {
                    if a != i {
                        assert(r2[a] == rows[a]);
                    } else {
                        assert(r2[a].matched_project_id == rows[a].matched_project_id);
                    }
                }
                assert forall|a: int| 0 <= a < r2.len() implies 1 <= (#[trigger] r2[a]).id.0 < next by {
                    if a != i {
                        assert(r2[a] == rows[a]);
                    }
                }
            },
            None => {
                assert forall|a: int| 0 <= a < rows.len() implies (#[trigger] rows[a]).abs_path@ != s.abs_path@ by {
                    if rows[a].abs_path@ == s.abs_path@ {
                        assert(exists|i: int| 0 <= i < rows.len() && (#[trigger] rows[i]).abs_path@ == s.abs_path@);
                    }
                }
                assert forall|a: int, b: int| 0 <= a < r2.len() && 0 <= b < r2.len() && a != b implies (#[trigger] r2[a]).id
                    != (#[trigger] r2[b]).id && r2[a].abs_path@ != r2[b].abs_path@ by {
                    if a < rows.len() && b < rows.len() {
                        assert(r2[a] == rows[a] && r2[b] == rows[b]);
                    } else if a < rows.len() {
                        assert(r2[a] == rows[a]);
                    } else {
                        assert(r2[b] == rows[b]);
                    }
                }
                assert forall|a: int| 0 <= a < r2.len() implies match (#[trigger] r2[a]).matched_project_id {
                    Some(pid) => self.has_active_project(pid),
                    None => true,
                } by {
                    if a < rows.len() {
                        assert(r2[a] == rows[a]);
                    }
                }
                assert forall|a: int| 0 <= a < r2.len() implies 1 <= (#[trigger] r2[a]).id.0 < next + 1 by {
                    if a < rows.len() {
                        assert(r2[a] == rows[a]);
                    }
                }
            },
        }
    }

    /// Whether some project has id `pid`.
    fn has_active_project_exec(&self, pid: ProjectId) -> (r: bool)
        ensures
            r == self.has_active_project(pid),
    {
        for i in 0..self.projects.len()
            invariant
                forall|j: int| 0 <= j < i ==> !((#[trigger] self.projects@[j]).id == pid && !self.projects@[j].archived),
        {
            if self.projects[i].id == pid && !self.projects[i].archived {
                return true;
            }
        }
        false
    }

    fn projects_ok(&self) -> (r: bool)
        ensures
            r == self.projects_wf(),
    {
        let n = self.projects.len();
        for i in 0..n
            invariant
                n == self.projects@.len(),
                forall|a: int| 0 <= a < i ==> 1 <= (#[trigger] self.projects@[a]).id.0 < self.next_project_id,
                forall|a: int, c: int|
                    0 <= a < i && 0 <= c < i && a != c ==> (#[trigger] self.projects@[a]).id != (#[trigger] self.projects@[c]).id
                        && self.projects@[a].folder_path@ != self.projects@[c].folder_path@,
        {
            if self.projects[i].id.0 < 1 || self.projects[i].id.0 >= self.next_project_id {
                return false;
            }
            for j in 0..i
                invariant
                    i < n,
                    n == self.projects@.len(),
                    forall|c: int| 0 <= c < j ==> (#[trigger] self.projects@[c]).id != self.projects@[i as int].id
                        && self.projects@[c].folder_path@ != self.projects@[i as int].folder_path@,
            {
                if self.projects[j].id == self.projects[i].id || self.projects[j].folder_path == self.projects[i].folder_path {
                    return false;
                }
            }
        }
        true
    }

    fn homes_ok(&self) -> (r: bool)
        ensures
            r == self.homes_wf(),
    {
        let n = self.home_files.len();
        for i in 0..n
            invariant
                n == self.home_files@.len(),
                forall|a: int| 0 <= a < i ==> 1 <= (#[trigger] self.home_files@[a]).id.0 < self.next_home_id,
                forall|a: int, c: int|
                    0 <= a < i && 0 <= c < i && a != c ==> (#[trigger] self.home_files@[a]).id
                        != (#[trigger] self.home_files@[c]).id && self.home_files@[a].abs_path@ != self.home_files@[c].abs_path@,
                forall|a: int| 0 <= a < i ==> self.has_project((#[trigger] self.home_files@[a]).project_id),
        {
            if self.home_files[i].id.0 < 1 || self.home_files[i].id.0 >= self.next_home_id {
                return false;
            }
            if !self.has_project_exec(self.home_files[i].project_id) {
                return false;
            }
            for j in 0..i
                invariant
                    i < n,
                    n == self.home_files@.len(),
                    forall|c: int| 0 <= c < j ==> (#[trigger] self.home_files@[c]).id != self.home_files@[i as int].id
                        && self.home_files@[c].abs_path@ != self.home_files@[i as int].abs_path@,
            {
                if self.home_files[j].id == self.home_files[i].id || self.home_files[j].abs_path == self.home_files[i].abs_path {
                    return false;
                }
            }
        }
        true
    }

    fn children_ok(&self) -> (r: bool)
        ensures
            r == self.children_wf(),
    {
        let n = self.child_files.len();
        for i in 0..n
            invariant
                n == self.child_files@.len(),
                forall|a: int| 0 <= a < i ==> 1 <= (#[trigger] self.child_files@[a]).id.0 < self.next_child_id,
                forall|a: int, c: int|
                    0 <= a < i && 0 <= c < i && a != c ==> (#[trigger] self.child_files@[a]).id
                        != (#[trigger] self.child_files@[c]).id && self.child_files@[a].abs_path@ != self.child_files@[c].abs_path@,
                forall|a: int|
                    0 <= a < i ==> match (#[trigger] self.child_files@[a]).matched_project_id {
                        Some(pid) => self.has_active_project(pid),
                        None => true,
                    },
        {
            if self.child_files[i].id.0 < 1 || self.child_files[i].id.0 >= self.next_child_id {
                return false;
            }
            match self.child_files[i].matched_project_id {
                Some(pid) => {
                    if !self.has_active_project_exec(pid) {
                        return false;
                    }
                },
                None => {},
            }
            for j in 0..i
                invariant
                    i < n,
                    n == self.child_files@.len(),
                    forall|c: int| 0 <= c < j ==> (#[trigger] self.child_files@[c]).id != self.child_files@[i as int].id
                        && self.child_files@[c].abs_path@ != self.child_files@[i as int].abs_path@,
            {
                if self.child_files[j].id == self.child_files[i].id || self.child_files[j].abs_path == self.child_files[i].abs_path {
                    return false;
                }
            }
        }
        true
    }

    /// Whether the index is well formed (see `wf`); an index read back from storage is checked
    /// with it before use.
    pub fn is_well_formed(&self) -> (r: bool)
        ensures
            r == self.wf(),
    {
        self.next_project_id >= 1 && self.next_home_id >= 1 && self.next_child_id >= 1 && self.projects_ok() && self.homes_ok()
            && self.children_ok()
    }

    pub fn has_project_exec(&self, pid: ProjectId) -> (r: bool)
        ensures
            r == self.has_project(pid),
    {
        for i in 0..self.projects.len()
            invariant
                forall|j: int| 0 <= j < i ==> (#[trigger] self.projects@[j]).id != pid,
        {
            if self.projects[i].id == pid {
                return true;
            }
        }
        false
    }

    /// Records a scan of project `pid`'s folder: each scanned file refreshes the home file with
    /// its path (keeping the row's id; the row now belongs to `pid`) or is added with the next
    /// id, in scan order; afterwards the home files of `pid` that the scan did not see are marked
    /// missing. Refused when no project has id `pid`, or when the remaining ids might not
    /// suffice for the scan; then nothing changes.
    pub fn reconcile_home_files(&mut self, pid: ProjectId, scanned: &Vec<ScannedFile>) -> (r: Result<(), IndexError>)
        requires
            old(self).wf(),
        ensures
            final(self).wf(),
            !old(self).has_project(pid) ==> r == Err::<(), IndexError>(IndexError::ProjectNotFound(pid))
                && *final(self) == *old(self),
            old(self).has_project(pid) && old(self).next_home_id + scanned@.len() > i64::MAX ==> r == Err::<
                (),
                IndexError,
            >(IndexError::IdsExhausted) && *final(self) == *old(self),
            old(self).has_project(pid) && old(self).next_home_id + scanned@.len() <= i64::MAX ==> {
                &&& r == Ok::<(), IndexError>(())
                &&& final(self).home_files@ == mark_home_missing(
                    upsert_homes(old(self).home_files@, old(self).next_home_id, pid, scanned@).0,
                    pid,
                    scanned_paths(scanned@),
                )
                &&& final(self).next_home_id == upsert_homes(old(self).home_files@, old(self).next_home_id, pid, scanned@).1
                &&& final(self).next_home_id <= old(self).next_home_id + scanned@.len()
                &&& final(self).settings == old(self).settings
                &&& final(self).projects == old(self).projects
                &&& final(self).child_files == old(self).child_files
                &&& final(self).next_project_id == old(self).next_project_id
                &&& final(self).next_child_id == old(self).next_child_id
            },
    {
        if !self.has_project_exec(pid) {
            return Err(IndexError::ProjectNotFound(pid));
        }
        assert(self.has_project(pid));
        if (self.next_home_id as i128) + (scanned.len() as i128) > (i64::MAX as i128) {
            return Err(IndexError::IdsExhausted);
        }
        let ghost old_index = *self;
        let ghost rows0 = self.home_files@;
        let ghost next0 = self.next_home_id;
        assert(scanned@.take(0) =~= Seq::<ScannedFile>::empty());
        for k in 0..scanned.len()
            invariant
                old_index.wf(),
                old_index.has_project(pid),
                self.settings == old_index.settings,
                self.projects == old_index.projects,
                self.child_files == old_index.child_files,
                self.next_project_id == old_index.next_project_id,
                self.next_child_id == old_index.next_child_id,
                next0 + scanned@.len() <= i64::MAX,
                next0 == old_index.next_home_id,
                (self.home_files@, self.next_home_id) == upsert_homes(rows0, next0, pid, scanned@.take(k as int)),
                old_index.home_rows_ok(self.home_files@, self.next_home_id),
                next0 <= self.next_home_id <= next0 + k,
        {
            proof {
                assert(scanned@.take(k + 1).drop_last() =~= scanned@.take(k as int));
                assert(scanned@.take(k + 1).last() == scanned@[k as int]);
                old_index.lemma_upsert_home_ok(self.home_files@, self.next_home_id, pid, scanned@[k as int]);
            }
            let s = &scanned[k];
            match find_home_path(&self.home_files, &s.abs_path) {
                Some(j) => {
                    proof {
                        let c = choose|i: int| 0 <= i < self.home_files@.len() && (#[trigger] self.home_files@[i]).abs_path@ == s.abs_path@;
                        if c != j {
                            assert(self.home_files@[c].abs_path@ != self.home_files@[j as int].abs_path@);
                        }
                    }
                    let row = scanned_home_exec(self.home_files[j].id, pid, s);
                    self.home_files.set(j, row);
                },
                None => {
                    let row = scanned_home_exec(HomeFileId(self.next_home_id), pid, s);
                    self.home_files.push(row);
                    self.next_home_id = self.next_home_id + 1;
                },
            }
        }
        assert(scanned@.take(scanned@.len() as int) =~= scanned@);
        assert(self.next_home_id <= next0 + scanned@.len());
        let seen = scanned_home_paths(scanned);
        let ghost rows1 = self.home_files@;
        let ghost mf = |h: HomeFile|
            if h.project_id == pid && !scanned_paths(scanned@).contains(h.abs_path@) {
                HomeFile { missing: true, ..h }
            } else {
                h
            };
        let n = self.home_files.len();
        for i in 0..n
            invariant
                n == rows1.len(),
                self.home_files@.len() == n,
                strs_view(seen@) == scanned_paths(scanned@),
                mf == (|h: HomeFile|
                    if h.project_id == pid && !scanned_paths(scanned@).contains(h.abs_path@) {
                        HomeFile { missing: true, ..h }
                    } else {
                        h
                    }),
                self.settings == old_index.settings,
                self.projects == old_index.projects,
                self.child_files == old_index.child_files,
                self.next_project_id == old_index.next_project_id,
                self.next_child_id == old_index.next_child_id,
                self.next_home_id == upsert_homes(rows0, next0, pid, scanned@).1,
                self.next_home_id <= next0 + scanned@.len(),
                forall|j: int| i <= j < n ==> #[trigger] self.home_files@[j] == rows1[j],
                forall|j: int| 0 <= j < i ==> #[trigger] self.home_files@[j] == mf(rows1[j]),
        {
            if self.home_files[i].project_id == pid && !crate::naming::contains_string(&seen, &self.home_files[i].abs_path) {
                let mut h = scanned_home_exec(self.home_files[i].id, pid, &ScannedFile {
                    abs_path: self.home_files[i].abs_path.clone(),
                    relative_path: self.home_files[i].relative_path.clone(),
                    file_name: self.home_files[i].file_name.clone(),
                    ext: self.home_files[i].ext.clone(),
                    size_bytes: self.home_files[i].size_bytes,
                    created_at: self.home_files[i].created_at,
                    modified_at: self.home_files[i].modified_at,
                    base_name: crate::model::dup_opt_string(&self.home_files[i].base_name),
                });
                h.missing = true;
                self.home_files.set(i, h);
            }
        }
        assert(self.home_files@ =~= mark_home_missing(rows1, pid, scanned_paths(scanned@)));
        proof {
            let r = self.home_files@;
            assert forall|a: int| 0 <= a < r.len() implies 1 <= (#[trigger] r[a]).id.0 < self.next_home_id by {
                assert(r[a].id == rows1[a].id);
            }
            assert forall|a: int, b: int| 0 <= a < r.len() && 0 <= b < r.len() && a != b implies (#[trigger] r[a]).id
                != (#[trigger] r[b]).id && r[a].abs_path@ != r[b].abs_path@ by {
                assert(r[a].id == rows1[a].id && r[b].id == rows1[b].id);
                assert(r[a].abs_path == rows1[a].abs_path && r[b].abs_path == rows1[b].abs_path);
            }
            assert forall|a: int| 0 <= a < r.len() implies self.has_project((#[trigger] r[a]).project_id) by {
                assert(r[a].project_id == rows1[a].project_id);
                assert(old_index.has_project(rows1[a].project_id));
            }
        }
        Ok(())
    }

    /// Records a scan of the relevant directories: each scanned file refreshes the child file
    /// with its path (keeping the row's id and match) or is added, unmatched, with the next id,
    /// in scan order; afterwards every child file the scan did not see is marked missing.
    /// Refused when the remaining ids might not suffice for the scan; then nothing changes.
    pub fn reconcile_child_files(&mut self, scanned: &Vec<ScannedChildFile>) -> (r: Result<(), IndexError>)
        requires
            old(self).wf(),
        ensures
            final(self).wf(),
            old(self).next_child_id + scanned@.len() > i64::MAX ==> r == Err::<(), IndexError>(IndexError::IdsExhausted)
                && *final(self) == *old(self),
            old(self).next_child_id + scanned@.len() <= i64::MAX ==> {
                &&& r == Ok::<(), IndexError>(())
                &&& final(self).child_files@ == mark_children_missing(
                    upsert_children(old(self).child_files@, old(self).next_child_id, scanned@).0,
                    scanned_child_paths(scanned@),
                )
                &&& final(self).next_child_id == upsert_children(old(self).child_files@, old(self).next_child_id, scanned@).1
                &&& final(self).settings == old(self).settings
                &&& final(self).projects == old(self).projects
                &&& final(self).home_files == old(self).home_files
                &&& final(self).next_project_id == old(self).next_project_id
                &&& final(self).next_home_id == old(self).next_home_id
            },
    {
        if (self.next_child_id as i128) + (scanned.len() as i128) > (i64::MAX as i128) {
            return Err(IndexError::IdsExhausted);
        }
        let ghost old_index = *self;
        let ghost rows0 = self.child_files@;
        let ghost next0 = self.next_child_id;
        assert(scanned@.take(0) =~= Seq::<ScannedChildFile>::empty());
        for k in 0..scanned.len()
            invariant
                old_index.wf(),
                self.settings == old_index.settings,
                self.projects == old_index.projects,
                self.home_files == old_index.home_files,
                self.next_project_id == old_index.next_project_id,
                self.next_home_id == old_index.next_home_id,
                next0 + scanned@.len() <= i64::MAX,
                next0 == old_index.next_child_id,
                (self.child_files@, self.next_child_id) == upsert_children(rows0, next0, scanned@.take(k as int)),
                old_index.child_rows_ok(self.child_files@, self.next_child_id),
                next0 <= self.next_child_id <= next0 + k,
        {
            proof {
                assert(scanned@.take(k + 1).drop_last() =~= scanned@.take(k as int));
                assert(scanned@.take(k + 1).last() == scanned@[k as int]);
                old_index.lemma_upsert_child_ok(self.child_files@, self.next_child_id, scanned@[k as int]);
            }
            let s = &scanned[k];
            match find_child_path(&self.child_files, &s.abs_path) {
                Some(j) => {
                    proof {
                        let c = choose|i: int| 0 <= i < self.child_files@.len() && (#[trigger] self.child_files@[i]).abs_path@ == s.abs_path@;
                        if c != j {
                            assert(self.child_files@[c].abs_path@ != self.child_files@[j as int].abs_path@);
                        }
                    }
                    let row = scanned_child_exec(self.child_files[j].id, self.child_files[j].matched_project_id, s);
                    self.child_files.set(j, row);
                },
                None => {
                    let row = scanned_child_exec(ChildFileId(self.next_child_id), None, s);
                    self.child_files.push(row);
                    self.next_child_id = self.next_child_id + 1;
                },
            }
        }
        assert(scanned@.take(scanned@.len() as int) =~= scanned@);
        let seen = scanned_child_paths_exec(scanned);
        let ghost rows1 = self.child_files@;
        let ghost mf = |c: ChildFile|
            if !scanned_child_paths(scanned@).contains(c.abs_path@) {
                ChildFile { missing: true, ..c }
            } else {
                c
            };
        let n = self.child_files.len();
        for i in 0..n
            invariant
                n == rows1.len(),
                self.child_files@.len() == n,
                strs_view(seen@) == scanned_child_paths(scanned@),
                mf == (|c: ChildFile|
                    if !scanned_child_paths(scanned@).contains(c.abs_path@) {
                        ChildFile { missing: true, ..c }
                    } else {
                        c
                    }),
                self.settings == old_index.settings,
                self.projects == old_index.projects,
                self.home_files == old_index.home_files,
                self.next_project_id == old_index.next_project_id,
                self.next_home_id == old_index.next_home_id,
                self.next_child_id == upsert_children(rows0, next0, scanned@).1,
                forall|j: int| i <= j < n ==> #[trigger] self.child_files@[j] == rows1[j],
                forall|j: int| 0 <= j < i ==> #[trigger] self.child_files@[j] == mf(rows1[j]),
        {
            if !crate::naming::contains_string(&seen, &self.child_files[i].abs_path) {
                let mut c = self.child_files[i].duplicate();
                c.missing = true;
                self.child_files.set(i, c);
            }
        }
        assert(self.child_files@ =~= mark_children_missing(rows1, scanned_child_paths(scanned@)));
        proof {
            let r = self.child_files@;
            assert forall|a: int| 0 <= a < r.len() implies 1 <= (#[trigger] r[a]).id.0 < self.next_child_id by {
                assert(r[a].id == rows1[a].id);
            }
            assert forall|a: int, b: int| 0 <= a < r.len() && 0 <= b < r.len() && a != b implies (#[trigger] r[a]).id
                != (#[trigger] r[b]).id && r[a].abs_path@ != r[b].abs_path@ by {
                assert(r[a].id == rows1[a].id && r[b].id == rows1[b].id);
                assert(r[a].abs_path == rows1[a].abs_path && r[b].abs_path == rows1[b].abs_path);
            }
            assert forall|a: int| 0 <= a < r.len() implies match (#[trigger] r[a]).matched_project_id {
                Some(p) => self.has_active_project(p),
                None => true,
            } by {
                assert(r[a].matched_project_id == rows1[a].matched_project_id);
                assert(old_index.child_rows_ok(rows1, self.next_child_id));
            }
        }
        Ok(())
    }

    // ----- matching child files to projects ----------------------------------------------

    /// Project `i` may take child files with base name `b` (see `is_match_candidate_in`).
    pub open spec fn is_match_candidate(&self, i: int, b: Seq<char>) -> bool {
        is_match_candidate_in(self.projects@, self.home_files@, i, b)
    }

    /// Project `i` is the best match for base name `b` (see `is_best_match_in`).
    pub open spec fn is_best_match(&self, i: int, b: Seq<char>) -> bool {
        is_best_match_in(self.projects@, self.home_files@, i, b)
    }

    /// The project that child files with base name `b` are matched to, if any.
    pub open spec fn best_match(&self, b: Seq<char>) -> Option<ProjectId> {
        best_match_in(self.projects@, self.home_files@, b)
    }

    /// A child file after rematching: an unmatched file takes the best match for its base name,
    /// if there is one; matched files keep their match.
    pub open spec fn rematched(&self, c: ChildFile) -> ChildFile {
        if c.matched_project_id is None {
            match self.best_match(c.base_name@) {
                Some(pid) => ChildFile { matched_project_id: Some(pid), ..c },
                None => c,
            }
        } else {
            c
        }
    }

    /// Whether project `pid` has a present home file with base name `b`.
    fn has_home_base(&self, pid: ProjectId, b: &String) -> (r: bool)
        ensures
            r == exists|h: int|
                0 <= h < self.home_files@.len() && (#[trigger] self.home_files@[h]).project_id == pid
                    && !self.home_files@[h].missing && opt_string_view(self.home_files@[h].base_name) == Some(b@),
    {
        for h in 0..self.home_files.len()
            invariant
                forall|m: int|
                    0 <= m < h ==> !((#[trigger] self.home_files@[m]).project_id == pid && !self.home_files@[m].missing
                        && opt_string_view(self.home_files@[m].base_name) == Some(b@)),
        {
            let f = &self.home_files[h];
            if f.project_id == pid && !f.missing {
                match &f.base_name {
                    Some(x) => {
                        if *x == *b {
                            return true;
                        }
                    },
                    None => {},
                }
            }
        }
        false
    }

    /// The project that child files with base name `b` are matched to (see `best_match`).
    pub fn find_best_match(&self, b: &String) -> (r: Option<ProjectId>)
        ensures
            r == self.best_match(b@),
    {
        let mut best: Option<usize> = None;
        for j in 0..self.projects.len()
            invariant
                match best {
                    Some(bi) => {
                        &&& bi < j
                        &&& self.is_match_candidate(bi as int, b@)
                        &&& forall|m: int|
                            0 <= m < j && #[trigger] self.is_match_candidate(m, b@) ==> self.projects@[m].created_at
                                < self.projects@[bi as int].created_at || (self.projects@[m].created_at
                                == self.projects@[bi as int].created_at && bi <= m)
                    },
                    None => forall|m: int| 0 <= m < j ==> !#[trigger] self.is_match_candidate(m, b@),
                },
        {
            if !self.projects[j].archived && self.has_home_base(self.projects[j].id, b) {
                assert(self.is_match_candidate(j as int, b@));
                match best {
                    Some(bi) => {
                        if self.projects[j].created_at > self.projects[bi].created_at {
                            best = Some(j);
                        }
                    },
                    None => {
                        best = Some(j);
                    },
                }
            } else {
                assert(!self.is_match_candidate(j as int, b@));
            }
        }
        match best {
            Some(bi) => {
                assert forall|m: int| #[trigger] is_match_candidate_in(self.projects@, self.home_files@, m, b@) implies self.projects@[m].created_at
                    < self.projects@[bi as int].created_at || (self.projects@[m].created_at
                    == self.projects@[bi as int].created_at && bi <= m) by {
                    assert(self.is_match_candidate(m, b@));
                }
                assert(self.is_best_match(bi as int, b@));
                proof {
                    assert(is_best_match_in(self.projects@, self.home_files@, bi as int, b@));
                    assert(exists|i: int| is_best_match_in(self.projects@, self.home_files@, i, b@));
                    let c = choose|i: int| is_best_match_in(self.projects@, self.home_files@, i, b@);
                    assert(is_best_match_in(self.projects@, self.home_files@, c, b@));
                    assert(c == bi);
                    assert(best_match_in(self.projects@, self.home_files@, b@) == Some(self.projects@[c].id));
                }
                let id = self.projects[bi].id;
                let res = Some(id);
                assert(res == self.best_match(b@));
                return res;
            },
            None => {
                assert forall|i: int| !is_best_match_in(self.projects@, self.home_files@, i, b@) by {
                    if is_best_match_in(self.projects@, self.home_files@, i, b@) {
                        assert(self.is_match_candidate(i, b@));
                    }
                }
                assert(self.best_match(b@) is None);
                None
            },
        }
    }

    /// Links every unmatched child file to the newest project that is not archived and has a
    /// present home file with the same base name (see `rematched`); child files that are
    /// already matched keep their match. Returns the number of child files that were linked.
    pub fn rematch_child_files(&mut self) -> (r: usize)
        requires
            old(self).wf(),
        ensures
            final(self).wf(),
            final(self).child_files@ == old(self).child_files@.map_values(|c: ChildFile| old(self).rematched(c)),
            r == old(self).child_files@.filter(
                |c: ChildFile| c.matched_project_id is None && old(self).best_match(c.base_name@) is Some,
            ).len(),
            final(self).settings == old(self).settings,
            final(self).projects == old(self).projects,
            final(self).home_files == old(self).home_files,
            final(self).next_project_id == old(self).next_project_id,
            final(self).next_home_id == old(self).next_home_id,
            final(self).next_child_id == old(self).next_child_id,
    {
        let ghost old_index = *self;
        let ghost rows0 = self.child_files@;
        let ghost pred = |c: ChildFile| c.matched_project_id is None && old_index.best_match(c.base_name@) is Some;
        let n = self.child_files.len();
        let mut count: usize = 0;
        for i in 0..n
            invariant
                n == rows0.len(),
                self.child_files@.len() == n,
                pred == (|c: ChildFile| c.matched_project_id is None && old_index.best_match(c.base_name@) is Some),
                self.settings == old_index.settings,
                self.projects == old_index.projects,
                self.home_files == old_index.home_files,
                self.next_project_id == old_index.next_project_id,
                self.next_home_id == old_index.next_home_id,
                self.next_child_id == old_index.next_child_id,
                forall|j: int| i <= j < n ==> #[trigger] self.child_files@[j] == rows0[j],
                forall|j: int| 0 <= j < i ==> #[trigger] self.child_files@[j] == old_index.rematched(rows0[j]),
                count == rows0.take(i as int).filter(pred).len(),
                count <= i,
        {
            proof {
                assert(rows0.take(i + 1) == rows0.take(i as int).push(rows0[i as int]));
                rows0.take(i as int).lemma_filter_push(rows0[i as int], pred);
            }
            if self.child_files[i].matched_project_id.is_none() {
                let found = self.find_best_match(&self.child_files[i].base_name);
                match found {
                    Some(pid) => {
                        let mut c = self.child_files[i].duplicate();
                        c.matched_project_id = Some(pid);
                        self.child_files.set(i, c);
                        count = count + 1;
                    },
                    None => {},
                }
            }
        }
        assert(rows0.take(n as int) == rows0);
        assert(self.child_files@ =~= rows0.map_values(|c: ChildFile| old_index.rematched(c)));
        proof {
            let r = self.child_files@;
            assert forall|a: int| 0 <= a < r.len() implies 1 <= (#[trigger] r[a]).id.0 < self.next_child_id by {
                assert(r[a].id == rows0[a].id);
            }
            assert forall|a: int, b: int| 0 <= a < r.len() && 0 <= b < r.len() && a != b implies (#[trigger] r[a]).id
                != (#[trigger] r[b]).id && r[a].abs_path@ != r[b].abs_path@ by {
                assert(r[a].id == rows0[a].id && r[b].id == rows0[b].id);
                assert(r[a].abs_path == rows0[a].abs_path && r[b].abs_path == rows0[b].abs_path);
            }
            assert forall|a: int| 0 <= a < r.len() implies match (#[trigger] r[a]).matched_project_id {
                Some(p) => self.has_active_project(p),
                None => true,
            } by {
                if rows0[a].matched_project_id is None {
                    if let Some(p) = old_index.best_match(rows0[a].base_name@) {
                        let bi = choose|i: int| is_best_match_in(old_index.projects@, old_index.home_files@, i, rows0[a].base_name@);
                        assert(self.projects@[bi].id == p && !self.projects@[bi].archived);
                    }
                }
            }
        }
        count
    }
}

/// Rematching changes nothing on its own result: with the projects and home files unchanged, a
/// second rematch leaves every child file as the first one left it (and so links none), and a
/// child file that was already matched keeps its match.
pub proof fn law_rematch_idempotent(first: Index, second: Index, c: ChildFile)
    requires
        second.projects@ == first.projects@,
        second.home_files@ == first.home_files@,
    ensures
        second.rematched(first.rematched(c)) == first.rematched(c),
        first.rematched(c).matched_project_id is None ==> second.best_match(c.base_name@) is None,
        c.matched_project_id is Some ==> first.rematched(c) == c,
{
}

proof fn lemma_upsert_homes_facts(rows: Seq<HomeFile>, next: i64, pid: ProjectId, sc: Seq<ScannedFile>)
    ensures
        upsert_homes(rows, next, pid, sc).0.len() >= rows.len(),
        forall|i: int|
            0 <= i < rows.len() ==> (#[trigger] upsert_homes(rows, next, pid, sc).0[i]).abs_path@ == rows[i].abs_path@,
        forall|i: int|
            0 <= i < rows.len() && !scanned_paths(sc).contains(rows[i].abs_path@) ==> #[trigger] upsert_homes(
                rows,
                next,
                pid,
                sc,
            ).0[i] == rows[i],
        forall|j: int|
            rows.len() <= j < upsert_homes(rows, next, pid, sc).0.len() ==> scanned_paths(sc).contains(
                (#[trigger] upsert_homes(rows, next, pid, sc).0[j]).abs_path@,
            ),
        forall|k: int|
            0 <= k < sc.len() ==> exists|j: int|
                0 <= j < upsert_homes(rows, next, pid, sc).0.len() && (#[trigger] upsert_homes(rows, next, pid, sc).0[j]).abs_path@
                    == (#[trigger] sc[k]).abs_path@ && upsert_homes(rows, next, pid, sc).0[j].project_id == pid
                    && !upsert_homes(rows, next, pid, sc).0[j].missing,
    decreases sc.len(),
{
    if sc.len() > 0 {
        let init = sc.drop_last();
        let s = sc.last();
        lemma_upsert_homes_facts(rows, next, pid, init);
        let (r, n) = upsert_homes(rows, next, pid, init);
        let res = upsert_homes(rows, next, pid, sc).0;
        assert(res == upsert_home(r, n, pid, s).0);
        assert(scanned_paths(sc) =~= scanned_paths(init).push(s.abs_path@));
        assert forall|p: Seq<char>| scanned_paths(init).contains(p) implies scanned_paths(sc).contains(p) by {
            let k = choose|k: int| 0 <= k < scanned_paths(init).len() && scanned_paths(init)[k] == p;
            assert(scanned_paths(sc)[k] == p);
        }
        assert(scanned_paths(sc)[init.len() as int] == s.abs_path@);
        match home_path_index(r, s.abs_path@) {
            Some(x) => {
                assert(0 <= x < r.len() && r[x].abs_path@ == s.abs_path@);
                assert(res == r.update(x, scanned_home(r[x].id, pid, s)));
                assert forall|k: int| 0 <= k < sc.len() implies exists|j: int|
                    0 <= j < res.len() && (#[trigger] res[j]).abs_path@ == (#[trigger] sc[k]).abs_path@ && res[j].project_id == pid
                        && !res[j].missing by {
                    if k == init.len() {
                        assert(res[x].abs_path@ == sc[k].abs_path@);
                    } else {
                        assert(init[k] == sc[k]);
                        let j = choose|j: int|
                            0 <= j < r.len() && (#[trigger] r[j]).abs_path@ == (#[trigger] init[k]).abs_path@ && r[j].project_id
                                == pid && !r[j].missing;
                        assert(res[j].abs_path@ == sc[k].abs_path@);
                    }
                }
                assert forall|i: int| 0 <= i < rows.len() && !scanned_paths(sc).contains(rows[i].abs_path@) implies #[trigger] res[i]
                    == rows[i] by {
                    assert(!scanned_paths(init).contains(rows[i].abs_path@));
                    assert(r[i] == rows[i]);
                    assert(i != x);
                }
                assert forall|j: int| rows.len() <= j < res.len() implies scanned_paths(sc).contains((#[trigger] res[j]).abs_path@) by {
                    assert(res[j].abs_path@ == r[j].abs_path@);
                }
            },
            None => {
                assert(res == r.push(scanned_home(HomeFileId(n), pid, s)));
                assert forall|k: int| 0 <= k < sc.len() implies exists|j: int|
                    0 <= j < res.len() && (#[trigger] res[j]).abs_path@ == (#[trigger] sc[k]).abs_path@ && res[j].project_id == pid
                        && !res[j].missing by {
                    if k == init.len() {
                        assert(res[r.len() as int].abs_path@ == sc[k].abs_path@);
                    } else {
                        assert(init[k] == sc[k]);
                        let j = choose|j: int|
                            0 <= j < r.len() && (#[trigger] r[j]).abs_path@ == (#[trigger] init[k]).abs_path@ && r[j].project_id
                                == pid && !r[j].missing;
                        assert(res[j] == r[j]);
                    }
                }
                assert forall|i: int| 0 <= i < rows.len() && !scanned_paths(sc).contains(rows[i].abs_path@) implies #[trigger] res[i]
                    == rows[i] by {
                    assert(!scanned_paths(init).contains(rows[i].abs_path@));
                    assert(r[i] == rows[i]);
                }
                assert forall|j: int| rows.len() <= j < res.len() implies scanned_paths(sc).contains((#[trigger] res[j]).abs_path@) by {
                    if j < r.len() {
                        assert(res[j] == r[j]);
                    }
                }
            },
        }
    }
}

/// After a scan of project `pid`'s folder is recorded (the home files of a successful
/// `reconcile_home_files`), the home files agree with the scan: every scanned path has a
/// present row of `pid`; every present row of `pid` was scanned; a row whose path the scan did
/// not see and that belongs to another project is unchanged; and no row is dropped or moved.
pub proof fn law_home_scan_agrees(rows: Seq<HomeFile>, next: i64, pid: ProjectId, sc: Seq<ScannedFile>)
    ensures
        ({
            let res = mark_home_missing(upsert_homes(rows, next, pid, sc).0, pid, scanned_paths(sc));
            &&& res.len() >= rows.len()
            &&& forall|k: int|
                0 <= k < sc.len() ==> exists|j: int|
                    0 <= j < res.len() && (#[trigger] res[j]).abs_path@ == (#[trigger] sc[k]).abs_path@ && res[j].project_id == pid
                        && !res[j].missing
            &&& forall|j: int|
                0 <= j < res.len() && (#[trigger] res[j]).project_id == pid && !res[j].missing ==> scanned_paths(sc).contains(
                    res[j].abs_path@,
                )
            &&& forall|i: int|
                0 <= i < rows.len() && !scanned_paths(sc).contains(rows[i].abs_path@) && rows[i].project_id != pid ==> #[trigger] res[i]
                    == rows[i]
            &&& forall|i: int| 0 <= i < rows.len() ==> (#[trigger] res[i]).abs_path@ == rows[i].abs_path@
        }),
{
    lemma_upsert_homes_facts(rows, next, pid, sc);
    let up = upsert_homes(rows, next, pid, sc).0;
    let res = mark_home_missing(up, pid, scanned_paths(sc));
    assert forall|k: int| 0 <= k < sc.len() implies exists|j: int|
        0 <= j < res.len() && (#[trigger] res[j]).abs_path@ == (#[trigger] sc[k]).abs_path@ && res[j].project_id == pid
            && !res[j].missing by {
        let j = choose|j: int|
            0 <= j < up.len() && (#[trigger] up[j]).abs_path@ == (#[trigger] sc[k]).abs_path@ && up[j].project_id == pid
                && !up[j].missing;
        assert(scanned_paths(sc)[k] == sc[k].abs_path@);
        assert(res[j] == up[j]);
    }
    assert forall|i: int| 0 <= i < rows.len() implies (#[trigger] res[i]).abs_path@ == rows[i].abs_path@ by {
        assert(up[i].abs_path@ == rows[i].abs_path@);
    }
    assert forall|i: int|
        0 <= i < rows.len() && !scanned_paths(sc).contains(rows[i].abs_path@) && rows[i].project_id != pid implies #[trigger] res[i]
            == rows[i] by {
        assert(up[i] == rows[i]);
    }
}

proof fn lemma_upsert_children_facts(rows: Seq<ChildFile>, next: i64, sc: Seq<ScannedChildFile>)
    ensures
        upsert_children(rows, next, sc).0.len() >= rows.len(),
        forall|i: int|
            0 <= i < rows.len() ==> {
                let c = #[trigger] upsert_children(rows, next, sc).0[i];
                &&& c.abs_path@ == rows[i].abs_path@
                &&& c.id == rows[i].id
                &&& c.matched_project_id == rows[i].matched_project_id
            },
        forall|i: int|
            0 <= i < rows.len() && !scanned_child_paths(sc).contains(rows[i].abs_path@) ==> #[trigger] upsert_children(
                rows,
                next,
                sc,
            ).0[i] == rows[i],
        forall|j: int|
            rows.len() <= j < upsert_children(rows, next, sc).0.len() ==> scanned_child_paths(sc).contains(
                (#[trigger] upsert_children(rows, next, sc).0[j]).abs_path@,
            ) && upsert_children(rows, next, sc).0[j].matched_project_id is None,
        forall|k: int|
            0 <= k < sc.len() ==> exists|j: int|
                0 <= j < upsert_children(rows, next, sc).0.len() && (#[trigger] upsert_children(rows, next, sc).0[j]).abs_path@
                    == (#[trigger] sc[k]).abs_path@ && !upsert_children(rows, next, sc).0[j].missing,
    decreases sc.len(),
{
    if sc.len() > 0 {
        let init = sc.drop_last();
        let s = sc.last();
        lemma_upsert_children_facts(rows, next, init);
        let (r, n) = upsert_children(rows, next, init);
        let res = upsert_children(rows, next, sc).0;
        assert(res == upsert_child(r, n, s).0);
        assert(scanned_child_paths(sc) =~= scanned_child_paths(init).push(s.abs_path@));
        assert forall|p: Seq<char>| scanned_child_paths(init).contains(p) implies scanned_child_paths(sc).contains(p) by {
            let k = choose|k: int| 0 <= k < scanned_child_paths(init).len() && scanned_child_paths(init)[k] == p;
            assert(scanned_child_paths(sc)[k] == p);
        }
        assert(scanned_child_paths(sc)[init.len() as int] == s.abs_path@);
        match child_path_index(r, s.abs_path@) {
            Some(x) => {
                assert(0 <= x < r.len() && r[x].abs_path@ == s.abs_path@);
                assert(res == r.update(x, scanned_child(r[x].id, r[x].matched_project_id, s)));
                assert forall|k: int| 0 <= k < sc.len() implies exists|j: int|
                    0 <= j < res.len() && (#[trigger] res[j]).abs_path@ == (#[trigger] sc[k]).abs_path@ && !res[j].missing by {
                    if k == init.len() {
                        assert(res[x].abs_path@ == sc[k].abs_path@);
                    } else {
                        assert(init[k] == sc[k]);
                        let j = choose|j: int|
                            0 <= j < r.len() && (#[trigger] r[j]).abs_path@ == (#[trigger] init[k]).abs_path@ && !r[j].missing;
                        assert(res[j].abs_path@ == sc[k].abs_path@);
                    }
                }
                assert forall|i: int| 0 <= i < rows.len() implies {
                    let c = #[trigger] res[i];
                    &&& c.abs_path@ == rows[i].abs_path@
                    &&& c.id == rows[i].id
                    &&& c.matched_project_id == rows[i].matched_project_id
                } by {
                    assert(r[i].abs_path@ == rows[i].abs_path@);
                }
                assert forall|i: int| 0 <= i < rows.len() && !scanned_child_paths(sc).contains(rows[i].abs_path@) implies #[trigger] res[i]
                    == rows[i] by {
                    assert(!scanned_child_paths(init).contains(rows[i].abs_path@));
                    assert(r[i] == rows[i]);
                    assert(i != x);
                }
                assert forall|j: int| rows.len() <= j < res.len() implies scanned_child_paths(sc).contains((#[trigger] res[j]).abs_path@)
                    && res[j].matched_project_id is None by {
                    assert(res[j].abs_path@ == r[j].abs_path@);
                    assert(res[j].matched_project_id == r[j].matched_project_id);
                }
            },
            None => {
                assert(res == r.push(scanned_child(ChildFileId(n), None, s)));
                assert forall|k: int| 0 <= k < sc.len() implies exists|j: int|
                    0 <= j < res.len() && (#[trigger] res[j]).abs_path@ == (#[trigger] sc[k]).abs_path@ && !res[j].missing by {
                    if k == init.len() {
                        assert(res[r.len() as int].abs_path@ == sc[k].abs_path@);
                    } else {
                        assert(init[k] == sc[k]);
                        let j = choose|j: int|
                            0 <= j < r.len() && (#[trigger] r[j]).abs_path@ == (#[trigger] init[k]).abs_path@ && !r[j].missing;
                        assert(res[j] == r[j]);
                    }
                }
                assert forall|i: int| 0 <= i < rows.len() implies {
                    let c = #[trigger] res[i];
                    &&& c.abs_path@ == rows[i].abs_path@
                    &&& c.id == rows[i].id
                    &&& c.matched_project_id == rows[i].matched_project_id
                } by {
                    assert(res[i] == r[i]);
                }
                assert forall|i: int| 0 <= i < rows.len() && !scanned_child_paths(sc).contains(rows[i].abs_path@) implies #[trigger] res[i]
                    == rows[i] by {
                    assert(!scanned_child_paths(init).contains(rows[i].abs_path@));
                    assert(r[i] == rows[i]);
                }
                assert forall|j: int| rows.len() <= j < res.len() implies scanned_child_paths(sc).contains((#[trigger] res[j]).abs_path@)
                    && res[j].matched_project_id is None by {
                    if j < r.len() {
                        assert(res[j] == r[j]);
                    }
                }
            },
        }
    }
}

/// After a scan of the relevant directories is recorded (the child files of a successful
/// `reconcile_child_files`), the child files agree with the scan: every scanned path has a
/// present row; every present row was scanned; rows that were there keep their place, path,
/// id and match; and rows that were added are unmatched.
pub proof fn law_child_scan_agrees(rows: Seq<ChildFile>, next: i64, sc: Seq<ScannedChildFile>)
    ensures
        ({
            let res = mark_children_missing(upsert_children(rows, next, sc).0, scanned_child_paths(sc));
            &&& res.len() >= rows.len()
            &&& forall|k: int|
                0 <= k < sc.len() ==> exists|j: int|
                    0 <= j < res.len() && (#[trigger] res[j]).abs_path@ == (#[trigger] sc[k]).abs_path@ && !res[j].missing
            &&& forall|j: int|
                0 <= j < res.len() && !(#[trigger] res[j]).missing ==> scanned_child_paths(sc).contains(res[j].abs_path@)
            &&& forall|i: int|
                0 <= i < rows.len() ==> {
                    let c = #[trigger] res[i];
                    &&& c.abs_path@ == rows[i].abs_path@
                    &&& c.id == rows[i].id
                    &&& c.matched_project_id == rows[i].matched_project_id
                }
            &&& forall|j: int| rows.len() <= j < res.len() ==> (#[trigger] res[j]).matched_project_id is None
        }),
{
    lemma_upsert_children_facts(rows, next, sc);
    let up = upsert_children(rows, next, sc).0;
    let res = mark_children_missing(up, scanned_child_paths(sc));
    assert forall|k: int| 0 <= k < sc.len() implies exists|j: int|
        0 <= j < res.len() && (#[trigger] res[j]).abs_path@ == (#[trigger] sc[k]).abs_path@ && !res[j].missing by {
        let j = choose|j: int| 0 <= j < up.len() && (#[trigger] up[j]).abs_path@ == (#[trigger] sc[k]).abs_path@ && !up[j].missing;
        assert(scanned_child_paths(sc)[k] == sc[k].abs_path@);
        assert(res[j] == up[j]);
    }
    assert forall|i: int| 0 <= i < rows.len() implies {
        let c = #[trigger] res[i];
        &&& c.abs_path@ == rows[i].abs_path@
        &&& c.id == rows[i].id
        &&& c.matched_project_id == rows[i].matched_project_id
    } by {
        assert(up[i].abs_path@ == rows[i].abs_path@);
    }
    assert forall|j: int| rows.len() <= j < res.len() implies (#[trigger] res[j]).matched_project_id is None by {
        assert(up[j].matched_project_id is None);
    }
}

/// The best candidate for base name `b` among the first `n` projects, or -1 when there is none.
pub open spec fn best_among(ps: Seq<Project>, hs: Seq<HomeFile>, b: Seq<char>, n: int) -> int
    decreases n,
{
    if n <= 0 {
        -1
    } else {
        let r = best_among(ps, hs, b, n - 1);
        if is_match_candidate_in(ps, hs, n - 1, b) && (r == -1 || ps[n - 1].created_at > ps[r].created_at) {
            n - 1
        } else {
            r
        }
    }
}

proof fn lemma_best_among(ps: Seq<Project>, hs: Seq<HomeFile>, b: Seq<char>, n: int)
    requires
        0 <= n <= ps.len(),
    ensures
        ({
            let r = best_among(ps, hs, b, n);
            &&& -1 <= r < n
            &&& r == -1 ==> forall|j: int| 0 <= j < n ==> !#[trigger] is_match_candidate_in(ps, hs, j, b)
            &&& r != -1 ==> is_match_candidate_in(ps, hs, r, b)
            &&& r != -1 ==> forall|j: int|
                0 <= j < n && #[trigger] is_match_candidate_in(ps, hs, j, b) ==> ps[j].created_at < ps[r].created_at || (
                ps[j].created_at == ps[r].created_at && r <= j)
        }),
    decreases n,
{
    if n > 0 {
        lemma_best_among(ps, hs, b, n - 1);
    }
}

/// Matching finds a project whenever one qualifies: if some project that is not archived has a
/// present home file with base name `b`, child files with base name `b` have a project to be
/// matched to (see `best_match_in`), and it is one of those projects.
pub proof fn law_match_found_when_candidate(ps: Seq<Project>, hs: Seq<HomeFile>, b: Seq<char>)
    requires
        exists|i: int| is_match_candidate_in(ps, hs, i, b),
    ensures
        best_match_in(ps, hs, b) is Some,
        exists|i: int| is_match_candidate_in(ps, hs, i, b) && best_match_in(ps, hs, b) == Some(ps[i].id),
{
    lemma_best_among(ps, hs, b, ps.len() as int);
    let r = best_among(ps, hs, b, ps.len() as int);
    let w = choose|i: int| is_match_candidate_in(ps, hs, i, b);
    assert(r != -1) by {
        if r == -1 {
            assert(!is_match_candidate_in(ps, hs, w, b));
        }
    }
    assert(is_best_match_in(ps, hs, r, b)) by {
        assert forall|j: int| #[trigger] is_match_candidate_in(ps, hs, j, b) implies ps[j].created_at < ps[r].created_at || (
        ps[j].created_at == ps[r].created_at && r <= j) by {}
    }
    let c = choose|i: int| is_best_match_in(ps, hs, i, b);
    assert(is_match_candidate_in(ps, hs, c, b));
}

} // verus!
