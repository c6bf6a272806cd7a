//! The records the project index keeps, and the extension rules that classify files.
use vstd::prelude::*;
use crate::text::{chars_eq, chars_of, eq_ignore_ascii_case, eq_ignore_case, lower, lower_chars};

verus! {

/// Identifier of a project.
#[derive(Debug, Clone, Copy, PartialEq, Eq, Structural, Hash, PartialOrd, Ord)]
pub struct ProjectId(pub i64);

/// Identifier of a file that lives in a project's own folder.
#[derive(Debug, Clone, Copy, PartialEq, Eq, Structural, Hash, PartialOrd, Ord)]
pub struct HomeFileId(pub i64);

/// Identifier of a derived ("child") file found in one of the relevant directories.
#[derive(Debug, Clone, Copy, PartialEq, Eq, Structural, Hash, PartialOrd, Ord)]
pub struct ChildFileId(pub i64);

/// The views of a sequence of strings.
pub open spec fn strs_view(v: Seq<String>) -> Seq<Seq<char>> {
    v.map_values(|s: String| s@)
}

/// A copy of a string.
pub fn dup_string(s: &String) -> (r: String)
    ensures
        r == *s,
        r@ == s@,
{
    s.clone()
}

/// A copy of an optional string.
pub fn dup_opt_string(s: &Option<String>) -> (r: Option<String>)
    ensures
        r == *s,
{
    match s {
        Some(x) => Some(x.clone()),
        None => None,
    }
}

/// A copy of a vector of strings.
pub fn dup_strings(v: &Vec<String>) -> (r: Vec<String>)
    ensures
        r@ == v@,
{
    let mut r: Vec<String> = Vec::new();
    for i in 0..v.len()
        invariant
            r@ == v@.take(i as int),
    {
        r.push(v[i].clone());
        assert(v@.take(i + 1) == v@.take(i as int).push(v@[i as int]));
    }
    assert(v@.take(v.len() as int) == v@);
    r
}

/// A vector of owned strings made from string slices.
pub fn strings_of(v: &Vec<&str>) -> (r: Vec<String>)
    ensures
        strs_view(r@) == v@.map_values(|s: &str| s@),
{
    let mut r: Vec<String> = Vec::new();
    for i in 0..v.len()
        invariant
            strs_view(r@) == v@.map_values(|s: &str| s@).take(i as int),
    {
        let s = crate::text::string_of(&chars_of(v[i]));
        let ghost old_r = r@;
        r.push(s);
        assert(strs_view(r@) =~= strs_view(old_r).push(v@[i as int]@));
        assert(v@.map_values(|s: &str| s@).take(i + 1) =~= v@.map_values(|s: &str| s@).take(i as int).push(
            v@[i as int]@,
        ));
    }
    assert(v@.map_values(|s: &str| s@).take(v.len() as int) == v@.map_values(|s: &str| s@));
    r
}

/// `ext` matches one of `list`, ignoring ASCII case.
pub open spec fn ext_listed(list: Seq<Seq<char>>, ext: Seq<char>) -> bool {
    exists|i: int| 0 <= i < list.len() && eq_ignore_case(#[trigger] list[i], ext)
}

/// Which extensions count as a project's source ("parent") files and which as derived
/// iteration ("child") output.
#[derive(Debug, Clone)]
pub struct ExtensionRules {
    pub parent_extensions: Vec<String>,
    pub child_extensions: Vec<String>,
}

impl ExtensionRules {
    /// Parent extensions, as character sequences.
    pub open spec fn parents(&self) -> Seq<Seq<char>> {
        strs_view(self.parent_extensions@)
    }

    /// Child extensions, as character sequences.
    pub open spec fn children(&self) -> Seq<Seq<char>> {
        strs_view(self.child_extensions@)
    }

    pub open spec fn spec_is_parent(&self, ext: Seq<char>) -> bool {
        ext_listed(self.parents(), ext)
    }

    pub open spec fn spec_is_child(&self, ext: Seq<char>) -> bool {
        ext_listed(self.children(), ext)
    }

    pub open spec fn spec_is_child_only(&self, ext: Seq<char>) -> bool {
        self.spec_is_child(ext) && !self.spec_is_parent(ext)
    }

    /// The built-in rules: parents `png, jpg, jpeg, bmp`; children `prt, bmp`.
    pub fn default_rules() -> (r: ExtensionRules)
        ensures
            r.parents() == seq!["png"@, "jpg"@, "jpeg"@, "bmp"@],
            r.children() == seq!["prt"@, "bmp"@],
    {
        let p = strings_of(&vec!["png", "jpg", "jpeg", "bmp"]);
        let c = strings_of(&vec!["prt", "bmp"]);
        ExtensionRules { parent_extensions: p, child_extensions: c }
    }

    /// A copy of these rules.
    pub fn duplicate(&self) -> (r: ExtensionRules)
        ensures
            r.parent_extensions@ == self.parent_extensions@,
            r.child_extensions@ == self.child_extensions@,
    {
        ExtensionRules {
            parent_extensions: dup_strings(&self.parent_extensions),
            child_extensions: dup_strings(&self.child_extensions),
        }
    }

    /// Whether `ext` is a parent extension (ASCII case ignored).
    pub fn is_parent(&self, ext: &str) -> (r: bool)
        ensures
            r == self.spec_is_parent(ext@),
    {
        listed(&self.parent_extensions, ext)
    }

    /// Whether `ext` is a child extension (ASCII case ignored).
    pub fn is_child(&self, ext: &str) -> (r: bool)
        ensures
            r == self.spec_is_child(ext@),
    {
        listed(&self.child_extensions, ext)
    }

    /// Whether `ext` is a child extension that is not also a parent extension.
    pub fn is_child_only(&self, ext: &str) -> (r: bool)
        ensures
            r == self.spec_is_child_only(ext@),
    {
        self.is_child(ext) && !self.is_parent(ext)
    }
}

impl Default for ExtensionRules {
    fn default() -> (r: ExtensionRules)
        ensures
            r.parents() == seq!["png"@, "jpg"@, "jpeg"@, "bmp"@],
            r.children() == seq!["prt"@, "bmp"@],
    {
        ExtensionRules::default_rules()
    }
}

/// Whether `ext` matches an entry of `list`, ignoring ASCII case.
fn listed(list: &Vec<String>, ext: &str) -> (r: bool)
    ensures
        r == ext_listed(strs_view(list@), ext@),
{
    for i in 0..list.len()
        invariant
            forall|j: int| 0 <= j < i ==> !eq_ignore_case(#[trigger] strs_view(list@)[j], ext@),
    {
        if eq_ignore_ascii_case(list[i].as_str(), ext) {
            assert(eq_ignore_case(strs_view(list@)[i as int], ext@));
            return true;
        }
    }
    false
}

/// The configured directories and extension rules.
#[derive(Debug, Clone)]
pub struct Settings {
    pub root_directory: Option<String>,
    pub relevant_directories: Vec<String>,
    pub extension_rules: ExtensionRules,
}

impl Settings {
    /// Settings before any configuration: no directories, the built-in extension rules.
    pub fn unconfigured() -> (r: Settings)
        ensures
            r.root_directory is None,
            r.relevant_directories@.len() == 0,
            r.extension_rules.parents() == seq!["png"@, "jpg"@, "jpeg"@, "bmp"@],
            r.extension_rules.children() == seq!["prt"@, "bmp"@],
    {
        Settings {
            root_directory: None,
            relevant_directories: Vec::new(),
            extension_rules: ExtensionRules::default_rules(),
        }
    }

    /// Whether a root directory and at least one relevant directory are configured.
    pub fn is_configured(&self) -> (r: bool)
        ensures
            r == (self.root_directory is Some && self.relevant_directories@.len() > 0),
    {
        self.root_directory.is_some() && self.relevant_directories.len() > 0
    }

    /// A copy of these settings.
    pub fn duplicate(&self) -> (r: Settings)
        ensures
            r.root_directory == self.root_directory,
            r.relevant_directories@ == self.relevant_directories@,
            r.extension_rules.parent_extensions@ == self.extension_rules.parent_extensions@,
            r.extension_rules.child_extensions@ == self.extension_rules.child_extensions@,
    {
        Settings {
            root_directory: dup_opt_string(&self.root_directory),
            relevant_directories: dup_strings(&self.relevant_directories),
            extension_rules: self.extension_rules.duplicate(),
        }
    }
}

impl Default for Settings {
    fn default() -> (r: Settings)
        ensures
            r.root_directory is None,
            r.relevant_directories@.len() == 0,
            r.extension_rules.parents() == seq!["png"@, "jpg"@, "jpeg"@, "bmp"@],
            r.extension_rules.children() == seq!["prt"@, "bmp"@],
    {
        Settings::unconfigured()
    }
}

/// A project: one folder under the root directory.
#[derive(Debug, Clone)]
pub struct Project {
    pub id: ProjectId,
    pub name: String,
    pub folder_path: String,
    pub seed_filename: Option<String>,
    pub seed_basename: Option<String>,
    /// Creation time, microseconds since the Unix epoch.
    pub created_at: i64,
    pub archived: bool,
}

impl Project {
    /// A copy of this project.
    pub fn duplicate(&self) -> (r: Project)
        ensures
            r == *self,
    {
        Project {
            id: self.id,
            name: dup_string(&self.name),
            folder_path: dup_string(&self.folder_path),
            seed_filename: dup_opt_string(&self.seed_filename),
            seed_basename: dup_opt_string(&self.seed_basename),
            created_at: self.created_at,
            archived: self.archived,
        }
    }
}

/// A file physically inside a project's own folder.
#[derive(Debug, Clone)]
pub struct HomeFile {
    pub id: HomeFileId,
    pub project_id: ProjectId,
    pub abs_path: String,
    pub relative_path: String,
    pub file_name: String,
    pub ext: String,
    pub size_bytes: u64,
    pub created_at: i64,
    pub modified_at: i64,
    pub missing: bool,
    /// Stripped base name of a recognized parent file; `None` for other files.
    pub base_name: Option<String>,
}

/// A derived file inside one of the relevant directories, linked to a project by name.
#[derive(Debug, Clone)]
pub struct ChildFile {
    pub id: ChildFileId,
    pub abs_path: String,
    pub file_name: String,
    pub base_name: String,
    pub ext: String,
    pub size_bytes: u64,
    pub created_at: i64,
    pub modified_at: i64,
    pub missing: bool,
    pub matched_project_id: Option<ProjectId>,
}

impl ChildFile {
    /// A copy of this record.
    pub fn duplicate(&self) -> (r: ChildFile)
        ensures
            r == *self,
    {
        ChildFile {
            id: self.id,
            abs_path: dup_string(&self.abs_path),
            file_name: dup_string(&self.file_name),
            base_name: dup_string(&self.base_name),
            ext: dup_string(&self.ext),
            size_bytes: self.size_bytes,
            created_at: self.created_at,
            modified_at: self.modified_at,
            missing: self.missing,
            matched_project_id: self.matched_project_id,
        }
    }
}

/// Where a file shown for a project physically lives.
#[derive(Debug, Clone, Copy, PartialEq, Eq, Structural)]
pub enum FileSource {
    Home,
    Child,
}

/// One row of a project's unified file list.
#[derive(Debug, Clone)]
pub struct ProjectFileView {
    pub source: FileSource,
    pub child_file_id: Option<ChildFileId>,
    pub abs_path: String,
    pub file_name: String,
    pub ext: String,
    pub size_bytes: u64,
    pub created_at: i64,
    pub modified_at: i64,
    pub base_name: Option<String>,
}

impl ProjectFileView {
    /// A copy of this row.
    pub fn duplicate(&self) -> (r: ProjectFileView)
        ensures
            r == *self,
    {
        ProjectFileView {
            source: self.source,
            child_file_id: self.child_file_id,
            abs_path: dup_string(&self.abs_path),
            file_name: dup_string(&self.file_name),
            ext: dup_string(&self.ext),
            size_bytes: self.size_bytes,
            created_at: self.created_at,
            modified_at: self.modified_at,
            base_name: dup_opt_string(&self.base_name),
        }
    }
}

/// A broad classification of files by extension.
#[derive(Debug, Clone, Copy, PartialEq, Eq, Structural)]
pub enum FileKind {
    Image,
    Vector,
    RipJob,
    Toolpath,
    Other,
}

/// The kind of a file with extension `ext`, ignoring ASCII case.
pub open spec fn spec_file_kind(ext: Seq<char>) -> FileKind {
    let e = lower(ext);
    if e == "bmp"@ || e == "png"@ || e == "jpg"@ || e == "jpeg"@ {
        FileKind::Image
    } else if e == "svg"@ {
        FileKind::Vector
    } else if e == "prt"@ {
        FileKind::RipJob
    } else if e == "gcode"@ || e == "nc"@ {
        FileKind::Toolpath
    } else {
        FileKind::Other
    }
}

impl FileKind {
    /// The kind of a file with extension `ext`.
    pub fn from_ext(ext: &str) -> (r: FileKind)
        ensures
            r == spec_file_kind(ext@),
    {
        let e = lower_chars(&chars_of(ext));
        if chars_eq(&e, &chars_of("bmp")) || chars_eq(&e, &chars_of("png")) || chars_eq(&e, &chars_of("jpg"))
            || chars_eq(&e, &chars_of("jpeg")) {
            FileKind::Image
        } else if chars_eq(&e, &chars_of("svg")) {
            FileKind::Vector
        } else if chars_eq(&e, &chars_of("prt")) {
            FileKind::RipJob
        } else if chars_eq(&e, &chars_of("gcode")) || chars_eq(&e, &chars_of("nc")) {
            FileKind::Toolpath
        } else {
            FileKind::Other
        }
    }

    /// Whether this is the image kind.
    pub fn is_image(self) -> (r: bool)
        ensures
            r == (self == FileKind::Image),
    {
        match self {
            FileKind::Image => true,
            _ => false,
        }
    }
}

} // verus!
