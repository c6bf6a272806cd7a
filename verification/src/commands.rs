//! The messages between the user interface and the worker that owns the index.
use vstd::prelude::*;
use crate::model::{ChildFileId, Project, ProjectFileView, ProjectId, Settings};

verus! {

/// A request from the user interface to the worker.
#[derive(Debug, Clone)]
pub enum Command {
    GetSettings,
    SaveSettings {
        root_directory: String,
        relevant_directories: Vec<String>,
        parent_extensions: Vec<String>,
        child_extensions: Vec<String>,
    },
    ListProjects,
    CreateProjectFromImage { image_path: String },
    CreateProjectFromScratch { name: String },
    ListFilesForProject { project_id: ProjectId },
    RescanProject { project_id: ProjectId },
    SyncRootDirectory,
    SyncRelevantDirectories,
    MoveChildFileIntoProject { child_file_id: ChildFileId },
    MoveAllMatchedIntoProject { project_id: ProjectId },
}

/// A report from the worker to the user interface.
#[derive(Debug, Clone)]
pub enum UiEvent {
    Settings(Settings),
    ProjectsList(Vec<Project>),
    ProjectCreated(Project),
    FilesForProject { project_id: ProjectId, files: Vec<ProjectFileView> },
    Error(String),
}

/// A change seen by a file-system watcher.
#[derive(Debug, Clone, Copy, PartialEq, Eq, Structural)]
pub enum WatchEvent {
    RootChanged,
    RelevantChanged,
}

} // verus!
