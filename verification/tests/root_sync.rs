use matr_project_file_manager::index::{Index, IndexError};
use matr_project_file_manager::model::ExtensionRules;
use matr_project_file_manager::sync::{FileEntry, FolderSnapshot};

fn entry(dir: &str, name: &str) -> FileEntry {
    FileEntry {
        abs_path: format!("{dir}/{name}"),
        file_name: name.to_string(),
        size_bytes: 1,
        created_at: 0,
        modified_at: 0,
    }
}

fn folder(root: &str, name: &str, files: &[&str]) -> FolderSnapshot {
    let path = format!("{root}/{name}");
    FolderSnapshot {
        path: path.clone(),
        name: name.to_string(),
        is_dir: true,
        top_level_files: files.iter().map(|f| f.to_string()).collect(),
        files: files.iter().map(|f| entry(&path, f)).collect(),
    }
}

#[test]
fn untracked_folders_under_root_are_adopted_as_projects() {
    let rules = ExtensionRules::default();
    let root = "/tmp/root";
    let mut ix = Index::new();
    ix.set_root_directory(root);

    let folder_a = folder(root, "2026-01-01 mug", &["mug.png"]);
    let folder_b = folder(root, "2026-01-02 plain", &["notes.txt"]);
    let entries = vec![folder_a, folder_b];

    let discovered = ix.sync_root_directory(&rules, &entries, &vec![], 100).unwrap();
    assert_eq!(discovered, 2);

    let projects = ix.list_projects();
    assert_eq!(projects.len(), 2);

    let mug_project = projects.iter().find(|p| p.folder_path == "/tmp/root/2026-01-01 mug").unwrap();
    assert_eq!(mug_project.seed_filename.as_deref(), Some("mug.png"), "image inside is opportunistically treated as the seed");
    assert_eq!(mug_project.seed_basename.as_deref(), Some("mug"));

    let plain_project = projects.iter().find(|p| p.folder_path == "/tmp/root/2026-01-02 plain").unwrap();
    assert_eq!(plain_project.seed_filename, None, "no image inside, so no seed is inferred");

    let mug_files = ix.files_for_project(mug_project.id);
    assert_eq!(mug_files.len(), 1);

    let discovered_again = ix.sync_root_directory(&rules, &entries, &vec![], 200).unwrap();
    assert_eq!(discovered_again, 0);
    assert_eq!(ix.list_projects().len(), 2);
}

#[test]
fn adopted_folder_seed_matches_rip_output() {
    let rules = ExtensionRules::default();
    let root = "/tmp/root2";
    let mut ix = Index::new();

    let entries = vec![folder(root, "mug", &["mug.png"])];
    ix.sync_root_directory(&rules, &entries, &vec![], 100).unwrap();

    ix.scan_relevant_directories(&vec![entry("/tmp/rip2", "mug-0.prt")], &rules).unwrap();

    let project = ix.list_projects().into_iter().next().unwrap();
    let files = ix.files_for_project(project.id);
    assert!(files.iter().any(|f| f.file_name == "mug-0.prt"));
}

#[test]
fn deleting_a_project_folder_removes_it_from_the_list() {
    let rules = ExtensionRules::default();
    let root = "/tmp/root3";
    let mut ix = Index::new();

    let entries = vec![folder(root, "mug", &["mug.png"])];
    ix.sync_root_directory(&rules, &entries, &vec![], 100).unwrap();

    ix.scan_relevant_directories(&vec![entry("/tmp/rip3", "mug-0.prt")], &rules).unwrap();

    let project = ix.list_projects().into_iter().next().unwrap();
    let matched_before = ix.child_files_matched_to_project(project.id);
    assert_eq!(matched_before.len(), 1, "mug-0.prt matched before the folder was removed");

    ix.sync_root_directory(&rules, &vec![], &vec![], 200).unwrap();

    let projects = ix.list_projects();
    assert!(projects.is_empty(), "project must disappear once its folder is gone");

    let rip_file = ix.get_child_file(matched_before[0].id).unwrap();
    assert_eq!(rip_file.matched_project_id, None, "orphaned rip file must be unmatched, not left pointing at a hidden project");
}

#[test]
fn a_project_folder_outside_the_root_is_kept_when_it_exists() {
    let rules = ExtensionRules::default();
    let mut ix = Index::new();
    let p = ix.create_project("far", "/elsewhere/far", None, None, 5).unwrap();
    let others = vec![folder("/elsewhere", "far", &["far.jpg"])];
    assert_eq!(ix.sync_root_directory(&rules, &vec![], &others, 10), Ok(0));
    assert_eq!(ix.list_projects().len(), 1);
    assert_eq!(ix.files_for_project(p.id).len(), 1);
}

#[test]
fn entries_that_are_not_directories_are_not_adopted() {
    let rules = ExtensionRules::default();
    let mut ix = Index::new();
    let mut file_entry = folder("/r", "stray.txt", &[]);
    file_entry.is_dir = false;
    assert_eq!(ix.sync_root_directory(&rules, &vec![file_entry], &vec![], 10), Ok(0));
    assert!(ix.projects.is_empty());
}

#[test]
fn an_archived_projects_folder_coming_back_is_refused() {
    let rules = ExtensionRules::default();
    let mut ix = Index::new();
    let entries = vec![folder("/r", "mug", &["mug.png"])];
    ix.sync_root_directory(&rules, &entries, &vec![], 1).unwrap();
    ix.sync_root_directory(&rules, &vec![], &vec![], 2).unwrap();
    assert!(ix.list_projects().is_empty());
    assert_eq!(
        ix.sync_root_directory(&rules, &entries, &vec![], 3),
        Err(matr_project_file_manager::index::IndexError::FolderTaken)
    );
}

#[test]
fn home_files_are_recorded_relative_to_the_project_folder() {
    let rules = ExtensionRules::default();
    let mut ix = Index::new();
    let p = ix.create_project("mug", "/r/mug", None, None, 1).unwrap();
    let walk = vec![entry("/r/mug", "mug.png"), entry("/r/mug/old", "mug-0.bmp")];
    assert_eq!(ix.scan_project_home(p.id, "/r/mug", &walk, &rules), Ok(2));
    assert_eq!(ix.home_files[0].relative_path, "mug.png");
    assert_eq!(ix.home_files[1].relative_path, "old/mug-0.bmp");
    assert_eq!(ix.home_files[0].base_name.as_deref(), Some("mug"));
    assert_eq!(ix.home_files[1].base_name.as_deref(), Some("mug"));
    assert_eq!(ix.home_files[0].ext, "png");
}

#[test]
fn a_rescan_marks_vanished_home_files_missing_and_leaves_other_projects_alone() {
    let rules = ExtensionRules::default();
    let mut ix = Index::new();
    let a = ix.create_project("a", "/r/a", None, None, 1).unwrap();
    let b = ix.create_project("b", "/r/b", None, None, 2).unwrap();
    ix.scan_project_home(a.id, "/r/a", &vec![entry("/r/a", "x.png"), entry("/r/a", "y.png")], &rules).unwrap();
    ix.scan_project_home(b.id, "/r/b", &vec![entry("/r/b", "z.png")], &rules).unwrap();
    ix.scan_project_home(a.id, "/r/a", &vec![entry("/r/a", "y.png")], &rules).unwrap();
    assert!(ix.home_files[0].missing);
    assert!(!ix.home_files[1].missing);
    assert!(!ix.home_files[2].missing);
    assert_eq!(ix.home_files[0].id.0, 1);
    assert_eq!(ix.files_for_project(a.id).len(), 1);
    assert_eq!(ix.files_for_project(b.id).len(), 1);
    assert_eq!(ix.scan_project_home(matr_project_file_manager::model::ProjectId(99), "/r/q", &vec![], &rules),
        Err(matr_project_file_manager::index::IndexError::ProjectNotFound(matr_project_file_manager::model::ProjectId(99))));
}

#[test]
fn folder_of_archived_project_reappearing_is_refused() {
    let rules = ExtensionRules::default();
    let root = "/tmp/root";
    let mut ix = Index::new();
    let back = folder(root, "back", &["a.png"]);
    let other = folder(root, "other", &[]);
    assert_eq!(ix.sync_root_directory(&rules, &vec![back.clone()], &vec![], 1), Ok(1));
    // The folder disappears: its project is archived.
    assert_eq!(ix.sync_root_directory(&rules, &vec![], &vec![], 2), Ok(0));
    assert!(ix.list_projects().is_empty());
    // It comes back: adopting it again is refused, since the archived project keeps the folder.
    assert_eq!(
        ix.sync_root_directory(&rules, &vec![other, back], &vec![], 3),
        Err(IndexError::FolderTaken)
    );
    // The untracked folder met before the refused one was adopted.
    assert_eq!(ix.list_projects().len(), 1);
    assert_eq!(ix.list_projects()[0].folder_path, "/tmp/root/other");
}

#[test]
fn sync_refuses_when_ids_run_out() {
    let rules = ExtensionRules::default();
    let mut ix = Index::new();
    ix.next_project_id = i64::MAX;
    assert_eq!(
        ix.sync_root_directory(&rules, &vec![folder("/r", "mug", &["mug.png"])], &vec![], 1),
        Err(IndexError::IdsExhausted)
    );
    assert!(ix.list_projects().is_empty());

    let mut ix = Index::new();
    ix.next_home_id = i64::MAX;
    // The folder is adopted, but its walk cannot be recorded.
    assert_eq!(
        ix.sync_root_directory(&rules, &vec![folder("/r", "mug", &["mug.png"])], &vec![], 1),
        Err(IndexError::IdsExhausted)
    );
    assert_eq!(ix.list_projects().len(), 1);
    assert!(ix.home_files.is_empty());
    // An empty folder needs no ids.
    let mut ix = Index::new();
    ix.next_home_id = i64::MAX;
    assert_eq!(ix.sync_root_directory(&rules, &vec![folder("/r", "empty", &[])], &vec![], 1), Ok(1));
}
