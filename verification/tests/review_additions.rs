use matr_project_file_manager::commands::UiEvent;
use matr_project_file_manager::index::Index;
use matr_project_file_manager::model::{ExtensionRules, Project, ProjectId};
use matr_project_file_manager::naming::{strip_date_prefix, today_prefix, with_date_prefix};
use matr_project_file_manager::sync::{FileEntry, FolderSnapshot};
use matr_project_file_manager::ui::{PendingThumbnails, UiState};

fn project(id: i64, name: &str) -> Project {
    Project {
        id: ProjectId(id),
        name: name.to_string(),
        folder_path: format!("/root/{name}"),
        seed_filename: None,
        seed_basename: None,
        created_at: id,
        archived: false,
    }
}

fn folder(root: &str, name: &str, files: &[&str]) -> FolderSnapshot {
    let path = format!("{root}/{name}");
    FolderSnapshot {
        path: path.clone(),
        name: name.to_string(),
        is_dir: true,
        top_level_files: files.iter().map(|f| f.to_string()).collect(),
        files: files
            .iter()
            .map(|f| FileEntry {
                abs_path: format!("{path}/{f}"),
                file_name: f.to_string(),
                size_bytes: 1,
                created_at: 0,
                modified_at: 0,
            })
            .collect(),
    }
}

#[test]
fn today_is_written_as_a_date() {
    let t = today_prefix();
    let b = t.as_bytes();
    assert_eq!(b.len(), 10);
    assert!(b[..4].iter().all(|c| c.is_ascii_digit()));
    assert_eq!(b[4], b'-');
    assert_eq!(b[7], b'-');
    let month: u32 = t[5..7].parse().unwrap();
    let day: u32 = t[8..10].parse().unwrap();
    assert!((1..=12).contains(&month));
    assert!((1..=31).contains(&day));
}

#[test]
fn a_dated_title_strips_back_to_its_name() {
    let title = with_date_prefix("Mug redesign");
    assert_ne!(title, "Mug redesign");
    assert_eq!(strip_date_prefix(&title), "Mug redesign");
}

#[test]
fn the_regex_strips_dashes_and_white_space_after_the_date() {
    assert_eq!(strip_date_prefix("2026-01-02 - \t name"), "name");
    assert_eq!(strip_date_prefix("2026-01-02x"), "x");
    assert_eq!(strip_date_prefix("x2026-01-02 name"), "x2026-01-02 name");
}

#[test]
fn a_fresh_index_is_well_formed_and_a_broken_one_is_not() {
    let ix = Index::new();
    assert!(ix.is_well_formed());
    let mut broken = Index::new();
    broken.projects.push(project(1, "a"));
    assert!(!broken.is_well_formed(), "id not below the next id");
    broken.next_project_id = 3;
    assert!(broken.is_well_formed());
    broken.projects.push(project(1, "b"));
    assert!(!broken.is_well_formed(), "two projects share an id");
}

#[test]
fn reports_are_applied_in_order() {
    let mut st = UiState::new();
    st.apply_events(vec![
        UiEvent::ProjectsList(vec![project(1, "a")]),
        UiEvent::ProjectCreated(project(2, "b")),
        UiEvent::ProjectCreated(project(2, "b")),
        UiEvent::Error("oops".to_string()),
    ]);
    let ids: Vec<i64> = st.projects.iter().map(|p| p.id.0).collect();
    assert_eq!(ids, vec![1, 2]);
    assert_eq!(st.selected_project, Some(ProjectId(2)));
    assert_eq!(st.status.as_deref(), Some("oops"));
}

#[test]
fn each_thumbnail_is_asked_for_once_until_delivered() {
    let mut p = PendingThumbnails::new();
    let a = "/x/a.png".to_string();
    assert!(p.begin(&a));
    assert!(!p.begin(&a));
    p.finish(&a);
    assert!(p.begin(&a));
}

#[test]
fn a_second_sync_leaves_the_projects_as_they_were() {
    let rules = ExtensionRules::default();
    let mut ix = Index::new();
    let entries = vec![
        folder("/r", "mug", &["mug.jpg", "mug-0.prt", "mug-0.bmp"]),
        folder("/r", "plain", &["notes.txt"]),
    ];
    assert_eq!(ix.sync_root_directory(&rules, &entries, &vec![], 1), Ok(2));
    let first: Vec<(Option<String>, bool)> = ix.projects.iter().map(|p| (p.seed_filename.clone(), p.archived)).collect();
    assert_eq!(first[0].0.as_deref(), Some("mug.jpg"));
    assert_eq!(ix.sync_root_directory(&rules, &entries, &vec![], 2), Ok(0));
    let second: Vec<(Option<String>, bool)> = ix.projects.iter().map(|p| (p.seed_filename.clone(), p.archived)).collect();
    assert_eq!(first, second);
    // The adopted project's walk is recorded as its own home files.
    let mug = ix.projects.iter().find(|p| p.name == "mug").unwrap().id;
    let files = ix.files_for_project(mug);
    assert_eq!(files.len(), 3);
}
