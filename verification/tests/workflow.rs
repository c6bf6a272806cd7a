use matr_project_file_manager::index::{Index, IndexError};
use matr_project_file_manager::model::{ChildFileId, ExtensionRules, ProjectId};
use matr_project_file_manager::sync::FileEntry;
use matr_project_file_manager::workflow::{
    plan_child_move, plan_move_all, plan_project_from_image, plan_project_from_image_on, plan_project_from_scratch_on,
    record_project_from_image, record_project_from_scratch, relevant_to_sync, rescan_project, root_to_sync,
    save_settings,
};

fn entry(dir: &str, name: &str) -> FileEntry {
    FileEntry {
        abs_path: format!("{dir}/{name}"),
        file_name: name.to_string(),
        size_bytes: 1,
        created_at: 0,
        modified_at: 0,
    }
}

fn configured() -> Index {
    let mut ix = Index::new();
    ix.set_root_directory("/root");
    ix.replace_relevant_directories(&vec!["/rip".to_string()]);
    ix
}

#[test]
fn nothing_is_planned_without_a_root() {
    let ix = Index::new();
    assert_eq!(root_to_sync(&ix), Err(IndexError::DirectoriesNotConfigured));
    assert_eq!(relevant_to_sync(&ix), Err(IndexError::DirectoriesNotConfigured));
    assert!(matches!(
        plan_project_from_scratch_on(&ix, "x", "2026-01-01", &vec![], '/'),
        Err(IndexError::DirectoriesNotConfigured)
    ));
    assert!(matches!(plan_project_from_image(&ix, "/d/cat.png", &vec![], '/'), Err(IndexError::DirectoriesNotConfigured)));
}

#[test]
fn a_scratch_project_gets_a_dated_unused_folder() {
    let mut ix = configured();
    ix.create_project("2026-03-04 Coasters", "/root/2026-03-04 Coasters", None, None, 1).unwrap();
    let existing = vec!["/root/2026-03-04 Coasters (2)".to_string()];
    let plan = plan_project_from_scratch_on(&ix, "Coasters", "2026-03-04", &existing, '/').unwrap();
    assert_eq!(plan.folder_path, "/root/2026-03-04 Coasters (3)");
    assert_eq!(plan.name, "2026-03-04 Coasters (3)");
}

#[test]
fn an_image_project_keeps_the_image_name_as_its_seed() {
    let ix = configured();
    let plan = plan_project_from_image_on(&ix, "/downloads/IMG_1-0.JPG", "2026-03-04", &vec![], '/').unwrap();
    assert_eq!(plan.folder_path, "/root/2026-03-04 IMG_1-0");
    assert_eq!(plan.name, "2026-03-04 IMG_1-0");
    assert_eq!(plan.image_dest, "/root/2026-03-04 IMG_1-0/IMG_1-0.JPG");
    assert_eq!(plan.seed_filename, "IMG_1-0.JPG");
    assert_eq!(plan.seed_basename, "img_1");
}

#[test]
fn unsafe_characters_are_cleaned_from_folder_names() {
    let ix = configured();
    let plan = plan_project_from_scratch_on(&ix, "a/b?", "2026-03-04", &vec![], '/').unwrap();
    assert_eq!(plan.folder_path, "/root/2026-03-04 a_b_");
}

#[test]
fn recording_an_image_project_scans_and_matches() {
    let rules = ExtensionRules::default();
    let mut ix = configured();
    ix.scan_relevant_directories(&vec![entry("/rip", "cat-0.prt")], &rules).unwrap();
    let plan = plan_project_from_image_on(&ix, "/d/cat.png", "2026-03-04", &vec![], '/').unwrap();
    let walk = vec![entry(&plan.folder_path, "cat.png")];
    let p = record_project_from_image(&mut ix, &plan, 50, &walk, &rules).unwrap();
    assert_eq!(p.seed_filename.as_deref(), Some("cat.png"));
    assert_eq!(p.seed_basename.as_deref(), Some("cat"));
    assert_eq!(ix.home_files.len(), 1);
    assert_eq!(ix.child_files[0].matched_project_id, Some(p.id));
    assert!(matches!(record_project_from_image(&mut ix, &plan, 60, &walk, &rules), Err(IndexError::FolderTaken)));
}

#[test]
fn recording_a_scratch_project_has_no_seed() {
    let rules = ExtensionRules::default();
    let mut ix = configured();
    let plan = plan_project_from_scratch_on(&ix, "Blank", "2026-03-04", &vec![], '/').unwrap();
    let p = record_project_from_scratch(&mut ix, &plan, 5, &vec![], &rules).unwrap();
    assert_eq!(p.name, "2026-03-04 Blank");
    assert_eq!(p.seed_filename, None);
    assert_eq!(ix.list_projects().len(), 1);
}

#[test]
fn rescanning_an_unknown_project_is_refused() {
    let mut ix = configured();
    assert_eq!(
        rescan_project(&mut ix, ProjectId(9), &vec![], &ExtensionRules::default()),
        Err(IndexError::ProjectNotFound(ProjectId(9)))
    );
}

#[test]
fn moving_needs_a_matched_child_file() {
    let rules = ExtensionRules::default();
    let mut ix = configured();
    assert!(matches!(plan_child_move(&ix, ChildFileId(1), &vec![], '/'), Err(IndexError::ChildFileNotFound(ChildFileId(1)))));
    ix.scan_relevant_directories(&vec![entry("/rip", "dog-0.prt")], &rules).unwrap();
    assert!(matches!(plan_child_move(&ix, ChildFileId(1), &vec![], '/'), Err(IndexError::ChildFileNotFound(ChildFileId(1)))));
    let p = ix.create_project("dog", "/root/dog", None, None, 1).unwrap();
    rescan_project(&mut ix, p.id, &vec![entry("/root/dog", "dog.jpg")], &rules).unwrap();
    let m = plan_child_move(&ix, ChildFileId(1), &vec!["/root/dog/dog-0.prt".to_string()], '/').unwrap();
    assert_eq!(m.project_id, p.id);
    assert_eq!(m.dest, "/root/dog/dog-0 (2).prt");
    let (proj, matched) = plan_move_all(&ix, p.id).unwrap();
    assert_eq!(proj.id, p.id);
    assert_eq!(matched.len(), 1);
    assert!(matches!(plan_move_all(&ix, ProjectId(42)), Err(IndexError::ProjectNotFound(ProjectId(42)))));
}

#[test]
fn saving_settings_stores_all_three_parts() {
    let mut ix = Index::new();
    let s = save_settings(
        &mut ix,
        "/root",
        &vec!["/a".to_string(), "/b".to_string()],
        &vec!["svg".to_string()],
        &vec!["gcode".to_string()],
    );
    assert_eq!(s.root_directory.as_deref(), Some("/root"));
    assert_eq!(s.relevant_directories.len(), 2);
    assert!(ix.settings.extension_rules.is_child("GCODE"));
    assert!(!ix.settings.extension_rules.is_parent("png"));
    assert_eq!(relevant_to_sync(&ix).unwrap().len(), 2);
    assert_eq!(root_to_sync(&ix).unwrap(), "/root");
}
