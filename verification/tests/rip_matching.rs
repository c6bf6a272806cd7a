use matr_project_file_manager::index::Index;
use matr_project_file_manager::model::{ExtensionRules, FileSource};
use matr_project_file_manager::naming::base_name_of;
use matr_project_file_manager::sync::FileEntry;
use matr_project_file_manager::workflow::plan_child_move;

fn entry(dir: &str, name: &str) -> FileEntry {
    FileEntry {
        abs_path: format!("{dir}/{name}"),
        file_name: name.to_string(),
        size_bytes: 1,
        created_at: 0,
        modified_at: 0,
    }
}

fn entries(dir: &str, names: &[String]) -> Vec<FileEntry> {
    names.iter().map(|n| entry(dir, n)).collect()
}

#[test]
fn base_name_strips_printfactory_duplicate_suffix() {
    assert_eq!(base_name_of("photo-0"), "photo");
    assert_eq!(base_name_of("photo-12"), "photo");
    assert_eq!(base_name_of("photo"), "photo");
    assert_eq!(base_name_of("PHOTO"), "photo");
    assert_eq!(base_name_of("my-project"), "my-project");
    assert_eq!(base_name_of("my-project-2"), "my-project");
}

#[test]
fn rip_files_are_matched_by_filename_and_only_moved_on_request() {
    let rules = ExtensionRules::default();
    let project_folder = "/t/root/photo";
    let rip_dir = "/t/rip";
    let mut ix = Index::new();

    let mut project_disk: Vec<String> = vec!["photo.jpg".to_string()];
    let mut rip_disk: Vec<String> = vec![];

    let project = ix.create_project("photo", project_folder, Some("photo.jpg"), Some("photo"), 1).unwrap();
    ix.scan_project_home(project.id, project_folder, &entries(project_folder, &project_disk), &rules).unwrap();

    rip_disk.push("photo-0.prt".to_string());
    rip_disk.push("photo-0.bmp".to_string());
    ix.scan_relevant_directories(&entries(rip_dir, &rip_disk), &rules).unwrap();

    let files = ix.files_for_project(project.id);
    assert_eq!(files.len(), 3, "seed image + matched .prt + matched .bmp");

    let home_count = files.iter().filter(|f| f.source == FileSource::Home).count();
    let rip_count = files.iter().filter(|f| f.source == FileSource::Child).count();
    assert_eq!(home_count, 1, "only the seed image lives in the project's own folder");
    assert_eq!(rip_count, 2, "the .prt/.bmp are matched but still physically in the RIP directory");

    assert!(rip_disk.contains(&"photo-0.prt".to_string()));
    assert!(rip_disk.contains(&"photo-0.bmp".to_string()));
    assert!(!project_disk.contains(&"photo-0.prt".to_string()));

    let child_id = files
        .iter()
        .find(|f| f.file_name == "photo-0.prt")
        .and_then(|f| f.child_file_id)
        .unwrap();
    let existing: Vec<String> = project_disk.iter().map(|n| format!("{project_folder}/{n}")).collect();
    let planned = plan_child_move(&ix, child_id, &existing, '/').unwrap();
    assert_eq!(planned.source, "/t/rip/photo-0.prt");
    assert_eq!(planned.dest, "/t/root/photo/photo-0.prt");
    rip_disk.retain(|n| n != "photo-0.prt");
    project_disk.push("photo-0.prt".to_string());
    ix.delete_child_file(child_id);
    ix.scan_project_home(project.id, project_folder, &entries(project_folder, &project_disk), &rules).unwrap();

    assert!(!rip_disk.contains(&"photo-0.prt".to_string()), "moved out of the RIP directory");
    assert!(project_disk.contains(&"photo-0.prt".to_string()), "landed in the project folder");
    assert!(rip_disk.contains(&"photo-0.bmp".to_string()), "the other matched file was untouched");

    let files = ix.files_for_project(project.id);
    let moved = files.iter().find(|f| f.file_name == "photo-0.prt").unwrap();
    assert_eq!(moved.source, FileSource::Home, "moved file is now tracked as a home file");
}

#[test]
fn unmatched_rip_files_stay_unmatched() {
    let rules = ExtensionRules::default();
    let mut ix = Index::new();

    ix.scan_relevant_directories(&vec![entry("/t/rip_unmatched", "someone_elses_job-0.prt")], &rules).unwrap();

    let project = ix.create_project("photo", "/t/root2/photo", Some("photo.jpg"), Some("photo"), 1).unwrap();

    let files = ix.files_for_project(project.id);
    assert!(files.is_empty(), "unrelated RIP file must not attach to this project");
}

#[test]
fn the_newest_project_wins_a_shared_base_name() {
    let rules = ExtensionRules::default();
    let mut ix = Index::new();
    let old = ix.create_project("a", "/r/a", None, None, 10).unwrap();
    let new = ix.create_project("b", "/r/b", None, None, 20).unwrap();
    ix.scan_project_home(old.id, "/r/a", &vec![entry("/r/a", "mug.jpg")], &rules).unwrap();
    ix.scan_project_home(new.id, "/r/b", &vec![entry("/r/b", "mug.png")], &rules).unwrap();
    ix.scan_relevant_directories(&vec![entry("/rip", "mug-0.prt")], &rules).unwrap();
    assert_eq!(ix.child_files[0].matched_project_id, Some(new.id));
    assert_eq!(ix.child_files_matched_to_project(old.id).len(), 0);
}

#[test]
fn an_existing_match_is_kept_on_rematch() {
    let rules = ExtensionRules::default();
    let mut ix = Index::new();
    let first = ix.create_project("a", "/r/a", None, None, 10).unwrap();
    ix.scan_project_home(first.id, "/r/a", &vec![entry("/r/a", "mug.jpg")], &rules).unwrap();
    ix.scan_relevant_directories(&vec![entry("/rip", "mug-0.prt")], &rules).unwrap();
    assert_eq!(ix.child_files[0].matched_project_id, Some(first.id));

    let newer = ix.create_project("b", "/r/b", None, None, 20).unwrap();
    ix.scan_project_home(newer.id, "/r/b", &vec![entry("/r/b", "mug.png")], &rules).unwrap();
    assert_eq!(ix.rematch_child_files(), 0);
    assert_eq!(ix.child_files[0].matched_project_id, Some(first.id));
}
