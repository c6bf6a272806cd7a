use matr_project_file_manager::index::Index;
use matr_project_file_manager::model::ExtensionRules;
use matr_project_file_manager::scanner::seed_from_entries;
use matr_project_file_manager::sync::{FileEntry, FolderSnapshot};

fn entry(dir: &str, name: &str) -> FileEntry {
    FileEntry {
        abs_path: format!("{dir}/{name}"),
        file_name: name.to_string(),
        size_bytes: 1,
        created_at: 0,
        modified_at: 0,
    }
}

fn folder(root: &str, name: &str, files: &[&str]) -> FolderSnapshot {
    let path = format!("{root}/{name}");
    FolderSnapshot {
        path: path.clone(),
        name: name.to_string(),
        is_dir: true,
        top_level_files: files.iter().map(|f| f.to_string()).collect(),
        files: files.iter().map(|f| entry(&path, f)).collect(),
    }
}

#[test]
fn adoption_prefers_real_photo_over_paired_rip_thumbnail() {
    let mut ix = Index::new();
    let entries = vec![folder(
        "/tmp/root",
        "2026-07-09 IMG_4672 copy",
        &["IMG_4672 copy-0.bmp", "IMG_4672 copy.jpg", "IMG_4672 copy-0.prt"],
    )];

    ix.sync_root_directory(&ExtensionRules::default(), &entries, &vec![], 1).unwrap();

    let project = ix.list_projects().into_iter().next().unwrap();
    assert_eq!(project.seed_filename.as_deref(), Some("IMG_4672 copy.jpg"));
    assert_eq!(project.seed_basename.as_deref(), Some("img_4672 copy"));
}

#[test]
fn already_broken_seed_self_heals_on_next_sync() {
    let mut ix = Index::new();
    let root = "/tmp/root2";
    let entries = vec![folder(root, "mug", &["mug.jpg", "mug-0.prt", "mug-0.bmp"])];

    let project = ix.create_project("mug", "/tmp/root2/mug", Some("mug-0.bmp"), Some("mug"), 1).unwrap();
    assert_eq!(project.seed_filename.as_deref(), Some("mug-0.bmp"));

    ix.sync_root_directory(&ExtensionRules::default(), &entries, &vec![], 2).unwrap();

    let healed = ix.get_project(project.id).unwrap();
    assert_eq!(healed.seed_filename.as_deref(), Some("mug.jpg"), "self-healed to the real photo");
}

#[test]
fn a_lone_bitmap_is_a_seed() {
    let names = vec!["scan.bmp".to_string(), "notes.txt".to_string()];
    let (f, b) = seed_from_entries(&names, &ExtensionRules::default());
    assert_eq!(f.as_deref(), Some("scan.bmp"));
    assert_eq!(b.as_deref(), Some("scan"));
}

#[test]
fn a_folder_of_iteration_output_has_no_seed() {
    let names = vec!["mug-0.bmp".to_string(), "mug-0.prt".to_string()];
    let (f, b) = seed_from_entries(&names, &ExtensionRules::default());
    assert_eq!(f, None);
    assert_eq!(b, None);
}

#[test]
fn a_healthy_seed_is_left_alone() {
    let mut ix = Index::new();
    let entries = vec![folder("/r", "mug", &["mug.jpg", "other.png"])];
    let project = ix.create_project("mug", "/r/mug", Some("other.png"), Some("other"), 1).unwrap();
    ix.sync_root_directory(&ExtensionRules::default(), &entries, &vec![], 2).unwrap();
    let p = ix.get_project(project.id).unwrap();
    assert_eq!(p.seed_filename.as_deref(), Some("other.png"));
}
