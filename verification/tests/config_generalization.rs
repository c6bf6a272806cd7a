use matr_project_file_manager::index::Index;
use matr_project_file_manager::model::ExtensionRules;
use matr_project_file_manager::sync::FileEntry;

fn entry(dir: &str, name: &str) -> FileEntry {
    FileEntry {
        abs_path: format!("{dir}/{name}"),
        file_name: name.to_string(),
        size_bytes: 1,
        created_at: 0,
        modified_at: 0,
    }
}

#[test]
fn settings_round_trip_relevant_directories_and_extension_rules() {
    let mut ix = Index::new();

    let root = "/tmp/settings_root";
    let dir_a = "/tmp/settings_dir_a".to_string();
    let dir_b = "/tmp/settings_dir_b".to_string();

    ix.set_root_directory(root);
    ix.replace_relevant_directories(&vec![dir_a.clone(), dir_b.clone()]);
    let rules = ExtensionRules {
        parent_extensions: vec!["svg".to_string(), "png".to_string()],
        child_extensions: vec!["gcode".to_string()],
    };
    ix.set_extension_rules(&rules);

    let settings = ix.get_settings();
    assert_eq!(settings.root_directory.as_deref(), Some(root));
    assert_eq!(settings.relevant_directories, vec![dir_a, dir_b]);
    assert_eq!(settings.extension_rules.parent_extensions, vec!["svg", "png"]);
    assert_eq!(settings.extension_rules.child_extensions, vec!["gcode"]);
}

#[test]
fn multiple_relevant_directories_are_all_scanned_and_matched() {
    let rules = ExtensionRules::default();
    let mut ix = Index::new();

    let project_folder = "/tmp/multi_dir_root/photo";
    let project = ix.create_project("photo", project_folder, Some("photo.jpg"), Some("photo"), 1).unwrap();
    ix.scan_project_home(project.id, project_folder, &vec![entry(project_folder, "photo.jpg")], &rules).unwrap();

    let walk = vec![entry("/tmp/multi_dir_a", "photo-0.prt"), entry("/tmp/multi_dir_b", "photo-1.prt")];
    ix.scan_relevant_directories(&walk, &rules).unwrap();

    let files = ix.files_for_project(project.id);
    assert!(files.iter().any(|f| f.file_name == "photo-0.prt"), "output from the first folder must match");
    assert!(files.iter().any(|f| f.file_name == "photo-1.prt"), "output from the second folder must match too");
}

#[test]
fn extension_rules_are_configurable_beyond_the_image_prt_bmp_default() {
    let mut ix = Index::new();

    let rules = ExtensionRules {
        parent_extensions: vec!["svg".to_string()],
        child_extensions: vec!["gcode".to_string()],
    };

    let project_folder = "/tmp/custom_ext_root/design";
    let project = ix.create_project("design", project_folder, Some("design.svg"), Some("design"), 1).unwrap();
    ix.scan_project_home(project.id, project_folder, &vec![entry(project_folder, "design.svg")], &rules).unwrap();

    let walk = vec![entry("/tmp/custom_ext_rip", "design-0.gcode"), entry("/tmp/custom_ext_rip", "design-0.jpg")];
    ix.scan_relevant_directories(&walk, &rules).unwrap();

    let files = ix.files_for_project(project.id);
    assert!(files.iter().any(|f| f.file_name == "design-0.gcode"), "gcode output must match under custom rules");
    assert!(
        !files.iter().any(|f| f.file_name == "design-0.jpg"),
        "jpg isn't a configured child extension, so it must not be tracked as iteration output"
    );
}

#[test]
fn a_relevant_scan_counts_only_child_extension_files() {
    let mut ix = Index::new();
    let walk = vec![entry("/rip", "a-0.prt"), entry("/rip", "a.txt"), entry("/rip", "A-1.PRT")];
    assert_eq!(ix.scan_relevant_directories(&walk, &ExtensionRules::default()), Ok(2));
    assert_eq!(ix.child_files.len(), 2);
    assert_eq!(ix.child_files[1].base_name, "a");
    assert_eq!(ix.child_files[1].ext, "prt");
}

#[test]
fn files_gone_from_a_relevant_directory_are_marked_missing() {
    let mut ix = Index::new();
    let rules = ExtensionRules::default();
    ix.scan_relevant_directories(&vec![entry("/rip", "a-0.prt"), entry("/rip", "b-0.prt")], &rules).unwrap();
    ix.scan_relevant_directories(&vec![entry("/rip", "b-0.prt")], &rules).unwrap();
    assert!(ix.child_files[0].missing);
    assert!(!ix.child_files[1].missing);
    assert_eq!(ix.child_files[0].id.0, 1);
    assert_eq!(ix.child_files[1].id.0, 2);
}
