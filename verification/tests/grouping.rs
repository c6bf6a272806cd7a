use matr_project_file_manager::grouping::group_files;
use matr_project_file_manager::model::{ExtensionRules, FileSource, ProjectFileView};

fn file(source: FileSource, name: &str, ext: &str, base_name: Option<&str>) -> ProjectFileView {
    ProjectFileView {
        source,
        child_file_id: None,
        abs_path: name.to_string(),
        file_name: name.to_string(),
        ext: ext.to_string(),
        size_bytes: 0,
        created_at: 0,
        modified_at: 0,
        base_name: base_name.map(str::to_string),
    }
}

#[test]
fn iterations_are_grouped_under_the_image_sharing_their_base_name() {
    let files = vec![
        file(FileSource::Home, "front.jpg", "jpg", Some("front")),
        file(FileSource::Home, "back.jpg", "jpg", Some("back")),
        file(FileSource::Child, "front-0.prt", "prt", Some("front")),
        file(FileSource::Child, "back-0.prt", "prt", Some("back")),
        file(FileSource::Home, "notes.txt", "txt", None),
    ];

    let (image_groups, unassigned, leftovers) = group_files(&files, &ExtensionRules::default());

    assert_eq!(image_groups.len(), 2);
    let front = image_groups.iter().find(|g| g.image.file_name == "front.jpg").unwrap();
    assert_eq!(front.iterations.len(), 1);
    assert_eq!(front.iterations[0].files[0].file_name, "front-0.prt");
    let back = image_groups.iter().find(|g| g.image.file_name == "back.jpg").unwrap();
    assert_eq!(back.iterations.len(), 1);

    assert!(unassigned.is_empty());
    assert_eq!(leftovers.len(), 1);
    assert_eq!(leftovers[0].file_name, "notes.txt");
}

#[test]
fn iterations_with_no_matching_image_are_unassigned() {
    let files = vec![file(FileSource::Child, "orphan-0.prt", "prt", Some("orphan"))];

    let (image_groups, unassigned, _leftovers) = group_files(&files, &ExtensionRules::default());

    assert!(image_groups.is_empty());
    assert_eq!(unassigned.len(), 1);
}

#[test]
fn an_iteration_gathers_the_files_sharing_its_stem() {
    let files = vec![
        file(FileSource::Home, "mug.jpg", "jpg", Some("mug")),
        file(FileSource::Child, "mug-0.prt", "prt", Some("mug")),
        file(FileSource::Child, "mug-0.bmp", "bmp", Some("mug")),
        file(FileSource::Child, "mug-1.prt", "prt", Some("mug")),
    ];
    let (groups, unassigned, leftovers) = group_files(&files, &ExtensionRules::default());
    assert_eq!(groups.len(), 1);
    assert_eq!(groups[0].iterations.len(), 2);
    assert_eq!(groups[0].iterations[0].label, "mug-0");
    assert_eq!(groups[0].iterations[0].files.len(), 2);
    assert_eq!(groups[0].iterations[1].label, "mug-1");
    assert!(unassigned.is_empty());
    assert!(leftovers.is_empty());
}

#[test]
fn images_are_listed_by_name() {
    let files = vec![
        file(FileSource::Home, "zeta.png", "png", Some("zeta")),
        file(FileSource::Home, "alpha.png", "png", Some("alpha")),
    ];
    let (groups, _, _) = group_files(&files, &ExtensionRules::default());
    assert_eq!(groups[0].image.file_name, "alpha.png");
    assert_eq!(groups[1].image.file_name, "zeta.png");
}

#[test]
fn non_child_files_without_an_image_are_leftovers() {
    let files = vec![
        file(FileSource::Home, "readme.md", "md", None),
        file(FileSource::Child, "loose.gcode", "gcode", Some("loose")),
    ];
    let (groups, unassigned, leftovers) = group_files(&files, &ExtensionRules::default());
    assert!(groups.is_empty());
    assert!(unassigned.is_empty());
    assert_eq!(leftovers.len(), 2);
}
