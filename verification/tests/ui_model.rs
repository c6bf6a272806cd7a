use matr_project_file_manager::commands::{Command, UiEvent};
use matr_project_file_manager::model::{ExtensionRules, FileSource, Project, ProjectFileView, ProjectId, Settings};
use matr_project_file_manager::ui::{
    display_or, is_source_path, join_comma_space, parse_ext_list, setup_dialog_from_settings, thumbnail_cache_path,
    thumbnail_file_name, Effect, Message, PageView, SetupDialogState, ThumbnailRequest, UiState,
};

fn configured() -> Settings {
    Settings {
        root_directory: Some("/root".to_string()),
        relevant_directories: vec!["/rip".to_string()],
        extension_rules: ExtensionRules::default(),
    }
}

#[test]
fn extension_lists_are_split_trimmed_and_lower_cased() {
    assert_eq!(parse_ext_list("png, .JPG ,, bmp"), vec!["png", "jpg", "bmp"]);
    assert_eq!(parse_ext_list(""), Vec::<String>::new());
    assert_eq!(parse_ext_list(" , ..,"), Vec::<String>::new());
    assert_eq!(parse_ext_list("..tar.gz"), vec!["tar.gz"]);
}

#[test]
fn extension_lists_are_shown_joined() {
    let v = vec!["png".to_string(), "jpg".to_string()];
    assert_eq!(join_comma_space(&v), "png, jpg");
    assert_eq!(join_comma_space(&vec![]), "");
    assert_eq!(parse_ext_list(&join_comma_space(&v)), v);
}

#[test]
fn the_setup_dialog_shows_the_settings() {
    let d = SetupDialogState::from_settings(&configured());
    assert_eq!(d.root.as_deref(), Some("/root"));
    assert_eq!(d.relevant_dirs, vec!["/rip".to_string()]);
    assert_eq!(d.parent_extensions, "png, jpg, jpeg, bmp");
    assert_eq!(d.child_extensions, "prt, bmp");
    let e = setup_dialog_from_settings(&Settings::default());
    assert_eq!(e.root, None);
    assert!(e.relevant_dirs.is_empty());
}

#[test]
fn source_paths_have_a_parent_extension() {
    let rules = ExtensionRules::default();
    assert!(is_source_path(&rules, "/downloads/Photo.JPG"));
    assert!(!is_source_path(&rules, "/downloads/job-0.prt"));
    assert!(!is_source_path(&rules, "/downloads/noext"));
}

#[test]
fn display_or_falls_back() {
    assert_eq!(display_or(&Some("/root".to_string()), "Not set"), "/root");
    assert_eq!(display_or(&None, "Not set"), "Not set");
}

#[test]
fn selecting_a_project_asks_for_its_files() {
    let mut st = UiState::new();
    let fx = st.update(Message::ProjectSelected(ProjectId(7)));
    assert_eq!(st.selected_project, Some(ProjectId(7)));
    assert!(matches!(fx.as_slice(), [Effect::Send(Command::ListFilesForProject { project_id: ProjectId(7) })]));
}

#[test]
fn a_scratch_name_is_trimmed_and_empty_names_are_dropped() {
    let mut st = UiState::new();
    st.update(Message::StartScratchProject);
    st.update(Message::ScratchNameChanged("  Coasters  ".to_string()));
    let fx = st.update(Message::ScratchSubmitted);
    assert!(st.scratch_dialog.is_none());
    match fx.as_slice() {
        [Effect::Send(Command::CreateProjectFromScratch { name })] => assert_eq!(name, "Coasters"),
        _ => panic!("expected a create command"),
    }
    st.update(Message::StartScratchProject);
    st.update(Message::ScratchNameChanged("   ".to_string()));
    assert!(st.update(Message::ScratchSubmitted).is_empty());
}

#[test]
fn submitting_the_setup_dialog_needs_a_root_and_a_relevant_directory() {
    let mut st = UiState::new();
    st.update(Message::OpenSetupDialog);
    assert!(st.update(Message::SetupSubmitted).is_empty());
    st.root_picked("/root".to_string());
    assert!(st.update(Message::SetupSubmitted).is_empty());
    st.relevant_dir_picked("/rip".to_string());
    st.relevant_dir_picked("/rip".to_string());
    assert_eq!(st.setup_dialog.as_ref().unwrap().relevant_dirs.len(), 1);
    st.update(Message::SetupParentExtensionsChanged("SVG, .png".to_string()));
    let fx = st.update(Message::SetupSubmitted);
    match fx.as_slice() {
        [Effect::Send(Command::SaveSettings { root_directory, relevant_directories, parent_extensions, child_extensions })] => {
            assert_eq!(root_directory, "/root");
            assert_eq!(relevant_directories, &vec!["/rip".to_string()]);
            assert_eq!(parent_extensions, &vec!["svg".to_string(), "png".to_string()]);
            assert_eq!(child_extensions, &vec!["prt".to_string(), "bmp".to_string()]);
        },
        _ => panic!("expected a save command"),
    }
    st.update(Message::SetupRelevantDirRemoved(5));
    assert_eq!(st.setup_dialog.as_ref().unwrap().relevant_dirs.len(), 1);
    st.update(Message::SetupRelevantDirRemoved(0));
    assert!(st.setup_dialog.as_ref().unwrap().relevant_dirs.is_empty());
}

#[test]
fn dropped_files_start_projects_only_when_they_are_images() {
    let mut st = UiState::new();
    let fx = st.update(Message::FilesDropped("/d/cat.png".to_string()));
    assert!(matches!(fx.as_slice(), [Effect::Send(Command::CreateProjectFromImage { .. })]));
    let fx = st.update(Message::FilesDropped("/d/notes.txt".to_string()));
    assert!(fx.is_empty());
    assert_eq!(st.status.as_deref(), Some("Dropped file isn't a recognized image: /d/notes.txt"));
    st.update(Message::StatusDismissed);
    assert_eq!(st.status, None);
}

#[test]
fn sync_now_asks_for_both_syncs() {
    let mut st = UiState::new();
    let fx = st.update(Message::SyncNowClicked);
    assert!(matches!(
        fx.as_slice(),
        [Effect::Send(Command::SyncRootDirectory), Effect::Send(Command::SyncRelevantDirectories)]
    ));
    assert!(st.update(Message::RescanProjectClicked).is_empty());
    assert!(st.update(Message::MoveAllMatchedClicked).is_empty());
}

#[test]
fn picking_images_lists_the_parent_extensions() {
    let mut st = UiState::new();
    st.update(Message::NewProjectMenuOpened);
    assert!(st.new_project_menu_open);
    let fx = st.update(Message::PickImageFromDownloads);
    assert!(!st.new_project_menu_open);
    match fx.as_slice() {
        [Effect::PickImage { extensions, from_downloads }] => {
            assert!(*from_downloads);
            assert_eq!(extensions, &vec!["png", "jpg", "jpeg", "bmp"]);
        },
        _ => panic!("expected a picker"),
    }
}

#[test]
fn configured_settings_close_the_setup_dialog() {
    let mut st = UiState::new();
    st.apply_event(UiEvent::Settings(Settings::default()));
    assert!(st.setup_dialog.is_some());
    st.apply_event(UiEvent::Settings(configured()));
    assert!(st.setup_dialog.is_none());
    assert_eq!(st.settings.root_directory.as_deref(), Some("/root"));
}

#[test]
fn reported_files_replace_the_previous_list() {
    let mut st = UiState::new();
    st.apply_event(UiEvent::FilesForProject { project_id: ProjectId(1), files: vec![] });
    st.apply_event(UiEvent::FilesForProject { project_id: ProjectId(2), files: vec![] });
    st.apply_event(UiEvent::FilesForProject { project_id: ProjectId(1), files: vec![] });
    assert_eq!(st.files_by_project.len(), 2);
    st.apply_event(UiEvent::Error("boom".to_string()));
    assert_eq!(st.status.as_deref(), Some("boom"));
}

#[test]
fn a_created_project_is_selected_and_listed_once() {
    let mut st = UiState::new();
    let p = Project {
        id: ProjectId(3),
        name: "x".to_string(),
        folder_path: "/r/x".to_string(),
        seed_filename: None,
        seed_basename: None,
        created_at: 0,
        archived: false,
    };
    st.apply_event(UiEvent::ProjectCreated(p.clone()));
    st.apply_event(UiEvent::ProjectCreated(p));
    assert_eq!(st.selected_project, Some(ProjectId(3)));
    assert_eq!(st.projects.len(), 1);
}

#[test]
fn failures_to_open_are_reported() {
    let mut st = UiState::new();
    st.open_failed("/a/b.png", "denied");
    assert_eq!(st.status.as_deref(), Some("Couldn't open /a/b.png: denied"));
    st.reveal_failed("/a/b.png", "no browser");
    assert_eq!(st.status.as_deref(), Some("Couldn't reveal /a/b.png: no browser"));
}

#[test]
fn thumbnail_cache_names_hold_hash_time_and_size() {
    assert_eq!(thumbnail_file_name(0xabc, 1_700_000_000, 42), "0000000000000abc_1700000000_42.png");
    assert_eq!(thumbnail_file_name(u64::MAX, -5, 0), "ffffffffffffffff_-5_0.png");
    let req = ThumbnailRequest { path: "/p/a.png".to_string(), modified_unix: 7, size_bytes: 9 };
    assert_eq!(thumbnail_cache_path("/cache", &req, 1, '/'), "/cache/0000000000000001_7_9.png");
}

#[test]
fn the_project_page_shows_dates_and_groups() {
    let mut st = UiState::new();
    assert!(matches!(st.project_page(), PageView::NothingSelected));
    st.update(Message::ProjectSelected(ProjectId(1)));
    assert!(matches!(st.project_page(), PageView::Unknown));
    st.apply_event(UiEvent::ProjectsList(vec![Project {
        id: ProjectId(1),
        name: "2024-03-01 Mug".to_string(),
        folder_path: "/r/2024-03-01 Mug".to_string(),
        seed_filename: None,
        seed_basename: None,
        created_at: 0,
        archived: false,
    }]));
    let day = 86_400_000_000i64;
    let file = |name: &str, source: FileSource, base: Option<&str>, created: i64, modified: i64| ProjectFileView {
        source,
        child_file_id: None,
        abs_path: format!("/x/{name}"),
        file_name: name.to_string(),
        ext: name.rsplit('.').next().unwrap().to_string(),
        size_bytes: 1,
        created_at: created,
        modified_at: modified,
        base_name: base.map(str::to_string),
    };
    st.apply_event(UiEvent::FilesForProject {
        project_id: ProjectId(1),
        files: vec![
            file("mug.jpg", FileSource::Home, Some("mug"), day, 0),
            file("mug-0.prt", FileSource::Child, Some("mug"), day, day + 5),
        ],
    });
    match st.project_page() {
        PageView::Project(page) => {
            assert_eq!(page.title, "Mug");
            assert_eq!(page.folder_path, "/r/2024-03-01 Mug");
            assert!(page.offers_move_all);
            assert_eq!(page.dates, vec![(1970, 1, 1), (1970, 1, 2)]);
            assert_eq!(page.groups.len(), 1);
            assert_eq!(page.groups[0].iterations.len(), 1);
            assert!(page.unassigned.is_empty());
            assert!(page.leftovers.is_empty());
        },
        _ => panic!("expected the project page"),
    }
}
