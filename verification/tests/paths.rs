use matr_project_file_manager::naming::{
    base_name_of, extension, file_stem, join_name, unique_destination, unique_project_folder, with_date_prefix,
};

#[test]
fn date_prefix_is_yyyy_mm_dd_and_leaves_seed_name_untouched() {
    let prefixed = with_date_prefix("photo");
    let today = chrono::Local::now().date_naive().format("%Y-%m-%d").to_string();
    assert_eq!(prefixed, format!("{today} photo"));

    assert_eq!(base_name_of("photo"), "photo");
}

#[test]
fn stems_and_extensions_follow_the_last_dot() {
    assert_eq!(file_stem("photo.jpg").as_deref(), Some("photo"));
    assert_eq!(extension("photo.jpg").as_deref(), Some("jpg"));
    assert_eq!(file_stem("archive.tar.gz").as_deref(), Some("archive.tar"));
    assert_eq!(extension("archive.tar.gz").as_deref(), Some("gz"));
    assert_eq!(file_stem(".hidden").as_deref(), Some(".hidden"));
    assert_eq!(extension(".hidden"), None);
    assert_eq!(file_stem("noext").as_deref(), Some("noext"));
    assert_eq!(extension("noext"), None);
    assert_eq!(file_stem("trailing.").as_deref(), Some("trailing"));
    assert_eq!(extension("trailing.").as_deref(), Some(""));
    assert_eq!(file_stem(".."), None);
}

#[test]
fn joining_adds_one_separator() {
    assert_eq!(join_name("/root", "a", '/'), "/root/a");
    assert_eq!(join_name("/root/", "a", '/'), "/root/a");
    assert_eq!(join_name("", "a", '/'), "a");
    assert_eq!(join_name("C:\\root", "a", '\\'), "C:\\root\\a");
}

#[test]
fn project_folder_skips_taken_names() {
    let taken = vec!["/root/My Project".to_string(), "/root/My Project (2)".to_string()];
    assert_eq!(unique_project_folder("/root", "My Project", '/', &taken), "/root/My Project (3)");
    assert_eq!(unique_project_folder("/root", "Other", '/', &taken), "/root/Other");
    assert_eq!(unique_project_folder("/root", "a:b", '/', &vec![]), "/root/a_b");
}

#[test]
fn destination_numbers_before_the_extension() {
    let existing = vec!["/p/photo-0.prt".to_string()];
    assert_eq!(unique_destination("/p", "photo-0.prt", '/', &existing), "/p/photo-0 (2).prt");
    let more = vec!["/p/notes".to_string(), "/p/notes (2)".to_string()];
    assert_eq!(unique_destination("/p", "notes", '/', &more), "/p/notes (3)");
    assert_eq!(unique_destination("/p", "free.jpg", '/', &existing), "/p/free.jpg");
}
