use matr_project_file_manager::naming::{base_name_of, join_date_prefix, sanitize_filename, strip_date_prefix};

#[test]
fn sanitizing_twice_is_sanitizing_once() {
    for name in ["a<b>", "x. . ", "", "plain", "tab\tname.", "é:ü"] {
        let once = sanitize_filename(name);
        assert_eq!(sanitize_filename(&once), once);
        assert!(!once.is_empty());
        assert!(!once.ends_with('.') && !once.ends_with(' '));
    }
}

#[test]
fn stripping_undoes_the_date_prefix() {
    for name in ["photo", "My Project", "2026 plan", ""] {
        let dated = join_date_prefix("2026-07-13", name);
        assert_eq!(strip_date_prefix(&dated), name);
    }
}

#[test]
fn a_numbered_output_shares_the_base_name_of_its_source() {
    for (stem, n) in [("Photo", 0u32), ("IMG 4672 copy", 12), ("a-b", 3)] {
        let out = format!("{stem}-{n}");
        assert_eq!(base_name_of(&out), base_name_of(stem));
    }
}

#[test]
fn a_source_ending_in_dash_digits_does_not_share_with_its_output() {
    assert_eq!(base_name_of("photo-2"), "photo");
    assert_eq!(base_name_of("photo-2-0"), "photo-2");
}
