use matr_project_file_manager::naming::{sanitize_filename, strip_date_prefix};

#[test]
fn strips_leading_date() {
    assert_eq!(strip_date_prefix("2026-07-13-My Project"), "My Project");
    assert_eq!(strip_date_prefix("2026-07-13 My Project"), "My Project");
    assert_eq!(strip_date_prefix("2026-07-13"), "");
}

#[test]
fn leaves_non_date_names_untouched() {
    assert_eq!(strip_date_prefix("My Project"), "My Project");
    assert_eq!(strip_date_prefix("2026-7-13-My Project"), "2026-7-13-My Project");
}

#[test]
fn strips_a_whole_run_of_dashes_and_spaces_after_the_date() {
    assert_eq!(strip_date_prefix("2026-07-13 - -  x"), "x");
    assert_eq!(strip_date_prefix("2026-07-13\tTabbed"), "Tabbed");
    assert_eq!(strip_date_prefix("2026-07-13\u{3000}wide"), "wide");
}

#[test]
fn date_must_lead_and_be_fully_numeric() {
    assert_eq!(strip_date_prefix(" 2026-07-13 x"), " 2026-07-13 x");
    assert_eq!(strip_date_prefix("2026/07/13 x"), "2026/07/13 x");
    assert_eq!(strip_date_prefix("2026-07-1x y"), "2026-07-1x y");
    assert_eq!(strip_date_prefix("2026-07-13x"), "x");
    assert_eq!(strip_date_prefix(""), "");
}

#[test]
fn sanitize_replaces_reserved_characters() {
    assert_eq!(sanitize_filename("a<b>c:d\"e/f\\g|h?i*j"), "a_b_c_d_e_f_g_h_i_j");
    assert_eq!(sanitize_filename("tab\there"), "tab_here");
}

#[test]
fn sanitize_trims_trailing_dots_and_spaces() {
    assert_eq!(sanitize_filename("name. . "), "name");
    assert_eq!(sanitize_filename(" lead"), " lead");
}

#[test]
fn sanitize_never_gives_an_empty_name() {
    assert_eq!(sanitize_filename(""), "untitled");
    assert_eq!(sanitize_filename(". ."), "untitled");
}

#[test]
fn sanitize_keeps_safe_names() {
    assert_eq!(sanitize_filename("2026-07-13 My Project"), "2026-07-13 My Project");
    assert_eq!(sanitize_filename("émile"), "émile");
}

#[test]
fn any_unicode_decimal_digits_form_a_date() {
    assert_eq!(strip_date_prefix("٢٠٢٦-٠٧-١٣ مشروع"), "مشروع");
    assert_eq!(strip_date_prefix("２０２６-０７-１３ wide"), "wide");
    assert_eq!(strip_date_prefix("2026-07-1Ⅸ x"), "2026-07-1Ⅸ x");
}
