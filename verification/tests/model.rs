use matr_project_file_manager::model::{ExtensionRules, FileKind, Settings};

#[test]
fn file_kinds_follow_the_extension_in_any_case() {
    assert_eq!(FileKind::from_ext("PNG"), FileKind::Image);
    assert_eq!(FileKind::from_ext("jpeg"), FileKind::Image);
    assert_eq!(FileKind::from_ext("svg"), FileKind::Vector);
    assert_eq!(FileKind::from_ext("prt"), FileKind::RipJob);
    assert_eq!(FileKind::from_ext("NC"), FileKind::Toolpath);
    assert_eq!(FileKind::from_ext("gcode"), FileKind::Toolpath);
    assert_eq!(FileKind::from_ext("txt"), FileKind::Other);
    assert_eq!(FileKind::from_ext(""), FileKind::Other);
    assert!(FileKind::from_ext("bmp").is_image());
    assert!(!FileKind::from_ext("prt").is_image());
}

#[test]
fn default_rules_make_bmp_ambiguous_and_prt_child_only() {
    let rules = ExtensionRules::default();
    assert!(rules.is_parent("JPG"));
    assert!(!rules.is_parent("prt"));
    assert!(rules.is_child("bmp"));
    assert!(rules.is_child("PRT"));
    assert!(rules.is_child_only("prt"));
    assert!(!rules.is_child_only("bmp"));
    assert!(!rules.is_child_only("txt"));
}

#[test]
fn settings_are_configured_with_a_root_and_a_relevant_directory() {
    let mut s = Settings::default();
    assert!(!s.is_configured());
    s.root_directory = Some("/root".to_string());
    assert!(!s.is_configured());
    s.relevant_directories.push("/rip".to_string());
    assert!(s.is_configured());
}
