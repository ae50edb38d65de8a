use dexopt_status::label::{accept_declared_label, clean_label, is_spurious_label, label_from_badging};

#[test]
fn identifier_like_label_is_rejected() {
    assert!(is_spurious_label("org.chromium.browser.Activity", "org.chromium.browser"));
    assert_eq!(accept_declared_label("org.chromium.browser.Activity", "org.chromium.browser"), None);
}

#[test]
fn label_with_space_is_accepted() {
    assert!(!is_spurious_label("Chrome Browser", "org.chromium.browser"));
    assert_eq!(
        accept_declared_label("Chrome Browser", "org.chromium.browser"),
        Some("Chrome Browser".to_string())
    );
}

#[test]
fn label_equal_to_package_name_is_kept() {
    assert!(!is_spurious_label("com.example.app", "com.example.app"));
    assert_eq!(accept_declared_label("com.example.app", "com.example.app"), Some("com.example.app".to_string()));
}

#[test]
fn label_without_dot_or_with_other_chars_is_kept() {
    assert!(!is_spurious_label("Chrome", "org.chromium.browser"));
    assert!(!is_spurious_label("Mail.app!", "com.mail"));
    assert!(is_spurious_label("res_1.label_2", "com.mail"));
}

#[test]
fn cleaning_trims_and_replaces_line_breaks() {
    assert_eq!(clean_label("  My\r\nApp \n"), "My  App");
    assert_eq!(clean_label("\t"), "");
}

#[test]
fn empty_declared_label_gives_nothing() {
    assert_eq!(accept_declared_label("  \n ", "com.example"), None);
    assert_eq!(accept_declared_label("", "com.example"), None);
}

#[test]
fn declared_label_is_cleaned() {
    assert_eq!(accept_declared_label("\n Two\nLines ", "com.example"), Some("Two Lines".to_string()));
}

#[test]
fn badging_label_is_read_up_to_the_closing_glyph() {
    let out = "package: name='com.example'\n  application-label:'Example App\u{2018} rest\napplication-label:'Other\u{2018}\n";
    assert_eq!(label_from_badging(out), Some("Example App".to_string()));
}

#[test]
fn badging_line_without_closing_glyph_is_skipped() {
    let out = "application-label:'Broken'\napplication-label:'Fine\u{2018}\n";
    assert_eq!(label_from_badging(out), Some("Fine".to_string()));
    assert_eq!(label_from_badging("application-label:'Broken'\n"), None);
    assert_eq!(label_from_badging(""), None);
    assert_eq!(label_from_badging("sdkVersion:'21'\n"), None);
}

#[test]
fn non_ascii_letters_count_as_alphanumeric() {
    assert!(is_spurious_label("\u{e9}t\u{e9}.app", "com.example"));
    assert!(!is_spurious_label("a\u{b7}b.c", "com.example"));
}
