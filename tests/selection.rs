use dexopt_status::dump::Analyzer;
use dexopt_status::packages::{parse_package_list, AppType, Package};
use dexopt_status::select::select;

fn pkg(name: &str, path: &str) -> Package {
    Package { name: name.to_string(), path: path.to_string() }
}

fn names(ps: &[Package]) -> Vec<String> {
    ps.iter().map(|p| p.name.clone()).collect()
}

#[test]
fn name_filter_then_status_filter() {
    let packages = vec![pkg("com.android.chrome", "/a.apk"), pkg("com.example.app", "/b.apk")];
    let analyzer = Analyzer::new("[com.android.chrome]\n arm64: [status=speed-profile]\n[com.example.app]\n arm64: [status=verify]\n");
    let by_name = select(&packages, &analyzer, Some("chrome"), None).unwrap();
    assert_eq!(names(&by_name.displayed), vec!["com.android.chrome".to_string()]);
    assert_eq!(by_name.total_displayed, 1);
    let both = select(&packages, &analyzer, Some("chrome"), Some("verify")).unwrap();
    assert!(both.displayed.is_empty());
    assert_eq!(both.total_displayed, 0);
    assert!(both.counts.is_empty());
}

#[test]
fn counts_are_per_record_and_sorted() {
    let packages = vec![pkg("a", "/a.apk"), pkg("b", "/b.apk")];
    let analyzer = Analyzer::new("[a]\n arm64: [status=speed]\n arm: [status=speed]\n arm64: [status=verify]\n");
    let sel = select(&packages, &analyzer, None, None).unwrap();
    assert_eq!(names(&sel.displayed), vec!["a".to_string(), "b".to_string()]);
    assert_eq!(sel.total_displayed, 2);
    let counts: Vec<(String, usize)> = sel.counts.iter().map(|c| (c.status.clone(), c.count)).collect();
    assert_eq!(counts, vec![("speed".to_string(), 2), ("verify".to_string(), 1)]);
}

#[test]
fn counts_sum_over_displayed_packages() {
    let packages = vec![pkg("p", "/p"), pkg("q", "/q"), pkg("r", "/r")];
    let analyzer = Analyzer::new(
        "[q]\n arm: [status=verify]\n[p]\n arm64: [status=speed-profile]\n arm: [status=verify]\n[r]\n arm64: [status=error]\n",
    );
    let sel = select(&packages, &analyzer, None, Some("e")).unwrap();
    assert_eq!(names(&sel.displayed), vec!["p".to_string(), "q".to_string(), "r".to_string()]);
    let counts: Vec<(String, usize)> = sel.counts.iter().map(|c| (c.status.clone(), c.count)).collect();
    assert_eq!(
        counts,
        vec![("error".to_string(), 1), ("speed-profile".to_string(), 1), ("verify".to_string(), 2)]
    );
}

#[test]
fn status_filter_keeps_all_records_of_a_shown_package() {
    let packages = vec![pkg("a", "/a")];
    let analyzer = Analyzer::new("[a]\n arm64: [status=speed]\n arm: [status=verify]\n");
    let sel = select(&packages, &analyzer, None, Some("verify")).unwrap();
    assert_eq!(sel.total_displayed, 1);
    let counts: Vec<(String, usize)> = sel.counts.iter().map(|c| (c.status.clone(), c.count)).collect();
    assert_eq!(counts, vec![("speed".to_string(), 1), ("verify".to_string(), 1)]);
}

#[test]
fn package_without_records_is_shown_only_without_status_filter() {
    let packages = vec![pkg("a", "/a"), pkg("b", "/b")];
    let analyzer = Analyzer::new("[a]\n arm64: [status=speed]\n");
    let open = select(&packages, &analyzer, None, None).unwrap();
    assert_eq!(names(&open.displayed), vec!["a".to_string(), "b".to_string()]);
    let filtered = select(&packages, &analyzer, None, Some("speed")).unwrap();
    assert_eq!(names(&filtered.displayed), vec!["a".to_string()]);
    assert_eq!(filtered.displayed[0].path, "/a");
}

#[test]
fn name_filter_is_case_sensitive() {
    let packages = vec![pkg("com.Chrome", "/a"), pkg("com.chrome", "/b")];
    let analyzer = Analyzer::new("");
    let sel = select(&packages, &analyzer, Some("chrome"), None).unwrap();
    assert_eq!(names(&sel.displayed), vec!["com.chrome".to_string()]);
    assert!(sel.counts.is_empty());
}

#[test]
fn package_listing_is_parsed_and_sorted() {
    let raw = "package:/data/app/b/base.apk=com.b\n  package:/data/app/a=x/base.apk=com.a \nnoise\npackage:/no/equals\npackage:/c.apk=com.c\n";
    let list = parse_package_list(raw);
    assert_eq!(names(&list), vec!["com.a".to_string(), "com.b".to_string(), "com.c".to_string()]);
    assert_eq!(list[0].path, "/data/app/a=x/base.apk");
    assert_eq!(list[1].path, "/data/app/b/base.apk");
    assert_eq!(list[2].path, "/c.apk");
}

#[test]
fn empty_listing_gives_no_packages() {
    assert!(parse_package_list("").is_empty());
    assert!(parse_package_list("\n\n").is_empty());
}

#[test]
fn listing_flags_and_names() {
    assert_eq!(AppType::User.listing_flag(), "-3");
    assert_eq!(AppType::System.listing_flag(), "-s");
    assert_eq!(AppType::All.listing_flag(), "");
    assert_eq!(AppType::User.name(), "User");
    assert_eq!(AppType::System.name(), "System");
    assert_eq!(AppType::All.name(), "All");
}

#[test]
fn packages_of_the_same_name_keep_listing_order() {
    let raw = "package:/z.apk=com.b\npackage:/second.apk=com.a\npackage:/first.apk=com.a\npackage:/third.apk=com.a\n";
    let list = parse_package_list(raw);
    assert_eq!(names(&list), vec!["com.a".to_string(), "com.a".to_string(), "com.a".to_string(), "com.b".to_string()]);
    assert_eq!(list[0].path, "/second.apk");
    assert_eq!(list[1].path, "/first.apk");
    assert_eq!(list[2].path, "/third.apk");
}
