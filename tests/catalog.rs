use app_launcher::catalog::{collect_applications, filter_apps, matches_folded, matches_query};
use app_launcher::entry::AppInfo;

fn app(name: &str) -> AppInfo {
    AppInfo { name: name.to_string(), command: name.to_lowercase(), icon: None }
}

#[test]
fn no_descriptors_give_empty_list() {
    let apps = collect_applications(&Vec::new(), &Vec::new());
    assert!(apps.is_empty());
}

#[test]
fn collect_keeps_valid_in_order() {
    let texts = vec![
        "Name=B\nExec=b %U".to_string(),
        "Exec=orphan".to_string(),
        "Name=A\nExec=a\nIcon=a-icon".to_string(),
    ];
    let apps = collect_applications(&texts, &Vec::new());
    assert_eq!(apps.len(), 2);
    assert_eq!(apps[0].name, "B");
    assert_eq!(apps[0].command, "b");
    assert_eq!(apps[1].name, "A");
    assert_eq!(apps[1].icon, Some("a-icon".to_string()));
}

#[test]
fn matches_folded_exact() {
    assert!(matches_folded("firefox", "fox"));
    assert!(matches_folded("firefox", ""));
    assert!(!matches_folded("firefox", "Fox"));
    assert!(!matches_folded("fox", "firefox"));
}

#[test]
fn matches_query_ignores_case() {
    assert!(matches_query("Firefox", "FIRE"));
    assert!(matches_query("Firefox", ""));
    assert!(!matches_query("Firefox", "chrome"));
}

#[test]
fn filter_apps_keeps_matching_in_order() {
    let items = vec![app("Firefox"), app("Files"), app("Terminal")];
    let shown = filter_apps(&items, "fi");
    let names: Vec<String> = shown.iter().map(|a| a.name.clone()).collect();
    assert_eq!(names, vec!["Firefox".to_string(), "Files".to_string()]);
    assert_eq!(filter_apps(&items, "").len(), 3);
    assert!(filter_apps(&items, "zzz").is_empty());
}
