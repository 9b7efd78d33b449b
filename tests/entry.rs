use app_launcher::entry::{parse_desktop_entry, ParseError};

fn no_locales() -> Vec<String> {
    Vec::new()
}

#[test]
fn parses_firefox_descriptor() {
    let app = parse_desktop_entry("Name=Firefox\nExec=firefox %u\nIcon=firefox", &no_locales())
        .unwrap();
    assert_eq!(app.name, "Firefox");
    assert_eq!(app.command, "firefox");
    assert_eq!(app.icon, Some("firefox".to_string()));
}

#[test]
fn rejects_missing_name() {
    assert_eq!(parse_desktop_entry("Exec=foo\n", &no_locales()).unwrap_err(), ParseError::MissingField);
}

#[test]
fn rejects_missing_exec() {
    let r = parse_desktop_entry("[Desktop Entry]\nName=Foo\nIcon=foo\n", &no_locales());
    assert_eq!(r.unwrap_err(), ParseError::MissingField);
}

#[test]
fn rejects_empty_name_and_placeholder_only_exec() {
    assert!(parse_desktop_entry("Name=\nExec=foo", &no_locales()).is_err());
    assert!(parse_desktop_entry("Name=Foo\nExec=%F", &no_locales()).is_err());
}

#[test]
fn ignores_comments_and_malformed_lines() {
    let text = "# Name=Commented\n[Desktop Entry]\ngarbage line\nName = Editor \r\nExec= edit %f\n";
    let app = parse_desktop_entry(text, &no_locales()).unwrap();
    assert_eq!(app.name, "Editor");
    assert_eq!(app.command, "edit");
    assert_eq!(app.icon, None);
}

#[test]
fn commented_name_alone_is_missing() {
    assert!(parse_desktop_entry("#Name=Foo\nExec=foo", &no_locales()).is_err());
}

#[test]
fn prefers_localized_name_in_order() {
    let text = "Name=Files\nName[de]=Dateien\nName[fr]=Fichiers\nExec=nautilus";
    let locales = vec!["es".to_string(), "fr".to_string(), "de".to_string()];
    assert_eq!(parse_desktop_entry(text, &locales).unwrap().name, "Fichiers");
    let none_match = vec!["ja".to_string()];
    assert_eq!(parse_desktop_entry(text, &none_match).unwrap().name, "Files");
}

#[test]
fn localized_name_without_bare_name_is_rejected() {
    let text = "Name[de]=Dateien\nExec=nautilus";
    assert_eq!(
        parse_desktop_entry(text, &vec!["de".to_string()]).unwrap_err(),
        ParseError::MissingField
    );
    assert!(parse_desktop_entry(text, &no_locales()).is_err());
    assert!(parse_desktop_entry("Name[a]=b\nExec=c", &vec!["a_b".to_string()]).is_err());
}

#[test]
fn values_are_unescaped() {
    let app = parse_desktop_entry("Name=My\\sApp\nExec=run\nIcon=my\\sicon\\\\x", &no_locales())
        .unwrap();
    assert_eq!(app.name, "My App");
    assert_eq!(app.icon, Some("my icon\\x".to_string()));
}

#[test]
fn bad_escape_line_is_skipped() {
    let app = parse_desktop_entry("Name=A\nExec=a\nIcon=bad\\q\nIcon=good", &no_locales())
        .unwrap();
    assert_eq!(app.icon, Some("good".to_string()));
}

#[test]
fn other_group_ends_the_entry() {
    let text = "[Desktop Entry]\nName=Foo\n[Desktop Action new]\nExec=foo --new";
    assert_eq!(parse_desktop_entry(text, &no_locales()).unwrap_err(), ParseError::MissingField);
}

#[test]
fn first_occurrence_of_a_key_wins() {
    let text = "Name=Main\nExec=main\n[Desktop Action new]\nName=Other\nExec=other --new";
    let app = parse_desktop_entry(text, &no_locales()).unwrap();
    assert_eq!(app.name, "Main");
    assert_eq!(app.command, "main");
}

#[test]
fn empty_icon_is_kept() {
    let app = parse_desktop_entry("Name=A\nExec=a\nIcon=", &no_locales()).unwrap();
    assert_eq!(app.icon, Some(String::new()));
}

#[test]
fn locale_falls_back_to_language() {
    let text = "Name=Files\nName[de]=Dateien\nName[pt_BR]=Arquivos\nExec=nautilus";
    let de = vec!["de_DE.UTF-8".to_string()];
    assert_eq!(parse_desktop_entry(text, &de).unwrap().name, "Dateien");
    let pt = vec!["pt_BR".to_string(), "de_DE".to_string()];
    assert_eq!(parse_desktop_entry(text, &pt).unwrap().name, "Arquivos");
    let fr = vec!["fr_FR".to_string()];
    assert_eq!(parse_desktop_entry(text, &fr).unwrap().name, "Files");
}
