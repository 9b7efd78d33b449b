use app_launcher::command::{launch_words, sanitize_command, LaunchError};

#[test]
fn sanitize_drops_upper_url_placeholder() {
    assert_eq!(sanitize_command("vlc %U --fullscreen"), "vlc --fullscreen");
}

#[test]
fn sanitize_drops_every_field_code() {
    let cmd = "app %u %U %f %F %d %D %n %N %i %c %k --keep";
    assert_eq!(sanitize_command(cmd), "app --keep");
}

#[test]
fn sanitize_drops_words_holding_a_placeholder() {
    assert_eq!(sanitize_command("gimp --file=%f -x"), "gimp -x");
}

#[test]
fn sanitize_keeps_order_and_other_percents() {
    assert_eq!(sanitize_command("a %z b %% c 50%"), "a %z b %% c 50%");
}

#[test]
fn sanitize_collapses_whitespace() {
    assert_eq!(sanitize_command("  a \t b\n\nc\u{3000}d  "), "a b c d");
}

#[test]
fn sanitize_is_idempotent_on_example() {
    let once = sanitize_command("env  FOO=1 prog %F  -v");
    assert_eq!(once, "env FOO=1 prog -v");
    assert_eq!(sanitize_command(&once), once);
}

#[test]
fn sanitize_only_placeholders_is_empty() {
    assert_eq!(sanitize_command("%u %F"), "");
    assert_eq!(sanitize_command(""), "");
}

#[test]
fn launch_words_splits_program_and_arguments() {
    let words = launch_words("firefox  --new-window").unwrap();
    assert_eq!(words, vec!["firefox".to_string(), "--new-window".to_string()]);
    let stored = sanitize_command("vlc %U --fullscreen");
    assert_eq!(launch_words(&stored).unwrap(), vec!["vlc".to_string(), "--fullscreen".to_string()]);
}

#[test]
fn launch_words_empty_command() {
    assert_eq!(launch_words("").unwrap_err(), LaunchError::EmptyCommand);
    assert_eq!(launch_words("   ").unwrap_err(), LaunchError::EmptyCommand);
}
