use morg::config::{config_dir_in, config_path_in, expand_tilde, join_path, Config};

#[test]
fn test_default_config() {
    let cfg = Config::default();
    assert!(cfg.root.ends_with(".morg"));
    assert!(cfg.diary.directory.is_none());
    assert!(cfg.diary.template.is_none());
    assert_eq!(cfg.diary.today_file, "today.md");
    assert_eq!(cfg.diary.archive_pattern, "{year}/{month}");
    assert_eq!(cfg.diary.archive_filename, "{day}.md");
    assert!(cfg.diary.carry_todos);
}

#[test]
fn test_diary_dir_defaults_to_root_diary() {
    let cfg = Config::default();
    let diary_dir = cfg.diary_dir();
    assert!(diary_dir.ends_with(".morg/diary"));
}

#[test]
fn test_diary_dir_uses_configured_value() {
    let mut cfg = Config::default();
    cfg.diary.directory = Some("/custom/diary".to_string());
    assert_eq!(cfg.diary_dir(), "/custom/diary".to_string());
}

#[test]
fn test_diary_template_defaults() {
    let cfg = Config::default();
    let tmpl = cfg.diary_template();
    assert!(tmpl.contains("daily_note.template"));
}

#[test]
fn test_diary_today_path() {
    let cfg = Config::default();
    let today = cfg.diary_today();
    assert!(today.ends_with("today.md"));
}

#[test]
fn join_path_relative_and_absolute() {
    assert_eq!(join_path("/home/u", "notes"), "/home/u/notes");
    assert_eq!(join_path("/home/u/", "notes"), "/home/u/notes");
    assert_eq!(join_path("/home/u", "/etc/x"), "/etc/x");
    assert_eq!(join_path("", "x"), "x");
}

#[test]
fn expand_tilde_cases() {
    assert_eq!(expand_tilde("~/notes", Some("/home/u")), "/home/u/notes");
    assert_eq!(expand_tilde("~", Some("/home/u")), "/home/u");
    assert_eq!(expand_tilde("/abs/~/x", Some("/home/u")), "/abs/~/x");
    assert_eq!(expand_tilde("~/notes", None), "~/notes");
}

#[test]
fn resolve_tildes_expands_every_path() {
    let mut cfg = Config::default();
    cfg.root = "~/morg".to_string();
    cfg.diary.directory = Some("~/diary".to_string());
    cfg.diary.template = None;
    cfg.capture.templates_file = Some("~/cap.yaml".to_string());
    cfg.resolve_tildes_with(Some("/home/u"));
    assert_eq!(cfg.root, "/home/u/morg");
    assert_eq!(cfg.diary.directory.as_deref(), Some("/home/u/diary"));
    assert!(cfg.diary.template.is_none());
    assert_eq!(cfg.capture.templates_file.as_deref(), Some("/home/u/cap.yaml"));
}

#[test]
fn diary_paths_follow_configured_directory() {
    let mut cfg = Config::default();
    cfg.diary.directory = Some("/d".to_string());
    assert_eq!(cfg.diary_template(), "/d/daily_note.template");
    assert_eq!(cfg.diary_today(), "/d/today.md");
}

#[test]
fn test_expand_tilde() {
    let home = dirs::home_dir().unwrap();
    let home_text = home.to_string_lossy().into_owned();
    let expanded = morg::config::expand_tilde("~/foo/bar", Some(home_text.as_str()));
    assert_eq!(expanded, home.join("foo/bar").to_string_lossy().into_owned());

    let absolute = morg::config::expand_tilde("/tmp/test", Some(home_text.as_str()));
    assert_eq!(absolute, "/tmp/test");
}

#[test]
fn config_paths_from_platform_directory() {
    assert_eq!(config_dir_in(Some("/home/u/.config")), "/home/u/.config/morg");
    assert_eq!(config_dir_in(None), "~/.config/morg");
    assert_eq!(config_path_in(Some("/home/u/.config/")), "/home/u/.config/morg/config.toml");
    assert_eq!(config_path_in(None), "~/.config/morg/config.toml");
}
