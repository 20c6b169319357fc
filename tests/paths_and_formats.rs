use settingsfile::error::Error;
use settingsfile::format::{join_path, with_extension};
use settingsfile::path::split_path;
use settingsfile::paths::check_if_a_path;
use settingsfile::{Dict, Format};

#[derive(Clone)]
struct Configuration {}

impl Format for Configuration {
    fn filename(&self) -> String {
        "settings".to_string()
    }
    fn folder(&self) -> String {
        "program_app_folder".to_string()
    }
    fn to_string(&self, _: &Dict) -> Result<String, Error> {
        Err(Error::unimplemented())
    }
    fn from_str(&self, _: &str) -> Result<Dict, Error> {
        Err(Error::unimplemented())
    }
}

#[derive(Clone)]
struct Configuration2 {}

impl Format for Configuration2 {
    fn filename(&self) -> String {
        "settings".to_string()
    }
    fn folder(&self) -> String {
        "program_app_folder".to_string()
    }
    fn extension(&self) -> Option<String> {
        Some("toml".to_string())
    }
    fn local_filename(&self) -> Option<String> {
        Some(".app".to_string())
    }
    fn local_extension(&self) -> Option<String> {
        Some("conf".to_string())
    }
    fn to_string(&self, _: &Dict) -> Result<String, Error> {
        Err(Error::unimplemented())
    }
    fn from_str(&self, _: &str) -> Result<Dict, Error> {
        Err(Error::unimplemented())
    }
}

#[test]
fn basic_load_config1() {
    let test = Configuration {};
    assert_eq!(test.get_filename(), "settings");
}

#[test]
fn basic_load_config2() {
    let test = Configuration2 {};
    assert_eq!(test.get_filename(), "settings.toml");
}

#[test]
fn local_file_names() {
    assert_eq!(Configuration {}.get_local_filename(), None);
    assert_eq!(Configuration2 {}.get_local_filename(), Some(".app.conf".to_string()));
    assert_eq!(Configuration {}.get_local_path_and_filename("/work"), "/work/settings");
    assert_eq!(Configuration2 {}.get_local_path_and_filename("/work/"), "/work/.app.conf");
}

#[test]
fn global_paths_end_with_folder_and_file() {
    let path = Configuration2 {}.get_path_and_file();
    assert!(path.is_empty() || path.ends_with("program_app_folder/settings.toml"));
    let folder = Configuration2 {}.get_path();
    assert!(folder.is_empty() || folder.ends_with("program_app_folder"));
}

#[test]
fn joining_paths_and_extensions() {
    assert_eq!(join_path("/home/u", "dir/file"), "/home/u/dir/file");
    assert_eq!(join_path("/home/u/", "file"), "/home/u/file");
    assert_eq!(join_path("", "file"), "file");
    assert_eq!(join_path("/home/u", "/abs"), "/abs");
    assert_eq!(with_extension(&"a".to_string(), &Some("b".to_string())), "a.b");
    assert_eq!(with_extension(&"a".to_string(), &None), "a");
}

#[test]
fn splitting_key_paths() {
    assert_eq!(split_path("a.b.c"), vec!["a".to_string(), "b".to_string(), "c".to_string()]);
    assert_eq!(split_path("single"), vec!["single".to_string()]);
    assert_eq!(split_path(""), vec!["".to_string()]);
    assert_eq!(split_path("a..b"), vec!["a".to_string(), "".to_string(), "b".to_string()]);
    assert_eq!(split_path(".x."), vec!["".to_string(), "x".to_string(), "".to_string()]);
}

#[test]
fn telling_paths_from_names() {
    assert!(check_if_a_path("a/b"));
    assert!(check_if_a_path("c:\\x"));
    assert!(!check_if_a_path("settings.toml"));
    assert!(!check_if_a_path(""));
}

#[test]
fn error_constructors() {
    assert!(matches!(Error::unimplemented(), Error::Error(m) if m == "unimplemented"));
    assert!(matches!(Error::wrap("disk full"), Error::Error(m) if m == "disk full"));
}
