use rsenv::errors::Error;
use rsenv::names::{file_name_to_env_name, get_envs_list, name_to_path};
use rsenv::store::{edit_env, init_dirs, install_env, load_env, remove_env};

#[test]
fn name_to_path_appends_suffix_under_base() {
    assert_eq!(name_to_path("/home/u/.rsenv", "dev"), "/home/u/.rsenv/dev.env");
}

#[test]
fn file_name_round_trips_through_path_base_name() {
    let path = name_to_path("/base", "staging");
    let base_name = path.rsplit('/').next().unwrap();
    assert_eq!(file_name_to_env_name(base_name), Some("staging".to_string()));
}

#[test]
fn file_name_without_suffix_is_no_environment() {
    assert_eq!(file_name_to_env_name("b.txt"), None);
    assert_eq!(file_name_to_env_name("env"), None);
    assert_eq!(file_name_to_env_name(""), None);
}

#[test]
fn file_name_suffix_is_stripped_once() {
    assert_eq!(file_name_to_env_name("x.env"), Some("x".to_string()));
    assert_eq!(file_name_to_env_name("x.env.env"), Some("x.env".to_string()));
    assert_eq!(file_name_to_env_name(".env"), Some("".to_string()));
}

#[test]
fn listing_excludes_files_without_suffix() {
    let files = vec!["a.env".to_string(), "b.txt".to_string(), "c.env".to_string()];
    let names = get_envs_list(&files);
    assert_eq!(names, vec!["a".to_string(), "c".to_string()]);
}

#[test]
fn listing_of_empty_directory_is_empty() {
    let names = get_envs_list(&Vec::new());
    assert!(names.is_empty());
}

#[test]
fn init_dirs_resolves_under_home() {
    assert_eq!(init_dirs(Some("/home/u")).unwrap(), "/home/u/.rsenv");
}

#[test]
fn init_dirs_without_home_is_unavailable() {
    assert_eq!(init_dirs(None).unwrap_err(), Error::DirectoryUnavailable);
    assert_eq!(init_dirs(Some("")).unwrap_err(), Error::DirectoryUnavailable);
}

#[test]
fn install_copies_to_destination_path() {
    let dest = install_env("/base", "x", true).unwrap();
    assert_eq!(dest, "/base/x.env");
}

#[test]
fn install_without_source_fails() {
    assert_eq!(install_env("/base", "x", false).unwrap_err(), Error::SourceNotFound);
}

#[test]
fn remove_of_missing_environment_fails() {
    assert_eq!(remove_env("/base", "x", false).unwrap_err(), Error::EnvironmentNotFound);
    assert_eq!(remove_env("/base", "x", true).unwrap(), "/base/x.env");
}

#[test]
fn edit_of_missing_environment_fails() {
    assert_eq!(edit_env("/base", "x", false).unwrap_err(), Error::EnvironmentNotFound);
    assert_eq!(edit_env("/base", "x", true).unwrap(), "/base/x.env");
}

#[test]
fn load_after_remove_reports_environment_not_found() {
    // Once `x` is removed its file is gone, so a load observes no contents.
    assert_eq!(load_env(None).unwrap_err(), Error::EnvironmentNotFound);
}

#[test]
fn install_then_load_yields_the_installed_variables() {
    let installed = "FOO=bar\nBAZ=qux";
    let env = load_env(Some(installed)).unwrap();
    assert_eq!(env.vars.len(), 2);
    assert_eq!(env.vars[0].0, "FOO");
    assert_eq!(env.vars[0].1, "bar");
    assert_eq!(env.vars[1].0, "BAZ");
    assert_eq!(env.vars[1].1, "qux");
}

#[test]
fn load_of_malformed_contents_is_a_decode_error() {
    assert_eq!(load_env(Some("not a pair")).unwrap_err(), Error::DecodeError);
}

#[test]
fn error_messages_name_the_failure() {
    assert_eq!(Error::DirectoryUnavailable.message(), "config directory unavailable");
    assert_eq!(Error::SourceNotFound.message(), "source file not found");
    assert_eq!(Error::EnvironmentNotFound.message(), "environment not found");
    assert_eq!(Error::DecodeError.message(), "environment file is malformed");
    assert_eq!(Error::ProgramNotFound.message(), "program not found");
    assert_eq!(Error::SpawnFailed.message(), "failed to spawn process");
}
