use rs_dotfiles::error::DotfilesError;
use rs_dotfiles::repository::repo_path;
use rs_dotfiles::util::{expand_tilde, expand_tilde_with_home};
use std::path::Path;

#[test]
fn test_expand_tilde_no_tilde() {
    let path = "/usr/bin/git";
    assert_eq!(expand_tilde(path).unwrap(), path.to_string());
}

#[test]
fn test_expand_tilde_with_home() {
    let path = "~/.vimrc";
    let expanded = expand_tilde(path).unwrap();
    assert!(Path::new(&expanded).is_absolute());
    assert!(expanded.ends_with(".vimrc"));
    assert!(!expanded.contains('~'));
}

#[test]
fn test_expand_tilde_only_tilde() {
    let expanded = expand_tilde("~").unwrap();
    assert!(Path::new(&expanded).is_absolute());
}

#[test]
fn expand_with_home_cases() {
    assert_eq!(expand_tilde_with_home("~", Some("/h")).unwrap(), "/h");
    assert_eq!(expand_tilde_with_home("~/a/b", Some("/h")).unwrap(), "/h/a/b");
    assert_eq!(expand_tilde_with_home("~/a", Some("/h/")).unwrap(), "/h/a");
    assert_eq!(expand_tilde_with_home("~//etc", Some("/h")).unwrap(), "/etc");
    assert_eq!(expand_tilde_with_home("~/", Some("/h")).unwrap(), "/h/");
    assert_eq!(expand_tilde_with_home("~user/x", Some("/h")).unwrap(), "~user/x");
    assert_eq!(expand_tilde_with_home("/abs", None).unwrap(), "/abs");
    assert!(matches!(expand_tilde_with_home("~/x", None), Err(DotfilesError::NoHomeDirectory)));
}

#[test]
fn repo_path_defaults_to_current_dir() {
    assert_eq!(repo_path(None).unwrap(), ".");
    assert_eq!(repo_path(Some("/dots".to_string())).unwrap(), "/dots");
    let home_based = repo_path(Some("~/dots".to_string())).unwrap();
    assert!(home_based.ends_with("/dots"));
    assert!(!home_based.starts_with('~'));
}
