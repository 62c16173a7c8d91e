use rs_dotfiles::error::DotfilesError;
use rs_dotfiles::mappings::{
    all_destinations, create_link, get_default_mappings, get_link_source, get_mappings_with_home, is_unix_like,
    mapping_file_names, merge_file_to_mappings, merge_json_to_mappings, merge_with_home, LinkStep, MappingValue,
    Mappings,
};
use tempfile::{tempdir, NamedTempFile};

#[test]
fn test_get_default_mappings() {
    let defaults = get_default_mappings();
    assert!(defaults.contains_key("unixlike"));
    assert!(
        defaults.contains_key("darwin") || defaults.contains_key("linux") || defaults.contains_key("windows")
    );
}

#[test]
fn test_merge_json_to_mappings_single() {
    let mut mappings = Mappings::new();
    let mut src = Mappings::new();
    src.insert(".vimrc".to_string(), vec!["~/.vimrc".to_string()]);
    merge_json_to_mappings(&mut mappings, &src).unwrap();
    assert_eq!(mappings.get(".vimrc").unwrap().len(), 1);
}

#[test]
fn test_merge_json_to_mappings_multiple() {
    let mut mappings = Mappings::new();
    let mut src = Mappings::new();
    src.insert(
        "bashrc".to_string(),
        vec!["~/.bashrc".to_string(), "~/.bash_profile".to_string()],
    );
    merge_json_to_mappings(&mut mappings, &src).unwrap();
    assert_eq!(mappings.get("bashrc").unwrap().len(), 2);
}

#[test]
fn test_merge_json_to_mappings_invalid() {
    let mut mappings = Mappings::new();
    let mut src = Mappings::new();
    src.insert("invalid".to_string(), vec!["not_absolute".to_string()]);
    let result = merge_json_to_mappings(&mut mappings, &src);
    assert!(result.is_err());
}

#[test]
fn test_create_link_source_not_exist() {
    let root = tempdir().unwrap();
    let from = root.path().join("source");
    let to = root.path().join("dest");
    let step = create_link(from.exists(), to.exists(), from.is_dir(), false);
    assert!(!step.linked()); // False means skipped because source not exists
    assert!(matches!(step, LinkStep::SourceMissing));
    // The step makes no link, so the destination stays absent.
    assert!(!matches!(step, LinkStep::Create { .. }));
    assert!(!to.exists());
}

#[test]
fn test_create_link_already_exists() {
    let root = tempdir().unwrap();
    let source = NamedTempFile::new_in(root.path()).unwrap();
    let dest = NamedTempFile::new_in(root.path()).unwrap();
    let from = source.path();
    let to = dest.path();
    let step = create_link(from.exists(), to.exists(), from.is_dir(), false);
    assert!(step.linked()); // True means skipped but success (already exists)
    assert!(matches!(step, LinkStep::AlreadyExists));
    assert!(to.is_file()); // It's still a file, not a link
}

#[test]
fn create_link_makes_file_and_dir_links() {
    assert!(matches!(create_link(true, false, false, false), LinkStep::Create { dir: false }));
    assert!(matches!(create_link(true, false, true, false), LinkStep::Create { dir: true }));
    assert!(create_link(true, false, true, false).linked());
}

#[test]
fn create_link_dry_run_only_shows() {
    let step = create_link(true, false, false, true);
    assert!(matches!(step, LinkStep::Preview));
    assert!(step.linked());
    assert!(matches!(create_link(true, true, false, false), LinkStep::AlreadyExists));
}

#[test]
fn merge_expands_with_given_home() {
    let mut m = Mappings::new();
    let mut src = Mappings::new();
    src.insert(
        "bashrc".to_string(),
        vec!["~/.bashrc".to_string(), "".to_string(), "/etc/bashrc".to_string(), "~".to_string()],
    );
    merge_with_home(&mut m, &src, Some("/home/u")).unwrap();
    assert_eq!(
        m.get("bashrc").unwrap(),
        &vec!["/home/u/.bashrc".to_string(), "/etc/bashrc".to_string(), "/home/u".to_string()]
    );
}

#[test]
fn merge_overrides_only_configured_keys() {
    let mut m = Mappings::new();
    m.insert("a".to_string(), vec!["/x".to_string()]);
    m.insert("b".to_string(), vec!["/y".to_string()]);
    let mut src = Mappings::new();
    src.insert("b".to_string(), vec!["/z".to_string()]);
    src.insert("c".to_string(), vec!["/w".to_string()]);
    merge_with_home(&mut m, &src, Some("/home/u")).unwrap();
    assert_eq!(m.get("a").unwrap(), &vec!["/x".to_string()]);
    assert_eq!(m.get("b").unwrap(), &vec!["/z".to_string()]);
    assert_eq!(m.get("c").unwrap(), &vec!["/w".to_string()]);
    assert_eq!(m.len(), 3);
}

#[test]
fn merge_rejects_empty_key() {
    let mut m = Mappings::new();
    let mut src = Mappings::new();
    src.insert("".to_string(), vec!["/x".to_string()]);
    let r = merge_with_home(&mut m, &src, Some("/home/u"));
    assert!(matches!(r, Err(DotfilesError::EmptyKey)));
}

#[test]
fn merge_rejects_relative_path() {
    let mut m = Mappings::new();
    let mut src = Mappings::new();
    src.insert("k".to_string(), vec!["relative/path".to_string()]);
    let r = merge_with_home(&mut m, &src, Some("/home/u"));
    match r {
        Err(DotfilesError::NotAbsolutePath(p)) => assert_eq!(p, "relative/path"),
        _ => panic!("expected NotAbsolutePath"),
    }
}

#[test]
fn merge_needs_home_for_tilde() {
    let mut m = Mappings::new();
    let mut src = Mappings::new();
    src.insert("k".to_string(), vec!["~/.k".to_string()]);
    let r = merge_with_home(&mut m, &src, None);
    assert!(matches!(r, Err(DotfilesError::NoHomeDirectory)));
    let mut src2 = Mappings::new();
    src2.insert("k".to_string(), vec!["/abs".to_string()]);
    assert!(merge_with_home(&mut m, &src2, None).is_ok());
}

#[test]
fn merge_file_takes_single_and_multiple_values() {
    let mut m = Mappings::new();
    let json = vec![
        ("vimrc".to_string(), MappingValue::Single("~/.vimrc".to_string())),
        (
            "bashrc".to_string(),
            MappingValue::Multiple(vec!["~/.bashrc".to_string(), "~/.bash_profile".to_string()]),
        ),
    ];
    merge_file_to_mappings(&mut m, &json, Some("/h")).unwrap();
    assert_eq!(m.get("vimrc").unwrap(), &vec!["/h/.vimrc".to_string()]);
    assert_eq!(m.get("bashrc").unwrap(), &vec!["/h/.bashrc".to_string(), "/h/.bash_profile".to_string()]);
}

#[test]
fn unix_like_platforms() {
    assert!(is_unix_like("linux"));
    assert!(is_unix_like("darwin"));
    assert!(!is_unix_like("windows"));
    assert!(!is_unix_like("unixlike"));
}

#[test]
fn mapping_file_names_per_platform() {
    assert_eq!(
        mapping_file_names("linux"),
        vec!["mappings.json".to_string(), "mappings_unixlike.json".to_string(), "mappings_linux.json".to_string()]
    );
    assert_eq!(
        mapping_file_names("windows"),
        vec!["mappings.json".to_string(), "mappings_windows.json".to_string()]
    );
}

#[test]
fn defaults_alone_on_linux() {
    let files = vec![None, None, None];
    let m = get_mappings_with_home("linux", &files, Some("/home/u")).unwrap();
    assert_eq!(m.get(".vimrc").unwrap(), &vec!["/home/u/.vimrc".to_string()]);
    assert_eq!(m.get("rc.lua").unwrap(), &vec!["/home/u/.config/rc.lua".to_string()]);
    assert!(m.get(".htoprc").is_none());
    assert_eq!(m.len(), 49);
}

#[test]
fn defaults_on_windows() {
    let files = vec![None, None];
    let m = get_mappings_with_home("windows", &files, Some("/home/u")).unwrap();
    assert_eq!(m.get(".vimrc").unwrap(), &vec!["/home/u/vimfiles/vimrc".to_string()]);
    assert_eq!(m.len(), 3);
}

#[test]
fn defaults_without_home_fail() {
    let files = vec![None, None, None];
    assert!(matches!(
        get_mappings_with_home("darwin", &files, None),
        Err(DotfilesError::NoHomeDirectory)
    ));
    let unknown = vec![None, None];
    assert_eq!(get_mappings_with_home("unknown", &unknown, None).unwrap().len(), 0);
}

#[test]
fn later_files_override_earlier_ones() {
    let files = vec![
        Some(vec![("vimrc".to_string(), MappingValue::Single("/a".to_string()))]),
        None,
        Some(vec![("vimrc".to_string(), MappingValue::Single("/b".to_string()))]),
    ];
    let m = get_mappings_with_home("linux", &files, Some("/h")).unwrap();
    assert_eq!(m.get("vimrc").unwrap(), &vec!["/b".to_string()]);
    assert_eq!(m.get(".vimrc").unwrap(), &vec!["/h/.vimrc".to_string()]);
}

#[test]
fn bad_file_fails_the_whole_lookup() {
    let files = vec![Some(vec![("x".to_string(), MappingValue::Single("rel".to_string()))]), None, None];
    assert!(matches!(
        get_mappings_with_home("linux", &files, Some("/h")),
        Err(DotfilesError::NotAbsolutePath(_))
    ));
}

#[test]
fn link_source_must_lie_in_repo() {
    assert_eq!(get_link_source("/repo", Some("/repo/vimrc".to_string())), Some("/repo/vimrc".to_string()));
    assert_eq!(get_link_source("/repo", Some("/repo2/vimrc".to_string())), None);
    assert_eq!(get_link_source("/repo/", Some("/repo//a".to_string())), Some("/repo//a".to_string()));
    assert_eq!(get_link_source("/repo", None), None);
}

#[test]
fn destinations_in_table_order() {
    let mut m = Mappings::new();
    m.insert("a".to_string(), vec!["/x".to_string(), "/y".to_string()]);
    m.insert("b".to_string(), vec!["/z".to_string()]);
    assert_eq!(all_destinations(&m), vec!["/x".to_string(), "/y".to_string(), "/z".to_string()]);
}

#[test]
fn merging_twice_changes_nothing_more() {
    let mut m = Mappings::new();
    m.insert("a".to_string(), vec!["/x".to_string()]);
    let mut src = Mappings::new();
    src.insert("b".to_string(), vec!["~/.b".to_string(), "".to_string()]);
    merge_with_home(&mut m, &src, Some("/h")).unwrap();
    let once = all_destinations(&m);
    merge_with_home(&mut m, &src, Some("/h")).unwrap();
    assert_eq!(all_destinations(&m), once);
    assert_eq!(m.len(), 2);
}

#[test]
fn parsed_file_merges_like_direct_table() {
    let json = vec![
        ("vimrc".to_string(), MappingValue::Single("/v".to_string())),
        ("zshrc".to_string(), MappingValue::Multiple(vec!["/z1".to_string(), "/z2".to_string()])),
    ];
    let mut from_file = Mappings::new();
    merge_file_to_mappings(&mut from_file, &json, None).unwrap();
    let mut src = Mappings::new();
    src.insert("vimrc".to_string(), vec!["/v".to_string()]);
    src.insert("zshrc".to_string(), vec!["/z1".to_string(), "/z2".to_string()]);
    let mut direct = Mappings::new();
    merge_with_home(&mut direct, &src, None).unwrap();
    assert_eq!(all_destinations(&from_file), all_destinations(&direct));
    assert_eq!(from_file.get("zshrc"), direct.get("zshrc"));
}

#[test]
fn merge_without_tilde_needs_no_home() {
    let mut m = Mappings::new();
    let mut src = Mappings::new();
    src.insert("k".to_string(), vec!["/abs".to_string()]);
    merge_json_to_mappings(&mut m, &src).unwrap();
    assert_eq!(m.get("k").unwrap(), &vec!["/abs".to_string()]);
}

#[test]
fn unknown_platform_without_files_is_empty() {
    let files = vec![None, None];
    assert_eq!(rs_dotfiles::mappings::get_mappings("unknown", &files).unwrap().len(), 0);
}
