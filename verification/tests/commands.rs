use rs_dotfiles::commands::clean::{self, CleanAction, CleanState};
use rs_dotfiles::commands::link::{execute, link_targets, LinkAction, LinkState};
use rs_dotfiles::commands::list::sorted_links;
use rs_dotfiles::error::DotfilesError;
use rs_dotfiles::mappings::{create_link, LinkStep, Mappings};

fn pair(a: &str, b: &str) -> (String, String) {
    (a.to_string(), b.to_string())
}

fn sample_maps() -> Mappings {
    let mut m = Mappings::new();
    m.insert("config1.conf".to_string(), vec!["/d/d1.conf".to_string()]);
    m.insert("config2.conf".to_string(), vec!["/d/d2.conf".to_string(), "/d/d2b.conf".to_string()]);
    m
}

#[test]
fn link_all_targets_in_table_order() {
    let t = link_targets("/repo", &sample_maps(), &vec![]);
    assert_eq!(
        t,
        vec![
            pair("/repo/config1.conf", "/d/d1.conf"),
            pair("/repo/config2.conf", "/d/d2.conf"),
            pair("/repo/config2.conf", "/d/d2b.conf"),
        ]
    );
}

#[test]
fn link_only_specified_files() {
    let t = link_targets("/repo", &sample_maps(), &vec!["config1.conf".to_string(), "missing".to_string()]);
    assert_eq!(t, vec![pair("/repo/config1.conf", "/d/d1.conf")]);
}

#[test]
fn link_run_succeeds_when_something_linked() {
    let maps = sample_maps();
    let mut st = LinkState::new("/repo", &maps, &vec![]);
    let mut seen = Vec::new();
    let mut report = None;
    loop {
        match execute(&mut st, report) {
            LinkAction::Link { from, to } => {
                seen.push((from, to.clone()));
                report = Some(to == "/d/d2.conf");
            },
            LinkAction::Finish(r) => {
                assert!(r.is_ok());
                break;
            },
        }
    }
    assert_eq!(seen.len(), 3);
}

#[test]
fn link_run_fails_when_nothing_linked() {
    let maps = sample_maps();
    let mut st = LinkState::new("/repo", &maps, &vec![]);
    let mut report = None;
    let mut steps = 0;
    loop {
        match execute(&mut st, report) {
            LinkAction::Link { .. } => {
                steps += 1;
                report = Some(false);
            },
            LinkAction::Finish(r) => {
                match r {
                    Err(DotfilesError::NothingLinked(repo)) => assert_eq!(repo, "/repo"),
                    _ => panic!("expected NothingLinked"),
                }
                break;
            },
        }
    }
    assert_eq!(steps, 3);
}

#[test]
fn link_run_with_no_mappings_fails_at_once() {
    let maps = Mappings::new();
    let mut st = LinkState::new("/repo", &maps, &vec!["not_in_mappings.conf".to_string()]);
    assert!(matches!(execute(&mut st, None), LinkAction::Finish(Err(DotfilesError::NothingLinked(_)))));
}

#[test]
fn link_run_repeats_a_due_link() {
    let maps = sample_maps();
    let mut st = LinkState::new("/repo", &maps, &vec![]);
    let first = match execute(&mut st, None) {
        LinkAction::Link { from, to } => (from, to),
        _ => panic!("expected a link"),
    };
    let again = match execute(&mut st, None) {
        LinkAction::Link { from, to } => (from, to),
        _ => panic!("expected a link"),
    };
    assert_eq!(first, again);
}

#[test]
fn list_sorts_by_source_and_drops_repeats() {
    let links = vec![
        pair("/r/b", "/d/1"),
        pair("/r/a", "/d/2"),
        pair("/r/b", "/d/0"),
        pair("/r//a", "/d/2"),
        pair("/r/a/", "/d/3"),
    ];
    assert_eq!(
        sorted_links(&links),
        vec![pair("/r/a", "/d/2"), pair("/r/a/", "/d/3"), pair("/r/b", "/d/1"), pair("/r/b", "/d/0")]
    );
}

#[test]
fn list_orders_paths_by_components() {
    let links = vec![pair("/a-b", "/x"), pair("/a/b", "/y"), pair("a", "/z"), pair("/a", "/w")];
    assert_eq!(
        sorted_links(&links),
        vec![pair("/a", "/w"), pair("/a/b", "/y"), pair("/a-b", "/x"), pair("a", "/z")]
    );
}

/// Runs the link command over `maps` against a simulated file system: the
/// sources in `sources` exist, and `existing` holds the destinations present.
/// Returns the steps taken and whether the run succeeded.
fn simulated_run(maps: &Mappings, sources: &[&str], existing: &mut Vec<String>) -> (Vec<LinkStep>, bool) {
    let mut st = LinkState::new("/repo", maps, &vec![]);
    let mut steps = Vec::new();
    let mut report = None;
    loop {
        match execute(&mut st, report) {
            LinkAction::Link { from, to } => {
                let from_exists = sources.contains(&from.as_str());
                let to_exists = existing.contains(&to);
                let step = create_link(from_exists, to_exists, false, false);
                if matches!(step, LinkStep::Create { .. }) {
                    existing.push(to);
                }
                report = Some(step.linked());
                steps.push(step);
            },
            LinkAction::Finish(r) => return (steps, r.is_ok()),
        }
    }
}

#[test]
fn link_twice_changes_nothing_the_second_time() {
    let maps = sample_maps();
    let sources = ["/repo/config2.conf"];
    let mut existing = vec!["/d/d2b.conf".to_string()];
    let (first, first_ok) = simulated_run(&maps, &sources, &mut existing);
    assert!(matches!(first[0], LinkStep::SourceMissing));
    assert!(matches!(first[1], LinkStep::Create { dir: false }));
    assert!(matches!(first[2], LinkStep::AlreadyExists));
    let after_first = existing.clone();
    let (second, second_ok) = simulated_run(&maps, &sources, &mut existing);
    assert_eq!(existing, after_first);
    assert!(matches!(second[0], LinkStep::SourceMissing));
    assert!(matches!(second[1], LinkStep::AlreadyExists));
    assert!(matches!(second[2], LinkStep::AlreadyExists));
    let linked = |v: &Vec<LinkStep>| v.iter().map(|s| s.linked()).collect::<Vec<bool>>();
    assert_eq!(linked(&first), linked(&second));
    assert!(first_ok && second_ok);
}

/// Runs the clean command over `maps`, where `links` tells what the symlink at
/// each destination points to. Returns the removals asked for and the outcome.
fn clean_run(maps: &Mappings, links: &[(&str, &str)]) -> (Vec<(String, String)>, bool) {
    let mut st = CleanState::new("/repo", maps);
    let mut removals = Vec::new();
    let mut report = None;
    loop {
        match clean::execute(&mut st, report.take()) {
            CleanAction::Inspect { to } => {
                let source = links.iter().find(|(t, _)| *t == to).map(|(_, s)| s.to_string());
                report = Some(source);
            },
            CleanAction::Remove { source, to } => removals.push((source, to)),
            CleanAction::Finish { removed } => return (removals, removed),
        }
    }
}

#[test]
fn clean_removes_only_links_into_the_repository() {
    let links = [("/d/d1.conf", "/repo/config1.conf"), ("/d/d2.conf", "/elsewhere/config2.conf")];
    let (removals, removed) = clean_run(&sample_maps(), &links);
    assert_eq!(removals, vec![pair("/repo/config1.conf", "/d/d1.conf")]);
    assert!(removed);
}

#[test]
fn clean_with_nothing_to_remove_says_so() {
    let links = [("/d/d2b.conf", "/repository/config2.conf")];
    let (removals, removed) = clean_run(&sample_maps(), &links);
    assert!(removals.is_empty());
    assert!(!removed);
}

#[test]
fn clean_repeats_a_due_destination() {
    let maps = sample_maps();
    let mut st = CleanState::new("/repo", &maps);
    let first = clean::execute(&mut st, None);
    assert!(matches!(&first, CleanAction::Inspect { to } if to == "/d/d1.conf"));
    let again = clean::execute(&mut st, None);
    assert!(matches!(&again, CleanAction::Inspect { to } if to == "/d/d1.conf"));
    let next = clean::execute(&mut st, Some(Some("/repo/sub/config1.conf".to_string())));
    assert!(matches!(&next, CleanAction::Remove { source, to } if source == "/repo/sub/config1.conf" && to == "/d/d1.conf"));
    let after = clean::execute(&mut st, None);
    assert!(matches!(&after, CleanAction::Inspect { to } if to == "/d/d2.conf"));
}
