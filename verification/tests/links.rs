//! Persistent data of packages.

use libscoop::error::Error;
use libscoop::package::{Manifest, Package};
use libscoop::persist::{
    link, link_actions, remove_path, safe_relative, unlink, LinkAction, LinkPaths, Removal,
};
use libscoop::session::{Config, Platform, Session};

fn session(no_junction: bool) -> Session {
    Session {
        config: Config {
            root_path: "C:\\scoop".to_string(),
            cache_path: "C:\\scoop\\cache".to_string(),
            path: "C:\\cfg.json".to_string(),
            no_junction,
            use_isolated_path: None,
        },
        platform: Platform::Windows,
    }
}

fn package(persist: Option<&[&[&str]]>) -> Package {
    Package {
        name: "tool".to_string(),
        version: "2.0".to_string(),
        installed_version: Some("2.0".to_string()),
        manifest: Manifest {
            url: vec![],
            env_set: None,
            env_add_path: None,
            persist: persist.map(|list| {
                list.iter().map(|d| d.iter().map(|text| text.to_string()).collect()).collect()
            }),
            shortcuts: None,
            pre_install: None,
            post_install: None,
            pre_uninstall: None,
            post_uninstall: None,
        },
    }
}

fn paths(source: &str, target: &str) -> LinkPaths {
    LinkPaths { source: source.to_string(), target: target.to_string() }
}

#[test]
fn nothing_to_persist_plans_nothing() {
    let plan = link(&session(false), &package(None));
    assert_eq!(plan.links, vec![]);
    assert_eq!(plan.error, None);
    assert!(unlink(&session(false), &package(None)).is_empty());
}

#[test]
fn definitions_become_links() {
    let p = package(Some(&[&["data"], &[], &["conf\\a.ini", "settings.ini"]]));
    let plan = link(&session(false), &p);
    assert_eq!(
        plan.links,
        vec![
            paths("C:\\scoop\\apps\\tool\\current\\data", "C:\\scoop\\persist\\tool\\data"),
            paths(
                "C:\\scoop\\apps\\tool\\current\\conf\\a.ini",
                "C:\\scoop\\persist\\tool\\settings.ini",
            ),
        ]
    );
    assert_eq!(plan.error, None);
}

#[test]
fn links_before_an_unsafe_definition_are_made() {
    let p = package(Some(&[&["data"], &["ok", "..\\x"], &["later"]]));
    let plan = link(&session(true), &p);
    assert_eq!(
        plan.links,
        vec![paths("C:\\scoop\\apps\\tool\\2.0\\data", "C:\\scoop\\persist\\tool\\data")]
    );
    assert_eq!(
        plan.error,
        Some(Error::Custom("unsafe persistent path '..\\x'".to_string()))
    );
}

#[test]
fn persistent_paths_must_be_relative() {
    assert_eq!(safe_relative(Platform::Windows, "a"), Ok("a".to_string()));
    assert_eq!(
        safe_relative(Platform::Windows, "C:\\a"),
        Err(Error::Custom("unsafe persistent path 'C:\\a'".to_string()))
    );
}

fn finish() -> Vec<LinkAction> {
    vec![
        LinkAction::EnsureDirIfMissing { path: "P:\\kept\\d".to_string() },
        LinkAction::EnsureParent { parent: Some("C:\\app".to_string()) },
        LinkAction::Symlink { target: "P:\\kept\\d".to_string(), link: "C:\\app\\d".to_string() },
    ]
}

#[test]
fn kept_data_replaces_what_the_application_brought() {
    let l = paths("C:\\app\\d", "P:\\kept\\d");
    let mut expected = vec![LinkAction::Remove { path: "C:\\app\\d".to_string() }];
    expected.extend(finish());
    assert_eq!(link_actions(Platform::Windows, &l, true, true), expected);
}

#[test]
fn data_of_the_application_is_kept() {
    let l = paths("C:\\app\\d", "P:\\kept\\d");
    let mut expected = vec![
        LinkAction::EnsureParent { parent: Some("P:\\kept".to_string()) },
        LinkAction::Rename { from: "C:\\app\\d".to_string(), to: "P:\\kept\\d".to_string() },
    ];
    expected.extend(finish());
    assert_eq!(link_actions(Platform::Windows, &l, true, false), expected);
}

#[test]
fn missing_data_is_only_linked() {
    let l = paths("C:\\app\\d", "P:\\kept\\d");
    assert_eq!(link_actions(Platform::Windows, &l, false, false), finish());
    assert_eq!(link_actions(Platform::Windows, &l, false, true), finish());
}

#[test]
fn links_are_removed_as_links() {
    assert_eq!(remove_path(true, true), Removal::Symlink);
    assert_eq!(remove_path(true, false), Removal::Symlink);
    assert_eq!(remove_path(false, true), Removal::Dir);
    assert_eq!(remove_path(false, false), Removal::File);
}

#[test]
fn linking_again_only_renews_the_link() {
    let l = paths("C:\\app\\d", "P:\\kept\\d");
    let again = link_actions(Platform::Windows, &l, true, true);
    assert_eq!(again[0], LinkAction::Remove { path: "C:\\app\\d".to_string() });
    assert_eq!(remove_path(true, true), Removal::Symlink);
    assert_eq!(&again[1..], &finish()[..]);
}

#[test]
fn unlinking_stops_in_front_of_a_nameless_definition() {
    let p = package(Some(&[&["data"], &[], &["later"]]));
    assert_eq!(
        unlink(&session(false), &p),
        vec!["C:\\scoop\\apps\\tool\\current\\data".to_string()]
    );
}

#[test]
fn unlinking_undoes_linking() {
    for no_junction in [false, true] {
        let p = package(Some(&[&["data"], &["a/.\\b", "c"]]));
        let s = session(no_junction);
        let made: Vec<String> = link(&s, &p)
            .links
            .iter()
            .map(|l| libscoop::internal::path::normalize_path(Platform::Windows, &l.source))
            .collect();
        assert_eq!(unlink(&s, &p), made);
    }
    let p = package(Some(&[&["a/.\\b"]]));
    assert_eq!(unlink(&session(true), &p), vec!["C:\\scoop\\apps\\tool\\2.0\\a\\b".to_string()]);
}

#[test]
fn links_on_unix_are_joined_with_slashes() {
    let mut s = session(false);
    s.config.root_path = "/home/u/scoop".to_string();
    s.platform = Platform::Unix;
    let p = package(Some(&[&["conf/./a.ini", "a\\b"]]));
    let source = "/home/u/scoop/apps/tool/current/conf/./a.ini";
    let plan = link(&s, &p);
    assert_eq!(plan.links, vec![paths(source, "/home/u/scoop/persist/tool/a\\b")]);
    assert_eq!(unlink(&s, &p), vec!["/home/u/scoop/apps/tool/current/conf/a.ini".to_string()]);
    assert_eq!(
        link_actions(Platform::Unix, &plan.links[0], true, false)[0],
        LinkAction::EnsureParent { parent: Some("/home/u/scoop/persist/tool".to_string()) }
    );
}
