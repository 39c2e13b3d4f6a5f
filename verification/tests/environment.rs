//! Variables and path entries of packages.

use libscoop::env::{
    add, add_paths, env_path_name, installed_app_dir, join_paths, paths_equal, remove,
    remove_paths, safe_relative, EnvAction,
};
use libscoop::error::Error;
use libscoop::event::Event;
use libscoop::package::{Manifest, Package};
use libscoop::script::HookContext;
use libscoop::session::{Config, IsolatedPath, Platform, Session};

fn texts(list: &[&str]) -> Vec<String> {
    list.iter().map(|text| text.to_string()).collect()
}

fn session(no_junction: bool, isolated: Option<IsolatedPath>) -> Session {
    Session {
        config: Config {
            root_path: "C:\\scoop".to_string(),
            cache_path: "C:\\scoop\\cache".to_string(),
            path: "C:\\cfg.json".to_string(),
            no_junction,
            use_isolated_path: isolated,
        },
        platform: Platform::Windows,
    }
}

fn package(env_set: Option<Vec<(&str, &str)>>, env_add_path: Option<&[&str]>) -> Package {
    Package {
        name: "tool".to_string(),
        version: "1.2".to_string(),
        installed_version: Some("1.2".to_string()),
        manifest: Manifest {
            url: vec![],
            env_set: env_set.map(|list| {
                list.into_iter().map(|(key, value)| (key.to_string(), value.to_string())).collect()
            }),
            env_add_path: env_add_path.map(texts),
            persist: None,
            shortcuts: None,
            pre_install: None,
            post_install: None,
            pre_uninstall: None,
            post_uninstall: None,
        },
    }
}

fn context(session: &Session, package: &Package) -> HookContext {
    HookContext::new(session, package, "install", "64bit", "{}".to_string())
}

fn set(key: &str, value: &str) -> EnvAction {
    EnvAction::SetVar { key: key.to_string(), value: value.to_string() }
}

#[test]
fn environment_paths_must_be_relative() {
    assert!(safe_relative("bin").is_ok());
    assert!(safe_relative("tools\\bin").is_ok());
    assert!(safe_relative("..\\outside").is_err());
    assert!(safe_relative("C:\\outside").is_err());
}

#[test]
fn unsafe_environment_path_is_named() {
    assert_eq!(safe_relative("a\\b"), Ok("a\\b".to_string()));
    assert_eq!(
        safe_relative("\\x"),
        Err(Error::Custom("unsafe environment path '\\x'".to_string()))
    );
}

#[test]
fn path_variable_follows_the_configuration() {
    assert_eq!(env_path_name(&session(false, None)), "PATH");
    assert_eq!(env_path_name(&session(false, Some(IsolatedPath::Boolean(false)))), "PATH");
    assert_eq!(env_path_name(&session(false, Some(IsolatedPath::Boolean(true)))), "SCOOP_PATH");
    let named = Some(IsolatedPath::Named("MY_PATH".to_string()));
    assert_eq!(env_path_name(&session(false, named)), "MY_PATH");
}

#[test]
fn a_package_without_variables_changes_nothing() {
    let s = session(false, None);
    let p = package(None, None);
    assert_eq!(add(&s, &p, &context(&s, &p)), vec![]);
    assert_eq!(remove(&s, &p), vec![]);
}

#[test]
fn variables_are_set_with_their_values_expanded() {
    let s = session(false, None);
    let p = package(Some(vec![("HOME_OF_TOOL", "$dir\\home"), ("TOOL_VERSION", "$version")]), None);
    assert_eq!(
        add(&s, &p, &context(&s, &p)),
        vec![
            set("HOME_OF_TOOL", "C:\\scoop\\apps\\tool\\current\\home"),
            set("TOOL_VERSION", "1.2"),
            EnvAction::Broadcast,
        ]
    );
}

#[test]
fn variables_are_removed_between_events() {
    let s = session(false, None);
    let p = package(Some(vec![("A", "1"), ("B", "2")]), Some(&["bin"]));
    assert_eq!(
        remove(&s, &p),
        vec![
            EnvAction::Emit(Event::PackageEnvVarRemoveStart),
            EnvAction::UnsetVar { key: "A".to_string() },
            EnvAction::UnsetVar { key: "B".to_string() },
            EnvAction::Emit(Event::PackageEnvVarRemoveDone),
            EnvAction::ReadPath { name: "PATH".to_string() },
        ]
    );
    let p = package(Some(vec![]), None);
    assert_eq!(
        remove(&s, &p),
        vec![
            EnvAction::Emit(Event::PackageEnvVarRemoveStart),
            EnvAction::Emit(Event::PackageEnvVarRemoveDone),
            EnvAction::Broadcast,
        ]
    );
}

#[test]
fn directories_are_added_once_and_at_the_end() {
    let s = session(false, Some(IsolatedPath::Boolean(true)));
    let p = package(None, Some(&["bin", "BIN", "x/y", "."]));
    let c = context(&s, &p);
    assert_eq!(add(&s, &p, &c), vec![EnvAction::ReadPath { name: "SCOOP_PATH".to_string() }]);
    assert_eq!(
        add_paths(&s, &p, &c, texts(&["C:\\Windows"])),
        vec![
            set(
                "SCOOP_PATH",
                "C:\\Windows;C:\\scoop\\apps\\tool\\current\\bin;\
                 C:\\scoop\\apps\\tool\\current\\x\\y;C:\\scoop\\apps\\tool\\current",
            ),
            EnvAction::Broadcast,
        ]
    );
}

#[test]
fn added_directories_stay_below_the_application() {
    let s = session(false, None);
    let p = package(None, Some(&["a\\C:x", ".\\D:"]));
    assert_eq!(
        add_paths(&s, &p, &context(&s, &p), vec![]),
        vec![
            set(
                "PATH",
                "C:\\scoop\\apps\\tool\\current\\a\\C:x;C:\\scoop\\apps\\tool\\current\\D:",
            ),
            EnvAction::Broadcast,
        ]
    );
}

#[test]
fn adding_twice_is_adding_once() {
    let s = session(true, None);
    let p = package(None, Some(&["bin"]));
    let c = context(&s, &p);
    let listed = texts(&["C:\\Windows", "c:\\SCOOP\\apps\\tool\\1.2\\BIN"]);
    assert_eq!(
        add_paths(&s, &p, &c, listed),
        vec![set("PATH", "C:\\Windows;c:\\SCOOP\\apps\\tool\\1.2\\BIN"), EnvAction::Broadcast]
    );
}

#[test]
fn unsafe_directories_stop_the_step() {
    let s = session(false, None);
    let p = package(None, Some(&["bin", "..", "C:\\x"]));
    let c = context(&s, &p);
    let error = || Error::Custom("unsafe environment path '..'".to_string());
    assert_eq!(add_paths(&s, &p, &c, vec![]), vec![EnvAction::Fail(error())]);
    assert_eq!(
        remove_paths(&s, &p, vec![]),
        vec![
            EnvAction::Emit(Event::PackageEnvPathRemoveStart),
            EnvAction::Fail(error()),
        ]
    );
}

#[test]
fn removing_undoes_adding() {
    let s = session(true, None);
    let p = package(None, Some(&["bin", "tools"]));
    let before = texts(&["C:\\Windows", "D:\\x"]);
    let after = texts(&[
        "C:\\Windows",
        "D:\\x",
        "C:\\scoop\\apps\\tool\\1.2\\bin",
        "C:\\scoop\\apps\\tool\\1.2\\tools",
    ]);
    let c = context(&s, &p);
    assert_eq!(
        add_paths(&s, &p, &c, before),
        vec![set("PATH", &after.join(";")), EnvAction::Broadcast]
    );
    assert_eq!(
        remove_paths(&s, &p, after),
        vec![
            EnvAction::Emit(Event::PackageEnvPathRemoveStart),
            set("PATH", "C:\\Windows;D:\\x"),
            EnvAction::Emit(Event::PackageEnvPathRemoveDone),
            EnvAction::Broadcast,
        ]
    );
}

#[test]
fn installed_directory_follows_the_installed_version() {
    let mut p = package(None, None);
    p.installed_version = Some("1.1".to_string());
    assert_eq!(installed_app_dir(&session(true, None), &p), "C:\\scoop\\apps\\tool\\1.1");
    assert_eq!(installed_app_dir(&session(false, None), &p), "C:\\scoop\\apps\\tool\\current");
}

#[test]
fn path_values_quote_the_separator() {
    assert_eq!(join_paths(Platform::Windows, &texts(&[])), Ok("".to_string()));
    assert_eq!(join_paths(Platform::Windows, &texts(&["C:\\a", "C:\\b"])), Ok("C:\\a;C:\\b".to_string()));
    assert_eq!(join_paths(Platform::Windows, &texts(&["C:\\a;b", "c"])), Ok("\"C:\\a;b\";c".to_string()));
    let error = Error::Custom("path segment contains `\"`".to_string());
    assert_eq!(join_paths(Platform::Windows, &texts(&["ok", "a\"b"])), Err(error));
}

/// Reads the directories that a path value lists.
fn split(value: &str) -> Vec<String> {
    let mut dirs = vec![String::new()];
    let mut quoted = false;
    for c in value.chars() {
        if c == '"' {
            quoted = !quoted;
        } else if c == ';' && !quoted {
            dirs.push(String::new());
        } else {
            dirs.last_mut().unwrap().push(c);
        }
    }
    dirs
}

#[test]
fn path_values_read_back() {
    for list in [&["C:\\a"][..], &["a;b", "", "c"][..], &["", ";"][..], &[";;", "x y"][..]] {
        let paths = texts(list);
        assert_eq!(split(&join_paths(Platform::Windows, &paths).unwrap()), paths);
    }
}

#[test]
fn what_was_set_is_unset() {
    let s = session(false, None);
    let p = package(Some(vec![("A", "1"), ("B", "$dir")]), None);
    let set_keys: Vec<String> = add(&s, &p, &context(&s, &p))
        .into_iter()
        .filter_map(|action| match action {
            EnvAction::SetVar { key, .. } => Some(key),
            _ => None,
        })
        .collect();
    let unset_keys: Vec<String> = remove(&s, &p)
        .into_iter()
        .filter_map(|action| match action {
            EnvAction::UnsetVar { key } => Some(key),
            _ => None,
        })
        .collect();
    assert_eq!(set_keys, texts(&["A", "B"]));
    assert_eq!(unset_keys, set_keys);
}

#[test]
fn a_quote_on_the_path_stops_the_step() {
    let s = session(false, None);
    let p = package(None, Some(&["bin"]));
    let c = context(&s, &p);
    assert_eq!(
        add_paths(&s, &p, &c, texts(&["a\"b"])),
        vec![EnvAction::Fail(Error::Custom("path segment contains `\"`".to_string()))]
    );
}

#[test]
fn directories_are_compared_without_case() {
    assert!(paths_equal("C:\\A", "c:\\a"));
    assert!(!paths_equal("C:\\a", "C:\\a\\"));
}

#[test]
fn directories_on_unix_are_listed_with_colons() {
    assert_eq!(
        join_paths(Platform::Unix, &texts(&["/usr/bin", "/a;b\"c"])),
        Ok("/usr/bin:/a;b\"c".to_string())
    );
    let error = Error::Custom("path segment contains separator `:`".to_string());
    assert_eq!(join_paths(Platform::Unix, &texts(&["/ok", "/a:b"])), Err(error));
}

#[test]
fn directories_on_unix_are_joined_with_slashes() {
    let mut s = session(false, None);
    s.config.root_path = "/home/u/scoop".to_string();
    s.platform = Platform::Unix;
    let p = package(None, Some(&["bin/./x"]));
    let added = add_paths(&s, &p, &context(&s, &p), texts(&["/usr/bin"]));
    let dir = "/home/u/scoop/apps/tool/current/bin/x";
    assert_eq!(
        added[0],
        EnvAction::SetVar { key: "PATH".to_string(), value: format!("/usr/bin:{dir}") }
    );
    let existing = texts(&["/usr/bin", dir]);
    let removed = remove_paths(&s, &p, existing);
    assert!(removed.contains(&EnvAction::SetVar {
        key: "PATH".to_string(),
        value: "/usr/bin".to_string(),
    }));
}

#[test]
fn variables_hold_their_values_until_they_are_removed() {
    let s = session(false, None);
    let p = package(Some(vec![("A", "1"), ("B", "$version")]), None);
    let mut variables = vec![("OTHER".to_string(), "x".to_string())];
    for action in add(&s, &p, &context(&s, &p)) {
        if let EnvAction::SetVar { key, value } = action {
            variables.push((key, value));
        }
    }
    assert_eq!(
        variables[1..],
        [("A".to_string(), "1".to_string()), ("B".to_string(), "1.2".to_string())]
    );
    for action in remove(&s, &p) {
        if let EnvAction::UnsetVar { key } = action {
            variables.retain(|(name, _)| *name != key);
        }
    }
    assert_eq!(variables, vec![("OTHER".to_string(), "x".to_string())]);
}
