//! Start menu entries of packages.

use libscoop::error::Error;
use libscoop::event::Event;
use libscoop::package::{Manifest, Package};
use libscoop::script::{HookContext, Script};
use libscoop::session::{Config, Platform, Session};
use libscoop::shortcut::{
    add, remove, safe_relative, shortcut_dir, shortcut_dir_for, shortcut_dir_in, shortcut_relative, HostDir,
    ShortcutAction, CREATE_SHORTCUT_SCRIPT,
};

fn package(shortcuts: Option<&[&[&str]]>) -> Package {
    Package {
        name: "tool".to_string(),
        version: "1.0".to_string(),
        installed_version: Some("1.0".to_string()),
        manifest: Manifest {
            url: vec![],
            env_set: None,
            env_add_path: None,
            persist: None,
            shortcuts: shortcuts.map(|list| {
                list.iter().map(|d| d.iter().map(|text| text.to_string()).collect()).collect()
            }),
            pre_install: None,
            post_install: None,
            pre_uninstall: None,
            post_uninstall: None,
        },
    }
}

fn session() -> Session {
    Session {
        config: Config {
            root_path: "C:\\scoop".to_string(),
            cache_path: "C:\\scoop\\cache".to_string(),
            path: "C:\\cfg.json".to_string(),
            no_junction: false,
            use_isolated_path: None,
        },
        platform: Platform::Windows,
    }
}

fn context(package: &Package) -> HookContext {
    HookContext::new(&session(), package, "install", "64bit", "{}".to_string())
}

fn custom(message: &str) -> Error {
    Error::Custom(message.to_string())
}

fn is_event(action: &ShortcutAction, expected: &Event) -> bool {
    match action {
        ShortcutAction::Emit(event) => event == expected,
        _ => false,
    }
}

fn is_failure(action: &ShortcutAction, expected: &Error) -> bool {
    match action {
        ShortcutAction::Fail(error) => error == expected,
        _ => false,
    }
}

fn required(action: &ShortcutAction) -> (&str, &Error) {
    match action {
        ShortcutAction::RequireFile { path, error } => (path, error),
        _ => panic!("no check"),
    }
}

fn script(action: &ShortcutAction) -> &Script {
    match action {
        ShortcutAction::Run(script) => script,
        _ => panic!("no script"),
    }
}

#[test]
fn shortcut_extension_is_appended() {
    assert_eq!(
        shortcut_relative(Platform::Windows, "Tools\\App.Name").unwrap(),
        "Tools\\App.Name.lnk"
    );
}

#[test]
fn shortcut_path_cannot_escape_start_menu() {
    assert!(shortcut_relative(Platform::Windows, "..\\Outside").is_err());
    assert!(shortcut_relative(Platform::Windows, "C:\\Outside").is_err());
}

#[test]
fn shortcut_names_that_read_as_drives_are_refused() {
    for name in ["Tools\\C:x", ".\\C:x", "a/b/D:"] {
        assert_eq!(
            shortcut_relative(Platform::Windows, name),
            Err(custom(&format!("unsafe shortcut path '{name}'")))
        );
    }
    assert_eq!(shortcut_relative(Platform::Windows, "C:x\\y"), Err(custom("unsafe shortcut path 'C:x\\y'")));
    assert_eq!(shortcut_relative(Platform::Windows, "Tools\\1:x"), Ok("Tools\\1:x.lnk".to_string()));
}

#[test]
fn shortcut_names() {
    assert_eq!(shortcut_relative(Platform::Windows, "App"), Ok("App.lnk".to_string()));
    assert_eq!(shortcut_relative(Platform::Windows, "a/b/App/"), Ok("a/b\\App.lnk".to_string()));
    assert_eq!(shortcut_relative(Platform::Windows, ".\\App"), Ok(".\\App.lnk".to_string()));
    assert_eq!(shortcut_relative(Platform::Windows, ""), Err(custom("unsafe shortcut path ''")));
    assert_eq!(shortcut_relative(Platform::Windows, "\\App"), Err(custom("unsafe shortcut path '\\App'")));
    assert_eq!(shortcut_relative(Platform::Windows, "."), Err(custom("shortcut name cannot be empty")));
    assert_eq!(safe_relative("x"), Ok("x".to_string()));
    assert_eq!(safe_relative("C:x"), Err(custom("unsafe shortcut path 'C:x'")));
}

#[test]
fn directory_of_entries() {
    let tail = "Microsoft\\Windows\\Start Menu\\Programs\\Scoop Apps";
    assert_eq!(
        shortcut_dir_in(Platform::Windows, "C:\\Users\\me\\AppData\\Roaming"),
        format!("C:\\Users\\me\\AppData\\Roaming\\{tail}")
    );
    assert_eq!(
        shortcut_dir_in(Platform::Unix, "/home/me/.config"),
        "/home/me/.config/Microsoft/Windows/Start Menu/Programs/Scoop Apps"
    );
    if let HostDir::At(dir) = shortcut_dir(Platform::Windows) {
        assert!(dir.ends_with(tail));
        assert!(!dir.contains('/'));
    }
}

#[test]
fn directory_of_entries_lies_in_the_configuration_directory() {
    let expected = match dirs::config_dir() {
        None => HostDir::Missing,
        Some(dir) => match dir.to_str() {
            None => HostDir::NotUnicode,
            Some(dir) => HostDir::At(shortcut_dir_in(Platform::Unix, dir)),
        },
    };
    assert_eq!(shortcut_dir(Platform::Unix), expected);
}

#[test]
fn directory_of_entries_is_not_made_up() {
    assert_eq!(shortcut_dir_for(Platform::Windows, &HostDir::Missing), HostDir::Missing);
    assert_eq!(shortcut_dir_for(Platform::Windows, &HostDir::NotUnicode), HostDir::NotUnicode);
    assert_eq!(
        shortcut_dir_for(Platform::Unix, &HostDir::At("/c".to_string())),
        HostDir::At("/c/Microsoft/Windows/Start Menu/Programs/Scoop Apps".to_string())
    );
}

#[test]
fn shortcuts_on_unix_are_joined_with_slashes() {
    assert_eq!(shortcut_relative(Platform::Unix, "Tools/App"), Ok("Tools/App.lnk".to_string()));
    let p = package(Some(&[&["bin/a.exe", "Tools/A"]]));
    let session = Session { platform: Platform::Unix, ..session() };
    let mut context = HookContext::new(&session, &p, "install", "64bit", "{}".to_string());
    context.dir = "/s/apps/tool/current".to_string();
    assert_eq!(made(&add(&p, &context, "/menu")), vec!["/menu/Tools/A.lnk".to_string()]);
    assert_eq!(removed(&remove(&session, &p, "/menu")), vec!["/menu/Tools/A.lnk".to_string()]);
}

#[test]
fn shortcuts_lie_below_a_verbatim_directory() {
    let p = package(Some(&[&["a.exe", "Tools/A"]]));
    assert_eq!(
        removed(&remove(&session(), &p, "\\\\?\\C:\\menu")),
        vec!["\\\\?\\C:\\menu\\Tools\\A.lnk".to_string()]
    );
}

#[test]
fn no_shortcuts_plan_nothing() {
    let p = package(None);
    assert!(add(&p, &context(&p), "S:\\menu").is_empty());
    assert!(remove(&session(), &p, "S:\\menu").is_empty());
}

#[test]
fn a_full_definition_is_checked_and_made() {
    let p = package(Some(&[&["bin\\tool.exe", "Tools\\Tool", "--dir $dir", "tool.ico"]]));
    let actions = add(&p, &context(&p), "S:\\menu");
    assert_eq!(actions.len(), 7);
    assert!(is_event(&actions[0], &Event::PackageShortcutAddStart));
    let target = "C:\\scoop\\apps\\tool\\current\\bin\\tool.exe";
    assert_eq!(
        required(&actions[1]),
        (target, &custom(&format!("shortcut target '{target}' does not exist")))
    );
    match &actions[2] {
        ShortcutAction::EnsureParent { parent } => {
            assert_eq!(parent, &Some("S:\\menu\\Tools".to_string()))
        }
        _ => panic!("no parent"),
    }
    let icon = "C:\\scoop\\apps\\tool\\current\\tool.ico";
    assert_eq!(
        required(&actions[3]),
        (icon, &custom(&format!("shortcut icon '{icon}' does not exist")))
    );
    let run = script(&actions[4]);
    assert_eq!(run.label, "create-shortcut");
    assert_eq!(run.source, CREATE_SHORTCUT_SCRIPT);
    let variable = |key: &str, value: &str| (key.to_string(), value.to_string());
    assert_eq!(
        run.environment,
        vec![
            variable("HOK_SHORTCUT_PATH", "S:\\menu\\Tools\\Tool.lnk"),
            variable("HOK_SHORTCUT_TARGET", target),
            variable("HOK_SHORTCUT_ARGUMENTS", "--dir C:\\scoop\\apps\\tool\\current"),
            variable("HOK_SHORTCUT_ICON", icon),
        ]
    );
    assert!(is_event(
        &actions[5],
        &Event::PackageShortcutAddProgress("Tools\\Tool.lnk".to_string())
    ));
    assert!(is_event(&actions[6], &Event::PackageShortcutAddDone));
}

#[test]
fn a_short_definition_has_no_arguments_and_no_icon() {
    let p = package(Some(&[&["tool.exe", "Tool"]]));
    let actions = add(&p, &context(&p), "S:\\menu");
    assert_eq!(actions.len(), 6);
    let run = script(&actions[3]);
    assert_eq!(run.environment[2].1, "");
    assert_eq!(run.environment[3].1, "");
}

#[test]
fn definitions_of_the_wrong_length_are_refused() {
    let wrong: [&[&str]; 3] = [&[], &["tool.exe"], &["a", "b", "c", "d", "e"]];
    for definition in wrong {
        let p = package(Some(&[definition]));
        let actions = add(&p, &context(&p), "S:\\menu");
        assert_eq!(actions.len(), 2);
        assert!(is_failure(&actions[1], &custom("invalid shortcut definition for 'tool'")));
    }
}

#[test]
fn refused_paths_stop_where_they_are_reached() {
    let p = package(Some(&[&["..\\x", "Tool"]]));
    let actions = add(&p, &context(&p), "S:\\menu");
    assert_eq!(actions.len(), 2);
    assert!(is_failure(&actions[1], &custom("unsafe shortcut path '..\\x'")));

    let p = package(Some(&[&["x", "C:\\Tool"]]));
    let actions = add(&p, &context(&p), "S:\\menu");
    assert_eq!(actions.len(), 3);
    assert!(is_failure(&actions[2], &custom("unsafe shortcut path 'C:\\Tool'")));

    let p = package(Some(&[&["x", "Tool", "", "\\icon"], &["y", "Other"]]));
    let actions = add(&p, &context(&p), "S:\\menu");
    assert_eq!(actions.len(), 4);
    assert!(is_failure(&actions[3], &custom("unsafe shortcut path '\\icon'")));
}

fn made(actions: &[ShortcutAction]) -> Vec<String> {
    actions
        .iter()
        .filter_map(|action| match action {
            ShortcutAction::Run(script) => Some(script.environment[0].1.clone()),
            _ => None,
        })
        .collect()
}

fn removed(actions: &[ShortcutAction]) -> Vec<String> {
    actions
        .iter()
        .filter_map(|action| match action {
            ShortcutAction::RemoveFile { path } => Some(path.clone()),
            _ => None,
        })
        .collect()
}

#[test]
fn removing_takes_away_what_adding_made() {
    let p = package(Some(&[&["a.exe", "A"], &["b.exe", "Tools\\B", "-x"]]));
    let added = made(&add(&p, &context(&p), "S:\\menu"));
    assert_eq!(added, vec!["S:\\menu\\A.lnk".to_string(), "S:\\menu\\Tools\\B.lnk".to_string()]);
    assert_eq!(removed(&remove(&session(), &p, "S:\\menu")), added);
}

#[test]
fn removal_passes_over_nameless_definitions() {
    let p = package(Some(&[&["a.exe"], &["b.exe", "B"], &["c.exe", ".."], &["d.exe", "D"]]));
    let actions = remove(&session(), &p, "S:\\menu");
    assert_eq!(actions.len(), 4);
    assert!(is_event(&actions[0], &Event::PackageShortcutRemoveStart));
    assert!(is_event(
        &actions[1],
        &Event::PackageShortcutRemoveProgress("B.lnk".to_string())
    ));
    assert_eq!(removed(&actions), vec!["S:\\menu\\B.lnk".to_string()]);
    assert!(is_failure(&actions[3], &custom("unsafe shortcut path '..'")));

    let p = package(Some(&[]));
    let actions = remove(&session(), &p, "S:\\menu");
    assert_eq!(actions.len(), 2);
    assert!(is_event(&actions[1], &Event::PackageShortcutRemoveDone));
}
