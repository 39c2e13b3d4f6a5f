//! Scripts of packages.

use libscoop::error::Error;
use libscoop::package::{Manifest, Package};
use libscoop::script::{
    artifact_name, artifact_names, current_architecture, hook_error, hook_source,
    powershell_executable, powershell_result, prepare_powershell, run_goes_on, run_hook,
    run_powershell, Hook, HookContext, HostVariables, Outcome, PowershellAction, POWERSHELL_PRELUDE,
};
use libscoop::session::{Config, Platform, Session};

fn texts(list: &[&str]) -> Vec<String> {
    list.iter().map(|text| text.to_string()).collect()
}

fn session(no_junction: bool) -> Session {
    Session {
        config: Config {
            root_path: "C:\\scoop".to_string(),
            cache_path: "D:\\cache".to_string(),
            path: "C:\\cfg.json".to_string(),
            no_junction,
            use_isolated_path: None,
        },
        platform: Platform::Windows,
    }
}

fn package(url: &[&str]) -> Package {
    Package {
        name: "test-app".to_string(),
        version: "1.0.0".to_string(),
        installed_version: None,
        manifest: Manifest {
            url: texts(url),
            env_set: None,
            env_add_path: None,
            persist: None,
            shortcuts: None,
            pre_install: Some(texts(&["one", "two"])),
            post_install: None,
            pre_uninstall: Some(texts(&[])),
            post_uninstall: Some(texts(&["last"])),
        },
    }
}

fn context(no_junction: bool) -> HookContext {
    HookContext::new(
        &session(no_junction),
        &package(&[]),
        "install",
        "64bit",
        "{\"a\": \"it's\"}".to_string(),
    )
}

fn host() -> HostVariables {
    HostVariables { scoop_global: None, program_data: None, local_app_data: None }
}

#[test]
fn artifact_name_honors_scoop_fragment() {
    assert_eq!(
        artifact_name("https://example.test/setup.exe#/dl.7z").unwrap(),
        "dl.7z"
    );
}

#[test]
fn artifact_name_ignores_query() {
    assert_eq!(
        artifact_name("https://example.test/tool.zip?download=1").unwrap(),
        "tool.zip"
    );
}

#[test]
fn artifact_name_edge_cases() {
    assert_eq!(artifact_name("https://e.test/a#b/c").unwrap(), "c");
    assert_eq!(artifact_name("https://e.test/a.zip#").unwrap(), "a.zip");
    assert_eq!(artifact_name("https://e.test/a.zip#///").unwrap(), "a.zip");
    assert_eq!(artifact_name("https://e.test/a.zip#x/").unwrap(), "a.zip");
    assert_eq!(artifact_name("https://e.test/a.zip?q=x/y#").unwrap(), "a.zip");
    assert_eq!(artifact_name("plain").unwrap(), "plain");
    let no_name = |url: &str| {
        Err(Error::Custom(format!("could not determine filename from '{url}'")))
    };
    assert_eq!(artifact_name("https://e.test/"), no_name("https://e.test/"));
    assert_eq!(artifact_name("https://e.test/?q=1"), no_name("https://e.test/?q=1"));
    assert_eq!(artifact_name(""), no_name(""));
}

#[test]
fn the_first_url_without_a_name_is_reported() {
    assert_eq!(
        artifact_names(&texts(&["a/b.zip", "c#/d.7z"])),
        Ok(texts(&["b.zip", "d.7z"]))
    );
    assert_eq!(
        artifact_names(&texts(&["a/b.zip", "x/", "y/"])),
        Err(Error::Custom("could not determine filename from 'x/'".to_string()))
    );
}

#[test]
fn hooks_have_names() {
    assert_eq!(Hook::PreInstall.name(), "pre_install");
    assert_eq!(Hook::PostInstall.name(), "post_install");
    assert_eq!(Hook::PreUninstall.name(), "pre_uninstall");
    assert_eq!(Hook::PostUninstall.name(), "post_uninstall");
}

#[test]
fn context_locates_the_directories() {
    let c = context(false);
    assert_eq!(c.dir, "C:\\scoop\\apps\\test-app\\current");
    assert_eq!(c.original_dir, "C:\\scoop\\apps\\test-app\\1.0.0");
    assert_eq!(c.persist_dir, "C:\\scoop\\persist\\test-app");
    assert_eq!(c.command, "install");
    assert_eq!(c.architecture, "64bit");
    assert_eq!(c.root_dir, "C:\\scoop");
    assert_eq!(c.cache_dir, "D:\\cache");
    assert_eq!(c.config_path, "C:\\cfg.json");
    assert_eq!(c.manifest_json, "{\"a\": \"it's\"}");
    assert_eq!(context(true).dir, "C:\\scoop\\apps\\test-app\\1.0.0");
}

#[test]
fn every_variable_is_expanded() {
    let c = context(false);
    let p = package(&[]);
    assert_eq!(c.expand("plain text", &p), "plain text");
    assert_eq!(
        c.expand("$app $version $architecture $cmd $global", &p),
        "test-app 1.0.0 64bit install $false"
    );
    assert_eq!(
        c.expand("$dir|$original_dir|$persist_dir", &p),
        "C:\\scoop\\apps\\test-app\\current|C:\\scoop\\apps\\test-app\\1.0.0|\
         C:\\scoop\\persist\\test-app"
    );
    assert_eq!(c.expand("$apple$dirs", &p), "test-appleC:\\scoop\\apps\\test-app\\currents");
}

#[test]
fn values_are_expanded_again_by_later_variables() {
    let mut c = context(false);
    c.command = "$dir".to_string();
    assert_eq!(c.expand("$cmd", &package(&[])), "C:\\scoop\\apps\\test-app\\current");
}

#[test]
fn host_variables_locate_other_installations() {
    assert_eq!(host().global_dir(Platform::Windows), "C:\\ProgramData\\scoop");
    assert_eq!(host().old_scoop_dir(Platform::Windows), "scoop");
    let data = HostVariables {
        scoop_global: None,
        program_data: Some("E:\\data".to_string()),
        local_app_data: Some("E:\\local".to_string()),
    };
    assert_eq!(data.global_dir(Platform::Windows), "E:\\data\\scoop");
    assert_eq!(data.old_scoop_dir(Platform::Windows), "E:\\local\\scoop");
    let global = HostVariables {
        scoop_global: Some("G:\\".to_string()),
        program_data: Some("E:\\data".to_string()),
        local_app_data: None,
    };
    assert_eq!(global.global_dir(Platform::Windows), "G:\\");
}

#[test]
fn environment_lists_every_variable_in_order() {
    let p = package(&["https://e.test/test.zip"]);
    let environment = context(false).environment(&p, &host()).unwrap();
    let expected = vec![
        ("HOK_APP", "test-app"),
        ("HOK_VERSION", "1.0.0"),
        ("HOK_ARCHITECTURE", "64bit"),
        ("HOK_COMMAND", "install"),
        ("HOK_DIR", "C:\\scoop\\apps\\test-app\\current"),
        ("HOK_ORIGINAL_DIR", "C:\\scoop\\apps\\test-app\\1.0.0"),
        ("HOK_PERSIST_DIR", "C:\\scoop\\persist\\test-app"),
        ("HOK_SCOOP_DIR", "C:\\scoop"),
        ("HOK_GLOBAL_DIR", "C:\\ProgramData\\scoop"),
        ("HOK_CACHE_DIR", "D:\\cache"),
        ("HOK_BUCKETS_DIR", "C:\\scoop\\buckets"),
        ("HOK_MODULES_DIR", "C:\\scoop\\modules"),
        ("HOK_CONFIG_PATH", "C:\\cfg.json"),
        ("HOK_OLD_SCOOP_DIR", "scoop"),
        ("HOK_FILENAMES", "[\"test.zip\"]"),
    ];
    let expected: Vec<(String, String)> =
        expected.into_iter().map(|(k, v)| (k.to_string(), v.to_string())).collect();
    assert_eq!(environment, expected);
}

#[test]
fn file_names_are_written_as_json() {
    let p = package(&["a/one.zip", "b/t\"w\\o.zip"]);
    let environment = context(false).environment(&p, &host()).unwrap();
    assert_eq!(environment[14].1, "[\"one.zip\",\"t\\\"w\\\\o.zip\"]");
    let odd = package(&["x/\u{1}\u{1f}\u{7f}\t\r\n\u{8}\u{c}\u{e9}"]);
    let environment = context(false).environment(&odd, &host()).unwrap();
    assert_eq!(environment[14].1, "[\"\\u0001\\u001f\u{7f}\\t\\r\\n\\b\\f\u{e9}\"]");
    let none = context(false).environment(&package(&[]), &host()).unwrap();
    assert_eq!(none[14].1, "[]");
    let given = context(false).environment_with(&p, &host(), "given");
    assert_eq!(given[14], ("HOK_FILENAMES".to_string(), "given".to_string()));
}

#[test]
fn environment_fails_without_a_file_name() {
    assert_eq!(
        context(false).environment(&package(&["x/"]), &host()),
        Err(Error::Custom("could not determine filename from 'x/'".to_string()))
    );
}

#[test]
fn hook_source_quotes_the_manifest() {
    let source = hook_source(&texts(&["one", "two"]), "{\"a\": \"it's\"}");
    assert_eq!(
        source,
        format!(
            "{POWERSHELL_PRELUDE}\r\n$manifest = '{{\"a\": \"it''s\"}}' | ConvertFrom-Json\r\n\
             one\r\ntwo\r\n"
        )
    );
}

#[test]
fn hooks_become_scripts() {
    let c = context(false);
    let p = package(&["a/test.zip"]);
    assert!(run_hook(&p, Hook::PostInstall, &c, &host()).unwrap().is_none());
    let script = run_hook(&p, Hook::PreInstall, &c, &host()).unwrap().unwrap();
    assert_eq!(script.label, "test-app-pre_install");
    assert_eq!(script.source, hook_source(&texts(&["one", "two"]), "{\"a\": \"it's\"}"));
    assert_eq!(script.environment, c.environment(&p, &host()).unwrap());
    let script = run_hook(&p, Hook::PreUninstall, &c, &host()).unwrap().unwrap();
    assert!(script.source.ends_with("' | ConvertFrom-Json\r\n\r\n"));
    let script = run_hook(&p, Hook::PostUninstall, &c, &host()).unwrap().unwrap();
    assert!(script.source.ends_with("\r\nlast\r\n"));
}

#[test]
fn a_hook_fails_where_its_environment_does() {
    let p = package(&["x/"]);
    let error = run_hook(&p, Hook::PreInstall, &context(false), &host()).unwrap_err();
    assert_eq!(error, Error::Custom("could not determine filename from 'x/'".to_string()));
    assert!(run_hook(&p, Hook::PostInstall, &context(false), &host()).unwrap().is_none());
}

#[test]
fn hook_errors_name_the_hook_and_the_package() {
    assert_eq!(
        hook_error(&package(&[]), Hook::PreUninstall, "exit 7"),
        Error::Custom("pre_uninstall hook failed for 'test-app': exit 7".to_string())
    );
}

#[test]
fn script_files_are_marked_and_numbered() {
    let run = prepare_powershell("test-app", "a\u{e9}", 4096, 7, Platform::Windows);
    assert_eq!(run.executable, "powershell.exe");
    assert_eq!(run.file_name, "hok-test-app-4096-7.ps1");
    assert_eq!(run.bytes, vec![0xEF, 0xBB, 0xBF, b'a', 0xC3, 0xA9]);
    assert_eq!(
        run.arguments,
        texts(&[
            "-NoLogo",
            "-NoProfile",
            "-NonInteractive",
            "-ExecutionPolicy",
            "Bypass",
            "-File",
        ])
    );
    assert_eq!(prepare_powershell("x", "", 0, 0, Platform::Unix).executable, "pwsh");
    assert_eq!(powershell_executable(Platform::Windows), "powershell.exe");
}

#[test]
fn a_run_writes_runs_and_removes_its_file() {
    let environment = vec![("A".to_string(), "1".to_string())];
    let actions = run_powershell("x", "exit", environment.clone(), 9, 3, Platform::Unix);
    let run = prepare_powershell("x", "exit", 9, 3, Platform::Unix);
    assert_eq!(
        actions,
        vec![
            PowershellAction::Write {
                file_name: "hok-x-9-3.ps1".to_string(),
                bytes: run.bytes,
            },
            PowershellAction::Run {
                executable: "pwsh".to_string(),
                arguments: run.arguments,
                file_name: "hok-x-9-3.ps1".to_string(),
                environment,
            },
            PowershellAction::Remove { file_name: "hok-x-9-3.ps1".to_string() },
        ]
    );
}

#[test]
fn script_files_are_told_apart() {
    let name = |process: u32, run: u64| prepare_powershell("x", "", process, run, Platform::Windows).file_name;
    assert_eq!(name(1, 11), "hok-x-1-11.ps1");
    assert_eq!(name(11, 1), "hok-x-11-1.ps1");
    assert_ne!(name(1, 11), name(11, 1));
    assert_ne!(name(1, 1), name(1, 2));
    let labelled = |label: &str, run: u64| prepare_powershell(label, "", 1, run, Platform::Windows).file_name;
    assert_ne!(labelled("x", 11), labelled("x-1", 1));
    assert_ne!(labelled("x-1-1", 1), labelled("x", 1));
}

#[test]
fn variables_expand_with_text_around_them() {
    let c = context(false);
    let p = package(&[]);
    assert_eq!(
        c.expand("x=$persist_dir\\y $app-$version.zip", &p),
        "x=C:\\scoop\\persist\\test-app\\y test-app-1.0.0.zip"
    );
    assert_eq!(c.expand("$global$dir", &p), "$falseC:\\scoop\\apps\\test-app\\current");
    assert_eq!(c.expand("$unknown", &p), "$unknown");
}

#[test]
fn outcomes_are_judged() {
    let exited = |success: bool| Outcome::Exited { success, status: "exit code: 7".to_string() };
    assert_eq!(powershell_result("x", &exited(true)), Ok(()));
    assert_eq!(
        powershell_result("x", &exited(false)),
        Err(Error::Custom("PowerShell for x exited with exit code: 7".to_string()))
    );
    assert_eq!(
        powershell_result("x", &Outcome::NotStarted("not found".to_string())),
        Err(Error::Custom("could not start PowerShell for x: not found".to_string()))
    );
}

#[test]
fn architectures_have_manifest_names() {
    assert_eq!(current_architecture("x86_64"), "64bit");
    assert_eq!(current_architecture("aarch64"), "arm64");
    assert_eq!(current_architecture("x86"), "32bit");
}

#[test]
fn only_a_failed_write_ends_the_run() {
    let actions = run_powershell("x", "exit", vec![], 9, 3, Platform::Windows);
    assert_eq!(actions.len(), 3);
    for (index, action) in actions.iter().enumerate() {
        assert!(run_goes_on(action, false));
        assert_eq!(run_goes_on(action, true), index > 0);
    }
}

#[test]
fn directories_on_unix() {
    let mut s = session(false);
    s.config.root_path = "/home/u/scoop".to_string();
    s.platform = Platform::Unix;
    let c = HookContext::new(&s, &package(&[]), "install", "64bit", "{}".to_string());
    assert_eq!(c.dir, "/home/u/scoop/apps/test-app/current");
    assert_eq!(c.persist_dir, "/home/u/scoop/persist/test-app");
}
