//! Environment variables that packages set.
//!
//! A step is a list of actions to carry out in order. Where it needs the path
//! variable, the list ends with reading it, and a second list follows from the
//! directories that were read.

use crate::error::{around, message_around, text_result, Error, ErrorView};
use crate::event::{Event, EventView};
use crate::internal::path::{
    is_safe, is_safe_relative, join, join_of, normal_form, normalize_path,
};
use crate::internal::text::{
    eq_ignore_ascii_case, equal_ignoring_case, find_first, join_lines, joined, to_chars, views,
};
use crate::package::Package;
use crate::script::{app_dir, app_dir_of, expansion, HookContext};
use crate::session::{IsolatedPath, Platform, Session};
use vstd::prelude::*;

verus! {

/// An action on the environment.
#[derive(Debug, PartialEq, Eq)]
pub enum EnvAction {
    /// Tell about the progress.
    Emit(Event),
    /// Set a variable of the user and of this process.
    SetVar { key: String, value: String },
    /// Remove a variable of the user and of this process.
    UnsetVar { key: String },
    /// Read the directories that a path variable lists.
    ReadPath { name: String },
    /// Tell other processes that the environment changed.
    Broadcast,
    /// Stop with an error.
    Fail(Error),
}

/// An action, over the characters of its texts.
pub enum EnvActionView {
    Emit(EventView),
    SetVar { key: Seq<char>, value: Seq<char> },
    UnsetVar { key: Seq<char> },
    ReadPath { name: Seq<char> },
    Broadcast,
    Fail(ErrorView),
}

impl View for EnvAction {
    type V = EnvActionView;

    open spec fn view(&self) -> EnvActionView {
        match self {
            EnvAction::Emit(event) => EnvActionView::Emit(event@),
            EnvAction::SetVar { key, value } => EnvActionView::SetVar { key: key@, value: value@ },
            EnvAction::UnsetVar { key } => EnvActionView::UnsetVar { key: key@ },
            EnvAction::ReadPath { name } => EnvActionView::ReadPath { name: name@ },
            EnvAction::Broadcast => EnvActionView::Broadcast,
            EnvAction::Fail(error) => EnvActionView::Fail(error@),
        }
    }
}

/// The contents of a list of actions.
pub open spec fn actions_of(list: Seq<EnvAction>) -> Seq<EnvActionView> {
    list.map_values(|a: EnvAction| a@)
}

fn push_action(list: &mut Vec<EnvAction>, action: EnvAction)
    ensures
        actions_of(final(list)@) == actions_of(old(list)@).push(action@),
{
    list.push(action);
    assert(actions_of(list@) =~= actions_of(old(list)@).push(action@));
}

/// The name of the path variable that packages use.
pub open spec fn path_variable(session: Session) -> Seq<char> {
    match session.config.use_isolated_path {
        Some(IsolatedPath::Named(name)) => name@,
        Some(IsolatedPath::Boolean(isolated)) => if isolated {
            "SCOOP_PATH"@
        } else {
            "PATH"@
        },
        None => "PATH"@,
    }
}

/// Returns the name of the path variable that packages use.
pub fn env_path_name(session: &Session) -> (r: String)
    ensures
        r@ == path_variable(*session),
{
    match &session.config.use_isolated_path {
        Some(IsolatedPath::Named(name)) => name.clone(),
        Some(IsolatedPath::Boolean(true)) => "SCOOP_PATH".to_owned(),
        _ => "PATH".to_owned(),
    }
}

/// The error for a directory that is not below the application.
pub open spec fn unsafe_path(path: Seq<char>) -> ErrorView {
    around("unsafe environment path '"@, path, "'"@)
}

/// Checks that a path stays below the directory it is looked up in. Manifests
/// write paths as on Windows, so they are read that way on every platform.
pub fn safe_relative(path: &str) -> (r: Result<String, Error>)
    ensures
        text_result(r) == if is_safe(Platform::Windows, path@) {
            Ok(path@)
        } else {
            Err(unsafe_path(path@))
        },
{
    if is_safe_relative(Platform::Windows, path) {
        Ok(path.to_owned())
    } else {
        Err(message_around("unsafe environment path '", path, "'"))
    }
}

/// Compares two directories as the file system does: up to the case of letters.
pub fn paths_equal(left: &str, right: &str) -> (r: bool)
    ensures
        r == equal_ignoring_case(left@, right@),
{
    eq_ignore_ascii_case(left, right)
}

/// Whether a directory is in a list, up to the case of letters.
pub open spec fn is_listed(paths: Seq<Seq<char>>, path: Seq<char>) -> bool {
    exists|i: int| 0 <= i < paths.len() && equal_ignoring_case(#[trigger] paths[i], path)
}

fn lists(paths: &Vec<String>, path: &str) -> (r: bool)
    ensures
        r == is_listed(views(paths@), path@),
{
    let ghost all = views(paths@);
    let mut i: usize = 0;
    while i < paths.len()
        invariant
            i <= paths@.len(),
            all == views(paths@),
            forall|k: int| 0 <= k < i ==> !equal_ignoring_case(#[trigger] all[k], path@),
        decreases paths@.len() - i,
    {
        assert(all[i as int] == paths@[i as int]@);
        if paths_equal(paths[i].as_str(), path) {
            return true;
        }
        i = i + 1;
    }
    false
}

/// The directory that an entry of a manifest puts on the path.
pub open spec fn env_dir(on: Platform, dir: Seq<char>, relative: Seq<char>) -> Seq<char> {
    normal_form(on, join_of(on, dir, relative))
}

/// The list with a directory added at the end, unless it is there already.
pub open spec fn with_path(paths: Seq<Seq<char>>, path: Seq<char>) -> Seq<Seq<char>> {
    if is_listed(paths, path) {
        paths
    } else {
        paths.push(path)
    }
}

/// The list with the directories of a manifest added, or the error for the
/// first one that is not below the application.
pub open spec fn with_paths(
    on: Platform,
    existing: Seq<Seq<char>>,
    dir: Seq<char>,
    relatives: Seq<Seq<char>>,
) -> Result<Seq<Seq<char>>, ErrorView>
    decreases relatives.len(),
{
    if relatives.len() == 0 {
        Ok(existing)
    } else {
        match with_paths(on, existing, dir, relatives.drop_last()) {
            Err(error) => Err(error),
            Ok(paths) => if is_safe(Platform::Windows, relatives.last()) {
                Ok(with_path(paths, env_dir(on, dir, relatives.last())))
            } else {
                Err(unsafe_path(relatives.last()))
            },
        }
    }
}

/// The directories that a manifest puts on the path, or the error for the first
/// one that is not below the application.
pub open spec fn env_dirs(on: Platform, dir: Seq<char>, relatives: Seq<Seq<char>>) -> Result<
    Seq<Seq<char>>,
    ErrorView,
>
    decreases relatives.len(),
{
    if relatives.len() == 0 {
        Ok(Seq::empty())
    } else {
        match env_dirs(on, dir, relatives.drop_last()) {
            Err(error) => Err(error),
            Ok(paths) => if is_safe(Platform::Windows, relatives.last()) {
                Ok(paths.push(env_dir(on, dir, relatives.last())))
            } else {
                Err(unsafe_path(relatives.last()))
            },
        }
    }
}

/// The list without the directories in `removals`.
pub open spec fn without_paths(existing: Seq<Seq<char>>, removals: Seq<Seq<char>>) -> Seq<
    Seq<char>,
> {
    existing.filter(|path: Seq<char>| !is_listed(removals, path))
}

/// An error at one of the first entries is the error of all of them.
proof fn lemma_with_paths_error(
    on: Platform,
    existing: Seq<Seq<char>>,
    dir: Seq<char>,
    relatives: Seq<Seq<char>>,
    k: int,
)
    requires
        0 <= k <= relatives.len(),
        with_paths(on, existing, dir, relatives.take(k)) is Err,
    ensures
        with_paths(on, existing, dir, relatives) == with_paths(on, existing, dir, relatives.take(k)),
    decreases relatives.len(),
{
    if k < relatives.len() {
        assert(relatives.drop_last().take(k) =~= relatives.take(k));
        lemma_with_paths_error(on, existing, dir, relatives.drop_last(), k);
    } else {
        assert(relatives.take(k) =~= relatives);
    }
}

proof fn lemma_env_dirs_error(on: Platform, dir: Seq<char>, relatives: Seq<Seq<char>>, k: int)
    requires
        0 <= k <= relatives.len(),
        env_dirs(on, dir, relatives.take(k)) is Err,
    ensures
        env_dirs(on, dir, relatives) == env_dirs(on, dir, relatives.take(k)),
    decreases relatives.len(),
{
    if k < relatives.len() {
        assert(relatives.drop_last().take(k) =~= relatives.take(k));
        lemma_env_dirs_error(on, dir, relatives.drop_last(), k);
    } else {
        assert(relatives.take(k) =~= relatives);
    }
}

/// The result of a step that gives a list of texts.
pub open spec fn list_result(r: Result<Vec<String>, Error>) -> Result<Seq<Seq<char>>, ErrorView> {
    match r {
        Ok(list) => Ok(views(list@)),
        Err(error) => Err(error@),
    }
}

/// Adds the directories of a manifest to the directories on the path.
pub fn extend_paths(
    on: Platform,
    existing: Vec<String>,
    dir: &str,
    relatives: &Vec<String>,
) -> (r: Result<Vec<String>, Error>)
    ensures
        list_result(r) == with_paths(on, views(existing@), dir@, views(relatives@)),
{
    let ghost all = views(relatives@);
    let ghost start = views(existing@);
    let mut paths = existing;
    let mut i: usize = 0;
    while i < relatives.len()
        invariant
            i <= relatives@.len(),
            all == views(relatives@),
            start == views(existing@),
            with_paths(on, start, dir@, all.take(i as int)) == Ok::<Seq<Seq<char>>, ErrorView>(
                views(paths@),
            ),
        decreases relatives@.len() - i,
    {
        let ghost shown = all.take(i + 1);
        assert(shown.drop_last() =~= all.take(i as int));
        assert(shown.last() == relatives@[i as int]@);
        match safe_relative(relatives[i].as_str()) {
            Ok(relative) => {
                let joined_path = join(on, dir, relative.as_str());
                let path = normalize_path(on, joined_path.as_str());
                let ghost before = paths@;
                if !lists(&paths, path.as_str()) {
                    paths.push(path);
                    assert(views(paths@) =~= views(before).push(path@));
                }
            },
            Err(error) => {
                proof {
                    lemma_with_paths_error(on, start, dir@, all, i + 1);
                }
                return Err(error);
            },
        }
        i = i + 1;
    }
    assert(all.take(i as int) =~= all);
    Ok(paths)
}

/// Returns the directories that a manifest puts on the path.
pub fn manifest_paths(
    on: Platform,
    dir: &str,
    relatives: &Vec<String>,
) -> (r: Result<Vec<String>, Error>)
    ensures
        list_result(r) == env_dirs(on, dir@, views(relatives@)),
{
    let ghost all = views(relatives@);
    let mut paths: Vec<String> = Vec::new();
    assert(views(paths@) =~= Seq::<Seq<char>>::empty());
    let mut i: usize = 0;
    while i < relatives.len()
        invariant
            i <= relatives@.len(),
            all == views(relatives@),
            env_dirs(on, dir@, all.take(i as int)) == Ok::<Seq<Seq<char>>, ErrorView>(views(paths@)),
        decreases relatives@.len() - i,
    {
        let ghost shown = all.take(i + 1);
        assert(shown.drop_last() =~= all.take(i as int));
        assert(shown.last() == relatives@[i as int]@);
        match safe_relative(relatives[i].as_str()) {
            Ok(relative) => {
                let joined_path = join(on, dir, relative.as_str());
                let path = normalize_path(on, joined_path.as_str());
                let ghost before = paths@;
                paths.push(path);
                assert(views(paths@) =~= views(before).push(path@));
            },
            Err(error) => {
                proof {
                    lemma_env_dirs_error(on, dir@, all, i + 1);
                }
                return Err(error);
            },
        }
        i = i + 1;
    }
    assert(all.take(i as int) =~= all);
    Ok(paths)
}

/// Removes directories from the directories on the path.
pub fn retain_paths(existing: &Vec<String>, removals: &Vec<String>) -> (r: Vec<String>)
    ensures
        views(r@) == without_paths(views(existing@), views(removals@)),
{
    let ghost all = views(existing@);
    let ghost keep = |path: Seq<char>| !is_listed(views(removals@), path);
    let mut out: Vec<String> = Vec::new();
    let mut i: usize = 0;
    assert(all.take(0).filter(keep) =~= Seq::<Seq<char>>::empty()) by {
        reveal(Seq::filter);
    }
    assert(views(out@) =~= Seq::<Seq<char>>::empty());
    while i < existing.len()
        invariant
            i <= existing@.len(),
            all == views(existing@),
            keep == (|path: Seq<char>| !is_listed(views(removals@), path)),
            views(out@) == all.take(i as int).filter(keep),
        decreases existing@.len() - i,
    {
        let ghost before = out@;
        let ghost path = all[i as int];
        assert(all.take(i + 1).drop_last() =~= all.take(i as int));
        assert(all.take(i + 1).last() == path);
        proof {
            reveal(Seq::filter);
        }
        if !lists(removals, existing[i].as_str()) {
            out.push(existing[i].clone());
            assert(views(out@) =~= views(before).push(path));
        }
        i = i + 1;
    }
    assert(all.take(i as int) =~= all);
    out
}

/// What separates the directories in the value of a path variable.
pub open spec fn list_separator(on: Platform) -> char {
    match on {
        Platform::Windows => ';',
        Platform::Unix => ':',
    }
}

/// What a directory cannot hold to be written in the value of a path variable:
/// on Windows a quote, elsewhere the separator.
pub open spec fn unlistable(on: Platform) -> char {
    match on {
        Platform::Windows => '"',
        Platform::Unix => ':',
    }
}

/// The error for a directory that cannot be written.
pub open spec fn unlistable_error(on: Platform) -> ErrorView {
    ErrorView::Custom(
        match on {
            Platform::Windows => "path segment contains `\"`"@,
            Platform::Unix => "path segment contains separator `:`"@,
        },
    )
}

/// How a directory is written in the value of a path variable: on Windows one
/// that holds the separator is quoted.
pub open spec fn list_entry(on: Platform, path: Seq<char>) -> Seq<char> {
    if on is Windows && path.contains(';') {
        seq!['"'] + path + seq!['"']
    } else {
        path
    }
}

/// The value of a path variable.
pub open spec fn path_value(on: Platform, paths: Seq<Seq<char>>) -> Result<Seq<char>, ErrorView> {
    if exists|i: int| 0 <= i < paths.len() && (#[trigger] paths[i]).contains(unlistable(on)) {
        Err(unlistable_error(on))
    } else {
        Ok(
            joined(
                paths.map_values(|path: Seq<char>| list_entry(on, path)),
                seq![list_separator(on)],
            ),
        )
    }
}

fn contains_char(text: &str, c: char) -> (r: bool)
    ensures
        r == text@.contains(c),
{
    let chars = to_chars(text);
    match find_first(&chars, 0, chars.len(), c) {
        Some(i) => {
            assert(text@[i as int] == c);
            true
        },
        None => false,
    }
}

/// Writes the value of a path variable.
pub fn join_paths(on: Platform, paths: &Vec<String>) -> (r: Result<String, Error>)
    ensures
        text_result(r) == path_value(on, views(paths@)),
{
    let windows = matches!(on, Platform::Windows);
    let refused = if windows {
        '"'
    } else {
        ':'
    };
    let ghost all = views(paths@);
    let ghost written = all.map_values(|path: Seq<char>| list_entry(on, path));
    let mut entries: Vec<String> = Vec::new();
    assert(views(entries@) =~= written.take(0));
    let mut i: usize = 0;
    while i < paths.len()
        invariant
            i <= paths@.len(),
            windows == (on is Windows),
            refused == unlistable(on),
            all == views(paths@),
            written == all.map_values(|path: Seq<char>| list_entry(on, path)),
            views(entries@) == written.take(i as int),
            forall|k: int| 0 <= k < i ==> !(#[trigger] all[k]).contains(unlistable(on)),
        decreases paths@.len() - i,
    {
        assert(all[i as int] == paths@[i as int]@);
        if contains_char(paths[i].as_str(), refused) {
            let message = if windows {
                "path segment contains `\"`"
            } else {
                "path segment contains separator `:`"
            };
            return Err(Error::Custom(message.to_owned()));
        }
        let mut entry = String::new();
        if windows && contains_char(paths[i].as_str(), ';') {
            entry.push('"');
            entry.append(paths[i].as_str());
            entry.push('"');
        } else {
            entry.append(paths[i].as_str());
        }
        assert(entry@ =~= list_entry(on, all[i as int]));
        let ghost before = entries@;
        entries.push(entry);
        assert(views(entries@) =~= views(before).push(entry@));
        assert(written.take(i + 1) =~= written.take(i as int).push(written[i as int]));
        i = i + 1;
    }
    assert(written.take(i as int) =~= written);
    let separator = if windows {
        ";"
    } else {
        ":"
    };
    proof {
        reveal_strlit(";");
        reveal_strlit(":");
        assert(separator@ =~= seq![list_separator(on)]);
    }
    Ok(join_lines(&entries, separator))
}

/// The variables that a manifest sets, each with its value written out.
pub open spec fn assignments_of(
    list: Seq<(String, String)>,
    context: HookContext,
    package: Package,
) -> Seq<EnvActionView> {
    list.map_values(
        |p: (String, String)|
            EnvActionView::SetVar {
                key: p.0@,
                value: expansion(context, package.version@, package.name@, p.1@),
            },
    )
}

/// How a step goes on after the variables: it reads the path variable where the
/// manifest lists directories, or else tells that the environment changed where
/// it did.
pub open spec fn continuation(session: Session, package: Package) -> Seq<EnvActionView> {
    if package.manifest.env_add_path is Some {
        seq![EnvActionView::ReadPath { name: path_variable(session) }]
    } else if package.manifest.env_set is Some {
        seq![EnvActionView::Broadcast]
    } else {
        seq![]
    }
}

/// How the variables of a package are set.
pub open spec fn planned_add(
    session: Session,
    package: Package,
    context: HookContext,
) -> Seq<EnvActionView> {
    (match package.manifest.env_set {
        Some(list) => assignments_of(list@, context, package),
        None => Seq::empty(),
    }) + continuation(session, package)
}

/// Plans how the variables of a package are set. Where the list ends with
/// reading the path variable, `add_paths` plans the rest.
pub fn add(session: &Session, package: &Package, context: &HookContext) -> (r: Vec<EnvAction>)
    ensures
        actions_of(r@) == planned_add(*session, *package, *context),
{
    let mut out: Vec<EnvAction> = Vec::new();
    assert(actions_of(out@) =~= Seq::<EnvActionView>::empty());
    if let Some(list) = &package.manifest.env_set {
        let ghost all = assignments_of(list@, *context, *package);
        let mut i: usize = 0;
        assert(all.take(0) =~= Seq::<EnvActionView>::empty());
        while i < list.len()
            invariant
                i <= list@.len(),
                all == assignments_of(list@, *context, *package),
                actions_of(out@) == all.take(i as int),
            decreases list@.len() - i,
        {
            let value = context.expand(list[i].1.as_str(), package);
            push_action(&mut out, EnvAction::SetVar { key: list[i].0.clone(), value });
            assert(all.take(i + 1) =~= all.take(i as int).push(all[i as int]));
            i = i + 1;
        }
        assert(all.take(i as int) =~= all);
    }
    let ghost done = actions_of(out@);
    if package.manifest.env_add_path.is_some() {
        push_action(&mut out, EnvAction::ReadPath { name: env_path_name(session) });
    } else if package.manifest.env_set.is_some() {
        push_action(&mut out, EnvAction::Broadcast);
    }
    assert(actions_of(out@) =~= done + continuation(*session, *package));
    out
}

/// The value that the path variable gets, or what stops the step.
pub open spec fn path_update(session: Session, paths: Result<Seq<Seq<char>>, ErrorView>) -> Result<
    EnvActionView,
    ErrorView,
> {
    match paths {
        Err(error) => Err(error),
        Ok(paths) => match path_value(session.platform, paths) {
            Err(error) => Err(error),
            Ok(value) => Ok(EnvActionView::SetVar { key: path_variable(session), value }),
        },
    }
}

/// How the directories of a package are added to the path.
pub open spec fn planned_add_paths(
    session: Session,
    package: Package,
    context: HookContext,
    existing: Seq<Seq<char>>,
) -> Seq<EnvActionView> {
    match path_update(
        session,
        with_paths(
            session.platform,
            existing,
            context.dir@,
            views(package.manifest.env_add_path->0@),
        ),
    ) {
        Ok(set) => seq![set, EnvActionView::Broadcast],
        Err(error) => seq![EnvActionView::Fail(error)],
    }
}

/// Plans how the directories of a package are added to the path, where
/// `existing` are the directories that the path variable lists.
pub fn add_paths(
    session: &Session,
    package: &Package,
    context: &HookContext,
    existing: Vec<String>,
) -> (r: Vec<EnvAction>)
    requires
        package.manifest.env_add_path is Some,
    ensures
        actions_of(r@) == planned_add_paths(*session, *package, *context, views(existing@)),
{
    let mut out: Vec<EnvAction> = Vec::new();
    assert(actions_of(out@) =~= Seq::<EnvActionView>::empty());
    if let Some(relatives) = &package.manifest.env_add_path {
        let value = match extend_paths(session.platform, existing, context.dir.as_str(), relatives) {
            Ok(paths) => join_paths(session.platform, &paths),
            Err(error) => Err(error),
        };
        match value {
            Ok(value) => {
                push_action(&mut out, EnvAction::SetVar { key: env_path_name(session), value });
                push_action(&mut out, EnvAction::Broadcast);
            },
            Err(error) => {
                push_action(&mut out, EnvAction::Fail(error));
            },
        }
    }
    out
}

/// The variables that a manifest sets, each to be removed.
pub open spec fn unsets_of(list: Seq<(String, String)>) -> Seq<EnvActionView> {
    list.map_values(|p: (String, String)| EnvActionView::UnsetVar { key: p.0@ })
}

/// How the variables of a package are removed.
pub open spec fn planned_remove(session: Session, package: Package) -> Seq<EnvActionView> {
    (match package.manifest.env_set {
        Some(list) => seq![EnvActionView::Emit(EventView::PackageEnvVarRemoveStart)] + unsets_of(
            list@,
        ) + seq![EnvActionView::Emit(EventView::PackageEnvVarRemoveDone)],
        None => Seq::empty(),
    }) + continuation(session, package)
}

/// Plans how the variables of an installed package are removed. Where the list
/// ends with reading the path variable, `remove_paths` plans the rest.
pub fn remove(session: &Session, package: &Package) -> (r: Vec<EnvAction>)
    requires
        package.is_installed(),
    ensures
        actions_of(r@) == planned_remove(*session, *package),
{
    let mut out: Vec<EnvAction> = Vec::new();
    assert(actions_of(out@) =~= Seq::<EnvActionView>::empty());
    if let Some(list) = &package.manifest.env_set {
        let ghost all = unsets_of(list@);
        let ghost head = seq![EnvActionView::Emit(EventView::PackageEnvVarRemoveStart)];
        push_action(&mut out, EnvAction::Emit(Event::PackageEnvVarRemoveStart));
        let mut i: usize = 0;
        assert(actions_of(out@) =~= head + all.take(0));
        while i < list.len()
            invariant
                i <= list@.len(),
                all == unsets_of(list@),
                actions_of(out@) == head + all.take(i as int),
            decreases list@.len() - i,
        {
            push_action(&mut out, EnvAction::UnsetVar { key: list[i].0.clone() });
            assert(head + all.take(i + 1) =~= (head + all.take(i as int)).push(all[i as int]));
            i = i + 1;
        }
        assert(all.take(i as int) =~= all);
        push_action(&mut out, EnvAction::Emit(Event::PackageEnvVarRemoveDone));
        assert(actions_of(out@) =~= head + all + seq![
            EnvActionView::Emit(EventView::PackageEnvVarRemoveDone),
        ]);
    }
    let ghost done = actions_of(out@);
    if package.manifest.env_add_path.is_some() {
        push_action(&mut out, EnvAction::ReadPath { name: env_path_name(session) });
    } else if package.manifest.env_set.is_some() {
        push_action(&mut out, EnvAction::Broadcast);
    }
    assert(actions_of(out@) =~= done + continuation(*session, *package));
    out
}

/// The directory that an installed application is used from.
pub open spec fn installed_dir(session: Session, package: Package) -> Seq<char> {
    app_dir_of(
        session.platform,
        session.config.root_path@,
        package.name@,
        if session.config.no_junction {
            package.installed_version->0@
        } else {
            "current"@
        },
    )
}

/// Returns the directory that an installed application is used from.
pub fn installed_app_dir(session: &Session, package: &Package) -> (r: String)
    requires
        package.is_installed(),
    ensures
        r@ == installed_dir(*session, *package),
{
    let on = session.platform;
    let root = session.config.root_path.as_str();
    let name = package.name.as_str();
    if session.config.no_junction {
        match &package.installed_version {
            Some(version) => app_dir(on, root, name, version.as_str()),
            None => app_dir(on, root, name, "current"),
        }
    } else {
        app_dir(on, root, name, "current")
    }
}

/// The list without the directories of a manifest.
pub open spec fn without_manifest(
    on: Platform,
    existing: Seq<Seq<char>>,
    dir: Seq<char>,
    relatives: Seq<Seq<char>>,
) -> Result<Seq<Seq<char>>, ErrorView> {
    match env_dirs(on, dir, relatives) {
        Err(error) => Err(error),
        Ok(removals) => Ok(without_paths(existing, removals)),
    }
}

/// How the directories of a package are taken off the path.
pub open spec fn planned_remove_paths(
    session: Session,
    package: Package,
    existing: Seq<Seq<char>>,
) -> Seq<EnvActionView> {
    seq![EnvActionView::Emit(EventView::PackageEnvPathRemoveStart)] + (match path_update(
        session,
        without_manifest(
            session.platform,
            existing,
            installed_dir(session, package),
            views(package.manifest.env_add_path->0@),
        ),
    ) {
        Ok(set) => seq![
            set,
            EnvActionView::Emit(EventView::PackageEnvPathRemoveDone),
            EnvActionView::Broadcast,
        ],
        Err(error) => seq![EnvActionView::Fail(error)],
    })
}

/// Plans how the directories of an installed package are taken off the path,
/// where `existing` are the directories that the path variable lists.
pub fn remove_paths(session: &Session, package: &Package, existing: Vec<String>) -> (r: Vec<
    EnvAction,
>)
    requires
        package.is_installed(),
        package.manifest.env_add_path is Some,
    ensures
        actions_of(r@) == planned_remove_paths(*session, *package, views(existing@)),
{
    let mut out: Vec<EnvAction> = Vec::new();
    assert(actions_of(out@) =~= Seq::<EnvActionView>::empty());
    push_action(&mut out, EnvAction::Emit(Event::PackageEnvPathRemoveStart));
    if let Some(relatives) = &package.manifest.env_add_path {
        let dir = installed_app_dir(session, package);
        let value = match manifest_paths(session.platform, dir.as_str(), relatives) {
            Ok(removals) => {
                let paths = retain_paths(&existing, &removals);
                join_paths(session.platform, &paths)
            },
            Err(error) => Err(error),
        };
        match value {
            Ok(value) => {
                push_action(&mut out, EnvAction::SetVar { key: env_path_name(session), value });
                push_action(&mut out, EnvAction::Emit(Event::PackageEnvPathRemoveDone));
                push_action(&mut out, EnvAction::Broadcast);
            },
            Err(error) => {
                push_action(&mut out, EnvAction::Fail(error));
            },
        }
    }
    out
}

} // verus!
