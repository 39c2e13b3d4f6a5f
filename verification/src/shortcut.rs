//! Start menu entries of packages.

use crate::error::{around, message_around, text_result, Error, ErrorView};
use crate::event::{Event, EventView};
use crate::internal::path::{
    file_name, file_name_of, is_safe, is_safe_relative, join, join_of, normal_form,
    normalize_path, parent, parent_of,
};
use crate::internal::text::{pair_views, push_pair, views};
use crate::package::Package;
use crate::persist::definitions_of;
use crate::script::{expansion, HookContext, Script, ScriptView};
use crate::session::{Platform, Session};
use vstd::prelude::*;

verus! {

/// The script that makes a shortcut from the variables it finds set.
pub const CREATE_SHORTCUT_SCRIPT: &'static str = r#"$ErrorActionPreference = 'Stop'
[Console]::OutputEncoding = [System.Text.UTF8Encoding]::new($false)
$wsh = New-Object -ComObject WScript.Shell
$shortcut = $wsh.CreateShortcut($env:HOK_SHORTCUT_PATH)
$shortcut.TargetPath = $env:HOK_SHORTCUT_TARGET
$shortcut.WorkingDirectory = Split-Path -Parent $env:HOK_SHORTCUT_TARGET
if ($env:HOK_SHORTCUT_ARGUMENTS) { $shortcut.Arguments = $env:HOK_SHORTCUT_ARGUMENTS }
if ($env:HOK_SHORTCUT_ICON) { $shortcut.IconLocation = $env:HOK_SHORTCUT_ICON }
$shortcut.Save()
"#;

/// Where start menu entries lie below the user's configuration.
pub const SHORTCUT_PATH: &'static str = "Microsoft/Windows/Start Menu/Programs/Scoop Apps";

/// An action on a shortcut.
#[derive(Debug)]
pub enum ShortcutAction {
    /// Tell about the progress.
    Emit(Event),
    /// Stop with the error unless a file of this name exists.
    RequireFile { path: String, error: Error },
    /// Make sure that this directory exists. A path that has no parent has none
    /// to make sure of.
    EnsureParent { parent: Option<String> },
    /// Run a script.
    Run(Script),
    /// Remove a file; it does not matter whether that works.
    RemoveFile { path: String },
    /// Stop with an error.
    Fail(Error),
}

/// An action, over the characters of its texts.
pub enum ShortcutActionView {
    Emit(EventView),
    RequireFile { path: Seq<char>, error: ErrorView },
    EnsureParent { parent: Option<Seq<char>> },
    Run(ScriptView),
    RemoveFile { path: Seq<char> },
    Fail(ErrorView),
}

impl View for ShortcutAction {
    type V = ShortcutActionView;

    open spec fn view(&self) -> ShortcutActionView {
        match self {
            ShortcutAction::Emit(event) => ShortcutActionView::Emit(event@),
            ShortcutAction::RequireFile { path, error } => ShortcutActionView::RequireFile {
                path: path@,
                error: error@,
            },
            ShortcutAction::EnsureParent { parent } => ShortcutActionView::EnsureParent {
                parent: match parent {
                    Some(dir) => Some(dir@),
                    None => None,
                },
            },
            ShortcutAction::Run(script) => ShortcutActionView::Run(script@),
            ShortcutAction::RemoveFile { path } => ShortcutActionView::RemoveFile { path: path@ },
            ShortcutAction::Fail(error) => ShortcutActionView::Fail(error@),
        }
    }
}

/// The contents of a list of actions.
pub open spec fn actions_of(list: Seq<ShortcutAction>) -> Seq<ShortcutActionView> {
    list.map_values(|a: ShortcutAction| a@)
}

fn push_action(list: &mut Vec<ShortcutAction>, action: ShortcutAction)
    ensures
        actions_of(final(list)@) == actions_of(old(list)@).push(action@),
{
    list.push(action);
    assert(actions_of(list@) =~= actions_of(old(list)@).push(action@));
}

/// The directory of start menu entries below the user's configuration.
pub open spec fn shortcut_dir_of(on: Platform, config_dir: Seq<char>) -> Seq<char> {
    normal_form(on, join_of(on, config_dir, SHORTCUT_PATH@))
}

/// A directory of the user, as the host gives it.
#[derive(Debug, PartialEq, Eq)]
pub enum HostDir {
    /// The host has none.
    Missing,
    /// The host has one whose path is no Unicode text.
    NotUnicode,
    /// The host has one at this path.
    At(String),
}

/// Calls `dirs::config_dir`, which finds the user's configuration directory.
/// The result depends on the host, so nothing is said of it.
#[verifier::external_body]
fn config_dir() -> (r: HostDir) {
    match dirs::config_dir() {
        None => HostDir::Missing,
        Some(dir) => match dir.into_os_string().into_string() {
            Ok(path) => HostDir::At(path),
            Err(_) => HostDir::NotUnicode,
        },
    }
}

/// Returns the directory of start menu entries below `config_dir`.
pub fn shortcut_dir_in(on: Platform, config_dir: &str) -> (r: String)
    ensures
        r@ == shortcut_dir_of(on, config_dir@),
{
    let dir = join(on, config_dir, SHORTCUT_PATH);
    normalize_path(on, dir.as_str())
}

/// Returns the directory of start menu entries for a configuration directory.
pub fn shortcut_dir_for(on: Platform, config: &HostDir) -> (r: HostDir)
    ensures
        match config {
            HostDir::Missing => r is Missing,
            HostDir::NotUnicode => r is NotUnicode,
            HostDir::At(dir) => r matches HostDir::At(path) && path@ == shortcut_dir_of(
                on,
                dir@,
            ),
        },
{
    match config {
        HostDir::Missing => HostDir::Missing,
        HostDir::NotUnicode => HostDir::NotUnicode,
        HostDir::At(dir) => HostDir::At(shortcut_dir_in(on, dir.as_str())),
    }
}

/// Returns the user's directory of start menu entries.
pub fn shortcut_dir(on: Platform) -> (r: HostDir)
    ensures
        r matches HostDir::At(dir) ==> exists|config: Seq<char>|
            dir@ == #[trigger] shortcut_dir_of(on, config),
{
    shortcut_dir_for(on, &config_dir())
}

/// The error for a path that is empty or not below its directory.
pub open spec fn unsafe_path(path: Seq<char>) -> ErrorView {
    around("unsafe shortcut path '"@, path, "'"@)
}

/// A path of a shortcut is not empty and stays below its directory.
pub open spec fn is_shortcut_path(path: Seq<char>) -> bool {
    path.len() > 0 && is_safe(Platform::Windows, path)
}

/// Checks that a path is not empty and stays below the directory it is looked
/// up in. Manifests write paths as on Windows, so they are read that way on every
/// platform.
pub fn safe_relative(path: &str) -> (r: Result<String, Error>)
    ensures
        text_result(r) == if is_shortcut_path(path@) {
            Ok(path@)
        } else {
            Err(unsafe_path(path@))
        },
{
    if !path.is_empty() && is_safe_relative(Platform::Windows, path) {
        Ok(path.to_owned())
    } else {
        Err(message_around("unsafe shortcut path '", path, "'"))
    }
}

/// The file of a shortcut below the directory of entries: the name of the
/// shortcut with an extension, as long as that stays below the directory.
pub open spec fn relative_of(on: Platform, name: Seq<char>) -> Result<Seq<char>, ErrorView> {
    if !is_shortcut_path(name) {
        Err(unsafe_path(name))
    } else {
        match file_name_of(on, name) {
            None => Err(ErrorView::Custom("shortcut name cannot be empty"@)),
            Some(file) => {
                let out = join_of(
                    on,
                    match parent_of(on, name) {
                        Some(dir) => dir,
                        None => Seq::empty(),
                    },
                    file + ".lnk"@,
                );
                if is_safe(Platform::Windows, out) {
                    Ok(out)
                } else {
                    Err(unsafe_path(name))
                }
            },
        }
    }
}

/// Returns the file of a shortcut below the directory of entries.
pub fn shortcut_relative(on: Platform, name: &str) -> (r: Result<String, Error>)
    ensures
        text_result(r) == relative_of(on, name@),
{
    match safe_relative(name) {
        Err(error) => Err(error),
        Ok(path) => match file_name(on, path.as_str()) {
            None => Err(Error::Custom("shortcut name cannot be empty".to_owned())),
            Some(file) => {
                let dir = match parent(on, path.as_str()) {
                    Some(dir) => dir,
                    None => String::new(),
                };
                let mut leaf = file;
                leaf.append(".lnk");
                let out = join(on, dir.as_str(), leaf.as_str());
                if is_safe_relative(Platform::Windows, out.as_str()) {
                    Ok(out)
                } else {
                    Err(message_around("unsafe shortcut path '", name, "'"))
                }
            },
        },
    }
}

/// What a definition of a shortcut asks for, and what stops the step behind it.
pub struct StepsView {
    pub actions: Seq<ShortcutActionView>,
    pub error: Option<ErrorView>,
}

/// The script that makes a shortcut.
pub open spec fn creation(
    path: Seq<char>,
    target: Seq<char>,
    arguments: Seq<char>,
    icon: Seq<char>,
) -> ScriptView {
    ScriptView {
        label: "create-shortcut"@,
        source: CREATE_SHORTCUT_SCRIPT@,
        environment: seq![
            ("HOK_SHORTCUT_PATH"@, path),
            ("HOK_SHORTCUT_TARGET"@, target),
            ("HOK_SHORTCUT_ARGUMENTS"@, arguments),
            ("HOK_SHORTCUT_ICON"@, icon),
        ],
    }
}

/// The error for a target that is no file.
pub open spec fn missing_target(path: Seq<char>) -> ErrorView {
    around("shortcut target '"@, path, "' does not exist"@)
}

/// The error for an icon that is no file.
pub open spec fn missing_icon(path: Seq<char>) -> ErrorView {
    around("shortcut icon '"@, path, "' does not exist"@)
}

/// The arguments that a shortcut passes to its target.
pub open spec fn arguments_of(
    context: HookContext,
    package: Package,
    definition: Seq<Seq<char>>,
) -> Seq<char> {
    if definition.len() > 2 {
        expansion(context, package.version@, package.name@, definition[2])
    } else {
        Seq::empty()
    }
}

/// What remains once the target is there and the directory of the shortcut
/// exists: the icon is checked and the shortcut made.
pub open spec fn finish_of(
    context: HookContext,
    package: Package,
    shortcuts: Seq<char>,
    definition: Seq<Seq<char>>,
    relative: Seq<char>,
) -> StepsView {
    let path = join_of(context.platform, shortcuts, relative);
    let target = join_of(context.platform, context.dir@, definition[0]);
    let arguments = arguments_of(context, package, definition);
    let progress = ShortcutActionView::Emit(EventView::PackageShortcutAddProgress(relative));
    if definition.len() > 3 {
        if is_shortcut_path(definition[3]) {
            let icon = join_of(context.platform, context.dir@, definition[3]);
            StepsView {
                actions: seq![
                    ShortcutActionView::RequireFile { path: icon, error: missing_icon(icon) },
                    ShortcutActionView::Run(creation(path, target, arguments, icon)),
                    progress,
                ],
                error: None,
            }
        } else {
            StepsView { actions: seq![], error: Some(unsafe_path(definition[3])) }
        }
    } else {
        StepsView {
            actions: seq![
                ShortcutActionView::Run(creation(path, target, arguments, Seq::empty())),
                progress,
            ],
            error: None,
        }
    }
}

/// What a definition of a shortcut asks for.
pub open spec fn steps_of(
    context: HookContext,
    package: Package,
    shortcuts: Seq<char>,
    definition: Seq<Seq<char>>,
) -> StepsView {
    if !(2 <= definition.len() <= 4) {
        StepsView {
            actions: seq![],
            error: Some(around("invalid shortcut definition for '"@, package.name@, "'"@)),
        }
    } else if !is_shortcut_path(definition[0]) {
        StepsView { actions: seq![], error: Some(unsafe_path(definition[0])) }
    } else {
        let target = join_of(context.platform, context.dir@, definition[0]);
        let check = ShortcutActionView::RequireFile {
            path: target,
            error: missing_target(target),
        };
        match relative_of(context.platform, definition[1]) {
            Err(error) => StepsView { actions: seq![check], error: Some(error) },
            Ok(relative) => {
                let prepare = ShortcutActionView::EnsureParent {
                    parent: parent_of(context.platform, join_of(context.platform, shortcuts, relative)),
                };
                let finish = finish_of(context, package, shortcuts, definition, relative);
                StepsView { actions: seq![check, prepare] + finish.actions, error: finish.error }
            },
        }
    }
}

/// What a list of definitions asks for, up to the first error.
pub open spec fn all_steps_of(
    context: HookContext,
    package: Package,
    shortcuts: Seq<char>,
    definitions: Seq<Seq<Seq<char>>>,
) -> StepsView
    decreases definitions.len(),
{
    if definitions.len() == 0 {
        StepsView { actions: seq![], error: None }
    } else {
        let before = all_steps_of(context, package, shortcuts, definitions.drop_last());
        if before.error is Some {
            before
        } else {
            let next = steps_of(context, package, shortcuts, definitions.last());
            StepsView { actions: before.actions + next.actions, error: next.error }
        }
    }
}

/// An error among the first definitions is the error of all of them.
pub proof fn lemma_all_steps_error(
    context: HookContext,
    package: Package,
    shortcuts: Seq<char>,
    definitions: Seq<Seq<Seq<char>>>,
    k: int,
)
    requires
        0 <= k <= definitions.len(),
        all_steps_of(context, package, shortcuts, definitions.take(k)).error is Some,
    ensures
        all_steps_of(context, package, shortcuts, definitions) == all_steps_of(
            context,
            package,
            shortcuts,
            definitions.take(k),
        ),
    decreases definitions.len(),
{
    if k < definitions.len() {
        assert(definitions.drop_last().take(k) =~= definitions.take(k));
        lemma_all_steps_error(context, package, shortcuts, definitions.drop_last(), k);
    } else {
        assert(definitions.take(k) =~= definitions);
    }
}

/// Builds the script that makes a shortcut.
fn creation_script(path: &str, target: &str, arguments: &str, icon: &str) -> (r: Script)
    ensures
        r@ == creation(path@, target@, arguments@, icon@),
{
    let mut environment: Vec<(String, String)> = Vec::new();
    assert(pair_views(environment@) =~= Seq::<(Seq<char>, Seq<char>)>::empty());
    push_pair(&mut environment, "HOK_SHORTCUT_PATH", path);
    push_pair(&mut environment, "HOK_SHORTCUT_TARGET", target);
    push_pair(&mut environment, "HOK_SHORTCUT_ARGUMENTS", arguments);
    push_pair(&mut environment, "HOK_SHORTCUT_ICON", icon);
    assert(pair_views(environment@) =~= creation(path@, target@, arguments@, icon@).environment);
    Script {
        label: "create-shortcut".to_owned(),
        source: CREATE_SHORTCUT_SCRIPT.to_owned(),
        environment,
    }
}

/// The view of an error that may be there.
pub open spec fn error_of(error: Option<Error>) -> Option<ErrorView> {
    match error {
        Some(e) => Some(e@),
        None => None,
    }
}

/// Adds what remains once the target is there and the directory exists.
fn plan_finish(
    package: &Package,
    context: &HookContext,
    shortcuts: &str,
    definition: &Vec<String>,
    relative: &str,
    out: &mut Vec<ShortcutAction>,
) -> (r: Option<Error>)
    requires
        2 <= definition@.len() <= 4,
    ensures
        ({
            let steps = finish_of(
                *context,
                *package,
                shortcuts@,
                views(definition@),
                relative@,
            );
            &&& actions_of(final(out)@) == actions_of(old(out)@) + steps.actions
            &&& error_of(r) == steps.error
        }),
{
    let on = context.platform;
    let ghost steps = finish_of(*context, *package, shortcuts@, views(definition@), relative@);
    let path = join(on, shortcuts, relative);
    let target = join(on, context.dir.as_str(), definition[0].as_str());
    let arguments = if definition.len() > 2 {
        context.expand(definition[2].as_str(), package)
    } else {
        String::new()
    };
    assert(arguments@ == arguments_of(*context, *package, views(definition@)));
    let mut icon = String::new();
    if definition.len() > 3 {
        match safe_relative(definition[3].as_str()) {
            Ok(safe) => {
                icon = join(on, context.dir.as_str(), safe.as_str());
                let error = message_around("shortcut icon '", icon.as_str(), "' does not exist");
                push_action(out, ShortcutAction::RequireFile { path: icon.clone(), error });
            },
            Err(error) => {
                assert(actions_of(out@) =~= actions_of(old(out)@) + steps.actions);
                return Some(error);
            },
        }
    }
    let script = creation_script(
        path.as_str(),
        target.as_str(),
        arguments.as_str(),
        icon.as_str(),
    );
    push_action(out, ShortcutAction::Run(script));
    push_action(
        out,
        ShortcutAction::Emit(Event::PackageShortcutAddProgress(relative.to_owned())),
    );
    assert(actions_of(out@) =~= actions_of(old(out)@) + steps.actions);
    None
}

/// Adds what a definition of a shortcut asks for.
fn plan_definition(
    package: &Package,
    context: &HookContext,
    shortcuts: &str,
    definition: &Vec<String>,
    out: &mut Vec<ShortcutAction>,
) -> (r: Option<Error>)
    ensures
        ({
            let steps = steps_of(*context, *package, shortcuts@, views(definition@));
            &&& actions_of(final(out)@) == actions_of(old(out)@) + steps.actions
            &&& error_of(r) == steps.error
        }),
{
    let on = context.platform;
    let ghost steps = steps_of(*context, *package, shortcuts@, views(definition@));
    let ghost before = actions_of(out@);
    if !(2 <= definition.len() && definition.len() <= 4) {
        assert(before + steps.actions =~= before);
        return Some(
            message_around("invalid shortcut definition for '", package.name.as_str(), "'"),
        );
    }
    match safe_relative(definition[0].as_str()) {
        Err(error) => {
            assert(before + steps.actions =~= before);
            return Some(error);
        },
        Ok(safe) => {
            let target = join(on, context.dir.as_str(), safe.as_str());
            let error = message_around("shortcut target '", target.as_str(), "' does not exist");
            push_action(out, ShortcutAction::RequireFile { path: target, error });
        },
    }
    match shortcut_relative(on, definition[1].as_str()) {
        Err(error) => {
            assert(actions_of(out@) =~= before + steps.actions);
            Some(error)
        },
        Ok(relative) => {
            let path = join(on, shortcuts, relative.as_str());
            push_action(out, ShortcutAction::EnsureParent { parent: parent(on, path.as_str()) });
            let error = plan_finish(
                package,
                context,
                shortcuts,
                definition,
                relative.as_str(),
                out,
            );
            assert(actions_of(out@) =~= before + steps.actions);
            error
        },
    }
}

/// A whole step: it tells that it starts, and how it ends.
pub open spec fn framed(start: EventView, steps: StepsView, done: EventView) -> Seq<
    ShortcutActionView,
> {
    seq![ShortcutActionView::Emit(start)] + steps.actions + seq![
        match steps.error {
            Some(error) => ShortcutActionView::Fail(error),
            None => ShortcutActionView::Emit(done),
        },
    ]
}

/// How the shortcuts of a package are made.
pub open spec fn planned_shortcuts(
    package: Package,
    context: HookContext,
    shortcuts: Seq<char>,
) -> Seq<ShortcutActionView> {
    match package.manifest.shortcuts {
        Some(list) => framed(
            EventView::PackageShortcutAddStart,
            all_steps_of(context, package, shortcuts, definitions_of(list@)),
            EventView::PackageShortcutAddDone,
        ),
        None => Seq::empty(),
    }
}

/// Plans how the shortcuts of a package are made in the directory `shortcuts`.
/// A package without shortcuts asks for nothing.
pub fn add(package: &Package, context: &HookContext, shortcuts: &str) -> (r: Vec<ShortcutAction>)
    ensures
        actions_of(r@) == planned_shortcuts(*package, *context, shortcuts@),
{
    let mut out: Vec<ShortcutAction> = Vec::new();
    assert(actions_of(out@) =~= Seq::<ShortcutActionView>::empty());
    if let Some(list) = &package.manifest.shortcuts {
        let ghost all = definitions_of(list@);
        let ghost head = seq![ShortcutActionView::Emit(EventView::PackageShortcutAddStart)];
        push_action(&mut out, ShortcutAction::Emit(Event::PackageShortcutAddStart));
        let mut i: usize = 0;
        assert(actions_of(out@) =~= head + all_steps_of(
            *context,
            *package,
            shortcuts@,
            all.take(0),
        ).actions);
        while i < list.len()
            invariant
                i <= list@.len(),
                all == definitions_of(list@),
                package.manifest.shortcuts == Some(*list),
                head == seq![ShortcutActionView::Emit(EventView::PackageShortcutAddStart)],
                actions_of(out@) == head + all_steps_of(
                    *context,
                    *package,
                    shortcuts@,
                    all.take(i as int),
                ).actions,
                all_steps_of(*context, *package, shortcuts@, all.take(i as int)).error is None,
            decreases list@.len() - i,
        {
            let ghost shown = all.take(i + 1);
            assert(shown.drop_last() =~= all.take(i as int));
            assert(shown.last() == views(list@[i as int]@));
            let failed = plan_definition(package, context, shortcuts, &list[i], &mut out);
            assert(actions_of(out@) =~= head + all_steps_of(
                *context,
                *package,
                shortcuts@,
                shown,
            ).actions);
            if let Some(error) = failed {
                proof {
                    lemma_all_steps_error(*context, *package, shortcuts@, all, i + 1);
                }
                push_action(&mut out, ShortcutAction::Fail(error));
                assert(actions_of(out@) =~= framed(
                    EventView::PackageShortcutAddStart,
                    all_steps_of(*context, *package, shortcuts@, all),
                    EventView::PackageShortcutAddDone,
                ));
                return out;
            }
            i = i + 1;
        }
        assert(all.take(i as int) =~= all);
        push_action(&mut out, ShortcutAction::Emit(Event::PackageShortcutAddDone));
        assert(actions_of(out@) =~= framed(
            EventView::PackageShortcutAddStart,
            all_steps_of(*context, *package, shortcuts@, all),
            EventView::PackageShortcutAddDone,
        ));
    }
    out
}

/// What the removal of the shortcuts in a list of definitions asks for, up to
/// the first error. A definition without a name is passed over.
pub open spec fn removals_of(
    on: Platform,
    shortcuts: Seq<char>,
    definitions: Seq<Seq<Seq<char>>>,
) -> StepsView
    decreases definitions.len(),
{
    if definitions.len() == 0 {
        StepsView { actions: seq![], error: None }
    } else {
        let before = removals_of(on, shortcuts, definitions.drop_last());
        let definition = definitions.last();
        if before.error is Some || definition.len() < 2 {
            before
        } else {
            match relative_of(on, definition[1]) {
                Err(error) => StepsView { actions: before.actions, error: Some(error) },
                Ok(relative) => StepsView {
                    actions: before.actions + seq![
                        ShortcutActionView::Emit(
                            EventView::PackageShortcutRemoveProgress(relative),
                        ),
                        ShortcutActionView::RemoveFile { path: join_of(on, shortcuts, relative) },
                    ],
                    error: None,
                },
            }
        }
    }
}

/// An error among the first definitions is the error of all of them.
pub proof fn lemma_removals_error(
    on: Platform,
    shortcuts: Seq<char>,
    definitions: Seq<Seq<Seq<char>>>,
    k: int,
)
    requires
        0 <= k <= definitions.len(),
        removals_of(on, shortcuts, definitions.take(k)).error is Some,
    ensures
        removals_of(on, shortcuts, definitions) == removals_of(on, shortcuts, definitions.take(k)),
    decreases definitions.len(),
{
    if k < definitions.len() {
        assert(definitions.drop_last().take(k) =~= definitions.take(k));
        lemma_removals_error(on, shortcuts, definitions.drop_last(), k);
    } else {
        assert(definitions.take(k) =~= definitions);
    }
}

/// How the shortcuts of a package are removed.
pub open spec fn planned_removals(
    session: Session,
    package: Package,
    shortcuts: Seq<char>,
) -> Seq<ShortcutActionView> {
    match package.manifest.shortcuts {
        Some(list) => framed(
            EventView::PackageShortcutRemoveStart,
            removals_of(session.platform, shortcuts, definitions_of(list@)),
            EventView::PackageShortcutRemoveDone,
        ),
        None => Seq::empty(),
    }
}

/// Plans how the shortcuts of an installed package are removed from the
/// directory `shortcuts`.
pub fn remove(session: &Session, package: &Package, shortcuts: &str) -> (r: Vec<ShortcutAction>)
    requires
        package.is_installed(),
    ensures
        actions_of(r@) == planned_removals(*session, *package, shortcuts@),
{
    let mut out: Vec<ShortcutAction> = Vec::new();
    assert(actions_of(out@) =~= Seq::<ShortcutActionView>::empty());
    if let Some(list) = &package.manifest.shortcuts {
        let on = session.platform;
        let ghost all = definitions_of(list@);
        let ghost head = seq![ShortcutActionView::Emit(EventView::PackageShortcutRemoveStart)];
        push_action(&mut out, ShortcutAction::Emit(Event::PackageShortcutRemoveStart));
        let mut i: usize = 0;
        assert(actions_of(out@) =~= head + removals_of(on, shortcuts@, all.take(0)).actions);
        while i < list.len()
            invariant
                i <= list@.len(),
                all == definitions_of(list@),
                on == session.platform,
                package.manifest.shortcuts == Some(*list),
                head == seq![ShortcutActionView::Emit(EventView::PackageShortcutRemoveStart)],
                actions_of(out@) == head + removals_of(on, shortcuts@, all.take(i as int)).actions,
                removals_of(on, shortcuts@, all.take(i as int)).error is None,
            decreases list@.len() - i,
        {
            let ghost shown = all.take(i + 1);
            assert(shown.drop_last() =~= all.take(i as int));
            assert(shown.last() == views(list@[i as int]@));
            if list[i].len() >= 2 {
                match shortcut_relative(on, list[i][1].as_str()) {
                    Ok(relative) => {
                        let path = join(on, shortcuts, relative.as_str());
                        push_action(
                            &mut out,
                            ShortcutAction::Emit(Event::PackageShortcutRemoveProgress(relative)),
                        );
                        push_action(&mut out, ShortcutAction::RemoveFile { path });
                        assert(actions_of(out@) =~= head + removals_of(on, shortcuts@, shown).actions);
                    },
                    Err(error) => {
                        proof {
                            lemma_removals_error(on, shortcuts@, all, i + 1);
                        }
                        push_action(&mut out, ShortcutAction::Fail(error));
                        assert(actions_of(out@) =~= framed(
                            EventView::PackageShortcutRemoveStart,
                            removals_of(on, shortcuts@, all),
                            EventView::PackageShortcutRemoveDone,
                        ));
                        return out;
                    },
                }
            }
            i = i + 1;
        }
        assert(all.take(i as int) =~= all);
        push_action(&mut out, ShortcutAction::Emit(Event::PackageShortcutRemoveDone));
        assert(actions_of(out@) =~= framed(
            EventView::PackageShortcutRemoveStart,
            removals_of(on, shortcuts@, all),
            EventView::PackageShortcutRemoveDone,
        ));
    }
    out
}

} // verus!
