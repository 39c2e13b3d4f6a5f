//! What holds of shortcuts as a whole.

use crate::error::ErrorView;
use crate::event::EventView;
use crate::internal::path::{
    body_components, body_start, components_of, drive_at, file_name_of, has_physical_root, is_safe,
    is_separator, is_verbatim, join_of, join_separator, lemma_body_start, lemma_spans_ordered,
    normal_form, parent_of, piece_component, prefix, spans, ComponentView,
};
use crate::internal::path_laws::{
    extended, is_name, is_regular, join_keeps_prefix, join_stays_below, lemma_dotless_is_safe, lemma_piece_text,
    lemma_plain_piece, lemma_safe_is_unanchored, lemma_same_reading, names_of, normal_form_stays_below,
    parent_drops_the_last, safe_join_stays_below, windows_safe_is_safe,
};
use crate::package::Package;
use crate::persist::definitions_of;
use crate::script::{expansion, HookContext};
use crate::script_laws::{ends_with, holds_text, lemma_part, lemma_value, value_of};
use crate::session::{Platform, Session};
use crate::shortcut::{
    all_steps_of, finish_of, is_shortcut_path, lemma_all_steps_error, lemma_removals_error,
    planned_removals, planned_shortcuts, relative_of, removals_of, shortcut_dir_of, steps_of,
    ShortcutActionView, CREATE_SHORTCUT_SCRIPT,
};
use vstd::prelude::*;

verus! {

/// A shortcut path cannot escape: what is accepted is safe below every directory.
/// On Windows a name is accepted where it is a safe path that ends with a name
/// which does not start like a drive.
pub proof fn accepted_shortcuts_are_safe(on: Platform, name: Seq<char>)
    ensures
        relative_of(on, name) is Ok ==> is_safe(Platform::Windows, relative_of(on, name)->Ok_0)
            && is_safe(on, relative_of(on, name)->Ok_0),
        on is Windows ==> (relative_of(on, name) is Ok <==> is_shortcut_path(name)
            && file_name_of(on, name) is Some && !drive_at(file_name_of(on, name)->0, 0)),
{
    if relative_of(on, name) is Ok {
        windows_safe_is_safe(on, relative_of(on, name)->Ok_0);
    }
    if on is Windows && is_shortcut_path(name) && file_name_of(on, name) is Some {
        let file = file_name_of(on, name)->0;
        if drive_at(file, 0) {
            let leaf = file + ".lnk"@;
            lemma_safe_is_unanchored(on, name);
            lemma_body_start(on, name);
            lemma_piece_text(on, name, components_of(on, name).len() - 1);
            assert(leaf[0] == file[0] && leaf[1] == file[1]);
            assert(!is_separator(on, file[0]));
            assert(prefix(on, leaf) is Some);
            assert(components_of(on, leaf)[0] is Prefix);
        } else {
            lemma_accepted(on, name);
        }
    }
}

/// Elsewhere than on Windows, a safe name that ends with a name is accepted where it
/// holds nothing that Windows takes for a separator or a drive.
pub proof fn plain_shortcuts_are_accepted(on: Platform, name: Seq<char>)
    requires
        name.len() > 0,
        is_safe(Platform::Windows, name),
        file_name_of(on, name) is Some,
        !name.contains('\\'),
        !name.contains(':'),
    ensures
        relative_of(on, name) is Ok,
{
    windows_safe_is_safe(on, name);
    let file = file_name_of(on, name)->0;
    if on is Windows && drive_at(file, 0) {
        lemma_safe_is_unanchored(on, name);
        lemma_body_start(on, name);
        lemma_spans_ordered(on, name, body_start(on, name), false);
        let list = spans(on, name);
        assert(body_components(on, name, body_start(on, name), false).len() == list.len());
        let (a, b) = list[list.len() - 1];
        assert(components_of(on, name).last() == piece_component(name.subrange(a, b)));
        assert(file[1] == name[a + 1]);
        assert(name.contains(name[a + 1]));
    }
    lemma_accepted(on, name);
}

/// The file of a shortcut has the components of the shortcut's name, with the
/// extension at the last one.
pub proof fn shortcut_stays_relative(on: Platform, name: Seq<char>)
    requires
        relative_of(on, name) is Ok,
    ensures
        components_of(on, relative_of(on, name)->Ok_0) == components_of(
            on,
            name,
        ).drop_last().push(ComponentView::Normal(file_name_of(on, name)->0 + ".lnk"@)),
{
    accepted_shortcuts_are_safe(on, name);
    lemma_accepted(on, name);
}

proof fn lemma_accepted(on: Platform, name: Seq<char>)
    requires
        is_shortcut_path(name),
        file_name_of(on, name) is Some,
        on is Windows ==> !drive_at(file_name_of(on, name)->0, 0),
    ensures
        on is Windows || !(name.contains('\\') || name.contains(':')) ==> relative_of(
            on,
            name,
        ) is Ok,
        relative_of(on, name) is Ok ==> components_of(on, relative_of(on, name)->Ok_0)
            == components_of(on, name).drop_last().push(
            ComponentView::Normal(file_name_of(on, name)->0 + ".lnk"@),
        ),
{
    windows_safe_is_safe(on, name);
    lemma_safe_is_unanchored(on, name);
    lemma_body_start(on, name);
    reveal_strlit(".lnk");
    let file = file_name_of(on, name)->0;
    let leaf = file + ".lnk"@;
    let all = components_of(on, name);
    lemma_piece_text(on, name, all.len() - 1);
    assert(leaf[0] == file[0]);
    assert forall|k: int| 0 <= k < leaf.len() implies !is_separator(on, #[trigger] leaf[k]) by {
        if k < file.len() {
            assert(leaf[k] == file[k]);
        }
    }
    if on is Windows {
        assert(!drive_at(leaf, 0)) by {
            if drive_at(leaf, 0) {
                if file.len() > 1 {
                    assert(leaf[1] == file[1]);
                } else {
                    assert(leaf[1] == '.');
                }
            }
        }
    }
    lemma_plain_piece(on, leaf);
    assert(parent_of(on, name) is Some) by {
        if parent_of(on, name) is None {
            assert(all =~= Seq::<ComponentView>::empty());
        }
    }
    parent_drops_the_last(on, name);
    let dir = parent_of(on, name)->0;
    let path = join_of(on, dir, leaf);
    assert(!is_verbatim(on, dir));
    if dir.len() > 0 {
        join_keeps_prefix(on, dir, leaf);
    } else {
        assert(path =~= leaf);
    }
    join_stays_below(on, dir, leaf);
    assert(names_of(on, leaf) =~= seq![ComponentView::Normal(leaf)]);
    let expected = all.drop_last().push(ComponentView::Normal(leaf));
    assert(components_of(on, path) =~= expected);
    assert forall|i: int| 0 <= i < components_of(on, path).len() implies !(
    #[trigger] components_of(on, path)[i] is Prefix || components_of(on, path)[i] is RootDir
        || components_of(on, path)[i] is ParentDir) by {
        if i < all.len() - 1 {
            assert(components_of(on, path)[i] == all[i]);
        }
    }
    assert(is_safe(on, path));
    if on is Unix && !(name.contains('\\') || name.contains(':')) {
        assert forall|k: int| 0 <= k < path.len() implies path[k] != '\\' && path[k] != ':' by {
            lemma_plain_char(on, name, dir, file, path, k);
        }
        assert(!path.contains('\\'));
        assert(path.len() > 0 && path[0] != '/') by {
            lemma_safe_is_unanchored(on, path);
        }
        lemma_same_reading(path);
    }
}

/// Every character of a shortcut's file comes from the name, the separator or the
/// extension.
proof fn lemma_plain_char(
    on: Platform,
    name: Seq<char>,
    dir: Seq<char>,
    file: Seq<char>,
    path: Seq<char>,
    k: int,
)
    requires
        on is Unix,
        0 <= k < path.len(),
        is_safe(on, name),
        file_name_of(on, name) == Some(file),
        parent_of(on, name) == Some(dir),
        path == join_of(on, dir, file + ".lnk"@),
        !name.contains('\\'),
        !name.contains(':'),
        !has_physical_root(on, file + ".lnk"@),
    ensures
        path[k] != '\\',
        path[k] != ':',
{
    reveal_strlit(".lnk");
    let leaf = file + ".lnk"@;
    let start = dir + join_separator(on, dir);
    assert(path =~= start + leaf);
    lemma_safe_is_unanchored(on, name);
    lemma_body_start(on, name);
    lemma_spans_ordered(on, name, body_start(on, name), false);
    let list = spans(on, name);
    assert(body_components(on, name, body_start(on, name), false).len() == list.len());
    if k < dir.len() {
        assert(dir[k] == name[k]);
        assert(name.contains(name[k]));
    } else if k >= start.len() && k < start.len() + file.len() {
        let (a, b) = list[list.len() - 1];
        assert(components_of(on, name).last() == piece_component(name.subrange(a, b)));
        assert(file == name.subrange(a, b));
        let j = k - start.len();
        assert(path[k] == file[j]);
        assert(file[j] == name[a + j]);
        assert(name.contains(name[a + j]));
    } else if k >= start.len() {
        assert(path[k] == ".lnk"@[k - start.len() - file.len()]);
    }
}

/// The file of a shortcut lies strictly below a regular directory of entries: its
/// names, of which there is at least one, follow the components of the directory.
pub proof fn shortcut_stays_below(on: Platform, shortcuts: Seq<char>, name: Seq<char>)
    requires
        relative_of(on, name) is Ok,
        is_regular(on, shortcuts),
    ensures
        components_of(on, join_of(on, shortcuts, relative_of(on, name)->Ok_0)) == extended(
            on,
            shortcuts,
            relative_of(on, name)->Ok_0,
        ),
        names_of(on, relative_of(on, name)->Ok_0).len() > 0,
{
    shortcut_stays_relative(on, name);
    accepted_shortcuts_are_safe(on, name);
    let relative = relative_of(on, name)->Ok_0;
    safe_join_stays_below(on, shortcuts, relative);
    lemma_safe_is_unanchored(on, relative);
    lemma_body_start(on, relative);
    assert(components_of(on, relative).last() is Normal);
}

/// The files of the shortcuts that a list of actions makes.
pub open spec fn made(actions: Seq<ShortcutActionView>) -> Seq<Seq<char>>
    decreases actions.len(),
{
    if actions.len() == 0 {
        Seq::empty()
    } else {
        let before = made(actions.drop_last());
        match actions.last() {
            ShortcutActionView::Run(script) => before.push(script.environment[0].1),
            _ => before,
        }
    }
}

/// The files that a list of actions removes.
pub open spec fn removed(actions: Seq<ShortcutActionView>) -> Seq<Seq<char>>
    decreases actions.len(),
{
    if actions.len() == 0 {
        Seq::empty()
    } else {
        let before = removed(actions.drop_last());
        match actions.last() {
            ShortcutActionView::RemoveFile { path } => before.push(path),
            _ => before,
        }
    }
}

proof fn lemma_made_concat(a: Seq<ShortcutActionView>, b: Seq<ShortcutActionView>)
    ensures
        made(a + b) == made(a) + made(b),
    decreases b.len(),
{
    if b.len() == 0 {
        assert(a + b =~= a);
        assert(made(a) + made(b) =~= made(a));
    } else {
        assert((a + b).drop_last() =~= a + b.drop_last());
        lemma_made_concat(a, b.drop_last());
        assert(made(a + b) =~= made(a) + made(b));
    }
}

proof fn lemma_removed_concat(a: Seq<ShortcutActionView>, b: Seq<ShortcutActionView>)
    ensures
        removed(a + b) == removed(a) + removed(b),
    decreases b.len(),
{
    if b.len() == 0 {
        assert(a + b =~= a);
        assert(removed(a) + removed(b) =~= removed(a));
    } else {
        assert((a + b).drop_last() =~= a + b.drop_last());
        lemma_removed_concat(a, b.drop_last());
        assert(removed(a + b) =~= removed(a) + removed(b));
    }
}

/// What a single action makes and removes.
proof fn lemma_single(action: ShortcutActionView)
    ensures
        made(seq![action]) == match action {
            ShortcutActionView::Run(script) => seq![script.environment[0].1],
            _ => Seq::empty(),
        },
        removed(seq![action]) == match action {
            ShortcutActionView::RemoveFile { path } => seq![path],
            _ => Seq::empty(),
        },
{
    let list = seq![action];
    assert(list.drop_last() =~= Seq::<ShortcutActionView>::empty());
    assert(made(list.drop_last()) =~= Seq::<Seq<char>>::empty());
    assert(removed(list.drop_last()) =~= Seq::<Seq<char>>::empty());
    assert(list.last() == action);
}

/// A definition makes one shortcut.
proof fn lemma_made_once(
    context: HookContext,
    package: Package,
    shortcuts: Seq<char>,
    definition: Seq<Seq<char>>,
)
    requires
        steps_of(context, package, shortcuts, definition).error is None,
    ensures
        relative_of(context.platform, definition[1]) is Ok,
        made(steps_of(context, package, shortcuts, definition).actions) == seq![
            join_of(context.platform, shortcuts, relative_of(context.platform, definition[1])->Ok_0),
        ],
{
    let actions = steps_of(context, package, shortcuts, definition).actions;
    let relative = relative_of(context.platform, definition[1])->Ok_0;
    let finish = finish_of(context, package, shortcuts, definition, relative).actions;
    let n = finish.len() as int;
    assert(actions =~= seq![actions[0]] + (seq![actions[1]] + finish));
    lemma_made_concat(seq![actions[0]], seq![actions[1]] + finish);
    lemma_made_concat(seq![actions[1]], finish);
    lemma_single(actions[0]);
    lemma_single(actions[1]);
    let run = finish[n - 2];
    let told = finish[n - 1];
    lemma_single(run);
    lemma_single(told);
    lemma_made_concat(seq![run], seq![told]);
    if n == 3 {
        assert(finish =~= seq![finish[0]] + (seq![run] + seq![told]));
        lemma_single(finish[0]);
        lemma_made_concat(seq![finish[0]], seq![run] + seq![told]);
    } else {
        assert(finish =~= seq![run] + seq![told]);
    }
    assert(made(actions) =~= seq![join_of(context.platform, shortcuts, relative)]);
}

/// Removing the shortcuts of a package removes what adding them made: where
/// nothing stops the adding, nothing stops the removing, and the files that are
/// removed are those that were made, in the same order.
pub proof fn remove_undoes_add(
    context: HookContext,
    package: Package,
    shortcuts: Seq<char>,
    definitions: Seq<Seq<Seq<char>>>,
)
    requires
        all_steps_of(context, package, shortcuts, definitions).error is None,
    ensures
        removals_of(context.platform, shortcuts, definitions).error is None,
        removed(removals_of(context.platform, shortcuts, definitions).actions) == made(
            all_steps_of(context, package, shortcuts, definitions).actions,
        ),
    decreases definitions.len(),
{
    if definitions.len() > 0 {
        let shorter = definitions.drop_last();
        let definition = definitions.last();
        remove_undoes_add(context, package, shortcuts, shorter);
        let before = all_steps_of(context, package, shortcuts, shorter);
        let next = steps_of(context, package, shortcuts, definition);
        lemma_made_concat(before.actions, next.actions);
        lemma_made_once(context, package, shortcuts, definition);
        let relative = relative_of(context.platform, definition[1])->Ok_0;
        let told = ShortcutActionView::Emit(EventView::PackageShortcutRemoveProgress(relative));
        let file = join_of(context.platform, shortcuts, relative);
        let gone = ShortcutActionView::RemoveFile { path: file };
        let earlier = removals_of(context.platform, shortcuts, shorter).actions;
        assert(removals_of(context.platform, shortcuts, definitions).actions =~= earlier + (seq![told]
            + seq![gone]));
        lemma_removed_concat(earlier, seq![told] + seq![gone]);
        lemma_removed_concat(seq![told], seq![gone]);
        lemma_single(told);
        lemma_single(gone);
        assert(removed(seq![told] + seq![gone]) =~= seq![file]);
    } else {
        assert(made(Seq::<ShortcutActionView>::empty()) =~= removed(
            Seq::<ShortcutActionView>::empty(),
        ));
    }
}

/// An accepted definition makes its shortcut as it says: the script that makes it finds
/// the file of the shortcut, the target, the arguments and the icon in the variables of
/// these names. The arguments are the third text with its variables written out,
/// whether or not there is an icon, and the icon is the fourth text, looked up like the
/// target. Texts that are not there are empty.
#[verifier::rlimit(50)]
pub proof fn shortcuts_are_made_as_defined(
    context: HookContext,
    package: Package,
    shortcuts: Seq<char>,
    definition: Seq<Seq<char>>,
)
    requires
        steps_of(context, package, shortcuts, definition).error is None,
    ensures
        ({
            let on = context.platform;
            let actions = steps_of(context, package, shortcuts, definition).actions;
            let n = actions.len() as int;
            let relative = relative_of(on, definition[1])->Ok_0;
            &&& n >= 2
            &&& actions[n - 2] matches ShortcutActionView::Run(script)
            &&& script.source == CREATE_SHORTCUT_SCRIPT@
            &&& script.label == "create-shortcut"@
            &&& script.environment.len() == 4
            &&& value_of(script.environment, "HOK_SHORTCUT_PATH"@) == Some(
                join_of(on, shortcuts, relative),
            )
            &&& value_of(script.environment, "HOK_SHORTCUT_TARGET"@) == Some(
                join_of(on, context.dir@, definition[0]),
            )
            &&& value_of(script.environment, "HOK_SHORTCUT_ARGUMENTS"@) == Some(
                if definition.len() >= 3 {
                    expansion(context, package.version@, package.name@, definition[2])
                } else {
                    Seq::empty()
                },
            )
            &&& value_of(script.environment, "HOK_SHORTCUT_ICON"@) == Some(
                if definition.len() == 4 {
                    join_of(on, context.dir@, definition[3])
                } else {
                    Seq::empty()
                },
            )
            &&& actions[n - 1] == ShortcutActionView::Emit(
                EventView::PackageShortcutAddProgress(relative),
            )
        }),
{
    let on = context.platform;
    let actions = steps_of(context, package, shortcuts, definition).actions;
    let relative = relative_of(on, definition[1])->Ok_0;
    let finish = finish_of(context, package, shortcuts, definition, relative).actions;
    let n = actions.len() as int;
    assert(actions[n - 2] == finish[finish.len() - 2]);
    assert(actions[n - 1] == finish[finish.len() - 1]);
    let environment = actions[n - 2]->Run_0.environment;
    reveal_strlit("HOK_SHORTCUT_PATH");
    reveal_strlit("HOK_SHORTCUT_TARGET");
    reveal_strlit("HOK_SHORTCUT_ARGUMENTS");
    reveal_strlit("HOK_SHORTCUT_ICON");
    assert("HOK_SHORTCUT_PATH"@[13] != "HOK_SHORTCUT_ICON"@[13]);
    assert("HOK_SHORTCUT_PATH"@.len() != "HOK_SHORTCUT_TARGET"@.len());
    assert("HOK_SHORTCUT_PATH"@.len() != "HOK_SHORTCUT_ARGUMENTS"@.len());
    assert("HOK_SHORTCUT_TARGET"@.len() != "HOK_SHORTCUT_ARGUMENTS"@.len());
    assert("HOK_SHORTCUT_TARGET"@.len() != "HOK_SHORTCUT_ICON"@.len());
    assert("HOK_SHORTCUT_ARGUMENTS"@.len() != "HOK_SHORTCUT_ICON"@.len());
    lemma_value(environment, 0);
    lemma_value(environment, 1);
    lemma_value(environment, 2);
    lemma_value(environment, 3);
}

/// Before a shortcut is made, its target and its icon are checked to be files, and the
/// directory that holds it is asked for. No other script runs.
pub proof fn shortcuts_are_checked_first(
    context: HookContext,
    package: Package,
    shortcuts: Seq<char>,
    definition: Seq<Seq<char>>,
    i: int,
)
    requires
        steps_of(context, package, shortcuts, definition).error is None,
        0 <= i < steps_of(context, package, shortcuts, definition).actions.len(),
    ensures
        ({
            let on = context.platform;
            let actions = steps_of(context, package, shortcuts, definition).actions;
            let n = actions.len() as int;
            let target = join_of(on, context.dir@, definition[0]);
            let file = join_of(on, shortcuts, relative_of(on, definition[1])->Ok_0);
            &&& n >= 4
            &&& actions[0] == (ShortcutActionView::RequireFile {
                path: target,
                error: ErrorView::Custom("shortcut target '"@ + target + "' does not exist"@),
            })
            &&& actions[1] == (ShortcutActionView::EnsureParent { parent: parent_of(on, file) })
            &&& n == if definition.len() == 4 {
                5int
            } else {
                4
            }
            &&& definition.len() == 4 ==> ({
                let icon = join_of(on, context.dir@, definition[3]);
                actions[2] == (ShortcutActionView::RequireFile {
                    path: icon,
                    error: ErrorView::Custom("shortcut icon '"@ + icon + "' does not exist"@),
                })
            })
            &&& actions[i] is Run <==> i == n - 2
        }),
{
}

/// A definition is accepted exactly where it has two to four texts, its target and its
/// icon are paths that are not empty and stay below the application, and its name
/// gives a file below the directory of entries. The error of a refused one tells why.
pub proof fn definitions_are_judged(
    context: HookContext,
    package: Package,
    shortcuts: Seq<char>,
    definition: Seq<Seq<char>>,
)
    ensures
        ({
            let error = steps_of(context, package, shortcuts, definition).error;
            let windows = Platform::Windows;
            let named = relative_of(context.platform, definition[1]);
            if definition.len() < 2 || definition.len() > 4 {
                error == Some(
                    ErrorView::Custom("invalid shortcut definition for '"@ + package.name@ + "'"@),
                )
            } else if definition[0].len() == 0 || !is_safe(windows, definition[0]) {
                error == Some(
                    ErrorView::Custom("unsafe shortcut path '"@ + definition[0] + "'"@),
                )
            } else if named is Err {
                error == Some(named->Err_0)
            } else if definition.len() == 4 && (definition[3].len() == 0 || !is_safe(
                windows,
                definition[3],
            )) {
                error == Some(
                    ErrorView::Custom("unsafe shortcut path '"@ + definition[3] + "'"@),
                )
            } else {
                error is None
            }
        }),
{
}

/// A name of a shortcut that is empty, or would lead out of the directory of entries,
/// is refused with the error that tells it, and so is one that ends with no name.
pub proof fn names_are_judged(on: Platform, name: Seq<char>)
    ensures
        name.len() == 0 || !is_safe(Platform::Windows, name) ==> relative_of(on, name) == Err::<
            Seq<char>,
            ErrorView,
        >(ErrorView::Custom("unsafe shortcut path '"@ + name + "'"@)),
        name.len() > 0 && is_safe(Platform::Windows, name) && file_name_of(on, name) is None
            ==> relative_of(on, name) == Err::<Seq<char>, ErrorView>(
            ErrorView::Custom("shortcut name cannot be empty"@),
        ),
        relative_of(on, name) matches Err(error) ==> file_name_of(on, name) is Some ==> error
            == ErrorView::Custom("unsafe shortcut path '"@ + name + "'"@),
{
}

/// What one definition asks for stands in the plan as a whole, behind what the
/// definitions in front of it ask for.
pub proof fn definitions_are_taken_in_order(
    context: HookContext,
    package: Package,
    shortcuts: Seq<char>,
    definitions: Seq<Seq<Seq<char>>>,
    k: int,
)
    requires
        all_steps_of(context, package, shortcuts, definitions).error is None,
        0 <= k < definitions.len(),
    ensures
        ({
            let all = all_steps_of(context, package, shortcuts, definitions).actions;
            let own = steps_of(context, package, shortcuts, definitions[k]);
            let at = all_steps_of(context, package, shortcuts, definitions.take(k)).actions.len() as int;
            &&& own.error is None
            &&& at + own.actions.len() <= all.len()
            &&& all.subrange(at, at + own.actions.len()) == own.actions
        }),
    decreases definitions.len(),
{
    let shorter = definitions.drop_last();
    let before = all_steps_of(context, package, shortcuts, shorter).actions;
    let all = all_steps_of(context, package, shortcuts, definitions).actions;
    let own = steps_of(context, package, shortcuts, definitions[k]).actions;
    let at = all_steps_of(context, package, shortcuts, definitions.take(k)).actions.len() as int;
    if k < definitions.len() - 1 {
        definitions_are_taken_in_order(context, package, shortcuts, shorter, k);
        assert(shorter.take(k) =~= definitions.take(k));
        assert(shorter[k] == definitions[k]);
        assert(all.subrange(at, at + own.len()) =~= before.subrange(
            at,
            at + own.len(),
        ));
    } else {
        assert(definitions.take(k) =~= shorter);
        assert(definitions[k] == definitions.last());
        assert(all.subrange(at, at + own.len()) =~= own);
    }
}

/// Every definition makes one shortcut, in order: the file that its name gives, in the
/// directory of entries.
pub proof fn shortcuts_follow_the_definitions(
    context: HookContext,
    package: Package,
    shortcuts: Seq<char>,
    definitions: Seq<Seq<Seq<char>>>,
)
    requires
        all_steps_of(context, package, shortcuts, definitions).error is None,
    ensures
        ({
            let files = made(all_steps_of(context, package, shortcuts, definitions).actions);
            &&& files.len() == definitions.len()
            &&& forall|i: int|
                0 <= i < definitions.len() ==> #[trigger] files[i] == join_of(
                    context.platform,
                    shortcuts,
                    relative_of(context.platform, definitions[i][1])->Ok_0,
                )
        }),
    decreases definitions.len(),
{
    if definitions.len() > 0 {
        let shorter = definitions.drop_last();
        shortcuts_follow_the_definitions(context, package, shortcuts, shorter);
        let before = all_steps_of(context, package, shortcuts, shorter);
        let next = steps_of(context, package, shortcuts, definitions.last());
        lemma_made_concat(before.actions, next.actions);
        lemma_made_once(context, package, shortcuts, definitions.last());
        let files = made(all_steps_of(context, package, shortcuts, definitions).actions);
        assert forall|i: int| 0 <= i < definitions.len() implies #[trigger] files[i] == join_of(
            context.platform,
            shortcuts,
            relative_of(context.platform, definitions[i][1])->Ok_0,
        ) by {
            if i < shorter.len() {
                assert(files[i] == made(before.actions)[i]);
                assert(definitions[i] == shorter[i]);
            }
        }
    }
}

/// The first definition that is refused stops the step: its error is told last, behind
/// what the definitions in front of it ask for.
pub proof fn refused_definitions_stop_the_step(
    context: HookContext,
    package: Package,
    shortcuts: Seq<char>,
    k: int,
)
    requires
        package.manifest.shortcuts is Some,
        0 <= k < package.manifest.shortcuts->0@.len(),
        all_steps_of(
            context,
            package,
            shortcuts,
            definitions_of(package.manifest.shortcuts->0@).take(k),
        ).error is None,
    ensures
        ({
            let definitions = definitions_of(package.manifest.shortcuts->0@);
            let own = steps_of(context, package, shortcuts, definitions[k]);
            match own.error {
                Some(error) => planned_shortcuts(package, context, shortcuts).last()
                    == ShortcutActionView::Fail(error),
                None => all_steps_of(
                    context,
                    package,
                    shortcuts,
                    definitions.take(k + 1),
                ).error is None,
            }
        }),
{
    let definitions = definitions_of(package.manifest.shortcuts->0@);
    let shown = definitions.take(k + 1);
    assert(shown.drop_last() =~= definitions.take(k));
    assert(shown.last() == definitions[k]);
    if all_steps_of(context, package, shortcuts, shown).error is Some {
        lemma_all_steps_error(context, package, shortcuts, definitions, k + 1);
    }
}

/// Making and removing shortcuts is told: a start comes first, and the end or the error
/// that stopped the step comes last. A package without shortcuts asks for nothing.
pub proof fn shortcut_steps_are_framed(
    session: Session,
    package: Package,
    context: HookContext,
    shortcuts: Seq<char>,
)
    ensures
        ({
            let adding = planned_shortcuts(package, context, shortcuts);
            let removing = planned_removals(session, package, shortcuts);
            match package.manifest.shortcuts {
                None => adding.len() == 0 && removing.len() == 0,
                Some(list) => {
                    let steps = all_steps_of(context, package, shortcuts, definitions_of(list@));
                    let gone = removals_of(session.platform, shortcuts, definitions_of(list@));
                    &&& adding[0] == ShortcutActionView::Emit(EventView::PackageShortcutAddStart)
                    &&& adding.subrange(1, adding.len() - 1) == steps.actions
                    &&& adding.last() == match steps.error {
                        Some(error) => ShortcutActionView::Fail(error),
                        None => ShortcutActionView::Emit(EventView::PackageShortcutAddDone),
                    }
                    &&& removing[0] == ShortcutActionView::Emit(
                        EventView::PackageShortcutRemoveStart,
                    )
                    &&& removing.subrange(1, removing.len() - 1) == gone.actions
                    &&& removing.last() == match gone.error {
                        Some(error) => ShortcutActionView::Fail(error),
                        None => ShortcutActionView::Emit(EventView::PackageShortcutRemoveDone),
                    }
                },
            }
        }),
{
    if let Some(list) = package.manifest.shortcuts {
        let adding = planned_shortcuts(package, context, shortcuts);
        let removing = planned_removals(session, package, shortcuts);
        let steps = all_steps_of(context, package, shortcuts, definitions_of(list@));
        let gone = removals_of(session.platform, shortcuts, definitions_of(list@));
        assert(adding.subrange(1, adding.len() - 1) =~= steps.actions);
        assert(removing.subrange(1, removing.len() - 1) =~= gone.actions);
    }
}

/// The definitions that have a name for a shortcut.
pub open spec fn with_names(definitions: Seq<Seq<Seq<char>>>) -> Seq<Seq<Seq<char>>> {
    definitions.filter(|d: Seq<Seq<char>>| d.len() >= 2)
}

/// Whether two actions remove the shortcut of a definition: its progress is told, and
/// its file goes.
pub open spec fn removes(
    on: Platform,
    shortcuts: Seq<char>,
    definition: Seq<Seq<char>>,
    told: ShortcutActionView,
    gone: ShortcutActionView,
) -> bool {
    &&& relative_of(on, definition[1]) matches Ok(relative)
    &&& told == ShortcutActionView::Emit(EventView::PackageShortcutRemoveProgress(relative))
    &&& gone == (ShortcutActionView::RemoveFile { path: join_of(on, shortcuts, relative) })
}

/// A removal removes the file of every definition that has a name, in order, and nothing
/// else: the same file that making the shortcut makes.
pub proof fn removals_follow_the_definitions(
    on: Platform,
    shortcuts: Seq<char>,
    definitions: Seq<Seq<Seq<char>>>,
)
    requires
        removals_of(on, shortcuts, definitions).error is None,
    ensures
        removals_of(on, shortcuts, definitions).actions.len() == 2 * with_names(definitions).len(),
        forall|i: int|
            0 <= i < with_names(definitions).len() ==> removes(
                on,
                shortcuts,
                #[trigger] with_names(definitions)[i],
                removals_of(on, shortcuts, definitions).actions[2 * i],
                removals_of(on, shortcuts, definitions).actions[2 * i + 1],
            ),
    decreases definitions.len(),
{
    reveal(Seq::filter);
    if definitions.len() > 0 {
        let shorter = definitions.drop_last();
        removals_follow_the_definitions(on, shortcuts, shorter);
        let list = with_names(definitions);
        let less = with_names(shorter);
        let all = removals_of(on, shortcuts, definitions).actions;
        let before = removals_of(on, shortcuts, shorter).actions;
        assert forall|i: int| 0 <= i < list.len() implies removes(
            on,
            shortcuts,
            #[trigger] list[i],
            all[2 * i],
            all[2 * i + 1],
        ) by {
            if i < less.len() {
                assert(list[i] == less[i]);
                assert(all[2 * i] == before[2 * i]);
                assert(all[2 * i + 1] == before[2 * i + 1]);
            } else {
                assert(list[i] == definitions.last());
            }
        }
    }
}

/// The first name that is refused stops a removal: its error is told last.
pub proof fn refused_names_stop_the_removal(
    session: Session,
    package: Package,
    shortcuts: Seq<char>,
    k: int,
)
    requires
        package.manifest.shortcuts is Some,
        0 <= k < package.manifest.shortcuts->0@.len(),
        package.manifest.shortcuts->0@[k]@.len() >= 2,
        removals_of(
            session.platform,
            shortcuts,
            definitions_of(package.manifest.shortcuts->0@).take(k),
        ).error is None,
        relative_of(session.platform, package.manifest.shortcuts->0@[k]@[1]@) is Err,
    ensures
        planned_removals(session, package, shortcuts).last() == ShortcutActionView::Fail(
            relative_of(session.platform, package.manifest.shortcuts->0@[k]@[1]@)->Err_0,
        ),
{
    let definitions = definitions_of(package.manifest.shortcuts->0@);
    let shown = definitions.take(k + 1);
    assert(shown.drop_last() =~= definitions.take(k));
    assert(shown.last() == definitions[k]);
    lemma_removals_error(session.platform, shortcuts, definitions, k + 1);
}

/// The directory of start menu entries is the one of that name below the configuration
/// of the user.
pub proof fn entries_lie_below_the_configuration(on: Platform, config: Seq<char>)
    requires
        is_regular(on, config),
        is_regular(on, normal_form(on, config)),
    ensures
        components_of(on, shortcut_dir_of(on, config)) == extended(
            on,
            normal_form(on, config),
            "Microsoft/Windows/Start Menu/Programs/Scoop Apps"@,
        ),
{
    reveal_strlit("Microsoft/Windows/Start Menu/Programs/Scoop Apps");
    lemma_dotless_is_safe(on, "Microsoft/Windows/Start Menu/Programs/Scoop Apps"@);
    normal_form_stays_below(on, config, "Microsoft/Windows/Start Menu/Programs/Scoop Apps"@);
}

/// A shortcut with a plain name is a file of that name, with the extension of shortcuts,
/// on every platform.
pub proof fn plain_names_get_the_extension(on: Platform, name: Seq<char>)
    requires
        is_name(Platform::Windows, name),
        !drive_at(name, 0),
    ensures
        relative_of(on, name) == Ok::<Seq<char>, ErrorView>(name + ".lnk"@),
{
    let windows = Platform::Windows;
    let leaf = name + ".lnk"@;
    reveal_strlit(".lnk");
    lemma_plain_piece(windows, name);
    assert forall|k: int| 0 <= k < name.len() implies !is_separator(on, #[trigger] name[k]) by {
        assert(!is_separator(windows, name[k]));
    }
    lemma_plain_piece(on, name);
    assert forall|k: int| 0 <= k < leaf.len() implies !is_separator(
        windows,
        #[trigger] leaf[k],
    ) by {
        if k < name.len() {
            assert(leaf[k] == name[k]);
        }
    }
    assert(leaf[0] == name[0]);
    assert(!drive_at(leaf, 0)) by {
        if drive_at(leaf, 0) {
            if name.len() > 1 {
                assert(leaf[1] == name[1]);
            } else {
                assert(leaf[1] == '.');
            }
        }
    }
    lemma_plain_piece(windows, leaf);
    assert forall|k: int| 0 <= k < leaf.len() implies !is_separator(on, #[trigger] leaf[k]) by {
        assert(!is_separator(windows, leaf[k]));
    }
    lemma_plain_piece(on, leaf);
    lemma_body_start(on, name);
    assert(components_of(on, name) =~= seq![ComponentView::Normal(name)]);
    assert(body_components(on, name, body_start(on, name), false).len() == spans(on, name).len());
    assert(body_start(on, name) == 0);
    let dir = parent_of(on, name)->0;
    assert(dir =~= Seq::<char>::empty());
    assert(join_of(on, dir, leaf) =~= leaf);
}

/// The script that makes a shortcut takes the file, the target and, where they are set,
/// the arguments and the icon from the variables that it finds set, starts the program
/// in the directory of the target, stops at the first error and saves the shortcut in
/// the end.
#[verifier::rlimit(100)]
pub proof fn the_script_uses_every_variable()
    ensures
        holds_text(CREATE_SHORTCUT_SCRIPT@, "$ErrorActionPreference = 'Stop'\n"@),
        holds_text(
            CREATE_SHORTCUT_SCRIPT@,
            "[Console]::OutputEncoding = [System.Text.UTF8Encoding]::new($false)\n"@,
        ),
        holds_text(CREATE_SHORTCUT_SCRIPT@, "$wsh = New-Object -ComObject WScript.Shell\n"@),
        holds_text(CREATE_SHORTCUT_SCRIPT@, "$shortcut = $wsh.CreateShortcut($env:HOK_SHORTCUT_PATH)\n"@),
        holds_text(CREATE_SHORTCUT_SCRIPT@, "$shortcut.TargetPath = $env:HOK_SHORTCUT_TARGET\n"@),
        holds_text(
            CREATE_SHORTCUT_SCRIPT@,
            "$shortcut.WorkingDirectory = Split-Path -Parent $env:HOK_SHORTCUT_TARGET\n"@,
        ),
        holds_text(
            CREATE_SHORTCUT_SCRIPT@,
            "if ($env:HOK_SHORTCUT_ARGUMENTS) { $shortcut.Arguments = $env:HOK_SHORTCUT_ARGUMENTS }\n"@,
        ),
        holds_text(
            CREATE_SHORTCUT_SCRIPT@,
            "if ($env:HOK_SHORTCUT_ICON) { $shortcut.IconLocation = $env:HOK_SHORTCUT_ICON }\n"@,
        ),
        ends_with(
            CREATE_SHORTCUT_SCRIPT@,
            "$shortcut.Save()\n"@,
        ),
{
    let text = CREATE_SHORTCUT_SCRIPT@;
    reveal_strlit(
        r#"$ErrorActionPreference = 'Stop'
[Console]::OutputEncoding = [System.Text.UTF8Encoding]::new($false)
$wsh = New-Object -ComObject WScript.Shell
$shortcut = $wsh.CreateShortcut($env:HOK_SHORTCUT_PATH)
$shortcut.TargetPath = $env:HOK_SHORTCUT_TARGET
$shortcut.WorkingDirectory = Split-Path -Parent $env:HOK_SHORTCUT_TARGET
if ($env:HOK_SHORTCUT_ARGUMENTS) { $shortcut.Arguments = $env:HOK_SHORTCUT_ARGUMENTS }
if ($env:HOK_SHORTCUT_ICON) { $shortcut.IconLocation = $env:HOK_SHORTCUT_ICON }
$shortcut.Save()
"#,
    );
    reveal_strlit("$ErrorActionPreference = 'Stop'\n");
    assert(text.subrange(0, 32)
        =~= "$ErrorActionPreference = 'Stop'\n"@);
    lemma_part(text, 0, "$ErrorActionPreference = 'Stop'\n"@);
    reveal_strlit("[Console]::OutputEncoding = [System.Text.UTF8Encoding]::new($false)\n");
    assert(text.subrange(32, 100)
        =~= "[Console]::OutputEncoding = [System.Text.UTF8Encoding]::new($false)\n"@);
    lemma_part(text, 32, "[Console]::OutputEncoding = [System.Text.UTF8Encoding]::new($false)\n"@);
    reveal_strlit("$wsh = New-Object -ComObject WScript.Shell\n");
    assert(text.subrange(100, 143)
        =~= "$wsh = New-Object -ComObject WScript.Shell\n"@);
    lemma_part(text, 100, "$wsh = New-Object -ComObject WScript.Shell\n"@);
    reveal_strlit("$shortcut = $wsh.CreateShortcut($env:HOK_SHORTCUT_PATH)\n");
    assert(text.subrange(143, 199)
        =~= "$shortcut = $wsh.CreateShortcut($env:HOK_SHORTCUT_PATH)\n"@);
    lemma_part(text, 143, "$shortcut = $wsh.CreateShortcut($env:HOK_SHORTCUT_PATH)\n"@);
    reveal_strlit("$shortcut.TargetPath = $env:HOK_SHORTCUT_TARGET\n");
    assert(text.subrange(199, 247)
        =~= "$shortcut.TargetPath = $env:HOK_SHORTCUT_TARGET\n"@);
    lemma_part(text, 199, "$shortcut.TargetPath = $env:HOK_SHORTCUT_TARGET\n"@);
    reveal_strlit("$shortcut.WorkingDirectory = Split-Path -Parent $env:HOK_SHORTCUT_TARGET\n");
    assert(text.subrange(247, 320)
        =~= "$shortcut.WorkingDirectory = Split-Path -Parent $env:HOK_SHORTCUT_TARGET\n"@);
    lemma_part(text, 247, "$shortcut.WorkingDirectory = Split-Path -Parent $env:HOK_SHORTCUT_TARGET\n"@);
    reveal_strlit("if ($env:HOK_SHORTCUT_ARGUMENTS) { $shortcut.Arguments = $env:HOK_SHORTCUT_ARGUMENTS }\n");
    assert(text.subrange(320, 407)
        =~= "if ($env:HOK_SHORTCUT_ARGUMENTS) { $shortcut.Arguments = $env:HOK_SHORTCUT_ARGUMENTS }\n"@);
    lemma_part(text, 320, "if ($env:HOK_SHORTCUT_ARGUMENTS) { $shortcut.Arguments = $env:HOK_SHORTCUT_ARGUMENTS }\n"@);
    reveal_strlit("if ($env:HOK_SHORTCUT_ICON) { $shortcut.IconLocation = $env:HOK_SHORTCUT_ICON }\n");
    assert(text.subrange(407, 487)
        =~= "if ($env:HOK_SHORTCUT_ICON) { $shortcut.IconLocation = $env:HOK_SHORTCUT_ICON }\n"@);
    lemma_part(text, 407, "if ($env:HOK_SHORTCUT_ICON) { $shortcut.IconLocation = $env:HOK_SHORTCUT_ICON }\n"@);
    reveal_strlit("$shortcut.Save()\n");
    assert(text.skip(text.len() - 17)
        =~= "$shortcut.Save()\n"@);
}

} // verus!
