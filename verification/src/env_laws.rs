//! What holds of the environment as packages come and go.

use crate::env::{
    assignments_of, env_dir, env_dirs, installed_dir, is_listed, list_entry, list_separator,
    path_value, path_variable, planned_add, planned_add_paths, planned_remove,
    planned_remove_paths, unlistable, unsets_of, with_paths, without_manifest, without_paths,
    EnvActionView,
};
use crate::error::ErrorView;
use crate::event::EventView;
use crate::internal::path::{components_of, is_safe, join_of, normal_form};
use crate::internal::path_laws::{
    extended, is_regular, is_settled, normal_form_stays_below, windows_safe_is_safe,
};
use crate::internal::text::{ascii_lower, equal_ignoring_case, joined, views};
use crate::package::Package;
use crate::script::{expansion, HookContext};
use crate::session::{IsolatedPath, Platform, Session};
use vstd::prelude::*;

verus! {

/// Comparing directories is an equivalence: it is reflexive, symmetric and
/// transitive.
pub proof fn paths_equal_is_equivalence(a: Seq<char>, b: Seq<char>, c: Seq<char>)
    ensures
        equal_ignoring_case(a, a),
        equal_ignoring_case(a, b) == equal_ignoring_case(b, a),
        equal_ignoring_case(a, b) && equal_ignoring_case(b, c) ==> equal_ignoring_case(a, c),
{
}

/// Removing a package unsets the variables that adding it set, in the same
/// order.
pub proof fn remove_unsets_what_add_set(
    list: Seq<(String, String)>,
    context: HookContext,
    package: Package,
    i: int,
)
    requires
        0 <= i < list.len(),
    ensures
        unsets_of(list).len() == assignments_of(list, context, package).len(),
        assignments_of(list, context, package)[i] matches EnvActionView::SetVar { key, .. }
            && unsets_of(list)[i] == (EnvActionView::UnsetVar { key }),
{
}

/// Adding directories keeps those that were there, in front and in order. Each
/// directory of the manifest is listed afterwards, and none that was added
/// equals one in front of it.
pub proof fn add_extends_the_path(
    on: Platform,
    existing: Seq<Seq<char>>,
    dir: Seq<char>,
    relatives: Seq<Seq<char>>,
)
    requires
        with_paths(on, existing, dir, relatives) is Ok,
    ensures
        ({
            let paths = with_paths(on, existing, dir, relatives)->Ok_0;
            &&& existing.is_prefix_of(paths)
            &&& forall|k: int|
                0 <= k < relatives.len() ==> is_listed(
                    paths,
                    env_dir(on, dir, #[trigger] relatives[k]),
                )
            &&& forall|i: int, j: int|
                0 <= i < j < paths.len() && existing.len() <= j ==> !equal_ignoring_case(
                    #[trigger] paths[i],
                    #[trigger] paths[j],
                )
        }),
    decreases relatives.len(),
{
    if relatives.len() == 0 {
        assert(existing =~= existing.subrange(0, existing.len() as int));
    } else {
        let shorter = relatives.drop_last();
        add_extends_the_path(on, existing, dir, shorter);
        let before = with_paths(on, existing, dir, shorter)->Ok_0;
        let paths = with_paths(on, existing, dir, relatives)->Ok_0;
        let path = env_dir(on, dir, relatives.last());
        assert(existing =~= paths.subrange(0, existing.len() as int)) by {
            assert(existing =~= before.subrange(0, existing.len() as int));
            assert forall|i: int| 0 <= i < existing.len() implies existing[i] == paths[i] by {
                assert(existing[i] == before[i]);
            }
        }
        assert forall|k: int| 0 <= k < relatives.len() implies is_listed(
            paths,
            env_dir(on, dir, #[trigger] relatives[k]),
        ) by {
            if k < shorter.len() {
                assert(relatives[k] == shorter[k]);
                let wanted = env_dir(on, dir, shorter[k]);
                assert(is_listed(before, wanted));
                let i = choose|i: int|
                    0 <= i < before.len() && equal_ignoring_case(#[trigger] before[i], wanted);
                assert(paths[i] == before[i]);
            } else if !is_listed(before, path) {
                assert(paths[before.len() as int] == path);
            }
        }
        assert forall|i: int, j: int|
            0 <= i < j < paths.len() && existing.len() <= j implies !equal_ignoring_case(
            #[trigger] paths[i],
            #[trigger] paths[j],
        ) by {
            assert(paths[i] == before[i]);
            if j < before.len() {
                assert(paths[j] == before[j]);
            }
        }
    }
}

/// Adding the directories of a manifest a second time changes nothing.
pub proof fn add_twice_is_add(
    on: Platform,
    existing: Seq<Seq<char>>,
    dir: Seq<char>,
    relatives: Seq<Seq<char>>,
)
    requires
        with_paths(on, existing, dir, relatives) is Ok,
    ensures
        with_paths(on, with_paths(on, existing, dir, relatives)->Ok_0, dir, relatives) == with_paths(
            on,
            existing,
            dir,
            relatives,
        ),
{
    let paths = with_paths(on, existing, dir, relatives)->Ok_0;
    add_extends_the_path(on, existing, dir, relatives);
    lemma_safe_entries(on, existing, dir, relatives);
    assert(relatives.take(relatives.len() as int) =~= relatives);
    lemma_nothing_added(on, paths, dir, relatives, relatives.len() as int);
}

/// Where directories were added, every entry of the manifest is safe.
proof fn lemma_safe_entries(
    on: Platform,
    existing: Seq<Seq<char>>,
    dir: Seq<char>,
    relatives: Seq<Seq<char>>,
)
    requires
        with_paths(on, existing, dir, relatives) is Ok,
    ensures
        forall|k: int|
            0 <= k < relatives.len() ==> is_safe(Platform::Windows, #[trigger] relatives[k]),
    decreases relatives.len(),
{
    if relatives.len() > 0 {
        let shorter = relatives.drop_last();
        lemma_safe_entries(on, existing, dir, shorter);
        assert forall|k: int| 0 <= k < relatives.len() implies is_safe(
            Platform::Windows,
            #[trigger] relatives[k],
        ) by {
            if k < shorter.len() {
                assert(relatives[k] == shorter[k]);
            }
        }
    }
}

proof fn lemma_nothing_added(
    on: Platform,
    paths: Seq<Seq<char>>,
    dir: Seq<char>,
    relatives: Seq<Seq<char>>,
    n: int,
)
    requires
        0 <= n <= relatives.len(),
        forall|k: int|
            0 <= k < relatives.len() ==> is_listed(paths, env_dir(on, dir, #[trigger] relatives[k])),
        forall|k: int|
            0 <= k < relatives.len() ==> is_safe(Platform::Windows, #[trigger] relatives[k]),
    ensures
        with_paths(on, paths, dir, relatives.take(n)) == Ok::<Seq<Seq<char>>, ErrorView>(paths),
    decreases n,
{
    if n > 0 {
        lemma_nothing_added(on, paths, dir, relatives, n - 1);
        assert(relatives.take(n).drop_last() =~= relatives.take(n - 1));
        assert(relatives.take(n).last() == relatives[n - 1]);
    }
}

/// The directories of a manifest, one for each entry.
proof fn lemma_env_dirs(on: Platform, dir: Seq<char>, relatives: Seq<Seq<char>>)
    requires
        forall|k: int|
            0 <= k < relatives.len() ==> is_safe(Platform::Windows, #[trigger] relatives[k]),
    ensures
        env_dirs(on, dir, relatives) is Ok,
        env_dirs(on, dir, relatives)->Ok_0.len() == relatives.len(),
        forall|k: int|
            0 <= k < relatives.len() ==> #[trigger] env_dirs(on, dir, relatives)->Ok_0[k] == env_dir(
                on,
                dir,
                relatives[k],
            ),
    decreases relatives.len(),
{
    if relatives.len() > 0 {
        let shorter = relatives.drop_last();
        assert forall|k: int| 0 <= k < shorter.len() implies is_safe(
            Platform::Windows,
            #[trigger] shorter[k],
        ) by {
            assert(shorter[k] == relatives[k]);
        }
        lemma_env_dirs(on, dir, shorter);
        assert forall|k: int| 0 <= k < relatives.len() implies #[trigger] env_dirs(
            on,
            dir,
            relatives,
        )->Ok_0[k] == env_dir(on, dir, relatives[k]) by {
            if k < shorter.len() {
                assert(env_dirs(on, dir, shorter)->Ok_0[k] == env_dir(on, dir, shorter[k]));
            }
        }
    }
}

/// Every directory behind the existing ones comes from the manifest.
proof fn lemma_added_from_manifest(
    on: Platform,
    existing: Seq<Seq<char>>,
    dir: Seq<char>,
    relatives: Seq<Seq<char>>,
)
    requires
        with_paths(on, existing, dir, relatives) is Ok,
    ensures
        existing.len() <= with_paths(on, existing, dir, relatives)->Ok_0.len(),
        forall|j: int|
            existing.len() <= j < with_paths(on, existing, dir, relatives)->Ok_0.len() ==> exists|k: int|
                0 <= k < relatives.len() && #[trigger] with_paths(on, existing, dir, relatives)->Ok_0[j]
                    == env_dir(on, dir, #[trigger] relatives[k]),
    decreases relatives.len(),
{
    if relatives.len() > 0 {
        let shorter = relatives.drop_last();
        lemma_added_from_manifest(on, existing, dir, shorter);
        let before = with_paths(on, existing, dir, shorter)->Ok_0;
        let paths = with_paths(on, existing, dir, relatives)->Ok_0;
        assert forall|j: int| existing.len() <= j < paths.len() implies exists|k: int|
            0 <= k < relatives.len() && #[trigger] paths[j] == env_dir(
                on,
                dir,
                #[trigger] relatives[k],
            ) by {
            if j < before.len() {
                assert(paths[j] == before[j]);
                let k = choose|k: int|
                    0 <= k < shorter.len() && before[j] == env_dir(on, dir, #[trigger] shorter[k]);
                assert(relatives[k] == shorter[k]);
            } else {
                assert(paths[j] == env_dir(on, dir, relatives[relatives.len() - 1]));
            }
        }
    }
}

/// Every directory that is added comes from a safe entry of the manifest and
/// stays below the directory of the application: the names of the entry follow
/// the components of the directory.
pub proof fn added_paths_stay_below(
    on: Platform,
    existing: Seq<Seq<char>>,
    dir: Seq<char>,
    relatives: Seq<Seq<char>>,
    j: int,
)
    requires
        with_paths(on, existing, dir, relatives) is Ok,
        existing.len() <= j < with_paths(on, existing, dir, relatives)->Ok_0.len(),
        is_regular(on, dir),
        is_regular(on, normal_form(on, dir)),
        (exists|k: int| 0 <= k < relatives.len() && (#[trigger] relatives[k]).len() == 0)
            ==> is_settled(on, dir),
    ensures
        exists|k: int|
            0 <= k < relatives.len() && is_safe(on, #[trigger] relatives[k]) && components_of(
                on,
                with_paths(on, existing, dir, relatives)->Ok_0[j],
            ) == extended(on, normal_form(on, dir), relatives[k]),
{
    lemma_safe_entries(on, existing, dir, relatives);
    lemma_added_from_manifest(on, existing, dir, relatives);
    let paths = with_paths(on, existing, dir, relatives)->Ok_0;
    let k = choose|k: int|
        0 <= k < relatives.len() && paths[j] == env_dir(on, dir, #[trigger] relatives[k]);
    windows_safe_is_safe(on, relatives[k]);
    normal_form_stays_below(on, dir, relatives[k]);
    assert(is_safe(on, relatives[k]));
}

/// A filter keeps what passes and drops what does not.
proof fn lemma_filter_split(paths: Seq<Seq<char>>, keep: spec_fn(Seq<char>) -> bool, n: int)
    requires
        0 <= n <= paths.len(),
        forall|i: int| 0 <= i < n ==> keep(#[trigger] paths[i]),
        forall|i: int| n <= i < paths.len() ==> !keep(#[trigger] paths[i]),
    ensures
        paths.filter(keep) == paths.take(n),
    decreases paths.len(),
{
    reveal(Seq::filter);
    if paths.len() > 0 {
        let front = paths.drop_last();
        if n == paths.len() {
            lemma_filter_split(front, keep, n - 1);
            assert(keep(paths[n - 1]));
            assert(paths.take(n) =~= front.take(n - 1).push(paths.last()));
        } else {
            lemma_filter_split(front, keep, n);
            assert(!keep(paths[paths.len() - 1]));
            assert(paths.take(n) =~= front.take(n));
        }
    } else {
        assert(paths.take(n) =~= paths);
    }
}

/// Removing a package's directories undoes adding them, as long as none of them
/// was on the path before and they were added below the directory that the
/// installed application is used from.
pub proof fn remove_undoes_add(
    session: Session,
    package: Package,
    context: HookContext,
    existing: Seq<Seq<char>>,
)
    requires
        package.manifest.env_add_path is Some,
        package.is_installed(),
        context.dir@ == installed_dir(session, package),
        with_paths(
            session.platform,
            existing,
            context.dir@,
            views(package.manifest.env_add_path->0@),
        ) is Ok,
        forall|k: int|
            0 <= k < package.manifest.env_add_path->0@.len() ==> !is_listed(
                existing,
                env_dir(
                    session.platform,
                    context.dir@,
                    #[trigger] views(package.manifest.env_add_path->0@)[k],
                ),
            ),
    ensures
        without_manifest(
            session.platform,
            with_paths(
                session.platform,
                existing,
                context.dir@,
                views(package.manifest.env_add_path->0@),
            )->Ok_0,
            installed_dir(session, package),
            views(package.manifest.env_add_path->0@),
        ) == Ok::<Seq<Seq<char>>, ErrorView>(existing),
{
    let on = session.platform;
    let relatives = views(package.manifest.env_add_path->0@);
    let dir = context.dir@;
    let paths = with_paths(on, existing, dir, relatives)->Ok_0;
    add_extends_the_path(on, existing, dir, relatives);
    lemma_safe_entries(on, existing, dir, relatives);
    lemma_env_dirs(on, dir, relatives);
    lemma_added_from_manifest(on, existing, dir, relatives);
    let removals = env_dirs(on, dir, relatives)->Ok_0;
    let keep = |path: Seq<char>| !is_listed(removals, path);
    let n = existing.len() as int;
    assert(existing =~= paths.subrange(0, n));
    assert forall|i: int| 0 <= i < n implies keep(#[trigger] paths[i]) by {
        assert(paths[i] == existing[i]);
        if is_listed(removals, existing[i]) {
            let k = choose|k: int|
                0 <= k < removals.len() && equal_ignoring_case(#[trigger] removals[k], existing[i]);
            assert(removals[k] == env_dir(on, dir, relatives[k]));
            assert(equal_ignoring_case(existing[i], env_dir(on, dir, relatives[k])));
            assert(is_listed(existing, env_dir(on, dir, relatives[k])));
        }
    }
    assert forall|i: int| n <= i < paths.len() implies !keep(#[trigger] paths[i]) by {
        let k = choose|k: int|
            0 <= k < relatives.len() && paths[i] == env_dir(on, dir, #[trigger] relatives[k]);
        assert(removals[k] == env_dir(on, dir, relatives[k]));
        assert(equal_ignoring_case(removals[k], paths[i]));
    }
    lemma_filter_split(paths, keep, n);
    assert(paths.take(n) =~= existing);
}

/// After a removal none of the manifest's directories is on the path, and every
/// other directory still is.
pub proof fn remove_clears_the_path(
    existing: Seq<Seq<char>>,
    removals: Seq<Seq<char>>,
    path: Seq<char>,
)
    ensures
        without_paths(existing, removals).contains(path) <==> existing.contains(path)
            && !is_listed(removals, path),
{
    let keep = |p: Seq<char>| !is_listed(removals, p);
    let kept = existing.filter(keep);
    if kept.contains(path) {
        let i = choose|i: int| 0 <= i < kept.len() && kept[i] == path;
        existing.lemma_filter_pred(keep, i);
        existing.lemma_filter_contains_rev(keep, path);
    }
    if existing.contains(path) && !is_listed(removals, path) {
        let i = choose|i: int| 0 <= i < existing.len() && existing[i] == path;
        existing.lemma_filter_contains(keep, i);
    }
}

/// The directories that the value of a path variable lists: it is cut at
/// separators. On Windows separators in quotes do not count, and quotes are
/// dropped; `quoted` tells whether a quote is open.
pub open spec fn listed_dirs(on: Platform, value: Seq<char>, quoted: bool) -> Seq<Seq<char>>
    decreases value.len(),
{
    if value.len() == 0 {
        seq![Seq::empty()]
    } else if on is Windows && value[0] == '"' {
        listed_dirs(on, value.skip(1), !quoted)
    } else {
        let rest = listed_dirs(on, value.skip(1), quoted);
        if value[0] == list_separator(on) && !quoted {
            seq![Seq::<char>::empty()] + rest
        } else {
            seq![seq![value[0]] + rest[0]] + rest.skip(1)
        }
    }
}

proof fn lemma_listed_some(on: Platform, value: Seq<char>, quoted: bool)
    ensures
        listed_dirs(on, value, quoted).len() > 0,
    decreases value.len(),
{
    if value.len() > 0 {
        lemma_listed_some(on, value.skip(1), quoted);
        lemma_listed_some(on, value.skip(1), !quoted);
    }
}

/// Characters that mean nothing special are read as they are.
proof fn lemma_listed_text(on: Platform, text: Seq<char>, tail: Seq<char>, quoted: bool)
    requires
        !text.contains(unlistable(on)),
        quoted || !text.contains(list_separator(on)),
    ensures
        ({
            let rest = listed_dirs(on, tail, quoted);
            listed_dirs(on, text + tail, quoted) == seq![text + rest[0]] + rest.skip(1)
        }),
    decreases text.len(),
{
    let rest = listed_dirs(on, tail, quoted);
    lemma_listed_some(on, tail, quoted);
    if text.len() == 0 {
        assert(text + tail =~= tail);
        assert(text + rest[0] =~= rest[0]);
        assert(rest =~= seq![rest[0]] + rest.skip(1));
    } else {
        let more = text.skip(1);
        assert(text.contains(text[0]));
        assert forall|c: char| more.contains(c) implies text.contains(c) by {
            let i = choose|i: int| 0 <= i < more.len() && more[i] == c;
            assert(text[i + 1] == c);
        }
        lemma_listed_text(on, more, tail, quoted);
        assert((text + tail).skip(1) =~= more + tail);
        let after = listed_dirs(on, more + tail, quoted);
        assert(after[0] == more + rest[0]);
        assert(after.skip(1) =~= rest.skip(1));
        assert(seq![text[0]] + (more + rest[0]) =~= text + rest[0]);
    }
}

/// A directory is read back from how it is written.
proof fn lemma_listed_entry(on: Platform, path: Seq<char>, tail: Seq<char>)
    requires
        !path.contains(unlistable(on)),
        tail.len() > 0 ==> tail[0] == list_separator(on),
    ensures
        listed_dirs(on, list_entry(on, path) + tail, false) == if tail.len() == 0 {
            seq![path]
        } else {
            seq![path] + listed_dirs(on, tail.skip(1), false)
        },
{
    let rest = listed_dirs(on, tail, false);
    if tail.len() > 0 {
        assert(rest =~= seq![Seq::<char>::empty()] + listed_dirs(on, tail.skip(1), false));
        assert(rest.skip(1) =~= listed_dirs(on, tail.skip(1), false));
    } else {
        assert(rest.skip(1) =~= Seq::<Seq<char>>::empty());
    }
    assert(path + rest[0] =~= path);
    if on is Windows && path.contains(';') {
        let quote = seq!['"'];
        let all = list_entry(on, path) + tail;
        let closed = quote + tail;
        assert(closed.skip(1) =~= tail);
        assert(listed_dirs(on, closed, true) == rest);
        lemma_listed_text(on, path, closed, true);
        assert(all.skip(1) =~= path + closed);
        assert(listed_dirs(on, all, false) == listed_dirs(on, path + closed, true));
    } else {
        lemma_listed_text(on, path, tail, false);
    }
    assert(seq![path] + rest.skip(1) =~= if tail.len() == 0 {
        seq![path]
    } else {
        seq![path] + listed_dirs(on, tail.skip(1), false)
    });
}

/// A joined list starts with its first part.
proof fn lemma_joined_front(parts: Seq<Seq<char>>, separator: Seq<char>)
    requires
        parts.len() > 1,
    ensures
        joined(parts, separator) == parts[0] + separator + joined(parts.skip(1), separator),
    decreases parts.len(),
{
    let front = parts.drop_last();
    let rest = parts.skip(1);
    if parts.len() == 2 {
        assert(joined(front, separator) == parts[0]);
        assert(joined(rest, separator) == parts[1]);
        assert(joined(parts, separator) =~= parts[0] + separator + parts[1]);
    } else {
        lemma_joined_front(front, separator);
        assert(front.skip(1) =~= rest.drop_last());
        assert(rest.last() == parts.last());
        assert(joined(parts, separator) =~= parts[0] + separator + joined(rest, separator));
    }
}

/// The value that is written to a path variable lists the directories it was
/// made from.
pub proof fn path_value_reads_back(on: Platform, paths: Seq<Seq<char>>)
    requires
        paths.len() > 0,
        path_value(on, paths) is Ok,
    ensures
        listed_dirs(on, path_value(on, paths)->Ok_0, false) == paths,
    decreases paths.len(),
{
    let written = paths.map_values(|path: Seq<char>| list_entry(on, path));
    let separator = seq![list_separator(on)];
    let first = paths[0];
    assert(written[0] == list_entry(on, first));
    if paths.len() == 1 {
        assert(joined(written, separator) =~= list_entry(on, first) + Seq::<char>::empty());
        lemma_listed_entry(on, first, Seq::empty());
        assert(paths =~= seq![first]);
    } else {
        let rest = paths.skip(1);
        let rest_written = rest.map_values(|path: Seq<char>| list_entry(on, path));
        assert(written.skip(1) =~= rest_written);
        assert forall|i: int| 0 <= i < rest.len() implies !(#[trigger] rest[i]).contains(
            unlistable(on),
        ) by {
            assert(rest[i] == paths[i + 1]);
        }
        path_value_reads_back(on, rest);
        let tail = separator + joined(rest_written, separator);
        assert(tail.skip(1) =~= joined(rest_written, separator));
        lemma_joined_front(written, separator);
        assert(joined(written, separator) =~= list_entry(on, first) + tail);
        lemma_listed_entry(on, first, tail);
        assert(paths =~= seq![first] + rest);
    }
}

/// The variables of the environment after actions were carried out.
pub open spec fn after_actions(
    variables: Map<Seq<char>, Seq<char>>,
    actions: Seq<EnvActionView>,
) -> Map<Seq<char>, Seq<char>>
    decreases actions.len(),
{
    if actions.len() == 0 {
        variables
    } else {
        let before = after_actions(variables, actions.drop_last());
        match actions.last() {
            EnvActionView::SetVar { key, value } => before.insert(key, value),
            EnvActionView::UnsetVar { key } => before.remove(key),
            _ => before,
        }
    }
}

/// After the first `n` assignments, each of the variables holds its value.
proof fn lemma_assignments(
    variables: Map<Seq<char>, Seq<char>>,
    list: Seq<(String, String)>,
    context: HookContext,
    package: Package,
    n: int,
    i: int,
)
    requires
        0 <= i < n <= list.len(),
        forall|a: int, b: int|
            0 <= a < list.len() && 0 <= b < list.len() && a != b ==> (#[trigger] list[a]).0@ != (
            #[trigger] list[b]).0@,
    ensures
        ({
            let after = after_actions(variables, assignments_of(list, context, package).take(n));
            &&& after.dom().contains(list[i].0@)
            &&& after[list[i].0@] == expansion(context, package.version@, package.name@, list[i].1@)
        }),
    decreases n,
{
    let all = assignments_of(list, context, package);
    assert(all.take(n).drop_last() =~= all.take(n - 1));
    assert(all.take(n).last() == all[n - 1]);
    if i < n - 1 {
        lemma_assignments(variables, list, context, package, n - 1, i);
        assert(list[i].0@ != list[n - 1].0@);
    }
}

/// Setting and removing variables leaves the other ones as they are.
proof fn lemma_other_variables(
    variables: Map<Seq<char>, Seq<char>>,
    actions: Seq<EnvActionView>,
    name: Seq<char>,
)
    requires
        forall|k: int|
            0 <= k < actions.len() ==> match #[trigger] actions[k] {
                EnvActionView::SetVar { key, .. } => key != name,
                EnvActionView::UnsetVar { key } => key != name,
                _ => true,
            },
    ensures
        after_actions(variables, actions).dom().contains(name) == variables.dom().contains(name),
        variables.dom().contains(name) ==> after_actions(variables, actions)[name]
            == variables[name],
    decreases actions.len(),
{
    if actions.len() > 0 {
        let shorter = actions.drop_last();
        assert forall|k: int| 0 <= k < shorter.len() implies match #[trigger] shorter[k] {
            EnvActionView::SetVar { key, .. } => key != name,
            EnvActionView::UnsetVar { key } => key != name,
            _ => true,
        } by {
            assert(shorter[k] == actions[k]);
        }
        assert(actions[actions.len() - 1] == actions.last());
        lemma_other_variables(variables, shorter, name);
    }
}

/// A variable that is removed once is gone, whatever is removed behind it.
proof fn lemma_unset(
    variables: Map<Seq<char>, Seq<char>>,
    list: Seq<(String, String)>,
    n: int,
    i: int,
)
    requires
        0 <= i < n <= list.len(),
    ensures
        !after_actions(variables, unsets_of(list).take(n)).dom().contains(list[i].0@),
    decreases n,
{
    let all = unsets_of(list);
    assert(all.take(n).drop_last() =~= all.take(n - 1));
    assert(all.take(n).last() == all[n - 1]);
    if i < n - 1 {
        lemma_unset(variables, list, n - 1, i);
    }
}

/// After the variables of a package are set, each holds the value that the
/// manifest gives it, whatever the order; after they are removed, none is left.
pub proof fn variables_hold_their_values(
    variables: Map<Seq<char>, Seq<char>>,
    context: HookContext,
    package: Package,
    i: int,
)
    requires
        package.manifest.sets_each_once(),
        package.manifest.env_set is Some,
        0 <= i < package.manifest.env_set->0@.len(),
    ensures
        ({
            let list = package.manifest.env_set->0@;
            let after = after_actions(variables, assignments_of(list, context, package));
            &&& after.dom().contains(list[i].0@)
            &&& after[list[i].0@] == expansion(context, package.version@, package.name@, list[i].1@)
            &&& !after_actions(after, unsets_of(list)).dom().contains(list[i].0@)
        }),
{
    let list = package.manifest.env_set->0@;
    let n = list.len() as int;
    lemma_assignments(variables, list, context, package, n, i);
    let all = assignments_of(list, context, package);
    assert(all.take(n) =~= all);
    lemma_unset(after_actions(variables, all), list, n, i);
    assert(unsets_of(list).take(n) =~= unsets_of(list));
}

/// A variable that the manifest does not name stays as it is, when the variables
/// of the package are set and when they are removed.
pub proof fn other_variables_stay(
    variables: Map<Seq<char>, Seq<char>>,
    context: HookContext,
    package: Package,
    name: Seq<char>,
)
    requires
        package.manifest.env_set is Some,
        forall|i: int|
            0 <= i < package.manifest.env_set->0@.len() ==> (
            #[trigger] package.manifest.env_set->0@[i]).0@ != name,
    ensures
        ({
            let list = package.manifest.env_set->0@;
            let set = after_actions(variables, assignments_of(list, context, package));
            let unset = after_actions(variables, unsets_of(list));
            &&& set.dom().contains(name) == variables.dom().contains(name)
            &&& variables.dom().contains(name) ==> set[name] == variables[name]
            &&& unset.dom().contains(name) == variables.dom().contains(name)
            &&& variables.dom().contains(name) ==> unset[name] == variables[name]
        }),
{
    let list = package.manifest.env_set->0@;
    lemma_other_variables(variables, assignments_of(list, context, package), name);
    lemma_other_variables(variables, unsets_of(list), name);
}

/// Packages use the path variable of the user, unless the settings name another one or
/// ask for the one of the installer.
pub proof fn path_variable_follows_the_settings(session: Session)
    ensures
        session.config.use_isolated_path is None ==> path_variable(session) == "PATH"@,
        session.config.use_isolated_path matches Some(IsolatedPath::Boolean(isolated))
            ==> path_variable(session) == if isolated {
            "SCOOP_PATH"@
        } else {
            "PATH"@
        },
        session.config.use_isolated_path matches Some(IsolatedPath::Named(name)) ==> path_variable(
            session,
        ) == name@,
{
}

/// Setting the variables of a package sets each to its text with the variables of the
/// manifest written out, in order. Then the path variable is read where the manifest
/// lists directories; where it does not, the change is told to other processes, if
/// there was one. Nothing else is done.
pub proof fn adding_sets_the_variables(
    session: Session,
    package: Package,
    context: HookContext,
    i: int,
)
    ensures
        ({
            let plan = planned_add(session, package, context);
            let n = match package.manifest.env_set {
                Some(list) => list@.len() as int,
                None => 0,
            };
            &&& 0 <= i < n ==> plan[i] == (EnvActionView::SetVar {
                key: package.manifest.env_set->0@[i].0@,
                value: expansion(
                    context,
                    package.version@,
                    package.name@,
                    package.manifest.env_set->0@[i].1@,
                ),
            })
            &&& package.manifest.env_add_path is Some ==> plan.len() == n + 1 && plan[n] == (
            EnvActionView::ReadPath { name: path_variable(session) })
            &&& package.manifest.env_add_path is None && package.manifest.env_set is Some
                ==> plan.len() == n + 1 && plan[n] == EnvActionView::Broadcast
            &&& package.manifest.env_add_path is None && package.manifest.env_set is None
                ==> plan.len() == 0
        }),
{
}

/// Removing the variables of a package removes each of them, in order, between two
/// events, and goes on as setting them does.
pub proof fn removing_unsets_the_variables(session: Session, package: Package, i: int)
    ensures
        ({
            let plan = planned_remove(session, package);
            let n = match package.manifest.env_set {
                Some(list) => list@.len() as int + 2,
                None => 0,
            };
            &&& 0 <= i < n - 2 ==> plan[i + 1] == (EnvActionView::UnsetVar {
                key: package.manifest.env_set->0@[i].0@,
            })
            &&& package.manifest.env_set is Some ==> plan[0] == EnvActionView::Emit(
                EventView::PackageEnvVarRemoveStart,
            ) && plan[n - 1] == EnvActionView::Emit(EventView::PackageEnvVarRemoveDone)
            &&& package.manifest.env_add_path is Some ==> plan.len() == n + 1 && plan[n] == (
            EnvActionView::ReadPath { name: path_variable(session) })
            &&& package.manifest.env_add_path is None && package.manifest.env_set is Some
                ==> plan.len() == n + 1 && plan[n] == EnvActionView::Broadcast
            &&& package.manifest.env_add_path is None && package.manifest.env_set is None
                ==> plan.len() == 0
        }),
{
}

/// The directories of a manifest are taken exactly where each of its entries is a path
/// that stays below the application. The first one that does not is told.
pub proof fn unsafe_entries_are_told(
    on: Platform,
    existing: Seq<Seq<char>>,
    dir: Seq<char>,
    relatives: Seq<Seq<char>>,
)
    ensures
        with_paths(on, existing, dir, relatives) is Ok <==> forall|k: int|
            0 <= k < relatives.len() ==> is_safe(Platform::Windows, #[trigger] relatives[k]),
        env_dirs(on, dir, relatives) is Ok <==> with_paths(on, existing, dir, relatives) is Ok,
        with_paths(on, existing, dir, relatives) matches Err(error) ==> env_dirs(on, dir, relatives)
            == Err::<Seq<Seq<char>>, ErrorView>(error) && exists|k: int|
            {
                &&& 0 <= k < relatives.len()
                &&& !is_safe(Platform::Windows, #[trigger] relatives[k])
                &&& error == ErrorView::Custom(
                    "unsafe environment path '"@ + relatives[k] + "'"@,
                )
                &&& forall|j: int|
                    0 <= j < k ==> is_safe(Platform::Windows, #[trigger] relatives[j])
            },
    decreases relatives.len(),
{
    if relatives.len() > 0 {
        let shorter = relatives.drop_last();
        let n = relatives.len() - 1;
        unsafe_entries_are_told(on, existing, dir, shorter);
        assert forall|k: int| 0 <= k < n implies #[trigger] relatives[k] == shorter[k] by {}
        assert(relatives[n] == relatives.last());
        if let Err(error) = with_paths(on, existing, dir, shorter) {
            let k = choose|k: int|
                {
                    &&& 0 <= k < shorter.len()
                    &&& !is_safe(Platform::Windows, #[trigger] shorter[k])
                    &&& error == ErrorView::Custom(
                        "unsafe environment path '"@ + shorter[k] + "'"@,
                    )
                    &&& forall|j: int|
                        0 <= j < k ==> is_safe(Platform::Windows, #[trigger] shorter[j])
                };
            assert(relatives[k] == shorter[k]);
            assert forall|j: int| 0 <= j < k implies is_safe(
                Platform::Windows,
                #[trigger] relatives[j],
            ) by {
                assert(is_safe(Platform::Windows, shorter[j]));
            }
        } else {
            assert forall|j: int| 0 <= j < n implies is_safe(
                Platform::Windows,
                #[trigger] relatives[j],
            ) by {
                assert(is_safe(Platform::Windows, shorter[j]));
            }
        }
    }
}

/// Whether a directory equals one of a list, up to the case of letters.
pub open spec fn is_equal_to_one(paths: Seq<Seq<char>>, path: Seq<char>) -> bool {
    !(forall|i: int| 0 <= i < paths.len() ==> !equal_ignoring_case(#[trigger] paths[i], path))
}

/// Each entry of a manifest puts one directory on the path, and takes the same off: the
/// entry, looked up in the directory of the application and written in normal form.
/// Entries are taken in order, and one that is listed already adds nothing.
pub proof fn entries_are_looked_up_in_the_application(
    on: Platform,
    existing: Seq<Seq<char>>,
    dir: Seq<char>,
    relatives: Seq<Seq<char>>,
    k: int,
)
    requires
        with_paths(on, existing, dir, relatives) is Ok,
        0 <= k < relatives.len(),
    ensures
        ({
            let own = normal_form(on, join_of(on, dir, relatives[k]));
            let before = with_paths(on, existing, dir, relatives.take(k))->Ok_0;
            let after = with_paths(on, existing, dir, relatives.take(k + 1))->Ok_0;
            &&& env_dirs(on, dir, relatives)->Ok_0.len() == relatives.len()
            &&& env_dirs(on, dir, relatives)->Ok_0[k] == own
            &&& with_paths(on, existing, dir, relatives.take(k)) is Ok
            &&& with_paths(on, existing, dir, relatives.take(k + 1)) is Ok
            &&& is_equal_to_one(before, own) ==> after == before
            &&& !is_equal_to_one(before, own) ==> after == before.push(own)
        }),
{
    lemma_safe_entries(on, existing, dir, relatives);
    lemma_env_dirs(on, dir, relatives);
    assert(env_dirs(on, dir, relatives)->Ok_0[k] == env_dir(on, dir, relatives[k]));
    let first = relatives.take(k);
    let shown = relatives.take(k + 1);
    assert forall|j: int| 0 <= j < shown.len() implies is_safe(
        Platform::Windows,
        #[trigger] shown[j],
    ) by {
        assert(shown[j] == relatives[j]);
    }
    unsafe_entries_are_told(on, existing, dir, shown);
    assert(shown.drop_last() =~= first);
    assert(shown.last() == relatives[k]);
}

/// Adding the directories of a package sets the path variable to a value that lists the
/// directories that were there, in front and in order, and those of the package, and
/// then tells the change. An entry that is not safe, or a directory that cannot be
/// written, changes nothing and is told.
pub proof fn adding_extends_the_path_variable(
    session: Session,
    package: Package,
    context: HookContext,
    existing: Seq<Seq<char>>,
)
    requires
        package.manifest.env_add_path is Some,
    ensures
        ({
            let on = session.platform;
            let plan = planned_add_paths(session, package, context, existing);
            let relatives = views(package.manifest.env_add_path->0@);
            let paths = with_paths(on, existing, context.dir@, relatives);
            match paths {
                Err(error) => plan == seq![EnvActionView::Fail(error)],
                Ok(list) => match path_value(on, list) {
                    Err(error) => plan == seq![EnvActionView::Fail(error)],
                    Ok(value) => {
                        &&& plan.len() == 2
                        &&& plan[0] == (EnvActionView::SetVar {
                            key: path_variable(session),
                            value,
                        })
                        &&& plan[1] == EnvActionView::Broadcast
                        &&& list.len() > 0 ==> listed_dirs(on, value, false) == list
                        &&& existing.is_prefix_of(list)
                        &&& forall|k: int|
                            0 <= k < relatives.len() ==> is_equal_to_one(
                                list,
                                normal_form(on, join_of(on, context.dir@, #[trigger] relatives[k])),
                            )
                    },
                },
            }
        }),
{
    let on = session.platform;
    let relatives = views(package.manifest.env_add_path->0@);
    if let Ok(list) = with_paths(on, existing, context.dir@, relatives) {
        add_extends_the_path(on, existing, context.dir@, relatives);
        assert forall|k: int| 0 <= k < relatives.len() implies is_equal_to_one(
            list,
            normal_form(on, join_of(on, context.dir@, #[trigger] relatives[k])),
        ) by {
            assert(is_listed(list, env_dir(on, context.dir@, relatives[k])));
        }
        if path_value(on, list) is Ok && list.len() > 0 {
            path_value_reads_back(on, list);
        }
    }
}

/// Taking the directories of a package off the path sets the path variable to a value
/// that lists exactly the directories that were there and are not those of the package,
/// between two events, and then tells the change.
pub proof fn removing_clears_the_path_variable(
    session: Session,
    package: Package,
    existing: Seq<Seq<char>>,
    path: Seq<char>,
)
    requires
        package.is_installed(),
        package.manifest.env_add_path is Some,
    ensures
        ({
            let on = session.platform;
            let plan = planned_remove_paths(session, package, existing);
            let dir = installed_dir(session, package);
            let relatives = views(package.manifest.env_add_path->0@);
            let start = EnvActionView::Emit(EventView::PackageEnvPathRemoveStart);
            let list = without_paths(existing, env_dirs(on, dir, relatives)->Ok_0);
            &&& plan[0] == start
            &&& env_dirs(on, dir, relatives) matches Err(error) ==> plan == seq![
                start,
                EnvActionView::Fail(error),
            ]
            &&& env_dirs(on, dir, relatives) is Ok ==> {
                &&& list.contains(path) <==> existing.contains(path) && forall|k: int|
                    0 <= k < relatives.len() ==> !equal_ignoring_case(
                        normal_form(on, join_of(on, dir, #[trigger] relatives[k])),
                        path,
                    )
                &&& match path_value(on, list) {
                    Err(error) => plan == seq![start, EnvActionView::Fail(error)],
                    Ok(value) => plan == seq![
                        start,
                        EnvActionView::SetVar { key: path_variable(session), value },
                        EnvActionView::Emit(EventView::PackageEnvPathRemoveDone),
                        EnvActionView::Broadcast,
                    ] && (list.len() > 0 ==> listed_dirs(on, value, false) == list),
                }
            }
        }),
{
    let on = session.platform;
    let plan = planned_remove_paths(session, package, existing);
    let dir = installed_dir(session, package);
    let relatives = views(package.manifest.env_add_path->0@);
    let start = EnvActionView::Emit(EventView::PackageEnvPathRemoveStart);
    if let Ok(removals) = env_dirs(on, dir, relatives) {
        let list = without_paths(existing, removals);
        remove_clears_the_path(existing, removals, path);
        unsafe_entries_are_told(on, existing, dir, relatives);
        lemma_env_dirs(on, dir, relatives);
        if is_listed(removals, path) {
            let k = choose|k: int|
                0 <= k < removals.len() && equal_ignoring_case(#[trigger] removals[k], path);
            assert(removals[k] == env_dir(on, dir, relatives[k]));
            assert(equal_ignoring_case(normal_form(on, join_of(on, dir, relatives[k])), path));
        } else {
            assert forall|k: int| 0 <= k < relatives.len() implies !equal_ignoring_case(
                normal_form(on, join_of(on, dir, #[trigger] relatives[k])),
                path,
            ) by {
                assert(removals[k] == env_dir(on, dir, relatives[k]));
            }
        }
        match path_value(on, list) {
            Ok(value) => {
                if list.len() > 0 {
                    path_value_reads_back(on, list);
                }
                assert(plan =~= seq![
                    start,
                    EnvActionView::SetVar { key: path_variable(session), value },
                    EnvActionView::Emit(EventView::PackageEnvPathRemoveDone),
                    EnvActionView::Broadcast,
                ]);
            },
            Err(error) => {
                assert(plan =~= seq![start, EnvActionView::Fail(error)]);
            },
        }
    } else {
        assert(plan =~= seq![
            start,
            EnvActionView::Fail(env_dirs(on, dir, relatives)->Err_0),
        ]);
    }
}

/// A list of directories cannot be written exactly where one of them holds what the
/// platform cannot write: a quote on Windows, a colon elsewhere. Directories are
/// separated by semicolons on Windows and by colons elsewhere.
pub proof fn directories_are_written_for_the_platform(
    on: Platform,
    a: Seq<char>,
    b: Seq<char>,
    paths: Seq<Seq<char>>,
)
    ensures
        path_value(on, paths) is Err <==> exists|i: int|
            0 <= i < paths.len() && (#[trigger] paths[i]).contains(
                if on is Windows {
                    '"'
                } else {
                    ':'
                },
            ),
        path_value(on, paths) matches Err(error) ==> error == ErrorView::Custom(
            if on is Windows {
                "path segment contains `\"`"@
            } else {
                "path segment contains separator `:`"@
            },
        ),
        path_value(on, Seq::empty()) == Ok::<Seq<char>, ErrorView>(Seq::empty()),
        on is Windows && !a.contains('"') && !b.contains('"') && !a.contains(';') && !b.contains(
            ';',
        ) ==> path_value(on, seq![a, b]) == Ok::<Seq<char>, ErrorView>(a + seq![';'] + b),
        on is Unix && !a.contains(':') && !b.contains(':') ==> path_value(on, seq![a, b]) == Ok::<
            Seq<char>,
            ErrorView,
        >(a + seq![':'] + b),
{
    let two = seq![a, b];
    let written = two.map_values(|path: Seq<char>| list_entry(on, path));
    assert(written =~= seq![list_entry(on, a), list_entry(on, b)]);
    assert(written.drop_last() =~= seq![list_entry(on, a)]);
    assert(two[0] == a && two[1] == b);
    let none = Seq::<Seq<char>>::empty().map_values(|path: Seq<char>| list_entry(on, path));
    assert(none.len() == 0);
    reveal_with_fuel(joined, 3);
}

/// Whether two characters are the same, up to the case of a letter.
pub open spec fn same_letter(a: char, b: char) -> bool {
    ||| a == b
    ||| 'A' <= a <= 'Z' && b as int == a as int + 32
    ||| 'A' <= b <= 'Z' && a as int == b as int + 32
}

/// Two directories are compared letter by letter: they are equal exactly where they are
/// of one length and each character is the same, up to the case of an ASCII letter.
pub proof fn paths_are_compared_by_letter(a: Seq<char>, b: Seq<char>)
    ensures
        equal_ignoring_case(a, b) <==> a.len() == b.len() && forall|i: int|
            0 <= i < a.len() ==> same_letter(#[trigger] a[i], b[i]),
{
    let low_a = a.map_values(|c: char| ascii_lower(c));
    let low_b = b.map_values(|c: char| ascii_lower(c));
    if equal_ignoring_case(a, b) {
        assert(low_a.len() == low_b.len());
        assert forall|i: int| 0 <= i < a.len() implies same_letter(#[trigger] a[i], b[i]) by {
            assert(low_a[i] == low_b[i]);
        }
    } else if a.len() == b.len() && forall|i: int|
        0 <= i < a.len() ==> same_letter(#[trigger] a[i], b[i]) {
        assert forall|i: int| 0 <= i < a.len() implies low_a[i] == low_b[i] by {
            assert(same_letter(a[i], b[i]));
        }
        assert(low_a =~= low_b);
    }
}

/// An installed application is used from one directory for all versions, unless the
/// settings ask for the directory of the installed version.
pub proof fn installed_directory_follows_the_settings(session: Session, package: Package)
    requires
        package.is_installed(),
    ensures
        ({
            let on = session.platform;
            let own = join_of(
                on,
                join_of(on, session.config.root_path@, "apps"@),
                package.name@,
            );
            installed_dir(session, package) == join_of(
                on,
                own,
                if session.config.no_junction {
                    package.installed_version->0@
                } else {
                    "current"@
                },
            )
        }),
{
}

} // verus!
