//! What holds of extractions as a whole.

use crate::error::ErrorView;
use crate::internal::archive::{
    depth, entry_steps, is_enclosed, lemma_enclosed_is_unanchored, lemma_zip_error, moved_to, moving,
    relative_of, sevenz_plan, step_after, tar_plan, temporary_of, unsafe_entry, zip_plan, zip_steps,
    ArchiveActionView, ExtractPlanView, Step, ZipEntryView,
};
use crate::internal::path::{
    body_components, body_start, components_of, drive_at, has_physical_root, is_safe, join_of,
    join_separator, parent_of, prefix, resolve, resolve_step, ComponentView,
};
use crate::internal::path_laws::{
    is_full_verbatim, is_name, is_ordinary, is_regular, join_adds_the_name, join_keeps_prefix,
    join_stays_below,
    lemma_piece_text, lemma_verbatim_bare, lemma_verbatim_separator, lemma_verbatim_text, names_of,
    parent_drops_the_last, root_for_name, safe_join_stays_below, strip_leaves_what_follows, strip_removes_the_directory,
};
use crate::session::Platform;
use vstd::prelude::*;

verus! {

/// Every file that an extraction writes is an entry of the archive, under the
/// entry's own number. The name of the entry was validated, and the file is
/// looked up in the destination: with the whole name, or, where only one
/// directory is unpacked, with what the name has below it, which was validated
/// too.
pub proof fn zip_writes_validated_entries(
    on: Platform,
    destination: Seq<char>,
    strip_dir: Option<Seq<char>>,
    entries: Seq<ZipEntryView>,
    i: int,
)
    requires
        0 <= i < zip_steps(on, destination, strip_dir, entries).actions.len(),
        zip_steps(on, destination, strip_dir, entries).actions[i] is WriteEntry,
    ensures
        ({
            let write = zip_steps(on, destination, strip_dir, entries).actions[i];
            &&& 0 <= write->index < entries.len()
            &&& entries[write->index] matches ZipEntryView::Entry { name, is_dir }
            &&& !is_dir
            &&& is_enclosed(on, name)
            &&& relative_of(on, name, strip_dir) matches Some(relative)
            &&& is_enclosed(on, relative)
            &&& write->WriteEntry_path == join_of(on, destination, relative)
        }),
    decreases entries.len(),
{
    let shorter = entries.drop_last();
    let before = zip_steps(on, destination, strip_dir, shorter);
    let all = zip_steps(on, destination, strip_dir, entries);
    if i < before.actions.len() {
        assert(all.actions[i] == before.actions[i]);
        zip_writes_validated_entries(on, destination, strip_dir, shorter, i);
        let write = all.actions[i];
        assert(entries[write->index] == shorter[write->index]);
    } else {
        let n = entries.len() - 1;
        let next = entry_steps(on, destination, strip_dir, n, entries.last());
        assert(all.actions[i] == next.actions[i - before.actions.len()]);
    }
}

/// Every directory that an extraction makes belongs to an entry whose name was
/// validated: it is the entry itself, where that is a directory, or else the
/// parent of its file.
pub proof fn zip_makes_validated_dirs(
    on: Platform,
    destination: Seq<char>,
    strip_dir: Option<Seq<char>>,
    entries: Seq<ZipEntryView>,
    i: int,
)
    requires
        0 <= i < zip_steps(on, destination, strip_dir, entries).actions.len(),
        zip_steps(on, destination, strip_dir, entries).actions[i] is EnsureDir,
    ensures
        exists|k: int|
            #![trigger entries[k]]
            {
                let path = zip_steps(on, destination, strip_dir, entries).actions[i]->EnsureDir_path;
                &&& 0 <= k < entries.len()
                &&& entries[k] matches ZipEntryView::Entry { name, is_dir }
                &&& is_enclosed(on, name)
                &&& relative_of(on, name, strip_dir) matches Some(relative)
                &&& is_enclosed(on, relative)
                &&& Some(path) == if is_dir {
                    Some(join_of(on, destination, relative))
                } else {
                    parent_of(on, join_of(on, destination, relative))
                }
            },
    decreases entries.len(),
{
    let shorter = entries.drop_last();
    let before = zip_steps(on, destination, strip_dir, shorter);
    let all = zip_steps(on, destination, strip_dir, entries);
    if i < before.actions.len() {
        assert(all.actions[i] == before.actions[i]);
        zip_makes_validated_dirs(on, destination, strip_dir, shorter, i);
        let path = all.actions[i]->EnsureDir_path;
        let k = choose|k: int|
            #![trigger shorter[k]]
            {
                &&& 0 <= k < shorter.len()
                &&& shorter[k] matches ZipEntryView::Entry { name, is_dir }
                &&& is_enclosed(on, name)
                &&& relative_of(on, name, strip_dir) matches Some(relative)
                &&& is_enclosed(on, relative)
                &&& Some(path) == if is_dir {
                    Some(join_of(on, destination, relative))
                } else {
                    parent_of(on, join_of(on, destination, relative))
                }
            };
        assert(entries[k] == shorter[k]);
    } else {
        let n = entries.len() - 1;
        let next = entry_steps(on, destination, strip_dir, n, entries.last());
        assert(all.actions[i] == next.actions[i - before.actions.len()]);
        assert(entries[n] == entries.last());
    }
}

/// Nothing is left out: where nothing stops the extraction, every file entry
/// that is below the wanted directory is written.
pub proof fn zip_writes_every_entry(
    on: Platform,
    destination: Seq<char>,
    strip_dir: Option<Seq<char>>,
    entries: Seq<ZipEntryView>,
    k: int,
    name: Seq<char>,
)
    requires
        zip_steps(on, destination, strip_dir, entries).error is None,
        0 <= k < entries.len(),
        entries[k] == (ZipEntryView::Entry { name, is_dir: false }),
        relative_of(on, name, strip_dir) is Some,
    ensures
        zip_steps(on, destination, strip_dir, entries).actions.contains(
            ArchiveActionView::WriteEntry {
                index: k,
                path: join_of(on, destination, relative_of(on, name, strip_dir)->0),
            },
        ),
    decreases entries.len(),
{
    let shorter = entries.drop_last();
    let before = zip_steps(on, destination, strip_dir, shorter);
    let all = zip_steps(on, destination, strip_dir, entries);
    let wanted = ArchiveActionView::WriteEntry {
        index: k,
        path: join_of(on, destination, relative_of(on, name, strip_dir)->0),
    };
    let n = entries.len() - 1;
    let next = entry_steps(on, destination, strip_dir, n, entries.last());
    assert(all.actions == before.actions + next.actions);
    if k < n {
        assert(shorter[k] == entries[k]);
        zip_writes_every_entry(on, destination, strip_dir, shorter, k, name);
        let j = choose|j: int| 0 <= j < before.actions.len() && before.actions[j] == wanted;
        assert(all.actions[j] == wanted);
    } else {
        let j = next.actions.len() - 1;
        assert(next.actions[j] == wanted);
        assert(all.actions[before.actions.len() + j] == wanted);
    }
}

/// A validated name never leads out of a directory: taking its steps from the
/// directory ends in the directory or below it.
pub proof fn enclosed_name_stays_below(on: Platform, base: Seq<ComponentView>, name: Seq<char>)
    requires
        is_enclosed(on, name),
    ensures
        base.is_prefix_of(resolve(base, components_of(on, name))),
{
    let steps = components_of(on, name);
    assert(steps.take(steps.len() as int) =~= steps);
    lemma_enclosed_walk(base, steps, steps.len() as int);
}

/// Whether a path lies in a directory: its components start with those of the
/// directory, and the steps behind them do not lead out of it.
pub open spec fn stays_in(on: Platform, path: Seq<char>, dir: Seq<char>) -> bool {
    let base = components_of(on, dir);
    let steps = components_of(on, path).skip(base.len() as int);
    base.is_prefix_of(components_of(on, path)) && base.is_prefix_of(resolve(base, steps))
}

/// A leading dot is no step.
proof fn lemma_depth_dot(steps: Seq<ComponentView>)
    ensures
        depth(seq![ComponentView::CurDir] + steps) == depth(steps),
    decreases steps.len(),
{
    let all = seq![ComponentView::CurDir] + steps;
    if steps.len() == 0 {
        assert(all.drop_last() =~= Seq::<ComponentView>::empty());
        assert(depth(all.drop_last()) == 0);
        assert(all.last() is CurDir);
    } else {
        assert(all.drop_last() =~= seq![ComponentView::CurDir] + steps.drop_last());
        lemma_depth_dot(steps.drop_last());
    }
}

/// The names of an enclosed path never lead above its start.
proof fn lemma_enclosed_names(on: Platform, path: Seq<char>)
    requires
        is_enclosed(on, path),
    ensures
        forall|i: int|
            0 <= i < names_of(on, path).len() ==> !((#[trigger] names_of(on, path)[i]) is Prefix
                || names_of(on, path)[i] is RootDir),
        forall|j: int|
            0 <= j <= names_of(on, path).len() ==> depth(#[trigger] names_of(on, path).take(j)) >= 0,
{
    lemma_enclosed_is_unanchored(on, path);
    let names = names_of(on, path);
    let steps = components_of(on, path);
    let own = steps.len() - names.len();
    assert(own == 0 || own == 1);
    assert forall|i: int| 0 <= i < names.len() implies !((#[trigger] names[i]) is Prefix
        || names[i] is RootDir) by {
        assert(steps[own + i] == names[i]);
    }
    assert forall|j: int| 0 <= j <= names.len() implies depth(#[trigger] names.take(j)) >= 0 by {
        assert(depth(steps.take(own + j)) >= 0);
        if own == 0 {
            assert(steps.take(j) =~= names.take(j));
        } else {
            assert(steps.take(1 + j) =~= seq![ComponentView::CurDir] + names.take(j));
            lemma_depth_dot(names.take(j));
        }
    }
}

/// Names behind a first step are added at the end of where it leads.
proof fn lemma_resolve_step_names(
    stack: Seq<ComponentView>,
    first: ComponentView,
    names: Seq<ComponentView>,
)
    requires
        forall|i: int| 0 <= i < names.len() ==> (#[trigger] names[i]) is Normal,
    ensures
        resolve(stack, seq![first] + names) == resolve_step(stack, first) + names,
    decreases names.len(),
{
    let steps = seq![first] + names;
    if names.len() == 0 {
        assert(steps.drop_last() =~= Seq::<ComponentView>::empty());
        assert(resolve(stack, steps.drop_last()) == stack);
        assert(resolve_step(stack, first) + names =~= resolve_step(stack, first));
    } else {
        assert(steps.drop_last() =~= seq![first] + names.drop_last());
        lemma_resolve_step_names(stack, first, names.drop_last());
        assert(names.last() is Normal);
        assert(resolve(stack, steps) =~= resolve_step(stack, first) + names);
    }
}

/// A path that has names behind a directory, perhaps with a root between them,
/// lies in the directory.
proof fn lemma_named_stays(
    on: Platform,
    path: Seq<char>,
    dir: Seq<char>,
    rooted: bool,
    names: Seq<ComponentView>,
)
    requires
        forall|i: int| 0 <= i < names.len() ==> (#[trigger] names[i]) is Normal,
        rooted ==> components_of(on, dir).len() == 1,
        components_of(on, path) == components_of(on, dir) + (if rooted {
            seq![ComponentView::RootDir]
        } else {
            seq![]
        }) + names,
    ensures
        stays_in(on, path, dir),
{
    let base = components_of(on, dir);
    let steps = components_of(on, path).skip(base.len() as int);
    if rooted {
        assert(steps =~= seq![ComponentView::RootDir] + names);
        lemma_resolve_step_names(base, ComponentView::RootDir, names);
    } else if names.len() > 0 {
        assert(steps =~= seq![names[0]] + names.skip(1));
        lemma_resolve_step_names(base, names[0], names.skip(1));
    } else {
        assert(steps =~= Seq::<ComponentView>::empty());
        assert(resolve(base, steps) == base);
    }
    assert(base =~= components_of(on, path).subrange(0, base.len() as int));
    assert(base =~= resolve(base, steps).subrange(0, base.len() as int));
}

/// Looking up an enclosed path in a verbatim directory.
#[verifier::rlimit(50)]
proof fn lemma_verbatim_output(on: Platform, destination: Seq<char>, relative: Seq<char>)
    requires
        is_enclosed(on, relative),
        is_full_verbatim(on, destination),
    ensures
        stays_in(on, join_of(on, destination, relative), destination),
        parent_of(on, join_of(on, destination, relative)) matches Some(dir) ==> stays_in(
            on,
            dir,
            destination,
        ) || components_of(on, dir).is_prefix_of(components_of(on, destination)),
{
    lemma_enclosed_is_unanchored(on, relative);
    let output = join_of(on, destination, relative);
    let base = components_of(on, destination);
    let steps = components_of(on, relative);
    let none = Seq::<ComponentView>::empty();
    if !has_physical_root(on, destination) {
        lemma_verbatim_is_bare(on, destination);
    }
    if relative.len() == 0 {
        assert(relative =~= seq![]);
        lemma_verbatim_separator(on, destination);
        let rooted = components_of(on, output).len() > base.len();
        assert(components_of(on, output) =~= base + (if rooted {
            seq![ComponentView::RootDir]
        } else {
            seq![]
        }) + none);
        lemma_named_stays(on, output, destination, rooted, none);
        if let Some(dir) = parent_of(on, output) {
            parent_drops_the_last(on, output);
            assert(components_of(on, dir) =~= base.subrange(
                0,
                components_of(on, dir).len() as int,
            ));
        }
    } else {
        let n = steps.len() as int;
        assert(steps.take(n) =~= steps);
        lemma_enclosed_walk(base, steps, n);
        let reached = resolve(base, steps);
        let extra = reached.skip(base.len() as int);
        assert(reached =~= base + extra);
        assert forall|i: int| 0 <= i < extra.len() implies (#[trigger] extra[i]) is Normal
            && is_name(on, extra[i].text(on)) by {
            let found = reached[base.len() + i];
            assert(extra[i] == found);
            assert(steps.contains(found));
            let k = choose|k: int| 0 <= k < steps.len() && steps[k] == found;
            lemma_piece_text(on, relative, k);
        }
        lemma_verbatim_text(on, destination, extra);
        let rooted = !has_physical_root(on, destination) && extra.len() > 0;
        lemma_named_stays(on, output, destination, rooted, extra);
        if let Some(dir) = parent_of(on, output) {
            parent_drops_the_last(on, output);
            if extra.len() > 0 {
                let fewer = extra.drop_last();
                assert(components_of(on, dir) =~= base + (if rooted {
                    seq![ComponentView::RootDir]
                } else {
                    seq![]
                }) + fewer);
                lemma_named_stays(on, dir, destination, rooted, fewer);
            } else {
                assert(components_of(on, dir) =~= base.subrange(
                    0,
                    components_of(on, dir).len() as int,
                ));
            }
        }
    }
}

/// A verbatim path without a root has one component.
proof fn lemma_verbatim_is_bare(on: Platform, dir: Seq<char>)
    requires
        is_full_verbatim(on, dir),
        !has_physical_root(on, dir),
    ensures
        components_of(on, dir).len() == 1,
{
    lemma_verbatim_bare(on, dir);
    assert(body_components(on, dir, body_start(on, dir), true) =~= Seq::<ComponentView>::empty());
}

/// Looking up an enclosed path in a directory, or the parent of what results.
#[verifier::rlimit(50)]
proof fn lemma_output_stays(on: Platform, destination: Seq<char>, relative: Seq<char>)
    requires
        is_enclosed(on, relative),
        is_regular(on, destination),
    ensures
        stays_in(on, join_of(on, destination, relative), destination),
        parent_of(on, join_of(on, destination, relative)) matches Some(dir) ==> stays_in(
            on,
            dir,
            destination,
        ) || components_of(on, dir).is_prefix_of(components_of(on, destination)),
{
    if !is_ordinary(on, destination) {
        lemma_verbatim_output(on, destination, relative);
    } else {
        lemma_enclosed_is_unanchored(on, relative);
        join_keeps_prefix(on, destination, relative);
        join_stays_below(on, destination, relative);
        lemma_enclosed_names(on, relative);
        let output = join_of(on, destination, relative);
        let base = components_of(on, destination);
        let names = names_of(on, relative);
        let n = names.len() as int;
        assert(names.take(n) =~= names);
        lemma_enclosed_walk(base, names, n);
        assert(components_of(on, output).skip(base.len() as int) =~= names);
        assert(base =~= components_of(on, output).subrange(0, base.len() as int));
        if let Some(dir) = parent_of(on, output) {
            assert(output =~= destination + (join_separator(on, destination) + relative));
            parent_drops_the_last(on, output);
            if n > 0 {
                lemma_enclosed_walk(base, names, n - 1);
                assert(components_of(on, dir) =~= base + names.take(n - 1));
                assert(components_of(on, dir).skip(base.len() as int) =~= names.take(n - 1));
                assert(base =~= components_of(on, dir).subrange(0, base.len() as int));
            } else {
                assert(components_of(on, dir) =~= base.drop_last());
                assert(components_of(on, dir) =~= base.subrange(
                    0,
                    components_of(on, dir).len() as int,
                ));
            }
        }
    }
}

/// Whatever an extraction writes or makes lies in a regular destination, with and
/// without a directory that is stripped. The one exception is no new
/// directory: for an entry that names the destination itself, the directories
/// that hold the destination are asked for, and they are there by then.
pub proof fn zip_stays_in_destination(
    on: Platform,
    destination: Seq<char>,
    strip_dir: Option<Seq<char>>,
    entries: Seq<ZipEntryView>,
    i: int,
)
    requires
        is_regular(on, destination),
        0 <= i < zip_steps(on, destination, strip_dir, entries).actions.len(),
    ensures
        match zip_steps(on, destination, strip_dir, entries).actions[i] {
            ArchiveActionView::WriteEntry { index, path } => stays_in(on, path, destination),
            ArchiveActionView::EnsureDir { path } => stays_in(on, path, destination) || components_of(
                on,
                path,
            ).is_prefix_of(components_of(on, destination)),
            _ => false,
        },
    decreases entries.len(),
{
    let shorter = entries.drop_last();
    let before = zip_steps(on, destination, strip_dir, shorter);
    let all = zip_steps(on, destination, strip_dir, entries);
    if i < before.actions.len() {
        assert(all.actions[i] == before.actions[i]);
        zip_stays_in_destination(on, destination, strip_dir, shorter, i);
    } else {
        let n = entries.len() - 1;
        let next = entry_steps(on, destination, strip_dir, n, entries.last());
        assert(all.actions[i] == next.actions[i - before.actions.len()]);
        if let ZipEntryView::Entry { name, is_dir } = entries.last() {
            if let Some(relative) = relative_of(on, name, strip_dir) {
                lemma_output_stays(on, destination, relative);
            }
        }
    }
}

/// An entry whose name is not enclosed stops the extraction, also where it is
/// not below the wanted directory: nothing from it on is written. Where nothing
/// stopped the extraction earlier, the error names the entry.
pub proof fn zip_stops_at_unsafe_names(
    on: Platform,
    destination: Seq<char>,
    strip_dir: Option<Seq<char>>,
    entries: Seq<ZipEntryView>,
    k: int,
)
    requires
        0 <= k < entries.len(),
        entries[k] is Entry,
        !is_enclosed(on, entries[k]->name),
    ensures
        ({
            let steps = zip_steps(on, destination, strip_dir, entries);
            let before = zip_steps(on, destination, strip_dir, entries.take(k));
            &&& steps.actions == before.actions
            &&& steps.error == match before.error {
                Some(error) => Some(error),
                None => Some(unsafe_entry(entries[k]->name)),
            }
        }),
{
    let shown = entries.take(k + 1);
    assert(shown.drop_last() =~= entries.take(k));
    assert(shown.last() == entries[k]);
    let before = zip_steps(on, destination, strip_dir, entries.take(k));
    assert(zip_steps(on, destination, strip_dir, shown).actions =~= before.actions);
    lemma_zip_error(on, destination, strip_dir, entries, k + 1);
}

proof fn lemma_enclosed_walk(base: Seq<ComponentView>, steps: Seq<ComponentView>, k: int)
    requires
        0 <= k <= steps.len(),
        forall|i: int|
            0 <= i < steps.len() ==> !((#[trigger] steps[i]) is Prefix || steps[i] is RootDir),
        forall|j: int| 0 <= j <= steps.len() ==> depth(#[trigger] steps.take(j)) >= 0,
    ensures
        ({
            let reached = resolve(base, steps.take(k));
            &&& reached.len() == base.len() + depth(steps.take(k))
            &&& base =~= reached.subrange(0, base.len() as int)
            &&& forall|i: int|
                base.len() <= i < reached.len() ==> (#[trigger] reached[i]) is Normal
                    && steps.contains(reached[i])
        }),
    decreases k,
{
    let shown = steps.take(k);
    if k == 0 {
        assert(resolve(base, shown) == base);
        assert(base =~= base.subrange(0, base.len() as int));
    } else {
        lemma_enclosed_walk(base, steps, k - 1);
        assert(shown.drop_last() =~= steps.take(k - 1));
        let before = resolve(base, steps.take(k - 1));
        let next = steps[k - 1];
        assert(shown.last() == next);
        assert(depth(shown) >= 0);
        let reached = resolve_step(before, next);
        assert(resolve(base, shown) == reached);
        if next is ParentDir {
            assert(before.len() > base.len());
            assert(before[before.len() - 1] is Normal);
        }
        assert(base =~= reached.subrange(0, base.len() as int)) by {
            assert forall|i: int| 0 <= i < base.len() implies base[i] == reached[i] by {
                assert(base[i] == before.subrange(0, base.len() as int)[i]);
            }
        }
        assert forall|i: int| base.len() <= i < reached.len() implies (
        #[trigger] reached[i]) is Normal && steps.contains(reached[i]) by {
            if i < before.len() {
                assert(reached[i] == before[i]);
            } else {
                assert(reached[i] == steps[k - 1]);
            }
        }
    }
}

/// Where a run of a plan stands after `n` steps, where `failed` tells which steps
/// fail.
pub open spec fn run_of(plan: ExtractPlanView, failed: spec_fn(Step) -> bool, n: nat) -> Step
    decreases n,
{
    if n == 0 {
        Step::Prepare(0)
    } else {
        let before = run_of(plan, failed, (n - 1) as nat);
        step_after(plan, before, failed(before))
    }
}

/// While nothing fails, a run goes through the preparation in order.
proof fn lemma_prepares(plan: ExtractPlanView, failed: spec_fn(Step) -> bool, n: int)
    requires
        0 <= n < plan.prepare.len() <= usize::MAX,
        forall|i: int| 0 <= i < n ==> !#[trigger] failed(Step::Prepare(i as usize)),
    ensures
        run_of(plan, failed, n as nat) == Step::Prepare(n as usize),
    decreases n,
{
    if n > 0 {
        lemma_prepares(plan, failed, n - 1);
        assert(!failed(Step::Prepare((n - 1) as usize)));
    }
}

/// While nothing fails, a run goes through the body in order.
proof fn lemma_unpacks(plan: ExtractPlanView, failed: spec_fn(Step) -> bool, n: int)
    requires
        0 < plan.prepare.len() <= usize::MAX,
        0 <= n < plan.body.len() <= usize::MAX,
        forall|i: int|
            0 <= i < plan.prepare.len() ==> !#[trigger] failed(Step::Prepare(i as usize)),
        forall|i: int| 0 <= i < n ==> !#[trigger] failed(Step::Body(i as usize)),
    ensures
        run_of(plan, failed, plan.prepare.len() + n as nat) == Step::Body(n as usize),
    decreases n,
{
    if n > 0 {
        lemma_unpacks(plan, failed, n - 1);
        assert(!failed(Step::Body((n - 1) as usize)));
    } else {
        let last = plan.prepare.len() - 1;
        lemma_prepares(plan, failed, last);
        assert(!failed(Step::Prepare(last as usize)));
    }
}

/// Where an action of the preparation fails, the run ends there: nothing is
/// unpacked, nothing is cleaned up, and the extraction failed.
pub proof fn failed_preparation_ends_the_run(
    plan: ExtractPlanView,
    failed: spec_fn(Step) -> bool,
    k: int,
)
    requires
        0 <= k < plan.prepare.len() <= usize::MAX,
        forall|i: int| 0 <= i < k ==> !#[trigger] failed(Step::Prepare(i as usize)),
        failed(Step::Prepare(k as usize)),
    ensures
        run_of(plan, failed, k as nat) == Step::Prepare(k as usize),
        run_of(plan, failed, (k + 1) as nat) == (Step::Done { failed: true }),
{
    lemma_prepares(plan, failed, k);
}

/// Once the preparation is done, the cleanup always runs: behind the first action
/// of the body that fails, or behind the last one. The extraction failed where an
/// action of the body did, whether or not the cleanup fails too.
pub proof fn cleanup_always_runs(plan: ExtractPlanView, failed: spec_fn(Step) -> bool, k: int)
    requires
        0 < plan.prepare.len() <= usize::MAX,
        0 <= k < plan.body.len() <= usize::MAX,
        plan.cleanup is Some,
        forall|i: int|
            0 <= i < plan.prepare.len() ==> !#[trigger] failed(Step::Prepare(i as usize)),
        forall|i: int| 0 <= i < k ==> !#[trigger] failed(Step::Body(i as usize)),
        failed(Step::Body(k as usize)) || k == plan.body.len() - 1,
    ensures
        ({
            let n = plan.prepare.len() + k as nat;
            let result = failed(Step::Body(k as usize));
            &&& run_of(plan, failed, n) == Step::Body(k as usize)
            &&& run_of(plan, failed, n + 1) == (Step::Cleanup { failed: result })
            &&& run_of(plan, failed, n + 2) == (Step::Done { failed: result })
        }),
{
    lemma_unpacks(plan, failed, k);
    reveal_with_fuel(run_of, 3);
}

/// A plan for a whole archive has something to prepare and a body, and it cleans
/// up what it makes: the temporary directory that it unpacks to.
pub proof fn plans_clean_up(
    on: Platform,
    destination: Seq<char>,
    strip_dir: Option<Seq<char>>,
)
    ensures
        ({
            let tar = tar_plan(on, destination, strip_dir);
            let sevenz = sevenz_plan(on, destination, strip_dir);
            &&& tar.prepare.len() > 0 && tar.body.len() > 0
            &&& sevenz.prepare.len() > 0 && sevenz.body.len() > 0
            &&& tar.cleanup == temporary_of(on, destination, ".hok-tar-extract"@, strip_dir)
            &&& sevenz.cleanup == temporary_of(on, destination, ".hok-7z-extract"@, strip_dir)
            &&& tar.cleanup matches Some(path) ==> tar.prepare.last() == (
            ArchiveActionView::EnsureDir { path }) && tar.body[0] == (
            ArchiveActionView::Unpack { path })
            &&& sevenz.cleanup matches Some(path) ==> sevenz.prepare.last() == (
            ArchiveActionView::EnsureDir { path }) && sevenz.body[1] == (
            ArchiveActionView::Unpack { path })
        }),
{
}

/// Whether an entry stands below a directory: the components of the directory are the
/// first of the entry's, and more of them follow.
pub open spec fn is_below(on: Platform, name: Seq<char>, dir: Seq<char>) -> bool {
    let lead = components_of(on, dir);
    let all = components_of(on, name);
    &&& lead.len() < all.len()
    &&& forall|i: int| 0 <= i < lead.len() ==> lead[i] == #[trigger] all[i]
}

/// The path of an entry below the directory that is unpacked: it is there exactly for
/// the entries below the directory, and where it is a relative path, its components
/// are those of the entry behind the components of the directory.
proof fn lemma_relative(on: Platform, name: Seq<char>, dir: Seq<char>)
    requires
        is_enclosed(on, name),
    ensures
        relative_of(on, name, Some(dir)) is Some <==> is_below(on, name, dir),
        relative_of(on, name, Some(dir)) matches Some(relative) ==> is_enclosed(on, relative)
            ==> components_of(on, relative) == components_of(on, name).skip(
            components_of(on, dir).len() as int,
        ),
{
    lemma_enclosed_is_unanchored(on, name);
    strip_leaves_what_follows(on, name, dir);
    let lead = components_of(on, dir);
    let all = components_of(on, name);
    if is_below(on, name, dir) {
        assert(lead =~= all.subrange(0, lead.len() as int));
    } else if lead.is_prefix_of(all) {
        assert forall|i: int| 0 <= i < lead.len() implies lead[i] == #[trigger] all[i] by {
            assert(lead[i] == all.subrange(0, lead.len() as int)[i]);
        }
    }
    if let Some(relative) = relative_of(on, name, Some(dir)) {
        if is_enclosed(on, relative) {
            lemma_enclosed_is_unanchored(on, relative);
            strip_removes_the_directory(on, name, dir);
        }
    }
}

/// Where one directory of an archive is wanted, a file is written exactly where it
/// stands below that directory, and the path below the destination that it is written
/// to has exactly the components that follow those of the directory.
pub proof fn zip_unpacks_one_directory(
    on: Platform,
    destination: Seq<char>,
    dir: Seq<char>,
    entries: Seq<ZipEntryView>,
    k: int,
    name: Seq<char>,
)
    requires
        zip_steps(on, destination, Some(dir), entries).error is None,
        0 <= k < entries.len(),
        entries[k] == (ZipEntryView::Entry { name, is_dir: false }),
    ensures
        ({
            let plan = zip_plan(on, destination, Some(dir), entries);
            let rest = components_of(on, name).skip(components_of(on, dir).len() as int);
            &&& is_below(on, name, dir) <==> exists|path: Seq<char>|
                #[trigger] plan.contains(ArchiveActionView::WriteEntry { index: k, path })
            &&& forall|path: Seq<char>|
                #[trigger] plan.contains(ArchiveActionView::WriteEntry { index: k, path })
                    ==> exists|relative: Seq<char>|
                    {
                        &&& path == #[trigger] join_of(on, destination, relative)
                        &&& components_of(on, relative) == rest
                        &&& is_ordinary(on, destination) ==> components_of(on, path)
                            == components_of(on, destination) + names_of(on, relative)
                    }
        }),
{
    let steps = zip_steps(on, destination, Some(dir), entries);
    let plan = zip_plan(on, destination, Some(dir), entries);
    assert(plan =~= seq![ArchiveActionView::EnsureDir { path: destination }] + steps.actions);
    lemma_checked(on, destination, Some(dir), entries, k, name, false);
    lemma_relative(on, name, dir);
    if is_below(on, name, dir) {
        zip_writes_every_entry(on, destination, Some(dir), entries, k, name);
        let path = join_of(on, destination, relative_of(on, name, Some(dir))->0);
        let wanted = ArchiveActionView::WriteEntry { index: k, path };
        let j = choose|j: int| 0 <= j < steps.actions.len() && steps.actions[j] == wanted;
        assert(plan[j + 1] == wanted);
        assert(plan.contains(wanted));
    }
    assert forall|path: Seq<char>|
        #[trigger] plan.contains(ArchiveActionView::WriteEntry { index: k, path }) implies
        is_below(on, name, dir) && path == join_of(
        on,
        destination,
        relative_of(on, name, Some(dir))->0,
    ) by {
        let wanted = ArchiveActionView::WriteEntry { index: k, path };
        let j = choose|j: int| 0 <= j < plan.len() && plan[j] == wanted;
        assert(steps.actions[j - 1] == wanted);
        zip_writes_validated_entries(on, destination, Some(dir), entries, j - 1);
    }
    if is_below(on, name, dir) {
        let relative = relative_of(on, name, Some(dir))->0;
        if is_ordinary(on, destination) {
            lemma_enclosed_is_unanchored(on, relative);
            join_keeps_prefix(on, destination, relative);
            join_stays_below(on, destination, relative);
        }
    }
}

/// Where nothing stops an extraction, the names of its entries are validated, and what
/// remains of them too.
proof fn lemma_checked(
    on: Platform,
    destination: Seq<char>,
    strip_dir: Option<Seq<char>>,
    entries: Seq<ZipEntryView>,
    k: int,
    name: Seq<char>,
    is_dir: bool,
)
    requires
        zip_steps(on, destination, strip_dir, entries).error is None,
        0 <= k < entries.len(),
        entries[k] == (ZipEntryView::Entry { name, is_dir }),
    ensures
        is_enclosed(on, name),
        relative_of(on, name, strip_dir) matches Some(relative) ==> is_enclosed(on, relative),
    decreases entries.len(),
{
    if k < entries.len() - 1 {
        let shorter = entries.drop_last();
        assert(shorter[k] == entries[k]);
        lemma_checked(on, destination, strip_dir, shorter, k, name, is_dir);
    } else {
        assert(entries.last() == entries[k]);
    }
}

/// Where the whole archive is wanted, every file is written, under its whole name in
/// the destination, and nowhere else.
pub proof fn zip_unpacks_the_whole_archive(
    on: Platform,
    destination: Seq<char>,
    entries: Seq<ZipEntryView>,
    k: int,
    name: Seq<char>,
)
    requires
        zip_steps(on, destination, None, entries).error is None,
        0 <= k < entries.len(),
        entries[k] == (ZipEntryView::Entry { name, is_dir: false }),
    ensures
        forall|path: Seq<char>|
            #[trigger] zip_plan(on, destination, None, entries).contains(
                ArchiveActionView::WriteEntry { index: k, path },
            ) <==> path == join_of(on, destination, name),
{
    let steps = zip_steps(on, destination, None, entries);
    let plan = zip_plan(on, destination, None, entries);
    assert(plan =~= seq![ArchiveActionView::EnsureDir { path: destination }] + steps.actions);
    zip_writes_every_entry(on, destination, None, entries, k, name);
    let found = ArchiveActionView::WriteEntry { index: k, path: join_of(on, destination, name) };
    let j = choose|j: int| 0 <= j < steps.actions.len() && steps.actions[j] == found;
    assert(plan[j + 1] == found);
    assert forall|path: Seq<char>|
        #[trigger] plan.contains(ArchiveActionView::WriteEntry { index: k, path }) implies path
        == join_of(on, destination, name) by {
        let wanted = ArchiveActionView::WriteEntry { index: k, path };
        let j = choose|j: int| 0 <= j < plan.len() && plan[j] == wanted;
        assert(steps.actions[j - 1] == wanted);
        zip_writes_validated_entries(on, destination, None, entries, j - 1);
    }
}

/// Where nothing stops an extraction, every directory of the archive that is wanted is
/// made: in the destination, under its whole name or, where one directory is unpacked,
/// under what follows the components of that.
pub proof fn zip_makes_every_directory(
    on: Platform,
    destination: Seq<char>,
    strip_dir: Option<Seq<char>>,
    entries: Seq<ZipEntryView>,
    k: int,
    name: Seq<char>,
)
    requires
        zip_steps(on, destination, strip_dir, entries).error is None,
        0 <= k < entries.len(),
        entries[k] == (ZipEntryView::Entry { name, is_dir: true }),
        strip_dir matches Some(dir) ==> is_below(on, name, dir),
    ensures
        exists|relative: Seq<char>|
            {
                &&& zip_steps(on, destination, strip_dir, entries).actions.contains(
                    ArchiveActionView::EnsureDir {
                        path: #[trigger] join_of(on, destination, relative),
                    },
                )
                &&& match strip_dir {
                    Some(dir) => components_of(on, relative) == components_of(on, name).skip(
                        components_of(on, dir).len() as int,
                    ),
                    None => relative == name,
                }
            },
    decreases entries.len(),
{
    lemma_checked(on, destination, strip_dir, entries, k, name, true);
    if let Some(dir) = strip_dir {
        lemma_relative(on, name, dir);
    }
    let relative = relative_of(on, name, strip_dir)->0;
    lemma_dir_made(on, destination, strip_dir, entries, k, name);
    let made = ArchiveActionView::EnsureDir { path: join_of(on, destination, relative) };
    assert(zip_steps(on, destination, strip_dir, entries).actions.contains(made));
}

proof fn lemma_dir_made(
    on: Platform,
    destination: Seq<char>,
    strip_dir: Option<Seq<char>>,
    entries: Seq<ZipEntryView>,
    k: int,
    name: Seq<char>,
)
    requires
        zip_steps(on, destination, strip_dir, entries).error is None,
        0 <= k < entries.len(),
        entries[k] == (ZipEntryView::Entry { name, is_dir: true }),
        relative_of(on, name, strip_dir) is Some,
    ensures
        zip_steps(on, destination, strip_dir, entries).actions.contains(
            ArchiveActionView::EnsureDir {
                path: join_of(on, destination, relative_of(on, name, strip_dir)->0),
            },
        ),
    decreases entries.len(),
{
    let shorter = entries.drop_last();
    let before = zip_steps(on, destination, strip_dir, shorter);
    let all = zip_steps(on, destination, strip_dir, entries);
    let made = ArchiveActionView::EnsureDir {
        path: join_of(on, destination, relative_of(on, name, strip_dir)->0),
    };
    let n = entries.len() - 1;
    let next = entry_steps(on, destination, strip_dir, n, entries.last());
    assert(all.actions == before.actions + next.actions);
    if k < n {
        assert(shorter[k] == entries[k]);
        lemma_dir_made(on, destination, strip_dir, shorter, k, name);
        let j = choose|j: int| 0 <= j < before.actions.len() && before.actions[j] == made;
        assert(all.actions[j] == made);
    } else {
        assert(next.actions[0] == made);
        assert(all.actions[before.actions.len() as int] == made);
    }
}

/// The destination is made before anything else, and what the first entries ask for
/// comes in front of what the later ones do. Each file is written right after the
/// directory that holds it was asked for.
pub proof fn zip_keeps_the_order(
    on: Platform,
    destination: Seq<char>,
    strip_dir: Option<Seq<char>>,
    entries: Seq<ZipEntryView>,
    k: int,
)
    requires
        0 <= k <= entries.len(),
    ensures
        ({
            let plan = zip_plan(on, destination, strip_dir, entries);
            let first = zip_steps(on, destination, strip_dir, entries.take(k)).actions;
            &&& plan[0] == (ArchiveActionView::EnsureDir { path: destination })
            &&& first.len() < plan.len()
            &&& forall|i: int| 0 <= i < first.len() ==> plan[i + 1] == #[trigger] first[i]
            &&& forall|i: int|
                0 <= i < plan.len() ==> ((#[trigger] plan[i]) matches ArchiveActionView::WriteEntry {
                    path,
                    ..
                } ==> (parent_of(on, path) matches Some(dir) ==> i > 0 && plan[i - 1]
                    == (ArchiveActionView::EnsureDir { path: dir })))
        }),
    decreases entries.len(),
{
    let plan = zip_plan(on, destination, strip_dir, entries);
    let all = zip_steps(on, destination, strip_dir, entries);
    if entries.len() > 0 {
        let shorter = entries.drop_last();
        let before = zip_steps(on, destination, strip_dir, shorter);
        let less = zip_plan(on, destination, strip_dir, shorter);
        let next = entry_steps(on, destination, strip_dir, entries.len() - 1, entries.last());
        if k < entries.len() {
            assert(shorter.take(k) =~= entries.take(k));
            zip_keeps_the_order(on, destination, strip_dir, shorter, k);
        } else {
            assert(entries.take(k) =~= entries);
            zip_keeps_the_order(on, destination, strip_dir, shorter, k - 1);
        }
        let first = zip_steps(on, destination, strip_dir, entries.take(k)).actions;
        let n = before.actions.len() as int;
        assert forall|i: int| 0 <= i < n implies all.actions[i] == before.actions[i] by {}
        assert forall|i: int| 0 <= i < first.len() implies plan[i + 1] == #[trigger] first[i] by {
            if k < entries.len() {
                assert(less[i + 1] == first[i]);
                if i >= n {
                    assert(less[i + 1] is Fail);
                    lemma_no_fail(on, destination, strip_dir, entries.take(k), i);
                }
            }
        }
        assert forall|i: int| 0 <= i < plan.len() implies ((
        #[trigger] plan[i]) matches ArchiveActionView::WriteEntry { path, .. } ==> (parent_of(
            on,
            path,
        ) matches Some(dir) ==> i > 0 && plan[i - 1] == (ArchiveActionView::EnsureDir {
            path: dir,
        }))) by {
            if 0 < i <= n {
                assert(plan[i] == less[i]);
                assert(plan[i - 1] == less[i - 1]);
            } else if i > n && i <= all.actions.len() {
                assert(plan[i] == all.actions[i - 1]);
                assert(all.actions[i - 1] == next.actions[i - 1 - n]);
                if i - 1 - n > 0 {
                    assert(plan[i - 1] == next.actions[i - 2 - n]);
                }
            }
        }
    } else {
        assert(entries.take(k) =~= entries);
    }
}

/// What entries ask for never is to stop.
proof fn lemma_no_fail(
    on: Platform,
    destination: Seq<char>,
    strip_dir: Option<Seq<char>>,
    entries: Seq<ZipEntryView>,
    i: int,
)
    requires
        0 <= i < zip_steps(on, destination, strip_dir, entries).actions.len(),
    ensures
        !(zip_steps(on, destination, strip_dir, entries).actions[i] is Fail),
    decreases entries.len(),
{
    let shorter = entries.drop_last();
    let before = zip_steps(on, destination, strip_dir, shorter);
    let all = zip_steps(on, destination, strip_dir, entries);
    if i < before.actions.len() {
        assert(all.actions[i] == before.actions[i]);
        lemma_no_fail(on, destination, strip_dir, shorter, i);
    }
}

/// An extraction stops exactly where an entry cannot be read, or its name or what is
/// below the wanted directory would lead out of the destination. The first such entry
/// is told, and nothing that stands behind it is unpacked.
pub proof fn zip_tells_the_first_bad_entry(
    on: Platform,
    destination: Seq<char>,
    strip_dir: Option<Seq<char>>,
    entries: Seq<ZipEntryView>,
    k: int,
)
    requires
        0 <= k < entries.len(),
        zip_steps(on, destination, strip_dir, entries.take(k)).error is None,
    ensures
        ({
            let plan = zip_plan(on, destination, strip_dir, entries);
            match entries[k] {
                ZipEntryView::Unreadable(reason) => plan.last() == ArchiveActionView::Fail(
                    ErrorView::Custom("ZIP error: "@ + reason),
                ),
                ZipEntryView::Entry { name, .. } => {
                    let told = ArchiveActionView::Fail(
                        ErrorView::Custom("unsafe path '"@ + name + "' in ZIP archive"@),
                    );
                    &&& !is_enclosed(on, name) ==> plan.last() == told
                    &&& zip_steps(on, destination, strip_dir, entries.take(k + 1)).error is Some
                        ==> plan.last() == told
                    &&& is_enclosed(on, name) && strip_dir is None ==> zip_steps(
                        on,
                        destination,
                        strip_dir,
                        entries.take(k + 1),
                    ).error is None
                    &&& is_enclosed(on, name) && (strip_dir matches Some(dir) && !is_below(
                        on,
                        name,
                        dir,
                    )) ==> zip_steps(on, destination, strip_dir, entries.take(k + 1)).error is None
                },
            }
        }),
{
    let shown = entries.take(k + 1);
    assert(shown.drop_last() =~= entries.take(k));
    assert(shown.last() == entries[k]);
    if zip_steps(on, destination, strip_dir, shown).error is Some {
        lemma_zip_error(on, destination, strip_dir, entries, k + 1);
    }
    if let ZipEntryView::Entry { name, .. } = entries[k] {
        if is_enclosed(on, name) {
            if let Some(dir) = strip_dir {
                lemma_relative(on, name, dir);
            }
        }
    }
}

/// How many of some components are names, and how many are steps to a parent.
pub open spec fn names_in(steps: Seq<ComponentView>) -> nat {
    steps.filter(|c: ComponentView| c is Normal).len()
}

pub open spec fn parents_in(steps: Seq<ComponentView>) -> nat {
    steps.filter(|c: ComponentView| c is ParentDir).len()
}

proof fn lemma_depth_counts(steps: Seq<ComponentView>)
    ensures
        depth(steps) == names_in(steps) - parents_in(steps),
    decreases steps.len(),
{
    reveal(Seq::filter);
    if steps.len() > 0 {
        lemma_depth_counts(steps.drop_last());
    }
}

/// A name is accepted exactly where it holds no null character, has neither a prefix
/// nor a root, and at no point has more steps to a parent than names in front.
pub proof fn enclosed_names_never_lead_out(on: Platform, name: Seq<char>)
    ensures
        is_enclosed(on, name) <==> {
            let steps = components_of(on, name);
            &&& !name.contains('\0')
            &&& prefix(on, name) is None
            &&& !has_physical_root(on, name)
            &&& forall|k: int|
                0 <= k <= steps.len() ==> parents_in(#[trigger] steps.take(k)) <= names_in(
                    steps.take(k),
                )
        },
{
    let steps = components_of(on, name);
    assert forall|k: int| 0 <= k <= steps.len() implies depth(#[trigger] steps.take(k))
        == names_in(steps.take(k)) - parents_in(steps.take(k)) by {
        lemma_depth_counts(steps.take(k));
    }
    if is_enclosed(on, name) {
        lemma_enclosed_is_unanchored(on, name);
        assert forall|k: int| 0 <= k <= steps.len() implies parents_in(#[trigger] steps.take(k))
            <= names_in(steps.take(k)) by {
            assert(depth(steps.take(k)) >= 0);
        }
    } else if prefix(on, name) is None && !has_physical_root(on, name) && !name.contains('\0')
        && forall|k: int|
        0 <= k <= steps.len() ==> parents_in(#[trigger] steps.take(k)) <= names_in(steps.take(k)) {
        lemma_body_kinds(on, name);
        assert forall|k: int| 0 <= k <= steps.len() implies depth(#[trigger] steps.take(k))
            >= 0 by {
            assert(parents_in(steps.take(k)) <= names_in(steps.take(k)));
        }
    }
}

/// Without a prefix and a root, no component is one.
proof fn lemma_body_kinds(on: Platform, name: Seq<char>)
    requires
        prefix(on, name) is None,
        !has_physical_root(on, name),
    ensures
        forall|i: int|
            0 <= i < components_of(on, name).len() ==> !((#[trigger] components_of(on, name)[i])
                is Prefix || components_of(on, name)[i] is RootDir),
{
}

/// An entry that is moved replaces what is in its way, and nothing else: whatever is
/// removed is the target, as the thing that it is, and the entry is moved last.
pub proof fn moved_entries_replace_the_target(
    entry: Seq<char>,
    target: Seq<char>,
    target_exists: bool,
    target_is_dir: bool,
    i: int,
)
    requires
        0 <= i < moving(entry, target, target_exists, target_is_dir).len(),
    ensures
        ({
            let actions = moving(entry, target, target_exists, target_is_dir);
            &&& actions.last() == (ArchiveActionView::Rename { from: entry, to: target })
            &&& actions.len() == if target_exists {
                2nat
            } else {
                1nat
            }
            &&& i < actions.len() - 1 ==> actions[i] == if target_is_dir {
                ArchiveActionView::RemoveDir { path: target }
            } else {
                ArchiveActionView::RemoveFile { path: target }
            }
        }),
{
}

/// The files on disk, or those of an archive, each by the components of its path.
pub type Tree = Map<Seq<ComponentView>, Seq<u8>>;

/// Whether a path stands below a directory.
pub open spec fn lies_in(path: Seq<ComponentView>, dir: Seq<ComponentView>) -> bool {
    dir.len() < path.len() && path.take(dir.len() as int) == dir
}

/// The path behind a directory.
pub open spec fn behind(path: Seq<ComponentView>, dir: Seq<ComponentView>) -> Seq<ComponentView> {
    path.skip(dir.len() as int)
}

/// A directory is removed with what is in it.
pub open spec fn without_dir(tree: Tree, dir: Seq<ComponentView>) -> Tree {
    Map::new(
        |p: Seq<ComponentView>| tree.dom().contains(p) && !lies_in(p, dir),
        |p: Seq<ComponentView>| tree[p],
    )
}

/// An archive is unpacked into a directory.
pub open spec fn with_archive(tree: Tree, archive: Tree, dir: Seq<ComponentView>) -> Tree {
    Map::new(
        |p: Seq<ComponentView>|
            tree.dom().contains(p) || (lies_in(p, dir) && archive.dom().contains(behind(p, dir))),
        |p: Seq<ComponentView>|
            if lies_in(p, dir) && archive.dom().contains(behind(p, dir)) {
                archive[behind(p, dir)]
            } else {
                tree[p]
            },
    )
}

/// Whether a path is in the way of an entry that is moved.
pub open spec fn gives_way(
    tree: Tree,
    from: Seq<ComponentView>,
    to: Seq<ComponentView>,
    path: Seq<ComponentView>,
) -> bool {
    lies_in(path, to) && exists|q: Seq<ComponentView>| #[trigger]
        tree.dom().contains(q) && lies_in(q, from) && q[from.len() as int] == path[to.len() as int]
}

/// The entries of one directory are moved to another, and replace what is there.
pub open spec fn with_moved(
    tree: Tree,
    from: Seq<ComponentView>,
    to: Seq<ComponentView>,
) -> Tree {
    Map::new(
        |p: Seq<ComponentView>|
            (lies_in(p, to) && tree.dom().contains(from + behind(p, to))) || (tree.dom().contains(p)
                && !lies_in(p, from) && !gives_way(tree, from, to, p)),
        |p: Seq<ComponentView>|
            if lies_in(p, to) && tree.dom().contains(from + behind(p, to)) {
                tree[from + behind(p, to)]
            } else {
                tree[p]
            },
    )
}

/// What an action does to the files, where it does not fail.
pub open spec fn after_action(
    on: Platform,
    tree: Tree,
    archive: Tree,
    action: ArchiveActionView,
) -> Tree {
    match action {
        ArchiveActionView::RemoveDirIfExists { path } => without_dir(tree, components_of(on, path)),
        ArchiveActionView::RemoveDir { path } => without_dir(tree, components_of(on, path)),
        ArchiveActionView::Unpack { path } => with_archive(
            tree,
            archive,
            components_of(on, path),
        ),
        ArchiveActionView::MoveEntries { from, to } => with_moved(
            tree,
            components_of(on, from),
            components_of(on, to),
        ),
        _ => tree,
    }
}

/// What actions do one after the other.
pub open spec fn after_actions(
    on: Platform,
    tree: Tree,
    archive: Tree,
    actions: Seq<ArchiveActionView>,
) -> Tree
    decreases actions.len(),
{
    if actions.len() == 0 {
        tree
    } else {
        after_action(
            on,
            after_actions(on, tree, archive, actions.drop_last()),
            archive,
            actions.last(),
        )
    }
}

/// The files after a run of a plan in which nothing fails.
pub open spec fn extracted(
    on: Platform,
    tree: Tree,
    archive: Tree,
    plan: ExtractPlanView,
) -> Tree {
    let unpacked = after_actions(
        on,
        after_actions(on, tree, archive, plan.prepare),
        archive,
        plan.body,
    );
    match plan.cleanup {
        Some(path) => without_dir(unpacked, components_of(on, path)),
        None => unpacked,
    }
}

/// What a plan does that unpacks to a temporary directory and moves one directory of
/// the archive to the destination.
proof fn lemma_extracted(
    on: Platform,
    tree: Tree,
    archive: Tree,
    destination: Seq<char>,
    dir: Seq<char>,
)
    requires
        is_safe(on, dir),
    ensures
        ({
            let tar = tar_plan(on, destination, Some(dir));
            let sevenz = sevenz_plan(on, destination, Some(dir));
            &&& tar.cleanup == Some(join_of(on, destination, ".hok-tar-extract"@))
            &&& sevenz.cleanup == Some(join_of(on, destination, ".hok-7z-extract"@))
            &&& forall|plan: ExtractPlanView|
                plan == tar || plan == sevenz ==> {
                    let temporary = plan.cleanup->0;
                    let space = components_of(on, temporary);
                    #[trigger] extracted(on, tree, archive, plan) == without_dir(
                        with_moved(
                            with_archive(without_dir(tree, space), archive, space),
                            components_of(on, join_of(on, temporary, dir)),
                            components_of(on, destination),
                        ),
                        space,
                    )
                }
        }),
{
    let tar = tar_plan(on, destination, Some(dir));
    let sevenz = sevenz_plan(on, destination, Some(dir));
    reveal_with_fuel(after_actions, 5);
    let t = tar.prepare;
    assert(t.drop_last().drop_last().drop_last().drop_last() =~= Seq::<ArchiveActionView>::empty());
    let b = tar.body;
    assert(b.drop_last().drop_last().drop_last() =~= Seq::<ArchiveActionView>::empty());
    let s = sevenz.prepare;
    assert(s.drop_last().drop_last().drop_last() =~= Seq::<ArchiveActionView>::empty());
    let c = sevenz.body;
    assert(c.drop_last().drop_last().drop_last().drop_last() =~= Seq::<
        ArchiveActionView,
    >::empty());
}

/// A name of a temporary directory is one component.
proof fn lemma_space(on: Platform, destination: Seq<char>, dir: Seq<char>, name: Seq<char>)
    requires
        name == ".hok-tar-extract"@ || name == ".hok-7z-extract"@,
        is_regular(on, destination),
        is_safe(on, dir),
    ensures
        ({
            let temporary = join_of(on, destination, name);
            &&& components_of(on, temporary) == components_of(on, destination) + root_for_name(
                on,
                destination,
            ) + seq![ComponentView::Normal(name)]
            &&& components_of(on, join_of(on, temporary, dir)) == components_of(on, temporary)
                + names_of(on, dir)
        }),
{
    reveal_strlit(".hok-tar-extract");
    reveal_strlit(".hok-7z-extract");
    join_adds_the_name(on, destination, name);
    let temporary = join_of(on, destination, name);
    safe_join_stays_below(on, temporary, dir);
    assert(components_of(on, temporary) + seq![] + names_of(on, dir) =~= components_of(
        on,
        temporary,
    ) + names_of(on, dir));
}

/// An extraction of one directory brings every file of that directory to the
/// destination that was asked for, with the contents it has in the archive: after a run
/// in which nothing fails, the cleanup included, the file is there. A file that
/// would go to the temporary directory itself is the one exception.
pub proof fn wanted_files_arrive(
    on: Platform,
    tree: Tree,
    archive: Tree,
    destination: Seq<char>,
    dir: Seq<char>,
    rest: Seq<ComponentView>,
)
    requires
        is_regular(on, destination),
        is_safe(on, dir),
        rest.len() > 0,
        rest[0] is Normal,
        rest[0] != ComponentView::Normal(".hok-tar-extract"@),
        rest[0] != ComponentView::Normal(".hok-7z-extract"@),
        archive.dom().contains(names_of(on, dir) + rest),
    ensures
        ({
            let path = components_of(on, destination) + rest;
            let by_tar = extracted(on, tree, archive, tar_plan(on, destination, Some(dir)));
            let by_7z = extracted(on, tree, archive, sevenz_plan(on, destination, Some(dir)));
            &&& by_tar.dom().contains(path) && by_tar[path] == archive[names_of(on, dir) + rest]
            &&& by_7z.dom().contains(path) && by_7z[path] == archive[names_of(on, dir) + rest]
        }),
{
    lemma_extracted(on, tree, archive, destination, dir);
    lemma_arrives(on, tree, archive, destination, dir, rest, ".hok-tar-extract"@);
    lemma_arrives(on, tree, archive, destination, dir, rest, ".hok-7z-extract"@);
}

proof fn lemma_arrives(
    on: Platform,
    tree: Tree,
    archive: Tree,
    destination: Seq<char>,
    dir: Seq<char>,
    rest: Seq<ComponentView>,
    name: Seq<char>,
)
    requires
        name == ".hok-tar-extract"@ || name == ".hok-7z-extract"@,
        is_regular(on, destination),
        is_safe(on, dir),
        rest.len() > 0,
        rest[0] is Normal,
        rest[0] != ComponentView::Normal(name),
        archive.dom().contains(names_of(on, dir) + rest),
    ensures
        ({
            let temporary = join_of(on, destination, name);
            let space = components_of(on, temporary);
            let path = components_of(on, destination) + rest;
            let after = without_dir(
                with_moved(
                    with_archive(without_dir(tree, space), archive, space),
                    components_of(on, join_of(on, temporary, dir)),
                    components_of(on, destination),
                ),
                space,
            );
            after.dom().contains(path) && after[path] == archive[names_of(on, dir) + rest]
        }),
{
    lemma_space(on, destination, dir, name);
    let temporary = join_of(on, destination, name);
    let space = components_of(on, temporary);
    let base = components_of(on, destination);
    let wanted = names_of(on, dir);
    let path = base + rest;
    let from = space + wanted;
    let unpacked = with_archive(without_dir(tree, space), archive, space);
    assert(path.take(base.len() as int) =~= base);
    assert(behind(path, base) =~= rest);
    let key = from + rest;
    assert(key.take(space.len() as int) =~= space);
    assert(behind(key, space) =~= wanted + rest);
    assert(unpacked.dom().contains(key));
    let moved = with_moved(unpacked, from, base);
    assert(moved.dom().contains(path) && moved[path] == archive[wanted + rest]);
    assert(!lies_in(path, space)) by {
        if lies_in(path, space) {
            let n = base.len() as int;
            assert(path.take(space.len() as int)[n] == path[n]);
            assert(path[n] == rest[0]);
            assert(space[n] == path[n]);
        }
    }
}

/// An extraction of one directory brings nothing else: every file that is there
/// afterwards is one of that directory, in its place below the destination and as it is
/// in the archive, or was there before and is unchanged. Nothing stays in the
/// temporary directory.
pub proof fn nothing_else_arrives(
    on: Platform,
    tree: Tree,
    archive: Tree,
    destination: Seq<char>,
    dir: Seq<char>,
    plan: ExtractPlanView,
    path: Seq<ComponentView>,
)
    requires
        is_regular(on, destination),
        is_safe(on, dir),
        plan == tar_plan(on, destination, Some(dir)) || plan == sevenz_plan(
            on,
            destination,
            Some(dir),
        ),
        extracted(on, tree, archive, plan).dom().contains(path),
    ensures
        ({
            let base = components_of(on, destination);
            let source = names_of(on, dir) + behind(path, base);
            let after = extracted(on, tree, archive, plan);
            ||| lies_in(path, base) && archive.dom().contains(source) && after[path]
                == archive[source]
            ||| tree.dom().contains(path) && after[path] == tree[path]
        }),
        plan.cleanup matches Some(temporary) && !lies_in(path, components_of(on, temporary)),
{
    lemma_extracted(on, tree, archive, destination, dir);
    if plan == tar_plan(on, destination, Some(dir)) {
        lemma_only_wanted(on, tree, archive, destination, dir, ".hok-tar-extract"@, path);
    } else {
        lemma_only_wanted(on, tree, archive, destination, dir, ".hok-7z-extract"@, path);
    }
}

proof fn lemma_only_wanted(
    on: Platform,
    tree: Tree,
    archive: Tree,
    destination: Seq<char>,
    dir: Seq<char>,
    name: Seq<char>,
    path: Seq<ComponentView>,
)
    requires
        name == ".hok-tar-extract"@ || name == ".hok-7z-extract"@,
        is_regular(on, destination),
        is_safe(on, dir),
    ensures
        ({
            let temporary = join_of(on, destination, name);
            let space = components_of(on, temporary);
            let base = components_of(on, destination);
            let source = names_of(on, dir) + behind(path, base);
            let after = without_dir(
                with_moved(
                    with_archive(without_dir(tree, space), archive, space),
                    components_of(on, join_of(on, temporary, dir)),
                    base,
                ),
                space,
            );
            after.dom().contains(path) ==> {
                &&& !lies_in(path, space)
                &&& (lies_in(path, base) && archive.dom().contains(source) && after[path]
                    == archive[source]) || (tree.dom().contains(path) && after[path] == tree[path])
            }
        }),
{
    lemma_space(on, destination, dir, name);
    let space = components_of(on, join_of(on, destination, name));
    let base = components_of(on, destination);
    let wanted = names_of(on, dir);
    let from = space + wanted;
    let cleared = without_dir(tree, space);
    let unpacked = with_archive(cleared, archive, space);
    if lies_in(path, base) && unpacked.dom().contains(from + behind(path, base)) {
        let key = from + behind(path, base);
        assert(key.take(space.len() as int) =~= space);
        assert(lies_in(key, space));
        assert(behind(key, space) =~= wanted + behind(path, base));
        assert(!cleared.dom().contains(key));
    }
}

/// Without a wanted directory, the whole archive is unpacked in the destination, every
/// file in its place, and what else was there stays.
pub proof fn the_whole_archive_arrives(
    on: Platform,
    tree: Tree,
    archive: Tree,
    destination: Seq<char>,
    path: Seq<ComponentView>,
)
    ensures
        ({
            let base = components_of(on, destination);
            let by_tar = extracted(on, tree, archive, tar_plan(on, destination, None));
            let by_7z = extracted(on, tree, archive, sevenz_plan(on, destination, None));
            &&& by_tar == by_7z
            &&& lies_in(path, base) && archive.dom().contains(behind(path, base))
                ==> by_tar.dom().contains(path) && by_tar[path] == archive[behind(path, base)]
            &&& !(lies_in(path, base) && archive.dom().contains(behind(path, base))) ==> (
            by_tar.dom().contains(path) <==> tree.dom().contains(path)) && (tree.dom().contains(path)
                ==> by_tar[path] == tree[path])
        }),
{
    reveal_with_fuel(after_actions, 3);
    let tar = tar_plan(on, destination, None);
    let sevenz = sevenz_plan(on, destination, None);
    assert(tar.prepare.drop_last().drop_last() =~= Seq::<ArchiveActionView>::empty());
    assert(tar.body.drop_last() =~= Seq::<ArchiveActionView>::empty());
    assert(sevenz.prepare.drop_last() =~= Seq::<ArchiveActionView>::empty());
    assert(sevenz.body.drop_last().drop_last() =~= Seq::<ArchiveActionView>::empty());
}

/// Whether an action comes in front of another one in a list.
pub open spec fn precedes(
    actions: Seq<ArchiveActionView>,
    first: ArchiveActionView,
    second: ArchiveActionView,
) -> bool {
    exists|i: int, j: int|
        0 <= i < j < actions.len() && #[trigger] actions[i] == first && #[trigger] actions[j]
            == second
}

/// How the run of a plan goes: the archive is opened before it is unpacked, the
/// destination and an empty temporary directory are there by then, and before the
/// wanted directory is moved it is checked to be one. What is moved goes from below the
/// directory that was unpacked to, to the destination, as the last action of the body.
pub proof fn extraction_is_in_order(
    on: Platform,
    destination: Seq<char>,
    dir: Seq<char>,
    plan: ExtractPlanView,
)
    requires
        is_safe(on, dir),
        plan == tar_plan(on, destination, Some(dir)) || plan == sevenz_plan(
            on,
            destination,
            Some(dir),
        ),
    ensures
        ({
            let temporary = plan.cleanup->0;
            let wanted = join_of(on, temporary, dir);
            let unpack = ArchiveActionView::Unpack { path: temporary };
            let made = ArchiveActionView::EnsureDir { path: temporary };
            let check = ArchiveActionView::RequireDir {
                path: wanted,
                error: ErrorView::Custom("archive directory '"@ + dir + "' does not exist"@),
            };
            let all = plan.prepare + plan.body;
            &&& plan.cleanup is Some
            &&& plan.body.last() == (ArchiveActionView::MoveEntries {
                from: wanted,
                to: destination,
            })
            &&& is_regular(on, destination) ==> temporary != destination
            &&& precedes(all, ArchiveActionView::Open, unpack)
            &&& precedes(all, ArchiveActionView::EnsureDir { path: destination }, made)
            &&& precedes(all, ArchiveActionView::RemoveDirIfExists { path: temporary }, made)
            &&& precedes(all, made, unpack)
            &&& precedes(all, unpack, check)
            &&& precedes(all, check, plan.body.last())
            &&& plan.prepare.contains(made)
        }),
{
    let all = plan.prepare + plan.body;
    let n = plan.prepare.len() as int;
    let m = all.len() as int;
    assert(all[m - 1] == plan.body.last());
    assert(all[m - 2] == plan.body[plan.body.len() - 2]);
    assert(all[m - 3] == plan.body[plan.body.len() - 3]);
    assert(all[n - 1] == plan.prepare[n - 1]);
    assert(all[n - 2] == plan.prepare[n - 2]);
    assert(all[n - 3] == plan.prepare[n - 3]);
    assert(all[0] == plan.prepare[0]);
    assert(all[n] == plan.body[0]);
    assert(plan.prepare[n - 1] == (ArchiveActionView::EnsureDir { path: plan.cleanup->0 }));
    if is_regular(on, destination) {
        if plan == tar_plan(on, destination, Some(dir)) {
            lemma_space(on, destination, dir, ".hok-tar-extract"@);
        } else {
            lemma_space(on, destination, dir, ".hok-7z-extract"@);
        }
        assert(components_of(on, plan.cleanup->0).len() > components_of(on, destination).len());
    }
}

/// A wanted directory that would lead out of the archive is refused: the run ends with
/// the error that names it, and nothing is moved.
pub proof fn unsafe_directories_are_refused(
    on: Platform,
    destination: Seq<char>,
    dir: Seq<char>,
    plan: ExtractPlanView,
)
    requires
        !is_safe(on, dir),
        plan == tar_plan(on, destination, Some(dir)) || plan == sevenz_plan(
            on,
            destination,
            Some(dir),
        ),
    ensures
        plan.body.last() == ArchiveActionView::Fail(
            ErrorView::Custom("unsafe archive directory '"@ + dir + "'"@),
        ),
        forall|i: int|
            0 <= i < plan.body.len() ==> !((#[trigger] plan.body[i]) is MoveEntries),
        plan.cleanup is Some,
{
}

/// Where there is nothing to clean up, a run ends behind the first action of the body
/// that fails, or behind the last one, and the extraction failed where that did.
pub proof fn runs_without_cleanup_end_with_the_body(
    plan: ExtractPlanView,
    failed: spec_fn(Step) -> bool,
    k: int,
)
    requires
        0 < plan.prepare.len() <= usize::MAX,
        0 <= k < plan.body.len() <= usize::MAX,
        plan.cleanup is None,
        forall|i: int|
            0 <= i < plan.prepare.len() ==> !#[trigger] failed(Step::Prepare(i as usize)),
        forall|i: int| 0 <= i < k ==> !#[trigger] failed(Step::Body(i as usize)),
        failed(Step::Body(k as usize)) || k == plan.body.len() - 1,
    ensures
        ({
            let n = plan.prepare.len() + k as nat;
            let result = failed(Step::Body(k as usize));
            &&& run_of(plan, failed, n) == Step::Body(k as usize)
            &&& run_of(plan, failed, n + 1) == (Step::Done { failed: result })
            &&& run_of(plan, failed, n + 2) == (Step::Done { failed: result })
        }),
{
    lemma_unpacks(plan, failed, k);
    reveal_with_fuel(run_of, 3);
}

/// An entry that is moved keeps its name: it goes to the destination itself, under that
/// name.
pub proof fn moved_entries_keep_their_name(
    on: Platform,
    destination: Seq<char>,
    file_name: Seq<char>,
)
    requires
        is_regular(on, destination),
        is_name(on, file_name),
        on is Windows ==> !drive_at(file_name, 0),
    ensures
        components_of(on, moved_to(on, destination, file_name)) == components_of(on, destination)
            + root_for_name(on, destination) + seq![ComponentView::Normal(file_name)],
{
    join_adds_the_name(on, destination, file_name);
}

/// How the run of a plan for a whole archive goes: the archive is opened and the
/// destination is asked for before the archive is unpacked there, as the last action.
/// There is no temporary directory.
pub proof fn plain_extraction_is_in_order(
    on: Platform,
    destination: Seq<char>,
    plan: ExtractPlanView,
)
    requires
        plan == tar_plan(on, destination, None) || plan == sevenz_plan(on, destination, None),
    ensures
        ({
            let unpack = ArchiveActionView::Unpack { path: destination };
            let all = plan.prepare + plan.body;
            &&& plan.cleanup is None
            &&& all.len() == 3
            &&& plan.body.last() == unpack
            &&& plan.prepare.contains(ArchiveActionView::EnsureDir { path: destination })
            &&& precedes(all, ArchiveActionView::Open, unpack)
            &&& precedes(all, ArchiveActionView::EnsureDir { path: destination }, unpack)
        }),
{
    let all = plan.prepare + plan.body;
    assert(all[0] == plan.prepare[0]);
    assert(all[2] == plan.body.last());
    if plan == tar_plan(on, destination, None) {
        assert(all[1] == plan.prepare[1]);
        assert(plan.prepare[1] == (ArchiveActionView::EnsureDir { path: destination }));
    } else {
        assert(all[1] == plan.body[0]);
        assert(plan.prepare[0] == (ArchiveActionView::EnsureDir { path: destination }));
    }
}

} // verus!
