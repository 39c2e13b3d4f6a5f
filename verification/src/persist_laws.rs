//! What links do to the files of a package.

use crate::env::installed_dir;
use crate::error::ErrorView;
use crate::internal::path::{
    body_start, components_of, has_leading_dot, is_safe, is_separator, is_verbatim, join_of,
    lemma_body_start, lemma_spans_ordered, normal_form, parent_of, prefix, spans,
};
use crate::internal::path_laws::{
    extended, is_ordinary, is_regular, names_of, safe_join_stays_below,
};
use crate::package::Package;
use crate::persist::{
    definitions_of, kept_name, lemma_plan_error, linking, named_first, plan_of, planned_links, planned_unlinks,
    removal_of, unlinks_of, LinkActionView, LinkView, Removal,
};
use crate::script::{persist_dir_of, used_dir_of};
use crate::session::{Platform, Session};
use vstd::prelude::*;

verus! {

/// Every planned link has both ends below their directories: each is a safe
/// path looked up there, and in a regular directory the names of the path follow
/// the components of the directory.
pub proof fn links_stay_below(
    on: Platform,
    app: Seq<char>,
    kept: Seq<char>,
    definitions: Seq<Seq<Seq<char>>>,
    i: int,
)
    requires
        0 <= i < plan_of(on, app, kept, definitions).links.len(),
    ensures
        exists|source: Seq<char>, target: Seq<char>|
            #![trigger join_of(on, app, source), join_of(on, kept, target)]
            {
                &&& is_safe(on, source)
                &&& is_safe(on, target)
                &&& plan_of(on, app, kept, definitions).links[i].source == join_of(on, app, source)
                &&& plan_of(on, app, kept, definitions).links[i].target == join_of(on, kept, target)
                &&& is_regular(on, app) ==> components_of(on, join_of(on, app, source))
                    == extended(on, app, source)
                &&& is_regular(on, kept) ==> components_of(on, join_of(on, kept, target))
                    == extended(on, kept, target)
            },
    decreases definitions.len(),
{
    let shorter = definitions.drop_last();
    let before = plan_of(on, app, kept, shorter);
    if i < before.links.len() {
        links_stay_below(on, app, kept, shorter, i);
    } else {
        let definition = definitions.last();
        lemma_link_end(on, app, definition[0]);
        lemma_link_end(on, kept, kept_name(definition));
        assert(plan_of(on, app, kept, definitions).links[i].source == join_of(on, app, definition[0]));
        assert(plan_of(on, app, kept, definitions).links[i].target == join_of(
            on,
            kept,
            kept_name(definition),
        ));
    }
}

proof fn lemma_link_end(on: Platform, dir: Seq<char>, path: Seq<char>)
    requires
        is_safe(on, path),
    ensures
        is_regular(on, dir) ==> components_of(on, join_of(on, dir, path)) == extended(on, dir, path),
{
    if is_regular(on, dir) {
        safe_join_stays_below(on, dir, path);
    }
}

/// The definitions that have a name.
pub open spec fn named(definitions: Seq<Seq<Seq<char>>>) -> Seq<Seq<Seq<char>>> {
    definitions.filter(|d: Seq<Seq<char>>| d.len() > 0)
}

/// Whether a link is that of a definition: it leads from the first name, looked up in
/// the directory of the application, to the second name, looked up in the directory of
/// the kept data. With one name, the data is kept under the same path that the
/// application finds it at.
pub open spec fn belongs_to(
    on: Platform,
    app: Seq<char>,
    kept: Seq<char>,
    link: LinkView,
    definition: Seq<Seq<char>>,
) -> bool {
    &&& definition.len() > 0
    &&& is_safe(on, definition[0])
    &&& link.source == join_of(on, app, definition[0])
    &&& definition.len() == 1 ==> link.target == join_of(on, kept, definition[0])
    &&& definition.len() > 1 ==> is_safe(on, definition[1]) && link.target == join_of(
        on,
        kept,
        definition[1],
    )
}

/// Each definition that has a name makes one link, in order, and no other does.
pub proof fn links_follow_the_definitions(
    on: Platform,
    app: Seq<char>,
    kept: Seq<char>,
    definitions: Seq<Seq<Seq<char>>>,
)
    requires
        plan_of(on, app, kept, definitions).error is None,
    ensures
        plan_of(on, app, kept, definitions).links.len() == named(definitions).len(),
        forall|i: int|
            0 <= i < named(definitions).len() ==> belongs_to(
                on,
                app,
                kept,
                #[trigger] plan_of(on, app, kept, definitions).links[i],
                named(definitions)[i],
            ),
    decreases definitions.len(),
{
    reveal(Seq::filter);
    if definitions.len() > 0 {
        let shorter = definitions.drop_last();
        links_follow_the_definitions(on, app, kept, shorter);
        let links = plan_of(on, app, kept, definitions).links;
        let list = named(definitions);
        let before = plan_of(on, app, kept, shorter).links;
        assert forall|i: int| 0 <= i < list.len() implies belongs_to(
            on,
            app,
            kept,
            #[trigger] links[i],
            list[i],
        ) by {
            if i < before.len() {
                assert(links[i] == before[i]);
                assert(list[i] == named(shorter)[i]);
            } else {
                assert(list[i] == definitions.last());
            }
        }
    }
}

/// Data under one name is kept in its place: behind the two directories, both ends of
/// the link have the same components.
pub proof fn one_name_keeps_its_place(
    on: Platform,
    app: Seq<char>,
    kept: Seq<char>,
    definitions: Seq<Seq<Seq<char>>>,
    i: int,
)
    requires
        is_ordinary(on, app),
        is_ordinary(on, kept),
        plan_of(on, app, kept, definitions).error is None,
        0 <= i < named(definitions).len(),
        named(definitions)[i].len() == 1,
    ensures
        ({
            let link = plan_of(on, app, kept, definitions).links[i];
            components_of(on, link.target).skip(components_of(on, kept).len() as int)
                == components_of(on, link.source).skip(components_of(on, app).len() as int)
        }),
{
    links_follow_the_definitions(on, app, kept, definitions);
    let link = plan_of(on, app, kept, definitions).links[i];
    let name = named(definitions)[i][0];
    safe_join_stays_below(on, app, name);
    safe_join_stays_below(on, kept, name);
    let names = names_of(on, name);
    assert(components_of(on, link.target).skip(components_of(on, kept).len() as int) =~= names);
    assert(components_of(on, link.source).skip(components_of(on, app).len() as int) =~= names);
}

/// A definition stops the step exactly where one of its first two names is not safe.
/// The first such name is told, and the links in front of it are still made.
pub proof fn unsafe_names_stop_the_links(
    on: Platform,
    app: Seq<char>,
    kept: Seq<char>,
    definitions: Seq<Seq<Seq<char>>>,
    k: int,
)
    requires
        0 <= k < definitions.len(),
        plan_of(on, app, kept, definitions.take(k)).error is None,
    ensures
        ({
            let definition = definitions[k];
            let plan = plan_of(on, app, kept, definitions);
            let bad = if definition.len() > 0 && !is_safe(on, definition[0]) {
                Some(definition[0])
            } else if definition.len() > 1 && !is_safe(on, definition[1]) {
                Some(definition[1])
            } else {
                None
            };
            match bad {
                Some(name) => plan.error == Some(
                    ErrorView::Custom("unsafe persistent path '"@ + name + "'"@),
                ) && plan.links == plan_of(on, app, kept, definitions.take(k)).links,
                None => plan_of(on, app, kept, definitions.take(k + 1)).error is None,
            }
        }),
{
    let shown = definitions.take(k + 1);
    assert(shown.drop_last() =~= definitions.take(k));
    assert(shown.last() == definitions[k]);
    if plan_of(on, app, kept, shown).error is Some {
        lemma_plan_error(on, app, kept, definitions, k + 1);
    }
}

/// The links of a package lead from the directory that the application is used from to
/// the directory of its persistent data, which is the same for every version. A
/// package that keeps nothing has no links.
pub proof fn links_of_a_package(session: Session, package: Package, i: int)
    requires
        planned_links(session, package).error is None,
        0 <= i < planned_links(session, package).links.len(),
    ensures
        ({
            let on = session.platform;
            let link = planned_links(session, package).links[i];
            let root = session.config.root_path@;
            let kept = join_of(on, join_of(on, root, "persist"@), package.name@);
            let version = if session.config.no_junction {
                package.version@
            } else {
                "current"@
            };
            let app = join_of(on, join_of(on, join_of(on, root, "apps"@), package.name@), version);
            &&& package.manifest.persist matches Some(list)
            &&& ({
                let definition = named(definitions_of(list@))[i];
                &&& link.source == join_of(on, app, definition[0])
                &&& link.target == join_of(
                    on,
                    kept,
                    if definition.len() > 1 {
                        definition[1]
                    } else {
                        definition[0]
                    },
                )
            })
        }),
{
    let on = session.platform;
    let list = package.manifest.persist->0;
    let app = used_dir_of(session, package);
    let kept = persist_dir_of(on, session.config.root_path@, package.name@);
    links_follow_the_definitions(on, app, kept, definitions_of(list@));
    named_have_names(definitions_of(list@), i);
}

/// A definition that has a name has one.
proof fn named_have_names(definitions: Seq<Seq<Seq<char>>>, i: int)
    requires
        0 <= i < named(definitions).len(),
    ensures
        named(definitions)[i].len() > 0,
{
    definitions.lemma_filter_pred(|d: Seq<Seq<char>>| d.len() > 0, i);
}

/// The links that are removed are those of the definitions in front of the first
/// nameless one, in order, each below the directory that the installed application is
/// used from.
pub proof fn unlinks_of_a_package(session: Session, package: Package, i: int)
    requires
        package.is_installed(),
        package.manifest.persist is Some,
        0 <= i < package.manifest.persist->0@.len(),
        forall|k: int|
            0 <= k <= i ==> (#[trigger] package.manifest.persist->0@[k])@.len() > 0,
    ensures
        ({
            let on = session.platform;
            let root = session.config.root_path@;
            let version = if session.config.no_junction {
                package.installed_version->0@
            } else {
                "current"@
            };
            let app = join_of(on, join_of(on, join_of(on, root, "apps"@), package.name@), version);
            &&& i < planned_unlinks(session, package).len() <= package.manifest.persist->0@.len()
            &&& planned_unlinks(session, package)[i] == normal_form(
                on,
                join_of(on, app, package.manifest.persist->0@[i]@[0]@),
            )
        }),
{
    let all = definitions_of(package.manifest.persist->0@);
    assert forall|k: int| 0 <= k <= i implies (#[trigger] all[k]).len() > 0 by {
        assert(package.manifest.persist->0@[k]@.len() > 0);
    }
    lemma_named_first(all, i);
}

/// A removal ends in front of the first definition that has no name.
pub proof fn unlinking_ends_at_a_nameless_definition(session: Session, package: Package, k: int)
    requires
        package.is_installed(),
        package.manifest.persist is Some,
        0 <= k <= package.manifest.persist->0@.len(),
        forall|i: int|
            0 <= i < k ==> (#[trigger] package.manifest.persist->0@[i])@.len() > 0,
        k < package.manifest.persist->0@.len() ==> package.manifest.persist->0@[k]@.len() == 0,
    ensures
        planned_unlinks(session, package).len() == k,
{
    let all = definitions_of(package.manifest.persist->0@);
    assert forall|i: int| 0 <= i < k implies (#[trigger] all[i]).len() > 0 by {
        assert(package.manifest.persist->0@[i]@.len() > 0);
    }
    lemma_named_first_end(all, k);
}

proof fn lemma_named_first_end(definitions: Seq<Seq<Seq<char>>>, k: int)
    requires
        0 <= k <= definitions.len(),
        forall|i: int| 0 <= i < k ==> (#[trigger] definitions[i]).len() > 0,
        k < definitions.len() ==> definitions[k].len() == 0,
    ensures
        named_first(definitions).len() == k,
    decreases definitions.len(),
{
    if k > 0 {
        let rest = definitions.skip(1);
        assert(definitions[0].len() > 0);
        assert forall|i: int| 0 <= i < k - 1 implies (#[trigger] rest[i]).len() > 0 by {
            assert(rest[i] == definitions[i + 1]);
        }
        lemma_named_first_end(rest, k - 1);
    }
}

proof fn lemma_named_first(definitions: Seq<Seq<Seq<char>>>, i: int)
    requires
        0 <= i < definitions.len(),
        forall|k: int| 0 <= k <= i ==> (#[trigger] definitions[k]).len() > 0,
    ensures
        i < named_first(definitions).len() <= definitions.len(),
        named_first(definitions)[i] == definitions[i],
    decreases definitions.len(),
{
    let rest = definitions.skip(1);
    assert(definitions[0].len() > 0);
    lemma_named_first_len(rest);
    if i > 0 {
        assert forall|k: int| 0 <= k <= i - 1 implies (#[trigger] rest[k]).len() > 0 by {
            assert(rest[k] == definitions[k + 1]);
        }
        lemma_named_first(rest, i - 1);
        assert(rest[i - 1] == definitions[i]);
    }
}

proof fn lemma_named_first_len(definitions: Seq<Seq<Seq<char>>>)
    ensures
        named_first(definitions).len() <= definitions.len(),
    decreases definitions.len(),
{
    if definitions.len() > 0 {
        lemma_named_first_len(definitions.skip(1));
    }
}

/// Data that is kept outlives the version that links it: only what stands in the
/// way of the link is removed, and nothing is moved onto data that is kept
/// already. The link is made last, and leads to the data.
pub proof fn kept_data_survives(
    on: Platform,
    link: LinkView,
    source_exists: bool,
    target_exists: bool,
    i: int,
)
    requires
        0 <= i < linking(on, link, source_exists, target_exists).len(),
    ensures
        ({
            let actions = linking(on, link, source_exists, target_exists);
            &&& actions[i] matches LinkActionView::Remove { path } ==> path == link.source
                && source_exists
            &&& actions[i] matches LinkActionView::Rename { from, to } ==> from == link.source
                && to == link.target && !target_exists
            &&& actions[i] is Symlink <==> i == actions.len() - 1
            &&& actions.last() == LinkActionView::Symlink {
                target: link.target,
                link: link.source,
            }
        }),
{
}

/// Where every definition has a name and none is refused, there is one link for
/// each definition.
proof fn lemma_full_plan(
    on: Platform,
    app: Seq<char>,
    kept: Seq<char>,
    definitions: Seq<Seq<Seq<char>>>,
)
    requires
        forall|i: int| 0 <= i < definitions.len() ==> (#[trigger] definitions[i]).len() > 0,
        plan_of(on, app, kept, definitions).error is None,
    ensures
        plan_of(on, app, kept, definitions).links.len() == definitions.len(),
        forall|i: int|
            0 <= i < definitions.len() ==> (#[trigger] plan_of(
                on,
                app,
                kept,
                definitions,
            ).links[i]).source == join_of(on, app, definitions[i][0]),
    decreases definitions.len(),
{
    if definitions.len() > 0 {
        let shorter = definitions.drop_last();
        assert forall|i: int| 0 <= i < shorter.len() implies (#[trigger] shorter[i]).len() > 0 by {
            assert(shorter[i] == definitions[i]);
        }
        assert(definitions[definitions.len() - 1].len() > 0);
        lemma_full_plan(on, app, kept, shorter);
        assert forall|i: int| 0 <= i < definitions.len() implies (#[trigger] plan_of(
            on,
            app,
            kept,
            definitions,
        ).links[i]).source == join_of(on, app, definitions[i][0]) by {
            if i < shorter.len() {
                assert(plan_of(on, app, kept, shorter).links[i].source == join_of(on, app, shorter[i][0]));
            }
        }
    }
}

/// All definitions are in front of the first nameless one where each has a name.
proof fn lemma_all_named(definitions: Seq<Seq<Seq<char>>>)
    requires
        forall|i: int| 0 <= i < definitions.len() ==> (#[trigger] definitions[i]).len() > 0,
    ensures
        named_first(definitions) == definitions,
    decreases definitions.len(),
{
    if definitions.len() > 0 {
        let rest = definitions.skip(1);
        assert forall|i: int| 0 <= i < rest.len() implies (#[trigger] rest[i]).len() > 0 by {
            assert(rest[i] == definitions[i + 1]);
        }
        assert(definitions[0].len() > 0);
        lemma_all_named(rest);
        assert(seq![definitions[0]] + rest =~= definitions);
    }
}

/// Removing the links of a package removes what linking made: where the linked
/// directory is the installed one and nothing stopped the linking, the paths to
/// remove are the normal forms of the linked paths, in the same order.
pub proof fn unlink_undoes_link(session: Session, package: Package)
    requires
        package.is_installed(),
        used_dir_of(session, package) == installed_dir(session, package),
        package.manifest.persist is Some,
        forall|i: int|
            0 <= i < package.manifest.persist->0@.len() ==> (
            #[trigger] package.manifest.persist->0@[i])@.len() > 0,
        plan_of(
            session.platform,
            used_dir_of(session, package),
            persist_dir_of(session.platform, session.config.root_path@, package.name@),
            definitions_of(package.manifest.persist->0@),
        ).error is None,
    ensures
        unlinks_of(
            session.platform,
            installed_dir(session, package),
            named_first(definitions_of(package.manifest.persist->0@)),
        ) == plan_of(
            session.platform,
            used_dir_of(session, package),
            persist_dir_of(session.platform, session.config.root_path@, package.name@),
            definitions_of(package.manifest.persist->0@),
        ).links.map_values(|l: LinkView| normal_form(session.platform, l.source)),
{
    let on = session.platform;
    let app = used_dir_of(session, package);
    let kept = persist_dir_of(on, session.config.root_path@, package.name@);
    let list = package.manifest.persist->0@;
    let definitions = definitions_of(list);
    assert forall|i: int| 0 <= i < definitions.len() implies (#[trigger] definitions[i]).len()
        > 0 by {
        assert(list[i]@.len() > 0);
    }
    lemma_all_named(definitions);
    lemma_full_plan(on, app, kept, definitions);
    let links = plan_of(on, app, kept, definitions).links;
    let removed = unlinks_of(on, app, definitions);
    assert forall|i: int| 0 <= i < removed.len() implies removed[i] == normal_form(
        on,
        (#[trigger] links[i]).source,
    ) by {
        assert(links[i].source == join_of(on, app, definitions[i][0]));
    }
    assert(removed =~= links.map_values(|l: LinkView| normal_form(on, l.source)));
}

/// What a path leads to.
pub enum Node {
    File(Seq<u8>),
    Dir,
    /// A link to another path.
    Link(Seq<char>),
}

/// The files, directories and links at hand, each by its path.
pub type Files = Map<Seq<char>, Node>;

/// Whether a path is a directory or stands below it.
pub open spec fn is_within(on: Platform, path: Seq<char>, dir: Seq<char>) -> bool {
    path == dir || {
        &&& 0 < dir.len() < path.len()
        &&& dir.is_prefix_of(path)
        &&& is_separator(on, dir.last()) || is_separator(on, path[dir.len() as int])
    }
}

/// Whether something exists: a link does where the thing it leads to does.
pub open spec fn exists_in(files: Files, path: Seq<char>) -> bool {
    files.dom().contains(path) && match files[path] {
        Node::Link(target) => files.dom().contains(target) && !(files[target] is Link),
        _ => true,
    }
}

/// Makes sure that a directory and those above it exist.
pub open spec fn with_dir(on: Platform, files: Files, dir: Seq<char>) -> Files
    decreases dir.len(),
{
    if files.dom().contains(dir) {
        files
    } else {
        match parent_of(on, dir) {
            Some(up) => if up.len() < dir.len() {
                with_dir(on, files, up).insert(dir, Node::Dir)
            } else {
                files.insert(dir, Node::Dir)
            },
            None => files.insert(dir, Node::Dir),
        }
    }
}

/// Removes a link, a file or a directory with what is in it.
pub open spec fn without(on: Platform, files: Files, path: Seq<char>) -> Files {
    match removal_of(files[path] is Link, files[path] is Dir) {
        Removal::Symlink => files.remove(path),
        Removal::File => files.remove(path),
        Removal::Dir => Map::new(
            |p: Seq<char>| files.dom().contains(p) && !is_within(on, p, path),
            |p: Seq<char>| files[p],
        ),
    }
}

/// Where a path was before a directory was moved.
pub open spec fn origin(path: Seq<char>, from: Seq<char>, to: Seq<char>) -> Seq<char> {
    from + path.skip(to.len() as int)
}

/// Whether a path holds something that was moved there.
pub open spec fn was_moved(
    on: Platform,
    files: Files,
    path: Seq<char>,
    from: Seq<char>,
    to: Seq<char>,
) -> bool {
    is_within(on, path, to) && files.dom().contains(origin(path, from, to))
}

/// Moves a file or a directory with what is in it.
pub open spec fn moved(on: Platform, files: Files, from: Seq<char>, to: Seq<char>) -> Files {
    Map::new(
        |p: Seq<char>|
            was_moved(on, files, p, from, to) || (files.dom().contains(p) && !is_within(on, p, from)),
        |p: Seq<char>|
            if was_moved(on, files, p, from, to) {
                files[origin(p, from, to)]
            } else {
                files[p]
            },
    )
}

/// What an action does, where it does not fail.
pub open spec fn after_action(on: Platform, files: Files, action: LinkActionView) -> Files {
    match action {
        LinkActionView::Remove { path } => without(on, files, path),
        LinkActionView::EnsureParent { parent } => match parent {
            Some(dir) => with_dir(on, files, dir),
            None => files,
        },
        LinkActionView::Rename { from, to } => moved(on, files, from, to),
        LinkActionView::EnsureDirIfMissing { path } => if exists_in(files, path) {
            files
        } else {
            with_dir(on, files, path)
        },
        LinkActionView::Symlink { target, link } => files.insert(link, Node::Link(target)),
    }
}

/// What actions do one after the other.
pub open spec fn after_actions(on: Platform, files: Files, actions: Seq<LinkActionView>) -> Files
    decreases actions.len(),
{
    if actions.len() == 0 {
        files
    } else {
        after_action(on, after_actions(on, files, actions.drop_last()), actions.last())
    }
}

/// What making a link does.
pub open spec fn after_link(on: Platform, files: Files, link: LinkView) -> Files {
    after_actions(
        on,
        files,
        linking(on, link, exists_in(files, link.source), exists_in(files, link.target)),
    )
}

/// What making links does, one after the other.
pub open spec fn after_links(on: Platform, files: Files, links: Seq<LinkView>) -> Files
    decreases links.len(),
{
    if links.len() == 0 {
        files
    } else {
        after_link(on, after_links(on, files, links.drop_last()), links.last())
    }
}

/// Whether a link stands: it leads to data that is there, and the directory that
/// holds it is there.
pub open spec fn is_linked(on: Platform, files: Files, link: LinkView) -> bool {
    &&& files.dom().contains(link.source)
    &&& files[link.source] == Node::Link(link.target)
    &&& files.dom().contains(link.target)
    &&& !(files[link.target] is Link)
    &&& parent_of(on, link.source) is Some
    &&& files.dom().contains(parent_of(on, link.source)->0)
}

/// A parent is shorter than its path.
proof fn lemma_parent_shorter(on: Platform, p: Seq<char>)
    requires
        parent_of(on, p) is Some,
    ensures
        parent_of(on, p)->0.len() < p.len(),
{
    lemma_body_start(on, p);
    lemma_spans_ordered(on, p, body_start(on, p), is_verbatim(on, p));
    let body = spans(on, p);
    if body.len() > 1 {
        assert(body[body.len() - 2].1 < body[body.len() - 1].0);
        assert(body[body.len() - 1].1 <= p.len());
    } else if body.len() == 1 {
        assert(body[0].0 < body[0].1 <= p.len());
    } else {
        assert(prefix(on, p) is None && has_leading_dot(on, p));
    }
}

/// What the actions in front of a link that is made do.
proof fn lemma_steps(on: Platform, files: Files, link: LinkView, source: bool, target: bool)
    ensures
        ({
            let settled = if source && target {
                without(on, files, link.source)
            } else if source {
                moved(
                    on,
                    after_action(
                        on,
                        files,
                        LinkActionView::EnsureParent { parent: parent_of(on, link.target) },
                    ),
                    link.source,
                    link.target,
                )
            } else {
                files
            };
            let kept = after_action(
                on,
                settled,
                LinkActionView::EnsureDirIfMissing { path: link.target },
            );
            let ready = after_action(
                on,
                kept,
                LinkActionView::EnsureParent { parent: parent_of(on, link.source) },
            );
            after_actions(on, files, linking(on, link, source, target)) == ready.insert(
                link.source,
                Node::Link(link.target),
            )
        }),
{
    let all = linking(on, link, source, target);
    let a1 = all.drop_last();
    let a2 = a1.drop_last();
    let a3 = a2.drop_last();
    reveal_with_fuel(after_actions, 6);
    if source && target {
        assert(a3.drop_last() =~= Seq::<LinkActionView>::empty());
    } else if source {
        assert(a3.drop_last().drop_last() =~= Seq::<LinkActionView>::empty());
    } else {
        assert(a3 =~= Seq::<LinkActionView>::empty());
    }
}

/// Making a link that stands changes nothing: only the link itself is removed
/// and made again, never what it leads to.
pub proof fn relinking_changes_nothing(on: Platform, files: Files, link: LinkView)
    requires
        is_linked(on, files, link),
    ensures
        after_link(on, files, link) == files,
{
    lemma_parent_shorter(on, link.source);
    lemma_steps(on, files, link, true, true);
    let removed = files.remove(link.source);
    assert(without(on, files, link.source) == removed);
    assert(removed.dom().contains(link.target));
    assert(exists_in(removed, link.target));
    assert(removed.insert(link.source, Node::Link(link.target)) =~= files);
}

/// Where the links of a package stand, linking it again leaves every file,
/// directory and link as it is.
pub proof fn linking_again_changes_nothing(on: Platform, files: Files, links: Seq<LinkView>)
    requires
        forall|i: int| 0 <= i < links.len() ==> is_linked(on, files, #[trigger] links[i]),
    ensures
        after_links(on, files, links) == files,
    decreases links.len(),
{
    if links.len() > 0 {
        let shorter = links.drop_last();
        assert forall|i: int| 0 <= i < shorter.len() implies is_linked(
            on,
            files,
            #[trigger] shorter[i],
        ) by {
            assert(shorter[i] == links[i]);
        }
        linking_again_changes_nothing(on, files, shorter);
        assert(links[links.len() - 1] == links.last());
        relinking_changes_nothing(on, files, links.last());
    }
}

/// Whether a link can be made: neither end is a link yet, none of them stands in
/// the other, and there is a directory to hold the link.
pub open spec fn is_linkable(on: Platform, files: Files, link: LinkView) -> bool {
    &&& files.dom().contains(link.source) ==> !(files[link.source] is Link)
    &&& files.dom().contains(link.target) ==> !(files[link.target] is Link)
    &&& !is_within(on, link.target, link.source)
    &&& !is_within(on, link.source, link.target)
    &&& parent_of(on, link.source) is Some
    &&& !is_within(on, parent_of(on, link.source)->0, link.target)
}

/// Whether a path is out of reach of a link's two ends.
pub open spec fn is_clear(on: Platform, path: Seq<char>, link: LinkView) -> bool {
    !is_within(on, path, link.source) && !is_within(on, path, link.target)
}

/// Whether a link does not overlap with another one: its ends, and the directory
/// that holds it, are out of the other one's reach.
pub open spec fn is_apart(on: Platform, link: LinkView, other: LinkView) -> bool {
    &&& is_clear(on, link.source, other)
    &&& is_clear(on, link.target, other)
    &&& parent_of(on, link.source) matches Some(dir) ==> is_clear(on, dir, other)
}

/// Making sure of a directory keeps what is there and adds directories only.
proof fn lemma_with_dir(on: Platform, files: Files, dir: Seq<char>, p: Seq<char>)
    ensures
        with_dir(on, files, dir).dom().contains(dir),
        files.dom().contains(p) ==> with_dir(on, files, dir).dom().contains(p) && with_dir(
            on,
            files,
            dir,
        )[p] == files[p],
        !files.dom().contains(p) && with_dir(on, files, dir).dom().contains(p) ==> with_dir(
            on,
            files,
            dir,
        )[p] == Node::Dir,
    decreases dir.len(),
{
    if !files.dom().contains(dir) {
        if let Some(up) = parent_of(on, dir) {
            if up.len() < dir.len() {
                lemma_with_dir(on, files, up, p);
            }
        }
    }
}

/// Out of a link's reach, making it keeps what is there and adds directories
/// only.
proof fn lemma_link_frame(on: Platform, files: Files, link: LinkView, p: Seq<char>)
    requires
        is_clear(on, p, link),
    ensures
        files.dom().contains(p) ==> after_link(on, files, link).dom().contains(p) && after_link(
            on,
            files,
            link,
        )[p] == files[p],
        !files.dom().contains(p) && after_link(on, files, link).dom().contains(p) ==> after_link(
            on,
            files,
            link,
        )[p] == Node::Dir,
{
    let source = exists_in(files, link.source);
    let target = exists_in(files, link.target);
    lemma_steps(on, files, link, source, target);
    let settled = if source && target {
        without(on, files, link.source)
    } else if source {
        let ready = after_action(
            on,
            files,
            LinkActionView::EnsureParent { parent: parent_of(on, link.target) },
        );
        if let Some(dir) = parent_of(on, link.target) {
            lemma_with_dir(on, files, dir, p);
        }
        moved(on, ready, link.source, link.target)
    } else {
        files
    };
    lemma_with_dir(on, settled, link.target, p);
    let kept = after_action(on, settled, LinkActionView::EnsureDirIfMissing { path: link.target });
    if let Some(dir) = parent_of(on, link.source) {
        lemma_with_dir(on, kept, dir, p);
    }
}

/// A link that can be made stands afterwards.
proof fn lemma_link_made(on: Platform, files: Files, link: LinkView)
    requires
        is_linkable(on, files, link),
    ensures
        is_linked(on, after_link(on, files, link), link),
{
    let source = exists_in(files, link.source);
    let target = exists_in(files, link.target);
    lemma_steps(on, files, link, source, target);
    lemma_parent_shorter(on, link.source);
    let settled = if source && target {
        without(on, files, link.source)
    } else if source {
        let ready = after_action(
            on,
            files,
            LinkActionView::EnsureParent { parent: parent_of(on, link.target) },
        );
        if let Some(dir) = parent_of(on, link.target) {
            lemma_with_dir(on, files, dir, link.source);
        }
        assert(origin(link.target, link.source, link.target) =~= link.source);
        assert(was_moved(on, ready, link.target, link.source, link.target));
        moved(on, ready, link.source, link.target)
    } else {
        files
    };
    assert(settled.dom().contains(link.target) ==> !(settled[link.target] is Link));
    lemma_with_dir(on, settled, link.target, link.target);
    let kept = after_action(on, settled, LinkActionView::EnsureDirIfMissing { path: link.target });
    assert(kept.dom().contains(link.target) && !(kept[link.target] is Link));
    let dir = parent_of(on, link.source)->0;
    lemma_with_dir(on, kept, dir, link.target);
}

/// Whether a link stands already or can be made.
pub open spec fn is_ready(on: Platform, files: Files, link: LinkView) -> bool {
    is_linked(on, files, link) || is_linkable(on, files, link)
}

/// After the first `k` links, these stand and the others are ready.
proof fn lemma_links_so_far(on: Platform, files: Files, links: Seq<LinkView>, k: int)
    requires
        0 <= k <= links.len(),
        forall|i: int| 0 <= i < links.len() ==> is_ready(on, files, #[trigger] links[i]),
        forall|i: int, j: int|
            0 <= i < links.len() && 0 <= j < links.len() && i != j ==> is_apart(
                on,
                #[trigger] links[i],
                #[trigger] links[j],
            ),
    ensures
        forall|i: int|
            0 <= i < k ==> is_linked(
                on,
                after_links(on, files, links.take(k)),
                #[trigger] links[i],
            ),
        forall|i: int|
            k <= i < links.len() ==> is_ready(
                on,
                after_links(on, files, links.take(k)),
                #[trigger] links[i],
            ),
    decreases k,
{
    if k > 0 {
        lemma_links_so_far(on, files, links, k - 1);
        let before = after_links(on, files, links.take(k - 1));
        let now = links[k - 1];
        assert(links.take(k).drop_last() =~= links.take(k - 1));
        assert(links.take(k).last() == now);
        let after = after_link(on, before, now);
        assert(is_ready(on, before, now));
        if is_linked(on, before, now) {
            relinking_changes_nothing(on, before, now);
        } else {
            lemma_link_made(on, before, now);
        }
        assert forall|i: int| 0 <= i < k implies is_linked(on, after, #[trigger] links[i]) by {
            if i < k - 1 {
                lemma_stays_linked(on, before, links[i], now);
            }
        }
        assert forall|i: int| k <= i < links.len() implies is_ready(
            on,
            after,
            #[trigger] links[i],
        ) by {
            let other = links[i];
            assert(is_apart(on, other, now));
            assert(is_ready(on, before, other));
            if is_linked(on, before, other) {
                lemma_stays_linked(on, before, other, now);
            } else {
                lemma_link_frame(on, before, now, other.source);
                lemma_link_frame(on, before, now, other.target);
            }
        }
    }
}

/// Making a link leaves those that stand and do not overlap with it.
proof fn lemma_stays_linked(on: Platform, files: Files, link: LinkView, now: LinkView)
    requires
        is_linked(on, files, link),
        is_apart(on, link, now),
    ensures
        is_linked(on, after_link(on, files, now), link),
{
    lemma_link_frame(on, files, now, link.source);
    lemma_link_frame(on, files, now, link.target);
    lemma_link_frame(on, files, now, parent_of(on, link.source)->0);
}

/// Linking makes every link: where each link stands already or can be made, and
/// they do not overlap, each of them stands afterwards.
pub proof fn linking_makes_the_links(on: Platform, files: Files, links: Seq<LinkView>, i: int)
    requires
        0 <= i < links.len(),
        forall|k: int| 0 <= k < links.len() ==> is_ready(on, files, #[trigger] links[k]),
        forall|k: int, j: int|
            0 <= k < links.len() && 0 <= j < links.len() && k != j ==> is_apart(
                on,
                #[trigger] links[k],
                #[trigger] links[j],
            ),
    ensures
        is_linked(on, after_links(on, files, links), links[i]),
{
    lemma_links_so_far(on, files, links, links.len() as int);
    assert(links.take(links.len() as int) =~= links);
}

/// Linking a package a second time leaves what the first time left: the same
/// links to the same data.
pub proof fn linking_twice_is_linking_once(on: Platform, files: Files, links: Seq<LinkView>)
    requires
        forall|k: int| 0 <= k < links.len() ==> is_ready(on, files, #[trigger] links[k]),
        forall|k: int, j: int|
            0 <= k < links.len() && 0 <= j < links.len() && k != j ==> is_apart(
                on,
                #[trigger] links[k],
                #[trigger] links[j],
            ),
    ensures
        after_links(on, after_links(on, files, links), links) == after_links(on, files, links),
{
    let once = after_links(on, files, links);
    assert forall|i: int| 0 <= i < links.len() implies is_linked(on, once, #[trigger] links[i]) by {
        linking_makes_the_links(on, files, links, i);
    }
    linking_again_changes_nothing(on, once, links);
}

/// Whether neither a path nor a directory above it is, or stands in, `dir`.
pub open spec fn is_outside(on: Platform, path: Seq<char>, dir: Seq<char>) -> bool
    decreases path.len(),
{
    &&& !is_within(on, path, dir)
    &&& parent_of(on, path) matches Some(up) ==> up.len() < path.len() ==> is_outside(on, up, dir)
}

/// Whether nothing stands below a path where there is nothing.
pub open spec fn is_tidy(on: Platform, files: Files, path: Seq<char>) -> bool {
    !files.dom().contains(path) ==> forall|p: Seq<char>|
        is_within(on, p, path) ==> !#[trigger] files.dom().contains(p)
}

/// A path that is shorter than a directory is outside of it.
proof fn lemma_shorter_outside(on: Platform, path: Seq<char>, dir: Seq<char>)
    requires
        path.len() < dir.len(),
    ensures
        is_outside(on, path, dir),
    decreases path.len(),
{
    if let Some(up) = parent_of(on, path) {
        if up.len() < path.len() {
            lemma_shorter_outside(on, up, dir);
        }
    }
}

/// Making sure of a directory outside of another adds nothing in that.
proof fn lemma_with_dir_outside(
    on: Platform,
    files: Files,
    dir: Seq<char>,
    other: Seq<char>,
    p: Seq<char>,
)
    requires
        is_outside(on, dir, other),
        is_within(on, p, other),
    ensures
        with_dir(on, files, dir).dom().contains(p) == files.dom().contains(p),
    decreases dir.len(),
{
    if !files.dom().contains(dir) {
        if let Some(up) = parent_of(on, dir) {
            if up.len() < dir.len() {
                lemma_with_dir_outside(on, files, up, other, p);
            }
        }
    }
}

/// Of two directories that a path stands in, one stands in the other.
proof fn lemma_within_both(on: Platform, p: Seq<char>, a: Seq<char>, b: Seq<char>)
    requires
        is_within(on, p, a),
        is_within(on, p, b),
        a.len() > 0,
        b.len() > 0,
    ensures
        is_within(on, a, b) || is_within(on, b, a),
{
    let (n, m) = (a.len() as int, b.len() as int);
    assert(a =~= p.subrange(0, n));
    assert(b =~= p.subrange(0, m));
    if n == m {
        assert(a =~= b);
    } else if n < m {
        assert(a =~= b.subrange(0, n));
        assert(b[n] == p[n]);
    } else {
        assert(b =~= a.subrange(0, m));
        assert(a[m] == p[m]);
    }
}

/// What is at a path.
pub open spec fn held(files: Files, path: Seq<char>) -> Option<Node> {
    if files.dom().contains(path) {
        Some(files[path])
    } else {
        None
    }
}

/// What is at a kept path, or below it, once it is linked: what was kept there
/// before, else what the application brought along, else an empty directory.
pub open spec fn kept_at(files: Files, link: LinkView, path: Seq<char>) -> Option<Node> {
    if exists_in(files, link.target) {
        held(files, path)
    } else if exists_in(files, link.source) {
        held(files, origin(path, link.source, link.target))
    } else if path == link.target {
        Some(Node::Dir)
    } else {
        None
    }
}

/// Whether the two ends of a link lie apart, and the kept one is written without a
/// separator at its end.
pub open spec fn is_disjoint(on: Platform, link: LinkView) -> bool {
    &&& link.source.len() > 0
    &&& link.target.len() > 0
    &&& !is_separator(on, link.target.last())
    &&& is_outside(on, link.source, link.target)
    &&& is_outside(on, link.target, link.source)
}

/// What is kept after a link was made: the data that was kept before, else the
/// data that the application brought along, else an empty directory. `path` is
/// the kept path or any path below it.
pub proof fn kept_data_after_linking(
    on: Platform,
    files: Files,
    link: LinkView,
    path: Seq<char>,
)
    requires
        is_linkable(on, files, link),
        is_disjoint(on, link),
        is_tidy(on, files, link.target),
        is_within(on, path, link.target),
    ensures
        held(after_link(on, files, link), path) == kept_at(files, link, path),
{
    let source = exists_in(files, link.source);
    let target = exists_in(files, link.target);
    lemma_steps(on, files, link, source, target);
    lemma_parent_shorter(on, link.source);
    let up = parent_of(on, link.source)->0;
    assert(is_outside(on, up, link.target));
    if is_within(on, path, link.source) {
        lemma_within_both(on, path, link.source, link.target);
    }
    assert(path != link.source);
    let settled = if source && target {
        without(on, files, link.source)
    } else if source {
        let from = origin(path, link.source, link.target);
        let ready = after_action(
            on,
            files,
            LinkActionView::EnsureParent { parent: parent_of(on, link.target) },
        );
        lemma_origin_within(on, path, link.source, link.target);
        lemma_origin_within(on, link.target, link.source, link.target);
        if let Some(dir) = parent_of(on, link.target) {
            lemma_parent_shorter(on, link.target);
            lemma_shorter_outside(on, dir, link.target);
            assert(is_outside(on, dir, link.source));
            lemma_with_dir_outside(on, files, dir, link.target, path);
            lemma_with_dir_outside(on, files, dir, link.source, from);
            lemma_with_dir_outside(on, files, dir, link.source, link.source);
            lemma_with_dir(on, files, dir, path);
            lemma_with_dir(on, files, dir, from);
            lemma_with_dir(on, files, dir, link.source);
        }
        assert(origin(link.target, link.source, link.target) =~= link.source);
        assert(was_moved(on, ready, link.target, link.source, link.target));
        moved(on, ready, link.source, link.target)
    } else {
        files
    };
    if let Some(dir) = parent_of(on, link.target) {
        lemma_parent_shorter(on, link.target);
        lemma_shorter_outside(on, dir, link.target);
        lemma_with_dir_outside(on, settled, dir, link.target, path);
    }
    lemma_with_dir(on, settled, link.target, path);
    let kept = after_action(on, settled, LinkActionView::EnsureDirIfMissing { path: link.target });
    lemma_with_dir(on, kept, up, path);
    lemma_with_dir_outside(on, kept, up, link.target, path);
}

/// Where a path was before a move stands in what was moved.
proof fn lemma_origin_within(on: Platform, path: Seq<char>, from: Seq<char>, to: Seq<char>)
    requires
        is_within(on, path, to),
        to.len() > 0,
        from.len() > 0,
        !is_separator(on, to.last()),
    ensures
        is_within(on, origin(path, from, to), from),
{
    let before = origin(path, from, to);
    if path == to {
        assert(before =~= from);
    } else {
        assert(before[from.len() as int] == path[to.len() as int]);
        assert(from =~= before.subrange(0, from.len() as int));
    }
}

/// Whether a directory is out of reach of another link: neither stands in the
/// other.
pub open spec fn is_beyond(on: Platform, dir: Seq<char>, other: LinkView) -> bool {
    &&& dir.len() > 0
    &&& other.source.len() > 0
    &&& other.target.len() > 0
    &&& is_clear(on, dir, other)
    &&& is_outside(on, other.source, dir)
    &&& is_outside(on, other.target, dir)
}

/// Making a link changes nothing in a directory that is out of its reach.
proof fn lemma_link_beyond(
    on: Platform,
    files: Files,
    link: LinkView,
    dir: Seq<char>,
    p: Seq<char>,
)
    requires
        is_beyond(on, dir, link),
        is_within(on, p, dir),
    ensures
        held(after_link(on, files, link), p) == held(files, p),
{
    let source = exists_in(files, link.source);
    let target = exists_in(files, link.target);
    lemma_steps(on, files, link, source, target);
    if is_within(on, p, link.source) {
        lemma_within_both(on, p, link.source, dir);
    }
    if is_within(on, p, link.target) {
        lemma_within_both(on, p, link.target, dir);
    }
    let settled = if source && target {
        without(on, files, link.source)
    } else if source {
        let ready = after_action(
            on,
            files,
            LinkActionView::EnsureParent { parent: parent_of(on, link.target) },
        );
        if let Some(up) = parent_of(on, link.target) {
            lemma_parent_shorter(on, link.target);
            lemma_with_dir(on, files, up, p);
            lemma_with_dir_outside(on, files, up, dir, p);
        }
        moved(on, ready, link.source, link.target)
    } else {
        files
    };
    assert(held(settled, p) == held(files, p));
    lemma_with_dir(on, settled, link.target, p);
    lemma_with_dir_outside(on, settled, link.target, dir, p);
    let kept = after_action(on, settled, LinkActionView::EnsureDirIfMissing { path: link.target });
    if let Some(up) = parent_of(on, link.source) {
        lemma_parent_shorter(on, link.source);
        lemma_with_dir(on, kept, up, p);
        lemma_with_dir_outside(on, kept, up, dir, p);
    }
}

/// Making links changes nothing in a directory that is out of their reach.
proof fn lemma_links_beyond(
    on: Platform,
    files: Files,
    links: Seq<LinkView>,
    dir: Seq<char>,
    p: Seq<char>,
)
    requires
        forall|j: int| 0 <= j < links.len() ==> is_beyond(on, dir, #[trigger] links[j]),
        is_within(on, p, dir),
    ensures
        held(after_links(on, files, links), p) == held(files, p),
    decreases links.len(),
{
    if links.len() > 0 {
        let shorter = links.drop_last();
        assert forall|j: int| 0 <= j < shorter.len() implies is_beyond(
            on,
            dir,
            #[trigger] shorter[j],
        ) by {
            assert(shorter[j] == links[j]);
        }
        lemma_links_beyond(on, files, shorter, dir, p);
        assert(links[links.len() - 1] == links.last());
        lemma_link_beyond(on, after_links(on, files, shorter), links.last(), dir, p);
    }
}

/// Making links one after the other is making the first ones and then the rest.
proof fn lemma_links_split(on: Platform, files: Files, a: Seq<LinkView>, b: Seq<LinkView>)
    ensures
        after_links(on, files, a + b) == after_links(on, after_links(on, files, a), b),
    decreases b.len(),
{
    if b.len() == 0 {
        assert(a + b =~= a);
    } else {
        lemma_links_split(on, files, a, b.drop_last());
        assert((a + b).drop_last() =~= a + b.drop_last());
        assert((a + b).last() == b.last());
    }
}

/// What is kept after all links of a package were made is, for each link, what
/// making it alone keeps, as long as the other links are out of its reach.
pub proof fn all_kept_data_after_linking(
    on: Platform,
    files: Files,
    links: Seq<LinkView>,
    i: int,
    path: Seq<char>,
)
    requires
        0 <= i < links.len(),
        is_linkable(on, files, links[i]),
        is_disjoint(on, links[i]),
        is_tidy(on, files, links[i].target),
        is_within(on, path, links[i].target),
        forall|j: int|
            0 <= j < links.len() && j != i ==> is_beyond(on, links[i].source, #[trigger] links[j])
                && is_beyond(on, links[i].target, links[j]),
    ensures
        held(after_links(on, files, links), path) == kept_at(files, links[i], path),
{
    let link = links[i];
    let first = links.take(i);
    let rest = links.skip(i + 1);
    let before = after_links(on, files, first);
    assert forall|p: Seq<char>| is_within(on, p, link.target) implies #[trigger] held(before, p)
        == held(files, p) by {
        lemma_links_beyond(on, files, first, link.target, p);
    }
    assert forall|p: Seq<char>| is_within(on, p, link.source) implies #[trigger] held(before, p)
        == held(files, p) by {
        lemma_links_beyond(on, files, first, link.source, p);
    }
    assert(held(before, link.target) == held(files, link.target));
    assert(held(before, link.source) == held(files, link.source));
    assert(is_tidy(on, before, link.target)) by {
        if !before.dom().contains(link.target) {
            assert forall|p: Seq<char>| is_within(on, p, link.target) implies !(
            #[trigger] before.dom().contains(p)) by {
                assert(held(before, p) == held(files, p));
                assert(!files.dom().contains(p));
            }
        }
    }
    kept_data_after_linking(on, before, link, path);
    lemma_origin_within(on, path, link.source, link.target);
    assert(held(before, path) == held(files, path));
    let from = origin(path, link.source, link.target);
    assert(held(before, from) == held(files, from));
    let done = first.push(link);
    assert(done.drop_last() =~= first);
    assert(done + rest =~= links);
    lemma_links_split(on, files, done, rest);
    lemma_links_beyond(on, after_links(on, files, done), rest, link.target, path);
}

/// What removing links does, one after the other: each link goes, and nothing
/// that it leads to.
pub open spec fn after_unlinks(files: Files, paths: Seq<Seq<char>>) -> Files
    decreases paths.len(),
{
    if paths.len() == 0 {
        files
    } else {
        after_unlinks(files, paths.drop_last()).remove(paths.last())
    }
}

/// Removing links takes away these and nothing else: the data that is kept stays
/// as it is.
pub proof fn unlinking_keeps_the_data(files: Files, paths: Seq<Seq<char>>, p: Seq<char>)
    ensures
        paths.contains(p) ==> !after_unlinks(files, paths).dom().contains(p),
        !paths.contains(p) ==> after_unlinks(files, paths).dom().contains(p)
            == files.dom().contains(p),
        !paths.contains(p) && files.dom().contains(p) ==> after_unlinks(files, paths)[p]
            == files[p],
    decreases paths.len(),
{
    if paths.len() > 0 {
        let shorter = paths.drop_last();
        unlinking_keeps_the_data(files, shorter, p);
        assert(paths =~= shorter.push(paths.last()));
        if paths.contains(p) && p != paths.last() {
            let i = choose|i: int| 0 <= i < paths.len() && paths[i] == p;
            assert(shorter[i] == p);
        }
        if shorter.contains(p) {
            let i = choose|i: int| 0 <= i < shorter.len() && shorter[i] == p;
            assert(paths[i] == p);
        }
        assert(paths[paths.len() - 1] == paths.last());
    }
}

/// Nothing is put into a directory that was not asked for: before data is moved to its
/// kept place, the directory that holds the place is asked for, and before the link is
/// made, both the data and the directory that holds the link are.
pub proof fn directories_are_there_in_time(
    on: Platform,
    link: LinkView,
    source_exists: bool,
    target_exists: bool,
)
    ensures
        ({
            let actions = linking(on, link, source_exists, target_exists);
            let n = actions.len() as int;
            &&& n >= 3
            &&& actions[n - 3] == (LinkActionView::EnsureDirIfMissing { path: link.target })
            &&& actions[n - 2] == (LinkActionView::EnsureParent {
                parent: parent_of(on, link.source),
            })
            &&& forall|i: int|
                0 <= i < n ==> ((#[trigger] actions[i]) is Rename ==> i > 0 && actions[i - 1] == (
                LinkActionView::EnsureParent { parent: parent_of(on, link.target) }))
        }),
{
}

/// A link is removed as such, whatever it leads to; a directory and a file are removed
/// as what they are.
pub proof fn links_are_removed_as_links(is_dir: bool)
    ensures
        removal_of(true, is_dir) == Removal::Symlink,
        removal_of(false, is_dir) == Removal::Dir <==> is_dir,
        removal_of(false, is_dir) == Removal::File <==> !is_dir,
{
}

} // verus!
