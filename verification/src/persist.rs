//! Persistent data of packages.
//!
//! A file or directory that outlives a version is kept in a directory of its
//! own and linked from the directory of the application.

use crate::env::{installed_app_dir, installed_dir};
use crate::error::{around, message_around, text_result, Error, ErrorView};
use crate::internal::path::{
    is_safe, is_safe_relative, join, join_of, normal_form, normalize_path, parent, parent_of,
};
use crate::internal::text::views;
use crate::package::Package;
use crate::script::{app_dir, persist_dir, persist_dir_of, used_dir_of};
use crate::session::{Platform, Session};
use vstd::prelude::*;

verus! {

/// A link from an application to its persistent data.
#[derive(Debug, PartialEq, Eq)]
pub struct LinkPaths {
    /// Where the application looks for its data.
    pub source: String,
    /// Where the data is kept.
    pub target: String,
}

/// A link, over the characters of its paths.
pub struct LinkView {
    pub source: Seq<char>,
    pub target: Seq<char>,
}

impl View for LinkPaths {
    type V = LinkView;

    open spec fn view(&self) -> LinkView {
        LinkView { source: self.source@, target: self.target@ }
    }
}

/// The contents of a list of links.
pub open spec fn links_of(list: Seq<LinkPaths>) -> Seq<LinkView> {
    list.map_values(|l: LinkPaths| l@)
}

/// The links to make, in order, and what stops the step behind the last one.
#[derive(Debug)]
pub struct LinkPlan {
    pub links: Vec<LinkPaths>,
    pub error: Option<Error>,
}

/// A plan, over the characters of its texts.
pub struct LinkPlanView {
    pub links: Seq<LinkView>,
    pub error: Option<ErrorView>,
}

impl View for LinkPlan {
    type V = LinkPlanView;

    open spec fn view(&self) -> LinkPlanView {
        LinkPlanView {
            links: links_of(self.links@),
            error: match self.error {
                Some(error) => Some(error@),
                None => None,
            },
        }
    }
}

/// The contents of the definitions in a manifest.
pub open spec fn definitions_of(list: Seq<Vec<String>>) -> Seq<Seq<Seq<char>>> {
    list.map_values(|d: Vec<String>| views(d@))
}

/// The error for a path that is not below its directory.
pub open spec fn unsafe_path(path: Seq<char>) -> ErrorView {
    around("unsafe persistent path '"@, path, "'"@)
}

/// Checks that a path stays below the directory it is looked up in.
pub fn safe_relative(on: Platform, path: &str) -> (r: Result<String, Error>)
    ensures
        text_result(r) == if is_safe(on, path@) {
            Ok(path@)
        } else {
            Err(unsafe_path(path@))
        },
{
    if is_safe_relative(on, path) {
        Ok(path.to_owned())
    } else {
        Err(message_around("unsafe persistent path '", path, "'"))
    }
}

/// The name under which the data of a definition is kept: the second name, or
/// the only one.
pub open spec fn kept_name(definition: Seq<Seq<char>>) -> Seq<char> {
    if definition.len() > 1 {
        definition[1]
    } else {
        definition[0]
    }
}

/// The link of a definition that has a name, or the error for the first of its
/// paths that is not safe.
pub open spec fn link_of(
    on: Platform,
    app: Seq<char>,
    kept: Seq<char>,
    definition: Seq<Seq<char>>,
) -> Result<LinkView, ErrorView> {
    if !is_safe(on, definition[0]) {
        Err(unsafe_path(definition[0]))
    } else if !is_safe(on, kept_name(definition)) {
        Err(unsafe_path(kept_name(definition)))
    } else {
        Ok(
            LinkView {
                source: join_of(on, app, definition[0]),
                target: join_of(on, kept, kept_name(definition)),
            },
        )
    }
}

/// The plan for a list of definitions. An empty definition is passed over, and
/// nothing follows the first error.
pub open spec fn plan_of(
    on: Platform,
    app: Seq<char>,
    kept: Seq<char>,
    definitions: Seq<Seq<Seq<char>>>,
) -> LinkPlanView
    decreases definitions.len(),
{
    if definitions.len() == 0 {
        LinkPlanView { links: Seq::empty(), error: None }
    } else {
        let before = plan_of(on, app, kept, definitions.drop_last());
        let definition = definitions.last();
        if before.error is Some || definition.len() == 0 {
            before
        } else {
            match link_of(on, app, kept, definition) {
                Ok(link) => LinkPlanView { links: before.links.push(link), error: None },
                Err(error) => LinkPlanView { links: before.links, error: Some(error) },
            }
        }
    }
}

/// An error among the first definitions is the error of all of them.
pub proof fn lemma_plan_error(
    on: Platform,
    app: Seq<char>,
    kept: Seq<char>,
    definitions: Seq<Seq<Seq<char>>>,
    k: int,
)
    requires
        0 <= k <= definitions.len(),
        plan_of(on, app, kept, definitions.take(k)).error is Some,
    ensures
        plan_of(on, app, kept, definitions) == plan_of(on, app, kept, definitions.take(k)),
    decreases definitions.len(),
{
    if k < definitions.len() {
        assert(definitions.drop_last().take(k) =~= definitions.take(k));
        lemma_plan_error(on, app, kept, definitions.drop_last(), k);
    } else {
        assert(definitions.take(k) =~= definitions);
    }
}

fn link_paths(
    on: Platform,
    app: &str,
    kept: &str,
    definition: &Vec<String>,
) -> (r: Result<LinkPaths, Error>)
    requires
        definition@.len() > 0,
    ensures
        match r {
            Ok(link) => link_of(on, app@, kept@, views(definition@)) == Ok::<LinkView, ErrorView>(link@),
            Err(error) => link_of(on, app@, kept@, views(definition@)) == Err::<LinkView, ErrorView>(
                error@,
            ),
        },
{
    let name = if definition.len() > 1 {
        definition[1].as_str()
    } else {
        definition[0].as_str()
    };
    assert(name@ == kept_name(views(definition@)));
    match safe_relative(on, definition[0].as_str()) {
        Err(error) => Err(error),
        Ok(source) => match safe_relative(on, name) {
            Err(error) => Err(error),
            Ok(target) => Ok(
                LinkPaths {
                    source: join(on, app, source.as_str()),
                    target: join(on, kept, target.as_str()),
                },
            ),
        },
    }
}

/// The links to the persistent data of a package.
pub open spec fn planned_links(session: Session, package: Package) -> LinkPlanView {
    match package.manifest.persist {
        Some(list) => plan_of(
            session.platform,
            used_dir_of(session, package),
            persist_dir_of(session.platform, session.config.root_path@, package.name@),
            definitions_of(list@),
        ),
        None => LinkPlanView { links: Seq::empty(), error: None },
    }
}

/// Plans the links to the persistent data of a package.
pub fn link(session: &Session, package: &Package) -> (r: LinkPlan)
    ensures
        r@ == planned_links(*session, *package),
{
    let mut links: Vec<LinkPaths> = Vec::new();
    assert(links_of(links@) =~= Seq::<LinkView>::empty());
    if let Some(list) = &package.manifest.persist {
        let on = session.platform;
        let root = session.config.root_path.as_str();
        let version = if session.config.no_junction {
            package.version.as_str()
        } else {
            "current"
        };
        let app = app_dir(on, root, package.name.as_str(), version);
        let kept = persist_dir(on, root, package.name.as_str());
        let ghost all = definitions_of(list@);
        let mut i: usize = 0;
        while i < list.len()
            invariant
                i <= list@.len(),
                all == definitions_of(list@),
                on == session.platform,
                app@ == used_dir_of(*session, *package),
                kept@ == persist_dir_of(session.platform, session.config.root_path@, package.name@),
                package.manifest.persist == Some(*list),
                plan_of(on, app@, kept@, all.take(i as int)) == (LinkPlanView {
                    links: links_of(links@),
                    error: None,
                }),
            decreases list@.len() - i,
        {
            let ghost shown = all.take(i + 1);
            assert(shown.drop_last() =~= all.take(i as int));
            assert(shown.last() == views(list@[i as int]@));
            if list[i].len() > 0 {
                let ghost before = links@;
                match link_paths(on, app.as_str(), kept.as_str(), &list[i]) {
                    Ok(link) => {
                        links.push(link);
                        assert(links_of(links@) =~= links_of(before).push(link@));
                    },
                    Err(error) => {
                        proof {
                            lemma_plan_error(on, app@, kept@, all, i + 1);
                        }
                        return LinkPlan { links, error: Some(error) };
                    },
                }
            }
            i = i + 1;
        }
        assert(all.take(i as int) =~= all);
    }
    LinkPlan { links, error: None }
}

/// An action that makes a link.
#[derive(Debug, PartialEq, Eq)]
pub enum LinkAction {
    /// Remove a file, a directory or a link.
    Remove { path: String },
    /// Make sure that this directory exists. A path that has no parent has none
    /// to make sure of.
    EnsureParent { parent: Option<String> },
    /// Move a file or directory.
    Rename { from: String, to: String },
    /// Make the directory unless something of this name exists by now.
    EnsureDirIfMissing { path: String },
    /// Make a link at `link` that leads to `target`.
    Symlink { target: String, link: String },
}

/// An action, over the characters of its paths.
pub enum LinkActionView {
    Remove { path: Seq<char> },
    EnsureParent { parent: Option<Seq<char>> },
    Rename { from: Seq<char>, to: Seq<char> },
    EnsureDirIfMissing { path: Seq<char> },
    Symlink { target: Seq<char>, link: Seq<char> },
}

impl View for LinkAction {
    type V = LinkActionView;

    open spec fn view(&self) -> LinkActionView {
        match self {
            LinkAction::Remove { path } => LinkActionView::Remove { path: path@ },
            LinkAction::EnsureParent { parent } => LinkActionView::EnsureParent {
                parent: match parent {
                    Some(dir) => Some(dir@),
                    None => None,
                },
            },
            LinkAction::Rename { from, to } => LinkActionView::Rename { from: from@, to: to@ },
            LinkAction::EnsureDirIfMissing { path } => LinkActionView::EnsureDirIfMissing {
                path: path@,
            },
            LinkAction::Symlink { target, link } => LinkActionView::Symlink {
                target: target@,
                link: link@,
            },
        }
    }
}

/// The contents of a list of actions.
pub open spec fn actions_of(list: Seq<LinkAction>) -> Seq<LinkActionView> {
    list.map_values(|a: LinkAction| a@)
}

fn push_action(list: &mut Vec<LinkAction>, action: LinkAction)
    ensures
        actions_of(final(list)@) == actions_of(old(list)@).push(action@),
{
    list.push(action);
    assert(actions_of(list@) =~= actions_of(old(list)@).push(action@));
}

/// What happens to data that the application brought along: it gives way to
/// data that is kept already, and is kept itself otherwise.
pub open spec fn settle(
    on: Platform,
    link: LinkView,
    source_exists: bool,
    target_exists: bool,
) -> Seq<LinkActionView> {
    if source_exists && target_exists {
        seq![LinkActionView::Remove { path: link.source }]
    } else if source_exists {
        seq![
            LinkActionView::EnsureParent { parent: parent_of(on, link.target) },
            LinkActionView::Rename { from: link.source, to: link.target },
        ]
    } else {
        seq![]
    }
}

/// How a link is made: the data that is there is settled, and the link is made
/// between directories that exist.
pub open spec fn linking(
    on: Platform,
    link: LinkView,
    source_exists: bool,
    target_exists: bool,
) -> Seq<LinkActionView> {
    settle(on, link, source_exists, target_exists) + seq![
        LinkActionView::EnsureDirIfMissing { path: link.target },
        LinkActionView::EnsureParent { parent: parent_of(on, link.source) },
        LinkActionView::Symlink { target: link.target, link: link.source },
    ]
}

/// Plans how a link is made, given whether its two ends exist.
pub fn link_actions(
    on: Platform,
    link: &LinkPaths,
    source_exists: bool,
    target_exists: bool,
) -> (r: Vec<LinkAction>)
    ensures
        actions_of(r@) == linking(on, link@, source_exists, target_exists),
{
    let mut out: Vec<LinkAction> = Vec::new();
    assert(actions_of(out@) =~= Seq::<LinkActionView>::empty());
    if source_exists {
        if target_exists {
            push_action(&mut out, LinkAction::Remove { path: link.source.clone() });
        } else {
            push_action(
                &mut out,
                LinkAction::EnsureParent { parent: parent(on, link.target.as_str()) },
            );
            push_action(
                &mut out,
                LinkAction::Rename { from: link.source.clone(), to: link.target.clone() },
            );
        }
    }
    assert(actions_of(out@) =~= settle(on, link@, source_exists, target_exists));
    push_action(&mut out, LinkAction::EnsureDirIfMissing { path: link.target.clone() });
    push_action(&mut out, LinkAction::EnsureParent { parent: parent(on, link.source.as_str()) });
    push_action(
        &mut out,
        LinkAction::Symlink { target: link.target.clone(), link: link.source.clone() },
    );
    assert(actions_of(out@) =~= linking(on, link@, source_exists, target_exists));
    out
}

/// How something is removed.
#[derive(Clone, Copy, Debug, PartialEq, Eq, Structural)]
pub enum Removal {
    Symlink,
    Dir,
    File,
}

/// How something is removed.
pub open spec fn removal_of(is_symlink: bool, is_dir: bool) -> Removal {
    if is_symlink {
        Removal::Symlink
    } else if is_dir {
        Removal::Dir
    } else {
        Removal::File
    }
}

/// Decides how something is removed. A link is removed as such, also where it
/// leads to a directory.
pub fn remove_path(is_symlink: bool, is_dir: bool) -> (r: Removal)
    ensures
        r == removal_of(is_symlink, is_dir),
{
    if is_symlink {
        Removal::Symlink
    } else if is_dir {
        Removal::Dir
    } else {
        Removal::File
    }
}

/// The link of a definition below the directory of the application.
pub open spec fn unlink_of(on: Platform, app: Seq<char>, definition: Seq<Seq<char>>) -> Seq<char> {
    normal_form(on, join_of(on, app, definition[0]))
}

/// The links of an installed application, one for each definition.
pub open spec fn unlinks_of(
    on: Platform,
    app: Seq<char>,
    definitions: Seq<Seq<Seq<char>>>,
) -> Seq<Seq<char>> {
    definitions.map_values(|d: Seq<Seq<char>>| unlink_of(on, app, d))
}

/// The definitions in front of the first one that has no name.
pub open spec fn named_first(definitions: Seq<Seq<Seq<char>>>) -> Seq<Seq<Seq<char>>>
    decreases definitions.len(),
{
    if definitions.len() == 0 || definitions[0].len() == 0 {
        Seq::empty()
    } else {
        seq![definitions[0]] + named_first(definitions.skip(1))
    }
}

/// The links to remove for an installed package.
pub open spec fn planned_unlinks(session: Session, package: Package) -> Seq<Seq<char>> {
    match package.manifest.persist {
        Some(list) => unlinks_of(
            session.platform,
            installed_dir(session, package),
            named_first(definitions_of(list@)),
        ),
        None => Seq::empty(),
    }
}

/// Returns the links to remove for an installed package, in order, up to the
/// first definition that has no name, where a removal ends.
pub fn unlink(session: &Session, package: &Package) -> (r: Vec<String>)
    requires
        package.is_installed(),
    ensures
        views(r@) == planned_unlinks(*session, *package),
{
    let mut out: Vec<String> = Vec::new();
    assert(views(out@) =~= Seq::<Seq<char>>::empty());
    if let Some(list) = &package.manifest.persist {
        let on = session.platform;
        let app = installed_app_dir(session, package);
        let ghost all = definitions_of(list@);
        let ghost wanted = unlinks_of(on, app@, named_first(all));
        let mut i: usize = 0;
        assert(all.skip(0) =~= all);
        assert(views(out@) + wanted =~= wanted);
        while i < list.len() && list[i].len() > 0
            invariant
                i <= list@.len(),
                all == definitions_of(list@),
                wanted == unlinks_of(on, app@, named_first(all)),
                views(out@) + unlinks_of(on, app@, named_first(all.skip(i as int))) == wanted,
            decreases list@.len() - i,
        {
            let ghost before = out@;
            let ghost rest = all.skip(i as int);
            let path = join(on, app.as_str(), list[i][0].as_str());
            out.push(normalize_path(on, path.as_str()));
            proof {
                assert(rest[0] == views(list@[i as int]@));
                assert(rest.skip(1) =~= all.skip(i + 1));
                let made = unlink_of(on, app@, rest[0]);
                let later = unlinks_of(on, app@, named_first(rest.skip(1)));
                assert(views(out@) =~= views(before).push(made));
                assert(unlinks_of(on, app@, named_first(rest)) =~= seq![made] + later);
                assert(views(out@) + later =~= views(before) + (seq![made] + later));
            }
            i = i + 1;
        }
        proof {
            let rest = all.skip(i as int);
            if i < list@.len() {
                assert(rest[0] == views(list@[i as int]@));
            }
            assert(named_first(rest) =~= Seq::<Seq<Seq<char>>>::empty());
            assert(views(out@) + unlinks_of(on, app@, named_first(rest)) =~= views(out@));
        }
    }
    out
}

} // verus!
