//! Unpacking of downloaded archives.
//!
//! An extraction is a list of actions on archives and directories. The archive
//! formats themselves are left to the caller.

use crate::error::{around, message_around, text_result, Error, ErrorView};
use crate::internal::path::{
    below, components, components_of, component_views, is_safe, is_safe_relative,
    is_unanchored, has_physical_root, join, join_of, parent, parent_of, prefix, strip_prefix,
    Component, ComponentView,
};
use crate::internal::text::{find_first, to_chars};
use crate::session::Platform;
use vstd::prelude::*;

verus! {

/// The archive formats that packages come in.
#[derive(Clone, Copy, Debug, PartialEq, Eq, Structural)]
pub enum Format {
    /// .bz2
    Bz2,
    /// .gz
    Gzip,
    /// .rar
    Rar,
    /// .7z, .xz
    XZip,
    /// .tar
    Tar,
    /// .zip
    Zip,
    /// .zstd
    Zst,
}

/// An action of an extraction.
#[derive(Debug, PartialEq, Eq)]
pub enum ArchiveAction {
    /// Open the archive and start to decode it.
    Open,
    /// Make sure that a directory exists.
    EnsureDir { path: String },
    /// Remove a directory where it exists.
    RemoveDirIfExists { path: String },
    /// Unpack the whole archive into a directory.
    Unpack { path: String },
    /// Stop with the error unless this is a directory.
    RequireDir { path: String, error: Error },
    /// Move each entry of one directory to another.
    MoveEntries { from: String, to: String },
    /// Remove a directory.
    RemoveDir { path: String },
    /// Remove a file.
    RemoveFile { path: String },
    /// Move a file or directory.
    Rename { from: String, to: String },
    /// Unpack one entry of the archive to a file.
    WriteEntry { index: usize, path: String },
    /// Stop with an error.
    Fail(Error),
}

/// An action, over the characters of its texts.
pub enum ArchiveActionView {
    Open,
    EnsureDir { path: Seq<char> },
    RemoveDirIfExists { path: Seq<char> },
    Unpack { path: Seq<char> },
    RequireDir { path: Seq<char>, error: ErrorView },
    MoveEntries { from: Seq<char>, to: Seq<char> },
    RemoveDir { path: Seq<char> },
    RemoveFile { path: Seq<char> },
    Rename { from: Seq<char>, to: Seq<char> },
    WriteEntry { index: int, path: Seq<char> },
    Fail(ErrorView),
}

impl View for ArchiveAction {
    type V = ArchiveActionView;

    open spec fn view(&self) -> ArchiveActionView {
        match self {
            ArchiveAction::Open => ArchiveActionView::Open,
            ArchiveAction::EnsureDir { path } => ArchiveActionView::EnsureDir { path: path@ },
            ArchiveAction::RemoveDirIfExists { path } => ArchiveActionView::RemoveDirIfExists {
                path: path@,
            },
            ArchiveAction::Unpack { path } => ArchiveActionView::Unpack { path: path@ },
            ArchiveAction::RequireDir { path, error } => ArchiveActionView::RequireDir {
                path: path@,
                error: error@,
            },
            ArchiveAction::MoveEntries { from, to } => ArchiveActionView::MoveEntries {
                from: from@,
                to: to@,
            },
            ArchiveAction::RemoveDir { path } => ArchiveActionView::RemoveDir { path: path@ },
            ArchiveAction::RemoveFile { path } => ArchiveActionView::RemoveFile { path: path@ },
            ArchiveAction::Rename { from, to } => ArchiveActionView::Rename {
                from: from@,
                to: to@,
            },
            ArchiveAction::WriteEntry { index, path } => ArchiveActionView::WriteEntry {
                index: *index as int,
                path: path@,
            },
            ArchiveAction::Fail(error) => ArchiveActionView::Fail(error@),
        }
    }
}

/// The contents of a list of actions.
pub open spec fn actions_of(list: Seq<ArchiveAction>) -> Seq<ArchiveActionView> {
    list.map_values(|a: ArchiveAction| a@)
}

fn push_action(list: &mut Vec<ArchiveAction>, action: ArchiveAction)
    ensures
        actions_of(final(list)@) == actions_of(old(list)@).push(action@),
{
    list.push(action);
    assert(actions_of(list@) =~= actions_of(old(list)@).push(action@));
}

/// The error of the ZIP reader.
pub fn zip_error(error: &str) -> (r: Error)
    ensures
        r@ == ErrorView::Custom("ZIP error: "@ + error@),
{
    let mut message = "ZIP error: ".to_owned();
    message.append(error);
    Error::Custom(message)
}

/// The error of the 7z reader.
pub fn sevenz_error(error: &str) -> (r: Error)
    ensures
        r@ == ErrorView::Custom("7z error: "@ + error@),
{
    let mut message = "7z error: ".to_owned();
    message.append(error);
    Error::Custom(message)
}

/// What the directory of a ZIP archive says of an entry.
#[derive(Debug)]
pub enum ZipEntry {
    /// The entry could not be read, for this reason.
    Unreadable(String),
    /// The entry has a name and is a directory or a file.
    Entry { name: String, is_dir: bool },
}

/// An entry, over the characters of its texts.
pub enum ZipEntryView {
    Unreadable(Seq<char>),
    Entry { name: Seq<char>, is_dir: bool },
}

impl View for ZipEntry {
    type V = ZipEntryView;

    open spec fn view(&self) -> ZipEntryView {
        match self {
            ZipEntry::Unreadable(error) => ZipEntryView::Unreadable(error@),
            ZipEntry::Entry { name, is_dir } => ZipEntryView::Entry { name: name@, is_dir: *is_dir },
        }
    }
}

/// The contents of a list of entries.
pub open spec fn entries_of(list: Seq<ZipEntry>) -> Seq<ZipEntryView> {
    list.map_values(|e: ZipEntry| e@)
}

/// How many levels a walk over components goes down, less the levels it goes up.
pub open spec fn depth(steps: Seq<ComponentView>) -> int
    decreases steps.len(),
{
    if steps.len() == 0 {
        0
    } else {
        depth(steps.drop_last()) + (if steps.last() is Normal {
            1int
        } else if steps.last() is ParentDir {
            -1int
        } else {
            0
        })
    }
}

/// Whether the name of an entry stays in the directory it is unpacked to: it is
/// a relative path that at no point leads above its start.
pub open spec fn is_enclosed(on: Platform, name: Seq<char>) -> bool {
    let steps = components_of(on, name);
    &&& !name.contains('\0')
    &&& forall|i: int|
        #![trigger steps[i]]
        0 <= i < steps.len() ==> !(steps[i] is Prefix || steps[i] is RootDir)
    &&& forall|k: int| 0 <= k <= steps.len() ==> depth(#[trigger] steps.take(k)) >= 0
}

/// Whether the name of an entry stays in the directory it is unpacked to.
pub fn is_enclosed_name(on: Platform, name: &str) -> (r: bool)
    ensures
        r == is_enclosed(on, name@),
{
    let chars = to_chars(name);
    if let Some(i) = find_first(&chars, 0, chars.len(), '\0') {
        assert(name@[i as int] == '\0');
        return false;
    }
    let all = components(on, name);
    let ghost steps = components_of(on, name@);
    assert(steps.len() == all@.len());
    let mut level: usize = 0;
    let mut i: usize = 0;
    assert(steps.take(0) =~= Seq::<ComponentView>::empty());
    while i < all.len()
        invariant
            i <= all@.len() == steps.len(),
            steps == components_of(on, name@),
            component_views(all@) == steps,
            level <= i,
            level == depth(steps.take(i as int)),
            forall|k: int|
                0 <= k < i ==> !((#[trigger] steps[k]) is Prefix || steps[k] is RootDir),
            forall|k: int| 0 <= k <= i ==> depth(#[trigger] steps.take(k)) >= 0,
        decreases all@.len() - i,
    {
        assert(steps[i as int] == all@[i as int]@);
        assert(steps.take(i + 1).drop_last() =~= steps.take(i as int));
        assert(steps.take(i + 1).last() == steps[i as int]);
        match &all[i] {
            Component::Prefix(_) | Component::RootDir => {
                return false;
            },
            Component::ParentDir => {
                if level == 0 {
                    assert(depth(steps.take(i + 1)) < 0);
                    return false;
                }
                level = level - 1;
            },
            Component::Normal(_) => {
                level = level + 1;
            },
            Component::CurDir => {},
        }
        i = i + 1;
    }
    true
}

/// An enclosed name is not anchored.
pub proof fn lemma_enclosed_is_unanchored(on: Platform, name: Seq<char>)
    requires
        is_enclosed(on, name),
    ensures
        is_unanchored(on, name),
{
    if prefix(on, name) is Some {
        assert(components_of(on, name)[0] is Prefix);
    } else if has_physical_root(on, name) {
        assert(components_of(on, name)[0] is RootDir);
    }
}

/// What an entry asks for, and what stops the extraction.
pub struct StepsView {
    pub actions: Seq<ArchiveActionView>,
    pub error: Option<ErrorView>,
}

/// The path of an entry below the directory that is unpacked. An entry that is
/// not below it, or is the directory itself, has none.
pub open spec fn relative_of(
    on: Platform,
    name: Seq<char>,
    strip_dir: Option<Seq<char>>,
) -> Option<Seq<char>> {
    match strip_dir {
        None => Some(name),
        Some(dir) => match below(on, name, dir) {
            Some(rest) => if rest.len() > 0 {
                Some(rest)
            } else {
                None
            },
            None => None,
        },
    }
}

/// What unpacking an entry to a path asks for.
pub open spec fn output_of(
    on: Platform,
    index: int,
    output: Seq<char>,
    is_dir: bool,
) -> Seq<ArchiveActionView> {
    if is_dir {
        seq![ArchiveActionView::EnsureDir { path: output }]
    } else {
        (match parent_of(on, output) {
            Some(dir) => seq![ArchiveActionView::EnsureDir { path: dir }],
            None => seq![],
        }) + seq![ArchiveActionView::WriteEntry { index, path: output }]
    }
}

/// The error for an entry whose path would leave the destination.
pub open spec fn unsafe_entry(name: Seq<char>) -> ErrorView {
    around("unsafe path '"@, name, "' in ZIP archive"@)
}

/// What the entry number `index` asks for. Both its name and what remains of it
/// below the wanted directory must be enclosed.
pub open spec fn entry_steps(
    on: Platform,
    destination: Seq<char>,
    strip_dir: Option<Seq<char>>,
    index: int,
    entry: ZipEntryView,
) -> StepsView {
    match entry {
        ZipEntryView::Unreadable(error) => StepsView {
            actions: seq![],
            error: Some(ErrorView::Custom("ZIP error: "@ + error)),
        },
        ZipEntryView::Entry { name, is_dir } => if !is_enclosed(on, name) {
            StepsView { actions: seq![], error: Some(unsafe_entry(name)) }
        } else {
            match relative_of(on, name, strip_dir) {
                None => StepsView { actions: seq![], error: None },
                Some(relative) => if !is_enclosed(on, relative) {
                    StepsView { actions: seq![], error: Some(unsafe_entry(name)) }
                } else {
                    StepsView {
                        actions: output_of(on, index, join_of(on, destination, relative), is_dir),
                        error: None,
                    }
                },
            }
        },
    }
}

/// What the entries of an archive ask for, up to the first error.
pub open spec fn zip_steps(
    on: Platform,
    destination: Seq<char>,
    strip_dir: Option<Seq<char>>,
    entries: Seq<ZipEntryView>,
) -> StepsView
    decreases entries.len(),
{
    if entries.len() == 0 {
        StepsView { actions: seq![], error: None }
    } else {
        let before = zip_steps(on, destination, strip_dir, entries.drop_last());
        if before.error is Some {
            before
        } else {
            let next = entry_steps(on, destination, strip_dir, entries.len() - 1, entries.last());
            StepsView { actions: before.actions + next.actions, error: next.error }
        }
    }
}

/// An error among the first entries is the error of all of them.
pub proof fn lemma_zip_error(
    on: Platform,
    destination: Seq<char>,
    strip_dir: Option<Seq<char>>,
    entries: Seq<ZipEntryView>,
    k: int,
)
    requires
        0 <= k <= entries.len(),
        zip_steps(on, destination, strip_dir, entries.take(k)).error is Some,
    ensures
        zip_steps(on, destination, strip_dir, entries) == zip_steps(
            on,
            destination,
            strip_dir,
            entries.take(k),
        ),
    decreases entries.len(),
{
    if k < entries.len() {
        assert(entries.drop_last().take(k) =~= entries.take(k));
        lemma_zip_error(on, destination, strip_dir, entries.drop_last(), k);
    } else {
        assert(entries.take(k) =~= entries);
    }
}

/// The contents of a text that may be missing.
pub open spec fn option_view(text: Option<&str>) -> Option<Seq<char>> {
    match text {
        Some(t) => Some(t@),
        None => None,
    }
}

/// Returns the path of an entry below the directory that is unpacked.
fn entry_relative(on: Platform, name: &str, strip_dir: Option<&str>) -> (r: Option<String>)
    requires
        is_unanchored(on, name@),
    ensures
        r is Some <==> relative_of(on, name@, option_view(strip_dir)) is Some,
        r matches Some(text) ==> relative_of(on, name@, option_view(strip_dir)) == Some(text@),
{
    match strip_dir {
        None => Some(name.to_owned()),
        Some(dir) => match strip_prefix(on, name, dir) {
            Some(rest) => {
                if rest.as_str().is_empty() {
                    None
                } else {
                    Some(rest)
                }
            },
            None => None,
        },
    }
}

/// Adds what an entry asks for.
fn plan_entry(
    on: Platform,
    destination: &str,
    strip_dir: Option<&str>,
    index: usize,
    entry: &ZipEntry,
    out: &mut Vec<ArchiveAction>,
) -> (r: Option<Error>)
    ensures
        ({
            let steps = entry_steps(
                on,
                destination@,
                option_view(strip_dir),
                index as int,
                entry@,
            );
            &&& actions_of(final(out)@) == actions_of(old(out)@) + steps.actions
            &&& r is Some <==> steps.error is Some
            &&& r matches Some(error) ==> steps.error == Some(error@)
        }),
{
    let ghost steps = entry_steps(on, destination@, option_view(strip_dir), index as int, entry@);
    let ghost before = actions_of(out@);
    match entry {
        ZipEntry::Unreadable(error) => {
            assert(before + steps.actions =~= before);
            Some(zip_error(error.as_str()))
        },
        ZipEntry::Entry { name, is_dir } => {
            if !is_enclosed_name(on, name.as_str()) {
                assert(before + steps.actions =~= before);
                return Some(message_around("unsafe path '", name.as_str(), "' in ZIP archive"));
            }
            proof {
                lemma_enclosed_is_unanchored(on, name@);
            }
            if let Some(relative) = entry_relative(on, name.as_str(), strip_dir) {
                if !is_enclosed_name(on, relative.as_str()) {
                    assert(before + steps.actions =~= before);
                    return Some(
                        message_around("unsafe path '", name.as_str(), "' in ZIP archive"),
                    );
                }
                let output = join(on, destination, relative.as_str());
                if *is_dir {
                    push_action(out, ArchiveAction::EnsureDir { path: output });
                } else {
                    if let Some(dir) = parent(on, output.as_str()) {
                        push_action(out, ArchiveAction::EnsureDir { path: dir });
                    }
                    push_action(out, ArchiveAction::WriteEntry { index, path: output });
                }
            }
            assert(actions_of(out@) =~= before + steps.actions);
            None
        },
    }
}

/// The whole extraction of a ZIP archive: the destination is made first, then come
/// the entries, and an error ends it.
pub open spec fn zip_plan(
    on: Platform,
    destination: Seq<char>,
    strip_dir: Option<Seq<char>>,
    entries: Seq<ZipEntryView>,
) -> Seq<ArchiveActionView> {
    let steps = zip_steps(on, destination, strip_dir, entries);
    seq![ArchiveActionView::EnsureDir { path: destination }] + steps.actions + (
    match steps.error {
        Some(error) => seq![ArchiveActionView::Fail(error)],
        None => seq![],
    })
}

/// Plans the extraction of a ZIP archive into `destination`, given what its
/// directory says of its entries.
///
/// Entry paths are validated before extraction. Where `strip_dir` is given,
/// only entries below that directory are extracted and the directory is removed
/// from their paths; what remains is validated again.
pub fn extract_zip(
    on: Platform,
    destination: &str,
    strip_dir: Option<&str>,
    entries: &Vec<ZipEntry>,
) -> (r: Vec<ArchiveAction>)
    ensures
        actions_of(r@) == zip_plan(on, destination@, option_view(strip_dir), entries_of(entries@)),
{
    let ghost all = entries_of(entries@);
    let ghost strip = option_view(strip_dir);
    let ghost head = seq![ArchiveActionView::EnsureDir { path: destination@ }];
    let mut out: Vec<ArchiveAction> = Vec::new();
    assert(actions_of(out@) =~= Seq::<ArchiveActionView>::empty());
    push_action(&mut out, ArchiveAction::EnsureDir { path: destination.to_owned() });
    let mut i: usize = 0;
    assert(actions_of(out@) =~= head + zip_steps(on, destination@, strip, all.take(0)).actions);
    while i < entries.len()
        invariant
            i <= entries@.len(),
            all == entries_of(entries@),
            strip == option_view(strip_dir),
            head == seq![ArchiveActionView::EnsureDir { path: destination@ }],
            actions_of(out@) == head + zip_steps(on, destination@, strip, all.take(i as int)).actions,
            zip_steps(on, destination@, strip, all.take(i as int)).error is None,
        decreases entries@.len() - i,
    {
        let ghost shown = all.take(i + 1);
        assert(shown.drop_last() =~= all.take(i as int));
        assert(shown.last() == entries@[i as int]@);
        let failed = plan_entry(on, destination, strip_dir, i, &entries[i], &mut out);
        assert(actions_of(out@) =~= head + zip_steps(on, destination@, strip, shown).actions);
        if let Some(error) = failed {
            proof {
                lemma_zip_error(on, destination@, strip, all, i + 1);
            }
            push_action(&mut out, ArchiveAction::Fail(error));
            assert(actions_of(out@) =~= head + zip_steps(on, destination@, strip, all).actions + seq![
                ArchiveActionView::Fail(error@),
            ]);
            return out;
        }
        i = i + 1;
    }
    assert(all.take(i as int) =~= all);
    assert(actions_of(out@) =~= head + zip_steps(on, destination@, strip, all).actions + seq![]);
    out
}

/// An extraction that unpacks a whole archive. `next_step` leads through it: the
/// preparation and the body run in order, and the first failure stops either.
/// Where there is something to clean up, it is removed after the body, whether
/// that worked or not.
#[derive(Debug)]
pub struct ExtractPlan {
    pub prepare: Vec<ArchiveAction>,
    pub body: Vec<ArchiveAction>,
    pub cleanup: Option<String>,
}

/// A plan, over the characters of its texts.
pub struct ExtractPlanView {
    pub prepare: Seq<ArchiveActionView>,
    pub body: Seq<ArchiveActionView>,
    pub cleanup: Option<Seq<char>>,
}

impl View for ExtractPlan {
    type V = ExtractPlanView;

    open spec fn view(&self) -> ExtractPlanView {
        ExtractPlanView {
            prepare: actions_of(self.prepare@),
            body: actions_of(self.body@),
            cleanup: match self.cleanup {
                Some(path) => Some(path@),
                None => None,
            },
        }
    }
}

/// Where the run of a plan stands.
#[derive(Debug, Clone, Copy, PartialEq, Eq, Structural)]
pub enum Step {
    /// At an action of the preparation.
    Prepare(usize),
    /// At an action of the body.
    Body(usize),
    /// At the cleanup; `failed` tells whether the extraction failed.
    Cleanup { failed: bool },
    /// At the end.
    Done { failed: bool },
}

/// Where a run goes from the body.
pub open spec fn ending(plan: ExtractPlanView, failed: bool) -> Step {
    if plan.cleanup is Some {
        Step::Cleanup { failed }
    } else {
        Step::Done { failed }
    }
}

/// Where a run goes from a step, given whether that failed: a failed preparation
/// ends it, a failed body does not keep it from the cleanup, and it does not matter
/// whether the cleanup fails.
pub open spec fn step_after(plan: ExtractPlanView, at: Step, failed: bool) -> Step {
    match at {
        Step::Prepare(i) => if failed {
            Step::Done { failed: true }
        } else if i + 1 < plan.prepare.len() {
            Step::Prepare((i + 1) as usize)
        } else {
            Step::Body(0)
        },
        Step::Body(i) => if !failed && i + 1 < plan.body.len() {
            Step::Body((i + 1) as usize)
        } else {
            ending(plan, failed)
        },
        Step::Cleanup { failed } => Step::Done { failed },
        Step::Done { failed } => Step::Done { failed },
    }
}

impl ExtractPlan {
    /// Decides where a run of the plan goes from a step, given whether that failed.
    /// A run starts at the first action of the preparation.
    pub fn next_step(&self, at: Step, failed: bool) -> (r: Step)
        ensures
            r == step_after(self@, at, failed),
    {
        match at {
            Step::Prepare(i) => if failed {
                Step::Done { failed: true }
            } else if i < self.prepare.len() && i + 1 < self.prepare.len() {
                Step::Prepare(i + 1)
            } else {
                Step::Body(0)
            },
            Step::Body(i) => if !failed && i < self.body.len() && i + 1 < self.body.len() {
                Step::Body(i + 1)
            } else if self.cleanup.is_some() {
                Step::Cleanup { failed }
            } else {
                Step::Done { failed }
            },
            Step::Cleanup { failed } => Step::Done { failed },
            Step::Done { failed } => Step::Done { failed },
        }
    }
}

/// The error for a directory that is not below the unpacked archive.
pub open spec fn unsafe_directory(relative: Seq<char>) -> ErrorView {
    around("unsafe archive directory '"@, relative, "'"@)
}

/// Returns the directory `relative` of an archive that was unpacked to `base`.
pub fn safe_archive_subdirectory(
    on: Platform,
    base: &str,
    relative: &str,
) -> (r: Result<String, Error>)
    ensures
        text_result(r) == if is_safe(on, relative@) {
            Ok(join_of(on, base@, relative@))
        } else {
            Err(unsafe_directory(relative@))
        },
{
    if is_safe_relative(on, relative) {
        Ok(join(on, base, relative))
    } else {
        Err(message_around("unsafe archive directory '", relative, "'"))
    }
}

/// How the directory `relative` of an unpacked archive is moved out.
pub open spec fn move_of(
    on: Platform,
    base: Seq<char>,
    destination: Seq<char>,
    relative: Seq<char>,
) -> Seq<ArchiveActionView> {
    if is_safe(on, relative) {
        let source = join_of(on, base, relative);
        seq![
            ArchiveActionView::RequireDir {
                path: source,
                error: around("archive directory '"@, relative, "' does not exist"@),
            },
            ArchiveActionView::MoveEntries { from: source, to: destination },
        ]
    } else {
        seq![ArchiveActionView::Fail(unsafe_directory(relative))]
    }
}

/// Plans how the directory `relative` of an archive that was unpacked to `base`
/// is moved to `destination`.
pub fn move_archive_subdirectory(
    on: Platform,
    base: &str,
    destination: &str,
    relative: &str,
) -> (r: Vec<ArchiveAction>)
    ensures
        actions_of(r@) == move_of(on, base@, destination@, relative@),
{
    let mut out: Vec<ArchiveAction> = Vec::new();
    assert(actions_of(out@) =~= Seq::<ArchiveActionView>::empty());
    match safe_archive_subdirectory(on, base, relative) {
        Ok(source) => {
            let error = message_around("archive directory '", relative, "' does not exist");
            push_action(&mut out, ArchiveAction::RequireDir { path: source.clone(), error });
            push_action(
                &mut out,
                ArchiveAction::MoveEntries { from: source, to: destination.to_owned() },
            );
        },
        Err(error) => {
            push_action(&mut out, ArchiveAction::Fail(error));
        },
    }
    out
}

/// Where an entry of a directory that is moved goes.
pub open spec fn moved_to(
    on: Platform,
    destination: Seq<char>,
    file_name: Seq<char>,
) -> Seq<char> {
    join_of(on, destination, file_name)
}

/// Returns where an entry of a directory that is moved goes.
pub fn move_target(on: Platform, destination: &str, file_name: &str) -> (r: String)
    ensures
        r@ == moved_to(on, destination@, file_name@),
{
    join(on, destination, file_name)
}

/// How an entry is moved: what is in its way goes first.
pub open spec fn moving(
    entry: Seq<char>,
    target: Seq<char>,
    target_exists: bool,
    target_is_dir: bool,
) -> Seq<ArchiveActionView> {
    (if target_exists && target_is_dir {
        seq![ArchiveActionView::RemoveDir { path: target }]
    } else if target_exists {
        seq![ArchiveActionView::RemoveFile { path: target }]
    } else {
        seq![]
    }) + seq![ArchiveActionView::Rename { from: entry, to: target }]
}

/// Plans how an entry is moved to `target`, given what is there. It replaces a
/// file or directory of that name.
pub fn move_entry(entry: &str, target: &str, target_exists: bool, target_is_dir: bool) -> (r: Vec<
    ArchiveAction,
>)
    ensures
        actions_of(r@) == moving(entry@, target@, target_exists, target_is_dir),
{
    let mut out: Vec<ArchiveAction> = Vec::new();
    assert(actions_of(out@) =~= Seq::<ArchiveActionView>::empty());
    if target_exists {
        if target_is_dir {
            push_action(&mut out, ArchiveAction::RemoveDir { path: target.to_owned() });
        } else {
            push_action(&mut out, ArchiveAction::RemoveFile { path: target.to_owned() });
        }
    }
    let ghost done = actions_of(out@);
    push_action(
        &mut out,
        ArchiveAction::Rename { from: entry.to_owned(), to: target.to_owned() },
    );
    assert(actions_of(out@) =~= done + seq![
        ArchiveActionView::Rename { from: entry@, to: target@ },
    ]);
    out
}

/// How directories are prepared for an extraction.
pub open spec fn preparation(destination: Seq<char>, temporary: Option<Seq<char>>) -> Seq<
    ArchiveActionView,
> {
    match temporary {
        None => seq![ArchiveActionView::EnsureDir { path: destination }],
        Some(temporary) => seq![
            ArchiveActionView::EnsureDir { path: destination },
            ArchiveActionView::RemoveDirIfExists { path: temporary },
            ArchiveActionView::EnsureDir { path: temporary },
        ],
    }
}

/// How an archive is unpacked and the wanted directory moved out.
pub open spec fn unpacking(
    on: Platform,
    destination: Seq<char>,
    temporary: Option<Seq<char>>,
    strip_dir: Option<Seq<char>>,
) -> Seq<ArchiveActionView> {
    match (temporary, strip_dir) {
        (Some(temporary), Some(dir)) => seq![ArchiveActionView::Unpack { path: temporary }]
            + move_of(on, temporary, destination, dir),
        _ => seq![ArchiveActionView::Unpack { path: destination }],
    }
}

/// The temporary directory of an extraction; none is needed where the whole
/// archive is wanted.
pub open spec fn temporary_of(
    on: Platform,
    destination: Seq<char>,
    name: Seq<char>,
    strip_dir: Option<Seq<char>>,
) -> Option<Seq<char>> {
    match strip_dir {
        Some(_) => Some(join_of(on, destination, name)),
        None => None,
    }
}

fn plan_preparation(destination: &str, temporary: &Option<String>, out: &mut Vec<ArchiveAction>)
    ensures
        actions_of(final(out)@) == actions_of(old(out)@) + preparation(
            destination@,
            match temporary {
                Some(path) => Some(path@),
                None => None,
            },
        ),
{
    let ghost before = actions_of(out@);
    push_action(out, ArchiveAction::EnsureDir { path: destination.to_owned() });
    match temporary {
        None => {
            assert(actions_of(out@) =~= before + preparation(destination@, None));
        },
        Some(path) => {
            push_action(out, ArchiveAction::RemoveDirIfExists { path: path.clone() });
            push_action(out, ArchiveAction::EnsureDir { path: path.clone() });
            assert(actions_of(out@) =~= before + preparation(destination@, Some(path@)));
        },
    }
}

fn plan_unpacking(
    on: Platform,
    destination: &str,
    temporary: &Option<String>,
    strip_dir: Option<&str>,
    out: &mut Vec<ArchiveAction>,
)
    ensures
        actions_of(final(out)@) == actions_of(old(out)@) + unpacking(
            on,
            destination@,
            match temporary {
                Some(path) => Some(path@),
                None => None,
            },
            option_view(strip_dir),
        ),
{
    let ghost before = actions_of(out@);
    match (temporary, strip_dir) {
        (Some(path), Some(dir)) => {
            push_action(out, ArchiveAction::Unpack { path: path.clone() });
            let mut moves = move_archive_subdirectory(on, path.as_str(), destination, dir);
            let ghost planned = moves@;
            let ghost unpacked = out@;
            out.append(&mut moves);
            assert(actions_of(out@) =~= actions_of(unpacked) + actions_of(planned));
            assert(actions_of(out@) =~= before + unpacking(
                on,
                destination@,
                Some(path@),
                Some(dir@),
            ));
        },
        _ => {
            push_action(out, ArchiveAction::Unpack { path: destination.to_owned() });
            assert(actions_of(out@) =~= before + seq![
                ArchiveActionView::Unpack { path: destination@ },
            ]);
        },
    }
}

fn temporary_dir(
    on: Platform,
    destination: &str,
    name: &str,
    strip_dir: Option<&str>,
) -> (r: Option<String>)
    ensures
        (match r {
            Some(path) => Some(path@),
            None => None,
        }) == temporary_of(on, destination@, name@, option_view(strip_dir)),
{
    match strip_dir {
        Some(_) => Some(join(on, destination, name)),
        None => None,
    }
}

/// The plan for a compressed tar archive.
pub open spec fn tar_plan(
    on: Platform,
    destination: Seq<char>,
    strip_dir: Option<Seq<char>>,
) -> ExtractPlanView {
    let temporary = temporary_of(on, destination, ".hok-tar-extract"@, strip_dir);
    ExtractPlanView {
        prepare: seq![ArchiveActionView::Open] + preparation(destination, temporary),
        body: unpacking(on, destination, temporary, strip_dir),
        cleanup: temporary,
    }
}

/// Plans the extraction of a tar.lzma archive into `destination`. Where
/// `strip_dir` is given, only what is in that directory is kept.
pub fn extract_tar_lzma(
    on: Platform,
    destination: &str,
    strip_dir: Option<&str>,
) -> (r: ExtractPlan)
    ensures
        r@ == tar_plan(on, destination@, option_view(strip_dir)),
{
    let cleanup = temporary_dir(on, destination, ".hok-tar-extract", strip_dir);
    let mut prepare: Vec<ArchiveAction> = Vec::new();
    let mut body: Vec<ArchiveAction> = Vec::new();
    assert(actions_of(prepare@) =~= Seq::<ArchiveActionView>::empty());
    assert(actions_of(body@) =~= Seq::<ArchiveActionView>::empty());
    push_action(&mut prepare, ArchiveAction::Open);
    plan_preparation(destination, &cleanup, &mut prepare);
    plan_unpacking(on, destination, &cleanup, strip_dir, &mut body);
    let ghost plan = tar_plan(on, destination@, option_view(strip_dir));
    assert(actions_of(prepare@) =~= plan.prepare);
    assert(actions_of(body@) =~= plan.body);
    ExtractPlan { prepare, body, cleanup }
}

/// The plan for a 7z archive.
pub open spec fn sevenz_plan(
    on: Platform,
    destination: Seq<char>,
    strip_dir: Option<Seq<char>>,
) -> ExtractPlanView {
    let temporary = temporary_of(on, destination, ".hok-7z-extract"@, strip_dir);
    ExtractPlanView {
        prepare: preparation(destination, temporary),
        body: seq![ArchiveActionView::Open] + unpacking(on, destination, temporary, strip_dir),
        cleanup: temporary,
    }
}

/// Plans the extraction of a 7z archive into `destination`. Where `strip_dir`
/// is given, only what is in that directory is kept.
pub fn extract_7z(on: Platform, destination: &str, strip_dir: Option<&str>) -> (r: ExtractPlan)
    ensures
        r@ == sevenz_plan(on, destination@, option_view(strip_dir)),
{
    let cleanup = temporary_dir(on, destination, ".hok-7z-extract", strip_dir);
    let mut prepare: Vec<ArchiveAction> = Vec::new();
    let mut body: Vec<ArchiveAction> = Vec::new();
    assert(actions_of(prepare@) =~= Seq::<ArchiveActionView>::empty());
    assert(actions_of(body@) =~= Seq::<ArchiveActionView>::empty());
    plan_preparation(destination, &cleanup, &mut prepare);
    push_action(&mut body, ArchiveAction::Open);
    plan_unpacking(on, destination, &cleanup, strip_dir, &mut body);
    let ghost plan = sevenz_plan(on, destination@, option_view(strip_dir));
    assert(actions_of(prepare@) =~= plan.prepare);
    assert(actions_of(body@) =~= plan.body);
    ExtractPlan { prepare, body, cleanup }
}

} // verus!
