//! Path syntax.
//!
//! A path is a sequence of characters. On Windows it starts with an optional
//! prefix (a drive, a share or a device). It may continue with a root separator,
//! and ends with a body, which separators cut into pieces. On other platforms
//! there are no prefixes, and only the slash separates.

use crate::internal::text::{from_chars, to_chars};
use crate::session::Platform;
use vstd::prelude::*;

verus! {

/// The kinds of path prefixes.
#[derive(Clone, Copy, Debug, PartialEq, Eq, Structural)]
pub enum PrefixKind {
    /// `\\?\name`
    Verbatim,
    /// `\\?\UNC\server\share`
    VerbatimUnc,
    /// `\\?\C:`
    VerbatimDisk,
    /// `\\.\device`
    DeviceNs,
    /// `\\server\share`
    Unc,
    /// `C:`
    Disk,
}

impl PrefixKind {
    /// Whether the rest of the path is taken literally.
    pub open spec fn spec_is_verbatim(self) -> bool {
        self is Verbatim || self is VerbatimUnc || self is VerbatimDisk
    }

    /// Whether the rest of the path is taken literally.
    #[verifier::when_used_as_spec(spec_is_verbatim)]
    pub fn is_verbatim(self) -> (r: bool)
        ensures
            r == self.is_verbatim(),
    {
        match self {
            PrefixKind::Verbatim | PrefixKind::VerbatimUnc | PrefixKind::VerbatimDisk => true,
            PrefixKind::DeviceNs | PrefixKind::Unc | PrefixKind::Disk => false,
        }
    }
}

/// The slash separates the pieces of a path; on Windows the backslash does too.
pub open spec fn is_separator(on: Platform, c: char) -> bool {
    c == '/' || (on is Windows && c == '\\')
}

/// After a verbatim prefix only the backslash separates pieces.
pub open spec fn separates(on: Platform, c: char, verbatim: bool) -> bool {
    match on {
        Platform::Windows => c == '\\' || (!verbatim && c == '/'),
        Platform::Unix => c == '/',
    }
}

/// The separator that is written.
pub open spec fn main_separator(on: Platform) -> char {
    match on {
        Platform::Windows => '\\',
        Platform::Unix => '/',
    }
}

pub open spec fn is_drive_letter(c: char) -> bool {
    ('a' <= c && c <= 'z') || ('A' <= c && c <= 'Z')
}

/// The position of the first separator at or after `from`, or the length of
/// the path where there is none.
pub open spec fn next_separator(on: Platform, p: Seq<char>, from: int, verbatim: bool) -> int
    decreases p.len() - from,
{
    if from >= p.len() {
        p.len() as int
    } else if separates(on, p[from], verbatim) {
        from
    } else {
        next_separator(on, p, from + 1, verbatim)
    }
}

/// Whether a drive such as `C:` stands at position `at`.
pub open spec fn drive_at(p: Seq<char>, at: int) -> bool {
    &&& at + 2 <= p.len()
    &&& is_drive_letter(p[at])
    &&& p[at + 1] == ':'
}

/// Whether the path starts with two separators.
pub open spec fn starts_double(p: Seq<char>) -> bool {
    p.len() >= 2 && is_separator(Platform::Windows, p[0]) && is_separator(
        Platform::Windows,
        p[1],
    )
}

/// Whether the path starts with `\\?\`, written with backslashes only.
pub open spec fn starts_verbatim(p: Seq<char>) -> bool {
    p.len() >= 4 && p[0] == '\\' && p[1] == '\\' && p[2] == '?' && p[3] == '\\'
}

/// Whether a path that starts with `\\?\` continues with `UNC\`.
pub open spec fn starts_verbatim_unc(p: Seq<char>) -> bool {
    p.len() >= 8 && p[4] == 'U' && p[5] == 'N' && p[6] == 'C' && is_separator(
        Platform::Windows,
        p[7],
    )
}

/// Whether the path starts with `\\.\`.
pub open spec fn starts_device(p: Seq<char>) -> bool {
    starts_double(p) && p.len() >= 4 && p[2] == '.' && is_separator(Platform::Windows, p[3])
}

/// The prefix of a path: its kind and its length.
pub open spec fn prefix(on: Platform, p: Seq<char>) -> Option<(PrefixKind, int)> {
    if on is Unix {
        None
    } else if starts_verbatim(p) {
        if starts_verbatim_unc(p) {
            let server_end = next_separator(on, p, 8, true);
            let share_end = next_separator(on, p, server_end + 1, true);
            if share_end > server_end + 1 {
                Some((PrefixKind::VerbatimUnc, share_end))
            } else {
                Some((PrefixKind::VerbatimUnc, server_end))
            }
        } else if drive_at(p, 4) && (p.len() == 6 || is_separator(on, p[6])) {
            Some((PrefixKind::VerbatimDisk, 6))
        } else {
            Some((PrefixKind::Verbatim, next_separator(on, p, 4, true)))
        }
    } else if starts_device(p) {
        Some((PrefixKind::DeviceNs, next_separator(on, p, 4, false)))
    } else if starts_double(p) {
        let server_end = next_separator(on, p, 2, false);
        let share_end = next_separator(on, p, server_end + 1, false);
        if server_end > 2 && share_end > server_end + 1 {
            Some((PrefixKind::Unc, share_end))
        } else {
            None
        }
    } else if drive_at(p, 0) {
        Some((PrefixKind::Disk, 2))
    } else {
        None
    }
}

/// The length of the prefix; zero where there is none.
pub open spec fn prefix_len(on: Platform, p: Seq<char>) -> int {
    match prefix(on, p) {
        Some((_, len)) => len,
        None => 0,
    }
}

/// Whether the path has a verbatim prefix.
pub open spec fn is_verbatim(on: Platform, p: Seq<char>) -> bool {
    prefix(on, p) matches Some((kind, _)) && kind.is_verbatim()
}

/// Whether a separator follows the prefix directly.
pub open spec fn has_physical_root(on: Platform, p: Seq<char>) -> bool {
    prefix_len(on, p) < p.len() && is_separator(on, p[prefix_len(on, p)])
}

/// Whether the path is rooted. Every prefix but a drive implies a root.
pub open spec fn has_root(on: Platform, p: Seq<char>) -> bool {
    has_physical_root(on, p) || (prefix(on, p) matches Some((kind, _)) && kind != PrefixKind::Disk)
}

/// Whether the part after the prefix is not rooted and starts with a lone dot.
pub open spec fn has_leading_dot(on: Platform, p: Seq<char>) -> bool {
    let at = prefix_len(on, p);
    &&& !has_root(on, p)
    &&& at < p.len()
    &&& p[at] == '.'
    &&& (p.len() == at + 1 || is_separator(on, p[at + 1]))
}

/// Where the body starts.
pub open spec fn body_start(on: Platform, p: Seq<char>) -> int {
    prefix_len(on, p) + (if has_physical_root(on, p) {
        1int
    } else {
        0
    }) + (if has_leading_dot(on, p) {
        1int
    } else {
        0
    })
}

pub open spec fn is_dot(piece: Seq<char>) -> bool {
    piece.len() == 1 && piece[0] == '.'
}

pub open spec fn is_dot_dot(piece: Seq<char>) -> bool {
    piece.len() == 2 && piece[0] == '.' && piece[1] == '.'
}

/// Whether a piece of the body counts: it is not empty, and a lone dot counts
/// only after a verbatim prefix.
pub open spec fn counts(piece: Seq<char>, verbatim: bool) -> bool {
    piece.len() > 0 && (verbatim || !is_dot(piece))
}

/// The pieces that count from position `from` on, each as its start and end.
pub open spec fn spans_from(
    on: Platform,
    p: Seq<char>,
    from: int,
    verbatim: bool,
) -> Seq<(int, int)>
    decreases p.len() - from,
{
    if from >= p.len() {
        Seq::empty()
    } else {
        let end = next_separator(on, p, from, verbatim);
        let rest = if from <= end < p.len() {
            spans_from(on, p, end + 1, verbatim)
        } else {
            Seq::empty()
        };
        if counts(p.subrange(from, end), verbatim) {
            seq![(from, end)] + rest
        } else {
            rest
        }
    }
}

/// The pieces of the body.
pub open spec fn spans(on: Platform, p: Seq<char>) -> Seq<(int, int)> {
    spans_from(on, p, body_start(on, p), is_verbatim(on, p))
}

/// A component of a path, over the characters of its text.
pub enum ComponentView {
    Prefix(Seq<char>),
    RootDir,
    CurDir,
    ParentDir,
    Normal(Seq<char>),
}

impl ComponentView {
    /// The text of the component.
    pub open spec fn text(self, on: Platform) -> Seq<char> {
        match self {
            ComponentView::Prefix(text) => text,
            ComponentView::RootDir => seq![main_separator(on)],
            ComponentView::CurDir => seq!['.'],
            ComponentView::ParentDir => seq!['.', '.'],
            ComponentView::Normal(text) => text,
        }
    }
}

/// What a piece of the body stands for.
pub open spec fn piece_component(piece: Seq<char>) -> ComponentView {
    if is_dot(piece) {
        ComponentView::CurDir
    } else if is_dot_dot(piece) {
        ComponentView::ParentDir
    } else {
        ComponentView::Normal(piece)
    }
}

/// The components of the pieces of `p` from position `from` on.
pub open spec fn body_components(
    on: Platform,
    p: Seq<char>,
    from: int,
    verbatim: bool,
) -> Seq<ComponentView> {
    spans_from(on, p, from, verbatim).map_values(
        |span: (int, int)| piece_component(p.subrange(span.0, span.1)),
    )
}

/// Whether the root is a component of its own. A verbatim prefix or a drive
/// has one only where a separator follows.
pub open spec fn shows_root(on: Platform, p: Seq<char>) -> bool {
    has_physical_root(on, p) || (prefix(on, p) matches Some((kind, _)) && (kind == PrefixKind::Unc || kind
        == PrefixKind::DeviceNs))
}

/// The components in front of the body.
pub open spec fn anchor(on: Platform, p: Seq<char>) -> Seq<ComponentView> {
    (if prefix(on, p) is Some {
        seq![ComponentView::Prefix(p.take(prefix_len(on, p)))]
    } else {
        seq![]
    }) + (if shows_root(on, p) {
        seq![ComponentView::RootDir]
    } else {
        seq![]
    }) + (if prefix(on, p) is None && has_leading_dot(on, p) {
        seq![ComponentView::CurDir]
    } else {
        seq![]
    })
}

/// The components of a path.
pub open spec fn components_of(on: Platform, p: Seq<char>) -> Seq<ComponentView> {
    anchor(on, p) + body_components(on, p, body_start(on, p), is_verbatim(on, p))
}

/// The positions that the parts of a path take stay within the path.
pub proof fn lemma_next_separator(on: Platform, p: Seq<char>, from: int, verbatim: bool)
    requires
        0 <= from,
    ensures
        from <= p.len() ==> from <= next_separator(on, p, from, verbatim) <= p.len(),
        from > p.len() ==> next_separator(on, p, from, verbatim) == p.len(),
        forall|k: int|
            from <= k < next_separator(on, p, from, verbatim) ==> !separates(on, #[trigger] p[k], verbatim),
        next_separator(on, p, from, verbatim) < p.len() ==> separates(
            on,
            p[next_separator(on, p, from, verbatim)],
            verbatim,
        ),
    decreases p.len() - from,
{
    if from < p.len() && !separates(on, p[from], verbatim) {
        lemma_next_separator(on, p, from + 1, verbatim);
    }
}

pub proof fn lemma_body_start(on: Platform, p: Seq<char>)
    ensures
        0 <= prefix_len(on, p) <= body_start(on, p) <= p.len(),
{
    if starts_verbatim(p) {
        lemma_next_separator(on, p, 4, true);
        if starts_verbatim_unc(p) {
            lemma_next_separator(on, p, 8, true);
            lemma_next_separator(on, p, next_separator(on, p, 8, true) + 1, true);
        }
    } else if starts_device(p) {
        lemma_next_separator(on, p, 4, false);
    } else if starts_double(p) {
        lemma_next_separator(on, p, 2, false);
        lemma_next_separator(on, p, next_separator(on, p, 2, false) + 1, false);
    }
}

/// A component of a path.
#[derive(Debug, PartialEq, Eq)]
pub enum Component {
    /// The prefix, such as `C:`.
    Prefix(String),
    /// The root separator.
    RootDir,
    /// A dot.
    CurDir,
    /// Two dots.
    ParentDir,
    /// A name.
    Normal(String),
}

impl View for Component {
    type V = ComponentView;

    open spec fn view(&self) -> ComponentView {
        match self {
            Component::Prefix(text) => ComponentView::Prefix(text@),
            Component::RootDir => ComponentView::RootDir,
            Component::CurDir => ComponentView::CurDir,
            Component::ParentDir => ComponentView::ParentDir,
            Component::Normal(text) => ComponentView::Normal(text@),
        }
    }
}

/// The contents of a list of components.
pub open spec fn component_views(list: Seq<Component>) -> Seq<ComponentView> {
    list.map_values(|c: Component| c@)
}

fn is_separator_char(on: Platform, c: char) -> (r: bool)
    ensures
        r == is_separator(on, c),
{
    match on {
        Platform::Windows => c == '/' || c == '\\',
        Platform::Unix => c == '/',
    }
}

fn separator_char(on: Platform) -> (r: char)
    ensures
        r == main_separator(on),
{
    match on {
        Platform::Windows => '\\',
        Platform::Unix => '/',
    }
}

fn separates_char(on: Platform, c: char, verbatim: bool) -> (r: bool)
    ensures
        r == separates(on, c, verbatim),
{
    match on {
        Platform::Windows => c == '\\' || (!verbatim && c == '/'),
        Platform::Unix => c == '/',
    }
}

fn find_separator(on: Platform, p: &Vec<char>, from: usize, verbatim: bool) -> (r: usize)
    requires
        from <= p@.len(),
    ensures
        r == next_separator(on, p@, from as int, verbatim),
        from <= r <= p@.len(),
{
    let mut i: usize = from;
    while i < p.len() && !separates_char(on, p[i], verbatim)
        invariant
            from <= i <= p@.len(),
            next_separator(on, p@, i as int, verbatim) == next_separator(on, p@, from as int, verbatim),
        decreases p@.len() - i,
    {
        i = i + 1;
    }
    i
}

fn is_drive_at(p: &Vec<char>, at: usize) -> (r: bool)
    requires
        at <= p@.len(),
    ensures
        r == drive_at(p@, at as int),
{
    p.len() - at >= 2 && (('a' <= p[at] && p[at] <= 'z') || ('A' <= p[at] && p[at] <= 'Z')) && p[at
        + 1] == ':'
}

fn is_double(p: &Vec<char>) -> (r: bool)
    ensures
        r == starts_double(p@),
{
    p.len() >= 2 && is_separator_char(Platform::Windows, p[0]) && is_separator_char(
        Platform::Windows,
        p[1],
    )
}

/// Where the server and the share that start at `from` end; the share is left
/// out where it is empty.
fn find_share(
    on: Platform,
    p: &Vec<char>,
    from: usize,
    verbatim: bool,
) -> (r: (usize, Option<usize>))
    requires
        from <= p@.len(),
    ensures
        from <= r.0 <= p@.len(),
        r.0 == next_separator(on, p@, from as int, verbatim),
        r.1 matches Some(end) ==> r.0 + 1 < end <= p@.len() && end == next_separator(
            on,
            p@,
            r.0 + 1,
            verbatim,
        ),
        r.1 is None <==> next_separator(on, p@, r.0 + 1, verbatim) <= r.0 + 1,
{
    let server_end: usize = find_separator(on, p, from, verbatim);
    if server_end == p.len() {
        return (server_end, None);
    }
    let share_end: usize = find_separator(on, p, server_end + 1, verbatim);
    if share_end > server_end + 1 {
        (server_end, Some(share_end))
    } else {
        (server_end, None)
    }
}

/// Finds the prefix of a path.
fn parse_prefix(on: Platform, p: &Vec<char>) -> (r: Option<(PrefixKind, usize)>)
    ensures
        r is Some <==> prefix(on, p@) is Some,
        r matches Some((kind, len)) ==> prefix(on, p@) == Some((kind, len as int)) && len <= p@.len(),
{
    if matches!(on, Platform::Unix) {
        None
    } else if p.len() >= 4 && p[0] == '\\' && p[1] == '\\' && p[2] == '?' && p[3] == '\\' {
        if p.len() >= 8 && p[4] == 'U' && p[5] == 'N' && p[6] == 'C' && is_separator_char(on, p[7]) {
            let (server_end, share) = find_share(on, p, 8, true);
            match share {
                Some(share_end) => Some((PrefixKind::VerbatimUnc, share_end)),
                None => Some((PrefixKind::VerbatimUnc, server_end)),
            }
        } else if is_drive_at(p, 4) && (p.len() == 6 || is_separator_char(on, p[6])) {
            Some((PrefixKind::VerbatimDisk, 6))
        } else {
            Some((PrefixKind::Verbatim, find_separator(on, p, 4, true)))
        }
    } else if is_double(p) && p.len() >= 4 && p[2] == '.' && is_separator_char(on, p[3]) {
        Some((PrefixKind::DeviceNs, find_separator(on, p, 4, false)))
    } else if is_double(p) {
        let (server_end, share) = find_share(on, p, 2, false);
        match share {
            Some(share_end) if server_end > 2 => Some((PrefixKind::Unc, share_end)),
            _ => None,
        }
    } else if is_drive_at(p, 0) {
        Some((PrefixKind::Disk, 2))
    } else {
        None
    }
}

/// The parts of a path in front of its body.
struct Layout {
    prefix: Option<(PrefixKind, usize)>,
    prefix_len: usize,
    verbatim: bool,
    physical_root: bool,
    leading_dot: bool,
    body: usize,
}

impl Layout {
    spec fn describes(self, on: Platform, p: Seq<char>) -> bool {
        &&& self.prefix is Some <==> prefix(on, p) is Some
        &&& self.prefix matches Some((kind, len)) ==> prefix(on, p) == Some((kind, len as int))
        &&& self.prefix_len == prefix_len(on, p)
        &&& self.verbatim == is_verbatim(on, p)
        &&& self.physical_root == has_physical_root(on, p)
        &&& self.leading_dot == has_leading_dot(on, p)
        &&& self.body == body_start(on, p)
        &&& self.prefix_len <= self.body <= p.len()
    }

    fn of(on: Platform, p: &Vec<char>) -> (r: Layout)
        ensures
            r.describes(on, p@),
    {
        let prefix = parse_prefix(on, p);
        let mut at: usize = 0;
        let mut verbatim = false;
        let mut implied_root = false;
        if let Some((kind, len)) = prefix {
            at = len;
            verbatim = kind.is_verbatim();
            implied_root = kind != PrefixKind::Disk;
        }
        let physical_root = at < p.len() && is_separator_char(on, p[at]);
        let leading_dot = !physical_root && !implied_root && at < p.len() && p[at] == '.' && (p.len()
            == at + 1 || is_separator_char(on, p[at + 1]));
        let body: usize = if physical_root || leading_dot {
            at + 1
        } else {
            at
        };
        Layout { prefix, prefix_len: at, verbatim, physical_root, leading_dot, body }
    }
}

spec fn span_views(list: Seq<(usize, usize)>) -> Seq<(int, int)> {
    list.map_values(|s: (usize, usize)| (s.0 as int, s.1 as int))
}

/// Finds the pieces of the body that count.
fn find_spans(on: Platform, p: &Vec<char>, body: usize, verbatim: bool) -> (r: Vec<(usize, usize)>)
    requires
        body <= p@.len(),
    ensures
        span_views(r@) == spans_from(on, p@, body as int, verbatim),
        forall|k: int| 0 <= k < r@.len() ==> body <= (#[trigger] r@[k]).0 < r@[k].1 <= p@.len(),
{
    let mut out: Vec<(usize, usize)> = Vec::new();
    let mut from: usize = body;
    assert(span_views(out@) + spans_from(on, p@, from as int, verbatim) == spans_from(
        on,
        p@,
        body as int,
        verbatim,
    ));
    while from < p.len()
        invariant
            body <= from <= p@.len(),
            span_views(out@) + spans_from(on, p@, from as int, verbatim) == spans_from(
                on,
                p@,
                body as int,
                verbatim,
            ),
            forall|k: int|
                0 <= k < out@.len() ==> body <= (#[trigger] out@[k]).0 < out@[k].1 <= p@.len(),
        decreases p@.len() - from,
    {
        let end: usize = find_separator(on, p, from, verbatim);
        let ghost before = out@;
        if end > from && (verbatim || !(end - from == 1 && p[from] == '.')) {
            out.push((from, end));
            assert(span_views(out@) == span_views(before) + seq![(from as int, end as int)]);
        }
        if end == p.len() {
            assert(spans_from(on, p@, end as int, verbatim) == Seq::<(int, int)>::empty());
            from = end;
        } else {
            from = end + 1;
        }
    }
    assert(span_views(out@) + Seq::<(int, int)>::empty() == span_views(out@));
    out
}

/// The component that the piece from `from` to `to` stands for.
fn piece_at(p: &Vec<char>, from: usize, to: usize) -> (r: Component)
    requires
        from <= to <= p@.len(),
    ensures
        r@ == piece_component(p@.subrange(from as int, to as int)),
{
    if to - from == 1 && p[from] == '.' {
        Component::CurDir
    } else if to - from == 2 && p[from] == '.' && p[from + 1] == '.' {
        Component::ParentDir
    } else {
        Component::Normal(from_chars(p, from, to))
    }
}

/// Cuts a path into its components.
pub fn components(on: Platform, path: &str) -> (r: Vec<Component>)
    ensures
        component_views(r@) == components_of(on, path@),
{
    let p = to_chars(path);
    let layout = Layout::of(on, &p);
    let mut out: Vec<Component> = Vec::new();
    let mut shows_root = layout.physical_root;
    if let Some((kind, len)) = layout.prefix {
        out.push(Component::Prefix(from_chars(&p, 0, len)));
        if kind == PrefixKind::Unc || kind == PrefixKind::DeviceNs {
            shows_root = true;
        }
    }
    if shows_root {
        out.push(Component::RootDir);
    }
    if layout.prefix.is_none() && layout.leading_dot {
        out.push(Component::CurDir);
    }
    assert(component_views(out@) =~= anchor(on, path@));
    let found = find_spans(on, &p, layout.body, layout.verbatim);
    let ghost body = body_components(on, path@, body_start(on, path@), is_verbatim(on, path@));
    let mut i: usize = 0;
    while i < found.len()
        invariant
            i <= found@.len(),
            p@ == path@,
            span_views(found@) == spans(on, path@),
            forall|k: int| 0 <= k < found@.len() ==> (#[trigger] found@[k]).0 < found@[k].1 <= p@.len(),
            body == body_components(on, path@, body_start(on, path@), is_verbatim(on, path@)),
            component_views(out@) == anchor(on, path@) + body.take(i as int),
        decreases found@.len() - i,
    {
        let (from, to) = found[i];
        assert(span_views(found@)[i as int] == (from as int, to as int));
        assert(body[i as int] == piece_component(p@.subrange(from as int, to as int)));
        let ghost before = out@;
        out.push(piece_at(&p, from, to));
        assert(component_views(out@) =~= component_views(before).push(body[i as int]));
        assert(body.take(i + 1) =~= body.take(i as int).push(body[i as int]));
        i = i + 1;
    }
    assert(span_views(found@).len() == found@.len());
    assert(body.take(i as int) =~= body);
    out
}

/// The path without its last component. A path that is empty or consists of
/// a prefix and a root alone has none.
pub open spec fn parent_of(on: Platform, p: Seq<char>) -> Option<Seq<char>> {
    let body = spans(on, p);
    if body.len() > 1 {
        Some(p.take(body[body.len() - 2].1))
    } else if body.len() == 1 {
        Some(p.take(body_start(on, p)))
    } else if prefix(on, p) is None && has_leading_dot(on, p) {
        Some(Seq::empty())
    } else {
        None
    }
}

/// Returns the path without its last component.
pub fn parent(on: Platform, path: &str) -> (r: Option<String>)
    ensures
        r is Some <==> parent_of(on, path@) is Some,
        r matches Some(text) ==> parent_of(on, path@) == Some(text@),
{
    let p = to_chars(path);
    let layout = Layout::of(on, &p);
    let found = find_spans(on, &p, layout.body, layout.verbatim);
    let ghost body = spans(on, path@);
    assert(body.len() == found@.len());
    if found.len() > 1 {
        let (_, end) = found[found.len() - 2];
        assert(body[found@.len() - 2] == span_views(found@)[found@.len() - 2]);
        Some(from_chars(&p, 0, end))
    } else if found.len() == 1 {
        Some(from_chars(&p, 0, layout.body))
    } else if layout.prefix.is_none() && layout.leading_dot {
        Some(String::new())
    } else {
        None
    }
}

/// The name at the end of a path, where the last component is a name.
pub open spec fn file_name_of(on: Platform, p: Seq<char>) -> Option<Seq<char>> {
    let all = components_of(on, p);
    if all.len() > 0 {
        match all.last() {
            ComponentView::Normal(name) => Some(name),
            _ => None,
        }
    } else {
        None
    }
}

/// Returns the name at the end of a path.
pub fn file_name(on: Platform, path: &str) -> (r: Option<String>)
    ensures
        r is Some <==> file_name_of(on, path@) is Some,
        r matches Some(name) ==> file_name_of(on, path@) == Some(name@),
{
    let mut all = components(on, path);
    let ghost views = component_views(all@);
    assert(views.len() == all@.len());
    match all.pop() {
        Some(Component::Normal(name)) => {
            assert(views.last() == ComponentView::Normal(name@));
            Some(name)
        },
        Some(other) => {
            assert(views.last() == other@);
            None
        },
        None => None,
    }
}

/// A path is safe below any directory where it has no prefix, no root and no
/// step to a parent.
pub open spec fn is_safe(on: Platform, p: Seq<char>) -> bool {
    forall|i: int|
        #![trigger components_of(on, p)[i]]
        0 <= i < components_of(on, p).len() ==> !(components_of(on, p)[i] is Prefix || components_of(
            on,
            p,
        )[i] is RootDir || components_of(on, p)[i] is ParentDir)
}

/// Whether a path has no prefix, no root and no step to a parent.
pub fn is_safe_relative(on: Platform, path: &str) -> (r: bool)
    ensures
        r == is_safe(on, path@),
{
    let all = components(on, path);
    let ghost views = components_of(on, path@);
    assert(views.len() == all@.len());
    let mut i: usize = 0;
    while i < all.len()
        invariant
            i <= all@.len(),
            views == components_of(on, path@),
            component_views(all@) == views,
            views.len() == all@.len(),
            forall|k: int|
                0 <= k < i ==> !(views[k] is Prefix || views[k] is RootDir || views[k] is ParentDir),
        decreases all@.len() - i,
    {
        assert(views[i as int] == all@[i as int]@);
        match &all[i] {
            Component::Prefix(_) | Component::RootDir | Component::ParentDir => {
                return false;
            },
            Component::CurDir | Component::Normal(_) => {},
        }
        i = i + 1;
    }
    true
}

/// One step below a verbatim path: the steps of `.` and `..` are taken at once.
pub open spec fn resolve_step(stack: Seq<ComponentView>, next: ComponentView) -> Seq<
    ComponentView,
> {
    match next {
        ComponentView::RootDir => (if stack.len() > 1 {
            stack.take(1)
        } else {
            stack
        }).push(next),
        ComponentView::CurDir => stack,
        ComponentView::ParentDir => if stack.len() > 0 && stack.last() is Normal {
            stack.drop_last()
        } else {
            stack
        },
        _ => stack.push(next),
    }
}

/// The components that result from taking `steps` from `stack`.
pub open spec fn resolve(stack: Seq<ComponentView>, steps: Seq<ComponentView>) -> Seq<
    ComponentView,
>
    decreases steps.len(),
{
    if steps.len() == 0 {
        stack
    } else {
        resolve_step(resolve(stack, steps.drop_last()), steps.last())
    }
}

/// The text of a list of components that starts with a verbatim prefix.
pub open spec fn render(list: Seq<ComponentView>) -> Seq<char>
    decreases list.len(),
{
    if list.len() == 0 {
        Seq::empty()
    } else {
        let front = list.drop_last();
        let separated = front.len() > 0 && !(front.last() is RootDir) && !(list.last() is RootDir);
        render(front) + (if separated {
            seq!['\\']
        } else {
            Seq::empty()
        }) + list.last().text(Platform::Windows)
    }
}

/// The separator that a relative path needs behind `base`. A lone drive takes
/// none.
pub open spec fn join_separator(on: Platform, base: Seq<char>) -> Seq<char> {
    let lone_drive = prefix(on, base) == Some((PrefixKind::Disk, base.len() as int));
    if base.len() > 0 && !is_separator(on, base.last()) && !lone_drive {
        seq![main_separator(on)]
    } else {
        Seq::empty()
    }
}

/// The text behind `base`, with a separator between them where one is needed.
pub open spec fn appended(on: Platform, base: Seq<char>, text: Seq<char>) -> Seq<char> {
    base + join_separator(on, base) + text
}

/// A name behind a path, with a separator between them where one is needed.
/// Behind a verbatim prefix a slash belongs to the name it stands in.
pub open spec fn with_name(on: Platform, base: Seq<char>, name: Seq<char>) -> Seq<char> {
    let lone_drive = prefix(on, base) == Some((PrefixKind::Disk, base.len() as int));
    if base.len() > 0 && !separates(on, base.last(), is_verbatim(on, base)) && !lone_drive {
        base + seq![main_separator(on)] + name
    } else {
        base + name
    }
}

/// The path that `path` means when it is looked up in `base`. A path with a
/// prefix replaces the base, a rooted one keeps only the base's prefix.
pub open spec fn join_of(on: Platform, base: Seq<char>, path: Seq<char>) -> Seq<char> {
    if prefix(on, path) is Some {
        path
    } else if is_verbatim(on, base) && path.len() > 0 {
        render(resolve(components_of(on, base), components_of(on, path)))
    } else if has_physical_root(on, path) {
        base.take(prefix_len(on, base)) + path
    } else {
        appended(on, base, path)
    }
}

/// Appends the text of a component.
fn push_text(out: &mut String, component: &Component)
    ensures
        final(out)@ == old(out)@ + component@.text(Platform::Windows),
{
    match component {
        Component::Prefix(text) => {
            out.append(text.as_str());
        },
        Component::RootDir => {
            out.push('\\');
        },
        Component::CurDir => {
            out.push('.');
        },
        Component::ParentDir => {
            out.push('.');
            out.push('.');
        },
        Component::Normal(text) => {
            out.append(text.as_str());
        },
    }
    assert(out@ =~= old(out)@ + component@.text(Platform::Windows));
}

/// Writes out a list of components.
fn render_components(list: &Vec<Component>) -> (r: String)
    ensures
        r@ == render(component_views(list@)),
{
    let mut out = String::new();
    let ghost views = component_views(list@);
    let mut i: usize = 0;
    while i < list.len()
        invariant
            i <= list@.len(),
            views == component_views(list@),
            out@ == render(views.take(i as int)),
        decreases list@.len() - i,
    {
        let ghost shown = views.take(i + 1);
        assert(shown.drop_last() =~= views.take(i as int));
        assert(shown.last() == list@[i as int]@);
        let is_root = matches!(list[i], Component::RootDir);
        if i > 0 {
            assert(views.take(i as int).last() == list@[i - 1]@);
            let after_root = matches!(list[i - 1], Component::RootDir);
            if !is_root && !after_root {
                out.push('\\');
            }
        }
        push_text(&mut out, &list[i]);
        assert(out@ =~= render(shown));
        i = i + 1;
    }
    assert(views.take(i as int) =~= views);
    out
}

/// Takes the steps of a relative path from a list of components.
fn resolve_components(base: Vec<Component>, steps: &Vec<Component>) -> (r: Vec<Component>)
    ensures
        component_views(r@) == resolve(component_views(base@), component_views(steps@)),
{
    let mut stack = base;
    let ghost all = component_views(steps@);
    let ghost start = component_views(base@);
    let mut i: usize = 0;
    while i < steps.len()
        invariant
            i <= steps@.len(),
            all == component_views(steps@),
            component_views(stack@) == resolve(start, all.take(i as int)),
        decreases steps@.len() - i,
    {
        let ghost before = stack@;
        assert(all.take(i + 1).drop_last() =~= all.take(i as int));
        assert(all.take(i + 1).last() == steps@[i as int]@);
        match &steps[i] {
            Component::RootDir => {
                stack.truncate(1);
                stack.push(Component::RootDir);
            },
            Component::CurDir => {},
            Component::ParentDir => {
                let len: usize = stack.len();
                if len > 0 {
                    assert(component_views(before).last() == before.last()@);
                    if matches!(stack[len - 1], Component::Normal(_)) {
                        stack.pop();
                    }
                }
            },
            Component::Prefix(text) => {
                stack.push(Component::Prefix(text.clone()));
            },
            Component::Normal(text) => {
                stack.push(Component::Normal(text.clone()));
            },
        }
        assert(component_views(stack@) =~= resolve_step(
            component_views(before),
            steps@[i as int]@,
        ));
        i = i + 1;
    }
    assert(all.take(i as int) =~= all);
    stack
}

/// Puts a text behind a path, with a separator where one is needed.
fn append(on: Platform, base: &str, text: &str) -> (r: String)
    ensures
        r@ == appended(on, base@, text@),
{
    let b = to_chars(base);
    let lone_drive = match parse_prefix(on, &b) {
        Some((kind, len)) => kind == PrefixKind::Disk && len == b.len(),
        None => false,
    };
    let mut out = base.to_owned();
    if b.len() > 0 && !is_separator_char(on, b[b.len() - 1]) && !lone_drive {
        out.push(separator_char(on));
    }
    assert(out@ =~= base@ + join_separator(on, base@));
    out.append(text);
    out
}

/// Puts a name behind a path, with a separator where one is needed.
fn append_name(on: Platform, base: &str, name: &str) -> (r: String)
    ensures
        r@ == with_name(on, base@, name@),
{
    let b = to_chars(base);
    let prefix = parse_prefix(on, &b);
    let mut lone_drive = false;
    let mut verbatim = false;
    if let Some((kind, len)) = prefix {
        lone_drive = kind == PrefixKind::Disk && len == b.len();
        verbatim = kind.is_verbatim();
    }
    let mut out = base.to_owned();
    if b.len() > 0 && !separates_char(on, b[b.len() - 1], verbatim) && !lone_drive {
        out.push(separator_char(on));
        assert(out@ =~= base@ + seq![main_separator(on)]);
    }
    out.append(name);
    out
}

/// Looks up `path` in `base`.
pub fn join(on: Platform, base: &str, path: &str) -> (r: String)
    ensures
        r@ == join_of(on, base@, path@),
{
    let p = to_chars(path);
    let b = to_chars(base);
    let inner = Layout::of(on, &p);
    let outer = Layout::of(on, &b);
    if inner.prefix.is_some() {
        path.to_owned()
    } else if outer.verbatim && p.len() > 0 {
        let all = resolve_components(components(on, base), &components(on, path));
        render_components(&all)
    } else if inner.physical_root {
        let mut out = from_chars(&b, 0, outer.prefix_len);
        out.append(path);
        assert(b@.subrange(0, outer.prefix_len as int) =~= base@.take(prefix_len(on, base@)));
        out
    } else {
        append(on, base, path)
    }
}

/// One step of a lexical walk: a name is put behind the path so far, and a step
/// to the parent drops the last component where there is one.
pub open spec fn walk_step(on: Platform, path: Seq<char>, next: ComponentView) -> Seq<char> {
    match next {
        ComponentView::Prefix(text) => text,
        ComponentView::RootDir => join_of(on, path, seq![main_separator(on)]),
        ComponentView::CurDir => path,
        ComponentView::ParentDir => match parent_of(on, path) {
            Some(parent) => parent,
            None => path,
        },
        ComponentView::Normal(name) => with_name(on, path, name),
    }
}

/// The path that a lexical walk over components ends at.
pub open spec fn walk(on: Platform, steps: Seq<ComponentView>) -> Seq<char>
    decreases steps.len(),
{
    if steps.len() == 0 {
        Seq::empty()
    } else {
        walk_step(on, walk(on, steps.drop_last()), steps.last())
    }
}

/// The path without steps to `.` and `..`, written with one kind of separator.
pub open spec fn normal_form(on: Platform, p: Seq<char>) -> Seq<char> {
    walk(on, components_of(on, p))
}

/// Removes the steps to `.` and `..` from a path, without asking the file
/// system what they mean.
pub fn normalize_path(on: Platform, path: &str) -> (r: String)
    ensures
        r@ == normal_form(on, path@),
{
    let steps = components(on, path);
    let ghost all = components_of(on, path@);
    assert(all.len() == steps@.len());
    let mut out = String::new();
    let mut i: usize = 0;
    while i < steps.len()
        invariant
            i <= steps@.len() == all.len(),
            all == component_views(steps@),
            out@ == walk(on, all.take(i as int)),
        decreases steps@.len() - i,
    {
        assert(all.take(i + 1).drop_last() =~= all.take(i as int));
        assert(all.take(i + 1).last() == steps@[i as int]@);
        match &steps[i] {
            Component::Prefix(text) => {
                out = text.clone();
            },
            Component::RootDir => {
                let mut root = String::new();
                root.push(separator_char(on));
                assert(root@ =~= seq![main_separator(on)]);
                out = join(on, out.as_str(), root.as_str());
            },
            Component::CurDir => {},
            Component::ParentDir => {
                if let Some(above) = parent(on, out.as_str()) {
                    out = above;
                }
            },
            Component::Normal(name) => {
                out = append_name(on, out.as_str(), name.as_str());
            },
        }
        i = i + 1;
    }
    assert(all.take(i as int) =~= all);
    out
}

/// Whether a path has neither a prefix nor a root.
pub open spec fn is_unanchored(on: Platform, p: Seq<char>) -> bool {
    prefix(on, p) is None && !has_physical_root(on, p)
}

/// The text of a relative path from its component number `k` on.
pub open spec fn text_from(on: Platform, p: Seq<char>, k: int) -> Seq<char> {
    let body = spans(on, p);
    let end = if body.len() > 0 {
        body.last().1
    } else {
        body_start(on, p)
    };
    let at = k - anchor(on, p).len();
    if k <= 0 {
        p.take(end)
    } else if at < body.len() {
        p.subrange(body[at].0, end)
    } else {
        Seq::empty()
    }
}

/// What remains of a relative path below the directory `dir`; nothing where
/// the components of `dir` do not lead the components of the path.
pub open spec fn below(on: Platform, p: Seq<char>, dir: Seq<char>) -> Option<Seq<char>> {
    if components_of(on, dir).is_prefix_of(components_of(on, p)) {
        Some(text_from(on, p, components_of(on, dir).len() as int))
    } else {
        None
    }
}

/// Compares two components.
fn same_component(a: &Component, b: &Component) -> (r: bool)
    ensures
        r == (a@ == b@),
{
    match (a, b) {
        (Component::Prefix(x), Component::Prefix(y)) => *x == *y,
        (Component::RootDir, Component::RootDir) => true,
        (Component::CurDir, Component::CurDir) => true,
        (Component::ParentDir, Component::ParentDir) => true,
        (Component::Normal(x), Component::Normal(y)) => *x == *y,
        _ => false,
    }
}

/// Whether the components of `dir` lead those of a path.
fn leads(dir: &Vec<Component>, all: &Vec<Component>) -> (r: bool)
    ensures
        r == component_views(dir@).is_prefix_of(component_views(all@)),
{
    if dir.len() > all.len() {
        return false;
    }
    let ghost shown = component_views(all@).subrange(0, dir@.len() as int);
    let mut i: usize = 0;
    while i < dir.len()
        invariant
            i <= dir@.len() <= all@.len(),
            shown == component_views(all@).subrange(0, dir@.len() as int),
            forall|k: int| 0 <= k < i ==> component_views(dir@)[k] == shown[k],
        decreases dir@.len() - i,
    {
        if !same_component(&dir[i], &all[i]) {
            assert(component_views(dir@)[i as int] != shown[i as int]);
            return false;
        }
        i = i + 1;
    }
    assert(component_views(dir@) =~= shown);
    true
}

/// Returns what remains of a relative path below the directory `dir`.
pub fn strip_prefix(on: Platform, path: &str, dir: &str) -> (r: Option<String>)
    requires
        is_unanchored(on, path@),
    ensures
        r is Some <==> below(on, path@, dir@) is Some,
        r matches Some(text) ==> below(on, path@, dir@) == Some(text@),
{
    let lead = components(on, dir);
    let all = components(on, path);
    if !leads(&lead, &all) {
        return None;
    }
    let p = to_chars(path);
    let layout = Layout::of(on, &p);
    let found = find_spans(on, &p, layout.body, layout.verbatim);
    let ghost body = spans(on, path@);
    assert(body.len() == found@.len());
    assert(component_views(lead@).len() == lead@.len());
    let end: usize = if found.len() > 0 {
        assert(body.last() == span_views(found@).last());
        found[found.len() - 1].1
    } else {
        layout.body
    };
    let own: usize = if layout.leading_dot {
        1
    } else {
        0
    };
    assert(own == anchor(on, path@).len());
    if lead.len() == 0 {
        Some(from_chars(&p, 0, end))
    } else if lead.len() - own < found.len() {
        let at: usize = lead.len() - own;
        let start: usize = found[at].0;
        assert(body[at as int] == span_views(found@)[at as int]);
        proof {
            lemma_spans_ordered(on, path@, layout.body as int, layout.verbatim);
        }
        Some(from_chars(&p, start, end))
    } else {
        Some(String::new())
    }
}

/// The pieces of the body follow one another.
pub proof fn lemma_spans_ordered(on: Platform, p: Seq<char>, from: int, verbatim: bool)
    requires
        0 <= from,
    ensures
        forall|i: int|
            0 <= i < spans_from(on, p, from, verbatim).len() ==> from <= (#[trigger] spans_from(
                on,
                p,
                from,
                verbatim,
            )[i]).0 < spans_from(on, p, from, verbatim)[i].1 <= p.len(),
        forall|i: int, j: int|
            0 <= i < j < spans_from(on, p, from, verbatim).len() ==> (#[trigger] spans_from(
                on,
                p,
                from,
                verbatim,
            )[i]).1 < (#[trigger] spans_from(on, p, from, verbatim)[j]).0,
    decreases p.len() - from,
{
    if from < p.len() {
        lemma_next_separator(on, p, from, verbatim);
        let end = next_separator(on, p, from, verbatim);
        let all = spans_from(on, p, from, verbatim);
        let rest = if end < p.len() {
            lemma_spans_ordered(on, p, end + 1, verbatim);
            spans_from(on, p, end + 1, verbatim)
        } else {
            Seq::empty()
        };
        if counts(p.subrange(from, end), verbatim) {
            assert(all =~= seq![(from, end)] + rest);
            assert forall|i: int| 0 <= i < all.len() implies from <= (#[trigger] all[i]).0
                < all[i].1 <= p.len() by {
                if i > 0 {
                    assert(all[i] == rest[i - 1]);
                }
            }
            assert forall|i: int, j: int| 0 <= i < j < all.len() implies (#[trigger] all[i]).1 < (
            #[trigger] all[j]).0 by {
                assert(all[j] == rest[j - 1]);
                if i > 0 {
                    assert(all[i] == rest[i - 1]);
                }
            }
        } else {
            assert(all =~= rest);
        }
    }
}

} // verus!
