//! What holds of paths as a whole.

use crate::internal::path::{
    anchor, appended, below, body_components, body_start, components_of, counts, drive_at,
    file_name_of, has_leading_dot, has_physical_root, is_dot, is_dot_dot, is_safe, is_separator, is_unanchored,
    is_verbatim, join_of, join_separator, lemma_body_start, lemma_next_separator,
    lemma_spans_ordered, main_separator, next_separator, normal_form, parent_of, piece_component, prefix,
    prefix_len, render, resolve, separates, spans, spans_from, starts_device, starts_double,
    starts_verbatim, starts_verbatim_unc, walk, with_name, ComponentView, PrefixKind,
};
use crate::session::Platform;
use vstd::prelude::*;

verus! {

/// The components of an unanchored path, without a leading dot.
pub open spec fn names_of(on: Platform, p: Seq<char>) -> Seq<ComponentView> {
    body_components(on, p, body_start(on, p), false)
}

/// A safe path is not anchored.
pub proof fn lemma_safe_is_unanchored(on: Platform, p: Seq<char>)
    requires
        is_safe(on, p),
    ensures
        is_unanchored(on, p),
{
    if prefix(on, p) is Some {
        assert(components_of(on, p)[0] is Prefix);
    } else if has_physical_root(on, p) {
        assert(components_of(on, p)[0] is RootDir);
    }
}

/// The components of the pieces from `from` on: the first piece, then the rest.
proof fn lemma_body_unfold(on: Platform, p: Seq<char>, from: int, verbatim: bool)
    requires
        0 <= from < p.len(),
    ensures
        ({
            let end = next_separator(on, p, from, verbatim);
            let piece = p.subrange(from, end);
            let rest = if end < p.len() {
                body_components(on, p, end + 1, verbatim)
            } else {
                Seq::empty()
            };
            body_components(on, p, from, verbatim) == if counts(piece, verbatim) {
                seq![piece_component(piece)] + rest
            } else {
                rest
            }
        }),
{
    lemma_next_separator(on, p, from, verbatim);
    let end = next_separator(on, p, from, verbatim);
    let piece = p.subrange(from, end);
    let rest = if end < p.len() {
        body_components(on, p, end + 1, verbatim)
    } else {
        Seq::empty()
    };
    if counts(piece, verbatim) {
        assert(body_components(on, p, from, verbatim) =~= seq![piece_component(piece)] + rest);
    } else {
        assert(body_components(on, p, from, verbatim) =~= rest);
    }
}

proof fn lemma_separator_shift(on: Platform, a: Seq<char>, t: Seq<char>, from: int, verbatim: bool)
    requires
        0 <= from,
    ensures
        next_separator(on, a + t, a.len() + from, verbatim) == a.len() + next_separator(
            on,
            t,
            from,
            verbatim,
        ),
    decreases t.len() - from,
{
    if from < t.len() && !separates(on, t[from], verbatim) {
        lemma_separator_shift(on, a, t, from + 1, verbatim);
    }
}

/// The pieces of a text do not depend on what stands in front of it.
proof fn lemma_body_shift(on: Platform, a: Seq<char>, t: Seq<char>, from: int, verbatim: bool)
    requires
        0 <= from,
    ensures
        body_components(on, a + t, a.len() + from, verbatim) == body_components(on, t, from, verbatim),
    decreases t.len() - from,
{
    let whole = a + t;
    if from < t.len() {
        lemma_separator_shift(on, a, t, from, verbatim);
        lemma_next_separator(on, t, from, verbatim);
        lemma_body_unfold(on, t, from, verbatim);
        lemma_body_unfold(on, whole, a.len() + from, verbatim);
        let end = next_separator(on, t, from, verbatim);
        assert(whole.subrange(a.len() + from, a.len() + end) =~= t.subrange(from, end));
        if end < t.len() {
            lemma_body_shift(on, a, t, end + 1, verbatim);
        }
    } else {
        assert(body_components(on, whole, a.len() + from, verbatim) =~= body_components(
            on,
            t,
            from,
            verbatim,
        ));
    }
}

proof fn lemma_separator_front(on: Platform, a: Seq<char>, t: Seq<char>, from: int, verbatim: bool)
    requires
        0 <= from <= a.len(),
        t.len() > 0,
        separates(on, t[0], verbatim),
    ensures
        next_separator(on, a + t, from, verbatim) == next_separator(on, a, from, verbatim),
    decreases a.len() - from,
{
    if from < a.len() {
        if !separates(on, a[from], verbatim) {
            lemma_separator_front(on, a, t, from + 1, verbatim);
        }
    } else {
        assert((a + t)[from] == t[0]);
    }
}

/// A separator closes the pieces in front of it.
proof fn lemma_body_front(on: Platform, a: Seq<char>, t: Seq<char>, from: int, verbatim: bool)
    requires
        0 <= from <= a.len(),
        t.len() > 0,
        separates(on, t[0], verbatim),
    ensures
        body_components(on, a + t, from, verbatim) == body_components(on, a, from, verbatim)
            + body_components(on, a + t, a.len() as int + 1, verbatim),
    decreases a.len() - from,
{
    let whole = a + t;
    lemma_separator_front(on, a, t, from, verbatim);
    lemma_next_separator(on, a, from, verbatim);
    lemma_body_unfold(on, whole, from, verbatim);
    let end = next_separator(on, a, from, verbatim);
    let rest = body_components(on, whole, a.len() as int + 1, verbatim);
    if from < a.len() {
        lemma_body_unfold(on, a, from, verbatim);
        assert(whole.subrange(from, end) =~= a.subrange(from, end));
        if end < a.len() {
            lemma_body_front(on, a, t, end + 1, verbatim);
        }
        assert(body_components(on, whole, from, verbatim) =~= body_components(on, a, from, verbatim)
            + rest);
    } else {
        assert(body_components(on, a, from, verbatim) =~= Seq::<ComponentView>::empty());
        assert(body_components(on, whole, from, verbatim) =~= rest);
    }
}

/// A leading dot adds no name.
proof fn lemma_leading_dot(on: Platform, p: Seq<char>)
    requires
        is_unanchored(on, p),
    ensures
        body_components(on, p, 0, false) == names_of(on, p),
{
    if has_leading_dot(on, p) {
        lemma_next_separator(on, p, 1, false);
        lemma_body_unfold(on, p, 0, false);
        assert(next_separator(on, p, 0, false) == next_separator(on, p, 1, false));
        assert(p.subrange(0, 1)[0] == '.');
        if p.len() > 1 {
            lemma_body_unfold(on, p, 1, false);
            assert(next_separator(on, p, 1, false) == 1);
        } else {
            assert(body_components(on, p, 1, false) =~= Seq::<ComponentView>::empty());
        }
    }
}

/// A prefix that reaches the end of a text does not end with a separator,
/// except for the empty device name.
proof fn lemma_prefix_end(on: Platform, p: Seq<char>)
    requires
        prefix(on, p) is Some,
        !is_verbatim(on, p),
        prefix_len(on, p) == p.len(),
    ensures
        !is_separator(on, p.last()) || (prefix(on, p) == Some((PrefixKind::DeviceNs, 4int)) && p.len() == 4),
{
    match prefix(on, p) {
        Some((PrefixKind::Disk, _)) => {},
        Some((PrefixKind::DeviceNs, _)) => {
            lemma_next_separator(on, p, 4, false);
            if p.len() > 4 {
                assert(!separates(on, p[p.len() - 1], false));
            }
        },
        _ => {
            let server_end = next_separator(on, p, 2, false);
            lemma_next_separator(on, p, 2, false);
            lemma_next_separator(on, p, server_end + 1, false);
            assert(!separates(on, p[p.len() - 1], false));
        },
    }
}

/// A path without an anchor stays below the directory it is looked up in: the
/// joined path has the components of the directory, followed by those of the
/// path. Where the path is safe, these are names.
///
/// The text of the directory and the path together must not read as another
/// prefix, as `\\server` and `share` do.
#[verifier::rlimit(50)]
pub proof fn join_stays_below(on: Platform, base: Seq<char>, path: Seq<char>)
    requires
        is_unanchored(on, path),
        !is_verbatim(on, base),
        base.len() == 0 ==> !has_leading_dot(on, path),
        prefix(on, join_of(on, base, path)) == prefix(on, base),
    ensures
        components_of(on, join_of(on, base, path)) == components_of(on, base) + names_of(on, path),
{
    lemma_leading_dot(on, path);
    lemma_body_start(on, base);
    lemma_body_start(on, path);
    let whole = join_of(on, base, path);
    let len = base.len() as int;
    let at = prefix_len(on, base);
    let start = body_start(on, base);
    assert(whole == base + join_separator(on, base) + path);
    if base.len() == 0 {
        assert(whole =~= path);
        assert(components_of(on, base) =~= Seq::<ComponentView>::empty());
        assert(components_of(on, whole) =~= names_of(on, path));
    } else if join_separator(on, base).len() > 0 {
        let tail = seq![main_separator(on)] + path;
        assert(whole =~= base + tail);
        assert(whole =~= (base + seq![main_separator(on)]) + path);
        lemma_body_shift(on, base + seq![main_separator(on)], path, 0, false);
        assert(whole.take(at) =~= base.take(at));
        if at < len {
            assert(body_start(on, whole) == start);
            lemma_body_front(on, base, tail, start, false);
        } else {
            assert(body_start(on, whole) == len + 1);
            assert(body_components(on, base, start, false) =~= Seq::<ComponentView>::empty());
        }
        assert(anchor(on, whole) =~= anchor(on, base));
        assert(components_of(on, whole) =~= components_of(on, base) + names_of(on, path));
    } else if path.len() == 0 {
        assert(whole =~= base);
        assert(names_of(on, path) =~= Seq::<ComponentView>::empty());
        assert(components_of(on, whole) =~= components_of(on, base) + names_of(on, path));
    } else {
        assert(whole =~= base + path);
        assert(whole.take(at) =~= base.take(at));
        if prefix(on, base) == Some((PrefixKind::Disk, len)) {
            assert(body_start(on, whole) == len + body_start(on, path));
            lemma_body_shift(on, base, path, body_start(on, path), false);
            assert(body_components(on, base, start, false) =~= Seq::<ComponentView>::empty());
        } else {
            if at == len {
                lemma_prefix_end(on, base);
                lemma_next_separator(on, whole, 4, false);
                assert(whole[4] == path[0]);
                assert(false);
            }
            assert(body_start(on, whole) == start);
            if start == len {
                lemma_body_shift(on, base, path, 0, false);
                assert(body_components(on, base, start, false) =~= Seq::<ComponentView>::empty());
            } else {
                let front = base.drop_last();
                let close = seq![base.last()];
                assert(base =~= front + close);
                assert(whole =~= front + (close + path));
                lemma_body_front(on, front, close + path, start, false);
                lemma_body_front(on, front, close, start, false);
                lemma_body_shift(on, base, path, 0, false);
                assert(body_components(on, base, len, false) =~= Seq::<ComponentView>::empty());
            }
        }
        assert(anchor(on, whole) =~= anchor(on, base));
        assert(components_of(on, whole) =~= components_of(on, base) + names_of(on, path));
    }
}

/// An ordinary directory: it is not empty, not verbatim, and a share or a
/// device is named in full.
pub open spec fn is_ordinary(on: Platform, dir: Seq<char>) -> bool {
    &&& dir.len() > 0
    &&& !is_verbatim(on, dir)
    &&& on is Windows && starts_double(dir) ==> prefix(on, dir) is Some
    &&& prefix(on, dir) matches Some((PrefixKind::DeviceNs, _)) ==> dir.len() > 4
}

/// The prefix of a directory is kept when a path without an anchor is looked
/// up in it: a directory on a drive, without a prefix or on a full share keeps
/// its prefix.
pub proof fn join_keeps_prefix(on: Platform, base: Seq<char>, path: Seq<char>)
    requires
        is_unanchored(on, path),
        is_ordinary(on, base),
    ensures
        prefix(on, join_of(on, base, path)) == prefix(on, base),
{
    lemma_append_prefix(on, base, path);
}

/// The prefix of a directory is kept when a text is put behind it.
proof fn lemma_append_prefix(on: Platform, base: Seq<char>, text: Seq<char>)
    requires
        is_ordinary(on, base),
        text.len() > 0 ==> !is_separator(on, text[0]),
    ensures
        prefix(on, appended(on, base, text)) == prefix(on, base),
{
    let whole = appended(on, base, text);
    assert(whole =~= base + (join_separator(on, base) + text));
    if on is Windows && starts_double(base) {
        if starts_device(base) {
            lemma_next_separator(on, base, 4, false);
            lemma_separator_kept(on, base, text, 4);
        } else {
            let server_end = next_separator(on, base, 2, false);
            lemma_next_separator(on, base, 2, false);
            lemma_next_separator(on, base, server_end + 1, false);
            lemma_separator_kept(on, base, text, 2);
            lemma_separator_kept(on, base, text, server_end + 1);
        }
    }
}

/// The first separator behind `from` is where it was, also after a text was put
/// behind the path.
proof fn lemma_separator_kept(on: Platform, base: Seq<char>, text: Seq<char>, from: int)
    requires
        on is Windows,
        0 <= from < base.len(),
        starts_double(base),
    ensures
        next_separator(on, appended(on, base, text), from, false) == next_separator(on, base, from, false),
    decreases base.len() - from,
{
    let whole = appended(on, base, text);
    assert(whole =~= base + (join_separator(on, base) + text));
    if !separates(on, base[from], false) {
        if from + 1 < base.len() {
            lemma_separator_kept(on, base, text, from + 1);
        } else {
            assert(join_separator(on, base) == seq!['\\']);
            assert(whole[base.len() as int] == '\\');
            assert(next_separator(on, whole, from + 1, false) == from + 1);
            assert(next_separator(on, base, from + 1, false) == from + 1);
        }
    }
}

/// The components that a text of one piece stands for.
proof fn lemma_single_piece(on: Platform, piece: Seq<char>)
    requires
        piece.len() > 0,
        forall|k: int| 0 <= k < piece.len() ==> piece[k] != main_separator(on),
    ensures
        body_components(on, piece, 0, true) == seq![piece_component(piece)],
{
    lemma_next_separator(on, piece, 0, true);
    lemma_body_unfold(on, piece, 0, true);
    assert(piece.subrange(0, piece.len() as int) =~= piece);
}

/// A component of the body of a verbatim path: its text reads as itself.
spec fn is_piece(on: Platform, c: ComponentView) -> bool {
    &&& c.text(on).len() > 0
    &&& forall|k: int| 0 <= k < c.text(on).len() ==> c.text(on)[k] != main_separator(on)
    &&& piece_component(c.text(on)) == c
}

proof fn lemma_body_pieces(on: Platform, p: Seq<char>, from: int, verbatim: bool)
    requires
        0 <= from,
    ensures
        forall|i: int|
            0 <= i < body_components(on, p, from, verbatim).len() ==> is_piece(
                on,
                #[trigger] body_components(on, p, from, verbatim)[i],
            ),
        !verbatim ==> forall|i: int|
            0 <= i < body_components(on, p, from, verbatim).len() ==> !((
            #[trigger] body_components(on, p, from, verbatim)[i]) is CurDir),
    decreases p.len() - from,
{
    if from < p.len() {
        lemma_next_separator(on, p, from, verbatim);
        lemma_body_unfold(on, p, from, verbatim);
        let all = body_components(on, p, from, verbatim);
        let end = next_separator(on, p, from, verbatim);
        let piece = p.subrange(from, end);
        let rest = if end < p.len() {
            lemma_body_pieces(on, p, end + 1, verbatim);
            body_components(on, p, end + 1, verbatim)
        } else {
            Seq::empty()
        };
        if counts(piece, verbatim) {
            assert(piece_component(piece).text(on) =~= piece);
            assert(is_piece(on, piece_component(piece)));
            assert forall|i: int| 0 <= i < all.len() implies is_piece(on, #[trigger] all[i]) && (
            !verbatim ==> !(all[i] is CurDir)) by {
                if i > 0 {
                    assert(all[i] == rest[i - 1]);
                }
            }
        }
    }
}

/// Names are added at the end, and dots are left out.
proof fn lemma_resolve_names(stack: Seq<ComponentView>, steps: Seq<ComponentView>)
    requires
        forall|i: int| 0 <= i < steps.len() ==> (#[trigger] steps[i]) is Normal,
    ensures
        resolve(stack, steps) == stack + steps,
    decreases steps.len(),
{
    if steps.len() == 0 {
        assert(stack + steps =~= stack);
    } else {
        lemma_resolve_names(stack, steps.drop_last());
        assert(steps.last() is Normal);
        assert(resolve(stack, steps) =~= stack + steps);
    }
}

/// A leading dot is no step.
proof fn lemma_resolve_dot(stack: Seq<ComponentView>, names: Seq<ComponentView>)
    requires
        forall|i: int| 0 <= i < names.len() ==> (#[trigger] names[i]) is Normal,
    ensures
        resolve(stack, seq![ComponentView::CurDir] + names) == stack + names,
    decreases names.len(),
{
    let steps = seq![ComponentView::CurDir] + names;
    if names.len() == 0 {
        assert(steps.drop_last() =~= Seq::<ComponentView>::empty());
        assert(resolve(stack, steps.drop_last()) == stack);
        assert(stack + names =~= stack);
    } else {
        assert(steps.drop_last() =~= seq![ComponentView::CurDir] + names.drop_last());
        lemma_resolve_dot(stack, names.drop_last());
        assert(names.last() is Normal);
        assert(resolve(stack, steps) =~= stack + names);
    }
}

proof fn lemma_render_prefix(on: Platform, front: Seq<char>)
    requires
        on is Windows,
    ensures
        render(seq![ComponentView::Prefix(front)]) == front,
{
    let list = seq![ComponentView::Prefix(front)];
    assert(list.drop_last() =~= Seq::<ComponentView>::empty());
    assert(render(list.drop_last()) =~= Seq::<char>::empty());
    assert(list.last().text(on) == front);
    assert(render(list) =~= front);
}

/// The text of a prefix, a root and pieces reads as these pieces again.
#[verifier::rlimit(50)]
proof fn lemma_render_pieces(
    on: Platform,
    front: Seq<char>,
    rooted: bool,
    pieces: Seq<ComponentView>,
)
    requires
        on is Windows,
        forall|i: int| 0 <= i < pieces.len() ==> is_piece(on, #[trigger] pieces[i]),
    ensures
        ({
            let head = if rooted {
                seq![ComponentView::Prefix(front), ComponentView::RootDir]
            } else {
                seq![ComponentView::Prefix(front)]
            };
            let text = render(head + pieces);
            &&& front.len() <= text.len()
            &&& text.take(front.len() as int) == front
            &&& (rooted || pieces.len() > 0) ==> text.len() > front.len()
                && text[front.len() as int] == '\\'
            &&& !rooted && pieces.len() == 0 ==> text == front
            &&& body_components(on, text, front.len() as int + 1, true) == pieces
        }),
    decreases pieces.len(),
{
    let head = if rooted {
        seq![ComponentView::Prefix(front), ComponentView::RootDir]
    } else {
        seq![ComponentView::Prefix(front)]
    };
    let list = head + pieces;
    let text = render(list);
    if pieces.len() == 0 {
        assert(list =~= head);
        let first = seq![ComponentView::Prefix(front)];
        lemma_render_prefix(on, front);
        if rooted {
            assert(head.drop_last() =~= first);
            assert(text =~= front + seq!['\\']);
        }
        assert(text.take(front.len() as int) =~= front);
        assert(body_components(on, text, front.len() as int + 1, true) =~= pieces);
    } else {
        let shorter = pieces.drop_last();
        let last = pieces.last();
        assert(is_piece(on, last));
        lemma_render_pieces(on, front, rooted, shorter);
        assert(list.drop_last() =~= head + shorter);
        assert(list.last() == last);
        let before = render(head + shorter);
        assert((head + shorter).last() is RootDir <==> rooted && shorter.len() == 0);
        lemma_single_piece(on, last.text(on));
        if rooted && shorter.len() == 0 {
            assert((head + shorter).last() is RootDir);
            assert(text =~= before + last.text(on));
            assert(before.len() == front.len() + 1) by {
                assert(head + shorter =~= head);
                let first = seq![ComponentView::Prefix(front)];
                assert(head.drop_last() =~= first);
                lemma_render_prefix(on, front);
                assert(before =~= front + seq!['\\']);
            }
            lemma_body_shift(on, before, last.text(on), 0, true);
            assert(body_components(on, text, front.len() as int + 1, true) =~= pieces);
        } else {
            assert(text =~= before + seq!['\\'] + last.text(on));
            let tail = seq!['\\'] + last.text(on);
            assert(text =~= before + tail);
            lemma_body_shift(on, before + seq!['\\'], last.text(on), 0, true);
            if before.len() > front.len() {
                lemma_body_front(on, before, tail, front.len() as int + 1, true);
            } else {
                assert(before =~= front);
            }
            assert(body_components(on, text, front.len() as int + 1, true) =~= pieces);
        }
        assert(text.take(front.len() as int) =~= before.take(front.len() as int));
    }
}

/// Whether a verbatim prefix is complete: it has a name, a share is named in
/// full, and nothing behind the prefix can become a part of it.
pub open spec fn is_full_verbatim(on: Platform, dir: Seq<char>) -> bool {
    match prefix(on, dir) {
        Some((PrefixKind::VerbatimDisk, _)) => true,
        Some((PrefixKind::VerbatimUnc, len)) => len > next_separator(on, dir, 8, true),
        Some((PrefixKind::Verbatim, len)) => len > 4 && !(len == 7 && dir[4] == 'U' && dir[5] == 'N'
            && dir[6] == 'C'),
        _ => false,
    }
}

/// A directory that paths can be looked up in without changing its prefix.
pub open spec fn is_regular(on: Platform, dir: Seq<char>) -> bool {
    is_ordinary(on, dir) || is_full_verbatim(on, dir)
}

/// Whether looking up a path adds a root: a bare verbatim prefix gains one.
pub open spec fn gains_root(on: Platform, dir: Seq<char>, path: Seq<char>) -> bool {
    &&& is_verbatim(on, dir)
    &&& !has_physical_root(on, dir)
    &&& names_of(on, path).len() > 0 || (path.len() == 0 && join_separator(on, dir).len() > 0)
}

/// The components of a directory, followed by the names of a path.
pub open spec fn extended(on: Platform, dir: Seq<char>, path: Seq<char>) -> Seq<ComponentView> {
    components_of(on, dir) + (if gains_root(on, dir, path) {
        seq![ComponentView::RootDir]
    } else {
        seq![]
    }) + names_of(on, path)
}

/// A separator is found where it was in a text that agrees up to it.
proof fn lemma_separator_agrees(on: Platform, p: Seq<char>, q: Seq<char>, n: int, from: int)
    requires
        0 <= from <= n <= p.len(),
        n <= q.len(),
        p.take(n) == q.take(n),
        q.len() == n || separates(on, q[n], true),
        next_separator(on, p, from, true) <= n,
    ensures
        next_separator(on, q, from, true) == next_separator(on, p, from, true),
    decreases n - from,
{
    lemma_next_separator(on, p, from, true);
    if from < n {
        assert(p.take(n)[from] == p[from]);
        assert(q.take(n)[from] == q[from]);
        if !separates(on, p[from], true) {
            assert(next_separator(on, p, from, true) == next_separator(on, p, from + 1, true));
            lemma_separator_agrees(on, p, q, n, from + 1);
            assert(next_separator(on, q, from, true) == next_separator(on, q, from + 1, true));
        }
    } else {
        assert(next_separator(on, p, from, true) == n);
        assert(next_separator(on, q, from, true) == n);
    }
}

/// A full verbatim prefix is kept by every text that starts with it and goes on
/// with a separator.
#[verifier::rlimit(50)]
proof fn lemma_verbatim_prefix(on: Platform, p: Seq<char>, q: Seq<char>)
    requires
        is_full_verbatim(on, p),
        prefix_len(on, p) <= q.len(),
        p.take(prefix_len(on, p)) == q.take(prefix_len(on, p)),
        q.len() == prefix_len(on, p) || q[prefix_len(on, p)] == '\\',
    ensures
        prefix(on, q) == prefix(on, p),
        is_full_verbatim(on, q),
{
    lemma_body_start(on, p);
    let n = prefix_len(on, p);
    assert forall|k: int| 0 <= k < n implies p[k] == q[k] by {
        assert(p.take(n)[k] == q.take(n)[k]);
    }
    lemma_next_separator(on, p, 4, true);
    if starts_verbatim_unc(p) {
        let server_end = next_separator(on, p, 8, true);
        lemma_next_separator(on, p, 8, true);
        lemma_next_separator(on, p, server_end + 1, true);
        lemma_separator_agrees(on, p, q, n, 8);
        lemma_separator_agrees(on, p, q, n, server_end + 1);
    } else if !(drive_at(p, 4) && (p.len() == 6 || is_separator(on, p[6]))) {
        lemma_separator_agrees(on, p, q, n, 4);
        assert(!starts_verbatim_unc(q)) by {
            if starts_verbatim_unc(q) {
                if n > 7 {
                    assert(p[7] == q[7]);
                    lemma_next_separator(on, q, 4, true);
                } else {
                    lemma_next_separator(on, q, 4, true);
                    assert(!separates(on, q[4], true));
                    assert(next_separator(on, q, 4, true) >= 7) by {
                        reveal_with_fuel(next_separator, 4);
                    }
                }
            }
        }
    }
}

/// The text of a full verbatim directory and further pieces reads as these
/// components again; a bare prefix gains its root.
#[verifier::rlimit(50)]
pub proof fn lemma_verbatim_text(on: Platform, base: Seq<char>, extra: Seq<ComponentView>)
    requires
        is_full_verbatim(on, base),
        forall|i: int|
            0 <= i < extra.len() ==> (#[trigger] extra[i]) is Normal && is_name(
                on,
                extra[i].text(on),
            ),
    ensures
        ({
            let whole = render(components_of(on, base) + extra);
            &&& is_full_verbatim(on, whole)
            &&& prefix(on, whole) == prefix(on, base)
            &&& components_of(on, whole) == components_of(on, base) + (if has_physical_root(
                on,
                base,
            ) || extra.len() == 0 {
                seq![]
            } else {
                seq![ComponentView::RootDir]
            }) + extra
        }),
{
    lemma_body_start(on, base);
    let at = prefix_len(on, base);
    let front = base.take(at);
    let rooted = has_physical_root(on, base);
    let own = body_components(on, base, body_start(on, base), true);
    lemma_body_pieces(on, base, body_start(on, base), true);
    if !rooted {
        lemma_verbatim_bare(on, base);
        assert(own =~= Seq::<ComponentView>::empty());
    }
    let head = if rooted {
        seq![ComponentView::Prefix(front), ComponentView::RootDir]
    } else {
        seq![ComponentView::Prefix(front)]
    };
    let pieces = own + extra;
    assert(components_of(on, base) + extra =~= head + pieces);
    assert forall|i: int| 0 <= i < pieces.len() implies is_piece(on, #[trigger] pieces[i]) by {
        if i < own.len() {
            assert(pieces[i] == own[i]);
        } else {
            let piece = extra[i - own.len()];
            assert(pieces[i] == piece);
            assert forall|k: int| 0 <= k < piece.text(on).len() implies piece.text(on)[k]
                != main_separator(on) by {
                assert(!is_separator(on, piece.text(on)[k]));
            }
        }
    }
    lemma_render_pieces(on, front, rooted, pieces);
    let whole = render(head + pieces);
    assert(front =~= whole.take(at));
    lemma_verbatim_prefix(on, base, whole);
    if rooted || pieces.len() > 0 {
        assert(has_physical_root(on, whole));
        assert(body_start(on, whole) == front.len() + 1);
        assert(components_of(on, whole) =~= seq![
            ComponentView::Prefix(front),
            ComponentView::RootDir,
        ] + pieces);
    } else {
        assert(body_components(on, whole, body_start(on, whole), true) =~= Seq::<
            ComponentView,
        >::empty());
        assert(components_of(on, whole) =~= seq![ComponentView::Prefix(front)]);
    }
    assert(components_of(on, whole) =~= components_of(on, base) + (if rooted || extra.len() == 0 {
        seq![]
    } else {
        seq![ComponentView::RootDir]
    }) + extra);
}

/// A separator behind a full verbatim directory changes no component, except
/// that a bare prefix gains its root.
#[verifier::rlimit(50)]
pub proof fn lemma_verbatim_separator(on: Platform, base: Seq<char>)
    requires
        is_full_verbatim(on, base),
    ensures
        prefix(on, appended(on, base, seq![])) == prefix(on, base),
        components_of(on, appended(on, base, seq![])) == components_of(on, base) + (
        if has_physical_root(on, base) || join_separator(on, base).len() == 0 {
            seq![]
        } else {
            seq![ComponentView::RootDir]
        }),
{
    lemma_body_start(on, base);
    let whole = appended(on, base, seq![]);
    let at = prefix_len(on, base);
    let len = base.len() as int;
    if join_separator(on, base).len() == 0 {
        assert(whole =~= base);
        assert(components_of(on, whole) =~= components_of(on, base) + seq![]);
    } else {
        let tail = seq!['\\'];
        assert(whole =~= base + tail);
        assert(whole.take(at) =~= base.take(at));
        if !has_physical_root(on, base) {
            lemma_verbatim_bare(on, base);
            assert(whole[at] == '\\');
            lemma_verbatim_prefix(on, base, whole);
            assert(body_components(on, whole, body_start(on, whole), true) =~= Seq::<
                ComponentView,
            >::empty());
            assert(body_components(on, base, body_start(on, base), true) =~= Seq::<
                ComponentView,
            >::empty());
            assert(components_of(on, whole) =~= components_of(on, base) + seq![
                ComponentView::RootDir,
            ]);
        } else {
            lemma_prefix_of_longer(on, base, tail);
            lemma_body_front(on, base, tail, body_start(on, base), true);
            assert(body_components(on, whole, len + 1, true) =~= Seq::<ComponentView>::empty());
            assert(anchor(on, whole) =~= anchor(on, base));
            assert(components_of(on, whole) =~= components_of(on, base) + seq![]);
        }
    }
}

/// More text behind a rooted verbatim path keeps its prefix.
#[verifier::rlimit(50)]
proof fn lemma_prefix_of_longer(on: Platform, base: Seq<char>, tail: Seq<char>)
    requires
        is_full_verbatim(on, base),
        has_physical_root(on, base),
    ensures
        prefix(on, base + tail) == prefix(on, base),
        is_full_verbatim(on, base + tail),
{
    lemma_body_start(on, base);
    let whole = base + tail;
    let n = prefix_len(on, base);
    assert(whole.take(n) =~= base.take(n));
    assert(whole[n] == base[n]);
    lemma_next_separator(on, base, 4, true);
    if starts_verbatim_unc(base) {
        let server_end = next_separator(on, base, 8, true);
        lemma_next_separator(on, base, 8, true);
        lemma_next_separator(on, base, server_end + 1, true);
        lemma_verbatim_prefix(on, base, whole);
    } else if drive_at(base, 4) && is_separator(on, base[6]) {
    } else {
        lemma_verbatim_prefix(on, base, whole);
    }
}

/// A safe path stays below the directory it is looked up in: the joined path has
/// the components of the directory, followed by the names of the path. A bare
/// verbatim prefix gains its root.
pub proof fn safe_join_stays_below(on: Platform, base: Seq<char>, path: Seq<char>)
    requires
        is_safe(on, path),
        is_regular(on, base),
    ensures
        components_of(on, join_of(on, base, path)) == extended(on, base, path),
{
    lemma_safe_is_unanchored(on, path);
    let names = names_of(on, path);
    if is_ordinary(on, base) {
        join_keeps_prefix(on, base, path);
        join_stays_below(on, base, path);
        assert(components_of(on, base) + seq![] + names =~= components_of(on, base) + names);
    } else if path.len() == 0 {
        assert(path =~= seq![]);
        lemma_verbatim_separator(on, base);
        assert(names =~= Seq::<ComponentView>::empty());
        assert(components_of(on, join_of(on, base, path)) =~= extended(on, base, path));
    } else {
        lemma_body_start(on, path);
        lemma_safe_names(on, path);
        if has_leading_dot(on, path) {
            assert(components_of(on, path) =~= seq![ComponentView::CurDir] + names);
            lemma_resolve_dot(components_of(on, base), names);
        } else {
            assert(components_of(on, path) =~= names);
            lemma_resolve_names(components_of(on, base), names);
        }
        lemma_verbatim_text(on, base, names);
    }
}

/// The names of a safe path.
pub proof fn lemma_safe_names(on: Platform, path: Seq<char>)
    requires
        is_safe(on, path),
    ensures
        forall|i: int|
            0 <= i < names_of(on, path).len() ==> (#[trigger] names_of(on, path)[i]) is Normal
                && is_name(on, names_of(on, path)[i].text(on)),
{
    lemma_safe_is_unanchored(on, path);
    lemma_body_start(on, path);
    let names = names_of(on, path);
    let own = anchor(on, path).len() as int;
    lemma_body_pieces(on, path, body_start(on, path), false);
    assert forall|i: int| 0 <= i < names.len() implies (#[trigger] names[i]) is Normal && is_name(
        on,
        names[i].text(on),
    ) by {
        assert(components_of(on, path)[own + i] == names[i]);
        assert(is_piece(on, names[i]));
        lemma_piece_text(on, path, own + i);
    }
}

/// A verbatim path without a root is a bare prefix.
pub proof fn lemma_verbatim_bare(on: Platform, p: Seq<char>)
    requires
        is_verbatim(on, p),
        !has_physical_root(on, p),
    ensures
        prefix_len(on, p) == p.len(),
{
    lemma_next_separator(on, p, 4, true);
    if starts_verbatim_unc(p) {
        lemma_next_separator(on, p, 8, true);
        lemma_next_separator(on, p, next_separator(on, p, 8, true) + 1, true);
    }
}

/// From one piece on, the pieces are the rest of all pieces.
proof fn lemma_spans_suffix(on: Platform, p: Seq<char>, from: int, verbatim: bool, k: int)
    requires
        0 <= from,
        0 <= k < spans_from(on, p, from, verbatim).len(),
    ensures
        ({
            let all = spans_from(on, p, from, verbatim);
            &&& from <= all[k].0 < all[k].1 <= p.len()
            &&& all[k].1 == next_separator(on, p, all[k].0, verbatim)
            &&& counts(p.subrange(all[k].0, all[k].1), verbatim)
            &&& spans_from(on, p, all[k].0, verbatim) == all.skip(k)
            &&& all[k].1 < p.len() ==> separates(on, p[all[k].1], verbatim) && spans_from(
                on,
                p,
                all[k].1 + 1,
                verbatim,
            ) == all.skip(k + 1)
            &&& all[k].1 == p.len() ==> k == all.len() - 1
        }),
    decreases p.len() - from,
{
    lemma_next_separator(on, p, from, verbatim);
    let all = spans_from(on, p, from, verbatim);
    let end = next_separator(on, p, from, verbatim);
    let rest = if end < p.len() {
        spans_from(on, p, end + 1, verbatim)
    } else {
        Seq::empty()
    };
    if counts(p.subrange(from, end), verbatim) {
        assert(all =~= seq![(from, end)] + rest);
        if k == 0 {
            assert(all.skip(0) =~= all);
            assert(all.skip(1) =~= rest);
        } else {
            lemma_spans_suffix(on, p, end + 1, verbatim, k - 1);
            assert(all[k] == rest[k - 1]);
            assert(rest.skip(k - 1) =~= all.skip(k));
            assert(rest.skip(k) =~= all.skip(k + 1));
        }
    } else {
        assert(all =~= rest);
        lemma_spans_suffix(on, p, end + 1, verbatim, k);
    }
}

/// The components from one piece on are the rest of all components.
proof fn lemma_body_suffix(on: Platform, p: Seq<char>, from: int, verbatim: bool, k: int)
    requires
        0 <= from,
        0 <= k < spans_from(on, p, from, verbatim).len(),
    ensures
        ({
            let all = spans_from(on, p, from, verbatim);
            let parts = body_components(on, p, from, verbatim);
            &&& body_components(on, p, all[k].0, verbatim) == parts.skip(k)
            &&& all[k].1 < p.len() ==> body_components(on, p, all[k].1 + 1, verbatim) == parts.skip(
                k + 1,
            )
        }),
{
    lemma_spans_suffix(on, p, from, verbatim, k);
    let all = spans_from(on, p, from, verbatim);
    let parts = body_components(on, p, from, verbatim);
    assert(body_components(on, p, all[k].0, verbatim) =~= parts.skip(k));
    if all[k].1 < p.len() {
        assert(body_components(on, p, all[k].1 + 1, verbatim) =~= parts.skip(k + 1));
    }
}

/// The start of an unanchored path is not anchored.
proof fn lemma_take_unanchored(on: Platform, p: Seq<char>, n: int)
    requires
        is_unanchored(on, p),
        0 <= n <= p.len(),
    ensures
        is_unanchored(on, p.take(n)),
{
    let q = p.take(n);
    assert(on is Windows ==> !starts_double(p));
    if n > 0 {
        assert(q[0] == p[0]);
    }
}

/// A separator is found where it was in the start of a text that reaches it.
proof fn lemma_separator_take(on: Platform, p: Seq<char>, n: int, from: int, verbatim: bool)
    requires
        0 <= from <= n <= p.len(),
        next_separator(on, p, from, verbatim) <= n,
    ensures
        next_separator(on, p.take(n), from, verbatim) == next_separator(on, p, from, verbatim),
    decreases n - from,
{
    lemma_next_separator(on, p, from, verbatim);
    if from < n && !separates(on, p[from], verbatim) {
        lemma_separator_take(on, p, n, from + 1, verbatim);
    }
}

/// The prefix is kept in the start of a path that reaches its body.
#[verifier::rlimit(50)]
proof fn lemma_take_prefix(on: Platform, p: Seq<char>, n: int)
    requires
        is_plain_path(on, p),
        body_start(on, p) <= n <= p.len(),
    ensures
        prefix(on, p.take(n)) == prefix(on, p),
{
    lemma_body_start(on, p);
    let q = p.take(n);
    if on is Windows && starts_verbatim(p) {
        lemma_next_separator(on, p, 4, true);
        if starts_verbatim_unc(p) {
            let server_end = next_separator(on, p, 8, true);
            lemma_next_separator(on, p, 8, true);
            lemma_next_separator(on, p, server_end + 1, true);
            lemma_separator_take(on, p, n, 8, true);
            if server_end < p.len() {
                if next_separator(on, p, server_end + 1, true) <= n {
                    lemma_separator_take(on, p, n, server_end + 1, true);
                }
            }
            lemma_next_separator(on, q, server_end + 1, true);
        } else if !(drive_at(p, 4) && (p.len() == 6 || is_separator(on, p[6]))) {
            lemma_separator_take(on, p, n, 4, true);
        }
    } else if on is Windows && starts_double(p) {
        if starts_device(p) {
            lemma_next_separator(on, p, 4, false);
            lemma_separator_take(on, p, n, 4, false);
        } else {
            let server_end = next_separator(on, p, 2, false);
            lemma_next_separator(on, p, 2, false);
            lemma_next_separator(on, p, server_end + 1, false);
            lemma_separator_take(on, p, n, 2, false);
            lemma_separator_take(on, p, n, server_end + 1, false);
        }
    }
}

/// The parts in front of the body are kept in the start of a path that ends at
/// the body or behind a piece of it.
proof fn lemma_take_layout(on: Platform, p: Seq<char>, n: int)
    requires
        is_plain_path(on, p),
        body_start(on, p) <= n <= p.len(),
        n == body_start(on, p) || n == p.len() || is_separator(on, p[n]),
    ensures
        prefix(on, p.take(n)) == prefix(on, p),
        has_physical_root(on, p.take(n)) == has_physical_root(on, p),
        body_start(on, p.take(n)) == body_start(on, p),
        anchor(on, p.take(n)) == anchor(on, p),
{
    lemma_body_start(on, p);
    lemma_take_prefix(on, p, n);
    let q = p.take(n);
    assert(q.take(prefix_len(on, p)) =~= p.take(prefix_len(on, p)));
    assert(has_leading_dot(on, q) == has_leading_dot(on, p));
    assert(anchor(on, q) =~= anchor(on, p));
}

/// A path whose two leading separators, where it has them, belong to a prefix.
pub open spec fn is_plain_path(on: Platform, p: Seq<char>) -> bool {
    on is Windows && starts_double(p) ==> prefix(on, p) is Some
}

/// The parent of a path has the same components but the last.
#[verifier::rlimit(50)]
pub proof fn parent_drops_the_last(on: Platform, p: Seq<char>)
    requires
        is_plain_path(on, p),
        parent_of(on, p) is Some,
    ensures
        prefix(on, parent_of(on, p)->0) == prefix(on, p),
        has_physical_root(on, parent_of(on, p)->0) == has_physical_root(on, p),
        components_of(on, p).len() > 0,
        components_of(on, parent_of(on, p)->0) == components_of(on, p).drop_last(),
{
    lemma_body_start(on, p);
    let q = parent_of(on, p)->0;
    let start = body_start(on, p);
    let all = spans(on, p);
    let verbatim = is_verbatim(on, p);
    let parts = body_components(on, p, start, verbatim);
    assert(parts.len() == all.len());
    if all.len() > 1 {
        let n = all.len() - 2;
        let end = all[n].1;
        lemma_spans_suffix(on, p, start, verbatim, n);
        lemma_body_suffix(on, p, start, verbatim, n);
        lemma_take_layout(on, p, end);
        assert(p =~= q + p.skip(end));
        assert(p.skip(end)[0] == p[end]);
        lemma_body_front(on, q, p.skip(end), start, verbatim);
        assert(body_components(on, q, start, verbatim) =~= parts.drop_last());
        assert(components_of(on, q) =~= components_of(on, p).drop_last());
    } else if all.len() == 1 {
        lemma_spans_suffix(on, p, start, verbatim, 0);
        lemma_take_layout(on, p, start);
        assert(body_components(on, q, start, verbatim) =~= Seq::<ComponentView>::empty());
        assert(components_of(on, q) =~= components_of(on, p).drop_last());
    } else {
        assert(components_of(on, q) =~= Seq::<ComponentView>::empty());
        assert(components_of(on, p) =~= seq![ComponentView::CurDir]);
        assert(components_of(on, q) =~= components_of(on, p).drop_last());
    }
}

/// What remains of a path below a directory has the components of the path
/// without those of the directory.
///
/// The remaining text must not read as a prefix, as `C:x` does.
pub proof fn strip_removes_the_directory(on: Platform, p: Seq<char>, dir: Seq<char>)
    requires
        is_unanchored(on, p),
        below(on, p, dir) is Some,
        prefix(on, below(on, p, dir)->0) is None,
    ensures
        components_of(on, below(on, p, dir)->0) == components_of(on, p).skip(
            components_of(on, dir).len() as int,
        ),
{
    lemma_body_start(on, p);
    let rest = below(on, p, dir)->0;
    let k = components_of(on, dir).len() as int;
    let start = body_start(on, p);
    let all = spans(on, p);
    let parts = body_components(on, p, start, false);
    assert(parts.len() == all.len());
    let own = anchor(on, p).len() as int;
    let at = k - own;
    if k == 0 {
        assert(components_of(on, p).skip(0) =~= components_of(on, p));
        if all.len() > 0 {
            lemma_spans_suffix(on, p, start, false, 0);
            lemma_end_of_body(on, p);
            let end = all.last().1;
            lemma_take_unanchored(on, p, end);
            assert(has_leading_dot(on, rest) == has_leading_dot(on, p));
            assert(components_of(on, rest) =~= components_of(on, p));
        } else {
            lemma_take_unanchored(on, p, start);
            assert(has_leading_dot(on, rest) == has_leading_dot(on, p));
            assert(body_components(on, rest, start, false) =~= Seq::<ComponentView>::empty());
            assert(components_of(on, rest) =~= components_of(on, p));
        }
    } else if at < all.len() {
        lemma_spans_suffix(on, p, start, false, at);
        lemma_body_suffix(on, p, start, false, at);
        lemma_end_of_body(on, p);
        let begin = all[at].0;
        let end = all.last().1;
        lemma_spans_ordered(on, p, start, false);
        let whole = p.take(end);
        assert(whole =~= p.take(begin) + rest);
        lemma_body_shift(on, p.take(begin), rest, 0, false);
        lemma_next_separator(on, p, begin, false);
        assert(rest[0] == p[begin]);
        let piece = p.subrange(begin, all[at].1);
        assert(!has_leading_dot(on, rest)) by {
            if has_leading_dot(on, rest) {
                if rest.len() > 1 {
                    assert(rest[1] == p[begin + 1]);
                }
                assert(piece.len() == 1 && piece[0] == '.');
            }
        }
        lemma_body_same(on, p, end, begin);
        assert(components_of(on, rest) =~= parts.skip(at));
        assert(components_of(on, p).skip(k) =~= parts.skip(at));
    } else {
        assert(components_of(on, rest) =~= Seq::<ComponentView>::empty());
        assert(components_of(on, p).skip(k) =~= Seq::<ComponentView>::empty());
    }
}

/// Nothing that counts follows the last piece.
proof fn lemma_end_of_body(on: Platform, p: Seq<char>)
    requires
        is_unanchored(on, p),
        spans(on, p).len() > 0,
    ensures
        ({
            let end = spans(on, p).last().1;
            &&& 0 <= body_start(on, p) <= end <= p.len()
            &&& body_components(on, p, body_start(on, p), false) == body_components(
                on,
                p.take(end),
                body_start(on, p),
                false,
            )
            &&& end < p.len() ==> separates(on, p[end], false) && body_components(on, p, end + 1, false)
                =~= Seq::<ComponentView>::empty()
        }),
{
    let start = body_start(on, p);
    let all = spans(on, p);
    let n = all.len() - 1;
    lemma_body_start(on, p);
    lemma_spans_suffix(on, p, start, false, n);
    lemma_body_suffix(on, p, start, false, n);
    let end = all[n].1;
    let parts = body_components(on, p, start, false);
    assert(parts.len() == all.len());
    if end < p.len() {
        assert(p =~= p.take(end) + p.skip(end));
        assert(p.skip(end)[0] == p[end]);
        assert(parts.skip(n + 1) =~= Seq::<ComponentView>::empty());
        lemma_body_front(on, p.take(end), p.skip(end), start, false);
        assert(parts =~= body_components(on, p.take(end), start, false));
    } else {
        assert(p.take(end) =~= p);
    }
}

/// What follows the last piece does not matter for the pieces from `from` on.
proof fn lemma_body_same(on: Platform, p: Seq<char>, end: int, from: int)
    requires
        0 <= from <= end <= p.len(),
        end < p.len() ==> separates(on, p[end], false) && body_components(on, p, end + 1, false)
            =~= Seq::<ComponentView>::empty(),
    ensures
        body_components(on, p.take(end), from, false) == body_components(on, p, from, false),
{
    if end < p.len() {
        assert(p =~= p.take(end) + p.skip(end));
        assert(p.skip(end)[0] == p[end]);
        lemma_body_front(on, p.take(end), p.skip(end), from, false);
        assert(body_components(on, p.take(end), from, false) =~= body_components(on, p, from, false));
    } else {
        assert(p.take(end) =~= p);
    }
}

/// A text without separators that is no drive and no dots is one name.
pub proof fn lemma_plain_piece(on: Platform, piece: Seq<char>)
    requires
        piece.len() > 0,
        !is_dot(piece),
        !is_dot_dot(piece),
        on is Windows ==> !drive_at(piece, 0),
        forall|k: int| 0 <= k < piece.len() ==> !is_separator(on, #[trigger] piece[k]),
    ensures
        is_safe(on, piece),
        is_unanchored(on, piece),
        !has_leading_dot(on, piece),
        names_of(on, piece) == seq![ComponentView::Normal(piece)],
{
    lemma_next_separator(on, piece, 0, false);
    lemma_body_unfold(on, piece, 0, false);
    assert(piece.subrange(0, piece.len() as int) =~= piece);
    assert(!is_separator(on, piece[0]));
    if piece.len() > 1 {
        assert(!is_separator(on, piece[1]));
    }
    assert(components_of(on, piece) =~= seq![ComponentView::Normal(piece)]);
    assert(components_of(on, piece)[0] is Normal);
}

/// The text of a name in an unanchored path is not empty and holds no separator.
pub proof fn lemma_piece_text(on: Platform, p: Seq<char>, i: int)
    requires
        is_unanchored(on, p),
        0 <= i < components_of(on, p).len(),
        components_of(on, p)[i] is Normal,
    ensures
        components_of(on, p)[i].text(on).len() > 0,
        !is_dot(components_of(on, p)[i].text(on)),
        !is_dot_dot(components_of(on, p)[i].text(on)),
        forall|k: int|
            0 <= k < components_of(on, p)[i].text(on).len() ==> !is_separator(
                on,
                #[trigger] components_of(on, p)[i].text(on)[k],
            ),
{
    lemma_body_start(on, p);
    let start = body_start(on, p);
    let own = anchor(on, p).len() as int;
    let at = i - own;
    assert(at >= 0);
    let all = spans(on, p);
    lemma_spans_suffix(on, p, start, false, at);
    lemma_next_separator(on, p, all[at].0, false);
    let piece = p.subrange(all[at].0, all[at].1);
    assert(components_of(on, p)[i] == piece_component(piece));
    assert forall|k: int| 0 <= k < piece.len() implies !is_separator(on, #[trigger] piece[k]) by {
        assert(piece[k] == p[all[at].0 + k]);
        assert(!separates(on, p[all[at].0 + k], false));
    }
}

/// Whether a text is one name: it is not empty, no dots and has no separator.
pub open spec fn is_name(on: Platform, text: Seq<char>) -> bool {
    &&& text.len() > 0
    &&& !is_dot(text)
    &&& !is_dot_dot(text)
    &&& forall|k: int| 0 <= k < text.len() ==> !is_separator(on, #[trigger] text[k])
}

/// A name behind an ordinary directory is one more component, also where the
/// name alone would read as a drive.
#[verifier::rlimit(50)]
proof fn lemma_append_name(on: Platform, base: Seq<char>, name: Seq<char>)
    requires
        is_ordinary(on, base),
        is_name(on, name),
    ensures
        is_ordinary(on, with_name(on, base, name)),
        components_of(on, with_name(on, base, name)) == components_of(on, base).push(
            ComponentView::Normal(name),
        ),
{
    lemma_append_prefix(on, base, name);
    assert(with_name(on, base, name) =~= appended(on, base, name));
    lemma_body_start(on, base);
    lemma_next_separator(on, name, 0, false);
    lemma_body_unfold(on, name, 0, false);
    assert(name.subrange(0, name.len() as int) =~= name);
    let one = seq![ComponentView::Normal(name)];
    assert(body_components(on, name, 0, false) =~= one);
    assert(!is_separator(on, name[0]));
    if name.len() > 1 {
        assert(!is_separator(on, name[1]));
    }
    let whole = with_name(on, base, name);
    let len = base.len() as int;
    let at = prefix_len(on, base);
    let start = body_start(on, base);
    assert(whole.take(at) =~= base.take(at));
    if join_separator(on, base).len() > 0 {
        let tail = seq![main_separator(on)] + name;
        assert(whole =~= base + tail);
        assert(whole =~= (base + seq![main_separator(on)]) + name);
        lemma_body_shift(on, base + seq![main_separator(on)], name, 0, false);
        if at < len {
            assert(body_start(on, whole) == start);
            lemma_body_front(on, base, tail, start, false);
        } else {
            assert(body_start(on, whole) == len + 1);
            assert(body_components(on, base, start, false) =~= Seq::<ComponentView>::empty());
        }
    } else {
        assert(whole =~= base + name);
        if prefix(on, base) == Some((PrefixKind::Disk, len)) {
            assert(whole[len] == name[0]);
            if name.len() > 1 {
                assert(whole[len + 1] == name[1]);
            }
            assert(body_start(on, whole) == len);
            lemma_body_shift(on, base, name, 0, false);
            assert(body_components(on, base, start, false) =~= Seq::<ComponentView>::empty());
        } else {
            if at == len {
                lemma_prefix_end(on, base);
                assert(false);
            }
            assert(body_start(on, whole) == start);
            if start == len {
                lemma_body_shift(on, base, name, 0, false);
                assert(body_components(on, base, start, false) =~= Seq::<ComponentView>::empty());
            } else {
                let front = base.drop_last();
                let close = seq![base.last()];
                assert(base =~= front + close);
                assert(whole =~= front + (close + name));
                lemma_body_front(on, front, close + name, start, false);
                lemma_body_front(on, front, close, start, false);
                lemma_body_shift(on, base, name, 0, false);
                assert(body_components(on, base, len, false) =~= Seq::<ComponentView>::empty());
            }
        }
    }
    assert(anchor(on, whole) =~= anchor(on, base));
    assert(components_of(on, whole) =~= components_of(on, base) + one);
    assert(components_of(on, base) + one =~= components_of(on, base).push(ComponentView::Normal(name)));
}

/// The root that a name behind a directory adds: a bare verbatim prefix gains
/// one.
pub open spec fn root_for_name(on: Platform, dir: Seq<char>) -> Seq<ComponentView> {
    if is_verbatim(on, dir) && !has_physical_root(on, dir) {
        seq![ComponentView::RootDir]
    } else {
        seq![]
    }
}

/// A name behind a regular directory is one more component.
#[verifier::rlimit(50)]
proof fn lemma_regular_name(on: Platform, base: Seq<char>, name: Seq<char>)
    requires
        is_regular(on, base),
        is_name(on, name),
    ensures
        is_regular(on, with_name(on, base, name)),
        root_for_name(on, with_name(on, base, name)).len() == 0,
        components_of(on, with_name(on, base, name)) == components_of(on, base) + root_for_name(
            on,
            base,
        ) + seq![ComponentView::Normal(name)],
{
    let one = seq![ComponentView::Normal(name)];
    if is_ordinary(on, base) {
        lemma_append_name(on, base, name);
        assert(components_of(on, base) + seq![] + one =~= components_of(on, base).push(
            ComponentView::Normal(name),
        ));
    } else {
        lemma_body_start(on, base);
        let whole = with_name(on, base, name);
        let at = prefix_len(on, base);
        let start = body_start(on, base);
        let len = base.len() as int;
        lemma_single_name(on, name);
        if !has_physical_root(on, base) {
            lemma_verbatim_bare(on, base);
            lemma_bare_end(on, base);
            assert(whole =~= base + seq!['\\'] + name);
            assert(whole.take(at) =~= base.take(at));
            assert(whole[at] == '\\');
            lemma_verbatim_prefix(on, base, whole);
            lemma_body_shift(on, base + seq!['\\'], name, 0, true);
            assert(body_components(on, base, start, true) =~= Seq::<ComponentView>::empty());
            assert(components_of(on, whole) =~= components_of(on, base) + seq![
                ComponentView::RootDir,
            ] + one);
        } else if separates(on, base.last(), true) {
            assert(whole =~= base + name);
            lemma_prefix_of_longer(on, base, name);
            assert(whole.take(at) =~= base.take(at));
            assert(anchor(on, whole) =~= anchor(on, base));
            lemma_body_shift(on, base, name, 0, true);
            if start == len {
                assert(body_components(on, base, start, true) =~= Seq::<ComponentView>::empty());
            } else {
                let front = base.drop_last();
                let close = seq![base.last()];
                assert(base =~= front + close);
                assert(whole =~= front + (close + name));
                lemma_body_front(on, front, close + name, start, true);
                lemma_body_front(on, front, close, start, true);
                assert(body_components(on, base, len, true) =~= Seq::<ComponentView>::empty());
            }
            assert(components_of(on, whole) =~= components_of(on, base) + seq![] + one);
        } else {
            let tail = seq!['\\'] + name;
            assert(whole =~= base + tail);
            assert(whole =~= (base + seq!['\\']) + name);
            lemma_prefix_of_longer(on, base, tail);
            assert(whole.take(at) =~= base.take(at));
            assert(anchor(on, whole) =~= anchor(on, base));
            lemma_body_shift(on, base + seq!['\\'], name, 0, true);
            lemma_body_front(on, base, tail, start, true);
            assert(components_of(on, whole) =~= components_of(on, base) + seq![] + one);
        }
    }
}

/// A name is one piece, also behind a verbatim prefix.
proof fn lemma_single_name(on: Platform, name: Seq<char>)
    requires
        is_name(on, name),
    ensures
        body_components(on, name, 0, true) == seq![ComponentView::Normal(name)],
{
    assert forall|k: int| 0 <= k < name.len() implies name[k] != main_separator(on) by {
        assert(!is_separator(on, name[k]));
    }
    lemma_single_piece(on, name);
}

/// A bare verbatim prefix does not end with the separator of verbatim paths.
proof fn lemma_bare_end(on: Platform, p: Seq<char>)
    requires
        is_full_verbatim(on, p),
        prefix_len(on, p) == p.len(),
    ensures
        p.len() > 0,
        !separates(on, p.last(), true),
{
    lemma_next_separator(on, p, 4, true);
    if starts_verbatim_unc(p) {
        let server_end = next_separator(on, p, 8, true);
        lemma_next_separator(on, p, 8, true);
        lemma_next_separator(on, p, server_end + 1, true);
        assert(!separates(on, p[p.len() - 1], true));
    } else if !(drive_at(p, 4) && (p.len() == 6 || is_separator(on, p[6]))) {
        assert(!separates(on, p[p.len() - 1], true));
    }
}

/// Walking on over names appends them.
proof fn lemma_walk_names(on: Platform, start: Seq<ComponentView>, names: Seq<ComponentView>)
    requires
        is_regular(on, walk(on, start)),
        forall|i: int|
            0 <= i < names.len() ==> (#[trigger] names[i]) is Normal && is_name(
                on,
                names[i].text(on),
            ),
    ensures
        is_regular(on, walk(on, start + names)),
        names.len() > 0 ==> root_for_name(on, walk(on, start + names)).len() == 0,
        components_of(on, walk(on, start + names)) == if names.len() > 0 {
            components_of(on, walk(on, start)) + root_for_name(on, walk(on, start)) + names
        } else {
            components_of(on, walk(on, start))
        },
    decreases names.len(),
{
    let all = start + names;
    if names.len() == 0 {
        assert(all =~= start);
    } else {
        let shorter = names.drop_last();
        let last = names.last();
        assert forall|i: int| 0 <= i < shorter.len() implies (#[trigger] shorter[i]) is Normal
            && is_name(on, shorter[i].text(on)) by {
            assert(shorter[i] == names[i]);
        }
        lemma_walk_names(on, start, shorter);
        assert(all.drop_last() =~= start + shorter);
        assert(names[names.len() - 1] == last);
        let before = walk(on, start + shorter);
        lemma_regular_name(on, before, last.text(on));
        let w = walk(on, start);
        if shorter.len() == 0 {
            assert(start + shorter =~= start);
            assert(names =~= seq![last]);
        } else {
            assert(names =~= shorter + seq![last]);
            assert(components_of(on, w) + root_for_name(on, w) + shorter + seq![] + seq![last]
                =~= components_of(on, w) + root_for_name(on, w) + names);
        }
    }
}

/// Whether the normal form of a directory gains no root by itself: where it has a
/// verbatim prefix, it has a root, or the directory is in normal form.
pub open spec fn is_settled(on: Platform, dir: Seq<char>) -> bool {
    let w = normal_form(on, dir);
    is_verbatim(on, w) ==> has_physical_root(on, w) || w == dir
}

/// The normal form of a safe path in a directory stays below the normal form of
/// the directory: the names of the path follow its components. A bare verbatim
/// prefix gains its root.
pub proof fn normal_form_stays_below(on: Platform, dir: Seq<char>, path: Seq<char>)
    requires
        is_safe(on, path),
        is_regular(on, dir),
        is_regular(on, normal_form(on, dir)),
        path.len() == 0 ==> is_settled(on, dir),
    ensures
        components_of(on, normal_form(on, join_of(on, dir, path))) == extended(
            on,
            normal_form(on, dir),
            path,
        ),
{
    safe_join_stays_below(on, dir, path);
    lemma_safe_names(on, path);
    let names = names_of(on, path);
    let start = components_of(on, dir);
    let w = normal_form(on, dir);
    if gains_root(on, dir, path) {
        lemma_body_start(on, dir);
        lemma_verbatim_bare(on, dir);
        assert(dir.take(prefix_len(on, dir)) =~= dir);
        assert(body_components(on, dir, body_start(on, dir), true) =~= Seq::<
            ComponentView,
        >::empty());
        assert(start =~= seq![ComponentView::Prefix(dir)]);
        lemma_walk_bare(on, dir);
        let rooted = start + seq![ComponentView::RootDir];
        lemma_walk_names(on, rooted, names);
        assert(start + seq![ComponentView::RootDir] + names =~= rooted + names);
        assert(components_of(on, walk(on, rooted)) + seq![] + names =~= extended(on, w, path));
    } else {
        assert(start + seq![] + names =~= start + names);
        if path.len() == 0 {
            assert(names =~= Seq::<ComponentView>::empty());
            assert(start + names =~= start);
            assert(!gains_root(on, w, path));
        } else {
            lemma_walk_names(on, start, names);
        }
        assert(components_of(on, walk(on, start + names)) =~= extended(on, w, path));
    }
}

/// A walk over a bare verbatim prefix and a root.
proof fn lemma_walk_bare(on: Platform, dir: Seq<char>)
    requires
        is_full_verbatim(on, dir),
        prefix_len(on, dir) == dir.len(),
    ensures
        walk(on, seq![ComponentView::Prefix(dir)]) == dir,
        ({
            let w = walk(on, seq![ComponentView::Prefix(dir)] + seq![ComponentView::RootDir]);
            &&& is_full_verbatim(on, w)
            &&& has_physical_root(on, w)
            &&& components_of(on, w) == seq![ComponentView::Prefix(dir), ComponentView::RootDir]
        }),
{
    let first = seq![ComponentView::Prefix(dir)];
    let both = first + seq![ComponentView::RootDir];
    assert(first.drop_last() =~= Seq::<ComponentView>::empty());
    assert(walk(on, first) == dir);
    assert(both.drop_last() =~= first);
    let slash = seq!['\\'];
    assert(body_components(on, slash, 1, false) =~= Seq::<ComponentView>::empty());
    assert(components_of(on, slash) =~= seq![ComponentView::RootDir]);
    assert(components_of(on, dir) =~= first) by {
        assert(dir.take(dir.len() as int) =~= dir);
        assert(body_components(on, dir, body_start(on, dir), true) =~= Seq::<
            ComponentView,
        >::empty());
    }
    let steps = seq![ComponentView::RootDir];
    assert(steps.drop_last() =~= Seq::<ComponentView>::empty());
    assert(resolve(first, steps.drop_last()) == first);
    assert(resolve(first, steps) =~= both);
    lemma_render_prefix(on, dir);
    assert(render(both) =~= dir + slash);
    let w = dir + slash;
    assert(walk(on, both) == w);
    assert(w.take(dir.len() as int) =~= dir);
    assert(dir.take(dir.len() as int) =~= dir);
    lemma_verbatim_prefix(on, dir, w);
    assert(body_components(on, w, body_start(on, w), true) =~= Seq::<ComponentView>::empty());
    assert(components_of(on, w) =~= both);
}

/// Whether a list holds a span.
spec fn has_span(list: Seq<(int, int)>, from: int, to: int) -> bool {
    exists|k: int| 0 <= k < list.len() && #[trigger] list[k] == (from, to)
}

/// Behind a separator the pieces are among those from an earlier position on.
proof fn lemma_later_spans(on: Platform, p: Seq<char>, from: int, at: int, a: int, b: int)
    requires
        0 <= from <= at < p.len(),
        separates(on, p[at], false),
        has_span(spans_from(on, p, at + 1, false), a, b),
    ensures
        has_span(spans_from(on, p, from, false), a, b),
    decreases at - from,
{
    lemma_next_separator(on, p, from, false);
    let end = next_separator(on, p, from, false);
    assert(end <= at);
    let rest = spans_from(on, p, end + 1, false);
    if end < at {
        lemma_later_spans(on, p, end + 1, at, a, b);
    }
    let k = choose|k: int| 0 <= k < rest.len() && #[trigger] rest[k] == (a, b);
    let all = spans_from(on, p, from, false);
    if counts(p.subrange(from, end), false) {
        assert(all =~= seq![(from, end)] + rest);
        assert(all[k + 1] == (a, b));
    } else {
        assert(all[k] == (a, b));
    }
}

/// A piece between slashes that holds no backslash is a piece on Windows too.
proof fn lemma_common_span(p: Seq<char>, from: int, a: int, b: int)
    requires
        0 <= from,
        has_span(spans_from(Platform::Unix, p, from, false), a, b),
        forall|k: int| a <= k < b ==> p[k] != '\\',
    ensures
        has_span(spans_from(Platform::Windows, p, from, false), a, b),
    decreases p.len() - from,
{
    let unix = Platform::Unix;
    let windows = Platform::Windows;
    let all = spans_from(unix, p, from, false);
    let k = choose|k: int| 0 <= k < all.len() && #[trigger] all[k] == (a, b);
    lemma_next_separator(unix, p, from, false);
    lemma_next_separator(windows, p, from, false);
    let end = next_separator(unix, p, from, false);
    let rest = if end < p.len() {
        spans_from(unix, p, end + 1, false)
    } else {
        Seq::empty()
    };
    let first = counts(p.subrange(from, end), false);
    if first && k == 0 {
        assert(a == from && b == end);
        let there = next_separator(windows, p, from, false);
        if there < end {
            assert(p[there] != '\\' && p[there] != '/');
        } else if there > end {
            assert(separates(windows, p[end], false));
        }
        assert(spans_from(windows, p, from, false)[0] == (a, b));
    } else {
        let at = if first {
            k - 1
        } else {
            k
        };
        assert(rest[at] == (a, b));
        lemma_common_span(p, end + 1, a, b);
        lemma_later_spans(windows, p, from, end, a, b);
    }
}

/// A path that is safe on Windows is safe everywhere: the slash separates there
/// too.
pub proof fn windows_safe_is_safe(on: Platform, p: Seq<char>)
    requires
        is_safe(Platform::Windows, p),
    ensures
        is_safe(on, p),
{
    if on is Unix {
        let windows = Platform::Windows;
        lemma_safe_is_unanchored(windows, p);
        lemma_body_start(on, p);
        lemma_body_start(windows, p);
        let all = components_of(on, p);
        let own = anchor(on, p).len() as int;
        let start = body_start(on, p);
        assert forall|i: int|
            #![trigger components_of(on, p)[i]]
            0 <= i < all.len() implies !(all[i] is Prefix || all[i] is RootDir
            || all[i] is ParentDir) by {
            if i >= own && all[i] is ParentDir {
                let list = spans(on, p);
                let (a, b) = list[i - own];
                lemma_spans_suffix(on, p, start, false, i - own);
                assert(all[i] == piece_component(p.subrange(a, b)));
                assert(p.subrange(a, b)[0] == '.' && p.subrange(a, b)[1] == '.');
                assert(has_span(list, a, b));
                lemma_common_span(p, start, a, b);
                lemma_windows_span(p, start, a, b);
                let found = spans(windows, p);
                let k = choose|k: int| 0 <= k < found.len() && #[trigger] found[k] == (a, b);
                let parts = body_components(windows, p, body_start(windows, p), false);
                assert(parts[k] is ParentDir);
                let before = anchor(windows, p).len() as int;
                assert(components_of(windows, p)[before + k] == parts[k]);
            }
        }
    }
}

/// A leading dot that only Windows knows is no piece, so where the body starts
/// does not matter.
proof fn lemma_windows_span(p: Seq<char>, start: int, a: int, b: int)
    requires
        is_unanchored(Platform::Windows, p),
        start == body_start(Platform::Unix, p),
        has_span(spans_from(Platform::Windows, p, start, false), a, b),
    ensures
        has_span(spans(Platform::Windows, p), a, b),
{
    let windows = Platform::Windows;
    let body = body_start(windows, p);
    lemma_body_start(windows, p);
    if body != start {
        assert(has_leading_dot(windows, p) && body == 1 && start == 0);
        lemma_next_separator(windows, p, 0, false);
        lemma_next_separator(windows, p, 1, false);
        assert(next_separator(windows, p, 0, false) == next_separator(windows, p, 1, false));
        if p.len() > 1 {
            assert(next_separator(windows, p, 1, false) == 1);
            assert(!counts(p.subrange(0, 1), false)) by {
                assert(p.subrange(0, 1)[0] == '.');
            }
            assert(spans_from(windows, p, 0, false) == spans_from(windows, p, 2, false));
            assert(!counts(p.subrange(1, 1), false));
            assert(spans_from(windows, p, 1, false) == spans_from(windows, p, 2, false));
        } else {
            assert(p.subrange(0, 1)[0] == '.');
        }
    }
}

/// A name that is looked up in a regular directory is one more component of it, and
/// what results is a regular directory again. A bare verbatim prefix gains its root.
#[verifier::rlimit(50)]
pub proof fn join_adds_the_name(on: Platform, dir: Seq<char>, name: Seq<char>)
    requires
        is_regular(on, dir),
        is_name(on, name),
        on is Windows ==> !drive_at(name, 0),
    ensures
        is_regular(on, join_of(on, dir, name)),
        root_for_name(on, join_of(on, dir, name)).len() == 0,
        components_of(on, join_of(on, dir, name)) == components_of(on, dir) + root_for_name(
            on,
            dir,
        ) + seq![ComponentView::Normal(name)],
{
    let one = seq![ComponentView::Normal(name)];
    lemma_plain_piece(on, name);
    if is_ordinary(on, dir) {
        lemma_append_name(on, dir, name);
        assert(with_name(on, dir, name) =~= join_of(on, dir, name));
        assert(components_of(on, dir) + seq![] + one =~= components_of(on, dir).push(
            ComponentView::Normal(name),
        ));
    } else {
        safe_join_stays_below(on, dir, name);
        lemma_body_start(on, name);
        assert(components_of(on, name) =~= one);
        lemma_resolve_names(components_of(on, dir), one);
        lemma_verbatim_text(on, dir, one);
        let whole = join_of(on, dir, name);
        if !has_physical_root(on, whole) {
            lemma_verbatim_bare(on, whole);
            lemma_body_start(on, whole);
            assert(body_components(on, whole, body_start(on, whole), true) =~= Seq::<
                ComponentView,
            >::empty());
            assert(components_of(on, whole).len() <= 1);
            lemma_body_start(on, dir);
            assert(prefix(on, dir) is Some);
            assert(components_of(on, dir).len() >= 1);
        }
    }
}

/// Something remains of a path below a directory exactly where the components of the
/// directory are the first of the path's, and it is not empty exactly where more of
/// them follow.
pub proof fn strip_leaves_what_follows(on: Platform, p: Seq<char>, dir: Seq<char>)
    requires
        is_unanchored(on, p),
    ensures
        below(on, p, dir) is Some <==> components_of(on, dir).is_prefix_of(components_of(on, p)),
        below(on, p, dir) matches Some(rest) ==> (rest.len() > 0 <==> components_of(on, dir).len()
            < components_of(on, p).len()),
{
    lemma_body_start(on, p);
    lemma_spans_ordered(on, p, body_start(on, p), false);
    let all = spans(on, p);
    assert(body_components(on, p, body_start(on, p), false).len() == all.len());
    if all.len() > 0 {
        assert(all.last() == all[all.len() - 1]);
    }
    let k = components_of(on, dir).len() as int;
    let at = k - anchor(on, p).len();
    if k > 0 && 0 <= at < all.len() {
        if at < all.len() - 1 {
            assert(all[at].1 < all[all.len() - 1].0);
        }
    }
}

/// A path with a prefix, and on Unix one with a root, is what it means wherever it is
/// looked up.
pub proof fn absolute_paths_stand_alone(on: Platform, dir: Seq<char>, path: Seq<char>)
    requires
        prefix(on, path) is Some || (on is Unix && path.len() > 0 && path[0] == '/'),
    ensures
        join_of(on, dir, path) == path,
{
    if on is Unix {
        assert(prefix(on, dir) is None);
        assert(dir.take(0) + path =~= path);
    }
}

/// The name at the end of a path is the one that was looked up last, and the path
/// without it has the components of the directory.
pub proof fn name_is_at_the_end(on: Platform, dir: Seq<char>, name: Seq<char>)
    requires
        is_regular(on, dir),
        is_name(on, name),
        on is Windows ==> !drive_at(name, 0),
    ensures
        file_name_of(on, join_of(on, dir, name)) == Some(name),
        parent_of(on, join_of(on, dir, name)) is Some,
        is_plain_path(on, join_of(on, dir, name)) ==> components_of(
            on,
            parent_of(on, join_of(on, dir, name))->0,
        ) == components_of(on, dir) + root_for_name(on, dir),
{
    join_adds_the_name(on, dir, name);
    let path = join_of(on, dir, name);
    lemma_body_start(on, path);
    let body = body_components(on, path, body_start(on, path), is_verbatim(on, path));
    assert(body.len() == spans(on, path).len());
    if body.len() == 0 {
        assert(components_of(on, path) =~= anchor(on, path));
        assert(components_of(on, path).last() is Normal);
    }
    if is_plain_path(on, path) {
        parent_drops_the_last(on, path);
        assert(components_of(on, path).drop_last() =~= components_of(on, dir) + root_for_name(
            on,
            dir,
        ));
    }
}

/// A path is safe exactly where it has no prefix and no root, and none of its steps
/// leads to a parent.
pub proof fn safe_paths_only_go_down(on: Platform, p: Seq<char>)
    ensures
        is_safe(on, p) <==> prefix(on, p) is None && !has_physical_root(on, p) && !components_of(
            on,
            p,
        ).contains(ComponentView::ParentDir),
{
    let all = components_of(on, p);
    if is_safe(on, p) {
        lemma_safe_is_unanchored(on, p);
        if all.contains(ComponentView::ParentDir) {
            let i = choose|i: int| 0 <= i < all.len() && all[i] == ComponentView::ParentDir;
            assert(components_of(on, p)[i] is ParentDir);
        }
    } else if prefix(on, p) is None && !has_physical_root(on, p) {
        let i = choose|i: int|
            #![trigger components_of(on, p)[i]]
            0 <= i < all.len() && (all[i] is Prefix || all[i] is RootDir || all[i] is ParentDir);
        assert(all[i] == ComponentView::ParentDir);
        assert(all.contains(ComponentView::ParentDir));
    }
}

/// A step to the parent behind a name leads back: the normal form has the components of
/// the directory's.
#[verifier::rlimit(50)]
pub proof fn going_up_undoes_a_name(on: Platform, dir: Seq<char>, name: Seq<char>)
    requires
        is_ordinary(on, dir),
        is_regular(on, normal_form(on, dir)),
        root_for_name(on, normal_form(on, dir)).len() == 0,
        is_name(on, name),
        on is Windows ==> !drive_at(name, 0),
        is_plain_path(on, with_name(on, normal_form(on, dir), name)),
    ensures
        components_of(on, normal_form(on, join_of(on, join_of(on, dir, name), seq!['.', '.'])))
            == components_of(on, normal_form(on, dir)),
{
    let up = seq!['.', '.'];
    let inner = join_of(on, dir, name);
    let whole = join_of(on, inner, up);
    join_adds_the_name(on, dir, name);
    lemma_plain_piece(on, name);
    join_keeps_prefix(on, dir, name);
    assert(is_ordinary(on, inner)) by {
        lemma_append_name(on, dir, name);
        assert(with_name(on, dir, name) =~= join_of(on, dir, name));
    }
    lemma_next_separator(on, up, 0, false);
    lemma_body_unfold(on, up, 0, false);
    assert(up.subrange(0, 2) =~= up);
    assert(names_of(on, up) =~= seq![ComponentView::ParentDir]);
    join_keeps_prefix(on, inner, up);
    join_stays_below(on, inner, up);
    let start = components_of(on, dir);
    assert(components_of(on, inner) =~= start.push(ComponentView::Normal(name)));
    let steps = components_of(on, whole);
    assert(steps =~= start.push(ComponentView::Normal(name)).push(ComponentView::ParentDir));
    assert(steps.drop_last() =~= start.push(ComponentView::Normal(name)));
    assert(steps.drop_last().drop_last() =~= start);
    let w = normal_form(on, dir);
    lemma_regular_name(on, w, name);
    let down = with_name(on, w, name);
    assert(walk(on, steps.drop_last()) == down);
    lemma_body_start(on, down);
    let body = body_components(on, down, body_start(on, down), is_verbatim(on, down));
    assert(body.len() == spans(on, down).len());
    if body.len() == 0 {
        assert(components_of(on, down) =~= anchor(on, down));
        assert(components_of(on, down).last() is Normal);
    }
    parent_drops_the_last(on, down);
    assert(components_of(on, down).drop_last() =~= components_of(on, w));
}

/// A path whose text holds no dot, starts with no separator and is no drive is safe.
pub proof fn lemma_dotless_is_safe(on: Platform, p: Seq<char>)
    requires
        !p.contains('.'),
        p.len() > 0 ==> !is_separator(on, p[0]),
        on is Windows ==> !drive_at(p, 0),
    ensures
        is_safe(on, p),
{
    lemma_body_start(on, p);
    let all = components_of(on, p);
    let own = anchor(on, p).len() as int;
    let start = body_start(on, p);
    if p.len() > 0 {
        assert(p[0] != '.');
    }
    lemma_spans_ordered(on, p, start, false);
    assert forall|i: int|
        #![trigger components_of(on, p)[i]]
        0 <= i < all.len() implies !(all[i] is Prefix || all[i] is RootDir
        || all[i] is ParentDir) by {
        if i >= own && all[i] is ParentDir {
            let (a, b) = spans(on, p)[i - own];
            assert(all[i] == piece_component(p.subrange(a, b)));
            assert(p.subrange(a, b)[0] == '.');
            assert(p[a] == '.');
        }
    }
}

/// A path has a parent exactly where its last component is neither a prefix nor a root.
pub proof fn parents_are_there(on: Platform, p: Seq<char>)
    ensures
        parent_of(on, p) is Some <==> {
            let all = components_of(on, p);
            all.len() > 0 && !(all.last() is Prefix) && !(all.last() is RootDir)
        },
{
    lemma_body_start(on, p);
    let all = components_of(on, p);
    let body = body_components(on, p, body_start(on, p), is_verbatim(on, p));
    assert(body.len() == spans(on, p).len());
    if body.len() > 0 {
        assert(all.last() == body.last());
    } else {
        assert(all =~= anchor(on, p));
    }
}

/// A rooted path keeps of an ordinary directory only the prefix.
pub proof fn rooted_paths_keep_the_prefix(on: Platform, dir: Seq<char>, path: Seq<char>)
    requires
        !is_verbatim(on, dir),
        prefix(on, path) is None,
        path.len() > 0,
        is_separator(on, path[0]),
    ensures
        join_of(on, dir, path) == (match prefix(on, dir) {
            Some((_, len)) => dir.take(len),
            None => Seq::empty(),
        }) + path,
{
    assert(dir.take(0) =~= Seq::<char>::empty());
}

/// Without a backslash, the pieces of a path are the same on both platforms.
proof fn lemma_same_pieces(p: Seq<char>, from: int)
    requires
        0 <= from,
        !p.contains('\\'),
    ensures
        spans_from(Platform::Windows, p, from, false) == spans_from(Platform::Unix, p, from, false),
        next_separator(Platform::Windows, p, from, false) == next_separator(
            Platform::Unix,
            p,
            from,
            false,
        ),
    decreases p.len() - from,
{
    let (windows, unix) = (Platform::Windows, Platform::Unix);
    if from < p.len() {
        assert(p.contains(p[from]));
        lemma_same_pieces(p, from + 1);
        lemma_next_separator(windows, p, from, false);
        let end = next_separator(windows, p, from, false);
        assert(end == next_separator(unix, p, from, false));
        if end < p.len() {
            lemma_same_pieces(p, end + 1);
        }
    }
}

/// A path without a backslash and a prefix reads the same on both platforms.
pub proof fn lemma_same_reading(p: Seq<char>)
    requires
        !p.contains('\\'),
        prefix(Platform::Windows, p) is None,
    ensures
        components_of(Platform::Windows, p) == components_of(Platform::Unix, p),
{
    let (windows, unix) = (Platform::Windows, Platform::Unix);
    lemma_body_start(windows, p);
    lemma_body_start(unix, p);
    if p.len() > 0 {
        assert(p.contains(p[0]));
    }
    if p.len() > 1 {
        assert(p.contains(p[1]));
    }
    assert(body_start(windows, p) == body_start(unix, p));
    lemma_same_pieces(p, body_start(unix, p));
    assert(components_of(windows, p) =~= components_of(unix, p));
}

/// A relative path that is looked up in a directory is written behind it as it is, with
/// the separator of the platform between them. None is written behind nothing, behind
/// another separator, and on Windows behind a drive alone.
pub proof fn join_writes_one_separator(on: Platform, dir: Seq<char>, path: Seq<char>)
    requires
        !is_verbatim(on, dir),
        is_unanchored(on, path),
    ensures
        join_of(on, dir, path) == dir + (if dir.len() == 0 || dir.last() == '/' || (on is Windows && (
        dir.last() == '\\' || (dir.len() == 2 && drive_at(dir, 0)))) {
            Seq::<char>::empty()
        } else if on is Windows {
            seq!['\\']
        } else {
            seq!['/']
        }) + path,
{
    if dir.len() == 2 && on is Windows && drive_at(dir, 0) {
        assert(!starts_double(dir));
        assert(prefix(on, dir) == Some((PrefixKind::Disk, 2int)));
    }
}

/// The normal form of a name in a directory is the name in the normal form of the
/// directory.
pub proof fn normal_form_keeps_names(on: Platform, dir: Seq<char>, name: Seq<char>)
    requires
        is_ordinary(on, dir),
        is_ordinary(on, normal_form(on, dir)),
        is_name(on, name),
        on is Windows ==> !drive_at(name, 0),
    ensures
        normal_form(on, join_of(on, dir, name)) == join_of(on, normal_form(on, dir), name),
{
    join_adds_the_name(on, dir, name);
    lemma_plain_piece(on, name);
    let start = components_of(on, dir);
    let all = components_of(on, join_of(on, dir, name));
    assert(all =~= start.push(ComponentView::Normal(name)));
    assert(all.drop_last() =~= start);
    assert(with_name(on, normal_form(on, dir), name) =~= join_of(
        on,
        normal_form(on, dir),
        name,
    ));
}

/// Two names with a separator between them are two components, whichever separator of
/// the platform it is: the first is the parent, the second the name at the end.
pub proof fn separators_cut_names(on: Platform, a: Seq<char>, c: char, b: Seq<char>)
    requires
        is_name(on, a),
        is_name(on, b),
        c == '/' || (on is Windows && c == '\\'),
        on is Windows ==> !drive_at(a, 0),
    ensures
        components_of(on, a + seq![c] + b) == seq![
            ComponentView::Normal(a),
            ComponentView::Normal(b),
        ],
        parent_of(on, a + seq![c] + b) == Some(a),
        file_name_of(on, a + seq![c] + b) == Some(b),
{
    let p = a + seq![c] + b;
    let n = a.len() as int;
    assert(p[0] == a[0]);
    assert(!is_separator(on, a[0]));
    if n > 1 {
        assert(p[1] == a[1]);
        assert(!is_separator(on, a[1]));
    }
    assert(prefix(on, p) is None);
    assert(!has_leading_dot(on, p)) by {
        if has_leading_dot(on, p) {
            assert(is_dot(a)) by {
                if n > 1 {
                    assert(is_separator(on, p[1]));
                }
            }
        }
    }
    assert(body_start(on, p) == 0);
    lemma_next_separator(on, p, 0, false);
    let end = next_separator(on, p, 0, false);
    assert(end == n) by {
        if end < n {
            assert(p[end] == a[end]);
            assert(!is_separator(on, a[end]));
        } else if end > n {
            assert(!separates(on, p[n], false));
        }
    }
    lemma_next_separator(on, p, n + 1, false);
    let last = next_separator(on, p, n + 1, false);
    assert(last == p.len()) by {
        if last < p.len() {
            assert(p[last] == b[last - n - 1]);
            assert(!is_separator(on, b[last - n - 1]));
        }
    }
    assert(p.subrange(0, n) =~= a);
    assert(p.subrange(n + 1, p.len() as int) =~= b);
    assert(spans_from(on, p, n + 1, false) =~= seq![(n + 1, p.len() as int)]);
    assert(spans_from(on, p, 0, false) =~= seq![(0int, n), (n + 1, p.len() as int)]);
    assert(spans(on, p) =~= seq![(0int, n), (n + 1, p.len() as int)]);
    assert(components_of(on, p) =~= seq![ComponentView::Normal(a), ComponentView::Normal(b)]);
    assert(p.take(n) =~= a);
}

} // verus!
