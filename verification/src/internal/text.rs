//! Text operations on sequences of characters.

use vstd::prelude::*;

verus! {

/// `String::push` appends one character at the end of the text.
pub assume_specification[ String::push ](s: &mut String, ch: char)
    ensures
        final(s)@ == old(s)@.push(ch),
;

/// The contents of a list of strings.
pub open spec fn views(list: Seq<String>) -> Seq<Seq<char>> {
    list.map_values(|s: String| s@)
}

/// Collects the characters of a text.
pub fn to_chars(s: &str) -> (r: Vec<char>)
    ensures
        r@ == s@,
{
    let mut r: Vec<char> = Vec::new();
    for c in it: s.chars()
        invariant
            it.seq() == s@,
            r@ == s@.take(it.index() as int),
    {
        r.push(c);
    }
    assert(s@.take(s@.len() as int) == s@);
    r
}

/// Copies the characters of `chars` from `from` up to, not including, `to`.
pub fn from_chars(chars: &Vec<char>, from: usize, to: usize) -> (r: String)
    requires
        from <= to <= chars@.len(),
    ensures
        r@ == chars@.subrange(from as int, to as int),
{
    let mut r = String::new();
    let mut i: usize = from;
    while i < to
        invariant
            from <= i <= to <= chars@.len(),
            r@ == chars@.subrange(from as int, i as int),
        decreases to - i,
    {
        r.push(chars[i]);
        i = i + 1;
    }
    r
}

/// Appends the characters of `chars` to `out`.
pub fn push_chars(out: &mut String, chars: &Vec<char>)
    ensures
        final(out)@ == old(out)@ + chars@,
{
    let mut i: usize = 0;
    while i < chars.len()
        invariant
            i <= chars@.len(),
            out@ == old(out)@ + chars@.take(i as int),
        decreases chars@.len() - i,
    {
        out.push(chars[i]);
        i = i + 1;
    }
    assert(chars@.take(i as int) == chars@);
}

/// The text with every occurrence of `pattern` replaced, read from left to
/// right and without looking at the replacement again.
pub open spec fn replaced(s: Seq<char>, pattern: Seq<char>, to: Seq<char>) -> Seq<char>
    recommends
        pattern.len() > 0,
    decreases s.len(),
{
    if s.len() == 0 || pattern.len() == 0 {
        s
    } else if pattern.is_prefix_of(s) {
        to + replaced(s.skip(pattern.len() as int), pattern, to)
    } else {
        seq![s[0]] + replaced(s.skip(1), pattern, to)
    }
}

/// Whether `pattern` occurs in `chars` at position `at`.
fn occurs_at(chars: &Vec<char>, at: usize, pattern: &Vec<char>) -> (r: bool)
    requires
        at <= chars@.len(),
    ensures
        r == pattern@.is_prefix_of(chars@.skip(at as int)),
{
    let len: usize = chars.len();
    if pattern.len() > len - at {
        return false;
    }
    let mut i: usize = 0;
    while i < pattern.len()
        invariant
            i <= pattern@.len(),
            len == chars@.len(),
            at + pattern@.len() <= len,
            forall|k: int| 0 <= k < i ==> pattern@[k] == chars@.skip(at as int)[k],
        decreases pattern@.len() - i,
    {
        if chars[at + i] != pattern[i] {
            assert(pattern@[i as int] != chars@.skip(at as int).subrange(
                0,
                pattern@.len() as int,
            )[i as int]);
            return false;
        }
        i = i + 1;
    }
    assert(pattern@ =~= chars@.skip(at as int).subrange(0, pattern@.len() as int));
    true
}

/// Replaces every occurrence of `pattern` in `s` by `to`.
pub fn replace(s: &str, pattern: &str, to: &str) -> (r: String)
    requires
        pattern@.len() > 0,
    ensures
        r@ == replaced(s@, pattern@, to@),
{
    let chars = to_chars(s);
    let wanted = to_chars(pattern);
    let new = to_chars(to);
    let mut out = String::new();
    let mut i: usize = 0;
    assert(chars@.skip(0) == s@);
    while i < chars.len()
        invariant
            i <= chars@.len(),
            chars@ == s@,
            wanted@ == pattern@,
            new@ == to@,
            pattern@.len() > 0,
            out@ + replaced(s@.skip(i as int), pattern@, to@) == replaced(s@, pattern@, to@),
        decreases chars@.len() - i,
    {
        let ghost rest = s@.skip(i as int);
        let ghost before = out@;
        if occurs_at(&chars, i, &wanted) {
            push_chars(&mut out, &new);
            assert(rest.skip(wanted@.len() as int) == s@.skip(i + wanted@.len()));
            assert(out@ + replaced(s@.skip(i + wanted@.len()), pattern@, to@) == before + replaced(
                rest,
                pattern@,
                to@,
            ));
            i = i + wanted.len();
        } else {
            out.push(chars[i]);
            assert(rest.skip(1) == s@.skip(i + 1));
            assert(out@ + replaced(s@.skip(i + 1), pattern@, to@) == before + replaced(
                rest,
                pattern@,
                to@,
            ));
            i = i + 1;
        }
    }
    assert(s@.skip(i as int) == Seq::<char>::empty());
    assert(out@ + Seq::<char>::empty() == out@);
    out
}

/// The texts of a list one after the other, with `separator` between them.
pub open spec fn joined(parts: Seq<Seq<char>>, separator: Seq<char>) -> Seq<char>
    decreases parts.len(),
{
    if parts.len() == 0 {
        Seq::empty()
    } else if parts.len() == 1 {
        parts[0]
    } else {
        joined(parts.drop_last(), separator) + separator + parts.last()
    }
}

/// Joins the texts of a list.
pub fn join_lines(parts: &Vec<String>, separator: &str) -> (r: String)
    ensures
        r@ == joined(views(parts@), separator@),
{
    let mut out = String::new();
    let mut i: usize = 0;
    while i < parts.len()
        invariant
            i <= parts@.len(),
            out@ == joined(views(parts@).take(i as int), separator@),
        decreases parts@.len() - i,
    {
        assert(views(parts@).take(i + 1).drop_last() == views(parts@).take(i as int));
        assert(views(parts@).take(i + 1).last() == parts@[i as int]@);
        if i > 0 {
            out.append(separator);
        }
        out.append(parts[i].as_str());
        i = i + 1;
    }
    assert(views(parts@).take(i as int) == views(parts@));
    out
}

/// The decimal digit of a number below ten.
pub open spec fn digit(d: nat) -> char {
    (('0' as u8) + d) as char
}

/// A number written in decimal, without leading zeros.
pub open spec fn decimal(n: nat) -> Seq<char>
    decreases n,
{
    if n < 10 {
        seq![digit(n)]
    } else {
        decimal(n / 10).push(digit(n % 10))
    }
}

/// Writes a number in decimal.
pub fn to_decimal(n: u64) -> (r: String)
    ensures
        r@ == decimal(n as nat),
    decreases n,
{
    let last = ('0' as u8 + (n % 10) as u8) as char;
    if n < 10 {
        let mut r = String::new();
        r.push(last);
        assert(r@ == seq![digit(n as nat)]);
        r
    } else {
        let mut r = to_decimal(n / 10);
        r.push(last);
        r
    }
}

/// The lower-case form of an ASCII letter; any other character is itself.
pub open spec fn ascii_lower(c: char) -> char {
    if 'A' <= c && c <= 'Z' {
        ((c as u8) + 32) as char
    } else {
        c
    }
}

/// Equality of texts up to the case of ASCII letters.
pub open spec fn equal_ignoring_case(a: Seq<char>, b: Seq<char>) -> bool {
    a.map_values(|c: char| ascii_lower(c)) == b.map_values(|c: char| ascii_lower(c))
}

fn to_ascii_lower(c: char) -> (r: char)
    ensures
        r == ascii_lower(c),
{
    if 'A' <= c && c <= 'Z' {
        ((c as u8) + 32) as char
    } else {
        c
    }
}

/// Compares two texts up to the case of ASCII letters.
pub fn eq_ignore_ascii_case(a: &str, b: &str) -> (r: bool)
    ensures
        r == equal_ignoring_case(a@, b@),
{
    let left = to_chars(a);
    let right = to_chars(b);
    let ghost low_a = a@.map_values(|c: char| ascii_lower(c));
    let ghost low_b = b@.map_values(|c: char| ascii_lower(c));
    if left.len() != right.len() {
        assert(low_a.len() != low_b.len());
        return false;
    }
    let mut i: usize = 0;
    while i < left.len()
        invariant
            i <= left@.len() == right@.len(),
            left@ == a@,
            right@ == b@,
            low_a == a@.map_values(|c: char| ascii_lower(c)),
            low_b == b@.map_values(|c: char| ascii_lower(c)),
            forall|k: int| 0 <= k < i ==> low_a[k] == low_b[k],
        decreases left@.len() - i,
    {
        if to_ascii_lower(left[i]) != to_ascii_lower(right[i]) {
            assert(low_a[i as int] != low_b[i as int]);
            return false;
        }
        i = i + 1;
    }
    assert(low_a =~= low_b);
    true
}

/// The text in front of the first `c`; all of it where there is none.
pub open spec fn before_first(s: Seq<char>, c: char) -> Seq<char> {
    match s.index_of_first(c) {
        Some(i) => s.take(i),
        None => s,
    }
}

/// The text behind the last `c`; all of it where there is none.
pub open spec fn after_last(s: Seq<char>, c: char) -> Seq<char> {
    match s.index_of_last(c) {
        Some(i) => s.skip(i + 1),
        None => s,
    }
}

/// Finds the first `c` from `from` on and in front of `to`.
pub fn find_first(chars: &Vec<char>, from: usize, to: usize, c: char) -> (r: Option<usize>)
    requires
        from <= to <= chars@.len(),
    ensures
        r matches Some(i) ==> from <= i < to && chars@[i as int] == c,
        r matches Some(i) ==> forall|k: int| from <= k < i ==> chars@[k] != c,
        r is None ==> forall|k: int| from <= k < to ==> chars@[k] != c,
{
    let mut i: usize = from;
    while i < to
        invariant
            from <= i <= to <= chars@.len(),
            forall|k: int| from <= k < i ==> chars@[k] != c,
        decreases to - i,
    {
        if chars[i] == c {
            return Some(i);
        }
        i = i + 1;
    }
    None
}

/// Finds where the text from `from` to `to` starts behind its last `c`.
pub fn find_after_last(chars: &Vec<char>, from: usize, to: usize, c: char) -> (r: usize)
    requires
        from <= to <= chars@.len(),
    ensures
        from <= r <= to,
        chars@.subrange(r as int, to as int) == after_last(
            chars@.subrange(from as int, to as int),
            c,
        ),
{
    let ghost part = chars@.subrange(from as int, to as int);
    proof {
        part.index_of_last_ensures(c);
    }
    let mut i: usize = to;
    while i > from
        invariant
            from <= i <= to <= chars@.len(),
            part == chars@.subrange(from as int, to as int),
            forall|k: int| i <= k < to ==> chars@[k] != c,
            part.contains(c) ==> part.index_of_last(c) is Some,
            part.index_of_last(c) matches Some(at) ==> 0 <= at < part.len() && part[at] == c && (
            forall|j: int| at < j < part.len() ==> part[j] != c),
        decreases i - from,
    {
        if chars[i - 1] == c {
            assert(part[i - 1 - from] == c);
            assert(part.contains(c));
            assert(part.index_of_last(c) == Some(i - 1 - from));
            assert(chars@.subrange(i as int, to as int) =~= part.skip(i - from));
            return i;
        }
        i = i - 1;
    }
    assert(part.index_of_last(c) is None);
    from
}

/// Finds where the text from the start to `to` ends in front of its first `c`.
pub fn find_before_first(chars: &Vec<char>, to: usize, c: char) -> (r: usize)
    requires
        to <= chars@.len(),
    ensures
        r <= to,
        chars@.take(r as int) == before_first(chars@.take(to as int), c),
{
    let ghost part = chars@.take(to as int);
    proof {
        part.index_of_first_ensures(c);
    }
    match find_first(chars, 0, to, c) {
        Some(i) => {
            assert(part[i as int] == c);
            assert(part.index_of_first(c) == Some(i as int));
            assert(chars@.take(i as int) =~= part.take(i as int));
            i
        },
        None => to,
    }
}

/// The contents of a list of pairs of strings.
pub open spec fn pair_views(list: Seq<(String, String)>) -> Seq<(Seq<char>, Seq<char>)> {
    list.map_values(|p: (String, String)| (p.0@, p.1@))
}

/// Adds a pair of strings to a list.
pub fn push_pair(list: &mut Vec<(String, String)>, key: &str, value: &str)
    ensures
        pair_views(final(list)@) == pair_views(old(list)@).push((key@, value@)),
{
    list.push((key.to_owned(), value.to_owned()));
    assert(pair_views(list@) =~= pair_views(old(list)@).push((key@, value@)));
}

} // verus!
