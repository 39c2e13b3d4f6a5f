//! What holds of scripts and of the texts that manifests give.

use crate::error::ErrorView;
use crate::internal::path::{components_of, drive_at, join_of, ComponentView};
use crate::internal::path_laws::{is_name, is_regular, join_adds_the_name, root_for_name};
use crate::internal::text::{after_last, before_first, decimal, digit, joined, replaced, views};
use crate::package::Package;
use crate::script::{
    app_dir_of, architecture_of, artifact_of, artifacts_of, environment_of, expansion,
    failure_of, goes_on, hook_failure, hook_script, json_array, persist_dir_of, powershell_steps,
    replaced_first, script_file_of, source_of, used_dir_of, variables_of, Hook, HookContext,
    HostVariables, Outcome, PowershellActionView, POWERSHELL_PRELUDE,
};
use crate::session::{Platform, Session};
use vstd::prelude::*;

verus! {

/// Whether a text holds no sign that a variable could start with.
pub open spec fn is_plain(s: Seq<char>) -> bool {
    forall|i: int| 0 <= i < s.len() ==> s[i] != '$'
}

/// A replacement of a variable keeps plain text in front.
proof fn lemma_plain_front(lead: Seq<char>, s: Seq<char>, pattern: Seq<char>, to: Seq<char>)
    requires
        is_plain(lead),
        pattern.len() > 0,
        pattern[0] == '$',
    ensures
        replaced(lead + s, pattern, to) == lead + replaced(s, pattern, to),
    decreases lead.len(),
{
    let all = lead + s;
    if lead.len() == 0 {
        assert(all =~= s);
        assert(lead + replaced(s, pattern, to) =~= replaced(s, pattern, to));
    } else {
        assert(all[0] == lead[0]);
        assert(!pattern.is_prefix_of(all)) by {
            if pattern.is_prefix_of(all) {
                assert(all.subrange(0, pattern.len() as int)[0] == pattern[0]);
            }
        }
        let rest = lead.skip(1);
        assert(all.skip(1) =~= rest + s);
        assert forall|i: int| 0 <= i < rest.len() implies rest[i] != '$' by {
            assert(rest[i] == lead[i + 1]);
        }
        lemma_plain_front(rest, s, pattern, to);
        assert(replaced(all, pattern, to) =~= lead + replaced(s, pattern, to));
    }
}

/// Whether a text occurs in another.
pub open spec fn occurs(pattern: Seq<char>, s: Seq<char>) -> bool {
    exists|i: int| 0 <= i <= s.len() && pattern.is_prefix_of(#[trigger] s.skip(i))
}

/// A replacement of what does not occur changes nothing.
proof fn lemma_absent(s: Seq<char>, pattern: Seq<char>, to: Seq<char>)
    requires
        !occurs(pattern, s),
        pattern.len() > 0,
    ensures
        replaced(s, pattern, to) == s,
    decreases s.len(),
{
    if s.len() > 0 {
        assert(s.skip(0) =~= s);
        let rest = s.skip(1);
        if occurs(pattern, rest) {
            let i = choose|i: int| 0 <= i <= rest.len() && pattern.is_prefix_of(
                #[trigger] rest.skip(i),
            );
            assert(rest.skip(i) =~= s.skip(i + 1));
        }
        lemma_absent(rest, pattern, to);
        assert(seq![s[0]] + rest =~= s);
    }
}

/// Whether a text is no start of another and the other is no start of it.
spec fn differs(a: Seq<char>, b: Seq<char>) -> bool {
    exists|at: int| 0 <= at < a.len() && at < b.len() && #[trigger] a[at] != b[at]
}

/// Whether a variable is a sign followed by plain text.
spec fn is_variable(s: Seq<char>) -> bool {
    s.len() > 0 && s[0] == '$' && is_plain(s.skip(1))
}

/// Whether the replacement of a variable leaves a text alone, whatever follows:
/// the text is plain, or another variable.
spec fn is_inert(s: Seq<char>, variable: Seq<char>) -> bool {
    is_plain(s) || (is_variable(s) && differs(s, variable))
}

/// A table in which no variable is the start of another, and no value is touched
/// by the variables behind it.
spec fn is_sound_table(table: Seq<(Seq<char>, Seq<char>)>) -> bool {
    &&& forall|i: int| 0 <= i < table.len() ==> is_variable((#[trigger] table[i]).0)
    &&& forall|i: int, j: int|
        0 <= i < table.len() && 0 <= j < table.len() && i != j ==> differs(
            (#[trigger] table[i]).0,
            (#[trigger] table[j]).0,
        )
    &&& forall|i: int, j: int|
        0 <= i < j < table.len() ==> is_inert((#[trigger] table[i]).1, (#[trigger] table[j]).0)
}

/// A variable is replaced by its value.
proof fn lemma_itself(pattern: Seq<char>, tail: Seq<char>, to: Seq<char>)
    requires
        pattern.len() > 0,
    ensures
        replaced(pattern + tail, pattern, to) == to + replaced(tail, pattern, to),
{
    let all = pattern + tail;
    assert(pattern =~= all.subrange(0, pattern.len() as int));
    assert(all.skip(pattern.len() as int) =~= tail);
}

/// An inert text is kept, whatever follows it.
proof fn lemma_inert(s: Seq<char>, tail: Seq<char>, pattern: Seq<char>, to: Seq<char>)
    requires
        is_inert(s, pattern),
        is_variable(pattern),
    ensures
        replaced(s + tail, pattern, to) == s + replaced(tail, pattern, to),
{
    if is_plain(s) {
        lemma_plain_front(s, tail, pattern, to);
    } else {
        let all = s + tail;
        let at = choose|at: int|
            0 <= at < s.len() && at < pattern.len() && #[trigger] s[at] != pattern[at];
        if pattern.is_prefix_of(all) {
            assert(all.subrange(0, pattern.len() as int)[at] == pattern[at]);
            assert(all[at] == s[at]);
        }
        assert(all.skip(1) =~= s.skip(1) + tail);
        lemma_plain_front(s.skip(1), tail, pattern, to);
        assert(replaced(all, pattern, to) =~= s + replaced(tail, pattern, to));
    }
}

/// Plain text in front is kept by every replacement.
proof fn lemma_table_plain(
    lead: Seq<char>,
    value: Seq<char>,
    table: Seq<(Seq<char>, Seq<char>)>,
    n: nat,
)
    requires
        is_plain(lead),
        n <= table.len(),
        forall|i: int| 0 <= i < table.len() ==> is_variable((#[trigger] table[i]).0),
    ensures
        replaced_first(lead + value, table, n) == lead + replaced_first(value, table, n),
    decreases n,
{
    if n > 0 {
        let k = (n - 1) as nat;
        lemma_table_plain(lead, value, table, k);
        assert(is_variable(table[n - 1].0));
        lemma_plain_front(
            lead,
            replaced_first(value, table, k),
            table[n - 1].0,
            table[n - 1].1,
        );
    }
}

/// A variable in front becomes its value once it is its turn, and is kept until
/// then; its value is kept from then on.
proof fn lemma_table_variable(
    table: Seq<(Seq<char>, Seq<char>)>,
    j: int,
    tail: Seq<char>,
    n: nat,
)
    requires
        is_sound_table(table),
        0 <= j < table.len(),
        n <= table.len(),
    ensures
        replaced_first(table[j].0 + tail, table, n) == (if n <= j {
            table[j].0
        } else {
            table[j].1
        }) + replaced_first(tail, table, n),
    decreases n,
{
    if n > 0 {
        let k = (n - 1) as nat;
        lemma_table_variable(table, j, tail, k);
        let rest = replaced_first(tail, table, k);
        let (variable, value) = table[n - 1];
        assert(is_variable(table[n - 1].0));
        assert(is_variable(table[j].0));
        if k < j {
            assert(differs(table[j].0, table[n - 1].0));
            lemma_inert(table[j].0, rest, variable, value);
        } else if k == j {
            lemma_itself(variable, rest, value);
        } else {
            assert(is_inert(table[j].1, table[n - 1].0));
            lemma_inert(table[j].1, rest, variable, value);
        }
    }
}

proof fn reveal_variables()
    ensures
        "$original_dir"@ =~= seq!['$', 'o', 'r', 'i', 'g', 'i', 'n', 'a', 'l', '_', 'd', 'i', 'r'],
        "$persist_dir"@ =~= seq!['$', 'p', 'e', 'r', 's', 'i', 's', 't', '_', 'd', 'i', 'r'],
        "$architecture"@ =~= seq!['$', 'a', 'r', 'c', 'h', 'i', 't', 'e', 'c', 't', 'u', 'r', 'e'],
        "$version"@ =~= seq!['$', 'v', 'e', 'r', 's', 'i', 'o', 'n'],
        "$app"@ =~= seq!['$', 'a', 'p', 'p'],
        "$cmd"@ =~= seq!['$', 'c', 'm', 'd'],
        "$global"@ =~= seq!['$', 'g', 'l', 'o', 'b', 'a', 'l'],
        "$false"@ =~= seq!['$', 'f', 'a', 'l', 's', 'e'],
        "$dir"@ =~= seq!['$', 'd', 'i', 'r'],
{
    reveal_strlit("$original_dir");
    reveal_strlit("$persist_dir");
    reveal_strlit("$architecture");
    reveal_strlit("$version");
    reveal_strlit("$app");
    reveal_strlit("$cmd");
    reveal_strlit("$global");
    reveal_strlit("$false");
    reveal_strlit("$dir");
}

/// The characters that tell the variables apart stand in the first places.
spec fn is_marked(s: Seq<char>, second: char, third: char) -> bool {
    s.len() > 2 && s[1] == second && s[2] == third
}

proof fn lemma_marks_differ(a: Seq<char>, a1: char, a2: char, b: Seq<char>, b1: char, b2: char)
    requires
        is_marked(a, a1, a2),
        is_marked(b, b1, b2),
        a1 != b1 || a2 != b2,
    ensures
        differs(a, b),
{
    if a1 != b1 {
        assert(a[1] != b[1]);
    } else {
        assert(a[2] != b[2]);
    }
}

/// The second and third character of each variable.
spec fn marks() -> Seq<(char, char)> {
    seq![
        ('o', 'r'),
        ('p', 'e'),
        ('a', 'r'),
        ('v', 'e'),
        ('a', 'p'),
        ('c', 'm'),
        ('g', 'l'),
        ('d', 'i'),
    ]
}

/// The variables of a manifest are told apart by their first characters, and
/// values without a sign stay as they are.
proof fn lemma_sound_variables(context: HookContext, version: Seq<char>, name: Seq<char>)
    requires
        is_plain(context.original_dir@),
        is_plain(context.persist_dir@),
        is_plain(context.architecture@),
        is_plain(version),
        is_plain(name),
        is_plain(context.command@),
    ensures
        is_sound_table(variables_of(context, version, name)),
{
    reveal_variables();
    let table = variables_of(context, version, name);
    lemma_variables_marked(context, version, name);
    assert forall|i: int, j: int|
        0 <= i < table.len() && 0 <= j < table.len() && i != j implies differs(
        (#[trigger] table[i]).0,
        (#[trigger] table[j]).0,
    ) by {
        let (a1, a2) = marks()[i];
        let (b1, b2) = marks()[j];
        lemma_marks_differ(table[i].0, a1, a2, table[j].0, b1, b2);
    }
    assert forall|i: int, j: int| 0 <= i < j < table.len() implies is_inert(
        (#[trigger] table[i]).1,
        (#[trigger] table[j]).0,
    ) by {
        if i == 6 {
            let s = "$false"@;
            assert(s.skip(1) =~= seq!['f', 'a', 'l', 's', 'e']);
            lemma_marks_differ(s, 'f', 'a', table[j].0, 'd', 'i');
        }
    }
}

proof fn lemma_variables_marked(context: HookContext, version: Seq<char>, name: Seq<char>)
    ensures
        forall|i: int|
            0 <= i < 8 ==> is_variable(
                (#[trigger] variables_of(context, version, name)[i]).0,
            ) && is_marked(
                variables_of(context, version, name)[i].0,
                marks()[i].0,
                marks()[i].1,
            ),
{
    reveal_variables();
    let table = variables_of(context, version, name);
    assert forall|i: int| 0 <= i < 8 implies is_variable((#[trigger] table[i]).0) && is_marked(
        table[i].0,
        marks()[i].0,
        marks()[i].1,
    ) by {
        let s = table[i].0;
        assert forall|k: int| 0 <= k < s.skip(1).len() implies s.skip(1)[k] != '$' by {
            assert(s.skip(1)[k] == s[k + 1]);
        }
    }
}

/// Plain text in front of a value is kept as it is.
pub proof fn leading_text_is_kept(
    context: HookContext,
    version: Seq<char>,
    name: Seq<char>,
    lead: Seq<char>,
    value: Seq<char>,
)
    requires
        is_plain(lead),
    ensures
        expansion(context, version, name, lead + value) == lead + expansion(
            context,
            version,
            name,
            value,
        ),
{
    lemma_variables_marked(context, version, name);
    lemma_table_plain(lead, value, variables_of(context, version, name), 8);
}

/// A value in which no variable occurs is kept as it is.
pub proof fn plain_text_is_kept(
    context: HookContext,
    version: Seq<char>,
    name: Seq<char>,
    value: Seq<char>,
)
    requires
        forall|i: int|
            0 <= i < variables_of(context, version, name).len() ==> !occurs(
                (#[trigger] variables_of(context, version, name)[i]).0,
                value,
            ),
    ensures
        expansion(context, version, name, value) == value,
{
    lemma_variables_marked(context, version, name);
    lemma_nothing_replaced(value, variables_of(context, version, name), 8);
}

proof fn lemma_nothing_replaced(value: Seq<char>, table: Seq<(Seq<char>, Seq<char>)>, n: nat)
    requires
        n <= table.len(),
        forall|i: int| 0 <= i < table.len() ==> is_variable((#[trigger] table[i]).0),
        forall|i: int| 0 <= i < table.len() ==> !occurs((#[trigger] table[i]).0, value),
    ensures
        replaced_first(value, table, n) == value,
    decreases n,
{
    if n > 0 {
        lemma_nothing_replaced(value, table, (n - 1) as nat);
        assert(is_variable(table[n - 1].0));
        lemma_absent(value, table[n - 1].0, table[n - 1].1);
    }
}

/// A variable expands to its value, whatever text follows it, where the values
/// are plain: together with plain text in front, a text is expanded piece by
/// piece.
pub proof fn variables_expand_to_their_values(
    context: HookContext,
    version: Seq<char>,
    name: Seq<char>,
    j: int,
    tail: Seq<char>,
)
    requires
        is_plain(context.original_dir@),
        is_plain(context.persist_dir@),
        is_plain(context.architecture@),
        is_plain(version),
        is_plain(name),
        is_plain(context.command@),
        0 <= j < variables_of(context, version, name).len(),
    ensures
        ({
            let (variable, value) = variables_of(context, version, name)[j];
            expansion(context, version, name, variable + tail) == value + expansion(
                context,
                version,
                name,
                tail,
            )
        }),
{
    lemma_sound_variables(context, version, name);
    lemma_table_variable(variables_of(context, version, name), j, tail, 8);
}

/// A downloaded file is named by a name, not by a path: it is not empty and
/// holds no slash.
pub proof fn artifact_is_a_file_name(url: Seq<char>)
    requires
        artifact_of(url) is Some,
    ensures
        artifact_of(url)->0.len() > 0,
        !artifact_of(url)->0.contains('/'),
{
    url.index_of_first_ensures('#');
    if let Some(i) = url.index_of_first('#') {
        lemma_after_last(url.skip(i + 1), '/');
    }
    lemma_after_last(before_first(before_first(url, '?'), '#'), '/');
}

proof fn lemma_after_last(s: Seq<char>, c: char)
    ensures
        !after_last(s, c).contains(c),
{
    s.index_of_last_ensures(c);
    if let Some(i) = s.index_of_last(c) {
        let rest = s.skip(i + 1);
        assert forall|k: int| 0 <= k < rest.len() implies rest[k] != c by {
            assert(rest[k] == s[i + 1 + k]);
        }
    }
}

/// The characters that PowerShell takes for a single quote.
pub open spec fn is_quote(c: char) -> bool {
    c == '\'' || c == '\u{2018}' || c == '\u{2019}' || c == '\u{201A}' || c == '\u{201B}'
}

/// Reads a single-quoted literal whose opening quote has been read: the value
/// and the text behind the closing quote. Two quotes in a row stand for one.
pub open spec fn read_literal(s: Seq<char>) -> Option<(Seq<char>, Seq<char>)>
    decreases s.len(),
{
    if s.len() == 0 {
        None
    } else if is_quote(s[0]) && !(s.len() > 1 && is_quote(s[1])) {
        Some((Seq::empty(), s.skip(1)))
    } else {
        let rest = if is_quote(s[0]) {
            read_literal(s.skip(2))
        } else {
            read_literal(s.skip(1))
        };
        match rest {
            Some((value, behind)) => Some((seq![s[0]] + value, behind)),
            None => None,
        }
    }
}

/// The manifest that a hook script quotes reads back as it is, and the script
/// goes on behind it, as long as the manifest holds no typographic quote.
pub proof fn quoted_manifest_reads_back(manifest: Seq<char>, behind: Seq<char>)
    requires
        forall|i: int|
            0 <= i < manifest.len() && is_quote(#[trigger] manifest[i]) ==> manifest[i] == '\'',
        behind.len() > 0 ==> !is_quote(behind[0]),
    ensures
        read_literal(replaced(manifest, "'"@, "''"@) + "'"@ + behind) == Some((manifest, behind)),
    decreases manifest.len(),
{
    reveal_strlit("'");
    reveal_strlit("''");
    let one = "'"@;
    let two = "''"@;
    assert(one =~= seq!['\'']);
    assert(two =~= seq!['\'', '\'']);
    let text = replaced(manifest, one, two) + one + behind;
    if manifest.len() == 0 {
        assert(text =~= one + behind);
        assert(text.skip(1) =~= behind);
        assert(manifest =~= Seq::<char>::empty());
    } else {
        let rest = manifest.skip(1);
        assert forall|i: int| 0 <= i < rest.len() && is_quote(#[trigger] rest[i]) implies rest[i]
            == '\'' by {
            assert(rest[i] == manifest[i + 1]);
        }
        quoted_manifest_reads_back(rest, behind);
        let after = replaced(rest, one, two) + one + behind;
        assert(one.is_prefix_of(manifest) <==> manifest[0] == '\'') by {
            assert(manifest.subrange(0, 1) =~= seq![manifest[0]]);
            if manifest[0] == '\'' {
                assert(one =~= manifest.subrange(0, 1));
            } else if one.is_prefix_of(manifest) {
                assert(manifest.subrange(0, 1)[0] == one[0]);
            }
        }
        if manifest[0] == '\'' {
            assert(text =~= two + after);
            assert(text.skip(2) =~= after);
        } else {
            assert(text =~= seq![manifest[0]] + after);
            assert(text.skip(1) =~= after);
        }
        assert(seq![manifest[0]] + rest =~= manifest);
    }
}

/// Whether a text is made of decimal digits.
spec fn is_digits(s: Seq<char>) -> bool {
    forall|i: int| 0 <= i < s.len() ==> '0' <= #[trigger] s[i] && s[i] <= '9'
}

proof fn lemma_digit(d: nat)
    requires
        d < 10,
    ensures
        digit(d) as int == '0' as int + d,
        '0' <= digit(d) && digit(d) <= '9',
{
}

proof fn lemma_decimal_digits(n: nat)
    ensures
        decimal(n).len() > 0,
        is_digits(decimal(n)),
    decreases n,
{
    lemma_digit(n % 10);
    if n >= 10 {
        lemma_decimal_digits(n / 10);
    }
}

/// The decimal writing of a number determines it.
proof fn lemma_decimal_injective(a: nat, b: nat)
    requires
        decimal(a) == decimal(b),
    ensures
        a == b,
    decreases a,
{
    lemma_digit(a % 10);
    lemma_digit(b % 10);
    assert(decimal(a).last() == digit(a % 10));
    assert(decimal(b).last() == digit(b % 10));
    assert(a % 10 == b % 10);
    lemma_decimal_digits(a / 10);
    lemma_decimal_digits(b / 10);
    if a >= 10 && b >= 10 {
        assert(decimal(a).drop_last() =~= decimal(a / 10));
        assert(decimal(b).drop_last() =~= decimal(b / 10));
        lemma_decimal_injective(a / 10, b / 10);
    }
}

/// What stands behind the last dash of a text is determined by it, where that is
/// made of digits.
proof fn lemma_last_dash(a: Seq<char>, x: Seq<char>, b: Seq<char>, y: Seq<char>)
    requires
        is_digits(x),
        is_digits(y),
        a + "-"@ + x == b + "-"@ + y,
    ensures
        a == b,
        x == y,
{
    reveal_strlit("-");
    let s = a + "-"@ + x;
    let t = b + "-"@ + y;
    let (n, m) = (a.len() as int, b.len() as int);
    assert(s.len() == n + 1 + x.len());
    assert(t.len() == m + 1 + y.len());
    assert(s[n] == '-');
    assert(t[m] == '-');
    if n < m {
        let k = m - n - 1;
        assert(0 <= k < x.len());
        assert(s[n + 1 + k] == x[k]);
    } else if m < n {
        let k = n - m - 1;
        assert(0 <= k < y.len());
        assert(t[m + 1 + k] == y[k]);
    }
    assert(s.take(a.len() as int) =~= a);
    assert(t.take(b.len() as int) =~= b);
    assert(s.skip(a.len() as int + 1) =~= x);
    assert(t.skip(b.len() as int + 1) =~= y);
}

/// The name of a script file determines the label, the process and the run that
/// it belongs to.
pub proof fn script_files_are_distinct(
    l1: Seq<char>,
    p1: nat,
    s1: nat,
    l2: Seq<char>,
    p2: nat,
    s2: nat,
)
    requires
        script_file_of(l1, p1, s1) == script_file_of(l2, p2, s2),
    ensures
        l1 == l2,
        p1 == p2,
        s1 == s2,
{
    let end = ".ps1"@;
    let x = script_file_of(l1, p1, s1);
    let y = script_file_of(l2, p2, s2);
    let a = "hok-"@ + l1;
    let b = "hok-"@ + l2;
    let c = a + "-"@ + decimal(p1);
    let d = b + "-"@ + decimal(p2);
    lemma_decimal_digits(p1);
    lemma_decimal_digits(p2);
    lemma_decimal_digits(s1);
    lemma_decimal_digits(s2);
    assert(x =~= c + "-"@ + decimal(s1) + end);
    assert(y =~= d + "-"@ + decimal(s2) + end);
    let n = x.len() - end.len();
    assert(x.take(n) =~= c + "-"@ + decimal(s1));
    assert(y.take(n) =~= d + "-"@ + decimal(s2));
    lemma_last_dash(c, decimal(s1), d, decimal(s2));
    lemma_last_dash(a, decimal(p1), b, decimal(p2));
    lemma_decimal_injective(p1, p2);
    lemma_decimal_injective(s1, s2);
    let k = "hok-"@.len() as int;
    assert(a.skip(k) =~= l1);
    assert(b.skip(k) =~= l2);
}

/// The runs of a process use files of their own, whatever their labels are: run
/// number `i` and run number `j` write, run and remove different files.
pub proof fn runs_use_files_of_their_own(labels: Seq<Seq<char>>, process_id: nat, i: int, j: int)
    requires
        0 <= i < labels.len(),
        0 <= j < labels.len(),
        i != j,
    ensures
        script_file_of(labels[i], process_id, i as nat) != script_file_of(
            labels[j],
            process_id,
            j as nat,
        ),
{
    if script_file_of(labels[i], process_id, i as nat) == script_file_of(
        labels[j],
        process_id,
        j as nat,
    ) {
        script_files_are_distinct(
            labels[i],
            process_id,
            i as nat,
            labels[j],
            process_id,
            j as nat,
        );
    }
}

/// The actions that are carried out, where `failed` tells which of them fail: a
/// run ends behind the first action that it does not go on from.
pub open spec fn carried_out(
    actions: Seq<PowershellActionView>,
    failed: spec_fn(int) -> bool,
    n: nat,
) -> Seq<PowershellActionView>
    decreases n,
{
    if n == 0 {
        Seq::empty()
    } else {
        let before = carried_out(actions, failed, (n - 1) as nat);
        if before.len() == n - 1 && (n == 1 || goes_on(actions[n - 2], failed(n - 2))) {
            before.push(actions[n - 1])
        } else {
            before
        }
    }
}

/// A script that was written is run and removed again, however the run ends and
/// whether it starts or not. Where it could not be written, nothing else is done.
pub proof fn written_scripts_are_removed(
    file_name: Seq<char>,
    source: Seq<char>,
    environment: Seq<(Seq<char>, Seq<char>)>,
    on: Platform,
    failed: spec_fn(int) -> bool,
)
    ensures
        ({
            let steps = powershell_steps(file_name, source, environment, on);
            let done = carried_out(steps, failed, 3);
            &&& done == if failed(0) {
                steps.take(1)
            } else {
                steps
            }
            &&& !failed(0) ==> done.last() == (PowershellActionView::Remove { file_name })
        }),
{
    reveal_with_fuel(carried_out, 4);
    let steps = powershell_steps(file_name, source, environment, on);
    let done = carried_out(steps, failed, 3);
    if failed(0) {
        assert(done =~= steps.take(1));
    } else {
        assert(done =~= steps);
    }
}

/// What a program finds in a variable: of several values the last one counts.
pub open spec fn value_of(environment: Seq<(Seq<char>, Seq<char>)>, name: Seq<char>) -> Option<
    Seq<char>,
>
    decreases environment.len(),
{
    if environment.len() == 0 {
        None
    } else if environment.last().0 == name {
        Some(environment.last().1)
    } else {
        value_of(environment.drop_last(), name)
    }
}

/// A variable that is named once has the value that stands by its name.
pub proof fn lemma_value(environment: Seq<(Seq<char>, Seq<char>)>, i: int)
    requires
        0 <= i < environment.len(),
        forall|j: int|
            i < j < environment.len() ==> (#[trigger] environment[j]).0 != environment[i].0,
    ensures
        value_of(environment, environment[i].0) == Some(environment[i].1),
    decreases environment.len(),
{
    if i < environment.len() - 1 {
        let shorter = environment.drop_last();
        assert(environment.last() == environment[environment.len() - 1]);
        assert forall|j: int| i < j < shorter.len() implies (#[trigger] shorter[j]).0
            != shorter[i].0 by {
            assert(shorter[j] == environment[j]);
        }
        lemma_value(shorter, i);
    }
}

/// The names of the variables that a hook script finds set are distinct.
proof fn lemma_names_distinct(
    context: HookContext,
    package: Package,
    host: HostVariables,
    filenames: Seq<char>,
)
    ensures
        environment_of(context, package, host, filenames).len() == 15,
        forall|i: int, j: int|
            0 <= i < j < 15 ==> (#[trigger] environment_of(context, package, host, filenames)[i]).0
                != (#[trigger] environment_of(context, package, host, filenames)[j]).0,
{
    reveal_strlit("HOK_APP");
    reveal_strlit("HOK_VERSION");
    reveal_strlit("HOK_ARCHITECTURE");
    reveal_strlit("HOK_COMMAND");
    reveal_strlit("HOK_DIR");
    reveal_strlit("HOK_ORIGINAL_DIR");
    reveal_strlit("HOK_PERSIST_DIR");
    reveal_strlit("HOK_SCOOP_DIR");
    reveal_strlit("HOK_GLOBAL_DIR");
    reveal_strlit("HOK_CACHE_DIR");
    reveal_strlit("HOK_BUCKETS_DIR");
    reveal_strlit("HOK_MODULES_DIR");
    reveal_strlit("HOK_CONFIG_PATH");
    reveal_strlit("HOK_OLD_SCOOP_DIR");
    reveal_strlit("HOK_FILENAMES");
    assert("HOK_APP"@.len() != "HOK_VERSION"@.len());
    assert("HOK_APP"@.len() != "HOK_ARCHITECTURE"@.len());
    assert("HOK_APP"@.len() != "HOK_COMMAND"@.len());
    assert("HOK_APP"@[4] != "HOK_DIR"@[4]);
    assert("HOK_APP"@.len() != "HOK_ORIGINAL_DIR"@.len());
    assert("HOK_APP"@.len() != "HOK_PERSIST_DIR"@.len());
    assert("HOK_APP"@.len() != "HOK_SCOOP_DIR"@.len());
    assert("HOK_APP"@.len() != "HOK_GLOBAL_DIR"@.len());
    assert("HOK_APP"@.len() != "HOK_CACHE_DIR"@.len());
    assert("HOK_APP"@.len() != "HOK_BUCKETS_DIR"@.len());
    assert("HOK_APP"@.len() != "HOK_MODULES_DIR"@.len());
    assert("HOK_APP"@.len() != "HOK_CONFIG_PATH"@.len());
    assert("HOK_APP"@.len() != "HOK_OLD_SCOOP_DIR"@.len());
    assert("HOK_APP"@.len() != "HOK_FILENAMES"@.len());
    assert("HOK_VERSION"@.len() != "HOK_ARCHITECTURE"@.len());
    assert("HOK_VERSION"@[4] != "HOK_COMMAND"@[4]);
    assert("HOK_VERSION"@.len() != "HOK_DIR"@.len());
    assert("HOK_VERSION"@.len() != "HOK_ORIGINAL_DIR"@.len());
    assert("HOK_VERSION"@.len() != "HOK_PERSIST_DIR"@.len());
    assert("HOK_VERSION"@.len() != "HOK_SCOOP_DIR"@.len());
    assert("HOK_VERSION"@.len() != "HOK_GLOBAL_DIR"@.len());
    assert("HOK_VERSION"@.len() != "HOK_CACHE_DIR"@.len());
    assert("HOK_VERSION"@.len() != "HOK_BUCKETS_DIR"@.len());
    assert("HOK_VERSION"@.len() != "HOK_MODULES_DIR"@.len());
    assert("HOK_VERSION"@.len() != "HOK_CONFIG_PATH"@.len());
    assert("HOK_VERSION"@.len() != "HOK_OLD_SCOOP_DIR"@.len());
    assert("HOK_VERSION"@.len() != "HOK_FILENAMES"@.len());
    assert("HOK_ARCHITECTURE"@.len() != "HOK_COMMAND"@.len());
    assert("HOK_ARCHITECTURE"@.len() != "HOK_DIR"@.len());
    assert("HOK_ARCHITECTURE"@[4] != "HOK_ORIGINAL_DIR"@[4]);
    assert("HOK_ARCHITECTURE"@.len() != "HOK_PERSIST_DIR"@.len());
    assert("HOK_ARCHITECTURE"@.len() != "HOK_SCOOP_DIR"@.len());
    assert("HOK_ARCHITECTURE"@.len() != "HOK_GLOBAL_DIR"@.len());
    assert("HOK_ARCHITECTURE"@.len() != "HOK_CACHE_DIR"@.len());
    assert("HOK_ARCHITECTURE"@.len() != "HOK_BUCKETS_DIR"@.len());
    assert("HOK_ARCHITECTURE"@.len() != "HOK_MODULES_DIR"@.len());
    assert("HOK_ARCHITECTURE"@.len() != "HOK_CONFIG_PATH"@.len());
    assert("HOK_ARCHITECTURE"@.len() != "HOK_OLD_SCOOP_DIR"@.len());
    assert("HOK_ARCHITECTURE"@.len() != "HOK_FILENAMES"@.len());
    assert("HOK_COMMAND"@.len() != "HOK_DIR"@.len());
    assert("HOK_COMMAND"@.len() != "HOK_ORIGINAL_DIR"@.len());
    assert("HOK_COMMAND"@.len() != "HOK_PERSIST_DIR"@.len());
    assert("HOK_COMMAND"@.len() != "HOK_SCOOP_DIR"@.len());
    assert("HOK_COMMAND"@.len() != "HOK_GLOBAL_DIR"@.len());
    assert("HOK_COMMAND"@.len() != "HOK_CACHE_DIR"@.len());
    assert("HOK_COMMAND"@.len() != "HOK_BUCKETS_DIR"@.len());
    assert("HOK_COMMAND"@.len() != "HOK_MODULES_DIR"@.len());
    assert("HOK_COMMAND"@.len() != "HOK_CONFIG_PATH"@.len());
    assert("HOK_COMMAND"@.len() != "HOK_OLD_SCOOP_DIR"@.len());
    assert("HOK_COMMAND"@.len() != "HOK_FILENAMES"@.len());
    assert("HOK_DIR"@.len() != "HOK_ORIGINAL_DIR"@.len());
    assert("HOK_DIR"@.len() != "HOK_PERSIST_DIR"@.len());
    assert("HOK_DIR"@.len() != "HOK_SCOOP_DIR"@.len());
    assert("HOK_DIR"@.len() != "HOK_GLOBAL_DIR"@.len());
    assert("HOK_DIR"@.len() != "HOK_CACHE_DIR"@.len());
    assert("HOK_DIR"@.len() != "HOK_BUCKETS_DIR"@.len());
    assert("HOK_DIR"@.len() != "HOK_MODULES_DIR"@.len());
    assert("HOK_DIR"@.len() != "HOK_CONFIG_PATH"@.len());
    assert("HOK_DIR"@.len() != "HOK_OLD_SCOOP_DIR"@.len());
    assert("HOK_DIR"@.len() != "HOK_FILENAMES"@.len());
    assert("HOK_ORIGINAL_DIR"@.len() != "HOK_PERSIST_DIR"@.len());
    assert("HOK_ORIGINAL_DIR"@.len() != "HOK_SCOOP_DIR"@.len());
    assert("HOK_ORIGINAL_DIR"@.len() != "HOK_GLOBAL_DIR"@.len());
    assert("HOK_ORIGINAL_DIR"@.len() != "HOK_CACHE_DIR"@.len());
    assert("HOK_ORIGINAL_DIR"@.len() != "HOK_BUCKETS_DIR"@.len());
    assert("HOK_ORIGINAL_DIR"@.len() != "HOK_MODULES_DIR"@.len());
    assert("HOK_ORIGINAL_DIR"@.len() != "HOK_CONFIG_PATH"@.len());
    assert("HOK_ORIGINAL_DIR"@.len() != "HOK_OLD_SCOOP_DIR"@.len());
    assert("HOK_ORIGINAL_DIR"@.len() != "HOK_FILENAMES"@.len());
    assert("HOK_PERSIST_DIR"@.len() != "HOK_SCOOP_DIR"@.len());
    assert("HOK_PERSIST_DIR"@.len() != "HOK_GLOBAL_DIR"@.len());
    assert("HOK_PERSIST_DIR"@.len() != "HOK_CACHE_DIR"@.len());
    assert("HOK_PERSIST_DIR"@[4] != "HOK_BUCKETS_DIR"@[4]);
    assert("HOK_PERSIST_DIR"@[4] != "HOK_MODULES_DIR"@[4]);
    assert("HOK_PERSIST_DIR"@[4] != "HOK_CONFIG_PATH"@[4]);
    assert("HOK_PERSIST_DIR"@.len() != "HOK_OLD_SCOOP_DIR"@.len());
    assert("HOK_PERSIST_DIR"@.len() != "HOK_FILENAMES"@.len());
    assert("HOK_SCOOP_DIR"@.len() != "HOK_GLOBAL_DIR"@.len());
    assert("HOK_SCOOP_DIR"@[4] != "HOK_CACHE_DIR"@[4]);
    assert("HOK_SCOOP_DIR"@.len() != "HOK_BUCKETS_DIR"@.len());
    assert("HOK_SCOOP_DIR"@.len() != "HOK_MODULES_DIR"@.len());
    assert("HOK_SCOOP_DIR"@.len() != "HOK_CONFIG_PATH"@.len());
    assert("HOK_SCOOP_DIR"@.len() != "HOK_OLD_SCOOP_DIR"@.len());
    assert("HOK_SCOOP_DIR"@[4] != "HOK_FILENAMES"@[4]);
    assert("HOK_GLOBAL_DIR"@.len() != "HOK_CACHE_DIR"@.len());
    assert("HOK_GLOBAL_DIR"@.len() != "HOK_BUCKETS_DIR"@.len());
    assert("HOK_GLOBAL_DIR"@.len() != "HOK_MODULES_DIR"@.len());
    assert("HOK_GLOBAL_DIR"@.len() != "HOK_CONFIG_PATH"@.len());
    assert("HOK_GLOBAL_DIR"@.len() != "HOK_OLD_SCOOP_DIR"@.len());
    assert("HOK_GLOBAL_DIR"@.len() != "HOK_FILENAMES"@.len());
    assert("HOK_CACHE_DIR"@.len() != "HOK_BUCKETS_DIR"@.len());
    assert("HOK_CACHE_DIR"@.len() != "HOK_MODULES_DIR"@.len());
    assert("HOK_CACHE_DIR"@.len() != "HOK_CONFIG_PATH"@.len());
    assert("HOK_CACHE_DIR"@.len() != "HOK_OLD_SCOOP_DIR"@.len());
    assert("HOK_CACHE_DIR"@[4] != "HOK_FILENAMES"@[4]);
    assert("HOK_BUCKETS_DIR"@[4] != "HOK_MODULES_DIR"@[4]);
    assert("HOK_BUCKETS_DIR"@[4] != "HOK_CONFIG_PATH"@[4]);
    assert("HOK_BUCKETS_DIR"@.len() != "HOK_OLD_SCOOP_DIR"@.len());
    assert("HOK_BUCKETS_DIR"@.len() != "HOK_FILENAMES"@.len());
    assert("HOK_MODULES_DIR"@[4] != "HOK_CONFIG_PATH"@[4]);
    assert("HOK_MODULES_DIR"@.len() != "HOK_OLD_SCOOP_DIR"@.len());
    assert("HOK_MODULES_DIR"@.len() != "HOK_FILENAMES"@.len());
    assert("HOK_CONFIG_PATH"@.len() != "HOK_OLD_SCOOP_DIR"@.len());
    assert("HOK_CONFIG_PATH"@.len() != "HOK_FILENAMES"@.len());
    assert("HOK_OLD_SCOOP_DIR"@.len() != "HOK_FILENAMES"@.len());
}

/// A hook script finds each thing that it is told in the variable of its name, and no
/// variable is set twice.
#[verifier::rlimit(50)]
pub proof fn hook_variables_hold_what_they_name(
    context: HookContext,
    package: Package,
    host: HostVariables,
    filenames: Seq<char>,
)
    ensures
        ({
            let on = context.platform;
            let environment = environment_of(context, package, host, filenames);
            &&& environment.len() == 15
            &&& value_of(environment, "HOK_APP"@) == Some(
                package.name@,
            )
            &&& value_of(environment, "HOK_VERSION"@) == Some(
                package.version@,
            )
            &&& value_of(environment, "HOK_ARCHITECTURE"@) == Some(
                context.architecture@,
            )
            &&& value_of(environment, "HOK_COMMAND"@) == Some(
                context.command@,
            )
            &&& value_of(environment, "HOK_DIR"@) == Some(
                context.dir@,
            )
            &&& value_of(environment, "HOK_ORIGINAL_DIR"@) == Some(
                context.original_dir@,
            )
            &&& value_of(environment, "HOK_PERSIST_DIR"@) == Some(
                context.persist_dir@,
            )
            &&& value_of(environment, "HOK_SCOOP_DIR"@) == Some(
                context.root_dir@,
            )
            &&& value_of(environment, "HOK_GLOBAL_DIR"@) == Some(
                match (host.scoop_global, host.program_data) {
                    (Some(dir), _) => dir@,
                    (None, Some(data)) => join_of(on, data@, "scoop"@),
                    (None, None) => "C:\\ProgramData\\scoop"@,
                },
            )
            &&& value_of(environment, "HOK_CACHE_DIR"@) == Some(
                context.cache_dir@,
            )
            &&& value_of(environment, "HOK_BUCKETS_DIR"@) == Some(
                join_of(on, context.root_dir@, "buckets"@),
            )
            &&& value_of(environment, "HOK_MODULES_DIR"@) == Some(
                join_of(on, context.root_dir@, "modules"@),
            )
            &&& value_of(environment, "HOK_CONFIG_PATH"@) == Some(
                context.config_path@,
            )
            &&& value_of(environment, "HOK_OLD_SCOOP_DIR"@) == Some(
                match host.local_app_data {
                    Some(data) => join_of(on, data@, "scoop"@),
                    None => join_of(on, Seq::empty(), "scoop"@),
                },
            )
            &&& value_of(environment, "HOK_FILENAMES"@) == Some(
                filenames,
            )
        }),
{
    let environment = environment_of(context, package, host, filenames);
    lemma_names_distinct(context, package, host, filenames);
    lemma_value(environment, 0);
    lemma_value(environment, 1);
    lemma_value(environment, 2);
    lemma_value(environment, 3);
    lemma_value(environment, 4);
    lemma_value(environment, 5);
    lemma_value(environment, 6);
    lemma_value(environment, 7);
    lemma_value(environment, 8);
    lemma_value(environment, 9);
    lemma_value(environment, 10);
    lemma_value(environment, 11);
    lemma_value(environment, 12);
    lemma_value(environment, 13);
    lemma_value(environment, 14);
}

/// Texts that are joined stand one after the other: a single one stands alone, and
/// joining two lists together is joining each and putting the separator between.
pub proof fn joined_texts_follow_each_other(
    a: Seq<Seq<char>>,
    b: Seq<Seq<char>>,
    text: Seq<char>,
    separator: Seq<char>,
)
    ensures
        joined(seq![text], separator) == text,
        joined(Seq::empty(), separator) == Seq::<char>::empty(),
        a.len() > 0 && b.len() > 0 ==> joined(a + b, separator) == joined(a, separator) + separator
            + joined(b, separator),
    decreases b.len(),
{
    if a.len() > 0 && b.len() > 0 {
        let both = a + b;
        assert(both.drop_last() =~= a + b.drop_last());
        assert(both.last() == b.last());
        if b.len() == 1 {
            assert(both.drop_last() =~= a);
            assert(joined(b, separator) == b[0]);
        } else {
            joined_texts_follow_each_other(a, b.drop_last(), text, separator);
            assert(joined(both, separator) =~= joined(a, separator) + separator + joined(
                b,
                separator,
            ));
        }
    }
}

/// Whether a text ends with another one.
pub open spec fn ends_with(text: Seq<char>, end: Seq<char>) -> bool {
    end.len() <= text.len() && text.skip(text.len() - end.len()) == end
}

/// Whether a package runs some lines at a hook: there is a script, it ends with exactly
/// these lines, and it is labelled with the package and the name of the hook.
pub open spec fn runs_lines(
    package: Package,
    hook: Hook,
    context: HookContext,
    host: HostVariables,
    lines: Seq<Seq<char>>,
    name: Seq<char>,
) -> bool {
    &&& hook_script(package, hook, context, host) matches Ok(Some(script))
    &&& ends_with(
        script.source,
        "' | ConvertFrom-Json\r\n"@ + joined(lines, "\r\n"@) + "\r\n"@,
    )
    &&& script.label == package.name@ + "-"@ + name
}

/// Each hook runs the lines that the manifest has under its name, as long as the URLs of
/// the package name files. A hook has no script only where the manifest has no lines
/// under its name.
pub proof fn hooks_run_their_lines(
    package: Package,
    context: HookContext,
    host: HostVariables,
    lines: Vec<String>,
)
    requires
        forall|i: int|
            0 <= i < package.manifest.url@.len() ==> artifact_of(
                (#[trigger] package.manifest.url@[i])@,
            ) is Some,
    ensures
        package.manifest.pre_install == Some(lines) ==> runs_lines(
            package,
            Hook::PreInstall,
            context,
            host,
            views(lines@),
            "pre_install"@,
        ),
        package.manifest.post_install == Some(lines) ==> runs_lines(
            package,
            Hook::PostInstall,
            context,
            host,
            views(lines@),
            "post_install"@,
        ),
        package.manifest.pre_uninstall == Some(lines) ==> runs_lines(
            package,
            Hook::PreUninstall,
            context,
            host,
            views(lines@),
            "pre_uninstall"@,
        ),
        package.manifest.post_uninstall == Some(lines) ==> runs_lines(
            package,
            Hook::PostUninstall,
            context,
            host,
            views(lines@),
            "post_uninstall"@,
        ),
        package.manifest.pre_install is None <==> hook_script(
            package,
            Hook::PreInstall,
            context,
            host,
        ) matches Ok(None),
        package.manifest.post_install is None <==> hook_script(
            package,
            Hook::PostInstall,
            context,
            host,
        ) matches Ok(None),
        package.manifest.pre_uninstall is None <==> hook_script(
            package,
            Hook::PreUninstall,
            context,
            host,
        ) matches Ok(None),
        package.manifest.post_uninstall is None <==> hook_script(
            package,
            Hook::PostUninstall,
            context,
            host,
        ) matches Ok(None),
{
    let urls = views(package.manifest.url@);
    assert forall|i: int| 0 <= i < urls.len() implies artifact_of(#[trigger] urls[i]) is Some by {
        assert(urls[i] == package.manifest.url@[i]@);
    }
    urls_name_their_files(urls);
    let end = "' | ConvertFrom-Json\r\n"@ + joined(views(lines@), "\r\n"@) + "\r\n"@;
    let source = source_of(views(lines@), context.manifest_json@);
    let front = POWERSHELL_PRELUDE@ + "\r\n$manifest = '"@ + replaced(
        context.manifest_json@,
        "'"@,
        "''"@,
    );
    assert(source =~= front + end);
    assert(source.skip(source.len() - end.len()) =~= end);
}

/// The script of a hook finds the variables of its package, and the names of the files
/// that the URLs stand for, one for each URL and in order.
pub proof fn hook_scripts_find_their_variables(
    package: Package,
    hook: Hook,
    context: HookContext,
    host: HostVariables,
)
    requires
        hook_script(package, hook, context, host) matches Ok(Some(_)),
    ensures
        ({
            let script = hook_script(package, hook, context, host)->Ok_0->0;
            let urls = package.manifest.url@;
            let names = Seq::new(urls.len(), |i: int| artifact_of(urls[i]@)->0);
            &&& script.environment == environment_of(context, package, host, json_array(names))
            &&& forall|i: int|
                0 <= i < urls.len() ==> artifact_of((#[trigger] urls[i])@) is Some
        }),
{
    let urls = package.manifest.url@;
    let texts = views(urls);
    urls_name_their_files(texts);
    let names = Seq::new(urls.len(), |i: int| artifact_of(urls[i]@)->0);
    assert forall|i: int| 0 <= i < urls.len() implies #[trigger] names[i] == artifacts_of(
        texts,
    )->Ok_0[i] by {
        assert(artifact_of(texts[i]) == Some(artifacts_of(texts)->Ok_0[i]));
    }
    assert(artifacts_of(texts)->Ok_0 =~= names);
    assert forall|i: int| 0 <= i < urls.len() implies artifact_of((#[trigger] urls[i])@) is Some by {
        assert(artifact_of(texts[i]) is Some);
    }
}

/// A list of URLs gives one file name for each URL, in order, exactly where each of them
/// names a file.
pub proof fn urls_name_their_files(urls: Seq<Seq<char>>)
    ensures
        artifacts_of(urls) is Ok <==> forall|i: int|
            0 <= i < urls.len() ==> artifact_of(#[trigger] urls[i]) is Some,
        artifacts_of(urls) matches Ok(names) ==> names.len() == urls.len() && forall|i: int|
            0 <= i < urls.len() ==> artifact_of(#[trigger] urls[i]) == Some(names[i]),
    decreases urls.len(),
{
    if urls.len() > 0 {
        let shorter = urls.drop_last();
        urls_name_their_files(shorter);
        assert(urls[urls.len() - 1] == urls.last());
        assert forall|i: int| 0 <= i < shorter.len() implies #[trigger] urls[i] == shorter[i] by {}
        if artifacts_of(shorter) is Err {
            let i = choose|i: int|
                0 <= i < shorter.len() && !(artifact_of(#[trigger] shorter[i]) is Some);
            assert(urls[i] == shorter[i]);
        } else {
            assert forall|i: int| 0 <= i < urls.len() && artifacts_of(urls) is Ok implies
                artifact_of(#[trigger] urls[i]) == Some(artifacts_of(urls)->Ok_0[i]) by {
                if i < shorter.len() {
                    assert(artifact_of(shorter[i]) == Some(artifacts_of(shorter)->Ok_0[i]));
                }
            }
        }
    }
}

/// The first URL that names no file is told.
pub proof fn nameless_urls_are_told(urls: Seq<Seq<char>>, k: int)
    requires
        0 <= k < urls.len(),
        forall|i: int| 0 <= i < k ==> artifact_of(#[trigger] urls[i]) is Some,
        artifact_of(urls[k]) is None,
    ensures
        artifacts_of(urls) == Err::<Seq<Seq<char>>, ErrorView>(
            ErrorView::Custom("could not determine filename from '"@ + urls[k] + "'"@),
        ),
    decreases urls.len(),
{
    let shorter = urls.drop_last();
    if k < urls.len() - 1 {
        assert(shorter[k] == urls[k]);
        nameless_urls_are_told(shorter, k);
    } else {
        urls_name_their_files(shorter);
        assert forall|i: int| 0 <= i < shorter.len() implies artifact_of(
            #[trigger] shorter[i],
        ) is Some by {
            assert(artifact_of(urls[i]) is Some);
        }
    }
}

/// The text in front of the first of some characters.
proof fn lemma_before(a: Seq<char>, c: char, b: Seq<char>)
    requires
        !a.contains(c),
    ensures
        before_first(a + seq![c] + b, c) == a,
        before_first(a, c) == a,
        (a + seq![c] + b).index_of_first(c) == Some(a.len() as int),
        a.index_of_first(c) is None,
{
    let s = a + seq![c] + b;
    s.index_of_first_ensures(c);
    a.index_of_first_ensures(c);
    assert(s[a.len() as int] == c);
    assert(s.contains(c));
    let i = s.index_of_first(c)->0;
    if i < a.len() {
        assert(a[i] == s[i]);
        assert(a.contains(c));
    }
    assert(s.take(a.len() as int) =~= a);
}

/// The text behind the last of some characters.
proof fn lemma_behind(a: Seq<char>, c: char, b: Seq<char>)
    requires
        !b.contains(c),
    ensures
        after_last(a + seq![c] + b, c) == b,
        after_last(b, c) == b,
{
    let s = a + seq![c] + b;
    s.index_of_last_ensures(c);
    b.index_of_last_ensures(c);
    assert(s[a.len() as int] == c);
    assert(s.contains(c));
    let i = s.index_of_last(c)->0;
    if i > a.len() {
        assert(b[i - a.len() - 1] == s[i]);
        assert(b.contains(c));
    }
    assert(s.skip(a.len() as int + 1) =~= b);
}

/// A URL stands for the file that its path ends with, whatever the query behind it is;
/// a fragment that ends with a name stands for that name instead.
pub proof fn urls_stand_for_files(base: Seq<char>, name: Seq<char>, query: Seq<char>)
    requires
        name.len() > 0,
        !name.contains('/'),
        !base.contains('#'),
    ensures
        !base.contains('?') && !name.contains('?') && !name.contains('#') ==> artifact_of(
            base + seq!['/'] + name,
        ) == Some(name),
        !name.contains('?') && !name.contains('#') ==> artifact_of(name) == Some(name),
        !base.contains('?') && !name.contains('?') && !name.contains('#') && !query.contains('#')
            ==> artifact_of(base + seq!['/'] + name + seq!['?'] + query) == Some(name),
        artifact_of(base + seq!['#'] + name) == Some(name),
        artifact_of(base + seq!['#'] + (query + seq!['/'] + name)) == Some(name),
{
    let path = base + seq!['/'] + name;
    lemma_behind(base, '/', name);
    lemma_behind(query, '/', name);
    lemma_before(base, '#', name);
    lemma_before(base, '#', query + seq!['/'] + name);
    assert((base + seq!['#'] + name).skip(base.len() as int + 1) =~= name);
    assert((base + seq!['#'] + (query + seq!['/'] + name)).skip(base.len() as int + 1) =~= query + seq![
        '/',
    ] + name);
    if !name.contains('?') && !name.contains('#') {
        lemma_before(name, '?', query);
        lemma_before(name, '#', query);
        if !base.contains('?') {
            lemma_lacks(base, name, '?');
            lemma_lacks(base, name, '#');
            lemma_before(path, '?', query);
            lemma_before(path, '#', query);
            if !query.contains('#') {
                let whole = path + seq!['?'] + query;
                assert(!whole.contains('#')) by {
                    if whole.contains('#') {
                        let i = choose|i: int| 0 <= i < whole.len() && whole[i] == '#';
                        if i < path.len() {
                            assert(path[i] == '#');
                        } else if i > path.len() {
                            assert(query[i - path.len() - 1] == '#');
                        }
                    }
                }
                whole.index_of_first_ensures('#');
            }
        }
    }
}

/// A text of two parts lacks what both lack.
proof fn lemma_lacks(a: Seq<char>, b: Seq<char>, c: char)
    requires
        !a.contains(c),
        !b.contains(c),
        c != '/',
    ensures
        !(a + seq!['/'] + b).contains(c),
{
    let s = a + seq!['/'] + b;
    if s.contains(c) {
        let i = choose|i: int| 0 <= i < s.len() && s[i] == c;
        if i < a.len() {
            assert(a[i] == c);
        } else if i > a.len() {
            assert(b[i - a.len() - 1] == c);
        }
    }
}

/// Each variable of a manifest is written out with the value of its name, as long as the
/// values hold no sign that a variable could start with.
pub proof fn variables_are_those_of_the_package(
    context: HookContext,
    version: Seq<char>,
    name: Seq<char>,
    tail: Seq<char>,
)
    requires
        is_plain(context.original_dir@),
        is_plain(context.persist_dir@),
        is_plain(context.architecture@),
        is_plain(version),
        is_plain(name),
        is_plain(context.command@),
    ensures
        ({
            let rest = expansion(context, version, name, tail);
            &&& expansion(context, version, name, "$original_dir"@ + tail) == context.original_dir@
                + rest
            &&& expansion(context, version, name, "$persist_dir"@ + tail) == context.persist_dir@
                + rest
            &&& expansion(context, version, name, "$architecture"@ + tail) == context.architecture@
                + rest
            &&& expansion(context, version, name, "$version"@ + tail) == version + rest
            &&& expansion(context, version, name, "$app"@ + tail) == name + rest
            &&& expansion(context, version, name, "$cmd"@ + tail) == context.command@ + rest
            &&& expansion(context, version, name, "$global"@ + tail) == "$false"@ + rest
            &&& expansion(context, version, name, "$dir"@ + tail) == context.dir@ + rest
        }),
{
    variables_expand_to_their_values(context, version, name, 0, tail);
    variables_expand_to_their_values(context, version, name, 1, tail);
    variables_expand_to_their_values(context, version, name, 2, tail);
    variables_expand_to_their_values(context, version, name, 3, tail);
    variables_expand_to_their_values(context, version, name, 4, tail);
    variables_expand_to_their_values(context, version, name, 5, tail);
    variables_expand_to_their_values(context, version, name, 6, tail);
    variables_expand_to_their_values(context, version, name, 7, tail);
}

/// A hook script starts with what every script starts with, then holds the manifest as a
/// literal that reads back as its text, and then the lines of the hook.
pub proof fn hook_scripts_hold_the_manifest(lines: Seq<Seq<char>>, manifest: Seq<char>)
    requires
        forall|i: int|
            0 <= i < manifest.len() && is_quote(#[trigger] manifest[i]) ==> manifest[i] == '\'',
    ensures
        ({
            let source = source_of(lines, manifest);
            let front = POWERSHELL_PRELUDE@ + "\r\n$manifest = '"@;
            &&& front.len() <= source.len()
            &&& source.take(front.len() as int) == front
            &&& read_literal(source.skip(front.len() as int)) == Some(
                (manifest, " | ConvertFrom-Json\r\n"@ + joined(lines, "\r\n"@) + "\r\n"@),
            )
        }),
{
    let source = source_of(lines, manifest);
    let front = POWERSHELL_PRELUDE@ + "\r\n$manifest = '"@;
    let behind = " | ConvertFrom-Json\r\n"@ + joined(lines, "\r\n"@) + "\r\n"@;
    reveal_strlit("'");
    reveal_strlit("' | ConvertFrom-Json\r\n");
    reveal_strlit(" | ConvertFrom-Json\r\n");
    assert("' | ConvertFrom-Json\r\n"@ =~= "'"@ + " | ConvertFrom-Json\r\n"@);
    assert(behind[0] == ' ');
    quoted_manifest_reads_back(manifest, behind);
    assert(source =~= front + (replaced(manifest, "'"@, "''"@) + "'"@ + behind));
    assert(source.take(front.len() as int) =~= front);
    assert(source.skip(front.len() as int) =~= replaced(manifest, "'"@, "''"@) + "'"@ + behind);
}

/// A script is run from the file that it was written to, with the variables that it was
/// given: the file holds a byte order mark and the text in UTF-8, the program of the
/// platform gets it behind `-File`, and the same file is removed.
pub proof fn scripts_run_from_their_file(
    file_name: Seq<char>,
    source: Seq<char>,
    environment: Seq<(Seq<char>, Seq<char>)>,
    on: Platform,
)
    ensures
        ({
            let steps = powershell_steps(file_name, source, environment, on);
            &&& steps.len() == 3
            &&& steps[0] matches PowershellActionView::Write { file_name: written, bytes }
            &&& written == file_name
            &&& bytes.take(3) == seq![0xEFu8, 0xBBu8, 0xBFu8]
            &&& bytes.skip(3) == vstd::utf8::encode_utf8(source)
            &&& steps[1] matches PowershellActionView::Run {
                executable,
                arguments,
                file_name: run,
                environment: given,
            }
            &&& run == file_name
            &&& given == environment
            &&& executable == match on {
                Platform::Windows => "powershell.exe"@,
                Platform::Unix => "pwsh"@,
            }
            &&& arguments == seq![
                "-NoLogo"@,
                "-NoProfile"@,
                "-NonInteractive"@,
                "-ExecutionPolicy"@,
                "Bypass"@,
                "-File"@,
            ]
            &&& steps[2] == (PowershellActionView::Remove { file_name })
        }),
{
    let bytes = powershell_steps(file_name, source, environment, on)[0]->bytes;
    assert(bytes.take(3) =~= seq![0xEFu8, 0xBBu8, 0xBFu8]);
    assert(bytes.skip(3) =~= vstd::utf8::encode_utf8(source));
}

/// A script file is named after what it is for: the label stands behind a fixed start,
/// and the extension is that of scripts.
pub proof fn script_files_are_labelled(label: Seq<char>, process_id: nat, script_id: nat)
    ensures
        ({
            let name = script_file_of(label, process_id, script_id);
            &&& ends_with(name, ".ps1"@)
            &&& 4 + label.len() <= name.len()
            &&& name.take(4 + label.len() as int) == "hok-"@ + label
        }),
{
    reveal_strlit("hok-");
    reveal_strlit(".ps1");
    let name = script_file_of(label, process_id, script_id);
    assert(name.skip(name.len() - 4) =~= ".ps1"@);
    assert(name.take(4 + label.len() as int) =~= "hok-"@ + label);
}

/// A run succeeds exactly where the program was started and reported success. Otherwise
/// the error names the script, and tells why it did not start or how it ended.
pub proof fn runs_are_judged_by_their_outcome(label: Seq<char>, outcome: Outcome)
    ensures
        failure_of(label, outcome) is None <==> (outcome matches Outcome::Exited { success, .. }
            && success),
        outcome matches Outcome::NotStarted(reason) ==> failure_of(label, outcome) == Some(
            ErrorView::Custom("could not start PowerShell for "@ + label + ": "@ + reason@),
        ),
        outcome matches Outcome::Exited { success, status } ==> !success ==> failure_of(
            label,
            outcome,
        ) == Some(ErrorView::Custom("PowerShell for "@ + label + " exited with "@ + status@)),
{
}

/// The error of a hook tells which hook of which package failed, and why.
pub proof fn hook_failures_name_the_hook(name: Seq<char>, error: Seq<char>)
    ensures
        hook_failure(name, Hook::PreInstall, error) == ErrorView::Custom(
            "pre_install"@ + " hook failed for '"@ + name + "': "@ + error,
        ),
        hook_failure(name, Hook::PostInstall, error) == ErrorView::Custom(
            "post_install"@ + " hook failed for '"@ + name + "': "@ + error,
        ),
        hook_failure(name, Hook::PreUninstall, error) == ErrorView::Custom(
            "pre_uninstall"@ + " hook failed for '"@ + name + "': "@ + error,
        ),
        hook_failure(name, Hook::PostUninstall, error) == ErrorView::Custom(
            "post_uninstall"@ + " hook failed for '"@ + name + "': "@ + error,
        ),
{
}

/// The two architectures of sixty-four bits have names of their own; every other one is
/// taken for one of thirty-two bits.
pub proof fn architectures_have_their_names(target: Seq<char>)
    ensures
        architecture_of("x86_64"@) == "64bit"@,
        architecture_of("aarch64"@) == "arm64"@,
        target != "x86_64"@ && target != "aarch64"@ ==> architecture_of(target) == "32bit"@,
{
    reveal_strlit("x86_64");
    reveal_strlit("aarch64");
    assert("x86_64"@.len() != "aarch64"@.len());
}

/// The names of the directories that packages lie in are names.
proof fn lemma_fixed_names(on: Platform)
    ensures
        is_name(on, "apps"@),
        is_name(on, "persist"@),
        !drive_at("apps"@, 0),
        !drive_at("persist"@, 0),
{
    reveal_strlit("apps");
    reveal_strlit("persist");
}

/// The versions of an application lie in its own directory below `apps`.
pub proof fn versions_lie_below_their_application(
    on: Platform,
    root: Seq<char>,
    name: Seq<char>,
    version: Seq<char>,
)
    requires
        is_regular(on, root),
        is_name(on, name),
        is_name(on, version),
        on is Windows ==> !drive_at(name, 0) && !drive_at(version, 0),
    ensures
        components_of(on, app_dir_of(on, root, name, version)) == components_of(on, root)
            + root_for_name(on, root) + seq![
            ComponentView::Normal("apps"@),
            ComponentView::Normal(name),
            ComponentView::Normal(version),
        ],
        is_regular(on, app_dir_of(on, root, name, version)),
{
    lemma_fixed_names(on);
    let apps = join_of(on, root, "apps"@);
    let own = join_of(on, apps, name);
    join_adds_the_name(on, root, "apps"@);
    join_adds_the_name(on, apps, name);
    join_adds_the_name(on, own, version);
    let start = components_of(on, root) + root_for_name(on, root);
    assert(components_of(on, apps) =~= start.push(ComponentView::Normal("apps"@)));
    assert(components_of(on, own) =~= components_of(on, apps).push(ComponentView::Normal(name)));
    assert(components_of(on, join_of(on, own, version)) =~= components_of(on, own).push(
        ComponentView::Normal(version),
    ));
    assert(components_of(on, app_dir_of(on, root, name, version)) =~= start + seq![
        ComponentView::Normal("apps"@),
        ComponentView::Normal(name),
        ComponentView::Normal(version),
    ]);
}

/// The persistent data of an application lies in its own directory below `persist`,
/// whatever the version.
pub proof fn kept_data_lies_below_its_application(
    on: Platform,
    root: Seq<char>,
    name: Seq<char>,
)
    requires
        is_regular(on, root),
        is_name(on, name),
        on is Windows ==> !drive_at(name, 0),
    ensures
        components_of(on, persist_dir_of(on, root, name)) == components_of(on, root)
            + root_for_name(on, root) + seq![
            ComponentView::Normal("persist"@),
            ComponentView::Normal(name),
        ],
        is_regular(on, persist_dir_of(on, root, name)),
{
    lemma_fixed_names(on);
    let kept = join_of(on, root, "persist"@);
    join_adds_the_name(on, root, "persist"@);
    join_adds_the_name(on, kept, name);
    let start = components_of(on, root) + root_for_name(on, root);
    assert(components_of(on, kept) =~= start.push(ComponentView::Normal("persist"@)));
    assert(components_of(on, persist_dir_of(on, root, name)) =~= start + seq![
        ComponentView::Normal("persist"@),
        ComponentView::Normal(name),
    ]);
}

/// An application is used from one directory for all versions, unless the settings ask
/// for the directory of the version.
pub proof fn used_directory_follows_the_settings(session: Session, package: Package)
    ensures
        ({
            let on = session.platform;
            let own = join_of(
                on,
                join_of(on, session.config.root_path@, "apps"@),
                package.name@,
            );
            &&& session.config.no_junction ==> used_dir_of(session, package) == join_of(
                on,
                own,
                package.version@,
            )
            &&& !session.config.no_junction ==> used_dir_of(session, package) == join_of(
                on,
                own,
                "current"@,
            )
        }),
{
}

/// The number that a row of decimal digits stands for.
pub open spec fn read_decimal(text: Seq<char>) -> int
    decreases text.len(),
{
    if text.len() == 0 {
        0
    } else {
        10 * read_decimal(text.drop_last()) + (text.last() as int - '0' as int)
    }
}

/// A number that is written in decimal reads back as it is, and starts with no zero that
/// could be left out.
pub proof fn decimals_read_back(n: nat)
    ensures
        read_decimal(decimal(n)) == n,
        decimal(n).len() > 0,
        n > 0 ==> decimal(n)[0] != '0',
    decreases n,
{
    lemma_digit(n % 10);
    if n < 10 {
        lemma_digit(n);
        assert(decimal(n).drop_last() =~= Seq::<char>::empty());
        assert(read_decimal(decimal(n).drop_last()) == 0);
    } else {
        decimals_read_back(n / 10);
        assert(decimal(n).drop_last() =~= decimal(n / 10));
        assert(decimal(n)[0] == decimal(n / 10)[0]);
    }
}

/// A fragment that ends with no name does not count, and a path that ends with no name
/// stands for no file.
pub proof fn nameless_urls_stand_for_nothing(base: Seq<char>, fragment: Seq<char>)
    requires
        !base.contains('#'),
    ensures
        fragment.len() == 0 || fragment.last() == '/' ==> artifact_of(
            base + seq!['#'] + fragment,
        ) == artifact_of(base),
        !base.contains('?') ==> artifact_of(base + seq!['/']) is None,
        artifact_of(Seq::empty()) is None,
{
    let url = base + seq!['#'] + fragment;
    lemma_before(base, '#', fragment);
    assert(url.skip(base.len() as int + 1) =~= fragment);
    let none = Seq::<char>::empty();
    none.index_of_first_ensures('#');
    none.index_of_first_ensures('?');
    none.index_of_last_ensures('/');
    if fragment.len() == 0 {
        assert(fragment =~= none);
        assert(after_last(fragment, '/') =~= none);
    } else if fragment.last() == '/' {
        let front = fragment.drop_last();
        assert(fragment =~= front + seq!['/'] + none);
        lemma_behind(front, '/', none);
    }
    base.index_of_first_ensures('?');
    url.index_of_first_ensures('?');
    if base.contains('?') {
        let i = base.index_of_first('?')->0;
        let front = base.take(i);
        assert(url[i] == '?');
        assert(url.contains('?'));
        let j = url.index_of_first('?')->0;
        if j < i {
            assert(base[j] == url[j]);
        }
        assert(url.take(i) =~= front);
        assert(before_first(url, '?') == before_first(base, '?'));
    } else {
        assert(before_first(base, '?') == base);
        if url.contains('?') {
            let j = url.index_of_first('?')->0;
            if j < base.len() {
                assert(base[j] == '?');
                assert(base.contains('?'));
            }
            let rest = fragment.take(j - base.len() - 1);
            assert(url.take(j) =~= base + seq!['#'] + rest);
            lemma_before(base, '#', rest);
            assert(before_first(before_first(url, '?'), '#') == base);
        } else {
            assert(before_first(url, '?') == url);
            assert(before_first(before_first(url, '?'), '#') == base);
        }
        let path = base + seq!['/'];
        lemma_lacks(base, none, '?');
        lemma_lacks(base, none, '#');
        assert(path =~= base + seq!['/'] + none);
        lemma_before(path, '?', none);
        lemma_before(path, '#', none);
        lemma_behind(base, '/', none);
    }
}

/// Whether a text stands somewhere in another one.
pub open spec fn holds_text(text: Seq<char>, part: Seq<char>) -> bool {
    exists|i: int|
        0 <= i <= text.len() - part.len() && #[trigger] text.subrange(i, i + part.len()) == part
}

/// A text that stands at a position stands somewhere.
pub proof fn lemma_part(text: Seq<char>, i: int, part: Seq<char>)
    requires
        0 <= i <= text.len() - part.len(),
        text.subrange(i, i + part.len()) == part,
    ensures
        holds_text(text, part),
{
}

/// What every hook script starts with stops at the first error, takes what the script is
/// told from the variables that it finds set, defines the functions that package authors
/// rely on, and goes to the directory of the application where that exists.
#[verifier::rlimit(100)]
pub proof fn the_prelude_reads_every_variable()
    ensures
        holds_text(POWERSHELL_PRELUDE@, "$ErrorActionPreference = 'Stop'\n"@),
        holds_text(POWERSHELL_PRELUDE@, "$ProgressPreference = 'SilentlyContinue'\n"@),
        holds_text(
            POWERSHELL_PRELUDE@,
            "[Console]::OutputEncoding = [System.Text.UTF8Encoding]::new($false)\n"@,
        ),
        holds_text(POWERSHELL_PRELUDE@, "$OutputEncoding = [System.Text.UTF8Encoding]::new($false)\n"@),
        holds_text(POWERSHELL_PRELUDE@, "$app = $env:HOK_APP\n"@),
        holds_text(POWERSHELL_PRELUDE@, "$version = $env:HOK_VERSION\n"@),
        holds_text(POWERSHELL_PRELUDE@, "$architecture = $env:HOK_ARCHITECTURE\n"@),
        holds_text(POWERSHELL_PRELUDE@, "$cmd = $env:HOK_COMMAND\n"@),
        holds_text(POWERSHELL_PRELUDE@, "$global = $false\n"@),
        holds_text(POWERSHELL_PRELUDE@, "$dir = $env:HOK_DIR\n"@),
        holds_text(POWERSHELL_PRELUDE@, "$original_dir = $env:HOK_ORIGINAL_DIR\n"@),
        holds_text(POWERSHELL_PRELUDE@, "$persist_dir = $env:HOK_PERSIST_DIR\n"@),
        holds_text(POWERSHELL_PRELUDE@, "$scoopdir = $env:HOK_SCOOP_DIR\n"@),
        holds_text(POWERSHELL_PRELUDE@, "$globaldir = $env:HOK_GLOBAL_DIR\n"@),
        holds_text(POWERSHELL_PRELUDE@, "$cachedir = $env:HOK_CACHE_DIR\n"@),
        holds_text(POWERSHELL_PRELUDE@, "$bucketsdir = $env:HOK_BUCKETS_DIR\n"@),
        holds_text(POWERSHELL_PRELUDE@, "$modulesdir = $env:HOK_MODULES_DIR\n"@),
        holds_text(POWERSHELL_PRELUDE@, "$cfgpath = $env:HOK_CONFIG_PATH\n"@),
        holds_text(POWERSHELL_PRELUDE@, "$oldscoopdir = $env:HOK_OLD_SCOOP_DIR\n"@),
        holds_text(
            POWERSHELL_PRELUDE@,
            "$cfg = if (Test-Path -LiteralPath $cfgpath) { Get-Content -LiteralPath $cfgpath -Raw -Encoding UTF8 | ConvertFrom-Json } else { [pscustomobject]@{} }\n"@,
        ),
        holds_text(POWERSHELL_PRELUDE@, "$fname = @($env:HOK_FILENAMES | ConvertFrom-Json)\n"@),
        holds_text(POWERSHELL_PRELUDE@, "if ($fname.Count -eq 1) { $fname = $fname[0] }\n"@),
        holds_text(POWERSHELL_PRELUDE@, "function appdir($name, $isGlobal = $false) {\n"@),
        holds_text(
            POWERSHELL_PRELUDE@,
            "    $base = if ($isGlobal) { $globaldir } else { $scoopdir }\n"@,
        ),
        holds_text(POWERSHELL_PRELUDE@, "    Join-Path (Join-Path $base 'apps') $name\n"@),
        holds_text(
            POWERSHELL_PRELUDE@,
            "function versiondir($name, $targetVersion, $isGlobal = $false) {\n"@,
        ),
        holds_text(POWERSHELL_PRELUDE@, "    Join-Path (appdir $name $isGlobal) $targetVersion\n"@),
        holds_text(POWERSHELL_PRELUDE@, "function persistdir($name, $isGlobal = $false) {\n"@),
        holds_text(POWERSHELL_PRELUDE@, "    Join-Path (Join-Path $base 'persist') $name\n"@),
        holds_text(POWERSHELL_PRELUDE@, "function ensure($path) {\n"@),
        holds_text(
            POWERSHELL_PRELUDE@,
            "    if (!(Test-Path -LiteralPath $path)) { New-Item -ItemType Directory -Path $path -Force | Out-Null }\n"@,
        ),
        holds_text(POWERSHELL_PRELUDE@, "    Convert-Path -LiteralPath $path\n"@),
        holds_text(POWERSHELL_PRELUDE@, "function fname($path) { Split-Path -Leaf $path }\n"@),
        holds_text(
            POWERSHELL_PRELUDE@,
            "function strip_ext($path) { [System.IO.Path]::GetFileNameWithoutExtension($path) }\n"@,
        ),
        holds_text(POWERSHELL_PRELUDE@, "function info { Write-Host ($args -join ' ') }\n"@),
        holds_text(POWERSHELL_PRELUDE@, "function warn { Write-Warning ($args -join ' ') }\n"@),
        holds_text(POWERSHELL_PRELUDE@, "function error { Write-Error ($args -join ' ') }\n"@),
        holds_text(
            POWERSHELL_PRELUDE@,
            "function success { Write-Host ($args -join ' ') -ForegroundColor Green }\n"@,
        ),
        holds_text(POWERSHELL_PRELUDE@, "function abort { throw ($args -join ' ') }\n"@),
        ends_with(
            POWERSHELL_PRELUDE@,
            "if (Test-Path -LiteralPath $dir) { Set-Location -LiteralPath $dir }\n"@,
        ),
{
    let text = POWERSHELL_PRELUDE@;
    reveal_strlit(
        r#"$ErrorActionPreference = 'Stop'
$ProgressPreference = 'SilentlyContinue'
[Console]::OutputEncoding = [System.Text.UTF8Encoding]::new($false)
$OutputEncoding = [System.Text.UTF8Encoding]::new($false)

$app = $env:HOK_APP
$version = $env:HOK_VERSION
$architecture = $env:HOK_ARCHITECTURE
$cmd = $env:HOK_COMMAND
$global = $false
$dir = $env:HOK_DIR
$original_dir = $env:HOK_ORIGINAL_DIR
$persist_dir = $env:HOK_PERSIST_DIR
$scoopdir = $env:HOK_SCOOP_DIR
$globaldir = $env:HOK_GLOBAL_DIR
$cachedir = $env:HOK_CACHE_DIR
$bucketsdir = $env:HOK_BUCKETS_DIR
$modulesdir = $env:HOK_MODULES_DIR
$cfgpath = $env:HOK_CONFIG_PATH
$oldscoopdir = $env:HOK_OLD_SCOOP_DIR
$cfg = if (Test-Path -LiteralPath $cfgpath) { Get-Content -LiteralPath $cfgpath -Raw -Encoding UTF8 | ConvertFrom-Json } else { [pscustomobject]@{} }
$fname = @($env:HOK_FILENAMES | ConvertFrom-Json)
if ($fname.Count -eq 1) { $fname = $fname[0] }

function appdir($name, $isGlobal = $false) {
    $base = if ($isGlobal) { $globaldir } else { $scoopdir }
    Join-Path (Join-Path $base 'apps') $name
}
function versiondir($name, $targetVersion, $isGlobal = $false) {
    Join-Path (appdir $name $isGlobal) $targetVersion
}
function persistdir($name, $isGlobal = $false) {
    $base = if ($isGlobal) { $globaldir } else { $scoopdir }
    Join-Path (Join-Path $base 'persist') $name
}
function ensure($path) {
    if (!(Test-Path -LiteralPath $path)) { New-Item -ItemType Directory -Path $path -Force | Out-Null }
    Convert-Path -LiteralPath $path
}
function fname($path) { Split-Path -Leaf $path }
function strip_ext($path) { [System.IO.Path]::GetFileNameWithoutExtension($path) }
function info { Write-Host ($args -join ' ') }
function warn { Write-Warning ($args -join ' ') }
function error { Write-Error ($args -join ' ') }
function success { Write-Host ($args -join ' ') -ForegroundColor Green }
function abort { throw ($args -join ' ') }

if (Test-Path -LiteralPath $dir) { Set-Location -LiteralPath $dir }
"#,
    );
    reveal_strlit("$ErrorActionPreference = 'Stop'\n");
    assert(text.subrange(0, 32)
        =~= "$ErrorActionPreference = 'Stop'\n"@);
    lemma_part(text, 0, "$ErrorActionPreference = 'Stop'\n"@);
    reveal_strlit("$ProgressPreference = 'SilentlyContinue'\n");
    assert(text.subrange(32, 73)
        =~= "$ProgressPreference = 'SilentlyContinue'\n"@);
    lemma_part(text, 32, "$ProgressPreference = 'SilentlyContinue'\n"@);
    reveal_strlit("[Console]::OutputEncoding = [System.Text.UTF8Encoding]::new($false)\n");
    assert(text.subrange(73, 141)
        =~= "[Console]::OutputEncoding = [System.Text.UTF8Encoding]::new($false)\n"@);
    lemma_part(text, 73, "[Console]::OutputEncoding = [System.Text.UTF8Encoding]::new($false)\n"@);
    reveal_strlit("$OutputEncoding = [System.Text.UTF8Encoding]::new($false)\n");
    assert(text.subrange(141, 199)
        =~= "$OutputEncoding = [System.Text.UTF8Encoding]::new($false)\n"@);
    lemma_part(text, 141, "$OutputEncoding = [System.Text.UTF8Encoding]::new($false)\n"@);
    reveal_strlit("$app = $env:HOK_APP\n");
    assert(text.subrange(200, 220)
        =~= "$app = $env:HOK_APP\n"@);
    lemma_part(text, 200, "$app = $env:HOK_APP\n"@);
    reveal_strlit("$version = $env:HOK_VERSION\n");
    assert(text.subrange(220, 248)
        =~= "$version = $env:HOK_VERSION\n"@);
    lemma_part(text, 220, "$version = $env:HOK_VERSION\n"@);
    reveal_strlit("$architecture = $env:HOK_ARCHITECTURE\n");
    assert(text.subrange(248, 286)
        =~= "$architecture = $env:HOK_ARCHITECTURE\n"@);
    lemma_part(text, 248, "$architecture = $env:HOK_ARCHITECTURE\n"@);
    reveal_strlit("$cmd = $env:HOK_COMMAND\n");
    assert(text.subrange(286, 310)
        =~= "$cmd = $env:HOK_COMMAND\n"@);
    lemma_part(text, 286, "$cmd = $env:HOK_COMMAND\n"@);
    reveal_strlit("$global = $false\n");
    assert(text.subrange(310, 327)
        =~= "$global = $false\n"@);
    lemma_part(text, 310, "$global = $false\n"@);
    reveal_strlit("$dir = $env:HOK_DIR\n");
    assert(text.subrange(327, 347)
        =~= "$dir = $env:HOK_DIR\n"@);
    lemma_part(text, 327, "$dir = $env:HOK_DIR\n"@);
    reveal_strlit("$original_dir = $env:HOK_ORIGINAL_DIR\n");
    assert(text.subrange(347, 385)
        =~= "$original_dir = $env:HOK_ORIGINAL_DIR\n"@);
    lemma_part(text, 347, "$original_dir = $env:HOK_ORIGINAL_DIR\n"@);
    reveal_strlit("$persist_dir = $env:HOK_PERSIST_DIR\n");
    assert(text.subrange(385, 421)
        =~= "$persist_dir = $env:HOK_PERSIST_DIR\n"@);
    lemma_part(text, 385, "$persist_dir = $env:HOK_PERSIST_DIR\n"@);
    reveal_strlit("$scoopdir = $env:HOK_SCOOP_DIR\n");
    assert(text.subrange(421, 452)
        =~= "$scoopdir = $env:HOK_SCOOP_DIR\n"@);
    lemma_part(text, 421, "$scoopdir = $env:HOK_SCOOP_DIR\n"@);
    reveal_strlit("$globaldir = $env:HOK_GLOBAL_DIR\n");
    assert(text.subrange(452, 485)
        =~= "$globaldir = $env:HOK_GLOBAL_DIR\n"@);
    lemma_part(text, 452, "$globaldir = $env:HOK_GLOBAL_DIR\n"@);
    reveal_strlit("$cachedir = $env:HOK_CACHE_DIR\n");
    assert(text.subrange(485, 516)
        =~= "$cachedir = $env:HOK_CACHE_DIR\n"@);
    lemma_part(text, 485, "$cachedir = $env:HOK_CACHE_DIR\n"@);
    reveal_strlit("$bucketsdir = $env:HOK_BUCKETS_DIR\n");
    assert(text.subrange(516, 551)
        =~= "$bucketsdir = $env:HOK_BUCKETS_DIR\n"@);
    lemma_part(text, 516, "$bucketsdir = $env:HOK_BUCKETS_DIR\n"@);
    reveal_strlit("$modulesdir = $env:HOK_MODULES_DIR\n");
    assert(text.subrange(551, 586)
        =~= "$modulesdir = $env:HOK_MODULES_DIR\n"@);
    lemma_part(text, 551, "$modulesdir = $env:HOK_MODULES_DIR\n"@);
    reveal_strlit("$cfgpath = $env:HOK_CONFIG_PATH\n");
    assert(text.subrange(586, 618)
        =~= "$cfgpath = $env:HOK_CONFIG_PATH\n"@);
    lemma_part(text, 586, "$cfgpath = $env:HOK_CONFIG_PATH\n"@);
    reveal_strlit("$oldscoopdir = $env:HOK_OLD_SCOOP_DIR\n");
    assert(text.subrange(618, 656)
        =~= "$oldscoopdir = $env:HOK_OLD_SCOOP_DIR\n"@);
    lemma_part(text, 618, "$oldscoopdir = $env:HOK_OLD_SCOOP_DIR\n"@);
    reveal_strlit("$cfg = if (Test-Path -LiteralPath $cfgpath) { Get-Content -LiteralPath $cfgpath -Raw -Encoding UTF8 | ConvertFrom-Json } else { [pscustomobject]@{} }\n");
    assert(text.subrange(656, 806)
        =~= "$cfg = if (Test-Path -LiteralPath $cfgpath) { Get-Content -LiteralPath $cfgpath -Raw -Encoding UTF8 | ConvertFrom-Json } else { [pscustomobject]@{} }\n"@);
    lemma_part(text, 656, "$cfg = if (Test-Path -LiteralPath $cfgpath) { Get-Content -LiteralPath $cfgpath -Raw -Encoding UTF8 | ConvertFrom-Json } else { [pscustomobject]@{} }\n"@);
    reveal_strlit("$fname = @($env:HOK_FILENAMES | ConvertFrom-Json)\n");
    assert(text.subrange(806, 856)
        =~= "$fname = @($env:HOK_FILENAMES | ConvertFrom-Json)\n"@);
    lemma_part(text, 806, "$fname = @($env:HOK_FILENAMES | ConvertFrom-Json)\n"@);
    reveal_strlit("if ($fname.Count -eq 1) { $fname = $fname[0] }\n");
    assert(text.subrange(856, 903)
        =~= "if ($fname.Count -eq 1) { $fname = $fname[0] }\n"@);
    lemma_part(text, 856, "if ($fname.Count -eq 1) { $fname = $fname[0] }\n"@);
    reveal_strlit("function appdir($name, $isGlobal = $false) {\n");
    assert(text.subrange(904, 949)
        =~= "function appdir($name, $isGlobal = $false) {\n"@);
    lemma_part(text, 904, "function appdir($name, $isGlobal = $false) {\n"@);
    reveal_strlit("    $base = if ($isGlobal) { $globaldir } else { $scoopdir }\n");
    assert(text.subrange(949, 1010)
        =~= "    $base = if ($isGlobal) { $globaldir } else { $scoopdir }\n"@);
    lemma_part(text, 949, "    $base = if ($isGlobal) { $globaldir } else { $scoopdir }\n"@);
    reveal_strlit("    Join-Path (Join-Path $base 'apps') $name\n");
    assert(text.subrange(1010, 1055)
        =~= "    Join-Path (Join-Path $base 'apps') $name\n"@);
    lemma_part(text, 1010, "    Join-Path (Join-Path $base 'apps') $name\n"@);
    reveal_strlit("function versiondir($name, $targetVersion, $isGlobal = $false) {\n");
    assert(text.subrange(1057, 1122)
        =~= "function versiondir($name, $targetVersion, $isGlobal = $false) {\n"@);
    lemma_part(text, 1057, "function versiondir($name, $targetVersion, $isGlobal = $false) {\n"@);
    reveal_strlit("    Join-Path (appdir $name $isGlobal) $targetVersion\n");
    assert(text.subrange(1122, 1176)
        =~= "    Join-Path (appdir $name $isGlobal) $targetVersion\n"@);
    lemma_part(text, 1122, "    Join-Path (appdir $name $isGlobal) $targetVersion\n"@);
    reveal_strlit("function persistdir($name, $isGlobal = $false) {\n");
    assert(text.subrange(1178, 1227)
        =~= "function persistdir($name, $isGlobal = $false) {\n"@);
    lemma_part(text, 1178, "function persistdir($name, $isGlobal = $false) {\n"@);
    reveal_strlit("    Join-Path (Join-Path $base 'persist') $name\n");
    assert(text.subrange(1288, 1336)
        =~= "    Join-Path (Join-Path $base 'persist') $name\n"@);
    lemma_part(text, 1288, "    Join-Path (Join-Path $base 'persist') $name\n"@);
    reveal_strlit("function ensure($path) {\n");
    assert(text.subrange(1338, 1363)
        =~= "function ensure($path) {\n"@);
    lemma_part(text, 1338, "function ensure($path) {\n"@);
    reveal_strlit("    if (!(Test-Path -LiteralPath $path)) { New-Item -ItemType Directory -Path $path -Force | Out-Null }\n");
    assert(text.subrange(1363, 1467)
        =~= "    if (!(Test-Path -LiteralPath $path)) { New-Item -ItemType Directory -Path $path -Force | Out-Null }\n"@);
    lemma_part(text, 1363, "    if (!(Test-Path -LiteralPath $path)) { New-Item -ItemType Directory -Path $path -Force | Out-Null }\n"@);
    reveal_strlit("    Convert-Path -LiteralPath $path\n");
    assert(text.subrange(1467, 1503)
        =~= "    Convert-Path -LiteralPath $path\n"@);
    lemma_part(text, 1467, "    Convert-Path -LiteralPath $path\n"@);
    reveal_strlit("function fname($path) { Split-Path -Leaf $path }\n");
    assert(text.subrange(1505, 1554)
        =~= "function fname($path) { Split-Path -Leaf $path }\n"@);
    lemma_part(text, 1505, "function fname($path) { Split-Path -Leaf $path }\n"@);
    reveal_strlit("function strip_ext($path) { [System.IO.Path]::GetFileNameWithoutExtension($path) }\n");
    assert(text.subrange(1554, 1637)
        =~= "function strip_ext($path) { [System.IO.Path]::GetFileNameWithoutExtension($path) }\n"@);
    lemma_part(text, 1554, "function strip_ext($path) { [System.IO.Path]::GetFileNameWithoutExtension($path) }\n"@);
    reveal_strlit("function info { Write-Host ($args -join ' ') }\n");
    assert(text.subrange(1637, 1684)
        =~= "function info { Write-Host ($args -join ' ') }\n"@);
    lemma_part(text, 1637, "function info { Write-Host ($args -join ' ') }\n"@);
    reveal_strlit("function warn { Write-Warning ($args -join ' ') }\n");
    assert(text.subrange(1684, 1734)
        =~= "function warn { Write-Warning ($args -join ' ') }\n"@);
    lemma_part(text, 1684, "function warn { Write-Warning ($args -join ' ') }\n"@);
    reveal_strlit("function error { Write-Error ($args -join ' ') }\n");
    assert(text.subrange(1734, 1783)
        =~= "function error { Write-Error ($args -join ' ') }\n"@);
    lemma_part(text, 1734, "function error { Write-Error ($args -join ' ') }\n"@);
    reveal_strlit("function success { Write-Host ($args -join ' ') -ForegroundColor Green }\n");
    assert(text.subrange(1783, 1856)
        =~= "function success { Write-Host ($args -join ' ') -ForegroundColor Green }\n"@);
    lemma_part(text, 1783, "function success { Write-Host ($args -join ' ') -ForegroundColor Green }\n"@);
    reveal_strlit("function abort { throw ($args -join ' ') }\n");
    assert(text.subrange(1856, 1899)
        =~= "function abort { throw ($args -join ' ') }\n"@);
    lemma_part(text, 1856, "function abort { throw ($args -join ' ') }\n"@);
    reveal_strlit("if (Test-Path -LiteralPath $dir) { Set-Location -LiteralPath $dir }\n");
    assert(text.skip(text.len() - 68)
        =~= "if (Test-Path -LiteralPath $dir) { Set-Location -LiteralPath $dir }\n"@);
}

/// The variables of a manifest are written out in turn: the value of one may hold a
/// variable that comes later, and is then written out too.
pub proof fn variables_are_written_out_in_turn(
    context: HookContext,
    version: Seq<char>,
    name: Seq<char>,
    value: Seq<char>,
)
    ensures
        ({
            let a = replaced(value, "$original_dir"@, context.original_dir@);
            let b = replaced(a, "$persist_dir"@, context.persist_dir@);
            let c = replaced(b, "$architecture"@, context.architecture@);
            let d = replaced(c, "$version"@, version);
            let e = replaced(d, "$app"@, name);
            let f = replaced(e, "$cmd"@, context.command@);
            let g = replaced(f, "$global"@, "$false"@);
            expansion(context, version, name, value) == replaced(g, "$dir"@, context.dir@)
        }),
{
    reveal_with_fuel(replaced_first, 9);
}

/// A hook with lines fails exactly where a URL of its package names no file, and tells
/// the first such URL.
pub proof fn hooks_fail_with_their_urls(
    package: Package,
    hook: Hook,
    context: HookContext,
    host: HostVariables,
    k: int,
)
    requires
        !(hook_script(package, hook, context, host) matches Ok(None)),
        0 <= k < package.manifest.url@.len(),
        forall|i: int|
            0 <= i < k ==> artifact_of((#[trigger] package.manifest.url@[i])@) is Some,
        artifact_of(package.manifest.url@[k]@) is None,
    ensures
        hook_script(package, hook, context, host) matches Err(error) && error
            == ErrorView::Custom(
            "could not determine filename from '"@ + package.manifest.url@[k]@ + "'"@,
        ),
{
    let urls = views(package.manifest.url@);
    assert forall|i: int| 0 <= i < k implies artifact_of(#[trigger] urls[i]) is Some by {
        assert(urls[i] == package.manifest.url@[i]@);
    }
    nameless_urls_are_told(urls, k);
}

/// Scripts are told the directories of their own package in the session: that of the
/// version, the one that the application is used from, and that of the persistent data.
/// The rest is what the session and the caller give.
pub proof fn contexts_locate_the_package(
    context: HookContext,
    session: Session,
    package: Package,
    command: Seq<char>,
    architecture: Seq<char>,
    manifest_json: Seq<char>,
)
    requires
        context.describes(session, package, command, architecture, manifest_json),
    ensures
        ({
            let on = session.platform;
            let root = session.config.root_path@;
            let own = join_of(on, join_of(on, root, "apps"@), package.name@);
            let version = join_of(on, own, package.version@);
            &&& context.original_dir@ == version
            &&& session.config.no_junction ==> context.dir@ == version
            &&& !session.config.no_junction ==> context.dir@ == join_of(on, own, "current"@)
            &&& context.persist_dir@ == join_of(on, join_of(on, root, "persist"@), package.name@)
            &&& context.root_dir@ == root
            &&& context.cache_dir@ == session.config.cache_path@
            &&& context.config_path@ == session.config.path@
            &&& context.command@ == command
            &&& context.architecture@ == architecture
            &&& context.manifest_json@ == manifest_json
            &&& context.platform == on
        }),
{
}

} // verus!
