//! Reproducing a review: the command that a report prints, and what the report
//! calls the head.

use vstd::prelude::*;

use crate::git::WORKTREE;
use crate::model::{Profile, Rev};
use crate::search::{
    cut, lacks, lemma_joined_lacks, lemma_joined_push, lemma_lacks, lemma_parts_of_joined, parts,
    split_once,
};
use crate::text::{joined, texts};

verus! {

/// How a report's reproduction command recovers the review's head on another
/// machine.
#[derive(Debug)]
pub enum HeadRepro {
    /// A fetchable commit.
    Commit(String),
    /// The head is rebuilt by applying a compare diff, which is downloaded, onto
    /// `anchor`. Both ends of `expr` are shas.
    Compare { anchor: String, expr: String },
    /// The head is rebuilt by applying an embedded diff onto `anchor`.
    Embed { anchor: String, diff: String },
}

/// A flag, where it is set.
pub open spec fn flag(set: bool, text: Seq<char>) -> Seq<char> {
    if set {
        text
    } else {
        Seq::empty()
    }
}

/// The flags for some systems.
pub open spec fn system_flags(systems: Seq<Seq<char>>) -> Seq<char>
    decreases systems.len(),
{
    if systems.len() == 0 {
        Seq::empty()
    } else {
        system_flags(systems.drop_last()) + (" -s "@ + systems.last())
    }
}

/// The flags that change what a report contains.
pub open spec fn flags_text(
    no_merge: bool,
    profile: Profile,
    no_tests: bool,
    systems: Seq<Seq<char>>,
) -> Seq<char> {
    flag(no_merge, " --no-merge"@) + flag(profile.broken, " --allow-broken"@) + flag(
        profile.unsupported,
        " --allow-unsupported"@,
    ) + flag(profile.insecure, " --allow-insecure"@) + flag(no_tests, " --no-tests"@)
        + system_flags(systems)
}

/// A diff that ends its last line.
pub open spec fn line_ended(diff: Seq<char>) -> Seq<char> {
    if diff.len() > 0 && diff.last() == '\n' {
        diff
    } else {
        diff + "\n"@
    }
}

/// The command that reproduces a review.
pub open spec fn command_text(base_sha: Seq<char>, head: HeadRepro, flags: Seq<char>) -> Seq<
    char,
> {
    "npb --base "@ + base_sha + " --head "@ + (match head {
        HeadRepro::Commit(sha) => sha@ + flags,
        HeadRepro::Compare { anchor, expr } => anchor@ + " --patch "@ + expr@ + flags,
        HeadRepro::Embed { anchor, diff } => anchor@ + " --patch /dev/stdin"@ + flags
            + " <<'PATCH'\n"@ + line_ended(diff@) + "PATCH"@,
    })
}

/// Appends a flag, where it is set.
fn push_flag(out: &mut String, set: bool, text: &str)
    ensures
        final(out)@ == old(out)@ + flag(set, text@),
{
    let ghost start = out@;
    if set {
        out.append(text);
    }
    assert(out@ =~= start + flag(set, text@));
}

/// The flags that change what a report contains.
fn flags_of(no_merge: bool, profile: Profile, no_tests: bool, systems: &[String]) -> (out: String)
    ensures
        out@ == flags_text(no_merge, profile, no_tests, texts(systems@)),
{
    let mut out = String::new();
    push_flag(&mut out, no_merge, " --no-merge");
    push_flag(&mut out, profile.broken, " --allow-broken");
    push_flag(&mut out, profile.unsupported, " --allow-unsupported");
    push_flag(&mut out, profile.insecure, " --allow-insecure");
    push_flag(&mut out, no_tests, " --no-tests");
    let ghost start = out@;
    let ghost all = texts(systems@);
    let mut i: usize = 0;
    assert(all.take(0) =~= Seq::<Seq<char>>::empty());
    assert(out@ =~= start + system_flags(all.take(0)));
    while i < systems.len()
        invariant
            i <= systems@.len(),
            all == texts(systems@),
            out@ == start + system_flags(all.take(i as int)),
        decreases systems@.len() - i,
    {
        assert(all.take(i + 1).drop_last() =~= all.take(i as int));
        assert(all.take(i + 1).last() == systems@[i as int]@);
        out.append(" -s ");
        out.append(systems[i].as_str());
        i += 1;
        assert(out@ =~= start + system_flags(all.take(i as int)));
    }
    assert(all.take(i as int) =~= all);
    assert(start =~= flag(no_merge, " --no-merge"@) + flag(profile.broken, " --allow-broken"@)
        + flag(profile.unsupported, " --allow-unsupported"@) + flag(
        profile.insecure,
        " --allow-insecure"@,
    ) + flag(no_tests, " --no-tests"@));
    out
}

/// The shell command that a report prints so that anyone can reproduce its exact
/// changeset: a pinned base, a head whose tree is pinned, and the flags that change
/// what the report contains.
pub fn repro_command(
    base_sha: &str,
    head: &HeadRepro,
    no_merge: bool,
    profile: Profile,
    no_tests: bool,
    systems: &[String],
) -> (out: String)
    ensures
        out@ == command_text(
            base_sha@,
            *head,
            flags_text(no_merge, profile, no_tests, texts(systems@)),
        ),
{
    let flags = flags_of(no_merge, profile, no_tests, systems);
    let mut tail = String::new();
    match head {
        HeadRepro::Commit(sha) => {
            tail.append(sha.as_str());
            tail.append(flags.as_str());
            assert(tail@ =~= sha@ + flags@);
        },
        HeadRepro::Compare { anchor, expr } => {
            tail.append(anchor.as_str());
            tail.append(" --patch ");
            tail.append(expr.as_str());
            tail.append(flags.as_str());
            assert(tail@ =~= anchor@ + " --patch "@ + expr@ + flags@);
        },
        HeadRepro::Embed { anchor, diff } => {
            let mut body = diff.clone();
            let len: usize = diff.as_str().unicode_len();
            if !(len > 0 && diff.as_str().get_char(len - 1) == '\n') {
                body.append("\n");
            }
            assert(body@ =~= line_ended(diff@));
            tail.append(anchor.as_str());
            tail.append(" --patch /dev/stdin");
            tail.append(flags.as_str());
            tail.append(" <<'PATCH'\n");
            tail.append(body.as_str());
            tail.append("PATCH");
            assert(tail@ =~= anchor@ + " --patch /dev/stdin"@ + flags@ + " <<'PATCH'\n"@
                + line_ended(diff@) + "PATCH"@);
        },
    }
    let mut out = String::new();
    out.append("npb --base ");
    out.append(base_sha);
    out.append(" --head ");
    out.append(tail.as_str());
    out
}

// --- reading a command back -------------------------------------------------

/// The words of a command: what stands between the blanks of its first line.
pub open spec fn command_words(command: Seq<char>) -> Seq<Seq<char>> {
    parts(parts(command, '\n')[0], ' ')
}

/// Whether a text is one word of a command, and no option.
pub open spec fn is_operand(s: Seq<char>) -> bool {
    !s.contains(' ') && !s.contains('\n') && (s.len() == 0 || s[0] != '-')
}

/// Whether the texts that recover a head are words and no options. A diff is none of
/// the words.
pub open spec fn head_is_operand(head: HeadRepro) -> bool {
    match head {
        HeadRepro::Commit(sha) => is_operand(sha@),
        HeadRepro::Compare { anchor, expr } => is_operand(anchor@) && is_operand(expr@),
        HeadRepro::Embed { anchor, .. } => is_operand(anchor@),
    }
}

/// Each option stands in the command if and only if it is set, and the command names
/// the systems in their order, each after its own `-s`.
pub proof fn lemma_command_says_options(
    base_sha: Seq<char>,
    head: HeadRepro,
    no_merge: bool,
    profile: Profile,
    no_tests: bool,
    systems: Seq<Seq<char>>,
)
    requires
        is_operand(base_sha),
        head_is_operand(head),
        forall|i: int| 0 <= i < systems.len() ==> is_operand(#[trigger] systems[i]),
    ensures
        ({
            let command = command_text(
                base_sha,
                head,
                flags_text(no_merge, profile, no_tests, systems),
            );
            let words = command_words(command);
            &&& words.contains("--no-merge"@) <==> no_merge
            &&& words.contains("--allow-broken"@) <==> profile.broken
            &&& words.contains("--allow-unsupported"@) <==> profile.unsupported
            &&& words.contains("--allow-insecure"@) <==> profile.insecure
            &&& words.contains("--no-tests"@) <==> no_tests
            &&& words[0] == "npb"@
            &&& words[1] == "--base"@
            &&& words[2] == base_sha
            &&& words[3] == "--head"@
            &&& words[4] == (match head {
                HeadRepro::Commit(sha) => sha@,
                HeadRepro::Compare { anchor, .. } => anchor@,
                HeadRepro::Embed { anchor, .. } => anchor@,
            })
            &&& words.contains("--patch"@) <==> !(head is Commit)
            &&& head matches HeadRepro::Compare { expr, .. } ==> words[5] == "--patch"@ && words[6]
                == expr@
            &&& head is Embed ==> words[5] == "--patch"@ && words[6] == "/dev/stdin"@
            &&& words.len() == 5 + (if head is Commit {
                0int
            } else {
                2
            }) + count(no_merge) + count(profile.broken) + count(profile.unsupported) + count(
                profile.insecure,
            ) + count(no_tests) + 2 * systems.len() + count(head is Embed)
            &&& forall|i: int|
                0 <= i < systems.len() ==> #[trigger] names_system(
                    words,
                    words.len() - count(head is Embed) - 2 * systems.len(),
                    i,
                    systems[i],
                )
        }),
{
    let flags = flags_text(no_merge, profile, no_tests, systems);
    let command = command_text(base_sha, head, flags);
    let ws = word_list(base_sha, head, no_merge, profile, no_tests, systems);
    lemma_words(base_sha, head, no_merge, profile, no_tests, systems);
    assert(command_words(command) == ws);
    let front = front_words(base_sha, head);
    let options = option_words(no_merge, profile, no_tests);
    let named = system_words(systems);
    let back = back_words(head);
    lemma_option_words(no_merge, profile, no_tests);
    lemma_system_words(systems);
    lemma_fixed_words();
    assert(ws == front + options + named + back);
    let from = ws.len() - count(head is Embed) - 2 * systems.len();
    assert(from == front.len() + options.len());
    assert forall|i: int| 0 <= i < systems.len() implies #[trigger] names_system(
        ws,
        from,
        i,
        systems[i],
    ) by {
        assert(names_system(named, 0, i, systems[i]));
        assert(ws[from + 2 * i] == named[2 * i]);
        assert(ws[from + 2 * i + 1] == named[2 * i + 1]);
    }
    lemma_option_stands(base_sha, head, no_merge, profile, no_tests, systems, "--no-merge"@);
    lemma_option_stands(base_sha, head, no_merge, profile, no_tests, systems, "--allow-broken"@);
    lemma_option_stands(
        base_sha,
        head,
        no_merge,
        profile,
        no_tests,
        systems,
        "--allow-unsupported"@,
    );
    lemma_option_stands(base_sha, head, no_merge, profile, no_tests, systems, "--allow-insecure"@);
    lemma_option_stands(base_sha, head, no_merge, profile, no_tests, systems, "--no-tests"@);
    lemma_contains_sum(front, options, "--patch"@);
    lemma_contains_sum(front + options, named, "--patch"@);
    lemma_contains_sum(front + options + named, back, "--patch"@);
    lemma_options_contain(no_merge, profile, no_tests, "--patch"@);
    assert(!named.contains("--patch"@));
    if !(head is Commit) {
        assert(front[5] == "--patch"@);
    }
    assert(ws[0] == front[0] && ws[1] == front[1] && ws[2] == front[2] && ws[3] == front[3]);
    assert(ws[4] == front[4]);
    if !(head is Commit) {
        assert(ws[5] == front[5] && ws[6] == front[6]);
    }
}

/// Two commands that recover one head in one way are equal only where they were made
/// from the same base, options and systems.
pub proof fn lemma_command_reads_back(
    head: HeadRepro,
    base_a: Seq<char>,
    no_merge_a: bool,
    profile_a: Profile,
    no_tests_a: bool,
    systems_a: Seq<Seq<char>>,
    base_b: Seq<char>,
    no_merge_b: bool,
    profile_b: Profile,
    no_tests_b: bool,
    systems_b: Seq<Seq<char>>,
)
    requires
        head_is_operand(head),
        is_operand(base_a),
        is_operand(base_b),
        forall|i: int| 0 <= i < systems_a.len() ==> is_operand(#[trigger] systems_a[i]),
        forall|i: int| 0 <= i < systems_b.len() ==> is_operand(#[trigger] systems_b[i]),
        command_text(base_a, head, flags_text(no_merge_a, profile_a, no_tests_a, systems_a))
            == command_text(
            base_b,
            head,
            flags_text(no_merge_b, profile_b, no_tests_b, systems_b),
        ),
    ensures
        base_a == base_b,
        no_merge_a == no_merge_b,
        profile_a == profile_b,
        no_tests_a == no_tests_b,
        systems_a == systems_b,
{
    lemma_command_says_options(base_a, head, no_merge_a, profile_a, no_tests_a, systems_a);
    lemma_command_says_options(base_b, head, no_merge_b, profile_b, no_tests_b, systems_b);
    assert(systems_a.len() == systems_b.len());
    let words = command_words(
        command_text(base_a, head, flags_text(no_merge_a, profile_a, no_tests_a, systems_a)),
    );
    let from = words.len() - count(head is Embed) - 2 * systems_a.len();
    assert forall|i: int| 0 <= i < systems_a.len() implies systems_a[i] == systems_b[i] by {
        assert(names_system(words, from, i, systems_a[i]));
        assert(names_system(words, from, i, systems_b[i]));
    }
    assert(systems_a =~= systems_b);
}

/// Whether the `i`-th of the systems that are named from a place on is this one.
pub open spec fn names_system(
    words: Seq<Seq<char>>,
    from: int,
    i: int,
    system: Seq<char>,
) -> bool {
    words[from + 2 * i] == "-s"@ && words[from + 2 * i + 1] == system
}

/// One where something is set, and none where it is not.
pub open spec fn count(set: bool) -> int {
    if set {
        1
    } else {
        0
    }
}

/// The words before the options.
spec fn front_words(base_sha: Seq<char>, head: HeadRepro) -> Seq<Seq<char>> {
    let start = seq!["npb"@, "--base"@, base_sha, "--head"@];
    match head {
        HeadRepro::Commit(sha) => start.push(sha@),
        HeadRepro::Compare { anchor, expr } => start.push(anchor@).push("--patch"@).push(expr@),
        HeadRepro::Embed { anchor, .. } => start.push(anchor@).push("--patch"@).push("/dev/stdin"@),
    }
}

/// An option, where it is set.
spec fn option_word(set: bool, word: Seq<char>) -> Seq<Seq<char>> {
    if set {
        seq![word]
    } else {
        Seq::empty()
    }
}

/// The options that are set.
spec fn option_words(no_merge: bool, profile: Profile, no_tests: bool) -> Seq<Seq<char>> {
    option_word(no_merge, "--no-merge"@) + option_word(profile.broken, "--allow-broken"@)
        + option_word(profile.unsupported, "--allow-unsupported"@) + option_word(
        profile.insecure,
        "--allow-insecure"@,
    ) + option_word(no_tests, "--no-tests"@)
}

/// The systems, each after its `-s`.
spec fn system_words(systems: Seq<Seq<char>>) -> Seq<Seq<char>>
    decreases systems.len(),
{
    if systems.len() == 0 {
        Seq::empty()
    } else {
        system_words(systems.drop_last()).push("-s"@).push(systems.last())
    }
}

/// The words after the options.
spec fn back_words(head: HeadRepro) -> Seq<Seq<char>> {
    option_word(head is Embed, "<<'PATCH'"@)
}

/// The words of the first line of a command.
spec fn word_list(
    base_sha: Seq<char>,
    head: HeadRepro,
    no_merge: bool,
    profile: Profile,
    no_tests: bool,
    systems: Seq<Seq<char>>,
) -> Seq<Seq<char>> {
    front_words(base_sha, head) + option_words(no_merge, profile, no_tests) + system_words(systems)
        + back_words(head)
}

/// Whether words hold neither a blank nor a line feed.
spec fn all_words(ws: Seq<Seq<char>>) -> bool {
    forall|i: int|
        0 <= i < ws.len() ==> !(#[trigger] ws[i]).contains(' ') && !ws[i].contains('\n')
}

/// The words that every command is made of.
spec fn fixed_words() -> Seq<Seq<char>> {
    seq![
        "npb"@,
        "--base"@,
        "--head"@,
        "--patch"@,
        "/dev/stdin"@,
        "--no-merge"@,
        "--allow-broken"@,
        "--allow-unsupported"@,
        "--allow-insecure"@,
        "--no-tests"@,
        "-s"@,
        "<<'PATCH'"@,
    ]
}

/// The words that every command is made of are words, and no two of them are equal.
proof fn lemma_fixed_words()
    ensures
        all_words(fixed_words()),
        "npb"@.len() == 3 && "--base"@.len() == 6 && "--head"@.len() == 6 && "--patch"@.len() == 7,
        "/dev/stdin"@.len() == 10 && "-s"@.len() == 2 && "<<'PATCH'"@.len() == 9,
        "--no-merge"@.len() == 10 && "--no-tests"@.len() == 10 && "--no-merge"@ != "--no-tests"@,
        "--allow-broken"@.len() == 14 && "--allow-unsupported"@.len() == 19
            && "--allow-insecure"@.len() == 16,
        "/dev/stdin"@[0] == '/' && "--no-merge"@[0] == '-' && "--no-tests"@[0] == '-'
            && "--allow-broken"@[0] == '-' && "--allow-unsupported"@[0] == '-'
            && "--allow-insecure"@[0] == '-' && "--patch"@[0] == '-',
{
    reveal_strlit("npb");
    reveal_strlit("--base");
    reveal_strlit("--head");
    reveal_strlit("--patch");
    reveal_strlit("/dev/stdin");
    reveal_strlit("--no-merge");
    reveal_strlit("--allow-broken");
    reveal_strlit("--allow-unsupported");
    reveal_strlit("--allow-insecure");
    reveal_strlit("--no-tests");
    reveal_strlit("-s");
    reveal_strlit("<<'PATCH'");
    reveal_with_fuel(lacks, 20);
    assert("--no-merge"@[5] != "--no-tests"@[5]);
    lemma_is_word("npb"@);
    lemma_is_word("--base"@);
    lemma_is_word("--head"@);
    lemma_is_word("--patch"@);
    lemma_is_word("/dev/stdin"@);
    lemma_is_word("--no-merge"@);
    lemma_is_word("--allow-broken"@);
    lemma_is_word("--allow-unsupported"@);
    lemma_is_word("--allow-insecure"@);
    lemma_is_word("--no-tests"@);
    lemma_is_word("-s"@);
    lemma_is_word("<<'PATCH'"@);
}

/// A text whose characters are no blanks is a word.
proof fn lemma_is_word(s: Seq<char>)
    requires
        lacks(s, ' ', s.len() as int),
        lacks(s, '\n', s.len() as int),
    ensures
        !s.contains(' '),
        !s.contains('\n'),
{
    lemma_lacks(s, ' ', s.len() as int);
    lemma_lacks(s, '\n', s.len() as int);
}

/// The options are words of the command, as many as are set.
proof fn lemma_option_words(no_merge: bool, profile: Profile, no_tests: bool)
    ensures
        ({
            let ws = option_words(no_merge, profile, no_tests);
            &&& all_words(ws)
            &&& ws.len() == count(no_merge) + count(profile.broken) + count(profile.unsupported)
                + count(profile.insecure) + count(no_tests)
            &&& forall|i: int|
                0 <= i < ws.len() ==> {
                    let w = #[trigger] ws[i];
                    ||| no_merge && w == "--no-merge"@
                    ||| profile.broken && w == "--allow-broken"@
                    ||| profile.unsupported && w == "--allow-unsupported"@
                    ||| profile.insecure && w == "--allow-insecure"@
                    ||| no_tests && w == "--no-tests"@
                }
        }),
{
    lemma_fixed_words();
    let fixed = fixed_words();
    assert(all_words(fixed));
    assert(fixed[5] == "--no-merge"@);
    assert(fixed[6] == "--allow-broken"@);
    assert(fixed[7] == "--allow-unsupported"@);
    assert(fixed[8] == "--allow-insecure"@);
    assert(fixed[9] == "--no-tests"@);
}

/// The systems stand after the `-s` of each.
proof fn lemma_system_words(systems: Seq<Seq<char>>)
    requires
        forall|i: int| 0 <= i < systems.len() ==> is_operand(#[trigger] systems[i]),
    ensures
        all_words(system_words(systems)),
        system_words(systems).len() == 2 * systems.len(),
        forall|i: int|
            0 <= i < systems.len() ==> #[trigger] names_system(
                system_words(systems),
                0,
                i,
                systems[i],
            ),
        forall|k: int|
            0 <= k < system_words(systems).len() ==> is_operand(
                #[trigger] system_words(systems)[k],
            ) || system_words(systems)[k] == "-s"@,
    decreases systems.len(),
{
    lemma_fixed_words();
    let fixed = fixed_words();
    assert(fixed[10] == "-s"@);
    if systems.len() > 0 {
        let before = systems.drop_last();
        assert forall|i: int| 0 <= i < before.len() implies is_operand(#[trigger] before[i]) by {
            assert(is_operand(systems[i]));
        }
        lemma_system_words(before);
        assert(is_operand(systems[systems.len() - 1]));
        assert forall|i: int| 0 <= i < systems.len() implies #[trigger] names_system(
            system_words(systems),
            0,
            i,
            systems[i],
        ) by {
            if i < before.len() {
                assert(names_system(system_words(before), 0, i, before[i]));
            }
        }
    }
}

/// An option is a word of the command only among the options.
proof fn lemma_option_stands(
    base_sha: Seq<char>,
    head: HeadRepro,
    no_merge: bool,
    profile: Profile,
    no_tests: bool,
    systems: Seq<Seq<char>>,
    option: Seq<char>,
)
    requires
        is_operand(base_sha),
        head_is_operand(head),
        forall|i: int| 0 <= i < systems.len() ==> is_operand(#[trigger] systems[i]),
        option == "--no-merge"@ || option == "--allow-broken"@ || option == "--allow-unsupported"@
            || option == "--allow-insecure"@ || option == "--no-tests"@,
    ensures
        word_list(base_sha, head, no_merge, profile, no_tests, systems).contains(option) == {
            ||| no_merge && option == "--no-merge"@
            ||| profile.broken && option == "--allow-broken"@
            ||| profile.unsupported && option == "--allow-unsupported"@
            ||| profile.insecure && option == "--allow-insecure"@
            ||| no_tests && option == "--no-tests"@
        },
{
    let front = front_words(base_sha, head);
    let options = option_words(no_merge, profile, no_tests);
    let named = system_words(systems);
    let back = back_words(head);
    lemma_fixed_words();
    lemma_system_words(systems);
    lemma_contains_sum(front, options, option);
    lemma_contains_sum(front + options, named, option);
    lemma_contains_sum(front + options + named, back, option);
    assert(!front.contains(option));
    assert(!named.contains(option));
    assert(!back.contains(option));
    lemma_options_contain(no_merge, profile, no_tests, option);
}

/// Something is in two lists together if and only if it is in one of them.
proof fn lemma_contains_sum(a: Seq<Seq<char>>, b: Seq<Seq<char>>, x: Seq<char>)
    ensures
        (a + b).contains(x) == (a.contains(x) || b.contains(x)),
{
    if a.contains(x) {
        let k = choose|k: int| 0 <= k < a.len() && a[k] == x;
        assert((a + b)[k] == x);
    }
    if b.contains(x) {
        let k = choose|k: int| 0 <= k < b.len() && b[k] == x;
        assert((a + b)[a.len() + k] == x);
    }
}

/// The options hold those that are set.
proof fn lemma_options_contain(
    no_merge: bool,
    profile: Profile,
    no_tests: bool,
    option: Seq<char>,
)
    ensures
        option_words(no_merge, profile, no_tests).contains(option) == {
            ||| no_merge && option == "--no-merge"@
            ||| profile.broken && option == "--allow-broken"@
            ||| profile.unsupported && option == "--allow-unsupported"@
            ||| profile.insecure && option == "--allow-insecure"@
            ||| no_tests && option == "--no-tests"@
        },
{
    let a = option_word(no_merge, "--no-merge"@);
    let b = option_word(profile.broken, "--allow-broken"@);
    let c = option_word(profile.unsupported, "--allow-unsupported"@);
    let d = option_word(profile.insecure, "--allow-insecure"@);
    let e = option_word(no_tests, "--no-tests"@);
    lemma_contains_sum(a, b, option);
    lemma_contains_sum(a + b, c, option);
    lemma_contains_sum(a + b + c, d, option);
    lemma_contains_sum(a + b + c + d, e, option);
    lemma_option_contains(no_merge, "--no-merge"@, option);
    lemma_option_contains(profile.broken, "--allow-broken"@, option);
    lemma_option_contains(profile.unsupported, "--allow-unsupported"@, option);
    lemma_option_contains(profile.insecure, "--allow-insecure"@, option);
    lemma_option_contains(no_tests, "--no-tests"@, option);
}

/// An option is there where it is set.
proof fn lemma_option_contains(set: bool, word: Seq<char>, option: Seq<char>)
    ensures
        option_word(set, word).contains(option) == (set && option == word),
{
    if set {
        assert(option_word(set, word)[0] == word);
    }
}

/// Whether adding words to a line adds a text to it.
#[verifier::opaque]
spec fn say(words: Seq<Seq<char>>, text: Seq<char>) -> bool {
    forall|ws: Seq<Seq<char>>|
        ws.len() > 0 ==> #[trigger] joined(ws + words, seq![' ']) == joined(ws, seq![' ']) + text
}

/// Words that are added one list after the other add their texts.
proof fn lemma_say_both(a: Seq<Seq<char>>, x: Seq<char>, b: Seq<Seq<char>>, y: Seq<char>)
    requires
        say(a, x),
        say(b, y),
    ensures
        say(a + b, x + y),
{
    reveal(say);
    assert forall|ws: Seq<Seq<char>>| ws.len() > 0 implies #[trigger] joined(ws + (a + b), seq![' '])
        == joined(ws, seq![' ']) + (x + y) by {
        assert(ws + (a + b) =~= (ws + a) + b);
        assert(joined(ws + a, seq![' ']) == joined(ws, seq![' ']) + x);
        assert(joined((ws + a) + b, seq![' ']) == joined(ws + a, seq![' ']) + y);
        assert(joined(ws, seq![' ']) + x + y =~= joined(ws, seq![' ']) + (x + y));
    }
}

/// One more word stands after a blank.
proof fn lemma_word_says(word: Seq<char>)
    ensures
        say(seq![word], seq![' '] + word),
{
    reveal(say);
    assert forall|ws: Seq<Seq<char>>| ws.len() > 0 implies #[trigger] joined(
        ws + seq![word],
        seq![' '],
    ) == joined(ws, seq![' ']) + (seq![' '] + word) by {
        assert(ws + seq![word] =~= ws.push(word));
        lemma_joined_push(ws, word, seq![' ']);
        assert(joined(ws, seq![' ']) + seq![' '] + word =~= joined(ws, seq![' ']) + (seq![' ']
            + word));
    }
}

/// A line is its first words, then what the others add.
proof fn lemma_line_joined(
    front: Seq<Seq<char>>,
    a: Seq<Seq<char>>,
    b: Seq<Seq<char>>,
    x: Seq<char>,
    c: Seq<Seq<char>>,
    y: Seq<char>,
)
    requires
        front.len() > 0,
        say(a + b, x),
        say(c, y),
    ensures
        joined(front + a + b + c, seq![' ']) == joined(front, seq![' ']) + x + y,
{
    reveal(say);
    assert(front + a + b =~= front + (a + b));
    assert(joined(front + (a + b), seq![' ']) == joined(front, seq![' ']) + x);
    assert(joined((front + a + b) + c, seq![' ']) == joined(front + a + b, seq![' ']) + y);
}

/// No words add nothing.
proof fn lemma_none_say()
    ensures
        say(Seq::empty(), Seq::empty()),
{
    reveal(say);
    assert forall|ws: Seq<Seq<char>>| ws.len() > 0 implies #[trigger] joined(
        ws + Seq::<Seq<char>>::empty(),
        seq![' '],
    ) == joined(ws, seq![' ']) + Seq::<char>::empty() by {
        assert(ws + Seq::<Seq<char>>::empty() =~= ws);
        assert(joined(ws, seq![' ']) + Seq::<char>::empty() =~= joined(ws, seq![' ']));
    }
}

/// An option, where it is set, stands after a blank.
proof fn lemma_option_says(set: bool, word: Seq<char>)
    ensures
        say(option_word(set, word), flag(set, seq![' '] + word)),
{
    lemma_word_says(word);
    lemma_none_say();
}

/// The systems say their flags.
proof fn lemma_systems_say(systems: Seq<Seq<char>>)
    ensures
        say(system_words(systems), system_flags(systems)),
    decreases systems.len(),
{
    if systems.len() == 0 {
        lemma_none_say();
    } else {
        let sp = seq![' '];
        let before = systems.drop_last();
        lemma_systems_say(before);
        lemma_word_says("-s"@);
        lemma_word_says(systems.last());
        lemma_say_both(seq!["-s"@], sp + "-s"@, seq![systems.last()], sp + systems.last());
        lemma_say_both(
            system_words(before),
            system_flags(before),
            seq!["-s"@] + seq![systems.last()],
            (sp + "-s"@) + (sp + systems.last()),
        );
        assert(system_words(before) + (seq!["-s"@] + seq![systems.last()]) =~= system_words(
            systems,
        ));
        assert((sp + "-s"@) + (sp + systems.last()) =~= " -s "@ + systems.last()) by {
            reveal_strlit(" -s ");
            reveal_strlit("-s");
        }
    }
}

/// The words before the options, joined.
proof fn lemma_front_joined(base_sha: Seq<char>, head: HeadRepro)
    ensures
        joined(front_words(base_sha, head), seq![' ']) == "npb --base "@ + base_sha + " --head "@ + (
        match head {
            HeadRepro::Commit(sha) => sha@,
            HeadRepro::Compare { anchor, expr } => anchor@ + " --patch "@ + expr@,
            HeadRepro::Embed { anchor, .. } => anchor@ + " --patch /dev/stdin"@,
        }),
{
    reveal_strlit("npb");
    reveal_strlit("--base");
    reveal_strlit("--head");
    reveal_strlit("--patch");
    reveal_strlit("/dev/stdin");
    reveal_strlit("npb --base ");
    reveal_strlit(" --head ");
    reveal_strlit(" --patch ");
    reveal_strlit(" --patch /dev/stdin");
    let sp = seq![' '];
    let one = seq!["npb"@];
    let start = seq!["npb"@, "--base"@, base_sha, "--head"@];
    assert(joined(one, sp) == "npb"@);
    lemma_joined_push(one, "--base"@, sp);
    lemma_joined_push(one.push("--base"@), base_sha, sp);
    lemma_joined_push(one.push("--base"@).push(base_sha), "--head"@, sp);
    assert(start =~= one.push("--base"@).push(base_sha).push("--head"@));
    assert("npb"@ + sp + "--base"@ + sp =~= "npb --base "@);
    assert(sp + "--head"@ + sp =~= " --head "@);
    let opening = "npb --base "@ + base_sha + " --head "@;
    assert(joined(start, sp) + sp =~= ("npb"@ + sp + "--base"@ + sp) + base_sha + (sp + "--head"@
        + sp));
    assert(joined(start, sp) + sp =~= opening);
    let anchor = match head {
        HeadRepro::Commit(sha) => sha@,
        HeadRepro::Compare { anchor, .. } => anchor@,
        HeadRepro::Embed { anchor, .. } => anchor@,
    };
    let named = start.push(anchor);
    lemma_joined_push(start, anchor, sp);
    assert(joined(named, sp) == opening + anchor);
    match head {
        HeadRepro::Commit(sha) => {},
        HeadRepro::Compare { anchor: a, expr } => {
            lemma_joined_push(named, "--patch"@, sp);
            lemma_joined_push(named.push("--patch"@), expr@, sp);
            assert(sp + "--patch"@ + sp =~= " --patch "@);
            assert(joined(front_words(base_sha, head), sp) =~= opening + (anchor + (sp + "--patch"@
                + sp) + expr@));
        },
        HeadRepro::Embed { anchor: a, diff } => {
            lemma_joined_push(named, "--patch"@, sp);
            lemma_joined_push(named.push("--patch"@), "/dev/stdin"@, sp);
            assert(sp + "--patch"@ + sp + "/dev/stdin"@ =~= " --patch /dev/stdin"@);
            assert(joined(front_words(base_sha, head), sp) =~= opening + (anchor + (sp + "--patch"@
                + sp + "/dev/stdin"@)));
        },
    }
}

/// The first line of a command is its words, with a blank between each two.
proof fn lemma_words(
    base_sha: Seq<char>,
    head: HeadRepro,
    no_merge: bool,
    profile: Profile,
    no_tests: bool,
    systems: Seq<Seq<char>>,
)
    requires
        is_operand(base_sha),
        head_is_operand(head),
        forall|i: int| 0 <= i < systems.len() ==> is_operand(#[trigger] systems[i]),
    ensures
        command_words(
            command_text(base_sha, head, flags_text(no_merge, profile, no_tests, systems)),
        ) == word_list(base_sha, head, no_merge, profile, no_tests, systems),
{
    let sp = seq![' '];
    let flags = flags_text(no_merge, profile, no_tests, systems);
    let ws = word_list(base_sha, head, no_merge, profile, no_tests, systems);
    let line = joined(ws, sp);
    let front = front_words(base_sha, head);
    lemma_options_say(no_merge, profile, no_tests, systems);
    lemma_option_says(head is Embed, "<<'PATCH'"@);
    lemma_line_joined(
        front,
        option_words(no_merge, profile, no_tests),
        system_words(systems),
        flags,
        back_words(head),
        flag(head is Embed, sp + "<<'PATCH'"@),
    );
    lemma_line_words(base_sha, head, no_merge, profile, no_tests, systems);
    lemma_parts_of_joined(ws, ' ');
    assert(!sp.contains('\n'));
    assert forall|i: int| 0 <= i < ws.len() implies !(#[trigger] ws[i]).contains('\n') by {}
    lemma_joined_lacks(ws, sp, '\n');
    lemma_first_line(base_sha, head, flags, line);
}

/// The first line of a command ends before the line feed.
proof fn lemma_first_line(base_sha: Seq<char>, head: HeadRepro, flags: Seq<char>, line: Seq<char>)
    requires
        !line.contains('\n'),
        line == joined(front_words(base_sha, head), seq![' ']) + flags + flag(
            head is Embed,
            seq![' '] + "<<'PATCH'"@,
        ),
    ensures
        parts(command_text(base_sha, head, flags), '\n')[0] == line,
{
    let sp = seq![' '];
    let command = command_text(base_sha, head, flags);
    let n = line.len() as int;
    reveal_strlit("<<'PATCH'");
    reveal_strlit(" <<'PATCH'\n");
    reveal_strlit("\n");
    lemma_front_joined(base_sha, head);
    match head {
        HeadRepro::Commit(sha) => {
            assert(command =~= line);
        },
        HeadRepro::Compare { anchor, expr } => {
            assert(command =~= line);
        },
        HeadRepro::Embed { anchor, diff } => {
            assert(sp + "<<'PATCH'"@ + "\n"@ =~= " <<'PATCH'\n"@);
            assert(command =~= joined(front_words(base_sha, head), sp) + flags + (sp + "<<'PATCH'"@
                + "\n"@) + (line_ended(diff@) + "PATCH"@));
            assert(command =~= line + "\n"@ + (line_ended(diff@) + "PATCH"@));
            assert(command[n] == '\n');
        },
    }
    assert forall|j: int| 0 <= j < n implies command[j] != '\n' by {
        assert(line.contains(line[j]));
    }
    crate::search::lemma_char_position_is(command, '\n', n);
    assert(command.take(n) =~= line);
}

/// The options and the systems say the flags.
proof fn lemma_options_say(
    no_merge: bool,
    profile: Profile,
    no_tests: bool,
    systems: Seq<Seq<char>>,
)
    ensures
        say(
            option_words(no_merge, profile, no_tests) + system_words(systems),
            flags_text(no_merge, profile, no_tests, systems),
        ),
{
    let sp = seq![' '];
    assert(sp + "--no-merge"@ =~= " --no-merge"@) by {
        reveal_strlit("--no-merge");
        reveal_strlit(" --no-merge");
    }
    assert(sp + "--allow-broken"@ =~= " --allow-broken"@) by {
        reveal_strlit("--allow-broken");
        reveal_strlit(" --allow-broken");
    }
    assert(sp + "--allow-unsupported"@ =~= " --allow-unsupported"@) by {
        reveal_strlit("--allow-unsupported");
        reveal_strlit(" --allow-unsupported");
    }
    assert(sp + "--allow-insecure"@ =~= " --allow-insecure"@) by {
        reveal_strlit("--allow-insecure");
        reveal_strlit(" --allow-insecure");
    }
    assert(sp + "--no-tests"@ =~= " --no-tests"@) by {
        reveal_strlit("--no-tests");
        reveal_strlit(" --no-tests");
    }
    lemma_option_says(no_merge, "--no-merge"@);
    lemma_option_says(profile.broken, "--allow-broken"@);
    lemma_option_says(profile.unsupported, "--allow-unsupported"@);
    lemma_option_says(profile.insecure, "--allow-insecure"@);
    lemma_option_says(no_tests, "--no-tests"@);
    lemma_systems_say(systems);
    let a = option_word(no_merge, "--no-merge"@);
    let b = option_word(profile.broken, "--allow-broken"@);
    let c = option_word(profile.unsupported, "--allow-unsupported"@);
    let d = option_word(profile.insecure, "--allow-insecure"@);
    let e = option_word(no_tests, "--no-tests"@);
    let fa = flag(no_merge, " --no-merge"@);
    let fb = flag(profile.broken, " --allow-broken"@);
    let fc = flag(profile.unsupported, " --allow-unsupported"@);
    let fd = flag(profile.insecure, " --allow-insecure"@);
    let fe = flag(no_tests, " --no-tests"@);
    lemma_say_both(a, fa, b, fb);
    lemma_say_both(a + b, fa + fb, c, fc);
    lemma_say_both(a + b + c, fa + fb + fc, d, fd);
    lemma_say_both(a + b + c + d, fa + fb + fc + fd, e, fe);
    lemma_say_both(
        a + b + c + d + e,
        fa + fb + fc + fd + fe,
        system_words(systems),
        system_flags(systems),
    );
}

/// The words of a command hold neither blanks nor line feeds.
proof fn lemma_line_words(
    base_sha: Seq<char>,
    head: HeadRepro,
    no_merge: bool,
    profile: Profile,
    no_tests: bool,
    systems: Seq<Seq<char>>,
)
    requires
        is_operand(base_sha),
        head_is_operand(head),
        forall|i: int| 0 <= i < systems.len() ==> is_operand(#[trigger] systems[i]),
    ensures
        all_words(word_list(base_sha, head, no_merge, profile, no_tests, systems)),
{
    let ws = word_list(base_sha, head, no_merge, profile, no_tests, systems);
    let front = front_words(base_sha, head);
    let options = option_words(no_merge, profile, no_tests);
    let named = system_words(systems);
    lemma_fixed_words();
    lemma_option_words(no_merge, profile, no_tests);
    lemma_system_words(systems);
    let fixed = fixed_words();
    assert(all_words(fixed));
    assert(fixed[0] == "npb"@);
    assert(fixed[1] == "--base"@);
    assert(fixed[2] == "--head"@);
    assert(fixed[3] == "--patch"@);
    assert(fixed[4] == "/dev/stdin"@);
    assert(fixed[11] == "<<'PATCH'"@);
    assert forall|k: int| 0 <= k < ws.len() implies !(#[trigger] ws[k]).contains(' ')
        && !ws[k].contains('\n') by {
        if k < front.len() {
            assert(ws[k] == front[k]);
        } else if k < front.len() + options.len() {
            assert(ws[k] == options[k - front.len()]);
        } else if k < front.len() + options.len() + named.len() {
            assert(ws[k] == named[k - front.len() - options.len()]);
        }
    }
}

/// What the report calls a commit plus a diff.
pub open spec fn starred(anchor: Seq<char>) -> Seq<char> {
    anchor + "\\*"@
}

/// What the report calls a commit plus a diff.
fn star(anchor: &str) -> (out: String)
    ensures
        out@ == starred(anchor@),
{
    let mut out = anchor.to_owned();
    out.append("\\*");
    out
}

/// What the report calls the head of a compare expression applied onto `anchor`:
/// where the anchor is the first end, the result is the second end's tree, and that
/// is its name; applied onto anything else it is the anchor plus a diff.
pub open spec fn compare_name(anchor: Seq<char>, expr: Seq<char>) -> Seq<char> {
    match cut(expr, "..."@) {
        Some((a, b)) => if a == anchor {
            b
        } else {
            starred(anchor)
        },
        None => starred(anchor),
    }
}

/// The heading label for the head of a compare expression applied onto `anchor`.
pub fn compare_head_display(anchor: &str, expr: &str) -> (out: String)
    ensures
        out@ == compare_name(anchor@, expr@),
{
    match split_once(expr, "...") {
        Some((a, b)) => if *a == *anchor {
            b.to_owned()
        } else {
            star(anchor)
        },
        None => star(anchor),
    }
}

/// What is needed to name the head and to reproduce it.
pub enum HeadPlan {
    /// A pull request: the fork point with the base, and its diff if that has
    /// binary files.
    Pr,
    /// Uncommitted work: `HEAD`, and the diff from it to the synthetic head.
    Worktree,
    /// A name and a reproduction that need nothing more.
    Known { display: String, repro: HeadRepro },
}

/// What is needed to name the head of a review and to reproduce it, from what was
/// asked for: a pull request; a patch, onto an anchor, as a compare expression or as
/// a diff; or neither.
pub fn plan_head(
    is_pr: bool,
    patch_anchor: Option<&Rev>,
    patch_compare: Option<String>,
    patch_diff: Option<String>,
    head: &Rev,
) -> (plan: HeadPlan)
    ensures
        match plan {
            HeadPlan::Pr => is_pr,
            HeadPlan::Worktree => !is_pr && (match patch_anchor {
                Some(anchor) => anchor.label@ == WORKTREE@,
                None => head.label@ == WORKTREE@,
            }),
            HeadPlan::Known { display, repro } => {
                &&& !is_pr
                &&& match patch_anchor {
                    Some(anchor) => {
                        &&& anchor.label@ != WORKTREE@
                        &&& match patch_compare {
                            Some(expr) => {
                                &&& display@ == compare_name(anchor.commit@, expr@)
                                &&& repro matches HeadRepro::Compare { anchor: a, expr: e } && a@
                                    == anchor.commit@ && e@ == expr@
                            },
                            None => {
                                &&& display@ == starred(anchor.commit@)
                                &&& repro matches HeadRepro::Embed { anchor: a, diff } && a@
                                    == anchor.commit@ && diff@ == (match patch_diff {
                                    Some(d) => d@,
                                    None => Seq::empty(),
                                })
                            },
                        }
                    },
                    None => {
                        &&& head.label@ != WORKTREE@
                        &&& display@ == head.label@
                        &&& repro matches HeadRepro::Commit(sha) && sha@ == head.label@
                    },
                }
            },
        },
{
    if is_pr {
        return HeadPlan::Pr;
    }
    match patch_anchor {
        Some(anchor) => {
            if *anchor.label.as_str() == *WORKTREE {
                return HeadPlan::Worktree;
            }
            match patch_compare {
                Some(expr) => HeadPlan::Known {
                    display: compare_head_display(anchor.commit.as_str(), expr.as_str()),
                    repro: HeadRepro::Compare { anchor: anchor.commit.clone(), expr },
                },
                None => HeadPlan::Known {
                    display: star(anchor.commit.as_str()),
                    repro: HeadRepro::Embed {
                        anchor: anchor.commit.clone(),
                        diff: match patch_diff {
                            Some(d) => d,
                            None => String::new(),
                        },
                    },
                },
            }
        },
        None => {
            if *head.label.as_str() == *WORKTREE {
                return HeadPlan::Worktree;
            }
            HeadPlan::Known {
                display: head.label.clone(),
                repro: HeadRepro::Commit(head.label.clone()),
            }
        },
    }
}

/// The name and reproduction of a pull request's head: a compare expression from the
/// fork point, or, where that has binary files, which such an expression cannot
/// carry, the diff itself.
pub fn pr_head(fork: String, head: &Rev, binary_diff: Option<String>) -> (out: (String, HeadRepro))
    ensures
        out.0@ == head.label@,
        match binary_diff {
            Some(diff) => out.1 matches HeadRepro::Embed { anchor, diff: d } && anchor@ == fork@
                && d@ == diff@,
            None => out.1 matches HeadRepro::Compare { anchor, expr } && anchor@ == fork@ && expr@
                == fork@ + "..."@ + head.label@,
        },
{
    let repro = match binary_diff {
        Some(diff) => HeadRepro::Embed { anchor: fork, diff },
        None => {
            let expr = crate::git::compare_expr(fork.as_str(), head.label.as_str());
            HeadRepro::Compare { anchor: fork, expr }
        },
    };
    (head.label.clone(), repro)
}

/// The name and reproduction of uncommitted work on top of `anchor`.
pub fn worktree_head(anchor: String, diff: String) -> (out: (String, HeadRepro))
    ensures
        out.0@ == starred(anchor@),
        out.1 matches HeadRepro::Embed { anchor: a, diff: d } && a@ == anchor@ && d@ == diff@,
{
    (star(anchor.as_str()), HeadRepro::Embed { anchor, diff })
}

/// Reproducing a pull request's compare expression names its head as the review
/// did: the label of the head, not the fork point plus a diff.
pub proof fn lemma_pr_name_survives(fork: Seq<char>, label: Seq<char>)
    requires
        !fork.contains('.'),
    ensures
        compare_name(fork, fork + "..."@ + label) == label,
{
    reveal_strlit("...");
    let expr = fork + "..."@ + label;
    lemma_first_dots(fork, label);
    assert(expr.take(fork.len() as int) =~= fork);
    assert(expr.skip(fork.len() as int + "..."@.len() as int) =~= label);
}

/// The first three dots after a text without dots stand at its end.
proof fn lemma_first_dots(a: Seq<char>, b: Seq<char>)
    requires
        !a.contains('.'),
    ensures
        crate::search::position_of(a + "..."@ + b, "..."@) == Some(a.len() as int),
    decreases a.len(),
{
    reveal_strlit("...");
    let s = a + "..."@ + b;
    if a.len() == 0 {
        assert(s.subrange(0, 3) =~= "..."@);
    } else {
        assert(a.contains(a[0]));
        assert(s[0] == a[0]);
        assert(!"..."@.is_prefix_of(s)) by {
            if "..."@.is_prefix_of(s) {
                assert(s.subrange(0, 3)[0] == '.');
            }
        }
        let rest = a.skip(1);
        if rest.contains('.') {
            let i = choose|i: int| 0 <= i < rest.len() && rest[i] == '.';
            assert(a[i + 1] == '.');
        }
        lemma_first_dots(rest, b);
        assert(s.skip(1) =~= rest + "..."@ + b);
    }
}

/// An embedded diff follows the first line as it is, its last line ended, up to the word
/// that ends it.
pub proof fn lemma_command_embeds(
    base_sha: Seq<char>,
    anchor: String,
    diff: String,
    flags: Seq<char>,
)
    ensures
        ({
            let command = command_text(base_sha, HeadRepro::Embed { anchor, diff }, flags);
            let ended = diff@.len() > 0 && diff@.last() == '\n';
            &&& ended ==> ("<<'PATCH'\n"@ + diff@ + "PATCH"@).is_suffix_of(command)
            &&& !ended ==> ("<<'PATCH'\n"@ + diff@ + "\n"@ + "PATCH"@).is_suffix_of(command)
        }),
{
    let command = command_text(base_sha, HeadRepro::Embed { anchor, diff }, flags);
    let end = "<<'PATCH'\n"@ + line_ended(diff@) + "PATCH"@;
    let start = "npb --base "@ + base_sha + " --head "@ + anchor@ + " --patch /dev/stdin"@ + flags
        + seq![' '];
    assert(seq![' '] + "<<'PATCH'\n"@ =~= " <<'PATCH'\n"@) by {
        reveal_strlit("<<'PATCH'\n");
        reveal_strlit(" <<'PATCH'\n");
    }
    assert(command =~= start + end);
    assert(command.subrange(command.len() - end.len(), command.len() as int) =~= end);
}

/// A compare expression that starts elsewhere than at the anchor, and what is none, names
/// the head as the anchor plus a diff.
pub proof fn lemma_other_names(anchor: Seq<char>, expr: Seq<char>)
    ensures
        cut(expr, "..."@) is None ==> compare_name(anchor, expr) == anchor + "\\*"@,
        cut(expr, "..."@) matches Some((a, b)) ==> (if a == anchor {
            compare_name(anchor, expr) == b
        } else {
            compare_name(anchor, expr) == anchor + "\\*"@
        }),
{
}

/// A commit plus a diff is the commit with a star that Markdown shows.
pub proof fn lemma_starred(anchor: Seq<char>)
    ensures
        anchor.is_prefix_of(starred(anchor)),
        starred(anchor).len() == anchor.len() + 2,
        starred(anchor)[anchor.len() as int] == '\\',
        starred(anchor)[anchor.len() as int + 1] == '*',
{
    reveal_strlit("\\*");
    assert(starred(anchor).subrange(0, anchor.len() as int) =~= anchor);
}

} // verus!
