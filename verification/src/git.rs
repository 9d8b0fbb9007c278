//! Revisions: what `git` is asked, what its answers mean, and what the two sides
//! of a review are.

use vstd::prelude::*;

use crate::model::{Rev, RevView};
use crate::outside::{lossy, lossy_text, quoted, quoted_text, utf8};
use crate::search::{
    contains, contains_char, cut, holds, line_texts, lowered, split_lines, split_once, starts_with,
    to_lower, trim, trimmed,
};
use crate::text::{chars_of, decimal, join, joined, opt_str, opt_text, push_decimal, texts};

verus! {

// --- answers ----------------------------------------------------------------

/// Why a command gave no text.
#[derive(Debug)]
pub enum GitError {
    /// It failed: what to tell the user.
    Failed(String),
    /// What it printed is not UTF-8.
    NotUtf8,
}

/// The message of a command that failed.
pub open spec fn failed_text(args: Seq<Seq<char>>, stderr: Seq<u8>) -> Seq<char> {
    "git "@ + joined(args, " "@) + " failed: "@ + trimmed(lossy_text(stderr))
}

/// The message of a command that failed.
fn failed_message(args: &[String], stderr: &[u8]) -> (out: String)
    ensures
        out@ == failed_text(texts(args@), stderr@),
{
    let mut out = String::new();
    out.append("git ");
    out.append(join(args, " ").as_str());
    out.append(" failed: ");
    out.append(trim(lossy(stderr).as_str()));
    assert(out@ =~= failed_text(texts(args@), stderr@));
    out
}

/// What a command printed, as it is, or why there is nothing.
pub fn raw_output(args: &[String], success: bool, stdout: Vec<u8>, stderr: &[u8]) -> (out:
    Result<String, GitError>)
    ensures
        match out {
            Ok(text) => success && vstd::utf8::encode_utf8(text@) == stdout@,
            Err(GitError::Failed(message)) => !success && message@ == failed_text(
                texts(args@),
                stderr@,
            ),
            Err(GitError::NotUtf8) => success && !vstd::utf8::valid_utf8(stdout@),
        },
{
    if !success {
        return Err(GitError::Failed(failed_message(args, stderr)));
    }
    match utf8(stdout) {
        Some(text) => Ok(text),
        None => Err(GitError::NotUtf8),
    }
}

/// What a command printed, without the white space around it, or why there is
/// nothing.
pub fn trimmed_output(args: &[String], success: bool, stdout: Vec<u8>, stderr: &[u8]) -> (out:
    Result<String, GitError>)
    ensures
        match out {
            Ok(text) => success && exists|all: Seq<char>| #[trigger]
                vstd::utf8::encode_utf8(all) == stdout@ && text@ == trimmed(all),
            Err(GitError::Failed(message)) => !success && message@ == failed_text(
                texts(args@),
                stderr@,
            ),
            Err(GitError::NotUtf8) => success && !vstd::utf8::valid_utf8(stdout@),
        },
{
    match raw_output(args, success, stdout, stderr) {
        Ok(text) => {
            let out = trim(text.as_str()).to_owned();
            assert(vstd::utf8::encode_utf8(text@) == stdout@ && out@ == trimmed(text@));
            Ok(out)
        },
        Err(e) => Err(e),
    }
}

/// The refspec that updates a ref whatever it was.
pub fn force_refspec(ref_name: &str) -> (out: String)
    ensures
        out@ == "+"@ + ref_name@ + ":"@ + ref_name@,
{
    let mut out = String::new();
    out.append("+");
    out.append(ref_name);
    out.append(":");
    out.append(ref_name);
    assert(out@ =~= "+"@ + ref_name@ + ":"@ + ref_name@);
    out
}

/// What came of fetching a ref: it exists now, the other side has none of that
/// name, or the fetch failed otherwise.
pub fn fetch_result(success: bool, stderr: &[u8], ref_name: &str, upstream: &str) -> (out: Result<
    bool,
    String,
>)
    ensures
        match out {
            Ok(found) => found == success && (success || holds(
                lossy_text(stderr@),
                "couldn't find remote ref"@,
            )),
            Err(message) => {
                &&& !success
                &&& !holds(lossy_text(stderr@), "couldn't find remote ref"@)
                &&& message@ == "git fetch "@ + ref_name@ + " from "@ + upstream@ + " failed: "@
                    + trimmed(lossy_text(stderr@))
            },
        },
{
    if success {
        return Ok(true);
    }
    let err = lossy(stderr);
    if contains(err.as_str(), "couldn't find remote ref") {
        return Ok(false);
    }
    let mut out = String::new();
    out.append("git fetch ");
    out.append(ref_name);
    out.append(" from ");
    out.append(upstream);
    out.append(" failed: ");
    out.append(trim(err.as_str()));
    assert(out@ =~= "git fetch "@ + ref_name@ + " from "@ + upstream@ + " failed: "@ + trimmed(
        lossy_text(stderr@),
    ));
    Err(out)
}

/// Whether one of some lines starts with `prefix`.
pub open spec fn some_starts(lines: Seq<Seq<char>>, prefix: Seq<char>) -> bool {
    exists|i: int| 0 <= i < lines.len() && prefix.is_prefix_of(#[trigger] lines[i])
}

/// Whether a diff touches a binary file, from its numbers of lines: a binary file
/// has dashes for numbers.
pub fn diff_has_binary(numstat: &str) -> (yes: bool)
    ensures
        yes == some_starts(line_texts(numstat@), "-\t-\t"@),
{
    let lines = split_lines(numstat);
    let ghost all = line_texts(numstat@);
    let mut i: usize = 0;
    while i < lines.len()
        invariant
            i <= lines@.len(),
            texts(lines@) == all,
            all == line_texts(numstat@),
            forall|k: int| 0 <= k < i ==> !"-\t-\t"@.is_prefix_of(#[trigger] all[k]),
        decreases lines@.len() - i,
    {
        assert(texts(lines@)[i as int] == lines@[i as int]@);
        if starts_with(lines[i].as_str(), "-\t-\t") {
            assert("-\t-\t"@.is_prefix_of(all[i as int]));
            return true;
        }
        i += 1;
    }
    assert(texts(lines@).len() == lines@.len());
    false
}

// --- systems ----------------------------------------------------------------

/// The Nix system double of a host, e.g. `aarch64-linux`.
pub fn system_double(arch: &str, os: &str) -> (out: String)
    ensures
        out@ == arch@ + "-"@ + (if os@ == "macos"@ {
            "darwin"@
        } else {
            os@
        }),
{
    let mut out = String::new();
    out.append(arch);
    out.append("-");
    if *os == *"macos" {
        out.append("darwin");
    } else {
        out.append(os);
    }
    assert(out@ =~= arch@ + "-"@ + (if os@ == "macos"@ {
        "darwin"@
    } else {
        os@
    }));
    out
}

/// The systems to review: those asked for, or the host's.
pub fn resolve_systems(systems: Vec<String>, host: String) -> (out: Vec<String>)
    ensures
        out@ == (if systems@.len() == 0 {
            seq![host]
        } else {
            systems@
        }),
{
    if systems.len() == 0 {
        let mut out: Vec<String> = Vec::new();
        out.push(host);
        out
    } else {
        systems
    }
}

// --- revisions --------------------------------------------------------------

/// A commit as a revision: its sha is also its label.
pub fn commit_source(commit: String, tree: String, display: String) -> (rev: Rev)
    ensures
        rev@ == (RevView {
            tree: tree@,
            commit: commit@,
            label: commit@,
            display: display@,
        }),
{
    Rev { tree, label: commit.clone(), commit, display }
}

/// What `git` resolves a revision to a commit by.
pub fn commit_arg(rev: &str) -> (out: String)
    ensures
        out@ == rev@ + "^{commit}"@,
{
    let mut out = rev.to_owned();
    out.append("^{commit}");
    out
}

/// What `git` resolves a commit to its tree by.
pub fn tree_arg(commit: &str) -> (out: String)
    ensures
        out@ == commit@ + "^{tree}"@,
{
    let mut out = commit.to_owned();
    out.append("^{tree}");
    out
}

/// The message for a revision that cannot be resolved.
pub fn unresolved_message(rev: &str, repo: &str) -> (out: String)
    ensures
        out@ == "cannot resolve revision "@ + quoted_text(rev@) + " in "@ + repo@,
{
    let mut out = String::new();
    out.append("cannot resolve revision ");
    out.append(quoted(rev).as_str());
    out.append(" in ");
    out.append(repo);
    assert(out@ =~= "cannot resolve revision "@ + quoted_text(rev@) + " in "@ + repo@);
    out
}

/// The display name of a synthetic head, an anchor plus a diff.
pub fn dirty_display(base: &str) -> (out: String)
    ensures
        out@ == base@ + "*"@,
{
    let mut out = base.to_owned();
    out.append("*");
    out
}

/// The label of a synthetic head.
pub const WORKTREE: &'static str = "worktree";

/// The identity and dates of every commit that is minted here, as variables of the
/// environment: fixed, so that a commit is a function of its tree and parents.
pub fn commit_identity() -> (out: Vec<(String, String)>)
    ensures
        out@.len() == 6,
        forall|i: int|
            0 <= i < 6 ==> ((#[trigger] out@[i]).0@, out@[i].1@) == identity()[i],
{
    let mut out: Vec<(String, String)> = Vec::new();
    out.push(("GIT_AUTHOR_NAME".to_owned(), "npb".to_owned()));
    out.push(("GIT_AUTHOR_EMAIL".to_owned(), "npb@localhost".to_owned()));
    out.push(("GIT_AUTHOR_DATE".to_owned(), "1970-01-01T00:00:00Z".to_owned()));
    out.push(("GIT_COMMITTER_NAME".to_owned(), "npb".to_owned()));
    out.push(("GIT_COMMITTER_EMAIL".to_owned(), "npb@localhost".to_owned()));
    out.push(("GIT_COMMITTER_DATE".to_owned(), "1970-01-01T00:00:00Z".to_owned()));
    out
}

/// The identity and dates of every commit that is minted here.
pub open spec fn identity() -> Seq<(Seq<char>, Seq<char>)> {
    seq![
        ("GIT_AUTHOR_NAME"@, "npb"@),
        ("GIT_AUTHOR_EMAIL"@, "npb@localhost"@),
        ("GIT_AUTHOR_DATE"@, "1970-01-01T00:00:00Z"@),
        ("GIT_COMMITTER_NAME"@, "npb"@),
        ("GIT_COMMITTER_EMAIL"@, "npb@localhost"@),
        ("GIT_COMMITTER_DATE"@, "1970-01-01T00:00:00Z"@),
    ]
}

/// The arguments that mint a synthetic head over a tree.
pub fn worktree_commit_args(tree: &str, parent: &str) -> (out: Vec<String>)
    ensures
        texts(out@) == seq![
            "commit-tree"@,
            tree@,
            "-p"@,
            parent@,
            "-m"@,
            "npb: uncommitted working tree"@,
        ],
{
    let mut out: Vec<String> = Vec::new();
    out.push("commit-tree".to_owned());
    out.push(tree.to_owned());
    out.push("-p".to_owned());
    out.push(parent.to_owned());
    out.push("-m".to_owned());
    out.push("npb: uncommitted working tree".to_owned());
    assert(texts(out@) =~= seq![
        "commit-tree"@,
        tree@,
        "-p"@,
        parent@,
        "-m"@,
        "npb: uncommitted working tree"@,
    ]);
    out
}

/// A synthetic head as a revision.
pub fn worktree_rev(tree: String, commit: String, display: String) -> (rev: Rev)
    ensures
        rev@ == (RevView {
            tree: tree@,
            commit: commit@,
            label: WORKTREE@,
            display: display@,
        }),
{
    Rev { tree, commit, label: WORKTREE.to_owned(), display }
}

/// Whether the working tree has uncommitted changes, from what `git stash create`
/// printed: nothing for a clean one.
pub fn is_dirty(stash: &str) -> (yes: bool)
    ensures
        yes == (stash@.len() > 0),
{
    stash.unicode_len() > 0
}

// --- merges -----------------------------------------------------------------

/// The arguments that merge two commits over one explicit merge base.
pub fn merge_tree_args(merge_base: &str, base: &str, head: &str) -> (out: Vec<String>)
    ensures
        texts(out@) == seq![
            "merge-tree"@,
            "--write-tree"@,
            "--merge-base="@ + merge_base@,
            base@,
            head@,
        ],
{
    let mut option = "--merge-base=".to_owned();
    option.append(merge_base);
    let mut out: Vec<String> = Vec::new();
    out.push("merge-tree".to_owned());
    out.push("--write-tree".to_owned());
    out.push(option);
    out.push(base.to_owned());
    out.push(head.to_owned());
    assert(texts(out@) =~= seq![
        "merge-tree"@,
        "--write-tree"@,
        "--merge-base="@ + merge_base@,
        base@,
        head@,
    ]);
    out
}

/// The arguments that mint a synthetic merge over a tree, base as first parent.
pub fn merge_commit_args(tree: &str, base: &str, head: &str) -> (out: Vec<String>)
    ensures
        texts(out@) == seq![
            "commit-tree"@,
            tree@,
            "-p"@,
            base@,
            "-p"@,
            head@,
            "-m"@,
            "npb: synthetic merge"@,
        ],
{
    let mut out: Vec<String> = Vec::new();
    out.push("commit-tree".to_owned());
    out.push(tree.to_owned());
    out.push("-p".to_owned());
    out.push(base.to_owned());
    out.push("-p".to_owned());
    out.push(head.to_owned());
    out.push("-m".to_owned());
    out.push("npb: synthetic merge".to_owned());
    assert(texts(out@) =~= seq![
        "commit-tree"@,
        tree@,
        "-p"@,
        base@,
        "-p"@,
        head@,
        "-m"@,
        "npb: synthetic merge"@,
    ]);
    out
}

/// The message for two sides that conflict.
pub fn conflict_message(base: &Rev, head: &Rev) -> (out: String)
    ensures
        out@ == "cannot merge "@ + head.label@ + " onto "@ + base.label@
            + ": they conflict.\nRe-run with --no-merge to diff from their merge-base instead."@,
{
    let mut out = String::new();
    out.append("cannot merge ");
    out.append(head.label.as_str());
    out.append(" onto ");
    out.append(base.label.as_str());
    out.append(": they conflict.\nRe-run with --no-merge to diff from their merge-base instead.");
    assert(out@ =~= "cannot merge "@ + head.label@ + " onto "@ + base.label@
        + ": they conflict.\nRe-run with --no-merge to diff from their merge-base instead."@);
    out
}

/// The text `name(a, b)`.
pub open spec fn call_text(name: Seq<char>, a: Seq<char>, b: Seq<char>) -> Seq<char> {
    name + "("@ + a + ", "@ + b + ")"@
}

/// The text `name(a, b)`.
fn call_of(name: &str, a: &str, b: &str) -> (out: String)
    ensures
        out@ == call_text(name@, a@, b@),
{
    let mut out = String::new();
    out.append(name);
    out.append("(");
    out.append(a);
    out.append(", ");
    out.append(b);
    out.append(")");
    assert(out@ =~= call_text(name@, a@, b@));
    out
}

/// A merge of `head` onto `base`, of tree `tree`, as a revision. Its label is the
/// head's: the change under review. Where the merge is a fast-forward, its tree is
/// the head's, and it is shown as the head.
pub fn merge_source(base: &Rev, head: &Rev, tree: String, commit: String) -> (rev: Rev)
    ensures
        rev@ == (RevView {
            tree: tree@,
            commit: commit@,
            label: head@.label,
            display: if tree@ == head@.tree {
                head@.display
            } else {
                call_text("merge"@, base@.display, head@.display)
            },
        }),
{
    let display = if tree == head.tree {
        head.display.clone()
    } else {
        call_of("merge", base.display.as_str(), head.display.as_str())
    };
    Rev { tree, commit, label: head.label.clone(), display }
}

/// How the two sides of a review come from a base tip and a head: the head merged
/// onto the base, or the head against the fork point, under which name.
pub enum Shape {
    Merge,
    ForkPoint { base_display: String },
}

/// How the two sides of a review come from a base tip and a head.
pub fn apply_merge(base_tip: &Rev, head: &Rev, no_merge: bool) -> (shape: Shape)
    ensures
        match shape {
            Shape::Merge => !no_merge,
            Shape::ForkPoint { base_display } => no_merge && base_display@ == call_text(
                "merge-base"@,
                base_tip.display@,
                head.display@,
            ),
        },
{
    if no_merge {
        Shape::ForkPoint {
            base_display: call_of("merge-base", base_tip.display.as_str(), head.display.as_str()),
        }
    } else {
        Shape::Merge
    }
}

/// The message for two sides of one tree.
pub open spec fn same_tree_text(tree: Seq<char>) -> Seq<char> {
    "base and head are the same tree ("@ + tree
        + ") — nothing to review.\n(A clean checkout, an unmoved --pr, or a --base/--head typo?)"@
}

/// Rejects a review whose two sides are one tree.
pub fn ensure_distinct_trees(base: &Rev, head: &Rev) -> (out: Result<(), String>)
    ensures
        match out {
            Ok(()) => base.tree@ != head.tree@,
            Err(message) => base.tree@ == head.tree@ && message@ == same_tree_text(base.tree@),
        },
{
    if base.tree == head.tree {
        let mut out = String::new();
        out.append("base and head are the same tree (");
        out.append(base.tree.as_str());
        out.append(
            ") — nothing to review.\n(A clean checkout, an unmoved --pr, or a --base/--head typo?)",
        );
        assert(out@ =~= same_tree_text(base.tree@));
        return Err(out);
    }
    Ok(())
}

// --- pull requests ----------------------------------------------------------

/// The repository that pull requests are of.
pub const UPSTREAM: &'static str = "https://github.com/NixOS/nixpkgs";

/// The ref of a pull request's head.
pub open spec fn head_ref_text(pr: nat) -> Seq<char> {
    "refs/pull/"@ + decimal(pr) + "/head"@
}

/// The ref of a pull request's head.
pub fn head_ref(pr: u64) -> (out: String)
    ensures
        out@ == head_ref_text(pr as nat),
{
    let mut out = String::new();
    out.append("refs/pull/");
    push_decimal(&mut out, pr);
    out.append("/head");
    assert(out@ =~= head_ref_text(pr as nat));
    out
}

/// The ref of a pull request's test merge.
pub fn merge_ref(pr: u64) -> (out: String)
    ensures
        out@ == crate::live::merge_ref(pr as nat),
{
    let mut out = String::new();
    out.append("refs/pull/");
    push_decimal(&mut out, pr);
    out.append("/merge");
    assert(out@ =~= crate::live::merge_ref(pr as nat));
    out
}

/// What to do next to resolve a pull request.
pub enum PrStep {
    /// Fetch the ref of its head, and ask again.
    FetchHead,
    /// Its sides are the head against the fork point with `base`: revisions to
    /// resolve, and names for the two sides.
    Fork { base: String, head: String, base_display: String, head_display: String },
    /// Its sides are `base`, and the head merged onto it.
    Merge { base: String, head: String, base_display: String, head_display: String },
    /// It cannot be resolved: what to tell the user.
    Fail(String),
}

/// The name of a side of a pull request.
pub open spec fn pr_display(pr: nat, side: Seq<char>) -> Seq<char> {
    "#"@ + decimal(pr) + side
}

/// The name of a side of a pull request.
fn display_of_pr(pr: u64, side: &str) -> (out: String)
    ensures
        out@ == pr_display(pr as nat, side@),
{
    let mut out = String::new();
    out.append("#");
    push_decimal(&mut out, pr);
    out.append(side);
    assert(out@ =~= pr_display(pr as nat, side@));
    out
}

/// The message for a pull request that does not exist.
pub open spec fn not_found_text(pr: nat, upstream: Seq<char>) -> Seq<char> {
    "PR #"@ + decimal(pr) + " not found on "@ + upstream
}

/// The message for a pull request without a test merge.
pub open spec fn no_test_merge_text(pr: nat) -> Seq<char> {
    "PR #"@ + decimal(pr) + " has no test-merge commit ("@ + crate::live::merge_ref(pr)
        + "): GitHub keeps that ref only while a PR is open — even a conflicting open PR keeps it — so this almost always means PR #"@
        + decimal(pr)
        + " is already merged or closed, not that it conflicts with its base.\nIf it really is still open, re-run with `--pr "@
        + decimal(pr)
        + " --no-merge` to compare the PR head against its fork point with master instead."@
}

/// The message for a pull request that does not exist.
fn not_found(pr: u64, upstream: &str) -> (out: String)
    ensures
        out@ == not_found_text(pr as nat, upstream@),
{
    let mut out = String::new();
    out.append("PR #");
    push_decimal(&mut out, pr);
    out.append(" not found on ");
    out.append(upstream);
    assert(out@ =~= not_found_text(pr as nat, upstream@));
    out
}

/// The message for a pull request without a test merge.
fn no_test_merge(pr: u64) -> (out: String)
    ensures
        out@ == no_test_merge_text(pr as nat),
{
    let mut out = String::new();
    out.append("PR #");
    push_decimal(&mut out, pr);
    out.append(" has no test-merge commit (");
    out.append(merge_ref(pr).as_str());
    out.append(
        "): GitHub keeps that ref only while a PR is open — even a conflicting open PR keeps it — so this almost always means PR #",
    );
    push_decimal(&mut out, pr);
    out.append(
        " is already merged or closed, not that it conflicts with its base.\nIf it really is still open, re-run with `--pr ",
    );
    push_decimal(&mut out, pr);
    out.append(" --no-merge` to compare the PR head against its fork point with master instead.");
    assert(out@ =~= no_test_merge_text(pr as nat));
    out
}

/// What to do next to resolve a pull request, given whether its test merge exists
/// and, where that was asked, whether its head does.
///
/// The parents of the test merge are the tip of the base branch and the head; its
/// tree is not used. It exists only while a pull request is open. Without it the
/// merge shape fails, and the fork-point shape falls back to `master`.
pub fn resolve_pr(
    upstream: &str,
    pr: u64,
    no_merge: bool,
    have_merge: bool,
    have_head: Option<bool>,
) -> (step: PrStep)
    ensures
        ({
            let n = pr as nat;
            let merge = crate::live::merge_ref(n);
            match step {
                PrStep::FetchHead => !have_merge && have_head is None,
                PrStep::Fork { base, head, base_display, head_display } => {
                    &&& no_merge
                    &&& (have_merge || have_head == Some(true))
                    &&& base@ == (if have_merge {
                        merge + "^1"@
                    } else {
                        "master"@
                    })
                    &&& head@ == (if have_merge {
                        merge + "^2"@
                    } else {
                        head_ref_text(n)
                    })
                    &&& base_display@ == call_text(
                        "merge-base"@,
                        pr_display(n, " base"@),
                        pr_display(n, " head"@),
                    )
                    &&& head_display@ == pr_display(n, " head"@)
                },
                PrStep::Merge { base, head, base_display, head_display } => {
                    &&& !no_merge
                    &&& have_merge
                    &&& base@ == merge + "^1"@
                    &&& head@ == merge + "^2"@
                    &&& base_display@ == pr_display(n, " base"@)
                    &&& head_display@ == pr_display(n, " head"@)
                },
                PrStep::Fail(message) => {
                    &&& !have_merge
                    &&& have_head is Some
                    &&& (have_head == Some(true) ==> !no_merge)
                    &&& message@ == (if have_head == Some(true) {
                        no_test_merge_text(n)
                    } else {
                        not_found_text(n, upstream@)
                    })
                },
            }
        }),
{
    let mut first = merge_ref(pr);
    first.append("^1");
    let mut second = merge_ref(pr);
    second.append("^2");
    let base_name = display_of_pr(pr, " base");
    let head_name = display_of_pr(pr, " head");
    if have_merge {
        if no_merge {
            return PrStep::Fork {
                base: first,
                head: second,
                base_display: call_of("merge-base", base_name.as_str(), head_name.as_str()),
                head_display: head_name,
            };
        }
        return PrStep::Merge {
            base: first,
            head: second,
            base_display: base_name,
            head_display: head_name,
        };
    }
    match have_head {
        None => PrStep::FetchHead,
        Some(false) => PrStep::Fail(not_found(pr, upstream)),
        Some(true) => if no_merge {
            PrStep::Fork {
                base: "master".to_owned(),
                head: head_ref(pr),
                base_display: call_of("merge-base", base_name.as_str(), head_name.as_str()),
                head_display: head_name,
            }
        } else {
            PrStep::Fail(no_test_merge(pr))
        },
    }
}

// --- local reviews ----------------------------------------------------------

/// Where the head of a local review comes from.
pub enum HeadChoice {
    /// The head that a patch gave.
    Patched(Rev),
    /// A revision that was named, and what to show it as.
    Explicit { rev: String, display: String },
    /// The working tree, or `HEAD` where that is clean.
    Default,
}

/// Where the head of a local review comes from: a patched head comes before a named
/// one, and a named one is taken literally.
pub fn resolve_local(
    head: Option<String>,
    head_display: Option<String>,
    patch_head: Option<Rev>,
) -> (choice: HeadChoice)
    ensures
        match choice {
            HeadChoice::Patched(rev) => patch_head == Some(rev),
            HeadChoice::Explicit { rev, display } => {
                &&& patch_head is None
                &&& head matches Some(h) && rev@ == h@ && display@ == (match head_display {
                    Some(d) => d@,
                    None => h@,
                })
            },
            HeadChoice::Default => patch_head is None && head is None,
        },
{
    match patch_head {
        Some(rev) => HeadChoice::Patched(rev),
        None => match head {
            Some(rev) => {
                let display = match head_display {
                    Some(d) => d,
                    None => rev.clone(),
                };
                HeadChoice::Explicit { rev, display }
            },
            None => HeadChoice::Default,
        },
    }
}

// --- patches ----------------------------------------------------------------

/// Where the diff of a patch comes from.
pub enum PatchSource {
    /// A file, by its path.
    File,
    /// A compare expression `A...B`.
    Compare,
}

/// What a patch argument is shown as while it is downloaded: itself, where it holds a
/// compare expression's three dots.
pub fn compare_label(patch: Option<&str>) -> (out: Option<&str>)
    ensures
        opt_str(out) == (match patch {
            Some(value) => if holds(value@, "..."@) {
                Some(value@)
            } else {
                None
            },
            None => None,
        }),
{
    match patch {
        Some(value) => if contains(value, "...") {
            Some(value)
        } else {
            None
        },
        None => None,
    }
}

/// Tells what a patch argument names: a path has a slash, a compare expression has
/// three dots.
pub fn classify_patch(value: &str) -> (out: Result<PatchSource, String>)
    ensures
        match out {
            Ok(PatchSource::File) => value@.contains('/'),
            Ok(PatchSource::Compare) => !value@.contains('/') && holds(value@, "..."@),
            Err(message) => {
                &&& !value@.contains('/')
                &&& !holds(value@, "..."@)
                &&& message@
                    == "--patch must be a path (containing a `/`, e.g. `./x.diff`) or a compare expression `A...B`; got "@
                    + quoted_text(value@)
            },
        },
{
    if contains_char(value, '/') {
        return Ok(PatchSource::File);
    }
    if contains(value, "...") {
        return Ok(PatchSource::Compare);
    }
    let mut out = String::new();
    out.append(
        "--patch must be a path (containing a `/`, e.g. `./x.diff`) or a compare expression `A...B`; got ",
    );
    out.append(quoted(value).as_str());
    assert(out@
        =~= "--patch must be a path (containing a `/`, e.g. `./x.diff`) or a compare expression `A...B`; got "@
        + quoted_text(value@));
    Err(out)
}

/// The URL of a compare expression's diff.
pub fn compare_url(expr: &str) -> (out: String)
    ensures
        out@ == UPSTREAM@ + "/compare/"@ + expr@ + ".diff"@,
{
    let mut out = String::new();
    out.append(UPSTREAM);
    out.append("/compare/");
    out.append(expr);
    out.append(".diff");
    assert(out@ =~= UPSTREAM@ + "/compare/"@ + expr@ + ".diff"@);
    out
}

/// Whether `c` is a hexadecimal digit.
pub open spec fn is_hex(c: char) -> bool {
    '0' <= c <= '9' || 'a' <= c <= 'f' || 'A' <= c <= 'F'
}

/// Whether a name is a full commit sha: 40 hexadecimal digits.
pub open spec fn full_sha(rev: Seq<char>) -> bool {
    rev.len() == 40 && forall|i: int| 0 <= i < rev.len() ==> is_hex(#[trigger] rev[i])
}

/// Whether `rev` is a full-length (40-hex) commit sha.
pub fn is_full_sha(rev: &str) -> (yes: bool)
    ensures
        yes == full_sha(rev@),
{
    let cs = chars_of(rev);
    if cs.len() != 40 {
        return false;
    }
    let mut i: usize = 0;
    while i < cs.len()
        invariant
            i <= cs@.len(),
            cs@ == rev@,
            forall|k: int| 0 <= k < i ==> is_hex(#[trigger] cs@[k]),
        decreases cs@.len() - i,
    {
        let c = cs[i];
        if !(('0' <= c && c <= '9') || ('a' <= c && c <= 'f') || ('A' <= c && c <= 'F')) {
            assert(!is_hex(rev@[i as int]));
            return false;
        }
        i += 1;
    }
    true
}

/// How an endpoint of a compare expression is pinned.
pub enum Pin {
    /// It is a sha already.
    Sha(String),
    /// It is a name, to be resolved in the local clone.
    Resolve(String),
}

/// How an endpoint of a compare expression is pinned: a full sha is immutable and
/// stays, in lower case; any other name is to be resolved.
pub fn pin_endpoint(rev: &str) -> (pin: Pin)
    ensures
        match pin {
            Pin::Sha(sha) => full_sha(rev@) && sha@ == lowered(rev@),
            Pin::Resolve(name) => !full_sha(rev@) && name@ == rev@,
        },
{
    if is_full_sha(rev) {
        Pin::Sha(to_lower(rev))
    } else {
        Pin::Resolve(rev.to_owned())
    }
}

/// How the two endpoints of a compare expression are pinned, or the message for one
/// that is none.
pub fn pin_compare(expr: &str) -> (out: Result<(Pin, Pin), String>)
    ensures
        match out {
            Ok((a, b)) => cut(expr@, "..."@) matches Some(ends) && pinned_as(ends.0, a)
                && pinned_as(ends.1, b),
            Err(message) => cut(expr@, "..."@) is None && message@
                == "compare expression must be `A...B`; got "@ + quoted_text(expr@),
        },
{
    match split_once(expr, "...") {
        Some((a, b)) => Ok((pin_endpoint(a), pin_endpoint(b))),
        None => {
            let mut out = String::new();
            out.append("compare expression must be `A...B`; got ");
            out.append(quoted(expr).as_str());
            assert(out@ =~= "compare expression must be `A...B`; got "@ + quoted_text(expr@));
            Err(out)
        },
    }
}

/// Whether `pin` is how the endpoint `rev` is pinned.
pub open spec fn pinned_as(rev: Seq<char>, pin: Pin) -> bool {
    match pin {
        Pin::Sha(sha) => full_sha(rev) && sha@ == lowered(rev),
        Pin::Resolve(name) => !full_sha(rev) && name@ == rev,
    }
}

/// The compare expression of two pinned endpoints.
pub fn compare_expr(a: &str, b: &str) -> (out: String)
    ensures
        out@ == a@ + "..."@ + b@,
{
    let mut out = a.to_owned();
    out.append("...");
    out.append(b);
    out
}

/// Pinning what is pinned changes nothing: a full sha in lower case is a full sha,
/// and its own lower case.
pub proof fn lemma_pin_is_stable(rev: Seq<char>)
    requires
        full_sha(rev),
    ensures
        full_sha(lowered(rev)),
        lowered(lowered(rev)) == lowered(rev),
{
    let low = lowered(rev);
    assert forall|i: int| 0 <= i < low.len() implies is_hex(#[trigger] low[i]) && crate::search::lower(
        low[i],
    ) == low[i] by {
        assert(is_hex(rev[i]));
    }
    assert(lowered(low) =~= low);
}

/// What to do next for the head of a compare expression: mint it over the tree that
/// is cached for it, or download the diff and apply it.
pub enum CompareStep {
    Mint(String),
    Download,
}

/// What to do next for the head of a compare expression, given the tree that is
/// cached for it and whether minting over that has failed: the objects of a cached
/// tree may be gone.
pub fn resolve_compare_head(cached: Option<String>, mint_failed: bool) -> (step: CompareStep)
    ensures
        match step {
            CompareStep::Mint(tree) => !mint_failed && opt_text(cached) == Some(tree@),
            CompareStep::Download => mint_failed || cached is None,
        },
{
    match cached {
        Some(tree) => if mint_failed {
            CompareStep::Download
        } else {
            CompareStep::Mint(tree)
        },
        None => CompareStep::Download,
    }
}

// --- laws -------------------------------------------------------------------

/// The refs of pull requests tell them apart, and the head of one from its test merge.
pub proof fn lemma_refs_distinct(a: nat, b: nat)
    ensures
        head_ref_text(a) == head_ref_text(b) ==> a == b,
        crate::live::merge_ref(a) == crate::live::merge_ref(b) ==> a == b,
        head_ref_text(a) != crate::live::merge_ref(b),
        ("refs/pull/"@ + decimal(a) + "/"@).is_prefix_of(head_ref_text(a)),
        ("refs/pull/"@ + decimal(a) + "/"@).is_prefix_of(crate::live::merge_ref(a)),
        "/head"@.is_suffix_of(head_ref_text(a)),
        "/merge"@.is_suffix_of(crate::live::merge_ref(a)),
{
    reveal_strlit("refs/pull/");
    reveal_strlit("/head");
    reveal_strlit("/merge");
    reveal_strlit("/");
    let (ha, hb) = (head_ref_text(a), head_ref_text(b));
    let (ma, mb) = (crate::live::merge_ref(a), crate::live::merge_ref(b));
    let start = "refs/pull/"@ + decimal(a) + "/"@;
    crate::text::lemma_decimal_value(a);
    crate::text::lemma_decimal_value(b);
    assert(ha.subrange(0, start.len() as int) =~= start);
    assert(ma.subrange(0, start.len() as int) =~= start);
    assert(ha.subrange(ha.len() - 5, ha.len() as int) =~= "/head"@);
    assert(ma.subrange(ma.len() - 6, ma.len() as int) =~= "/merge"@);
    if ha == hb {
        assert(ha.subrange(10, ha.len() - 5) =~= decimal(a));
        assert(hb.subrange(10, hb.len() - 5) =~= decimal(b));
    }
    if ma == mb {
        assert(ma.subrange(10, ma.len() - 6) =~= decimal(a));
        assert(mb.subrange(10, mb.len() - 6) =~= decimal(b));
    }
    if ha == mb {
        assert(ha[ha.len() - 1] == 'd');
        assert(mb[mb.len() - 1] == 'e');
    }
}

/// A full sha is forty hexadecimal digits, in either case.
pub proof fn lemma_full_sha(rev: Seq<char>)
    ensures
        full_sha(rev) <==> rev.len() == 40 && forall|i: int|
            0 <= i < rev.len() ==> {
                let c = #[trigger] rev[i];
                ('0' <= c <= '9') || ('a' <= c <= 'f') || ('A' <= c <= 'F')
            },
{
    if rev.len() == 40 && forall|i: int|
        0 <= i < rev.len() ==> {
            let c = #[trigger] rev[i];
            ('0' <= c <= '9') || ('a' <= c <= 'f') || ('A' <= c <= 'F')
        } {
        assert forall|i: int| 0 <= i < rev.len() implies is_hex(#[trigger] rev[i]) by {}
    }
    if full_sha(rev) {
        assert forall|i: int| 0 <= i < rev.len() implies ({
            let c = #[trigger] rev[i];
            ('0' <= c <= '9') || ('a' <= c <= 'f') || ('A' <= c <= 'F')
        }) by {
            assert(is_hex(rev[i]));
        }
    }
}

/// The author and the committer of what is made here are always the same, at the same
/// time, so that one tree on one parent is always one commit.
pub proof fn lemma_identity()
    ensures
        identity().len() == 6,
        identity()[0] == ("GIT_AUTHOR_NAME"@, "npb"@),
        identity()[3] == ("GIT_COMMITTER_NAME"@, identity()[0].1),
        identity()[1] == ("GIT_AUTHOR_EMAIL"@, "npb@localhost"@),
        identity()[4] == ("GIT_COMMITTER_EMAIL"@, identity()[1].1),
        identity()[2] == ("GIT_AUTHOR_DATE"@, "1970-01-01T00:00:00Z"@),
        identity()[5] == ("GIT_COMMITTER_DATE"@, identity()[2].1),
{
}

/// What joins two sides names both, in their order.
pub proof fn lemma_call_names(name: Seq<char>, a: Seq<char>, b: Seq<char>)
    ensures
        (name + "("@ + a + ", "@).is_prefix_of(call_text(name, a, b)),
        (", "@ + b + ")"@).is_suffix_of(call_text(name, a, b)),
        call_text(name, a, b).len() == name.len() + a.len() + b.len() + 4,
{
    reveal_strlit("(");
    reveal_strlit(", ");
    reveal_strlit(")");
    let text = call_text(name, a, b);
    let start = name + "("@ + a + ", "@;
    let end = ", "@ + b + ")"@;
    assert(text.subrange(0, start.len() as int) =~= start);
    assert(text.subrange(text.len() - end.len(), text.len() as int) =~= end);
}

/// What is told of a failed command holds the command and what it printed.
pub proof fn lemma_failure_told(args: Seq<Seq<char>>, stderr: Seq<u8>)
    ensures
        ("git "@ + joined(args, " "@) + " failed: "@).is_prefix_of(failed_text(args, stderr)),
        trimmed(lossy_text(stderr)).is_suffix_of(failed_text(args, stderr)),
{
    let text = failed_text(args, stderr);
    let start = "git "@ + joined(args, " "@) + " failed: "@;
    let end = trimmed(lossy_text(stderr));
    assert(text.subrange(0, start.len() as int) =~= start);
    assert(text.subrange(text.len() - end.len(), text.len() as int) =~= end);
}

/// What is told of a pull request that was not found, or that has no test merge, names it;
/// the first also where it was looked for.
pub proof fn lemma_pr_told(pr: nat, upstream: Seq<char>)
    ensures
        ("PR #"@ + decimal(pr) + " not found"@).is_prefix_of(not_found_text(pr, upstream)),
        upstream.is_suffix_of(not_found_text(pr, upstream)),
        ("PR #"@ + decimal(pr) + " has no test-merge commit ("@ + crate::live::merge_ref(
            pr,
        )).is_prefix_of(no_test_merge_text(pr)),
        pr_display(pr, upstream) == seq!['#'] + decimal(pr) + upstream,
{
    let missing = not_found_text(pr, upstream);
    let first = "PR #"@ + decimal(pr) + " not found"@;
    reveal_strlit(" not found");
    reveal_strlit(" not found on ");
    reveal_strlit("#");
    assert("#"@ =~= seq!['#']);
    assert(missing.subrange(0, first.len() as int) =~= first);
    assert(missing.subrange(missing.len() - upstream.len(), missing.len() as int) =~= upstream);
    let closed = no_test_merge_text(pr);
    let second = "PR #"@ + decimal(pr) + " has no test-merge commit ("@ + crate::live::merge_ref(
        pr,
    );
    assert(closed.subrange(0, second.len() as int) =~= second);
}

/// An end of a compare expression is pinned as it is, in lower case, where it is a full
/// sha, and otherwise is a name to resolve.
pub proof fn lemma_pinned(rev: Seq<char>, pin: Pin)
    requires
        pinned_as(rev, pin),
    ensures
        pin is Sha <==> full_sha(rev),
        pin matches Pin::Sha(sha) ==> sha@ == lowered(rev),
        pin matches Pin::Resolve(name) ==> name@ == rev,
{
}

/// What is told of one tree on both sides names it, and some line starts with a prefix if
/// and only if one does.
pub proof fn lemma_same_tree_told(tree: Seq<char>, lines: Seq<Seq<char>>, prefix: Seq<char>)
    ensures
        ("base and head are the same tree ("@ + tree + ")"@).is_prefix_of(same_tree_text(tree)),
        !some_starts(lines, prefix) <==> forall|i: int|
            0 <= i < lines.len() ==> !prefix.is_prefix_of(#[trigger] lines[i]),
{
    let text = same_tree_text(tree);
    let start = "base and head are the same tree ("@ + tree + ")"@;
    reveal_strlit(")");
    reveal_strlit(
        ") — nothing to review.\n(A clean checkout, an unmoved --pr, or a --base/--head typo?)",
    );
    assert(text.subrange(0, start.len() as int) =~= start);
}

} // verus!
