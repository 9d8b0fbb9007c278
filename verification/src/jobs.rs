//! Running the evaluator: its arguments, what its output means, and when its
//! output is to be trusted.

use std::collections::VecDeque;

use vstd::prelude::*;

use crate::model::{AttrEval, Profile, TestJob};
use crate::outside::{attr_names, lossy, lossy_text, read_names};
use crate::text::{decimal, join, joined, push_decimal, texts};

verus! {

// --- the evaluator's output -------------------------------------------------

/// The availability marks of a package that the evaluator reports.
#[derive(Debug, Clone, Copy)]
pub struct RawMeta {
    pub broken: Option<bool>,
    pub unsupported: Option<bool>,
    pub insecure: Option<bool>,
}

impl Default for RawMeta {
    fn default() -> (meta: Self)
        ensures
            meta.broken is None,
            meta.unsupported is None,
            meta.insecure is None,
    {
        RawMeta { broken: None, unsupported: None, insecure: None }
    }
}

/// One job of the evaluator's output.
#[derive(Debug)]
pub struct RawJob {
    pub attr: String,
    /// The attribute path as a list of unquoted elements.
    pub attr_path: Vec<String>,
    /// `None` where the evaluation of the attribute errored.
    pub drv_path: Option<String>,
    pub meta: Option<RawMeta>,
}

/// Whether the marks say that a package is not to be built by default.
pub open spec fn marked(meta: RawMeta) -> bool {
    meta.broken == Some(true) || meta.unsupported == Some(true) || meta.insecure == Some(true)
}

/// Whether a job's package is not to be built by default; one without marks is.
pub open spec fn job_marked(meta: Option<RawMeta>) -> bool {
    match meta {
        Some(meta) => marked(meta),
        None => false,
    }
}

/// Folds the availability marks into one bit: marked broken, or unsupported on
/// this system, or insecure.
pub fn meta_skipped(meta: &RawMeta) -> (skipped: bool)
    ensures
        skipped == marked(*meta),
{
    let set = |mark: Option<bool>| -> (yes: bool)
        ensures
            yes == (mark == Some(true)),
        {
            match mark {
                Some(b) => b,
                None => false,
            }
        };
    set(meta.broken) || set(meta.unsupported) || set(meta.insecure)
}

/// The marks of a job, or none.
fn meta_of(meta: Option<RawMeta>) -> (out: RawMeta)
    ensures
        marked(out) == job_marked(meta),
{
    match meta {
        Some(meta) => meta,
        None => RawMeta::default(),
    }
}

/// The marks that are left of a package's under a profile: those that it allows are
/// lifted, each by itself.
pub open spec fn lifted(meta: RawMeta, profile: Profile) -> RawMeta {
    RawMeta {
        broken: if profile.broken {
            None
        } else {
            meta.broken
        },
        unsupported: if profile.unsupported {
            None
        } else {
            meta.unsupported
        },
        insecure: if profile.insecure {
            None
        } else {
            meta.insecure
        },
    }
}

/// A job as it is under a profile: its package keeps the marks that the profile does not
/// allow, and is not to be built where one of them is set.
pub fn lift_marks(raw: RawJob, profile: Profile) -> (out: RawJob)
    ensures
        out == (RawJob {
            meta: match raw.meta {
                Some(meta) => Some(lifted(meta, profile)),
                None => None,
            },
            ..raw
        }),
        job_marked(out.meta) == (raw.meta matches Some(meta) && ((meta.broken == Some(true)
            && !profile.broken) || (meta.unsupported == Some(true) && !profile.unsupported) || (
        meta.insecure == Some(true) && !profile.insecure))),
{
    let meta = match raw.meta {
        Some(meta) => Some(
            RawMeta {
                broken: if profile.broken {
                    None
                } else {
                    meta.broken
                },
                unsupported: if profile.unsupported {
                    None
                } else {
                    meta.unsupported
                },
                insecure: if profile.insecure {
                    None
                } else {
                    meta.insecure
                },
            },
        ),
        None => None,
    };
    RawJob { attr: raw.attr, attr_path: raw.attr_path, drv_path: raw.drv_path, meta }
}

/// What a job of the full evaluation says of its attribute.
pub fn raw_to_attr_eval(raw: RawJob) -> (out: AttrEval)
    ensures
        out.attr == raw.attr,
        out.drv_path == raw.drv_path,
        out.skipped == job_marked(raw.meta),
{
    AttrEval {
        attr: raw.attr,
        drv_path: raw.drv_path,
        skipped: meta_skipped(&meta_of(raw.meta)),
    }
}

/// What a job of the test evaluation says of its test. The first element of the
/// path is the package; the whole path, joined, is the label.
pub fn raw_to_test_job(raw: RawJob) -> (out: TestJob)
    ensures
        out.pkg_attr@ == (if raw.attr_path@.len() > 0 {
            raw.attr_path@[0]@
        } else {
            Seq::empty()
        }),
        out.test_attr@ == joined(texts(raw.attr_path@), "."@),
        out.drv_path == raw.drv_path,
        out.skipped == job_marked(raw.meta),
{
    let pkg_attr = if raw.attr_path.len() > 0 {
        raw.attr_path[0].clone()
    } else {
        String::new()
    };
    TestJob {
        pkg_attr,
        test_attr: join(&raw.attr_path, "."),
        skipped: meta_skipped(&meta_of(raw.meta)),
        drv_path: raw.drv_path,
    }
}

// --- running the evaluator --------------------------------------------------

/// The arguments of the evaluator before the expression's file: one worker count
/// and memory cap, and whether derivations are written to the store.
pub open spec fn job_args_text(
    workers: nat,
    per_worker_mb: nat,
    instantiate: bool,
) -> Seq<Seq<char>> {
    let args = seq![
        "--meta"@,
        "--workers"@,
        decimal(workers),
        "--max-memory-size"@,
        decimal(per_worker_mb),
    ];
    if instantiate {
        args
    } else {
        args.push("--no-instantiate"@)
    }
}

/// The arguments of the evaluator before the expression's file.
pub fn job_args(workers: usize, per_worker_mb: u64, instantiate: bool) -> (out: Vec<String>)
    ensures
        texts(out@) == job_args_text(workers as nat, per_worker_mb as nat, instantiate),
{
    let mut n = String::new();
    push_decimal(&mut n, workers as u64);
    let mut mb = String::new();
    push_decimal(&mut mb, per_worker_mb);
    assert(n@ =~= decimal(workers as nat));
    assert(mb@ =~= decimal(per_worker_mb as nat));
    let mut out: Vec<String> = Vec::new();
    out.push("--meta".to_owned());
    out.push("--workers".to_owned());
    out.push(n);
    out.push("--max-memory-size".to_owned());
    out.push(mb);
    if !instantiate {
        out.push("--no-instantiate".to_owned());
    }
    assert(texts(out@) =~= job_args_text(workers as nat, per_worker_mb as nat, instantiate));
    out
}

/// How many lines of the evaluator's standard error are kept.
pub const KEEP: usize = 20;

/// The last lines of a stream.
pub struct Tail {
    pub lines: VecDeque<String>,
}

/// The last lines of some lines.
pub open spec fn last_lines(all: Seq<String>) -> Seq<String> {
    if all.len() > KEEP {
        all.skip(all.len() - KEEP)
    } else {
        all
    }
}

impl Tail {
    /// No lines.
    pub fn new() -> (tail: Self)
        ensures
            tail.lines@ == last_lines(Seq::empty()),
    {
        Tail { lines: VecDeque::new() }
    }

    /// Takes in one more line; the oldest goes where there are too many. What is
    /// kept are the last lines of all that came in.
    pub fn push(&mut self, line: String)
        requires
            old(self).lines@.len() <= KEEP,
        ensures
            final(self).lines@.len() <= KEEP,
            forall|all: Seq<String>|
                old(self).lines@ == #[trigger] last_lines(all) ==> final(self).lines@ == last_lines(
                    all.push(line),
                ),
    {
        let ghost before = self.lines@;
        if self.lines.len() == KEEP {
            let _ = self.lines.pop_front();
        }
        self.lines.push_back(line);
        proof {
            assert forall|all: Seq<String>| before == #[trigger] last_lines(all) implies self.lines@
                == last_lines(all.push(line)) by {
                assert(self.lines@ =~= last_lines(all.push(line)));
            }
        }
    }

    /// The lines, as one text.
    pub fn text(&self) -> (out: String)
        ensures
            out@ == joined(texts(self.lines@), "\n"@),
    {
        let mut lines: Vec<String> = Vec::new();
        let mut i: usize = 0;
        while i < self.lines.len()
            invariant
                i <= self.lines@.len(),
                lines@ == self.lines@.take(i as int),
            decreases self.lines@.len() - i,
        {
            lines.push(self.lines[i].clone());
            i += 1;
            assert(lines@ =~= self.lines@.take(i as int));
        }
        assert(lines@ =~= self.lines@);
        join(&lines, "\n")
    }
}

/// What is said of an evaluator that did not finish.
pub open spec fn truncated_text(
    label: Seq<char>,
    status: Seq<char>,
    attrs: nat,
    tail: Seq<char>,
) -> Seq<char> {
    "nix-eval-jobs did not finish evaluating "@ + label + ": it exited "@ + status
        + " after streaming "@ + decimal(attrs)
        + " attr(s), so the result is truncated and will NOT be cached. A worker most likely died — commonly out-of-memory. Last stderr:\n"@
        + tail
}

/// Takes the jobs of an evaluator that has exited. A failure of one attribute is in
/// the output and does not affect the exit status; another status than success
/// means that the output is truncated, and none of it is taken.
pub fn gate<T>(
    jobs: Vec<T>,
    success: bool,
    label: &str,
    status: &str,
    tail: &str,
) -> (out: Result<Vec<T>, String>)
    ensures
        match out {
            Ok(taken) => success && taken == jobs,
            Err(message) => !success && message@ == truncated_text(
                label@,
                status@,
                jobs@.len(),
                tail@,
            ),
        },
{
    if success {
        return Ok(jobs);
    }
    let mut out = String::new();
    out.append("nix-eval-jobs did not finish evaluating ");
    out.append(label);
    out.append(": it exited ");
    out.append(status);
    out.append(" after streaming ");
    push_decimal(&mut out, jobs.len() as u64);
    out.append(
        " attr(s), so the result is truncated and will NOT be cached. A worker most likely died — commonly out-of-memory. Last stderr:\n",
    );
    out.append(tail);
    assert(out@ =~= truncated_text(label@, status@, jobs@.len(), tail@));
    Err(out)
}

// --- attribute names --------------------------------------------------------

/// Whether a top-level name is one to evaluate: the evaluator's own marker is not.
pub open spec fn is_package_name(name: Seq<char>) -> bool {
    name != "recurseForDerivations"@
}

/// The names to evaluate.
pub open spec fn package_names(names: Seq<Seq<char>>) -> Seq<Seq<char>> {
    names.filter(|n: Seq<char>| is_package_name(n))
}

/// The names to evaluate, without the evaluator's own marker.
pub fn keep_names(names: Vec<String>) -> (out: Vec<String>)
    ensures
        texts(out@) == package_names(texts(names@)),
{
    let ghost all = texts(names@);
    let ghost pred = |n: Seq<char>| is_package_name(n);
    let mut out: Vec<String> = Vec::new();
    let mut i: usize = 0;
    proof {
        reveal(Seq::filter);
        assert(all.take(0) =~= Seq::<Seq<char>>::empty());
        assert(texts(out@) =~= Seq::<Seq<char>>::empty());
    }
    while i < names.len()
        invariant
            i <= names@.len(),
            all == texts(names@),
            pred == (|n: Seq<char>| is_package_name(n)),
            texts(out@) == all.take(i as int).filter(pred),
        decreases names@.len() - i,
    {
        proof {
            reveal(Seq::filter);
            assert(all.take(i + 1).drop_last() =~= all.take(i as int));
            assert(all.take(i + 1).last() == names@[i as int]@);
        }
        let ghost before = texts(out@);
        if !(*names[i].as_str() == *"recurseForDerivations") {
            out.push(names[i].clone());
            assert(texts(out@) =~= before.push(names@[i as int]@));
        }
        i += 1;
    }
    assert(all.take(i as int) =~= all);
    out
}

/// The top-level attribute names that the evaluator printed as JSON, or why they
/// could not be read.
pub fn enumerate_names(stdout: &[u8]) -> (out: Result<Vec<String>, String>)
    ensures
        match out {
            Ok(names) => attr_names(stdout@) matches Ok(all) && texts(names@) == package_names(all),
            Err(message) => attr_names(stdout@) matches Err(why) && message@ == why,
        },
{
    match read_names(stdout) {
        Ok(names) => Ok(keep_names(names)),
        Err(e) => Err(e),
    }
}

/// What is said where the names could not be enumerated.
pub fn enumerate_failure(rev: &str, system: &str, stderr: &[u8]) -> (out: String)
    ensures
        out@ == "enumerating top-level attrs of "@ + rev@ + " ("@ + system@ + ") failed:\n"@
            + lossy_text(stderr@),
{
    let mut out = String::new();
    out.append("enumerating top-level attrs of ");
    out.append(rev);
    out.append(" (");
    out.append(system);
    out.append(") failed:\n");
    out.append(lossy(stderr).as_str());
    assert(out@ =~= "enumerating top-level attrs of "@ + rev@ + " ("@ + system@ + ") failed:\n"@
        + lossy_text(stderr@));
    out
}

// --- laws -------------------------------------------------------------------

/// A package is marked if and only if one of its marks is set, and under a profile if and
/// only if one is set that the profile does not allow.
pub proof fn lemma_marks(meta: RawMeta, profile: Profile)
    ensures
        job_marked(Some(meta)) <==> meta.broken == Some(true) || meta.unsupported == Some(true)
            || meta.insecure == Some(true),
        job_marked(Some(lifted(meta, profile))) <==> (meta.broken == Some(true) && !profile.broken)
            || (meta.unsupported == Some(true) && !profile.unsupported) || (meta.insecure == Some(
            true,
        ) && !profile.insecure),
        !job_marked(None),
{
}

/// The evaluator is told how many workers to run and how much memory each may use, and
/// writes derivations if and only if they are to be instantiated.
pub proof fn lemma_job_args(workers: nat, per_worker_mb: nat, instantiate: bool)
    ensures
        ({
            let args = job_args_text(workers, per_worker_mb, instantiate);
            &&& args[1] == "--workers"@ && args[2] == decimal(workers)
            &&& args[3] == "--max-memory-size"@ && args[4] == decimal(per_worker_mb)
            &&& args.contains("--meta"@)
            &&& args.len() == (if instantiate {
                5int
            } else {
                6
            })
            &&& !instantiate ==> args.last() == "--no-instantiate"@
        }),
{
    let args = job_args_text(workers, per_worker_mb, instantiate);
    assert(args[0] == "--meta"@);
}

/// What is kept of some lines is the last twenty of them, or all where there are fewer.
pub proof fn lemma_last_lines(all: Seq<String>)
    ensures
        last_lines(all).is_suffix_of(all),
        all.len() <= 20 ==> last_lines(all) == all,
        all.len() > 20 ==> last_lines(all).len() == 20,
{
    let kept = last_lines(all);
    assert(all.subrange(all.len() - kept.len(), all.len() as int) =~= kept);
}

/// Every name is that of a package, but for the one that marks a set as one to recurse
/// into.
pub proof fn lemma_package_names(names: Seq<Seq<char>>, name: Seq<char>)
    ensures
        package_names(names).contains(name) <==> names.contains(name) && name
            != "recurseForDerivations"@,
        !names.contains("recurseForDerivations"@) ==> package_names(names) == names,
{
    let pred = |n: Seq<char>| is_package_name(n);
    let kept = names.filter(pred);
    if kept.contains(name) {
        let k = choose|k: int| 0 <= k < kept.len() && kept[k] == name;
        names.lemma_filter_pred(pred, k);
        names.lemma_filter_contains_rev(pred, name);
    }
    if names.contains(name) && name != "recurseForDerivations"@ {
        let k = choose|k: int| 0 <= k < names.len() && names[k] == name;
        names.lemma_filter_contains(pred, k);
    }
    if !names.contains("recurseForDerivations"@) {
        assert forall|i: int| 0 <= i < names.len() implies pred(#[trigger] names[i]) by {
            assert(names.contains(names[i]));
        }
        lemma_filter_all(names, pred);
    }
}

/// Choosing everything leaves a list as it is.
proof fn lemma_filter_all(s: Seq<Seq<char>>, pred: spec_fn(Seq<char>) -> bool)
    requires
        forall|i: int| 0 <= i < s.len() ==> pred(#[trigger] s[i]),
    ensures
        s.filter(pred) == s,
    decreases s.len(),
{
    reveal(Seq::filter);
    if s.len() > 0 {
        let front = s.drop_last();
        assert forall|i: int| 0 <= i < front.len() implies pred(#[trigger] front[i]) by {
            assert(pred(s[i]));
        }
        lemma_filter_all(front, pred);
        assert(pred(s[s.len() - 1]));
        assert(s =~= front.push(s.last()));
    } else {
        assert(s.filter(pred) =~= s);
    }
}

/// A truncated evaluation is told with what was evaluated, how the evaluator exited, how
/// far it came, and what it said last.
pub proof fn lemma_truncated_text(
    label: Seq<char>,
    status: Seq<char>,
    attrs: nat,
    tail: Seq<char>,
)
    ensures
        ("nix-eval-jobs did not finish evaluating "@ + label + ": it exited "@ + status
            + " after streaming "@ + decimal(attrs)).is_prefix_of(
            truncated_text(label, status, attrs, tail),
        ),
        tail.is_suffix_of(truncated_text(label, status, attrs, tail)),
{
    let text = truncated_text(label, status, attrs, tail);
    let start = "nix-eval-jobs did not finish evaluating "@ + label + ": it exited "@ + status
        + " after streaming "@ + decimal(attrs);
    assert(text.subrange(0, start.len() as int) =~= start);
    assert(text.subrange(text.len() - tail.len(), text.len() as int) =~= tail);
}

} // verus!
