//! The core data model: plain data, and the policy that turns what is known of a
//! derivation into what to do about it.
//!
//! Build facts are keyed on the derivation path, the stable identity of a build
//! recipe: it survives failures, unlike an output path, and is shared across
//! commits.

use vstd::prelude::*;

use crate::text::texts;

verus! {

/// A revision to evaluate.
///
/// The eval is a function of the source *tree*, not of the commit that carries
/// it, so evals are keyed on `tree`. `commit` is a commit that realizes the tree,
/// for fetching. `label` identifies the side: the sha of a real commit, or
/// `worktree` for a synthetic head. `display` is the name of the side that a
/// person would use: `master`, `HEAD`, `#431 base`, `merge(a, b)`.
#[derive(Debug)]
pub struct Rev {
    /// The git tree hash: the eval cache key.
    pub tree: String,
    /// A commit realizing `tree`.
    pub commit: String,
    /// Identity label: a commit sha, or `worktree`.
    pub label: String,
    /// Human name of this side.
    pub display: String,
}

/// The texts of a [`Rev`].
#[verifier::ext_equal]
pub struct RevView {
    pub tree: Seq<char>,
    pub commit: Seq<char>,
    pub label: Seq<char>,
    pub display: Seq<char>,
}

impl View for Rev {
    type V = RevView;

    open spec fn view(&self) -> RevView {
        RevView {
            tree: self.tree@,
            commit: self.commit@,
            label: self.label@,
            display: self.display@,
        }
    }
}

impl Clone for Rev {
    fn clone(&self) -> (out: Self)
        ensures
            out == *self,
    {
        Rev {
            tree: self.tree.clone(),
            commit: self.commit.clone(),
            label: self.label.clone(),
            display: self.display.clone(),
        }
    }
}

/// What the evaluated package set allows. The strict profile allows none of these.
#[derive(Debug, Clone, Copy, PartialEq, Eq, Structural)]
pub struct Profile {
    pub broken: bool,
    pub unsupported: bool,
    pub insecure: bool,
}

/// The letter of an axis that is allowed, else a dash.
pub open spec fn axis(allowed: bool, letter: char) -> char {
    if allowed {
        letter
    } else {
        '-'
    }
}

/// The key of a system under a profile: `<token>/<system>`, the token having one
/// character for each axis.
pub open spec fn qualified(profile: Profile, system: Seq<char>) -> Seq<char> {
    seq![
        axis(profile.unsupported, 'u'),
        axis(profile.broken, 'b'),
        axis(profile.insecure, 'i'),
        '/',
    ] + system
}

impl Profile {
    /// The key under which evaluations for `system` are stored.
    pub fn qualify(&self, system: &str) -> (out: String)
        ensures
            out@ == qualified(*self, system@),
    {
        let mut out = String::new();
        out.push(if self.unsupported {
            'u'
        } else {
            '-'
        });
        out.push(if self.broken {
            'b'
        } else {
            '-'
        });
        out.push(if self.insecure {
            'i'
        } else {
            '-'
        });
        out.push('/');
        out.append(system);
        assert(out@ =~= qualified(*self, system@));
        out
    }
}

/// Keys tell profiles and systems apart: no two share one.
pub proof fn lemma_keys_distinct(p: Profile, a: Seq<char>, q: Profile, b: Seq<char>)
    requires
        qualified(p, a) == qualified(q, b),
    ensures
        p == q,
        a == b,
{
    let (x, y) = (qualified(p, a), qualified(q, b));
    assert(x[0] == axis(p.unsupported, 'u') && y[0] == axis(q.unsupported, 'u'));
    assert(x[1] == axis(p.broken, 'b') && y[1] == axis(q.broken, 'b'));
    assert(x[2] == axis(p.insecure, 'i') && y[2] == axis(q.insecure, 'i'));
    assert(x.skip(4) =~= a && y.skip(4) =~= b);
}

/// Result of evaluating one attribute on one system at one commit. `drv_path` is
/// `None` where the evaluation itself errored. `skipped` is the one bit that the
/// availability marks of the package fold into.
#[derive(Debug)]
pub struct AttrEval {
    pub attr: String,
    pub drv_path: Option<String>,
    pub skipped: bool,
}

/// One resolved `passthru.tests` entry: the package that the test hangs off, the
/// full `<pkg>.tests.<name>` label, the derivation (`None` where the test
/// errored), and the test's own availability bit.
#[derive(Debug)]
pub struct TestJob {
    pub pkg_attr: String,
    pub test_attr: String,
    pub drv_path: Option<String>,
    pub skipped: bool,
}

/// The result of a single build attempt or observation.
#[derive(Debug, Clone, Copy, PartialEq, Eq, Structural)]
pub enum Outcome {
    /// The outputs were seen valid: a local build succeeded, or a substituter has
    /// them.
    Built,
    /// The derivation itself failed to build.
    Failed,
    /// A dependency failed; this derivation never ran.
    DepFailed,
}

/// One fact about one derivation. Facts are only ever added: flakiness is several
/// facts about one derivation with differing outcomes.
///
/// `blocker` holds the output paths whose validity decides this fact anew: the
/// failing dependency's outputs for [`Outcome::DepFailed`], the derivation's own
/// for [`Outcome::Failed`].
#[derive(Debug)]
pub struct Observation {
    pub drv_path: String,
    pub outcome: Outcome,
    pub blocker: Vec<String>,
}

/// What an [`Observation`] says.
#[verifier::ext_equal]
pub struct ObservationView {
    pub drv_path: Seq<char>,
    pub outcome: Outcome,
    pub blocker: Seq<Seq<char>>,
}

impl View for Observation {
    type V = ObservationView;

    open spec fn view(&self) -> ObservationView {
        ObservationView {
            drv_path: self.drv_path@,
            outcome: self.outcome,
            blocker: texts(self.blocker@),
        }
    }
}

/// What the build policy says to do about a derivation.
#[derive(Debug, Clone, Copy, PartialEq, Eq, Structural)]
pub enum Decision {
    /// Never observed, or explicitly forced: attempt it.
    Build,
    /// A trusted success exists: don't rebuild.
    SkipOk,
    /// Only failures observed: don't waste time.
    SkipFail,
    /// Marked as unavailable: not attempted.
    Skipped,
}

/// Turns a derivation's observations into an action.
#[derive(Debug, Clone, Copy)]
pub struct BuildPolicy {
    /// Attempt a derivation again that has failed before.
    pub retry: bool,
    /// Build the packages that would otherwise be skipped for being marked
    /// broken, unsupported or insecure.
    pub no_skip: bool,
}

impl Default for BuildPolicy {
    fn default() -> (policy: Self)
        ensures
            !policy.retry,
            !policy.no_skip,
    {
        BuildPolicy { retry: false, no_skip: false }
    }
}

/// Whether some observation has the outcome `outcome`.
pub open spec fn seen(observations: Seq<Observation>, outcome: Outcome) -> bool {
    exists|i: int| 0 <= i < observations.len() && (#[trigger] observations[i]).outcome == outcome
}

/// Whether some observation has the outcome `outcome`.
pub fn has_outcome(observations: &[Observation], outcome: Outcome) -> (found: bool)
    ensures
        found == seen(observations@, outcome),
{
    let mut i: usize = 0;
    while i < observations.len()
        invariant
            i <= observations@.len(),
            forall|k: int| 0 <= k < i ==> (#[trigger] observations@[k]).outcome != outcome,
        decreases observations@.len() - i,
    {
        if observations[i].outcome == outcome {
            return true;
        }
        i += 1;
    }
    false
}

/// What to do about a derivation, given which outcomes were seen of it.
pub open spec fn decision(
    policy: BuildPolicy,
    observations: Seq<Observation>,
    skipped: bool,
    dep_block_stale: bool,
) -> Decision {
    if skipped && !policy.no_skip {
        Decision::Skipped
    } else if seen(observations, Outcome::Built) {
        Decision::SkipOk
    } else if !policy.retry && (seen(observations, Outcome::Failed) || (seen(
        observations,
        Outcome::DepFailed,
    ) && !dep_block_stale)) {
        Decision::SkipFail
    } else {
        Decision::Build
    }
}

impl BuildPolicy {
    /// Decides whether to build a derivation, given its observations.
    ///
    /// `skipped` is the availability bit of the attribute: where it is set and
    /// not overridden, nothing that was recorded matters. A success settles the
    /// matter otherwise. A direct failure is sticky; a dependency block holds
    /// only while the culprit still fails, which the caller has checked
    /// (`dep_block_stale`). `retry` attempts either again.
    pub fn decide(
        &self,
        observations: &[Observation],
        skipped: bool,
        dep_block_stale: bool,
    ) -> (out: Decision)
        ensures
            out == decision(*self, observations@, skipped, dep_block_stale),
    {
        let built = has_outcome(observations, Outcome::Built);
        let direct_failed = has_outcome(observations, Outcome::Failed);
        let dep_failed = has_outcome(observations, Outcome::DepFailed);
        if skipped && !self.no_skip {
            return Decision::Skipped;
        }
        if built {
            return Decision::SkipOk;
        }
        if !self.retry {
            if direct_failed {
                return Decision::SkipFail;
            }
            if dep_failed && !dep_block_stale {
                return Decision::SkipFail;
            }
        }
        Decision::Build
    }
}

// --- laws -------------------------------------------------------------------

/// When each decision comes, over what was observed. A derivation that is marked is
/// skipped unless the policy overrides the mark. Otherwise a success is never built
/// again; a failure is, and a block that holds still, only where the policy says so;
/// and anything else is built.
pub proof fn lemma_decision_cases(
    policy: BuildPolicy,
    observations: Seq<Observation>,
    skipped: bool,
    stale: bool,
)
    ensures
        ({
            let out = decision(policy, observations, skipped, stale);
            let considered = !skipped || policy.no_skip;
            let succeeded = exists|i: int|
                0 <= i < observations.len() && (#[trigger] observations[i]).outcome is Built;
            let failed = exists|i: int|
                0 <= i < observations.len() && (#[trigger] observations[i]).outcome is Failed;
            let blocked = exists|i: int|
                0 <= i < observations.len() && (#[trigger] observations[i]).outcome is DepFailed;
            &&& out is Skipped <==> !considered
            &&& out is SkipOk <==> considered && succeeded
            &&& out is SkipFail <==> considered && !succeeded && !policy.retry && (failed || (
            blocked && !stale))
            &&& out is Build <==> considered && !succeeded && (policy.retry || (!failed && (!blocked
                || stale)))
        }),
{
}

/// The key of a system starts with a letter for each thing that the profile allows, in
/// a place of its own, and ends with a slash and the system.
pub proof fn lemma_key_says_profile(p: Profile, system: Seq<char>)
    ensures
        qualified(p, system).len() == 4 + system.len(),
        qualified(p, system)[0] == 'u' <==> p.unsupported,
        qualified(p, system)[0] == '-' <==> !p.unsupported,
        qualified(p, system)[1] == 'b' <==> p.broken,
        qualified(p, system)[1] == '-' <==> !p.broken,
        qualified(p, system)[2] == 'i' <==> p.insecure,
        qualified(p, system)[2] == '-' <==> !p.insecure,
        qualified(p, system)[3] == '/',
        qualified(p, system).skip(4) == system,
{
    assert(qualified(p, system).skip(4) =~= system);
}

/// More facts never undo a success: once a derivation was seen built, whatever is
/// observed later, the decision stays.
pub proof fn lemma_success_is_final(
    policy: BuildPolicy,
    before: Seq<Observation>,
    more: Seq<Observation>,
    skipped: bool,
    stale: bool,
    stale_later: bool,
)
    requires
        seen(before, Outcome::Built),
    ensures
        decision(policy, before + more, skipped, stale_later) == decision(
            policy,
            before,
            skipped,
            stale,
        ),
{
    let i = choose|i: int|
        0 <= i < before.len() && (#[trigger] before[i]).outcome == Outcome::Built;
    assert((before + more)[i].outcome == Outcome::Built);
}

/// The mark masks recorded facts: a run that does not override it decides alike
/// whatever was observed before.
pub proof fn lemma_mark_masks_facts(
    retry: bool,
    a: Seq<Observation>,
    b: Seq<Observation>,
    stale: bool,
    stale2: bool,
)
    ensures
        decision(BuildPolicy { retry, no_skip: false }, a, true, stale) == decision(
            BuildPolicy { retry, no_skip: false },
            b,
            true,
            stale2,
        ),
{
}

/// The order of the facts does not matter: only which outcomes were seen does.
pub proof fn lemma_order_is_irrelevant(
    policy: BuildPolicy,
    a: Seq<Observation>,
    b: Seq<Observation>,
    skipped: bool,
    stale: bool,
)
    requires
        forall|o: Outcome| #[trigger] seen(a, o) == seen(b, o),
    ensures
        decision(policy, a, skipped, stale) == decision(policy, b, skipped, stale),
{
}

/// A dependency block heals by itself: with no direct failure and a culprit that
/// no longer fails, the derivation is attempted, unless it was seen built.
pub proof fn lemma_block_heals(policy: BuildPolicy, observations: Seq<Observation>)
    requires
        !seen(observations, Outcome::Failed),
    ensures
        decision(policy, observations, false, true) == (if seen(observations, Outcome::Built) {
            Decision::SkipOk
        } else {
            Decision::Build
        }),
{
}

/// A revision and an observation are seen as their fields say.
pub proof fn lemma_seen_as(rev: Rev, o: Observation)
    ensures
        rev@.tree == rev.tree@,
        rev@.commit == rev.commit@,
        rev@.label == rev.label@,
        rev@.display == rev.display@,
        o@.drv_path == o.drv_path@,
        o@.outcome == o.outcome,
        o@.blocker.len() == o.blocker@.len(),
        forall|i: int| 0 <= i < o.blocker@.len() ==> #[trigger] o@.blocker[i] == o.blocker@[i]@,
{
}

} // verus!
