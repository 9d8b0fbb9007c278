//! The build driver's decisions: what to probe, what to build, what each event of
//! the build means, and what can be said afterwards of a derivation that was never
//! built.
//!
//! An outcome is recorded the moment a build activity stops, so that a batch that
//! is interrupted keeps every fact observed so far. Every fact is grounded in the
//! store: a success in valid outputs, a failure in a build that stopped and left its
//! outputs invalid, a block in a dependency that is known to fail and whose outputs
//! are invalid. Of a derivation that was never reached, and that nothing is known to
//! block, nothing is said.
//!
//! A failure carries the paths that decide it anew: its own outputs, or those of what
//! blocks it. Once they are valid it no longer holds.

use vstd::prelude::*;

use crate::model::{decision, seen, BuildPolicy, Decision, Observation, Outcome};
use crate::report::distinct;
use crate::store::{Record, RecordView, Source};
use crate::text::{clone_texts, contains_text, texts};

verus! {

/// One derivation to consider building: the system it came from, and whether it is
/// marked broken, unsupported or insecure.
#[derive(Debug)]
pub struct Target {
    pub system: String,
    pub drv_path: String,
    pub skipped: bool,
}

/// A target together with what the log knows of its derivation.
pub struct Known {
    pub target: Target,
    pub records: Vec<Record>,
}

// --- what to probe ----------------------------------------------------------

/// Whether a record is a fact that decides: anything local, or a hit in the cache.
pub open spec fn decides(r: Record) -> bool {
    r.source == Source::Local || (r.source == Source::Cache && r.outcome == Outcome::Built)
}

/// Whether the log has a fact about a derivation.
pub open spec fn fact_known(records: Seq<Record>) -> bool {
    exists|i: int| 0 <= i < records.len() && decides(#[trigger] records[i])
}

/// Whether the log has a fact about a derivation.
pub fn has_fact(records: &[Record]) -> (yes: bool)
    ensures
        yes == fact_known(records@),
{
    let mut i: usize = 0;
    while i < records.len()
        invariant
            i <= records@.len(),
            forall|k: int| 0 <= k < i ==> !decides(#[trigger] records@[k]),
        decreases records@.len() - i,
    {
        let r: &Record = &records[i];
        if r.source == Source::Local || (r.source == Source::Cache && r.outcome == Outcome::Built) {
            assert(decides(records@[i as int]));
            return true;
        }
        i += 1;
    }
    false
}

/// Whether a target is worth a probe: the log has no fact about it, and the policy
/// does not skip it anyway.
pub open spec fn worth_probing(k: Known, policy: BuildPolicy) -> bool {
    !fact_known(k.records@) && !(k.target.skipped && !policy.no_skip)
}

/// The derivations to probe, each once.
pub open spec fn probes(known: Seq<Known>, policy: BuildPolicy) -> Seq<Seq<char>> {
    distinct(
        known.filter(|k: Known| worth_probing(k, policy)).map_values(
            |k: Known| k.target.drv_path@,
        ),
    )
}

/// The derivations to probe in the substituter, each once. A derivation with a fact
/// is decided already: that is what keeps a run over a known set instant.
pub fn to_probe(known: &[Known], policy: BuildPolicy) -> (out: Vec<String>)
    ensures
        texts(out@) == probes(known@, policy),
{
    let ghost pred = |k: Known| worth_probing(k, policy);
    let ghost name = |k: Known| k.target.drv_path@;
    let mut out: Vec<String> = Vec::new();
    let mut i: usize = 0;
    proof {
        reveal(Seq::filter);
        assert(known@.take(0) =~= Seq::<Known>::empty());
        assert(known@.take(0).filter(pred).map_values(name) =~= Seq::<Seq<char>>::empty());
        assert(texts(out@) =~= Seq::<Seq<char>>::empty());
    }
    while i < known.len()
        invariant
            i <= known@.len(),
            pred == (|k: Known| worth_probing(k, policy)),
            name == (|k: Known| k.target.drv_path@),
            texts(out@) == distinct(known@.take(i as int).filter(pred).map_values(name)),
        decreases known@.len() - i,
    {
        let k: &Known = &known[i];
        let ghost before = known@.take(i as int).filter(pred);
        let ghost after = known@.take(i + 1).filter(pred);
        proof {
            reveal(Seq::filter);
            assert(known@.take(i + 1).drop_last() =~= known@.take(i as int));
        }
        if !has_fact(&k.records) && !(k.target.skipped && !policy.no_skip) {
            let ghost found = texts(out@);
            proof {
                assert(after =~= before.push(*k));
                assert(after.map_values(name).drop_last() =~= before.map_values(name));
                assert(after.map_values(name).last() == name(*k));
            }
            if !contains_text(&out, k.target.drv_path.as_str()) {
                out.push(k.target.drv_path.clone());
                assert(texts(out@) =~= found.push(name(*k)));
            }
        }
        i += 1;
    }
    assert(known@.take(i as int) =~= known@);
    out
}

/// The fact that a hit in the cache is recorded as.
pub fn cache_hit(drv: &str, when: i64) -> (out: Record)
    ensures
        out@ == (RecordView {
            drv_path: drv@,
            source: Source::Cache,
            outcome: Outcome::Built,
            when: when as int,
            blocker: Seq::empty(),
        }),
{
    let out = Record {
        drv_path: drv.to_owned(),
        source: Source::Cache,
        outcome: Outcome::Built,
        when,
        blocker: Vec::new(),
    };
    assert(out@.blocker =~= Seq::<Seq<char>>::empty());
    out
}

// --- what to build ----------------------------------------------------------

/// Whether one of some paths is among the invalid ones.
pub open spec fn some_invalid(paths: Seq<Seq<char>>, invalid: Seq<Seq<char>>) -> bool {
    exists|i: int| 0 <= i < paths.len() && invalid.contains(#[trigger] paths[i])
}

/// Whether one of some paths is among the invalid ones.
pub fn any_invalid(paths: &[String], invalid: &[String]) -> (yes: bool)
    ensures
        yes == some_invalid(texts(paths@), texts(invalid@)),
{
    let mut i: usize = 0;
    while i < paths.len()
        invariant
            i <= paths@.len(),
            forall|k: int| 0 <= k < i ==> !texts(invalid@).contains(#[trigger] texts(paths@)[k]),
        decreases paths@.len() - i,
    {
        assert(texts(paths@)[i as int] == paths@[i as int]@);
        if contains_text(invalid, paths[i].as_str()) {
            return true;
        }
        i += 1;
    }
    false
}

/// Whether a build succeeded: it has outputs, and all of them are valid.
pub fn drv_built(outputs: &[String], invalid: &[String]) -> (built: bool)
    ensures
        built == (outputs@.len() > 0 && !some_invalid(texts(outputs@), texts(invalid@))),
{
    outputs.len() > 0 && !any_invalid(outputs, invalid)
}

/// Whether a dependency block no longer holds: every recorded block names the
/// outputs of its culprit, and all of them are valid now. A block without such
/// paths is taken to hold.
pub open spec fn stale(observations: Seq<Observation>, invalid: Seq<Seq<char>>) -> bool {
    forall|i: int|
        0 <= i < observations.len() && (#[trigger] observations[i]).outcome == Outcome::DepFailed
            ==> observations[i].blocker@.len() > 0 && !some_invalid(
            texts(observations[i].blocker@),
            invalid,
        )
}

/// Whether a dependency block no longer holds, given the blocker paths that are
/// invalid in the store.
pub fn block_is_stale(observations: &[Observation], invalid: &[String]) -> (yes: bool)
    ensures
        yes == stale(observations@, texts(invalid@)),
{
    let mut i: usize = 0;
    while i < observations.len()
        invariant
            i <= observations@.len(),
            forall|k: int|
                0 <= k < i && (#[trigger] observations@[k]).outcome == Outcome::DepFailed
                    ==> observations@[k].blocker@.len() > 0 && !some_invalid(
                    texts(observations@[k].blocker@),
                    texts(invalid@),
                ),
        decreases observations@.len() - i,
    {
        let o: &Observation = &observations[i];
        if o.outcome == Outcome::DepFailed && (o.blocker.len() == 0 || any_invalid(
            &o.blocker,
            invalid,
        )) {
            assert(observations@[i as int].outcome == Outcome::DepFailed);
            return false;
        }
        i += 1;
    }
    true
}

/// The observations that records make.
fn observations_of(records: &[Record]) -> (out: Vec<Observation>)
    ensures
        out@.len() == records@.len(),
        forall|i: int|
            0 <= i < out@.len() ==> (#[trigger] out@[i])@ == crate::store::observation_of(
                records@[i]@,
            ),
{
    let mut out: Vec<Observation> = Vec::new();
    let mut i: usize = 0;
    while i < records.len()
        invariant
            i <= records@.len(),
            out@.len() == i,
            forall|k: int|
                0 <= k < i ==> (#[trigger] out@[k])@ == crate::store::observation_of(
                    records@[k]@,
                ),
        decreases records@.len() - i,
    {
        out.push(records[i].observation());
        i += 1;
    }
    out
}

/// Whether some record has the outcome `outcome`.
pub open spec fn recorded(records: Seq<Record>, outcome: Outcome) -> bool {
    exists|i: int| 0 <= i < records.len() && (#[trigger] records[i]).outcome == outcome
}

/// Whether every recorded block names its culprit's outputs, all of them valid.
pub open spec fn records_stale(records: Seq<Record>, invalid: Seq<Seq<char>>) -> bool {
    forall|i: int|
        0 <= i < records.len() && (#[trigger] records[i]).outcome == Outcome::DepFailed
            ==> records[i].blocker@.len() > 0 && !some_invalid(texts(records[i].blocker@), invalid)
}

/// What to do about a target.
pub open spec fn target_decision(
    k: Known,
    policy: BuildPolicy,
    invalid: Seq<Seq<char>>,
) -> Decision {
    if k.target.skipped && !policy.no_skip {
        Decision::Skipped
    } else if recorded(k.records@, Outcome::Built) {
        Decision::SkipOk
    } else if !policy.retry && (recorded(k.records@, Outcome::Failed) || (recorded(
        k.records@,
        Outcome::DepFailed,
    ) && !records_stale(k.records@, invalid))) {
        Decision::SkipFail
    } else {
        Decision::Build
    }
}

/// Observations have the outcomes of the records that they are made of.
proof fn lemma_observations(records: Seq<Record>, obs: Seq<Observation>, invalid: Seq<Seq<char>>)
    requires
        obs.len() == records.len(),
        forall|i: int|
            0 <= i < obs.len() ==> (#[trigger] obs[i])@ == crate::store::observation_of(
                records[i]@,
            ),
    ensures
        forall|o: Outcome| #[trigger] seen(obs, o) == recorded(records, o),
        stale(obs, invalid) == records_stale(records, invalid),
{
    assert forall|o: Outcome| #[trigger] seen(obs, o) == recorded(records, o) by {
        if seen(obs, o) {
            let i = choose|i: int| 0 <= i < obs.len() && (#[trigger] obs[i]).outcome == o;
            assert(obs[i]@.outcome == records[i].outcome);
        }
        if recorded(records, o) {
            let i = choose|i: int| 0 <= i < records.len() && (#[trigger] records[i]).outcome == o;
            assert(obs[i]@.outcome == records[i].outcome);
        }
    }
    assert forall|i: int| 0 <= i < obs.len() implies (#[trigger] obs[i]).outcome
        == records[i].outcome && texts(obs[i].blocker@) == texts(records[i].blocker@) by {
        assert(obs[i]@.blocker == records[i]@.blocker);
        assert(obs[i]@.outcome == records[i]@.outcome);
    }
    if stale(obs, invalid) {
        assert forall|i: int|
            0 <= i < records.len() && (#[trigger] records[i]).outcome
                == Outcome::DepFailed implies records[i].blocker@.len() > 0 && !some_invalid(
            texts(records[i].blocker@),
            invalid,
        ) by {
            assert(obs[i].outcome == Outcome::DepFailed);
            assert(texts(obs[i].blocker@).len() == obs[i].blocker@.len());
            assert(texts(records[i].blocker@).len() == records[i].blocker@.len());
        }
    }
    if records_stale(records, invalid) {
        assert forall|i: int|
            0 <= i < obs.len() && (#[trigger] obs[i]).outcome
                == Outcome::DepFailed implies obs[i].blocker@.len() > 0 && !some_invalid(
            texts(obs[i].blocker@),
            invalid,
        ) by {
            assert(records[i].outcome == Outcome::DepFailed);
            assert(texts(obs[i].blocker@).len() == obs[i].blocker@.len());
            assert(texts(records[i].blocker@).len() == records[i].blocker@.len());
        }
    }
}

/// The places of the targets to build, among the first `n`.
pub open spec fn building(
    known: Seq<Known>,
    policy: BuildPolicy,
    invalid: Seq<Seq<char>>,
    n: int,
) -> Seq<usize>
    decreases n,
{
    if n <= 0 {
        Seq::empty()
    } else if target_decision(known[n - 1], policy, invalid) == Decision::Build {
        building(known, policy, invalid, n - 1).push((n - 1) as usize)
    } else {
        building(known, policy, invalid, n - 1)
    }
}

/// The places of the targets to build, purely from the log and from which blocker
/// paths are invalid in the store.
pub fn to_build(known: &[Known], policy: BuildPolicy, invalid: &[String]) -> (out: Vec<usize>)
    ensures
        out@ == building(known@, policy, texts(invalid@), known@.len() as int),
{
    let mut out: Vec<usize> = Vec::new();
    let mut i: usize = 0;
    while i < known.len()
        invariant
            i <= known@.len(),
            out@ == building(known@, policy, texts(invalid@), i as int),
        decreases known@.len() - i,
    {
        let k: &Known = &known[i];
        let obs = observations_of(&k.records);
        proof {
            lemma_observations(k.records@, obs@, texts(invalid@));
        }
        let stale = block_is_stale(&obs, invalid);
        let decision = policy.decide(obs.as_slice(), k.target.skipped, stale);
        assert(decision == target_decision(*k, policy, texts(invalid@)));
        if decision == Decision::Build {
            out.push(i);
        }
        i += 1;
    }
    out
}

/// Whether the log holds a failure of a derivation and no success, and no failure that
/// names its outputs: nothing there can tell whether it holds still.
pub open spec fn outputs_unknown(records: Seq<Record>) -> bool {
    &&& recorded(records, Outcome::Failed)
    &&& !recorded(records, Outcome::Built)
    &&& forall|i: int|
        0 <= i < records.len() && (#[trigger] records[i]).outcome == Outcome::Failed
            ==> records[i].blocker@.len() == 0
}

/// Whether the log holds a failure of a derivation that nothing there can decide anew.
fn lacks_outputs(records: &[Record]) -> (yes: bool)
    ensures
        yes == outputs_unknown(records@),
{
    let mut failed = false;
    let mut i: usize = 0;
    while i < records.len()
        invariant
            i <= records@.len(),
            failed == exists|k: int|
                0 <= k < i && (#[trigger] records@[k]).outcome == Outcome::Failed,
            forall|k: int|
                0 <= k < i ==> (#[trigger] records@[k]).outcome != Outcome::Built && (
                records@[k].outcome == Outcome::Failed ==> records@[k].blocker@.len() == 0),
        decreases records@.len() - i,
    {
        let r: &Record = &records[i];
        if r.outcome == Outcome::Built {
            assert(records@[i as int].outcome == Outcome::Built);
            return false;
        }
        if r.outcome == Outcome::Failed {
            assert(records@[i as int].outcome == Outcome::Failed);
            if r.blocker.len() > 0 {
                return false;
            }
            failed = true;
        }
        i += 1;
    }
    failed
}

/// Whether a target's failure has to be decided anew from its derivation: nothing else
/// tells its outputs, and the policy does not skip it anyway.
pub open spec fn worth_rechecking(k: Known, policy: BuildPolicy) -> bool {
    outputs_unknown(k.records@) && !(k.target.skipped && !policy.no_skip)
}

/// The derivations whose failure has to be decided anew.
pub open spec fn rechecks(known: Seq<Known>, policy: BuildPolicy) -> Seq<Seq<char>> {
    known.filter(|k: Known| worth_rechecking(k, policy)).map_values(
        |k: Known| k.target.drv_path@,
    )
}

/// The derivations whose failure has to be decided anew, for which they have to be in
/// the store.
pub fn to_recheck(known: &[Known], policy: BuildPolicy) -> (out: Vec<String>)
    ensures
        texts(out@) == rechecks(known@, policy),
{
    let ghost pred = |k: Known| worth_rechecking(k, policy);
    let ghost name = |k: Known| k.target.drv_path@;
    let mut out: Vec<String> = Vec::new();
    let mut i: usize = 0;
    proof {
        reveal(Seq::filter);
        assert(known@.take(0) =~= Seq::<Known>::empty());
        assert(known@.take(0).filter(pred).map_values(name) =~= Seq::<Seq<char>>::empty());
        assert(texts(out@) =~= Seq::<Seq<char>>::empty());
    }
    while i < known.len()
        invariant
            i <= known@.len(),
            pred == (|k: Known| worth_rechecking(k, policy)),
            name == (|k: Known| k.target.drv_path@),
            texts(out@) == known@.take(i as int).filter(pred).map_values(name),
        decreases known@.len() - i,
    {
        let k: &Known = &known[i];
        let ghost before = known@.take(i as int).filter(pred);
        let ghost found = texts(out@);
        proof {
            reveal(Seq::filter);
            assert(known@.take(i + 1).drop_last() =~= known@.take(i as int));
        }
        if lacks_outputs(&k.records) && !(k.target.skipped && !policy.no_skip) {
            out.push(k.target.drv_path.clone());
            assert(known@.take(i + 1).filter(pred) =~= before.push(*k));
            assert(before.push(*k).map_values(name) =~= before.map_values(name).push(name(*k)));
            assert(texts(out@) =~= found.push(name(*k)));
        }
        i += 1;
    }
    assert(known@.take(i as int) =~= known@);
    out
}

/// The derivations that the run will look at, and that have to be in the store for it:
/// those to probe, then those to build, then those whose failure is decided anew.
pub fn drvs_to_materialize(known: &[Known], policy: BuildPolicy, invalid: &[String]) -> (out: Vec<
    String,
>)
    ensures
        texts(out@) == probes(known@, policy) + building(
            known@,
            policy,
            texts(invalid@),
            known@.len() as int,
        ).map_values(|i: usize| known@[i as int].target.drv_path@) + rechecks(known@, policy),
{
    let len: usize = known.len();
    let mut out = to_probe(known, policy);
    let built = to_build(known, policy, invalid);
    let ghost start = texts(out@);
    let ghost name = |i: usize| known@[i as int].target.drv_path@;
    let mut k: usize = 0;
    proof {
        assert(len == known@.len());
        lemma_building(known@, policy, texts(invalid@), known@.len() as int);
    }
    assert(texts(out@) =~= start + built@.map_values(name).take(0));
    while k < built.len()
        invariant
            k <= built@.len(),
            name == (|i: usize| known@[i as int].target.drv_path@),
            forall|j: int| 0 <= j < built@.len() ==> (#[trigger] built@[j]) < known@.len(),
            texts(out@) == start + built@.map_values(name).take(k as int),
        decreases built@.len() - k,
    {
        let ghost before = texts(out@);
        let i: usize = built[k];
        out.push(known[i].target.drv_path.clone());
        assert(texts(out@) =~= before.push(name(i)));
        k += 1;
        assert(texts(out@) =~= start + built@.map_values(name).take(k as int));
    }
    assert(built@.map_values(name).take(k as int) =~= built@.map_values(name));
    let ghost before = texts(out@);
    let mut again = to_recheck(known, policy);
    let ghost rest = texts(again@);
    out.append(&mut again);
    assert(texts(out@) =~= before + rest);
    out
}

/// The derivations to instantiate, of those that have to be in the store: the ones that
/// are not valid there. One that is can be built and probed in place.
pub fn drvs_needing_instantiation(drvs: &[String], invalid: &[String]) -> (out: Vec<String>)
    ensures
        texts(out@) == texts(drvs@).filter(|d: Seq<char>| texts(invalid@).contains(d)),
{
    let ghost all = texts(drvs@);
    let ghost pred = |d: Seq<char>| texts(invalid@).contains(d);
    let mut out: Vec<String> = Vec::new();
    let mut i: usize = 0;
    proof {
        reveal(Seq::filter);
        assert(all.take(0) =~= Seq::<Seq<char>>::empty());
        assert(texts(out@) =~= Seq::<Seq<char>>::empty());
    }
    while i < drvs.len()
        invariant
            i <= drvs@.len(),
            all == texts(drvs@),
            pred == (|d: Seq<char>| texts(invalid@).contains(d)),
            texts(out@) == all.take(i as int).filter(pred),
        decreases drvs@.len() - i,
    {
        let ghost before = texts(out@);
        proof {
            reveal(Seq::filter);
            assert(all.take(i + 1).drop_last() =~= all.take(i as int));
            assert(all.take(i + 1).last() == drvs@[i as int]@);
        }
        if contains_text(invalid, drvs[i].as_str()) {
            out.push(drvs[i].clone());
            assert(texts(out@) =~= before.push(drvs@[i as int]@));
        }
        i += 1;
    }
    assert(all.take(i as int) =~= all);
    out
}

/// The places of the targets to build are places of targets.
proof fn lemma_building(known: Seq<Known>, policy: BuildPolicy, invalid: Seq<Seq<char>>, n: int)
    requires
        0 <= n <= known.len(),
        known.len() <= usize::MAX,
    ensures
        forall|j: int|
            0 <= j < building(known, policy, invalid, n).len() ==> (#[trigger] building(
                known,
                policy,
                invalid,
                n,
            )[j]) < n,
    decreases n,
{
    if n > 0 {
        lemma_building(known, policy, invalid, n - 1);
        let before = building(known, policy, invalid, n - 1);
        let now = building(known, policy, invalid, n);
        assert forall|j: int| 0 <= j < now.len() implies (#[trigger] now[j]) < n by {
            if j < before.len() {
                assert(now[j] == before[j]);
            }
        }
    }
}

/// The arguments of `nix` that build all outputs of some derivations in one batch.
pub open spec fn build_args_text(drvs: Seq<Seq<char>>, force: bool) -> Seq<Seq<char>> {
    let args = seq!["build"@] + drvs.map_values(|d: Seq<char>| d + "^*"@) + seq![
        "--keep-going"@,
        "--no-link"@,
        "--log-format"@,
        "internal-json"@,
        "-v"@,
        "--extra-experimental-features"@,
        "nix-command"@,
    ];
    if force {
        args.push("--rebuild"@)
    } else {
        args
    }
}

/// The arguments of `nix` that build all outputs of some derivations in one batch,
/// going on after failures, leaving no links, and logging events. `force` builds
/// again what is built.
pub fn build_args(drvs: &[String], force: bool) -> (out: Vec<String>)
    ensures
        texts(out@) == build_args_text(texts(drvs@), force),
{
    let ghost f = |d: Seq<char>| d + "^*"@;
    let ghost all = texts(drvs@).map_values(f);
    let mut out: Vec<String> = Vec::new();
    out.push("build".to_owned());
    let mut i: usize = 0;
    assert(texts(out@) =~= seq!["build"@] + all.take(0));
    while i < drvs.len()
        invariant
            i <= drvs@.len(),
            f == (|d: Seq<char>| d + "^*"@),
            all == texts(drvs@).map_values(f),
            texts(out@) == seq!["build"@] + all.take(i as int),
        decreases drvs@.len() - i,
    {
        let mut installable = drvs[i].clone();
        installable.append("^*");
        let ghost before = texts(out@);
        let ghost text = installable@;
        assert(text == all[i as int]);
        out.push(installable);
        assert(texts(out@) =~= before.push(text));
        i += 1;
        assert(texts(out@) =~= seq!["build"@] + all.take(i as int));
    }
    assert(all.take(i as int) =~= all);
    let ghost head = texts(out@);
    out.push("--keep-going".to_owned());
    out.push("--no-link".to_owned());
    out.push("--log-format".to_owned());
    out.push("internal-json".to_owned());
    out.push("-v".to_owned());
    out.push("--extra-experimental-features".to_owned());
    out.push("nix-command".to_owned());
    assert(texts(out@) =~= head + seq![
        "--keep-going"@,
        "--no-link"@,
        "--log-format"@,
        "internal-json"@,
        "-v"@,
        "--extra-experimental-features"@,
        "nix-command"@,
    ]);
    if force {
        let ghost before = texts(out@);
        out.push("--rebuild".to_owned());
        assert(texts(out@) =~= before.push("--rebuild"@));
    }
    out
}

// --- the events of a build --------------------------------------------------

/// The type of a build activity in the log of `nix`.
pub const ACT_BUILD: i64 = 105;

/// What stands before an event on a line of the log.
pub const EVENT_PREFIX: &'static str = "@nix ";

/// An event of the log: its action, its activity, the activity's type, and the
/// first of its fields where that is a text.
#[derive(Debug)]
pub struct NixEvent {
    pub action: String,
    pub id: Option<u64>,
    pub typ: Option<i64>,
    pub first_field: Option<String>,
}

/// The event that a line of the log holds, to be parsed; other lines hold none.
pub fn event_text(line: &str) -> (out: Option<&str>)
    ensures
        crate::text::opt_str(out) == crate::search::without_prefix(line@, EVENT_PREFIX@),
{
    crate::search::strip_prefix(line, EVENT_PREFIX)
}

/// What is going on in a batch: which derivations were attempted, and which
/// activities are running.
pub struct BuildLog {
    pub attempted: Vec<String>,
    pub running: Vec<(u64, String)>,
}

/// What is going on in a batch.
#[verifier::ext_equal]
pub struct BuildLogView {
    /// The derivations of which a build started.
    pub attempted: Set<Seq<char>>,
    /// The derivation of each running activity.
    pub running: Map<u64, Seq<char>>,
}

/// The running activities as a map; where two entries have one activity, the later
/// counts.
pub open spec fn running_map(running: Seq<(u64, String)>) -> Map<u64, Seq<char>>
    decreases running.len(),
{
    if running.len() == 0 {
        Map::empty()
    } else {
        running_map(running.drop_last()).insert(running.last().0, running.last().1@)
    }
}

impl View for BuildLog {
    type V = BuildLogView;

    open spec fn view(&self) -> BuildLogView {
        BuildLogView {
            attempted: texts(self.attempted@).to_set(),
            running: running_map(self.running@),
        }
    }
}

/// No two entries have one activity.
pub open spec fn unique_ids(running: Seq<(u64, String)>) -> bool {
    forall|i: int, j: int|
        0 <= i < j < running.len() ==> (#[trigger] running[i]).0 != (#[trigger] running[j]).0
}

/// What an event does to a batch.
pub open spec fn after_event(log: BuildLogView, ev: NixEvent) -> BuildLogView {
    if ev.action@ == "start"@ && ev.typ == Some(ACT_BUILD) && ev.id is Some
        && ev.first_field is Some {
        BuildLogView {
            attempted: log.attempted.insert(ev.first_field->0@),
            running: log.running.insert(ev.id->0, ev.first_field->0@),
        }
    } else if ev.action@ == "stop"@ && ev.id is Some {
        BuildLogView { running: log.running.remove(ev.id->0), ..log }
    } else {
        log
    }
}

/// The derivation whose build an event ends: one of those asked for, or a dependency.
pub open spec fn finished_by(log: BuildLogView, ev: NixEvent) -> Option<Seq<char>> {
    if ev.action@ == "stop"@ && ev.id is Some && log.running.contains_key(ev.id->0) {
        Some(log.running[ev.id->0])
    } else {
        None
    }
}

/// A map of entries holds what some entry says.
proof fn lemma_running_map(running: Seq<(u64, String)>, i: int)
    requires
        unique_ids(running),
        0 <= i < running.len(),
    ensures
        running_map(running).contains_key(running[i].0),
        running_map(running)[running[i].0] == running[i].1@,
    decreases running.len(),
{
    if i < running.len() - 1 {
        let front = running.drop_last();
        assert forall|a: int, b: int| 0 <= a < b < front.len() implies (#[trigger] front[a]).0 != (
        #[trigger] front[b]).0 by {
            assert(running[a].0 != running[b].0);
        }
        lemma_running_map(front, i);
        assert(running[i].0 != running[running.len() - 1].0);
    }
}

/// A map of entries holds nothing that no entry says.
proof fn lemma_not_running(running: Seq<(u64, String)>, id: u64)
    requires
        forall|i: int| 0 <= i < running.len() ==> (#[trigger] running[i]).0 != id,
    ensures
        !running_map(running).contains_key(id),
    decreases running.len(),
{
    if running.len() > 0 {
        let front = running.drop_last();
        assert forall|i: int| 0 <= i < front.len() implies (#[trigger] front[i]).0 != id by {
            assert(running[i].0 != id);
        }
        lemma_not_running(front, id);
        assert(running[running.len() - 1].0 != id);
    }
}

/// Taking out an entry takes its activity out of the map.
proof fn lemma_remove_running(running: Seq<(u64, String)>, i: int)
    requires
        unique_ids(running),
        0 <= i < running.len(),
    ensures
        running_map(running.remove(i)) == running_map(running).remove(running[i].0),
        unique_ids(running.remove(i)),
    decreases running.len(),
{
    let rest = running.remove(i);
    let front = running.drop_last();
    assert forall|a: int, b: int| 0 <= a < b < rest.len() implies (#[trigger] rest[a]).0 != (
    #[trigger] rest[b]).0 by {
        let x = if a < i {
            a
        } else {
            a + 1
        };
        let y = if b < i {
            b
        } else {
            b + 1
        };
        assert(rest[a] == running[x] && rest[b] == running[y]);
    }
    assert forall|a: int, b: int| 0 <= a < b < front.len() implies (#[trigger] front[a]).0 != (
    #[trigger] front[b]).0 by {
        assert(running[a].0 != running[b].0);
    }
    if i == running.len() - 1 {
        assert(rest =~= front);
        assert forall|k: int| 0 <= k < front.len() implies (#[trigger] front[k]).0
            != running.last().0 by {
            assert(running[k].0 != running[running.len() - 1].0);
        }
        lemma_not_running(front, running.last().0);
        assert(running_map(front) =~= running_map(running).remove(running[i].0));
    } else {
        lemma_remove_running(front, i);
        assert(rest.drop_last() =~= front.remove(i));
        assert(rest.last() == running.last());
        assert(running[i].0 != running[running.len() - 1].0);
        assert(running_map(rest) =~= running_map(running).remove(running[i].0));
    }
}

impl BuildLog {
    /// No two running activities are alike.
    pub open spec fn wf(&self) -> bool {
        unique_ids(self.running@)
    }

    /// A batch that has not started.
    pub fn new() -> (log: Self)
        ensures
            log.wf(),
            log@.attempted == Set::<Seq<char>>::empty(),
            log@.running == Map::<u64, Seq<char>>::empty(),
    {
        let log = BuildLog { attempted: Vec::new(), running: Vec::new() };
        assert(texts(log.attempted@) =~= Seq::<Seq<char>>::empty());
        assert(log@.attempted =~= Set::<Seq<char>>::empty());
        log
    }

    /// Forgets the activity `id` and returns its derivation, if it is running.
    fn take(&mut self, id: u64) -> (drv: Option<String>)
        requires
            old(self).wf(),
        ensures
            final(self).wf(),
            final(self).attempted == old(self).attempted,
            final(self)@.running == old(self)@.running.remove(id),
            forall|k: int|
                0 <= k < final(self).running@.len() ==> (#[trigger] final(self).running@[k]).0
                    != id,
            match drv {
                Some(d) => old(self)@.running.contains_key(id) && old(self)@.running[id] == d@,
                None => !old(self)@.running.contains_key(id),
            },
    {
        let ghost before = self.running@;
        let mut i: usize = 0;
        while i < self.running.len() && self.running[i].0 != id
            invariant
                i <= self.running@.len(),
                *self == *old(self),
                self.running@ == before,
                forall|k: int| 0 <= k < i ==> (#[trigger] before[k]).0 != id,
            decreases self.running@.len() - i,
        {
            i += 1;
        }
        if i < self.running.len() {
            proof {
                lemma_running_map(before, i as int);
                lemma_remove_running(before, i as int);
            }
            let (_, drv) = self.running.remove(i);
            proof {
                assert forall|k: int| 0 <= k < self.running@.len() implies (
                #[trigger] self.running@[k]).0 != id by {
                    if k < i {
                        assert(self.running@[k] == before[k]);
                    } else {
                        assert(self.running@[k] == before[k + 1]);
                        assert(before[i as int].0 != before[k + 1].0);
                    }
                }
            }
            Some(drv)
        } else {
            proof {
                lemma_not_running(before, id);
                assert(running_map(before) =~= running_map(before).remove(id));
            }
            None
        }
    }

    /// Takes in an event. Returns the derivation whose build it ends: its outcome can
    /// be told from its outputs at once.
    pub fn on_event(&mut self, ev: &NixEvent) -> (finished: Option<String>)
        requires
            old(self).wf(),
        ensures
            final(self).wf(),
            final(self)@ == after_event(old(self)@, *ev),
            crate::text::opt_text(finished) == finished_by(old(self)@, *ev),
    {
        let start = *ev.action.as_str() == *"start";
        let stop = *ev.action.as_str() == *"stop";
        proof {
            reveal_strlit("start");
            reveal_strlit("stop");
            assert("start"@.len() == 5 && "stop"@.len() == 4);
        }
        let build = match ev.typ {
            Some(t) => t == ACT_BUILD,
            None => false,
        };
        assert(build == (ev.typ == Some(ACT_BUILD)));
        if start && build {
            if let Some(id) = ev.id {
                if let Some(drv) = &ev.first_field {
                    let ghost before = self@;
                    let _ = self.take(id);
                    let ghost rest = self.running@;
                    let ghost names = texts(self.attempted@);
                    self.running.push((id, drv.clone()));
                    proof {
                        assert(self.running@.drop_last() =~= rest);
                        assert(running_map(self.running@) =~= before.running.insert(id, drv@));
                        assert forall|a: int, b: int|
                            0 <= a < b < self.running@.len() implies (
                        #[trigger] self.running@[a]).0 != (#[trigger] self.running@[b]).0 by {
                            assert(self.running@[a] == rest[a]);
                            if b < rest.len() {
                                assert(self.running@[b] == rest[b]);
                            }
                        }
                    }
                    self.attempted.push(drv.clone());
                    proof {
                        assert(texts(self.attempted@) =~= names.push(drv@));
                        lemma_push_to_set(names, drv@);
                    }
                    return None;
                }
            }
            return None;
        }
        if stop {
            if let Some(id) = ev.id {
                return self.take(id);
            }
        }
        None
    }
}

/// Adding to a list adds to its set.
pub proof fn lemma_push_to_set(s: Seq<Seq<char>>, x: Seq<char>)
    ensures
        s.push(x).to_set() == s.to_set().insert(x),
{
    assert forall|y: Seq<char>| s.push(x).to_set().contains(y) == s.to_set().insert(x).contains(
        y,
    ) by {
        if s.contains(y) {
            let i = choose|i: int| 0 <= i < s.len() && s[i] == y;
            assert(s.push(x)[i] == y);
        }
        if s.push(x).contains(y) {
            let i = choose|i: int| 0 <= i < s.push(x).len() && s.push(x)[i] == y;
            if i < s.len() {
                assert(s[i] == y);
            }
        }
        assert(s.push(x)[s.len() as int] == x);
    }
    assert(s.push(x).to_set() =~= s.to_set().insert(x));
}

// --- what can be said afterwards --------------------------------------------

/// The fact that a local build is recorded as.
pub open spec fn local_view(
    drv: Seq<char>,
    outcome: Outcome,
    when: int,
    blocker: Seq<Seq<char>>,
) -> RecordView {
    RecordView { drv_path: drv, source: Source::Local, outcome, when, blocker }
}

/// The fact that a local build is recorded as.
pub fn local_fact(drv: &str, outcome: Outcome, when: i64, blocker: &[String]) -> (out: Record)
    ensures
        out@ == local_view(drv@, outcome, when as int, texts(blocker@)),
{
    Record {
        drv_path: drv.to_owned(),
        source: Source::Local,
        outcome,
        when,
        blocker: clone_texts(blocker),
    }
}

/// Whether all outputs of a derivation are valid, and it has one.
pub open spec fn outputs_valid(outputs: Seq<Seq<char>>, invalid: Seq<Seq<char>>) -> bool {
    outputs.len() > 0 && !some_invalid(outputs, invalid)
}

/// The fact about a derivation whose build has stopped, from its outputs. A failure
/// names them. Of a dependency only a failure is recorded: the store remembers what
/// was built.
pub open spec fn stopped(
    drv: Seq<char>,
    requested: bool,
    outputs: Seq<Seq<char>>,
    invalid: Seq<Seq<char>>,
    when: int,
) -> Option<RecordView> {
    if !outputs_valid(outputs, invalid) {
        Some(local_view(drv, Outcome::Failed, when, outputs))
    } else if requested {
        Some(local_view(drv, Outcome::Built, when, Seq::empty()))
    } else {
        None
    }
}

/// What a fact says, if there is one.
pub open spec fn fact_view(fact: Option<Record>) -> Option<RecordView> {
    match fact {
        Some(r) => Some(r@),
        None => None,
    }
}

/// The success of a derivation.
fn success(drv: &str, when: i64) -> (out: Record)
    ensures
        out@ == local_view(drv@, Outcome::Built, when as int, Seq::empty()),
{
    let none: Vec<String> = Vec::new();
    assert(texts(none@) =~= Seq::<Seq<char>>::empty());
    local_fact(drv, Outcome::Built, when, none.as_slice())
}

/// The fact to record about a derivation whose build has stopped.
pub fn stopped_fact(
    drv: &str,
    requested: bool,
    outputs: &[String],
    invalid: &[String],
    when: i64,
) -> (out: Option<Record>)
    ensures
        fact_view(out) == stopped(drv@, requested, texts(outputs@), texts(invalid@), when as int),
{
    assert(texts(outputs@).len() == outputs@.len());
    if !drv_built(outputs, invalid) {
        Some(local_fact(drv, Outcome::Failed, when, outputs))
    } else if requested {
        Some(success(drv, when))
    } else {
        None
    }
}

// --- failures that heal -----------------------------------------------------

/// Whether a recorded failure of a derivation no longer holds: it names the
/// derivation's outputs, and all of them are valid. The derivation was built by
/// other means.
pub open spec fn failure_healed(records: Seq<Record>, invalid: Seq<Seq<char>>) -> bool {
    &&& !recorded(records, Outcome::Built)
    &&& exists|i: int|
        0 <= i < records.len() && (#[trigger] records[i]).outcome == Outcome::Failed
            && outputs_valid(texts(records[i].blocker@), invalid)
}

/// Whether a recorded failure of a derivation no longer holds.
fn has_healed(records: &[Record], invalid: &[String]) -> (yes: bool)
    ensures
        yes == failure_healed(records@, texts(invalid@)),
{
    let mut found = false;
    let mut i: usize = 0;
    while i < records.len()
        invariant
            i <= records@.len(),
            found == exists|k: int|
                0 <= k < i && (#[trigger] records@[k]).outcome == Outcome::Failed && outputs_valid(
                    texts(records@[k].blocker@),
                    texts(invalid@),
                ),
            forall|k: int| 0 <= k < i ==> (#[trigger] records@[k]).outcome != Outcome::Built,
        decreases records@.len() - i,
    {
        let r: &Record = &records[i];
        assert(texts(r.blocker@).len() == r.blocker@.len());
        if r.outcome == Outcome::Built {
            assert(records@[i as int].outcome == Outcome::Built);
            return false;
        }
        if r.outcome == Outcome::Failed && drv_built(&r.blocker, invalid) {
            assert(records@[i as int].outcome == Outcome::Failed);
            found = true;
        }
        i += 1;
    }
    found
}

/// The places of the targets, among the first `n`, whose failure no longer holds.
pub open spec fn healing(known: Seq<Known>, invalid: Seq<Seq<char>>, n: int) -> Seq<usize>
    decreases n,
{
    if n <= 0 {
        Seq::empty()
    } else if failure_healed(known[n - 1].records@, invalid) {
        healing(known, invalid, n - 1).push((n - 1) as usize)
    } else {
        healing(known, invalid, n - 1)
    }
}

/// The places of the targets whose failure no longer holds, purely from the log and
/// from which of the paths in it are invalid in the store. They are to be recorded as
/// built.
pub fn healed(known: &[Known], invalid: &[String]) -> (out: Vec<usize>)
    ensures
        out@ == healing(known@, texts(invalid@), known@.len() as int),
{
    let mut out: Vec<usize> = Vec::new();
    let mut i: usize = 0;
    while i < known.len()
        invariant
            i <= known@.len(),
            out@ == healing(known@, texts(invalid@), i as int),
        decreases known@.len() - i,
    {
        if has_healed(&known[i].records, invalid) {
            out.push(i);
        }
        i += 1;
    }
    out
}

/// The fact to record about a derivation whose failure is decided anew: the success
/// that its outputs show, or the failure again, which now names them. There is none
/// where its outputs cannot be told.
pub fn recheck_fact(drv: &str, outputs: &[String], invalid: &[String], when: i64) -> (out: Option<
    Record,
>)
    ensures
        fact_view(out) == (if outputs@.len() == 0 {
            None
        } else {
            stopped(drv@, true, texts(outputs@), texts(invalid@), when as int)
        }),
{
    if outputs.len() == 0 {
        return None;
    }
    stopped_fact(drv, true, outputs, invalid, when)
}

// --- what is left over of a batch -------------------------------------------

/// The derivations of a batch that have no recorded outcome, each once.
pub open spec fn unrecorded(drvs: Seq<Seq<char>>, recorded: Seq<Seq<char>>) -> Seq<Seq<char>> {
    distinct(drvs.filter(|d: Seq<char>| !recorded.contains(d)))
}

/// The derivations of a batch that have no recorded outcome, each once.
pub fn leftover(drvs: &[String], recorded: &[String]) -> (out: Vec<String>)
    ensures
        texts(out@) == unrecorded(texts(drvs@), texts(recorded@)),
{
    let ghost all = texts(drvs@);
    let ghost pred = |d: Seq<char>| !texts(recorded@).contains(d);
    let mut out: Vec<String> = Vec::new();
    let mut i: usize = 0;
    proof {
        reveal(Seq::filter);
        assert(all.take(0) =~= Seq::<Seq<char>>::empty());
        assert(texts(out@) =~= Seq::<Seq<char>>::empty());
    }
    while i < drvs.len()
        invariant
            i <= drvs@.len(),
            all == texts(drvs@),
            pred == (|d: Seq<char>| !texts(recorded@).contains(d)),
            texts(out@) == distinct(all.take(i as int).filter(pred)),
        decreases drvs@.len() - i,
    {
        let ghost before = all.take(i as int).filter(pred);
        let ghost after = all.take(i + 1).filter(pred);
        proof {
            reveal(Seq::filter);
            assert(all.take(i + 1).drop_last() =~= all.take(i as int));
            assert(all.take(i + 1).last() == drvs@[i as int]@);
        }
        if !contains_text(recorded, drvs[i].as_str()) {
            let ghost found = texts(out@);
            assert(after =~= before.push(drvs@[i as int]@));
            assert(after.drop_last() =~= before);
            if !contains_text(&out, drvs[i].as_str()) {
                out.push(drvs[i].clone());
                assert(texts(out@) =~= found.push(drvs@[i as int]@));
            }
        }
        i += 1;
    }
    assert(all.take(i as int) =~= all);
    out
}

/// Whether a derivation is one that `drv` is blocked by: a failing one, and not
/// itself.
pub open spec fn blocks(drv: Seq<char>, failing: Seq<Seq<char>>) -> spec_fn(Seq<char>) -> bool {
    |d: Seq<char>| d != drv && failing.contains(d)
}

/// The derivations in the closure of `drv` that fail. Every derivation is in its
/// own closure and is no culprit of itself.
pub open spec fn culprit_drvs(
    drv: Seq<char>,
    closure: Seq<Seq<char>>,
    failing: Seq<Seq<char>>,
) -> Seq<Seq<char>> {
    closure.filter(blocks(drv, failing))
}

/// The failing derivations that a derivation is blocked by, from its closure.
pub fn culprits(drv: &str, closure: &[String], failing: &[String]) -> (out: Vec<String>)
    ensures
        texts(out@) == culprit_drvs(drv@, texts(closure@), texts(failing@)),
{
    let ghost all = texts(closure@);
    let ghost pred = blocks(drv@, texts(failing@));
    let mut out: Vec<String> = Vec::new();
    let mut i: usize = 0;
    proof {
        reveal(Seq::filter);
        assert(all.take(0) =~= Seq::<Seq<char>>::empty());
        assert(texts(out@) =~= Seq::<Seq<char>>::empty());
    }
    while i < closure.len()
        invariant
            i <= closure@.len(),
            all == texts(closure@),
            pred == blocks(drv@, texts(failing@)),
            texts(out@) == all.take(i as int).filter(pred),
        decreases closure@.len() - i,
    {
        proof {
            reveal(Seq::filter);
            assert(all.take(i + 1).drop_last() =~= all.take(i as int));
            assert(all.take(i + 1).last() == closure@[i as int]@);
        }
        let ghost before = texts(out@);
        if !(*closure[i].as_str() == *drv) && contains_text(failing, closure[i].as_str()) {
            out.push(closure[i].clone());
            assert(texts(out@) =~= before.push(closure@[i as int]@));
        }
        i += 1;
    }
    assert(all.take(i as int) =~= all);
    out
}

/// A derivation never blocks itself, and what blocks it fails.
pub proof fn lemma_culprits_fail(
    drv: Seq<char>,
    closure: Seq<Seq<char>>,
    failing: Seq<Seq<char>>,
    culprit: Seq<char>,
)
    requires
        culprit_drvs(drv, closure, failing).contains(culprit),
    ensures
        culprit != drv,
        closure.contains(culprit),
        failing.contains(culprit),
{
    let pred = blocks(drv, failing);
    let got = closure.filter(pred);
    closure.lemma_filter_contains_rev(pred, culprit);
    let i = choose|i: int| 0 <= i < got.len() && got[i] == culprit;
    closure.lemma_filter_pred(pred, i);
}

/// A derivation that the log knows as failing only, with its outputs.
#[derive(Debug)]
pub struct Failing {
    pub drv_path: String,
    pub outputs: Vec<String>,
}

/// Whether a derivation that the log knows as failing still is, in the store: one of its
/// outputs is invalid. One that was built since, or has no outputs to tell by, is not
/// known to fail.
pub open spec fn fails_still(f: Failing, invalid: Seq<Seq<char>>) -> bool {
    some_invalid(texts(f.outputs@), invalid)
}

/// The derivations that still fail, of those that the log knows as failing.
pub open spec fn verified(candidates: Seq<Failing>, invalid: Seq<Seq<char>>) -> Seq<Seq<char>> {
    candidates.filter(|f: Failing| fails_still(f, invalid)).map_values(
        |f: Failing| f.drv_path@,
    )
}

/// The derivations that still fail, of those that the log knows as failing, from which
/// of their outputs are invalid in the store.
pub fn still_failing(candidates: &[Failing], invalid: &[String]) -> (out: Vec<String>)
    ensures
        texts(out@) == verified(candidates@, texts(invalid@)),
{
    let ghost pred = |f: Failing| fails_still(f, texts(invalid@));
    let ghost name = |f: Failing| f.drv_path@;
    let mut out: Vec<String> = Vec::new();
    let mut i: usize = 0;
    proof {
        reveal(Seq::filter);
        assert(candidates@.take(0) =~= Seq::<Failing>::empty());
        assert(candidates@.take(0).filter(pred).map_values(name) =~= Seq::<Seq<char>>::empty());
        assert(texts(out@) =~= Seq::<Seq<char>>::empty());
    }
    while i < candidates.len()
        invariant
            i <= candidates@.len(),
            pred == (|f: Failing| fails_still(f, texts(invalid@))),
            name == (|f: Failing| f.drv_path@),
            texts(out@) == candidates@.take(i as int).filter(pred).map_values(name),
        decreases candidates@.len() - i,
    {
        let f: &Failing = &candidates[i];
        let ghost before = candidates@.take(i as int).filter(pred);
        let ghost found = texts(out@);
        proof {
            reveal(Seq::filter);
            assert(candidates@.take(i + 1).drop_last() =~= candidates@.take(i as int));
        }
        if any_invalid(&f.outputs, invalid) {
            out.push(f.drv_path.clone());
            assert(candidates@.take(i + 1).filter(pred) =~= before.push(*f));
            assert(before.push(*f).map_values(name) =~= before.map_values(name).push(name(*f)));
            assert(texts(out@) =~= found.push(name(*f)));
        }
        i += 1;
    }
    assert(candidates@.take(i as int) =~= candidates@);
    out
}

/// The outputs of a derivation that still fails, of the first candidate that is it.
pub open spec fn failing_outputs(
    candidates: Seq<Failing>,
    invalid: Seq<Seq<char>>,
    drv: Seq<char>,
) -> Seq<Seq<char>>
    decreases candidates.len(),
{
    if candidates.len() == 0 {
        Seq::empty()
    } else if candidates[0].drv_path@ == drv && fails_still(candidates[0], invalid) {
        texts(candidates[0].outputs@)
    } else {
        failing_outputs(candidates.skip(1), invalid, drv)
    }
}

/// The fact about a derivation that cannot be built: the first culprit in its closure
/// blocks it, and its outputs are the paths that decide the block anew. There is none
/// where nothing in the closure is known to fail.
pub open spec fn blocked(
    drv: Seq<char>,
    closure: Seq<Seq<char>>,
    candidates: Seq<Failing>,
    invalid: Seq<Seq<char>>,
    when: int,
) -> Option<RecordView> {
    let found = culprit_drvs(drv, closure, verified(candidates, invalid));
    if found.len() == 0 {
        None
    } else {
        Some(
            local_view(
                drv,
                Outcome::DepFailed,
                when,
                failing_outputs(candidates, invalid, found[0]),
            ),
        )
    }
}

/// Whether what blocks a derivation is looked for before a build: something is known to
/// fail, and what failed is not to be tried again anyway.
pub fn propagates(policy: BuildPolicy, failing: &[String]) -> (yes: bool)
    ensures
        yes == (!policy.retry && failing@.len() > 0),
{
    !policy.retry && failing.len() > 0
}

/// The fact to record about a derivation that something in its closure blocks. Before a
/// build it takes the derivation out of the batch.
pub fn blocked_fact(
    drv: &str,
    closure: &[String],
    candidates: &[Failing],
    invalid: &[String],
    when: i64,
) -> (out: Option<Record>)
    ensures
        fact_view(out) == blocked(
            drv@,
            texts(closure@),
            candidates@,
            texts(invalid@),
            when as int,
        ),
{
    let failing = still_failing(candidates, invalid);
    let found = culprits(drv, closure, &failing);
    assert(texts(found@).len() == found@.len());
    if found.len() == 0 {
        return None;
    }
    assert(texts(found@)[0] == found@[0]@);
    let mut i: usize = 0;
    assert(candidates@.skip(0) =~= candidates@);
    while i < candidates.len()
        invariant
            i <= candidates@.len(),
            found@.len() > 0,
            texts(found@) == culprit_drvs(
                drv@,
                texts(closure@),
                verified(candidates@, texts(invalid@)),
            ),
            texts(found@)[0] == found@[0]@,
            failing_outputs(candidates@, texts(invalid@), found@[0]@) == failing_outputs(
                candidates@.skip(i as int),
                texts(invalid@),
                found@[0]@,
            ),
        decreases candidates@.len() - i,
    {
        let f: &Failing = &candidates[i];
        assert(candidates@.skip(i as int)[0] == *f);
        if f.drv_path == found[0] && any_invalid(&f.outputs, invalid) {
            return Some(local_fact(drv, Outcome::DepFailed, when, &f.outputs));
        }
        assert(candidates@.skip(i as int).skip(1) =~= candidates@.skip(i + 1));
        i += 1;
    }
    let none: Vec<String> = Vec::new();
    assert(texts(none@) =~= Seq::<Seq<char>>::empty());
    Some(local_fact(drv, Outcome::DepFailed, when, none.as_slice()))
}

/// The fact about a derivation of a batch without a build activity of its own. Valid
/// outputs are a success, and a dependency that is known to fail blocks it. Otherwise
/// nothing is said: that it was not reached implies nothing.
pub open spec fn settled(
    drv: Seq<char>,
    outputs: Seq<Seq<char>>,
    closure: Seq<Seq<char>>,
    candidates: Seq<Failing>,
    invalid: Seq<Seq<char>>,
    when: int,
) -> Option<RecordView> {
    if outputs_valid(outputs, invalid) {
        Some(local_view(drv, Outcome::Built, when, Seq::empty()))
    } else {
        blocked(drv, closure, candidates, invalid, when)
    }
}

/// The fact to record about a derivation of a batch without a build activity of its own.
pub fn leftover_fact(
    drv: &str,
    outputs: &[String],
    closure: &[String],
    candidates: &[Failing],
    invalid: &[String],
    when: i64,
) -> (out: Option<Record>)
    ensures
        fact_view(out) == settled(
            drv@,
            texts(outputs@),
            texts(closure@),
            candidates@,
            texts(invalid@),
            when as int,
        ),
{
    assert(texts(outputs@).len() == outputs@.len());
    if drv_built(outputs, invalid) {
        Some(success(drv, when))
    } else {
        blocked_fact(drv, closure, candidates, invalid, when)
    }
}

// --- laws -------------------------------------------------------------------

/// A derivation is probed if and only if it is that of a target of which the log holds
/// neither a local fact nor a success, and that is not skipped for its mark. None is
/// probed twice.
pub proof fn lemma_probed(known: Seq<Known>, policy: BuildPolicy, drv: Seq<char>)
    ensures
        probes(known, policy).contains(drv) <==> exists|k: int|
            0 <= k < known.len() && (#[trigger] known[k]).target.drv_path@ == drv && (
            !known[k].target.skipped || policy.no_skip) && forall|i: int|
                0 <= i < known[k].records@.len() ==> (#[trigger] known[k].records@[i]).source
                    is Cache && !(known[k].records@[i].outcome is Built),
        probes(known, policy).no_duplicates(),
{
    let pred = |k: Known| worth_probing(k, policy);
    let name = |k: Known| k.target.drv_path@;
    crate::report::lemma_distinct(known.filter(pred).map_values(name));
    crate::order::lemma_chosen(known, pred, name, drv);
    assert forall|k: int| 0 <= k < known.len() implies pred(#[trigger] known[k]) == ((
    !known[k].target.skipped || policy.no_skip) && forall|i: int|
        0 <= i < known[k].records@.len() ==> (#[trigger] known[k].records@[i]).source is Cache && !(
        known[k].records@[i].outcome is Built)) by {
        let records = known[k].records@;
        if fact_known(records) {
            let i = choose|i: int| 0 <= i < records.len() && decides(#[trigger] records[i]);
            assert(!(records[i].source is Cache && !(records[i].outcome is Built)));
        } else {
            assert forall|i: int| 0 <= i < records.len() implies (#[trigger] records[i]).source
                is Cache && !(records[i].outcome is Built) by {
                assert(!decides(records[i]));
            }
        }
    }
}

/// When each decision about a target comes, over its mark, the policy and the records of
/// its derivation. A recorded block holds still where it names no paths, or where one of
/// the paths that it names is invalid; one that holds is enough.
pub proof fn lemma_target_decided(k: Known, policy: BuildPolicy, invalid: Seq<Seq<char>>)
    ensures
        ({
            let out = target_decision(k, policy, invalid);
            let records = k.records@;
            let considered = !k.target.skipped || policy.no_skip;
            let succeeded = exists|i: int|
                0 <= i < records.len() && (#[trigger] records[i]).outcome is Built;
            let failed = exists|i: int|
                0 <= i < records.len() && (#[trigger] records[i]).outcome is Failed;
            let held = exists|i: int|
                0 <= i < records.len() && (#[trigger] records[i]).outcome is DepFailed && (
                records[i].blocker@.len() == 0 || exists|j: int|
                    0 <= j < records[i].blocker@.len() && invalid.contains(
                        (#[trigger] records[i].blocker@[j])@,
                    ));
            &&& out is Skipped <==> !considered
            &&& out is SkipOk <==> considered && succeeded
            &&& out is SkipFail <==> considered && !succeeded && !policy.retry && (failed || held)
            &&& out is Build <==> considered && !succeeded && (policy.retry || (!failed && !held))
        }),
{
    let records = k.records@;
    assert forall|i: int| 0 <= i < records.len() implies some_invalid(
        texts((#[trigger] records[i]).blocker@),
        invalid,
    ) == exists|j: int|
        0 <= j < records[i].blocker@.len() && invalid.contains(
            (#[trigger] records[i].blocker@[j])@,
        ) by {
        lemma_some_invalid(records[i].blocker@, invalid);
    }
    if recorded(records, Outcome::DepFailed) && !records_stale(records, invalid) {
        let i = choose|i: int|
            0 <= i < records.len() && (#[trigger] records[i]).outcome == Outcome::DepFailed && !(
            records[i].blocker@.len() > 0 && !some_invalid(texts(records[i].blocker@), invalid));
        assert(records[i].outcome is DepFailed);
    }
}

/// Some of the paths are invalid if and only if one is among the invalid ones.
pub proof fn lemma_some_invalid(paths: Seq<String>, invalid: Seq<Seq<char>>)
    ensures
        some_invalid(texts(paths), invalid) == exists|j: int|
            0 <= j < paths.len() && invalid.contains((#[trigger] paths[j])@),
{
    if some_invalid(texts(paths), invalid) {
        let j = choose|j: int|
            0 <= j < texts(paths).len() && invalid.contains(#[trigger] texts(paths)[j]);
        assert(invalid.contains(paths[j]@));
    }
    if exists|j: int| 0 <= j < paths.len() && invalid.contains((#[trigger] paths[j])@) {
        let j = choose|j: int| 0 <= j < paths.len() && invalid.contains((#[trigger] paths[j])@);
        assert(invalid.contains(texts(paths)[j]));
    }
}

/// The targets to build are those that the decision is to build, each once and in their
/// order.
pub proof fn lemma_built_targets(
    known: Seq<Known>,
    policy: BuildPolicy,
    invalid: Seq<Seq<char>>,
    i: int,
)
    requires
        0 <= i < known.len() <= usize::MAX,
    ensures
        ({
            let out = building(known, policy, invalid, known.len() as int);
            &&& out.contains(i as usize) <==> target_decision(known[i], policy, invalid) is Build
            &&& forall|a: int, b: int| 0 <= a < b < out.len() ==> (#[trigger] out[a]) < (
                #[trigger] out[b])
        }),
{
    lemma_building_at(known, policy, invalid, known.len() as int, i);
}

/// The same, among the first targets.
proof fn lemma_building_at(
    known: Seq<Known>,
    policy: BuildPolicy,
    invalid: Seq<Seq<char>>,
    n: int,
    i: int,
)
    requires
        0 <= n <= known.len() <= usize::MAX,
        0 <= i < known.len(),
    ensures
        ({
            let out = building(known, policy, invalid, n);
            &&& out.contains(i as usize) <==> i < n && target_decision(known[i], policy, invalid)
                is Build
            &&& forall|a: int, b: int| 0 <= a < b < out.len() ==> (#[trigger] out[a]) < (
                #[trigger] out[b])
        }),
    decreases n,
{
    if n > 0 {
        lemma_building_at(known, policy, invalid, n - 1, i);
        lemma_building(known, policy, invalid, n - 1);
        let before = building(known, policy, invalid, n - 1);
        let now = building(known, policy, invalid, n);
        if before.contains(i as usize) {
            let j = choose|j: int| 0 <= j < before.len() && before[j] == i as usize;
            assert(now[j] == i as usize);
        }
        if target_decision(known[n - 1], policy, invalid) is Build {
            assert(now[before.len() as int] == (n - 1) as usize);
        }
        if now.contains(i as usize) {
            let j = choose|j: int| 0 <= j < now.len() && now[j] == i as usize;
            if j < before.len() {
                assert(before[j] == i as usize);
            }
        }
    }
}

/// A failure is decided anew from the derivation if and only if it is that of a target
/// that is not skipped for its mark, of which a failure and no success is recorded, and
/// no failure names its outputs.
pub proof fn lemma_rechecked(known: Seq<Known>, policy: BuildPolicy, drv: Seq<char>)
    ensures
        rechecks(known, policy).contains(drv) <==> exists|k: int|
            0 <= k < known.len() && (#[trigger] known[k]).target.drv_path@ == drv && (
            !known[k].target.skipped || policy.no_skip) && (exists|i: int|
                0 <= i < known[k].records@.len() && (#[trigger] known[k].records@[i]).outcome
                    is Failed) && forall|i: int|
                0 <= i < known[k].records@.len() ==> !((#[trigger] known[k].records@[i]).outcome
                    is Built) && (known[k].records@[i].outcome is Failed
                    ==> known[k].records@[i].blocker@.len() == 0),
{
    let pred = |k: Known| worth_rechecking(k, policy);
    let name = |k: Known| k.target.drv_path@;
    crate::order::lemma_chosen(known, pred, name, drv);
    assert forall|k: int| 0 <= k < known.len() implies pred(#[trigger] known[k]) == ((
    !known[k].target.skipped || policy.no_skip) && (exists|i: int|
        0 <= i < known[k].records@.len() && (#[trigger] known[k].records@[i]).outcome is Failed)
        && forall|i: int|
        0 <= i < known[k].records@.len() ==> !((#[trigger] known[k].records@[i]).outcome is Built)
            && (known[k].records@[i].outcome is Failed ==> known[k].records@[i].blocker@.len()
            == 0)) by {
        let records = known[k].records@;
        if recorded(records, Outcome::Built) {
            let i = choose|i: int|
                0 <= i < records.len() && (#[trigger] records[i]).outcome == Outcome::Built;
            assert(records[i].outcome is Built);
        }
    }
}

/// What the end of a build is recorded as. Its outputs are valid where there are some and
/// none of them is invalid. A build that left its outputs invalid is a failure that names
/// them; one whose outputs are valid is a success, and recorded only where it was asked
/// for.
pub proof fn lemma_stopped_cases(
    drv: Seq<char>,
    requested: bool,
    outputs: Seq<Seq<char>>,
    invalid: Seq<Seq<char>>,
    when: int,
)
    ensures
        ({
            let out = stopped(drv, requested, outputs, invalid, when);
            let valid = outputs.len() > 0 && forall|i: int|
                0 <= i < outputs.len() ==> !invalid.contains(#[trigger] outputs[i]);
            &&& out is None <==> valid && !requested
            &&& out matches Some(fact) ==> {
                &&& fact.drv_path == drv
                &&& fact.source is Local
                &&& fact.when == when
                &&& fact.outcome is Built <==> valid
                &&& fact.outcome is Failed <==> !valid
                &&& fact.blocker == (if valid {
                    Seq::empty()
                } else {
                    outputs
                })
            }
        }),
{
}

/// A target's failure has healed if and only if no success of it is recorded, and one of
/// its failures names outputs of which none is invalid. Those that have are listed once,
/// in their order.
pub proof fn lemma_healed_targets(known: Seq<Known>, invalid: Seq<Seq<char>>, i: int)
    requires
        0 <= i < known.len() <= usize::MAX,
    ensures
        ({
            let out = healing(known, invalid, known.len() as int);
            let records = known[i].records@;
            &&& out.contains(i as usize) <==> (forall|j: int|
                0 <= j < records.len() ==> !((#[trigger] records[j]).outcome is Built)) && exists|
                j: int,
            |
                0 <= j < records.len() && (#[trigger] records[j]).outcome is Failed
                    && records[j].blocker@.len() > 0 && forall|p: int|
                    0 <= p < records[j].blocker@.len() ==> !invalid.contains(
                        (#[trigger] records[j].blocker@[p])@,
                    )
            &&& forall|a: int, b: int| 0 <= a < b < out.len() ==> (#[trigger] out[a]) < (
                #[trigger] out[b])
        }),
{
    let records = known[i].records@;
    lemma_healing_at(known, invalid, known.len() as int, i);
    assert forall|j: int| 0 <= j < records.len() implies outputs_valid(
        texts((#[trigger] records[j]).blocker@),
        invalid,
    ) == (records[j].blocker@.len() > 0 && forall|p: int|
        0 <= p < records[j].blocker@.len() ==> !invalid.contains(
            (#[trigger] records[j].blocker@[p])@,
        )) by {
        lemma_some_invalid(records[j].blocker@, invalid);
        assert(texts(records[j].blocker@).len() == records[j].blocker@.len());
    }
    if recorded(records, Outcome::Built) {
        let j = choose|j: int|
            0 <= j < records.len() && (#[trigger] records[j]).outcome == Outcome::Built;
        assert(records[j].outcome is Built);
    }
}

/// The same, among the first targets.
proof fn lemma_healing_at(known: Seq<Known>, invalid: Seq<Seq<char>>, n: int, i: int)
    requires
        0 <= n <= known.len() <= usize::MAX,
        0 <= i < known.len(),
    ensures
        ({
            let out = healing(known, invalid, n);
            &&& out.contains(i as usize) <==> i < n && failure_healed(known[i].records@, invalid)
            &&& forall|a: int| 0 <= a < out.len() ==> (#[trigger] out[a]) < n
            &&& forall|a: int, b: int| 0 <= a < b < out.len() ==> (#[trigger] out[a]) < (
                #[trigger] out[b])
        }),
    decreases n,
{
    if n > 0 {
        lemma_healing_at(known, invalid, n - 1, i);
        let before = healing(known, invalid, n - 1);
        let now = healing(known, invalid, n);
        if before.contains(i as usize) {
            let j = choose|j: int| 0 <= j < before.len() && before[j] == i as usize;
            assert(now[j] == i as usize);
        }
        if failure_healed(known[n - 1].records@, invalid) {
            assert(now[before.len() as int] == (n - 1) as usize);
        }
        if now.contains(i as usize) {
            let j = choose|j: int| 0 <= j < now.len() && now[j] == i as usize;
            if j < before.len() {
                assert(before[j] == i as usize);
            }
        }
        assert forall|a: int| 0 <= a < now.len() implies (#[trigger] now[a]) < n by {
            if a < before.len() {
                assert(now[a] == before[a]);
            }
        }
    }
}

/// A candidate fails still if and only if one of its outputs is invalid, and those that
/// do are all that is taken to fail.
pub proof fn lemma_verified(candidates: Seq<Failing>, invalid: Seq<Seq<char>>, drv: Seq<char>)
    ensures
        verified(candidates, invalid).contains(drv) <==> exists|i: int|
            0 <= i < candidates.len() && (#[trigger] candidates[i]).drv_path@ == drv && exists|
                j: int,
            |
                0 <= j < candidates[i].outputs@.len() && invalid.contains(
                    (#[trigger] candidates[i].outputs@[j])@,
                ),
{
    let pred = |f: Failing| fails_still(f, invalid);
    crate::order::lemma_chosen(candidates, pred, |f: Failing| f.drv_path@, drv);
    assert forall|i: int| 0 <= i < candidates.len() implies pred(#[trigger] candidates[i])
        == exists|j: int|
        0 <= j < candidates[i].outputs@.len() && invalid.contains(
            (#[trigger] candidates[i].outputs@[j])@,
        ) by {
        lemma_some_invalid(candidates[i].outputs@, invalid);
    }
}

/// A derivation is recorded as blocked if and only if a candidate of its closure, not
/// itself, fails still. The fact is its own, and names the outputs of a culprit.
pub proof fn lemma_blocked_cases(
    drv: Seq<char>,
    closure: Seq<Seq<char>>,
    candidates: Seq<Failing>,
    invalid: Seq<Seq<char>>,
    when: int,
)
    ensures
        ({
            let out = blocked(drv, closure, candidates, invalid, when);
            &&& out is Some <==> exists|i: int|
                0 <= i < candidates.len() && (#[trigger] candidates[i]).drv_path@ != drv
                    && closure.contains(candidates[i].drv_path@) && exists|j: int|
                    0 <= j < candidates[i].outputs@.len() && invalid.contains(
                        (#[trigger] candidates[i].outputs@[j])@,
                    )
            &&& out matches Some(fact) ==> fact.drv_path == drv && fact.source is Local && fact.when
                == when && fact.outcome is DepFailed
        }),
{
    let failing = verified(candidates, invalid);
    let pred = blocks(drv, failing);
    let found = culprit_drvs(drv, closure, failing);
    if found.len() > 0 {
        assert(found.contains(found[0]));
        lemma_culprits_fail(drv, closure, failing, found[0]);
        lemma_verified(candidates, invalid, found[0]);
        let i = choose|i: int|
            0 <= i < candidates.len() && (#[trigger] candidates[i]).drv_path@ == found[0] && exists|
                j: int,
            |
                0 <= j < candidates[i].outputs@.len() && invalid.contains(
                    (#[trigger] candidates[i].outputs@[j])@,
                );
        assert(candidates[i].drv_path@ != drv && closure.contains(candidates[i].drv_path@));
    }
    if exists|i: int|
        0 <= i < candidates.len() && (#[trigger] candidates[i]).drv_path@ != drv
            && closure.contains(candidates[i].drv_path@) && exists|j: int|
            0 <= j < candidates[i].outputs@.len() && invalid.contains(
                (#[trigger] candidates[i].outputs@[j])@,
            ) {
        let i = choose|i: int|
            0 <= i < candidates.len() && (#[trigger] candidates[i]).drv_path@ != drv
                && closure.contains(candidates[i].drv_path@) && exists|j: int|
                0 <= j < candidates[i].outputs@.len() && invalid.contains(
                    (#[trigger] candidates[i].outputs@[j])@,
                );
        let d = candidates[i].drv_path@;
        lemma_verified(candidates, invalid, d);
        assert(failing.contains(d));
        let k = choose|k: int| 0 <= k < closure.len() && closure[k] == d;
        closure.lemma_filter_contains(pred, k);
        assert(found.contains(d));
    }
}

/// What is left over of a batch is a success where its outputs are valid, and otherwise
/// what blocks it decides.
pub proof fn lemma_settled_cases(
    drv: Seq<char>,
    outputs: Seq<Seq<char>>,
    closure: Seq<Seq<char>>,
    candidates: Seq<Failing>,
    invalid: Seq<Seq<char>>,
    when: int,
)
    ensures
        ({
            let out = settled(drv, outputs, closure, candidates, invalid, when);
            let valid = outputs.len() > 0 && forall|i: int|
                0 <= i < outputs.len() ==> !invalid.contains(#[trigger] outputs[i]);
            &&& valid ==> (out matches Some(fact) && fact.drv_path == drv && fact.source is Local
                && fact.when == when && fact.outcome is Built && fact.blocker.len() == 0)
            &&& !valid ==> out == blocked(drv, closure, candidates, invalid, when)
        }),
{
}

/// A build that starts is attempted and runs until it stops; then it is the one that
/// finished. Nothing else touches what runs.
pub proof fn lemma_build_runs(log: BuildLogView, start: NixEvent, stop: NixEvent, other: u64)
    requires
        start.action@ == "start"@,
        start.typ == Some(105i64),
        start.id is Some,
        start.first_field is Some,
        stop.action@ == "stop"@,
        stop.id is Some,
    ensures
        ({
            let drv = start.first_field->0@;
            let during = after_event(log, start);
            let after = after_event(during, stop);
            &&& finished_by(log, start) is None
            &&& during.attempted == log.attempted.insert(drv)
            &&& during.running.contains_key(start.id->0) && during.running[start.id->0] == drv
            &&& other != start.id->0 ==> during.running.contains_key(other)
                == log.running.contains_key(other) && during.running[other] == log.running[other]
            &&& stop.id == start.id ==> finished_by(during, stop) == Some(drv)
            &&& after.attempted == during.attempted
            &&& !after.running.contains_key(stop.id->0)
            &&& other != stop.id->0 ==> after.running.contains_key(other)
                == during.running.contains_key(other) && after.running[other]
                == during.running[other]
            &&& finished_by(log, stop) is Some <==> log.running.contains_key(stop.id->0)
        }),
{
    reveal_strlit("start");
    reveal_strlit("stop");
    assert("start"@[2] != "stop"@[2]);
}

/// An event that neither starts a build nor stops an activity says nothing: a start of
/// something else than a build, one without a derivation, an event without an activity,
/// and any other action.
pub proof fn lemma_other_events(log: BuildLogView, ev: NixEvent)
    requires
        ev.id is None || (ev.action@ != "stop"@ && (ev.action@ != "start"@ || ev.typ != Some(105i64)
            || ev.first_field is None)),
    ensures
        after_event(log, ev) == log,
        finished_by(log, ev) is None,
{
}

/// The command that builds a batch names all outputs of each derivation, in their order,
/// goes on after a failure, and rebuilds if and only if it is forced to.
pub proof fn lemma_build_args(drvs: Seq<Seq<char>>, force: bool)
    requires
        forall|i: int| 0 <= i < drvs.len() ==> (#[trigger] drvs[i]) + "^*"@ != "--rebuild"@,
    ensures
        ({
            let args = build_args_text(drvs, force);
            &&& args[0] == "build"@
            &&& forall|i: int| 0 <= i < drvs.len() ==> args[i + 1] == (#[trigger] drvs[i]) + "^*"@
            &&& args.contains("--keep-going"@)
            &&& args.contains("--no-link"@)
            &&& args.contains("--rebuild"@) <==> force
        }),
{
    let args = build_args_text(drvs, force);
    let n = drvs.len() as int;
    let named = drvs.map_values(|d: Seq<char>| d + "^*"@);
    assert(args[n + 1] == "--keep-going"@);
    assert(args[n + 2] == "--no-link"@);
    assert(args[n + 3] == "--log-format"@);
    assert(args[n + 4] == "internal-json"@);
    assert(args[n + 5] == "-v"@);
    assert(args[n + 6] == "--extra-experimental-features"@);
    assert(args[n + 7] == "nix-command"@);
    assert forall|i: int| 0 <= i < drvs.len() implies args[i + 1] == (#[trigger] drvs[i]) + "^*"@ by {
        assert(args[i + 1] == named[i]);
    }
    reveal_strlit("build");
    reveal_strlit("--keep-going");
    reveal_strlit("--no-link");
    reveal_strlit("--log-format");
    reveal_strlit("internal-json");
    reveal_strlit("-v");
    reveal_strlit("--extra-experimental-features");
    reveal_strlit("nix-command");
    reveal_strlit("--rebuild");
    assert("--no-link"@[2] != "--rebuild"@[2]);
    if force {
        assert(args[args.len() - 1] == "--rebuild"@);
    } else if args.contains("--rebuild"@) {
        let k = choose|k: int| 0 <= k < args.len() && args[k] == "--rebuild"@;
        if 0 < k <= n {
            assert(args[k] == drvs[k - 1] + "^*"@);
        }
    }
}

/// A set of which everything is known costs no probe.
pub proof fn lemma_known_set_is_not_probed(known: Seq<Known>, policy: BuildPolicy)
    requires
        forall|k: int| 0 <= k < known.len() ==> fact_known((#[trigger] known[k]).records@),
    ensures
        probes(known, policy).len() == 0,
{
    let pred = |k: Known| worth_probing(k, policy);
    let rest = known.filter(pred);
    if rest.len() > 0 {
        known.lemma_filter_pred(pred, 0);
        known.lemma_filter_contains_rev(pred, rest[0]);
        let k = choose|k: int| 0 <= k < known.len() && known[k] == rest[0];
        assert(fact_known(known[k].records@));
    }
    assert(rest.map_values(|k: Known| k.target.drv_path@) =~= Seq::<Seq<char>>::empty());
}

/// A fact that was recorded settles a derivation for the probe: a hit in the cache,
/// and every outcome of a local build.
pub proof fn lemma_recorded_is_known(records: Seq<Record>, fact: Record)
    requires
        fact.source == Source::Local || fact.outcome == Outcome::Built,
    ensures
        fact_known(records.push(fact)),
{
    assert(decides(records.push(fact)[records.len() as int]));
}

/// What was seen built is never built again, whatever the policy is.
pub proof fn lemma_success_is_not_built(
    known: Seq<Known>,
    policy: BuildPolicy,
    invalid: Seq<Seq<char>>,
    i: int,
    n: int,
)
    requires
        0 <= i < known.len(),
        0 <= n <= known.len() <= usize::MAX,
        recorded(known[i].records@, Outcome::Built),
    ensures
        !building(known, policy, invalid, n).contains(i as usize),
    decreases n,
{
    if n > 0 {
        lemma_success_is_not_built(known, policy, invalid, i, n - 1);
        let before = building(known, policy, invalid, n - 1);
        let now = building(known, policy, invalid, n);
        if now.contains(i as usize) {
            let j = choose|j: int| 0 <= j < now.len() && now[j] == i as usize;
            if j < before.len() {
                assert(before[j] == i as usize);
            }
        }
    }
}

/// The activities that run are of derivations that were attempted.
pub open spec fn attempts_cover(log: BuildLogView) -> bool {
    forall|id: u64| #[trigger]
        log.running.contains_key(id) ==> log.attempted.contains(log.running[id])
}

/// Whatever is logged, the activities that run are of derivations that were
/// attempted, and an attempt is never forgotten.
pub proof fn lemma_attempts_cover(log: BuildLogView, ev: NixEvent)
    requires
        attempts_cover(log),
    ensures
        attempts_cover(after_event(log, ev)),
        log.attempted.subset_of(after_event(log, ev).attempted),
{
}

/// A build is finished once: the derivation was attempted, and the same event does not
/// finish it again.
pub proof fn lemma_finished_once(log: BuildLogView, ev: NixEvent)
    requires
        attempts_cover(log),
        finished_by(log, ev) is Some,
    ensures
        log.attempted.contains(finished_by(log, ev)->0),
        finished_by(after_event(log, ev), ev) is None,
{
    reveal_strlit("start");
    reveal_strlit("stop");
    assert("start"@[2] != "stop"@[2]);
}

/// Every derivation of a batch has a recorded outcome or is left over, and none is
/// both or left over twice.
pub proof fn lemma_leftover(drvs: Seq<Seq<char>>, recorded: Seq<Seq<char>>)
    ensures
        unrecorded(drvs, recorded).no_duplicates(),
        forall|d: Seq<char>| #[trigger]
            unrecorded(drvs, recorded).contains(d) <==> drvs.contains(d) && !recorded.contains(d),
{
    let pred = |d: Seq<char>| !recorded.contains(d);
    let rest = drvs.filter(pred);
    crate::report::lemma_distinct(rest);
    assert forall|d: Seq<char>| #[trigger] unrecorded(drvs, recorded).contains(d) <==> drvs.contains(
        d,
    ) && !recorded.contains(d) by {
        if rest.contains(d) {
            let i = choose|i: int| 0 <= i < rest.len() && rest[i] == d;
            drvs.lemma_filter_pred(pred, i);
            drvs.lemma_filter_contains_rev(pred, d);
        }
        if drvs.contains(d) && !recorded.contains(d) {
            let i = choose|i: int| 0 <= i < drvs.len() && drvs[i] == d;
            drvs.lemma_filter_contains(pred, i);
        }
    }
}

/// A failure that has healed and is recorded as built is a success from then on: it is
/// not built, and not taken for healed again.
pub proof fn lemma_healed_is_settled(
    k: Known,
    after: Known,
    fact: Record,
    policy: BuildPolicy,
    invalid: Seq<Seq<char>>,
)
    requires
        failure_healed(k.records@, invalid),
        fact.outcome == Outcome::Built,
        after.target == k.target,
        after.records@ == k.records@.push(fact),
    ensures
        target_decision(k, policy, invalid) != Decision::SkipOk,
        target_decision(after, policy, invalid) == (if k.target.skipped && !policy.no_skip {
            Decision::Skipped
        } else {
            Decision::SkipOk
        }),
        !failure_healed(after.records@, invalid),
{
    assert(after.records@[k.records@.len() as int].outcome == Outcome::Built);
}

/// A failure that is decided anew is not decided anew again: the fact that is recorded
/// is a success, or names the outputs that tell.
pub proof fn lemma_rechecked_once(
    records: Seq<Record>,
    fact: Record,
    drv: Seq<char>,
    outputs: Seq<Seq<char>>,
    invalid: Seq<Seq<char>>,
    when: int,
)
    requires
        outputs.len() > 0,
        stopped(drv, true, outputs, invalid, when) == Some(fact@),
    ensures
        !outputs_unknown(records.push(fact)),
{
    let all = records.push(fact);
    let last = all[records.len() as int];
    assert(last == fact);
    assert(fact@.outcome == fact.outcome);
    assert(texts(fact.blocker@).len() == fact.blocker@.len());
    assert(fact@.blocker == texts(fact.blocker@));
    if last.outcome == Outcome::Built {
        assert(recorded(all, Outcome::Built));
    } else {
        assert(last.outcome == Outcome::Failed && last.blocker@.len() > 0);
    }
}

/// No block is guessed: what is recorded as blocked has, in its closure, another
/// derivation that the log knows as failing and that has an invalid output now; and the
/// outputs of one such derivation are the paths of the block, so that it holds.
pub proof fn lemma_blocks_are_verified(
    drv: Seq<char>,
    closure: Seq<Seq<char>>,
    candidates: Seq<Failing>,
    invalid: Seq<Seq<char>>,
    when: int,
)
    requires
        blocked(drv, closure, candidates, invalid, when) is Some,
    ensures
        ({
            let fact = blocked(drv, closure, candidates, invalid, when)->0;
            &&& fact.outcome == Outcome::DepFailed
            &&& some_invalid(fact.blocker, invalid)
            &&& exists|i: int|
                0 <= i < candidates.len() && (#[trigger] candidates[i]).drv_path@ != drv
                    && closure.contains(candidates[i].drv_path@) && fact.blocker == texts(
                    candidates[i].outputs@,
                )
        }),
{
    let names = verified(candidates, invalid);
    let found = culprit_drvs(drv, closure, names);
    let culprit = found[0];
    assert(found.contains(culprit));
    lemma_culprits_fail(drv, closure, names, culprit);
    let pred = |f: Failing| fails_still(f, invalid);
    let rest = candidates.filter(pred);
    let k = choose|k: int| 0 <= k < names.len() && names[k] == culprit;
    assert(names[k] == rest[k].drv_path@);
    candidates.lemma_filter_pred(pred, k);
    assert(rest.contains(rest[k]));
    candidates.lemma_filter_contains_rev(pred, rest[k]);
    let i = choose|i: int| 0 <= i < candidates.len() && candidates[i] == rest[k];
    lemma_failing_outputs(candidates, invalid, culprit, i);
}

/// The outputs that are found for a derivation that still fails are those of a candidate
/// that is it.
proof fn lemma_failing_outputs(
    candidates: Seq<Failing>,
    invalid: Seq<Seq<char>>,
    drv: Seq<char>,
    i: int,
)
    requires
        0 <= i < candidates.len(),
        candidates[i].drv_path@ == drv,
        fails_still(candidates[i], invalid),
    ensures
        some_invalid(failing_outputs(candidates, invalid, drv), invalid),
        exists|j: int|
            0 <= j < candidates.len() && (#[trigger] candidates[j]).drv_path@ == drv
                && failing_outputs(candidates, invalid, drv) == texts(candidates[j].outputs@),
    decreases candidates.len(),
{
    let rest = candidates.skip(1);
    if candidates[0].drv_path@ == drv && fails_still(candidates[0], invalid) {
        assert(candidates[0].drv_path@ == drv);
    } else {
        assert(rest[i - 1] == candidates[i]);
        lemma_failing_outputs(rest, invalid, drv, i - 1);
        let j = choose|j: int|
            0 <= j < rest.len() && (#[trigger] rest[j]).drv_path@ == drv && failing_outputs(
                rest,
                invalid,
                drv,
            ) == texts(rest[j].outputs@);
        assert(candidates[j + 1] == rest[j]);
    }
}

/// Nothing is said of a derivation that was not reached, that has an invalid output, and
/// that nothing which still fails can block.
pub proof fn lemma_unreached_is_unknown(
    drv: Seq<char>,
    outputs: Seq<Seq<char>>,
    closure: Seq<Seq<char>>,
    candidates: Seq<Failing>,
    invalid: Seq<Seq<char>>,
    when: int,
)
    requires
        some_invalid(outputs, invalid),
        forall|i: int|
            0 <= i < candidates.len() && closure.contains((#[trigger] candidates[i]).drv_path@)
                && candidates[i].drv_path@ != drv ==> !fails_still(candidates[i], invalid),
    ensures
        settled(drv, outputs, closure, candidates, invalid, when) is None,
{
    if blocked(drv, closure, candidates, invalid, when) is Some {
        let names = verified(candidates, invalid);
        let found = culprit_drvs(drv, closure, names);
        assert(found.contains(found[0]));
        lemma_culprits_fail(drv, closure, names, found[0]);
        let pred = |f: Failing| fails_still(f, invalid);
        let rest = candidates.filter(pred);
        let k = choose|k: int| 0 <= k < names.len() && names[k] == found[0];
        assert(names[k] == rest[k].drv_path@);
        candidates.lemma_filter_pred(pred, k);
        assert(rest.contains(rest[k]));
        candidates.lemma_filter_contains_rev(pred, rest[k]);
        let i = choose|i: int| 0 <= i < candidates.len() && candidates[i] == rest[k];
        assert(candidates[i].drv_path@ == found[0]);
    }
}

/// What blocks a derivation is the first derivation of its closure, not itself, that fails
/// still: the fact names the outputs of the first candidate of that derivation that fails.
pub proof fn lemma_first_culprit(
    drv: Seq<char>,
    closure: Seq<Seq<char>>,
    candidates: Seq<Failing>,
    invalid: Seq<Seq<char>>,
    when: int,
    c: int,
    i: int,
)
    requires
        0 <= c < closure.len(),
        closure[c] != drv,
        0 <= i < candidates.len(),
        candidates[i].drv_path@ == closure[c],
        some_invalid(texts(candidates[i].outputs@), invalid),
        forall|k: int|
            0 <= k < c && closure[k] != drv ==> !verified(candidates, invalid).contains(
                #[trigger] closure[k],
            ),
        forall|k: int|
            0 <= k < i && (#[trigger] candidates[k]).drv_path@ == closure[c] ==> !some_invalid(
                texts(candidates[k].outputs@),
                invalid,
            ),
    ensures
        blocked(drv, closure, candidates, invalid, when) matches Some(fact) && fact.blocker
            == texts(candidates[i].outputs@),
{
    let failing = verified(candidates, invalid);
    let pred = blocks(drv, failing);
    lemma_some_invalid(candidates[i].outputs@, invalid);
    lemma_verified(candidates, invalid, closure[c]);
    assert(failing.contains(closure[c]));
    lemma_first_kept(closure, pred, c);
    lemma_first_outputs(candidates, invalid, closure[c], i);
}

/// The first element that is kept comes first of those that are.
proof fn lemma_first_kept(s: Seq<Seq<char>>, pred: spec_fn(Seq<char>) -> bool, c: int)
    requires
        0 <= c < s.len(),
        pred(s[c]),
        forall|k: int| 0 <= k < c ==> !pred(#[trigger] s[k]),
    ensures
        s.filter(pred).len() > 0,
        s.filter(pred)[0] == s[c],
    decreases s.len(),
{
    reveal(Seq::filter);
    let front = s.drop_last();
    if c < front.len() {
        lemma_first_kept(front, pred, c);
        assert(s.filter(pred)[0] == front.filter(pred)[0]);
    } else {
        assert(front.filter(pred).len() == 0) by {
            if front.filter(pred).len() > 0 {
                let x = front.filter(pred)[0];
                front.lemma_filter_pred(pred, 0);
                front.lemma_filter_contains_rev(pred, x);
                let k = choose|k: int| 0 <= k < front.len() && front[k] == x;
                assert(!pred(s[k]));
            }
        }
    }
}

/// The outputs of a derivation that fails are those of its first candidate that does.
proof fn lemma_first_outputs(
    candidates: Seq<Failing>,
    invalid: Seq<Seq<char>>,
    drv: Seq<char>,
    i: int,
)
    requires
        0 <= i < candidates.len(),
        candidates[i].drv_path@ == drv,
        some_invalid(texts(candidates[i].outputs@), invalid),
        forall|k: int|
            0 <= k < i && (#[trigger] candidates[k]).drv_path@ == drv ==> !some_invalid(
                texts(candidates[k].outputs@),
                invalid,
            ),
    ensures
        failing_outputs(candidates, invalid, drv) == texts(candidates[i].outputs@),
    decreases candidates.len(),
{
    if i > 0 {
        let rest = candidates.skip(1);
        assert(!(candidates[0].drv_path@ == drv && fails_still(candidates[0], invalid)));
        assert forall|k: int| 0 <= k < i - 1 && (#[trigger] rest[k]).drv_path@ == drv implies !some_invalid(
            texts(rest[k].outputs@),
            invalid,
        ) by {
            assert(candidates[k + 1].drv_path@ == drv);
        }
        lemma_first_outputs(rest, invalid, drv, i - 1);
    }
}

/// A dependency block no longer holds if and only if every one that was observed names
/// paths, and none of these is invalid.
pub proof fn lemma_stale_cases(observations: Seq<Observation>, invalid: Seq<Seq<char>>)
    ensures
        stale(observations, invalid) <==> forall|i: int|
            0 <= i < observations.len() && (#[trigger] observations[i]).outcome is DepFailed
                ==> observations[i].blocker@.len() > 0 && forall|j: int|
                0 <= j < observations[i].blocker@.len() ==> !invalid.contains(
                    (#[trigger] observations[i].blocker@[j])@,
                ),
{
    assert forall|i: int| 0 <= i < observations.len() implies some_invalid(
        texts((#[trigger] observations[i]).blocker@),
        invalid,
    ) == exists|j: int|
        0 <= j < observations[i].blocker@.len() && invalid.contains(
            (#[trigger] observations[i].blocker@[j])@,
        ) by {
        lemma_some_invalid(observations[i].blocker@, invalid);
    }
}

/// What runs is known by its activity: the derivation that was last started under it.
pub proof fn lemma_running(running: Seq<(u64, String)>, id: u64, drv: String)
    ensures
        running_map(running.push((id, drv))) == running_map(running).insert(id, drv@),
        running_map(Seq::empty()) == Map::<u64, Seq<char>>::empty(),
{
    assert(running.push((id, drv)).drop_last() =~= running);
}

/// An event is what follows the prefix of a line that is one, and no other line is one.
pub proof fn lemma_event_lines(text: Seq<char>, line: Seq<char>)
    ensures
        crate::search::without_prefix("@nix "@ + text, EVENT_PREFIX@) == Some(text),
        !"@nix "@.is_prefix_of(line) ==> crate::search::without_prefix(line, EVENT_PREFIX@) is None,
{
    let whole = "@nix "@ + text;
    assert(whole.subrange(0, "@nix "@.len() as int) =~= "@nix "@);
    assert(whole.skip("@nix "@.len() as int) =~= text);
}

} // verus!
