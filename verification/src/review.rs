//! A review: from what changed on each system to what is tested, instantiated,
//! built and reported.

use vstd::hash_set::StringHashSet;
use vstd::prelude::*;
use vstd::slice::slice_subrange;

use crate::driver::Target;
use crate::eval::Request;
use crate::evalfile::{changed_views, ChangedAttr, ChangedView};
use crate::model::{BuildPolicy, Observation, Rev, RevView};
use crate::order::{by_text, in_order, sort_texts};
use crate::report::{distinct, lemma_distinct, side_state, state_of, Entry, EntryView};
use crate::text::{clone_opt, contains_text, opt_text, texts};

verus! {

// --- targets ----------------------------------------------------------------

/// What a [`Target`] says.
#[verifier::ext_equal]
pub struct TargetView {
    pub system: Seq<char>,
    pub drv_path: Seq<char>,
    pub skipped: bool,
}

impl View for Target {
    type V = TargetView;

    open spec fn view(&self) -> TargetView {
        TargetView { system: self.system@, drv_path: self.drv_path@, skipped: self.skipped }
    }
}

/// What targets say.
pub open spec fn target_views(targets: Seq<Target>) -> Seq<TargetView> {
    targets.map_values(|t: Target| t@)
}

/// Adds a side to some targets, unless it has no derivation or its derivation is
/// among them.
pub open spec fn with_side(
    targets: Seq<TargetView>,
    system: Seq<char>,
    drv: Option<Seq<char>>,
    threw: bool,
) -> Seq<TargetView> {
    match drv {
        Some(d) => if drv_listed(targets, d) {
            targets
        } else {
            targets.push(TargetView { system, drv_path: d, skipped: threw })
        },
        None => targets,
    }
}

/// Whether a derivation is among some targets.
pub open spec fn drv_listed(targets: Seq<TargetView>, drv: Seq<char>) -> bool {
    exists|i: int| 0 <= i < targets.len() && (#[trigger] targets[i]).drv_path == drv
}

/// Adds the sides of the first `n` changes of a system to some targets.
pub open spec fn with_changes(
    targets: Seq<TargetView>,
    system: Seq<char>,
    changed: Seq<ChangedView>,
    n: int,
) -> Seq<TargetView>
    decreases n,
{
    if n <= 0 {
        targets
    } else {
        let c = changed[n - 1];
        with_side(
            with_side(
                with_changes(targets, system, changed, n - 1),
                system,
                c.base_drv,
                c.base_threw,
            ),
            system,
            c.head_drv,
            c.head_threw,
        )
    }
}

/// What changed, system by system.
pub type PerSystem = (String, Vec<ChangedAttr>);

/// The diff of a system among those that were found, the first of them; nothing
/// changed on a system of which there is none.
pub open spec fn diff_of(found: Seq<PerSystem>, system: Seq<char>) -> Seq<ChangedView>
    decreases found.len(),
{
    if found.len() == 0 {
        Seq::empty()
    } else if found[0].0@ == system {
        changed_views(found[0].1@)
    } else {
        diff_of(found.skip(1), system)
    }
}

/// What changed on the system at place `i`: its diff, then the changed tests where
/// tests are on. A system that is asked for twice has its diff where it comes first.
pub open spec fn changes_at(
    systems: Seq<Seq<char>>,
    found: Seq<PerSystem>,
    tests: Option<Seq<Vec<ChangedAttr>>>,
    i: int,
) -> Seq<ChangedView> {
    (if systems.take(i).contains(systems[i]) {
        Seq::empty()
    } else {
        diff_of(found, systems[i])
    }) + (match tests {
        Some(ts) => changed_views(ts[i]@),
        None => Seq::empty(),
    })
}

/// The changed tests of each system, where tests are on.
pub open spec fn tests_found(tests: Option<&[Vec<ChangedAttr>]>) -> Option<Seq<Vec<ChangedAttr>>> {
    match tests {
        Some(ts) => Some(ts@),
        None => None,
    }
}

/// Appends copies of some changes.
fn append_changes(out: &mut Vec<ChangedAttr>, changes: &[ChangedAttr])
    ensures
        changed_views(final(out)@) == changed_views(old(out)@) + changed_views(changes@),
{
    let ghost start = changed_views(out@);
    let ghost all = changed_views(changes@);
    let mut i: usize = 0;
    assert(start + all.take(0) =~= start);
    while i < changes.len()
        invariant
            i <= changes@.len(),
            all == changed_views(changes@),
            changed_views(out@) == start + all.take(i as int),
        decreases changes@.len() - i,
    {
        let ghost before = changed_views(out@);
        let c: &ChangedAttr = &changes[i];
        let copy = ChangedAttr {
            attr: c.attr.clone(),
            base_drv: clone_opt(&c.base_drv),
            head_drv: clone_opt(&c.head_drv),
            base_threw: c.base_threw,
            head_threw: c.head_threw,
        };
        let ghost v = copy@;
        assert(v == all[i as int]);
        out.push(copy);
        assert(changed_views(out@) =~= before.push(v));
        i += 1;
        assert(changed_views(out@) =~= start + all.take(i as int));
    }
    assert(all.take(i as int) =~= all);
}

/// Appends the diff of a system among those that were found.
fn append_diff(out: &mut Vec<ChangedAttr>, found: &[PerSystem], system: &str)
    ensures
        changed_views(final(out)@) == changed_views(old(out)@) + diff_of(found@, system@),
{
    let mut i: usize = 0;
    assert(found@.skip(0) =~= found@);
    while i < found.len()
        invariant
            i <= found@.len(),
            out@ == old(out)@,
            diff_of(found@, system@) == diff_of(found@.skip(i as int), system@),
        decreases found@.len() - i,
    {
        assert(found@.skip(i as int)[0] == found@[i as int]);
        if *found[i].0.as_str() == *system {
            append_changes(out, &found[i].1);
            return;
        }
        assert(found@.skip(i as int).skip(1) =~= found@.skip(i + 1));
        i += 1;
    }
    assert(changed_views(out@) =~= changed_views(old(out)@) + diff_of(found@, system@));
}

/// What changed, system by system in the order asked for, from the diffs in the order
/// in which they came in: each diff, followed by the changed tests of its system where
/// tests are on.
pub fn assemble_changes(
    systems: &[String],
    found: &[PerSystem],
    tests: Option<&[Vec<ChangedAttr>]>,
) -> (out: Vec<PerSystem>)
    requires
        tests matches Some(ts) ==> ts@.len() == systems@.len(),
    ensures
        out@.len() == systems@.len(),
        forall|i: int|
            0 <= i < out@.len() ==> (#[trigger] out@[i]).0@ == systems@[i]@ && changed_views(
                out@[i].1@,
            ) == changes_at(texts(systems@), found@, tests_found(tests), i),
{
    let ghost names = texts(systems@);
    let mut out: Vec<PerSystem> = Vec::new();
    let mut i: usize = 0;
    while i < systems.len()
        invariant
            i <= systems@.len(),
            names == texts(systems@),
            tests matches Some(ts) ==> ts@.len() == systems@.len(),
            out@.len() == i,
            forall|k: int|
                0 <= k < out@.len() ==> (#[trigger] out@[k]).0@ == systems@[k]@ && changed_views(
                    out@[k].1@,
                ) == changes_at(names, found@, tests_found(tests), k),
        decreases systems@.len() - i,
    {
        let mut changes: Vec<ChangedAttr> = Vec::new();
        assert(changed_views(changes@) =~= Seq::<ChangedView>::empty());
        let before = slice_subrange(systems, 0, i);
        assert(texts(before@) =~= names.take(i as int));
        if !contains_text(before, systems[i].as_str()) {
            append_diff(&mut changes, found, systems[i].as_str());
        }
        if let Some(ts) = tests {
            append_changes(&mut changes, &ts[i]);
        }
        assert(changed_views(changes@) =~= changes_at(names, found@, tests_found(tests), i as int));
        out.push((systems[i].clone(), changes));
        i += 1;
    }
    out
}

/// The targets of the first `n` systems.
pub open spec fn targets_of(per_system: Seq<PerSystem>, n: int) -> Seq<TargetView>
    decreases n,
{
    if n <= 0 {
        Seq::empty()
    } else {
        with_changes(
            targets_of(per_system, n - 1),
            per_system[n - 1].0@,
            changed_views(per_system[n - 1].1@),
            per_system[n - 1].1@.len() as int,
        )
    }
}

/// The derivations of some targets.
pub open spec fn drv_set(targets: Seq<TargetView>) -> Set<Seq<char>> {
    Set::new(|d: Seq<char>| drv_listed(targets, d))
}

/// Adds one side.
fn add_side(
    targets: &mut Vec<Target>,
    seen: &mut StringHashSet,
    system: &String,
    drv: &Option<String>,
    threw: bool,
)
    requires
        old(seen)@ == drv_set(target_views(old(targets)@)),
    ensures
        target_views(final(targets)@) == with_side(
            target_views(old(targets)@),
            system@,
            opt_text(*drv),
            threw,
        ),
        final(seen)@ == drv_set(target_views(final(targets)@)),
{
    if let Some(d) = drv {
        let ghost before = target_views(targets@);
        if !seen.contains(d.as_str()) {
            seen.insert(d.clone());
            let target = Target { system: system.clone(), drv_path: d.clone(), skipped: threw };
            let ghost v = target@;
            targets.push(target);
            proof {
                let after = target_views(targets@);
                assert(after =~= before.push(v));
                assert forall|x: Seq<char>| drv_listed(after, x) == (drv_listed(before, x) || x
                    == d@) by {
                    if drv_listed(before, x) {
                        let i = choose|i: int|
                            0 <= i < before.len() && (#[trigger] before[i]).drv_path == x;
                        assert(after[i].drv_path == x);
                    }
                    if x == d@ {
                        assert(after[before.len() as int].drv_path == x);
                    }
                    if drv_listed(after, x) {
                        let i = choose|i: int|
                            0 <= i < after.len() && (#[trigger] after[i]).drv_path == x;
                        if i < before.len() {
                            assert(before[i].drv_path == x);
                        }
                    }
                }
                assert(seen@ =~= drv_set(after));
            }
        }
    }
}

/// Flattens what changed into build targets: the derivation of every side, each
/// once. A derivation is of one system only, so the systems are kept apart.
pub fn assemble_targets(per_system_changed: &[PerSystem]) -> (out: Vec<Target>)
    ensures
        target_views(out@) == targets_of(per_system_changed@, per_system_changed@.len() as int),
        forall|k: int|
            0 <= k < out@.len() ==> {
                let t = #[trigger] targets_of(
                    per_system_changed@,
                    per_system_changed@.len() as int,
                )[k];
                &&& t.system == out@[k].system@
                &&& t.drv_path == out@[k].drv_path@
                &&& t.skipped == out@[k].skipped
            },
{
    let mut targets: Vec<Target> = Vec::new();
    let mut seen = StringHashSet::new();
    let mut i: usize = 0;
    assert(target_views(targets@) =~= Seq::<TargetView>::empty());
    assert(seen@ =~= drv_set(target_views(targets@)));
    while i < per_system_changed.len()
        invariant
            i <= per_system_changed@.len(),
            target_views(targets@) == targets_of(per_system_changed@, i as int),
            seen@ == drv_set(target_views(targets@)),
        decreases per_system_changed@.len() - i,
    {
        let system: &String = &per_system_changed[i].0;
        let changed: &Vec<ChangedAttr> = &per_system_changed[i].1;
        let ghost start = target_views(targets@);
        let ghost cs = changed_views(changed@);
        let mut j: usize = 0;
        while j < changed.len()
            invariant
                j <= changed@.len(),
                cs == changed_views(changed@),
                target_views(targets@) == with_changes(start, system@, cs, j as int),
                seen@ == drv_set(target_views(targets@)),
            decreases changed@.len() - j,
        {
            let c: &ChangedAttr = &changed[j];
            assert(cs[j as int] == c@);
            add_side(&mut targets, &mut seen, system, &c.base_drv, c.base_threw);
            add_side(&mut targets, &mut seen, system, &c.head_drv, c.head_threw);
            j += 1;
        }
        i += 1;
    }
    targets
}

/// Adding a side keeps derivations apart, and adds its derivation.
proof fn lemma_with_side(
    targets: Seq<TargetView>,
    system: Seq<char>,
    drv: Option<Seq<char>>,
    threw: bool,
)
    requires
        one_each(targets),
    ensures
        one_each(with_side(targets, system, drv, threw)),
        forall|d: Seq<char>| #[trigger]
            drv_listed(with_side(targets, system, drv, threw), d) <==> drv_listed(targets, d)
                || drv == Some(d),
{
    let now = with_side(targets, system, drv, threw);
    assert forall|d: Seq<char>| #[trigger] drv_listed(now, d) <==> drv_listed(targets, d) || drv
        == Some(d) by {
        if drv_listed(targets, d) {
            let i = choose|i: int|
                0 <= i < targets.len() && (#[trigger] targets[i]).drv_path == d;
            assert(now[i].drv_path == d);
        }
        if drv == Some(d) && !drv_listed(targets, d) {
            assert(now[targets.len() as int].drv_path == d);
        }
        if drv_listed(now, d) {
            let i = choose|i: int| 0 <= i < now.len() && (#[trigger] now[i]).drv_path == d;
            if i < targets.len() {
                assert(targets[i].drv_path == d);
            }
        }
    }
    assert forall|i: int, j: int| 0 <= i < j < now.len() implies (#[trigger] now[i]).drv_path != (
    #[trigger] now[j]).drv_path by {
        if j == targets.len() {
            assert(targets[i].drv_path == now[i].drv_path);
        }
    }
}

/// Whether no two targets have one derivation.
pub open spec fn one_each(targets: Seq<TargetView>) -> bool {
    forall|i: int, j: int|
        0 <= i < j < targets.len() ==> (#[trigger] targets[i]).drv_path != (
        #[trigger] targets[j]).drv_path
}

/// Whether a derivation is that of a side of one of the first `n` changes.
pub open spec fn on_a_side(changed: Seq<ChangedView>, drv: Seq<char>, n: int) -> bool {
    exists|k: int|
        0 <= k < n && ((#[trigger] changed[k]).base_drv == Some(drv) || changed[k].head_drv == Some(
            drv,
        ))
}

/// Adding changes keeps derivations apart, and adds those of all sides.
proof fn lemma_with_changes(
    targets: Seq<TargetView>,
    system: Seq<char>,
    changed: Seq<ChangedView>,
    n: int,
)
    requires
        one_each(targets),
        0 <= n <= changed.len(),
    ensures
        one_each(with_changes(targets, system, changed, n)),
        forall|d: Seq<char>| #[trigger]
            drv_listed(with_changes(targets, system, changed, n), d) <==> drv_listed(targets, d)
                || on_a_side(changed, d, n),
    decreases n,
{
    if n > 0 {
        lemma_with_changes(targets, system, changed, n - 1);
        let c = changed[n - 1];
        let a = with_changes(targets, system, changed, n - 1);
        let b = with_side(a, system, c.base_drv, c.base_threw);
        lemma_with_side(a, system, c.base_drv, c.base_threw);
        lemma_with_side(b, system, c.head_drv, c.head_threw);
        let now = with_changes(targets, system, changed, n);
        assert forall|d: Seq<char>| #[trigger] drv_listed(now, d) <==> drv_listed(targets, d)
            || on_a_side(changed, d, n) by {
            if on_a_side(changed, d, n - 1) {
                let k = choose|k: int|
                    0 <= k < n - 1 && ((#[trigger] changed[k]).base_drv == Some(d)
                        || changed[k].head_drv == Some(d));
                assert(changed[k].base_drv == Some(d) || changed[k].head_drv == Some(d));
            }
            if on_a_side(changed, d, n) && !on_a_side(changed, d, n - 1) {
                let k = choose|k: int|
                    0 <= k < n && ((#[trigger] changed[k]).base_drv == Some(d)
                        || changed[k].head_drv == Some(d));
                assert(k == n - 1);
            }
            assert(drv_listed(now, d) <==> drv_listed(b, d) || c.head_drv == Some(d));
            assert(drv_listed(b, d) <==> drv_listed(a, d) || c.base_drv == Some(d));
            if c.base_drv == Some(d) || c.head_drv == Some(d) {
                assert(changed[n - 1].base_drv == Some(d) || changed[n - 1].head_drv == Some(d));
            }
        }
    } else {
        assert forall|d: Seq<char>| !on_a_side(changed, d, n) by {}
    }
}

/// No derivation is a target twice, every derivation of a side is a target, and
/// every target is a derivation of a side.
pub proof fn lemma_targets(per_system: Seq<PerSystem>, n: int)
    requires
        0 <= n <= per_system.len(),
    ensures
        one_each(targets_of(per_system, n)),
        forall|i: int, d: Seq<char>|
            0 <= i < n && #[trigger] on_a_side(
                changed_views(per_system[i].1@),
                d,
                per_system[i].1@.len() as int,
            ) ==> drv_listed(targets_of(per_system, n), d),
        forall|d: Seq<char>| #[trigger]
            drv_listed(targets_of(per_system, n), d) ==> exists|i: int|
                0 <= i < n && #[trigger] on_a_side(
                    changed_views(per_system[i].1@),
                    d,
                    per_system[i].1@.len() as int,
                ),
    decreases n,
{
    if n > 0 {
        lemma_targets(per_system, n - 1);
        let changed = changed_views(per_system[n - 1].1@);
        lemma_with_changes(
            targets_of(per_system, n - 1),
            per_system[n - 1].0@,
            changed,
            changed.len() as int,
        );
        assert forall|i: int, d: Seq<char>|
            0 <= i < n && #[trigger] on_a_side(
                changed_views(per_system[i].1@),
                d,
                per_system[i].1@.len() as int,
            ) implies drv_listed(targets_of(per_system, n), d) by {
            if i < n - 1 {
                assert(drv_listed(targets_of(per_system, n - 1), d));
            }
        }
        assert forall|d: Seq<char>| #[trigger] drv_listed(
            targets_of(per_system, n),
            d,
        ) implies exists|i: int|
            0 <= i < n && #[trigger] on_a_side(
                changed_views(per_system[i].1@),
                d,
                per_system[i].1@.len() as int,
            ) by {
            if drv_listed(targets_of(per_system, n - 1), d) {
                let i = choose|i: int|
                    0 <= i < n - 1 && #[trigger] on_a_side(
                        changed_views(per_system[i].1@),
                        d,
                        per_system[i].1@.len() as int,
                    );
                assert(on_a_side(
                    changed_views(per_system[i].1@),
                    d,
                    per_system[i].1@.len() as int,
                ));
            } else {
                assert(on_a_side(
                    changed_views(per_system[n - 1].1@),
                    d,
                    per_system[n - 1].1@.len() as int,
                ));
            }
        }
    }
}

/// Whether a derivation is that of a side of a change: the base's where `head` is not
/// set, the head's where it is; and whether `mark` is the mark of that side.
pub open spec fn side_is(c: ChangedAttr, head: bool, drv: Seq<char>, mark: bool) -> bool {
    if head {
        opt_text(c.head_drv) == Some(drv) && c.head_threw == mark
    } else {
        opt_text(c.base_drv) == Some(drv) && c.base_threw == mark
    }
}

/// Whether a side of a change has a derivation.
pub open spec fn side_has(c: ChangedAttr, head: bool, drv: Seq<char>) -> bool {
    side_is(c, head, drv, true) || side_is(c, head, drv, false)
}

/// Whether one side comes before another: that of an earlier system; on one system,
/// that of an earlier change; of one change, the base's before the head's.
pub open spec fn side_before(a: (int, int, bool), b: (int, int, bool)) -> bool {
    a.0 < b.0 || (a.0 == b.0 && (a.1 < b.1 || (a.1 == b.1 && !a.2 && b.2)))
}

/// Whether a target is the first side that has its derivation: it has the system that
/// the side's change is on, and the side's mark.
pub open spec fn from_first_side(
    per_system: Seq<PerSystem>,
    t: TargetView,
    at: (int, int, bool),
) -> bool {
    &&& 0 <= at.0 < per_system.len()
    &&& 0 <= at.1 < per_system[at.0].1@.len()
    &&& t.system == per_system[at.0].0@
    &&& side_is(per_system[at.0].1@[at.1], at.2, t.drv_path, t.skipped)
    &&& forall|s: int, c: int, head: bool|
        0 <= s < per_system.len() && 0 <= c < per_system[s].1@.len() && side_before(
            (s, c, head),
            at,
        ) ==> !#[trigger] side_has(per_system[s].1@[c], head, t.drv_path)
}

/// Every target carries the mark of a side whose derivation it is: on some system there
/// is a change with the target's derivation on a side, the target is of that system, and
/// it is marked as that side is. Where several sides have the derivation, the first one
/// decides.
pub proof fn lemma_target_is_a_side(per_system: Seq<PerSystem>, k: int)
    requires
        0 <= k < targets_of(per_system, per_system.len() as int).len(),
    ensures
        exists|at: (int, int, bool)| #[trigger]
            from_first_side(
                per_system,
                targets_of(per_system, per_system.len() as int)[k],
                at,
            ),
{
    let n = per_system.len() as int;
    lemma_targets_from_sides(per_system, n);
    let t = targets_of(per_system, n)[k];
    assert(from_side_before(per_system, t, (n, 0, false)));
    let at = choose|at: (int, int, bool)| #[trigger]
        from_first_side(per_system, t, at) && side_before(at, (n, 0, false));
    assert(from_first_side(per_system, t, at));
}

/// The targets of the first systems are the first sides that have their derivations.
proof fn lemma_targets_from_sides(per_system: Seq<PerSystem>, n: int)
    requires
        0 <= n <= per_system.len(),
    ensures
        each_from_a_side(per_system, targets_of(per_system, n), (n, 0, false)),
        all_listed(per_system, targets_of(per_system, n), (n, 0, false)),
    decreases n,
{
    if n > 0 {
        lemma_targets_from_sides(per_system, n - 1);
        lemma_changes_from_sides(per_system, n - 1, per_system[n - 1].1@.len() as int);
        let now = targets_of(per_system, n);
        let len = per_system[n - 1].1@.len() as int;
        assert(each_from_a_side(per_system, now, (n - 1, len, false)));
        assert forall|k: int| 0 <= k < now.len() implies from_side_before(
            per_system,
            #[trigger] now[k],
            (n, 0, false),
        ) by {
            assert(from_side_before(per_system, now[k], (n - 1, len, false)));
            let at = choose|at: (int, int, bool)| #[trigger]
                from_first_side(per_system, now[k], at) && side_before(at, (n - 1, len, false));
            assert(from_first_side(per_system, now[k], at) && side_before(at, (n, 0, false)));
        }
        assert forall|s: int, c: int, head: bool, d: Seq<char>|
            0 <= s < per_system.len() && 0 <= c < per_system[s].1@.len() && side_before(
                (s, c, head),
                (n, 0, false),
            ) && #[trigger] side_has(per_system[s].1@[c], head, d) implies drv_listed(now, d) by {
            assert(side_before((s, c, head), (n - 1, len, false)));
        }
    }
}

/// Whether every target is the first side with its derivation, before `end`.
spec fn each_from_a_side(
    per_system: Seq<PerSystem>,
    targets: Seq<TargetView>,
    end: (int, int, bool),
) -> bool {
    forall|k: int| 0 <= k < targets.len() ==> from_side_before(per_system, #[trigger] targets[k], end)
}

/// Whether a target is the first side with its derivation, before `end`.
spec fn from_side_before(per_system: Seq<PerSystem>, t: TargetView, end: (int, int, bool)) -> bool {
    exists|at: (int, int, bool)| #[trigger]
        from_first_side(per_system, t, at) && side_before(at, end)
}

/// Whether the derivation of every side before `end` is a target.
spec fn all_listed(
    per_system: Seq<PerSystem>,
    targets: Seq<TargetView>,
    end: (int, int, bool),
) -> bool {
    forall|s: int, c: int, head: bool, d: Seq<char>|
        0 <= s < per_system.len() && 0 <= c < per_system[s].1@.len() && side_before(
            (s, c, head),
            end,
        ) && #[trigger] side_has(per_system[s].1@[c], head, d) ==> drv_listed(targets, d)
}

/// The same, through the first changes of one more system.
proof fn lemma_changes_from_sides(per_system: Seq<PerSystem>, s: int, m: int)
    requires
        0 <= s < per_system.len(),
        0 <= m <= per_system[s].1@.len(),
        each_from_a_side(per_system, targets_of(per_system, s), (s, 0, false)),
        all_listed(per_system, targets_of(per_system, s), (s, 0, false)),
    ensures
        ({
            let now = with_changes(
                targets_of(per_system, s),
                per_system[s].0@,
                changed_views(per_system[s].1@),
                m,
            );
            &&& each_from_a_side(per_system, now, (s, m, false))
            &&& all_listed(per_system, now, (s, m, false))
        }),
    decreases m,
{
    if m > 0 {
        lemma_changes_from_sides(per_system, s, m - 1);
        let changed = changed_views(per_system[s].1@);
        let c = per_system[s].1@[m - 1];
        assert(changed[m - 1] == c@);
        let before = with_changes(targets_of(per_system, s), per_system[s].0@, changed, m - 1);
        let base = with_side(before, per_system[s].0@, c@.base_drv, c@.base_threw);
        lemma_side_added(per_system, before, (s, m - 1, false), (s, m - 1, true));
        lemma_side_added(per_system, base, (s, m - 1, true), (s, m, false));
    }
}

/// The same, through one more side: that at `at`, which `next` follows.
proof fn lemma_side_added(
    per_system: Seq<PerSystem>,
    targets: Seq<TargetView>,
    at: (int, int, bool),
    next: (int, int, bool),
)
    requires
        0 <= at.0 < per_system.len(),
        0 <= at.1 < per_system[at.0].1@.len(),
        next == (if at.2 {
            (at.0, at.1 + 1, false)
        } else {
            (at.0, at.1, true)
        }),
        each_from_a_side(per_system, targets, at),
        all_listed(per_system, targets, at),
    ensures
        ({
            let c = per_system[at.0].1@[at.1];
            let now = if at.2 {
                with_side(targets, per_system[at.0].0@, opt_text(c.head_drv), c.head_threw)
            } else {
                with_side(targets, per_system[at.0].0@, opt_text(c.base_drv), c.base_threw)
            };
            &&& each_from_a_side(per_system, now, next)
            &&& all_listed(per_system, now, next)
        }),
{
    let c = per_system[at.0].1@[at.1];
    let (drv, threw) = if at.2 {
        (opt_text(c.head_drv), c.head_threw)
    } else {
        (opt_text(c.base_drv), c.base_threw)
    };
    let now = with_side(targets, per_system[at.0].0@, drv, threw);
    assert forall|k: int| 0 <= k < now.len() implies from_side_before(
        per_system,
        #[trigger] now[k],
        next,
    ) by {
        if k < targets.len() {
            assert(now[k] == targets[k]);
            assert(from_side_before(per_system, targets[k], at));
            let x = choose|x: (int, int, bool)| #[trigger]
                from_first_side(per_system, targets[k], x) && side_before(x, at);
            assert(from_first_side(per_system, now[k], x) && side_before(x, next));
        } else {
            let d = drv->0;
            assert(now[k].drv_path == d);
            assert(side_is(c, at.2, d, threw));
            assert forall|s: int, i: int, head: bool|
                0 <= s < per_system.len() && 0 <= i < per_system[s].1@.len() && side_before(
                    (s, i, head),
                    at,
                ) implies !#[trigger] side_has(per_system[s].1@[i], head, d) by {
                if side_has(per_system[s].1@[i], head, d) {
                    assert(drv_listed(targets, d));
                }
            }
            assert(from_first_side(per_system, now[k], at) && side_before(at, next));
        }
    }
    assert forall|s: int, i: int, head: bool, d: Seq<char>|
        0 <= s < per_system.len() && 0 <= i < per_system[s].1@.len() && side_before(
            (s, i, head),
            next,
        ) && #[trigger] side_has(per_system[s].1@[i], head, d) implies drv_listed(now, d) by {
        if side_before((s, i, head), at) {
            assert(drv_listed(targets, d));
            let k = choose|k: int| 0 <= k < targets.len() && (#[trigger] targets[k]).drv_path == d;
            assert(now[k].drv_path == d);
        } else {
            assert((s, i, head) == at);
            assert(drv == Some(d));
            if drv_listed(targets, d) {
                let k = choose|k: int|
                    0 <= k < targets.len() && (#[trigger] targets[k]).drv_path == d;
                assert(now[k].drv_path == d);
            } else {
                assert(now[targets.len() as int].drv_path == d);
            }
        }
    }
}

// --- tests ------------------------------------------------------------------

/// The attributes of the first `n` changes that have a derivation on a side.
pub open spec fn attrs_on(changed: Seq<ChangedView>, head: bool, n: int) -> Seq<Seq<char>>
    decreases n,
{
    if n <= 0 {
        Seq::empty()
    } else {
        let c = changed[n - 1];
        let drv = if head {
            c.head_drv
        } else {
            c.base_drv
        };
        if drv is Some {
            attrs_on(changed, head, n - 1).push(c.attr)
        } else {
            attrs_on(changed, head, n - 1)
        }
    }
}

/// The names of the changed packages of a side: sorted, each once.
pub open spec fn names_on(changed: Seq<ChangedView>, head: bool) -> Seq<Seq<char>> {
    in_order(distinct(attrs_on(changed, head, changed.len() as int)), by_text())
}

/// The names of the changed packages of one side.
fn side_names(changed: &[ChangedAttr], head: bool) -> (out: Vec<String>)
    ensures
        texts(out@) == names_on(changed_views(changed@), head),
{
    let ghost cs = changed_views(changed@);
    let mut names: Vec<String> = Vec::new();
    let mut seen = StringHashSet::new();
    let mut i: usize = 0;
    assert(texts(names@) =~= Seq::<Seq<char>>::empty());
    assert(seen@ =~= texts(names@).to_set());
    while i < changed.len()
        invariant
            i <= changed@.len(),
            cs == changed_views(changed@),
            texts(names@) == distinct(attrs_on(cs, head, i as int)),
            seen@ == texts(names@).to_set(),
        decreases changed@.len() - i,
    {
        let c: &ChangedAttr = &changed[i];
        let ghost before = texts(names@);
        assert(cs[i as int] == c@);
        let has = if head {
            c.head_drv.is_some()
        } else {
            c.base_drv.is_some()
        };
        if has {
            let ghost attrs = attrs_on(cs, head, i as int);
            assert(attrs.push(c@.attr).drop_last() =~= attrs);
            if !seen.contains(c.attr.as_str()) {
                names.push(c.attr.clone());
                seen.insert(c.attr.clone());
                proof {
                    assert(texts(names@) =~= before.push(c@.attr));
                    crate::driver::lemma_push_to_set(before, c@.attr);
                }
            }
        }
        i += 1;
    }
    sort_texts(names)
}

/// The names of the changed packages, on each side: only those that have a
/// derivation there. Sorted, each once.
pub fn changed_names(changed: &[ChangedAttr]) -> (out: (Vec<String>, Vec<String>))
    ensures
        texts(out.0@) == names_on(changed_views(changed@), false),
        texts(out.1@) == names_on(changed_views(changed@), true),
{
    (side_names(changed, false), side_names(changed, true))
}

/// Names are sorted, none comes twice, and they are those of the attributes with a
/// derivation.
pub proof fn lemma_names(changed: Seq<ChangedView>, head: bool)
    ensures
        forall|i: int, j: int|
            0 <= i < j < names_on(changed, head).len() ==> crate::order::text_le(
                #[trigger] names_on(changed, head)[i],
                #[trigger] names_on(changed, head)[j],
            ),
        names_on(changed, head).no_duplicates(),
        forall|name: Seq<char>| #[trigger]
            names_on(changed, head).contains(name) <==> attrs_on(
                changed,
                head,
                changed.len() as int,
            ).contains(name),
{
    let all = attrs_on(changed, head, changed.len() as int);
    let once = distinct(all);
    let names = names_on(changed, head);
    lemma_distinct(all);
    crate::order::lemma_by_text();
    crate::order::lemma_in_order_sorted(once, by_text());
    crate::order::lemma_in_order_keeps(once, by_text());
    once.lemma_multiset_has_no_duplicates();
    names.lemma_multiset_has_no_duplicates_conv();
    assert forall|i: int, j: int| 0 <= i < j < names.len() implies crate::order::text_le(
        #[trigger] names[i],
        #[trigger] names[j],
    ) by {
        assert(by_text()(names[i], names[j]));
    }
    assert forall|name: Seq<char>| #[trigger] names.contains(name) <==> all.contains(name) by {
        crate::order::lemma_in_order_contains(once, by_text(), name);
    }
}

/// The names that are not cached.
pub open spec fn missing(names: Seq<Seq<char>>, cached: Seq<Seq<char>>) -> Seq<Seq<char>> {
    names.filter(|n: Seq<char>| !cached.contains(n))
}

/// The names that are not cached.
fn misses(names: &[String], cached: &[String]) -> (out: Vec<String>)
    ensures
        texts(out@) == missing(texts(names@), texts(cached@)),
{
    let ghost all = texts(names@);
    let ghost pred = |n: Seq<char>| !texts(cached@).contains(n);
    let mut out: Vec<String> = Vec::new();
    let mut i: usize = 0;
    proof {
        reveal(Seq::filter);
        assert(all.take(0) =~= Seq::<Seq<char>>::empty());
        assert(texts(out@) =~= Seq::<Seq<char>>::empty());
    }
    while i < names.len()
        invariant
            i <= names@.len(),
            all == texts(names@),
            pred == (|n: Seq<char>| !texts(cached@).contains(n)),
            texts(out@) == all.take(i as int).filter(pred),
        decreases names@.len() - i,
    {
        proof {
            reveal(Seq::filter);
            assert(all.take(i + 1).drop_last() =~= all.take(i as int));
            assert(all.take(i + 1).last() == names@[i as int]@);
        }
        let ghost before = texts(out@);
        if !contains_text(cached, names[i].as_str()) {
            out.push(names[i].clone());
            assert(texts(out@) =~= before.push(names@[i as int]@));
        }
        i += 1;
    }
    assert(all.take(i as int) =~= all);
    out
}

/// What was listed once is not listed again: with the missing names cached, nothing
/// is missing.
pub proof fn lemma_listed_once(names: Seq<Seq<char>>, cached: Seq<Seq<char>>)
    ensures
        missing(names, cached + missing(names, cached)).len() == 0,
{
    let first = |n: Seq<char>| !cached.contains(n);
    let got = names.filter(first);
    let all = cached + got;
    let second = |n: Seq<char>| !all.contains(n);
    let left = names.filter(second);
    if left.len() > 0 {
        names.lemma_filter_pred(second, 0);
        names.lemma_filter_contains_rev(second, left[0]);
        let n = left[0];
        if cached.contains(n) {
            let i = choose|i: int| 0 <= i < cached.len() && cached[i] == n;
            assert(all[i] == n);
        } else {
            let i = choose|i: int| 0 <= i < names.len() && names[i] == n;
            names.lemma_filter_contains(first, i);
            let k = choose|k: int| 0 <= k < got.len() && got[k] == n;
            assert(all[cached.len() + k] == n);
        }
    }
}

/// What a request asks for.
#[verifier::ext_equal]
pub struct RequestView {
    pub rev: RevView,
    pub system: Seq<char>,
    pub items: Seq<Seq<char>>,
}

/// What a request asks for.
pub open spec fn request_view(r: Request) -> RequestView {
    RequestView { rev: r.0@, system: r.1@, items: texts(r.2@) }
}

/// What requests ask for.
pub open spec fn request_views(rs: Seq<Request>) -> Seq<RequestView> {
    rs.map_values(|r: Request| request_view(r))
}

/// Adds a side whose tests are to be listed, unless there are none.
pub open spec fn with_tests(
    rs: Seq<RequestView>,
    rev: RevView,
    system: Seq<char>,
    names: Seq<Seq<char>>,
) -> Seq<RequestView> {
    if names.len() > 0 {
        rs.push(RequestView { rev, system, items: names })
    } else {
        rs
    }
}

/// The sides of a system whose tests are to be listed, and for which packages. The
/// head is not asked where its tree is the base's: they are one key.
pub open spec fn pending(
    base: RevView,
    head: RevView,
    system: Seq<char>,
    base_missing: Seq<Seq<char>>,
    head_missing: Seq<Seq<char>>,
) -> Seq<RequestView> {
    let first = with_tests(Seq::empty(), base, system, base_missing);
    if head.tree == base.tree {
        first
    } else {
        with_tests(first, head, system, head_missing)
    }
}

/// Adds a side whose tests are to be listed.
fn add_tests(rs: &mut Vec<Request>, rev: &Rev, system: &str, names: Vec<String>)
    ensures
        request_views(final(rs)@) == with_tests(
            request_views(old(rs)@),
            rev@,
            system@,
            texts(names@),
        ),
{
    let ghost before = request_views(rs@);
    assert(texts(names@).len() == names@.len());
    if names.len() > 0 {
        let request: Request = (rev.clone(), system.to_owned(), names);
        let ghost v = request_view(request);
        rs.push(request);
        assert(request_views(rs@) =~= before.push(v));
    }
}

/// The test listings that a system still needs: for each side, the changed packages
/// of which the tests are not cached.
pub fn reveal_system_tests(
    base: &Rev,
    head: &Rev,
    system: &str,
    changed: &[ChangedAttr],
    base_cached: &[String],
    head_cached: &[String],
) -> (out: Vec<Request>)
    ensures
        request_views(out@) == pending(
            base@,
            head@,
            system@,
            missing(names_on(changed_views(changed@), false), texts(base_cached@)),
            missing(names_on(changed_views(changed@), true), texts(head_cached@)),
        ),
{
    let (base_names, head_names) = changed_names(changed);
    let mut out: Vec<Request> = Vec::new();
    assert(request_views(out@) =~= Seq::<RequestView>::empty());
    add_tests(&mut out, base, system, misses(&base_names, base_cached));
    if !(head.tree == base.tree) {
        add_tests(&mut out, head, system, misses(&head_names, head_cached));
    }
    out
}

// --- instantiation ----------------------------------------------------------

/// The attributes of the first `n` changes whose derivation on a side is needed.
pub open spec fn needed_on(
    changed: Seq<ChangedView>,
    need: Set<Seq<char>>,
    head: bool,
    n: int,
) -> Seq<Seq<char>>
    decreases n,
{
    if n <= 0 {
        Seq::empty()
    } else {
        let c = changed[n - 1];
        let drv = if head {
            c.head_drv
        } else {
            c.base_drv
        };
        if drv is Some && need.contains(drv->0) {
            needed_on(changed, need, head, n - 1).push(c.attr)
        } else {
            needed_on(changed, need, head, n - 1)
        }
    }
}

/// The requests to instantiate what is needed, on the first `n` systems: base, then
/// head.
pub open spec fn needed_requests(
    base: RevView,
    head: RevView,
    per_system: Seq<PerSystem>,
    need: Set<Seq<char>>,
    n: int,
) -> Seq<RequestView>
    decreases n,
{
    if n <= 0 {
        Seq::empty()
    } else {
        let system = per_system[n - 1].0@;
        let changed = changed_views(per_system[n - 1].1@);
        needed_requests(base, head, per_system, need, n - 1).push(
            RequestView {
                rev: base,
                system,
                items: needed_on(changed, need, false, changed.len() as int),
            },
        ).push(
            RequestView {
                rev: head,
                system,
                items: needed_on(changed, need, true, changed.len() as int),
            },
        )
    }
}

/// The attributes whose derivation on a side is needed.
fn needed_attrs(changed: &[ChangedAttr], need: &StringHashSet, head: bool) -> (out: Vec<String>)
    ensures
        texts(out@) == needed_on(changed_views(changed@), need@, head, changed@.len() as int),
{
    let ghost cs = changed_views(changed@);
    let mut out: Vec<String> = Vec::new();
    let mut i: usize = 0;
    assert(texts(out@) =~= Seq::<Seq<char>>::empty());
    while i < changed.len()
        invariant
            i <= changed@.len(),
            cs == changed_views(changed@),
            texts(out@) == needed_on(cs, need@, head, i as int),
        decreases changed@.len() - i,
    {
        let c: &ChangedAttr = &changed[i];
        let ghost before = texts(out@);
        assert(cs[i as int] == c@);
        let drv = if head {
            &c.head_drv
        } else {
            &c.base_drv
        };
        let wanted = match drv {
            Some(d) => need.contains(d.as_str()),
            None => false,
        };
        if wanted {
            out.push(c.attr.clone());
            assert(texts(out@) =~= before.push(c@.attr));
        }
        i += 1;
    }
    out
}

/// The requests that write to the store the derivations that the build will touch:
/// for each system, the attributes of the base and of the head whose derivation is
/// among `need`.
pub fn instantiate_requests(
    base: &Rev,
    head: &Rev,
    per_system: &[PerSystem],
    need: &[String],
) -> (out: Vec<Request>)
    ensures
        request_views(out@) == needed_requests(
            base@,
            head@,
            per_system@,
            texts(need@).to_set(),
            per_system@.len() as int,
        ),
{
    let mut set = StringHashSet::new();
    let mut k: usize = 0;
    assert(texts(need@).take(0) =~= Seq::<Seq<char>>::empty());
    assert(set@ =~= texts(need@).take(0).to_set());
    while k < need.len()
        invariant
            k <= need@.len(),
            set@ == texts(need@).take(k as int).to_set(),
        decreases need@.len() - k,
    {
        set.insert(need[k].clone());
        proof {
            let before = texts(need@).take(k as int);
            crate::driver::lemma_push_to_set(before, need@[k as int]@);
            assert(texts(need@).take(k + 1) =~= before.push(need@[k as int]@));
        }
        k += 1;
    }
    assert(texts(need@).take(k as int) =~= texts(need@));
    let mut out: Vec<Request> = Vec::new();
    let mut i: usize = 0;
    assert(request_views(out@) =~= Seq::<RequestView>::empty());
    while i < per_system.len()
        invariant
            i <= per_system@.len(),
            set@ == texts(need@).to_set(),
            request_views(out@) == needed_requests(
                base@,
                head@,
                per_system@,
                texts(need@).to_set(),
                i as int,
            ),
        decreases per_system@.len() - i,
    {
        let ghost before = request_views(out@);
        let changed: &Vec<ChangedAttr> = &per_system[i].1;
        let ghost cs = changed_views(changed@);
        assert(cs.len() == changed@.len());
        let b: Request = (
            base.clone(),
            per_system[i].0.clone(),
            needed_attrs(changed, &set, false),
        );
        let h: Request = (
            head.clone(),
            per_system[i].0.clone(),
            needed_attrs(changed, &set, true),
        );
        let ghost (bv, hv) = (request_view(b), request_view(h));
        out.push(b);
        out.push(h);
        assert(request_views(out@) =~= before.push(bv).push(hv));
        i += 1;
    }
    out
}

// --- entries ----------------------------------------------------------------

/// What the report says of a changed attribute.
pub open spec fn entry_for(
    c: ChangedAttr,
    base_obs: Seq<Observation>,
    head_obs: Seq<Observation>,
    policy: BuildPolicy,
) -> EntryView {
    EntryView {
        attr: c.attr@,
        base_drv: opt_text(c.base_drv),
        head_drv: opt_text(c.head_drv),
        base: state_of(c.base_drv, c.base_threw && !policy.no_skip, base_obs),
        head: state_of(c.head_drv, c.head_threw && !policy.no_skip, head_obs),
    }
}

/// The report's entry of a changed attribute, from what was observed of each side's
/// derivation. A mark counts unless the policy overrides it.
pub fn entry_of(
    c: &ChangedAttr,
    base_obs: &[Observation],
    head_obs: &[Observation],
    policy: BuildPolicy,
) -> (entry: Entry)
    ensures
        entry@.attr == c@.attr,
        entry@.base_drv == c@.base_drv,
        entry@.head_drv == c@.head_drv,
        entry.base == state_of(c.base_drv, c.base_threw && !policy.no_skip, base_obs@),
        entry.head == state_of(c.head_drv, c.head_threw && !policy.no_skip, head_obs@),
        entry@ == entry_for(*c, base_obs@, head_obs@, policy),
{
    Entry {
        attr: c.attr.clone(),
        base_drv: clone_opt(&c.base_drv),
        head_drv: clone_opt(&c.head_drv),
        base: side_state(&c.base_drv, c.base_threw && !policy.no_skip, base_obs),
        head: side_state(&c.head_drv, c.head_threw && !policy.no_skip, head_obs),
    }
}

/// Whether a system is to be diffed now: both of its evaluations exist, it was not
/// diffed before, and nothing has failed.
pub fn ready(failed: bool, processed: &[String], system: &str, base: bool, head: bool) -> (yes:
    bool)
    ensures
        yes == (!failed && !texts(processed@).contains(system@) && base && head),
{
    !failed && !contains_text(processed, system) && base && head
}

// --- laws -------------------------------------------------------------------

/// Whether a system's diff is the one found at a place: the first one of that system, or
/// nothing where none was found.
pub open spec fn found_at(found: Seq<PerSystem>, system: Seq<char>, at: Option<int>) -> bool {
    match at {
        Some(k) => 0 <= k < found.len() && found[k].0@ == system && forall|j: int|
            0 <= j < k ==> (#[trigger] found[j]).0@ != system,
        None => forall|j: int| 0 <= j < found.len() ==> (#[trigger] found[j]).0@ != system,
    }
}

/// What changed on a system is its own diff, where the system is asked for first, followed
/// by its own tests, where tests are on.
pub proof fn lemma_changes_of_system(
    systems: Seq<Seq<char>>,
    found: Seq<PerSystem>,
    tests: Option<Seq<Vec<ChangedAttr>>>,
    i: int,
    at: Option<int>,
)
    requires
        0 <= i < systems.len(),
        found_at(found, systems[i], at),
    ensures
        ({
            let again = exists|j: int| 0 <= j < i && #[trigger] systems[j] == systems[i];
            let diff = if again || at is None {
                Seq::empty()
            } else {
                changed_views(found[at->0].1@)
            };
            let more = match tests {
                Some(ts) => changed_views(ts[i]@),
                None => Seq::empty(),
            };
            changes_at(systems, found, tests, i) == diff + more
        }),
{
    lemma_diff_of(found, systems[i], at);
    let before = systems.take(i);
    if before.contains(systems[i]) {
        let j = choose|j: int| 0 <= j < before.len() && before[j] == systems[i];
        assert(systems[j] == systems[i]);
    }
    if exists|j: int| 0 <= j < i && #[trigger] systems[j] == systems[i] {
        let j = choose|j: int| 0 <= j < i && #[trigger] systems[j] == systems[i];
        assert(before[j] == systems[i]);
    }
}

/// The diff of a system is the first one found of it.
proof fn lemma_diff_of(found: Seq<PerSystem>, system: Seq<char>, at: Option<int>)
    requires
        found_at(found, system, at),
    ensures
        diff_of(found, system) == (match at {
            Some(k) => changed_views(found[k].1@),
            None => Seq::empty(),
        }),
    decreases found.len(),
{
    if found.len() > 0 {
        let rest = found.skip(1);
        match at {
            Some(k) => {
                if k > 0 {
                    assert(found[0].0@ != system);
                    assert(rest[k - 1] == found[k]);
                    assert forall|j: int| 0 <= j < k - 1 implies (#[trigger] rest[j]).0@ != system by {
                        assert(found[j + 1].0@ != system);
                    }
                    lemma_diff_of(rest, system, Some(k - 1));
                }
            },
            None => {
                assert(found[0].0@ != system);
                assert forall|j: int| 0 <= j < rest.len() implies (#[trigger] rest[j]).0@
                    != system by {
                    assert(found[j + 1].0@ != system);
                }
                lemma_diff_of(rest, system, None);
            },
        }
    }
}

/// A name is one of a side if and only if it is that of a change with a derivation on
/// that side.
pub proof fn lemma_names_of_side(changed: Seq<ChangedView>, head: bool, name: Seq<char>)
    ensures
        names_on(changed, head).contains(name) <==> exists|k: int|
            0 <= k < changed.len() && (#[trigger] changed[k]).attr == name && (if head {
                changed[k].head_drv is Some
            } else {
                changed[k].base_drv is Some
            }),
{
    lemma_names(changed, head);
    lemma_attrs_on(changed, head, changed.len() as int, name);
}

/// The same, among the first changes.
proof fn lemma_attrs_on(changed: Seq<ChangedView>, head: bool, n: int, name: Seq<char>)
    requires
        0 <= n <= changed.len(),
    ensures
        attrs_on(changed, head, n).contains(name) <==> exists|k: int|
            0 <= k < n && (#[trigger] changed[k]).attr == name && (if head {
                changed[k].head_drv is Some
            } else {
                changed[k].base_drv is Some
            }),
    decreases n,
{
    if n > 0 {
        lemma_attrs_on(changed, head, n - 1, name);
        let before = attrs_on(changed, head, n - 1);
        let now = attrs_on(changed, head, n);
        if before.contains(name) {
            let k = choose|k: int| 0 <= k < before.len() && before[k] == name;
            assert(now[k] == name);
        }
        if now != before {
            assert(now[before.len() as int] == changed[n - 1].attr);
        }
        if now.contains(name) {
            let k = choose|k: int| 0 <= k < now.len() && now[k] == name;
            if k < before.len() {
                assert(before[k] == name);
            } else {
                assert(changed[n - 1].attr == name);
            }
        }
    }
}

/// A name is missing if and only if it is one of the names and not cached.
pub proof fn lemma_missing(names: Seq<Seq<char>>, cached: Seq<Seq<char>>, name: Seq<char>)
    ensures
        missing(names, cached).contains(name) <==> names.contains(name) && !cached.contains(name),
{
    let pred = |n: Seq<char>| !cached.contains(n);
    let rest = names.filter(pred);
    if rest.contains(name) {
        let k = choose|k: int| 0 <= k < rest.len() && rest[k] == name;
        names.lemma_filter_pred(pred, k);
        names.lemma_filter_contains_rev(pred, name);
    }
    if names.contains(name) && !cached.contains(name) {
        let k = choose|k: int| 0 <= k < names.len() && names[k] == name;
        names.lemma_filter_contains(pred, k);
    }
}

/// The tests that are asked for are those that are missing on each side, at the side's own
/// revision, the base's first; nothing is asked for where nothing is missing, nor for a
/// head with the tree of the base.
pub proof fn lemma_pending(
    base: RevView,
    head: RevView,
    system: Seq<char>,
    base_missing: Seq<Seq<char>>,
    head_missing: Seq<Seq<char>>,
)
    ensures
        ({
            let out = pending(base, head, system, base_missing, head_missing);
            let on_base = base_missing.len() > 0;
            let on_head = head_missing.len() > 0 && head.tree != base.tree;
            &&& out.len() == (if on_base {
                1int
            } else {
                0
            }) + (if on_head {
                1int
            } else {
                0
            })
            &&& on_base ==> out[0].rev == base && out[0].system == system && out[0].items
                == base_missing
            &&& on_head ==> out.last().rev == head && out.last().system == system
                && out.last().items == head_missing
        }),
{
}

/// Each system has two requests: what of the base is needed, at the base, and what of the
/// head is needed, at the head. An attribute is asked for on a side if and only if its
/// derivation on that side is needed.
pub proof fn lemma_needed(
    base: RevView,
    head: RevView,
    per_system: Seq<PerSystem>,
    need: Set<Seq<char>>,
    n: int,
    s: int,
    attr: Seq<char>,
)
    requires
        0 <= s < n <= per_system.len(),
    ensures
        ({
            let out = needed_requests(base, head, per_system, need, n);
            let changed = per_system[s].1@;
            &&& out.len() == 2 * n
            &&& out[2 * s].rev == base && out[2 * s].system == per_system[s].0@
            &&& out[2 * s + 1].rev == head && out[2 * s + 1].system == per_system[s].0@
            &&& out[2 * s].items.contains(attr) <==> exists|k: int|
                0 <= k < changed.len() && (#[trigger] changed[k]).attr@ == attr
                    && changed[k].base_drv is Some && need.contains(changed[k].base_drv->0@)
            &&& out[2 * s + 1].items.contains(attr) <==> exists|k: int|
                0 <= k < changed.len() && (#[trigger] changed[k]).attr@ == attr
                    && changed[k].head_drv is Some && need.contains(changed[k].head_drv->0@)
        }),
    decreases n,
{
    lemma_needed_len(base, head, per_system, need, n - 1);
    if s < n - 1 {
        lemma_needed(base, head, per_system, need, n - 1, s, attr);
    } else {
        let changed = per_system[s].1@;
        lemma_needed_on(changed, need, false, changed.len() as int, attr);
        lemma_needed_on(changed, need, true, changed.len() as int, attr);
    }
}

/// There are two requests for each system.
proof fn lemma_needed_len(
    base: RevView,
    head: RevView,
    per_system: Seq<PerSystem>,
    need: Set<Seq<char>>,
    n: int,
)
    requires
        0 <= n <= per_system.len(),
    ensures
        needed_requests(base, head, per_system, need, n).len() == 2 * n,
    decreases n,
{
    if n > 0 {
        lemma_needed_len(base, head, per_system, need, n - 1);
    }
}

/// What is needed on a side, among the first changes.
proof fn lemma_needed_on(
    changed: Seq<ChangedAttr>,
    need: Set<Seq<char>>,
    head: bool,
    n: int,
    attr: Seq<char>,
)
    requires
        0 <= n <= changed.len(),
    ensures
        needed_on(changed_views(changed), need, head, n).contains(attr) <==> exists|k: int|
            0 <= k < n && (#[trigger] changed[k]).attr@ == attr && (if head {
                changed[k].head_drv is Some && need.contains(changed[k].head_drv->0@)
            } else {
                changed[k].base_drv is Some && need.contains(changed[k].base_drv->0@)
            }),
    decreases n,
{
    if n > 0 {
        let views = changed_views(changed);
        lemma_needed_on(changed, need, head, n - 1, attr);
        let before = needed_on(views, need, head, n - 1);
        let now = needed_on(views, need, head, n);
        assert(views[n - 1] == changed[n - 1]@);
        if before.contains(attr) {
            let k = choose|k: int| 0 <= k < before.len() && before[k] == attr;
            assert(now[k] == attr);
        }
        if now != before {
            assert(now[before.len() as int] == changed[n - 1].attr@);
        }
        if now.contains(attr) {
            let k = choose|k: int| 0 <= k < now.len() && now[k] == attr;
            if k < before.len() {
                assert(before[k] == attr);
            } else {
                assert(changed[n - 1].attr@ == attr);
            }
        }
    }
}

/// A target and a request are seen as their fields say.
pub proof fn lemma_target_seen_as(t: Target, r: Request)
    ensures
        t@.system == t.system@,
        t@.drv_path == t.drv_path@,
        t@.skipped == t.skipped,
        request_view(r).rev == r.0@,
        request_view(r).system == r.1@,
        request_view(r).items.len() == r.2@.len(),
        forall|i: int| 0 <= i < r.2@.len() ==> #[trigger] request_view(r).items[i] == r.2@[i]@,
{
}

/// An entry keeps its attribute and its derivations, and shows each side by that side
/// alone: absent where it has no derivation, not tried where it is marked and the policy
/// does not override that, and otherwise by what was observed of it. With the sides
/// exchanged, the states are exchanged.
pub proof fn lemma_entry_sides(
    c: ChangedAttr,
    turned: ChangedAttr,
    base_obs: Seq<Observation>,
    head_obs: Seq<Observation>,
    policy: BuildPolicy,
)
    requires
        turned.base_drv == c.head_drv,
        turned.head_drv == c.base_drv,
        turned.base_threw == c.head_threw,
        turned.head_threw == c.base_threw,
    ensures
        ({
            let e = entry_for(c, base_obs, head_obs, policy);
            let t = entry_for(turned, head_obs, base_obs, policy);
            &&& e.attr == c.attr@
            &&& e.base_drv == opt_text(c.base_drv) && e.head_drv == opt_text(c.head_drv)
            &&& e.base is Absent <==> c.base_drv is None
            &&& e.base is Skipped <==> c.base_drv is Some && c.base_threw && !policy.no_skip
            &&& e.base is Built <==> c.base_drv is Some && (!c.base_threw || policy.no_skip)
                && exists|i: int|
                0 <= i < base_obs.len() && (#[trigger] base_obs[i]).outcome is Built
            &&& t.base == e.head && t.head == e.base
        }),
{
}

} // verus!
