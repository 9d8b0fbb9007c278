//! The shard scheduler: one queue of small jobs, worked off by a bounded pool
//! whose size adapts to how the jobs fare.
//!
//! The items of each group are cut into shards. A worker asks for its next step,
//! evaluates the shard that it is handed, and reports what became of it. A shard
//! that was aborted goes back on the queue while the number of workers that may
//! work is halved; it grows back by one for every four shards that succeed. When
//! the last shard of a group lands, the rows of all its shards are handed out.
//!
//! The scheduler holds the decisions only: the threads, and the work itself, are
//! the caller's.

use std::collections::VecDeque;

use vstd::multiset::Multiset;
use vstd::prelude::*;

use crate::text::push_decimal;

verus! {

/// A queued unit of work: the items `start..end` of one group.
#[derive(Debug, Clone, Copy, PartialEq, Eq, Structural)]
pub struct Shard {
    pub group: usize,
    pub start: usize,
    pub end: usize,
}

/// What a worker does next.
#[derive(Debug, Clone, Copy, PartialEq, Eq, Structural)]
pub enum Step {
    /// Everything has finished, or the run has failed.
    Stop,
    /// Nothing to do now, but an aborted shard may come back.
    Wait,
    /// Evaluate this shard.
    Work(Shard),
}

/// One group of shards: how many it has, how many have landed, and the rows of
/// those until the last one lands.
pub struct Group<T> {
    pub total: usize,
    pub done: usize,
    pub rows: Vec<T>,
}

/// A run of shard groups. `T` is a row, `E` the error that fails a run.
pub struct Run<T, E> {
    pub groups: Vec<Group<T>>,
    pub queue: VecDeque<Shard>,
    /// Shards not yet finished, queued or handed out.
    pub outstanding: usize,
    /// The first error that was not an abort.
    pub fatal: Option<E>,
    /// How many workers there are.
    pub slots: usize,
    /// How many of the workers may work at this time.
    pub target: usize,
    /// Shards finished since the last abort.
    pub successes: usize,
    /// All shards of the run, in the order in which they were queued.
    pub plan: Ghost<Seq<Shard>>,
    /// Shards that are handed out and have not landed.
    pub running: Ghost<Multiset<Shard>>,
    /// Shards that have landed and are not finished.
    pub open: Ghost<Multiset<Shard>>,
    /// What has landed, in the order in which it did.
    pub landings: Ghost<Seq<(Shard, Seq<T>)>>,
}

// --- cutting items into shards ----------------------------------------------

/// The shards of a group of `len` items from item `from` on, `size` items each
/// but for the last one.
pub open spec fn slices(group: int, from: int, len: int, size: int) -> Seq<Shard>
    decreases len - from,
{
    if size <= 0 || from >= len {
        Seq::empty()
    } else {
        let end = if from + size < len {
            from + size
        } else {
            len
        };
        seq![Shard { group: group as usize, start: from as usize, end: end as usize }] + slices(
            group,
            end,
            len,
            size,
        )
    }
}

/// The shards of all groups: those of the first group first.
pub open spec fn all_slices(lens: Seq<nat>, size: int) -> Seq<Shard>
    decreases lens.len(),
{
    if lens.len() == 0 {
        Seq::empty()
    } else {
        all_slices(lens.drop_last(), size) + slices(
            lens.len() - 1,
            0,
            lens.last() as int,
            size,
        )
    }
}

/// The number of items in each group.
pub open spec fn lens(items: Seq<Vec<String>>) -> Seq<nat> {
    items.map_values(|v: Vec<String>| v@.len())
}

/// Whether item `i` of group `g` lies in shard `s`.
pub open spec fn covers(s: Shard, g: int, i: int) -> bool {
    s.group == g && s.start <= i < s.end
}

/// Whether item `i` of group `g` lies in one of the shards.
pub open spec fn covered(shards: Seq<Shard>, g: int, i: int) -> bool {
    exists|k: int| 0 <= k < shards.len() && covers(#[trigger] shards[k], g, i)
}

/// The size that is used where `size` is asked for: one item at least.
pub open spec fn at_least_one(size: int) -> int {
    if size < 1 {
        1
    } else {
        size
    }
}

/// The slices of one group hold each item from `from` on exactly once, and hold
/// nothing else.
pub proof fn lemma_slices_cover(group: int, from: int, len: int, size: int)
    requires
        size > 0,
        0 <= from,
        0 <= group <= usize::MAX,
        len <= usize::MAX,
    ensures
        forall|k: int|
            0 <= k < slices(group, from, len, size).len() ==> {
                let s = #[trigger] slices(group, from, len, size)[k];
                s.group == group && from <= s.start < s.end <= len && s.end - s.start <= size
            },
        forall|i: int|
            from <= i < len ==> #[trigger] covered(slices(group, from, len, size), group, i),
        forall|k: int, m: int|
            0 <= k < m < slices(group, from, len, size).len() ==> (#[trigger] slices(
                group,
                from,
                len,
                size,
            )[k]).end <= (#[trigger] slices(group, from, len, size)[m]).start,
    decreases len - from,
{
    let all = slices(group, from, len, size);
    if from < len {
        let end = if from + size < len {
            from + size
        } else {
            len
        };
        let rest = slices(group, end, len, size);
        lemma_slices_cover(group, end, len, size);
        assert(all[0] == Shard { group: group as usize, start: from as usize, end: end as usize });
        assert forall|k: int| 1 <= k < all.len() implies all[k] == rest[k - 1] by {}
        assert forall|i: int| from <= i < len implies #[trigger] covered(all, group, i) by {
            if i < end {
                assert(covers(all[0], group, i));
            } else {
                assert(covered(rest, group, i));
                let k = choose|k: int|
                    0 <= k < rest.len() && covers(#[trigger] rest[k], group, i);
                assert(all[k + 1] == rest[k]);
            }
        }
    }
}

/// A group of `len` items has one shard for each `size` items, rounded up.
pub proof fn lemma_slices_count(group: int, from: int, len: int, size: int)
    requires
        size > 0,
        0 <= from <= len,
    ensures
        slices(group, from, len, size).len() == (len - from + size - 1) / size,
    decreases len - from,
{
    if from < len {
        let end = if from + size < len {
            from + size
        } else {
            len
        };
        lemma_slices_count(group, end, len, size);
        if from + size < len {
            vstd::arithmetic::div_mod::lemma_div_plus_one(len - end + size - 1, size);
        } else {
            vstd::arithmetic::div_mod::lemma_div_plus_one(len - from - 1, size);
            vstd::arithmetic::div_mod::lemma_basic_div(len - from - 1, size);
            vstd::arithmetic::div_mod::lemma_basic_div(size - 1, size);
        }
    } else {
        vstd::arithmetic::div_mod::lemma_basic_div(size - 1, size);
    }
}

/// The shards of a run partition the items of all its groups: every item lies in
/// one shard, no two shards share an item, and no shard is empty or larger than
/// asked for.
pub proof fn lemma_partition(lens: Seq<nat>, size: int)
    requires
        size > 0,
        lens.len() <= usize::MAX,
        forall|g: int| 0 <= g < lens.len() ==> #[trigger] lens[g] <= usize::MAX,
    ensures
        forall|k: int|
            0 <= k < all_slices(lens, size).len() ==> {
                let s = #[trigger] all_slices(lens, size)[k];
                s.group < lens.len() && s.start < s.end <= lens[s.group as int] && s.end - s.start
                    <= size
            },
        forall|g: int, i: int|
            0 <= g < lens.len() && 0 <= i < lens[g] ==> #[trigger] covered(
                all_slices(lens, size),
                g,
                i,
            ),
        forall|k: int, m: int, g: int, i: int|
            0 <= k < all_slices(lens, size).len() && 0 <= m < all_slices(lens, size).len()
                && #[trigger] covers(all_slices(lens, size)[k], g, i) && #[trigger] covers(
                all_slices(lens, size)[m],
                g,
                i,
            ) ==> k == m,
    decreases lens.len(),
{
    if lens.len() > 0 {
        let front = lens.drop_last();
        let last = lens.len() - 1;
        assert forall|g: int| 0 <= g < front.len() implies #[trigger] front[g] <= usize::MAX by {
            assert(front[g] == lens[g]);
        }
        lemma_partition(front, size);
        lemma_slices_cover(last, 0, lens.last() as int, size);
        let a = all_slices(front, size);
        let b = slices(last, 0, lens.last() as int, size);
        let all = all_slices(lens, size);
        assert(all =~= a + b);
        assert forall|k: int| 0 <= k < all.len() implies {
            let s = #[trigger] all[k];
            s.group < lens.len() && s.start < s.end <= lens[s.group as int] && s.end - s.start
                <= size
        } by {
            if k < a.len() {
                assert(all[k] == a[k]);
            } else {
                assert(all[k] == b[k - a.len()]);
            }
        }
        assert forall|g: int, i: int|
            0 <= g < lens.len() && 0 <= i < lens[g] implies #[trigger] covered(all, g, i) by {
            if g < last {
                assert(front[g] == lens[g]);
                assert(covered(a, g, i));
                let k = choose|k: int| 0 <= k < a.len() && covers(#[trigger] a[k], g, i);
                assert(covers(all[k], g, i));
            } else {
                assert(covered(b, g, i));
                let k = choose|k: int| 0 <= k < b.len() && covers(#[trigger] b[k], g, i);
                assert(all[a.len() + k] == b[k]);
                assert(covers(all[a.len() + k], g, i));
            }
        }
        assert forall|k: int, m: int, g: int, i: int|
            0 <= k < all.len() && 0 <= m < all.len() && #[trigger] covers(all[k], g, i)
                && #[trigger] covers(all[m], g, i) implies k == m by {
            if k < a.len() && m < a.len() {
                assert(covers(a[k], g, i) && covers(a[m], g, i));
            } else if k < a.len() {
                assert(all[k] == a[k] && all[m] == b[m - a.len()]);
            } else if m < a.len() {
                assert(all[m] == a[m] && all[k] == b[k - a.len()]);
            } else {
                assert(all[k] == b[k - a.len()] && all[m] == b[m - a.len()]);
                if k < m {
                    assert(b[k - a.len()].end <= b[m - a.len()].start);
                } else if m < k {
                    assert(b[m - a.len()].end <= b[k - a.len()].start);
                }
            }
        }
    }
}

/// Appends the shards of one group to the queue, and says how many they are.
fn cut(queue: &mut VecDeque<Shard>, group: usize, len: usize, size: usize) -> (total: usize)
    requires
        size > 0,
    ensures
        final(queue)@ == old(queue)@ + slices(group as int, 0, len as int, size as int),
        total == slices(group as int, 0, len as int, size as int).len(),
        total <= len,
{
    let ghost before = queue@;
    let mut from: usize = 0;
    let mut total: usize = 0;
    assert(queue@ + slices(group as int, 0, len as int, size as int) =~= before + slices(
        group as int,
        0,
        len as int,
        size as int,
    ));
    while from < len
        invariant
            from <= len,
            total <= from,
            size > 0,
            queue@ + slices(group as int, from as int, len as int, size as int) == before + slices(
                group as int,
                0,
                len as int,
                size as int,
            ),
            total + slices(group as int, from as int, len as int, size as int).len() == slices(
                group as int,
                0,
                len as int,
                size as int,
            ).len(),
        decreases len - from,
    {
        let end: usize = if size < len - from {
            from + size
        } else {
            len
        };
        let shard = Shard { group, start: from, end };
        let ghost q = queue@;
        let ghost rest = slices(group as int, end as int, len as int, size as int);
        queue.push_back(shard);
        assert(queue@ + rest =~= q + (seq![shard] + rest));
        from = end;
        total += 1;
    }
    assert(queue@ =~= queue@ + slices(group as int, from as int, len as int, size as int));
    total
}

// --- what a run keeps -------------------------------------------------------

/// How many shards of group `g` are in `m`.
pub open spec fn of_group(m: Multiset<Shard>, g: int) -> nat {
    m.filter(|s: Shard| s.group == g).len()
}

/// The shards that have landed.
pub open spec fn landed<T>(landings: Seq<(Shard, Seq<T>)>) -> Multiset<Shard> {
    landings.map_values(|l: (Shard, Seq<T>)| l.0).to_multiset()
}

/// The rows of the landed shards of group `g`, in the order in which they landed.
pub open spec fn rows_of<T>(landings: Seq<(Shard, Seq<T>)>, g: int) -> Seq<T>
    decreases landings.len(),
{
    if landings.len() == 0 {
        Seq::empty()
    } else if landings.last().0.group == g {
        rows_of(landings.drop_last(), g) + landings.last().1
    } else {
        rows_of(landings.drop_last(), g)
    }
}

/// Counting the shards of a group adds up over a sum.
proof fn lemma_of_group_add(a: Multiset<Shard>, b: Multiset<Shard>, g: int)
    ensures
        of_group(a.add(b), g) == of_group(a, g) + of_group(b, g),
{
    broadcast use vstd::multiset::group_multiset_axioms;

    let f = |s: Shard| s.group == g;
    assert(a.add(b).filter(f) =~= a.filter(f).add(b.filter(f)));
}

/// Counting the shards of a group where one is added.
proof fn lemma_of_group_insert(a: Multiset<Shard>, s: Shard, g: int)
    ensures
        of_group(a.insert(s), g) == of_group(a, g) + (if s.group == g {
            1nat
        } else {
            0nat
        }),
{
    broadcast use vstd::multiset::group_multiset_axioms;

    let f = |x: Shard| x.group == g;
    if s.group == g {
        assert(a.insert(s).filter(f) =~= a.filter(f).insert(s));
    } else {
        assert(a.insert(s).filter(f) =~= a.filter(f));
    }
}

/// One shard of a group among others counts.
proof fn lemma_of_group_contains(a: Multiset<Shard>, s: Shard)
    requires
        a.contains(s),
    ensures
        of_group(a, s.group as int) >= 1,
{
    broadcast use vstd::multiset::group_multiset_axioms;

    let f = |x: Shard| x.group == s.group;
    assert(a.filter(f).count(s) > 0);
}

/// What landing one more shard adds.
proof fn lemma_landed_push<T>(landings: Seq<(Shard, Seq<T>)>, l: (Shard, Seq<T>))
    ensures
        landed(landings.push(l)) == landed(landings).insert(l.0),
{
    broadcast use vstd::seq_lib::group_to_multiset_ensures;

    let f = |x: (Shard, Seq<T>)| x.0;
    assert(landings.push(l).map_values(f) =~= landings.map_values(f).push(l.0));
}

impl<T, E> Run<T, E> {
    /// What holds of a run at every time.
    pub open spec fn wf(&self) -> bool {
        &&& self.queue@.to_multiset().add(self.running@).add(landed(self.landings@))
            == self.plan@.to_multiset()
        &&& self.open@.subset_of(landed(self.landings@))
        &&& self.outstanding == self.queue@.len() + self.running@.len() + self.open@.len()
        &&& self.outstanding + self.successes <= self.plan@.len() <= usize::MAX
        &&& self.slots <= self.plan@.len()
        &&& (self.plan@.len() > 0 && self.slots > 0 ==> 1 <= self.target)
        &&& self.target <= self.slots
        &&& (self.running@.len() > 0 ==> self.slots > 0)
        &&& forall|s: Shard| #[trigger]
            self.plan@.to_multiset().contains(s) ==> s.group < self.groups@.len()
        &&& forall|g: int|
            0 <= g < self.groups@.len() ==> {
                let group = #[trigger] self.groups@[g];
                &&& group.total == of_group(self.plan@.to_multiset(), g)
                &&& group.done == of_group(landed(self.landings@), g)
                &&& group.rows@ == (if group.done < group.total {
                    rows_of(self.landings@, g)
                } else {
                    Seq::empty()
                })
            }
    }

    /// Plans a run over `items`, cut into shards of `shard_size` items (one at
    /// least), for `slots` workers, or fewer where there are fewer shards.
    pub fn new(items: &[Vec<String>], shard_size: usize, slots: usize) -> (run: Self)
        ensures
            run.wf(),
            run.plan@ == all_slices(lens(items@), at_least_one(shard_size as int)),
            run.queue@ == run.plan@,
            run.groups@.len() == items@.len(),
            run.outstanding == run.plan@.len(),
            run.slots == (if slots < run.plan@.len() {
                slots as int
            } else {
                run.plan@.len() as int
            }),
            run.target == run.slots,
            run.successes == 0,
            run.fatal is None,
            run.landings@.len() == 0,
            run.running@ == Multiset::<Shard>::empty(),
            run.open@ == Multiset::<Shard>::empty(),
    {
        let size: usize = if shard_size < 1 {
            1
        } else {
            shard_size
        };
        let mut queue: VecDeque<Shard> = VecDeque::new();
        let mut groups: Vec<Group<T>> = Vec::new();
        let ghost all = lens(items@);
        let mut g: usize = 0;
        proof {
            broadcast use vstd::multiset::group_multiset_axioms;

            assert(all.take(0) =~= Seq::<nat>::empty());
            Seq::<Shard>::empty().to_multiset_ensures();
            assert(queue@ =~= Seq::<Shard>::empty());
            assert(queue@.to_multiset() =~= Multiset::<Shard>::empty());
        }
        while g < items.len()
            invariant
                g <= items.len(),
                all == lens(items@),
                size > 0,
                groups@.len() == g,
                queue@ == all_slices(all.take(g as int), size as int),
                forall|h: int|
                    0 <= h < g ==> {
                        let group = #[trigger] groups@[h];
                        &&& group.total == of_group(queue@.to_multiset(), h)
                        &&& group.done == 0
                        &&& group.rows@.len() == 0
                    },
                forall|s: Shard| #[trigger] queue@.to_multiset().contains(s) ==> s.group < g,
            decreases items.len() - g,
        {
            let ghost before = queue@;
            let ghost added = slices(g as int, 0, items@[g as int]@.len() as int, size as int);
            let total: usize = cut(&mut queue, g, items[g].len(), size);
            groups.push(Group { total, done: 0, rows: Vec::new() });
            proof {
                broadcast use vstd::seq_lib::group_to_multiset_ensures;
                broadcast use vstd::multiset::group_multiset_axioms;

                assert(all.take(g + 1).drop_last() =~= all.take(g as int));
                assert(all.take(g + 1).last() == items@[g as int]@.len());
                vstd::seq_lib::lemma_multiset_commutative(before, added);
                lemma_slices_cover(
                    g as int,
                    0,
                    items@[g as int]@.len() as int,
                    size as int,
                );
                lemma_one_group(added, g as int);
                lemma_none_of_group(before, g as int);
                assert forall|h: int| 0 <= h < g + 1 implies {
                    let group = #[trigger] groups@[h];
                    &&& group.total == of_group(queue@.to_multiset(), h)
                    &&& group.done == 0
                    &&& group.rows@.len() == 0
                } by {
                    lemma_of_group_add(before.to_multiset(), added.to_multiset(), h);
                    if h < g {
                        lemma_none_of_group(added, h);
                    }
                }
                assert forall|s: Shard| #[trigger] queue@.to_multiset().contains(s) implies s.group
                    < g + 1 by {
                    if !before.to_multiset().contains(s) {
                        assert(added.to_multiset().count(s) > 0);
                        assert(added.contains(s));
                    }
                }
            }
            g += 1;
        }
        assert(all.take(g as int) =~= all);
        let outstanding: usize = queue.len();
        let slots: usize = if slots < outstanding {
            slots
        } else {
            outstanding
        };
        let ghost plan = queue@;
        proof {
            broadcast use vstd::multiset::group_multiset_axioms;

            let none = Seq::<(Shard, Seq<T>)>::empty();
            assert(none.map_values(|l: (Shard, Seq<T>)| l.0) =~= Seq::<Shard>::empty());
            Seq::<Shard>::empty().to_multiset_ensures();
            assert(landed(none) =~= Multiset::<Shard>::empty());
            assert(plan.to_multiset().add(Multiset::<Shard>::empty()).add(landed(none))
                =~= plan.to_multiset());
            assert forall|h: int| 0 <= h < groups@.len() implies of_group(landed(none), h) == 0
                && (#[trigger] groups@[h]).rows@ == Seq::<T>::empty() by {
                lemma_of_group_empty(h);
                assert(groups@[h].rows@ =~= Seq::<T>::empty());
            }
        }
        Run {
            groups,
            queue,
            outstanding,
            fatal: None,
            slots,
            target: slots,
            successes: 0,
            plan: Ghost(plan),
            running: Ghost(Multiset::empty()),
            open: Ghost(Multiset::empty()),
            landings: Ghost(Seq::empty()),
        }
    }

    /// What worker `worker` does next. It stops once every shard has finished or
    /// the run has failed. Otherwise the workers below the target take the shard
    /// at the front of the queue; a worker at or over the target waits, as does
    /// one that finds the queue empty.
    pub fn next(&mut self, worker: usize) -> (step: Step)
        requires
            old(self).wf(),
        ensures
            final(self).wf(),
            step == (if old(self).fatal is Some || old(self).outstanding == 0 {
                Step::Stop
            } else if worker < old(self).target && old(self).queue@.len() > 0 {
                Step::Work(old(self).queue@[0])
            } else {
                Step::Wait
            }),
            match step {
                Step::Work(shard) => final(self).queue@ == old(self).queue@.skip(1)
                    && final(self).running@ == old(self).running@.insert(shard)
                    && final(self).running@.contains(shard) && shard.group
                    < final(self).groups@.len(),
                _ => final(self).queue@ == old(self).queue@ && final(self).running@ == old(
                    self,
                ).running@,
            },
            final(self).groups@ == old(self).groups@,
            final(self).outstanding == old(self).outstanding,
            final(self).fatal == old(self).fatal,
            final(self).slots == old(self).slots,
            final(self).target == old(self).target,
            final(self).successes == old(self).successes,
            final(self).plan == old(self).plan,
            final(self).open == old(self).open,
            final(self).landings == old(self).landings,
    {
        if self.fatal.is_some() || self.outstanding == 0 {
            return Step::Stop;
        }
        if worker >= self.target {
            return Step::Wait;
        }
        let ghost q = self.queue@;
        match self.queue.pop_front() {
            Some(shard) => {
                proof {
                    broadcast use vstd::multiset::group_multiset_axioms;
                    broadcast use vstd::seq_lib::group_to_multiset_ensures;

                    assert(self.queue@ =~= q.skip(1));
                    assert(q =~= seq![shard] + q.skip(1));
                    assert(q =~= q.skip(1).insert(0, shard));
                    assert(q.to_multiset() =~= q.skip(1).to_multiset().insert(shard));
                    self.running@ = self.running@.insert(shard);
                    assert(self.queue@.to_multiset().add(self.running@).add(landed(self.landings@))
                        =~= self.plan@.to_multiset());
                    assert(self.plan@.to_multiset().contains(shard)) by {
                        assert(q.to_multiset().count(shard) > 0);
                    }
                }
                Step::Work(shard)
            },
            None => Step::Wait,
        }
    }

    /// Takes in the rows of a shard that was evaluated. Where it is the last one
    /// of its group, the rows of the whole group come out, in the order in which
    /// its shards landed.
    pub fn land(&mut self, shard: Shard, rows: Vec<T>) -> (complete: Option<Vec<T>>)
        requires
            old(self).wf(),
            old(self).running@.contains(shard),
        ensures
            final(self).wf(),
            final(self).landings@ == old(self).landings@.push((shard, rows@)),
            final(self).running@ == old(self).running@.remove(shard),
            final(self).open@ == old(self).open@.insert(shard),
            complete is Some <==> of_group(
                landed(final(self).landings@),
                shard.group as int,
            ) == of_group(final(self).plan@.to_multiset(), shard.group as int),
            complete matches Some(out) ==> out@ == rows_of(
                final(self).landings@,
                shard.group as int,
            ),
            final(self).groups@.len() == old(self).groups@.len(),
            final(self).queue@ == old(self).queue@,
            final(self).outstanding == old(self).outstanding,
            final(self).fatal == old(self).fatal,
            final(self).slots == old(self).slots,
            final(self).target == old(self).target,
            final(self).successes == old(self).successes,
            final(self).plan == old(self).plan,
    {
        let ghost before = *self;
        let g: usize = shard.group;
        proof {
            broadcast use vstd::multiset::group_multiset_axioms;

            assert(self.plan@.to_multiset().count(shard) > 0);
            assert(self.plan@.to_multiset().contains(shard));
            let q = self.queue@.to_multiset();
            lemma_of_group_add(q.add(self.running@), landed(self.landings@), g as int);
            lemma_of_group_add(q, self.running@, g as int);
            lemma_of_group_contains(self.running@, shard);
            lemma_landed_push(self.landings@, (shard, rows@));
            assert forall|h: int| 0 <= h < self.groups@.len() implies of_group(
                landed(self.landings@.push((shard, rows@))),
                h,
            ) == of_group(landed(self.landings@), h) + (if h == g {
                1nat
            } else {
                0nat
            }) by {
                lemma_of_group_insert(landed(self.landings@), shard, h);
            }
            assert(self.landings@.push((shard, rows@)).drop_last() =~= self.landings@);
        }
        let mut group = Group { total: 0, done: 0, rows: Vec::new() };
        std::mem::swap(&mut self.groups[g], &mut group);
        let mut rows = rows;
        let ghost new_rows = rows@;
        group.rows.append(&mut rows);
        group.done = group.done + 1;
        let complete = if group.done == group.total {
            let mut out: Vec<T> = Vec::new();
            std::mem::swap(&mut group.rows, &mut out);
            Some(out)
        } else {
            None
        };
        self.groups[g] = group;
        proof {
            broadcast use vstd::multiset::group_multiset_axioms;

            self.running@ = self.running@.remove(shard);
            self.open@ = self.open@.insert(shard);
            self.landings@ = self.landings@.push((shard, new_rows));
            assert(self.queue@.to_multiset().add(self.running@).add(landed(self.landings@))
                =~= self.plan@.to_multiset());
            assert(self.landings@.drop_last() =~= before.landings@);
            assert forall|h: int| 0 <= h < self.groups@.len() implies {
                let group = #[trigger] self.groups@[h];
                &&& group.total == of_group(self.plan@.to_multiset(), h)
                &&& group.done == of_group(landed(self.landings@), h)
                &&& group.rows@ == (if group.done < group.total {
                    rows_of(self.landings@, h)
                } else {
                    Seq::empty()
                })
            } by {
                if h != g {
                    assert(self.groups@[h] == before.groups@[h]);
                }
            }
        }
        complete
    }

    /// Takes note that a shard that has landed is finished. The target grows by
    /// one, up to the number of workers, at every fourth success in a row.
    pub fn finish(&mut self, shard: Shard)
        requires
            old(self).wf(),
            old(self).open@.contains(shard),
        ensures
            final(self).wf(),
            final(self).open@ == old(self).open@.remove(shard),
            final(self).outstanding == old(self).outstanding - 1,
            final(self).successes == old(self).successes + 1,
            final(self).target == (if (old(self).successes + 1) % 4 == 0 && old(self).target < old(
                self,
            ).slots {
                old(self).target + 1
            } else {
                old(self).target as int
            }),
            final(self).groups@ == old(self).groups@,
            final(self).queue@ == old(self).queue@,
            final(self).fatal == old(self).fatal,
            final(self).slots == old(self).slots,
            final(self).plan == old(self).plan,
            final(self).running == old(self).running,
            final(self).landings == old(self).landings,
    {
        proof {
            broadcast use vstd::multiset::group_multiset_axioms;

            assert(self.open@.len() >= 1) by {
                assert(self.open@.count(shard) <= self.open@.len());
            }
            self.open@ = self.open@.remove(shard);
        }
        self.outstanding = self.outstanding - 1;
        self.successes = self.successes + 1;
        if self.successes % 4 == 0 && self.target < self.slots {
            self.target = self.target + 1;
        }
    }

    /// Puts an aborted shard back at the end of the queue and halves the target,
    /// down to one. Returns what to tell the user, who knows the group as `label`.
    pub fn abort(&mut self, shard: Shard, label: &str) -> (note: String)
        requires
            old(self).wf(),
            old(self).running@.contains(shard),
        ensures
            final(self).wf(),
            final(self).queue@ == old(self).queue@.push(shard),
            final(self).running@ == old(self).running@.remove(shard),
            final(self).target == halved(old(self).target as int),
            final(self).successes == 0,
            note@ == abort_note(label@, old(self).target as nat, final(self).target as nat),
            final(self).groups@ == old(self).groups@,
            final(self).outstanding == old(self).outstanding,
            final(self).fatal == old(self).fatal,
            final(self).slots == old(self).slots,
            final(self).plan == old(self).plan,
            final(self).open == old(self).open,
            final(self).landings == old(self).landings,
    {
        proof {
            broadcast use vstd::multiset::group_multiset_axioms;
            broadcast use vstd::seq_lib::group_to_multiset_ensures;

            assert(self.running@.len() >= 1) by {
                assert(self.running@.count(shard) <= self.running@.len());
            }
            let q = self.queue@;
            assert(q.push(shard).to_multiset() =~= q.to_multiset().insert(shard));
            self.running@ = self.running@.remove(shard);
            assert(q.push(shard).to_multiset().add(self.running@).add(landed(self.landings@))
                =~= self.plan@.to_multiset());
        }
        let before: usize = self.target;
        let half: usize = if before / 2 > 1 {
            before / 2
        } else {
            1
        };
        self.target = half;
        self.successes = 0;
        self.queue.push_back(shard);
        let mut note = String::new();
        note.append("  a shard of ");
        note.append(label);
        note.append(" aborted — likely out of memory; requeued, slots ");
        push_decimal(&mut note, before as u64);
        note.append(" -> ");
        push_decimal(&mut note, half as u64);
        note
    }

    /// Fails the run; where it has failed already, the first error stays.
    pub fn fail(&mut self, error: E)
        requires
            old(self).wf(),
        ensures
            final(self).wf(),
            final(self).fatal == (match old(self).fatal {
                Some(first) => Some(first),
                None => Some(error),
            }),
            final(self).groups@ == old(self).groups@,
            final(self).queue@ == old(self).queue@,
            final(self).outstanding == old(self).outstanding,
            final(self).slots == old(self).slots,
            final(self).target == old(self).target,
            final(self).successes == old(self).successes,
            final(self).plan == old(self).plan,
            final(self).running == old(self).running,
            final(self).open == old(self).open,
            final(self).landings == old(self).landings,
    {
        if self.fatal.is_none() {
            self.fatal = Some(error);
        }
    }

    /// What the run came to: the error that failed it, if one did.
    pub fn outcome(self) -> (result: Result<(), E>)
        ensures
            result == (match self.fatal {
                Some(error) => Err::<(), E>(error),
                None => Ok(()),
            }),
    {
        match self.fatal {
            Some(error) => Err(error),
            None => Ok(()),
        }
    }
}

/// The target after an abort.
pub open spec fn halved(target: int) -> int {
    if target / 2 > 1 {
        target / 2
    } else {
        1
    }
}

/// The note on an aborted shard of the group `label`.
pub open spec fn abort_note(label: Seq<char>, before: nat, after: nat) -> Seq<char> {
    "  a shard of "@ + label + " aborted — likely out of memory; requeued, slots "@
        + crate::text::decimal(before) + " -> "@ + crate::text::decimal(after)
}

/// No shard is of any group where there is none.
proof fn lemma_of_group_empty(g: int)
    ensures
        of_group(Multiset::<Shard>::empty(), g) == 0,
{
    broadcast use vstd::multiset::group_multiset_axioms;

    let f = |s: Shard| s.group == g;
    assert(Multiset::<Shard>::empty().filter(f) =~= Multiset::<Shard>::empty());
}

/// Shards that are all of one group count for it.
proof fn lemma_one_group(s: Seq<Shard>, g: int)
    requires
        forall|k: int| 0 <= k < s.len() ==> (#[trigger] s[k]).group == g,
    ensures
        of_group(s.to_multiset(), g) == s.len(),
{
    broadcast use vstd::multiset::group_multiset_axioms;
    broadcast use vstd::seq_lib::group_to_multiset_ensures;

    let f = |x: Shard| x.group == g;
    let m = s.to_multiset();
    assert forall|x: Shard| m.filter(f).count(x) == m.count(x) by {
        if m.count(x) > 0 {
            assert(s.contains(x));
        }
    }
    assert(m.filter(f) =~= m);
}

/// Shards none of which is of a group do not count for it.
proof fn lemma_none_of_group(s: Seq<Shard>, g: int)
    requires
        forall|x: Shard| #[trigger] s.to_multiset().contains(x) ==> x.group != g,
    ensures
        of_group(s.to_multiset(), g) == 0,
{
    broadcast use vstd::multiset::group_multiset_axioms;

    let f = |x: Shard| x.group == g;
    let m = s.to_multiset();
    assert forall|x: Shard| m.filter(f).count(x) == 0 by {
        if m.count(x) > 0 {
            assert(m.contains(x));
        }
    }
    assert(m.filter(f) =~= Multiset::<Shard>::empty());
}

// --- laws -------------------------------------------------------------------

/// No shard is lost or done twice: whatever has happened, a shard is queued, handed
/// out or landed as often as the run has it, in all three together.
pub proof fn lemma_no_shard_lost<T, E>(run: Run<T, E>, shard: Shard)
    requires
        run.wf(),
    ensures
        run.plan@.to_multiset().count(shard) == run.queue@.to_multiset().count(shard)
            + run.running@.count(shard) + landed(run.landings@).count(shard),
{
    broadcast use vstd::multiset::group_multiset_axioms;

}

/// A run in which nothing is outstanding has landed every shard, and has handed
/// out the rows of every group.
pub proof fn lemma_finished<T, E>(run: Run<T, E>)
    requires
        run.wf(),
        run.outstanding == 0,
    ensures
        landed(run.landings@) == run.plan@.to_multiset(),
        forall|g: int|
            0 <= g < run.groups@.len() ==> (#[trigger] run.groups@[g]).done
                == run.groups@[g].total,
{
    broadcast use vstd::multiset::group_multiset_axioms;
    broadcast use vstd::seq_lib::group_to_multiset_ensures;

    assert(run.queue@ =~= Seq::<Shard>::empty());
    vstd::multiset::lemma_multiset_empty_len(run.running@);
    assert(run.queue@.to_multiset() =~= Multiset::<Shard>::empty());
    assert(landed(run.landings@) =~= run.plan@.to_multiset());
}

/// A run that has shards and has not failed, and of which no shard is handed out
/// or open, has one at the front of its queue, which the first worker gets: the
/// target never falls to zero.
pub proof fn lemma_progress<T, E>(run: Run<T, E>)
    requires
        run.wf(),
        run.slots > 0,
        run.outstanding > 0,
        run.running@.len() == 0,
        run.open@.len() == 0,
    ensures
        run.queue@.len() > 0,
        0 < run.target,
{
    broadcast use vstd::multiset::group_multiset_axioms;

}

/// Repeated aborts bring the target down to one and leave it there.
pub proof fn lemma_halved(target: int)
    requires
        target >= 1,
    ensures
        1 <= halved(target) <= target,
        target > 1 ==> halved(target) < target,
        halved(1) == 1,
{
}

/// An abort halves the workers that may work, but leaves one.
pub proof fn lemma_halved_evenly(target: int)
    requires
        target >= 2,
    ensures
        target - 1 <= 2 * halved(target) <= target,
{
}

/// The rows of a group are those that landed for it, one landing after the other.
pub proof fn lemma_rows_of<T>(a: Seq<(Shard, Seq<T>)>, b: Seq<(Shard, Seq<T>)>, g: int, one: (Shard, Seq<T>))
    ensures
        rows_of(a + b, g) == rows_of(a, g) + rows_of(b, g),
        rows_of(seq![one], g) == (if one.0.group == g {
            one.1
        } else {
            Seq::empty()
        }),
    decreases b.len(),
{
    assert(seq![one].drop_last() =~= Seq::empty());
    assert(rows_of(seq![one].drop_last(), g) =~= Seq::empty());
    assert(rows_of(seq![one], g) =~= (if one.0.group == g {
        one.1
    } else {
        Seq::empty()
    }));
    if b.len() == 0 {
        assert(a + b =~= a);
        assert(rows_of(a, g) + rows_of(b, g) =~= rows_of(a, g));
    } else {
        lemma_rows_of(a, b.drop_last(), g, one);
        assert((a + b).drop_last() =~= a + b.drop_last());
        assert((a + b).last() == b.last());
        assert(rows_of(a + b, g) =~= rows_of(a, g) + rows_of(b, g));
    }
}

/// The note of an abort names what was evaluated, and how many workers there were before
/// and are from now on.
pub proof fn lemma_abort_note(label: Seq<char>, before: nat, after: nat)
    ensures
        ("  a shard of "@ + label + " aborted"@).is_prefix_of(abort_note(label, before, after)),
        (", slots "@ + crate::text::decimal(before) + " -> "@ + crate::text::decimal(
            after,
        )).is_suffix_of(abort_note(label, before, after)),
{
    let note = abort_note(label, before, after);
    let start = "  a shard of "@ + label + " aborted"@;
    let end = ", slots "@ + crate::text::decimal(before) + " -> "@ + crate::text::decimal(after);
    reveal_strlit(" aborted");
    reveal_strlit(", slots ");
    reveal_strlit(" aborted — likely out of memory; requeued, slots ");
    assert(note.subrange(0, start.len() as int) =~= start);
    assert(note.subrange(note.len() - end.len(), note.len() as int) =~= end);
}

/// The shards of a group are counted one by one, and those of other groups not at all.
pub proof fn lemma_group_counts(m: Multiset<Shard>, s: Shard, g: int)
    ensures
        of_group(m.insert(s), g) == of_group(m, g) + (if s.group == g {
            1int
        } else {
            0
        }),
        of_group(Multiset::empty(), g) == 0,
{
    lemma_of_group_insert(m, s, g);
    lemma_of_group_empty(g);
}

} // verus!
