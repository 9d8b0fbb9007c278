//! Evaluating revisions: the phases in the progress tree, and the batches of work
//! that the shard scheduler runs.

use vstd::prelude::*;
use vstd::slice::slice_subrange;

use crate::expr::{
    build_tests_expr, select_expr, select_text, shard_expr, shard_text, tests_text,
};
use crate::live::{waiting, waiting_percent, NodeView, Tree};
use crate::model::Rev;
use crate::report::{distinct, lemma_distinct};
use crate::shards::{slices, Shard};
use crate::text::{clone_texts, contains_text, texts};

verus! {

// --- options ----------------------------------------------------------------

/// The heap cap of one evaluation worker, in MiB.
pub const DEFAULT_WORKER_MEM_MB: u64 = 4096;

/// Top-level attribute names per shard.
pub const NAMES_PER_SHARD: usize = 1024;

/// Optional overrides for the evaluation scheduler.
#[derive(Debug, Clone, Copy)]
pub struct EvalOpts {
    /// Concurrent shard evaluations.
    pub slots: Option<u64>,
    /// Heap cap of one worker, MiB.
    pub worker_mem_mb: Option<u64>,
    /// Top-level attribute names per shard of the full evaluation.
    pub shard_size: Option<usize>,
}

impl Default for EvalOpts {
    fn default() -> (opts: Self)
        ensures
            opts.slots is None,
            opts.worker_mem_mb is None,
            opts.shard_size is None,
    {
        EvalOpts { slots: None, worker_mem_mb: None, shard_size: None }
    }
}

impl EvalOpts {
    /// The heap cap of one worker, in MiB.
    pub fn per_worker_mb(&self) -> (mb: u64)
        ensures
            mb == (match self.worker_mem_mb {
                Some(mb) => mb,
                None => DEFAULT_WORKER_MEM_MB,
            }),
    {
        match self.worker_mem_mb {
            Some(mb) => mb,
            None => DEFAULT_WORKER_MEM_MB,
        }
    }

    /// The names per shard of the full evaluation.
    pub fn names_per_shard(&self) -> (names: usize)
        ensures
            names == (match self.shard_size {
                Some(n) => n,
                None => NAMES_PER_SHARD,
            }),
    {
        match self.shard_size {
            Some(n) => n,
            None => NAMES_PER_SHARD,
        }
    }
}

// --- the phases in the progress tree ----------------------------------------

/// What the leaves of a phase show: nothing but a colour, a count, or a count and how
/// much of the work has landed.
#[derive(Debug, Clone, Copy, PartialEq, Eq, Structural)]
pub enum Leaf {
    Plain,
    Count,
    Percent,
}

/// The node of a leaf.
pub open spec fn leaf_node(leaf: Leaf, label: Seq<char>, depth: int) -> NodeView {
    match leaf {
        Leaf::Plain => waiting(label, depth, false, -1),
        Leaf::Count => waiting(label, depth, true, -1),
        Leaf::Percent => waiting_percent(label, depth),
    }
}

/// The systems of some groups, each a system and the name of a side.
pub open spec fn group_systems(groups: Seq<(Seq<char>, Seq<char>)>) -> Seq<Seq<char>> {
    groups.map_values(|g: (Seq<char>, Seq<char>)| g.0)
}

/// The texts of some groups.
pub open spec fn group_views(groups: Seq<(String, String)>) -> Seq<(Seq<char>, Seq<char>)> {
    groups.map_values(|g: (String, String)| (g.0@, g.1@))
}

/// The nodes of a phase, each with the group whose leaf it is.
pub struct PhaseNode {
    pub node: NodeView,
    pub group: Option<int>,
}

/// The leaves at `depth` of the groups before `n` that are of system `system`, or
/// of any where that is `None`.
pub open spec fn leaves(
    groups: Seq<(Seq<char>, Seq<char>)>,
    n: int,
    system: Option<Seq<char>>,
    leaf: Leaf,
    depth: int,
) -> Seq<PhaseNode>
    decreases n,
{
    if n <= 0 {
        Seq::empty()
    } else {
        let before = leaves(groups, n - 1, system, leaf, depth);
        let group = groups[n - 1];
        if system is None || system == Some(group.0) {
            before.push(
                PhaseNode { node: leaf_node(leaf, group.1, depth), group: Some(n - 1) },
            )
        } else {
            before
        }
    }
}

/// The nodes of some systems: each system, then its leaves.
pub open spec fn system_nodes(
    groups: Seq<(Seq<char>, Seq<char>)>,
    systems: Seq<Seq<char>>,
    leaf: Leaf,
) -> Seq<PhaseNode>
    decreases systems.len(),
{
    if systems.len() == 0 {
        Seq::empty()
    } else {
        system_nodes(groups, systems.drop_last(), leaf).push(
            PhaseNode { node: waiting(systems.last(), 1, false, -1), group: None },
        ) + leaves(groups, groups.len() as int, Some(systems.last()), leaf, 2)
    }
}

/// The nodes of a phase: the phase, then the leaves of its groups, below a level of
/// systems where the run spans more than one.
pub open spec fn phase_nodes(
    phase: Seq<char>,
    groups: Seq<(Seq<char>, Seq<char>)>,
    leaf: Leaf,
    multi: bool,
) -> Seq<PhaseNode> {
    seq![PhaseNode { node: waiting(phase, 0, false, -1), group: None }] + (if multi {
        system_nodes(groups, distinct(group_systems(groups)), leaf)
    } else {
        leaves(groups, groups.len() as int, None, leaf, 1)
    })
}

/// What the nodes of a phase show.
pub open spec fn shown_nodes(nodes: Seq<PhaseNode>) -> Seq<NodeView> {
    nodes.map_values(|n: PhaseNode| n.node)
}

/// Adds one leaf.
fn add_leaf(tree: &mut Tree, leaf: Leaf, label: &str, depth: usize) -> (id: usize)
    requires
        old(tree).wf(),
        2 * depth + label@.len() <= usize::MAX,
    ensures
        final(tree).wf(),
        final(tree).shown() == old(tree).shown().push(leaf_node(leaf, label@, depth as int)),
        id == old(tree).shown().len(),
        final(tree).min_label_w == old(tree).min_label_w,
        final(tree).multi == old(tree).multi,
        final(tree).color == old(tree).color,
        final(tree).start == old(tree).start,
{
    match leaf {
        Leaf::Plain => tree.node(label, depth),
        Leaf::Count => tree.counter(label, depth, -1),
        Leaf::Percent => tree.percent(label, depth),
    }
}

/// Whether every label of some groups fits a line.
pub open spec fn labels_fit(groups: Seq<(String, String)>) -> bool {
    forall|i: int|
        0 <= i < groups.len() ==> (#[trigger] groups[i]).0@.len() + 4 <= usize::MAX
            && groups[i].1@.len() + 4 <= usize::MAX
}

/// Adds the leaves of the groups of one system, or of all.
fn add_leaves(
    tree: &mut Tree,
    groups: &[(String, String)],
    system: Option<&String>,
    leaf: Leaf,
    depth: usize,
    handles: &mut Vec<Option<usize>>,
)
    requires
        old(tree).wf(),
        depth <= 2,
        labels_fit(groups@),
        old(handles)@.len() == groups@.len(),
    ensures
        final(tree).wf(),
        final(tree).shown() == old(tree).shown() + shown_nodes(
            leaves(group_views(groups@), groups@.len() as int, opt_ref(system), leaf, depth as int),
        ),
        final(tree).min_label_w == old(tree).min_label_w,
        final(tree).multi == old(tree).multi,
        final(tree).color == old(tree).color,
        final(tree).start == old(tree).start,
        final(handles)@.len() == groups@.len(),
        forall|gi: int|
            0 <= gi < groups@.len() ==> if opt_ref(system) is None || opt_ref(system) == Some(
                groups@[gi].0@,
            ) {
                let nodes = leaves(
                    group_views(groups@),
                    groups@.len() as int,
                    opt_ref(system),
                    leaf,
                    depth as int,
                );
                &&& (#[trigger] final(handles)@[gi]) matches Some(id)
                &&& old(tree).shown().len() <= id < old(tree).shown().len() + nodes.len()
                &&& nodes[id - old(tree).shown().len()].group == Some(gi)
            } else {
                final(handles)@[gi] == old(handles)@[gi]
            },
{
    let ghost base = tree.shown();
    let ghost sys = opt_ref(system);
    let ghost first = handles@;
    let mut gi: usize = 0;
    assert(base + shown_nodes(leaves(group_views(groups@), 0, sys, leaf, depth as int)) =~= base);
    while gi < groups.len()
        invariant
            gi <= groups@.len(),
            sys == opt_ref(system),
            tree.wf(),
            depth <= 2,
            labels_fit(groups@),
            first.len() == groups@.len(),
            handles@.len() == groups@.len(),
            tree.shown() == base + shown_nodes(
                leaves(group_views(groups@), gi as int, sys, leaf, depth as int),
            ),
            tree.min_label_w == old(tree).min_label_w,
            tree.multi == old(tree).multi,
            tree.color == old(tree).color,
            tree.start == old(tree).start,
            forall|k: int|
                0 <= k < groups@.len() ==> if k < gi && (sys is None || sys == Some(groups@[k].0@)) {
                    let nodes = leaves(group_views(groups@), gi as int, sys, leaf, depth as int);
                    &&& (#[trigger] handles@[k]) matches Some(id)
                    &&& base.len() <= id < base.len() + nodes.len()
                    &&& nodes[id - base.len()].group == Some(k)
                } else {
                    handles@[k] == first[k]
                },
        decreases groups@.len() - gi,
    {
        let ghost nodes = leaves(group_views(groups@), gi as int, sys, leaf, depth as int);
        let ghost next = leaves(group_views(groups@), gi + 1, sys, leaf, depth as int);
        let ghost before = handles@;
        let wanted = match system {
            Some(s) => *s == groups[gi].0,
            None => true,
        };
        assert(wanted == (sys is None || sys == Some(groups@[gi as int].0@)));
        if wanted {
            assert(groups@[gi as int].1@.len() + 4 <= usize::MAX);
            let id = add_leaf(tree, leaf, groups[gi].1.as_str(), depth);
            handles.set(gi, Some(id));
            proof {
                assert(tree.shown() =~= base + shown_nodes(next));
                assert forall|k: int| 0 <= k < groups@.len() implies if k < gi + 1 && (sys is None
                    || sys == Some(groups@[k].0@)) {
                    &&& (#[trigger] handles@[k]) matches Some(id)
                    &&& base.len() <= id < base.len() + next.len()
                    &&& next[id - base.len()].group == Some(k)
                } else {
                    handles@[k] == first[k]
                } by {
                    if k == gi {
                        assert(next[id - base.len()].group == Some(k));
                    } else {
                        assert(handles@[k] == before[k]);
                        if k < gi && (sys is None || sys == Some(groups@[k].0@)) {
                            let old_id = before[k]->0;
                            assert(next[old_id - base.len()] == nodes[old_id - base.len()]);
                        }
                    }
                }
            }
        }
        gi += 1;
    }
}

/// The characters of a string that may be given.
pub open spec fn opt_ref(s: Option<&String>) -> Option<Seq<char>> {
    match s {
        Some(s) => Some(s@),
        None => None,
    }
}

/// The distinct systems of some groups, in the order in which they first come.
fn systems_of(groups: &[(String, String)]) -> (out: Vec<String>)
    ensures
        texts(out@) == distinct(group_systems(group_views(groups@))),
{
    let ghost all = group_systems(group_views(groups@));
    let mut out: Vec<String> = Vec::new();
    let mut i: usize = 0;
    assert(all.take(0) =~= Seq::<Seq<char>>::empty());
    assert(texts(out@) =~= Seq::<Seq<char>>::empty());
    while i < groups.len()
        invariant
            i <= groups@.len(),
            all == group_systems(group_views(groups@)),
            texts(out@) == distinct(all.take(i as int)),
        decreases groups@.len() - i,
    {
        assert(all.take(i + 1).drop_last() =~= all.take(i as int));
        assert(all.take(i + 1).last() == groups@[i as int].0@);
        let ghost before = texts(out@);
        if !contains_text(&out, groups[i].0.as_str()) {
            out.push(groups[i].0.clone());
            assert(texts(out@) =~= before.push(groups@[i as int].0@));
        }
        i += 1;
    }
    assert(all.take(i as int) =~= all);
    out
}

/// Builds a phase in `tree`: the phase node, then, for a run over several systems,
/// a system level, then the leaves of the groups, each a system and the name of a
/// side. Returns the places of the leaves, in the order of `groups`.
pub fn add_phase(
    tree: &mut Tree,
    phase: &str,
    groups: &[(String, String)],
    leaf: Leaf,
) -> (handles: Vec<usize>)
    requires
        old(tree).wf(),
        phase@.len() <= usize::MAX,
        labels_fit(groups@),
    ensures
        final(tree).wf(),
        final(tree).shown() == old(tree).shown() + shown_nodes(
            phase_nodes(phase@, group_views(groups@), leaf, old(tree).multi),
        ),
        final(tree).min_label_w == old(tree).min_label_w,
        final(tree).multi == old(tree).multi,
        final(tree).color == old(tree).color,
        final(tree).start == old(tree).start,
        handles@.len() == groups@.len(),
        forall|gi: int|
            0 <= gi < groups@.len() ==> {
                let nodes = phase_nodes(phase@, group_views(groups@), leaf, old(tree).multi);
                let id = #[trigger] handles@[gi];
                &&& old(tree).shown().len() <= id < old(tree).shown().len() + nodes.len()
                &&& nodes[id - old(tree).shown().len()].group == Some(gi)
            },
{
    let ghost base = tree.shown();
    let ghost multi = tree.multi;
    let ghost nodes = phase_nodes(phase@, group_views(groups@), leaf, multi);
    let _ = tree.node(phase, 0);
    let mut places: Vec<Option<usize>> = Vec::new();
    let mut i: usize = 0;
    while i < groups.len()
        invariant
            i <= groups@.len(),
            places@.len() == i,
            forall|k: int| 0 <= k < i ==> (#[trigger] places@[k]) is None,
        decreases groups@.len() - i,
    {
        places.push(None);
        i += 1;
    }
    let ghost head = seq![PhaseNode { node: waiting(phase@, 0, false, -1), group: None }];
    assert(tree.shown() =~= base + shown_nodes(head));
    if tree.multi() {
        let systems = systems_of(groups);
        let ghost order = distinct(group_systems(group_views(groups@)));
        let mut k: usize = 0;
        assert(order.take(0) =~= Seq::<Seq<char>>::empty());
        assert(head + system_nodes(group_views(groups@), order.take(0), leaf) =~= head);
        while k < systems.len()
            invariant
                k <= systems@.len(),
                tree.wf(),
                labels_fit(groups@),
                order == distinct(group_systems(group_views(groups@))),
                texts(systems@) == order,
                head.len() == 1,
                places@.len() == groups@.len(),
                tree.shown() == base + shown_nodes(
                    head + system_nodes(group_views(groups@), order.take(k as int), leaf),
                ),
                tree.min_label_w == old(tree).min_label_w,
                tree.multi == old(tree).multi,
                tree.color == old(tree).color,
                tree.start == old(tree).start,
                forall|gi: int|
                    0 <= gi < groups@.len() ==> {
                        let so_far = head + system_nodes(group_views(groups@), order.take(k as int), leaf);
                        if order.take(k as int).contains(groups@[gi].0@) {
                            &&& (#[trigger] places@[gi]) matches Some(id)
                            &&& base.len() <= id < base.len() + so_far.len()
                            &&& so_far[id - base.len()].group == Some(gi)
                        } else {
                            true
                        }
                    },
            decreases systems@.len() - k,
        {
            let ghost so_far = head + system_nodes(group_views(groups@), order.take(k as int), leaf);
            let ghost next = head + system_nodes(group_views(groups@), order.take(k + 1), leaf);
            let ghost sys = systems@[k as int]@;
            let ghost before = places@;
            proof {
                assert(order[k as int] == sys);
                assert(order.take(k + 1).drop_last() =~= order.take(k as int));
                assert(order.take(k + 1).last() == sys);
                lemma_distinct(group_systems(group_views(groups@)));
                assert(order.contains(sys));
                let m = choose|m: int|
                    0 <= m < group_systems(group_views(groups@)).len() && group_systems(group_views(groups@))[m] == sys;
                assert(groups@[m].0@.len() + 4 <= usize::MAX);
            }
            let _ = tree.node(systems[k].as_str(), 1);
            let ghost start = tree.shown();
            add_leaves(tree, groups, Some(&systems[k]), leaf, 2, &mut places);
            proof {
                let spine = seq![PhaseNode { node: waiting(sys, 1, false, -1), group: None }];
                let under = leaves(group_views(groups@), groups@.len() as int, Some(sys), leaf, 2);
                assert(next =~= so_far + spine + under);
                assert(tree.shown() =~= base + shown_nodes(next));
                assert forall|gi: int| 0 <= gi < groups@.len() implies {
                    if order.take(k + 1).contains(groups@[gi].0@) {
                        &&& (#[trigger] places@[gi]) matches Some(id)
                        &&& base.len() <= id < base.len() + next.len()
                        &&& next[id - base.len()].group == Some(gi)
                    } else {
                        true
                    }
                } by {
                    if groups@[gi].0@ == sys {
                        let id = places@[gi]->0;
                        assert(next[id - base.len()] == under[id - start.len()]);
                    } else if order.take(k + 1).contains(groups@[gi].0@) {
                        let upto = order.take(k + 1);
                        let m = choose|m: int| 0 <= m < upto.len() && upto[m] == groups@[gi].0@;
                        assert(order.take(k as int)[m] == groups@[gi].0@);
                        assert(places@[gi] == before[gi]);
                        let id = before[gi]->0;
                        assert(next[id - base.len()] == so_far[id - base.len()]);
                    }
                }
            }
            k += 1;
        }
        proof {
            assert(order.take(k as int) =~= order);
            assert(nodes =~= head + system_nodes(group_views(groups@), order, leaf));
            assert forall|gi: int| 0 <= gi < groups@.len() implies order.contains(
                #[trigger] groups@[gi].0@,
            ) by {
                lemma_distinct(group_systems(group_views(groups@)));
                assert(group_systems(group_views(groups@))[gi] == groups@[gi].0@);
            }
        }
    } else {
        add_leaves(tree, groups, None, leaf, 1, &mut places);
        proof {
            let under = leaves(group_views(groups@), groups@.len() as int, None, leaf, 1);
            assert(nodes =~= head + under);
            assert(tree.shown() =~= base + shown_nodes(nodes));
            assert forall|gi: int| 0 <= gi < groups@.len() implies {
                &&& (#[trigger] places@[gi]) matches Some(id)
                &&& base.len() <= id < base.len() + nodes.len()
                &&& nodes[id - base.len()].group == Some(gi)
            } by {
                let id = places@[gi]->0;
                assert(nodes[id - base.len()] == under[id - (base.len() + 1)]);
            }
        }
    }
    let mut handles: Vec<usize> = Vec::new();
    let mut i: usize = 0;
    while i < groups.len()
        invariant
            i <= groups@.len(),
            places@.len() == groups@.len(),
            handles@.len() == i,
            forall|gi: int|
                0 <= gi < groups@.len() ==> {
                    &&& (#[trigger] places@[gi]) matches Some(id)
                    &&& base.len() <= id < base.len() + nodes.len()
                    &&& nodes[id - base.len()].group == Some(gi)
                },
            forall|gi: int|
                0 <= gi < i ==> {
                    let id = #[trigger] handles@[gi];
                    &&& base.len() <= id < base.len() + nodes.len()
                    &&& nodes[id - base.len()].group == Some(gi)
                },
        decreases groups@.len() - i,
    {
        match places[i] {
            Some(id) => {
                assert(places@[i as int] matches Some(x) && x == id);
                handles.push(id);
            },
            None => {
                assert(places@[i as int] is None);
                assert(false);
            },
        }
        i += 1;
    }
    handles
}

// --- batches ----------------------------------------------------------------

/// A batch of work for the shard scheduler: groups of items, what each group is
/// called in messages, how many items go into a shard, how many shards run at
/// once, and whether a group's items are its total.
#[derive(Debug)]
pub struct Batch {
    pub labels: Vec<String>,
    pub items: Vec<Vec<String>>,
    pub shard_size: usize,
    pub slots: usize,
    pub known_total: bool,
}

/// A request: the revision and the system, and the packages or paths to evaluate.
pub type Request = (Rev, String, Vec<String>);

/// The texts of some lists.
pub open spec fn item_texts(items: Seq<Vec<String>>) -> Seq<Seq<Seq<char>>> {
    items.map_values(|v: Vec<String>| texts(v@))
}

/// The items of some requests.
pub open spec fn request_items(requests: Seq<Request>) -> Seq<Seq<Seq<char>>> {
    requests.map_values(|r: Request| texts(r.2@))
}

/// The label of a test request.
pub open spec fn tests_label(r: Request) -> Seq<char> {
    "tests "@ + r.0.display@ + " ("@ + r.1@ + ")"@
}

/// The label of a side on a system.
pub open spec fn side_label(rev: Rev, system: String) -> Seq<char> {
    rev.display@ + " "@ + system@
}

/// The label of a test request.
fn label_tests(r: &Request) -> (out: String)
    ensures
        out@ == tests_label(*r),
{
    let mut out = String::new();
    out.append("tests ");
    out.append(r.0.display.as_str());
    out.append(" (");
    out.append(r.1.as_str());
    out.append(")");
    assert(out@ =~= tests_label(*r));
    out
}

/// The label of a side on a system.
fn label_side(rev: &Rev, system: &String) -> (out: String)
    ensures
        out@ == side_label(*rev, *system),
{
    let mut out = String::new();
    out.append(rev.display.as_str());
    out.append(" ");
    out.append(system.as_str());
    assert(out@ =~= side_label(*rev, *system));
    out
}

/// Plans the evaluation of the tests of several requests together, in one run of
/// the scheduler: one shard for each request, never cut further. The import is the
/// cost, and a worker is heavy, so that fewer slots are what saves memory. Nothing is
/// to be done for no requests.
pub fn eval_tests(requests: &[Request], slots: usize) -> (out: Option<Batch>)
    ensures
        match out {
            None => requests@.len() == 0,
            Some(batch) => {
                &&& requests@.len() > 0
                &&& texts(batch.labels@) == requests@.map_values(|r: Request| tests_label(r))
                &&& item_texts(batch.items@) == request_items(requests@)
                &&& batch.shard_size == longest_list(request_items(requests@))
                &&& batch.slots == slots
                &&& !batch.known_total
            },
        },
{
    if requests.len() == 0 {
        return None;
    }
    let ghost f = |r: Request| tests_label(r);
    let mut shard_size: usize = 1;
    let mut labels: Vec<String> = Vec::new();
    let mut items: Vec<Vec<String>> = Vec::new();
    let mut i: usize = 0;
    assert(request_items(requests@).take(0) =~= Seq::<Seq<Seq<char>>>::empty());
    while i < requests.len()
        invariant
            i <= requests@.len(),
            f == (|r: Request| tests_label(r)),
            shard_size == longest_list(request_items(requests@).take(i as int)),
            texts(labels@) == requests@.map_values(f).take(i as int),
            item_texts(items@) == request_items(requests@).take(i as int),
        decreases requests@.len() - i,
    {
        let ghost (ls, its) = (texts(labels@), item_texts(items@));
        let len: usize = requests[i].2.len();
        proof {
            let next = request_items(requests@).take(i + 1);
            assert(next.drop_last() =~= request_items(requests@).take(i as int));
            assert(next.last() == texts(requests@[i as int].2@));
            assert(next.last().len() == len);
        }
        if len > shard_size {
            shard_size = len;
        }
        labels.push(label_tests(&requests[i]));
        items.push(clone_texts(&requests[i].2));
        assert(texts(labels@) =~= ls.push(f(requests@[i as int])));
        assert(item_texts(items@) =~= its.push(texts(requests@[i as int].2@)));
        i += 1;
        assert(texts(labels@) =~= requests@.map_values(f).take(i as int));
        assert(item_texts(items@) =~= request_items(requests@).take(i as int));
    }
    assert(texts(labels@) =~= requests@.map_values(f));
    assert(item_texts(items@) =~= request_items(requests@));
    Some(Batch { labels, items, shard_size, slots, known_total: false })
}

/// The expression that evaluates one shard of a test request.
pub fn tests_job(repo: &str, request: &Request, shard: Shard) -> (out: String)
    requires
        shard.start <= shard.end <= request.2@.len(),
    ensures
        out@ == tests_text(
            repo@,
            request.0.commit@,
            request.1@,
            texts(request.2@).subrange(shard.start as int, shard.end as int),
        ),
{
    let part = slice_subrange(request.2.as_slice(), shard.start, shard.end);
    assert(texts(part@) =~= texts(request.2@).subrange(shard.start as int, shard.end as int));
    build_tests_expr(repo, request.0.commit.as_str(), request.1.as_str(), part)
}

/// The places of the requests that have something to do, among the first `n`.
pub open spec fn busy(requests: Seq<Request>, n: int) -> Seq<int>
    decreases n,
{
    if n <= 0 {
        Seq::empty()
    } else if requests[n - 1].2@.len() > 0 {
        busy(requests, n - 1).push(n - 1)
    } else {
        busy(requests, n - 1)
    }
}

/// What is to be instantiated.
pub struct Instantiation {
    /// The places of the requests that have something to do.
    pub requests: Vec<usize>,
    /// The places of their leaves in the progress tree.
    pub nodes: Vec<usize>,
    pub batch: Batch,
}

/// The number of items of the longest of some lists, or one.
pub open spec fn longest_list(items: Seq<Seq<Seq<char>>>) -> int
    decreases items.len(),
{
    if items.len() == 0 {
        1
    } else {
        let before = longest_list(items.drop_last());
        if items.last().len() > before {
            items.last().len() as int
        } else {
            before
        }
    }
}

/// The side and system of the busy requests.
pub open spec fn busy_groups(requests: Seq<Request>) -> Seq<(Seq<char>, Seq<char>)> {
    busy(requests, requests.len() as int).map_values(
        |i: int| (requests[i].1@, requests[i].0.display@),
    )
}

/// Plans the writing of the derivations of several requests to the store, in one
/// run of the scheduler: one shard for each request, for the import is the cost.
/// Requests with nothing to instantiate are dropped; the others get their leaves in
/// the progress tree. Nothing is to be done where all are dropped.
pub fn instantiate(requests: &[Request], slots: usize, tree: &mut Tree) -> (out: Option<
    Instantiation,
>)
    requires
        old(tree).wf(),
        forall|i: int|
            0 <= i < requests@.len() ==> (#[trigger] requests@[i]).1@.len() + 4 <= usize::MAX
                && requests@[i].0.display@.len() + 4 <= usize::MAX,
    ensures
        final(tree).wf(),
        final(tree).multi == old(tree).multi,
        final(tree).min_label_w == old(tree).min_label_w,
        final(tree).color == old(tree).color,
        final(tree).start == old(tree).start,
        ({
            let at = busy(requests@, requests@.len() as int);
            match out {
                None => at.len() == 0 && final(tree).shown() == old(tree).shown(),
                Some(plan) => {
                    let nodes = phase_nodes(
                        "instantiate"@,
                        busy_groups(requests@),
                        Leaf::Count,
                        old(tree).multi,
                    );
                    &&& at.len() > 0
                    &&& plan.requests@.map_values(|i: usize| i as int) == at
                    &&& final(tree).shown() == old(tree).shown() + shown_nodes(nodes)
                    &&& plan.nodes@.len() == at.len()
                    &&& forall|gi: int|
                        0 <= gi < at.len() ==> {
                            let id = #[trigger] plan.nodes@[gi];
                            &&& old(tree).shown().len() <= id < old(tree).shown().len()
                                + nodes.len()
                            &&& nodes[id - old(tree).shown().len()].group == Some(gi)
                        }
                    &&& texts(plan.batch.labels@) == at.map_values(
                        |i: int| side_label(requests@[i].0, requests@[i].1),
                    )
                    &&& item_texts(plan.batch.items@) == at.map_values(
                        |i: int| texts(requests@[i].2@),
                    )
                    &&& plan.batch.shard_size == longest_list(
                        at.map_values(|i: int| texts(requests@[i].2@)),
                    )
                    &&& plan.batch.slots == slots
                    &&& plan.batch.known_total
                },
            }
        }),
{
    let ghost label = |i: int| side_label(requests@[i].0, requests@[i].1);
    let ghost list = |i: int| texts(requests@[i].2@);
    let ghost pair = |i: int| (requests@[i].1@, requests@[i].0.display@);
    let ghost place = |i: usize| i as int;
    let mut kept: Vec<usize> = Vec::new();
    let mut groups: Vec<(String, String)> = Vec::new();
    let mut labels: Vec<String> = Vec::new();
    let mut items: Vec<Vec<String>> = Vec::new();
    let mut shard_size: usize = 1;
    let mut i: usize = 0;
    while i < requests.len()
        invariant
            i <= requests@.len(),
            label == (|i: int| side_label(requests@[i].0, requests@[i].1)),
            list == (|i: int| texts(requests@[i].2@)),
            pair == (|i: int| (requests@[i].1@, requests@[i].0.display@)),
            place == (|i: usize| i as int),
            forall|i: int|
                0 <= i < requests@.len() ==> (#[trigger] requests@[i]).1@.len() + 4 <= usize::MAX
                    && requests@[i].0.display@.len() + 4 <= usize::MAX,
            kept@.map_values(place) == busy(requests@, i as int),
            group_views(groups@) == busy(requests@, i as int).map_values(pair),
            labels_fit(groups@),
            texts(labels@) == busy(requests@, i as int).map_values(label),
            item_texts(items@) == busy(requests@, i as int).map_values(list),
            shard_size == longest_list(busy(requests@, i as int).map_values(list)),
        decreases requests@.len() - i,
    {
        let r: &Request = &requests[i];
        let ghost before = busy(requests@, i as int);
        let ghost next = busy(requests@, i + 1);
        if r.2.len() > 0 {
            let ghost (ks, gs, ls, its) = (
                kept@.map_values(place),
                group_views(groups@),
                texts(labels@),
                item_texts(items@),
            );
            let ghost old_groups = groups@;
            kept.push(i);
            groups.push((r.1.clone(), r.0.display.clone()));
            labels.push(label_side(&r.0, &r.1));
            items.push(clone_texts(&r.2));
            proof {
                assert(next =~= before.push(i as int));
                assert(kept@.map_values(place) =~= ks.push(i as int));
                assert(group_views(groups@) =~= gs.push(pair(i as int)));
                assert(texts(labels@) =~= ls.push(label(i as int)));
                assert(item_texts(items@) =~= its.push(list(i as int)));
                assert(next.map_values(pair) =~= before.map_values(pair).push(pair(i as int)));
                assert(next.map_values(label) =~= before.map_values(label).push(label(i as int)));
                assert(next.map_values(list) =~= before.map_values(list).push(list(i as int)));
                assert(next.map_values(list).drop_last() =~= before.map_values(list));
                assert(list(i as int).len() == r.2@.len());
                assert forall|g: int| 0 <= g < groups@.len() implies (
                #[trigger] groups@[g]).0@.len() + 4 <= usize::MAX && groups@[g].1@.len() + 4
                    <= usize::MAX by {
                    if g < old_groups.len() {
                        assert(groups@[g] == old_groups[g]);
                    }
                }
            }
            if r.2.len() > shard_size {
                shard_size = r.2.len();
            }
        }
        i += 1;
    }
    if kept.len() == 0 {
        assert(kept@.map_values(place).len() == kept@.len());
        return None;
    }
    assert(kept@.map_values(place).len() == kept@.len());
    assert(group_views(groups@).len() == groups@.len());
    proof {
        reveal_strlit("instantiate");
    }
    let nodes = add_phase(tree, "instantiate", &groups, Leaf::Count);
    Some(
        Instantiation {
            requests: kept,
            nodes,
            batch: Batch { labels, items, shard_size, slots, known_total: true },
        },
    )
}

/// The expression that instantiates one shard of a request.
pub fn instantiate_job(repo: &str, request: &Request, shard: Shard) -> (out: String)
    requires
        shard.start <= shard.end <= request.2@.len(),
    ensures
        out@ == select_text(
            repo@,
            request.0.commit@,
            request.1@,
            texts(request.2@).subrange(shard.start as int, shard.end as int),
        ),
{
    let part = slice_subrange(request.2.as_slice(), shard.start, shard.end);
    assert(texts(part@) =~= texts(request.2@).subrange(shard.start as int, shard.end as int));
    select_expr(repo, request.0.commit.as_str(), request.1.as_str(), part)
}

/// Every request is one shard: none is longer than the shards of its batch.
pub proof fn lemma_one_shard_each(items: Seq<Seq<Seq<char>>>, i: int)
    requires
        0 <= i < items.len(),
    ensures
        items[i].len() <= longest_list(items),
        1 <= longest_list(items),
        slices(i, 0, items[i].len() as int, longest_list(items)).len() <= 1,
    decreases items.len(),
{
    lemma_longest_list(items, i);
    let n = longest_list(items);
    let len = items[i].len() as int;
    reveal_with_fuel(slices, 3);
}

/// No list is longer than the longest.
proof fn lemma_longest_list(items: Seq<Seq<Seq<char>>>, i: int)
    requires
        0 <= i < items.len(),
    ensures
        items[i].len() <= longest_list(items),
        1 <= longest_list(items),
    decreases items.len(),
{
    if items.len() > 1 {
        if i < items.len() - 1 {
            lemma_longest_list(items.drop_last(), i);
        } else {
            lemma_longest_list(items.drop_last(), 0);
        }
    } else {
        assert(items.drop_last() =~= Seq::<Seq<Seq<char>>>::empty());
        assert(longest_list(items.drop_last()) == 1);
    }
}

// --- the full evaluation ----------------------------------------------------

/// A revision on a system.
pub type Pair = (Rev, String);

/// What an evaluation is cached under: the tree and the system.
pub open spec fn eval_key(pair: Pair) -> (Seq<char>, Seq<char>) {
    (pair.0.tree@, pair.1@)
}

/// Whether one of the pairs at the places `at` has the key `key`.
pub open spec fn has_key(pairs: Seq<Pair>, at: Seq<int>, key: (Seq<char>, Seq<char>)) -> bool {
    exists|k: int| 0 <= k < at.len() && eval_key(pairs[#[trigger] at[k]]) == key
}

/// The places, among the first `n` pairs, of the evaluations to run: those that are
/// not cached, once for each tree and system.
pub open spec fn to_evaluate(pairs: Seq<Pair>, hit: Seq<bool>, n: int) -> Seq<int>
    decreases n,
{
    if n <= 0 {
        Seq::empty()
    } else {
        let before = to_evaluate(pairs, hit, n - 1);
        if hit[n - 1] || has_key(pairs, before, eval_key(pairs[n - 1])) {
            before
        } else {
            before.push(n - 1)
        }
    }
}

/// The systems, among the first `n` pairs, of those that are cached.
pub open spec fn cached_systems(pairs: Seq<Pair>, hit: Seq<bool>, n: int) -> Seq<Seq<char>>
    decreases n,
{
    if n <= 0 {
        Seq::empty()
    } else if hit[n - 1] {
        cached_systems(pairs, hit, n - 1).push(pairs[n - 1].1@)
    } else {
        cached_systems(pairs, hit, n - 1)
    }
}

/// A planned evaluation of several pairs.
pub struct EvalPlan {
    /// The places of the pairs to evaluate.
    pub todo: Vec<usize>,
    /// The systems of the pairs that are cached.
    pub cached: Vec<String>,
    /// What the pairs to evaluate are called in messages.
    pub labels: Vec<String>,
    /// The places of their leaves in the progress tree, for each of the two phases.
    pub enum_nodes: Vec<usize>,
    pub eval_nodes: Vec<usize>,
    /// The heap cap of one worker, in MiB.
    pub per_worker_mb: u64,
    /// The names per shard.
    pub shard_size: usize,
}

/// The places of evaluations to run are places of pairs that are not cached.
proof fn lemma_to_evaluate(pairs: Seq<Pair>, hit: Seq<bool>, n: int)
    requires
        0 <= n <= pairs.len(),
        hit.len() == pairs.len(),
    ensures
        forall|k: int|
            0 <= k < to_evaluate(pairs, hit, n).len() ==> 0 <= #[trigger] to_evaluate(
                pairs,
                hit,
                n,
            )[k] < n && !hit[to_evaluate(pairs, hit, n)[k]],
    decreases n,
{
    if n > 0 {
        lemma_to_evaluate(pairs, hit, n - 1);
        let before = to_evaluate(pairs, hit, n - 1);
        let now = to_evaluate(pairs, hit, n);
        assert forall|k: int| 0 <= k < now.len() implies 0 <= #[trigger] now[k] < n
            && !hit[now[k]] by {
            if k < before.len() {
                assert(now[k] == before[k]);
            }
        }
    }
}

/// Every evaluation that is missing is run, and none twice: each pair that is not
/// cached has its tree and system among those to evaluate, and no two of these are
/// alike.
pub proof fn lemma_evaluated_once(pairs: Seq<Pair>, hit: Seq<bool>, n: int)
    requires
        0 <= n <= pairs.len(),
        hit.len() == pairs.len(),
    ensures
        forall|i: int|
            0 <= i < n && !hit[i] ==> has_key(
                pairs,
                to_evaluate(pairs, hit, n),
                eval_key(#[trigger] pairs[i]),
            ),
        forall|k: int, m: int|
            0 <= k < m < to_evaluate(pairs, hit, n).len() ==> eval_key(
                pairs[#[trigger] to_evaluate(pairs, hit, n)[k]],
            ) != eval_key(pairs[#[trigger] to_evaluate(pairs, hit, n)[m]]),
    decreases n,
{
    if n > 0 {
        lemma_evaluated_once(pairs, hit, n - 1);
        let before = to_evaluate(pairs, hit, n - 1);
        let now = to_evaluate(pairs, hit, n);
        assert forall|i: int| 0 <= i < n && !hit[i] implies has_key(
            pairs,
            now,
            eval_key(#[trigger] pairs[i]),
        ) by {
            let key = eval_key(pairs[i]);
            if has_key(pairs, before, key) {
                let k = choose|k: int|
                    0 <= k < before.len() && eval_key(pairs[#[trigger] before[k]]) == key;
                assert(now[k] == before[k]);
            } else {
                assert(now[before.len() as int] == n - 1);
            }
        }
        assert forall|k: int, m: int| 0 <= k < m < now.len() implies eval_key(
            pairs[#[trigger] now[k]],
        ) != eval_key(pairs[#[trigger] now[m]]) by {
            assert(now[k] == before[k]);
            if m < before.len() {
                assert(now[m] == before[m]);
            }
        }
    }
}

/// Plans the evaluation of all pairs that have no cached evaluation (`hit`), once
/// for each tree and system. Both phases get their leaves in the progress tree up
/// front. Nothing is to be done where everything is cached.
pub fn eval_pairs(
    pairs: &[Pair],
    hit: &[bool],
    opts: EvalOpts,
    tree: &mut Tree,
) -> (out: Option<EvalPlan>)
    requires
        old(tree).wf(),
        hit@.len() == pairs@.len(),
        forall|i: int|
            0 <= i < pairs@.len() ==> (#[trigger] pairs@[i]).1@.len() + 4 <= usize::MAX
                && pairs@[i].0.display@.len() + 4 <= usize::MAX,
    ensures
        final(tree).wf(),
        final(tree).multi == old(tree).multi,
        final(tree).min_label_w == old(tree).min_label_w,
        final(tree).color == old(tree).color,
        final(tree).start == old(tree).start,
        ({
            let at = to_evaluate(pairs@, hit@, pairs@.len() as int);
            let groups = at.map_values(|i: int| (pairs@[i].1@, pairs@[i].0.display@));
            let enum_phase = phase_nodes("enumerate"@, groups, Leaf::Plain, old(tree).multi);
            let eval_phase = phase_nodes("evaluate"@, groups, Leaf::Percent, old(tree).multi);
            let start = old(tree).shown().len();
            match out {
                None => at.len() == 0 && final(tree).shown() == old(tree).shown(),
                Some(plan) => {
                    &&& at.len() > 0
                    &&& plan.todo@.map_values(|i: usize| i as int) == at
                    &&& texts(plan.cached@) == cached_systems(
                        pairs@,
                        hit@,
                        pairs@.len() as int,
                    )
                    &&& texts(plan.labels@) == at.map_values(
                        |i: int| side_label(pairs@[i].0, pairs@[i].1),
                    )
                    &&& final(tree).shown() == old(tree).shown() + shown_nodes(enum_phase)
                        + shown_nodes(eval_phase)
                    &&& plan.enum_nodes@.len() == at.len()
                    &&& plan.eval_nodes@.len() == at.len()
                    &&& forall|gi: int|
                        0 <= gi < at.len() ==> {
                            let id = #[trigger] plan.enum_nodes@[gi];
                            &&& start <= id < start + enum_phase.len()
                            &&& enum_phase[id - start].group == Some(gi)
                        }
                    &&& forall|gi: int|
                        0 <= gi < at.len() ==> {
                            let id = #[trigger] plan.eval_nodes@[gi];
                            let first = start + enum_phase.len();
                            &&& first <= id < first + eval_phase.len()
                            &&& eval_phase[id - first].group == Some(gi)
                        }
                    &&& plan.per_worker_mb == (match opts.worker_mem_mb {
                        Some(mb) => mb,
                        None => DEFAULT_WORKER_MEM_MB,
                    })
                    &&& plan.shard_size == (match opts.shard_size {
                        Some(n) => n,
                        None => NAMES_PER_SHARD,
                    })
                },
            }
        }),
{
    let ghost label = |i: int| side_label(pairs@[i].0, pairs@[i].1);
    let ghost pair = |i: int| (pairs@[i].1@, pairs@[i].0.display@);
    let ghost place = |i: usize| i as int;
    let mut todo: Vec<usize> = Vec::new();
    let mut cached: Vec<String> = Vec::new();
    let mut groups: Vec<(String, String)> = Vec::new();
    let mut labels: Vec<String> = Vec::new();
    let mut i: usize = 0;
    while i < pairs.len()
        invariant
            i <= pairs@.len(),
            hit@.len() == pairs@.len(),
            label == (|i: int| side_label(pairs@[i].0, pairs@[i].1)),
            pair == (|i: int| (pairs@[i].1@, pairs@[i].0.display@)),
            place == (|i: usize| i as int),
            forall|i: int|
                0 <= i < pairs@.len() ==> (#[trigger] pairs@[i]).1@.len() + 4 <= usize::MAX
                    && pairs@[i].0.display@.len() + 4 <= usize::MAX,
            todo@.map_values(place) == to_evaluate(pairs@, hit@, i as int),
            texts(cached@) == cached_systems(pairs@, hit@, i as int),
            group_views(groups@) == to_evaluate(pairs@, hit@, i as int).map_values(pair),
            labels_fit(groups@),
            texts(labels@) == to_evaluate(pairs@, hit@, i as int).map_values(label),
        decreases pairs@.len() - i,
    {
        let ghost before = to_evaluate(pairs@, hit@, i as int);
        let ghost next = to_evaluate(pairs@, hit@, i + 1);
        let ghost seen = todo@;
        if hit[i] {
            let ghost cs = texts(cached@);
            cached.push(pairs[i].1.clone());
            assert(texts(cached@) =~= cs.push(pairs@[i as int].1@));
        } else {
            proof {
                lemma_to_evaluate(pairs@, hit@, i as int);
            }
            let mut k: usize = 0;
            let mut known = false;
            while k < todo.len()
                invariant
                    k <= todo@.len(),
                    i < pairs@.len(),
                    todo@ == seen,
                    place == (|i: usize| i as int),
                    before == seen.map_values(place),
                    forall|m: int|
                        0 <= m < before.len() ==> 0 <= #[trigger] before[m] < pairs@.len(),
                    known == exists|m: int|
                        0 <= m < k && eval_key(pairs@[#[trigger] before[m]]) == eval_key(
                            pairs@[i as int],
                        ),
                decreases todo@.len() - k,
            {
                assert(before[k as int] == todo@[k as int]);
                let other: &Pair = &pairs[todo[k]];
                if other.0.tree == pairs[i].0.tree && other.1 == pairs[i].1 {
                    known = true;
                    assert(eval_key(pairs@[before[k as int]]) == eval_key(pairs@[i as int]));
                }
                k += 1;
            }
            assert(known == has_key(pairs@, before, eval_key(pairs@[i as int])));
            if !known {
                let ghost (ks, gs, ls) = (
                    todo@.map_values(place),
                    group_views(groups@),
                    texts(labels@),
                );
                let ghost old_groups = groups@;
                todo.push(i);
                groups.push((pairs[i].1.clone(), pairs[i].0.display.clone()));
                labels.push(label_side(&pairs[i].0, &pairs[i].1));
                proof {
                    assert(next =~= before.push(i as int));
                    assert(todo@.map_values(place) =~= ks.push(i as int));
                    assert(group_views(groups@) =~= gs.push(pair(i as int)));
                    assert(texts(labels@) =~= ls.push(label(i as int)));
                    assert(next.map_values(pair) =~= before.map_values(pair).push(pair(i as int)));
                    assert(next.map_values(label) =~= before.map_values(label).push(
                        label(i as int),
                    ));
                    assert forall|g: int| 0 <= g < groups@.len() implies (
                    #[trigger] groups@[g]).0@.len() + 4 <= usize::MAX && groups@[g].1@.len() + 4
                        <= usize::MAX by {
                        if g < old_groups.len() {
                            assert(groups@[g] == old_groups[g]);
                        }
                    }
                }
            }
        }
        i += 1;
    }
    assert(todo@.map_values(place).len() == todo@.len());
    assert(group_views(groups@).len() == groups@.len());
    if todo.len() == 0 {
        return None;
    }
    proof {
        reveal_strlit("enumerate");
        reveal_strlit("evaluate");
    }
    let enum_nodes = add_phase(tree, "enumerate", &groups, Leaf::Plain);
    let eval_nodes = add_phase(tree, "evaluate", &groups, Leaf::Percent);
    Some(
        EvalPlan {
            todo,
            cached,
            labels,
            enum_nodes,
            eval_nodes,
            per_worker_mb: opts.per_worker_mb(),
            shard_size: opts.names_per_shard(),
        },
    )
}

impl EvalPlan {
    /// The batch of the first phase, which finds out the top-level names: one shard
    /// for each pair.
    pub fn enumerate_batch(&self, slots: usize) -> (batch: Batch)
        ensures
            batch.labels@ == self.labels@,
            batch.items@.len() == self.labels@.len(),
            forall|i: int|
                0 <= i < batch.items@.len() ==> (#[trigger] batch.items@[i])@.len() == 1,
            batch.shard_size == 1,
            batch.slots == slots,
            !batch.known_total,
    {
        let mut items: Vec<Vec<String>> = Vec::new();
        let mut i: usize = 0;
        while i < self.labels.len()
            invariant
                i <= self.labels@.len(),
                items@.len() == i,
                forall|k: int| 0 <= k < i ==> (#[trigger] items@[k])@.len() == 1,
            decreases self.labels@.len() - i,
        {
            let mut one: Vec<String> = Vec::new();
            one.push(String::new());
            items.push(one);
            i += 1;
        }
        Batch {
            labels: clone_texts(&self.labels),
            items,
            shard_size: 1,
            slots,
            known_total: false,
        }
    }

    /// The batch of the second phase, which evaluates the names that the first one
    /// found.
    pub fn evaluate_batch(&self, names: Vec<Vec<String>>, slots: usize) -> (batch: Batch)
        ensures
            batch.labels@ == self.labels@,
            batch.items == names,
            batch.shard_size == self.shard_size,
            batch.slots == slots,
            !batch.known_total,
    {
        Batch {
            labels: clone_texts(&self.labels),
            items: names,
            shard_size: self.shard_size,
            slots,
            known_total: false,
        }
    }
}

/// The pairs to evaluate that have no names, by their places among those to evaluate.
/// Nothing is left to run for such a pair: its evaluation is the empty one.
pub fn nameless(names: &[Vec<String>]) -> (out: Vec<usize>)
    ensures
        forall|g: usize| #[trigger]
            out@.contains(g) <==> g < names@.len() && names@[g as int]@.len() == 0,
        out@.no_duplicates(),
{
    let mut out: Vec<usize> = Vec::new();
    let mut g: usize = 0;
    while g < names.len()
        invariant
            g <= names@.len(),
            forall|h: usize| #[trigger]
                out@.contains(h) <==> h < g && names@[h as int]@.len() == 0,
            out@.no_duplicates(),
        decreases names@.len() - g,
    {
        if names[g].len() == 0 {
            let ghost before = out@;
            assert(!before.contains(g));
            out.push(g);
            assert forall|h: usize| #[trigger] out@.contains(h) <==> h < g + 1
                && names@[h as int]@.len() == 0 by {
                if before.contains(h) {
                    let k = choose|k: int| 0 <= k < before.len() && before[k] == h;
                    assert(out@[k] == h);
                }
                assert(out@[before.len() as int] == g);
                if out@.contains(h) {
                    let k = choose|k: int| 0 <= k < out@.len() && out@[k] == h;
                    if k < before.len() {
                        assert(before[k] == h);
                    }
                }
            }
        }
        g += 1;
    }
    out
}

/// Every pair ends up with an evaluation: it is cached, or a pair with its tree and
/// system is evaluated; and that one has no names, so that its evaluation is empty, or
/// has a shard in the run over the names, so that its rows are handed out.
pub proof fn lemma_every_pair_evaluated(
    pairs: Seq<Pair>,
    hit: Seq<bool>,
    names: Seq<Vec<String>>,
    size: int,
    i: int,
)
    requires
        0 <= i < pairs.len(),
        hit.len() == pairs.len(),
        names.len() == to_evaluate(pairs, hit, pairs.len() as int).len(),
        size >= 1,
    ensures
        ({
            let at = to_evaluate(pairs, hit, pairs.len() as int);
            hit[i] || exists|g: int|
                0 <= g < at.len() && eval_key(pairs[#[trigger] at[g]]) == eval_key(pairs[i]) && (
                names[g]@.len() == 0 || slices(g, 0, names[g]@.len() as int, size).len() > 0)
        }),
{
    let at = to_evaluate(pairs, hit, pairs.len() as int);
    lemma_evaluated_once(pairs, hit, pairs.len() as int);
    if !hit[i] {
        assert(has_key(pairs, at, eval_key(pairs[i])));
        let g = choose|g: int|
            0 <= g < at.len() && eval_key(pairs[#[trigger] at[g]]) == eval_key(pairs[i]);
        assert(eval_key(pairs[at[g]]) == eval_key(pairs[i]));
    }
}

/// The expression that evaluates one shard of the names of a pair.
pub fn evaluate_job(repo: &str, pair: &Pair, names: &[String], shard: Shard) -> (out: String)
    requires
        shard.start <= shard.end <= names@.len(),
    ensures
        out@ == shard_text(
            repo@,
            pair.0.commit@,
            pair.1@,
            texts(names@).subrange(shard.start as int, shard.end as int),
        ),
{
    let part = slice_subrange(names, shard.start, shard.end);
    assert(texts(part@) =~= texts(names@).subrange(shard.start as int, shard.end as int));
    shard_expr(repo, pair.0.commit.as_str(), pair.1.as_str(), part)
}

/// The pairs of two revisions on some systems: system by system, base before head,
/// which is the order in which the tree shows them.
pub open spec fn two_sided(base: Rev, head: Rev, systems: Seq<String>) -> Seq<Pair>
    decreases systems.len(),
{
    if systems.len() == 0 {
        Seq::empty()
    } else {
        two_sided(base, head, systems.drop_last()).push((base, systems.last())).push(
            (head, systems.last()),
        )
    }
}

/// The pairs to evaluate for a review of two revisions on some systems.
pub fn eval_two(base: &Rev, head: &Rev, systems: &[String]) -> (pairs: Vec<Pair>)
    ensures
        pairs@ == two_sided(*base, *head, systems@),
{
    let mut pairs: Vec<Pair> = Vec::new();
    let mut i: usize = 0;
    assert(systems@.take(0) =~= Seq::<String>::empty());
    while i < systems.len()
        invariant
            i <= systems@.len(),
            pairs@ == two_sided(*base, *head, systems@.take(i as int)),
        decreases systems@.len() - i,
    {
        assert(systems@.take(i + 1).drop_last() =~= systems@.take(i as int));
        pairs.push((base.clone(), systems[i].clone()));
        pairs.push((head.clone(), systems[i].clone()));
        i += 1;
    }
    assert(systems@.take(i as int) =~= systems@);
    pairs
}

// --- laws -------------------------------------------------------------------

/// A pair is evaluated if and only if it is not cached, and no pair before it that is not
/// cached is of the same tree and the same system. The pairs to evaluate stand in their
/// order, each once.
pub proof fn lemma_pair_evaluated(pairs: Seq<Pair>, hit: Seq<bool>, i: int)
    requires
        0 <= i < pairs.len(),
        hit.len() == pairs.len(),
    ensures
        ({
            let at = to_evaluate(pairs, hit, pairs.len() as int);
            &&& at.contains(i) <==> !hit[i] && forall|j: int|
                0 <= j < i && !hit[j] ==> !((#[trigger] pairs[j]).0.tree@ == pairs[i].0.tree@
                    && pairs[j].1@ == pairs[i].1@)
            &&& forall|a: int, b: int| 0 <= a < b < at.len() ==> (#[trigger] at[a]) < (
                #[trigger] at[b])
        }),
{
    lemma_evaluated_at(pairs, hit, pairs.len() as int, i);
}

/// The same, among the first pairs.
proof fn lemma_evaluated_at(pairs: Seq<Pair>, hit: Seq<bool>, n: int, i: int)
    requires
        0 <= n <= pairs.len(),
        0 <= i < pairs.len(),
        hit.len() == pairs.len(),
    ensures
        ({
            let at = to_evaluate(pairs, hit, n);
            &&& at.contains(i) <==> i < n && !hit[i] && forall|j: int|
                0 <= j < i && !hit[j] ==> !((#[trigger] pairs[j]).0.tree@ == pairs[i].0.tree@
                    && pairs[j].1@ == pairs[i].1@)
            &&& forall|a: int| 0 <= a < at.len() ==> 0 <= (#[trigger] at[a]) < n
            &&& forall|a: int, b: int| 0 <= a < b < at.len() ==> (#[trigger] at[a]) < (
                #[trigger] at[b])
        }),
    decreases n,
{
    if n > 0 {
        lemma_evaluated_at(pairs, hit, n - 1, i);
        lemma_evaluated_once(pairs, hit, n - 1);
        let before = to_evaluate(pairs, hit, n - 1);
        let now = to_evaluate(pairs, hit, n);
        if before.contains(i) {
            let k = choose|k: int| 0 <= k < before.len() && before[k] == i;
            assert(now[k] == i);
        }
        if now.contains(i) && i < n - 1 {
            let k = choose|k: int| 0 <= k < now.len() && now[k] == i;
            assert(before[k] == i);
        }
        if i == n - 1 {
            if now.contains(i) {
                assert(!before.contains(i));
                assert(now == before.push(n - 1));
                assert forall|j: int| 0 <= j < i && !hit[j] implies !((#[trigger] pairs[j]).0.tree@
                    == pairs[i].0.tree@ && pairs[j].1@ == pairs[i].1@) by {
                    assert(has_key(pairs, before, eval_key(pairs[j])));
                }
            } else {
                if !hit[i] {
                    assert(has_key(pairs, before, eval_key(pairs[i]))) by {
                        if !has_key(pairs, before, eval_key(pairs[i])) {
                            assert(now[before.len() as int] == i);
                        }
                    }
                    let k = choose|k: int|
                        0 <= k < before.len() && eval_key(pairs[#[trigger] before[k]]) == eval_key(
                            pairs[i],
                        );
                    let j = before[k];
                    lemma_evaluated_at(pairs, hit, n - 1, j);
                    assert(before.contains(j));
                    assert(pairs[j].0.tree@ == pairs[i].0.tree@ && pairs[j].1@ == pairs[i].1@);
                }
            }
        }
    }
}

/// A system is cached as often as it is that of a pair that is cached.
pub proof fn lemma_cached_systems(pairs: Seq<Pair>, hit: Seq<bool>, n: int, system: Seq<char>)
    requires
        0 <= n <= pairs.len(),
        hit.len() == pairs.len(),
    ensures
        cached_systems(pairs, hit, n).contains(system) <==> exists|i: int|
            0 <= i < n && hit[i] && (#[trigger] pairs[i]).1@ == system,
        n > 0 ==> cached_systems(pairs, hit, n).len() == cached_systems(pairs, hit, n - 1).len() + (
        if hit[n - 1] {
            1int
        } else {
            0
        }),
    decreases n,
{
    if n > 0 {
        lemma_cached_systems(pairs, hit, n - 1, system);
        let before = cached_systems(pairs, hit, n - 1);
        let now = cached_systems(pairs, hit, n);
        if before.contains(system) {
            let k = choose|k: int| 0 <= k < before.len() && before[k] == system;
            assert(now[k] == system);
        }
        if hit[n - 1] && pairs[n - 1].1@ == system {
            assert(now[before.len() as int] == system);
        }
        if now.contains(system) {
            let k = choose|k: int| 0 <= k < now.len() && now[k] == system;
            if k < before.len() {
                assert(before[k] == system);
            } else {
                assert(hit[n - 1] && pairs[n - 1].1@ == system);
            }
        }
    }
}

/// Each system is evaluated on both sides: on the base, then on the head.
pub proof fn lemma_two_sided(base: Rev, head: Rev, systems: Seq<String>, i: int)
    requires
        0 <= i < systems.len(),
    ensures
        two_sided(base, head, systems).len() == 2 * systems.len(),
        two_sided(base, head, systems)[2 * i] == (base, systems[i]),
        two_sided(base, head, systems)[2 * i + 1] == (head, systems[i]),
    decreases systems.len(),
{
    let front = systems.drop_last();
    lemma_two_sided_len(base, head, front);
    if i < front.len() {
        lemma_two_sided(base, head, front, i);
        assert(front[i] == systems[i]);
    }
}

/// There are two pairs for each system.
proof fn lemma_two_sided_len(base: Rev, head: Rev, systems: Seq<String>)
    ensures
        two_sided(base, head, systems).len() == 2 * systems.len(),
    decreases systems.len(),
{
    if systems.len() > 0 {
        lemma_two_sided_len(base, head, systems.drop_last());
    }
}

/// The requests that have something to do are those that name something, each once and
/// in their order.
pub proof fn lemma_busy(requests: Seq<Request>, n: int, i: int)
    requires
        0 <= n <= requests.len(),
        0 <= i < n,
    ensures
        busy(requests, n).contains(i) <==> requests[i].2@.len() > 0,
        forall|a: int| 0 <= a < busy(requests, n).len() ==> 0 <= (#[trigger] busy(requests, n)[a]) < n,
        forall|a: int, b: int|
            0 <= a < b < busy(requests, n).len() ==> (#[trigger] busy(requests, n)[a]) < (
            #[trigger] busy(requests, n)[b]),
    decreases n,
{
    let before = busy(requests, n - 1);
    let now = busy(requests, n);
    if n > 1 {
        lemma_busy(requests, n - 1, if i < n - 1 {
            i
        } else {
            0
        });
    }
    if before.contains(i) {
        let k = choose|k: int| 0 <= k < before.len() && before[k] == i;
        assert(now[k] == i);
    }
    if requests[n - 1].2@.len() > 0 {
        assert(now[before.len() as int] == n - 1);
    }
    if now.contains(i) && i < n - 1 {
        let k = choose|k: int| 0 <= k < now.len() && now[k] == i;
        assert(before[k] == i);
    }
    assert forall|a: int| 0 <= a < now.len() implies 0 <= (#[trigger] now[a]) < n by {
        if a < before.len() {
            assert(now[a] == before[a]);
        }
    }
}

/// The longest of some lists is as long as one of them, or one where all are empty.
pub proof fn lemma_longest_is_one(items: Seq<Seq<Seq<char>>>)
    ensures
        longest_list(items) == 1 || exists|i: int|
            0 <= i < items.len() && (#[trigger] items[i]).len() == longest_list(items),
    decreases items.len(),
{
    if items.len() > 0 {
        let front = items.drop_last();
        lemma_longest_is_one(front);
        if items.last().len() > longest_list(front) {
            assert(items[items.len() - 1].len() == longest_list(items));
        } else if longest_list(front) != 1 {
            let i = choose|i: int|
                0 <= i < front.len() && (#[trigger] front[i]).len() == longest_list(front);
            assert(items[i].len() == longest_list(items));
        }
    }
}

/// Whether a node is the leaf of a group: with the group's label, waiting, at a depth.
pub open spec fn is_leaf_of(
    nodes: Seq<PhaseNode>,
    groups: Seq<(Seq<char>, Seq<char>)>,
    gi: int,
    p: int,
    depth: int,
) -> bool {
    &&& 0 <= p < nodes.len()
    &&& nodes[p].group == Some(gi)
    &&& nodes[p].node.label == groups[gi].1
    &&& nodes[p].node.depth == depth
    &&& nodes[p].node.state is Wait
    &&& nodes[p].node.count == 0
}

/// Whether a node stands under the heading of a system: only leaves are between the two.
pub open spec fn stands_under(nodes: Seq<PhaseNode>, system: Seq<char>, q: int, p: int) -> bool {
    &&& 0 <= q < p < nodes.len()
    &&& nodes[q].group is None
    &&& nodes[q].node.label == system
    &&& nodes[q].node.depth == 1
    &&& forall|k: int| q < k <= p ==> (#[trigger] nodes[k]).group is Some && nodes[k].node.depth == 2
}

/// In a phase every group has one leaf with its own label. Where there are several
/// systems it stands under the heading of its own system, and otherwise under that of
/// the phase.
pub proof fn lemma_phase_leaves(
    phase: Seq<char>,
    groups: Seq<(Seq<char>, Seq<char>)>,
    leaf: Leaf,
    multi: bool,
    gi: int,
)
    requires
        0 <= gi < groups.len(),
    ensures
        ({
            let nodes = phase_nodes(phase, groups, leaf, multi);
            &&& nodes[0].group is None && nodes[0].node.label == phase && nodes[0].node.depth == 0
            &&& !multi ==> exists|p: int| #[trigger] is_leaf_of(nodes, groups, gi, p, 1)
            &&& multi ==> exists|p: int, q: int|
                #![trigger is_leaf_of(nodes, groups, gi, p, 2), stands_under(nodes, groups[gi].0, q, p)]
                is_leaf_of(nodes, groups, gi, p, 2) && stands_under(nodes, groups[gi].0, q, p)
            &&& forall|p: int, q: int|
                0 <= p < q < nodes.len() && (#[trigger] nodes[p]).group is Some ==> nodes[p].group
                    != (#[trigger] nodes[q]).group
        }),
{
    let nodes = phase_nodes(phase, groups, leaf, multi);
    let head = seq![PhaseNode { node: waiting(phase, 0, false, -1), group: None }];
    if multi {
        let systems = distinct(group_systems(groups));
        let body = system_nodes(groups, systems, leaf);
        crate::report::lemma_distinct(group_systems(groups));
        assert(group_systems(groups)[gi] == groups[gi].0);
        assert(systems.contains(groups[gi].0));
        lemma_system_nodes(groups, systems, leaf, gi);
        let (p, q) = choose|p: int, q: int|
            #![trigger is_leaf_of(body, groups, gi, p, 2), stands_under(body, groups[gi].0, q, p)]
            is_leaf_of(body, groups, gi, p, 2) && stands_under(body, groups[gi].0, q, p);
        assert(nodes == head + body);
        assert(is_leaf_of(nodes, groups, gi, p + 1, 2));
        assert forall|k: int| q + 1 < k <= p + 1 implies (#[trigger] nodes[k]).group is Some
            && nodes[k].node.depth == 2 by {
            assert(nodes[k] == body[k - 1]);
        }
        assert(stands_under(nodes, groups[gi].0, q + 1, p + 1));
        assert forall|a: int, b: int|
            0 <= a < b < nodes.len() && (#[trigger] nodes[a]).group is Some implies nodes[a].group
            != (#[trigger] nodes[b]).group by {
            assert(nodes[a] == body[a - 1]);
            assert(nodes[b] == body[b - 1]);
        }
    } else {
        let body = leaves(groups, groups.len() as int, None, leaf, 1);
        lemma_leaves(groups, groups.len() as int, None, leaf, 1, gi);
        let p = choose|p: int| #[trigger] is_leaf_of(body, groups, gi, p, 1);
        assert(nodes == head + body);
        assert(is_leaf_of(nodes, groups, gi, p + 1, 1));
        assert forall|a: int, b: int|
            0 <= a < b < nodes.len() && (#[trigger] nodes[a]).group is Some implies nodes[a].group
            != (#[trigger] nodes[b]).group by {
            assert(nodes[a] == body[a - 1]);
            assert(nodes[b] == body[b - 1]);
        }
    }
}

/// The leaves of the groups of a system, or of all, are one for each, in their order.
proof fn lemma_leaves(
    groups: Seq<(Seq<char>, Seq<char>)>,
    n: int,
    system: Option<Seq<char>>,
    leaf: Leaf,
    depth: int,
    gi: int,
)
    requires
        0 <= n <= groups.len(),
    ensures
        ({
            let nodes = leaves(groups, n, system, leaf, depth);
            &&& 0 <= gi < n && (system is None || system == Some(groups[gi].0)) ==> exists|p: int|
                #[trigger] is_leaf_of(nodes, groups, gi, p, depth)
            &&& forall|k: int|
                0 <= k < nodes.len() ==> {
                    &&& (#[trigger] nodes[k]).node.depth == depth
                    &&& nodes[k].group is Some
                    &&& 0 <= nodes[k].group->0 < n
                    &&& system is None || system == Some(groups[nodes[k].group->0].0)
                }
            &&& forall|a: int, b: int|
                0 <= a < b < nodes.len() ==> (#[trigger] nodes[a]).group->0 < (
                #[trigger] nodes[b]).group->0
        }),
    decreases n,
{
    if n > 0 {
        lemma_leaves(groups, n - 1, system, leaf, depth, gi);
        let before = leaves(groups, n - 1, system, leaf, depth);
        let now = leaves(groups, n, system, leaf, depth);
        if 0 <= gi < n && (system is None || system == Some(groups[gi].0)) {
            if gi < n - 1 {
                let p = choose|p: int| #[trigger] is_leaf_of(before, groups, gi, p, depth);
                assert(now[p] == before[p]);
                assert(is_leaf_of(now, groups, gi, p, depth));
            } else {
                assert(is_leaf_of(now, groups, gi, before.len() as int, depth));
            }
        }
        assert forall|k: int| 0 <= k < now.len() implies {
            &&& (#[trigger] now[k]).node.depth == depth
            &&& now[k].group is Some
            &&& 0 <= now[k].group->0 < n
            &&& system is None || system == Some(groups[now[k].group->0].0)
        } by {
            if k < before.len() {
                assert(now[k] == before[k]);
            }
        }
        assert forall|a: int, b: int| 0 <= a < b < now.len() implies (#[trigger] now[a]).group->0 < (
        #[trigger] now[b]).group->0 by {
            assert(now[a] == before[a]);
            if b < before.len() {
                assert(now[b] == before[b]);
            }
        }
    }
}

/// Every group of some systems has one leaf, under the heading of its system.
proof fn lemma_system_nodes(
    groups: Seq<(Seq<char>, Seq<char>)>,
    systems: Seq<Seq<char>>,
    leaf: Leaf,
    gi: int,
)
    requires
        0 <= gi < groups.len(),
        systems.no_duplicates(),
    ensures
        ({
            let nodes = system_nodes(groups, systems, leaf);
            &&& systems.contains(groups[gi].0) ==> exists|p: int, q: int|
                #![trigger is_leaf_of(nodes, groups, gi, p, 2), stands_under(nodes, groups[gi].0, q, p)]
                is_leaf_of(nodes, groups, gi, p, 2) && stands_under(nodes, groups[gi].0, q, p)
            &&& forall|k: int|
                0 <= k < nodes.len() && (#[trigger] nodes[k]).group is Some ==> 0
                    <= nodes[k].group->0 < groups.len() && systems.contains(
                    groups[nodes[k].group->0].0,
                )
            &&& forall|a: int, b: int|
                0 <= a < b < nodes.len() && (#[trigger] nodes[a]).group is Some ==> nodes[a].group
                    != (#[trigger] nodes[b]).group
        }),
    decreases systems.len(),
{
    if systems.len() > 0 {
        let front = systems.drop_last();
        let last = systems.last();
        let before = system_nodes(groups, front, leaf);
        let tail = leaves(groups, groups.len() as int, Some(last), leaf, 2);
        let now = system_nodes(groups, systems, leaf);
        let n = before.len() as int;
        lemma_system_nodes(groups, front, leaf, gi);
        lemma_leaves(groups, groups.len() as int, Some(last), leaf, 2, gi);
        assert(now.len() == n + 1 + tail.len());
        assert forall|k: int| 0 <= k < n implies now[k] == before[k] by {}
        assert forall|k: int| n < k < now.len() implies now[k] == tail[k - n - 1] by {}
        if systems.contains(groups[gi].0) {
            if groups[gi].0 == last {
                let p = choose|p: int| #[trigger] is_leaf_of(tail, groups, gi, p, 2);
                assert(now[n + 1 + p] == tail[p]);
                assert(is_leaf_of(now, groups, gi, n + 1 + p, 2));
                assert(stands_under(now, last, n, n + 1 + p));
            } else {
                let k = choose|k: int| 0 <= k < systems.len() && systems[k] == groups[gi].0;
                assert(front[k] == groups[gi].0);
                let (p, q) = choose|p: int, q: int|
                    #![trigger is_leaf_of(before, groups, gi, p, 2), stands_under(before, groups[gi].0, q, p)]
                    is_leaf_of(before, groups, gi, p, 2) && stands_under(
                        before,
                        groups[gi].0,
                        q,
                        p,
                    );
                assert(now[p] == before[p] && now[q] == before[q]);
                assert(is_leaf_of(now, groups, gi, p, 2));
                assert forall|j: int| q < j <= p implies (#[trigger] now[j]).group is Some
                    && now[j].node.depth == 2 by {
                    assert(now[j] == before[j]);
                }
                assert(stands_under(now, groups[gi].0, q, p));
            }
        }
        assert forall|k: int| 0 <= k < now.len() && (#[trigger] now[k]).group is Some implies 0
            <= now[k].group->0 < groups.len() && systems.contains(groups[now[k].group->0].0) by {
            if k < n {
                assert(now[k] == before[k]);
                let x = groups[now[k].group->0].0;
                let j = choose|j: int| 0 <= j < front.len() && front[j] == x;
                assert(systems[j] == x);
            } else {
                assert(now[k] == tail[k - n - 1]);
                assert(systems[systems.len() - 1] == last);
            }
        }
        assert forall|a: int, b: int|
            0 <= a < b < now.len() && (#[trigger] now[a]).group is Some implies now[a].group != (
        #[trigger] now[b]).group by {
            if b < n {
                assert(now[a] == before[a] && now[b] == before[b]);
            } else if b > n {
                assert(now[b] == tail[b - n - 1]);
                if a > n {
                    assert(now[a] == tail[a - n - 1]);
                } else if a < n {
                    assert(now[a] == before[a]);
                    assert(front.contains(groups[now[a].group->0].0));
                    let j = choose|j: int|
                        0 <= j < front.len() && front[j] == groups[now[a].group->0].0;
                    assert(systems[j] != systems[systems.len() - 1]);
                }
            }
        }
    }
}

/// A plain leaf has no count, a counting one has, and one of shards shows a percentage.
pub proof fn lemma_leaf_kinds(label: Seq<char>, depth: int)
    ensures
        !leaf_node(Leaf::Plain, label, depth).counter,
        leaf_node(Leaf::Plain, label, depth).shards is None,
        leaf_node(Leaf::Count, label, depth).counter,
        leaf_node(Leaf::Count, label, depth).shards is None,
        leaf_node(Leaf::Percent, label, depth).counter,
        leaf_node(Leaf::Percent, label, depth).shards == Some((0int, 0int)),
{
}

/// A side is called after its revision and its system, and its tests after both too.
pub proof fn lemma_side_labels(r: Request)
    ensures
        (r.0.display@ + " "@).is_prefix_of(side_label(r.0, r.1)),
        (" "@ + r.1@).is_suffix_of(side_label(r.0, r.1)),
        ("tests "@ + r.0.display@ + " ("@).is_prefix_of(tests_label(r)),
        ("("@ + r.1@ + ")"@).is_suffix_of(tests_label(r)),
{
    reveal_strlit(" ");
    reveal_strlit("(");
    reveal_strlit(" (");
    reveal_strlit(")");
    let side = side_label(r.0, r.1);
    let tests = tests_label(r);
    let (a, b) = (r.0.display@ + " "@, " "@ + r.1@);
    let (c, d) = ("tests "@ + r.0.display@ + " ("@, "("@ + r.1@ + ")"@);
    assert(side.subrange(0, a.len() as int) =~= a);
    assert(side.subrange(side.len() - b.len(), side.len() as int) =~= b);
    assert(tests.subrange(0, c.len() as int) =~= c);
    assert(tests.subrange(tests.len() - d.len(), tests.len() as int) =~= d);
}

/// The groups of what is instantiated are the requests that have something to do, each by
/// its system and shown as its revision is.
pub proof fn lemma_busy_groups(requests: Seq<Request>, k: int)
    requires
        0 <= k < busy(requests, requests.len() as int).len(),
    ensures
        busy_groups(requests).len() == busy(requests, requests.len() as int).len(),
        busy_groups(requests)[k].0 == requests[busy(requests, requests.len() as int)[k]].1@,
        busy_groups(requests)[k].1 == requests[busy(
            requests,
            requests.len() as int,
        )[k]].0.display@,
{
}

/// Groups, lists and requests are seen as their parts say: a group by its system, then its
/// label, and a list or a request by what it names, in its order.
pub proof fn lemma_groups_seen_as(
    groups: Seq<(String, String)>,
    items: Seq<Vec<String>>,
    requests: Seq<Request>,
    i: int,
)
    requires
        0 <= i < groups.len(),
        i < items.len(),
        i < requests.len(),
    ensures
        group_views(groups).len() == groups.len(),
        group_views(groups)[i].0 == groups[i].0@,
        group_views(groups)[i].1 == groups[i].1@,
        group_systems(group_views(groups))[i] == groups[i].0@,
        item_texts(items).len() == items.len(),
        item_texts(items)[i] == texts(items[i]@),
        request_items(requests).len() == requests.len(),
        request_items(requests)[i] == texts(requests[i].2@),
{
}

} // verus!
