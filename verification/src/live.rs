//! The live progress display.
//!
//! [`Tree`] is the one progress tree of a run: every piece of nontrivial work is
//! a node of it, blue while it waits, yellow while it runs and green once it is
//! done. [`Live`] redraws a block of lines in place. Each line is cut to the
//! width of the terminal, so that it takes one row and moving the cursor up by
//! the number of lines lands on the top of the block, even after a resize. A
//! frame is one string, written at once; content is overwritten and never
//! blanked first; a line that has not changed is stepped over; and the whole
//! frame stands in the synchronized output mode of terminals that have one.

use vstd::prelude::*;

use crate::outside::{cyan, now, seconds_since, stderr_is_term, truncate, truncated};
use crate::search::{char_position, line_texts, split_lines};
use crate::text::{
    decimal, push_decimal, push_repeated, push_right_aligned, push_signed_decimal, repeated,
    right_aligned, signed_decimal, texts,
};

verus! {

// --- pieces of a line -------------------------------------------------------

/// Dull ANSI colours.
pub const BLUE: &'static str = "\x1b[34m";

pub const YELLOW: &'static str = "\x1b[33m";

pub const GREEN: &'static str = "\x1b[32m";

pub const CYAN: &'static str = "\x1b[36m";

pub const DIM: &'static str = "\x1b[90m";

pub const RESET: &'static str = "\x1b[0m";

/// Two spaces per tree level.
pub const INDENT: &'static str = "  ";

/// The width of each number column: a count, and its total.
pub const NUM_W: usize = 6;

/// The spinner's frame at tick `n`.
pub open spec fn frame_at(n: int) -> Seq<char> {
    seq!["⠋"@, "⠙"@, "⠹"@, "⠸"@, "⠼"@, "⠴"@, "⠦"@, "⠧"@, "⠇"@, "⠏"@][n % 10]
}

/// Whether `s` is the spinner at tick `n`: its frame, in cyan where colours are
/// enabled.
pub open spec fn is_spinner(s: Seq<char>, n: int) -> bool {
    s == frame_at(n) || s == CYAN@ + frame_at(n) + RESET@
}

/// The cyan spinner glyph for tick `n`.
pub fn spinner(n: usize) -> (out: String)
    ensures
        is_spinner(out@, n as int),
{
    let frame = match n % 10 {
        0 => "⠋",
        1 => "⠙",
        2 => "⠹",
        3 => "⠸",
        4 => "⠼",
        5 => "⠴",
        6 => "⠦",
        7 => "⠧",
        8 => "⠇",
        _ => "⠏",
    };
    cyan(frame)
}

/// A number in decimal, padded with zeros to two digits.
pub open spec fn two_digits(n: nat) -> Seq<char> {
    right_aligned(decimal(n), 2, '0')
}

/// A time in hours, minutes and seconds, without the leading fields that are
/// zero.
pub open spec fn clock(secs: nat) -> Seq<char> {
    let (h, m, s) = (secs / 3600, secs / 60 % 60, secs % 60);
    if h > 0 {
        decimal(h) + "h"@ + two_digits(m) + "m"@ + two_digits(s) + "s"@
    } else if m > 0 {
        decimal(m) + "m"@ + two_digits(s) + "s"@
    } else {
        decimal(s) + "s"@
    }
}

/// A clock at its fixed width.
pub open spec fn clock_column(secs: nat) -> Seq<char> {
    right_aligned(clock(secs), 8, ' ')
}

/// Appends `n` in two digits.
fn push_two_digits(out: &mut String, n: u64)
    ensures
        final(out)@ == old(out)@ + two_digits(n as nat),
{
    let mut digits = String::new();
    push_decimal(&mut digits, n);
    push_right_aligned(out, digits.as_str(), 2, '0');
}

/// Elapsed time as a clock, padded on the left to a fixed width so that the text
/// after it does not shift as it grows.
pub fn human_elapsed(secs: u64) -> (out: String)
    ensures
        out@ == clock_column(secs as nat),
{
    let h: u64 = secs / 3600;
    let m: u64 = secs / 60 % 60;
    let s: u64 = secs % 60;
    let mut text = String::new();
    if h > 0 {
        push_decimal(&mut text, h);
        text.append("h");
        push_two_digits(&mut text, m);
        text.append("m");
        push_two_digits(&mut text, s);
        text.append("s");
    } else if m > 0 {
        push_decimal(&mut text, m);
        text.append("m");
        push_two_digits(&mut text, s);
        text.append("s");
    } else {
        push_decimal(&mut text, s);
        text.append("s");
    }
    assert(text@ =~= clock(secs as nat));
    let mut out = String::new();
    push_right_aligned(&mut out, text.as_str(), 8, ' ');
    assert(out@ =~= clock_column(secs as nat));
    out
}

// --- nodes ------------------------------------------------------------------

/// How far a node has come.
#[derive(Debug, Clone, Copy, PartialEq, Eq, Structural)]
pub enum Progress {
    Wait,
    Run,
    Done,
}

/// A node in the progress [`Tree`]. `counter` marks a node that shows a running
/// count once it is active; a node without a count carries only a state colour.
/// A node with `shards` also shows how much of its work has landed.
pub struct Node {
    pub label: String,
    pub depth: usize,
    pub counter: bool,
    pub state: Progress,
    /// Items done.
    pub count: i64,
    /// The denominator of the progress, or `-1` where it is not known.
    pub total: i64,
    /// How many shards of work have landed, and how many there are.
    pub shards: Option<(usize, usize)>,
}

/// What a node shows.
pub struct NodeView {
    pub label: Seq<char>,
    pub depth: int,
    pub counter: bool,
    pub state: Progress,
    pub count: int,
    pub total: int,
    pub shards: Option<(int, int)>,
}

impl View for Node {
    type V = NodeView;

    open spec fn view(&self) -> NodeView {
        NodeView {
            label: self.label@,
            depth: self.depth as int,
            counter: self.counter,
            state: self.state,
            count: self.count as int,
            total: self.total as int,
            shards: match self.shards {
                Some((done, total)) => Some((done as int, total as int)),
                None => None,
            },
        }
    }
}

/// A node that waits.
pub open spec fn waiting(label: Seq<char>, depth: int, counter: bool, total: int) -> NodeView {
    NodeView { label, depth, counter, state: Progress::Wait, count: 0, total, shards: None }
}

/// A counting node that waits and will show how much of its work has landed.
pub open spec fn waiting_percent(label: Seq<char>, depth: int) -> NodeView {
    NodeView { shards: Some((0, 0)), ..waiting(label, depth, true, -1) }
}

impl Node {
    fn new(label: &str, depth: usize, counter: bool, total: i64) -> (node: Self)
        ensures
            node@ == waiting(label@, depth as int, counter, total as int),
    {
        Node {
            label: label.to_owned(),
            depth,
            counter,
            state: Progress::Wait,
            count: 0,
            total,
            shards: None,
        }
    }

    /// Starts a node that waits; one that has started or finished stays as it is.
    pub fn set_running(&mut self)
        ensures
            final(self)@ == (NodeView {
                state: if old(self)@.state == Progress::Wait {
                    Progress::Run
                } else {
                    old(self)@.state
                },
                ..old(self)@
            }),
    {
        if self.state == Progress::Wait {
            self.state = Progress::Run;
        }
    }

    /// Marks the node as done.
    pub fn set_done(&mut self)
        ensures
            final(self)@ == (NodeView { state: Progress::Done, ..old(self)@ }),
    {
        self.state = Progress::Done;
    }

    /// Adds `n` to the running count, which wraps around at the machine's limits.
    pub fn add_count(&mut self, n: i64)
        ensures
            final(self)@ == (NodeView {
                count: wrapped(old(self)@.count + n),
                ..old(self)@
            }),
    {
        self.count = self.count.wrapping_add(n);
    }

    /// Pins the count to an exact value.
    pub fn set_count(&mut self, n: i64)
        ensures
            final(self)@ == (NodeView { count: n as int, ..old(self)@ }),
    {
        self.count = n;
    }

    /// Sets the denominator.
    pub fn set_total(&mut self, n: i64)
        ensures
            final(self)@ == (NodeView { total: n as int, ..old(self)@ }),
    {
        self.total = n;
    }

    /// Sets how many shards of work there are, on a node that shows how much of it has
    /// landed; another one stays as it is.
    pub fn set_shards_total(&mut self, total: usize)
        ensures
            final(self)@ == (NodeView {
                shards: match old(self)@.shards {
                    Some((done, _)) => Some((done, total as int)),
                    None => None,
                },
                ..old(self)@
            }),
    {
        if let Some((done, _)) = self.shards {
            self.shards = Some((done, total));
        }
    }

    /// Sets how many shards of work have landed, on a node that shows it; another one
    /// stays as it is.
    pub fn shard_progress(&mut self, done: usize)
        ensures
            final(self)@ == (NodeView {
                shards: match old(self)@.shards {
                    Some((_, total)) => Some((done as int, total)),
                    None => None,
                },
                ..old(self)@
            }),
    {
        if let Some((_, total)) = self.shards {
            self.shards = Some((done, total));
        }
    }
}

/// The signed 64-bit number that agrees with `i`, but for the bits beyond.
pub open spec fn wrapped(i: int) -> int {
    if i > i64::MAX {
        i - 0x1_0000_0000_0000_0000
    } else if i < i64::MIN {
        i + 0x1_0000_0000_0000_0000
    } else {
        i
    }
}

// --- the states of a tree ---------------------------------------------------

/// The nodes of a tree, in order.
pub open spec fn views(nodes: Seq<Node>) -> Seq<NodeView> {
    nodes.map_values(|n: Node| n@)
}

/// Whether node `j` lies below node `i`: it follows, and no node between them
/// is as high as `i`.
pub open spec fn below(nodes: Seq<NodeView>, i: int, j: int) -> bool {
    &&& 0 <= i < j < nodes.len()
    &&& forall|k: int| i < k <= j ==> (#[trigger] nodes[k]).depth > nodes[i].depth
}

/// Whether nothing lies below node `j`.
pub open spec fn is_leaf(nodes: Seq<NodeView>, j: int) -> bool {
    j + 1 >= nodes.len() || nodes[j + 1].depth <= nodes[j].depth
}

/// Whether node `j` is a leaf below node `i`, in state `state`.
pub open spec fn leaf_in(nodes: Seq<NodeView>, i: int, j: int, state: Progress) -> bool {
    below(nodes, i, j) && is_leaf(nodes, j) && nodes[j].state == state
}

/// Whether some leaf below node `i` is in state `state`.
pub open spec fn some_leaf(nodes: Seq<NodeView>, i: int, state: Progress) -> bool {
    exists|j: int| #[trigger] leaf_in(nodes, i, j, state)
}

/// The state of node `i` as its leaves give it: running where one runs, or where
/// one is done and one waits; done where all are done; otherwise waiting. A node
/// with nothing below it has its own state.
pub open spec fn effective(nodes: Seq<NodeView>, i: int) -> Progress {
    let run = some_leaf(nodes, i, Progress::Run);
    let done = some_leaf(nodes, i, Progress::Done);
    let wait = some_leaf(nodes, i, Progress::Wait);
    if !run && !done && !wait {
        nodes[i].state
    } else if run || (done && wait) {
        Progress::Run
    } else if done {
        Progress::Done
    } else {
        Progress::Wait
    }
}

/// The rolled-up state of node `i`.
fn eff_state(nodes: &[Node], i: usize) -> (state: Progress)
    requires
        i < nodes@.len(),
    ensures
        state == effective(views(nodes@), i as int),
{
    let ghost vs = views(nodes@);
    let len: usize = nodes.len();
    let d: usize = nodes[i].depth;
    let mut any_run: bool = false;
    let mut any_done: bool = false;
    let mut any_wait: bool = false;
    let mut j: usize = i + 1;
    while j < len && nodes[j].depth > d
        invariant
            i < j <= nodes@.len(),
            len == nodes@.len(),
            vs == views(nodes@),
            d == vs[i as int].depth,
            forall|k: int| i < k < j ==> (#[trigger] vs[k]).depth > d,
            any_run == exists|k: int| k < j && #[trigger] leaf_in(vs, i as int, k, Progress::Run),
            any_done == exists|k: int|
                k < j && #[trigger] leaf_in(vs, i as int, k, Progress::Done),
            any_wait == exists|k: int|
                k < j && #[trigger] leaf_in(vs, i as int, k, Progress::Wait),
        decreases nodes@.len() - j,
    {
        let leaf = j + 1 >= len || nodes[j + 1].depth <= nodes[j].depth;
        assert(leaf == is_leaf(vs, j as int));
        assert(below(vs, i as int, j as int));
        if leaf {
            match nodes[j].state {
                Progress::Run => {
                    assert(leaf_in(vs, i as int, j as int, Progress::Run));
                    any_run = true;
                },
                Progress::Done => {
                    assert(leaf_in(vs, i as int, j as int, Progress::Done));
                    any_done = true;
                },
                Progress::Wait => {
                    assert(leaf_in(vs, i as int, j as int, Progress::Wait));
                    any_wait = true;
                },
            }
        }
        j += 1;
    }
    proof {
        assert forall|k: int, s: Progress| #[trigger] leaf_in(vs, i as int, k, s) implies k < j by {
            if k >= j {
                assert(vs[j as int].depth > d);
            }
        }
    }
    if any_run {
        Progress::Run
    } else if any_done && any_wait {
        Progress::Run
    } else if any_done {
        Progress::Done
    } else if any_wait {
        Progress::Wait
    } else {
        nodes[i].state
    }
}

/// The colour of a state.
pub open spec fn color_of(state: Progress) -> Seq<char> {
    match state {
        Progress::Run => YELLOW@,
        Progress::Done => GREEN@,
        Progress::Wait => BLUE@,
    }
}

fn state_color(state: Progress) -> (color: &'static str)
    ensures
        color@ == color_of(state),
{
    match state {
        Progress::Run => YELLOW,
        Progress::Done => GREEN,
        Progress::Wait => BLUE,
    }
}

// --- the lines of a tree ----------------------------------------------------

/// The characters that a node's indent and label take.
pub open spec fn label_width(node: NodeView) -> int {
    2 * node.depth + node.label.len()
}

/// The column at which the numbers start: past the widest label, and no less
/// than `least`.
pub open spec fn left_width(nodes: Seq<NodeView>, least: int) -> int
    decreases nodes.len(),
{
    if nodes.len() == 0 {
        least
    } else {
        let before = left_width(nodes.drop_last(), least);
        if label_width(nodes.last()) > before {
            label_width(nodes.last())
        } else {
            before
        }
    }
}

/// The indent and label of a node.
pub open spec fn left_text(node: NodeView) -> Seq<char> {
    repeated(INDENT@, node.depth as nat) + node.label
}

/// A number in its column.
pub open spec fn number_column(n: int) -> Seq<char> {
    right_aligned(signed_decimal(n), 6, ' ')
}

/// How much of some work has landed, in whole percent.
pub open spec fn percent(done: int, total: int) -> int {
    if done >= total {
        100
    } else {
        done * 100 / total
    }
}

/// A percentage in its column.
pub open spec fn percent_column(done: int, total: int) -> Seq<char> {
    right_aligned(decimal(percent(done, total) as nat), 5, ' ') + "%"@
}

/// What follows the count while the node runs, dim: how much of its work has landed
/// where it shows that, else the total where it has one.
pub open spec fn tail_text(node: NodeView, state: Progress, color: bool) -> Seq<char> {
    let text = match node.shards {
        Some((done, total)) => percent_column(done, total),
        None => " / "@ + number_column(node.total),
    };
    if state == Progress::Run && (node.shards is Some || node.total >= 0) {
        if color {
            DIM@ + text + RESET@
        } else {
            text
        }
    } else {
        Seq::empty()
    }
}

/// The line of a node in state `state`, where the numbers start at column
/// `left_w`. Only the label carries the colour. A count shows only on a counter
/// that no longer waits.
pub open spec fn node_line(
    node: NodeView,
    state: Progress,
    left_w: int,
    color: bool,
) -> Seq<char> {
    let left = left_text(node);
    if node.counter && state != Progress::Wait {
        let padded = left + repeated(" "@, (left_w - label_width(node)) as nat);
        let numbers = "  "@ + number_column(node.count) + tail_text(node, state, color);
        if color {
            color_of(state) + padded + RESET@ + numbers
        } else {
            padded + numbers
        }
    } else if color {
        color_of(state) + left + RESET@
    } else {
        left
    }
}

/// The lines of all nodes.
pub open spec fn node_lines(nodes: Seq<NodeView>, least: int, color: bool) -> Seq<Seq<char>> {
    Seq::new(
        nodes.len(),
        |i: int| node_line(nodes[i], effective(nodes, i), left_width(nodes, least), color),
    )
}

/// Whether `s` is the line under the nodes: the spinner of a tick, or a resting
/// dot, and the clock.
pub open spec fn is_footer(s: Seq<char>, tick: Option<usize>, color: bool, secs: nat) -> bool {
    match tick {
        Some(t) => exists|spin: Seq<char>| #[trigger]
            is_spinner(spin, t as int) && s == spin + " "@ + clock_column(secs),
        None => if color {
            s == CYAN@ + "."@ + RESET@ + " "@ + clock_column(secs)
        } else {
            s == ". "@ + clock_column(secs)
        },
    }
}

/// Whether `out` is the frame of a tree: nothing where it has no nodes, else one
/// line for each node and the footer.
pub open spec fn is_frame(
    out: Seq<Seq<char>>,
    nodes: Seq<NodeView>,
    least: int,
    tick: Option<usize>,
    color: bool,
    secs: u64,
) -> bool {
    if nodes.len() == 0 {
        out.len() == 0
    } else {
        &&& out.len() == nodes.len() + 1
        &&& out.drop_last() == node_lines(nodes, least, color)
        &&& is_footer(out.last(), tick, color, secs as nat)
    }
}

/// The widest label is no narrower than any label.
proof fn lemma_left_width(nodes: Seq<NodeView>, least: int)
    ensures
        least <= left_width(nodes, least),
        forall|i: int|
            0 <= i < nodes.len() ==> label_width(#[trigger] nodes[i]) <= left_width(nodes, least),
    decreases nodes.len(),
{
    if nodes.len() > 0 {
        lemma_left_width(nodes.drop_last(), least);
        assert forall|i: int| 0 <= i < nodes.len() implies label_width(#[trigger] nodes[i])
            <= left_width(nodes, least) by {
            if i < nodes.len() - 1 {
                assert(nodes.drop_last()[i] == nodes[i]);
            }
        }
    }
}

/// Appends a number in its column.
fn push_number(out: &mut String, n: i64)
    ensures
        final(out)@ == old(out)@ + number_column(n as int),
{
    let mut digits = String::new();
    push_signed_decimal(&mut digits, n);
    assert(digits@ =~= signed_decimal(n as int));
    push_right_aligned(out, digits.as_str(), NUM_W, ' ');
}

/// The indent and label of a node, padded by `pad` spaces.
fn padded_left(node: &Node, pad: usize) -> (out: String)
    ensures
        out@ == left_text(node@) + repeated(" "@, pad as nat),
{
    let mut out = String::new();
    push_repeated(&mut out, INDENT, node.depth);
    out.append(node.label.as_str());
    assert(out@ =~= left_text(node@));
    push_repeated(&mut out, " ", pad);
    out
}

/// Appends how much of some work has landed, in its column.
fn push_percent(out: &mut String, done: usize, total: usize)
    ensures
        final(out)@ == old(out)@ + percent_column(done as int, total as int),
{
    let ghost start = out@;
    let p: u64 = if done >= total {
        100
    } else {
        proof {
            lemma_percent(done as int, done as int, total as int);
        }
        (done as u128 * 100 / total as u128) as u64
    };
    let mut digits = String::new();
    push_decimal(&mut digits, p);
    push_right_aligned(out, digits.as_str(), 5, ' ');
    out.append("%");
    assert(out@ =~= start + percent_column(done as int, total as int));
}

/// What follows the count of a node.
fn tail_of(node: &Node, state: Progress, color: bool) -> (out: String)
    ensures
        out@ == tail_text(node@, state, color),
{
    let mut out = String::new();
    if state == Progress::Run && (node.shards.is_some() || node.total >= 0) {
        if color {
            out.append(DIM);
        }
        match node.shards {
            Some((done, total)) => push_percent(&mut out, done, total),
            None => {
                out.append(" / ");
                push_number(&mut out, node.total);
            },
        }
        if color {
            out.append(RESET);
        }
    }
    assert(out@ =~= tail_text(node@, state, color));
    out
}

/// The line of one node.
fn line_of(node: &Node, state: Progress, left_w: usize, color: bool) -> (line: String)
    requires
        label_width(node@) <= left_w,
    ensures
        line@ == node_line(node@, state, left_w as int, color),
{
    let counts = node.counter && state != Progress::Wait;
    let label_len: usize = node.label.as_str().unicode_len();
    let pad: usize = if counts {
        left_w - 2 * node.depth - label_len
    } else {
        0
    };
    let left = padded_left(node, pad);
    assert(!counts ==> left@ =~= left_text(node@));
    let mut line = String::new();
    if color {
        line.append(state_color(state));
    }
    line.append(left.as_str());
    if color {
        line.append(RESET);
    }
    assert(line@ =~= (if color {
        color_of(state) + left@ + RESET@
    } else {
        left@
    }));
    if counts {
        let ghost before = line@;
        line.append("  ");
        push_number(&mut line, node.count);
        line.append(tail_of(node, state, color).as_str());
        assert(line@ =~= before + ("  "@ + number_column(node@.count) + tail_text(
            node@,
            state,
            color,
        )));
    }
    line
}

/// The one live progress tree of a run. Nodes are only ever added. The number
/// columns start at a width fixed up front, so that nothing shifts as phases
/// appear.
pub struct Tree {
    pub nodes: Vec<Node>,
    pub start: std::time::Instant,
    pub min_label_w: usize,
    pub multi: bool,
    /// Whether the frozen frame is coloured.
    pub color: bool,
}

impl Tree {
    /// Every label fits a line.
    pub open spec fn wf(&self) -> bool {
        forall|i: int|
            0 <= i < self.nodes@.len() ==> label_width(#[trigger] views(self.nodes@)[i])
                <= usize::MAX
    }

    /// The nodes, as they show.
    pub open spec fn shown(&self) -> Seq<NodeView> {
        views(self.nodes@)
    }

    /// An empty tree, the frozen frame of which is coloured where standard error
    /// is a terminal.
    pub fn new(min_label_w: usize, multi: bool) -> (tree: Self)
        ensures
            tree.wf(),
            tree.shown().len() == 0,
            tree.min_label_w == min_label_w,
            tree.multi == multi,
    {
        Tree::with_color(min_label_w, multi, stderr_is_term())
    }

    /// An empty tree.
    pub fn with_color(min_label_w: usize, multi: bool, color: bool) -> (tree: Self)
        ensures
            tree.wf(),
            tree.shown().len() == 0,
            tree.min_label_w == min_label_w,
            tree.multi == multi,
            tree.color == color,
    {
        Tree { nodes: Vec::new(), start: now(), min_label_w, multi, color }
    }

    /// Whether the run spans more than one system, so that phases nest a system
    /// level.
    pub fn multi(&self) -> (multi: bool)
        ensures
            multi == self.multi,
    {
        self.multi
    }

    /// Appends a node.
    fn add_node(&mut self, node: Node) -> (id: usize)
        requires
            old(self).wf(),
            label_width(node@) <= usize::MAX,
        ensures
            final(self).wf(),
            final(self).shown() == old(self).shown().push(node@),
            id == old(self).shown().len(),
            final(self).min_label_w == old(self).min_label_w,
            final(self).multi == old(self).multi,
            final(self).color == old(self).color,
            final(self).start == old(self).start,
    {
        let id: usize = self.nodes.len();
        let ghost before = self.shown();
        self.nodes.push(node);
        assert(self.shown() =~= before.push(node@));
        id
    }

    /// Appends a node without a count: a phase, a system, a network ref. Returns
    /// its place in the tree.
    pub fn node(&mut self, label: &str, depth: usize) -> (id: usize)
        requires
            old(self).wf(),
            2 * depth + label@.len() <= usize::MAX,
        ensures
            final(self).wf(),
            final(self).shown() == old(self).shown().push(
                waiting(label@, depth as int, false, -1),
            ),
            id == old(self).shown().len(),
            final(self).min_label_w == old(self).min_label_w,
            final(self).multi == old(self).multi,
            final(self).color == old(self).color,
            final(self).start == old(self).start,
    {
        self.add_node(Node::new(label, depth, false, -1))
    }

    /// Appends a counting leaf; `total` is `-1` where the denominator is not
    /// known. Returns its place in the tree.
    pub fn counter(&mut self, label: &str, depth: usize, total: i64) -> (id: usize)
        requires
            old(self).wf(),
            2 * depth + label@.len() <= usize::MAX,
        ensures
            final(self).wf(),
            final(self).shown() == old(self).shown().push(
                waiting(label@, depth as int, true, total as int),
            ),
            id == old(self).shown().len(),
            final(self).min_label_w == old(self).min_label_w,
            final(self).multi == old(self).multi,
            final(self).color == old(self).color,
            final(self).start == old(self).start,
    {
        self.add_node(Node::new(label, depth, true, total))
    }

    /// Appends a counting leaf that shows how much of its work has landed. Returns
    /// its place in the tree.
    pub fn percent(&mut self, label: &str, depth: usize) -> (id: usize)
        requires
            old(self).wf(),
            2 * depth + label@.len() <= usize::MAX,
        ensures
            final(self).wf(),
            final(self).shown() == old(self).shown().push(waiting_percent(label@, depth as int)),
            id == old(self).shown().len(),
            final(self).min_label_w == old(self).min_label_w,
            final(self).multi == old(self).multi,
            final(self).color == old(self).color,
            final(self).start == old(self).start,
    {
        let mut node = Node::new(label, depth, true, -1);
        node.shards = Some((0, 0));
        self.add_node(node)
    }

    /// The node at `id`, to be changed.
    pub fn at(&mut self, id: usize) -> (node: &mut Node)
        requires
            id < old(self).nodes@.len(),
        ensures
            *node == old(self).nodes@[id as int],
            final(self).nodes@ == old(self).nodes@.update(id as int, *final(node)),
            final(self).min_label_w == old(self).min_label_w,
            final(self).multi == old(self).multi,
            final(self).color == old(self).color,
            final(self).start == old(self).start,
    {
        &mut self.nodes[id]
    }

    /// Whether nothing has been added.
    pub fn is_empty(&self) -> (empty: bool)
        ensures
            empty == (self.shown().len() == 0),
    {
        self.nodes.len() == 0
    }

    /// The live frame for tick `t`: the lines of the nodes, then the spinner and
    /// the clock.
    pub fn render(&self, t: usize) -> (out: Vec<String>)
        requires
            self.wf(),
        ensures
            exists|secs: u64|
                #[trigger] is_frame(
                    texts(out@),
                    self.shown(),
                    self.min_label_w as int,
                    Some(t),
                    true,
                    secs,
                ),
    {
        let secs = seconds_since(&self.start);
        let out = self.lines(Some(t), true, secs);
        assert(is_frame(
            texts(out@),
            self.shown(),
            self.min_label_w as int,
            Some(t),
            true,
            secs,
        ));
        out
    }

    /// The frozen frame, for the scrollback: the same lines, with a resting dot in
    /// place of the spinner.
    pub fn render_frozen(&self) -> (out: Vec<String>)
        requires
            self.wf(),
        ensures
            exists|secs: u64|
                #[trigger] is_frame(
                    texts(out@),
                    self.shown(),
                    self.min_label_w as int,
                    None,
                    self.color,
                    secs,
                ),
    {
        let secs = seconds_since(&self.start);
        let out = self.lines(None, self.color, secs);
        assert(is_frame(
            texts(out@),
            self.shown(),
            self.min_label_w as int,
            None,
            self.color,
            secs,
        ));
        out
    }

    /// The frame after `secs` seconds.
    pub fn lines(&self, tick: Option<usize>, color: bool, secs: u64) -> (out: Vec<String>)
        requires
            self.wf(),
        ensures
            is_frame(
                texts(out@),
                self.shown(),
                self.min_label_w as int,
                tick,
                color,
                secs,
            ),
    {
        let ghost vs = self.shown();
        let mut out: Vec<String> = Vec::new();
        if self.nodes.len() == 0 {
            return out;
        }
        let mut left_w: usize = self.min_label_w;
        let mut i: usize = 0;
        assert(vs.take(0) =~= Seq::<NodeView>::empty());
        while i < self.nodes.len()
            invariant
                i <= self.nodes@.len(),
                vs == self.shown(),
                self.wf(),
                left_w == left_width(vs.take(i as int), self.min_label_w as int),
            decreases self.nodes@.len() - i,
        {
            assert(label_width(vs[i as int]) <= usize::MAX);
            let label_len: usize = self.nodes[i].label.as_str().unicode_len();
            let w: usize = 2 * self.nodes[i].depth + label_len;
            if w > left_w {
                left_w = w;
            }
            assert(vs.take(i + 1).drop_last() =~= vs.take(i as int));
            i += 1;
        }
        assert(vs.take(i as int) =~= vs);
        proof {
            lemma_left_width(vs, self.min_label_w as int);
        }
        let ghost wanted = node_lines(vs, self.min_label_w as int, color);
        let mut i: usize = 0;
        while i < self.nodes.len()
            invariant
                i <= self.nodes@.len(),
                vs == self.shown(),
                wanted == node_lines(vs, self.min_label_w as int, color),
                left_w == left_width(vs, self.min_label_w as int),
                forall|k: int| 0 <= k < vs.len() ==> label_width(#[trigger] vs[k]) <= left_w,
                texts(out@) == wanted.take(i as int),
            decreases self.nodes@.len() - i,
        {
            let state = eff_state(&self.nodes, i);
            let ghost before = texts(out@);
            assert(label_width(vs[i as int]) <= left_w);
            out.push(line_of(&self.nodes[i], state, left_w, color));
            assert(texts(out@) =~= before.push(wanted[i as int]));
            assert(wanted.take(i + 1) =~= wanted.take(i as int).push(wanted[i as int]));
            i += 1;
        }
        assert(wanted.take(i as int) =~= wanted);
        let mut footer = String::new();
        match tick {
            Some(t) => {
                let spin = spinner(t);
                footer.append(spin.as_str());
                footer.append(" ");
                footer.append(human_elapsed(secs).as_str());
                assert(footer@ =~= spin@ + " "@ + clock_column(secs as nat));
                assert(is_spinner(spin@, t as int));
            },
            None => {
                if color {
                    footer.append(CYAN);
                    footer.append(".");
                    footer.append(RESET);
                    footer.append(" ");
                } else {
                    footer.append(". ");
                }
                footer.append(human_elapsed(secs).as_str());
                assert(color ==> footer@ =~= CYAN@ + "."@ + RESET@ + " "@ + clock_column(
                    secs as nat,
                ));
                assert(!color ==> footer@ =~= ". "@ + clock_column(secs as nat));
            },
        }
        let ghost before = texts(out@);
        let ghost last = footer@;
        assert(is_footer(last, tick, color, secs as nat));
        out.push(footer);
        assert(texts(out@) =~= before.push(last));
        assert(texts(out@).drop_last() =~= wanted);
        out
    }
}


// --- the width of a tree ----------------------------------------------------

/// The names of the phases.
pub open spec fn phases() -> Seq<Seq<char>> {
    seq![
        "fetch"@,
        "download"@,
        "enumerate"@,
        "evaluate"@,
        "tests"@,
        "instantiate"@,
        "probe"@,
    ]
}

/// The larger of two numbers.
pub open spec fn larger(a: int, b: int) -> int {
    if a >= b {
        a
    } else {
        b
    }
}

/// The length of the longest of some texts, or `least`.
pub open spec fn longest(parts: Seq<Seq<char>>, least: int) -> int
    decreases parts.len(),
{
    if parts.len() == 0 {
        least
    } else {
        larger(longest(parts.drop_last(), least), parts.last().len() as int)
    }
}

/// The ref under which the merge of a pull request is fetched.
pub open spec fn merge_ref(pr: nat) -> Seq<char> {
    "refs/pull/"@ + decimal(pr) + "/merge"@
}

/// The width of the widest label that a run can show: a phase at the top, and a
/// system (where there is more than one), the merge ref of a pull request or a
/// compare expression one level down.
pub open spec fn planned_width(
    systems: Seq<Seq<char>>,
    pr: Option<u64>,
    compare: Option<Seq<char>>,
) -> int {
    let w = longest(phases(), 0);
    let w = if systems.len() > 1 {
        larger(w, 2 + longest(systems, 0))
    } else {
        w
    };
    let w = match pr {
        Some(n) => larger(w, 2int + merge_ref(n as nat).len()),
        None => w,
    };
    match compare {
        Some(c) => larger(w, 2int + c.len()),
        None => w,
    }
}

/// The longest phase name is `instantiate`.
proof fn lemma_phase_width()
    ensures
        longest(phases(), 0) == 11,
{
    reveal_strlit("fetch");
    reveal_strlit("download");
    reveal_strlit("enumerate");
    reveal_strlit("evaluate");
    reveal_strlit("tests");
    reveal_strlit("instantiate");
    reveal_strlit("probe");
    reveal_with_fuel(longest, 8);
    let p = phases();
    assert(p.drop_last() =~= p.take(6));
    assert(p.take(6).drop_last() =~= p.take(5));
    assert(p.take(5).drop_last() =~= p.take(4));
    assert(p.take(4).drop_last() =~= p.take(3));
    assert(p.take(3).drop_last() =~= p.take(2));
    assert(p.take(2).drop_last() =~= p.take(1));
    assert(p.take(1).drop_last() =~= p.take(0));
}

/// The width at which the tree's number columns start, from every label that the
/// run can produce, so that the columns never shift as phases appear.
pub fn plan_label_width(systems: &[String], pr: Option<u64>, compare: Option<&str>) -> (w: usize)
    requires
        forall|i: int| 0 <= i < systems@.len() ==> (#[trigger] systems@[i])@.len() + 2
            <= usize::MAX,
        compare matches Some(c) ==> c@.len() + 2 <= usize::MAX,
    ensures
        w == planned_width(texts(systems@), pr, crate::text::opt_str(compare)),
{
    proof {
        lemma_phase_width();
    }
    let mut w: usize = 11;
    if systems.len() > 1 {
        let mut widest: usize = 0;
        let mut i: usize = 0;
        assert(texts(systems@).take(0) =~= Seq::<Seq<char>>::empty());
        while i < systems.len()
            invariant
                i <= systems@.len(),
                widest == longest(texts(systems@).take(i as int), 0),
                widest + 2 <= usize::MAX,
                forall|k: int|
                    0 <= k < systems@.len() ==> (#[trigger] systems@[k])@.len() + 2
                        <= usize::MAX,
            decreases systems@.len() - i,
        {
            let len: usize = systems[i].as_str().unicode_len();
            assert(texts(systems@).take(i + 1).drop_last() =~= texts(systems@).take(i as int));
            assert(systems@[i as int]@.len() + 2 <= usize::MAX);
            if len > widest {
                widest = len;
            }
            i += 1;
        }
        assert(texts(systems@).take(i as int) =~= texts(systems@));
        if widest + 2 > w {
            w = widest + 2;
        }
    }
    if let Some(n) = pr {
        let mut label = String::new();
        label.append("refs/pull/");
        push_decimal(&mut label, n);
        label.append("/merge");
        proof {
            reveal_strlit("refs/pull/");
            reveal_strlit("/merge");
            lemma_decimal_len(n as nat);
        }
        let len: usize = label.as_str().unicode_len();
        if 2 + len > w {
            w = 2 + len;
        }
    }
    if let Some(c) = compare {
        let len: usize = c.unicode_len();
        if 2 + len > w {
            w = 2 + len;
        }
    }
    w
}

/// A 64-bit number has twenty digits at most.
proof fn lemma_decimal_len(n: nat)
    requires
        n <= u64::MAX,
    ensures
        decimal(n).len() <= 20,
{
    reveal_with_fuel(decimal, 21);
}

/// Every clock below ten hours takes eight columns, so that nothing after it
/// shifts.
pub proof fn lemma_clock_width(secs: nat)
    requires
        secs < 36000,
    ensures
        clock_column(secs).len() == 8,
{
    reveal_strlit("h");
    reveal_strlit("m");
    reveal_strlit("s");
    reveal_with_fuel(decimal, 3);
}

// --- drawing ----------------------------------------------------------------

/// The width of a terminal of `columns` columns; 80 where it does not say.
pub fn width(columns: Option<u16>) -> (w: usize)
    ensures
        w == (match columns {
            Some(c) => c as int,
            None => 80,
        }),
{
    match columns {
        Some(c) => c as usize,
        None => 80,
    }
}

/// A block of lines redrawn in place.
pub struct Live {
    /// The rows that the last frame took: one for each line.
    pub drawn: usize,
    /// The lines of the last frame.
    pub prev: Vec<String>,
    /// The width at which they were cut.
    pub prev_width: usize,
}

/// What moves the cursor up `n` rows.
pub open spec fn up(n: nat) -> Seq<char> {
    if n > 0 {
        "\x1b["@ + decimal(n) + "A"@
    } else {
        Seq::empty()
    }
}

/// What draws `lines[from..]`: each line that is to be written, cut to the width
/// and cleared to the end of its row, and a step to the next row.
pub open spec fn rows_text(
    lines: Seq<Seq<char>>,
    prev: Seq<Seq<char>>,
    full: bool,
    w: int,
) -> Seq<char>
    decreases lines.len(),
{
    if lines.len() == 0 {
        Seq::empty()
    } else {
        let i = lines.len() - 1;
        let before = rows_text(lines.drop_last(), prev, full, w);
        if full || i >= prev.len() || prev[i] != lines[i] {
            before + truncated(lines[i], w, ""@) + "\x1b[K"@ + "\r\n"@
        } else {
            before + "\r\n"@
        }
    }
}

/// The frame that draws `lines` at width `w` over the block `live`.
pub open spec fn frame_text(live: Live, lines: Seq<Seq<char>>, w: int) -> Seq<char> {
    let full = w != live.prev_width || lines.len() != live.prev@.len();
    "\x1b[?2026h"@ + up(live.drawn as nat) + "\r"@ + rows_text(
        lines,
        texts(live.prev@),
        full,
        w,
    ) + (if lines.len() < live.drawn {
        "\x1b[J"@
    } else {
        Seq::empty()
    }) + "\x1b[?2026l"@
}

/// The text of some lines, each cut to the width, for good.
pub open spec fn message_text(lines: Seq<Seq<char>>, w: int) -> Seq<char>
    decreases lines.len(),
{
    if lines.len() == 0 {
        Seq::empty()
    } else {
        message_text(lines.drop_last(), w) + truncated(lines.last(), w, ""@) + "\x1b[K\r\n"@
    }
}

/// Appends what moves the cursor up `n` rows.
fn push_up(out: &mut String, n: usize)
    ensures
        final(out)@ == old(out)@ + up(n as nat),
{
    let ghost start = out@;
    if n > 0 {
        out.append("\x1b[");
        push_decimal(out, n as u64);
        out.append("A");
    }
    assert(out@ =~= start + up(n as nat));
}

impl Live {
    /// A block that has not been drawn.
    pub fn new() -> (live: Self)
        ensures
            live.drawn == 0,
            live.prev@.len() == 0,
            live.prev_width == 0,
    {
        Live { drawn: 0, prev: Vec::new(), prev_width: 0 }
    }

    /// Redraws the block in place on a terminal of the given width: the bytes to
    /// write. Without a terminal there is no cursor to move, and nothing to
    /// write. Only the lines that changed are rewritten, unless the width or the
    /// number of lines did; rows that the last frame took and this one does not
    /// are erased.
    pub fn draw(&mut self, lines: &[String], terminal: Option<usize>) -> (out: Option<String>)
        ensures
            match terminal {
                Some(w) => {
                    &&& out matches Some(text) && text@ == frame_text(
                        *old(self),
                        texts(lines@),
                        w as int,
                    )
                    &&& final(self).drawn == lines@.len()
                    &&& final(self).prev@ == lines@
                    &&& final(self).prev_width == w
                },
                None => out is None && *final(self) == *old(self),
            },
    {
        let w: usize = match terminal {
            Some(w) => w,
            None => {
                return None;
            },
        };
        let full = w != self.prev_width || lines.len() != self.prev.len();
        let ghost ls = texts(lines@);
        let ghost ps = texts(self.prev@);
        let mut buf = String::new();
        buf.append("\x1b[?2026h");
        push_up(&mut buf, self.drawn);
        buf.append("\r");
        let ghost head = buf@;
        let mut i: usize = 0;
        assert(ls.take(0) =~= Seq::<Seq<char>>::empty());
        assert(head + rows_text(ls.take(0), ps, full, w as int) =~= head);
        while i < lines.len()
            invariant
                i <= lines@.len(),
                ls == texts(lines@),
                ps == texts(self.prev@),
                *self == *old(self),
                buf@ == head + rows_text(ls.take(i as int), ps, full, w as int),
            decreases lines@.len() - i,
        {
            let ghost before = buf@;
            assert(ls.take(i + 1).drop_last() =~= ls.take(i as int));
            assert(ls.take(i + 1).last() == lines@[i as int]@);
            let changed = full || i >= self.prev.len() || self.prev[i] != lines[i];
            assert(changed == (full || i >= ps.len() || ps[i as int] != ls[i as int]));
            if changed {
                let cut = truncate(lines[i].as_str(), w, "");
                buf.append(cut.as_str());
                buf.append("\x1b[K");
            }
            buf.append("\r\n");
            assert(buf@ =~= head + rows_text(ls.take(i + 1), ps, full, w as int));
            i += 1;
        }
        assert(ls.take(i as int) =~= ls);
        if lines.len() < self.drawn {
            buf.append("\x1b[J");
        }
        buf.append("\x1b[?2026l");
        assert(buf@ =~= frame_text(*self, ls, w as int));
        self.drawn = lines.len();
        self.prev = crate::text::clone_texts(lines);
        self.prev_width = w;
        Some(buf)
    }

    /// Emits `msg` as permanent output above the block, which is erased and comes
    /// back below the message with the next frame: the bytes to write. Without a
    /// terminal the message is a line of its own.
    pub fn print_above(&mut self, msg: &str, terminal: Option<usize>) -> (out: String)
        ensures
            match terminal {
                Some(w) => {
                    &&& out@ == "\x1b[?2026h"@ + up(old(self).drawn as nat) + "\r\x1b[J"@
                        + message_text(line_texts(msg@), w as int) + "\x1b[?2026l"@
                    &&& final(self).drawn == 0
                    &&& final(self).prev@.len() == 0
                    &&& final(self).prev_width == old(self).prev_width
                },
                None => out@ == msg@ + "\n"@ && *final(self) == *old(self),
            },
    {
        let mut buf = String::new();
        let w: usize = match terminal {
            Some(w) => w,
            None => {
                buf.append(msg);
                buf.append("\n");
                return buf;
            },
        };
        buf.append("\x1b[?2026h");
        push_up(&mut buf, self.drawn);
        buf.append("\r\x1b[J");
        let ghost head = buf@;
        let lines = split_lines(msg);
        let ghost ls = texts(lines@);
        let mut i: usize = 0;
        assert(ls.take(0) =~= Seq::<Seq<char>>::empty());
        assert(head + message_text(ls.take(0), w as int) =~= head);
        while i < lines.len()
            invariant
                i <= lines@.len(),
                ls == texts(lines@),
                *self == *old(self),
                buf@ == head + message_text(ls.take(i as int), w as int),
            decreases lines@.len() - i,
        {
            assert(ls.take(i + 1).drop_last() =~= ls.take(i as int));
            assert(ls.take(i + 1).last() == lines@[i as int]@);
            let cut = truncate(lines[i].as_str(), w, "");
            buf.append(cut.as_str());
            buf.append("\x1b[K\r\n");
            assert(buf@ =~= head + message_text(ls.take(i + 1), w as int));
            i += 1;
        }
        assert(ls.take(i as int) =~= ls);
        buf.append("\x1b[?2026l");
        self.drawn = 0;
        self.prev = Vec::new();
        buf
    }

    /// Erases the block and leaves the cursor at its top: the bytes to write, if
    /// there is a terminal and a block.
    pub fn clear(&mut self, terminal: bool) -> (out: Option<String>)
        ensures
            match out {
                Some(text) => terminal && old(self).drawn > 0 && text@ == up(
                    old(self).drawn as nat,
                ) + "\r\x1b[J"@,
                None => !terminal || old(self).drawn == 0,
            },
            final(self).drawn == 0,
            final(self).prev@.len() == 0,
            final(self).prev_width == old(self).prev_width,
    {
        let out = if terminal && self.drawn > 0 {
            let mut buf = String::new();
            push_up(&mut buf, self.drawn);
            buf.append("\r\x1b[J");
            Some(buf)
        } else {
            None
        };
        self.drawn = 0;
        self.prev = Vec::new();
        out
    }
}

/// The one visual separator between phases: a blank line, a rule, dim on a
/// terminal, and a blank line.
pub fn separator(terminal: bool) -> (out: String)
    ensures
        out@ == (if terminal {
            "\n"@ + DIM@ + "---"@ + RESET@ + "\n\n"@
        } else {
            "\n"@ + "---"@ + "\n\n"@
        }),
{
    let mut out = String::new();
    out.append("\n");
    if terminal {
        out.append(DIM);
    }
    out.append("---");
    if terminal {
        out.append(RESET);
    }
    out.append("\n\n");
    assert(terminal ==> out@ =~= "\n"@ + DIM@ + "---"@ + RESET@ + "\n\n"@);
    assert(!terminal ==> out@ =~= "\n"@ + "---"@ + "\n\n"@);
    out
}

// --- the window -------------------------------------------------------------

/// The line that stands for `folded` lines that are not shown.
pub open spec fn fold_line(folded: nat) -> Seq<char> {
    DIM@ + "⋯ "@ + decimal(folded) + " more"@ + RESET@
}

/// The lines of a block that a terminal of `height` rows shows. The cursor rests below
/// the block, so a block has one row less. Where it is longer, its last lines are kept:
/// what runs, and what is ahead of it; the others are folded into one line at the top.
pub open spec fn window(lines: Seq<Seq<char>>, height: nat) -> Seq<Seq<char>> {
    if lines.len() < height {
        lines
    } else if height < 2 {
        Seq::empty()
    } else {
        let folded = (lines.len() - (height - 2)) as nat;
        seq![fold_line(folded)] + lines.skip(folded as int)
    }
}

/// The lines of a block that a terminal of `height` rows shows.
pub fn windowed(lines: &[String], height: usize) -> (out: Vec<String>)
    ensures
        texts(out@) == window(texts(lines@), height as nat),
{
    let ghost ls = texts(lines@);
    if lines.len() < height {
        return crate::text::clone_texts(lines);
    }
    let mut out: Vec<String> = Vec::new();
    if height < 2 {
        assert(texts(out@) =~= Seq::<Seq<char>>::empty());
        return out;
    }
    let folded: usize = lines.len() - (height - 2);
    let mut top = String::new();
    top.append(DIM);
    top.append("⋯ ");
    push_decimal(&mut top, folded as u64);
    top.append(" more");
    top.append(RESET);
    assert(top@ =~= fold_line(folded as nat));
    out.push(top);
    let mut i: usize = folded;
    assert(texts(out@) =~= seq![fold_line(folded as nat)] + ls.subrange(folded as int, i as int));
    while i < lines.len()
        invariant
            folded <= i <= lines@.len(),
            ls == texts(lines@),
            texts(out@) == seq![fold_line(folded as nat)] + ls.subrange(folded as int, i as int),
        decreases lines@.len() - i,
    {
        let ghost before = texts(out@);
        out.push(lines[i].clone());
        assert(texts(out@) =~= before.push(ls[i as int]));
        i += 1;
        assert(texts(out@) =~= seq![fold_line(folded as nat)] + ls.subrange(
            folded as int,
            i as int,
        ));
    }
    assert(ls.subrange(folded as int, i as int) =~= ls.skip(folded as int));
    out
}

/// A windowed block fits its terminal with a row to spare, so that the cursor finds its
/// top again; it ends as the block does; and the line at its top says how many lines
/// are missing.
pub proof fn lemma_window(lines: Seq<Seq<char>>, height: nat)
    requires
        height >= 1,
    ensures
        window(lines, height).len() < height,
        lines.len() < height ==> window(lines, height) == lines,
        lines.len() >= height >= 2 ==> {
            let kept = window(lines, height).drop_first();
            &&& window(lines, height).len() == height - 1
            &&& window(lines, height)[0] == fold_line((lines.len() - kept.len()) as nat)
            &&& kept == lines.skip(lines.len() - kept.len())
        },
{
    if lines.len() >= height && height >= 2 {
        let folded = lines.len() - (height - 2);
        assert(window(lines, height).drop_first() =~= lines.skip(folded));
    }
}

// --- what holds of every frame ----------------------------------------------

/// Whole percents stay within a hundred, reach it exactly when everything has landed,
/// and never fall as more lands.
pub proof fn lemma_percent(done: int, later: int, total: int)
    requires
        0 <= done <= later,
        0 <= total,
    ensures
        0 <= percent(done, total) <= 100,
        percent(done, total) == 100 <==> done >= total,
        percent(done, total) <= percent(later, total),
{
    if done < total {
        assert(0 <= done * 100 / total < 100) by (nonlinear_arith)
            requires
                0 <= done < total,
        ;
        if later < total {
            vstd::arithmetic::div_mod::lemma_div_is_ordered(done * 100, later * 100, total);
        }
    }
}

/// A text is as long as it is repeated often.
proof fn lemma_repeated_len(text: Seq<char>, n: nat)
    ensures
        repeated(text, n).len() == n * text.len(),
    decreases n,
{
    if n == 0 {
        assert(0 * text.len() == 0) by (nonlinear_arith);
    } else {
        lemma_repeated_len(text, (n - 1) as nat);
        assert(n * text.len() == (n - 1) * text.len() + text.len()) by (nonlinear_arith)
            requires
                n > 0,
        ;
    }
}

/// A count takes six columns, up to 999999: gaining a digit shifts nothing.
pub proof fn lemma_number_width(n: int)
    requires
        0 <= n < 1_000_000,
    ensures
        number_column(n).len() == 6,
{
    reveal_with_fuel(decimal, 7);
}

/// The numbers of all nodes start at the same column, past every label: what comes
/// before is the node's own label, filled up with spaces, whichever node it is.
pub proof fn lemma_columns_align(nodes: Seq<NodeView>, least: int, i: int)
    requires
        0 <= i < nodes.len(),
        nodes[i].depth >= 0,
        nodes[i].counter,
        effective(nodes, i) != Progress::Wait,
    ensures
        ({
            let w = left_width(nodes, least);
            let line = node_lines(nodes, least, false)[i];
            &&& label_width(nodes[i]) <= w
            &&& least <= w
            &&& line.take(w) == left_text(nodes[i]) + repeated(
                " "@,
                (w - label_width(nodes[i])) as nat,
            )
            &&& line.skip(w) == "  "@ + number_column(nodes[i].count) + tail_text(
                nodes[i],
                effective(nodes, i),
                false,
            )
        }),
{
    let w = left_width(nodes, least);
    let node = nodes[i];
    let state = effective(nodes, i);
    lemma_left_width(nodes, least);
    reveal_strlit("  ");
    reveal_strlit(" ");
    lemma_repeated_len(INDENT@, node.depth as nat);
    let pad = (w - label_width(node)) as nat;
    lemma_repeated_len(" "@, pad);
    assert(pad * 1 == pad);
    let padded = left_text(node) + repeated(" "@, pad);
    assert(node.depth * 2 == 2 * node.depth);
    assert(padded.len() == w);
    let numbers = "  "@ + number_column(node.count) + tail_text(node, state, false);
    let line = padded + numbers;
    assert(line.take(w) =~= padded);
    assert(line.skip(w) =~= numbers);
}

/// A node is shown as done only once every leaf below it is done, and as waiting
/// only while none of them has started.
pub proof fn lemma_rollup(nodes: Seq<NodeView>, i: int, j: int)
    requires
        below(nodes, i, j),
        is_leaf(nodes, j),
    ensures
        effective(nodes, i) == Progress::Done ==> nodes[j].state == Progress::Done,
        effective(nodes, i) == Progress::Wait ==> nodes[j].state == Progress::Wait,
{
    assert(leaf_in(nodes, i, j, nodes[j].state));
    assert(some_leaf(nodes, i, nodes[j].state));
}

/// None of some texts is longer than the longest.
proof fn lemma_longest(parts: Seq<Seq<char>>, least: int)
    ensures
        least <= longest(parts, least),
        forall|i: int| 0 <= i < parts.len() ==> (#[trigger] parts[i]).len() <= longest(parts, least),
    decreases parts.len(),
{
    if parts.len() > 0 {
        lemma_longest(parts.drop_last(), least);
        assert forall|i: int| 0 <= i < parts.len() implies (#[trigger] parts[i]).len() <= longest(
            parts,
            least,
        ) by {
            if i < parts.len() - 1 {
                assert(parts.drop_last()[i] == parts[i]);
            }
        }
    }
}

/// The planned width clears every label that is known up front: each phase, each
/// system one level down where there are several, the merge ref of a pull request
/// and a compare expression.
pub proof fn lemma_plan_clears_labels(
    systems: Seq<Seq<char>>,
    pr: Option<u64>,
    compare: Option<Seq<char>>,
)
    ensures
        forall|i: int|
            0 <= i < phases().len() ==> (#[trigger] phases()[i]).len() <= planned_width(
                systems,
                pr,
                compare,
            ),
        systems.len() > 1 ==> forall|i: int|
            0 <= i < systems.len() ==> 2 + (#[trigger] systems[i]).len() <= planned_width(
                systems,
                pr,
                compare,
            ),
        pr matches Some(n) ==> 2 + merge_ref(n as nat).len() <= planned_width(systems, pr, compare),
        compare matches Some(c) ==> 2 + c.len() <= planned_width(systems, pr, compare),
{
    lemma_longest(phases(), 0);
    lemma_longest(systems, 0);
}

/// Drawing the same lines again at the same width rewrites none of them.
pub proof fn lemma_steady_frame(lines: Seq<Seq<char>>, w: int)
    ensures
        rows_text(lines, lines, false, w) == repeated("\r\n"@, lines.len()),
{
    lemma_steady_rows(lines, lines, w);
}

/// Lines that all stand in the last frame are all stepped over.
proof fn lemma_steady_rows(lines: Seq<Seq<char>>, prev: Seq<Seq<char>>, w: int)
    requires
        lines.len() <= prev.len(),
        forall|i: int| 0 <= i < lines.len() ==> #[trigger] lines[i] == prev[i],
    ensures
        rows_text(lines, prev, false, w) == repeated("\r\n"@, lines.len()),
    decreases lines.len(),
{
    if lines.len() > 0 {
        let front = lines.drop_last();
        assert forall|i: int| 0 <= i < front.len() implies #[trigger] front[i] == prev[i] by {
            assert(front[i] == lines[i]);
        }
        lemma_steady_rows(front, prev, w);
        let i = lines.len() - 1;
        assert(lines[i] == prev[i]);
    }
}

/// A text without its colours: what stands from an escape character up to the next `m`
/// is taken out.
pub open spec fn uncoloured(s: Seq<char>) -> Seq<char>
    decreases s.len(),
{
    let m = char_position(s, 'm');
    if s.len() == 0 {
        s
    } else if s[0] != '\x1b' {
        seq![s[0]] + uncoloured(s.skip(1))
    } else if 0 <= m < s.len() {
        uncoloured(s.skip(m + 1))
    } else {
        Seq::empty()
    }
}

/// Whether a text has no escape character.
pub open spec fn unescaped(s: Seq<char>) -> bool {
    forall|i: int| 0 <= i < s.len() ==> #[trigger] s[i] != '\x1b'
}

/// Colours change nothing but the colour: the coloured line of a node is its plain line
/// with colours in it, where its label has none.
pub proof fn lemma_colours_only_colour(node: NodeView, state: Progress, left_w: int)
    requires
        node.depth >= 0,
        unescaped(node.label),
    ensures
        uncoloured(node_line(node, state, left_w, true)) == node_line(node, state, left_w, false),
{
    let left = left_text(node);
    let pad = repeated(" "@, (left_w - label_width(node)) as nat);
    let padded = left + pad;
    let count = "  "@ + number_column(node.count);
    let none = Seq::<char>::empty();
    reveal_strlit("  ");
    reveal_strlit(" ");
    reveal_strlit(" / ");
    reveal_strlit("%");
    lemma_unescaped_repeated(INDENT@, node.depth as nat);
    lemma_unescaped_repeated(" "@, (left_w - label_width(node)) as nat);
    lemma_unescaped_number(node.count);
    lemma_unescaped_number(node.total);
    assert(uncoloured(none) =~= none);
    assert(unescaped(left));
    if node.counter && state != Progress::Wait {
        let tail = tail_text(node, state, false);
        let colour_tail = tail_text(node, state, true);
        if let Some((done, total)) = node.shards {
            lemma_unescaped_number(percent(done, total));
            crate::text::lemma_decimal_value(percent(done, total) as nat);
            assert(unescaped(percent_column(done, total)));
        }
        assert(unescaped(tail));
        assert(uncoloured(colour_tail) == tail) by {
            if tail.len() > 0 {
                let end = RESET@ + none;
                lemma_code(end, none);
                lemma_plain_part(tail, end);
                assert(colour_tail =~= DIM@ + (tail + end));
                lemma_code(colour_tail, tail + end);
                assert(tail + none =~= tail);
            } else {
                assert(colour_tail =~= none);
                assert(tail =~= none);
            }
        }
        let numbers = count + colour_tail;
        let rest = RESET@ + numbers;
        let line = node_line(node, state, left_w, true);
        assert(unescaped(padded));
        assert(unescaped(count));
        lemma_plain_part(count, colour_tail);
        lemma_code(rest, numbers);
        lemma_plain_part(padded, rest);
        assert(line =~= color_of(state) + (padded + rest));
        lemma_code(line, padded + rest);
        assert(node_line(node, state, left_w, false) =~= padded + (count + tail));
    } else {
        let rest = RESET@ + none;
        let line = node_line(node, state, left_w, true);
        lemma_code(rest, none);
        lemma_plain_part(left, rest);
        assert(line =~= color_of(state) + (left + rest));
        lemma_code(line, left + rest);
        assert(left + none =~= left);
    }
}

/// Text without escapes stays as it is, whatever follows it.
proof fn lemma_plain_part(a: Seq<char>, b: Seq<char>)
    requires
        unescaped(a),
    ensures
        uncoloured(a + b) == a + uncoloured(b),
    decreases a.len(),
{
    if a.len() == 0 {
        assert(a + b =~= b);
        assert(a + uncoloured(b) =~= uncoloured(b));
    } else {
        assert((a + b).skip(1) =~= a.skip(1) + b);
        assert forall|i: int| 0 <= i < a.skip(1).len() implies #[trigger] a.skip(1)[i] != '\x1b' by {
            assert(a[i + 1] != '\x1b');
        }
        lemma_plain_part(a.skip(1), b);
        assert((a + b)[0] == a[0] && a[0] != '\x1b');
        assert(a + uncoloured(b) =~= seq![a[0]] + (a.skip(1) + uncoloured(b)));
    }
}

/// A colour in front of a text is taken out.
proof fn lemma_code(line: Seq<char>, rest: Seq<char>)
    requires
        line == BLUE@ + rest || line == YELLOW@ + rest || line == GREEN@ + rest || line == DIM@
            + rest || line == RESET@ + rest,
    ensures
        uncoloured(line) == uncoloured(rest),
{
    reveal_strlit("\x1b[34m");
    reveal_strlit("\x1b[33m");
    reveal_strlit("\x1b[32m");
    reveal_strlit("\x1b[90m");
    reveal_strlit("\x1b[0m");
    let m = line.len() - rest.len() - 1;
    crate::search::lemma_char_position_is(line, 'm', m);
    assert(line.skip(m + 1) =~= rest);
}

/// Copies of a text without escapes have none.
proof fn lemma_unescaped_repeated(s: Seq<char>, n: nat)
    requires
        unescaped(s),
    ensures
        unescaped(repeated(s, n)),
    decreases n,
{
    if n > 0 {
        lemma_unescaped_repeated(s, (n - 1) as nat);
    }
}

/// Numbers have no escapes.
proof fn lemma_unescaped_number(n: int)
    ensures
        unescaped(number_column(n)),
{
    let digits = decimal(if n < 0 {
        (-n) as nat
    } else {
        n as nat
    });
    crate::text::lemma_decimal_value(if n < 0 {
        (-n) as nat
    } else {
        n as nat
    });
    assert forall|i: int| 0 <= i < digits.len() implies #[trigger] digits[i] != '\x1b' by {
        assert(crate::text::is_digit(digits[i]));
    }
}

/// Whether one node is a leaf under another: all nodes after the other one up to it are
/// deeper than that, and what follows it, if anything, is not deeper than itself.
pub open spec fn leaf_under(nodes: Seq<NodeView>, i: int, j: int) -> bool {
    &&& 0 <= i < j < nodes.len()
    &&& forall|k: int| i < k <= j ==> nodes[i].depth < (#[trigger] nodes[k]).depth
    &&& j == nodes.len() - 1 || nodes[j + 1].depth <= nodes[j].depth
}

/// How a node stands: as it says itself where nothing is below it; otherwise it is done
/// where all leaves below it are, waits where all of them wait, and runs in any other case.
pub proof fn lemma_effective_cases(nodes: Seq<NodeView>, i: int)
    requires
        0 <= i < nodes.len(),
    ensures
        ({
            let out = effective(nodes, i);
            let none = forall|j: int| !#[trigger] leaf_under(nodes, i, j);
            &&& none ==> out == nodes[i].state
            &&& !none ==> (out is Done <==> forall|j: int| #[trigger]
                leaf_under(nodes, i, j) ==> nodes[j].state is Done)
            &&& !none ==> (out is Wait <==> forall|j: int| #[trigger]
                leaf_under(nodes, i, j) ==> nodes[j].state is Wait)
        }),
{
    assert forall|j: int| #[trigger] leaf_under(nodes, i, j) == (below(nodes, i, j) && is_leaf(
        nodes,
        j,
    )) by {}
    let run = some_leaf(nodes, i, Progress::Run);
    let done = some_leaf(nodes, i, Progress::Done);
    let wait = some_leaf(nodes, i, Progress::Wait);
    assert forall|j: int| below(nodes, i, j) && #[trigger] is_leaf(nodes, j) implies some_leaf(
        nodes,
        i,
        nodes[j].state,
    ) by {
        assert(leaf_in(nodes, i, j, nodes[j].state));
    }
    if run {
        let j = choose|j: int| #[trigger] leaf_in(nodes, i, j, Progress::Run);
        assert(leaf_under(nodes, i, j));
    }
    if done {
        let j = choose|j: int| #[trigger] leaf_in(nodes, i, j, Progress::Done);
        assert(leaf_under(nodes, i, j));
    }
    if wait {
        let j = choose|j: int| #[trigger] leaf_in(nodes, i, j, Progress::Wait);
        assert(leaf_under(nodes, i, j));
    }
}

/// What waits is blue, what runs is yellow and what is done is green.
pub proof fn lemma_colours()
    ensures
        color_of(Progress::Wait) == "\x1b[34m"@,
        color_of(Progress::Run) == "\x1b[33m"@,
        color_of(Progress::Done) == "\x1b[32m"@,
{
}

/// A time is shown in hours, minutes and seconds that make it up, from the first of these
/// that is not none on.
pub proof fn lemma_clock(h: nat, m: nat, s: nat)
    requires
        m < 60,
        s < 60,
    ensures
        h == 0 && m == 0 ==> clock(3600 * h + 60 * m + s) == decimal(s) + "s"@,
        h == 0 && m > 0 ==> clock(3600 * h + 60 * m + s) == decimal(m) + "m"@ + two_digits(s)
            + "s"@,
        h > 0 ==> clock(3600 * h + 60 * m + s) == decimal(h) + "h"@ + two_digits(m) + "m"@
            + two_digits(s) + "s"@,
{
    let secs = 3600 * h + 60 * m + s;
    assert(secs / 3600 == h);
    assert(secs / 60 == 60 * h + m);
    assert(secs / 60 % 60 == m);
    assert(secs % 60 == s);
}

/// Only what runs shows how much there is to do: in percent where it is done in shards,
/// and as a number where that is known.
pub proof fn lemma_tail_shown(node: NodeView, state: Progress)
    ensures
        !(state is Run) ==> tail_text(node, state, false).len() == 0,
        state is Run && node.shards is None && node.total < 0 ==> tail_text(
            node,
            state,
            false,
        ).len() == 0,
        state is Run && node.shards is None && node.total >= 0 ==> tail_text(node, state, false)
            == " / "@ + number_column(node.total),
        state is Run && node.shards is Some ==> tail_text(node, state, false) == right_aligned(
            decimal(percent((node.shards->0).0, (node.shards->0).1) as nat),
            5,
            ' ',
        ) + "%"@,
{
}

/// The width of the labels is that of the widest thing that may stand there, and no more.
pub proof fn lemma_plan_is_tight(
    systems: Seq<Seq<char>>,
    pr: Option<u64>,
    compare: Option<Seq<char>>,
)
    ensures
        ({
            let w = planned_width(systems, pr, compare);
            ||| exists|i: int| 0 <= i < phases().len() && (#[trigger] phases()[i]).len() == w
            ||| systems.len() > 1 && exists|i: int|
                0 <= i < systems.len() && 2 + (#[trigger] systems[i]).len() == w
            ||| pr matches Some(n) && 2 + merge_ref(n as nat).len() == w
            ||| compare matches Some(c) && 2 + c.len() == w
        }),
{
    lemma_longest_attained(phases());
    if systems.len() > 1 {
        lemma_longest_attained(systems);
    }
}

/// The longest of some texts is as long as one of them.
proof fn lemma_longest_attained(parts: Seq<Seq<char>>)
    requires
        parts.len() > 0,
    ensures
        exists|i: int| 0 <= i < parts.len() && (#[trigger] parts[i]).len() == longest(parts, 0),
    decreases parts.len(),
{
    let front = parts.drop_last();
    let last = parts.len() - 1;
    if front.len() == 0 {
        assert(longest(front, 0) == 0);
        assert(parts[last].len() == longest(parts, 0));
    } else {
        lemma_longest_attained(front);
        let i = choose|i: int|
            0 <= i < front.len() && (#[trigger] front[i]).len() == longest(front, 0);
        assert(parts[i] == front[i]);
        if parts.last().len() > longest(front, 0) {
            assert(parts[last].len() == longest(parts, 0));
        } else {
            assert(parts[i].len() == longest(parts, 0));
        }
    }
}

/// A frame is drawn over the one before it: the cursor goes up by the rows that the last
/// frame took, and what a longer frame left is cleared.
pub proof fn lemma_frame_covers(live: Live, lines: Seq<Seq<char>>, w: int)
    ensures
        ("\x1b[?2026h"@ + up(live.drawn as nat) + "\r"@).is_prefix_of(frame_text(live, lines, w)),
        lines.len() < live.drawn ==> ("\x1b[J"@ + "\x1b[?2026l"@).is_suffix_of(
            frame_text(live, lines, w),
        ),
        "\x1b[?2026l"@.is_suffix_of(frame_text(live, lines, w)),
        live.drawn > 0 ==> up(live.drawn as nat) == "\x1b["@ + decimal(live.drawn as nat) + "A"@,
        up(0).len() == 0,
{
    let text = frame_text(live, lines, w);
    let start = "\x1b[?2026h"@ + up(live.drawn as nat) + "\r"@;
    let end = "\x1b[?2026l"@;
    assert(text.subrange(0, start.len() as int) =~= start);
    assert(text.subrange(text.len() - end.len(), text.len() as int) =~= end);
    if lines.len() < live.drawn {
        let both = "\x1b[J"@ + end;
        assert(text.subrange(text.len() - both.len(), text.len() as int) =~= both);
    }
}

/// A frame has a row for each line, in their order: a line that differs from the one that
/// stood there is written, cut to the width, and any other is stepped over.
pub proof fn lemma_frame_rows(
    lines: Seq<Seq<char>>,
    last: Seq<char>,
    prev: Seq<Seq<char>>,
    full: bool,
    w: int,
)
    ensures
        ({
            let before = rows_text(lines, prev, full, w);
            let whole = rows_text(lines.push(last), prev, full, w);
            let kept = !full && lines.len() < prev.len() && prev[lines.len() as int] == last;
            &&& kept ==> whole == before + "\r\n"@
            &&& !kept ==> whole == before + truncated(last, w, ""@) + "\x1b[K"@ + "\r\n"@
        }),
{
    assert(lines.push(last).drop_last() =~= lines);
}

/// Minutes and seconds after hours take two digits, and denote what they show.
pub proof fn lemma_two_digits(n: nat)
    requires
        n < 100,
    ensures
        two_digits(n).len() == 2,
        crate::text::all_digits(two_digits(n)),
        crate::text::digits_value(two_digits(n)) == n,
{
    crate::text::lemma_decimal_value(n);
    crate::text::lemma_padded_value(decimal(n), 2);
}

/// A node that was not started stands without a count, and is drawn as its label alone,
/// indented by its depth.
pub proof fn lemma_waiting_line(label: Seq<char>, depth: nat, counter: bool, total: int, w: int)
    ensures
        waiting(label, depth as int, counter, total).state is Wait,
        waiting(label, depth as int, counter, total).count == 0,
        waiting(label, depth as int, counter, total).total == total,
        waiting(label, depth as int, counter, total).counter == counter,
        waiting(label, depth as int, counter, total).shards is None,
        waiting_percent(label, depth as int).shards == Some((0int, 0int)),
        waiting_percent(label, depth as int).counter,
        node_line(waiting(label, depth as int, counter, total), Progress::Wait, w, false)
            == repeated("  "@, depth) + label,
{
}

/// A node is seen as its fields say.
pub proof fn lemma_node_seen_as(n: Node)
    ensures
        n@.label == n.label@,
        n@.depth == n.depth,
        n@.counter == n.counter,
        n@.state == n.state,
        n@.count == n.count,
        n@.total == n.total,
        n@.shards is Some <==> n.shards is Some,
        n.shards is Some ==> (n@.shards->0).0 == (n.shards->0).0 && (n@.shards->0).1
            == (n.shards->0).1,
{
}

/// A percentage is what is done of the whole, in whole percents and never more than that.
pub proof fn lemma_percent_value(done: int, total: int)
    requires
        0 <= done < total,
    ensures
        percent(done, total) * total <= 100 * done < (percent(done, total) + 1) * total,
{
    let p = percent(done, total);
    vstd::arithmetic::div_mod::lemma_fundamental_div_mod(done * 100, total);
    vstd::arithmetic::div_mod::lemma_mod_bound(done * 100, total);
    assert(p * total == total * p) by (nonlinear_arith);
    assert((p + 1) * total == total * p + total) by (nonlinear_arith);
}

/// The spinner goes through ten frames, over and over.
pub proof fn lemma_frames(n: int)
    requires
        0 <= n,
    ensures
        frame_at(n + 10) == frame_at(n),
        frame_at(0) == "⠋"@ && frame_at(1) == "⠙"@ && frame_at(2) == "⠹"@ && frame_at(3) == "⠸"@,
        frame_at(4) == "⠼"@ && frame_at(5) == "⠴"@ && frame_at(6) == "⠦"@ && frame_at(7) == "⠧"@,
        frame_at(8) == "⠇"@ && frame_at(9) == "⠏"@,
{
    assert((n + 10) % 10 == n % 10);
}

/// What is printed above a frame is its lines, each cut to the width, in their order.
pub proof fn lemma_message_rows(lines: Seq<Seq<char>>, last: Seq<char>, w: int)
    ensures
        message_text(lines.push(last), w) == message_text(lines, w) + truncated(last, w, ""@)
            + "\x1b[K\r\n"@,
        message_text(Seq::empty(), w).len() == 0,
{
    assert(lines.push(last).drop_last() =~= lines);
}

/// The line that stands for lines that are not shown says how many there are.
pub proof fn lemma_fold_line(folded: nat)
    ensures
        crate::search::holds(fold_line(folded), "⋯ "@ + decimal(folded) + " more"@),
{
    crate::search::lemma_holds(DIM@, "⋯ "@ + decimal(folded) + " more"@, RESET@);
    assert(fold_line(folded) =~= DIM@ + ("⋯ "@ + decimal(folded) + " more"@) + RESET@);
}

/// A frame has a line for each node, in their order and drawn by how each stands, and the
/// time below them; without nodes it is empty.
pub proof fn lemma_frame_lines(
    out: Seq<Seq<char>>,
    nodes: Seq<NodeView>,
    least: int,
    tick: Option<usize>,
    color: bool,
    secs: u64,
    i: int,
)
    requires
        is_frame(out, nodes, least, tick, color, secs),
    ensures
        nodes.len() == 0 ==> out.len() == 0,
        nodes.len() > 0 ==> out.len() == nodes.len() + 1,
        0 <= i < nodes.len() ==> out[i] == node_line(
            nodes[i],
            effective(nodes, i),
            left_width(nodes, least),
            color,
        ),
        nodes.len() > 0 ==> (" "@ + clock_column(secs as nat)).is_suffix_of(out.last()),
{
    if nodes.len() > 0 {
        if 0 <= i < nodes.len() {
            assert(out.drop_last()[i] == node_lines(nodes, least, color)[i]);
        }
        let end = " "@ + clock_column(secs as nat);
        let foot = out.last();
        reveal_strlit(" ");
        reveal_strlit(". ");
        match tick {
            Some(t) => {
                let spin = choose|spin: Seq<char>| #[trigger]
                    is_spinner(spin, t as int) && foot == spin + " "@ + clock_column(secs as nat);
                assert(foot.subrange(foot.len() - end.len(), foot.len() as int) =~= end);
            },
            None => {
                assert(foot.subrange(foot.len() - end.len(), foot.len() as int) =~= end);
            },
        }
    }
}

/// The labels are as wide as the widest of them, or as the width that was planned.
pub proof fn lemma_left_width_tight(nodes: Seq<NodeView>, least: int)
    ensures
        least <= left_width(nodes, least),
        forall|i: int|
            0 <= i < nodes.len() ==> 2 * (#[trigger] nodes[i]).depth + nodes[i].label.len()
                <= left_width(nodes, least),
        left_width(nodes, least) == least || exists|i: int|
            0 <= i < nodes.len() && 2 * (#[trigger] nodes[i]).depth + nodes[i].label.len()
                == left_width(nodes, least),
    decreases nodes.len(),
{
    if nodes.len() > 0 {
        let front = nodes.drop_last();
        let n = nodes.len() - 1;
        lemma_left_width_tight(front, least);
        assert forall|i: int| 0 <= i < nodes.len() implies 2 * (#[trigger] nodes[i]).depth
            + nodes[i].label.len() <= left_width(nodes, least) by {
            if i < n {
                assert(front[i] == nodes[i]);
            }
        }
        if label_width(nodes.last()) > left_width(front, least) {
            assert(2 * nodes[n].depth + nodes[n].label.len() == left_width(nodes, least));
        } else if left_width(front, least) != least {
            let i = choose|i: int|
                0 <= i < front.len() && 2 * (#[trigger] front[i]).depth + front[i].label.len()
                    == left_width(front, least);
            assert(2 * nodes[i].depth + nodes[i].label.len() == left_width(nodes, least));
        }
    }
}

/// A count that leaves its range comes in again at the other end.
pub proof fn lemma_wrapped(a: i64, b: i64)
    ensures
        i64::MIN <= wrapped(a + b) <= i64::MAX,
        wrapped(a + b) == a + b || wrapped(a + b) == a + b - 0x1_0000_0000_0000_0000 || wrapped(
            a + b,
        ) == a + b + 0x1_0000_0000_0000_0000,
        i64::MIN <= a + b <= i64::MAX ==> wrapped(a + b) == a + b,
{
}

} // verus!
