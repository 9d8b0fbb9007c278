//! Renders a Markdown report of a change (`base → head`).
//!
//! Each attribute of the changed set has a *state* on each side, and the report
//! groups attributes by the pair of states. A section's header is a
//! `before → after` token, one glyph for each side. Attributes that share a
//! derivation stand on one line (`a = b = c`).

use vstd::prelude::*;

use crate::model::{has_outcome, seen, Observation, Outcome};
use crate::order::{
    by_text, in_order, lemma_filter_of, lemma_in_order_of, lemma_map_of, sort, sort_texts, text_le,
    total_preorder,
};
use crate::search::{holds, lemma_holds, lemma_holds_within};
use crate::text::{
    clone_opt, decimal, join, joined, opt_text, push_decimal, push_repeated, repeated, same_opt,
    texts,
};
use crate::URL;

verus! {

// --- states -----------------------------------------------------------------

/// One side's build state.
#[derive(Clone, Copy, PartialEq, Eq, PartialOrd, Ord, Hash, Debug, Structural)]
pub enum State {
    /// Output valid: built locally, or substitutable from the cache.
    Built,
    /// Its own build failed.
    Failed,
    /// A dependency failed, so this never ran.
    Blocked,
    /// Marked broken, unsupported or insecure: not attempted by default.
    Skipped,
    /// Has a derivation but no build fact yet.
    Unknown,
    /// No derivation on this side.
    Absent,
}

/// The glyph of a state.
pub open spec fn glyph_of(state: State) -> Seq<char> {
    match state {
        State::Built => "✅"@,
        State::Failed => "❌"@,
        State::Blocked => "🚫"@,
        State::Skipped => "⏩"@,
        State::Absent => "➖"@,
        State::Unknown => "❔"@,
    }
}

/// What the legend says of a state.
pub open spec fn label_of(state: State) -> Seq<char> {
    match state {
        State::Built => "successfully built"@,
        State::Failed => "failed to build"@,
        State::Blocked => "dependency failed to build"@,
        State::Skipped => "didn't try to build"@,
        State::Unknown => "couldn't try to build"@,
        State::Absent => "doesn't exist"@,
    }
}

/// How good a state is. `Unknown` is off this axis.
pub open spec fn goodness_of(state: State) -> int {
    match state {
        State::Built => 4,
        State::Absent => 3,
        State::Skipped => 2,
        State::Blocked => 1,
        State::Failed => 0,
        State::Unknown => 0,
    }
}

/// The place of a state among all states.
pub open spec fn place_of(state: State) -> int {
    match state {
        State::Built => 0,
        State::Failed => 1,
        State::Blocked => 2,
        State::Skipped => 3,
        State::Unknown => 4,
        State::Absent => 5,
    }
}

impl State {
    /// Every state, in the order of the legend.
    pub fn all() -> (out: Vec<State>)
        ensures
            out@ == seq![
                State::Built,
                State::Failed,
                State::Blocked,
                State::Skipped,
                State::Unknown,
                State::Absent,
            ],
    {
        vec![
            State::Built,
            State::Failed,
            State::Blocked,
            State::Skipped,
            State::Unknown,
            State::Absent,
        ]
    }

    pub fn glyph(self) -> (out: &'static str)
        ensures
            out@ == glyph_of(self),
    {
        match self {
            State::Built => "✅",
            State::Failed => "❌",
            State::Blocked => "🚫",
            State::Skipped => "⏩",
            State::Absent => "➖",
            State::Unknown => "❔",
        }
    }

    /// Legend gloss for this state's glyph.
    pub fn label(self) -> (out: &'static str)
        ensures
            out@ == label_of(self),
    {
        match self {
            State::Built => "successfully built",
            State::Failed => "failed to build",
            State::Blocked => "dependency failed to build",
            State::Skipped => "didn't try to build",
            State::Unknown => "couldn't try to build",
            State::Absent => "doesn't exist",
        }
    }

    /// Goodness on the build-outcome axis, higher is better. A state without a
    /// fact to compare has none.
    pub fn goodness(self) -> (out: i32)
        requires
            self != State::Unknown,
        ensures
            out == goodness_of(self),
            0 <= out <= 4,
    {
        match self {
            State::Built => 4,
            State::Absent => 3,
            State::Skipped => 2,
            State::Blocked => 1,
            State::Failed => 0,
            State::Unknown => 0,
        }
    }

    /// The place of the state among all states.
    fn place(self) -> (out: i32)
        ensures
            out == place_of(self),
    {
        match self {
            State::Built => 0,
            State::Failed => 1,
            State::Blocked => 2,
            State::Skipped => 3,
            State::Unknown => 4,
            State::Absent => 5,
        }
    }
}

/// The state of a side with a derivation or none, its effective availability mark,
/// and the derivation's observations.
pub open spec fn state_of(drv: Option<String>, skipped: bool, obs: Seq<Observation>) -> State {
    if drv is None {
        State::Absent
    } else if skipped {
        State::Skipped
    } else if seen(obs, Outcome::Built) {
        State::Built
    } else if seen(obs, Outcome::Failed) {
        State::Failed
    } else if seen(obs, Outcome::DepFailed) {
        State::Blocked
    } else {
        State::Unknown
    }
}

/// Reduces a side to a state. The mark masks everything but absence; a success
/// beats a failure, and a direct failure a dependency failure.
pub fn side_state(drv: &Option<String>, skipped: bool, obs: &[Observation]) -> (out: State)
    ensures
        out == state_of(*drv, skipped, obs@),
{
    if drv.is_none() {
        return State::Absent;
    }
    if skipped {
        State::Skipped
    } else if has_outcome(obs, Outcome::Built) {
        State::Built
    } else if has_outcome(obs, Outcome::Failed) {
        State::Failed
    } else if has_outcome(obs, Outcome::DepFailed) {
        State::Blocked
    } else {
        State::Unknown
    }
}

// --- the order of sections --------------------------------------------------

/// What a section of two states is ordered by: first those with a fact on both
/// sides, by how much better the head is, then by how good the head is.
pub open spec fn priority_of(base: State, head: State) -> (int, int, int) {
    if base == State::Unknown || head == State::Unknown {
        (1, 0, 0)
    } else {
        (0, goodness_of(head) - goodness_of(base), goodness_of(head))
    }
}

/// Sort key of a `(base, head)` section, worst delta first.
pub fn priority(base: State, head: State) -> (out: (u8, i32, i32))
    ensures
        (out.0 as int, out.1 as int, out.2 as int) == priority_of(base, head),
{
    if base == State::Unknown || head == State::Unknown {
        return (1, 0, 0);
    }
    (0, head.goodness() - base.goodness(), head.goodness())
}

/// Whether the section `p` comes before the section `q`, or is the same: by
/// priority, then by the states' places.
pub open spec fn section_le(p: (State, State), q: (State, State)) -> bool {
    let (a, b) = (priority_of(p.0, p.1), priority_of(q.0, q.1));
    if a.0 != b.0 {
        a.0 < b.0
    } else if a.1 != b.1 {
        a.1 < b.1
    } else if a.2 != b.2 {
        a.2 < b.2
    } else if p.0 != q.0 {
        place_of(p.0) < place_of(q.0)
    } else {
        place_of(p.1) <= place_of(q.1)
    }
}

/// The order of sections, as a function value.
pub open spec fn by_section() -> spec_fn((State, State), (State, State)) -> bool {
    |p: (State, State), q: (State, State)| section_le(p, q)
}

/// Whether the section `p` comes before the section `q`, or is the same.
pub fn section_before(p: (State, State), q: (State, State)) -> (yes: bool)
    ensures
        yes == section_le(p, q),
{
    let a = priority(p.0, p.1);
    let b = priority(q.0, q.1);
    if a.0 != b.0 {
        a.0 < b.0
    } else if a.1 != b.1 {
        a.1 < b.1
    } else if a.2 != b.2 {
        a.2 < b.2
    } else if p.0 != q.0 {
        p.0.place() < q.0.place()
    } else {
        p.1.place() <= q.1.place()
    }
}

/// The order of sections is total, so that a report is determined by its entries.
pub proof fn lemma_section_order(p: (State, State), q: (State, State), r: (State, State))
    ensures
        section_le(p, p),
        section_le(p, q) || section_le(q, p),
        section_le(p, q) && section_le(q, p) ==> p == q,
        section_le(p, q) && section_le(q, r) ==> section_le(p, r),
{
}

/// The worst change comes first: a section that got worse by more comes before one
/// that got worse by less, and one with a fact on both sides before one without.
pub proof fn lemma_worst_first(p: (State, State), q: (State, State))
    requires
        p.0 != State::Unknown,
        p.1 != State::Unknown,
        q.0 == State::Unknown || q.1 == State::Unknown || goodness_of(p.1) - goodness_of(p.0)
            < goodness_of(q.1) - goodness_of(q.0),
    ensures
        section_le(p, q),
        !section_le(q, p),
{
}

/// The order of sections extends the order of the sides: of two changes, one that
/// started no worse and ended no better comes first.
pub proof fn lemma_extends_sides(p: (State, State), q: (State, State))
    requires
        p.0 != State::Unknown,
        p.1 != State::Unknown,
        q.0 != State::Unknown,
        q.1 != State::Unknown,
        goodness_of(p.0) >= goodness_of(q.0),
        goodness_of(p.1) <= goodness_of(q.1),
    ensures
        section_le(p, q),
{
}

// --- entries ----------------------------------------------------------------

/// One changed attribute of a system: its derivation and its state on each side.
pub struct Entry {
    pub attr: String,
    pub base_drv: Option<String>,
    pub head_drv: Option<String>,
    pub base: State,
    pub head: State,
}

/// What an [`Entry`] says.
#[verifier::ext_equal]
pub struct EntryView {
    pub attr: Seq<char>,
    pub base_drv: Option<Seq<char>>,
    pub head_drv: Option<Seq<char>>,
    pub base: State,
    pub head: State,
}

impl View for Entry {
    type V = EntryView;

    open spec fn view(&self) -> EntryView {
        EntryView {
            attr: self.attr@,
            base_drv: opt_text(self.base_drv),
            head_drv: opt_text(self.head_drv),
            base: self.base,
            head: self.head,
        }
    }
}

/// What entries say.
pub open spec fn entry_views(entries: Seq<Entry>) -> Seq<EntryView> {
    entries.map_values(|e: Entry| e@)
}

/// The elements of `s` without repetitions, in the order in which they first come.
pub open spec fn distinct<T>(s: Seq<T>) -> Seq<T>
    decreases s.len(),
{
    if s.len() == 0 {
        Seq::empty()
    } else {
        let before = distinct(s.drop_last());
        if before.contains(s.last()) {
            before
        } else {
            before.push(s.last())
        }
    }
}

/// The elements without repetitions are the elements, each of them once.
pub proof fn lemma_distinct<T>(s: Seq<T>)
    ensures
        forall|x: T| #[trigger] distinct(s).contains(x) <==> s.contains(x),
        distinct(s).no_duplicates(),
        distinct(s).len() <= s.len(),
    decreases s.len(),
{
    if s.len() > 0 {
        let front = s.drop_last();
        let before = distinct(front);
        lemma_distinct(front);
        assert forall|x: T| #[trigger] distinct(s).contains(x) <==> s.contains(x) by {
            if s.contains(x) {
                let i = choose|i: int| 0 <= i < s.len() && s[i] == x;
                if i < front.len() {
                    assert(front[i] == x);
                    assert(front.contains(x));
                    assert(before.contains(x));
                    let k = choose|k: int| 0 <= k < before.len() && before[k] == x;
                    assert(distinct(s)[k] == x);
                } else if !before.contains(s.last()) {
                    assert(distinct(s)[before.len() as int] == x);
                }
            }
            if distinct(s).contains(x) {
                let k = choose|k: int| 0 <= k < distinct(s).len() && distinct(s)[k] == x;
                if k < before.len() {
                    assert(before[k] == x);
                    assert(before.contains(x));
                    let i = choose|i: int| 0 <= i < front.len() && front[i] == x;
                    assert(s[i] == x);
                } else {
                    assert(s[s.len() - 1] == x);
                }
            }
        }
        if !before.contains(s.last()) {
            assert forall|i: int, j: int|
                0 <= i < distinct(s).len() && 0 <= j < distinct(s).len() && i != j implies distinct(
                s,
            )[i] != distinct(s)[j] by {
                if i == before.len() {
                    assert(before.contains(before[j]));
                } else if j == before.len() {
                    assert(before.contains(before[i]));
                }
            }
        }
    }
}

/// The derivations of an entry, base and head.
pub open spec fn drvs_of(e: EntryView) -> (Option<Seq<char>>, Option<Seq<char>>) {
    (e.base_drv, e.head_drv)
}

/// The states of an entry, base and head.
pub open spec fn states_of(e: EntryView) -> (State, State) {
    (e.base, e.head)
}

/// The attributes of the entries with the derivations `drvs`.
pub open spec fn attrs_with(
    entries: Seq<EntryView>,
    drvs: (Option<Seq<char>>, Option<Seq<char>>),
) -> Seq<Seq<char>>
    decreases entries.len(),
{
    if entries.len() == 0 {
        Seq::empty()
    } else {
        let before = attrs_with(entries.drop_last(), drvs);
        if drvs_of(entries.last()) == drvs {
            before.push(entries.last().attr)
        } else {
            before
        }
    }
}

/// The number of bytes of a text in UTF-8.
pub open spec fn byte_len(s: Seq<char>) -> nat {
    vstd::utf8::encode_utf8(s).len()
}

/// Shortest first, by bytes; of texts of the same length in the order of text.
pub open spec fn shortest_first() -> spec_fn(Seq<char>, Seq<char>) -> bool {
    |a: Seq<char>, b: Seq<char>|
        byte_len(a) < byte_len(b) || (byte_len(a) == byte_len(b) && text_le(a, b))
}

/// The line of the attributes that share a derivation: each in a code span, the
/// shortest first.
pub open spec fn group_line(attrs: Seq<Seq<char>>) -> Seq<char> {
    joined(
        in_order(attrs, shortest_first()).map_values(|a: Seq<char>| "`"@ + a + "`"@),
        " = "@,
    )
}

/// The lines of a section, sorted: one for each pair of derivations.
pub open spec fn section_lines(entries: Seq<EntryView>) -> Seq<Seq<char>> {
    in_order(
        distinct(entries.map_values(|e: EntryView| drvs_of(e))).map_values(
            |drvs: (Option<Seq<char>>, Option<Seq<char>>)| group_line(attrs_with(entries, drvs)),
        ),
        by_text(),
    )
}

/// The bullets of some lines.
pub open spec fn bullets(lines: Seq<Seq<char>>) -> Seq<char>
    decreases lines.len(),
{
    if lines.len() == 0 {
        Seq::empty()
    } else {
        bullets(lines.drop_last()) + ("- "@ + lines.last() + "\n"@)
    }
}

/// The header of a section: the two glyphs and the number of packages, with the
/// number of distinct ones where that is another number.
pub open spec fn section_header(base: State, head: State, attrs: nat, groups: nat) -> Seq<char> {
    "\n<details><summary>"@ + glyph_of(base) + " → "@ + glyph_of(head) + " · "@ + decimal(attrs)
        + " package"@ + (if attrs == 1 {
        Seq::empty()
    } else {
        "s"@
    }) + (if attrs != groups {
        " ("@ + decimal(groups) + " unique)"@
    } else {
        Seq::empty()
    }) + "</summary>\n\n"@
}

/// A section of a report.
pub open spec fn section_text(base: State, head: State, entries: Seq<EntryView>) -> Seq<char> {
    let lines = section_lines(entries);
    section_header(base, head, entries.len(), lines.len()) + bullets(lines) + "</details>\n"@
}

/// What references to entries say.
pub open spec fn ref_views(entries: Seq<&Entry>) -> Seq<EntryView> {
    entries.map_values(|e: &Entry| e@)
}

/// The attributes of a group and what they share.
struct DrvGroup {
    base_drv: Option<String>,
    head_drv: Option<String>,
    attrs: Vec<String>,
}

spec fn group_drvs(groups: Seq<DrvGroup>) -> Seq<(Option<Seq<char>>, Option<Seq<char>>)> {
    groups.map_values(|g: DrvGroup| (opt_text(g.base_drv), opt_text(g.head_drv)))
}

/// Adds one entry to the attributes by derivation.
proof fn lemma_attrs_with_push(entries: Seq<EntryView>, e: EntryView)
    ensures
        forall|drvs: (Option<Seq<char>>, Option<Seq<char>>)|
            #![trigger attrs_with(entries.push(e), drvs)]
            attrs_with(entries.push(e), drvs) == (if drvs_of(e) == drvs {
                attrs_with(entries, drvs).push(e.attr)
            } else {
                attrs_with(entries, drvs)
            }),
{
    assert(entries.push(e).drop_last() =~= entries);
}

/// No attribute has derivations that no entry has.
proof fn lemma_attrs_with_none(
    entries: Seq<EntryView>,
    drvs: (Option<Seq<char>>, Option<Seq<char>>),
)
    requires
        !entries.map_values(|e: EntryView| drvs_of(e)).contains(drvs),
    ensures
        attrs_with(entries, drvs) == Seq::<Seq<char>>::empty(),
    decreases entries.len(),
{
    if entries.len() > 0 {
        let all = entries.map_values(|e: EntryView| drvs_of(e));
        let front = entries.drop_last();
        let some = front.map_values(|e: EntryView| drvs_of(e));
        assert(all[entries.len() - 1] == drvs_of(entries.last()));
        if some.contains(drvs) {
            let k = choose|k: int| 0 <= k < some.len() && some[k] == drvs;
            assert(all[k] == drvs);
        }
        lemma_attrs_with_none(front, drvs);
    }
}

/// Groups attributes by their derivations, in the order in which these first come.
fn group_by_drv(entries: &[&Entry]) -> (groups: Vec<DrvGroup>)
    ensures
        group_drvs(groups@) == distinct(
            ref_views(entries@).map_values(|e: EntryView| drvs_of(e)),
        ),
        forall|g: int|
            0 <= g < groups@.len() ==> texts((#[trigger] groups@[g]).attrs@) == attrs_with(
                ref_views(entries@),
                group_drvs(groups@)[g],
            ),
{
    let ghost vs = ref_views(entries@);
    let ghost keys = vs.map_values(|e: EntryView| drvs_of(e));
    let mut groups: Vec<DrvGroup> = Vec::new();
    let mut i: usize = 0;
    assert(keys.take(0) =~= Seq::empty());
    assert(group_drvs(groups@) =~= Seq::empty());
    while i < entries.len()
        invariant
            i <= entries@.len(),
            vs == ref_views(entries@),
            keys == vs.map_values(|e: EntryView| drvs_of(e)),
            group_drvs(groups@) == distinct(keys.take(i as int)),
            forall|g: int|
                0 <= g < groups@.len() ==> texts((#[trigger] groups@[g]).attrs@) == attrs_with(
                    vs.take(i as int),
                    group_drvs(groups@)[g],
                ),
        decreases entries@.len() - i,
    {
        let e: &Entry = entries[i];
        let ghost key = drvs_of(e@);
        let ghost before = groups@;
        proof {
            assert(keys[i as int] == key);
            assert(keys.take(i + 1).drop_last() =~= keys.take(i as int));
            assert(vs.take(i + 1) =~= vs.take(i as int).push(e@));
            lemma_attrs_with_push(vs.take(i as int), e@);
            lemma_distinct(keys.take(i as int));
        }
        let mut at: usize = 0;
        while at < groups.len() && !(same_opt(&groups[at].base_drv, &e.base_drv) && same_opt(
            &groups[at].head_drv,
            &e.head_drv,
        ))
            invariant
                at <= groups@.len(),
                groups@ == before,
                key == drvs_of(e@),
                forall|g: int| 0 <= g < at ==> #[trigger] group_drvs(groups@)[g] != key,
            decreases groups@.len() - at,
        {
            assert(group_drvs(groups@)[at as int] != key);
            at += 1;
        }
        if at < groups.len() {
            assert(group_drvs(before)[at as int] == key);
            assert(group_drvs(before).contains(key));
            let ghost attrs = groups@[at as int].attrs@;
            groups[at].attrs.push(e.attr.clone());
            proof {
                assert(group_drvs(groups@) =~= group_drvs(before));
                assert(texts(groups@[at as int].attrs@) =~= texts(attrs).push(e@.attr));
                assert forall|g: int| 0 <= g < groups@.len() implies texts(
                    (#[trigger] groups@[g]).attrs@,
                ) == attrs_with(vs.take(i + 1), group_drvs(groups@)[g]) by {
                    if g != at {
                        assert(groups@[g] == before[g]);
                        assert(group_drvs(before)[g] != group_drvs(before)[at as int]);
                    }
                }
            }
        } else {
            proof {
                assert(!group_drvs(before).contains(key));
                assert(vs.take(i as int).map_values(|e: EntryView| drvs_of(e)) =~= keys.take(
                    i as int,
                ));
                lemma_attrs_with_none(vs.take(i as int), key);
            }
            let mut attrs: Vec<String> = Vec::new();
            attrs.push(e.attr.clone());
            assert(texts(attrs@) =~= Seq::<Seq<char>>::empty().push(e@.attr));
            groups.push(
                DrvGroup {
                    base_drv: clone_opt(&e.base_drv),
                    head_drv: clone_opt(&e.head_drv),
                    attrs,
                },
            );
            proof {
                assert(group_drvs(groups@) =~= group_drvs(before).push(key));
                assert forall|g: int| 0 <= g < groups@.len() implies texts(
                    (#[trigger] groups@[g]).attrs@,
                ) == attrs_with(vs.take(i + 1), group_drvs(groups@)[g]) by {
                    if g < before.len() {
                        assert(groups@[g] == before[g]);
                        assert(group_drvs(groups@)[g] == group_drvs(before)[g]);
                        assert(group_drvs(before)[g] != key);
                    }
                }
            }
        }
        i += 1;
    }
    assert(keys.take(i as int) =~= keys);
    assert(vs.take(i as int) =~= vs);
    groups
}

/// Sorts attributes, the shortest first.
fn sort_shortest_first(attrs: &[String]) -> (out: Vec<String>)
    ensures
        texts(out@) == in_order(texts(attrs@), shortest_first()),
{
    let ghost leq = |a: String, b: String| shortest_first()(a@, b@);
    let before = |a: &String, b: &String| -> (yes: bool)
        ensures
            yes == shortest_first()(a@, b@),
        {
            let (x, y) = (a.as_str(), b.as_str());
            let (m, n) = (x.as_bytes().len(), y.as_bytes().len());
            m < n || (m == n && crate::order::le(x, y))
        };
    proof {
        assert forall|a: String, b: String| #[trigger] leq(a, b) || leq(b, a) by {
            crate::order::lemma_text_le_total(a@, b@);
        }
        assert forall|a: String, b: String, c: String| #[trigger]
            leq(a, b) && #[trigger] leq(b, c) implies leq(a, c) by {
            if text_le(a@, b@) && text_le(b@, c@) {
                crate::order::lemma_text_le_transitive(a@, b@, c@);
            }
        }
    }
    let out = sort(crate::text::clone_texts(attrs), &before, Ghost(leq));
    proof {
        let f = |t: String| t@;
        crate::order::lemma_in_order_map(attrs@, f, leq, shortest_first());
        assert(texts(out@) =~= out@.map_values(f));
        assert(texts(attrs@) =~= attrs@.map_values(f));
    }
    out
}

/// The line of the attributes that share a derivation.
fn line_of_group(attrs: &[String]) -> (line: String)
    ensures
        line@ == group_line(texts(attrs@)),
{
    let sorted = sort_shortest_first(attrs);
    let ghost quote = |a: Seq<char>| "`"@ + a + "`"@;
    let mut spans: Vec<String> = Vec::new();
    let mut i: usize = 0;
    while i < sorted.len()
        invariant
            i <= sorted@.len(),
            quote == (|a: Seq<char>| "`"@ + a + "`"@),
            texts(spans@) == texts(sorted@).map_values(quote).take(i as int),
        decreases sorted@.len() - i,
    {
        let mut span = String::new();
        span.append("`");
        span.append(sorted[i].as_str());
        span.append("`");
        let ghost before = texts(spans@);
        let ghost text = span@;
        assert(text =~= quote(sorted@[i as int]@));
        spans.push(span);
        assert(texts(spans@) =~= before.push(text));
        i += 1;
        assert(texts(sorted@).map_values(quote).take(i as int) =~= texts(sorted@).map_values(
            quote,
        ).take(i - 1).push(quote(sorted@[i - 1]@)));
    }
    assert(texts(spans@) =~= texts(sorted@).map_values(quote));
    join(&spans, " = ")
}

/// The header of a section.
fn header_of(base: State, head: State, attrs: usize, groups: usize) -> (out: String)
    ensures
        out@ == section_header(base, head, attrs as nat, groups as nat),
{
    let mut note = String::new();
    if attrs != groups {
        note.append(" (");
        push_decimal(&mut note, groups as u64);
        note.append(" unique)");
    }
    assert(note@ =~= (if attrs != groups {
        " ("@ + decimal(groups as nat) + " unique)"@
    } else {
        Seq::empty()
    }));
    let plural = if attrs == 1 {
        String::new()
    } else {
        "s".to_owned()
    };
    assert(plural@ =~= (if attrs == 1 {
        Seq::empty()
    } else {
        "s"@
    }));
    let mut out = String::new();
    out.append("\n<details><summary>");
    out.append(base.glyph());
    out.append(" → ");
    out.append(head.glyph());
    out.append(" · ");
    push_decimal(&mut out, attrs as u64);
    out.append(" package");
    out.append(plural.as_str());
    out.append(note.as_str());
    out.append("</summary>\n\n");
    assert(out@ =~= section_header(base, head, attrs as nat, groups as nat));
    out
}

/// Renders one section: its `before → after` header, then one bullet for each group
/// of attributes that share a derivation, the shortest first.
pub fn render_section(base: State, head: State, entries: &[&Entry]) -> (out: String)
    ensures
        out@ == section_text(base, head, ref_views(entries@)),
{
    let groups = group_by_drv(entries);
    let ghost vs = ref_views(entries@);
    let ghost f = |drvs: (Option<Seq<char>>, Option<Seq<char>>)| group_line(attrs_with(vs, drvs));
    let ghost wanted = group_drvs(groups@).map_values(f);
    let mut lines: Vec<String> = Vec::new();
    let mut i: usize = 0;
    while i < groups.len()
        invariant
            i <= groups@.len(),
            f == (|drvs: (Option<Seq<char>>, Option<Seq<char>>)| group_line(attrs_with(vs, drvs))),
            wanted == group_drvs(groups@).map_values(f),
            forall|g: int|
                0 <= g < groups@.len() ==> texts((#[trigger] groups@[g]).attrs@) == attrs_with(
                    vs,
                    group_drvs(groups@)[g],
                ),
            texts(lines@) == wanted.take(i as int),
        decreases groups@.len() - i,
    {
        let ghost before = texts(lines@);
        let line = line_of_group(&groups[i].attrs);
        let ghost text = line@;
        assert(text == wanted[i as int]);
        lines.push(line);
        assert(texts(lines@) =~= before.push(text));
        i += 1;
        assert(wanted.take(i as int) =~= wanted.take(i - 1).push(wanted[i - 1]));
    }
    assert(wanted.take(i as int) =~= wanted);
    assert(wanted.len() == groups@.len());
    let lines = sort_texts(lines);
    let ghost ls = section_lines(vs);
    assert(texts(lines@) == ls);
    assert(texts(lines@).len() == lines@.len());
    proof {
        crate::order::lemma_in_order_keeps(wanted, by_text());
    }
    let mut out = header_of(base, head, entries.len(), groups.len());
    let ghost header = out@;
    let mut i: usize = 0;
    assert(ls.take(0) =~= Seq::<Seq<char>>::empty());
    assert(out@ =~= header + bullets(ls.take(0)));
    while i < lines.len()
        invariant
            i <= lines@.len(),
            texts(lines@) == ls,
            out@ == header + bullets(ls.take(i as int)),
        decreases lines@.len() - i,
    {
        assert(ls.take(i + 1).drop_last() =~= ls.take(i as int));
        assert(ls.take(i + 1).last() == lines@[i as int]@);
        out.append("- ");
        out.append(lines[i].as_str());
        out.append("\n");
        i += 1;
        assert(out@ =~= header + bullets(ls.take(i as int)));
    }
    assert(ls.take(i as int) =~= ls);
    out.append("</details>\n");
    out
}

// --- the report -------------------------------------------------------------

/// The number of backticks at the end of `s`.
pub open spec fn trailing_ticks(s: Seq<char>) -> nat
    decreases s.len(),
{
    if s.len() > 0 && s.last() == '`' {
        trailing_ticks(s.drop_last()) + 1
    } else {
        0
    }
}

/// The length of the longest run of backticks in `s`.
pub open spec fn longest_run(s: Seq<char>) -> nat
    decreases s.len(),
{
    if s.len() == 0 {
        0
    } else {
        let before = longest_run(s.drop_last());
        if trailing_ticks(s) > before {
            trailing_ticks(s)
        } else {
            before
        }
    }
}

/// No run of backticks is longer than the text.
proof fn lemma_ticks_bounded(s: Seq<char>)
    ensures
        trailing_ticks(s) <= longest_run(s) <= s.len(),
    decreases s.len(),
{
    if s.len() > 0 {
        lemma_ticks_bounded(s.drop_last());
    }
}

/// The longest run of consecutive backticks in `s`.
pub fn longest_backtick_run(s: &str) -> (run: usize)
    ensures
        run == longest_run(s@),
{
    let cs = crate::text::chars_of(s);
    let len: usize = cs.len();
    let mut max: usize = 0;
    let mut cur: usize = 0;
    let mut i: usize = 0;
    assert(s@.take(0) =~= Seq::<char>::empty());
    while i < len
        invariant
            i <= len,
            len == cs@.len(),
            cs@ == s@,
            cur == trailing_ticks(s@.take(i as int)),
            max == longest_run(s@.take(i as int)),
        decreases len - i,
    {
        proof {
            assert(s@.take(i + 1).drop_last() =~= s@.take(i as int));
            lemma_ticks_bounded(s@.take(i as int));
        }
        cur = if cs[i] == '`' {
            cur + 1
        } else {
            0
        };
        if cur > max {
            max = cur;
        }
        i += 1;
    }
    assert(s@.take(i as int) =~= s@);
    max
}

/// The fence around a command: three backticks, or more than any run in it.
pub open spec fn fence_text(command: Seq<char>) -> Seq<char> {
    repeated(
        "`"@,
        (if longest_run(command) > 2 {
            longest_run(command)
        } else {
            2
        }) + 1,
    )
}

/// A run of backticks that stands in a text is no longer than its longest run.
proof fn lemma_run_within(s: Seq<char>, i: int, n: nat)
    requires
        0 <= i,
        i + n <= s.len(),
        forall|k: int| i <= k < i + n ==> s[k] == '`',
    ensures
        n <= longest_run(s),
        i + n == s.len() ==> n <= trailing_ticks(s),
    decreases s.len(),
{
    if s.len() > 0 && n > 0 {
        let front = s.drop_last();
        if i + n == s.len() {
            lemma_run_within(front, i, (n - 1) as nat);
        } else {
            lemma_run_within(front, i, n);
        }
    }
}

/// The fence does not stand in the command that it fences, so the block cannot
/// close early.
pub proof fn lemma_fence_holds(command: Seq<char>)
    ensures
        !holds(command, fence_text(command)),
{
    let fence = fence_text(command);
    let n = (if longest_run(command) > 2 {
        longest_run(command)
    } else {
        2
    }) + 1;
    lemma_ticks(n);
    crate::search::lemma_position_of(command, fence);
    match crate::search::position_of(command, fence) {
        Some(i) => {
            assert forall|k: int| i <= k < i + n implies command[k] == '`' by {
                assert(command.subrange(i, i + n)[k - i] == command[k]);
                assert(fence[k - i] == '`');
            }
            lemma_run_within(command, i, n);
        },
        None => {},
    }
}

/// Repeated backticks are backticks.
proof fn lemma_ticks(n: nat)
    ensures
        repeated("`"@, n).len() == n,
        forall|k: int| 0 <= k < n ==> repeated("`"@, n)[k] == '`',
    decreases n,
{
    reveal_strlit("`");
    if n > 0 {
        lemma_ticks((n - 1) as nat);
    }
}

/// The legend of some states.
pub open spec fn legend_text(states: Seq<State>) -> Seq<char>
    decreases states.len(),
{
    if states.len() == 0 {
        Seq::empty()
    } else {
        legend_text(states.drop_last()) + ("- "@ + glyph_of(states.last()) + " = "@ + label_of(
            states.last(),
        ) + "\n"@)
    }
}

/// All states, in the order of the legend.
pub open spec fn all_states() -> Seq<State> {
    seq![
        State::Built,
        State::Failed,
        State::Blocked,
        State::Skipped,
        State::Unknown,
        State::Absent,
    ]
}

/// What stands above the systems: the heading, the command and the legend.
pub open spec fn head_text(
    url: Seq<char>,
    base: Seq<char>,
    head: Seq<char>,
    command: Seq<char>,
) -> Seq<char> {
    ("## [`npb`]("@ + url + ") · "@ + base + " → "@ + head + "\n\n"@)
        + "<details><summary>Expand this for a reproducible command.</summary>\n\n"@ + (fence_text(
        command,
    ) + "sh\n"@ + command + "\n"@ + fence_text(command) + "\n"@) + "</details>\n\n"@
        + "<details><summary>Expand this for a legend of all symbols below.</summary>\n\n"@
        + legend_text(all_states()) + "</details>\n"@
}

/// The sections of the entries for the given pairs of states.
pub open spec fn sections_text(entries: Seq<EntryView>, keys: Seq<(State, State)>) -> Seq<char>
    decreases keys.len(),
{
    if keys.len() == 0 {
        Seq::empty()
    } else {
        let (b, h) = keys.last();
        sections_text(entries, keys.drop_last()) + section_text(
            b,
            h,
            entries.filter(|e: EntryView| states_of(e) == (b, h)),
        )
    }
}

/// The pairs of states of some entries, worst delta first.
pub open spec fn section_keys(entries: Seq<EntryView>) -> Seq<(State, State)> {
    in_order(distinct(entries.map_values(|e: EntryView| states_of(e))), by_section())
}

/// The part of a report for one system.
pub open spec fn system_text(system: Seq<char>, entries: Seq<EntryView>) -> Seq<char> {
    "\n### `"@ + system + "`\n"@ + (if entries.len() == 0 {
        "\nNo changes.\n"@
    } else {
        sections_text(entries, section_keys(entries))
    })
}

/// The parts of a report for all systems.
pub open spec fn systems_text(per_system: Seq<(String, Vec<Entry>)>) -> Seq<char>
    decreases per_system.len(),
{
    if per_system.len() == 0 {
        Seq::empty()
    } else {
        systems_text(per_system.drop_last()) + system_text(
            per_system.last().0@,
            entry_views(per_system.last().1@),
        )
    }
}

/// A report.
pub open spec fn report_text(
    url: Seq<char>,
    base: Seq<char>,
    head: Seq<char>,
    command: Seq<char>,
    per_system: Seq<(String, Vec<Entry>)>,
) -> Seq<char> {
    head_text(url, base, head, command) + systems_text(per_system)
}

/// Appends the legend.
fn push_legend(out: &mut String)
    ensures
        final(out)@ == old(out)@ + legend_text(all_states()),
{
    let states = State::all();
    let ghost start = out@;
    let ghost all = all_states();
    let mut i: usize = 0;
    assert(all.take(0) =~= Seq::<State>::empty());
    assert(out@ =~= start + legend_text(all.take(0)));
    while i < states.len()
        invariant
            i <= states@.len(),
            states@ == all,
            out@ == start + legend_text(all.take(i as int)),
        decreases states@.len() - i,
    {
        assert(all.take(i + 1).drop_last() =~= all.take(i as int));
        out.append("- ");
        out.append(states[i].glyph());
        out.append(" = ");
        out.append(states[i].label());
        out.append("\n");
        i += 1;
        assert(out@ =~= start + legend_text(all.take(i as int)));
    }
    assert(all.take(i as int) =~= all);
}

/// What stands above the systems.
fn head_of(url: &str, base: &str, head: &str, command: &str) -> (out: String)
    ensures
        out@ == head_text(url@, base@, head@, command@),
{
    let run: usize = longest_backtick_run(command);
    let mut fence = String::new();
    push_repeated(
        &mut fence,
        "`",
        if run > 2 {
            run
        } else {
            2
        },
    );
    fence.append("`");
    proof {
        let n = if run > 2 {
            run as nat
        } else {
            2
        };
        assert(fence@ =~= repeated("`"@, n + 1));
    }
    let mut block = String::new();
    block.append(fence.as_str());
    block.append("sh\n");
    block.append(command);
    block.append("\n");
    block.append(fence.as_str());
    block.append("\n");
    let mut title = String::new();
    title.append("## [`npb`](");
    title.append(url);
    title.append(") · ");
    title.append(base);
    title.append(" → ");
    title.append(head);
    title.append("\n\n");
    assert(title@ =~= "## [`npb`]("@ + url@ + ") · "@ + base@ + " → "@ + head@ + "\n\n"@);
    assert(block@ =~= fence_text(command@) + "sh\n"@ + command@ + "\n"@ + fence_text(command@)
        + "\n"@);
    let mut out = title;
    out.append("<details><summary>Expand this for a reproducible command.</summary>\n\n");
    out.append(block.as_str());
    out.append("</details>\n\n");
    out.append("<details><summary>Expand this for a legend of all symbols below.</summary>\n\n");
    push_legend(&mut out);
    out.append("</details>\n");
    out
}

/// The pairs of states of some entries, worst delta first.
fn keys_of(entries: &[Entry]) -> (keys: Vec<(State, State)>)
    ensures
        keys@ == section_keys(entry_views(entries@)),
{
    let ghost all = entry_views(entries@).map_values(|e: EntryView| states_of(e));
    let mut keys: Vec<(State, State)> = Vec::new();
    let mut i: usize = 0;
    assert(all.take(0) =~= Seq::empty());
    while i < entries.len()
        invariant
            i <= entries@.len(),
            all == entry_views(entries@).map_values(|e: EntryView| states_of(e)),
            keys@ == distinct(all.take(i as int)),
        decreases entries@.len() - i,
    {
        let key = (entries[i].base, entries[i].head);
        assert(all.take(i + 1).drop_last() =~= all.take(i as int));
        assert(all.take(i + 1).last() == key);
        let mut at: usize = 0;
        while at < keys.len() && !(keys[at].0 == key.0 && keys[at].1 == key.1)
            invariant
                at <= keys@.len(),
                forall|k: int| 0 <= k < at ==> #[trigger] keys@[k] != key,
            decreases keys@.len() - at,
        {
            at += 1;
        }
        if at == keys.len() {
            assert(!keys@.contains(key));
            keys.push(key);
        } else {
            assert(keys@[at as int] == key);
        }
        i += 1;
    }
    assert(all.take(i as int) =~= all);
    let before = |p: &(State, State), q: &(State, State)| -> (yes: bool)
        ensures
            yes == by_section()(*p, *q),
        { section_before(*p, *q) };
    sort(keys, &before, Ghost(by_section()))
}

/// The entries in the given states.
fn bucket(entries: &[Entry], base: State, head: State) -> (out: Vec<&Entry>)
    ensures
        ref_views(out@) == entry_views(entries@).filter(
            |e: EntryView| states_of(e) == (base, head),
        ),
{
    let ghost vs = entry_views(entries@);
    let ghost pred = |e: EntryView| states_of(e) == (base, head);
    let mut out: Vec<&Entry> = Vec::new();
    let mut i: usize = 0;
    proof {
        reveal(Seq::filter);
        assert(vs.take(0) =~= Seq::<EntryView>::empty());
        assert(ref_views(out@) =~= Seq::<EntryView>::empty());
    }
    while i < entries.len()
        invariant
            i <= entries@.len(),
            vs == entry_views(entries@),
            pred == (|e: EntryView| states_of(e) == (base, head)),
            ref_views(out@) == vs.take(i as int).filter(pred),
        decreases entries@.len() - i,
    {
        proof {
            reveal(Seq::filter);
            assert(vs.take(i + 1).drop_last() =~= vs.take(i as int));
            assert(vs.take(i + 1).last() == entries@[i as int]@);
        }
        let ghost before = ref_views(out@);
        if entries[i].base == base && entries[i].head == head {
            out.push(&entries[i]);
            assert(ref_views(out@) =~= before.push(entries@[i as int]@));
        }
        i += 1;
    }
    assert(vs.take(i as int) =~= vs);
    out
}

/// The part of a report for one system.
fn render_system(system: &str, entries: &[Entry]) -> (out: String)
    ensures
        out@ == system_text(system@, entry_views(entries@)),
{
    let mut out = String::new();
    out.append("\n### `");
    out.append(system);
    out.append("`\n");
    let ghost start = out@;
    assert(start =~= "\n### `"@ + system@ + "`\n"@);
    let ghost vs = entry_views(entries@);
    if entries.len() == 0 {
        out.append("\nNo changes.\n");
        return out;
    }
    let keys = keys_of(entries);
    let mut i: usize = 0;
    assert(keys@.take(0) =~= Seq::<(State, State)>::empty());
    assert(out@ =~= start + sections_text(vs, keys@.take(0)));
    while i < keys.len()
        invariant
            i <= keys@.len(),
            vs == entry_views(entries@),
            out@ == start + sections_text(vs, keys@.take(i as int)),
        decreases keys@.len() - i,
    {
        let (b, h) = keys[i];
        assert(keys@.take(i + 1).drop_last() =~= keys@.take(i as int));
        assert(keys@.take(i + 1).last() == (b, h));
        let ghost before = out@;
        let section = render_section(b, h, &bucket(entries, b, h));
        out.append(section.as_str());
        i += 1;
        assert(out@ =~= start + sections_text(vs, keys@.take(i as int)));
    }
    assert(keys@.take(i as int) =~= keys@);
    out
}

/// Renders the entries of each system to Markdown, grouped into `before → after`
/// sections, worst delta first. `command` is the shell reproduction of the
/// changeset.
pub fn render(
    base: &str,
    head: &str,
    command: &str,
    per_system: &[(String, Vec<Entry>)],
) -> (out: String)
    ensures
        out@ == report_text(URL@, base@, head@, command@, per_system@),
{
    render_at(URL, base, head, command, per_system)
}

/// Renders a report that links to the source at `url`.
pub fn render_at(
    url: &str,
    base: &str,
    head: &str,
    command: &str,
    per_system: &[(String, Vec<Entry>)],
) -> (out: String)
    ensures
        out@ == report_text(url@, base@, head@, command@, per_system@),
{
    let mut out = head_of(url, base, head, command);
    let ghost start = out@;
    let mut i: usize = 0;
    assert(per_system@.take(0) =~= Seq::<(String, Vec<Entry>)>::empty());
    assert(out@ =~= start + systems_text(per_system@.take(0)));
    while i < per_system.len()
        invariant
            i <= per_system@.len(),
            out@ == start + systems_text(per_system@.take(i as int)),
        decreases per_system@.len() - i,
    {
        assert(per_system@.take(i + 1).drop_last() =~= per_system@.take(i as int));
        assert(per_system@.take(i + 1).last() == per_system@[i as int]);
        let part = render_system(per_system[i].0.as_str(), &per_system[i].1);
        out.append(part.as_str());
        i += 1;
        assert(out@ =~= start + systems_text(per_system@.take(i as int)));
    }
    assert(per_system@.take(i as int) =~= per_system@);
    out
}

// --- laws -------------------------------------------------------------------

/// A report of some systems is the report without the last one, followed by a part that
/// starts with the heading of the last one's name and that depends on it alone: whatever
/// else is reported, above it or before it, the part is the same. A system without
/// changes says so.
pub proof fn lemma_report_of_systems(
    a: Seq<(String, Vec<Entry>)>,
    b: Seq<(String, Vec<Entry>)>,
    last: (String, Vec<Entry>),
    url: Seq<char>,
    base: Seq<char>,
    head: Seq<char>,
    command: Seq<char>,
    above: (Seq<char>, Seq<char>, Seq<char>, Seq<char>),
)
    ensures
        ({
            let before = report_text(url, base, head, command, a);
            let whole = report_text(url, base, head, command, a.push(last));
            let part = whole.skip(before.len() as int);
            let before_b = report_text(above.0, above.1, above.2, above.3, b);
            let whole_b = report_text(above.0, above.1, above.2, above.3, b.push(last));
            &&& whole == before + part
            &&& whole_b == before_b + part
            &&& ("\n### `"@ + last.0@ + "`\n"@).is_prefix_of(part)
            &&& last.1@.len() == 0 ==> part == "\n### `"@ + last.0@ + "`\n"@ + "\nNo changes.\n"@
        }),
{
    let before = report_text(url, base, head, command, a);
    let whole = report_text(url, base, head, command, a.push(last));
    let before_b = report_text(above.0, above.1, above.2, above.3, b);
    let whole_b = report_text(above.0, above.1, above.2, above.3, b.push(last));
    let part = system_text(last.0@, entry_views(last.1@));
    assert(a.push(last).drop_last() =~= a);
    assert(b.push(last).drop_last() =~= b);
    assert(whole =~= before + part);
    assert(whole_b =~= before_b + part);
    assert(whole.skip(before.len() as int) =~= part);
    let heading = "\n### `"@ + last.0@ + "`\n"@;
    assert(part.subrange(0, heading.len() as int) =~= heading);
}

/// A report without systems is all that stands above them.
pub proof fn lemma_report_head(
    url: Seq<char>,
    base: Seq<char>,
    head: Seq<char>,
    command: Seq<char>,
    per_system: Seq<(String, Vec<Entry>)>,
)
    ensures
        report_text(url, base, head, command, Seq::empty()).is_prefix_of(
            report_text(url, base, head, command, per_system),
        ),
        ("## [`npb`]("@ + url + ") · "@ + base + " → "@ + head + "\n"@).is_prefix_of(
            report_text(url, base, head, command, per_system),
        ),
{
    let whole = report_text(url, base, head, command, per_system);
    let above = report_text(url, base, head, command, Seq::empty());
    assert(above =~= head_text(url, base, head, command));
    assert(whole.subrange(0, above.len() as int) =~= above);
    let heading = "## [`npb`]("@ + url + ") · "@ + base + " → "@ + head + "\n"@;
    reveal_strlit("\n");
    reveal_strlit("\n\n");
    assert(whole.subrange(0, heading.len() as int) =~= heading);
}

/// The sections of a system: one for each pair of states that some entry is in,
/// none twice, the worst delta first.
pub proof fn lemma_sections(entries: Seq<EntryView>)
    ensures
        forall|key: (State, State)| #[trigger]
            section_keys(entries).contains(key) <==> exists|i: int|
                0 <= i < entries.len() && states_of(#[trigger] entries[i]) == key,
        section_keys(entries).no_duplicates(),
        forall|i: int, j: int|
            0 <= i < j < section_keys(entries).len() ==> section_le(
                #[trigger] section_keys(entries)[i],
                #[trigger] section_keys(entries)[j],
            ),
{
    let all = entries.map_values(|e: EntryView| states_of(e));
    let once = distinct(all);
    let keys = section_keys(entries);
    lemma_distinct(all);
    crate::order::lemma_in_order_keeps(once, by_section());
    assert(total_preorder(by_section()));
    crate::order::lemma_in_order_sorted(once, by_section());
    assert forall|i: int, j: int| 0 <= i < j < keys.len() implies section_le(
        #[trigger] keys[i],
        #[trigger] keys[j],
    ) by {
        assert(by_section()(keys[i], keys[j]));
    }
    once.lemma_multiset_has_no_duplicates();
    keys.lemma_multiset_has_no_duplicates_conv();
    assert forall|key: (State, State)| #[trigger] keys.contains(key) <==> exists|i: int|
        0 <= i < entries.len() && states_of(#[trigger] entries[i]) == key by {
        crate::order::lemma_in_order_contains(once, by_section(), key);
        if all.contains(key) {
            let i = choose|i: int| 0 <= i < all.len() && all[i] == key;
            assert(states_of(entries[i]) == key);
        }
        if exists|i: int| 0 <= i < entries.len() && states_of(#[trigger] entries[i]) == key {
            let i = choose|i: int|
                0 <= i < entries.len() && states_of(#[trigger] entries[i]) == key;
            assert(all[i] == key);
        }
    }
}

/// A section has one line for each pair of derivations, however many attributes
/// share it.
pub proof fn lemma_one_line_per_derivation(entries: Seq<EntryView>)
    ensures
        section_lines(entries).len() == distinct(
            entries.map_values(|e: EntryView| drvs_of(e)),
        ).len(),
{
    let lines = distinct(entries.map_values(|e: EntryView| drvs_of(e))).map_values(
        |drvs: (Option<Seq<char>>, Option<Seq<char>>)| group_line(attrs_with(entries, drvs)),
    );
    crate::order::lemma_in_order_keeps(lines, by_text());
}

/// Whether two reports are of the same systems, with the same entries in any order.
pub open spec fn same_entries(
    a: Seq<(String, Vec<Entry>)>,
    b: Seq<(String, Vec<Entry>)>,
) -> bool {
    &&& a.len() == b.len()
    &&& forall|i: int|
        #![trigger a[i]]
        #![trigger b[i]]
        0 <= i < a.len() ==> a[i].0@ == b[i].0@ && entry_views(a[i].1@).to_multiset()
            == entry_views(b[i].1@).to_multiset()
}

/// A report does not depend on the order in which the entries of a system come.
pub proof fn lemma_order_of_entries(
    url: Seq<char>,
    base: Seq<char>,
    head: Seq<char>,
    command: Seq<char>,
    a: Seq<(String, Vec<Entry>)>,
    b: Seq<(String, Vec<Entry>)>,
)
    requires
        same_entries(a, b),
    ensures
        report_text(url, base, head, command, a) == report_text(url, base, head, command, b),
{
    lemma_systems_of(a, b);
}

/// The parts of a report do not depend on the order of the entries.
proof fn lemma_systems_of(a: Seq<(String, Vec<Entry>)>, b: Seq<(String, Vec<Entry>)>)
    requires
        same_entries(a, b),
    ensures
        systems_text(a) == systems_text(b),
    decreases a.len(),
{
    if a.len() > 0 {
        let i = a.len() - 1;
        assert(a[i].0@ == b[i].0@);
        assert(same_entries(a.drop_last(), b.drop_last())) by {
            assert forall|k: int|
                #![trigger a.drop_last()[k]]
                #![trigger b.drop_last()[k]]
                0 <= k < a.drop_last().len() implies a.drop_last()[k].0@ == b.drop_last()[k].0@
                && entry_views(a.drop_last()[k].1@).to_multiset() == entry_views(
                b.drop_last()[k].1@,
            ).to_multiset() by {
                assert(a[k].0@ == b[k].0@);
            }
        }
        lemma_systems_of(a.drop_last(), b.drop_last());
        lemma_system_of(a[i].0@, entry_views(a[i].1@), entry_views(b[i].1@));
    }
}

/// The part of a system does not depend on the order of its entries.
proof fn lemma_system_of(system: Seq<char>, a: Seq<EntryView>, b: Seq<EntryView>)
    requires
        a.to_multiset() == b.to_multiset(),
    ensures
        system_text(system, a) == system_text(system, b),
{
    broadcast use vstd::seq_lib::group_to_multiset_ensures;

    let f = |e: EntryView| states_of(e);
    assert(a.to_multiset().len() == a.len() && b.to_multiset().len() == b.len());
    lemma_map_of(a, b, f);
    lemma_distinct_of(a.map_values(f), b.map_values(f));
    assert(vstd::relations::total_ordering(by_section()));
    lemma_in_order_of(distinct(a.map_values(f)), distinct(b.map_values(f)), by_section());
    lemma_sections_of(a, b, section_keys(a));
}

/// Without repetitions, the same elements are the same.
proof fn lemma_distinct_of<T>(a: Seq<T>, b: Seq<T>)
    requires
        a.to_multiset() == b.to_multiset(),
    ensures
        distinct(a).to_multiset() == distinct(b).to_multiset(),
{
    broadcast use vstd::seq_lib::group_to_multiset_ensures;
    broadcast use vstd::multiset::group_multiset_axioms;

    lemma_distinct(a);
    lemma_distinct(b);
    distinct(a).lemma_multiset_has_no_duplicates();
    distinct(b).lemma_multiset_has_no_duplicates();
    assert forall|x: T| distinct(a).to_multiset().count(x) == distinct(b).to_multiset().count(
        x,
    ) by {
        assert(a.contains(x) <==> a.to_multiset().count(x) > 0);
        assert(b.contains(x) <==> b.to_multiset().count(x) > 0);
        assert(distinct(a).contains(x) <==> distinct(b).contains(x));
        assert(distinct(a).contains(x) <==> distinct(a).to_multiset().count(x) > 0);
        assert(distinct(b).contains(x) <==> distinct(b).to_multiset().count(x) > 0);
        if distinct(a).contains(x) {
            assert(distinct(a).to_multiset().contains(x));
            assert(distinct(b).to_multiset().contains(x));
        }
    }
    assert(distinct(a).to_multiset() =~= distinct(b).to_multiset());
}

/// The sections for some pairs of states do not depend on the order of the entries.
proof fn lemma_sections_of(a: Seq<EntryView>, b: Seq<EntryView>, keys: Seq<(State, State)>)
    requires
        a.to_multiset() == b.to_multiset(),
    ensures
        sections_text(a, keys) == sections_text(b, keys),
    decreases keys.len(),
{
    broadcast use vstd::seq_lib::group_to_multiset_ensures;

    if keys.len() > 0 {
        let (base, head) = keys.last();
        let pred = |e: EntryView| states_of(e) == (base, head);
        lemma_sections_of(a, b, keys.drop_last());
        lemma_filter_of(a, pred);
        lemma_filter_of(b, pred);
        assert(a.filter(pred).to_multiset().len() == a.filter(pred).len());
        assert(b.filter(pred).to_multiset().len() == b.filter(pred).len());
        lemma_section_lines_of(a.filter(pred), b.filter(pred));
    }
}

/// The lines of a section do not depend on the order of its entries.
proof fn lemma_section_lines_of(a: Seq<EntryView>, b: Seq<EntryView>)
    requires
        a.to_multiset() == b.to_multiset(),
    ensures
        section_lines(a) == section_lines(b),
{
    let f = |e: EntryView| drvs_of(e);
    let la = |drvs: (Option<Seq<char>>, Option<Seq<char>>)| group_line(attrs_with(a, drvs));
    let lb = |drvs: (Option<Seq<char>>, Option<Seq<char>>)| group_line(attrs_with(b, drvs));
    let (da, db) = (distinct(a.map_values(f)), distinct(b.map_values(f)));
    lemma_map_of(a, b, f);
    lemma_distinct_of(a.map_values(f), b.map_values(f));
    lemma_map_of(da, db, la);
    assert forall|drvs: (Option<Seq<char>>, Option<Seq<char>>)| #[trigger] la(drvs) == lb(
        drvs,
    ) by {
        lemma_group_line_of(a, b, drvs);
    }
    assert(db.map_values(la) =~= db.map_values(lb));
    lemma_text_ordering();
    lemma_in_order_of(da.map_values(la), db.map_values(lb), by_text());
}

/// The line of a pair of derivations does not depend on the order of the entries.
proof fn lemma_group_line_of(
    a: Seq<EntryView>,
    b: Seq<EntryView>,
    drvs: (Option<Seq<char>>, Option<Seq<char>>),
)
    requires
        a.to_multiset() == b.to_multiset(),
    ensures
        group_line(attrs_with(a, drvs)) == group_line(attrs_with(b, drvs)),
{
    let pred = |e: EntryView| drvs_of(e) == drvs;
    let attr = |e: EntryView| e.attr;
    lemma_attrs_filter(a, drvs);
    lemma_attrs_filter(b, drvs);
    lemma_filter_of(a, pred);
    lemma_filter_of(b, pred);
    lemma_map_of(a.filter(pred), b.filter(pred), attr);
    lemma_text_ordering();
    lemma_in_order_of(attrs_with(a, drvs), attrs_with(b, drvs), shortest_first());
}

/// The attributes with some derivations are those of the entries that have them.
proof fn lemma_attrs_filter(
    entries: Seq<EntryView>,
    drvs: (Option<Seq<char>>, Option<Seq<char>>),
)
    ensures
        attrs_with(entries, drvs) == entries.filter(
            |e: EntryView| drvs_of(e) == drvs,
        ).map_values(|e: EntryView| e.attr),
    decreases entries.len(),
{
    let pred = |e: EntryView| drvs_of(e) == drvs;
    let attr = |e: EntryView| e.attr;
    reveal(Seq::filter);
    if entries.len() == 0 {
        assert(attrs_with(entries, drvs) =~= entries.filter(pred).map_values(attr));
    } else {
        lemma_attrs_filter(entries.drop_last(), drvs);
        assert(attrs_with(entries, drvs) =~= entries.filter(pred).map_values(attr));
    }
}

/// Both orders of texts tell any two texts apart.
proof fn lemma_text_ordering()
    ensures
        vstd::relations::total_ordering(by_text()),
        vstd::relations::total_ordering(shortest_first()),
{
    assert forall|a: Seq<char>| #[trigger] text_le(a, a) by {
        crate::order::lemma_text_le_reflexive(a);
    }
    assert forall|a: Seq<char>, b: Seq<char>| #[trigger] text_le(a, b) || #[trigger] text_le(
        b,
        a,
    ) by {
        crate::order::lemma_text_le_total(a, b);
    }
    assert forall|a: Seq<char>, b: Seq<char>| #[trigger]
        text_le(a, b) && #[trigger] text_le(b, a) implies a == b by {
        crate::order::lemma_text_le_antisymmetric(a, b);
    }
    assert forall|a: Seq<char>, b: Seq<char>, c: Seq<char>| #[trigger]
        text_le(a, b) && #[trigger] text_le(b, c) implies text_le(a, c) by {
        crate::order::lemma_text_le_transitive(a, b, c);
    }
}

/// What each state is shown as, and how good each is: built is better than absent, that
/// better than not tried, that better than blocked, and that better than failed.
pub proof fn lemma_states_shown()
    ensures
        glyph_of(State::Built) == "✅"@ && label_of(State::Built) == "successfully built"@,
        glyph_of(State::Failed) == "❌"@ && label_of(State::Failed) == "failed to build"@,
        glyph_of(State::Blocked) == "🚫"@ && label_of(State::Blocked)
            == "dependency failed to build"@,
        glyph_of(State::Skipped) == "⏩"@ && label_of(State::Skipped) == "didn't try to build"@,
        glyph_of(State::Absent) == "➖"@ && label_of(State::Absent) == "doesn't exist"@,
        glyph_of(State::Unknown) == "❔"@ && label_of(State::Unknown) == "couldn't try to build"@,
        goodness_of(State::Built) > goodness_of(State::Absent),
        goodness_of(State::Absent) > goodness_of(State::Skipped),
        goodness_of(State::Skipped) > goodness_of(State::Blocked),
        goodness_of(State::Blocked) > goodness_of(State::Failed),
{
}

/// When a side is in each state, over its derivation, its mark and what was observed.
pub proof fn lemma_state_cases(drv: Option<String>, skipped: bool, obs: Seq<Observation>)
    ensures
        ({
            let out = state_of(drv, skipped, obs);
            let built = exists|i: int| 0 <= i < obs.len() && (#[trigger] obs[i]).outcome is Built;
            let failed = exists|i: int| 0 <= i < obs.len() && (#[trigger] obs[i]).outcome is Failed;
            let blocked = exists|i: int|
                0 <= i < obs.len() && (#[trigger] obs[i]).outcome is DepFailed;
            let tried = drv is Some && !skipped;
            &&& out is Absent <==> drv is None
            &&& out is Skipped <==> drv is Some && skipped
            &&& out is Built <==> tried && built
            &&& out is Failed <==> tried && !built && failed
            &&& out is Blocked <==> tried && !built && !failed && blocked
            &&& out is Unknown <==> tried && !built && !failed && !blocked
        }),
{
}

/// Above the systems stand the command that reproduces the report, between its fences,
/// and the glyph of every state with what it means.
pub proof fn lemma_report_explains(
    url: Seq<char>,
    base: Seq<char>,
    head: Seq<char>,
    command: Seq<char>,
    per_system: Seq<(String, Vec<Entry>)>,
    state: State,
)
    ensures
        holds(
            report_text(url, base, head, command, per_system),
            fence_text(command) + "sh\n"@ + command + "\n"@ + fence_text(command) + "\n"@,
        ),
        holds(
            report_text(url, base, head, command, per_system),
            "- "@ + glyph_of(state) + " = "@ + label_of(state) + "\n"@,
        ),
{
    let title = "## [`npb`]("@ + url + ") · "@ + base + " → "@ + head + "\n\n"@;
    let first = "<details><summary>Expand this for a reproducible command.</summary>\n\n"@;
    let fenced = fence_text(command) + "sh\n"@ + command + "\n"@ + fence_text(command) + "\n"@;
    let second = "</details>\n\n"@
        + "<details><summary>Expand this for a legend of all symbols below.</summary>\n\n"@;
    let legend = legend_text(all_states());
    let third = "</details>\n"@;
    let rest = systems_text(per_system);
    let whole = report_text(url, base, head, command, per_system);
    lemma_holds(title + first, fenced, second + legend + third + rest);
    assert(whole =~= title + first + fenced + (second + legend + third + rest));
    lemma_legend_holds(all_states(), place_of(state));
    assert(all_states()[place_of(state)] == state);
    lemma_holds_within(
        title + first + fenced + second,
        legend,
        third + rest,
        "- "@ + glyph_of(state) + " = "@ + label_of(state) + "\n"@,
    );
    assert(whole =~= title + first + fenced + second + legend + (third + rest));
}

/// The legend has a line for each state.
proof fn lemma_legend_holds(states: Seq<State>, i: int)
    requires
        0 <= i < states.len(),
    ensures
        holds(
            legend_text(states),
            "- "@ + glyph_of(states[i]) + " = "@ + label_of(states[i]) + "\n"@,
        ),
    decreases states.len(),
{
    let front = states.drop_last();
    let last = "- "@ + glyph_of(states.last()) + " = "@ + label_of(states.last()) + "\n"@;
    let none = Seq::<char>::empty();
    if i < front.len() {
        assert(front[i] == states[i]);
        lemma_legend_holds(front, i);
        lemma_holds_within(
            none,
            legend_text(front),
            last,
            "- "@ + glyph_of(states[i]) + " = "@ + label_of(states[i]) + "\n"@,
        );
        assert(legend_text(states) =~= none + legend_text(front) + last);
    } else {
        assert(states[i] == states.last());
        lemma_holds(legend_text(front), last, none);
        assert(legend_text(states) =~= legend_text(front) + last + none);
    }
}

/// The entries of a system that are in one pair of states.
pub open spec fn in_states(entries: Seq<EntryView>, base: State, head: State) -> Seq<EntryView> {
    entries.filter(|e: EntryView| e.base == base && e.head == head)
}

/// Every entry stands in the part of its system: in a section that starts with the
/// glyphs of its own two states, and that is made of the entries that share them.
pub proof fn lemma_entry_in_section(system: Seq<char>, entries: Seq<EntryView>, i: int)
    requires
        0 <= i < entries.len(),
    ensures
        ({
            let (base, head) = (entries[i].base, entries[i].head);
            let section = section_text(base, head, in_states(entries, base, head));
            &&& holds(system_text(system, entries), section)
            &&& ("\n<details><summary>"@ + glyph_of(base) + " → "@ + glyph_of(head) + " · "@
                + decimal(in_states(entries, base, head).len())
                + " package"@).is_prefix_of(section)
        }),
{
    let (base, head) = (entries[i].base, entries[i].head);
    let mine = in_states(entries, base, head);
    let keys = section_keys(entries);
    let title = "\n### `"@ + system + "`\n"@;
    let none = Seq::<char>::empty();
    lemma_sections(entries);
    assert(states_of(entries[i]) == (base, head));
    assert(keys.contains((base, head)));
    let k = choose|k: int| 0 <= k < keys.len() && keys[k] == (base, head);
    lemma_section_stands(entries, keys, k);
    assert(entries.filter(|e: EntryView| states_of(e) == (base, head)) == mine) by {
        lemma_filter_same(
            entries,
            |e: EntryView| states_of(e) == (base, head),
            |e: EntryView| e.base == base && e.head == head,
        );
    }
    let section = section_text(base, head, mine);
    lemma_holds_within(title, sections_text(entries, keys), none, section);
    assert(system_text(system, entries) =~= title + sections_text(entries, keys) + none);
    let opening = "\n<details><summary>"@ + glyph_of(base) + " → "@ + glyph_of(head) + " · "@
        + decimal(mine.len()) + " package"@;
    assert(section.subrange(0, opening.len() as int) =~= opening);
}

/// Two tests that agree choose alike.
proof fn lemma_filter_same(
    entries: Seq<EntryView>,
    p: spec_fn(EntryView) -> bool,
    q: spec_fn(EntryView) -> bool,
)
    requires
        forall|e: EntryView| #[trigger] p(e) == q(e),
    ensures
        entries.filter(p) == entries.filter(q),
    decreases entries.len(),
{
    reveal(Seq::filter);
    if entries.len() > 0 {
        lemma_filter_same(entries.drop_last(), p, q);
        assert(p(entries.last()) == q(entries.last()));
    }
}

/// The section of each pair of states stands among the sections.
proof fn lemma_section_stands(entries: Seq<EntryView>, keys: Seq<(State, State)>, k: int)
    requires
        0 <= k < keys.len(),
    ensures
        holds(
            sections_text(entries, keys),
            section_text(
                keys[k].0,
                keys[k].1,
                entries.filter(|e: EntryView| states_of(e) == keys[k]),
            ),
        ),
    decreases keys.len(),
{
    let front = keys.drop_last();
    let (b, h) = keys.last();
    let last = section_text(b, h, entries.filter(|e: EntryView| states_of(e) == (b, h)));
    let none = Seq::<char>::empty();
    if k < front.len() {
        lemma_section_stands(entries, front, k);
        assert(front[k] == keys[k]);
        lemma_holds_within(
            none,
            sections_text(entries, front),
            last,
            section_text(
                keys[k].0,
                keys[k].1,
                entries.filter(|e: EntryView| states_of(e) == keys[k]),
            ),
        );
        assert(sections_text(entries, keys) =~= none + sections_text(entries, front) + last);
    } else {
        lemma_holds(sections_text(entries, front), last, none);
        assert(sections_text(entries, keys) =~= sections_text(entries, front) + last + none);
        assert(keys[k] == (b, h));
    }
}

/// The attributes that share a pair of derivations are those of the entries with these
/// two derivations, as many as there are such entries.
pub proof fn lemma_attrs_share(
    entries: Seq<EntryView>,
    base_drv: Option<Seq<char>>,
    head_drv: Option<Seq<char>>,
    attr: Seq<char>,
)
    ensures
        attrs_with(entries, (base_drv, head_drv)).contains(attr) <==> exists|i: int|
            0 <= i < entries.len() && (#[trigger] entries[i]).base_drv == base_drv
                && entries[i].head_drv == head_drv && entries[i].attr == attr,
        attrs_with(entries, (base_drv, head_drv)).len() == entries.filter(
            |e: EntryView| e.base_drv == base_drv && e.head_drv == head_drv,
        ).len(),
    decreases entries.len(),
{
    reveal(Seq::filter);
    if entries.len() > 0 {
        let front = entries.drop_last();
        lemma_attrs_share(front, base_drv, head_drv, attr);
        let before = attrs_with(front, (base_drv, head_drv));
        let now = attrs_with(entries, (base_drv, head_drv));
        if before.contains(attr) {
            let k = choose|k: int| 0 <= k < before.len() && before[k] == attr;
            assert(now[k] == attr);
            let i = choose|i: int|
                0 <= i < front.len() && (#[trigger] front[i]).base_drv == base_drv
                    && front[i].head_drv == head_drv && front[i].attr == attr;
            assert(entries[i] == front[i]);
        }
        if drvs_of(entries.last()) == (base_drv, head_drv) {
            assert(now[before.len() as int] == entries.last().attr);
            assert(entries[entries.len() - 1] == entries.last());
        }
        if now.contains(attr) {
            let k = choose|k: int| 0 <= k < now.len() && now[k] == attr;
            if k < before.len() {
                assert(before[k] == attr);
            } else {
                assert(entries[entries.len() - 1].attr == attr);
            }
        }
        if exists|i: int|
            0 <= i < entries.len() && (#[trigger] entries[i]).base_drv == base_drv
                && entries[i].head_drv == head_drv && entries[i].attr == attr {
            let i = choose|i: int|
                0 <= i < entries.len() && (#[trigger] entries[i]).base_drv == base_drv
                    && entries[i].head_drv == head_drv && entries[i].attr == attr;
            if i < front.len() {
                assert(front[i] == entries[i]);
            }
        }
    }
}

/// In the section of some entries each of them stands in one line, with all those that
/// share its two derivations: every one of these attributes is in that line.
pub proof fn lemma_entry_in_line(base: State, head: State, entries: Seq<EntryView>, i: int, j: int)
    requires
        0 <= i < entries.len(),
        0 <= j < entries.len(),
        entries[j].base_drv == entries[i].base_drv,
        entries[j].head_drv == entries[i].head_drv,
    ensures
        ({
            let line = group_line(
                attrs_with(entries, (entries[i].base_drv, entries[i].head_drv)),
            );
            &&& holds(section_text(base, head, entries), "- "@ + line + "\n"@)
            &&& holds(line, "`"@ + entries[j].attr + "`"@)
        }),
{
    let drvs = (entries[i].base_drv, entries[i].head_drv);
    let attrs = attrs_with(entries, drvs);
    let line = group_line(attrs);
    let pairs = entries.map_values(|e: EntryView| drvs_of(e));
    let made = distinct(pairs).map_values(
        |drvs: (Option<Seq<char>>, Option<Seq<char>>)| group_line(attrs_with(entries, drvs)),
    );
    let lines = section_lines(entries);
    lemma_distinct(pairs);
    assert(pairs[i] == drvs);
    assert(distinct(pairs).contains(drvs));
    let k = choose|k: int| 0 <= k < distinct(pairs).len() && distinct(pairs)[k] == drvs;
    assert(made[k] == line);
    assert(made.contains(line));
    crate::order::lemma_in_order_contains(made, by_text(), line);
    let m = choose|m: int| 0 <= m < lines.len() && lines[m] == line;
    lemma_bullet_holds(lines, m);
    lemma_holds_within(
        section_header(base, head, entries.len(), lines.len()),
        bullets(lines),
        "</details>\n"@,
        "- "@ + line + "\n"@,
    );
    lemma_attrs_share(entries, drvs.0, drvs.1, entries[j].attr);
    assert(attrs.contains(entries[j].attr));
    let spans = in_order(attrs, shortest_first()).map_values(|a: Seq<char>| "`"@ + a + "`"@);
    crate::order::lemma_in_order_contains(attrs, shortest_first(), entries[j].attr);
    let n = choose|n: int|
        0 <= n < in_order(attrs, shortest_first()).len() && in_order(attrs, shortest_first())[n]
            == entries[j].attr;
    assert(spans[n] == "`"@ + entries[j].attr + "`"@);
    lemma_joined_holds(spans, " = "@, n);
}

/// Every line has its bullet.
proof fn lemma_bullet_holds(lines: Seq<Seq<char>>, m: int)
    requires
        0 <= m < lines.len(),
    ensures
        holds(bullets(lines), "- "@ + lines[m] + "\n"@),
    decreases lines.len(),
{
    let front = lines.drop_last();
    let last = "- "@ + lines.last() + "\n"@;
    let none = Seq::<char>::empty();
    if m < front.len() {
        assert(front[m] == lines[m]);
        lemma_bullet_holds(front, m);
        lemma_holds_within(none, bullets(front), last, "- "@ + lines[m] + "\n"@);
        assert(bullets(lines) =~= none + bullets(front) + last);
    } else {
        assert(lines[m] == lines.last());
        lemma_holds(bullets(front), last, none);
        assert(bullets(lines) =~= bullets(front) + last + none);
    }
}

/// What was joined holds each part.
proof fn lemma_joined_holds(ps: Seq<Seq<char>>, sep: Seq<char>, n: int)
    requires
        0 <= n < ps.len(),
    ensures
        holds(joined(ps, sep), ps[n]),
    decreases ps.len(),
{
    let none = Seq::<char>::empty();
    if ps.len() == 1 {
        lemma_holds(none, ps[0], none);
        assert(joined(ps, sep) =~= none + ps[0] + none);
    } else if n < ps.len() - 1 {
        assert(ps.drop_last()[n] == ps[n]);
        lemma_joined_holds(ps.drop_last(), sep, n);
        lemma_holds_within(none, joined(ps.drop_last(), sep), sep + ps.last(), ps[n]);
        assert(joined(ps, sep) =~= none + joined(ps.drop_last(), sep) + (sep + ps.last()));
    } else {
        assert(ps[n] == ps.last());
        lemma_holds(joined(ps.drop_last(), sep) + sep, ps.last(), none);
        assert(joined(ps, sep) =~= joined(ps.drop_last(), sep) + sep + ps.last() + none);
    }
}

/// The attributes of a line stand shortest first, and those of one length in the order of
/// text.
pub proof fn lemma_line_order(attrs: Seq<Seq<char>>)
    ensures
        ({
            let order = in_order(attrs, shortest_first());
            &&& order.to_multiset() == attrs.to_multiset()
            &&& forall|a: int, b: int|
                0 <= a < b < order.len() ==> byte_len(#[trigger] order[a]) < byte_len(
                    #[trigger] order[b],
                ) || (byte_len(order[a]) == byte_len(order[b]) && text_le(order[a], order[b]))
        }),
{
    let order = in_order(attrs, shortest_first());
    crate::order::lemma_in_order_keeps(attrs, shortest_first());
    lemma_text_ordering();
    assert(total_preorder(shortest_first()));
    crate::order::lemma_in_order_sorted(attrs, shortest_first());
    assert forall|a: int, b: int| 0 <= a < b < order.len() implies byte_len(#[trigger] order[a])
        < byte_len(#[trigger] order[b]) || (byte_len(order[a]) == byte_len(order[b]) && text_le(
        order[a],
        order[b],
    )) by {
        assert(shortest_first()(order[a], order[b]));
    }
}

/// A fence is made of backticks, three at least, and of no more than it takes.
pub proof fn lemma_fence(command: Seq<char>)
    ensures
        fence_text(command).len() >= 3,
        forall|i: int|
            0 <= i < fence_text(command).len() ==> #[trigger] fence_text(command)[i] == '`',
        fence_text(command).len() > 3 ==> exists|i: int|
            0 <= i && i + fence_text(command).len() - 1 <= command.len() && #[trigger] ticks_at(
                command,
                i,
                fence_text(command).len() - 1,
            ),
{
    let n = (if longest_run(command) > 2 {
        longest_run(command)
    } else {
        2
    }) + 1;
    lemma_ticks(n);
    if n > 3 {
        lemma_run_attained(command);
    }
}

/// Whether `n` backticks stand at a place.
pub open spec fn ticks_at(s: Seq<char>, i: int, n: int) -> bool {
    forall|k: int| i <= k < i + n ==> #[trigger] s[k] == '`'
}

/// The longest run stands somewhere, and the last one at the end.
proof fn lemma_run_attained(s: Seq<char>)
    ensures
        exists|i: int|
            0 <= i && i + longest_run(s) <= s.len() && #[trigger] ticks_at(
                s,
                i,
                longest_run(s) as int,
            ),
        trailing_ticks(s) <= s.len(),
        ticks_at(s, s.len() - trailing_ticks(s), trailing_ticks(s) as int),
    decreases s.len(),
{
    if s.len() > 0 {
        let front = s.drop_last();
        lemma_run_attained(front);
        if s.last() == '`' {
            assert forall|k: int| s.len() - trailing_ticks(s) <= k < s.len() implies #[trigger] s[k]
                == '`' by {
                if k < s.len() - 1 {
                    assert(front[k] == '`');
                }
            }
        }
        if trailing_ticks(s) > longest_run(front) {
            assert(ticks_at(s, s.len() - trailing_ticks(s), longest_run(s) as int));
        } else {
            let i = choose|i: int|
                0 <= i && i + longest_run(front) <= front.len() && #[trigger] ticks_at(
                    front,
                    i,
                    longest_run(front) as int,
                );
            assert forall|k: int| i <= k < i + longest_run(s) implies #[trigger] s[k] == '`' by {
                assert(front[k] == '`');
            }
            assert(ticks_at(s, i, longest_run(s) as int));
        }
    } else {
        assert(ticks_at(s, 0, longest_run(s) as int));
    }
}

/// An entry is seen as its fields say.
pub proof fn lemma_entry_seen_as(e: Entry)
    ensures
        e@.attr == e.attr@,
        e@.base_drv == opt_text(e.base_drv),
        e@.head_drv == opt_text(e.head_drv),
        e@.base == e.base,
        e@.head == e.head,
{
}

/// The header of a section counts its packages, and says how many differ where that is
/// another number.
pub proof fn lemma_header_counts(base: State, head: State, attrs: nat, groups: nat)
    ensures
        ({
            let start = "\n<details><summary>"@ + glyph_of(base) + " → "@ + glyph_of(head) + " · "@
                + decimal(attrs) + " package"@;
            let end = "</summary>\n\n"@;
            let header = section_header(base, head, attrs, groups);
            &&& attrs == 1 && groups == 1 ==> header == start + end
            &&& attrs != 1 && groups == attrs ==> header == start + "s"@ + end
            &&& attrs != 1 && groups != attrs ==> header == start + "s"@ + " ("@ + decimal(groups)
                + " unique)"@ + end
        }),
{
    let start = "\n<details><summary>"@ + glyph_of(base) + " → "@ + glyph_of(head) + " · "@
        + decimal(attrs) + " package"@;
    let end = "</summary>\n\n"@;
    let header = section_header(base, head, attrs, groups);
    if groups == attrs {
        if attrs == 1 {
            assert(header =~= start + end);
        } else {
            assert(header =~= start + "s"@ + end);
        }
    } else if attrs != 1 {
        assert(header =~= start + "s"@ + " ("@ + decimal(groups) + " unique)"@ + end);
    }
}

/// The lines of a section stand in the order of text.
pub proof fn lemma_lines_sorted(entries: Seq<EntryView>)
    ensures
        forall|i: int, j: int|
            0 <= i < j < section_lines(entries).len() ==> text_le(
                #[trigger] section_lines(entries)[i],
                #[trigger] section_lines(entries)[j],
            ),
{
    let made = distinct(entries.map_values(|e: EntryView| drvs_of(e))).map_values(
        |drvs: (Option<Seq<char>>, Option<Seq<char>>)| group_line(attrs_with(entries, drvs)),
    );
    let lines = section_lines(entries);
    crate::order::lemma_by_text();
    crate::order::lemma_in_order_sorted(made, by_text());
    assert forall|i: int, j: int| 0 <= i < j < lines.len() implies text_le(
        #[trigger] lines[i],
        #[trigger] lines[j],
    ) by {
        assert(by_text()(lines[i], lines[j]));
    }
}

/// The key of a section is by how much the head is better than the base, then how good the
/// head is; one without a fact on a side comes after all that have one on both.
pub proof fn lemma_priority(base: State, head: State)
    ensures
        base is Unknown || head is Unknown ==> priority_of(base, head) == (1int, 0int, 0int),
        !(base is Unknown) && !(head is Unknown) ==> priority_of(base, head).0 == 0 && priority_of(
            base,
            head,
        ).1 == goodness_of(head) - goodness_of(base) && priority_of(base, head).2 == goodness_of(
            head,
        ),
{
}

} // verus!
