//! The fact store: what the rows of the observation log and of the test cache
//! mean. The log is only ever appended to; what was observed of a derivation is
//! all of its rows, oldest first.

use vstd::hash_map::StringHashMap;
use vstd::prelude::*;

use crate::model::{AttrEval, Observation, ObservationView, Outcome, TestJob};
use crate::outside::{quoted, quoted_text};
use crate::report::distinct;
use crate::search::{
    lemma_parts_of_joined, parts, split, strip_prefix, strip_suffix, without_prefix, without_suffix,
};
use crate::text::{clone_texts, contains_text, join, joined, opt_text, texts};

verus! {

// --- labels -----------------------------------------------------------------

/// Where a fact comes from.
#[derive(Debug, Clone, Copy, PartialEq, Eq, Structural)]
pub enum Source {
    Local,
    Cache,
}

/// The label of a source.
pub open spec fn source_label(s: Source) -> Seq<char> {
    match s {
        Source::Local => "local"@,
        Source::Cache => "cache"@,
    }
}

/// The label of an outcome.
pub open spec fn outcome_label(o: Outcome) -> Seq<char> {
    match o {
        Outcome::Built => "built"@,
        Outcome::Failed => "failed"@,
        Outcome::DepFailed => "dep-failed"@,
    }
}

/// A row that the store holds and that means nothing.
#[derive(Debug)]
pub enum StoreError {
    UnknownSource(String),
    UnknownOutcome(String),
}

impl StoreError {
    /// What to tell the user.
    pub fn message(&self) -> (out: String)
        ensures
            out@ == (match *self {
                StoreError::UnknownSource(s) => "unknown observation source in store: "@
                    + quoted_text(s@),
                StoreError::UnknownOutcome(s) => "unknown observation outcome in store: "@
                    + quoted_text(s@),
            }),
    {
        let mut out = String::new();
        match self {
            StoreError::UnknownSource(s) => {
                out.append("unknown observation source in store: ");
                out.append(quoted(s.as_str()).as_str());
            },
            StoreError::UnknownOutcome(s) => {
                out.append("unknown observation outcome in store: ");
                out.append(quoted(s.as_str()).as_str());
            },
        }
        out
    }
}

pub fn source_str(s: Source) -> (out: &'static str)
    ensures
        out@ == source_label(s),
{
    match s {
        Source::Local => "local",
        Source::Cache => "cache",
    }
}

/// The source of a label, or the label where it is none.
pub fn source_from(s: &str) -> (out: Result<Source, StoreError>)
    ensures
        match out {
            Ok(source) => s@ == source_label(source),
            Err(e) => {
                &&& forall|source: Source| s@ != #[trigger] source_label(source)
                &&& e matches StoreError::UnknownSource(label) && label@ == s@
            },
        },
{
    if *s == *"local" {
        Ok(Source::Local)
    } else if *s == *"cache" {
        Ok(Source::Cache)
    } else {
        Err(StoreError::UnknownSource(s.to_owned()))
    }
}

pub fn outcome_str(o: Outcome) -> (out: &'static str)
    ensures
        out@ == outcome_label(o),
{
    match o {
        Outcome::Built => "built",
        Outcome::Failed => "failed",
        Outcome::DepFailed => "dep-failed",
    }
}

/// The outcome of a label, or the label where it is none.
pub fn outcome_from(s: &str) -> (out: Result<Outcome, StoreError>)
    ensures
        match out {
            Ok(outcome) => s@ == outcome_label(outcome),
            Err(e) => {
                &&& forall|outcome: Outcome| s@ != #[trigger] outcome_label(outcome)
                &&& e matches StoreError::UnknownOutcome(label) && label@ == s@
            },
        },
{
    if *s == *"built" {
        Ok(Outcome::Built)
    } else if *s == *"failed" {
        Ok(Outcome::Failed)
    } else if *s == *"dep-failed" {
        Ok(Outcome::DepFailed)
    } else {
        Err(StoreError::UnknownOutcome(s.to_owned()))
    }
}

/// Labels tell sources and outcomes apart, so that what is read of a label is what
/// was written.
pub proof fn lemma_labels(a: Source, b: Source, p: Outcome, q: Outcome)
    ensures
        source_label(a) == source_label(b) ==> a == b,
        outcome_label(p) == outcome_label(q) ==> p == q,
{
    reveal_strlit("local");
    reveal_strlit("cache");
    reveal_strlit("built");
    reveal_strlit("failed");
    reveal_strlit("dep-failed");
    assert("local"@[0] == 'l');
    assert("cache"@[0] == 'c');
    assert("built"@[0] == 'b');
    assert("failed"@[0] == 'f');
    assert("dep-failed"@[0] == 'd');
}

// --- the observation log ----------------------------------------------------

/// A fact about a derivation, as the log holds it: an observation, where it comes
/// from and when it was made (Unix seconds).
#[derive(Debug)]
pub struct Record {
    pub drv_path: String,
    pub source: Source,
    pub outcome: Outcome,
    pub when: i64,
    pub blocker: Vec<String>,
}

/// What a [`Record`] says.
#[verifier::ext_equal]
pub struct RecordView {
    pub drv_path: Seq<char>,
    pub source: Source,
    pub outcome: Outcome,
    pub when: int,
    pub blocker: Seq<Seq<char>>,
}

impl View for Record {
    type V = RecordView;

    open spec fn view(&self) -> RecordView {
        RecordView {
            drv_path: self.drv_path@,
            source: self.source,
            outcome: self.outcome,
            when: self.when as int,
            blocker: texts(self.blocker@),
        }
    }
}

/// A row of the log.
#[derive(Debug)]
pub struct Row {
    pub drv_path: String,
    pub source: String,
    pub outcome: String,
    pub when: i64,
    pub blocker: Option<String>,
}

/// What a [`Row`] holds.
#[verifier::ext_equal]
pub struct RowView {
    pub drv_path: Seq<char>,
    pub source: Seq<char>,
    pub outcome: Seq<char>,
    pub when: int,
    pub blocker: Option<Seq<char>>,
}

impl View for Row {
    type V = RowView;

    open spec fn view(&self) -> RowView {
        RowView {
            drv_path: self.drv_path@,
            source: self.source@,
            outcome: self.outcome@,
            when: self.when as int,
            blocker: opt_text(self.blocker),
        }
    }
}

/// The row of a record. Blocker paths stand on lines; without any there is none.
pub open spec fn row_of(r: RecordView) -> RowView {
    RowView {
        drv_path: r.drv_path,
        source: source_label(r.source),
        outcome: outcome_label(r.outcome),
        when: r.when,
        blocker: if r.blocker.len() == 0 {
            None
        } else {
            Some(joined(r.blocker, "\n"@))
        },
    }
}

/// The blocker paths of a row.
pub open spec fn blocker_paths(blocker: Option<Seq<char>>) -> Seq<Seq<char>> {
    match blocker {
        Some(s) => if s.len() == 0 {
            Seq::empty()
        } else {
            parts(s, '\n')
        },
        None => Seq::empty(),
    }
}

/// Whether `r` is what the row `row` records.
pub open spec fn reads_as(row: RowView, r: RecordView) -> bool {
    &&& row.drv_path == r.drv_path
    &&& row.source == source_label(r.source)
    &&& row.outcome == outcome_label(r.outcome)
    &&& row.when == r.when
    &&& blocker_paths(row.blocker) == r.blocker
}

/// The row to append for a record.
pub fn add_observation(o: &Record) -> (row: Row)
    ensures
        row@ == row_of(o@),
{
    let blocker = if o.blocker.len() == 0 {
        None
    } else {
        Some(join(&o.blocker, "\n"))
    };
    assert(texts(o.blocker@).len() == o.blocker@.len());
    Row {
        drv_path: o.drv_path.clone(),
        source: source_str(o.source).to_owned(),
        outcome: outcome_str(o.outcome).to_owned(),
        when: o.when,
        blocker,
    }
}

/// Whether `e` is what is wrong with a row: its source, or where that is known its
/// outcome.
pub open spec fn refused_as(row: RowView, e: StoreError) -> bool {
    match e {
        StoreError::UnknownSource(s) => {
            &&& s@ == row.source
            &&& forall|source: Source| row.source != #[trigger] source_label(source)
        },
        StoreError::UnknownOutcome(s) => {
            &&& s@ == row.outcome
            &&& exists|source: Source| row.source == #[trigger] source_label(source)
            &&& forall|outcome: Outcome| row.outcome != #[trigger] outcome_label(outcome)
        },
    }
}

/// What a row records, or what of it means nothing. The source is looked at first.
pub fn read_row(row: &Row) -> (out: Result<Record, StoreError>)
    ensures
        match out {
            Ok(r) => reads_as(row@, r@),
            Err(e) => refused_as(row@, e),
        },
{
    let source = match source_from(row.source.as_str()) {
        Ok(source) => source,
        Err(e) => {
            return Err(e);
        },
    };
    assert(row@.source == source_label(source));
    let outcome = match outcome_from(row.outcome.as_str()) {
        Ok(outcome) => outcome,
        Err(e) => {
            return Err(e);
        },
    };
    let blocker = match &row.blocker {
        Some(s) => if s.as_str().unicode_len() == 0 {
            Vec::new()
        } else {
            split(s.as_str(), '\n')
        },
        None => Vec::new(),
    };
    assert(texts(blocker@) =~= blocker_paths(row@.blocker));
    Ok(Record { drv_path: row.drv_path.clone(), source, outcome, when: row.when, blocker })
}

/// A record that is written and read again is the same record, where no blocker
/// path holds a line feed (store paths never do) and it is not one empty path.
pub proof fn lemma_record_round_trip(r: RecordView, back: RecordView)
    requires
        forall|i: int| 0 <= i < r.blocker.len() ==> !(#[trigger] r.blocker[i]).contains('\n'),
        r.blocker != seq![Seq::<char>::empty()],
        reads_as(row_of(r), back),
    ensures
        back == r,
{
    lemma_labels(r.source, back.source, r.outcome, back.outcome);
    reveal_strlit("\n");
    assert("\n"@ =~= seq!['\n']);
    if r.blocker.len() > 0 {
        lemma_parts_of_joined(r.blocker, '\n');
        let s = joined(r.blocker, seq!['\n']);
        if s.len() == 0 {
            assert(crate::search::char_position(s, '\n') == 0);
            assert(parts(s, '\n') =~= seq![s]);
            assert(s =~= Seq::<char>::empty());
        }
        assert(back.blocker =~= r.blocker);
    } else {
        assert(back.blocker =~= r.blocker);
    }
    assert(back =~= r);
}

impl Record {
    /// The observation that the record makes.
    pub fn observation(&self) -> (out: Observation)
        ensures
            out@ == (ObservationView {
                drv_path: self@.drv_path,
                outcome: self@.outcome,
                blocker: self@.blocker,
            }),
    {
        Observation {
            drv_path: self.drv_path.clone(),
            outcome: self.outcome,
            blocker: clone_texts(&self.blocker),
        }
    }
}

/// What rows hold.
pub open spec fn row_views(rows: Seq<Row>) -> Seq<RowView> {
    rows.map_values(|r: Row| r@)
}

/// What records say.
pub open spec fn record_views(records: Seq<Record>) -> Seq<RecordView> {
    records.map_values(|r: Record| r@)
}

/// Whether a row can be read.
pub open spec fn readable(row: RowView) -> bool {
    &&& exists|source: Source| row.source == #[trigger] source_label(source)
    &&& exists|outcome: Outcome| row.outcome == #[trigger] outcome_label(outcome)
}

/// Whether `records` are what `rows` record, one for one.
pub open spec fn all_read_as(rows: Seq<RowView>, records: Seq<RecordView>) -> bool {
    &&& rows.len() == records.len()
    &&& forall|i: int|
        0 <= i < rows.len() ==> reads_as(#[trigger] rows[i], #[trigger] records[i])
}

/// The records of one derivation, in order.
pub open spec fn records_of(records: Seq<RecordView>, drv: Seq<char>) -> Seq<RecordView>
    decreases records.len(),
{
    if records.len() == 0 {
        Seq::empty()
    } else {
        let before = records_of(records.drop_last(), drv);
        if records.last().drv_path == drv {
            before.push(records.last())
        } else {
            before
        }
    }
}

/// Whether `i` is the first row that cannot be read.
pub open spec fn first_unreadable(rows: Seq<RowView>, i: int) -> bool {
    &&& 0 <= i < rows.len()
    &&& !readable(rows[i])
    &&& forall|j: int| 0 <= j < i ==> readable(#[trigger] rows[j])
}

/// Reads rows, which come oldest first; one that cannot be read fails all, and the
/// first such row says with what.
pub fn read_rows(rows: &[Row]) -> (out: Result<Vec<Record>, StoreError>)
    ensures
        match out {
            Ok(records) => all_read_as(row_views(rows@), record_views(records@)),
            Err(e) => exists|i: int| #[trigger]
                first_unreadable(row_views(rows@), i) && refused_as(row_views(rows@)[i], e),
        },
{
    let ghost rs = row_views(rows@);
    let mut records: Vec<Record> = Vec::new();
    let mut i: usize = 0;
    while i < rows.len()
        invariant
            i <= rows@.len(),
            rs == row_views(rows@),
            all_read_as(rs.take(i as int), record_views(records@)),
        decreases rows@.len() - i,
    {
        let ghost before = record_views(records@);
        match read_row(&rows[i]) {
            Ok(r) => {
                let ghost v = r@;
                records.push(r);
                proof {
                    assert(record_views(records@) =~= before.push(v));
                    assert(rs.take(i + 1) =~= rs.take(i as int).push(rs[i as int]));
                    assert forall|k: int| 0 <= k < rs.take(i + 1).len() implies reads_as(
                        #[trigger] rs.take(i + 1)[k],
                        #[trigger] record_views(records@)[k],
                    ) by {
                        if k < i {
                            assert(reads_as(rs.take(i as int)[k], before[k]));
                        }
                    }
                }
            },
            Err(e) => {
                assert(rs[i as int] == rows@[i as int]@);
                assert(!readable(rs[i as int]));
                assert forall|j: int| 0 <= j < i implies readable(#[trigger] rs[j]) by {
                    let r = record_views(records@)[j];
                    assert(reads_as(rs.take(i as int)[j], r));
                    assert(rs[j].source == source_label(r.source));
                    assert(rs[j].outcome == outcome_label(r.outcome));
                }
                assert(first_unreadable(rs, i as int));
                return Err(e);
            },
        }
        i += 1;
    }
    assert(rs.take(i as int) =~= rs);
    Ok(records)
}

/// All observations of one derivation, oldest first.
pub fn load_observations(records: &[Record], drv: &str) -> (out: Vec<Observation>)
    ensures
        out@.len() == records_of(record_views(records@), drv@).len(),
        forall|i: int|
            0 <= i < out@.len() ==> (#[trigger] out@[i])@ == observation_of(
                records_of(record_views(records@), drv@)[i],
            ),
{
    let ghost all = record_views(records@);
    let mut out: Vec<Observation> = Vec::new();
    let mut i: usize = 0;
    assert(all.take(0) =~= Seq::<RecordView>::empty());
    while i < records.len()
        invariant
            i <= records@.len(),
            all == record_views(records@),
            out@.len() == records_of(all.take(i as int), drv@).len(),
            forall|k: int|
                0 <= k < out@.len() ==> (#[trigger] out@[k])@ == observation_of(
                    records_of(all.take(i as int), drv@)[k],
                ),
        decreases records@.len() - i,
    {
        assert(all.take(i + 1).drop_last() =~= all.take(i as int));
        assert(all.take(i + 1).last() == records@[i as int]@);
        if *records[i].drv_path.as_str() == *drv {
            out.push(records[i].observation());
        }
        i += 1;
    }
    assert(all.take(i as int) =~= all);
    out
}

/// A copy of a record.
fn copy_record(r: &Record) -> (c: Record)
    ensures
        c@ == r@,
{
    Record {
        drv_path: r.drv_path.clone(),
        source: r.source,
        outcome: r.outcome,
        when: r.when,
        blocker: clone_texts(r.blocker.as_slice()),
    }
}

/// Copies of records.
fn copy_records(records: &[Record]) -> (out: Vec<Record>)
    ensures
        record_views(out@) == record_views(records@),
{
    let mut out: Vec<Record> = Vec::new();
    let mut i: usize = 0;
    while i < records.len()
        invariant
            i <= records@.len(),
            record_views(out@) == record_views(records@).take(i as int),
        decreases records@.len() - i,
    {
        let ghost before = record_views(out@);
        let c = copy_record(&records[i]);
        let ghost v = c@;
        out.push(c);
        assert(record_views(out@) =~= before.push(v));
        assert(record_views(records@).take(i + 1) =~= before.push(v));
        i += 1;
    }
    assert(record_views(records@).take(i as int) =~= record_views(records@));
    out
}

/// Whether `groups`, found by `at`, hold the records of each derivation that has any.
spec fn grouped(
    records: Seq<RecordView>,
    at: Map<Seq<char>, usize>,
    groups: Seq<Vec<Record>>,
) -> bool {
    &&& forall|drv: Seq<char>| #[trigger]
        at.contains_key(drv) ==> at[drv] < groups.len() && record_views(groups[at[drv] as int]@)
            == records_of(records, drv)
    &&& forall|drv: Seq<char>|
        !(#[trigger] at.contains_key(drv)) ==> records_of(records, drv).len() == 0
    &&& forall|a: Seq<char>, b: Seq<char>| #[trigger]
        at.contains_key(a) && #[trigger] at.contains_key(b) && a != b ==> at[a] != at[b]
}

/// The records of many derivations, found in one pass: for each of `drvs` its own,
/// oldest first; none for one that has none.
pub fn load_observations_many(records: &[Record], drvs: &[String]) -> (out: Vec<Vec<Record>>)
    ensures
        out@.len() == drvs@.len(),
        forall|i: int|
            0 <= i < out@.len() ==> record_views((#[trigger] out@[i])@) == records_of(
                record_views(records@),
                drvs@[i]@,
            ),
{
    let ghost all = record_views(records@);
    let mut at: StringHashMap<usize> = StringHashMap::new();
    let mut groups: Vec<Vec<Record>> = Vec::new();
    let mut i: usize = 0;
    assert(all.take(0) =~= Seq::<RecordView>::empty());
    while i < records.len()
        invariant
            i <= records@.len(),
            all == record_views(records@),
            grouped(all.take(i as int), at@, groups@),
        decreases records@.len() - i,
    {
        let ghost next = all.take(i + 1);
        let ghost drv = records@[i as int].drv_path@;
        let ghost at_before = at@;
        let ghost groups_before = groups@;
        let r = copy_record(&records[i]);
        let ghost v = r@;
        assert(next.drop_last() =~= all.take(i as int));
        assert(next.last() == v);
        match at.get(records[i].drv_path.as_str()) {
            Some(place) => {
                let g: usize = *place;
                groups[g].push(r);
                proof {
                    assert(record_views(groups@[g as int]@) =~= record_views(
                        groups_before[g as int]@,
                    ).push(v));
                    assert forall|d: Seq<char>| #[trigger] at@.contains_key(d) implies at@[d]
                        < groups@.len() && record_views(groups@[at@[d] as int]@) == records_of(
                        next,
                        d,
                    ) by {
                        if d != drv {
                            assert(at@[d] != g);
                            assert(groups@[at@[d] as int] == groups_before[at@[d] as int]);
                        }
                    }
                }
            },
            None => {
                let g: usize = groups.len();
                let mut group: Vec<Record> = Vec::new();
                group.push(r);
                assert(record_views(group@) =~= Seq::<RecordView>::empty().push(v));
                groups.push(group);
                at.insert(records[i].drv_path.clone(), g);
                proof {
                    assert(records_of(all.take(i as int), drv) =~= Seq::<RecordView>::empty());
                    assert forall|d: Seq<char>| #[trigger] at@.contains_key(d) implies at@[d]
                        < groups@.len() && record_views(groups@[at@[d] as int]@) == records_of(
                        next,
                        d,
                    ) by {
                        if d != drv {
                            assert(at_before.contains_key(d));
                            assert(groups@[at@[d] as int] == groups_before[at@[d] as int]);
                        }
                    }
                    assert forall|d: Seq<char>| !(#[trigger] at@.contains_key(d)) implies records_of(
                        next,
                        d,
                    ).len() == 0 by {
                        assert(!at_before.contains_key(d));
                    }
                    assert forall|a: Seq<char>, b: Seq<char>| #[trigger]
                        at@.contains_key(a) && #[trigger] at@.contains_key(b) && a
                            != b implies at@[a] != at@[b] by {
                        assert(a != drv ==> at_before.contains_key(a));
                        assert(b != drv ==> at_before.contains_key(b));
                    }
                }
            },
        }
        i += 1;
    }
    assert(all.take(i as int) =~= all);
    let mut out: Vec<Vec<Record>> = Vec::new();
    let mut k: usize = 0;
    while k < drvs.len()
        invariant
            k <= drvs@.len(),
            grouped(all, at@, groups@),
            out@.len() == k,
            forall|j: int|
                0 <= j < out@.len() ==> record_views((#[trigger] out@[j])@) == records_of(
                    all,
                    drvs@[j]@,
                ),
        decreases drvs@.len() - k,
    {
        let found: Vec<Record> = match at.get(drvs[k].as_str()) {
            Some(place) => copy_records(groups[*place].as_slice()),
            None => {
                let none: Vec<Record> = Vec::new();
                assert(record_views(none@) =~= records_of(all, drvs@[k as int]@));
                none
            },
        };
        out.push(found);
        k += 1;
    }
    out
}

/// The log is only appended to: what was observed of a derivation stays, in its
/// order, before what is observed later.
pub proof fn lemma_log_appends(
    records: Seq<RecordView>,
    more: Seq<RecordView>,
    drv: Seq<char>,
)
    ensures
        records_of(records + more, drv) == records_of(records, drv) + records_of(more, drv),
    decreases more.len(),
{
    if more.len() == 0 {
        assert(records + more =~= records);
        assert(records_of(more, drv) =~= Seq::<RecordView>::empty());
    } else {
        lemma_log_appends(records, more.drop_last(), drv);
        assert((records + more).drop_last() =~= records + more.drop_last());
        assert((records + more).last() == more.last());
        assert(records_of(records + more, drv) =~= records_of(records, drv) + records_of(
            more,
            drv,
        ));
    }
}

/// The observation that a record makes.
pub open spec fn observation_of(r: RecordView) -> ObservationView {
    ObservationView { drv_path: r.drv_path, outcome: r.outcome, blocker: r.blocker }
}

/// Whether every local fact about a derivation is a failure: there is one, and
/// nothing, local or cached, is a success.
pub open spec fn only_fails(records: Seq<RecordView>, drv: Seq<char>) -> bool {
    &&& exists|i: int|
        0 <= i < records.len() && (#[trigger] records[i]).drv_path == drv && records[i].source
            == Source::Local
    &&& forall|i: int|
        0 <= i < records.len() && (#[trigger] records[i]).drv_path == drv ==> records[i].outcome
            != Outcome::Built
}

/// Whether the records of `drv` among `records` are failures only.
fn fails_only(records: &[Record], drv: &str) -> (yes: bool)
    ensures
        yes == only_fails(record_views(records@), drv@),
{
    let ghost all = record_views(records@);
    let mut local = false;
    let mut i: usize = 0;
    while i < records.len()
        invariant
            i <= records@.len(),
            all == record_views(records@),
            local == exists|k: int|
                0 <= k < i && (#[trigger] all[k]).drv_path == drv@ && all[k].source
                    == Source::Local,
            forall|k: int|
                0 <= k < i && (#[trigger] all[k]).drv_path == drv@ ==> all[k].outcome
                    != Outcome::Built,
        decreases records@.len() - i,
    {
        assert(all[i as int] == records@[i as int]@);
        if *records[i].drv_path.as_str() == *drv {
            if records[i].outcome == Outcome::Built {
                return false;
            }
            if records[i].source == Source::Local {
                local = true;
            }
        }
        i += 1;
    }
    local
}

/// Every derivation whose local history is failures only. Such a derivation blocks
/// what depends on it; one that ever built, or that a substituter has, blocks
/// nothing.
pub open spec fn failing(records: Seq<RecordView>) -> Seq<Seq<char>> {
    distinct(records.map_values(|r: RecordView| r.drv_path)).filter(
        |drv: Seq<char>| only_fails(records, drv),
    )
}

/// Every derivation whose local history is failures only, in the order in which
/// the log first names them.
pub fn failing_drvs(records: &[Record]) -> (out: Vec<String>)
    ensures
        texts(out@) == failing(record_views(records@)),
{
    let ghost all = record_views(records@);
    let ghost names = all.map_values(|r: RecordView| r.drv_path);
    let mut drvs: Vec<String> = Vec::new();
    let mut i: usize = 0;
    assert(names.take(0) =~= Seq::<Seq<char>>::empty());
    assert(texts(drvs@) =~= Seq::<Seq<char>>::empty());
    while i < records.len()
        invariant
            i <= records@.len(),
            all == record_views(records@),
            names == all.map_values(|r: RecordView| r.drv_path),
            texts(drvs@) == distinct(names.take(i as int)),
        decreases records@.len() - i,
    {
        assert(names.take(i + 1).drop_last() =~= names.take(i as int));
        assert(names.take(i + 1).last() == records@[i as int].drv_path@);
        let ghost before = texts(drvs@);
        if !contains_text(&drvs, records[i].drv_path.as_str()) {
            drvs.push(records[i].drv_path.clone());
            assert(texts(drvs@) =~= before.push(records@[i as int].drv_path@));
        }
        i += 1;
    }
    assert(names.take(i as int) =~= names);
    let ghost pred = |drv: Seq<char>| only_fails(all, drv);
    let ghost ds = texts(drvs@);
    let mut out: Vec<String> = Vec::new();
    let mut k: usize = 0;
    proof {
        reveal(Seq::filter);
        assert(ds.take(0) =~= Seq::<Seq<char>>::empty());
        assert(texts(out@) =~= Seq::<Seq<char>>::empty());
    }
    while k < drvs.len()
        invariant
            k <= drvs@.len(),
            all == record_views(records@),
            pred == (|drv: Seq<char>| only_fails(all, drv)),
            ds == texts(drvs@),
            texts(out@) == ds.take(k as int).filter(pred),
        decreases drvs@.len() - k,
    {
        proof {
            reveal(Seq::filter);
            assert(ds.take(k + 1).drop_last() =~= ds.take(k as int));
            assert(ds.take(k + 1).last() == drvs@[k as int]@);
        }
        let ghost before = texts(out@);
        if fails_only(records, drvs[k].as_str()) {
            out.push(drvs[k].clone());
            assert(texts(out@) =~= before.push(drvs@[k as int]@));
        }
        k += 1;
    }
    assert(ds.take(k as int) =~= ds);
    out
}

/// A derivation is listed as failing if and only if its local history is failures
/// only.
pub proof fn lemma_failing(records: Seq<RecordView>, drv: Seq<char>)
    ensures
        failing(records).contains(drv) <==> only_fails(records, drv),
{
    let names = records.map_values(|r: RecordView| r.drv_path);
    let once = distinct(names);
    let pred = |d: Seq<char>| only_fails(records, d);
    crate::report::lemma_distinct(names);
    if only_fails(records, drv) {
        let i = choose|i: int|
            0 <= i < records.len() && (#[trigger] records[i]).drv_path == drv
                && records[i].source == Source::Local;
        assert(names[i] == drv);
        assert(names.contains(drv));
        assert(once.contains(drv));
        let k = choose|k: int| 0 <= k < once.len() && once[k] == drv;
        once.lemma_filter_contains(pred, k);
    }
    if failing(records).contains(drv) {
        let f = once.filter(pred);
        let k = choose|k: int| 0 <= k < f.len() && f[k] == drv;
        once.lemma_filter_pred(pred, k);
    }
}

// --- SQL --------------------------------------------------------------------

/// A comma-joined run of `n` bind placeholders (`?,?,…`).
pub open spec fn placeholder_text(n: nat) -> Seq<char>
    decreases n,
{
    if n == 0 {
        Seq::empty()
    } else if n == 1 {
        "?"@
    } else {
        placeholder_text((n - 1) as nat) + ","@ + "?"@
    }
}

/// A comma-joined run of `n` SQL bind placeholders for an `IN (…)` clause.
pub fn placeholders(n: usize) -> (out: String)
    ensures
        out@ == placeholder_text(n as nat),
{
    let mut out = String::new();
    let mut i: usize = 0;
    while i < n
        invariant
            i <= n,
            out@ == placeholder_text(i as nat),
        decreases n - i,
    {
        let ghost before = out@;
        if i > 0 {
            out.append(",");
        }
        out.append("?");
        i += 1;
        assert(i == 1 ==> out@ =~= "?"@);
        assert(i > 1 ==> out@ =~= before + ","@ + "?"@);
    }
    out
}

/// The query that loads the observations of `n` derivations, oldest first.
pub fn load_many_sql(n: usize) -> (out: String)
    ensures
        out@
            == "SELECT drv_path, source, outcome, when_, blocker FROM observation WHERE drv_path IN ("@
            + placeholder_text(n as nat) + ") ORDER BY when_, id"@,
{
    let mut out = String::new();
    out.append(
        "SELECT drv_path, source, outcome, when_, blocker FROM observation WHERE drv_path IN (",
    );
    out.append(placeholders(n).as_str());
    out.append(") ORDER BY when_, id");
    assert(out@
        =~= "SELECT drv_path, source, outcome, when_, blocker FROM observation WHERE drv_path IN ("@
        + placeholder_text(n as nat) + ") ORDER BY when_, id"@);
    out
}

/// The query that tells which of `n` packages have had their tests evaluated at a
/// key.
pub fn cached_pkgs_sql(n: usize) -> (out: String)
    ensures
        out@ == "SELECT pkg_attr FROM test_pkg WHERE key_id = ?1 AND pkg_attr IN ("@
            + placeholder_text(n as nat) + ")"@,
{
    let mut out = String::new();
    out.append("SELECT pkg_attr FROM test_pkg WHERE key_id = ?1 AND pkg_attr IN (");
    out.append(placeholders(n).as_str());
    out.append(")");
    assert(out@ =~= "SELECT pkg_attr FROM test_pkg WHERE key_id = ?1 AND pkg_attr IN ("@
        + placeholder_text(n as nat) + ")"@);
    out
}

/// The query that loads the test derivations of `n` packages at a key.
pub fn test_drvs_sql(n: usize) -> (out: String)
    ensures
        out@
            == "SELECT test_attr, drv_path, skipped FROM test_drv WHERE key_id = ?1 AND pkg_attr IN ("@
            + placeholder_text(n as nat) + ")"@,
{
    let mut out = String::new();
    out.append(
        "SELECT test_attr, drv_path, skipped FROM test_drv WHERE key_id = ?1 AND pkg_attr IN (",
    );
    out.append(placeholders(n).as_str());
    out.append(")");
    assert(out@
        =~= "SELECT test_attr, drv_path, skipped FROM test_drv WHERE key_id = ?1 AND pkg_attr IN ("@
        + placeholder_text(n as nat) + ")"@);
    out
}

// --- the test cache ---------------------------------------------------------

/// What every derivation path starts with.
pub const STORE_PREFIX: &'static str = "/nix/store/";

/// What every derivation path ends with.
pub const DRV_SUFFIX: &'static str = ".drv";

/// A derivation path without its constant affixes; one that lacks them stays.
pub open spec fn stripped(drv: Seq<char>) -> Seq<char> {
    match without_prefix(drv, STORE_PREFIX@) {
        Some(rest) => match without_suffix(rest, DRV_SUFFIX@) {
            Some(name) => name,
            None => drv,
        },
        None => drv,
    }
}

/// A stored derivation path with its constant affixes; one that is a path already
/// stays.
pub open spec fn restored(stored: Seq<char>) -> Seq<char> {
    if seq!['/'].is_prefix_of(stored) {
        stored
    } else {
        STORE_PREFIX@ + stored + DRV_SUFFIX@
    }
}

/// A derivation path as it is stored.
pub fn strip_drv(drv: &str) -> (out: String)
    ensures
        out@ == stripped(drv@),
{
    match strip_prefix(drv, STORE_PREFIX) {
        Some(rest) => match strip_suffix(rest, DRV_SUFFIX) {
            Some(name) => name.to_owned(),
            None => drv.to_owned(),
        },
        None => drv.to_owned(),
    }
}

/// The derivation path that was stored.
pub fn restore_drv(stored: &str) -> (out: String)
    ensures
        out@ == restored(stored@),
{
    let len: usize = stored.unicode_len();
    if len > 0 && stored.get_char(0) == '/' {
        assert(seq!['/'] =~= stored@.subrange(0, 1));
        return stored.to_owned();
    }
    assert(!seq!['/'].is_prefix_of(stored@)) by {
        if seq!['/'].is_prefix_of(stored@) {
            assert(stored@.subrange(0, 1)[0] == '/');
        }
    }
    let mut out = String::new();
    out.append(STORE_PREFIX);
    out.append(stored);
    out.append(DRV_SUFFIX);
    assert(out@ =~= STORE_PREFIX@ + stored@ + DRV_SUFFIX@);
    out
}

/// A path that is stored and restored is the same path: every derivation directly
/// in the store, and every other path that starts at the root.
pub proof fn lemma_drv_round_trip(drv: Seq<char>)
    requires
        storable(drv),
    ensures
        restored(stripped(drv)) == drv,
{
    if stripped(drv) == drv {
        assert(seq!['/'] =~= drv.subrange(0, 1));
    } else {
        let rest = drv.skip(STORE_PREFIX@.len() as int);
        let name = rest.take(rest.len() - DRV_SUFFIX@.len());
        assert(stripped(drv) == name);
        assert(drv =~= STORE_PREFIX@ + rest);
        assert(rest =~= name + DRV_SUFFIX@);
        assert(restored(name) =~= drv);
    }
}

/// A row of the test cache: a test that resolved to a derivation.
#[derive(Debug)]
pub struct TestRow {
    pub pkg_attr: String,
    pub test_attr: String,
    pub drv_path: String,
    pub skipped: bool,
}

/// What a [`TestRow`] holds.
#[verifier::ext_equal]
pub struct TestRowView {
    pub pkg_attr: Seq<char>,
    pub test_attr: Seq<char>,
    pub drv_path: Seq<char>,
    pub skipped: bool,
}

impl View for TestRow {
    type V = TestRowView;

    open spec fn view(&self) -> TestRowView {
        TestRowView {
            pkg_attr: self.pkg_attr@,
            test_attr: self.test_attr@,
            drv_path: self.drv_path@,
            skipped: self.skipped,
        }
    }
}

/// The rows of some test jobs: one for each that resolved to a derivation, whose
/// path is stored without its affixes.
pub open spec fn job_rows(jobs: Seq<TestJob>) -> Seq<TestRowView>
    decreases jobs.len(),
{
    if jobs.len() == 0 {
        Seq::empty()
    } else {
        let before = job_rows(jobs.drop_last());
        match jobs.last().drv_path {
            Some(drv) => before.push(
                TestRowView {
                    pkg_attr: jobs.last().pkg_attr@,
                    test_attr: jobs.last().test_attr@,
                    drv_path: stripped(drv@),
                    skipped: jobs.last().skipped,
                },
            ),
            None => before,
        }
    }
}

/// What test rows hold.
pub open spec fn test_row_views(rows: Seq<TestRow>) -> Seq<TestRowView> {
    rows.map_values(|r: TestRow| r@)
}

/// The rows to write for the jobs of a test evaluation. A test that errored has
/// none.
pub fn cache_test_eval(jobs: &[TestJob]) -> (rows: Vec<TestRow>)
    ensures
        test_row_views(rows@) == job_rows(jobs@),
{
    let mut rows: Vec<TestRow> = Vec::new();
    let mut i: usize = 0;
    assert(jobs@.take(0) =~= Seq::<TestJob>::empty());
    assert(test_row_views(rows@) =~= Seq::<TestRowView>::empty());
    while i < jobs.len()
        invariant
            i <= jobs@.len(),
            test_row_views(rows@) == job_rows(jobs@.take(i as int)),
        decreases jobs@.len() - i,
    {
        assert(jobs@.take(i + 1).drop_last() =~= jobs@.take(i as int));
        let ghost before = test_row_views(rows@);
        match &jobs[i].drv_path {
            Some(drv) => {
                let row = TestRow {
                    pkg_attr: jobs[i].pkg_attr.clone(),
                    test_attr: jobs[i].test_attr.clone(),
                    drv_path: strip_drv(drv.as_str()),
                    skipped: jobs[i].skipped,
                };
                let ghost v = row@;
                rows.push(row);
                assert(test_row_views(rows@) =~= before.push(v));
            },
            None => {},
        }
        i += 1;
    }
    assert(jobs@.take(i as int) =~= jobs@);
    rows
}

/// A test that resolved to a derivation: its attribute, its derivation, and whether
/// it is marked as not to be built.
pub type TestDrv = (Seq<char>, Seq<char>, bool);

/// The tests of some rows, their paths restored.
pub open spec fn row_drvs(rows: Seq<TestRowView>) -> Seq<TestDrv> {
    rows.map_values(|r: TestRowView| (r.test_attr, restored(r.drv_path), r.skipped))
}

/// The tests of some jobs that resolved to a derivation.
pub open spec fn job_drvs(jobs: Seq<TestJob>) -> Seq<TestDrv>
    decreases jobs.len(),
{
    if jobs.len() == 0 {
        Seq::empty()
    } else {
        let before = job_drvs(jobs.drop_last());
        match jobs.last().drv_path {
            Some(drv) => before.push((jobs.last().test_attr@, drv@, jobs.last().skipped)),
            None => before,
        }
    }
}

/// What an evaluated test says.
pub open spec fn test_drv(e: AttrEval) -> TestDrv {
    (
        e.attr@,
        match e.drv_path {
            Some(drv) => drv@,
            None => Seq::empty(),
        },
        e.skipped,
    )
}

/// The cached tests of some rows, as they were evaluated.
pub fn tests_drvs_for(rows: &[TestRow]) -> (out: Vec<AttrEval>)
    ensures
        out@.map_values(|e: AttrEval| test_drv(e)) == row_drvs(test_row_views(rows@)),
        forall|i: int| 0 <= i < out@.len() ==> (#[trigger] out@[i]).drv_path is Some,
{
    let mut out: Vec<AttrEval> = Vec::new();
    let mut i: usize = 0;
    while i < rows.len()
        invariant
            i <= rows@.len(),
            out@.len() == i,
            forall|k: int|
                0 <= k < i ==> (#[trigger] out@[k]).drv_path is Some && test_drv(out@[k])
                    == row_drvs(test_row_views(rows@))[k],
        decreases rows@.len() - i,
    {
        let row: &TestRow = &rows[i];
        out.push(
            AttrEval {
                attr: row.test_attr.clone(),
                drv_path: Some(restore_drv(row.drv_path.as_str())),
                skipped: row.skipped,
            },
        );
        i += 1;
    }
    assert(out@.map_values(|e: AttrEval| test_drv(e)) =~= row_drvs(test_row_views(rows@)));
    out
}

/// Whether a derivation path is one that is read back as it was written.
pub open spec fn storable(drv: Seq<char>) -> bool {
    drv.len() > 0 && drv[0] == '/' && (stripped(drv) != drv ==> !seq!['/'].is_prefix_of(
        stripped(drv),
    ))
}

/// What is read of the test cache is what was written: the tests that resolved to a
/// derivation, each with its path and its mark, and no others.
pub proof fn lemma_test_round_trip(jobs: Seq<TestJob>)
    requires
        forall|i: int|
            0 <= i < jobs.len() ==> ((#[trigger] jobs[i]).drv_path matches Some(drv) ==> storable(
                drv@,
            )),
    ensures
        row_drvs(job_rows(jobs)) == job_drvs(jobs),
    decreases jobs.len(),
{
    if jobs.len() > 0 {
        let front = jobs.drop_last();
        assert forall|i: int| 0 <= i < front.len() implies ((#[trigger] front[i]).drv_path matches Some(
            drv,
        ) ==> storable(drv@)) by {
            assert(front[i] == jobs[i]);
        }
        lemma_test_round_trip(front);
        let last = jobs.last();
        assert(last == jobs[jobs.len() - 1]);
        match last.drv_path {
            Some(drv) => {
                lemma_drv_round_trip(drv@);
                assert(row_drvs(job_rows(jobs)) =~= row_drvs(job_rows(front)).push(
                    (last.test_attr@, drv@, last.skipped),
                ));
            },
            None => {},
        }
    } else {
        assert(row_drvs(job_rows(jobs)) =~= Seq::<TestDrv>::empty());
    }
}

// --- laws -------------------------------------------------------------------

/// What each source and each outcome is written as.
pub proof fn lemma_labels_written()
    ensures
        source_label(Source::Local) == "local"@,
        source_label(Source::Cache) == "cache"@,
        outcome_label(Outcome::Built) == "built"@,
        outcome_label(Outcome::Failed) == "failed"@,
        outcome_label(Outcome::DepFailed) == "dep-failed"@,
{
}

/// A row says of its record which derivation it is of, what happened, when and by whom,
/// and names the paths that decide it anew, where there are some.
pub proof fn lemma_row_says(r: RecordView)
    ensures
        row_of(r).drv_path == r.drv_path,
        row_of(r).when == r.when,
        row_of(r).source == source_label(r.source),
        row_of(r).outcome == outcome_label(r.outcome),
        row_of(r).blocker is None <==> r.blocker.len() == 0,
        observation_of(r).drv_path == r.drv_path,
        observation_of(r).outcome == r.outcome,
        observation_of(r).blocker == r.blocker,
{
}

/// The records of a derivation are those that name it, in the order of the log.
pub proof fn lemma_records_of(records: Seq<RecordView>, drv: Seq<char>)
    ensures
        records_of(records, drv) == records.filter(|r: RecordView| r.drv_path == drv),
    decreases records.len(),
{
    reveal(Seq::filter);
    if records.len() > 0 {
        lemma_records_of(records.drop_last(), drv);
    }
}

/// A derivation fails, as far as the log knows, if and only if a local record of it is
/// there and no record of a success, and it is listed once.
pub proof fn lemma_failing_cases(records: Seq<RecordView>, drv: Seq<char>)
    ensures
        failing(records).contains(drv) <==> (exists|i: int|
            0 <= i < records.len() && (#[trigger] records[i]).drv_path == drv && records[i].source
                is Local) && forall|i: int|
            0 <= i < records.len() && (#[trigger] records[i]).drv_path == drv ==> !(
            records[i].outcome is Built),
        failing(records).no_duplicates(),
{
    lemma_failing(records, drv);
    let all = distinct(records.map_values(|r: RecordView| r.drv_path));
    crate::report::lemma_distinct(records.map_values(|r: RecordView| r.drv_path));
    lemma_chosen_once(all, |drv: Seq<char>| only_fails(records, drv));
}

/// Choosing keeps what stands once standing once.
proof fn lemma_chosen_once(s: Seq<Seq<char>>, pred: spec_fn(Seq<char>) -> bool)
    requires
        s.no_duplicates(),
    ensures
        s.filter(pred).no_duplicates(),
    decreases s.len(),
{
    reveal(Seq::filter);
    if s.len() > 0 {
        let front = s.drop_last();
        lemma_chosen_once(front, pred);
        let kept = front.filter(pred);
        if kept.contains(s.last()) {
            front.lemma_filter_contains_rev(pred, s.last());
            let k = choose|k: int| 0 <= k < front.len() && front[k] == s.last();
            assert(s[k] == s[s.len() - 1]);
        }
        assert forall|a: int| 0 <= a < kept.len() implies kept[a] != s.last() by {
            assert(kept.contains(kept[a]));
        }
    }
}

/// There is one place for each parameter, with a comma between each two.
pub proof fn lemma_placeholders(n: nat)
    requires
        n > 0,
    ensures
        parts(placeholder_text(n), ',') == Seq::new(n, |i: int| seq!['?']),
{
    let ps = Seq::new(n, |i: int| seq!['?']);
    lemma_placeholders_joined(n);
    assert forall|i: int| 0 <= i < ps.len() implies !(#[trigger] ps[i]).contains(',') by {}
    lemma_parts_of_joined(ps, ',');
}

/// The places are joined with commas.
proof fn lemma_placeholders_joined(n: nat)
    requires
        n > 0,
    ensures
        placeholder_text(n) == joined(Seq::new(n, |i: int| seq!['?']), seq![',']),
    decreases n,
{
    reveal_strlit("?");
    reveal_strlit(",");
    let ps = Seq::new(n, |i: int| seq!['?']);
    assert("?"@ =~= seq!['?']);
    assert(","@ =~= seq![',']);
    if n > 1 {
        lemma_placeholders_joined((n - 1) as nat);
        assert(ps.drop_last() =~= Seq::new((n - 1) as nat, |i: int| seq!['?']));
        assert(ps.last() == seq!['?']);
    } else {
        assert(ps[0] == seq!['?']);
    }
}

/// A test is cached if and only if it has a derivation, with its own package, label and
/// mark; as many rows are written as there are such tests.
pub proof fn lemma_test_rows(jobs: Seq<TestJob>, row: TestRowView)
    ensures
        job_rows(jobs).contains(row) <==> exists|i: int|
            0 <= i < jobs.len() && (#[trigger] jobs[i]).drv_path is Some && row.pkg_attr
                == jobs[i].pkg_attr@ && row.test_attr == jobs[i].test_attr@ && row.drv_path
                == stripped(jobs[i].drv_path->0@) && row.skipped == jobs[i].skipped,
        job_rows(jobs).len() == jobs.filter(|j: TestJob| j.drv_path is Some).len(),
    decreases jobs.len(),
{
    reveal(Seq::filter);
    if jobs.len() > 0 {
        let front = jobs.drop_last();
        let n = jobs.len() - 1;
        let before = job_rows(front);
        let now = job_rows(jobs);
        lemma_test_rows(front, row);
        assert forall|i: int| 0 <= i < n implies front[i] == jobs[i] by {}
        if before.contains(row) {
            let k = choose|k: int| 0 <= k < before.len() && before[k] == row;
            assert(now[k] == row);
            let i = choose|i: int|
                0 <= i < front.len() && (#[trigger] front[i]).drv_path is Some && row.pkg_attr
                    == front[i].pkg_attr@ && row.test_attr == front[i].test_attr@ && row.drv_path
                    == stripped(front[i].drv_path->0@) && row.skipped == front[i].skipped;
            assert(jobs[i].drv_path is Some);
        }
        if jobs[n].drv_path is Some {
            assert(now.len() == before.len() + 1);
            if row.pkg_attr == jobs[n].pkg_attr@ && row.test_attr == jobs[n].test_attr@
                && row.drv_path == stripped(jobs[n].drv_path->0@) && row.skipped
                == jobs[n].skipped {
                assert(now[before.len() as int] =~= row);
            }
        }
        if now.contains(row) {
            let k = choose|k: int| 0 <= k < now.len() && now[k] == row;
            if k < before.len() {
                assert(before[k] == row);
            } else {
                assert(jobs[n].drv_path is Some);
            }
        }
        if exists|i: int|
            0 <= i < jobs.len() && (#[trigger] jobs[i]).drv_path is Some && row.pkg_attr
                == jobs[i].pkg_attr@ && row.test_attr == jobs[i].test_attr@ && row.drv_path
                == stripped(jobs[i].drv_path->0@) && row.skipped == jobs[i].skipped {
            let i = choose|i: int|
                0 <= i < jobs.len() && (#[trigger] jobs[i]).drv_path is Some && row.pkg_attr
                    == jobs[i].pkg_attr@ && row.test_attr == jobs[i].test_attr@ && row.drv_path
                    == stripped(jobs[i].drv_path->0@) && row.skipped == jobs[i].skipped;
            if i < n {
                assert(front[i].drv_path is Some);
            }
        }
    }
}

/// A derivation in the store is kept by its name alone, and any other path as it is.
pub proof fn lemma_stripped(name: Seq<char>, path: Seq<char>)
    ensures
        stripped("/nix/store/"@ + name + ".drv"@) == name,
        !"/nix/store/"@.is_prefix_of(path) ==> stripped(path) == path,
        !".drv"@.is_suffix_of(path) ==> stripped(path) == path,
{
    let drv = "/nix/store/"@ + name + ".drv"@;
    let rest = name + ".drv"@;
    assert(drv.subrange(0, "/nix/store/"@.len() as int) =~= "/nix/store/"@);
    assert(drv.skip("/nix/store/"@.len() as int) =~= rest);
    assert(rest.subrange(rest.len() - ".drv"@.len(), rest.len() as int) =~= ".drv"@);
    assert(rest.take(rest.len() - ".drv"@.len()) =~= name);
    if !".drv"@.is_suffix_of(path) && "/nix/store/"@.is_prefix_of(path) {
        let tail = path.skip("/nix/store/"@.len() as int);
        if ".drv"@.is_suffix_of(tail) {
            assert(path.subrange(path.len() - ".drv"@.len(), path.len() as int) =~= tail.subrange(
                tail.len() - ".drv"@.len(),
                tail.len() as int,
            ));
        }
    }
}

/// Records, rows and rows of tests are seen as their fields say.
pub proof fn lemma_rows_seen_as(r: Record, row: Row, t: TestRow)
    ensures
        r@.drv_path == r.drv_path@ && r@.source == r.source && r@.outcome == r.outcome,
        r@.when == r.when && r@.blocker == texts(r.blocker@),
        row@.drv_path == row.drv_path@ && row@.source == row.source@ && row@.outcome
            == row.outcome@,
        row@.when == row.when && row@.blocker == opt_text(row.blocker),
        t@.pkg_attr == t.pkg_attr@ && t@.test_attr == t.test_attr@,
        t@.drv_path == t.drv_path@ && t@.skipped == t.skipped,
{
}

/// A row is refused for its source where that is none, whatever its outcome is, and for
/// its outcome only where its source is one.
pub proof fn lemma_refused(row: RowView, e: StoreError)
    requires
        refused_as(row, e),
    ensures
        !(row.source == "local"@ || row.source == "cache"@) <==> e is UnknownSource,
        e matches StoreError::UnknownSource(s) ==> s@ == row.source,
        e matches StoreError::UnknownOutcome(s) ==> s@ == row.outcome && row.outcome != "built"@
            && row.outcome != "failed"@ && row.outcome != "dep-failed"@,
{
    assert(source_label(Source::Local) == "local"@);
    assert(source_label(Source::Cache) == "cache"@);
    assert(outcome_label(Outcome::Built) == "built"@);
    assert(outcome_label(Outcome::Failed) == "failed"@);
    assert(outcome_label(Outcome::DepFailed) == "dep-failed"@);
    if e is UnknownOutcome {
        let source = choose|source: Source| row.source == #[trigger] source_label(source);
        assert(source is Local || source is Cache);
    }
}

/// Rows are read one for one and in their order: each record is of the derivation of its
/// row, at its time, and with what its labels say.
pub proof fn lemma_rows_read(rows: Seq<RowView>, records: Seq<RecordView>, i: int)
    requires
        all_read_as(rows, records),
        0 <= i < rows.len(),
    ensures
        records.len() == rows.len(),
        records[i].drv_path == rows[i].drv_path,
        records[i].when == rows[i].when,
        source_label(records[i].source) == rows[i].source,
        outcome_label(records[i].outcome) == rows[i].outcome,
        rows[i].blocker is None ==> records[i].blocker.len() == 0,
        rows[i].blocker is Some && rows[i].blocker->0.len() > 0 ==> joined(
            records[i].blocker,
            seq!['\n'],
        ) == rows[i].blocker->0,
{
    assert(reads_as(rows[i], records[i]));
    if rows[i].blocker is Some {
        crate::search::lemma_parts_join(rows[i].blocker->0, '\n');
    }
}

/// The first row that cannot be read has a label that is none, and all before it have
/// labels that are some.
pub proof fn lemma_first_unreadable(rows: Seq<RowView>, i: int, j: int)
    requires
        first_unreadable(rows, i),
        0 <= j < i,
    ensures
        rows[j].source == "local"@ || rows[j].source == "cache"@,
        rows[j].outcome == "built"@ || rows[j].outcome == "failed"@ || rows[j].outcome
            == "dep-failed"@,
        !((rows[i].source == "local"@ || rows[i].source == "cache"@) && (rows[i].outcome
            == "built"@ || rows[i].outcome == "failed"@ || rows[i].outcome == "dep-failed"@)),
{
    assert(readable(rows[j]));
    let s = choose|source: Source| rows[j].source == #[trigger] source_label(source);
    let o = choose|outcome: Outcome| rows[j].outcome == #[trigger] outcome_label(outcome);
    assert(s is Local || s is Cache);
    assert(o is Built || o is Failed || o is DepFailed);
    assert(source_label(Source::Local) == "local"@);
    assert(source_label(Source::Cache) == "cache"@);
    assert(outcome_label(Outcome::Built) == "built"@);
    assert(outcome_label(Outcome::Failed) == "failed"@);
    assert(outcome_label(Outcome::DepFailed) == "dep-failed"@);
}

/// A cached test is an attribute with its label, its derivation and its mark.
pub proof fn lemma_test_read(e: AttrEval, row: TestRowView)
    requires
        e.drv_path is Some,
        seq![test_drv(e)] == row_drvs(seq![row]),
    ensures
        e.attr@ == row.test_attr,
        e.drv_path->0@ == restored(row.drv_path),
        e.skipped == row.skipped,
{
    assert(seq![test_drv(e)][0] == row_drvs(seq![row])[0]);
}

} // verus!
