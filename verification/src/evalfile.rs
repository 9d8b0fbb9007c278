//! Evaluations: how they are stored, and what changed between two of them.

use vstd::hash_map::StringHashMap;
use vstd::prelude::*;

use crate::model::AttrEval;
use crate::order::{
    in_order, le, lemma_in_order_contains, lemma_in_order_keeps, lemma_text_le_total,
    lemma_text_le_transitive, sort, text_le, total_preorder,
};
use crate::search::{line_texts, parts, split, split_lines, without_suffix};
use crate::store::{lemma_drv_round_trip, restore_drv, restored, storable, strip_drv, stripped};
use crate::text::{clone_opt, joined, opt_text, texts};

verus! {

// --- files ------------------------------------------------------------------

/// The file of an evaluation below the root of the cache: `<key>/<tree>.tsv.zst`.
pub open spec fn file_text(key: Seq<char>, tree: Seq<char>) -> Seq<char> {
    key + "/"@ + tree + ".tsv.zst"@
}

/// The file of an evaluation below the root of the cache.
pub fn eval_path(tree: &str, key: &str) -> (out: String)
    ensures
        out@ == file_text(key@, tree@),
{
    let mut out = String::new();
    out.append(key);
    out.append("/");
    out.append(tree);
    out.append(".tsv.zst");
    assert(out@ =~= file_text(key@, tree@));
    out
}

/// The tree of an evaluation can be told from its file's name.
pub proof fn lemma_tree_of_file(tree: Seq<char>)
    ensures
        without_suffix(tree + ".tsv.zst"@, ".tsv.zst"@) == Some(tree),
{
    let s = tree + ".tsv.zst"@;
    assert(s.subrange(tree.len() as int, s.len() as int) =~= ".tsv.zst"@);
    assert(s.take(tree.len() as int) =~= tree);
}

/// The fields of the line of one attribute: its name; its derivation without the
/// constant affixes, or nothing where it errored; and a mark where it is not to be
/// built.
pub open spec fn line_fields(e: AttrEval) -> Seq<Seq<char>> {
    let drv = match e.drv_path {
        Some(drv) => stripped(drv@),
        None => Seq::empty(),
    };
    if e.skipped {
        seq![e.attr@, drv, "!"@]
    } else {
        seq![e.attr@, drv]
    }
}

/// The line of one attribute in an evaluation's file.
pub fn write_line(e: &AttrEval) -> (out: String)
    ensures
        out@ == joined(line_fields(*e), "\t"@),
{
    let mut out = e.attr.clone();
    out.append("\t");
    if let Some(drv) = &e.drv_path {
        out.append(strip_drv(drv.as_str()).as_str());
    }
    if e.skipped {
        out.append("\t");
        out.append("!");
    }
    proof {
        reveal_with_fuel(joined, 4);
        let fields = line_fields(*e);
        let two = seq![fields[0], fields[1]];
        assert(two.drop_last() =~= seq![e.attr@]);
        if e.skipped {
            assert(fields.drop_last() =~= two);
        }
        assert(out@ =~= joined(fields, "\t"@));
    }
    out
}

/// The attribute that a line's fields describe.
pub open spec fn line_reads(fields: Seq<Seq<char>>, e: AttrEval) -> bool {
    &&& fields.len() > 0 && e.attr@ == fields[0]
    &&& opt_text(e.drv_path) == (if fields.len() > 1 && fields[1].len() > 0 {
        Some(restored(fields[1]))
    } else {
        None
    })
    &&& e.skipped == (fields.len() > 2 && fields[2] == "!"@)
}

/// The attribute that a line of an evaluation's file describes.
pub fn read_line(line: &str) -> (e: AttrEval)
    ensures
        line_reads(parts(line@, '\t'), e),
{
    let fields = split(line, '\t');
    let ghost fs = parts(line@, '\t');
    proof {
        crate::search::lemma_parts_nonempty(line@, '\t');
        assert(texts(fields@).len() == fields@.len());
        assert forall|i: int| 0 <= i < fields@.len() implies fs[i] == (#[trigger] fields@[i])@ by {
            assert(texts(fields@)[i] == fields@[i]@);
        }
    }
    let drv_path = if fields.len() > 1 && fields[1].as_str().unicode_len() > 0 {
        Some(restore_drv(fields[1].as_str()))
    } else {
        None
    };
    let skipped = fields.len() > 2 && *fields[2].as_str() == *"!";
    AttrEval { attr: fields[0].clone(), drv_path, skipped }
}

/// An attribute that is written and read again is the same, where neither its name
/// nor its derivation holds a tab, and its derivation has a name and a path that
/// survives being stored.
pub proof fn lemma_line_round_trip(e: AttrEval, back: AttrEval)
    requires
        !e.attr@.contains('\t'),
        e.drv_path matches Some(drv) ==> storable(drv@) && stripped(drv@).len() > 0
            && !stripped(drv@).contains('\t'),
        line_reads(parts(joined(line_fields(e), "\t"@), '\t'), back),
    ensures
        back.attr@ == e.attr@,
        opt_text(back.drv_path) == opt_text(e.drv_path),
        back.skipped == e.skipped,
{
    reveal_strlit("\t");
    reveal_strlit("!");
    assert("\t"@ =~= seq!['\t']);
    let fields = line_fields(e);
    assert forall|i: int| 0 <= i < fields.len() implies !(#[trigger] fields[i]).contains('\t') by {
        assert("!"@ =~= seq!['!']);
    }
    crate::search::lemma_parts_of_joined(fields, '\t');
    if let Some(drv) = e.drv_path {
        lemma_drv_round_trip(drv@);
    }
}

/// The order of attributes by name.
pub open spec fn by_attr() -> spec_fn(AttrEval, AttrEval) -> bool {
    |a: AttrEval, b: AttrEval| text_le(a.attr@, b.attr@)
}

/// Lines, each with a line feed behind it.
pub open spec fn ended(lines: Seq<Seq<char>>) -> Seq<char>
    decreases lines.len(),
{
    if lines.len() == 0 {
        Seq::empty()
    } else {
        ended(lines.drop_last()) + lines.last() + "\n"@
    }
}

/// The lines of an evaluation's file, sorted by attribute.
pub open spec fn eval_lines(rows: Seq<AttrEval>) -> Seq<Seq<char>> {
    in_order(rows, by_attr()).map_values(|e: AttrEval| joined(line_fields(e), "\t"@))
}

/// The text of an evaluation's file, before it is packed: the lines of its attributes,
/// sorted by name.
pub fn write_eval(rows: Vec<AttrEval>) -> (out: String)
    ensures
        out@ == ended(eval_lines(rows@)),
{
    let ghost all = rows@;
    let before = |a: &AttrEval, b: &AttrEval| -> (yes: bool)
        ensures
            yes == by_attr()(*a, *b),
        { le(a.attr.as_str(), b.attr.as_str()) };
    proof {
        lemma_by_attr();
    }
    let sorted = sort(rows, &before, Ghost(by_attr()));
    let ghost lines = eval_lines(all);
    let mut out = String::new();
    let mut i: usize = 0;
    assert(lines.take(0) =~= Seq::<Seq<char>>::empty());
    assert(out@ =~= ended(lines.take(0)));
    while i < sorted.len()
        invariant
            i <= sorted@.len(),
            sorted@ == in_order(all, by_attr()),
            lines == eval_lines(all),
            out@ == ended(lines.take(i as int)),
        decreases sorted@.len() - i,
    {
        let ghost start = out@;
        out.append(write_line(&sorted[i]).as_str());
        out.append("\n");
        assert(lines.take(i + 1).drop_last() =~= lines.take(i as int));
        assert(out@ =~= start + lines[i as int] + "\n"@);
        i += 1;
    }
    assert(lines.take(i as int) =~= lines);
    out
}

/// The order of attributes by name is total.
proof fn lemma_by_attr()
    ensures
        total_preorder(by_attr()),
{
    let leq = by_attr();
    assert forall|a: AttrEval, b: AttrEval| #[trigger] leq(a, b) || leq(b, a) by {
        lemma_text_le_total(a.attr@, b.attr@);
    }
    assert forall|a: AttrEval, b: AttrEval, c: AttrEval| #[trigger]
        leq(a, b) && #[trigger] leq(b, c) implies leq(a, c) by {
        lemma_text_le_transitive(a.attr@, b.attr@, c.attr@);
    }
}

/// Whether `rows` are the attributes that the lines of a file describe.
pub open spec fn reads_text(text: Seq<char>, rows: Seq<AttrEval>) -> bool {
    &&& rows.len() == line_texts(text).len()
    &&& forall|i: int|
        0 <= i < rows.len() ==> line_reads(parts(line_texts(text)[i], '\t'), #[trigger] rows[i])
}

/// The attributes that the text of an evaluation's file describes.
pub fn read_eval(text: &str) -> (rows: Vec<AttrEval>)
    ensures
        reads_text(text@, rows@),
{
    let lines = split_lines(text);
    let ghost ls = line_texts(text@);
    assert(texts(lines@).len() == lines@.len());
    let mut rows: Vec<AttrEval> = Vec::new();
    let mut i: usize = 0;
    while i < lines.len()
        invariant
            i <= lines@.len(),
            ls == texts(lines@),
            rows@.len() == i,
            forall|k: int|
                0 <= k < rows@.len() ==> line_reads(parts(ls[k], '\t'), #[trigger] rows@[k]),
        decreases lines@.len() - i,
    {
        assert(ls[i as int] == lines@[i as int]@);
        rows.push(read_line(lines[i].as_str()));
        i += 1;
    }
    rows
}

/// Whether an attribute survives being written and read again: neither its name nor its
/// derivation holds a tab or a line feed or ends in a carriage return, and its
/// derivation has a name and a path that survives being stored.
pub open spec fn survives(e: AttrEval) -> bool {
    let line = joined(line_fields(e), "\t"@);
    &&& !e.attr@.contains('\t')
    &&& (e.drv_path matches Some(drv) ==> storable(drv@) && stripped(drv@).len() > 0
        && !stripped(drv@).contains('\t'))
    &&& !line.contains('\n')
    &&& (line.len() > 0 ==> line.last() != '\r')
}

/// Whether two attributes say the same.
pub open spec fn same_attr(a: AttrEval, b: AttrEval) -> bool {
    &&& a.attr@ == b.attr@
    &&& opt_text(a.drv_path) == opt_text(b.drv_path)
    &&& a.skipped == b.skipped
}

/// An evaluation that is written and read again is the same, sorted by attribute, where
/// each of its attributes survives.
pub proof fn lemma_eval_round_trip(rows: Seq<AttrEval>, back: Seq<AttrEval>)
    requires
        forall|i: int| 0 <= i < rows.len() ==> survives(#[trigger] rows[i]),
        reads_text(ended(eval_lines(rows)), back),
    ensures
        back.len() == rows.len(),
        forall|i: int|
            0 <= i < back.len() ==> same_attr(#[trigger] back[i], in_order(rows, by_attr())[i]),
{
    let sorted = in_order(rows, by_attr());
    let lines = eval_lines(rows);
    lemma_in_order_keeps(rows, by_attr());
    assert forall|i: int| 0 <= i < sorted.len() implies survives(#[trigger] sorted[i]) by {
        lemma_in_order_contains(rows, by_attr(), sorted[i]);
        let k = choose|k: int| 0 <= k < rows.len() && rows[k] == sorted[i];
        assert(survives(rows[k]));
    }
    assert forall|i: int| 0 <= i < lines.len() implies !(#[trigger] lines[i]).contains('\n') && (
    lines[i].len() > 0 ==> lines[i].last() != '\r') by {
        assert(survives(sorted[i]));
    }
    lemma_lines_of_ended(lines);
    assert forall|i: int| 0 <= i < back.len() implies same_attr(#[trigger] back[i], sorted[i]) by {
        assert(survives(sorted[i]));
        assert(line_texts(ended(lines))[i] == lines[i]);
        lemma_line_round_trip(sorted[i], back[i]);
    }
}

/// The lines of ended lines are those lines, where none holds a line feed or ends in a
/// carriage return.
proof fn lemma_lines_of_ended(lines: Seq<Seq<char>>)
    requires
        forall|i: int|
            0 <= i < lines.len() ==> !(#[trigger] lines[i]).contains('\n') && (lines[i].len() > 0
                ==> lines[i].last() != '\r'),
    ensures
        line_texts(ended(lines)) == lines,
{
    reveal_strlit("\n");
    assert("\n"@ =~= seq!['\n']);
    let ps = lines.push(Seq::empty());
    lemma_ended(lines);
    assert forall|i: int| 0 <= i < ps.len() implies !(#[trigger] ps[i]).contains('\n') by {
        if i < lines.len() {
            assert(!lines[i].contains('\n'));
        }
    }
    crate::search::lemma_parts_of_joined(ps, '\n');
    assert(ps.drop_last() =~= lines);
    let f = |p: Seq<char>| crate::search::without_return(p);
    assert forall|i: int| 0 <= i < lines.len() implies f(#[trigger] lines[i]) == lines[i] by {}
    assert(lines.map_values(f) =~= lines);
}

/// Ended lines are the lines joined by line feeds, with nothing behind the last one.
proof fn lemma_ended(lines: Seq<Seq<char>>)
    ensures
        ended(lines) == joined(lines.push(Seq::empty()), "\n"@),
        lines.len() > 0 ==> ended(lines) == joined(lines, "\n"@) + "\n"@,
    decreases lines.len(),
{
    let ps = lines.push(Seq::<char>::empty());
    assert(ps.drop_last() =~= lines);
    if lines.len() > 0 {
        lemma_ended(lines.drop_last());
        if lines.len() == 1 {
            assert(ended(lines.drop_last()) =~= Seq::<char>::empty());
        }
        assert(ended(lines) =~= joined(lines, "\n"@) + "\n"@);
        assert(joined(ps, "\n"@) =~= joined(lines, "\n"@) + "\n"@ + Seq::<char>::empty());
    }
    assert(ended(lines) =~= joined(ps, "\n"@));
}

// --- what changed -----------------------------------------------------------

/// An attribute whose derivation is not the same on both sides: its derivation on
/// each side, and whether it is marked there as not to be built.
#[derive(Debug)]
pub struct ChangedAttr {
    pub attr: String,
    pub base_drv: Option<String>,
    pub head_drv: Option<String>,
    pub base_threw: bool,
    pub head_threw: bool,
}

/// What a [`ChangedAttr`] says.
#[verifier::ext_equal]
pub struct ChangedView {
    pub attr: Seq<char>,
    pub base_drv: Option<Seq<char>>,
    pub head_drv: Option<Seq<char>>,
    pub base_threw: bool,
    pub head_threw: bool,
}

impl View for ChangedAttr {
    type V = ChangedView;

    open spec fn view(&self) -> ChangedView {
        ChangedView {
            attr: self.attr@,
            base_drv: opt_text(self.base_drv),
            head_drv: opt_text(self.head_drv),
            base_threw: self.base_threw,
            head_threw: self.head_threw,
        }
    }
}

/// What changes say.
pub open spec fn changed_views(changed: Seq<ChangedAttr>) -> Seq<ChangedView> {
    changed.map_values(|c: ChangedAttr| c@)
}

/// Where each attribute stands among the first `n`; the last place counts.
pub open spec fn index_of(evals: Seq<AttrEval>, n: int) -> Map<Seq<char>, usize>
    decreases n,
{
    if n <= 0 {
        Map::empty()
    } else {
        index_of(evals, n - 1).insert(evals[n - 1].attr@, (n - 1) as usize)
    }
}

/// Where each attribute stands.
pub open spec fn index(evals: Seq<AttrEval>) -> Map<Seq<char>, usize> {
    index_of(evals, evals.len() as int)
}

/// The derivation of an attribute, if it evaluated to one.
pub open spec fn drv_of(evals: Seq<AttrEval>, attr: Seq<char>) -> Option<Seq<char>> {
    if index(evals).contains_key(attr) {
        opt_text(evals[index(evals)[attr] as int].drv_path)
    } else {
        None
    }
}

/// Whether an attribute is marked as not to be built.
pub open spec fn marked(evals: Seq<AttrEval>, attr: Seq<char>) -> bool {
    index(evals).contains_key(attr) && evals[index(evals)[attr] as int].skipped
}

/// An attribute on both sides.
pub open spec fn both_sides(
    base: Seq<AttrEval>,
    head: Seq<AttrEval>,
    attr: Seq<char>,
) -> ChangedView {
    ChangedView {
        attr,
        base_drv: drv_of(base, attr),
        head_drv: drv_of(head, attr),
        base_threw: marked(base, attr),
        head_threw: marked(head, attr),
    }
}

/// Whether an attribute has another derivation on each side. One that errored has
/// none, like one that is absent.
pub open spec fn differs(base: Seq<AttrEval>, head: Seq<AttrEval>, attr: Seq<char>) -> bool {
    drv_of(base, attr) != drv_of(head, attr)
}

/// The changes among the first `n` attributes of the base.
pub open spec fn changed_in_base(base: Seq<AttrEval>, head: Seq<AttrEval>, n: int) -> Seq<
    ChangedView,
>
    decreases n,
{
    if n <= 0 {
        Seq::empty()
    } else {
        let before = changed_in_base(base, head, n - 1);
        let attr = base[n - 1].attr@;
        if index(base)[attr] == n - 1 && differs(base, head, attr) {
            before.push(both_sides(base, head, attr))
        } else {
            before
        }
    }
}

/// The changes among the first `n` attributes of the head that the base does not
/// have.
pub open spec fn changed_in_head(base: Seq<AttrEval>, head: Seq<AttrEval>, n: int) -> Seq<
    ChangedView,
>
    decreases n,
{
    if n <= 0 {
        Seq::empty()
    } else {
        let before = changed_in_head(base, head, n - 1);
        let attr = head[n - 1].attr@;
        if !index(base).contains_key(attr) && index(head)[attr] == n - 1 && differs(
            base,
            head,
            attr,
        ) {
            before.push(both_sides(base, head, attr))
        } else {
            before
        }
    }
}

/// What changed between two evaluations: the attributes whose derivation differs,
/// those of the base first.
pub open spec fn changes(base: Seq<AttrEval>, head: Seq<AttrEval>) -> Seq<ChangedView> {
    changed_in_base(base, head, base.len() as int) + changed_in_head(
        base,
        head,
        head.len() as int,
    )
}

/// Every attribute is at its place, and every place is one of its attribute.
proof fn lemma_index(evals: Seq<AttrEval>, n: int)
    requires
        0 <= n <= evals.len(),
        evals.len() <= usize::MAX,
    ensures
        forall|attr: Seq<char>| #[trigger]
            index_of(evals, n).contains_key(attr) ==> index_of(evals, n)[attr] < n
                && evals[index_of(evals, n)[attr] as int].attr@ == attr,
        forall|i: int| 0 <= i < n ==> index_of(evals, n).contains_key((#[trigger] evals[i]).attr@),
    decreases n,
{
    if n > 0 {
        lemma_index(evals, n - 1);
    }
}

/// Where each attribute stands.
fn index_evals(evals: &[AttrEval]) -> (out: StringHashMap<usize>)
    ensures
        out@ == index(evals@),
{
    let mut out: StringHashMap<usize> = StringHashMap::new();
    let mut i: usize = 0;
    while i < evals.len()
        invariant
            i <= evals@.len(),
            out@ == index_of(evals@, i as int),
        decreases evals@.len() - i,
    {
        out.insert(evals[i].attr.clone(), i);
        i += 1;
    }
    out
}

/// The derivation of an attribute, and its mark.
fn side_of(evals: &[AttrEval], at: &StringHashMap<usize>, attr: &str) -> (out: (
    Option<String>,
    bool,
))
    requires
        at@ == index(evals@),
    ensures
        opt_text(out.0) == drv_of(evals@, attr@),
        out.1 == marked(evals@, attr@),
{
    let len: usize = evals.len();
    proof {
        lemma_index(evals@, evals@.len() as int);
    }
    match at.get(attr) {
        Some(i) => {
            let e: &AttrEval = &evals[*i];
            (clone_opt(&e.drv_path), e.skipped)
        },
        None => (None, false),
    }
}

/// The attribute on both sides, if its derivation differs.
fn compare_sides(
    base: &[AttrEval],
    base_at: &StringHashMap<usize>,
    head: &[AttrEval],
    head_at: &StringHashMap<usize>,
    attr: &String,
) -> (out: Option<ChangedAttr>)
    requires
        base_at@ == index(base@),
        head_at@ == index(head@),
    ensures
        match out {
            Some(c) => differs(base@, head@, attr@) && c@ == both_sides(base@, head@, attr@),
            None => !differs(base@, head@, attr@),
        },
{
    let (base_drv, base_threw) = side_of(base, base_at, attr.as_str());
    let (head_drv, head_threw) = side_of(head, head_at, attr.as_str());
    if crate::text::same_opt(&base_drv, &head_drv) {
        return None;
    }
    let c = ChangedAttr { attr: attr.clone(), base_drv, head_drv, base_threw, head_threw };
    assert(c@ =~= both_sides(base@, head@, attr@));
    Some(c)
}

/// What changed between two evaluations: the attributes whose derivation differs.
pub fn changed_set(base: &[AttrEval], head: &[AttrEval]) -> (out: Vec<ChangedAttr>)
    ensures
        changed_views(out@) == changes(base@, head@),
        out@.len() == changes(base@, head@).len(),
        forall|k: int|
            0 <= k < out@.len() ==> {
                let c = #[trigger] changes(base@, head@)[k];
                &&& c.attr == out@[k].attr@
                &&& c.base_drv == opt_text(out@[k].base_drv)
                &&& c.head_drv == opt_text(out@[k].head_drv)
                &&& c.base_threw == out@[k].base_threw
                &&& c.head_threw == out@[k].head_threw
            },
{
    let base_at = index_evals(base);
    let head_at = index_evals(head);
    let (base_len, head_len) = (base.len(), head.len());
    proof {
        lemma_index(base@, base@.len() as int);
        lemma_index(head@, head@.len() as int);
    }
    let mut out: Vec<ChangedAttr> = Vec::new();
    let mut i: usize = 0;
    assert(changed_views(out@) =~= Seq::<ChangedView>::empty());
    while i < base.len()
        invariant
            i <= base@.len(),
            base_at@ == index(base@),
            head_at@ == index(head@),
            forall|k: int|
                0 <= k < base@.len() ==> base_at@.contains_key((#[trigger] base@[k]).attr@),
            changed_views(out@) == changed_in_base(base@, head@, i as int),
        decreases base@.len() - i,
    {
        let ghost before = changed_views(out@);
        let attr: &String = &base[i].attr;
        let last = match base_at.get(attr.as_str()) {
            Some(at) => *at == i,
            None => false,
        };
        assert(last == (index(base@)[attr@] == i));
        if last {
            if let Some(c) = compare_sides(base, &base_at, head, &head_at, attr) {
                let ghost v = c@;
                out.push(c);
                assert(changed_views(out@) =~= before.push(v));
            }
        }
        i += 1;
    }
    let ghost first = changed_views(out@);
    let mut j: usize = 0;
    assert(first + changed_in_head(base@, head@, 0) =~= first);
    while j < head.len()
        invariant
            j <= head@.len(),
            base_at@ == index(base@),
            head_at@ == index(head@),
            forall|k: int|
                0 <= k < head@.len() ==> head_at@.contains_key((#[trigger] head@[k]).attr@),
            changed_views(out@) == first + changed_in_head(base@, head@, j as int),
        decreases head@.len() - j,
    {
        let ghost before = changed_views(out@);
        let attr: &String = &head[j].attr;
        let last = match head_at.get(attr.as_str()) {
            Some(at) => *at == j,
            None => false,
        };
        assert(last == (index(head@)[attr@] == j));
        if last && !base_at.contains_key(attr.as_str()) {
            if let Some(c) = compare_sides(base, &base_at, head, &head_at, attr) {
                let ghost v = c@;
                out.push(c);
                assert(changed_views(out@) =~= before.push(v));
            }
        }
        j += 1;
        assert(changed_views(out@) =~= first + changed_in_head(base@, head@, j as int));
    }
    out
}

/// An attribute is listed as changed if and only if its derivation differs, and
/// then with what it is on both sides.
pub proof fn lemma_changes(base: Seq<AttrEval>, head: Seq<AttrEval>, attr: Seq<char>)
    requires
        base.len() <= usize::MAX,
        head.len() <= usize::MAX,
    ensures
        differs(base, head, attr) ==> changes(base, head).contains(both_sides(base, head, attr)),
        forall|k: int|
            0 <= k < changes(base, head).len() && (#[trigger] changes(base, head)[k]).attr == attr
                ==> differs(base, head, attr) && changes(base, head)[k] == both_sides(
                base,
                head,
                attr,
            ),
{
    let a = changed_in_base(base, head, base.len() as int);
    let b = changed_in_head(base, head, head.len() as int);
    lemma_index(base, base.len() as int);
    lemma_index(head, head.len() as int);
    lemma_changed_in_base(base, head, base.len() as int);
    lemma_changed_in_head(base, head, head.len() as int);
    let c = both_sides(base, head, attr);
    if differs(base, head, attr) {
        if index(base).contains_key(attr) {
            let i = index(base)[attr] as int;
            assert(base[i].attr@ == attr);
            assert(a.contains(c));
            let k = choose|k: int| 0 <= k < a.len() && a[k] == c;
            assert((a + b)[k] == c);
        } else {
            let i = index(head)[attr] as int;
            assert(head[i].attr@ == attr);
            assert(b.contains(c));
            let k = choose|k: int| 0 <= k < b.len() && b[k] == c;
            assert((a + b)[a.len() + k] == c);
        }
    }
}

/// Whether `row` is where an evaluation says what an attribute is: the last row of
/// that attribute, or nothing where it has no row.
pub open spec fn row_of(evals: Seq<AttrEval>, attr: Seq<char>, row: Option<int>) -> bool {
    match row {
        Some(i) => 0 <= i < evals.len() && evals[i].attr@ == attr && forall|k: int|
            i < k < evals.len() ==> (#[trigger] evals[k]).attr@ != attr,
        None => forall|k: int| 0 <= k < evals.len() ==> (#[trigger] evals[k]).attr@ != attr,
    }
}

/// The place of an attribute is that of its last row.
proof fn lemma_index_row(evals: Seq<AttrEval>, n: int, attr: Seq<char>, i: int)
    requires
        0 <= i < n <= evals.len() <= usize::MAX,
        evals[i].attr@ == attr,
        forall|k: int| i < k < n ==> (#[trigger] evals[k]).attr@ != attr,
    ensures
        index_of(evals, n).contains_key(attr),
        index_of(evals, n)[attr] == i,
    decreases n,
{
    if i < n - 1 {
        assert(evals[n - 1].attr@ != attr);
        lemma_index_row(evals, n - 1, attr, i);
    }
}

/// What an evaluation says of an attribute is what its row says.
proof fn lemma_row(evals: Seq<AttrEval>, attr: Seq<char>, row: Option<int>)
    requires
        row_of(evals, attr, row),
        evals.len() <= usize::MAX,
    ensures
        drv_of(evals, attr) == (match row {
            Some(i) => opt_text(evals[i].drv_path),
            None => None,
        }),
        marked(evals, attr) == (match row {
            Some(i) => evals[i].skipped,
            None => false,
        }),
{
    match row {
        Some(i) => {
            lemma_index_row(evals, evals.len() as int, attr, i);
        },
        None => {
            lemma_index(evals, evals.len() as int);
            if index(evals).contains_key(attr) {
                assert(evals[index(evals)[attr] as int].attr@ != attr);
            }
        },
    }
}

/// An attribute is among the changes if and only if the derivation of its row in the
/// base is not that of its row in the head, an attribute without a row having none,
/// whatever the marks of the rows are. It is then there once, with the derivations
/// and the marks of the two rows.
pub proof fn lemma_changed_rows(
    base: Seq<AttrEval>,
    head: Seq<AttrEval>,
    attr: Seq<char>,
    in_base: Option<int>,
    in_head: Option<int>,
)
    requires
        base.len() <= usize::MAX,
        head.len() <= usize::MAX,
        row_of(base, attr, in_base),
        row_of(head, attr, in_head),
    ensures
        ({
            let base_drv = match in_base {
                Some(i) => opt_text(base[i].drv_path),
                None => None,
            };
            let head_drv = match in_head {
                Some(i) => opt_text(head[i].drv_path),
                None => None,
            };
            (exists|k: int|
                0 <= k < changes(base, head).len() && (#[trigger] changes(base, head)[k]).attr
                    == attr) <==> base_drv != head_drv
        }),
        forall|k: int|
            0 <= k < changes(base, head).len() && (#[trigger] changes(base, head)[k]).attr == attr
                ==> {
                let c = changes(base, head)[k];
                &&& c.base_drv == (match in_base {
                    Some(i) => opt_text(base[i].drv_path),
                    None => None,
                })
                &&& c.head_drv == (match in_head {
                    Some(i) => opt_text(head[i].drv_path),
                    None => None,
                })
                &&& c.base_threw == (in_base matches Some(i) && base[i].skipped)
                &&& c.head_threw == (in_head matches Some(i) && head[i].skipped)
            },
        forall|j: int, k: int|
            0 <= j < k < changes(base, head).len() ==> (#[trigger] changes(base, head)[j]).attr
                != (#[trigger] changes(base, head)[k]).attr,
{
    lemma_row(base, attr, in_base);
    lemma_row(head, attr, in_head);
    lemma_changes(base, head, attr);
    lemma_changed_once(base, head);
    if differs(base, head, attr) {
        let c = both_sides(base, head, attr);
        let k = choose|k: int| 0 <= k < changes(base, head).len() && changes(base, head)[k] == c;
        assert(changes(base, head)[k].attr == attr);
    }
}

/// No attribute is among the changes twice.
proof fn lemma_changed_once(base: Seq<AttrEval>, head: Seq<AttrEval>)
    requires
        base.len() <= usize::MAX,
        head.len() <= usize::MAX,
    ensures
        forall|j: int, k: int|
            0 <= j < k < changes(base, head).len() ==> (#[trigger] changes(base, head)[j]).attr
                != (#[trigger] changes(base, head)[k]).attr,
{
    let a = changed_in_base(base, head, base.len() as int);
    let b = changed_in_head(base, head, head.len() as int);
    lemma_index(base, base.len() as int);
    lemma_index(head, head.len() as int);
    lemma_base_once(base, head, base.len() as int);
    lemma_head_once(base, head, head.len() as int);
    assert forall|j: int, k: int| 0 <= j < k < changes(base, head).len() implies (
    #[trigger] changes(base, head)[j]).attr != (#[trigger] changes(base, head)[k]).attr by {
        if j < a.len() {
            assert(changes(base, head)[j] == a[j]);
            if k < a.len() {
                assert(changes(base, head)[k] == a[k]);
            } else {
                assert(changes(base, head)[k] == b[k - a.len()]);
            }
        } else {
            assert(changes(base, head)[j] == b[j - a.len()]);
            assert(changes(base, head)[k] == b[k - a.len()]);
        }
    }
}

/// The changes in the base are of attributes of the base, each once.
proof fn lemma_base_once(base: Seq<AttrEval>, head: Seq<AttrEval>, n: int)
    requires
        0 <= n <= base.len() <= usize::MAX,
        forall|i: int| 0 <= i < base.len() ==> index(base).contains_key((#[trigger] base[i]).attr@),
    ensures
        ({
            let a = changed_in_base(base, head, n);
            &&& forall|k: int|
                0 <= k < a.len() ==> index(base).contains_key((#[trigger] a[k]).attr) && index(
                    base,
                )[a[k].attr] < n
            &&& forall|j: int, k: int|
                0 <= j < k < a.len() ==> (#[trigger] a[j]).attr != (#[trigger] a[k]).attr
        }),
    decreases n,
{
    if n > 0 {
        lemma_base_once(base, head, n - 1);
        assert(index(base).contains_key(base[n - 1].attr@));
    }
}

/// The changes in the head are of attributes that the base does not have, each once.
proof fn lemma_head_once(base: Seq<AttrEval>, head: Seq<AttrEval>, n: int)
    requires
        0 <= n <= head.len() <= usize::MAX,
        forall|i: int| 0 <= i < head.len() ==> index(head).contains_key((#[trigger] head[i]).attr@),
    ensures
        ({
            let b = changed_in_head(base, head, n);
            &&& forall|k: int|
                0 <= k < b.len() ==> !index(base).contains_key((#[trigger] b[k]).attr) && index(
                    head,
                )[b[k].attr] < n
            &&& forall|j: int, k: int|
                0 <= j < k < b.len() ==> (#[trigger] b[j]).attr != (#[trigger] b[k]).attr
        }),
    decreases n,
{
    if n > 0 {
        lemma_head_once(base, head, n - 1);
        assert(index(head).contains_key(head[n - 1].attr@));
    }
}

/// The changes in the base are the base's attributes that differ.
proof fn lemma_changed_in_base(base: Seq<AttrEval>, head: Seq<AttrEval>, n: int)
    requires
        0 <= n <= base.len(),
    ensures
        forall|k: int|
            0 <= k < changed_in_base(base, head, n).len() ==> {
                let c = #[trigger] changed_in_base(base, head, n)[k];
                differs(base, head, c.attr) && c == both_sides(base, head, c.attr)
            },
        forall|i: int|
            0 <= i < n && index(base)[(#[trigger] base[i]).attr@] == i && differs(
                base,
                head,
                base[i].attr@,
            ) ==> changed_in_base(base, head, n).contains(both_sides(base, head, base[i].attr@)),
    decreases n,
{
    if n > 0 {
        lemma_changed_in_base(base, head, n - 1);
        let before = changed_in_base(base, head, n - 1);
        let now = changed_in_base(base, head, n);
        assert forall|i: int|
            0 <= i < n && index(base)[(#[trigger] base[i]).attr@] == i && differs(
                base,
                head,
                base[i].attr@,
            ) implies now.contains(both_sides(base, head, base[i].attr@)) by {
            let c = both_sides(base, head, base[i].attr@);
            if i < n - 1 {
                let k = choose|k: int| 0 <= k < before.len() && before[k] == c;
                assert(now[k] == c);
            } else {
                assert(now[before.len() as int] == c);
            }
        }
    }
}

/// The changes in the head are the head's attributes that differ and that the base
/// does not have.
proof fn lemma_changed_in_head(base: Seq<AttrEval>, head: Seq<AttrEval>, n: int)
    requires
        0 <= n <= head.len(),
    ensures
        forall|k: int|
            0 <= k < changed_in_head(base, head, n).len() ==> {
                let c = #[trigger] changed_in_head(base, head, n)[k];
                differs(base, head, c.attr) && c == both_sides(base, head, c.attr)
            },
        forall|i: int|
            0 <= i < n && !index(base).contains_key((#[trigger] head[i]).attr@) && index(
                head,
            )[head[i].attr@] == i && differs(base, head, head[i].attr@) ==> changed_in_head(
                base,
                head,
                n,
            ).contains(both_sides(base, head, head[i].attr@)),
    decreases n,
{
    if n > 0 {
        lemma_changed_in_head(base, head, n - 1);
        let before = changed_in_head(base, head, n - 1);
        let now = changed_in_head(base, head, n);
        assert forall|i: int|
            0 <= i < n && !index(base).contains_key((#[trigger] head[i]).attr@) && index(
                head,
            )[head[i].attr@] == i && differs(base, head, head[i].attr@) implies now.contains(
            both_sides(base, head, head[i].attr@),
        ) by {
            let c = both_sides(base, head, head[i].attr@);
            if i < n - 1 {
                let k = choose|k: int| 0 <= k < before.len() && before[k] == c;
                assert(now[k] == c);
            } else {
                assert(now[before.len() as int] == c);
            }
        }
    }
}

/// The file of an evaluation is named after its tree, in the directory of its key, so that
/// no two evaluations share one.
pub proof fn lemma_files_distinct(
    key_a: Seq<char>,
    tree_a: Seq<char>,
    key_b: Seq<char>,
    tree_b: Seq<char>,
)
    requires
        !tree_a.contains('/'),
        !tree_b.contains('/'),
    ensures
        (key_a + "/"@).is_prefix_of(file_text(key_a, tree_a)),
        parts(file_text(key_a, tree_a), '/').last() == tree_a + ".tsv.zst"@,
        file_text(key_a, tree_a) == file_text(key_b, tree_b) ==> key_a == key_b && tree_a == tree_b,
{
    let (a, b) = (file_text(key_a, tree_a), file_text(key_b, tree_b));
    let dir = key_a + "/"@;
    assert(a.subrange(0, dir.len() as int) =~= dir);
    lemma_file_name(key_a, tree_a);
    lemma_file_name(key_b, tree_b);
    if a == b {
        let (x, y) = (tree_a + ".tsv.zst"@, tree_b + ".tsv.zst"@);
        assert(x.take(x.len() - ".tsv.zst"@.len()) =~= tree_a);
        assert(y.take(y.len() - ".tsv.zst"@.len()) =~= tree_b);
        assert(a.take(a.len() - x.len() - "/"@.len()) =~= key_a);
        assert(b.take(b.len() - y.len() - "/"@.len()) =~= key_b);
    }
}

/// The last part of a file's path is its name.
proof fn lemma_file_name(key: Seq<char>, tree: Seq<char>)
    requires
        !tree.contains('/'),
    ensures
        parts(file_text(key, tree), '/').last() == tree + ".tsv.zst"@,
{
    reveal_strlit("/");
    reveal_strlit(".tsv.zst");
    let path = file_text(key, tree);
    let k = key.len() as int + 1;
    assert(path[k - 1] == '/');
    assert forall|j: int| k <= j < path.len() implies path[j] != '/' by {
        if j < k + tree.len() {
            assert(tree.contains(tree[j - k]));
        } else {
            assert(path[j] == ".tsv.zst"@[j - k - tree.len()]);
        }
    }
    crate::search::lemma_last_part(path, '/', k);
    assert(path.skip(k) =~= tree + ".tsv.zst"@);
}

/// A row is written with its own attribute, then what is kept of its derivation, and a
/// mark if and only if it has one.
pub proof fn lemma_line_says(e: AttrEval)
    ensures
        line_fields(e)[0] == e.attr@,
        line_fields(e)[1] == (match e.drv_path {
            Some(drv) => stripped(drv@),
            None => Seq::empty(),
        }),
        line_fields(e).len() == (if e.skipped {
            3int
        } else {
            2
        }),
        e.skipped ==> line_fields(e)[2] == "!"@,
{
}

/// A line is read by its fields: a missing or empty second one is no derivation, and only
/// an exclamation mark in the third one is a mark.
pub proof fn lemma_line_read_cases(fields: Seq<Seq<char>>, e: AttrEval)
    requires
        line_reads(fields, e),
    ensures
        e.attr@ == fields[0],
        e.drv_path is None <==> fields.len() < 2 || fields[1].len() == 0,
        e.drv_path is Some ==> e.drv_path->0@ == restored(fields[1]),
        e.skipped <==> fields.len() > 2 && fields[2] == "!"@,
{
}

/// A change is seen as its fields say.
pub proof fn lemma_change_seen_as(c: ChangedAttr)
    ensures
        c@.attr == c.attr@,
        c@.base_drv == opt_text(c.base_drv),
        c@.head_drv == opt_text(c.head_drv),
        c@.base_threw == c.base_threw,
        c@.head_threw == c.head_threw,
{
}

} // verus!
