//! Orders on text, and sorting by any order.

use std::collections::VecDeque;

use vstd::prelude::*;

use crate::text::{chars_of, texts};

verus! {

// --- the order of text ------------------------------------------------------

/// Whether `a` comes before `b`, or equals it, in the order of their characters'
/// code points.
pub open spec fn text_le(a: Seq<char>, b: Seq<char>) -> bool
    decreases a.len(),
{
    if a.len() == 0 {
        true
    } else if b.len() == 0 {
        false
    } else if a[0] == b[0] {
        text_le(a.skip(1), b.skip(1))
    } else {
        a[0] < b[0]
    }
}

/// The order of text is reflexive.
pub proof fn lemma_text_le_reflexive(a: Seq<char>)
    ensures
        text_le(a, a),
    decreases a.len(),
{
    if a.len() > 0 {
        lemma_text_le_reflexive(a.skip(1));
    }
}

/// The order of text is total.
pub proof fn lemma_text_le_total(a: Seq<char>, b: Seq<char>)
    ensures
        text_le(a, b) || text_le(b, a),
    decreases a.len(),
{
    if a.len() > 0 && b.len() > 0 {
        lemma_text_le_total(a.skip(1), b.skip(1));
    }
}

/// The order of text is antisymmetric.
pub proof fn lemma_text_le_antisymmetric(a: Seq<char>, b: Seq<char>)
    requires
        text_le(a, b),
        text_le(b, a),
    ensures
        a == b,
    decreases a.len(),
{
    if a.len() > 0 && b.len() > 0 {
        lemma_text_le_antisymmetric(a.skip(1), b.skip(1));
        assert(a =~= seq![a[0]] + a.skip(1));
        assert(b =~= seq![b[0]] + b.skip(1));
    } else {
        assert(a =~= b);
    }
}

/// The order of text is transitive.
pub proof fn lemma_text_le_transitive(a: Seq<char>, b: Seq<char>, c: Seq<char>)
    requires
        text_le(a, b),
        text_le(b, c),
    ensures
        text_le(a, c),
    decreases a.len(),
{
    if a.len() > 0 && b.len() > 0 && c.len() > 0 && a[0] == b[0] && b[0] == c[0] {
        lemma_text_le_transitive(a.skip(1), b.skip(1), c.skip(1));
    }
}

/// Whether `a` comes before `b`, or equals it.
pub fn le(a: &str, b: &str) -> (yes: bool)
    ensures
        yes == text_le(a@, b@),
{
    let x = chars_of(a);
    let y = chars_of(b);
    let mut i: usize = 0;
    assert(x@.skip(0) =~= a@);
    assert(y@.skip(0) =~= b@);
    while i < x.len() && i < y.len() && x[i] == y[i]
        invariant
            i <= x.len(),
            i <= y.len(),
            text_le(x@.skip(i as int), y@.skip(i as int)) == text_le(a@, b@),
        decreases x.len() - i,
    {
        assert(x@.skip(i as int).skip(1) =~= x@.skip(i + 1));
        assert(y@.skip(i as int).skip(1) =~= y@.skip(i + 1));
        i += 1;
    }
    if i == x.len() {
        true
    } else if i == y.len() {
        false
    } else {
        x[i] < y[i]
    }
}

// --- sorting ----------------------------------------------------------------

/// Whether `leq` compares every two values, and does so consistently.
pub open spec fn total_preorder<T>(leq: spec_fn(T, T) -> bool) -> bool {
    &&& forall|a: T, b: T| #[trigger] leq(a, b) || leq(b, a)
    &&& forall|a: T, b: T, c: T| #[trigger] leq(a, b) && #[trigger] leq(b, c) ==> leq(a, c)
}

/// `s` with `x` put before the first element that `x` may come before.
pub open spec fn placed<T>(x: T, s: Seq<T>, leq: spec_fn(T, T) -> bool) -> Seq<T>
    decreases s.len(),
{
    if s.len() == 0 || leq(x, s[0]) {
        seq![x] + s
    } else {
        seq![s[0]] + placed(x, s.skip(1), leq)
    }
}

/// The elements of `s` in the order `leq`; those that the order does not tell
/// apart stay as they were.
pub open spec fn in_order<T>(s: Seq<T>, leq: spec_fn(T, T) -> bool) -> Seq<T>
    decreases s.len(),
{
    if s.len() == 0 {
        s
    } else {
        placed(s[0], in_order(s.skip(1), leq), leq)
    }
}

/// Placing an element adds that element.
pub proof fn lemma_placed_adds<T>(x: T, s: Seq<T>, leq: spec_fn(T, T) -> bool)
    ensures
        placed(x, s, leq).to_multiset() == s.to_multiset().insert(x),
        placed(x, s, leq).len() == s.len() + 1,
    decreases s.len(),
{
    broadcast use vstd::seq_lib::group_to_multiset_ensures;

    if s.len() == 0 || leq(x, s[0]) {
        assert(seq![x] + s =~= s.insert(0, x));
    } else {
        lemma_placed_adds(x, s.skip(1), leq);
        let p = placed(x, s.skip(1), leq);
        assert(seq![s[0]] + p =~= p.insert(0, s[0]));
        assert(s =~= s.skip(1).insert(0, s[0]));
        assert(p.to_multiset().insert(s[0]) =~= s.to_multiset().insert(x));
    }
}

/// Sorting keeps every element.
pub proof fn lemma_in_order_keeps<T>(s: Seq<T>, leq: spec_fn(T, T) -> bool)
    ensures
        in_order(s, leq).to_multiset() == s.to_multiset(),
        in_order(s, leq).len() == s.len(),
    decreases s.len(),
{
    broadcast use vstd::seq_lib::group_to_multiset_ensures;

    if s.len() > 0 {
        lemma_in_order_keeps(s.skip(1), leq);
        lemma_placed_adds(s[0], in_order(s.skip(1), leq), leq);
        assert(s =~= s.skip(1).insert(0, s[0]));
    }
}

/// An element is in the sorted sequence if and only if it is in the sequence.
pub proof fn lemma_in_order_contains<T>(s: Seq<T>, leq: spec_fn(T, T) -> bool, x: T)
    ensures
        in_order(s, leq).contains(x) == s.contains(x),
{
    broadcast use vstd::seq_lib::group_to_multiset_ensures;

    lemma_in_order_keeps(s, leq);
    assert(in_order(s, leq).contains(x) <==> in_order(s, leq).to_multiset().count(x) > 0);
    assert(s.contains(x) <==> s.to_multiset().count(x) > 0);
}

/// An element is in the sequence with `x` placed if it is `x` or was in it.
pub proof fn lemma_placed_contains<T>(x: T, s: Seq<T>, leq: spec_fn(T, T) -> bool, y: T)
    ensures
        placed(x, s, leq).contains(y) == (x == y || s.contains(y)),
{
    broadcast use vstd::seq_lib::group_to_multiset_ensures;

    lemma_placed_adds(x, s, leq);
    let p = placed(x, s, leq);
    assert(p.contains(y) <==> p.to_multiset().count(y) > 0);
    assert(s.contains(y) <==> s.to_multiset().count(y) > 0);
}

/// Placing an element into a sorted sequence keeps it sorted.
pub proof fn lemma_placed_sorted<T>(x: T, s: Seq<T>, leq: spec_fn(T, T) -> bool)
    requires
        total_preorder(leq),
        forall|i: int, j: int| 0 <= i < j < s.len() ==> leq(s[i], s[j]),
    ensures
        forall|i: int, j: int|
            0 <= i < j < placed(x, s, leq).len() ==> leq(
                #[trigger] placed(x, s, leq)[i],
                #[trigger] placed(x, s, leq)[j],
            ),
    decreases s.len(),
{
    let p = placed(x, s, leq);
    if s.len() == 0 {
    } else if leq(x, s[0]) {
        assert forall|i: int, j: int| 0 <= i < j < p.len() implies leq(
            #[trigger] p[i],
            #[trigger] p[j],
        ) by {
            if i == 0 && j > 1 {
                assert(leq(x, s[0]) && leq(s[0], s[j - 1]));
            }
        }
    } else {
        let rest = s.skip(1);
        let q = placed(x, rest, leq);
        lemma_placed_sorted(x, rest, leq);
        assert forall|i: int, j: int| 0 <= i < j < p.len() implies leq(
            #[trigger] p[i],
            #[trigger] p[j],
        ) by {
            if i == 0 {
                assert(p[j] == q[j - 1]);
                lemma_placed_contains(x, rest, leq, q[j - 1]);
                assert(q.contains(q[j - 1]));
                assert(leq(s[0], x));
                if q[j - 1] != x {
                    let k = choose|k: int| 0 <= k < rest.len() && rest[k] == q[j - 1];
                    assert(rest[k] == s[k + 1]);
                }
            } else {
                assert(p[i] == q[i - 1] && p[j] == q[j - 1]);
            }
        }
    }
}

/// What sorting gives is sorted.
pub proof fn lemma_in_order_sorted<T>(s: Seq<T>, leq: spec_fn(T, T) -> bool)
    requires
        total_preorder(leq),
    ensures
        forall|i: int, j: int|
            0 <= i < j < in_order(s, leq).len() ==> leq(
                #[trigger] in_order(s, leq)[i],
                #[trigger] in_order(s, leq)[j],
            ),
    decreases s.len(),
{
    if s.len() > 0 {
        lemma_in_order_sorted(s.skip(1), leq);
        lemma_placed_sorted(s[0], in_order(s.skip(1), leq), leq);
    }
}

/// Placing commutes with a function that keeps the order.
pub proof fn lemma_placed_map<T, U>(
    x: T,
    s: Seq<T>,
    f: spec_fn(T) -> U,
    leq: spec_fn(T, T) -> bool,
    leq2: spec_fn(U, U) -> bool,
)
    requires
        forall|a: T, b: T| #[trigger] leq(a, b) == leq2(f(a), f(b)),
    ensures
        placed(x, s, leq).map_values(f) == placed(f(x), s.map_values(f), leq2),
    decreases s.len(),
{
    if s.len() == 0 || leq(x, s[0]) {
        assert((seq![x] + s).map_values(f) =~= seq![f(x)] + s.map_values(f));
    } else {
        lemma_placed_map(x, s.skip(1), f, leq, leq2);
        assert(s.skip(1).map_values(f) =~= s.map_values(f).skip(1));
        assert((seq![s[0]] + placed(x, s.skip(1), leq)).map_values(f) =~= seq![f(s[0])] + placed(
            x,
            s.skip(1),
            leq,
        ).map_values(f));
    }
}

/// Sorting commutes with a function that keeps the order.
pub proof fn lemma_in_order_map<T, U>(
    s: Seq<T>,
    f: spec_fn(T) -> U,
    leq: spec_fn(T, T) -> bool,
    leq2: spec_fn(U, U) -> bool,
)
    requires
        forall|a: T, b: T| #[trigger] leq(a, b) == leq2(f(a), f(b)),
    ensures
        in_order(s, leq).map_values(f) == in_order(s.map_values(f), leq2),
    decreases s.len(),
{
    if s.len() > 0 {
        lemma_in_order_map(s.skip(1), f, leq, leq2);
        lemma_placed_map(s[0], in_order(s.skip(1), leq), f, leq, leq2);
        assert(s.skip(1).map_values(f) =~= s.map_values(f).skip(1));
    } else {
        assert(s.map_values(f) =~= in_order(s.map_values(f), leq2));
    }
}

/// Two lists as one: as long as both have elements, the first that may come before
/// that of the other, and of two that the order does not tell apart that of `a`.
pub open spec fn merged<T>(a: Seq<T>, b: Seq<T>, leq: spec_fn(T, T) -> bool) -> Seq<T>
    decreases a.len() + b.len(),
{
    if a.len() == 0 {
        b
    } else if b.len() == 0 {
        a
    } else if leq(a[0], b[0]) {
        seq![a[0]] + merged(a.skip(1), b, leq)
    } else {
        seq![b[0]] + merged(a, b.skip(1), leq)
    }
}

/// What is placed into the first of two lists and merged is placed into the merged
/// list.
proof fn lemma_placed_merged<T>(x: T, a: Seq<T>, b: Seq<T>, leq: spec_fn(T, T) -> bool)
    requires
        total_preorder(leq),
    ensures
        merged(placed(x, a, leq), b, leq) == placed(x, merged(a, b, leq), leq),
    decreases a.len() + b.len(),
{
    let p = placed(x, a, leq);
    lemma_placed_adds(x, a, leq);
    if b.len() == 0 {
        assert(merged(a, b, leq) =~= a);
    } else if a.len() == 0 {
        assert(p =~= seq![x]);
        assert(p.skip(1) =~= a);
        if !leq(x, b[0]) {
            lemma_placed_merged(x, a, b.skip(1), leq);
        }
    } else if leq(x, a[0]) {
        assert(p.skip(1) =~= a);
        if leq(x, b[0]) {
            let m = merged(a, b, leq);
            assert(m[0] == a[0] || m[0] == b[0]);
        } else {
            assert(!leq(a[0], b[0]));
            lemma_placed_merged(x, a, b.skip(1), leq);
            let m = merged(a, b, leq);
            assert(m.skip(1) =~= merged(a, b.skip(1), leq));
        }
    } else {
        assert(p[0] == a[0]);
        assert(p.skip(1) =~= placed(x, a.skip(1), leq));
        let m = merged(a, b, leq);
        if leq(a[0], b[0]) {
            lemma_placed_merged(x, a.skip(1), b, leq);
            assert(m.skip(1) =~= merged(a.skip(1), b, leq));
        } else {
            assert(leq(b[0], a[0]));
            assert(!leq(x, b[0]));
            lemma_placed_merged(x, a, b.skip(1), leq);
            assert(m.skip(1) =~= merged(a, b.skip(1), leq));
        }
    }
}

/// The two parts of a list, each in order, merge into the list in order.
proof fn lemma_in_order_merged<T>(a: Seq<T>, b: Seq<T>, leq: spec_fn(T, T) -> bool)
    requires
        total_preorder(leq),
    ensures
        in_order(a + b, leq) == merged(in_order(a, leq), in_order(b, leq), leq),
    decreases a.len(),
{
    if a.len() == 0 {
        assert(a + b =~= b);
    } else {
        assert((a + b).skip(1) =~= a.skip(1) + b);
        lemma_in_order_merged(a.skip(1), b, leq);
        lemma_placed_merged(a[0], in_order(a.skip(1), leq), in_order(b, leq), leq);
    }
}

/// Moves all of `from` to the end of `to`.
fn append_all<T>(to: &mut VecDeque<T>, from: VecDeque<T>)
    ensures
        final(to)@ == old(to)@ + from@,
{
    let ghost start = to@;
    let ghost all = from@;
    let mut from = from;
    assert(start + from@ =~= to@ + from@);
    while from.len() > 0
        invariant
            to@ + from@ == start + all,
        decreases from@.len(),
    {
        let ghost rest = from@;
        if let Some(x) = from.pop_front() {
            let ghost before = to@;
            to.push_back(x);
            assert(to@ + from@ =~= before + rest);
        }
    }
    assert(to@ =~= start + all);
}

/// Merges two lists.
fn merge<T, F: Fn(&T, &T) -> bool>(
    a: VecDeque<T>,
    b: VecDeque<T>,
    le: &F,
    Ghost(leq): Ghost<spec_fn(T, T) -> bool>,
) -> (out: VecDeque<T>)
    requires
        forall|x: &T, y: &T| #[trigger] call_requires(*le, (x, y)),
        forall|x: &T, y: &T, r: bool| #[trigger]
            call_ensures(*le, (x, y), r) ==> r == leq(*x, *y),
    ensures
        out@ == merged(a@, b@, leq),
{
    let ghost whole = merged(a@, b@, leq);
    let mut a = a;
    let mut b = b;
    let mut out: VecDeque<T> = VecDeque::new();
    assert(out@ + merged(a@, b@, leq) =~= whole);
    while a.len() > 0 && b.len() > 0
        invariant
            forall|x: &T, y: &T| #[trigger] call_requires(*le, (x, y)),
            forall|x: &T, y: &T, r: bool| #[trigger]
                call_ensures(*le, (x, y), r) ==> r == leq(*x, *y),
            out@ + merged(a@, b@, leq) == whole,
        decreases a@.len() + b@.len(),
    {
        let ghost (xs, ys, done) = (a@, b@, out@);
        let first = le(&a[0], &b[0]);
        if first {
            if let Some(x) = a.pop_front() {
                out.push_back(x);
            }
            assert(a@ =~= xs.skip(1));
        } else {
            if let Some(y) = b.pop_front() {
                out.push_back(y);
            }
            assert(b@ =~= ys.skip(1));
        }
        assert(out@ + merged(a@, b@, leq) =~= done + merged(xs, ys, leq));
    }
    let ghost done = out@;
    let ghost (xs, ys) = (a@, b@);
    append_all(&mut out, a);
    append_all(&mut out, b);
    assert(out@ =~= done + merged(xs, ys, leq));
    out
}

/// Sorts `v` by `le`, by halves.
fn sort_parts<T, F: Fn(&T, &T) -> bool>(
    v: Vec<T>,
    le: &F,
    Ghost(leq): Ghost<spec_fn(T, T) -> bool>,
) -> (out: VecDeque<T>)
    requires
        total_preorder(leq),
        forall|a: &T, b: &T| #[trigger] call_requires(*le, (a, b)),
        forall|a: &T, b: &T, r: bool| #[trigger]
            call_ensures(*le, (a, b), r) ==> r == leq(*a, *b),
    ensures
        out@ == in_order(v@, leq),
    decreases v@.len(),
{
    let ghost s = v@;
    let mut left = v;
    if left.len() < 2 {
        let mut out: VecDeque<T> = VecDeque::new();
        if let Some(x) = left.pop() {
            out.push_back(x);
            assert(s =~= seq![x]);
            assert(s.skip(1) =~= Seq::<T>::empty());
            reveal_with_fuel(in_order, 2);
        }
        assert(out@ =~= in_order(s, leq));
        return out;
    }
    let half: usize = left.len() / 2;
    let right = left.split_off(half);
    proof {
        lemma_in_order_merged(left@, right@, leq);
        assert(left@ + right@ =~= s);
    }
    merge(sort_parts(left, le, Ghost(leq)), sort_parts(right, le, Ghost(leq)), le, Ghost(leq))
}

/// Sorts `v` by `le`; elements that the order does not tell apart stay as they
/// were.
pub fn sort<T, F: Fn(&T, &T) -> bool>(
    v: Vec<T>,
    le: &F,
    Ghost(leq): Ghost<spec_fn(T, T) -> bool>,
) -> (out: Vec<T>)
    requires
        total_preorder(leq),
        forall|a: &T, b: &T| #[trigger] call_requires(*le, (a, b)),
        forall|a: &T, b: &T, r: bool| #[trigger]
            call_ensures(*le, (a, b), r) ==> r == leq(*a, *b),
    ensures
        out@ == in_order(v@, leq),
{
    let mut sorted = sort_parts(v, le, Ghost(leq));
    let ghost all = sorted@;
    let mut out: Vec<T> = Vec::new();
    assert(out@ + sorted@ =~= all);
    while sorted.len() > 0
        invariant
            out@ + sorted@ == all,
        decreases sorted@.len(),
    {
        let ghost (before, rest) = (out@, sorted@);
        if let Some(x) = sorted.pop_front() {
            out.push(x);
            assert(out@ + sorted@ =~= before + rest);
        }
    }
    assert(out@ =~= all);
    out
}

/// The order of text, as a function value.
pub open spec fn by_text() -> spec_fn(Seq<char>, Seq<char>) -> bool {
    |a: Seq<char>, b: Seq<char>| text_le(a, b)
}

/// The order of text compares every two texts consistently.
pub proof fn lemma_by_text()
    ensures
        total_preorder(by_text()),
{
    assert forall|a: Seq<char>, b: Seq<char>| #[trigger] by_text()(a, b) || by_text()(b, a) by {
        lemma_text_le_total(a, b);
    }
    assert forall|a: Seq<char>, b: Seq<char>, c: Seq<char>| #[trigger]
        by_text()(a, b) && #[trigger] by_text()(b, c) implies by_text()(a, c) by {
        lemma_text_le_transitive(a, b, c);
    }
}

/// Sorting does not depend on how the elements stood, where the order tells all of them
/// apart.
pub proof fn lemma_in_order_of<T>(a: Seq<T>, b: Seq<T>, leq: spec_fn(T, T) -> bool)
    requires
        vstd::relations::total_ordering(leq),
        a.to_multiset() == b.to_multiset(),
    ensures
        in_order(a, leq) == in_order(b, leq),
{
    assert(total_preorder(leq));
    lemma_in_order_keeps(a, leq);
    lemma_in_order_keeps(b, leq);
    lemma_in_order_sorted(a, leq);
    lemma_in_order_sorted(b, leq);
    vstd::seq_lib::lemma_sorted_unique(in_order(a, leq), in_order(b, leq), leq);
}

/// Choosing some of the elements does not depend on how they stand.
pub proof fn lemma_filter_of<T>(s: Seq<T>, pred: spec_fn(T) -> bool)
    ensures
        s.filter(pred).to_multiset() == s.to_multiset().filter(pred),
    decreases s.len(),
{
    broadcast use vstd::seq_lib::group_to_multiset_ensures;
    broadcast use vstd::multiset::group_multiset_axioms;

    reveal(Seq::filter);
    if s.len() == 0 {
        assert(s.filter(pred).to_multiset() =~= s.to_multiset().filter(pred));
    } else {
        let front = s.drop_last();
        lemma_filter_of(front, pred);
        assert(s =~= front.push(s.last()));
        assert(s.filter(pred).to_multiset() =~= s.to_multiset().filter(pred));
    }
}

/// What a function makes of chosen elements is what it makes of one that is chosen.
pub proof fn lemma_chosen<T, U>(s: Seq<T>, pred: spec_fn(T) -> bool, f: spec_fn(T) -> U, y: U)
    ensures
        s.filter(pred).map_values(f).contains(y) <==> exists|i: int|
            0 <= i < s.len() && pred(#[trigger] s[i]) && f(s[i]) == y,
{
    let kept = s.filter(pred);
    let made = kept.map_values(f);
    if made.contains(y) {
        let k = choose|k: int| 0 <= k < made.len() && made[k] == y;
        s.lemma_filter_pred(pred, k);
        assert(kept.contains(kept[k]));
        s.lemma_filter_contains_rev(pred, kept[k]);
        let i = choose|i: int| 0 <= i < s.len() && s[i] == kept[k];
        assert(pred(s[i]) && f(s[i]) == y);
    }
    if exists|i: int| 0 <= i < s.len() && pred(#[trigger] s[i]) && f(s[i]) == y {
        let i = choose|i: int| 0 <= i < s.len() && pred(#[trigger] s[i]) && f(s[i]) == y;
        s.lemma_filter_contains(pred, i);
        let k = choose|k: int| 0 <= k < kept.len() && kept[k] == s[i];
        assert(made[k] == y);
    }
}

/// What a function makes of the elements does not depend on how they stand.
pub proof fn lemma_map_of<T, U>(a: Seq<T>, b: Seq<T>, f: spec_fn(T) -> U)
    requires
        a.to_multiset() == b.to_multiset(),
    ensures
        a.map_values(f).to_multiset() == b.map_values(f).to_multiset(),
    decreases a.len(),
{
    broadcast use vstd::seq_lib::group_to_multiset_ensures;
    broadcast use vstd::multiset::group_multiset_axioms;

    assert(a.to_multiset().len() == a.len() && b.to_multiset().len() == b.len());
    if a.len() == 0 {
        assert(a.map_values(f) =~= b.map_values(f));
    } else {
        let x = a.last();
        assert(a.contains(x));
        assert(b.to_multiset().count(x) > 0);
        let k = choose|k: int| 0 <= k < b.len() && b[k] == x;
        let front = a.drop_last();
        let rest = b.remove(k);
        assert(front =~= a.remove(a.len() - 1));
        lemma_map_of(front, rest, f);
        let fa = a.map_values(f);
        let fb = b.map_values(f);
        assert(fa.remove(a.len() - 1) =~= front.map_values(f));
        assert(fb.remove(k) =~= rest.map_values(f));
        assert(fa.to_multiset() =~= fa.to_multiset().remove(f(x)).insert(f(x)));
        assert(fb.to_multiset() =~= fb.to_multiset().remove(f(x)).insert(f(x)));
    }
}

/// Sorts texts.
pub fn sort_texts(v: Vec<String>) -> (out: Vec<String>)
    ensures
        texts(out@) == in_order(texts(v@), by_text()),
{
    let ghost leq = |a: String, b: String| text_le(a@, b@);
    let ghost s = v@;
    let before = |a: &String, b: &String| -> (yes: bool)
        ensures
            yes == text_le(a@, b@),
        { le(a.as_str(), b.as_str()) };
    proof {
        assert forall|a: String, b: String| #[trigger] leq(a, b) || leq(b, a) by {
            lemma_text_le_total(a@, b@);
        }
        assert forall|a: String, b: String, c: String| #[trigger]
            leq(a, b) && #[trigger] leq(b, c) implies leq(a, c) by {
            lemma_text_le_transitive(a@, b@, c@);
        }
    }
    let out = sort(v, &before, Ghost(leq));
    proof {
        let f = |t: String| t@;
        lemma_in_order_map(s, f, leq, by_text());
        assert(texts(out@) =~= out@.map_values(f));
        assert(texts(s) =~= s.map_values(f));
    }
    out
}

/// Text is ordered by the first character in which two texts differ, and a text comes
/// before all that start with it.
pub proof fn lemma_text_le_first_difference(
    start: Seq<char>,
    a: Seq<char>,
    b: Seq<char>,
)
    ensures
        text_le(start, start + a),
        a.len() > 0 ==> !text_le(start + a, start),
        a.len() > 0 && b.len() > 0 && a[0] != b[0] ==> (text_le(start + a, start + b) <==> a[0]
            < b[0]),
    decreases start.len(),
{
    if start.len() == 0 {
        assert(start + a =~= a);
        assert(start + b =~= b);
    } else {
        let rest = start.skip(1);
        lemma_text_le_first_difference(rest, a, b);
        assert((start + a).skip(1) =~= rest + a);
        assert((start + b).skip(1) =~= rest + b);
    }
}

/// Sorting keeps the elements that the order does not tell apart as they stood.
pub proof fn lemma_in_order_stable<T>(s: Seq<T>, leq: spec_fn(T, T) -> bool, x: T)
    requires
        total_preorder(leq),
    ensures
        in_order(s, leq).filter(|y: T| leq(x, y) && leq(y, x)) == s.filter(
            |y: T| leq(x, y) && leq(y, x),
        ),
    decreases s.len(),
{
    let same = |y: T| leq(x, y) && leq(y, x);
    if s.len() > 0 {
        let rest = s.skip(1);
        lemma_in_order_stable(rest, leq, x);
        lemma_in_order_sorted(rest, leq);
        lemma_placed_filter(s[0], in_order(rest, leq), leq, same, x);
        lemma_filter_front(s, same);
    } else {
        assert(in_order(s, leq) == s);
    }
}

/// Choosing from a list is choosing from its first element, then from the others.
proof fn lemma_filter_front<T>(s: Seq<T>, pred: spec_fn(T) -> bool)
    requires
        s.len() > 0,
    ensures
        s.filter(pred) == (if pred(s[0]) {
            seq![s[0]]
        } else {
            Seq::empty()
        }) + s.skip(1).filter(pred),
    decreases s.len(),
{
    reveal(Seq::filter);
    if s.len() == 1 {
        assert(s.drop_last() =~= Seq::empty());
        assert(s.skip(1) =~= Seq::empty());
        assert(s.drop_last().filter(pred) =~= Seq::empty());
        assert(s.skip(1).filter(pred) =~= Seq::empty());
        assert(s.last() == s[0]);
        assert(s.filter(pred) =~= (if pred(s[0]) {
            seq![s[0]]
        } else {
            Seq::empty()
        }) + s.skip(1).filter(pred));
    } else {
        lemma_filter_front(s.drop_last(), pred);
        assert(s.drop_last().skip(1) =~= s.skip(1).drop_last());
        assert(s.skip(1).last() == s.last());
        assert(s.filter(pred) =~= (if pred(s[0]) {
            seq![s[0]]
        } else {
            Seq::empty()
        }) + s.skip(1).filter(pred));
    }
}

/// An element that is placed comes before those that the order does not tell from it.
proof fn lemma_placed_filter<T>(
    e: T,
    s: Seq<T>,
    leq: spec_fn(T, T) -> bool,
    same: spec_fn(T) -> bool,
    x: T,
)
    requires
        total_preorder(leq),
        same == (|y: T| leq(x, y) && leq(y, x)),
    ensures
        placed(e, s, leq).filter(same) == (if same(e) {
            seq![e]
        } else {
            Seq::empty()
        }) + s.filter(same),
    decreases s.len(),
{
    let out = placed(e, s, leq);
    lemma_filter_front(out, same);
    if s.len() == 0 || leq(e, s[0]) {
        assert(out.skip(1) =~= s);
    } else {
        assert(out.skip(1) =~= placed(e, s.skip(1), leq));
        lemma_placed_filter(e, s.skip(1), leq, same, x);
        lemma_filter_front(s, same);
        assert(leq(s[0], e));
        if same(e) && same(s[0]) {
            assert(leq(e, x) && leq(x, s[0]));
            assert(leq(e, s[0]));
        }
        assert(out.filter(same) =~= (if same(e) {
            seq![e]
        } else {
            Seq::empty()
        }) + s.filter(same));
    }
}

} // verus!
