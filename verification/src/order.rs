//! Stable sorting.
use vstd::prelude::*;

use crate::text;

verus! {

/// An order on values of type `T`.
pub trait Order<T: View> {
    /// Whether `a` may stand before `b`.
    spec fn leq(a: T::V, b: T::V) -> bool;

    /// Whether `a` may stand before `b`.
    fn at_most(a: &T, b: &T) -> (r: bool)
        ensures
            r == Self::leq(a@, b@),
    ;
}

pub open spec fn views<T: View>(list: Seq<T>) -> Seq<T::V> {
    list.map_values(|t: T| t@)
}

/// `list` with `x` at its place, behind all that may stand before it.
pub open spec fn placed<V>(list: Seq<V>, x: V, leq: spec_fn(V, V) -> bool) -> Seq<V>
    decreases list.len(),
{
    if list.len() > 0 && !leq(list.last(), x) {
        placed(list.drop_last(), x, leq).push(list.last())
    } else {
        list.push(x)
    }
}

/// The values in order; equal ones stay in the order in which they came.
pub open spec fn ordered<V>(list: Seq<V>, leq: spec_fn(V, V) -> bool) -> Seq<V>
    decreases list.len(),
{
    if list.len() == 0 {
        list
    } else {
        placed(ordered(list.drop_last(), leq), list.last(), leq)
    }
}

/// The order of `O` as a relation.
pub open spec fn relation<T: View, O: Order<T>>() -> spec_fn(T::V, T::V) -> bool {
    |a: T::V, b: T::V| O::leq(a, b)
}

fn place<T: View, O: Order<T>>(list: &mut Vec<T>, x: T)
    ensures
        views(final(list)@) == placed(views(old(list)@), x@, relation::<T, O>()),
{
    let ghost before = views(list@);
    let ghost added = x@;
    let ghost leq = relation::<T, O>();
    let mut i: usize = list.len();
    proof {
        assert(before.take(i as int) =~= before);
        assert(before.skip(i as int) =~= Seq::empty());
        assert(placed(before, added, leq) =~= placed(before.take(i as int), added, leq)
            + before.skip(i as int));
    }
    while i > 0 && !O::at_most(&list[i - 1], &x)
        invariant
            i <= list@.len(),
            before == views(list@),
            added == x@,
            leq == relation::<T, O>(),
            placed(before, added, leq) == placed(before.take(i as int), added, leq) + before.skip(
                i as int,
            ),
        decreases i,
    {
        proof {
            let head = before.take(i as int);
            assert(head.last() == list@[i - 1]@);
            assert(head.drop_last() =~= before.take(i - 1));
            assert(before.skip(i - 1) =~= seq![head.last()] + before.skip(i as int));
            assert(placed(before, added, leq) =~= placed(before.take(i - 1), added, leq)
                + before.skip(i - 1));
        }
        i = i - 1;
    }
    proof {
        if i > 0 {
            assert(before.take(i as int).last() == list@[i - 1]@);
        }
        assert(placed(before.take(i as int), added, leq) =~= before.take(i as int).push(added));
    }
    list.insert(i, x);
    proof {
        assert(views(list@) =~= before.take(i as int).push(added) + before.skip(i as int));
    }
}

/// Orders a list; equal values stay in the order in which they came.
pub fn sort<T: View, O: Order<T>>(list: Vec<T>) -> (r: Vec<T>)
    ensures
        views(r@) == ordered(views(list@), relation::<T, O>()),
{
    let ghost all = views(list@);
    let ghost source = list@;
    let ghost leq = relation::<T, O>();
    let mut out: Vec<T> = Vec::new();
    proof {
        assert(all.take(0) =~= Seq::empty());
        assert(views(out@) =~= ordered(all.take(0), leq));
    }
    for item in it: list
        invariant
            it.seq() == source,
            all == views(source),
            leq == relation::<T, O>(),
            views(out@) == ordered(all.take(it.index()), leq),
    {
        let ghost k = it.index();
        proof {
            assert(all.take(k + 1).drop_last() =~= all.take(k));
            assert(all.take(k + 1).last() == item@);
        }
        place::<T, O>(&mut out, item);
    }
    proof {
        assert(all.take(all.len() as int) =~= all);
    }
    out
}

proof fn lemma_placed_len<V>(list: Seq<V>, x: V, leq: spec_fn(V, V) -> bool)
    ensures
        placed(list, x, leq).len() == list.len() + 1,
    decreases list.len(),
{
    if list.len() > 0 && !leq(list.last(), x) {
        lemma_placed_len(list.drop_last(), x, leq);
    }
}

/// Ordering a list keeps its length.
pub proof fn lemma_ordered_len<V>(list: Seq<V>, leq: spec_fn(V, V) -> bool)
    ensures
        ordered(list, leq).len() == list.len(),
    decreases list.len(),
{
    if list.len() > 0 {
        lemma_ordered_len(list.drop_last(), leq);
        lemma_placed_len(ordered(list.drop_last(), leq), list.last(), leq);
    }
}

proof fn lemma_placed_holds<V>(list: Seq<V>, x: V, leq: spec_fn(V, V) -> bool, y: V)
    requires
        list.contains(y) || y == x,
    ensures
        placed(list, x, leq).contains(y),
    decreases list.len(),
{
    let out = placed(list, x, leq);
    if list.len() > 0 && !leq(list.last(), x) {
        if y == list.last() {
            assert(out.last() == y);
        } else {
            if list.contains(y) {
                assert(list.drop_last()[list.index_of(y)] == y);
            }
            lemma_placed_holds(list.drop_last(), x, leq, y);
            let init = placed(list.drop_last(), x, leq);
            assert(out[init.index_of(y)] == y);
        }
    } else {
        if y == x {
            assert(out.last() == y);
        } else {
            assert(out[list.index_of(y)] == y);
        }
    }
}

/// Ordering a list keeps what it holds.
pub proof fn lemma_ordered_holds<V>(list: Seq<V>, leq: spec_fn(V, V) -> bool, y: V)
    requires
        list.contains(y),
    ensures
        ordered(list, leq).contains(y),
    decreases list.len(),
{
    let init = list.drop_last();
    if y != list.last() {
        assert(init[list.index_of(y)] == y);
        lemma_ordered_holds(init, leq, y);
    }
    lemma_placed_holds(ordered(init, leq), list.last(), leq, y);
}

/// A relation that compares any two values and carries over.
pub open spec fn is_preorder<V>(leq: spec_fn(V, V) -> bool) -> bool {
    &&& forall|a: V, b: V| #[trigger] leq(a, b) || leq(b, a)
    &&& forall|a: V, b: V, c: V| #[trigger] leq(a, b) && #[trigger] leq(b, c) ==> leq(a, c)
}

pub open spec fn in_order<V>(list: Seq<V>, leq: spec_fn(V, V) -> bool) -> bool {
    forall|i: int, j: int| 0 <= i < j < list.len() ==> leq(#[trigger] list[i], #[trigger] list[j])
}

proof fn lemma_placed<V>(list: Seq<V>, x: V, leq: spec_fn(V, V) -> bool)
    requires
        is_preorder(leq),
        in_order(list, leq),
    ensures
        in_order(placed(list, x, leq), leq),
        placed(list, x, leq).len() == list.len() + 1,
        placed(list, x, leq).to_multiset() == list.to_multiset().insert(x),
        forall|i: int|
            0 <= i < placed(list, x, leq).len() ==> #[trigger] placed(list, x, leq)[i] == x
                || list.contains(placed(list, x, leq)[i]),
    decreases list.len(),
{
    let out = placed(list, x, leq);
    if list.len() > 0 && !leq(list.last(), x) {
        let init = list.drop_last();
        let last = list.last();
        assert(in_order(init, leq)) by {
            assert forall|i: int, j: int| 0 <= i < j < init.len() implies leq(
                #[trigger] init[i],
                #[trigger] init[j],
            ) by {
                assert(leq(list[i], list[j]));
            }
        }
        lemma_placed(init, x, leq);
        let mid = placed(init, x, leq);
        vstd::seq_lib::to_multiset_build(mid, last);
        vstd::seq_lib::to_multiset_build(init, last);
        assert(init.push(last) =~= list);
        assert(out.to_multiset() =~= list.to_multiset().insert(x));
        assert forall|i: int, j: int| 0 <= i < j < out.len() implies leq(
            #[trigger] out[i],
            #[trigger] out[j],
        ) by {
            if j < mid.len() {
                assert(leq(mid[i], mid[j]));
            } else {
                assert(mid[i] == x || init.contains(mid[i]));
                if mid[i] == x {
                    assert(leq(last, x) || leq(x, last));
                } else {
                    let k = init.index_of(mid[i]);
                    assert(leq(list[k], list[list.len() - 1]));
                }
            }
        }
        assert forall|i: int| 0 <= i < out.len() implies #[trigger] out[i] == x || list.contains(
            out[i],
        ) by {
            if i < mid.len() {
                assert(mid[i] == x || init.contains(mid[i]));
                if mid[i] != x {
                    let k = init.index_of(mid[i]);
                    assert(list[k] == out[i]);
                }
            } else {
                assert(list[list.len() - 1] == out[i]);
            }
        }
    } else {
        vstd::seq_lib::to_multiset_build(list, x);
        assert forall|i: int, j: int| 0 <= i < j < out.len() implies leq(
            #[trigger] out[i],
            #[trigger] out[j],
        ) by {
            if j < list.len() {
                assert(leq(list[i], list[j]));
            } else if i < list.len() - 1 {
                assert(leq(list[i], list[list.len() - 1]));
                assert(leq(list.last(), x));
            }
        }
        assert forall|i: int| 0 <= i < out.len() implies #[trigger] out[i] == x || list.contains(
            out[i],
        ) by {
            if i < list.len() {
                assert(list[i] == out[i]);
            }
        }
    }
}

/// Ordering a list by a preorder puts it in order, loses nothing and adds
/// nothing.
pub proof fn law_ordered<V>(list: Seq<V>, leq: spec_fn(V, V) -> bool)
    requires
        is_preorder(leq),
    ensures
        in_order(ordered(list, leq), leq),
        ordered(list, leq).len() == list.len(),
        ordered(list, leq).to_multiset() == list.to_multiset(),
    decreases list.len(),
{
    if list.len() > 0 {
        let init = list.drop_last();
        law_ordered(init, leq);
        lemma_placed(ordered(init, leq), list.last(), leq);
        vstd::seq_lib::to_multiset_build(init, list.last());
        assert(init.push(list.last()) =~= list);
    }
}

// -------------------------------------------------------- orders by text

/// The order of pairs of text.
pub open spec fn pair_leq(a: (Seq<char>, Seq<char>), b: (Seq<char>, Seq<char>)) -> bool {
    text::text_less(a.0, b.0) || (a.0 == b.0 && !text::text_less(b.1, a.1))
}

/// The order of triples of text.
pub open spec fn triple_leq(
    a: (Seq<char>, Seq<char>, Seq<char>),
    b: (Seq<char>, Seq<char>, Seq<char>),
) -> bool {
    text::text_less(a.0, b.0) || (a.0 == b.0 && pair_leq((a.1, a.2), (b.1, b.2)))
}

pub fn pair_at_most(a0: &str, a1: &str, b0: &str, b1: &str) -> (r: bool)
    ensures
        r == pair_leq((a0@, a1@), (b0@, b1@)),
{
    text::less(a0, b0) || (text::text_eq(a0, b0) && !text::less(b1, a1))
}

pub fn triple_at_most(a0: &str, a1: &str, a2: &str, b0: &str, b1: &str, b2: &str) -> (r: bool)
    ensures
        r == triple_leq((a0@, a1@, a2@), (b0@, b1@, b2@)),
{
    text::less(a0, b0) || (text::text_eq(a0, b0) && pair_at_most(a1, a2, b1, b2))
}

/// The order of pairs compares any two pairs and carries over.
pub proof fn lemma_pair_leq(
    a: (Seq<char>, Seq<char>),
    b: (Seq<char>, Seq<char>),
    c: (Seq<char>, Seq<char>),
)
    ensures
        pair_leq(a, b) || pair_leq(b, a),
        pair_leq(a, b) && pair_leq(b, c) ==> pair_leq(a, c),
{
    text::lemma_text_less_order(a.0, b.0, c.0);
    text::lemma_text_less_order(a.1, b.1, c.1);
}

/// The order of triples compares any two triples and carries over.
pub proof fn lemma_triple_leq(
    a: (Seq<char>, Seq<char>, Seq<char>),
    b: (Seq<char>, Seq<char>, Seq<char>),
    c: (Seq<char>, Seq<char>, Seq<char>),
)
    ensures
        triple_leq(a, b) || triple_leq(b, a),
        triple_leq(a, b) && triple_leq(b, c) ==> triple_leq(a, c),
{
    text::lemma_text_less_order(a.0, b.0, c.0);
    lemma_pair_leq((a.1, a.2), (b.1, b.2), (c.1, c.2));
}

/// Pairs go by their first text and then by their second.
pub proof fn law_pairs_go_by_the_first_text(
    a: (Seq<char>, Seq<char>),
    b: (Seq<char>, Seq<char>),
)
    ensures
        text::text_less(a.0, b.0) ==> pair_leq(a, b) && !pair_leq(b, a),
        a.0 == b.0 && text::text_less(a.1, b.1) ==> pair_leq(a, b) && !pair_leq(b, a),
        pair_leq(a, b) && pair_leq(b, a) <==> a == b,
{
    text::lemma_text_less_order(a.0, b.0, a.0);
    text::lemma_text_less_order(a.1, b.1, a.1);
}

/// Triples go by their texts from the first to the third.
pub proof fn law_triples_go_by_their_texts(
    a: (Seq<char>, Seq<char>, Seq<char>),
    b: (Seq<char>, Seq<char>, Seq<char>),
)
    ensures
        text::text_less(a.0, b.0) ==> triple_leq(a, b) && !triple_leq(b, a),
        a.0 == b.0 && text::text_less(a.1, b.1) ==> triple_leq(a, b) && !triple_leq(b, a),
        a.0 == b.0 && a.1 == b.1 && text::text_less(a.2, b.2) ==> triple_leq(a, b) && !triple_leq(
            b,
            a,
        ),
        triple_leq(a, b) && triple_leq(b, a) <==> a == b,
{
    text::lemma_text_less_order(a.0, b.0, a.0);
    law_pairs_go_by_the_first_text((a.1, a.2), (b.1, b.2));
}

/// Whatever is put in its place stands behind everything that may stand before
/// it, and the others keep their order.
pub proof fn law_a_new_entry_stands_behind_its_equals<V>(
    list: Seq<V>,
    x: V,
    leq: spec_fn(V, V) -> bool,
)
    ensures
        exists|k: int|
            0 <= k <= list.len() && placed(list, x, leq) == #[trigger] list.subrange(0, k).push(x)
                + list.subrange(k, list.len() as int) && (k > 0 ==> leq(list[k - 1], x)) && (
            forall|i: int| k <= i < list.len() ==> !leq(#[trigger] list[i], x)),
    decreases list.len(),
{
    if list.len() > 0 && !leq(list.last(), x) {
        let init = list.drop_last();
        law_a_new_entry_stands_behind_its_equals(init, x, leq);
        let k = choose|k: int|
            0 <= k <= init.len() && placed(init, x, leq) == #[trigger] init.subrange(0, k).push(x)
                + init.subrange(k, init.len() as int) && (k > 0 ==> leq(init[k - 1], x)) && (forall|
                i: int,
            |
                k <= i < init.len() ==> !leq(#[trigger] init[i], x));
        assert(placed(list, x, leq) =~= list.subrange(0, k).push(x) + list.subrange(
            k,
            list.len() as int,
        ));
        assert(k > 0 ==> init[k - 1] == list[k - 1]);
        assert forall|i: int| k <= i < list.len() implies !leq(#[trigger] list[i], x) by {
            if i < init.len() {
                assert(init[i] == list[i]);
            }
        }
    } else {
        let k = list.len() as int;
        assert(placed(list, x, leq) =~= list.subrange(0, k).push(x) + list.subrange(
            k,
            list.len() as int,
        ));
    }
}

} // verus!
