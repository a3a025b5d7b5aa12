//! Messages ordered by age, newest first.
use vstd::prelude::*;
use vstd::relations::*;

use crate::text;

verus! {

/// When a message was created, and its identifier.
pub struct Stamp {
    pub created_at: String,
    pub id: String,
}

impl View for Stamp {
    type V = (Seq<char>, Seq<char>);

    open spec fn view(&self) -> (Seq<char>, Seq<char>) {
        (self.created_at@, self.id@)
    }
}

pub open spec fn stamps(list: Seq<Stamp>) -> Seq<(Seq<char>, Seq<char>)> {
    list.map_values(|s: Stamp| s@)
}

/// The order newest first; of one age, the greatest identifier first.
pub open spec fn newest_order() -> spec_fn((Seq<char>, Seq<char>), (Seq<char>, Seq<char>)) -> bool {
    |a: (Seq<char>, Seq<char>), b: (Seq<char>, Seq<char>)|
        text::text_less(b.0, a.0) || (a.0 == b.0 && !text::text_less(a.1, b.1))
}

/// The stamps newest first.
pub open spec fn newest_first(list: Seq<(Seq<char>, Seq<char>)>) -> Seq<(Seq<char>, Seq<char>)> {
    list.sort_by(newest_order())
}

proof fn lemma_newest_order()
    ensures
        total_ordering(newest_order()),
{
    let leq = newest_order();
    assert forall|x: (Seq<char>, Seq<char>)| #[trigger] leq(x, x) by {
        text::lemma_text_less_order(x.1, x.1, x.1);
    }
    assert forall|x: (Seq<char>, Seq<char>), y: (Seq<char>, Seq<char>)| #[trigger]
        leq(x, y) && #[trigger] leq(y, x) implies x == y by {
        text::lemma_text_less_order(x.0, y.0, x.0);
        text::lemma_text_less_order(x.1, y.1, x.1);
    }
    assert forall|x: (Seq<char>, Seq<char>), y: (Seq<char>, Seq<char>)| #[trigger]
        leq(x, y) || #[trigger] leq(y, x) by {
        text::lemma_text_less_order(x.0, y.0, x.0);
        text::lemma_text_less_order(x.1, y.1, x.1);
    }
    assert forall|
        x: (Seq<char>, Seq<char>),
        y: (Seq<char>, Seq<char>),
        z: (Seq<char>, Seq<char>),
    | #[trigger] leq(x, y) && #[trigger] leq(y, z) implies leq(x, z) by {
        text::lemma_text_less_order(z.0, y.0, x.0);
        text::lemma_text_less_order(z.1, y.1, x.1);
    }
}

fn newer_or_same(a: &Stamp, b: &Stamp) -> (r: bool)
    ensures
        r == newest_order()(a@, b@),
{
    text::less(b.created_at.as_str(), a.created_at.as_str()) || (text::text_eq(
        a.created_at.as_str(),
        b.created_at.as_str(),
    ) && !text::less(a.id.as_str(), b.id.as_str()))
}

/// Puts `item` at its place in a list that is ordered newest first.
fn insert_by_age(list: &mut Vec<Stamp>, item: Stamp)
    requires
        sorted_by(stamps(old(list)@), newest_order()),
    ensures
        sorted_by(stamps(final(list)@), newest_order()),
        stamps(final(list)@).to_multiset() == stamps(old(list)@).to_multiset().insert(item@),
{
    let ghost before = stamps(list@);
    let ghost leq = newest_order();
    let ghost added = item@;
    let mut low: usize = 0;
    let mut high: usize = list.len();
    while low < high
        invariant
            low <= high <= list@.len(),
            before == stamps(list@),
            leq == newest_order(),
            added == item@,
            sorted_by(before, leq),
            forall|i: int| 0 <= i < low ==> leq(#[trigger] before[i], added),
            forall|i: int| high <= i < before.len() ==> leq(added, #[trigger] before[i]),
        decreases high - low,
    {
        let mid: usize = low + (high - low) / 2;
        proof {
            lemma_newest_order();
            assert(before[mid as int] == list@[mid as int]@);
        }
        if newer_or_same(&list[mid], &item) {
            proof {
                assert forall|i: int| 0 <= i < mid + 1 implies leq(#[trigger] before[i], added) by {
                    if i < mid {
                        assert(leq(before[i], before[mid as int]));
                    }
                }
            }
            low = mid + 1;
        } else {
            proof {
                assert(leq(before[mid as int], added) || leq(added, before[mid as int]));
                assert forall|i: int| mid <= i < before.len() implies leq(
                    added,
                    #[trigger] before[i],
                ) by {
                    if i > mid {
                        assert(leq(before[mid as int], before[i]));
                    }
                }
            }
            high = mid;
        }
    }
    list.insert(low, item);
    proof {
        let after = stamps(list@);
        let n = low as int;
        assert(after =~= before.insert(n, added));
        vstd::seq_lib::to_multiset_insert(before, n, added);
        assert forall|i: int, j: int| 0 <= i < j < after.len() implies #[trigger] leq(
            after[i],
            after[j],
        ) by {
            let x = if i < n {
                i
            } else {
                i - 1
            };
            let y = if j < n {
                j
            } else {
                j - 1
            };
            if i != n && j != n {
                assert(leq(before[x], before[y]));
            } else if i == n {
                assert(leq(added, before[y]));
            } else {
                assert(leq(before[x], added));
            }
        }
    }
}

/// Orders stamps newest first.
pub fn order_by_age(list: Vec<Stamp>) -> (r: Vec<Stamp>)
    ensures
        stamps(r@) == newest_first(stamps(list@)),
{
    let ghost all = stamps(list@);
    let ghost source = list@;
    let mut out: Vec<Stamp> = Vec::new();
    proof {
        assert(stamps(out@) =~= Seq::empty());
        assert(all.take(0) =~= Seq::empty());
    }
    for item in it: list
        invariant
            it.seq() == source,
            all == stamps(source),
            sorted_by(stamps(out@), newest_order()),
            stamps(out@).to_multiset() == all.take(it.index()).to_multiset(),
    {
        let ghost k = it.index();
        proof {
            assert(all.take(k + 1) =~= all.take(k).push(item@));
            vstd::seq_lib::to_multiset_build(all.take(k), item@);
        }
        insert_by_age(&mut out, item);
    }
    proof {
        assert(all.take(all.len() as int) =~= all);
        lemma_newest_order();
        all.lemma_sort_by_ensures(newest_order());
        vstd::seq_lib::lemma_sorted_unique(stamps(out@), newest_first(all), newest_order());
    }
    out
}

/// Ordering by age loses no stamp and adds none, and leaves none behind an
/// older one.
pub proof fn law_newest_first(list: Seq<(Seq<char>, Seq<char>)>)
    ensures
        newest_first(list).to_multiset() == list.to_multiset(),
        newest_first(list).len() == list.len(),
        sorted_by(newest_first(list), newest_order()),
{
    lemma_newest_order();
    list.lemma_sort_by_ensures(newest_order());
    list.to_multiset_ensures();
    newest_first(list).to_multiset_ensures();
}

/// The newest stamp comes first, and of those of one time the greatest name.
pub proof fn law_the_newest_comes_first(list: Seq<(Seq<char>, Seq<char>)>, i: int, j: int)
    requires
        0 <= i < j < list.len(),
    ensures
        ({
            let a = newest_first(list)[i];
            let b = newest_first(list)[j];
            &&& !text::text_less(a.0, b.0)
            &&& a.0 == b.0 ==> !text::text_less(a.1, b.1)
        }),
{
    law_newest_first(list);
    let a = newest_first(list)[i];
    let b = newest_first(list)[j];
    assert(newest_order()(a, b));
    text::lemma_text_less_order(a.0, b.0, a.0);
}

} // verus!
