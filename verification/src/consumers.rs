//! Registered consumers, in the order of their registration.
use vstd::prelude::*;
use vstd::string::*;

use crate::json;
use crate::json::Attributes;
use crate::text;

verus! {

/// A registered consumer. Attributes are JSON text, times RFC 3339 text.
#[derive(Debug)]
pub struct ConsumerRow {
    pub id: String,
    pub topic: String,
    pub name: String,
    pub attributes: String,
    pub last_seen_at: String,
    pub created_at: String,
}

#[verifier::ext_equal]
pub struct ConsumerView {
    pub id: Seq<char>,
    pub topic: Seq<char>,
    pub name: Seq<char>,
    pub attributes: Seq<char>,
    pub last_seen_at: Seq<char>,
    pub created_at: Seq<char>,
}

impl View for ConsumerRow {
    type V = ConsumerView;

    open spec fn view(&self) -> ConsumerView {
        ConsumerView {
            id: self.id@,
            topic: self.topic@,
            name: self.name@,
            attributes: self.attributes@,
            last_seen_at: self.last_seen_at@,
            created_at: self.created_at@,
        }
    }
}

pub open spec fn consumer_views(rows: Seq<ConsumerRow>) -> Seq<ConsumerView> {
    rows.map_values(|c: ConsumerRow| c@)
}

/// The consumers, oldest registration first.
pub struct ConsumerTable {
    pub rows: Vec<ConsumerRow>,
}

impl View for ConsumerTable {
    type V = Seq<ConsumerView>;

    open spec fn view(&self) -> Seq<ConsumerView> {
        consumer_views(self.rows@)
    }
}

/// The rows with `c` behind all that are not younger.
pub open spec fn consumer_added(rows: Seq<ConsumerView>, c: ConsumerView) -> Seq<ConsumerView>
    decreases rows.len(),
{
    if rows.len() > 0 && text::text_less(c.created_at, rows.last().created_at) {
        consumer_added(rows.drop_last(), c).push(rows.last())
    } else {
        rows.push(c)
    }
}

/// Place of the consumer with an identifier.
pub open spec fn consumer_place(rows: Seq<ConsumerView>, id: Seq<char>) -> Option<int>
    decreases rows.len(),
{
    if rows.len() == 0 {
        None
    } else {
        match consumer_place(rows.drop_last(), id) {
            Some(i) => Some(i),
            None => if rows.last().id == id {
                Some(rows.len() - 1)
            } else {
                None
            },
        }
    }
}

pub proof fn lemma_consumer_place(rows: Seq<ConsumerView>, id: Seq<char>)
    ensures
        match consumer_place(rows, id) {
            Some(i) => 0 <= i < rows.len() && rows[i].id == id,
            None => forall|i: int| 0 <= i < rows.len() ==> (#[trigger] rows[i]).id != id,
        },
    decreases rows.len(),
{
    if rows.len() > 0 {
        let init = rows.drop_last();
        lemma_consumer_place(init, id);
        if consumer_place(rows, id) is None {
            assert forall|i: int| 0 <= i < rows.len() implies (#[trigger] rows[i]).id != id by {
                if i < init.len() {
                    assert(init[i].id != id);
                }
            }
        }
    }
}

/// What a consumer says of itself when it registers.
pub struct RegistrationView {
    pub topic: Seq<char>,
    pub name: Seq<char>,
    pub attributes: Seq<char>,
}

/// The consumers after a registration under the identifier `id`: the consumer
/// known by it is renewed, an unknown one added.
pub open spec fn registered(
    rows: Seq<ConsumerView>,
    id: Seq<char>,
    what: RegistrationView,
    now: Seq<char>,
) -> Seq<ConsumerView> {
    match consumer_place(rows, id) {
        Some(i) => rows.update(
            i,
            ConsumerView {
                topic: what.topic,
                name: what.name,
                attributes: what.attributes,
                last_seen_at: now,
                ..rows[i]
            },
        ),
        None => consumer_added(
            rows,
            ConsumerView {
                id,
                topic: what.topic,
                name: what.name,
                attributes: what.attributes,
                last_seen_at: now,
                created_at: now,
            },
        ),
    }
}

/// The consumers that satisfy `pred`, in order.
pub open spec fn consumers_kept(
    rows: Seq<ConsumerView>,
    pred: spec_fn(ConsumerView) -> bool,
) -> Seq<ConsumerView>
    decreases rows.len(),
{
    if rows.len() == 0 {
        rows
    } else {
        let init = consumers_kept(rows.drop_last(), pred);
        if pred(rows.last()) {
            init.push(rows.last())
        } else {
            init
        }
    }
}

pub open spec fn not_named(id: Seq<char>) -> spec_fn(ConsumerView) -> bool {
    |c: ConsumerView| c.id != id
}

pub open spec fn not_seen_before(cutoff: Seq<char>) -> spec_fn(ConsumerView) -> bool {
    |c: ConsumerView| !text::text_less(c.last_seen_at, cutoff)
}

/// Whether a consumer of the topic is registered.
pub open spec fn has_consumer(rows: Seq<ConsumerView>, topic: Seq<char>) -> bool {
    exists|i: int| 0 <= i < rows.len() && (#[trigger] rows[i]).topic == topic
}

/// The attributes of a consumer, read from JSON text.
pub open spec fn consumer_attributes(raw: Seq<char>) -> Map<Seq<char>, Seq<char>> {
    json::string_map_of(raw)
}

/// The attributes of a consumer, read from JSON text. Text that is not an object
/// of strings holds none.
pub fn parse_consumer_attributes(raw: &str) -> (r: Attributes)
    ensures
        r@ == consumer_attributes(raw@),
{
    json::string_map(raw)
}

/// The attribute of a consumer, if it has one that is not empty.
pub open spec fn attribute_in(
    rows: Seq<ConsumerView>,
    id: Seq<char>,
    key: Seq<char>,
) -> Option<Seq<char>> {
    match consumer_place(rows, id) {
        None => None,
        Some(i) => {
            let all = consumer_attributes(rows[i].attributes);
            if all.contains_key(key) && all[key].len() > 0 {
                Some(all[key])
            } else {
                None
            }
        },
    }
}

impl ConsumerTable {
    pub fn new() -> (r: ConsumerTable)
        ensures
            r@ == Seq::<ConsumerView>::empty(),
    {
        let r: ConsumerTable = ConsumerTable { rows: Vec::new() };
        proof {
            assert(r@ =~= Seq::<ConsumerView>::empty());
        }
        r
    }

    /// Adds a consumer behind all that are not younger.
    pub fn add_row(&mut self, row: ConsumerRow)
        ensures
            final(self)@ == consumer_added(old(self)@, row@),
    {
        let ghost before = self@;
        let ghost added = row@;
        let mut i: usize = self.rows.len();
        proof {
            assert(before.take(i as int) =~= before);
            assert(before.skip(i as int) =~= Seq::<ConsumerView>::empty());
            assert(consumer_added(before, added) =~= consumer_added(before.take(i as int), added)
                + before.skip(i as int));
        }
        while i > 0 && text::less(row.created_at.as_str(), self.rows[i - 1].created_at.as_str())
            invariant
                i <= self.rows@.len(),
                before == self@,
                added == row@,
                consumer_added(before, added) == consumer_added(before.take(i as int), added)
                    + before.skip(i as int),
            decreases i,
        {
            proof {
                let head = before.take(i as int);
                assert(head.last() == self.rows@[i - 1]@);
                assert(head.drop_last() =~= before.take(i - 1));
                assert(before.skip(i - 1) =~= seq![head.last()] + before.skip(i as int));
                assert(consumer_added(before, added) =~= consumer_added(before.take(i - 1), added)
                    + before.skip(i - 1));
            }
            i = i - 1;
        }
        proof {
            if i > 0 {
                assert(before.take(i as int).last() == self.rows@[i - 1]@);
            }
            assert(consumer_added(before.take(i as int), added) =~= before.take(i as int).push(
                added,
            ));
        }
        self.rows.insert(i, row);
        proof {
            assert(self@ =~= before.take(i as int).push(added) + before.skip(i as int));
        }
    }

    fn find(&self, id: &str) -> (r: Option<usize>)
        ensures
            match r {
                Some(i) => consumer_place(self@, id@) == Some(i as int) && i < self@.len(),
                None => consumer_place(self@, id@) is None,
            },
    {
        let mut found: Option<usize> = None;
        let mut i: usize = 0;
        proof {
            assert(self@.take(0) =~= Seq::<ConsumerView>::empty());
        }
        while i < self.rows.len()
            invariant
                i <= self.rows@.len(),
                match found {
                    Some(k) => consumer_place(self@.take(i as int), id@) == Some(k as int) && k < i,
                    None => consumer_place(self@.take(i as int), id@) is None,
                },
            decreases self.rows.len() - i,
        {
            proof {
                assert(self@.take(i + 1).drop_last() =~= self@.take(i as int));
                assert(self@.take(i + 1).last() == self.rows@[i as int]@);
            }
            if found.is_none() && text::text_eq(self.rows[i].id.as_str(), id) {
                found = Some(i);
            }
            i = i + 1;
        }
        proof {
            assert(self@.take(i as int) =~= self@);
        }
        found
    }

    /// Registers a consumer under the identifier `id`.
    pub fn register(&mut self, id: &str, topic: &str, name: &str, attributes: &str, now: &str)
        ensures
            final(self)@ == registered(
                old(self)@,
                id@,
                RegistrationView { topic: topic@, name: name@, attributes: attributes@ },
                now@,
            ),
    {
        match self.find(id) {
            Some(i) => {
                let row: ConsumerRow = ConsumerRow {
                    id: self.rows[i].id.clone(),
                    topic: topic.to_string(),
                    name: name.to_string(),
                    attributes: attributes.to_string(),
                    last_seen_at: now.to_string(),
                    created_at: self.rows[i].created_at.clone(),
                };
                let ghost before = self@;
                let ghost state = row@;
                self.rows.set(i, row);
                proof {
                    assert(self@ =~= before.update(i as int, state));
                }
            },
            None => {
                self.add_row(
                    ConsumerRow {
                        id: id.to_string(),
                        topic: topic.to_string(),
                        name: name.to_string(),
                        attributes: attributes.to_string(),
                        last_seen_at: now.to_string(),
                        created_at: now.to_string(),
                    },
                );
            },
        }
    }

    /// The attribute of a consumer, if it has one that is not empty.
    pub fn attribute(&self, id: &str, key: &str) -> (r: Option<String>)
        ensures
            text::opt_text(r) == attribute_in(self@, id@, key@),
    {
        match self.find(id) {
            None => None,
            Some(i) => {
                let all: Attributes = parse_consumer_attributes(self.rows[i].attributes.as_str());
                match all.get(key) {
                    None => None,
                    Some(value) => if value.as_str().unicode_len() > 0 {
                        Some(value.clone())
                    } else {
                        None
                    },
                }
            },
        }
    }

    /// Notes that a consumer was seen; says whether it is known.
    pub fn touch(&mut self, id: &str, now: &str) -> (r: bool)
        ensures
            match consumer_place(old(self)@, id@) {
                Some(i) => r && 0 <= i < old(self)@.len() && final(self)@ == old(self)@.update(
                    i,
                    ConsumerView { last_seen_at: now@, ..old(self)@[i] },
                ),
                None => !r && final(self)@ == old(self)@,
            },
    {
        match self.find(id) {
            None => false,
            Some(i) => {
                let row: ConsumerRow = ConsumerRow {
                    id: self.rows[i].id.clone(),
                    topic: self.rows[i].topic.clone(),
                    name: self.rows[i].name.clone(),
                    attributes: self.rows[i].attributes.clone(),
                    last_seen_at: now.to_string(),
                    created_at: self.rows[i].created_at.clone(),
                };
                let ghost before = self@;
                let ghost state = row@;
                self.rows.set(i, row);
                proof {
                    assert(self@ =~= before.update(i as int, state));
                }
                true
            },
        }
    }

    /// Removes a consumer; says whether it was known.
    pub fn unregister(&mut self, id: &str) -> (r: bool)
        ensures
            final(self)@ == consumers_kept(old(self)@, not_named(id@)),
            r == (final(self)@.len() < old(self)@.len()),
    {
        let ghost before = self@;
        let ghost pred = not_named(id@);
        let n: usize = self.rows.len();
        let mut taken: Vec<ConsumerRow> = Vec::new();
        std::mem::swap(&mut self.rows, &mut taken);
        let ghost all = taken@;
        proof {
            assert(before.take(0) =~= Seq::<ConsumerView>::empty());
            assert(consumer_views(self.rows@) =~= consumers_kept(before.take(0), pred));
        }
        for row in it: taken
            invariant
                it.seq() == all,
                consumer_views(all) == before,
                pred == not_named(id@),
                self@ == consumers_kept(before.take(it.index()), pred),
        {
            let ghost k = it.index();
            proof {
                assert(before.take(k + 1).drop_last() =~= before.take(k));
                assert(before.take(k + 1).last() == row@);
            }
            if !text::text_eq(row.id.as_str(), id) {
                let ghost some = self@;
                self.rows.push(row);
                proof {
                    assert(self@ =~= some.push(row@));
                }
            }
        }
        proof {
            assert(before.take(before.len() as int) =~= before);
        }
        self.rows.len() < n
    }

    /// Removes the consumers last seen before `cutoff`; counts them.
    pub fn purge_stale(&mut self, cutoff: &str) -> (r: usize)
        ensures
            final(self)@ == consumers_kept(old(self)@, not_seen_before(cutoff@)),
            r == old(self)@.len() - final(self)@.len(),
    {
        let ghost before = self@;
        let ghost pred = not_seen_before(cutoff@);
        let n: usize = self.rows.len();
        let mut taken: Vec<ConsumerRow> = Vec::new();
        std::mem::swap(&mut self.rows, &mut taken);
        let ghost all = taken@;
        proof {
            assert(before.take(0) =~= Seq::<ConsumerView>::empty());
            assert(consumer_views(self.rows@) =~= consumers_kept(before.take(0), pred));
        }
        for row in it: taken
            invariant
                it.seq() == all,
                consumer_views(all) == before,
                pred == not_seen_before(cutoff@),
                self@ == consumers_kept(before.take(it.index()), pred),
                self@.len() <= it.index(),
        {
            let ghost k = it.index();
            proof {
                assert(before.take(k + 1).drop_last() =~= before.take(k));
                assert(before.take(k + 1).last() == row@);
            }
            if !text::less(row.last_seen_at.as_str(), cutoff) {
                let ghost some = self@;
                self.rows.push(row);
                proof {
                    assert(self@ =~= some.push(row@));
                }
            }
        }
        proof {
            assert(before.take(before.len() as int) =~= before);
        }
        n - self.rows.len()
    }

    /// Whether a consumer of the topic is registered.
    pub fn serves(&self, topic: &str) -> (r: bool)
        ensures
            r == has_consumer(self@, topic@),
    {
        let mut i: usize = 0;
        while i < self.rows.len()
            invariant
                i <= self.rows@.len(),
                forall|k: int| 0 <= k < i ==> (#[trigger] self@[k]).topic != topic@,
            decreases self.rows.len() - i,
        {
            proof {
                assert(self@[i as int] == self.rows@[i as int]@);
            }
            if text::text_eq(self.rows[i].topic.as_str(), topic) {
                return true;
            }
            i = i + 1;
        }
        false
    }
}

/// A registered consumer is known by its identifier, with what it said of
/// itself.
pub proof fn law_a_registered_consumer_is_known(
    rows: Seq<ConsumerView>,
    id: Seq<char>,
    what: RegistrationView,
    now: Seq<char>,
)
    ensures
        ({
            let after = registered(rows, id, what, now);
            &&& consumer_place(after, id) matches Some(i)
            &&& 0 <= i < after.len()
            &&& after[i].topic == what.topic
            &&& after[i].name == what.name
            &&& after[i].attributes == what.attributes
            &&& after[i].last_seen_at == now
        }),
{
    lemma_consumer_place(rows, id);
    match consumer_place(rows, id) {
        Some(i) => {
            let state = ConsumerView {
                topic: what.topic,
                name: what.name,
                attributes: what.attributes,
                last_seen_at: now,
                ..rows[i]
            };
            lemma_place_of_update(rows, id, state);
        },
        None => {
            let c = ConsumerView {
                id,
                topic: what.topic,
                name: what.name,
                attributes: what.attributes,
                last_seen_at: now,
                created_at: now,
            };
            lemma_place_of_added(rows, c);
        },
    }
}

proof fn lemma_place_of_update(rows: Seq<ConsumerView>, id: Seq<char>, state: ConsumerView)
    requires
        consumer_place(rows, id) is Some,
        state.id == id,
    ensures
        consumer_place(rows.update(consumer_place(rows, id)->0, state), id) == consumer_place(
            rows,
            id,
        ),
        0 <= consumer_place(rows, id)->0 < rows.len(),
    decreases rows.len(),
{
    let i = consumer_place(rows, id)->0;
    lemma_consumer_place(rows, id);
    let after = rows.update(i, state);
    if i == rows.len() - 1 && consumer_place(rows.drop_last(), id) is None {
        assert(after.drop_last() =~= rows.drop_last());
    } else {
        lemma_place_of_update(rows.drop_last(), id, state);
        lemma_consumer_place(rows.drop_last(), id);
        assert(after.drop_last() =~= rows.drop_last().update(i, state));
    }
}

proof fn lemma_place_of_added(rows: Seq<ConsumerView>, c: ConsumerView)
    requires
        consumer_place(rows, c.id) is None,
    ensures
        consumer_place(consumer_added(rows, c), c.id) matches Some(i) && 0 <= i < consumer_added(
            rows,
            c,
        ).len() && consumer_added(rows, c)[i] == c,
    decreases rows.len(),
{
    let after = consumer_added(rows, c);
    if rows.len() > 0 && text::text_less(c.created_at, rows.last().created_at) {
        lemma_place_of_added(rows.drop_last(), c);
        assert(after.drop_last() =~= consumer_added(rows.drop_last(), c));
    } else {
        assert(after.drop_last() =~= rows);
    }
}

/// What is kept are the consumers that satisfy the predicate.
pub proof fn lemma_consumers_kept(
    rows: Seq<ConsumerView>,
    pred: spec_fn(ConsumerView) -> bool,
    c: ConsumerView,
)
    ensures
        consumers_kept(rows, pred).contains(c) <==> rows.contains(c) && pred(c),
    decreases rows.len(),
{
    if rows.len() > 0 {
        let init = rows.drop_last();
        lemma_consumers_kept(init, pred, c);
        let before = consumers_kept(init, pred);
        let all = consumers_kept(rows, pred);
        if rows.contains(c) && pred(c) {
            let k = rows.index_of(c);
            if k < init.len() {
                assert(init[k] == c);
                assert(all[before.index_of(c)] == c);
            } else {
                assert(all[all.len() - 1] == c);
            }
        }
        if all.contains(c) {
            let k = all.index_of(c);
            if k < before.len() {
                assert(before[k] == c);
                assert(rows[init.index_of(c)] == c);
            } else {
                assert(rows[rows.len() - 1] == c);
            }
        }
    }
}

/// A new consumer is listed behind all that came no later than it, and the
/// others keep their order.
pub proof fn law_consumers_are_listed_as_they_came(rows: Seq<ConsumerView>, c: ConsumerView)
    ensures
        exists|k: int|
            0 <= k <= rows.len() && consumer_added(rows, c) == #[trigger] rows.subrange(0, k).push(c)
                + rows.subrange(k, rows.len() as int) && (k > 0 ==> !text::text_less(
                c.created_at,
                rows[k - 1].created_at,
            )) && (forall|i: int|
                k <= i < rows.len() ==> text::text_less(
                    c.created_at,
                    (#[trigger] rows[i]).created_at,
                )),
    decreases rows.len(),
{
    if rows.len() > 0 && text::text_less(c.created_at, rows.last().created_at) {
        let init = rows.drop_last();
        law_consumers_are_listed_as_they_came(init, c);
        let k = choose|k: int|
            0 <= k <= init.len() && consumer_added(init, c) == #[trigger] init.subrange(0, k).push(c)
                + init.subrange(k, init.len() as int) && (k > 0 ==> !text::text_less(
                c.created_at,
                init[k - 1].created_at,
            )) && (forall|i: int|
                k <= i < init.len() ==> text::text_less(
                    c.created_at,
                    (#[trigger] init[i]).created_at,
                ));
        assert(consumer_added(rows, c) =~= rows.subrange(0, k).push(c) + rows.subrange(
            k,
            rows.len() as int,
        ));
        assert forall|i: int| k <= i < rows.len() implies text::text_less(
            c.created_at,
            (#[trigger] rows[i]).created_at,
        ) by {
            if i < init.len() {
                assert(init[i] == rows[i]);
            }
        }
        assert(k > 0 ==> init[k - 1] == rows[k - 1]);
    } else {
        let k = rows.len() as int;
        assert(consumer_added(rows, c) =~= rows.subrange(0, k).push(c) + rows.subrange(
            k,
            rows.len() as int,
        ));
    }
}

/// A consumer that is known keeps its place and the time at which it came; a
/// consumer that is not known came now. The others stay.
pub proof fn law_a_known_consumer_keeps_its_place(
    rows: Seq<ConsumerView>,
    id: Seq<char>,
    what: RegistrationView,
    now: Seq<char>,
    i: int,
)
    requires
        0 <= i < rows.len(),
        rows[i].id == id,
        forall|j: int| 0 <= j < i ==> (#[trigger] rows[j]).id != id,
    ensures
        ({
            let after = registered(rows, id, what, now);
            &&& after.len() == rows.len()
            &&& after[i].id == id
            &&& after[i].created_at == rows[i].created_at
            &&& after[i].last_seen_at == now
            &&& after[i].topic == what.topic
            &&& after[i].name == what.name
            &&& after[i].attributes == what.attributes
            &&& forall|j: int| 0 <= j < rows.len() && j != i ==> #[trigger] after[j] == rows[j]
        }),
{
    lemma_first_consumer(rows, id, i);
}

proof fn lemma_first_consumer(rows: Seq<ConsumerView>, id: Seq<char>, i: int)
    requires
        0 <= i < rows.len(),
        rows[i].id == id,
        forall|j: int| 0 <= j < i ==> (#[trigger] rows[j]).id != id,
    ensures
        consumer_place(rows, id) == Some(i),
    decreases rows.len(),
{
    let init = rows.drop_last();
    if i < init.len() {
        assert(init[i] == rows[i]);
        assert forall|j: int| 0 <= j < i implies (#[trigger] init[j]).id != id by {
            assert(init[j] == rows[j]);
        }
        lemma_first_consumer(init, id, i);
    } else {
        lemma_consumer_place(init, id);
        if consumer_place(init, id) is Some {
            let k = consumer_place(init, id)->0;
            assert(rows[k] == init[k]);
        }
    }
}

/// An attribute is found where the consumer is known and the value is not empty.
pub proof fn law_an_empty_attribute_is_none(
    rows: Seq<ConsumerView>,
    id: Seq<char>,
    key: Seq<char>,
    i: int,
)
    requires
        0 <= i < rows.len(),
        rows[i].id == id,
        forall|j: int| 0 <= j < i ==> (#[trigger] rows[j]).id != id,
    ensures
        ({
            let all = json::string_map_of(rows[i].attributes);
            &&& attribute_in(rows, id, key) is Some <==> all.contains_key(key) && all[key].len() > 0
            &&& attribute_in(rows, id, key) is Some ==> attribute_in(rows, id, key)->0 == all[key]
        }),
{
    lemma_first_consumer(rows, id, i);
}

/// Removing consumers keeps the others in their order.
pub proof fn law_the_remaining_consumers_keep_their_order(
    a: Seq<ConsumerView>,
    b: Seq<ConsumerView>,
    id: Seq<char>,
    cutoff: Seq<char>,
)
    ensures
        consumers_kept(a + b, not_named(id)) == consumers_kept(a, not_named(id)) + consumers_kept(
            b,
            not_named(id),
        ),
        consumers_kept(a + b, not_seen_before(cutoff)) == consumers_kept(
            a,
            not_seen_before(cutoff),
        ) + consumers_kept(b, not_seen_before(cutoff)),
        a.len() == 1 ==> consumers_kept(a, not_named(id)) == (if a[0].id == id {
            Seq::empty()
        } else {
            a
        }),
        a.len() == 1 ==> consumers_kept(a, not_seen_before(cutoff)) == (if text::text_less(
            a[0].last_seen_at,
            cutoff,
        ) {
            Seq::empty()
        } else {
            a
        }),
    decreases b.len(),
{
    if b.len() > 0 {
        law_the_remaining_consumers_keep_their_order(a, b.drop_last(), id, cutoff);
        assert((a + b).drop_last() =~= a + b.drop_last());
        assert((a + b).last() == b.last());
    } else {
        assert(a + b =~= a);
        assert(consumers_kept(a, not_named(id)) + consumers_kept(b, not_named(id))
            =~= consumers_kept(a, not_named(id)));
        assert(consumers_kept(a, not_seen_before(cutoff)) + consumers_kept(
            b,
            not_seen_before(cutoff),
        ) =~= consumers_kept(a, not_seen_before(cutoff)));
    }
    if a.len() == 1 {
        reveal_with_fuel(consumers_kept, 2);
        assert(a.drop_last() =~= Seq::<ConsumerView>::empty());
        assert(a.drop_last().push(a.last()) =~= a);
    }
}

} // verus!
