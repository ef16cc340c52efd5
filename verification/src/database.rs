//! The engine: the surrogate key counter, the primary mapping and the four
//! secondary indexes, with admission of events and resolution of queries.

use crate::buckets::{
    bucket, buckets_union, filed, lemma_filed_union, AuthorIndex, CreatedAtIndex, KindIndex,
};
use crate::event::{
    collect_values, has_letter, lemma_tags_step, letter_values, strings_of, Event, EventId,
    EventIndexResult, Filter, PublicKey, Tag,
};
use crate::ident::{Key, MappingIdentifier, SmallerIdentifier};
use crate::keyset::{in_range, KeySet};
use crate::mapping::{lemma_resolved_len, Mapping};
use crate::query::{
    constrained, contradictory, copy_ids, lemma_sorted_keys, matching, narrow, paginate,
    query_result, sorted_keys, timed, window, State,
};
use crate::tags::{
    recorded, recorded_under, referenced, satisfies, tag_matches, under_letter, TagIndex,
    TagsModel,
};
use vstd::prelude::*;

verus! {

/// What holds of the contents of the engine at all times: the surrogate
/// keys in use are those issued so far, and every key in a secondary
/// index resolves through the primary mapping.
pub open spec fn consistent(s: State) -> bool {
    &&& forall|sid: u64| #[trigger] s.mapping.contains_key(sid) ==> 1 <= sid <= s.counter
    &&& forall|k: u16, key: Key|
        s.kinds.contains_key(k) && #[trigger] s.kinds[k].contains(key) ==> s.mapping.contains_key(
            key.sid,
        )
    &&& forall|a: PublicKey, key: Key|
        s.authors.contains_key(a) && #[trigger] s.authors[a].contains(key)
            ==> s.mapping.contains_key(key.sid)
    &&& forall|key: Key| #[trigger] s.created_at.contains(key) ==> s.mapping.contains_key(key.sid)
    &&& forall|l: char, key: Key|
        s.tags.contains_key(l) && #[trigger] s.tags[l].contains_key(key)
            ==> s.mapping.contains_key(key.sid)
}

/// The engine before the first event.
pub open spec fn empty_state() -> State {
    State {
        counter: 0,
        mapping: Map::empty(),
        kinds: Map::empty(),
        authors: Map::empty(),
        created_at: Set::empty(),
        tags: Map::empty(),
    }
}

/// The key that an event gets when it is admitted to an engine with these
/// contents: its own timestamp, and the next surrogate key.
pub open spec fn issued(s: State, e: Event) -> Key {
    Key { timestamp: e.created_at, sid: (s.counter + 1) as u64 }
}

/// The tag index after the event `key` has been recorded under each letter
/// that the first `n` of its tags have, with all the values that the event
/// carries under that letter.
pub open spec fn tags_recorded_upto(tags: TagsModel, key: Key, all: Seq<Tag>, n: int) -> TagsModel {
    Map::new(
        |l: char| tags.contains_key(l) || has_letter(all.take(n), l),
        |l: char|
            if has_letter(all.take(n), l) {
                under_letter(tags, l).insert(key, letter_values(all, l))
            } else {
                tags[l]
            },
    )
}

/// The tag index after the event `key` with the tags `all` has been
/// recorded.
pub open spec fn tags_recorded(tags: TagsModel, key: Key, all: Seq<Tag>) -> TagsModel {
    tags_recorded_upto(tags, key, all, all.len() as int)
}

/// The contents of the engine after it has been offered the event: the
/// same where the event is expired or ephemeral, and else with the event
/// filed under the next surrogate key in the mapping and in every index.
pub open spec fn indexed(s: State, e: Event) -> State {
    if e.admissible() {
        let key = issued(s, e);
        State {
            counter: key.sid,
            mapping: s.mapping.insert(key.sid, e.id),
            kinds: filed(s.kinds, e.kind, key),
            authors: filed(s.authors, e.pubkey, key),
            created_at: s.created_at.insert(key),
            tags: tags_recorded(s.tags, key, e.tags@),
        }
    } else {
        s
    }
}

/// The contents of the engine after it has been reset: the mapping and
/// every index are empty. The counter stays where it is, so that no
/// surrogate key is issued a second time.
pub open spec fn cleared(s: State) -> State {
    State {
        counter: s.counter,
        mapping: Map::empty(),
        kinds: Map::empty(),
        authors: Map::empty(),
        created_at: Set::empty(),
        tags: Map::empty(),
    }
}

/// Admitting an event keeps the contents consistent.
pub proof fn lemma_indexed_consistent(s: State, e: Event)
    requires
        consistent(s),
        s.counter < u64::MAX,
    ensures
        consistent(indexed(s, e)),
{
    if e.admissible() {
        let key = issued(s, e);
        let t = indexed(s, e);
        assert forall|k: u16, x: Key|
            t.kinds.contains_key(k) && #[trigger] t.kinds[k].contains(x) implies t.mapping.contains_key(
            x.sid,
        ) by {
            if !(k == e.kind && x == key) {
                assert(s.kinds.contains_key(k) && s.kinds[k].contains(x));
            }
        }
        assert forall|a: PublicKey, x: Key|
            t.authors.contains_key(a) && #[trigger] t.authors[a].contains(
                x,
            ) implies t.mapping.contains_key(x.sid) by {
            if !(a == e.pubkey && x == key) {
                assert(s.authors.contains_key(a) && s.authors[a].contains(x));
            }
        }
        assert forall|l: char, x: Key|
            t.tags.contains_key(l) && #[trigger] t.tags[l].contains_key(
                x,
            ) implies t.mapping.contains_key(x.sid) by {
            if x != key {
                assert(s.tags.contains_key(l) && s.tags[l].contains_key(x));
            }
        }
    }
}

/// A reset engine is consistent, whatever it held before.
pub proof fn lemma_cleared_consistent(s: State)
    ensures
        consistent(cleared(s)),
{
}

/// A reset engine holds no event: no event meets any filter, and every
/// query that names no identifiers is answered with nothing.
pub proof fn lemma_cleared_answers_nothing(s: State, f: Filter)
    ensures
        matching(cleared(s), f) == Set::<Key>::empty(),
        f.ids@.len() == 0 ==> query_result(cleared(s), f) == Seq::<EventId>::empty(),
{
    let t = cleared(s);
    assert forall|key: Key| !matching(t, f).contains(key) by {
        if crate::query::matches(t, f, key) {
            if f.kinds@.len() > 0 {
                assert(buckets_union(t.kinds, f.kinds@).contains(key));
            } else if f.authors@.len() > 0 {
                assert(buckets_union(t.authors, f.authors@).contains(key));
            } else if timed(f) {
                assert(t.created_at.contains(key));
            } else {
                assert(tag_matches(t.tags, f.generic_tags@).contains(key));
            }
        }
    }
    assert(matching(t, f) =~= Set::<Key>::empty());
    let none = Seq::<Key>::empty();
    assert(none.to_set() =~= Set::<Key>::empty());
    lemma_sorted_keys(none);
    assert(window(none, f.limit) =~= none);
}

/// Every event that meets a filter resolves through the primary mapping.
pub proof fn lemma_matching_known(s: State, f: Filter, key: Key)
    requires
        consistent(s),
        matching(s, f).contains(key),
    ensures
        s.mapping.contains_key(key.sid),
{
    if f.kinds@.len() > 0 {
        let i = choose|i: int|
            0 <= i < f.kinds@.len() && bucket(s.kinds, #[trigger] f.kinds@[i]).contains(
                key,
            );
        assert(s.kinds.contains_key(f.kinds@[i]) && s.kinds[f.kinds@[i]].contains(key));
    } else if f.authors@.len() > 0 {
        let i = choose|i: int|
            0 <= i < f.authors@.len() && bucket(
                s.authors,
                #[trigger] f.authors@[i],
            ).contains(key);
        assert(s.authors.contains_key(f.authors@[i]) && s.authors[f.authors@[i]].contains(key));
    } else if timed(f) {
        assert(s.created_at.contains(key));
    } else {
        let i = choose|i: int|
            0 <= i < f.generic_tags@.len() && referenced(
                s.tags,
                (#[trigger] f.generic_tags@[i]).letter,
                key,
            );
        let l = f.generic_tags@[i].letter;
        assert(s.tags.contains_key(l) && s.tags[l].contains_key(key));
    }
}

/// Whether the tags of an event meet the tag constraints of a filter: the
/// event has one of the wanted letters, and under each wanted letter it
/// carries every value asked for.
pub open spec fn wanted_tags_met(tags: Seq<Tag>, wanted: Seq<Tag>) -> bool {
    &&& exists|i: int| 0 <= i < wanted.len() && has_letter(tags, (#[trigger] wanted[i]).letter)
    &&& forall|i: int|
        0 <= i < wanted.len() ==> strings_of((#[trigger] wanted[i]).values@).subset_of(
            letter_values(tags, wanted[i].letter),
        )
}

/// Whether an event, looked at by itself, meets every predicate that the
/// filter has.
pub open spec fn event_meets(e: Event, f: Filter) -> bool {
    &&& constrained(f)
    &&& f.kinds@.len() > 0 ==> f.kinds@.contains(e.kind)
    &&& f.authors@.len() > 0 ==> f.authors@.contains(e.pubkey)
    &&& timed(f) ==> in_range(e.created_at, f.since, f.until)
    &&& f.generic_tags@.len() > 0 ==> wanted_tags_met(e.tags@, f.generic_tags@)
}

/// The key of a newly admitted event is in no index before the admission.
pub proof fn lemma_issued_is_fresh(s: State, e: Event)
    requires
        consistent(s),
        s.counter < u64::MAX,
    ensures
        !s.mapping.contains_key(issued(s, e).sid),
        !s.created_at.contains(issued(s, e)),
        forall|k: u16| s.kinds.contains_key(k) ==> !(#[trigger] s.kinds[k]).contains(issued(s, e)),
        forall|a: PublicKey|
            s.authors.contains_key(a) ==> !(#[trigger] s.authors[a]).contains(issued(s, e)),
        forall|l: char| !referenced(s.tags, l, issued(s, e)),
{
    let key = issued(s, e);
    assert forall|k: u16| s.kinds.contains_key(k) implies !(#[trigger] s.kinds[k]).contains(
        key,
    ) by {
        if s.kinds[k].contains(key) {
            assert(s.mapping.contains_key(key.sid));
        }
    }
    assert forall|a: PublicKey| s.authors.contains_key(a) implies !(#[trigger] s.authors[a]).contains(
        key,
    ) by {
        if s.authors[a].contains(key) {
            assert(s.mapping.contains_key(key.sid));
        }
    }
    assert forall|l: char| !referenced(s.tags, l, key) by {
        if s.tags.contains_key(l) && s.tags[l].contains_key(key) {
            assert(s.mapping.contains_key(key.sid));
        }
    }
}

/// What the tag index knows of an event once the event has been recorded:
/// of the event itself, its letters and under each all its values; of
/// every other event, what it knew before.
pub proof fn lemma_tags_recorded(tags: TagsModel, key: Key, all: Seq<Tag>, l: char, x: Key)
    ensures
        x != key ==> referenced(tags_recorded(tags, key, all), l, x) == referenced(tags, l, x),
        x != key ==> recorded(tags_recorded(tags, key, all), l, x)
            == recorded(tags, l, x),
        !referenced(tags, l, key) ==> referenced(tags_recorded(tags, key, all), l, key)
            == has_letter(all, l),
        !referenced(tags, l, key) ==> recorded(tags_recorded(tags, key, all), l, key)
            == letter_values(all, l),
{
    assert(all.take(all.len() as int) =~= all);
    if !has_letter(all, l) {
        assert(letter_values(all, l) =~= Set::<Seq<char>>::empty());
    }
}

/// Admission and matching agree: after an event has been admitted, the
/// events that meet a filter are those that met it before, and the new
/// event if, looked at by itself, it meets the filter.
pub proof fn lemma_admitted_event_is_matched(s: State, e: Event, f: Filter)
    requires
        consistent(s),
        s.counter < u64::MAX,
        e.admissible(),
    ensures
        !matching(s, f).contains(issued(s, e)),
        matching(indexed(s, e), f) == (if event_meets(e, f) {
            matching(s, f).insert(issued(s, e))
        } else {
            matching(s, f)
        }),
        indexed(s, e).mapping.contains_key(issued(s, e).sid),
        indexed(s, e).mapping[issued(s, e).sid] == e.id,
{
    let key = issued(s, e);
    let t = indexed(s, e);
    lemma_issued_is_fresh(s, e);
    assert(!matching(s, f).contains(key)) by {
        if matching(s, f).contains(key) {
            lemma_matching_known(s, f, key);
        }
    }
    assert forall|x: Key|
        matching(t, f).contains(x) <==> (if x == key {
            event_meets(e, f)
        } else {
            matching(s, f).contains(x)
        }) by {
        lemma_filed_union(s.kinds, e.kind, key, f.kinds@, x);
        lemma_filed_union(s.authors, e.pubkey, key, f.authors@, x);
        lemma_tag_matches_step(s, e, f.generic_tags@, x);
        if x == key {
            assert(!buckets_union(s.kinds, f.kinds@).contains(key)) by {
                if buckets_union(s.kinds, f.kinds@).contains(key) {
                    let i = choose|i: int|
                        0 <= i < f.kinds@.len() && bucket(
                            s.kinds,
                            #[trigger] f.kinds@[i],
                        ).contains(key);
                    assert(s.kinds[f.kinds@[i]].contains(key));
                }
            }
            assert(!buckets_union(s.authors, f.authors@).contains(key)) by {
                if buckets_union(s.authors, f.authors@).contains(key) {
                    let i = choose|i: int|
                        0 <= i < f.authors@.len() && bucket(
                            s.authors,
                            #[trigger] f.authors@[i],
                        ).contains(key);
                    assert(s.authors[f.authors@[i]].contains(key));
                }
            }
        }
    }
    if event_meets(e, f) {
        assert(matching(t, f) =~= matching(s, f).insert(key));
    } else {
        assert(matching(t, f) =~= matching(s, f));
    }
}

/// The tag predicate after an admission: the new event meets it if its
/// own tags do, and every other event meets it if it did before.
pub proof fn lemma_tag_matches_step(s: State, e: Event, wanted: Seq<Tag>, x: Key)
    requires
        consistent(s),
        s.counter < u64::MAX,
        e.admissible(),
    ensures
        tag_matches(indexed(s, e).tags, wanted).contains(x) <==> (if x == issued(s, e) {
            wanted_tags_met(e.tags@, wanted)
        } else {
            tag_matches(s.tags, wanted).contains(x)
        }),
{
    let key = issued(s, e);
    let after = indexed(s, e).tags;
    lemma_issued_is_fresh(s, e);
    assert forall|i: int| 0 <= i < wanted.len() implies (referenced(
        after,
        (#[trigger] wanted[i]).letter,
        x,
    ) == (if x == key {
        has_letter(e.tags@, wanted[i].letter)
    } else {
        referenced(s.tags, wanted[i].letter, x)
    }) && satisfies(after, wanted[i], x) == (if x == key {
        strings_of(wanted[i].values@).subset_of(
            letter_values(e.tags@, wanted[i].letter),
        )
    } else {
        satisfies(s.tags, wanted[i], x)
    })) by {
        lemma_tags_recorded(s.tags, key, e.tags@, wanted[i].letter, x);
    }
    if x == key {
        if tag_matches(after, wanted).contains(x) {
            let i = choose|i: int|
                0 <= i < wanted.len() && i < wanted.len() && referenced(
                    after,
                    (#[trigger] wanted[i]).letter,
                    x,
                );
            assert(has_letter(e.tags@, wanted[i].letter));
        }
        if wanted_tags_met(e.tags@, wanted) {
            let i = choose|i: int|
                0 <= i < wanted.len() && has_letter(e.tags@, (#[trigger] wanted[i]).letter);
            assert(referenced(after, wanted[i].letter, x));
        }
    } else {
        if tag_matches(after, wanted).contains(x) {
            let i = choose|i: int|
                0 <= i < wanted.len() && i < wanted.len() && referenced(
                    after,
                    (#[trigger] wanted[i]).letter,
                    x,
                );
            assert(referenced(s.tags, wanted[i].letter, x));
        }
        if tag_matches(s.tags, wanted).contains(x) {
            let i = choose|i: int|
                0 <= i < wanted.len() && i < wanted.len() && referenced(
                    s.tags,
                    (#[trigger] wanted[i]).letter,
                    x,
                );
            assert(referenced(after, wanted[i].letter, x));
        }
    }
}

/// An event that is expired or ephemeral leaves no trace: the contents of
/// the engine stay as they were, and so does the answer to every query.
pub proof fn lemma_excluded_leaves_no_trace(s: State, e: Event, f: Filter)
    requires
        e.expired || e.ephemeral(),
    ensures
        indexed(s, e) == s,
        query_result(indexed(s, e), f) == query_result(s, f),
{
}

/// The surrogate key of a newly admitted event lies above every key that
/// the mapping held before, and the mapping then holds the event's
/// identifier under it.
pub proof fn lemma_issued_above_all(s: State, e: Event)
    requires
        consistent(s),
        s.counter < u64::MAX,
        e.admissible(),
    ensures
        forall|sid: u64| s.mapping.contains_key(sid) ==> sid < issued(s, e).sid,
        indexed(s, e).mapping.contains_key(issued(s, e).sid),
        indexed(s, e).mapping[issued(s, e).sid] == e.id,
        indexed(s, e).counter == issued(s, e).sid,
{
}

/// Surrogate keys are issued in strictly increasing order: the key of a
/// newly admitted event lies above every key in use, and the key of the
/// event admitted after it lies higher still.
pub proof fn lemma_surrogate_keys_increase(s: State, first: Event, second: Event)
    requires
        consistent(s),
        first.admissible(),
        second.admissible(),
        s.counter < u64::MAX - 1,
    ensures
        forall|sid: u64| s.mapping.contains_key(sid) ==> sid < issued(s, first).sid,
        issued(s, first).sid < issued(indexed(s, first), second).sid,
        !s.mapping.contains_key(issued(s, first).sid),
{
}

/// Reading changes nothing: two answers to the same query on the same
/// contents are the same sequence.
pub proof fn lemma_idempotent_read(s: State, f: Filter, once: Seq<EventId>, again: Seq<EventId>)
    requires
        once == query_result(s, f),
        again == query_result(s, f),
    ensures
        once == again,
{
}

/// The in-memory indexes of an event store.
pub struct DatabaseIndexes {
    counter: u64,
    mapping: Mapping,
    kinds_index: KindIndex,
    authors_index: AuthorIndex,
    created_at_index: CreatedAtIndex,
    tags_index: TagIndex,
}

impl View for DatabaseIndexes {
    type V = State;

    closed spec fn view(&self) -> State {
        State {
            counter: self.counter,
            mapping: self.mapping@,
            kinds: self.kinds_index@,
            authors: self.authors_index@,
            created_at: self.created_at_index@,
            tags: self.tags_index@,
        }
    }
}

impl Default for DatabaseIndexes {
    fn default() -> (r: Self)
        ensures
            r.wf(),
            r@ == empty_state(),
    {
        DatabaseIndexes::new()
    }
}

impl DatabaseIndexes {
    /// Every index keeps the invariant of its type.
    pub closed spec fn parts_wf(&self) -> bool {
        &&& self.kinds_index.wf()
        &&& self.authors_index.wf()
        &&& self.created_at_index.wf()
        &&& self.tags_index.wf()
    }

    /// The invariant of the engine.
    pub open spec fn wf(&self) -> bool {
        self.parts_wf() && consistent(self@)
    }

    /// New empty indexes.
    pub fn new() -> (r: Self)
        ensures
            r.wf(),
            r@ == empty_state(),
    {
        DatabaseIndexes {
            counter: 0,
            mapping: Mapping::new(),
            kinds_index: KindIndex::new(),
            authors_index: AuthorIndex::new(),
            created_at_index: CreatedAtIndex::new(),
            tags_index: TagIndex::new(),
        }
    }

    /// Whether a surrogate key is left for one more event.
    pub fn has_room(&self) -> (r: bool)
        ensures
            r == (self@.counter < u64::MAX),
    {
        self.counter < u64::MAX
    }

    /// Issues the next surrogate key: the counter's value after it has
    /// been raised by one, most significant byte first.
    pub fn next_sid(&mut self) -> (r: SmallerIdentifier)
        requires
            old(self).wf(),
            old(self)@.counter < u64::MAX,
        ensures
            final(self).wf(),
            final(self)@ == (State { counter: (old(self)@.counter + 1) as u64, ..old(self)@ }),
            r@ == old(self)@.counter + 1,
            forall|sid: u64| old(self)@.mapping.contains_key(sid) ==> sid < r@,
    {
        self.counter = self.counter + 1;
        SmallerIdentifier::from_u64(self.counter)
    }

    /// Files the event's key under the event's kind.
    pub fn index_event_kind(&mut self, mid: MappingIdentifier, event: &Event)
        requires
            old(self).parts_wf(),
        ensures
            final(self).parts_wf(),
            final(self)@ == (State {
                kinds: filed(old(self)@.kinds, event.kind, mid@),
                ..old(self)@
            }),
    {
        self.kinds_index.insert(event.kind, mid);
    }

    /// Files the event's key under the event's author.
    pub fn index_event_author(&mut self, mid: MappingIdentifier, event: &Event)
        requires
            old(self).parts_wf(),
        ensures
            final(self).parts_wf(),
            final(self)@ == (State {
                authors: filed(old(self)@.authors, event.pubkey, mid@),
                ..old(self)@
            }),
    {
        self.authors_index.insert(event.pubkey, mid);
    }

    /// Files the event's key under its timestamp.
    pub fn index_event_created_at(&mut self, mid: MappingIdentifier)
        requires
            old(self).parts_wf(),
        ensures
            final(self).parts_wf(),
            final(self)@ == (State { created_at: old(self)@.created_at.insert(mid@), ..old(self)@ }),
    {
        self.created_at_index.insert(mid);
    }

    /// Records the event's key under each letter that the event's tags
    /// have, with all the values that the event carries under it.
    pub fn index_event_tags(&mut self, mid: MappingIdentifier, event: &Event)
        requires
            old(self).parts_wf(),
        ensures
            final(self).parts_wf(),
            final(self)@ == (State {
                tags: tags_recorded(old(self)@.tags, mid@, event.tags@),
                ..old(self)@
            }),
    {
        let ghost before = self@.tags;
        let ghost all = event.tags@;
        let mut i: usize = 0;
        proof {
            assert(self@.tags =~~= tags_recorded_upto(before, mid@, all, 0)) by {
                assert forall|l: char| !has_letter(all.take(0), l) by {}
            }
        }
        while i < event.tags.len()
            invariant
                i <= event.tags.len(),
                all == event.tags@,
                self.parts_wf(),
                self@ == (State { tags: self@.tags, ..old(self)@ }),
                self@.tags == tags_recorded_upto(before, mid@, all, i as int),
            decreases event.tags.len() - i,
        {
            let letter: char = event.tags[i].letter;
            let values = collect_values(&event.tags, letter);
            let ghost current = self@.tags;
            self.tags_index.insert(letter, mid, values);
            proof {
                let next = recorded_under(current, letter, mid@, letter_values(all, letter));
                assert(self@.tags == next);
                assert forall|l: char|
                    has_letter(all.take(i + 1), l) <==> has_letter(all.take(i as int), l) || l
                        == letter by {
                    lemma_tags_step(all, i as int, l);
                }
                let target = tags_recorded_upto(before, mid@, all, i + 1);
                assert forall|l: char| next.contains_key(l) implies #[trigger] next[l] =~= target[l] by {
                    if l == letter {
                        if has_letter(all.take(i as int), l) {
                            assert(under_letter(current, l) =~= under_letter(before, l).insert(
                                mid@,
                                letter_values(all, l),
                            ));
                        } else {
                            assert(under_letter(current, l) =~= under_letter(before, l));
                        }
                    }
                }
                assert(next =~= target);
            }
            i = i + 1;
        }
        proof {
            assert(all.take(all.len() as int) =~= all);
        }
    }

    /// Index an event: an event that is expired or ephemeral is passed
    /// over; any other is given the next surrogate key and filed in the
    /// mapping and in every index.
    pub fn index_event(&mut self, event: &Event) -> (r: EventIndexResult)
        requires
            old(self).wf(),
            event.admissible() ==> old(self)@.counter < u64::MAX,
        ensures
            final(self).wf(),
            final(self)@ == indexed(old(self)@, *event),
            r.to_store == event.admissible(),
            r.to_discard@.len() == 0,
            event.admissible() ==> {
                let sid = issued(old(self)@, *event).sid;
                &&& forall|earlier: u64| old(self)@.mapping.contains_key(earlier) ==> earlier < sid
                &&& final(self)@.mapping.contains_key(sid)
                &&& final(self)@.mapping[sid] == event.id
            },
    {
        if event.is_expired() || event.is_ephemeral() {
            return EventIndexResult::default();
        }
        let should_insert: bool = true;
        let sid = self.next_sid();
        let mapping_id = MappingIdentifier { sid, timestamp: event.created_at };
        assert(mapping_id@ == issued(old(self)@, *event));
        self.mapping.insert(mapping_id.sid, event.id);
        self.index_event_kind(mapping_id, event);
        self.index_event_author(mapping_id, event);
        self.index_event_created_at(mapping_id);
        self.index_event_tags(mapping_id, event);
        proof {
            lemma_indexed_consistent(old(self)@, *event);
        }
        EventIndexResult { to_store: should_insert, to_discard: Vec::new() }
    }

    /// The keys of the events that meet every predicate of the filter, in
    /// index order.
    pub fn matching_keys(&self, filter: &Filter) -> (r: KeySet)
        requires
            self.wf(),
        ensures
            r.wf(),
            r.set() == matching(self@, *filter),
    {
        let mut running = KeySet::new();
        let mut started: bool = false;
        assert(running.set() =~= Set::<Key>::empty());
        if filter.kinds.len() > 0 {
            let temp = self.kinds_index.query_index(&filter.kinds);
            narrow(&mut running, started, &temp);
            started = true;
        }
        if filter.authors.len() > 0 {
            let temp = self.authors_index.query_index(&filter.authors);
            narrow(&mut running, started, &temp);
            started = true;
        }
        if filter.since.is_some() || filter.until.is_some() {
            let temp = self.created_at_index.range(filter.since, filter.until);
            narrow(&mut running, started, &temp);
            started = true;
        }
        if filter.generic_tags.len() > 0 {
            let temp = self.tags_index.lookup(&filter.generic_tags);
            narrow(&mut running, started, &temp);
        }
        proof {
            assert(running.set() =~= matching(self@, *filter));
        }
        running
    }

    /// Query: the identifiers of the events that meet the filter, the
    /// newest of them as far as the limit allows, oldest first.
    pub fn query(&self, filter: &Filter) -> (r: Vec<EventId>)
        requires
            self.wf(),
        ensures
            r@ == query_result(self@, *filter),
            filter.ids@.len() > 0 ==> r@ == filter.ids@,
            filter.ids@.len() == 0 && contradictory(*filter) ==> r@.len() == 0,
            filter.ids@.len() == 0 && !contradictory(*filter) ==> r@.len() == window(
                sorted_keys(matching(self@, *filter)),
                filter.limit,
            ).len(),
    {
        if filter.ids.len() > 0 {
            return copy_ids(&filter.ids);
        }
        match (filter.since, filter.until) {
            (Some(since), Some(until)) => {
                if since > until {
                    return Vec::new();
                }
            },
            _ => {},
        }
        let matching_sids = self.matching_keys(filter);
        let retained = paginate(&matching_sids, filter.limit);
        proof {
            lemma_sorted_keys(matching_sids@);
            let w = window(matching_sids@, filter.limit);
            assert forall|i: int| 0 <= i < w.len() implies self@.mapping.contains_key(
                (#[trigger] w[i]).sid,
            ) by {
                assert(matching_sids@.contains(w[i]));
                lemma_matching_known(self@, *filter, w[i]);
            }
            lemma_resolved_len(self@.mapping, w);
        }
        self.mapping.resolve(&retained)
    }

    /// Clear: resets the engine to empty. The mapping and all four
    /// indexes lose their entries; the counter goes on from where it is.
    pub fn clear(&mut self)
        requires
            old(self).wf(),
        ensures
            final(self).wf(),
            final(self)@ == cleared(old(self)@),
    {
        self.mapping.clear();
        self.kinds_index.clear();
        self.authors_index.clear();
        self.created_at_index.clear();
        self.tags_index.clear();
        proof {
            assert(self@ == cleared(old(self)@));
            lemma_cleared_consistent(old(self)@);
        }
    }
}

} // verus!
