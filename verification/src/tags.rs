//! The index by tag: for each letter, the events that carry it and the
//! values that each of them carries under it.

use crate::assoc::{lemma_index_of, lemma_map_of_remove, map_of, AssocList};
use crate::event::{strings_of, Tag};
use crate::ident::{Key, MappingIdentifier};
use crate::keyset::{lemma_ordered_distinct, lemma_push_set, lemma_take_step, KeySet};
use vstd::prelude::*;

verus! {

/// What the tag index holds for one letter: event keys and their values.
pub type LetterModel = Map<Key, Set<Seq<char>>>;

/// What the tag index holds: for each letter, event keys and their values.
pub type TagsModel = Map<char, LetterModel>;

/// The value sets that a list of value lists stands for, one for one.
pub open spec fn value_sets(values: Seq<Vec<String>>) -> Seq<Set<Seq<char>>> {
    values.map_values(|v: Vec<String>| strings_of(v@))
}

/// What the index holds under `letter`; nothing where it has no such
/// letter.
pub open spec fn under_letter(tags: TagsModel, letter: char) -> LetterModel {
    if tags.contains_key(letter) {
        tags[letter]
    } else {
        Map::empty()
    }
}

/// The index after the event `key` has been recorded under `letter` with
/// these values, in place of what was recorded for it there before.
pub open spec fn recorded_under(
    tags: TagsModel,
    letter: char,
    key: Key,
    values: Set<Seq<char>>,
) -> TagsModel {
    tags.insert(letter, under_letter(tags, letter).insert(key, values))
}

/// Whether the index knows the event `key` under `letter`.
pub open spec fn referenced(tags: TagsModel, letter: char, key: Key) -> bool {
    tags.contains_key(letter) && tags[letter].contains_key(key)
}

/// The values recorded for the event `key` under `letter`; none where the
/// index does not know the event under that letter.
pub open spec fn recorded(tags: TagsModel, letter: char, key: Key) -> Set<Seq<char>> {
    if referenced(tags, letter, key) {
        tags[letter][key]
    } else {
        Set::empty()
    }
}

/// Whether the event `key` carries, under the letter of `want`, every
/// value that `want` asks for.
pub open spec fn satisfies(tags: TagsModel, want: Tag, key: Key) -> bool {
    strings_of(want.values@).subset_of(recorded(tags, want.letter, key))
}

/// Whether the event `key` meets every one of the wanted constraints.
pub open spec fn satisfies_all(tags: TagsModel, wanted: Seq<Tag>, key: Key) -> bool {
    forall|i: int| 0 <= i < wanted.len() ==> satisfies(tags, #[trigger] wanted[i], key)
}

/// Whether the index knows the event `key` under the letter of one of the
/// first `n` wanted constraints.
pub open spec fn referenced_upto(tags: TagsModel, wanted: Seq<Tag>, n: int, key: Key) -> bool {
    exists|i: int| 0 <= i < n && i < wanted.len() && referenced(tags, (#[trigger] wanted[i]).letter, key)
}

/// The events that the index knows under a wanted letter and that meet
/// all the wanted constraints at once.
pub open spec fn tag_matches(tags: TagsModel, wanted: Seq<Tag>) -> Set<Key> {
    Set::new(
        |key: Key|
            referenced_upto(tags, wanted, wanted.len() as int, key) && satisfies_all(
                tags,
                wanted,
                key,
            ),
    )
}

/// Whether the list holds the string.
pub fn holds(have: &Vec<String>, s: &String) -> (r: bool)
    ensures
        r == strings_of(have@).contains(s@),
{
    let mut j: usize = 0;
    while j < have.len()
        invariant
            j <= have.len(),
            forall|t: int| 0 <= t < j ==> (#[trigger] have@[t])@ != s@,
        decreases have.len() - j,
    {
        if have[j] == *s {
            return true;
        }
        j = j + 1;
    }
    false
}

/// Whether the list `have` holds every string of `want`.
pub fn holds_all(have: &Vec<String>, want: &Vec<String>) -> (r: bool)
    ensures
        r == strings_of(want@).subset_of(strings_of(have@)),
{
    let mut i: usize = 0;
    while i < want.len()
        invariant
            i <= want.len(),
            forall|t: int| 0 <= t < i ==> strings_of(have@).contains((#[trigger] want@[t])@),
        decreases want.len() - i,
    {
        if !holds(have, &want[i]) {
            assert(strings_of(want@).contains(want@[i as int]@));
            return false;
        }
        i = i + 1;
    }
    true
}

/// The events known under one letter, each with the values that it
/// carries under that letter.
pub struct TagBucket {
    keys: KeySet,
    values: Vec<Vec<String>>,
}

impl View for TagBucket {
    type V = LetterModel;

    closed spec fn view(&self) -> LetterModel {
        map_of(self.keys@, value_sets(self.values@))
    }
}

impl TagBucket {
    /// The invariant of the type: the event keys are in index order, and
    /// each has its list of values.
    pub closed spec fn wf(&self) -> bool {
        self.keys.wf() && self.keys@.len() == self.values@.len()
    }

    /// The bucket without events.
    pub fn new() -> (r: Self)
        ensures
            r.wf(),
            r@ == LetterModel::empty(),
    {
        let r = TagBucket { keys: KeySet::new(), values: Vec::new() };
        assert(r@ =~= LetterModel::empty());
        r
    }

    /// The keys of the events known.
    pub fn keys(&self) -> (r: &KeySet)
        requires
            self.wf(),
        ensures
            r.wf(),
            r.set() == self@.dom(),
    {
        assert(self.keys.set() =~= self@.dom());
        &self.keys
    }

    /// The values recorded for the event `key`, if it is known.
    pub fn get(&self, key: &MappingIdentifier) -> (r: Option<&Vec<String>>)
        requires
            self.wf(),
        ensures
            match r {
                Some(v) => self@.contains_key(key@) && strings_of(v@) == self@[key@],
                None => !self@.contains_key(key@),
            },
    {
        match self.keys.position(key) {
            Some(p) => {
                proof {
                    lemma_ordered_distinct(self.keys@);
                    lemma_index_of(self.keys@, p as int);
                }
                Some(&self.values[p])
            },
            None => None,
        }
    }

    /// Records `values` for the event `key`, in place of what was recorded
    /// for it before.
    pub fn insert(&mut self, key: MappingIdentifier, values: Vec<String>)
        requires
            old(self).wf(),
        ensures
            final(self).wf(),
            final(self)@ == old(self)@.insert(key@, strings_of(values@)),
    {
        let ghost keys0 = self.keys@;
        let ghost sets0 = value_sets(self.values@);
        let ghost fresh = strings_of(values@);
        let (p, added) = self.keys.place(key);
        if added {
            self.values.insert(p, values);
        } else {
            self.values.set(p, values);
        }
        proof {
            let keys1 = self.keys@;
            let sets1 = value_sets(self.values@);
            lemma_ordered_distinct(keys0);
            lemma_ordered_distinct(keys1);
            lemma_map_of_remove(keys1, sets1, p as int);
            if added {
                assert(keys1.remove(p as int) =~= keys0);
                assert(sets1.remove(p as int) =~= sets0);
                assert(map_of(keys1, sets1) =~= map_of(keys0, sets0).insert(key@, fresh));
            } else {
                lemma_map_of_remove(keys0, sets0, p as int);
                assert(sets1.remove(p as int) =~= sets0.remove(p as int));
                assert(map_of(keys1, sets1) =~= map_of(keys0, sets0).insert(key@, fresh));
            }
        }
    }
}

/// The index by tag.
pub struct TagIndex {
    list: AssocList<char, TagBucket>,
}

impl View for TagIndex {
    type V = TagsModel;

    closed spec fn view(&self) -> TagsModel {
        Map::new(|l: char| self.list@.contains_key(l), |l: char| self.list@[l]@)
    }
}

impl TagIndex {
    /// The invariant of the type: no letter has two buckets, and every
    /// bucket is in index order.
    pub closed spec fn wf(&self) -> bool {
        self.list.wf() && forall|l: char|
            self.list@.contains_key(l) ==> (#[trigger] self.list@[l]).wf()
    }

    /// The index without letters.
    pub fn new() -> (r: Self)
        ensures
            r.wf(),
            r@ == TagsModel::empty(),
    {
        let r = TagIndex { list: AssocList::new() };
        assert(r@ =~= TagsModel::empty());
        r
    }

    /// Records under `letter` that the event `key` carries `values`, in
    /// place of what was recorded for it under that letter before.
    pub fn insert(&mut self, letter: char, key: MappingIdentifier, values: Vec<String>)
        requires
            old(self).wf(),
        ensures
            final(self).wf(),
            final(self)@ == recorded_under(old(self)@, letter, key@, strings_of(values@)),
    {
        let ghost before = self.list@;
        let found = self.list.remove(&letter);
        let mut bucket = match found {
            Some(b) => b,
            None => TagBucket::new(),
        };
        proof {
            assert(bucket@ == under_letter(old(self)@, letter));
        }
        bucket.insert(key, values);
        self.list.insert(letter, bucket);
        proof {
            assert forall|l: char| self.list@.contains_key(l) implies (#[trigger] self.list@[l]).wf() by {
                if l != letter {
                    assert(before.contains_key(l));
                }
            }
            assert(self@ =~= recorded_under(old(self)@, letter, key@, strings_of(values@)));
        }
    }

    /// Takes out every letter.
    pub fn clear(&mut self)
        ensures
            final(self).wf(),
            final(self)@ == TagsModel::empty(),
    {
        self.list.clear();
        assert(self@ =~= TagsModel::empty());
    }

    /// Whether the event `key` carries, under the letter of `want`, every
    /// value that `want` asks for.
    pub fn satisfies(&self, want: &Tag, key: &MappingIdentifier) -> (r: bool)
        requires
            self.wf(),
        ensures
            r == satisfies(self@, *want, key@),
    {
        let none: Vec<String> = Vec::new();
        assert(strings_of(none@) =~= Set::<Seq<char>>::empty());
        match self.list.get(&want.letter) {
            Some(bucket) => match bucket.get(key) {
                Some(have) => holds_all(have, &want.values),
                None => holds_all(&none, &want.values),
            },
            None => holds_all(&none, &want.values),
        }
    }

    /// Whether the event `key` meets every one of the wanted constraints.
    pub fn satisfies_all(&self, wanted: &Vec<Tag>, key: &MappingIdentifier) -> (r: bool)
        requires
            self.wf(),
        ensures
            r == satisfies_all(self@, wanted@, key@),
    {
        let mut i: usize = 0;
        while i < wanted.len()
            invariant
                i <= wanted.len(),
                self.wf(),
                forall|t: int| 0 <= t < i ==> satisfies(self@, #[trigger] wanted@[t], key@),
            decreases wanted.len() - i,
        {
            if !self.satisfies(&wanted[i], key) {
                return false;
            }
            i = i + 1;
        }
        true
    }

    /// The events that the index knows under a wanted letter and that meet
    /// all the wanted constraints at once.
    pub fn lookup(&self, wanted: &Vec<Tag>) -> (r: KeySet)
        requires
            self.wf(),
        ensures
            r.wf(),
            r.set() == tag_matches(self@, wanted@),
    {
        let mut out = KeySet::new();
        let mut i: usize = 0;
        while i < wanted.len()
            invariant
                i <= wanted.len(),
                self.wf(),
                out.wf(),
                forall|k: Key|
                    out.set().contains(k) <==> referenced_upto(self@, wanted@, i as int, k)
                        && satisfies_all(self@, wanted@, k),
            decreases wanted.len() - i,
        {
            let letter: char = wanted[i].letter;
            match self.list.get(&letter) {
                Some(bucket) => {
                    let keys = bucket.keys();
                    let mut e: usize = 0;
                    while e < keys.len()
                        invariant
                            e <= keys@.len(),
                            i < wanted.len(),
                            letter == wanted@[i as int].letter,
                            self.wf(),
                            out.wf(),
                            keys.wf(),
                            self@.contains_key(letter),
                            keys.set() == self@[letter].dom(),
                            forall|k: Key|
                                out.set().contains(k) <==> (referenced_upto(
                                    self@,
                                    wanted@,
                                    i as int,
                                    k,
                                ) || keys@.take(e as int).to_set().contains(k)) && satisfies_all(
                                    self@,
                                    wanted@,
                                    k,
                                ),
                        decreases keys@.len() - e,
                    {
                        let key = keys.get(e);
                        proof {
                            lemma_take_step(keys@, e as int);
                        }
                        if self.satisfies_all(wanted, &key) {
                            out.insert(key);
                        }
                        e = e + 1;
                    }
                    proof {
                        assert(keys@.take(keys@.len() as int) =~= keys@);
                        assert forall|k: Key|
                            referenced_upto(self@, wanted@, i + 1, k) <==> (referenced_upto(
                                self@,
                                wanted@,
                                i as int,
                                k,
                            ) || keys.set().contains(k)) by {
                            if keys.set().contains(k) {
                                assert(referenced(self@, wanted@[i as int].letter, k));
                            }
                        }
                    }
                },
                None => {
                    proof {
                        assert forall|k: Key|
                            referenced_upto(self@, wanted@, i + 1, k) <==> referenced_upto(
                                self@,
                                wanted@,
                                i as int,
                                k,
                            ) by {}
                    }
                },
            }
            i = i + 1;
        }
        proof {
            assert(out.set() =~= tag_matches(self@, wanted@));
        }
        out
    }
}

} // verus!
