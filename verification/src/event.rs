//! The plain-value forms of what the engine consumes and hands back.

use vstd::prelude::*;

verus! {

/// Identifier of an event: opaque, content-derived, globally unique.
pub type EventId = [u8; 32];

/// Identifier of an author.
pub type PublicKey = [u8; 32];

/// A letter together with string values: on an event, the values it
/// carries under that letter; in a filter, the values it asks for.
#[derive(Debug, Clone, PartialEq, Eq)]
pub struct Tag {
    pub letter: char,
    pub values: Vec<String>,
}

/// An event as the engine reads it.
#[derive(Debug, Clone, PartialEq, Eq)]
pub struct Event {
    pub id: EventId,
    pub pubkey: PublicKey,
    pub created_at: u64,
    pub kind: u16,
    pub tags: Vec<Tag>,
    /// Whether the event is past its declared expiry.
    pub expired: bool,
}

/// A query: a conjunction of optional predicates and an optional cap on
/// the number of results. An empty list stands for an absent predicate.
#[derive(Debug, Clone, PartialEq, Eq)]
pub struct Filter {
    pub ids: Vec<EventId>,
    pub kinds: Vec<u16>,
    pub authors: Vec<PublicKey>,
    pub since: Option<u64>,
    pub until: Option<u64>,
    pub generic_tags: Vec<Tag>,
    pub limit: Option<usize>,
}

/// What indexing an event came to.
#[derive(Debug, Clone, PartialEq, Eq)]
pub struct EventIndexResult {
    /// Whether the event was admitted and should be stored.
    pub to_store: bool,
    /// Identifiers of the events that the new one replaces.
    pub to_discard: Vec<EventId>,
}

impl Default for EventIndexResult {
    fn default() -> (r: Self)
        ensures
            !r.to_store,
            r.to_discard@.len() == 0,
    {
        EventIndexResult { to_store: false, to_discard: Vec::new() }
    }
}

/// The strings that a list of strings holds, without order or repetition.
pub open spec fn strings_of(values: Seq<String>) -> Set<Seq<char>> {
    Set::new(|s: Seq<char>| exists|j: int| 0 <= j < values.len() && (#[trigger] values[j])@ == s)
}

/// Whether some tag of the list has the letter.
pub open spec fn has_letter(tags: Seq<Tag>, letter: char) -> bool {
    exists|i: int| 0 <= i < tags.len() && (#[trigger] tags[i]).letter == letter
}

/// All the values that the tags of the list carry under the letter.
pub open spec fn letter_values(tags: Seq<Tag>, letter: char) -> Set<Seq<char>> {
    Set::new(
        |s: Seq<char>|
            exists|i: int|
                0 <= i < tags.len() && (#[trigger] tags[i]).letter == letter && strings_of(
                    tags[i].values@,
                ).contains(s),
    )
}

/// Appending a string adds it to the strings held.
pub proof fn lemma_strings_push(values: Seq<String>, x: String)
    ensures
        strings_of(values.push(x)) =~= strings_of(values).insert(x@),
{
    let more = values.push(x);
    assert forall|s: Seq<char>| strings_of(more).contains(s) <==> strings_of(values).insert(
        x@,
    ).contains(s) by {
        if strings_of(more).contains(s) {
            let j = choose|j: int| 0 <= j < more.len() && (#[trigger] more[j])@ == s;
            if j < values.len() {
                assert(values[j]@ == s);
            }
        }
        if strings_of(values).contains(s) {
            let j = choose|j: int| 0 <= j < values.len() && (#[trigger] values[j])@ == s;
            assert(more[j]@ == s);
        }
        if s == x@ {
            assert(more[values.len() as int]@ == s);
        }
    }
}

/// Taking one more tag into account adds the letters and values that this
/// tag carries.
pub proof fn lemma_tags_step(tags: Seq<Tag>, i: int, letter: char)
    requires
        0 <= i < tags.len(),
    ensures
        has_letter(tags.take(i + 1), letter) <==> has_letter(tags.take(i), letter)
            || tags[i].letter == letter,
        letter_values(tags.take(i + 1), letter) =~= letter_values(tags.take(i), letter).union(
            if tags[i].letter == letter {
                strings_of(tags[i].values@)
            } else {
                Set::empty()
            },
        ),
{
    let more = tags.take(i + 1);
    let less = tags.take(i);
    if has_letter(more, letter) {
        let j = choose|j: int| 0 <= j < more.len() && (#[trigger] more[j]).letter == letter;
        if j < i {
            assert(less[j].letter == letter);
        }
    }
    if has_letter(less, letter) {
        let j = choose|j: int| 0 <= j < less.len() && (#[trigger] less[j]).letter == letter;
        assert(more[j].letter == letter);
    }
    if tags[i].letter == letter {
        assert(more[i].letter == letter);
    }
    let last = if tags[i].letter == letter {
        strings_of(tags[i].values@)
    } else {
        Set::empty()
    };
    assert forall|s: Seq<char>| letter_values(more, letter).contains(s) <==> letter_values(
        less,
        letter,
    ).union(last).contains(s) by {
        if letter_values(more, letter).contains(s) {
            let j = choose|j: int|
                0 <= j < more.len() && (#[trigger] more[j]).letter == letter && strings_of(
                    more[j].values@,
                ).contains(s);
            if j < i {
                assert(less[j].letter == letter && strings_of(less[j].values@).contains(s));
            }
        }
        if letter_values(less, letter).contains(s) {
            let j = choose|j: int|
                0 <= j < less.len() && (#[trigger] less[j]).letter == letter && strings_of(
                    less[j].values@,
                ).contains(s);
            assert(more[j].letter == letter && strings_of(more[j].values@).contains(s));
        }
        if last.contains(s) {
            assert(more[i].letter == letter && strings_of(more[i].values@).contains(s));
        }
    }
}

/// All the values that the tags carry under the letter, gathered into one
/// list.
pub fn collect_values(tags: &Vec<Tag>, letter: char) -> (r: Vec<String>)
    ensures
        strings_of(r@) == letter_values(tags@, letter),
{
    let mut out: Vec<String> = Vec::new();
    let mut i: usize = 0;
    proof {
        assert(strings_of(out@) =~= letter_values(tags@.take(0), letter));
    }
    while i < tags.len()
        invariant
            i <= tags.len(),
            strings_of(out@) =~= letter_values(tags@.take(i as int), letter),
        decreases tags.len() - i,
    {
        proof {
            lemma_tags_step(tags@, i as int, letter);
        }
        if tags[i].letter == letter {
            let values = &tags[i].values;
            let mut j: usize = 0;
            proof {
                assert(strings_of(values@.take(0)) =~= Set::<Seq<char>>::empty());
            }
            while j < values.len()
                invariant
                    j <= values.len(),
                    strings_of(out@) =~= letter_values(tags@.take(i as int), letter).union(
                        strings_of(values@.take(j as int)),
                    ),
                decreases values.len() - j,
            {
                proof {
                    lemma_strings_push(out@, values@[j as int]);
                    lemma_strings_push(values@.take(j as int), values@[j as int]);
                    assert(values@.take(j + 1) =~= values@.take(j as int).push(values@[j as int]));
                }
                let copy = values[j].clone();
                assert(copy@ == values@[j as int]@);
                proof {
                    lemma_strings_push(out@, copy);
                }
                out.push(copy);
                j = j + 1;
            }
            proof {
                assert(values@.take(values.len() as int) =~= values@);
            }
        }
        i = i + 1;
    }
    proof {
        assert(tags@.take(tags.len() as int) =~= tags@);
    }
    out
}

/// Whether events of this kind are never meant to be kept.
pub open spec fn ephemeral_kind(kind: u16) -> bool {
    20_000 <= kind < 30_000
}

/// Asks the `nostr` crate whether a kind is ephemeral: builds the kind
/// with `nostr::Kind::from_u16` and calls `nostr::Kind::is_ephemeral` on
/// it. The contract is taken on trust: it restates the range that the
/// method tests, from 20000 up to, but not including, 30000.
#[verifier::external_body]
fn kind_is_ephemeral(kind: u16) -> (r: bool)
    ensures
        r == ephemeral_kind(kind),
{
    nostr::Kind::from_u16(kind).is_ephemeral()
}

impl Event {
    /// Whether the event is of a kind that is never meant to be kept.
    pub open spec fn ephemeral(&self) -> bool {
        ephemeral_kind(self.kind)
    }

    /// Whether the event is of a kind that is never meant to be kept.
    pub fn is_ephemeral(&self) -> (r: bool)
        ensures
            r == self.ephemeral(),
    {
        kind_is_ephemeral(self.kind)
    }

    /// Whether the event is past its declared expiry.
    pub fn is_expired(&self) -> (r: bool)
        ensures
            r == self.expired,
    {
        self.expired
    }

    /// Whether the engine takes the event in at all.
    pub open spec fn admissible(&self) -> bool {
        !self.expired && !self.ephemeral()
    }
}

impl Filter {
    /// The filter without any predicate.
    pub fn new() -> (r: Self)
        ensures
            r.ids@.len() == 0,
            r.kinds@.len() == 0,
            r.authors@.len() == 0,
            r.since.is_none(),
            r.until.is_none(),
            r.generic_tags@.len() == 0,
            r.limit.is_none(),
    {
        Filter {
            ids: Vec::new(),
            kinds: Vec::new(),
            authors: Vec::new(),
            since: None,
            until: None,
            generic_tags: Vec::new(),
            limit: None,
        }
    }
}

} // verus!
