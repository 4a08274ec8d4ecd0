//! A map from text to values whose keys are kept in the order of their code
//! points, so that a walk over it does not depend on how it was filled.

use crate::text::{is_before, text_before};
use vstd::prelude::*;

verus! {

#[derive(Debug)]
pub struct TextMap<V> {
    entries: Vec<(String, V)>,
}

/// Each key comes before the next.
pub open spec fn keys_ordered(keys: Seq<Seq<char>>) -> bool {
    forall|i: int, j: int| 0 <= i < j < keys.len() ==> #[trigger] text_before(keys[i], keys[j])
}

impl<V> TextMap<V> {
    #[verifier::type_invariant]
    spec fn ordered(self) -> bool {
        keys_ordered(self.keys())
    }

    /// The keys in order.
    pub closed spec fn keys(self) -> Seq<Seq<char>> {
        self.entries@.map_values(|entry: (String, V)| entry.0@)
    }

    /// The values in the order of their keys.
    pub closed spec fn values(self) -> Seq<V> {
        self.entries@.map_values(|entry: (String, V)| entry.1)
    }

    /// How the ordered keys and values make up the map.
    pub open spec fn listed(self) -> bool {
        &&& keys_ordered(self.keys())
        &&& self.keys().no_duplicates()
        &&& self.values().len() == self.keys().len()
        &&& self@.dom().finite()
        &&& self@.dom() =~= self.keys().to_set()
        &&& forall|i: int| 0 <= i < self.keys().len() ==> self@[#[trigger] self.keys()[i]] == self.values()[i]
    }
}

impl<V> View for TextMap<V> {
    type V = Map<Seq<char>, V>;

    closed spec fn view(&self) -> Map<Seq<char>, V> {
        Map::new(
            |key: Seq<char>| self.keys().contains(key),
            |key: Seq<char>| self.values()[self.keys().index_of(key)],
        )
    }
}

pub(crate) proof fn lemma_ordered_distinct(keys: Seq<Seq<char>>)
    requires
        keys_ordered(keys),
    ensures
        keys.no_duplicates(),
{
    assert forall|i: int, j: int| 0 <= i < keys.len() && 0 <= j < keys.len() && i != j implies keys[i]
        != keys[j] by {
        crate::text::lemma_text_before_total(keys[i], keys[j]);
        if i < j {
            assert(text_before(keys[i], keys[j]));
        } else {
            assert(text_before(keys[j], keys[i]));
        }
    }
}

proof fn lemma_listed<V>(map: TextMap<V>)
    requires
        keys_ordered(map.keys()),
    ensures
        map.listed(),
{
    lemma_ordered_distinct(map.keys());
    assert(map@.dom() =~= map.keys().to_set());
    assert forall|i: int| 0 <= i < map.keys().len() implies map@[#[trigger] map.keys()[i]] == map.values()[i] by {
        let key = map.keys()[i];
        assert(map.keys().contains(key));
        assert(map.keys().index_of(key) == i);
    }
}

impl<V> TextMap<V> {
    pub fn new() -> (map: Self)
        ensures
            map@ == Map::<Seq<char>, V>::empty(),
            map.keys() == Seq::<Seq<char>>::empty(),
    {
        let map = TextMap { entries: Vec::new() };
        proof {
            assert(map.keys() =~= Seq::empty());
            assert(map@ =~= Map::empty());
        }
        map
    }

    pub fn len(&self) -> (len: usize)
        ensures
            len == self.keys().len(),
            self.listed(),
    {
        proof {
            use_type_invariant(self);
            lemma_listed(*self);
        }
        self.entries.len()
    }

    /// The key at a place of the order.
    pub fn key_at(&self, at: usize) -> (key: &String)
        requires
            at < self.keys().len(),
        ensures
            key@ == self.keys()[at as int],
            self.listed(),
    {
        proof {
            use_type_invariant(self);
            lemma_listed(*self);
        }
        &self.entries[at].0
    }

    /// The value at a place of the order.
    pub fn value_at(&self, at: usize) -> (value: &V)
        requires
            at < self.keys().len(),
        ensures
            *value == self.values()[at as int],
            *value == self@[self.keys()[at as int]],
            self.listed(),
    {
        proof {
            use_type_invariant(self);
            lemma_listed(*self);
            assert(self@[self.keys()[at as int]] == self.values()[at as int]);
        }
        &self.entries[at].1
    }

    /// The place at which `key` stands or would stand.
    fn place(&self, key: &str) -> (place: usize)
        ensures
            place <= self.keys().len(),
            forall|i: int| 0 <= i < place ==> #[trigger] text_before(self.keys()[i], key@),
            forall|i: int| place <= i < self.keys().len() ==> !#[trigger] text_before(self.keys()[i], key@),
    {
        proof {
            use_type_invariant(self);
        }
        let mut low: usize = 0;
        let mut high: usize = self.entries.len();
        while low < high
            invariant
                low <= high <= self.entries@.len(),
                keys_ordered(self.keys()),
                forall|i: int| 0 <= i < low ==> #[trigger] text_before(self.keys()[i], key@),
                forall|i: int|
                    high <= i < self.keys().len() ==> !#[trigger] text_before(self.keys()[i], key@),
            decreases high - low,
        {
            let middle: usize = low + (high - low) / 2;
            proof {
                assert(self.keys()[middle as int] == self.entries@[middle as int].0@);
            }
            if is_before(self.entries[middle].0.as_str(), key) {
                proof {
                    assert forall|i: int| 0 <= i < middle + 1 implies #[trigger] text_before(
                        self.keys()[i],
                        key@,
                    ) by {
                        if i < middle {
                            assert(text_before(self.keys()[i], self.keys()[middle as int]));
                            crate::text::lemma_text_before_transitive(
                                self.keys()[i],
                                self.keys()[middle as int],
                                key@,
                            );
                        }
                    }
                }
                low = middle + 1;
            } else {
                proof {
                    assert forall|i: int| middle <= i < self.keys().len() implies !#[trigger] text_before(
                        self.keys()[i],
                        key@,
                    ) by {
                        if i > middle && text_before(self.keys()[i], key@) {
                            assert(text_before(self.keys()[middle as int], self.keys()[i]));
                            crate::text::lemma_text_before_transitive(
                                self.keys()[middle as int],
                                self.keys()[i],
                                key@,
                            );
                        }
                    }
                }
                high = middle;
            }
        }
        low
    }

    /// The place of `key`, where it is a key.
    pub fn find(&self, key: &str) -> (place: Option<usize>)
        ensures
            self.listed(),
            match place {
                Some(place) => place < self.keys().len() && self.keys()[place as int] == key@ && self@.dom().contains(
                    key@,
                ),
                None => !self@.dom().contains(key@),
            },
    {
        proof {
            use_type_invariant(self);
            lemma_listed(*self);
        }
        let place: usize = self.place(key);
        if place < self.entries.len() {
            proof {
                assert(self.keys()[place as int] == self.entries@[place as int].0@);
            }
            if self.entries[place].0.as_str().eq(key) {
                assert(self.keys().contains(key@));
                return Some(place);
            }
        }
        proof {
            if self.keys().contains(key@) {
                let i = self.keys().index_of(key@);
                crate::text::lemma_text_before_total(key@, key@);
                if i < place {
                    assert(text_before(self.keys()[i], key@));
                } else if place < i {
                    assert(text_before(self.keys()[place as int], self.keys()[i]));
                }
            }
        }
        None
    }

    pub fn contains_key(&self, key: &str) -> (found: bool)
        ensures
            found == self@.dom().contains(key@),
    {
        match self.find(key) {
            Some(_) => true,
            None => false,
        }
    }

    pub fn get(&self, key: &str) -> (value: Option<&V>)
        ensures
            match value {
                Some(value) => self@.dom().contains(key@) && *value == self@[key@],
                None => !self@.dom().contains(key@),
            },
    {
        match self.find(key) {
            Some(place) => Some(self.value_at(place)),
            None => None,
        }
    }

    /// Gives `key` a value, in place of the one it had.
    pub fn insert(&mut self, key: String, value: V)
        ensures
            final(self)@ == old(self)@.insert(key@, value),
    {
        proof {
            use_type_invariant(&*self);
            lemma_listed(*self);
        }
        let ghost before = *self;
        let place: usize = self.place(key.as_str());
        let found: bool = self.contains_key(key.as_str());
        let mut entries: Vec<(String, V)> = Vec::new();
        std::mem::swap(&mut entries, &mut self.entries);
        let ghost old_entries = entries@;
        if found {
            proof {
                let i = before.keys().index_of(key@);
                if i < place {
                    assert(text_before(before.keys()[i], key@));
                    crate::text::lemma_text_before_total(key@, key@);
                } else if place < i {
                    assert(text_before(before.keys()[place as int], before.keys()[i]));
                }
                assert(i == place);
            }
            let ghost new_key = key@;
            entries.set(place, (key, value));
            proof {
                assert(entries@.map_values(|entry: (String, V)| entry.0@) =~= before.keys());
            }
            self.entries = entries;
            proof {
                lemma_listed(*self);
                assert(self@.dom() =~= before@.dom().insert(new_key));
                assert forall|other: Seq<char>| self@.dom().contains(other) implies self@[other]
                    == before@.insert(new_key, value)[other] by {
                    let k = self.keys().index_of(other);
                    assert(self.keys()[k] == other);
                    assert(before.keys()[k] == other);
                }
                assert(self@ =~= before@.insert(new_key, value));
            }
        } else {
            let ghost new_key = key@;
            entries.insert(place, (key, value));
            proof {
                let keys = entries@.map_values(|entry: (String, V)| entry.0@);
                assert(keys =~= before.keys().insert(place as int, new_key));
                assert forall|i: int, j: int| 0 <= i < j < keys.len() implies #[trigger] text_before(
                    keys[i],
                    keys[j],
                ) by {
                    let a = if i < place { i } else { i - 1 };
                    let b = if j < place { j } else { j - 1 };
                    if i == place {
                        crate::text::lemma_text_before_total(new_key, before.keys()[b]);
                        assert(!text_before(before.keys()[b], new_key));
                        assert(before.keys().contains(before.keys()[b]));
                    } else if j == place {
                        assert(text_before(before.keys()[a], new_key));
                    } else {
                        assert(text_before(before.keys()[a], before.keys()[b]));
                    }
                }
            }
            self.entries = entries;
            proof {
                lemma_listed(*self);
                assert forall|other: Seq<char>| self@.dom().contains(other) <==> before@.dom().insert(
                    new_key,
                ).contains(other) by {
                    if self.keys().contains(other) {
                        let k = self.keys().index_of(other);
                        if k < place {
                            assert(before.keys()[k] == other);
                        } else if k > place {
                            assert(before.keys()[k - 1] == other);
                        }
                    }
                    if before.keys().contains(other) {
                        let k = before.keys().index_of(other);
                        if k < place {
                            assert(self.keys()[k] == other);
                        } else {
                            assert(self.keys()[k + 1] == other);
                        }
                    }
                    assert(self.keys()[place as int] == new_key);
                }
                assert forall|other: Seq<char>| self@.dom().contains(other) implies self@[other]
                    == before@.insert(new_key, value)[other] by {
                    let k = self.keys().index_of(other);
                    assert(self.keys()[k] == other);
                    if k < place {
                        assert(before.keys()[k] == other);
                    } else if k > place {
                        assert(before.keys()[k - 1] == other);
                    }
                }
                assert(self@ =~= before@.insert(new_key, value));
            }
        }
    }

    /// Takes a key out of the map.
    pub fn remove(&mut self, key: &str) -> (value: Option<V>)
        ensures
            final(self)@ == old(self)@.remove(key@),
            match value {
                Some(value) => old(self)@.dom().contains(key@) && value == old(self)@[key@],
                None => !old(self)@.dom().contains(key@),
            },
    {
        proof {
            use_type_invariant(&*self);
            lemma_listed(*self);
        }
        let ghost before = *self;
        let place: usize = match self.find(key) {
            Some(place) => place,
            None => {
                proof {
                    assert(self@ =~= self@.remove(key@));
                }
                return None;
            },
        };
        let mut entries: Vec<(String, V)> = Vec::new();
        std::mem::swap(&mut entries, &mut self.entries);
        let entry: (String, V) = entries.remove(place);
        proof {
            let keys = entries@.map_values(|entry: (String, V)| entry.0@);
            assert(keys =~= before.keys().remove(place as int));
            assert forall|i: int, j: int| 0 <= i < j < keys.len() implies #[trigger] text_before(
                keys[i],
                keys[j],
            ) by {
                let a = if i < place { i } else { i + 1 };
                let b = if j < place { j } else { j + 1 };
                assert(text_before(before.keys()[a], before.keys()[b]));
            }
        }
        self.entries = entries;
        proof {
            lemma_listed(*self);
            assert(before.values()[place as int] == entry.1);
            assert(before@[before.keys()[place as int]] == entry.1);
            assert forall|other: Seq<char>| self@.dom().contains(other) <==> before@.dom().remove(
                key@,
            ).contains(other) by {
                if self.keys().contains(other) {
                    let k = self.keys().index_of(other);
                    let b = if k < place { k } else { k + 1 };
                    assert(before.keys()[b] == other);
                    assert(before.keys().contains(other));
                }
                if before.keys().contains(other) && other != key@ {
                    let k = before.keys().index_of(other);
                    let a = if k < place { k } else { k - 1 };
                    assert(self.keys()[a] == other);
                }
            }
            assert forall|other: Seq<char>| self@.dom().contains(other) implies self@[other]
                == before@.remove(key@)[other] by {
                let k = self.keys().index_of(other);
                assert(self.keys()[k] == other);
                let b = if k < place { k } else { k + 1 };
                assert(before.keys()[b] == other);
            }
            assert(self@ =~= before@.remove(key@));
        }
        Some(entry.1)
    }
}

/// Values that can be copied and compared by what they stand for.
pub trait Plain: View + Sized {
    fn copy(&self) -> (copy: Self)
        ensures
            copy@ == self@,
    ;

    fn same(&self, other: &Self) -> (same: bool)
        ensures
            same == (self@ == other@),
    ;
}

impl Plain for String {
    fn copy(&self) -> (copy: String) {
        self.clone()
    }

    fn same(&self, other: &String) -> (same: bool) {
        self.as_str().eq(other.as_str())
    }
}

impl<V: Plain> TextMap<V> {
    /// What the values stand for, by key.
    pub open spec fn deep(self) -> Map<Seq<char>, V::V> {
        self@.map_values(|value: V| value@)
    }

    pub fn copy(&self) -> (copy: Self)
        ensures
            copy.deep() == self.deep(),
    {
        let mut copy: TextMap<V> = TextMap::new();
        let mut at: usize = 0;
        let len: usize = self.len();
        proof {
            assert(copy.deep() =~= self.deep().restrict(self.keys().take(0).to_set()));
        }
        while at < len
            invariant
                at <= len,
                len == self.keys().len(),
                self.listed(),
                copy.deep() == self.deep().restrict(self.keys().take(at as int).to_set()),
            decreases len - at,
        {
            let ghost before = copy.deep();
            copy.insert(self.key_at(at).clone(), self.value_at(at).copy());
            proof {
                let key = self.keys()[at as int];
                assert(self.keys().contains(key));
                lemma_take_to_set(self.keys(), at as int);
                assert(copy.deep() =~= before.insert(key, self.deep()[key]));
                assert(copy.deep() =~= self.deep().restrict(self.keys().take(at + 1).to_set()));
            }
            at = at + 1;
        }
        proof {
            assert(self.keys().take(len as int) =~= self.keys());
            assert(copy.deep() =~= self.deep());
        }
        copy
    }

    /// Takes over every value of another map.
    pub fn extend_from(&mut self, other: &Self)
        ensures
            final(self).deep() == old(self).deep().union_prefer_right(other.deep()),
    {
        let len: usize = other.len();
        let ghost start = self.deep();
        let mut at: usize = 0;
        proof {
            assert(other.keys().take(0).to_set() =~= Set::empty());
            assert(self.deep() =~= start.union_prefer_right(other.deep().restrict(Set::empty())));
        }
        while at < len
            invariant
                at <= len,
                len == other.keys().len(),
                other.listed(),
                self.deep() == start.union_prefer_right(
                    other.deep().restrict(other.keys().take(at as int).to_set()),
                ),
            decreases len - at,
        {
            let ghost before = self.deep();
            self.insert(other.key_at(at).clone(), other.value_at(at).copy());
            proof {
                let key = other.keys()[at as int];
                assert(other.keys().contains(key));
                lemma_take_to_set(other.keys(), at as int);
                assert(self.deep() =~= before.insert(key, other.deep()[key]));
                assert(self.deep() =~= start.union_prefer_right(
                    other.deep().restrict(other.keys().take(at + 1).to_set()),
                ));
            }
            at = at + 1;
        }
        proof {
            assert(other.keys().take(len as int) =~= other.keys());
            assert(other.deep().restrict(other.keys().to_set()) =~= other.deep());
        }
    }

    pub fn same(&self, other: &Self) -> (same: bool)
        ensures
            same == (self.deep() == other.deep()),
    {
        let len: usize = self.len();
        let other_len: usize = other.len();
        if len != other_len {
            proof {
                self.keys().unique_seq_to_set();
                other.keys().unique_seq_to_set();
                assert(self.deep().dom() =~= self@.dom());
                assert(other.deep().dom() =~= other@.dom());
            }
            return false;
        }
        let mut at: usize = 0;
        while at < len
            invariant
                at <= len,
                len == self.keys().len(),
                len == other.keys().len(),
                self.listed(),
                other.listed(),
                forall|key: Seq<char>| #[trigger]
                    self.keys().take(at as int).contains(key) ==> other.deep().dom().contains(key)
                        && self.deep()[key] == other.deep()[key],
            decreases len - at,
        {
            let ghost key = self.keys()[at as int];
            proof {
                assert(self.keys().contains(key));
                assert(self.deep().dom().contains(key));
            }
            match other.get(self.key_at(at).as_str()) {
                None => {
                    assert(!other.deep().dom().contains(key));
                    return false;
                },
                Some(value) => {
                    if !self.value_at(at).same(value) {
                        assert(self.deep()[key] != other.deep()[key]);
                        return false;
                    }
                },
            }
            proof {
                lemma_take_to_set(self.keys(), at as int);
                assert forall|known: Seq<char>| #[trigger]
                    self.keys().take(at + 1).contains(known) implies other.deep().dom().contains(known)
                    && self.deep()[known] == other.deep()[known] by {
                    assert(self.keys().take(at + 1).to_set().contains(known));
                    if known != key {
                        assert(self.keys().take(at as int).to_set().contains(known));
                        assert(self.keys().take(at as int).contains(known));
                    }
                }
            }
            at = at + 1;
        }
        proof {
            assert(self.keys().take(len as int) =~= self.keys());
            self.keys().unique_seq_to_set();
            other.keys().unique_seq_to_set();
            assert(self@.dom().subset_of(other@.dom())) by {
                assert forall|key: Seq<char>| self@.dom().contains(key) implies other@.dom().contains(key) by {
                    assert(self.keys().take(len as int).contains(key));
                }
            }
            vstd::set_lib::lemma_subset_equality(self@.dom(), other@.dom());
            assert forall|key: Seq<char>| self.deep().dom().contains(key) implies self.deep()[key]
                == other.deep()[key] by {
                assert(self.keys().take(len as int).contains(key));
            }
            assert(self.deep() =~= other.deep());
        }
        true
    }
}

proof fn lemma_take_to_set(keys: Seq<Seq<char>>, at: int)
    requires
        0 <= at < keys.len(),
    ensures
        keys.take(at + 1).to_set() == keys.take(at).to_set().insert(keys[at]),
{
    let done = keys.take(at);
    let next = keys.take(at + 1);
    assert(next =~= done.push(keys[at]));
    assert forall|other: Seq<char>| next.to_set().contains(other) <==> done.to_set().insert(keys[at]).contains(
        other,
    ) by {
        if next.contains(other) {
            let k = next.index_of(other);
            if k < at {
                assert(done[k] == other);
            }
        }
        if done.contains(other) {
            let k = done.index_of(other);
            assert(next[k] == other);
        }
        assert(next[at] == keys[at]);
    }
    assert(next.to_set() =~= done.to_set().insert(keys[at]));
}

/// The members of a set of texts in the order of their code points.
pub open spec fn ordered_keys(dom: Set<Seq<char>>) -> Seq<Seq<char>> {
    choose|keys: Seq<Seq<char>>| #[trigger] keys_ordered(keys) && keys.to_set() == dom
}

pub(crate) proof fn lemma_ordered_lists(a: Seq<Seq<char>>, b: Seq<Seq<char>>)
    requires
        keys_ordered(a),
        keys_ordered(b),
        a.to_set() == b.to_set(),
    ensures
        a == b,
    decreases a.len(),
{
    if a.len() == 0 {
        if b.len() > 0 {
            assert(b.to_set().contains(b[0]));
            assert(a.to_set().contains(b[0]));
        }
        assert(a =~= b);
    } else {
        lemma_ordered_distinct(a);
        lemma_ordered_distinct(b);
        let x = a.last();
        assert(a.to_set().contains(x));
        assert(b.to_set().contains(x));
        assert(b.contains(x));
        let y = b.last();
        assert(b.to_set().contains(y));
        assert(a.contains(y));
        let i = b.index_of(x);
        let j = a.index_of(y);
        crate::text::lemma_text_before_total(x, y);
        if i < b.len() - 1 {
            assert(text_before(b[i], b[b.len() - 1]));
        }
        if j < a.len() - 1 {
            assert(text_before(a[j], a[a.len() - 1]));
        }
        assert(x == y);
        let shorter_a = a.drop_last();
        let shorter_b = b.drop_last();
        assert forall|i: int, j: int| 0 <= i < j < shorter_a.len() implies #[trigger] text_before(
            shorter_a[i],
            shorter_a[j],
        ) by {
            assert(text_before(a[i], a[j]));
        }
        assert forall|i: int, j: int| 0 <= i < j < shorter_b.len() implies #[trigger] text_before(
            shorter_b[i],
            shorter_b[j],
        ) by {
            assert(text_before(b[i], b[j]));
        }
        assert(shorter_a.to_set() =~= a.to_set().remove(x)) by {
            lemma_drop_last_set(a);
        }
        assert(shorter_b.to_set() =~= b.to_set().remove(x)) by {
            lemma_drop_last_set(b);
        }
        lemma_ordered_lists(shorter_a, shorter_b);
        assert(a =~= shorter_a.push(x));
        assert(b =~= shorter_b.push(x));
    }
}

proof fn lemma_drop_last_set(keys: Seq<Seq<char>>)
    requires
        keys.len() > 0,
        keys.no_duplicates(),
    ensures
        keys.drop_last().to_set() == keys.to_set().remove(keys.last()),
{
    let shorter = keys.drop_last();
    assert forall|key: Seq<char>| shorter.to_set().contains(key) <==> keys.to_set().remove(
        keys.last(),
    ).contains(key) by {
        if shorter.contains(key) {
            let k = shorter.index_of(key);
            assert(keys[k] == key);
        }
        if keys.contains(key) && key != keys.last() {
            let k = keys.index_of(key);
            assert(shorter[k] == key);
        }
    }
    assert(shorter.to_set() =~= keys.to_set().remove(keys.last()));
}

/// A key put into an ordered list.
spec fn key_placed(list: Seq<Seq<char>>, key: Seq<char>) -> Seq<Seq<char>>
    decreases list.len(),
{
    if list.len() > 0 && text_before(key, list.last()) {
        key_placed(list.drop_last(), key).push(list.last())
    } else {
        list.push(key)
    }
}

proof fn lemma_key_placed(list: Seq<Seq<char>>, key: Seq<char>)
    requires
        keys_ordered(list),
        !list.contains(key),
    ensures
        keys_ordered(key_placed(list, key)),
        key_placed(list, key).to_set() == list.to_set().insert(key),
    decreases list.len(),
{
    let all = key_placed(list, key);
    if list.len() > 0 && text_before(key, list.last()) {
        let shorter = list.drop_last();
        let last = list.last();
        assert forall|i: int, j: int| 0 <= i < j < shorter.len() implies #[trigger] text_before(shorter[i], shorter[j]) by {
            assert(text_before(list[i], list[j]));
        }
        assert(!shorter.contains(key)) by {
            if shorter.contains(key) {
                assert(list[shorter.index_of(key)] == key);
            }
        }
        lemma_key_placed(shorter, key);
        let rest = key_placed(shorter, key);
        assert forall|i: int, j: int| 0 <= i < j < all.len() implies #[trigger] text_before(all[i], all[j]) by {
            if j < rest.len() {
                assert(text_before(rest[i], rest[j]));
            } else {
                assert(rest.to_set().contains(rest[i]));
                if rest[i] != key {
                    assert(shorter.to_set().contains(rest[i]));
                    let k = shorter.index_of(rest[i]);
                    assert(text_before(list[k], list[list.len() - 1]));
                }
            }
        }
        lemma_ordered_distinct(list);
        lemma_drop_last_set(list);
        assert forall|other: Seq<char>| all.to_set().contains(other) == list.to_set().insert(key).contains(other) by {
            if all.contains(other) {
                let k = all.index_of(other);
                if k < rest.len() {
                    assert(rest.to_set().contains(rest[k]));
                }
            }
            if rest.to_set().contains(other) {
                assert(all[rest.index_of(other)] == other);
            }
            assert(all[rest.len() as int] == last);
            assert(list.to_set().contains(last)) by {
                assert(list[list.len() - 1] == last);
            }
            assert(shorter.to_set().contains(other) == (list.to_set().contains(other) && other != last));
        }
        assert(all.to_set() =~= list.to_set().insert(key));
    } else {
        assert forall|i: int, j: int| 0 <= i < j < all.len() implies #[trigger] text_before(all[i], all[j]) by {
            if j == list.len() {
                let last = list.last();
                assert(list.contains(list[list.len() - 1]));
                crate::text::lemma_text_before_total(key, last);
                if i < list.len() - 1 {
                    assert(text_before(list[i], list[list.len() - 1]));
                    crate::text::lemma_text_before_transitive(list[i], last, key);
                }
            } else {
                assert(text_before(list[i], list[j]));
            }
        }
        assert forall|other: Seq<char>| all.to_set().contains(other) == list.to_set().insert(key).contains(other) by {
            if all.contains(other) {
                let k = all.index_of(other);
                if k < list.len() {
                    assert(list[k] == other);
                }
            }
            if list.contains(other) {
                assert(all[list.index_of(other)] == other);
            }
            assert(all[list.len() as int] == key);
        }
        assert(all.to_set() =~= list.to_set().insert(key));
    }
}

/// Every finite set of texts has an order.
pub proof fn lemma_ordered_keys(dom: Set<Seq<char>>)
    requires
        dom.finite(),
    ensures
        keys_ordered(ordered_keys(dom)),
        ordered_keys(dom).to_set() == dom,
    decreases dom.len(),
{
    if dom.len() == 0 {
        let none = Seq::<Seq<char>>::empty();
        assert(none.to_set() =~= dom) by {
            assert(dom =~= Set::empty());
        }
        assert(keys_ordered(none) && none.to_set() == dom);
    } else {
        let key = dom.choose();
        let rest = dom.remove(key);
        lemma_ordered_keys(rest);
        let list = ordered_keys(rest);
        assert(!list.contains(key)) by {
            assert(list.contains(key) == list.to_set().contains(key));
        }
        lemma_key_placed(list, key);
        let all = key_placed(list, key);
        assert(rest.insert(key) =~= dom);
        assert(keys_ordered(all) && all.to_set() == dom);
    }
}

/// The keys of a map are its domain in order.
pub proof fn lemma_listed_keys<V>(map: TextMap<V>)
    requires
        map.listed(),
    ensures
        map.keys() == ordered_keys(map@.dom()),
{
    assert(keys_ordered(map.keys()) && map.keys().to_set() == map@.dom());
    lemma_ordered_lists(map.keys(), ordered_keys(map@.dom()));
}

} // verus!
