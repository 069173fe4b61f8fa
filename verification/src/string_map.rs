use crate::text;
use vstd::prelude::*;

verus! {

/// A map from texts to values that keeps its keys in the order of texts.
#[derive(Debug)]
pub struct StringMap<V> {
    entries: Vec<(String, V)>,
}

/// Whether the entry at place `i` holds `key`.
spec fn is_at<V>(entries: Seq<(String, V)>, i: int, key: Seq<char>) -> bool {
    0 <= i < entries.len() && entries[i].0@ == key
}

spec fn in_order<V>(entries: Seq<(String, V)>) -> bool {
    forall|i: int, j: int|
        0 <= i < j < entries.len() ==> text::text_less(
            (#[trigger] entries[i]).0@,
            (#[trigger] entries[j]).0@,
        )
}

impl<V> View for StringMap<V> {
    type V = Map<Seq<char>, V>;

    closed spec fn view(&self) -> Map<Seq<char>, V> {
        let entries = self.entries@;
        Map::new(
            |key: Seq<char>| exists|i: int| is_at(entries, i, key),
            |key: Seq<char>| entries[choose|i: int| is_at(entries, i, key)].1,
        )
    }
}

impl<V> StringMap<V> {
    #[verifier::type_invariant]
    spec fn ordered(self) -> bool {
        in_order(self.entries@)
    }

    /// The keys in ascending order.
    pub closed spec fn keys(&self) -> Seq<Seq<char>> {
        Seq::new(self.entries@.len(), |i: int| self.entries@[i].0@)
    }

    proof fn lemma_entry(&self, i: int)
        requires
            self.ordered(),
            0 <= i < self.entries@.len(),
        ensures
            self@.contains_key(self.entries@[i].0@),
            self@[self.entries@[i].0@] == self.entries@[i].1,
    {
        let key = self.entries@[i].0@;
        assert(is_at(self.entries@, i, key));
        let j = choose|j: int| is_at(self.entries@, j, key);
        if i != j {
            text::lemma_text_less_strict(key);
        }
    }

    /// An empty map.
    pub fn new() -> (r: Self)
        ensures
            r@ == Map::<Seq<char>, V>::empty(),
            r.keys() == Seq::<Seq<char>>::empty(),
    {
        let r = StringMap { entries: Vec::new() };
        assert(r@ =~= Map::<Seq<char>, V>::empty());
        r
    }

    /// How many entries the map has. The keys that it lists are those that have a value, each
    /// once and in ascending order.
    pub fn len(&self) -> (r: usize)
        ensures
            r == self.keys().len(),
            r == self@.len(),
            self@.dom().finite(),
            forall|k: Seq<char>| #[trigger] self@.contains_key(k) <==> self.keys().contains(k),
            forall|i: int, j: int|
                0 <= i < j < self.keys().len() ==> text::text_less(
                    #[trigger] self.keys()[i],
                    #[trigger] self.keys()[j],
                ),
    {
        proof {
            use_type_invariant(self);
            assert forall|k: Seq<char>| #[trigger]
                self@.contains_key(k) <==> self.keys().contains(k) by {
                if self@.contains_key(k) {
                    let i = choose|i: int| is_at(self.entries@, i, k);
                    assert(self.keys()[i] == k);
                }
                if self.keys().contains(k) {
                    let i = choose|i: int| 0 <= i < self.keys().len() && self.keys()[i] == k;
                    assert(is_at(self.entries@, i, k));
                }
            }
            assert forall|i: int, j: int| 0 <= i < j < self.keys().len() implies text::text_less(
                #[trigger] self.keys()[i],
                #[trigger] self.keys()[j],
            ) by {
                let x = self.entries@[i];
                let y = self.entries@[j];
                assert(in_order(self.entries@));
            }
            let keys = self.keys();
            assert forall|i: int, j: int| 0 <= i < keys.len() && 0 <= j < keys.len() && i
                != j implies keys[i] != keys[j] by {
                text::lemma_text_less_strict(keys[i]);
                if i < j {
                    assert(text::text_less(self.keys()[i], self.keys()[j]));
                } else {
                    assert(text::text_less(self.keys()[j], self.keys()[i]));
                }
            }
            keys.unique_seq_to_set();
            assert(self@.dom() =~= keys.to_set());
            vstd::seq_lib::seq_to_set_is_finite(keys);
        }
        self.entries.len()
    }

    /// The key at place `i` in ascending order.
    pub fn key_at(&self, i: usize) -> (r: &String)
        requires
            i < self.keys().len(),
        ensures
            r@ == self.keys()[i as int],
    {
        &self.entries[i].0
    }

    /// Where `key` stands among the entries, or where it would stand.
    fn find(&self, key: &str) -> (r: Result<usize, usize>)
        ensures
            match r {
                Ok(i) => i < self.entries@.len() && self.entries@[i as int].0@ == key@,
                Err(i) => {
                    &&& i <= self.entries@.len()
                    &&& forall|j: int|
                        0 <= j < i ==> text::text_less((#[trigger] self.entries@[j]).0@, key@)
                    &&& forall|j: int|
                        i <= j < self.entries@.len() ==> text::text_less(
                            key@,
                            (#[trigger] self.entries@[j]).0@,
                        )
                },
            },
    {
        proof {
            use_type_invariant(self);
        }
        let mut low: usize = 0;
        let mut high: usize = self.entries.len();
        while low < high
            invariant
                low <= high <= self.entries@.len(),
                in_order(self.entries@),
                forall|j: int|
                    0 <= j < low ==> text::text_less((#[trigger] self.entries@[j]).0@, key@),
                forall|j: int|
                    high <= j < self.entries@.len() ==> text::text_less(
                        key@,
                        (#[trigger] self.entries@[j]).0@,
                    ),
            decreases high - low,
        {
            let mid = low + (high - low) / 2;
            let ghost here = self.entries@[mid as int].0@;
            match text::relate(self.entries[mid].0.as_str(), key) {
                text::Relation::Equal => {
                    return Ok(mid);
                },
                text::Relation::Less => {
                    proof {
                        assert forall|j: int| 0 <= j <= mid implies text::text_less(
                            (#[trigger] self.entries@[j]).0@,
                            key@,
                        ) by {
                            if j < mid {
                                text::lemma_text_less_chain(self.entries@[j].0@, here, key@);
                            }
                        }
                    }
                    low = mid + 1;
                },
                text::Relation::Greater => {
                    proof {
                        assert forall|j: int| mid <= j < self.entries@.len() implies text::text_less(
                            key@,
                            (#[trigger] self.entries@[j]).0@,
                        ) by {
                            if j > mid {
                                text::lemma_text_less_chain(key@, here, self.entries@[j].0@);
                            }
                        }
                    }
                    high = mid;
                },
            }
        }
        Err(low)
    }

    /// The value of `key`.
    pub fn get(&self, key: &str) -> (r: Option<&V>)
        ensures
            match r {
                Some(v) => self@.contains_key(key@) && *v == self@[key@],
                None => !self@.contains_key(key@),
            },
    {
        proof {
            use_type_invariant(self);
        }
        match self.find(key) {
            Ok(i) => {
                proof {
                    self.lemma_entry(i as int);
                }
                Some(&self.entries[i].1)
            },
            Err(i) => {
                proof {
                    if self@.contains_key(key@) {
                        let j = choose|j: int| is_at(self.entries@, j, key@);
                        text::lemma_text_less_strict(key@);
                    }
                }
                None
            },
        }
    }

    /// Whether `key` has a value.
    pub fn contains_key(&self, key: &str) -> (r: bool)
        ensures
            r == self@.contains_key(key@),
    {
        self.get(key).is_some()
    }

    /// Gives `key` the value `value`.
    pub fn insert(&mut self, key: String, value: V)
        ensures
            final(self)@ == old(self)@.insert(key@, value),
    {
        proof {
            use_type_invariant(&*self);
        }
        let ghost before = *self;
        let place = self.find(key.as_str());
        let mut entries: Vec<(String, V)> = Vec::new();
        std::mem::swap(&mut entries, &mut self.entries);
        let ghost old_entries = entries@;
        match place {
            Ok(i) => {
                entries.set(i, (key, value));
                proof {
                    assert(entries@ =~= old_entries.update(i as int, (key, value)));
                    assert forall|a: int, b: int|
                        0 <= a < b < entries@.len() implies text::text_less(
                        (#[trigger] entries@[a]).0@,
                        (#[trigger] entries@[b]).0@,
                    ) by {
                        let x = old_entries[a];
                        let y = old_entries[b];
                        assert(x.0@ == entries@[a].0@);
                        assert(y.0@ == entries@[b].0@);
                    }
                }
            },
            Err(i) => {
                entries.insert(i, (key, value));
                proof {
                    assert(entries@ =~= old_entries.insert(i as int, (key, value)));
                    assert forall|a: int, b: int|
                        0 <= a < b < entries@.len() implies text::text_less(
                        (#[trigger] entries@[a]).0@,
                        (#[trigger] entries@[b]).0@,
                    ) by {
                        let a0 = if a < i { a } else { a - 1 };
                        let b0 = if b < i { b } else { b - 1 };
                        if a != i {
                            assert(entries@[a] == old_entries[a0]);
                        }
                        if b != i {
                            assert(entries@[b] == old_entries[b0]);
                        }
                    }
                }
            },
        }
        let ghost new_entries = entries@;
        std::mem::swap(&mut entries, &mut self.entries);
        proof {
            let at = match place {
                Ok(i) => i,
                Err(i) => i,
            };
            assert(self.ordered());
            assert forall|k: Seq<char>| #[trigger]
                self@.contains_key(k) <==> before@.insert(key@, value).contains_key(k) by {
                lemma_keys_after(old_entries, new_entries, at as int, place is Ok, k);
                if k == key@ {
                    assert(is_at(new_entries, at as int, k));
                }
            }
            assert forall|k: Seq<char>| #[trigger] self@.contains_key(k) implies self@[k]
                == before@.insert(key@, value)[k] by {
                let j = choose|j: int| is_at(new_entries, j, k);
                self.lemma_entry(j);
                if k == key@ {
                    self.lemma_entry(at as int);
                } else {
                    let j0 = if place is Ok || j < at {
                        j
                    } else {
                        j - 1
                    };
                    assert(old_entries[j0] == new_entries[j]);
                    before.lemma_entry(j0);
                }
            }
            assert(self@ =~= before@.insert(key@, value));
        }
    }

    /// Takes `key` out, and gives back the value that it had.
    pub fn remove(&mut self, key: &str) -> (r: Option<V>)
        ensures
            final(self)@ == old(self)@.remove(key@),
            match r {
                Some(v) => old(self)@.contains_key(key@) && v == old(self)@[key@],
                None => !old(self)@.contains_key(key@),
            },
    {
        proof {
            use_type_invariant(&*self);
        }
        let ghost before = *self;
        match self.find(key) {
            Ok(i) => {
                let mut entries: Vec<(String, V)> = Vec::new();
                std::mem::swap(&mut entries, &mut self.entries);
                let ghost old_entries = entries@;
                let (_, value) = entries.remove(i);
                let ghost new_entries = entries@;
                proof {
                    assert(new_entries =~= old_entries.remove(i as int));
                    assert forall|a: int, b: int|
                        0 <= a < b < new_entries.len() implies text::text_less(
                        (#[trigger] new_entries[a]).0@,
                        (#[trigger] new_entries[b]).0@,
                    ) by {
                        let a0 = if a < i { a } else { a + 1 };
                        let b0 = if b < i { b } else { b + 1 };
                        assert(new_entries[a] == old_entries[a0]);
                        assert(new_entries[b] == old_entries[b0]);
                    }
                }
                std::mem::swap(&mut entries, &mut self.entries);
                proof {
                    before.lemma_entry(i as int);
                    assert(self.ordered());
                    assert forall|k: Seq<char>| #[trigger]
                        self@.contains_key(k) <==> before@.remove(key@).contains_key(k) by {
                        if self@.contains_key(k) {
                            let j = choose|j: int| is_at(new_entries, j, k);
                            let j0 = if j < i { j } else { j + 1 };
                            assert(is_at(old_entries, j0, k));
                            if k == key@ {
                                text::lemma_text_less_strict(k);
                                assert(text::text_less(old_entries[j0].0@, old_entries[i as int].0@)
                                    || text::text_less(
                                    old_entries[i as int].0@,
                                    old_entries[j0].0@,
                                ));
                            }
                        }
                        if before@.remove(key@).contains_key(k) {
                            let j0 = choose|j: int| is_at(old_entries, j, k);
                            let j = if j0 < i { j0 } else { j0 - 1 };
                            assert(is_at(new_entries, j, k));
                        }
                    }
                    assert forall|k: Seq<char>| #[trigger] self@.contains_key(k) implies self@[k]
                        == before@.remove(key@)[k] by {
                        let j = choose|j: int| is_at(new_entries, j, k);
                        let j0 = if j < i { j } else { j + 1 };
                        assert(old_entries[j0] == new_entries[j]);
                        self.lemma_entry(j);
                        before.lemma_entry(j0);
                        assert(before@.remove(key@).contains_key(k));
                    }
                    assert(self@ =~= before@.remove(key@));
                }
                Some(value)
            },
            Err(i) => {
                proof {
                    if self@.contains_key(key@) {
                        let j = choose|j: int| is_at(self.entries@, j, key@);
                        text::lemma_text_less_strict(key@);
                    }
                    assert(self@ =~= before@.remove(key@));
                }
                None
            },
        }
    }
}

proof fn lemma_keys_after<V>(
    old_entries: Seq<(String, V)>,
    new_entries: Seq<(String, V)>,
    at: int,
    replaced: bool,
    k: Seq<char>,
)
    requires
        replaced ==> 0 <= at < old_entries.len() && new_entries == old_entries.update(
            at,
            new_entries[at],
        ) && old_entries[at].0@ == new_entries[at].0@,
        !replaced ==> 0 <= at <= old_entries.len() && new_entries == old_entries.insert(
            at,
            new_entries[at],
        ),
    ensures
        (exists|i: int| is_at(new_entries, i, k)) <==> (k == new_entries[at].0@ || exists|i: int|
            is_at(old_entries, i, k)),
{
    if exists|i: int| is_at(new_entries, i, k) {
        let i = choose|i: int| is_at(new_entries, i, k);
        if i != at {
            let i0 = if replaced || i < at { i } else { i - 1 };
            assert(is_at(old_entries, i0, k));
        }
    }
    if k == new_entries[at].0@ {
        assert(is_at(new_entries, at, k));
    } else if exists|i: int| is_at(old_entries, i, k) {
        let i0 = choose|i: int| is_at(old_entries, i, k);
        let i = if replaced || i0 < at { i0 } else { i0 + 1 };
        assert(is_at(new_entries, i, k));
    }
}

} // verus!
