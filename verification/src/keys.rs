//! Fixed-length byte keys (account addresses and transaction signatures) and a
//! map from such keys to values.
use vstd::prelude::*;

verus! {

/// A key of `N` bytes.
#[derive(Clone, Copy, Debug, PartialEq, Eq, Hash)]
pub struct Key<const N: usize> {
    pub bytes: [u8; N],
}

/// The address of an account.
pub type Pubkey = Key<32>;

/// The signature of a transaction.
pub type Signature = Key<64>;

impl<const N: usize> View for Key<N> {
    type V = Seq<u8>;

    open spec fn view(&self) -> Seq<u8> {
        self.bytes@
    }
}

impl Default for Key<32> {
    /// The all-zero address.
    fn default() -> (key: Self)
        ensures
            key@ == Seq::new(32, |i: int| 0u8),
    {
        let key = Key { bytes: [0u8; 32] };
        assert(key@ =~= Seq::new(32, |i: int| 0u8));
        key
    }
}

/// How one key relates to another in the order of their bytes.
#[derive(Clone, Copy, Debug, PartialEq, Eq)]
pub enum Relation {
    Before,
    Same,
    After,
}

/// `a` and `b` agree below position `i` and differ there.
pub open spec fn differ_first_at(a: Seq<u8>, b: Seq<u8>, i: int) -> bool {
    &&& 0 <= i < a.len()
    &&& i < b.len()
    &&& a[i] != b[i]
    &&& forall|j: int| 0 <= j < i ==> a[j] == b[j]
}

/// `a` comes before `b` in lexicographic order (for keys of one length).
pub open spec fn precedes(a: Seq<u8>, b: Seq<u8>) -> bool {
    exists|i: int| #[trigger] differ_first_at(a, b, i) && a[i] < b[i]
}

/// Lexicographic order is transitive.
proof fn lemma_precedes_transitive(a: Seq<u8>, b: Seq<u8>, c: Seq<u8>)
    requires
        a.len() == b.len() == c.len(),
        precedes(a, b),
        precedes(b, c),
    ensures
        precedes(a, c),
{
    let i = choose|i: int| #[trigger] differ_first_at(a, b, i) && a[i] < b[i];
    let j = choose|j: int| #[trigger] differ_first_at(b, c, j) && b[j] < c[j];
    let k = if i <= j {
        i
    } else {
        j
    };
    assert(differ_first_at(a, c, k) && a[k] < c[k]);
}

/// No key comes before itself.
proof fn lemma_precedes_irreflexive(a: Seq<u8>, b: Seq<u8>)
    requires
        precedes(a, b),
    ensures
        a != b,
{
}

impl<const N: usize> Key<N> {
    /// Compares two keys byte by byte.
    pub fn relation(&self, other: &Key<N>) -> (r: Relation)
        ensures
            r is Before <==> precedes(self@, other@),
            r is Same <==> self@ == other@,
            r is After <==> precedes(other@, self@),
    {
        let mut i: usize = 0;
        while i < N
            invariant
                i <= N,
                forall|j: int| 0 <= j < i ==> self@[j] == other@[j],
            decreases N - i,
        {
            let a = self.bytes[i];
            let b = other.bytes[i];
            if a != b {
                proof {
                    assert(differ_first_at(self@, other@, i as int));
                    assert(differ_first_at(other@, self@, i as int));
                    assert(forall|k: int| differ_first_at(self@, other@, k) ==> k == i);
                    assert(forall|k: int| differ_first_at(other@, self@, k) ==> k == i);
                }
                if a < b {
                    return Relation::Before;
                } else {
                    return Relation::After;
                }
            }
            i += 1;
        }
        assert(self@ =~= other@);
        Relation::Same
    }
}

/// The keys stand in strictly increasing order, so none occurs twice.
pub open spec fn increasing<const N: usize>(keys: Seq<Key<N>>) -> bool {
    forall|i: int, j: int|
        #![trigger keys[i], keys[j]]
        0 <= i < j < keys.len() ==> precedes(keys[i]@, keys[j]@)
}

/// A map from keys to values: the keys are kept in increasing order, the value
/// of the key at a position stands at the same position.
pub struct KeyMap<const N: usize, V> {
    keys: Vec<Key<N>>,
    values: Vec<V>,
}

/// A set of keys.
pub type KeySet<const N: usize> = KeyMap<N, ()>;

impl<const N: usize, V> View for KeyMap<N, V> {
    type V = Map<Seq<u8>, V>;

    closed spec fn view(&self) -> Map<Seq<u8>, V> {
        Map::new(
            |key: Seq<u8>| exists|i: int| 0 <= i < self.keys.len() && self.keys[i]@ == key,
            |key: Seq<u8>|
                self.values[choose|i: int| 0 <= i < self.keys.len() && self.keys[i]@ == key],
        )
    }
}

impl<const N: usize, V> KeyMap<N, V> {
    /// Keys and values match up, and the keys are in increasing order.
    pub closed spec fn wf(&self) -> bool {
        &&& self.keys.len() == self.values.len()
        &&& increasing(self.keys@)
    }

    /// A position holds the value that the map gives for its key.
    proof fn lemma_position(&self, i: int)
        requires
            self.wf(),
            0 <= i < self.keys.len(),
        ensures
            self@.contains_key(self.keys[i]@),
            self@[self.keys[i]@] == self.values[i],
    {
        let key = self.keys[i]@;
        let j = choose|j: int| 0 <= j < self.keys.len() && self.keys[j]@ == key;
        if i < j {
            lemma_precedes_irreflexive(self.keys[i]@, self.keys[j]@);
        } else if j < i {
            lemma_precedes_irreflexive(self.keys[j]@, self.keys[i]@);
        }
    }

    /// The map without entries.
    pub fn new() -> (map: Self)
        ensures
            map.wf(),
            map@ == Map::<Seq<u8>, V>::empty(),
    {
        let map = KeyMap { keys: Vec::new(), values: Vec::new() };
        assert(map@ =~= Map::<Seq<u8>, V>::empty());
        map
    }

    /// Finds a key by bisection: its position, or the position where it belongs.
    fn find(&self, key: &Key<N>) -> (r: Result<usize, usize>)
        requires
            self.wf(),
        ensures
            match r {
                Ok(i) => i < self.keys.len() && self.keys[i as int]@ == key@,
                Err(i) => {
                    &&& i <= self.keys.len()
                    &&& forall|j: int| 0 <= j < i ==> precedes(#[trigger] self.keys[j]@, key@)
                    &&& forall|j: int|
                        i <= j < self.keys.len() ==> precedes(key@, #[trigger] self.keys[j]@)
                },
            },
    {
        let mut low: usize = 0;
        let mut high: usize = self.keys.len();
        while low < high
            invariant
                self.wf(),
                low <= high <= self.keys.len(),
                forall|j: int| 0 <= j < low ==> precedes(#[trigger] self.keys[j]@, key@),
                forall|j: int|
                    high <= j < self.keys.len() ==> precedes(key@, #[trigger] self.keys[j]@),
            decreases high - low,
        {
            let mid: usize = low + (high - low) / 2;
            match self.keys[mid].relation(key) {
                Relation::Same => {
                    return Ok(mid);
                },
                Relation::Before => {
                    assert forall|j: int| 0 <= j < mid + 1 implies precedes(
                        #[trigger] self.keys[j]@,
                        key@,
                    ) by {
                        if j < mid {
                            lemma_precedes_transitive(
                                self.keys[j]@,
                                self.keys[mid as int]@,
                                key@,
                            );
                        }
                    }
                    low = mid + 1;
                },
                Relation::After => {
                    assert forall|j: int| mid <= j < self.keys.len() implies precedes(
                        key@,
                        #[trigger] self.keys[j]@,
                    ) by {
                        if mid < j {
                            lemma_precedes_transitive(
                                key@,
                                self.keys[mid as int]@,
                                self.keys[j]@,
                            );
                        }
                    }
                    high = mid;
                },
            }
        }
        Err(low)
    }

    /// A key that has no position is not in the map.
    proof fn lemma_absent(&self, key: Seq<u8>, i: int)
        requires
            self.wf(),
            0 <= i <= self.keys.len(),
            forall|j: int| 0 <= j < i ==> precedes(#[trigger] self.keys[j]@, key),
            forall|j: int| i <= j < self.keys.len() ==> precedes(key, #[trigger] self.keys[j]@),
        ensures
            !self@.contains_key(key),
    {
        if self@.contains_key(key) {
            let j = choose|j: int| 0 <= j < self.keys.len() && self.keys[j]@ == key;
            if j < i {
                lemma_precedes_irreflexive(self.keys[j]@, key);
            } else {
                lemma_precedes_irreflexive(key, self.keys[j]@);
            }
        }
    }

    /// The value of a key, if it has one.
    pub fn get(&self, key: &Key<N>) -> (r: Option<&V>)
        requires
            self.wf(),
        ensures
            match r {
                Some(value) => self@.contains_key(key@) && *value == self@[key@],
                None => !self@.contains_key(key@),
            },
    {
        match self.find(key) {
            Ok(i) => {
                proof {
                    self.lemma_position(i as int);
                }
                Some(&self.values[i])
            },
            Err(i) => {
                proof {
                    self.lemma_absent(key@, i as int);
                }
                None
            },
        }
    }

    /// Puts a new key with its value at the position where it belongs.
    fn insert_at(&mut self, i: usize, key: Key<N>, value: V)
        requires
            old(self).wf(),
            i <= old(self).keys.len(),
            forall|j: int| 0 <= j < i ==> precedes(#[trigger] old(self).keys[j]@, key@),
            forall|j: int|
                i <= j < old(self).keys.len() ==> precedes(key@, #[trigger] old(self).keys[j]@),
        ensures
            final(self).wf(),
            final(self)@ == old(self)@.insert(key@, value),
    {
        let ghost before = *self;
        self.keys.insert(i, key);
        self.values.insert(i, value);
        proof {
            let n = before.keys.len() as int;
            assert(increasing(self.keys@)) by {
                assert forall|a: int, b: int|
                    #![trigger self.keys@[a], self.keys@[b]]
                    0 <= a < b < self.keys@.len() implies precedes(
                    self.keys@[a]@,
                    self.keys@[b]@,
                ) by {
                    let a0 = if a < i { a } else { a - 1 };
                    let b0 = if b < i { b } else { b - 1 };
                    if a == i {
                        assert(self.keys@[b] == before.keys@[b0]);
                    } else if b == i {
                        assert(self.keys@[a] == before.keys@[a0]);
                    } else {
                        assert(self.keys@[a] == before.keys@[a0]);
                        assert(self.keys@[b] == before.keys@[b0]);
                    }
                }
            }
            let expected = before@.insert(key@, value);
            assert forall|k: Seq<u8>| self@.contains_key(k) == expected.contains_key(k) by {
                if self@.contains_key(k) {
                    let a = choose|a: int| 0 <= a < self.keys.len() && self.keys[a]@ == k;
                    if a < i {
                        before.lemma_position(a);
                    } else if a > i {
                        before.lemma_position(a - 1);
                    }
                }
                if before@.contains_key(k) {
                    let a = choose|a: int| 0 <= a < before.keys.len() && before.keys[a]@ == k;
                    if a < i {
                        assert(self.keys[a]@ == k);
                    } else {
                        assert(self.keys[a + 1]@ == k);
                    }
                }
                assert(self.keys[i as int]@ == key@);
            }
            assert forall|k: Seq<u8>| self@.contains_key(k) implies self@[k] == expected[k] by {
                let a = choose|a: int| 0 <= a < self.keys.len() && self.keys[a]@ == k;
                self.lemma_position(a);
                before.lemma_absent(key@, i as int);
                if a < i {
                    before.lemma_position(a);
                } else if a > i {
                    before.lemma_position(a - 1);
                }
            }
            assert(self@ =~= expected);
        }
    }

    /// Sets the value of a key, replacing the one it had.
    pub fn insert(&mut self, key: Key<N>, value: V)
        requires
            old(self).wf(),
        ensures
            final(self).wf(),
            final(self)@ == old(self)@.insert(key@, value),
    {
        match self.find(&key) {
            Ok(i) => {
                let ghost before = *self;
                self.values[i] = value;
                proof {
                    self.lemma_replaced(before, i as int, value);
                }
            },
            Err(i) => {
                self.insert_at(i, key, value);
            },
        }
    }

    /// Changing one value changes the map at that key alone.
    proof fn lemma_replaced(&self, before: Self, i: int, value: V)
        requires
            before.wf(),
            0 <= i < before.keys.len(),
            self.keys == before.keys,
            self.values@ == before.values@.update(i, value),
        ensures
            self.wf(),
            self@ == before@.insert(before.keys[i]@, value),
    {
        let key = before.keys[i]@;
        assert(self@.dom() =~= before@.insert(key, value).dom()) by {
            before.lemma_position(i);
        }
        assert forall|k: Seq<u8>| self@.contains_key(k) implies self@[k] == before@.insert(
            key,
            value,
        )[k] by {
            let a = choose|a: int| 0 <= a < self.keys.len() && self.keys[a]@ == k;
            self.lemma_position(a);
            before.lemma_position(a);
            if a < i {
                lemma_precedes_irreflexive(self.keys[a]@, self.keys[i]@);
            } else if i < a {
                lemma_precedes_irreflexive(self.keys[i]@, self.keys[a]@);
            }
        }
        assert(self@ =~= before@.insert(key, value));
    }

    /// The keys of the map, each once, in increasing order.
    pub fn keys(&self) -> (keys: &Vec<Key<N>>)
        requires
            self.wf(),
        ensures
            increasing(keys@),
            self@.dom() == keys@.map_values(|key: Key<N>| key@).to_set(),
    {
        proof {
            let views = self.keys@.map_values(|key: Key<N>| key@);
            assert forall|k: Seq<u8>| self@.dom().contains(k) == views.to_set().contains(k) by {
                if self@.dom().contains(k) {
                    let a = choose|a: int| 0 <= a < self.keys.len() && self.keys[a]@ == k;
                    assert(views[a] == k);
                }
                if views.contains(k) {
                    let a = choose|a: int| 0 <= a < views.len() && views[a] == k;
                    assert(self.keys[a]@ == k);
                }
            }
            assert(self@.dom() =~= views.to_set());
        }
        &self.keys
    }
}

/// The lists that a map of lists holds, as sequences.
pub open spec fn lists<T>(map: Map<Seq<u8>, Vec<T>>) -> Map<Seq<u8>, Seq<T>> {
    map.map_values(|list: Vec<T>| list@)
}

/// The list that a map of sequences holds for a key: empty where it has none.
pub open spec fn list_of<T>(map: Map<Seq<u8>, Seq<T>>, key: Seq<u8>) -> Seq<T> {
    if map.contains_key(key) {
        map[key]
    } else {
        Seq::empty()
    }
}

impl<const N: usize, T> KeyMap<N, Vec<T>> {
    /// Appends an item to the list of a key, which is empty before its first item.
    pub fn append(&mut self, key: Key<N>, item: T)
        requires
            old(self).wf(),
        ensures
            final(self).wf(),
            lists(final(self)@) == lists(old(self)@).insert(
                key@,
                list_of(lists(old(self)@), key@).push(item),
            ),
            final(self)@.contains_key(key@),
            old(self)@.contains_key(key@) ==> final(self)@[key@]@ == old(self)@[key@]@.push(item),
            !old(self)@.contains_key(key@) ==> final(self)@[key@]@ == seq![item],
            forall|other: Seq<u8>|
                other != key@ ==> (#[trigger] final(self)@.contains_key(other) <==> old(self)@.contains_key(other)),
            forall|other: Seq<u8>|
                other != key@ && #[trigger] final(self)@.contains_key(other) ==> final(self)@[other]@ == old(self)@[other]@,
    {
        let ghost before = *self;
        match self.find(&key) {
            Ok(i) => {
                self.values[i].push(item);
                proof {
                    before.lemma_position(i as int);
                    self.lemma_replaced(before, i as int, self.values@[i as int]);
                    assert(lists(self@) =~= lists(before@).insert(
                        key@,
                        list_of(lists(before@), key@).push(item),
                    ));
                }
            },
            Err(i) => {
                proof {
                    before.lemma_absent(key@, i as int);
                }
                let mut list: Vec<T> = Vec::new();
                list.push(item);
                self.insert_at(i, key, list);
                assert(lists(self@) =~= lists(before@).insert(
                    key@,
                    list_of(lists(before@), key@).push(item),
                ));
            },
        }
    }
}

} // verus!
