//! The co-author store: its mathematical model, the contract every backing
//! store must meet, and an in-memory implementation.

use vstd::prelude::*;

verus! {

/// The mathematical content of a co-author store: the key/identity pairs,
/// in the store's own iteration order.
pub type Entries = Seq<(Seq<char>, Seq<char>)>;

/// A well-formed store never holds two entries with the same key.
pub open spec fn keys_distinct(es: Entries) -> bool {
    forall|i: int, j: int| 0 <= i < j < es.len() ==> es[i].0 != es[j].0
}

/// Whether some entry carries the key `k`.
pub open spec fn has_key(es: Entries, k: Seq<char>) -> bool {
    exists|i: int| 0 <= i < es.len() && es[i].0 == k
}

/// The position of an entry carrying `k`.
pub open spec fn key_index(es: Entries, k: Seq<char>) -> int {
    choose|i: int| 0 <= i < es.len() && es[i].0 == k
}

/// The identity stored under `k`.
pub open spec fn value_of(es: Entries, k: Seq<char>) -> Seq<char> {
    es[key_index(es, k)].1
}

/// The store after writing `v` under `k`: an existing entry is overwritten
/// in place, a fresh key is appended at the end.
pub open spec fn upsert(es: Entries, k: Seq<char>, v: Seq<char>) -> Entries {
    if has_key(es, k) {
        es.update(key_index(es, k), (k, v))
    } else {
        es.push((k, v))
    }
}

/// The store after deleting `k`; deleting an absent key changes nothing.
pub open spec fn remove_key(es: Entries, k: Seq<char>) -> Entries {
    if has_key(es, k) {
        es.remove(key_index(es, k))
    } else {
        es
    }
}

/// How `list` shows one entry: the key alone, or the key followed by a
/// space and the identity.
pub open spec fn render_entry(e: (Seq<char>, Seq<char>), full: bool) -> Seq<char> {
    if full {
        e.0 + " "@ + e.1
    } else {
        e.0
    }
}

/// In a well-formed store the entry at position `i` is the one and only
/// entry carrying its key.
pub proof fn lemma_key_at(es: Entries, k: Seq<char>, i: int)
    requires
        keys_distinct(es),
        0 <= i < es.len(),
        es[i].0 == k,
    ensures
        has_key(es, k),
        key_index(es, k) == i,
        value_of(es, k) == es[i].1,
{
    assert(has_key(es, k));
    let j = key_index(es, k);
    assert(0 <= j < es.len() && es[j].0 == k);
    if j < i {
        assert(es[j].0 != es[i].0);
        assert(false);
    }
    if i < j {
        assert(es[i].0 != es[j].0);
        assert(false);
    }
}

/// Writing `v` under `k` stores exactly `v` there, keeps every other key's
/// entry, keeps the keys distinct, and grows the store only on a fresh key.
pub proof fn lemma_upsert(es: Entries, k: Seq<char>, v: Seq<char>)
    requires
        keys_distinct(es),
    ensures
        keys_distinct(upsert(es, k, v)),
        has_key(upsert(es, k, v), k),
        value_of(upsert(es, k, v), k) == v,
        upsert(es, k, v).len() == if has_key(es, k) {
            es.len() as int
        } else {
            es.len() + 1 as int
        },
        forall|k2: Seq<char>|
            k2 != k ==> #[trigger] has_key(upsert(es, k, v), k2) == has_key(es, k2),
        forall|k2: Seq<char>|
            k2 != k && has_key(es, k2) ==> #[trigger] value_of(upsert(es, k, v), k2) == value_of(
                es,
                k2,
            ),
{
    let es2 = upsert(es, k, v);
    if has_key(es, k) {
        let i = key_index(es, k);
        assert(0 <= i < es.len() && es[i].0 == k);
        assert(forall|m: int| 0 <= m < es2.len() && m != i ==> es2[m] == es[m]);
        assert(es2[i] == (k, v));
        assert(keys_distinct(es2));
        lemma_key_at(es2, k, i);
        assert forall|k2: Seq<char>| k2 != k implies #[trigger] has_key(es2, k2) == has_key(
            es,
            k2,
        ) by {
            if has_key(es, k2) {
                let m = key_index(es, k2);
                assert(m != i);
                assert(es2[m].0 == k2);
                assert(has_key(es2, k2));
            }
            if has_key(es2, k2) {
                let m = key_index(es2, k2);
                assert(m != i);
                assert(es[m].0 == k2);
                assert(has_key(es, k2));
            }
        }
        assert forall|k2: Seq<char>| k2 != k && has_key(es, k2) implies #[trigger] value_of(
            es2,
            k2,
        ) == value_of(es, k2) by {
            let m = key_index(es, k2);
            lemma_key_at(es, k2, m);
            assert(m != i);
            lemma_key_at(es2, k2, m);
        }
    } else {
        let n = es.len() as int;
        assert(es2 == es.push((k, v)));
        assert(es2[n] == (k, v));
        assert forall|i: int, j: int| 0 <= i < j < es2.len() implies es2[i].0 != es2[j].0 by {
            if j < n {
                assert(es2[i] == es[i] && es2[j] == es[j]);
            } else {
                assert(es2[i] == es[i]);
                if es[i].0 == k {
                    assert(has_key(es, k));
                }
            }
        }
        lemma_key_at(es2, k, n);
        assert forall|k2: Seq<char>| k2 != k implies #[trigger] has_key(es2, k2) == has_key(
            es,
            k2,
        ) by {
            if has_key(es, k2) {
                let m = key_index(es, k2);
                assert(es2[m].0 == k2);
                assert(has_key(es2, k2));
            }
            if has_key(es2, k2) {
                let m = key_index(es2, k2);
                assert(m < n);
                assert(es[m].0 == k2);
                assert(has_key(es, k2));
            }
        }
        assert forall|k2: Seq<char>| k2 != k && has_key(es, k2) implies #[trigger] value_of(
            es2,
            k2,
        ) == value_of(es, k2) by {
            let m = key_index(es, k2);
            lemma_key_at(es, k2, m);
            lemma_key_at(es2, k2, m);
        }
    }
}

/// Deleting `k` removes exactly that key: afterwards `k` is absent, every
/// other key keeps its identity, and the keys stay distinct. Deleting an
/// absent key leaves the store as it was.
pub proof fn lemma_remove_key(es: Entries, k: Seq<char>)
    requires
        keys_distinct(es),
    ensures
        keys_distinct(remove_key(es, k)),
        !has_key(remove_key(es, k), k),
        remove_key(es, k).len() == if has_key(es, k) {
            es.len() - 1
        } else {
            es.len() as int
        },
        !has_key(es, k) ==> remove_key(es, k) == es,
        forall|k2: Seq<char>|
            k2 != k ==> #[trigger] has_key(remove_key(es, k), k2) == has_key(es, k2),
        forall|k2: Seq<char>|
            k2 != k && has_key(es, k2) ==> #[trigger] value_of(remove_key(es, k), k2) == value_of(
                es,
                k2,
            ),
{
    let es2 = remove_key(es, k);
    if has_key(es, k) {
        let i = key_index(es, k);
        assert(0 <= i < es.len() && es[i].0 == k);
        es.remove_ensures(i);
        assert(forall|m: int| 0 <= m < i ==> #[trigger] es2[m] == es[m]);
        assert(forall|m: int| i <= m < es2.len() ==> #[trigger] es2[m] == es[m + 1]);
        assert(keys_distinct(es2));
        assert forall|m: int| 0 <= m < es2.len() implies es2[m].0 != k by {
            if m < i {
                lemma_key_at(es, k, i);
                if es[m].0 == k {
                    assert(es[m].0 != es[i].0);
                }
            } else {
                if es[m + 1].0 == k {
                    assert(es[i].0 != es[m + 1].0);
                }
            }
        }
        assert(!has_key(es2, k));
        assert forall|k2: Seq<char>| k2 != k implies #[trigger] has_key(es2, k2) == has_key(
            es,
            k2,
        ) by {
            if has_key(es, k2) {
                let m = key_index(es, k2);
                assert(m != i);
                if m < i {
                    assert(es2[m].0 == k2);
                } else {
                    assert(es2[m - 1].0 == k2);
                }
                assert(has_key(es2, k2));
            }
            if has_key(es2, k2) {
                let m = key_index(es2, k2);
                if m < i {
                    assert(es[m].0 == k2);
                } else {
                    assert(es[m + 1].0 == k2);
                }
                assert(has_key(es, k2));
            }
        }
        assert forall|k2: Seq<char>| k2 != k && has_key(es, k2) implies #[trigger] value_of(
            es2,
            k2,
        ) == value_of(es, k2) by {
            let m = key_index(es, k2);
            lemma_key_at(es, k2, m);
            assert(m != i);
            if m < i {
                lemma_key_at(es2, k2, m);
            } else {
                lemma_key_at(es2, k2, m - 1);
            }
        }
    }
}

/// The store grown from an empty one by a sequence of writes, oldest first.
pub open spec fn store_of(adds: Seq<(Seq<char>, Seq<char>)>) -> Entries
    decreases adds.len(),
{
    if adds.len() == 0 {
        Seq::empty()
    } else {
        upsert(store_of(adds.drop_last()), adds.last().0, adds.last().1)
    }
}

/// Writing any number of identities under distinct keys into an empty store
/// gives exactly one entry per write: the store's keys are the written keys,
/// none duplicated or dropped, and each holds the identity it was given. A
/// listing of such a store therefore has exactly one line per written key.
pub proof fn lemma_distinct_adds_fill_store(adds: Seq<(Seq<char>, Seq<char>)>)
    requires
        keys_distinct(adds),
    ensures
        keys_distinct(store_of(adds)),
        store_of(adds).len() == adds.len(),
        forall|kk: Seq<char>| #[trigger] has_key(store_of(adds), kk) == has_key(adds, kk),
        forall|i: int|
            0 <= i < adds.len() ==> has_key(store_of(adds), #[trigger] adds[i].0) && value_of(
                store_of(adds),
                adds[i].0,
            ) == adds[i].1,
    decreases adds.len(),
{
    if adds.len() > 0 {
        let pre = adds.drop_last();
        let n = adds.len() - 1;
        assert(forall|i: int| 0 <= i < pre.len() ==> pre[i] == adds[i]);
        assert(keys_distinct(pre));
        lemma_distinct_adds_fill_store(pre);
        let st = store_of(pre);
        let k = adds.last().0;
        let v = adds.last().1;
        if has_key(pre, k) {
            let i = key_index(pre, k);
            assert(0 <= i < pre.len() && pre[i].0 == k);
            assert(adds[i].0 != adds[n].0);
            assert(false);
        }
        assert(!has_key(st, k));
        lemma_upsert(st, k, v);
        assert(store_of(adds) == upsert(st, k, v));
        assert forall|kk: Seq<char>| #[trigger] has_key(store_of(adds), kk) == has_key(
            adds,
            kk,
        ) by {
            if kk == k {
                assert(adds[n].0 == kk);
                assert(has_key(adds, kk));
            } else {
                assert(has_key(store_of(adds), kk) == has_key(st, kk));
                if has_key(pre, kk) {
                    let i = key_index(pre, kk);
                    assert(adds[i].0 == kk);
                    assert(has_key(adds, kk));
                }
                if has_key(adds, kk) {
                    let i = key_index(adds, kk);
                    assert(0 <= i < adds.len() && adds[i].0 == kk);
                    assert(i != n);
                    assert(pre[i].0 == kk);
                    assert(has_key(pre, kk));
                }
            }
        }
        assert forall|i: int| 0 <= i < adds.len() implies has_key(
            store_of(adds),
            #[trigger] adds[i].0,
        ) && value_of(store_of(adds), adds[i].0) == adds[i].1 by {
            if i < n {
                assert(adds[i].0 != k);
                assert(pre[i] == adds[i]);
                assert(value_of(store_of(adds), adds[i].0) == value_of(st, adds[i].0));
            } else {
                assert(adds[i].0 == k && adds[i].1 == v);
            }
        }
    }
}

/// The capability a co-author store offers. A backing store keeps key/identity
/// pairs with distinct keys; every operation is specified against the store's
/// [`Entries`].
pub trait CoauthorRepo {
    /// The entries the store currently holds, in its own iteration order. A
    /// backing store that the verifier cannot look into leaves this at its
    /// default, an arbitrary store.
    open spec fn entries(&self) -> Entries {
        vstd::pervasive::arbitrary()
    }

    /// Looks up one key; an absent key gives `None`.
    fn get(&self, key: &str) -> (r: Option<String>)
        requires
            keys_distinct(self.entries()),
        ensures
            r is Some <==> has_key(self.entries(), key@),
            r matches Some(v) ==> v@ == value_of(self.entries(), key@),
    ;

    /// Writes or overwrites the identity stored under `key`.
    fn add(&mut self, key: &str, coauthor: &str)
        requires
            keys_distinct(old(self).entries()),
        ensures
            final(self).entries() == upsert(old(self).entries(), key@, coauthor@),
            keys_distinct(final(self).entries()),
    ;

    /// Deletes the entry stored under `key`; an absent key leaves the store
    /// as it was.
    fn remove(&mut self, key: &str)
        requires
            keys_distinct(old(self).entries()),
        ensures
            final(self).entries() == remove_key(old(self).entries(), key@),
            keys_distinct(final(self).entries()),
    ;

    /// Renders every entry, in store order: the full `key identity` line when
    /// `full` is set, the key alone otherwise. An empty store gives an empty
    /// sequence, not an error.
    fn list(&self, full: bool) -> (r: Vec<String>)
        requires
            keys_distinct(self.entries()),
        ensures
            r@.len() == self.entries().len(),
            forall|i: int|
                0 <= i < r@.len() ==> r@[i]@ == render_entry(self.entries()[i], full),
    ;
}

/// A store held in process memory: the substitute backing store that lets the
/// command run, and be tested, without reaching an external process.
pub struct InMemoryCoauthorRepo {
    items: Vec<(String, String)>,
}

impl InMemoryCoauthorRepo {
    /// Creates an empty store.
    pub fn new() -> (r: Self)
        ensures
            r.entries() =~= Seq::<(Seq<char>, Seq<char>)>::empty(),
            keys_distinct(r.entries()),
    {
        InMemoryCoauthorRepo { items: Vec::new() }
    }

    /// The position of the entry carrying `key`, if one exists.
    fn position_of(&self, key: &str) -> (r: Option<usize>)
        ensures
            r matches Some(i) ==> i < self.entries().len() && self.entries()[i as int].0 == key@,
            r is None ==> forall|j: int|
                0 <= j < self.entries().len() ==> self.entries()[j].0 != key@,
    {
        let k: String = key.to_owned();
        let n = self.items.len();
        let mut i: usize = 0;
        while i < n
            invariant
                n == self.items.len(),
                i <= n,
                k@ == key@,
                self.entries().len() == n,
                forall|j: int| 0 <= j < i ==> self.entries()[j].0 != key@,
            decreases n - i,
        {
            let e = &self.items[i];
            if e.0 == k {
                assert(self.entries()[i as int].0 == key@);
                return Some(i);
            }
            assert(self.entries()[i as int].0 != key@);
            i += 1;
        }
        None
    }
}

impl CoauthorRepo for InMemoryCoauthorRepo {
    closed spec fn entries(&self) -> Entries {
        self.items.deep_view()
    }

    fn get(&self, key: &str) -> (r: Option<String>) {
        match self.position_of(key) {
            Some(i) => {
                proof {
                    lemma_key_at(self.entries(), key@, i as int);
                }
                Some(self.items[i].1.clone())
            },
            None => {
                assert(!has_key(self.entries(), key@));
                None
            },
        }
    }

    fn add(&mut self, key: &str, coauthor: &str) {
        let k: String = key.to_owned();
        let v: String = coauthor.to_owned();
        match self.position_of(key) {
            Some(i) => {
                proof {
                    lemma_key_at(old(self).entries(), key@, i as int);
                }
                self.items[i] = (k, v);
                proof {
                    assert(self.entries() =~= upsert(old(self).entries(), key@, coauthor@));
                    lemma_upsert(old(self).entries(), key@, coauthor@);
                }
            },
            None => {
                assert(!has_key(self.entries(), key@));
                self.items.push((k, v));
                proof {
                    assert(self.entries() =~= upsert(old(self).entries(), key@, coauthor@));
                    lemma_upsert(old(self).entries(), key@, coauthor@);
                }
            },
        }
    }

    fn remove(&mut self, key: &str) {
        match self.position_of(key) {
            Some(i) => {
                proof {
                    lemma_key_at(old(self).entries(), key@, i as int);
                }
                self.items.remove(i);
                proof {
                    assert(self.entries() =~= remove_key(old(self).entries(), key@));
                    lemma_remove_key(old(self).entries(), key@);
                }
            },
            None => {
                assert(!has_key(self.entries(), key@));
                assert(self.entries() == remove_key(self.entries(), key@));
            },
        }
    }

    fn list(&self, full: bool) -> (r: Vec<String>) {
        let n = self.items.len();
        let mut r: Vec<String> = Vec::new();
        let mut i: usize = 0;
        while i < n
            invariant
                n == self.items.len(),
                i <= n,
                self.entries().len() == n,
                r@.len() == i,
                forall|j: int|
                    0 <= j < i ==> r@[j]@ == render_entry(self.entries()[j], full),
            decreases n - i,
        {
            let e = &self.items[i];
            let mut line: String = e.0.clone();
            if full {
                line.append(" ");
                line.append(e.1.as_str());
            }
            assert(line@ == render_entry(self.entries()[i as int], full));
            r.push(line);
            i += 1;
        }
        r
    }
}

} // verus!
