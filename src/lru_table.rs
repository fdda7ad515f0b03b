//! A bounded key/value table that keeps its entries in recency order and
//! evicts the least recently used one when a new key would exceed capacity.

use vstd::prelude::*;

verus! {

/// The abstract contents of a table: key/value pairs, least recently used
/// first, most recently used last.
pub type Slots<V> = Seq<(Seq<char>, V)>;

/// The keys of `s`, in the same order.
pub open spec fn keys_of<V>(s: Slots<V>) -> Seq<Seq<char>> {
    s.map_values(|p: (Seq<char>, V)| p.0)
}

/// No key occurs twice.
pub open spec fn keys_unique<V>(s: Slots<V>) -> bool {
    forall|i: int, j: int|
        0 <= i < s.len() && 0 <= j < s.len() && i != j ==> #[trigger] s[i].0 != #[trigger] s[j].0
}

pub open spec fn has_key<V>(s: Slots<V>, k: Seq<char>) -> bool {
    exists|i: int| 0 <= i < s.len() && #[trigger] s[i].0 == k
}

/// The position of `k` in `s`, where it occurs.
pub open spec fn index_of<V>(s: Slots<V>, k: Seq<char>) -> int
    recommends
        has_key(s, k),
{
    choose|i: int| 0 <= i < s.len() && #[trigger] s[i].0 == k
}

/// `s` after the pair at `i` has been used: it moves to the most recent end.
pub open spec fn touch<V>(s: Slots<V>, i: int) -> Slots<V> {
    s.remove(i).push(s[i])
}

/// The contents after a lookup of `k`.
pub open spec fn after_lookup<V>(s: Slots<V>, k: Seq<char>) -> Slots<V> {
    if has_key(s, k) {
        touch(s, index_of(s, k))
    } else {
        s
    }
}

/// The contents after `k` is fetched, or inserted with value `d`, in a table
/// of capacity `cap`.
pub open spec fn after_get_or_create<V>(s: Slots<V>, cap: nat, k: Seq<char>, d: V) -> Slots<V> {
    if has_key(s, k) {
        touch(s, index_of(s, k))
    } else if s.len() >= cap {
        s.drop_first().push((k, d))
    } else {
        s.push((k, d))
    }
}

/// The value that a fetch of `k`, or its insertion with value `d`, yields.
pub open spec fn value_of_get_or_create<V>(s: Slots<V>, k: Seq<char>, d: V) -> V {
    if has_key(s, k) {
        s[index_of(s, k)].1
    } else {
        d
    }
}

/// The contents after each pair of `ops`, in order, was fetched or inserted.
pub open spec fn insert_all<V>(s: Slots<V>, cap: nat, ops: Slots<V>) -> Slots<V>
    decreases ops.len(),
{
    if ops.len() == 0 {
        s
    } else {
        after_get_or_create(insert_all(s, cap, ops.drop_last()), cap, ops.last().0, ops.last().1)
    }
}

/// A fetch or insertion keeps keys unique and the size within capacity,
/// and leaves `k` as the most recently used key.
pub proof fn lemma_get_or_create_wf<V>(s: Slots<V>, cap: nat, k: Seq<char>, d: V)
    requires
        keys_unique(s),
        0 < cap,
        s.len() <= cap,
    ensures
        ({
            let t = after_get_or_create(s, cap, k, d);
            &&& keys_unique(t)
            &&& t.len() <= cap
            &&& t.len() > 0
            &&& t.last() == (k, value_of_get_or_create(s, k, d))
            &&& has_key(t, k)
            &&& index_of(t, k) == t.len() - 1
        }),
{
    let t = after_get_or_create(s, cap, k, d);
    let n = t.len() - 1;
    let src = |a: int|
        if has_key(s, k) {
            let i = index_of(s, k);
            if a == n {
                i
            } else if a < i {
                a
            } else {
                a + 1
            }
        } else if s.len() >= cap {
            a + 1
        } else {
            a
        };
    assert forall|a: int| 0 <= a < n implies #[trigger] t[a] == s[src(a)] && 0 <= src(a) < s.len()
        && s[src(a)].0 != k by {
        if has_key(s, k) {
            let i = index_of(s, k);
            assert(s[i].0 == k);
        } else {
            assert(!(s[src(a)].0 == k));
        }
    }
    assert(keys_unique(t)) by {
        assert forall|a: int, b: int|
            0 <= a < t.len() && 0 <= b < t.len() && a != b implies #[trigger] t[a].0
            != #[trigger] t[b].0 by {
            if a < n && b < n {
                if has_key(s, k) {
                    let i = index_of(s, k);
                    assert(src(a) != src(b));
                }
                assert(t[a] == s[src(a)]);
                assert(t[b] == s[src(b)]);
            } else if a < n {
                assert(t[a].0 != k);
            } else {
                assert(t[b].0 != k);
            }
        }
    }
    assert(t[n].0 == k);
    assert(has_key(t, k));
}

proof fn lemma_fill_distinct<V>(cap: nat, ops: Slots<V>, n: nat)
    requires
        keys_unique(ops),
        n <= ops.len(),
        n <= cap,
    ensures
        insert_all(Seq::empty(), cap, ops.take(n as int)) == ops.take(n as int),
    decreases n,
{
    if n > 0 {
        let m = (n - 1) as nat;
        lemma_fill_distinct(cap, ops, m);
        let p = ops.take(n as int);
        assert(p.drop_last() =~= ops.take(m as int));
        let q = ops.take(m as int);
        assert(!has_key(q, ops[m as int].0)) by {
            if has_key(q, ops[m as int].0) {
                let i = index_of(q, ops[m as int].0);
                assert(ops[i].0 == ops[m as int].0);
            }
        }
        assert(q.push(ops[m as int]) =~= p);
    } else {
        assert(ops.take(0) =~= Seq::<(Seq<char>, V)>::empty());
    }
}

/// Inserting `cap + 1` distinct keys into an empty table of capacity `cap`
/// leaves the last `cap` of them, in the order they came, and not the first.
pub proof fn lemma_overflow_evicts_first<V>(cap: nat, ops: Slots<V>)
    requires
        cap > 0,
        ops.len() == cap + 1,
        keys_unique(ops),
    ensures
        insert_all(Seq::empty(), cap, ops) == ops.drop_first(),
        !has_key(insert_all(Seq::empty(), cap, ops), ops[0].0),
{
    lemma_fill_distinct(cap, ops, cap);
    let q = ops.take(cap as int);
    assert(ops.drop_last() =~= q);
    assert(!has_key(q, ops[cap as int].0)) by {
        if has_key(q, ops[cap as int].0) {
            let i = index_of(q, ops[cap as int].0);
            assert(ops[i].0 == ops[cap as int].0);
        }
    }
    let t = insert_all(Seq::empty(), cap, ops);
    assert(t =~= ops.drop_first());
    if has_key(t, ops[0].0) {
        let i = index_of(t, ops[0].0);
        assert(ops[i + 1].0 == ops[0].0);
    }
}

/// Using a key protects it from the next eviction: when a new key then meets
/// a full table, the entry that leaves is the least recently used one among
/// the others, and every other key stays.
pub proof fn lemma_use_refreshes<V>(s: Slots<V>, cap: nat, k: Seq<char>, k2: Seq<char>, d: V)
    requires
        keys_unique(s),
        s.len() == cap,
        cap >= 2,
        has_key(s, k),
        !has_key(s, k2),
    ensures
        ({
            let t = after_get_or_create(after_lookup(s, k), cap, k2, d);
            let victim = if s[0].0 == k {
                s[1].0
            } else {
                s[0].0
            };
            &&& has_key(t, k)
            &&& has_key(t, k2)
            &&& !has_key(t, victim)
            &&& forall|x: Seq<char>| has_key(s, x) && x != victim ==> has_key(t, x)
        }),
{
    let i = index_of(s, k);
    let u = after_lookup(s, k);
    assert(u == touch(s, i));
    assert(u.len() == cap);
    assert(!has_key(u, k2)) by {
        if has_key(u, k2) {
            let a = index_of(u, k2);
            if a == u.len() - 1 {
                assert(u[a] == s[i]);
            } else if a < i {
                assert(u[a] == s[a]);
            } else {
                assert(u[a] == s[a + 1]);
            }
        }
    }
    let t = after_get_or_create(u, cap, k2, d);
    assert(t == u.drop_first().push((k2, d)));
    let victim = if s[0].0 == k { s[1].0 } else { s[0].0 };
    let vi: int = if i == 0 { 1 } else { 0 };
    assert(u[0] == s[vi]);
    assert(s[vi].0 == victim);
    assert(t[t.len() - 2] == u[u.len() - 1]);
    assert(has_key(t, k));
    assert(t[t.len() - 1].0 == k2);
    assert(has_key(t, k2));
    assert(!has_key(t, victim)) by {
        if has_key(t, victim) {
            let a = index_of(t, victim);
            if a < t.len() - 1 {
                let b = a + 1;
                assert(t[a] == u[b]);
                if b == u.len() - 1 {
                    assert(u[b] == s[i]);
                } else if b < i {
                    assert(u[b] == s[b]);
                } else {
                    assert(u[b] == s[b + 1]);
                }
            }
        }
    }
    assert forall|x: Seq<char>| has_key(s, x) && x != victim implies has_key(t, x) by {
        let j = index_of(s, x);
        let b: int = if j == i { u.len() - 1 } else if j < i { j } else { j - 1 };
        assert(u[b] == s[j]);
        if b == 0 {
            assert(s[vi] == s[j]);
        }
        assert(t[b - 1] == u[b]);
    }
}

/// A table of at most `capacity` entries, kept in recency order.
#[derive(Debug)]
pub struct LruTable<V> {
    slots: Vec<(String, V)>,
    capacity: usize,
}

impl<V: View> View for LruTable<V> {
    type V = Slots<V::V>;

    closed spec fn view(&self) -> Slots<V::V> {
        self.slots@.map_values(|p: (String, V)| (p.0@, p.1@))
    }
}

impl<V: View> LruTable<V> {
    pub closed spec fn cap(&self) -> nat {
        self.capacity as nat
    }

    pub open spec fn wf(&self) -> bool {
        &&& 0 < self.cap()
        &&& self@.len() <= self.cap()
        &&& keys_unique(self@)
    }

    /// An empty table that holds at most `capacity` entries.
    pub fn new(capacity: usize) -> (t: Self)
        requires
            capacity > 0,
        ensures
            t.wf(),
            t@ == Seq::<(Seq<char>, V::V)>::empty(),
            t.cap() == capacity,
    {
        let t = LruTable { slots: Vec::new(), capacity };
        assert(t@ =~= Seq::<(Seq<char>, V::V)>::empty());
        t
    }

    pub fn capacity(&self) -> (r: usize)
        ensures
            r == self.cap(),
    {
        self.capacity
    }

    pub fn len(&self) -> (r: usize)
        ensures
            r == self@.len(),
    {
        self.slots.len()
    }

    /// Where `key` stands, if it does.
    fn find(&self, key: &String) -> (r: Option<usize>)
        requires
            self.wf(),
        ensures
            match r {
                Some(i) => i < self@.len() && has_key(self@, key@) && i == index_of(self@, key@),
                None => !has_key(self@, key@),
            },
    {
        let n = self.slots.len();
        let mut i: usize = 0;
        while i < n
            invariant
                n == self@.len(),
                self.wf(),
                i <= n,
                forall|j: int| 0 <= j < i ==> #[trigger] self@[j].0 != key@,
            decreases n - i,
        {
            assert(self@[i as int].0 == self.slots@[i as int].0@);
            if self.slots[i].0 == *key {
                assert(has_key(self@, key@));
                let ghost c = index_of(self@, key@);
                assert(self@[c].0 == key@);
                assert(c == i);
                return Some(i);
            }
            i = i + 1;
        }
        None
    }

    /// Moves the pair at `i` to the most recent end.
    fn touch_at(&mut self, i: usize)
        requires
            old(self).wf(),
            i < old(self)@.len(),
        ensures
            final(self).wf(),
            final(self).cap() == old(self).cap(),
            final(self)@ == touch(old(self)@, i as int),
    {
        let ghost s = self@;
        let p = self.slots.remove(i);
        self.slots.push(p);
        assert(self@ =~= touch(s, i as int));
        assert(keys_unique(self@)) by {
            assert forall|a: int, b: int|
                0 <= a < self@.len() && 0 <= b < self@.len() && a != b implies #[trigger] self@[a].0
                != #[trigger] self@[b].0 by {
                let oa = if a == self@.len() - 1 { i as int } else if a < i { a } else { a + 1 };
                let ob = if b == self@.len() - 1 { i as int } else if b < i { b } else { b + 1 };
                assert(self@[a] == s[oa]);
                assert(self@[b] == s[ob]);
            }
        }
    }

    /// Looks `key` up; where it is present it becomes the most recently used
    /// entry, and its value is then `most_recent`.
    pub fn lookup(&mut self, key: &String) -> (found: bool)
        requires
            old(self).wf(),
        ensures
            final(self).wf(),
            final(self).cap() == old(self).cap(),
            found == has_key(old(self)@, key@),
            final(self)@ == after_lookup(old(self)@, key@),
            found ==> final(self)@.last() == old(self)@[index_of(old(self)@, key@)],
    {
        match self.find(key) {
            Some(i) => {
                self.touch_at(i);
                true
            },
            None => false,
        }
    }

    /// Makes `key` the most recently used entry, inserting it with value
    /// `default` where it is absent; a full table first drops its least
    /// recently used entry.
    pub fn get_or_create(&mut self, key: String, default: V)
        requires
            old(self).wf(),
        ensures
            final(self).wf(),
            final(self).cap() == old(self).cap(),
            final(self)@ == after_get_or_create(old(self)@, old(self).cap(), key@, default@),
            final(self)@.last() == (key@, value_of_get_or_create(old(self)@, key@, default@)),
    {
        match self.find(&key) {
            Some(i) => {
                self.touch_at(i);
            },
            None => {
                let ghost s0 = self@;
                if self.slots.len() >= self.capacity {
                    self.slots.remove(0);
                    assert(self@ =~= s0.drop_first());
                }
                let ghost s1 = self@;
                self.slots.push((key, default));
                assert(self@ =~= s1.push((key@, default@)));
                assert(keys_unique(self@)) by {
                    assert forall|a: int, b: int|
                        0 <= a < self@.len() && 0 <= b < self@.len() && a != b
                        implies #[trigger] self@[a].0 != #[trigger] self@[b].0 by {
                        if a < s1.len() && b < s1.len() {
                            if s0.len() >= self.capacity {
                                assert(s1[a] == s0[a + 1]);
                                assert(s1[b] == s0[b + 1]);
                            }
                        } else if a < s1.len() {
                            if s0.len() >= self.capacity {
                                assert(s1[a] == s0[a + 1]);
                            } else {
                                assert(s1[a] == s0[a]);
                            }
                        } else if b < s1.len() {
                            if s0.len() >= self.capacity {
                                assert(s1[b] == s0[b + 1]);
                            } else {
                                assert(s1[b] == s0[b]);
                            }
                        }
                    }
                }
            },
        }
    }

    /// The value of the most recently used entry.
    pub fn most_recent(&self) -> (r: &V)
        requires
            self@.len() > 0,
        ensures
            r@ == self@.last().1,
    {
        let n = self.slots.len();
        assert(self@[n - 1] == (self.slots@[n - 1].0@, self.slots@[n - 1].1@));
        &self.slots[n - 1].1
    }

    /// Replaces the value of the most recently used entry, leaving the
    /// order and the keys as they are.
    pub fn set_most_recent(&mut self, value: V)
        requires
            old(self).wf(),
            old(self)@.len() > 0,
        ensures
            final(self).wf(),
            final(self).cap() == old(self).cap(),
            final(self)@ == old(self)@.update(old(self)@.len() - 1, (old(self)@.last().0, value@)),
    {
        let ghost s = self@;
        let n = self.slots.len();
        let (k, _) = self.slots.remove(n - 1);
        self.slots.push((k, value));
        assert(self@ =~= s.update(s.len() - 1, (s.last().0, value@)));
        assert(keys_of(self@) =~= keys_of(s));
        assert(keys_unique(self@)) by {
            assert forall|a: int, b: int|
                0 <= a < self@.len() && 0 <= b < self@.len() && a != b
                implies #[trigger] self@[a].0 != #[trigger] self@[b].0 by {
                assert(keys_of(self@)[a] == keys_of(s)[a]);
                assert(keys_of(self@)[b] == keys_of(s)[b]);
            }
        }
    }
}

} // verus!
