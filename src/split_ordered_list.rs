//! A map from keys below 2^63 to values, kept as one list sorted in split order with a
//! directory of bucket sentinels that doubles as the map grows.
use vstd::prelude::*;

use crate::ordered_list::{
    find_from, has_key, lemma_insert_node, lemma_insert_sorted, lemma_key_index,
    lemma_live_count_bound, lemma_remove_node, live_count, sorted, value_at, Node,
};
use crate::split_order::{
    lemma_pow2_63_64, lemma_pow2_floor_unique, lemma_pow2_mono, lemma_regular_key_injective, lemma_rev_even,
    lemma_rev_prefix, lemma_sub_is_mod, pow2, regular_key, regular_key_of, sentinel_key,
    sentinel_key_of, valid_key,
};

verus! {

/// `size` is doubled when `count > size * LOAD_FACTOR`.
pub const LOAD_FACTOR: usize = 2;

/// Map from `usize` in range [0, 2^63-1] to `V`.
pub struct SplitOrderedList<V> {
    /// List sorted by recursive-split order; sentinel nodes hold no value.
    list: Vec<Node<V>>,
    /// `buckets[i]` is set once the sentinel of bucket `i` is in the list.
    buckets: Vec<bool>,
    /// number of buckets
    size: usize,
    /// number of items
    count: usize,
    /// `size == 2^log_size`
    log_size: Ghost<nat>,
    /// The updates made so far, in order.
    history: Ghost<Seq<MapOp<V>>>,
}

/// The parent of bucket `my_bucket` in a directory of `size` buckets: the bucket with its
/// highest set bit cleared, or `0` for bucket `0`.
fn get_parent(my_bucket: usize, size: usize, Ghost(m): Ghost<nat>) -> (r: usize)
    requires
        size as nat == pow2(m),
        my_bucket < size,
    ensures
        my_bucket == 0 ==> r == 0,
        my_bucket > 0 ==> r < my_bucket,
        my_bucket > 0 ==> exists|k: nat|
            #[trigger] pow2(k) <= my_bucket < 2 * pow2(k) && r == my_bucket - pow2(k),
        exists|j: nat| j <= m && r as nat == my_bucket as nat % #[trigger] pow2(j),
{
    if my_bucket == 0 {
        assert(0nat == 0nat % pow2(0));
        return 0;
    }
    let mut parent = size;
    let ghost mut k = m;
    loop
        invariant
            parent as nat == pow2(k),
            k <= m,
            0 < my_bucket < parent,
        decreases parent,
    {
        assert(k > 0);
        assert(parent >> 1 == parent / 2) by (bit_vector);
        parent = parent >> 1;
        proof {
            k = (k - 1) as nat;
        }
        if parent <= my_bucket {
            proof {
                lemma_sub_is_mod(my_bucket as nat, k);
                assert(pow2(k) <= my_bucket < 2 * pow2(k));
            }
            return my_bucket - parent;
        }
    }
}

impl<V> SplitOrderedList<V> {
    /// The invariant: the list is sorted, data nodes are exactly those with odd keys, every
    /// marked bucket has its sentinel in the list, `size` is a power of two, and `count`
    /// is the number of data nodes.
    pub closed spec fn wf(&self) -> bool {
        &&& sorted(self.list@)
        &&& forall|i: int|
            0 <= i < self.list.len() ==> (#[trigger] self.list@[i].value is Some <==> self.list@[i].key
                % 2 == 1)
        &&& forall|b: int|
            0 <= b < self.buckets.len() && #[trigger] self.buckets@[b] ==> has_key(
                self.list@,
                sentinel_key(b as nat),
            )
        &&& forall|b: int, k: nat|
            #![trigger self.buckets@[b], pow2(k)]
            0 < b < self.buckets.len() && self.buckets@[b] && pow2(k) <= b < 2 * pow2(k)
                ==> self.is_marked(b - pow2(k))
        &&& self.buckets.len() <= self.size
        &&& 1 <= self.log_size@
        &&& self.size as nat == pow2(self.log_size@)
        &&& self.size <= usize::MAX / 2
        &&& self.count as nat == live_count(self.list@)
        &&& self@.dom().finite()
        &&& self@.len() == self.count as nat
        &&& self@ == apply_all(self.history@)
    }

    /// The directory slot of bucket `b` exists and is marked.
    spec fn is_marked(&self, b: int) -> bool {
        0 <= b < self.buckets.len() && self.buckets@[b]
    }

    /// The updates made to the map so far, in order.
    pub closed spec fn history(&self) -> Seq<MapOp<V>> {
        self.history@
    }

    /// Bucket indices stay below `2^62`.
    proof fn lemma_log_bound(&self)
        requires
            self.wf(),
        ensures
            self.log_size@ <= 62,
            self.size < 0x4000_0000_0000_0001,
    {
        lemma_pow2_63_64();
        if self.log_size@ > 62 {
            lemma_pow2_mono(63, self.log_size@);
        }
        reveal_with_fuel(pow2, 63);
        if self.log_size@ < 62 {
            lemma_pow2_mono(self.log_size@, 62);
        }
    }

    /// The number of buckets.
    pub closed spec fn size_spec(&self) -> nat {
        self.size as nat
    }

    /// The number of entries, as counted by the map.
    pub closed spec fn count_spec(&self) -> nat {
        self.count as nat
    }

    /// The number of nodes in the list, sentinels included.
    pub closed spec fn num_nodes(&self) -> int {
        self.list@.len() as int
    }

    /// The list key of the node at position `i`.
    pub closed spec fn node_key(&self, i: int) -> nat {
        self.list@[i].key as nat
    }

    /// Creates a new split ordered list.
    pub fn new() -> (r: Self)
        ensures
            r.wf(),
            r@ == Map::<usize, V>::empty(),
            r.size_spec() == 2,
            r.count_spec() == 0,
            r.history() == Seq::<MapOp<V>>::empty(),
    {
        let r = SplitOrderedList {
            list: Vec::new(),
            buckets: Vec::new(),
            size: 2,
            count: 0,
            log_size: Ghost(1),
            history: Ghost(Seq::empty()),
        };
        assert(pow2(1) == 2) by {
            reveal_with_fuel(pow2, 2);
        }
        assert(r@ =~= Map::<usize, V>::empty());
        r
    }

    /// Moves a cursor to the sentinel of bucket `index` and returns its position. If the
    /// bucket has no sentinel yet, its parent bucket is resolved first and the sentinel is
    /// inserted after the parent's.
    fn lookup_bucket(&mut self, size: usize, index: usize) -> (p: usize)
        requires
            old(self).wf(),
            size == old(self).size,
            index < size,
        ensures
            final(self).wf(),
            final(self)@ == old(self)@,
            final(self).size == old(self).size,
            final(self).count == old(self).count,
            final(self).log_size == old(self).log_size,
            final(self).history == old(self).history,
            p < final(self).list.len(),
            final(self).list@[p as int].key as nat == sentinel_key(index as nat),
            final(self).list@[p as int].value is None,
            final(self).is_marked(index as int),
            forall|b: int| #[trigger] old(self).is_marked(b) ==> final(self).is_marked(b),
            forall|k: nat|
                index > 0 && #[trigger] pow2(k) <= index < 2 * pow2(k) ==> final(self).is_marked(index - pow2(k)),
            old(self).is_marked(index as int) ==> *final(self) == *old(self),
        decreases index,
    {
        proof {
            self.lemma_log_bound();
            lemma_pow2_63_64();
        }
        let key = sentinel_key_of(index);
        if index < self.buckets.len() && self.buckets[index] {
            let (_found, p) = find_from(&self.list, 0, key);
            proof {
                assert(self.list@[p as int].key % 2 == 0);
            }
            return p;
        }
        let parent = get_parent(index, size, Ghost(self.log_size@));
        let start = if index == 0 {
            0
        } else {
            self.lookup_bucket(size, parent)
        };
        let ghost rec = *self;
        proof {
            if index != 0 {
                let j = choose|j: nat|
                    j <= self.log_size@ && parent as nat == index as nat % #[trigger] pow2(j);
                lemma_rev_prefix(index as nat, j, 64);
            }
        }
        let (found, p) = find_from(&self.list, start, key);
        proof {
            if found {
                assert(self.list@[p as int].key % 2 == 0);
            }
        }
        if !found {
            let ghost s = self.list@;
            let n = Node { key, value: None };
            self.list.insert(p, n);
            proof {
                assert(self.list@ == s.insert(p as int, n));
                lemma_insert_sorted(s, p as int, n);
                lemma_insert_node(s, p as int, n);
                lemma_key_index(self.list@, p as int);
                assert forall|k: usize| #[trigger] valid_key(k) implies has_key(
                    self.list@,
                    regular_key(k as nat),
                ) == has_key(s, regular_key(k as nat)) && (has_key(s, regular_key(k as nat))
                    ==> value_at(self.list@, regular_key(k as nat)) == value_at(
                    s,
                    regular_key(k as nat),
                )) by {
                    lemma_rev_even(k as nat, 64);
                    let t = regular_key(k as nat);
                    assert(t != n.key as nat);
                    assert(has_key(s.insert(p as int, n), t) == has_key(s, t));
                }
            }
        }
        let ghost mid = *self;
        while self.buckets.len() <= index
            invariant
                self.list == mid.list,
                self.size == mid.size,
                self.count == mid.count,
                self.log_size == mid.log_size,
                self.history == mid.history,
                self.buckets.len() >= mid.buckets.len(),
                forall|b: int| 0 <= b < mid.buckets.len() ==> self.buckets@[b] == mid.buckets@[b],
                self.buckets.len() <= size,
                index < size,
                forall|b: int|
                    0 <= b < self.buckets.len() && #[trigger] self.buckets@[b] ==> b
                        < mid.buckets.len() && mid.buckets@[b],
                p < self.list.len(),
                self.list@[p as int].key == key,
            decreases index + 1 - self.buckets.len(),
        {
            self.buckets.push(false);
        }
        self.buckets.set(index, true);
        proof {
            assert(self.list@[p as int].key as nat == sentinel_key(index as nat));
            assert forall|b: int|
                0 <= b < self.buckets.len() && #[trigger] self.buckets@[b] implies has_key(
                self.list@,
                sentinel_key(b as nat),
            ) by {
                if b != index {
                    assert(mid.buckets@[b]);
                    if b < old(self).buckets.len() && old(self).buckets@[b] {
                        let t = sentinel_key(b as nat);
                        assert(has_key(old(self).list@, t));
                    }
                }
            }
            assert(self@ =~= old(self)@);
            assert forall|b: int| #[trigger] old(self).is_marked(b) implies self.is_marked(b) by {
                assert(rec.is_marked(b));
            }
            if index > 0 {
                let k0 = choose|k: nat|
                    #[trigger] pow2(k) <= index < 2 * pow2(k) && parent == index - pow2(k);
                assert(rec.is_marked(parent as int));
                assert forall|k: nat|
                    #[trigger] pow2(k) <= index < 2 * pow2(k) implies self.is_marked(
                    index - pow2(k),
                ) by {
                    lemma_pow2_floor_unique(index as nat, k, k0);
                }
            }
            assert forall|b: int, k: nat|
                #![trigger self.buckets@[b], pow2(k)]
                0 < b < self.buckets.len() && self.buckets@[b] && pow2(k) <= b < 2 * pow2(k)
                    implies self.is_marked(b - pow2(k)) by {
                if b != index {
                    assert(rec.buckets@[b]);
                    assert(rec.is_marked(b - pow2(k)));
                } else {
                    assert(self.is_marked(index - pow2(k)));
                }
            }
        }
        p
    }

    /// Moves the bucket cursor of `key`'s bucket to the position of the key. Returns
    /// `(size, found, cursor)`.
    fn find(&mut self, key: &usize) -> (r: (usize, bool, usize))
        requires
            old(self).wf(),
            valid_key(*key),
        ensures
            final(self).wf(),
            final(self)@ == old(self)@,
            final(self).size == old(self).size,
            final(self).count == old(self).count,
            final(self).log_size == old(self).log_size,
            final(self).history == old(self).history,
            r.0 == old(self).size,
            r.2 <= final(self).list.len(),
            forall|j: int| 0 <= j < r.2 ==> final(self).list@[j].key < regular_key(*key as nat),
            r.2 < final(self).list.len() ==> final(self).list@[r.2 as int].key >= regular_key(
                *key as nat,
            ),
            r.1 == (r.2 < final(self).list.len() && final(self).list@[r.2 as int].key
                == regular_key(*key as nat)),
            r.1 == has_key(final(self).list@, regular_key(*key as nat)),
    {
        proof {
            self.lemma_log_bound();
            lemma_pow2_mono(1, self.log_size@);
            reveal_with_fuel(pow2, 2);
        }
        let size = self.size;
        let p = self.lookup_bucket(size, *key % size);
        let target = regular_key_of(*key);
        proof {
            lemma_rev_prefix(*key as nat, self.log_size@, 64);
        }
        let (found, c) = find_from(&self.list, p, target);
        (size, found, c)
    }

    /// Returns the value of `key`, if the map holds it.
    pub fn lookup(&mut self, key: &usize) -> (r: Option<&V>)
        requires
            old(self).wf(),
            valid_key(*key),
        ensures
            final(self).wf(),
            final(self)@ == old(self)@,
            final(self).size_spec() == old(self).size_spec(),
            final(self).count_spec() == old(self).count_spec(),
            final(self).history() == old(self).history(),
            match r {
                Some(v) => old(self)@.contains_key(*key) && *v == old(self)@[*key],
                None => !old(self)@.contains_key(*key),
            },
    {
        let (_size, found, c) = self.find(key);
        if found {
            proof {
                lemma_key_index(self.list@, c as int);
                lemma_pow2_63_64();
                lemma_rev_even(*key as nat, 64);
                assert(self.list@[c as int].value is Some);
                assert(self@.contains_key(*key));
            }
            self.list[c].value.as_ref()
        } else {
            None
        }
    }

    /// Inserts `key` with `value`. If the map already holds the key, returns the value in
    /// `Err` and leaves the map as it was. Doubles the number of buckets once the count
    /// exceeds `size * LOAD_FACTOR`.
    pub fn insert(&mut self, key: &usize, value: V) -> (r: Result<(), V>)
        requires
            old(self).wf(),
            valid_key(*key),
        ensures
            final(self).wf(),
            final(self)@ == apply_op(old(self)@, MapOp::Insert(*key, value)),
            final(self).history() == old(self).history().push(MapOp::Insert(*key, value)),
            old(self)@.contains_key(*key) ==> r == Err::<(), V>(value) && final(self)@ == old(self)@ && final(self).count_spec() == old(self).count_spec() && final(self).size_spec()
                == old(self).size_spec(),
            !old(self)@.contains_key(*key) ==> r == Ok::<(), V>(()) && final(self)@ == old(self)@.insert(*key, value) && final(self).count_spec() == old(self).count_spec() + 1
                && final(self).size_spec() == if final(self).count_spec() > old(self).size_spec()
                * 2 && old(self).size_spec() <= usize::MAX / 4 {
                old(self).size_spec() * 2
            } else {
                old(self).size_spec()
            },
    {
        let ghost op = MapOp::Insert(*key, value);
        proof {
            lemma_apply_all_push(self.history@, op);
        }
        let (size, found, c) = self.find(key);
        if found {
            self.history = Ghost(self.history@.push(op));
            return Err(value);
        }
        let rk = regular_key_of(*key);
        let ghost s = self.list@;
        let n = Node { key: rk, value: Some(value) };
        self.list.insert(c, n);
        proof {
            assert(self.list@ == s.insert(c as int, n));
            lemma_insert_sorted(s, c as int, n);
            lemma_insert_node(s, c as int, n);
            lemma_live_count_bound(self.list@);
            assert(self.list.len() == self.list@.len());
            assert forall|k: usize| #[trigger] valid_key(k) && k != *key implies has_key(
                self.list@,
                regular_key(k as nat),
            ) == has_key(s, regular_key(k as nat)) && (has_key(s, regular_key(k as nat))
                ==> value_at(self.list@, regular_key(k as nat)) == value_at(
                s,
                regular_key(k as nat),
            )) by {
                let t = regular_key(k as nat);
                if t == n.key as nat {
                    lemma_regular_key_injective(k, *key);
                }
                assert(has_key(s.insert(c as int, n), t) == has_key(s, t));
            }
            assert(self@ =~= old(self)@.insert(*key, value));
        }
        self.count = self.count + 1;
        self.history = Ghost(self.history@.push(op));
        if self.count > size * LOAD_FACTOR && size <= usize::MAX / 4 {
            self.size = size * 2;
            self.log_size = Ghost(self.log_size@ + 1);
        }
        Ok(())
    }

    /// Removes `key` and returns its value, or `Err(())` if the map does not hold it.
    pub fn delete(&mut self, key: &usize) -> (r: Result<V, ()>)
        requires
            old(self).wf(),
            valid_key(*key),
        ensures
            final(self).wf(),
            final(self)@ == apply_op(old(self)@, MapOp::Delete(*key)),
            final(self).history() == old(self).history().push(MapOp::Delete(*key)),
            final(self).size_spec() == old(self).size_spec(),
            old(self)@.contains_key(*key) ==> r == Ok::<V, ()>(old(self)@[*key]) && final(self)@ == old(self)@.remove(*key) && final(self).count_spec() == old(self).count_spec()
                - 1,
            !old(self)@.contains_key(*key) ==> r == Err::<V, ()>(()) && final(self)@ == old(self)@ && final(self).count_spec() == old(self).count_spec(),
    {
        let ghost op = MapOp::<V>::Delete(*key);
        proof {
            lemma_apply_all_push(self.history@, op);
        }
        let (_size, found, c) = self.find(key);
        if !found {
            assert(self@.remove(*key) =~= self@);
            self.history = Ghost(self.history@.push(op));
            return Err(());
        }
        let ghost s = self.list@;
        proof {
            lemma_key_index(s, c as int);
            lemma_remove_node(s, c as int);
            self.lemma_log_bound();
            lemma_pow2_63_64();
            lemma_rev_even(*key as nat, 64);
            assert(s[c as int].value is Some);
            assert forall|b: int|
                0 <= b < self.buckets.len() && #[trigger] self.buckets@[b] implies sentinel_key(
                b as nat,
            ) % 2 == 0 by {
                lemma_rev_even(b as nat, 64);
            }
        }
        let node = self.list.remove(c);
        proof {
            assert(self.list@ == s.remove(c as int));
            assert forall|k: usize| #[trigger] valid_key(k) && k != *key implies has_key(
                self.list@,
                regular_key(k as nat),
            ) == has_key(s, regular_key(k as nat)) && (has_key(s, regular_key(k as nat))
                ==> value_at(self.list@, regular_key(k as nat)) == value_at(
                s,
                regular_key(k as nat),
            )) by {
                let t = regular_key(k as nat);
                if t == s[c as int].key as nat {
                    lemma_regular_key_injective(k, *key);
                }
                assert(has_key(s.remove(c as int), t) == has_key(s, t));
            }
            assert(self@ =~= old(self)@.remove(*key));
        }
        self.count = self.count - 1;
        self.history = Ghost(self.history@.push(op));
        match node.value {
            Some(v) => Ok(v),
            None => Err(()),
        }
    }

    /// The number of buckets.
    pub fn size(&self) -> (r: usize)
        ensures
            r as nat == self.size_spec(),
    {
        self.size
    }

    /// The number of entries.
    pub fn count(&self) -> (r: usize)
        ensures
            r as nat == self.count_spec(),
    {
        self.count
    }
}

impl<V> Default for SplitOrderedList<V> {
    fn default() -> (r: Self)
        ensures
            r.wf(),
            r@ == Map::<usize, V>::empty(),
            r.size_spec() == 2,
            r.count_spec() == 0,
            r.history() == Seq::<MapOp<V>>::empty(),
    {
        Self::new()
    }
}

/// An update of the map, as `insert` and `delete` make it.
pub enum MapOp<V> {
    Insert(usize, V),
    Delete(usize),
}

/// What an update does to the map: an insert adds a key that is absent and leaves a present
/// one as it is; a delete removes the key.
pub open spec fn apply_op<V>(m: Map<usize, V>, op: MapOp<V>) -> Map<usize, V> {
    match op {
        MapOp::Insert(k, v) => if m.contains_key(k) {
            m
        } else {
            m.insert(k, v)
        },
        MapOp::Delete(k) => m.remove(k),
    }
}

/// The map after a history of updates, starting from the empty map.
pub open spec fn apply_all<V>(ops: Seq<MapOp<V>>) -> Map<usize, V>
    decreases ops.len(),
{
    if ops.len() == 0 {
        Map::empty()
    } else {
        apply_op(apply_all(ops.drop_last()), ops.last())
    }
}

/// Applying one more update to a history.
pub proof fn lemma_apply_all_push<V>(ops: Seq<MapOp<V>>, op: MapOp<V>)
    ensures
        apply_all(ops.push(op)) == apply_op(apply_all(ops), op),
{
    assert(ops.push(op).drop_last() =~= ops);
}

/// The value that a history leaves for `k`: that of the first insert of `k` after the last
/// delete of `k`, if there is such an insert.
pub open spec fn last_write<V>(ops: Seq<MapOp<V>>, k: usize) -> Option<V>
    decreases ops.len(),
{
    if ops.len() == 0 {
        None
    } else {
        let prev = last_write(ops.drop_last(), k);
        match ops.last() {
            MapOp::Insert(j, v) => if j == k && prev is None {
                Some(v)
            } else {
                prev
            },
            MapOp::Delete(j) => if j == k {
                None
            } else {
                prev
            },
        }
    }
}

/// A lookup after any history of inserts and deletes returns a value for `k` exactly when
/// some insert of `k` came after every delete of `k`, and the value is that of the first
/// such insert.
pub proof fn lemma_lookup_follows_history<V>(ops: Seq<MapOp<V>>, k: usize)
    ensures
        apply_all(ops).contains_key(k) == last_write(ops, k) is Some,
        apply_all(ops).contains_key(k) ==> last_write(ops, k) == Some(apply_all(ops)[k]),
    decreases ops.len(),
{
    if ops.len() > 0 {
        lemma_lookup_follows_history(ops.drop_last(), k);
    }
}

/// The count that the map keeps is the number of its entries: no entry is lost or counted
/// twice.
pub proof fn lemma_count_is_len<V>(m: &SplitOrderedList<V>)
    requires
        m.wf(),
    ensures
        m.count_spec() == m@.len(),
        m@.dom().finite(),
{
}

/// The map holds exactly what its history of updates leaves: a key has a value when some
/// insert of it came after every delete of it, and the value is that of the first such
/// insert. Its count is the number of its entries.
pub proof fn lemma_map_follows_history<V>(m: &SplitOrderedList<V>, k: usize)
    requires
        m.wf(),
    ensures
        m@ == apply_all(m.history()),
        m@.contains_key(k) == last_write(m.history(), k) is Some,
        m@.contains_key(k) ==> last_write(m.history(), k) == Some(m@[k]),
        m.count_spec() == m@.len(),
{
    lemma_lookup_follows_history(m.history(), k);
}

/// The list holds at most one data node for each key.
pub proof fn lemma_unique_data_node<V>(m: &SplitOrderedList<V>, key: usize, i: int, j: int)
    requires
        m.wf(),
        0 <= i < m.num_nodes(),
        0 <= j < m.num_nodes(),
        m.node_key(i) == regular_key(key as nat),
        m.node_key(j) == regular_key(key as nat),
    ensures
        i == j,
{
    if i < j {
        assert(m.list@[i].key < m.list@[j].key);
    } else if j < i {
        assert(m.list@[j].key < m.list@[i].key);
    }
}

impl<V> View for SplitOrderedList<V> {
    type V = Map<usize, V>;

    /// Each valid key whose data node is in the list, with that node's value.
    closed spec fn view(&self) -> Map<usize, V> {
        Map::new(
            |k: usize| valid_key(k) && has_key(self.list@, regular_key(k as nat)),
            |k: usize| value_at(self.list@, regular_key(k as nat)),
        )
    }
}

} // verus!
