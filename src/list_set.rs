//! An ordered set of keys held as a strictly increasing list.
use vstd::prelude::*;

verus! {

/// Keys strictly increase along the list.
pub open spec fn increasing(s: Seq<u64>) -> bool {
    forall|i: int, j: int| 0 <= i < j < s.len() ==> s[i] < s[j]
}

/// Sorted singly linked list holding a set of keys.
pub struct OrderedListSet {
    list: Vec<u64>,
}

impl View for OrderedListSet {
    type V = Set<u64>;

    closed spec fn view(&self) -> Set<u64> {
        Set::new(|x: u64| self.list@.contains(x))
    }
}

/// Moves a cursor from the head to the position of `key`: the first element that is not
/// below it. Returns whether the key is there, and that position.
fn find_position(list: &Vec<u64>, key: u64) -> (r: (bool, usize))
    requires
        increasing(list@),
    ensures
        r.1 <= list.len(),
        forall|j: int| 0 <= j < r.1 ==> list@[j] < key,
        r.1 < list.len() ==> list@[r.1 as int] >= key,
        r.0 == list@.contains(key),
        r.0 ==> list@[r.1 as int] == key,
{
    let mut p: usize = 0;
    while p < list.len() && list[p] < key
        invariant
            p <= list.len(),
            forall|j: int| 0 <= j < p ==> list@[j] < key,
        decreases list.len() - p,
    {
        p = p + 1;
    }
    let found = p < list.len() && list[p] == key;
    proof {
        if list@.contains(key) {
            let i = choose|i: int| 0 <= i < list@.len() && list@[i] == key;
            if p < list.len() && i > p {
                assert(list@[p as int] < list@[i]);
            }
        }
    }
    (found, p)
}

impl OrderedListSet {
    /// The list is strictly increasing.
    pub closed spec fn wf(&self) -> bool {
        increasing(self.list@)
    }

    /// The keys in list order.
    pub closed spec fn elements(&self) -> Seq<u64> {
        self.list@
    }

    /// The keys in list order are the set's keys, each once, in increasing order.
    pub proof fn lemma_elements(&self)
        requires
            self.wf(),
        ensures
            increasing(self.elements()),
            self.elements().to_set() == self@,
    {
        assert(self.elements().to_set() =~= self@);
    }

    /// Creates a new list.
    pub fn new() -> (r: Self)
        ensures
            r.wf(),
            r@ == Set::<u64>::empty(),
            r.elements() == Seq::<u64>::empty(),
    {
        let r = OrderedListSet { list: Vec::new() };
        assert(r.elements() =~= Seq::<u64>::empty());
        assert(r@ =~= Set::<u64>::empty());
        r
    }

    /// Returns `true` if the set contains the key.
    pub fn contains(&self, key: &u64) -> (r: bool)
        requires
            self.wf(),
        ensures
            r == self@.contains(*key),
    {
        find_position(&self.list, *key).0
    }

    /// Insert a key to the set. If the set already has the key, return the provided key in
    /// `Err`.
    pub fn insert(&mut self, key: u64) -> (r: Result<(), u64>)
        requires
            old(self).wf(),
        ensures
            final(self).wf(),
            old(self)@.contains(key) ==> r == Err::<(), u64>(key) && final(self)@ == old(self)@,
            !old(self)@.contains(key) ==> r == Ok::<(), u64>(()) && final(self)@ == old(
            self)@.insert(key),
    {
        let (found, p) = find_position(&self.list, key);
        if found {
            return Err(key);
        }
        let ghost s = self.list@;
        self.list.insert(p, key);
        proof {
            let s2 = self.list@;
            assert(s2 == s.insert(p as int, key));
            assert forall|i: int, j: int| 0 <= i < j < s2.len() implies s2[i] < s2[j] by {
                if i < p && j > p && j - 1 > p {
                    assert(s[p as int] < s[j - 1]);
                }
                if i == p && j - 1 > p {
                    assert(s[p as int] < s[j - 1]);
                }
            }
            assert forall|x: u64| #[trigger] s2.contains(x) == (s.contains(x) || x == key) by {
                if s.contains(x) {
                    let i = choose|i: int| 0 <= i < s.len() && s[i] == x;
                    assert(s2[if i < p {
                        i
                    } else {
                        i + 1
                    }] == x);
                }
                if s2.contains(x) {
                    let j = choose|j: int| 0 <= j < s2.len() && s2[j] == x;
                    if j < p {
                        assert(s[j] == x);
                    } else if j > p {
                        assert(s[j - 1] == x);
                    }
                }
                if x == key {
                    assert(s2[p as int] == key);
                }
            }
            assert(self@ =~= old(self)@.insert(key));
        }
        Ok(())
    }

    /// Remove the key from the set and return it.
    pub fn remove(&mut self, key: &u64) -> (r: Result<u64, ()>)
        requires
            old(self).wf(),
        ensures
            final(self).wf(),
            old(self)@.contains(*key) ==> r == Ok::<u64, ()>(*key) && final(self)@ == old(
            self)@.remove(*key),
            !old(self)@.contains(*key) ==> r == Err::<u64, ()>(()) && final(self)@ == old(self)@,
    {
        let (found, p) = find_position(&self.list, *key);
        if !found {
            return Err(());
        }
        let ghost s = self.list@;
        let k = self.list.remove(p);
        proof {
            let s2 = self.list@;
            assert(s2 == s.remove(p as int));
            assert forall|i: int, j: int| 0 <= i < j < s2.len() implies s2[i] < s2[j] by {
                let a = if i < p {
                    i
                } else {
                    i + 1
                };
                let b = if j < p {
                    j
                } else {
                    j + 1
                };
                assert(s2[i] == s[a] && s2[j] == s[b]);
            }
            assert forall|x: u64| #[trigger] s2.contains(x) == (s.contains(x) && x != *key) by {
                if s.contains(x) && x != *key {
                    let i = choose|i: int| 0 <= i < s.len() && s[i] == x;
                    if i < p {
                        assert(s2[i] == x);
                    } else {
                        assert(s2[i - 1] == x);
                    }
                }
                if s2.contains(x) {
                    let j = choose|j: int| 0 <= j < s2.len() && s2[j] == x;
                    if j < p {
                        assert(s[j] == x);
                        assert(s[j] < s[p as int]);
                    } else {
                        assert(s[j + 1] == x);
                        assert(s[p as int] < s[j + 1]);
                    }
                }
            }
            assert(self@ =~= old(self)@.remove(*key));
        }
        Ok(k)
    }

    /// An iterator visiting all elements in increasing order.
    pub fn iter(&self) -> (r: Iter<'_>)
        requires
            self.wf(),
        ensures
            r.wf(),
            r.remaining() == self.elements(),
            increasing(r.remaining()),
            r.remaining().to_set() == self@,
    {
        let r = Iter { list: &self.list, pos: 0 };
        proof {
            assert(r.remaining() =~= self.list@);
            self.lemma_elements();
        }
        r
    }
}

impl Default for OrderedListSet {
    fn default() -> (r: Self)
        ensures
            r.wf(),
            r@ == Set::<u64>::empty(),
            r.elements() == Seq::<u64>::empty(),
    {
        Self::new()
    }
}

/// An iterator over the keys of an `OrderedListSet`, in increasing order.
pub struct Iter<'l> {
    list: &'l Vec<u64>,
    pos: usize,
}

impl<'l> Iter<'l> {
    /// The keys that the iterator has yet to visit.
    pub closed spec fn remaining(&self) -> Seq<u64> {
        self.list@.subrange(self.pos as int, self.list@.len() as int)
    }

    pub closed spec fn wf(&self) -> bool {
        self.pos <= self.list.len()
    }

    /// Returns the next key, or `None` once every key has been visited.
    pub fn next(&mut self) -> (r: Option<&'l u64>)
        requires
            old(self).wf(),
        ensures
            final(self).wf(),
            old(self).remaining().len() == 0 ==> r is None && final(self).remaining()
                == old(self).remaining(),
            old(self).remaining().len() > 0 ==> r == Some(&old(self).remaining()[0])
                && final(self).remaining() == old(self).remaining().drop_first(),
    {
        if self.pos < self.list.len() {
            let item = &self.list[self.pos];
            self.pos = self.pos + 1;
            proof {
                assert(self.remaining() =~= old(self).remaining().drop_first());
            }
            Some(item)
        } else {
            None
        }
    }
}

} // verus!
