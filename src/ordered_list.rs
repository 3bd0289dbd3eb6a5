//! The shared ordered list of the split-ordered map, held as a vector of nodes sorted by
//! their list key. A cursor is a position in that vector.
use vstd::prelude::*;

verus! {

/// A node of the list: a bucket sentinel (no value) or a data node (a value).
pub struct Node<V> {
    pub key: u64,
    pub value: Option<V>,
}

/// List keys strictly increase along the list.
pub open spec fn sorted<V>(s: Seq<Node<V>>) -> bool {
    forall|i: int, j: int| 0 <= i < j < s.len() ==> s[i].key < s[j].key
}

/// Some node of the list has list key `t`.
pub open spec fn has_key<V>(s: Seq<Node<V>>, t: nat) -> bool {
    exists|i: int| 0 <= i < s.len() && s[i].key as nat == t
}

/// The position of the node with list key `t`.
pub open spec fn key_index<V>(s: Seq<Node<V>>, t: nat) -> int {
    choose|i: int| 0 <= i < s.len() && s[i].key as nat == t
}

/// The value held by the node with list key `t`.
pub open spec fn value_at<V>(s: Seq<Node<V>>, t: nat) -> V {
    match s[key_index(s, t)].value {
        Some(v) => v,
        None => arbitrary(),
    }
}

/// The number of data nodes in the list.
pub open spec fn live_count<V>(s: Seq<Node<V>>) -> nat
    decreases s.len(),
{
    if s.len() == 0 {
        0
    } else {
        live_count(s.drop_last()) + if s.last().value is Some {
            1nat
        } else {
            0nat
        }
    }
}

/// In a sorted list, the node at position `i` is the one that its key names.
pub proof fn lemma_key_index<V>(s: Seq<Node<V>>, i: int)
    requires
        sorted(s),
        0 <= i < s.len(),
    ensures
        has_key(s, s[i].key as nat),
        key_index(s, s[i].key as nat) == i,
{
    let t = s[i].key as nat;
    assert(has_key(s, t));
    let j = key_index(s, t);
    if j < i {
        assert(s[j].key < s[i].key);
    } else if j > i {
        assert(s[i].key < s[j].key);
    }
}

pub proof fn lemma_live_count_bound<V>(s: Seq<Node<V>>)
    ensures
        live_count(s) <= s.len(),
    decreases s.len(),
{
    if s.len() > 0 {
        lemma_live_count_bound(s.drop_last());
    }
}

pub proof fn lemma_live_count_insert<V>(s: Seq<Node<V>>, q: int, n: Node<V>)
    requires
        0 <= q <= s.len(),
    ensures
        live_count(s.insert(q, n)) == live_count(s) + if n.value is Some {
            1nat
        } else {
            0nat
        },
    decreases s.len(),
{
    let s2 = s.insert(q, n);
    if q == s.len() {
        assert(s2.drop_last() =~= s);
    } else {
        assert(s2.drop_last() =~= s.drop_last().insert(q, n));
        lemma_live_count_insert(s.drop_last(), q, n);
    }
}

pub proof fn lemma_live_count_remove<V>(s: Seq<Node<V>>, q: int)
    requires
        0 <= q < s.len(),
    ensures
        live_count(s) == live_count(s.remove(q)) + if s[q].value is Some {
            1nat
        } else {
            0nat
        },
    decreases s.len(),
{
    let s2 = s.remove(q);
    if q == s.len() - 1 {
        assert(s2 =~= s.drop_last());
    } else {
        assert(s2.drop_last() =~= s.drop_last().remove(q));
        lemma_live_count_remove(s.drop_last(), q);
    }
}

/// A node inserted at the place that `find_from` reports keeps the list sorted.
pub proof fn lemma_insert_sorted<V>(s: Seq<Node<V>>, q: int, n: Node<V>)
    requires
        sorted(s),
        0 <= q <= s.len(),
        forall|j: int| 0 <= j < q ==> s[j].key < n.key,
        q < s.len() ==> s[q].key > n.key,
    ensures
        sorted(s.insert(q, n)),
{
    let s2 = s.insert(q, n);
    assert forall|i: int, j: int| 0 <= i < j < s2.len() implies s2[i].key < s2[j].key by {
        if i < q && j > q && j - 1 > q {
            assert(s[q].key < s[j - 1].key);
        }
        if i == q && j - 1 > q {
            assert(s[q].key < s[j - 1].key);
        }
    }
}

/// Inserting a node keeps every other key, with its value, and places the new key at `q`.
pub proof fn lemma_insert_node<V>(s: Seq<Node<V>>, q: int, n: Node<V>)
    requires
        sorted(s),
        0 <= q <= s.len(),
        sorted(s.insert(q, n)),
    ensures
        has_key(s.insert(q, n), n.key as nat),
        key_index(s.insert(q, n), n.key as nat) == q,
        forall|t: nat|
            t != n.key ==> #[trigger] has_key(s.insert(q, n), t) == has_key(s, t) && (has_key(s, t)
                ==> value_at(s.insert(q, n), t) == value_at(s, t)),
        live_count(s.insert(q, n)) == live_count(s) + if n.value is Some {
            1nat
        } else {
            0nat
        },
{
    let s2 = s.insert(q, n);
    lemma_key_index(s2, q);
    lemma_live_count_insert(s, q, n);
    assert forall|t: nat| t != n.key implies #[trigger] has_key(s2, t) == has_key(s, t) && (has_key(
        s,
        t,
    ) ==> value_at(s2, t) == value_at(s, t)) by {
        if has_key(s, t) {
            let i = key_index(s, t);
            lemma_key_index(s, i);
            let j = if i < q {
                i
            } else {
                i + 1
            };
            assert(s2[j] == s[i]);
            lemma_key_index(s2, j);
        }
        if has_key(s2, t) {
            let j = key_index(s2, t);
            let i = if j < q {
                j
            } else {
                j - 1
            };
            assert(s2[j] == s[i]);
        }
    }
}

/// Removing the node at `q` keeps every other key, with its value.
pub proof fn lemma_remove_node<V>(s: Seq<Node<V>>, q: int)
    requires
        sorted(s),
        0 <= q < s.len(),
    ensures
        sorted(s.remove(q)),
        !has_key(s.remove(q), s[q].key as nat),
        forall|t: nat|
            t != s[q].key ==> #[trigger] has_key(s.remove(q), t) == has_key(s, t) && (has_key(s, t)
                ==> value_at(s.remove(q), t) == value_at(s, t)),
        live_count(s) == live_count(s.remove(q)) + if s[q].value is Some {
            1nat
        } else {
            0nat
        },
{
    let s2 = s.remove(q);
    lemma_live_count_remove(s, q);
    assert(sorted(s2)) by {
        assert forall|i: int, j: int| 0 <= i < j < s2.len() implies s2[i].key < s2[j].key by {
            let a = if i < q {
                i
            } else {
                i + 1
            };
            let b = if j < q {
                j
            } else {
                j + 1
            };
            assert(s2[i] == s[a] && s2[j] == s[b]);
        }
    }
    if has_key(s2, s[q].key as nat) {
        let j = key_index(s2, s[q].key as nat);
        let i = if j < q {
            j
        } else {
            j + 1
        };
        assert(s2[j] == s[i]);
    }
    assert forall|t: nat| t != s[q].key implies #[trigger] has_key(s2, t) == has_key(s, t) && (
    has_key(s, t) ==> value_at(s2, t) == value_at(s, t)) by {
        if has_key(s, t) {
            let i = key_index(s, t);
            lemma_key_index(s, i);
            let j = if i < q {
                i
            } else {
                i - 1
            };
            assert(s2[j] == s[i]);
            lemma_key_index(s2, j);
        }
        if has_key(s2, t) {
            let j = key_index(s2, t);
            let i = if j < q {
                j
            } else {
                j + 1
            };
            assert(s2[j] == s[i]);
        }
    }
}

/// Searches forward from the cursor `start` for list key `key`. Returns whether the key is
/// present and the position of the first node whose key is not below it: the node itself
/// when found, else the place where a node with that key would be inserted.
pub fn find_from<V>(list: &Vec<Node<V>>, start: usize, key: u64) -> (r: (bool, usize))
    requires
        sorted(list@),
        start <= list.len(),
        forall|j: int| 0 <= j < start ==> list@[j].key < key,
    ensures
        start <= r.1 <= list.len(),
        forall|j: int| 0 <= j < r.1 ==> list@[j].key < key,
        r.1 < list.len() ==> list@[r.1 as int].key >= key,
        r.0 == (r.1 < list.len() && list@[r.1 as int].key == key),
        r.0 == has_key(list@, key as nat),
{
    let mut p = start;
    while p < list.len() && list[p].key < key
        invariant
            start <= p <= list.len(),
            forall|j: int| 0 <= j < p ==> list@[j].key < key,
        decreases list.len() - p,
    {
        p = p + 1;
    }
    let found = p < list.len() && list[p].key == key;
    proof {
        if has_key(list@, key as nat) {
            let i = key_index(list@, key as nat);
            if p < list.len() && i > p {
                assert(list@[p as int].key < list@[i].key);
            }
        }
    }
    (found, p)
}

} // verus!
