//! A binary min-heap of `(key, cell)` entries ordered by key alone.
//!
//! It is the priority queue of the marching front: entries with equal keys
//! are interchangeable, and `pop` hands out one entry of least key.
use vstd::prelude::*;
use vstd::seq_lib::group_to_multiset_ensures;
use vstd::multiset::Multiset;

verus! {

broadcast use group_to_multiset_ensures;

/// A heap entry: the key a cell was queued with, and the cell's flat index.
pub type Entry = (u64, usize);

/// Position of the parent of heap slot `i` (for `i > 0`).
pub open spec fn parent(i: int) -> int {
    (i - 1) / 2
}

/// Slot `i` holds a key no smaller than its parent's.
pub open spec fn parent_le(s: Seq<Entry>, i: int) -> bool {
    s[parent(i)].0 <= s[i].0
}

/// The heap order: every slot's key is at least its parent's.
pub open spec fn heap_ordered(s: Seq<Entry>) -> bool {
    forall|i: int| 0 < i < s.len() ==> #[trigger] parent_le(s, i)
}

/// Heap order everywhere except between slot `k` and its parent, with
/// `k`'s parent below `k`'s children (the state while an entry rises).
spec fn ordered_above(s: Seq<Entry>, k: int) -> bool {
    &&& forall|i: int| 0 < i < s.len() && i != k ==> #[trigger] parent_le(s, i)
    &&& forall|i: int|
        0 < i < s.len() && parent(i) == k && k > 0 ==> s[parent(k)].0 <= #[trigger] s[i].0
}

/// Heap order everywhere except between slot `k` and its children, with
/// `k`'s parent below `k`'s children (the state while an entry sinks).
spec fn ordered_below(s: Seq<Entry>, k: int) -> bool {
    &&& forall|i: int| 0 < i < s.len() && parent(i) != k ==> #[trigger] parent_le(s, i)
    &&& forall|i: int|
        0 < i < s.len() && parent(i) == k && k > 0 ==> s[parent(k)].0 <= #[trigger] s[i].0
}

/// Exchanging two slots.
spec fn swapped(s: Seq<Entry>, a: int, b: int) -> Seq<Entry> {
    s.update(a, s[b]).update(b, s[a])
}

/// Overwriting one slot removes its old entry and adds the new one.
proof fn lemma_update_to_multiset(s: Seq<Entry>, i: int, v: Entry)
    requires
        0 <= i < s.len(),
    ensures
        s.update(i, v).to_multiset() =~= s.to_multiset().remove(s[i]).insert(v),
{
    broadcast use vstd::multiset::group_multiset_axioms;

    let t = s.update(i, v);
    assert(t.remove(i) =~= s.remove(i));
    assert(t[i] == v);
    assert(t.contains(v));
    let mt = t.to_multiset();
    assert(mt.count(v) > 0);
    assert(mt.remove(v).insert(v) =~= mt);
}

/// Exchanging two slots keeps the same entries.
proof fn lemma_swap_to_multiset(s: Seq<Entry>, a: int, b: int)
    requires
        0 <= a < s.len(),
        0 <= b < s.len(),
    ensures
        swapped(s, a, b).to_multiset() =~= s.to_multiset(),
{
    broadcast use vstd::multiset::group_multiset_axioms;

    let s1 = s.update(a, s[b]);
    lemma_update_to_multiset(s, a, s[b]);
    lemma_update_to_multiset(s1, b, s[a]);
    if a == b {
        assert(s1 =~= s);
        assert(swapped(s, a, b) =~= s);
    } else {
        assert(s1[b] == s[b]);
        assert(s.contains(s[a]));
        assert(s.to_multiset().count(s[a]) > 0);
        assert(s.to_multiset().count(s[b]) > 0);
        assert(swapped(s, a, b).to_multiset() =~= s.to_multiset());
    }
}

/// In a heap-ordered sequence the first slot holds a least key.
pub proof fn lemma_first_is_least(s: Seq<Entry>, i: int)
    requires
        heap_ordered(s),
        0 <= i < s.len(),
    ensures
        s[0].0 <= s[i].0,
    decreases i,
{
    if i > 0 {
        assert(parent_le(s, i));
        lemma_first_is_least(s, parent(i));
    }
}

/// Successive pops come out in nondecreasing key order: an entry handed
/// out as least of `m` is no larger than any entry left after removing it.
pub proof fn lemma_pops_in_order(m: Multiset<Entry>, first: Entry, second: Entry)
    requires
        m.contains(first),
        forall|f: Entry| m.contains(f) ==> first.0 <= f.0,
        m.remove(first).contains(second),
    ensures
        first.0 <= second.0,
{
    broadcast use vstd::multiset::group_multiset_axioms;

    let one = Multiset::<Entry>::singleton(first);
    assert(m.remove(first) == m.sub(one));
    assert(m.sub(one).count(second) > 0);
    assert(one.count(second) <= 1);
    assert(m.contains(second));
}

/// A binary min-heap of entries.
pub struct MinHeap {
    items: Vec<Entry>,
}

impl MinHeap {
    /// The entries held, without order.
    pub closed spec fn contents(&self) -> Multiset<Entry> {
        self.items@.to_multiset()
    }

    /// The heap order holds.
    pub closed spec fn wf(&self) -> bool {
        heap_ordered(self.items@)
    }

    /// An empty heap.
    pub fn new() -> (h: Self)
        ensures
            h.wf(),
            h.contents() =~= Multiset::<Entry>::empty(),
    {
        let h = MinHeap { items: Vec::new() };
        proof {
            broadcast use vstd::multiset::group_multiset_axioms;

            assert(h.items@.to_multiset().len() == 0);
        }
        h
    }

    /// Number of entries held.
    pub fn len(&self) -> (r: usize)
        ensures
            r == self.contents().len(),
    {
        self.items.len()
    }

    /// Whether no entry is held.
    pub fn is_empty(&self) -> (r: bool)
        ensures
            r == (self.contents().len() == 0),
    {
        self.items.len() == 0
    }

    /// Every held entry has a key no smaller than the first slot's.
    proof fn lemma_first_below_contents(&self)
        requires
            self.wf(),
            self.items@.len() > 0,
        ensures
            forall|f: Entry| self.contents().contains(f) ==> self.items@[0].0 <= f.0,
    {
        assert forall|f: Entry| self.contents().contains(f) implies self.items@[0].0 <= f.0 by {
            assert(self.items@.contains(f));
            let j = choose|j: int| 0 <= j < self.items@.len() && self.items@[j] == f;
            lemma_first_is_least(self.items@, j);
        }
    }

    /// Move the entry at slot `k` up until its parent's key is no larger.
    fn sift_up(&mut self, k: usize)
        requires
            k < old(self).items@.len(),
            ordered_above(old(self).items@, k as int),
        ensures
            heap_ordered(final(self).items@),
            final(self).items@.to_multiset() == old(self).items@.to_multiset(),
            final(self).items@.len() == old(self).items@.len(),
    {
        let ghost m0 = self.items@.to_multiset();
        let mut k = k;
        while k > 0 && self.items[(k - 1) / 2].0 > self.items[k].0
            invariant
                k < self.items@.len(),
                ordered_above(self.items@, k as int),
                self.items@.to_multiset() == m0,
                self.items@.len() == old(self).items@.len(),
            decreases k,
        {
            let p = (k - 1) / 2;
            let ghost s = self.items@;
            let ek = self.items[k];
            let ep = self.items[p];
            self.items.set(p, ek);
            self.items.set(k, ep);
            proof {
                let t = self.items@;
                assert(t =~= swapped(s, p as int, k as int));
                lemma_swap_to_multiset(s, p as int, k as int);
                let pi = p as int;
                let ki = k as int;
                assert forall|i: int| 0 < i < t.len() && i != pi implies #[trigger] parent_le(
                    t,
                    i,
                ) by {
                    if i == ki {
                    } else if parent(i) == ki {
                    } else if parent(i) == pi {
                        assert(parent_le(s, i));
                    } else {
                        assert(parent_le(s, i));
                    }
                }
                assert forall|i: int|
                    0 < i < t.len() && parent(i) == pi && pi > 0 implies t[parent(pi)].0
                    <= #[trigger] t[i].0 by {
                    assert(parent_le(s, pi));
                    if i != ki {
                        assert(parent_le(s, i));
                    }
                }
            }
            k = p;
        }
        proof {
            let s = self.items@;
            assert forall|i: int| 0 < i < s.len() implies #[trigger] parent_le(s, i) by {
                if i == k as int {
                }
            }
        }
    }

    /// Move the entry at slot `k` down until no child's key is smaller.
    fn sift_down(&mut self, k: usize)
        requires
            k < old(self).items@.len(),
            ordered_below(old(self).items@, k as int),
        ensures
            heap_ordered(final(self).items@),
            final(self).items@.to_multiset() == old(self).items@.to_multiset(),
            final(self).items@.len() == old(self).items@.len(),
    {
        let ghost m0 = self.items@.to_multiset();
        let len = self.items.len();
        let mut k = k;
        loop
            invariant
                len == self.items@.len(),
                k < len,
                ordered_below(self.items@, k as int),
                self.items@.to_multiset() == m0,
            ensures
                heap_ordered(self.items@),
                self.items@.to_multiset() == m0,
                len == self.items@.len(),
            decreases len - k,
        {
            let ghost s = self.items@;
            if k >= len / 2 {
                proof {
                    assert forall|i: int| 0 < i < s.len() implies #[trigger] parent_le(s, i) by {}
                }
                break;
            }
            let l = 2 * k + 1;
            let mut m = l;
            if l + 1 < len && self.items[l + 1].0 < self.items[l].0 {
                m = l + 1;
            }
            if self.items[k].0 <= self.items[m].0 {
                proof {
                    assert forall|i: int| 0 < i < s.len() implies #[trigger] parent_le(s, i) by {
                        if parent(i) == k as int {
                        }
                    }
                }
                break;
            }
            let ek = self.items[k];
            let em = self.items[m];
            self.items.set(k, em);
            self.items.set(m, ek);
            proof {
                let t = self.items@;
                let ki = k as int;
                let mi = m as int;
                assert(t =~= swapped(s, ki, mi));
                lemma_swap_to_multiset(s, ki, mi);
                assert(parent(mi) == ki);
                assert forall|i: int| 0 < i < t.len() && parent(i) != mi implies #[trigger] parent_le(
                    t,
                    i,
                ) by {
                    if i == mi {
                    } else if parent(i) == ki {
                    } else if i == ki {
                    } else {
                        assert(parent_le(s, i));
                    }
                }
                assert forall|i: int|
                    0 < i < t.len() && parent(i) == mi && mi > 0 implies t[parent(mi)].0
                    <= #[trigger] t[i].0 by {
                    assert(parent_le(s, i));
                }
            }
            k = m;
        }
    }

    /// Add an entry.
    pub fn push(&mut self, e: Entry)
        requires
            old(self).wf(),
        ensures
            final(self).wf(),
            final(self).contents() =~= old(self).contents().insert(e),
    {
        let ghost s = self.items@;
        self.items.push(e);
        let k = self.items.len() - 1;
        proof {
            let t = self.items@;
            assert(t =~= s.push(e));
            assert forall|i: int| 0 < i < t.len() && i != k as int implies #[trigger] parent_le(
                t,
                i,
            ) by {
                assert(parent_le(s, i));
            }
        }
        self.sift_up(k);
    }

    /// Remove and return an entry of least key, or `None` when empty.
    pub fn pop(&mut self) -> (r: Option<Entry>)
        requires
            old(self).wf(),
        ensures
            final(self).wf(),
            old(self).contents().len() == 0 ==> r is None && final(self).contents()
                =~= old(self).contents(),
            old(self).contents().len() > 0 ==> (r matches Some(e) && old(self).contents().contains(
                e,
            ) && final(self).contents() =~= old(self).contents().remove(e) && (forall|f: Entry|
                old(self).contents().contains(f) ==> e.0 <= f.0)),
    {
        broadcast use vstd::multiset::group_multiset_axioms;

        let ghost s = self.items@;
        if self.items.len() == 0 {
            return None;
        }
        proof {
            self.lemma_first_below_contents();
        }
        let top = self.items[0];
        let last = self.items.pop().unwrap();
        proof {
            assert(s.remove(s.len() - 1) =~= self.items@);
            assert(s.contains(top));
        }
        if self.items.len() == 0 {
            proof {
                assert(s.to_multiset() =~= s.remove(0).to_multiset().insert(top));
                assert(heap_ordered(self.items@));
            }
            return Some(top);
        }
        let ghost s1 = self.items@;
        self.items.set(0, last);
        proof {
            let t = self.items@;
            lemma_update_to_multiset(s1, 0, last);
            assert(s1.to_multiset() =~= s.to_multiset().remove(last));
            assert(s1[0] == top);
            assert(t.to_multiset() =~= s.to_multiset().remove(top));
            assert forall|i: int| 0 < i < t.len() && parent(i) != 0 implies #[trigger] parent_le(
                t,
                i,
            ) by {
                assert(parent_le(s, i));
            }
        }
        self.sift_down(0);
        Some(top)
    }
}

} // verus!
