use vstd::prelude::*;
use vstd::multiset::Multiset;

verus! {

broadcast use vstd::seq_lib::group_to_multiset_ensures;

/// A key type whose order a heap can rely on: `precedes` compares by an
/// integer rank.
pub trait HeapKey: Sized {
    /// The key's place in the order.
    spec fn rank(&self) -> int;

    /// Whether `self` comes no later than `other`.
    fn precedes(&self, other: &Self) -> (r: bool)
        ensures
            r == (self.rank() <= other.rank());
}

impl HeapKey for u32 {
    open spec fn rank(&self) -> int {
        *self as int
    }

    fn precedes(&self, other: &Self) -> (r: bool) {
        *self <= *other
    }
}

impl HeapKey for u64 {
    open spec fn rank(&self) -> int {
        *self as int
    }

    fn precedes(&self, other: &Self) -> (r: bool) {
        *self <= *other
    }
}

impl HeapKey for usize {
    open spec fn rank(&self) -> int {
        *self as int
    }

    fn precedes(&self, other: &Self) -> (r: bool) {
        *self <= *other
    }
}

impl HeapKey for i32 {
    open spec fn rank(&self) -> int {
        *self as int
    }

    fn precedes(&self, other: &Self) -> (r: bool) {
        *self <= *other
    }
}

impl HeapKey for i64 {
    open spec fn rank(&self) -> int {
        *self as int
    }

    fn precedes(&self, other: &Self) -> (r: bool) {
        *self <= *other
    }
}

/// `p` is held in `m` and its key is least among the keys held.
pub open spec fn least_in<K: HeapKey, V>(m: Multiset<(K, V)>, p: (K, V)) -> bool {
    &&& m.count(p) > 0
    &&& forall|q: (K, V)| #[trigger] m.count(q) > 0 ==> p.0.rank() <= q.0.rank()
}

/// `out` is what successive pops can hand out from a heap that holds `m`:
/// each pair one of least key among the pairs still held.
pub open spec fn drains<K: HeapKey, V>(m: Multiset<(K, V)>, out: Seq<(K, V)>) -> bool
    decreases out.len(),
{
    if out.len() == 0 {
        true
    } else {
        least_in(m, out[0]) && drains(m.remove(out[0]), out.drop_first())
    }
}

/// Popping a heap empty hands out its pairs in order of key, each pair
/// once: what comes out is sorted by key and is exactly what was held.
pub proof fn law_drain_sorted<K: HeapKey, V>(m: Multiset<(K, V)>, out: Seq<(K, V)>)
    requires
        drains(m, out),
        out.len() == m.len(),
    ensures
        forall|i: int, j: int| 0 <= i < j < out.len() ==> (#[trigger] out[i]).0.rank() <= (#[trigger] out[j]).0.rank(),
        out.to_multiset() =~= m,
    decreases out.len(),
{
    if out.len() == 0 {
        assert(m.len() == 0);
        vstd::multiset::lemma_multiset_empty_len(m);
        assert(out =~= Seq::<(K, V)>::empty());
    } else {
        let p = out[0];
        let rest = out.drop_first();
        assert(m.remove(p).len() == m.len() - 1);
        law_drain_sorted(m.remove(p), rest);
        assert(out =~= seq![p] + rest);
        assert(out.to_multiset() =~= rest.to_multiset().insert(p)) by {
            assert(out =~= rest.insert(0, p));
            vstd::seq_lib::to_multiset_insert(rest, 0, p);
        }
        assert forall|i: int, j: int| 0 <= i < j < out.len() implies (#[trigger] out[i]).0.rank() <= (#[trigger] out[j]).0.rank() by {
            assert(out[j] == rest[j - 1]);
            assert(rest.contains(rest[j - 1]));
            assert(m.remove(p).count(out[j]) > 0);
            assert(m.count(out[j]) > 0);
            if i > 0 {
                assert(out[i] == rest[i - 1]);
            }
        }
    }
}

/// A heap that starts empty and is pushed the pairs of `pushed`, in any
/// order, holds `pushed.to_multiset()` (each push inserts its pair); popping
/// it as many times as pairs were pushed hands them out sorted by key, each
/// pair with its own value and each once, after which it holds nothing.
pub proof fn law_pushes_then_pops<K: HeapKey, V>(pushed: Seq<(K, V)>, out: Seq<(K, V)>)
    requires
        drains(pushed.to_multiset(), out),
        out.len() == pushed.len(),
    ensures
        forall|i: int, j: int| 0 <= i < j < out.len() ==> (#[trigger] out[i]).0.rank() <= (#[trigger] out[j]).0.rank(),
        out.to_multiset() =~= pushed.to_multiset(),
        pushed.to_multiset().sub(out.to_multiset()).len() == 0,
{
    pushed.to_multiset_ensures();
    law_drain_sorted(pushed.to_multiset(), out);
    assert(pushed.to_multiset().sub(out.to_multiset()) =~= Multiset::empty());
}

/// Each push inserts one pair: pushing the pairs of `s` then `p` holds
/// those of `s` and `p`.
pub proof fn law_push_one_more<K: HeapKey, V>(s: Seq<(K, V)>, p: (K, V))
    ensures
        s.push(p).to_multiset() =~= s.to_multiset().insert(p),
{
    s.to_multiset_ensures();
}

/// A priority queue of key-value pairs that hands out a pair of least key
/// first. The pairs are kept in order of decreasing key, so that one of
/// least key is at the end.
pub struct MinHeap<K: HeapKey, V> {
    entries: Vec<(K, V)>,
}

impl<K: HeapKey, V> MinHeap<K, V> {
    #[verifier::type_invariant]
    spec fn decreasing(self) -> bool {
        forall|i: int, j: int| 0 <= i < j < self.entries@.len() ==> #[trigger] self.entries@[j].0.rank() <= #[trigger] self.entries@[i].0.rank()
    }

    /// The pairs held, with their multiplicities.
    pub closed spec fn items(&self) -> Multiset<(K, V)> {
        self.entries@.to_multiset()
    }

    /// `p` is a pair of least key among the pairs held.
    pub open spec fn is_least(&self, p: (K, V)) -> bool {
        least_in(self.items(), p)
    }

    /// The pair that the heap hands out next, when it holds any.
    pub closed spec fn front(&self) -> (K, V) {
        self.entries@.last()
    }

    /// The empty heap.
    pub fn new() -> (r: Self)
        ensures
            r.items() =~= Multiset::empty(),
    {
        let r = MinHeap { entries: Vec::new() };
        assert(r.entries@ =~= Seq::<(K, V)>::empty());
        r
    }

    /// Adds the pair `(key, value)`.
    pub fn push(&mut self, key: K, value: V)
        ensures
            final(self).items() =~= old(self).items().insert((key, value)),
    {
        proof {
            use_type_invariant(&*self);
        }
        let mut tmp = MinHeap { entries: Vec::new() };
        std::mem::swap(self, &mut tmp);
        let MinHeap { mut entries } = tmp;
        let ghost before = entries@;
        let mut pos: usize = 0;
        while pos < entries.len() && key.precedes(&entries[pos].0)
            invariant
                pos <= entries@.len(),
                entries@ == before,
                forall|i: int, j: int| 0 <= i < j < before.len() ==> #[trigger] before[j].0.rank() <= #[trigger] before[i].0.rank(),
                forall|i: int| 0 <= i < pos ==> key.rank() <= #[trigger] before[i].0.rank(),
            decreases entries.len() - pos,
        {
            pos += 1;
        }
        entries.insert(pos, (key, value));
        proof {
            let after = entries@;
            assert(after == before.insert(pos as int, (key, value)));
            before.insert_ensures(pos as int, (key, value));
            assert forall|i: int, j: int| 0 <= i < j < after.len() implies #[trigger] after[j].0.rank() <= #[trigger] after[i].0.rank() by {
                if j < pos {
                } else if j == pos {
                    assert(key.rank() <= before[i].0.rank());
                } else if i < pos {
                    assert(after[j] == before[j - 1]);
                    assert(before[j - 1].0.rank() <= before[i].0.rank());
                } else if i == pos {
                    assert(after[j] == before[j - 1]);
                    assert(!(key.rank() <= before[pos as int].0.rank()));
                    assert(before[j - 1].0.rank() <= before[pos as int].0.rank());
                } else {
                    assert(after[j] == before[j - 1] && after[i] == before[i - 1]);
                }
            }
            vstd::seq_lib::to_multiset_insert(before, pos as int, (key, value));
        }
        *self = MinHeap { entries };
    }

    /// Removes and returns a pair of least key; `None` when the heap is
    /// empty.
    pub fn pop(&mut self) -> (r: Option<(K, V)>)
        ensures
            r is None <==> old(self).items().len() == 0,
            r is None ==> final(self).items() == old(self).items(),
            r matches Some(p) ==> p == old(self).front() && old(self).is_least(p) && final(self).items()
                =~= old(self).items().remove(p),
    {
        proof {
            use_type_invariant(&*self);
        }
        let mut tmp = MinHeap { entries: Vec::new() };
        std::mem::swap(self, &mut tmp);
        let MinHeap { mut entries } = tmp;
        let ghost before = entries@;
        let r = entries.pop();
        proof {
            if before.len() > 0 {
                let last = before.len() - 1;
                assert(entries@ == before.remove(last));
                vstd::seq_lib::to_multiset_remove(before, last);
                let p = before[last];
                assert forall|q: (K, V)| #[trigger] before.to_multiset().count(q) > 0 implies p.0.rank() <= q.0.rank() by {
                    assert(before.contains(q));
                    let k = choose|k: int| 0 <= k < before.len() && before[k] == q;
                    if k < last {
                        assert(before[last].0.rank() <= before[k].0.rank());
                    }
                }
                assert(before.contains(p));
            } else {
                assert(before.to_multiset().len() == 0);
            }
            assert forall|i: int, j: int| 0 <= i < j < entries@.len() implies #[trigger] entries@[j].0.rank() <= #[trigger] entries@[i].0.rank() by {
                assert(entries@[j] == before[j] && entries@[i] == before[i]);
            }
        }
        *self = MinHeap { entries };
        r
    }

    /// A pair of least key, left in the heap; `None` when the heap is empty.
    pub fn peek(&mut self) -> (r: Option<(&K, &V)>)
        ensures
            *final(self) == *old(self),
            r is None <==> old(self).items().len() == 0,
            r matches Some(p) ==> (*p.0, *p.1) == old(self).front() && old(self).is_least((*p.0, *p.1)),
    {
        proof {
            use_type_invariant(&*self);
        }
        let n = self.entries.len();
        if n == 0 {
            assert(self.entries@.to_multiset().len() == 0);
            None
        } else {
            let p = &self.entries[n - 1];
            proof {
                let s = self.entries@;
                let last = s.len() - 1;
                assert forall|q: (K, V)| #[trigger] s.to_multiset().count(q) > 0 implies s[last].0.rank() <= q.0.rank() by {
                    assert(s.contains(q));
                    let k = choose|k: int| 0 <= k < s.len() && s[k] == q;
                    if k < last {
                        assert(s[last].0.rank() <= s[k].0.rank());
                    }
                }
                assert(s.contains(s[last]));
            }
            Some((&p.0, &p.1))
        }
    }

    /// The number of pairs held.
    pub fn len(&self) -> (r: usize)
        ensures
            r == self.items().len(),
    {
        self.entries.len()
    }
}

} // verus!
