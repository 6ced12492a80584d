//! A priority queue of distances: a binary heap in a vector, least first.

use vstd::prelude::*;

verus! {

/// An entry of the queue: a distance and the place of the node it is for.
pub type Entry = (u128, usize);

/// The place above `k` in the heap.
pub open spec fn parent(k: int) -> int {
    (k - 1) / 2
}

/// Whether the entry at `j` is no less than the one above it.
pub open spec fn fits(s: Seq<Entry>, j: int) -> bool {
    s[parent(j)].0 <= s[j].0
}

/// Whether the entry at `j` is no less than the one above `k`.
pub open spec fn clears(s: Seq<Entry>, k: int, j: int) -> bool {
    s[parent(k)].0 <= s[j].0
}

/// Whether no entry is less than the one above it.
pub open spec fn heap_ordered(s: Seq<Entry>) -> bool {
    forall|j: int| 0 < j < s.len() ==> #[trigger] fits(s, j)
}

/// Whether no entry but the one at `k` is less than the one above it, while
/// the entries below `k` are no less than the entry above `k`.
pub open spec fn ordered_but_above(s: Seq<Entry>, k: int) -> bool {
    &&& forall|j: int| 0 < j < s.len() && j != k ==> #[trigger] fits(s, j)
    &&& forall|j: int| 0 < j < s.len() && parent(j) == k && k > 0 ==> #[trigger] clears(s, k, j)
}

/// Whether no entry is less than the one above it, but for the entries just
/// below `k`, which are no less than the entry above `k`.
pub open spec fn ordered_but_below(s: Seq<Entry>, k: int) -> bool {
    &&& forall|j: int| 0 < j < s.len() && parent(j) != k ==> #[trigger] fits(s, j)
    &&& forall|j: int| 0 < j < s.len() && parent(j) == k && k > 0 ==> #[trigger] clears(s, k, j)
}

/// In an ordered heap no entry is less than the first.
pub proof fn lemma_first_is_least(s: Seq<Entry>, k: int)
    requires
        heap_ordered(s),
        0 <= k < s.len(),
    ensures
        s[0].0 <= s[k].0,
    decreases k,
{
    if k > 0 {
        assert(fits(s, k));
        lemma_first_is_least(s, parent(k));
    }
}

/// Exchanging two entries keeps what a sequence contains.
pub proof fn lemma_exchange_keeps(s: Seq<Entry>, a: int, b: int)
    requires
        0 <= a < s.len(),
        0 <= b < s.len(),
    ensures
        forall|y: Entry| #[trigger]
            s.update(a, s[b]).update(b, s[a]).contains(y) <==> s.contains(y),
{
    let t = s.update(a, s[b]).update(b, s[a]);
    assert forall|y: Entry| #[trigger] t.contains(y) <==> s.contains(y) by {
        if t.contains(y) {
            let i = choose|i: int| 0 <= i < t.len() && t[i] == y;
            if i == a {
                assert(s[b] == y);
            } else if i == b {
                assert(s[a] == y);
            } else {
                assert(s[i] == y);
            }
        }
        if s.contains(y) {
            let i = choose|i: int| 0 <= i < s.len() && s[i] == y;
            if i == a {
                assert(t[b] == y);
            } else if i == b {
                assert(t[a] == y);
            } else {
                assert(t[i] == y);
            }
        }
    }
}

/// A queue that hands out its entries least distance first.
pub(crate) struct MinHeap {
    items: Vec<Entry>,
}

impl MinHeap {
    /// Whether the heap is in order.
    pub closed spec fn wf(&self) -> bool {
        heap_ordered(self.items@)
    }

    /// Whether `x` is queued.
    pub closed spec fn holds(&self, x: Entry) -> bool {
        self.items@.contains(x)
    }

    /// How many entries are queued.
    pub closed spec fn size(&self) -> nat {
        self.items@.len()
    }

    /// An empty queue.
    pub fn new() -> (h: Self)
        ensures
            h.wf(),
            h.size() == 0,
            forall|x: Entry| !h.holds(x),
    {
        MinHeap { items: Vec::new() }
    }

    /// Queues `x`.
    pub fn push(&mut self, x: Entry)
        requires
            old(self).wf(),
        ensures
            final(self).wf(),
            final(self).size() == old(self).size() + 1,
            forall|y: Entry| final(self).holds(y) <==> old(self).holds(y) || y == x,
    {
        let ghost before = self.items@;
        self.items.push(x);
        let ghost pushed = self.items@;
        proof {
            assert forall|y: Entry| pushed.contains(y) <==> before.contains(y) || y == x by {
                if pushed.contains(y) {
                    let i = choose|i: int| 0 <= i < pushed.len() && pushed[i] == y;
                    if i < before.len() {
                        assert(before[i] == y);
                    }
                }
                if before.contains(y) {
                    let i = choose|i: int| 0 <= i < before.len() && before[i] == y;
                    assert(pushed[i] == y);
                }
                if y == x {
                    assert(pushed[before.len() as int] == y);
                }
            }
            assert forall|j: int| 0 < j < pushed.len() && j != before.len() implies #[trigger] fits(
                pushed,
                j,
            ) by {
                assert(fits(before, j));
            }
        }
        let mut k: usize = self.items.len() - 1;
        loop
            invariant
                k < self.items@.len(),
                self.items@.len() == pushed.len(),
                ordered_but_above(self.items@, k as int),
                forall|y: Entry| self.items@.contains(y) <==> pushed.contains(y),
            ensures
                heap_ordered(self.items@),
                self.items@.len() == pushed.len(),
                forall|y: Entry| self.items@.contains(y) <==> pushed.contains(y),
            decreases k,
        {
            if k == 0 {
                proof {
                    let s = self.items@;
                    assert forall|j: int| 0 < j < s.len() implies #[trigger] fits(s, j) by {
                        assert(fits(s, j));
                    }
                }
                break;
            }
            let p: usize = (k - 1) / 2;
            let above = self.items[p];
            let here = self.items[k];
            if above.0 <= here.0 {
                proof {
                    let s = self.items@;
                    assert forall|j: int| 0 < j < s.len() implies #[trigger] fits(s, j) by {
                        if j != k {
                            assert(fits(s, j));
                        }
                    }
                }
                break;
            }
            let ghost s = self.items@;
            proof {
                lemma_exchange_keeps(s, p as int, k as int);
            }
            self.items.set(p, here);
            self.items.set(k, above);
            proof {
                let t = self.items@;
                assert(t == s.update(p as int, s[k as int]).update(k as int, s[p as int]));
                assert forall|j: int| 0 < j < t.len() && j != p implies #[trigger] fits(t, j) by {
                    if j == k {
                    } else if parent(j) == p {
                        assert(fits(s, j));
                    } else if parent(j) == k {
                        assert(clears(s, k as int, j));
                    } else {
                        assert(fits(s, j));
                    }
                }
                assert forall|j: int|
                    0 < j < t.len() && parent(j) == p && p > 0 implies #[trigger] clears(
                    t,
                    p as int,
                    j,
                ) by {
                    assert(fits(s, p as int));
                    if j != k {
                        assert(fits(s, j));
                    }
                }
            }
            k = p;
        }
    }

    /// Takes the entry with the least distance out of the queue.
    pub fn pop(&mut self) -> (r: Option<Entry>)
        requires
            old(self).wf(),
        ensures
            final(self).wf(),
            match r {
                None => {
                    &&& old(self).size() == 0
                    &&& final(self).size() == 0
                    &&& forall|y: Entry| !old(self).holds(y)
                    &&& forall|y: Entry| !final(self).holds(y)
                },
                Some(x) => {
                    &&& old(self).holds(x)
                    &&& final(self).size() + 1 == old(self).size()
                    &&& forall|y: Entry| old(self).holds(y) ==> x.0 <= y.0
                    &&& forall|y: Entry| final(self).holds(y) ==> old(self).holds(y)
                    &&& forall|y: Entry| old(self).holds(y) && y != x ==> final(self).holds(y)
                },
            },
    {
        let ghost before = self.items@;
        let last = match self.items.pop() {
            Some(last) => last,
            None => {
                return None;
            },
        };
        proof {
            assert forall|y: Entry| before.contains(y) implies before[0].0 <= y.0 by {
                let i = choose|i: int| 0 <= i < before.len() && before[i] == y;
                lemma_first_is_least(before, i);
            }
        }
        if self.items.len() == 0 {
            proof {
                assert forall|y: Entry| before.contains(y) implies y == last by {
                    let i = choose|i: int| 0 <= i < before.len() && before[i] == y;
                    assert(i == 0);
                }
                assert(before[0] == last);
                assert(before.contains(last));
            }
            return Some(last);
        }
        let first = self.items[0];
        self.items.set(0, last);
        let ghost moved = self.items@;
        proof {
            assert(before.contains(first)) by {
                assert(before[0] == first);
            }
            assert forall|y: Entry| moved.contains(y) implies before.contains(y) by {
                let i = choose|i: int| 0 <= i < moved.len() && moved[i] == y;
                if i == 0 {
                    assert(before[before.len() - 1] == y);
                } else {
                    assert(before[i] == y);
                }
            }
            assert forall|y: Entry| before.contains(y) && y != first implies moved.contains(y) by {
                let i = choose|i: int| 0 <= i < before.len() && before[i] == y;
                if i == before.len() - 1 {
                    assert(moved[0] == y);
                } else {
                    assert(moved[i] == y);
                }
            }
            assert forall|j: int| 0 < j < moved.len() && parent(j) != 0 implies #[trigger] fits(
                moved,
                j,
            ) by {
                assert(fits(before, j));
            }
        }
        let n: usize = self.items.len();
        let mut k: usize = 0;
        loop
            invariant
                n == self.items@.len(),
                n == moved.len(),
                k < n,
                ordered_but_below(self.items@, k as int),
                forall|y: Entry| self.items@.contains(y) <==> moved.contains(y),
            ensures
                heap_ordered(self.items@),
                n == self.items@.len(),
                forall|y: Entry| self.items@.contains(y) <==> moved.contains(y),
            decreases n - k,
        {
            if k >= n / 2 {
                proof {
                    let s = self.items@;
                    assert forall|j: int| 0 < j < s.len() implies #[trigger] fits(s, j) by {
                        assert(parent(j) != k);
                        assert(fits(s, j));
                    }
                }
                break;
            }
            let left: usize = 2 * k + 1;
            let right: usize = left + 1;
            let m: usize = if right < n && self.items[right].0 < self.items[left].0 {
                right
            } else {
                left
            };
            let here = self.items[k];
            let below = self.items[m];
            if here.0 <= below.0 {
                proof {
                    let s = self.items@;
                    assert forall|j: int| 0 < j < s.len() implies #[trigger] fits(s, j) by {
                        if parent(j) == k {
                            assert(j == left || j == right);
                        } else {
                            assert(fits(s, j));
                        }
                    }
                }
                break;
            }
            let ghost s = self.items@;
            proof {
                lemma_exchange_keeps(s, k as int, m as int);
            }
            self.items.set(k, below);
            self.items.set(m, here);
            proof {
                let t = self.items@;
                assert(t == s.update(k as int, s[m as int]).update(m as int, s[k as int]));
                assert forall|j: int| 0 < j < t.len() && parent(j) != m implies #[trigger] fits(
                    t,
                    j,
                ) by {
                    if parent(j) == k {
                        assert(j == left || j == right);
                    } else if j == k {
                        assert(clears(s, k as int, m as int));
                    } else {
                        assert(fits(s, j));
                    }
                }
                assert forall|j: int|
                    0 < j < t.len() && parent(j) == m && m > 0 implies #[trigger] clears(
                    t,
                    m as int,
                    j,
                ) by {
                    assert(fits(s, j));
                }
            }
            k = m;
        }
        Some(first)
    }
}

} // verus!
