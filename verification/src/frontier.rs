//! The search frontier: a binary min-heap of `(f, x, y)` entries, least first
//! in lexicographic order.

use vstd::multiset::Multiset;
use vstd::prelude::*;

verus! {

/// A frontier entry: the estimate `f` under which the cell `(x, y)` was
/// pushed.
#[derive(Clone, Copy, Debug)]
pub struct Entry {
    pub f: i32,
    pub x: i32,
    pub y: i32,
}

impl Entry {
    /// The entry as a triple of integers.
    pub open spec fn key(self) -> (int, int, int) {
        (self.f as int, self.x as int, self.y as int)
    }
}

/// Lexicographic order on triples: by `f`, then `x`, then `y`.
pub open spec fn key_le(a: (int, int, int), b: (int, int, int)) -> bool {
    a.0 < b.0 || (a.0 == b.0 && (a.1 < b.1 || (a.1 == b.1 && a.2 <= b.2)))
}

/// `k` occurs in `m` and nothing in `m` comes before it.
pub open spec fn is_least(m: Multiset<(int, int, int)>, k: (int, int, int)) -> bool {
    m.count(k) > 0 && forall|t: (int, int, int)| m.count(t) > 0 ==> key_le(k, t)
}

/// A multiset has at most one least element.
pub proof fn lemma_least_unique(m: Multiset<(int, int, int)>, a: (int, int, int), b: (int, int, int))
    requires
        is_least(m, a),
        is_least(m, b),
    ensures
        a == b,
{
    assert(key_le(a, b));
    assert(key_le(b, a));
}

/// Every non-empty multiset has a least element.
pub proof fn lemma_least_exists(m: Multiset<(int, int, int)>) -> (k: (int, int, int))
    requires
        m.len() > 0,
    ensures
        is_least(m, k),
    decreases m.len(),
{
    broadcast use vstd::multiset::group_multiset_axioms;

    let x = m.choose();
    let rest = m.remove(x);
    assert(m.count(x) > 0);
    assert(rest.len() == m.len() - 1);
    if rest.len() == 0 {
        assert forall|t: (int, int, int)| m.count(t) > 0 implies key_le(x, t) by {
            if t != x {
                assert(rest.count(t) == m.count(t));
                assert(rest.count(t) <= rest.len());
            }
        }
        x
    } else {
        let r = lemma_least_exists(rest);
        let k = if key_le(x, r) {
            x
        } else {
            r
        };
        assert forall|t: (int, int, int)| m.count(t) > 0 implies key_le(k, t) by {
            if t != x {
                assert(rest.count(t) == m.count(t));
                assert(key_le(r, t));
            }
        }
        assert(m.count(r) >= rest.count(r));
        k
    }
}

/// The triples of a sequence of entries.
pub open spec fn keys(s: Seq<Entry>) -> Seq<(int, int, int)> {
    s.map_values(|e: Entry| e.key())
}

/// Every entry but the first is no less than its parent in the implicit
/// binary tree.
pub open spec fn heap_ordered(s: Seq<Entry>) -> bool {
    forall|j: int| 1 <= j < s.len() ==> key_le(s[(j - 1) / 2].key(), #[trigger] s[j].key())
}

/// As `heap_ordered`, but the entry at `i` may be less than its parent;
/// its children are still no less than its parent.
spec fn ordered_but_above(s: Seq<Entry>, i: int) -> bool {
    &&& forall|j: int| 1 <= j < s.len() && j != i ==> key_le(s[(j - 1) / 2].key(), #[trigger] s[j].key())
    &&& forall|j: int|
        1 <= j < s.len() && (j - 1) / 2 == i && i >= 1 ==> key_le(
            s[(i - 1) / 2].key(),
            #[trigger] s[j].key(),
        )
}

/// As `heap_ordered`, but the entry at `i` may be greater than its children;
/// its children are still no less than its parent.
spec fn ordered_but_below(s: Seq<Entry>, i: int) -> bool {
    &&& forall|j: int|
        1 <= j < s.len() && (j - 1) / 2 != i ==> key_le(s[(j - 1) / 2].key(), #[trigger] s[j].key())
    &&& forall|j: int|
        1 <= j < s.len() && (j - 1) / 2 == i && i >= 1 ==> key_le(
            s[(i - 1) / 2].key(),
            #[trigger] s[j].key(),
        )
}

proof fn lemma_root_least(s: Seq<Entry>, j: int)
    requires
        heap_ordered(s),
        0 <= j < s.len(),
    ensures
        key_le(s[0].key(), s[j].key()),
    decreases j,
{
    if j > 0 {
        lemma_root_least(s, (j - 1) / 2);
        assert(key_le(s[(j - 1) / 2].key(), s[j].key()));
    }
}

proof fn lemma_root_is_least(s: Seq<Entry>)
    requires
        heap_ordered(s),
        s.len() > 0,
    ensures
        is_least(keys(s).to_multiset(), s[0].key()),
{
    broadcast use vstd::seq_lib::group_to_multiset_ensures;

    let k = keys(s);
    let m = k.to_multiset();
    assert(k[0] == s[0].key());
    assert(k.contains(k[0]));
    assert forall|t: (int, int, int)| m.count(t) > 0 implies key_le(s[0].key(), t) by {
        assert(k.contains(t));
        let j = choose|j: int| 0 <= j < k.len() && k[j] == t;
        lemma_root_least(s, j);
    }
}

proof fn lemma_push_keys(s: Seq<Entry>, e: Entry)
    ensures
        keys(s.push(e)).to_multiset() == keys(s).to_multiset().insert(e.key()),
{
    broadcast use vstd::seq_lib::group_to_multiset_ensures;

    assert(keys(s.push(e)) =~= keys(s).push(e.key()));
}

proof fn lemma_swap_keys(s: Seq<Entry>, i: int, j: int)
    requires
        0 <= i < s.len(),
        0 <= j < s.len(),
    ensures
        keys(s.update(i, s[j]).update(j, s[i])).to_multiset() == keys(s).to_multiset(),
{
    broadcast use vstd::seq_lib::group_to_multiset_ensures;
    broadcast use vstd::multiset::group_multiset_axioms;

    let k = keys(s);
    let m = k.to_multiset();
    let k1 = k.update(i, k[j]);
    let k2 = k1.update(j, k[i]);
    assert(keys(s.update(i, s[j]).update(j, s[i])) =~= k2);
    assert(k.contains(k[i]));
    assert(k.contains(k[j]));
    assert(k1.to_multiset() == m.insert(k[j]).remove(k[i]));
    assert(k1[j] == k[j]);
    assert(k2.to_multiset() == k1.to_multiset().insert(k[i]).remove(k[j]));
    assert(k2.to_multiset() =~= m);
}

proof fn lemma_take_root_keys(s: Seq<Entry>)
    requires
        s.len() > 0,
    ensures
        s.len() == 1 ==> keys(s.subrange(0, s.len() - 1)).to_multiset() == keys(s).to_multiset().remove(
            s[0].key(),
        ),
        s.len() > 1 ==> keys(s.subrange(0, s.len() - 1).update(0, s[s.len() - 1])).to_multiset() == keys(
            s,
        ).to_multiset().remove(s[0].key()),
{
    broadcast use vstd::seq_lib::group_to_multiset_ensures;
    broadcast use vstd::multiset::group_multiset_axioms;

    let n = s.len() as int;
    let k = keys(s);
    let m = k.to_multiset();
    let k1 = k.remove(n - 1);
    assert(keys(s.subrange(0, n - 1)) =~= k1);
    assert(k.contains(k[n - 1]));
    assert(k.contains(k[0]));
    assert(k1.to_multiset() == m.remove(k[n - 1]));
    if n > 1 {
        let k2 = k1.update(0, k[n - 1]);
        assert(keys(s.subrange(0, n - 1).update(0, s[n - 1])) =~= k2);
        assert(k1[0] == k[0]);
        assert(k2.to_multiset() == k1.to_multiset().insert(k[n - 1]).remove(k[0]));
        assert(k2.to_multiset() =~= m.remove(k[0]));
    }
}

/// Whether `a` comes strictly before `b`.
pub fn precedes(a: &Entry, b: &Entry) -> (r: bool)
    ensures
        r == (key_le(a.key(), b.key()) && a.key() != b.key()),
        !r ==> key_le(b.key(), a.key()),
{
    a.f < b.f || (a.f == b.f && (a.x < b.x || (a.x == b.x && a.y < b.y)))
}

/// A priority queue of entries that hands out the least entry first.
#[derive(Debug)]
pub struct Frontier {
    entries: Vec<Entry>,
}

impl Frontier {
    /// The entries held, as triples, each as often as it was pushed and not
    /// yet popped.
    pub closed spec fn view(&self) -> Multiset<(int, int, int)> {
        keys(self.entries@).to_multiset()
    }

    /// The entries are laid out as a heap.
    pub closed spec fn wf(&self) -> bool {
        heap_ordered(self.entries@)
    }

    /// An empty frontier.
    pub fn new() -> (r: Frontier)
        ensures
            r.wf(),
            r@ == Multiset::<(int, int, int)>::empty(),
    {
        let r = Frontier { entries: Vec::new() };
        proof {
            broadcast use vstd::seq_lib::group_to_multiset_ensures;

            assert(keys(r.entries@) =~= Seq::<(int, int, int)>::empty());
            assert(r@.len() == 0);
            assert(r@ =~= Multiset::<(int, int, int)>::empty());
        }
        r
    }

    /// The number of entries held.
    pub fn len(&self) -> (n: usize)
        ensures
            n == self@.len(),
    {
        proof {
            broadcast use vstd::seq_lib::group_to_multiset_ensures;

        }
        self.entries.len()
    }

    /// Whether no entry is held.
    pub fn is_empty(&self) -> (r: bool)
        ensures
            r == (self@.len() == 0),
    {
        self.len() == 0
    }

    /// Adds an entry.
    pub fn push(&mut self, e: Entry)
        requires
            old(self).wf(),
        ensures
            final(self).wf(),
            final(self)@ == old(self)@.insert(e.key()),
    {
        proof {
            lemma_push_keys(self.entries@, e);
        }
        self.entries.push(e);
        let mut i: usize = self.entries.len() - 1;
        while i > 0 && precedes(&self.entries[i], &self.entries[(i - 1) / 2])
            invariant
                i < self.entries@.len(),
                keys(self.entries@).to_multiset() == old(self)@.insert(e.key()),
                ordered_but_above(self.entries@, i as int),
            decreases i,
        {
            let parent: usize = (i - 1) / 2;
            let child_entry = self.entries[i];
            let parent_entry = self.entries[parent];
            proof {
                lemma_swap_keys(self.entries@, i as int, parent as int);
            }
            let ghost before = self.entries@;
            self.entries.set(i, parent_entry);
            self.entries.set(parent, child_entry);
            proof {
                let after = self.entries@;
                assert(after == before.update(i as int, before[parent as int]).update(
                    parent as int,
                    before[i as int],
                ));
                assert forall|j: int| 1 <= j < after.len() && j != parent implies key_le(
                    after[(j - 1) / 2].key(),
                    #[trigger] after[j].key(),
                ) by {
                    if j != i && (j - 1) / 2 != i && (j - 1) / 2 != parent {
                        assert(key_le(before[(j - 1) / 2].key(), before[j].key()));
                    } else if j != i && (j - 1) / 2 == parent {
                        assert(key_le(before[(j - 1) / 2].key(), before[j].key()));
                    } else if (j - 1) / 2 == i {
                        assert(key_le(before[(i - 1) / 2].key(), before[j].key()));
                    }
                }
                assert forall|j: int|
                    1 <= j < after.len() && (j - 1) / 2 == parent && parent >= 1 implies key_le(
                    after[(parent - 1) / 2].key(),
                    #[trigger] after[j].key(),
                ) by {
                    assert(key_le(before[(parent - 1) / 2].key(), before[parent as int].key()));
                    if j != i {
                        assert(key_le(before[(j - 1) / 2].key(), before[j].key()));
                    }
                }
            }
            i = parent;
        }
        proof {
            let s = self.entries@;
            assert forall|j: int| 1 <= j < s.len() implies key_le(s[(j - 1) / 2].key(), #[trigger] s[j].key()) by {
                if j != i {
                    assert(key_le(s[(j - 1) / 2].key(), s[j].key()));
                }
            }
        }
    }

    /// Removes and returns the least entry, if there is any.
    pub fn pop(&mut self) -> (r: Option<Entry>)
        requires
            old(self).wf(),
        ensures
            final(self).wf(),
            match r {
                None => old(self)@.len() == 0 && final(self)@ == old(self)@,
                Some(e) => is_least(old(self)@, e.key()) && final(self)@ == old(self)@.remove(e.key()),
            },
    {
        let n: usize = self.entries.len();
        if n == 0 {
            proof {
                broadcast use vstd::seq_lib::group_to_multiset_ensures;

            }
            return None;
        }
        proof {
            lemma_root_is_least(self.entries@);
            lemma_take_root_keys(self.entries@);
        }
        let ghost before = self.entries@;
        let top = self.entries[0];
        let last = self.entries.pop();
        if n == 1 {
            return Some(top);
        }
        match last {
            Some(moved) => {
                self.entries.set(0, moved);
            },
            None => {},
        }
        let len: usize = n - 1;
        proof {
            let s = self.entries@;
            assert(s == before.subrange(0, n - 1).update(0, before[n - 1]));
            assert forall|j: int| 1 <= j < s.len() && (j - 1) / 2 != 0 implies key_le(
                s[(j - 1) / 2].key(),
                #[trigger] s[j].key(),
            ) by {
                assert(key_le(before[(j - 1) / 2].key(), before[j].key()));
            }
        }
        let mut i: usize = 0;
        let mut settled: bool = false;
        while !settled
            invariant
                len == self.entries@.len(),
                i < len,
                keys(self.entries@).to_multiset() == old(self)@.remove(top.key()),
                !settled ==> ordered_but_below(self.entries@, i as int),
                settled ==> heap_ordered(self.entries@),
            decreases
                    (len - i) + (if settled {
                        0int
                    } else {
                        1int
                    }),
        {
            if len - 1 - i <= i {
                settled = true;
                proof {
                    let s = self.entries@;
                    assert forall|j: int| 1 <= j < s.len() implies key_le(s[(j - 1) / 2].key(), #[trigger] s[j].key()) by {
                        assert((j - 1) / 2 != i);
                    }
                }
            } else {
                let left: usize = 2 * i + 1;
                let right: usize = left + 1;
                let mut least: usize = left;
                if right < len && precedes(&self.entries[right], &self.entries[left]) {
                    least = right;
                }
                if precedes(&self.entries[least], &self.entries[i]) {
                    let child_entry = self.entries[least];
                    let parent_entry = self.entries[i];
                    proof {
                        lemma_swap_keys(self.entries@, i as int, least as int);
                    }
                    let ghost s0 = self.entries@;
                    self.entries.set(i, child_entry);
                    self.entries.set(least, parent_entry);
                    proof {
                        let s = self.entries@;
                        assert(s == s0.update(i as int, s0[least as int]).update(least as int, s0[i as int]));
                        assert forall|j: int| 1 <= j < s.len() && (j - 1) / 2 != least implies key_le(
                            s[(j - 1) / 2].key(),
                            #[trigger] s[j].key(),
                        ) by {
                            if j == i {
                                assert(key_le(s0[(i - 1) / 2].key(), s0[least as int].key()));
                            } else if (j - 1) / 2 == i {
                                assert(j == left || j == right);
                            } else {
                                assert(key_le(s0[(j - 1) / 2].key(), s0[j].key()));
                            }
                        }
                        assert forall|j: int|
                            1 <= j < s.len() && (j - 1) / 2 == least && least >= 1 implies key_le(
                            s[(least - 1) / 2].key(),
                            #[trigger] s[j].key(),
                        ) by {
                            assert(key_le(s0[(j - 1) / 2].key(), s0[j].key()));
                        }
                    }
                    i = least;
                } else {
                    settled = true;
                    proof {
                        let s = self.entries@;
                        assert forall|j: int| 1 <= j < s.len() implies key_le(
                            s[(j - 1) / 2].key(),
                            #[trigger] s[j].key(),
                        ) by {
                            if (j - 1) / 2 == i {
                                assert(j == left || j == right);
                            }
                        }
                    }
                }
            }
        }
        Some(top)
    }
}

} // verus!
