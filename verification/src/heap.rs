//! A binary heap of pairs that hands out the least pair first.

use vstd::multiset::Multiset;
use vstd::prelude::*;

verus! {

/// `a` comes no later than `b` in the order of pairs: by the first component, then the second.
pub open spec fn pair_le(a: (u32, u32), b: (u32, u32)) -> bool {
    a.0 < b.0 || (a.0 == b.0 && a.1 <= b.1)
}

fn less(a: (u32, u32), b: (u32, u32)) -> (r: bool)
    ensures
        r == !pair_le(b, a),
{
    a.0 < b.0 || (a.0 == b.0 && a.1 < b.1)
}

pub struct MinHeap {
    items: Vec<(u32, u32)>,
}

/// Parent of node `i` in the implicit tree.
spec fn up(i: int) -> int {
    (i - 1) / 2
}

/// No node is before its parent, except that node `hole` may be.
spec fn heap_but(s: Seq<(u32, u32)>, hole: int) -> bool {
    forall|i: int| 0 < i < s.len() && i != hole ==> pair_le(s[up(i)], #[trigger] s[i])
}

/// No child of node `i` is before the parent of `i`.
spec fn skips_ok(s: Seq<(u32, u32)>, i: int) -> bool {
    i > 0 ==> forall|c: int| 0 < c < s.len() && up(c) == i ==> pair_le(s[up(i)], #[trigger] s[c])
}

/// No node is before its parent, except that children of `hole` may be before it.
spec fn heap_above(s: Seq<(u32, u32)>, hole: int) -> bool {
    forall|i: int| 0 < i < s.len() && up(i) != hole ==> pair_le(s[up(i)], #[trigger] s[i])
}

spec fn is_heap(s: Seq<(u32, u32)>) -> bool {
    forall|i: int| 0 < i < s.len() ==> pair_le(s[up(i)], #[trigger] s[i])
}

proof fn lemma_root_least(s: Seq<(u32, u32)>, i: int)
    requires
        is_heap(s),
        0 <= i < s.len(),
    ensures
        pair_le(s[0], s[i]),
    decreases i,
{
    if i > 0 {
        lemma_root_least(s, up(i));
        assert(pair_le(s[up(i)], s[i]));
    }
}

proof fn lemma_swap_multiset(s: Seq<(u32, u32)>, i: int, j: int)
    requires
        0 <= i < s.len(),
        0 <= j < s.len(),
    ensures
        s.update(i, s[j]).update(j, s[i]).to_multiset() == s.to_multiset(),
{
    broadcast use vstd::seq_lib::group_to_multiset_ensures;

    let t = s.update(i, s[j]);
    let m = s.to_multiset();
    assert(t.to_multiset() =~= m.remove(s[i]).insert(s[j]));
    assert(t.update(j, s[i]).to_multiset() =~= t.to_multiset().remove(t[j]).insert(s[i]));
    assert(m.count(s[i]) > 0) by {
        assert(s.contains(s[i]));
    }
    assert(m.count(s[j]) > 0) by {
        assert(s.contains(s[j]));
    }
    if i == j {
        assert(s.update(i, s[j]).update(j, s[i]) =~= s);
    } else {
        assert(t[j] == s[j]);
        assert(m.remove(s[i]).insert(s[j]).remove(s[j]).insert(s[i]) =~= m);
    }
}

impl View for MinHeap {
    type V = Multiset<(u32, u32)>;

    closed spec fn view(&self) -> Multiset<(u32, u32)> {
        self.items@.to_multiset()
    }
}

impl MinHeap {
    #[verifier::type_invariant]
    spec fn inv(self) -> bool {
        is_heap(self.items@)
    }

    pub fn new() -> (r: Self)
        ensures
            r@ == Multiset::<(u32, u32)>::empty(),
    {
        broadcast use vstd::seq_lib::group_to_multiset_ensures;

        let items: Vec<(u32, u32)> = Vec::new();
        let r = MinHeap { items };
        proof {
            assert(r.items@.to_multiset() =~= Multiset::<(u32, u32)>::empty()) by {
                r.items@.to_multiset_ensures();
                assert(r.items@.to_multiset().len() == 0);
            }
        }
        r
    }

    /// Adds a pair.
    pub fn push(&mut self, item: (u32, u32))
        ensures
            final(self)@ == old(self)@.insert(item),
    {
        broadcast use vstd::seq_lib::group_to_multiset_ensures;

        let mut items: Vec<(u32, u32)> = Vec::new();
        proof {
            use_type_invariant(&*self);
        }
        std::mem::swap(&mut self.items, &mut items);
        let ghost before = items@;
        items.push(item);
        assert(items@.to_multiset() == before.to_multiset().insert(item));
        let mut i: usize = items.len() - 1;
        while i > 0 && less(items[i], items[(i - 1) / 2])
            invariant
                i < items@.len(),
                items@.to_multiset() == before.to_multiset().insert(item),
                heap_but(items@, i as int),
                skips_ok(items@, i as int),
            decreases i,
        {
            let p: usize = (i - 1) / 2;
            let a = items[i];
            let b = items[p];
            let ghost s = items@;
            items[i] = b;
            items[p] = a;
            proof {
                lemma_swap_multiset(s, i as int, p as int);
                let t = items@;
                assert(t =~= s.update(i as int, s[p as int]).update(p as int, s[i as int]));
                assert forall|k: int| 0 < k < t.len() && k != p implies pair_le(
                    t[up(k)],
                    #[trigger] t[k],
                ) by {
                    if k == i {
                    } else if up(k) == i {
                        assert(pair_le(s[up(i as int)], s[k]));
                    } else if up(k) == p {
                        assert(pair_le(s[up(k)], s[k]));
                    } else {
                        assert(pair_le(s[up(k)], s[k]));
                    }
                }
                if p > 0 {
                    assert forall|c: int| 0 < c < t.len() && up(c) == p implies pair_le(
                        t[up(p as int)],
                        #[trigger] t[c],
                    ) by {
                        assert(pair_le(s[up(p as int)], s[p as int]));
                        if c != i {
                            assert(pair_le(s[up(c)], s[c]));
                        }
                    }
                }
            }
            i = p;
        }
        assert(is_heap(items@)) by {
            assert forall|k: int| 0 < k < items@.len() implies pair_le(
                items@[up(k)],
                #[trigger] items@[k],
            ) by {}
        }
        *self = MinHeap { items };
    }

    /// Removes a least pair.
    pub fn pop(&mut self) -> (r: Option<(u32, u32)>)
        ensures
            r is None <==> old(self)@.len() == 0,
            r is None ==> final(self)@ == old(self)@,
            r matches Some(x) ==> {
                &&& old(self)@.count(x) > 0
                &&& final(self)@ == old(self)@.remove(x)
                &&& forall|y: (u32, u32)| old(self)@.count(y) > 0 ==> #[trigger] pair_le(x, y)
            },
    {
        broadcast use vstd::seq_lib::group_to_multiset_ensures;

        let mut items: Vec<(u32, u32)> = Vec::new();
        proof {
            use_type_invariant(&*self);
        }
        let ghost old_items = self.items@;
        std::mem::swap(&mut self.items, &mut items);
        if items.len() == 0 {
            *self = MinHeap { items };
            return None;
        }
        let least = items[0];
        proof {
            assert(old_items.contains(least)) by {
                assert(old_items[0] == least);
            }
            assert forall|y: (u32, u32)| old_items.to_multiset().count(y) > 0 implies
                #[trigger] pair_le(least, y) by {
                assert(old_items.contains(y));
                let k = choose|k: int| 0 <= k < old_items.len() && old_items[k] == y;
                lemma_root_least(old_items, k);
            }
        }
        let n: usize = items.len() - 1;
        let last = items[n];
        items[0] = last;
        proof {
            let t = items@;
            lemma_swap_multiset(old_items, 0, n as int);
            let swapped = old_items.update(0, last).update(n as int, least);
            assert(t.take(n as int) =~= swapped.take(n as int));
            assert(swapped =~= swapped.take(n as int).push(least));
            assert(swapped.to_multiset() =~= swapped.take(n as int).to_multiset().insert(least));
            assert(t.take(n as int).to_multiset() =~= old_items.to_multiset().remove(least));
        }
        items.truncate(n);
        assert(items@.to_multiset() == old_items.to_multiset().remove(least));
        let mut i: usize = 0;
        proof {
            assert forall|k: int| 0 < k < items@.len() && up(k) != 0 implies pair_le(
                items@[up(k)],
                #[trigger] items@[k],
            ) by {
                assert(pair_le(old_items[up(k)], old_items[k]));
            }
        }
        while 2 * (i as u128) + 1 < items.len() as u128
            invariant
                i <= items@.len(),
                items@.to_multiset() == old_items.to_multiset().remove(least),
                old(self)@ == old_items.to_multiset(),
                old(self)@.count(least) > 0,
                old(self)@.len() > 0,
                forall|y: (u32, u32)| old(self)@.count(y) > 0 ==> #[trigger] pair_le(least, y),
                heap_above(items@, i as int),
                skips_ok(items@, i as int),
            decreases items@.len() - i,
        {
            let left: usize = 2 * i + 1;
            let mut c: usize = left;
            if left + 1 < items.len() && less(items[left + 1], items[left]) {
                c = left + 1;
            }
            assert(up(c as int) == i);
            let ghost s = items@;
            assert forall|k: int| 0 < k < s.len() && up(k) == i implies pair_le(
                s[c as int],
                #[trigger] s[k],
            ) by {
                assert(k == left || k == left + 1);
            }
            if !less(items[c], items[i]) {
                assert(is_heap(items@)) by {
                    assert forall|k: int| 0 < k < s.len() implies pair_le(
                        s[up(k)],
                        #[trigger] s[k],
                    ) by {
                        if up(k) == i {
                            assert(pair_le(s[c as int], s[k]));
                        }
                    }
                }
                *self = MinHeap { items };
                return Some(least);
            }
            let a = items[i];
            let b = items[c];
            items[i] = b;
            items[c] = a;
            proof {
                lemma_swap_multiset(s, i as int, c as int);
                let t = items@;
                assert(t =~= s.update(i as int, s[c as int]).update(c as int, s[i as int]));
                assert forall|k: int| 0 < k < t.len() && up(k) != c implies pair_le(
                    t[up(k)],
                    #[trigger] t[k],
                ) by {
                    if k == c {
                    } else if up(k) == i {
                        assert(pair_le(s[c as int], s[k]));
                    } else if k == i {
                        assert(pair_le(s[up(i as int)], s[c as int]));
                    } else {
                        assert(pair_le(s[up(k)], s[k]));
                    }
                }
                assert forall|k: int| 0 < k < t.len() && up(k) == c implies pair_le(
                    t[up(c as int)],
                    #[trigger] t[k],
                ) by {
                    assert(pair_le(s[up(k)], s[k]));
                }
            }
            i = c;
        }
        assert(is_heap(items@)) by {
            assert forall|k: int| 0 < k < items@.len() implies pair_le(
                items@[up(k)],
                #[trigger] items@[k],
            ) by {}
        }
        *self = MinHeap { items };
        Some(least)
    }
}

} // verus!
