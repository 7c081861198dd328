//! Stable sorting by a key: the order every listing in the app is shown in.

use vstd::prelude::*;

verus! {

/// A total preorder on keys, decided by `le`.
pub trait TotalOrder: Sized {
    spec fn key_le(self, other: Self) -> bool;

    proof fn lemma_total(a: Self, b: Self)
        ensures
            a.key_le(b) || b.key_le(a),
    ;

    proof fn lemma_trans(a: Self, b: Self, c: Self)
        requires
            a.key_le(b),
            b.key_le(c),
        ensures
            a.key_le(c),
    ;

    fn le(&self, other: &Self) -> (r: bool)
        ensures
            r == self.key_le(*other),
    ;
}

impl TotalOrder for i64 {
    open spec fn key_le(self, other: Self) -> bool {
        self <= other
    }

    proof fn lemma_total(a: Self, b: Self) {
    }

    proof fn lemma_trans(a: Self, b: Self, c: Self) {
    }

    fn le(&self, other: &Self) -> (r: bool) {
        *self <= *other
    }
}

impl TotalOrder for i128 {
    open spec fn key_le(self, other: Self) -> bool {
        self <= other
    }

    proof fn lemma_total(a: Self, b: Self) {
    }

    proof fn lemma_trans(a: Self, b: Self, c: Self) {
    }

    fn le(&self, other: &Self) -> (r: bool) {
        *self <= *other
    }
}

impl TotalOrder for String {
    open spec fn key_le(self, other: Self) -> bool {
        crate::text::lex_le(self@, other@)
    }

    proof fn lemma_total(a: Self, b: Self) {
        crate::text::lemma_lex_total(a@, b@);
    }

    proof fn lemma_trans(a: Self, b: Self, c: Self) {
        crate::text::lemma_lex_trans(a@, b@, c@);
    }

    fn le(&self, other: &Self) -> (r: bool) {
        crate::text::str_le(self.as_str(), other.as_str())
    }
}

/// `order` lists each of `0..n` exactly once.
pub open spec fn is_permutation(order: Seq<usize>, n: int) -> bool {
    &&& order.len() == n
    &&& forall|p: int| 0 <= p < n ==> #[trigger] order[p] < n
    &&& forall|p: int, q: int| 0 <= p < q < n ==> #[trigger] order[p] != #[trigger] order[q]
}

/// `order` sorts `keys` ascending, keeping equal keys in their original
/// relative order. (Exactly one order does.)
pub open spec fn is_stable_sort<K: TotalOrder>(keys: Seq<K>, order: Seq<usize>) -> bool {
    &&& is_permutation(order, keys.len() as int)
    &&& forall|p: int, q: int| 0 <= p < q < order.len() ==>
        (#[trigger] keys[order[p] as int]).key_le(#[trigger] keys[order[q] as int])
    &&& forall|p: int, q: int| 0 <= p < q < order.len() && keys[order[q] as int].key_le(keys[order[p] as int])
        ==> #[trigger] order[p] < #[trigger] order[q]
}

/// `items` rearranged so that position `p` holds `items[order[p]]`.
pub open spec fn reorder<T>(items: Seq<T>, order: Seq<usize>) -> Seq<T> {
    Seq::new(order.len(), |p: int| items[order[p] as int])
}

/// Sorts `items` stably by `keys` (`keys[i]` is the key of `items[i]`);
/// returns the sorted items and the permutation applied.
pub fn stable_sort<T, K: TotalOrder>(items: Vec<T>, keys: &Vec<K>) -> (r: (Vec<T>, Vec<usize>))
    requires
        items@.len() == keys@.len(),
    ensures
        is_stable_sort(keys@, r.1@),
        r.0@ == reorder(items@, r.1@),
{
    let ghost all = items@;
    let n = keys.len();
    let mut out: Vec<T> = Vec::new();
    let mut order: Vec<usize> = Vec::new();
    let mut i: usize = 0;
    for x in it: items.into_iter()
        invariant
            n == keys@.len(),
            all.len() == n,
            it.seq() == all,
            i == it.index(),
            i <= n,
            order@.len() == i,
            forall|p: int| 0 <= p < i ==> #[trigger] order@[p] < i,
            forall|p: int, q: int| 0 <= p < q < i ==> #[trigger] order@[p] != #[trigger] order@[q],
            forall|p: int, q: int| 0 <= p < q < i ==>
                (#[trigger] keys@[order@[p] as int]).key_le(#[trigger] keys@[order@[q] as int]),
            forall|p: int, q: int| 0 <= p < q < i && keys@[order@[q] as int].key_le(keys@[order@[p] as int])
                ==> #[trigger] order@[p] < #[trigger] order@[q],
            out@ == reorder(all, order@),
    {
        assert(i < n);
        // Insert after every placed key that is <= keys[i].
        let mut j: usize = 0;
        while j < i && keys[order[j]].le(&keys[i])
            invariant
                j <= i < n,
                n == keys@.len(),
                order@.len() == i,
                forall|p: int| 0 <= p < i ==> #[trigger] order@[p] < i,
                forall|p: int| 0 <= p < j ==> (#[trigger] keys@[order@[p] as int]).key_le(keys@[i as int]),
            decreases i - j,
        {
            j = j + 1;
        }
        let ghost old_order = order@;
        let ghost old_out = out@;
        proof {
            if j < i {
                K::lemma_total(keys@[old_order[j as int] as int], keys@[i as int]);
            }
            assert forall|q: int| j <= q < i implies
                keys@[i as int].key_le(#[trigger] keys@[old_order[q] as int])
                && !keys@[old_order[q] as int].key_le(keys@[i as int]) by {
                if j < q {
                    K::lemma_trans(keys@[i as int], keys@[old_order[j as int] as int], keys@[old_order[q] as int]);
                    if keys@[old_order[q] as int].key_le(keys@[i as int]) {
                        K::lemma_trans(keys@[old_order[j as int] as int], keys@[old_order[q] as int], keys@[i as int]);
                    }
                }
            }
        }
        order.insert(j, i);
        out.insert(j, x);
        proof {
            let no = order@;
            assert(no == old_order.insert(j as int, i));
            assert forall|p: int| 0 <= p < i + 1 implies #[trigger] no[p] < i + 1 by {
                if p < j { assert(no[p] == old_order[p]); }
                else if p > j { assert(no[p] == old_order[p - 1]); }
            }
            assert forall|p: int, q: int| 0 <= p < q < i + 1 implies #[trigger] no[p] != #[trigger] no[q] by {
                if p < j { assert(no[p] == old_order[p]); }
                else if p > j { assert(no[p] == old_order[p - 1]); }
                if q < j { assert(no[q] == old_order[q]); }
                else if q > j { assert(no[q] == old_order[q - 1]); }
            }
            assert forall|p: int, q: int| 0 <= p < q < i + 1 implies
                (#[trigger] keys@[no[p] as int]).key_le(#[trigger] keys@[no[q] as int]) by {
                if q < j {
                    assert(no[p] == old_order[p] && no[q] == old_order[q]);
                } else if q == j {
                    assert(no[p] == old_order[p]);
                } else if p < j {
                    assert(no[p] == old_order[p] && no[q] == old_order[q - 1]);
                    K::lemma_trans(keys@[old_order[p] as int], keys@[i as int], keys@[old_order[q - 1] as int]);
                } else if p == j {
                    assert(no[q] == old_order[q - 1]);
                } else {
                    assert(no[p] == old_order[p - 1] && no[q] == old_order[q - 1]);
                }
            }
            assert forall|p: int, q: int| 0 <= p < q < i + 1 && keys@[no[q] as int].key_le(keys@[no[p] as int])
                implies #[trigger] no[p] < #[trigger] no[q] by {
                if q < j {
                    assert(no[p] == old_order[p] && no[q] == old_order[q]);
                } else if q == j {
                    assert(no[p] == old_order[p]);
                } else if p < j {
                    assert(no[p] == old_order[p] && no[q] == old_order[q - 1]);
                } else if p == j {
                    assert(no[q] == old_order[q - 1]);
                } else {
                    assert(no[p] == old_order[p - 1] && no[q] == old_order[q - 1]);
                }
            }
            assert(x == all[i as int]);
            assert(out@ =~= reorder(all, no)) by {
                assert forall|p: int| 0 <= p < i + 1 implies out@[p] == all[no[p] as int] by {
                    if p < j { assert(no[p] == old_order[p]); }
                    else if p > j { assert(no[p] == old_order[p - 1]); }
                }
            }
        }
        i = i + 1;
    }
    (out, order)
}

} // verus!
