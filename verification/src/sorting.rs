//! Stable ordering of items by a numeric key.

use vstd::prelude::*;

verus! {

/// `order` lists each index below `n` exactly once.
pub open spec fn is_permutation(order: Seq<usize>, n: nat) -> bool {
    &&& order.len() == n
    &&& order.no_duplicates()
    &&& forall|k: int| 0 <= k < order.len() ==> #[trigger] order[k] < n
    &&& forall|i: usize| i < n ==> #[trigger] order.contains(i)
}

/// `order` visits the indices of `keys` by ascending key, and indices with
/// equal keys in their own order: the order of a stable sort.
pub open spec fn sorts_stably(order: Seq<usize>, keys: Seq<u64>) -> bool {
    &&& is_permutation(order, keys.len())
    &&& forall|k: int, l: int|
        #![trigger order[k], order[l]]
        0 <= k < l < order.len() ==> {
            ||| keys[order[k] as int] < keys[order[l] as int]
            ||| (keys[order[k] as int] == keys[order[l] as int] && order[k] < order[l])
        }
}

/// The sort key that puts `key` first and the position `i` second.
pub open spec fn pair_key(key: u64, i: u64) -> u128 {
    ((key as u128) << 64u128) | (i as u128)
}

proof fn lemma_pair_key(a: u64, i: u64, b: u64, j: u64)
    ensures
        pair_key(a, i) & 0xffff_ffff_ffff_ffffu128 == i as u128,
        pair_key(a, i) < pair_key(b, j) <==> (a < b || (a == b && i < j)),
        pair_key(a, i) == pair_key(b, j) <==> (a == b && i == j),
{
    assert(pair_key(a, i) & 0xffff_ffff_ffff_ffffu128 == i as u128) by (bit_vector);
    assert(pair_key(a, i) < pair_key(b, j) <==> (a < b || (a == b && i < j))) by (bit_vector);
    assert(pair_key(a, i) == pair_key(b, j) <==> (a == b && i == j)) by (bit_vector);
}

/// `s` is strictly increasing.
pub open spec fn strictly_increasing(s: Seq<u128>) -> bool {
    forall|i: int, j: int| 0 <= i < j < s.len() ==> s[i] < s[j]
}

/// The distinct numbers of `v`, ascending.
fn sort_distinct(v: &Vec<u128>) -> (out: Vec<u128>)
    requires
        v@.no_duplicates(),
    ensures
        strictly_increasing(out@),
        out@.len() == v@.len(),
        forall|x: u128| #[trigger] out@.contains(x) <==> v@.contains(x),
{
    let mut out: Vec<u128> = Vec::new();
    let mut i: usize = 0;
    while i < v.len()
        invariant
            i <= v.len(),
            v@.no_duplicates(),
            out@.len() == i,
            strictly_increasing(out@),
            forall|x: u128| #[trigger] out@.contains(x) <==> v@.take(i as int).contains(x),
        decreases v.len() - i,
    {
        let x = v[i];
        let ghost before = v@.take(i as int);
        let ghost after = v@.take(i + 1);
        proof {
            assert(after =~= before.push(x));
            assert forall|y: u128| #[trigger] after.contains(y) <==> (before.contains(y) || y == x) by {
                if after.contains(y) && y != x {
                    let j = choose|j: int| 0 <= j < after.len() && after[j] == y;
                    assert(before[j] == y);
                }
                if before.contains(y) {
                    let j = choose|j: int| 0 <= j < before.len() && before[j] == y;
                    assert(after[j] == y);
                }
                if y == x {
                    assert(after[i as int] == y);
                }
            }
            assert(!out@.contains(x)) by {
                if before.contains(x) {
                    let j = choose|j: int| 0 <= j < before.len() && before[j] == x;
                    assert(v@[j] == v@[i as int]);
                }
            }
        }
        let mut j: usize = out.len();
        while j > 0 && out[j - 1] > x
            invariant
                j <= out.len(),
                forall|k: int| j <= k < out.len() ==> out@[k] > x,
            decreases j,
        {
            j = j - 1;
        }
        let ghost old_out = out@;
        proof {
            if j > 0 {
                assert(old_out[j - 1] != x);
                assert(old_out[j - 1] < x);
            }
        }
        out.insert(j, x);
        proof {
            assert forall|a: int, b: int| 0 <= a < b < out@.len() implies out@[a] < out@[b] by {
                if b < j {
                } else if b == j {
                    assert(old_out[a] <= old_out[j - 1]);
                } else if a < j {
                    assert(out@[b] == old_out[b - 1]);
                    if j > 0 {
                        assert(old_out[a] <= old_out[j - 1]);
                    }
                } else if a == j {
                    assert(out@[b] == old_out[b - 1]);
                } else {
                    assert(out@[a] == old_out[a - 1]);
                    assert(out@[b] == old_out[b - 1]);
                }
            }
            assert forall|y: u128| #[trigger] out@.contains(y) <==> (old_out.contains(y) || y == x) by {
                if out@.contains(y) {
                    let k = choose|k: int| 0 <= k < out@.len() && out@[k] == y;
                    if k < j {
                        assert(old_out[k] == y);
                    } else if k > j {
                        assert(old_out[k - 1] == y);
                    }
                }
                if old_out.contains(y) {
                    let k = choose|k: int| 0 <= k < old_out.len() && old_out[k] == y;
                    if k < j {
                        assert(out@[k] == y);
                    } else {
                        assert(out@[k + 1] == y);
                    }
                }
                if y == x {
                    assert(out@[j as int] == y);
                }
            }
        }
        i = i + 1;
    }
    assert(v@.take(i as int) =~= v@);
    out
}

/// The order in which a stable sort by `keys` visits the indices of `keys`.
pub fn stable_order(keys: &Vec<u64>) -> (order: Vec<usize>)
    requires
        keys.len() <= u64::MAX,
    ensures
        sorts_stably(order@, keys@),
{
    let n = keys.len();
    let mut pairs: Vec<u128> = Vec::new();
    let mut i: usize = 0;
    while i < n
        invariant
            i <= n == keys.len() <= u64::MAX,
            pairs@.len() == i,
            forall|k: int| 0 <= k < i ==> #[trigger] pairs@[k] == pair_key(keys@[k], k as u64),
        decreases n - i,
    {
        pairs.push(((keys[i] as u128) << 64u128) | (i as u64 as u128));
        i = i + 1;
    }
    assert(pairs@.no_duplicates()) by {
        assert forall|a: int, b: int| 0 <= a < pairs@.len() && 0 <= b < pairs@.len() && a != b implies pairs@[a] != pairs@[b] by {
            lemma_pair_key(keys@[a], a as u64, keys@[b], b as u64);
        }
    }
    let sorted = sort_distinct(&pairs);
    let mut order: Vec<usize> = Vec::new();
    let mut k: usize = 0;
    while k < n
        invariant
            k <= n == keys.len() == sorted@.len() == pairs@.len() <= u64::MAX,
            strictly_increasing(sorted@),
            forall|x: u128| #[trigger] sorted@.contains(x) <==> pairs@.contains(x),
            forall|m: int| 0 <= m < n ==> #[trigger] pairs@[m] == pair_key(keys@[m], m as u64),
            order@.len() == k,
            forall|m: int| 0 <= m < k ==> (#[trigger] order@[m] as int) < n && sorted@[m] == pair_key(keys@[order@[m] as int], order@[m] as u64),
        decreases n - k,
    {
        let p = sorted[k];
        proof {
            assert(sorted@.contains(p));
            let m = choose|m: int| 0 <= m < pairs@.len() && pairs@[m] == p;
            lemma_pair_key(keys@[m], m as u64, 0, 0);
            assert(p & 0xffff_ffff_ffff_ffffu128 == m as u128);
        }
        let idx = (p & 0xffff_ffff_ffff_ffffu128) as usize;
        proof {
            let m = choose|m: int| 0 <= m < pairs@.len() && pairs@[m] == p;
            assert(idx == m);
        }
        order.push(idx);
        k = k + 1;
    }
    proof {
        assert forall|a: int, b: int|
            #![trigger order@[a], order@[b]]
            0 <= a < b < order@.len() implies {
                ||| keys@[order@[a] as int] < keys@[order@[b] as int]
                ||| (keys@[order@[a] as int] == keys@[order@[b] as int] && order@[a] < order@[b])
            } by {
            assert(sorted@[a] < sorted@[b]);
            lemma_pair_key(
                keys@[order@[a] as int],
                order@[a] as u64,
                keys@[order@[b] as int],
                order@[b] as u64,
            );
        }
        assert forall|i: usize| i < n implies #[trigger] order@.contains(i) by {
            assert(pairs@[i as int] == pair_key(keys@[i as int], i as u64));
            assert(pairs@.contains(pairs@[i as int]));
            assert(sorted@.contains(pairs@[i as int]));
            let k = choose|k: int| 0 <= k < sorted@.len() && sorted@[k] == pairs@[i as int];
            lemma_pair_key(
                keys@[order@[k] as int],
                order@[k] as u64,
                keys@[i as int],
                i as u64,
            );
            assert(order@[k] == i);
        }
        assert forall|a: int, b: int| 0 <= a < order@.len() && 0 <= b < order@.len() && a != b implies order@[a] != order@[b] by {
            if a < b {
                assert(sorted@[a] < sorted@[b]);
            } else {
                assert(sorted@[b] < sorted@[a]);
            }
        }
    }
    order
}

/// The items of `items` in the order `order`.
pub fn arrange<T>(items: Vec<T>, order: &Vec<usize>) -> (out: Vec<T>)
    requires
        is_permutation(order@, items@.len()),
    ensures
        out@.len() == order@.len(),
        forall|k: int| 0 <= k < out@.len() ==> #[trigger] out@[k] == items@[order@[k] as int],
{
    let n = items.len();
    let ghost orig = items@;
    let mut items = items;
    let mut slots: Vec<Option<T>> = Vec::new();
    while items.len() > 0
        invariant
            items@.len() + slots@.len() == n == orig.len(),
            items@ == orig.take(items@.len() as int),
            forall|m: int| 0 <= m < slots@.len() ==> #[trigger] slots@[m] == Some(orig[n - 1 - m]),
        decreases items@.len(),
    {
        let x = items.pop().unwrap();
        slots.push(Some(x));
    }
    let mut out: Vec<T> = Vec::new();
    let mut k: usize = 0;
    while k < order.len()
        invariant
            k <= order@.len() == n == slots@.len() == orig.len(),
            is_permutation(order@, n as nat),
            out@.len() == k,
            forall|m: int| 0 <= m < k ==> #[trigger] out@[m] == orig[order@[m] as int],
            forall|m: int|
                0 <= m < n ==> (#[trigger] slots@[m] == Some(orig[n - 1 - m])
                    || order@.take(k as int).contains((n - 1 - m) as usize)),
        decreases order@.len() - k,
    {
        let i = order[k];
        let s = n - 1 - i;
        proof {
            if order@.take(k as int).contains(i) {
                let m = choose|m: int| 0 <= m < k && order@.take(k as int)[m] == i;
                assert(order@[m] == order@[k as int]);
            }
        }
        let mut slot: Option<T> = None;
        slots.set_and_swap(s, &mut slot);
        out.push(slot.unwrap());
        proof {
            assert forall|m: int| 0 <= m < n implies (#[trigger] slots@[m] == Some(orig[n - 1 - m])
                || order@.take(k + 1).contains((n - 1 - m) as usize)) by {
                if m == s {
                    assert(order@.take(k + 1)[k as int] == i);
                } else if order@.take(k as int).contains((n - 1 - m) as usize) {
                    let q = choose|q: int| 0 <= q < k && order@.take(k as int)[q] == (n - 1 - m) as usize;
                    assert(order@.take(k + 1)[q] == (n - 1 - m) as usize);
                }
            }
        }
        k = k + 1;
    }
    out
}

/// Putting the items of `s` in the order of a permutation keeps the same
/// items, each as many times.
pub proof fn lemma_arranged_same_items<A>(s: Seq<A>, p: Seq<usize>)
    requires
        s.len() <= usize::MAX,
        is_permutation(p, s.len()),
    ensures
        p.map_values(|i: usize| s[i as int]).to_multiset() =~= s.to_multiset(),
    decreases s.len(),
{
    broadcast use vstd::seq_lib::group_to_multiset_ensures;

    let n = s.len();
    let mp = p.map_values(|i: usize| s[i as int]);
    if n == 0 {
        assert(mp =~= Seq::<A>::empty());
        assert(s =~= Seq::<A>::empty());
    } else {
        let last = (n - 1) as usize;
        assert(p.contains(last));
        let k = choose|k: int| 0 <= k < p.len() && p[k] == last;
        let q = p.remove(k);
        let t = s.drop_last();
        assert forall|a: int| 0 <= a < q.len() implies #[trigger] q[a] < t.len() by {
            let b = if a < k {
                a
            } else {
                a + 1
            };
            assert(q[a] == p[b]);
            assert(b != k);
        }
        assert forall|i: usize| i < t.len() implies #[trigger] q.contains(i) by {
            assert(p.contains(i));
            let m = choose|m: int| 0 <= m < p.len() && p[m] == i;
            assert(m != k);
            if m < k {
                assert(q[m] == i);
            } else {
                assert(q[m - 1] == i);
            }
        }
        assert(is_permutation(q, t.len()));
        lemma_arranged_same_items(t, q);
        let mq = q.map_values(|i: usize| t[i as int]);
        assert(mp =~= mq.insert(k, s[n - 1]));
        assert(s =~= t.push(s[n - 1]));
    }
}

} // verus!
