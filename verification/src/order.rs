//! Stable orders: by integer key, and by name.
use crate::paths;
use crate::paths::names_in_order;
use vstd::prelude::*;

verus! {

/// The places `order` with the place `i` put behind every place that may stand
/// before it, from the end on.
pub open spec fn placed(order: Seq<int>, leq: spec_fn(int, int) -> bool, i: int) -> Seq<int>
    decreases order.len(),
{
    if order.len() == 0 || leq(order.last(), i) {
        order.push(i)
    } else {
        placed(order.drop_last(), leq, i).push(order.last())
    }
}

/// The places below `n` in the order `leq`; of places that may stand either way
/// the earlier comes first.
pub open spec fn order_of(n: nat, leq: spec_fn(int, int) -> bool) -> Seq<int>
    decreases n,
{
    if n == 0 {
        Seq::empty()
    } else {
        placed(order_of((n - 1) as nat, leq), leq, n - 1)
    }
}

/// The order of places by their keys.
pub open spec fn by_key(keys: Seq<i128>) -> spec_fn(int, int) -> bool {
    |a: int, b: int| keys[a] <= keys[b]
}

/// The order of places by their names.
pub open spec fn by_name(names: Seq<Seq<char>>) -> spec_fn(int, int) -> bool {
    |a: int, b: int| paths::no_later(names[a], names[b])
}

/// The places of `keys`, smallest key first.
pub open spec fn key_order(keys: Seq<i128>) -> Seq<int> {
    order_of(keys.len(), by_key(keys))
}

/// The places of `names`, in dictionary order.
pub open spec fn name_order(names: Seq<Seq<char>>) -> Seq<int> {
    order_of(names.len(), by_name(names))
}

/// The items of `rows` at the places `order`.
pub open spec fn arranged<T>(rows: Seq<T>, order: Seq<int>) -> Seq<T> {
    order.map_values(|i: int| rows[i])
}

/// Whether the place `a` belongs before the place `b`.
pub open spec fn comes_before(leq: spec_fn(int, int) -> bool, a: int, b: int) -> bool {
    leq(a, b) && (leq(b, a) ==> a < b)
}

/// Whether `leq` orders the places below `n`.
pub open spec fn orders(n: nat, leq: spec_fn(int, int) -> bool) -> bool {
    &&& forall|a: int, b: int| 0 <= a < n && 0 <= b < n ==> #[trigger] leq(a, b) || leq(b, a)
    &&& forall|a: int, b: int, c: int|
        0 <= a < n && 0 <= b < n && 0 <= c < n && #[trigger] leq(a, b) && #[trigger] leq(b, c)
            ==> leq(a, c)
}

/// Putting the place `i` into an order of the places below it.
proof fn lemma_placed(order: Seq<int>, leq: spec_fn(int, int) -> bool, i: int, n: nat)
    requires
        0 <= i < n,
        orders(n, leq),
        forall|k: int| 0 <= k < order.len() ==> 0 <= #[trigger] order[k] < i,
        forall|j: int, k: int|
            0 <= j < k < order.len() ==> comes_before(leq, #[trigger] order[j], #[trigger] order[k]),
    ensures
        placed(order, leq, i).len() == order.len() + 1,
        forall|k: int|
            0 <= k <= order.len() ==> #[trigger] placed(order, leq, i)[k] == i || order.contains(
                placed(order, leq, i)[k],
            ),
        forall|j: int, k: int|
            0 <= j < k <= order.len() ==> comes_before(
                leq,
                #[trigger] placed(order, leq, i)[j],
                #[trigger] placed(order, leq, i)[k],
            ),
        forall|p: int| order.contains(p) || p == i ==> #[trigger] placed(order, leq, i).contains(p),
    decreases order.len(),
{
    let r = placed(order, leq, i);
    let m = order.len();
    if m == 0 || leq(order.last(), i) {
        assert forall|p: int| order.contains(p) || p == i implies #[trigger] r.contains(p) by {
            if p == i {
                assert(r[m as int] == i);
            } else {
                let k = choose|k: int| 0 <= k < m && order[k] == p;
                assert(r[k] == p);
            }
        }
        assert forall|j: int, k: int| 0 <= j < k <= m implies comes_before(
            leq,
            #[trigger] r[j],
            #[trigger] r[k],
        ) by {
            assert(r[j] == order[j]);
            if k == m {
                if j < m - 1 {
                    assert(comes_before(leq, order[j], order[m - 1]));
                    assert(leq(order[j], order[m - 1]) && leq(order[m - 1], i));
                }
            } else {
                assert(r[k] == order[k]);
            }
        }
        assert forall|k: int| 0 <= k <= m implies #[trigger] r[k] == i || order.contains(r[k]) by {
            if k < m {
                assert(r[k] == order[k]);
            }
        }
    } else {
        let init = order.drop_last();
        let last = order.last();
        lemma_placed(init, leq, i, n);
        let s = placed(init, leq, i);
        assert(r =~= s.push(last));
        assert(order[m - 1] == last);
        assert(leq(i, last));
        assert forall|k: int| 0 <= k <= m implies #[trigger] r[k] == i || order.contains(r[k]) by {
            if k < m {
                assert(r[k] == s[k]);
                if s[k] != i {
                    let q = choose|q: int| 0 <= q < init.len() && init[q] == s[k];
                    assert(order[q] == s[k]);
                }
            }
        }
        assert forall|p: int| order.contains(p) || p == i implies #[trigger] r.contains(p) by {
            if p == last {
                assert(r[m as int] == p);
            } else {
                if p != i {
                    let k = choose|k: int| 0 <= k < m && order[k] == p;
                    assert(init[k] == p);
                    assert(init.contains(p));
                }
                assert(s.contains(p));
                let k = choose|k: int| 0 <= k < s.len() && s[k] == p;
                assert(r[k] == p);
            }
        }
        assert forall|j: int, k: int| 0 <= j < k <= m implies comes_before(
            leq,
            #[trigger] r[j],
            #[trigger] r[k],
        ) by {
            assert(r[j] == s[j]);
            if k == m {
                if s[j] != i {
                    let q = choose|q: int| 0 <= q < init.len() && init[q] == s[j];
                    assert(order[q] == s[j]);
                    assert(comes_before(leq, order[q], order[m - 1]));
                }
            } else {
                assert(r[k] == s[k]);
            }
        }
    }
}

/// An order has every place once, none before one that must stand earlier, and
/// of two that may stand either way the earlier first.
pub proof fn law_order_sorts(n: nat, leq: spec_fn(int, int) -> bool)
    requires
        orders(n, leq),
    ensures
        order_of(n, leq).len() == n,
        forall|k: int| 0 <= k < n ==> 0 <= #[trigger] order_of(n, leq)[k] < n,
        forall|j: int, k: int|
            0 <= j < k < n ==> comes_before(
                leq,
                #[trigger] order_of(n, leq)[j],
                #[trigger] order_of(n, leq)[k],
            ),
        forall|p: int| 0 <= p < n ==> #[trigger] order_of(n, leq).contains(p),
    decreases n,
{
    if n > 0 {
        let i = n - 1;
        law_order_sorts(i as nat, leq);
        let o = order_of(i as nat, leq);
        lemma_placed(o, leq, i, n);
        assert forall|p: int| 0 <= p < n implies #[trigger] order_of(n, leq).contains(p) by {
            if p != i {
                assert(o.contains(p));
            }
        }
        assert forall|k: int| 0 <= k < n implies 0 <= #[trigger] order_of(n, leq)[k] < n by {
            let x = order_of(n, leq)[k];
            if x != i {
                let q = choose|q: int| 0 <= q < o.len() && o[q] == x;
                assert(0 <= o[q] < i);
            }
        }
    }
}

/// Keys order their places.
pub proof fn law_keys_order(keys: Seq<i128>)
    ensures
        orders(keys.len(), by_key(keys)),
{
}

/// Names order their places.
pub proof fn law_names_order(names: Seq<Seq<char>>)
    ensures
        orders(names.len(), by_name(names)),
{
    let leq = by_name(names);
    assert forall|a: int, b: int| 0 <= a < names.len() && 0 <= b < names.len() implies #[trigger] leq(
        a,
        b,
    ) || leq(b, a) by {
        paths::lemma_total(names[a], names[b]);
    }
    assert forall|a: int, b: int, c: int|
        0 <= a < names.len() && 0 <= b < names.len() && 0 <= c < names.len() && #[trigger] leq(a, b)
            && #[trigger] leq(b, c) implies leq(a, c) by {
        paths::lemma_transitive(names[a], names[b], names[c]);
    }
}

/// Where the place `i` goes: in front of the places at the end that may not
/// stand before it.
proof fn lemma_placed_at(order: Seq<int>, leq: spec_fn(int, int) -> bool, i: int, p: int)
    requires
        0 <= p <= order.len(),
        p > 0 ==> leq(order[p - 1], i),
        forall|k: int| p <= k < order.len() ==> !leq(#[trigger] order[k], i),
    ensures
        placed(order, leq, i) == order.insert(p, i),
    decreases order.len(),
{
    if p == order.len() {
        assert(order.insert(p, i) =~= order.push(i));
    } else {
        assert(!leq(order[order.len() - 1], i));
        let init = order.drop_last();
        lemma_placed_at(init, leq, i, p);
        assert(order.insert(p, i) =~= init.insert(p, i).push(order.last()));
    }
}

/// Places as mathematical integers.
pub open spec fn places(v: Seq<usize>) -> Seq<int> {
    v.map_values(|i: usize| i as int)
}

/// The places of `keys`, smallest key first; of equal keys the earlier place
/// comes first.
pub fn stable_order(keys: &Vec<i128>) -> (r: Vec<usize>)
    ensures
        places(r@) == key_order(keys@),
        r@.len() == keys@.len(),
        forall|k: int| 0 <= k < r@.len() ==> #[trigger] r@[k] < keys@.len(),
{
    let mut out: Vec<usize> = Vec::new();
    let ghost leq = by_key(keys@);
    let mut i: usize = 0;
    assert(places(out@) =~= order_of(0, leq));
    while i < keys.len()
        invariant
            i <= keys@.len(),
            leq == by_key(keys@),
            places(out@) == order_of(i as nat, leq),
            out@.len() == i,
            forall|k: int| 0 <= k < i ==> #[trigger] out@[k] < i,
        decreases keys.len() - i,
    {
        let mut p: usize = i;
        while p > 0 && keys[out[p - 1]] > keys[i]
            invariant
                p <= i < keys@.len(),
                out@.len() == i,
                forall|k: int| 0 <= k < i ==> #[trigger] out@[k] < i,
                forall|k: int| p <= k < i ==> keys@[#[trigger] out@[k] as int] > keys@[i as int],
            decreases p,
        {
            p = p - 1;
        }
        let ghost before = out@;
        proof {
            let o = places(before);
            assert forall|k: int| p <= k < o.len() implies !leq(#[trigger] o[k], i as int) by {
                assert(keys@[before[k] as int] > keys@[i as int]);
            }
            lemma_placed_at(o, leq, i as int, p as int);
        }
        out.insert(p, i);
        assert(places(out@) =~= places(before).insert(p as int, i as int));
        i = i + 1;
    }
    out
}

/// The places of `names`, in dictionary order; of equal names the earlier place
/// comes first.
pub fn stable_name_order(names: &Vec<&str>) -> (r: Vec<usize>)
    ensures
        places(r@) == name_order(str_views(names@)),
        r@.len() == names@.len(),
        forall|k: int| 0 <= k < r@.len() ==> #[trigger] r@[k] < names@.len(),
{
    let mut out: Vec<usize> = Vec::new();
    let ghost views = str_views(names@);
    let ghost leq = by_name(views);
    let mut i: usize = 0;
    assert(places(out@) =~= order_of(0, leq));
    while i < names.len()
        invariant
            i <= names@.len(),
            views == str_views(names@),
            leq == by_name(views),
            places(out@) == order_of(i as nat, leq),
            out@.len() == i,
            forall|k: int| 0 <= k < i ==> #[trigger] out@[k] < i,
        decreases names.len() - i,
    {
        let mut p: usize = i;
        while p > 0 && !names_in_order(names[out[p - 1]], names[i])
            invariant
                p <= i < names@.len(),
                out@.len() == i,
                forall|k: int| 0 <= k < i ==> #[trigger] out@[k] < i,
                forall|k: int|
                    p <= k < i ==> !paths::no_later(
                        names@[#[trigger] out@[k] as int]@,
                        names@[i as int]@,
                    ),
            decreases p,
        {
            p = p - 1;
        }
        let ghost before = out@;
        proof {
            let o = places(before);
            assert forall|k: int| p <= k < o.len() implies !leq(#[trigger] o[k], i as int) by {
                assert(!paths::no_later(names@[before[k] as int]@, names@[i as int]@));
                assert(before[k] < i);
                assert(views[before[k] as int] == names@[before[k] as int]@);
            }
            if p > 0 {
                assert(before[p - 1] < i);
                assert(views[before[p - 1] as int] == names@[before[p - 1] as int]@);
            }
            lemma_placed_at(o, leq, i as int, p as int);
        }
        out.insert(p, i);
        assert(places(out@) =~= places(before).insert(p as int, i as int));
        i = i + 1;
    }
    out
}

/// Borrowed texts by their characters.
pub open spec fn str_views(names: Seq<&str>) -> Seq<Seq<char>> {
    names.map_values(|n: &str| n@)
}

/// Placing asks only about the places that are there.
proof fn lemma_placed_same(
    order: Seq<int>,
    p: spec_fn(int, int) -> bool,
    q: spec_fn(int, int) -> bool,
    i: int,
)
    requires
        forall|k: int| 0 <= k < order.len() ==> p(#[trigger] order[k], i) == q(order[k], i),
    ensures
        placed(order, p, i) == placed(order, q, i),
    decreases order.len(),
{
    if order.len() > 0 {
        let init = order.drop_last();
        assert(p(order[order.len() - 1], i) == q(order[order.len() - 1], i));
        assert forall|k: int| 0 <= k < init.len() implies p(#[trigger] init[k], i) == q(
            init[k],
            i,
        ) by {
            assert(init[k] == order[k]);
        }
        lemma_placed_same(init, p, q, i);
    }
}

/// Two relations that agree on the places below `n` order them alike.
proof fn lemma_order_same(
    n: nat,
    m: nat,
    p: spec_fn(int, int) -> bool,
    q: spec_fn(int, int) -> bool,
)
    requires
        n <= m,
        orders(m, p),
        forall|a: int, b: int| 0 <= a < m && 0 <= b < m ==> #[trigger] p(a, b) == q(a, b),
    ensures
        order_of(n, p) == order_of(n, q),
    decreases n,
{
    if n > 0 {
        let k = (n - 1) as nat;
        lemma_order_same(k, m, p, q);
        law_order_sorts(k, p);
        lemma_placed_same(order_of(k, p), p, q, k as int);
    }
}

/// A key no smaller than the others comes last, behind its equals too.
pub proof fn law_largest_key_comes_last(keys: Seq<i128>, key: i128)
    requires
        forall|i: int| 0 <= i < keys.len() ==> #[trigger] keys[i] <= key,
    ensures
        key_order(keys.push(key)) == key_order(keys).push(keys.len() as int),
{
    let more = keys.push(key);
    let n = keys.len();
    law_keys_order(keys);
    law_keys_order(more);
    law_order_sorts(n, by_key(keys));
    lemma_order_same(n, n, by_key(keys), by_key(more));
    let o = order_of(n, by_key(more));
    if o.len() > 0 {
        let last = order_of(n, by_key(keys))[o.len() - 1];
        assert(0 <= last < n);
        assert(keys[last] <= key);
        assert(more[last] == keys[last]);
    }
}

} // verus!
