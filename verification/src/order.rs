//! Orders by several keys.

use vstd::prelude::*;

verus! {

/// Whether `a` comes before `b` in the order of sequences, from place `i` on:
/// the first difference decides, and a beginning comes before the whole.
pub open spec fn less_from(a: Seq<u64>, b: Seq<u64>, i: int) -> bool
    decreases a.len() - i,
{
    if i >= a.len() {
        i < b.len()
    } else if i >= b.len() {
        false
    } else if a[i] == b[i] {
        less_from(a, b, i + 1)
    } else {
        a[i] < b[i]
    }
}

pub open spec fn less(a: Seq<u64>, b: Seq<u64>) -> bool {
    less_from(a, b, 0)
}

/// Whether item `a` comes before item `b`: by key, and in place where the keys
/// are the same.
pub open spec fn precedes(keys: Seq<Seq<u64>>, a: int, b: int) -> bool {
    less(keys[a], keys[b]) || (keys[a] == keys[b] && a < b)
}

/// Whether `p` lists the items `lo..hi` in order, each of them once.
pub open spec fn lists(keys: Seq<Seq<u64>>, p: Seq<int>, lo: int, hi: int) -> bool {
    &&& p.len() == hi - lo
    &&& forall|i: int| 0 <= i < p.len() ==> lo <= #[trigger] p[i] < hi
    &&& forall|a: int| lo <= a < hi ==> #[trigger] p.contains(a)
    &&& forall|i: int, j: int| 0 <= i < j < p.len() ==> precedes(keys, #[trigger] p[i], #[trigger] p[j])
}

/// The items in order.
pub open spec fn ordering(keys: Seq<Seq<u64>>) -> Seq<int> {
    choose|p: Seq<int>| lists(keys, p, 0, keys.len() as int)
}

/// The items of `s`, in the order of their keys.
pub open spec fn arranged<T>(s: Seq<T>, keys: Seq<Seq<u64>>) -> Seq<T> {
    Seq::new(s.len(), |i: int| s[ordering(keys)[i]])
}

/// What keys hold.
pub open spec fn key_views(keys: Seq<Vec<u64>>) -> Seq<Seq<u64>> {
    Seq::new(keys.len(), |i: int| keys[i]@)
}

pub open spec fn places(p: Seq<usize>) -> Seq<int> {
    Seq::new(p.len(), |i: int| p[i] as int)
}

proof fn lemma_less_total(a: Seq<u64>, b: Seq<u64>, i: int)
    requires
        0 <= i,
        forall|j: int| 0 <= j < i && j < a.len() && j < b.len() ==> a[j] == b[j],
        i <= a.len(),
        i <= b.len(),
    ensures
        less_from(a, b, i) || less_from(b, a, i) || a == b,
        !(less_from(a, b, i) && less_from(b, a, i)),
        less_from(a, b, i) ==> a != b,
    decreases a.len() - i,
{
    if i < a.len() && i < b.len() && a[i] == b[i] {
        lemma_less_total(a, b, i + 1);
    } else if i >= a.len() && i >= b.len() {
        assert(a =~= b);
    }
}

proof fn lemma_less_chain(a: Seq<u64>, b: Seq<u64>, c: Seq<u64>, i: int)
    requires
        less_from(a, b, i),
        less_from(b, c, i),
        0 <= i,
    ensures
        less_from(a, c, i),
    decreases a.len() - i,
{
    if i < a.len() && a[i] == b[i] && b[i] == c[i] {
        lemma_less_chain(a, b, c, i + 1);
    }
}

proof fn lemma_precedes_total(keys: Seq<Seq<u64>>, a: int, b: int)
    ensures
        a != b ==> precedes(keys, a, b) || precedes(keys, b, a),
        !(precedes(keys, a, b) && precedes(keys, b, a)),
        less(keys[b], keys[a]) ==> !precedes(keys, a, b),
{
    lemma_less_total(keys[a], keys[b], 0);
}

proof fn lemma_precedes_chain(keys: Seq<Seq<u64>>, a: int, b: int, c: int)
    requires
        precedes(keys, a, b),
        precedes(keys, b, c),
    ensures
        precedes(keys, a, c),
{
    if less(keys[a], keys[b]) && less(keys[b], keys[c]) {
        lemma_less_chain(keys[a], keys[b], keys[c], 0);
    }
}

/// There is one order only.
pub proof fn ordering_is_unique(keys: Seq<Seq<u64>>, p: Seq<int>)
    requires
        lists(keys, p, 0, keys.len() as int),
    ensures
        ordering(keys) == p,
{
    let q = ordering(keys);
    assert(lists(keys, q, 0, keys.len() as int));
    lemma_same(keys, p, q, keys.len() as int);
    assert(p =~= q);
}

proof fn lemma_same(keys: Seq<Seq<u64>>, p: Seq<int>, q: Seq<int>, n: int)
    requires
        lists(keys, p, 0, keys.len() as int),
        lists(keys, q, 0, keys.len() as int),
        0 <= n <= keys.len(),
    ensures
        forall|i: int| 0 <= i < n ==> p[i] == q[i],
    decreases n,
{
    if n > 0 {
        lemma_same(keys, p, q, n - 1);
        let k = n - 1;
        if p[k] != q[k] {
            lemma_precedes_total(keys, p[k], q[k]);
            if precedes(keys, p[k], q[k]) {
                lemma_too_early(keys, p, q, k);
            } else {
                lemma_too_early(keys, q, p, k);
            }
        }
    }
}

/// What comes first in one order cannot come later in the other.
proof fn lemma_too_early(keys: Seq<Seq<u64>>, p: Seq<int>, q: Seq<int>, k: int)
    requires
        lists(keys, p, 0, keys.len() as int),
        lists(keys, q, 0, keys.len() as int),
        0 <= k < keys.len(),
        forall|i: int| 0 <= i < k ==> p[i] == q[i],
        p[k] != q[k],
    ensures
        !precedes(keys, p[k], q[k]),
{
    assert(q.contains(p[k]));
    let j = choose|j: int| 0 <= j < q.len() && q[j] == p[k];
    if j < k {
        assert(precedes(keys, p[j], p[k]));
        lemma_precedes_total(keys, p[j], p[k]);
    } else {
        assert(precedes(keys, q[k], q[j]));
        lemma_precedes_total(keys, q[k], q[j]);
    }
}

fn is_less(a: &Vec<u64>, b: &Vec<u64>) -> (r: bool)
    ensures
        r == less(a@, b@),
{
    let mut i: usize = 0;
    while i < a.len() && i < b.len()
        invariant
            i <= a@.len(),
            i <= b@.len(),
            less(a@, b@) == less_from(a@, b@, i as int),
        decreases a@.len() - i,
    {
        if a[i] != b[i] {
            return a[i] < b[i];
        }
        i = i + 1;
    }
    i < b.len()
}

/// Merges two ordered lists of neighbouring items.
fn merge(keys: &Vec<Vec<u64>>, left: &Vec<usize>, right: &Vec<usize>, lo: usize, mid: usize, hi: usize) -> (r:
    Vec<usize>)
    requires
        lo <= mid <= hi <= keys@.len(),
        lists(key_views(keys@), places(left@), lo as int, mid as int),
        lists(key_views(keys@), places(right@), mid as int, hi as int),
    ensures
        lists(key_views(keys@), places(r@), lo as int, hi as int),
{
    let ghost k = key_views(keys@);
    let ghost l = places(left@);
    let ghost g = places(right@);
    let mut out: Vec<usize> = Vec::new();
    let mut i: usize = 0;
    let mut j: usize = 0;
    let nl = left.len();
    let ng = right.len();
    while i < nl || j < ng
        invariant
            k == key_views(keys@),
            l == places(left@),
            g == places(right@),
            nl == left@.len(),
            ng == right@.len(),
            lo <= mid <= hi <= keys@.len(),
            lists(k, l, lo as int, mid as int),
            lists(k, g, mid as int, hi as int),
            i <= nl,
            j <= ng,
            out@.len() == i + j,
            forall|a: int| 0 <= a < i ==> places(out@).contains(#[trigger] l[a]),
            forall|b: int| 0 <= b < j ==> places(out@).contains(#[trigger] g[b]),
            forall|a: int| 0 <= a < out@.len() ==> lo <= #[trigger] places(out@)[a] < hi,
            forall|a: int, b: int|
                0 <= a < b < out@.len() ==> precedes(
                    k,
                    #[trigger] places(out@)[a],
                    #[trigger] places(out@)[b],
                ),
            forall|a: int, b: int|
                0 <= a < out@.len() && i <= b < nl ==> precedes(
                    k,
                    #[trigger] places(out@)[a],
                    #[trigger] l[b],
                ),
            forall|a: int, b: int|
                0 <= a < out@.len() && j <= b < ng ==> precedes(
                    k,
                    #[trigger] places(out@)[a],
                    #[trigger] g[b],
                ),
        decreases (nl - i) + (ng - j),
    {
        let ghost before = out@;
        let ghost o = places(before);
        let take_left = if i >= nl {
            false
        } else if j >= ng {
            true
        } else {
            assert(l[i as int] == left@[i as int]);
            assert(g[j as int] == right@[j as int]);
            !is_less(&keys[right[j]], &keys[left[i]])
        };
        if take_left {
            let x = left[i];
            assert(l[i as int] == x as int);
            out.push(x);
            proof {
                let n = places(out@);
                assert(n =~= o.push(x as int));
                assert forall|b: int| j <= b < ng implies precedes(k, x as int, #[trigger] g[b]) by {
                    lemma_less_total(k[x as int], k[g[j as int]], 0);
                    assert(precedes(k, x as int, g[j as int]));
                    if b > j {
                        assert(precedes(k, g[j as int], g[b]));
                        lemma_precedes_chain(k, x as int, g[j as int], g[b]);
                    }
                }
                assert forall|a: int| 0 <= a < i + 1 implies n.contains(#[trigger] l[a]) by {
                    if a < i {
                        let w = choose|w: int| 0 <= w < o.len() && o[w] == l[a];
                        assert(n[w] == l[a]);
                    } else {
                        assert(n[o.len() as int] == l[a]);
                    }
                }
                assert forall|b: int| 0 <= b < j implies n.contains(#[trigger] g[b]) by {
                    let w = choose|w: int| 0 <= w < o.len() && o[w] == g[b];
                    assert(n[w] == g[b]);
                }
            }
            i = i + 1;
        } else {
            let x = right[j];
            assert(g[j as int] == x as int);
            out.push(x);
            proof {
                let n = places(out@);
                assert(n =~= o.push(x as int));
                assert forall|b: int| i <= b < nl implies precedes(k, x as int, #[trigger] l[b]) by {
                    assert(precedes(k, x as int, l[i as int]));
                    if b > i {
                        assert(precedes(k, l[i as int], l[b]));
                        lemma_precedes_chain(k, x as int, l[i as int], l[b]);
                    }
                }
                assert forall|a: int| 0 <= a < i implies n.contains(#[trigger] l[a]) by {
                    let w = choose|w: int| 0 <= w < o.len() && o[w] == l[a];
                    assert(n[w] == l[a]);
                }
                assert forall|b: int| 0 <= b < j + 1 implies n.contains(#[trigger] g[b]) by {
                    if b < j {
                        let w = choose|w: int| 0 <= w < o.len() && o[w] == g[b];
                        assert(n[w] == g[b]);
                    } else {
                        assert(n[o.len() as int] == g[b]);
                    }
                }
            }
            j = j + 1;
        }
    }
    proof {
        let n = places(out@);
        assert forall|a: int| lo <= a < hi implies #[trigger] n.contains(a) by {
            if a < mid {
                assert(l.contains(a));
                let w = choose|w: int| 0 <= w < l.len() && l[w] == a;
                assert(n.contains(l[w]));
            } else {
                assert(g.contains(a));
                let w = choose|w: int| 0 <= w < g.len() && g[w] == a;
                assert(n.contains(g[w]));
            }
        }
    }
    out
}

fn sort_range(keys: &Vec<Vec<u64>>, lo: usize, hi: usize) -> (r: Vec<usize>)
    requires
        lo <= hi <= keys@.len(),
    ensures
        lists(key_views(keys@), places(r@), lo as int, hi as int),
    decreases hi - lo,
{
    let mut out: Vec<usize> = Vec::new();
    if hi - lo == 0 {
        return out;
    }
    if hi - lo == 1 {
        out.push(lo);
        assert(places(out@)[0] == lo);
        return out;
    }
    let mid = lo + (hi - lo) / 2;
    let left = sort_range(keys, lo, mid);
    let right = sort_range(keys, mid, hi);
    merge(keys, &left, &right, lo, mid, hi)
}

/// The places of the items in the order of their keys. Items with the same key
/// keep their order.
pub fn sort_order(keys: &Vec<Vec<u64>>) -> (r: Vec<usize>)
    ensures
        places(r@) == ordering(key_views(keys@)),
        lists(key_views(keys@), places(r@), 0, keys@.len() as int),
        r@.len() == keys@.len(),
        forall|i: int| 0 <= i < r@.len() ==> #[trigger] r@[i] < keys@.len(),
{
    let r = sort_range(keys, 0, keys.len());
    proof {
        ordering_is_unique(key_views(keys@), places(r@));
        assert forall|i: int| 0 <= i < r@.len() implies #[trigger] r@[i] < keys@.len() by {
            assert(places(r@)[i] < keys@.len());
        }
    }
    r
}

// ---------------------------------------------------------------------------
// What the order gives

/// The first place from `i` on whose item `x` comes before.
spec fn slot(keys: Seq<Seq<u64>>, p: Seq<int>, x: int, i: int) -> int
    decreases p.len() - i,
{
    if i >= p.len() {
        p.len() as int
    } else if precedes(keys, x, p[i]) {
        i
    } else {
        slot(keys, p, x, i + 1)
    }
}

proof fn lemma_slot(keys: Seq<Seq<u64>>, p: Seq<int>, x: int, i: int)
    requires
        0 <= i <= p.len(),
    ensures
        i <= slot(keys, p, x, i) <= p.len(),
        slot(keys, p, x, i) < p.len() ==> precedes(keys, x, p[slot(keys, p, x, i)]),
        forall|j: int| i <= j < slot(keys, p, x, i) ==> !precedes(keys, x, #[trigger] p[j]),
    decreases p.len() - i,
{
    if i < p.len() && !precedes(keys, x, p[i]) {
        lemma_slot(keys, p, x, i + 1);
    }
}

/// The first `n` items in order.
proof fn lemma_some_order(keys: Seq<Seq<u64>>, n: int) -> (q: Seq<int>)
    requires
        0 <= n <= keys.len(),
    ensures
        lists(keys, q, 0, n),
    decreases n,
{
    if n == 0 {
        seq![]
    } else {
        let p = lemma_some_order(keys, n - 1);
        let x = n - 1;
        let k = slot(keys, p, x, 0);
        lemma_slot(keys, p, x, 0);
        let q = p.insert(k, x);
        assert forall|i: int, j: int| 0 <= i < j < q.len() implies precedes(
            keys,
            #[trigger] q[i],
            #[trigger] q[j],
        ) by {
            if j == k {
                lemma_precedes_total(keys, x, p[i]);
            } else if i == k {
                assert(precedes(keys, x, p[k]));
                if j - 1 > k {
                    lemma_precedes_chain(keys, x, p[k], p[j - 1]);
                }
            } else if j < k {
            } else if i > k {
                assert(precedes(keys, p[i - 1], p[j - 1]));
            } else {
                assert(precedes(keys, p[i], p[j - 1]));
            }
        }
        assert forall|a: int| 0 <= a < n implies #[trigger] q.contains(a) by {
            if a == x {
                assert(q[k] == a);
            } else {
                assert(p.contains(a));
                let w = choose|w: int| 0 <= w < p.len() && p[w] == a;
                assert(q[if w < k {
                    w
                } else {
                    w + 1
                }] == a);
            }
        }
        q
    }
}

/// Any keys have an order: it lists each item once, by key, and items with the
/// same key as they stood.
pub proof fn ordering_exists(keys: Seq<Seq<u64>>)
    ensures
        lists(keys, ordering(keys), 0, keys.len() as int),
{
    let q = lemma_some_order(keys, keys.len() as int);
    ordering_is_unique(keys, q);
}

/// Arranging items neither loses nor doubles any.
pub proof fn arranged_keeps_all<T>(s: Seq<T>, keys: Seq<Seq<u64>>)
    requires
        s.len() == keys.len(),
    ensures
        arranged(s, keys).len() == s.len(),
        forall|x: T| #[trigger] s.contains(x) <==> arranged(s, keys).contains(x),
        arranged(s, keys).to_multiset() == s.to_multiset(),
{
    ordering_exists(keys);
    let p = ordering(keys);
    let r = arranged(s, keys);
    assert forall|x: T| #[trigger] s.contains(x) implies r.contains(x) by {
        let a = choose|a: int| 0 <= a < s.len() && s[a] == x;
        assert(p.contains(a));
        let i = choose|i: int| 0 <= i < p.len() && p[i] == a;
        assert(r[i] == x);
    }
    assert forall|x: T| r.contains(x) implies #[trigger] s.contains(x) by {
        let i = choose|i: int| 0 <= i < r.len() && r[i] == x;
        assert(s[p[i]] == x);
    }
    assert forall|i: int, j: int| 0 <= i < j < p.len() implies #[trigger] p[i] != #[trigger] p[j] by {
        assert(precedes(keys, p[i], p[j]));
        lemma_precedes_total(keys, p[i], p[j]);
    }
    lemma_permuted(s, p);
    assert(r =~= permuted(s, p));
}

spec fn permuted<T>(s: Seq<T>, p: Seq<int>) -> Seq<T> {
    Seq::new(p.len(), |i: int| s[p[i]])
}

/// Items picked by a list that holds each place once are the same items.
proof fn lemma_permuted<T>(s: Seq<T>, p: Seq<int>)
    requires
        p.len() == s.len(),
        forall|i: int| 0 <= i < p.len() ==> 0 <= #[trigger] p[i] < s.len(),
        forall|a: int| 0 <= a < s.len() ==> #[trigger] p.contains(a),
        forall|i: int, j: int| 0 <= i < j < p.len() ==> #[trigger] p[i] != #[trigger] p[j],
    ensures
        permuted(s, p).to_multiset() == s.to_multiset(),
    decreases s.len(),
{
    broadcast use vstd::seq_lib::group_to_multiset_ensures;

    if s.len() == 0 {
        assert(permuted(s, p) =~= s);
    } else {
        let n = s.len() - 1;
        assert(p.contains(n));
        let k = choose|k: int| 0 <= k < p.len() && p[k] == n;
        let h = s.drop_last();
        let q = p.remove(k);
        assert forall|a: int| 0 <= a < h.len() implies #[trigger] q.contains(a) by {
            assert(p.contains(a));
            let w = choose|w: int| 0 <= w < p.len() && p[w] == a;
            assert(q[if w < k {
                w
            } else {
                w - 1
            }] == a);
        }
        assert forall|i: int| 0 <= i < q.len() implies 0 <= #[trigger] q[i] < h.len() by {
            let w = if i < k {
                i
            } else {
                i + 1
            };
            assert(q[i] == p[w]);
            assert(p[w] != p[k]);
        }
        lemma_permuted(h, q);
        let r = permuted(s, p);
        assert(r.remove(k) =~= permuted(h, q));
        assert(r[k] == s.last());
        assert(r =~= r.remove(k).insert(k, s.last()));
        assert(s =~= h.push(s.last()));
        lemma_insert_multiset(r.remove(k), k, s.last());
    }
}

proof fn lemma_insert_multiset<T>(s: Seq<T>, k: int, x: T)
    requires
        0 <= k <= s.len(),
    ensures
        s.insert(k, x).to_multiset() == s.to_multiset().insert(x),
{
    broadcast use vstd::seq_lib::group_to_multiset_ensures;

    let a = s.take(k);
    let b = s.skip(k);
    assert(s =~= a + b);
    assert(s.insert(k, x) =~= a.push(x) + b);
    vstd::seq_lib::lemma_multiset_commutative(a, b);
    vstd::seq_lib::lemma_multiset_commutative(a.push(x), b);
    assert(a.push(x).to_multiset() =~= a.to_multiset().insert(x));
    assert(s.insert(k, x).to_multiset() =~= s.to_multiset().insert(x));
}

/// Arranged items stand in the order of their keys.
pub proof fn arranged_in_order<T>(s: Seq<T>, keys: Seq<Seq<u64>>, i: int, j: int)
    requires
        s.len() == keys.len(),
        0 <= i < j < s.len(),
    ensures
        precedes(keys, ordering(keys)[i], ordering(keys)[j]),
        arranged(s, keys)[i] == s[ordering(keys)[i]],
        arranged(s, keys)[j] == s[ordering(keys)[j]],
        0 <= ordering(keys)[i] < s.len(),
        0 <= ordering(keys)[j] < s.len(),
{
    ordering_exists(keys);
}

} // verus!
