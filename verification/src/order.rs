//! Order: byte strings in lexicographic order, and the ascending listing of a table by its keys.
use vstd::prelude::*;

verus! {

/// Whether `a` comes before `b`: at the first place where they differ it has the smaller byte, or
/// it ends there.
pub open spec fn lex_lt(a: Seq<u8>, b: Seq<u8>) -> bool
    decreases a.len(),
{
    if b.len() == 0 {
        false
    } else if a.len() == 0 {
        true
    } else if a[0] != b[0] {
        a[0] < b[0]
    } else {
        lex_lt(a.drop_first(), b.drop_first())
    }
}

/// Of two strings no more than one comes before the other, and one does unless they are equal.
pub proof fn lemma_lex_total(a: Seq<u8>, b: Seq<u8>)
    ensures
        !(lex_lt(a, b) && lex_lt(b, a)),
        lex_lt(a, b) ==> a != b,
        a != b ==> lex_lt(a, b) || lex_lt(b, a),
    decreases a.len(),
{
    if a.len() == 0 || b.len() == 0 {
        if a.len() == b.len() {
            assert(a =~= b);
        }
    } else if a[0] == b[0] {
        lemma_lex_total(a.drop_first(), b.drop_first());
        if a.drop_first() == b.drop_first() {
            assert(a =~= seq![a[0]] + a.drop_first());
            assert(b =~= seq![b[0]] + b.drop_first());
        }
    }
}

/// What comes before a string comes before all that follow it.
pub proof fn lemma_lex_transitive(a: Seq<u8>, b: Seq<u8>, c: Seq<u8>)
    requires
        lex_lt(a, b),
        lex_lt(b, c),
    ensures
        lex_lt(a, c),
    decreases a.len(),
{
    if a.len() > 0 && b.len() > 0 && c.len() > 0 && a[0] == b[0] && b[0] == c[0] {
        lemma_lex_transitive(a.drop_first(), b.drop_first(), c.drop_first());
    }
}

/// A common start does not change the order.
pub proof fn lemma_lex_prefix(p: Seq<u8>, a: Seq<u8>, b: Seq<u8>)
    ensures
        lex_lt(p + a, p + b) == lex_lt(a, b),
    decreases p.len(),
{
    if p.len() == 0 {
        assert(p + a =~= a);
        assert(p + b =~= b);
    } else {
        lemma_lex_prefix(p.drop_first(), a, b);
        assert((p + a).drop_first() =~= p.drop_first() + a);
        assert((p + b).drop_first() =~= p.drop_first() + b);
    }
}

/// Where two strings differ at a place that both have, what follows does not change the order.
pub proof fn lemma_lex_suffix(a: Seq<u8>, b: Seq<u8>, x: Seq<u8>, y: Seq<u8>)
    requires
        a.len() == b.len(),
        a != b,
    ensures
        lex_lt(a + x, b + y) == lex_lt(a, b),
    decreases a.len(),
{
    if a.len() == 0 {
        assert(a =~= b);
    } else if a[0] == b[0] {
        if a.drop_first() == b.drop_first() {
            assert(a =~= seq![a[0]] + a.drop_first());
            assert(b =~= seq![b[0]] + b.drop_first());
        }
        lemma_lex_suffix(a.drop_first(), b.drop_first(), x, y);
        assert((a + x).drop_first() =~= a.drop_first() + x);
        assert((b + y).drop_first() =~= b.drop_first() + y);
    }
}

/// Whether entry `i` of a table is listed before entry `j`: its key comes first, or the keys are
/// equal and it stands first in the table.
pub open spec fn listed_before(keys: Seq<Seq<u8>>, i: int, j: int) -> bool {
    lex_lt(keys[i], keys[j]) || (keys[i] == keys[j] && i < j)
}

/// Whether `order` lists the entries `lo..hi` of a table, each once, ascending by key.
pub open spec fn ascending(keys: Seq<Seq<u8>>, lo: int, hi: int, order: Seq<usize>) -> bool {
    &&& forall|x: usize| lo <= x < hi <==> #[trigger] order.contains(x)
    &&& forall|i: int, j: int|
        0 <= i < j < order.len() ==> listed_before(keys, #[trigger] order[i] as int, #[trigger] order[j] as int)
}

/// The entries of a table, ascending by key, and in the order of the table where keys are equal.
pub open spec fn order_of(keys: Seq<Seq<u8>>) -> Seq<usize> {
    choose|order: Seq<usize>| ascending(keys, 0, keys.len() as int, order)
}

/// Two strictly ascending listings of the same elements are the same listing.
pub proof fn lemma_listing_unique<T>(a: Seq<T>, b: Seq<T>, before: spec_fn(T, T) -> bool)
    requires
        forall|x: T, y: T| #[trigger] before(x, y) ==> !before(y, x),
        forall|i: int, j: int| 0 <= i < j < a.len() ==> before(#[trigger] a[i], #[trigger] a[j]),
        forall|i: int, j: int| 0 <= i < j < b.len() ==> before(#[trigger] b[i], #[trigger] b[j]),
        forall|x: T| #[trigger] a.contains(x) <==> b.contains(x),
    ensures
        a == b,
    decreases a.len(),
{
    if a.len() == 0 {
        if b.len() > 0 {
            assert(b.contains(b[0]));
            assert(a.contains(b[0]));
        }
        assert(a =~= b);
    } else {
        let x = a.last();
        assert(a.contains(x));
        assert(b.contains(x));
        let y = b.last();
        assert(b.contains(y));
        assert(a.contains(y));
        let i = choose|i: int| 0 <= i < b.len() && b[i] == x;
        let j = choose|j: int| 0 <= j < a.len() && a[j] == y;
        if i < b.len() - 1 && j < a.len() - 1 {
            assert(before(b[i], b[b.len() - 1]));
            assert(before(a[j], a[a.len() - 1]));
        }
        assert(x == y);
        assert forall|z: T| #[trigger] a.drop_last().contains(z) implies b.drop_last().contains(z) by {
            let k = choose|k: int| 0 <= k < a.drop_last().len() && a.drop_last()[k] == z;
            assert(a[k] == z);
            assert(a.contains(z));
            assert(before(a[k], a[a.len() - 1]));
            let m = choose|m: int| 0 <= m < b.len() && b[m] == z;
            assert(m < b.len() - 1);
            assert(b.drop_last()[m] == z);
        }
        assert forall|z: T| #[trigger] b.drop_last().contains(z) implies a.drop_last().contains(z) by {
            let k = choose|k: int| 0 <= k < b.drop_last().len() && b.drop_last()[k] == z;
            assert(b[k] == z);
            assert(b.contains(z));
            assert(before(b[k], b[b.len() - 1]));
            assert(a.contains(z));
            let m = choose|m: int| 0 <= m < a.len() && a[m] == z;
            assert(m < a.len() - 1);
            assert(a.drop_last()[m] == z);
        }
        lemma_listing_unique(a.drop_last(), b.drop_last(), before);
        assert(a =~= a.drop_last().push(x));
        assert(b =~= b.drop_last().push(y));
    }
}

/// A table has one ascending listing.
pub proof fn lemma_order_unique(keys: Seq<Seq<u8>>, order: Seq<usize>)
    requires
        ascending(keys, 0, keys.len() as int, order),
    ensures
        order == order_of(keys),
{
    let before = |x: usize, y: usize| listed_before(keys, x as int, y as int);
    let other = order_of(keys);
    assert forall|x: usize, y: usize| #[trigger] before(x, y) implies !before(y, x) by {
        lemma_lex_total(keys[x as int], keys[y as int]);
    }
    assert forall|x: usize| #[trigger] order.contains(x) <==> other.contains(x) by {
        assert(0 <= x < keys.len() <==> order.contains(x));
        assert(0 <= x < keys.len() <==> other.contains(x));
    }
    lemma_listing_unique(order, other, before);
}

/// There are `n` indices below `n`.
proof fn lemma_index_set(n: nat)
    requires
        n <= usize::MAX + 1,
    ensures
        Set::<usize>::new(|x: usize| 0 <= x < n).finite(),
        Set::<usize>::new(|x: usize| 0 <= x < n).len() == n,
    decreases n,
{
    let s = Set::<usize>::new(|x: usize| 0 <= x < n);
    if n == 0 {
        assert(s =~= Set::empty());
    } else {
        lemma_index_set((n - 1) as nat);
        let t = Set::<usize>::new(|x: usize| 0 <= x < n - 1);
        assert(s =~= t.insert((n - 1) as usize));
    }
}

/// The listing of a table holds each of its entries once.
pub proof fn lemma_order_complete(keys: Seq<Seq<u8>>, order: Seq<usize>)
    requires
        keys.len() <= usize::MAX,
        ascending(keys, 0, keys.len() as int, order),
    ensures
        order.len() == keys.len(),
        order.no_duplicates(),
{
    assert forall|i: int, j: int| 0 <= i < j < order.len() implies order[i] != order[j] by {
        assert(listed_before(keys, order[i] as int, order[j] as int));
        lemma_lex_total(keys[order[i] as int], keys[order[j] as int]);
    }
    let all = Set::<usize>::new(|x: usize| 0 <= x < keys.len());
    assert(order.to_set() =~= all) by {
        assert forall|x: usize| order.to_set().contains(x) <==> all.contains(x) by {
            assert(0 <= x < keys.len() <==> order.contains(x));
        }
    }
    order.unique_seq_to_set();
    lemma_index_set(keys.len());
}

/// How many entries of an ascending listing come before entry `x`.
proof fn lemma_place(keys: Seq<Seq<u8>>, order: Seq<usize>, x: int) -> (p: int)
    requires
        forall|i: int, j: int|
            0 <= i < j < order.len() ==> listed_before(keys, #[trigger] order[i] as int, #[trigger] order[j] as int),
        forall|i: int| 0 <= i < order.len() ==> (#[trigger] order[i]) as int != x,
    ensures
        0 <= p <= order.len(),
        forall|i: int| 0 <= i < p ==> listed_before(keys, (#[trigger] order[i]) as int, x),
        forall|i: int| p <= i < order.len() ==> listed_before(keys, x, (#[trigger] order[i]) as int),
    decreases order.len(),
{
    if order.len() == 0 {
        0
    } else {
        let last = order.last() as int;
        let front = order.drop_last();
        assert forall|i: int| 0 <= i < front.len() implies (#[trigger] front[i]) as int != x by {
            assert(front[i] == order[i]);
        }
        let q = lemma_place(keys, front, x);
        lemma_lex_total(keys[last], keys[x]);
        assert(order[order.len() - 1] as int != x);
        if listed_before(keys, last, x) {
            assert forall|i: int| 0 <= i < order.len() implies listed_before(keys, (#[trigger] order[i]) as int, x) by {
                if i < order.len() - 1 {
                    lemma_before_transitive(keys, order[i] as int, last, x);
                }
            }
            order.len() as int
        } else {
            assert(listed_before(keys, x, last));
            assert forall|i: int| 0 <= i < q implies listed_before(keys, (#[trigger] order[i]) as int, x) by {
                assert(front[i] == order[i]);
            }
            assert forall|i: int| q <= i < order.len() implies listed_before(keys, x, (#[trigger] order[i]) as int) by {
                if i < front.len() {
                    assert(front[i] == order[i]);
                }
            }
            q
        }
    }
}

/// The first entries of a table have an ascending listing.
proof fn lemma_listing_exists(keys: Seq<Seq<u8>>, n: nat) -> (order: Seq<usize>)
    requires
        n <= keys.len() <= usize::MAX,
    ensures
        ascending(keys, 0, n as int, order),
    decreases n,
{
    if n == 0 {
        Seq::empty()
    } else {
        let before = lemma_listing_exists(keys, (n - 1) as nat);
        let x = (n - 1) as usize;
        assert forall|i: int| 0 <= i < before.len() implies (#[trigger] before[i]) as int != n - 1 by {
            assert(before.contains(before[i]));
        }
        let p = lemma_place(keys, before, n - 1);
        let order = before.insert(p, x);
        assert forall|y: usize| 0 <= y < n <==> #[trigger] order.contains(y) by {
            if 0 <= y < n - 1 {
                assert(before.contains(y));
                let k = choose|k: int| 0 <= k < before.len() && before[k] == y;
                if k < p {
                    assert(order[k] == y);
                } else {
                    assert(order[k + 1] == y);
                }
            }
            assert(order[p] == x);
            if order.contains(y) {
                let k = choose|k: int| 0 <= k < order.len() && order[k] == y;
                if k < p {
                    assert(before[k] == y);
                    assert(before.contains(y));
                } else if k > p {
                    assert(before[k - 1] == y);
                    assert(before.contains(y));
                }
            }
        }
        assert forall|i: int, j: int| 0 <= i < j < order.len() implies listed_before(
            keys,
            #[trigger] order[i] as int,
            #[trigger] order[j] as int,
        ) by {
            let a = if i < p {
                i
            } else {
                i - 1
            };
            let b = if j < p {
                j
            } else {
                j - 1
            };
            if i != p {
                assert(order[i] == before[a]);
            }
            if j != p {
                assert(order[j] == before[b]);
            }
        }
        order
    }
}

/// A table has an ascending listing, which holds each of its entries once.
pub proof fn law_order_lists_all(keys: Seq<Seq<u8>>)
    requires
        keys.len() <= usize::MAX,
    ensures
        ascending(keys, 0, keys.len() as int, order_of(keys)),
        order_of(keys).len() == keys.len(),
        order_of(keys).no_duplicates(),
{
    let order = lemma_listing_exists(keys, keys.len());
    lemma_order_unique(keys, order);
    lemma_order_complete(keys, order);
}

/// Whether `a` comes before `b`.
pub fn lex_less(a: &Vec<u8>, b: &Vec<u8>) -> (r: bool)
    ensures
        r == lex_lt(a@, b@),
{
    let mut i: usize = 0;
    assert(a@.skip(0) =~= a@);
    assert(b@.skip(0) =~= b@);
    while i < a.len() && i < b.len() && a[i] == b[i]
        invariant
            i <= a@.len(),
            i <= b@.len(),
            lex_lt(a@, b@) == lex_lt(a@.skip(i as int), b@.skip(i as int)),
        decreases a@.len() - i,
    {
        assert(a@.skip(i as int).drop_first() =~= a@.skip(i + 1));
        assert(b@.skip(i as int).drop_first() =~= b@.skip(i + 1));
        i = i + 1;
    }
    if i == b.len() {
        false
    } else if i == a.len() {
        true
    } else {
        a[i] < b[i]
    }
}

/// The keys of a table, by content.
pub open spec fn keys_of(keys: Seq<Vec<u8>>) -> Seq<Seq<u8>> {
    keys.map_values(|k: Vec<u8>| k@)
}

/// Merges two ascending listings of neighbouring ranges.
fn merge(keys: &Vec<Vec<u8>>, left: &Vec<usize>, right: &Vec<usize>, Ghost(lo): Ghost<int>, Ghost(mid): Ghost<int>, Ghost(hi): Ghost<int>) -> (r: Vec<usize>)
    requires
        0 <= lo <= mid <= hi <= keys@.len(),
        ascending(keys_of(keys@), lo, mid, left@),
        ascending(keys_of(keys@), mid, hi, right@),
    ensures
        ascending(keys_of(keys@), lo, hi, r@),
{
    let ghost all = keys_of(keys@);
    let mut out: Vec<usize> = Vec::new();
    let mut i: usize = 0;
    let mut j: usize = 0;
    while i < left.len() || j < right.len()
        invariant
            0 <= lo <= mid <= hi <= keys@.len(),
            all == keys_of(keys@),
            ascending(all, lo, mid, left@),
            ascending(all, mid, hi, right@),
            i <= left@.len(),
            j <= right@.len(),
            forall|x: usize|
                #[trigger] out@.contains(x) <==> left@.take(i as int).contains(x) || right@.take(
                    j as int,
                ).contains(x),
            forall|a: int, b: int|
                0 <= a < b < out@.len() ==> listed_before(all, #[trigger] out@[a] as int, #[trigger] out@[b] as int),
            forall|a: int, b: int|
                0 <= a < out@.len() && i <= b < left@.len() ==> listed_before(
                    all,
                    #[trigger] out@[a] as int,
                    #[trigger] left@[b] as int,
                ),
            forall|a: int, b: int|
                0 <= a < out@.len() && j <= b < right@.len() ==> listed_before(
                    all,
                    #[trigger] out@[a] as int,
                    #[trigger] right@[b] as int,
                ),
        decreases left@.len() - i + right@.len() - j,
    {
        let ghost before = out@;
        let from_left: bool = if j == right.len() {
            true
        } else if i == left.len() {
            false
        } else {
            assert(left@.contains(left@[i as int]));
            assert(right@.contains(right@[j as int]));
            !lex_less(&keys[right[j]], &keys[left[i]])
        };
        if from_left {
            let x: usize = left[i];
            out.push(x);
            proof {
                if j < right@.len() {
                    lemma_lex_total(all[x as int], all[right@[j as int] as int]);
                    assert(left@.contains(x));
                    assert(right@.contains(right@[j as int]));
                    assert(listed_before(all, x as int, right@[j as int] as int));
                }
                assert forall|b: int| j <= b < right@.len() implies listed_before(
                    all,
                    x as int,
                    #[trigger] right@[b] as int,
                ) by {
                    if b > j {
                        lemma_before_transitive(all, x as int, right@[j as int] as int, right@[b] as int);
                    }
                }
                assert(left@.take(i + 1) =~= left@.take(i as int).push(x));
                lemma_push_contains(before, x);
                lemma_push_contains(left@.take(i as int), x);
            }
            i = i + 1;
        } else {
            let x: usize = right[j];
            out.push(x);
            proof {
                if i < left@.len() {
                    assert(listed_before(all, x as int, left@[i as int] as int));
                }
                assert forall|b: int| i <= b < left@.len() implies listed_before(
                    all,
                    x as int,
                    #[trigger] left@[b] as int,
                ) by {
                    if b > i {
                        lemma_before_transitive(all, x as int, left@[i as int] as int, left@[b] as int);
                    }
                }
                assert(right@.take(j + 1) =~= right@.take(j as int).push(x));
                lemma_push_contains(before, x);
                lemma_push_contains(right@.take(j as int), x);
            }
            j = j + 1;
        }
    }
    assert(left@.take(left@.len() as int) =~= left@);
    assert(right@.take(right@.len() as int) =~= right@);
    assert forall|x: usize| lo <= x < hi <==> #[trigger] out@.contains(x) by {
        assert(lo <= x < mid <==> left@.contains(x));
        assert(mid <= x < hi <==> right@.contains(x));
    }
    out
}

/// What a longer sequence holds.
proof fn lemma_push_contains<T>(s: Seq<T>, x: T)
    ensures
        forall|y: T| #[trigger] s.push(x).contains(y) <==> s.contains(y) || y == x,
{
    assert forall|y: T| #[trigger] s.push(x).contains(y) <==> s.contains(y) || y == x by {
        if s.contains(y) {
            let k = choose|k: int| 0 <= k < s.len() && s[k] == y;
            assert(s.push(x)[k] == y);
        }
        assert(s.push(x)[s.len() as int] == x);
        if s.push(x).contains(y) {
            let k = choose|k: int| 0 <= k < s.push(x).len() && s.push(x)[k] == y;
            if k < s.len() {
                assert(s[k] == y);
            }
        }
    }
}

/// What is listed before an entry is listed before all that follow it.
pub proof fn lemma_before_transitive(keys: Seq<Seq<u8>>, a: int, b: int, c: int)
    requires
        listed_before(keys, a, b),
        listed_before(keys, b, c),
    ensures
        listed_before(keys, a, c),
{
    if lex_lt(keys[a], keys[b]) && lex_lt(keys[b], keys[c]) {
        lemma_lex_transitive(keys[a], keys[b], keys[c]);
    }
}

/// The ascending listing of the entries `lo..hi`.
fn sort_range(keys: &Vec<Vec<u8>>, lo: usize, hi: usize) -> (r: Vec<usize>)
    requires
        lo <= hi <= keys@.len(),
    ensures
        ascending(keys_of(keys@), lo as int, hi as int, r@),
    decreases hi - lo,
{
    if hi - lo <= 1 {
        let mut out: Vec<usize> = Vec::new();
        if lo < hi {
            out.push(lo);
            assert(out@[0] == lo);
        }
        return out;
    }
    let mid: usize = lo + (hi - lo) / 2;
    let left: Vec<usize> = sort_range(keys, lo, mid);
    let right: Vec<usize> = sort_range(keys, mid, hi);
    merge(keys, &left, &right, Ghost(lo as int), Ghost(mid as int), Ghost(hi as int))
}

/// The entries of a table, ascending by key, and in the order of the table where keys are equal.
pub fn sort_order(keys: &Vec<Vec<u8>>) -> (r: Vec<usize>)
    ensures
        r@ == order_of(keys_of(keys@)),
        ascending(keys_of(keys@), 0, keys@.len() as int, r@),
        r@.len() == keys@.len(),
        r@.no_duplicates(),
{
    let r: Vec<usize> = sort_range(keys, 0, keys.len());
    proof {
        lemma_order_unique(keys_of(keys@), r@);
        lemma_order_complete(keys_of(keys@), r@);
    }
    r
}

/// Items in the order of their keys; those with equal keys stay in their order.
pub open spec fn arranged(items: Seq<usize>, keys: Seq<Seq<u8>>) -> Seq<usize> {
    order_of(keys).map_values(|k: usize| items[k as int])
}

/// Items that are put in order are the same items, each as often as before.
pub proof fn law_arranged_keeps_items(items: Seq<usize>, keys: Seq<Seq<u8>>)
    requires
        keys.len() == items.len() <= usize::MAX,
        items.no_duplicates(),
    ensures
        arranged(items, keys).len() == items.len(),
        arranged(items, keys).no_duplicates(),
        forall|x: usize| #[trigger] arranged(items, keys).contains(x) <==> items.contains(x),
{
    let order = order_of(keys);
    let after = arranged(items, keys);
    law_order_lists_all(keys);
    assert forall|i: int, j: int| 0 <= i < j < after.len() implies after[i] != after[j] by {
        assert(order.contains(order[i]) && order.contains(order[j]));
        assert(order[i] != order[j]);
    }
    assert forall|x: usize| #[trigger] after.contains(x) <==> items.contains(x) by {
        if after.contains(x) {
            let k = choose|k: int| 0 <= k < after.len() && after[k] == x;
            assert(order.contains(order[k]));
            assert(items[order[k] as int] == x);
        }
        if items.contains(x) {
            let k = choose|k: int| 0 <= k < items.len() && items[k] == x;
            assert(order.contains(k as usize));
            let m = choose|m: int| 0 <= m < order.len() && order[m] == k as usize;
            assert(after[m] == x);
        }
    }
}

/// Items that are put in order ascend by their keys.
pub proof fn law_arranged_ascends(items: Seq<usize>, keys: Seq<Seq<u8>>, i: int, j: int)
    requires
        keys.len() == items.len() <= usize::MAX,
        0 <= i < j < items.len(),
    ensures
        0 <= order_of(keys)[i] < items.len(),
        0 <= order_of(keys)[j] < items.len(),
        arranged(items, keys)[i] == items[order_of(keys)[i] as int],
        arranged(items, keys)[j] == items[order_of(keys)[j] as int],
        listed_before(keys, order_of(keys)[i] as int, order_of(keys)[j] as int),
{
    let order = order_of(keys);
    law_order_lists_all(keys);
    assert(order.contains(order[i]) && order.contains(order[j]));
}

/// Items in the order of their keys.
pub fn arrange(items: &Vec<usize>, keys: &Vec<Vec<u8>>) -> (r: Vec<usize>)
    requires
        keys@.len() == items@.len(),
    ensures
        r@ == arranged(items@, keys_of(keys@)),
{
    let order: Vec<usize> = sort_order(keys);
    let ghost all = keys_of(keys@);
    let ghost wanted = arranged(items@, all);
    let mut out: Vec<usize> = Vec::new();
    let mut k: usize = 0;
    assert(out@ =~= wanted.take(0));
    while k < order.len()
        invariant
            k <= order@.len(),
            all == keys_of(keys@),
            order@ == order_of(all),
            order@.len() == items@.len(),
            keys@.len() == items@.len(),
            ascending(all, 0, keys@.len() as int, order@),
            wanted == arranged(items@, all),
            out@ == wanted.take(k as int),
        decreases order@.len() - k,
    {
        assert(order@.contains(order@[k as int]));
        out.push(items[order[k]]);
        assert(wanted.take(k + 1) =~= wanted.take(k as int).push(wanted[k as int]));
        k = k + 1;
    }
    assert(wanted.take(wanted.len() as int) =~= wanted);
    out
}

/// The last `k` bytes of a number, the most significant one first.
pub open spec fn be(n: nat, k: nat) -> Seq<u8>
    decreases k,
{
    if k == 0 {
        Seq::empty()
    } else {
        be(n / 256, (k - 1) as nat).push((n % 256) as u8)
    }
}

/// How many numbers `k` bytes tell apart.
pub open spec fn be_limit(k: nat) -> nat
    decreases k,
{
    if k == 0 {
        1
    } else {
        256 * be_limit((k - 1) as nat)
    }
}

/// Of two strings of one length the last byte decides where all before it are equal.
proof fn lemma_lex_push(a: Seq<u8>, b: Seq<u8>, x: u8, y: u8)
    requires
        a.len() == b.len(),
    ensures
        lex_lt(a.push(x), b.push(y)) == (lex_lt(a, b) || (a == b && x < y)),
{
    assert(a.push(x) =~= a + seq![x]);
    assert(b.push(y) =~= b + seq![y]);
    if a == b {
        lemma_lex_prefix(a, seq![x], seq![y]);
        lemma_lex_total(a, b);
        reveal_with_fuel(lex_lt, 2);
    } else {
        lemma_lex_suffix(a, b, seq![x], seq![y]);
    }
}

/// Numbers are ordered as their bytes are.
pub proof fn law_be_order(a: nat, b: nat, k: nat)
    requires
        a < be_limit(k),
        b < be_limit(k),
    ensures
        be(a, k).len() == k,
        be(b, k).len() == k,
        lex_lt(be(a, k), be(b, k)) <==> a < b,
        be(a, k) == be(b, k) <==> a == b,
    decreases k,
{
    if k > 0 {
        law_be_order(a / 256, b / 256, (k - 1) as nat);
        let p = be(a / 256, (k - 1) as nat);
        let q = be(b / 256, (k - 1) as nat);
        lemma_lex_push(p, q, (a % 256) as u8, (b % 256) as u8);
        if be(a, k) == be(b, k) {
            assert(be(a, k).drop_last() =~= p);
            assert(be(b, k).drop_last() =~= q);
            assert(be(a, k).last() == (a % 256) as u8);
            assert(be(b, k).last() == (b % 256) as u8);
        }
    }
}

/// The last `k` bytes of a number, the most significant one first.
pub fn be_bytes(n: u64, k: usize) -> (r: Vec<u8>)
    ensures
        r@ == be(n as nat, k as nat),
    decreases k,
{
    if k == 0 {
        Vec::new()
    } else {
        let mut r: Vec<u8> = be_bytes(n / 256, k - 1);
        r.push((n % 256) as u8);
        r
    }
}

/// The places of the items of a list that a predicate holds of, in their order.
pub open spec fn places_where<A>(list: Seq<A>, keep: spec_fn(A) -> bool) -> Seq<usize>
    decreases list.len(),
{
    if list.len() == 0 {
        Seq::empty()
    } else {
        let before = places_where(list.drop_last(), keep);
        if keep(list.last()) {
            before.push((list.len() - 1) as usize)
        } else {
            before
        }
    }
}

/// The places of the items that a predicate holds of are places of the list, each once, and all of
/// those.
pub proof fn lemma_places_where<A>(list: Seq<A>, keep: spec_fn(A) -> bool)
    requires
        list.len() <= usize::MAX,
    ensures
        places_where(list, keep).len() <= list.len(),
        places_where(list, keep).no_duplicates(),
        forall|p: usize|
            #[trigger] places_where(list, keep).contains(p) <==> p < list.len() && keep(list[p as int]),
    decreases list.len(),
{
    let all = places_where(list, keep);
    if list.len() > 0 {
        let front = list.drop_last();
        let before = places_where(front, keep);
        let n = (list.len() - 1) as usize;
        lemma_places_where(front, keep);
        assert(!before.contains(n));
        assert forall|p: usize| #[trigger] all.contains(p) <==> p < list.len() && keep(list[p as int]) by {
            assert(before.contains(p) <==> p < front.len() && keep(front[p as int]));
            if all.contains(p) {
                let k = choose|k: int| 0 <= k < all.len() && all[k] == p;
                if k < before.len() {
                    assert(before[k] == p);
                    assert(before.contains(p));
                }
            }
            if before.contains(p) {
                let k = choose|k: int| 0 <= k < before.len() && before[k] == p;
                assert(all[k] == p);
            }
            if p == n && keep(list[n as int]) {
                assert(all[before.len() as int] == n);
            }
        }
        assert forall|i: int, j: int| 0 <= i < j < all.len() implies all[i] != all[j] by {
            assert(all[i] == before[i]);
            assert(before.contains(before[i]));
        }
    } else {
        assert forall|p: usize| !#[trigger] all.contains(p) by {}
    }
}

} // verus!
