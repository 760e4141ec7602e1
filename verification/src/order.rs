//! The stable order of a list of texts.

use crate::text::{comes_before, precedes};
use vstd::prelude::*;

verus! {

/// Whether the item at `a` goes before the one at `b`: by its key, and where the keys are
/// equal by its place in the list.
pub open spec fn goes_first(keys: Seq<Seq<char>>, a: int, b: int) -> bool {
    precedes(keys[a], keys[b]) || (keys[a] == keys[b] && a < b)
}

/// Whether `order` lists each index of `keys`, and lists them in stable order.
pub open spec fn is_stable_order(keys: Seq<Seq<char>>, order: Seq<int>) -> bool {
    &&& order.len() == keys.len()
    &&& forall|i: int| 0 <= i < order.len() ==> 0 <= #[trigger] order[i] < keys.len()
    &&& forall|k: int| 0 <= k < keys.len() ==> #[trigger] order.contains(k)
    &&& increasing(keys, order)
}

/// Whether each item of `order` goes before all later ones.
pub open spec fn increasing(keys: Seq<Seq<char>>, order: Seq<int>) -> bool {
    forall|i: int, j: int|
        0 <= i < j < order.len() ==> goes_first(keys, #[trigger] order[i], #[trigger] order[j])
}

/// The indices of `keys` in stable order.
pub open spec fn stable_order(keys: Seq<Seq<char>>) -> Seq<int> {
    choose|order: Seq<int>| is_stable_order(keys, order)
}

/// The indices that a vector of machine integers lists.
pub open spec fn indices(order: Seq<usize>) -> Seq<int> {
    order.map_values(|k: usize| k as int)
}

/// The texts that a sequence of character vectors holds.
pub open spec fn key_texts(keys: Seq<Vec<char>>) -> Seq<Seq<char>> {
    keys.map_values(|key: Vec<char>| key@)
}

pub proof fn lemma_precedes_asymmetric(a: Seq<char>, b: Seq<char>)
    ensures
        !(precedes(a, b) && precedes(b, a)),
        !precedes(a, a),
    decreases a.len(),
{
    if a.len() > 0 {
        lemma_precedes_asymmetric(a.drop_first(), b.drop_first());
    }
}

proof fn lemma_precedes_transitive(a: Seq<char>, b: Seq<char>, c: Seq<char>)
    requires
        precedes(a, b),
        precedes(b, c),
    ensures
        precedes(a, c),
    decreases a.len(),
{
    if a.len() > 0 && a[0] == b[0] && b[0] == c[0] {
        lemma_precedes_transitive(a.drop_first(), b.drop_first(), c.drop_first());
    }
}

proof fn lemma_precedes_total(a: Seq<char>, b: Seq<char>)
    ensures
        precedes(a, b) || precedes(b, a) || a == b,
    decreases a.len(),
{
    if a.len() > 0 && b.len() > 0 && a[0] == b[0] {
        lemma_precedes_total(a.drop_first(), b.drop_first());
        if a.drop_first() == b.drop_first() {
            assert(a =~= seq![a[0]] + a.drop_first());
            assert(b =~= seq![b[0]] + b.drop_first());
        }
    } else if a.len() == 0 && b.len() == 0 {
        assert(a =~= b);
    }
}

proof fn lemma_goes_first_transitive(keys: Seq<Seq<char>>, a: int, b: int, c: int)
    requires
        goes_first(keys, a, b),
        goes_first(keys, b, c),
    ensures
        goes_first(keys, a, c),
{
    if precedes(keys[a], keys[b]) && precedes(keys[b], keys[c]) {
        lemma_precedes_transitive(keys[a], keys[b], keys[c]);
    }
}

proof fn lemma_goes_first_asymmetric(keys: Seq<Seq<char>>, a: int, b: int)
    ensures
        !(goes_first(keys, a, b) && goes_first(keys, b, a)),
        !goes_first(keys, a, a),
{
    lemma_precedes_asymmetric(keys[a], keys[b]);
    lemma_precedes_asymmetric(keys[b], keys[a]);
    lemma_precedes_asymmetric(keys[a], keys[a]);
}

/// Whether each item goes before all later ones.
pub open spec fn ascending<T>(before: spec_fn(T, T) -> bool, items: Seq<T>) -> bool {
    forall|i: int, j: int|
        0 <= i < j < items.len() ==> before(#[trigger] items[i], #[trigger] items[j])
}

/// Two ascending lists with the same items are equal.
pub proof fn lemma_ascending_unique<T>(before: spec_fn(T, T) -> bool, a: Seq<T>, b: Seq<T>)
    requires
        forall|x: T, y: T| #[trigger] before(x, y) ==> !before(y, x),
        ascending(before, a),
        ascending(before, b),
        forall|x: T| #[trigger] a.contains(x) <==> b.contains(x),
    ensures
        a == b,
    decreases a.len(),
{
    if a.len() == 0 {
        if b.len() > 0 {
            assert(b.contains(b[0]));
            assert(a.contains(b[0]));
        }
        assert(a =~= b);
    } else {
        assert(a.contains(a.last()));
        assert(b.contains(a.last()));
        let i = choose|i: int| 0 <= i < b.len() && b[i] == a.last();
        assert(b.contains(b.last()));
        assert(a.contains(b.last()));
        let j = choose|j: int| 0 <= j < a.len() && a[j] == b.last();
        if i < b.len() - 1 && j < a.len() - 1 {
            assert(before(b[i], b[b.len() - 1]));
            assert(before(a[j], a[a.len() - 1]));
        }
        assert(a.last() == b.last());
        let shorter_a = a.drop_last();
        let shorter_b = b.drop_last();
        assert forall|x: T| #[trigger] shorter_a.contains(x) <==> shorter_b.contains(x) by {
            if shorter_a.contains(x) {
                let m = choose|m: int| 0 <= m < shorter_a.len() && shorter_a[m] == x;
                assert(before(a[m], a[a.len() - 1]));
                assert(a[m] == x);
                assert(a.contains(x));
                assert(b.contains(x));
                let n = choose|n: int| 0 <= n < b.len() && b[n] == x;
                assert(x != b.last());
                assert(shorter_b[n] == x);
            }
            if shorter_b.contains(x) {
                let m = choose|m: int| 0 <= m < shorter_b.len() && shorter_b[m] == x;
                assert(before(b[m], b[b.len() - 1]));
                assert(b[m] == x);
                assert(b.contains(x));
                assert(a.contains(x));
                let n = choose|n: int| 0 <= n < a.len() && a[n] == x;
                assert(x != a.last());
                assert(shorter_a[n] == x);
            }
        }
        assert(ascending(before, shorter_a)) by {
            assert forall|i: int, j: int| 0 <= i < j < shorter_a.len() implies before(
                #[trigger] shorter_a[i],
                #[trigger] shorter_a[j],
            ) by {
                assert(before(a[i], a[j]));
            }
        }
        assert(ascending(before, shorter_b)) by {
            assert forall|i: int, j: int| 0 <= i < j < shorter_b.len() implies before(
                #[trigger] shorter_b[i],
                #[trigger] shorter_b[j],
            ) by {
                assert(before(b[i], b[j]));
            }
        }
        lemma_ascending_unique(before, shorter_a, shorter_b);
        assert(a =~= shorter_a.push(a.last()));
        assert(b =~= shorter_b.push(b.last()));
    }
}

/// Putting the next index behind those that it does not precede keeps the order stable.
proof fn lemma_insertion(keys: Seq<Seq<char>>, listed: Seq<int>, p: int)
    requires
        0 <= p <= listed.len() < keys.len(),
        forall|i: int| 0 <= i < listed.len() ==> 0 <= #[trigger] listed[i] < listed.len(),
        forall|m: int| 0 <= m < listed.len() ==> #[trigger] listed.contains(m),
        increasing(keys, listed),
        p > 0 ==> !precedes(keys[listed.len() as int], keys[listed[p - 1]]),
        forall|i: int|
            p <= i < listed.len() ==> precedes(
                keys[listed.len() as int],
                keys[#[trigger] listed[i]],
            ),
    ensures
        ({
            let longer = listed.insert(p, listed.len() as int);
            &&& forall|i: int| 0 <= i < longer.len() ==> 0 <= #[trigger] longer[i] < longer.len()
            &&& forall|m: int| 0 <= m < longer.len() ==> #[trigger] longer.contains(m)
            &&& increasing(keys, longer)
        }),
{
    let k = listed.len() as int;
    let longer = listed.insert(p, k);
    assert forall|i: int, j: int| 0 <= i < j < longer.len() implies goes_first(
        keys,
        #[trigger] longer[i],
        #[trigger] longer[j],
    ) by {
        let old_i = if i < p { i } else { i - 1 };
        let old_j = if j < p { j } else { j - 1 };
        if i != p && j != p {
            assert(goes_first(keys, listed[old_i], listed[old_j]));
        } else if i == p {
            assert(longer[j] == listed[old_j]);
        } else {
            let last = listed[p - 1];
            lemma_precedes_total(keys[k], keys[last]);
            assert(goes_first(keys, last, k));
            if i < p - 1 {
                assert(goes_first(keys, listed[i], listed[p - 1]));
                lemma_goes_first_transitive(keys, listed[i], last, k);
            }
        }
    }
    assert forall|m: int| 0 <= m < longer.len() implies #[trigger] longer.contains(m) by {
        if m == k {
            assert(longer[p] == m);
        } else {
            assert(listed.contains(m));
            let i = choose|i: int| 0 <= i < listed.len() && listed[i] == m;
            let new_i = if i < p { i } else { i + 1 };
            assert(longer[new_i] == m);
        }
    }
}

/// Where the next index goes, among the first `p` places of `listed`.
spec fn slot(keys: Seq<Seq<char>>, listed: Seq<int>, p: int) -> int
    decreases p,
{
    if p > 0 && precedes(keys[listed.len() as int], keys[listed[p - 1]]) {
        slot(keys, listed, p - 1)
    } else {
        p
    }
}

proof fn lemma_slot(keys: Seq<Seq<char>>, listed: Seq<int>, p: int)
    requires
        0 <= p <= listed.len(),
    ensures
        0 <= slot(keys, listed, p) <= p,
        slot(keys, listed, p) > 0 ==> !precedes(
            keys[listed.len() as int],
            keys[listed[slot(keys, listed, p) - 1]],
        ),
        forall|i: int|
            slot(keys, listed, p) <= i < p ==> precedes(
                keys[listed.len() as int],
                keys[#[trigger] listed[i]],
            ),
    decreases p,
{
    if p > 0 && precedes(keys[listed.len() as int], keys[listed[p - 1]]) {
        lemma_slot(keys, listed, p - 1);
    }
}

proof fn lemma_order_of_first(keys: Seq<Seq<char>>, n: nat) -> (listed: Seq<int>)
    requires
        n <= keys.len(),
    ensures
        listed.len() == n,
        forall|i: int| 0 <= i < n ==> 0 <= #[trigger] listed[i] < n,
        forall|m: int| 0 <= m < n ==> #[trigger] listed.contains(m),
        increasing(keys, listed),
    decreases n,
{
    if n == 0 {
        Seq::empty()
    } else {
        let shorter = lemma_order_of_first(keys, (n - 1) as nat);
        lemma_slot(keys, shorter, n - 1);
        let p = slot(keys, shorter, n - 1);
        lemma_insertion(keys, shorter, p);
        shorter.insert(p, n - 1)
    }
}

/// Every list of texts has a stable order.
pub proof fn law_stable_order_exists(keys: Seq<Seq<char>>)
    ensures
        is_stable_order(keys, stable_order(keys)),
{
    let order = lemma_order_of_first(keys, keys.len());
    assert(is_stable_order(keys, order));
}

/// A list of texts has one stable order.
pub proof fn law_stable_order_is_unique(keys: Seq<Seq<char>>, order: Seq<int>)
    requires
        is_stable_order(keys, order),
    ensures
        order == stable_order(keys),
        is_stable_order(keys, stable_order(keys)),
{
    let other = stable_order(keys);
    assert(is_stable_order(keys, other));
    assert forall|k: int| #[trigger] order.contains(k) <==> other.contains(k) by {
        if order.contains(k) {
            let i = choose|i: int| 0 <= i < order.len() && order[i] == k;
            assert(0 <= order[i] < keys.len());
        }
        if other.contains(k) {
            let i = choose|i: int| 0 <= i < other.len() && other[i] == k;
            assert(0 <= other[i] < keys.len());
        }
    }
    let before = |a: int, b: int| goes_first(keys, a, b);
    assert forall|x: int, y: int| #[trigger] before(x, y) implies !before(y, x) by {
        lemma_goes_first_asymmetric(keys, x, y);
    }
    assert(ascending(before, order)) by {
        assert forall|i: int, j: int| 0 <= i < j < order.len() implies before(
            #[trigger] order[i],
            #[trigger] order[j],
        ) by {
            assert(goes_first(keys, order[i], order[j]));
        }
    }
    assert(ascending(before, other)) by {
        assert forall|i: int, j: int| 0 <= i < j < other.len() implies before(
            #[trigger] other[i],
            #[trigger] other[j],
        ) by {
            assert(goes_first(keys, other[i], other[j]));
        }
    }
    lemma_ascending_unique(before, order, other);
}

/// The indices of `keys` in stable order.
pub fn sort(keys: &Vec<Vec<char>>) -> (r: Vec<usize>)
    ensures
        indices(r@) == stable_order(key_texts(keys@)),
        is_stable_order(key_texts(keys@), indices(r@)),
        r@.len() == keys@.len(),
        forall|i: int| 0 <= i < r@.len() ==> #[trigger] r@[i] < keys@.len(),
{
    let ghost texts = key_texts(keys@);
    let mut order: Vec<usize> = Vec::new();
    let mut k: usize = 0;
    while k < keys.len()
        invariant
            texts == key_texts(keys@),
            k <= keys@.len(),
            order@.len() == k,
            forall|i: int| 0 <= i < k ==> 0 <= #[trigger] order@[i] < k,
            forall|m: int| 0 <= m < k ==> #[trigger] indices(order@).contains(m),
            increasing(texts, indices(order@)),
        decreases keys@.len() - k,
    {
        let mut p: usize = order.len();
        while p > 0 && comes_before(&keys[k], &keys[order[p - 1]])
            invariant
                texts == key_texts(keys@),
                k < keys@.len(),
                order@.len() == k,
                p <= k,
                forall|i: int| 0 <= i < k ==> 0 <= #[trigger] order@[i] < k,
                forall|i: int|
                    p <= i < k ==> precedes(texts[k as int], texts[#[trigger] order@[i] as int]),
            decreases p,
        {
            p = p - 1;
        }
        let ghost before = order@;
        order.insert(p, k);
        proof {
            assert(indices(order@) =~= indices(before).insert(p as int, k as int));
            assert forall|i: int| 0 <= i < k implies 0 <= #[trigger] indices(before)[i] < k by {
                assert(before[i] < k);
            }
            assert forall|i: int| p <= i < k implies precedes(
                texts[k as int],
                texts[#[trigger] indices(before)[i]],
            ) by {
                assert(before[i] < k);
            }
            lemma_insertion(texts, indices(before), p as int);
            assert forall|i: int| 0 <= i < k + 1 implies 0 <= #[trigger] order@[i] < k + 1 by {
                assert(indices(order@)[i] < k + 1);
            }
        }
        k = k + 1;
    }
    proof {
        assert(is_stable_order(texts, indices(order@)));
        law_stable_order_is_unique(texts, indices(order@));
    }
    order
}

} // verus!
