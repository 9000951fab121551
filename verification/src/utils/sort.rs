//! Stable sorting by key.
//!
//! Every kind of key has a rank, a sequence of integers; ranks are compared
//! lexicographically.

use vstd::prelude::*;

verus! {

/// `a` comes before `b`, or they are equal.
pub open spec fn lex_le(a: Seq<int>, b: Seq<int>) -> bool
    decreases a.len(),
{
    if a.len() == 0 {
        true
    } else if b.len() == 0 {
        false
    } else if a[0] == b[0] {
        lex_le(a.drop_first(), b.drop_first())
    } else {
        a[0] < b[0]
    }
}

/// The index `i` comes before `j`: its key is smaller, or the keys are equal
/// and it is smaller itself.
pub open spec fn comes_before(keys: Seq<Seq<int>>, i: int, j: int) -> bool {
    if keys[i] == keys[j] {
        i < j
    } else {
        lex_le(keys[i], keys[j])
    }
}

/// The indices in `order` stand in ascending order.
pub open spec fn ascending(order: Seq<int>, keys: Seq<Seq<int>>) -> bool {
    forall|a: int, b: int|
        0 <= a < b < order.len() ==> comes_before(keys, #[trigger] order[a], #[trigger] order[b])
}

/// `order` holds exactly the indices `low..high`.
pub open spec fn covers(order: Seq<int>, low: int, high: int) -> bool {
    &&& order.len() == high - low
    &&& forall|a: int| 0 <= a < order.len() ==> low <= #[trigger] order[a] < high
    &&& forall|i: int| low <= i < high ==> #[trigger] order.contains(i)
}

/// `order` lists the indices of `keys` in ascending order of their keys, equal
/// keys in the order in which they stand.
pub open spec fn is_order(order: Seq<int>, keys: Seq<Seq<int>>) -> bool {
    covers(order, 0, keys.len() as int) && ascending(order, keys)
}

/// The indices of `keys` in ascending order of their keys, equal keys in the
/// order in which they stand.
pub open spec fn order_of(keys: Seq<Seq<int>>) -> Seq<int> {
    choose|order: Seq<int>| is_order(order, keys)
}

pub proof fn lemma_lex_reflexive(a: Seq<int>)
    ensures
        lex_le(a, a),
    decreases a.len(),
{
    if a.len() > 0 {
        lemma_lex_reflexive(a.drop_first());
    }
}

pub proof fn lemma_lex_total(a: Seq<int>, b: Seq<int>)
    ensures
        lex_le(a, b) || lex_le(b, a),
    decreases a.len(),
{
    if a.len() > 0 && b.len() > 0 && a[0] == b[0] {
        lemma_lex_total(a.drop_first(), b.drop_first());
    }
}

pub proof fn lemma_lex_antisymmetric(a: Seq<int>, b: Seq<int>)
    requires
        lex_le(a, b),
        lex_le(b, a),
    ensures
        a == b,
    decreases a.len(),
{
    if a.len() > 0 && b.len() > 0 {
        lemma_lex_antisymmetric(a.drop_first(), b.drop_first());
        assert(a =~= seq![a[0]] + a.drop_first());
        assert(b =~= seq![b[0]] + b.drop_first());
    } else {
        assert(a =~= b);
    }
}

pub proof fn lemma_lex_transitive(a: Seq<int>, b: Seq<int>, c: Seq<int>)
    requires
        lex_le(a, b),
        lex_le(b, c),
    ensures
        lex_le(a, c),
    decreases a.len(),
{
    if a.len() > 0 && b.len() > 0 && c.len() > 0 && a[0] == b[0] && b[0] == c[0] {
        lemma_lex_transitive(a.drop_first(), b.drop_first(), c.drop_first());
    }
}

/// Keys are ordered like words: what begins another comes first, and where two
/// differ for the first time, the smaller number decides.
pub proof fn law_keys_are_ordered_like_words(
    front: Seq<int>,
    x: int,
    y: int,
    a: Seq<int>,
    b: Seq<int>,
)
    ensures
        lex_le(front, front + a),
        a.len() > 0 ==> !lex_le(front + a, front),
        x != y ==> (lex_le(front + seq![x] + a, front + seq![y] + b) <==> x < y),
    decreases front.len(),
{
    if front.len() == 0 {
        assert(front + a =~= a);
        assert((front + seq![x] + a)[0] == x);
        assert((front + seq![y] + b)[0] == y);
    } else {
        let rest = front.drop_first();
        law_keys_are_ordered_like_words(rest, x, y, a, b);
        assert((front + a).drop_first() =~= rest + a);
        assert((front + seq![x] + a).drop_first() =~= rest + seq![x] + a);
        assert((front + seq![y] + b).drop_first() =~= rest + seq![y] + b);
        assert((front + seq![x] + a)[0] == front[0]);
        assert((front + seq![y] + b)[0] == front[0]);
    }
}

/// Keys of one integer are compared as integers.
pub proof fn lemma_lex_single(a: int, b: int)
    ensures
        lex_le(seq![a], seq![b]) <==> a <= b,
        seq![a] == seq![b] <==> a == b,
{
    reveal_with_fuel(lex_le, 2);
    assert(seq![a][0] == a && seq![b][0] == b);
}

proof fn lemma_before_transitive(keys: Seq<Seq<int>>, i: int, j: int, k: int)
    requires
        comes_before(keys, i, j),
        comes_before(keys, j, k),
    ensures
        comes_before(keys, i, k),
{
    if keys[i] != keys[j] && keys[j] != keys[k] {
        lemma_lex_transitive(keys[i], keys[j], keys[k]);
        if keys[i] == keys[k] {
            lemma_lex_antisymmetric(keys[i], keys[j]);
        }
    }
}

proof fn lemma_before_total(keys: Seq<Seq<int>>, i: int, j: int)
    ensures
        i == j || comes_before(keys, i, j) || comes_before(keys, j, i),
        !(comes_before(keys, i, j) && comes_before(keys, j, i)),
{
    lemma_lex_total(keys[i], keys[j]);
    if keys[i] != keys[j] && lex_le(keys[i], keys[j]) && lex_le(keys[j], keys[i]) {
        lemma_lex_antisymmetric(keys[i], keys[j]);
    }
}

/// The first position from `from` on whose index comes behind `i`.
spec fn place_for(order: Seq<int>, keys: Seq<Seq<int>>, i: int, from: int) -> int
    decreases order.len() - from,
{
    if from >= order.len() || comes_before(keys, i, order[from]) {
        from
    } else {
        place_for(order, keys, i, from + 1)
    }
}

proof fn lemma_place_for(order: Seq<int>, keys: Seq<Seq<int>>, i: int, from: int)
    requires
        0 <= from <= order.len(),
        forall|a: int| 0 <= a < from ==> !comes_before(keys, i, #[trigger] order[a]),
    ensures
        ({
            let at = place_for(order, keys, i, from);
            &&& from <= at <= order.len()
            &&& forall|a: int| 0 <= a < at ==> !comes_before(keys, i, #[trigger] order[a])
            &&& at < order.len() ==> comes_before(keys, i, order[at])
        }),
    decreases order.len() - from,
{
    if from < order.len() && !comes_before(keys, i, order[from]) {
        lemma_place_for(order, keys, i, from + 1);
    }
}

/// There is an order of the first `count` indices.
proof fn lemma_prefix_order(keys: Seq<Seq<int>>, count: nat) -> (order: Seq<int>)
    requires
        count <= keys.len(),
    ensures
        covers(order, 0, count as int),
        ascending(order, keys),
    decreases count,
{
    if count == 0 {
        Seq::empty()
    } else {
        let i = count - 1;
        let rest = lemma_prefix_order(keys, i as nat);
        lemma_place_for(rest, keys, i, 0);
        let at = place_for(rest, keys, i, 0);
        let order = rest.subrange(0, at) + seq![i] + rest.subrange(at, rest.len() as int);
        assert forall|a: int, b: int| 0 <= a < b < order.len() implies comes_before(
            keys,
            #[trigger] order[a],
            #[trigger] order[b],
        ) by {
            if a < at && b == at {
                lemma_before_total(keys, i, rest[a]);
            } else if a == at && b > at {
                if b - 1 > at {
                    lemma_before_transitive(keys, i, rest[at], rest[b - 1]);
                }
            }
        }
        assert forall|k: int| 0 <= k < count implies #[trigger] order.contains(k) by {
            if k == i {
                assert(order[at] == k);
            } else {
                assert(rest.contains(k));
                let a = choose|a: int| 0 <= a < rest.len() && rest[a] == k;
                if a < at {
                    assert(order[a] == k);
                } else {
                    assert(order[a + 1] == k);
                }
            }
        }
        order
    }
}

/// The order exists.
pub proof fn lemma_order_of(keys: Seq<Seq<int>>)
    ensures
        is_order(order_of(keys), keys),
{
    let order = lemma_prefix_order(keys, keys.len());
    assert(is_order(order, keys));
}

/// Two ascending lists of the same indices are equal.
proof fn lemma_ascending_unique(a: Seq<int>, b: Seq<int>, keys: Seq<Seq<int>>)
    requires
        a.len() == b.len(),
        ascending(a, keys),
        ascending(b, keys),
        forall|i: int| #[trigger] a.contains(i) <==> b.contains(i),
    ensures
        a == b,
    decreases a.len(),
{
    if a.len() > 0 {
        let x = a[0];
        let y = b[0];
        assert(a.contains(x) && b.contains(y));
        assert(b.contains(x));
        assert(a.contains(y));
        let i = choose|i: int| 0 <= i < b.len() && b[i] == x;
        let j = choose|j: int| 0 <= j < a.len() && a[j] == y;
        if i > 0 && j > 0 {
            assert(comes_before(keys, b[0], b[i]));
            assert(comes_before(keys, a[0], a[j]));
            lemma_before_total(keys, x, y);
        }
        assert(x == y);
        let p = a.drop_first();
        let q = b.drop_first();
        assert(ascending(p, keys)) by {
            assert forall|k: int, l: int| 0 <= k < l < p.len() implies comes_before(
                keys,
                #[trigger] p[k],
                #[trigger] p[l],
            ) by {
                assert(comes_before(keys, a[k + 1], a[l + 1]));
            }
        }
        assert(ascending(q, keys)) by {
            assert forall|k: int, l: int| 0 <= k < l < q.len() implies comes_before(
                keys,
                #[trigger] q[k],
                #[trigger] q[l],
            ) by {
                assert(comes_before(keys, b[k + 1], b[l + 1]));
            }
        }
        assert forall|k: int| #[trigger] p.contains(k) <==> q.contains(k) by {
            lemma_tail_contains(a, keys, k);
            lemma_tail_contains(b, keys, k);
            assert(a.contains(k) <==> b.contains(k));
        }
        lemma_ascending_unique(p, q, keys);
        assert(a =~= seq![x] + p);
        assert(b =~= seq![y] + q);
    } else {
        assert(a =~= b);
    }
}

proof fn lemma_tail_contains(a: Seq<int>, keys: Seq<Seq<int>>, k: int)
    requires
        a.len() > 0,
        ascending(a, keys),
    ensures
        a.drop_first().contains(k) <==> (a.contains(k) && k != a[0]),
{
    let p = a.drop_first();
    if p.contains(k) {
        let i = choose|i: int| 0 <= i < p.len() && p[i] == k;
        assert(a[i + 1] == k);
        assert(comes_before(keys, a[0], a[i + 1]));
        lemma_before_total(keys, a[0], k);
    }
    if a.contains(k) && k != a[0] {
        let i = choose|i: int| 0 <= i < a.len() && a[i] == k;
        assert(p[i - 1] == k);
    }
}

/// There is only one order.
pub proof fn lemma_order_unique(order: Seq<int>, keys: Seq<Seq<int>>)
    requires
        is_order(order, keys),
    ensures
        order == order_of(keys),
{
    lemma_order_of(keys);
    let other = order_of(keys);
    assert forall|i: int| #[trigger] order.contains(i) <==> other.contains(i) by {
        if order.contains(i) {
            let a = choose|a: int| 0 <= a < order.len() && order[a] == i;
            assert(0 <= order[a] < keys.len());
        }
        if other.contains(i) {
            let a = choose|a: int| 0 <= a < other.len() && other[a] == i;
            assert(0 <= other[a] < keys.len());
        }
    }
    lemma_ascending_unique(order, other, keys);
}

/// The items stand in strictly ascending order of their ranks.
pub open spec fn strictly_sorted<T>(items: Seq<T>, rank: spec_fn(T) -> Seq<int>) -> bool {
    forall|a: int, b: int|
        0 <= a < b < items.len() ==> lex_le(rank(#[trigger] items[a]), rank(#[trigger] items[b]))
            && rank(items[a]) != rank(items[b])
}

/// Strictly sorted lists of the same items are equal.
pub proof fn lemma_strictly_sorted_unique<T>(a: Seq<T>, b: Seq<T>, rank: spec_fn(T) -> Seq<int>)
    requires
        strictly_sorted(a, rank),
        strictly_sorted(b, rank),
        forall|x: T| #[trigger] a.contains(x) <==> b.contains(x),
    ensures
        a == b,
    decreases a.len(),
{
    if a.len() == 0 {
        if b.len() > 0 {
            assert(b.contains(b[0]));
            assert(a.contains(b[0]));
        }
        assert(a =~= b);
    } else {
        let x = a[0];
        assert(a.contains(x));
        let i = choose|i: int| 0 <= i < b.len() && b[i] == x;
        let y = b[0];
        assert(b.contains(y));
        assert(a.contains(y));
        let j = choose|j: int| 0 <= j < a.len() && a[j] == y;
        if i > 0 && j > 0 {
            lemma_lex_antisymmetric(rank(x), rank(y));
        }
        assert(x == y);
        let p = a.drop_first();
        let q = b.drop_first();
        assert forall|z: T| #[trigger] p.contains(z) <==> q.contains(z) by {
            lemma_sorted_tail(a, rank, z);
            lemma_sorted_tail(b, rank, z);
            assert(a.contains(z) <==> b.contains(z));
        }
        lemma_strictly_sorted_unique(p, q, rank);
        assert(a =~= seq![x] + p);
        assert(b =~= seq![y] + q);
    }
}

proof fn lemma_sorted_tail<T>(a: Seq<T>, rank: spec_fn(T) -> Seq<int>, z: T)
    requires
        a.len() > 0,
        strictly_sorted(a, rank),
    ensures
        strictly_sorted(a.drop_first(), rank),
        a.drop_first().contains(z) <==> (a.contains(z) && z != a[0]),
{
    let p = a.drop_first();
    assert forall|k: int, l: int| 0 <= k < l < p.len() implies lex_le(
        rank(#[trigger] p[k]),
        rank(#[trigger] p[l]),
    ) && rank(p[k]) != rank(p[l]) by {
        assert(p[k] == a[k + 1] && p[l] == a[l + 1]);
    }
    if p.contains(z) {
        let i = choose|i: int| 0 <= i < p.len() && p[i] == z;
        assert(a[i + 1] == z);
        assert(rank(a[0]) != rank(a[i + 1]));
    }
    if a.contains(z) && z != a[0] {
        let i = choose|i: int| 0 <= i < a.len() && a[i] == z;
        assert(p[i - 1] == z);
    }
}

/// A value by which things are sorted.
pub trait SortKey: Sized {
    spec fn rank(&self) -> Seq<int>;

    fn at_most(&self, other: &Self) -> (yes: bool)
        ensures
            yes == lex_le(self.rank(), other.rank()),
    ;
}

impl SortKey for u32 {
    open spec fn rank(&self) -> Seq<int> {
        seq![*self as int]
    }

    fn at_most(&self, other: &Self) -> (yes: bool) {
        proof {
            lemma_lex_single(*self as int, *other as int);
        }
        *self <= *other
    }
}

impl SortKey for Vec<u16> {
    open spec fn rank(&self) -> Seq<int> {
        Seq::new(self@.len(), |i: int| self@[i] as int)
    }

    fn at_most(&self, other: &Self) -> (yes: bool) {
        let ghost a = self.rank();
        let ghost b = other.rank();
        let mut i: usize = 0;
        assert(a.skip(0) =~= a && b.skip(0) =~= b);
        while i < self.len() && i < other.len()
            invariant
                a == self.rank(),
                b == other.rank(),
                i <= self@.len(),
                i <= other@.len(),
                lex_le(a, b) == lex_le(a.skip(i as int), b.skip(i as int)),
            decreases self@.len() - i,
        {
            assert(a.skip(i as int).drop_first() =~= a.skip(i + 1));
            assert(b.skip(i as int).drop_first() =~= b.skip(i + 1));
            if self[i] != other[i] {
                return self[i] < other[i];
            }
            i = i + 1;
        }
        i == self.len()
    }
}

/// The ranks of a list of keys.
pub open spec fn ranks<K: SortKey>(keys: Seq<K>) -> Seq<Seq<int>> {
    Seq::new(keys.len(), |i: int| keys[i].rank())
}

/// Machine integers as integers.
pub open spec fn as_ints(order: Seq<usize>) -> Seq<int> {
    Seq::new(order.len(), |i: int| order[i] as int)
}

/// Merges the orders of two neighbouring index ranges.
fn merge<K: SortKey>(
    keys: &Vec<K>,
    left: &Vec<usize>,
    right: &Vec<usize>,
    Ghost(low): Ghost<int>,
    Ghost(mid): Ghost<int>,
    Ghost(high): Ghost<int>,
) -> (order: Vec<usize>)
    requires
        0 <= low <= mid <= high <= keys@.len(),
        covers(as_ints(left@), low, mid),
        covers(as_ints(right@), mid, high),
        ascending(as_ints(left@), ranks(keys@)),
        ascending(as_ints(right@), ranks(keys@)),
    ensures
        covers(as_ints(order@), low, high),
        ascending(as_ints(order@), ranks(keys@)),
{
    let ghost k = ranks(keys@);
    let ghost l = as_ints(left@);
    let ghost r = as_ints(right@);
    let mut order: Vec<usize> = Vec::new();
    let mut i: usize = 0;
    let mut j: usize = 0;
    while i < left.len() || j < right.len()
        invariant
            k == ranks(keys@),
            l == as_ints(left@),
            r == as_ints(right@),
            0 <= low <= mid <= high <= keys@.len(),
            covers(l, low, mid),
            covers(r, mid, high),
            ascending(l, k),
            ascending(r, k),
            i <= left@.len(),
            j <= right@.len(),
            order@.len() == i + j,
            ascending(as_ints(order@), k),
            forall|a: int| 0 <= a < order@.len() ==> low <= #[trigger] order@[a] < high,
            forall|a: int, b: int|
                0 <= a < order@.len() && i <= b < l.len() ==> comes_before(
                    k,
                    #[trigger] order@[a] as int,
                    #[trigger] l[b],
                ),
            forall|a: int, b: int|
                0 <= a < order@.len() && j <= b < r.len() ==> comes_before(
                    k,
                    #[trigger] order@[a] as int,
                    #[trigger] r[b],
                ),
            forall|b: int| 0 <= b < i ==> #[trigger] as_ints(order@).contains(l[b]),
            forall|b: int| 0 <= b < j ==> #[trigger] as_ints(order@).contains(r[b]),
        decreases left@.len() - i + right@.len() - j,
    {
        assert(i < left@.len() ==> l[i as int] == left@[i as int] && low <= l[i as int] < mid);
        assert(j < right@.len() ==> r[j as int] == right@[j as int] && mid <= r[j as int] < high);
        let take_left = if i == left.len() {
            false
        } else if j == right.len() {
            true
        } else {
            keys[left[i]].at_most(&keys[right[j]])
        };
        let ghost before = order@;
        if take_left {
            let index: usize = left[i];
            order.push(index);
            proof {
                lemma_appended(before, index, k);
                if j < r.len() {
                    assert(comes_before(k, index as int, r[j as int]));
                    assert forall|b: int| j <= b < r.len() implies comes_before(
                        k,
                        index as int,
                        #[trigger] r[b],
                    ) by {
                        if b > j {
                            lemma_before_transitive(k, index as int, r[j as int], r[b]);
                        }
                    }
                }
                assert(as_ints(order@)[before.len() as int] == index);
                assert forall|b: int| 0 <= b < i + 1 implies #[trigger] as_ints(
                    order@,
                ).contains(l[b]) by {
                    if b < i {
                        assert(as_ints(before).contains(l[b]));
                        lemma_contains_appended(before, index, l[b]);
                    }
                }
                assert forall|b: int| 0 <= b < j implies #[trigger] as_ints(order@).contains(
                    r[b],
                ) by {
                    assert(as_ints(before).contains(r[b]));
                    lemma_contains_appended(before, index, r[b]);
                }
            }
            i = i + 1;
        } else {
            let index: usize = right[j];
            order.push(index);
            proof {
                lemma_appended(before, index, k);
                if i < l.len() {
                    lemma_lex_total(k[index as int], k[l[i as int]]);
                    if k[index as int] == k[l[i as int]] {
                        lemma_lex_reflexive(k[index as int]);
                    }
                    assert(comes_before(k, index as int, l[i as int]));
                    assert forall|b: int| i <= b < l.len() implies comes_before(
                        k,
                        index as int,
                        #[trigger] l[b],
                    ) by {
                        if b > i {
                            lemma_before_transitive(k, index as int, l[i as int], l[b]);
                        }
                    }
                }
                assert(as_ints(order@)[before.len() as int] == index);
                assert forall|b: int| 0 <= b < j + 1 implies #[trigger] as_ints(
                    order@,
                ).contains(r[b]) by {
                    if b < j {
                        assert(as_ints(before).contains(r[b]));
                        lemma_contains_appended(before, index, r[b]);
                    }
                }
                assert forall|b: int| 0 <= b < i implies #[trigger] as_ints(order@).contains(
                    l[b],
                ) by {
                    assert(as_ints(before).contains(l[b]));
                    lemma_contains_appended(before, index, l[b]);
                }
            }
            j = j + 1;
        }
    }
    proof {
        assert forall|x: int| low <= x < high implies #[trigger] as_ints(order@).contains(x) by {
            if x < mid {
                assert(l.contains(x));
                let b = choose|b: int| 0 <= b < l.len() && l[b] == x;
                assert(as_ints(order@).contains(l[b]));
            } else {
                assert(r.contains(x));
                let b = choose|b: int| 0 <= b < r.len() && r[b] == x;
                assert(as_ints(order@).contains(r[b]));
            }
        }
    }
    order
}

proof fn lemma_contains_appended(order: Seq<usize>, index: usize, x: int)
    requires
        as_ints(order).contains(x),
    ensures
        as_ints(order.push(index)).contains(x),
{
    let a = choose|a: int| 0 <= a < order.len() && as_ints(order)[a] == x;
    assert(as_ints(order.push(index))[a] == x);
}

proof fn lemma_appended(order: Seq<usize>, index: usize, keys: Seq<Seq<int>>)
    requires
        ascending(as_ints(order), keys),
        forall|a: int|
            0 <= a < order.len() ==> comes_before(keys, #[trigger] order[a] as int, index as int),
    ensures
        ascending(as_ints(order.push(index)), keys),
{
    let next = as_ints(order.push(index));
    assert forall|a: int, b: int| 0 <= a < b < next.len() implies comes_before(
        keys,
        #[trigger] next[a],
        #[trigger] next[b],
    ) by {
        assert(next[a] == order[a]);
        if b < order.len() {
            assert(as_ints(order)[a] == next[a] && as_ints(order)[b] == next[b]);
        }
    }
}

fn sort_range<K: SortKey>(keys: &Vec<K>, low: usize, high: usize) -> (order: Vec<usize>)
    requires
        low <= high <= keys@.len(),
    ensures
        covers(as_ints(order@), low as int, high as int),
        ascending(as_ints(order@), ranks(keys@)),
    decreases high - low,
{
    if high - low == 0 {
        return Vec::new();
    }
    if high - low == 1 {
        let mut order: Vec<usize> = Vec::new();
        order.push(low);
        assert(as_ints(order@)[0] == low);
        return order;
    }
    let mid: usize = low + (high - low) / 2;
    let left = sort_range(keys, low, mid);
    let right = sort_range(keys, mid, high);
    merge(keys, &left, &right, Ghost(low as int), Ghost(mid as int), Ghost(high as int))
}

/// The indices of `keys` in ascending order of their keys, equal keys in the
/// order in which they stand.
pub fn stable_order<K: SortKey>(keys: &Vec<K>) -> (order: Vec<usize>)
    ensures
        as_ints(order@) == order_of(ranks(keys@)),
        is_order(as_ints(order@), ranks(keys@)),
{
    let order = sort_range(keys, 0, keys.len());
    proof {
        lemma_order_unique(as_ints(order@), ranks(keys@));
    }
    order
}

} // verus!
