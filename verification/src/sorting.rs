//! Stable sorting by a key of a text and two numbers.
use vstd::prelude::*;
use vstd::string::*;

use crate::text::{chars_of, same};

verus! {

/// What a row is sorted by: a text first, then two numbers.
pub struct SortKey {
    pub text: String,
    pub a: i128,
    pub b: i128,
}

/// What a row is sorted by.
pub struct KeyView {
    pub text: Seq<char>,
    pub a: int,
    pub b: int,
}

impl View for SortKey {
    type V = KeyView;

    open spec fn view(&self) -> KeyView {
        KeyView { text: self.text@, a: self.a as int, b: self.b as int }
    }
}

/// The views of a list of keys.
pub open spec fn key_views(v: Seq<SortKey>) -> Seq<KeyView> {
    v.map_values(|k: SortKey| k@)
}

/// Whether `x` stands before `y` in the order of their characters, or is `y`.
pub open spec fn text_le(x: Seq<char>, y: Seq<char>) -> bool
    decreases x.len(),
{
    if x.len() == 0 {
        true
    } else if y.len() == 0 {
        false
    } else if x[0] != y[0] {
        x[0] < y[0]
    } else {
        text_le(x.drop_first(), y.drop_first())
    }
}

/// Whether `x` may stand before `y`.
pub open spec fn key_le(x: KeyView, y: KeyView) -> bool {
    if x.text != y.text {
        text_le(x.text, y.text)
    } else if x.a != y.a {
        x.a < y.a
    } else {
        x.b <= y.b
    }
}

proof fn text_le_total(x: Seq<char>, y: Seq<char>)
    ensures
        text_le(x, y) || text_le(y, x),
    decreases x.len(),
{
    if x.len() > 0 && y.len() > 0 && x[0] == y[0] {
        text_le_total(x.drop_first(), y.drop_first());
    }
}

proof fn text_le_trans(x: Seq<char>, y: Seq<char>, z: Seq<char>)
    requires
        text_le(x, y),
        text_le(y, z),
    ensures
        text_le(x, z),
    decreases x.len(),
{
    if x.len() > 0 && y.len() > 0 && z.len() > 0 && x[0] == y[0] && y[0] == z[0] {
        text_le_trans(x.drop_first(), y.drop_first(), z.drop_first());
    }
}

proof fn text_le_antisym(x: Seq<char>, y: Seq<char>)
    requires
        text_le(x, y),
        text_le(y, x),
    ensures
        x == y,
    decreases x.len(),
{
    if x.len() > 0 && y.len() > 0 {
        text_le_antisym(x.drop_first(), y.drop_first());
        assert(x.len() == x.drop_first().len() + 1);
        assert(y.len() == y.drop_first().len() + 1);
        assert forall|i: int| 0 <= i < x.len() implies x[i] == y[i] by {
            if i > 0 {
                assert(x.drop_first()[i - 1] == x[i]);
                assert(y.drop_first()[i - 1] == y[i]);
            }
        }
        assert(x =~= y);
    } else {
        assert(x =~= y);
    }
}

proof fn key_le_total(x: KeyView, y: KeyView)
    ensures
        key_le(x, y) || key_le(y, x),
{
    text_le_total(x.text, y.text);
}

proof fn key_le_trans(x: KeyView, y: KeyView, z: KeyView)
    requires
        key_le(x, y),
        key_le(y, z),
    ensures
        key_le(x, z),
{
    if x.text != y.text && y.text != z.text {
        text_le_trans(x.text, y.text, z.text);
        if x.text == z.text {
            text_le_antisym(x.text, y.text);
        }
    }
}

/// Whether the characters of `x` stand before those of `y`, or are the same.
pub fn text_before(x: &str, y: &str) -> (r: bool)
    ensures
        r == text_le(x@, y@),
{
    let a = chars_of(x);
    let b = chars_of(y);
    let mut i: usize = 0;
    assert(a@.skip(0) =~= a@);
    assert(b@.skip(0) =~= b@);
    while i < a.len() && i < b.len()
        invariant
            i <= a@.len(),
            i <= b@.len(),
            a@ == x@,
            b@ == y@,
            text_le(a@, b@) == text_le(a@.skip(i as int), b@.skip(i as int)),
        decreases a@.len() - i,
    {
        assert(a@.skip(i as int)[0] == a@[i as int]);
        assert(b@.skip(i as int)[0] == b@[i as int]);
        let c: char = a[i];
        let d: char = b[i];
        if c != d {
            return c < d;
        }
        assert(a@.skip(i as int).drop_first() =~= a@.skip(i + 1));
        assert(b@.skip(i as int).drop_first() =~= b@.skip(i + 1));
        i += 1;
    }
    i == a.len()
}

fn key_before(x: &SortKey, y: &SortKey) -> (r: bool)
    ensures
        r == key_le(x@, y@),
{
    if !same(&x.text, &y.text) {
        text_before(&x.text, &y.text)
    } else if x.a != y.a {
        x.a < y.a
    } else {
        x.b <= y.b
    }
}

/// Where `k` goes among the keys of the sorted places `order`: behind the last one that
/// may stand before it.
pub open spec fn place(keys: Seq<KeyView>, order: Seq<int>, k: int) -> int
    decreases order.len(),
{
    if order.len() == 0 {
        0
    } else if key_le(keys[order.last()], keys[k]) {
        order.len() as int
    } else {
        place(keys, order.drop_last(), k)
    }
}

/// The places of the first `n` keys, in sorted order; keys that are the same keep theirs.
pub open spec fn order_first(keys: Seq<KeyView>, n: nat) -> Seq<int>
    decreases n,
{
    if n == 0 {
        Seq::empty()
    } else {
        let before = order_first(keys, (n - 1) as nat);
        before.insert(place(keys, before, n - 1), n - 1)
    }
}

/// The places of the keys, in sorted order; keys that are the same keep theirs.
pub open spec fn order_of(keys: Seq<KeyView>) -> Seq<int> {
    order_first(keys, keys.len())
}

/// Whether the places in `order` are sorted by their keys, ties by the places.
pub open spec fn is_sorted(keys: Seq<KeyView>, order: Seq<int>) -> bool {
    forall|i: int, j: int|
        0 <= i < j < order.len() ==> {
            let x = #[trigger] order[i];
            let y = #[trigger] order[j];
            key_le(keys[x], keys[y]) && (key_le(keys[y], keys[x]) ==> x < y)
        }
}

proof fn place_splits(keys: Seq<KeyView>, order: Seq<int>, k: int)
    requires
        is_sorted(keys, order),
    ensures
        0 <= place(keys, order, k) <= order.len(),
        forall|i: int|
            0 <= i < place(keys, order, k) ==> key_le(keys[#[trigger] order[i]], keys[k]),
        forall|i: int|
            place(keys, order, k) <= i < order.len() ==> !key_le(
                keys[#[trigger] order[i]],
                keys[k],
            ),
    decreases order.len(),
{
    if order.len() > 0 {
        if key_le(keys[order.last()], keys[k]) {
            assert forall|i: int| 0 <= i < order.len() implies key_le(
                keys[#[trigger] order[i]],
                keys[k],
            ) by {
                if i < order.len() - 1 {
                    key_le_trans(keys[order[i]], keys[order.last()], keys[k]);
                }
            }
        } else {
            assert(is_sorted(keys, order.drop_last())) by {
                assert forall|i: int, j: int| 0 <= i < j < order.drop_last().len() implies {
                    let x = #[trigger] order.drop_last()[i];
                    let y = #[trigger] order.drop_last()[j];
                    key_le(keys[x], keys[y]) && (key_le(keys[y], keys[x]) ==> x < y)
                } by {
                    assert(order.drop_last()[i] == order[i]);
                    assert(order.drop_last()[j] == order[j]);
                }
            }
            place_splits(keys, order.drop_last(), k);
            assert forall|i: int|
                place(keys, order, k) <= i < order.len() implies !key_le(
                keys[#[trigger] order[i]],
                keys[k],
            ) by {
                if i < order.len() - 1 {
                    assert(order.drop_last()[i] == order[i]);
                }
            }
            assert forall|i: int| 0 <= i < place(keys, order, k) implies key_le(
                keys[#[trigger] order[i]],
                keys[k],
            ) by {
                assert(order.drop_last()[i] == order[i]);
            }
        }
    }
}

proof fn order_first_facts(keys: Seq<KeyView>, n: nat)
    requires
        n <= keys.len(),
    ensures
        order_first(keys, n).len() == n,
        is_sorted(keys, order_first(keys, n)),
        forall|i: int| 0 <= i < n ==> 0 <= #[trigger] order_first(keys, n)[i] < n,
        forall|k: int| 0 <= k < n ==> #[trigger] order_first(keys, n).contains(k),
    decreases n,
{
    if n > 0 {
        let k = n - 1;
        order_first_facts(keys, k as nat);
        let before = order_first(keys, k as nat);
        let p = place(keys, before, k);
        place_splits(keys, before, k);
        let now = before.insert(p, k);
        assert forall|i: int, j: int| 0 <= i < j < now.len() implies {
            let x = #[trigger] now[i];
            let y = #[trigger] now[j];
            key_le(keys[x], keys[y]) && (key_le(keys[y], keys[x]) ==> x < y)
        } by {
            if i < p && j < p {
                assert(now[i] == before[i] && now[j] == before[j]);
            } else if i < p && j == p {
                assert(now[i] == before[i]);
            } else if i < p {
                assert(now[i] == before[i] && now[j] == before[j - 1]);
            } else if i == p {
                assert(now[j] == before[j - 1]);
                key_le_total(keys[before[j - 1]], keys[k]);
            } else {
                assert(now[i] == before[i - 1] && now[j] == before[j - 1]);
            }
        }
        assert forall|m: int| 0 <= m < n implies #[trigger] now.contains(m) by {
            if m == k {
                assert(now[p] == k);
            } else {
                assert(before.contains(m));
                let q = choose|q: int| 0 <= q < before.len() && before[q] == m;
                if q < p {
                    assert(now[q] == m);
                } else {
                    assert(now[q + 1] == m);
                }
            }
        }
    }
}

/// The sorted places are every place once, sorted by key, and places with one key keep
/// their order.
pub proof fn order_is_stable_sort(keys: Seq<KeyView>)
    ensures
        order_of(keys).len() == keys.len(),
        order_of(keys).no_duplicates(),
        forall|i: int| 0 <= i < keys.len() ==> 0 <= #[trigger] order_of(keys)[i] < keys.len(),
        forall|k: int| 0 <= k < keys.len() ==> #[trigger] order_of(keys).contains(k),
        is_sorted(keys, order_of(keys)),
{
    order_first_facts(keys, keys.len());
    let o = order_of(keys);
    assert forall|i: int, j: int| 0 <= i < o.len() && 0 <= j < o.len() && i != j implies o[i]
        != o[j] by {
        if i < j {
            key_le_total(keys[o[i]], keys[o[j]]);
        } else {
            key_le_total(keys[o[j]], keys[o[i]]);
        }
    }
}

/// The places as numbers.
pub open spec fn places(v: Seq<usize>) -> Seq<int> {
    v.map_values(|i: usize| i as int)
}

/// The places of the keys, in sorted order; keys that are the same keep theirs.
pub fn sorted_order(keys: &Vec<SortKey>) -> (r: Vec<usize>)
    ensures
        places(r@) == order_of(key_views(keys@)),
        r@.len() == keys@.len(),
        forall|i: int| 0 <= i < r@.len() ==> (#[trigger] r@[i]) < keys@.len(),
{
    let ghost views = key_views(keys@);
    let mut order: Vec<usize> = Vec::new();
    let mut k: usize = 0;
    assert(places(order@) =~= order_first(views, 0));
    while k < keys.len()
        invariant
            k <= keys@.len(),
            views == key_views(keys@),
            places(order@) == order_first(views, k as nat),
            order@.len() == k,
            forall|i: int| 0 <= i < order@.len() ==> (#[trigger] order@[i]) < k,
        decreases keys@.len() - k,
    {
        let ghost before = places(order@);
        let mut p: usize = order.len();
        proof {
            order_first_facts(views, k as nat);
            place_splits(views, before, k as int);
            assert(before.take(p as int) =~= before);
        }
        while p > 0 && !key_before(&keys[order[p - 1]], &keys[k])
            invariant
                p <= order@.len(),
                k < keys@.len(),
                order@.len() == k,
                views == key_views(keys@),
                before == places(order@),
                forall|i: int| 0 <= i < order@.len() ==> (#[trigger] order@[i]) < k,
                place(views, before, k as int) == place(views, before.take(p as int), k as int),
            decreases p,
        {
            assert(before.take(p as int).last() == order@[p - 1] as int);
            assert(views[order@[p - 1] as int] == keys@[order@[p - 1] as int]@);
            assert(before.take(p as int).drop_last() =~= before.take(p - 1));
            p -= 1;
        }
        proof {
            if p > 0 {
                assert(before.take(p as int).last() == order@[p - 1] as int);
                assert(views[order@[p - 1] as int] == keys@[order@[p - 1] as int]@);
            }
        }
        assert(p == place(views, before, k as int));
        let ghost was = order@;
        order.insert(p, k);
        assert(places(order@) =~= before.insert(p as int, k as int));
        assert forall|i: int| 0 <= i < order@.len() implies (#[trigger] order@[i]) < k + 1 by {
            if i < p {
                assert(order@[i] == was[i]);
            } else if i > p {
                assert(order@[i] == was[i - 1]);
            }
        }
        k += 1;
    }
    order
}

/// Texts stand in the order of the first characters in which they differ; one that another goes
/// on from stands before it.
pub proof fn the_first_difference_decides(p: Seq<char>, a: char, x: Seq<char>, b: char, y: Seq<char>)
    ensures
        a != b ==> (text_le(p.push(a) + x, p.push(b) + y) <==> a < b),
        text_le(p, p + x),
        x.len() > 0 ==> !text_le(p + x, p),
    decreases p.len(),
{
    let s = p.push(a) + x;
    let t = p.push(b) + y;
    if p.len() == 0 {
        assert(s[0] == a && t[0] == b);
        assert(p + x =~= x);
    } else {
        let q = p.drop_first();
        the_first_difference_decides(q, a, x, b, y);
        assert(s[0] == p[0] && t[0] == p[0]);
        assert(s.drop_first() =~= q.push(a) + x);
        assert(t.drop_first() =~= q.push(b) + y);
        assert((p + x)[0] == p[0]);
        assert((p + x).drop_first() =~= q + x);
    }
}

} // verus!
