//! Facts about sequences that loops use.
use vstd::prelude::*;

use crate::sorting::{
    key_le, key_views, order_is_stable_sort, order_of, places, sorted_order, KeyView, SortKey,
};

verus! {

/// Filtering one element more.
pub proof fn filter_step<A>(s: Seq<A>, i: int, f: spec_fn(A) -> bool)
    requires
        0 <= i < s.len(),
    ensures
        s.take(i + 1).filter(f) == (if f(s[i]) {
            s.take(i).filter(f).push(s[i])
        } else {
            s.take(i).filter(f)
        }),
{
    reveal(Seq::filter);
    assert(s.take(i + 1).drop_last() =~= s.take(i));
}

/// Filtering nothing gives nothing.
pub proof fn filter_none<A>(s: Seq<A>, f: spec_fn(A) -> bool)
    ensures
        s.take(0).filter(f) == Seq::<A>::empty(),
{
    reveal(Seq::filter);
    assert(s.take(0) =~= Seq::<A>::empty());
}

/// Taking all of a sequence.
pub proof fn take_all<A>(s: Seq<A>)
    ensures
        s.take(s.len() as int) == s,
{
    assert(s.take(s.len() as int) =~= s);
}

/// Mapping one element more.
pub proof fn map_push<A, B>(s: Seq<A>, a: A, f: spec_fn(A) -> B)
    ensures
        s.push(a).map_values(f) == s.map_values(f).push(f(a)),
{
    assert(s.push(a).map_values(f) =~= s.map_values(f).push(f(a)));
}

/// Whether `s` stands in the strict order of `id`, none above `last`.
pub open spec fn rising<A>(s: Seq<A>, id: spec_fn(A) -> int, last: int) -> bool {
    &&& forall|i: int, j: int| 0 <= i < j < s.len() ==> id(#[trigger] s[i]) < id(#[trigger] s[j])
    &&& forall|i: int| 0 <= i < s.len() ==> id(#[trigger] s[i]) <= last
}

/// What is left of a sequence was in it and is what the filter accepts.
pub proof fn filter_from<A>(s: Seq<A>, f: spec_fn(A) -> bool)
    ensures
        s.filter(f).len() <= s.len(),
        forall|i: int|
            0 <= i < s.filter(f).len() ==> s.contains(#[trigger] s.filter(f)[i]) && f(
                s.filter(f)[i],
            ),
    decreases s.len(),
{
    reveal(Seq::filter);
    if s.len() > 0 {
        let init = s.drop_last();
        filter_from(init, f);
        let before = init.filter(f);
        let now = s.filter(f);
        assert forall|i: int| 0 <= i < now.len() implies s.contains(#[trigger] now[i]) && f(now[i]) by {
            if i < before.len() {
                assert(now[i] == before[i]);
                let k = choose|k: int| 0 <= k < init.len() && init[k] == before[i];
                assert(s[k] == now[i]);
            } else {
                assert(now[i] == s[s.len() - 1]);
            }
        }
    }
}

/// What is left of a rising sequence rises.
pub proof fn filter_rises<A>(
    s: Seq<A>,
    f: spec_fn(A) -> bool,
    id: spec_fn(A) -> int,
    last: int,
)
    requires
        rising(s, id, last),
    ensures
        rising(s.filter(f), id, last),
    decreases s.len(),
{
    reveal(Seq::filter);
    if s.len() > 0 {
        let init = s.drop_last();
        assert forall|i: int, j: int| 0 <= i < j < init.len() implies id(#[trigger] init[i]) < id(
            #[trigger] init[j],
        ) by {
            assert(id(s[i]) < id(s[j]));
        }
        assert forall|i: int| 0 <= i < init.len() implies id(#[trigger] init[i]) <= last by {
            assert(id(s[i]) <= last);
        }
        filter_rises(init, f, id, last);
        let before = init.filter(f);
        let now = s.filter(f);
        if f(s.last()) {
            filter_from(init, f);
            assert(now =~= before.push(s.last()));
            assert forall|i: int, j: int| 0 <= i < j < now.len() implies id(#[trigger] now[i]) < id(
                #[trigger] now[j],
            ) by {
                if j < before.len() {
                    assert(id(before[i]) < id(before[j]));
                } else {
                    assert(init.contains(before[i]));
                    let k = choose|k: int| 0 <= k < init.len() && init[k] == before[i];
                    assert(id(s[k]) < id(s[s.len() - 1]));
                }
            }
            assert forall|i: int| 0 <= i < now.len() implies id(#[trigger] now[i]) <= last by {
                if i < before.len() {
                    assert(id(before[i]) <= last);
                } else {
                    assert(id(s[s.len() - 1]) <= last);
                }
            }
        }
    }
}

/// The elements of `s` at the places `idx`.
pub open spec fn picked<A>(s: Seq<A>, idx: Seq<usize>) -> Seq<A> {
    idx.map_values(|i: usize| s[i as int])
}

/// `s` sorted by `key`; elements with one key keep their order.
pub open spec fn sorted_by<A>(s: Seq<A>, key: spec_fn(A) -> KeyView) -> Seq<A> {
    order_of(s.map_values(key)).map_values(|i: int| s[i])
}

/// The places `sel` in the order of their keys.
pub fn arrange(sel: &Vec<usize>, keys: &Vec<SortKey>) -> (r: Vec<usize>)
    requires
        sel@.len() == keys@.len(),
    ensures
        r@.len() == sel@.len(),
        forall|i: int| 0 <= i < r@.len() ==> sel@.contains(#[trigger] r@[i]),
        r@ == order_of(key_views(keys@)).map_values(|i: int| sel@[i]),
{
    let order = sorted_order(keys);
    let ghost o = order_of(key_views(keys@));
    let mut out: Vec<usize> = Vec::new();
    let mut i: usize = 0;
    while i < order.len()
        invariant
            i <= order@.len(),
            order@.len() == keys@.len(),
            sel@.len() == keys@.len(),
            o == order_of(key_views(keys@)),
            places(order@) == o,
            forall|k: int| 0 <= k < order@.len() ==> (#[trigger] order@[k]) < keys@.len(),
            out@ == o.take(i as int).map_values(|k: int| sel@[k]),
        decreases order@.len() - i,
    {
        assert(o[i as int] == order@[i as int] as int);
        out.push(sel[order[i]]);
        i += 1;
        assert(out@ =~= o.take(i as int).map_values(|k: int| sel@[k]));
    }
    assert(places(order@).len() == order@.len());
    assert(o.take(o.len() as int) =~= o);
    assert forall|k: int| 0 <= k < out@.len() implies sel@.contains(#[trigger] out@[k]) by {
        assert(o[k] == order@[k] as int);
        assert(out@[k] == sel@[order@[k] as int]);
    }
    out
}

/// Picking in the order of the keys is sorting what is picked.
pub proof fn arranged_is_sorted<A>(
    s: Seq<A>,
    sel: Seq<usize>,
    keys: Seq<KeyView>,
    key: spec_fn(A) -> KeyView,
    r: Seq<usize>,
)
    requires
        keys == picked(s, sel).map_values(key),
        r == order_of(keys).map_values(|i: int| sel[i]),
    ensures
        picked(s, r) == sorted_by(picked(s, sel), key),
{
    let p = picked(s, sel);
    order_is_stable_sort(keys);
    let o = order_of(keys);
    assert forall|k: int| 0 <= k < r.len() implies picked(s, r)[k] == sorted_by(p, key)[k] by {
        assert(0 <= o[k] < keys.len());
    }
    assert(picked(s, r) =~= sorted_by(p, key));
}

/// What stands at all the places, in whichever order they come, is what the sequence holds.
pub proof fn places_keep_all<A>(s: Seq<A>, o: Seq<int>)
    requires
        o.len() == s.len(),
        o.no_duplicates(),
        forall|i: int| 0 <= i < o.len() ==> 0 <= #[trigger] o[i] < s.len(),
        forall|k: int| 0 <= k < s.len() ==> #[trigger] o.contains(k),
    ensures
        o.map_values(|i: int| s[i]).to_multiset() == s.to_multiset(),
    decreases s.len(),
{
    broadcast use vstd::seq_lib::group_to_multiset_ensures;

    let at = o.map_values(|i: int| s[i]);
    if s.len() == 0 {
        assert(at =~= s);
    } else {
        let n = s.len() - 1;
        assert(o.contains(n));
        let j = choose|j: int| 0 <= j < o.len() && o[j] == n;
        let init = s.drop_last();
        let less = o.remove(j);
        assert forall|i: int| 0 <= i < less.len() implies 0 <= #[trigger] less[i] < init.len() by {
            let k = if i < j {
                i
            } else {
                i + 1
            };
            assert(less[i] == o[k]);
            assert(o[k] != o[j]);
        }
        assert forall|a: int, b: int|
            0 <= a < less.len() && 0 <= b < less.len() && a != b implies less[a] != less[b] by {
            let x = if a < j {
                a
            } else {
                a + 1
            };
            let y = if b < j {
                b
            } else {
                b + 1
            };
            assert(o[x] != o[y]);
        }
        assert forall|k: int| 0 <= k < init.len() implies #[trigger] less.contains(k) by {
            assert(o.contains(k));
            let x = choose|x: int| 0 <= x < o.len() && o[x] == k;
            if x < j {
                assert(less[x] == k);
            } else {
                assert(less[x - 1] == k);
            }
        }
        places_keep_all(init, less);
        assert(at.remove(j) =~= less.map_values(|i: int| init[i]));
        assert(init.push(s.last()) =~= s);
        assert(at[j] == s.last());
        assert(at.contains(s.last()));
        assert(at.to_multiset() =~= at.to_multiset().remove(s.last()).insert(s.last()));
    }
}

/// Where what a filter leaves stood: the places rise, and none that the filter accepts is left
/// out.
pub proof fn filter_places<A>(s: Seq<A>, f: spec_fn(A) -> bool) -> (m: Seq<int>)
    ensures
        m.len() == s.filter(f).len(),
        forall|i: int|
            0 <= i < m.len() ==> 0 <= #[trigger] m[i] < s.len() && f(s[m[i]]) && s.filter(f)[i]
                == s[m[i]],
        forall|i: int, j: int| 0 <= i < j < m.len() ==> #[trigger] m[i] < #[trigger] m[j],
        forall|p: int| 0 <= p < s.len() && f(#[trigger] s[p]) ==> m.contains(p),
    decreases s.len(),
{
    reveal(Seq::filter);
    if s.len() == 0 {
        Seq::empty()
    } else {
        let init = s.drop_last();
        let before = filter_places(init, f);
        let last = s.len() - 1;
        let m = if f(s.last()) {
            before.push(last)
        } else {
            before
        };
        assert forall|i: int| 0 <= i < m.len() implies 0 <= #[trigger] m[i] < s.len() && f(s[m[i]])
            && s.filter(f)[i] == s[m[i]] by {
            if i < before.len() {
                assert(m[i] == before[i]);
                assert(init[before[i]] == s[m[i]]);
            }
        }
        assert forall|i: int, j: int| 0 <= i < j < m.len() implies #[trigger] m[i]
            < #[trigger] m[j] by {
            assert(m[i] == before[i]);
            if j < before.len() {
                assert(m[j] == before[j]);
            }
        }
        assert forall|p: int| 0 <= p < s.len() && f(#[trigger] s[p]) implies m.contains(p) by {
            if p < last {
                assert(f(init[p]));
                assert(before.contains(p));
                let i = choose|i: int| 0 <= i < before.len() && before[i] == p;
                assert(m[i] == p);
            } else {
                assert(m[before.len() as int] == p);
            }
        }
        m
    }
}

/// Where what is sorted stood: each place once, in the order of the keys, and those with one
/// key in their own order.
pub proof fn sorted_places<A>(s: Seq<A>, key: spec_fn(A) -> KeyView) -> (o: Seq<int>)
    ensures
        o.len() == s.len(),
        sorted_by(s, key).len() == s.len(),
        o.no_duplicates(),
        forall|i: int|
            0 <= i < o.len() ==> 0 <= #[trigger] o[i] < s.len() && sorted_by(s, key)[i] == s[o[i]],
        forall|p: int| 0 <= p < s.len() ==> #[trigger] o.contains(p),
        forall|i: int, j: int|
            0 <= i < j < o.len() ==> key_le(key(s[#[trigger] o[i]]), key(s[#[trigger] o[j]])) && (
            key_le(key(s[o[j]]), key(s[o[i]])) ==> o[i] < o[j]),
{
    let keys = s.map_values(key);
    let o = order_of(keys);
    order_is_stable_sort(keys);
    assert forall|i: int| 0 <= i < o.len() implies 0 <= #[trigger] o[i] < s.len() && sorted_by(
        s,
        key,
    )[i] == s[o[i]] by {}
    assert forall|i: int, j: int| 0 <= i < j < o.len() implies key_le(
        key(s[#[trigger] o[i]]),
        key(s[#[trigger] o[j]]),
    ) && (key_le(key(s[o[j]]), key(s[o[i]])) ==> o[i] < o[j]) by {
        assert(keys[o[i]] == key(s[o[i]]));
        assert(keys[o[j]] == key(s[o[j]]));
    }
    o
}

/// Filtering what has one element more behind it.
pub proof fn filter_push<A>(s: Seq<A>, a: A, f: spec_fn(A) -> bool)
    ensures
        s.push(a).filter(f) == (if f(a) {
            s.filter(f).push(a)
        } else {
            s.filter(f)
        }),
{
    reveal(Seq::filter);
    assert(s.push(a).drop_last() =~= s);
}

/// A filter behind a wider one is as good as the filter alone.
pub proof fn filter_narrows<A>(s: Seq<A>, f: spec_fn(A) -> bool, g: spec_fn(A) -> bool)
    requires
        forall|a: A| #[trigger] g(a) ==> f(a),
    ensures
        s.filter(f).filter(g) == s.filter(g),
    decreases s.len(),
{
    reveal(Seq::filter);
    if s.len() > 0 {
        let init = s.drop_last();
        filter_narrows(init, f, g);
        if f(s.last()) {
            filter_push(init.filter(f), s.last(), g);
        }
    }
}

/// A filter that accepts nothing leaves nothing.
pub proof fn filter_away<A>(s: Seq<A>, f: spec_fn(A) -> bool)
    requires
        forall|i: int| 0 <= i < s.len() ==> !f(#[trigger] s[i]),
    ensures
        s.filter(f) == Seq::<A>::empty(),
{
    filter_from(s, f);
    if s.filter(f).len() > 0 {
        let a = s.filter(f)[0];
        let i = choose|i: int| 0 <= i < s.len() && s[i] == a;
        assert(!f(s[i]));
    }
    assert(s.filter(f) =~= Seq::<A>::empty());
}

/// Where what is filtered and then sorted stood: each place that the filter accepts once, in
/// the order of the keys, and those with one key in their own order.
pub proof fn chosen_places<A>(
    s: Seq<A>,
    f: spec_fn(A) -> bool,
    key: spec_fn(A) -> KeyView,
) -> (o: Seq<int>)
    ensures
        o.len() == sorted_by(s.filter(f), key).len(),
        o.no_duplicates(),
        forall|i: int|
            0 <= i < o.len() ==> 0 <= #[trigger] o[i] < s.len() && f(s[o[i]]) && sorted_by(
                s.filter(f),
                key,
            )[i] == s[o[i]],
        forall|p: int| 0 <= p < s.len() && f(#[trigger] s[p]) ==> o.contains(p),
        forall|i: int, j: int|
            0 <= i < j < o.len() ==> key_le(key(s[#[trigger] o[i]]), key(s[#[trigger] o[j]])) && (
            key_le(key(s[o[j]]), key(s[o[i]])) ==> o[i] < o[j]),
{
    let t = s.filter(f);
    let m = filter_places(s, f);
    let q = sorted_places(t, key);
    let o = Seq::new(q.len(), |i: int| m[q[i]]);
    assert forall|i: int| 0 <= i < o.len() implies 0 <= #[trigger] o[i] < s.len() && f(s[o[i]])
        && sorted_by(t, key)[i] == s[o[i]] by {
        assert(0 <= q[i] < t.len());
        assert(t[q[i]] == s[m[q[i]]]);
    }
    assert forall|i: int, j: int| 0 <= i < o.len() && 0 <= j < o.len() && i != j implies o[i]
        != o[j] by {
        let a = q[i];
        let b = q[j];
        if a < b {
            assert(m[a] < m[b]);
        } else {
            assert(m[b] < m[a]);
        }
    }
    assert forall|p: int| 0 <= p < s.len() && f(#[trigger] s[p]) implies o.contains(p) by {
        assert(m.contains(p));
        let a = choose|a: int| 0 <= a < m.len() && m[a] == p;
        assert(q.contains(a));
        let i = choose|i: int| 0 <= i < q.len() && q[i] == a;
        assert(o[i] == p);
    }
    assert forall|i: int, j: int| 0 <= i < j < o.len() implies key_le(
        key(s[#[trigger] o[i]]),
        key(s[#[trigger] o[j]]),
    ) && (key_le(key(s[o[j]]), key(s[o[i]])) ==> o[i] < o[j]) by {
        let a = q[i];
        let b = q[j];
        assert(t[a] == s[m[a]] && t[b] == s[m[b]]);
        if a < b {
            assert(m[a] < m[b]);
        }
    }
    o
}

} // verus!
