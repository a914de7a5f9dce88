use core::marker::PhantomData;
use vstd::multiset::Multiset;
use vstd::prelude::*;

use crate::key::Key;
use crate::mask::{
    le_flags, lemma_empty_multiset, lemma_select_prefix, lemma_select_satisfies, lemma_select_split,
    lt_flags,
};
use crate::simd::{
    is_min_position, is_push_position, large_lanes, large_lanes_in, non_increasing, position_min,
    push_position, small_lanes, small_lanes_in, written, SimdElem,
};

verus! {

broadcast use {vstd::multiset::group_multiset_axioms, vstd::seq_lib::group_to_multiset_ensures};

/// Layers no longer than this are searched for their minimum directly.
pub const SCAN_LIMIT: usize = 16;

/// Every element of `l` is at least `p`.
pub open spec fn layer_at_least<T: Key>(l: Seq<T>, p: T) -> bool {
    forall|j: int| 0 <= j < l.len() ==> p.key() <= #[trigger] l[j].key()
}

/// Every element of `l` is at most `p`.
pub open spec fn layer_at_most<T: Key>(l: Seq<T>, p: T) -> bool {
    forall|j: int| 0 <= j < l.len() ==> #[trigger] l[j].key() <= p.key()
}

/// Every element of `l` is below `p`.
pub open spec fn layer_below<T: Key>(l: Seq<T>, p: T) -> bool {
    forall|j: int| 0 <= j < l.len() ==> #[trigger] l[j].key() < p.key()
}

/// The layers of a quickheap against its pivots: one layer more than pivots, pivots from
/// largest to smallest, and layer `i` between pivot `i` (below) and pivot `i - 1` (above).
pub open spec fn layers_ordered<T: Key>(ls: Seq<Vec<T>>, ps: Seq<T>) -> bool {
    &&& ls.len() == ps.len() + 1
    &&& non_increasing(ps)
    &&& forall|i: int| 0 <= i < ps.len() ==> layer_at_least(#[trigger] ls[i]@, ps[i])
    &&& forall|i: int| 0 < i < ls.len() ==> layer_at_most(#[trigger] ls[i]@, ps[i - 1])
}

/// All elements of all layers.
pub open spec fn layers_multiset<T>(ls: Seq<Vec<T>>) -> Multiset<T>
    decreases ls.len(),
{
    if ls.len() == 0 {
        Multiset::empty()
    } else {
        layers_multiset(ls.drop_last()).add(ls.last()@.to_multiset())
    }
}

/// `x` is an element of `m` with the smallest key.
pub open spec fn is_least<T: Key>(m: Multiset<T>, x: T) -> bool {
    &&& m.contains(x)
    &&& forall|y: T| m.contains(y) ==> x.key() <= y.key()
}

/// `s` is what successive pops take out of a heap holding `m`: each one a smallest element
/// of what is left.
pub open spec fn drains<T: Key>(m: Multiset<T>, s: Seq<T>) -> bool
    decreases s.len(),
{
    s.len() == 0 || (is_least(m, s[0]) && drains(m.remove(s[0]), s.drop_first()))
}

/// Keys never decrease along `s`.
pub open spec fn sorted_keys<T: Key>(s: Seq<T>) -> bool {
    forall|i: int, j: int| 0 <= i <= j < s.len() ==> s[i].key() <= s[j].key()
}

/// The smallest element of a multiset is unique: any two smallest elements are equal, so
/// every min-priority queue holding the same elements pops the same element.
pub proof fn lemma_least_unique<T: Key>(m: Multiset<T>, x: T, y: T)
    requires
        is_least(m, x),
        is_least(m, y),
    ensures
        x == y,
{
    T::lemma_key(x, y);
}

/// Two pops in a row, with no push between them, give keys that do not decrease.
pub proof fn lemma_pops_in_order<T: Key>(m: Multiset<T>, x: T, y: T)
    requires
        is_least(m, x),
        is_least(m.remove(x), y),
    ensures
        x.key() <= y.key(),
{
    assert(m.contains(y));
}

/// Popping a heap empty gives its elements sorted by key: the popped sequence is sorted,
/// and once as many elements as the heap held have come out, they are exactly its elements.
pub proof fn lemma_drain_sorted<T: Key>(m: Multiset<T>, s: Seq<T>)
    requires
        drains(m, s),
    ensures
        sorted_keys(s),
        s.len() <= m.len(),
        s.len() == m.len() ==> s.to_multiset() == m,
    decreases s.len(),
{
    if s.len() > 0 {
        let rest = s.drop_first();
        let m1 = m.remove(s[0]);
        lemma_drain_sorted(m1, rest);
        assert forall|i: int, j: int| 0 <= i <= j < s.len() implies s[i].key() <= s[j].key() by {
            if i == 0 {
                if j > 0 {
                    assert(s[j] == rest[j - 1]);
                    lemma_drain_contains(m1, rest, j - 1);
                    assert(m.contains(rest[j - 1]));
                }
            } else {
                assert(s[i] == rest[i - 1] && s[j] == rest[j - 1]);
            }
        }
        if s.len() == m.len() {
            assert(s =~= seq![s[0]] + rest);
            vstd::seq_lib::lemma_multiset_commutative(seq![s[0]], rest);
            assert(seq![s[0]].to_multiset() =~= Multiset::<T>::empty().insert(s[0])) by {
                assert(seq![s[0]] =~= Seq::<T>::empty().push(s[0]));
                lemma_empty_multiset::<T>();
            }
            assert(s.to_multiset() =~= m);
        }
    }
}

/// Every popped element was in the heap.
proof fn lemma_drain_contains<T: Key>(m: Multiset<T>, s: Seq<T>, j: int)
    requires
        drains(m, s),
        0 <= j < s.len(),
    ensures
        m.contains(s[j]),
    decreases s.len(),
{
    if j > 0 {
        lemma_drain_contains(m.remove(s[0]), s.drop_first(), j - 1);
        assert(s[j] == s.drop_first()[j - 1]);
    }
}

/// A min-priority queue of `T`, organised as a quickheap whose layers are partitioned with
/// the SIMD backend `S`.
pub struct ConfigurableSimdQuickHeap<T, S> {
    layers: Vec<Vec<T>>,
    pivots: Vec<T>,
    backend: PhantomData<S>,
}

impl<T: Key, S: SimdElem<T>> View for ConfigurableSimdQuickHeap<T, S> {
    type V = Multiset<T>;

    /// The elements in the heap.
    closed spec fn view(&self) -> Multiset<T> {
        layers_multiset(self.layers@)
    }
}

proof fn lemma_layers_multiset_push<T>(ls: Seq<Vec<T>>, l: Vec<T>)
    ensures
        layers_multiset(ls.push(l)) == layers_multiset(ls).add(l@.to_multiset()),
{
    assert(ls.push(l).drop_last() =~= ls);
}

proof fn lemma_layers_multiset_update<T>(ls: Seq<Vec<T>>, k: int, l: Vec<T>, t: T)
    requires
        0 <= k < ls.len(),
        l@ == ls[k]@.push(t),
    ensures
        layers_multiset(ls.update(k, l)) == layers_multiset(ls).insert(t),
    decreases ls.len(),
{
    let u = ls.update(k, l);
    if k == ls.len() - 1 {
        assert(u.drop_last() =~= ls.drop_last());
        assert(layers_multiset(u) =~= layers_multiset(ls).insert(t));
    } else {
        lemma_layers_multiset_update(ls.drop_last(), k, l, t);
        assert(u.drop_last() =~= ls.drop_last().update(k, l));
        assert(layers_multiset(u) =~= layers_multiset(ls).insert(t));
    }
}

proof fn lemma_layers_lower_bound<T: Key>(ls: Seq<Vec<T>>, x: T)
    requires
        forall|i: int, j: int|
            0 <= i < ls.len() && 0 <= j < ls[i]@.len() ==> x.key() <= #[trigger] ls[i]@[j].key(),
    ensures
        forall|y: T| layers_multiset(ls).contains(y) ==> x.key() <= y.key(),
    decreases ls.len(),
{
    if ls.len() > 0 {
        lemma_layers_lower_bound(ls.drop_last(), x);
        assert forall|y: T| layers_multiset(ls).contains(y) implies x.key() <= y.key() by {
            if ls.last()@.to_multiset().contains(y) {
                assert(ls.last()@.contains(y));
                let j = choose|j: int| 0 <= j < ls.last()@.len() && ls.last()@[j] == y;
                assert(ls[ls.len() - 1]@[j] == y);
            } else {
                assert(layers_multiset(ls.drop_last()).contains(y));
                assert forall|i: int, j: int|
                    0 <= i < ls.drop_last().len() && 0 <= j < ls.drop_last()[i]@.len() implies x.key()
                    <= #[trigger] ls.drop_last()[i]@[j].key() by {
                    assert(ls.drop_last()[i] == ls[i]);
                }
            }
        }
    }
}

/// What holds of every element of `whole` holds of every element of a part of it.
proof fn lemma_part_satisfies<T>(part: Seq<T>, rest: Seq<T>, whole: Seq<T>, p: spec_fn(T) -> bool)
    requires
        part.to_multiset().add(rest.to_multiset()) == whole.to_multiset(),
        forall|j: int| 0 <= j < whole.len() ==> #[trigger] p(whole[j]),
    ensures
        forall|j: int| 0 <= j < part.len() ==> #[trigger] p(part[j]),
{
    assert forall|j: int| 0 <= j < part.len() implies #[trigger] p(part[j]) by {
        assert(part.contains(part[j]));
        assert(whole.to_multiset().count(part[j]) > 0);
        assert(whole.contains(part[j]));
        let i = choose|i: int| 0 <= i < whole.len() && whole[i] == part[j];
        assert(p(whole[i]));
    }
}

proof fn lemma_swap_remove_multiset<T>(s: Seq<T>, i: int)
    requires
        0 <= i < s.len(),
    ensures
        s.update(i, s.last()).drop_last().to_multiset() == s.to_multiset().remove(s[i]),
{
    let u = s.update(i, s.last());
    let d = u.drop_last();
    assert(d.push(s.last()) =~= u);
    assert(d.push(s.last()).to_multiset() == d.to_multiset().insert(s.last()));
    assert(u.to_multiset() == s.to_multiset().remove(s[i]).insert(s.last()));
    let target = s.to_multiset().remove(s[i]);
    assert forall|x: T| d.to_multiset().count(x) == target.count(x) by {
        assert(d.to_multiset().insert(s.last()).count(x) == target.insert(s.last()).count(x));
    }
    assert(d.to_multiset() =~= target);
}

/// Taking a smallest element out of the last layer keeps the layers ordered, removes it
/// from the elements, and it is a smallest element of all layers.
proof fn lemma_take_from_last<T: Key>(ls: Seq<Vec<T>>, ps: Seq<T>, cur: Vec<T>, pos: int, rest: Vec<T>)
    requires
        layers_ordered(ls.push(cur), ps),
        0 <= pos < cur@.len(),
        forall|j: int| 0 <= j < cur@.len() ==> cur@[pos].key() <= #[trigger] cur@[j].key(),
        rest@ == cur@.update(pos, cur@.last()).drop_last(),
    ensures
        layers_ordered(ls.push(rest), ps),
        layers_multiset(ls.push(rest)) == layers_multiset(ls.push(cur)).remove(cur@[pos]),
        is_least(layers_multiset(ls.push(cur)), cur@[pos]),
{
    let x = cur@[pos];
    let all = ls.push(cur);
    let n = ps.len();
    assert(all[n as int] == cur);
    assert forall|j: int| 0 <= j < rest@.len() implies rest@[j] == cur@[j] || rest@[j] == cur@.last() by {
    }
    if n > 0 {
        assert(layer_at_most(cur@, ps[n - 1]));
        assert(layer_at_most(rest@, ps[n - 1])) by {
            assert forall|j: int| 0 <= j < rest@.len() implies #[trigger] rest@[j].key() <= ps[n - 1].key() by {
                if rest@[j] == cur@[j] {
                    assert(cur@[j].key() <= ps[n - 1].key());
                } else {
                    assert(cur@[cur@.len() - 1].key() <= ps[n - 1].key());
                }
            }
        }
    }
    assert forall|i: int| 0 <= i < ps.len() implies layer_at_least(#[trigger] ls.push(rest)[i]@, ps[i]) by {
        assert(ls.push(rest)[i] == all[i]);
    }
    assert forall|i: int| 0 < i < ls.push(rest).len() implies layer_at_most(#[trigger] ls.push(rest)[i]@, ps[i - 1]) by {
        if i < n {
            assert(ls.push(rest)[i] == all[i]);
        }
    }
    lemma_layers_multiset_push(ls, rest);
    lemma_layers_multiset_push(ls, cur);
    lemma_swap_remove_multiset(cur@, pos);
    assert(cur@.contains(x));
    assert(layers_multiset(ls.push(rest)) =~= layers_multiset(all).remove(x));
    assert forall|i: int, j: int|
        0 <= i < all.len() && 0 <= j < all[i]@.len() implies x.key() <= #[trigger] all[i]@[j].key() by {
        if i < n {
            assert(ps[i].key() <= all[i]@[j].key());
            assert(ps[n - 1].key() <= ps[i].key());
            assert(layer_at_most(all[n as int]@, ps[n - 1]));
        }
    }
    lemma_layers_lower_bound(all, x);
}

/// Splitting the last layer at a pivot taken from it keeps the layers ordered and the
/// elements unchanged.
proof fn lemma_split_last<T: Key>(
    ls: Seq<Vec<T>>,
    ps: Seq<T>,
    cur: Vec<T>,
    pivot: T,
    big: Vec<T>,
    small: Vec<T>,
)
    requires
        layers_ordered(ls.push(cur), ps),
        cur@.contains(pivot),
        big@.to_multiset().add(small@.to_multiset()) == cur@.to_multiset(),
        big@.len() + small@.len() == cur@.len(),
        layer_at_least(big@, pivot),
        layer_below(small@, pivot),
        small@.len() > 0,
    ensures
        layers_ordered(ls.push(big).push(small), ps.push(pivot)),
        layers_multiset(ls.push(big).push(small)) == layers_multiset(ls.push(cur)),
        small@.len() < cur@.len(),
{
    let n = ps.len();
    let all = ls.push(cur);
    let nl = ls.push(big).push(small);
    let nps = ps.push(pivot);
    assert(all[n as int] == cur);
    let j0 = choose|j: int| 0 <= j < cur@.len() && cur@[j] == pivot;
    // The pivot is not below itself, so it went to `big`.
    assert(big@.len() > 0) by {
        if big@.len() == 0 {
            lemma_empty_multiset::<T>();
            assert(big@ =~= Seq::<T>::empty());
            assert(Seq::<T>::empty().to_multiset().add(small@.to_multiset()) =~= small@.to_multiset());
            assert(cur@.to_multiset().add(Seq::<T>::empty().to_multiset()) =~= small@.to_multiset());
            let p_lt = |y: T| y.key() < pivot.key();
            assert forall|j: int| 0 <= j < small@.len() implies #[trigger] p_lt(small@[j]) by {
            }
            lemma_part_satisfies(cur@, Seq::<T>::empty(), small@, p_lt);
            assert(p_lt(cur@[j0]));
        }
    }
    if n > 0 {
        assert(layer_at_most(cur@, ps[n - 1]));
        assert(pivot.key() <= ps[n - 1].key());
        let p_le = |y: T| y.key() <= ps[n - 1].key();
        assert forall|j: int| 0 <= j < cur@.len() implies #[trigger] p_le(cur@[j]) by {
        }
        lemma_part_satisfies(big@, small@, cur@, p_le);
        assert forall|j: int| 0 <= j < big@.len() implies #[trigger] big@[j].key() <= ps[n - 1].key() by {
            assert(p_le(big@[j]));
        }
    }
    assert forall|i: int, j: int| 0 <= i <= j < nps.len() implies #[trigger] nps[j].key()
        <= #[trigger] nps[i].key() by {
        if j == n && i < n {
            assert(ps[n - 1].key() <= ps[i].key());
        }
    }
    assert forall|i: int| 0 <= i < nps.len() implies layer_at_least(#[trigger] nl[i]@, nps[i]) by {
        if i < n {
            assert(nl[i] == all[i]);
        }
    }
    assert forall|i: int| 0 < i < nl.len() implies layer_at_most(#[trigger] nl[i]@, nps[i - 1]) by {
        if i < n {
            assert(nl[i] == all[i]);
        } else if i == n + 1 {
            assert forall|j: int| 0 <= j < small@.len() implies #[trigger] small@[j].key() <= pivot.key() by {
            }
        }
    }
    lemma_layers_multiset_push(ls.push(big), small);
    lemma_layers_multiset_push(ls, big);
    lemma_layers_multiset_push(ls, cur);
    assert(layers_multiset(nl) =~= layers_multiset(all));
}

/// Fills a new vector of length `n` with `x`.
fn filled<T: Copy>(x: T, n: usize) -> (r: Vec<T>)
    ensures
        r@ == Seq::new(n as nat, |i: int| x),
{
    let mut r: Vec<T> = Vec::new();
    let mut i: usize = 0;
    while i < n
        invariant
            i <= n,
            r@ == Seq::new(i as nat, |j: int| x),
        decreases n - i,
    {
        r.push(x);
        i = i + 1;
        assert(r@ =~= Seq::new(i as nat, |j: int| x));
    }
    r
}

proof fn lemma_written_take<T>(before: Seq<T>, at: int, part: Seq<T>)
    requires
        0 <= at,
        at + part.len() <= before.len(),
    ensures
        written(before, at, part).len() == before.len(),
        written(before, at, part).take(at + part.len()) == before.take(at) + part,
{
    assert(written(before, at, part).take(at + part.len()) =~= before.take(at) + part);
}

/// Adds a partitioned chunk to what has been partitioned so far.
proof fn lemma_accumulate<T: Key>(
    pivot: T,
    a: Seq<T>,
    b: Seq<T>,
    done: Seq<T>,
    lg: Seq<T>,
    sm: Seq<T>,
    chunk: Seq<T>,
)
    requires
        a.to_multiset().add(b.to_multiset()) == done.to_multiset(),
        lg.to_multiset().add(sm.to_multiset()) == chunk.to_multiset(),
        layer_at_least(a, pivot),
        layer_at_least(lg, pivot),
        layer_below(b, pivot),
        layer_below(sm, pivot),
    ensures
        (a + lg).to_multiset().add((b + sm).to_multiset()) == (done + chunk).to_multiset(),
        layer_at_least(a + lg, pivot),
        layer_below(b + sm, pivot),
{
    vstd::seq_lib::lemma_multiset_commutative(a, lg);
    vstd::seq_lib::lemma_multiset_commutative(b, sm);
    vstd::seq_lib::lemma_multiset_commutative(done, chunk);
    assert((a + lg).to_multiset().add((b + sm).to_multiset()) =~= (done + chunk).to_multiset());
    assert forall|j: int| 0 <= j < (a + lg).len() implies pivot.key() <= #[trigger] (a + lg)[j].key() by {
        if j >= a.len() {
            assert((a + lg)[j] == lg[j - a.len()]);
        }
    }
    assert forall|j: int| 0 <= j < (b + sm).len() implies #[trigger] (b + sm)[j].key() < pivot.key() by {
        if j >= b.len() {
            assert((b + sm)[j] == sm[j - b.len()]);
        }
    }
}

/// The two sides of a full chunk split it, each on its side of the pivot.
proof fn lemma_fast_chunk<T: Key>(lanes: Seq<T>, t: Seq<T>, pivot: T)
    requires
        t == Seq::new(lanes.len(), |x: int| pivot),
    ensures
        large_lanes(lanes, t).to_multiset().add(small_lanes(lanes, t).to_multiset()) == lanes.to_multiset(),
        large_lanes(lanes, t).len() + small_lanes(lanes, t).len() == lanes.len(),
        layer_at_least(large_lanes(lanes, t), pivot),
        layer_below(small_lanes(lanes, t), pivot),
{
    let k = lanes.len() as int;
    let all = Seq::new(lanes.len(), |x: int| true);
    lemma_select_split(lanes, le_flags(t, lanes), lt_flags(lanes, t), all, k);
    lemma_select_prefix(lanes, all, k, k);
    assert(lanes.take(k) =~= lanes);
    let p_ge = |y: T| pivot.key() <= y.key();
    let p_lt = |y: T| y.key() < pivot.key();
    lemma_select_satisfies(lanes, le_flags(t, lanes), k, p_ge);
    lemma_select_satisfies(lanes, lt_flags(lanes, t), k, p_lt);
    assert forall|j: int| 0 <= j < large_lanes(lanes, t).len() implies pivot.key()
        <= #[trigger] large_lanes(lanes, t)[j].key() by {
        assert(p_ge(large_lanes(lanes, t)[j]));
    }
    assert forall|j: int| 0 <= j < small_lanes(lanes, t).len() implies #[trigger] small_lanes(
        lanes,
        t,
    )[j].key() < pivot.key() by {
        assert(p_lt(small_lanes(lanes, t)[j]));
    }
}

/// The two sides of the first `m` lanes split them, each on its side of the pivot.
proof fn lemma_slow_chunk<T: Key>(lanes: Seq<T>, len: Seq<T>, t: Seq<T>, pivot: T, m: int)
    requires
        0 <= m <= lanes.len(),
        len.len() == lanes.len(),
        forall|x: int| 0 <= x < len.len() ==> (#[trigger] len[x]).key() == m,
        t == Seq::new(lanes.len(), |x: int| pivot),
    ensures
        large_lanes_in(lanes, len, t).to_multiset().add(small_lanes_in(lanes, len, t).to_multiset())
            == lanes.take(m).to_multiset(),
        large_lanes_in(lanes, len, t).len() + small_lanes_in(lanes, len, t).len() == m,
        layer_at_least(large_lanes_in(lanes, len, t), pivot),
        layer_below(small_lanes_in(lanes, len, t), pivot),
{
    let k = lanes.len() as int;
    let range = crate::mask::in_range_flags(len);
    let a = crate::mask::and_flags(range, le_flags(t, lanes));
    let b = crate::mask::and_flags(range, lt_flags(lanes, t));
    lemma_select_split(lanes, a, b, range, k);
    lemma_select_prefix(lanes, range, k, m);
    let p_ge = |y: T| pivot.key() <= y.key();
    let p_lt = |y: T| y.key() < pivot.key();
    lemma_select_satisfies(lanes, a, k, p_ge);
    lemma_select_satisfies(lanes, b, k, p_lt);
    assert forall|j: int| 0 <= j < large_lanes_in(lanes, len, t).len() implies pivot.key()
        <= #[trigger] large_lanes_in(lanes, len, t)[j].key() by {
        assert(p_ge(large_lanes_in(lanes, len, t)[j]));
    }
    assert forall|j: int| 0 <= j < small_lanes_in(lanes, len, t).len() implies #[trigger] small_lanes_in(
        lanes,
        len,
        t,
    )[j].key() < pivot.key() by {
        assert(p_lt(small_lanes_in(lanes, len, t)[j]));
    }
}

/// Splits `cur` with the backend `S` into the elements at least `pivot` and those below
/// it, each in the order in which they occur in `cur`.
fn partition_layer<T: Key, S: SimdElem<T>>(cur: &Vec<T>, pivot: T) -> (r: (Vec<T>, Vec<T>))
    requires
        cur@.len() + 16 <= usize::MAX,
    ensures
        r.0@.to_multiset().add(r.1@.to_multiset()) == cur@.to_multiset(),
        r.0@.len() + r.1@.len() == cur@.len(),
        layer_at_least(r.0@, pivot),
        layer_below(r.1@, pivot),
{
    proof {
        S::lemma_params();
        lemma_empty_multiset::<T>();
    }
    let n = cur.len();
    let l = S::L;
    let mut big = filled(pivot, n + l);
    let mut small = filled(pivot, n + l);
    let thr = S::splat(pivot);
    let mut bi: usize = 0;
    let mut si: usize = 0;
    let mut i: usize = 0;
    proof {
        assert(big@.take(0) =~= Seq::<T>::empty());
        assert(small@.take(0) =~= Seq::<T>::empty());
        assert(cur@.take(0) =~= Seq::<T>::empty());
    }
    while i + l <= n
        invariant
            n == cur@.len(),
            l == S::L,
            0 < l <= 16,
            n + 16 <= usize::MAX,
            S::lanes(thr) == Seq::new(l as nat, |x: int| pivot),
            big@.len() == n + l,
            small@.len() == n + l,
            i <= n,
            bi + si == i,
            big@.take(bi as int).to_multiset().add(small@.take(si as int).to_multiset())
                == cur@.take(i as int).to_multiset(),
            layer_at_least(big@.take(bi as int), pivot),
            layer_below(small@.take(si as int), pivot),
        decreases n - i,
    {
        let vals = S::simd_from_slice(&cur.as_slice()[i..i + l]);
        let ghost lanes = S::lanes(vals);
        let ghost big0 = big@;
        let ghost small0 = small@;
        let ghost bi0 = bi as int;
        let ghost si0 = si as int;
        proof {
            assert(lanes =~= cur@.subrange(i as int, i + l));
            lemma_fast_chunk(lanes, S::lanes(thr), pivot);
        }
        S::partition_fast(vals, thr, big.as_mut_slice(), &mut bi, small.as_mut_slice(), &mut si);
        proof {
            let lg = large_lanes(lanes, S::lanes(thr));
            let sm = small_lanes(lanes, S::lanes(thr));
            lemma_written_take(big0, bi0, lg);
            lemma_written_take(small0, si0, sm);
            lemma_accumulate(pivot, big0.take(bi0), small0.take(si0), cur@.take(i as int), lg, sm, lanes);
            assert(cur@.take(i as int) + lanes =~= cur@.take(i + l));
        }
        i = i + l;
    }
    if i < n {
        let m = n - i;
        let mut buf: Vec<T> = Vec::new();
        let mut j: usize = i;
        while j < i + l
            invariant
                i < n,
                n == cur@.len(),
                n + 16 <= usize::MAX,
                0 < l <= 16,
                i <= j <= i + l,
                buf@.len() == j - i,
                forall|x: int|
                    0 <= x < j - i ==> #[trigger] buf@[x] == (if i + x < n {
                        cur@[i + x]
                    } else {
                        pivot
                    }),
            decreases i + l - j,
        {
            if j < n {
                buf.push(cur[j]);
            } else {
                buf.push(pivot);
            }
            j = j + 1;
        }
        let vals = S::simd_from_slice(buf.as_slice());
        let len = S::splat(S::from_usize(m));
        let ghost lanes = S::lanes(vals);
        let ghost big0 = big@;
        let ghost small0 = small@;
        let ghost bi0 = bi as int;
        let ghost si0 = si as int;
        proof {
            assert(buf@.take(l as int) =~= buf@);
            assert(lanes.take(m as int) =~= cur@.subrange(i as int, n as int));
            lemma_slow_chunk(lanes, S::lanes(len), S::lanes(thr), pivot, m as int);
        }
        S::partition_slow(vals, len, thr, big.as_mut_slice(), &mut bi, small.as_mut_slice(), &mut si);
        proof {
            let lg = large_lanes_in(lanes, S::lanes(len), S::lanes(thr));
            let sm = small_lanes_in(lanes, S::lanes(len), S::lanes(thr));
            lemma_written_take(big0, bi0, lg);
            lemma_written_take(small0, si0, sm);
            lemma_accumulate(pivot, big0.take(bi0), small0.take(si0), cur@.take(i as int), lg, sm, lanes.take(m as int));
            assert(cur@.take(i as int) + lanes.take(m as int) =~= cur@.take(n as int));
        }
        i = n;
    }
    proof {
        assert(cur@.take(n as int) =~= cur@);
    }
    big.truncate(bi);
    small.truncate(si);
    proof {
        assert(big@ =~= big@.take(bi as int));
    }
    (big, small)
}

impl<T: Key, S: SimdElem<T>> ConfigurableSimdQuickHeap<T, S> {
    /// The layers are ordered against the pivots.
    pub closed spec fn wf(&self) -> bool {
        layers_ordered(self.layers@, self.pivots@)
    }

    /// Adds `t` to the heap.
    pub fn push(&mut self, t: T)
        requires
            old(self).wf(),
        ensures
            final(self).wf(),
            final(self)@ == old(self)@.insert(t),
    {
        let k = push_position::<T, S>(&self.pivots, t);
        let ghost ls = self.layers@;
        self.layers[k].push(t);
        proof {
            let ps = self.pivots@;
            let nl = self.layers@;
            assert(is_push_position(ps, t, k as int));
            lemma_layers_multiset_update(ls, k as int, nl[k as int], t);
            assert(nl =~= ls.update(k as int, nl[k as int]));
            assert forall|i: int| 0 <= i < ps.len() implies layer_at_least(#[trigger] nl[i]@, ps[i]) by {
                if i == k {
                    assert(layer_at_least(ls[i]@, ps[i]));
                    assert forall|j: int| 0 <= j < nl[i]@.len() implies ps[i].key() <= #[trigger] nl[i]@[j].key() by {
                        if j < ls[i]@.len() {
                            assert(nl[i]@[j] == ls[i]@[j]);
                        }
                    }
                } else {
                    assert(nl[i] == ls[i]);
                }
            }
            assert forall|i: int| 0 < i < nl.len() implies layer_at_most(#[trigger] nl[i]@, ps[i - 1]) by {
                if i == k {
                    assert(layer_at_most(ls[i]@, ps[i - 1]));
                    assert forall|j: int| 0 <= j < nl[i]@.len() implies #[trigger] nl[i]@[j].key() <= ps[i - 1].key() by {
                        if j < ls[i]@.len() {
                            assert(nl[i]@[j] == ls[i]@[j]);
                        }
                    }
                } else {
                    assert(nl[i] == ls[i]);
                }
            }
        }
    }

    /// Removes and returns a smallest element, or `None` when the heap is empty.
    pub fn pop(&mut self) -> (r: Option<T>)
        requires
            old(self).wf(),
        ensures
            final(self).wf(),
            old(self)@.len() == 0 ==> r is None && final(self)@ == old(self)@,
            old(self)@.len() > 0 ==> (r matches Some(x) && is_least(old(self)@, x)
                && final(self)@ == old(self)@.remove(x)),
    {
        // Empty last layers are dropped with their pivots.
        while self.layers.len() > 1 && self.layers[self.layers.len() - 1].len() == 0
            invariant
                self.wf(),
                self@ == old(self)@,
            decreases self.layers.len(),
        {
            let ghost ls = self.layers@;
            let ghost ps = self.pivots@;
            let _ = self.layers.pop();
            let _ = self.pivots.pop();
            proof {
                assert(ls.drop_last().push(ls.last()) =~= ls);
                lemma_layers_multiset_push(ls.drop_last(), ls.last());
                lemma_empty_multiset::<T>();
                assert(ls.last()@ =~= Seq::<T>::empty());
                assert(layers_multiset(self.layers@) =~= layers_multiset(ls));
                assert forall|i: int, j: int| 0 <= i <= j < ps.drop_last().len() implies #[trigger] ps.drop_last()[j].key()
                    <= #[trigger] ps.drop_last()[i].key() by {
                    assert(ps[j].key() <= ps[i].key());
                }
                assert forall|i: int| 0 <= i < ps.drop_last().len() implies layer_at_least(#[trigger] self.layers@[i]@, self.pivots@[i]) by {
                    assert(self.layers@[i] == ls[i]);
                }
                assert forall|i: int| 0 < i < self.layers@.len() implies layer_at_most(#[trigger] self.layers@[i]@, self.pivots@[i - 1]) by {
                    assert(self.layers@[i] == ls[i]);
                }
            }
        }
        let ghost ls0 = self.layers@;
        let mut cur = self.layers.pop().unwrap();
        proof {
            assert(self.layers@.push(cur) =~= ls0);
        }
        if cur.len() == 0 {
            // The only layer left is empty, and so is the heap.
            self.layers.push(cur);
            proof {
                assert(self.layers@ =~= ls0);
                lemma_layers_multiset_push(Seq::<Vec<T>>::empty(), cur);
                lemma_empty_multiset::<T>();
                assert(cur@ =~= Seq::<T>::empty());
                assert(Seq::<Vec<T>>::empty().push(cur) =~= ls0);
                assert(old(self)@ =~= Multiset::<T>::empty());
            }
            return None;
        }
        loop
            invariant
                layers_ordered(self.layers@.push(cur), self.pivots@),
                layers_multiset(self.layers@.push(cur)) == old(self)@,
                cur@.len() > 0,
            decreases cur@.len(),
        {
            // A long last layer is split at its middle element into the elements at least
            // that pivot, which stay, and those below it, which become the new last layer.
            // (A layer within 16 of `usize::MAX` elements cannot exist in memory; the bound
            // keeps the lengths of the partition's scratch buffers in range.)
            if cur.len() > SCAN_LIMIT && cur.len() <= usize::MAX - 16 {
                let mid = cur.len() / 2;
                let pivot = cur[mid];
                let (big, small) = partition_layer::<T, S>(&cur, pivot);
                if small.len() > 0 {
                    let ghost ls = self.layers@;
                    let ghost ps = self.pivots@;
                    proof {
                        lemma_split_last(ls, ps, cur, pivot, big, small);
                    }
                    self.layers.push(big);
                    self.pivots.push(pivot);
                    cur = small;
                    continue;
                }
                // Nothing is below the pivot, so the pivot itself is a smallest element.
                proof {
                    lemma_empty_multiset::<T>();
                    assert(small@ =~= Seq::<T>::empty());
                    assert(cur@.to_multiset().add(Seq::<T>::empty().to_multiset()) =~= big@.to_multiset());
                    let p_ge = |y: T| pivot.key() <= y.key();
                    assert forall|j: int| 0 <= j < big@.len() implies #[trigger] p_ge(big@[j]) by {
                    }
                    lemma_part_satisfies(cur@, Seq::<T>::empty(), big@, p_ge);
                    assert forall|j: int| 0 <= j < cur@.len() implies cur@[mid as int].key() <= #[trigger] cur@[j].key() by {
                        assert(p_ge(cur@[j]));
                    }
                }
                let ghost ls = self.layers@;
                let ghost cur0 = cur;
                let x = cur.swap_remove(mid);
                proof {
                    lemma_take_from_last(ls, self.pivots@, cur0, mid as int, cur);
                }
                self.layers.push(cur);
                return Some(x);
            }
            let ghost ls = self.layers@;
            let ghost cur0 = cur;
            let pos = position_min::<T, S>(&mut cur);
            proof {
                assert(cur@ == cur0@);
                assert(is_min_position(cur0@, pos as int));
            }
            let x = cur.swap_remove(pos);
            proof {
                lemma_take_from_last(ls, self.pivots@, cur0, pos as int, cur);
            }
            self.layers.push(cur);
            return Some(x);
        }
    }
}

impl<T: Key, S: SimdElem<T>> Default for ConfigurableSimdQuickHeap<T, S> {
    /// An empty heap.
    fn default() -> (r: Self)
        ensures
            r.wf(),
            r@ == Multiset::<T>::empty(),
    {
        let mut layers: Vec<Vec<T>> = Vec::new();
        layers.push(Vec::new());
        let r = ConfigurableSimdQuickHeap { layers, pivots: Vec::new(), backend: PhantomData };
        proof {
            lemma_layers_multiset_push(Seq::<Vec<T>>::empty(), layers@[0]);
            lemma_empty_multiset::<T>();
            assert(Seq::<Vec<T>>::empty().push(layers@[0]) =~= layers@);
            assert(layers@[0]@ =~= Seq::<T>::empty());
        }
        r
    }
}

} // verus!
