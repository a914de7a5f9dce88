use vstd::multiset::Multiset;
use vstd::prelude::*;

use crate::key::Key;

verus! {

/// The integer whose bit `i` is set exactly when `flags[i]` holds; lane 0 is the least
/// significant bit and there are no bits above the last lane.
pub open spec fn mask_of(flags: Seq<bool>) -> nat
    decreases flags.len(),
{
    if flags.len() == 0 {
        0
    } else {
        (if flags[0] { 1nat } else { 0nat }) + 2 * mask_of(flags.drop_first())
    }
}

/// The integer with its `n` low bits set.
pub open spec fn full_mask(n: nat) -> nat
    decreases n,
{
    if n == 0 {
        0
    } else {
        1 + 2 * full_mask((n - 1) as nat)
    }
}

/// Lane `i` holds when `a[i] < b[i]`.
pub open spec fn lt_flags<T: Key>(a: Seq<T>, b: Seq<T>) -> Seq<bool> {
    Seq::new(a.len(), |i: int| a[i].key() < b[i].key())
}

/// Lane `i` holds when `a[i] <= b[i]`.
pub open spec fn le_flags<T: Key>(a: Seq<T>, b: Seq<T>) -> Seq<bool> {
    Seq::new(a.len(), |i: int| a[i].key() <= b[i].key())
}

/// Lane `i` holds when its index is below the key of `bound[i]`.
pub open spec fn in_range_flags<T: Key>(bound: Seq<T>) -> Seq<bool> {
    Seq::new(bound.len(), |i: int| i < bound[i].key())
}

/// Lane-wise conjunction.
pub open spec fn and_flags(a: Seq<bool>, b: Seq<bool>) -> Seq<bool> {
    Seq::new(a.len(), |i: int| a[i] && b[i])
}

/// Lane-wise negation.
pub open spec fn not_flags(a: Seq<bool>) -> Seq<bool> {
    Seq::new(a.len(), |i: int| !a[i])
}

/// How many flags hold before the first one that does not.
pub open spec fn leading_true(flags: Seq<bool>) -> nat
    decreases flags.len(),
{
    if flags.len() == 0 || !flags[0] {
        0
    } else {
        1 + leading_true(flags.drop_first())
    }
}

/// The values of those of the first `k` lanes whose flag holds, in lane order.
pub open spec fn select_lanes<T>(vals: Seq<T>, keep: Seq<bool>, k: int) -> Seq<T>
    decreases k,
{
    if k <= 0 {
        Seq::empty()
    } else if keep[k - 1] {
        select_lanes(vals, keep, k - 1).push(vals[k - 1])
    } else {
        select_lanes(vals, keep, k - 1)
    }
}

/// The lowest bit of a mask is its first flag, and shifting it down drops that flag.
pub proof fn lemma_mask_step(flags: Seq<bool>)
    requires
        flags.len() > 0,
    ensures
        mask_of(flags) % 2 == (if flags[0] { 1nat } else { 0nat }),
        mask_of(flags) / 2 == mask_of(flags.drop_first()),
{
}

/// A mask of `n` flags is zero when `n` is zero.
pub proof fn lemma_mask_empty(flags: Seq<bool>)
    requires
        flags.len() == 0,
    ensures
        mask_of(flags) == 0,
{
}

/// A mask and the mask of the negated flags add up to the full mask.
pub proof fn lemma_mask_complement(a: Seq<bool>, b: Seq<bool>)
    requires
        a.len() == b.len(),
        forall|i: int| 0 <= i < a.len() ==> b[i] == !a[i],
    ensures
        mask_of(a) + mask_of(b) == full_mask(a.len()),
    decreases a.len(),
{
    if a.len() > 0 {
        lemma_mask_complement(a.drop_first(), b.drop_first());
    }
}

/// Small full masks, by value.
pub proof fn lemma_full_masks()
    ensures
        full_mask(2) == 3,
        full_mask(4) == 15,
        full_mask(8) == 255,
        full_mask(16) == 65535,
{
    reveal_with_fuel(full_mask, 17);
}

/// `leading_true` is the length of the all-true prefix.
pub proof fn lemma_leading_true(flags: Seq<bool>, j: int)
    requires
        0 <= j <= flags.len(),
        forall|i: int| 0 <= i < j ==> flags[i],
        j == flags.len() || !flags[j],
    ensures
        leading_true(flags) == j,
    decreases j,
{
    if j > 0 {
        lemma_leading_true(flags.drop_first(), j - 1);
    }
}

/// The empty sequence has the empty multiset.
pub proof fn lemma_empty_multiset<T>()
    ensures
        Seq::<T>::empty().to_multiset() == Multiset::<T>::empty(),
{
    broadcast use vstd::seq_lib::group_to_multiset_ensures;

    assert forall|a: T| Seq::<T>::empty().to_multiset().count(a) == 0 by {
        assert(!Seq::<T>::empty().contains(a));
    }
    assert(Seq::<T>::empty().to_multiset() =~= Multiset::<T>::empty());
}

/// Every selected value satisfies `p` when every kept lane does.
pub proof fn lemma_select_satisfies<T>(vals: Seq<T>, keep: Seq<bool>, k: int, p: spec_fn(T) -> bool)
    requires
        0 <= k <= vals.len(),
        k <= keep.len(),
        forall|x: int| 0 <= x < k && keep[x] ==> #[trigger] p(vals[x]),
    ensures
        forall|j: int|
            0 <= j < select_lanes(vals, keep, k).len() ==> #[trigger] p(
                select_lanes(vals, keep, k)[j],
            ),
    decreases k,
{
    if k > 0 {
        lemma_select_satisfies(vals, keep, k - 1, p);
        let prev = select_lanes(vals, keep, k - 1);
        if keep[k - 1] {
            assert forall|j: int|
                0 <= j < prev.push(vals[k - 1]).len() implies #[trigger] p(
                prev.push(vals[k - 1])[j],
            ) by {
                if j < prev.len() {
                    assert(prev.push(vals[k - 1])[j] == prev[j]);
                } else {
                    assert(prev.push(vals[k - 1])[j] == vals[k - 1]);
                }
            }
        }
    }
}

/// Two keeps that never both hold and that together make up `c` split the selection of `c`.
pub proof fn lemma_select_split<T>(vals: Seq<T>, a: Seq<bool>, b: Seq<bool>, c: Seq<bool>, k: int)
    requires
        0 <= k,
        forall|x: int| 0 <= x < k ==> c[x] == (a[x] || b[x]) && !(a[x] && b[x]),
    ensures
        select_lanes(vals, a, k).len() + select_lanes(vals, b, k).len() == select_lanes(
            vals,
            c,
            k,
        ).len(),
        select_lanes(vals, a, k).to_multiset().add(select_lanes(vals, b, k).to_multiset())
            == select_lanes(vals, c, k).to_multiset(),
    decreases k,
{
    broadcast use {vstd::multiset::group_multiset_axioms, vstd::seq_lib::to_multiset_build};

    if k == 0 {
        lemma_empty_multiset::<T>();
        assert(Multiset::<T>::empty().add(Multiset::empty()) =~= Multiset::empty());
    } else {
        lemma_select_split(vals, a, b, c, k - 1);
        let sa = select_lanes(vals, a, k - 1);
        let sb = select_lanes(vals, b, k - 1);
        let sc = select_lanes(vals, c, k - 1);
        let x = vals[k - 1];
        if a[k - 1] {
            assert(sa.push(x).to_multiset().add(sb.to_multiset()) =~= sc.push(x).to_multiset());
        } else if b[k - 1] {
            assert(sa.to_multiset().add(sb.push(x).to_multiset()) =~= sc.push(x).to_multiset());
        }
    }
}

/// Keeping exactly the first `m` lanes selects the first `m` values.
pub proof fn lemma_select_prefix<T>(vals: Seq<T>, c: Seq<bool>, k: int, m: int)
    requires
        0 <= m <= k <= vals.len(),
        forall|x: int| 0 <= x < k ==> c[x] == (x < m),
    ensures
        select_lanes(vals, c, k) == vals.take(m),
    decreases k,
{
    if k > 0 {
        if k - 1 < m {
            lemma_select_prefix(vals, c, k - 1, k - 1);
            assert(vals.take(k - 1).push(vals[k - 1]) =~= vals.take(k));
        } else {
            lemma_select_prefix(vals, c, k - 1, m);
        }
    } else {
        assert(vals.take(0) =~= Seq::<T>::empty());
    }
}

/// Counts the low one bits of a mask: the number of leading flags that hold.
pub(crate) fn trailing_ones(m: u64, Ghost(flags): Ghost<Seq<bool>>) -> (r: u32)
    requires
        m == mask_of(flags),
        flags.len() <= 64,
    ensures
        r == leading_true(flags),
{
    let mut x: u64 = m;
    let mut n: u32 = 0;
    let ghost mut rest = flags;
    while x % 2 == 1
        invariant
            x == mask_of(rest),
            flags.len() <= 64,
            n + rest.len() == flags.len(),
            n + leading_true(rest) == leading_true(flags),
        decreases x,
    {
        proof {
            if rest.len() == 0 {
                lemma_mask_empty(rest);
            }
            lemma_mask_step(rest);
        }
        x = x / 2;
        n = n + 1;
        proof {
            rest = rest.drop_first();
        }
    }
    proof {
        if rest.len() > 0 {
            lemma_mask_step(rest);
        }
    }
    n
}

} // verus!
