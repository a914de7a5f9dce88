use vstd::prelude::*;

use crate::key::Key;
use crate::mask::{
    and_flags, leading_true, lemma_leading_true, trailing_ones, full_mask, in_range_flags, le_flags, lemma_full_masks, lemma_mask_complement,
    lemma_mask_step, lt_flags, mask_of, not_flags, select_lanes,
};
use crate::wide_masks::{
    lt_mask_i32x16, lt_mask_i32x4, lt_mask_i32x8, lt_mask_i64x2, lt_mask_i64x4, lt_mask_i64x8,
    lt_mask_u32x16, lt_mask_u32x4, lt_mask_u32x8, lt_mask_u64x2, lt_mask_u64x4, lt_mask_u64x8,
};

verus! {

/// Marker type selecting the AVX2 (256-bit) SIMD backend for [`ConfigurableSimdQuickHeap`].
///
/// [`ConfigurableSimdQuickHeap`]: crate::ConfigurableSimdQuickHeap
pub struct Avx2;

/// Marker type selecting the AVX-512 (512-bit) SIMD backend for [`ConfigurableSimdQuickHeap`].
///
/// The const generic `CS` chooses between a fused compress-and-store and a compress
/// followed by a store; both write the same lanes, so `CS` does not change any result.
///
/// [`ConfigurableSimdQuickHeap`]: crate::ConfigurableSimdQuickHeap
pub struct Avx512<const CS: bool>;

/// Marker type selecting the NEON (128-bit) SIMD backend for [`ConfigurableSimdQuickHeap`].
///
/// 4 lanes for 32-bit elements, 2 lanes for 64-bit elements.
///
/// [`ConfigurableSimdQuickHeap`]: crate::ConfigurableSimdQuickHeap
pub struct Neon;

/// `before` with `part` written over it from index `at` on.
pub open spec fn written<T>(before: Seq<T>, at: int, part: Seq<T>) -> Seq<T> {
    before.take(at) + part + before.skip(at + part.len())
}

/// The lanes of `vals` that are at least their lane of `threshold`, in lane order.
pub open spec fn large_lanes<T: Key>(vals: Seq<T>, threshold: Seq<T>) -> Seq<T> {
    select_lanes(vals, le_flags(threshold, vals), vals.len() as int)
}

/// The lanes of `vals` that are below their lane of `threshold`, in lane order.
pub open spec fn small_lanes<T: Key>(vals: Seq<T>, threshold: Seq<T>) -> Seq<T> {
    select_lanes(vals, lt_flags(vals, threshold), vals.len() as int)
}

/// Like [`large_lanes`], among the lanes whose index is below their lane of `len`.
pub open spec fn large_lanes_in<T: Key>(vals: Seq<T>, len: Seq<T>, threshold: Seq<T>) -> Seq<T> {
    select_lanes(vals, and_flags(in_range_flags(len), le_flags(threshold, vals)), vals.len() as int)
}

/// Like [`small_lanes`], among the lanes whose index is below their lane of `len`.
pub open spec fn small_lanes_in<T: Key>(vals: Seq<T>, len: Seq<T>, threshold: Seq<T>) -> Seq<T> {
    select_lanes(vals, and_flags(in_range_flags(len), lt_flags(vals, threshold)), vals.len() as int)
}

/// A SIMD backend strategy for element type `T`.
///
/// Implemented by [`Avx2`] (8 lanes for 32-bit, 4 lanes for 64-bit), by [`Avx512`]
/// (16 lanes for 32-bit, 8 lanes for 64-bit) and by [`Neon`] (4 lanes for 32-bit,
/// 2 lanes for 64-bit). A vector is held as the array of its lanes.
pub trait SimdElem<T: Key>: 'static {
    /// Number of SIMD lanes.
    const L: usize;

    /// Maximum value for `T`.
    const MAX: T;

    /// The SIMD vector type (e.g. `[i32; 8]` or `[i64; 4]`).
    type Simd: Copy;

    /// The lanes of a vector, lane 0 first.
    spec fn lanes(v: Self::Simd) -> Seq<T>;

    /// A backend has between 1 and 16 lanes, lane indices are keys of `T`, and `MAX`
    /// is the largest value of `T`.
    proof fn lemma_params()
        ensures
            0 < Self::L <= 16,
            Self::L <= T::key_max(),
            T::key_min() <= 0,
            Self::MAX.key() == T::key_max(),
    ;

    /// Every vector has `L` lanes.
    proof fn lemma_lanes(v: Self::Simd)
        ensures
            Self::lanes(v).len() == Self::L,
    ;

    /// A vector with every lane equal to `v`.
    fn splat(v: T) -> (r: Self::Simd)
        ensures
            Self::lanes(r) == Seq::new(Self::L as nat, |i: int| v),
    ;

    /// The first `L` elements of `slice` as a vector.
    fn simd_from_slice(slice: &[T]) -> (r: Self::Simd)
        requires
            slice@.len() >= Self::L,
        ensures
            Self::lanes(r) == slice@.take(Self::L as int),
    ;

    /// Returns bitmask where bit `i` = `a[i] <= b[i]`.
    fn simd_lt_bitmask(a: Self::Simd, b: Self::Simd) -> (r: u64)
        ensures
            r == mask_of(le_flags(Self::lanes(a), Self::lanes(b))),
    ;

    /// Returns a SIMD register `[0, 1, 2, ..., L-1]`.
    fn lane_indices() -> (r: Self::Simd)
        ensures
            forall|i: int| 0 <= i < Self::L ==> (#[trigger] Self::lanes(r)[i]).key() == i,
    ;

    /// `n` converted with `as`: the value of `T` whose bits are the low bits of `n`.
    spec fn spec_from_usize(n: usize) -> T;

    /// `n` as a `T` (wrapping like `as`), exact whenever `n` is a key of `T`.
    fn from_usize(n: usize) -> (r: T)
        ensures
            r == Self::spec_from_usize(n),
            n <= T::key_max() ==> r.key() == n,
    ;

    /// `t + 1`, wrapping from the largest value of `T` to the smallest.
    fn wrapping_add_one(t: T) -> (r: T)
        ensures
            r.key() == (if t.key() == T::key_max() { T::key_min() } else { t.key() + 1 }),
    ;

    /// Partition all `L` lanes of `vals` against `threshold`.
    /// Lanes `>= threshold` go to `v`, lanes `< threshold` go to `w`, each in lane order,
    /// written from the current write index on, which then moves past them.
    fn partition_fast(
        vals: Self::Simd,
        threshold: Self::Simd,
        v: &mut [T],
        v_idx: &mut usize,
        w: &mut [T],
        w_idx: &mut usize,
    )
        requires
            *old(v_idx) + Self::L <= old(v)@.len(),
            *old(w_idx) + Self::L <= old(w)@.len(),
        ensures
            *final(v_idx) == *old(v_idx) + large_lanes(Self::lanes(vals), Self::lanes(threshold)).len(),
            final(v)@ == written(old(v)@, *old(v_idx) as int, large_lanes(Self::lanes(vals), Self::lanes(threshold))),
            *final(w_idx) == *old(w_idx) + small_lanes(Self::lanes(vals), Self::lanes(threshold)).len(),
            final(w)@ == written(old(w)@, *old(w_idx) as int, small_lanes(Self::lanes(vals), Self::lanes(threshold))),
    ;

    /// Like `partition_fast`, but only the lanes whose index is below their lane of `len`
    /// are in range; the others are written nowhere.
    fn partition_slow(
        vals: Self::Simd,
        len: Self::Simd,
        threshold: Self::Simd,
        v: &mut [T],
        v_idx: &mut usize,
        w: &mut [T],
        w_idx: &mut usize,
    )
        requires
            *old(v_idx) + Self::L <= old(v)@.len(),
            *old(w_idx) + Self::L <= old(w)@.len(),
        ensures
            *final(v_idx) == *old(v_idx) + large_lanes_in(Self::lanes(vals), Self::lanes(len), Self::lanes(threshold)).len(),
            final(v)@ == written(old(v)@, *old(v_idx) as int, large_lanes_in(Self::lanes(vals), Self::lanes(len), Self::lanes(threshold))),
            *final(w_idx) == *old(w_idx) + small_lanes_in(Self::lanes(vals), Self::lanes(len), Self::lanes(threshold)).len(),
            final(w)@ == written(old(w)@, *old(w_idx) as int, small_lanes_in(Self::lanes(vals), Self::lanes(len), Self::lanes(threshold))),
    ;
}

/// Keys never increase along `s`.
pub open spec fn non_increasing<T: Key>(s: Seq<T>) -> bool {
    forall|i: int, j: int| 0 <= i <= j < s.len() ==> s[j].key() <= s[i].key()
}

/// `r` splits `pivots` into the pivots that are at least `t`, before it, and those that
/// are below `t`, from it on.
pub open spec fn is_push_position<T: Key>(pivots: Seq<T>, t: T, r: int) -> bool {
    &&& 0 <= r <= pivots.len()
    &&& forall|i: int| 0 <= i < r ==> t.key() <= #[trigger] pivots[i].key()
    &&& forall|i: int| r <= i < pivots.len() ==> #[trigger] pivots[i].key() < t.key()
}

/// The position that [`position_min`] reports for `s`: that of a smallest key, the first
/// such even position if there is one, else the first such odd position; 0 when `s` is
/// empty.
pub open spec fn is_min_position<T: Key>(s: Seq<T>, r: int) -> bool {
    if s.len() == 0 {
        r == 0
    } else {
        &&& 0 <= r < s.len()
        &&& forall|j: int| 0 <= j < s.len() ==> s[r].key() <= #[trigger] s[j].key()
        &&& forall|j: int|
            0 <= j < s.len() && j % 2 == 0 && (r % 2 == 1 || j < r) ==> s[r].key()
                < #[trigger] s[j].key()
        &&& forall|j: int|
            0 <= j < r && j % 2 == 1 && r % 2 == 1 ==> s[r].key() < #[trigger] s[j].key()
    }
}

/// Lane `i` holds when `t <= s[i]`.
pub open spec fn at_least_flags<T: Key>(s: Seq<T>, t: T) -> Seq<bool> {
    Seq::new(s.len(), |i: int| t.key() <= s[i].key())
}

/// The flags that hold come first, and `leading_true` counts them.
proof fn lemma_leading_true_props(f: Seq<bool>)
    ensures
        leading_true(f) <= f.len(),
        forall|x: int| 0 <= x < leading_true(f) ==> f[x],
        leading_true(f) < f.len() ==> !f[leading_true(f) as int],
    decreases f.len(),
{
    if f.len() > 0 && f[0] {
        lemma_leading_true_props(f.drop_first());
        assert forall|x: int| 0 <= x < leading_true(f) implies f[x] by {
            if x > 0 {
                assert(f[x] == f.drop_first()[x - 1]);
            }
        }
    }
}

/// On non-increasing pivots the pivots at least `t` are exactly the leading ones.
proof fn lemma_sorted_split<T: Key>(pivots: Seq<T>, t: T)
    requires
        non_increasing(pivots),
    ensures
        is_push_position(pivots, t, leading_true(at_least_flags(pivots, t)) as int),
{
    let f = at_least_flags(pivots, t);
    let k = leading_true(f) as int;
    lemma_leading_true_props(f);
    assert forall|i: int| 0 <= i < k implies t.key() <= #[trigger] pivots[i].key() by {
        assert(f[i]);
    }
    assert forall|i: int| k <= i < pivots.len() implies #[trigger] pivots[i].key() < t.key() by {
        assert(!f[k]);
        assert(pivots[i].key() <= pivots[k].key());
    }
}

/// Number of pivots that are at least `t`: where `t` belongs among pivots that are sorted
/// from largest to smallest.
pub fn push_position<T: Key, S: SimdElem<T>>(pivots: &Vec<T>, t: T) -> (r: usize)
    ensures
        r <= pivots.len(),
        non_increasing(pivots@) ==> is_push_position(pivots@, t, r as int),
{
    let n = pivots.len();
    let ghost f = at_least_flags(pivots@, t);
    let ghost k = leading_true(f) as int;
    proof {
        S::lemma_params();
        lemma_leading_true_props(f);
        if non_increasing(pivots@) {
            lemma_sorted_split(pivots@, t);
        }
    }
    if n <= 64 {
        let t_simd = S::splat(t);
        let mut target_layer: usize = 0;
        let mut i: usize = 0;
        while i < n
            invariant
                n == pivots@.len(),
                n <= 64,
                0 < S::L <= 16,
                f == at_least_flags(pivots@, t),
                k == leading_true(f),
                S::lanes(t_simd) == Seq::new(S::L as nat, |j: int| t),
                i < n + S::L,
                target_layer <= i,
                non_increasing(pivots@) ==> is_push_position(pivots@, t, k),
                non_increasing(pivots@) ==> (if i <= k {
                    target_layer == i
                } else {
                    k < n ==> target_layer == k
                }),
                non_increasing(pivots@) && k == n && i > k ==> target_layer >= n,
            decreases n + S::L - i,
        {
            let vals = if i + S::L <= n {
                S::simd_from_slice(&pivots.as_slice()[i..i + S::L])
            } else {
                let mut buf: Vec<T> = Vec::new();
                let mut j: usize = i;
                while j < i + S::L
                    invariant
                        i < n,
                        n <= 64,
                        0 < S::L <= 16,
                        n == pivots@.len(),
                        i <= j <= i + S::L,
                        buf@.len() == j - i,
                        forall|x: int|
                            0 <= x < j - i ==> #[trigger] buf@[x] == (if i + x < n {
                                pivots@[i + x]
                            } else {
                                t
                            }),
                    decreases i + S::L - j,
                {
                    if j < n {
                        buf.push(pivots[j]);
                    } else {
                        buf.push(t);
                    }
                    j = j + 1;
                }
                S::simd_from_slice(buf.as_slice())
            };
            let ghost lanes = S::lanes(vals);
            proof {
                S::lemma_lanes(vals);
                assert(forall|x: int|
                    0 <= x < S::L && i + x < n ==> #[trigger] lanes[x] == pivots@[i + x]);
                assert(forall|x: int| 0 <= x < S::L && i + x >= n ==> #[trigger] lanes[x] == t);
            }
            let mask = S::simd_lt_bitmask(t_simd, vals);
            let ghost c = le_flags(S::lanes(t_simd), lanes);
            let ones = trailing_ones(mask, Ghost(c));
            proof {
                lemma_leading_true_props(c);
                if non_increasing(pivots@) {
                    if i + S::L <= k {
                        lemma_leading_true(c, S::L as int);
                    } else if i <= k && k < n {
                        assert(!c[k - i]);
                        lemma_leading_true(c, k - i);
                    } else if i <= k {
                        assert forall|x: int| 0 <= x < S::L implies c[x] by {
                            if i + x < n {
                                assert(f[i + x]);
                            }
                        }
                        lemma_leading_true(c, S::L as int);
                    } else {
                        assert(!f[i as int]);
                        assert(!c[0]);
                        lemma_leading_true(c, 0);
                    }
                }
            }
            target_layer = target_layer + ones as usize;
            i = i + S::L;
        }
        if target_layer < n {
            target_layer
        } else {
            n
        }
    } else {
        let mut lo: usize = 0;
        let mut hi: usize = n;
        while lo < hi
            invariant
                0 <= lo <= hi <= n,
                n == pivots@.len(),
                non_increasing(pivots@) ==> forall|x: int|
                    0 <= x < lo ==> t.key() <= #[trigger] pivots@[x].key(),
                non_increasing(pivots@) ==> forall|x: int|
                    hi <= x < n ==> #[trigger] pivots@[x].key() < t.key(),
            decreases hi - lo,
        {
            let mid = lo + (hi - lo) / 2;
            if pivots[mid].key_lt(&t) {
                proof {
                    if non_increasing(pivots@) {
                        assert forall|x: int| mid <= x < n implies #[trigger] pivots@[x].key()
                            < t.key() by {
                            assert(pivots@[x].key() <= pivots@[mid as int].key());
                        }
                    }
                }
                hi = mid;
            } else {
                proof {
                    if non_increasing(pivots@) {
                        assert forall|x: int| 0 <= x <= mid implies t.key()
                            <= #[trigger] pivots@[x].key() by {
                            assert(pivots@[mid as int].key() <= pivots@[x].key());
                        }
                    }
                }
                lo = mid + 1;
            }
        }
        lo
    }
}

/// Position of a smallest element of `v`: the first one among the even positions when
/// the smallest key occurs there, else the first one among the odd positions. Returns 0
/// for an empty vector.
pub fn position_min<T: Key, S: SimdElem<T>>(v: &mut Vec<T>) -> (r: usize)
    ensures
        final(v)@ == old(v)@,
        is_min_position(old(v)@, r as int),
{
    let n = v.len();
    let ghost s = v@;
    proof {
        S::lemma_params();
    }
    let mut pos0: usize = 0;
    let mut pos1: usize = 0;
    let mut val0: T = S::MAX;
    let mut val1: T = S::MAX;
    let mut i: usize = 0;
    while i < n / 2
        invariant
            v@ == s,
            n == s.len(),
            0 <= i <= n / 2,
            S::MAX.key() == T::key_max(),
            forall|j: int| 0 <= j < 2 * i && j % 2 == 0 ==> val0.key() <= #[trigger] s[j].key(),
            forall|j: int| 0 <= j < 2 * i && j % 2 == 1 ==> val1.key() <= #[trigger] s[j].key(),
            val0.key() == T::key_max() ==> pos0 == 0,
            val1.key() == T::key_max() ==> pos1 == 0,
            val0.key() != T::key_max() ==> pos0 < 2 * i && pos0 % 2 == 0 && s[pos0 as int] == val0,
            val1.key() != T::key_max() ==> pos1 < 2 * i && pos1 % 2 == 1 && s[pos1 as int] == val1,
            forall|j: int| 0 <= j < pos0 && j % 2 == 0 ==> val0.key() < #[trigger] s[j].key(),
            forall|j: int| 0 <= j < pos1 && j % 2 == 1 ==> val1.key() < #[trigger] s[j].key(),
        decreases n / 2 - i,
    {
        let l = v[2 * i];
        let r = v[2 * i + 1];
        proof {
            T::lemma_key(val0, val1);
            T::lemma_key(val1, val0);
            T::lemma_key(l, l);
            T::lemma_key(r, r);
        }
        if l.key_lt(&val0) {
            val0 = l;
            pos0 = 2 * i;
        }
        if r.key_lt(&val1) {
            val1 = r;
            pos1 = 2 * i + 1;
        }
        i = i + 1;
    }
    if n % 2 == 1 {
        let l = v[n - 1];
        proof {
            T::lemma_key(val0, val1);
            T::lemma_key(l, l);
        }
        if l.key_lt(&val0) {
            val0 = l;
            pos0 = n - 1;
        }
    }
    proof {
        assert forall|j: int| 0 <= j < n && j % 2 == 0 implies val0.key() <= #[trigger] s[j].key() by {
            if j >= 2 * i {
                assert(j == n - 1);
            }
        }
        assert forall|j: int| 0 <= j < n && j % 2 == 1 implies val1.key() <= #[trigger] s[j].key() by {
        }
        if n > 0 {
            T::lemma_key(s[0], s[0]);
            T::lemma_key(val0, val1);
        }
        assert forall|j: int| 0 <= j < n implies #[trigger] s[j].key() <= T::key_max() by {
            T::lemma_key(s[j], s[j]);
        }
    }
    if val0.key_le(&val1) {
        pos0
    } else {
        pos1
    }
}

/// A mask of flags that all hold is the full mask.
proof fn lemma_mask_all(a: Seq<bool>)
    requires
        forall|i: int| 0 <= i < a.len() ==> a[i],
    ensures
        mask_of(a) == full_mask(a.len()),
    decreases a.len(),
{
    if a.len() > 0 {
        lemma_mask_all(a.drop_first());
    }
}

proof fn lemma_select_len<T>(vals: Seq<T>, keep: Seq<bool>, k: int)
    requires
        0 <= k,
    ensures
        select_lanes(vals, keep, k).len() <= k,
    decreases k,
{
    if k > 0 {
        lemma_select_len(vals, keep, k - 1);
    }
}

proof fn lemma_written_push<T>(before: Seq<T>, at: int, part: Seq<T>, x: T)
    requires
        0 <= at,
        at + part.len() < before.len(),
    ensures
        written(before, at, part).update(at + part.len(), x) == written(before, at, part.push(x)),
{
    let lhs = written(before, at, part).update(at + part.len(), x);
    let rhs = written(before, at, part.push(x));
    assert(lhs.len() == rhs.len());
    assert forall|j: int| 0 <= j < lhs.len() implies lhs[j] == rhs[j] by {
        if j < at {
        } else if j < at + part.len() {
        } else if j == at + part.len() {
        } else {
        }
    }
    assert(lhs =~= rhs);
}

/// Writes lane `i` of `vals`, when `range[i]` holds, to `w` if `small[i]` holds and to `v`
/// otherwise; `small_m` and `range_m` are the masks of the two flag sequences.
fn scatter_lanes<T: Key>(
    vals: &[T],
    small_m: u64,
    range_m: u64,
    Ghost(small): Ghost<Seq<bool>>,
    Ghost(range): Ghost<Seq<bool>>,
    v: &mut [T],
    v_idx: &mut usize,
    w: &mut [T],
    w_idx: &mut usize,
)
    requires
        small.len() == vals@.len(),
        range.len() == vals@.len(),
        small_m == mask_of(small),
        range_m == mask_of(range),
        *old(v_idx) + vals@.len() <= old(v)@.len(),
        *old(w_idx) + vals@.len() <= old(w)@.len(),
    ensures
        *final(v_idx) == *old(v_idx) + select_lanes(vals@, and_flags(range, not_flags(small)), vals@.len() as int).len(),
        final(v)@ == written(old(v)@, *old(v_idx) as int, select_lanes(vals@, and_flags(range, not_flags(small)), vals@.len() as int)),
        *final(w_idx) == *old(w_idx) + select_lanes(vals@, and_flags(range, small), vals@.len() as int).len(),
        final(w)@ == written(old(w)@, *old(w_idx) as int, select_lanes(vals@, and_flags(range, small), vals@.len() as int)),
{
    let ghost keep_v = and_flags(range, not_flags(small));
    let ghost keep_w = and_flags(range, small);
    let ghost v0 = v@;
    let ghost w0 = w@;
    let ghost vi0 = *v_idx as int;
    let ghost wi0 = *w_idx as int;
    let n = vals.len();
    let mut sm: u64 = small_m;
    let mut rm: u64 = range_m;
    let mut i: usize = 0;
    proof {
        assert(small.skip(0) =~= small);
        assert(range.skip(0) =~= range);
        assert(v0 =~= written(v0, vi0, select_lanes(vals@, keep_v, 0)));
        assert(w0 =~= written(w0, wi0, select_lanes(vals@, keep_w, 0)));
    }
    while i < n
        invariant
            0 <= i <= n,
            n == vals@.len(),
            small.len() == n,
            range.len() == n,
            keep_v == and_flags(range, not_flags(small)),
            keep_w == and_flags(range, small),
            sm == mask_of(small.skip(i as int)),
            rm == mask_of(range.skip(i as int)),
            0 <= vi0,
            0 <= wi0,
            vi0 + n <= v0.len(),
            wi0 + n <= w0.len(),
            *v_idx == vi0 + select_lanes(vals@, keep_v, i as int).len(),
            *w_idx == wi0 + select_lanes(vals@, keep_w, i as int).len(),
            v@ == written(v0, vi0, select_lanes(vals@, keep_v, i as int)),
            w@ == written(w0, wi0, select_lanes(vals@, keep_w, i as int)),
        decreases n - i,
    {
        proof {
            lemma_mask_step(small.skip(i as int));
            lemma_mask_step(range.skip(i as int));
            assert(small.skip(i as int).drop_first() =~= small.skip(i + 1));
            assert(range.skip(i as int).drop_first() =~= range.skip(i + 1));
            lemma_select_len(vals@, keep_v, i as int);
            lemma_select_len(vals@, keep_w, i as int);
        }
        let ghost sel_v = select_lanes(vals@, keep_v, i as int);
        let ghost sel_w = select_lanes(vals@, keep_w, i as int);
        let is_small = sm % 2 == 1;
        let in_range = rm % 2 == 1;
        if in_range {
            if is_small {
                proof {
                    lemma_written_push(w0, wi0, sel_w, vals@[i as int]);
                }
                w[*w_idx] = vals[i];
                *w_idx = *w_idx + 1;
            } else {
                proof {
                    lemma_written_push(v0, vi0, sel_v, vals@[i as int]);
                }
                v[*v_idx] = vals[i];
                *v_idx = *v_idx + 1;
            }
        }
        sm = sm / 2;
        rm = rm / 2;
        i = i + 1;
    }
}

impl SimdElem<i32> for Avx2 {
    const L: usize = 8;

    const MAX: i32 = i32::MAX;

    type Simd = [i32; 8];

    open spec fn lanes(v: [i32; 8]) -> Seq<i32> {
        v@
    }

    open spec fn spec_from_usize(n: usize) -> i32 {
        n as i32
    }

    proof fn lemma_params() {
    }

    proof fn lemma_lanes(v: [i32; 8]) {
    }

    fn splat(v: i32) -> (r: [i32; 8]) {
        let r = [v; 8];
        assert(r@ =~= Seq::new(8, |i: int| v));
        r
    }

    fn simd_from_slice(slice: &[i32]) -> (r: [i32; 8]) {
        let r = [slice[0], slice[1], slice[2], slice[3], slice[4], slice[5], slice[6], slice[7]];
        assert(r@ =~= slice@.take(8));
        r
    }

    fn simd_lt_bitmask(a: [i32; 8], b: [i32; 8]) -> (r: u64) {
        let m = lt_mask_i32x8(b, a);
        proof {
            lemma_mask_complement(lt_flags(b@, a@), le_flags(a@, b@));
            lemma_full_masks();
        }
        (255 - m) as u64
    }

    fn lane_indices() -> (r: [i32; 8]) {
        [0, 1, 2, 3, 4, 5, 6, 7]
    }

    fn from_usize(n: usize) -> (r: i32) {
        n as i32
    }

    fn wrapping_add_one(t: i32) -> (r: i32) {
        t.wrapping_add(1)
    }

    fn partition_fast(
        vals: [i32; 8],
        threshold: [i32; 8],
        v: &mut [i32],
        v_idx: &mut usize,
        w: &mut [i32],
        w_idx: &mut usize,
    ) {
        let small = lt_mask_i32x8(vals, threshold);
        let ghost all = Seq::new(8, |i: int| true);
        proof {
            lemma_mask_all(all);
            lemma_full_masks();
            assert(and_flags(all, not_flags(lt_flags(vals@, threshold@))) =~= le_flags(threshold@, vals@));
            assert(and_flags(all, lt_flags(vals@, threshold@)) =~= lt_flags(vals@, threshold@));
        }
        scatter_lanes(
            vals.as_slice(),
            small as u64,
            255,
            Ghost(lt_flags(vals@, threshold@)),
            Ghost(all),
            v,
            v_idx,
            w,
            w_idx,
        );
    }

    fn partition_slow(
        vals: [i32; 8],
        len: [i32; 8],
        threshold: [i32; 8],
        v: &mut [i32],
        v_idx: &mut usize,
        w: &mut [i32],
        w_idx: &mut usize,
    ) {
        let idx = <Self as SimdElem<i32>>::lane_indices();
        let in_range = lt_mask_i32x8(idx, len);
        let small = lt_mask_i32x8(vals, threshold);
        proof {
            assert forall|j: int| 0 <= j < 8 implies #[trigger] idx@[j] == j by {
                assert(<Self as SimdElem<i32>>::lanes(idx)[j].key() == j);
            }
            assert(lt_flags(idx@, len@) =~= in_range_flags(len@));
            assert(and_flags(in_range_flags(len@), not_flags(lt_flags(vals@, threshold@)))
                =~= and_flags(in_range_flags(len@), le_flags(threshold@, vals@)));
        }
        scatter_lanes(
            vals.as_slice(),
            small as u64,
            in_range as u64,
            Ghost(lt_flags(vals@, threshold@)),
            Ghost(in_range_flags(len@)),
            v,
            v_idx,
            w,
            w_idx,
        );
    }
}

impl SimdElem<u32> for Avx2 {
    const L: usize = 8;

    const MAX: u32 = u32::MAX;

    type Simd = [u32; 8];

    open spec fn lanes(v: [u32; 8]) -> Seq<u32> {
        v@
    }

    open spec fn spec_from_usize(n: usize) -> u32 {
        n as u32
    }

    proof fn lemma_params() {
    }

    proof fn lemma_lanes(v: [u32; 8]) {
    }

    fn splat(v: u32) -> (r: [u32; 8]) {
        let r = [v; 8];
        assert(r@ =~= Seq::new(8, |i: int| v));
        r
    }

    fn simd_from_slice(slice: &[u32]) -> (r: [u32; 8]) {
        let r = [slice[0], slice[1], slice[2], slice[3], slice[4], slice[5], slice[6], slice[7]];
        assert(r@ =~= slice@.take(8));
        r
    }

    fn simd_lt_bitmask(a: [u32; 8], b: [u32; 8]) -> (r: u64) {
        let m = lt_mask_u32x8(b, a);
        proof {
            lemma_mask_complement(lt_flags(b@, a@), le_flags(a@, b@));
            lemma_full_masks();
        }
        (255 - m) as u64
    }

    fn lane_indices() -> (r: [u32; 8]) {
        [0, 1, 2, 3, 4, 5, 6, 7]
    }

    fn from_usize(n: usize) -> (r: u32) {
        n as u32
    }

    fn wrapping_add_one(t: u32) -> (r: u32) {
        t.wrapping_add(1)
    }

    fn partition_fast(
        vals: [u32; 8],
        threshold: [u32; 8],
        v: &mut [u32],
        v_idx: &mut usize,
        w: &mut [u32],
        w_idx: &mut usize,
    ) {
        let small = lt_mask_u32x8(vals, threshold);
        let ghost all = Seq::new(8, |i: int| true);
        proof {
            lemma_mask_all(all);
            lemma_full_masks();
            assert(and_flags(all, not_flags(lt_flags(vals@, threshold@))) =~= le_flags(threshold@, vals@));
            assert(and_flags(all, lt_flags(vals@, threshold@)) =~= lt_flags(vals@, threshold@));
        }
        scatter_lanes(
            vals.as_slice(),
            small as u64,
            255,
            Ghost(lt_flags(vals@, threshold@)),
            Ghost(all),
            v,
            v_idx,
            w,
            w_idx,
        );
    }

    fn partition_slow(
        vals: [u32; 8],
        len: [u32; 8],
        threshold: [u32; 8],
        v: &mut [u32],
        v_idx: &mut usize,
        w: &mut [u32],
        w_idx: &mut usize,
    ) {
        let idx = <Self as SimdElem<u32>>::lane_indices();
        let in_range = lt_mask_u32x8(idx, len);
        let small = lt_mask_u32x8(vals, threshold);
        proof {
            assert forall|j: int| 0 <= j < 8 implies #[trigger] idx@[j] == j by {
                assert(<Self as SimdElem<u32>>::lanes(idx)[j].key() == j);
            }
            assert(lt_flags(idx@, len@) =~= in_range_flags(len@));
            assert(and_flags(in_range_flags(len@), not_flags(lt_flags(vals@, threshold@)))
                =~= and_flags(in_range_flags(len@), le_flags(threshold@, vals@)));
        }
        scatter_lanes(
            vals.as_slice(),
            small as u64,
            in_range as u64,
            Ghost(lt_flags(vals@, threshold@)),
            Ghost(in_range_flags(len@)),
            v,
            v_idx,
            w,
            w_idx,
        );
    }
}

impl SimdElem<i64> for Avx2 {
    const L: usize = 4;

    const MAX: i64 = i64::MAX;

    type Simd = [i64; 4];

    open spec fn lanes(v: [i64; 4]) -> Seq<i64> {
        v@
    }

    open spec fn spec_from_usize(n: usize) -> i64 {
        n as i64
    }

    proof fn lemma_params() {
    }

    proof fn lemma_lanes(v: [i64; 4]) {
    }

    fn splat(v: i64) -> (r: [i64; 4]) {
        let r = [v; 4];
        assert(r@ =~= Seq::new(4, |i: int| v));
        r
    }

    fn simd_from_slice(slice: &[i64]) -> (r: [i64; 4]) {
        let r = [slice[0], slice[1], slice[2], slice[3]];
        assert(r@ =~= slice@.take(4));
        r
    }

    fn simd_lt_bitmask(a: [i64; 4], b: [i64; 4]) -> (r: u64) {
        let m = lt_mask_i64x4(b, a);
        proof {
            lemma_mask_complement(lt_flags(b@, a@), le_flags(a@, b@));
            lemma_full_masks();
        }
        (15 - m) as u64
    }

    fn lane_indices() -> (r: [i64; 4]) {
        [0, 1, 2, 3]
    }

    fn from_usize(n: usize) -> (r: i64) {
        n as i64
    }

    fn wrapping_add_one(t: i64) -> (r: i64) {
        t.wrapping_add(1)
    }

    fn partition_fast(
        vals: [i64; 4],
        threshold: [i64; 4],
        v: &mut [i64],
        v_idx: &mut usize,
        w: &mut [i64],
        w_idx: &mut usize,
    ) {
        let small = lt_mask_i64x4(vals, threshold);
        let ghost all = Seq::new(4, |i: int| true);
        proof {
            lemma_mask_all(all);
            lemma_full_masks();
            assert(and_flags(all, not_flags(lt_flags(vals@, threshold@))) =~= le_flags(threshold@, vals@));
            assert(and_flags(all, lt_flags(vals@, threshold@)) =~= lt_flags(vals@, threshold@));
        }
        scatter_lanes(
            vals.as_slice(),
            small as u64,
            15,
            Ghost(lt_flags(vals@, threshold@)),
            Ghost(all),
            v,
            v_idx,
            w,
            w_idx,
        );
    }

    fn partition_slow(
        vals: [i64; 4],
        len: [i64; 4],
        threshold: [i64; 4],
        v: &mut [i64],
        v_idx: &mut usize,
        w: &mut [i64],
        w_idx: &mut usize,
    ) {
        let idx = <Self as SimdElem<i64>>::lane_indices();
        let in_range = lt_mask_i64x4(idx, len);
        let small = lt_mask_i64x4(vals, threshold);
        proof {
            assert forall|j: int| 0 <= j < 4 implies #[trigger] idx@[j] == j by {
                assert(<Self as SimdElem<i64>>::lanes(idx)[j].key() == j);
            }
            assert(lt_flags(idx@, len@) =~= in_range_flags(len@));
            assert(and_flags(in_range_flags(len@), not_flags(lt_flags(vals@, threshold@)))
                =~= and_flags(in_range_flags(len@), le_flags(threshold@, vals@)));
        }
        scatter_lanes(
            vals.as_slice(),
            small as u64,
            in_range as u64,
            Ghost(lt_flags(vals@, threshold@)),
            Ghost(in_range_flags(len@)),
            v,
            v_idx,
            w,
            w_idx,
        );
    }
}

impl SimdElem<u64> for Avx2 {
    const L: usize = 4;

    const MAX: u64 = u64::MAX;

    type Simd = [u64; 4];

    open spec fn lanes(v: [u64; 4]) -> Seq<u64> {
        v@
    }

    open spec fn spec_from_usize(n: usize) -> u64 {
        n as u64
    }

    proof fn lemma_params() {
    }

    proof fn lemma_lanes(v: [u64; 4]) {
    }

    fn splat(v: u64) -> (r: [u64; 4]) {
        let r = [v; 4];
        assert(r@ =~= Seq::new(4, |i: int| v));
        r
    }

    fn simd_from_slice(slice: &[u64]) -> (r: [u64; 4]) {
        let r = [slice[0], slice[1], slice[2], slice[3]];
        assert(r@ =~= slice@.take(4));
        r
    }

    fn simd_lt_bitmask(a: [u64; 4], b: [u64; 4]) -> (r: u64) {
        let m = lt_mask_u64x4(b, a);
        proof {
            lemma_mask_complement(lt_flags(b@, a@), le_flags(a@, b@));
            lemma_full_masks();
        }
        (15 - m) as u64
    }

    fn lane_indices() -> (r: [u64; 4]) {
        [0, 1, 2, 3]
    }

    fn from_usize(n: usize) -> (r: u64) {
        n as u64
    }

    fn wrapping_add_one(t: u64) -> (r: u64) {
        t.wrapping_add(1)
    }

    fn partition_fast(
        vals: [u64; 4],
        threshold: [u64; 4],
        v: &mut [u64],
        v_idx: &mut usize,
        w: &mut [u64],
        w_idx: &mut usize,
    ) {
        let small = lt_mask_u64x4(vals, threshold);
        let ghost all = Seq::new(4, |i: int| true);
        proof {
            lemma_mask_all(all);
            lemma_full_masks();
            assert(and_flags(all, not_flags(lt_flags(vals@, threshold@))) =~= le_flags(threshold@, vals@));
            assert(and_flags(all, lt_flags(vals@, threshold@)) =~= lt_flags(vals@, threshold@));
        }
        scatter_lanes(
            vals.as_slice(),
            small as u64,
            15,
            Ghost(lt_flags(vals@, threshold@)),
            Ghost(all),
            v,
            v_idx,
            w,
            w_idx,
        );
    }

    fn partition_slow(
        vals: [u64; 4],
        len: [u64; 4],
        threshold: [u64; 4],
        v: &mut [u64],
        v_idx: &mut usize,
        w: &mut [u64],
        w_idx: &mut usize,
    ) {
        let idx = <Self as SimdElem<u64>>::lane_indices();
        let in_range = lt_mask_u64x4(idx, len);
        let small = lt_mask_u64x4(vals, threshold);
        proof {
            assert forall|j: int| 0 <= j < 4 implies #[trigger] idx@[j] == j by {
                assert(<Self as SimdElem<u64>>::lanes(idx)[j].key() == j);
            }
            assert(lt_flags(idx@, len@) =~= in_range_flags(len@));
            assert(and_flags(in_range_flags(len@), not_flags(lt_flags(vals@, threshold@)))
                =~= and_flags(in_range_flags(len@), le_flags(threshold@, vals@)));
        }
        scatter_lanes(
            vals.as_slice(),
            small as u64,
            in_range as u64,
            Ghost(lt_flags(vals@, threshold@)),
            Ghost(in_range_flags(len@)),
            v,
            v_idx,
            w,
            w_idx,
        );
    }
}

impl<const CS: bool> SimdElem<i32> for Avx512<CS> {
    const L: usize = 16;

    const MAX: i32 = i32::MAX;

    type Simd = [i32; 16];

    open spec fn lanes(v: [i32; 16]) -> Seq<i32> {
        v@
    }

    open spec fn spec_from_usize(n: usize) -> i32 {
        n as i32
    }

    proof fn lemma_params() {
    }

    proof fn lemma_lanes(v: [i32; 16]) {
    }

    fn splat(v: i32) -> (r: [i32; 16]) {
        let r = [v; 16];
        assert(r@ =~= Seq::new(16, |i: int| v));
        r
    }

    fn simd_from_slice(slice: &[i32]) -> (r: [i32; 16]) {
        let r = [slice[0], slice[1], slice[2], slice[3], slice[4], slice[5], slice[6], slice[7], slice[8], slice[9], slice[10], slice[11], slice[12], slice[13], slice[14], slice[15]];
        assert(r@ =~= slice@.take(16));
        r
    }

    fn simd_lt_bitmask(a: [i32; 16], b: [i32; 16]) -> (r: u64) {
        let m = lt_mask_i32x16(b, a);
        proof {
            lemma_mask_complement(lt_flags(b@, a@), le_flags(a@, b@));
            lemma_full_masks();
        }
        (65535 - m) as u64
    }

    fn lane_indices() -> (r: [i32; 16]) {
        [0, 1, 2, 3, 4, 5, 6, 7, 8, 9, 10, 11, 12, 13, 14, 15]
    }

    fn from_usize(n: usize) -> (r: i32) {
        n as i32
    }

    fn wrapping_add_one(t: i32) -> (r: i32) {
        t.wrapping_add(1)
    }

    fn partition_fast(
        vals: [i32; 16],
        threshold: [i32; 16],
        v: &mut [i32],
        v_idx: &mut usize,
        w: &mut [i32],
        w_idx: &mut usize,
    ) {
        let small = lt_mask_i32x16(vals, threshold);
        let ghost all = Seq::new(16, |i: int| true);
        proof {
            lemma_mask_all(all);
            lemma_full_masks();
            assert(and_flags(all, not_flags(lt_flags(vals@, threshold@))) =~= le_flags(threshold@, vals@));
            assert(and_flags(all, lt_flags(vals@, threshold@)) =~= lt_flags(vals@, threshold@));
        }
        scatter_lanes(
            vals.as_slice(),
            small as u64,
            65535,
            Ghost(lt_flags(vals@, threshold@)),
            Ghost(all),
            v,
            v_idx,
            w,
            w_idx,
        );
    }

    fn partition_slow(
        vals: [i32; 16],
        len: [i32; 16],
        threshold: [i32; 16],
        v: &mut [i32],
        v_idx: &mut usize,
        w: &mut [i32],
        w_idx: &mut usize,
    ) {
        let idx = <Self as SimdElem<i32>>::lane_indices();
        let in_range = lt_mask_i32x16(idx, len);
        let small = lt_mask_i32x16(vals, threshold);
        proof {
            assert forall|j: int| 0 <= j < 16 implies #[trigger] idx@[j] == j by {
                assert(<Self as SimdElem<i32>>::lanes(idx)[j].key() == j);
            }
            assert(lt_flags(idx@, len@) =~= in_range_flags(len@));
            assert(and_flags(in_range_flags(len@), not_flags(lt_flags(vals@, threshold@)))
                =~= and_flags(in_range_flags(len@), le_flags(threshold@, vals@)));
        }
        scatter_lanes(
            vals.as_slice(),
            small as u64,
            in_range as u64,
            Ghost(lt_flags(vals@, threshold@)),
            Ghost(in_range_flags(len@)),
            v,
            v_idx,
            w,
            w_idx,
        );
    }
}

impl<const CS: bool> SimdElem<u32> for Avx512<CS> {
    const L: usize = 16;

    const MAX: u32 = u32::MAX;

    type Simd = [u32; 16];

    open spec fn lanes(v: [u32; 16]) -> Seq<u32> {
        v@
    }

    open spec fn spec_from_usize(n: usize) -> u32 {
        n as u32
    }

    proof fn lemma_params() {
    }

    proof fn lemma_lanes(v: [u32; 16]) {
    }

    fn splat(v: u32) -> (r: [u32; 16]) {
        let r = [v; 16];
        assert(r@ =~= Seq::new(16, |i: int| v));
        r
    }

    fn simd_from_slice(slice: &[u32]) -> (r: [u32; 16]) {
        let r = [slice[0], slice[1], slice[2], slice[3], slice[4], slice[5], slice[6], slice[7], slice[8], slice[9], slice[10], slice[11], slice[12], slice[13], slice[14], slice[15]];
        assert(r@ =~= slice@.take(16));
        r
    }

    fn simd_lt_bitmask(a: [u32; 16], b: [u32; 16]) -> (r: u64) {
        let m = lt_mask_u32x16(b, a);
        proof {
            lemma_mask_complement(lt_flags(b@, a@), le_flags(a@, b@));
            lemma_full_masks();
        }
        (65535 - m) as u64
    }

    fn lane_indices() -> (r: [u32; 16]) {
        [0, 1, 2, 3, 4, 5, 6, 7, 8, 9, 10, 11, 12, 13, 14, 15]
    }

    fn from_usize(n: usize) -> (r: u32) {
        n as u32
    }

    fn wrapping_add_one(t: u32) -> (r: u32) {
        t.wrapping_add(1)
    }

    fn partition_fast(
        vals: [u32; 16],
        threshold: [u32; 16],
        v: &mut [u32],
        v_idx: &mut usize,
        w: &mut [u32],
        w_idx: &mut usize,
    ) {
        let small = lt_mask_u32x16(vals, threshold);
        let ghost all = Seq::new(16, |i: int| true);
        proof {
            lemma_mask_all(all);
            lemma_full_masks();
            assert(and_flags(all, not_flags(lt_flags(vals@, threshold@))) =~= le_flags(threshold@, vals@));
            assert(and_flags(all, lt_flags(vals@, threshold@)) =~= lt_flags(vals@, threshold@));
        }
        scatter_lanes(
            vals.as_slice(),
            small as u64,
            65535,
            Ghost(lt_flags(vals@, threshold@)),
            Ghost(all),
            v,
            v_idx,
            w,
            w_idx,
        );
    }

    fn partition_slow(
        vals: [u32; 16],
        len: [u32; 16],
        threshold: [u32; 16],
        v: &mut [u32],
        v_idx: &mut usize,
        w: &mut [u32],
        w_idx: &mut usize,
    ) {
        let idx = <Self as SimdElem<u32>>::lane_indices();
        let in_range = lt_mask_u32x16(idx, len);
        let small = lt_mask_u32x16(vals, threshold);
        proof {
            assert forall|j: int| 0 <= j < 16 implies #[trigger] idx@[j] == j by {
                assert(<Self as SimdElem<u32>>::lanes(idx)[j].key() == j);
            }
            assert(lt_flags(idx@, len@) =~= in_range_flags(len@));
            assert(and_flags(in_range_flags(len@), not_flags(lt_flags(vals@, threshold@)))
                =~= and_flags(in_range_flags(len@), le_flags(threshold@, vals@)));
        }
        scatter_lanes(
            vals.as_slice(),
            small as u64,
            in_range as u64,
            Ghost(lt_flags(vals@, threshold@)),
            Ghost(in_range_flags(len@)),
            v,
            v_idx,
            w,
            w_idx,
        );
    }
}

impl<const CS: bool> SimdElem<i64> for Avx512<CS> {
    const L: usize = 8;

    const MAX: i64 = i64::MAX;

    type Simd = [i64; 8];

    open spec fn lanes(v: [i64; 8]) -> Seq<i64> {
        v@
    }

    open spec fn spec_from_usize(n: usize) -> i64 {
        n as i64
    }

    proof fn lemma_params() {
    }

    proof fn lemma_lanes(v: [i64; 8]) {
    }

    fn splat(v: i64) -> (r: [i64; 8]) {
        let r = [v; 8];
        assert(r@ =~= Seq::new(8, |i: int| v));
        r
    }

    fn simd_from_slice(slice: &[i64]) -> (r: [i64; 8]) {
        let r = [slice[0], slice[1], slice[2], slice[3], slice[4], slice[5], slice[6], slice[7]];
        assert(r@ =~= slice@.take(8));
        r
    }

    fn simd_lt_bitmask(a: [i64; 8], b: [i64; 8]) -> (r: u64) {
        let m = lt_mask_i64x8(b, a);
        proof {
            lemma_mask_complement(lt_flags(b@, a@), le_flags(a@, b@));
            lemma_full_masks();
        }
        (255 - m) as u64
    }

    fn lane_indices() -> (r: [i64; 8]) {
        [0, 1, 2, 3, 4, 5, 6, 7]
    }

    fn from_usize(n: usize) -> (r: i64) {
        n as i64
    }

    fn wrapping_add_one(t: i64) -> (r: i64) {
        t.wrapping_add(1)
    }

    fn partition_fast(
        vals: [i64; 8],
        threshold: [i64; 8],
        v: &mut [i64],
        v_idx: &mut usize,
        w: &mut [i64],
        w_idx: &mut usize,
    ) {
        let small = lt_mask_i64x8(vals, threshold);
        let ghost all = Seq::new(8, |i: int| true);
        proof {
            lemma_mask_all(all);
            lemma_full_masks();
            assert(and_flags(all, not_flags(lt_flags(vals@, threshold@))) =~= le_flags(threshold@, vals@));
            assert(and_flags(all, lt_flags(vals@, threshold@)) =~= lt_flags(vals@, threshold@));
        }
        scatter_lanes(
            vals.as_slice(),
            small as u64,
            255,
            Ghost(lt_flags(vals@, threshold@)),
            Ghost(all),
            v,
            v_idx,
            w,
            w_idx,
        );
    }

    fn partition_slow(
        vals: [i64; 8],
        len: [i64; 8],
        threshold: [i64; 8],
        v: &mut [i64],
        v_idx: &mut usize,
        w: &mut [i64],
        w_idx: &mut usize,
    ) {
        let idx = <Self as SimdElem<i64>>::lane_indices();
        let in_range = lt_mask_i64x8(idx, len);
        let small = lt_mask_i64x8(vals, threshold);
        proof {
            assert forall|j: int| 0 <= j < 8 implies #[trigger] idx@[j] == j by {
                assert(<Self as SimdElem<i64>>::lanes(idx)[j].key() == j);
            }
            assert(lt_flags(idx@, len@) =~= in_range_flags(len@));
            assert(and_flags(in_range_flags(len@), not_flags(lt_flags(vals@, threshold@)))
                =~= and_flags(in_range_flags(len@), le_flags(threshold@, vals@)));
        }
        scatter_lanes(
            vals.as_slice(),
            small as u64,
            in_range as u64,
            Ghost(lt_flags(vals@, threshold@)),
            Ghost(in_range_flags(len@)),
            v,
            v_idx,
            w,
            w_idx,
        );
    }
}

impl<const CS: bool> SimdElem<u64> for Avx512<CS> {
    const L: usize = 8;

    const MAX: u64 = u64::MAX;

    type Simd = [u64; 8];

    open spec fn lanes(v: [u64; 8]) -> Seq<u64> {
        v@
    }

    open spec fn spec_from_usize(n: usize) -> u64 {
        n as u64
    }

    proof fn lemma_params() {
    }

    proof fn lemma_lanes(v: [u64; 8]) {
    }

    fn splat(v: u64) -> (r: [u64; 8]) {
        let r = [v; 8];
        assert(r@ =~= Seq::new(8, |i: int| v));
        r
    }

    fn simd_from_slice(slice: &[u64]) -> (r: [u64; 8]) {
        let r = [slice[0], slice[1], slice[2], slice[3], slice[4], slice[5], slice[6], slice[7]];
        assert(r@ =~= slice@.take(8));
        r
    }

    fn simd_lt_bitmask(a: [u64; 8], b: [u64; 8]) -> (r: u64) {
        let m = lt_mask_u64x8(b, a);
        proof {
            lemma_mask_complement(lt_flags(b@, a@), le_flags(a@, b@));
            lemma_full_masks();
        }
        (255 - m) as u64
    }

    fn lane_indices() -> (r: [u64; 8]) {
        [0, 1, 2, 3, 4, 5, 6, 7]
    }

    fn from_usize(n: usize) -> (r: u64) {
        n as u64
    }

    fn wrapping_add_one(t: u64) -> (r: u64) {
        t.wrapping_add(1)
    }

    fn partition_fast(
        vals: [u64; 8],
        threshold: [u64; 8],
        v: &mut [u64],
        v_idx: &mut usize,
        w: &mut [u64],
        w_idx: &mut usize,
    ) {
        let small = lt_mask_u64x8(vals, threshold);
        let ghost all = Seq::new(8, |i: int| true);
        proof {
            lemma_mask_all(all);
            lemma_full_masks();
            assert(and_flags(all, not_flags(lt_flags(vals@, threshold@))) =~= le_flags(threshold@, vals@));
            assert(and_flags(all, lt_flags(vals@, threshold@)) =~= lt_flags(vals@, threshold@));
        }
        scatter_lanes(
            vals.as_slice(),
            small as u64,
            255,
            Ghost(lt_flags(vals@, threshold@)),
            Ghost(all),
            v,
            v_idx,
            w,
            w_idx,
        );
    }

    fn partition_slow(
        vals: [u64; 8],
        len: [u64; 8],
        threshold: [u64; 8],
        v: &mut [u64],
        v_idx: &mut usize,
        w: &mut [u64],
        w_idx: &mut usize,
    ) {
        let idx = <Self as SimdElem<u64>>::lane_indices();
        let in_range = lt_mask_u64x8(idx, len);
        let small = lt_mask_u64x8(vals, threshold);
        proof {
            assert forall|j: int| 0 <= j < 8 implies #[trigger] idx@[j] == j by {
                assert(<Self as SimdElem<u64>>::lanes(idx)[j].key() == j);
            }
            assert(lt_flags(idx@, len@) =~= in_range_flags(len@));
            assert(and_flags(in_range_flags(len@), not_flags(lt_flags(vals@, threshold@)))
                =~= and_flags(in_range_flags(len@), le_flags(threshold@, vals@)));
        }
        scatter_lanes(
            vals.as_slice(),
            small as u64,
            in_range as u64,
            Ghost(lt_flags(vals@, threshold@)),
            Ghost(in_range_flags(len@)),
            v,
            v_idx,
            w,
            w_idx,
        );
    }
}

impl SimdElem<i32> for Neon {
    const L: usize = 4;

    const MAX: i32 = i32::MAX;

    type Simd = [i32; 4];

    open spec fn lanes(v: [i32; 4]) -> Seq<i32> {
        v@
    }

    open spec fn spec_from_usize(n: usize) -> i32 {
        n as i32
    }

    proof fn lemma_params() {
    }

    proof fn lemma_lanes(v: [i32; 4]) {
    }

    fn splat(v: i32) -> (r: [i32; 4]) {
        let r = [v; 4];
        assert(r@ =~= Seq::new(4, |i: int| v));
        r
    }

    fn simd_from_slice(slice: &[i32]) -> (r: [i32; 4]) {
        let r = [slice[0], slice[1], slice[2], slice[3]];
        assert(r@ =~= slice@.take(4));
        r
    }

    fn simd_lt_bitmask(a: [i32; 4], b: [i32; 4]) -> (r: u64) {
        let m = lt_mask_i32x4(b, a);
        proof {
            lemma_mask_complement(lt_flags(b@, a@), le_flags(a@, b@));
            lemma_full_masks();
        }
        (15 - m) as u64
    }

    fn lane_indices() -> (r: [i32; 4]) {
        [0, 1, 2, 3]
    }

    fn from_usize(n: usize) -> (r: i32) {
        n as i32
    }

    fn wrapping_add_one(t: i32) -> (r: i32) {
        t.wrapping_add(1)
    }

    fn partition_fast(
        vals: [i32; 4],
        threshold: [i32; 4],
        v: &mut [i32],
        v_idx: &mut usize,
        w: &mut [i32],
        w_idx: &mut usize,
    ) {
        let small = lt_mask_i32x4(vals, threshold);
        let ghost all = Seq::new(4, |i: int| true);
        proof {
            lemma_mask_all(all);
            lemma_full_masks();
            assert(and_flags(all, not_flags(lt_flags(vals@, threshold@))) =~= le_flags(threshold@, vals@));
            assert(and_flags(all, lt_flags(vals@, threshold@)) =~= lt_flags(vals@, threshold@));
        }
        scatter_lanes(
            vals.as_slice(),
            small as u64,
            15,
            Ghost(lt_flags(vals@, threshold@)),
            Ghost(all),
            v,
            v_idx,
            w,
            w_idx,
        );
    }

    fn partition_slow(
        vals: [i32; 4],
        len: [i32; 4],
        threshold: [i32; 4],
        v: &mut [i32],
        v_idx: &mut usize,
        w: &mut [i32],
        w_idx: &mut usize,
    ) {
        let idx = <Self as SimdElem<i32>>::lane_indices();
        let in_range = lt_mask_i32x4(idx, len);
        let small = lt_mask_i32x4(vals, threshold);
        proof {
            assert forall|j: int| 0 <= j < 4 implies #[trigger] idx@[j] == j by {
                assert(<Self as SimdElem<i32>>::lanes(idx)[j].key() == j);
            }
            assert(lt_flags(idx@, len@) =~= in_range_flags(len@));
            assert(and_flags(in_range_flags(len@), not_flags(lt_flags(vals@, threshold@)))
                =~= and_flags(in_range_flags(len@), le_flags(threshold@, vals@)));
        }
        scatter_lanes(
            vals.as_slice(),
            small as u64,
            in_range as u64,
            Ghost(lt_flags(vals@, threshold@)),
            Ghost(in_range_flags(len@)),
            v,
            v_idx,
            w,
            w_idx,
        );
    }
}

impl SimdElem<u32> for Neon {
    const L: usize = 4;

    const MAX: u32 = u32::MAX;

    type Simd = [u32; 4];

    open spec fn lanes(v: [u32; 4]) -> Seq<u32> {
        v@
    }

    open spec fn spec_from_usize(n: usize) -> u32 {
        n as u32
    }

    proof fn lemma_params() {
    }

    proof fn lemma_lanes(v: [u32; 4]) {
    }

    fn splat(v: u32) -> (r: [u32; 4]) {
        let r = [v; 4];
        assert(r@ =~= Seq::new(4, |i: int| v));
        r
    }

    fn simd_from_slice(slice: &[u32]) -> (r: [u32; 4]) {
        let r = [slice[0], slice[1], slice[2], slice[3]];
        assert(r@ =~= slice@.take(4));
        r
    }

    fn simd_lt_bitmask(a: [u32; 4], b: [u32; 4]) -> (r: u64) {
        let m = lt_mask_u32x4(b, a);
        proof {
            lemma_mask_complement(lt_flags(b@, a@), le_flags(a@, b@));
            lemma_full_masks();
        }
        (15 - m) as u64
    }

    fn lane_indices() -> (r: [u32; 4]) {
        [0, 1, 2, 3]
    }

    fn from_usize(n: usize) -> (r: u32) {
        n as u32
    }

    fn wrapping_add_one(t: u32) -> (r: u32) {
        t.wrapping_add(1)
    }

    fn partition_fast(
        vals: [u32; 4],
        threshold: [u32; 4],
        v: &mut [u32],
        v_idx: &mut usize,
        w: &mut [u32],
        w_idx: &mut usize,
    ) {
        let small = lt_mask_u32x4(vals, threshold);
        let ghost all = Seq::new(4, |i: int| true);
        proof {
            lemma_mask_all(all);
            lemma_full_masks();
            assert(and_flags(all, not_flags(lt_flags(vals@, threshold@))) =~= le_flags(threshold@, vals@));
            assert(and_flags(all, lt_flags(vals@, threshold@)) =~= lt_flags(vals@, threshold@));
        }
        scatter_lanes(
            vals.as_slice(),
            small as u64,
            15,
            Ghost(lt_flags(vals@, threshold@)),
            Ghost(all),
            v,
            v_idx,
            w,
            w_idx,
        );
    }

    fn partition_slow(
        vals: [u32; 4],
        len: [u32; 4],
        threshold: [u32; 4],
        v: &mut [u32],
        v_idx: &mut usize,
        w: &mut [u32],
        w_idx: &mut usize,
    ) {
        let idx = <Self as SimdElem<u32>>::lane_indices();
        let in_range = lt_mask_u32x4(idx, len);
        let small = lt_mask_u32x4(vals, threshold);
        proof {
            assert forall|j: int| 0 <= j < 4 implies #[trigger] idx@[j] == j by {
                assert(<Self as SimdElem<u32>>::lanes(idx)[j].key() == j);
            }
            assert(lt_flags(idx@, len@) =~= in_range_flags(len@));
            assert(and_flags(in_range_flags(len@), not_flags(lt_flags(vals@, threshold@)))
                =~= and_flags(in_range_flags(len@), le_flags(threshold@, vals@)));
        }
        scatter_lanes(
            vals.as_slice(),
            small as u64,
            in_range as u64,
            Ghost(lt_flags(vals@, threshold@)),
            Ghost(in_range_flags(len@)),
            v,
            v_idx,
            w,
            w_idx,
        );
    }
}

impl SimdElem<i64> for Neon {
    const L: usize = 2;

    const MAX: i64 = i64::MAX;

    type Simd = [i64; 2];

    open spec fn lanes(v: [i64; 2]) -> Seq<i64> {
        v@
    }

    open spec fn spec_from_usize(n: usize) -> i64 {
        n as i64
    }

    proof fn lemma_params() {
    }

    proof fn lemma_lanes(v: [i64; 2]) {
    }

    fn splat(v: i64) -> (r: [i64; 2]) {
        let r = [v; 2];
        assert(r@ =~= Seq::new(2, |i: int| v));
        r
    }

    fn simd_from_slice(slice: &[i64]) -> (r: [i64; 2]) {
        let r = [slice[0], slice[1]];
        assert(r@ =~= slice@.take(2));
        r
    }

    fn simd_lt_bitmask(a: [i64; 2], b: [i64; 2]) -> (r: u64) {
        let m = lt_mask_i64x2(b, a);
        proof {
            lemma_mask_complement(lt_flags(b@, a@), le_flags(a@, b@));
            lemma_full_masks();
        }
        (3 - m) as u64
    }

    fn lane_indices() -> (r: [i64; 2]) {
        [0, 1]
    }

    fn from_usize(n: usize) -> (r: i64) {
        n as i64
    }

    fn wrapping_add_one(t: i64) -> (r: i64) {
        t.wrapping_add(1)
    }

    fn partition_fast(
        vals: [i64; 2],
        threshold: [i64; 2],
        v: &mut [i64],
        v_idx: &mut usize,
        w: &mut [i64],
        w_idx: &mut usize,
    ) {
        let small = lt_mask_i64x2(vals, threshold);
        let ghost all = Seq::new(2, |i: int| true);
        proof {
            lemma_mask_all(all);
            lemma_full_masks();
            assert(and_flags(all, not_flags(lt_flags(vals@, threshold@))) =~= le_flags(threshold@, vals@));
            assert(and_flags(all, lt_flags(vals@, threshold@)) =~= lt_flags(vals@, threshold@));
        }
        scatter_lanes(
            vals.as_slice(),
            small as u64,
            3,
            Ghost(lt_flags(vals@, threshold@)),
            Ghost(all),
            v,
            v_idx,
            w,
            w_idx,
        );
    }

    fn partition_slow(
        vals: [i64; 2],
        len: [i64; 2],
        threshold: [i64; 2],
        v: &mut [i64],
        v_idx: &mut usize,
        w: &mut [i64],
        w_idx: &mut usize,
    ) {
        let idx = <Self as SimdElem<i64>>::lane_indices();
        let in_range = lt_mask_i64x2(idx, len);
        let small = lt_mask_i64x2(vals, threshold);
        proof {
            assert forall|j: int| 0 <= j < 2 implies #[trigger] idx@[j] == j by {
                assert(<Self as SimdElem<i64>>::lanes(idx)[j].key() == j);
            }
            assert(lt_flags(idx@, len@) =~= in_range_flags(len@));
            assert(and_flags(in_range_flags(len@), not_flags(lt_flags(vals@, threshold@)))
                =~= and_flags(in_range_flags(len@), le_flags(threshold@, vals@)));
        }
        scatter_lanes(
            vals.as_slice(),
            small as u64,
            in_range as u64,
            Ghost(lt_flags(vals@, threshold@)),
            Ghost(in_range_flags(len@)),
            v,
            v_idx,
            w,
            w_idx,
        );
    }
}

impl SimdElem<u64> for Neon {
    const L: usize = 2;

    const MAX: u64 = u64::MAX;

    type Simd = [u64; 2];

    open spec fn lanes(v: [u64; 2]) -> Seq<u64> {
        v@
    }

    open spec fn spec_from_usize(n: usize) -> u64 {
        n as u64
    }

    proof fn lemma_params() {
    }

    proof fn lemma_lanes(v: [u64; 2]) {
    }

    fn splat(v: u64) -> (r: [u64; 2]) {
        let r = [v; 2];
        assert(r@ =~= Seq::new(2, |i: int| v));
        r
    }

    fn simd_from_slice(slice: &[u64]) -> (r: [u64; 2]) {
        let r = [slice[0], slice[1]];
        assert(r@ =~= slice@.take(2));
        r
    }

    fn simd_lt_bitmask(a: [u64; 2], b: [u64; 2]) -> (r: u64) {
        let m = lt_mask_u64x2(b, a);
        proof {
            lemma_mask_complement(lt_flags(b@, a@), le_flags(a@, b@));
            lemma_full_masks();
        }
        (3 - m) as u64
    }

    fn lane_indices() -> (r: [u64; 2]) {
        [0, 1]
    }

    fn from_usize(n: usize) -> (r: u64) {
        n as u64
    }

    fn wrapping_add_one(t: u64) -> (r: u64) {
        t.wrapping_add(1)
    }

    fn partition_fast(
        vals: [u64; 2],
        threshold: [u64; 2],
        v: &mut [u64],
        v_idx: &mut usize,
        w: &mut [u64],
        w_idx: &mut usize,
    ) {
        let small = lt_mask_u64x2(vals, threshold);
        let ghost all = Seq::new(2, |i: int| true);
        proof {
            lemma_mask_all(all);
            lemma_full_masks();
            assert(and_flags(all, not_flags(lt_flags(vals@, threshold@))) =~= le_flags(threshold@, vals@));
            assert(and_flags(all, lt_flags(vals@, threshold@)) =~= lt_flags(vals@, threshold@));
        }
        scatter_lanes(
            vals.as_slice(),
            small as u64,
            3,
            Ghost(lt_flags(vals@, threshold@)),
            Ghost(all),
            v,
            v_idx,
            w,
            w_idx,
        );
    }

    fn partition_slow(
        vals: [u64; 2],
        len: [u64; 2],
        threshold: [u64; 2],
        v: &mut [u64],
        v_idx: &mut usize,
        w: &mut [u64],
        w_idx: &mut usize,
    ) {
        let idx = <Self as SimdElem<u64>>::lane_indices();
        let in_range = lt_mask_u64x2(idx, len);
        let small = lt_mask_u64x2(vals, threshold);
        proof {
            assert forall|j: int| 0 <= j < 2 implies #[trigger] idx@[j] == j by {
                assert(<Self as SimdElem<u64>>::lanes(idx)[j].key() == j);
            }
            assert(lt_flags(idx@, len@) =~= in_range_flags(len@));
            assert(and_flags(in_range_flags(len@), not_flags(lt_flags(vals@, threshold@)))
                =~= and_flags(in_range_flags(len@), le_flags(threshold@, vals@)));
        }
        scatter_lanes(
            vals.as_slice(),
            small as u64,
            in_range as u64,
            Ghost(lt_flags(vals@, threshold@)),
            Ghost(in_range_flags(len@)),
            v,
            v_idx,
            w,
            w_idx,
        );
    }
}

} // verus!
