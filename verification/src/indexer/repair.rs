//! Repair OCR'd page numbers using the structure of a fake-book index: it is
//! alphabetical, so the pages must increase (non-decreasing) in reading order.
//!
//! Strategy: take a longest non-decreasing subsequence of the in-range pages
//! as "anchors" (the values that agree with each other; among equal-length
//! runs, the tightest, so a lone spike is not trusted), and replace everything
//! else by linear interpolation between the surrounding anchors (rounded to the
//! nearest integer, halves up). Before the first anchor, pages count back by one
//! per entry; after the last, they count up by one. Every replaced value is
//! clamped to `[min, max]`.

use vstd::prelude::*;

verus! {

// ---------------------------------------------------------------------------
// Model
// ---------------------------------------------------------------------------

pub open spec fn in_range(p: i32, min: i32, max: i32) -> bool {
    min <= p <= max
}

pub open spec fn some_in_range(raw: Seq<i32>, min: i32, max: i32) -> bool {
    exists|i: int| 0 <= i < raw.len() && #[trigger] in_range(raw[i], min, max)
}

/// `c` lists positions of `raw` in increasing order whose values are in range
/// and non-decreasing: a candidate set of anchors.
pub open spec fn is_chain(raw: Seq<i32>, min: i32, max: i32, c: Seq<int>) -> bool {
    &&& forall|k: int|
        0 <= k < c.len() ==> 0 <= #[trigger] c[k] < raw.len() && in_range(raw[c[k]], min, max)
    &&& forall|k1: int, k2: int|
        0 <= k1 < k2 < c.len() ==> #[trigger] c[k1] < #[trigger] c[k2] && raw[c[k1]] <= raw[c[k2]]
}

/// A chain that no other chain is longer than.
pub open spec fn is_longest_chain(raw: Seq<i32>, min: i32, max: i32, a: Seq<int>) -> bool {
    &&& is_chain(raw, min, max, a)
    &&& forall|c: Seq<int>| #[trigger] is_chain(raw, min, max, c) ==> c.len() <= a.len()
}

/// The value span of a chain: its last value minus its first.
pub open spec fn span(raw: Seq<i32>, c: Seq<int>) -> int {
    raw[c.last()] - raw[c[0]]
}

/// `a` and `b` agree after position `k`, and `a` has the smaller entry there.
pub open spec fn rev_lt_at(a: Seq<int>, b: Seq<int>, k: int) -> bool {
    &&& 0 <= k < a.len()
    &&& a[k] < b[k]
    &&& forall|t: int| k < t < a.len() ==> a[t] == b[t]
}

/// `a` comes before `b` when positions are compared from the end.
pub open spec fn rev_lt(a: Seq<int>, b: Seq<int>) -> bool {
    a.len() == b.len() && exists|k: int| #[trigger] rev_lt_at(a, b, k)
}

/// The anchors that are trusted: a longest chain; among those, one of the
/// smallest value span (so a lone spike such as `37, 358, 39` keeps 37 and
/// 39); among those, the one ending first; and among those, the one whose
/// positions are smallest when compared from the end.
pub open spec fn is_preferred_chain(raw: Seq<i32>, min: i32, max: i32, a: Seq<int>) -> bool {
    &&& is_longest_chain(raw, min, max, a)
    &&& forall|d: Seq<int>| #[trigger] is_longest_chain(raw, min, max, d) ==> {
        &&& span(raw, a) <= span(raw, d)
        &&& span(raw, d) == span(raw, a) ==> a.last() <= d.last()
        &&& span(raw, d) == span(raw, a) && d.last() == a.last() ==> !rev_lt(d, a)
    }
}

/// How many elements of `a` are below `i`.
pub open spec fn lt_count(a: Seq<int>, i: int) -> nat
    decreases a.len(),
{
    if a.len() == 0 {
        0
    } else {
        lt_count(a.drop_last(), i) + if a.last() < i {
            1nat
        } else {
            0nat
        }
    }
}

pub open spec fn clamp(v: int, lo: int, hi: int) -> int {
    if v < lo {
        lo
    } else if v > hi {
        hi
    } else {
        v
    }
}

/// `p / q` rounded to the nearest integer, halves up (for `p >= 0`, `q > 0`).
pub open spec fn round_div(p: int, q: int) -> int {
    (2 * p + q) / (2 * q)
}

/// The unclamped replacement for a non-anchor position `i`, where `k` anchors
/// lie before it.
pub open spec fn gap_value(raw: Seq<i32>, a: Seq<int>, k: int, i: int) -> int {
    if 0 < k < a.len() {
        let x = a[k - 1];
        let y = a[k];
        raw[x] + round_div((raw[y] - raw[x]) * (i - x), y - x)
    } else if 0 < k {
        raw[a[k - 1]] + (i - a[k - 1])
    } else if k < a.len() {
        raw[a[k]] - (a[k] - i)
    } else {
        raw[i] as int
    }
}

/// Position `i` is one of the anchors `a` (given as an increasing list).
pub open spec fn is_anchor_at(a: Seq<int>, i: int) -> bool {
    lt_count(a, i) < a.len() && a[lt_count(a, i) as int] == i
}

/// The repaired value at `i` given anchors `a`.
pub open spec fn repaired_at(raw: Seq<i32>, min: i32, max: i32, a: Seq<int>, i: int) -> i32 {
    if is_anchor_at(a, i) {
        raw[i]
    } else {
        clamp(gap_value(raw, a, lt_count(a, i) as int, i), min as int, max as int) as i32
    }
}

/// The repaired sequence given anchors `a`.
pub open spec fn repaired(raw: Seq<i32>, min: i32, max: i32, a: Seq<int>) -> Seq<i32> {
    Seq::new(raw.len(), |i: int| repaired_at(raw, min, max, a, i))
}

/// What `repair_monotonic` returns as its corrected pages: the input itself
/// when no page is in range, and otherwise the repair around the preferred
/// chain of anchors (there is exactly one; see `law_repair_deterministic`).
pub open spec fn repair_post(raw: Seq<i32>, min: i32, max: i32, out: Seq<i32>) -> bool {
    &&& !some_in_range(raw, min, max) ==> out == raw
    &&& some_in_range(raw, min, max) ==> exists|a: Seq<int>|
        is_preferred_chain(raw, min, max, a) && out == #[trigger] repaired(raw, min, max, a)
}

/// Number of positions below `n` where `raw` and `out` differ.
pub open spec fn changed_count(raw: Seq<i32>, out: Seq<i32>, n: int) -> nat
    decreases n,
{
    if n <= 0 {
        0
    } else {
        changed_count(raw, out, n - 1) + if raw[n - 1] != out[n - 1] {
            1nat
        } else {
            0nat
        }
    }
}

pub open spec fn non_decreasing(s: Seq<i32>) -> bool {
    forall|i: int, j: int| 0 <= i <= j < s.len() ==> s[i] <= s[j]
}

pub open spec fn all_in_range(s: Seq<i32>, min: i32, max: i32) -> bool {
    forall|i: int| 0 <= i < s.len() ==> in_range(#[trigger] s[i], min, max)
}

// ---------------------------------------------------------------------------
// Lemmas
// ---------------------------------------------------------------------------

/// For an increasing list, `lt_count` splits it into the part below `i` and
/// the rest.
pub proof fn lemma_lt_count_split(a: Seq<int>, i: int)
    requires
        forall|k1: int, k2: int| 0 <= k1 < k2 < a.len() ==> #[trigger] a[k1] < #[trigger] a[k2],
    ensures
        lt_count(a, i) <= a.len(),
        forall|t: int| 0 <= t < lt_count(a, i) ==> #[trigger] a[t] < i,
        forall|t: int| lt_count(a, i) <= t < a.len() ==> #[trigger] a[t] >= i,
    decreases a.len(),
{
    if a.len() > 0 {
        let b = a.drop_last();
        assert forall|k1: int, k2: int| 0 <= k1 < k2 < b.len() implies #[trigger] b[k1]
            < #[trigger] b[k2] by {
            assert(a[k1] < a[k2]);
        }
        lemma_lt_count_split(b, i);
        if a.last() < i {
            assert forall|t: int| 0 <= t < a.len() implies #[trigger] a[t] < i by {
                if t < a.len() - 1 {
                    assert(a[t] < a[a.len() - 1]);
                }
            }
        }
        assert forall|t: int| 0 <= t < lt_count(a, i) implies #[trigger] a[t] < i by {
            if t < b.len() {
                assert(a[t] == b[t]);
            }
        }
        assert forall|t: int| lt_count(a, i) <= t < a.len() implies #[trigger] a[t] >= i by {
            if t < b.len() {
                assert(a[t] == b[t]);
            }
        }
    }
}

/// `lt_count` is determined by any split point.
pub proof fn lemma_lt_count_unique(a: Seq<int>, i: int, k: int)
    requires
        forall|k1: int, k2: int| 0 <= k1 < k2 < a.len() ==> #[trigger] a[k1] < #[trigger] a[k2],
        0 <= k <= a.len(),
        forall|t: int| 0 <= t < k ==> #[trigger] a[t] < i,
        forall|t: int| k <= t < a.len() ==> #[trigger] a[t] >= i,
    ensures
        lt_count(a, i) == k,
{
    lemma_lt_count_split(a, i);
    let c = lt_count(a, i) as int;
    if c < k {
        assert(a[c] >= i);
        assert(a[c] < i);
    } else if c > k {
        assert(a[k] < i);
        assert(a[k] >= i);
    }
}

pub proof fn lemma_round_div_mono(p1: int, p2: int, q: int)
    requires
        0 <= p1 <= p2,
        0 < q,
    ensures
        round_div(p1, q) <= round_div(p2, q),
{
    vstd::arithmetic::div_mod::lemma_div_is_ordered(2 * p1 + q, 2 * p2 + q, 2 * q);
}

pub proof fn lemma_round_div_bounds(d: int, t: int, s: int)
    requires
        0 <= d,
        0 <= t <= s,
        0 < s,
    ensures
        0 <= round_div(d * t, s) <= d,
{
    vstd::arithmetic::mul::lemma_mul_nonnegative(d, t);
    vstd::arithmetic::mul::lemma_mul_inequality(t, s, d);
    assert(t * d == d * t) by (nonlinear_arith);
    assert(s * d == d * s) by (nonlinear_arith);
    lemma_round_div_mono(0, d * t, s);
    lemma_round_div_mono(d * t, d * s, s);
    assert(round_div(0, s) == 0) by {
        vstd::arithmetic::div_mod::lemma_basic_div(s, 2 * s);
    }
    assert(2 * (d * s) + s == (2 * s) * d + s) by (nonlinear_arith);
    vstd::arithmetic::div_mod::lemma_fundamental_div_mod_converse(2 * (d * s) + s, 2 * s, d, s);
}

pub proof fn lemma_clamp_mono(v1: int, v2: int, lo: int, hi: int)
    requires
        v1 <= v2,
        lo <= hi,
    ensures
        clamp(v1, lo, hi) <= clamp(v2, lo, hi),
        lo <= clamp(v1, lo, hi) <= hi,
{
}


/// The repaired value before clamping.
pub open spec fn unclamped_at(raw: Seq<i32>, a: Seq<int>, i: int) -> int {
    if is_anchor_at(a, i) {
        raw[i] as int
    } else {
        gap_value(raw, a, lt_count(a, i) as int, i)
    }
}

pub proof fn lemma_chain_strict(raw: Seq<i32>, min: i32, max: i32, a: Seq<int>)
    requires
        is_chain(raw, min, max, a),
    ensures
        forall|k1: int, k2: int| 0 <= k1 < k2 < a.len() ==> #[trigger] a[k1] < #[trigger] a[k2],
{
}

/// Consecutive unclamped values never decrease.
pub proof fn lemma_unclamped_step(raw: Seq<i32>, min: i32, max: i32, a: Seq<int>, i: int)
    requires
        is_chain(raw, min, max, a),
        a.len() > 0,
        0 <= i,
        i + 1 < raw.len(),
    ensures
        unclamped_at(raw, a, i) <= unclamped_at(raw, a, i + 1),
{
    lemma_chain_strict(raw, min, max, a);
    lemma_lt_count_split(a, i);
    lemma_lt_count_split(a, i + 1);
    let k = lt_count(a, i) as int;
    let big_l = a.len() as int;
    if is_anchor_at(a, i) {
        assert(a[k] == i);
        if k + 1 < big_l {
            assert(a[k + 1] > a[k]);
        }
        lemma_lt_count_unique(a, i + 1, k + 1);
        if k + 1 < big_l && a[k + 1] == i + 1 {
            assert(raw[a[k]] <= raw[a[k + 1]]);
        } else if k + 1 < big_l {
            let x = a[k];
            let y = a[k + 1];
            let d = raw[y] - raw[x];
            assert(raw[x] <= raw[y]);
            assert(d * (i + 1 - x) == d * 1);
            lemma_round_div_bounds(d, 1, y - x);
        } else {
        }
    } else {
        if k < big_l {
            assert(a[k] > i);
        }
        lemma_lt_count_unique(a, i + 1, k);
        if k < big_l && a[k] == i + 1 {
            if k > 0 {
                let x = a[k - 1];
                let y = a[k];
                let d = raw[y] - raw[x];
                assert(raw[x] <= raw[y]);
                lemma_round_div_bounds(d, i - x, y - x);
            }
        } else {
            if 0 < k < big_l {
                let x = a[k - 1];
                let y = a[k];
                let d = raw[y] - raw[x];
                assert(raw[x] <= raw[y]);
                assert(d * (i - x) <= d * (i + 1 - x)) by (nonlinear_arith)
                    requires
                        d >= 0,
                        i - x <= i + 1 - x,
                ;
                assert(d * (i - x) >= 0) by (nonlinear_arith)
                    requires
                        d >= 0,
                        i - x >= 0,
                ;
                lemma_round_div_mono(d * (i - x), d * (i + 1 - x), y - x);
            }
        }
    }
}

pub proof fn lemma_unclamped_mono(raw: Seq<i32>, min: i32, max: i32, a: Seq<int>, i: int, j: int)
    requires
        is_chain(raw, min, max, a),
        a.len() > 0,
        0 <= i <= j < raw.len(),
    ensures
        unclamped_at(raw, a, i) <= unclamped_at(raw, a, j),
    decreases j - i,
{
    if i < j {
        lemma_unclamped_mono(raw, min, max, a, i, j - 1);
        lemma_unclamped_step(raw, min, max, a, j - 1);
    }
}

/// Around a non-empty chain, the repaired sequence is non-decreasing and in
/// range.
pub proof fn lemma_repaired_sorted(raw: Seq<i32>, min: i32, max: i32, a: Seq<int>)
    requires
        is_chain(raw, min, max, a),
        a.len() > 0,
    ensures
        non_decreasing(repaired(raw, min, max, a)),
        all_in_range(repaired(raw, min, max, a), min, max),
{
    let r = repaired(raw, min, max, a);
    lemma_chain_strict(raw, min, max, a);
    assert(min <= max) by {
        assert(in_range(raw[a[0]], min, max));
    }
    assert forall|i: int| 0 <= i < r.len() implies r[i] as int == clamp(
        unclamped_at(raw, a, i),
        min as int,
        max as int,
    ) by {
        if is_anchor_at(a, i) {
            let k = lt_count(a, i) as int;
            assert(in_range(raw[a[k]], min, max));
        }
    }
    assert forall|i: int, j: int| 0 <= i <= j < r.len() implies r[i] <= r[j] by {
        lemma_unclamped_mono(raw, min, max, a, i, j);
        lemma_clamp_mono(unclamped_at(raw, a, i), unclamped_at(raw, a, j), min as int, max as int);
    }
    assert forall|i: int| 0 <= i < r.len() implies in_range(#[trigger] r[i], min, max) by {
        lemma_clamp_mono(unclamped_at(raw, a, i), unclamped_at(raw, a, i), min as int, max as int);
    }
}

proof fn lemma_strict_lower(a: Seq<int>, t: int)
    requires
        forall|k1: int, k2: int| 0 <= k1 < k2 < a.len() ==> #[trigger] a[k1] < #[trigger] a[k2],
        forall|k: int| 0 <= k < a.len() ==> 0 <= #[trigger] a[k],
        0 <= t < a.len(),
    ensures
        a[t] >= t,
    decreases t,
{
    if t > 0 {
        lemma_strict_lower(a, t - 1);
        assert(a[t - 1] < a[t]);
    }
}

proof fn lemma_strict_upper(a: Seq<int>, n: int, t: int)
    requires
        forall|k1: int, k2: int| 0 <= k1 < k2 < a.len() ==> #[trigger] a[k1] < #[trigger] a[k2],
        forall|k: int| 0 <= k < a.len() ==> #[trigger] a[k] < n,
        0 <= t < a.len(),
    ensures
        a[t] <= n - a.len() + t,
    decreases a.len() - t,
{
    if t < a.len() - 1 {
        lemma_strict_upper(a, n, t + 1);
        assert(a[t] < a[t + 1]);
    }
}

/// A clean sequence (non-decreasing, all in range) is its own repair.
pub proof fn lemma_clean_repaired(raw: Seq<i32>, min: i32, max: i32, a: Seq<int>)
    requires
        non_decreasing(raw),
        all_in_range(raw, min, max),
        is_longest_chain(raw, min, max, a),
    ensures
        repaired(raw, min, max, a) == raw,
{
    let n = raw.len() as int;
    let full = Seq::new(raw.len(), |k: int| k);
    assert(is_chain(raw, min, max, full));
    assert(a.len() >= n);
    lemma_chain_strict(raw, min, max, a);
    if a.len() > 0 {
        lemma_strict_lower(a, a.len() - 1);
    }
    assert(a.len() == n);
    assert forall|t: int| 0 <= t < a.len() implies #[trigger] a[t] == t by {
        lemma_strict_lower(a, t);
        lemma_strict_upper(a, n, t);
    }
    assert forall|i: int| 0 <= i < n implies #[trigger] repaired(raw, min, max, a)[i] == raw[i] by {
        lemma_lt_count_unique(a, i, i);
    }
    assert(repaired(raw, min, max, a) =~= raw);
}

// ---------------------------------------------------------------------------
// Laws
// ---------------------------------------------------------------------------

/// When some page is in range, the repaired pages are non-decreasing and all
/// lie in `[min, max]`.
pub proof fn law_repair_sorted(raw: Seq<i32>, min: i32, max: i32, out: Seq<i32>)
    requires
        repair_post(raw, min, max, out),
        some_in_range(raw, min, max),
    ensures
        non_decreasing(out),
        all_in_range(out, min, max),
{
    let a = choose|a: Seq<int>|
        is_preferred_chain(raw, min, max, a) && out == #[trigger] repaired(raw, min, max, a);
    let i = choose|i: int| 0 <= i < raw.len() && #[trigger] in_range(raw[i], min, max);
    assert(is_chain(raw, min, max, seq![i]));
    lemma_repaired_sorted(raw, min, max, a);
}

/// A clean sequence of pages (non-decreasing, all in `[min, max]`) comes back
/// unchanged.
pub proof fn law_repair_keeps_clean(raw: Seq<i32>, min: i32, max: i32, out: Seq<i32>)
    requires
        repair_post(raw, min, max, out),
        non_decreasing(raw),
        all_in_range(raw, min, max),
    ensures
        out == raw,
{
    if some_in_range(raw, min, max) {
        let a = choose|a: Seq<int>|
            is_preferred_chain(raw, min, max, a) && out == #[trigger] repaired(raw, min, max, a);
        lemma_clean_repaired(raw, min, max, a);
    }
}

/// Repairing a repaired sequence changes nothing.
pub proof fn law_repair_idempotent(
    raw: Seq<i32>,
    min: i32,
    max: i32,
    once: Seq<i32>,
    twice: Seq<i32>,
)
    requires
        repair_post(raw, min, max, once),
        repair_post(once, min, max, twice),
    ensures
        twice == once,
{
    if some_in_range(raw, min, max) {
        law_repair_sorted(raw, min, max, once);
        law_repair_keeps_clean(once, min, max, twice);
    }
}


/// The values around the anchors: anchors keep their pages; before the first
/// anchor the pages count back by one per entry from it, and after the last
/// anchor they count up by one per entry from it, each clamped to
/// `[min, max]`.
pub proof fn law_repair_ends_step_by_one(raw: Seq<i32>, min: i32, max: i32, out: Seq<i32>)
    requires
        repair_post(raw, min, max, out),
        some_in_range(raw, min, max),
    ensures
        exists|a: Seq<int>| #[trigger] is_preferred_chain(raw, min, max, a) && a.len() > 0 && {
            &&& out.len() == raw.len()
            &&& forall|k: int| 0 <= k < a.len() ==> out[#[trigger] a[k]] == raw[a[k]]
            &&& forall|i: int|
                a.last() < i < raw.len() ==> {
                    let v = raw[a.last()] + (i - a.last());
                    #[trigger] out[i] == (if v < min { min as int } else if v > max { max as int } else { v })
                }
            &&& forall|i: int|
                0 <= i < a[0] ==> {
                    let v = raw[a[0]] - (a[0] - i);
                    #[trigger] out[i] == (if v < min { min as int } else if v > max { max as int } else { v })
                }
        },
{
    let a = choose|a: Seq<int>|
        is_preferred_chain(raw, min, max, a) && out == #[trigger] repaired(raw, min, max, a);
    let j = choose|j: int| 0 <= j < raw.len() && #[trigger] in_range(raw[j], min, max);
    assert(is_chain(raw, min, max, seq![j]));
    assert(a.len() > 0);
    lemma_chain_strict(raw, min, max, a);
    let n = a.len() as int;
    assert forall|k: int| 0 <= k < a.len() implies out[#[trigger] a[k]] == raw[a[k]] by {
        assert forall|t: int| 0 <= t < k implies #[trigger] a[t] < a[k] by {}
        assert forall|t: int| k <= t < a.len() implies #[trigger] a[t] >= a[k] by {
            if t > k {
                assert(a[k] < a[t]);
            }
        }
        lemma_lt_count_unique(a, a[k], k);
        assert(is_anchor_at(a, a[k]));
    }
    assert forall|i: int| a.last() < i < raw.len() implies {
        let v = raw[a.last()] + (i - a.last());
        #[trigger] out[i] == (if v < min { min as int } else if v > max { max as int } else { v })
    } by {
        assert forall|t: int| 0 <= t < n implies #[trigger] a[t] < i by {
            if t < n - 1 {
                assert(a[t] < a[n - 1]);
            }
        }
        lemma_lt_count_unique(a, i, n);
        assert(!is_anchor_at(a, i));
    }
    assert forall|i: int| 0 <= i < a[0] implies {
        let v = raw[a[0]] - (a[0] - i);
        #[trigger] out[i] == (if v < min { min as int } else if v > max { max as int } else { v })
    } by {
        assert forall|t: int| 0 <= t < n implies #[trigger] a[t] >= i by {
            if t > 0 {
                assert(a[0] < a[t]);
            }
        }
        lemma_lt_count_unique(a, i, 0);
        assert(a[0] != i);
        assert(!is_anchor_at(a, i));
    }
}

/// Comparing from the end orders any two different lists of the same length.
pub proof fn lemma_rev_total(a: Seq<int>, b: Seq<int>)
    requires
        a.len() == b.len(),
    ensures
        a == b || rev_lt(a, b) || rev_lt(b, a),
    decreases a.len(),
{
    let n = a.len() as int;
    if n == 0 {
        assert(a =~= b);
    } else if a[n - 1] != b[n - 1] {
        if a[n - 1] < b[n - 1] {
            assert(rev_lt_at(a, b, n - 1));
        } else {
            assert(rev_lt_at(b, a, n - 1));
        }
    } else {
        let a2 = a.drop_last();
        let b2 = b.drop_last();
        lemma_rev_total(a2, b2);
        if a2 == b2 {
            assert(a =~= b) by {
                assert forall|t: int| 0 <= t < n implies a[t] == b[t] by {
                    if t < n - 1 {
                        assert(a[t] == a2[t] && b[t] == b2[t]);
                    }
                }
            }
        } else if rev_lt(a2, b2) {
            let k = choose|k: int| #[trigger] rev_lt_at(a2, b2, k);
            assert forall|t: int| k < t < n implies a[t] == b[t] by {
                if t < n - 1 {
                    assert(a[t] == a2[t] && b[t] == b2[t]);
                }
            }
            assert(rev_lt_at(a, b, k));
        } else {
            let k = choose|k: int| #[trigger] rev_lt_at(b2, a2, k);
            assert forall|t: int| k < t < n implies b[t] == a[t] by {
                if t < n - 1 {
                    assert(a[t] == a2[t] && b[t] == b2[t]);
                }
            }
            assert(rev_lt_at(b, a, k));
        }
    }
}

proof fn lemma_rev_irreflexive(a: Seq<int>)
    ensures
        !rev_lt(a, a),
{
    if rev_lt(a, a) {
        let k = choose|k: int| #[trigger] rev_lt_at(a, a, k);
        assert(a[k] < a[k]);
    }
}

proof fn lemma_rev_asym(a: Seq<int>, b: Seq<int>)
    requires
        rev_lt(a, b),
    ensures
        !rev_lt(b, a),
{
    let k1 = choose|k: int| #[trigger] rev_lt_at(a, b, k);
    if rev_lt(b, a) {
        let k2 = choose|k: int| #[trigger] rev_lt_at(b, a, k);
        if k1 < k2 {
            assert(a[k2] == b[k2]);
        } else if k2 < k1 {
            assert(b[k1] == a[k1]);
        }
    }
}

proof fn lemma_rev_push(a: Seq<int>, b: Seq<int>, x: int)
    requires
        a.len() == b.len(),
        rev_lt(a.push(x), b.push(x)),
    ensures
        rev_lt(a, b),
{
    let n = a.len() as int;
    let k = choose|k: int| #[trigger] rev_lt_at(a.push(x), b.push(x), k);
    assert(k < n);
    assert forall|t: int| k < t < n implies a[t] == b[t] by {
        assert(a.push(x)[t] == b.push(x)[t]);
    }
    assert(rev_lt_at(a, b, k));
}

/// There is only one preferred chain.
pub proof fn lemma_preferred_unique(raw: Seq<i32>, min: i32, max: i32, a: Seq<int>, b: Seq<int>)
    requires
        is_preferred_chain(raw, min, max, a),
        is_preferred_chain(raw, min, max, b),
    ensures
        a == b,
{
    assert(is_longest_chain(raw, min, max, b));
    assert(is_longest_chain(raw, min, max, a));
    assert(a.len() == b.len());
    lemma_rev_total(a, b);
}

/// The repaired pages are fully determined by the input: `repair_post`
/// admits exactly one result.
pub proof fn law_repair_deterministic(raw: Seq<i32>, min: i32, max: i32, out1: Seq<i32>, out2: Seq<i32>)
    requires
        repair_post(raw, min, max, out1),
        repair_post(raw, min, max, out2),
    ensures
        out1 == out2,
{
    if some_in_range(raw, min, max) {
        let a = choose|a: Seq<int>|
            is_preferred_chain(raw, min, max, a) && out1 == #[trigger] repaired(raw, min, max, a);
        let b = choose|b: Seq<int>|
            is_preferred_chain(raw, min, max, b) && out2 == #[trigger] repaired(raw, min, max, b);
        lemma_preferred_unique(raw, min, max, a, b);
    }
}

// ---------------------------------------------------------------------------
// Dynamic programme for the longest chain
// ---------------------------------------------------------------------------

/// Facts the dynamic programme establishes for position `k`: `lens[k]` is the
/// length of the longest chains ending at `k` (0 when `raw[k]` is out of
/// range), `start[k]` the largest first value among them, `paths[k]` the one
/// among those with that first value whose positions are smallest compared
/// from the end, and `prev[k]` its second-to-last position (or `usize::MAX`).
pub open spec fn dp_entry_ok(
    raw: Seq<i32>,
    min: i32,
    max: i32,
    lens: Seq<usize>,
    start: Seq<i32>,
    prev: Seq<usize>,
    paths: Seq<Seq<int>>,
    k: int,
) -> bool {
    &&& (lens[k] == 0 <==> !in_range(raw[k], min, max))
    &&& lens[k] <= k + 1
    &&& lens[k] >= 1 ==> {
        &&& paths[k].len() == lens[k]
        &&& is_chain(raw, min, max, paths[k])
        &&& paths[k].last() == k
        &&& start[k] == raw[paths[k][0]]
        &&& (lens[k] == 1 ==> prev[k] == usize::MAX)
        &&& (lens[k] > 1 ==> prev[k] < k && paths[prev[k] as int] == paths[k].drop_last()
            && lens[prev[k] as int] == lens[k] - 1)
        &&& forall|j: int|
            0 <= j < k && in_range(raw[j], min, max) && raw[j] <= raw[k] ==> lens[k] >= #[trigger] lens[j]
                + 1
        &&& forall|c: Seq<int>|
            #[trigger] is_chain(raw, min, max, c) && c.len() == lens[k] && c.last() == k ==> raw[c[0]]
                <= start[k]
        &&& forall|c: Seq<int>|
            #[trigger] is_chain(raw, min, max, c) && c.len() == lens[k] && c.last() == k && raw[c[0]]
                == start[k] ==> !rev_lt(c, paths[k])
    }
}

pub open spec fn dp_ok(
    raw: Seq<i32>,
    min: i32,
    max: i32,
    lens: Seq<usize>,
    start: Seq<i32>,
    prev: Seq<usize>,
    paths: Seq<Seq<int>>,
    n: int,
) -> bool {
    &&& lens.len() == n && start.len() == n && prev.len() == n && paths.len() == n
    &&& n <= raw.len()
    &&& forall|k: int| 0 <= k < n ==> #[trigger] dp_entry_ok(raw, min, max, lens, start, prev, paths, k)
}

/// Every chain is at most as long as the best chain ending where it ends.
pub proof fn lemma_chain_bounded(
    raw: Seq<i32>,
    min: i32,
    max: i32,
    lens: Seq<usize>,
    start: Seq<i32>,
    prev: Seq<usize>,
    paths: Seq<Seq<int>>,
    c: Seq<int>,
    n: int,
)
    requires
        dp_ok(raw, min, max, lens, start, prev, paths, n),
        is_chain(raw, min, max, c),
        c.len() > 0,
        c.last() < n,
    ensures
        c.len() <= lens[c.last()],
    decreases c.len(),
{
    let k = c.last();
    assert(dp_entry_ok(raw, min, max, lens, start, prev, paths, k));
    if c.len() > 1 {
        let c2 = c.drop_last();
        assert(is_chain(raw, min, max, c2)) by {
            assert forall|k1: int, k2: int| 0 <= k1 < k2 < c2.len() implies #[trigger] c2[k1]
                < #[trigger] c2[k2] && raw[c2[k1]] <= raw[c2[k2]] by {
                assert(c[k1] < c[k2]);
            }
        }
        assert(c[c.len() - 2] < c[c.len() - 1]);
        lemma_chain_bounded(raw, min, max, lens, start, prev, paths, c2, n);
        let j = c2.last();
        assert(c[c.len() - 2] < c[c.len() - 1]);
        assert(raw[c[c.len() - 2]] <= raw[c[c.len() - 1]]);
        assert(lens[k] >= lens[j] + 1);
    }
}

/// The entry the dynamic programme computes for position `i` has the
/// largest start among the longest chains ending at `i`, and the path that
/// comes first from the end among those with that start.
proof fn lemma_new_entry(
    raw: Seq<i32>,
    min: i32,
    max: i32,
    lens: Seq<usize>,
    start: Seq<i32>,
    prev: Seq<usize>,
    paths: Seq<Seq<int>>,
    i: int,
    li: int,
    si: i32,
    pi: int,
    path_i: Seq<int>,
)
    requires
        dp_ok(raw, min, max, lens, start, prev, paths, i),
        0 <= i < raw.len(),
        in_range(raw[i], min, max),
        1 <= li,
        path_i.len() == li,
        is_chain(raw, min, max, path_i),
        path_i.last() == i,
        si == raw[path_i[0]],
        li > 1 ==> 0 <= pi < i && paths[pi] == path_i.drop_last() && lens[pi] == li - 1 && start[pi] == si,
        forall|jj: int|
            0 <= jj < i && in_range(raw[jj], min, max) && raw[jj] <= raw[i] ==> li >= #[trigger] lens[jj] + 1,
        forall|jj: int|
            0 <= jj < i && in_range(raw[jj], min, max) && raw[jj] <= raw[i] && lens[jj] + 1 == li
                ==> #[trigger] start[jj] <= si,
        li > 1 ==> forall|jj: int|
            0 <= jj < pi && in_range(raw[jj], min, max) && raw[jj] <= raw[i] && lens[jj] + 1 == li
                ==> #[trigger] start[jj] != si,
    ensures
        forall|c: Seq<int>|
            #[trigger] is_chain(raw, min, max, c) && c.len() == li && c.last() == i ==> raw[c[0]] <= si,
        forall|c: Seq<int>|
            #[trigger] is_chain(raw, min, max, c) && c.len() == li && c.last() == i && raw[c[0]] == si
                ==> !rev_lt(c, path_i),
{
    assert forall|c: Seq<int>| #[trigger] is_chain(raw, min, max, c) && c.len() == li && c.last() == i implies raw[c[0]]
        <= si && (raw[c[0]] == si ==> !rev_lt(c, path_i)) by {
        if li == 1 {
            assert(c =~= path_i);
            lemma_rev_irreflexive(c);
        } else {
            let m = li - 1;
            let cp = c.drop_last();
            let jj = cp.last();
            assert(jj == c[m - 1]);
            assert(c[m - 1] < c[m] && raw[c[m - 1]] <= raw[c[m]]);
            assert(is_chain(raw, min, max, cp)) by {
                assert forall|k1: int, k2: int| 0 <= k1 < k2 < cp.len() implies #[trigger] cp[k1]
                    < #[trigger] cp[k2] && raw[cp[k1]] <= raw[cp[k2]] by {
                    assert(c[k1] < c[k2]);
                }
            }
            lemma_chain_bounded(raw, min, max, lens, start, prev, paths, cp, i);
            assert(dp_entry_ok(raw, min, max, lens, start, prev, paths, jj));
            assert(in_range(raw[jj], min, max));
            assert(lens[jj] == m);
            assert(cp[0] == c[0]);
            assert(raw[cp[0]] <= start[jj]);
            if raw[c[0]] == si {
                assert(start[jj] == si);
                assert(dp_entry_ok(raw, min, max, lens, start, prev, paths, pi));
                let pp = paths[pi];
                assert(pp.last() == pi);
                assert(path_i[m - 1] == pi);
                if pi < jj {
                    assert(rev_lt_at(path_i, c, m - 1));
                    lemma_rev_asym(path_i, c);
                } else {
                    assert(pi == jj);
                    assert(c =~= cp.push(i));
                    assert(path_i =~= pp.push(i));
                    if rev_lt(c, path_i) {
                        lemma_rev_push(cp, pp, i);
                    }
                }
            }
        }
    }
}

fn copy_pages(raw: &[i32]) -> (v: Vec<i32>)
    ensures
        v@ == raw@,
{
    let mut v: Vec<i32> = Vec::new();
    let mut i: usize = 0;
    while i < raw.len()
        invariant
            i <= raw@.len(),
            v@ == raw@.take(i as int),
        decreases raw@.len() - i,
    {
        v.push(raw[i]);
        assert(raw@.take(i as int).push(raw@[i as int]) =~= raw@.take(i + 1));
        i = i + 1;
    }
    assert(raw@.take(raw@.len() as int) =~= raw@);
    v
}

/// Repair `raw` pages (in reading order) toward a non-decreasing sequence.
/// Values outside `[min, max]` are never trusted as anchors. Returns the
/// corrected pages and how many entries changed.
pub fn repair_monotonic(raw: &[i32], min: i32, max: i32) -> (r: (Vec<i32>, usize))
    ensures
        r.0@.len() == raw@.len(),
        repair_post(raw@, min, max, r.0@),
        r.1 == changed_count(raw@, r.0@, raw@.len() as int),
{
    let n = raw.len();
    if n == 0 {
        let v: Vec<i32> = Vec::new();
        assert(v@ =~= raw@);
        return (v, 0);
    }
    // Longest non-decreasing subsequence over in-range entries. Among
    // equal-length runs ending at the same place, the one with the larger
    // start value (a tighter span) wins.

    let mut lens: Vec<usize> = Vec::new();
    let mut start: Vec<i32> = Vec::new();
    let mut prev: Vec<usize> = Vec::new();
    let ghost mut paths: Seq<Seq<int>> = seq![];
    let mut i: usize = 0;
    while i < n
        invariant
            n == raw@.len(),
            i <= n,
            dp_ok(raw@, min, max, lens@, start@, prev@, paths, i as int),
        decreases n - i,
    {
        let ri = raw[i];
        if !(ri >= min && ri <= max) {
            let ghost old_paths = paths;
            let ghost old_lens = lens@;
            let ghost old_start = start@;
            let ghost old_prev = prev@;
            proof {
                paths = paths.push(seq![]);
            }
            lens.push(0);
            start.push(0);
            prev.push(usize::MAX);
            assert forall|k: int| 0 <= k < i + 1 implies #[trigger] dp_entry_ok(
                raw@,
                min,
                max,
                lens@,
                start@,
                prev@,
                paths,
                k,
            ) by {
                if k < i {
                    assert(dp_entry_ok(raw@, min, max, old_lens, old_start, old_prev, old_paths, k));
                    assert(forall|x: int| 0 <= x < i ==> old_lens[x] == #[trigger] lens@[x]);
                    assert(forall|x: int| 0 <= x < i ==> old_paths[x] == #[trigger] paths[x]);
                }
            }
            i = i + 1;
            continue;
        }
        let mut li: usize = 1;
        let mut si: i32 = ri;
        let mut pi: usize = usize::MAX;
        let ghost mut path_i: Seq<int> = seq![i as int];
        let mut j: usize = 0;
        while j < i
            invariant
                n == raw@.len(),
                i < n,
                j <= i,
                ri == raw@[i as int],
                in_range(ri, min, max),
                dp_ok(raw@, min, max, lens@, start@, prev@, paths, i as int),
                1 <= li <= i + 1,
                path_i.len() == li,
                is_chain(raw@, min, max, path_i),
                path_i.last() == i,
                si == raw@[path_i[0]],
                li == 1 ==> pi == usize::MAX,
                li > 1 ==> pi < j && paths[pi as int] == path_i.drop_last() && lens@[pi as int]
                    == li - 1 && start@[pi as int] == si,
                forall|jj: int|
                    0 <= jj < j && in_range(raw@[jj], min, max) && raw@[jj] <= ri ==> li
                        >= #[trigger] lens@[jj] + 1,
                forall|jj: int|
                    0 <= jj < j && in_range(raw@[jj], min, max) && raw@[jj] <= ri && lens@[jj] + 1
                        == li ==> #[trigger] start@[jj] <= si,
                li > 1 ==> forall|jj: int|
                    0 <= jj < pi && in_range(raw@[jj], min, max) && raw@[jj] <= ri && lens@[jj] + 1
                        == li ==> #[trigger] start@[jj] != si,
            decreases i - j,
        {
            let rj = raw[j];
            if rj >= min && rj <= max && rj <= ri {
                assert(dp_entry_ok(raw@, min, max, lens@, start@, prev@, paths, j as int));
                let cand = lens[j] + 1;
                if cand > li || (cand == li && start[j] > si) {
                    li = cand;
                    si = start[j];
                    pi = j;
                    proof {
                        let pj = paths[j as int];
                        path_i = pj.push(i as int);
                        assert(path_i.drop_last() =~= pj);
                        assert forall|k: int| 0 <= k < pj.len() implies #[trigger] pj[k] <= j
                            && raw@[pj[k]] <= raw@[j as int] by {
                            if k < pj.len() - 1 {
                                assert(pj[k] < pj[pj.len() - 1]);
                            }
                        }
                        assert forall|k1: int, k2: int| 0 <= k1 < k2 < path_i.len() implies #[trigger] path_i[k1]
                            < #[trigger] path_i[k2] && raw@[path_i[k1]] <= raw@[path_i[k2]] by {
                            if k2 < path_i.len() - 1 {
                                assert(path_i[k1] == pj[k1]);
                                assert(path_i[k2] == pj[k2]);
                            } else {
                                assert(path_i[k1] == pj[k1]);
                            }
                        }
                    }
                }
            }
            j = j + 1;
        }
        proof {
            lemma_new_entry(raw@, min, max, lens@, start@, prev@, paths, i as int, li as int, si, pi as int, path_i);
        }
        let ghost old_paths = paths;
        let ghost old_lens = lens@;
        let ghost old_start = start@;
        let ghost old_prev = prev@;
        proof {
            paths = paths.push(path_i);
        }
        lens.push(li);
        start.push(si);
        prev.push(pi);
        assert forall|k: int| 0 <= k < i + 1 implies #[trigger] dp_entry_ok(
            raw@,
            min,
            max,
            lens@,
            start@,
            prev@,
            paths,
            k,
        ) by {
            if k < i {
                assert(dp_entry_ok(raw@, min, max, old_lens, old_start, old_prev, old_paths, k));
                assert(forall|x: int| 0 <= x < i ==> old_lens[x] == #[trigger] lens@[x]);
                assert(forall|x: int| 0 <= x < i ==> old_paths[x] == #[trigger] paths[x]);
            } else {
                assert forall|jj: int|
                    0 <= jj < k && in_range(raw@[jj], min, max) && raw@[jj] <= raw@[k] implies lens@[k]
                        >= #[trigger] lens@[jj] + 1 by {
                    assert(old_lens[jj] == lens@[jj]);
                }
                if li > 1 {
                    assert(old_lens[pi as int] == lens@[pi as int]);
                    assert(old_paths[pi as int] == paths[pi as int]);
                }
            }
        }
        i = i + 1;
    }

    // Best run: longest, breaking ties toward the smallest span.
    let mut best: usize = usize::MAX;
    let mut i: usize = 0;
    while i < n
        invariant
            n == raw@.len(),
            i <= n,
            dp_ok(raw@, min, max, lens@, start@, prev@, paths, n as int),
            best == usize::MAX ==> forall|k: int| 0 <= k < i ==> #[trigger] lens@[k] == 0,
            best != usize::MAX ==> best < i && lens@[best as int] >= 1 && forall|k: int|
                0 <= k < i ==> #[trigger] lens@[k] <= lens@[best as int],
            best != usize::MAX ==> forall|k: int|
                0 <= k < i && #[trigger] lens@[k] == lens@[best as int] ==> raw@[best as int] - start@[best as int]
                    <= raw@[k] - start@[k],
            best != usize::MAX ==> forall|k: int|
                0 <= k < i && #[trigger] lens@[k] == lens@[best as int] && raw@[k] - start@[k] == raw@[best as int]
                    - start@[best as int] ==> best <= k,
        decreases n - i,
    {
        if lens[i] != 0 {
            if best == usize::MAX || lens[i] > lens[best] || (lens[i] == lens[best] && (raw[i] as i64
                - start[i] as i64) < (raw[best] as i64 - start[best] as i64)) {
                best = i;
            }
        }
        i = i + 1;
    }

    if best == usize::MAX {
        // Nothing trustworthy: leave as-is.
        assert forall|k: int| 0 <= k < raw@.len() implies !#[trigger] in_range(raw@[k], min, max) by {
            assert(dp_entry_ok(raw@, min, max, lens@, start@, prev@, paths, k));
        }
        let v = copy_pages(raw);
        proof {
            lemma_changed_count_same(raw@, v@, n as int);
        }
        return (v, 0);
    }

    let ghost anchors_spec: Seq<int> = paths[best as int];
    let big_l = lens[best];
    proof {
        assert(dp_entry_ok(raw@, min, max, lens@, start@, prev@, paths, best as int));
        assert forall|c: Seq<int>| #[trigger] is_chain(raw@, min, max, c) implies c.len() <= big_l by {
            if c.len() > 0 {
                assert(0 <= c.last() < n);
                lemma_chain_bounded(raw@, min, max, lens@, start@, prev@, paths, c, n as int);
                assert(lens@[c.last()] <= lens@[best as int]);
            }
        }
        assert(is_longest_chain(raw@, min, max, anchors_spec));
        lemma_chain_strict(raw@, min, max, anchors_spec);
        assert(span(raw@, anchors_spec) == raw@[best as int] - start@[best as int]);
        assert forall|d: Seq<int>| #[trigger] is_longest_chain(raw@, min, max, d) implies {
            &&& span(raw@, anchors_spec) <= span(raw@, d)
            &&& span(raw@, d) == span(raw@, anchors_spec) ==> anchors_spec.last() <= d.last()
            &&& span(raw@, d) == span(raw@, anchors_spec) && d.last() == anchors_spec.last() ==> !rev_lt(
                d,
                anchors_spec,
            )
        } by {
            assert(is_chain(raw@, min, max, anchors_spec));
            assert(d.len() == big_l);
            let e = d.last();
            assert(0 <= e < n);
            lemma_chain_bounded(raw@, min, max, lens@, start@, prev@, paths, d, n as int);
            assert(lens@[e] <= lens@[best as int]);
            assert(lens@[e] == big_l);
            assert(dp_entry_ok(raw@, min, max, lens@, start@, prev@, paths, e));
            assert(raw@[d[0]] <= start@[e]);
        }
        assert(is_preferred_chain(raw@, min, max, anchors_spec));
    }

    // Walk the chain back from `best`, filling the anchor positions.
    let mut anchors: Vec<usize> = vec![0usize; big_l];
    let mut cur: usize = best;
    let mut m: usize = big_l;
    while cur != usize::MAX
        invariant
            n == raw@.len(),
            dp_ok(raw@, min, max, lens@, start@, prev@, paths, n as int),
            anchors@.len() == big_l,
            anchors_spec.len() == big_l,
            m <= big_l,
            (cur == usize::MAX) == (m == 0),
            cur != usize::MAX ==> cur < n && lens@[cur as int] == m && paths[cur as int]
                == anchors_spec.take(m as int),
            forall|t: int| m <= t < big_l ==> #[trigger] anchors@[t] as int == anchors_spec[t],
        decreases m,
    {
        assert(dp_entry_ok(raw@, min, max, lens@, start@, prev@, paths, cur as int));
        assert(anchors_spec[m - 1] == cur);
        anchors.set(m - 1, cur);
        let p = prev[cur];
        if m > 1 {
            assert(anchors_spec.take(m as int).drop_last() =~= anchors_spec.take(m - 1));
        }
        cur = p;
        m = m - 1;
    }
    assert(anchors@.map_values(|x: usize| x as int) =~= anchors_spec);

    // Replace every non-anchor by interpolation (or extrapolation at the ends).
    let mut out: Vec<i32> = Vec::new();
    let mut changed: usize = 0;
    let mut k: usize = 0;
    let mut i: usize = 0;
    while i < n
        invariant
            n == raw@.len(),
            i <= n,
            anchors@.len() == big_l,
            anchors_spec.len() == big_l,
            big_l >= 1,
            forall|t: int| 0 <= t < big_l ==> #[trigger] anchors@[t] as int == anchors_spec[t],
            is_longest_chain(raw@, min, max, anchors_spec),
            is_preferred_chain(raw@, min, max, anchors_spec),
            forall|k1: int, k2: int|
                0 <= k1 < k2 < anchors_spec.len() ==> #[trigger] anchors_spec[k1]
                    < #[trigger] anchors_spec[k2],
            k <= big_l,
            forall|t: int| 0 <= t < k ==> #[trigger] anchors_spec[t] < i,
            forall|t: int| k <= t < big_l ==> #[trigger] anchors_spec[t] >= i,
            out@ == repaired(raw@, min, max, anchors_spec).take(i as int),
            changed == changed_count(raw@, out@, i as int),
            changed <= i,
        decreases n - i,
    {
        proof {
            lemma_lt_count_unique(anchors_spec, i as int, k as int);
        }
        let ghost want = repaired(raw@, min, max, anchors_spec)[i as int];
        let ghost old_out = out@;
        if k < big_l && anchors[k] == i {
            out.push(raw[i]);
            proof {
                assert(out@ =~= repaired(raw@, min, max, anchors_spec).take(i + 1));
                assert(out@.take(i as int) =~= old_out);
                lemma_changed_count_step(raw@, out@, i as int);
                if k + 1 < big_l {
                    assert(anchors_spec[k as int] < anchors_spec[k + 1]);
                }
            }
            k = k + 1;
        } else {
            if k < big_l {
                assert(anchors_spec[k as int] > i);
            }
            let v: i128 = if k > 0 && k < big_l {
                let x = anchors[k - 1];
                let y = anchors[k];
                assert(anchors_spec[k - 1] < anchors_spec[k as int]);
                assert(in_range(raw@[x as int], min, max));
                assert(in_range(raw@[y as int], min, max));
                let pa = raw[x] as i128;
                let pb = raw[y] as i128;
                let d = pb - pa;
                let t = (i - x) as i128;
                let s = (y - x) as i128;
                assert(0 <= d <= 0x1_0000_0000);
                assert(0 <= t <= s <= 0x1_0000_0000_0000_0000);
                assert(0 <= d * t <= 0x1_0000_0000_0000_0000_0000_0000) by (nonlinear_arith)
                    requires
                        0 <= d <= 0x1_0000_0000,
                        0 <= t <= 0x1_0000_0000_0000_0000,
                ;
                let num = d * t;
                let q = (2 * num + s) / (2 * s);
                proof {
                    lemma_round_div_bounds(d as int, t as int, s as int);
                }
                assert(pa + q == gap_value(raw@, anchors_spec, k as int, i as int));
                pa + q
            } else if k > 0 {
                let x = anchors[k - 1];
                let r = raw[x] as i128 + (i - x) as i128;
                assert(r == gap_value(raw@, anchors_spec, k as int, i as int));
                r
            } else {
                let y = anchors[k];
                let r = raw[y] as i128 - (y - i) as i128;
                assert(r == gap_value(raw@, anchors_spec, k as int, i as int));
                r
            };
            assert(v == gap_value(raw@, anchors_spec, k as int, i as int));
            let c: i32 = if v < min as i128 {
                min
            } else if v > max as i128 {
                max
            } else {
                v as i32
            };
            assert(c == want);
            if c != raw[i] {
                changed = changed + 1;
            }
            out.push(c);
            proof {
                assert(out@ =~= repaired(raw@, min, max, anchors_spec).take(i + 1));
                assert(out@.take(i as int) =~= old_out);
                lemma_changed_count_step(raw@, out@, i as int);
            }
        }
        i = i + 1;
    }
    proof {
        assert(out@ =~= repaired(raw@, min, max, anchors_spec));
        lemma_some_in_range_of_chain(raw@, min, max, anchors_spec);
    }
    (out, changed)
}

proof fn lemma_changed_count_step(raw: Seq<i32>, out: Seq<i32>, i: int)
    requires
        0 <= i < out.len(),
    ensures
        changed_count(raw, out, i + 1) == changed_count(raw, out.take(i), i) + if raw[i]
            != out[i] {
            1nat
        } else {
            0nat
        },
{
    lemma_changed_count_prefix(raw, out, out.take(i), i);
}

proof fn lemma_changed_count_prefix(raw: Seq<i32>, out1: Seq<i32>, out2: Seq<i32>, n: int)
    requires
        0 <= n <= out1.len(),
        n <= out2.len(),
        forall|k: int| 0 <= k < n ==> out1[k] == out2[k],
    ensures
        changed_count(raw, out1, n) == changed_count(raw, out2, n),
    decreases n,
{
    if n > 0 {
        lemma_changed_count_prefix(raw, out1, out2, n - 1);
    }
}

proof fn lemma_changed_count_same(raw: Seq<i32>, out: Seq<i32>, n: int)
    requires
        0 <= n <= raw.len(),
        out == raw,
    ensures
        changed_count(raw, out, n) == 0,
    decreases n,
{
    if n > 0 {
        lemma_changed_count_same(raw, out, n - 1);
    }
}

proof fn lemma_some_in_range_of_chain(raw: Seq<i32>, min: i32, max: i32, a: Seq<int>)
    requires
        is_chain(raw, min, max, a),
        a.len() > 0,
    ensures
        some_in_range(raw, min, max),
{
    assert(in_range(raw[a[0]], min, max));
}

} // verus!
