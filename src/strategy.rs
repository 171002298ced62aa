use vstd::prelude::*;
use vstd::arithmetic::power::{pow, lemma_pow_adds, lemma_pow_positive};
use crate::partition::total;

verus! {

broadcast use vstd::seq_lib::to_multiset_contains;

/// The largest of a list of sizes, 0 for an empty list.
pub open spec fn max_of(s: Seq<usize>) -> int
    decreases s.len(),
{
    if s.len() == 0 {
        0
    } else if s.last() > max_of(s.drop_last()) {
        s.last() as int
    } else {
        max_of(s.drop_last())
    }
}

/// Sizes in ascending order.
pub open spec fn is_ascending(s: Seq<usize>) -> bool {
    forall|i: int, j: int| 0 <= i < j < s.len() ==> s[i] <= s[j]
}

/// Walking the ascending sizes `a` from the largest down, with the first `k` still
/// to visit and `run` already accumulated: the first size whose running total
/// exceeds `num / den` of `n`, or 0 where none does.
pub open spec fn crossing(a: Seq<usize>, n: int, num: int, den: int, k: int, run: int) -> int
    decreases k,
{
    if k <= 0 || k > a.len() {
        0
    } else if (run + a[k - 1]) * den > num * n {
        a[k - 1] as int
    } else {
        crossing(a, n, num, den, k - 1, run + a[k - 1])
    }
}

/// Relies on slice::sort_unstable: the same values, in ascending order.
#[verifier::external_body]
fn sort_ascending(v: &mut Vec<usize>)
    ensures
        final(v)@.to_multiset() == old(v)@.to_multiset(),
        is_ascending(final(v)@),
{
    v.sort_unstable();
}

/// The size of the largest bucket: the outcome the worst-case strategy plans
/// for. 0 when there are no buckets.
pub fn worst_case_bucket(sizes: &Vec<usize>) -> (r: usize)
    ensures
        r == max_of(sizes@),
{
    let mut r: usize = 0;
    let mut i: usize = 0;
    while i < sizes.len()
        invariant
            i <= sizes.len(),
            r == max_of(sizes@.take(i as int)),
        decreases sizes.len() - i,
    {
        assert(sizes@.take(i + 1).drop_last() =~= sizes@.take(i as int));
        if sizes[i] > r {
            r = sizes[i];
        }
        i = i + 1;
    }
    assert(sizes@.take(sizes.len() as int) =~= sizes@);
    r
}

/// The bucket the gambling strategy plans for: with the sizes taken from the
/// largest down, the first whose running total exceeds the fraction `num / den`
/// of `count`; 0 when none does.
pub fn gambling_bucket(sizes: Vec<usize>, count: usize, num: u64, den: u64) -> (r: usize)
    requires
        0 < den,
        num <= den,
    ensures
        exists|a: Seq<usize>|
            a.to_multiset() == sizes@.to_multiset() && is_ascending(a) && r == crossing(
                a,
                count as int,
                num as int,
                den as int,
                a.len() as int,
                0,
            ),
{
    let mut a = sizes;
    sort_ascending(&mut a);
    let ghost n = count as int;
    let ghost arranged = a@;
    let mut k: usize = a.len();
    let mut run: usize = 0;
    while k > 0
        invariant
            k <= a.len(),
            a@ == arranged,
            n == count as int,
            arranged.to_multiset() == sizes@.to_multiset(),
            is_ascending(arranged),
            run <= count,
            0 < den,
            num <= den,
            crossing(a@, n, num as int, den as int, a.len() as int, 0) == crossing(
                a@,
                n,
                num as int,
                den as int,
                k as int,
                run as int,
            ),
        decreases k,
    {
        let size = a[k - 1];
        let next: u128 = run as u128 + size as u128;
        if next > count as u128 {
            proof {
                assert((next as int) * (den as int) > (count as int) * (den as int)) by (
                nonlinear_arith)
                    requires
                        next > count,
                        den > 0,
                ;
                assert((count as int) * (den as int) >= (num as int) * (count as int)) by (
                nonlinear_arith)
                    requires
                        num <= den,
                ;
                assert((run as int + size as int) * (den as int) > (num as int) * (count as int));
            }
            assert(crossing(arranged, n, num as int, den as int, arranged.len() as int, 0)
                == size);
            return size;
        }
        proof {
            assert((next as int) * (den as int) <= (count as int) * (den as int)) by (
            nonlinear_arith)
                requires
                    next <= count,
                    den > 0,
            ;
            assert((count as int) * (den as int) <= 0xffff_ffff_ffff_ffffu64 as int
                * 0xffff_ffff_ffff_ffffu64 as int) by (nonlinear_arith)
                requires
                    count <= 0xffff_ffff_ffff_ffffu64,
                    den <= 0xffff_ffff_ffff_ffffu64,
            ;
            assert((num as int) * (count as int) <= 0xffff_ffff_ffff_ffffu64 as int
                * 0xffff_ffff_ffff_ffffu64 as int) by (nonlinear_arith)
                requires
                    count <= 0xffff_ffff_ffff_ffffu64,
                    num <= 0xffff_ffff_ffff_ffffu64,
            ;
        }
        if next * (den as u128) > (num as u128) * (count as u128) {
            assert(crossing(arranged, n, num as int, den as int, arranged.len() as int, 0)
                == size);
            return size;
        }
        run = next as usize;
        k = k - 1;
    }
    assert(crossing(arranged, n, num as int, den as int, arranged.len() as int, 0) == 0);
    0
}

proof fn lemma_max_of(s: Seq<usize>)
    ensures
        forall|i: int| 0 <= i < s.len() ==> s[i] <= max_of(s),
        s.len() > 0 ==> exists|i: int| 0 <= i < s.len() && s[i] == max_of(s),
        max_of(s) >= 0,
    decreases s.len(),
{
    if s.len() > 0 {
        let sl = s.drop_last();
        lemma_max_of(sl);
        assert forall|i: int| 0 <= i < s.len() implies s[i] <= max_of(s) by {
            if i < sl.len() {
                assert(s[i] == sl[i]);
            }
        }
        if s.last() > max_of(sl) {
            assert(s[s.len() - 1] == max_of(s));
        } else if sl.len() == 0 {
            assert(s[0] == max_of(s));
        } else {
            let j = choose|j: int| 0 <= j < sl.len() && sl[j] == max_of(sl);
            assert(s[j] == sl[j]);
        }
    }
}

/// The largest of a list is the last of any ascending arrangement of it.
proof fn lemma_max_is_last(s: Seq<usize>, a: Seq<usize>)
    requires
        a.to_multiset() == s.to_multiset(),
        is_ascending(a),
        s.len() > 0,
    ensures
        a.len() == s.len(),
        a[a.len() - 1] == max_of(s),
{
    a.to_multiset_ensures();
    s.to_multiset_ensures();
    lemma_max_of(s);
    let i0 = choose|i: int| 0 <= i < s.len() && s[i] == max_of(s);
    let m = s[i0];
    assert(m == max_of(s));
    assert(s.to_multiset().count(m) > 0);
    assert(a.contains(m));
    let j = choose|j: int| 0 <= j < a.len() && a[j] == m;
    let last = a[a.len() - 1];
    if j < a.len() - 1 {
        assert(a[j] <= a[a.len() - 1]);
    }
    assert(a.contains(last));
    assert(a.to_multiset().count(last) > 0);
    assert(s.contains(last));
    let i = choose|i: int| 0 <= i < s.len() && s[i] == last;
    assert(s[i] <= max_of(s));
}

/// With a fraction of 0 the gambling strategy plans for the largest bucket,
/// exactly as the worst-case strategy does.
pub proof fn lemma_gambling_zero_is_worst_case(s: Seq<usize>, a: Seq<usize>, n: int, den: int)
    requires
        a.to_multiset() == s.to_multiset(),
        is_ascending(a),
        0 < den,
        forall|i: int| 0 <= i < s.len() ==> s[i] > 0,
    ensures
        crossing(a, n, 0, den, a.len() as int, 0) == max_of(s),
{
    a.to_multiset_ensures();
    s.to_multiset_ensures();
    if s.len() > 0 {
        lemma_max_is_last(s, a);
        lemma_max_of(s);
        let x = a[a.len() - 1];
        assert(a.contains(x));
        assert(s.contains(x));
        assert((0 + x) * den > 0 * n) by (nonlinear_arith)
            requires
                x > 0,
                den > 0,
        ;
    } else {
        assert(a.to_multiset().len() == 0);
    }
}

proof fn lemma_total_remove(a: Seq<usize>, j: int)
    requires
        0 <= j < a.len(),
    ensures
        total(a) == total(a.remove(j)) + a[j],
    decreases a.len(),
{
    if j == a.len() - 1 {
        assert(a.remove(j) =~= a.drop_last());
    } else {
        assert(a.remove(j).drop_last() =~= a.drop_last().remove(j));
        assert(a.remove(j).last() == a.last());
        lemma_total_remove(a.drop_last(), j);
    }
}

/// Any arrangement of the same sizes has the same total.
proof fn lemma_total_arrangement(a: Seq<usize>, s: Seq<usize>)
    requires
        a.to_multiset() == s.to_multiset(),
    ensures
        total(a) == total(s),
    decreases s.len(),
{
    a.to_multiset_ensures();
    s.to_multiset_ensures();
    if s.len() == 0 {
        assert(a.len() == 0);
    } else {
        let x = s.last();
        let sl = s.drop_last();
        assert(s.remove(s.len() - 1) =~= sl);
        assert(s.contains(x));
        assert(s.to_multiset().count(x) > 0);
        assert(a.to_multiset().count(x) > 0);
        assert(a.contains(x));
        let j = choose|j: int| 0 <= j < a.len() && a[j] == x;
        assert(a.remove(j).to_multiset() == sl.to_multiset());
        lemma_total_arrangement(a.remove(j), sl);
        lemma_total_remove(a, j);
    }
}

proof fn lemma_take_total_covers_first(a: Seq<usize>, m: int)
    requires
        1 <= m <= a.len(),
    ensures
        total(a.take(m)) >= a[0],
    decreases m,
{
    assert(a.take(m).drop_last() =~= a.take(m - 1));
    if m == 1 {
        assert(total(a.take(0)) == 0);
    } else {
        lemma_take_total_covers_first(a, m - 1);
    }
}

proof fn lemma_crossing_smallest(a: Seq<usize>, n: int, num: int, den: int, k: int, run: int)
    requires
        1 <= k <= a.len(),
        run + total(a.take(k)) == n,
        (n - a[0]) * den <= num * n,
        num * n < n * den,
        0 < den,
    ensures
        crossing(a, n, num, den, k, run) == a[0],
    decreases k,
{
    assert(a.take(k).drop_last() =~= a.take(k - 1));
    assert(a.take(k).last() == a[k - 1]);
    if k == 1 {
        assert(total(a.take(0)) == 0);
        assert(run + a[0] == n);
    } else {
        lemma_take_total_covers_first(a, k - 1);
        let next = run + a[k - 1];
        assert(next <= n - a[0]);
        assert(next * den <= (n - a[0]) * den) by (nonlinear_arith)
            requires
                next <= n - a[0],
                0 < den,
        ;
        lemma_crossing_smallest(a, n, num, den, k - 1, next);
    }
}

/// Just below a fraction of 1, once the fraction covers every bucket but the
/// smallest, the gambling strategy plans for the smallest bucket.
pub proof fn lemma_gambling_near_one_is_smallest(
    s: Seq<usize>,
    a: Seq<usize>,
    n: int,
    num: int,
    den: int,
)
    requires
        a.to_multiset() == s.to_multiset(),
        is_ascending(a),
        total(s) == n,
        s.len() > 0,
        0 < den,
        num * n < n * den,
        forall|i: int| 0 <= i < s.len() ==> (n - s[i]) * den <= num * n,
    ensures
        s.contains(crossing(a, n, num, den, a.len() as int, 0) as usize),
        forall|i: int| 0 <= i < s.len() ==> crossing(a, n, num, den, a.len() as int, 0) <= s[i],
{
    a.to_multiset_ensures();
    s.to_multiset_ensures();
    lemma_total_arrangement(a, s);
    assert(a.take(a.len() as int) =~= a);
    assert(a.contains(a[0]));
    assert(a.to_multiset().count(a[0]) > 0);
    assert(s.to_multiset().count(a[0]) > 0);
    assert(s.contains(a[0]));
    let i0 = choose|i: int| 0 <= i < s.len() && s[i] == a[0];
    assert((n - s[i0]) * den <= num * n);
    lemma_crossing_smallest(a, n, num, den, a.len() as int, 0);
    assert forall|i: int| 0 <= i < s.len() implies a[0] <= s[i] by {
        assert(s.contains(s[i]));
        assert(s.to_multiset().count(s[i]) > 0);
        assert(a.to_multiset().count(s[i]) > 0);
        assert(a.contains(s[i]));
        let j = choose|j: int| 0 <= j < a.len() && a[j] == s[i];
        if j > 0 {
            assert(a[0] <= a[j]);
        }
    }
}

/// The product, over the buckets, of each size raised to itself.
pub open spec fn self_power_product(s: Seq<usize>) -> int
    decreases s.len(),
{
    if s.len() == 0 {
        1
    } else {
        self_power_product(s.drop_last()) * pow(s.last() as int, s.last() as nat)
    }
}

proof fn lemma_pow_base_monotone(x: int, y: int, e: nat)
    requires
        0 <= x <= y,
    ensures
        0 <= pow(x, e) <= pow(y, e),
    decreases e,
{
    reveal(pow);
    if e > 0 {
        lemma_pow_base_monotone(x, y, (e - 1) as nat);
        let px = pow(x, (e - 1) as nat);
        let py = pow(y, (e - 1) as nat);
        assert(x * px <= y * py) by (nonlinear_arith)
            requires
                0 <= x <= y,
                0 <= px <= py,
        ;
        assert(0 <= x * px) by (nonlinear_arith)
            requires
                0 <= x,
                0 <= px,
        ;
    }
}

/// The worst-case score never exceeds the average score of the same buckets.
/// With `n` candidates and largest bucket `m`, the worst-case score is
/// log2(n / m) and the average score is log2(n) - (1/n) log2(prod s^s); the
/// first is at most the second exactly when prod s^s <= m^n, stated here.
pub proof fn lemma_worst_case_below_average(s: Seq<usize>)
    ensures
        0 <= self_power_product(s) <= pow(max_of(s), total(s) as nat),
    decreases s.len(),
{
    if s.len() > 0 {
        let sl = s.drop_last();
        let x = s.last() as int;
        lemma_worst_case_below_average(sl);
        lemma_max_of(sl);
        lemma_max_of(s);
        let m = max_of(s);
        let ml = max_of(sl);
        assert(total(sl) >= 0) by {
            lemma_total_nonneg(sl);
        }
        let t = total(sl) as nat;
        lemma_pow_base_monotone(ml, m, t);
        lemma_pow_base_monotone(x, m, x as nat);
        let p = self_power_product(sl);
        let q = pow(x, x as nat);
        let a = pow(m, t);
        let b = pow(m, x as nat);
        assert(p * q <= a * b && 0 <= p * q) by (nonlinear_arith)
            requires
                0 <= p <= a,
                0 <= q <= b,
        ;
        lemma_pow_adds(m, t, x as nat);
        assert(total(s) == t + x);
        assert(self_power_product(s) == p * q);
        assert(pow(m, (t + x) as nat) == a * b);
    } else {
        reveal(pow);
    }
}

proof fn lemma_total_nonneg(s: Seq<usize>)
    ensures
        total(s) >= 0,
    decreases s.len(),
{
    if s.len() > 0 {
        lemma_total_nonneg(s.drop_last());
    }
}

} // verus!
