use vstd::prelude::*;

use vstd::arithmetic::power2::{lemma2_to64, lemma_pow2_pos, lemma_pow2_unfold, pow2};

use crate::text::{
    all_digits, decimal, digits_value, lemma_decimal_digits, owned, push_decimal, push_owned,
    push_string,
};

verus! {

/// The arguments of the `ttl`-th benchmark strategy: a fake packet with that TTL.
pub open spec fn benchmark_strategy(ttl: nat) -> Seq<Seq<char>> {
    seq!["--dpi-desync=fake"@, "--dpi-desync-ttl="@ + decimal(ttl)]
}

/// The benchmark strategy with TTL `ttl` is a fake packet whose TTL argument is
/// `--dpi-desync-ttl=` and a numeral that denotes `ttl`; strategies with different TTLs
/// differ.
pub proof fn lemma_benchmark_strategy_ttl(ttl: nat, other: nat)
    ensures
        benchmark_strategy(ttl).len() == 2,
        benchmark_strategy(ttl)[0] == "--dpi-desync=fake"@,
        benchmark_strategy(ttl)[1].take(17) == "--dpi-desync-ttl="@,
        benchmark_strategy(ttl)[1].skip(17).len() > 0,
        all_digits(benchmark_strategy(ttl)[1].skip(17)),
        digits_value(benchmark_strategy(ttl)[1].skip(17)) == ttl,
        ttl != other ==> benchmark_strategy(ttl) != benchmark_strategy(other),
{
    reveal_strlit("--dpi-desync-ttl=");
    lemma_decimal_digits(ttl);
    lemma_decimal_digits(other);
    let a = "--dpi-desync-ttl="@ + decimal(ttl);
    let b = "--dpi-desync-ttl="@ + decimal(other);
    assert(a.take(17) =~= "--dpi-desync-ttl="@);
    assert(a.skip(17) =~= decimal(ttl));
    assert(b.skip(17) =~= decimal(other));
    if benchmark_strategy(ttl) == benchmark_strategy(other) {
        assert(benchmark_strategy(ttl)[1] == benchmark_strategy(other)[1]);
        assert(a.skip(17) == b.skip(17));
    }
}

/// `count` fake-packet strategies with the TTLs `1..=count`.
pub fn generate_strategies(count: usize) -> (r: Vec<Vec<String>>)
    ensures
        r.len() == count,
        forall|i: int| 0 <= i < count ==> (#[trigger] r[i]).deep_view() == benchmark_strategy((i + 1) as nat),
        forall|i: int|
            0 <= i < count ==> (#[trigger] r[i]).deep_view().len() == 2 && r[i].deep_view()[1].take(17)
                == "--dpi-desync-ttl="@ && digits_value(r[i].deep_view()[1].skip(17)) == i + 1,
        forall|i: int, j: int| 0 <= i < j < count ==> (#[trigger] r[i]).deep_view() != (#[trigger] r[j]).deep_view(),
{
    proof {
        assert forall|i: int, j: int| 0 <= i < count && 0 <= j < count implies {
            &&& benchmark_strategy((i + 1) as nat)[1].take(17) == "--dpi-desync-ttl="@
            &&& benchmark_strategy((i + 1) as nat).len() == 2
            &&& digits_value(benchmark_strategy((i + 1) as nat)[1].skip(17)) == i + 1
            &&& i != j ==> #[trigger] benchmark_strategy((i + 1) as nat) != #[trigger] benchmark_strategy(
                (j + 1) as nat,
            )
        } by {
            lemma_benchmark_strategy_ttl((i + 1) as nat, (j + 1) as nat);
        }
    }
    let mut r: Vec<Vec<String>> = Vec::new();
    let mut i: usize = 0;
    while i < count
        invariant
            i <= count,
            r.len() == i,
            forall|j: int| 0 <= j < i ==> (#[trigger] r[j]).deep_view() == benchmark_strategy((j + 1) as nat),
        decreases count - i,
    {
        let ttl = i + 1;
        let mut ttl_arg = owned("--dpi-desync-ttl=");
        push_decimal(&mut ttl_arg, ttl as u64);
        let mut strategy: Vec<String> = Vec::new();
        push_owned(&mut strategy, "--dpi-desync=fake");
        push_string(&mut strategy, ttl_arg);
        assert(strategy.deep_view() =~= benchmark_strategy(ttl as nat));
        r.push(strategy);
        i = i + 1;
    }
    r
}

/// `n`, `2n`, `4n`, ... as long as they do not exceed `max`.
pub open spec fn doublings(n: int, max: int) -> Seq<int>
    decreases (if 1 <= n <= max {
        max + 1 - n
    } else {
        0
    }),
{
    if n < 1 || n > max {
        Seq::empty()
    } else {
        seq![n] + doublings(2 * n, max)
    }
}

/// The worker counts that the benchmark tries: the powers of two up to `max`, then `max`
/// itself unless it is one of them.
pub open spec fn worker_counts(max: int) -> Seq<int> {
    let c = doublings(1, max);
    if c.len() > 0 && c.last() == max {
        c
    } else {
        c.push(max)
    }
}

/// The worker counts to benchmark, up to `max`.
pub fn worker_counts_to_test(max: usize) -> (r: Vec<usize>)
    requires
        max <= usize::MAX / 2,
    ensures
        r@.len() == worker_counts(max as int).len(),
        forall|i: int| 0 <= i < r@.len() ==> r@[i] as int == #[trigger] worker_counts(max as int)[i],
{
    let mut r: Vec<usize> = Vec::new();
    let mut n: usize = 1;
    while n <= max
        invariant
            1 <= n,
            max <= usize::MAX / 2,
            n <= max ==> n <= usize::MAX / 2,
            doublings(1, max as int) == r@.map_values(|x: usize| x as int) + doublings(n as int, max as int),
        decreases (if n <= max {
            max + 1 - n
        } else {
            0
        }),
    {
        r.push(n);
        proof {
            let prev = r@.drop_last();
            assert(doublings(n as int, max as int) == seq![n as int] + doublings(2 * n, max as int));
            assert(r@.map_values(|x: usize| x as int) =~= prev.map_values(|x: usize| x as int).push(n as int));
            assert(prev.map_values(|x: usize| x as int) + doublings(n as int, max as int)
                =~= r@.map_values(|x: usize| x as int) + doublings(2 * n, max as int));
        }
        n = n * 2;
    }
    assert(doublings(n as int, max as int) == Seq::<int>::empty());
    assert(doublings(1, max as int) =~= r@.map_values(|x: usize| x as int));
    let len = r.len();
    if len == 0 || r[len - 1] != max {
        r.push(max);
        assert(r@.drop_last().map_values(|x: usize| x as int) =~= doublings(1, max as int));
    }
    proof {
        assert forall|i: int| 0 <= i < r@.len() implies r@[i] as int == #[trigger] worker_counts(
            max as int,
        )[i] by {
            if i < doublings(1, max as int).len() {
                assert(r@.map_values(|x: usize| x as int)[i] == r@[i] as int);
            }
        }
    }
    r
}

/// Every count in `doublings(n, max)` lies between `n` and `max`, and each is larger than
/// the one before.
proof fn lemma_doublings(n: int, max: int)
    ensures
        forall|i: int|
            0 <= i < doublings(n, max).len() ==> n <= #[trigger] doublings(n, max)[i] <= max,
        forall|i: int, j: int|
            0 <= i < j < doublings(n, max).len() ==> doublings(n, max)[i] < doublings(n, max)[j],
    decreases (if 1 <= n <= max {
        max + 1 - n
    } else {
        0
    }),
{
    if n >= 1 && n <= max {
        lemma_doublings(2 * n, max);
        let d = doublings(n, max);
        let rest = doublings(2 * n, max);
        assert(d == seq![n] + rest);
        assert forall|i: int| 0 <= i < d.len() implies n <= #[trigger] d[i] <= max by {
            if i > 0 {
                assert(d[i] == rest[i - 1]);
            }
        }
        assert forall|i: int, j: int| 0 <= i < j < d.len() implies d[i] < d[j] by {
            assert(d[j] == rest[j - 1]);
            if i > 0 {
                assert(d[i] == rest[i - 1]);
            }
        }
    }
}

/// The benchmark tries increasing worker counts, starting at one worker when `max` allows
/// it, never more than `max`, and always `max` itself last.
pub proof fn lemma_worker_counts_shape(max: int)
    requires
        max >= 1,
    ensures
        worker_counts(max).len() >= 1,
        worker_counts(max)[0] == 1,
        worker_counts(max).last() == max,
        forall|i: int|
            0 <= i < worker_counts(max).len() ==> 1 <= #[trigger] worker_counts(max)[i] <= max,
        forall|i: int, j: int|
            0 <= i < j < worker_counts(max).len() ==> worker_counts(max)[i] < worker_counts(max)[j],
{
    lemma_doublings(1, max);
    let c = doublings(1, max);
    assert(c == seq![1int] + doublings(2, max));
    let w = worker_counts(max);
    if !(c.len() > 0 && c.last() == max) {
        assert(w == c.push(max));
        assert forall|i: int, j: int| 0 <= i < j < w.len() implies w[i] < w[j] by {
            if j == c.len() {
                assert(w[i] == c[i]);
                assert(c[i] <= max);
            }
        }
    }
}

/// Doubling from a power of two gives the next powers of two, until the next one exceeds
/// `max`.
proof fn lemma_doublings_powers(k: nat, max: int)
    ensures
        forall|i: int|
            0 <= i < doublings(pow2(k) as int, max).len() ==> #[trigger] doublings(pow2(k) as int, max)[i]
                == pow2((k + i) as nat),
        pow2(k + doublings(pow2(k) as int, max).len()) > max,
    decreases (if 1 <= pow2(k) <= max {
        max + 1 - pow2(k)
    } else {
        0
    }),
{
    lemma_pow2_pos(k);
    lemma_pow2_unfold(k + 1);
    if pow2(k) <= max {
        lemma_doublings_powers(k + 1, max);
        let d = doublings(pow2(k) as int, max);
        let rest = doublings(pow2(k + 1) as int, max);
        assert(d == seq![pow2(k) as int] + rest);
        assert forall|i: int| 0 <= i < d.len() implies #[trigger] d[i] == pow2((k + i) as nat) by {
            if i > 0 {
                assert(d[i] == rest[i - 1]);
            }
        }
        assert(k + d.len() == (k + 1) + rest.len());
    }
}

/// The number of powers of two that the benchmark tries below `max`.
pub open spec fn power_steps(max: int) -> nat {
    doublings(1, max).len()
}

/// The worker counts are the powers of two 1, 2, 4, ... that do not exceed `max` (the next
/// one does), followed by `max` itself exactly when it is not a power of two.
pub proof fn lemma_worker_counts_powers(max: int)
    requires
        max >= 1,
    ensures
        power_steps(max) >= 1,
        pow2((power_steps(max) - 1) as nat) <= max < pow2(power_steps(max)),
        forall|i: int| 0 <= i < power_steps(max) ==> #[trigger] worker_counts(max)[i] == pow2(i as nat),
        worker_counts(max).len() == if pow2((power_steps(max) - 1) as nat) == max {
            power_steps(max)
        } else {
            power_steps(max) + 1
        },
        worker_counts(max).last() == max,
{
    lemma2_to64();
    lemma_doublings_powers(0, max);
    lemma_doublings(1, max);
    let c = doublings(1, max);
    assert(c == seq![1int] + doublings(2, max));
    let p = power_steps(max);
    assert(c[p - 1] == pow2((p - 1) as nat));
    let w = worker_counts(max);
    assert forall|i: int| 0 <= i < p implies #[trigger] w[i] == pow2(i as nat) by {
        assert(c[i] == pow2((0 + i) as nat));
    }
}

/// The number of workers to benchmark up to by default: sixteen per CPU that the system
/// reports, or sixty-four when it reports none.
pub fn default_max_workers(available_parallelism: Option<usize>) -> (r: usize)
    requires
        available_parallelism matches Some(n) ==> n * 16 <= usize::MAX,
    ensures
        r == match available_parallelism {
            Some(n) => n * 16,
            None => 64,
        },
{
    let cpus = match available_parallelism {
        Some(n) => n,
        None => 4,
    };
    cpus * 16
}

/// What the choice of a worker count needs to know of one benchmark run.
#[derive(Debug, Clone, Copy)]
pub struct PointSummary {
    /// The number of workers of the run.
    pub workers: usize,
    /// The infrastructure errors of the run.
    pub errors: usize,
    /// Whether the run's throughput reached 90% of the best error-free throughput.
    pub reaches_threshold: bool,
}

/// A run without errors.
pub open spec fn is_clean(p: PointSummary) -> bool {
    p.errors == 0
}

/// The worker count to recommend: among the runs without errors, the fewest workers whose
/// throughput reached the threshold (failing that, the last run without errors); when every
/// run had errors, the first run's worker count, and 1 when there was no run.
pub open spec fn recommended(points: Seq<PointSummary>, r: int) -> bool {
    if forall|i: int| 0 <= i < points.len() ==> !is_clean(#[trigger] points[i]) {
        r == if points.len() > 0 {
            points[0].workers as int
        } else {
            1
        }
    } else if exists|i: int| 0 <= i < points.len() && is_clean(#[trigger] points[i]) && points[i].reaches_threshold {
        &&& exists|i: int|
            0 <= i < points.len() && is_clean(#[trigger] points[i]) && points[i].reaches_threshold
                && points[i].workers == r
        &&& forall|j: int|
            0 <= j < points.len() && is_clean(#[trigger] points[j]) && points[j].reaches_threshold
                ==> r <= points[j].workers
    } else {
        exists|l: int|
            0 <= l < points.len() && is_clean(#[trigger] points[l]) && points[l].workers == r
                && forall|m: int| l < m < points.len() ==> !is_clean(#[trigger] points[m])
    }
}

/// Chooses the worker count to recommend from the summaries of the benchmark runs.
pub fn recommend_workers(points: &Vec<PointSummary>) -> (r: usize)
    ensures
        recommended(points@, r as int),
{
    let mut any_clean = false;
    let mut last_clean: usize = 0;
    let mut last_clean_at: usize = 0;
    let mut any_good = false;
    let mut best: usize = 0;
    let mut k: usize = 0;
    while k < points.len()
        invariant
            k <= points.len(),
            any_clean == exists|i: int| 0 <= i < k && is_clean(#[trigger] points@[i]),
            any_clean ==> last_clean_at < k && is_clean(points@[last_clean_at as int])
                && points@[last_clean_at as int].workers == last_clean && forall|m: int|
                last_clean_at < m < k ==> !is_clean(#[trigger] points@[m]),
            any_good == exists|i: int|
                0 <= i < k && is_clean(#[trigger] points@[i]) && points@[i].reaches_threshold,
            any_good ==> (exists|i: int|
                0 <= i < k && is_clean(#[trigger] points@[i]) && points@[i].reaches_threshold
                    && points@[i].workers == best),
            any_good ==> forall|j: int|
                0 <= j < k && is_clean(#[trigger] points@[j]) && points@[j].reaches_threshold ==> best
                    <= points@[j].workers,
        decreases points.len() - k,
    {
        let p = points[k];
        if p.errors == 0 {
            any_clean = true;
            last_clean = p.workers;
            last_clean_at = k;
            if p.reaches_threshold && (!any_good || p.workers < best) {
                any_good = true;
                best = p.workers;
            }
        }
        k = k + 1;
    }
    if !any_clean {
        if points.len() > 0 {
            points[0].workers
        } else {
            1
        }
    } else if any_good {
        best
    } else {
        last_clean
    }
}

/// Whenever some run without errors reached the threshold, the recommendation does not
/// depend on the order of the runs: it is the fewest workers among such runs, whatever the
/// order in which they come.
pub proof fn lemma_recommendation_order_free(
    points: Seq<PointSummary>,
    shuffled: Seq<PointSummary>,
    r1: int,
    r2: int,
)
    requires
        points.to_multiset() == shuffled.to_multiset(),
        exists|i: int| 0 <= i < points.len() && is_clean(#[trigger] points[i]) && points[i].reaches_threshold,
        recommended(points, r1),
        recommended(shuffled, r2),
    ensures
        r1 == r2,
{
    points.to_multiset_ensures();
    shuffled.to_multiset_ensures();
    assert forall|x: PointSummary| points.contains(x) <==> #[trigger] shuffled.contains(x) by {
        assert(points.to_multiset().count(x) == shuffled.to_multiset().count(x));
        assert(points.contains(x) <==> points.to_multiset().count(x) > 0);
        assert(shuffled.contains(x) <==> shuffled.to_multiset().count(x) > 0);
    }
    let i = choose|i: int| 0 <= i < points.len() && is_clean(#[trigger] points[i]) && points[i].reaches_threshold;
    assert(points.contains(points[i]));
    assert(shuffled.contains(points[i]));
    let j = choose|j: int| 0 <= j < shuffled.len() && shuffled[j] == points[i];
    assert(is_clean(shuffled[j]) && shuffled[j].reaches_threshold);
    let a = choose|a: int|
        0 <= a < points.len() && is_clean(#[trigger] points[a]) && points[a].reaches_threshold
            && points[a].workers == r1;
    let b = choose|b: int|
        0 <= b < shuffled.len() && is_clean(#[trigger] shuffled[b]) && shuffled[b].reaches_threshold
            && shuffled[b].workers == r2;
    assert(points.contains(points[a]));
    assert(shuffled.contains(points[a]));
    assert(shuffled.contains(shuffled[b]));
    assert(points.contains(shuffled[b]));
    let a2 = choose|a2: int| 0 <= a2 < shuffled.len() && shuffled[a2] == points[a];
    let b2 = choose|b2: int| 0 <= b2 < points.len() && points[b2] == shuffled[b];
    assert(is_clean(shuffled[a2]));
    assert(is_clean(points[b2]));
}

} // verus!
