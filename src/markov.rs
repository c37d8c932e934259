use vstd::prelude::*;

use crate::notes::{Duration, Note, Pitch};

verus! {

/// Counts kept per key, in order of first sight.
pub type Histogram<K> = Seq<(K, usize)>;

/// The sum of the counts.
pub open spec fn total<K>(h: Histogram<K>) -> int
    decreases h.len(),
{
    if h.len() == 0 {
        0
    } else {
        total(h.drop_last()) + h.last().1
    }
}

/// How many entries of `h` have a count of at most `c`: where an entry with
/// count `c` goes so that it follows all entries not above it.
pub open spec fn count_at_most<K>(h: Histogram<K>, c: usize) -> nat
    decreases h.len(),
{
    if h.len() == 0 {
        0
    } else {
        count_at_most(h.drop_last(), c) + if h.last().1 <= c { 1nat } else { 0 }
    }
}

/// `h` stably sorted by count: each entry in turn is inserted after every
/// entry whose count is not above its own.
pub open spec fn sort_by_count<K>(h: Histogram<K>) -> Histogram<K>
    decreases h.len(),
{
    if h.len() == 0 {
        h
    } else {
        let s = sort_by_count(h.drop_last());
        s.insert(count_at_most(s, h.last().1) as int, h.last())
    }
}

/// The keys picked in round `p` of the fair-chance visit: in order, each key
/// whose share `16 * count / total` is still above `p`.
pub open spec fn round_picks<K>(sorted: Histogram<K>, t: int, p: int) -> Seq<K>
    decreases sorted.len(),
{
    if sorted.len() == 0 {
        seq![]
    } else {
        round_picks(sorted.drop_last(), t, p) + if p * t < 16 * sorted.last().1 {
            seq![sorted.last().0]
        } else {
            seq![]
        }
    }
}

/// The keys picked in the first `p` rounds.
pub open spec fn picks<K>(sorted: Histogram<K>, t: int, p: nat) -> Seq<K>
    decreases p,
{
    if p == 0 {
        seq![]
    } else {
        picks(sorted, t, (p - 1) as nat) + round_picks(sorted, t, p - 1)
    }
}

/// The sixteen slots of the fair-chance table of `h`: keys visited round-robin
/// in ascending order of count (ties in order of first sight), each visit
/// taking a slot while the key has had fewer slots than its share
/// `16 * count / total`.
pub open spec fn fair_chance<K>(h: Histogram<K>) -> Seq<K> {
    let sorted = sort_by_count(h);
    picks(sorted, total(sorted), 16).take(16)
}

/// How many of the first `p` rounds pick a key of count `c`.
spec fn times_picked(c: int, t: int, p: nat) -> nat
    decreases p,
{
    if p == 0 {
        0
    } else {
        times_picked(c, t, (p - 1) as nat) + if (p - 1) * t < 16 * c { 1nat } else { 0 }
    }
}

spec fn sum_times<K>(s: Histogram<K>, t: int, p: nat) -> nat
    decreases s.len(),
{
    if s.len() == 0 {
        0
    } else {
        sum_times(s.drop_last(), t, p) + times_picked(s.last().1 as int, t, p)
    }
}

proof fn lemma_round_len<K>(s: Histogram<K>, t: int, q: nat)
    ensures
        round_picks(s, t, q as int).len() + sum_times(s, t, q) == sum_times(s, t, q + 1),
    decreases s.len(),
{
    if s.len() > 0 {
        lemma_round_len(s.drop_last(), t, q);
    }
}

proof fn lemma_picks_len<K>(s: Histogram<K>, t: int, p: nat)
    ensures
        picks(s, t, p).len() == sum_times(s, t, p),
    decreases p,
{
    if p == 0 {
        lemma_sum_zero(s, t);
    } else {
        lemma_picks_len(s, t, (p - 1) as nat);
        lemma_round_len(s, t, (p - 1) as nat);
    }
}

proof fn lemma_sum_zero<K>(s: Histogram<K>, t: int)
    ensures
        sum_times(s, t, 0) == 0,
    decreases s.len(),
{
    if s.len() > 0 {
        lemma_sum_zero(s.drop_last(), t);
    }
}

proof fn lemma_times_enough(c: int, t: int, p: nat)
    requires
        t > 0,
    ensures
        times_picked(c, t, p) == p || times_picked(c, t, p) * t >= 16 * c,
    decreases p,
{
    if p > 0 {
        lemma_times_enough(c, t, (p - 1) as nat);
        let a = times_picked(c, t, (p - 1) as nat);
        if a != p - 1 {
            assert((a + 1) * t >= a * t) by (nonlinear_arith)
                requires
                    t > 0,
            ;
        }
    }
}

proof fn lemma_count_below_total<K>(s: Histogram<K>, i: int)
    requires
        0 <= i < s.len(),
    ensures
        s[i].1 <= total(s),
        total(s) >= 0,
    decreases s.len(),
{
    lemma_total_nonneg(s);
    if i < s.len() - 1 {
        lemma_count_below_total(s.drop_last(), i);
    } else {
        lemma_total_nonneg(s.drop_last());
    }
}

proof fn lemma_total_nonneg<K>(s: Histogram<K>)
    ensures
        total(s) >= 0,
    decreases s.len(),
{
    if s.len() > 0 {
        lemma_total_nonneg(s.drop_last());
    }
}

proof fn lemma_sum_enough<K>(s: Histogram<K>, t: int)
    requires
        t > 0,
        forall|i: int| 0 <= i < s.len() ==> s[i].1 <= t,
    ensures
        sum_times(s, t, 16) * t >= 16 * total(s),
    decreases s.len(),
{
    if s.len() > 0 {
        let c = s.last().1 as int;
        lemma_sum_enough(s.drop_last(), t);
        lemma_times_enough(c, t, 16);
        let a = times_picked(c, t, 16);
        let rest = sum_times(s.drop_last(), t, 16);
        assert((rest + a) * t == rest * t + a * t) by (nonlinear_arith);
        if a == 16 {
            assert(a * t >= 16 * c);
        }
    }
}

/// The first sixteen rounds always fill all sixteen slots.
proof fn lemma_rounds_fill<K>(s: Histogram<K>)
    requires
        total(s) > 0,
    ensures
        picks(s, total(s), 16).len() >= 16,
{
    let t = total(s);
    assert forall|i: int| 0 <= i < s.len() implies s[i].1 <= t by {
        lemma_count_below_total(s, i);
    }
    lemma_sum_enough(s, t);
    lemma_picks_len(s, t, 16);
    let n = sum_times(s, t, 16);
    if n < 16 {
        assert(n * t < 16 * t) by (nonlinear_arith)
            requires
                n < 16,
                t > 0,
        ;
    }
}

proof fn lemma_total_insert<K>(s: Histogram<K>, p: int, x: (K, usize))
    requires
        0 <= p <= s.len(),
    ensures
        total(s.insert(p, x)) == total(s) + x.1,
    decreases s.len(),
{
    if p < s.len() {
        lemma_total_insert(s.drop_last(), p, x);
        assert(s.insert(p, x).drop_last() =~= s.drop_last().insert(p, x));
    } else {
        assert(s.insert(p, x).drop_last() =~= s);
    }
}

proof fn lemma_sort_keeps_total<K>(h: Histogram<K>)
    ensures
        total(sort_by_count(h)) == total(h),
        sort_by_count(h).len() == h.len(),
    decreases h.len(),
{
    if h.len() > 0 {
        let s = sort_by_count(h.drop_last());
        lemma_sort_keeps_total(h.drop_last());
        lemma_count_at_most_len(s, h.last().1);
        lemma_total_insert(s, count_at_most(s, h.last().1) as int, h.last());
    }
}

fn count_le<K: Copy>(s: &Vec<(K, usize)>, c: usize) -> (r: usize)
    ensures
        r == count_at_most(s@, c),
{
    let mut r: usize = 0;
    let mut j: usize = 0;
    while j < s.len()
        invariant
            j <= s@.len(),
            r <= j,
            r == count_at_most(s@.take(j as int), c),
        decreases s@.len() - j,
    {
        assert(s@.take(j + 1).drop_last() =~= s@.take(j as int));
        if s[j].1 <= c {
            r = r + 1;
        }
        j = j + 1;
    }
    assert(s@.take(j as int) =~= s@);
    r
}

fn sorted_by_count<K: Copy>(h: &Vec<(K, usize)>) -> (r: Vec<(K, usize)>)
    ensures
        r@ == sort_by_count(h@),
{
    let mut s: Vec<(K, usize)> = Vec::new();
    let mut i: usize = 0;
    while i < h.len()
        invariant
            i <= h@.len(),
            s@ == sort_by_count(h@.take(i as int)),
            s@.len() == i,
        decreases h@.len() - i,
    {
        let x = h[i];
        let p = count_le(&s, x.1);
        proof {
            assert(h@.take(i + 1).drop_last() =~= h@.take(i as int));
            lemma_count_at_most_len(s@, x.1);
        }
        s.insert(p, x);
        i = i + 1;
    }
    assert(h@.take(i as int) =~= h@);
    s
}

proof fn lemma_count_at_most_len<K>(s: Histogram<K>, c: usize)
    ensures
        count_at_most(s, c) <= s.len(),
    decreases s.len(),
{
    if s.len() > 0 {
        lemma_count_at_most_len(s.drop_last(), c);
    }
}

fn total_of<K: Copy>(h: &Vec<(K, usize)>) -> (r: u128)
    ensures
        r == total(h@),
        r <= h@.len() * 0xffff_ffff_ffff_ffff,
{
    let mut r: u128 = 0;
    let mut j: usize = 0;
    while j < h.len()
        invariant
            j <= h@.len(),
            r == total(h@.take(j as int)),
            r <= j * 0xffff_ffff_ffff_ffff,
        decreases h@.len() - j,
    {
        assert(h@.take(j + 1).drop_last() =~= h@.take(j as int));
        assert((j + 1) * 0xffff_ffff_ffff_ffff == j * 0xffff_ffff_ffff_ffff + 0xffff_ffff_ffff_ffff)
            by (nonlinear_arith);
        assert(j * 0xffff_ffff_ffff_ffff <= 0xffff_ffff_ffff_ffff * 0xffff_ffff_ffff_ffffu128) by (nonlinear_arith)
            requires
                j <= 0xffff_ffff_ffff_ffffu64,
        ;
        r = r + h[j].1 as u128;
        j = j + 1;
    }
    assert(h@.take(j as int) =~= h@);
    r
}

/// Build a 16-element array of `K`s from `choices`, where each key appears
/// approximately proportionally to its share of the sum of the counts. This
/// is a "fair chance" algorithm, because even if a key occupies a very low
/// proportion, it may be given at least one of the array spots. This way, the
/// most frequent choices won't dominate the array.
pub fn fair_chance_array<K: Copy>(choices: &Vec<(K, usize)>) -> (r: [K; 16])
    requires
        total(choices@) > 0,
    ensures
        r@ == fair_chance(choices@),
{
    let sorted = sorted_by_count(choices);
    let t = total_of(&sorted);
    let ghost ts = total(sorted@);
    proof {
        lemma_sort_keeps_total(choices@);
        lemma_rounds_fill(sorted@);
        if sorted@.len() == 0 {
            assert(total(sorted@) == 0);
        }
    }
    let n = sorted.len();
    let mut res = [sorted[0].0; 16];
    let mut filled: usize = 0;
    let mut p: u128 = 0;
    while p < 16
        invariant
            p <= 16,
            n == sorted@.len(),
            n > 0,
            t == ts,
            ts > 0,
            filled <= 16,
            filled as int == if picks(sorted@, ts, p as nat).len() < 16 {
                picks(sorted@, ts, p as nat).len() as int
            } else {
                16
            },
            res@.take(filled as int) == picks(sorted@, ts, p as nat).take(filled as int),
        decreases 16 - p,
    {
        let mut i: usize = 0;
        let ghost before = picks(sorted@, ts, p as nat);
        while i < n
            invariant
                p < 16,
                i <= n,
                n == sorted@.len(),
                t == ts,
                ts > 0,
                before == picks(sorted@, ts, p as nat),
                filled <= 16,
                filled as int == if (before + round_picks(sorted@.take(i as int), ts, p as int)).len() < 16 {
                    (before + round_picks(sorted@.take(i as int), ts, p as int)).len() as int
                } else {
                    16
                },
                res@.take(filled as int) == (before + round_picks(sorted@.take(i as int), ts, p as int)).take(
                    filled as int,
                ),
            decreases n - i,
        {
            let (key, count) = sorted[i];
            proof {
                assert(sorted@.take(i + 1).drop_last() =~= sorted@.take(i as int));
            }
            let below = if p == 0 {
                0 < count
            } else if t > 0x1_0000_0000_0000_0000_0000_0000 {
                false
            } else {
                assert(p * t <= 16 * 0x1_0000_0000_0000_0000_0000_0000) by (nonlinear_arith)
                    requires
                        p <= 16,
                        t <= 0x1_0000_0000_0000_0000_0000_0000u128,
                ;
                p * t < 16 * (count as u128)
            };
            proof {
                if p > 0 && t > 0x1_0000_0000_0000_0000_0000_0000 {
                    assert(p * t >= t) by (nonlinear_arith)
                        requires
                            p >= 1,
                            t > 0,
                    ;
                }
            }
            assert(below == (p * ts < 16 * count));
            let ghost prev = before + round_picks(sorted@.take(i as int), ts, p as int);
            let ghost next = before + round_picks(sorted@.take(i + 1), ts, p as int);
            if below && filled < 16 {
                let ghost old_res = res@;
                assert(prev.len() == filled);
                assert(prev.take(filled as int) =~= prev);
                res[filled] = key;
                assert(res@.take(filled as int) =~= old_res.take(filled as int));
                filled = filled + 1;
                assert(next =~= prev.push(key));
                assert(res@.take(filled as int) =~= next.take(filled as int));
            } else if below {
                assert(next =~= prev.push(key));
                assert(next.take(16) =~= prev.take(16));
            } else {
                assert(next =~= prev);
            }
            i = i + 1;
        }
        assert(sorted@.take(n as int) =~= sorted@);
        p = p + 1;
    }
    assert(res@ =~= res@.take(16));
    assert(picks(sorted@, ts, 16).take(16) =~= picks(sorted@, ts, 16).take(16 as int));
    res
}

proof fn lemma_sort_contains<K>(h: Histogram<K>, i: int)
    requires
        0 <= i < h.len(),
    ensures
        sort_by_count(h).contains(h[i]),
    decreases h.len(),
{
    let s = sort_by_count(h.drop_last());
    lemma_count_at_most_len(s, h.last().1);
    let p = count_at_most(s, h.last().1) as int;
    lemma_sort_keeps_total(h.drop_last());
    if i == h.len() - 1 {
        assert(s.insert(p, h.last())[p] == h[i]);
    } else {
        lemma_sort_contains(h.drop_last(), i);
        let j = choose|j: int| 0 <= j < s.len() && s[j] == h[i];
        if j < p {
            assert(s.insert(p, h.last())[j] == h[i]);
        } else {
            assert(s.insert(p, h.last())[j + 1] == h[i]);
        }
    }
}

proof fn lemma_first_round<K>(s: Histogram<K>, t: int, j: int)
    requires
        0 <= j < s.len(),
        s[j].1 > 0,
    ensures
        round_picks(s, t, 0).contains(s[j].0),
        round_picks(s, t, 0).len() <= s.len(),
    decreases s.len(),
{
    lemma_round_bounded(s, t, 0);
    if j == s.len() - 1 {
        let r = round_picks(s, t, 0);
        assert(r[r.len() - 1] == s[j].0);
    } else {
        lemma_first_round(s.drop_last(), t, j);
        let r0 = round_picks(s.drop_last(), t, 0);
        let k = choose|k: int| 0 <= k < r0.len() && r0[k] == s[j].0;
        assert(round_picks(s, t, 0)[k] == s[j].0);
    }
}

proof fn lemma_round_bounded<K>(s: Histogram<K>, t: int, p: int)
    ensures
        round_picks(s, t, p).len() <= s.len(),
    decreases s.len(),
{
    if s.len() > 0 {
        lemma_round_bounded(s.drop_last(), t, p);
    }
}

proof fn lemma_picks_prefix<K>(s: Histogram<K>, t: int, p: nat)
    requires
        p >= 1,
    ensures
        picks(s, t, p).len() >= round_picks(s, t, 0).len(),
        picks(s, t, p).take(round_picks(s, t, 0).len() as int) == round_picks(s, t, 0),
    decreases p,
{
    let r = round_picks(s, t, 0);
    if p == 1 {
        assert(picks(s, t, 1) =~= r);
        assert(r.take(r.len() as int) =~= r);
    } else {
        lemma_picks_prefix(s, t, (p - 1) as nat);
        let a = picks(s, t, (p - 1) as nat);
        assert((a + round_picks(s, t, p - 1)).take(r.len() as int) =~= a.take(r.len() as int));
    }
}

/// The fair-chance table always has sixteen slots, and when there are at most
/// sixteen keys every key with a positive count has at least one of them.
pub proof fn lemma_fair_chance_covers<K>(h: Histogram<K>)
    requires
        total(h) > 0,
    ensures
        fair_chance(h).len() == 16,
        h.len() <= 16 ==> forall|i: int|
            0 <= i < h.len() && h[i].1 > 0 ==> #[trigger] fair_chance(h).contains(h[i].0),
{
    let sorted = sort_by_count(h);
    let t = total(sorted);
    lemma_sort_keeps_total(h);
    lemma_rounds_fill(sorted);
    if h.len() <= 16 {
        assert forall|i: int| 0 <= i < h.len() && h[i].1 > 0 implies #[trigger] fair_chance(h).contains(
            h[i].0,
        ) by {
            lemma_sort_contains(h, i);
            let j = choose|j: int| 0 <= j < sorted.len() && sorted[j] == h[i];
            lemma_first_round(sorted, t, j);
            lemma_picks_prefix(sorted, t, 16);
            let r = round_picks(sorted, t, 0);
            let k = choose|k: int| 0 <= k < r.len() && r[k] == h[i].0;
            assert(fair_chance(h)[k] == picks(sorted, t, 16).take(r.len() as int)[k]);
        }
    }
}

/// How many times `k` occurs in `s`.
pub open spec fn occurrences<K>(s: Seq<K>, k: K) -> nat
    decreases s.len(),
{
    if s.len() == 0 {
        0
    } else {
        occurrences(s.drop_last(), k) + if s.last() == k { 1nat } else { 0 }
    }
}

/// No key occurs twice.
pub open spec fn unique_keys<K>(h: Histogram<K>) -> bool {
    forall|i: int, j: int| 0 <= i < j < h.len() ==> h[i].0 != h[j].0
}

proof fn lemma_occurrences_concat<K>(a: Seq<K>, b: Seq<K>, k: K)
    ensures
        occurrences(a + b, k) == occurrences(a, k) + occurrences(b, k),
    decreases b.len(),
{
    if b.len() == 0 {
        assert(a + b =~= a);
    } else {
        lemma_occurrences_concat(a, b.drop_last(), k);
        assert((a + b).drop_last() =~= a + b.drop_last());
    }
}

proof fn lemma_occurrences_take<K>(s: Seq<K>, n: int, k: K)
    requires
        0 <= n <= s.len(),
    ensures
        occurrences(s.take(n), k) <= occurrences(s, k),
{
    lemma_occurrences_concat(s.take(n), s.skip(n), k);
    assert(s.take(n) + s.skip(n) =~= s);
}

/// How many entries for key `k` round `q` picks.
spec fn key_hits<K>(s: Histogram<K>, t: int, q: int, k: K) -> nat
    decreases s.len(),
{
    if s.len() == 0 {
        0
    } else {
        key_hits(s.drop_last(), t, q, k) + if s.last().0 == k && q * t < 16 * s.last().1 {
            1nat
        } else {
            0
        }
    }
}

proof fn lemma_round_occurrences<K>(s: Histogram<K>, t: int, q: int, k: K)
    ensures
        occurrences(round_picks(s, t, q), k) == key_hits(s, t, q, k),
    decreases s.len(),
{
    if s.len() > 0 {
        lemma_round_occurrences(s.drop_last(), t, q, k);
        let tail = if q * t < 16 * s.last().1 { seq![s.last().0] } else { seq![] };
        lemma_occurrences_concat(round_picks(s.drop_last(), t, q), tail, k);
        if q * t < 16 * s.last().1 {
            assert(tail.drop_last() =~= Seq::<K>::empty());
            assert(occurrences(Seq::<K>::empty(), k) == 0);
            assert(occurrences(tail, k) == if s.last().0 == k { 1nat } else { 0 });
        } else {
            assert(occurrences(tail, k) == 0);
        }
    }
}

proof fn lemma_unique_hits<K>(s: Histogram<K>, t: int, q: int, j: int)
    requires
        0 <= j < s.len(),
        unique_keys(s),
    ensures
        key_hits(s, t, q, s[j].0) == if q * t < 16 * s[j].1 { 1nat } else { 0 },
    decreases s.len(),
{
    let k = s[j].0;
    if j < s.len() - 1 {
        lemma_unique_hits(s.drop_last(), t, q, j);
        assert(s.last().0 != k);
    } else {
        lemma_no_hits(s.drop_last(), t, q, k);
    }
}

proof fn lemma_no_hits<K>(s: Histogram<K>, t: int, q: int, k: K)
    requires
        forall|i: int| 0 <= i < s.len() ==> s[i].0 != k,
    ensures
        key_hits(s, t, q, k) == 0,
    decreases s.len(),
{
    if s.len() > 0 {
        lemma_no_hits(s.drop_last(), t, q, k);
    }
}

proof fn lemma_picks_occurrences<K>(s: Histogram<K>, t: int, p: nat, j: int)
    requires
        0 <= j < s.len(),
        unique_keys(s),
    ensures
        occurrences(picks(s, t, p), s[j].0) == times_picked(s[j].1 as int, t, p),
    decreases p,
{
    if p > 0 {
        lemma_picks_occurrences(s, t, (p - 1) as nat, j);
        lemma_occurrences_concat(picks(s, t, (p - 1) as nat), round_picks(s, t, p - 1), s[j].0);
        lemma_round_occurrences(s, t, p - 1, s[j].0);
        lemma_unique_hits(s, t, p - 1, j);
    } else {
        assert(picks(s, t, 0) =~= Seq::<K>::empty());
    }
}

proof fn lemma_times_bounded(c: int, t: int, p: nat)
    requires
        t > 0,
    ensures
        times_picked(c, t, p) <= p,
        times_picked(c, t, p) == 0 || (times_picked(c, t, p) - 1) * t < 16 * c,
    decreases p,
{
    if p > 0 {
        lemma_times_bounded(c, t, (p - 1) as nat);
        let m = times_picked(c, t, (p - 1) as nat);
        if (p - 1) * t < 16 * c {
            assert(m * t <= (p - 1) * t) by (nonlinear_arith)
                requires
                    m <= p - 1,
                    t > 0,
            ;
        }
    }
}

proof fn lemma_sort_within<K>(h: Histogram<K>)
    ensures
        forall|e: (K, usize)| #[trigger] sort_by_count(h).contains(e) ==> h.contains(e),
    decreases h.len(),
{
    if h.len() > 0 {
        let s = sort_by_count(h.drop_last());
        lemma_sort_within(h.drop_last());
        lemma_count_at_most_len(s, h.last().1);
        let p = count_at_most(s, h.last().1) as int;
        assert forall|e: (K, usize)| sort_by_count(h).contains(e) implies h.contains(e) by {
            let i = choose|i: int| 0 <= i < sort_by_count(h).len() && sort_by_count(h)[i] == e;
            if i == p {
                assert(h[h.len() - 1] == e);
            } else {
                let i2 = if i < p { i } else { i - 1 };
                assert(s[i2] == e);
                assert(s.contains(e));
                let m = choose|m: int| 0 <= m < h.drop_last().len() && h.drop_last()[m] == e;
                assert(h[m] == e);
            }
        }
    }
}

proof fn lemma_sort_unique<K>(h: Histogram<K>)
    requires
        unique_keys(h),
    ensures
        unique_keys(sort_by_count(h)),
    decreases h.len(),
{
    if h.len() > 0 {
        let s = sort_by_count(h.drop_last());
        let x = h.last();
        assert(unique_keys(h.drop_last()));
        lemma_sort_unique(h.drop_last());
        lemma_sort_within(h.drop_last());
        lemma_sort_keeps_total(h.drop_last());
        lemma_count_at_most_len(s, x.1);
        let p = count_at_most(s, x.1) as int;
        let r = s.insert(p, x);
        assert forall|i: int| 0 <= i < s.len() implies s[i].0 != x.0 by {
            assert(s.contains(s[i]));
            let m = choose|m: int| 0 <= m < h.drop_last().len() && h.drop_last()[m] == s[i];
            assert(h[m] == s[i]);
        }
        assert forall|i: int, j: int| 0 <= i < j < r.len() implies r[i].0 != r[j].0 by {
            if i < p && j < p {
            } else if i < p && j == p {
            } else if i < p {
                assert(r[j] == s[j - 1]);
            } else if i == p {
                assert(r[j] == s[j - 1]);
            } else {
                assert(r[i] == s[i - 1] && r[j] == s[j - 1]);
            }
        }
    }
}

/// In a histogram whose keys are distinct, no key takes more than one slot
/// above its share: `occurrences * total < 16 * count + total`.
pub proof fn lemma_fair_chance_share<K>(h: Histogram<K>, i: int)
    requires
        total(h) > 0,
        unique_keys(h),
        0 <= i < h.len(),
    ensures
        occurrences(fair_chance(h), h[i].0) * total(h) < 16 * h[i].1 + total(h),
{
    let sorted = sort_by_count(h);
    let t = total(sorted);
    lemma_sort_keeps_total(h);
    lemma_sort_unique(h);
    lemma_sort_contains(h, i);
    let j = choose|j: int| 0 <= j < sorted.len() && sorted[j] == h[i];
    lemma_picks_occurrences(sorted, t, 16, j);
    lemma_rounds_fill(sorted);
    lemma_occurrences_take(picks(sorted, t, 16), 16, h[i].0);
    lemma_times_bounded(h[i].1 as int, t, 16);
    let m = times_picked(h[i].1 as int, t, 16);
    let o = occurrences(fair_chance(h), h[i].0);
    assert(fair_chance(h) == picks(sorted, t, 16).take(16));
    assert(sorted[j].1 == h[i].1);
    assert(o <= m);
    assert(total(h) == t);
    assert(o * t <= m * t) by (nonlinear_arith)
        requires
            o <= m,
            t > 0,
    ;
    if m > 0 {
        assert(m * t == (m - 1) * t + t) by (nonlinear_arith);
    } else {
        assert(m * t == 0) by (nonlinear_arith)
            requires
                m == 0,
        ;
    }
}

/// `k` is the key of some entry of `h`.
pub open spec fn has_key<K>(h: Histogram<K>, k: K) -> bool {
    exists|j: int| 0 <= j < h.len() && h[j].0 == k
}

proof fn lemma_round_keys<K>(s: Histogram<K>, t: int, q: int)
    ensures
        forall|x: int| 0 <= x < round_picks(s, t, q).len() ==> has_key(s, #[trigger] round_picks(s, t, q)[x]),
    decreases s.len(),
{
    if s.len() > 0 {
        lemma_round_keys(s.drop_last(), t, q);
        let r0 = round_picks(s.drop_last(), t, q);
        assert forall|x: int| 0 <= x < round_picks(s, t, q).len() implies has_key(s, #[trigger] round_picks(s, t, q)[x]) by {
            if x < r0.len() {
                let k = r0[x];
                assert(has_key(s.drop_last(), k));
                let j = choose|j: int| 0 <= j < s.drop_last().len() && s.drop_last()[j].0 == k;
                assert(s[j].0 == k);
            } else {
                assert(s[s.len() - 1].0 == round_picks(s, t, q)[x]);
            }
        }
    }
}

proof fn lemma_picks_keys<K>(s: Histogram<K>, t: int, p: nat)
    ensures
        forall|x: int| 0 <= x < picks(s, t, p).len() ==> has_key(s, #[trigger] picks(s, t, p)[x]),
    decreases p,
{
    if p > 0 {
        lemma_picks_keys(s, t, (p - 1) as nat);
        lemma_round_keys(s, t, p - 1);
        let a = picks(s, t, (p - 1) as nat);
        let b = round_picks(s, t, p - 1);
        assert forall|x: int| 0 <= x < picks(s, t, p).len() implies has_key(s, #[trigger] picks(s, t, p)[x]) by {
            if x < a.len() {
                assert(picks(s, t, p)[x] == a[x]);
            } else {
                assert(picks(s, t, p)[x] == b[x - a.len()]);
            }
        }
    }
}

/// Every slot of the fair-chance table holds a key of the histogram.
pub proof fn lemma_fair_chance_keys<K>(h: Histogram<K>)
    requires
        total(h) > 0,
    ensures
        fair_chance(h).len() == 16,
        forall|x: int| 0 <= x < 16 ==> has_key(h, #[trigger] fair_chance(h)[x]),
{
    let sorted = sort_by_count(h);
    let t = total(sorted);
    lemma_sort_keeps_total(h);
    lemma_rounds_fill(sorted);
    lemma_picks_keys(sorted, t, 16);
    lemma_sort_within(h);
    assert forall|x: int| 0 <= x < 16 implies has_key(h, #[trigger] fair_chance(h)[x]) by {
        let k = fair_chance(h)[x];
        assert(k == picks(sorted, t, 16)[x]);
        assert(has_key(sorted, k));
        let j = choose|j: int| 0 <= j < sorted.len() && sorted[j].0 == k;
        assert(sorted.contains(sorted[j]));
        let m = choose|m: int| 0 <= m < h.len() && h[m] == sorted[j];
        assert(h[m].0 == k);
    }
}

/// The counts do not decrease along `h`.
pub open spec fn ascending_counts<K>(h: Histogram<K>) -> bool {
    forall|i: int, j: int| 0 <= i < j < h.len() ==> h[i].1 <= h[j].1
}

proof fn lemma_count_split<K>(s: Histogram<K>, c: usize)
    requires
        ascending_counts(s),
    ensures
        count_at_most(s, c) <= s.len(),
        forall|i: int| 0 <= i < count_at_most(s, c) ==> s[i].1 <= c,
        forall|i: int| count_at_most(s, c) <= i < s.len() ==> s[i].1 > c,
    decreases s.len(),
{
    if s.len() > 0 {
        let s0 = s.drop_last();
        assert(ascending_counts(s0));
        lemma_count_split(s0, c);
        if s.last().1 <= c {
            assert forall|i: int| 0 <= i < s.len() implies s[i].1 <= c by {
                if i < s.len() - 1 {
                    assert(s[i].1 <= s[s.len() - 1].1);
                }
            }
            if count_at_most(s0, c) < s0.len() {
                assert(s0[s0.len() - 1].1 > c);
                assert(s[s.len() - 2].1 <= s[s.len() - 1].1);
            }
        } else {
            assert(forall|i: int| 0 <= i < s0.len() ==> s0[i] == s[i]);
        }
    }
}

/// Sorting by count leaves the counts in ascending order.
pub proof fn lemma_sort_sorted<K>(h: Histogram<K>)
    ensures
        ascending_counts(sort_by_count(h)),
    decreases h.len(),
{
    if h.len() > 0 {
        let s = sort_by_count(h.drop_last());
        let x = h.last();
        lemma_sort_sorted(h.drop_last());
        lemma_count_split(s, x.1);
        let p = count_at_most(s, x.1) as int;
        let r = s.insert(p, x);
        assert forall|i: int, j: int| 0 <= i < j < r.len() implies r[i].1 <= r[j].1 by {
            if j < p {
            } else if j == p {
                assert(r[i] == s[i]);
            } else if i < p {
                assert(r[i] == s[i] && r[j] == s[j - 1]);
            } else if i == p {
                assert(r[j] == s[j - 1]);
            } else {
                assert(r[i] == s[i - 1] && r[j] == s[j - 1]);
            }
        }
    }
}

proof fn lemma_first_round_all<K>(s: Histogram<K>, t: int)
    requires
        forall|i: int| 0 <= i < s.len() ==> s[i].1 > 0,
    ensures
        round_picks(s, t, 0) == s.map_values(|e: (K, usize)| e.0),
    decreases s.len(),
{
    if s.len() > 0 {
        lemma_first_round_all(s.drop_last(), t);
        assert(round_picks(s, t, 0) =~= s.map_values(|e: (K, usize)| e.0));
    } else {
        assert(round_picks(s, t, 0) =~= s.map_values(|e: (K, usize)| e.0));
    }
}

/// With at most sixteen keys, all counts positive, the first slots of the
/// fair-chance table list every key once, in ascending order of count, ties
/// in order of first sight (the order `sort_by_count` keeps).
pub proof fn lemma_fair_chance_first_slots<K>(h: Histogram<K>)
    requires
        1 <= h.len() <= 16,
        forall|i: int| 0 <= i < h.len() ==> h[i].1 > 0,
    ensures
        total(h) > 0,
        fair_chance(h).take(h.len() as int) == sort_by_count(h).map_values(|e: (K, usize)| e.0),
        ascending_counts(sort_by_count(h)),
{
    let sorted = sort_by_count(h);
    lemma_sort_keeps_total(h);
    lemma_sort_sorted(h);
    lemma_total_nonneg(h.drop_last());
    assert(total(h) > 0);
    let t = total(sorted);
    lemma_sort_within(h);
    assert forall|i: int| 0 <= i < sorted.len() implies sorted[i].1 > 0 by {
        assert(sorted.contains(sorted[i]));
        let m = choose|m: int| 0 <= m < h.len() && h[m] == sorted[i];
    }
    lemma_first_round_all(sorted, t);
    lemma_picks_prefix(sorted, t, 16);
    lemma_rounds_fill(sorted);
    let n = h.len() as int;
    assert(fair_chance(h) == picks(sorted, t, 16).take(16));
    assert(fair_chance(h).take(n) =~= picks(sorted, t, 16).take(n));
}

/// Keys of a transition table, compared by value.
pub trait ChainKey: Copy {
    fn same(&self, other: &Self) -> (r: bool)
        ensures
            r == (*self == *other),
    ;
}

impl ChainKey for Duration {
    fn same(&self, other: &Duration) -> (r: bool) {
        self.0 == other.0
    }
}

impl ChainKey for Option<Pitch> {
    fn same(&self, other: &Option<Pitch>) -> (r: bool) {
        match (self, other) {
            (Some(a), Some(b)) => a.0 == b.0,
            (None, None) => true,
            _ => false,
        }
    }
}

/// Transition counts `(from, to, count)`, in order of first sight.
pub type Transitions<K> = Seq<(K, K, usize)>;

/// The index of the entry for `from -> to`, or -1.
pub open spec fn find_pair<K>(t: Transitions<K>, from: K, to: K) -> int
    decreases t.len(),
{
    if t.len() == 0 {
        -1
    } else {
        let r = find_pair(t.drop_last(), from, to);
        if r >= 0 {
            r
        } else if t.last().0 == from && t.last().1 == to {
            t.len() - 1
        } else {
            -1
        }
    }
}

/// The table after observing `from -> to` once more (a count stops at the
/// largest value).
pub open spec fn bump<K>(t: Transitions<K>, from: K, to: K) -> Transitions<K> {
    let i = find_pair(t, from, to);
    if i >= 0 {
        t.update(
            i,
            (from, to, if t[i].2 == usize::MAX { usize::MAX } else { (t[i].2 + 1) as usize }),
        )
    } else {
        t.push((from, to, 1))
    }
}

/// No `(from, to)` pair has two entries.
pub open spec fn unique_pairs<K>(t: Transitions<K>) -> bool {
    forall|i: int, j: int|
        0 <= i < j < t.len() ==> !(t[i].0 == t[j].0 && t[i].1 == t[j].1)
}

spec fn follows_in<K>(t: Transitions<K>, from: K, k: K) -> bool {
    exists|i: int| 0 <= i < t.len() && t[i].0 == from && t[i].1 == k
}

proof fn lemma_row_from<K>(t: Transitions<K>, from: K)
    ensures
        forall|x: int| 0 <= x < row(t, from).len() ==> follows_in(t, from, #[trigger] row(t, from)[x].0),
    decreases t.len(),
{
    if t.len() > 0 {
        let t0 = t.drop_last();
        lemma_row_from(t0, from);
        let r0 = row(t0, from);
        assert forall|x: int| 0 <= x < row(t, from).len() implies follows_in(t, from, #[trigger] row(t, from)[x].0) by {
            if x < r0.len() {
                assert(row(t, from)[x] == r0[x]);
                assert(follows_in(t0, from, r0[x].0));
                let i = choose|i: int| 0 <= i < t0.len() && t0[i].0 == from && t0[i].1 == r0[x].0;
                assert(t[i] == t0[i]);
            } else {
                assert(t[t.len() - 1].0 == from);
                assert(row(t, from)[x].0 == t[t.len() - 1].1);
            }
        }
    }
}

/// The histogram of what followed a note has distinct keys when the table
/// has distinct pairs, so the fair-chance share bound applies to it.
pub proof fn lemma_row_unique<K>(t: Transitions<K>, from: K)
    requires
        unique_pairs(t),
    ensures
        unique_keys(row(t, from)),
    decreases t.len(),
{
    if t.len() > 0 {
        let t0 = t.drop_last();
        assert(unique_pairs(t0));
        lemma_row_unique(t0, from);
        lemma_row_from(t0, from);
        let r0 = row(t0, from);
        let r = row(t, from);
        if t.last().0 == from {
            assert forall|i: int, j: int| 0 <= i < j < r.len() implies r[i].0 != r[j].0 by {
                if j == r.len() - 1 {
                    assert(r[i] == r0[i]);
                    if r0[i].0 == t.last().1 {
                        assert(follows_in(t0, from, r0[i].0));
                        let m = choose|m: int| 0 <= m < t0.len() && t0[m].0 == from && t0[m].1 == r0[i].0;
                        assert(t[m] == t0[m]);
                        assert(!(t[m].0 == t[t.len() - 1].0 && t[m].1 == t[t.len() - 1].1));
                    }
                } else {
                    assert(r[i] == r0[i] && r[j] == r0[j]);
                }
            }
        } else {
            assert(r =~= r0);
        }
    }
}

/// The histogram of what followed `from`.
pub open spec fn row<K>(t: Transitions<K>, from: K) -> Histogram<K>
    decreases t.len(),
{
    if t.len() == 0 {
        seq![]
    } else {
        row(t.drop_last(), from) + if t.last().0 == from {
            seq![(t.last().1, t.last().2)]
        } else {
            seq![]
        }
    }
}

/// Every count is positive.
pub open spec fn positive<K>(t: Transitions<K>) -> bool {
    forall|i: int| 0 <= i < t.len() ==> t[i].2 >= 1
}

proof fn lemma_find_pair<K>(t: Transitions<K>, from: K, to: K)
    ensures
        -1 <= find_pair(t, from, to) < t.len(),
        find_pair(t, from, to) >= 0 ==> t[find_pair(t, from, to)].0 == from && t[find_pair(
            t,
            from,
            to,
        )].1 == to,
        find_pair(t, from, to) >= 0 ==> forall|j: int|
            0 <= j < find_pair(t, from, to) ==> !(t[j].0 == from && t[j].1 == to),
        find_pair(t, from, to) < 0 ==> forall|j: int|
            0 <= j < t.len() ==> !(t[j].0 == from && t[j].1 == to),
    decreases t.len(),
{
    if t.len() > 0 {
        lemma_find_pair(t.drop_last(), from, to);
        assert(forall|j: int| 0 <= j < t.len() - 1 ==> t.drop_last()[j] == t[j]);
    }
}

proof fn lemma_first_match<K>(t: Transitions<K>, from: K, to: K, i: int)
    requires
        0 <= i < t.len(),
        t[i].0 == from && t[i].1 == to,
        forall|j: int| 0 <= j < i ==> !(t[j].0 == from && t[j].1 == to),
    ensures
        find_pair(t, from, to) == i,
{
    lemma_find_pair(t, from, to);
}

proof fn lemma_row_total<K>(t: Transitions<K>, from: K)
    requires
        positive(t),
    ensures
        total(row(t, from)) >= row(t, from).len(),
    decreases t.len(),
{
    if t.len() > 0 {
        lemma_row_total(t.drop_last(), from);
        let r = row(t, from);
        let r0 = row(t.drop_last(), from);
        if t.last().0 == from {
            assert(r.drop_last() =~= r0);
        } else {
            assert(r =~= r0);
        }
    }
}

fn bump_pair<K: ChainKey>(t: &mut Vec<(K, K, usize)>, from: K, to: K)
    requires
        positive(old(t)@),
        unique_pairs(old(t)@),
    ensures
        final(t)@ == bump(old(t)@, from, to),
        positive(final(t)@),
        unique_pairs(final(t)@),
{
    let n = t.len();
    let mut i: usize = 0;
    while i < n
        invariant
            n == t@.len(),
            t@ == old(t)@,
            positive(old(t)@),
            unique_pairs(old(t)@),
            i <= n,
            forall|j: int| 0 <= j < i ==> !(t@[j].0 == from && t@[j].1 == to),
        decreases n - i,
    {
        let (f, g, c) = t[i];
        if f.same(&from) && g.same(&to) {
            proof {
                lemma_first_match(t@, from, to, i as int);
            }
            let c2 = if c == usize::MAX { usize::MAX } else { c + 1 };
            assert(old(t)@[i as int].2 >= 1);
            t.set(i, (from, to, c2));
            assert(forall|j: int| 0 <= j < n && j != i ==> t@[j] == old(t)@[j]);
            return;
        }
        i = i + 1;
    }
    proof {
        lemma_find_pair(t@, from, to);
    }
    t.push((from, to, 1));
}

fn row_of<K: ChainKey>(t: &Vec<(K, K, usize)>, from: K) -> (r: Vec<(K, usize)>)
    ensures
        r@ == row(t@, from),
{
    let mut r: Vec<(K, usize)> = Vec::new();
    let mut i: usize = 0;
    while i < t.len()
        invariant
            i <= t@.len(),
            r@ == row(t@.take(i as int), from),
        decreases t@.len() - i,
    {
        let (f, g, c) = t[i];
        assert(t@.take(i + 1).drop_last() =~= t@.take(i as int));
        if f.same(&from) {
            r.push((g, c));
            assert(r@ =~= row(t@.take(i + 1), from));
        } else {
            assert(r@ =~= row(t@.take(i + 1), from));
        }
        i = i + 1;
    }
    assert(t@.take(i as int) =~= t@);
    r
}

/// The mathematical state of a Markov melody: pitch and duration transition
/// counts and the last note seen.
pub struct ChainState {
    pub pitches: Transitions<Option<Pitch>>,
    pub durations: Transitions<Duration>,
    pub prev: Option<Note>,
}

/// The state after seeing `current`: the step from the previous note, if any,
/// is counted, and `current` becomes the previous note.
pub open spec fn observe(s: ChainState, current: Note) -> ChainState {
    match s.prev {
        Some(p) => ChainState {
            pitches: bump(s.pitches, p.pitch, current.pitch),
            durations: bump(s.durations, p.duration, current.duration),
            prev: Some(current),
        },
        None => ChainState { prev: Some(current), ..s },
    }
}

/// The note that follows `current` given the counts of `s` and a random byte:
/// the low nibble indexes the fair-chance table of pitches that followed its
/// pitch, the high nibble that of durations that followed its duration.
/// `None` when either has never been followed by anything.
pub open spec fn predict(s: ChainState, current: Note, random: u8) -> Option<Note> {
    let pr = row(s.pitches, current.pitch);
    let dr = row(s.durations, current.duration);
    if pr.len() == 0 || dr.len() == 0 {
        None
    } else {
        Some(
            Note {
                pitch: fair_chance(pr)[(random % 16) as int],
                duration: fair_chance(dr)[(random / 16) as int],
            },
        )
    }
}

pub struct MarkovMelody {
    pitches: Vec<(Option<Pitch>, Option<Pitch>, usize)>,
    durations: Vec<(Duration, Duration, usize)>,
    prev: Option<Note>,
}

impl View for MarkovMelody {
    type V = ChainState;

    closed spec fn view(&self) -> ChainState {
        ChainState { pitches: self.pitches@, durations: self.durations@, prev: self.prev }
    }
}

/// All counts of the state are positive and no transition has two entries.
pub open spec fn valid_chain(s: ChainState) -> bool {
    &&& positive(s.pitches) && positive(s.durations)
    &&& unique_pairs(s.pitches) && unique_pairs(s.durations)
}

impl MarkovMelody {
    pub fn new() -> (r: Self)
        ensures
            r@ == (ChainState { pitches: seq![], durations: seq![], prev: None }),
            valid_chain(r@),
    {
        MarkovMelody { pitches: Vec::new(), durations: Vec::new(), prev: None }
    }

    /// Get the next note given the `current` note and a `random` two nibble
    /// value. Returns `None` if this chain does not have enough in its memory
    /// to make a decision.
    pub fn next(&mut self, current: Note, random: u8) -> (r: Option<Note>)
        requires
            valid_chain(old(self)@),
        ensures
            valid_chain(final(self)@),
            final(self)@ == observe(old(self)@, current),
            r == predict(observe(old(self)@, current), current, random),
    {
        if let Some(prev) = self.prev {
            bump_pair(&mut self.pitches, prev.pitch, current.pitch);
            bump_pair(&mut self.durations, prev.duration, current.duration);
        }
        self.prev = Some(current);

        let prow = row_of(&self.pitches, current.pitch);
        if prow.len() == 0 {
            return None;
        }
        let drow = row_of(&self.durations, current.duration);
        if drow.len() == 0 {
            return None;
        }
        proof {
            lemma_row_total(self.pitches@, current.pitch);
            lemma_row_total(self.durations@, current.duration);
        }
        let pitch_choices = fair_chance_array(&prow);
        let duration_choices = fair_chance_array(&drow);
        assert((random & 0xf) == random % 16 && random % 16 < 16) by (bit_vector);
        assert((random >> 4) == random / 16 && random / 16 < 16) by (bit_vector);
        let pitch = pitch_choices[(random & 0xf) as usize];
        let duration = duration_choices[(random >> 4) as usize];
        Some(Note { pitch, duration })
    }
}

} // verus!
