use vstd::prelude::*;

verus! {

// ---------------------------------------------------------------------------
// The rating curve
//
// A player's expected share against an opponent is
// 1 / (1 + 10^((rb - ra) / 4000)), and a settlement moves ratings by
// round(100 * (share_of_outcome - expected_share)) per opponent.  Over the
// integers the rounded expectation, in hundredths, is a step function of the
// rating difference; the steps were computed from the closed form: the value
// drops below j - 1/2 hundredths exactly where 10^(d/4000) passes
// (201 - 2j) / (2j - 1).
// ---------------------------------------------------------------------------

pub open spec fn elo_thresholds() -> Seq<i64> {
    seq![
        9195i64,
        7269i64,
        6364i64,
        5761i64,
        5307i64,
        4940i64,
        4631i64,
        4364i64,
        4128i64,
        3915i64,
        3722i64,
        3544i64,
        3380i64,
        3226i64,
        3082i64,
        2946i64,
        2816i64,
        2693i64,
        2575i64,
        2463i64,
        2354i64,
        2249i64,
        2148i64,
        2050i64,
        1955i64,
        1862i64,
        1772i64,
        1684i64,
        1597i64,
        1513i64,
        1430i64,
        1349i64,
        1269i64,
        1191i64,
        1113i64,
        1037i64,
        961i64,
        887i64,
        813i64,
        740i64,
        668i64,
        596i64,
        525i64,
        454i64,
        383i64,
        313i64,
        243i64,
        173i64,
        104i64,
        34i64,
    ]
}

/// How many entries of `s` are at least `d`.
pub open spec fn count_ge(s: Seq<i64>, d: int) -> int
    decreases s.len(),
{
    if s.len() == 0 {
        0
    } else {
        (if s[0] >= d {
            1int
        } else {
            0int
        }) + count_ge(s.drop_first(), d)
    }
}

/// round(100 / (1 + 10^(d/4000))), the expected share in hundredths for a
/// player whose opponent is `d` rating points above them.
pub open spec fn elo_expected_hundredths(d: int) -> int {
    if d > 0 {
        count_ge(elo_thresholds(), d)
    } else if d < 0 {
        100 - count_ge(elo_thresholds(), -d)
    } else {
        50
    }
}

/// The outcome share in hundredths: win 100, draw 50, loss 0.
pub open spec fn score_points(sa: int, sb: int) -> int {
    if sa > sb {
        100
    } else if sa < sb {
        0
    } else {
        50
    }
}

/// What one opponent contributes to a player's rating change.
pub open spec fn pair_delta(ra: int, rb: int, sa: int, sb: int) -> int {
    score_points(sa, sb) - elo_expected_hundredths(rb - ra)
}

proof fn lemma_count_ge_bounds(s: Seq<i64>, d: int)
    ensures
        0 <= count_ge(s, d) <= s.len(),
    decreases s.len(),
{
    if s.len() > 0 {
        lemma_count_ge_bounds(s.drop_first(), d);
    }
}

pub proof fn lemma_expected_range(d: int)
    ensures
        0 <= elo_expected_hundredths(d) <= 100,
{
    lemma_count_ge_bounds(elo_thresholds(), d);
    lemma_count_ge_bounds(elo_thresholds(), -d);
}

/// The curve is symmetric: the two sides of a pair expect shares that sum to
/// the whole.
pub proof fn lemma_expected_symmetric(d: int)
    ensures
        elo_expected_hundredths(d) + elo_expected_hundredths(-d) == 100,
{
}

fn elo_table() -> (v: Vec<i64>)
    ensures
        v@ == elo_thresholds(),
{
    let v: Vec<i64> = vec![
        9195i64, 7269i64, 6364i64, 5761i64, 5307i64, 4940i64, 4631i64, 4364i64, 4128i64, 3915i64,
        3722i64, 3544i64, 3380i64, 3226i64, 3082i64, 2946i64, 2816i64, 2693i64, 2575i64, 2463i64,
        2354i64, 2249i64, 2148i64, 2050i64, 1955i64, 1862i64, 1772i64, 1684i64, 1597i64, 1513i64,
        1430i64, 1349i64, 1269i64, 1191i64, 1113i64, 1037i64, 961i64, 887i64, 813i64, 740i64,
        668i64, 596i64, 525i64, 454i64, 383i64, 313i64, 243i64, 173i64, 104i64, 34i64,
    ];
    proof {
        assert(v@ =~= elo_thresholds());
    }
    v
}

pub fn expected_hundredths(ra: u32, rb: u32) -> (e: u8)
    ensures
        e as int == elo_expected_hundredths(rb as int - ra as int),
{
    let d: i64 = rb as i64 - ra as i64;
    if d == 0 {
        return 50;
    }
    let dd: i64 = if d > 0 {
        d
    } else {
        -d
    };
    let table = elo_table();
    proof {
        assert(table@.skip(0) =~= table@);
    }
    let mut count: u8 = 0;
    let mut i: usize = 0;
    while i < table.len()
        invariant
            table@ == elo_thresholds(),
            i <= table@.len(),
            count as int + count_ge(table@.skip(i as int), dd as int) == count_ge(
                table@,
                dd as int,
            ),
            count as int <= i,
        decreases table@.len() - i,
    {
        proof {
            assert(table@.skip(i as int).drop_first() =~= table@.skip(i + 1));
            assert(table@.skip(i as int)[0] == table@[i as int]);
            lemma_count_ge_bounds(table@.skip(i + 1), dd as int);
        }
        if table[i] >= dd {
            count += 1;
        }
        i += 1;
    }
    proof {
        assert(table@.skip(table@.len() as int) =~= Seq::<i64>::empty());
    }
    if d > 0 {
        count
    } else {
        100 - count
    }
}

/// One opponent's contribution, as executable code.
pub fn pair_delta_exec(ra: u32, rb: u32, sa: i64, sb: i64) -> (r: i64)
    ensures
        r as int == pair_delta(ra as int, rb as int, sa as int, sb as int),
        -100 <= r <= 100,
{
    let s: i64 = if sa > sb {
        100i64
    } else if sa < sb {
        0i64
    } else {
        50i64
    };
    let e = expected_hundredths(ra, rb);
    proof {
        lemma_expected_range(rb as int - ra as int);
    }
    s - (e as i64)
}

// ---------------------------------------------------------------------------
// The settlement of a whole game
// ---------------------------------------------------------------------------

/// The sum of player `i`'s pair deltas against opponents `0..j`.
pub open spec fn raw_delta_upto(ratings: Seq<int>, scores: Seq<int>, i: int, j: int) -> int
    decreases j,
{
    if j <= 0 {
        0
    } else {
        raw_delta_upto(ratings, scores, i, j - 1) + (if i == j - 1 {
            0
        } else {
            pair_delta(ratings[i], ratings[j - 1], scores[i], scores[j - 1])
        })
    }
}

/// Player `i`'s rating change before the clamp.
pub open spec fn raw_delta(ratings: Seq<int>, scores: Seq<int>, i: int) -> int {
    raw_delta_upto(ratings, scores, i, ratings.len() as int)
}

/// The clamp: a settlement never takes a rating below 10.
pub open spec fn clamped_delta(ratings: Seq<int>, scores: Seq<int>, i: int) -> int {
    let d = raw_delta(ratings, scores, i);
    if d >= 10 - ratings[i] {
        d
    } else {
        10 - ratings[i]
    }
}

/// The sum of the raw deltas of players `0..n`, each taken against the whole
/// field.
pub open spec fn sum_raw_deltas_upto(ratings: Seq<int>, scores: Seq<int>, n: int, m: int) -> int
    decreases n,
{
    if n <= 0 {
        0
    } else {
        sum_raw_deltas_upto(ratings, scores, n - 1, m) + raw_delta_upto(ratings, scores, n - 1, m)
    }
}

pub open spec fn sum_raw_deltas(ratings: Seq<int>, scores: Seq<int>) -> int {
    sum_raw_deltas_upto(ratings, scores, ratings.len() as int, ratings.len() as int)
}

proof fn lemma_pair_antisym(ratings: Seq<int>, scores: Seq<int>, i: int, j: int)
    ensures
        pair_delta(ratings[i], ratings[j], scores[i], scores[j]) + pair_delta(
            ratings[j],
            ratings[i],
            scores[j],
            scores[i],
        ) == 0,
{
    lemma_expected_symmetric(ratings[j] - ratings[i]);
}

/// Column sum: the contributions of opponent `j` to players `0..n`.
spec fn col_sum(ratings: Seq<int>, scores: Seq<int>, j: int, n: int) -> int
    decreases n,
{
    if n <= 0 {
        0
    } else {
        col_sum(ratings, scores, j, n - 1) + (if n - 1 == j {
            0
        } else {
            pair_delta(ratings[n - 1], ratings[j], scores[n - 1], scores[j])
        })
    }
}

proof fn lemma_sum_col_split(ratings: Seq<int>, scores: Seq<int>, n: int, m: int)
    requires
        m >= 1,
    ensures
        sum_raw_deltas_upto(ratings, scores, n, m) == sum_raw_deltas_upto(ratings, scores, n, m - 1)
            + col_sum(ratings, scores, m - 1, n),
    decreases n,
{
    if n > 0 {
        lemma_sum_col_split(ratings, scores, n - 1, m);
    }
}

/// The last row and the last column cancel each other.
proof fn lemma_cross_cancel(ratings: Seq<int>, scores: Seq<int>, n: int)
    ensures
        col_sum(ratings, scores, n, n) + raw_delta_upto(ratings, scores, n, n) == 0,
    decreases n,
{
    if n > 0 {
        lemma_cross_cancel_gen(ratings, scores, n, n);
    }
}

proof fn lemma_cross_cancel_gen(ratings: Seq<int>, scores: Seq<int>, k: int, n: int)
    requires
        0 <= n <= k,
    ensures
        col_sum(ratings, scores, k, n) + raw_delta_upto(ratings, scores, k, n) == 0,
    decreases n,
{
    if n > 0 {
        lemma_cross_cancel_gen(ratings, scores, k, n - 1);
        if n - 1 != k {
            lemma_pair_antisym(ratings, scores, n - 1, k);
        }
    }
}

proof fn lemma_zero_sum_square(ratings: Seq<int>, scores: Seq<int>, n: int)
    requires
        n >= 0,
    ensures
        sum_raw_deltas_upto(ratings, scores, n, n) == 0,
    decreases n,
{
    if n > 0 {
        lemma_zero_sum_square(ratings, scores, n - 1);
        lemma_sum_col_split(ratings, scores, n - 1, n);
        lemma_cross_cancel(ratings, scores, n - 1);
    }
}

/// Before the clamp at 10 the settlement is zero-sum: what the winners gain
/// the others lose, for every score profile.
pub proof fn lemma_settlement_zero_sum(ratings: Seq<int>, scores: Seq<int>)
    ensures
        sum_raw_deltas(ratings, scores) == 0,
{
    lemma_zero_sum_square(ratings, scores, ratings.len() as int);
}

// ---------------------------------------------------------------------------
// Decay toward the baseline
// ---------------------------------------------------------------------------

/// The periodic decay: the distance from the baseline shrinks by one percent,
/// rounding the scaled distance down.
pub open spec fn decayed(r: int) -> int {
    if r >= 15000 {
        15000 + (r - 15000) * 99 / 100
    } else {
        15000 - (15000 - r) * 99 / 100
    }
}

pub fn decay_rating(r: u32) -> (d: u32)
    ensures
        d as int == decayed(r as int),
{
    if r >= 15000 {
        let diff: u64 = (r - 15000) as u64;
        let shrunk: u64 = diff * 99 / 100;
        proof {
            assert(diff * 99 <= diff * 100);
            assert(shrunk <= diff);
        }
        15000 + (shrunk as u32)
    } else {
        let diff: u64 = (15000 - r) as u64;
        let shrunk: u64 = diff * 99 / 100;
        proof {
            assert(diff * 99 <= diff * 100);
            assert(shrunk <= diff);
        }
        15000 - (shrunk as u32)
    }
}

/// Decay preserves the side of the baseline and scales the distance to it by
/// 99/100 exactly, rounding toward the baseline.
pub proof fn lemma_decay_toward_baseline(r: int)
    ensures
        r >= 15000 ==> decayed(r) >= 15000 && decayed(r) - 15000 == (r - 15000) * 99 / 100,
        r <= 15000 ==> decayed(r) <= 15000 && 15000 - decayed(r) == (15000 - r) * 99 / 100,
        r >= 15000 ==> decayed(r) <= r,
        r <= 15000 ==> decayed(r) >= r,
{
    if r >= 15000 {
        assert((r - 15000) * 99 >= 0);
        assert((r - 15000) * 99 <= (r - 15000) * 100);
    } else {
        assert((15000 - r) * 99 >= 0);
        assert((15000 - r) * 99 <= (15000 - r) * 100);
    }
}

} // verus!
