use vstd::prelude::*;

use crate::analyzer::{
    ascending, elapsed_values, fastest_result, is_fastest_row, is_first_bad_line,
    is_first_invalid, is_slowest_row, line_fine, load_error, percentile_result,
    percentile_value, percentiles_result, rank, slowest_result, sorted_elapsed, Fraction, Row,
};
use crate::decimal::cell_nanos;
use crate::parse::{cell_inner, cells, line_problem, lines};
use crate::error::Error;

verus! {

broadcast use vstd::seq_lib::group_to_multiset_ensures;

proof fn lemma_fastest_row_exists(rows: Seq<Row>)
    requires
        rows.len() > 0,
    ensures
        exists|i: int| is_fastest_row(rows, i),
    decreases rows.len(),
{
    if rows.len() == 1 {
        assert(is_fastest_row(rows, 0));
    } else {
        let init = rows.drop_last();
        lemma_fastest_row_exists(init);
        let i = choose|i: int| is_fastest_row(init, i);
        let last = rows.len() - 1;
        assert(forall|j: int| 0 <= j < last ==> init[j] == rows[j]);
        if rows[last].elapsed_nanos < rows[i].elapsed_nanos {
            assert(is_fastest_row(rows, last));
        } else {
            assert(is_fastest_row(rows, i));
        }
    }
}

proof fn lemma_slowest_row_exists(rows: Seq<Row>)
    requires
        rows.len() > 0,
    ensures
        exists|i: int| is_slowest_row(rows, i),
    decreases rows.len(),
{
    if rows.len() == 1 {
        assert(is_slowest_row(rows, 0));
    } else {
        let init = rows.drop_last();
        lemma_slowest_row_exists(init);
        let i = choose|i: int| is_slowest_row(init, i);
        let last = rows.len() - 1;
        assert(forall|j: int| 0 <= j < last ==> init[j] == rows[j]);
        if rows[last].elapsed_nanos > rows[i].elapsed_nanos {
            assert(is_slowest_row(rows, last));
        } else {
            assert(is_slowest_row(rows, i));
        }
    }
}

/// The ascending order holds exactly the rows' elapsed times.
proof fn lemma_sorted_elapsed_members(rows: Seq<Row>)
    ensures
        sorted_elapsed(rows).len() == rows.len(),
        vstd::relations::sorted_by(sorted_elapsed(rows), ascending()),
        forall|k: int|
            0 <= k < rows.len() ==> elapsed_values(rows).contains(#[trigger] sorted_elapsed(rows)[k]),
        forall|j: int|
            0 <= j < rows.len() ==> sorted_elapsed(rows).contains(#[trigger] rows[j].elapsed_nanos),
{
    let vals = elapsed_values(rows);
    let s = sorted_elapsed(rows);
    vals.lemma_sort_by_ensures(ascending());
    assert(s.to_multiset().len() == s.len());
    assert(vals.to_multiset().len() == vals.len());
    assert(s.len() == rows.len());
    assert forall|k: int| 0 <= k < rows.len() implies vals.contains(#[trigger] s[k]) by {
        assert(s.contains(s[k]));
        assert(s.to_multiset().count(s[k]) > 0);
    }
    assert forall|j: int| 0 <= j < rows.len() implies s.contains(#[trigger] rows[j].elapsed_nanos) by {
        assert(vals[j] == rows[j].elapsed_nanos);
        assert(vals.contains(vals[j]));
        assert(vals.to_multiset().count(vals[j]) > 0);
    }
}

/// On a non-empty log the fastest elapsed time is at most that of every
/// row, and the slowest at least that of every row.
pub proof fn lemma_extremes_bound_every_row(rows: Seq<Row>)
    requires
        rows.len() > 0,
    ensures
        fastest_result(rows) is Ok,
        slowest_result(rows) is Ok,
        forall|j: int|
            0 <= j < rows.len() ==> fastest_result(rows)->Ok_0.0 <= #[trigger] rows[j].elapsed_nanos,
        forall|j: int|
            0 <= j < rows.len() ==> #[trigger] rows[j].elapsed_nanos <= slowest_result(rows)->Ok_0.0,
{
    lemma_fastest_row_exists(rows);
    lemma_slowest_row_exists(rows);
    let f = choose|i: int| is_fastest_row(rows, i);
    let s = choose|i: int| is_slowest_row(rows, i);
    assert(is_fastest_row(rows, f));
    assert(is_slowest_row(rows, s));
}

/// The percentile at `d / d`, that is at 1, is the slowest elapsed time.
pub proof fn lemma_top_percentile_is_slowest(rows: Seq<Row>, d: u64)
    requires
        rows.len() > 0,
        d > 0,
    ensures
        percentile_result(rows, Fraction { numerator: d, denominator: d })
            == Ok::<i128, Error>(slowest_result(rows)->Ok_0.0),
{
    let p = Fraction { numerator: d, denominator: d };
    let n = rows.len();
    let m = n - 1;
    assert(rank(p, n) == n - 1) by {
        let dd = d as int;
        assert((dd * m + dd - 1) / dd == m) by (nonlinear_arith)
            requires dd > 0, m >= 0;
    }
    lemma_sorted_elapsed_members(rows);
    let srt = sorted_elapsed(rows);
    let top = srt[n - 1];
    lemma_slowest_row_exists(rows);
    let i = choose|i: int| is_slowest_row(rows, i);
    assert(is_slowest_row(rows, i));
    assert(srt.contains(rows[i].elapsed_nanos));
    let k = choose|k: int| 0 <= k < srt.len() && srt[k] == rows[i].elapsed_nanos;
    if k < n - 1 {
        assert(ascending()(srt[k], srt[n - 1]));
    }
    let vals = elapsed_values(rows);
    assert(vals.contains(srt[n - 1]));
    let j = choose|j: int| 0 <= j < vals.len() && vals[j] == srt[n - 1];
    assert(vals[j] == rows[j].elapsed_nanos);
    assert(rows[j].elapsed_nanos <= rows[i].elapsed_nanos);
    assert(top == rows[i].elapsed_nanos);
}

/// Every percentile is at least the fastest elapsed time, and with a single
/// row every percentile is that row's elapsed time.
pub proof fn lemma_low_percentile(rows: Seq<Row>, p: Fraction)
    requires
        rows.len() > 0,
        p.valid(),
    ensures
        fastest_result(rows)->Ok_0.0 <= percentile_value(rows, p),
        rows.len() == 1 ==> percentile_value(rows, p) == fastest_result(rows)->Ok_0.0,
{
    let n = rows.len();
    crate::analyzer::lemma_rank_bounds(p, n);
    lemma_extremes_bound_every_row(rows);
    lemma_sorted_elapsed_members(rows);
    let srt = sorted_elapsed(rows);
    let r = rank(p, n);
    let vals = elapsed_values(rows);
    assert(vals.contains(srt[r]));
    let j = choose|j: int| 0 <= j < vals.len() && vals[j] == srt[r];
    assert(vals[j] == rows[j].elapsed_nanos);
    assert(fastest_result(rows)->Ok_0.0 <= rows[j].elapsed_nanos);
    if n == 1 {
        lemma_fastest_row_exists(rows);
        let f = choose|i: int| is_fastest_row(rows, i);
        assert(is_fastest_row(rows, f));
        assert(f == 0 && j == 0);
    }
}

/// `c = ceil(x / d)` is the least integer whose multiple of `d` reaches `x`.
proof fn lemma_ceil_div(x: int, d: int, y: int)
    requires
        x >= 0,
        d > 0,
        y * d >= x,
    ensures
        ((x + d - 1) / d) * d >= x,
        (x + d - 1) / d <= y,
{
    let c = (x + d - 1) / d;
    let r = (x + d - 1) % d;
    vstd::arithmetic::div_mod::lemma_fundamental_div_mod(x + d - 1, d);
    assert(0 <= r < d) by {
        vstd::arithmetic::div_mod::lemma_mod_pos_bound(x + d - 1, d);
    }
    assert(c * d == x + d - 1 - r);
    assert(c * d < (y + 1) * d) by (nonlinear_arith)
        requires c * d == x + d - 1 - r, r >= 0, y * d >= x;
    assert(c < y + 1) by (nonlinear_arith)
        requires c * d < (y + 1) * d, d > 0;
}

/// A larger fraction never has a smaller rank.
proof fn lemma_rank_monotone(p1: Fraction, p2: Fraction, n: nat)
    requires
        p1.valid(),
        p2.valid(),
        n > 0,
        p1.numerator * p2.denominator <= p2.numerator * p1.denominator,
    ensures
        rank(p1, n) <= rank(p2, n),
{
    let a1 = p1.numerator as int;
    let d1 = p1.denominator as int;
    let a2 = p2.numerator as int;
    let d2 = p2.denominator as int;
    let m = n - 1;
    let x1 = a1 * m;
    let x2 = a2 * m;
    assert(x1 >= 0 && x2 >= 0) by (nonlinear_arith)
        requires a1 > 0, a2 > 0, m >= 0, x1 == a1 * m, x2 == a2 * m;
    let r2 = (x2 + d2 - 1) / d2;
    assert(x2 * d2 >= x2) by (nonlinear_arith)
        requires x2 >= 0, d2 >= 1;
    lemma_ceil_div(x2, d2, x2);
    assert(r2 * d2 >= x2);
    assert(r2 * d1 * d2 >= x1 * d2) by (nonlinear_arith)
        requires r2 * d2 >= a2 * m, a1 * d2 <= a2 * d1, x1 == a1 * m, m >= 0, d1 > 0;
    assert(r2 * d1 >= x1) by (nonlinear_arith)
        requires r2 * d1 * d2 >= x1 * d2, d2 > 0;
    lemma_ceil_div(x1, d1, r2);
}

/// Percentiles grow with the fraction: `p1 <= p2` gives
/// `percentile(p1) <= percentile(p2)`.
pub proof fn lemma_percentile_monotone(rows: Seq<Row>, p1: Fraction, p2: Fraction)
    requires
        rows.len() > 0,
        p1.valid(),
        p2.valid(),
        p1.numerator * p2.denominator <= p2.numerator * p1.denominator,
    ensures
        percentile_value(rows, p1) <= percentile_value(rows, p2),
{
    let n = rows.len();
    crate::analyzer::lemma_rank_bounds(p1, n);
    crate::analyzer::lemma_rank_bounds(p2, n);
    lemma_rank_monotone(p1, p2, n);
    lemma_sorted_elapsed_members(rows);
    let r1 = rank(p1, n);
    let r2 = rank(p2, n);
    if r1 < r2 {
        assert(ascending()(sorted_elapsed(rows)[r1], sorted_elapsed(rows)[r2]));
    }
}

/// Asking for two percentiles at once gives what asking for each alone
/// gives, and fails with the first failure.
pub proof fn lemma_batch_matches_single(rows: Seq<Row>, p1: Fraction, p2: Fraction)
    ensures
        percentiles_result(rows, seq![p1, p2]) == match (
            percentile_result(rows, p1),
            percentile_result(rows, p2),
        ) {
            (Ok(a), Ok(b)) => Ok::<Seq<i128>, Error>(seq![a, b]),
            (Err(e), _) => Err(e),
            (Ok(_), Err(e)) => Err(e),
        },
{
    let ps = seq![p1, p2];
    if rows.len() > 0 {
        if !p1.valid() {
            assert(is_first_invalid(ps, 0));
            crate::analyzer::lemma_first_invalid_unique(ps, 0);
        } else if !p2.valid() {
            assert(is_first_invalid(ps, 1));
            crate::analyzer::lemma_first_invalid_unique(ps, 1);
        } else {
            assert forall|k: int| !is_first_invalid(ps, k) by {
                if 0 <= k < 2 {
                    assert(ps[k].valid());
                }
            }
            assert(Seq::new(ps.len(), |k: int| percentile_value(rows, ps[k])) =~= seq![
                percentile_value(rows, p1),
                percentile_value(rows, p2),
            ]);
        }
    }
}

/// A fraction `p` with `p * (n - 1) <= 1` picks the second smallest of the
/// `n` elapsed times, or the only one.
pub proof fn lemma_lowest_rank(rows: Seq<Row>, p: Fraction)
    requires
        rows.len() > 0,
        p.valid(),
        p.numerator * (rows.len() - 1) <= p.denominator,
    ensures
        percentile_value(rows, p) == sorted_elapsed(rows)[if rows.len() == 1 {
            0int
        } else {
            1int
        }],
{
    let n = rows.len();
    let num = p.numerator as int;
    let den = p.denominator as int;
    let x = num * (n - 1);
    if n == 1 {
        assert(x == 0) by (nonlinear_arith)
            requires n == 1, x == num * (n - 1);
        vstd::arithmetic::div_mod::lemma_fundamental_div_mod_converse(x + den - 1, den, 0, den - 1);
    } else {
        assert(x >= 1) by (nonlinear_arith)
            requires num >= 1, n >= 2, x == num * (n - 1);
        vstd::arithmetic::div_mod::lemma_fundamental_div_mod_converse(x + den - 1, den, 1, x - 1);
    }
}

/// When the least elapsed time occurs in two rows, a fraction `p` with
/// `p * (n - 1) <= 1` gives that least time: the fastest.
pub proof fn lemma_lowest_percentile_repeated_minimum(rows: Seq<Row>, p: Fraction, i: int, j: int)
    requires
        rows.len() > 1,
        p.valid(),
        p.numerator * (rows.len() - 1) <= p.denominator,
        0 <= i < j < rows.len(),
        rows[i].elapsed_nanos == fastest_result(rows)->Ok_0.0,
        rows[j].elapsed_nanos == fastest_result(rows)->Ok_0.0,
    ensures
        percentile_value(rows, p) == fastest_result(rows)->Ok_0.0,
{
    broadcast use vstd::multiset::group_multiset_axioms;

    lemma_lowest_rank(rows, p);
    lemma_extremes_bound_every_row(rows);
    lemma_sorted_elapsed_members(rows);
    let v = fastest_result(rows)->Ok_0.0;
    let vals = elapsed_values(rows);
    let s = sorted_elapsed(rows);
    vals.lemma_sort_by_ensures(ascending());
    assert forall|k: int| 0 <= k < s.len() implies v <= #[trigger] s[k] by {
        assert(vals.contains(s[k]));
        let m = choose|m: int| 0 <= m < vals.len() && vals[m] == s[k];
        assert(vals[m] == rows[m].elapsed_nanos);
    }
    if s[1] != v {
        assert(vals[i] == v && vals[j] == v);
        let without = vals.remove(i);
        assert(without[j - 1] == v);
        assert(without.contains(v));
        assert(without.to_multiset().count(v) > 0);
        assert(vals.to_multiset().count(v) >= 2);
        let tail = s.remove(0);
        assert forall|k: int| 0 <= k < tail.len() implies #[trigger] tail[k] != v by {
            assert(tail[k] == s[k + 1]);
            if k > 0 {
                assert(ascending()(s[1], s[k + 1]));
            }
        }
        assert(!tail.contains(v));
        assert(tail.to_multiset().count(v) == 0);
        assert(s.to_multiset().count(v) <= 1);
    }
}

proof fn lemma_first_bad_line_exists(b: Seq<u8>, k: int)
    requires
        0 <= k < lines(b).len(),
        !line_fine(b, lines(b), k),
    ensures
        exists|j: int| is_first_bad_line(b, j),
    decreases k,
{
    if exists|j: int| 0 <= j < k && !#[trigger] line_fine(b, lines(b), j) {
        let j = choose|j: int| 0 <= j < k && !#[trigger] line_fine(b, lines(b), j);
        lemma_first_bad_line_exists(b, j);
    } else {
        assert(is_first_bad_line(b, k));
    }
}

/// A data line whose elapsed-time cell is not a number makes the whole
/// load fail: no table of the other rows is given.
pub proof fn lemma_bad_elapsed_fails_load(b: Seq<u8>, k: int)
    requires
        0 < k < lines(b).len(),
        cells(b, lines(b)[k]).len() == 4,
        cell_nanos(
            b,
            cell_inner(b, cells(b, lines(b)[k])[1]).0,
            cell_inner(b, cells(b, lines(b)[k])[1]).1,
        ) is None,
    ensures
        load_error(b) is Some,
{
    assert(line_problem(b, lines(b)[k], k == 0) is Some);
    assert(!line_fine(b, lines(b), k));
    lemma_first_bad_line_exists(b, k);
}

} // verus!
