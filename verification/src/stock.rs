//! Statistics over an ordered series of closes, and the summary record.

use vstd::prelude::*;
use crate::order::PricePoint;
use crate::order::is_sorted_closes;
use crate::order::sorted_quotes;

verus! {

/// Width of the moving-average window that the summary uses.
pub const SMA_WINDOW: usize = 30;

/// An exact quotient `num / den`, kept as the two integers.
#[derive(Clone, Copy, Debug, PartialEq, Eq)]
pub struct Ratio {
    pub num: i128,
    pub den: i128,
}

impl Ratio {
    /// Whether the quotient exists: the divisor is not zero.
    pub open spec fn is_defined(self) -> bool {
        self.den != 0
    }
}

/// Summary of one ticker's ordered closes.
#[derive(Clone, Debug)]
pub struct QuoteHistory {
    pub ticker: String,
    pub max: Option<i64>,
    pub min: Option<i64>,
    pub last_price: Option<i64>,
    pub price_diff: Option<(i128, Ratio)>,
    pub sma: Option<Vec<Ratio>>,
}

/// Whether `m` occurs in `s` and no element of `s` is larger.
pub open spec fn is_max_of(s: Seq<i64>, m: i64) -> bool {
    &&& s.contains(m)
    &&& forall|i: int| 0 <= i < s.len() ==> s[i] <= m
}

/// Whether `m` occurs in `s` and no element of `s` is smaller.
pub open spec fn is_min_of(s: Seq<i64>, m: i64) -> bool {
    &&& s.contains(m)
    &&& forall|i: int| 0 <= i < s.len() ==> m <= s[i]
}

/// What `max` owes for the series `s`.
pub open spec fn max_result(s: Seq<i64>, r: Option<i64>) -> bool {
    match r {
        None => s.len() == 0,
        Some(m) => is_max_of(s, m),
    }
}

/// What `min` owes for the series `s`.
pub open spec fn min_result(s: Seq<i64>, r: Option<i64>) -> bool {
    match r {
        None => s.len() == 0,
        Some(m) => is_min_of(s, m),
    }
}

/// The final close, if there is one.
pub open spec fn last_of(s: Seq<i64>) -> Option<i64> {
    if s.len() == 0 {
        None
    } else {
        Some(s.last())
    }
}

/// The divisor of the relative change: the first close, or one where that is zero.
pub open spec fn diff_divisor(first: i64) -> int {
    if first == 0 {
        1
    } else {
        first as int
    }
}

/// Absolute change `last - first`, and the relative change as the fraction
/// of that over `diff_divisor(first)`; nothing for an empty series.
pub open spec fn price_diff_of(s: Seq<i64>) -> Option<(i128, Ratio)> {
    if s.len() == 0 {
        None
    } else {
        Some(
            (
                (s.last() - s.first()) as i128,
                (Ratio { num: (s.last() - s.first()) as i128, den: diff_divisor(s.first()) as i128 }),
            ),
        )
    }
}

/// Sum of the elements of `s`.
pub open spec fn seq_sum(s: Seq<i64>) -> int
    decreases s.len(),
{
    if s.len() == 0 {
        0
    } else {
        seq_sum(s.drop_last()) + s.last()
    }
}

/// Number of windows of width `n` in a series of length `len`.
pub open spec fn window_count(len: int, n: int) -> int {
    if len >= n {
        len - n + 1
    } else {
        0
    }
}

/// What `n_window_sma` owes: nothing for an empty series or a width under
/// two; else one mean per window of `n` consecutive closes, in order, each
/// the window's sum over `n`.
pub open spec fn sma_result(n: usize, s: Seq<i64>, r: Option<Vec<Ratio>>) -> bool {
    match r {
        None => s.len() == 0 || n <= 1,
        Some(means) => {
            &&& s.len() > 0
            &&& n > 1
            &&& means@.len() == window_count(s.len() as int, n as int)
            &&& forall|i: int|
                0 <= i < means@.len() ==> (#[trigger] means@[i]).num == seq_sum(
                    s.subrange(i, i + n),
                ) && means@[i].den == n
        },
    }
}

/// The largest close of the series; nothing for an empty series.
pub fn max(closes: &[i64]) -> (r: Option<i64>)
    ensures
        max_result(closes@, r),
        r is None <==> closes@.len() == 0,
{
    if closes.len() == 0 {
        return None;
    }
    let mut best: i64 = closes[0];
    let mut i: usize = 1;
    while i < closes.len()
        invariant
            1 <= i <= closes@.len(),
            closes@.contains(best),
            forall|k: int| 0 <= k < i ==> closes@[k] <= best,
        decreases closes@.len() - i,
    {
        if closes[i] > best {
            best = closes[i];
        }
        i += 1;
    }
    Some(best)
}

/// The smallest close of the series; nothing for an empty series.
pub fn min(closes: &[i64]) -> (r: Option<i64>)
    ensures
        min_result(closes@, r),
        r is None <==> closes@.len() == 0,
{
    if closes.len() == 0 {
        return None;
    }
    let mut best: i64 = closes[0];
    let mut i: usize = 1;
    while i < closes.len()
        invariant
            1 <= i <= closes@.len(),
            closes@.contains(best),
            forall|k: int| 0 <= k < i ==> best <= closes@[k],
        decreases closes@.len() - i,
    {
        if closes[i] < best {
            best = closes[i];
        }
        i += 1;
    }
    Some(best)
}

/// The final close of the series; nothing for an empty series.
pub fn last_price(closes: &[i64]) -> (r: Option<i64>)
    ensures
        r == last_of(closes@),
{
    if closes.len() == 0 {
        None
    } else {
        Some(closes[closes.len() - 1])
    }
}

/// Absolute and relative change from the first close to the last. The
/// relative change is taken against the first close, or against one where
/// the first close is zero.
pub fn price_diff(closes: &[i64]) -> (r: Option<(i128, Ratio)>)
    ensures
        r == price_diff_of(closes@),
        r matches Some(d) ==> d.1.is_defined(),
{
    if closes.len() == 0 {
        return None;
    }
    let first: i64 = closes[0];
    let last: i64 = closes[closes.len() - 1];
    let abs_diff: i128 = last as i128 - first as i128;
    let den: i128 = if first == 0 {
        1
    } else {
        first as i128
    };
    Some((abs_diff, Ratio { num: abs_diff, den }))
}

/// Appending one element to a range adds that element to the range's sum.
pub proof fn lemma_sum_extend(s: Seq<i64>, from: int, to: int)
    requires
        0 <= from <= to < s.len(),
    ensures
        seq_sum(s.subrange(from, to + 1)) == seq_sum(s.subrange(from, to)) + s[to],
{
    assert(s.subrange(from, to + 1).drop_last() =~= s.subrange(from, to));
}

/// Simple moving average of width `n`: the mean of every run of `n`
/// consecutive closes, in order.
pub fn n_window_sma(n: usize, closes: &[i64]) -> (r: Option<Vec<Ratio>>)
    ensures
        sma_result(n, closes@, r),
        r matches Some(means) ==> forall|i: int|
            0 <= i < means@.len() ==> (#[trigger] means@[i]).is_defined(),
{
    if closes.len() == 0 || n <= 1 {
        return None;
    }
    let mut means: Vec<Ratio> = Vec::new();
    if closes.len() < n {
        return Some(means);
    }
    let count: usize = closes.len() - n + 1;
    let mut start: usize = 0;
    while start < count
        invariant
            n > 1,
            n <= closes@.len() <= usize::MAX,
            count == closes@.len() - n + 1,
            start <= count,
            means@.len() == start,
            forall|i: int|
                0 <= i < means@.len() ==> (#[trigger] means@[i]).num == seq_sum(
                    closes@.subrange(i, i + n),
                ) && means@[i].den == n,
        decreases count - start,
    {
        let mut sum: i128 = 0;
        let mut k: usize = 0;
        while k < n
            invariant
                k <= n,
                start + n <= closes@.len() <= usize::MAX,
                sum == seq_sum(closes@.subrange(start as int, start + k)),
                -(k as int) * 0x8000_0000_0000_0000 <= sum <= (k as int) * 0x8000_0000_0000_0000,
            decreases n - k,
        {
            proof {
                lemma_sum_extend(closes@, start as int, start + k);
            }
            let close: i64 = closes[start + k];
            sum = sum + close as i128;
            k += 1;
        }
        means.push(Ratio { num: sum, den: n as i128 });
        start += 1;
    }
    Some(means)
}

/// The minimum of a series never exceeds its maximum, and in a series of one
/// element both are that element.
pub proof fn lemma_min_le_max(s: Seq<i64>, lo: i64, hi: i64)
    requires
        is_min_of(s, lo),
        is_max_of(s, hi),
    ensures
        lo <= hi,
        s.len() == 1 ==> lo == s[0] && hi == s[0],
{
    let i = choose|i: int| 0 <= i < s.len() && s[i] == lo;
    assert(s[i] <= hi);
    let j = choose|j: int| 0 <= j < s.len() && s[j] == hi;
    assert(lo <= s[j]);
}

/// The close that the summary reports as latest: the final one, or zero
/// for an empty series.
pub open spec fn last_or_zero(s: Seq<i64>) -> i64 {
    if s.len() == 0 {
        0
    } else {
        s.last()
    }
}

/// `qh` is the summary of the ordered closes `s` under the name `ticker`.
pub open spec fn is_summary_of(qh: QuoteHistory, ticker: Seq<char>, s: Seq<i64>) -> bool {
    &&& qh.ticker@ == ticker
    &&& max_result(s, qh.max)
    &&& min_result(s, qh.min)
    &&& qh.last_price == Some(last_or_zero(s))
    &&& qh.price_diff == price_diff_of(s)
    &&& sma_result(SMA_WINDOW, s, qh.sma)
}

/// Packs the five statistics of the ordered closes, with the ticker's name,
/// into one record. The moving average has width `SMA_WINDOW`.
pub fn calculate_quote_history(ticker: String, closes: Vec<i64>) -> (qh: QuoteHistory)
    ensures
        is_summary_of(qh, ticker@, closes@),
{
    let series = closes.as_slice();
    let latest: i64 = match last_price(series) {
        Some(price) => price,
        None => 0,
    };
    QuoteHistory {
        ticker,
        max: max(series),
        min: min(series),
        last_price: Some(latest),
        price_diff: price_diff(series),
        sma: n_window_sma(SMA_WINDOW, series),
    }
}

/// What `get_quote_history` owes for what the provider returned: its error
/// as it came, or the summary of the sorted closes of its quotes.
pub open spec fn history_result<E>(
    ticker: Seq<char>,
    fetched: Result<Vec<PricePoint>, E>,
    r: Result<QuoteHistory, E>,
) -> bool {
    match fetched {
        Ok(quotes) => r is Ok && exists|closes: Seq<i64>|
            is_sorted_closes(quotes@, closes) && is_summary_of(r->Ok_0, ticker, closes),
        Err(e) => r == Err::<QuoteHistory, E>(e),
    }
}

/// Summary of what a provider returned for `ticker`: the quotes are put in
/// time order and summarized; a provider's error is handed on unchanged.
pub fn get_quote_history<E>(ticker: String, fetched: Result<Vec<PricePoint>, E>) -> (r: Result<
    QuoteHistory,
    E,
>)
    ensures
        history_result(ticker@, fetched, r),
{
    match fetched {
        Ok(quotes) => {
            let closes = sorted_quotes(quotes);
            let ghost sorted = closes@;
            let qh = calculate_quote_history(ticker, closes);
            proof {
                assert(is_sorted_closes(quotes@, sorted) && is_summary_of(qh, ticker@, sorted));
            }
            Ok(qh)
        },
        Err(e) => Err(e),
    }
}

/// The five numbers of a summary's output line.
#[derive(Clone, Copy, Debug, PartialEq, Eq)]
pub struct LineFields {
    pub last_price: i64,
    pub relative: Ratio,
    pub min: i64,
    pub max: i64,
    pub sma: Ratio,
}

/// Zero as a fraction.
pub open spec fn zero_ratio() -> Ratio {
    Ratio { num: 0, den: 1 }
}

/// The numbers that a summary's line shows: each field where it is there,
/// zero where it is not; of the moving average the last mean, or zero where
/// there is none.
pub open spec fn line_fields_of(qh: QuoteHistory) -> LineFields {
    LineFields {
        last_price: match qh.last_price {
            Some(p) => p,
            None => 0,
        },
        relative: match qh.price_diff {
            Some(d) => d.1,
            None => zero_ratio(),
        },
        min: match qh.min {
            Some(m) => m,
            None => 0,
        },
        max: match qh.max {
            Some(m) => m,
            None => 0,
        },
        sma: match qh.sma {
            Some(means) => if means@.len() > 0 {
                means@.last()
            } else {
                zero_ratio()
            },
            None => zero_ratio(),
        },
    }
}

/// The numbers to print for a summary, absent ones as zero.
pub fn line_fields(qh: &QuoteHistory) -> (line: LineFields)
    ensures
        line == line_fields_of(*qh),
{
    let zero = Ratio { num: 0, den: 1 };
    let last_price: i64 = match qh.last_price {
        Some(p) => p,
        None => 0,
    };
    let relative = match qh.price_diff {
        Some(d) => d.1,
        None => zero,
    };
    let min: i64 = match qh.min {
        Some(m) => m,
        None => 0,
    };
    let max: i64 = match qh.max {
        Some(m) => m,
        None => 0,
    };
    let sma = match &qh.sma {
        Some(means) => if means.len() > 0 {
            means[means.len() - 1]
        } else {
            zero
        },
        None => zero,
    };
    LineFields { last_price, relative, min, max, sma }
}

} // verus!
