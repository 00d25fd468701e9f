//! Aggregation of classified messages into score distributions, daily
//! series and classification rates.

use crate::calendar::{Date, MAX_DAY, MIN_DAY};
use crate::order::Key;
use crate::series::{
    bin_by, bin_keys, count_key, dense_counts_between, dense_series, is_binning, is_key_binning,
    key_bounds, key_views, lemma_key_bounds, lemma_occurrences_bounded, lemma_occurrences_positive, max_key,
    min_key, occurrences, Occurrences,
};
use vstd::prelude::*;

verus! {

/// The score that the filter assigned to a message, in thousandths: higher
/// is more spam-like. A score of -1.2 is held as -1200.
pub type SpamResult = i64;

/// Scores are sorted into integer-sized bins for calculating the distribution.
pub type SpamResultBin = i32;

/// How many units of a [`SpamResult`] make up one whole score point.
pub const SCORE_SCALE: i64 = 1000;

/// One quarantined message as the filter classified it.
#[derive(Clone, Debug)]
pub struct SpamEmail {
    pub date_received: Date,
    pub spam_result: SpamResult,
    pub is_spam: bool,
    pub from: String,
}

/// The messages of a mailbox.
pub type SpamResults = Vec<SpamEmail>;

/// Spam and ham received on one day.
#[derive(Clone, Copy, Debug, PartialEq, Eq, Structural)]
pub struct SpamCount {
    pub spam: Occurrences,
    pub ham: Occurrences,
}

/// A ratio of two counts: `part` out of `total`.
#[derive(Clone, Copy, Debug, PartialEq, Eq, Structural)]
pub struct Rate {
    pub part: Occurrences,
    pub total: Occurrences,
}

/// Which records decide the first and last day of a date series.
#[derive(Clone, Copy, Debug, PartialEq, Eq, Structural)]
pub enum DateScope {
    /// The earliest and latest date among all records.
    AllRecords,
    /// The earliest and latest date among the records that are counted.
    MatchingRecords,
}

/// A score with its fraction cut off: truncation toward zero, so that both
/// 0.7 and -0.7 give 0.
pub open spec fn truncated_score(score: int) -> int {
    if score >= 0 {
        score / 1000
    } else {
        -((-score) / 1000)
    }
}

/// The bin of a score: its truncation, held to the range of the bin type.
pub open spec fn bucket_of(score: int) -> int {
    let whole = truncated_score(score);
    if whole < i32::MIN {
        i32::MIN as int
    } else if whole > i32::MAX {
        i32::MAX as int
    } else {
        whole
    }
}

/// The bins of the messages' scores, in message order.
pub open spec fn buckets_of(emails: Seq<SpamEmail>) -> Seq<i32> {
    Seq::new(emails.len(), |i: int| bucket_of(emails[i].spam_result as int) as i32)
}

/// The day numbers on which the messages were received, in message order.
pub open spec fn days_of(emails: Seq<SpamEmail>) -> Seq<i32> {
    Seq::new(emails.len(), |i: int| emails[i].date_received.days)
}

/// The day numbers of the messages classified as `spam` says, in message
/// order.
pub open spec fn days_where(emails: Seq<SpamEmail>, spam: bool) -> Seq<i32>
    decreases emails.len(),
{
    if emails.len() == 0 {
        Seq::empty()
    } else {
        let front = days_where(emails.drop_last(), spam);
        if emails.last().is_spam == spam {
            front.push(emails.last().date_received.days)
        } else {
            front
        }
    }
}

/// Every message carries a representable date.
pub open spec fn all_dated(emails: Seq<SpamEmail>) -> bool {
    forall|i: int| 0 <= i < emails.len() ==> (#[trigger] emails[i]).date_received.is_valid()
}

/// The score distribution of `buckets`: empty without input, else dense from
/// the smallest to the largest bin, both included.
pub open spec fn score_series(buckets: Seq<i32>) -> Seq<(SpamResultBin, Occurrences)> {
    if buckets.len() == 0 {
        Seq::empty()
    } else {
        dense_series(buckets, min_key(buckets), max_key(buckets))
    }
}

/// The days on which a date series begins and ends are taken from these.
pub open spec fn scope_days(emails: Seq<SpamEmail>, spam: bool, scope: DateScope) -> Seq<i32> {
    match scope {
        DateScope::AllRecords => days_of(emails),
        DateScope::MatchingRecords => days_where(emails, spam),
    }
}

/// The daily series of the messages classified as `spam` says: empty when
/// no message matches, else one entry for every day from the first to the
/// last day of the scope.
pub open spec fn date_series_of(emails: Seq<SpamEmail>, spam: bool, scope: DateScope) -> Seq<
    (Date, Occurrences),
> {
    let matching = days_where(emails, spam);
    let range = scope_days(emails, spam, scope);
    if matching.len() == 0 {
        Seq::empty()
    } else {
        Seq::new(
            (max_key(range) - min_key(range) + 1) as nat,
            |i: int|
                (
                    Date { days: (min_key(range) + i) as i32 },
                    occurrences(matching, min_key(range) + i) as Occurrences,
                ),
        )
    }
}

/// Whether `tally` is the per-day aggregate of `emails`: one entry for each
/// day on which a message was received, in ascending date order, with that
/// day's spam and ham counts.
pub open spec fn is_daily_tally(emails: Seq<SpamEmail>, tally: Seq<(Date, SpamCount)>) -> bool {
    &&& is_binning(
        days_of(emails),
        Seq::new(
            tally.len(),
            |i: int| (tally[i].0.days, (tally[i].1.spam + tally[i].1.ham) as Occurrences),
        ),
    )
    &&& forall|i: int|
        0 <= i < tally.len() ==> {
            &&& (#[trigger] tally[i]).1.spam == occurrences(
                days_where(emails, true),
                tally[i].0.days as int,
            )
            &&& tally[i].1.ham == occurrences(days_where(emails, false), tally[i].0.days as int)
            &&& tally[i].1.spam + tally[i].1.ham == occurrences(
                days_of(emails),
                tally[i].0.days as int,
            )
        }
}

/// Whether `rates` is the misclassification series of `emails`: for each day
/// with a message, in ascending date order, the ham count out of all
/// messages of that day.
pub open spec fn is_rate_series(emails: Seq<SpamEmail>, rates: Seq<(Date, Rate)>) -> bool {
    &&& is_binning(days_of(emails), Seq::new(rates.len(), |i: int| (rates[i].0.days, rates[i].1.total)))
    &&& forall|i: int|
        0 <= i < rates.len() ==> (#[trigger] rates[i]).1.part == occurrences(
            days_where(emails, false),
            rates[i].0.days as int,
        )
}

proof fn lemma_days_of_take_succ(emails: Seq<SpamEmail>, n: int)
    requires
        0 <= n < emails.len(),
    ensures
        days_of(emails.take(n + 1)) == days_of(emails.take(n)).push(emails[n].date_received.days),
        days_where(emails.take(n + 1), emails[n].is_spam) == days_where(
            emails.take(n),
            emails[n].is_spam,
        ).push(emails[n].date_received.days),
        days_where(emails.take(n + 1), !emails[n].is_spam) == days_where(
            emails.take(n),
            !emails[n].is_spam,
        ),
{
    assert(emails.take(n + 1).drop_last() =~= emails.take(n));
    assert(days_of(emails.take(n + 1)) =~= days_of(emails.take(n)).push(
        emails[n].date_received.days,
    ));
}

/// Whether a message classified as `spam` says was received on day `day`.
pub open spec fn has_record_on(emails: Seq<SpamEmail>, spam: bool, day: i32) -> bool {
    exists|i: int|
        0 <= i < emails.len() && (#[trigger] emails[i]).is_spam == spam
            && emails[i].date_received.days == day
}

/// The matching days are a selection of all days.
pub proof fn lemma_days_where_bounded(emails: Seq<SpamEmail>, spam: bool)
    ensures
        days_where(emails, spam).len() <= emails.len(),
        forall|j: int|
            0 <= j < days_where(emails, spam).len() ==> has_record_on(
                emails,
                spam,
                #[trigger] days_where(emails, spam)[j],
            ),
    decreases emails.len(),
{
    if emails.len() > 0 {
        let front = emails.drop_last();
        lemma_days_where_bounded(front, spam);
        assert forall|j: int| 0 <= j < days_where(emails, spam).len() implies has_record_on(
            emails,
            spam,
            #[trigger] days_where(emails, spam)[j],
        ) by {
            if j < days_where(front, spam).len() {
                assert(has_record_on(front, spam, days_where(front, spam)[j]));
                let i = choose|i: int|
                    0 <= i < front.len() && (#[trigger] front[i]).is_spam == spam
                        && front[i].date_received.days == days_where(front, spam)[j];
                assert(emails[i] == front[i]);
            } else {
                assert(emails[emails.len() - 1] == emails.last());
            }
        }
    }
}

/// Each message of a day is either spam or ham.
pub proof fn lemma_spam_and_ham_partition(emails: Seq<SpamEmail>, day: int)
    ensures
        occurrences(days_of(emails), day) == occurrences(days_where(emails, true), day)
            + occurrences(days_where(emails, false), day),
    decreases emails.len(),
{
    if emails.len() > 0 {
        let front = emails.drop_last();
        lemma_spam_and_ham_partition(front, day);
        assert(days_of(emails).drop_last() =~= days_of(front));
        let d = emails.last().date_received.days;
        assert(days_of(emails).last() == d);
        let same = days_where(front, emails.last().is_spam);
        assert(same.push(d).drop_last() =~= same);
    }
}

/// In the score distribution of messages, a bin between the smallest and
/// the largest observed one that no score falls into has its entry, with a
/// count of zero.
pub proof fn lemma_score_series_fills_gaps(emails: Seq<SpamEmail>, k: int)
    requires
        emails.len() > 0,
        min_key(buckets_of(emails)) < k < max_key(buckets_of(emails)),
        forall|i: int| 0 <= i < emails.len() ==> bucket_of((#[trigger] emails[i]).spam_result as int) != k,
    ensures
        score_series(buckets_of(emails)).len() == max_key(buckets_of(emails)) - min_key(
            buckets_of(emails),
        ) + 1,
        score_series(buckets_of(emails))[k - min_key(buckets_of(emails))] == (k as i32, 0usize),
{
    let buckets = buckets_of(emails);
    lemma_key_bounds(buckets);
    lemma_occurrences_positive(buckets, k);
    if occurrences(buckets, k) > 0 {
        let i = choose|i: int| 0 <= i < buckets.len() && buckets[i] as int == k;
        assert(bucket_of(emails[i].spam_result as int) == k);
    }
}

/// The bin of one score.
pub fn bucket_of_score(score: SpamResult) -> (bin: SpamResultBin)
    ensures
        bin == bucket_of(score as int),
{
    if score >= 0 {
        let whole: i64 = score / SCORE_SCALE;
        if whole > 0x7fff_ffff {
            i32::MAX
        } else {
            whole as i32
        }
    } else {
        let magnitude: u64 = ((-(score + 1)) as u64) + 1;
        let whole: u64 = magnitude / 1000;
        if whole > 0x8000_0000 {
            i32::MIN
        } else {
            (-(whole as i64)) as i32
        }
    }
}

/// The scores of the messages over integer-sized bins, in message order.
pub fn quantize_spam_results(emails: &Vec<SpamEmail>) -> (bins: Vec<SpamResultBin>)
    ensures
        bins@ == buckets_of(emails@),
{
    let mut bins: Vec<SpamResultBin> = Vec::new();
    let mut n: usize = 0;
    while n < emails.len()
        invariant
            n <= emails.len(),
            bins@.len() == n,
            forall|i: int| 0 <= i < n ==> bins@[i] == bucket_of(emails@[i].spam_result as int),
        decreases emails.len() - n,
    {
        bins.push(bucket_of_score(emails[n].spam_result));
        n += 1;
    }
    proof {
        assert(bins@ =~= buckets_of(emails@));
    }
    bins
}

/// The distribution of score bins as a dense series: every bin from the
/// smallest to the largest observed one has an entry, with zero for a bin
/// that no score fell into. No bins give an empty series.
pub fn score_distribution(buckets: &Vec<SpamResultBin>) -> (series: Vec<
    (SpamResultBin, Occurrences),
>)
    requires
        max_key(buckets@) - min_key(buckets@) < usize::MAX,
    ensures
        series@ == score_series(buckets@),
        buckets@.len() == 0 ==> series@.len() == 0,
        buckets@.len() > 0 ==> series@.len() == max_key(buckets@) - min_key(buckets@) + 1,
        forall|i: int|
            0 <= i < series@.len() ==> (#[trigger] series@[i]).0 == min_key(buckets@) + i
                && series@[i].1 == occurrences(buckets@, min_key(buckets@) + i),
{
    match key_bounds(buckets) {
        None => Vec::new(),
        Some((lo, hi)) => {
            dense_counts_between(buckets, lo, hi)
        },
    }
}

/// The days on which the messages were received, in message order.
pub fn days_received(emails: &Vec<SpamEmail>) -> (days: Vec<i32>)
    ensures
        days@ == days_of(emails@),
{
    let mut days: Vec<i32> = Vec::new();
    let mut n: usize = 0;
    while n < emails.len()
        invariant
            n <= emails.len(),
            days@.len() == n,
            forall|i: int| 0 <= i < n ==> days@[i] == emails@[i].date_received.days,
        decreases emails.len() - n,
    {
        days.push(emails[n].date_received.days);
        n += 1;
    }
    proof {
        assert(days@ =~= days_of(emails@));
    }
    days
}

/// The days on which the messages classified as `spam` says were received,
/// in message order.
pub fn days_received_where(emails: &Vec<SpamEmail>, spam: bool) -> (days: Vec<i32>)
    ensures
        days@ == days_where(emails@, spam),
{
    let mut days: Vec<i32> = Vec::new();
    let mut n: usize = 0;
    while n < emails.len()
        invariant
            n <= emails.len(),
            days@ == days_where(emails@.take(n as int), spam),
        decreases emails.len() - n,
    {
        proof {
            lemma_days_of_take_succ(emails@, n as int);
        }
        if emails[n].is_spam == spam {
            days.push(emails[n].date_received.days);
        }
        n += 1;
    }
    proof {
        assert(emails@.take(n as int) =~= emails@);
    }
    days
}

impl SpamEmail {
    /// A copy of this message.
    pub fn duplicate(&self) -> (copy: SpamEmail)
        ensures
            copy == *self,
    {
        SpamEmail {
            date_received: self.date_received,
            spam_result: self.spam_result,
            is_spam: self.is_spam,
            from: self.from.clone(),
        }
    }
}

/// Spam and ham counts for each day on which a message was received, in
/// ascending date order. Days without messages have no entry.
pub fn spam_counts(emails: &Vec<SpamEmail>) -> (tally: Vec<(Date, SpamCount)>)
    ensures
        is_daily_tally(emails@, tally@),
        emails@.len() == 0 ==> tally@.len() == 0,
        forall|i: int|
            0 <= i < tally@.len() ==> (#[trigger] tally@[i]).1.spam + tally@[i].1.ham > 0
                && tally@[i].1.spam + tally@[i].1.ham <= emails@.len(),
{
    let days = days_received(emails);
    let spam_days = days_received_where(emails, true);
    let bins = bin_keys(&days);
    let mut tally: Vec<(Date, SpamCount)> = Vec::new();
    let mut j: usize = 0;
    while j < bins.len()
        invariant
            j <= bins.len(),
            is_binning(days@, bins@),
            days@ == days_of(emails@),
            spam_days@ == days_where(emails@, true),
            tally@.len() == j,
            forall|i: int|
                0 <= i < j ==> {
                    &&& (#[trigger] tally@[i]).0.days == bins@[i].0
                    &&& tally@[i].1.spam + tally@[i].1.ham == bins@[i].1
                    &&& tally@[i].1.spam == occurrences(days_where(emails@, true), bins@[i].0 as int)
                    &&& tally@[i].1.ham == occurrences(days_where(emails@, false), bins@[i].0 as int)
                },
        decreases bins.len() - j,
    {
        let day: i32 = bins[j].0;
        let total: usize = bins[j].1;
        let spam: usize = count_key(&spam_days, day);
        proof {
            lemma_spam_and_ham_partition(emails@, day as int);
            assert(bins@[j as int].1 == occurrences(days@, day as int));
        }
        let ham: usize = total - spam;
        tally.push((Date { days: day }, SpamCount { spam, ham }));
        j += 1;
    }
    proof {
        let totals = Seq::new(
            tally@.len(),
            |i: int| (tally@[i].0.days, (tally@[i].1.spam + tally@[i].1.ham) as Occurrences),
        );
        assert(totals =~= bins@);
        assert forall|i: int| 0 <= i < tally@.len() implies (#[trigger] tally@[i]).1.spam
            + tally@[i].1.ham <= emails@.len() by {
            lemma_occurrences_bounded(days@, bins@[i].0 as int);
            assert(bins@[i].1 == occurrences(days@, bins@[i].0 as int));
        }
    }
    tally
}

/// For each day with a message, the ham count out of all messages received
/// that day, in ascending date order. The total is never zero and the part
/// never exceeds it, so the ratio lies between zero and one.
pub fn misclassification_rate(emails: &Vec<SpamEmail>) -> (rates: Vec<(Date, Rate)>)
    ensures
        is_rate_series(emails@, rates@),
        emails@.len() == 0 ==> rates@.len() == 0,
        forall|i: int|
            0 <= i < rates@.len() ==> 0 < (#[trigger] rates@[i]).1.total && rates@[i].1.part
                <= rates@[i].1.total,
{
    let tally = spam_counts(emails);
    let mut rates: Vec<(Date, Rate)> = Vec::new();
    let mut j: usize = 0;
    while j < tally.len()
        invariant
            j <= tally.len(),
            rates@.len() == j,
            emails@.len() == 0 ==> tally@.len() == 0,
            is_daily_tally(emails@, tally@),
            forall|i: int|
                0 <= i < tally@.len() ==> (#[trigger] tally@[i]).1.spam + tally@[i].1.ham > 0
                    && tally@[i].1.spam + tally@[i].1.ham <= emails@.len(),
            forall|i: int|
                0 <= i < j ==> {
                    &&& (#[trigger] rates@[i]).0 == tally@[i].0
                    &&& rates@[i].1.part == tally@[i].1.ham
                    &&& rates@[i].1.total == tally@[i].1.spam + tally@[i].1.ham
                },
        decreases tally.len() - j,
    {
        let date: Date = tally[j].0;
        let count: SpamCount = tally[j].1;
        assert(tally@[j as int].1.spam + tally@[j as int].1.ham <= emails@.len());
        let total: usize = count.spam + count.ham;
        rates.push((date, Rate { part: count.ham, total }));
        j += 1;
    }
    proof {
        let totals = Seq::new(rates@.len(), |i: int| (rates@[i].0.days, rates@[i].1.total));
        let sums = Seq::new(
            tally@.len(),
            |i: int| (tally@[i].0.days, (tally@[i].1.spam + tally@[i].1.ham) as Occurrences),
        );
        assert(totals =~= sums);
        assert forall|i: int| 0 <= i < rates@.len() implies (#[trigger] rates@[i]).1.part
            == occurrences(days_where(emails@, false), rates@[i].0.days as int) by {
            assert(rates@[i].1.part == tally@[i].1.ham);
        }
    }
    rates
}

/// The number of messages per day that are classified as `spam` says, as a
/// dense series: one entry for every calendar day from the first to the last
/// day of the scope, zero where no message matches. Without a matching
/// message the series is empty.
pub fn date_series(emails: &Vec<SpamEmail>, spam: bool, scope: DateScope) -> (series: Vec<
    (Date, Occurrences),
>)
    requires
        all_dated(emails@),
    ensures
        series@ == date_series_of(emails@, spam, scope),
        days_where(emails@, spam).len() == 0 ==> series@.len() == 0,
        forall|i: int|
            0 <= i < series@.len() - 1 ==> (#[trigger] series@[i + 1]).0.days == series@[i].0.days
                + 1,
        forall|i: int| 0 <= i < series@.len() ==> (#[trigger] series@[i]).0.is_valid(),
{
    let matching = days_received_where(emails, spam);
    if matching.len() == 0 {
        return Vec::new();
    }
    let all_days = days_received(emails);
    let bounds = match scope {
        DateScope::AllRecords => key_bounds(&all_days),
        DateScope::MatchingRecords => key_bounds(&matching),
    };
    let ghost range = scope_days(emails@, spam, scope);
    proof {
        lemma_days_where_bounded(emails@, spam);
        lemma_key_bounds(range);
        assert forall|i: int| 0 <= i < range.len() implies MIN_DAY <= #[trigger] range[i]
            <= MAX_DAY by {
            match scope {
                DateScope::AllRecords => {
                    assert(emails@[i].date_received.is_valid());
                },
                DateScope::MatchingRecords => {
                    assert(has_record_on(emails@, spam, days_where(emails@, spam)[i]));
                    let at = choose|at: int|
                        0 <= at < emails@.len() && (#[trigger] emails@[at]).is_spam == spam
                            && emails@[at].date_received.days == days_where(emails@, spam)[i];
                    assert(emails@[at].date_received.is_valid());
                },
            }
        }
    }
    match bounds {
        None => Vec::new(),
        Some((lo, hi)) => {
            let counts = dense_counts_between(&matching, lo, hi);
            let mut series: Vec<(Date, Occurrences)> = Vec::new();
            let mut j: usize = 0;
            while j < counts.len()
                invariant
                    j <= counts.len(),
                    series@.len() == j,
                    MIN_DAY <= lo <= hi <= MAX_DAY,
                    counts@.len() == hi - lo + 1,
                    forall|i: int|
                        0 <= i < counts@.len() ==> (#[trigger] counts@[i]).0 == lo + i
                            && counts@[i].1 == occurrences(matching@, lo + i),
                    forall|i: int|
                        0 <= i < j ==> (#[trigger] series@[i]) == (
                            Date { days: (lo + i) as i32 },
                            occurrences(matching@, lo + i) as Occurrences,
                        ),
                decreases counts.len() - j,
            {
                let day: i32 = counts[j].0;
                series.push((Date { days: day }, counts[j].1));
                j += 1;
            }
            proof {
                assert(series@ =~= date_series_of(emails@, spam, scope));
            }
            series
        },
    }
}

/// Whether `series` is the daily series of all messages: empty without
/// messages, else one entry for every calendar day from the first to the
/// last day on which a message was received, with the number of messages
/// received that day.
pub open spec fn is_received_series(emails: Seq<SpamEmail>, series: Seq<(Date, Occurrences)>) -> bool {
    &&& emails.len() == 0 ==> series.len() == 0
    &&& emails.len() > 0 ==> series.len() == max_key(days_of(emails)) - min_key(days_of(emails)) + 1
    &&& forall|i: int|
        0 <= i < series.len() ==> (#[trigger] series[i]).0.days == min_key(days_of(emails)) + i
            && series[i].1 == occurrences(days_of(emails), min_key(days_of(emails)) + i)
}

/// The number of messages received per day as a dense series: one entry for
/// every calendar day from the first to the last day on which a message was
/// received. Without messages the series is empty.
pub fn dates_received(emails: &Vec<SpamEmail>) -> (series: Vec<(Date, Occurrences)>)
    requires
        all_dated(emails@),
    ensures
        is_received_series(emails@, series@),
        forall|i: int|
            0 <= i < series@.len() - 1 ==> (#[trigger] series@[i + 1]).0.days == series@[i].0.days
                + 1,
{
    let days = days_received(emails);
    match key_bounds(&days) {
        None => Vec::new(),
        Some((lo, hi)) => {
            proof {
                lemma_key_bounds(days@);
                assert forall|i: int| 0 <= i < days@.len() implies MIN_DAY <= #[trigger] days@[i]
                    <= MAX_DAY by {
                    assert(emails@[i].date_received.is_valid());
                }
            }
            let counts = dense_counts_between(&days, lo, hi);
            let mut series: Vec<(Date, Occurrences)> = Vec::new();
            let mut j: usize = 0;
            while j < counts.len()
                invariant
                    j <= counts.len(),
                    series@.len() == j,
                    forall|i: int|
                        0 <= i < counts@.len() ==> (#[trigger] counts@[i]).0 == lo + i
                            && counts@[i].1 == occurrences(days@, lo + i),
                    forall|i: int|
                        0 <= i < j ==> (#[trigger] series@[i]).0.days == lo + i && series@[i].1
                            == occurrences(days@, lo + i),
                decreases counts.len() - j,
            {
                series.push((Date { days: counts[j].0 }, counts[j].1));
                j += 1;
            }
            series
        },
    }
}

/// Whether `kept` is what remains of `data` from its first message received
/// on or after day number `cutoff`: nothing when there is no such message.
pub open spec fn is_recent_part(data: Seq<SpamEmail>, cutoff: int, kept: Option<Vec<SpamEmail>>) -> bool {
    &&& kept is None <==> forall|j: int|
        0 <= j < data.len() ==> (#[trigger] data[j]).date_received.days < cutoff
    &&& kept matches Some(part) ==> exists|start: int|
        {
            &&& 0 <= start < data.len()
            &&& (#[trigger] data[start]).date_received.days >= cutoff
            &&& forall|j: int| 0 <= j < start ==> (#[trigger] data[j]).date_received.days < cutoff
            &&& part@ == data.subrange(start, data.len() as int)
        }
}

/// The messages from the first one received on or after the day `n_days`
/// before `today`, or `None` when there is no such message. On input in
/// ascending date order these are the messages of the last `n_days` days.
pub fn last_n_days_from(data: &Vec<SpamEmail>, today: Date, n_days: u64) -> (r: Option<
    Vec<SpamEmail>,
>)
    ensures
        is_recent_part(data@, today.days - n_days, r),
{
    let cutoff: i128 = (today.days as i128) - (n_days as i128);
    let mut start: usize = 0;
    while start < data.len() && (data[start].date_received.days as i128) < cutoff
        invariant
            start <= data.len(),
            cutoff == today.days - n_days,
            forall|j: int| 0 <= j < start ==> (#[trigger] data@[j]).date_received.days < cutoff,
        decreases data.len() - start,
    {
        start += 1;
    }
    if start == data.len() {
        return None;
    }
    let mut kept: Vec<SpamEmail> = Vec::new();
    let mut n: usize = start;
    while n < data.len()
        invariant
            start <= n <= data.len(),
            kept@ == data@.subrange(start as int, n as int),
        decreases data.len() - n,
    {
        kept.push(data[n].duplicate());
        proof {
            assert(data@.subrange(start as int, n + 1) =~= data@.subrange(
                start as int,
                n as int,
            ).push(data@[n as int]));
        }
        n += 1;
    }
    proof {
        assert(data@[start as int].date_received.days >= today.days - n_days);
    }
    Some(kept)
}

/// The messages of the last `n_days` days, counted back from the current
/// local date: see [`last_n_days_from`].
pub fn last_n_days(data: &Vec<SpamEmail>, n_days: u64) -> (r: Option<Vec<SpamEmail>>)
    ensures
        exists|today: Date| today.is_valid() && #[trigger] is_recent_part(data@, today.days - n_days, r),
        data@.len() == 0 ==> r is None,
{
    let today = Date::today();
    last_n_days_from(data, today, n_days)
}

/// Messages in ascending order of the date on which they were received.
pub open spec fn sorted_by_date(emails: Seq<SpamEmail>) -> bool {
    forall|i: int, j: int|
        0 <= i < j < emails.len() ==> (#[trigger] emails[i]).date_received.days <= (
        #[trigger] emails[j]).date_received.days
}

/// Every message carries a representable date whose week start is
/// representable too.
pub open spec fn can_rebucket(emails: Seq<SpamEmail>) -> bool {
    forall|i: int|
        0 <= i < emails.len() ==> (#[trigger] emails[i]).date_received.is_valid()
            && emails[i].date_received.has_week_start()
}

/// The message with its date moved back to the start of its week.
pub open spec fn rebucketed(email: SpamEmail) -> SpamEmail {
    SpamEmail {
        date_received: Date { days: email.date_received.week_start() as i32 },
        spam_result: email.spam_result,
        is_spam: email.is_spam,
        from: email.from,
    }
}

/// The day number before which messages fall out of the last `num` weeks:
/// `num - 1` whole weeks before the start of the week of `today`.
pub open spec fn week_cutoff(today: Date, num: u64) -> int {
    today.week_start() - 7 * (num - 1)
}

/// Whether `taken` holds, latest first and moved to their week starts, the
/// messages of the date-ordered `emails` from index `start` on, and these
/// are the ones whose week starts on or after `cutoff`.
pub open spec fn selects_weeks_from(
    emails: Seq<SpamEmail>,
    cutoff: int,
    taken: Seq<SpamEmail>,
    start: int,
) -> bool {
    &&& 0 <= start <= emails.len()
    &&& forall|j: int|
        start <= j < emails.len() ==> (#[trigger] emails[j]).date_received.week_start() >= cutoff
    &&& forall|j: int|
        0 <= j < start ==> (#[trigger] emails[j]).date_received.week_start() < cutoff
    &&& taken.len() == emails.len() - start
    &&& forall|i: int|
        0 <= i < taken.len() ==> #[trigger] taken[i] == rebucketed(emails[emails.len() - 1 - i])
}

/// Whether `taken` holds, latest first and moved to their week starts, those
/// of the date-ordered `emails` whose week starts on or after `cutoff`.
pub open spec fn is_week_selection(emails: Seq<SpamEmail>, cutoff: int, taken: Seq<SpamEmail>) -> bool {
    exists|start: int| #[trigger] selects_weeks_from(emails, cutoff, taken, start)
}

/// Re-bucketing puts every message on a Sunday, on or at most six days
/// before the day on which it was received, and changes nothing else.
pub proof fn lemma_rebucketed_on_sunday(email: SpamEmail)
    requires
        email.date_received.is_valid(),
        email.date_received.has_week_start(),
    ensures
        rebucketed(email).date_received.weekday() == 0,
        rebucketed(email).date_received.is_valid(),
        rebucketed(email).date_received.days <= email.date_received.days < rebucketed(
            email,
        ).date_received.days + 7,
        rebucketed(email).spam_result == email.spam_result,
        rebucketed(email).is_spam == email.is_spam,
        rebucketed(email).from == email.from,
{
}

/// A later date never has an earlier week start.
pub proof fn lemma_week_start_monotonic(a: Date, b: Date)
    requires
        a.days <= b.days,
    ensures
        a.week_start() <= b.week_start(),
{
}

/// The messages received on day `day`, in their order.
pub open spec fn received_on(emails: Seq<SpamEmail>, day: int) -> Seq<SpamEmail>
    decreases emails.len(),
{
    if emails.len() == 0 {
        Seq::empty()
    } else {
        let front = received_on(emails.drop_last(), day);
        if emails.last().date_received.days == day {
            front.push(emails.last())
        } else {
            front
        }
    }
}

/// Whether `sorted` holds the messages of `emails` in ascending date order,
/// those of one day in the order in which they stand in `emails`.
pub open spec fn is_date_ordering(emails: Seq<SpamEmail>, sorted: Seq<SpamEmail>) -> bool {
    &&& sorted_by_date(sorted)
    &&& sorted.len() == emails.len()
    &&& forall|day: int| #[trigger] received_on(sorted, day) == received_on(emails, day)
}

proof fn lemma_received_on_insert(emails: Seq<SpamEmail>, at: int, email: SpamEmail, day: int)
    requires
        0 <= at <= emails.len(),
        forall|i: int| 0 <= i < at ==> (#[trigger] emails[i]).date_received.days != day,
    ensures
        received_on(emails.insert(at, email), day) == if email.date_received.days == day {
            seq![email] + received_on(emails, day)
        } else {
            received_on(emails, day)
        },
    decreases emails.len(),
{
    let inserted = emails.insert(at, email);
    if at == emails.len() {
        assert(inserted.drop_last() =~= emails);
        assert(inserted.last() == email);
        lemma_received_on_none(emails, day);
        assert(received_on(emails, day).push(email) =~= seq![email] + received_on(emails, day));
    } else {
        let front = emails.drop_last();
        assert(inserted.drop_last() =~= front.insert(at, email));
        assert(inserted.last() == emails.last());
        lemma_received_on_insert(front, at, email, day);
        if email.date_received.days == day {
            assert((seq![email] + received_on(front, day)).push(emails.last()) =~= seq![email]
                + received_on(front, day).push(emails.last()));
        }
    }
}

proof fn lemma_received_on_other_day(emails: Seq<SpamEmail>, at: int, email: SpamEmail, day: int)
    requires
        0 <= at <= emails.len(),
        email.date_received.days != day,
    ensures
        received_on(emails.insert(at, email), day) == received_on(emails, day),
    decreases emails.len(),
{
    let inserted = emails.insert(at, email);
    if at == emails.len() {
        assert(inserted.drop_last() =~= emails);
        assert(inserted.last() == email);
    } else {
        let front = emails.drop_last();
        assert(inserted.drop_last() =~= front.insert(at, email));
        assert(inserted.last() == emails.last());
        lemma_received_on_other_day(front, at, email, day);
    }
}

proof fn lemma_received_on_none(emails: Seq<SpamEmail>, day: int)
    requires
        forall|i: int| 0 <= i < emails.len() ==> (#[trigger] emails[i]).date_received.days != day,
    ensures
        received_on(emails, day) == Seq::<SpamEmail>::empty(),
    decreases emails.len(),
{
    if emails.len() > 0 {
        let front = emails.drop_last();
        assert forall|i: int| 0 <= i < front.len() implies (#[trigger] front[i]).date_received.days
            != day by {
            assert(front[i] == emails[i]);
        }
        lemma_received_on_none(front, day);
        assert(emails[emails.len() - 1] == emails.last());
    }
}

/// Orders messages by the date on which they were received, earliest first,
/// keeping the messages of one day in their order.
fn sort_by_date(emails: Vec<SpamEmail>) -> (sorted: Vec<SpamEmail>)
    ensures
        is_date_ordering(emails@, sorted@),
        sorted@.to_multiset() == emails@.to_multiset(),
        can_rebucket(emails@) ==> can_rebucket(sorted@),
{
    broadcast use vstd::multiset::group_multiset_axioms;

    let ghost input = emails@;
    let mut rest = emails;
    let mut sorted: Vec<SpamEmail> = Vec::new();
    proof {
        vstd::seq_lib::to_multiset_len(sorted@);
        assert(sorted@.to_multiset().add(rest@.to_multiset()) =~= input.to_multiset());
    }
    proof {
        assert(rest@ == input);
        assert forall|day: int| #[trigger]
            received_on(rest@, day) + received_on(sorted@, day) == received_on(input, day) by {
            assert(received_on(rest@, day) + Seq::<SpamEmail>::empty() =~= received_on(rest@, day));
        }
    }
    while rest.len() > 0
        invariant
            sorted_by_date(sorted@),
            sorted@.len() + rest@.len() == input.len(),
            forall|day: int| #[trigger]
                received_on(rest@, day) + received_on(sorted@, day) == received_on(input, day),
            sorted@.to_multiset().add(rest@.to_multiset()) == input.to_multiset(),
            can_rebucket(input) ==> can_rebucket(sorted@) && can_rebucket(rest@),
        decreases rest.len(),
    {
        let ghost rest_before = rest@;
        let ghost sorted_before = sorted@;
        let email = rest.pop().unwrap();
        let mut p: usize = 0;
        while p < sorted.len() && sorted[p].date_received.days < email.date_received.days
            invariant
                p <= sorted.len(),
                forall|i: int|
                    0 <= i < p ==> (#[trigger] sorted@[i]).date_received.days
                        < email.date_received.days,
            decreases sorted.len() - p,
        {
            p += 1;
        }
        sorted.insert(p, email);
        proof {
            assert(rest_before =~= rest@.push(email));
            assert(rest_before.drop_last() =~= rest@);
            assert forall|day: int| #[trigger]
                received_on(rest@, day) + received_on(sorted@, day) == received_on(input, day) by {
                assert(received_on(rest_before, day) + received_on(sorted_before, day)
                    == received_on(input, day));
                if email.date_received.days == day {
                    assert forall|i: int| 0 <= i < p implies (
                    #[trigger] sorted_before[i]).date_received.days != day by {}
                    lemma_received_on_insert(sorted_before, p as int, email, day);
                    assert(received_on(rest@, day).push(email) + received_on(sorted_before, day)
                        =~= received_on(rest@, day) + (seq![email] + received_on(
                        sorted_before,
                        day,
                    )));
                } else {
                    lemma_received_on_other_day(sorted_before, p as int, email, day);
                }
            }
            vstd::seq_lib::to_multiset_build(rest@, email);
            vstd::seq_lib::to_multiset_insert(sorted_before, p as int, email);
            assert(sorted@.to_multiset().add(rest@.to_multiset()) =~= sorted_before.to_multiset().add(
                rest_before.to_multiset(),
            ));
            assert forall|i: int, j: int| 0 <= i < j < sorted@.len() implies (
            #[trigger] sorted@[i]).date_received.days <= (#[trigger] sorted@[j]).date_received.days by {
                if i < p {
                    assert(sorted@[i] == sorted_before[i]);
                } else if i > p {
                    assert(sorted@[i] == sorted_before[i - 1]);
                }
                if j < p {
                    assert(sorted@[j] == sorted_before[j]);
                } else if j > p {
                    assert(sorted@[j] == sorted_before[j - 1]);
                    if p < sorted_before.len() {
                        assert(sorted_before[p as int].date_received.days
                            <= sorted_before[j - 1].date_received.days);
                    }
                }
            }
            if can_rebucket(input) {
                assert(rest_before[rest_before.len() - 1] == email);
                assert forall|i: int| 0 <= i < sorted@.len() implies (
                #[trigger] sorted@[i]).date_received.is_valid()
                    && sorted@[i].date_received.has_week_start() by {
                    if i < p {
                        assert(sorted@[i] == sorted_before[i]);
                    } else if i > p {
                        assert(sorted@[i] == sorted_before[i - 1]);
                    }
                }
                assert forall|i: int| 0 <= i < rest@.len() implies (
                #[trigger] rest@[i]).date_received.is_valid()
                    && rest@[i].date_received.has_week_start() by {
                    assert(rest@[i] == rest_before[i]);
                }
            }
        }
    }
    proof {
        vstd::seq_lib::to_multiset_len(rest@);
        assert(sorted@.to_multiset().add(rest@.to_multiset()) =~= sorted@.to_multiset());
        assert forall|day: int| #[trigger] received_on(sorted@, day) == received_on(input, day) by {
            assert(received_on(rest@, day) + received_on(sorted@, day) == received_on(input, day));
            assert(Seq::<SpamEmail>::empty() + received_on(sorted@, day) =~= received_on(
                sorted@,
                day,
            ));
        }
    }
    sorted
}

/// Messages in ascending date order, handed out latest first with each date
/// moved back to the Sunday that starts its week.
pub struct WeeklyBinIter {
    pub emails: Vec<SpamEmail>,
}

impl WeeklyBinIter {
    /// The messages are in ascending date order and each can be moved to its
    /// week start.
    pub open spec fn wf(&self) -> bool {
        sorted_by_date(self.emails@) && can_rebucket(self.emails@)
    }

    /// Hands out the latest remaining message, its date moved back to the
    /// start of its week; `None` when no message remains.
    pub fn next(&mut self) -> (r: Option<SpamEmail>)
        requires
            old(self).wf(),
        ensures
            final(self).wf(),
            old(self).emails@.len() == 0 ==> r is None && final(self).emails@ == old(self).emails@,
            old(self).emails@.len() > 0 ==> r == Some(rebucketed(old(self).emails@.last()))
                && final(self).emails@ == old(self).emails@.drop_last(),
            r matches Some(email) ==> email.date_received.weekday() == 0
                && email.date_received.is_valid(),
    {
        match self.emails.pop() {
            None => None,
            Some(email) => {
                let sunday = match email.date_received.previous_sunday() {
                    Some(sunday) => sunday,
                    None => email.date_received,
                };
                Some(
                    SpamEmail {
                        date_received: sunday,
                        spam_result: email.spam_result,
                        is_spam: email.is_spam,
                        from: email.from,
                    },
                )
            },
        }
    }

    /// The remaining messages of the last `num` weeks as of `today`, one
    /// week or more, latest first, each moved to its week start: those whose
    /// week starts no earlier than `num - 1` whole weeks before the week of
    /// `today`.
    pub fn take_weeks_from(self, today: Date, num: u64) -> (taken: Vec<SpamEmail>)
        requires
            self.wf(),
            today.is_valid(),
            num >= 1,
        ensures
            is_week_selection(self.emails@, week_cutoff(today, num), taken@),
            forall|i: int|
                0 <= i < taken@.len() ==> (#[trigger] taken@[i]).date_received.weekday() == 0,
    {
        let ghost all = self.emails@;
        let weekday: u32 = today.weekday_from_sunday();
        let cutoff: i128 = (today.days as i128) - (weekday as i128) - 7 * ((num - 1) as i128);
        let mut emails = self.emails;
        let mut taken: Vec<SpamEmail> = Vec::new();
        let mut done: bool = false;
        while !done && emails.len() > 0
            invariant
                cutoff == week_cutoff(today, num),
                sorted_by_date(all),
                can_rebucket(all),
                emails@.len() <= all.len(),
                emails@ == all.take(emails@.len() as int),
                taken@.len() == all.len() - emails@.len(),
                forall|j: int|
                    emails@.len() <= j < all.len() ==> (#[trigger] all[j]).date_received.week_start()
                        >= cutoff,
                forall|i: int|
                    0 <= i < taken@.len() ==> #[trigger] taken@[i] == rebucketed(
                        all[all.len() - 1 - i],
                    ),
                done ==> emails@.len() > 0 && emails@.last().date_received.week_start() < cutoff,
            decreases emails.len() + (if done { 0int } else { 1int }),
        {
            let last: usize = emails.len() - 1;
            assert(emails@[last as int] == all[last as int]);
            let start = emails[last].date_received.previous_sunday();
            match start {
                Some(sunday) => {
                    if (sunday.days as i128) < cutoff {
                        done = true;
                    } else {
                        let email = emails.pop().unwrap();
                        taken.push(
                            SpamEmail {
                                date_received: sunday,
                                spam_result: email.spam_result,
                                is_spam: email.is_spam,
                                from: email.from,
                            },
                        );
                        proof {
                            assert(emails@ =~= all.take(emails@.len() as int));
                        }
                    }
                },
                None => {
                    done = true;
                },
            }
        }
        proof {
            let start = emails@.len() as int;
            assert forall|j: int| 0 <= j < start implies (#[trigger] all[j]).date_received.week_start()
                < cutoff by {
                assert(emails@.last() == all[start - 1]);
                lemma_week_start_monotonic(all[j].date_received, all[start - 1].date_received);
            }
            assert(selects_weeks_from(all, cutoff as int, taken@, start));
        }
        taken
    }

    /// The remaining messages of the last `num` weeks, one week or more, as
    /// of the current local date: see [`WeeklyBinIter::take_weeks_from`].
    pub fn take_weeks(self, num: u64) -> (taken: Vec<SpamEmail>)
        requires
            self.wf(),
            num >= 1,
        ensures
            exists|today: Date|
                today.is_valid() && #[trigger] is_week_selection(
                    self.emails@,
                    week_cutoff(today, num),
                    taken@,
                ),
            forall|i: int|
                0 <= i < taken@.len() ==> (#[trigger] taken@[i]).date_received.weekday() == 0,
    {
        let today = Date::today();
        self.take_weeks_from(today, num)
    }
}

/// Collections of messages that can be put into weekly bins.
pub trait WeeklyBins: Sized {
    /// The messages of the collection.
    spec fn records(self) -> Seq<SpamEmail>;

    /// The messages ordered by date, ready to be handed out week by week.
    fn weekly_bins(self) -> (bins: WeeklyBinIter)
        requires
            can_rebucket(self.records()),
        ensures
            bins.wf(),
            is_date_ordering(self.records(), bins.emails@),
            bins.emails@.to_multiset() == self.records().to_multiset(),
    ;
}

impl WeeklyBins for Vec<SpamEmail> {
    open spec fn records(self) -> Seq<SpamEmail> {
        self@
    }

    fn weekly_bins(self) -> (bins: WeeklyBinIter) {
        WeeklyBinIter { emails: sort_by_date(self) }
    }
}

/// Collections of keys that can be grouped into occurrence counts.
pub trait IntoBins<K: Key>: Sized {
    /// The keys of the collection.
    spec fn keys(self) -> Seq<K::V>;

    /// One entry for each distinct key, sorted ascending by key, with the
    /// number of times the key occurs. No gaps are filled.
    fn into_bins(self) -> (bins: Vec<(K, Occurrences)>)
        ensures
            is_key_binning(self.keys(), bins@),
    ;
}

impl<K: Key> IntoBins<K> for Vec<K> {
    open spec fn keys(self) -> Seq<K::V> {
        key_views(self@)
    }

    fn into_bins(self) -> (bins: Vec<(K, Occurrences)>) {
        bin_by(self)
    }
}

} // verus!
