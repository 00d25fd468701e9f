//! The charts of a report: what each one shows and how it is titled.

use crate::calendar::Date;
use crate::plot::{Color, Quantity, Slice};
use crate::rspamd::MessageActions;
use crate::series::{max_key, min_key, Occurrences};
use crate::statistics::{
    all_dated, buckets_of, dates_received, is_rate_series, is_received_series,
    misclassification_rate, quantize_spam_results, score_distribution, score_series, Rate,
    SpamEmail, SpamResult, SpamResultBin,
};
use crate::text::{decimal_digits, decimal_string};
use vstd::prelude::*;
use vstd::string::*;

verus! {

/// The quotient of `n` by `d` rounded to the nearest whole number, a tie
/// going to the even one.
pub open spec fn rounded_quotient(n: nat, d: nat) -> nat {
    let q = n / d;
    let r = n % d;
    if 2 * r > d || (2 * r == d && q % 2 == 1) {
        q + 1
    } else {
        q
    }
}

/// A share of `part` in a `total` that is not zero, as a percentage with
/// one decimal place.
pub open spec fn percent_text(part: nat, total: nat) -> Seq<char>
    recommends
        total > 0,
{
    let tenths = rounded_quotient(part * 1000, total);
    decimal_digits(tenths / 10) + "."@ + decimal_digits(tenths % 10)
}

/// The legend text of a slice: its name, its count, and its share.
pub open spec fn slice_label(name: Seq<char>, part: nat, total: nat) -> Seq<char>
    recommends
        total > 0,
{
    name + " ("@ + decimal_digits(part) + ", "@ + percent_text(part, total) + "%)"@
}

/// A title that ends in the name of the mail domain.
pub open spec fn titled(title: Seq<char>, domain: Seq<char>) -> Seq<char> {
    title + domain
}

/// Writes the legend text of a slice.
fn make_label(name: &str, part: usize, total: usize) -> (label: String)
    requires
        part <= total,
        total > 0,
    ensures
        label@ == slice_label(name@, part as nat, total as nat),
{
    let mut label: String = String::from_str(name);
    label.append(" (");
    label.append(decimal_string(part).as_str());
    label.append(", ");
    let n: u128 = (part as u128) * 1000;
    let d: u128 = total as u128;
    let q: u128 = n / d;
    let r: u128 = n % d;
    proof {
        assert(q <= 1000) by (nonlinear_arith)
            requires
                q == n / d,
                n == part * 1000,
                d == total,
                0 < d,
                part <= total,
        ;
    }
    let tenths: u128 = if 2 * r > d || (2 * r == d && q % 2 == 1) {
        q + 1
    } else {
        q
    };
    let whole: usize = (tenths / 10) as usize;
    let tenth: usize = (tenths % 10) as usize;
    label.append(decimal_string(whole).as_str());
    label.append(".");
    label.append(decimal_string(tenth).as_str());
    label.append("%)");
    proof {
        assert(label@ =~= slice_label(name@, part as nat, total as nat));
    }
    label
}

/// Whether `slice` shows `part` of `total` messages under the given name
/// and color.
pub open spec fn is_action_slice(slice: Slice, name: Seq<char>, color: Color, part: usize, total: int) -> bool {
    &&& slice.label@ == slice_label(name, part as nat, total as nat)
    &&& slice.color == color
    &&& slice.ratio == (Rate { part, total: total as usize })
}

/// Whether `slices` is the breakdown of the actions: messages let through
/// in green, greylisted in blue, marked as spam in orange, and rejected in
/// red, in this order, each labelled with its count and share.
pub open spec fn is_action_breakdown(actions: MessageActions, slices: Seq<Slice>) -> bool {
    &&& slices.len() == 4
    &&& is_action_slice(slices[0], "No Action"@, Color::Green, actions.no_action, actions.total())
    &&& is_action_slice(slices[1], "Greylist"@, Color::Blue, actions.greylist, actions.total())
    &&& is_action_slice(
        slices[2],
        "Mark as Spam"@,
        Color::Orange,
        actions.add_header,
        actions.total(),
    )
    &&& is_action_slice(slices[3], "Reject"@, Color::Red, actions.reject, actions.total())
}

/// The share of each action as the slices of a pie chart. There are no
/// shares of nothing: some action was taken on some message.
pub fn action_breakdown(actions: MessageActions) -> (slices: Vec<Slice>)
    requires
        0 < actions.total() <= usize::MAX,
    ensures
        is_action_breakdown(actions, slices@),
{
    let total: usize = actions.no_action + actions.greylist + actions.add_header + actions.reject;
    let mut slices: Vec<Slice> = Vec::new();
    slices.push(
        Slice {
            label: make_label("No Action", actions.no_action, total),
            color: Color::Green,
            ratio: Rate { part: actions.no_action, total },
        },
    );
    slices.push(
        Slice {
            label: make_label("Greylist", actions.greylist, total),
            color: Color::Blue,
            ratio: Rate { part: actions.greylist, total },
        },
    );
    slices.push(
        Slice {
            label: make_label("Mark as Spam", actions.add_header, total),
            color: Color::Orange,
            ratio: Rate { part: actions.add_header, total },
        },
    );
    slices.push(
        Slice {
            label: make_label("Reject", actions.reject, total),
            color: Color::Red,
            ratio: Rate { part: actions.reject, total },
        },
    );
    slices
}

/// A title followed by the name of the mail domain.
fn title_for(title: &str, domain: &str) -> (name: String)
    ensures
        name@ == titled(title@, domain@),
{
    let mut name: String = String::from_str(title);
    name.append(domain);
    name
}

/// Whether `chart` is the pie chart of the filter's actions for the mail
/// domain.
pub open spec fn is_action_chart(
    domain: Seq<char>,
    actions: MessageActions,
    chart: Quantity<Vec<Slice>>,
) -> bool {
    &&& chart.name@ == titled("Breakdown of Rspamd Actions for "@, domain)
    &&& chart.domain@ == "Action"@
    &&& chart.range@ == "Percentage"@
    &&& is_action_breakdown(actions, chart.data@)
}

/// The pie chart of the filter's actions.
pub fn action_chart(domain: &str, actions: MessageActions) -> (chart: Quantity<Vec<Slice>>)
    requires
        0 < actions.total() <= usize::MAX,
    ensures
        is_action_chart(domain@, actions, chart),
{
    Quantity {
        name: title_for("Breakdown of Rspamd Actions for ", domain),
        domain: String::from_str("Action"),
        range: String::from_str("Percentage"),
        data: action_breakdown(actions),
    }
}

/// The dated scores of the messages, in message order.
pub open spec fn dated_scores(emails: Seq<SpamEmail>) -> Seq<(Date, SpamResult)> {
    Seq::new(emails.len(), |i: int| (emails[i].date_received, emails[i].spam_result))
}

/// The charts that are drawn from the messages of a mailbox.
pub struct MailboxCharts {
    /// Histogram of the scores over integer bins.
    pub score_distribution: Quantity<Vec<(SpamResultBin, Occurrences)>>,
    /// Line chart of the share of ham per day.
    pub misclassification_rate: Quantity<Vec<(Date, Rate)>>,
    /// Box plot of the scores of each day.
    pub daily_scores: Quantity<Vec<(Date, SpamResult)>>,
    /// Histogram of the number of messages per day.
    pub daily_received: Quantity<Vec<(Date, Occurrences)>>,
}

/// All the charts of a report.
pub struct ReportCharts {
    /// Pie chart of the filter's actions.
    pub actions: Quantity<Vec<Slice>>,
    /// The charts drawn from the messages.
    pub mailbox: MailboxCharts,
}

/// Whether `c` holds the charts of the messages for the mail domain: the
/// dense distribution of score bins, the share of ham per day, the scores
/// with their dates, and the dense number of messages per day, each under
/// its title and axis labels.
pub open spec fn is_mailbox_charts(domain: Seq<char>, emails: Seq<SpamEmail>, c: MailboxCharts) -> bool {
    &&& c.score_distribution.name@ == titled("X-Spam-Result Distribution for "@, domain)
    &&& c.score_distribution.domain@ == "Spam Result"@
    &&& c.score_distribution.range@ == "Occurrences"@
    &&& c.score_distribution.data@ == score_series(buckets_of(emails))
    &&& c.misclassification_rate.name@ == titled("Spam Misclassification Rate for "@, domain)
    &&& c.misclassification_rate.domain@ == "Date"@
    &&& c.misclassification_rate.range@ == "Percent"@
    &&& is_rate_series(emails, c.misclassification_rate.data@)
    &&& c.daily_scores.name@ == titled("Daily Spam Results for "@, domain)
    &&& c.daily_scores.domain@ == "Date"@
    &&& c.daily_scores.range@ == "X-Spam-Result"@
    &&& c.daily_scores.data@ == dated_scores(emails)
    &&& c.daily_received.name@ == titled("Daily Received Spam for "@, domain)
    &&& c.daily_received.domain@ == "Date"@
    &&& c.daily_received.range@ == "Occurrences"@
    &&& is_received_series(emails, c.daily_received.data@)
}

/// The charts for the messages of a mailbox, or `None` when there are no
/// messages: without data no chart is drawn.
pub fn mailbox_charts(domain: &str, emails: &Vec<SpamEmail>) -> (charts: Option<MailboxCharts>)
    requires
        all_dated(emails@),
        max_key(buckets_of(emails@)) - min_key(buckets_of(emails@)) < usize::MAX,
    ensures
        charts is None <==> emails@.len() == 0,
        charts matches Some(c) ==> is_mailbox_charts(domain@, emails@, c),
{
    if emails.len() == 0 {
        return None;
    }
    let buckets = quantize_spam_results(emails);
    let mut scores: Vec<(Date, SpamResult)> = Vec::new();
    let mut n: usize = 0;
    while n < emails.len()
        invariant
            n <= emails.len(),
            scores@.len() == n,
            forall|i: int|
                0 <= i < n ==> scores@[i] == (emails@[i].date_received, emails@[i].spam_result),
        decreases emails.len() - n,
    {
        scores.push((emails[n].date_received, emails[n].spam_result));
        n += 1;
    }
    proof {
        assert(scores@ =~= dated_scores(emails@));
    }
    Some(
        MailboxCharts {
            score_distribution: Quantity {
                name: title_for("X-Spam-Result Distribution for ", domain),
                domain: String::from_str("Spam Result"),
                range: String::from_str("Occurrences"),
                data: score_distribution(&buckets),
            },
            misclassification_rate: Quantity {
                name: title_for("Spam Misclassification Rate for ", domain),
                domain: String::from_str("Date"),
                range: String::from_str("Percent"),
                data: misclassification_rate(emails),
            },
            daily_scores: Quantity {
                name: title_for("Daily Spam Results for ", domain),
                domain: String::from_str("Date"),
                range: String::from_str("X-Spam-Result"),
                data: scores,
            },
            daily_received: Quantity {
                name: title_for("Daily Received Spam for ", domain),
                domain: String::from_str("Date"),
                range: String::from_str("Occurrences"),
                data: dates_received(emails),
            },
        },
    )
}

/// All the charts of a report, or `None` when there are no messages: then
/// there is no data to report on, and no chart at all is drawn, the one of
/// the filter's actions included. With messages, the filter has taken some
/// action on some message.
pub fn report_charts(domain: &str, actions: MessageActions, emails: &Vec<SpamEmail>) -> (r: Option<
    ReportCharts,
>)
    requires
        actions.total() <= usize::MAX,
        emails@.len() > 0 ==> actions.total() > 0,
        all_dated(emails@),
        max_key(buckets_of(emails@)) - min_key(buckets_of(emails@)) < usize::MAX,
    ensures
        r is None <==> emails@.len() == 0,
        r matches Some(c) ==> is_action_chart(domain@, actions, c.actions) && is_mailbox_charts(
            domain@,
            emails@,
            c.mailbox,
        ),
{
    match mailbox_charts(domain, emails) {
        None => None,
        Some(mailbox) => Some(ReportCharts { actions: action_chart(domain, actions), mailbox }),
    }
}

} // verus!
