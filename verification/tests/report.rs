use chrono::{Datelike, NaiveDate};
use spam_stats::calendar::Date;
use spam_stats::plot::Color;
use spam_stats::report::{action_breakdown, action_chart, mailbox_charts, report_charts};
use spam_stats::rspamd::MessageActions;
use spam_stats::statistics::{Rate, SpamEmail};

fn date(year: i32, month: u32, day: u32) -> Date {
    Date { days: NaiveDate::from_ymd_opt(year, month, day).unwrap().num_days_from_ce() }
}

fn labels(actions: MessageActions) -> Vec<String> {
    action_breakdown(actions).into_iter().map(|slice| slice.label).collect()
}

#[test]
fn action_breakdown_labels_and_colors() {
    let actions = MessageActions { reject: 100, greylist: 250, add_header: 150, no_action: 500 };
    let slices = action_breakdown(actions);
    assert_eq!(slices.len(), 4);
    assert_eq!(slices[0].label, "No Action (500, 50.0%)");
    assert_eq!(slices[0].color, Color::Green);
    assert_eq!(slices[0].ratio, Rate { part: 500, total: 1000 });
    assert_eq!(slices[1].label, "Greylist (250, 25.0%)");
    assert_eq!(slices[1].color, Color::Blue);
    assert_eq!(slices[1].ratio, Rate { part: 250, total: 1000 });
    assert_eq!(slices[2].label, "Mark as Spam (150, 15.0%)");
    assert_eq!(slices[2].color, Color::Orange);
    assert_eq!(slices[2].ratio, Rate { part: 150, total: 1000 });
    assert_eq!(slices[3].label, "Reject (100, 10.0%)");
    assert_eq!(slices[3].color, Color::Red);
    assert_eq!(slices[3].ratio, Rate { part: 100, total: 1000 });
}

#[test]
fn action_breakdown_rounds_to_one_place() {
    let actions = MessageActions { reject: 1, greylist: 1, add_header: 1, no_action: 0 };
    assert_eq!(
        labels(actions),
        vec![
            "No Action (0, 0.0%)",
            "Greylist (1, 33.3%)",
            "Mark as Spam (1, 33.3%)",
            "Reject (1, 33.3%)",
        ]
    );
    let actions = MessageActions { reject: 2, greylist: 0, add_header: 0, no_action: 1 };
    assert_eq!(labels(actions)[3], "Reject (2, 66.7%)");
    assert_eq!(labels(actions)[0], "No Action (1, 33.3%)");
}

#[test]
fn action_breakdown_rounds_ties_to_even() {
    // 1 of 16 is 6.25 %, 3 of 16 is 18.75 %.
    let actions = MessageActions { reject: 1, greylist: 3, add_header: 12, no_action: 0 };
    let labels = labels(actions);
    assert_eq!(labels[3], "Reject (1, 6.2%)");
    assert_eq!(labels[1], "Greylist (3, 18.8%)");
    assert_eq!(labels[2], "Mark as Spam (12, 75.0%)");
}

#[test]
fn action_breakdown_of_one_action_only() {
    let actions = MessageActions { reject: 7, greylist: 0, add_header: 0, no_action: 0 };
    assert_eq!(labels(actions)[3], "Reject (7, 100.0%)");
}

#[test]
fn action_chart_is_titled_for_the_domain() {
    let actions = MessageActions { reject: 1, greylist: 2, add_header: 3, no_action: 4 };
    let chart = action_chart("example.org", actions);
    assert_eq!(chart.name, "Breakdown of Rspamd Actions for example.org");
    assert_eq!(chart.domain, "Action");
    assert_eq!(chart.range, "Percentage");
    assert_eq!(chart.data.len(), 4);
    assert_eq!(chart.data[0].label, "No Action (4, 40.0%)");
}

#[test]
fn mailbox_charts_without_messages() {
    assert!(mailbox_charts("example.org", &vec![]).is_none());
}

#[test]
fn mailbox_charts_of_a_mailbox() {
    let emails = vec![
        SpamEmail {
            date_received: date(2024, 1, 1),
            spam_result: 7300,
            is_spam: true,
            from: "a@x.com".to_string(),
        },
        SpamEmail {
            date_received: date(2024, 1, 3),
            spam_result: 5100,
            is_spam: false,
            from: "b@x.com".to_string(),
        },
    ];
    let charts = mailbox_charts("example.org", &emails).unwrap();
    assert_eq!(charts.score_distribution.name, "X-Spam-Result Distribution for example.org");
    assert_eq!(charts.score_distribution.domain, "Spam Result");
    assert_eq!(charts.score_distribution.range, "Occurrences");
    assert_eq!(charts.score_distribution.data, vec![(5, 1), (6, 0), (7, 1)]);
    assert_eq!(charts.misclassification_rate.name, "Spam Misclassification Rate for example.org");
    assert_eq!(charts.misclassification_rate.domain, "Date");
    assert_eq!(charts.misclassification_rate.range, "Percent");
    assert_eq!(
        charts.misclassification_rate.data,
        vec![
            (date(2024, 1, 1), Rate { part: 0, total: 1 }),
            (date(2024, 1, 3), Rate { part: 1, total: 1 }),
        ]
    );
    assert_eq!(charts.daily_scores.name, "Daily Spam Results for example.org");
    assert_eq!(charts.daily_scores.domain, "Date");
    assert_eq!(charts.daily_scores.range, "X-Spam-Result");
    assert_eq!(charts.daily_scores.data, vec![(date(2024, 1, 1), 7300), (date(2024, 1, 3), 5100)]);
    assert_eq!(charts.daily_received.name, "Daily Received Spam for example.org");
    assert_eq!(charts.daily_received.domain, "Date");
    assert_eq!(charts.daily_received.range, "Occurrences");
    assert_eq!(
        charts.daily_received.data,
        vec![(date(2024, 1, 1), 1), (date(2024, 1, 2), 0), (date(2024, 1, 3), 1)]
    );
}

#[test]
fn report_charts_without_messages() {
    let actions = MessageActions { reject: 1, greylist: 2, add_header: 3, no_action: 4 };
    assert!(report_charts("example.org", actions, &vec![]).is_none());
    let none = MessageActions { reject: 0, greylist: 0, add_header: 0, no_action: 0 };
    assert!(report_charts("example.org", none, &vec![]).is_none());
}

#[test]
fn report_charts_of_a_mailbox() {
    let actions = MessageActions { reject: 1, greylist: 2, add_header: 3, no_action: 4 };
    let emails = vec![
        SpamEmail {
            date_received: date(2024, 2, 28),
            spam_result: -1200,
            is_spam: false,
            from: "a@x.com".to_string(),
        },
        SpamEmail {
            date_received: date(2024, 3, 1),
            spam_result: 900,
            is_spam: true,
            from: "b@x.com".to_string(),
        },
    ];
    let charts = report_charts("example.org", actions, &emails).unwrap();
    assert_eq!(charts.actions.name, "Breakdown of Rspamd Actions for example.org");
    assert_eq!(charts.actions.domain, "Action");
    assert_eq!(charts.actions.range, "Percentage");
    let labels: Vec<&str> = charts.actions.data.iter().map(|s| s.label.as_str()).collect();
    assert_eq!(
        labels,
        vec![
            "No Action (4, 40.0%)",
            "Greylist (2, 20.0%)",
            "Mark as Spam (3, 30.0%)",
            "Reject (1, 10.0%)",
        ]
    );
    assert_eq!(charts.mailbox.score_distribution.name, "X-Spam-Result Distribution for example.org");
    assert_eq!(charts.mailbox.score_distribution.data, vec![(-1, 1), (0, 1)]);
    assert_eq!(
        charts.mailbox.misclassification_rate.data,
        vec![
            (date(2024, 2, 28), Rate { part: 1, total: 1 }),
            (date(2024, 3, 1), Rate { part: 0, total: 1 }),
        ]
    );
    assert_eq!(
        charts.mailbox.daily_scores.data,
        vec![(date(2024, 2, 28), -1200), (date(2024, 3, 1), 900)]
    );
    assert_eq!(
        charts.mailbox.daily_received.data,
        vec![(date(2024, 2, 28), 1), (date(2024, 2, 29), 0), (date(2024, 3, 1), 1)]
    );
}

#[test]
fn score_distribution_fills_the_bins_between() {
    let emails: Vec<SpamEmail> = [-2700i64, 3100]
        .iter()
        .map(|score| SpamEmail {
            date_received: date(2024, 1, 1),
            spam_result: *score,
            is_spam: true,
            from: "a@x.com".to_string(),
        })
        .collect();
    let charts = mailbox_charts("example.org", &emails).unwrap();
    assert_eq!(
        charts.score_distribution.data,
        vec![(-2, 1), (-1, 0), (0, 0), (1, 0), (2, 0), (3, 1)]
    );
}
