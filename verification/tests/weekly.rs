use chrono::{Datelike, NaiveDate};
use spam_stats::calendar::Date;
use spam_stats::statistics::{SpamEmail, WeeklyBinIter, WeeklyBins};

fn on(year: i32, month: u32, day: u32) -> Date {
    Date { days: NaiveDate::from_ymd_opt(year, month, day).unwrap().num_days_from_ce() }
}

fn message(received: Date, thousandths: i64) -> SpamEmail {
    SpamEmail {
        date_received: received,
        spam_result: thousandths,
        is_spam: true,
        from: String::from("someone@example.com"),
    }
}

#[test]
fn weekly_bins_sorts_by_date() {
    let bins: WeeklyBinIter = vec![
        message(on(2024, 1, 10), 1),
        message(on(2024, 1, 2), 2),
        message(on(2024, 1, 17), 3),
        message(on(2024, 1, 2), 4),
    ]
    .weekly_bins();
    let days: Vec<i32> = bins.emails.iter().map(|e| e.date_received.days).collect();
    assert_eq!(
        days,
        vec![on(2024, 1, 2).days, on(2024, 1, 2).days, on(2024, 1, 10).days, on(2024, 1, 17).days]
    );
    // Messages of one day keep their order.
    let scores: Vec<i64> = bins.emails.iter().map(|e| e.spam_result).collect();
    assert_eq!(scores, vec![2, 4, 1, 3]);
}

#[test]
fn weekly_bins_keeps_the_order_within_a_day() {
    let day = on(2024, 1, 10);
    let mut messages = Vec::new();
    for score in 0..20 {
        messages.push(message(if score % 3 == 0 { on(2024, 1, 9) } else { day }, score));
    }
    let bins = messages.weekly_bins();
    let scores: Vec<i64> = bins.emails.iter().map(|e| e.spam_result).collect();
    assert_eq!(
        scores,
        vec![0, 3, 6, 9, 12, 15, 18, 1, 2, 4, 5, 7, 8, 10, 11, 13, 14, 16, 17, 19]
    );
}

#[test]
fn next_hands_out_the_latest_message_on_its_week_start() {
    let mut bins = vec![message(on(2024, 1, 10), 1), message(on(2024, 1, 2), 2)].weekly_bins();
    let first = bins.next().unwrap();
    // 2024-01-10 is a Wednesday; its week starts on Sunday 2024-01-07.
    assert_eq!(first.date_received, on(2024, 1, 7));
    assert_eq!(first.spam_result, 1);
    let second = bins.next().unwrap();
    // 2024-01-02 is a Tuesday; its week starts on Sunday 2023-12-31.
    assert_eq!(second.date_received, on(2023, 12, 31));
    assert_eq!(second.spam_result, 2);
    assert!(bins.next().is_none());
    assert!(bins.next().is_none());
}

#[test]
fn every_weekly_bin_is_a_sunday() {
    let mut messages = Vec::new();
    for day in 1..=31 {
        messages.push(message(on(2024, 3, day), day as i64));
    }
    let mut bins = messages.weekly_bins();
    let mut handed_out = 0;
    while let Some(email) = bins.next() {
        let naive = NaiveDate::from_num_days_from_ce_opt(email.date_received.days).unwrap();
        assert_eq!(naive.weekday(), chrono::Weekday::Sun);
        handed_out += 1;
    }
    assert_eq!(handed_out, 31);
}

#[test]
fn take_weeks_from_keeps_the_last_weeks() {
    // Today is Wednesday 2024-01-17: this week starts on 2024-01-14.
    let today = on(2024, 1, 17);
    let messages = vec![
        message(on(2024, 1, 16), 1),
        message(on(2024, 1, 14), 2),
        message(on(2024, 1, 13), 3),
        message(on(2024, 1, 7), 4),
        message(on(2024, 1, 6), 5),
    ];
    let one_week = messages.clone().weekly_bins().take_weeks_from(today, 1);
    let scores: Vec<i64> = one_week.iter().map(|e| e.spam_result).collect();
    assert_eq!(scores, vec![1, 2]);
    assert!(one_week.iter().all(|e| e.date_received == on(2024, 1, 14)));

    let two_weeks = messages.clone().weekly_bins().take_weeks_from(today, 2);
    let scores: Vec<i64> = two_weeks.iter().map(|e| e.spam_result).collect();
    assert_eq!(scores, vec![1, 2, 3, 4]);
    assert_eq!(two_weeks[2].date_received, on(2024, 1, 7));
    assert_eq!(two_weeks[3].date_received, on(2024, 1, 7));

    let three_weeks = messages.weekly_bins().take_weeks_from(today, 3);
    assert_eq!(three_weeks.len(), 5);
    assert_eq!(three_weeks[4].date_received, on(2023, 12, 31));
}

#[test]
fn take_weeks_from_with_a_huge_count_keeps_everything() {
    let today = on(2024, 1, 17);
    let messages = vec![message(on(2024, 1, 16), 1), message(on(1999, 1, 14), 2)];
    assert_eq!(messages.weekly_bins().take_weeks_from(today, u64::MAX).len(), 2);
}

#[test]
fn take_weeks_from_nothing() {
    let today = on(2024, 1, 17);
    assert!(Vec::<SpamEmail>::new().weekly_bins().take_weeks_from(today, 4).is_empty());
}

#[test]
fn take_weeks_counts_back_from_today() {
    let today = Date::today();
    let messages = vec![
        message(Date { days: today.days - 400 }, 1),
        message(Date { days: today.days }, 2),
    ];
    let taken = messages.weekly_bins().take_weeks(2);
    assert_eq!(taken.len(), 1);
    assert_eq!(taken[0].spam_result, 2);
    assert_eq!(taken[0].date_received.days.rem_euclid(7), 0);
}
