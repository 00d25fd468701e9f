use spam_stats::calendar::Date;
use email::{Mailbox, MimeMessage};
use spam_stats::domains::{domain_report, top_offending_domains, DomainRanking};
use spam_stats::spam::{
    classify_headers, make_spam_email, misclassified_senders, parse_score, rank_misclassified,
    spamd_result_pattern, EmailError,
};
use spam_stats::statistics::SpamEmail;

const RECEIVED: Date = Date { days: 738_886 };

fn mail(headers: &[&str]) -> String {
    let mut text = String::new();
    for header in headers {
        text.push_str(header);
        text.push_str("\r\n");
    }
    text.push_str("\r\nHello.\r\n");
    text
}

fn lookup(text: &str, name: &str) -> Option<Option<String>> {
    match MimeMessage::parse(text) {
        Err(_) => None,
        Ok(parsed) => match parsed.headers.get(name.to_string()) {
            None => Some(None),
            Some(header) => match header.get_value::<String>() {
                Ok(value) => Some(Some(value)),
                Err(_) => None,
            },
        },
    }
}

fn read(text: String) -> Result<SpamEmail, EmailError> {
    make_spam_email(
        lookup(&text, "X-Spamd-Result"),
        lookup(&text, "X-Spam"),
        lookup(&text, "From"),
        RECEIVED,
    )
}

fn addresses(emails: &Vec<SpamEmail>) -> Vec<Option<String>> {
    misclassified_senders(emails)
        .iter()
        .map(|sender| sender.parse::<Mailbox>().ok().map(|mailbox| mailbox.address))
        .collect()
}

fn rank(emails: &Vec<SpamEmail>) -> DomainRanking {
    rank_misclassified(emails, &addresses(emails)).unwrap()
}

fn ham(from: &str) -> SpamEmail {
    SpamEmail { date_received: RECEIVED, spam_result: 1000, is_spam: false, from: from.to_string() }
}

fn spam(from: &str) -> SpamEmail {
    SpamEmail { date_received: RECEIVED, spam_result: 9000, is_spam: true, from: from.to_string() }
}

#[test]
fn parse_score_reads_decimals_as_thousandths() {
    assert_eq!(parse_score("-1.20"), Some(-1200));
    assert_eq!(parse_score("0.3"), Some(300));
    assert_eq!(parse_score("5.9"), Some(5900));
    assert_eq!(parse_score("15.00"), Some(15000));
    assert_eq!(parse_score("7"), Some(7000));
    assert_eq!(parse_score("-0.7"), Some(-700));
    assert_eq!(parse_score("0"), Some(0));
    assert_eq!(parse_score("-0"), Some(0));
    assert_eq!(parse_score("007.050"), Some(7050));
}

#[test]
fn parse_score_accepts_a_missing_whole_or_fraction() {
    assert_eq!(parse_score("1."), Some(1000));
    assert_eq!(parse_score(".5"), Some(500));
    assert_eq!(parse_score("-.5"), Some(-500));
    assert_eq!(parse_score("-3."), Some(-3000));
}

#[test]
fn parse_score_cuts_off_past_the_third_place() {
    assert_eq!(parse_score("0.9999"), Some(999));
    assert_eq!(parse_score("-2.00049"), Some(-2000));
    assert_eq!(parse_score("1.2345678"), Some(1234));
}

#[test]
fn parse_score_rejects_what_is_no_number() {
    assert_eq!(parse_score(""), None);
    assert_eq!(parse_score("-"), None);
    assert_eq!(parse_score("."), None);
    assert_eq!(parse_score("-."), None);
    assert_eq!(parse_score("1.2.3"), None);
    assert_eq!(parse_score("--1"), None);
    assert_eq!(parse_score("1-"), None);
    assert_eq!(parse_score("+1"), None);
    assert_eq!(parse_score("1e3"), None);
    assert_eq!(parse_score("1.x"), None);
    assert_eq!(parse_score(" 1"), None);
}

#[test]
fn parse_score_rejects_what_does_not_fit() {
    assert_eq!(parse_score("9223372036854775.807"), Some(i64::MAX));
    assert_eq!(parse_score("-9223372036854775.807"), Some(-i64::MAX));
    assert_eq!(parse_score("9223372036854775.808"), None);
    assert_eq!(parse_score("9223372036854776"), None);
    assert_eq!(parse_score("99999999999999999999999999"), None);
}

#[test]
fn the_score_pattern_is_fixed() {
    assert_eq!(spamd_result_pattern(), r"[^\[]*\[(-?[.0-9]*)");
}

#[test]
fn make_spam_email_reads_a_spam_message() {
    let text = mail(&[
        "From: Alice <alice@example.com>",
        "X-Spamd-Result: default: False [-1.20 / 15.00]; ARC_NA(0.00)[]",
        "X-Spam: Yes",
        "Subject: hello",
    ]);
    let email = read(text).unwrap();
    assert_eq!(email.date_received, RECEIVED);
    assert_eq!(email.spam_result, -1200);
    assert!(email.is_spam);
    assert_eq!(email.from, "Alice <alice@example.com>");
}

#[test]
fn make_spam_email_without_spam_header_is_ham() {
    let text = mail(&["From: bob@example.org", "X-Spamd-Result: default: False [5.90 / 15.00]"]);
    let email = read(text).unwrap();
    assert_eq!(email.spam_result, 5900);
    assert!(!email.is_spam);
    assert_eq!(email.from, "bob@example.org");
}

#[test]
fn make_spam_email_with_another_spam_header_is_ham() {
    let text = mail(&[
        "From: bob@example.org",
        "X-Spam: No",
        "X-Spamd-Result: default: False [0.30 / 15.00]",
    ]);
    let email = read(text).unwrap();
    assert_eq!(email.spam_result, 300);
    assert!(!email.is_spam);
}

#[test]
fn make_spam_email_without_result_header() {
    let text = mail(&["From: bob@example.org", "X-Spam: Yes"]);
    assert_eq!(read(text).err(), Some(EmailError::MissingOrMalformedHeader));
}

#[test]
fn make_spam_email_without_a_bracket_in_the_result() {
    let text = mail(&["From: bob@example.org", "X-Spamd-Result: default: False"]);
    assert_eq!(read(text).err(), Some(EmailError::MissingOrMalformedHeader));
}

#[test]
fn make_spam_email_without_sender() {
    let text = mail(&["X-Spamd-Result: default: False [5.90 / 15.00]", "X-Spam: Yes"]);
    assert_eq!(read(text).err(), Some(EmailError::MissingOrMalformedHeader));
}

#[test]
fn make_spam_email_with_a_score_that_is_no_number() {
    let text = mail(&["From: bob@example.org", "X-Spamd-Result: default: False [- / 15.00]"]);
    assert_eq!(read(text).err(), Some(EmailError::UnparsableScore));
    let text = mail(&["From: bob@example.org", "X-Spamd-Result: default: False [1.2.3 / 15.00]"]);
    assert_eq!(read(text).err(), Some(EmailError::UnparsableScore));
    let text = mail(&["From: bob@example.org", "X-Spamd-Result: default: False [abc]"]);
    assert_eq!(read(text).err(), Some(EmailError::UnparsableScore));
}

#[test]
fn make_spam_email_of_what_is_no_message() {
    let text = mail(&[
        "Content-Type: garbage",
        "From: bob@example.org",
        "X-Spamd-Result: default: False [5.90 / 15.00]",
    ]);
    assert_eq!(read(text).err(), Some(EmailError::UnparsableMessage));
}

#[test]
fn make_spam_email_from_lookups() {
    let value = |text: &str| Some(Some(text.to_string()));
    let email = make_spam_email(
        value("default: True [17.25 / 15.00]; R_SPF_FAIL(1.00)[-all]"),
        value("Yes"),
        value("Mallory <mallory@spam.example>"),
        RECEIVED,
    )
    .unwrap();
    assert_eq!(email.spam_result, 17250);
    assert!(email.is_spam);
    assert_eq!(email.from, "Mallory <mallory@spam.example>");
    assert_eq!(email.date_received, RECEIVED);
    // The score is what follows the first bracket, not a later one.
    let email =
        make_spam_email(value("[] [3.5]"), Some(None), value("a@x.com"), RECEIVED).err();
    assert_eq!(email, Some(EmailError::UnparsableScore));
    let email =
        make_spam_email(value("a [-0.5] [3.5]"), Some(None), value("a@x.com"), RECEIVED).unwrap();
    assert_eq!(email.spam_result, -500);
    assert_eq!(
        make_spam_email(None, value("Yes"), value("a@x.com"), RECEIVED).err(),
        Some(EmailError::UnparsableMessage)
    );
    assert_eq!(
        make_spam_email(value("[1.0]"), value("Yes"), None, RECEIVED).err(),
        Some(EmailError::UnparsableMessage)
    );
}

#[test]
fn misclassified_senders_are_the_ham_senders() {
    let emails = vec![spam("s@spam.example"), ham("a@x.com"), spam("t@y"), ham("B <b@x.com>")];
    assert_eq!(misclassified_senders(&emails), vec!["a@x.com", "B <b@x.com>"]);
    assert!(misclassified_senders(&vec![]).is_empty());
    assert!(misclassified_senders(&vec![spam("s@spam.example")]).is_empty());
}

#[test]
fn classify_headers_judges_in_order() {
    let value = |text: &str| Some(Some(text.to_string()));
    let score = Some("2.5".to_string());
    let email = classify_headers(
        value("default: False [2.5 / 15.00]"),
        score.clone(),
        value("Yes"),
        value("a@x.com"),
        RECEIVED,
    )
    .unwrap();
    assert_eq!(email.spam_result, 2500);
    assert!(email.is_spam);
    assert_eq!(email.from, "a@x.com");
    assert_eq!(email.date_received, RECEIVED);

    assert_eq!(
        classify_headers(None, score.clone(), value("Yes"), value("a@x.com"), RECEIVED).err(),
        Some(EmailError::UnparsableMessage)
    );
    assert_eq!(
        classify_headers(Some(None), score.clone(), value("Yes"), None, RECEIVED).err(),
        Some(EmailError::MissingOrMalformedHeader)
    );
    assert_eq!(
        classify_headers(value("x"), None, value("Yes"), None, RECEIVED).err(),
        Some(EmailError::MissingOrMalformedHeader)
    );
    assert_eq!(
        classify_headers(value("x"), score.clone(), value("Yes"), None, RECEIVED).err(),
        Some(EmailError::UnparsableMessage)
    );
    assert_eq!(
        classify_headers(value("x"), score.clone(), value("Yes"), Some(None), RECEIVED).err(),
        Some(EmailError::MissingOrMalformedHeader)
    );
    assert_eq!(
        classify_headers(value("x"), Some("?".to_string()), None, value("a@x.com"), RECEIVED)
            .err(),
        Some(EmailError::UnparsableScore)
    );
    // An unreadable sender is reported before a score that is no number.
    assert_eq!(
        classify_headers(value("x"), Some("?".to_string()), None, None, RECEIVED).err(),
        Some(EmailError::UnparsableMessage)
    );
}

#[test]
fn classify_headers_reads_only_yes_as_spam() {
    let value = |text: &str| Some(Some(text.to_string()));
    for (header, expected) in [
        (value("Yes"), true),
        (value("yes"), false),
        (value("Yes "), false),
        (value("No"), false),
        (value(""), false),
        (Some(None), false),
        (None, false),
    ] {
        let email =
            classify_headers(value("x"), Some("1".to_string()), header, value("a@x.com"), RECEIVED)
                .unwrap();
        assert_eq!(email.is_spam, expected);
    }
}

#[test]
fn top_offending_domains_ranks_ham_senders() {
    let emails = vec![ham("a@x.com"), ham("b@x.com"), ham("not an address")];
    let domains = rank(&emails);
    assert_eq!(domains.ranking, vec![("x.com".to_string(), 2)]);
    assert_eq!(domains.failures, 1);
}

#[test]
fn top_offending_domains_leaves_spam_out() {
    let emails = vec![
        spam("s@spam.example"),
        ham("Alice <alice@one.example>"),
        spam("t@spam.example"),
        ham("bob@two.example"),
        ham("Carol <carol@two.example>"),
        spam("broken"),
    ];
    let domains = rank(&emails);
    assert_eq!(
        domains.ranking,
        vec![("two.example".to_string(), 2), ("one.example".to_string(), 1)]
    );
    assert_eq!(domains.failures, 0);
}

#[test]
fn top_offending_domains_accounts_for_every_ham_message() {
    let senders = [
        "a@x.com", "b@y.org", "", "c@x.com", "???", "d@z.net", "e@y.org", "f@x.com", "@", "g",
    ];
    let mut emails = Vec::new();
    for (i, sender) in senders.iter().enumerate() {
        emails.push(ham(sender));
        if i % 2 == 0 {
            emails.push(spam(sender));
        }
    }
    let domains = rank(&emails);
    let ranked: usize = domains.ranking.iter().map(|(_, count)| *count).sum();
    assert_eq!(ranked + domains.failures, senders.len());
    assert_eq!(domains.ranking[0], ("x.com".to_string(), 3));
    assert_eq!(domains.ranking[1], ("y.org".to_string(), 2));
    assert_eq!(domains.ranking[2], ("z.net".to_string(), 1));
    for pair in domains.ranking.windows(2) {
        assert!(pair[0].1 >= pair[1].1);
    }
}

#[test]
fn top_offending_domains_of_nothing() {
    let domains = rank(&vec![]);
    assert!(domains.ranking.is_empty());
    assert_eq!(domains.failures, 0);
}

#[test]
fn domain_report_lists_the_ranking() {
    let emails = vec![ham("a@x.com"), ham("b@y.org"), ham("c@y.org"), spam("d@z.net")];
    assert_eq!(
        domain_report(&addresses(&emails)),
        "<h3>Misclassified Domains</h3>\
         <p>Domains that have sent mail misclassified as ham.</p>\
         <ul style=\"list-style-type:none;\">\
         <li>y.org: 2</li>\n\n<li>x.com: 1</li>\n</ul>"
    );
}

#[test]
fn rank_misclassified_wants_one_address_for_each_ham_message() {
    let emails = vec![ham("a@x.com"), spam("s@spam.example"), ham("b@y.org")];
    let some = |text: &str| Some(text.to_string());
    assert!(rank_misclassified(&emails, &vec![]).is_none());
    assert!(rank_misclassified(&emails, &vec![some("a@x.com")]).is_none());
    assert!(rank_misclassified(
        &emails,
        &vec![some("a@x.com"), some("s@spam.example"), some("b@y.org")]
    )
    .is_none());
    let domains = rank_misclassified(&emails, &vec![some("a@x.com"), None]).unwrap();
    assert_eq!(domains.ranking, vec![("x.com".to_string(), 1)]);
    assert_eq!(domains.failures, 1);
    let domains = rank_misclassified(&vec![spam("s@spam.example")], &vec![]).unwrap();
    assert!(domains.ranking.is_empty());
    assert_eq!(domains.failures, 0);
}

#[test]
fn rank_misclassified_agrees_with_the_ranking_of_the_addresses() {
    let emails = vec![ham("a@x.com"), ham("B <b@y.org>"), spam("c@z"), ham("d@y.org"), ham("?")];
    let parsed = addresses(&emails);
    let by_records = rank_misclassified(&emails, &parsed).unwrap();
    let by_addresses = top_offending_domains(&parsed);
    assert_eq!(by_records.ranking, by_addresses.ranking);
    assert_eq!(by_records.failures, by_addresses.failures);
    assert_eq!(by_records.ranking, vec![("y.org".to_string(), 2), ("x.com".to_string(), 1)]);
    assert_eq!(by_records.failures, 1);
}
