use spam_stats::domains::{
    address_domain, domain_report, render_domain_report, top_offending_domains,
};

fn some(text: &str) -> Option<String> {
    Some(text.to_string())
}

#[test]
fn address_domain_follows_the_first_at_sign() {
    assert_eq!(address_domain("a@x.com"), some("x.com"));
    assert_eq!(address_domain("user.name@mail.example.org"), some("mail.example.org"));
    assert_eq!(address_domain("a@"), some(""));
    assert_eq!(address_domain("@x.com"), some("x.com"));
}

#[test]
fn address_domain_ends_at_the_second_at_sign() {
    assert_eq!(address_domain("a@b@c"), some("b"));
    assert_eq!(address_domain("a@@c"), some(""));
}

#[test]
fn address_domain_needs_an_at_sign() {
    assert_eq!(address_domain("nobody"), None);
    assert_eq!(address_domain(""), None);
}

#[test]
fn top_offending_domains_orders_by_count() {
    let addresses = vec![
        some("a@one"),
        some("b@two"),
        some("c@three"),
        some("d@two"),
        some("e@three"),
        some("f@three"),
    ];
    let ranked = top_offending_domains(&addresses);
    assert_eq!(
        ranked.ranking,
        vec![("three".to_string(), 3), ("two".to_string(), 2), ("one".to_string(), 1)]
    );
    assert_eq!(ranked.failures, 0);
}

#[test]
fn top_offending_domains_keeps_ties_in_first_seen_order() {
    let addresses = vec![
        some("a@zeta"),
        some("b@alpha"),
        some("c@mid"),
        some("d@alpha"),
        some("e@zeta"),
        some("f@top"),
        some("g@top"),
        some("h@top"),
        some("i@last"),
    ];
    let ranked = top_offending_domains(&addresses);
    assert_eq!(
        ranked.ranking,
        vec![
            ("top".to_string(), 3),
            ("zeta".to_string(), 2),
            ("alpha".to_string(), 2),
            ("mid".to_string(), 1),
            ("last".to_string(), 1),
        ]
    );
}

#[test]
fn top_offending_domains_counts_failures() {
    let addresses = vec![None, some("no at sign"), some("a@x"), None];
    let ranked = top_offending_domains(&addresses);
    assert_eq!(ranked.ranking, vec![("x".to_string(), 1)]);
    assert_eq!(ranked.failures, 3);
}

#[test]
fn top_offending_domains_without_senders() {
    let ranked = top_offending_domains(&vec![]);
    assert!(ranked.ranking.is_empty());
    assert_eq!(ranked.failures, 0);
}

#[test]
fn domain_report_ranks_and_renders() {
    let addresses = vec![some("a@x.com"), None, some("b@y.org"), some("c@y.org")];
    assert_eq!(
        domain_report(&addresses),
        "<h3>Misclassified Domains</h3>\
         <p>Domains that have sent mail misclassified as ham.</p>\
         <ul style=\"list-style-type:none;\">\
         <li>y.org: 2</li>\n\n<li>x.com: 1</li>\n</ul>"
    );
}

#[test]
fn render_domain_report_of_an_empty_ranking() {
    assert_eq!(
        render_domain_report(&vec![]),
        "<h3>Misclassified Domains</h3>\
         <p>Domains that have sent mail misclassified as ham.</p>\
         <ul style=\"list-style-type:none;\"></ul>"
    );
}

#[test]
fn render_domain_report_writes_one_item_per_domain() {
    let ranking = vec![("x.com".to_string(), 120), ("y.org".to_string(), 7), ("z".to_string(), 0)];
    assert_eq!(
        render_domain_report(&ranking),
        "<h3>Misclassified Domains</h3>\
         <p>Domains that have sent mail misclassified as ham.</p>\
         <ul style=\"list-style-type:none;\">\
         <li>x.com: 120</li>\n\n<li>y.org: 7</li>\n\n<li>z: 0</li>\n</ul>"
    );
}
