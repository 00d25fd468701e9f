//! Ranking sender domains by how often they occur.

use crate::text::{decimal_digits, decimal_string, find_char, first_at, same_text};
use vstd::prelude::*;
use vstd::string::*;

verus! {

/// The domain of an address: what stands between its first `@` and the next
/// one (or the end). `None` for an address without `@`.
pub open spec fn domain_of(address: Seq<char>) -> Option<Seq<char>> {
    let at = first_at(address, '@');
    if at >= address.len() {
        None
    } else {
        let rest = address.skip(at + 1);
        Some(rest.take(first_at(rest, '@')))
    }
}

/// How often the domain occurs among the candidates.
pub open spec fn domain_count(candidates: Seq<Option<Seq<char>>>, domain: Seq<char>) -> nat
    decreases candidates.len(),
{
    if candidates.len() == 0 {
        0
    } else {
        domain_count(candidates.drop_last(), domain) + if candidates.last() == Some(domain) {
            1nat
        } else {
            0nat
        }
    }
}

/// How many candidates hold no domain.
pub open spec fn failure_count(candidates: Seq<Option<Seq<char>>>) -> nat
    decreases candidates.len(),
{
    if candidates.len() == 0 {
        0
    } else {
        failure_count(candidates.drop_last()) + if candidates.last() is None {
            1nat
        } else {
            0nat
        }
    }
}

/// The index at which the domain first occurs among the candidates.
pub open spec fn first_seen(candidates: Seq<Option<Seq<char>>>, domain: Seq<char>) -> int
    decreases candidates.len(),
{
    if candidates.len() == 0 {
        0
    } else if domain_count(candidates.drop_last(), domain) > 0 {
        first_seen(candidates.drop_last(), domain)
    } else {
        candidates.len() - 1
    }
}

/// The sum of the counts of a ranking.
pub open spec fn total_count(ranking: Seq<(Seq<char>, usize)>) -> nat
    decreases ranking.len(),
{
    if ranking.len() == 0 {
        0
    } else {
        total_count(ranking.drop_last()) + ranking.last().1 as nat
    }
}

/// A ranking as plain values: each domain's characters with its count.
pub open spec fn ranking_view(ranking: Seq<(String, usize)>) -> Seq<(Seq<char>, usize)> {
    Seq::new(ranking.len(), |i: int| (ranking[i].0@, ranking[i].1))
}

/// Each entry holds a domain that occurs, with the number of times it
/// occurs, and every domain that occurs has an entry.
pub open spec fn counts_domains(
    candidates: Seq<Option<Seq<char>>>,
    entries: Seq<(Seq<char>, usize)>,
) -> bool {
    &&& forall|i: int|
        0 <= i < entries.len() ==> (#[trigger] entries[i]).1 > 0 && entries[i].1 == domain_count(
            candidates,
            entries[i].0,
        )
    &&& forall|d: Seq<char>| #[trigger]
        domain_count(candidates, d) > 0 ==> exists|i: int|
            0 <= i < entries.len() && (#[trigger] entries[i]).0 == d
}

/// Whether entry `a` ranks before entry `b`: by the higher count, and among
/// equal counts by the earlier first occurrence.
pub open spec fn ranks_before(
    candidates: Seq<Option<Seq<char>>>,
    a: (Seq<char>, usize),
    b: (Seq<char>, usize),
) -> bool {
    a.1 > b.1 || (a.1 == b.1 && first_seen(candidates, a.0) < first_seen(candidates, b.0))
}

/// Entries from the most frequent to the least, equally frequent ones in
/// the order in which they first occur.
pub open spec fn ranked(candidates: Seq<Option<Seq<char>>>, entries: Seq<(Seq<char>, usize)>) -> bool {
    forall|i: int, j: int|
        0 <= i < j < entries.len() ==> ranks_before(
            candidates,
            #[trigger] entries[i],
            #[trigger] entries[j],
        )
}

/// Whether `ranking` is the ranking of the candidates' domains: one entry
/// for each domain that occurs, with its count, the most frequent first and
/// equally frequent ones in the order in which they first occur.
pub open spec fn is_ranking(
    candidates: Seq<Option<Seq<char>>>,
    ranking: Seq<(Seq<char>, usize)>,
) -> bool {
    counts_domains(candidates, ranking) && ranked(candidates, ranking)
}

/// Entries in the order in which their domains first occur.
pub open spec fn in_first_seen_order(
    candidates: Seq<Option<Seq<char>>>,
    entries: Seq<(Seq<char>, usize)>,
) -> bool {
    forall|i: int, j: int|
        0 <= i < j < entries.len() ==> first_seen(candidates, (#[trigger] entries[i]).0)
            < first_seen(candidates, (#[trigger] entries[j]).0)
}

proof fn lemma_first_seen_bound(candidates: Seq<Option<Seq<char>>>, domain: Seq<char>)
    requires
        domain_count(candidates, domain) > 0,
    ensures
        0 <= first_seen(candidates, domain) < candidates.len(),
    decreases candidates.len(),
{
    if candidates.len() > 0 && domain_count(candidates.drop_last(), domain) > 0 {
        lemma_first_seen_bound(candidates.drop_last(), domain);
    }
}

/// A domain or a failure cannot be counted more often than there are
/// candidates.
pub proof fn lemma_counts_bounded(candidates: Seq<Option<Seq<char>>>, domain: Seq<char>)
    ensures
        domain_count(candidates, domain) + failure_count(candidates) <= candidates.len(),
    decreases candidates.len(),
{
    if candidates.len() > 0 {
        lemma_counts_bounded(candidates.drop_last(), domain);
    }
}

proof fn lemma_total_count_update(entries: Seq<(Seq<char>, usize)>, at: int, entry: (Seq<char>, usize))
    requires
        0 <= at < entries.len(),
    ensures
        total_count(entries.update(at, entry)) == total_count(entries) - entries[at].1 + entry.1,
    decreases entries.len(),
{
    let updated = entries.update(at, entry);
    if at == entries.len() - 1 {
        assert(updated.drop_last() =~= entries.drop_last());
    } else {
        assert(updated.drop_last() =~= entries.drop_last().update(at, entry));
        lemma_total_count_update(entries.drop_last(), at, entry);
    }
}

proof fn lemma_total_count_insert(entries: Seq<(Seq<char>, usize)>, at: int, entry: (Seq<char>, usize))
    requires
        0 <= at <= entries.len(),
    ensures
        total_count(entries.insert(at, entry)) == total_count(entries) + entry.1,
    decreases entries.len(),
{
    let inserted = entries.insert(at, entry);
    if at == entries.len() {
        assert(inserted.drop_last() =~= entries);
    } else {
        assert(inserted.drop_last() =~= entries.drop_last().insert(at, entry));
        assert(inserted.last() == entries.last());
        lemma_total_count_insert(entries.drop_last(), at, entry);
    }
}

/// The domain of an address, if it has one.
pub fn address_domain(address: &str) -> (domain: Option<String>)
    ensures
        (match domain {
            Some(d) => Some(d@),
            None => None,
        }) == domain_of(address@),
{
    let len: usize = address.unicode_len();
    let at: usize = find_char(address, '@', 0);
    if at >= len {
        return None;
    }
    let rest: &str = address.substring_char(at + 1, len);
    let end: usize = find_char(rest, '@', 0);
    let domain: &str = rest.substring_char(0, end);
    proof {
        assert(rest@ =~= address@.skip(at + 1));
        assert(domain@ =~= rest@.take(end as int));
    }
    Some(String::from_str(domain))
}

/// Counts one more occurrence of a domain: in its entry if it has one, else
/// in a new entry at the end.
fn count_domain(
    tally: &mut Vec<(String, usize)>,
    domain: String,
    Ghost(seen): Ghost<Seq<Option<Seq<char>>>>,
)
    requires
        counts_domains(seen, ranking_view(old(tally)@)),
        in_first_seen_order(seen, ranking_view(old(tally)@)),
        seen.len() < usize::MAX,
    ensures
        counts_domains(seen.push(Some(domain@)), ranking_view(final(tally)@)),
        in_first_seen_order(seen.push(Some(domain@)), ranking_view(final(tally)@)),
        total_count(ranking_view(final(tally)@)) == total_count(ranking_view(old(tally)@)) + 1,
{
    let ghost before = ranking_view(tally@);
    let ghost now = seen.push(Some(domain@));
    let mut p: usize = 0;
    while p < tally.len() && !same_text(tally[p].0.as_str(), domain.as_str())
        invariant
            p <= tally.len(),
            forall|i: int| 0 <= i < p ==> (#[trigger] tally@[i]).0@ != domain@,
        decreases tally.len() - p,
    {
        p += 1;
    }
    proof {
        assert(now.drop_last() =~= seen);
        assert forall|i: int| 0 <= i < before.len() implies domain_count(
            seen,
            (#[trigger] before[i]).0,
        ) > 0 && first_seen(now, before[i].0) == first_seen(seen, before[i].0) && first_seen(
            seen,
            before[i].0,
        ) < seen.len() by {
            lemma_first_seen_bound(seen, before[i].0);
        }
    }
    if p < tally.len() {
        let count: usize = tally[p].1;
        proof {
            assert(before[p as int].0 == domain@);
            lemma_counts_bounded(seen, domain@);
            lemma_total_count_update(before, p as int, (domain@, (count + 1) as usize));
        }
        tally.set(p, (domain, count + 1));
        proof {
            let after = ranking_view(tally@);
            assert(after =~= before.update(p as int, (domain@, (count + 1) as usize)));
            assert forall|i: int| 0 <= i < after.len() implies (#[trigger] after[i]).1 > 0
                && after[i].1 == domain_count(now, after[i].0) by {
                if i != p {
                    assert(after[i] == before[i]);
                    if before[i].0 == domain@ {
                        if i < p {
                            assert(first_seen(seen, before[i].0) < first_seen(seen, before[p as int].0));
                        } else {
                            assert(first_seen(seen, before[p as int].0) < first_seen(seen, before[i].0));
                        }
                    }
                }
            }
            assert forall|d: Seq<char>| #[trigger] domain_count(now, d) > 0 implies exists|i: int|
                0 <= i < after.len() && (#[trigger] after[i]).0 == d by {
                if d == domain@ {
                    assert(after[p as int].0 == d);
                } else {
                    assert(domain_count(seen, d) > 0);
                    let i = choose|i: int| 0 <= i < before.len() && (#[trigger] before[i]).0 == d;
                    assert(after[i].0 == d);
                }
            }
            assert forall|i: int, j: int| 0 <= i < j < after.len() implies first_seen(
                now,
                (#[trigger] after[i]).0,
            ) < first_seen(now, (#[trigger] after[j]).0) by {
                assert(after[i].0 == before[i].0);
                assert(after[j].0 == before[j].0);
            }
        }
    } else {
        proof {
            if domain_count(seen, domain@) > 0 {
                let i = choose|i: int| 0 <= i < before.len() && (#[trigger] before[i]).0 == domain@;
                assert(tally@[i].0@ == domain@);
                assert(false);
            }
        }
        tally.push((domain, 1));
        proof {
            let after = ranking_view(tally@);
            assert(after =~= before.push((domain@, 1usize)));
            assert(after.drop_last() =~= before);
            assert forall|i: int| 0 <= i < after.len() implies (#[trigger] after[i]).1 > 0
                && after[i].1 == domain_count(now, after[i].0) by {
                if i < before.len() {
                    assert(after[i] == before[i]);
                }
            }
            assert forall|d: Seq<char>| #[trigger] domain_count(now, d) > 0 implies exists|i: int|
                0 <= i < after.len() && (#[trigger] after[i]).0 == d by {
                if d == domain@ {
                    assert(after[before.len() as int].0 == d);
                } else {
                    assert(domain_count(seen, d) > 0);
                    let i = choose|i: int| 0 <= i < before.len() && (#[trigger] before[i]).0 == d;
                    assert(after[i].0 == d);
                }
            }
            assert forall|i: int, j: int| 0 <= i < j < after.len() implies first_seen(
                now,
                (#[trigger] after[i]).0,
            ) < first_seen(now, (#[trigger] after[j]).0) by {
                assert(after[i] == before[i]);
                if j < before.len() {
                    assert(after[j] == before[j]);
                }
            }
        }
    }
}

/// Sender domains ranked by frequency, with the number of senders that gave
/// no domain.
pub struct DomainRanking {
    /// Each domain with the number of times it occurs, most frequent first.
    pub ranking: Vec<(String, usize)>,
    /// How many senders could not be parsed or held no domain.
    pub failures: usize,
}

/// The candidate domains of parsed addresses: none where the address is
/// missing or holds no `@`.
pub open spec fn candidate_domains(addresses: Seq<Option<String>>) -> Seq<Option<Seq<char>>> {
    Seq::new(
        addresses.len(),
        |i: int|
            match addresses[i] {
                Some(address) => domain_of(address@),
                None => None,
            },
    )
}

/// Each entry holds a domain that occurs, with the number of times it
/// occurs.
pub open spec fn each_counted(
    candidates: Seq<Option<Seq<char>>>,
    entries: Seq<(Seq<char>, usize)>,
) -> bool {
    forall|i: int|
        0 <= i < entries.len() ==> (#[trigger] entries[i]).1 > 0 && entries[i].1 == domain_count(
            candidates,
            entries[i].0,
        )
}

/// Every domain that occurs has an entry in one of the two lists.
pub open spec fn all_listed(
    candidates: Seq<Option<Seq<char>>>,
    rest: Seq<(Seq<char>, usize)>,
    sorted: Seq<(Seq<char>, usize)>,
) -> bool {
    forall|d: Seq<char>| #[trigger]
        domain_count(candidates, d) > 0 ==> (exists|i: int|
            0 <= i < rest.len() && (#[trigger] rest[i]).0 == d) || (exists|j: int|
            0 <= j < sorted.len() && (#[trigger] sorted[j]).0 == d)
}

/// Every entry of `rest` was first seen before every entry of `sorted`.
pub open spec fn seen_before(
    candidates: Seq<Option<Seq<char>>>,
    rest: Seq<(Seq<char>, usize)>,
    sorted: Seq<(Seq<char>, usize)>,
) -> bool {
    forall|i: int, j: int|
        0 <= i < rest.len() && 0 <= j < sorted.len() ==> first_seen(
            candidates,
            (#[trigger] rest[i]).0,
        ) < first_seen(candidates, (#[trigger] sorted[j]).0)
}

proof fn lemma_move_keeps_counted(
    candidates: Seq<Option<Seq<char>>>,
    rest: Seq<(Seq<char>, usize)>,
    sorted: Seq<(Seq<char>, usize)>,
    p: int,
)
    requires
        rest.len() > 0,
        0 <= p <= sorted.len(),
        each_counted(candidates, rest),
        each_counted(candidates, sorted),
        all_listed(candidates, rest, sorted),
    ensures
        each_counted(candidates, rest.drop_last()),
        each_counted(candidates, sorted.insert(p, rest.last())),
        all_listed(candidates, rest.drop_last(), sorted.insert(p, rest.last())),
{
    let rest_now = rest.drop_last();
    let sorted_now = sorted.insert(p, rest.last());
    let last = rest.len() - 1;
    assert forall|i: int| 0 <= i < sorted_now.len() implies (#[trigger] sorted_now[i]).1 > 0
        && sorted_now[i].1 == domain_count(candidates, sorted_now[i].0) by {
        if i < p {
            assert(sorted_now[i] == sorted[i]);
        } else if i > p {
            assert(sorted_now[i] == sorted[i - 1]);
        } else {
            assert(sorted_now[i] == rest[last]);
        }
    }
    assert forall|i: int| 0 <= i < rest_now.len() implies (#[trigger] rest_now[i]).1 > 0
        && rest_now[i].1 == domain_count(candidates, rest_now[i].0) by {
        assert(rest_now[i] == rest[i]);
    }
    assert forall|d: Seq<char>| #[trigger] domain_count(candidates, d) > 0 implies (exists|i: int|
        0 <= i < rest_now.len() && (#[trigger] rest_now[i]).0 == d) || (exists|j: int|
        0 <= j < sorted_now.len() && (#[trigger] sorted_now[j]).0 == d) by {
        if exists|i: int| 0 <= i < rest.len() && (#[trigger] rest[i]).0 == d {
            let i = choose|i: int| 0 <= i < rest.len() && (#[trigger] rest[i]).0 == d;
            if i == last {
                assert(sorted_now[p].0 == d);
            } else {
                assert(rest_now[i].0 == d);
            }
        } else {
            let j = choose|j: int| 0 <= j < sorted.len() && (#[trigger] sorted[j]).0 == d;
            if j < p {
                assert(sorted_now[j].0 == d);
            } else {
                assert(sorted_now[j + 1].0 == d);
            }
        }
    }
}

proof fn lemma_move_keeps_order(
    candidates: Seq<Option<Seq<char>>>,
    rest: Seq<(Seq<char>, usize)>,
    sorted: Seq<(Seq<char>, usize)>,
    p: int,
)
    requires
        rest.len() > 0,
        0 <= p <= sorted.len(),
        in_first_seen_order(candidates, rest),
        seen_before(candidates, rest, sorted),
        ranked(candidates, sorted),
        forall|i: int| 0 <= i < p ==> (#[trigger] sorted[i]).1 > rest.last().1,
        p < sorted.len() ==> sorted[p].1 <= rest.last().1,
    ensures
        in_first_seen_order(candidates, rest.drop_last()),
        seen_before(candidates, rest.drop_last(), sorted.insert(p, rest.last())),
        ranked(candidates, sorted.insert(p, rest.last())),
{
    let rest_now = rest.drop_last();
    let moved = rest.last();
    let sorted_now = sorted.insert(p, moved);
    let last = rest.len() - 1;
    assert(rest[last] == moved);
    assert forall|i: int, j: int| 0 <= i < j < rest_now.len() implies first_seen(
        candidates,
        (#[trigger] rest_now[i]).0,
    ) < first_seen(candidates, (#[trigger] rest_now[j]).0) by {
        assert(rest_now[i] == rest[i]);
        assert(rest_now[j] == rest[j]);
    }
    assert forall|i: int, j: int|
        0 <= i < rest_now.len() && 0 <= j < sorted_now.len() implies first_seen(
        candidates,
        (#[trigger] rest_now[i]).0,
    ) < first_seen(candidates, (#[trigger] sorted_now[j]).0) by {
        assert(rest_now[i] == rest[i]);
        if j < p {
            assert(sorted_now[j] == sorted[j]);
        } else if j > p {
            assert(sorted_now[j] == sorted[j - 1]);
        } else {
            assert(sorted_now[j] == rest[last]);
        }
    }
    assert forall|i: int, j: int| 0 <= i < j < sorted_now.len() implies ranks_before(
        candidates,
        #[trigger] sorted_now[i],
        #[trigger] sorted_now[j],
    ) by {
        if j < p {
            assert(sorted_now[i] == sorted[i]);
            assert(sorted_now[j] == sorted[j]);
        } else if j == p {
            assert(sorted_now[i] == sorted[i]);
            assert(sorted_now[j] == moved);
        } else if i < p {
            assert(sorted_now[i] == sorted[i]);
            assert(sorted_now[j] == sorted[j - 1]);
        } else if i == p {
            assert(sorted_now[i] == moved);
            assert(sorted_now[j] == sorted[j - 1]);
            if j - 1 > p {
                assert(ranks_before(candidates, sorted[p], sorted[j - 1]));
            }
            assert(first_seen(candidates, rest[last].0) < first_seen(candidates, sorted[j - 1].0));
        } else {
            assert(sorted_now[i] == sorted[i - 1]);
            assert(sorted_now[j] == sorted[j - 1]);
        }
    }
}

/// Orders counted domains by descending count, keeping equally frequent
/// domains in the order in which they first occur.
fn rank_tally(tally: Vec<(String, usize)>, Ghost(candidates): Ghost<Seq<Option<Seq<char>>>>) -> (ranking:
    Vec<(String, usize)>)
    requires
        counts_domains(candidates, ranking_view(tally@)),
        in_first_seen_order(candidates, ranking_view(tally@)),
    ensures
        is_ranking(candidates, ranking_view(ranking@)),
        total_count(ranking_view(ranking@)) == total_count(ranking_view(tally@)),
{
    let ghost total = total_count(ranking_view(tally@));
    let mut rest = tally;
    let mut sorted: Vec<(String, usize)> = Vec::new();
    proof {
        assert(ranking_view(sorted@) =~= Seq::empty());
    }
    while rest.len() > 0
        invariant
            each_counted(candidates, ranking_view(rest@)),
            each_counted(candidates, ranking_view(sorted@)),
            all_listed(candidates, ranking_view(rest@), ranking_view(sorted@)),
            in_first_seen_order(candidates, ranking_view(rest@)),
            seen_before(candidates, ranking_view(rest@), ranking_view(sorted@)),
            ranked(candidates, ranking_view(sorted@)),
            total_count(ranking_view(sorted@)) + total_count(ranking_view(rest@)) == total,
        decreases rest.len(),
    {
        let ghost rest_before = ranking_view(rest@);
        let ghost sorted_before = ranking_view(sorted@);
        let entry = rest.pop().unwrap();
        let ghost moved = (entry.0@, entry.1);
        let mut p: usize = 0;
        while p < sorted.len() && sorted[p].1 > entry.1
            invariant
                p <= sorted.len(),
                forall|i: int| 0 <= i < p ==> (#[trigger] sorted@[i]).1 > entry.1,
            decreases sorted.len() - p,
        {
            p += 1;
        }
        proof {
            assert(rest_before.last() == moved);
            assert forall|i: int| 0 <= i < p implies (#[trigger] sorted_before[i]).1 > moved.1 by {
                assert(sorted@[i].1 > entry.1);
            }
            if p < sorted@.len() {
                assert(sorted_before[p as int].1 == sorted@[p as int].1);
            }
            lemma_move_keeps_counted(candidates, rest_before, sorted_before, p as int);
            lemma_move_keeps_order(candidates, rest_before, sorted_before, p as int);
            lemma_total_count_insert(sorted_before, p as int, moved);
        }
        sorted.insert(p, entry);
        proof {
            assert(ranking_view(rest@) =~= rest_before.drop_last());
            assert(ranking_view(sorted@) =~= sorted_before.insert(p as int, moved));
        }
    }
    proof {
        assert(ranking_view(rest@) =~= Seq::empty());
    }
    sorted
}

/// Ranks the domains of sender addresses by frequency. A sender whose
/// address could not be read, or whose address holds no `@`, counts as a
/// failure and takes no part in the ranking. Every sender is accounted for:
/// the ranked counts and the failures add up to the number of senders.
pub fn top_offending_domains(addresses: &Vec<Option<String>>) -> (r: DomainRanking)
    ensures
        is_ranking(candidate_domains(addresses@), ranking_view(r.ranking@)),
        r.failures == failure_count(candidate_domains(addresses@)),
        total_count(ranking_view(r.ranking@)) + r.failures == addresses@.len(),
{
    let ghost candidates = candidate_domains(addresses@);
    let mut tally: Vec<(String, usize)> = Vec::new();
    let mut failures: usize = 0;
    let mut n: usize = 0;
    while n < addresses.len()
        invariant
            n <= addresses.len(),
            candidates == candidate_domains(addresses@),
            counts_domains(candidates.take(n as int), ranking_view(tally@)),
            in_first_seen_order(candidates.take(n as int), ranking_view(tally@)),
            failures == failure_count(candidates.take(n as int)),
            total_count(ranking_view(tally@)) + failures == n,
        decreases addresses.len() - n,
    {
        let domain: Option<String> = match &addresses[n] {
            Some(address) => address_domain(address.as_str()),
            None => None,
        };
        let ghost seen = candidates.take(n as int);
        proof {
            assert(candidates.take(n + 1).drop_last() =~= seen);
            assert(candidates.take(n + 1) =~= seen.push(candidates[n as int]));
        }
        match domain {
            Some(domain) => {
                proof {
                    assert(candidates[n as int] == Some(domain@));
                }
                count_domain(&mut tally, domain, Ghost(seen));
            },
            None => {
                proof {
                    let now = candidates.take(n + 1);
                    let entries = ranking_view(tally@);
                    assert(candidates[n as int] is None);
                    assert(now.last() is None);
                    assert forall|d: Seq<char>| #[trigger]
                        domain_count(now, d) == domain_count(seen, d) by {}
                    assert forall|i: int| 0 <= i < entries.len() implies first_seen(
                        now,
                        (#[trigger] entries[i]).0,
                    ) == first_seen(seen, entries[i].0) by {}
                }
                failures += 1;
            },
        }
        n += 1;
    }
    proof {
        assert(candidates.take(n as int) =~= candidates);
    }
    let ranking = rank_tally(tally, Ghost(candidates));
    DomainRanking { ranking, failures }
}

/// One line of the report: a list item that names a domain and its count.
pub open spec fn report_item(entry: (Seq<char>, usize)) -> Seq<char> {
    "<li>"@ + entry.0 + ": "@ + decimal_digits(entry.1 as nat) + "</li>\n"@
}

/// The lines of the report, one per entry, joined by line breaks.
pub open spec fn report_items(ranking: Seq<(Seq<char>, usize)>) -> Seq<char>
    decreases ranking.len(),
{
    if ranking.len() == 0 {
        Seq::empty()
    } else if ranking.len() == 1 {
        report_item(ranking[0])
    } else {
        report_items(ranking.drop_last()) + "\n"@ + report_item(ranking.last())
    }
}

/// The report on a ranking: a heading, a sentence of explanation, and the
/// ranked domains as an unstyled list.
pub open spec fn report_text(ranking: Seq<(Seq<char>, usize)>) -> Seq<char> {
    "<h3>Misclassified Domains</h3>"@ + "<p>Domains that have sent mail misclassified as ham.</p>"@
        + "<ul style=\"list-style-type:none;\">"@ + report_items(ranking) + "</ul>"@
}

/// Writes a ranking as a fragment of HTML.
pub fn render_domain_report(ranking: &Vec<(String, usize)>) -> (text: String)
    ensures
        text@ == report_text(ranking_view(ranking@)),
{
    let ghost entries = ranking_view(ranking@);
    let mut items: String = String::new();
    let mut n: usize = 0;
    while n < ranking.len()
        invariant
            n <= ranking.len(),
            entries == ranking_view(ranking@),
            items@ == report_items(entries.take(n as int)),
        decreases ranking.len() - n,
    {
        let ghost before = items@;
        if n > 0 {
            items.append("\n");
        }
        items.append("<li>");
        items.append(ranking[n].0.as_str());
        items.append(": ");
        let count: String = decimal_string(ranking[n].1);
        items.append(count.as_str());
        items.append("</li>\n");
        proof {
            let now = entries.take(n + 1);
            assert(now.drop_last() =~= entries.take(n as int));
            assert(now.last() == entries[n as int]);
            if n == 0 {
                assert(before =~= Seq::<char>::empty());
                assert(now[0] == entries[0]);
                assert(items@ =~= report_item(entries[0]));
            } else {
                assert(items@ =~= before + "\n"@ + report_item(entries[n as int]));
            }
        }
        n += 1;
    }
    proof {
        assert(entries.take(n as int) =~= entries);
    }
    let mut text: String = String::from_str("<h3>Misclassified Domains</h3>");
    text.append("<p>Domains that have sent mail misclassified as ham.</p>");
    text.append("<ul style=\"list-style-type:none;\">");
    text.append(items.as_str());
    text.append("</ul>");
    text
}

/// The report on the sender domains of misclassified messages, as a
/// fragment of HTML: see [`top_offending_domains`] for the ranking.
pub fn domain_report(addresses: &Vec<Option<String>>) -> (text: String)
    ensures
        exists|ranking: Seq<(Seq<char>, usize)>| #[trigger]
            is_ranking(candidate_domains(addresses@), ranking) && text@ == report_text(ranking),
{
    let domains = top_offending_domains(addresses);
    let text = render_domain_report(&domains.ranking);
    proof {
        assert(is_ranking(candidate_domains(addresses@), ranking_view(domains.ranking@)));
    }
    text
}

} // verus!
