//! Reading classified messages out of the headers of mail texts, and picking
//! the senders of the messages that the filter let through.

use crate::calendar::Date;
use crate::domains::{
    candidate_domains, failure_count, is_ranking, ranking_view, top_offending_domains,
    total_count, DomainRanking,
};
use crate::pattern::{capture_group, regex_capture, text_view};
use crate::statistics::{days_received_where, days_where, SpamEmail, SpamResult};
use crate::text::{
    all_digits, decimal_value, digit_value, find_char, first_at, is_digit, parse_decimal,
    same_text,
};
use vstd::prelude::*;
use vstd::string::*;

verus! {

/// Why a mail text does not give a classified message.
#[derive(Debug, Copy, Clone, PartialEq, Eq, Structural)]
pub enum EmailError {
    /// A required header is missing, or the filter's result header does not
    /// hold a score.
    MissingOrMalformedHeader,
    /// The text is no mail message, or a required header cannot be decoded.
    UnparsableMessage,
    /// The score in the filter's result header is no decimal number.
    UnparsableScore,
}

/// What a lookup of a header in a mail text gave: `None` when the text is
/// no mail message or the header's value cannot be decoded, `Some(None)`
/// when the message has no such header, else the decoded value of the last
/// header of that name.
pub type HeaderLookup = Option<Option<String>>;

/// The characters of a header lookup.
pub open spec fn lookup_view(lookup: HeaderLookup) -> Option<Option<Seq<char>>> {
    match lookup {
        Some(found) => Some(text_view(found)),
        None => None,
    }
}

/// The expression that finds the score in the filter's result header: the
/// number that follows the first opening square bracket.
pub fn spamd_result_pattern() -> (pattern: &'static str)
    ensures
        pattern@ == "[^\\[]*\\[(-?[.0-9]*)"@,
{
    "[^\\[]*\\[(-?[.0-9]*)"
}

/// The digit at place `k` after the decimal point, zero past the end.
pub open spec fn fraction_digit(fraction: Seq<char>, k: int) -> nat {
    if k < fraction.len() {
        digit_value(fraction[k])
    } else {
        0
    }
}

/// The first three places after the decimal point as a number of
/// thousandths; further places are cut off.
pub open spec fn thousandths(fraction: Seq<char>) -> nat {
    fraction_digit(fraction, 0) * 100 + fraction_digit(fraction, 1) * 10 + fraction_digit(
        fraction,
        2,
    )
}

/// The score that a decimal text writes, in thousandths: an optional minus
/// sign, digits, and optionally a point and more digits, with at least one
/// digit in all. `None` for any other text, and for a number too large to
/// hold.
pub open spec fn score_of_text(text: Seq<char>) -> Option<int> {
    let negative = text.len() > 0 && text[0] == '-';
    let body = if negative {
        text.skip(1)
    } else {
        text
    };
    let dot = first_at(body, '.');
    let whole = body.take(dot);
    let fraction = if dot < body.len() {
        body.skip(dot + 1)
    } else {
        Seq::empty()
    };
    let magnitude = decimal_value(whole) * 1000 + thousandths(fraction);
    if all_digits(whole) && all_digits(fraction) && whole.len() + fraction.len() > 0 && magnitude
        <= i64::MAX {
        Some(
            if negative {
                -magnitude
            } else {
                magnitude as int
            },
        )
    } else {
        None
    }
}

/// The first three places of a fraction as thousandths, or `None` when the
/// text holds anything but digits.
fn fraction_thousandths(fraction: &str) -> (r: Option<u64>)
    ensures
        r == if all_digits(fraction@) {
            Some(thousandths(fraction@) as u64)
        } else {
            None
        },
        r matches Some(t) ==> t <= 999,
{
    let len: usize = fraction.unicode_len();
    let mut n: usize = 0;
    while n < len
        invariant
            n <= len,
            len == fraction@.len(),
            forall|i: int| 0 <= i < n ==> is_digit(#[trigger] fraction@[i]),
        decreases len - n,
    {
        let c: char = fraction.get_char(n);
        if !('0' <= c && c <= '9') {
            return None;
        }
        n += 1;
    }
    let first: u64 = if 0 < len {
        (fraction.get_char(0) as u32 - 48) as u64
    } else {
        0
    };
    let second: u64 = if 1 < len {
        (fraction.get_char(1) as u32 - 48) as u64
    } else {
        0
    };
    let third: u64 = if 2 < len {
        (fraction.get_char(2) as u32 - 48) as u64
    } else {
        0
    };
    Some(first * 100 + second * 10 + third)
}

/// Reads a decimal text as a score in thousandths.
pub fn parse_score(text: &str) -> (r: Option<SpamResult>)
    ensures
        r matches Some(score) ==> score_of_text(text@) == Some(score as int),
        r is None ==> score_of_text(text@) is None,
{
    let len: usize = text.unicode_len();
    let negative: bool = len > 0 && text.get_char(0) == '-';
    let body: &str = if negative {
        text.substring_char(1, len)
    } else {
        text
    };
    let body_len: usize = body.unicode_len();
    let dot: usize = find_char(body, '.', 0);
    let whole_text: &str = body.substring_char(0, dot);
    let fraction_text: &str = if dot < body_len {
        body.substring_char(dot + 1, body_len)
    } else {
        body.substring_char(body_len, body_len)
    };
    proof {
        assert(body@ =~= if negative {
            text@.skip(1)
        } else {
            text@
        });
        assert(whole_text@ =~= body@.take(dot as int));
        assert(fraction_text@ =~= if dot < body@.len() {
            body@.skip(dot + 1)
        } else {
            Seq::empty()
        });
    }
    let whole_len: usize = whole_text.unicode_len();
    let fraction_len: usize = fraction_text.unicode_len();
    if whole_len == 0 && fraction_len == 0 {
        return None;
    }
    let whole: u64 = if whole_len == 0 {
        0
    } else {
        match parse_decimal(whole_text) {
            Some(value) => value,
            None => {
                return None;
            },
        }
    };
    let part: u64 = match fraction_thousandths(fraction_text) {
        Some(value) => value,
        None => {
            return None;
        },
    };
    if whole > (0x7fff_ffff_ffff_ffff - part) / 1000 {
        return None;
    }
    let magnitude: i64 = (whole * 1000 + part) as i64;
    if negative {
        Some(-magnitude)
    } else {
        Some(magnitude)
    }
}

/// Why the headers of a message do not give a classified message, if they do
/// not: judged in the order result header, score text, sender, score value.
pub open spec fn header_error(
    result_header: Option<Option<Seq<char>>>,
    score_text: Option<Seq<char>>,
    from_header: Option<Option<Seq<char>>>,
) -> Option<EmailError> {
    match result_header {
        None => Some(EmailError::UnparsableMessage),
        Some(None) => Some(EmailError::MissingOrMalformedHeader),
        Some(Some(_)) => match score_text {
            None => Some(EmailError::MissingOrMalformedHeader),
            Some(text) => match from_header {
                None => Some(EmailError::UnparsableMessage),
                Some(None) => Some(EmailError::MissingOrMalformedHeader),
                Some(Some(_)) => if score_of_text(text) is None {
                    Some(EmailError::UnparsableScore)
                } else {
                    None
                },
            },
        },
    }
}

/// Whether `outcome` is what the headers of a message received on
/// `date_received` give: the error of [`header_error`] if there is one, else
/// the message with the score that the score text writes, classified as
/// spam exactly if the spam header reads `Yes`, and with the sender header
/// as its sender.
pub open spec fn is_classification(
    result_header: Option<Option<Seq<char>>>,
    score_text: Option<Seq<char>>,
    spam_header: Option<Option<Seq<char>>>,
    from_header: Option<Option<Seq<char>>>,
    date_received: Date,
    outcome: Result<SpamEmail, EmailError>,
) -> bool {
    match outcome {
        Err(error) => header_error(result_header, score_text, from_header) == Some(error),
        Ok(email) => {
            &&& header_error(result_header, score_text, from_header) is None
            &&& email.date_received == date_received
            &&& score_of_text(score_text->0) == Some(email.spam_result as int)
            &&& email.is_spam == (spam_header == Some(Some("Yes"@)))
            &&& from_header == Some(Some(email.from@))
        },
    }
}

/// The text in which the filter's result header holds the score, if the
/// header was found: what [`spamd_result_pattern`] captures in its value.
pub open spec fn score_text_of(result_header: Option<Option<Seq<char>>>) -> Option<Seq<char>> {
    match result_header {
        Some(Some(value)) => regex_capture("[^\\[]*\\[(-?[.0-9]*)"@, value, 1),
        _ => None,
    }
}

/// Puts a classified message together from what was found in a mail text:
/// the filter's result header, the score text captured in it, the spam
/// header and the sender header.
pub fn classify_headers(
    result_header: HeaderLookup,
    score_text: Option<String>,
    spam_header: HeaderLookup,
    from_header: HeaderLookup,
    date_received: Date,
) -> (outcome: Result<SpamEmail, EmailError>)
    ensures
        is_classification(
            lookup_view(result_header),
            text_view(score_text),
            lookup_view(spam_header),
            lookup_view(from_header),
            date_received,
            outcome,
        ),
{
    match result_header {
        None => {
            return Err(EmailError::UnparsableMessage);
        },
        Some(None) => {
            return Err(EmailError::MissingOrMalformedHeader);
        },
        Some(Some(_)) => {},
    }
    let text: String = match score_text {
        None => {
            return Err(EmailError::MissingOrMalformedHeader);
        },
        Some(text) => text,
    };
    let is_spam: bool = match spam_header {
        Some(Some(value)) => same_text(value.as_str(), "Yes"),
        _ => false,
    };
    let from: String = match from_header {
        None => {
            return Err(EmailError::UnparsableMessage);
        },
        Some(None) => {
            return Err(EmailError::MissingOrMalformedHeader);
        },
        Some(Some(from)) => from,
    };
    match parse_score(text.as_str()) {
        None => Err(EmailError::UnparsableScore),
        Some(spam_result) => Ok(SpamEmail { date_received, spam_result, is_spam, from }),
    }
}

/// Puts a classified message together from the headers of a mail text
/// that was received on `date_received`: the lookups of `X-Spamd-Result`,
/// `X-Spam` and `From`. The score is the number after the first opening
/// square bracket of the result header; the message counts as spam exactly
/// if its spam header reads `Yes`.
pub fn make_spam_email(
    result_header: HeaderLookup,
    spam_header: HeaderLookup,
    from_header: HeaderLookup,
    date_received: Date,
) -> (outcome: Result<SpamEmail, EmailError>)
    ensures
        is_classification(
            lookup_view(result_header),
            score_text_of(lookup_view(result_header)),
            lookup_view(spam_header),
            lookup_view(from_header),
            date_received,
            outcome,
        ),
{
    let score_text: Option<String> = match &result_header {
        Some(Some(value)) => capture_group(spamd_result_pattern(), value.as_str(), 1),
        _ => None,
    };
    classify_headers(result_header, score_text, spam_header, from_header, date_received)
}

/// The senders of the messages that were not classified as spam, in message
/// order.
pub open spec fn ham_senders(emails: Seq<SpamEmail>) -> Seq<Seq<char>>
    decreases emails.len(),
{
    if emails.len() == 0 {
        Seq::empty()
    } else {
        let front = ham_senders(emails.drop_last());
        if emails.last().is_spam {
            front
        } else {
            front.push(emails.last().from@)
        }
    }
}

/// There is one sender for each message that was not classified as spam.
pub proof fn lemma_ham_senders_len(emails: Seq<SpamEmail>)
    ensures
        ham_senders(emails).len() == days_where(emails, false).len(),
    decreases emails.len(),
{
    if emails.len() > 0 {
        lemma_ham_senders_len(emails.drop_last());
    }
}

/// The senders of the messages that the filter did not classify as spam,
/// in message order: the ones whose domains are ranked.
pub fn misclassified_senders(emails: &Vec<SpamEmail>) -> (senders: Vec<String>)
    ensures
        senders@.len() == ham_senders(emails@).len(),
        forall|i: int| 0 <= i < senders@.len() ==> (#[trigger] senders@[i])@ == ham_senders(emails@)[i],
        senders@.len() == days_where(emails@, false).len(),
{
    let mut senders: Vec<String> = Vec::new();
    let mut n: usize = 0;
    while n < emails.len()
        invariant
            n <= emails.len(),
            senders@.len() == ham_senders(emails@.take(n as int)).len(),
            forall|i: int|
                0 <= i < senders@.len() ==> (#[trigger] senders@[i])@ == ham_senders(
                    emails@.take(n as int),
                )[i],
        decreases emails.len() - n,
    {
        proof {
            assert(emails@.take(n + 1).drop_last() =~= emails@.take(n as int));
        }
        if !emails[n].is_spam {
            senders.push(emails[n].from.clone());
        }
        n += 1;
    }
    proof {
        assert(emails@.take(n as int) =~= emails@);
        lemma_ham_senders_len(emails@);
    }
    senders
}

/// Ranks the sender domains of the messages that the filter did not
/// classify as spam, given for each such message, in message order, the
/// address that was read out of its sender (none where it could not be
/// read). Every such message is accounted for, and no other: the ranked
/// counts and the failures add up to their number. `None` when the
/// addresses are not one for each such message.
pub fn rank_misclassified(emails: &Vec<SpamEmail>, addresses: &Vec<Option<String>>) -> (r: Option<
    DomainRanking,
>)
    ensures
        r is None <==> addresses@.len() != days_where(emails@, false).len(),
        r matches Some(domains) ==> {
            &&& is_ranking(candidate_domains(addresses@), ranking_view(domains.ranking@))
            &&& domains.failures == failure_count(candidate_domains(addresses@))
            &&& total_count(ranking_view(domains.ranking@)) + domains.failures == days_where(
                emails@,
                false,
            ).len()
        },
{
    let misclassified: usize = days_received_where(emails, false).len();
    if addresses.len() != misclassified {
        None
    } else {
        Some(top_offending_domains(addresses))
    }
}

} // verus!
