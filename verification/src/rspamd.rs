//! The filter daemon's own statistics: its report as lines of text, and
//! the number of messages that each action was taken on.

use crate::pattern::{capture_group, regex_capture, text_view};
use crate::series::Occurrences;
use crate::statistics::Rate;
use crate::text::{all_digits, decimal_value, find_char, first_at, lemma_first_at, parse_decimal, same_text};
use vstd::prelude::*;
use vstd::string::*;

verus! {

/// Why the daemon's statistics could not be had.
#[derive(Clone, Debug)]
pub enum RspamdError {
    /// The daemon's client could not be run, or it failed; with what it said.
    Subprocess(String),
}

/// How many messages each action was taken on.
#[derive(Clone, Copy, Debug, PartialEq, Eq, Structural)]
pub struct MessageActions {
    pub reject: Occurrences,
    pub greylist: Occurrences,
    pub add_header: Occurrences,
    pub no_action: Occurrences,
}

/// The daemon's report, line by line, and the action counts found in it.
pub struct RspamdStatistics {
    pub statistics: Vec<String>,
    pub message_actions: MessageActions,
}

/// The error for a failure of the daemon's client, with its message.
pub fn rspamd_error(message: String) -> (error: RspamdError)
    ensures
        error == RspamdError::Subprocess(message),
{
    RspamdError::Subprocess(message)
}

/// The expression that finds an action and its count in a line of the
/// report.
pub fn action_pattern() -> (pattern: &'static str)
    ensures
        pattern@ == "^Messages with action ([^:]*): ([0-9]*),"@,
{
    "^Messages with action ([^:]*): ([0-9]*),"
}

/// The lines of a text: what stands between its line breaks.
pub open spec fn lines_of(text: Seq<char>) -> Seq<Seq<char>>
    decreases text.len(),
{
    let at = first_at(text, '\n');
    if at < 0 || at >= text.len() {
        seq![text]
    } else {
        seq![text.take(at)] + lines_of(text.skip(at + 1))
    }
}

/// The characters of each line.
pub open spec fn line_views(lines: Seq<String>) -> Seq<Seq<char>> {
    Seq::new(lines.len(), |i: int| lines[i]@)
}

/// No action was taken on any message.
pub open spec fn no_actions() -> MessageActions {
    MessageActions { reject: 0, greylist: 0, add_header: 0, no_action: 0 }
}

/// The counts after a line was read in which the expression captured `name`
/// and `count`. A line without a match, with a count that is no number that
/// fits, or with an unknown action leaves the counts as they were; a known
/// action has its count replaced.
pub open spec fn with_action(
    actions: MessageActions,
    name: Option<Seq<char>>,
    count: Option<Seq<char>>,
) -> MessageActions {
    if name is Some && count is Some && count->0.len() > 0 && all_digits(count->0) && decimal_value(
        count->0,
    ) <= usize::MAX {
        let occurrences = decimal_value(count->0) as usize;
        if name->0 == "reject"@ {
            MessageActions { reject: occurrences, ..actions }
        } else if name->0 == "greylist"@ {
            MessageActions { greylist: occurrences, ..actions }
        } else if name->0 == "add header"@ {
            MessageActions { add_header: occurrences, ..actions }
        } else if name->0 == "no action"@ {
            MessageActions { no_action: occurrences, ..actions }
        } else {
            actions
        }
    } else {
        actions
    }
}

/// The counts after all lines were read, first to last.
pub open spec fn actions_of(lines: Seq<Seq<char>>) -> MessageActions
    decreases lines.len(),
{
    if lines.len() == 0 {
        no_actions()
    } else {
        with_action(
            actions_of(lines.drop_last()),
            regex_capture("^Messages with action ([^:]*): ([0-9]*),"@, lines.last(), 1),
            regex_capture("^Messages with action ([^:]*): ([0-9]*),"@, lines.last(), 2),
        )
    }
}

impl Default for MessageActions {
    fn default() -> (actions: MessageActions)
        ensures
            actions == no_actions(),
    {
        MessageActions { reject: 0, greylist: 0, add_header: 0, no_action: 0 }
    }
}

impl MessageActions {
    /// The number of messages that any action was taken on.
    pub open spec fn total(self) -> int {
        self.reject + self.greylist + self.add_header + self.no_action
    }

    /// The number of messages that any action was taken on, unless it is too
    /// large to hold.
    pub fn checked_total(&self) -> (total: Option<usize>)
        ensures
            total == if self.total() <= usize::MAX {
                Some(self.total() as usize)
            } else {
                None
            },
    {
        let sum: u128 = (self.reject as u128) + (self.greylist as u128) + (self.add_header as u128)
            + (self.no_action as u128);
        if sum <= (usize::MAX as u128) {
            Some(sum as usize)
        } else {
            None
        }
    }

    /// Each action by name with its share of all messages, as a count out of
    /// the total: rejected, greylisted, marked by a header, and let through.
    pub fn actions(&self) -> (shares: Vec<(String, Rate)>)
        requires
            self.total() <= usize::MAX,
        ensures
            shares@.len() == 4,
            shares@[0].0@ == "Reject"@,
            shares@[0].1 == (Rate { part: self.reject, total: self.total() as usize }),
            shares@[1].0@ == "Greylist"@,
            shares@[1].1 == (Rate { part: self.greylist, total: self.total() as usize }),
            shares@[2].0@ == "Add Header"@,
            shares@[2].1 == (Rate { part: self.add_header, total: self.total() as usize }),
            shares@[3].0@ == "No Action"@,
            shares@[3].1 == (Rate { part: self.no_action, total: self.total() as usize }),
    {
        let total: usize = self.reject + self.greylist + self.add_header + self.no_action;
        let mut shares: Vec<(String, Rate)> = Vec::new();
        shares.push((String::from_str("Reject"), Rate { part: self.reject, total }));
        shares.push((String::from_str("Greylist"), Rate { part: self.greylist, total }));
        shares.push((String::from_str("Add Header"), Rate { part: self.add_header, total }));
        shares.push((String::from_str("No Action"), Rate { part: self.no_action, total }));
        shares
    }
}

/// Takes in what the expression captured in one line of the report.
pub fn record_action(actions: MessageActions, name: Option<String>, count: Option<String>) -> (r:
    MessageActions)
    ensures
        r == with_action(actions, text_view(name), text_view(count)),
{
    let name: String = match name {
        Some(name) => name,
        None => {
            return actions;
        },
    };
    let count: String = match count {
        Some(count) => count,
        None => {
            return actions;
        },
    };
    let value: u64 = match parse_decimal(count.as_str()) {
        Some(value) => value,
        None => {
            return actions;
        },
    };
    if value > (usize::MAX as u64) {
        return actions;
    }
    let occurrences: usize = value as usize;
    if same_text(name.as_str(), "reject") {
        MessageActions { reject: occurrences, ..actions }
    } else if same_text(name.as_str(), "greylist") {
        MessageActions { greylist: occurrences, ..actions }
    } else if same_text(name.as_str(), "add header") {
        MessageActions { add_header: occurrences, ..actions }
    } else if same_text(name.as_str(), "no action") {
        MessageActions { no_action: occurrences, ..actions }
    } else {
        actions
    }
}

/// Splits a text at its line breaks.
pub fn split_lines(text: &str) -> (lines: Vec<String>)
    ensures
        line_views(lines@) == lines_of(text@),
{
    let len: usize = text.unicode_len();
    let mut lines: Vec<String> = Vec::new();
    let mut start: usize = 0;
    let mut done: bool = false;
    proof {
        assert(text@.skip(0) =~= text@);
        assert(line_views(lines@) + lines_of(text@) =~= lines_of(text@));
    }
    while !done
        invariant
            start <= len,
            len == text@.len(),
            !done ==> line_views(lines@) + lines_of(text@.skip(start as int)) == lines_of(text@),
            done ==> line_views(lines@) == lines_of(text@),
        decreases len - start + (if done { 0int } else { 1int }),
    {
        let at: usize = find_char(text, '\n', start);
        let line: &str = text.substring_char(start, at);
        let ghost rest = text@.skip(start as int);
        let ghost before = line_views(lines@);
        proof {
            lemma_first_at(rest, '\n', at - start);
            assert(line@ =~= rest.take(at - start));
        }
        lines.push(String::from_str(line));
        proof {
            assert(line_views(lines@) =~= before.push(line@));
        }
        if at >= len {
            proof {
                assert(rest.take(at - start) =~= rest);
                assert(before.push(line@) =~= before + seq![rest]);
            }
            done = true;
        } else {
            proof {
                assert(rest.skip(at - start + 1) =~= text@.skip(at + 1));
                assert(before.push(line@) + lines_of(text@.skip(at + 1)) =~= before + (seq![
                    rest.take(at - start),
                ] + lines_of(rest.skip(at - start + 1))));
            }
            start = at + 1;
        }
    }
    lines
}

/// Reads the daemon's report: its lines, and the action counts that the
/// lines state.
pub fn parse_rspamd_statistics(output: &str) -> (r: RspamdStatistics)
    ensures
        line_views(r.statistics@) == lines_of(output@),
        r.message_actions == actions_of(lines_of(output@)),
{
    let statistics = split_lines(output);
    let mut message_actions = MessageActions::default();
    let mut n: usize = 0;
    while n < statistics.len()
        invariant
            n <= statistics.len(),
            message_actions == actions_of(line_views(statistics@).take(n as int)),
        decreases statistics.len() - n,
    {
        let name = capture_group(action_pattern(), statistics[n].as_str(), 1);
        let count = capture_group(action_pattern(), statistics[n].as_str(), 2);
        proof {
            let lines = line_views(statistics@);
            assert(lines.take(n + 1).drop_last() =~= lines.take(n as int));
            assert(lines.take(n + 1).last() == statistics@[n as int]@);
        }
        message_actions = record_action(message_actions, name, count);
        n += 1;
    }
    proof {
        let lines = line_views(statistics@);
        assert(lines.take(n as int) =~= lines);
    }
    RspamdStatistics { statistics, message_actions }
}

} // verus!
