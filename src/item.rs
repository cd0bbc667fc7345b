use vstd::prelude::*;
use chrono::{DateTime, Utc};
use crate::usage::Usage;

verus! {

/// One raw log record: when it was written and the message it carries.
#[derive(Clone, Debug)]
pub struct LogEntry {
    pub timestamp: String,
    pub message: Message,
}

/// The message of a log record: the model that answered and what it used.
#[derive(Clone, Debug)]
pub struct Message {
    pub model: Option<String>,
    pub usage: Option<Usage>,
}

/// A normalized record: a log record that names its model.
#[derive(Clone, Debug)]
pub struct Item {
    pub model: String,
    pub timestamp: String,
    pub usage: Option<Usage>,
}

/// The calendar day (`YYYY-MM-DD`, UTC) of a timestamp that chrono reads as an
/// RFC 3339 date and time, or `None` where it does not read it.
pub uninterp spec fn utc_day_of(timestamp: Seq<char>) -> Option<Seq<char>>;

/// The bucket a timestamp falls in: its UTC calendar day where the timestamp
/// parses, else the timestamp itself.
pub open spec fn day_bucket(timestamp: Seq<char>) -> Seq<char> {
    match utc_day_of(timestamp) {
        Some(day) => day,
        None => timestamp,
    }
}

/// Relies on chrono: `str::parse::<DateTime<Utc>>` reads the timestamp, and
/// `DateTime::format("%Y-%m-%d")` writes its calendar day.
#[verifier::external_body]
fn parse_utc_day(timestamp: &str) -> (r: Option<String>)
    ensures
        match r {
            Some(day) => utc_day_of(timestamp@) == Some(day@),
            None => utc_day_of(timestamp@).is_none(),
        },
{
    timestamp.parse::<DateTime<Utc>>().ok().map(|dt| dt.format("%Y-%m-%d").to_string())
}

impl Item {
    /// The normalized record of a log entry, or `None` where it names no model.
    pub fn from_log_entry(entry: LogEntry) -> (r: Option<Item>)
        ensures
            match entry.message.model {
                Some(model) => r == Some(
                    Item { model, timestamp: entry.timestamp, usage: entry.message.usage },
                ),
                None => r.is_none(),
            },
    {
        match entry.message.model {
            Some(model) => Some(
                Item { model, timestamp: entry.timestamp, usage: entry.message.usage },
            ),
            None => None,
        }
    }

    /// The date bucket of this record: its UTC calendar day, or the raw
    /// timestamp where that does not parse.
    pub fn get_timestamp_key(&self) -> (r: String)
        ensures
            r@ == day_bucket(self.timestamp@),
    {
        let parsed = parse_utc_day(self.timestamp.as_str());
        Item::bucket_of(parsed, &self.timestamp)
    }

    /// The date bucket given what parsing the timestamp gave: the parsed day,
    /// else the timestamp verbatim.
    pub fn bucket_of(parsed_day: Option<String>, timestamp: &String) -> (r: String)
        ensures
            r@ == match parsed_day {
                Some(day) => day@,
                None => timestamp@,
            },
    {
        match parsed_day {
            Some(day) => day,
            None => timestamp.clone(),
        }
    }
}

} // verus!
