//! The shapes the pipeline works on: raw call entries as the documents
//! carry them, and the canonical record every later stage consumes.

use vstd::prelude::*;
use crate::phone::{normalize_spec, normalize_phone_number};

use crate::time::{
    UtcTime, parse_rfc3339, rfc3339_valid, rfc3339_epoch, date_chars, time_chars, date_time_chars,
    weekday_chars, format_date, format_time, format_date_time, weekday_name,
};

verus! {

/// One call entry as a document carries it: free-text direction, the
/// remote party's number, the two timestamps as text, and the length of
/// the call in whole seconds.
pub struct CallRecord {
    pub message_direction: String,
    pub remote_number: String,
    pub start_time: String,
    pub end_time: String,
    pub length_of_call: u32,
}

/// The abstract value of a `CallRecord`.
pub struct CallRecordView {
    pub message_direction: Seq<char>,
    pub remote_number: Seq<char>,
    pub start_time: Seq<char>,
    pub end_time: Seq<char>,
    pub length_of_call: u32,
}

impl View for CallRecord {
    type V = CallRecordView;

    open spec fn view(&self) -> CallRecordView {
        CallRecordView {
            message_direction: self.message_direction@,
            remote_number: self.remote_number@,
            start_time: self.start_time@,
            end_time: self.end_time@,
            length_of_call: self.length_of_call,
        }
    }
}

/// The inner result block of a typed document: target metadata and the
/// list of call entries.
pub struct Lds101Results {
    pub target_type: String,
    pub target_value: String,
    pub from_date: String,
    pub to_date: String,
    pub results: Vec<CallRecord>,
}

/// The abstract value of an `Lds101Results`.
pub struct LdsResultsView {
    pub target_type: Seq<char>,
    pub target_value: Seq<char>,
    pub from_date: Seq<char>,
    pub to_date: Seq<char>,
    pub results: Seq<CallRecordView>,
}

impl View for Lds101Results {
    type V = LdsResultsView;

    open spec fn view(&self) -> LdsResultsView {
        LdsResultsView {
            target_type: self.target_type@,
            target_value: self.target_value@,
            from_date: self.from_date@,
            to_date: self.to_date@,
            results: self.results@.map_values(|c: CallRecord| c@),
        }
    }
}

/// A whole typed document: a root wrapping one result block.
pub struct DataProduct {
    pub xml_result: Lds101Results,
}

impl View for DataProduct {
    type V = LdsResultsView;

    open spec fn view(&self) -> LdsResultsView {
        self.xml_result@
    }
}

/// Why a single call entry was rejected during normalization.
#[derive(PartialEq, Eq, Structural, Clone, Copy, Debug)]
pub enum ParseError {
    /// A start or end timestamp was not a supported RFC-3339 date-time.
    InvalidTimestamp,
}

/// The canonical record: one call, with the remote number normalized, the
/// instants parsed into UTC, and the display fields derived from the start
/// instant.
pub struct ProcessedCallRecord {
    pub message_direction: String,
    pub remote_number: String,
    pub normalized_number: String,
    pub target_number: String,
    pub source_file: String,
    pub start_time: UtcTime,
    pub end_time: UtcTime,
    pub length_of_call: u32,
    pub date: String,
    pub time: String,
    pub date_time: String,
    pub day_of_week: String,
}

impl ProcessedCallRecord {
    /// The derived fields agree with the fields they are derived from.
    pub open spec fn wf(self) -> bool {
        &&& self.start_time.inv()
        &&& self.end_time.inv()
        &&& self.normalized_number@ == normalize_spec(self.remote_number@)
        &&& self.date@ == date_chars(self.start_time)
        &&& self.time@ == time_chars(self.start_time)
        &&& self.date_time@ == date_time_chars(self.start_time)
        &&& self.day_of_week@ == weekday_chars(self.start_time.weekday as int)
    }

    /// A field-by-field copy.
    pub fn duplicate(&self) -> (r: ProcessedCallRecord)
        ensures
            r.message_direction@ == self.message_direction@,
            r.remote_number@ == self.remote_number@,
            r.normalized_number@ == self.normalized_number@,
            r.target_number@ == self.target_number@,
            r.source_file@ == self.source_file@,
            r.start_time == self.start_time,
            r.end_time == self.end_time,
            r.length_of_call == self.length_of_call,
            r.date@ == self.date@,
            r.time@ == self.time@,
            r.date_time@ == self.date_time@,
            r.day_of_week@ == self.day_of_week@,
            self.wf() ==> r.wf(),
    {
        ProcessedCallRecord {
            message_direction: self.message_direction.clone(),
            remote_number: self.remote_number.clone(),
            normalized_number: self.normalized_number.clone(),
            target_number: self.target_number.clone(),
            source_file: self.source_file.clone(),
            start_time: self.start_time,
            end_time: self.end_time,
            length_of_call: self.length_of_call,
            date: self.date.clone(),
            time: self.time.clone(),
            date_time: self.date_time.clone(),
            day_of_week: self.day_of_week.clone(),
        }
    }

    /// Builds the canonical record for one raw entry: both timestamps must
    /// be supported RFC-3339 date-times; everything else is copied or
    /// derived, and cannot fail.
    pub fn from_call_record(call: &CallRecord, target_number: &str, source_file: &str) -> (r:
        Result<ProcessedCallRecord, ParseError>)
        ensures
            r is Ok <==> rfc3339_valid(call.start_time@) && rfc3339_valid(call.end_time@),
            r matches Ok(p) ==> record_matches(p, call@, target_number@, source_file@),
    {
        let st = match parse_rfc3339(call.start_time.as_str()) {
            Some(t) => t,
            None => { return Err(ParseError::InvalidTimestamp) },
        };
        let et = match parse_rfc3339(call.end_time.as_str()) {
            Some(t) => t,
            None => { return Err(ParseError::InvalidTimestamp) },
        };
        let normalized_number = normalize_phone_number(call.remote_number.as_str());
        Ok(
            ProcessedCallRecord {
                message_direction: call.message_direction.clone(),
                remote_number: call.remote_number.clone(),
                normalized_number,
                target_number: target_number.to_owned(),
                source_file: source_file.to_owned(),
                start_time: st,
                end_time: et,
                length_of_call: call.length_of_call,
                date: format_date(&st),
                time: format_time(&st),
                date_time: format_date_time(&st),
                day_of_week: weekday_name(&st),
            },
        )
    }
}

/// `p` is the canonical record for the raw entry `c` under the given
/// target and source identifiers.
pub open spec fn record_matches(
    p: ProcessedCallRecord,
    c: CallRecordView,
    target: Seq<char>,
    source: Seq<char>,
) -> bool {
    &&& p.wf()
    &&& p.message_direction@ == c.message_direction
    &&& p.remote_number@ == c.remote_number
    &&& p.target_number@ == target
    &&& p.source_file@ == source
    &&& p.length_of_call == c.length_of_call
    &&& rfc3339_valid(c.start_time)
    &&& rfc3339_valid(c.end_time)
    &&& p.start_time.epoch_seconds == rfc3339_epoch(c.start_time)
    &&& p.end_time.epoch_seconds == rfc3339_epoch(c.end_time)
}

/// A normalized number observed under two or more distinct target
/// identifiers, with the targets it appears under.
pub struct CommonContact {
    pub number: String,
    pub target_numbers: Vec<String>,
    pub count: usize,
}

} // verus!

verus! {

/// A recomputable snapshot of aggregate statistics over one record set.
/// Durations are integers: total in seconds, the average in hundredths
/// of a second (floor of `100 * total / count`).
pub struct Analytics {
    pub total_calls: usize,
    pub incoming_calls: usize,
    pub outgoing_calls: usize,
    pub total_duration_seconds: u128,
    pub average_call_duration_centiseconds: u128,
    pub unique_numbers: usize,
    /// The up-to-ten most frequent normalized numbers with their counts,
    /// most frequent first.
    pub most_frequent_numbers: Vec<(String, usize)>,
    /// Call counts by `YYYY-MM-DD` date, ascending by date.
    pub calls_by_day: Vec<(String, usize)>,
    /// Call counts by hour of day; always exactly 24 entries.
    pub calls_by_hour: Vec<usize>,
    pub longest_call: Option<ProcessedCallRecord>,
    pub shortest_call: Option<ProcessedCallRecord>,
    /// The distinct non-empty target identifiers, in order of first
    /// occurrence.
    pub target_numbers: Vec<String>,
    pub common_contacts: Vec<CommonContact>,
    /// The distinct non-empty source identifiers, in order of first
    /// occurrence.
    pub files_processed: Vec<String>,
    /// The least and greatest start instant; absent for an empty set.
    pub date_range: Option<(UtcTime, UtcTime)>,
}

} // verus!
