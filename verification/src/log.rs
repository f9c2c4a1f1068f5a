//! The records that a run leaves in its log, one line each.

use vstd::prelude::*;

verus! {

/// One record of the log.
#[derive(Debug, Clone, PartialEq, Eq)]
pub enum LogRecord {
    /// A file was handed to the fingerprint engine.
    Processing(String),
    /// Two files have one fingerprint.
    DuplicateDetected { existing: String, candidate: String },
    /// A file is about to be removed.
    Deleting(String),
    /// The walk is over and nothing failed.
    Completed,
}

/// A `LogRecord` as contracts speak of it.
pub enum LogView {
    Processing(Seq<char>),
    DuplicateDetected { existing: Seq<char>, candidate: Seq<char> },
    Deleting(Seq<char>),
    Completed,
}

impl View for LogRecord {
    type V = LogView;

    open spec fn view(&self) -> LogView {
        match self {
            LogRecord::Processing(path) => LogView::Processing(path@),
            LogRecord::DuplicateDetected { existing, candidate } => LogView::DuplicateDetected {
                existing: existing@,
                candidate: candidate@,
            },
            LogRecord::Deleting(path) => LogView::Deleting(path@),
            LogRecord::Completed => LogView::Completed,
        }
    }
}

/// The views of `records`, in their order.
pub open spec fn log_views(records: Seq<LogRecord>) -> Seq<LogView> {
    records.map_values(|r: LogRecord| r@)
}

impl LogView {
    /// The text of the record's line, without the line's end.
    pub open spec fn line(self) -> Seq<char> {
        match self {
            LogView::Processing(path) => "Processing: "@ + path,
            LogView::DuplicateDetected { existing, candidate } => "DUPLICATE DETECTED: "@
                + existing + " and "@ + candidate,
            LogView::Deleting(path) => "DELETING: "@ + path,
            LogView::Completed => "Processing completed."@,
        }
    }
}

impl LogRecord {
    /// Returns the text of the record's line, without the line's end.
    pub fn line(&self) -> (text: String)
        ensures
            text@ == self@.line(),
    {
        match self {
            LogRecord::Processing(path) => "Processing: ".to_owned().concat(path.as_str()),
            LogRecord::DuplicateDetected { existing, candidate } => {
                "DUPLICATE DETECTED: ".to_owned().concat(existing.as_str()).concat(" and ").concat(
                    candidate.as_str(),
                )
            },
            LogRecord::Deleting(path) => "DELETING: ".to_owned().concat(path.as_str()),
            LogRecord::Completed => "Processing completed.".to_owned(),
        }
    }
}

} // verus!
