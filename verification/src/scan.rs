//! The scan: a walk over a directory tree that removes duplicate files, kept
//! apart from the I/O that it asks for.
//!
//! A `Scan` never touches the file system. It hands its driver one `Request`
//! at a time and takes the driver's `Reply` to it; from the replies it decides
//! which directory to list next, which file to fingerprint, and which of two
//! files with one fingerprint has to go.

use crate::entry::{entry_views, lemma_visible_first, visible, EntryView, FileEntry};
use crate::fingerprint::{fingerprint_from_output, fingerprint_of};
use crate::log::{log_views, LogRecord, LogView};
use crate::registry::{decide, verdict_for, Registry, Verdict};
use vstd::prelude::*;

verus! {

/// What the scan asks its driver to do next.
#[derive(Debug, Clone, PartialEq, Eq)]
pub enum Request {
    /// List the entries of this directory, in the order the file system
    /// gives them.
    ListDirectory(String),
    /// Run the hashing tool on this file.
    Fingerprint(String),
    /// Read the times at which these two files were last modified.
    ReadModified { existing: String, candidate: String },
    /// Remove this file.
    Remove(String),
    /// Nothing: the walk is complete.
    Finished,
}

/// A `Request` as contracts speak of it.
pub enum RequestView {
    ListDirectory(Seq<char>),
    Fingerprint(Seq<char>),
    ReadModified { existing: Seq<char>, candidate: Seq<char> },
    Remove(Seq<char>),
    Finished,
}

impl View for Request {
    type V = RequestView;

    open spec fn view(&self) -> RequestView {
        match self {
            Request::ListDirectory(dir) => RequestView::ListDirectory(dir@),
            Request::Fingerprint(file) => RequestView::Fingerprint(file@),
            Request::ReadModified { existing, candidate } => RequestView::ReadModified {
                existing: existing@,
                candidate: candidate@,
            },
            Request::Remove(file) => RequestView::Remove(file@),
            Request::Finished => RequestView::Finished,
        }
    }
}

/// What the driver reports of the request it was handed.
#[derive(Debug, Clone, PartialEq, Eq)]
pub enum Reply {
    /// The entries of the directory, in the order the file system gave them.
    Listing(Vec<FileEntry>),
    /// The hashing tool ran: whether it reported success, and what it printed.
    ToolOutput { success: bool, output: String },
    /// When the two files were last modified, as counts of one unit of time
    /// from one origin.
    Modified { existing: i128, candidate: i128 },
    /// The file is gone.
    Removed,
    /// The request could not be carried out.
    Failed,
}

/// A `Reply` as contracts speak of it.
pub enum ReplyView {
    Listing(Seq<EntryView>),
    ToolOutput { success: bool, output: Seq<char> },
    Modified { existing: int, candidate: int },
    Removed,
    Failed,
}

impl View for Reply {
    type V = ReplyView;

    open spec fn view(&self) -> ReplyView {
        match self {
            Reply::Listing(entries) => ReplyView::Listing(entry_views(entries@)),
            Reply::ToolOutput { success, output } => ReplyView::ToolOutput {
                success: *success,
                output: output@,
            },
            Reply::Modified { existing, candidate } => ReplyView::Modified {
                existing: *existing as int,
                candidate: *candidate as int,
            },
            Reply::Removed => ReplyView::Removed,
            Reply::Failed => ReplyView::Failed,
        }
    }
}

/// Why a scan ended before the walk was complete, or refused a reply.
#[derive(Debug, Clone, Copy, PartialEq, Eq, Structural)]
pub enum ScanError {
    /// A directory could not be listed.
    Traversal,
    /// The time at which a file was last modified could not be read.
    Metadata,
    /// A file that had to go could not be removed.
    Removal,
    /// The reply does not answer the request that was handed out.
    Unexpected,
    /// The scan is over: it was complete, or it had failed.
    Closed,
}

impl ScanError {
    /// What went wrong, in a few words.
    pub open spec fn text(self) -> Seq<char> {
        match self {
            ScanError::Traversal => "cannot list directory"@,
            ScanError::Metadata => "cannot read modification time"@,
            ScanError::Removal => "cannot remove file"@,
            ScanError::Unexpected => "reply does not answer the request"@,
            ScanError::Closed => "scan is over"@,
        }
    }

    /// Returns what went wrong, in a few words.
    pub fn message(&self) -> (message: String)
        ensures
            message@ == self.text(),
    {
        match self {
            ScanError::Traversal => "cannot list directory".to_owned(),
            ScanError::Metadata => "cannot read modification time".to_owned(),
            ScanError::Removal => "cannot remove file".to_owned(),
            ScanError::Unexpected => "reply does not answer the request".to_owned(),
            ScanError::Closed => "scan is over".to_owned(),
        }
    }
}

/// One turn of the scan: the records to append to the log, in their order,
/// and then the request to carry out.
#[derive(Debug, Clone, PartialEq, Eq)]
pub struct Turn {
    pub log: Vec<LogRecord>,
    pub request: Request,
}

/// A `Turn` as contracts speak of it.
pub struct TurnView {
    pub log: Seq<LogView>,
    pub request: RequestView,
}

impl View for Turn {
    type V = TurnView;

    open spec fn view(&self) -> TurnView {
        TurnView { log: log_views(self.log@), request: self.request@ }
    }
}

/// What a step of the scan yields, as contracts speak of it.
pub open spec fn outcome_view(outcome: Result<Turn, ScanError>) -> Result<TurnView, ScanError> {
    match outcome {
        Ok(turn) => Ok(turn@),
        Err(error) => Err(error),
    }
}

/// What the scan waits for.
enum Stage {
    Listing(String),
    Output(String),
    Modified { fingerprint: String, existing: String, candidate: String },
    Removal { fingerprint: String, verdict: Verdict, existing: String, candidate: String },
    Finished,
    Halted,
}

/// What a scan waits for, as contracts speak of it.
pub enum StageView {
    /// The listing of this directory.
    Listing(Seq<char>),
    /// The hashing tool's output for this file.
    Output(Seq<char>),
    /// The times at which two files with this fingerprint were last modified.
    Modified { fingerprint: Seq<char>, existing: Seq<char>, candidate: Seq<char> },
    /// The removal of the one of the two files that the verdict sends away.
    Removal { fingerprint: Seq<char>, verdict: Verdict, existing: Seq<char>, candidate: Seq<char> },
    /// Nothing: the walk is complete.
    Finished,
    /// Nothing: the scan failed.
    Halted,
}

impl View for Stage {
    type V = StageView;

    closed spec fn view(&self) -> StageView {
        match self {
            Stage::Listing(dir) => StageView::Listing(dir@),
            Stage::Output(file) => StageView::Output(file@),
            Stage::Modified { fingerprint, existing, candidate } => StageView::Modified {
                fingerprint: fingerprint@,
                existing: existing@,
                candidate: candidate@,
            },
            Stage::Removal { fingerprint, verdict, existing, candidate } => StageView::Removal {
                fingerprint: fingerprint@,
                verdict: *verdict,
                existing: existing@,
                candidate: candidate@,
            },
            Stage::Finished => StageView::Finished,
            Stage::Halted => StageView::Halted,
        }
    }
}

/// A scan in progress: the registry, the entries that are still to be
/// visited, and what the scan waits for.
pub struct Scan {
    registry: Registry,
    pending: Vec<FileEntry>,
    stage: Stage,
}

/// A `Scan` as contracts speak of it. The entry to visit next is the last of
/// `pending`.
pub struct ScanView {
    pub registry: Map<Seq<char>, Seq<char>>,
    pub pending: Seq<EntryView>,
    pub stage: StageView,
}

impl View for Scan {
    type V = ScanView;

    closed spec fn view(&self) -> ScanView {
        ScanView {
            registry: self.registry@,
            pending: entry_views(self.pending@),
            stage: self.stage@,
        }
    }
}

/// The file that a verdict sends away.
pub open spec fn doomed(verdict: Verdict, existing: Seq<char>, candidate: Seq<char>) -> Seq<char> {
    match verdict {
        Verdict::KeepExisting => candidate,
        Verdict::KeepCandidate => existing,
    }
}

/// The registry once the file that a verdict sends away is gone: the
/// fingerprint's path is the file that stays.
pub open spec fn settled(
    registry: Map<Seq<char>, Seq<char>>,
    fingerprint: Seq<char>,
    verdict: Verdict,
    candidate: Seq<char>,
) -> Map<Seq<char>, Seq<char>> {
    match verdict {
        Verdict::KeepExisting => registry,
        Verdict::KeepCandidate => registry.insert(fingerprint, candidate),
    }
}

impl ScanView {
    /// The scan that is about to walk the tree under `root`.
    pub open spec fn start(root: Seq<char>) -> ScanView {
        ScanView { registry: Map::empty(), pending: Seq::empty(), stage: StageView::Listing(root) }
    }

    /// The scan turns to the entry that is to be visited next: a directory is
    /// to be listed, anything else to be fingerprinted. With no entry left the
    /// walk is complete. `log` holds the records that the turn starts with.
    pub open spec fn advance(
        registry: Map<Seq<char>, Seq<char>>,
        pending: Seq<EntryView>,
        log: Seq<LogView>,
    ) -> (ScanView, TurnView) {
        if pending.len() == 0 {
            (
                ScanView { registry, pending, stage: StageView::Finished },
                TurnView { log: log.push(LogView::Completed), request: RequestView::Finished },
            )
        } else if pending.last().is_dir {
            (
                ScanView {
                    registry,
                    pending: pending.drop_last(),
                    stage: StageView::Listing(pending.last().path),
                },
                TurnView { log, request: RequestView::ListDirectory(pending.last().path) },
            )
        } else {
            (
                ScanView {
                    registry,
                    pending: pending.drop_last(),
                    stage: StageView::Output(pending.last().path),
                },
                TurnView { log, request: RequestView::Fingerprint(pending.last().path) },
            )
        }
    }

    /// The scan fails with `error`: it waits for nothing any more.
    pub open spec fn halt(self, error: ScanError) -> (ScanView, Result<TurnView, ScanError>) {
        (ScanView { stage: StageView::Halted, ..self }, Err(error))
    }

    /// A directory was listed: its visible entries are to be visited before
    /// all that was pending, the first of them first.
    pub open spec fn on_listing(self, entries: Seq<EntryView>) -> (ScanView, TurnView) {
        Self::advance(self.registry, self.pending + visible(entries).reverse(), Seq::empty())
    }

    /// The hashing tool ran, or could not be run (`fingerprint` is `None`),
    /// on `file`. Without a fingerprint the file is passed over. A fingerprint
    /// that the registry does not hold is registered with the file. For one
    /// that it holds, the times of the two files are asked for.
    pub open spec fn on_fingerprint(self, file: Seq<char>, fingerprint: Option<Seq<char>>) -> (
        ScanView,
        TurnView,
    ) {
        let log = seq![LogView::Processing(file)];
        match fingerprint {
            None => Self::advance(self.registry, self.pending, log),
            Some(f) => if self.registry.contains_key(f) {
                (
                    ScanView {
                        stage: StageView::Modified {
                            fingerprint: f,
                            existing: self.registry[f],
                            candidate: file,
                        },
                        ..self
                    },
                    TurnView {
                        log,
                        request: RequestView::ReadModified {
                            existing: self.registry[f],
                            candidate: file,
                        },
                    },
                )
            } else {
                Self::advance(self.registry.insert(f, file), self.pending, log)
            },
        }
    }

    /// The times of two files with one fingerprint were read: the verdict is
    /// given, and the removal of the file that it sends away is asked for.
    pub open spec fn on_modified(
        self,
        fingerprint: Seq<char>,
        existing: Seq<char>,
        candidate: Seq<char>,
        verdict: Verdict,
    ) -> (ScanView, TurnView) {
        (
            ScanView {
                stage: StageView::Removal { fingerprint, verdict, existing, candidate },
                ..self
            },
            TurnView {
                log: seq![
                    LogView::DuplicateDetected { existing, candidate },
                    LogView::Deleting(doomed(verdict, existing, candidate)),
                ],
                request: RequestView::Remove(doomed(verdict, existing, candidate)),
            },
        )
    }

    /// The scan after the driver's `reply`, and what the step yields: the next
    /// turn, or the error that ends the scan.
    pub open spec fn next(self, reply: ReplyView) -> (ScanView, Result<TurnView, ScanError>) {
        match self.stage {
            StageView::Listing(dir) => match reply {
                ReplyView::Listing(entries) => {
                    let (scan, turn) = self.on_listing(entries);
                    (scan, Ok(turn))
                },
                ReplyView::Failed => self.halt(ScanError::Traversal),
                _ => self.halt(ScanError::Unexpected),
            },
            StageView::Output(file) => match reply {
                ReplyView::ToolOutput { success, output } => {
                    let (scan, turn) = self.on_fingerprint(file, fingerprint_of(success, output));
                    (scan, Ok(turn))
                },
                ReplyView::Failed => {
                    let (scan, turn) = self.on_fingerprint(file, None);
                    (scan, Ok(turn))
                },
                _ => self.halt(ScanError::Unexpected),
            },
            StageView::Modified { fingerprint, existing, candidate } => match reply {
                ReplyView::Modified { existing: existing_modified, candidate: candidate_modified } => {
                    let (scan, turn) = self.on_modified(
                        fingerprint,
                        existing,
                        candidate,
                        verdict_for(existing_modified, candidate_modified),
                    );
                    (scan, Ok(turn))
                },
                ReplyView::Failed => self.halt(ScanError::Metadata),
                _ => self.halt(ScanError::Unexpected),
            },
            StageView::Removal { fingerprint, verdict, existing, candidate } => match reply {
                ReplyView::Removed => {
                    let (scan, turn) = Self::advance(
                        settled(self.registry, fingerprint, verdict, candidate),
                        self.pending,
                        Seq::empty(),
                    );
                    (scan, Ok(turn))
                },
                ReplyView::Failed => self.halt(ScanError::Removal),
                _ => self.halt(ScanError::Unexpected),
            },
            StageView::Finished => (self, Err(ScanError::Closed)),
            StageView::Halted => (self, Err(ScanError::Closed)),
        }
    }
}

impl Scan {
    /// Starts a scan of the tree under `root`, with an empty registry. The
    /// first request is for the listing of `root`.
    pub fn begin(root: String) -> (started: (Scan, Request))
        ensures
            started.0@ == ScanView::start(root@),
            started.1@ == RequestView::ListDirectory(root@),
    {
        let scan = Scan {
            registry: Registry::new(),
            pending: Vec::new(),
            stage: Stage::Listing(root.clone()),
        };
        assert(scan@.pending =~= Seq::empty());
        (scan, Request::ListDirectory(root))
    }

    /// Tells whether the walk is complete.
    pub fn is_finished(&self) -> (finished: bool)
        ensures
            finished == (self@.stage is Finished),
    {
        match self.stage {
            Stage::Finished => true,
            _ => false,
        }
    }

    /// Tells whether the scan failed.
    pub fn is_halted(&self) -> (halted: bool)
        ensures
            halted == (self@.stage is Halted),
    {
        match self.stage {
            Stage::Halted => true,
            _ => false,
        }
    }

    /// The registry as it stands.
    pub fn registry(&self) -> (registry: &Registry)
        ensures
            registry@ == self@.registry,
    {
        &self.registry
    }

    /// Puts the visible ones of `entries` before all that is pending, the
    /// first of them to be visited first.
    fn stack(&mut self, entries: Vec<FileEntry>)
        ensures
            final(self)@.pending == old(self)@.pending + visible(
                entry_views(entries@),
            ).reverse(),
            final(self)@.registry == old(self)@.registry,
            final(self)@.stage == old(self)@.stage,
    {
        let ghost all = entry_views(entries@);
        let ghost before = self@.pending;
        let mut entries = entries;
        while entries.len() > 0
            invariant
                entry_views(entries@) == all.take(entries.len() as int),
                entries.len() <= all.len(),
                self@.pending == before + visible(all.skip(entries.len() as int)).reverse(),
                self@.registry == old(self)@.registry,
                self@.stage == old(self)@.stage,
            decreases entries.len(),
        {
            let ghost k = entries.len() as int;
            let ghost was = self@.pending;
            let ghost listed = entries@;
            let entry = entries.pop().unwrap();
            proof {
                assert(entry_views(listed)[k - 1] == listed[k - 1]@);
                assert(all.skip(k - 1) =~= seq![entry@] + all.skip(k));
                lemma_visible_first(entry@, all.skip(k));
            }
            if !entry.is_hidden() {
                self.pending.push(entry);
                assert(self@.pending =~= was.push(entry@));
            }
        }
    }

    /// Turns to the entry that is to be visited next.
    fn advance(&mut self, log: Vec<LogRecord>) -> (turn: Turn)
        ensures
            (final(self)@, turn@) == ScanView::advance(
                old(self)@.registry,
                old(self)@.pending,
                log_views(log@),
            ),
    {
        let ghost before = self@.pending;
        let mut log = log;
        match self.pending.pop() {
            None => {
                self.stage = Stage::Finished;
                let ghost was = log_views(log@);
                log.push(LogRecord::Completed);
                assert(log_views(log@) =~= was.push(LogView::Completed));
                Turn { log, request: Request::Finished }
            },
            Some(entry) => {
                assert(self@.pending =~= before.drop_last());
                let FileEntry { path, name: _, is_dir } = entry;
                if is_dir {
                    self.stage = Stage::Listing(path.clone());
                    Turn { log, request: Request::ListDirectory(path) }
                } else {
                    self.stage = Stage::Output(path.clone());
                    Turn { log, request: Request::Fingerprint(path) }
                }
            },
        }
    }

    /// Takes the fingerprint of `file`, if it has one, to the registry.
    fn resolve(&mut self, file: String, fingerprint: Option<String>) -> (turn: Turn)
        ensures
            (final(self)@, turn@) == old(self)@.on_fingerprint(
                file@,
                match fingerprint {
                    Some(f) => Some(f@),
                    None => None,
                },
            ),
    {
        let mut log: Vec<LogRecord> = Vec::new();
        log.push(LogRecord::Processing(file.clone()));
        assert(log_views(log@) =~= seq![LogView::Processing(file@)]);
        match fingerprint {
            None => self.advance(log),
            Some(f) => {
                let held: Option<String> = match self.registry.lookup(f.as_str()) {
                    Some(path) => Some(path.clone()),
                    None => None,
                };
                match held {
                    Some(existing) => {
                        self.stage = Stage::Modified {
                            fingerprint: f,
                            existing: existing.clone(),
                            candidate: file.clone(),
                        };
                        Turn { log, request: Request::ReadModified { existing, candidate: file } }
                    },
                    None => {
                        self.registry.record(f, file);
                        self.advance(log)
                    },
                }
            },
        }
    }

    /// Takes the driver's reply to the request that was handed out last, and
    /// hands out the next turn. A reply of another kind than the request asks
    /// for fails the scan, and so does a failure to list a directory, to read
    /// a file's time, or to remove a file. A failure of the hashing tool only
    /// passes the file over. Once the walk is complete or the scan has failed,
    /// every reply is refused.
    pub fn step(&mut self, reply: Reply) -> (outcome: Result<Turn, ScanError>)
        ensures
            final(self)@ == old(self)@.next(reply@).0,
            outcome_view(outcome) == old(self)@.next(reply@).1,
    {
        let mut stage = Stage::Halted;
        core::mem::swap(&mut self.stage, &mut stage);
        match stage {
            Stage::Listing(_) => match reply {
                Reply::Listing(entries) => {
                    self.stack(entries);
                    let log: Vec<LogRecord> = Vec::new();
                    assert(log_views(log@) =~= Seq::empty());
                    Ok(self.advance(log))
                },
                Reply::Failed => Err(ScanError::Traversal),
                _ => Err(ScanError::Unexpected),
            },
            Stage::Output(file) => match reply {
                Reply::ToolOutput { success, output } => {
                    let fingerprint = fingerprint_from_output(success, output.as_str());
                    Ok(self.resolve(file, fingerprint))
                },
                Reply::Failed => Ok(self.resolve(file, None)),
                _ => Err(ScanError::Unexpected),
            },
            Stage::Modified { fingerprint, existing, candidate } => match reply {
                Reply::Modified { existing: existing_modified, candidate: candidate_modified } => {
                    let verdict = decide(existing_modified, candidate_modified);
                    let gone = match verdict {
                        Verdict::KeepExisting => candidate.clone(),
                        Verdict::KeepCandidate => existing.clone(),
                    };
                    let mut log: Vec<LogRecord> = Vec::new();
                    log.push(
                        LogRecord::DuplicateDetected {
                            existing: existing.clone(),
                            candidate: candidate.clone(),
                        },
                    );
                    log.push(LogRecord::Deleting(gone.clone()));
                    assert(log_views(log@) =~= seq![
                        LogView::DuplicateDetected { existing: existing@, candidate: candidate@ },
                        LogView::Deleting(gone@),
                    ]);
                    self.stage = Stage::Removal { fingerprint, verdict, existing, candidate };
                    Ok(Turn { log, request: Request::Remove(gone) })
                },
                Reply::Failed => Err(ScanError::Metadata),
                _ => Err(ScanError::Unexpected),
            },
            Stage::Removal { fingerprint, verdict, existing: _, candidate } => match reply {
                Reply::Removed => {
                    match verdict {
                        Verdict::KeepExisting => {},
                        Verdict::KeepCandidate => {
                            self.registry.record(fingerprint, candidate);
                        },
                    }
                    let log: Vec<LogRecord> = Vec::new();
                    assert(log_views(log@) =~= Seq::empty());
                    Ok(self.advance(log))
                },
                Reply::Failed => Err(ScanError::Removal),
                _ => Err(ScanError::Unexpected),
            },
            Stage::Finished => {
                self.stage = Stage::Finished;
                Err(ScanError::Closed)
            },
            Stage::Halted => Err(ScanError::Closed),
        }
    }
}

} // verus!
