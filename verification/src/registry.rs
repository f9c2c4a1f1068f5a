//! The registry of fingerprints, and the rule that settles a duplicate.

use vstd::hash_map::StringHashMap;
use vstd::prelude::*;

verus! {

/// Which of two files with one fingerprint stays.
#[derive(Debug, Clone, Copy, PartialEq, Eq, Structural)]
pub enum Verdict {
    /// The file that the registry holds stays; the candidate goes.
    KeepExisting,
    /// The candidate stays; the file that the registry holds goes.
    KeepCandidate,
}

/// The rule: the candidate stays only if it was modified strictly later than
/// the file that the registry holds. Equal times favour the registered file.
pub open spec fn verdict_for(existing_modified: int, candidate_modified: int) -> Verdict {
    if existing_modified < candidate_modified {
        Verdict::KeepCandidate
    } else {
        Verdict::KeepExisting
    }
}

/// Decides which of two files with one fingerprint stays, from the times at
/// which they were last modified.
pub fn decide(existing_modified: i128, candidate_modified: i128) -> (verdict: Verdict)
    ensures
        verdict == verdict_for(existing_modified as int, candidate_modified as int),
{
    if existing_modified < candidate_modified {
        Verdict::KeepCandidate
    } else {
        Verdict::KeepExisting
    }
}

/// For each fingerprint met so far, the path of the one file that is kept for
/// it.
pub struct Registry {
    paths: StringHashMap<String>,
}

impl View for Registry {
    type V = Map<Seq<char>, Seq<char>>;

    closed spec fn view(&self) -> Map<Seq<char>, Seq<char>> {
        self.paths@.map_values(|path: String| path@)
    }
}

impl Registry {
    /// Makes a registry that holds no fingerprint.
    pub fn new() -> (registry: Registry)
        ensures
            registry@ == Map::<Seq<char>, Seq<char>>::empty(),
    {
        let registry = Registry { paths: StringHashMap::new() };
        registry
    }

    /// Returns the path that is kept for `fingerprint`, if one is.
    pub fn lookup(&self, fingerprint: &str) -> (path: Option<&String>)
        ensures
            path is Some <==> self@.contains_key(fingerprint@),
            path matches Some(p) ==> p@ == self@[fingerprint@],
    {
        self.paths.get(fingerprint)
    }

    /// Tells whether a path is kept for `fingerprint`.
    pub fn contains(&self, fingerprint: &str) -> (known: bool)
        ensures
            known == self@.contains_key(fingerprint@),
    {
        self.paths.contains_key(fingerprint)
    }

    /// Keeps `path` for `fingerprint` from now on, in place of the path that
    /// was kept for it, if one was.
    pub fn record(&mut self, fingerprint: String, path: String)
        ensures
            final(self)@ == old(self)@.insert(fingerprint@, path@),
    {
        self.paths.insert(fingerprint, path);
    }
}

} // verus!
