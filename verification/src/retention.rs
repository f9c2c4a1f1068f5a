//! Which files a scan keeps, over a fixed set of files.
//!
//! The files that a walk fingerprints come in one order, each with its path
//! and its fingerprint; while the set is fixed, each path has one time at
//! which it was last modified. What the scan does to such a sequence follows
//! from the rule of the registry alone, and is stated here without the
//! requests and replies that carry it out.

use crate::registry::{verdict_for, Verdict};
use crate::scan::{doomed, settled};
use vstd::prelude::*;

verus! {

/// A file that the walk fingerprinted.
pub struct Observed {
    pub path: Seq<char>,
    pub fingerprint: Seq<char>,
}

/// What a scan has done so far: the registry, and the files it had removed,
/// in the order of their removal.
pub struct Outcome {
    pub registry: Map<Seq<char>, Seq<char>>,
    pub removed: Seq<Seq<char>>,
}

/// The verdict on `file` and the file that `registry` holds for its
/// fingerprint, `times` giving for each path the time it was last modified.
pub open spec fn verdict_on(
    registry: Map<Seq<char>, Seq<char>>,
    file: Observed,
    times: spec_fn(Seq<char>) -> int,
) -> Verdict {
    verdict_for(times(registry[file.fingerprint]), times(file.path))
}

/// The scan meets `file`: a fingerprint that the registry does not hold is
/// registered with the file's path; for one that it holds the verdict is
/// given, and the file that it sends away is removed.
pub open spec fn meet(
    before: Outcome,
    file: Observed,
    times: spec_fn(Seq<char>) -> int,
) -> Outcome {
    if before.registry.contains_key(file.fingerprint) {
        let verdict = verdict_on(before.registry, file, times);
        Outcome {
            registry: settled(before.registry, file.fingerprint, verdict, file.path),
            removed: before.removed.push(
                doomed(verdict, before.registry[file.fingerprint], file.path),
            ),
        }
    } else {
        Outcome {
            registry: before.registry.insert(file.fingerprint, file.path),
            removed: before.removed,
        }
    }
}

/// What a scan that has done `before` has done once it has met `files` in
/// their order.
pub open spec fn resume(
    before: Outcome,
    files: Seq<Observed>,
    times: spec_fn(Seq<char>) -> int,
) -> Outcome
    decreases files.len(),
{
    if files.len() == 0 {
        before
    } else {
        meet(resume(before, files.drop_last(), times), files.last(), times)
    }
}

/// What a scan has done when nothing has come its way yet.
pub open spec fn nothing() -> Outcome {
    Outcome { registry: Map::empty(), removed: Seq::empty() }
}

/// What a scan does that meets `files` in their order, starting with an empty
/// registry.
pub open spec fn run(files: Seq<Observed>, times: spec_fn(Seq<char>) -> int) -> Outcome {
    resume(nothing(), files, times)
}

/// To meet one sequence of files and then another is to meet the two in a row.
pub proof fn lemma_resume_in_two(
    before: Outcome,
    first: Seq<Observed>,
    second: Seq<Observed>,
    times: spec_fn(Seq<char>) -> int,
)
    ensures
        resume(before, first + second, times) == resume(resume(before, first, times), second, times),
    decreases second.len(),
{
    if second.len() > 0 {
        lemma_resume_in_two(before, first, second.drop_last(), times);
        assert((first + second).drop_last() =~= first + second.drop_last());
    }
}

/// Whether no two of `files` are at one path.
pub open spec fn distinct_paths(files: Seq<Observed>) -> bool {
    forall|i: int, j: int|
        0 <= i < j < files.len() ==> (#[trigger] files[i]).path != (#[trigger] files[j]).path
}

/// Whether no two of `files` have one fingerprint.
pub open spec fn distinct_fingerprints(files: Seq<Observed>) -> bool {
    forall|i: int, j: int|
        0 <= i < j < files.len() ==> (#[trigger] files[i]).fingerprint != (
        #[trigger] files[j]).fingerprint
}

/// Whether `files[w]` is the newest of the files with its fingerprint: none of
/// them was modified later, and none that the walk met before it was modified
/// at the same time.
pub open spec fn is_newest(files: Seq<Observed>, times: spec_fn(Seq<char>) -> int, w: int) -> bool {
    &&& 0 <= w < files.len()
    &&& forall|j: int|
        0 <= j < files.len() && (#[trigger] files[j]).fingerprint == files[w].fingerprint ==> {
            &&& times(files[j].path) <= times(files[w].path)
            &&& j < w ==> times(files[j].path) < times(files[w].path)
        }
}

/// Whether the scan of `files` leaves `files[i]` in place.
pub open spec fn survives(files: Seq<Observed>, times: spec_fn(Seq<char>) -> int, i: int) -> bool {
    !run(files, times).removed.contains(files[i].path)
}

/// The index in `files` of the file that the scan keeps for `fingerprint`, or
/// -1 where no file has that fingerprint.
pub open spec fn keeper(
    files: Seq<Observed>,
    times: spec_fn(Seq<char>) -> int, fingerprint: Seq<char>,
) -> int
    decreases files.len(),
{
    if files.len() == 0 {
        -1
    } else {
        let held = keeper(files.drop_last(), times, fingerprint);
        if files.last().fingerprint != fingerprint {
            held
        } else if held < 0 {
            files.len() - 1
        } else if times(files[held].path) < times(files.last().path) {
            files.len() - 1
        } else {
            held
        }
    }
}

/// The keeper of a fingerprint is the newest of the files that have it.
pub proof fn lemma_keeper_is_newest(
    files: Seq<Observed>,
    times: spec_fn(Seq<char>) -> int,
    fingerprint: Seq<char>,
)
    ensures
        -1 <= keeper(files, times, fingerprint) < files.len(),
        keeper(files, times, fingerprint) < 0 ==> forall|j: int|
            0 <= j < files.len() ==> (#[trigger] files[j]).fingerprint != fingerprint,
        keeper(files, times, fingerprint) >= 0 ==> {
            &&& files[keeper(files, times, fingerprint)].fingerprint == fingerprint
            &&& is_newest(files, times, keeper(files, times, fingerprint))
        },
    decreases files.len(),
{
    if files.len() > 0 {
        let before = files.drop_last();
        lemma_keeper_is_newest(before, times, fingerprint);
        let held = keeper(before, times, fingerprint);
        let now = keeper(files, times, fingerprint);
        if held < 0 {
            assert forall|j: int| 0 <= j < files.len() - 1 implies (#[trigger] files[j]).fingerprint
                != fingerprint by {
                assert(files[j] == before[j]);
            }
        }
        if now >= 0 {
            assert forall|j: int|
                0 <= j < files.len() && (#[trigger] files[j]).fingerprint
                    == files[now].fingerprint implies times(files[j].path) <= times(files[now].path)
                && (j < now ==> times(files[j].path) < times(files[now].path)) by {
                if j < files.len() - 1 {
                    assert(files[j] == before[j]);
                }
            }
        }
    }
}

/// The registry holds a fingerprint when a file had it, and holds for it the
/// path of its keeper.
pub proof fn lemma_registry_holds_keepers(
    files: Seq<Observed>,
    times: spec_fn(Seq<char>) -> int,
    fingerprint: Seq<char>,
)
    ensures
        run(files, times).registry.contains_key(fingerprint) <==> keeper(files, times, fingerprint)
            >= 0,
        keeper(files, times, fingerprint) >= 0 ==> run(files, times).registry[fingerprint]
            == files[keeper(files, times, fingerprint)].path,
    decreases files.len(),
{
    if files.len() > 0 {
        let before = files.drop_last();
        lemma_registry_holds_keepers(before, times, fingerprint);
        lemma_keeper_is_newest(before, times, fingerprint);
    }
}

/// A sequence with one more element holds what it held, and that element.
proof fn lemma_push_contains(s: Seq<Seq<char>>, last: Seq<char>, p: Seq<char>)
    ensures
        s.push(last).contains(p) <==> s.contains(p) || p == last,
{
    let t = s.push(last);
    if s.contains(p) {
        let k = choose|k: int| 0 <= k < s.len() && s[k] == p;
        assert(t[k] == p);
    }
    if p == last {
        assert(t[s.len() as int] == p);
    }
}

/// The scan removes only files that it met.
pub proof fn lemma_removed_were_met(
    files: Seq<Observed>,
    times: spec_fn(Seq<char>) -> int,
    path: Seq<char>,
)
    requires
        run(files, times).removed.contains(path),
    ensures
        exists|i: int| 0 <= i < files.len() && (#[trigger] files[i]).path == path,
    decreases files.len(),
{
    if files.len() > 0 {
        let before = files.drop_last();
        let was = run(before, times);
        let file = files.last();
        if was.removed.contains(path) {
            lemma_removed_were_met(before, times, path);
            let i = choose|i: int| 0 <= i < before.len() && (#[trigger] before[i]).path == path;
            assert(files[i].path == path);
        } else if path == file.path {
            assert(files[files.len() - 1].path == path);
        } else {
            // The file that went is the one that the registry held.
            lemma_registry_holds_keepers(before, times, file.fingerprint);
            lemma_keeper_is_newest(before, times, file.fingerprint);
            let held = keeper(before, times, file.fingerprint);
            assert(files[held].path == path);
        }
    }
}

/// The scan has removed a file when, and only when, the file is not the
/// keeper of its fingerprint.
pub proof fn lemma_removed_are_not_keepers(
    files: Seq<Observed>,
    times: spec_fn(Seq<char>) -> int, i: int,
)
    requires
        distinct_paths(files),
        0 <= i < files.len(),
    ensures
        survives(files, times, i) <==> keeper(files, times, files[i].fingerprint) == i,
    decreases files.len(),
{
    let before = files.drop_last();
    let was = run(before, times);
    let file = files.last();
    let n = files.len() - 1;
    // The last file was not removed before the scan met it.
    assert(!was.removed.contains(file.path)) by {
        if was.removed.contains(file.path) {
            lemma_removed_were_met(before, times, file.path);
            let k = choose|k: int| 0 <= k < before.len() && (#[trigger] before[k]).path == file.path;
            assert(files[k].path != files[n].path);
        }
    }
    lemma_registry_holds_keepers(before, times, file.fingerprint);
    lemma_keeper_is_newest(before, times, file.fingerprint);
    if i < n {
        lemma_removed_are_not_keepers(before, times, i);
        if was.registry.contains_key(file.fingerprint) {
            let gone = doomed(
                verdict_on(was.registry, file, times),
                was.registry[file.fingerprint],
                file.path,
            );
            lemma_push_contains(was.removed, gone, files[i].path);
        }
    } else {
        if was.registry.contains_key(file.fingerprint) {
            let gone = doomed(
                verdict_on(was.registry, file, times),
                was.registry[file.fingerprint],
                file.path,
            );
            lemma_push_contains(was.removed, gone, file.path);
        }
    }
}

/// Of the files with one fingerprint the scan leaves exactly one in place: the
/// newest. Where several are the newest by their times, it is the one that the
/// walk met first.
pub proof fn law_newest_survives(files: Seq<Observed>, times: spec_fn(Seq<char>) -> int, i: int)
    requires
        distinct_paths(files),
        0 <= i < files.len(),
    ensures
        survives(files, times, i) <==> is_newest(files, times, i),
        is_newest(files, times, keeper(files, times, files[i].fingerprint)),
        files[keeper(files, times, files[i].fingerprint)].fingerprint == files[i].fingerprint,
        survives(files, times, keeper(files, times, files[i].fingerprint)),
        forall|j: int|
            0 <= j < files.len() && (#[trigger] files[j]).fingerprint == files[i].fingerprint
                && survives(files, times, j) ==> j == keeper(files, times, files[i].fingerprint),
        run(files, times).registry.contains_key(files[i].fingerprint),
        run(files, times).registry[files[i].fingerprint] == files[keeper(
            files,
            times,
            files[i].fingerprint,
        )].path,
{
    let f = files[i].fingerprint;
    let w = keeper(files, times, f);
    lemma_keeper_is_newest(files, times, f);
    lemma_registry_holds_keepers(files, times, f);
    lemma_removed_are_not_keepers(files, times, w);
    assert forall|j: int|
        0 <= j < files.len() && (#[trigger] files[j]).fingerprint == f && survives(
            files,
            times,
            j,
        ) implies j == w by {
        lemma_removed_are_not_keepers(files, times, j);
    }
}

/// A file whose fingerprint no other file has is left in place.
pub proof fn law_unique_is_untouched(files: Seq<Observed>, times: spec_fn(Seq<char>) -> int, i: int)
    requires
        distinct_paths(files),
        0 <= i < files.len(),
        forall|j: int|
            0 <= j < files.len() && j != i ==> (#[trigger] files[j]).fingerprint
                != files[i].fingerprint,
    ensures
        survives(files, times, i),
{
    law_newest_survives(files, times, i);
}

/// Tells of a file whether it is none of `gone`.
pub open spec fn spared(gone: Seq<Seq<char>>) -> spec_fn(Observed) -> bool {
    |file: Observed| !gone.contains(file.path)
}

/// The files that the scan of `files` leaves in place, in the order in which
/// the walk met them.
pub open spec fn remaining(
    files: Seq<Observed>,
    times: spec_fn(Seq<char>) -> int,
) -> Seq<Observed> {
    files.filter(spared(run(files, times).removed))
}

/// A scan of files that all differ in their fingerprints removes none.
pub proof fn lemma_distinct_fingerprints_stay(
    files: Seq<Observed>,
    times: spec_fn(Seq<char>) -> int,
)
    requires
        distinct_fingerprints(files),
    ensures
        run(files, times).removed == Seq::<Seq<char>>::empty(),
    decreases files.len(),
{
    if files.len() > 0 {
        let before = files.drop_last();
        let file = files.last();
        lemma_distinct_fingerprints_stay(before, times);
        lemma_registry_holds_keepers(before, times, file.fingerprint);
        lemma_keeper_is_newest(before, times, file.fingerprint);
    }
}

/// What is picked out of files at distinct paths is at distinct paths.
proof fn lemma_filter_distinct_paths(files: Seq<Observed>, pred: spec_fn(Observed) -> bool)
    requires
        distinct_paths(files),
    ensures
        distinct_paths(files.filter(pred)),
    decreases files.len(),
{
    reveal(Seq::filter);
    if files.len() > 0 {
        let before = files.drop_last();
        lemma_filter_distinct_paths(before, pred);
        let picked = files.filter(pred);
        let earlier = before.filter(pred);
        assert forall|a: int, b: int| 0 <= a < b < picked.len() implies (#[trigger] picked[a]).path != (
        #[trigger] picked[b]).path by {
            if b >= earlier.len() {
                // The last file was picked, and the other is one of those before it.
                before.lemma_filter_contains_rev(pred, earlier[a]);
                let k = choose|k: int| 0 <= k < before.len() && before[k] == earlier[a];
                assert(files[k].path != files[files.len() - 1].path);
            }
        }
    }
}

/// A second scan, right after the first and of the files that the first left
/// in place, removes nothing: no two of those files have one fingerprint.
pub proof fn law_second_scan_removes_nothing(files: Seq<Observed>, times: spec_fn(Seq<char>) -> int)
    requires
        distinct_paths(files),
    ensures
        distinct_fingerprints(remaining(files, times)),
        run(remaining(files, times), times).removed == Seq::<Seq<char>>::empty(),
{
    let pred = spared(run(files, times).removed);
    let rest = remaining(files, times);
    lemma_filter_distinct_paths(files, pred);
    assert forall|a: int, b: int| 0 <= a < b < rest.len() implies (#[trigger] rest[a]).fingerprint != (
    #[trigger] rest[b]).fingerprint by {
        files.lemma_filter_contains_rev(pred, rest[a]);
        files.lemma_filter_contains_rev(pred, rest[b]);
        let i = choose|i: int| 0 <= i < files.len() && files[i] == rest[a];
        let j = choose|j: int| 0 <= j < files.len() && files[j] == rest[b];
        if files[i].fingerprint == files[j].fingerprint {
            law_newest_survives(files, times, i);
        }
    }
    lemma_distinct_fingerprints_stay(rest, times);
}

/// The registry never holds a file that the scan has removed.
pub proof fn law_registry_holds_what_stays(
    files: Seq<Observed>,
    times: spec_fn(Seq<char>) -> int,
    fingerprint: Seq<char>,
)
    requires
        distinct_paths(files),
        run(files, times).registry.contains_key(fingerprint),
    ensures
        !run(files, times).removed.contains(run(files, times).registry[fingerprint]),
{
    lemma_registry_holds_keepers(files, times, fingerprint);
    lemma_keeper_is_newest(files, times, fingerprint);
    law_newest_survives(files, times, keeper(files, times, fingerprint));
}

/// Every file that the scan meets is either the first with its fingerprint,
/// which the registry takes up, or makes a pair with the file that the
/// registry holds, and then exactly one file is removed: the removed files
/// and the fingerprints of the registry add up to the files met.
pub proof fn law_one_removal_for_each_duplicate(
    files: Seq<Observed>,
    times: spec_fn(Seq<char>) -> int,
)
    ensures
        run(files, times).registry.dom().finite(),
        run(files, times).removed.len() + run(files, times).registry.dom().len() == files.len(),
    decreases files.len(),
{
    if files.len() > 0 {
        law_one_removal_for_each_duplicate(files.drop_last(), times);
    }
}

} // verus!
