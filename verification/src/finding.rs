//! What a scan makes of what is found on disk, told by what `lstat` says of each entry.
use vstd::prelude::*;

use crate::frontier::JobView;
use crate::glob;
use crate::model::{Excluded, NodeKind};
use crate::scan;
use crate::scan::{FoundView, LedgerView, OptsView};
use crate::tree;
use crate::tree::EntryView;

verus! {

/// Symbolic links are never followed: whatever is no directory by itself gets no id and is not gone into,
/// a link is reported as a link, and only a directory as a directory.
pub proof fn law_links_are_not_followed(
    rules: OptsView,
    l: LedgerView,
    found: Seq<FoundView>,
    k: int,
)
    requires
        0 <= k < found.len(),
        found[k].meta is Some,
    ensures
        ({
            let m = found[k].meta->0;
            let e = scan::listing(rules, l, found)[k];
            &&& !m.is_dir ==> e.dir_id is None && e.kind != NodeKind::Dir
            &&& m.is_dir ==> e.kind == NodeKind::Dir
            &&& m.is_symlink && !m.is_dir ==> e.kind == NodeKind::Link
            &&& e.kind == NodeKind::Link ==> m.is_symlink
            &&& e.kind == NodeKind::File ==> m.is_file && !m.is_symlink
            &&& m.is_file && !m.is_dir && !m.is_symlink ==> e.kind == NodeKind::File
            &&& !m.is_file && !m.is_dir && !m.is_symlink ==> e.kind == NodeKind::Other
        }),
{
}

/// Every job is for a directory that was found, under the id that was reported for it, and every directory
/// with an id has a job.
pub proof fn law_jobs_are_for_directories(
    rules: OptsView,
    l: LedgerView,
    found: Seq<FoundView>,
)
    ensures
        ({
            let entries = scan::listing(rules, l, found);
            let jobs = scan::jobs_of(entries, found);
            &&& forall|i: int| 0 <= i < jobs.len() ==> is_for_some(found, entries, #[trigger] jobs[i])
            &&& forall|k: int|
                0 <= k < found.len() && (#[trigger] entries[k]).dir_id is Some ==> jobs.contains(
                    JobView { id: entries[k].dir_id->0, path: found[k].path },
                )
        }),
{
    let entries = scan::listing(rules, l, found);
    lemma_jobs(entries, found);
    let jobs = scan::jobs_of(entries, found);
    assert forall|i: int| 0 <= i < jobs.len() implies is_for_some(
        found,
        entries,
        #[trigger] jobs[i],
    ) by {
        assert(comes_of_some(found, entries, jobs[i]));
        let k = choose|k: int| #[trigger] job_of_entry(found, entries, k, jobs[i]);
        lemma_links_are_not_followed_at(rules, l, found, k);
        assert(job_is_for(found, entries, k, jobs[i]));
    }
}

/// The job is for the directory that was found at `k`, and whose entry has the job's id.
pub open spec fn job_is_for(
    found: Seq<FoundView>,
    entries: Seq<EntryView>,
    k: int,
    job: JobView,
) -> bool {
    &&& 0 <= k < found.len()
    &&& found[k].meta is Some
    &&& found[k].meta->0.is_dir
    &&& found[k].path == job.path
    &&& entries[k].dir_id == Some(job.id)
}

/// The job is for some directory that was found.
pub open spec fn is_for_some(found: Seq<FoundView>, entries: Seq<EntryView>, job: JobView) -> bool {
    exists|k: int| #[trigger] job_is_for(found, entries, k, job)
}

spec fn comes_of_some(found: Seq<FoundView>, entries: Seq<EntryView>, job: JobView) -> bool {
    exists|k: int| #[trigger] job_of_entry(found, entries, k, job)
}

spec fn job_of_entry(found: Seq<FoundView>, entries: Seq<EntryView>, k: int, job: JobView) -> bool {
    &&& 0 <= k < found.len()
    &&& found[k].path == job.path
    &&& entries[k].dir_id == Some(job.id)
}

proof fn lemma_links_are_not_followed_at(
    rules: OptsView,
    l: LedgerView,
    found: Seq<FoundView>,
    k: int,
)
    requires
        0 <= k < found.len(),
        scan::listing(rules, l, found)[k].dir_id is Some,
    ensures
        found[k].meta is Some,
        found[k].meta->0.is_dir,
{
    if found[k].meta is Some {
        law_links_are_not_followed(rules, l, found, k);
    }
}

proof fn lemma_jobs(entries: Seq<EntryView>, found: Seq<FoundView>)
    requires
        entries.len() == found.len(),
    ensures
        forall|i: int|
            0 <= i < scan::jobs_of(entries, found).len() ==> comes_of_some(
                found,
                entries,
                #[trigger] scan::jobs_of(entries, found)[i],
            ),
        forall|k: int|
            0 <= k < found.len() && (#[trigger] entries[k]).dir_id is Some ==> scan::jobs_of(
                entries,
                found,
            ).contains(JobView { id: entries[k].dir_id->0, path: found[k].path }),
    decreases entries.len(),
{
    if entries.len() > 0 {
        let e = entries.drop_last();
        let f = found.drop_last();
        let before = scan::jobs_of(e, f);
        let jobs = scan::jobs_of(entries, found);
        lemma_jobs(e, f);
        assert forall|i: int| 0 <= i < jobs.len() implies comes_of_some(
            found,
            entries,
            #[trigger] jobs[i],
        ) by {
            if i < before.len() {
                assert(comes_of_some(f, e, before[i]));
                let k = choose|k: int| #[trigger] job_of_entry(f, e, k, before[i]);
                assert(job_of_entry(found, entries, k, jobs[i]));
            } else {
                assert(job_of_entry(found, entries, entries.len() - 1, jobs[i]));
            }
        }
        assert forall|k: int|
            0 <= k < found.len() && (#[trigger] entries[k]).dir_id is Some implies jobs.contains(
            JobView { id: entries[k].dir_id->0, path: found[k].path },
        ) by {
            let job = JobView { id: entries[k].dir_id->0, path: found[k].path };
            if k < e.len() {
                assert(e[k] == entries[k]);
                assert(before.contains(job));
                let i = choose|i: int| 0 <= i < before.len() && before[i] == job;
                assert(jobs[i] == job);
            } else {
                assert(jobs[before.len() as int] == job);
            }
        }
    }
}

/// Some pattern of the command line matches the name.
pub open spec fn some_pattern_matches(rules: OptsView, name: Seq<char>) -> bool {
    exists|i: int| 0 <= i < rules.excludes.len() && glob::glob(#[trigger] rules.excludes[i], name)
}

/// Patterns leave out whatever they match, of any kind: it is reported as left out by a pattern, is not
/// gone into and does not count; and nothing else is reported so.
pub proof fn law_patterns_leave_out_what_they_match(
    rules: OptsView,
    l: LedgerView,
    found: Seq<FoundView>,
    k: int,
)
    requires
        0 <= k < found.len(),
        found[k].meta is Some,
    ensures
        ({
            let e = scan::listing(rules, l, found)[k];
            &&& some_pattern_matches(rules, found[k].name) <==> e.excluded == Excluded::Pattern
            &&& e.excluded != Excluded::No ==> e.dir_id is None && !e.shared && !tree::entry_counts(e)
        }),
{
}

/// What was last changed before the one bound or after the other is left out by its age, unless a pattern
/// leaves it out already, whatever its kind; and nothing within the bounds is.
pub proof fn law_ages_leave_out_what_is_beyond(
    rules: OptsView,
    l: LedgerView,
    found: Seq<FoundView>,
    k: int,
)
    requires
        0 <= k < found.len(),
        found[k].meta is Some,
    ensures
        ({
            let m = found[k].meta->0;
            let e = scan::listing(rules, l, found)[k];
            let too_old = rules.older_than is Some && m.mtime < rules.older_than->0;
            let too_new = rules.newer_than is Some && rules.newer_than->0 < m.mtime;
            &&& e.excluded == Excluded::Age ==> too_old || too_new
            &&& too_old || too_new ==> e.excluded == Excluded::Age || some_pattern_matches(
                rules,
                found[k].name,
            )
        }),
{
}

/// Other file systems are left out if that is asked for: just the directories of another device than the
/// root's are, and none if it is not asked for.
pub proof fn law_other_file_systems(
    rules: OptsView,
    l: LedgerView,
    found: Seq<FoundView>,
    k: int,
)
    requires
        0 <= k < found.len(),
        found[k].meta is Some,
    ensures
        ({
            let m = found[k].meta->0;
            let e = scan::listing(rules, l, found)[k];
            &&& e.excluded == Excluded::OtherFs ==> rules.one_file_system && m.is_dir && m.dev
                != rules.root_dev
            &&& rules.one_file_system && m.is_dir && m.dev != rules.root_dev ==> e.excluded
                != Excluded::No && e.dir_id is None
        }),
{
}

/// A directory that nothing leaves out is gone into, and only such a one takes an id.
pub proof fn law_directories_are_gone_into(
    rules: OptsView,
    l: LedgerView,
    found: Seq<FoundView>,
    k: int,
)
    requires
        0 <= k < found.len(),
    ensures
        ({
            let e = scan::listing(rules, l, found)[k];
            e.dir_id is Some <==> found[k].meta is Some && found[k].meta->0.is_dir && e.excluded
                == Excluded::No
        }),
{
}

/// With no patterns, no bounds and no wish to stay on one file system, nothing is left out.
pub proof fn law_nothing_is_left_out_unasked(
    rules: OptsView,
    l: LedgerView,
    found: Seq<FoundView>,
    k: int,
)
    requires
        0 <= k < found.len(),
        rules.excludes.len() == 0,
        rules.older_than is None,
        rules.newer_than is None,
        !rules.one_file_system,
    ensures
        scan::listing(rules, l, found)[k].excluded == Excluded::No,
{
}

/// Each entry of a listing is reported, in its place, with the name, the sizes and the inode that it has on
/// disk: its length, and 512 bytes for each of its blocks. What could not be looked at is reported as an
/// error of size zero.
pub proof fn law_entries_are_reported_as_they_are(
    rules: OptsView,
    l: LedgerView,
    found: Seq<FoundView>,
    k: int,
)
    requires
        0 <= k < found.len(),
    ensures
        scan::listing(rules, l, found).len() == found.len(),
        ({
            let e = scan::listing(rules, l, found)[k];
            &&& e.name == found[k].name
            &&& e.read_error <==> found[k].meta is None
            &&& match found[k].meta {
                Some(m) => {
                    &&& e.apparent == m.len
                    &&& e.disk == 512 * m.blocks
                    &&& e.dev == m.dev
                    &&& e.ino == m.ino
                },
                None => {
                    &&& e.apparent == 0 && e.disk == 0
                    &&& e.dir_id is None && !e.shared && !e.hlink
                    &&& e.kind != NodeKind::Dir
                },
            }
        }),
{
}

/// A regular file with more than one link, as `lstat` tells it.
pub open spec fn has_more_links(f: FoundView) -> bool {
    f.meta is Some && f.meta->0.is_file && !f.meta->0.is_dir && !f.meta->0.is_symlink
        && f.meta->0.nlink > 1
}

pub open spec fn same_inode(f: FoundView, g: FoundView) -> bool {
    f.meta is Some && g.meta is Some && f.meta->0.dev == g.meta->0.dev && f.meta->0.ino
        == g.meta->0.ino
}

/// Hard links are regular files with more than one link, and only such are ever marked as shared.
pub proof fn law_only_hard_links_are_shared(
    rules: OptsView,
    l: LedgerView,
    found: Seq<FoundView>,
    k: int,
)
    requires
        0 <= k < found.len(),
    ensures
        ({
            let e = scan::listing(rules, l, found)[k];
            &&& e.hlink <==> has_more_links(found[k])
            &&& e.shared ==> e.hlink && e.excluded == Excluded::No
        }),
{
}

/// Of two links to one file, neither of them left out, the later one is marked as shared, in whichever
/// directories of the scan they lie.
pub proof fn law_links_to_one_file_count_once(
    rules: OptsView,
    l: LedgerView,
    listings: Seq<Seq<FoundView>>,
    a: int,
    i: int,
    b: int,
    j: int,
)
    requires
        0 <= a < listings.len(),
        0 <= i < listings[a].len(),
        0 <= b < listings.len(),
        0 <= j < listings[b].len(),
        a < b || (a == b && i < j),
        has_more_links(listings[a][i]),
        has_more_links(listings[b][j]),
        same_inode(listings[a][i], listings[b][j]),
        scan::reported(rules, l, listings, a)[i].excluded == Excluded::No,
        scan::reported(rules, l, listings, b)[j].excluded == Excluded::No,
    ensures
        scan::reported(rules, l, listings, b)[j].shared,
        !tree::entry_counts(scan::reported(rules, l, listings, b)[j]),
{
    scan::law_hard_links_count_once(rules, l, listings, a, i, b, j);
}

/// The first link to a file that the scan comes upon counts: in a scan that starts afresh, one that no
/// earlier link to the same file is counted for is not marked as shared.
pub proof fn law_the_first_link_counts(
    rules: OptsView,
    l: LedgerView,
    listings: Seq<Seq<FoundView>>,
    b: int,
    j: int,
)
    requires
        l.seen == Set::<u128>::empty(),
        0 <= b < listings.len(),
        0 <= j < listings[b].len(),
        forall|a: int, i: int|
            0 <= a < listings.len() && 0 <= i < listings[a].len() && (a < b || (a == b && i < j))
                && has_more_links(#[trigger] listings[a][i]) ==> !same_inode(
                listings[a][i],
                listings[b][j],
            ),
    ensures
        !scan::reported(rules, l, listings, b)[j].shared,
{
    if scan::link_candidate(rules, listings[b][j]) {
        assert forall|a: int, i: int|
            0 <= a < listings.len() && 0 <= i < listings[a].len() && scan::comes_before(a, i, b, j)
                && scan::link_candidate(rules, #[trigger] listings[a][i]) implies scan::key_of(
            listings[a][i],
        ) != scan::key_of(listings[b][j]) by {
            let f = listings[a][i].meta->0;
            let g = listings[b][j].meta->0;
            assert(has_more_links(listings[a][i]));
            scan::law_link_keys_tell_inodes_apart(f.dev, f.ino, g.dev, g.ino);
        }
        scan::law_first_hard_link_counts(rules, l, listings, b, j);
    }
}

/// An entry counts unless it is a link to a file that was counted before, or is left out.
pub proof fn law_what_counts(e: EntryView)
    ensures
        tree::entry_counts(e) <==> !e.shared && e.excluded != Excluded::Pattern && e.excluded
            != Excluded::Age && e.excluded != Excluded::OtherFs,
{
}

/// A scan starts with its root alone, under the id that it is given; what it finds gets the ids behind
/// that one, and no link has been counted yet.
pub proof fn law_scans_start_with_their_root(root: Seq<u8>, id_base: u64)
    requires
        id_base < u64::MAX,
    ensures
        ({
            let f = scan::fresh_frontier(root, id_base);
            let l = scan::fresh_ledger(id_base);
            &&& f.hot + f.cold == seq![JobView { id: id_base, path: root }]
            &&& f.pending == 1 && !f.done
            &&& f.focus is None
            &&& l.next_id == id_base + 1
            &&& forall|key: u128| !(#[trigger] l.seen.contains(key))
        }),
{
    let f = scan::fresh_frontier(root, id_base);
    assert(f.hot + f.cold =~= seq![JobView { id: id_base, path: root }]);
}

/// Four workers for each core, never fewer than four and never more than 64; sixteen if the number of
/// cores is not known.
pub proof fn law_four_workers_for_each_core(cores: usize)
    ensures
        4 <= scan::threads_for(Some(cores)) <= 64,
        1 <= cores <= 16 ==> scan::threads_for(Some(cores)) == 4 * cores,
        cores > 16 ==> scan::threads_for(Some(cores)) == 64,
        scan::threads_for(None) == 16,
{
}

} // verus!
