//! The pool of directories that are still to be read, split by priority.
//!
//! Work is pulled from a **two-tier frontier**: a `hot` queue of jobs whose path lies under the
//! directory the user is currently viewing, and a `cold` queue for everything else. Workers always
//! drain `hot` first, so navigating into a directory makes its subtree finish scanning ahead of
//! unrelated branches (see [`Frontier::refocus`]).
//!
//! Shutdown is tracked by a `pending` count (queued + in-flight jobs): when it reaches zero the
//! frontier is marked `done`.
use vstd::prelude::*;

use std::collections::VecDeque;

use crate::paths;

verus! {

/// A unit of work: read directory `path`, whose tree id is `id`.
pub struct DirJob {
    pub id: u64,
    pub path: Vec<u8>,
}

#[verifier::ext_equal]
pub struct JobView {
    pub id: u64,
    pub path: Seq<u8>,
}

impl View for DirJob {
    type V = JobView;

    open spec fn view(&self) -> JobView {
        JobView { id: self.id, path: self.path@ }
    }
}

pub open spec fn job_views(jobs: Seq<DirJob>) -> Seq<JobView> {
    Seq::new(jobs.len(), |k: int| jobs[k]@)
}

/// The shared pool of pending directory jobs, split by priority against the focused path.
pub struct Frontier {
    /// The directory the user is currently viewing; jobs under it are prioritized.
    pub focus: Option<Vec<u8>>,
    /// Jobs whose path is under `focus`.
    pub hot: VecDeque<DirJob>,
    /// All other pending jobs.
    pub cold: VecDeque<DirJob>,
    /// Queued + in-flight jobs. The scan is finished when this hits zero.
    pub pending: usize,
    pub done: bool,
}

#[verifier::ext_equal]
pub struct FrontierView {
    pub focus: Option<Seq<u8>>,
    pub hot: Seq<JobView>,
    pub cold: Seq<JobView>,
    pub pending: int,
    pub done: bool,
}

impl View for Frontier {
    type V = FrontierView;

    open spec fn view(&self) -> FrontierView {
        FrontierView {
            focus: match self.focus {
                Some(path) => Some(path@),
                None => None,
            },
            hot: job_views(self.hot@),
            cold: job_views(self.cold@),
            pending: self.pending as int,
            done: self.done,
        }
    }
}

// ---- What the operations do ---------------------------------------------------------------------

/// The job's path lies under the focus.
pub open spec fn hot_job(focus: Option<Seq<u8>>, job: JobView) -> bool {
    match focus {
        Some(base) => paths::lies_under(job.path, base),
        None => false,
    }
}

/// The frontier with a job at the end of the queue it belongs to.
pub open spec fn pushed(f: FrontierView, job: JobView) -> FrontierView {
    if hot_job(f.focus, job) {
        FrontierView { hot: f.hot.push(job), ..f }
    } else {
        FrontierView { cold: f.cold.push(job), ..f }
    }
}

/// The frontier with jobs pushed one after the other.
pub open spec fn pushed_all(f: FrontierView, jobs: Seq<JobView>) -> FrontierView
    decreases jobs.len(),
{
    if jobs.len() == 0 {
        f
    } else {
        pushed(pushed_all(f, jobs.drop_last()), jobs.last())
    }
}

/// The job that comes next, and the frontier without it: the oldest hot one, or else the oldest
/// cold one.
pub open spec fn popped(f: FrontierView) -> (Option<JobView>, FrontierView) {
    if f.hot.len() > 0 {
        (Some(f.hot[0]), FrontierView { hot: f.hot.skip(1), ..f })
    } else if f.cold.len() > 0 {
        (Some(f.cold[0]), FrontierView { cold: f.cold.skip(1), ..f })
    } else {
        (None, f)
    }
}

/// The frontier with every queued job put where it belongs under a new focus.
pub open spec fn refocused(f: FrontierView, focus: Option<Seq<u8>>) -> FrontierView {
    pushed_all(
        FrontierView { focus, hot: Seq::empty(), cold: Seq::empty(), ..f },
        f.hot + f.cold,
    )
}

/// Every queued job stands where it belongs.
pub open spec fn sorted_by_focus(f: FrontierView) -> bool {
    &&& forall|k: int| 0 <= k < f.hot.len() ==> hot_job(f.focus, #[trigger] f.hot[k])
    &&& forall|k: int| 0 <= k < f.cold.len() ==> !hot_job(f.focus, #[trigger] f.cold[k])
}

/// The count of pending jobs is right while `running` of them are being worked on, and the scan is
/// over just when none is left.
pub open spec fn accounts(f: FrontierView, running: int) -> bool {
    &&& f.pending == f.hot.len() + f.cold.len() + running
    &&& 0 <= running
    &&& f.done <==> f.pending == 0
}

/// What a worker does next.
pub enum Next {
    /// Work on this job.
    Job(DirJob),
    /// Nothing is queued, but jobs are in flight: wait.
    Wait,
    /// The scan is over.
    Done,
}

impl Frontier {
    /// The frontier of a scan of `root` under the id `id_base`.
    pub fn new(root: Vec<u8>, id_base: u64) -> (f: Frontier)
        ensures
            f@ == (FrontierView {
                focus: None,
                hot: Seq::empty(),
                cold: seq![JobView { id: id_base, path: root@ }],
                pending: 1,
                done: false,
            }),
            sorted_by_focus(f@),
            accounts(f@, 0),
    {
        let mut cold: VecDeque<DirJob> = VecDeque::new();
        let ghost job = JobView { id: id_base, path: root@ };
        cold.push_back(DirJob { id: id_base, path: root });
        // The root job is the one that is pending.
        let f = Frontier { focus: None, hot: VecDeque::new(), cold, pending: 1, done: false };
        assert(f@.cold =~= seq![job]);
        assert(f@.hot =~= Seq::empty());
        f
    }

    pub fn is_hot(focus: &Option<Vec<u8>>, path: &Vec<u8>) -> (yes: bool)
        ensures
            yes == match *focus {
                Some(base) => paths::lies_under(path@, base@),
                None => false,
            },
    {
        match focus {
            Some(base) => paths::starts_with(path, base),
            None => false,
        }
    }

    pub fn push(&mut self, job: DirJob)
        ensures
            final(self)@ == pushed(old(self)@, job@),
    {
        let ghost before = self@;
        let ghost j = job@;
        if Self::is_hot(&self.focus, &job.path) {
            self.hot.push_back(job);
            assert(self@.hot =~= before.hot.push(j));
        } else {
            self.cold.push_back(job);
            assert(self@.cold =~= before.cold.push(j));
        }
    }

    pub fn pop(&mut self) -> (job: Option<DirJob>)
        ensures
            match job {
                Some(job) => popped(old(self)@) == (Some(job@), final(self)@),
                None => popped(old(self)@) == (None::<JobView>, final(self)@),
            },
    {
        let ghost before = self@;
        let ghost hot = self.hot@;
        let ghost cold = self.cold@;
        match self.hot.pop_front() {
            Some(job) => {
                proof {
                    assert(before.hot[0] == hot[0]@);
                    assert(self@.hot =~= before.hot.skip(1));
                }
                Some(job)
            },
            None => {
                let job = self.cold.pop_front();
                proof {
                    assert(self@.hot =~= before.hot);
                    if job is Some {
                        assert(before.cold[0] == cold[0]@);
                        assert(self@.cold =~= before.cold.skip(1));
                    } else {
                        assert(self@.cold =~= before.cold);
                    }
                }
                job
            },
        }
    }

    /// Take the next job, preferring the focused subtree.
    pub fn take(&mut self) -> (next: Next)
        ensures
            match next {
                Next::Job(job) => popped(old(self)@) == (Some(job@), final(self)@),
                Next::Wait => final(self)@ == old(self)@ && popped(old(self)@).0 is None
                    && !old(self)@.done,
                Next::Done => final(self)@ == old(self)@ && popped(old(self)@).0 is None
                    && old(self)@.done,
            },
            forall|running: int| #[trigger]
                accounts(old(self)@, running) ==> accounts(
                    final(self)@,
                    if next is Job {
                        running + 1
                    } else {
                        running
                    },
                ),
            sorted_by_focus(old(self)@) ==> sorted_by_focus(final(self)@),
    {
        let ghost before = self@;
        let job = self.pop();
        proof {
            assert forall|k: int| 0 <= k < self@.hot.len() implies before.hot.contains(
                #[trigger] self@.hot[k],
            ) by {
                if before.hot.len() > self@.hot.len() {
                    assert(self@.hot[k] == before.hot[k + 1]);
                } else {
                    assert(self@.hot[k] == before.hot[k]);
                }
            }
            assert forall|k: int| 0 <= k < self@.cold.len() implies before.cold.contains(
                #[trigger] self@.cold[k],
            ) by {
                if before.cold.len() > self@.cold.len() {
                    assert(self@.cold[k] == before.cold[k + 1]);
                } else {
                    assert(self@.cold[k] == before.cold[k]);
                }
            }
        }
        match job {
            Some(job) => Next::Job(job),
            None => if self.done {
                Next::Done
            } else {
                Next::Wait
            },
        }
    }

    /// Queue the subdirectories that a job turned up.
    pub fn enqueue(&mut self, jobs: Vec<DirJob>)
        requires
            old(self)@.pending + jobs@.len() <= usize::MAX,
        ensures
            final(self)@ == (FrontierView {
                pending: old(self)@.pending + jobs@.len(),
                ..pushed_all(old(self)@, job_views(jobs@))
            }),
            forall|running: int| #[trigger]
                accounts(old(self)@, running) && running > 0 ==> accounts(final(self)@, running),
            sorted_by_focus(old(self)@) ==> sorted_by_focus(final(self)@),
    {
        let ghost before = self@;
        self.pending = self.pending + jobs.len();
        proof {
            lemma_pushed_all(before, job_views(jobs@));
            lemma_pushed_all_pending(before, job_views(jobs@), self@.pending);
        }
        self.push_all(jobs);
    }

    fn push_all(&mut self, jobs: Vec<DirJob>)
        ensures
            final(self)@ == pushed_all(old(self)@, job_views(jobs@)),
    {
        let ghost before = self@;
        let ghost all = job_views(jobs@);
        let ghost given = jobs@;
        assert(all.take(0) =~= Seq::empty());
        for job in it: jobs
            invariant
                it.seq() == given,
                all == job_views(given),
                self@ == pushed_all(before, all.take(it.index())),
        {
            proof {
                let k = it.index();
                assert(all.take(k + 1).drop_last() =~= all.take(k));
                assert(all.take(k + 1).last() == job@);
            }
            self.push(job);
        }
        assert(all.take(given.len() as int) =~= all);
    }

    /// A job is complete. If it was the last one, the scan is over; returns whether it is.
    pub fn complete(&mut self) -> (over: bool)
        requires
            old(self)@.pending > 0,
        ensures
            over == (old(self)@.pending == 1),
            final(self)@ == (FrontierView {
                pending: old(self)@.pending - 1,
                done: old(self)@.done || over,
                ..old(self)@
            }),
            forall|running: int| #[trigger]
                accounts(old(self)@, running) && running > 0 ==> accounts(
                    final(self)@,
                    running - 1,
                ),
    {
        self.pending = self.pending - 1;
        if self.pending == 0 {
            self.done = true;
            true
        } else {
            false
        }
    }

    /// Prioritize the subtree rooted at `path`. Pending jobs are re-partitioned so anything under
    /// `path` is scanned before unrelated branches.
    pub fn refocus(&mut self, path: Option<Vec<u8>>)
        ensures
            final(self)@ == refocused(
                old(self)@,
                match path {
                    Some(path) => Some(path@),
                    None => None,
                },
            ),
            sorted_by_focus(final(self)@),
            forall|running: int| #[trigger]
                accounts(old(self)@, running) ==> accounts(final(self)@, running),
    {
        let ghost before = self@;
        let mut all: Vec<DirJob> = Vec::new();
        assert(job_views(all@) =~= before.hot.take(0));
        while self.hot.len() > 0
            invariant
                self@ == (FrontierView { hot: self@.hot, ..before }),
                job_views(all@) + self@.hot == before.hot,
            decreases self.hot@.len(),
        {
            Self::shift(&mut self.hot, &mut all);
        }
        assert(self@.hot =~= Seq::empty());
        assert(job_views(all@) =~= before.hot);
        while self.cold.len() > 0
            invariant
                self@ == (FrontierView { hot: Seq::empty(), cold: self@.cold, ..before }),
                job_views(all@) + self@.cold == before.hot + before.cold,
            decreases self.cold@.len(),
        {
            Self::shift(&mut self.cold, &mut all);
        }
        assert(self@.cold =~= Seq::empty());
        assert(job_views(all@) =~= before.hot + before.cold);
        self.focus = path;
        let ghost empty = self@;
        proof {
            lemma_pushed_all(empty, job_views(all@));
        }
        self.push_all(all);
    }

    /// Move the first job of a queue to the end of a list.
    fn shift(queue: &mut VecDeque<DirJob>, all: &mut Vec<DirJob>)
        requires
            old(queue)@.len() > 0,
        ensures
            job_views(final(all)@) + job_views(final(queue)@) == job_views(old(all)@) + job_views(
                old(queue)@,
            ),
            final(queue)@.len() == old(queue)@.len() - 1,
    {
        let ghost before = queue@;
        let ghost listed = all@;
        if let Some(job) = queue.pop_front() {
            all.push(job);
            assert(job_views(all@) + job_views(queue@) =~= job_views(listed) + job_views(before))
                by {
                assert(before[0] == job);
                assert(queue@ =~= before.skip(1));
            }
        }
    }
}

/// Pushing jobs puts each where it belongs, and adds as many as are pushed.
pub proof fn lemma_pushed_all(f: FrontierView, jobs: Seq<JobView>)
    ensures
        pushed_all(f, jobs).focus == f.focus,
        pushed_all(f, jobs).pending == f.pending,
        pushed_all(f, jobs).done == f.done,
        pushed_all(f, jobs).hot.len() + pushed_all(f, jobs).cold.len() == f.hot.len() + f.cold.len()
            + jobs.len(),
        sorted_by_focus(f) ==> sorted_by_focus(pushed_all(f, jobs)),
    decreases jobs.len(),
{
    if jobs.len() > 0 {
        lemma_pushed_all(f, jobs.drop_last());
    }
}

proof fn lemma_pushed_all_pending(f: FrontierView, jobs: Seq<JobView>, pending: int)
    ensures
        pushed_all(FrontierView { pending, ..f }, jobs) == (FrontierView {
            pending,
            ..pushed_all(f, jobs)
        }),
    decreases jobs.len(),
{
    if jobs.len() > 0 {
        lemma_pushed_all_pending(f, jobs.drop_last(), pending);
    }
}

// ---- Laws -----------------------------------------------------------------------------------------

/// Changing the focus loses no job and makes up none, and keeps jobs of the same priority in order.
pub proof fn law_refocus_keeps_jobs(f: FrontierView, focus: Option<Seq<u8>>)
    ensures
        refocused(f, focus).hot == (f.hot + f.cold).filter(|job: JobView| hot_job(focus, job)),
        refocused(f, focus).cold == (f.hot + f.cold).filter(|job: JobView| !hot_job(focus, job)),
{
    let empty = FrontierView { focus, hot: Seq::empty(), cold: Seq::empty(), ..f };
    lemma_pushed_filter(empty, f.hot + f.cold);
}

proof fn lemma_pushed_filter(f: FrontierView, jobs: Seq<JobView>)
    requires
        f.hot.len() == 0,
        f.cold.len() == 0,
    ensures
        pushed_all(f, jobs).hot == jobs.filter(|job: JobView| hot_job(f.focus, job)),
        pushed_all(f, jobs).cold == jobs.filter(|job: JobView| !hot_job(f.focus, job)),
    decreases jobs.len(),
{
    reveal(Seq::filter);
    if jobs.len() > 0 {
        lemma_pushed_filter(f, jobs.drop_last());
        lemma_pushed_all(f, jobs.drop_last());
    } else {
        assert(f.hot =~= Seq::empty());
        assert(f.cold =~= Seq::empty());
    }
}

/// As long as a job under the focus is queued, the next job is one under the focus.
pub proof fn law_focused_jobs_first(f: FrontierView)
    requires
        sorted_by_focus(f),
        exists|k: int|
            0 <= k < (f.hot + f.cold).len() && hot_job(f.focus, #[trigger] (f.hot + f.cold)[k]),
    ensures
        popped(f).0 is Some,
        hot_job(f.focus, popped(f).0->0),
{
    let all = f.hot + f.cold;
    let k = choose|k: int| 0 <= k < all.len() && hot_job(f.focus, #[trigger] all[k]);
    if k >= f.hot.len() {
        assert(!hot_job(f.focus, f.cold[k - f.hot.len()]));
    }
    assert(hot_job(f.focus, f.hot[0]));
}

/// Without a focus jobs come in the order in which they were queued, each just once; and with one, those
/// under it come in their order before those that are not.
pub proof fn law_jobs_wait_their_turn(f: FrontierView, job: JobView)
    ensures
        ({
            let waiting = f.hot + f.cold;
            let (first, rest) = popped(f);
            let more = pushed(f, job);
            &&& waiting.len() == 0 ==> first is None && rest == f
            &&& waiting.len() > 0 ==> first == Some(waiting[0]) && rest.hot + rest.cold == waiting.skip(1)
            &&& f.focus is None ==> more.hot + more.cold == waiting + seq![job]
            &&& f.focus is Some ==> if paths::lies_under(job.path, f.focus->0) {
                more.hot == f.hot + seq![job] && more.cold == f.cold
            } else {
                more.hot == f.hot && more.cold == f.cold + seq![job]
            }
            &&& more.focus == f.focus && rest.focus == f.focus
        }),
{
    let waiting = f.hot + f.cold;
    let (first, rest) = popped(f);
    let more = pushed(f, job);
    if waiting.len() > 0 {
        assert(rest.hot + rest.cold =~= waiting.skip(1));
    }
    if f.focus is None {
        assert(more.hot + more.cold =~= waiting + seq![job]);
    } else {
        assert(f.hot.push(job) =~= f.hot + seq![job]);
        assert(f.cold.push(job) =~= f.cold + seq![job]);
    }
}

} // verus!
